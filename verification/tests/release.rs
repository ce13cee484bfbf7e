use mailcheck::services::release::{
    artifact_for, checksum_matches, digest_matches, expected_checksum, is_current_release, latest_release_url,
    release_file_url, release_repository,
};

#[test]
fn compares_release_tags() {
    assert!(is_current_release("v0.3.1", "0.3.1"));
    assert!(!is_current_release("v0.3.2", "0.3.1"));
    assert!(!is_current_release("0.3.1", "0.3.1"));
}

#[test]
fn picks_the_platform_asset() {
    assert_eq!(artifact_for("linux", "x86_64"), Some("mailcheck-linux-x86_64"));
    assert_eq!(artifact_for("linux", "aarch64"), Some("mailcheck-linux-aarch64"));
    assert_eq!(artifact_for("macos", "x86_64"), Some("mailcheck-macos-x86_64"));
    assert_eq!(artifact_for("macos", "aarch64"), Some("mailcheck-macos-aarch64"));
    assert_eq!(artifact_for("windows", "x86_64"), None);
    assert_eq!(artifact_for("linux", "riscv64"), None);
}

#[test]
fn builds_release_urls() {
    assert_eq!(release_repository(), "harshit-sandilya/mailcheck");
    assert_eq!(
        latest_release_url("o/r"),
        "https://api.github.com/repos/o/r/releases/latest"
    );
    assert_eq!(
        release_file_url("o/r", "v1.0.0", "checksums.txt"),
        "https://github.com/o/r/releases/download/v1.0.0/checksums.txt"
    );
}

#[test]
fn finds_the_published_checksum() {
    let list = "aaa  mailcheck-linux-aarch64\r\n\n  bbb mailcheck-linux-x86_64 extra\nccc mailcheck-linux-x86_64\nlonely\n";
    assert_eq!(expected_checksum(list, "mailcheck-linux-x86_64"), Some("bbb".to_string()));
    assert_eq!(expected_checksum(list, "mailcheck-linux-aarch64"), Some("aaa".to_string()));
    assert_eq!(expected_checksum(list, "mailcheck-macos-x86_64"), None);
    assert_eq!(expected_checksum("", "x"), None);
    assert_eq!(expected_checksum("h\tname", "name"), Some("h".to_string()));
}

#[test]
fn checks_sha256_of_downloads() {
    let abc = "ba7816bf8f01cfea414140de5dae2223b00361a396177a9cb410ff61f20015ad";
    assert!(checksum_matches(b"abc", abc));
    assert!(checksum_matches(b"abc", &abc.to_uppercase()));
    assert!(!checksum_matches(b"abd", abc));
    assert!(!checksum_matches(b"abc", "ba7816bf"));
    let empty = "e3b0c44298fc1c149afbf4c8996fb92427ae41e4649b934ca495991b7852b855";
    assert!(checksum_matches(b"", empty));
}

#[test]
fn compares_digests_in_hex() {
    assert!(digest_matches(&[0x00, 0x0f, 0xab, 0xff], "000fabff"));
    assert!(digest_matches(&[0x00, 0x0f, 0xab, 0xff], "000FABFF"));
    assert!(!digest_matches(&[0x00, 0x0f, 0xab, 0xff], "0fabff"));
    assert!(!digest_matches(&[0x10], "01"));
    assert!(digest_matches(&[], ""));
}
