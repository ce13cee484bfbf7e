//! Self-update decisions: which release asset fits the platform, whether an
//! update is needed, and whether a download matches its published checksum.
use vstd::prelude::*;

use sha2::Digest;

use crate::services::smtp::lines_of;
use crate::text::{
    chars_of, eq_ignore_ascii_case, is_whitespace, is_ws, owned, push_char, string_from,
    sub_chars, trim_start,
};

verus! {

/// The repository releases are published from.
pub open spec fn repository() -> Seq<char> {
    "harshit-sandilya/mailcheck"@
}

/// The repository releases are published from.
pub fn release_repository() -> (r: &'static str)
    ensures
        r@ == repository(),
{
    "harshit-sandilya/mailcheck"
}

/// Whether the latest release tag is the running version: the tag is `v`
/// followed by the version.
pub fn is_current_release(latest: &str, current: &str) -> (r: bool)
    ensures
        r == (latest@ == "v"@ + current@),
{
    let tag = crate::text::concat("v", current);
    let l = owned(latest);
    l == tag
}

/// The release asset for an operating system and architecture.
pub open spec fn artifact_view(os: Seq<char>, arch: Seq<char>) -> Option<Seq<char>> {
    if os == "linux"@ && arch == "x86_64"@ {
        Some("mailcheck-linux-x86_64"@)
    } else if os == "linux"@ && arch == "aarch64"@ {
        Some("mailcheck-linux-aarch64"@)
    } else if os == "macos"@ && arch == "x86_64"@ {
        Some("mailcheck-macos-x86_64"@)
    } else if os == "macos"@ && arch == "aarch64"@ {
        Some("mailcheck-macos-aarch64"@)
    } else {
        None
    }
}

/// Whether two strings are equal.
fn same(a: &str, b: &str) -> (r: bool)
    ensures
        r == (a@ == b@),
{
    owned(a) == owned(b)
}

/// The release asset for an operating system and architecture; `None` for an
/// unsupported platform.
pub fn artifact_for(os: &str, arch: &str) -> (r: Option<&'static str>)
    ensures
        match r {
            Some(a) => artifact_view(os@, arch@) == Some(a@),
            None => artifact_view(os@, arch@) is None,
        },
{
    if same(os, "linux") && same(arch, "x86_64") {
        Some("mailcheck-linux-x86_64")
    } else if same(os, "linux") && same(arch, "aarch64") {
        Some("mailcheck-linux-aarch64")
    } else if same(os, "macos") && same(arch, "x86_64") {
        Some("mailcheck-macos-x86_64")
    } else if same(os, "macos") && same(arch, "aarch64") {
        Some("mailcheck-macos-aarch64")
    } else {
        None
    }
}

/// The address of the latest-release record of a repository.
pub fn latest_release_url(repo: &str) -> (r: String)
    ensures
        r@ == "https://api.github.com/repos/"@ + repo@ + "/releases/latest"@,
{
    let mut r = owned("https://api.github.com/repos/");
    r.append(repo);
    r.append("/releases/latest");
    r
}

/// The download address of a file of a release.
pub fn release_file_url(repo: &str, tag: &str, file: &str) -> (r: String)
    ensures
        r@ == "https://github.com/"@ + repo@ + "/releases/download/"@ + tag@ + "/"@ + file@,
{
    let mut r = owned("https://github.com/");
    r.append(repo);
    r.append("/releases/download/");
    r.append(tag);
    r.append("/");
    r.append(file);
    r
}

// ---------------------------------------------------------------------------
// Checksums
// ---------------------------------------------------------------------------

/// The number of leading characters of `s` that are not whitespace.
pub open spec fn word_len(s: Seq<char>) -> nat
    decreases s.len(),
{
    if s.len() == 0 || is_ws(s[0]) {
        0
    } else {
        1 + word_len(s.drop_first())
    }
}

/// The first whitespace-separated word of `s` (empty when there is none).
pub open spec fn first_word(s: Seq<char>) -> Seq<char> {
    trim_start(s).take(word_len(trim_start(s)) as int)
}

/// What follows the first word of `s`.
pub open spec fn after_first_word(s: Seq<char>) -> Seq<char> {
    trim_start(s).skip(word_len(trim_start(s)) as int)
}

/// The hash and file name a checksum line starts with, when it has two words.
pub open spec fn checksum_entry(line: Seq<char>) -> Option<(Seq<char>, Seq<char>)> {
    let hash = first_word(line);
    let name = first_word(after_first_word(line));
    if hash.len() == 0 || name.len() == 0 {
        None
    } else {
        Some((hash, name))
    }
}

/// The hash of the first line of `lines` that names `artifact`.
pub open spec fn checksum_in(lines: Seq<Seq<char>>, artifact: Seq<char>) -> Option<Seq<char>>
    decreases lines.len(),
{
    if lines.len() == 0 {
        None
    } else {
        match checksum_entry(lines[0]) {
            Some((hash, name)) => if name == artifact {
                Some(hash)
            } else {
                checksum_in(lines.drop_first(), artifact)
            },
            None => checksum_in(lines.drop_first(), artifact),
        }
    }
}

proof fn lemma_word_len(s: Seq<char>)
    ensures
        word_len(s) <= s.len(),
        forall|i: int| 0 <= i < word_len(s) ==> !is_ws(#[trigger] s[i]),
        word_len(s) < s.len() ==> is_ws(s[word_len(s) as int]),
    decreases s.len(),
{
    if s.len() > 0 && !is_ws(s[0]) {
        lemma_word_len(s.drop_first());
        assert forall|i: int| 0 <= i < word_len(s) implies !is_ws(#[trigger] s[i]) by {
            if i > 0 {
                assert(s[i] == s.drop_first()[i - 1]);
            }
        }
        if word_len(s) < s.len() {
            assert(s[word_len(s) as int] == s.drop_first()[word_len(s) - 1]);
        }
    }
}

proof fn lemma_trim_start_skip(s: Seq<char>, i: int)
    requires
        0 <= i < s.len(),
        is_ws(s[i]),
    ensures
        trim_start(s.skip(i)) == trim_start(s.skip(i + 1)),
{
    assert(s.skip(i).drop_first() =~= s.skip(i + 1));
}

/// The first word of `v[from..]` as positions: where it starts and ends.
fn word_at(v: &Vec<char>, from: usize) -> (r: (usize, usize))
    requires
        from <= v.len(),
    ensures
        from <= r.0 <= r.1 <= v.len(),
        trim_start(v@.skip(from as int)) == v@.skip(r.0 as int),
        v@.subrange(r.0 as int, r.1 as int) == first_word(v@.skip(from as int)),
        v@.skip(r.1 as int) == after_first_word(v@.skip(from as int)),
{
    let mut i = from;
    assert(v@.skip(from as int).skip(0) =~= v@.skip(from as int));
    while i < v.len() && is_whitespace(v[i])
        invariant
            from <= i <= v.len(),
            trim_start(v@.skip(from as int)) == trim_start(v@.skip(i as int)),
        decreases v.len() - i,
    {
        proof {
            lemma_trim_start_skip(v@, i as int);
        }
        i = i + 1;
    }
    let ghost rest = v@.skip(i as int);
    assert(trim_start(rest) == rest);
    let mut j = i;
    while j < v.len() && !is_whitespace(v[j])
        invariant
            i <= j <= v.len(),
            rest == v@.skip(i as int),
            word_len(rest) == (j - i) + word_len(v@.skip(j as int)),
        decreases v.len() - j,
    {
        assert(v@.skip(j as int)[0] == v@[j as int]);
        assert(v@.skip(j as int).drop_first() =~= v@.skip(j + 1));
        j = j + 1;
    }
    if j < v.len() {
        assert(v@.skip(j as int)[0] == v@[j as int]);
    }
    assert(word_len(v@.skip(j as int)) == 0);
    assert(rest.take(j - i) =~= v@.subrange(i as int, j as int));
    assert(rest.skip(j - i) =~= v@.skip(j as int));
    (i, j)
}

/// The hash and name a checksum line starts with.
fn line_entry(line: &Vec<char>) -> (r: Option<(Vec<char>, Vec<char>)>)
    ensures
        match r {
            Some((h, n)) => checksum_entry(line@) == Some((h@, n@)),
            None => checksum_entry(line@) is None,
        },
{
    assert(line@.skip(0) =~= line@);
    let (a, b) = word_at(line, 0);
    let (c, d) = word_at(line, b);
    if a == b || c == d {
        return None;
    }
    Some((sub_chars(line, a, b), sub_chars(line, c, d)))
}

/// The published hash of `artifact` in a checksum list: the first word of
/// the first line whose second word is the artifact's name.
pub fn expected_checksum(checksums: &str, artifact: &str) -> (r: Option<String>)
    ensures
        match r {
            Some(h) => checksum_in(lines_of(checksums@), artifact@) == Some(h@),
            None => checksum_in(lines_of(checksums@), artifact@) is None,
        },
{
    let v = chars_of(checksums);
    let target = chars_of(artifact);
    let mut p: usize = 0;
    assert(v@.skip(0) =~= v@);
    while p < v.len()
        invariant
            p <= v.len(),
            v@ == checksums@,
            target@ == artifact@,
            checksum_in(lines_of(v@), artifact@) == checksum_in(lines_of(v@.skip(p as int)), artifact@),
        decreases v.len() - p,
    {
        let ghost rest = v@.skip(p as int);
        proof {
            crate::text::lemma_find_char(rest, '\n');
        }
        let (line, next) = match crate::text::find_from(&v, p, '\n') {
            Some(k) => {
                let mut end = p + k;
                if end > p && v[end - 1] == '\r' {
                    end = end - 1;
                }
                let line = sub_chars(&v, p, end);
                assert(line@ =~= crate::services::smtp::strip_cr(rest.take(k as int)));
                assert(lines_of(rest) =~= seq![line@] + lines_of(rest.skip(k + 1)));
                assert(lines_of(rest).drop_first() =~= lines_of(rest.skip(k + 1)));
                assert(rest.skip(k + 1) =~= v@.skip(p + k + 1));
                (line, p + k + 1)
            },
            None => {
                let line = sub_chars(&v, p, v.len());
                assert(line@ =~= rest);
                assert(lines_of(rest) =~= seq![rest]);
                assert(lines_of(rest).drop_first() =~= Seq::<Seq<char>>::empty());
                assert(v@.skip(v.len() as int) =~= Seq::<char>::empty());
                (line, v.len())
            },
        };
        assert(lines_of(rest)[0] == line@);
        assert(lines_of(rest).drop_first() == lines_of(v@.skip(next as int)));
        match line_entry(&line) {
            Some((hash, name)) => {
                if crate::text::chars_eq(&name, &target) {
                    return Some(string_from(&hash));
                }
            },
            None => {},
        }
        p = next;
    }
    assert(v@.skip(p as int) =~= Seq::<char>::empty());
    assert(lines_of(v@.skip(p as int)) =~= Seq::<Seq<char>>::empty());
    None
}

/// What SHA-256 gives for a byte sequence.
pub uninterp spec fn sha256(data: Seq<u8>) -> Seq<u8>;

/// Calls `sha2::Sha256::digest`; claims that the result is the named
/// `sha256` of the input and is 32 bytes long (the output size of SHA-256).
#[verifier::external_body]
fn sha256_digest(data: &[u8]) -> (r: Vec<u8>)
    ensures
        r@ == sha256(data@),
        r@.len() == 32,
{
    sha2::Sha256::digest(data).to_vec()
}

/// Lower-case hexadecimal, two digits per byte (`{:x}` on a digest).
pub open spec fn hex_bytes(b: Seq<u8>) -> Seq<char>
    decreases b.len(),
{
    if b.len() == 0 {
        Seq::empty()
    } else {
        hex_bytes(b.drop_last()) + seq![
            crate::text::digit_char((b.last() / 16) as nat),
            crate::text::digit_char((b.last() % 16) as nat),
        ]
    }
}

/// Lower-case hexadecimal of `b`, two digits per byte.
fn hex_of_bytes(b: &[u8]) -> (r: String)
    ensures
        r@ == hex_bytes(b@),
{
    let mut r = String::new();
    let mut i: usize = 0;
    while i < b.len()
        invariant
            i <= b.len(),
            r@ == hex_bytes(b@.take(i as int)),
        decreases b.len() - i,
    {
        let x = b[i];
        assert(b@.take(i + 1).drop_last() =~= b@.take(i as int));
        push_char(&mut r, crate::text::hex_digit((x / 16) as u128));
        push_char(&mut r, crate::text::hex_digit((x % 16) as u128));
        assert(r@ =~= hex_bytes(b@.take(i + 1)));
        i = i + 1;
    }
    assert(b@.take(i as int) =~= b@);
    r
}

/// Whether a SHA-256 digest, in lower-case hexadecimal, equals `expected`
/// ignoring ASCII case.
pub fn digest_matches(digest: &[u8], expected: &str) -> (r: bool)
    ensures
        r == eq_ignore_ascii_case(hex_bytes(digest@), expected@),
{
    let actual = hex_of_bytes(digest);
    let a = chars_of(actual.as_str());
    let e = chars_of(expected);
    crate::services::smtp::chars_eq_ignore_ascii_case(&a, &e)
}

/// Whether a download matches the published hash: its SHA-256 in
/// hexadecimal equals `expected`, ignoring ASCII case.
pub fn checksum_matches(bytes: &[u8], expected: &str) -> (r: bool)
    ensures
        r == eq_ignore_ascii_case(hex_bytes(sha256(bytes@)), expected@),
{
    let digest = sha256_digest(bytes);
    digest_matches(digest.as_slice(), expected)
}

} // verus!
