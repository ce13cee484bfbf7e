use mailcheck::services::check::{CheckAction, CheckPhase, CheckRun};
use mailcheck::services::smtp::{ProbeStage, Verdict, Verification};

fn patterns(list: &[&str]) -> Vec<String> {
    list.iter().map(|p| p.to_string()).collect()
}

fn verified(verdict: Verdict, code: u16) -> Verification {
    Verification { verdict, code, stage: Some(ProbeStage::Recipient) }
}

fn address(a: &CheckAction) -> String {
    match a {
        CheckAction::Verify(x) => x.clone(),
        other => panic!("expected a verification, got {other:?}"),
    }
}

#[test]
fn refuses_line_breaks() {
    let err = CheckRun::start("example.com", "Ja\nne", "Doe", &patterns(&["{first}"]), 1).unwrap_err();
    assert_eq!(err, "domain and names must not contain newlines");
}

#[test]
fn no_mail_host_gives_one_unknown_row() {
    let (mut run, a) = CheckRun::start("example.com", "Jane", "Doe", &patterns(&["{first}"]), 1).unwrap();
    assert!(matches!(a, CheckAction::LookupHosts));
    assert!(run.awaits_hosts());
    match run.hosts_found(false) {
        CheckAction::Finish(rows) => {
            assert_eq!(rows.len(), 1);
            assert_eq!(rows[0].status, "unknown");
            assert_eq!(rows[0].email, "");
            assert_eq!(rows[0].reason, "no usable MX records found for domain");
        },
        other => panic!("{other:?}"),
    }
    assert_eq!(run.phase, CheckPhase::Done);
}

#[test]
fn accept_all_domain_is_opaque() {
    let (mut run, _) = CheckRun::start("example.com", "Jane", "Doe", &patterns(&["{first}", "{f}{last}"]), 0x1f).unwrap();
    let a = run.hosts_found(true);
    assert_eq!(address(&a), "mailcheck-probe-1f-0@example.com");
    let a = run.verified(verified(Verdict::Valid, 250));
    assert_eq!(address(&a), "mailcheck-probe-1f-1@example.com");
    match run.verified(verified(Verdict::Valid, 250)) {
        CheckAction::Finish(rows) => {
            assert_eq!(rows.len(), 2);
            assert_eq!(rows[0].email, "jane@example.com");
            assert_eq!(rows[1].email, "jdoe@example.com");
            assert!(rows.iter().all(|r| r.status == "opaque" && !r.passed));
        },
        other => panic!("{other:?}"),
    }
}

#[test]
fn selective_domain_confirms_and_rejects() {
    let (mut run, _) = CheckRun::start("example.com", "Jane", "Doe", &patterns(&["{f}{last}", "{first}"]), 7).unwrap();
    run.hosts_found(true);
    run.verified(verified(Verdict::Invalid, 550));
    let a = run.verified(verified(Verdict::Invalid, 550));
    assert_eq!(address(&a), "jdoe@example.com");
    assert!(run.awaits_verification());
    let a = run.verified(verified(Verdict::Invalid, 550));
    assert_eq!(address(&a), "jane@example.com");
    match run.verified(verified(Verdict::Valid, 250)) {
        CheckAction::Finish(rows) => {
            assert_eq!(rows.len(), 2);
            assert_eq!(rows[0].email, "jdoe@example.com");
            assert_eq!(rows[0].status, "rejected");
            assert_eq!(rows[0].reason, "mailbox rejected by server (code 550)");
            assert_eq!(rows[1].status, "confirmed");
            assert!(rows[1].passed);
        },
        other => panic!("{other:?}"),
    }
}

#[test]
fn inconclusive_domain_is_unverifiable() {
    let (mut run, _) = CheckRun::start("example.com", "Jane", "Doe", &patterns(&["{first}"]), 7).unwrap();
    run.hosts_found(true);
    run.verified(verified(Verdict::Invalid, 550));
    run.verified(Verification { verdict: Verdict::Unknown, code: 0, stage: None });
    match run.verified(verified(Verdict::Valid, 250)) {
        CheckAction::Finish(rows) => {
            assert_eq!(rows.len(), 1);
            assert_eq!(rows[0].status, "unverifiable");
            assert!(!rows[0].passed);
            assert_eq!(rows[0].reason, "catch-all probes were inconclusive; email accepted by server");
        },
        other => panic!("{other:?}"),
    }
}

#[test]
fn no_candidates_means_no_rows() {
    let (mut run, _) = CheckRun::start("example.com", "Jane", "Doe", &[], 7).unwrap();
    run.hosts_found(true);
    run.verified(verified(Verdict::Invalid, 550));
    match run.verified(verified(Verdict::Invalid, 550)) {
        CheckAction::Finish(rows) => assert!(rows.is_empty()),
        other => panic!("{other:?}"),
    }
}
