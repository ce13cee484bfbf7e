use mailcheck::services::smtp::{
    address_for, checked_output, classify_recipient_policy, fallback_hosts, fields_single_line,
    no_mx_output, opaque_outputs, order_mx_hosts, probe_address, reason_for, sender_ok,
    supports_starttls, ProbeAction, ProbeEvent, ProbeResult, ProbeSession, ProbeStage, ProbeState,
    RecipientPolicy, ReplyReader, ReplyStep, SmtpResponse, Verdict, Verification, VerifyProgress,
};

fn reply(code: u16, text: &str) -> ProbeEvent {
    ProbeEvent::Reply(Some(SmtpResponse { code, text: text.to_string() }))
}

fn sent(a: &ProbeAction) -> String {
    match a {
        ProbeAction::Send(c) => c.clone(),
        other => panic!("expected a command, got {other:?}"),
    }
}

fn finished(a: &ProbeAction) -> (Option<ProbeResult>, bool) {
    match a {
        ProbeAction::Finish { result, quit } => (*result, *quit),
        other => panic!("expected the end, got {other:?}"),
    }
}

fn verification(verdict: Verdict, code: u16, stage: Option<ProbeStage>) -> Verification {
    Verification { verdict, code, stage }
}

#[test]
fn baseline_probes_classify_recipient_policy_conservatively() {
    assert_eq!(
        classify_recipient_policy(&[Verdict::Valid, Verdict::Valid]),
        RecipientPolicy::AcceptAll
    );
    assert_eq!(
        classify_recipient_policy(&[Verdict::Invalid, Verdict::Invalid]),
        RecipientPolicy::Selective
    );
    assert_eq!(
        classify_recipient_policy(&[Verdict::Invalid, Verdict::Unknown]),
        RecipientPolicy::Inconclusive
    );
}

#[test]
fn classification_edge_cases() {
    assert_eq!(classify_recipient_policy(&[Verdict::Valid, Verdict::Invalid]), RecipientPolicy::Inconclusive);
    assert_eq!(classify_recipient_policy(&[Verdict::Unknown, Verdict::Unknown]), RecipientPolicy::Inconclusive);
    assert_eq!(classify_recipient_policy(&[]), RecipientPolicy::AcceptAll);
}

#[test]
fn reads_single_and_multiline_replies() {
    let mut r = ReplyReader::new();
    match r.feed("250 OK\r\n") {
        ReplyStep::Done(resp) => {
            assert_eq!(resp.code, 250);
            assert_eq!(resp.text, "250 OK\r\n");
        },
        other => panic!("{other:?}"),
    }
    let mut r = ReplyReader::new();
    assert!(matches!(r.feed("250-mx.example.com\r\n"), ReplyStep::More));
    assert!(matches!(r.feed("251-SIZE\r\n"), ReplyStep::More));
    match r.feed("252 STARTTLS\r\n") {
        ReplyStep::Done(resp) => {
            assert_eq!(resp.code, 250);
            assert_eq!(resp.text, "250-mx.example.com\r\n251-SIZE\r\n252 STARTTLS\r\n");
        },
        other => panic!("{other:?}"),
    }
}

#[test]
fn rejects_malformed_reply_lines() {
    assert!(matches!(ReplyReader::new().feed(""), ReplyStep::Failed));
    assert!(matches!(ReplyReader::new().feed("25\n"), ReplyStep::Failed));
    assert!(matches!(ReplyReader::new().feed("abc def\r\n"), ReplyStep::Failed));
    match ReplyReader::new().feed("+21 odd\n") {
        ReplyStep::Done(resp) => assert_eq!(resp.code, 21),
        other => panic!("{other:?}"),
    }
}

#[test]
fn detects_starttls_offers() {
    assert!(supports_starttls("250-mx.example.com\r\n250-SIZE 1000\r\n250 STARTTLS\r\n"));
    assert!(supports_starttls("250-a\n250-starttls  \n250 OK\n"));
    assert!(!supports_starttls("250-mx.example.com\r\n250 SIZE\r\n"));
    assert!(!supports_starttls("250 STARTTLS-ISH\r\n"));
    assert!(!supports_starttls(""));
}

#[test]
fn probe_dialogue_with_starttls() {
    let (mut s, a) = ProbeSession::start("me@x.org".to_string(), "mailcheck.local".to_string(), "jane@example.com".to_string());
    assert!(matches!(a, ProbeAction::Connect));
    let a = s.step(reply(220, "220 ready\r\n"));
    assert_eq!(sent(&a), "EHLO mailcheck.local\r\n");
    let a = s.step(reply(250, "250-mx\r\n250 STARTTLS\r\n"));
    assert_eq!(sent(&a), "STARTTLS\r\n");
    let a = s.step(reply(220, "220 go ahead\r\n"));
    assert!(matches!(a, ProbeAction::UpgradeTls));
    let a = s.step(ProbeEvent::Handshake(true));
    assert_eq!(sent(&a), "EHLO mailcheck.local\r\n");
    let a = s.step(reply(250, "250-mx\r\n250 STARTTLS\r\n"));
    assert_eq!(sent(&a), "MAIL FROM:<me@x.org>\r\n");
    let a = s.step(reply(250, "250 OK\r\n"));
    assert_eq!(sent(&a), "RCPT TO:<jane@example.com>\r\n");
    let a = s.step(reply(550, "550 no such user\r\n"));
    assert_eq!(finished(&a), (Some(ProbeResult { code: 550, stage: ProbeStage::Recipient }), true));
    assert_eq!(s.state, ProbeState::Done);
}

#[test]
fn probe_dialogue_falls_back_to_helo() {
    let (mut s, _) = ProbeSession::start("me@x.org".to_string(), "h".to_string(), "a@b.c".to_string());
    s.step(reply(220, "220\r\n"));
    let a = s.step(reply(502, "502 no\r\n"));
    assert_eq!(sent(&a), "HELO h\r\n");
    let a = s.step(reply(250, "250 hi\r\n"));
    assert_eq!(sent(&a), "MAIL FROM:<me@x.org>\r\n");
    let a = s.step(reply(451, "451 later\r\n"));
    assert_eq!(finished(&a), (Some(ProbeResult { code: 451, stage: ProbeStage::MailFrom }), false));
}

#[test]
fn probe_dialogue_failures() {
    let (mut s, _) = ProbeSession::start("f".to_string(), "h".to_string(), "a@b.c".to_string());
    let a = s.step(reply(554, "554 go away\r\n"));
    assert_eq!(finished(&a), (Some(ProbeResult { code: 554, stage: ProbeStage::Greeting }), false));

    let (mut s, _) = ProbeSession::start("f".to_string(), "h".to_string(), "a@b.c".to_string());
    let a = s.step(ProbeEvent::Reply(None));
    assert_eq!(finished(&a), (None, false));

    let (mut s, _) = ProbeSession::start("f".to_string(), "h".to_string(), "a@b.c".to_string());
    s.step(reply(220, "220\r\n"));
    let a = s.step(ProbeEvent::Reply(None));
    assert_eq!(finished(&a), (Some(ProbeResult { code: 0, stage: ProbeStage::Helo }), false));

    let (mut s, _) = ProbeSession::start("f".to_string(), "h".to_string(), "a@b.c".to_string());
    s.step(reply(220, "220\r\n"));
    s.step(reply(500, "500\r\n"));
    let a = s.step(reply(500, "500\r\n"));
    assert_eq!(finished(&a), (Some(ProbeResult { code: 0, stage: ProbeStage::Helo }), false));

    let (mut s, _) = ProbeSession::start("f".to_string(), "h".to_string(), "a@b.c".to_string());
    s.step(reply(220, "220\r\n"));
    s.step(reply(250, "250 STARTTLS\r\n"));
    let a = s.step(reply(454, "454 TLS unavailable\r\n"));
    assert_eq!(finished(&a), (Some(ProbeResult { code: 454, stage: ProbeStage::StartTls }), false));

    let (mut s, _) = ProbeSession::start("f".to_string(), "h".to_string(), "a@b.c".to_string());
    s.step(reply(220, "220\r\n"));
    s.step(reply(250, "250 STARTTLS\r\n"));
    s.step(reply(220, "220\r\n"));
    let a = s.step(ProbeEvent::Handshake(false));
    assert_eq!(finished(&a), (None, false));
}

#[test]
fn refuses_recipients_with_line_breaks() {
    let (s, a) = ProbeSession::start("f".to_string(), "h".to_string(), "a@b.c\r\nDATA".to_string());
    assert_eq!(finished(&a), (None, false));
    assert_eq!(s.state, ProbeState::Done);
}

#[test]
fn verification_over_hosts() {
    let mut p = VerifyProgress::new();
    assert_eq!(p.observe(None), None);
    assert_eq!(p.observe(Some(ProbeResult { code: 554, stage: ProbeStage::Greeting })), None);
    assert_eq!(p.observe(Some(ProbeResult { code: 421, stage: ProbeStage::MailFrom })), None);
    assert_eq!(p.conclude(), verification(Verdict::Unknown, 554, Some(ProbeStage::Greeting)));
    assert_eq!(p.observe(Some(ProbeResult { code: 451, stage: ProbeStage::Recipient })), None);
    assert_eq!(p.observe(Some(ProbeResult { code: 452, stage: ProbeStage::Recipient })), None);
    assert_eq!(p.conclude(), verification(Verdict::Unknown, 451, Some(ProbeStage::Recipient)));
    assert_eq!(
        p.observe(Some(ProbeResult { code: 550, stage: ProbeStage::Recipient })),
        Some(verification(Verdict::Invalid, 550, Some(ProbeStage::Recipient)))
    );
    assert_eq!(
        VerifyProgress::new().observe(Some(ProbeResult { code: 250, stage: ProbeStage::Recipient })),
        Some(verification(Verdict::Valid, 250, Some(ProbeStage::Recipient)))
    );
    assert_eq!(VerifyProgress::new().conclude(), verification(Verdict::Unknown, 0, None));
}

#[test]
fn explains_verifications() {
    let r = |v: Verdict, c: u16, s: Option<ProbeStage>| reason_for(&verification(v, c, s));
    assert_eq!(r(Verdict::Unknown, 0, Some(ProbeStage::Helo)), "SMTP session failed during EHLO/HELO");
    assert_eq!(
        r(Verdict::Unknown, 554, Some(ProbeStage::Greeting)),
        "SMTP session rejected during server greeting (code 554)"
    );
    assert_eq!(r(Verdict::Valid, 250, Some(ProbeStage::Recipient)), "email accepted by server");
    assert_eq!(r(Verdict::Invalid, 550, Some(ProbeStage::Recipient)), "mailbox rejected by server (code 550)");
    assert_eq!(r(Verdict::Invalid, 551, Some(ProbeStage::Recipient)), "user not local, wrong server");
    assert_eq!(r(Verdict::Invalid, 553, Some(ProbeStage::Recipient)), "mailbox name invalid");
    assert_eq!(r(Verdict::Invalid, 554, Some(ProbeStage::Recipient)), "rejected by server (code 554)");
    assert_eq!(r(Verdict::Unknown, 0, None), "no response — connection failed or timed out");
    assert_eq!(
        r(Verdict::Unknown, 450, Some(ProbeStage::Recipient)),
        "temporarily deferred (code 450) — retry later"
    );
    assert_eq!(r(Verdict::Unknown, 354, Some(ProbeStage::Recipient)), "unexpected response (code 354)");
}

#[test]
fn random_recipients() {
    assert_eq!(probe_address(0xabc, 1, "example.com"), "mailcheck-probe-abc-1@example.com");
    assert_eq!(probe_address(0, 0, "x.org"), "mailcheck-probe-0-0@x.org");
}

#[test]
fn rows_for_each_outcome() {
    let r = no_mx_output("example.com", "Jane", "Doe");
    assert_eq!(r.email, "");
    assert_eq!(r.status, "unknown");
    assert!(!r.passed);
    assert_eq!(r.reason, "no usable MX records found for domain");

    let rows = opaque_outputs("example.com", "Jane", "Doe", &["jane".to_string(), "jdoe".to_string()]);
    assert_eq!(rows.len(), 2);
    assert_eq!(rows[1].email, "jdoe@example.com");
    assert_eq!(rows[1].status, "opaque");
    assert!(!rows[0].passed);

    let ok = verification(Verdict::Valid, 250, Some(ProbeStage::Recipient));
    let row = checked_output("example.com", "Jane", "Doe", address_for("jane", "example.com"), RecipientPolicy::Selective, &ok);
    assert_eq!(row.status, "confirmed");
    assert!(row.passed);
    assert_eq!(row.email, "jane@example.com");
    let row = checked_output("example.com", "Jane", "Doe", "x@example.com".to_string(), RecipientPolicy::Inconclusive, &ok);
    assert_eq!(row.status, "unverifiable");
    assert!(!row.passed);
    assert_eq!(row.reason, "catch-all probes were inconclusive; email accepted by server");
    let no = verification(Verdict::Invalid, 550, Some(ProbeStage::Recipient));
    let row = checked_output("example.com", "Jane", "Doe", "x@example.com".to_string(), RecipientPolicy::Selective, &no);
    assert_eq!(row.status, "rejected");
    assert!(!row.passed);
}

#[test]
fn checks_fields_and_sender() {
    assert!(fields_single_line("example.com", "Jane", "Doe"));
    assert!(!fields_single_line("example.com", "Ja\nne", "Doe"));
    assert!(!fields_single_line("example.com\r", "Jane", "Doe"));
    assert!(sender_ok("me@example.com"));
    assert!(!sender_ok("me@example.com\r\nRCPT TO:<x>"));
}

#[test]
fn orders_mail_hosts_by_preference() {
    let records = vec![
        (20, "b.example.com.".to_string()),
        (10, "a.example.com.".to_string()),
        (20, "c.example.com".to_string()),
        (5, ".".to_string()),
        (10, "d.example.com..".to_string()),
    ];
    assert_eq!(
        order_mx_hosts(records),
        vec!["a.example.com", "d.example.com", "b.example.com", "c.example.com"]
    );
    assert!(order_mx_hosts(vec![]).is_empty());
    assert_eq!(fallback_hosts("example.com", true), vec!["example.com"]);
    assert!(fallback_hosts("example.com", false).is_empty());
}
