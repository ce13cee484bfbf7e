//! What holds of every step of the probe dialogue, of the rows reported and
//! of the order in which mail hosts are tried.
use vstd::prelude::*;

use crate::services::smtp::{
    by_preference, checked_row, ehlo_command, helo_command, mail_command, offers_starttls,
    place_for, positive, probe_next, rcpt_command, starttls_command, ActionView, EventView,
    policy_of, ProbeStage, ProbeState, RecipientPolicy, Verdict, Verification,
};

verus! {

/// The commands a probe may write: EHLO, HELO, STARTTLS, MAIL FROM and RCPT TO.
pub open spec fn probe_command(c: Seq<char>, from: Seq<char>, helo: Seq<char>, to: Seq<char>) -> bool {
    ||| c == ehlo_command(helo)
    ||| c == helo_command(helo)
    ||| c == starttls_command()
    ||| c == mail_command(from)
    ||| c == rcpt_command(to)
}

/// How many steps at most remain from a state before the dialogue is over.
pub open spec fn steps_left(st: ProbeState) -> nat {
    match st {
        ProbeState::AwaitGreeting => 9,
        ProbeState::AwaitEhlo { tls } => if tls { 4 } else { 8 },
        ProbeState::AwaitHelo { tls } => if tls { 3 } else { 7 },
        ProbeState::AwaitStartTls => 6,
        ProbeState::AwaitHandshake => 5,
        ProbeState::AwaitMailFrom => 2,
        ProbeState::AwaitRecipient => 1,
        ProbeState::Done => 0,
    }
}

/// A probe only ever writes EHLO, HELO, STARTTLS, MAIL FROM or RCPT TO; in
/// particular it never writes DATA, so no message is ever sent.
pub proof fn lemma_probe_never_sends_data(
    st: ProbeState,
    ev: EventView,
    from: Seq<char>,
    helo: Seq<char>,
    to: Seq<char>,
)
    ensures
        probe_next(st, ev, from, helo, to).1 matches ActionView::Send(c) ==> probe_command(
            c,
            from,
            helo,
            to,
        ) && !"DATA"@.is_prefix_of(c),
{
    reveal_strlit("EHLO ");
    reveal_strlit("HELO ");
    reveal_strlit("STARTTLS\r\n");
    reveal_strlit("MAIL FROM:<");
    reveal_strlit("RCPT TO:<");
    reveal_strlit("DATA");
    match probe_next(st, ev, from, helo, to).1 {
        ActionView::Send(c) => {
            assert(c[0] == 'E' || c[0] == 'H' || c[0] == 'S' || c[0] == 'M' || c[0] == 'R');
            if "DATA"@.is_prefix_of(c) {
                assert(c.subrange(0, 4)[0] == c[0]);
            }
        },
        _ => {},
    }
}

/// RCPT TO is written only in answer to a positive reply to MAIL FROM.
pub proof fn lemma_recipient_after_sender(
    st: ProbeState,
    ev: EventView,
    from: Seq<char>,
    helo: Seq<char>,
    to: Seq<char>,
)
    requires
        probe_next(st, ev, from, helo, to).1 == ActionView::Send(rcpt_command(to)),
    ensures
        st == ProbeState::AwaitMailFrom,
        ev matches EventView::Reply(Some((code, _))) && positive(code),
{
    reveal_strlit("EHLO ");
    reveal_strlit("HELO ");
    reveal_strlit("STARTTLS\r\n");
    reveal_strlit("MAIL FROM:<");
    reveal_strlit("RCPT TO:<");
    let r = rcpt_command(to);
    assert(r[0] == 'R');
    assert(ehlo_command(helo)[0] == 'E');
    assert(helo_command(helo)[0] == 'H');
    assert(starttls_command()[0] == 'S');
    assert(mail_command(from)[0] == 'M');
}

/// MAIL FROM is written only in answer to a positive reply to EHLO or HELO,
/// and on the plain channel only when that reply did not offer STARTTLS.
pub proof fn lemma_sender_after_greeting(
    st: ProbeState,
    ev: EventView,
    from: Seq<char>,
    helo: Seq<char>,
    to: Seq<char>,
)
    requires
        probe_next(st, ev, from, helo, to).1 == ActionView::Send(mail_command(from)),
    ensures
        st is AwaitEhlo || st is AwaitHelo,
        ev matches EventView::Reply(Some((code, text))) && positive(code) && (match st {
            ProbeState::AwaitEhlo { tls } => tls,
            ProbeState::AwaitHelo { tls } => tls,
            _ => false,
        } || !offers_starttls(text)),
{
    reveal_strlit("EHLO ");
    reveal_strlit("HELO ");
    reveal_strlit("STARTTLS\r\n");
    reveal_strlit("MAIL FROM:<");
    reveal_strlit("RCPT TO:<");
    assert(rcpt_command(to)[0] == 'R');
    assert(ehlo_command(helo)[0] == 'E');
    assert(helo_command(helo)[0] == 'H');
    assert(starttls_command()[0] == 'S');
    assert(mail_command(from)[0] == 'M');
}

/// Every step of an unfinished dialogue brings it closer to its end, so a
/// probe takes at most nine steps; the dialogue is over exactly when the
/// action is to finish, and QUIT is asked for only once RCPT TO was answered.
pub proof fn lemma_probe_terminates(
    st: ProbeState,
    ev: EventView,
    from: Seq<char>,
    helo: Seq<char>,
    to: Seq<char>,
)
    ensures
        st != ProbeState::Done ==> steps_left(probe_next(st, ev, from, helo, to).0) < steps_left(st),
        (probe_next(st, ev, from, helo, to).0 == ProbeState::Done) == (probe_next(
            st,
            ev,
            from,
            helo,
            to,
        ).1 is Finish),
        match probe_next(st, ev, from, helo, to).1 {
            ActionView::Finish(result, quit) => quit ==> st == ProbeState::AwaitRecipient && (
            result matches Some(p) && p.stage == ProbeStage::Recipient),
            _ => true,
        },
{
}

/// The status reported for a checked address on a server that is not
/// accept-all: "confirmed" exactly when the server rejected the random
/// recipients and accepted this one, and only a confirmed address passes.
pub proof fn lemma_confirmed_only_when_distinguished(
    domain: Seq<char>,
    first: Seq<char>,
    last: Seq<char>,
    address: Seq<char>,
    policy: RecipientPolicy,
    v: Verification,
)
    requires
        policy != RecipientPolicy::AcceptAll,
    ensures
        (checked_row(domain, first, last, address, policy, v).status == "confirmed"@) == (policy
            == RecipientPolicy::Selective && v.verdict == Verdict::Valid),
        checked_row(domain, first, last, address, policy, v).passed == (checked_row(
            domain,
            first,
            last,
            address,
            policy,
            v,
        ).status == "confirmed"@),
{
    reveal_strlit("confirmed");
    reveal_strlit("rejected");
    reveal_strlit("unknown");
    reveal_strlit("unverifiable");
    assert("confirmed"@[1] == 'o');
    assert("rejected"@.len() != "confirmed"@.len() || "rejected"@[1] != 'o');
    assert("unknown"@.len() != "confirmed"@.len());
    assert("unverifiable"@.len() != "confirmed"@.len());
}

proof fn lemma_place_for(s: Seq<(u16, Seq<char>)>, p: u16)
    ensures
        0 <= place_for(s, p) <= s.len(),
        forall|i: int| 0 <= i < place_for(s, p) ==> (#[trigger] s[i]).0 <= p,
        place_for(s, p) < s.len() ==> s[place_for(s, p)].0 > p,
    decreases s.len(),
{
    if s.len() > 0 && s[0].0 <= p {
        let t = s.drop_first();
        lemma_place_for(t, p);
        assert forall|i: int| 0 <= i < place_for(s, p) implies (#[trigger] s[i]).0 <= p by {
            if i > 0 {
                assert(s[i] == t[i - 1]);
            }
        }
        if place_for(s, p) < s.len() {
            assert(s[place_for(s, p)] == t[place_for(t, p)]);
        }
    }
}

/// The ordered mail hosts go by ascending preference, and ordering keeps
/// every record: the same number of them, and each one that was given.
pub proof fn lemma_hosts_by_ascending_preference(s: Seq<(u16, Seq<char>)>)
    ensures
        forall|i: int, j: int|
            0 <= i < j < by_preference(s).len() ==> (#[trigger] by_preference(s)[i]).0 <= (
            #[trigger] by_preference(s)[j]).0,
        by_preference(s).len() == s.len(),
        forall|x: (u16, Seq<char>)|
            #![trigger by_preference(s).contains(x)]
            #![trigger s.contains(x)]
            by_preference(s).contains(x) <==> s.contains(x),
    decreases s.len(),
{
    if s.len() > 0 {
        let front = s.drop_last();
        lemma_hosts_by_ascending_preference(front);
        let sorted = by_preference(front);
        let x = s.last();
        let k = place_for(sorted, x.0);
        lemma_place_for(sorted, x.0);
        let r = sorted.insert(k, x);
        assert(r == by_preference(s));
        assert forall|i: int| 0 <= i < r.len() implies #[trigger] r[i] == (if i < k {
            sorted[i]
        } else if i == k {
            x
        } else {
            sorted[i - 1]
        }) by {}
        assert forall|i: int, j: int| 0 <= i < j < r.len() implies (#[trigger] r[i]).0 <= (
        #[trigger] r[j]).0 by {
            if i < k && j == k {
                assert(sorted[i].0 <= x.0);
            } else if i == k && j > k {
                assert(sorted[k].0 > x.0);
                if j - 1 > k {
                    assert(sorted[k].0 <= sorted[j - 1].0);
                }
            } else if i < k && j > k {
                assert(sorted[i].0 <= sorted[j - 1].0);
            } else if j < k {
                assert(sorted[i].0 <= sorted[j].0);
            } else {
                assert(sorted[i - 1].0 <= sorted[j - 1].0);
            }
        }
        assert forall|y: (u16, Seq<char>)| r.contains(y) <==> s.contains(y) by {
            if r.contains(y) {
                let m = choose|m: int| 0 <= m < r.len() && r[m] == y;
                if m == k {
                    assert(s[s.len() - 1] == y);
                } else {
                    let n = if m < k { m } else { m - 1 };
                    assert(sorted[n] == y);
                    assert(sorted.contains(y));
                    let q = choose|q: int| 0 <= q < front.len() && front[q] == y;
                    assert(s[q] == y);
                }
            }
            if s.contains(y) {
                let m = choose|m: int| 0 <= m < s.len() && s[m] == y;
                if m == s.len() - 1 {
                    assert(r[k] == y);
                } else {
                    assert(front[m] == y);
                    assert(front.contains(y));
                    let q = choose|q: int| 0 <= q < sorted.len() && sorted[q] == y;
                    let n = if q < k { q } else { q + 1 };
                    assert(r[n] == y);
                }
            }
        }
    }
}

/// The status of a checked address on a selective server: "confirmed"
/// exactly when the recipient was accepted, "rejected" exactly when it was
/// refused, "unknown" exactly when there was no definite answer, as for a
/// temporary deferral; only a confirmed address passes. When the catch-all
/// test was inconclusive every address is "unverifiable" and none passes.
pub proof fn lemma_status_names_verdict(
    domain: Seq<char>,
    first: Seq<char>,
    last: Seq<char>,
    address: Seq<char>,
    policy: RecipientPolicy,
    v: Verification,
)
    ensures
        policy == RecipientPolicy::Selective ==> {
            let row = checked_row(domain, first, last, address, policy, v);
            &&& (row.status == "confirmed"@) == (v.verdict == Verdict::Valid)
            &&& (row.status == "rejected"@) == (v.verdict == Verdict::Invalid)
            &&& (row.status == "unknown"@) == (v.verdict == Verdict::Unknown)
            &&& row.passed == (v.verdict == Verdict::Valid)
        },
        policy == RecipientPolicy::Inconclusive ==> {
            let row = checked_row(domain, first, last, address, policy, v);
            &&& row.status == "unverifiable"@
            &&& !row.passed
        },
{
    reveal_strlit("confirmed");
    reveal_strlit("rejected");
    reveal_strlit("unknown");
    assert("confirmed"@[0] == 'c');
    assert("rejected"@[0] == 'r');
    assert("unknown"@[0] == 'u');
}

/// STARTTLS is written only on the plain channel, in answer to a positive
/// EHLO or HELO reply that offers it; a positive EHLO or HELO reply that
/// does not offer it, or one received over TLS, is followed by MAIL FROM.
pub proof fn lemma_starttls_only_when_offered(
    st: ProbeState,
    ev: EventView,
    from: Seq<char>,
    helo: Seq<char>,
    to: Seq<char>,
)
    ensures
        probe_next(st, ev, from, helo, to).1 == ActionView::Send(starttls_command()) ==> {
            &&& (st == ProbeState::AwaitEhlo { tls: false } || st == ProbeState::AwaitHelo { tls: false })
            &&& ev matches EventView::Reply(Some((code, text))) && positive(code) && offers_starttls(text)
        },
        match (st, ev) {
            (ProbeState::AwaitEhlo { tls }, EventView::Reply(Some((code, text)))) => positive(code)
                ==> probe_next(st, ev, from, helo, to) == if tls || !offers_starttls(text) {
                (ProbeState::AwaitMailFrom, ActionView::Send(mail_command(from)))
            } else {
                (ProbeState::AwaitStartTls, ActionView::Send(starttls_command()))
            },
            (ProbeState::AwaitHelo { tls }, EventView::Reply(Some((code, text)))) => positive(code)
                ==> probe_next(st, ev, from, helo, to) == if tls || !offers_starttls(text) {
                (ProbeState::AwaitMailFrom, ActionView::Send(mail_command(from)))
            } else {
                (ProbeState::AwaitStartTls, ActionView::Send(starttls_command()))
            },
            _ => true,
        },
{
    reveal_strlit("EHLO ");
    reveal_strlit("HELO ");
    reveal_strlit("STARTTLS\r\n");
    reveal_strlit("MAIL FROM:<");
    reveal_strlit("RCPT TO:<");
    assert(rcpt_command(to)[0] == 'R');
    assert(ehlo_command(helo)[0] == 'E');
    assert(helo_command(helo)[0] == 'H');
    assert(starttls_command()[0] == 'S');
    assert(mail_command(from)[0] == 'M');
}

/// The catch-all classification: accept-all exactly when every random
/// recipient was accepted, selective exactly when there was one and every
/// one was rejected, inconclusive otherwise.
pub proof fn lemma_policy_by_verdicts(verdicts: Seq<Verdict>)
    ensures
        (policy_of(verdicts) == RecipientPolicy::AcceptAll) == (forall|i: int|
            0 <= i < verdicts.len() ==> #[trigger] verdicts[i] == Verdict::Valid),
        (policy_of(verdicts) == RecipientPolicy::Selective) == (verdicts.len() > 0 && forall|i: int|
            0 <= i < verdicts.len() ==> #[trigger] verdicts[i] == Verdict::Invalid),
        (policy_of(verdicts) == RecipientPolicy::Inconclusive) == (!(forall|i: int|
            0 <= i < verdicts.len() ==> #[trigger] verdicts[i] == Verdict::Valid) && !(verdicts.len() > 0
            && forall|i: int| 0 <= i < verdicts.len() ==> #[trigger] verdicts[i] == Verdict::Invalid)),
{
    let all_valid = forall|i: int| 0 <= i < verdicts.len() ==> #[trigger] verdicts[i] == Verdict::Valid;
    let all_invalid = forall|i: int| 0 <= i < verdicts.len() ==> #[trigger] verdicts[i] == Verdict::Invalid;
    if verdicts.len() > 0 && all_invalid {
        assert(verdicts[0] == Verdict::Invalid);
        assert(!all_valid);
    }
    if verdicts.len() == 0 {
        assert(all_valid);
    }
}

} // verus!
