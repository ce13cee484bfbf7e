//! The decisions of checking one person at one domain: find the mail hosts,
//! test the domain with two random recipients, then check every candidate
//! address unless the domain accepts anything. The caller does the DNS
//! lookups and the SMTP probes and reports what it found.
use vstd::prelude::*;

use crate::models::record::{OutputRecord, OutputView};
use crate::services::smtp::{
    address_for, checked_output, checked_row, classify_recipient_policy, fields_single_line,
    has_line_break, no_mx_output, opaque_outputs, opaque_reason, policy_of, probe_address,
    probe_address_view, row, RecipientPolicy, Verdict, Verification,
};
use crate::services::template::{candidates, first_occurrences, renders_for};

verus! {

/// Where a check stands.
#[derive(Debug, Clone, Copy, PartialEq, Eq, Structural)]
pub enum CheckPhase {
    /// Waiting for the mail hosts of the domain.
    AwaitHosts,
    /// Waiting for the verdict on a random recipient.
    Baseline,
    /// Waiting for the verification of the next candidate address.
    Candidates,
    /// The check is over.
    Done,
}

/// What the caller is to do next.
#[derive(Debug)]
pub enum CheckAction {
    /// Look up the mail hosts of the domain.
    LookupHosts,
    /// Verify the address against the mail hosts, then wait the probe delay.
    Verify(String),
    /// The check is over with these rows.
    Finish(Vec<OutputRecord>),
}

/// The value of a [`CheckAction`].
pub enum CheckActionView {
    LookupHosts,
    Verify(Seq<char>),
    Finish(Seq<OutputView>),
}

/// The values of a sequence of rows.
pub open spec fn row_views(v: Seq<OutputRecord>) -> Seq<OutputView> {
    v.map_values(|r: OutputRecord| r@)
}

impl View for CheckAction {
    type V = CheckActionView;

    open spec fn view(&self) -> CheckActionView {
        match self {
            CheckAction::LookupHosts => CheckActionView::LookupHosts,
            CheckAction::Verify(a) => CheckActionView::Verify(a@),
            CheckAction::Finish(rows) => CheckActionView::Finish(row_views(rows@)),
        }
    }
}

/// The check of one person at one domain.
#[derive(Debug)]
pub struct CheckRun {
    pub domain: String,
    pub first: String,
    pub last: String,
    /// The candidate local parts, in pattern order, each once.
    pub locals: Vec<String>,
    /// The random value that makes the test recipients unlikely to exist.
    pub nonce: u128,
    pub phase: CheckPhase,
    /// The verdicts on the random recipients so far.
    pub verdicts: Vec<Verdict>,
    /// The rows of the candidates checked so far.
    pub rows: Vec<OutputRecord>,
}

/// The rows reported when a domain accepts any recipient.
pub open spec fn opaque_rows(domain: Seq<char>, first: Seq<char>, last: Seq<char>, locals: Seq<Seq<char>>) -> Seq<OutputView> {
    Seq::new(
        locals.len(),
        |i: int| row(domain, first, last, locals[i] + "@"@ + domain, "opaque"@, false, opaque_reason()),
    )
}

/// The row reported when a domain has no usable mail host.
pub open spec fn no_host_row(domain: Seq<char>, first: Seq<char>, last: Seq<char>) -> OutputView {
    row(domain, first, last, Seq::empty(), "unknown"@, false, "no usable MX records found for domain"@)
}

impl CheckRun {
    /// The candidate local parts.
    pub open spec fn locals_view(&self) -> Seq<Seq<char>> {
        self.locals.deep_view()
    }

    /// The address of candidate `i`.
    pub open spec fn candidate_address(&self, i: int) -> Seq<char> {
        self.locals_view()[i] + "@"@ + self.domain@
    }

    /// The recipient policy the random recipients showed.
    pub open spec fn policy(&self) -> RecipientPolicy {
        policy_of(self.verdicts@)
    }

    /// What the phases keep: at most two random verdicts, and candidates
    /// are checked only after both, on a domain that is not accept-all, one
    /// row per candidate checked.
    pub open spec fn well_formed(&self) -> bool {
        &&& self.verdicts@.len() <= 2
        &&& self.rows@.len() <= self.locals@.len()
        &&& self.phase == CheckPhase::AwaitHosts ==> self.verdicts@.len() == 0 && self.rows@.len() == 0
        &&& self.phase == CheckPhase::Baseline ==> self.verdicts@.len() < 2 && self.rows@.len() == 0
        &&& self.phase == CheckPhase::Candidates ==> {
            &&& self.verdicts@.len() == 2
            &&& self.policy() != RecipientPolicy::AcceptAll
            &&& self.rows@.len() < self.locals@.len()
        }
    }

    /// Opens the check of `first last` at `domain` with the address
    /// `patterns`. Fails when the domain or a name holds a line break.
    /// Otherwise the candidates are the rendered patterns in their order,
    /// each kept at its first position, and the mail hosts are looked up
    /// first.
    pub fn start(domain: &str, first: &str, last: &str, patterns: &[String], nonce: u128) -> (r: Result<(CheckRun, CheckAction), String>)
        ensures
            (has_line_break(domain@) || has_line_break(first@) || has_line_break(last@)) == r is Err,
            r matches Err(e) ==> e@ == "domain and names must not contain newlines"@,
            r matches Ok((run, a)) ==> {
                &&& run.domain@ == domain@
                &&& run.first@ == first@
                &&& run.last@ == last@
                &&& run.nonce == nonce
                &&& run.locals_view() == first_occurrences(
                    renders_for(patterns@.map_values(|p: String| p@), first@, last@),
                )
                &&& run.phase == CheckPhase::AwaitHosts
                &&& run.verdicts@.len() == 0
                &&& run.rows@.len() == 0
                &&& run.well_formed()
                &&& a@ == CheckActionView::LookupHosts
            },
    {
        if !fields_single_line(domain, first, last) {
            return Err(crate::text::owned("domain and names must not contain newlines"));
        }
        let locals = candidates(patterns, first, last);
        let run = CheckRun {
            domain: crate::text::owned(domain),
            first: crate::text::owned(first),
            last: crate::text::owned(last),
            locals,
            nonce,
            phase: CheckPhase::AwaitHosts,
            verdicts: Vec::new(),
            rows: Vec::new(),
        };
        Ok((run, CheckAction::LookupHosts))
    }

    /// Whether the check waits for the mail hosts.
    pub fn awaits_hosts(&self) -> (r: bool)
        ensures
            r == (self.phase == CheckPhase::AwaitHosts),
    {
        self.phase == CheckPhase::AwaitHosts
    }

    /// Whether the check waits for a verification.
    pub fn awaits_verification(&self) -> (r: bool)
        ensures
            r == (self.phase == CheckPhase::Baseline || self.phase == CheckPhase::Candidates),
    {
        self.phase == CheckPhase::Baseline || self.phase == CheckPhase::Candidates
    }

    /// Takes whether the domain has a usable mail host: without one the check
    /// is over with a single "unknown" row; with one the first random
    /// recipient is verified.
    pub fn hosts_found(&mut self, found: bool) -> (a: CheckAction)
        requires
            old(self).well_formed(),
            old(self).phase == CheckPhase::AwaitHosts,
        ensures
            final(self).well_formed(),
            final(self).domain == old(self).domain,
            final(self).first == old(self).first,
            final(self).last == old(self).last,
            final(self).locals == old(self).locals,
            final(self).nonce == old(self).nonce,
            final(self).verdicts == old(self).verdicts,
            final(self).rows == old(self).rows,
            !found ==> final(self).phase == CheckPhase::Done && a@ == CheckActionView::Finish(
                seq![no_host_row(old(self).domain@, old(self).first@, old(self).last@)],
            ),
            found ==> final(self).phase == CheckPhase::Baseline && a@ == CheckActionView::Verify(
                probe_address_view(old(self).nonce, 0, old(self).domain@),
            ),
    {
        if !found {
            self.phase = CheckPhase::Done;
            let mut rows: Vec<OutputRecord> = Vec::new();
            rows.push(no_mx_output(self.domain.as_str(), self.first.as_str(), self.last.as_str()));
            assert(row_views(rows@) =~= seq![no_host_row(self.domain@, self.first@, self.last@)]);
            CheckAction::Finish(rows)
        } else {
            self.phase = CheckPhase::Baseline;
            CheckAction::Verify(probe_address(self.nonce, 0, self.domain.as_str()))
        }
    }

    /// Takes the verification of the address last asked for. After the
    /// first random recipient the second is verified; after the second the
    /// domain is classified: an accept-all domain ends the check with every
    /// candidate "opaque"; otherwise the candidates are verified in order.
    /// The verification of a candidate gives its row; after the last one the
    /// check is over and hands all rows over.
    pub fn verified(&mut self, v: Verification) -> (a: CheckAction)
        requires
            old(self).well_formed(),
            old(self).phase == CheckPhase::Baseline || old(self).phase == CheckPhase::Candidates,
        ensures
            final(self).well_formed(),
            final(self).domain == old(self).domain,
            final(self).first == old(self).first,
            final(self).last == old(self).last,
            final(self).locals == old(self).locals,
            final(self).nonce == old(self).nonce,
            old(self).phase == CheckPhase::Baseline ==> {
                &&& final(self).verdicts@ == old(self).verdicts@.push(v.verdict)
                &&& final(self).rows@ == old(self).rows@
                &&& if old(self).verdicts@.len() == 0 {
                    &&& final(self).phase == CheckPhase::Baseline
                    &&& a@ == CheckActionView::Verify(probe_address_view(old(self).nonce, 1, old(self).domain@))
                } else if final(self).policy() == RecipientPolicy::AcceptAll {
                    &&& final(self).phase == CheckPhase::Done
                    &&& a@ == CheckActionView::Finish(
                        opaque_rows(old(self).domain@, old(self).first@, old(self).last@, old(self).locals_view()),
                    )
                } else if old(self).locals@.len() == 0 {
                    &&& final(self).phase == CheckPhase::Done
                    &&& a@ == CheckActionView::Finish(Seq::empty())
                } else {
                    &&& final(self).phase == CheckPhase::Candidates
                    &&& a@ == CheckActionView::Verify(old(self).candidate_address(0))
                }
            },
            old(self).phase == CheckPhase::Candidates ==> {
                let k = old(self).rows@.len() as int;
                let done = row_views(old(self).rows@).push(
                    checked_row(
                        old(self).domain@,
                        old(self).first@,
                        old(self).last@,
                        old(self).candidate_address(k),
                        old(self).policy(),
                        v,
                    ),
                );
                &&& final(self).verdicts == old(self).verdicts
                &&& if k + 1 < old(self).locals@.len() {
                    &&& final(self).phase == CheckPhase::Candidates
                    &&& row_views(final(self).rows@) == done
                    &&& a@ == CheckActionView::Verify(old(self).candidate_address(k + 1))
                } else {
                    &&& final(self).phase == CheckPhase::Done
                    &&& a@ == CheckActionView::Finish(done)
                }
            },
    {
        if self.phase == CheckPhase::Baseline {
            self.verdicts.push(v.verdict);
            if self.verdicts.len() == 1 {
                return CheckAction::Verify(probe_address(self.nonce, 1, self.domain.as_str()));
            }
            let policy = classify_recipient_policy(self.verdicts.as_slice());
            if policy == RecipientPolicy::AcceptAll {
                self.phase = CheckPhase::Done;
                let rows = opaque_outputs(
                    self.domain.as_str(),
                    self.first.as_str(),
                    self.last.as_str(),
                    self.locals.as_slice(),
                );
                assert(row_views(rows@) =~= opaque_rows(self.domain@, self.first@, self.last@, self.locals_view()));
                return CheckAction::Finish(rows);
            }
            if self.locals.len() == 0 {
                self.phase = CheckPhase::Done;
                let rows: Vec<OutputRecord> = Vec::new();
                assert(row_views(rows@) =~= Seq::<OutputView>::empty());
                return CheckAction::Finish(rows);
            }
            self.phase = CheckPhase::Candidates;
            return CheckAction::Verify(address_for(self.locals[0].as_str(), self.domain.as_str()));
        }
        let k = self.rows.len();
        assert(k < self.locals.len());
        let policy = classify_recipient_policy(self.verdicts.as_slice());
        let address = address_for(self.locals[k].as_str(), self.domain.as_str());
        let out = checked_output(
            self.domain.as_str(),
            self.first.as_str(),
            self.last.as_str(),
            address,
            policy,
            &v,
        );
        let ghost before = row_views(self.rows@);
        self.rows.push(out);
        assert(row_views(self.rows@) =~= before.push(out@));
        if k + 1 < self.locals.len() {
            CheckAction::Verify(address_for(self.locals[k + 1].as_str(), self.domain.as_str()))
        } else {
            self.phase = CheckPhase::Done;
            let mut rows: Vec<OutputRecord> = Vec::new();
            std::mem::swap(&mut rows, &mut self.rows);
            CheckAction::Finish(rows)
        }
    }
}

} // verus!
