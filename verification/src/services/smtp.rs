//! The decisions of an SMTP recipient check: reading replies, the probe
//! dialogue up to RCPT TO, the verdict over several MX hosts, the catch-all
//! classification and the rows reported. The network work itself (DNS, TCP,
//! TLS, timeouts) is done by the caller, which feeds the outcomes in.
use vstd::prelude::*;

use crate::models::record::{OutputRecord, OutputView};
use crate::text::{
    ascii_lower, chars_of, decimal, decimal_string, eq_ignore_ascii_case, has_char, hex,
    hex_string, is_ws, owned, push_char, string_from, sub_chars, trim, trim_chars,
};

verus! {

// ---------------------------------------------------------------------------
// Basic types
// ---------------------------------------------------------------------------

/// What a recipient check concluded about a mailbox.
#[derive(Debug, Clone, Copy, PartialEq, Eq, Structural)]
pub enum Verdict {
    Valid,
    Invalid,
    Unknown,
}

/// The step of the SMTP dialogue a probe ended at.
#[derive(Debug, Clone, Copy, PartialEq, Eq, Structural)]
pub enum ProbeStage {
    Greeting,
    Helo,
    StartTls,
    MailFrom,
    Recipient,
}

/// The reply code a probe ended with and the step it ended at.
#[derive(Debug, Clone, Copy, PartialEq, Eq, Structural)]
pub struct ProbeResult {
    pub code: u16,
    pub stage: ProbeStage,
}

/// The outcome of checking one address against a domain's MX hosts.
#[derive(Debug, Clone, Copy, PartialEq, Eq, Structural)]
pub struct Verification {
    pub verdict: Verdict,
    pub code: u16,
    pub stage: Option<ProbeStage>,
}

/// How a server answers recipients that cannot exist.
#[derive(Debug, Clone, Copy, PartialEq, Eq, Structural)]
pub enum RecipientPolicy {
    /// Both random recipients were rejected: answers distinguish mailboxes.
    Selective,
    /// Both random recipients were accepted: answers say nothing.
    AcceptAll,
    /// Anything else.
    Inconclusive,
}

/// A complete (possibly multi-line) SMTP reply.
#[derive(Debug)]
pub struct SmtpResponse {
    pub code: u16,
    pub text: String,
}

impl ProbeStage {
    /// The label of the stage in reasons.
    pub open spec fn label_view(self) -> Seq<char> {
        match self {
            ProbeStage::Greeting => "server greeting"@,
            ProbeStage::Helo => "EHLO/HELO"@,
            ProbeStage::StartTls => "STARTTLS"@,
            ProbeStage::MailFrom => "MAIL FROM"@,
            ProbeStage::Recipient => "RCPT TO"@,
        }
    }

    /// The label of the stage in reasons.
    pub fn label(self) -> (r: &'static str)
        ensures
            r@ == self.label_view(),
    {
        match self {
            ProbeStage::Greeting => "server greeting",
            ProbeStage::Helo => "EHLO/HELO",
            ProbeStage::StartTls => "STARTTLS",
            ProbeStage::MailFrom => "MAIL FROM",
            ProbeStage::Recipient => "RCPT TO",
        }
    }
}

// ---------------------------------------------------------------------------
// Reading replies
// ---------------------------------------------------------------------------

/// Whether `c` is an ASCII digit.
pub open spec fn is_digit(c: char) -> bool {
    '0' <= c && c <= '9'
}

/// The value of an ASCII digit.
pub open spec fn digit_value(c: char) -> int {
    (c as u32) - ('0' as u32)
}

/// The reply code at the start of a reply line: the first three bytes parsed
/// as a `u16`, which succeeds exactly for three digits or `+` and two digits.
pub open spec fn line_code(line: Seq<char>) -> Option<u16> {
    if line.len() >= 3 && is_digit(line[1]) && is_digit(line[2]) {
        if is_digit(line[0]) {
            Some((100 * digit_value(line[0]) + 10 * digit_value(line[1]) + digit_value(line[2])) as u16)
        } else if line[0] == '+' {
            Some((10 * digit_value(line[1]) + digit_value(line[2])) as u16)
        } else {
            None
        }
    } else {
        None
    }
}

/// Whether a reply line says that more lines follow (`-` after the code).
pub open spec fn line_continues(line: Seq<char>) -> bool {
    line.len() > 3 && line[3] == '-'
}

/// Collects the lines of one SMTP reply.
#[derive(Debug)]
pub struct ReplyReader {
    pub code: Option<u16>,
    pub text: String,
}

/// What reading one more line of a reply gives.
#[derive(Debug)]
pub enum ReplyStep {
    /// The reply goes on; read another line.
    More,
    /// The reply is complete.
    Done(SmtpResponse),
    /// The line is not a reply line (or the connection ended): no reply.
    Failed,
}

impl ReplyReader {
    /// A reader before the first line.
    pub fn new() -> (r: ReplyReader)
        ensures
            r.code is None,
            r.text@ == Seq::<char>::empty(),
    {
        ReplyReader { code: None, text: String::new() }
    }

    /// Takes the next line as read, with its line ending (an empty line means
    /// the connection ended). A line too short or without a reply code fails
    /// the reply; otherwise the line is added, and the reply is complete,
    /// with the code of its first line, when the line does not continue.
    pub fn feed(&mut self, line: &str) -> (r: ReplyStep)
        ensures
            line_code(line@) is None ==> r is Failed,
            line_code(line@) matches Some(c) ==> {
                let code = match old(self).code {
                    Some(k) => k,
                    None => c,
                };
                &&& final(self).code == Some(code)
                &&& final(self).text@ == old(self).text@ + line@
                &&& if line_continues(line@) {
                    r is More
                } else {
                    r matches ReplyStep::Done(resp) && resp.code == code && resp.text@ == old(
                        self,
                    ).text@ + line@
                }
            },
    {
        let v = chars_of(line);
        let code = match parse_code(&v) {
            Some(c) => c,
            None => {
                return ReplyStep::Failed;
            },
        };
        let first = match self.code {
            Some(k) => k,
            None => code,
        };
        self.code = Some(first);
        self.text.append(line);
        if v.len() > 3 && v[3] == '-' {
            ReplyStep::More
        } else {
            ReplyStep::Done(SmtpResponse { code: first, text: self.text.clone() })
        }
    }
}

/// The reply code at the start of the characters `v`.
fn parse_code(v: &Vec<char>) -> (r: Option<u16>)
    ensures
        r == line_code(v@),
{
    if v.len() < 3 || !('0' <= v[1] && v[1] <= '9') || !('0' <= v[2] && v[2] <= '9') {
        return None;
    }
    let d1 = (v[1] as u32 - '0' as u32) as u16;
    let d2 = (v[2] as u32 - '0' as u32) as u16;
    if '0' <= v[0] && v[0] <= '9' {
        let d0 = (v[0] as u32 - '0' as u32) as u16;
        Some(100 * d0 + 10 * d1 + d2)
    } else if v[0] == '+' {
        Some(10 * d1 + d2)
    } else {
        None
    }
}

// ---------------------------------------------------------------------------
// STARTTLS capability
// ---------------------------------------------------------------------------

/// The number of bytes UTF-8 uses for `c`.
pub open spec fn utf8_width(c: char) -> int {
    let n = c as u32;
    if n < 0x80 {
        1
    } else if n < 0x800 {
        2
    } else if n < 0x10000 {
        3
    } else {
        4
    }
}

/// The text after the first `n` bytes of `s`, when `n` bytes end on a
/// character boundary (`str::get(n..)`).
pub open spec fn after_bytes(s: Seq<char>, n: int) -> Option<Seq<char>>
    decreases s.len(),
{
    if n == 0 {
        Some(s)
    } else if n < 0 || s.len() == 0 || utf8_width(s[0]) > n {
        None
    } else {
        after_bytes(s.drop_first(), n - utf8_width(s[0]))
    }
}

/// A line without the carriage return that ended it.
pub open spec fn strip_cr(line: Seq<char>) -> Seq<char> {
    if line.len() > 0 && line.last() == '\r' {
        line.drop_last()
    } else {
        line
    }
}

/// The lines of `text` as `str::lines` gives them.
pub open spec fn lines_of(text: Seq<char>) -> Seq<Seq<char>>
    decreases text.len(),
{
    if text.len() == 0 {
        Seq::empty()
    } else {
        match crate::text::find_char(text, '\n') {
            Some(k) => if 0 <= k < text.len() {
                seq![strip_cr(text.take(k))] + lines_of(text.skip(k + 1))
            } else {
                Seq::empty()
            },
            None => seq![text],
        }
    }
}

/// Whether a reply line announces STARTTLS: after its first four bytes, the
/// rest, trimmed, is "STARTTLS" in any ASCII case.
pub open spec fn announces_starttls(line: Seq<char>) -> bool {
    match after_bytes(line, 4) {
        Some(rest) => eq_ignore_ascii_case(trim(rest), "STARTTLS"@),
        None => false,
    }
}

/// Whether one of the lines `ls` announces STARTTLS.
pub open spec fn any_announces(ls: Seq<Seq<char>>) -> bool
    decreases ls.len(),
{
    ls.len() > 0 && (announces_starttls(ls[0]) || any_announces(ls.drop_first()))
}

/// Whether an EHLO reply offers STARTTLS.
pub open spec fn offers_starttls(text: Seq<char>) -> bool {
    any_announces(lines_of(text))
}

/// `char::to_ascii_lowercase`.
fn ascii_lower_char(c: char) -> (r: char)
    ensures
        r == ascii_lower(c),
{
    if 'A' <= c && c <= 'Z' {
        let b = (c as u8) + 32;
        b as char
    } else {
        c
    }
}

/// `eq_ignore_ascii_case` on characters.
pub(crate) fn chars_eq_ignore_ascii_case(a: &Vec<char>, b: &Vec<char>) -> (r: bool)
    ensures
        r == eq_ignore_ascii_case(a@, b@),
{
    if a.len() != b.len() {
        return false;
    }
    let mut i: usize = 0;
    while i < a.len()
        invariant
            a.len() == b.len(),
            i <= a.len(),
            forall|k: int| 0 <= k < i ==> ascii_lower(#[trigger] a@[k]) == ascii_lower(b@[k]),
        decreases a.len() - i,
    {
        if ascii_lower_char(a[i]) != ascii_lower_char(b[i]) {
            return false;
        }
        i = i + 1;
    }
    true
}

/// The number of bytes UTF-8 uses for `c`.
fn utf8_width_of(c: char) -> (r: usize)
    ensures
        r == utf8_width(c),
{
    let n = c as u32;
    if n < 0x80 {
        1
    } else if n < 0x800 {
        2
    } else if n < 0x10000 {
        3
    } else {
        4
    }
}

/// Whether the characters `line` announce STARTTLS.
fn line_announces(line: &Vec<char>) -> (r: bool)
    ensures
        r == announces_starttls(line@),
{
    let mut i: usize = 0;
    let mut n: usize = 4;
    assert(line@.skip(0) =~= line@);
    while n > 0
        invariant
            i <= line.len(),
            n <= 4,
            after_bytes(line@, 4) == after_bytes(line@.skip(i as int), n as int),
        decreases n,
    {
        if i >= line.len() {
            return false;
        }
        let w = utf8_width_of(line[i]);
        if w > n {
            return false;
        }
        assert(line@.skip(i as int)[0] == line@[i as int]);
        assert(line@.skip(i as int).drop_first() =~= line@.skip(i + 1));
        n = n - w;
        i = i + 1;
    }
    let rest = sub_chars(line, i, line.len());
    assert(rest@ =~= line@.skip(i as int));
    let t = trim_chars(&rest);
    chars_eq_ignore_ascii_case(&t, &chars_of("STARTTLS"))
}

/// Whether an EHLO reply `text` offers STARTTLS.
pub fn supports_starttls(text: &str) -> (r: bool)
    ensures
        r == offers_starttls(text@),
{
    let v = chars_of(text);
    let mut p: usize = 0;
    assert(v@.skip(0) =~= v@);
    while p < v.len()
        invariant
            p <= v.len(),
            v@ == text@,
            offers_starttls(v@) == any_announces(lines_of(v@.skip(p as int))),
        decreases v.len() - p,
    {
        let ghost rest = v@.skip(p as int);
        proof {
            crate::text::lemma_find_char(rest, '\n');
        }
        match crate::text::find_from(&v, p, '\n') {
            Some(k) => {
                let mut end = p + k;
                if end > p && v[end - 1] == '\r' {
                    end = end - 1;
                }
                let line = sub_chars(&v, p, end);
                assert(line@ =~= strip_cr(rest.take(k as int)));
                let ghost ls = lines_of(rest);
                assert(ls =~= seq![strip_cr(rest.take(k as int))] + lines_of(rest.skip(k + 1)));
                assert(ls.drop_first() =~= lines_of(rest.skip(k + 1)));
                assert(rest.skip(k + 1) =~= v@.skip(p + k + 1));
                assert(ls[0] == line@);
                assert(any_announces(ls) == (announces_starttls(line@) || any_announces(ls.drop_first())));
                if line_announces(&line) {
                    return true;
                }
                p = p + k + 1;
            },
            None => {
                let line = sub_chars(&v, p, v.len());
                assert(line@ =~= rest);
                let ghost ls = lines_of(rest);
                assert(ls =~= seq![rest]);
                assert(ls.drop_first() =~= Seq::<Seq<char>>::empty());
                assert(ls[0] == line@);
                assert(!any_announces(ls.drop_first()));
                assert(any_announces(ls) == announces_starttls(line@));
                return line_announces(&line);
            },
        }
    }
    assert(v@.skip(p as int) =~= Seq::<char>::empty());
    false
}

// ---------------------------------------------------------------------------
// The probe dialogue
// ---------------------------------------------------------------------------

/// Where a probe dialogue stands.
#[derive(Debug, Clone, Copy, PartialEq, Eq, Structural)]
pub enum ProbeState {
    /// Waiting for the connection and the server greeting.
    AwaitGreeting,
    /// Waiting for the reply to EHLO (sent over TLS when `tls`).
    AwaitEhlo { tls: bool },
    /// Waiting for the reply to HELO (sent over TLS when `tls`).
    AwaitHelo { tls: bool },
    /// Waiting for the reply to STARTTLS.
    AwaitStartTls,
    /// Waiting for the TLS handshake.
    AwaitHandshake,
    /// Waiting for the reply to MAIL FROM.
    AwaitMailFrom,
    /// Waiting for the reply to RCPT TO.
    AwaitRecipient,
    /// The dialogue is over.
    Done,
}

/// What the caller observed after the last action.
#[derive(Debug)]
pub enum ProbeEvent {
    /// The server's reply, or `None` when the connection, the write, or the
    /// read failed or timed out.
    Reply(Option<SmtpResponse>),
    /// Whether the TLS handshake succeeded.
    Handshake(bool),
}

/// What the caller is to do next.
#[derive(Debug)]
pub enum ProbeAction {
    /// Connect to port 25 of the host and read the greeting.
    Connect,
    /// Write the command and read the reply.
    Send(String),
    /// Start TLS on the connection, checking the host's certificate.
    UpgradeTls,
    /// The probe is over with `result`; when `quit`, write QUIT first.
    Finish { result: Option<ProbeResult>, quit: bool },
}

/// The value of a [`ProbeEvent`].
pub enum EventView {
    Reply(Option<(u16, Seq<char>)>),
    Handshake(bool),
}

/// The value of a [`ProbeAction`].
pub enum ActionView {
    Connect,
    Send(Seq<char>),
    UpgradeTls,
    Finish(Option<ProbeResult>, bool),
}

impl View for ProbeEvent {
    type V = EventView;

    open spec fn view(&self) -> EventView {
        match self {
            ProbeEvent::Reply(r) => EventView::Reply(
                match r {
                    Some(x) => Some((x.code, x.text@)),
                    None => None,
                },
            ),
            ProbeEvent::Handshake(ok) => EventView::Handshake(*ok),
        }
    }
}

impl View for ProbeAction {
    type V = ActionView;

    open spec fn view(&self) -> ActionView {
        match self {
            ProbeAction::Connect => ActionView::Connect,
            ProbeAction::Send(c) => ActionView::Send(c@),
            ProbeAction::UpgradeTls => ActionView::UpgradeTls,
            ProbeAction::Finish { result, quit } => ActionView::Finish(*result, *quit),
        }
    }
}

/// `EHLO <name>`.
pub open spec fn ehlo_command(helo: Seq<char>) -> Seq<char> {
    "EHLO "@ + helo + "\r\n"@
}

/// `HELO <name>`.
pub open spec fn helo_command(helo: Seq<char>) -> Seq<char> {
    "HELO "@ + helo + "\r\n"@
}

/// `STARTTLS`.
pub open spec fn starttls_command() -> Seq<char> {
    "STARTTLS\r\n"@
}

/// `MAIL FROM:<sender>`.
pub open spec fn mail_command(from: Seq<char>) -> Seq<char> {
    "MAIL FROM:<"@ + from + ">\r\n"@
}

/// `RCPT TO:<recipient>`.
pub open spec fn rcpt_command(to: Seq<char>) -> Seq<char> {
    "RCPT TO:<"@ + to + ">\r\n"@
}

/// Whether a reply code is a positive completion (2xx).
pub open spec fn positive(code: u16) -> bool {
    200 <= code < 300
}

/// A probe that failed without a result.
pub open spec fn probe_aborted() -> (ProbeState, ActionView) {
    (ProbeState::Done, ActionView::Finish(None, false))
}

/// A probe that ended at `stage` with `code`.
pub open spec fn probe_ended(code: u16, stage: ProbeStage) -> (ProbeState, ActionView) {
    (ProbeState::Done, ActionView::Finish(Some(ProbeResult { code, stage }), false))
}

/// After a successful EHLO or HELO: upgrade to TLS when the plain channel
/// offers it, else start the mail transaction.
pub open spec fn after_hello(tls: bool, text: Seq<char>, from: Seq<char>) -> (ProbeState, ActionView) {
    if !tls && offers_starttls(text) {
        (ProbeState::AwaitStartTls, ActionView::Send(starttls_command()))
    } else {
        (ProbeState::AwaitMailFrom, ActionView::Send(mail_command(from)))
    }
}

/// One step of the probe dialogue: the greeting must be 220; EHLO, or HELO
/// when EHLO is refused, must be 2xx (else the probe ends at the HELO stage
/// with code 0); STARTTLS is used when offered and must answer 220, after
/// which EHLO/HELO is repeated over TLS; MAIL FROM must be 2xx; the RCPT TO
/// reply is the result, after which QUIT is sent. DATA is never sent. A lost
/// connection ends the probe without a result, except during EHLO/HELO.
pub open spec fn probe_next(st: ProbeState, ev: EventView, from: Seq<char>, helo: Seq<char>, to: Seq<char>) -> (ProbeState, ActionView) {
    match st {
        ProbeState::AwaitGreeting => match ev {
            EventView::Reply(Some((code, _))) => if code != 220 {
                probe_ended(code, ProbeStage::Greeting)
            } else {
                (ProbeState::AwaitEhlo { tls: false }, ActionView::Send(ehlo_command(helo)))
            },
            _ => probe_aborted(),
        },
        ProbeState::AwaitEhlo { tls } => match ev {
            EventView::Reply(Some((code, text))) => if positive(code) {
                after_hello(tls, text, from)
            } else {
                (ProbeState::AwaitHelo { tls }, ActionView::Send(helo_command(helo)))
            },
            EventView::Reply(None) => probe_ended(0, ProbeStage::Helo),
            _ => probe_aborted(),
        },
        ProbeState::AwaitHelo { tls } => match ev {
            EventView::Reply(Some((code, text))) => if positive(code) {
                after_hello(tls, text, from)
            } else {
                probe_ended(0, ProbeStage::Helo)
            },
            EventView::Reply(None) => probe_ended(0, ProbeStage::Helo),
            _ => probe_aborted(),
        },
        ProbeState::AwaitStartTls => match ev {
            EventView::Reply(Some((code, _))) => if code != 220 {
                probe_ended(code, ProbeStage::StartTls)
            } else {
                (ProbeState::AwaitHandshake, ActionView::UpgradeTls)
            },
            _ => probe_aborted(),
        },
        ProbeState::AwaitHandshake => match ev {
            EventView::Handshake(true) => (ProbeState::AwaitEhlo { tls: true }, ActionView::Send(ehlo_command(helo))),
            _ => probe_aborted(),
        },
        ProbeState::AwaitMailFrom => match ev {
            EventView::Reply(Some((code, _))) => if !positive(code) {
                probe_ended(code, ProbeStage::MailFrom)
            } else {
                (ProbeState::AwaitRecipient, ActionView::Send(rcpt_command(to)))
            },
            _ => probe_aborted(),
        },
        ProbeState::AwaitRecipient => match ev {
            EventView::Reply(Some((code, _))) => (
                ProbeState::Done,
                ActionView::Finish(Some(ProbeResult { code, stage: ProbeStage::Recipient }), true),
            ),
            _ => probe_aborted(),
        },
        ProbeState::Done => probe_aborted(),
    }
}

/// Whether `s` contains a carriage return or a line feed.
pub open spec fn has_line_break(s: Seq<char>) -> bool {
    s.contains('\r') || s.contains('\n')
}

/// One probe of one MX host for one recipient.
#[derive(Debug)]
pub struct ProbeSession {
    pub from: String,
    pub helo: String,
    pub to: String,
    pub state: ProbeState,
}

impl ProbeSession {
    /// Opens a probe: a recipient with a line break is refused outright
    /// (the probe is over without a result); otherwise connect.
    pub fn start(from: String, helo: String, to: String) -> (r: (ProbeSession, ProbeAction))
        ensures
            r.0.from@ == from@,
            r.0.helo@ == helo@,
            r.0.to@ == to@,
            has_line_break(to@) ==> r.0.state == ProbeState::Done && r.1@ == ActionView::Finish(None, false),
            !has_line_break(to@) ==> r.0.state == ProbeState::AwaitGreeting && r.1@ == ActionView::Connect,
    {
        let tv = chars_of(to.as_str());
        if has_char(&tv, '\r') || has_char(&tv, '\n') {
            (ProbeSession { from, helo, to, state: ProbeState::Done }, ProbeAction::Finish { result: None, quit: false })
        } else {
            (ProbeSession { from, helo, to, state: ProbeState::AwaitGreeting }, ProbeAction::Connect)
        }
    }

    fn after_hello(&mut self, tls: bool, text: &String) -> (a: ProbeAction)
        ensures
            final(self).from == old(self).from,
            final(self).helo == old(self).helo,
            final(self).to == old(self).to,
            (final(self).state, a@) == after_hello(tls, text@, old(self).from@),
    {
        if !tls && supports_starttls(text.as_str()) {
            self.state = ProbeState::AwaitStartTls;
            ProbeAction::Send(owned("STARTTLS\r\n"))
        } else {
            self.state = ProbeState::AwaitMailFrom;
            ProbeAction::Send(wrap("MAIL FROM:<", self.from.as_str(), ">\r\n"))
        }
    }

    /// Advances the dialogue by what the caller observed, as [`probe_next`]
    /// describes.
    pub fn step(&mut self, event: ProbeEvent) -> (a: ProbeAction)
        ensures
            final(self).from == old(self).from,
            final(self).helo == old(self).helo,
            final(self).to == old(self).to,
            (final(self).state, a@) == probe_next(
                old(self).state,
                event@,
                old(self).from@,
                old(self).helo@,
                old(self).to@,
            ),
    {
        let aborted = ProbeAction::Finish { result: None, quit: false };
        match self.state {
            ProbeState::AwaitGreeting => match event {
                ProbeEvent::Reply(Some(r)) => {
                    if r.code != 220 {
                        self.state = ProbeState::Done;
                        ProbeAction::Finish {
                            result: Some(ProbeResult { code: r.code, stage: ProbeStage::Greeting }),
                            quit: false,
                        }
                    } else {
                        self.state = ProbeState::AwaitEhlo { tls: false };
                        ProbeAction::Send(wrap("EHLO ", self.helo.as_str(), "\r\n"))
                    }
                },
                _ => {
                    self.state = ProbeState::Done;
                    aborted
                },
            },
            ProbeState::AwaitEhlo { tls } => match event {
                ProbeEvent::Reply(Some(r)) => {
                    if 200 <= r.code && r.code < 300 {
                        self.after_hello(tls, &r.text)
                    } else {
                        self.state = ProbeState::AwaitHelo { tls };
                        ProbeAction::Send(wrap("HELO ", self.helo.as_str(), "\r\n"))
                    }
                },
                ProbeEvent::Reply(None) => {
                    self.state = ProbeState::Done;
                    ProbeAction::Finish {
                        result: Some(ProbeResult { code: 0, stage: ProbeStage::Helo }),
                        quit: false,
                    }
                },
                _ => {
                    self.state = ProbeState::Done;
                    aborted
                },
            },
            ProbeState::AwaitHelo { tls } => match event {
                ProbeEvent::Reply(Some(r)) if 200 <= r.code && r.code < 300 => {
                    self.after_hello(tls, &r.text)
                },
                ProbeEvent::Reply(_) => {
                    self.state = ProbeState::Done;
                    ProbeAction::Finish {
                        result: Some(ProbeResult { code: 0, stage: ProbeStage::Helo }),
                        quit: false,
                    }
                },
                _ => {
                    self.state = ProbeState::Done;
                    aborted
                },
            },
            ProbeState::AwaitStartTls => match event {
                ProbeEvent::Reply(Some(r)) => {
                    if r.code != 220 {
                        self.state = ProbeState::Done;
                        ProbeAction::Finish {
                            result: Some(ProbeResult { code: r.code, stage: ProbeStage::StartTls }),
                            quit: false,
                        }
                    } else {
                        self.state = ProbeState::AwaitHandshake;
                        ProbeAction::UpgradeTls
                    }
                },
                _ => {
                    self.state = ProbeState::Done;
                    aborted
                },
            },
            ProbeState::AwaitHandshake => match event {
                ProbeEvent::Handshake(true) => {
                    self.state = ProbeState::AwaitEhlo { tls: true };
                    ProbeAction::Send(wrap("EHLO ", self.helo.as_str(), "\r\n"))
                },
                _ => {
                    self.state = ProbeState::Done;
                    aborted
                },
            },
            ProbeState::AwaitMailFrom => match event {
                ProbeEvent::Reply(Some(r)) => {
                    if !(200 <= r.code && r.code < 300) {
                        self.state = ProbeState::Done;
                        ProbeAction::Finish {
                            result: Some(ProbeResult { code: r.code, stage: ProbeStage::MailFrom }),
                            quit: false,
                        }
                    } else {
                        self.state = ProbeState::AwaitRecipient;
                        ProbeAction::Send(wrap("RCPT TO:<", self.to.as_str(), ">\r\n"))
                    }
                },
                _ => {
                    self.state = ProbeState::Done;
                    aborted
                },
            },
            ProbeState::AwaitRecipient => match event {
                ProbeEvent::Reply(Some(r)) => {
                    self.state = ProbeState::Done;
                    ProbeAction::Finish {
                        result: Some(ProbeResult { code: r.code, stage: ProbeStage::Recipient }),
                        quit: true,
                    }
                },
                _ => {
                    self.state = ProbeState::Done;
                    aborted
                },
            },
            ProbeState::Done => aborted,
        }
    }
}

/// `a + b + c` as a new `String`.
pub fn wrap(a: &str, b: &str, c: &str) -> (r: String)
    ensures
        r@ == a@ + b@ + c@,
{
    let mut r = owned(a);
    r.append(b);
    r.append(c);
    r
}

// ---------------------------------------------------------------------------
// Verdict over the MX hosts
// ---------------------------------------------------------------------------

/// The verdict a RCPT TO reply code gives: 2xx accepted, 5xx rejected,
/// anything else unknown.
pub open spec fn verdict_for(code: u16) -> Verdict {
    if 200 <= code <= 299 {
        Verdict::Valid
    } else if 500 <= code <= 599 {
        Verdict::Invalid
    } else {
        Verdict::Unknown
    }
}

/// The evidence gathered while probing the MX hosts one after another.
#[derive(Debug)]
pub struct VerifyProgress {
    /// The first probe that ended before RCPT TO.
    pub stage_failure: Option<ProbeResult>,
    /// The first RCPT TO reply that was neither 2xx nor 5xx.
    pub recipient_unknown: Option<Verification>,
}

/// `o`, or `Some(x)` when `o` is empty.
pub open spec fn or_first<T>(o: Option<T>, x: T) -> Option<T> {
    match o {
        Some(y) => Some(y),
        None => Some(x),
    }
}

/// The verification when no host gave a definite answer: the first unknown
/// RCPT TO reply, else the first earlier failure, else nothing at all.
pub open spec fn inconclusive(p: VerifyProgress) -> Verification {
    match p.recipient_unknown {
        Some(v) => v,
        None => match p.stage_failure {
            Some(r) => Verification { verdict: Verdict::Unknown, code: r.code, stage: Some(r.stage) },
            None => Verification { verdict: Verdict::Unknown, code: 0, stage: None },
        },
    }
}

impl VerifyProgress {
    /// Nothing observed yet.
    pub fn new() -> (r: VerifyProgress)
        ensures
            r.stage_failure is None,
            r.recipient_unknown is None,
    {
        VerifyProgress { stage_failure: None, recipient_unknown: None }
    }

    /// Takes the outcome of probing the next host. A RCPT TO reply of 2xx
    /// or 5xx settles the verification (returned; stop probing); other
    /// outcomes are kept, the first of each kind, and probing goes on.
    pub fn observe(&mut self, result: Option<ProbeResult>) -> (r: Option<Verification>)
        ensures
            match result {
                None => r is None && final(self).stage_failure == old(self).stage_failure
                    && final(self).recipient_unknown == old(self).recipient_unknown,
                Some(p) => if p.stage != ProbeStage::Recipient {
                    &&& r is None
                    &&& final(self).stage_failure == or_first(old(self).stage_failure, p)
                    &&& final(self).recipient_unknown == old(self).recipient_unknown
                } else if verdict_for(p.code) == Verdict::Unknown {
                    &&& r is None
                    &&& final(self).stage_failure == old(self).stage_failure
                    &&& final(self).recipient_unknown == or_first(
                        old(self).recipient_unknown,
                        Verification { verdict: Verdict::Unknown, code: p.code, stage: Some(p.stage) },
                    )
                } else {
                    &&& r == Some(Verification { verdict: verdict_for(p.code), code: p.code, stage: Some(p.stage) })
                    &&& final(self).stage_failure == old(self).stage_failure
                    &&& final(self).recipient_unknown == old(self).recipient_unknown
                },
            },
    {
        match result {
            None => None,
            Some(p) => {
                if p.stage != ProbeStage::Recipient {
                    if self.stage_failure.is_none() {
                        self.stage_failure = Some(p);
                    }
                    return None;
                }
                let verdict = if 200 <= p.code && p.code <= 299 {
                    Verdict::Valid
                } else if 500 <= p.code && p.code <= 599 {
                    Verdict::Invalid
                } else {
                    Verdict::Unknown
                };
                let v = Verification { verdict, code: p.code, stage: Some(p.stage) };
                if verdict == Verdict::Unknown {
                    if self.recipient_unknown.is_none() {
                        self.recipient_unknown = Some(v);
                    }
                    return None;
                }
                Some(v)
            },
        }
    }

    /// The verification when every host has been probed without a definite
    /// answer.
    pub fn conclude(&self) -> (v: Verification)
        ensures
            v == inconclusive(*self),
    {
        match self.recipient_unknown {
            Some(v) => v,
            None => match self.stage_failure {
                Some(r) => Verification { verdict: Verdict::Unknown, code: r.code, stage: Some(r.stage) },
                None => Verification { verdict: Verdict::Unknown, code: 0, stage: None },
            },
        }
    }
}

// ---------------------------------------------------------------------------
// Reasons
// ---------------------------------------------------------------------------

/// `"(code N)"`-style text: `lead + decimal(code) + tail`.
pub open spec fn with_code(lead: Seq<char>, code: u16, tail: Seq<char>) -> Seq<char> {
    lead + decimal(code as nat) + tail
}

/// The human-readable reason for a verification.
pub open spec fn reason(v: Verification) -> Seq<char> {
    if v.stage is Some && v.stage->0 != ProbeStage::Recipient {
        if v.code == 0 {
            "SMTP session failed during "@ + v.stage->0.label_view()
        } else {
            "SMTP session rejected during "@ + v.stage->0.label_view() + with_code(" (code "@, v.code, ")"@)
        }
    } else {
        match v.verdict {
            Verdict::Valid => "email accepted by server"@,
            Verdict::Invalid => if v.code == 550 {
                "mailbox rejected by server (code 550)"@
            } else if v.code == 551 {
                "user not local, wrong server"@
            } else if v.code == 553 {
                "mailbox name invalid"@
            } else {
                with_code("rejected by server (code "@, v.code, ")"@)
            },
            Verdict::Unknown => if v.code == 0 {
                "no response — connection failed or timed out"@
            } else if 400 <= v.code < 500 {
                with_code("temporarily deferred (code "@, v.code, ") — retry later"@)
            } else {
                with_code("unexpected response (code "@, v.code, ")"@)
            },
        }
    }
}

/// `lead + code + tail` as a `String`.
fn code_text(lead: &str, code: u16, tail: &str) -> (r: String)
    ensures
        r@ == with_code(lead@, code, tail@),
{
    let mut r = owned(lead);
    let n = decimal_string(code as u128);
    r.append(n.as_str());
    r.append(tail);
    r
}

/// Explains a verification in words.
pub fn reason_for(verification: &Verification) -> (r: String)
    ensures
        r@ == reason(*verification),
{
    if let Some(stage) = verification.stage {
        if stage != ProbeStage::Recipient {
            if verification.code == 0 {
                return crate::text::concat("SMTP session failed during ", stage.label());
            } else {
                let mut r = owned("SMTP session rejected during ");
                r.append(stage.label());
                let t = code_text(" (code ", verification.code, ")");
                r.append(t.as_str());
                return r;
            }
        }
    }
    match verification.verdict {
        Verdict::Valid => owned("email accepted by server"),
        Verdict::Invalid => {
            if verification.code == 550 {
                owned("mailbox rejected by server (code 550)")
            } else if verification.code == 551 {
                owned("user not local, wrong server")
            } else if verification.code == 553 {
                owned("mailbox name invalid")
            } else {
                code_text("rejected by server (code ", verification.code, ")")
            }
        },
        Verdict::Unknown => {
            if verification.code == 0 {
                owned("no response — connection failed or timed out")
            } else if 400 <= verification.code && verification.code < 500 {
                code_text("temporarily deferred (code ", verification.code, ") — retry later")
            } else {
                code_text("unexpected response (code ", verification.code, ")")
            }
        },
    }
}

// ---------------------------------------------------------------------------
// Catch-all detection
// ---------------------------------------------------------------------------

/// The recipient policy shown by the verdicts for random recipients: all
/// accepted is accept-all, all rejected is selective, anything else is
/// inconclusive.
pub open spec fn policy_of(verdicts: Seq<Verdict>) -> RecipientPolicy {
    if forall|i: int| 0 <= i < verdicts.len() ==> verdicts[i] == Verdict::Valid {
        RecipientPolicy::AcceptAll
    } else if forall|i: int| 0 <= i < verdicts.len() ==> verdicts[i] == Verdict::Invalid {
        RecipientPolicy::Selective
    } else {
        RecipientPolicy::Inconclusive
    }
}

/// Classifies the server by its verdicts for random recipients.
pub fn classify_recipient_policy(verdicts: &[Verdict]) -> (r: RecipientPolicy)
    ensures
        r == policy_of(verdicts@),
{
    let mut all_valid = true;
    let mut all_invalid = true;
    let mut i: usize = 0;
    while i < verdicts.len()
        invariant
            i <= verdicts.len(),
            all_valid == forall|k: int| 0 <= k < i ==> verdicts@[k] == Verdict::Valid,
            all_invalid == forall|k: int| 0 <= k < i ==> verdicts@[k] == Verdict::Invalid,
        decreases verdicts.len() - i,
    {
        if verdicts[i] != Verdict::Valid {
            all_valid = false;
        }
        if verdicts[i] != Verdict::Invalid {
            all_invalid = false;
        }
        i = i + 1;
    }
    if all_valid {
        RecipientPolicy::AcceptAll
    } else if all_invalid {
        RecipientPolicy::Selective
    } else {
        RecipientPolicy::Inconclusive
    }
}

/// The random recipient used to test a domain: `mailcheck-probe-`, the nonce
/// in hexadecimal, `-`, the index, `@`, the domain.
pub open spec fn probe_address_view(nonce: u128, index: u32, domain: Seq<char>) -> Seq<char> {
    "mailcheck-probe-"@ + hex(nonce as nat) + "-"@ + decimal(index as nat) + "@"@ + domain
}

/// Builds the random recipient number `index` for `domain`.
pub fn probe_address(nonce: u128, index: u32, domain: &str) -> (r: String)
    ensures
        r@ == probe_address_view(nonce, index, domain@),
{
    let mut r = owned("mailcheck-probe-");
    let h = hex_string(nonce);
    r.append(h.as_str());
    r.append("-");
    let d = decimal_string(index as u128);
    r.append(d.as_str());
    r.append("@");
    r.append(domain);
    r
}

// ---------------------------------------------------------------------------
// Reported rows
// ---------------------------------------------------------------------------

/// A result row without company evidence.
pub open spec fn row(
    domain: Seq<char>,
    first: Seq<char>,
    last: Seq<char>,
    email: Seq<char>,
    status: Seq<char>,
    passed: bool,
    reason: Seq<char>,
) -> OutputView {
    OutputView {
        domain,
        first_name: first,
        last_name: last,
        email,
        confidence: None,
        pattern_source: Seq::empty(),
        status,
        passed,
        reason,
    }
}

/// Builds a result row without company evidence.
pub fn output(
    domain: &str,
    first: &str,
    last: &str,
    email: String,
    status: &str,
    passed: bool,
    reason: String,
) -> (r: OutputRecord)
    ensures
        r@ == row(domain@, first@, last@, email@, status@, passed, reason@),
{
    OutputRecord {
        domain: owned(domain),
        first_name: owned(first),
        last_name: owned(last),
        email,
        confidence: None,
        pattern_source: String::new(),
        status: owned(status),
        passed,
        reason,
    }
}

/// Whether the domain and the names are free of line breaks, as SMTP
/// commands require.
pub fn fields_single_line(domain: &str, first: &str, last: &str) -> (r: bool)
    ensures
        r == !(has_line_break(domain@) || has_line_break(first@) || has_line_break(last@)),
{
    let d = chars_of(domain);
    let f = chars_of(first);
    let l = chars_of(last);
    !(has_char(&d, '\r') || has_char(&d, '\n') || has_char(&f, '\r') || has_char(&f, '\n')
        || has_char(&l, '\r') || has_char(&l, '\n'))
}

/// Whether a sender address can be used in MAIL FROM (no line breaks).
pub fn sender_ok(from: &str) -> (r: bool)
    ensures
        r == !has_line_break(from@),
{
    let v = chars_of(from);
    !(has_char(&v, '\r') || has_char(&v, '\n'))
}

/// The row reported when a domain has no usable mail host.
pub fn no_mx_output(domain: &str, first: &str, last: &str) -> (r: OutputRecord)
    ensures
        r@ == row(domain@, first@, last@, Seq::empty(), "unknown"@, false, "no usable MX records found for domain"@),
{
    output(domain, first, last, String::new(), "unknown", false, owned("no usable MX records found for domain"))
}

/// The address `local@domain`.
pub fn address_for(local: &str, domain: &str) -> (r: String)
    ensures
        r@ == local@ + "@"@ + domain@,
{
    wrap(local, "@", domain)
}

/// The reason given for every candidate of an accept-all domain.
pub open spec fn opaque_reason() -> Seq<char> {
    "SMTP accepts randomized recipients — mailbox is opaque; use pattern confidence"@
}

/// The rows for a domain that accepts any recipient: every candidate is
/// "opaque" and none passes.
pub fn opaque_outputs(domain: &str, first: &str, last: &str, locals: &[String]) -> (r: Vec<OutputRecord>)
    ensures
        r@.len() == locals@.len(),
        forall|i: int|
            0 <= i < locals@.len() ==> (#[trigger] r@[i])@ == row(
                domain@,
                first@,
                last@,
                locals@[i]@ + "@"@ + domain@,
                "opaque"@,
                false,
                opaque_reason(),
            ),
{
    let mut r: Vec<OutputRecord> = Vec::new();
    let mut i: usize = 0;
    while i < locals.len()
        invariant
            i <= locals.len(),
            r@.len() == i,
            forall|k: int|
                0 <= k < i ==> (#[trigger] r@[k])@ == row(
                    domain@,
                    first@,
                    last@,
                    locals@[k]@ + "@"@ + domain@,
                    "opaque"@,
                    false,
                    opaque_reason(),
                ),
        decreases locals.len() - i,
    {
        let email = address_for(locals[i].as_str(), domain);
        let row = output(
            domain,
            first,
            last,
            email,
            "opaque",
            false,
            owned("SMTP accepts randomized recipients — mailbox is opaque; use pattern confidence"),
        );
        r.push(row);
        i = i + 1;
    }
    r
}

/// The status reported for a verdict on a selective server.
pub open spec fn status_of(v: Verdict) -> Seq<char> {
    match v {
        Verdict::Valid => "confirmed"@,
        Verdict::Invalid => "rejected"@,
        Verdict::Unknown => "unknown"@,
    }
}

/// The row for a checked candidate address: when the catch-all test was
/// inconclusive the address is "unverifiable" and does not pass; otherwise
/// its status follows the verdict and it passes exactly when accepted.
pub open spec fn checked_row(
    domain: Seq<char>,
    first: Seq<char>,
    last: Seq<char>,
    address: Seq<char>,
    policy: RecipientPolicy,
    v: Verification,
) -> OutputView {
    if policy == RecipientPolicy::Inconclusive {
        row(domain, first, last, address, "unverifiable"@, false, "catch-all probes were inconclusive; "@ + reason(v))
    } else {
        row(domain, first, last, address, status_of(v.verdict), v.verdict == Verdict::Valid, reason(v))
    }
}

/// Builds the row for a checked candidate address.
pub fn checked_output(
    domain: &str,
    first: &str,
    last: &str,
    address: String,
    policy: RecipientPolicy,
    verification: &Verification,
) -> (r: OutputRecord)
    ensures
        r@ == checked_row(domain@, first@, last@, address@, policy, *verification),
{
    let why = reason_for(verification);
    if policy == RecipientPolicy::Inconclusive {
        let text = crate::text::concat("catch-all probes were inconclusive; ", why.as_str());
        output(domain, first, last, address, "unverifiable", false, text)
    } else {
        let status = match verification.verdict {
            Verdict::Valid => "confirmed",
            Verdict::Invalid => "rejected",
            Verdict::Unknown => "unknown",
        };
        output(domain, first, last, address, status, verification.verdict == Verdict::Valid, why)
    }
}

// ---------------------------------------------------------------------------
// MX hosts
// ---------------------------------------------------------------------------

/// The MX records kept: the exchange name without trailing dots, dropping
/// those that become empty.
pub open spec fn usable_mx(records: Seq<(u16, Seq<char>)>) -> Seq<(u16, Seq<char>)>
    decreases records.len(),
{
    if records.len() == 0 {
        Seq::empty()
    } else {
        let host = crate::text::trim_end_char(records.last().1, '.');
        if host.len() > 0 {
            usable_mx(records.drop_last()).push((records.last().0, host))
        } else {
            usable_mx(records.drop_last())
        }
    }
}

/// The number of leading entries of `s` whose preference is at most `p`.
pub open spec fn place_for(s: Seq<(u16, Seq<char>)>, p: u16) -> int
    decreases s.len(),
{
    if s.len() == 0 || s[0].0 > p {
        0
    } else {
        1 + place_for(s.drop_first(), p)
    }
}

/// `s` stably sorted by preference (equal preferences keep their order).
pub open spec fn by_preference(s: Seq<(u16, Seq<char>)>) -> Seq<(u16, Seq<char>)>
    decreases s.len(),
{
    if s.len() == 0 {
        s
    } else {
        let sorted = by_preference(s.drop_last());
        sorted.insert(place_for(sorted, s.last().0), s.last())
    }
}

/// The hosts of `s`, in order.
pub open spec fn hosts_of(s: Seq<(u16, Seq<char>)>) -> Seq<Seq<char>> {
    s.map_values(|r: (u16, Seq<char>)| r.1)
}

/// The values of MX records given as (preference, exchange) pairs.
pub open spec fn mx_views(records: Seq<(u16, String)>) -> Seq<(u16, Seq<char>)> {
    records.map_values(|r: (u16, String)| (r.0, r.1@))
}

proof fn lemma_place_for_bound(s: Seq<(u16, Seq<char>)>, p: u16)
    ensures
        0 <= place_for(s, p) <= s.len(),
    decreases s.len(),
{
    if s.len() > 0 && s[0].0 <= p {
        lemma_place_for_bound(s.drop_first(), p);
    }
}

/// Where to insert preference `p` into `s`: after the leading entries of
/// preference at most `p`.
fn find_place(s: &Vec<(u16, String)>, p: u16) -> (k: usize)
    ensures
        k == place_for(mx_views(s@), p),
{
    let ghost v = mx_views(s@);
    let mut k: usize = 0;
    assert(v.skip(0) =~= v);
    proof {
        lemma_place_for_bound(v, p);
    }
    while k < s.len() && s[k].0 <= p
        invariant
            k <= s.len(),
            v == mx_views(s@),
            place_for(v, p) == k + place_for(v.skip(k as int), p),
        decreases s.len() - k,
    {
        assert(v.skip(k as int)[0] == v[k as int]);
        assert(v.skip(k as int).drop_first() =~= v.skip(k + 1));
        k = k + 1;
    }
    if k < s.len() {
        assert(v.skip(k as int)[0] == v[k as int]);
    } else {
        assert(v.skip(k as int).len() == 0);
    }
    k
}

/// Orders the MX records of a domain into the hosts to try: trailing dots
/// removed, empty names dropped, lowest preference first, equal preferences
/// in the order given.
pub fn order_mx_hosts(records: Vec<(u16, String)>) -> (r: Vec<String>)
    ensures
        r.deep_view() == hosts_of(by_preference(usable_mx(mx_views(records@)))),
{
    let ghost all = mx_views(records@);
    let mut sorted: Vec<(u16, String)> = Vec::new();
    let mut i: usize = 0;
    assert(mx_views(sorted@) =~= by_preference(usable_mx(all.take(0))));
    while i < records.len()
        invariant
            i <= records.len(),
            all == mx_views(records@),
            mx_views(sorted@) == by_preference(usable_mx(all.take(i as int))),
        decreases records.len() - i,
    {
        let v = chars_of(records[i].1.as_str());
        let t = crate::text::trim_end_char_chars(&v, '.');
        let ghost before = usable_mx(all.take(i as int));
        assert(all.take(i + 1).drop_last() =~= all.take(i as int));
        assert(all.take(i + 1).last() == all[i as int]);
        if t.len() > 0 {
            let host = string_from(&t);
            let p = records[i].0;
            let k = find_place(&sorted, p);
            proof {
                lemma_place_for_bound(mx_views(sorted@), p);
            }
            sorted.insert(k, (p, host));
            assert(mx_views(sorted@) =~= by_preference(before).insert(k as int, (p, t@)));
            assert(usable_mx(all.take(i + 1)) =~= before.push((p, t@)));
            assert(usable_mx(all.take(i + 1)).drop_last() =~= before);
        }
        i = i + 1;
    }
    assert(all.take(i as int) =~= all);
    let mut r: Vec<String> = Vec::new();
    let mut j: usize = 0;
    while j < sorted.len()
        invariant
            j <= sorted.len(),
            r.deep_view() == hosts_of(mx_views(sorted@)).take(j as int),
        decreases sorted.len() - j,
    {
        let h = sorted[j].1.clone();
        let ghost prev = r.deep_view();
        r.push(h);
        assert(r.deep_view() =~= prev.push(h@));
        assert(hosts_of(mx_views(sorted@)).take(j + 1) =~= hosts_of(mx_views(sorted@)).take(j as int).push(
            sorted@[j as int].1@,
        ));
        j = j + 1;
    }
    assert(hosts_of(mx_views(sorted@)).take(j as int) =~= hosts_of(mx_views(sorted@)));
    r
}

/// The hosts to try when a domain has no MX record: the domain itself when it
/// has an address, else none.
pub fn fallback_hosts(domain: &str, has_address: bool) -> (r: Vec<String>)
    ensures
        r.deep_view() == if has_address { seq![domain@] } else { Seq::<Seq<char>>::empty() },
{
    let mut r: Vec<String> = Vec::new();
    if has_address {
        r.push(owned(domain));
    }
    assert(r.deep_view() =~= if has_address { seq![domain@] } else { Seq::<Seq<char>>::empty() });
    r
}

} // verus!
