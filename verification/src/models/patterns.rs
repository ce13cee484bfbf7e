//! Address patterns: validation of pattern syntax and the user's overrides
//! of the built-in fallback patterns.
use vstd::prelude::*;

use crate::text::{
    chars_eq, chars_of, concat, find_char, find_from, lemma_concat_contains, lemma_find_char,
    lemma_push_contains, occurrences, occurs_at, owned, sub_chars,
};

verus! {

// ---------------------------------------------------------------------------
// Built-in patterns and tokens
// ---------------------------------------------------------------------------

/// The built-in fallback patterns, in the order in which they are tried.
pub open spec fn builtin_seq() -> Seq<Seq<char>> {
    seq![
        "{first}"@,
        "{last}"@,
        "{first}.{last}"@,
        "{last}.{first}"@,
        "{first}{last}"@,
        "{last}{first}"@,
        "{f}{last}"@,
        "{f}.{last}"@,
        "{first}{l}"@,
        "{first}.{l}"@,
        "{first}_{last}"@,
        "{first}-{last}"@,
        "{f}{l}"@,
    ]
}

/// The built-in fallback patterns.
pub fn builtin_patterns() -> (r: Vec<String>)
    ensures
        r.deep_view() == builtin_seq(),
{
    let r = vec![
        owned("{first}"),
        owned("{last}"),
        owned("{first}.{last}"),
        owned("{last}.{first}"),
        owned("{first}{last}"),
        owned("{last}{first}"),
        owned("{f}{last}"),
        owned("{f}.{last}"),
        owned("{first}{l}"),
        owned("{first}.{l}"),
        owned("{first}_{last}"),
        owned("{first}-{last}"),
        owned("{f}{l}"),
    ];
    assert(r.deep_view() =~= builtin_seq());
    r
}

/// Whether `p` is one of the built-in patterns.
pub fn is_builtin(p: &str) -> (r: bool)
    ensures
        r == builtin_seq().contains(p@),
{
    let builtins = builtin_patterns();
    let target = owned(p);
    let mut i: usize = 0;
    while i < builtins.len()
        invariant
            i <= builtins.len(),
            builtins.deep_view() == builtin_seq(),
            target@ == p@,
            forall|k: int| 0 <= k < i ==> builtin_seq()[k] != p@,
        decreases builtins.len() - i,
    {
        if builtins[i] == target {
            assert(builtin_seq()[i as int] == p@);
            return true;
        }
        i = i + 1;
    }
    false
}

/// The tokens a pattern may contain.
pub open spec fn is_valid_token(t: Seq<char>) -> bool {
    t == "{first}"@ || t == "{last}"@ || t == "{f}"@ || t == "{l}"@
}

// ---------------------------------------------------------------------------
// Pattern syntax
// ---------------------------------------------------------------------------

/// Why a pattern is rejected.
pub enum PatternFault {
    /// Empty, or holding a carriage return or a line feed.
    Blank,
    /// A `}` with no `{` before it.
    UnmatchedClose,
    /// A `{...}` group that is not one of the tokens.
    UnknownToken(Seq<char>),
    /// A `{` with no `}` after it.
    UnmatchedOpen,
}

/// The fault of the text that follows the part already scanned.
pub open spec fn scan_fault(rest: Seq<char>) -> Option<PatternFault>
    decreases rest.len(),
{
    match (find_char(rest, '{'), find_char(rest, '}')) {
        (None, None) => None,
        (None, Some(_)) => Some(PatternFault::UnmatchedClose),
        (Some(open), Some(close)) => {
            if close < open {
                Some(PatternFault::UnmatchedClose)
            } else if 0 <= open && close < rest.len() {
                let token = rest.subrange(open, close + 1);
                if !is_valid_token(token) {
                    Some(PatternFault::UnknownToken(token))
                } else {
                    scan_fault(rest.skip(close + 1))
                }
            } else {
                None
            }
        },
        (Some(_), None) => Some(PatternFault::UnmatchedOpen),
    }
}

/// The first fault of a pattern, scanning left to right; `None` when valid.
pub open spec fn pattern_fault(p: Seq<char>) -> Option<PatternFault> {
    if p.len() == 0 || p.contains('\r') || p.contains('\n') {
        Some(PatternFault::Blank)
    } else {
        scan_fault(p)
    }
}

/// The message reported for a fault of pattern `p`.
pub open spec fn fault_message(p: Seq<char>, f: PatternFault) -> Seq<char> {
    match f {
        PatternFault::Blank => "pattern must be non-empty and contain no newlines"@,
        PatternFault::UnmatchedClose => "unmatched '}' in pattern: "@ + p,
        PatternFault::UnknownToken(t) => "unknown token '"@ + t
            + "' — valid tokens are {first}, {last}, {f}, {l}"@,
        PatternFault::UnmatchedOpen => "unmatched '{' in pattern: "@ + p,
    }
}

/// Whether the characters `t` form one of the tokens.
fn valid_token(t: &Vec<char>) -> (r: bool)
    ensures
        r == is_valid_token(t@),
{
    chars_eq(t, &chars_of("{first}")) || chars_eq(t, &chars_of("{last}")) || chars_eq(
        t,
        &chars_of("{f}"),
    ) || chars_eq(t, &chars_of("{l}"))
}

/// Checks the syntax of an address pattern: non-empty, no line breaks, and
/// every `{...}` group one of `{first}`, `{last}`, `{f}`, `{l}` with balanced
/// braces. The error names the first fault found from the left.
pub fn validate_pattern(pattern: &str) -> (r: Result<(), String>)
    ensures
        r is Ok <==> pattern_fault(pattern@) is None,
        r matches Err(e) ==> e@ == fault_message(pattern@, pattern_fault(pattern@)->0),
{
    let v = chars_of(pattern);
    if v.len() == 0 || crate::text::has_char(&v, '\r') || crate::text::has_char(&v, '\n') {
        return Err(owned("pattern must be non-empty and contain no newlines"));
    }
    let mut cursor: usize = 0;
    assert(v@.skip(0) =~= v@);
    while cursor < v.len()
        invariant
            cursor <= v.len(),
            v@ == pattern@,
            pattern_fault(pattern@) == scan_fault(v@.skip(cursor as int)),
        decreases v.len() - cursor,
    {
        let open = find_from(&v, cursor, '{');
        let close = find_from(&v, cursor, '}');
        proof {
            lemma_find_char(v@.skip(cursor as int), '{');
            lemma_find_char(v@.skip(cursor as int), '}');
        }
        match (open, close) {
            (None, None) => {
                return Ok(());
            },
            (None, Some(_)) => {
                return Err(concat("unmatched '}' in pattern: ", pattern));
            },
            (Some(o), Some(c)) => {
                if c < o {
                    return Err(concat("unmatched '}' in pattern: ", pattern));
                }
                let token = sub_chars(&v, cursor + o, cursor + c + 1);
                assert(token@ =~= v@.skip(cursor as int).subrange(o as int, c + 1));
                if !valid_token(&token) {
                    let mut msg = owned("unknown token '");
                    let t = crate::text::string_from(&token);
                    msg.append(t.as_str());
                    msg.append("' — valid tokens are {first}, {last}, {f}, {l}");
                    return Err(msg);
                }
                assert(v@.skip(cursor as int).skip(c + 1) =~= v@.skip(cursor + c + 1));
                cursor = cursor + c + 1;
            },
            (Some(_), None) => {
                return Err(concat("unmatched '{' in pattern: ", pattern));
            },
        }
    }
    proof {
        if cursor >= v.len() {
            assert(v@.skip(cursor as int).len() == 0);
        }
    }
    Ok(())
}

// ---------------------------------------------------------------------------
// Overrides of the built-in patterns
// ---------------------------------------------------------------------------

/// User changes to the built-in patterns: patterns added, and built-in
/// patterns switched off.
#[derive(Debug, Clone)]
pub struct PatternOverrides {
    pub added: Vec<String>,
    pub removed: Vec<String>,
}

/// `s` without the elements that occur in `removed`, order kept.
pub open spec fn without(s: Seq<Seq<char>>, removed: Seq<Seq<char>>) -> Seq<Seq<char>>
    decreases s.len(),
{
    if s.len() == 0 {
        s
    } else if removed.contains(s.last()) {
        without(s.drop_last(), removed)
    } else {
        without(s.drop_last(), removed).push(s.last())
    }
}

/// The value of a [`PatternOverrides`]: the added patterns and the
/// switched-off built-in patterns.
pub struct OverridesView {
    pub added: Seq<Seq<char>>,
    pub removed: Seq<Seq<char>>,
}

impl View for PatternOverrides {
    type V = OverridesView;

    open spec fn view(&self) -> OverridesView {
        OverridesView { added: self.added.deep_view(), removed: self.removed.deep_view() }
    }
}

/// No overrides at all.
pub open spec fn no_overrides() -> OverridesView {
    OverridesView { added: Seq::empty(), removed: Seq::empty() }
}

/// The active patterns: the built-in ones not switched off, in their order,
/// then the added ones.
pub open spec fn active_patterns(o: OverridesView) -> Seq<Seq<char>> {
    without(builtin_seq(), o.removed) + o.added
}

/// The switched-off patterns as the operations keep them: distinct
/// built-in patterns.
pub open spec fn removed_ok(o: OverridesView) -> bool {
    &&& o.removed.no_duplicates()
    &&& forall|i: int| 0 <= i < o.removed.len() ==> builtin_seq().contains(#[trigger] o.removed[i])
}

/// Overrides as the operations keep them: `removed` holds distinct built-in
/// patterns and `added` holds distinct patterns.
pub open spec fn overrides_ok(o: OverridesView) -> bool {
    &&& removed_ok(o)
    &&& o.added.no_duplicates()
}

/// `o` after turning `p` on: a switched-off built-in pattern comes back (its
/// first entry in `removed` is dropped); otherwise `p` is appended to `added`
/// unless it is already there.
pub open spec fn with_pattern(o: OverridesView, p: Seq<char>) -> OverridesView {
    if o.removed.contains(p) {
        OverridesView { added: o.added, removed: o.removed.remove_value(p) }
    } else if o.added.contains(p) {
        o
    } else {
        OverridesView { added: o.added.push(p), removed: o.removed }
    }
}

/// `o` after turning `p` off: `p` leaves `added`, and a built-in `p` is
/// recorded in `removed` unless it is there already.
pub open spec fn without_pattern(o: OverridesView, p: Seq<char>) -> OverridesView {
    OverridesView {
        added: without(o.added, seq![p]),
        removed: if builtin_seq().contains(p) && !o.removed.contains(p) {
            o.removed.push(p)
        } else {
            o.removed
        },
    }
}

impl Default for PatternOverrides {
    fn default() -> (r: Self)
        ensures
            r@ == no_overrides(),
    {
        let r = PatternOverrides { added: Vec::new(), removed: Vec::new() };
        assert(r@.added =~= Seq::<Seq<char>>::empty());
        assert(r@.removed =~= Seq::<Seq<char>>::empty());
        r
    }
}

impl PatternOverrides {
    /// The patterns that are added.
    pub open spec fn added_view(&self) -> Seq<Seq<char>> {
        self@.added
    }

    /// The built-in patterns that are switched off.
    pub open spec fn removed_view(&self) -> Seq<Seq<char>> {
        self@.removed
    }

    /// The active patterns: built-in ones not removed, then added ones.
    pub fn effective(&self) -> (r: Vec<String>)
        ensures
            r.deep_view() == active_patterns(self@),
    {
        let builtins = builtin_patterns();
        let mut r: Vec<String> = Vec::new();
        let mut i: usize = 0;
        while i < builtins.len()
            invariant
                i <= builtins.len(),
                builtins.deep_view() == builtin_seq(),
                r.deep_view() == without(builtin_seq().take(i as int), self.removed_view()),
            decreases builtins.len() - i,
        {
            let gone = contains_string(&self.removed, &builtins[i]);
            assert(builtin_seq().take(i + 1).drop_last() =~= builtin_seq().take(i as int));
            if !gone {
                r.push(builtins[i].clone());
                assert(r.deep_view() =~= without(builtin_seq().take(i as int), self.removed_view()).push(
                    builtin_seq()[i as int],
                ));
            }
            i = i + 1;
        }
        assert(builtin_seq().take(13) =~= builtin_seq());
        let mut k: usize = 0;
        let ghost base = r.deep_view();
        while k < self.added.len()
            invariant
                k <= self.added.len(),
                r.deep_view() == base + self.added_view().take(k as int),
            decreases self.added.len() - k,
        {
            let item = self.added[k].clone();
            let ghost prev = r.deep_view();
            r.push(item);
            assert(item@ == self.added_view()[k as int]);
            assert(r.deep_view() =~= prev.push(item@));
            assert(self.added_view().take(k + 1) =~= self.added_view().take(k as int).push(
                self.added_view()[k as int],
            ));
            assert(r.deep_view() =~= base + self.added_view().take(k + 1));
            k = k + 1;
        }
        assert(self.added_view().take(self.added.len() as int) =~= self.added_view());
        r
    }

    /// Turns `pattern` on: a built-in pattern that was switched off comes
    /// back (its first entry in `removed` is dropped and nothing else
    /// changes); otherwise the pattern is appended to `added` unless it is
    /// already there.
    pub fn add(&mut self, pattern: String)
        ensures
            final(self)@ == with_pattern(old(self)@, pattern@),
    {
        match position_of(&self.removed, &pattern) {
            Some(pos) => {
                proof {
                    self.removed_view().index_of_first_ensures(pattern@);
                }
                self.removed.remove(pos);
                assert(self.removed_view() =~= old(self).removed_view().remove(pos as int));
            },
            None => {
                if !contains_string(&self.added, &pattern) {
                    self.added.push(pattern);
                    assert(self.added_view() =~= old(self).added_view().push(pattern@));
                }
            },
        }
    }

    /// Turns `pattern` off: it leaves `added`, and a built-in pattern is
    /// recorded in `removed` unless it is there already.
    pub fn remove(&mut self, pattern: &str)
        ensures
            final(self)@ == without_pattern(old(self)@, pattern@),
    {
        let target = owned(pattern);
        let mut kept: Vec<String> = Vec::new();
        let mut i: usize = 0;
        while i < self.added.len()
            invariant
                i <= self.added.len(),
                target@ == pattern@,
                self.added == old(self).added,
                self.removed == old(self).removed,
                kept.deep_view() == without(self.added_view().take(i as int), seq![pattern@]),
            decreases self.added.len() - i,
        {
            assert(self.added_view().take(i + 1).drop_last() =~= self.added_view().take(i as int));
            if !(self.added[i] == target) {
                let item = self.added[i].clone();
                let ghost prev = kept.deep_view();
                kept.push(item);
                assert(item@ == self.added_view()[i as int]);
                assert(kept.deep_view() =~= prev.push(item@));
                assert(!seq![pattern@].contains(self.added_view()[i as int]));
                assert(kept.deep_view() =~= without(self.added_view().take(i as int), seq![pattern@]).push(
                    self.added_view()[i as int],
                ));
            } else {
                assert(seq![pattern@][0] == self.added_view()[i as int]);
            }
            i = i + 1;
        }
        assert(self.added_view().take(self.added.len() as int) =~= self.added_view());
        self.added = kept;
        if is_builtin(pattern) && !contains_string(&self.removed, &target) {
            self.removed.push(target);
            assert(self.removed_view() =~= old(self).removed_view().push(pattern@));
        }
    }

    /// Drops every override, so that the built-in patterns apply unchanged.
    pub fn reset(&mut self)
        ensures
            final(self)@ == no_overrides(),
    {
        self.added.clear();
        self.removed.clear();
        assert(self.added_view() =~= Seq::<Seq<char>>::empty());
        assert(self.removed_view() =~= Seq::<Seq<char>>::empty());
    }
}

/// Whether `v` holds a string equal to `s`.
pub fn contains_string(v: &Vec<String>, s: &String) -> (r: bool)
    ensures
        r == v.deep_view().contains(s@),
{
    let mut i: usize = 0;
    while i < v.len()
        invariant
            i <= v.len(),
            forall|k: int| 0 <= k < i ==> v.deep_view()[k] != s@,
        decreases v.len() - i,
    {
        if v[i] == *s {
            assert(v.deep_view()[i as int] == s@);
            return true;
        }
        i = i + 1;
    }
    false
}

/// The position of the first string in `v` equal to `s`.
pub fn position_of(v: &Vec<String>, s: &String) -> (r: Option<usize>)
    ensures
        match r {
            Some(i) => v.deep_view().index_of_first(s@) == Some(i as int),
            None => !v.deep_view().contains(s@),
        },
{
    let mut i: usize = 0;
    while i < v.len()
        invariant
            i <= v.len(),
            forall|k: int| 0 <= k < i ==> v.deep_view()[k] != s@,
        decreases v.len() - i,
    {
        if v[i] == *s {
            proof {
                v.deep_view().index_of_first_ensures(s@);
                assert(v.deep_view()[i as int] == s@);
            }
            return Some(i);
        }
        i = i + 1;
    }
    proof {
        v.deep_view().index_of_first_ensures(s@);
    }
    None
}

// ---------------------------------------------------------------------------
// Laws of the overrides
// ---------------------------------------------------------------------------

proof fn lemma_without_contains(s: Seq<Seq<char>>, r: Seq<Seq<char>>, x: Seq<char>)
    ensures
        without(s, r).contains(x) == (s.contains(x) && !r.contains(x)),
    decreases s.len(),
{
    if s.len() > 0 {
        lemma_without_contains(s.drop_last(), r, x);
        assert(s =~= s.drop_last().push(s.last()));
        if s.contains(x) && !r.contains(x) && !s.drop_last().contains(x) {
            let k = choose|k: int| 0 <= k < s.len() && s[k] == x;
            if k < s.len() - 1 {
                assert(s.drop_last()[k] == x);
            }
        }
        if s.drop_last().contains(x) {
            let k = choose|k: int| 0 <= k < s.drop_last().len() && s.drop_last()[k] == x;
            assert(s[k] == x);
        }
        if without(s, r).contains(x) && !without(s.drop_last(), r).contains(x) {
            assert(without(s, r) =~= without(s.drop_last(), r).push(s.last()));
            let k = choose|k: int| 0 <= k < without(s, r).len() && without(s, r)[k] == x;
            assert(k == without(s.drop_last(), r).len());
        }
        if without(s.drop_last(), r).contains(x) && !r.contains(s.last()) {
            let k = choose|k: int| 0 <= k < without(s.drop_last(), r).len() && without(s.drop_last(), r)[k] == x;
            assert(without(s, r)[k] == x);
        }
        if !r.contains(s.last()) && s.last() == x {
            assert(without(s, r)[without(s, r).len() - 1] == x);
        }
    }
}

proof fn lemma_without_nothing(s: Seq<Seq<char>>)
    ensures
        without(s, Seq::empty()) == s,
    decreases s.len(),
{
    if s.len() > 0 {
        lemma_without_nothing(s.drop_last());
        assert(s =~= s.drop_last().push(s.last()));
    }
}

proof fn lemma_without_distinct(s: Seq<Seq<char>>, r: Seq<Seq<char>>)
    requires
        s.no_duplicates(),
    ensures
        without(s, r).no_duplicates(),
    decreases s.len(),
{
    if s.len() > 0 {
        let front = s.drop_last();
        assert forall|i: int, j: int| 0 <= i < front.len() && 0 <= j < front.len() && i != j implies front[i] != front[j] by {
            assert(front[i] == s[i] && front[j] == s[j]);
        }
        lemma_without_distinct(front, r);
        if !r.contains(s.last()) {
            lemma_without_contains(front, r, s.last());
            if front.contains(s.last()) {
                let k = choose|k: int| 0 <= k < front.len() && front[k] == s.last();
                assert(s[k] == s[s.len() - 1]);
            }
            let w = without(front, r);
            assert forall|i: int, j: int| 0 <= i < w.push(s.last()).len() && 0 <= j < w.push(s.last()).len() && i != j implies w.push(s.last())[i] != w.push(s.last())[j] by {
                if i == w.len() {
                    assert(!w.contains(s.last()));
                    assert(w.push(s.last())[j] == w[j]);
                } else if j == w.len() {
                    assert(!w.contains(s.last()));
                    assert(w.push(s.last())[i] == w[i]);
                }
            }
        }
    }
}

proof fn lemma_remove_value_keeps(s: Seq<Seq<char>>, p: Seq<char>)
    requires
        s.no_duplicates(),
    ensures
        s.remove_value(p).no_duplicates(),
        !s.remove_value(p).contains(p),
        forall|x: Seq<char>| #[trigger] s.remove_value(p).contains(x) ==> s.contains(x),
{
    s.index_of_first_ensures(p);
    match s.index_of_first(p) {
        Some(k) => {
            let t = s.remove(k);
            assert forall|i: int| 0 <= i < t.len() implies #[trigger] t[i] == (if i < k { s[i] } else { s[i + 1] }) by {}
            assert forall|i: int, j: int| 0 <= i < t.len() && 0 <= j < t.len() && i != j implies t[i] != t[j] by {
                let a = if i < k { i } else { i + 1 };
                let b = if j < k { j } else { j + 1 };
                assert(t[i] == s[a] && t[j] == s[b]);
            }
            if t.contains(p) {
                let i = choose|i: int| 0 <= i < t.len() && t[i] == p;
                let a = if i < k { i } else { i + 1 };
                assert(s[a] == s[k]);
            }
            assert forall|x: Seq<char>| #[trigger] t.contains(x) implies s.contains(x) by {
                let i = choose|i: int| 0 <= i < t.len() && t[i] == x;
                let a = if i < k { i } else { i + 1 };
                assert(s[a] == x);
            }
        },
        None => {},
    }
}

/// Turning a pattern off removes it from the active patterns.
pub proof fn lemma_removed_pattern_is_inactive(o: OverridesView, p: Seq<char>)
    ensures
        !active_patterns(without_pattern(o, p)).contains(p),
{
    let n = without_pattern(o, p);
    lemma_without_contains(o.added, seq![p], p);
    assert(seq![p][0] == p);
    lemma_without_contains(builtin_seq(), n.removed, p);
    if builtin_seq().contains(p) && !o.removed.contains(p) {
        assert(n.removed[n.removed.len() - 1] == p);
    }
    let w = without(builtin_seq(), n.removed);
    if active_patterns(n).contains(p) {
        let k = choose|k: int| 0 <= k < active_patterns(n).len() && active_patterns(n)[k] == p;
        if k < w.len() {
            assert(w[k] == p);
        } else {
            assert(n.added[k - w.len()] == p);
        }
    }
}

/// When the switched-off patterns are distinct built-in ones, turning a
/// pattern on makes it active.
pub proof fn lemma_added_pattern_is_active(o: OverridesView, p: Seq<char>)
    requires
        removed_ok(o),
    ensures
        active_patterns(with_pattern(o, p)).contains(p),
{
    let n = with_pattern(o, p);
    let w = without(builtin_seq(), n.removed);
    if o.removed.contains(p) {
        lemma_remove_value_keeps(o.removed, p);
        let k = choose|k: int| 0 <= k < o.removed.len() && o.removed[k] == p;
        assert(builtin_seq().contains(o.removed[k]));
        lemma_without_contains(builtin_seq(), n.removed, p);
        let j = choose|j: int| 0 <= j < w.len() && w[j] == p;
        assert(active_patterns(n)[j] == p);
    } else if o.added.contains(p) {
        let j = choose|j: int| 0 <= j < o.added.len() && o.added[j] == p;
        assert(active_patterns(n)[w.len() + j] == p);
    } else {
        assert(active_patterns(n)[(w.len() + o.added.len()) as int] == p);
    }
}

/// After a reset the active patterns are exactly the built-in ones.
pub proof fn lemma_reset_restores_builtins()
    ensures
        active_patterns(no_overrides()) == builtin_seq(),
{
    lemma_without_nothing(builtin_seq());
    assert(active_patterns(no_overrides()) =~= builtin_seq());
}

/// Switching an active built-in pattern off and on again gives back the
/// same overrides.
pub proof fn lemma_remove_then_add_restores(o: OverridesView, p: Seq<char>)
    requires
        builtin_seq().contains(p),
        !o.removed.contains(p),
        !o.added.contains(p),
    ensures
        with_pattern(without_pattern(o, p), p) == o,
{
    let n = without_pattern(o, p);
    assert(n.removed == o.removed.push(p));
    assert(n.removed.contains(p)) by {
        assert(n.removed[o.removed.len() as int] == p);
    }
    n.removed.index_of_first_ensures(p);
    let k = n.removed.index_of_first(p)->0;
    assert(k == o.removed.len()) by {
        if k < o.removed.len() {
            assert(o.removed[k] == p);
        }
    }
    assert(n.removed.remove_value(p) =~= o.removed);
    assert(without(o.added, seq![p]) =~= o.added) by {
        lemma_without_identity(o.added, p);
    }
}

proof fn lemma_without_identity(s: Seq<Seq<char>>, p: Seq<char>)
    requires
        !s.contains(p),
    ensures
        without(s, seq![p]) == s,
    decreases s.len(),
{
    if s.len() > 0 {
        assert(!s.drop_last().contains(p)) by {
            if s.drop_last().contains(p) {
                let k = choose|k: int| 0 <= k < s.drop_last().len() && s.drop_last()[k] == p;
                assert(s[k] == p);
            }
        }
        lemma_without_identity(s.drop_last(), p);
        assert(s.last() != p) by {
            if s.last() == p {
                assert(s[s.len() - 1] == p);
            }
        }
        assert(!seq![p].contains(s.last())) by {
            if seq![p].contains(s.last()) {
                let k = choose|k: int| 0 <= k < 1 && seq![p][k] == s.last();
                assert(seq![p][k] == p);
            }
        }
        assert(s =~= s.drop_last().push(s.last()));
    }
}

/// Turning patterns on and off, and resetting, keep the overrides
/// well-formed.
pub proof fn lemma_operations_keep_overrides_ok(o: OverridesView, p: Seq<char>)
    requires
        overrides_ok(o),
    ensures
        overrides_ok(with_pattern(o, p)),
        overrides_ok(without_pattern(o, p)),
        overrides_ok(no_overrides()),
{
    lemma_remove_value_keeps(o.removed, p);
    let a = with_pattern(o, p);
    if !o.removed.contains(p) && !o.added.contains(p) {
        assert forall|i: int, j: int| 0 <= i < a.added.len() && 0 <= j < a.added.len() && i != j implies a.added[i] != a.added[j] by {
            if i == o.added.len() {
                assert(a.added[j] == o.added[j]);
            } else if j == o.added.len() {
                assert(a.added[i] == o.added[i]);
            }
        }
    }
    if o.removed.contains(p) {
        assert forall|i: int| 0 <= i < a.removed.len() implies builtin_seq().contains(#[trigger] a.removed[i]) by {
            assert(a.removed.contains(a.removed[i]));
            let k = choose|k: int| 0 <= k < o.removed.len() && o.removed[k] == a.removed[i];
            assert(builtin_seq().contains(o.removed[k]));
        }
    }
    let r = without_pattern(o, p);
    lemma_without_distinct(o.added, seq![p]);
    if builtin_seq().contains(p) && !o.removed.contains(p) {
        assert forall|i: int, j: int| 0 <= i < r.removed.len() && 0 <= j < r.removed.len() && i != j implies r.removed[i] != r.removed[j] by {
            if i == o.removed.len() {
                assert(r.removed[j] == o.removed[j]);
            } else if j == o.removed.len() {
                assert(r.removed[i] == o.removed[i]);
            }
        }
        assert forall|i: int| 0 <= i < r.removed.len() implies builtin_seq().contains(#[trigger] r.removed[i]) by {
            if i < o.removed.len() {
                assert(r.removed[i] == o.removed[i]);
            }
        }
    }
}

proof fn lemma_active_contains(o: OverridesView, x: Seq<char>)
    ensures
        active_patterns(o).contains(x) == ((builtin_seq().contains(x) && !o.removed.contains(x))
            || o.added.contains(x)),
{
    lemma_concat_contains(without(builtin_seq(), o.removed), o.added, x);
    lemma_without_contains(builtin_seq(), o.removed, x);
}

proof fn lemma_one_contains(p: Seq<char>, x: Seq<char>)
    ensures
        seq![p].contains(x) == (x == p),
{
    if x == p {
        assert(seq![p][0] == x);
    }
}

proof fn lemma_remove_value_contains(s: Seq<Seq<char>>, p: Seq<char>, x: Seq<char>)
    requires
        x != p,
    ensures
        s.remove_value(p).contains(x) == s.contains(x),
{
    s.index_of_first_ensures(p);
    match s.index_of_first(p) {
        Some(k) => {
            let t = s.remove(k);
            if t.contains(x) {
                let i = choose|i: int| 0 <= i < t.len() && t[i] == x;
                let a = if i < k { i } else { i + 1 };
                assert(s[a] == x);
            }
            if s.contains(x) {
                let i = choose|i: int| 0 <= i < s.len() && s[i] == x;
                assert(i != k);
                let a = if i < k { i } else { i - 1 };
                assert(t[a] == x);
            }
        },
        None => {},
    }
}

proof fn lemma_occurrences_without(s: Seq<Seq<char>>, r1: Seq<Seq<char>>, r2: Seq<Seq<char>>, q: Seq<char>)
    requires
        r1.contains(q) == r2.contains(q),
    ensures
        occurrences(without(s, r1), q) == occurrences(without(s, r2), q),
    decreases s.len(),
{
    if s.len() > 0 {
        lemma_occurrences_without(s.drop_last(), r1, r2, q);
        let w1 = without(s.drop_last(), r1);
        let w2 = without(s.drop_last(), r2);
        assert(w1.push(s.last()).drop_last() =~= w1);
        assert(w2.push(s.last()).drop_last() =~= w2);
    }
}

proof fn lemma_occurrences_concat(a: Seq<Seq<char>>, b: Seq<Seq<char>>, q: Seq<char>)
    ensures
        occurrences(a + b, q) == occurrences(a, q) + occurrences(b, q),
    decreases b.len(),
{
    if b.len() == 0 {
        assert(a + b =~= a);
    } else {
        lemma_occurrences_concat(a, b.drop_last(), q);
        assert((a + b).drop_last() =~= a + b.drop_last());
        assert((a + b).last() == b.last());
    }
}

/// Turning a pattern on leaves the number of times every other pattern is
/// active unchanged.
pub proof fn lemma_add_keeps_other_counts(o: OverridesView, p: Seq<char>, q: Seq<char>)
    requires
        q != p,
    ensures
        occurrences(active_patterns(with_pattern(o, p)), q) == occurrences(active_patterns(o), q),
{
    let n = with_pattern(o, p);
    lemma_occurrences_concat(without(builtin_seq(), o.removed), o.added, q);
    lemma_occurrences_concat(without(builtin_seq(), n.removed), n.added, q);
    if o.removed.contains(p) {
        lemma_remove_value_contains(o.removed, p, q);
        lemma_occurrences_without(builtin_seq(), o.removed, n.removed, q);
    } else if !o.added.contains(p) {
        assert(o.added.push(p).drop_last() =~= o.added);
    }
}

/// Switching an active pattern off and on again leaves the same patterns
/// active, when the switched-off patterns are distinct built-in ones.
pub proof fn lemma_remove_then_add_same_patterns(o: OverridesView, p: Seq<char>)
    requires
        removed_ok(o),
        active_patterns(o).contains(p),
    ensures
        forall|x: Seq<char>|
            active_patterns(with_pattern(without_pattern(o, p), p)).contains(x) == active_patterns(
                o,
            ).contains(x),
{
    let n1 = without_pattern(o, p);
    let n2 = with_pattern(n1, p);
    lemma_active_contains(o, p);
    assert forall|x: Seq<char>| active_patterns(n2).contains(x) == active_patterns(o).contains(x) by {
        lemma_active_contains(o, x);
        lemma_active_contains(n2, x);
        lemma_without_contains(o.added, seq![p], x);
        lemma_without_contains(o.added, seq![p], p);
        lemma_one_contains(p, x);
        lemma_one_contains(p, p);
        if builtin_seq().contains(p) && !o.removed.contains(p) {
            lemma_push_contains(o.removed, p, p);
            n1.removed.index_of_first_ensures(p);
            let k = n1.removed.index_of_first(p)->0;
            assert(k == o.removed.len()) by {
                if k < o.removed.len() {
                    assert(o.removed[k] == p);
                }
            }
            assert(n1.removed.remove_value(p) =~= o.removed);
        } else if builtin_seq().contains(p) {
            lemma_remove_value_keeps(o.removed, p);
            if x != p {
                lemma_remove_value_contains(o.removed, p, x);
            }
        } else {
            assert(!o.removed.contains(p)) by {
                if o.removed.contains(p) {
                    let k = choose|k: int| 0 <= k < o.removed.len() && o.removed[k] == p;
                    assert(builtin_seq().contains(o.removed[k]));
                }
            }
            lemma_push_contains(n1.added, p, x);
        }
    }
}

proof fn lemma_without_concat(a: Seq<Seq<char>>, b: Seq<Seq<char>>, r: Seq<Seq<char>>)
    ensures
        without(a + b, r) == without(a, r) + without(b, r),
    decreases b.len(),
{
    if b.len() == 0 {
        assert(a + b =~= a);
        assert(without(a, r) + without(b, r) =~= without(a, r));
    } else {
        lemma_without_concat(a, b.drop_last(), r);
        assert((a + b).drop_last() =~= a + b.drop_last());
        assert((a + b).last() == b.last());
        if !r.contains(b.last()) {
            assert(without(a, r) + without(b.drop_last(), r).push(b.last()) =~= (without(a, r) + without(
                b.drop_last(),
                r,
            )).push(b.last()));
        }
    }
}

proof fn lemma_without_then(s: Seq<Seq<char>>, r: Seq<Seq<char>>, p: Seq<char>)
    ensures
        without(without(s, r), seq![p]) == without(s, r.push(p)),
    decreases s.len(),
{
    if s.len() > 0 {
        lemma_without_then(s.drop_last(), r, p);
        lemma_push_contains(r, p, s.last());
        lemma_one_contains(p, s.last());
        let w = without(s.drop_last(), r);
        if !r.contains(s.last()) {
            assert(w.push(s.last()).drop_last() =~= w);
        }
    }
}

/// Turning a pattern off removes it from the active patterns and keeps the
/// others in their order.
pub proof fn lemma_remove_keeps_order(o: OverridesView, p: Seq<char>)
    ensures
        active_patterns(without_pattern(o, p)) == without(active_patterns(o), seq![p]),
{
    let n = without_pattern(o, p);
    let w = without(builtin_seq(), o.removed);
    lemma_without_concat(w, o.added, seq![p]);
    if builtin_seq().contains(p) && !o.removed.contains(p) {
        lemma_without_then(builtin_seq(), o.removed, p);
    } else {
        lemma_without_contains(builtin_seq(), o.removed, p);
        lemma_without_identity(w, p);
    }
}

/// Turning a pattern off a second time changes nothing.
pub proof fn lemma_remove_twice(o: OverridesView, p: Seq<char>)
    ensures
        without_pattern(without_pattern(o, p), p) == without_pattern(o, p),
{
    let n = without_pattern(o, p);
    lemma_without_contains(o.added, seq![p], p);
    lemma_one_contains(p, p);
    lemma_without_identity(n.added, p);
    if builtin_seq().contains(p) && !o.removed.contains(p) {
        lemma_push_contains(o.removed, p, p);
    }
}

// ---------------------------------------------------------------------------
// The built-in patterns are valid
// ---------------------------------------------------------------------------

proof fn lemma_find_char_at(s: Seq<char>, c: char, k: int)
    requires
        0 <= k < s.len(),
        s[k] == c,
        forall|j: int| 0 <= j < k ==> s[j] != c,
    ensures
        find_char(s, c) == Some(k),
{
    lemma_find_char(s, c);
    match find_char(s, c) {
        Some(m) => {
            if m < k {
                assert(s[m] != c);
            } else if m > k {
                assert(s[k] != c);
            }
        },
        None => {
            assert(s[k] != c);
        },
    }
}

proof fn lemma_token_shape(t: Seq<char>)
    requires
        is_valid_token(t),
    ensures
        t.len() >= 3,
        t[0] == '{',
        t[t.len() - 1] == '}',
        forall|j: int| 0 < j < t.len() - 1 ==> 'a' <= #[trigger] t[j] && t[j] <= 'z',
{
    reveal_strlit("{first}");
    reveal_strlit("{last}");
    reveal_strlit("{f}");
    reveal_strlit("{l}");
}

/// Whether `s` holds no carriage return and no line feed.
pub open spec fn single_line(s: Seq<char>) -> bool {
    !s.contains('\r') && !s.contains('\n')
}

proof fn lemma_scan_token(t: Seq<char>, rest: Seq<char>)
    requires
        is_valid_token(t),
    ensures
        scan_fault(t + rest) == scan_fault(rest),
        single_line(t + rest) == single_line(rest),
{
    lemma_token_shape(t);
    let s = t + rest;
    lemma_find_char_at(s, '{', 0);
    lemma_find_char_at(s, '}', t.len() - 1);
    assert(s.subrange(0, t.len() as int) =~= t);
    assert(s.skip(t.len() as int) =~= rest);
    assert(single_line(s) == single_line(rest)) by {
        if s.contains('\r') {
            let k = choose|k: int| 0 <= k < s.len() && s[k] == '\r';
            if k < t.len() {
                assert(s[k] == t[k]);
            } else {
                assert(rest[k - t.len()] == '\r');
            }
        }
        if s.contains('\n') {
            let k = choose|k: int| 0 <= k < s.len() && s[k] == '\n';
            if k < t.len() {
                assert(s[k] == t[k]);
            } else {
                assert(rest[k - t.len()] == '\n');
            }
        }
        if rest.contains('\r') {
            let k = choose|k: int| 0 <= k < rest.len() && rest[k] == '\r';
            assert(s[t.len() + k] == '\r');
        }
        if rest.contains('\n') {
            let k = choose|k: int| 0 <= k < rest.len() && rest[k] == '\n';
            assert(s[t.len() + k] == '\n');
        }
    }
}

proof fn lemma_scan_plain(c: char, rest: Seq<char>)
    requires
        c != '{',
        c != '}',
        c != '\r',
        c != '\n',
    ensures
        scan_fault(seq![c] + rest) == scan_fault(rest),
        single_line(seq![c] + rest) == single_line(rest),
{
    let s = seq![c] + rest;
    assert(s.drop_first() =~= rest);
    assert(s[0] == c);
    match (find_char(rest, '{'), find_char(rest, '}')) {
        (Some(o), Some(k)) => {
            lemma_find_char(rest, '{');
            lemma_find_char(rest, '}');
            if k >= o {
                assert(s.subrange(o + 1, k + 2) =~= rest.subrange(o, k + 1));
                assert(s.skip(k + 2) =~= rest.skip(k + 1));
            }
        },
        _ => {},
    }
    assert(single_line(s) == single_line(rest)) by {
        if s.contains('\r') {
            let k = choose|k: int| 0 <= k < s.len() && s[k] == '\r';
            assert(rest[k - 1] == '\r');
        }
        if s.contains('\n') {
            let k = choose|k: int| 0 <= k < s.len() && s[k] == '\n';
            assert(rest[k - 1] == '\n');
        }
        if rest.contains('\r') {
            let k = choose|k: int| 0 <= k < rest.len() && rest[k] == '\r';
            assert(s[k + 1] == '\r');
        }
        if rest.contains('\n') {
            let k = choose|k: int| 0 <= k < rest.len() && rest[k] == '\n';
            assert(s[k + 1] == '\n');
        }
    }
}

proof fn lemma_scan_empty()
    ensures
        scan_fault(Seq::<char>::empty()) is None,
        single_line(Seq::<char>::empty()),
{
}

/// Whether one of the four tokens `{first}`, `{last}`, `{f}`, `{l}`, spelled
/// out character by character, starts at position `i` of `s`.
pub open spec fn token_starts_at(s: Seq<char>, i: int) -> bool {
    ||| occurs_at(s, seq!['{', 'f', 'i', 'r', 's', 't', '}'], i)
    ||| occurs_at(s, seq!['{', 'l', 'a', 's', 't', '}'], i)
    ||| occurs_at(s, seq!['{', 'f', '}'], i)
    ||| occurs_at(s, seq!['{', 'l', '}'], i)
}

/// The accepted tokens are exactly `{first}`, `{last}`, `{f}` and `{l}`.
pub proof fn lemma_valid_tokens(t: Seq<char>)
    ensures
        is_valid_token(t) == (t == seq!['{', 'f', 'i', 'r', 's', 't', '}'] || t == seq![
            '{',
            'l',
            'a',
            's',
            't',
            '}',
        ] || t == seq!['{', 'f', '}'] || t == seq!['{', 'l', '}']),
{
    reveal_strlit("{first}");
    reveal_strlit("{last}");
    reveal_strlit("{f}");
    reveal_strlit("{l}");
    assert("{first}"@ =~= seq!['{', 'f', 'i', 'r', 's', 't', '}']);
    assert("{last}"@ =~= seq!['{', 'l', 'a', 's', 't', '}']);
    assert("{f}"@ =~= seq!['{', 'f', '}']);
    assert("{l}"@ =~= seq!['{', 'l', '}']);
}

proof fn lemma_scan_groups(rest: Seq<char>)
    requires
        scan_fault(rest) is None,
    ensures
        forall|i: int| 0 <= i < rest.len() && #[trigger] rest[i] == '{' ==> token_starts_at(rest, i),
    decreases rest.len(),
{
    lemma_find_char(rest, '{');
    lemma_find_char(rest, '}');
    match (find_char(rest, '{'), find_char(rest, '}')) {
        (Some(o), Some(c)) => {
            let tok = rest.subrange(o, c + 1);
            assert(is_valid_token(tok));
            lemma_token_shape(tok);
            lemma_valid_tokens(tok);
            let tail = rest.skip(c + 1);
            lemma_scan_groups(tail);
            assert forall|i: int| 0 <= i < rest.len() && #[trigger] rest[i] == '{' implies token_starts_at(rest, i) by {
                if i < o {
                } else if i == o {
                    assert(rest.subrange(o, o + tok.len()) == tok);
                } else if i <= c {
                    assert(rest[i] == tok[i - o]);
                } else {
                    let j = i - (c + 1);
                    assert(tail[j] == rest[i]);
                    assert(token_starts_at(tail, j));
                    assert forall|t: Seq<char>| occurs_at(tail, t, j) implies occurs_at(rest, t, i) by {
                        assert(rest.subrange(i, i + t.len()) =~= tail.subrange(j, j + t.len()));
                    }
                }
            }
        },
        _ => {},
    }
}

/// In a valid pattern every `{` opens one of the four tokens.
pub proof fn lemma_valid_pattern_braces(p: Seq<char>)
    requires
        pattern_fault(p) is None,
    ensures
        forall|i: int| 0 <= i < p.len() && #[trigger] p[i] == '{' ==> token_starts_at(p, i),
{
    lemma_scan_groups(p);
}

/// Every built-in pattern passes [`validate_pattern`].
pub proof fn lemma_builtins_are_valid()
    ensures
        forall|i: int| 0 <= i < builtin_seq().len() ==> pattern_fault(#[trigger] builtin_seq()[i]) is None,
{
    reveal_strlit("{first}");
    reveal_strlit("{last}");
    reveal_strlit("{f}");
    reveal_strlit("{l}");
    reveal_strlit("{first}.{last}");
    reveal_strlit("{last}.{first}");
    reveal_strlit("{first}{last}");
    reveal_strlit("{last}{first}");
    reveal_strlit("{f}{last}");
    reveal_strlit("{f}.{last}");
    reveal_strlit("{first}{l}");
    reveal_strlit("{first}.{l}");
    reveal_strlit("{first}_{last}");
    reveal_strlit("{first}-{last}");
    reveal_strlit("{f}{l}");
    let e = Seq::<char>::empty();
    let first = "{first}"@;
    let last = "{last}"@;
    let f = "{f}"@;
    let l = "{l}"@;
    lemma_scan_empty();
    lemma_scan_token(first, e);
    lemma_scan_token(last, e);
    lemma_scan_token(l, e);
    lemma_scan_token(last, e);
    lemma_scan_plain('.', last + e);
    lemma_scan_plain('.', first + e);
    lemma_scan_plain('.', l + e);
    lemma_scan_plain('_', last + e);
    lemma_scan_plain('-', last + e);
    lemma_scan_token(first, seq!['.'] + (last + e));
    lemma_scan_token(last, seq!['.'] + (first + e));
    lemma_scan_token(first, last + e);
    lemma_scan_token(last, first + e);
    lemma_scan_token(f, last + e);
    lemma_scan_token(f, seq!['.'] + (last + e));
    lemma_scan_token(first, l + e);
    lemma_scan_token(first, seq!['.'] + (l + e));
    lemma_scan_token(first, seq!['_'] + (last + e));
    lemma_scan_token(first, seq!['-'] + (last + e));
    lemma_scan_token(f, l + e);
    assert(first =~= first + e);
    assert(last =~= last + e);
    assert("{first}.{last}"@ =~= first + (seq!['.'] + (last + e)));
    assert("{last}.{first}"@ =~= last + (seq!['.'] + (first + e)));
    assert("{first}{last}"@ =~= first + (last + e));
    assert("{last}{first}"@ =~= last + (first + e));
    assert("{f}{last}"@ =~= f + (last + e));
    assert("{f}.{last}"@ =~= f + (seq!['.'] + (last + e)));
    assert("{first}{l}"@ =~= first + (l + e));
    assert("{first}.{l}"@ =~= first + (seq!['.'] + (l + e)));
    assert("{first}_{last}"@ =~= first + (seq!['_'] + (last + e)));
    assert("{first}-{last}"@ =~= first + (seq!['-'] + (last + e)));
    assert("{f}{l}"@ =~= f + (l + e));
}

} // verus!
