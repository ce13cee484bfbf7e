//! Rendering of address patterns into candidate local parts.
use vstd::prelude::*;

use crate::text::{
    chars_of, lemma_seq_less_irreflexive, lowercase, replace_all, replace_chars, seq_less,
    string_from, to_lowercase,
};

verus! {

/// The first character of `s` as a one-character sequence, or nothing.
pub open spec fn initial(s: Seq<char>) -> Seq<char> {
    if s.len() > 0 {
        seq![s[0]]
    } else {
        Seq::empty()
    }
}

/// `pattern` with `{first}`, `{last}`, `{f}` and `{l}` replaced, in that
/// order, by `first`, `last` and their initials.
pub open spec fn substituted(pattern: Seq<char>, first: Seq<char>, last: Seq<char>) -> Seq<char> {
    replace_all(
        replace_all(replace_all(replace_all(pattern, "{first}"@, first), "{last}"@, last), "{f}"@, initial(first)),
        "{l}"@,
        initial(last),
    )
}

/// The local part a pattern gives for a name: the names are lower-cased,
/// then substituted into the pattern.
pub open spec fn rendered(pattern: Seq<char>, first: Seq<char>, last: Seq<char>) -> Seq<char> {
    substituted(pattern, lowercase(first), lowercase(last))
}

/// Whether `s` is strictly increasing in [`seq_less`] order (so without
/// repeats).
pub open spec fn strictly_sorted(s: Seq<Seq<char>>) -> bool {
    forall|i: int, j: int| 0 <= i < j < s.len() ==> seq_less(#[trigger] s[i], #[trigger] s[j])
}

/// Substitutes names, taken as they are, into a pattern: `{first}` and
/// `{last}` become the names, `{f}` and `{l}` their first characters.
pub fn substitute(pattern: &str, first: &str, last: &str) -> (r: String)
    ensures
        r@ == substituted(pattern@, first@, last@),
{
    let fv = chars_of(first);
    let lv = chars_of(last);
    let mut fi: Vec<char> = Vec::new();
    if fv.len() > 0 {
        fi.push(fv[0]);
    }
    let mut li: Vec<char> = Vec::new();
    if lv.len() > 0 {
        li.push(lv[0]);
    }
    assert(fi@ =~= initial(fv@));
    assert(li@ =~= initial(lv@));
    let t_first = chars_of("{first}");
    let t_last = chars_of("{last}");
    let t_f = chars_of("{f}");
    let t_l = chars_of("{l}");
    proof {
        reveal_strlit("{first}");
        reveal_strlit("{last}");
        reveal_strlit("{f}");
        reveal_strlit("{l}");
    }
    let p = chars_of(pattern);
    let a = replace_chars(&p, &t_first, &fv);
    let b = replace_chars(&a, &t_last, &lv);
    let c = replace_chars(&b, &t_f, &fi);
    let d = replace_chars(&c, &t_l, &li);
    string_from(&d)
}

/// Renders a pattern like "{f}.{last}" into a candidate local part, e.g.
/// "j.doe". Tokens: `{f}` is the first-name initial, `{l}` the last-name
/// initial, `{first}` the full first name, `{last}` the full last name. Names
/// are lower-cased before substitution.
pub fn render(pattern: &str, first: &str, last: &str) -> (r: String)
    ensures
        r@ == rendered(pattern@, first@, last@),
{
    let f = to_lowercase(first);
    let l = to_lowercase(last);
    substitute(pattern, f.as_str(), l.as_str())
}

/// The elements of `s` in order, each kept at its first occurrence only.
pub open spec fn first_occurrences(s: Seq<Seq<char>>) -> Seq<Seq<char>>
    decreases s.len(),
{
    if s.len() == 0 {
        s
    } else if first_occurrences(s.drop_last()).contains(s.last()) {
        first_occurrences(s.drop_last())
    } else {
        first_occurrences(s.drop_last()).push(s.last())
    }
}

/// What each of `patterns` renders to for the name, in order.
pub open spec fn renders_for(patterns: Seq<Seq<char>>, first: Seq<char>, last: Seq<char>) -> Seq<Seq<char>> {
    patterns.map_values(|p: Seq<char>| rendered(p, first, last))
}

/// An element occurs among the first occurrences exactly when it occurs.
pub proof fn lemma_first_occurrences_contains(s: Seq<Seq<char>>, x: Seq<char>)
    ensures
        first_occurrences(s).contains(x) <==> s.contains(x),
    decreases s.len(),
{
    if s.len() > 0 {
        lemma_first_occurrences_contains(s.drop_last(), x);
        let r = first_occurrences(s.drop_last());
        if s.drop_last().contains(x) {
            let k = choose|k: int| 0 <= k < s.drop_last().len() && s.drop_last()[k] == x;
            assert(s[k] == x);
        }
        if s.contains(x) && x != s.last() {
            let k = choose|k: int| 0 <= k < s.len() && s[k] == x;
            assert(s.drop_last()[k] == x);
        }
        if x == s.last() && !r.contains(x) {
            assert(r.push(x)[r.len() as int] == x);
        }
        if r.contains(x) && !r.contains(s.last()) {
            let k = choose|k: int| 0 <= k < r.len() && r[k] == x;
            assert(r.push(s.last())[k] == x);
        }
        if s.contains(x) {
            assert(s[s.len() - 1] == s.last());
        }
    }
}

/// Appends `item`, the element at `i` of `all`, to the first occurrences of
/// `all.take(i)` unless it is there already.
pub(crate) fn push_first(out: &mut Vec<String>, item: String, Ghost(all): Ghost<Seq<Seq<char>>>, Ghost(i): Ghost<int>)
    requires
        0 <= i < all.len(),
        item@ == all[i],
        old(out).deep_view() == first_occurrences(all.take(i)),
    ensures
        final(out).deep_view() == first_occurrences(all.take(i + 1)),
{
    assert(all.take(i + 1).drop_last() =~= all.take(i));
    if !crate::models::patterns::contains_string(out, &item) {
        let ghost prev = out.deep_view();
        out.push(item);
        assert(out.deep_view() =~= prev.push(all[i]));
    }
}

/// Renders every pattern for a given name, keeping each rendered local part
/// once, at its first position: the candidates follow the order of the
/// patterns.
pub fn candidates(patterns: &[String], first: &str, last: &str) -> (r: Vec<String>)
    ensures
        r.deep_view() == first_occurrences(renders_for(patterns@.map_values(|p: String| p@), first@, last@)),
{
    let ghost all = renders_for(patterns@.map_values(|p: String| p@), first@, last@);
    let mut out: Vec<String> = Vec::new();
    let mut i: usize = 0;
    assert(out.deep_view() =~= first_occurrences(all.take(0)));
    while i < patterns.len()
        invariant
            i <= patterns.len(),
            all == renders_for(patterns@.map_values(|p: String| p@), first@, last@),
            out.deep_view() == first_occurrences(all.take(i as int)),
        decreases patterns.len() - i,
    {
        let local = render(patterns[i].as_str(), first, last);
        push_first(&mut out, local, Ghost(all), Ghost(i as int));
        i = i + 1;
    }
    assert(all.take(i as int) =~= all);
    out
}

/// The strings of `items` in order, each kept at its first position only.
pub fn distinct_in_order(items: &[String]) -> (r: Vec<String>)
    ensures
        r.deep_view() == first_occurrences(items@.map_values(|s: String| s@)),
{
    let ghost all = items@.map_values(|s: String| s@);
    let mut out: Vec<String> = Vec::new();
    let mut i: usize = 0;
    assert(out.deep_view() =~= first_occurrences(all.take(0)));
    while i < items.len()
        invariant
            i <= items.len(),
            all == items@.map_values(|s: String| s@),
            out.deep_view() == first_occurrences(all.take(i as int)),
        decreases items.len() - i,
    {
        let item = items[i].clone();
        push_first(&mut out, item, Ghost(all), Ghost(i as int));
        i = i + 1;
    }
    assert(all.take(i as int) =~= all);
    out
}

/// In a strictly sorted sequence equal elements sit at the same place.
pub proof fn lemma_sorted_unique(s: Seq<Seq<char>>, i: int, j: int)
    requires
        strictly_sorted(s),
        0 <= i < s.len(),
        0 <= j < s.len(),
        s[i] == s[j],
    ensures
        i == j,
{
    if i < j {
        assert(seq_less(s[i], s[j]));
        lemma_seq_less_irreflexive(s[i]);
    } else if j < i {
        assert(seq_less(s[j], s[i]));
        lemma_seq_less_irreflexive(s[i]);
    }
}

} // verus!
