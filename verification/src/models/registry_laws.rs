//! Which registries are valid, and that the local changes keep them so.
use vstd::prelude::*;

use crate::models::company::{
    domain_ok, domains_of, drop_domain, normalize, pattern_texts, patterns_error, record_pairs,
    records_error, registry_error, upsert_patterns, upsert_records, PatternEntry,
    RecordView, RegistryView, REGISTRY_VERSION,
};
use crate::models::patterns::pattern_fault;
use crate::text::{
    ascii_lower, is_ascii_text, is_ws, lemma_ascii_lower, lemma_concat_contains, lemma_push_contains,
    no_ascii_upper, trim, trim_end_char, trim_end_ws, trim_start,
};

verus! {

/// A pattern entry that passes the checks on its own.
pub open spec fn entry_ok(p: PatternEntry) -> bool {
    &&& pattern_fault(p.pattern) is None
    &&& p.confidence <= 100
    &&& p.samples >= 1
}

/// A record that passes the checks on its own.
pub open spec fn record_ok(c: RecordView) -> bool {
    &&& domain_ok(normalize(c.domain))
    &&& c.domain == normalize(c.domain)
    &&& c.patterns.len() > 0
    &&& forall|k: int| 0 <= k < c.patterns.len() ==> entry_ok(#[trigger] c.patterns[k])
}

/// The (domain, pattern) pairs of all records, in order.
pub open spec fn all_pairs(cs: Seq<RecordView>) -> Seq<(Seq<char>, Seq<char>)>
    decreases cs.len(),
{
    if cs.len() == 0 {
        Seq::empty()
    } else {
        record_pairs(cs[0]) + all_pairs(cs.drop_first())
    }
}

/// A registry is valid exactly when it has the supported version, every
/// record passes on its own, and no (domain, pattern) pair occurs twice.
pub open spec fn registry_valid(r: RegistryView) -> bool {
    &&& r.version == REGISTRY_VERSION
    &&& forall|i: int| 0 <= i < r.companies.len() ==> record_ok(#[trigger] r.companies[i])
    &&& all_pairs(r.companies).no_duplicates()
}

proof fn lemma_push_distinct<T>(s: Seq<T>, x: T)
    ensures
        s.push(x).no_duplicates() == (s.no_duplicates() && !s.contains(x)),
{
    let t = s.push(x);
    if t.no_duplicates() {
        assert forall|i: int, j: int| 0 <= i < s.len() && 0 <= j < s.len() && i != j implies s[i] != s[j] by {
            assert(t[i] == s[i] && t[j] == s[j]);
        }
        if s.contains(x) {
            let k = choose|k: int| 0 <= k < s.len() && s[k] == x;
            assert(t[k] == t[s.len() as int]);
        }
    }
    if s.no_duplicates() && !s.contains(x) {
        assert forall|i: int, j: int| 0 <= i < t.len() && 0 <= j < t.len() && i != j implies t[i] != t[j] by {
            if i == s.len() {
                assert(t[j] == s[j]);
            } else if j == s.len() {
                assert(t[i] == s[i]);
            } else {
                assert(t[i] == s[i] && t[j] == s[j]);
            }
        }
    }
}

proof fn lemma_patterns_error(seen: Seq<(Seq<char>, Seq<char>)>, d: Seq<char>, ps: Seq<PatternEntry>)
    requires
        seen.no_duplicates(),
    ensures
        (patterns_error(seen, d, ps) is None) == ((forall|k: int| 0 <= k < ps.len() ==> entry_ok(#[trigger] ps[k]))
            && (seen + ps.map_values(|e: PatternEntry| (d, e.pattern))).no_duplicates()),
    decreases ps.len(),
{
    let pairs = ps.map_values(|e: PatternEntry| (d, e.pattern));
    if ps.len() == 0 {
        assert(seen + pairs =~= seen);
    } else {
        let q = (d, ps[0].pattern);
        let rest = ps.drop_first();
        let rpairs = rest.map_values(|e: PatternEntry| (d, e.pattern));
        assert(seen + pairs =~= seen.push(q) + rpairs);
        lemma_push_distinct(seen, q);
        if !seen.contains(q) {
            lemma_patterns_error(seen.push(q), d, rest);
        }
        let all_ok = forall|k: int| 0 <= k < ps.len() ==> entry_ok(#[trigger] ps[k]);
        let rest_ok = forall|k: int| 0 <= k < rest.len() ==> entry_ok(#[trigger] rest[k]);
        assert(all_ok == (entry_ok(ps[0]) && rest_ok)) by {
            if entry_ok(ps[0]) && rest_ok {
                assert forall|k: int| 0 <= k < ps.len() implies entry_ok(#[trigger] ps[k]) by {
                    if k > 0 {
                        assert(ps[k] == rest[k - 1]);
                    }
                }
            }
            if all_ok {
                assert forall|k: int| 0 <= k < rest.len() implies entry_ok(#[trigger] rest[k]) by {
                    assert(rest[k] == ps[k + 1]);
                }
            }
        }
        let whole = seen.push(q) + rpairs;
        if seen.contains(q) {
            let k = choose|k: int| 0 <= k < seen.len() && seen[k] == q;
            assert(whole[k] == whole[seen.len() as int]);
        }
        if whole.no_duplicates() {
            assert forall|i: int, j: int| 0 <= i < seen.push(q).len() && 0 <= j < seen.push(q).len() && i != j
                implies seen.push(q)[i] != seen.push(q)[j] by {
                assert(whole[i] == seen.push(q)[i] && whole[j] == seen.push(q)[j]);
            }
        }
    }
}

proof fn lemma_records_error(seen: Seq<(Seq<char>, Seq<char>)>, cs: Seq<RecordView>)
    requires
        seen.no_duplicates(),
    ensures
        (records_error(seen, cs) is None) == ((forall|i: int| 0 <= i < cs.len() ==> record_ok(#[trigger] cs[i]))
            && (seen + all_pairs(cs)).no_duplicates()),
    decreases cs.len(),
{
    if cs.len() == 0 {
        assert(seen + all_pairs(cs) =~= seen);
    } else {
        let c = cs[0];
        let rest = cs.drop_first();
        let s2 = seen + record_pairs(c);
        assert(seen + all_pairs(cs) =~= s2 + all_pairs(rest));
        lemma_patterns_error(seen, c.domain, c.patterns);
        assert(record_pairs(c) == c.patterns.map_values(|e: PatternEntry| (c.domain, e.pattern)));
        let all_ok = forall|i: int| 0 <= i < cs.len() ==> record_ok(#[trigger] cs[i]);
        let rest_ok = forall|i: int| 0 <= i < rest.len() ==> record_ok(#[trigger] rest[i]);
        assert(all_ok == (record_ok(c) && rest_ok)) by {
            if record_ok(c) && rest_ok {
                assert forall|i: int| 0 <= i < cs.len() implies record_ok(#[trigger] cs[i]) by {
                    if i > 0 {
                        assert(cs[i] == rest[i - 1]);
                    }
                }
            }
            if all_ok {
                assert forall|i: int| 0 <= i < rest.len() implies record_ok(#[trigger] rest[i]) by {
                    assert(rest[i] == cs[i + 1]);
                }
            }
        }
        let whole = s2 + all_pairs(rest);
        if whole.no_duplicates() {
            assert forall|i: int, j: int| 0 <= i < s2.len() && 0 <= j < s2.len() && i != j implies s2[i]
                != s2[j] by {
                assert(whole[i] == s2[i] && whole[j] == s2[j]);
            }
        }
        if s2.no_duplicates() {
            lemma_records_error(s2, rest);
        }
    }
}

/// [`registry_valid`] is what [`registry_error`] finds no fault in.
pub proof fn lemma_registry_valid(r: RegistryView)
    ensures
        (registry_error(r) is None) == registry_valid(r),
{
    if r.version == REGISTRY_VERSION {
        lemma_records_error(Seq::empty(), r.companies);
        assert(Seq::<(Seq<char>, Seq<char>)>::empty() + all_pairs(r.companies) =~= all_pairs(r.companies));
    }
}

proof fn lemma_concat_distinct<T>(a: Seq<T>, b: Seq<T>)
    ensures
        (a + b).no_duplicates() == (a.no_duplicates() && b.no_duplicates() && forall|x: T|
            a.contains(x) ==> !b.contains(x)),
{
    let t = a + b;
    if t.no_duplicates() {
        assert forall|i: int, j: int| 0 <= i < a.len() && 0 <= j < a.len() && i != j implies a[i] != a[j] by {
            assert(t[i] == a[i] && t[j] == a[j]);
        }
        assert forall|i: int, j: int| 0 <= i < b.len() && 0 <= j < b.len() && i != j implies b[i] != b[j] by {
            assert(t[a.len() + i] == b[i] && t[a.len() + j] == b[j]);
        }
        assert forall|x: T| a.contains(x) implies !b.contains(x) by {
            if b.contains(x) {
                let i = choose|i: int| 0 <= i < a.len() && a[i] == x;
                let j = choose|j: int| 0 <= j < b.len() && b[j] == x;
                assert(t[i] == t[a.len() + j]);
            }
        }
    }
    if a.no_duplicates() && b.no_duplicates() && forall|x: T| a.contains(x) ==> !b.contains(x) {
        assert forall|i: int, j: int| 0 <= i < t.len() && 0 <= j < t.len() && i != j implies t[i] != t[j] by {
            if i < a.len() && j >= a.len() {
                assert(a.contains(t[i]));
                assert(b[j - a.len()] == t[j]);
            } else if j < a.len() && i >= a.len() {
                assert(a.contains(t[j]));
                assert(b[i - a.len()] == t[i]);
            } else if i < a.len() {
                assert(t[i] == a[i] && t[j] == a[j]);
            } else {
                assert(t[i] == b[i - a.len()] && t[j] == b[j - a.len()]);
            }
        }
    }
}

proof fn lemma_all_pairs_push(cs: Seq<RecordView>, c: RecordView)
    ensures
        all_pairs(cs.push(c)) == all_pairs(cs) + record_pairs(c),
    decreases cs.len(),
{
    if cs.len() == 0 {
        assert(cs.push(c).drop_first() =~= Seq::<RecordView>::empty());
        assert(all_pairs(cs.push(c).drop_first()) =~= Seq::<(Seq<char>, Seq<char>)>::empty());
        assert(cs.push(c)[0] == c);
        assert(all_pairs(cs.push(c)) =~= record_pairs(c));
    } else {
        assert(cs.push(c).drop_first() =~= cs.drop_first().push(c));
        lemma_all_pairs_push(cs.drop_first(), c);
        assert(all_pairs(cs.push(c)) =~= all_pairs(cs) + record_pairs(c));
    }
}

proof fn lemma_all_pairs_concat(a: Seq<RecordView>, b: Seq<RecordView>)
    ensures
        all_pairs(a + b) == all_pairs(a) + all_pairs(b),
    decreases a.len(),
{
    if a.len() == 0 {
        assert(a + b =~= b);
        assert(all_pairs(a) + all_pairs(b) =~= all_pairs(b));
    } else {
        assert((a + b).drop_first() =~= a.drop_first() + b);
        lemma_all_pairs_concat(a.drop_first(), b);
        assert(all_pairs(a + b) =~= all_pairs(a) + all_pairs(b));
    }
}

proof fn lemma_drop_domain_parts(cs: Seq<RecordView>, d: Seq<char>)
    requires
        all_pairs(cs).no_duplicates(),
    ensures
        all_pairs(drop_domain(cs, d)).no_duplicates(),
        forall|x: (Seq<char>, Seq<char>)| #[trigger] all_pairs(drop_domain(cs, d)).contains(x) ==> all_pairs(cs).contains(x),
        forall|c: RecordView| #[trigger] drop_domain(cs, d).contains(c) ==> cs.contains(c),
    decreases cs.len(),
{
    if cs.len() > 0 {
        let front = cs.drop_last();
        let last = cs.last();
        assert(cs =~= front.push(last));
        lemma_all_pairs_push(front, last);
        lemma_concat_distinct(all_pairs(front), record_pairs(last));
        lemma_drop_domain_parts(front, d);
        assert forall|c: RecordView| front.contains(c) implies cs.contains(c) by {
            let k = choose|k: int| 0 <= k < front.len() && front[k] == c;
            assert(cs[k] == c);
        }
        assert forall|x: (Seq<char>, Seq<char>)| all_pairs(front).contains(x) implies all_pairs(cs).contains(x) by {
            let k = choose|k: int| 0 <= k < all_pairs(front).len() && all_pairs(front)[k] == x;
            assert(all_pairs(cs)[k] == x);
        }
        if last.domain != d {
            let kept = drop_domain(front, d);
            assert(drop_domain(cs, d) == kept.push(last));
            lemma_all_pairs_push(kept, last);
            lemma_concat_distinct(all_pairs(kept), record_pairs(last));
            assert forall|x: (Seq<char>, Seq<char>)| all_pairs(drop_domain(cs, d)).contains(x) implies all_pairs(cs).contains(x) by {
                let k = choose|k: int| 0 <= k < all_pairs(drop_domain(cs, d)).len() && all_pairs(drop_domain(cs, d))[k] == x;
                if k < all_pairs(kept).len() {
                    assert(all_pairs(kept)[k] == x);
                    assert(all_pairs(kept).contains(x));
                    assert(all_pairs(front).contains(x));
                } else {
                    let j = k - all_pairs(kept).len();
                    assert(record_pairs(last)[j] == x);
                    assert(all_pairs(cs)[all_pairs(front).len() + j] == x);
                }
            }
            assert forall|c: RecordView| drop_domain(cs, d).contains(c) implies cs.contains(c) by {
                let k = choose|k: int| 0 <= k < drop_domain(cs, d).len() && drop_domain(cs, d)[k] == c;
                if k < kept.len() {
                    assert(kept[k] == c);
                    assert(kept.contains(c));
                    assert(front.contains(c));
                } else {
                    assert(cs[cs.len() - 1] == c);
                }
            }
        }
    }
}

/// Removing the records of a domain keeps a valid registry valid.
pub proof fn lemma_reset_keeps_valid(r: RegistryView, d: Seq<char>)
    requires
        registry_valid(r),
    ensures
        registry_valid(RegistryView { version: r.version, companies: drop_domain(r.companies, d) }),
{
    lemma_drop_domain_parts(r.companies, d);
    let cs = drop_domain(r.companies, d);
    assert forall|i: int| 0 <= i < cs.len() implies record_ok(#[trigger] cs[i]) by {
        assert(cs.contains(cs[i]));
        let k = choose|k: int| 0 <= k < r.companies.len() && r.companies[k] == cs[i];
        assert(record_ok(r.companies[k]));
    }
}

proof fn lemma_grow_distinct<T>(a: Seq<T>, r: Seq<T>, b: Seq<T>, q: T)
    requires
        (a + r + b).no_duplicates(),
        !(a + r + b).contains(q),
    ensures
        (a + r.push(q) + b).no_duplicates(),
{
    lemma_concat_distinct(a + r, b);
    lemma_concat_distinct(a, r);
    lemma_concat_contains(a + r, b, q);
    lemma_concat_contains(a, r, q);
    lemma_push_distinct(r, q);
    assert forall|x: T| a.contains(x) implies !r.push(q).contains(x) by {
        lemma_push_contains(r, q, x);
        lemma_concat_contains(a, r, x);
    }
    lemma_concat_distinct(a, r.push(q));
    assert forall|x: T| (a + r.push(q)).contains(x) implies !b.contains(x) by {
        lemma_concat_contains(a, r.push(q), x);
        lemma_push_contains(r, q, x);
        lemma_concat_contains(a, r, x);
    }
    lemma_concat_distinct(a + r.push(q), b);
}

proof fn lemma_pair_domain(cs: Seq<RecordView>, x: (Seq<char>, Seq<char>))
    requires
        all_pairs(cs).contains(x),
    ensures
        domains_of(cs).contains(x.0),
    decreases cs.len(),
{
    let rest = cs.drop_first();
    lemma_concat_contains(record_pairs(cs[0]), all_pairs(rest), x);
    if record_pairs(cs[0]).contains(x) {
        let k = choose|k: int| 0 <= k < record_pairs(cs[0]).len() && record_pairs(cs[0])[k] == x;
        assert(x.0 == cs[0].domain);
        assert(domains_of(cs)[0] == x.0);
    } else {
        lemma_pair_domain(rest, x);
        let k = choose|k: int| 0 <= k < domains_of(rest).len() && domains_of(rest)[k] == x.0;
        assert(domains_of(cs)[k + 1] == x.0);
    }
}

proof fn lemma_all_pairs_split(cs: Seq<RecordView>, i: int, c: RecordView)
    requires
        0 <= i < cs.len(),
    ensures
        all_pairs(cs.update(i, c)) == all_pairs(cs.take(i)) + record_pairs(c) + all_pairs(cs.skip(i + 1)),
        all_pairs(cs) == all_pairs(cs.take(i)) + record_pairs(cs[i]) + all_pairs(cs.skip(i + 1)),
{
    let e = Seq::<RecordView>::empty();
    lemma_all_pairs_push(e, c);
    lemma_all_pairs_push(e, cs[i]);
    assert(all_pairs(e) =~= Seq::<(Seq<char>, Seq<char>)>::empty());
    assert(e.push(c) =~= seq![c]);
    assert(e.push(cs[i]) =~= seq![cs[i]]);
    assert(cs.update(i, c) =~= cs.take(i) + seq![c] + cs.skip(i + 1));
    assert(cs =~= cs.take(i) + seq![cs[i]] + cs.skip(i + 1));
    lemma_all_pairs_concat(cs.take(i), seq![c]);
    lemma_all_pairs_concat(cs.take(i) + seq![c], cs.skip(i + 1));
    lemma_all_pairs_concat(cs.take(i), seq![cs[i]]);
    lemma_all_pairs_concat(cs.take(i) + seq![cs[i]], cs.skip(i + 1));
}

/// Recording checked evidence at a domain in normal form keeps a valid
/// registry valid, when no domain has two records.
pub proof fn lemma_upsert_keeps_valid(r: RegistryView, d: Seq<char>, p: Seq<char>, c: u8, s: u32)
    requires
        registry_valid(r),
        domain_ok(d),
        normalize(d) == d,
        entry_ok(PatternEntry { pattern: p, confidence: c, samples: s }),
        domains_of(r.companies).no_duplicates(),
    ensures
        registry_valid(RegistryView { version: r.version, companies: upsert_records(r.companies, d, p, c, s) }),
{
    let cs = r.companies;
    let entry = PatternEntry { pattern: p, confidence: c, samples: s };
    let n = upsert_records(cs, d, p, c, s);
    domains_of(cs).index_of_first_ensures(d);
    match domains_of(cs).index_of_first(d) {
        None => {
            let rec = RecordView { domain: d, patterns: seq![entry] };
            assert(n == cs.push(rec));
            lemma_all_pairs_push(cs, rec);
            assert(record_pairs(rec) =~= seq![(d, p)]);
            assert(seq![(d, p)] =~= Seq::<(Seq<char>, Seq<char>)>::empty().push((d, p)));
            if all_pairs(cs).contains((d, p)) {
                lemma_pair_domain(cs, (d, p));
            }
            lemma_push_distinct(all_pairs(cs), (d, p));
            assert(all_pairs(cs) + seq![(d, p)] =~= all_pairs(cs).push((d, p)));
            assert(record_ok(rec)) by {
                assert forall|k: int| 0 <= k < rec.patterns.len() implies entry_ok(#[trigger] rec.patterns[k]) by {
                    assert(rec.patterns[k] == entry);
                }
            }
            assert forall|k: int| 0 <= k < n.len() implies record_ok(#[trigger] n[k]) by {
                if k < cs.len() {
                    assert(n[k] == cs[k]);
                }
            }
        },
        Some(i) => {
            let old_rec = cs[i];
            assert(old_rec.domain == d);
            let ps = old_rec.patterns;
            let qs = upsert_patterns(ps, p, c, s);
            let rec = RecordView { domain: old_rec.domain, patterns: qs };
            assert(n == cs.update(i, rec));
            lemma_all_pairs_split(cs, i, rec);
            let a = all_pairs(cs.take(i));
            let b = all_pairs(cs.skip(i + 1));
            assert(record_ok(old_rec));
            pattern_texts(ps).index_of_first_ensures(p);
            match pattern_texts(ps).index_of_first(p) {
                Some(j) => {
                    assert(qs == ps.update(j, entry));
                    assert(record_pairs(rec) =~= record_pairs(old_rec)) by {
                        assert(pattern_texts(ps)[j] == p);
                    }
                    assert forall|k: int| 0 <= k < qs.len() implies entry_ok(#[trigger] qs[k]) by {
                        if k != j {
                            assert(qs[k] == ps[k]);
                        }
                    }
                },
                None => {
                    assert(qs == ps.push(entry));
                    assert(record_pairs(rec) =~= record_pairs(old_rec).push((d, p)));
                    assert forall|k: int| 0 <= k < qs.len() implies entry_ok(#[trigger] qs[k]) by {
                        if k < ps.len() {
                            assert(qs[k] == ps[k]);
                        }
                    }
                    let rp = record_pairs(old_rec);
                    assert(!rp.contains((d, p))) by {
                        if rp.contains((d, p)) {
                            let k = choose|k: int| 0 <= k < rp.len() && rp[k] == (d, p);
                            assert(pattern_texts(ps)[k] == p);
                        }
                    }
                    assert(!a.contains((d, p))) by {
                        if a.contains((d, p)) {
                            let head = cs.take(i);
                            lemma_pair_domain(head, (d, p));
                            let k = choose|k: int| 0 <= k < domains_of(head).len() && domains_of(head)[k] == d;
                            assert(domains_of(cs)[k] == d);
                            assert(domains_of(cs)[i] == d);
                        }
                    }
                    assert(!b.contains((d, p))) by {
                        if b.contains((d, p)) {
                            let tail = cs.skip(i + 1);
                            lemma_pair_domain(tail, (d, p));
                            let k = choose|k: int| 0 <= k < domains_of(tail).len() && domains_of(tail)[k] == d;
                            assert(domains_of(cs)[i + 1 + k] == d);
                            assert(domains_of(cs)[i] == d);
                        }
                    }
                    lemma_concat_contains(a + rp, b, (d, p));
                    lemma_concat_contains(a, rp, (d, p));
                    lemma_grow_distinct(a, rp, b, (d, p));
                },
            }
            assert(record_ok(rec));
            assert forall|k: int| 0 <= k < n.len() implies record_ok(#[trigger] n[k]) by {
                if k != i {
                    assert(n[k] == cs[k]);
                }
            }
        },
    }
}

/// An acceptable domain without capital letters is its own normal form.
pub proof fn lemma_normal_form(n: Seq<char>)
    requires
        domain_ok(n),
        no_ascii_upper(n),
    ensures
        normalize(n) == n,
{
    assert(!is_ws(n[0]));
    assert(!is_ws(n.last())) by {
        assert(n.last() == n[n.len() - 1]);
    }
    assert(trim_start(n) == n);
    assert(trim_end_ws(n) == n);
    assert(trim(n) == n);
    assert(trim_end_char(n, '.') == n);
    assert(is_ascii_text(n));
    assert(n.map_values(|c: char| ascii_lower(c)) =~= n) by {
        assert forall|i: int| 0 <= i < n.len() implies ascii_lower(#[trigger] n[i]) == n[i] by {
            lemma_ascii_lower(n[i]);
        }
    }
}

/// Recording evidence keeps the record domains distinct.
pub proof fn lemma_upsert_keeps_domains_distinct(cs: Seq<RecordView>, d: Seq<char>, p: Seq<char>, c: u8, s: u32)
    requires
        domains_of(cs).no_duplicates(),
    ensures
        domains_of(upsert_records(cs, d, p, c, s)).no_duplicates(),
{
    let n = upsert_records(cs, d, p, c, s);
    domains_of(cs).index_of_first_ensures(d);
    match domains_of(cs).index_of_first(d) {
        Some(i) => {
            assert(domains_of(n) =~= domains_of(cs));
        },
        None => {
            assert(domains_of(n) =~= domains_of(cs).push(d));
            lemma_push_distinct(domains_of(cs), d);
        },
    }
}

/// Recording evidence that passes the `companies add` checks under a domain
/// key in normal form (acceptable, without capital letters) keeps a valid
/// registry valid and its record domains distinct.
pub proof fn lemma_checked_upsert_keeps_valid(r: RegistryView, n: Seq<char>, p: Seq<char>, c: u8, s: u32)
    requires
        registry_valid(r),
        domains_of(r.companies).no_duplicates(),
        domain_ok(n),
        no_ascii_upper(n),
        entry_ok(PatternEntry { pattern: p, confidence: c, samples: s }),
    ensures
        registry_valid(RegistryView { version: r.version, companies: upsert_records(r.companies, n, p, c, s) }),
        domains_of(upsert_records(r.companies, n, p, c, s)).no_duplicates(),
{
    lemma_normal_form(n);
    lemma_upsert_keeps_valid(r, n, p, c, s);
    lemma_upsert_keeps_domains_distinct(r.companies, n, p, c, s);
}

} // verus!
