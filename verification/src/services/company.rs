//! Company-specific pattern evidence: the community registry merged
//! with the user's local registry, ranked, and attached to results.
use vstd::prelude::*;

use crate::models::company::{
    collect_patterns, domains_of, drop_domain, lemma_reset_forgets_domain, normalize,
    normalize_domain, pattern_texts, registry_error, CompanyPattern, CompanyRecord,
    CompanyRegistry, PatternEntry, RecordView, RegistryView,
};
use crate::models::record::{OutputRecord, OutputView};
use crate::services::template::{
    first_occurrences, lemma_first_occurrences_contains, push_first, render, rendered,
};
use crate::text::{
    chars_of, concat, find_char, find_from, lemma_seq_less_irreflexive, lemma_seq_less_total,
    lemma_seq_less_transitive, occurrences, seq_less, str_less, string_from, sub_chars,
};

verus! {

/// A company pattern with its evidence and where the evidence comes from.
#[derive(Debug)]
pub struct RankedPattern {
    pub pattern: String,
    pub confidence: u8,
    pub samples: u32,
    pub source: &'static str,
}

/// The value of a [`RankedPattern`].
pub struct RankedView {
    pub pattern: Seq<char>,
    pub confidence: u8,
    pub samples: u32,
    pub source: Seq<char>,
}

impl View for RankedPattern {
    type V = RankedView;

    open spec fn view(&self) -> RankedView {
        RankedView {
            pattern: self.pattern@,
            confidence: self.confidence,
            samples: self.samples,
            source: self.source@,
        }
    }
}

/// The values of a sequence of ranked patterns.
pub open spec fn ranked_views(v: Seq<RankedPattern>) -> Seq<RankedView> {
    v.map_values(|r: RankedPattern| r@)
}

// ---------------------------------------------------------------------------
// The community registry
// ---------------------------------------------------------------------------

/// The community registry built into the program, as JSON in the registry
/// format; it lists no company yet.
pub const COMMUNITY_REGISTRY: &'static str = "{\"version\": 1, \"companies\": []}";

/// The message for a community registry that fails its check.
pub open spec fn community_message(r: RegistryView) -> Seq<char> {
    "embedded company registry is invalid: "@ + registry_error(r)->0
}

/// Checks the parsed community registry before use: it is handed back
/// unchanged when valid, else the error names the first fault.
pub fn community_registry(parsed: CompanyRegistry) -> (r: Result<CompanyRegistry, String>)
    ensures
        r is Ok <==> registry_error(parsed@) is None,
        r matches Ok(reg) ==> reg@ == parsed@,
        r matches Err(e) ==> e@ == community_message(parsed@),
{
    match parsed.validate() {
        Ok(()) => Ok(parsed),
        Err(e) => Err(concat("embedded company registry is invalid: ", e.as_str())),
    }
}

// ---------------------------------------------------------------------------
// Ranking
// ---------------------------------------------------------------------------

/// The entries `ps` tagged with their source.
pub open spec fn tagged(ps: Seq<PatternEntry>, source: Seq<char>) -> Seq<RankedView> {
    ps.map_values(
        |e: PatternEntry|
            RankedView { pattern: e.pattern, confidence: e.confidence, samples: e.samples, source },
    )
}

/// All evidence under the domain key `k`: the community entries, then the
/// local ones.
pub open spec fn evidence_at(community: RegistryView, local: RegistryView, k: Seq<char>) -> Seq<RankedView> {
    tagged(collect_patterns(community.companies, k), "community"@) + tagged(
        collect_patterns(local.companies, k),
        "local"@,
    )
}

/// All evidence for domain `d`, under its normalized form.
pub open spec fn all_evidence(community: RegistryView, local: RegistryView, d: Seq<char>) -> Seq<RankedView> {
    evidence_at(community, local, normalize(d))
}

/// The last entry of `all` for pattern `p`: later evidence replaces earlier.
pub open spec fn last_with(all: Seq<RankedView>, p: Seq<char>) -> Option<RankedView>
    decreases all.len(),
{
    if all.len() == 0 {
        None
    } else if all.last().pattern == p {
        Some(all.last())
    } else {
        last_with(all.drop_last(), p)
    }
}

/// The ranking order: higher confidence first, then more samples, then the
/// pattern text in ascending order.
pub open spec fn ranks_before(a: RankedView, b: RankedView) -> bool {
    ||| a.confidence > b.confidence
    ||| a.confidence == b.confidence && a.samples > b.samples
    ||| a.confidence == b.confidence && a.samples == b.samples && seq_less(a.pattern, b.pattern)
}

/// Whether `r` is strictly increasing in ranking order.
pub open spec fn rank_sorted(r: Seq<RankedView>) -> bool {
    forall|i: int, j: int| 0 <= i < j < r.len() ==> ranks_before(#[trigger] r[i], #[trigger] r[j])
}

/// `r` is the merged evidence of `all`, one entry per pattern (the last one
/// given), in ranking order.
pub open spec fn merged_ranking(r: Seq<RankedView>, all: Seq<RankedView>) -> bool {
    &&& rank_sorted(r)
    &&& forall|x: RankedView| r.contains(x) <==> last_with(all, x.pattern) == Some(x)
}

proof fn lemma_ranks_transitive(a: RankedView, b: RankedView, c: RankedView)
    requires
        ranks_before(a, b),
        ranks_before(b, c),
    ensures
        ranks_before(a, c),
{
    if a.confidence == b.confidence && b.confidence == c.confidence && a.samples == b.samples
        && b.samples == c.samples {
        lemma_seq_less_transitive(a.pattern, b.pattern, c.pattern);
    }
}

proof fn lemma_ranks_irreflexive(a: RankedView)
    ensures
        !ranks_before(a, a),
{
    lemma_seq_less_irreflexive(a.pattern);
}

proof fn lemma_ranks_total(a: RankedView, b: RankedView)
    requires
        a.pattern != b.pattern,
    ensures
        ranks_before(a, b) || ranks_before(b, a),
{
    lemma_seq_less_total(a.pattern, b.pattern);
}

proof fn lemma_last_with(all: Seq<RankedView>, p: Seq<char>)
    ensures
        last_with(all, p) matches Some(x) ==> x.pattern == p && all.contains(x),
    decreases all.len(),
{
    if all.len() > 0 && all.last().pattern != p {
        lemma_last_with(all.drop_last(), p);
        if last_with(all.drop_last(), p) is Some {
            let x = last_with(all.drop_last(), p)->0;
            let k = choose|k: int| 0 <= k < all.drop_last().len() && all.drop_last()[k] == x;
            assert(all[k] == x);
        }
    } else if all.len() > 0 {
        assert(all[all.len() - 1] == all.last());
    }
}

/// Whether `a` ranks before `b`.
fn rank_less(a: &RankedPattern, b: &RankedPattern) -> (r: bool)
    ensures
        r == ranks_before(a@, b@),
{
    if a.confidence != b.confidence {
        a.confidence > b.confidence
    } else if a.samples != b.samples {
        a.samples > b.samples
    } else {
        str_less(a.pattern.as_str(), b.pattern.as_str())
    }
}

/// Inserts `c` into the ranking `v`, which holds no entry for `c`'s pattern.
fn insert_ranked(v: &mut Vec<RankedPattern>, c: RankedPattern)
    requires
        rank_sorted(ranked_views(old(v)@)),
        forall|i: int| 0 <= i < old(v)@.len() ==> (#[trigger] old(v)@[i]).pattern@ != c.pattern@,
    ensures
        rank_sorted(ranked_views(final(v)@)),
        forall|x: RankedView|
            ranked_views(final(v)@).contains(x) <==> (ranked_views(old(v)@).contains(x) || x == c@),
{
    let ghost s = ranked_views(v@);
    let mut k: usize = 0;
    let mut stop = false;
    while k < v.len() && !stop
        invariant
            k <= v.len(),
            s == ranked_views(v@),
            stop ==> k < v.len() && !ranks_before(s[k as int], c@),
            forall|m: int| 0 <= m < k ==> ranks_before(#[trigger] s[m], c@),
        decreases v.len() - k + (if stop { 0int } else { 1int }),
    {
        if !rank_less(&v[k], &c) {
            stop = true;
        } else {
            k = k + 1;
        }
    }
    proof {
        if k < s.len() {
            assert(s[k as int].pattern != c@.pattern);
            lemma_ranks_total(s[k as int], c@);
        }
    }
    v.insert(k, c);
    assert(ranked_views(v@) =~= s.insert(k as int, c@));
    assert forall|i: int, j: int| 0 <= i < j < ranked_views(v@).len() implies ranks_before(
        #[trigger] ranked_views(v@)[i],
        #[trigger] ranked_views(v@)[j],
    ) by {
        if j < k {
        } else if i < k && j == k {
        } else if i < k && j > k {
            if j - 1 > k {
                assert(ranks_before(s[k as int], s[j - 1]));
                lemma_ranks_transitive(c@, s[k as int], s[j - 1]);
            }
            lemma_ranks_transitive(s[i], c@, s[j - 1]);
        } else if i == k {
            if j - 1 > k {
                lemma_ranks_transitive(c@, s[k as int], s[j - 1]);
            }
        } else {
            assert(ranks_before(s[i - 1], s[j - 1]));
        }
    }
    assert forall|x: RankedView| ranked_views(v@).contains(x) <==> (s.contains(x) || x == c@) by {
        let t = ranked_views(v@);
        if t.contains(x) {
            let m = choose|m: int| 0 <= m < t.len() && t[m] == x;
            if m < k {
                assert(s[m] == x);
            } else if m > k {
                assert(s[m - 1] == x);
            }
        }
        if s.contains(x) {
            let m = choose|m: int| 0 <= m < s.len() && s[m] == x;
            if m < k {
                assert(t[m] == x);
            } else {
                assert(t[m + 1] == x);
            }
        }
        if x == c@ {
            assert(t[k as int] == x);
        }
    }
    assert(forall|x: RankedView|
        ranked_views(v@).contains(x) <==> (ranked_views(old(v)@).contains(x) || x == c@));
}

/// The position of the entry of `v` with pattern `p`, if any.
fn position_of_pattern(v: &Vec<RankedPattern>, p: &String) -> (r: Option<usize>)
    ensures
        match r {
            Some(m) => m < v@.len() && v@[m as int].pattern@ == p@,
            None => forall|i: int| 0 <= i < v@.len() ==> (#[trigger] v@[i]).pattern@ != p@,
        },
{
    let mut i: usize = 0;
    while i < v.len()
        invariant
            i <= v.len(),
            forall|k: int| 0 <= k < i ==> (#[trigger] v@[k]).pattern@ != p@,
        decreases v.len() - i,
    {
        if v[i].pattern == *p {
            return Some(i);
        }
        i = i + 1;
    }
    None
}

/// In a merged ranking, two entries with the same pattern are the same entry.
proof fn lemma_merged_unique(s: Seq<RankedView>, all: Seq<RankedView>, i: int, j: int)
    requires
        merged_ranking(s, all),
        0 <= i < s.len(),
        0 <= j < s.len(),
        s[i].pattern == s[j].pattern,
    ensures
        i == j,
{
    assert(s.contains(s[i]));
    assert(s.contains(s[j]));
    assert(s[i] == s[j]);
    if i < j {
        lemma_ranks_irreflexive(s[i]);
    } else if j < i {
        lemma_ranks_irreflexive(s[i]);
    }
}

/// Adds the evidence `c` to the merged ranking `v` of `all`, replacing the
/// entry for the same pattern.
fn merge_one(v: &mut Vec<RankedPattern>, c: RankedPattern, Ghost(all): Ghost<Seq<RankedView>>)
    requires
        merged_ranking(ranked_views(old(v)@), all),
    ensures
        merged_ranking(ranked_views(final(v)@), all.push(c@)),
{
    let ghost s = ranked_views(v@);
    let ghost all2 = all.push(c@);
    let ghost cp = c@.pattern;
    assert(all2.drop_last() =~= all);
    assert(forall|p: Seq<char>| #[trigger] last_with(all2, p) == if p == cp { Some(c@) } else { last_with(all, p) });
    let found = position_of_pattern(v, &c.pattern);
    match found {
        Some(m) => {
            v.remove(m);
            assert(ranked_views(v@) =~= s.remove(m as int));
        },
        None => {
            assert(ranked_views(v@) =~= s);
        },
    }
    let ghost s1 = ranked_views(v@);
    // s1 is s without the entry for c's pattern
    assert forall|x: RankedView| s1.contains(x) <==> (s.contains(x) && x.pattern != cp) by {
        if s1.contains(x) {
            let i = choose|i: int| 0 <= i < s1.len() && s1[i] == x;
            match found {
                Some(m) => {
                    let i2 = if i < m { i } else { i + 1 };
                    assert(s[i2] == x);
                    if x.pattern == cp {
                        lemma_merged_unique(s, all, i2, m as int);
                    }
                },
                None => {
                    assert(s[i] == x);
                },
            }
        }
        if s.contains(x) && x.pattern != cp {
            let i = choose|i: int| 0 <= i < s.len() && s[i] == x;
            match found {
                Some(m) => {
                    assert(i != m);
                    if i < m {
                        assert(s1[i] == x);
                    } else {
                        assert(s1[i - 1] == x);
                    }
                },
                None => {
                    assert(s1[i] == x);
                },
            }
        }
    }
    assert(rank_sorted(s1)) by {
        match found {
            Some(m) => {
                assert forall|i: int, j: int| 0 <= i < j < s1.len() implies ranks_before(
                    #[trigger] s1[i],
                    #[trigger] s1[j],
                ) by {
                    let i2 = if i < m { i } else { i + 1 };
                    let j2 = if j < m { j } else { j + 1 };
                    assert(s1[i] == s[i2]);
                    assert(s1[j] == s[j2]);
                }
            },
            None => {},
        }
    }
    assert forall|i: int| 0 <= i < v@.len() implies (#[trigger] v@[i]).pattern@ != c.pattern@ by {
        assert(s1[i] == v@[i]@);
        assert(s1.contains(s1[i]));
    }
    insert_ranked(v, c);
    let ghost s2 = ranked_views(v@);
    assert forall|x: RankedView| s2.contains(x) <==> last_with(all2, x.pattern) == Some(x) by {
        assert(last_with(all2, x.pattern) == if x.pattern == cp { Some(c@) } else { last_with(all, x.pattern) });
    }
}

/// The ranked form of a company pattern.
fn ranked(candidate: CompanyPattern, source: &'static str) -> (r: RankedPattern)
    ensures
        r@ == (RankedView {
            pattern: candidate@.pattern,
            confidence: candidate@.confidence,
            samples: candidate@.samples,
            source: source@,
        }),
{
    RankedPattern {
        pattern: candidate.pattern,
        confidence: candidate.confidence,
        samples: candidate.samples,
        source,
    }
}

/// Merges the entries `ps`, all from `source`, into the ranking `v`.
fn merge_all(
    v: &mut Vec<RankedPattern>,
    ps: &Vec<CompanyPattern>,
    source: &'static str,
    Ghost(before): Ghost<Seq<RankedView>>,
)
    requires
        merged_ranking(ranked_views(old(v)@), before),
    ensures
        merged_ranking(
            ranked_views(final(v)@),
            before + tagged(ps@.map_values(|e: CompanyPattern| e@), source@),
        ),
{
    let ghost t = tagged(ps@.map_values(|e: CompanyPattern| e@), source@);
    let mut i: usize = 0;
    assert(before + t.take(0) =~= before);
    while i < ps.len()
        invariant
            i <= ps.len(),
            t == tagged(ps@.map_values(|e: CompanyPattern| e@), source@),
            merged_ranking(ranked_views(v@), before + t.take(i as int)),
        decreases ps.len() - i,
    {
        let item = ranked(ps[i].duplicate(), source);
        assert(item@ == t[i as int]);
        merge_one(v, item, Ghost(before + t.take(i as int)));
        assert((before + t.take(i as int)).push(item@) =~= before + t.take(i + 1));
        i = i + 1;
    }
    assert(t.take(i as int) =~= t);
}

/// The company patterns known for `domain`, community evidence merged with
/// local evidence (local evidence replaces community evidence for the same
/// pattern, later entries replace earlier ones), ordered by confidence, then
/// samples (both descending), then pattern text.
pub fn ranked_patterns(domain: &str, community: &CompanyRegistry, local: &CompanyRegistry) -> (r: Result<Vec<RankedPattern>, String>)
    ensures
        r is Ok,
        r matches Ok(v) ==> merged_ranking(ranked_views(v@), all_evidence(community@, local@, domain@)),
{
    let key = normalize_domain(domain);
    ranked_at(&key, community, local)
}

/// The company patterns known under the domain key `key`, merged and
/// ordered as [`ranked_patterns`] describes.
pub fn ranked_at(key: &String, community: &CompanyRegistry, local: &CompanyRegistry) -> (r: Result<Vec<RankedPattern>, String>)
    ensures
        r is Ok,
        r matches Ok(v) ==> merged_ranking(ranked_views(v@), evidence_at(community@, local@, key@)),
{
    let mut merged: Vec<RankedPattern> = Vec::new();
    assert(ranked_views(merged@) =~= Seq::<RankedView>::empty());
    let cps = community.patterns_at(key);
    merge_all(&mut merged, &cps, "community", Ghost(Seq::empty()));
    let ghost after_c = Seq::<RankedView>::empty() + tagged(cps@.map_values(|e: CompanyPattern| e@), "community"@);
    let lps = local.patterns_at(key);
    merge_all(&mut merged, &lps, "local", Ghost(after_c));
    assert(after_c + tagged(lps@.map_values(|e: CompanyPattern| e@), "local"@) =~= evidence_at(community@, local@, key@));
    Ok(merged)
}

// ---------------------------------------------------------------------------
// Pattern order for probing
// ---------------------------------------------------------------------------

/// The patterns of a ranking, in order.
pub open spec fn ranked_texts(v: Seq<RankedView>) -> Seq<Seq<char>> {
    v.map_values(|r: RankedView| r.pattern)
}

/// The patterns to try for a domain: the company patterns in ranking order,
/// then the fallback patterns, each pattern once, at its first position.
pub fn merge_with_fallbacks(ranked: &[RankedPattern], fallbacks: &[String]) -> (r: Vec<String>)
    ensures
        r.deep_view() == first_occurrences(
            ranked_texts(ranked@.map_values(|x: RankedPattern| x@)) + fallbacks@.map_values(
                |f: String| f@,
            ),
        ),
{
    let ghost all = ranked_texts(ranked@.map_values(|x: RankedPattern| x@)) + fallbacks@.map_values(
        |f: String| f@,
    );
    let mut out: Vec<String> = Vec::new();
    assert(out.deep_view() =~= first_occurrences(all.take(0)));
    let n = ranked.len();
    let mut i: usize = 0;
    while i < n
        invariant
            n == ranked.len(),
            i <= n,
            all.len() == n + fallbacks.len(),
            all == ranked_texts(ranked@.map_values(|x: RankedPattern| x@)) + fallbacks@.map_values(
                |f: String| f@,
            ),
            out.deep_view() == first_occurrences(all.take(i as int)),
        decreases n - i,
    {
        let item = ranked[i].pattern.clone();
        push_first(&mut out, item, Ghost(all), Ghost(i as int));
        i = i + 1;
    }
    let mut j: usize = 0;
    while j < fallbacks.len()
        invariant
            n == ranked.len(),
            j <= fallbacks.len(),
            all.len() == n + fallbacks.len(),
            all == ranked_texts(ranked@.map_values(|x: RankedPattern| x@)) + fallbacks@.map_values(
                |f: String| f@,
            ),
            out.deep_view() == first_occurrences(all.take(n + j)),
        decreases fallbacks.len() - j,
    {
        let item = fallbacks[j].clone();
        push_first(&mut out, item, Ghost(all), Ghost(n + j));
        j = j + 1;
    }
    assert(all.take(n + j) =~= all);
    out
}

// ---------------------------------------------------------------------------
// Evidence for results
// ---------------------------------------------------------------------------

/// The local part of an address: the text before its first `@`, or all of it.
pub open spec fn local_part(email: Seq<char>) -> Seq<char> {
    match find_char(email, '@') {
        Some(k) => email.take(k),
        None => email,
    }
}

/// The first entry of `ranked` whose rendering, given at the same place in
/// `renders`, is `local`.
pub open spec fn matching_entry(ranked: Seq<RankedView>, renders: Seq<Seq<char>>, local: Seq<char>) -> Option<RankedView>
    decreases ranked.len(),
{
    if ranked.len() == 0 || renders.len() == 0 {
        None
    } else if renders[0] == local {
        Some(ranked[0])
    } else {
        matching_entry(ranked.drop_first(), renders.drop_first(), local)
    }
}

/// What each ranked pattern renders to for the name.
pub open spec fn renders_of(ranked: Seq<RankedView>, first: Seq<char>, last: Seq<char>) -> Seq<Seq<char>> {
    ranked.map_values(|r: RankedView| rendered(r.pattern, first, last))
}

/// The first entry of `ranked` whose pattern renders to `local` for the name.
pub open spec fn evidence_match(ranked: Seq<RankedView>, first: Seq<char>, last: Seq<char>, local: Seq<char>) -> Option<RankedView> {
    matching_entry(ranked, renders_of(ranked, first, last), local)
}

/// A result with the evidence `m` attached.
pub open spec fn annotated(o: OutputView, m: Option<RankedView>) -> OutputView {
    match m {
        Some(c) => OutputView {
            domain: o.domain,
            first_name: o.first_name,
            last_name: o.last_name,
            email: o.email,
            confidence: Some(c.confidence),
            pattern_source: c.source,
            status: o.status,
            passed: o.passed,
            reason: o.reason,
        },
        None => o,
    }
}

/// The local part of `email`.
fn local_part_of(email: &String) -> (r: String)
    ensures
        r@ == local_part(email@),
{
    let v = chars_of(email.as_str());
    assert(v@.skip(0) =~= v@);
    proof {
        crate::text::lemma_find_char(v@, '@');
    }
    match find_from(&v, 0, '@') {
        Some(k) => {
            let t = sub_chars(&v, 0, k);
            assert(t@ =~= v@.take(k as int));
            string_from(&t)
        },
        None => email.clone(),
    }
}

/// Attaches company-pattern evidence to results: a result whose local part
/// is what some ranked pattern renders for the name gets the confidence and
/// source of the first such pattern; other results are unchanged.
pub fn annotate_results(results: &mut [OutputRecord], ranked: &[RankedPattern], first: &str, last: &str)
    ensures
        final(results)@.len() == old(results)@.len(),
        forall|i: int|
            0 <= i < old(results)@.len() ==> (#[trigger] final(results)@[i])@ == annotated(
                old(results)@[i]@,
                evidence_match(
                    ranked@.map_values(|x: RankedPattern| x@),
                    first@,
                    last@,
                    local_part(old(results)@[i].email@),
                ),
            ),
{
    let ghost rv = ranked@.map_values(|x: RankedPattern| x@);
    let mut renders: Vec<String> = Vec::new();
    let mut k: usize = 0;
    while k < ranked.len()
        invariant
            k <= ranked.len(),
            rv == ranked@.map_values(|x: RankedPattern| x@),
            renders@.len() == k,
            forall|m: int| 0 <= m < k ==> (#[trigger] renders@[m])@ == rendered(rv[m].pattern, first@, last@),
        decreases ranked.len() - k,
    {
        let r = render(ranked[k].pattern.as_str(), first, last);
        renders.push(r);
        k = k + 1;
    }
    assert(renders@.map_values(|s: String| s@) =~= renders_of(rv, first@, last@));
    attach_evidence(results, ranked, renders.as_slice());
}

/// Attaches evidence given what each ranked pattern renders to: a result
/// whose local part equals the rendering at some place gets the confidence
/// and source of the ranked pattern at the first such place; other results
/// are unchanged.
pub fn attach_evidence(results: &mut [OutputRecord], ranked: &[RankedPattern], renders: &[String])
    requires
        renders@.len() == ranked@.len(),
    ensures
        final(results)@.len() == old(results)@.len(),
        forall|i: int|
            0 <= i < old(results)@.len() ==> (#[trigger] final(results)@[i])@ == annotated(
                old(results)@[i]@,
                matching_entry(
                    ranked@.map_values(|x: RankedPattern| x@),
                    renders@.map_values(|s: String| s@),
                    local_part(old(results)@[i].email@),
                ),
            ),
{
    let ghost rv = ranked@.map_values(|x: RankedPattern| x@);
    let ghost rs = renders@.map_values(|s: String| s@);
    let ghost old_results = results@;
    let mut i: usize = 0;
    while i < results.len()
        invariant
            i <= results.len(),
            results@.len() == old_results.len(),
            rv == ranked@.map_values(|x: RankedPattern| x@),
            rs == renders@.map_values(|s: String| s@),
            renders@.len() == ranked@.len(),
            forall|m: int| i <= m < results@.len() ==> #[trigger] results@[m] == old_results[m],
            forall|m: int|
                0 <= m < i ==> (#[trigger] results@[m])@ == annotated(
                    old_results[m]@,
                    matching_entry(rv, rs, local_part(old_results[m].email@)),
                ),
        decreases results.len() - i,
    {
        let local = local_part_of(&results[i].email);
        let mut j: usize = 0;
        let mut hit: Option<usize> = None;
        assert(rv.skip(0) =~= rv);
        assert(rs.skip(0) =~= rs);
        while j < renders.len() && hit.is_none()
            invariant
                j <= renders.len(),
                renders@.len() == rv.len(),
                rs == renders@.map_values(|s: String| s@),
                hit matches Some(h) ==> h < rv.len() && matching_entry(rv, rs, local@) == Some(rv[h as int]),
                hit is None ==> matching_entry(rv, rs, local@) == matching_entry(rv.skip(j as int), rs.skip(j as int), local@),
            decreases renders.len() - j + (if hit is None { 1int } else { 0int }),
        {
            assert(rv.skip(j as int)[0] == rv[j as int]);
            assert(rs.skip(j as int)[0] == rs[j as int]);
            assert(rv.skip(j as int).drop_first() =~= rv.skip(j + 1));
            assert(rs.skip(j as int).drop_first() =~= rs.skip(j + 1));
            if renders[j] == local {
                hit = Some(j);
            } else {
                j = j + 1;
            }
        }
        match hit {
            Some(h) => {
                results[i].confidence = Some(ranked[h].confidence);
                results[i].pattern_source = crate::text::owned(ranked[h].source);
            },
            None => {
                assert(rv.skip(j as int) =~= Seq::<RankedView>::empty());
            },
        }
        i = i + 1;
    }
}

// ---------------------------------------------------------------------------
// Known domains
// ---------------------------------------------------------------------------


/// The source label of a known domain, given the community domains and the
/// local record domains in registry order: a community domain is
/// "community+local" once a local record has it; a local domain is
/// "community+local" when a second local record has it.
pub open spec fn domain_source(community: Seq<Seq<char>>, local: Seq<Seq<char>>, d: Seq<char>) -> Seq<char> {
    if community.contains(d) {
        if local.contains(d) {
            "community+local"@
        } else {
            "community"@
        }
    } else if occurrences(local, d) >= 2 {
        "community+local"@
    } else {
        "local"@
    }
}

/// The keys of a domain listing.
pub open spec fn listing_keys(v: Seq<(String, &'static str)>) -> Seq<Seq<char>> {
    v.map_values(|e: (String, &'static str)| e.0@)
}

/// `v` lists, in ascending order, the domains of `community` and `local`,
/// each with its [`domain_source`].
pub open spec fn domain_listing(v: Seq<(String, &'static str)>, community: Seq<Seq<char>>, local: Seq<Seq<char>>) -> bool {
    &&& crate::services::template::strictly_sorted(listing_keys(v))
    &&& forall|d: Seq<char>| listing_keys(v).contains(d) <==> (community.contains(d) || local.contains(d))
    &&& forall|i: int| 0 <= i < v.len() ==> (#[trigger] v[i]).1@ == domain_source(community, local, v[i].0@)
}

/// The normalized domains of the records `cs`, in order.
pub open spec fn normalized_domains(cs: Seq<RecordView>) -> Seq<Seq<char>> {
    domains_of(cs).map_values(|d: Seq<char>| normalize(d))
}

/// Puts `key` into the sorted listing `v`: a new key gets the label `fresh`,
/// a key already listed gets the label `again`; other entries are kept.
fn put_domain(v: &mut Vec<(String, &'static str)>, key: String, fresh: &'static str, again: &'static str)
    requires
        crate::services::template::strictly_sorted(listing_keys(old(v)@)),
    ensures
        crate::services::template::strictly_sorted(listing_keys(final(v)@)),
        forall|d: Seq<char>|
            listing_keys(final(v)@).contains(d) <==> (listing_keys(old(v)@).contains(d) || d == key@),
        forall|i: int|
            0 <= i < final(v)@.len() && (#[trigger] final(v)@[i]).0@ == key@ ==> final(v)@[i].1@ == if listing_keys(
                old(v)@,
            ).contains(key@) {
                again@
            } else {
                fresh@
            },
        forall|i: int|
            0 <= i < final(v)@.len() && (#[trigger] final(v)@[i]).0@ != key@ ==> exists|j: int|
                0 <= j < old(v)@.len() && (#[trigger] old(v)@[j]).0@ == final(v)@[i].0@ && old(
                    v,
                )@[j].1@ == final(v)@[i].1@,
{
    let ghost s = listing_keys(v@);
    let ghost ov = v@;
    let kv = chars_of(key.as_str());
    let mut k: usize = 0;
    let mut stop = false;
    while k < v.len() && !stop
        invariant
            k <= v.len(),
            s == listing_keys(v@),
            ov == v@,
            kv@ == key@,
            stop ==> k < v.len() && !seq_less(s[k as int], key@),
            forall|m: int| 0 <= m < k ==> seq_less(#[trigger] s[m], key@),
        decreases v.len() - k + (if stop { 0int } else { 1int }),
    {
        let yv = chars_of(v[k].0.as_str());
        if !crate::text::chars_less(&yv, &kv) {
            stop = true;
        } else {
            k = k + 1;
        }
    }
    if k < v.len() && v[k].0 == key {
        assert(s[k as int] == key@);
        v[k].1 = again;
        assert(listing_keys(v@) =~= s);
        proof {
            assert forall|i: int| 0 <= i < v@.len() && (#[trigger] v@[i]).0@ == key@ implies v@[i].1@ == again@ by {
                if i != k {
                    crate::services::template::lemma_sorted_unique(s, i, k as int);
                }
            }
            assert forall|i: int| 0 <= i < v@.len() && (#[trigger] v@[i]).0@ != key@ implies exists|j: int|
                0 <= j < ov.len() && (#[trigger] ov[j]).0@ == v@[i].0@ && ov[j].1@ == v@[i].1@ by {
                assert(ov[i] == v@[i]);
            }
        }
        return;
    }
    proof {
        if k < s.len() {
            lemma_seq_less_total(s[k as int], key@);
        }
        if s.contains(key@) {
            let m = choose|m: int| 0 <= m < s.len() && s[m] == key@;
            if m < k {
                lemma_seq_less_irreflexive(key@);
            } else if m > k {
                lemma_seq_less_transitive(key@, s[k as int], s[m]);
                lemma_seq_less_irreflexive(key@);
            }
        }
    }
    v.insert(k, (key, fresh));
    assert(listing_keys(v@) =~= s.insert(k as int, key@));
    assert forall|i: int, j: int| 0 <= i < j < listing_keys(v@).len() implies seq_less(
        #[trigger] listing_keys(v@)[i],
        #[trigger] listing_keys(v@)[j],
    ) by {
        if j < k {
        } else if i < k && j == k {
        } else if i < k && j > k {
            if j - 1 > k {
                assert(seq_less(s[k as int], s[j - 1]));
                lemma_seq_less_transitive(key@, s[k as int], s[j - 1]);
            }
            lemma_seq_less_transitive(s[i], key@, s[j - 1]);
        } else if i == k {
            if j - 1 > k {
                lemma_seq_less_transitive(key@, s[k as int], s[j - 1]);
            }
        } else {
            assert(seq_less(s[i - 1], s[j - 1]));
        }
    }
    assert forall|d: Seq<char>| listing_keys(v@).contains(d) <==> (s.contains(d) || d == key@) by {
        let t = listing_keys(v@);
        if t.contains(d) {
            let m = choose|m: int| 0 <= m < t.len() && t[m] == d;
            if m < k {
                assert(s[m] == d);
            } else if m > k {
                assert(s[m - 1] == d);
            }
        }
        if s.contains(d) {
            let m = choose|m: int| 0 <= m < s.len() && s[m] == d;
            if m < k {
                assert(t[m] == d);
            } else {
                assert(t[m + 1] == d);
            }
        }
        if d == key@ {
            assert(t[k as int] == d);
        }
    }
    assert forall|i: int| 0 <= i < v@.len() && (#[trigger] v@[i]).0@ == key@ implies v@[i].1@ == fresh@ by {
        if i < k {
            assert(s[i] == key@);
            lemma_seq_less_irreflexive(key@);
        } else if i > k {
            assert(s[i - 1] == key@);
        }
    }
    assert forall|i: int| 0 <= i < v@.len() && (#[trigger] v@[i]).0@ != key@ implies exists|j: int|
        0 <= j < ov.len() && (#[trigger] ov[j]).0@ == v@[i].0@ && ov[j].1@ == v@[i].1@ by {
        if i < k {
            assert(ov[i] == v@[i]);
        } else if i > k {
            assert(ov[i - 1] == v@[i]);
        }
    }
}

/// Every domain with company-specific patterns, in ascending order, with its
/// source: "community", "local", or "community+local".
pub fn all_domains(community: &CompanyRegistry, local: &CompanyRegistry) -> (r: Result<Vec<(String, &'static str)>, String>)
    ensures
        r is Ok,
        r matches Ok(v) ==> domain_listing(
            v@,
            normalized_domains(community@.companies),
            normalized_domains(local@.companies),
        ),
{
    let ck = normalized_keys(&community.companies);
    let lk = normalized_keys(&local.companies);
    Ok(list_domains(&ck, &lk))
}

/// The normalized domains of `cs`, in order.
fn normalized_keys(cs: &Vec<CompanyRecord>) -> (r: Vec<String>)
    ensures
        r.deep_view() == normalized_domains(cs@.map_values(|c: CompanyRecord| c@)),
{
    let ghost all = normalized_domains(cs@.map_values(|c: CompanyRecord| c@));
    let mut r: Vec<String> = Vec::new();
    let mut i: usize = 0;
    while i < cs.len()
        invariant
            i <= cs.len(),
            all == normalized_domains(cs@.map_values(|c: CompanyRecord| c@)),
            r.deep_view() == all.take(i as int),
        decreases cs.len() - i,
    {
        let d = normalize_domain(cs[i].domain.as_str());
        let ghost prev = r.deep_view();
        r.push(d);
        assert(r.deep_view() =~= prev.push(d@));
        assert(all.take(i + 1) =~= all.take(i as int).push(all[i as int]));
        i = i + 1;
    }
    assert(all.take(i as int) =~= all);
    r
}

/// Lists the given community and local domain keys as [`domain_listing`]
/// describes: ascending, each once, with its source label.
pub fn list_domains(community: &Vec<String>, local: &Vec<String>) -> (r: Vec<(String, &'static str)>)
    ensures
        domain_listing(r@, community.deep_view(), local.deep_view()),
{
    let ghost cd = community.deep_view();
    let ghost ld = local.deep_view();
    let mut v: Vec<(String, &'static str)> = Vec::new();
    assert(listing_keys(v@) =~= Seq::<Seq<char>>::empty());
    let mut i: usize = 0;
    while i < community.len()
        invariant
            i <= community.len(),
            cd == community.deep_view(),
            domain_listing(v@, cd.take(i as int), Seq::empty()),
        decreases community.len() - i,
    {
        let d = community[i].clone();
        assert(d@ == cd[i as int]);
        let ghost before = v@;
        put_domain(&mut v, d, "community", "community");
        let ghost c2 = cd.take(i + 1);
        assert(c2 =~= cd.take(i as int).push(cd[i as int]));
        assert forall|x: Seq<char>| listing_keys(v@).contains(x) <==> (c2.contains(x) || Seq::<Seq<char>>::empty().contains(x)) by {
            if c2.contains(x) && x != cd[i as int] {
                let m = choose|m: int| 0 <= m < c2.len() && c2[m] == x;
                assert(cd.take(i as int)[m] == x);
            }
            if cd.take(i as int).contains(x) {
                let m = choose|m: int| 0 <= m < i && cd.take(i as int)[m] == x;
                assert(c2[m] == x);
            }
            if x == cd[i as int] {
                assert(c2[i as int] == x);
            }
        }
        assert forall|k: int| 0 <= k < v@.len() implies (#[trigger] v@[k]).1@ == domain_source(c2, Seq::empty(), v@[k].0@) by {
            assert(listing_keys(v@)[k] == v@[k].0@);
            assert(c2.contains(v@[k].0@));
            if v@[k].0@ != cd[i as int] {
                let j = choose|j: int| 0 <= j < before.len() && (#[trigger] before[j]).0@ == v@[k].0@ && before[j].1@ == v@[k].1@;
                assert(before[j].1@ == domain_source(cd.take(i as int), Seq::empty(), before[j].0@));
            }
        }
        i = i + 1;
    }
    assert(cd.take(i as int) =~= cd);
    let mut j: usize = 0;
    assert(ld.take(0) =~= Seq::<Seq<char>>::empty());
    while j < local.len()
        invariant
            j <= local.len(),
            ld == local.deep_view(),
            domain_listing(v@, cd, ld.take(j as int)),
        decreases local.len() - j,
    {
        let d = local[j].clone();
        assert(d@ == ld[j as int]);
        let ghost before = v@;
        let ghost l1 = ld.take(j as int);
        let ghost l2 = ld.take(j + 1);
        assert(l2 =~= l1.push(d@));
        assert(l2.drop_last() =~= l1);
        put_domain(&mut v, d, "local", "community+local");
        assert forall|x: Seq<char>| listing_keys(v@).contains(x) <==> (cd.contains(x) || l2.contains(x)) by {
            if l2.contains(x) && x != d@ {
                let m = choose|m: int| 0 <= m < l2.len() && l2[m] == x;
                assert(l1[m] == x);
            }
            if l1.contains(x) {
                let m = choose|m: int| 0 <= m < l1.len() && l1[m] == x;
                assert(l2[m] == x);
            }
            if x == d@ {
                assert(l2[j as int] == x);
            }
        }
        assert forall|k: int| 0 <= k < v@.len() implies (#[trigger] v@[k]).1@ == domain_source(cd, l2, v@[k].0@) by {
            let x = v@[k].0@;
            if x != d@ {
                let m = choose|m: int| 0 <= m < before.len() && (#[trigger] before[m]).0@ == x && before[m].1@ == v@[k].1@;
                assert(before[m].1@ == domain_source(cd, l1, x));
                assert(occurrences(l2, x) == occurrences(l1, x));
                if l2.contains(x) {
                    let q = choose|q: int| 0 <= q < l2.len() && l2[q] == x;
                    assert(l1[q] == x);
                }
                if l1.contains(x) {
                    let q = choose|q: int| 0 <= q < l1.len() && l1[q] == x;
                    assert(l2[q] == x);
                }
            } else {
                assert(l2[j as int] == x);
                lemma_occurrences_contains(l1, x);
                assert(listing_keys(before).contains(x) <==> (cd.contains(x) || l1.contains(x)));
            }
        }
        j = j + 1;
    }
    assert(ld.take(j as int) =~= ld);
    v
}

proof fn lemma_occurrences_contains(s: Seq<Seq<char>>, x: Seq<char>)
    ensures
        occurrences(s, x) > 0 <==> s.contains(x),
    decreases s.len(),
{
    if s.len() > 0 {
        lemma_occurrences_contains(s.drop_last(), x);
        if s.drop_last().contains(x) {
            let k = choose|k: int| 0 <= k < s.drop_last().len() && s.drop_last()[k] == x;
            assert(s[k] == x);
        }
        if s.contains(x) && s.last() != x {
            let k = choose|k: int| 0 <= k < s.len() && s[k] == x;
            assert(s.drop_last()[k] == x);
        }
        if s.last() == x {
            assert(s[s.len() - 1] == x);
        }
    }
}

// ---------------------------------------------------------------------------
// Laws of the ranking
// ---------------------------------------------------------------------------

proof fn lemma_last_with_later(a: Seq<RankedView>, b: Seq<RankedView>, p: Seq<char>)
    requires
        last_with(b, p) is Some,
    ensures
        last_with(a + b, p) == last_with(b, p),
    decreases b.len(),
{
    if b.len() > 0 {
        assert((a + b).last() == b.last());
        assert((a + b).drop_last() =~= a + b.drop_last());
        if b.last().pattern != p {
            lemma_last_with_later(a, b.drop_last(), p);
        }
    }
}

proof fn lemma_last_with_found(ps: Seq<PatternEntry>, src: Seq<char>, p: Seq<char>)
    requires
        pattern_texts(ps).contains(p),
    ensures
        last_with(tagged(ps, src), p) matches Some(x) && x.pattern == p && x.source == src,
    decreases ps.len(),
{
    let t = tagged(ps, src);
    if ps.len() > 0 {
        assert(t.drop_last() =~= tagged(ps.drop_last(), src));
        if ps.last().pattern != p {
            let k = choose|k: int| 0 <= k < pattern_texts(ps).len() && pattern_texts(ps)[k] == p;
            assert(k < ps.len() - 1);
            assert(pattern_texts(ps.drop_last())[k] == p);
            lemma_last_with_found(ps.drop_last(), src, p);
        }
    }
}

/// Local evidence for a pattern overrides community evidence: in the
/// ranking for a domain, a pattern the local registry records for that
/// domain appears once, with the last local evidence for it and the source
/// "local".
pub proof fn lemma_local_evidence_wins(
    r: Seq<RankedView>,
    community: RegistryView,
    local: RegistryView,
    d: Seq<char>,
    p: Seq<char>,
)
    requires
        merged_ranking(r, all_evidence(community, local, d)),
        pattern_texts(collect_patterns(local.companies, normalize(d))).contains(p),
    ensures
        last_with(tagged(collect_patterns(local.companies, normalize(d)), "local"@), p) matches Some(x)
            && r.contains(x) && x.source == "local"@,
        forall|y: RankedView|
            r.contains(y) && y.pattern == p ==> Some(y) == last_with(
                tagged(collect_patterns(local.companies, normalize(d)), "local"@),
                p,
            ),
{
    let lt = tagged(collect_patterns(local.companies, normalize(d)), "local"@);
    let ct = tagged(collect_patterns(community.companies, normalize(d)), "community"@);
    lemma_last_with_found(collect_patterns(local.companies, normalize(d)), "local"@, p);
    lemma_last_with_later(ct, lt, p);
    let x = last_with(lt, p)->0;
    assert(last_with(all_evidence(community, local, d), x.pattern) == Some(x));
}

/// Resetting a domain in the local registry leaves exactly the community
/// evidence for it.
pub proof fn lemma_reset_reveals_community(community: RegistryView, local: RegistryView, d: Seq<char>)
    ensures
        all_evidence(
            community,
            RegistryView { version: local.version, companies: drop_domain(local.companies, normalize(d)) },
            d,
        ) == tagged(collect_patterns(community.companies, normalize(d)), "community"@),
{
    lemma_reset_forgets_domain(local.companies, normalize(d));
    let e = tagged(collect_patterns(drop_domain(local.companies, normalize(d)), normalize(d)), "local"@);
    assert(e =~= Seq::<RankedView>::empty());
    let c = tagged(collect_patterns(community.companies, normalize(d)), "community"@);
    assert(c + e =~= c);
}

proof fn lemma_rank_sorted_equal(a: Seq<RankedView>, b: Seq<RankedView>)
    requires
        rank_sorted(a),
        rank_sorted(b),
        forall|x: RankedView| a.contains(x) <==> b.contains(x),
    ensures
        a == b,
    decreases a.len(),
{
    if a.len() == 0 {
        if b.len() > 0 {
            assert(b.contains(b[0]));
        }
        assert(a =~= b);
    } else {
        assert(a.contains(a[0]));
        assert(b.len() > 0);
        assert(b.contains(b[0]));
        if a[0] != b[0] {
            let j = choose|j: int| 0 <= j < a.len() && a[j] == b[0];
            let k = choose|k: int| 0 <= k < b.len() && b[k] == a[0];
            assert(j > 0 && k > 0);
            assert(ranks_before(a[0], a[j]));
            assert(ranks_before(b[0], b[k]));
            lemma_ranks_transitive(a[0], b[0], a[0]);
            lemma_ranks_irreflexive(a[0]);
        }
        let a1 = a.drop_first();
        let b1 = b.drop_first();
        assert forall|x: RankedView| a1.contains(x) <==> b1.contains(x) by {
            if a1.contains(x) {
                let m = choose|m: int| 0 <= m < a1.len() && a1[m] == x;
                assert(a[m + 1] == x);
                assert(ranks_before(a[0], a[m + 1]));
                lemma_ranks_irreflexive(x);
                assert(b.contains(x));
                let n = choose|n: int| 0 <= n < b.len() && b[n] == x;
                assert(n != 0);
                assert(b1[n - 1] == x);
            }
            if b1.contains(x) {
                let m = choose|m: int| 0 <= m < b1.len() && b1[m] == x;
                assert(b[m + 1] == x);
                assert(ranks_before(b[0], b[m + 1]));
                lemma_ranks_irreflexive(x);
                assert(a.contains(x));
                let n = choose|n: int| 0 <= n < a.len() && a[n] == x;
                assert(n != 0);
                assert(a1[n - 1] == x);
            }
        }
        assert forall|i: int, j: int| 0 <= i < j < a1.len() implies ranks_before(#[trigger] a1[i], #[trigger] a1[j]) by {
            assert(a1[i] == a[i + 1] && a1[j] == a[j + 1]);
        }
        assert forall|i: int, j: int| 0 <= i < j < b1.len() implies ranks_before(#[trigger] b1[i], #[trigger] b1[j]) by {
            assert(b1[i] == b[i + 1] && b1[j] == b[j + 1]);
        }
        lemma_rank_sorted_equal(a1, b1);
        assert(a =~= seq![a[0]] + a1);
        assert(b =~= seq![b[0]] + b1);
    }
}

/// The merged ranking of a body of evidence is unique: two rankings that
/// both merge the same evidence are equal.
pub proof fn lemma_ranking_unique(r1: Seq<RankedView>, r2: Seq<RankedView>, all: Seq<RankedView>)
    requires
        merged_ranking(r1, all),
        merged_ranking(r2, all),
    ensures
        r1 == r2,
{
    lemma_rank_sorted_equal(r1, r2);
}

/// After the local records of a domain are reset, its ranking is the one
/// given with no local data at all, and every entry comes from the
/// community registry.
pub proof fn lemma_reset_ranking(
    after_reset: Seq<RankedView>,
    community_only: Seq<RankedView>,
    community: RegistryView,
    local: RegistryView,
    d: Seq<char>,
)
    requires
        merged_ranking(
            after_reset,
            all_evidence(
                community,
                RegistryView { version: local.version, companies: drop_domain(local.companies, normalize(d)) },
                d,
            ),
        ),
        merged_ranking(
            community_only,
            all_evidence(community, RegistryView { version: local.version, companies: Seq::empty() }, d),
        ),
    ensures
        after_reset == community_only,
        forall|i: int| 0 <= i < after_reset.len() ==> (#[trigger] after_reset[i]).source == "community"@,
{
    lemma_reset_reveals_community(community, local, d);
    let empty = RegistryView { version: local.version, companies: Seq::empty() };
    let c = tagged(collect_patterns(community.companies, normalize(d)), "community"@);
    assert(tagged(collect_patterns(empty.companies, normalize(d)), "local"@) =~= Seq::<RankedView>::empty());
    assert(all_evidence(community, empty, d) =~= c);
    lemma_ranking_unique(after_reset, community_only, c);
    assert forall|i: int| 0 <= i < after_reset.len() implies (#[trigger] after_reset[i]).source == "community"@ by {
        let x = after_reset[i];
        assert(after_reset.contains(x));
        lemma_last_with(c, x.pattern);
        assert(c.contains(x));
        let k = choose|k: int| 0 <= k < c.len() && c[k] == x;
    }
}

/// The patterns tried for a domain hold no pattern twice, and hold exactly
/// the company patterns and the fallback patterns.
pub proof fn lemma_probe_order_distinct(s: Seq<Seq<char>>)
    ensures
        first_occurrences(s).no_duplicates(),
        forall|x: Seq<char>| #[trigger] first_occurrences(s).contains(x) <==> s.contains(x),
    decreases s.len(),
{
    assert forall|x: Seq<char>| #[trigger] first_occurrences(s).contains(x) <==> s.contains(x) by {
        lemma_first_occurrences_contains(s, x);
    }
    if s.len() > 0 {
        lemma_probe_order_distinct(s.drop_last());
        let r = first_occurrences(s.drop_last());
        if !r.contains(s.last()) {
            let t = r.push(s.last());
            assert forall|i: int, j: int| 0 <= i < t.len() && 0 <= j < t.len() && i != j implies t[i] != t[j] by {
                if i == r.len() {
                    assert(t[j] == r[j]);
                } else if j == r.len() {
                    assert(t[i] == r[i]);
                } else {
                    assert(t[i] == r[i] && t[j] == r[j]);
                }
            }
        }
    }
}

} // verus!
