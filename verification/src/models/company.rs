//! The company registry: per-domain address patterns with the evidence
//! behind them.
use vstd::prelude::*;

use crate::models::patterns::{fault_message, pattern_fault, validate_pattern};
use crate::models::registry_laws::{lemma_checked_upsert_keeps_valid, lemma_registry_valid};
use crate::text::{
    ascii_lower, is_ascii_text, no_ascii_upper,
    chars_of, decimal, decimal_string, has_char, is_ascii_alnum, is_ascii_alphanumeric, lowercase,
    owned, string_from, to_lowercase, trim, trim_chars, trim_end_char, trim_end_char_chars,
};

verus! {

/// The registry format version this library reads and writes.
pub const REGISTRY_VERSION: u32 = 1;

/// One address pattern of a company with the evidence for it.
#[derive(Debug)]
pub struct CompanyPattern {
    pub pattern: String,
    pub confidence: u8,
    pub samples: u32,
}

/// The patterns known for one mail domain.
#[derive(Debug)]
pub struct CompanyRecord {
    pub domain: String,
    pub patterns: Vec<CompanyPattern>,
}

/// A versioned list of company records.
#[derive(Debug)]
pub struct CompanyRegistry {
    pub version: u32,
    pub companies: Vec<CompanyRecord>,
}

/// The value of a [`CompanyPattern`].
pub struct PatternEntry {
    pub pattern: Seq<char>,
    pub confidence: u8,
    pub samples: u32,
}

/// The value of a [`CompanyRecord`].
pub struct RecordView {
    pub domain: Seq<char>,
    pub patterns: Seq<PatternEntry>,
}

/// The value of a [`CompanyRegistry`].
pub struct RegistryView {
    pub version: u32,
    pub companies: Seq<RecordView>,
}

impl View for CompanyPattern {
    type V = PatternEntry;

    open spec fn view(&self) -> PatternEntry {
        PatternEntry { pattern: self.pattern@, confidence: self.confidence, samples: self.samples }
    }
}

impl View for CompanyRecord {
    type V = RecordView;

    open spec fn view(&self) -> RecordView {
        RecordView {
            domain: self.domain@,
            patterns: self.patterns@.map_values(|p: CompanyPattern| p@),
        }
    }
}

impl View for CompanyRegistry {
    type V = RegistryView;

    open spec fn view(&self) -> RegistryView {
        RegistryView {
            version: self.version,
            companies: self.companies@.map_values(|c: CompanyRecord| c@),
        }
    }
}

impl CompanyPattern {
    /// A copy of this pattern.
    pub fn duplicate(&self) -> (r: CompanyPattern)
        ensures
            r@ == self@,
    {
        CompanyPattern {
            pattern: self.pattern.clone(),
            confidence: self.confidence,
            samples: self.samples,
        }
    }
}

impl Default for CompanyRegistry {
    fn default() -> (r: Self)
        ensures
            r@.version == REGISTRY_VERSION,
            r@.companies == Seq::<RecordView>::empty(),
    {
        let r = CompanyRegistry { version: REGISTRY_VERSION, companies: Vec::new() };
        assert(r@.companies =~= Seq::<RecordView>::empty());
        r
    }
}

// ---------------------------------------------------------------------------
// Domains
// ---------------------------------------------------------------------------

/// A domain as the registry keys it: surrounding whitespace and trailing
/// dots removed, then lower-cased (for ASCII text, `A`-`Z` become `a`-`z`).
pub open spec fn normalize(d: Seq<char>) -> Seq<char> {
    let x = trim_end_char(trim(d), '.');
    if is_ascii_text(x) {
        x.map_values(|c: char| ascii_lower(c))
    } else {
        lowercase(x)
    }
}

/// Whether a normalized domain is acceptable as a company domain: non-empty,
/// with a dot, not starting or ending with a dot, no two dots in a row, and
/// only ASCII letters, digits, `-` and `.`.
pub open spec fn domain_ok(n: Seq<char>) -> bool {
    &&& n.len() > 0
    &&& n.contains('.')
    &&& n[0] != '.'
    &&& n.last() != '.'
    &&& forall|i: int| 0 <= i < n.len() - 1 ==> !(n[i] == '.' && #[trigger] n[i + 1] == '.')
    &&& forall|i: int| 0 <= i < n.len() ==> is_ascii_alnum(#[trigger] n[i]) || n[i] == '-' || n[i] == '.'
}

/// The message for a rejected domain.
pub open spec fn domain_message(d: Seq<char>) -> Seq<char> {
    "invalid company domain: "@ + normalize(d)
}

/// Trims whitespace and trailing dots and lower-cases the domain.
pub fn normalize_domain(domain: &str) -> (r: String)
    ensures
        r@ == normalize(domain@),
        no_ascii_upper(r@),
{
    let v = chars_of(domain);
    let t = trim_chars(&v);
    let u = trim_end_char_chars(&t, '.');
    let s = string_from(&u);
    to_lowercase(s.as_str())
}

/// Whether the characters `n` satisfy [`domain_ok`].
fn domain_chars_ok(n: &Vec<char>) -> (r: bool)
    ensures
        r == domain_ok(n@),
{
    if n.len() == 0 || !has_char(n, '.') || n[0] == '.' || n[n.len() - 1] == '.' {
        return false;
    }
    let mut i: usize = 0;
    while i < n.len()
        invariant
            n.len() > 0,
            i <= n.len(),
            forall|k: int| 0 <= k < i && k < n.len() - 1 ==> !(n@[k] == '.' && #[trigger] n@[k + 1] == '.'),
            forall|k: int| 0 <= k < i ==> is_ascii_alnum(#[trigger] n@[k]) || n@[k] == '-' || n@[k] == '.',
        decreases n.len() - i,
    {
        let c = n[i];
        if !(is_ascii_alphanumeric(c) || c == '-' || c == '.') {
            return false;
        }
        if i + 1 < n.len() && c == '.' && n[i + 1] == '.' {
            return false;
        }
        i = i + 1;
    }
    true
}

/// Checks an already normalized domain: accepted when it passes
/// [`domain_ok`]; otherwise the error names it.
pub fn check_normalized_domain(n: &str) -> (r: Result<(), String>)
    ensures
        r is Ok <==> domain_ok(n@),
        r matches Err(e) ==> e@ == "invalid company domain: "@ + n@,
{
    let v = chars_of(n);
    if !domain_chars_ok(&v) {
        return Err(crate::text::concat("invalid company domain: ", n));
    }
    Ok(())
}

/// Accepts a domain whose normalized form passes [`domain_ok`]; otherwise
/// reports the normalized form.
pub fn validate_domain(domain: &str) -> (r: Result<(), String>)
    ensures
        r is Ok <==> domain_ok(normalize(domain@)),
        r matches Err(e) ==> e@ == domain_message(domain@),
{
    let n = normalize_domain(domain);
    check_normalized_domain(n.as_str())
}

/// The first fault of a local company entry, as the `companies add`
/// command checks it: the domain, then the pattern, then a confidence above
/// 100, then no samples.
pub open spec fn entry_fault(domain: Seq<char>, pattern: Seq<char>, confidence: u8, samples: u32) -> Option<Seq<char>> {
    if !domain_ok(normalize(domain)) {
        Some(domain_message(domain))
    } else if pattern_fault(pattern) is Some {
        Some(fault_message(pattern, pattern_fault(pattern)->0))
    } else if confidence > 100 {
        Some("Confidence must be between 0 and 100."@)
    } else if samples == 0 {
        Some("Samples must be at least 1."@)
    } else {
        None
    }
}

/// Checks a local company entry before it is recorded; the error is the
/// first fault [`entry_fault`] finds.
pub fn check_company_entry(domain: &str, pattern: &str, confidence: u8, samples: u32) -> (r: Result<(), String>)
    ensures
        r is Ok <==> entry_fault(domain@, pattern@, confidence, samples) is None,
        r matches Err(e) ==> Some(e@) == entry_fault(domain@, pattern@, confidence, samples),
{
    validate_domain(domain)?;
    validate_pattern(pattern)?;
    if confidence > 100 {
        return Err(owned("Confidence must be between 0 and 100."));
    }
    if samples == 0 {
        return Err(owned("Samples must be at least 1."));
    }
    Ok(())
}

// ---------------------------------------------------------------------------
// Validation of a whole registry
// ---------------------------------------------------------------------------

/// The message for a pattern of `domain` that fails the check named by `what`.
pub open spec fn entry_message(lead: Seq<char>, domain: Seq<char>, pattern: Seq<char>, tail: Seq<char>) -> Seq<char> {
    lead + domain + ":"@ + pattern + tail
}

/// The first fault of one pattern entry, given the (domain, pattern) pairs
/// already accepted.
pub open spec fn entry_error(seen: Seq<(Seq<char>, Seq<char>)>, domain: Seq<char>, p: PatternEntry) -> Option<Seq<char>> {
    if pattern_fault(p.pattern) is Some {
        Some(fault_message(p.pattern, pattern_fault(p.pattern)->0))
    } else if p.confidence > 100 {
        Some(entry_message("confidence for '"@, domain, p.pattern, "' must be between 0 and 100"@))
    } else if p.samples == 0 {
        Some(entry_message("samples for '"@, domain, p.pattern, "' must be at least 1"@))
    } else if seen.contains((domain, p.pattern)) {
        Some(entry_message("duplicate company pattern '"@, domain, p.pattern, "'"@))
    } else {
        None
    }
}

/// The first fault among the patterns `ps` of `domain`, scanning in order.
pub open spec fn patterns_error(seen: Seq<(Seq<char>, Seq<char>)>, domain: Seq<char>, ps: Seq<PatternEntry>) -> Option<Seq<char>>
    decreases ps.len(),
{
    if ps.len() == 0 {
        None
    } else {
        match entry_error(seen, domain, ps[0]) {
            Some(e) => Some(e),
            None => patterns_error(seen.push((domain, ps[0].pattern)), domain, ps.drop_first()),
        }
    }
}

/// The (domain, pattern) pairs of a record.
pub open spec fn record_pairs(c: RecordView) -> Seq<(Seq<char>, Seq<char>)> {
    c.patterns.map_values(|p: PatternEntry| (c.domain, p.pattern))
}

/// The first fault of one record.
pub open spec fn record_error(seen: Seq<(Seq<char>, Seq<char>)>, c: RecordView) -> Option<Seq<char>> {
    if !domain_ok(normalize(c.domain)) {
        Some(domain_message(c.domain))
    } else if c.domain != normalize(c.domain) {
        Some("company domain must be normalized as '"@ + normalize(c.domain) + "'"@)
    } else if c.patterns.len() == 0 {
        Some("company '"@ + c.domain + "' has no patterns"@)
    } else {
        patterns_error(seen, c.domain, c.patterns)
    }
}

/// The first fault among the records `cs`, scanning in order.
pub open spec fn records_error(seen: Seq<(Seq<char>, Seq<char>)>, cs: Seq<RecordView>) -> Option<Seq<char>>
    decreases cs.len(),
{
    if cs.len() == 0 {
        None
    } else {
        match record_error(seen, cs[0]) {
            Some(e) => Some(e),
            None => records_error(seen + record_pairs(cs[0]), cs.drop_first()),
        }
    }
}

/// The first fault of a registry; `None` when it is valid.
pub open spec fn registry_error(r: RegistryView) -> Option<Seq<char>> {
    if r.version != REGISTRY_VERSION {
        Some("unsupported company registry version "@ + decimal(r.version as nat) + " (expected 1)"@)
    } else {
        records_error(Seq::empty(), r.companies)
    }
}

/// Whether `(a, b)` is in `seen`.
fn seen_pair(seen: &Vec<(String, String)>, a: &String, b: &String) -> (r: bool)
    ensures
        r == seen@.map_values(|q: (String, String)| (q.0@, q.1@)).contains((a@, b@)),
{
    let ghost sv = seen@.map_values(|q: (String, String)| (q.0@, q.1@));
    let mut i: usize = 0;
    while i < seen.len()
        invariant
            i <= seen.len(),
            sv == seen@.map_values(|q: (String, String)| (q.0@, q.1@)),
            forall|k: int| 0 <= k < i ==> sv[k] != (a@, b@),
        decreases seen.len() - i,
    {
        if seen[i].0 == *a && seen[i].1 == *b {
            assert(sv[i as int] == (a@, b@));
            return true;
        }
        i = i + 1;
    }
    false
}

/// Builds `lead + domain + ":" + pattern + tail`.
fn entry_text(lead: &str, domain: &String, pattern: &String, tail: &str) -> (r: String)
    ensures
        r@ == entry_message(lead@, domain@, pattern@, tail@),
{
    let mut m = owned(lead);
    m.append(domain.as_str());
    m.append(":");
    m.append(pattern.as_str());
    m.append(tail);
    m
}

/// The patterns of every record of `cs` whose domain is `d`, in order.
pub open spec fn collect_patterns(cs: Seq<RecordView>, d: Seq<char>) -> Seq<PatternEntry>
    decreases cs.len(),
{
    if cs.len() == 0 {
        Seq::empty()
    } else if cs.last().domain == d {
        collect_patterns(cs.drop_last(), d) + cs.last().patterns
    } else {
        collect_patterns(cs.drop_last(), d)
    }
}

/// The domains of `cs`, in order.
pub open spec fn domains_of(cs: Seq<RecordView>) -> Seq<Seq<char>> {
    cs.map_values(|c: RecordView| c.domain)
}

/// The patterns of `ps`, in order.
pub open spec fn pattern_texts(ps: Seq<PatternEntry>) -> Seq<Seq<char>> {
    ps.map_values(|e: PatternEntry| e.pattern)
}

/// `ps` with the evidence of `p` set to `(c, s)`: its first entry is
/// updated, or a new entry is appended.
pub open spec fn upsert_patterns(ps: Seq<PatternEntry>, p: Seq<char>, c: u8, s: u32) -> Seq<PatternEntry> {
    let entry = PatternEntry { pattern: p, confidence: c, samples: s };
    match pattern_texts(ps).index_of_first(p) {
        Some(j) => ps.update(j, entry),
        None => ps.push(entry),
    }
}

/// `cs` with the evidence of `p` for domain `d` set to `(c, s)`, in the
/// first record of `d`, or in a new record appended for `d`.
pub open spec fn upsert_records(cs: Seq<RecordView>, d: Seq<char>, p: Seq<char>, c: u8, s: u32) -> Seq<RecordView> {
    match domains_of(cs).index_of_first(d) {
        Some(i) => cs.update(
            i,
            RecordView { domain: cs[i].domain, patterns: upsert_patterns(cs[i].patterns, p, c, s) },
        ),
        None => cs.push(
            RecordView { domain: d, patterns: seq![PatternEntry { pattern: p, confidence: c, samples: s }] },
        ),
    }
}

/// `cs` without the records whose domain is `d`, order kept.
pub open spec fn drop_domain(cs: Seq<RecordView>, d: Seq<char>) -> Seq<RecordView>
    decreases cs.len(),
{
    if cs.len() == 0 {
        cs
    } else if cs.last().domain == d {
        drop_domain(cs.drop_last(), d)
    } else {
        drop_domain(cs.drop_last(), d).push(cs.last())
    }
}

impl CompanyRegistry {
    /// Checks the registry: the version must be the supported one; every
    /// record needs a valid, normalized domain and at least one pattern;
    /// every pattern must be valid, with confidence at most 100, at least one
    /// sample, and no (domain, pattern) pair may occur twice. The error
    /// describes the first fault found.
    pub fn validate(&self) -> (r: Result<(), String>)
        ensures
            r is Ok <==> registry_error(self@) is None,
            r matches Err(e) ==> e@ == registry_error(self@)->0,
    {
        if self.version != REGISTRY_VERSION {
            let mut m = owned("unsupported company registry version ");
            let n = decimal_string(self.version as u128);
            m.append(n.as_str());
            m.append(" (expected 1)");
            return Err(m);
        }
        let ghost all = self@.companies;
        let mut seen: Vec<(String, String)> = Vec::new();
        let mut i: usize = 0;
        assert(all.skip(0) =~= all);
        assert(seen@.map_values(|q: (String, String)| (q.0@, q.1@)) =~= Seq::<(Seq<char>, Seq<char>)>::empty());
        while i < self.companies.len()
            invariant
                i <= self.companies.len(),
                all == self@.companies,
                self.version == REGISTRY_VERSION,
                registry_error(self@) == records_error(
                    seen@.map_values(|q: (String, String)| (q.0@, q.1@)),
                    all.skip(i as int),
                ),
            decreases self.companies.len() - i,
        {
            let company = &self.companies[i];
            assert(all.skip(i as int)[0] == company@);
            assert(all.skip(i as int).drop_first() =~= all.skip(i + 1));
            match validate_domain(company.domain.as_str()) {
                Err(e) => {
                    return Err(e);
                },
                Ok(()) => {},
            }
            let n = normalize_domain(company.domain.as_str());
            if !(company.domain == n) {
                let mut m = owned("company domain must be normalized as '");
                m.append(n.as_str());
                m.append("'");
                return Err(m);
            }
            if company.patterns.len() == 0 {
                let mut m = owned("company '");
                m.append(company.domain.as_str());
                m.append("' has no patterns");
                return Err(m);
            }
            let ghost seen0 = seen@.map_values(|q: (String, String)| (q.0@, q.1@));
            assert(registry_error(self@) == records_error(seen0, all.skip(i as int)));
            let ghost ps = company@.patterns;
            let mut j: usize = 0;
            assert(ps.skip(0) =~= ps);
            assert(record_pairs(company@).take(0) =~= Seq::<(Seq<char>, Seq<char>)>::empty());
            while j < company.patterns.len()
                invariant
                    j <= company.patterns.len(),
                    ps == company@.patterns,
                    i < all.len(),
                    company@ == all[i as int],
                    all.skip(i as int)[0] == company@,
                    registry_error(self@) == records_error(seen0, all.skip(i as int)),
                    seen@.map_values(|q: (String, String)| (q.0@, q.1@)) == seen0 + record_pairs(
                        company@,
                    ).take(j as int),
                    record_error(seen0, company@) == patterns_error(
                        seen@.map_values(|q: (String, String)| (q.0@, q.1@)),
                        company@.domain,
                        ps.skip(j as int),
                    ),
                decreases company.patterns.len() - j,
            {
                let candidate = &company.patterns[j];
                assert(ps.skip(j as int)[0] == candidate@);
                assert(ps.skip(j as int).drop_first() =~= ps.skip(j + 1));
                match validate_pattern(candidate.pattern.as_str()) {
                    Err(e) => {
                        return Err(e);
                    },
                    Ok(()) => {},
                }
                if candidate.confidence > 100 {
                    return Err(
                        entry_text(
                            "confidence for '",
                            &company.domain,
                            &candidate.pattern,
                            "' must be between 0 and 100",
                        ),
                    );
                }
                if candidate.samples == 0 {
                    return Err(
                        entry_text(
                            "samples for '",
                            &company.domain,
                            &candidate.pattern,
                            "' must be at least 1",
                        ),
                    );
                }
                if seen_pair(&seen, &company.domain, &candidate.pattern) {
                    return Err(
                        entry_text(
                            "duplicate company pattern '",
                            &company.domain,
                            &candidate.pattern,
                            "'",
                        ),
                    );
                }
                let ghost before = seen@.map_values(|q: (String, String)| (q.0@, q.1@));
                seen.push((company.domain.clone(), candidate.pattern.clone()));
                assert(seen@.map_values(|q: (String, String)| (q.0@, q.1@)) =~= before.push(
                    (company@.domain, candidate@.pattern),
                ));
                assert(record_pairs(company@).take(j + 1) =~= record_pairs(company@).take(
                    j as int,
                ).push((company@.domain, candidate@.pattern)));
                j = j + 1;
            }
            assert(record_pairs(company@).take(j as int) =~= record_pairs(company@));
            assert(ps.skip(j as int) =~= Seq::<PatternEntry>::empty());
            i = i + 1;
        }
        assert(all.skip(i as int) =~= Seq::<RecordView>::empty());
        Ok(())
    }
}

/// The index of the first record of `cs` whose domain is `d`.
fn find_record(cs: &Vec<CompanyRecord>, d: &String) -> (r: Option<usize>)
    ensures
        match r {
            Some(i) => domains_of(cs@.map_values(|c: CompanyRecord| c@)).index_of_first(d@) == Some(i as int),
            None => domains_of(cs@.map_values(|c: CompanyRecord| c@)).index_of_first(d@) is None,
        },
{
    let ghost ds = domains_of(cs@.map_values(|c: CompanyRecord| c@));
    proof {
        ds.index_of_first_ensures(d@);
    }
    let mut i: usize = 0;
    while i < cs.len()
        invariant
            i <= cs.len(),
            ds == domains_of(cs@.map_values(|c: CompanyRecord| c@)),
            forall|k: int| 0 <= k < i ==> ds[k] != d@,
        decreases cs.len() - i,
    {
        if cs[i].domain == *d {
            assert(ds[i as int] == d@);
            proof {
                ds.index_of_first_ensures(d@);
                match ds.index_of_first(d@) {
                    Some(m) => {
                        if m < i {
                            assert(ds[m] != d@);
                        }
                        if m > i {
                            assert(ds[i as int] != d@);
                        }
                    },
                    None => {},
                }
            }
            return Some(i);
        }
        i = i + 1;
    }
    proof {
        ds.index_of_first_ensures(d@);
        match ds.index_of_first(d@) {
            Some(m) => {
                assert(ds[m] != d@);
            },
            None => {},
        }
    }
    None
}

/// The index of the first entry of `ps` whose pattern is `p`.
fn find_pattern(ps: &Vec<CompanyPattern>, p: &String) -> (r: Option<usize>)
    ensures
        match r {
            Some(j) => pattern_texts(ps@.map_values(|e: CompanyPattern| e@)).index_of_first(p@) == Some(j as int),
            None => pattern_texts(ps@.map_values(|e: CompanyPattern| e@)).index_of_first(p@) is None,
        },
{
    let ghost ts = pattern_texts(ps@.map_values(|e: CompanyPattern| e@));
    proof {
        ts.index_of_first_ensures(p@);
    }
    let mut j: usize = 0;
    while j < ps.len()
        invariant
            j <= ps.len(),
            ts == pattern_texts(ps@.map_values(|e: CompanyPattern| e@)),
            forall|k: int| 0 <= k < j ==> ts[k] != p@,
        decreases ps.len() - j,
    {
        if ps[j].pattern == *p {
            assert(ts[j as int] == p@);
            proof {
                ts.index_of_first_ensures(p@);
                match ts.index_of_first(p@) {
                    Some(m) => {
                        if m < j {
                            assert(ts[m] != p@);
                        }
                        if m > j {
                            assert(ts[j as int] != p@);
                        }
                    },
                    None => {},
                }
            }
            return Some(j);
        }
        j = j + 1;
    }
    proof {
        ts.index_of_first_ensures(p@);
        match ts.index_of_first(p@) {
            Some(m) => {
                assert(ts[m] != p@);
            },
            None => {},
        }
    }
    None
}

impl CompanyRegistry {
    /// The patterns recorded for `domain` (normalized), across every record of
    /// that domain, in registry order.
    pub fn patterns_for(&self, domain: &str) -> (r: Vec<CompanyPattern>)
        ensures
            r@.map_values(|p: CompanyPattern| p@) == collect_patterns(self@.companies, normalize(domain@)),
    {
        let d = normalize_domain(domain);
        self.patterns_at(&d)
    }

    /// The patterns recorded under the domain key `d`, across every record
    /// with exactly that domain, in registry order.
    pub fn patterns_at(&self, d: &String) -> (r: Vec<CompanyPattern>)
        ensures
            r@.map_values(|p: CompanyPattern| p@) == collect_patterns(self@.companies, d@),
    {
        let mut r: Vec<CompanyPattern> = Vec::new();
        let mut i: usize = 0;
        while i < self.companies.len()
            invariant
                i <= self.companies.len(),
                r@.map_values(|p: CompanyPattern| p@) == collect_patterns(self@.companies.take(i as int), d@),
            decreases self.companies.len() - i,
        {
            let company = &self.companies[i];
            assert(self@.companies.take(i + 1).drop_last() =~= self@.companies.take(i as int));
            assert(self@.companies.take(i + 1).last() == company@);
            if company.domain == *d {
                let ghost before = r@.map_values(|p: CompanyPattern| p@);
                let mut j: usize = 0;
                while j < company.patterns.len()
                    invariant
                        j <= company.patterns.len(),
                        r@.map_values(|p: CompanyPattern| p@) == before + company@.patterns.take(j as int),
                    decreases company.patterns.len() - j,
                {
                    let item = company.patterns[j].duplicate();
                    let ghost prev = r@.map_values(|p: CompanyPattern| p@);
                    r.push(item);
                    assert(r@.map_values(|p: CompanyPattern| p@) =~= prev.push(item@));
                    assert(company@.patterns.take(j + 1) =~= company@.patterns.take(j as int).push(
                        company@.patterns[j as int],
                    ));
                    assert(r@.map_values(|p: CompanyPattern| p@) =~= before + company@.patterns.take(j + 1));
                    j = j + 1;
                }
                assert(company@.patterns.take(j as int) =~= company@.patterns);
            }
            i = i + 1;
        }
        assert(self@.companies.take(i as int) =~= self@.companies);
        r
    }

    /// Records evidence for `pattern` at the normalized `domain`: the first
    /// record of the domain gets the pattern with the given confidence and
    /// samples (replacing the evidence of an equal pattern), or a new record is
    /// appended for the domain.
    pub fn upsert(&mut self, domain: String, pattern: String, confidence: u8, samples: u32)
        ensures
            final(self)@.version == old(self)@.version,
            final(self)@.companies == upsert_records(
                old(self)@.companies,
                normalize(domain@),
                pattern@,
                confidence,
                samples,
            ),
            registry_error(old(self)@) is None && domains_of(old(self)@.companies).no_duplicates()
                && domain_ok(normalize(domain@)) && pattern_fault(pattern@) is None && confidence <= 100
                && samples >= 1 ==> registry_error(final(self)@) is None && domains_of(
                final(self)@.companies,
            ).no_duplicates(),
    {
        let d = normalize_domain(domain.as_str());
        let ghost before = self@;
        self.upsert_at(d, pattern, confidence, samples);
        proof {
            if registry_error(before) is None && domains_of(before.companies).no_duplicates()
                && domain_ok(d@) && pattern_fault(pattern@) is None && confidence <= 100 && samples >= 1 {
                lemma_registry_valid(before);
                lemma_checked_upsert_keeps_valid(before, d@, pattern@, confidence, samples);
                lemma_registry_valid(self@);
            }
        }
    }

    /// Records evidence for `pattern` under the domain key `d`: the first
    /// record with exactly that domain gets it (replacing the evidence of an
    /// equal pattern), or a new record is appended for `d`.
    pub fn upsert_at(&mut self, d: String, pattern: String, confidence: u8, samples: u32)
        ensures
            final(self)@.version == old(self)@.version,
            final(self)@.companies == upsert_records(old(self)@.companies, d@, pattern@, confidence, samples),
    {
        let ghost cs = self@.companies;
        proof {
            domains_of(cs).index_of_first_ensures(d@);
        }
        let found = find_record(&self.companies, &d);
        let i = match found {
            Some(i) => i,
            None => self.companies.len(),
        };
        if i == self.companies.len() {
            let entry = CompanyPattern { pattern, confidence, samples };
            let mut ps: Vec<CompanyPattern> = Vec::new();
            ps.push(entry);
            let record = CompanyRecord { domain: d, patterns: ps };
            self.companies.push(record);
            proof {
                if domains_of(cs).contains(d@) {
                    let k = choose|k: int| 0 <= k < domains_of(cs).len() && #[trigger] domains_of(cs)[k] == d@;
                    assert(domains_of(cs)[k] != d@);
                }
                assert(record@.patterns =~= seq![PatternEntry { pattern: pattern@, confidence, samples }]);
                assert(self@.companies =~= cs.push(record@));
            }
            return;
        }
        assert(domains_of(cs)[i as int] == d@);
        let ghost ps = cs[i as int].patterns;
        proof {
            pattern_texts(ps).index_of_first_ensures(pattern@);
        }
        let plen = self.companies[i].patterns.len();
        let j = match find_pattern(&self.companies[i].patterns, &pattern) {
            Some(j) => j,
            None => plen,
        };
        if j < plen {
            assert(pattern_texts(ps)[j as int] == pattern@);
            self.companies[i].patterns[j].confidence = confidence;
            self.companies[i].patterns[j].samples = samples;
            proof {
                let entry = PatternEntry { pattern: pattern@, confidence, samples };
                assert(self@.companies[i as int].patterns =~= ps.update(j as int, entry));
                assert(self@.companies =~= cs.update(
                    i as int,
                    RecordView { domain: cs[i as int].domain, patterns: ps.update(j as int, entry) },
                ));
            }
        } else {
            let entry = CompanyPattern { pattern, confidence, samples };
            self.companies[i].patterns.push(entry);
            proof {
                if pattern_texts(ps).contains(pattern@) {
                    let k = choose|k: int| 0 <= k < pattern_texts(ps).len() && #[trigger] pattern_texts(ps)[k] == pattern@;
                    assert(pattern_texts(ps)[k] != pattern@);
                }
                assert(self@.companies[i as int].patterns =~= ps.push(entry@));
                assert(self@.companies =~= cs.update(
                    i as int,
                    RecordView { domain: cs[i as int].domain, patterns: ps.push(entry@) },
                ));
            }
        }
    }

    /// Removes every record of the normalized `domain`; reports whether there
    /// was one.
    pub fn reset_domain(&mut self, domain: &str) -> (r: bool)
        ensures
            r == domains_of(old(self)@.companies).contains(normalize(domain@)),
            final(self)@.version == old(self)@.version,
            final(self)@.companies == drop_domain(old(self)@.companies, normalize(domain@)),
    {
        let d = normalize_domain(domain);
        self.reset_at(&d)
    }

    /// Removes every record whose domain is exactly `d`; reports whether
    /// there was one.
    pub fn reset_at(&mut self, d: &String) -> (r: bool)
        ensures
            r == domains_of(old(self)@.companies).contains(d@),
            final(self)@.version == old(self)@.version,
            final(self)@.companies == drop_domain(old(self)@.companies, d@),
    {
        let ghost cs = self@.companies;
        let ghost n = self.companies.len();
        let mut rest: Vec<CompanyRecord> = Vec::new();
        std::mem::swap(&mut rest, &mut self.companies);
        let mut found = false;
        let mut k: usize = 0;
        assert(self@.companies =~= drop_domain(cs.take(0), d@));
        while rest.len() > 0
            invariant
                k + rest.len() == cs.len(),
                cs.len() == n,
                n <= usize::MAX,
                rest@.map_values(|c: CompanyRecord| c@) == cs.skip(k as int),
                self@.companies == drop_domain(cs.take(k as int), d@),
                found == domains_of(cs.take(k as int)).contains(d@),
                self.version == old(self).version,
            decreases rest.len(),
        {
            let ghost prev = rest@;
            let c = rest.remove(0);
            assert(rest@ =~= prev.drop_first());
            assert forall|x: int| 0 <= x < rest@.len() implies #[trigger] rest@[x]@ == cs.skip(k + 1)[x] by {
                assert(prev.map_values(|c: CompanyRecord| c@)[x + 1] == cs.skip(k as int)[x + 1]);
            }
            assert(cs.skip(k as int)[0] == c@);
            assert(cs.take(k + 1).drop_last() =~= cs.take(k as int));
            assert(cs.take(k + 1).last() == c@);
            assert(rest@.map_values(|c: CompanyRecord| c@) =~= cs.skip(k + 1));
            if c.domain == *d {
                found = true;
                assert(domains_of(cs.take(k + 1))[k as int] == d@);
            } else {
                self.companies.push(c);
                assert(self@.companies =~= drop_domain(cs.take(k as int), d@).push(cs[k as int]));
            }
            proof {
                let before = domains_of(cs.take(k as int));
                let after = domains_of(cs.take(k + 1));
                assert(after =~= before.push(c@.domain));
                if !(c@.domain == d@) && after.contains(d@) {
                    let m = choose|m: int| 0 <= m < after.len() && #[trigger] after[m] == d@;
                    assert(before[m] == d@);
                }
                if before.contains(d@) {
                    let m = choose|m: int| 0 <= m < before.len() && #[trigger] before[m] == d@;
                    assert(after[m] == d@);
                }
            }
            k = k + 1;
        }
        assert(cs.take(k as int) =~= cs);
        found
    }
}

/// Which normalized domains are accepted: non-empty ones with a dot, not
/// starting or ending with a dot, without two dots in a row, made only of
/// ASCII letters (either case), digits `0`-`9`, `-` and `.`.
pub proof fn lemma_domain_characters(n: Seq<char>)
    ensures
        domain_ok(n) == {
            &&& n.len() > 0
            &&& exists|k: int| 0 <= k < n.len() && #[trigger] n[k] == '.'
            &&& n[0] != '.'
            &&& n[n.len() - 1] != '.'
            &&& forall|i: int| 0 <= i < n.len() - 1 ==> !(#[trigger] n[i] == '.' && n[i + 1] == '.')
            &&& forall|i: int|
                0 <= i < n.len() ==> {
                    let c = #[trigger] n[i];
                    ||| 'a' <= c && c <= 'z'
                    ||| 'A' <= c && c <= 'Z'
                    ||| '0' <= c && c <= '9'
                    ||| c == '-'
                    ||| c == '.'
                }
        },
{
    if n.len() > 0 {
        assert(n.last() == n[n.len() - 1]);
        let dots = forall|i: int| 0 <= i < n.len() - 1 ==> !(#[trigger] n[i] == '.' && n[i + 1] == '.');
        let dots2 = forall|i: int| 0 <= i < n.len() - 1 ==> !(n[i] == '.' && #[trigger] n[i + 1] == '.');
        assert(dots == dots2) by {
            if dots {
                assert forall|i: int| 0 <= i < n.len() - 1 implies !(n[i] == '.' && #[trigger] n[i + 1] == '.') by {
                    assert(!(n[i] == '.' && n[i + 1] == '.'));
                }
            }
            if dots2 {
                assert forall|i: int| 0 <= i < n.len() - 1 implies !(#[trigger] n[i] == '.' && n[i + 1] == '.') by {
                    assert(!(n[i] == '.' && n[i + 1] == '.'));
                }
            }
        }
    }
}

// ---------------------------------------------------------------------------
// Laws of the registry
// ---------------------------------------------------------------------------

/// After a reset of domain `d`, no pattern is recorded for `d`.
pub proof fn lemma_reset_forgets_domain(cs: Seq<RecordView>, d: Seq<char>)
    ensures
        collect_patterns(drop_domain(cs, d), d) == Seq::<PatternEntry>::empty(),
    decreases cs.len(),
{
    if cs.len() > 0 {
        lemma_reset_forgets_domain(cs.drop_last(), d);
        if cs.last().domain != d {
            let kept = drop_domain(cs.drop_last(), d).push(cs.last());
            assert(kept.drop_last() =~= drop_domain(cs.drop_last(), d));
        }
    }
}

/// A reset of domain `d` leaves the patterns of every other domain as they
/// were.
pub proof fn lemma_reset_keeps_other_domains(cs: Seq<RecordView>, d: Seq<char>, e: Seq<char>)
    requires
        d != e,
    ensures
        collect_patterns(drop_domain(cs, d), e) == collect_patterns(cs, e),
    decreases cs.len(),
{
    if cs.len() > 0 {
        lemma_reset_keeps_other_domains(cs.drop_last(), d, e);
        if cs.last().domain != d {
            let kept = drop_domain(cs.drop_last(), d).push(cs.last());
            assert(kept.drop_last() =~= drop_domain(cs.drop_last(), d));
        }
    }
}

proof fn lemma_collect_update(cs: Seq<RecordView>, i: int, c: RecordView, e: Seq<char>)
    requires
        0 <= i < cs.len(),
        c.domain == cs[i].domain,
        c.domain != e,
    ensures
        collect_patterns(cs.update(i, c), e) == collect_patterns(cs, e),
    decreases cs.len(),
{
    let u = cs.update(i, c);
    if i < cs.len() - 1 {
        assert(u.drop_last() =~= cs.drop_last().update(i, c));
        lemma_collect_update(cs.drop_last(), i, c, e);
    } else {
        assert(u.drop_last() =~= cs.drop_last());
    }
}

/// Recording evidence for domain `d` leaves the patterns of every other
/// domain as they were.
pub proof fn lemma_upsert_keeps_other_domains(
    cs: Seq<RecordView>,
    d: Seq<char>,
    p: Seq<char>,
    c: u8,
    s: u32,
    e: Seq<char>,
)
    requires
        d != e,
    ensures
        collect_patterns(upsert_records(cs, d, p, c, s), e) == collect_patterns(cs, e),
{
    domains_of(cs).index_of_first_ensures(d);
    match domains_of(cs).index_of_first(d) {
        Some(i) => {
            assert(cs[i].domain == d);
            lemma_collect_update(
                cs,
                i,
                RecordView { domain: cs[i].domain, patterns: upsert_patterns(cs[i].patterns, p, c, s) },
                e,
            );
        },
        None => {
            let n = upsert_records(cs, d, p, c, s);
            assert(n.drop_last() =~= cs);
        },
    }
}

proof fn lemma_upsert_patterns_has(ps: Seq<PatternEntry>, p: Seq<char>, c: u8, s: u32)
    ensures
        upsert_patterns(ps, p, c, s).contains(PatternEntry { pattern: p, confidence: c, samples: s }),
{
    let entry = PatternEntry { pattern: p, confidence: c, samples: s };
    pattern_texts(ps).index_of_first_ensures(p);
    match pattern_texts(ps).index_of_first(p) {
        Some(j) => {
            assert(upsert_patterns(ps, p, c, s)[j] == entry);
        },
        None => {
            assert(upsert_patterns(ps, p, c, s)[ps.len() as int] == entry);
        },
    }
}

proof fn lemma_collect_has(cs: Seq<RecordView>, i: int, d: Seq<char>, x: PatternEntry)
    requires
        0 <= i < cs.len(),
        cs[i].domain == d,
        cs[i].patterns.contains(x),
    ensures
        collect_patterns(cs, d).contains(x),
    decreases cs.len(),
{
    let front = cs.drop_last();
    if i < cs.len() - 1 {
        assert(front[i] == cs[i]);
        lemma_collect_has(front, i, d, x);
        let k = choose|k: int| 0 <= k < collect_patterns(front, d).len() && collect_patterns(front, d)[k] == x;
        if cs.last().domain == d {
            assert(collect_patterns(cs, d)[k] == x);
        }
    } else {
        let k = choose|k: int| 0 <= k < cs[i].patterns.len() && cs[i].patterns[k] == x;
        assert(collect_patterns(cs, d)[collect_patterns(front, d).len() + k] == x);
    }
}

/// After evidence `(c, s)` is recorded for pattern `p` at domain `d`, the
/// patterns of `d` include `p` with exactly that evidence.
pub proof fn lemma_upsert_is_recorded(cs: Seq<RecordView>, d: Seq<char>, p: Seq<char>, c: u8, s: u32)
    ensures
        collect_patterns(upsert_records(cs, d, p, c, s), d).contains(
            PatternEntry { pattern: p, confidence: c, samples: s },
        ),
{
    let n = upsert_records(cs, d, p, c, s);
    let entry = PatternEntry { pattern: p, confidence: c, samples: s };
    domains_of(cs).index_of_first_ensures(d);
    match domains_of(cs).index_of_first(d) {
        Some(i) => {
            assert(cs[i].domain == d);
            lemma_upsert_patterns_has(cs[i].patterns, p, c, s);
            lemma_collect_has(n, i, d, entry);
        },
        None => {
            assert(n[cs.len() as int].patterns[0] == entry);
            lemma_collect_has(n, cs.len() as int, d, entry);
        },
    }
}

/// Recording evidence for the same domain and pattern twice leaves the
/// registry as if only the second had been recorded: the later evidence
/// replaces the earlier one.
pub proof fn lemma_upsert_replaces(
    cs: Seq<RecordView>,
    d: Seq<char>,
    p: Seq<char>,
    c1: u8,
    s1: u32,
    c2: u8,
    s2: u32,
)
    ensures
        upsert_records(upsert_records(cs, d, p, c1, s1), d, p, c2, s2) == upsert_records(
            cs,
            d,
            p,
            c2,
            s2,
        ),
{
    let once = upsert_records(cs, d, p, c1, s1);
    domains_of(cs).index_of_first_ensures(d);
    domains_of(once).index_of_first_ensures(d);
    match domains_of(cs).index_of_first(d) {
        Some(i) => {
            assert(domains_of(once) =~= domains_of(cs));
            let ps = cs[i].patterns;
            let qs = upsert_patterns(ps, p, c1, s1);
            pattern_texts(ps).index_of_first_ensures(p);
            pattern_texts(qs).index_of_first_ensures(p);
            match pattern_texts(ps).index_of_first(p) {
                Some(j) => {
                    assert(pattern_texts(qs) =~= pattern_texts(ps));
                    assert(upsert_patterns(qs, p, c2, s2) =~= upsert_patterns(ps, p, c2, s2));
                },
                None => {
                    assert(pattern_texts(qs) =~= pattern_texts(ps).push(p));
                    let k = pattern_texts(qs).index_of_first(p);
                    assert(k == Some(ps.len() as int)) by {
                        assert(pattern_texts(qs)[ps.len() as int] == p);
                        if k is Some {
                            let m = k->0;
                            if m < ps.len() {
                                assert(pattern_texts(ps)[m] == p);
                            }
                        }
                    }
                    assert(upsert_patterns(qs, p, c2, s2) =~= upsert_patterns(ps, p, c2, s2));
                },
            }
            assert(upsert_records(once, d, p, c2, s2) =~= upsert_records(cs, d, p, c2, s2));
        },
        None => {
            let n = cs.len() as int;
            assert(domains_of(once) =~= domains_of(cs).push(d));
            let k = domains_of(once).index_of_first(d);
            assert(k == Some(n)) by {
                assert(domains_of(once)[n] == d);
                if k is Some {
                    let m = k->0;
                    if m < n {
                        assert(domains_of(cs)[m] == d);
                    }
                }
            }
            let ps = once[n].patterns;
            assert(pattern_texts(ps) =~= seq![p]);
            assert(pattern_texts(ps)[0] == p);
            pattern_texts(ps).index_of_first_ensures(p);
            assert(pattern_texts(ps).index_of_first(p) == Some(0int));
            let entry2 = PatternEntry { pattern: p, confidence: c2, samples: s2 };
            assert(upsert_patterns(ps, p, c2, s2) =~= seq![entry2]);
            assert(upsert_records(once, d, p, c2, s2) =~= upsert_records(cs, d, p, c2, s2));
        },
    }
}

} // verus!
