use mailcheck::models::company::{
    check_company_entry, check_normalized_domain, normalize_domain, validate_domain, CompanyPattern,
    CompanyRecord, CompanyRegistry,
};
use mailcheck::models::record::OutputRecord;
use mailcheck::services::company::{
    all_domains, annotate_results, attach_evidence, community_registry, list_domains, merge_with_fallbacks,
    ranked_at, ranked_patterns, RankedPattern, COMMUNITY_REGISTRY,
};

fn entry(pattern: &str, confidence: u8, samples: u32) -> CompanyPattern {
    CompanyPattern { pattern: pattern.to_string(), confidence, samples }
}

fn registry(companies: Vec<CompanyRecord>) -> CompanyRegistry {
    CompanyRegistry { version: 1, companies }
}

fn record(domain: &str, patterns: Vec<CompanyPattern>) -> CompanyRecord {
    CompanyRecord { domain: domain.to_string(), patterns }
}

fn row(email: &str) -> OutputRecord {
    OutputRecord {
        domain: "example.com".to_string(),
        first_name: "Jane".to_string(),
        last_name: "Doe".to_string(),
        email: email.to_string(),
        confidence: None,
        pattern_source: String::new(),
        status: "confirmed".to_string(),
        passed: true,
        reason: "email accepted by server".to_string(),
    }
}

#[test]
fn local_upsert_replaces_the_same_pattern() {
    let mut registry = CompanyRegistry::default();
    registry.upsert("Example.COM.".to_string(), "{first}.{last}".to_string(), 75, 1);
    registry.upsert("example.com".to_string(), "{first}.{last}".to_string(), 90, 4);

    let patterns = registry.patterns_for("EXAMPLE.COM");
    assert_eq!(patterns.len(), 1);
    assert_eq!(patterns[0].confidence, 90);
    assert_eq!(patterns[0].samples, 4);
}

#[test]
fn embedded_registry_is_valid() {
    embedded();
}

#[test]
fn local_pattern_overrides_community_shape() {
    let mut local = CompanyRegistry::default();
    local.upsert("example.com".to_string(), "{first}.{last}".to_string(), 88, 4);

    let ranked = ranked_patterns("example.com", &embedded(), &local).unwrap();
    assert_eq!(ranked[0].confidence, 88);
    assert_eq!(ranked[0].source, "local");
}

#[test]
fn normalizes_domains() {
    assert_eq!(normalize_domain("  Example.COM.. "), "example.com");
    assert_eq!(normalize_domain("MAIL.Example.org"), "mail.example.org");
    assert_eq!(normalize_domain(""), "");
}

#[test]
fn validates_domains() {
    assert!(validate_domain("Example.COM.").is_ok());
    assert!(validate_domain("a-b.example.co").is_ok());
    assert_eq!(validate_domain("localhost").unwrap_err(), "invalid company domain: localhost");
    assert_eq!(validate_domain(".example.com").unwrap_err(), "invalid company domain: .example.com");
    assert_eq!(validate_domain("exa..mple.com").unwrap_err(), "invalid company domain: exa..mple.com");
    assert_eq!(validate_domain("exa mple.com").unwrap_err(), "invalid company domain: exa mple.com");
    assert_eq!(validate_domain("  ").unwrap_err(), "invalid company domain: ");
}

#[test]
fn validate_reports_each_fault() {
    assert!(registry(vec![record("example.com", vec![entry("{first}.{last}", 90, 2)])]).validate().is_ok());
    assert!(CompanyRegistry::default().validate().is_ok());

    let mut wrong_version = CompanyRegistry::default();
    wrong_version.version = 2;
    assert_eq!(
        wrong_version.validate().unwrap_err(),
        "unsupported company registry version 2 (expected 1)"
    );
    assert_eq!(
        registry(vec![record("nodot", vec![entry("{first}", 90, 2)])]).validate().unwrap_err(),
        "invalid company domain: nodot"
    );
    assert_eq!(
        registry(vec![record("Example.com", vec![entry("{first}", 90, 2)])]).validate().unwrap_err(),
        "company domain must be normalized as 'example.com'"
    );
    assert_eq!(
        registry(vec![record("example.com", vec![])]).validate().unwrap_err(),
        "company 'example.com' has no patterns"
    );
    assert_eq!(
        registry(vec![record("example.com", vec![entry("{middle}", 90, 2)])]).validate().unwrap_err(),
        "unknown token '{middle}' — valid tokens are {first}, {last}, {f}, {l}"
    );
    assert_eq!(
        registry(vec![record("example.com", vec![entry("{first}.{last}", 101, 2)])])
            .validate()
            .unwrap_err(),
        "confidence for 'example.com:{first}.{last}' must be between 0 and 100"
    );
    assert_eq!(
        registry(vec![record("example.com", vec![entry("{first}.{last}", 90, 0)])])
            .validate()
            .unwrap_err(),
        "samples for 'example.com:{first}.{last}' must be at least 1"
    );
    assert_eq!(
        registry(vec![record(
            "example.com",
            vec![entry("{first}.{last}", 90, 2), entry("{first}.{last}", 80, 1)]
        )])
        .validate()
        .unwrap_err(),
        "duplicate company pattern 'example.com:{first}.{last}'"
    );
    assert_eq!(
        registry(vec![
            record("example.com", vec![entry("{first}", 90, 2)]),
            record("example.com", vec![entry("{first}", 80, 1)]),
        ])
        .validate()
        .unwrap_err(),
        "duplicate company pattern 'example.com:{first}'"
    );
}

#[test]
fn checks_company_entries() {
    assert!(check_company_entry("Example.com", "{first}.{last}", 100, 1).is_ok());
    assert_eq!(
        check_company_entry("bad", "{first}", 50, 1).unwrap_err(),
        "invalid company domain: bad"
    );
    assert_eq!(
        check_company_entry("example.com", "{first", 50, 1).unwrap_err(),
        "unmatched '{' in pattern: {first"
    );
    assert_eq!(
        check_company_entry("example.com", "{first}", 101, 1).unwrap_err(),
        "Confidence must be between 0 and 100."
    );
    assert_eq!(
        check_company_entry("example.com", "{first}", 100, 0).unwrap_err(),
        "Samples must be at least 1."
    );
}

#[test]
fn upsert_appends_new_patterns_and_domains() {
    let mut r = CompanyRegistry::default();
    r.upsert("example.com".to_string(), "{first}".to_string(), 60, 1);
    r.upsert("example.com".to_string(), "{last}".to_string(), 70, 2);
    r.upsert("other.org".to_string(), "{f}{l}".to_string(), 50, 3);
    assert_eq!(r.companies.len(), 2);
    assert_eq!(r.companies[0].patterns.len(), 2);
    assert_eq!(r.companies[0].patterns[1].pattern, "{last}");
    assert_eq!(r.companies[1].domain, "other.org");
    assert!(r.validate().is_ok());
    assert_eq!(r.patterns_for("OTHER.org.").len(), 1);
    assert_eq!(r.patterns_for("missing.com").len(), 0);
}

#[test]
fn reset_domain_reveals_nothing_local() {
    let mut r = CompanyRegistry::default();
    r.upsert("example.com".to_string(), "{first}".to_string(), 60, 1);
    r.upsert("other.org".to_string(), "{last}".to_string(), 70, 2);
    assert!(r.reset_domain(" Example.com. "));
    assert!(!r.reset_domain("example.com"));
    assert_eq!(r.patterns_for("example.com").len(), 0);
    assert_eq!(r.patterns_for("other.org").len(), 1);
    assert!(r.validate().is_ok());
    assert!(ranked_patterns("example.com", &CompanyRegistry::default(), &r).unwrap().is_empty());
}

#[test]
fn ranks_by_confidence_samples_then_text() {
    let local = registry(vec![
        record("example.com", vec![entry("{last}", 80, 2), entry("{first}", 90, 1)]),
        record("example.com", vec![entry("{f}{l}", 80, 2), entry("{first}.{last}", 80, 5)]),
    ]);
    let ranked = ranked_patterns("EXAMPLE.com", &CompanyRegistry::default(), &local).unwrap();
    let order: Vec<&str> = ranked.iter().map(|r| r.pattern.as_str()).collect();
    assert_eq!(order, vec!["{first}", "{first}.{last}", "{f}{l}", "{last}"]);
    assert!(ranked.iter().all(|r| r.source == "local"));
}

#[test]
fn later_local_evidence_replaces_earlier() {
    let local = registry(vec![
        record("example.com", vec![entry("{first}", 10, 1)]),
        record("example.com", vec![entry("{first}", 95, 7)]),
    ]);
    let ranked = ranked_patterns("example.com", &CompanyRegistry::default(), &local).unwrap();
    assert_eq!(ranked.len(), 1);
    assert_eq!(ranked[0].confidence, 95);
    assert_eq!(ranked[0].samples, 7);
}

#[test]
fn company_patterns_come_first_without_repeats() {
    let ranked = vec![
        RankedPattern { pattern: "{f}{last}".to_string(), confidence: 90, samples: 3, source: "local" },
        RankedPattern { pattern: "{first}".to_string(), confidence: 50, samples: 1, source: "local" },
    ];
    let fallbacks = vec!["{first}".to_string(), "{last}".to_string(), "{last}".to_string()];
    assert_eq!(merge_with_fallbacks(&ranked, &fallbacks), vec!["{f}{last}", "{first}", "{last}"]);
    assert!(merge_with_fallbacks(&[], &[]).is_empty());
}

#[test]
fn annotates_matching_results() {
    let ranked = vec![
        RankedPattern { pattern: "{f}{last}".to_string(), confidence: 90, samples: 3, source: "local" },
        RankedPattern { pattern: "{f}{last}x".to_string(), confidence: 10, samples: 1, source: "community" },
        RankedPattern { pattern: "{first}".to_string(), confidence: 70, samples: 1, source: "community" },
    ];
    let mut results = vec![row("jdoe@example.com"), row("jane@example.com"), row("doe@example.com"), row("nolocal")];
    annotate_results(&mut results, &ranked, "Jane", "Doe");
    assert_eq!(results[0].confidence, Some(90));
    assert_eq!(results[0].pattern_source, "local");
    assert_eq!(results[1].confidence, Some(70));
    assert_eq!(results[1].pattern_source, "community");
    assert_eq!(results[2].confidence, None);
    assert_eq!(results[2].pattern_source, "");
    assert_eq!(results[3].confidence, None);
}

#[test]
fn lists_local_domains_in_order() {
    let local = registry(vec![
        record("zeta.com", vec![entry("{first}", 60, 1)]),
        record("Alpha.com", vec![entry("{last}", 60, 1)]),
        record("alpha.com", vec![entry("{f}{l}", 60, 1)]),
    ]);
    let listing = all_domains(&CompanyRegistry::default(), &local).unwrap();
    assert_eq!(
        listing,
        vec![("alpha.com".to_string(), "community+local"), ("zeta.com".to_string(), "local")]
    );
    assert!(all_domains(&CompanyRegistry::default(), &CompanyRegistry::default()).unwrap().is_empty());
}

fn registry_from_json(content: &str) -> Result<CompanyRegistry, String> {
    let registry = parse_registry(content)?;
    registry.validate()?;
    Ok(registry)
}

fn parse_registry(content: &str) -> Result<CompanyRegistry, String> {
    let value: serde_json::Value = serde_json::from_str(content).map_err(|e| e.to_string())?;
    let version = value["version"].as_u64().ok_or("missing version")? as u32;
    let mut companies = Vec::new();
    for company in value["companies"].as_array().cloned().unwrap_or_default() {
        let mut patterns = Vec::new();
        for p in company["patterns"].as_array().cloned().unwrap_or_default() {
            let confidence = p["confidence"].as_u64().ok_or("missing confidence")?;
            if confidence > 255 {
                return Err("confidence out of range".to_string());
            }
            patterns.push(CompanyPattern {
                pattern: p["pattern"].as_str().ok_or("missing pattern")?.to_string(),
                confidence: confidence as u8,
                samples: p["samples"].as_u64().unwrap_or(0) as u32,
            });
        }
        companies.push(CompanyRecord {
            domain: company["domain"].as_str().ok_or("missing domain")?.to_string(),
            patterns,
        });
    }
    Ok(CompanyRegistry { version, companies })
}

#[test]
fn rejects_invalid_confidence_and_duplicate_patterns() {
    let invalid_score = r#"{
        "version": 1,
        "companies": [{
            "domain": "example.com",
            "patterns": [{"pattern": "{first}.{last}", "confidence": 101, "samples": 2}]
        }]
    }"#;
    assert!(registry_from_json(invalid_score).is_err());

    let duplicate = r#"{
        "version": 1,
        "companies": [{
            "domain": "example.com",
            "patterns": [
                {"pattern": "{first}.{last}", "confidence": 90, "samples": 2},
                {"pattern": "{first}.{last}", "confidence": 80, "samples": 1}
            ]
        }]
    }"#;
    assert!(registry_from_json(duplicate).is_err());
}

#[test]
fn keyed_operations_take_the_key_as_given() {
    assert!(check_normalized_domain("example.com").is_ok());
    assert!(check_normalized_domain("Example.com").is_ok());
    assert_eq!(check_normalized_domain("example.com.").unwrap_err(), "invalid company domain: example.com.");

    let mut r = CompanyRegistry::default();
    r.upsert_at("Example.com".to_string(), "{first}".to_string(), 60, 1);
    r.upsert_at("example.com".to_string(), "{last}".to_string(), 70, 2);
    assert_eq!(r.companies.len(), 2);
    assert_eq!(r.patterns_at(&"Example.com".to_string()).len(), 1);
    assert_eq!(r.patterns_at(&"example.com".to_string())[0].pattern, "{last}");
    assert_eq!(ranked_at(&"example.com".to_string(), &CompanyRegistry::default(), &r).unwrap().len(), 1);
    assert!(r.reset_at(&"Example.com".to_string()));
    assert!(!r.reset_at(&"Example.com".to_string()));
    assert_eq!(r.companies.len(), 1);
}

#[test]
fn lists_domains_with_sources() {
    let community = vec!["b.com".to_string(), "a.com".to_string()];
    let local = vec!["c.com".to_string(), "b.com".to_string(), "c.com".to_string(), "d.com".to_string()];
    assert_eq!(
        list_domains(&community, &local),
        vec![
            ("a.com".to_string(), "community"),
            ("b.com".to_string(), "community+local"),
            ("c.com".to_string(), "community+local"),
            ("d.com".to_string(), "local"),
        ]
    );
    assert!(list_domains(&vec![], &vec![]).is_empty());
}

#[test]
fn attaches_evidence_by_given_renderings() {
    let ranked = vec![
        RankedPattern { pattern: "{first}".to_string(), confidence: 40, samples: 1, source: "community" },
        RankedPattern { pattern: "{last}".to_string(), confidence: 80, samples: 2, source: "local" },
        RankedPattern { pattern: "{f}{l}".to_string(), confidence: 20, samples: 1, source: "local" },
    ];
    let renders = vec!["x".to_string(), "y".to_string(), "x".to_string()];
    let mut results = vec![row("x@example.com"), row("y@example.com"), row("z@example.com")];
    attach_evidence(&mut results, &ranked, &renders);
    assert_eq!(results[0].confidence, Some(40));
    assert_eq!(results[0].pattern_source, "community");
    assert_eq!(results[1].confidence, Some(80));
    assert_eq!(results[1].pattern_source, "local");
    assert_eq!(results[2].confidence, None);
}

fn community() -> CompanyRegistry {
    registry(vec![
        record("alpha.com", vec![entry("{first}.{last}", 85, 3), entry("{f}{last}", 60, 1)]),
        record("example.com", vec![entry("{first}.{last}", 70, 2), entry("{first}", 90, 6)]),
    ])
}

#[test]
fn community_registry_is_checked() {
    assert!(community_registry(community()).is_ok());
    assert_eq!(community_registry(community()).unwrap().companies.len(), 2);
    let bad = registry(vec![record("Alpha.com", vec![entry("{first}", 85, 3)])]);
    assert_eq!(
        community_registry(bad).unwrap_err(),
        "embedded company registry is invalid: company domain must be normalized as 'alpha.com'"
    );
}

#[test]
fn local_evidence_overrides_community_evidence() {
    let mut local = CompanyRegistry::default();
    local.upsert("Example.com".to_string(), "{first}.{last}".to_string(), 95, 9);
    let ranked = ranked_patterns("example.com", &community(), &local).unwrap();
    assert_eq!(ranked.len(), 2);
    assert_eq!(ranked[0].pattern, "{first}.{last}");
    assert_eq!(ranked[0].confidence, 95);
    assert_eq!(ranked[0].source, "local");
    assert_eq!(ranked[1].pattern, "{first}");
    assert_eq!(ranked[1].source, "community");

    assert!(local.reset_domain("example.com"));
    let ranked = ranked_patterns("example.com", &community(), &local).unwrap();
    assert_eq!(ranked[0].pattern, "{first}");
    assert_eq!(ranked[1].pattern, "{first}.{last}");
    assert_eq!(ranked[1].confidence, 70);
    assert!(ranked.iter().all(|r| r.source == "community"));
}

#[test]
fn lists_community_and_local_domains() {
    let local = registry(vec![
        record("example.com", vec![entry("{last}", 60, 1)]),
        record("zeta.org", vec![entry("{last}", 60, 1)]),
    ]);
    assert_eq!(
        all_domains(&community(), &local).unwrap(),
        vec![
            ("alpha.com".to_string(), "community"),
            ("example.com".to_string(), "community+local"),
            ("zeta.org".to_string(), "local"),
        ]
    );
}

fn embedded() -> CompanyRegistry {
    community_registry(parse_registry(COMMUNITY_REGISTRY).unwrap()).unwrap()
}

#[test]
fn normalizing_twice_changes_nothing() {
    let once = normalize_domain("  Mail.Example.COM.. ");
    assert_eq!(once, "mail.example.com");
    assert_eq!(normalize_domain(&once), once);
}

#[test]
fn checked_upsert_keeps_the_registry_valid() {
    let mut r = CompanyRegistry::default();
    let kelvin = "\u{212A}.com";
    assert!(validate_domain(kelvin).is_ok());
    r.upsert(kelvin.to_string(), "{first}".to_string(), 80, 2);
    r.upsert("Example.COM".to_string(), "{last}".to_string(), 60, 1);
    r.upsert("example.com".to_string(), "{last}".to_string(), 70, 3);
    assert_eq!(r.companies.len(), 2);
    assert_eq!(r.companies[0].domain, "k.com");
    assert!(r.validate().is_ok());
}

#[test]
fn reset_ranking_equals_the_community_ranking() {
    let mut local = CompanyRegistry::default();
    local.upsert("example.com".to_string(), "{f}{l}".to_string(), 99, 9);
    local.upsert("example.com".to_string(), "{first}".to_string(), 10, 1);
    assert!(local.reset_domain("EXAMPLE.com"));
    let after = ranked_patterns("example.com", &community(), &local).unwrap();
    let fresh = ranked_patterns("example.com", &community(), &CompanyRegistry::default()).unwrap();
    let key = |v: &Vec<RankedPattern>| -> Vec<(String, u8, u32, &'static str)> {
        v.iter().map(|r| (r.pattern.clone(), r.confidence, r.samples, r.source)).collect()
    };
    assert_eq!(key(&after), key(&fresh));
    assert!(after.iter().all(|r| r.source == "community"));
}
