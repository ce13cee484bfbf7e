use mailcheck::models::patterns::{builtin_patterns, is_builtin, validate_pattern, PatternOverrides};

#[test]
fn validates_tokens_and_balanced_braces() {
    assert!(validate_pattern("{first}.{last}").is_ok());
    assert!(validate_pattern("{unknown}.{last}").is_err());
    assert!(validate_pattern("{first}.{last").is_err());
    assert!(validate_pattern("{first}.last}").is_err());
    assert!(validate_pattern("").is_err());
}

#[test]
fn pattern_errors_name_the_first_fault() {
    assert_eq!(
        validate_pattern("").unwrap_err(),
        "pattern must be non-empty and contain no newlines"
    );
    assert_eq!(
        validate_pattern("{first}\n").unwrap_err(),
        "pattern must be non-empty and contain no newlines"
    );
    assert_eq!(validate_pattern("a}b{").unwrap_err(), "unmatched '}' in pattern: a}b{");
    assert_eq!(validate_pattern("{first}.last}").unwrap_err(), "unmatched '}' in pattern: {first}.last}");
    assert_eq!(
        validate_pattern("{first}.{middle}").unwrap_err(),
        "unknown token '{middle}' — valid tokens are {first}, {last}, {f}, {l}"
    );
    assert_eq!(validate_pattern("{f}{l").unwrap_err(), "unmatched '{' in pattern: {f}{l");
    assert!(validate_pattern("plain.text").is_ok());
    assert!(validate_pattern("{f}_{l}-x").is_ok());
}

#[test]
fn builtin_patterns_in_order() {
    let b = builtin_patterns();
    assert_eq!(b.len(), 13);
    assert_eq!(b[0], "{first}");
    assert_eq!(b[12], "{f}{l}");
    assert!(is_builtin("{first}.{l}"));
    assert!(!is_builtin("{l}{f}"));
}

#[test]
fn default_overrides_give_the_builtins() {
    let o = PatternOverrides::default();
    assert_eq!(o.effective(), builtin_patterns());
}

#[test]
fn removing_a_pattern_makes_it_inactive() {
    let mut o = PatternOverrides::default();
    o.remove("{first}");
    assert!(!o.effective().contains(&"{first}".to_string()));
    assert_eq!(o.effective().len(), 12);
    o.remove("{first}");
    assert_eq!(o.removed, vec!["{first}"]);
    o.remove("{custom}");
    assert!(o.removed.len() == 1 && o.added.is_empty());
}

#[test]
fn adding_a_pattern_makes_it_active() {
    let mut o = PatternOverrides::default();
    o.add("{l}.{first}".to_string());
    o.add("{l}.{first}".to_string());
    let e = o.effective();
    assert_eq!(e.len(), 14);
    assert_eq!(e[13], "{l}.{first}");
    o.remove("{l}.{first}");
    assert_eq!(o.effective(), builtin_patterns());
}

#[test]
fn remove_then_add_restores_a_builtin() {
    let mut o = PatternOverrides::default();
    o.add("{l}{f}".to_string());
    let before = o.effective();
    o.remove("{last}");
    o.add("{last}".to_string());
    assert_eq!(o.effective(), before);
    assert!(o.removed.is_empty());
    assert_eq!(o.added, vec!["{l}{f}"]);
}

#[test]
fn reset_restores_the_builtins() {
    let mut o = PatternOverrides::default();
    o.add("{l}{f}".to_string());
    o.remove("{first}");
    o.remove("{f}{l}");
    o.reset();
    assert_eq!(o.effective(), builtin_patterns());
    assert!(o.added.is_empty() && o.removed.is_empty());
}

#[test]
fn every_builtin_pattern_is_valid() {
    for p in builtin_patterns() {
        assert!(validate_pattern(&p).is_ok(), "{p}");
    }
}

#[test]
fn removing_keeps_the_order_of_the_rest() {
    let mut o = PatternOverrides::default();
    o.add("{l}{f}".to_string());
    let before = o.effective();
    o.remove("{last}");
    let expected: Vec<String> = before.into_iter().filter(|q| q != "{last}").collect();
    assert_eq!(o.effective(), expected);
    let (added, removed) = (o.added.clone(), o.removed.clone());
    o.remove("{last}");
    assert_eq!(o.added, added);
    assert_eq!(o.removed, removed);
}

#[test]
fn adding_keeps_other_patterns_once() {
    let mut o = PatternOverrides::default();
    o.remove("{f}{l}");
    o.add("{f}{l}".to_string());
    o.add("{first}".to_string());
    let e = o.effective();
    assert_eq!(e.iter().filter(|q| q.as_str() == "{f}{l}").count(), 1);
    assert_eq!(e.iter().filter(|q| q.as_str() == "{first}").count(), 2);
    assert_eq!(e.iter().filter(|q| q.as_str() == "{last}").count(), 1);
}

#[test]
fn remove_then_add_restores_an_added_pattern() {
    let mut o = PatternOverrides::default();
    o.add("{l}{f}".to_string());
    o.add("{f}_{l}".to_string());
    let mut before = o.effective();
    o.remove("{l}{f}");
    o.add("{l}{f}".to_string());
    let mut after = o.effective();
    before.sort();
    after.sort();
    assert_eq!(before, after);
}
