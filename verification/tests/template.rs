use mailcheck::services::template::{candidates, distinct_in_order, render, substitute};

#[test]
fn renders_all_tokens() {
    assert_eq!(render("{first}.{last}", "Jane", "Doe"), "jane.doe");
    assert_eq!(render("{f}{last}", "Jane", "Doe"), "jdoe");
    assert_eq!(render("{first}{l}", "Jane", "Doe"), "janed");
    assert_eq!(render("{f}{l}", "Jane", "Doe"), "jd");
}

#[test]
fn renders_edge_cases() {
    assert_eq!(render("{f}.{l}", "", ""), ".");
    assert_eq!(render("{first}_{last}", "ÉLODIE", "Ñúñez"), "élodie_ñúñez");
    assert_eq!(render("{first}{first}", "Al", "B"), "alal");
    assert_eq!(render("static", "Jane", "Doe"), "static");
}

#[test]
fn candidates_follow_pattern_order_without_repeats() {
    let patterns: Vec<String> = vec!["{last}", "{first}", "{f}{last}", "{first}", "{l}{f}x"]
        .into_iter()
        .map(String::from)
        .collect();
    assert_eq!(candidates(&patterns, "Jane", "Doe"), vec!["doe", "jane", "jdoe", "djx"]);
    assert!(candidates(&[], "Jane", "Doe").is_empty());
}

#[test]
fn substitutes_names_as_given() {
    assert_eq!(substitute("{f}.{last}", "jane", "doe"), "j.doe");
    assert_eq!(substitute("{first}_{l}", "Jane", "Doe"), "Jane_D");
    assert_eq!(substitute("{first}{last}", "{last}", "x"), "xx");
    assert_eq!(substitute("{f}{l}", "", "doe"), "d");
    assert_eq!(substitute("{first", "a", "b"), "{first");
}

#[test]
fn keeps_first_occurrences_in_order() {
    let items: Vec<String> = vec!["b", "a", "b", "A", "ab", "a"].into_iter().map(String::from).collect();
    assert_eq!(distinct_in_order(&items), vec!["b", "a", "A", "ab"]);
    assert!(distinct_in_order(&[]).is_empty());
}

#[test]
fn company_patterns_are_tried_first() {
    let patterns: Vec<String> = vec!["{f}{last}", "{first}", "{f}{last}"].into_iter().map(String::from).collect();
    assert_eq!(candidates(&patterns, "Jane", "Doe"), vec!["jdoe", "jane"]);
}
