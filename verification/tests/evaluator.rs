use inventory_alerts::model::MatchRule;
use inventory_alerts::rules::{evaluate_all, evaluate_rule};

#[test]
fn contains_rule_matches_substring() {
    let rule = MatchRule::Contains("Add to Cart".to_string());
    assert_eq!(evaluate_rule(&rule, "<p>Add to Cart</p>"), Some(true));
    assert_eq!(evaluate_rule(&rule, "<p>Sold Out</p>"), Some(false));
}

#[test]
fn does_not_contain_is_complement_of_contains() {
    let pos = MatchRule::Contains("stock".to_string());
    let neg = MatchRule::DoesNotContain("stock".to_string());
    for body in ["in stock now", "sold out", "", "sto ck"] {
        let a = evaluate_rule(&pos, body).unwrap();
        let b = evaluate_rule(&neg, body).unwrap();
        assert!(a != b);
    }
}

#[test]
fn regex_rule_matches_pattern() {
    let rule = MatchRule::Regex("[Ii]n [Ss]tock".to_string());
    assert_eq!(evaluate_rule(&rule, "Currently In Stock!"), Some(true));
    assert_eq!(evaluate_rule(&rule, "Currently unavailable"), Some(false));
}

#[test]
fn negated_regex_is_complement_of_regex() {
    let pos = MatchRule::Regex("a+b".to_string());
    let neg = MatchRule::NegatedRegex("a+b".to_string());
    for body in ["aab", "xyz", "", "ab"] {
        let a = evaluate_rule(&pos, body).unwrap();
        let b = evaluate_rule(&neg, body).unwrap();
        assert!(a != b);
    }
}

#[test]
fn invalid_pattern_is_rejected() {
    let rule = MatchRule::Regex("(".to_string());
    assert_eq!(evaluate_rule(&rule, "anything"), None);
}

#[test]
fn empty_rule_list_classifies_in_stock() {
    let rules: Vec<MatchRule> = Vec::new();
    assert_eq!(evaluate_all(&rules, "whatever the page says"), Some(true));
}

#[test]
fn conjunction_needs_every_rule() {
    let rules = vec![
        MatchRule::Contains("Add to Cart".to_string()),
        MatchRule::DoesNotContain("Out of Stock".to_string()),
    ];
    assert_eq!(evaluate_all(&rules, "Add to Cart"), Some(true));
    assert_eq!(evaluate_all(&rules, "Add to Cart - Out of Stock"), Some(false));
    assert_eq!(evaluate_all(&rules, "nothing here"), Some(false));
}

#[test]
fn conjunction_with_invalid_pattern_is_rejected() {
    let rules = vec![
        MatchRule::Contains("x".to_string()),
        MatchRule::NegatedRegex("[".to_string()),
    ];
    assert_eq!(evaluate_all(&rules, "x"), None);
}
