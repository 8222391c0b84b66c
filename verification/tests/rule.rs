use rule_engine::Rule;

fn strings(atoms: &[&str]) -> Vec<String> {
    atoms.iter().map(|atom| atom.to_string()).collect()
}

#[test]
fn new_rule_has_empty_head_and_body() {
    let rule = Rule::new();
    assert_eq!(rule.get_positive_clause(), "");
    assert!(rule.get_negative_clauses().is_empty());
}

#[test]
fn body_atoms_keep_their_order() {
    let mut rule = Rule::new();
    rule.add_negative_clause("temperature".to_string());
    rule.add_negative_clause("sick".to_string());
    rule.add_negative_clause("temperature".to_string());
    assert_eq!(rule.get_negative_clauses(), strings(&["temperature", "sick", "temperature"]));
    assert_eq!(rule.get_positive_clause(), "");
}

#[test]
fn setting_the_head_twice_keeps_the_last() {
    let mut rule = Rule::new();
    rule.add_positive_clause("infection".to_string());
    rule.add_negative_clause("sick".to_string());
    rule.add_positive_clause("fever".to_string());
    assert_eq!(rule.get_positive_clause(), "fever");
    assert_eq!(rule.get_negative_clauses(), strings(&["sick"]));
}

#[test]
fn getters_hand_out_copies() {
    let mut rule = Rule::new();
    rule.add_positive_clause("a".to_string());
    rule.add_negative_clause("b".to_string());
    let mut body = rule.get_negative_clauses();
    body.push("c".to_string());
    let mut head = rule.get_positive_clause();
    head.push('x');
    assert_eq!(rule.get_negative_clauses(), strings(&["b"]));
    assert_eq!(rule.get_positive_clause(), "a");
}

#[test]
fn clone_is_an_equal_and_separate_rule() {
    let mut rule = Rule::new();
    rule.add_positive_clause("a".to_string());
    rule.add_negative_clause("b".to_string());
    let mut copy = rule.clone();
    assert_eq!(copy.get_positive_clause(), "a");
    assert_eq!(copy.get_negative_clauses(), strings(&["b"]));
    copy.add_negative_clause("c".to_string());
    copy.add_positive_clause("d".to_string());
    assert_eq!(rule.get_positive_clause(), "a");
    assert_eq!(rule.get_negative_clauses(), strings(&["b"]));
}

#[test]
fn display_joins_body_and_head() {
    let mut rule = Rule::new();
    rule.add_negative_clause("temperature".to_string());
    rule.add_negative_clause("sick".to_string());
    rule.add_positive_clause("infection".to_string());
    assert_eq!(rule.display(), "temperature ^ sick => infection");
}

#[test]
fn display_of_one_condition_has_no_conjunction_sign() {
    let mut rule = Rule::new();
    rule.add_negative_clause("a".to_string());
    rule.add_positive_clause("b".to_string());
    assert_eq!(rule.display(), "a => b");
}

#[test]
fn display_of_a_unit_fact_starts_with_the_arrow() {
    let mut rule = Rule::new();
    rule.add_positive_clause("cough".to_string());
    assert_eq!(rule.display(), " => cough");
}

#[test]
fn display_of_a_new_rule_is_the_bare_arrow() {
    assert_eq!(Rule::new().display(), " => ");
}
