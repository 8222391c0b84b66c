use rule_engine::backward::backward_solve;
use rule_engine::backward::backward_solve_within;
use rule_engine::parser::parse_kb;
use rule_engine::Rule;

fn goals(atoms: &[&str]) -> Vec<String> {
    atoms.iter().map(|atom| atom.to_string()).collect()
}

fn unit(atom: &str) -> Rule {
    let mut rule = Rule::new();
    rule.add_positive_clause(atom.to_string());
    rule
}

fn with_facts(text: &str, facts: &[&str]) -> Vec<Rule> {
    let mut kb = parse_kb(text.to_string());
    for atom in facts {
        kb.push(unit(atom));
    }
    kb
}

const PNEUMONIA: &str = "[[n(temperature).n(sick).infection],[n(infection).n(cough).pneumonia]]";

#[test]
fn backward_empty_goal_list_is_proved_on_any_knowledge_base() {
    assert!(backward_solve(&goals(&[]), &Vec::new()));
    assert!(backward_solve(&goals(&[]), &with_facts(PNEUMONIA, &[])));
    assert!(backward_solve(&goals(&[]), &with_facts("[[n(a).a]]", &[])));
    assert_eq!(backward_solve_within(&goals(&[]), &with_facts("[[n(a).a]]", &[]), 0), Some(true));
}

#[test]
fn backward_goal_fails_on_the_empty_knowledge_base() {
    assert!(!backward_solve(&goals(&["a"]), &Vec::new()));
    assert_eq!(backward_solve_within(&goals(&["a"]), &Vec::new(), 0), Some(false));
}

#[test]
fn backward_proves_pneumonia_from_all_three_facts() {
    let kb = with_facts(PNEUMONIA, &["temperature", "sick", "cough"]);
    assert!(backward_solve(&goals(&["pneumonia"]), &kb));
}

#[test]
fn backward_fails_pneumonia_without_the_cough() {
    let kb = with_facts(PNEUMONIA, &["temperature", "sick"]);
    assert!(!backward_solve(&goals(&["pneumonia"]), &kb));
    assert!(backward_solve(&goals(&["infection"]), &kb));
}

#[test]
fn backward_fails_a_goal_that_no_clause_concludes() {
    let kb = with_facts("[[n(a).b]]", &[]);
    assert!(!backward_solve(&goals(&["c"]), &kb));
    assert!(!backward_solve(&goals(&["b"]), &kb));
    assert!(!backward_solve(&goals(&["a"]), &kb));
}

#[test]
fn backward_fails_a_goal_outside_any_vocabulary() {
    let kb = with_facts(PNEUMONIA, &["temperature", "sick", "cough"]);
    assert!(!backward_solve(&goals(&["measles"]), &kb));
}

#[test]
fn backward_unit_fact_proves_its_head_in_one_step() {
    let kb = vec![unit("cough")];
    assert!(backward_solve(&goals(&["cough"]), &kb));
    assert_eq!(backward_solve_within(&goals(&["cough"]), &kb, 1), Some(true));
    assert_eq!(backward_solve_within(&goals(&["cough"]), &kb, 0), None);
}

#[test]
fn backward_needs_every_goal_of_the_list() {
    let kb = with_facts("[[n(a).b]]", &["a"]);
    assert!(backward_solve(&goals(&["a", "b"]), &kb));
    assert!(backward_solve(&goals(&["b", "a", "b"]), &kb));
    assert!(!backward_solve(&goals(&["a", "c"]), &kb));
    assert!(!backward_solve(&goals(&["c", "a"]), &kb));
}

#[test]
fn backward_tries_later_clauses_after_a_failed_one() {
    let kb = with_facts("[[n(x).a],[n(y).a]]", &["y"]);
    assert!(backward_solve(&goals(&["a"]), &kb));
}

#[test]
fn backward_budget_counts_nested_resolutions() {
    let kb = with_facts("[[n(b).a],[n(c).b],[c]]", &[]);
    let q = goals(&["a"]);
    assert_eq!(backward_solve_within(&q, &kb, 0), None);
    assert_eq!(backward_solve_within(&q, &kb, 1), None);
    assert_eq!(backward_solve_within(&q, &kb, 2), None);
    assert_eq!(backward_solve_within(&q, &kb, 3), Some(true));
    assert_eq!(backward_solve_within(&q, &kb, 4), Some(true));
    assert!(backward_solve(&q, &kb));
}

#[test]
fn backward_budget_is_not_used_by_clauses_that_do_not_match() {
    let kb = with_facts("[[n(b).a],[n(c).b]]", &[]);
    assert_eq!(backward_solve_within(&goals(&["z"]), &kb, 0), Some(false));
    assert_eq!(backward_solve_within(&goals(&["b"]), &kb, 1), Some(false));
    assert_eq!(backward_solve_within(&goals(&["a"]), &kb, 2), Some(false));
}

#[test]
fn backward_within_gives_up_on_a_cycle() {
    let kb = with_facts("[[n(a).a]]", &[]);
    assert_eq!(backward_solve_within(&goals(&["a"]), &kb, 50), None);
    let mutual = with_facts("[[n(b).a],[n(a).b]]", &["a"]);
    assert_eq!(backward_solve_within(&goals(&["a"]), &mutual, 50), None);
}

#[test]
fn backward_first_matching_clause_wins_before_a_cycle_is_entered() {
    let kb = with_facts("[[a],[n(a).a]]", &[]);
    assert!(backward_solve(&goals(&["a"]), &kb));
    assert_eq!(backward_solve_within(&goals(&["a"]), &kb, 1), Some(true));
}

#[test]
fn backward_body_atoms_go_behind_the_remaining_goals() {
    // With goals [a, z] the body of a's clause is queued behind z, so the
    // failing goal z is met before the cycle through c is entered.
    let kb = with_facts("[[n(c).a],[n(c).c]]", &[]);
    assert_eq!(backward_solve_within(&goals(&["a", "z"]), &kb, 1), Some(false));
    assert_eq!(backward_solve_within(&goals(&["z", "a"]), &kb, 0), Some(false));
    assert_eq!(backward_solve_within(&goals(&["a"]), &kb, 30), None);
}
