use rule_engine::parser::parse_kb;
use rule_engine::parser::try_parse_kb;
use rule_engine::Rule;

fn shape(rules: &[Rule]) -> Vec<(String, Vec<String>)> {
    rules.iter().map(|rule| (rule.get_positive_clause(), rule.get_negative_clauses())).collect()
}

fn clause(head: &str, body: &[&str]) -> (String, Vec<String>) {
    (head.to_string(), body.iter().map(|atom| atom.to_string()).collect())
}

#[test]
fn parses_the_pneumonia_knowledge_base() {
    let kb = parse_kb(
        "[[n(temperature).n(sick).infection],[n(infection).n(cough).pneumonia]]".to_string(),
    );
    assert_eq!(
        shape(&kb),
        vec![
            clause("infection", &["temperature", "sick"]),
            clause("pneumonia", &["infection", "cough"]),
        ]
    );
}

#[test]
fn parses_a_single_clause() {
    assert_eq!(shape(&parse_kb("[[n(a).b]]".to_string())), vec![clause("b", &["a"])]);
}

#[test]
fn parses_a_unit_fact() {
    assert_eq!(shape(&parse_kb("[[cough]]".to_string())), vec![clause("cough", &[])]);
}

#[test]
fn head_may_stand_anywhere_in_the_clause() {
    assert_eq!(shape(&parse_kb("[[c.n(a).n(b)]]".to_string())), vec![clause("c", &["a", "b"])]);
    assert_eq!(shape(&parse_kb("[[n(a).c.n(b)]]".to_string())), vec![clause("c", &["a", "b"])]);
}

#[test]
fn clauses_come_in_written_order() {
    let kb = parse_kb("[[c],[a],[b],[a]]".to_string());
    assert_eq!(shape(&kb), vec![clause("c", &[]), clause("a", &[]), clause("b", &[]), clause("a", &[])]);
}

#[test]
fn white_space_is_insignificant() {
    let spaced = parse_kb(" [ [ n( temperature ) . n(sick).infec tion ] ,\n\t[n(infection).n(cough).pneumonia]\r\n]\n".to_string());
    let dense = parse_kb(
        "[[n(temperature).n(sick).infection],[n(infection).n(cough).pneumonia]]".to_string(),
    );
    assert_eq!(shape(&spaced), shape(&dense));
}

#[test]
fn unicode_white_space_is_taken_out_too() {
    let kb = parse_kb("[[n(a\u{00A0}).\u{2003}b\u{3000}]]".to_string());
    assert_eq!(shape(&kb), vec![clause("b", &["a"])]);
}

#[test]
fn last_bare_literal_is_the_head() {
    assert_eq!(shape(&parse_kb("[[a.b.n(c)]]".to_string())), vec![clause("b", &["c"])]);
}

#[test]
fn clause_without_a_bare_literal_has_the_empty_head() {
    assert_eq!(shape(&parse_kb("[[n(a).n(b)]]".to_string())), vec![clause("", &["a", "b"])]);
}

#[test]
fn empty_brackets_are_a_clause_with_the_empty_head() {
    assert_eq!(shape(&parse_kb("[[]]".to_string())), vec![clause("", &[])]);
}

#[test]
fn empty_literal_resets_the_head() {
    assert_eq!(shape(&parse_kb("[[a.]]".to_string())), vec![clause("", &[])]);
    assert_eq!(shape(&parse_kb("[[.a]]".to_string())), vec![clause("a", &[])]);
}

#[test]
fn wrapper_with_nothing_inside_is_the_empty_atom() {
    assert_eq!(shape(&parse_kb("[[n().a]]".to_string())), vec![clause("a", &[""])]);
}

#[test]
fn only_the_outermost_wrapper_of_a_literal_is_taken_off() {
    assert_eq!(shape(&parse_kb("[[n(n(a)).b]]".to_string())), vec![clause("b", &["n(a)"])]);
}

#[test]
fn letter_n_alone_is_an_ordinary_atom() {
    assert_eq!(shape(&parse_kb("[[n(n).n]]".to_string())), vec![clause("n", &["n"])]);
    assert_eq!(shape(&parse_kb("[[n(na).nb]]".to_string())), vec![clause("nb", &["na"])]);
}

#[test]
fn atoms_may_hold_any_other_character() {
    assert_eq!(
        shape(&parse_kb("[[n(fi\u{00E8}vre).n(x-1).mal(ade)]]".to_string())),
        vec![clause("mal(ade)", &["fi\u{00E8}vre", "x-1"])]
    );
}

#[test]
fn try_parse_agrees_with_parse_on_well_formed_text() {
    let text = "[[n(a).b],[n(b).n(a).c],[a]]";
    let strict = try_parse_kb(text).expect("well formed");
    assert_eq!(shape(&strict), shape(&parse_kb(text.to_string())));
    assert_eq!(
        shape(&strict),
        vec![clause("b", &["a"]), clause("c", &["b", "a"]), clause("a", &[])]
    );
}

#[test]
fn text_without_outer_brackets_is_malformed() {
    assert!(try_parse_kb("").is_none());
    assert!(try_parse_kb("[").is_none());
    assert!(try_parse_kb("]").is_none());
    assert!(try_parse_kb("[a]]").is_none());
    assert!(try_parse_kb("[[a]").is_none());
    assert!(try_parse_kb("x[a]]").is_none());
    assert!(try_parse_kb("([a])").is_none());
    assert!(try_parse_kb("   ").is_none());
}

#[test]
fn empty_clause_segment_is_malformed() {
    assert!(try_parse_kb("[]").is_none());
    assert!(try_parse_kb("[[a],]").is_none());
    assert!(try_parse_kb("[,[a]]").is_none());
    assert!(try_parse_kb("[[a],,[b]]").is_none());
    assert!(try_parse_kb("[ ]").is_none());
}

#[test]
fn clause_without_its_brackets_is_malformed() {
    assert!(try_parse_kb("[a]").is_none());
    assert!(try_parse_kb("[[a],b]").is_none());
    assert!(try_parse_kb("[[a],[b]").is_none());
    assert!(try_parse_kb("[[a],b]]").is_none());
    assert!(try_parse_kb("[[a],[]").is_none());
    assert!(try_parse_kb("[[a,b]]").is_none());
}

#[test]
fn unclosed_wrapper_is_malformed() {
    assert!(try_parse_kb("[[n(.a]]").is_none());
    assert!(try_parse_kb("[[n(a.b]]").is_none());
    assert!(try_parse_kb("[[n(]]").is_none());
    assert!(try_parse_kb("[[b.n(a]]").is_none());
}

#[test]
fn parsing_twice_gives_the_same_rules() {
    let text = "[[n(temperature).n(sick).infection],[n(infection).n(cough).pneumonia],[n(b).a.n(c)]]";
    let first = parse_kb(text.to_string());
    let second = parse_kb(text.to_string());
    assert_eq!(first.len(), 3);
    assert_eq!(first.len(), second.len());
    for (one, other) in first.iter().zip(second.iter()) {
        assert_eq!(one.get_positive_clause(), other.get_positive_clause());
        assert_eq!(one.get_negative_clauses(), other.get_negative_clauses());
    }
}
