use rule_engine::diagnosis::goal_list;
use rule_engine::diagnosis::next_question;
use rule_engine::diagnosis::read_answer;
use rule_engine::diagnosis::Question;
use rule_engine::diagnosis::Reply;

fn fact_of(reply: Reply) -> Option<(String, Vec<String>)> {
    match reply {
        Reply::Answer(Some(rule)) => Some((rule.get_positive_clause(), rule.get_negative_clauses())),
        Reply::Answer(None) => None,
        Reply::Stop => panic!("the session was stopped"),
        Reply::Invalid => panic!("the answer was not valid"),
    }
}

fn unit(atom: &str) -> Option<(String, Vec<String>)> {
    Some((atom.to_string(), Vec::new()))
}

#[test]
fn temperature_above_38_is_a_fact() {
    assert_eq!(fact_of(read_answer(Question::Temperature, "39\n")), unit("temperature"));
    assert_eq!(fact_of(read_answer(Question::Temperature, "255\n")), unit("temperature"));
    assert_eq!(fact_of(read_answer(Question::Temperature, "  +40 \n")), unit("temperature"));
}

#[test]
fn temperature_of_38_or_less_is_no_fact() {
    assert_eq!(fact_of(read_answer(Question::Temperature, "38\n")), None);
    assert_eq!(fact_of(read_answer(Question::Temperature, "37\n")), None);
    assert_eq!(fact_of(read_answer(Question::Temperature, "0\n")), None);
}

#[test]
fn more_than_two_sick_days_are_a_fact() {
    assert_eq!(fact_of(read_answer(Question::SickDays, "3\n")), unit("sick"));
    assert_eq!(fact_of(read_answer(Question::SickDays, "39")), unit("sick"));
}

#[test]
fn two_sick_days_or_fewer_are_no_fact() {
    assert_eq!(fact_of(read_answer(Question::SickDays, "2\n")), None);
    assert_eq!(fact_of(read_answer(Question::SickDays, "0\n")), None);
}

#[test]
fn cough_is_a_fact_on_yes_only() {
    assert_eq!(fact_of(read_answer(Question::Cough, "yes\n")), unit("cough"));
    assert_eq!(fact_of(read_answer(Question::Cough, " yes \r\n")), unit("cough"));
    assert_eq!(fact_of(read_answer(Question::Cough, "no\n")), None);
}

#[test]
fn stop_ends_the_session_at_every_question() {
    assert!(matches!(read_answer(Question::Temperature, "stop\n"), Reply::Stop));
    assert!(matches!(read_answer(Question::SickDays, "  stop  "), Reply::Stop));
    assert!(matches!(read_answer(Question::Cough, "stop"), Reply::Stop));
}

#[test]
fn stop_word_is_matched_exactly() {
    assert!(matches!(read_answer(Question::Cough, "Stop\n"), Reply::Invalid));
    assert!(matches!(read_answer(Question::Cough, "stop!\n"), Reply::Invalid));
    assert!(matches!(read_answer(Question::Temperature, "s top\n"), Reply::Invalid));
}

#[test]
fn text_that_is_no_number_is_invalid() {
    assert!(matches!(read_answer(Question::Temperature, "\n"), Reply::Invalid));
    assert!(matches!(read_answer(Question::Temperature, "warm\n"), Reply::Invalid));
    assert!(matches!(read_answer(Question::Temperature, "38.5\n"), Reply::Invalid));
    assert!(matches!(read_answer(Question::Temperature, "-3\n"), Reply::Invalid));
    assert!(matches!(read_answer(Question::Temperature, "256\n"), Reply::Invalid));
    assert!(matches!(read_answer(Question::SickDays, "yes\n"), Reply::Invalid));
    assert!(matches!(read_answer(Question::SickDays, "3 4\n"), Reply::Invalid));
}

#[test]
fn cough_answer_other_than_yes_or_no_is_invalid() {
    assert!(matches!(read_answer(Question::Cough, "\n"), Reply::Invalid));
    assert!(matches!(read_answer(Question::Cough, "Yes\n"), Reply::Invalid));
    assert!(matches!(read_answer(Question::Cough, "y\n"), Reply::Invalid));
    assert!(matches!(read_answer(Question::Cough, "1\n"), Reply::Invalid));
    assert!(matches!(read_answer(Question::Cough, "no way\n"), Reply::Invalid));
}

#[test]
fn goal_is_pneumonia_alone() {
    assert_eq!(goal_list(), vec!["pneumonia".to_string()]);
}

#[test]
fn questions_follow_each_other() {
    assert_eq!(next_question(Question::Temperature), Some(Question::SickDays));
    assert_eq!(next_question(Question::SickDays), Some(Question::Cough));
    assert_eq!(next_question(Question::Cough), None);
}
