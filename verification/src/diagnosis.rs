//! The diagnosis of pneumonia: a patient's answers become unit facts over a
//! fixed vocabulary of six atoms, from which `pneumonia` is to be concluded.

use vstd::prelude::*;
use vstd::string::StringExecFns;
use crate::rule::Atom;
use crate::rule::Rule;
use crate::rule::RuleView;
use crate::solved_map::SolvedMap;
use crate::text::parse_u8;
use crate::text::parsed_u8;
use crate::text::trim;
use crate::text::trimmed;

verus! {

/// The atoms of the diagnosis vocabulary.
pub open spec fn diagnosis_atoms() -> Seq<Atom> {
    seq!["cough"@, "infection"@, "temperature"@, "sick"@, "pneumonia"@, "fever"@]
}

/// The truth map over `atoms` that marks every one of them false.
pub open spec fn all_false(atoms: Seq<Atom>) -> Map<Atom, bool> {
    Map::new(|atom: Atom| atoms.contains(atom), |atom: Atom| false)
}

/// A fresh truth map over the diagnosis vocabulary, with every atom false.
pub fn create_solved_map() -> (solved: SolvedMap)
    ensures
        solved@ == all_false(diagnosis_atoms()),
{
    let mut solved = SolvedMap::new();
    solved.insert(String::from_str("cough"), false);
    solved.insert(String::from_str("infection"), false);
    solved.insert(String::from_str("temperature"), false);
    solved.insert(String::from_str("sick"), false);
    solved.insert(String::from_str("pneumonia"), false);
    solved.insert(String::from_str("fever"), false);
    proof {
        let atoms = diagnosis_atoms();
        assert(atoms[0] == "cough"@ && atoms[1] == "infection"@ && atoms[2] == "temperature"@);
        assert(atoms[3] == "sick"@ && atoms[4] == "pneumonia"@ && atoms[5] == "fever"@);
        assert(solved@ =~= all_false(atoms));
    }
    solved
}

/// The goal list of the diagnosis: `pneumonia` alone.
pub fn goal_list() -> (q: Vec<String>)
    ensures
        q.deep_view() == seq!["pneumonia"@],
{
    let mut q: Vec<String> = Vec::new();
    q.push(String::from_str("pneumonia"));
    assert(q.deep_view() =~= seq!["pneumonia"@]);
    q
}

/// What the patient is asked, in the order of asking.
#[derive(Clone, Copy, Debug, PartialEq, Eq, Structural)]
pub enum Question {
    /// The body temperature, a number.
    Temperature,
    /// For how many days the patient has been sick, a number.
    SickDays,
    /// Whether the patient coughs, `yes` or `no`.
    Cough,
}

/// What an answer line means.
pub enum Reply {
    /// The line was the stop word: the session ends.
    Stop,
    /// The line does not answer the question, which is to be asked again.
    Invalid,
    /// The line answers the question, and gives this unit fact if it gives
    /// one.
    Answer(Option<Rule>),
}

/// The value of a [`Reply`] in contracts.
pub enum ReplyView {
    /// The session ends.
    Stop,
    /// The question is to be asked again.
    Invalid,
    /// The question is answered, with this unit fact if there is one.
    Answer(Option<RuleView>),
}

impl View for Reply {
    type V = ReplyView;

    open spec fn view(&self) -> ReplyView {
        match self {
            Reply::Stop => ReplyView::Stop,
            Reply::Invalid => ReplyView::Invalid,
            Reply::Answer(Some(rule)) => ReplyView::Answer(Some(rule@)),
            Reply::Answer(None) => ReplyView::Answer(None),
        }
    }
}

/// The unit fact for `atom`: a rule with that head and an empty body.
pub open spec fn unit_fact(atom: Atom) -> RuleView {
    RuleView { head: atom, body: Seq::empty() }
}

/// The answer to a question that asks for a number: a fact for `atom` where
/// the number is strictly above `threshold`, no fact where it is not, and no
/// answer where the text writes no number.
pub open spec fn number_reply(answer: Seq<char>, threshold: u8, atom: Atom) -> ReplyView {
    match parsed_u8(answer) {
        Some(number) => ReplyView::Answer(
            if number > threshold {
                Some(unit_fact(atom))
            } else {
                None
            },
        ),
        None => ReplyView::Invalid,
    }
}

/// What a line means as a reply to `question`. The white space around it does
/// not count. `stop` ends the session whatever was asked. A temperature
/// strictly above 38 gives the fact `temperature`, more than 2 days of
/// sickness give the fact `sick`, and `yes` to the cough gives the fact
/// `cough`.
pub open spec fn reply_to(question: Question, line: Seq<char>) -> ReplyView {
    let answer = trimmed(line);
    if answer == "stop"@ {
        ReplyView::Stop
    } else {
        match question {
            Question::Temperature => number_reply(answer, 38, "temperature"@),
            Question::SickDays => number_reply(answer, 2, "sick"@),
            Question::Cough => if answer == "yes"@ {
                ReplyView::Answer(Some(unit_fact("cough"@)))
            } else if answer == "no"@ {
                ReplyView::Answer(None)
            } else {
                ReplyView::Invalid
            },
        }
    }
}

/// The unit fact for the label `atom`.
fn fact(atom: &str) -> (rule: Rule)
    ensures
        rule@ == unit_fact(atom@),
{
    let mut rule = Rule::new();
    rule.add_positive_clause(String::from_str(atom));
    rule
}

/// The reply to a question that asks for a number.
fn read_number(answer: &str, threshold: u8, atom: &str) -> (reply: Reply)
    ensures
        reply@ == number_reply(answer@, threshold, atom@),
{
    match parse_u8(answer) {
        Some(number) => {
            if number > threshold {
                Reply::Answer(Some(fact(atom)))
            } else {
                Reply::Answer(None)
            }
        },
        None => Reply::Invalid,
    }
}

/// Reads one line that was given in answer to `question`.
pub fn read_answer(question: Question, line: &str) -> (reply: Reply)
    ensures
        reply@ == reply_to(question, line@),
{
    let answer = trim(line);
    let given = String::from_str(answer);
    if given == String::from_str("stop") {
        return Reply::Stop;
    }
    match question {
        Question::Temperature => read_number(answer, 38, "temperature"),
        Question::SickDays => read_number(answer, 2, "sick"),
        Question::Cough => {
            if given == String::from_str("yes") {
                Reply::Answer(Some(fact("cough")))
            } else if given == String::from_str("no") {
                Reply::Answer(None)
            } else {
                Reply::Invalid
            }
        },
    }
}

/// The question that follows `question`, or `None` after the last one.
pub fn next_question(question: Question) -> (next: Option<Question>)
    ensures
        next == match question {
            Question::Temperature => Some(Question::SickDays),
            Question::SickDays => Some(Question::Cough),
            Question::Cough => None,
        },
{
    match question {
        Question::Temperature => Some(Question::SickDays),
        Question::SickDays => Some(Question::Cough),
        Question::Cough => None,
    }
}

} // verus!
