//! The text form of a knowledge base.
//!
//! A knowledge base is written as a bracketed list of bracketed clauses,
//! `[[n(a).n(b).c],[n(c).d]]`: clauses are separated by `,`, the literals of a
//! clause by `.`, and a body atom is wrapped as `n(atom)` while the head stands
//! bare. White space is insignificant. Nothing can be escaped.

use vstd::prelude::*;
use vstd::pervasive::unreached;
use vstd::string::StrSliceExecFns;
use vstd::string::StringExecFns;
use crate::rule::Atom;
use crate::rule::Rule;
use crate::rule::RuleView;
use crate::text::chars_of;
use crate::text::find;
use crate::text::first_index;
use crate::text::split;
use crate::text::strip_whitespace;
use crate::text::without_whitespace;
use crate::text::lemma_first_index;

verus! {

/// `text` starts with `left` and ends with `right`, and these are two
/// characters of it.
pub open spec fn wrapped(text: Seq<char>, left: char, right: char) -> bool {
    text.len() >= 2 && text[0] == left && text.last() == right
}

/// `text` without its first and its last character.
pub open spec fn unwrapped(text: Seq<char>) -> Seq<char> {
    text.subrange(1, text.len() - 1)
}

/// The literal carries the body-atom wrapper: it starts with `n(`.
pub open spec fn is_condition(literal: Seq<char>) -> bool {
    literal.len() >= 2 && literal[0] == 'n' && literal[1] == '('
}

/// The atom inside a wrapped literal: what stands between `n(` and the last
/// character.
pub open spec fn condition_atom(literal: Seq<char>) -> Atom {
    literal.subrange(2, literal.len() - 1)
}

/// A literal that opens the body-atom wrapper also closes it.
pub open spec fn literal_well_formed(literal: Seq<char>) -> bool {
    is_condition(literal) ==> literal.len() >= 3 && literal.last() == ')'
}

/// The rule after one more literal was read: a wrapped literal adds its atom
/// to the end of the body, a bare literal becomes the head and replaces the
/// head that was read before.
pub open spec fn with_literal(rule: RuleView, literal: Seq<char>) -> RuleView {
    if is_condition(literal) {
        RuleView { head: rule.head, body: rule.body.push(condition_atom(literal)) }
    } else {
        RuleView { head: literal, body: rule.body }
    }
}

/// The rule that a list of literals stands for, read from left to right. Its
/// body holds the wrapped atoms in their order; its head is the last bare
/// literal, or the empty label where every literal is wrapped.
pub open spec fn rule_of(literals: Seq<Seq<char>>) -> RuleView
    decreases literals.len(),
{
    if literals.len() == 0 {
        RuleView { head: Seq::empty(), body: Seq::empty() }
    } else {
        with_literal(rule_of(literals.drop_last()), literals.last())
    }
}

/// The rule that the text of one bracketed clause stands for.
pub open spec fn parsed_rule(clause: Seq<char>) -> RuleView {
    rule_of(split(unwrapped(clause), '.'))
}

/// The clause is bracketed and each of its literals is well formed.
pub open spec fn clause_well_formed(clause: Seq<char>) -> bool {
    &&& wrapped(clause, '[', ']')
    &&& forall|k: int|
        0 <= k < split(unwrapped(clause), '.').len() ==> literal_well_formed(
            #[trigger] split(unwrapped(clause), '.')[k],
        )
}

/// The text, free of white space, is a bracketed list of well-formed clauses.
pub open spec fn text_well_formed(text: Seq<char>) -> bool {
    &&& wrapped(text, '[', ']')
    &&& forall|k: int|
        0 <= k < split(unwrapped(text), ',').len() ==> clause_well_formed(
            #[trigger] split(unwrapped(text), ',')[k],
        )
}

/// The rules that a text free of white space stands for, in written order.
pub open spec fn parsed_text(text: Seq<char>) -> Seq<RuleView> {
    let clauses = split(unwrapped(text), ',');
    Seq::new(clauses.len(), |k: int| parsed_rule(clauses[k]))
}

/// The raw text is a well-formed knowledge base once its white space is
/// taken out.
pub open spec fn kb_well_formed(raw: Seq<char>) -> bool {
    text_well_formed(without_whitespace(raw))
}

/// The rules that a raw text stands for.
pub open spec fn parsed_kb(raw: Seq<char>) -> Seq<RuleView> {
    parsed_text(without_whitespace(raw))
}

/// The head that is read is the last bare literal.
pub proof fn lemma_rule_of_head(literals: Seq<Seq<char>>, k: int)
    requires
        0 <= k < literals.len(),
        !is_condition(literals[k]),
        forall|j: int| k < j < literals.len() ==> is_condition(#[trigger] literals[j]),
    ensures
        rule_of(literals).head == literals[k],
    decreases literals.len(),
{
    if k < literals.len() - 1 {
        let front = literals.drop_last();
        assert(is_condition(literals[literals.len() - 1]));
        assert forall|j: int| k < j < front.len() implies is_condition(#[trigger] front[j]) by {
            assert(is_condition(literals[j]));
        }
        lemma_rule_of_head(front, k);
    }
}

/// Where every literal is wrapped, the head that is read is the empty label.
pub proof fn lemma_rule_of_no_head(literals: Seq<Seq<char>>)
    requires
        forall|j: int| 0 <= j < literals.len() ==> is_condition(#[trigger] literals[j]),
    ensures
        rule_of(literals).head == Seq::<char>::empty(),
    decreases literals.len(),
{
    if literals.len() > 0 {
        let front = literals.drop_last();
        assert(is_condition(literals[literals.len() - 1]));
        assert forall|j: int| 0 <= j < front.len() implies is_condition(#[trigger] front[j]) by {
            assert(is_condition(literals[j]));
        }
        lemma_rule_of_no_head(front);
    }
}

/// The body that is read holds the atoms of the wrapped literals, in their
/// order, and nothing else.
pub proof fn lemma_rule_of_body(literals: Seq<Seq<char>>)
    ensures
        rule_of(literals).body == literals.filter(
            |literal: Seq<char>| is_condition(literal),
        ).map_values(|literal: Seq<char>| condition_atom(literal)),
    decreases literals.len(),
{
    reveal(Seq::filter);
    let wrapped_only = |literal: Seq<char>| is_condition(literal);
    let inside = |literal: Seq<char>| condition_atom(literal);
    if literals.len() > 0 {
        let front = literals.drop_last();
        lemma_rule_of_body(front);
        assert(rule_of(literals).body =~= literals.filter(wrapped_only).map_values(inside));
    } else {
        assert(rule_of(literals).body =~= literals.filter(wrapped_only).map_values(inside));
    }
}

/// Parsing is deterministic: two parses of the same text are rule for rule
/// the same, each rule with the same head and the same body atoms in the same
/// order.
pub proof fn lemma_parse_deterministic(text: Seq<char>, first: Vec<Rule>, second: Vec<Rule>)
    requires
        first.deep_view() == parsed_kb(text),
        second.deep_view() == parsed_kb(text),
    ensures
        first.len() == second.len(),
        forall|i: int|
            0 <= i < first.len() ==> {
                &&& (#[trigger] first[i])@.head == second[i]@.head
                &&& first[i]@.body == second[i]@.body
            },
{
    assert(first.deep_view().len() == second.deep_view().len());
    assert forall|i: int| 0 <= i < first.len() implies (#[trigger] first[i])@ == second[i]@ by {
        assert(first.deep_view()[i] == second.deep_view()[i]);
    }
}

/// How the pieces of `whole[from..to]` relate to the piece that ends at the
/// first separator, `end`, and to the pieces after it.
proof fn lemma_split_step(whole: Seq<char>, from: int, end: int, to: int, sep: char)
    requires
        0 <= from <= end <= to <= whole.len(),
        end - from == first_index(whole.subrange(from, to), sep),
    ensures
        split(whole.subrange(from, to), sep) == if end == to {
            seq![whole.subrange(from, end)]
        } else {
            seq![whole.subrange(from, end)] + split(whole.subrange(end + 1, to), sep)
        },
{
    let rest = whole.subrange(from, to);
    lemma_first_index(rest, sep);
    if end == to {
        assert(rest =~= whole.subrange(from, end));
    } else {
        assert(rest.take(end - from) =~= whole.subrange(from, end));
        assert(rest.skip(end - from + 1) =~= whole.subrange(end + 1, to));
    }
}

/// Reads the clause that stands at `chars[from..to]`, or finds it malformed.
fn parse_clause(text: &str, chars: &Vec<char>, from: usize, to: usize) -> (parsed: Option<Rule>)
    requires
        chars@ == text@,
        from <= to <= chars.len(),
    ensures
        parsed is Some <==> clause_well_formed(chars@.subrange(from as int, to as int)),
        parsed matches Some(rule) ==> rule@ == parsed_rule(chars@.subrange(from as int, to as int)),
{
    let ghost clause = chars@.subrange(from as int, to as int);
    if to - from < 2 || chars[from] != '[' || chars[to - 1] != ']' {
        return None;
    }
    let lo = from + 1;
    let hi = to - 1;
    let ghost inner = chars@.subrange(lo as int, hi as int);
    assert(inner =~= unwrapped(clause));
    let mut rule = Rule::new();
    let mut pos = lo;
    let ghost mut done: Seq<Seq<char>> = Seq::empty();
    loop
        invariant
            chars@ == text@,
            from <= to <= chars.len(),
            clause == chars@.subrange(from as int, to as int),
            lo <= pos <= hi <= chars.len(),
            inner == chars@.subrange(lo as int, hi as int),
            inner == unwrapped(clause),
            wrapped(clause, '[', ']'),
            split(inner, '.') == done + split(chars@.subrange(pos as int, hi as int), '.'),
            rule@ == rule_of(done),
            forall|k: int| 0 <= k < done.len() ==> literal_well_formed(#[trigger] done[k]),
        decreases hi - pos,
    {
        let end = find(chars, pos, hi, '.');
        let ghost literal = chars@.subrange(pos as int, end as int);
        proof {
            lemma_split_step(chars@, pos as int, end as int, hi as int, '.');
            assert(split(inner, '.')[done.len() as int] == literal);
            assert(done.push(literal).drop_last() =~= done);
        }
        if end - pos >= 2 && chars[pos] == 'n' && chars[pos + 1] == '(' {
            if end - pos < 3 || chars[end - 1] != ')' {
                return None;
            }
            rule.add_negative_clause(String::from_str(text.substring_char(pos + 2, end - 1)));
            assert(chars@.subrange(pos + 2, end - 1) =~= condition_atom(literal));
        } else {
            rule.add_positive_clause(String::from_str(text.substring_char(pos, end)));
        }
        proof {
            done = done.push(literal);
        }
        if end == hi {
            assert(split(inner, '.') =~= done);
            return Some(rule);
        }
        pos = end + 1;
        assert(split(inner, '.') =~= done + split(chars@.subrange(pos as int, hi as int), '.'));
    }
}

/// Parses the text form of a knowledge base, or returns `None` where the text
/// is malformed.
///
/// White space is taken out first. The rules come in written order, each with
/// its body atoms in written order. A clause is not checked to have exactly
/// one bare literal: the last one read is its head, and the head is the empty
/// label where there is none.
pub fn try_parse_kb(kb: &str) -> (parsed: Option<Vec<Rule>>)
    ensures
        parsed is Some <==> kb_well_formed(kb@),
        parsed matches Some(rules) ==> rules.deep_view() == parsed_kb(kb@),
{
    let stripped = strip_whitespace(kb);
    let text = stripped.as_str();
    let chars = chars_of(text);
    let n = chars.len();
    if n < 2 || chars[0] != '[' || chars[n - 1] != ']' {
        return None;
    }
    let hi = n - 1;
    let ghost inner = chars@.subrange(1, hi as int);
    assert(inner =~= unwrapped(text@));
    let mut rules: Vec<Rule> = Vec::new();
    let mut pos: usize = 1;
    let ghost mut done: Seq<Seq<char>> = Seq::empty();
    loop
        invariant
            chars@ == text@,
            text@ == without_whitespace(kb@),
            1 <= pos <= hi <= chars.len(),
            inner == chars@.subrange(1, hi as int),
            inner == unwrapped(text@),
            wrapped(text@, '[', ']'),
            split(inner, ',') == done + split(chars@.subrange(pos as int, hi as int), ','),
            rules.len() == done.len(),
            forall|k: int| 0 <= k < done.len() ==> clause_well_formed(#[trigger] done[k]),
            forall|k: int| 0 <= k < done.len() ==> (#[trigger] rules[k])@ == parsed_rule(done[k]),
        decreases hi - pos,
    {
        let end = find(&chars, pos, hi, ',');
        let ghost clause = chars@.subrange(pos as int, end as int);
        proof {
            lemma_split_step(chars@, pos as int, end as int, hi as int, ',');
            assert(split(inner, ',')[done.len() as int] == clause);
        }
        match parse_clause(text, &chars, pos, end) {
            Some(rule) => {
                rules.push(rule);
            },
            None => {
                return None;
            },
        }
        proof {
            done = done.push(clause);
        }
        if end == hi {
            assert(split(inner, ',') =~= done);
            assert(rules.deep_view() =~= parsed_kb(kb@));
            return Some(rules);
        }
        pos = end + 1;
        assert(split(inner, ',') =~= done + split(chars@.subrange(pos as int, hi as int), ','));
    }
}

/// Parses the text form of a knowledge base that is well formed.
///
/// The rules come in written order, each with its body atoms in written order.
/// A clause is not checked to have exactly one bare literal: the last one read
/// is its head, and the head is the empty label where there is none.
pub fn parse_kb(kb: String) -> (rules: Vec<Rule>)
    requires
        kb_well_formed(kb@),
    ensures
        rules.deep_view() == parsed_kb(kb@),
{
    match try_parse_kb(kb.as_str()) {
        Some(rules) => rules,
        None => unreached(),
    }
}

} // verus!
