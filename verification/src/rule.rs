//! The clause model: one head atom and an ordered body of atoms.

use vstd::prelude::*;
use vstd::string::StringExecFns;

verus! {

/// An atom as the contracts see it: the characters of its label.
pub type Atom = Seq<char>;

/// The mathematical value of a [`Rule`].
pub struct RuleView {
    /// The atom that the clause concludes.
    pub head: Atom,
    /// The atoms that the clause asks for, in the order they were added.
    pub body: Seq<Atom>,
}

/// One implication: the conjunction of the body atoms implies the head atom.
///
/// A rule with an empty body is a unit fact. The body atoms are plain
/// conjuncts; the field names keep the clausal reading in which they are the
/// negative literals and the head is the positive one.
pub struct Rule {
    positive_clause: String,
    negative_clauses: Vec<String>,
}

impl View for Rule {
    type V = RuleView;

    closed spec fn view(&self) -> RuleView {
        RuleView {
            head: self.positive_clause@,
            body: self.negative_clauses.deep_view(),
        }
    }
}

impl Clone for Rule {
    /// A copy with the same head and the same body atoms in the same order.
    fn clone(&self) -> (copy: Rule)
        ensures
            copy@ == self@,
    {
        Rule {
            positive_clause: self.positive_clause.clone(),
            negative_clauses: self.get_negative_clauses(),
        }
    }
}

impl DeepView for Rule {
    type V = RuleView;

    open spec fn deep_view(&self) -> RuleView {
        self@
    }
}

/// The atoms written out with ` ^ ` between them.
pub open spec fn conjunction(atoms: Seq<Atom>) -> Seq<char>
    decreases atoms.len(),
{
    if atoms.len() == 0 {
        Seq::empty()
    } else if atoms.len() == 1 {
        atoms[0]
    } else {
        conjunction(atoms.drop_last()) + " ^ "@ + atoms.last()
    }
}

/// The line that shows a rule: its body as a conjunction, then ` => ` and its
/// head.
pub open spec fn rule_text(rule: RuleView) -> Seq<char> {
    conjunction(rule.body) + " => "@ + rule.head
}

impl Rule {
    /// A rule with an empty head label and no body atoms.
    pub fn new() -> (rule: Rule)
        ensures
            rule@.head == Seq::<char>::empty(),
            rule@.body == Seq::<Atom>::empty(),
    {
        Rule { positive_clause: String::new(), negative_clauses: Vec::new() }
    }

    /// Sets the head atom, replacing whatever head was there.
    pub fn add_positive_clause(&mut self, literal: String)
        ensures
            final(self)@.head == literal@,
            final(self)@.body == old(self)@.body,
    {
        self.positive_clause = literal;
    }

    /// Appends one atom to the end of the body.
    pub fn add_negative_clause(&mut self, literal: String)
        ensures
            final(self)@.head == old(self)@.head,
            final(self)@.body == old(self)@.body.push(literal@),
    {
        self.negative_clauses.push(literal);
    }

    /// A copy of the body atoms, in order.
    pub fn get_negative_clauses(&self) -> (body: Vec<String>)
        ensures
            body.deep_view() == self@.body,
    {
        let body = self.negative_clauses.clone();
        assert(body.deep_view() =~= self.negative_clauses.deep_view());
        body
    }

    /// A copy of the head atom.
    pub fn get_positive_clause(&self) -> (head: String)
        ensures
            head@ == self@.head,
    {
        self.positive_clause.clone()
    }

    /// The line that shows this rule, without a line end: `a ^ b => c`.
    pub fn display(&self) -> (line: String)
        ensures
            line@ == rule_text(self@),
    {
        let ghost body = self@.body;
        let mut line = String::new();
        let mut i: usize = 0;
        while i < self.negative_clauses.len()
            invariant
                i <= self.negative_clauses.len(),
                body == self.negative_clauses.deep_view(),
                line@ == conjunction(body.take(i as int)),
            decreases self.negative_clauses.len() - i,
        {
            proof {
                assert(body.take(i + 1).drop_last() =~= body.take(i as int));
                assert(body.take(i + 1).last() == self.negative_clauses[i as int]@);
            }
            if i != 0 {
                line.append(" ^ ");
            }
            line.append(self.negative_clauses[i].as_str());
            i += 1;
        }
        assert(body.take(i as int) =~= body);
        line.append(" => ");
        line.append(self.positive_clause.as_str());
        line
    }

    /// The head atom, borrowed.
    pub(crate) fn head(&self) -> (head: &String)
        ensures
            head@ == self@.head,
    {
        &self.positive_clause
    }

    /// The body atoms, borrowed.
    pub(crate) fn body(&self) -> (body: &Vec<String>)
        ensures
            body.deep_view() == self@.body,
    {
        &self.negative_clauses
    }
}

} // verus!
