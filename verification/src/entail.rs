//! What a knowledge base entails: the least set of atoms that holds the base
//! facts and is closed under the clauses.

use vstd::prelude::*;
use crate::rule::Atom;
use crate::rule::RuleView;

verus! {

/// Every body atom of `rule` is in `known`. A unit fact fires on any set.
pub open spec fn fires(rule: RuleView, known: Set<Atom>) -> bool {
    forall|j: int| 0 <= j < rule.body.len() ==> known.contains(#[trigger] rule.body[j])
}

/// Some clause of `kb` concludes `atom` and fires on `known`.
pub open spec fn concluded(kb: Seq<RuleView>, known: Set<Atom>, atom: Atom) -> bool {
    exists|i: int| 0 <= i < kb.len() && (#[trigger] kb[i]).head == atom && fires(kb[i], known)
}

/// One round of consequences: `known` and every head that some clause
/// concludes from it.
pub open spec fn consequences(kb: Seq<RuleView>, known: Set<Atom>) -> Set<Atom> {
    Set::new(|atom: Atom| known.contains(atom) || concluded(kb, known, atom))
}

/// The atoms reached from `base` in at most `rounds` rounds of consequences.
pub open spec fn reached(kb: Seq<RuleView>, base: Set<Atom>, rounds: nat) -> Set<Atom>
    decreases rounds,
{
    if rounds == 0 {
        base
    } else {
        consequences(kb, reached(kb, base, (rounds - 1) as nat))
    }
}

/// `atom` follows from the clauses of `kb` and the facts in `base`: it is
/// reached after finitely many rounds.
pub open spec fn entailed(kb: Seq<RuleView>, base: Set<Atom>, atom: Atom) -> bool {
    exists|rounds: nat| (#[trigger] reached(kb, base, rounds)).contains(atom)
}

/// Every atom of `goals` is entailed. The empty list is.
pub open spec fn all_entailed(kb: Seq<RuleView>, base: Set<Atom>, goals: Seq<Atom>) -> bool {
    forall|k: int| 0 <= k < goals.len() ==> entailed(kb, base, #[trigger] goals[k])
}

/// `known` is closed under `kb`: no clause concludes anything new from it.
pub open spec fn closed_under(kb: Seq<RuleView>, known: Set<Atom>) -> bool {
    forall|i: int|
        0 <= i < kb.len() && fires(#[trigger] kb[i], known) ==> known.contains(kb[i].head)
}

/// More rounds reach no fewer atoms.
pub proof fn lemma_reached_grows(kb: Seq<RuleView>, base: Set<Atom>, few: nat, many: nat)
    requires
        few <= many,
    ensures
        reached(kb, base, few).subset_of(reached(kb, base, many)),
    decreases many,
{
    if few < many {
        lemma_reached_grows(kb, base, few, (many - 1) as nat);
    }
}

/// Base facts are entailed.
pub proof fn lemma_base_entailed(kb: Seq<RuleView>, base: Set<Atom>, atom: Atom)
    requires
        base.contains(atom),
    ensures
        entailed(kb, base, atom),
{
    assert(reached(kb, base, 0).contains(atom));
}

/// Finitely many entailed atoms are all reached within one common number of
/// rounds.
proof fn lemma_common_rounds(kb: Seq<RuleView>, base: Set<Atom>, atoms: Seq<Atom>) -> (rounds:
    nat)
    requires
        all_entailed(kb, base, atoms),
    ensures
        forall|j: int|
            0 <= j < atoms.len() ==> reached(kb, base, rounds).contains(#[trigger] atoms[j]),
    decreases atoms.len(),
{
    if atoms.len() == 0 {
        0
    } else {
        let front = atoms.drop_last();
        assert forall|k: int| 0 <= k < front.len() implies entailed(
            kb,
            base,
            #[trigger] front[k],
        ) by {
            assert(front[k] == atoms[k]);
        }
        let before = lemma_common_rounds(kb, base, front);
        let last = atoms.last();
        assert(entailed(kb, base, atoms[atoms.len() - 1]));
        let own = choose|r: nat| (#[trigger] reached(kb, base, r)).contains(last);
        let rounds = if before <= own { own } else { before };
        lemma_reached_grows(kb, base, before, rounds);
        lemma_reached_grows(kb, base, own, rounds);
        assert forall|j: int| 0 <= j < atoms.len() implies reached(kb, base, rounds).contains(
            #[trigger] atoms[j],
        ) by {
            if j < front.len() {
                assert(atoms[j] == front[j]);
            }
        }
        rounds
    }
}

/// Modus ponens: where every body atom of a clause is entailed, so is its head.
pub proof fn lemma_head_entailed(kb: Seq<RuleView>, base: Set<Atom>, i: int)
    requires
        0 <= i < kb.len(),
        all_entailed(kb, base, kb[i].body),
    ensures
        entailed(kb, base, kb[i].head),
{
    let rounds = lemma_common_rounds(kb, base, kb[i].body);
    assert(fires(kb[i], reached(kb, base, rounds)));
    assert(reached(kb, base, rounds + 1).contains(kb[i].head));
}

/// An entailed atom is a base fact, or the head of a clause whose body atoms
/// are all entailed.
pub proof fn lemma_entailed_cause(kb: Seq<RuleView>, base: Set<Atom>, atom: Atom)
    requires
        entailed(kb, base, atom),
    ensures
        base.contains(atom) || exists|i: int|
            0 <= i < kb.len() && (#[trigger] kb[i]).head == atom && all_entailed(
                kb,
                base,
                kb[i].body,
            ),
{
    let rounds = choose|r: nat| (#[trigger] reached(kb, base, r)).contains(atom);
    lemma_reached_cause(kb, base, atom, rounds);
}

proof fn lemma_reached_cause(kb: Seq<RuleView>, base: Set<Atom>, atom: Atom, rounds: nat)
    requires
        reached(kb, base, rounds).contains(atom),
    ensures
        base.contains(atom) || exists|i: int|
            0 <= i < kb.len() && (#[trigger] kb[i]).head == atom && all_entailed(
                kb,
                base,
                kb[i].body,
            ),
    decreases rounds,
{
    if rounds > 0 {
        let before = reached(kb, base, (rounds - 1) as nat);
        if before.contains(atom) {
            lemma_reached_cause(kb, base, atom, (rounds - 1) as nat);
        } else {
            let i = choose|i: int|
                0 <= i < kb.len() && (#[trigger] kb[i]).head == atom && fires(kb[i], before);
            assert forall|j: int| 0 <= j < kb[i].body.len() implies entailed(
                kb,
                base,
                #[trigger] kb[i].body[j],
            ) by {
                assert(before.contains(kb[i].body[j]));
            }
        }
    }
}

/// The entailed atoms are the least closed set over the base: every closed
/// set that holds the base holds them all.
pub proof fn lemma_entailed_least(
    kb: Seq<RuleView>,
    base: Set<Atom>,
    known: Set<Atom>,
    atom: Atom,
)
    requires
        base.subset_of(known),
        closed_under(kb, known),
        entailed(kb, base, atom),
    ensures
        known.contains(atom),
{
    let rounds = choose|r: nat| (#[trigger] reached(kb, base, r)).contains(atom);
    lemma_reached_within(kb, base, known, rounds);
}

proof fn lemma_reached_within(
    kb: Seq<RuleView>,
    base: Set<Atom>,
    known: Set<Atom>,
    rounds: nat,
)
    requires
        base.subset_of(known),
        closed_under(kb, known),
    ensures
        reached(kb, base, rounds).subset_of(known),
    decreases rounds,
{
    if rounds > 0 {
        let before = reached(kb, base, (rounds - 1) as nat);
        lemma_reached_within(kb, base, known, (rounds - 1) as nat);
        assert forall|a: Atom| reached(kb, base, rounds).contains(a) implies known.contains(a) by {
            if !before.contains(a) {
                let i = choose|i: int|
                    0 <= i < kb.len() && (#[trigger] kb[i]).head == a && fires(kb[i], before);
                assert(fires(kb[i], known));
            }
        }
    }
}

} // verus!
