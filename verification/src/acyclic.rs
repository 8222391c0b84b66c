//! Knowledge bases with acyclic head dependencies, on which the depth-first
//! search of backward chaining always comes to a verdict.

use vstd::prelude::*;
use crate::backward::lemma_search_deeper;
use crate::backward::resolvent;
use crate::backward::search;
use crate::backward::search_terminates;
use crate::rule::Atom;
use crate::rule::RuleView;

verus! {

/// `rank` orders the atoms so that every body atom of every clause ranks
/// strictly below the head of that clause.
pub open spec fn ranked_by(kb: Seq<RuleView>, rank: spec_fn(Atom) -> nat) -> bool {
    forall|i: int, j: int|
        0 <= i < kb.len() && 0 <= j < kb[i].body.len() ==> rank(#[trigger] kb[i].body[j]) < rank(
            kb[i].head,
        )
}

/// No atom depends on itself through the clauses: the heads can be ranked
/// above their body atoms.
pub open spec fn acyclic(kb: Seq<RuleView>) -> bool {
    exists|rank: spec_fn(Atom) -> nat| ranked_by(kb, rank)
}

/// One more than the length of the longest body in `kb`.
pub open spec fn breadth(kb: Seq<RuleView>) -> nat
    decreases kb.len(),
{
    if kb.len() == 0 {
        1
    } else {
        let rest = breadth(kb.drop_last());
        if kb.last().body.len() < rest {
            rest
        } else {
            kb.last().body.len() + 1
        }
    }
}

/// `base` to the power `rank`.
pub open spec fn weight(base: nat, rank: nat) -> nat
    decreases rank,
{
    if rank == 0 {
        1
    } else {
        base * weight(base, (rank - 1) as nat)
    }
}

/// The summed weight of the goals: a bound on the nesting of the search for
/// them.
pub open spec fn load(goals: Seq<Atom>, base: nat, rank: spec_fn(Atom) -> nat) -> nat
    decreases goals.len(),
{
    if goals.len() == 0 {
        0
    } else {
        weight(base, rank(goals[0])) + load(goals.drop_first(), base, rank)
    }
}

proof fn lemma_breadth(kb: Seq<RuleView>, i: int)
    requires
        0 <= i < kb.len(),
    ensures
        kb[i].body.len() < breadth(kb),
    decreases kb.len(),
{
    if i < kb.len() - 1 {
        lemma_breadth(kb.drop_last(), i);
    }
}

proof fn lemma_weight_grows(base: nat, low: nat, high: nat)
    requires
        base >= 1,
        low <= high,
    ensures
        1 <= weight(base, low) <= weight(base, high),
    decreases high,
{
    if low < high {
        lemma_weight_grows(base, low, (high - 1) as nat);
        let below = weight(base, (high - 1) as nat);
        assert(below <= base * below) by (nonlinear_arith)
            requires
                base >= 1,
                below >= 0,
        ;
    } else if high > 0 {
        lemma_weight_grows(base, (low - 1) as nat, (high - 1) as nat);
        let below = weight(base, (high - 1) as nat);
        assert(1 <= base * below) by (nonlinear_arith)
            requires
                base >= 1,
                below >= 1,
        ;
    }
}

proof fn lemma_load_concat(front: Seq<Atom>, back: Seq<Atom>, base: nat, rank: spec_fn(Atom) -> nat)
    ensures
        load(front + back, base, rank) == load(front, base, rank) + load(back, base, rank),
    decreases front.len(),
{
    if front.len() == 0 {
        assert(front + back =~= back);
    } else {
        assert((front + back).drop_first() =~= front.drop_first() + back);
        lemma_load_concat(front.drop_first(), back, base, rank);
    }
}

/// Atoms that all rank below `above` weigh together at most their number
/// times the weight of the rank just below.
proof fn lemma_load_below(atoms: Seq<Atom>, base: nat, rank: spec_fn(Atom) -> nat, above: nat)
    requires
        base >= 1,
        forall|j: int| 0 <= j < atoms.len() ==> rank(#[trigger] atoms[j]) < above,
    ensures
        load(atoms, base, rank) <= atoms.len() * weight(base, (above - 1) as nat),
    decreases atoms.len(),
{
    let unit = weight(base, (above - 1) as nat);
    if atoms.len() > 0 {
        let rest = atoms.drop_first();
        assert forall|j: int| 0 <= j < rest.len() implies rank(#[trigger] rest[j]) < above by {
            assert(rest[j] == atoms[j + 1]);
        }
        lemma_load_below(rest, base, rank, above);
        assert(rank(atoms[0]) < above);
        lemma_weight_grows(base, rank(atoms[0]), (above - 1) as nat);
        assert(atoms.len() * unit == unit + rest.len() * unit) by (nonlinear_arith)
            requires
                atoms.len() == rest.len() + 1,
        ;
    }
}

/// Resolving the first goal with a clause of a ranked knowledge base lowers
/// the load.
proof fn lemma_resolvent_lighter(
    kb: Seq<RuleView>,
    goals: Seq<Atom>,
    i: int,
    rank: spec_fn(Atom) -> nat,
)
    requires
        ranked_by(kb, rank),
        goals.len() > 0,
        0 <= i < kb.len(),
        kb[i].head == goals[0],
    ensures
        load(resolvent(goals, kb[i]), breadth(kb), rank) < load(goals, breadth(kb), rank),
{
    let base = breadth(kb);
    let body = kb[i].body;
    let top = rank(kb[i].head);
    lemma_breadth(kb, i);
    lemma_load_concat(goals.drop_first(), body, base, rank);
    lemma_weight_grows(base, 0, top);
    if body.len() > 0 {
        assert(rank(kb[i].body[0]) < top);
        assert forall|j: int| 0 <= j < body.len() implies rank(#[trigger] body[j]) < top by {
            assert(rank(kb[i].body[j]) < rank(kb[i].head));
        }
        lemma_load_below(body, base, rank, top);
        let unit = weight(base, (top - 1) as nat);
        lemma_weight_grows(base, 0, (top - 1) as nat);
        assert(body.len() * unit < base * unit) by (nonlinear_arith)
            requires
                body.len() < base,
                unit >= 1,
        ;
    } else {
        assert(load(body, base, rank) == 0);
    }
}

/// On a ranked knowledge base the search for `goals` nests no deeper than
/// their load.
proof fn lemma_ranked_search_ends(
    kb: Seq<RuleView>,
    goals: Seq<Atom>,
    from: nat,
    rank: spec_fn(Atom) -> nat,
)
    requires
        ranked_by(kb, rank),
    ensures
        search(kb, goals, from, load(goals, breadth(kb), rank)) is Some,
    decreases load(goals, breadth(kb), rank), kb.len() - from,
{
    let depth = load(goals, breadth(kb), rank);
    if goals.len() == 0 || from >= kb.len() {
    } else if kb[from as int].head != goals[0] {
        lemma_ranked_search_ends(kb, goals, from + 1, rank);
    } else {
        let next = resolvent(goals, kb[from as int]);
        lemma_resolvent_lighter(kb, goals, from as int, rank);
        lemma_ranked_search_ends(kb, next, 0, rank);
        lemma_search_deeper(kb, next, 0, load(next, breadth(kb), rank), (depth - 1) as nat);
        lemma_ranked_search_ends(kb, goals, from + 1, rank);
    }
}

/// On a knowledge base with acyclic head dependencies backward chaining comes
/// to a verdict for every goal list.
pub proof fn lemma_acyclic_search_terminates(kb: Seq<RuleView>, goals: Seq<Atom>)
    requires
        acyclic(kb),
    ensures
        search_terminates(kb, goals),
{
    let rank = choose|rank: spec_fn(Atom) -> nat| ranked_by(kb, rank);
    lemma_ranked_search_ends(kb, goals, 0, rank);
}

} // verus!
