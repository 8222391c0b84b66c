//! What the two solvers have in common.

use vstd::prelude::*;
use crate::acyclic::acyclic;
use crate::acyclic::lemma_acyclic_search_terminates;
use crate::backward::provable;
use crate::backward::search_terminates;
use crate::entail::all_entailed;
use crate::forward::true_atoms;
use crate::rule::Atom;
use crate::rule::RuleView;
use crate::vocabulary::covers;

verus! {

/// On a knowledge base with acyclic head dependencies both solvers give the
/// same verdict for the same goals: backward chaining comes to a verdict, and
/// it is the verdict of forward chaining over a vocabulary that holds every
/// atom mentioned and marks none true at the start.
pub proof fn lemma_solvers_agree(kb: Seq<RuleView>, goals: Seq<Atom>, solved: Map<Atom, bool>)
    requires
        acyclic(kb),
        covers(solved, kb, goals),
        forall|atom: Atom| solved.contains_key(atom) ==> !solved[atom],
    ensures
        search_terminates(kb, goals),
        provable(kb, goals) == all_entailed(kb, true_atoms(solved), goals),
{
    lemma_acyclic_search_terminates(kb, goals);
    assert(true_atoms(solved) =~= Set::<Atom>::empty());
}

} // verus!
