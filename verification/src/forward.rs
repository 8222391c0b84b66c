//! Forward chaining: passes over the clauses that mark heads true in a truth
//! map over a fixed vocabulary, until the goals hold or nothing changes.

use vstd::prelude::*;
use vstd::set_lib::lemma_len_subset;
use crate::entail::all_entailed;
use crate::entail::closed_under;
use crate::entail::entailed;
use crate::entail::fires;
use crate::entail::lemma_base_entailed;
use crate::entail::lemma_entailed_least;
use crate::entail::lemma_head_entailed;
use crate::rule::Atom;
use crate::rule::Rule;
use crate::rule::RuleView;
use crate::solved_map::SolvedMap;
use crate::solved_map::UnknownAtom;
use crate::vocabulary::check_vocabulary;
use crate::vocabulary::covers;
use crate::vocabulary::first_unknown;
use crate::vocabulary::knows_all;
use crate::vocabulary::knows_rules;
use crate::vocabulary::mentioned;

verus! {

/// `atom` is in the vocabulary of `solved` and marked true.
pub open spec fn holds(solved: Map<Atom, bool>, atom: Atom) -> bool {
    solved.contains_key(atom) && solved[atom]
}

/// The atoms that `solved` marks true.
pub open spec fn true_atoms(solved: Map<Atom, bool>) -> Set<Atom> {
    Set::new(|atom: Atom| holds(solved, atom))
}

/// The atoms of the vocabulary that `solved` still marks false.
pub open spec fn false_atoms(solved: Map<Atom, bool>) -> Set<Atom> {
    Set::new(|atom: Atom| solved.contains_key(atom) && !solved[atom])
}

/// Every atom of `atoms` is marked true. The empty list is.
pub open spec fn holds_all(solved: Map<Atom, bool>, atoms: Seq<Atom>) -> bool {
    forall|k: int| 0 <= k < atoms.len() ==> holds(solved, #[trigger] atoms[k])
}

/// The truth map after one clause had its turn: its head is marked true where
/// it was false and every body atom is true; otherwise nothing changes.
pub open spec fn after_turn(rule: RuleView, solved: Map<Atom, bool>) -> Map<Atom, bool> {
    if !holds(solved, rule.head) && holds_all(solved, rule.body) {
        solved.insert(rule.head, true)
    } else {
        solved
    }
}

/// The truth map after the first `turns` clauses had their turn, in listed
/// order, each seeing what the earlier ones marked.
pub open spec fn pass_upto(
    kb: Seq<RuleView>,
    solved: Map<Atom, bool>,
    turns: nat,
) -> Map<Atom, bool>
    decreases turns,
{
    if turns == 0 {
        solved
    } else {
        after_turn(kb[turns - 1], pass_upto(kb, solved, (turns - 1) as nat))
    }
}

/// The truth map after one pass over the whole knowledge base.
pub open spec fn pass(kb: Seq<RuleView>, solved: Map<Atom, bool>) -> Map<Atom, bool> {
    pass_upto(kb, solved, kb.len())
}

/// The truth map after `count` passes.
pub open spec fn passes(kb: Seq<RuleView>, solved: Map<Atom, bool>, count: nat) -> Map<Atom, bool>
    decreases count,
{
    if count == 0 {
        solved
    } else {
        pass(kb, passes(kb, solved, (count - 1) as nat))
    }
}

/// None of the first `turns` clauses can mark its head: the head is true
/// already, or some body atom is not.
pub open spec fn idle(kb: Seq<RuleView>, solved: Map<Atom, bool>, turns: nat) -> bool {
    forall|i: int|
        0 <= i < turns ==> holds(solved, (#[trigger] kb[i]).head) || !holds_all(
            solved,
            kb[i].body,
        )
}

/// Every atom marked true follows from the clauses and the facts in `base`.
pub open spec fn sound(kb: Seq<RuleView>, base: Set<Atom>, solved: Map<Atom, bool>) -> bool {
    forall|atom: Atom| holds(solved, atom) ==> entailed(kb, base, atom)
}

/// Part of a pass keeps the vocabulary and reverts no atom, and it leaves the
/// map as it was exactly when none of the clauses that had their turn could
/// mark its head.
pub proof fn lemma_pass_upto(kb: Seq<RuleView>, solved: Map<Atom, bool>, turns: nat)
    requires
        knows_rules(solved, kb),
        turns <= kb.len(),
    ensures
        pass_upto(kb, solved, turns).dom() == solved.dom(),
        forall|atom: Atom| holds(solved, atom) ==> holds(pass_upto(kb, solved, turns), atom),
        pass_upto(kb, solved, turns) == solved <==> idle(kb, solved, turns),
    decreases turns,
{
    if turns > 0 {
        let before = pass_upto(kb, solved, (turns - 1) as nat);
        let after = pass_upto(kb, solved, turns);
        let rule = kb[turns - 1];
        lemma_pass_upto(kb, solved, (turns - 1) as nat);
        assert(after.dom() =~= solved.dom());
        if after == solved {
            assert(before =~= solved) by {
                assert forall|atom: Atom| before.contains_key(atom)
                    implies before[atom] == solved[atom] by {
                    if before[atom] {
                        assert(holds(before, atom));
                        assert(holds(after, atom));
                    } else if solved[atom] {
                        assert(holds(solved, atom));
                    }
                }
            }
        }
        if idle(kb, solved, turns) {
            assert(before == solved);
            assert(holds(solved, rule.head) || !holds_all(solved, rule.body));
        }
    }
}

/// Part of a pass marks only atoms that follow from the clauses and the base.
pub proof fn lemma_pass_upto_sound(
    kb: Seq<RuleView>,
    base: Set<Atom>,
    solved: Map<Atom, bool>,
    turns: nat,
)
    requires
        turns <= kb.len(),
        sound(kb, base, solved),
    ensures
        sound(kb, base, pass_upto(kb, solved, turns)),
    decreases turns,
{
    if turns > 0 {
        let before = pass_upto(kb, solved, (turns - 1) as nat);
        let rule = kb[turns - 1];
        let after = pass_upto(kb, solved, turns);
        lemma_pass_upto_sound(kb, base, solved, (turns - 1) as nat);
        if !holds(before, rule.head) && holds_all(before, rule.body) {
            assert forall|j: int| 0 <= j < rule.body.len()
                implies entailed(kb, base, #[trigger] rule.body[j]) by {
                assert(holds(before, rule.body[j]));
            }
            lemma_head_entailed(kb, base, turns - 1);
        }
        assert forall|atom: Atom| holds(after, atom) implies entailed(kb, base, atom) by {
            if atom != rule.head {
                assert(holds(before, atom));
            }
        }
    }
}

/// A truth map that a whole pass leaves unchanged marks a set of atoms that is
/// closed under the clauses.
pub proof fn lemma_fixpoint_closed(kb: Seq<RuleView>, solved: Map<Atom, bool>)
    requires
        knows_rules(solved, kb),
        pass(kb, solved) == solved,
    ensures
        closed_under(kb, true_atoms(solved)),
{
    lemma_pass_upto(kb, solved, kb.len());
    assert forall|i: int| 0 <= i < kb.len() && fires(#[trigger] kb[i], true_atoms(solved))
        implies true_atoms(
        solved,
    ).contains(kb[i].head) by {
        assert forall|j: int| 0 <= j < kb[i].body.len()
            implies holds(solved, #[trigger] kb[i].body[j]) by {
            assert(true_atoms(solved).contains(kb[i].body[j]));
        }
        assert(holds_all(solved, kb[i].body));
    }
}

/// A truth map that differs from an earlier one over the same finite
/// vocabulary, and reverts nothing, has strictly fewer false atoms.
proof fn lemma_progress_shrinks(earlier: Map<Atom, bool>, later: Map<Atom, bool>)
    requires
        earlier.dom().finite(),
        later.dom() == earlier.dom(),
        forall|atom: Atom| holds(earlier, atom) ==> holds(later, atom),
        later != earlier,
    ensures
        false_atoms(earlier).finite(),
        false_atoms(later).len() < false_atoms(earlier).len(),
{
    assert(false_atoms(earlier).subset_of(earlier.dom()));
    lemma_len_subset(false_atoms(earlier), earlier.dom());
    if forall|atom: Atom| earlier.contains_key(atom) ==> later[atom] == earlier[atom] {
        assert(later =~= earlier);
    } else {
        let gained = choose|atom: Atom| earlier.contains_key(atom) && later[atom] != earlier[atom];
        assert(!earlier[gained]) by {
            if earlier[gained] {
                assert(holds(earlier, gained));
            }
        }
        assert(false_atoms(later).subset_of(false_atoms(earlier))) by {
            assert forall|atom: Atom| false_atoms(later).contains(atom)
                implies false_atoms(earlier).contains(
                atom,
            ) by {
                if earlier[atom] {
                    assert(holds(earlier, atom));
                }
            }
        }
        false_atoms(later).lemma_subset_not_in_lt(false_atoms(earlier), gained);
    }
}

/// A unit fact is marked true by the first pass of forward chaining, whatever
/// the truth map was before.
pub proof fn lemma_unit_fact_marked(kb: Seq<RuleView>, solved: Map<Atom, bool>, i: int)
    requires
        knows_rules(solved, kb),
        0 <= i < kb.len(),
        kb[i].body.len() == 0,
    ensures
        holds(pass(kb, solved), kb[i].head),
{
    lemma_pass_upto_keeps(kb, solved, (i + 1) as nat, kb.len());
    lemma_pass_upto(kb, solved, i as nat);
    assert(holds(pass_upto(kb, solved, (i + 1) as nat), kb[i].head));
}

/// What is true after some clauses of a pass had their turn is true after
/// more of them had theirs.
proof fn lemma_pass_upto_keeps(kb: Seq<RuleView>, solved: Map<Atom, bool>, fewer: nat, more: nat)
    requires
        knows_rules(solved, kb),
        fewer <= more <= kb.len(),
    ensures
        forall|atom: Atom|
            holds(pass_upto(kb, solved, fewer), atom) ==> holds(pass_upto(kb, solved, more), atom),
    decreases more,
{
    if fewer < more {
        lemma_pass_upto_keeps(kb, solved, fewer, (more - 1) as nat);
        lemma_pass_upto(kb, solved, (more - 1) as nat);
    }
}

/// The vocabulary stays as it was over any number of passes.
pub proof fn lemma_passes_vocabulary(kb: Seq<RuleView>, solved: Map<Atom, bool>, count: nat)
    requires
        knows_rules(solved, kb),
    ensures
        passes(kb, solved, count).dom() == solved.dom(),
        knows_rules(passes(kb, solved, count), kb),
    decreases count,
{
    if count > 0 {
        lemma_passes_vocabulary(kb, solved, (count - 1) as nat);
        lemma_pass_upto(kb, passes(kb, solved, (count - 1) as nat), kb.len());
    }
}

/// Forward chaining is monotone: a pass keeps the vocabulary and every atom
/// that was true, so over any number of passes the set of true atoms never
/// shrinks.
pub proof fn lemma_passes_monotone(
    kb: Seq<RuleView>,
    solved: Map<Atom, bool>,
    fewer: nat,
    more: nat,
)
    requires
        knows_rules(solved, kb),
        fewer <= more,
    ensures
        true_atoms(passes(kb, solved, fewer)).subset_of(true_atoms(passes(kb, solved, more))),
    decreases more,
{
    if fewer < more {
        lemma_passes_monotone(kb, solved, fewer, (more - 1) as nat);
        lemma_passes_vocabulary(kb, solved, (more - 1) as nat);
        lemma_pass_upto(kb, passes(kb, solved, (more - 1) as nat), kb.len());
    }
}

/// While passes still change the truth map, each of them has taken at least
/// one atom out of the false ones.
proof fn lemma_passes_count(kb: Seq<RuleView>, solved: Map<Atom, bool>, count: nat)
    requires
        knows_rules(solved, kb),
        solved.dom().finite(),
        pass(kb, passes(kb, solved, count)) != passes(kb, solved, count),
    ensures
        false_atoms(passes(kb, solved, count + 1)).len() + count + 1 <= false_atoms(solved).len(),
    decreases count,
{
    let now = passes(kb, solved, count);
    lemma_passes_vocabulary(kb, solved, count);
    lemma_pass_upto(kb, now, kb.len());
    lemma_progress_shrinks(now, pass(kb, now));
    if count > 0 {
        lemma_passes_count(kb, solved, (count - 1) as nat);
    }
}

/// Forward chaining needs no more passes than the vocabulary has atoms: after
/// that many, a further pass changes nothing.
pub proof fn lemma_passes_settle(kb: Seq<RuleView>, solved: Map<Atom, bool>)
    requires
        knows_rules(solved, kb),
        solved.dom().finite(),
    ensures
        pass(kb, passes(kb, solved, solved.dom().len())) == passes(kb, solved, solved.dom().len()),
{
    let bound = solved.dom().len();
    assert(false_atoms(solved).subset_of(solved.dom()));
    lemma_len_subset(false_atoms(solved), solved.dom());
    if pass(kb, passes(kb, solved, bound)) != passes(kb, solved, bound) {
        lemma_passes_count(kb, solved, bound);
    }
}

/// Whether every atom of `atoms` is marked true.
fn all_true(atoms: &Vec<String>, solved: &SolvedMap) -> (all: bool)
    requires
        knows_all(solved@, atoms.deep_view()),
    ensures
        all == holds_all(solved@, atoms.deep_view()),
{
    let mut k: usize = 0;
    while k < atoms.len()
        invariant
            k <= atoms.len(),
            knows_all(solved@, atoms.deep_view()),
            forall|j: int| 0 <= j < k ==> holds(solved@, #[trigger] atoms.deep_view()[j]),
        decreases atoms.len() - k,
    {
        assert(atoms.deep_view()[k as int] == atoms[k as int]@);
        if !solved.is_true(atoms[k].as_str()) {
            return false;
        }
        k += 1;
    }
    true
}

/// Makes one pass over the knowledge base, in listed order, and says whether
/// it marked anything.
///
/// A clause whose head is already true is passed over. Otherwise, where every
/// body atom is true (which holds of an empty body), the head is marked true,
/// and later clauses of the same pass see it.
pub fn forward_pass(kb: &Vec<Rule>, solved: &mut SolvedMap) -> (progress: bool)
    requires
        knows_rules(old(solved)@, kb.deep_view()),
    ensures
        final(solved)@ == pass(kb.deep_view(), old(solved)@),
        progress == (final(solved)@ != old(solved)@),
        final(solved)@.dom() == old(solved)@.dom(),
        true_atoms(old(solved)@).subset_of(true_atoms(final(solved)@)),
{
    let ghost clauses = kb.deep_view();
    let ghost start = solved@;
    let mut progress = false;
    let mut i: usize = 0;
    while i < kb.len()
        invariant
            i <= kb.len(),
            clauses == kb.deep_view(),
            knows_rules(start, clauses),
            solved@ == pass_upto(clauses, start, i as nat),
            progress == (solved@ != start),
        decreases kb.len() - i,
    {
        let c = &kb[i];
        proof {
            assert(clauses[i as int] == c@);
            lemma_pass_upto(clauses, start, i as nat);
            assert(knows_all(solved@, c@.body));
        }
        if !solved.is_true(c.head().as_str()) && all_true(c.body(), solved) {
            solved.insert(c.get_positive_clause(), true);
            progress = true;
            proof {
                assert(holds(solved@, c@.head));
                assert(!holds(start, c@.head));
            }
        }
        i += 1;
    }
    proof {
        lemma_pass_upto(clauses, start, kb.len() as nat);
    }
    progress
}

/// Decides by forward chaining whether every goal of `q` follows from the
/// clauses of `kb` and the atoms that `solved` marks true at the start.
///
/// Passes are made until every goal is marked true, which gives `true`, or a
/// pass marks nothing, which gives `false`. The verdict is read off the truth
/// map after at most as many passes as the vocabulary has atoms.
pub fn forward_solve(q: &Vec<String>, kb: &Vec<Rule>, solved: SolvedMap) -> (proved: bool)
    requires
        covers(solved@, kb.deep_view(), q.deep_view()),
    ensures
        proved == all_entailed(kb.deep_view(), true_atoms(solved@), q.deep_view()),
        exists|count: nat|
            count <= solved@.dom().len() && proved == holds_all(
                #[trigger] passes(kb.deep_view(), solved@, count),
                q.deep_view(),
            ) && (proved || pass(kb.deep_view(), passes(kb.deep_view(), solved@, count)) == passes(
                kb.deep_view(),
                solved@,
                count,
            )),
{
    let ghost clauses = kb.deep_view();
    let ghost goals = q.deep_view();
    let ghost start = solved@;
    let ghost base = true_atoms(start);
    let ghost mut count: nat = 0;
    let mut truth = solved;
    proof {
        use_type_invariant(&truth);
        assert(false_atoms(start).subset_of(start.dom()));
        lemma_len_subset(false_atoms(start), start.dom());
        assert forall|atom: Atom| holds(start, atom) implies entailed(clauses, base, atom) by {
            lemma_base_entailed(clauses, base, atom);
        }
    }
    loop
        invariant
            clauses == kb.deep_view(),
            goals == q.deep_view(),
            base == true_atoms(start),
            start == solved@,
            start.dom().finite(),
            truth@ == passes(clauses, start, count),
            truth@.dom() == start.dom(),
            covers(truth@, clauses, goals),
            sound(clauses, base, truth@),
            base.subset_of(true_atoms(truth@)),
            count + false_atoms(truth@).len() <= start.dom().len(),
        decreases false_atoms(truth@).len(),
    {
        if all_true(q, &truth) {
            proof {
                assert forall|k: int| 0 <= k < goals.len()
                    implies entailed(clauses, base, #[trigger] goals[k]) by {
                    assert(holds(truth@, goals[k]));
                }
            }
            return true;
        }
        let ghost before = truth@;
        let progress = forward_pass(kb, &mut truth);
        if !progress {
            proof {
                lemma_fixpoint_closed(clauses, before);
                if all_entailed(clauses, base, goals) {
                    assert forall|k: int| 0 <= k < goals.len()
                        implies holds(before, #[trigger] goals[k]) by {
                        lemma_entailed_least(clauses, base, true_atoms(before), goals[k]);
                    }
                }
            }
            return false;
        }
        proof {
            lemma_pass_upto_sound(clauses, base, before, clauses.len());
            assert forall|atom: Atom| holds(before, atom) implies holds(truth@, atom) by {
                assert(true_atoms(before).contains(atom));
            }
            lemma_progress_shrinks(before, truth@);
            count = count + 1;
        }
    }
}

/// Checks the vocabulary, then decides by forward chaining: the verdict of
/// [`forward_solve`] where the vocabulary of `solved` holds every atom that
/// the goals and the clauses mention, and the first unknown atom where it does
/// not.
pub fn try_forward_solve(q: &Vec<String>, kb: &Vec<Rule>, solved: SolvedMap) -> (outcome: Result<
    bool,
    UnknownAtom,
>)
    ensures
        outcome is Ok <==> covers(solved@, kb.deep_view(), q.deep_view()),
        match outcome {
            Ok(proved) => proved == all_entailed(
                kb.deep_view(),
                true_atoms(solved@),
                q.deep_view(),
            ),
            Err(unknown) => first_unknown(solved@, mentioned(kb.deep_view(), q.deep_view()))
                == Some(unknown.atom@),
        },
{
    match check_vocabulary(q, kb, &solved) {
        Ok(_) => Ok(forward_solve(q, kb, solved)),
        Err(unknown) => Err(unknown),
    }
}

} // verus!
