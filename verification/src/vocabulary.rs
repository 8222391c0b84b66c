//! The closed vocabulary: which atoms a truth map knows, and the check that
//! it knows every atom that the goals and the clauses mention.

use vstd::prelude::*;
use crate::rule::Atom;
use crate::rule::Rule;
use crate::rule::RuleView;
use crate::solved_map::SolvedMap;
use crate::solved_map::UnknownAtom;

verus! {

/// Every atom of `atoms` is in the vocabulary of `solved`.
pub open spec fn knows_all(solved: Map<Atom, bool>, atoms: Seq<Atom>) -> bool {
    forall|k: int| 0 <= k < atoms.len() ==> solved.contains_key(#[trigger] atoms[k])
}

/// The head and the body atoms of every clause are in the vocabulary.
pub open spec fn knows_rules(solved: Map<Atom, bool>, kb: Seq<RuleView>) -> bool {
    forall|i: int|
        0 <= i < kb.len() ==> solved.contains_key((#[trigger] kb[i]).head) && knows_all(
            solved,
            kb[i].body,
        )
}

/// Every atom that the clauses or the goals mention is in the vocabulary.
pub open spec fn covers(solved: Map<Atom, bool>, kb: Seq<RuleView>, goals: Seq<Atom>) -> bool {
    knows_rules(solved, kb) && knows_all(solved, goals)
}

/// The atoms of the clauses, clause by clause: the head, then the body atoms.
pub open spec fn rule_atoms(kb: Seq<RuleView>) -> Seq<Atom>
    decreases kb.len(),
{
    if kb.len() == 0 {
        Seq::empty()
    } else {
        rule_atoms(kb.drop_last()) + seq![kb.last().head] + kb.last().body
    }
}

/// Every atom that is mentioned, in the order of checking: the goals, then
/// the atoms of the clauses.
pub open spec fn mentioned(kb: Seq<RuleView>, goals: Seq<Atom>) -> Seq<Atom> {
    goals + rule_atoms(kb)
}

/// The first atom of `atoms` that is not in the vocabulary of `solved`.
pub open spec fn first_unknown(solved: Map<Atom, bool>, atoms: Seq<Atom>) -> Option<Atom>
    decreases atoms.len(),
{
    if atoms.len() == 0 {
        None
    } else {
        match first_unknown(solved, atoms.drop_last()) {
            Some(atom) => Some(atom),
            None => if solved.contains_key(atoms.last()) {
                None
            } else {
                Some(atoms.last())
            },
        }
    }
}

/// There is no first unknown atom exactly when every atom is known.
pub proof fn lemma_first_unknown(solved: Map<Atom, bool>, atoms: Seq<Atom>)
    ensures
        first_unknown(solved, atoms) is None <==> knows_all(solved, atoms),
        first_unknown(solved, atoms) matches Some(atom) ==> {
            &&& !solved.contains_key(atom)
            &&& atoms.contains(atom)
        },
    decreases atoms.len(),
{
    if atoms.len() > 0 {
        let front = atoms.drop_last();
        lemma_first_unknown(solved, front);
        if first_unknown(solved, front) is None {
            assert forall|k: int| 0 <= k < atoms.len() - 1
                implies solved.contains_key(#[trigger] atoms[k]) by {
                assert(front[k] == atoms[k]);
            }
            if !solved.contains_key(atoms.last()) {
                assert(atoms[atoms.len() - 1] == atoms.last());
            }
        } else {
            let atom = first_unknown(solved, front)->0;
            let k = choose|k: int| 0 <= k < front.len() && front[k] == atom;
            assert(atoms[k] == atom);
        }
    }
}

/// The first unknown atom of two lists in a row is that of the first list, or
/// that of the second where the first has none.
proof fn lemma_first_unknown_concat(solved: Map<Atom, bool>, front: Seq<Atom>, back: Seq<Atom>)
    ensures
        first_unknown(solved, front + back) == match first_unknown(solved, front) {
            Some(atom) => Some(atom),
            None => first_unknown(solved, back),
        },
    decreases back.len(),
{
    if back.len() == 0 {
        assert(front + back =~= front);
    } else {
        assert((front + back).drop_last() =~= front + back.drop_last());
        lemma_first_unknown_concat(solved, front, back.drop_last());
    }
}

/// The atoms of the clauses are those of the first `i` clauses, then those of
/// the others.
proof fn lemma_rule_atoms_split(kb: Seq<RuleView>, i: int)
    requires
        0 <= i <= kb.len(),
    ensures
        rule_atoms(kb) == rule_atoms(kb.take(i)) + rule_atoms(kb.skip(i)),
    decreases kb.len(),
{
    if i == kb.len() {
        assert(kb.take(i) =~= kb);
        assert(rule_atoms(kb.skip(i)) =~= Seq::<Atom>::empty());
        assert(rule_atoms(kb) =~= rule_atoms(kb.take(i)) + rule_atoms(kb.skip(i)));
    } else {
        let front = kb.drop_last();
        lemma_rule_atoms_split(front, i);
        assert(front.take(i) =~= kb.take(i));
        assert(front.skip(i) =~= kb.skip(i).drop_last());
        assert(kb.skip(i).last() == kb.last());
        assert(rule_atoms(kb) =~= rule_atoms(kb.take(i)) + rule_atoms(kb.skip(i)));
    }
}

/// The atoms of the clauses are all known exactly when every clause has a
/// known head and known body atoms.
proof fn lemma_rule_atoms_known(solved: Map<Atom, bool>, kb: Seq<RuleView>)
    ensures
        knows_all(solved, rule_atoms(kb)) <==> knows_rules(solved, kb),
    decreases kb.len(),
{
    if kb.len() > 0 {
        let front = kb.drop_last();
        let last = kb.last();
        let before = rule_atoms(front);
        let all = rule_atoms(kb);
        lemma_rule_atoms_known(solved, front);
        if knows_all(solved, all) {
            assert forall|k: int| 0 <= k < before.len()
                implies solved.contains_key(#[trigger] before[k]) by {
                assert(all[k] == before[k]);
            }
            assert forall|i: int| 0 <= i < kb.len()
                implies solved.contains_key((#[trigger] kb[i]).head)
                && knows_all(solved, kb[i].body) by {
                if i < front.len() {
                    assert(front[i] == kb[i]);
                } else {
                    assert(all[before.len() as int] == last.head);
                    assert forall|j: int| 0 <= j < last.body.len() implies solved.contains_key(
                        #[trigger] last.body[j],
                    ) by {
                        assert(all[before.len() + 1 + j] == last.body[j]);
                    }
                }
            }
        }
        if knows_rules(solved, kb) {
            assert forall|i: int| 0 <= i < front.len()
                implies solved.contains_key((#[trigger] front[i]).head)
                && knows_all(solved, front[i].body) by {
                assert(front[i] == kb[i]);
            }
            assert(solved.contains_key(kb[kb.len() - 1].head));
            assert(knows_all(solved, kb[kb.len() - 1].body));
            assert forall|k: int| 0 <= k < all.len()
                implies solved.contains_key(#[trigger] all[k]) by {
                if k < before.len() {
                    assert(all[k] == before[k]);
                } else if k > before.len() {
                    assert(all[k] == last.body[k - before.len() - 1]);
                }
            }
        }
    }
}

/// The vocabulary covers the goals and the clauses exactly when none of the
/// atoms they mention is unknown.
pub proof fn lemma_covers_mentioned(solved: Map<Atom, bool>, kb: Seq<RuleView>, goals: Seq<Atom>)
    ensures
        covers(solved, kb, goals) <==> first_unknown(solved, mentioned(kb, goals)) is None,
{
    lemma_first_unknown(solved, goals);
    lemma_first_unknown(solved, rule_atoms(kb));
    lemma_first_unknown_concat(solved, goals, rule_atoms(kb));
    lemma_rule_atoms_known(solved, kb);
}

/// Looks for the first atom of `atoms` that the vocabulary lacks.
fn check_atoms(atoms: &Vec<String>, solved: &SolvedMap) -> (checked: Result<(), UnknownAtom>)
    ensures
        match checked {
            Ok(_) => first_unknown(solved@, atoms.deep_view()) is None,
            Err(unknown) => first_unknown(solved@, atoms.deep_view()) == Some(unknown.atom@),
        },
{
    let ghost labels = atoms.deep_view();
    let mut k: usize = 0;
    while k < atoms.len()
        invariant
            k <= atoms.len(),
            labels == atoms.deep_view(),
            first_unknown(solved@, labels.take(k as int)) is None,
        decreases atoms.len() - k,
    {
        proof {
            assert(labels[k as int] == atoms[k as int]@);
            assert(labels.take(k + 1).drop_last() =~= labels.take(k as int));
        }
        match solved.lookup(atoms[k].as_str()) {
            Ok(_) => {},
            Err(unknown) => {
                proof {
                    assert(labels =~= labels.take(k + 1) + labels.skip(k + 1));
                    lemma_first_unknown_concat(solved@, labels.take(k + 1), labels.skip(k + 1));
                }
                return Err(unknown);
            },
        }
        k += 1;
    }
    assert(labels.take(k as int) =~= labels);
    Ok(())
}

/// Checks that the vocabulary of `solved` holds every atom that the goals and
/// the clauses mention. Where it does not, the first unknown atom is handed
/// back: the goals are checked first, then each clause in listed order, its
/// head before its body atoms.
pub fn check_vocabulary(q: &Vec<String>, kb: &Vec<Rule>, solved: &SolvedMap) -> (checked: Result<
    (),
    UnknownAtom,
>)
    ensures
        checked is Ok <==> covers(solved@, kb.deep_view(), q.deep_view()),
        checked matches Err(unknown) ==> first_unknown(
            solved@,
            mentioned(kb.deep_view(), q.deep_view()),
        ) == Some(unknown.atom@),
{
    let ghost goals = q.deep_view();
    let ghost clauses = kb.deep_view();
    proof {
        lemma_covers_mentioned(solved@, clauses, goals);
    }
    match check_atoms(q, solved) {
        Ok(_) => {},
        Err(unknown) => {
            proof {
                lemma_first_unknown_concat(solved@, goals, rule_atoms(clauses));
            }
            return Err(unknown);
        },
    }
    let mut i: usize = 0;
    assert(goals + rule_atoms(clauses.take(0)) =~= goals);
    while i < kb.len()
        invariant
            i <= kb.len(),
            goals == q.deep_view(),
            clauses == kb.deep_view(),
            covers(solved@, clauses, goals) <==> first_unknown(
                solved@,
                mentioned(clauses, goals),
            ) is None,
            first_unknown(solved@, goals + rule_atoms(clauses.take(i as int))) is None,
        decreases kb.len() - i,
    {
        let c = &kb[i];
        let ghost seen = goals + rule_atoms(clauses.take(i as int));
        let ghost rest = rule_atoms(clauses.skip(i + 1));
        proof {
            assert(clauses[i as int] == c@);
            assert(clauses.take(i + 1).drop_last() =~= clauses.take(i as int));
            assert(clauses.take(i + 1).last() == c@);
            lemma_rule_atoms_split(clauses, i + 1);
            assert(mentioned(clauses, goals) =~= (seen + seq![c@.head]) + (c@.body + rest));
            assert(mentioned(clauses, goals) =~= (seen + seq![c@.head] + c@.body) + rest);
            assert((seen + seq![c@.head]).drop_last() =~= seen);
        }
        match solved.lookup(c.head().as_str()) {
            Ok(_) => {},
            Err(unknown) => {
                proof {
                    lemma_first_unknown_concat(solved@, seen + seq![c@.head], c@.body + rest);
                }
                return Err(unknown);
            },
        }
        match check_atoms(c.body(), solved) {
            Ok(_) => {},
            Err(unknown) => {
                proof {
                    lemma_first_unknown_concat(solved@, seen + seq![c@.head], c@.body);
                    lemma_first_unknown_concat(solved@, seen + seq![c@.head] + c@.body, rest);
                }
                return Err(unknown);
            },
        }
        proof {
            lemma_first_unknown_concat(solved@, seen + seq![c@.head], c@.body);
            assert(goals + rule_atoms(clauses.take(i + 1)) =~= seen + seq![c@.head] + c@.body);
        }
        i += 1;
    }
    assert(clauses.take(i as int) =~= clauses);
    Ok(())
}

} // verus!
