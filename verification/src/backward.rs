//! Backward chaining: goal-directed, depth-first resolution over the clauses
//! in their listed order.

use vstd::prelude::*;
use crate::entail::all_entailed;
use crate::entail::entailed;
use crate::entail::lemma_entailed_cause;
use crate::entail::lemma_head_entailed;
use crate::rule::Atom;
use crate::rule::Rule;
use crate::rule::RuleView;

verus! {

/// The goal list is provable from the clauses alone: every goal is entailed
/// with no facts given beside the knowledge base.
pub open spec fn provable(kb: Seq<RuleView>, goals: Seq<Atom>) -> bool {
    all_entailed(kb, Set::empty(), goals)
}

/// The goals left after the first goal is resolved with `rule`: the remaining
/// goals, then the body atoms of the rule.
pub open spec fn resolvent(goals: Seq<Atom>, rule: RuleView) -> Seq<Atom> {
    goals.drop_first() + rule.body
}

/// The verdict of the depth-first search for `goals` that tries the clauses
/// from index `from` on, or `None` where it would nest more than `depth`
/// resolutions.
///
/// The first clause whose resolvent is proved wins; a clause whose head is not
/// the first goal is passed over without a nested search.
pub open spec fn search(kb: Seq<RuleView>, goals: Seq<Atom>, from: nat, depth: nat) -> Option<bool>
    decreases depth, kb.len() - from,
{
    if goals.len() == 0 {
        Some(true)
    } else if from >= kb.len() {
        Some(false)
    } else if kb[from as int].head != goals[0] {
        search(kb, goals, from + 1, depth)
    } else if depth == 0 {
        None
    } else {
        match search(kb, resolvent(goals, kb[from as int]), 0, (depth - 1) as nat) {
            Some(true) => Some(true),
            Some(false) => search(kb, goals, from + 1, depth),
            None => None,
        }
    }
}

/// The depth-first search for `goals` comes to a verdict at some depth.
pub open spec fn search_terminates(kb: Seq<RuleView>, goals: Seq<Atom>) -> bool {
    exists|depth: nat| #[trigger] search(kb, goals, 0, depth) is Some
}

/// The least nesting depth at which the search for `goals` comes to a verdict.
pub open spec fn search_depth(kb: Seq<RuleView>, goals: Seq<Atom>) -> nat {
    choose|depth: nat|
        #[trigger] search(kb, goals, 0, depth) is Some && forall|less: nat|
            less < depth ==> !(#[trigger] search(kb, goals, 0, less) is Some)
}

/// The empty goal list is provable on every knowledge base, the empty one
/// included, and the search says so at once.
pub proof fn lemma_empty_goals_proved(kb: Seq<RuleView>)
    ensures
        search(kb, Seq::empty(), 0, 0) == Some(true),
        search_terminates(kb, Seq::empty()),
        provable(kb, Seq::empty()),
{
}

/// Resolving the first goal with a clause that concludes it is sound.
pub proof fn lemma_resolvent_suffices(kb: Seq<RuleView>, goals: Seq<Atom>, i: int)
    requires
        goals.len() > 0,
        0 <= i < kb.len(),
        kb[i].head == goals[0],
        provable(kb, resolvent(goals, kb[i])),
    ensures
        provable(kb, goals),
{
    let rest = goals.drop_first();
    let next = resolvent(goals, kb[i]);
    let none = Set::<Atom>::empty();
    assert forall|j: int| 0 <= j < kb[i].body.len()
        implies entailed(kb, none, #[trigger] kb[i].body[j]) by {
        assert(next[rest.len() + j] == kb[i].body[j]);
    }
    lemma_head_entailed(kb, none, i);
    assert forall|k: int| 0 <= k < goals.len() implies entailed(kb, none, #[trigger] goals[k]) by {
        if k > 0 {
            assert(next[k - 1] == goals[k]);
        }
    }
}

/// Where a non-empty goal list is provable, some clause concludes its first
/// goal and leaves a provable resolvent.
pub proof fn lemma_resolvent_exists(kb: Seq<RuleView>, goals: Seq<Atom>) -> (i: int)
    requires
        goals.len() > 0,
        provable(kb, goals),
    ensures
        0 <= i < kb.len(),
        kb[i].head == goals[0],
        provable(kb, resolvent(goals, kb[i])),
{
    let none = Set::<Atom>::empty();
    assert(entailed(kb, none, goals[0]));
    lemma_entailed_cause(kb, none, goals[0]);
    let i = choose|i: int|
        0 <= i < kb.len() && (#[trigger] kb[i]).head == goals[0] && all_entailed(
            kb,
            none,
            kb[i].body,
        );
    let rest = goals.drop_first();
    let next = resolvent(goals, kb[i]);
    assert forall|k: int| 0 <= k < next.len() implies entailed(kb, none, #[trigger] next[k]) by {
        if k < rest.len() {
            assert(next[k] == goals[k + 1]);
        } else {
            assert(next[k] == kb[i].body[k - rest.len()]);
        }
    }
    i
}

/// Provability obeys the recursive reading of resolution: the empty list is
/// provable, and a non-empty list is provable exactly when some clause
/// concludes its first goal and the remaining goals followed by that clause's
/// body are provable.
pub proof fn lemma_provable_unfolds(kb: Seq<RuleView>, goals: Seq<Atom>)
    ensures
        provable(kb, goals) <==> goals.len() == 0 || exists|i: int|
            0 <= i < kb.len() && (#[trigger] kb[i]).head == goals[0] && provable(
                kb,
                resolvent(goals, kb[i]),
            ),
{
    if goals.len() > 0 {
        if provable(kb, goals) {
            let i = lemma_resolvent_exists(kb, goals);
        }
        if exists|i: int|
            0 <= i < kb.len() && (#[trigger] kb[i]).head == goals[0] && provable(
                kb,
                resolvent(goals, kb[i]),
            ) {
            let i = choose|i: int|
                0 <= i < kb.len() && (#[trigger] kb[i]).head == goals[0] && provable(
                    kb,
                    resolvent(goals, kb[i]),
                );
            lemma_resolvent_suffices(kb, goals, i);
        }
    }
}

/// A verdict reached at one depth is the verdict at every greater depth.
pub proof fn lemma_search_deeper(
    kb: Seq<RuleView>,
    goals: Seq<Atom>,
    from: nat,
    depth: nat,
    more: nat,
)
    requires
        search(kb, goals, from, depth) is Some,
        depth <= more,
    ensures
        search(kb, goals, from, more) == search(kb, goals, from, depth),
    decreases depth, kb.len() - from,
{
    if goals.len() == 0 || from >= kb.len() {
    } else if kb[from as int].head != goals[0] {
        lemma_search_deeper(kb, goals, from + 1, depth, more);
    } else {
        let next = resolvent(goals, kb[from as int]);
        lemma_search_deeper(kb, next, 0, (depth - 1) as nat, (more - 1) as nat);
        if search(kb, next, 0, (depth - 1) as nat) == Some(false) {
            lemma_search_deeper(kb, goals, from + 1, depth, more);
        }
    }
}

/// What a verdict of the search from clause `from` on means: `true` only for
/// a provable goal list, `false` only where no clause from `from` on both
/// concludes the first goal and leaves a provable resolvent.
pub proof fn lemma_search_verdict_from(kb: Seq<RuleView>, goals: Seq<Atom>, from: nat, depth: nat)
    requires
        search(kb, goals, from, depth) is Some,
    ensures
        search(kb, goals, from, depth) == Some(true) ==> provable(kb, goals),
        search(kb, goals, from, depth) == Some(false) ==> goals.len() > 0 && forall|i: int|
            from <= i < kb.len() && (#[trigger] kb[i]).head == goals[0] ==> !provable(
                kb,
                resolvent(goals, kb[i]),
            ),
    decreases depth, kb.len() - from,
{
    if goals.len() == 0 || from >= kb.len() {
    } else if kb[from as int].head != goals[0] {
        lemma_search_verdict_from(kb, goals, from + 1, depth);
    } else {
        let next = resolvent(goals, kb[from as int]);
        lemma_search_verdict(kb, next, (depth - 1) as nat);
        if search(kb, next, 0, (depth - 1) as nat) == Some(true) {
            lemma_resolvent_suffices(kb, goals, from as int);
        } else {
            lemma_search_verdict_from(kb, goals, from + 1, depth);
        }
    }
}

/// A verdict of the whole search is the truth about provability.
pub proof fn lemma_search_verdict(kb: Seq<RuleView>, goals: Seq<Atom>, depth: nat)
    requires
        search(kb, goals, 0, depth) is Some,
    ensures
        search(kb, goals, 0, depth) == Some(provable(kb, goals)),
    decreases depth, kb.len() + 1,
{
    lemma_search_verdict_from(kb, goals, 0, depth);
    if search(kb, goals, 0, depth) == Some(false) && provable(kb, goals) {
        let i = lemma_resolvent_exists(kb, goals);
    }
}

/// A unit fact proves its head: the goal list that holds only the head is
/// provable, and where no earlier clause concludes the same head, the search
/// proves it with that one resolution and nothing nested below it.
pub proof fn lemma_unit_fact_proves(kb: Seq<RuleView>, i: int)
    requires
        0 <= i < kb.len(),
        kb[i].body.len() == 0,
    ensures
        provable(kb, seq![kb[i].head]),
        (forall|k: int| 0 <= k < i ==> (#[trigger] kb[k]).head != kb[i].head) ==> search(
            kb,
            seq![kb[i].head],
            0,
            1,
        ) == Some(true),
{
    let goals = seq![kb[i].head];
    assert(resolvent(goals, kb[i]) =~= Seq::<Atom>::empty());
    lemma_resolvent_suffices(kb, goals, i);
    if forall|k: int| 0 <= k < i ==> (#[trigger] kb[k]).head != kb[i].head {
        lemma_search_skips(kb, goals, 0, i as nat, 1);
        assert(search(kb, resolvent(goals, kb[i]), 0, 0) == Some(true));
    }
}

/// The search passes over clauses that do not conclude the first goal.
proof fn lemma_search_skips(kb: Seq<RuleView>, goals: Seq<Atom>, from: nat, to: nat, depth: nat)
    requires
        goals.len() > 0,
        from <= to <= kb.len(),
        forall|k: int| from <= k < to ==> (#[trigger] kb[k]).head != goals[0],
    ensures
        search(kb, goals, from, depth) == search(kb, goals, to, depth),
    decreases to - from,
{
    if from < to {
        assert(kb[from as int].head != goals[0]);
        lemma_search_skips(kb, goals, from + 1, to, depth);
    }
}

/// The least depth is a depth at which the search ends, and no lesser depth
/// is one.
pub proof fn lemma_search_depth(kb: Seq<RuleView>, goals: Seq<Atom>)
    requires
        search_terminates(kb, goals),
    ensures
        search(kb, goals, 0, search_depth(kb, goals)) is Some,
        forall|depth: nat|
            #[trigger] search(kb, goals, 0, depth) is Some ==> search_depth(kb, goals) <= depth,
{
    let some = choose|depth: nat| #[trigger] search(kb, goals, 0, depth) is Some;
    let least = lemma_least_depth(kb, goals, some);
    assert forall|depth: nat| #[trigger] search(kb, goals, 0, depth) is Some
        implies search_depth(kb, goals) <= depth by {
        if depth < search_depth(kb, goals) {
            assert(!(search(kb, goals, 0, depth) is Some));
        }
    }
}

proof fn lemma_least_depth(kb: Seq<RuleView>, goals: Seq<Atom>, depth: nat) -> (least: nat)
    requires
        search(kb, goals, 0, depth) is Some,
    ensures
        search(kb, goals, 0, least) is Some,
        forall|less: nat| less < least ==> !(#[trigger] search(kb, goals, 0, less) is Some),
    decreases depth,
{
    if exists|less: nat| less < depth && #[trigger] search(kb, goals, 0, less) is Some {
        let less = choose|less: nat| less < depth && #[trigger] search(kb, goals, 0, less) is Some;
        lemma_least_depth(kb, goals, less)
    } else {
        depth
    }
}

/// The goal list that follows `q` when its first goal is resolved with `rule`.
fn next_goals(q: &Vec<String>, rule: &Rule) -> (next: Vec<String>)
    requires
        q.len() > 0,
    ensures
        next.deep_view() == resolvent(q.deep_view(), rule@),
{
    let mut next = q.clone();
    next.remove(0);
    let mut body = rule.get_negative_clauses();
    next.append(&mut body);
    assert(next.deep_view() =~= resolvent(q.deep_view(), rule@));
    next
}

/// Decides by backward chaining whether the goal list `q` is provable from
/// the clauses of `kb`.
///
/// The first goal is resolved with each clause that concludes it, in listed
/// order; the remaining goals followed by that clause's body become the next
/// goal list, and the first clause for which that list is proved wins.
///
/// The search has no guard against clause cycles: on a knowledge base on which
/// it comes to no verdict it would recurse without end, so such a call is
/// ruled out. It comes to a verdict on every knowledge base with acyclic head
/// dependencies ([`crate::acyclic::lemma_acyclic_search_terminates`]), and
/// wherever [`backward_solve_within`] returns `Some`.
pub fn backward_solve(q: &Vec<String>, kb: &Vec<Rule>) -> (proved: bool)
    requires
        search_terminates(kb.deep_view(), q.deep_view()),
    ensures
        proved == provable(kb.deep_view(), q.deep_view()),
        search(kb.deep_view(), q.deep_view(), 0, search_depth(kb.deep_view(), q.deep_view()))
            == Some(proved),
        q.len() == 0 ==> proved,
    decreases search_depth(kb.deep_view(), q.deep_view()),
{
    let ghost goals = q.deep_view();
    let ghost clauses = kb.deep_view();
    let ghost depth = search_depth(clauses, goals);
    proof {
        lemma_search_depth(clauses, goals);
        lemma_search_verdict(clauses, goals, depth);
    }
    if q.len() == 0 {
        return true;
    }
    let mut i: usize = 0;
    while i < kb.len()
        invariant
            i <= kb.len(),
            q.len() > 0,
            goals == q.deep_view(),
            clauses == kb.deep_view(),
            depth == search_depth(clauses, goals),
            search(clauses, goals, 0, depth) == Some(provable(clauses, goals)),
            search(clauses, goals, i as nat, depth) is Some,
            forall|k: int|
                0 <= k < i && (#[trigger] clauses[k]).head == goals[0] ==> !provable(
                    clauses,
                    resolvent(goals, clauses[k]),
                ),
        decreases kb.len() - i,
    {
        let c = &kb[i];
        let new_q = next_goals(q, c);
        assert(clauses[i as int] == c@);
        assert(goals[0] == q[0]@);
        if *c.head() == q[0] {
            proof {
                assert(new_q.deep_view() == resolvent(goals, clauses[i as int]));
                assert(depth > 0);
                assert(search(clauses, new_q.deep_view(), 0, (depth - 1) as nat) is Some);
                lemma_search_depth(clauses, new_q.deep_view());
            }
            if backward_solve(&new_q, kb) {
                proof {
                    lemma_resolvent_suffices(clauses, goals, i as int);
                }
                return true;
            }
            proof {
                lemma_search_verdict(clauses, new_q.deep_view(), (depth - 1) as nat);
            }
        }
        i += 1;
    }
    proof {
        if provable(clauses, goals) {
            let k = lemma_resolvent_exists(clauses, goals);
        }
    }
    false
}

/// Decides as [`backward_solve`] does, within a budget: the verdict of the
/// same search, or `None` where the search would nest more than `depth`
/// resolutions. This one comes back on every knowledge base, cyclic or not.
pub fn backward_solve_within(
    q: &Vec<String>,
    kb: &Vec<Rule>,
    depth: usize,
) -> (verdict: Option<bool>)
    ensures
        verdict == search(kb.deep_view(), q.deep_view(), 0, depth as nat),
        verdict matches Some(proved) ==> proved == provable(kb.deep_view(), q.deep_view()),
    decreases depth,
{
    let ghost goals = q.deep_view();
    let ghost clauses = kb.deep_view();
    if q.len() == 0 {
        return Some(true);
    }
    let mut i: usize = 0;
    while i < kb.len()
        invariant
            i <= kb.len(),
            q.len() > 0,
            goals == q.deep_view(),
            clauses == kb.deep_view(),
            search(clauses, goals, 0, depth as nat) == search(
                clauses,
                goals,
                i as nat,
                depth as nat,
            ),
        decreases kb.len() - i,
    {
        let c = &kb[i];
        assert(clauses[i as int] == c@);
        assert(goals[0] == q[0]@);
        if *c.head() == q[0] {
            if depth == 0 {
                return None;
            }
            let new_q = next_goals(q, c);
            match backward_solve_within(&new_q, kb, depth - 1) {
                Some(true) => {
                    proof {
                        lemma_search_verdict(clauses, goals, depth as nat);
                    }
                    return Some(true);
                },
                Some(false) => {},
                None => {
                    return None;
                },
            }
        }
        i += 1;
    }
    proof {
        lemma_search_verdict(clauses, goals, depth as nat);
    }
    Some(false)
}

} // verus!
