//! The capability contract that any search problem must satisfy: produce a
//! root state, bound a state from below and above, and enumerate child
//! states.  The engine explores the implicit tree these children span.

use vstd::prelude::*;
use crate::bound::BoundOrd;

verus! {

/// Sum of a sequence of naturals.
pub open spec fn sum_nat(s: Seq<nat>) -> nat
    decreases s.len(),
{
    if s.len() == 0 {
        0
    } else {
        sum_nat(s.drop_last()) + s.last()
    }
}

/// Removing one element removes exactly its contribution from the sum.
pub proof fn lemma_sum_nat_remove(s: Seq<nat>, i: int)
    requires
        0 <= i < s.len(),
    ensures
        sum_nat(s) == sum_nat(s.remove(i)) + s[i],
    decreases s.len(),
{
    if i == s.len() - 1 {
        assert(s.remove(i) =~= s.drop_last());
    } else {
        lemma_sum_nat_remove(s.drop_last(), i);
        assert(s.remove(i).drop_last() =~= s.drop_last().remove(i));
        assert(s.remove(i).last() == s.last());
    }
}

/// Inserting one element adds exactly its contribution to the sum.
pub proof fn lemma_sum_nat_insert(s: Seq<nat>, i: int, x: nat)
    requires
        0 <= i <= s.len(),
    ensures
        sum_nat(s.insert(i, x)) == sum_nat(s) + x,
{
    lemma_sum_nat_remove(s.insert(i, x), i);
    assert(s.insert(i, x).remove(i) =~= s);
}

/// The sum of a concatenation is the sum of the parts.
pub proof fn lemma_sum_nat_concat(s: Seq<nat>, t: Seq<nat>)
    ensures
        sum_nat(s + t) == sum_nat(s) + sum_nat(t),
    decreases t.len(),
{
    if t.len() == 0 {
        assert(s + t =~= s);
    } else {
        lemma_sum_nat_concat(s, t.drop_last());
        assert((s + t).drop_last() =~= s + t.drop_last());
    }
}

/// What a branch-and-bound problem must provide, given an immutable problem
/// instance: a root state, a lower and an upper bound per state, and the
/// one-step refinements of a state.  An empty child list marks a leaf.
///
/// The specification side carries a well-formedness invariant, mathematical
/// views of the two bounds, a child relation that the executable `children`
/// is held to, and a termination potential: the children of a state together
/// carry strictly less potential than the state itself, which is what lets
/// the engine's loops terminate.
pub trait State: Sized {
    /// The ordered type of bound values.
    type Rt: BoundOrd;

    /// The immutable problem instance.
    type Problem;

    /// The solutions the search is measured against.  A problem in
    /// minimization form describes them as targets; one in maximization
    /// form describes them as goals, which the direction adapter turns
    /// into targets.  A form that a type does not offer is left empty.
    type Sol;

    /// Well-formedness of the problem instance.
    spec fn problem_ok(p: &Self::Problem) -> bool;

    /// Well-formedness of a state for this instance.
    spec fn inv(&self, p: &Self::Problem) -> bool;

    /// What the executable `lb` returns.
    spec fn lb_spec(&self, p: &Self::Problem) -> Self::Rt;

    /// What the executable `ub` returns.
    spec fn ub_spec(&self, p: &Self::Problem) -> Self::Rt;

    /// Recognizes the initial state (no decisions made).
    spec fn is_root(&self, p: &Self::Problem) -> bool;

    /// Recognizes a one-step refinement of `parent`.
    spec fn is_child_of(&self, parent: &Self, p: &Self::Problem) -> bool;

    /// Recognizes the full child list of this state: the exact refinements,
    /// complete and in order, not merely a selection of them.
    spec fn is_children_list(&self, r: Seq<Self>, p: &Self::Problem) -> bool;

    /// A state with no refinements left.
    spec fn is_leaf(&self, p: &Self::Problem) -> bool;

    /// Termination potential of a state.
    spec fn pot(&self, p: &Self::Problem) -> nat;

    /// Every well-formed state carries some potential.
    proof fn lemma_pot_pos(&self, p: &Self::Problem)
        requires
            self.inv(p),
        ensures
            self.pot(p) >= 1,
    ;

    /// A solution in minimization form.
    spec fn is_target(sol: Self::Sol, p: &Self::Problem) -> bool;

    /// The value of a target, in the bound order the engine minimizes.
    spec fn target_value(sol: Self::Sol, p: &Self::Problem) -> Self::Rt;

    /// The subtree below this state can still account for the target.
    spec fn covers(&self, sol: Self::Sol, p: &Self::Problem) -> bool;

    /// The root covers every target, and its lower bound does not exceed
    /// any target's value.
    proof fn lemma_root_target(&self, sol: Self::Sol, p: &Self::Problem)
        requires
            Self::problem_ok(p),
            self.inv(p),
            self.is_root(p),
            Self::is_target(sol, p),
        ensures
            self.covers(sol, p),
            self.lb_spec(p).le_spec(Self::target_value(sol, p)),
    ;

    /// Coverage descends: a covered target is either already matched by
    /// this state's upper bound, or covered by one of its children whose
    /// lower bound does not exceed the target's value.  With an empty
    /// child list this says the upper bound of a leaf matches every target
    /// it covers — the fact branch-and-bound pruning rests on.
    proof fn lemma_target_step(&self, kids: Seq<Self>, sol: Self::Sol, p: &Self::Problem)
        requires
            Self::problem_ok(p),
            self.inv(p),
            Self::is_target(sol, p),
            self.covers(sol, p),
            self.lb_spec(p).le_spec(Self::target_value(sol, p)),
            self.is_children_list(kids, p),
            forall|i: int| 0 <= i < kids.len() ==> (#[trigger] kids[i]).inv(p),
        ensures
            self.ub_spec(p).le_spec(Self::target_value(sol, p)) || exists|i: int|
                0 <= i < kids.len() && (#[trigger] kids[i]).covers(sol, p)
                    && kids[i].lb_spec(p).le_spec(Self::target_value(sol, p)),
    ;

    /// A solution in maximization form.
    spec fn is_goal(sol: Self::Sol, p: &Self::Problem) -> bool;

    /// The value of a goal, in this type's own bound order.
    spec fn goal_value(sol: Self::Sol, p: &Self::Problem) -> Self::Rt;

    /// The subtree below this state can still account for the goal.
    spec fn covers_goal(&self, sol: Self::Sol, p: &Self::Problem) -> bool;

    /// The root covers every goal, and no goal's value exceeds its upper
    /// bound.
    proof fn lemma_root_goal(&self, sol: Self::Sol, p: &Self::Problem)
        requires
            Self::problem_ok(p),
            self.inv(p),
            self.is_root(p),
            Self::is_goal(sol, p),
        ensures
            self.covers_goal(sol, p),
            Self::goal_value(sol, p).le_spec(self.ub_spec(p)),
    ;

    /// Goal coverage descends, dually to target coverage.
    proof fn lemma_goal_step(&self, kids: Seq<Self>, sol: Self::Sol, p: &Self::Problem)
        requires
            Self::problem_ok(p),
            self.inv(p),
            Self::is_goal(sol, p),
            self.covers_goal(sol, p),
            self.is_children_list(kids, p),
            forall|i: int| 0 <= i < kids.len() ==> (#[trigger] kids[i]).inv(p),
        ensures
            Self::goal_value(sol, p).le_spec(self.lb_spec(p)) || exists|i: int|
                0 <= i < kids.len() && (#[trigger] kids[i]).covers_goal(sol, p)
                    && Self::goal_value(sol, p).le_spec(kids[i].ub_spec(p)),
    ;

    /// The initial state.
    fn root(p: &Self::Problem) -> (r: Self)
        requires
            Self::problem_ok(p),
        ensures
            r.inv(p),
            r.is_root(p),
    ;

    /// A value guaranteed no greater than the best value reachable from
    /// this state.
    fn lb(&self, p: &Self::Problem) -> (r: Self::Rt)
        requires
            self.inv(p),
            Self::problem_ok(p),
        ensures
            r == self.lb_spec(p),
    ;

    /// A value guaranteed no smaller than the best value reachable from
    /// this state.
    fn ub(&self, p: &Self::Problem) -> (r: Self::Rt)
        requires
            self.inv(p),
            Self::problem_ok(p),
        ensures
            r == self.ub_spec(p),
    ;

    /// All valid one-step refinements of this state; empty exactly on a leaf.
    fn children(&self, p: &Self::Problem) -> (r: Vec<Self>)
        requires
            self.inv(p),
            Self::problem_ok(p),
        ensures
            forall|i: int|
                0 <= i < r@.len() ==> (#[trigger] r@[i]).inv(p) && r@[i].is_child_of(self, p),
            (r@.len() == 0) <==> self.is_leaf(p),
            self.is_children_list(r@, p),
            sum_nat(r@.map_values(|c: Self| c.pot(p))) < self.pot(p),
    ;

    /// An independent copy of the state with the same bounds; each branch of
    /// the search mutates its own copy.
    fn dup(&self, p: &Self::Problem) -> (r: Self)
        requires
            self.inv(p),
        ensures
            r.inv(p),
            r.lb_spec(p) == self.lb_spec(p),
            r.ub_spec(p) == self.ub_spec(p),
    ;
}

} // verus!
