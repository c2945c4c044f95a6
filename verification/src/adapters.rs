//! Direction and monotonicity adapters: generic wrappers that forward to an
//! inner state and transform only the bound values.

use vstd::prelude::*;
use crate::bound::{BoundOrd, Rev, max_spec, max_val};
use crate::state::{State, sum_nat};

verus! {

/// Turns a maximization problem into the minimization form the engine
/// expects: reports the inner upper bound, order-reversed, as the lower
/// bound, and the inner lower bound, order-reversed, as the upper bound.
pub struct Maximize<S: State>(pub S);

impl<S: State> State for Maximize<S> {
    type Rt = Rev<S::Rt>;

    type Problem = S::Problem;

    type Sol = S::Sol;

    open spec fn problem_ok(p: &S::Problem) -> bool {
        S::problem_ok(p)
    }

    open spec fn inv(&self, p: &S::Problem) -> bool {
        self.0.inv(p)
    }

    open spec fn lb_spec(&self, p: &S::Problem) -> Rev<S::Rt> {
        Rev(self.0.ub_spec(p))
    }

    open spec fn ub_spec(&self, p: &S::Problem) -> Rev<S::Rt> {
        Rev(self.0.lb_spec(p))
    }

    open spec fn is_root(&self, p: &S::Problem) -> bool {
        self.0.is_root(p)
    }

    open spec fn is_child_of(&self, parent: &Self, p: &S::Problem) -> bool {
        self.0.is_child_of(&parent.0, p)
    }

    open spec fn is_children_list(&self, r: Seq<Self>, p: &S::Problem) -> bool {
        exists|inner: Seq<S>|
            #[trigger] self.0.is_children_list(inner, p) && r.len() == inner.len() && forall|
                i: int,
            | 0 <= i < r.len() ==> (#[trigger] r[i]).0 == inner[i]
    }

    open spec fn is_leaf(&self, p: &S::Problem) -> bool {
        self.0.is_leaf(p)
    }

    open spec fn pot(&self, p: &S::Problem) -> nat {
        self.0.pot(p)
    }

    proof fn lemma_pot_pos(&self, p: &S::Problem) {
        self.0.lemma_pot_pos(p);
    }

    open spec fn is_target(sol: S::Sol, p: &S::Problem) -> bool {
        S::is_goal(sol, p)
    }

    open spec fn target_value(sol: S::Sol, p: &S::Problem) -> Rev<S::Rt> {
        Rev(S::goal_value(sol, p))
    }

    open spec fn covers(&self, sol: S::Sol, p: &S::Problem) -> bool {
        self.0.covers_goal(sol, p)
    }

    proof fn lemma_root_target(&self, sol: S::Sol, p: &S::Problem) {
        self.0.lemma_root_goal(sol, p);
    }

    proof fn lemma_target_step(&self, kids: Seq<Self>, sol: S::Sol, p: &S::Problem) {
        let inner = choose|inner: Seq<S>|
            #[trigger] self.0.is_children_list(inner, p) && kids.len() == inner.len() && forall|
                i: int,
            | 0 <= i < kids.len() ==> (#[trigger] kids[i]).0 == inner[i];
        assert forall|i: int| 0 <= i < inner.len() implies (#[trigger] inner[i]).inv(p) by {
            assert(kids[i].0 == inner[i]);
            assert(kids[i].inv(p));
        }
        self.0.lemma_goal_step(inner, sol, p);
        if !S::goal_value(sol, p).le_spec(self.0.lb_spec(p)) {
            let i = choose|i: int|
                0 <= i < inner.len() && (#[trigger] inner[i]).covers_goal(sol, p) && S::goal_value(
                    sol,
                    p,
                ).le_spec(inner[i].ub_spec(p));
            assert(kids[i].0 == inner[i]);
            assert(kids[i].covers(sol, p) && kids[i].lb_spec(p).le_spec(
                Self::target_value(sol, p),
            ));
        }
    }

    open spec fn is_goal(sol: S::Sol, p: &S::Problem) -> bool {
        false
    }

    open spec fn goal_value(sol: S::Sol, p: &S::Problem) -> Rev<S::Rt> {
        Rev(S::goal_value(sol, p))
    }

    open spec fn covers_goal(&self, sol: S::Sol, p: &S::Problem) -> bool {
        false
    }

    proof fn lemma_root_goal(&self, sol: S::Sol, p: &S::Problem) {
    }

    proof fn lemma_goal_step(&self, kids: Seq<Self>, sol: S::Sol, p: &S::Problem) {
    }

    fn root(p: &S::Problem) -> (r: Self) {
        Maximize(S::root(p))
    }

    fn lb(&self, p: &S::Problem) -> (r: Rev<S::Rt>) {
        Rev(self.0.ub(p))
    }

    fn ub(&self, p: &S::Problem) -> (r: Rev<S::Rt>) {
        Rev(self.0.lb(p))
    }

    fn children(&self, p: &S::Problem) -> (r: Vec<Self>) {
        let mut inner = self.0.children(p);
        let ghost inner0 = inner@;
        let mut out: Vec<Maximize<S>> = Vec::new();
        while inner.len() > 0
            invariant
                out@.len() + inner@.len() == inner0.len(),
                forall|i: int| 0 <= i < out@.len() ==> (#[trigger] out@[i]).0 == inner0[i],
                forall|i: int| 0 <= i < inner@.len() ==> #[trigger] inner@[i] == inner0[out@.len() + i],
            decreases inner.len(),
        {
            let x = inner.remove(0);
            out.push(Maximize(x));
        }
        proof {
            assert(out@.map_values(|c: Maximize<S>| c.pot(p)) =~= inner0.map_values(
                |c: S| c.pot(p),
            ));
            assert(self.0.is_children_list(inner0, p));
        }
        out
    }

    fn dup(&self, p: &S::Problem) -> (r: Self) {
        Maximize(self.0.dup(p))
    }
}

/// Carries the best (maximum) lower bound seen on the path from the root,
/// and reports that carried value as the lower bound, so the reported lower
/// bound never decreases along any root-to-node path.
pub struct MonotoneLb<S: State>(pub S, pub S::Rt);

impl<S: State> State for MonotoneLb<S> {
    type Rt = S::Rt;

    type Problem = S::Problem;

    type Sol = S::Sol;

    open spec fn problem_ok(p: &S::Problem) -> bool {
        S::problem_ok(p)
    }

    open spec fn inv(&self, p: &S::Problem) -> bool {
        self.0.inv(p) && self.0.lb_spec(p).le_spec(self.1)
    }

    open spec fn lb_spec(&self, p: &S::Problem) -> S::Rt {
        self.1
    }

    open spec fn ub_spec(&self, p: &S::Problem) -> S::Rt {
        self.0.ub_spec(p)
    }

    open spec fn is_root(&self, p: &S::Problem) -> bool {
        self.0.is_root(p) && self.1 == self.0.lb_spec(p)
    }

    open spec fn is_child_of(&self, parent: &Self, p: &S::Problem) -> bool {
        self.0.is_child_of(&parent.0, p) && self.1 == max_spec(parent.1, self.0.lb_spec(p))
    }

    open spec fn is_children_list(&self, r: Seq<Self>, p: &S::Problem) -> bool {
        exists|inner: Seq<S>|
            #[trigger] self.0.is_children_list(inner, p) && r.len() == inner.len() && forall|
                i: int,
            |
                0 <= i < r.len() ==> (#[trigger] r[i]).0 == inner[i] && r[i].1 == max_spec(
                    self.1,
                    inner[i].lb_spec(p),
                )
    }

    open spec fn is_leaf(&self, p: &S::Problem) -> bool {
        self.0.is_leaf(p)
    }

    open spec fn pot(&self, p: &S::Problem) -> nat {
        self.0.pot(p)
    }

    proof fn lemma_pot_pos(&self, p: &S::Problem) {
        self.0.lemma_pot_pos(p);
    }

    open spec fn is_target(sol: S::Sol, p: &S::Problem) -> bool {
        S::is_target(sol, p)
    }

    open spec fn target_value(sol: S::Sol, p: &S::Problem) -> S::Rt {
        S::target_value(sol, p)
    }

    open spec fn covers(&self, sol: S::Sol, p: &S::Problem) -> bool {
        self.0.covers(sol, p)
    }

    proof fn lemma_root_target(&self, sol: S::Sol, p: &S::Problem) {
        self.0.lemma_root_target(sol, p);
    }

    proof fn lemma_target_step(&self, kids: Seq<Self>, sol: S::Sol, p: &S::Problem) {
        let inner = choose|inner: Seq<S>|
            #[trigger] self.0.is_children_list(inner, p) && kids.len() == inner.len() && forall|
                i: int,
            |
                0 <= i < kids.len() ==> (#[trigger] kids[i]).0 == inner[i] && kids[i].1 == max_spec(
                    self.1,
                    inner[i].lb_spec(p),
                );
        assert forall|i: int| 0 <= i < inner.len() implies (#[trigger] inner[i]).inv(p) by {
            assert(kids[i].0 == inner[i]);
            assert(kids[i].inv(p));
        }
        <S::Rt as BoundOrd>::lemma_trans(self.0.lb_spec(p), self.1, S::target_value(sol, p));
        self.0.lemma_target_step(inner, sol, p);
        if !self.0.ub_spec(p).le_spec(S::target_value(sol, p)) {
            let i = choose|i: int|
                0 <= i < inner.len() && (#[trigger] inner[i]).covers(sol, p) && inner[
                    i
                ].lb_spec(p).le_spec(S::target_value(sol, p));
            assert(kids[i].0 == inner[i] && kids[i].1 == max_spec(self.1, inner[i].lb_spec(p)));
            assert(kids[i].covers(sol, p));
            assert(kids[i].lb_spec(p).le_spec(S::target_value(sol, p)));
        }
    }

    open spec fn is_goal(sol: S::Sol, p: &S::Problem) -> bool {
        false
    }

    open spec fn goal_value(sol: S::Sol, p: &S::Problem) -> S::Rt {
        S::goal_value(sol, p)
    }

    open spec fn covers_goal(&self, sol: S::Sol, p: &S::Problem) -> bool {
        false
    }

    proof fn lemma_root_goal(&self, sol: S::Sol, p: &S::Problem) {
    }

    proof fn lemma_goal_step(&self, kids: Seq<Self>, sol: S::Sol, p: &S::Problem) {
    }

    fn root(p: &S::Problem) -> (r: Self) {
        let inner = S::root(p);
        let lb = inner.lb(p);
        proof {
            <S::Rt as BoundOrd>::lemma_total(lb, lb);
        }
        MonotoneLb(inner, lb)
    }

    fn lb(&self, p: &S::Problem) -> (r: S::Rt) {
        self.1
    }

    fn ub(&self, p: &S::Problem) -> (r: S::Rt) {
        self.0.ub(p)
    }

    fn children(&self, p: &S::Problem) -> (r: Vec<Self>) {
        let mut inner = self.0.children(p);
        let ghost inner0 = inner@;
        let mut out: Vec<MonotoneLb<S>> = Vec::new();
        while inner.len() > 0
            invariant
                S::problem_ok(p),
                out@.len() + inner@.len() == inner0.len(),
                forall|i: int|
                    0 <= i < inner0.len() ==> (#[trigger] inner0[i]).inv(p) && inner0[i].is_child_of(
                        &self.0,
                        p,
                    ),
                forall|i: int|
                    0 <= i < out@.len() ==> (#[trigger] out@[i]).0 == inner0[i] && out@[i].1
                        == max_spec(self.1, inner0[i].lb_spec(p)),
                forall|i: int| 0 <= i < inner@.len() ==> #[trigger] inner@[i] == inner0[out@.len() + i],
            decreases inner.len(),
        {
            let x = inner.remove(0);
            let xlb = x.lb(p);
            proof {
                <S::Rt as BoundOrd>::lemma_total(self.1, xlb);
                <S::Rt as BoundOrd>::lemma_total(xlb, xlb);
            }
            out.push(MonotoneLb(x, max_val(self.1, xlb)));
        }
        proof {
            assert(out@.map_values(|c: MonotoneLb<S>| c.pot(p)) =~= inner0.map_values(
                |c: S| c.pot(p),
            ));
            assert(self.0.is_children_list(inner0, p));
            assert forall|i: int| 0 <= i < out@.len() implies (#[trigger] out@[i]).inv(p) by {
                <S::Rt as BoundOrd>::lemma_total(self.1, inner0[i].lb_spec(p));
                <S::Rt as BoundOrd>::lemma_total(inner0[i].lb_spec(p), inner0[i].lb_spec(p));
            }
        }
        out
    }

    fn dup(&self, p: &S::Problem) -> (r: Self) {
        MonotoneLb(self.0.dup(p), self.1)
    }
}

/// After wrapping with `MonotoneLb`, the reported lower bound never
/// decreases from a parent to any of its children: the carried value of a
/// child is the maximum of the parent's carried value and the child's own
/// freshly computed lower bound.
pub proof fn lemma_monotone_lb_child<S: State>(
    child: MonotoneLb<S>,
    parent: MonotoneLb<S>,
    p: &S::Problem,
)
    requires
        child.is_child_of(&parent, p),
    ensures
        parent.lb_spec(p).le_spec(child.lb_spec(p)),
{
    <S::Rt as BoundOrd>::lemma_total(parent.1, child.0.lb_spec(p));
    <S::Rt as BoundOrd>::lemma_total(parent.1, parent.1);
}

} // verus!
