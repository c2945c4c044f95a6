//! The generic two-phase branch-and-bound driver: depth-first to quickly
//! obtain a good incumbent, then best-first to close the gap to optimality.

use vstd::prelude::*;
use crate::bound::{BoundOrd, lt, lt_spec};
use crate::state::{State, sum_nat, lemma_sum_nat_remove, lemma_sum_nat_concat};

verus! {

/// A frontier entry: a state paired with its bound tuple, used for ordering
/// and pruning.
struct Node<S: State> {
    lb: S::Rt,
    ub: S::Rt,
    st: S,
}

/// A well-formed frontier entry: the stored bounds are the state's bounds.
spec fn node_ok<S: State>(n: Node<S>, p: &S::Problem) -> bool {
    &&& n.st.inv(p)
    &&& n.lb == n.st.lb_spec(p)
    &&& n.ub == n.st.ub_spec(p)
}

/// The potentials of the states of a frontier.
spec fn pots<S: State>(s: Seq<Node<S>>, p: &S::Problem) -> Seq<nat> {
    s.map_values(|n: Node<S>| n.st.pot(p))
}

/// The potentials of a sequence of bare states.
spec fn spots<S: State>(s: Seq<S>, p: &S::Problem) -> Seq<nat> {
    s.map_values(|c: S| c.pot(p))
}

/// Ascending lexicographic order on the bound tuple `(lb, ub)`.
spec fn node_le_spec<S: State>(a: Node<S>, b: Node<S>) -> bool {
    lt_spec(a.lb, b.lb) || (a.lb.le_spec(b.lb) && b.lb.le_spec(a.lb) && a.ub.le_spec(b.ub))
}

proof fn lemma_node_le_total<S: State>(a: Node<S>, b: Node<S>)
    ensures
        node_le_spec(a, b) || node_le_spec(b, a),
{
    <S::Rt as BoundOrd>::lemma_total(a.lb, b.lb);
    <S::Rt as BoundOrd>::lemma_total(a.ub, b.ub);
}

proof fn lemma_node_le_trans<S: State>(a: Node<S>, b: Node<S>, c: Node<S>)
    requires
        node_le_spec(a, b),
        node_le_spec(b, c),
    ensures
        node_le_spec(a, c),
{
    if a.lb.le_spec(b.lb) && b.lb.le_spec(a.lb) && b.lb.le_spec(c.lb) && c.lb.le_spec(b.lb) {
        <S::Rt as BoundOrd>::lemma_trans(a.lb, b.lb, c.lb);
        <S::Rt as BoundOrd>::lemma_trans(c.lb, b.lb, a.lb);
        <S::Rt as BoundOrd>::lemma_trans(a.ub, b.ub, c.ub);
    } else {
        <S::Rt as BoundOrd>::lemma_trans(a.lb, b.lb, c.lb);
        if c.lb.le_spec(a.lb) {
            <S::Rt as BoundOrd>::lemma_trans(c.lb, a.lb, b.lb);
            <S::Rt as BoundOrd>::lemma_trans(b.lb, c.lb, a.lb);
        }
    }
}

fn node_le<S: State>(a: &Node<S>, b: &Node<S>) -> (r: bool)
    ensures
        r == node_le_spec(*a, *b),
{
    proof {
        <S::Rt as BoundOrd>::lemma_total(a.lb, b.lb);
    }
    if lt(a.lb, b.lb) {
        true
    } else if lt(b.lb, a.lb) {
        false
    } else {
        a.ub.le(b.ub)
    }
}

/// Stable insertion of a node into a sequence sorted ascending by bounds:
/// the new node moves left past entries strictly greater than it.
spec fn insert_node_spec<S: State>(s: Seq<Node<S>>, x: Node<S>) -> Seq<Node<S>>
    decreases s.len(),
{
    if s.len() == 0 {
        seq![x]
    } else if !node_le_spec(s.last(), x) {
        insert_node_spec(s.drop_last(), x).push(s.last())
    } else {
        s.push(x)
    }
}

/// Stable insertion sort, ascending by the bound tuple.
spec fn sort_spec<S: State>(s: Seq<Node<S>>) -> Seq<Node<S>>
    decreases s.len(),
{
    if s.len() == 0 {
        Seq::empty()
    } else {
        insert_node_spec(sort_spec(s.drop_last()), s.last())
    }
}

/// When every entry from position `i` on is strictly greater than `x` and
/// the entry before `i` (if any) is not, insertion lands exactly at `i`.
proof fn lemma_insert_node_splice<S: State>(s: Seq<Node<S>>, x: Node<S>, i: int)
    requires
        0 <= i <= s.len(),
        forall|j: int| i <= j < s.len() ==> !node_le_spec(#[trigger] s[j], x),
        i > 0 ==> node_le_spec(s[i - 1], x),
    ensures
        insert_node_spec(s, x) == s.insert(i, x),
    decreases s.len(),
{
    if i == s.len() {
        if s.len() == 0 {
            assert(insert_node_spec(s, x) =~= s.insert(i, x));
        } else {
            assert(s.push(x) =~= s.insert(i, x));
        }
    } else {
        lemma_insert_node_splice(s.drop_last(), x, i);
        assert(s.drop_last().insert(i, x).push(s.last()) =~= s.insert(i, x));
    }
}

/// Every entry of an insertion result is the new node or one of the old
/// entries, and the potentials sum is increased by exactly the new node's.
proof fn lemma_insert_node_props<S: State>(s: Seq<Node<S>>, x: Node<S>, p: &S::Problem)
    ensures
        forall|k: int|
            0 <= k < insert_node_spec(s, x).len() ==> (#[trigger] insert_node_spec(s, x)[k] == x
                || exists|j: int| 0 <= j < s.len() && insert_node_spec(s, x)[k] == s[j]),
        insert_node_spec(s, x).len() == s.len() + 1,
        sum_nat(pots(insert_node_spec(s, x), p)) == sum_nat(pots(s, p)) + x.st.pot(p),
    decreases s.len(),
{
    if s.len() == 0 {
        assert(pots(insert_node_spec(s, x), p) =~= pots(s, p).push(x.st.pot(p)));
        assert(pots(s, p).push(x.st.pot(p)).drop_last() =~= pots(s, p));
    } else if !node_le_spec(s.last(), x) {
        lemma_insert_node_props(s.drop_last(), x, p);
        let r0 = insert_node_spec(s.drop_last(), x);
        let r = insert_node_spec(s, x);
        assert(r =~= r0.push(s.last()));
        assert(pots(r, p) =~= pots(r0, p).push(s.last().st.pot(p)));
        assert(pots(r0, p).push(s.last().st.pot(p)).drop_last() =~= pots(r0, p));
        assert(pots(s, p).drop_last() =~= pots(s.drop_last(), p));
        assert(pots(s, p).last() == s.last().st.pot(p));
        assert forall|k: int| 0 <= k < r.len() implies (#[trigger] r[k] == x || exists|j: int|
            0 <= j < s.len() && r[k] == s[j]) by {
            if k == r.len() - 1 {
                assert(r[k] == s[s.len() - 1]);
            } else {
                if r0[k] != x {
                    let j = choose|j: int| 0 <= j < s.drop_last().len() && r0[k] == s.drop_last()[j];
                    assert(r[k] == s[j]);
                }
            }
        }
    } else {
        assert(insert_node_spec(s, x) == s.push(x));
        assert(pots(s.push(x), p) =~= pots(s, p).push(x.st.pot(p)));
        assert(pots(s, p).push(x.st.pot(p)).drop_last() =~= pots(s, p));
        assert forall|k: int| 0 <= k < s.push(x).len() implies (#[trigger] s.push(x)[k] == x
            || exists|j: int| 0 <= j < s.len() && s.push(x)[k] == s[j]) by {
            if k < s.len() {
                assert(s.push(x)[k] == s[k]);
            }
        }
    }
}

/// Sorted ascending by the bound tuple, adjacent entries compared.
spec fn sorted_nodes<S: State>(s: Seq<Node<S>>) -> bool {
    forall|i: int| 0 <= i < s.len() - 1 ==> node_le_spec(#[trigger] s[i], s[i + 1])
}

/// Insertion into a sorted sequence keeps it sorted.
proof fn lemma_insert_node_sorted<S: State>(s: Seq<Node<S>>, x: Node<S>)
    requires
        sorted_nodes(s),
    ensures
        sorted_nodes(insert_node_spec(s, x)),
    decreases s.len(),
{
    if s.len() == 0 {
    } else if !node_le_spec(s.last(), x) {
        assert(sorted_nodes(s.drop_last()));
        lemma_insert_node_sorted(s.drop_last(), x);
        let r0 = insert_node_spec(s.drop_last(), x);
        let r = insert_node_spec(s, x);
        assert(r == r0.push(s.last()));
        lemma_node_le_total(s.last(), x);
        if s.len() >= 2 && !node_le_spec(s.drop_last().last(), x) {
            assert(r0.last() == s.drop_last().last());
            assert(node_le_spec(s[s.len() - 2], s[s.len() - 1]));
        } else {
            assert(r0.last() == x || (s.drop_last().len() > 0 && r0.last()
                == s.drop_last().last()));
        }
        assert forall|i: int| 0 <= i < r.len() - 1 implies node_le_spec(
            #[trigger] r[i],
            r[i + 1],
        ) by {
            if i < r0.len() - 1 {
                assert(r[i] == r0[i] && r[i + 1] == r0[i + 1]);
            } else {
                assert(r[i] == r0.last() && r[i + 1] == s.last());
            }
        }
    } else {
        let r = s.push(x);
        assert forall|i: int| 0 <= i < r.len() - 1 implies node_le_spec(
            #[trigger] r[i],
            r[i + 1],
        ) by {
            if i < s.len() - 1 {
                assert(r[i] == s[i] && r[i + 1] == s[i + 1]);
            } else {
                assert(r[i] == s.last() && r[i + 1] == x);
            }
        }
    }
}

/// The insertion sort sorts.
proof fn lemma_sort_sorted<S: State>(s: Seq<Node<S>>)
    ensures
        sorted_nodes(sort_spec(s)),
    decreases s.len(),
{
    if s.len() > 0 {
        lemma_sort_sorted(s.drop_last());
        lemma_insert_node_sorted(sort_spec(s.drop_last()), s.last());
    }
}

/// The sorted sequence holds exactly entries of the input, with the same
/// total potential and the same length.
proof fn lemma_sort_props<S: State>(s: Seq<Node<S>>, p: &S::Problem)
    ensures
        forall|k: int|
            0 <= k < sort_spec(s).len() ==> exists|j: int|
                0 <= j < s.len() && #[trigger] sort_spec(s)[k] == s[j],
        sort_spec(s).len() == s.len(),
        sum_nat(pots(sort_spec(s), p)) == sum_nat(pots(s, p)),
    decreases s.len(),
{
    if s.len() == 0 {
        assert(pots(sort_spec(s), p) =~= pots(s, p));
    } else {
        lemma_sort_props(s.drop_last(), p);
        lemma_insert_node_props(sort_spec(s.drop_last()), s.last(), p);
        assert(pots(s, p).drop_last() =~= pots(s.drop_last(), p));
        assert(pots(s, p).last() == s.last().st.pot(p));
        let r = sort_spec(s);
        let r0 = sort_spec(s.drop_last());
        assert forall|k: int| 0 <= k < r.len() implies exists|j: int|
            0 <= j < s.len() && #[trigger] r[k] == s[j] by {
            if r[k] == s.last() {
                assert(r[k] == s[s.len() - 1]);
            } else {
                let j1 = choose|j1: int| 0 <= j1 < r0.len() && r[k] == r0[j1];
                let j2 = choose|j2: int| 0 <= j2 < s.drop_last().len() && r0[j1] == s.drop_last()[j2];
                assert(r[k] == s[j2]);
            }
        }
    }
}

/// Sorts the surviving children ascending by `(lower bound, upper bound)`,
/// so the most promising child ends nearest the top of the stack.
fn sort_nodes<S: State>(v: Vec<Node<S>>) -> (r: Vec<Node<S>>)
    ensures
        r@ == sort_spec(v@),
        sorted_nodes(r@),
{
    proof {
        lemma_sort_sorted(v@);
    }
    let ghost v0 = v@;
    let mut v = v;
    let mut out: Vec<Node<S>> = Vec::new();
    proof {
        assert(v0.subrange(0, v0.len() as int) =~= v0);
        assert(v0.subrange(0, 0) =~= Seq::<Node<S>>::empty());
    }
    while v.len() > 0
        invariant
            v@.len() <= v0.len(),
            out@ == sort_spec(v0.subrange(0, v0.len() - v@.len())),
            v@ == v0.subrange(v0.len() - v@.len(), v0.len() as int),
        decreases v.len(),
    {
        let ghost done = v0.len() - v@.len();
        let x = v.remove(0);
        proof {
            assert(x == v0[done]);
            assert(v@ =~= v0.subrange(done + 1, v0.len() as int));
        }
        let mut i: usize = out.len();
        while i > 0 && !node_le(&out[i - 1], &x)
            invariant
                i <= out@.len(),
                forall|j: int| i <= j < out@.len() ==> !node_le_spec(#[trigger] out@[j], x),
            decreases i,
        {
            i = i - 1;
        }
        proof {
            lemma_insert_node_splice(out@, x, i as int);
            assert(v0.subrange(0, done + 1).drop_last() =~= v0.subrange(0, done));
            assert(v0.subrange(0, done + 1).last() == x);
        }
        out.insert(i, x);
    }
    proof {
        assert(v0.subrange(0, v0.len() as int) =~= v0);
    }
    out
}

/// Pops an entry with minimal bound tuple out of the frontier.
fn pop_min<S: State>(v: &mut Vec<Node<S>>) -> (r: Node<S>)
    requires
        old(v)@.len() > 0,
    ensures
        exists|i: int|
            0 <= i < old(v)@.len() && r == old(v)@[i] && final(v)@ == #[trigger] old(v)@.remove(i),
        forall|j: int| 0 <= j < old(v)@.len() ==> node_le_spec(r, #[trigger] old(v)@[j]),
{
    let mut best: usize = 0;
    let mut j: usize = 1;
    proof {
        lemma_node_le_total(old(v)@[0], old(v)@[0]);
    }
    while j < v.len()
        invariant
            v@ == old(v)@,
            best < j,
            j <= v@.len(),
            v@.len() > 0,
            forall|k: int| 0 <= k < j ==> node_le_spec(v@[best as int], #[trigger] v@[k]),
        decreases v@.len() - j,
    {
        proof {
            lemma_node_le_total(v@[best as int], v@[j as int]);
        }
        if node_le(&v[j], &v[best]) {
            proof {
                assert forall|k: int| 0 <= k < j + 1 implies node_le_spec(
                    v@[j as int],
                    #[trigger] v@[k],
                ) by {
                    if k < j {
                        lemma_node_le_trans(v@[j as int], v@[best as int], v@[k]);
                    } else {
                        lemma_node_le_total(v@[j as int], v@[j as int]);
                    }
                }
            }
            best = j;
        }
        j = j + 1;
    }
    let r = v.remove(best);
    proof {
        lemma_node_le_total(r, r);
    }
    r
}

/// Every insertion keeps the old entries and adds the new one.
proof fn lemma_insert_node_fwd<S: State>(s: Seq<Node<S>>, x: Node<S>)
    ensures
        forall|j: int|
            0 <= j < s.len() ==> exists|k: int|
                0 <= k < insert_node_spec(s, x).len() && insert_node_spec(s, x)[k]
                    == #[trigger] s[j],
        exists|k: int| 0 <= k < insert_node_spec(s, x).len() && insert_node_spec(s, x)[k] == x,
    decreases s.len(),
{
    let r = insert_node_spec(s, x);
    if s.len() == 0 {
        assert(r[0] == x);
    } else if !node_le_spec(s.last(), x) {
        lemma_insert_node_fwd(s.drop_last(), x);
        let r0 = insert_node_spec(s.drop_last(), x);
        let kx = choose|kx: int| 0 <= kx < r0.len() && r0[kx] == x;
        assert(r[kx] == x);
        assert forall|j: int| 0 <= j < s.len() implies exists|k: int|
            0 <= k < r.len() && r[k] == #[trigger] s[j] by {
            if j < s.len() - 1 {
                assert(s.drop_last()[j] == s[j]);
                let k = choose|k: int| 0 <= k < r0.len() && r0[k] == s.drop_last()[j];
                assert(r[k] == s[j]);
            } else {
                assert(r[r.len() - 1] == s[j]);
            }
        }
    } else {
        assert(r[s.len() as int] == x);
        assert forall|j: int| 0 <= j < s.len() implies exists|k: int|
            0 <= k < r.len() && r[k] == #[trigger] s[j] by {
            assert(r[j] == s[j]);
        }
    }
}

/// Every input entry appears somewhere in the sorted output.
proof fn lemma_sort_fwd<S: State>(s: Seq<Node<S>>)
    ensures
        forall|j: int|
            0 <= j < s.len() ==> exists|k: int|
                0 <= k < sort_spec(s).len() && sort_spec(s)[k] == #[trigger] s[j],
    decreases s.len(),
{
    if s.len() > 0 {
        lemma_sort_fwd(s.drop_last());
        let r0 = sort_spec(s.drop_last());
        lemma_insert_node_fwd(r0, s.last());
        let r = sort_spec(s);
        assert forall|j: int| 0 <= j < s.len() implies exists|k: int|
            0 <= k < r.len() && r[k] == #[trigger] s[j] by {
            if j < s.len() - 1 {
                assert(s.drop_last()[j] == s[j]);
                let k0 = choose|k0: int| 0 <= k0 < r0.len() && r0[k0] == s.drop_last()[j];
                let k = choose|k: int| 0 <= k < r.len() && r[k] == r0[k0];
                assert(r[k] == s[j]);
            } else {
                let k = choose|k: int| 0 <= k < r.len() && r[k] == s.last();
                assert(r[k] == s[j]);
            }
        }
    }
}

/// The search invariant tying the incumbent to the frontier: every target
/// is either already matched by the incumbent bound, or still covered by
/// a frontier node whose lower bound does not exceed the target's value.
spec fn covered<S: State>(stack: Seq<Node<S>>, ub: S::Rt, p: &S::Problem) -> bool {
    forall|sol: S::Sol|
        #[trigger] S::is_target(sol, p) ==> ub.le_spec(S::target_value(sol, p)) || exists|j: int|
            0 <= j < stack.len() && (#[trigger] stack[j]).st.covers(sol, p)
                && stack[j].lb.le_spec(S::target_value(sol, p))
}

/// The generic two-phase search.  Phase one explores depth-first from the
/// root, keeping the best incumbent, until it reaches a node with no
/// surviving children; phase two finishes best-first, always expanding a
/// frontier node with minimal bound tuple, until the frontier is empty.
///
/// The returned bound is the returned state's upper bound; it never
/// exceeds (in the bound order) the upper bound of the root the search
/// started from, and it does not exceed the value of any target of the
/// problem: the result is optimal over the solutions the state type
/// describes.
#[verifier::loop_isolation(false)]
pub fn find_minimum<S: State>(p: &S::Problem) -> (r: (S::Rt, S))
    requires
        S::problem_ok(p),
    ensures
        r.1.inv(p),
        r.0 == r.1.ub_spec(p),
        exists|root: S|
            (#[trigger] root.is_root(p)) && root.inv(p) && r.0.le_spec(root.ub_spec(p)),
        forall|sol: S::Sol|
            #[trigger] S::is_target(sol, p) ==> r.0.le_spec(S::target_value(sol, p)),
{
    let root_st: S = S::root(p);
    let ghost root0: S = root_st;
    let mut ub: S::Rt = root_st.ub(p);
    let albd = root_st.lb(p);
    let mut ans: S = root_st.dup(p);
    let first = Node { lb: albd, ub: ub, st: root_st };
    let mut stack: Vec<Node<S>> = Vec::new();
    stack.push(first);
    proof {
        <S::Rt as BoundOrd>::lemma_total(ub, ub);
        assert(pots(stack@, p).drop_last() =~= pots(Seq::<Node<S>>::empty(), p));
        assert forall|sol: S::Sol| #[trigger] S::is_target(sol, p) implies ub.le_spec(
            S::target_value(sol, p),
        ) || exists|j: int|
            0 <= j < stack@.len() && (#[trigger] stack@[j]).st.covers(sol, p)
                && stack@[j].lb.le_spec(S::target_value(sol, p)) by {
            root0.lemma_root_target(sol, p);
            assert(stack@[0].st.covers(sol, p) && stack@[0].lb.le_spec(
                S::target_value(sol, p),
            ));
        }
        assert(covered(stack@, ub, p));
    }
    // Phase one: depth-first warm start.
    while stack.len() > 0
        invariant
            ans.inv(p),
            ans.ub_spec(p) == ub,
            ub.le_spec(root0.ub_spec(p)),
            forall|i: int| 0 <= i < stack@.len() ==> node_ok(#[trigger] stack@[i], p),
            covered(stack@, ub, p),
        decreases sum_nat(pots(stack@, p)),
    {
        let ghost stack_before = stack@;
        let ghost ub_before = ub;
        let node = stack.pop().unwrap();
        proof {
            assert(pots(stack_before, p).drop_last() =~= pots(stack@, p));
            assert(pots(stack_before, p).last() == node.st.pot(p));
            node.st.lemma_pot_pos(p);
        }
        if lt(node.ub, ub) {
            proof {
                <S::Rt as BoundOrd>::lemma_trans(node.ub, ub, root0.ub_spec(p));
            }
            ub = node.ub;
            ans = node.st.dup(p);
        }
        proof {
            <S::Rt as BoundOrd>::lemma_total(node.ub, ub_before);
            <S::Rt as BoundOrd>::lemma_total(node.ub, node.ub);
            <S::Rt as BoundOrd>::lemma_total(ub_before, ub_before);
            assert(ub.le_spec(node.ub) && ub.le_spec(ub_before));
        }
        if !lt(node.lb, ub) {
            proof {
                assert forall|sol: S::Sol| #[trigger] S::is_target(sol, p) implies ub.le_spec(
                    S::target_value(sol, p),
                ) || exists|j: int|
                    0 <= j < stack@.len() && (#[trigger] stack@[j]).st.covers(sol, p)
                        && stack@[j].lb.le_spec(S::target_value(sol, p)) by {
                    let val = S::target_value(sol, p);
                    if ub_before.le_spec(val) {
                        <S::Rt as BoundOrd>::lemma_trans(ub, ub_before, val);
                    } else {
                        let j = choose|j: int|
                            0 <= j < stack_before.len() && (#[trigger] stack_before[j]).st.covers(
                                sol,
                                p,
                            ) && stack_before[j].lb.le_spec(val);
                        if j < stack_before.len() - 1 {
                            assert(stack@[j] == stack_before[j]);
                        } else {
                            <S::Rt as BoundOrd>::lemma_total(node.lb, ub);
                            <S::Rt as BoundOrd>::lemma_trans(ub, node.lb, val);
                        }
                    }
                }
                assert(covered(stack@, ub, p));
            }
            continue;
        }
        let mut kids = node.st.children(p);
        let ghost kids0 = kids@;
        let mut surv: Vec<Node<S>> = Vec::new();
        while kids.len() > 0
            invariant
                kids@.len() <= kids0.len(),
                kids@ == kids0.subrange(kids0.len() - kids@.len(), kids0.len() as int),
                forall|i: int| 0 <= i < kids@.len() ==> (#[trigger] kids@[i]).inv(p),
                forall|i: int| 0 <= i < surv@.len() ==> node_ok(#[trigger] surv@[i], p),
                sum_nat(pots(surv@, p)) + sum_nat(spots(kids@, p)) <= sum_nat(spots(kids0, p)),
                forall|t: int|
                    0 <= t < kids0.len() - kids@.len() ==> !lt_spec(
                        (#[trigger] kids0[t]).lb_spec(p),
                        ub,
                    ) || exists|q: int|
                        0 <= q < surv@.len() && (#[trigger] surv@[q]).st == kids0[t] && surv@[q].lb
                            == kids0[t].lb_spec(p),
            decreases kids.len(),
        {
            let ghost kids_before = kids@;
            let ghost done = kids0.len() - kids@.len();
            let x = kids.remove(0);
            proof {
                assert(x == kids0[done]);
                assert(kids@ =~= kids0.subrange(done + 1, kids0.len() as int));
                assert(spots(kids_before, p).remove(0) =~= spots(kids@, p));
                lemma_sum_nat_remove(spots(kids_before, p), 0);
            }
            let xlb = x.lb(p);
            let xub = x.ub(p);
            if lt(xlb, ub) {
                let ghost surv_before = surv@;
                surv.push(Node { lb: xlb, ub: xub, st: x });
                proof {
                    assert(pots(surv@, p).drop_last() =~= pots(surv_before, p));
                    assert forall|t: int| 0 <= t < done + 1 implies !lt_spec(
                        (#[trigger] kids0[t]).lb_spec(p),
                        ub,
                    ) || exists|q: int|
                        0 <= q < surv@.len() && (#[trigger] surv@[q]).st == kids0[t] && surv@[q].lb
                            == kids0[t].lb_spec(p) by {
                        if t == done {
                            assert(surv@[surv@.len() - 1].st == kids0[t] && surv@[surv@.len()
                                - 1].lb == kids0[t].lb_spec(p));
                        } else if lt_spec(kids0[t].lb_spec(p), ub) {
                            let q = choose|q: int|
                                0 <= q < surv_before.len() && (#[trigger] surv_before[q]).st
                                    == kids0[t] && surv_before[q].lb == kids0[t].lb_spec(p);
                            assert(surv@[q].st == kids0[t] && surv@[q].lb == kids0[t].lb_spec(p));
                        }
                    }
                }
            } else {
                proof {
                    assert(!lt_spec(kids0[done].lb_spec(p), ub));
                }
            }
        }
        proof {
            assert forall|sol: S::Sol| #[trigger] S::is_target(sol, p) implies ub.le_spec(
                S::target_value(sol, p),
            ) || (exists|j: int|
                0 <= j < stack@.len() && (#[trigger] stack@[j]).st.covers(sol, p)
                    && stack@[j].lb.le_spec(S::target_value(sol, p))) || (exists|q: int|
                0 <= q < surv@.len() && (#[trigger] surv@[q]).st.covers(sol, p)
                    && surv@[q].lb.le_spec(S::target_value(sol, p))) by {
                let val = S::target_value(sol, p);
                if ub_before.le_spec(val) {
                    <S::Rt as BoundOrd>::lemma_trans(ub, ub_before, val);
                } else {
                    let j = choose|j: int|
                        0 <= j < stack_before.len() && (#[trigger] stack_before[j]).st.covers(
                            sol,
                            p,
                        ) && stack_before[j].lb.le_spec(val);
                    if j < stack_before.len() - 1 {
                        assert(stack@[j] == stack_before[j]);
                    } else {
                        node.st.lemma_target_step(kids0, sol, p);
                        if node.st.ub_spec(p).le_spec(val) {
                            <S::Rt as BoundOrd>::lemma_trans(ub, node.ub, val);
                        } else {
                            let i = choose|i: int|
                                0 <= i < kids0.len() && (#[trigger] kids0[i]).covers(sol, p)
                                    && kids0[i].lb_spec(p).le_spec(val);
                            if exists|q: int|
                                0 <= q < surv@.len() && (#[trigger] surv@[q]).st == kids0[i]
                                    && surv@[q].lb == kids0[i].lb_spec(p) {
                                let q = choose|q: int|
                                    0 <= q < surv@.len() && (#[trigger] surv@[q]).st == kids0[i]
                                        && surv@[q].lb == kids0[i].lb_spec(p);
                                assert(surv@[q].st.covers(sol, p) && surv@[q].lb.le_spec(val));
                            } else {
                                assert(!lt_spec(kids0[i].lb_spec(p), ub));
                                <S::Rt as BoundOrd>::lemma_total(kids0[i].lb_spec(p), ub);
                                <S::Rt as BoundOrd>::lemma_trans(ub, kids0[i].lb_spec(p), val);
                            }
                        }
                    }
                }
            }
        }
        if surv.len() == 0 {
            proof {
                assert(covered(stack@, ub, p));
            }
            // A leaf reached by pure depth-first descent: switch strategy.
            break;
        }
        proof {
            lemma_sort_props(surv@, p);
            lemma_sort_fwd(surv@);
        }
        // Sorted ascending and appended; the stack pops from its end, so of
        // these children the one with the greatest bound tuple is expanded
        // first.
        let ghost surv0 = surv@;
        let mut sorted = sort_nodes(surv);
        let ghost stack_mid = stack@;
        stack.append(&mut sorted);
        proof {
            assert(pots(stack@, p) =~= pots(stack_mid, p) + pots(sort_spec(surv0), p));
            lemma_sum_nat_concat(pots(stack_mid, p), pots(sort_spec(surv0), p));
            assert forall|sol: S::Sol| #[trigger] S::is_target(sol, p) implies ub.le_spec(
                S::target_value(sol, p),
            ) || exists|j: int|
                0 <= j < stack@.len() && (#[trigger] stack@[j]).st.covers(sol, p)
                    && stack@[j].lb.le_spec(S::target_value(sol, p)) by {
                let val = S::target_value(sol, p);
                if !ub.le_spec(val) {
                    if exists|j: int|
                        0 <= j < stack_mid.len() && (#[trigger] stack_mid[j]).st.covers(sol, p)
                            && stack_mid[j].lb.le_spec(val) {
                        let j = choose|j: int|
                            0 <= j < stack_mid.len() && (#[trigger] stack_mid[j]).st.covers(sol, p)
                                && stack_mid[j].lb.le_spec(val);
                        assert(stack@[j] == stack_mid[j]);
                    } else {
                        let q = choose|q: int|
                            0 <= q < surv0.len() && (#[trigger] surv0[q]).st.covers(sol, p)
                                && surv0[q].lb.le_spec(val);
                        let k = choose|k: int|
                            0 <= k < sort_spec(surv0).len() && sort_spec(surv0)[k] == surv0[q];
                        assert(stack@[stack_mid.len() + k] == surv0[q]);
                    }
                }
            }
            assert(covered(stack@, ub, p));
        }
    }
    // Phase two: best-first completion over the remaining frontier.
    while stack.len() > 0
        invariant
            ans.inv(p),
            ans.ub_spec(p) == ub,
            ub.le_spec(root0.ub_spec(p)),
            forall|i: int| 0 <= i < stack@.len() ==> node_ok(#[trigger] stack@[i], p),
            covered(stack@, ub, p),
        decreases sum_nat(pots(stack@, p)),
    {
        let ghost stack_before = stack@;
        let ghost ub_before = ub;
        let node = pop_min(&mut stack);
        let ghost i_rm = choose|i: int|
            0 <= i < stack_before.len() && node == stack_before[i] && stack@ == stack_before.remove(
                i,
            );
        proof {
            assert(pots(stack@, p) =~= pots(stack_before, p).remove(i_rm));
            lemma_sum_nat_remove(pots(stack_before, p), i_rm);
            assert(node_ok(node, p));
            node.st.lemma_pot_pos(p);
        }
        if lt(node.ub, ub) {
            proof {
                <S::Rt as BoundOrd>::lemma_trans(node.ub, ub, root0.ub_spec(p));
            }
            ub = node.ub;
            ans = node.st.dup(p);
        }
        proof {
            <S::Rt as BoundOrd>::lemma_total(node.ub, ub_before);
            <S::Rt as BoundOrd>::lemma_total(node.ub, node.ub);
            <S::Rt as BoundOrd>::lemma_total(ub_before, ub_before);
            assert(ub.le_spec(node.ub) && ub.le_spec(ub_before));
        }
        if !lt(node.lb, ub) {
            proof {
                assert forall|sol: S::Sol| #[trigger] S::is_target(sol, p) implies ub.le_spec(
                    S::target_value(sol, p),
                ) || exists|j: int|
                    0 <= j < stack@.len() && (#[trigger] stack@[j]).st.covers(sol, p)
                        && stack@[j].lb.le_spec(S::target_value(sol, p)) by {
                    let val = S::target_value(sol, p);
                    if ub_before.le_spec(val) {
                        <S::Rt as BoundOrd>::lemma_trans(ub, ub_before, val);
                    } else {
                        let j = choose|j: int|
                            0 <= j < stack_before.len() && (#[trigger] stack_before[j]).st.covers(
                                sol,
                                p,
                            ) && stack_before[j].lb.le_spec(val);
                        if j == i_rm {
                            <S::Rt as BoundOrd>::lemma_total(node.lb, ub);
                            <S::Rt as BoundOrd>::lemma_trans(ub, node.lb, val);
                        } else if j < i_rm {
                            assert(stack@[j] == stack_before[j]);
                        } else {
                            assert(stack@[j - 1] == stack_before[j]);
                        }
                    }
                }
                assert(covered(stack@, ub, p));
            }
            continue;
        }
        let mut kids = node.st.children(p);
        let ghost kids0 = kids@;
        let mut surv: Vec<Node<S>> = Vec::new();
        while kids.len() > 0
            invariant
                kids@.len() <= kids0.len(),
                kids@ == kids0.subrange(kids0.len() - kids@.len(), kids0.len() as int),
                forall|i: int| 0 <= i < kids@.len() ==> (#[trigger] kids@[i]).inv(p),
                forall|i: int| 0 <= i < surv@.len() ==> node_ok(#[trigger] surv@[i], p),
                sum_nat(pots(surv@, p)) + sum_nat(spots(kids@, p)) <= sum_nat(spots(kids0, p)),
                forall|t: int|
                    0 <= t < kids0.len() - kids@.len() ==> !lt_spec(
                        (#[trigger] kids0[t]).lb_spec(p),
                        ub,
                    ) || exists|q: int|
                        0 <= q < surv@.len() && (#[trigger] surv@[q]).st == kids0[t] && surv@[q].lb
                            == kids0[t].lb_spec(p),
            decreases kids.len(),
        {
            let ghost kids_before = kids@;
            let ghost done = kids0.len() - kids@.len();
            let x = kids.remove(0);
            proof {
                assert(x == kids0[done]);
                assert(kids@ =~= kids0.subrange(done + 1, kids0.len() as int));
                assert(spots(kids_before, p).remove(0) =~= spots(kids@, p));
                lemma_sum_nat_remove(spots(kids_before, p), 0);
            }
            let xlb = x.lb(p);
            let xub = x.ub(p);
            if lt(xlb, ub) {
                let ghost surv_before = surv@;
                surv.push(Node { lb: xlb, ub: xub, st: x });
                proof {
                    assert(pots(surv@, p).drop_last() =~= pots(surv_before, p));
                    assert forall|t: int| 0 <= t < done + 1 implies !lt_spec(
                        (#[trigger] kids0[t]).lb_spec(p),
                        ub,
                    ) || exists|q: int|
                        0 <= q < surv@.len() && (#[trigger] surv@[q]).st == kids0[t] && surv@[q].lb
                            == kids0[t].lb_spec(p) by {
                        if t == done {
                            assert(surv@[surv@.len() - 1].st == kids0[t] && surv@[surv@.len()
                                - 1].lb == kids0[t].lb_spec(p));
                        } else if lt_spec(kids0[t].lb_spec(p), ub) {
                            let q = choose|q: int|
                                0 <= q < surv_before.len() && (#[trigger] surv_before[q]).st
                                    == kids0[t] && surv_before[q].lb == kids0[t].lb_spec(p);
                            assert(surv@[q].st == kids0[t] && surv@[q].lb == kids0[t].lb_spec(p));
                        }
                    }
                }
            } else {
                proof {
                    assert(!lt_spec(kids0[done].lb_spec(p), ub));
                }
            }
        }
        proof {
            assert forall|sol: S::Sol| #[trigger] S::is_target(sol, p) implies ub.le_spec(
                S::target_value(sol, p),
            ) || (exists|j: int|
                0 <= j < stack@.len() && (#[trigger] stack@[j]).st.covers(sol, p)
                    && stack@[j].lb.le_spec(S::target_value(sol, p))) || (exists|q: int|
                0 <= q < surv@.len() && (#[trigger] surv@[q]).st.covers(sol, p)
                    && surv@[q].lb.le_spec(S::target_value(sol, p))) by {
                let val = S::target_value(sol, p);
                if ub_before.le_spec(val) {
                    <S::Rt as BoundOrd>::lemma_trans(ub, ub_before, val);
                } else {
                    let j = choose|j: int|
                        0 <= j < stack_before.len() && (#[trigger] stack_before[j]).st.covers(
                            sol,
                            p,
                        ) && stack_before[j].lb.le_spec(val);
                    if j == i_rm {
                        node.st.lemma_target_step(kids0, sol, p);
                        if node.st.ub_spec(p).le_spec(val) {
                            <S::Rt as BoundOrd>::lemma_trans(ub, node.ub, val);
                        } else {
                            let i = choose|i: int|
                                0 <= i < kids0.len() && (#[trigger] kids0[i]).covers(sol, p)
                                    && kids0[i].lb_spec(p).le_spec(val);
                            if exists|q: int|
                                0 <= q < surv@.len() && (#[trigger] surv@[q]).st == kids0[i]
                                    && surv@[q].lb == kids0[i].lb_spec(p) {
                                let q = choose|q: int|
                                    0 <= q < surv@.len() && (#[trigger] surv@[q]).st == kids0[i]
                                        && surv@[q].lb == kids0[i].lb_spec(p);
                                assert(surv@[q].st.covers(sol, p) && surv@[q].lb.le_spec(val));
                            } else {
                                assert(!lt_spec(kids0[i].lb_spec(p), ub));
                                <S::Rt as BoundOrd>::lemma_total(kids0[i].lb_spec(p), ub);
                                <S::Rt as BoundOrd>::lemma_trans(ub, kids0[i].lb_spec(p), val);
                            }
                        }
                    } else if j < i_rm {
                        assert(stack@[j] == stack_before[j]);
                    } else {
                        assert(stack@[j - 1] == stack_before[j]);
                    }
                }
            }
            lemma_sort_props(surv@, p);
            lemma_sort_fwd(surv@);
        }
        let ghost surv0 = surv@;
        let mut sorted = sort_nodes(surv);
        let ghost stack_mid = stack@;
        stack.append(&mut sorted);
        proof {
            assert(pots(stack@, p) =~= pots(stack_mid, p) + pots(sort_spec(surv0), p));
            lemma_sum_nat_concat(pots(stack_mid, p), pots(sort_spec(surv0), p));
            assert forall|sol: S::Sol| #[trigger] S::is_target(sol, p) implies ub.le_spec(
                S::target_value(sol, p),
            ) || exists|j: int|
                0 <= j < stack@.len() && (#[trigger] stack@[j]).st.covers(sol, p)
                    && stack@[j].lb.le_spec(S::target_value(sol, p)) by {
                let val = S::target_value(sol, p);
                if !ub.le_spec(val) {
                    if exists|j: int|
                        0 <= j < stack_mid.len() && (#[trigger] stack_mid[j]).st.covers(sol, p)
                            && stack_mid[j].lb.le_spec(val) {
                        let j = choose|j: int|
                            0 <= j < stack_mid.len() && (#[trigger] stack_mid[j]).st.covers(sol, p)
                                && stack_mid[j].lb.le_spec(val);
                        assert(stack@[j] == stack_mid[j]);
                    } else {
                        let q = choose|q: int|
                            0 <= q < surv0.len() && (#[trigger] surv0[q]).st.covers(sol, p)
                                && surv0[q].lb.le_spec(val);
                        let k = choose|k: int|
                            0 <= k < sort_spec(surv0).len() && sort_spec(surv0)[k] == surv0[q];
                        assert(stack@[stack_mid.len() + k] == surv0[q]);
                    }
                }
            }
            assert(covered(stack@, ub, p));
        }
    }
    proof {
        assert forall|sol: S::Sol| #[trigger] S::is_target(sol, p) implies ub.le_spec(
            S::target_value(sol, p),
        ) by {
        }
    }
    (ub, ans)
}

} // verus!
