use bnbrs::{graph_from_edges, MaxCliqueState, Maximize, MonotoneLb, Rev, State};
use bitset_fixed::BitSet;

fn path4() -> Vec<BitSet> {
    graph_from_edges(4, &vec![(0, 1), (1, 2), (2, 3)])
}

fn k5() -> Vec<BitSet> {
    let mut edges: Vec<(usize, usize)> = vec![];
    for i in 0..5 {
        for j in (i + 1)..5 {
            edges.push((i, j));
        }
    }
    graph_from_edges(5, &edges)
}

#[test]
fn bound_validity_on_generated_states() {
    // Lower bound never above the upper bound, on the root and on every
    // state generated from it for two levels; the lower bound is the
    // committed size and stays within the vertex count.
    for g in [path4(), k5()] {
        let n = g.len() as u32;
        let root = <MaxCliqueState as State>::root(&g);
        let mut frontier = vec![root];
        for _ in 0..2 {
            let mut next = vec![];
            for s in frontier.iter() {
                let lb = s.lb(&g);
                let ub = s.ub(&g);
                assert!(lb <= ub);
                assert!(lb <= n);
                assert!(ub <= n + 1);
                next.extend(s.children(&g));
            }
            frontier = next;
        }
    }
}

#[test]
fn maximize_swaps_and_reverses_bounds() {
    // The direction adapter reports the inner upper bound, order-reversed,
    // as its lower bound, and the inner lower bound as its upper bound.
    let g = path4();
    let inner = <MaxCliqueState as State>::root(&g);
    let inner_lb = inner.lb(&g);
    let inner_ub = inner.ub(&g);
    let wrapped = Maximize(inner);
    let Rev(wlb) = wrapped.lb(&g);
    let Rev(wub) = wrapped.ub(&g);
    assert_eq!(wlb, inner_ub);
    assert_eq!(wub, inner_lb);
}

#[test]
fn monotone_lb_never_decreases_on_children() {
    // The carried lower bound of each child is at least the parent's, in
    // the reversed (maximization) order, over three generations.
    let g = k5();
    type W = MonotoneLb<Maximize<MaxCliqueState>>;
    let root = <W as State>::root(&g);
    let mut frontier = vec![root];
    for _ in 0..3 {
        let mut next = vec![];
        for s in frontier.iter() {
            let Rev(parent_lb) = s.lb(&g);
            for c in s.children(&g) {
                let Rev(child_lb) = c.lb(&g);
                // Rev order: a larger wrapped value is a smaller bound.
                assert!(child_lb <= parent_lb);
                next.push(c);
            }
        }
        frontier = next;
    }
}

#[test]
fn coloring_bound_exact_values() {
    // The greedy coloring at the root: one class for the empty graph on
    // four vertices, five classes for the complete graph on five, two for
    // the better of the two orders on the path graph.
    let empty4 = graph_from_edges(4, &vec![]);
    let root_e = <MaxCliqueState as State>::root(&empty4);
    assert_eq!(root_e.lb(&empty4), 0);
    assert_eq!(root_e.ub(&empty4), 1);

    let g5 = k5();
    let root_k = <MaxCliqueState as State>::root(&g5);
    assert_eq!(root_k.lb(&g5), 0);
    assert_eq!(root_k.ub(&g5), 5);

    let p4 = path4();
    let root_p = <MaxCliqueState as State>::root(&p4);
    assert_eq!(root_p.ub(&p4), 2);
}

#[test]
fn branching_picks_last_vertex_of_maximum_degree() {
    // Path graph degrees, self-bit included: 2, 3, 3, 2; the last maximum
    // is vertex 2.
    let p4 = path4();
    let root = <MaxCliqueState as State>::root(&p4);
    assert_eq!(root.fork_on(), Some(2));

    // A leaf: the empty graph on zero vertices has nothing to branch on.
    let empty = graph_from_edges(0, &vec![]);
    let root0 = <MaxCliqueState as State>::root(&empty);
    assert_eq!(root0.fork_on(), None);
    assert_eq!(root0.children(&empty).len(), 0);
}

#[test]
fn children_come_include_first() {
    // On the complete graph the include child commits one vertex and the
    // exclude child does not.
    let g5 = k5();
    let root = <MaxCliqueState as State>::root(&g5);
    let kids = root.children(&g5);
    assert_eq!(kids.len(), 2);
    assert_eq!(kids[0].lb(&g5), 1);
    assert_eq!(kids[1].lb(&g5), 0);
}
