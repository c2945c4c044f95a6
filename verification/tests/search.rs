use bnbrs::{find_minimum, graph_from_edges, max_clique_value, MaxCliqueState, Maximize, MonotoneLb};

fn clique_of(n: usize, edges: &Vec<(usize, usize)>) -> u32 {
    let g = graph_from_edges(n, edges);
    max_clique_value(&g)
}

/// Brute force over all vertex subsets, for graphs of at most 15 vertices.
fn brute_force(n: usize, edges: &Vec<(usize, usize)>) -> u32 {
    assert!(n <= 15);
    let mut adj = vec![vec![false; n]; n];
    for i in 0..n {
        adj[i][i] = true;
    }
    for &(u, v) in edges.iter() {
        adj[u][v] = true;
        adj[v][u] = true;
    }
    let mut best: u32 = 0;
    for mask in 0u32..(1u32 << n) {
        let mut ok = true;
        for i in 0..n {
            for j in (i + 1)..n {
                if (mask >> i) & 1 == 1 && (mask >> j) & 1 == 1 && !adj[i][j] {
                    ok = false;
                }
            }
        }
        if ok && mask.count_ones() > best {
            best = mask.count_ones();
        }
    }
    best
}

#[test]
fn empty_graph_four_vertices() {
    let edges: Vec<(usize, usize)> = vec![];
    assert_eq!(clique_of(4, &edges), 1);
}

#[test]
fn complete_graph_five_vertices() {
    let mut edges: Vec<(usize, usize)> = vec![];
    for i in 0..5 {
        for j in (i + 1)..5 {
            edges.push((i, j));
        }
    }
    assert_eq!(clique_of(5, &edges), 5);
}

#[test]
fn path_graph_four_vertices() {
    let edges: Vec<(usize, usize)> = vec![(0, 1), (1, 2), (2, 3)];
    assert_eq!(clique_of(4, &edges), 2);
}

#[test]
fn two_disjoint_triangles() {
    let edges: Vec<(usize, usize)> = vec![(0, 1), (1, 2), (0, 2), (3, 4), (4, 5), (3, 5)];
    assert_eq!(clique_of(6, &edges), 3);
}

#[test]
fn five_cycle() {
    let edges: Vec<(usize, usize)> = vec![(0, 1), (1, 2), (2, 3), (3, 4), (4, 0)];
    assert_eq!(clique_of(5, &edges), 2);
}

#[test]
fn no_vertices() {
    let edges: Vec<(usize, usize)> = vec![];
    assert_eq!(clique_of(0, &edges), 0);
}

#[test]
fn single_vertex() {
    let edges: Vec<(usize, usize)> = vec![];
    assert_eq!(clique_of(1, &edges), 1);
}

#[test]
fn single_edge() {
    let edges: Vec<(usize, usize)> = vec![(0, 1)];
    assert_eq!(clique_of(2, &edges), 2);
}

#[test]
fn petersen_graph_has_no_triangle() {
    // Outer five-cycle, inner five-star, and the five spokes.
    let edges: Vec<(usize, usize)> = vec![
        (0, 1),
        (1, 2),
        (2, 3),
        (3, 4),
        (4, 0),
        (5, 7),
        (7, 9),
        (9, 6),
        (6, 8),
        (8, 5),
        (0, 5),
        (1, 6),
        (2, 7),
        (3, 8),
        (4, 9),
    ];
    assert_eq!(clique_of(10, &edges), 2);
}

#[test]
fn matches_brute_force_on_small_graphs() {
    let cases: Vec<(usize, Vec<(usize, usize)>)> = vec![
        (4, vec![]),
        (5, vec![(0, 1), (1, 2), (2, 0), (2, 3), (3, 4)]),
        (6, vec![(0, 1), (0, 2), (0, 3), (1, 2), (1, 3), (2, 3), (3, 4), (4, 5)]),
        (7, vec![(0, 1), (1, 2), (2, 3), (3, 0), (0, 2), (4, 5), (5, 6), (4, 6), (2, 4)]),
        (
            8,
            vec![
                (0, 1),
                (0, 2),
                (1, 2),
                (2, 3),
                (3, 4),
                (4, 5),
                (5, 6),
                (6, 7),
                (7, 0),
                (1, 5),
                (3, 7),
                (2, 6),
            ],
        ),
        (9, vec![(0, 3), (3, 6), (6, 0), (1, 4), (4, 7), (7, 1), (2, 5), (5, 8), (8, 2), (0, 1)]),
    ];
    for (n, edges) in cases.iter() {
        assert_eq!(clique_of(*n, edges), brute_force(*n, edges));
    }
}

#[test]
fn wheel_graph_six_vertices() {
    // A five-cycle plus a hub adjacent to every rim vertex: best clique is
    // the hub with one rim edge.
    let edges: Vec<(usize, usize)> = vec![
        (0, 1),
        (1, 2),
        (2, 3),
        (3, 4),
        (4, 0),
        (5, 0),
        (5, 1),
        (5, 2),
        (5, 3),
        (5, 4),
    ];
    assert_eq!(clique_of(6, &edges), 3);
    assert_eq!(clique_of(6, &edges), brute_force(6, &edges));
}

#[test]
fn engine_entry_point_on_two_triangles() {
    let edges: Vec<(usize, usize)> = vec![(0, 1), (1, 2), (0, 2), (3, 4), (4, 5), (3, 5)];
    let g = graph_from_edges(6, &edges);
    let res = find_minimum::<MonotoneLb<Maximize<MaxCliqueState>>>(&g);
    let bound = res.0;
    assert_eq!(bound.0, 3);
}

#[test]
fn builder_sets_expected_bits() {
    let edges: Vec<(usize, usize)> = vec![(0, 2), (1, 3)];
    let g = graph_from_edges(4, &edges);
    assert_eq!(g.len(), 4);
    for i in 0..4 {
        assert!(g[i][i]);
    }
    assert!(g[0][2]);
    assert!(g[2][0]);
    assert!(g[1][3]);
    assert!(g[3][1]);
    assert!(!g[0][1]);
    assert!(!g[2][3]);
}
