use quizx::linalg::Mat2;
use rand::rngs::StdRng;
use rand::{Rng, SeedableRng};
use zx_sparsify::alpha::{
    alpha_params, improved_alpha_params, vertex_cut_in_subgraph_complement_cut, vertex_cut_params,
    AlphaParams,
};
use zx_sparsify::anneal::{complement_pairs, pivot_pairs, toggle_in_set, ComplementFinder, PivotFinder};
use zx_sparsify::bigraph::{BiGraph, SINK, SOURCE};
use zx_sparsify::cut_finder::{CutCache, SubgraphCutFinder};
use zx_sparsify::gf2::BitMatrix;
use zx_sparsify::graph::SimpleGraph;
use zx_sparsify::separator::{check_status, Error, Graph, Options, VertexSeparator};
use zx_sparsify::set_finder::ComplementSetFinder;
use zx_sparsify::sparsify::{Sparsifier, SparsifierMove};

fn graph_from_edges(n: usize, edges: &[(usize, usize)]) -> SimpleGraph {
    let mut g = SimpleGraph::new(n);
    for &(u, v) in edges {
        g.add_edge(u, v);
    }
    g
}

fn random_graph(rng: &mut StdRng, n: usize, p: f64) -> SimpleGraph {
    let mut g = SimpleGraph::new(n);
    for u in 0..n {
        for v in u + 1..n {
            if rng.gen_bool(p) {
                g.add_edge(u, v);
            }
        }
    }
    g
}

fn edge_list(g: &SimpleGraph) -> Vec<(usize, usize)> {
    let n = g.num_vertices();
    let mut out = Vec::new();
    for u in 0..n {
        for v in u + 1..n {
            if g.has_edge(u, v) {
                out.push((u, v));
            }
        }
    }
    out
}

/// A bipartite graph on `left` and `right` with the given edges.
fn bigraph(n: usize, left: Vec<usize>, right: Vec<usize>, edges: &[(usize, usize)]) -> BiGraph {
    BiGraph { graph: graph_from_edges(n, edges), left, right }
}

fn random_bigraph(rng: &mut StdRng, n: usize, p: f64, frac: f32) -> BiGraph {
    let split = (n as f32 * frac) as usize;
    let left: Vec<usize> = (0..split).collect();
    let right: Vec<usize> = (split..n).collect();
    let mut g = SimpleGraph::new(n);
    for &a in &left {
        for &b in &right {
            if rng.gen_bool(p) {
                g.add_edge(a, b);
            }
        }
    }
    BiGraph { graph: g, left, right }
}

fn gf2_product(c: &BitMatrix, f: &BitMatrix) -> Vec<Vec<u8>> {
    let rows = c.num_rows();
    let inner = c.num_cols();
    let cols = f.num_cols();
    let mut out = vec![vec![0u8; cols]; rows];
    for j in 0..rows {
        for k in 0..cols {
            let mut x = 0u8;
            for i in 0..inner {
                x ^= c.get(j, i) & f.get(i, k);
            }
            out[j][k] = x;
        }
    }
    out
}

fn augment(b: &BiGraph, i: usize, seen: &mut Vec<bool>, owner: &mut Vec<Option<usize>>) -> bool {
    for j in 0..b.right.len() {
        if b.graph.has_edge(b.left[i], b.right[j]) && !seen[j] {
            seen[j] = true;
            if owner[j].is_none() || augment(b, owner[j].unwrap(), seen, owner) {
                owner[j] = Some(i);
                return true;
            }
        }
    }
    false
}

/// The size of a maximum matching, by augmenting paths.
fn max_matching(b: &BiGraph) -> usize {
    let mut owner = vec![None; b.right.len()];
    let mut size = 0;
    for i in 0..b.left.len() {
        let mut seen = vec![false; b.right.len()];
        if augment(b, i, &mut seen, &mut owner) {
            size += 1;
        }
    }
    size
}

#[test]
fn rank_decomposition_test() {
    for _ in 0..1000 {
        let mut data = vec![vec![0u8; 10]; 10];
        for i in 0..10 {
            for j in 0..10 {
                data[i][j] = (rand::random::<f32>() < 0.2) as u8;
            }
        }
        let m = BitMatrix { data: data.clone(), cols: 10 };
        let (a, b) = m.rank_decomposition();
        let k = Mat2::new(data.clone()).rank();
        assert_eq!(a.num_cols(), k);
        assert_eq!(b.num_rows(), k);
        assert_eq!(gf2_product(&a, &b), data);
    }
}

#[test]
fn test_matrix() {
    let mut rng = StdRng::seed_from_u64(9);
    let bg = random_bigraph(&mut rng, 9, 0.5, 0.5);
    let m = bg.biadjacency();
    println!("{:?}", m.data);
    println!("{:?}", edge_list(&bg.graph));
}

#[test]
fn rank_decomposition_of_empty_matrices() {
    let m = BitMatrix { data: vec![], cols: 3 };
    let (c, f) = m.rank_decomposition();
    assert_eq!(c.num_rows(), 0);
    assert_eq!(c.num_cols(), 0);
    assert_eq!(f.num_rows(), 0);
    assert_eq!(f.num_cols(), 3);
    let z = BitMatrix::zeros(2, 3);
    let (c, f) = z.rank_decomposition();
    assert_eq!(c.num_cols(), 0);
    assert_eq!(f.num_rows(), 0);
}

#[test]
fn rank_decomposition_exact_factors() {
    let data = vec![vec![1, 1, 0], vec![1, 1, 0], vec![0, 0, 1]];
    let m = BitMatrix { data, cols: 3 };
    let (c, f) = m.rank_decomposition();
    assert_eq!(c.data, vec![vec![1, 0], vec![1, 0], vec![0, 1]]);
    assert_eq!(f.data, vec![vec![1, 1, 0], vec![0, 0, 1]]);
}

#[test]
fn factors_from_a_given_reduced_form() {
    let m = BitMatrix { data: vec![vec![1, 1, 0], vec![1, 1, 0], vec![0, 0, 1]], cols: 3 };
    let r = BitMatrix { data: vec![vec![1, 1, 0], vec![0, 0, 1], vec![0, 0, 0]], cols: 3 };
    let (c, f) = m.factors_from_reduced(&r);
    assert_eq!(c.data, vec![vec![1, 0], vec![1, 0], vec![0, 1]]);
    assert_eq!(f.data, vec![vec![1, 1, 0], vec![0, 0, 1]]);
    // the staircase walk skips a zero entry and moves right
    let r = BitMatrix { data: vec![vec![0, 1, 0], vec![0, 0, 0], vec![0, 0, 0]], cols: 3 };
    let (c, f) = m.factors_from_reduced(&r);
    assert_eq!(c.data, vec![vec![1], vec![1], vec![0]]);
    assert_eq!(f.data, vec![vec![0, 1, 0]]);
}

#[test]
fn complement_cover_of_block_matrix() {
    // rows are the right vertices 3, 4, 5; columns the left vertices 0, 1, 2
    let b = bigraph(6, vec![0, 1, 2], vec![3, 4, 5], &[(3, 0), (3, 1), (4, 0), (4, 1), (5, 2)]);
    assert_eq!(b.biadjacency().data, vec![vec![1, 1, 0], vec![1, 1, 0], vec![0, 0, 1]]);
    let cover = b.complement_cover();
    assert_eq!(cover, vec![vec![3, 4, 0, 1], vec![5, 2]]);
}

#[test]
fn complement_cover_blocks_sum_to_the_edges() {
    let mut rng = StdRng::seed_from_u64(4);
    for _ in 0..50 {
        let b = random_bigraph(&mut rng, 12, 0.3, 0.5);
        let m = b.biadjacency();
        let cover = b.complement_cover();
        let mut sum = vec![vec![0u8; b.left.len()]; b.right.len()];
        for s in &cover {
            for (i, r) in b.right.iter().enumerate() {
                for (j, l) in b.left.iter().enumerate() {
                    if s.contains(r) && s.contains(l) {
                        sum[i][j] ^= 1;
                    }
                }
            }
        }
        assert_eq!(sum, m.data);
        assert_eq!(cover.len(), Mat2::new(m.data.clone()).rank());
    }
}

#[test]
fn from_sep_keeps_edges_between_larger_side_and_cut() {
    // path 0 - 1 - 2 - 3 - 4 with 5 joined to 0; cut {2}, left {0, 1, 5}, right {3, 4}
    let g = graph_from_edges(6, &[(0, 1), (1, 2), (2, 3), (3, 4), (0, 5)]);
    let sep = VertexSeparator { left: vec![5, 1, 0], right: vec![3, 4], cut: vec![2] };
    let b = BiGraph::from_sep(&g, &sep);
    assert_eq!(edge_list(&b.graph), vec![(1, 2)]);
    assert_eq!(b.left, vec![1]);
    assert_eq!(b.right, vec![2]);
    assert_eq!(b.crossing_edges(), 1);
    // the right side is used when it is the larger one
    let sep = VertexSeparator { left: vec![3], right: vec![0, 1, 5, 4], cut: vec![2] };
    let b = BiGraph::from_sep(&g, &sep);
    assert_eq!(edge_list(&b.graph), vec![(1, 2)]);
    assert_eq!(b.left, vec![1]);
    assert_eq!(b.right, vec![2]);
}

#[test]
fn crossing_edges_counts_edges_between_sides() {
    let b = bigraph(5, vec![0, 1], vec![2, 3], &[(0, 2), (1, 2), (1, 3), (3, 4), (0, 1)]);
    assert_eq!(b.crossing_edges(), 3);
}

#[test]
fn flow_network_layout() {
    let b = bigraph(4, vec![0, 1], vec![2, 3], &[(0, 3), (1, 2), (1, 3)]);
    let net = b.flow_network();
    assert_eq!(net.num_nodes, 6);
    assert_eq!(
        net.arcs,
        vec![(SOURCE, 2), (SOURCE, 3), (4, SINK), (5, SINK), (2, 5), (3, 4), (3, 5)]
    );
}

#[test]
fn cover_from_cut_reads_both_sides() {
    let b = bigraph(4, vec![0, 1], vec![2, 3], &[(0, 3), (1, 2), (1, 3)]);
    // source side {source, node of left 0, node of right 3}
    let side = vec![true, false, true, false, false, true];
    assert_eq!(b.cover_from_cut(&side), vec![1, 3]);
    // a side without the source is read turned round
    let flipped: Vec<bool> = side.iter().map(|x| !x).collect();
    assert_eq!(b.cover_from_cut(&flipped), vec![1, 3]);
}

#[test]
fn min_vertex_cover_of_matching() {
    // a perfect matching of size 3 plus nothing else
    let b = bigraph(6, vec![0, 1, 2], vec![3, 4, 5], &[(0, 3), (1, 4), (2, 5)]);
    assert_eq!(b.min_vertex_cover().len(), 3);
    // a star: one vertex covers everything
    let b = bigraph(5, vec![0], vec![1, 2, 3, 4], &[(0, 1), (0, 2), (0, 3), (0, 4)]);
    assert_eq!(b.min_vertex_cover(), vec![0]);
}

#[test]
fn min_vertex_cover_is_a_cover_of_matching_size() {
    let mut rng = StdRng::seed_from_u64(11);
    for _ in 0..100 {
        let b = random_bigraph(&mut rng, 10, 0.3, 0.5);
        let cover = b.min_vertex_cover();
        for &l in &b.left {
            for &r in &b.right {
                if b.graph.has_edge(l, r) {
                    assert!(cover.contains(&l) || cover.contains(&r));
                }
            }
        }
        assert_eq!(cover.len(), max_matching(&b));
    }
}

fn sep(left: usize, right: usize, cut: usize) -> VertexSeparator {
    VertexSeparator {
        left: (0..left).collect(),
        right: (left..left + right).collect(),
        cut: (left + right..left + right + cut).collect(),
    }
}

#[test]
fn alpha_params_values() {
    // d1 = min(4, 2) + 3 = 5, d2 = 4, n = 9
    let s = sep(4, 2, 3);
    let cover = vec![vec![0, 6], vec![1]];
    let p = alpha_params(9, &s, &cover, 1);
    assert_eq!(p, AlphaParams { a: 4, b: 5, terms: 3 });
}

#[test]
fn improved_alpha_params_shift_the_sizes() {
    let s = sep(4, 2, 3); // cut = {6, 7, 8}
    // {0, 6}: one in the cut, and all but one: the larger instance loses one
    // {0, 1, 6}: exactly one in the cut: the smaller instance loses one
    // {6, 7, 8}: all three in the cut: no change
    let cover = vec![vec![0, 6], vec![0, 1, 6], vec![6, 7, 8]];
    let p = improved_alpha_params(9, &s, &cover, 0).unwrap();
    // d1 = 5 - 1 = 4, d2 = 4 - 1 = 3
    assert_eq!(p, AlphaParams { a: 5, b: 6, terms: 3 });
    assert_eq!(vertex_cut_in_subgraph_complement_cut(&s, &cover), 2);
    // repeated vertices count once
    let cover = vec![vec![6, 6, 0]];
    assert_eq!(vertex_cut_in_subgraph_complement_cut(&s, &cover), 1);
}

#[test]
fn improved_alpha_params_reject_negative_sizes() {
    let s = sep(0, 0, 1);
    let cover = vec![vec![0, 5], vec![0, 6]];
    // each subset has all but one vertex in the cut: d2 = 0 would drop twice
    assert_eq!(improved_alpha_params(1, &s, &cover, 0), None);
}

#[test]
fn vertex_cut_params_values() {
    let s = sep(4, 2, 3);
    assert_eq!(vertex_cut_params(&s, -1), Some(AlphaParams { a: 5, b: 7, terms: 2 }));
}

#[test]
fn csr_form_of_a_path() {
    let g = graph_from_edges(3, &[(0, 1), (1, 2)]);
    let c = Graph::new(&g);
    assert_eq!(c.nvtxs(), 3);
    assert_eq!(c.map(), &vec![0, 1, 2]);
    assert_eq!(c.xadj(), &vec![0, 1, 3, 4]);
    assert_eq!(c.adjncy(), &vec![1, 0, 2, 1]);
}

#[test]
fn separator_from_parts_and_status() {
    let g = graph_from_edges(4, &[(0, 1), (1, 2), (2, 3)]);
    let c = Graph::new(&g);
    let s = c.separator_from_parts(&vec![0, 2, 1, 1]);
    assert_eq!(s.left, vec![0]);
    assert_eq!(s.cut, vec![1]);
    assert_eq!(s.right, vec![2, 3]);
    assert!(check_status(1).is_ok());
    assert_eq!(check_status(-2), Err(Error::Input));
    assert_eq!(check_status(-3), Err(Error::Memory));
    assert_eq!(check_status(-4), Err(Error::Other));
    assert_eq!(Options::default_options().max_imbalance(30).ufactor, Some(30));
    assert_eq!(Options::default_options().ufactor, None);
    assert_eq!(Options::default().max_imbalance(10).ufactor, Some(10));
}

#[test]
fn toggling_twice_restores_graph_and_set() {
    let mut rng = StdRng::seed_from_u64(5);
    let g = random_graph(&mut rng, 12, 0.4);
    let mut f = ComplementFinder::new(&g);
    for v in [1usize, 4, 7] {
        if f.propose(v).is_some() {
            f.resolve(true);
        }
    }
    let before_edges = edge_list(&f.graph);
    let before_set = f.current.clone();
    for _ in 0..2 {
        if f.propose(4).is_some() {
            f.resolve(true);
        }
    }
    assert_eq!(edge_list(&f.graph), before_edges);
    assert_eq!(f.current, before_set);
}

#[test]
fn rejected_proposal_is_undone() {
    let mut rng = StdRng::seed_from_u64(8);
    let g = random_graph(&mut rng, 10, 0.2);
    let mut f = ComplementFinder::new(&g);
    let mut rejected = false;
    for v in 0..10 {
        let edges = edge_list(&f.graph);
        let set = f.current.clone();
        if f.propose(v).is_some() {
            f.resolve(false);
            assert_eq!(edge_list(&f.graph), edges);
            assert_eq!(f.current, set);
            rejected = true;
        }
    }
    assert!(rejected);
}

#[test]
fn best_fitness_never_rises_and_is_restored() {
    let mut rng = StdRng::seed_from_u64(3);
    let g = random_graph(&mut rng, 15, 0.5);
    let mut f = ComplementFinder::new(&g);
    let mut best = f.best_fitness();
    for _ in 0..500 {
        let v = rng.gen_range(0..15);
        if f.propose(v).is_some() {
            let accept = rng.gen_bool(0.5);
            f.resolve(accept);
        }
        assert!(f.best_fitness() <= best);
        assert!(f.best_fitness() <= f.fitness);
        best = f.best_fitness();
    }
    f.restore_best();
    assert_eq!(f.fitness, best);
    assert_eq!(f.graph.num_edges(), best);
}

#[test]
fn empty_graph_gives_no_move() {
    let g = SimpleGraph::new(0);
    let c = ComplementFinder::new(&g);
    assert_eq!(c.fitness, 0);
    let p = PivotFinder::new(&g);
    let mut s = Sparsifier::new(&g, 0, 1, 1);
    assert!(!s.commit_round(c, p));
    assert!(s.moves.is_empty());
}

#[test]
fn single_edge_is_removed_by_a_complement() {
    let g = graph_from_edges(2, &[(0, 1)]);
    let mut f = ComplementFinder::new(&g);
    assert_eq!(f.propose(0), None);
    assert_eq!(f.propose(1), None);
    assert_eq!(f.graph.num_edges(), 0);
    assert_eq!(f.solution_found(), vec![0, 1]);
}

#[test]
fn uphill_proposal_reports_its_rise() {
    let g = SimpleGraph::new(3);
    let mut f = ComplementFinder::new(&g);
    assert_eq!(f.propose(0), None);
    assert_eq!(f.propose(1), Some(1));
    f.resolve(true);
    assert_eq!(f.propose(2), Some(2));
    f.resolve(false);
    assert_eq!(f.graph.num_edges(), 1);
    assert_eq!(f.solution_found(), vec![0, 1]);
}

#[test]
fn pivot_clears_complete_bipartite_graph() {
    let mut edges = Vec::new();
    for a in 0..3 {
        for b in 3..6 {
            edges.push((a, b));
        }
    }
    let g = graph_from_edges(6, &edges);
    let mut p = PivotFinder::new(&g);
    for v in 0..3 {
        assert!(p.can_toggle(v, true));
        assert_eq!(p.propose(v, true), None);
    }
    assert!(!p.can_toggle(0, false));
    for v in 3..6 {
        assert_eq!(p.propose(v, false), None);
    }
    assert_eq!(p.graph.num_edges(), 0);
    p.restore_best();
    assert_eq!(p.fitness, 0);
    let mut s = Sparsifier::new(&g, 0, 1, 1);
    let c = ComplementFinder::new(&g);
    assert!(s.commit_round(c, p));
    assert_eq!(s.graph.num_edges(), 0);
    match &s.moves[0] {
        SparsifierMove::Pivot(l, r) => {
            assert_eq!(l, &vec![0, 1, 2]);
            assert_eq!(r, &vec![3, 4, 5]);
        }
        SparsifierMove::Complement(_) => panic!("expected a pivot"),
    }
}

#[test]
fn sparsifier_prefers_the_cheaper_move() {
    // a triangle: complementing it leaves no edge
    let g = graph_from_edges(3, &[(0, 1), (1, 2), (0, 2)]);
    let mut c = ComplementFinder::new(&g);
    for v in 0..3 {
        if c.propose(v).is_some() {
            c.resolve(true);
        }
    }
    assert_eq!(c.graph.num_edges(), 0);
    let p = PivotFinder::new(&g);
    let mut s = Sparsifier::new(&g, 0, 1, 1);
    assert_eq!(s.cost(&g), 3);
    assert!(s.commit_round(c, p));
    assert_eq!(s.graph.num_edges(), 0);
    match &s.moves[0] {
        SparsifierMove::Complement(c) => assert_eq!(c, &vec![0, 1, 2]),
        SparsifierMove::Pivot(_, _) => panic!("expected a complement"),
    }
}

#[test]
fn cost_weights_vertices_and_edges() {
    let g = graph_from_edges(4, &[(0, 1), (2, 3)]);
    let s = Sparsifier::new(&g, 25, 3, 100);
    assert_eq!(s.cost(&g), 25 * 4 + 3 * 2);
}

fn run_rounds(seed: u64, g: &SimpleGraph) -> (Vec<(usize, usize)>, usize) {
    let mut rng = StdRng::seed_from_u64(seed);
    let n = g.num_vertices();
    let mut s = Sparsifier::new(g, 0, 1, 1);
    for _ in 0..3 {
        let mut c = ComplementFinder::new(&s.graph);
        let mut p = PivotFinder::new(&s.graph);
        for step in 0..400 {
            let temp = 3.0 * (0.01f32 / 3.0).powf(step as f32 / 400.0);
            if let Some(d) = c.propose(rng.gen_range(0..n)) {
                let accept = rng.gen::<f32>() < (-(d as f32) / temp).exp();
                c.resolve(accept);
            }
            let left = rng.gen_bool(0.5);
            let v = loop {
                let v = rng.gen_range(0..n);
                if p.can_toggle(v, left) {
                    break v;
                }
            };
            if let Some(d) = p.propose(v, left) {
                let accept = rng.gen::<f32>() < (-(d as f32) / temp).exp();
                p.resolve(accept);
            }
        }
        c.restore_best();
        p.restore_best();
        if !s.commit_round(c, p) {
            break;
        }
    }
    (edge_list(&s.graph), s.moves.len())
}

#[test]
fn same_seed_same_result() {
    let mut rng = StdRng::seed_from_u64(21);
    let g = random_graph(&mut rng, 14, 0.6);
    let a = run_rounds(99, &g);
    let b = run_rounds(99, &g);
    assert_eq!(a, b);
    assert!(a.1 >= 1);
}

#[test]
fn set_finder_fitness_with_and_without_cut() {
    let g = graph_from_edges(4, &[(0, 1), (1, 2), (2, 3)]);
    let mut f = ComplementSetFinder::new(&g, false, 1, 2, 2);
    assert_eq!(f.fitness, 4 + 2 * 3);
    // putting 0 in set 1 adds a gadget vertex and one gadget edge
    assert_eq!(f.propose(0, 1), Some(1 + 2));
    f.resolve(true);
    assert_eq!(f.fitness, 5 + 2 * 4);
    let mut f = ComplementSetFinder::new(&g, true, 1, 2, 2);
    assert_eq!(f.fitness, 4 + 2 * 3);
    assert_eq!(f.propose(0, 1), None);
    assert_eq!(f.fitness, 4 + 2 * 3);
    // 1 joins set 1: the edge {0, 1} goes
    assert_eq!(f.propose(1, 1), None);
    assert_eq!(f.fitness, 4 + 2 * 2);
}

#[test]
fn term_signs_expand_nonempty_sets() {
    let g = graph_from_edges(4, &[(0, 1)]);
    let mut f = ComplementSetFinder::new(&g, true, 0, 1, 3);
    assert_eq!(f.propose(0, 0), None);
    assert_eq!(f.propose(2, 2), None);
    let t = f.term_signs();
    assert_eq!(
        t,
        vec![
            vec![false, false, false],
            vec![false, false, true],
            vec![true, false, false],
            vec![true, false, true],
        ]
    );
    let f = ComplementSetFinder::new(&g, false, 0, 1, 3);
    assert_eq!(f.term_signs(), vec![vec![false, false, false]]);
}

#[test]
fn toggle_edge_counts_edges() {
    let mut g = SimpleGraph::new(4);
    g.toggle_edge(0, 1);
    g.toggle_edge(2, 1);
    assert_eq!(g.num_edges(), 2);
    assert!(g.has_edge(1, 0));
    g.toggle_edge(1, 0);
    assert_eq!(g.num_edges(), 1);
    assert!(!g.has_edge(0, 1));
    let c = g.copy();
    assert_eq!(edge_list(&c), vec![(1, 2)]);
}

fn as_set(n: usize, members: &[usize]) -> Vec<bool> {
    let mut s = vec![false; n];
    for &v in members {
        s[v] = true;
    }
    s
}

#[test]
fn move_log_replays_to_the_sparsified_graph() {
    let mut rng = StdRng::seed_from_u64(17);
    let g = random_graph(&mut rng, 12, 0.6);
    let n = g.num_vertices();
    let mut s = Sparsifier::new(&g, 0, 1, 1);
    for _ in 0..4 {
        let mut c = ComplementFinder::new(&s.graph);
        let mut p = PivotFinder::new(&s.graph);
        for _ in 0..300 {
            if c.propose(rng.gen_range(0..n)).is_some() {
                c.resolve(rng.gen_bool(0.1));
            }
            let left = rng.gen_bool(0.5);
            let v = rng.gen_range(0..n);
            if p.can_toggle(v, left) && p.propose(v, left).is_some() {
                p.resolve(rng.gen_bool(0.1));
            }
        }
        c.restore_best();
        p.restore_best();
        if !s.commit_round(c, p) {
            break;
        }
    }
    assert!(!s.moves.is_empty());
    let mut replayed = g.copy();
    for m in &s.moves {
        let pairs = match m {
            SparsifierMove::Complement(c) => complement_pairs(&as_set(n, c)),
            SparsifierMove::Pivot(l, r) => pivot_pairs(&as_set(n, l), &as_set(n, r)),
        };
        for (a, b) in pairs {
            replayed.toggle_edge(a, b);
        }
    }
    assert_eq!(edge_list(&replayed), edge_list(&s.graph));
}

#[test]
fn complement_and_pivot_pairs() {
    assert_eq!(complement_pairs(&vec![true, false, true, true]), vec![(0, 2), (0, 3), (2, 3)]);
    assert_eq!(
        pivot_pairs(&vec![true, false, false, true], &vec![false, true, true, false]),
        vec![(0, 1), (0, 2), (3, 1), (3, 2)]
    );
}

fn cache(left: Vec<usize>, right: Vec<usize>, cut: Vec<usize>, cover: Vec<Vec<usize>>) -> CutCache {
    CutCache { sep: VertexSeparator { left, right, cut }, cover }
}

#[test]
fn subgraph_cut_finder_keeps_the_best_cut() {
    let g = graph_from_edges(4, &[(0, 1), (1, 2), (2, 3)]);
    let mut f = SubgraphCutFinder::new(&g, &vec![0, 2]);
    assert_eq!(f.current, vec![true, false, true, false]);
    assert!(f.graph.has_edge(0, 2));
    f.score(10, cache(vec![0], vec![3], vec![1, 2], vec![]));
    // a lower score is kept, with its cut
    f.propose(1);
    f.decide(7, cache(vec![0, 1], vec![3], vec![2], vec![vec![2, 0]]), false);
    assert_eq!(f.fitness, 7);
    assert_eq!(f.best_fitness, 7);
    assert_eq!(f.current, vec![true, true, true, false]);
    assert_eq!(edge_list(&f.graph), vec![(0, 2), (2, 3)]);
    // a higher score is undone unless accepted
    f.propose(3);
    f.decide(9, cache(vec![3], vec![0], vec![1, 2], vec![]), false);
    assert_eq!(f.fitness, 7);
    assert_eq!(f.current, vec![true, true, true, false]);
    assert_eq!(edge_list(&f.graph), vec![(0, 2), (2, 3)]);
    f.propose(3);
    f.decide(9, cache(vec![3], vec![0], vec![1, 2], vec![]), true);
    assert_eq!(f.fitness, 9);
    assert_eq!(f.best_fitness, 7);
    f.restore_best();
    assert_eq!(f.fitness, 7);
    assert_eq!(f.current, vec![true, true, true, false]);
    assert_eq!(f.current_cut.sep.left, vec![0, 1]);
    assert_eq!(f.current_cut.cover, vec![vec![2, 0]]);
}

#[test]
fn subgraph_cut_finder_abandons_an_unscored_step() {
    let g = graph_from_edges(3, &[(0, 1)]);
    let mut f = SubgraphCutFinder::new(&g, &vec![0]);
    f.score(5, cache(vec![0], vec![2], vec![1], vec![]));
    f.propose(1);
    assert_eq!(f.graph.num_edges(), 0);
    f.abandon();
    assert_eq!(f.fitness, 5);
    assert_eq!(f.current, vec![true, false, false]);
    assert_eq!(edge_list(&f.graph), vec![(0, 1)]);
    assert_eq!(f.current_cut.sep.cut, vec![1]);
}

#[test]
fn toggle_in_set_twice_is_the_identity() {
    let mut rng = StdRng::seed_from_u64(23);
    let mut g = random_graph(&mut rng, 9, 0.5);
    let mut set = vec![true, false, true, true, false, false, true, false, false];
    let edges = edge_list(&g);
    let before = set.clone();
    toggle_in_set(&mut g, &mut set, 4);
    assert_ne!(edge_list(&g), edges);
    assert!(set[4]);
    toggle_in_set(&mut g, &mut set, 4);
    assert_eq!(edge_list(&g), edges);
    assert_eq!(set, before);
}

#[test]
fn improves_compares_costs_strictly() {
    let a = graph_from_edges(4, &[(0, 1), (2, 3)]);
    let b = graph_from_edges(4, &[(0, 1)]);
    let s = Sparsifier::new(&a, 1, 2, 1);
    assert!(s.improves(&a, &b));
    assert!(!s.improves(&b, &a));
    assert!(!s.improves(&a, &a));
}

#[test]
fn rank_decomposition_factors_are_nonzero() {
    let mut rng = StdRng::seed_from_u64(31);
    for _ in 0..100 {
        let data: Vec<Vec<u8>> = (0..6).map(|_| (0..7).map(|_| rng.gen_bool(0.3) as u8).collect()).collect();
        let m = BitMatrix { data, cols: 7 };
        let (c, f) = m.rank_decomposition();
        for j in 0..c.num_cols() {
            assert!((0..c.num_rows()).any(|i| c.get(i, j) == 1));
            assert!((0..f.num_cols()).any(|q| f.get(j, q) == 1));
        }
    }
}
