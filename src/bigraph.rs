use vstd::prelude::*;
use crate::alpha::cover_view;
use crate::gf2::{factors_form_basis, column_nonzero, is_bit_matrix, product_bit, rank_factors, row_nonzero, BitMatrix};
use crate::graph::{count_true, SimpleGraph};
use crate::separator::VertexSeparator;
use rs_graph::traits::IndexGraph;
use rs_graph::{Buildable, Builder};

verus! {

/// The sum of the capacities of the arcs among `arcs[..k]` that leave the source.
pub open spec fn source_capacity(arcs: Seq<(usize, usize)>, caps: Seq<u64>, k: int) -> nat
    decreases k,
{
    if k <= 0 {
        0
    } else {
        source_capacity(arcs, caps, k - 1) + if arcs[k - 1].0 == SOURCE { caps[k - 1] as nat } else { 0nat }
    }
}

/// The number of arcs among `arcs[..k]` that leave the source.
pub open spec fn source_arc_count(arcs: Seq<(usize, usize)>, k: int) -> nat
    decreases k,
{
    if k <= 0 {
        0
    } else {
        source_arc_count(arcs, k - 1) + if arcs[k - 1].0 == SOURCE { 1nat } else { 0nat }
    }
}

/// Capacities for `arcs`: one on an arc at the source or the sink, and
/// otherwise one more than the number of arcs out of the source, which no
/// flow can fill.
pub open spec fn capacities_of(arcs: Seq<(usize, usize)>) -> Seq<u64> {
    Seq::new(
        arcs.len(),
        |k: int| if arcs[k].0 == SOURCE || arcs[k].1 == SINK { 1u64 } else { (source_arc_count(arcs, arcs.len() as int) + 1) as u64 },
    )
}

/// The capacity of the arcs among `arcs[lo..hi]` that leave the node set `side`.
pub open spec fn cap_between(arcs: Seq<(usize, usize)>, caps: Seq<u64>, side: Seq<bool>, lo: int, hi: int) -> nat
    decreases hi - lo,
{
    if hi <= lo {
        0
    } else {
        cap_between(arcs, caps, side, lo, hi - 1) + if side[arcs[hi - 1].0 as int] && !side[arcs[hi - 1].1 as int] {
            caps[hi - 1] as nat
        } else {
            0nat
        }
    }
}

/// The capacity of the cut whose source side is the node set `side`.
pub open spec fn cut_capacity(arcs: Seq<(usize, usize)>, caps: Seq<u64>, side: Seq<bool>) -> nat {
    cap_between(arcs, caps, side, 0, arcs.len() as int)
}

/// `kl` and `kr` pick, by position, left and right vertices that meet every
/// edge between the two sides.
pub open spec fn covers_edges(g: SimpleGraph, left: Seq<usize>, right: Seq<usize>, kl: Seq<bool>, kr: Seq<bool>) -> bool {
    forall|i: int, j: int|
        0 <= i < left.len() && 0 <= j < right.len() && #[trigger] g.edge(left[i] as int, right[j] as int) ==> kl[i]
            || kr[j]
}

/// The source side of the minimum cut that rs-graph's push-relabel solver
/// finds from node `SOURCE` to node `SINK`.
pub uninterp spec fn min_cut_of(num_nodes: nat, arcs: Seq<(usize, usize)>, caps: Seq<u64>) -> Seq<bool>;

/// Relies on rs-graph's `PushRelabel::solve` and `PushRelabel::mincut`; no arc
/// may join a node to itself, since the solver counts such a loop at the
/// source twice when it saturates the source's arcs. After
/// a maximum flow, `mincut` returns the nodes whose height is at least the
/// node count: the source (its height stays the node count) and no node from
/// which the sink can still be reached in the residual network, so not the
/// sink (height 0). It is a minimum cut: no other node set holding the source
/// and not the sink has smaller capacity. No arc leaving it has capacity
/// left; an arc whose capacity exceeds the total capacity out of the source
/// is never full, so it never leaves the set.
#[verifier::external_body]
fn min_cut_side(num_nodes: usize, arcs: &Vec<(usize, usize)>, caps: &Vec<u64>) -> (side: Vec<bool>)
    requires
        num_nodes >= 2,
        arcs@.len() == caps@.len(),
        forall|k: int| 0 <= k < arcs@.len() ==> (#[trigger] arcs@[k]).0 < num_nodes && arcs@[k].1 < num_nodes,
        forall|k: int| 0 <= k < arcs@.len() ==> (#[trigger] arcs@[k]).0 != arcs@[k].1,
        source_capacity(arcs@, caps@, arcs@.len() as int) < u64::MAX,
    ensures
        side@ == min_cut_of(num_nodes as nat, arcs@, caps@),
        side@.len() == num_nodes,
        side@[SOURCE as int],
        !side@[SINK as int],
        forall|k: int|
            0 <= k < arcs@.len() && caps@[k] > source_capacity(arcs@, caps@, arcs@.len() as int)
                && side@[(#[trigger] arcs@[k]).0 as int] ==> side@[arcs@[k].1 as int],
        forall|other: Seq<bool>|
            other.len() == num_nodes && other[SOURCE as int] && !other[SINK as int] ==> cut_capacity(
                arcs@,
                caps@,
                side@,
            ) <= #[trigger] cut_capacity(arcs@, caps@, other),
{
    let mut b = rs_graph::VecGraph::<usize>::new_builder();
    let nodes = b.add_nodes(num_nodes);
    for &(u, v) in arcs.iter() {
        b.add_edge(nodes[u], nodes[v]);
    }
    let g = b.into_graph();
    let mut flow = rs_graph::maxflow::PushRelabel::<_, u64>::new(&g);
    flow.solve(g.id2node(SOURCE), g.id2node(SINK), |e| caps[g.edge_id(e)]);
    let mut side = vec![false; num_nodes];
    for u in flow.mincut() {
        side[g.node_id(u)] = true;
    }
    side
}

/// The pair `{u, v}` has one end in `a` and the other in `b`.
pub open spec fn joins(a: Seq<usize>, b: Seq<usize>, u: int, v: int) -> bool {
    (a.contains(u as usize) && b.contains(v as usize)) || (a.contains(v as usize) && b.contains(
        u as usize,
    ))
}

/// The vertices below `k` that satisfy `p`, in increasing order.
pub open spec fn vertices_with(k: int, p: spec_fn(usize) -> bool) -> Seq<usize>
    decreases k,
{
    if k <= 0 {
        Seq::empty()
    } else if p((k - 1) as usize) {
        vertices_with(k - 1, p).push((k - 1) as usize)
    } else {
        vertices_with(k - 1, p)
    }
}

proof fn lemma_vertices_with(k: int, p: spec_fn(usize) -> bool)
    requires
        0 <= k <= usize::MAX,
    ensures
        vertices_with(k, p).len() <= k,
        forall|i: int|
            0 <= i < vertices_with(k, p).len() ==> #[trigger] vertices_with(k, p)[i] < k && p(
                vertices_with(k, p)[i],
            ),
        forall|i: int, j: int|
            0 <= i < j < vertices_with(k, p).len() ==> #[trigger] vertices_with(k, p)[i] < #[trigger] vertices_with(
                k,
                p,
            )[j],
        vertices_with(k, p).no_duplicates(),
    decreases k,
{
    if k > 0 {
        lemma_vertices_with(k - 1, p);
        let a = vertices_with(k - 1, p);
        let s = vertices_with(k, p);
        if p((k - 1) as usize) {
            assert(s == a.push((k - 1) as usize));
            assert forall|i: int, j: int| 0 <= i < j < s.len() implies #[trigger] s[i] < #[trigger] s[j] by {
                if j < a.len() {
                    assert(s[i] == a[i] && s[j] == a[j]);
                    assert(a[i] < a[j]);
                } else {
                    assert(s[i] == a[i]);
                    assert(a[i] < k - 1);
                    assert(s[j] == (k - 1) as usize);
                }
            }
        }
        assert forall|i: int, j: int| 0 <= i < s.len() && 0 <= j < s.len() && i != j implies s[i] != s[j] by {
            if i < j {
                assert(s[i] < s[j]);
            } else {
                assert(s[j] < s[i]);
            }
        }
    }
}

/// `v` has a neighbour in `g`.
pub open spec fn has_neighbor(g: SimpleGraph, v: int) -> bool {
    exists|w: int| 0 <= w < g.n() && #[trigger] g.edge(v, w)
}

/// The larger of the two sides of `sep` (the left one when they are equal).
pub open spec fn big_side(sep: VertexSeparator) -> Seq<usize> {
    if sep.left@.len() < sep.right@.len() {
        sep.right@
    } else {
        sep.left@
    }
}

/// The biadjacency matrix of `left` and `right` in `g`: rows for `right`,
/// columns for `left`, and a 1 where the two vertices are joined.
pub open spec fn biadjacency_of(g: SimpleGraph, left: Seq<usize>, right: Seq<usize>) -> Seq<Seq<u8>> {
    Seq::new(
        right.len(),
        |i: int| Seq::new(left.len(), |j: int| if g.edge(right[i] as int, left[j] as int) { 1u8 } else { 0u8 }),
    )
}

/// The entries of `ids` at the positions `t < k` where `bits[t] == 1`, in order.
pub open spec fn picks(ids: Seq<usize>, bits: Seq<u8>, k: int) -> Seq<usize>
    decreases k,
{
    if k <= 0 {
        Seq::empty()
    } else if bits[k - 1] == 1 {
        picks(ids, bits, k - 1).push(ids[k - 1])
    } else {
        picks(ids, bits, k - 1)
    }
}

/// Column `i` of the matrix `c`.
pub open spec fn column_of(c: Seq<Seq<u8>>, i: int) -> Seq<u8> {
    Seq::new(c.len(), |r: int| c[r][i])
}

/// The subset for factor `i` of the cover: the `right` vertices picked by
/// column `i` of `c`, then the `left` vertices picked by row `i` of `f`.
pub open spec fn cover_subset(
    left: Seq<usize>,
    right: Seq<usize>,
    c: Seq<Seq<u8>>,
    f: Seq<Seq<u8>>,
    i: int,
) -> Seq<usize> {
    picks(right, column_of(c, i), right.len() as int) + picks(left, f[i], left.len() as int)
}

/// Edges `{u, v}` with `u < v < hi` of row `u` of `m` that join `a` to `b`.
pub open spec fn row_crossings(m: Seq<Seq<bool>>, a: Seq<usize>, b: Seq<usize>, u: int, hi: int) -> nat
    decreases hi - u,
{
    if hi <= u + 1 {
        0
    } else {
        row_crossings(m, a, b, u, hi - 1) + if m[u][hi - 1] && joins(a, b, u, hi - 1) {
            1nat
        } else {
            0nat
        }
    }
}

/// Edges `{u, v}` with `u < k` and `u < v` of `m` that join `a` to `b`.
pub open spec fn crossings(m: Seq<Seq<bool>>, a: Seq<usize>, b: Seq<usize>, k: int) -> nat
    decreases k,
{
    if k <= 0 {
        0
    } else {
        crossings(m, a, b, k - 1) + row_crossings(m, a, b, k - 1, m.len() as int)
    }
}

/// The node of the flow network that stands for the source.
pub const SOURCE: usize = 0;

/// The node of the flow network that stands for the sink.
pub const SINK: usize = 1;

/// A directed network for a max-flow solver. Arcs at the source or the sink
/// have capacity one; the others have unbounded capacity.
pub struct FlowNetwork {
    pub num_nodes: usize,
    pub arcs: Vec<(usize, usize)>,
}

/// The arcs of `flow_network()`: source arcs, then sink arcs, then arcs along the edges.
pub open spec fn network_arcs(g: SimpleGraph, left: Seq<usize>, right: Seq<usize>) -> Seq<(usize, usize)> {
    source_arcs(left.len() as int) + sink_arcs(left.len() as int, right.len() as int) + middle_arcs(
        g,
        left,
        right,
        left.len() as int,
    )
}

/// The arcs from the source to the nodes `2..2 + k`.
pub open spec fn source_arcs(k: int) -> Seq<(usize, usize)> {
    Seq::new(k as nat, |i: int| (SOURCE, (2 + i) as usize))
}

/// The arcs to the sink from the nodes `2 + l..2 + l + k`.
pub open spec fn sink_arcs(l: int, k: int) -> Seq<(usize, usize)> {
    Seq::new(k as nat, |j: int| ((2 + l + j) as usize, SINK))
}

/// The arcs from left node `i` to right node `j` for each edge, with `i < k`, in row-major order.
pub open spec fn middle_arcs(g: SimpleGraph, left: Seq<usize>, right: Seq<usize>, k: int) -> Seq<(usize, usize)>
    decreases k,
{
    if k <= 0 {
        Seq::empty()
    } else {
        middle_arcs(g, left, right, k - 1) + middle_row(g, left, right, k - 1, right.len() as int)
    }
}

/// The arcs from left node `i` to the right nodes `j < k` that it is joined to.
pub open spec fn middle_row(g: SimpleGraph, left: Seq<usize>, right: Seq<usize>, i: int, k: int) -> Seq<(usize, usize)>
    decreases k,
{
    if k <= 0 {
        Seq::empty()
    } else if g.edge(left[i] as int, right[k - 1] as int) {
        middle_row(g, left, right, i, k - 1).push(
            ((2 + i) as usize, (2 + left.len() + k - 1) as usize),
        )
    } else {
        middle_row(g, left, right, i, k - 1)
    }
}

/// The node set `side` (indexed by node) read as the source side of a cut,
/// turned round when it does not hold the source.
pub open spec fn on_source_side(side: Seq<bool>, x: int) -> bool {
    side[x] == side[SOURCE as int]
}

/// The vertex cover read off a cut: the left vertices on the sink side, then
/// the right vertices on the source side.
pub open spec fn cover_of_cut(left: Seq<usize>, right: Seq<usize>, side: Seq<bool>) -> Seq<usize> {
    picks(left, Seq::new(left.len(), |i: int| if on_source_side(side, 2 + i) { 0u8 } else { 1u8 }), left.len() as int)
        + picks(
        right,
        Seq::new(right.len(), |j: int| if on_source_side(side, 2 + left.len() + j) { 1u8 } else { 0u8 }),
        right.len() as int,
    )
}

proof fn lemma_picks_contains(ids: Seq<usize>, bits: Seq<u8>, k: int, t: int)
    requires
        0 <= t < k <= ids.len(),
        k <= bits.len(),
        bits[t] == 1,
    ensures
        picks(ids, bits, k).contains(ids[t]),
    decreases k,
{
    if t < k - 1 {
        lemma_picks_contains(ids, bits, k - 1, t);
        let s = picks(ids, bits, k - 1);
        let w = choose|w: int| 0 <= w < s.len() && s[w] == ids[t];
        if bits[k - 1] == 1 {
            assert(picks(ids, bits, k)[w] == ids[t]);
        }
    } else {
        assert(picks(ids, bits, k) == picks(ids, bits, k - 1).push(ids[k - 1]));
        assert(picks(ids, bits, k)[picks(ids, bits, k - 1).len() as int] == ids[t]);
    }
}

/// Only entries of `ids` are picked.
proof fn lemma_picks_only(ids: Seq<usize>, bits: Seq<u8>, k: int, x: usize)
    requires
        0 <= k <= ids.len(),
        k <= bits.len(),
    ensures
        picks(ids, bits, k).contains(x) ==> ids.contains(x),
    decreases k,
{
    if k > 0 {
        lemma_picks_only(ids, bits, k - 1, x);
        let p = picks(ids, bits, k - 1);
        let q = p.push(ids[k - 1]);
        if bits[k - 1] == 1 && q.contains(x) && !p.contains(x) {
            let w = choose|w: int| 0 <= w < q.len() && q[w] == x;
            if w < p.len() {
                assert(p[w] == x);
            }
            assert(ids[k - 1] == x);
        }
    }
}

/// With distinct ids, `ids[t]` is picked among the first `k` exactly when `t < k` and `bits[t]` is 1.
proof fn lemma_picks_member(ids: Seq<usize>, bits: Seq<u8>, k: int, t: int)
    requires
        ids.no_duplicates(),
        0 <= k <= ids.len(),
        k <= bits.len(),
        0 <= t < ids.len(),
    ensures
        picks(ids, bits, k).contains(ids[t]) <==> (t < k && bits[t] == 1),
    decreases k,
{
    if t < k && bits[t] == 1 {
        lemma_picks_contains(ids, bits, k, t);
    }
    if k > 0 {
        lemma_picks_member(ids, bits, k - 1, t);
        let p = picks(ids, bits, k - 1);
        let q = p.push(ids[k - 1]);
        if bits[k - 1] == 1 && q.contains(ids[t]) && !p.contains(ids[t]) {
            let w = choose|w: int| 0 <= w < q.len() && q[w] == ids[t];
            if w < p.len() {
                assert(p[w] == ids[t]);
            }
            assert(ids[k - 1] == ids[t]);
        }
    }
}

/// The complete bipartite block that cover subset `i` spans between the two
/// sides is the outer product of column `i` of `c` and row `i` of `f`: with
/// distinct vertices on disjoint sides, `right[r]` and `left[q]` both lie in
/// the subset exactly when `c[r][i]` and `f[i][q]` are both 1.
pub proof fn lemma_cover_subset_block(
    left: Seq<usize>,
    right: Seq<usize>,
    c: Seq<Seq<u8>>,
    f: Seq<Seq<u8>>,
    i: int,
    r: int,
    q: int,
)
    requires
        left.no_duplicates(),
        right.no_duplicates(),
        forall|v: usize| !(#[trigger] left.contains(v) && right.contains(v)),
        c.len() == right.len(),
        0 <= i < f.len(),
        f[i].len() == left.len(),
        0 <= r < right.len(),
        0 <= q < left.len(),
    ensures
        (cover_subset(left, right, c, f, i).contains(right[r]) && cover_subset(left, right, c, f, i).contains(left[q]))
            <==> (c[r][i] == 1 && f[i][q] == 1),
{
    let pr = picks(right, column_of(c, i), right.len() as int);
    let pl = picks(left, f[i], left.len() as int);
    let sub = cover_subset(left, right, c, f, i);
    assert(sub == pr + pl);
    lemma_picks_member(right, column_of(c, i), right.len() as int, r);
    lemma_picks_member(left, f[i], left.len() as int, q);
    lemma_picks_only(left, f[i], left.len() as int, right[r]);
    lemma_picks_only(right, column_of(c, i), right.len() as int, left[q]);
    assert(left.contains(left[q]));
    assert(right.contains(right[r]));
    assert(sub.contains(right[r]) <==> (pr.contains(right[r]) || pl.contains(right[r]))) by {
        if sub.contains(right[r]) {
            let w = choose|w: int| 0 <= w < sub.len() && sub[w] == right[r];
            if w < pr.len() {
                assert(pr[w] == right[r]);
            } else {
                assert(pl[w - pr.len()] == right[r]);
            }
        }
        if pr.contains(right[r]) {
            let w = choose|w: int| 0 <= w < pr.len() && pr[w] == right[r];
            assert(sub[w] == right[r]);
        }
        if pl.contains(right[r]) {
            let w = choose|w: int| 0 <= w < pl.len() && pl[w] == right[r];
            assert(sub[pr.len() + w] == right[r]);
        }
    }
    assert(sub.contains(left[q]) <==> (pr.contains(left[q]) || pl.contains(left[q]))) by {
        if sub.contains(left[q]) {
            let w = choose|w: int| 0 <= w < sub.len() && sub[w] == left[q];
            if w < pr.len() {
                assert(pr[w] == left[q]);
            } else {
                assert(pl[w - pr.len()] == left[q]);
            }
        }
        if pr.contains(left[q]) {
            let w = choose|w: int| 0 <= w < pr.len() && pr[w] == left[q];
            assert(sub[w] == left[q]);
        }
        if pl.contains(left[q]) {
            let w = choose|w: int| 0 <= w < pl.len() && pl[w] == left[q];
            assert(sub[pr.len() + w] == left[q]);
        }
    }
}

/// Whether an odd number of the subsets `cover[..k]` hold both `x` and `y`.
pub open spec fn block_parity(cover: Seq<Seq<usize>>, x: usize, y: usize, k: int) -> bool
    decreases k,
{
    if k <= 0 {
        false
    } else {
        block_parity(cover, x, y, k - 1) != (cover[k - 1].contains(x) && cover[k - 1].contains(y))
    }
}

proof fn lemma_cover_parity_is_edges(
    g: SimpleGraph,
    left: Seq<usize>,
    right: Seq<usize>,
    c: Seq<Seq<u8>>,
    f: Seq<Seq<u8>>,
    cover: Seq<Seq<usize>>,
    k: int,
)
    requires
        left.no_duplicates(),
        right.no_duplicates(),
        forall|v: usize| !(#[trigger] left.contains(v) && right.contains(v)),
        c.len() == right.len(),
        k == if c.len() == 0 { 0 } else { f.len() as int },
        cover.len() == k,
        forall|i: int| 0 <= i < f.len() ==> (#[trigger] f[i]).len() == left.len(),
        forall|i: int| 0 <= i < k ==> #[trigger] cover[i] == cover_subset(left, right, c, f, i),
        forall|a: int, b: int|
            0 <= a < right.len() && 0 <= b < left.len() ==> (#[trigger] biadjacency_of(g, left, right)[a][b] == 1)
                == product_bit(c[a], f, b, f.len() as int),
    ensures
        forall|a: int, b: int|
            0 <= a < right.len() && 0 <= b < left.len() ==> #[trigger] block_parity(cover, right[a], left[b], k)
                == g.edge(right[a] as int, left[b] as int),
{
    assert forall|a: int, b: int| 0 <= a < right.len() && 0 <= b < left.len() implies #[trigger] block_parity(
        cover,
        right[a],
        left[b],
        k,
    ) == g.edge(right[a] as int, left[b] as int) by {
        assert(biadjacency_of(g, left, right)[a][b] == 1 <==> g.edge(right[a] as int, left[b] as int));
        lemma_block_parity(left, right, c, f, cover, k, a, b);
    }
}

/// With distinct ids, the picked ids are distinct.
proof fn lemma_picks_no_duplicates(ids: Seq<usize>, bits: Seq<u8>, k: int)
    requires
        ids.no_duplicates(),
        0 <= k <= ids.len(),
        ids.len() <= bits.len(),
    ensures
        picks(ids, bits, k).no_duplicates(),
    decreases k,
{
    if k > 0 {
        lemma_picks_no_duplicates(ids, bits, k - 1);
        let p = picks(ids, bits, k - 1);
        if bits[k - 1] == 1 {
            lemma_picks_member(ids, bits, k - 1, k - 1);
            let q = p.push(ids[k - 1]);
            assert forall|x: int, y: int| 0 <= x < q.len() && 0 <= y < q.len() && x != y implies q[x] != q[y] by {
                if x < p.len() && y < p.len() {
                    assert(q[x] == p[x] && q[y] == p[y]);
                } else if x < p.len() {
                    assert(q[x] == p[x] && p.contains(p[x]));
                } else if y < p.len() {
                    assert(q[y] == p[y] && p.contains(p[y]));
                }
            }
        }
    }
}

/// `s` holds a vertex of `side`.
pub open spec fn meets(s: Seq<usize>, side: Seq<usize>) -> bool {
    exists|x: usize| s.contains(x) && #[trigger] side.contains(x)
}

#[verifier::spinoff_prover]
proof fn lemma_cover_subsets_shape(
    left: Seq<usize>,
    right: Seq<usize>,
    c: Seq<Seq<u8>>,
    f: Seq<Seq<u8>>,
    cover: Seq<Seq<usize>>,
    k: int,
)
    requires
        c.len() == right.len(),
        is_bit_matrix(c, k as nat),
        is_bit_matrix(f, left.len()),
        0 <= k <= f.len(),
        k == cover.len(),
        forall|j: int| 0 <= j < k ==> #[trigger] column_nonzero(c, j),
        forall|j: int| 0 <= j < f.len() ==> row_nonzero(#[trigger] f[j]),
        forall|i: int| 0 <= i < k ==> #[trigger] cover[i] == cover_subset(left, right, c, f, i),
    ensures
        forall|i: int| 0 <= i < k ==> meets(#[trigger] cover[i], right) && meets(cover[i], left),
        forall|i: int, x: usize| 0 <= i < k && #[trigger] cover[i].contains(x) ==> left.contains(x) || right.contains(x),
        left.no_duplicates() && right.no_duplicates() && (forall|v: usize| !(#[trigger] left.contains(v) && right.contains(v)))
            ==> forall|i: int| 0 <= i < k ==> (#[trigger] cover[i]).no_duplicates(),
{
    assert forall|i: int| 0 <= i < k implies meets(#[trigger] cover[i], right) && meets(cover[i], left) by {
        let pr = picks(right, column_of(c, i), right.len() as int);
        let pl = picks(left, f[i], left.len() as int);
        assert(cover[i] == pr + pl);
        assert(column_nonzero(c, i));
        let r0 = choose|r0: int| 0 <= r0 < c.len() && #[trigger] c[r0][i] == 1;
        assert(column_of(c, i)[r0] == 1);
        lemma_picks_contains(right, column_of(c, i), right.len() as int, r0);
        let w = choose|w: int| 0 <= w < pr.len() && pr[w] == right[r0];
        assert((pr + pl)[w] == right[r0]);
        assert(right.contains(right[r0]));
        assert(row_nonzero(f[i]));
        let q = choose|q: int| 0 <= q < f[i].len() && f[i][q] != 0;
        assert(f[i][q] <= 1);
        lemma_picks_contains(left, f[i], left.len() as int, q);
        let w2 = choose|w2: int| 0 <= w2 < pl.len() && pl[w2] == left[q];
        assert((pr + pl)[pr.len() + w2] == left[q]);
        assert(left.contains(left[q]));
    }
    assert forall|i: int, x: usize| 0 <= i < k && #[trigger] cover[i].contains(x) implies left.contains(x)
        || right.contains(x) by {
        let pr = picks(right, column_of(c, i), right.len() as int);
        let pl = picks(left, f[i], left.len() as int);
        assert(cover[i] == pr + pl);
        lemma_picks_only(right, column_of(c, i), right.len() as int, x);
        lemma_picks_only(left, f[i], left.len() as int, x);
        let w = choose|w: int| 0 <= w < (pr + pl).len() && (pr + pl)[w] == x;
        if w < pr.len() {
            assert(pr[w] == x);
        } else {
            assert(pl[w - pr.len()] == x);
        }
    }
    if left.no_duplicates() && right.no_duplicates() && (forall|v: usize| !(#[trigger] left.contains(v) && right.contains(v))) {
        assert forall|i: int| 0 <= i < k implies (#[trigger] cover[i]).no_duplicates() by {
            let pr = picks(right, column_of(c, i), right.len() as int);
            let pl = picks(left, f[i], left.len() as int);
            assert(cover[i] == pr + pl);
            lemma_picks_no_duplicates(right, column_of(c, i), right.len() as int);
            lemma_picks_no_duplicates(left, f[i], left.len() as int);
            let q = pr + pl;
            assert forall|x: int, y: int| 0 <= x < q.len() && 0 <= y < q.len() && x != y implies q[x] != q[y] by {
                if x < pr.len() && y >= pr.len() {
                    assert(q[x] == pr[x] && q[y] == pl[y - pr.len()]);
                    assert(pr.contains(pr[x]) && pl.contains(pl[y - pr.len()]));
                    lemma_picks_only(right, column_of(c, i), right.len() as int, pr[x]);
                    lemma_picks_only(left, f[i], left.len() as int, pl[y - pr.len()]);
                } else if y < pr.len() && x >= pr.len() {
                    assert(q[y] == pr[y] && q[x] == pl[x - pr.len()]);
                    assert(pr.contains(pr[y]) && pl.contains(pl[x - pr.len()]));
                    lemma_picks_only(right, column_of(c, i), right.len() as int, pr[y]);
                    lemma_picks_only(left, f[i], left.len() as int, pl[x - pr.len()]);
                } else if x < pr.len() {
                    assert(q[x] == pr[x] && q[y] == pr[y]);
                } else {
                    assert(q[x] == pl[x - pr.len()] && q[y] == pl[y - pr.len()]);
                }
            }
        }
    }
}

proof fn lemma_block_parity(
    left: Seq<usize>,
    right: Seq<usize>,
    c: Seq<Seq<u8>>,
    f: Seq<Seq<u8>>,
    cover: Seq<Seq<usize>>,
    k: int,
    a: int,
    b: int,
)
    requires
        left.no_duplicates(),
        right.no_duplicates(),
        forall|v: usize| !(#[trigger] left.contains(v) && right.contains(v)),
        c.len() == right.len(),
        0 <= k <= f.len(),
        k <= cover.len(),
        forall|i: int| 0 <= i < f.len() ==> (#[trigger] f[i]).len() == left.len(),
        forall|i: int| 0 <= i < k ==> #[trigger] cover[i] == cover_subset(left, right, c, f, i),
        0 <= a < right.len(),
        0 <= b < left.len(),
    ensures
        block_parity(cover, right[a], left[b], k) == product_bit(c[a], f, b, k),
    decreases k,
{
    if k > 0 {
        lemma_block_parity(left, right, c, f, cover, k - 1, a, b);
        lemma_cover_subset_block(left, right, c, f, k - 1, a, b);
        assert(cover[k - 1] == cover_subset(left, right, c, f, k - 1));
    }
}

/// The subgraph of a graph that keeps only the edges between one side of a
/// vertex separator and its cut.
pub struct BiGraph {
    pub graph: SimpleGraph,
    pub left: Vec<usize>,
    pub right: Vec<usize>,
}

impl BiGraph {
    /// The graph is well formed, both sides hold vertices of it, no vertex
    /// lies on both sides, and no side is longer than the vertex count.
    pub open spec fn wf(&self) -> bool {
        &&& self.graph.wf()
        &&& self.left@.len() <= self.graph.n()
        &&& self.right@.len() <= self.graph.n()
        &&& forall|i: int| 0 <= i < self.left@.len() ==> #[trigger] self.left@[i] < self.graph.n()
        &&& forall|i: int| 0 <= i < self.right@.len() ==> #[trigger] self.right@[i] < self.graph.n()
        &&& forall|v: usize| !(#[trigger] self.left@.contains(v) && self.right@.contains(v))
    }

    /// Keeps the edges of `g` that join the larger side of `sep` to its cut;
    /// the sides become the vertices of that side and of the cut that keep an edge.
    pub fn from_sep(g: &SimpleGraph, sep: &VertexSeparator) -> (b: BiGraph)
        requires
            g.wf(),
            sep.wf(g.n()),
        ensures
            b.wf(),
            b.graph.n() == g.n(),
            forall|u: int, v: int|
                0 <= u < g.n() && 0 <= v < g.n() ==> #[trigger] b.graph.edge(u, v) == (g.edge(u, v)
                    && joins(big_side(*sep), sep.cut@, u, v)),
            b.left@ == vertices_with(
                g.n() as int,
                |v: usize| big_side(*sep).contains(v) && has_neighbor(b.graph, v as int),
            ),
            b.right@ == vertices_with(
                g.n() as int,
                |v: usize| sep.cut@.contains(v) && has_neighbor(b.graph, v as int),
            ),
            b.left@.no_duplicates(),
            b.right@.no_duplicates(),
    {
        let n = g.num_vertices();
        proof {
            g.lemma_wf();
        }
        let big = if sep.left.len() < sep.right.len() {
            &sep.right
        } else {
            &sep.left
        };
        assert(big@ == big_side(*sep));
        let marks = side_marks(n, big, &sep.cut);
        let mut h = SimpleGraph::new(n);
        let mut u: usize = 0;
        while u < n
            invariant
                g.wf(),
                h.wf(),
                n == g.n(),
                h.n() == n,
                u <= n,
                marks@.len() == n,
                forall|v: int| 0 <= v < n ==> (#[trigger] marks@[v] == 1) == big@.contains(v as usize),
                forall|v: int| 0 <= v < n ==> (#[trigger] marks@[v] == 2) == sep.cut@.contains(v as usize),
                forall|a: int, c: int|
                    0 <= a < n && 0 <= c < n ==> #[trigger] h.edge(a, c) == (g.edge(a, c) && joins(big@, sep.cut@, a, c)
                        && (a < u || c < u)),
            decreases n - u,
        {
            proof {
                g.lemma_wf();
                assert forall|a: int, c: int|
                    0 <= a < n && 0 <= c < n implies #[trigger] h.edge(a, c) == (g.edge(a, c) && joins(big@, sep.cut@, a, c)
                        && (a < u || c < u || (a == u && c < u + 1) || (c == u && a < u + 1))) by {
                    if a == c {
                        assert(!g.edge(a, a));
                    }
                }
            }
            let mut v: usize = u + 1;
            while v < n
                invariant
                    g.wf(),
                    h.wf(),
                    n == g.n(),
                    h.n() == n,
                    u < n,
                    u + 1 <= v <= n,
                    marks@.len() == n,
                    forall|x: int| 0 <= x < n ==> (#[trigger] marks@[x] == 1) == big@.contains(x as usize),
                    forall|x: int| 0 <= x < n ==> (#[trigger] marks@[x] == 2) == sep.cut@.contains(x as usize),
                    forall|a: int, c: int|
                        0 <= a < n && 0 <= c < n ==> #[trigger] h.edge(a, c) == (g.edge(a, c) && joins(big@, sep.cut@, a, c)
                            && (a < u || c < u || (a == u && c < v) || (c == u && a < v))),
                decreases n - v,
            {
                if g.has_edge(u, v) && ((marks[u] == 1 && marks[v] == 2) || (marks[u] == 2 && marks[v] == 1)) {
                    h.add_edge(u, v);
                }
                proof {
                    g.lemma_wf();
                    h.lemma_wf();
                }
                v = v + 1;
            }
            proof {
                g.lemma_wf();
                assert forall|a: int, c: int|
                    0 <= a < n && 0 <= c < n implies #[trigger] h.edge(a, c) == (g.edge(a, c) && joins(big@, sep.cut@, a, c)
                        && (a < u + 1 || c < u + 1)) by {
                    if a == c {
                        assert(!g.edge(a, a));
                    }
                }
            }
            u = u + 1;
        }
        let ghost pl = |v: usize| big_side(*sep).contains(v) && has_neighbor(h, v as int);
        let ghost pr = |v: usize| sep.cut@.contains(v) && has_neighbor(h, v as int);
        let mut left: Vec<usize> = Vec::new();
        let mut right: Vec<usize> = Vec::new();
        let mut v: usize = 0;
        while v < n
            invariant
                h.wf(),
                h.n() == n,
                v <= n,
                big@ == big_side(*sep),
                marks@.len() == n,
                forall|x: int| 0 <= x < n ==> (#[trigger] marks@[x] == 1) == big@.contains(x as usize),
                forall|x: int| 0 <= x < n ==> (#[trigger] marks@[x] == 2) == sep.cut@.contains(x as usize),
                pl == (|x: usize| big_side(*sep).contains(x) && has_neighbor(h, x as int)),
                pr == (|x: usize| sep.cut@.contains(x) && has_neighbor(h, x as int)),
                left@ == vertices_with(v as int, pl),
                right@ == vertices_with(v as int, pr),
            decreases n - v,
        {
            let hn = if marks[v] == 1 || marks[v] == 2 {
                neighbor_exists(&h, v)
            } else {
                false
            };
            assert(pl(v) == (marks@[v as int] == 1 && has_neighbor(h, v as int)));
            assert(pr(v) == (marks@[v as int] == 2 && has_neighbor(h, v as int)));
            if hn && marks[v] == 1 {
                left.push(v);
            } else if hn && marks[v] == 2 {
                right.push(v);
            }
            v = v + 1;
        }
        proof {
            lemma_vertices_with(n as int, pl);
            lemma_vertices_with(n as int, pr);
            assert forall|x: usize| !(#[trigger] left@.contains(x) && right@.contains(x)) by {
                if left@.contains(x) && right@.contains(x) {
                    let i = choose|i: int| 0 <= i < left@.len() && left@[i] == x;
                    let j = choose|j: int| 0 <= j < right@.len() && right@[j] == x;
                    assert(pl(left@[i]));
                    assert(pr(right@[j]));
                }
            }
        }
        BiGraph { graph: h, left, right }
    }

    /// The biadjacency matrix: rows for `right`, columns for `left`.
    pub fn biadjacency(&self) -> (m: BitMatrix)
        requires
            self.wf(),
        ensures
            m.wf(),
            m.cols == self.left@.len(),
            m@ == biadjacency_of(self.graph, self.left@, self.right@),
    {
        let mut data: Vec<Vec<u8>> = Vec::new();
        let mut i: usize = 0;
        while i < self.right.len()
            invariant
                self.wf(),
                i <= self.right@.len(),
                data@.len() == i,
                forall|t: int| 0 <= t < i ==> (#[trigger] data@[t])@ == biadjacency_of(self.graph, self.left@, self.right@)[t],
            decreases self.right@.len() - i,
        {
            let mut row: Vec<u8> = Vec::new();
            let mut j: usize = 0;
            while j < self.left.len()
                invariant
                    self.wf(),
                    i < self.right@.len(),
                    j <= self.left@.len(),
                    row@ == biadjacency_of(self.graph, self.left@, self.right@)[i as int].subrange(0, j as int),
                decreases self.left@.len() - j,
            {
                if self.graph.has_edge(self.right[i], self.left[j]) {
                    row.push(1);
                } else {
                    row.push(0);
                }
                assert(row@ =~= biadjacency_of(self.graph, self.left@, self.right@)[i as int].subrange(0, j + 1));
                j = j + 1;
            }
            assert(row@ =~= biadjacency_of(self.graph, self.left@, self.right@)[i as int]);
            data.push(row);
            i = i + 1;
        }
        let m = BitMatrix { data, cols: self.left.len() };
        assert(m@ =~= biadjacency_of(self.graph, self.left@, self.right@));
        m
    }

    /// One vertex subset per factor of the rank decomposition of the
    /// biadjacency matrix: the right vertices picked by column `i` of the first
    /// factor, then the left vertices picked by row `i` of the second.
    #[verifier::spinoff_prover]
    pub fn complement_cover(&self) -> (r: Vec<Vec<usize>>)
        requires
            self.wf(),
        ensures
            ({
                let (c, f) = rank_factors(
                    biadjacency_of(self.graph, self.left@, self.right@),
                    self.left@.len() as int,
                );
                &&& r@.len() == if c.len() == 0 { 0 } else { f.len() }
                &&& factors_form_basis(
                    biadjacency_of(self.graph, self.left@, self.right@),
                    c,
                    f,
                    self.left@.len() as int,
                )
                &&& forall|i: int| 0 <= i < r@.len() ==> (#[trigger] r@[i])@ == cover_subset(self.left@, self.right@, c, f, i)
            }),
            self.left@.no_duplicates() && self.right@.no_duplicates() ==> forall|a: int, b: int|
                0 <= a < self.right@.len() && 0 <= b < self.left@.len() ==> #[trigger] block_parity(
                    cover_view(r@),
                    self.right@[a],
                    self.left@[b],
                    r@.len() as int,
                ) == self.graph.edge(self.right@[a] as int, self.left@[b] as int),
            forall|i: int|
                0 <= i < r@.len() ==> meets(#[trigger] cover_view(r@)[i], self.right@) && meets(
                    cover_view(r@)[i],
                    self.left@,
                ),
            forall|i: int, x: usize|
                0 <= i < r@.len() && #[trigger] cover_view(r@)[i].contains(x) ==> self.left@.contains(x)
                    || self.right@.contains(x),
            self.left@.no_duplicates() && self.right@.no_duplicates() ==> forall|i: int|
                0 <= i < r@.len() ==> (#[trigger] cover_view(r@)[i]).no_duplicates(),
    {
        let m = self.biadjacency();
        let (c, f) = m.rank_decomposition();
        let ghost cf = rank_factors(biadjacency_of(self.graph, self.left@, self.right@), self.left@.len() as int);
        assert(c@ == cf.0 && f@ == cf.1);
        let k = if c.num_rows() == 0 {
            0
        } else if f.num_rows() < c.num_cols() {
            f.num_rows()
        } else {
            c.num_cols()
        };
        assert(c@.len() > 0 ==> c@[0].len() == c.cols);
        let out = self.subsets_of_factors(&c, &f, k);
        proof {
            assert forall|i: int| 0 <= i < f@.len() implies (#[trigger] f@[i]).len() == self.left@.len() by {}
            assert forall|i: int| 0 <= i < k implies #[trigger] cover_view(out@)[i] == cover_subset(
                self.left@,
                self.right@,
                c@,
                f@,
                i,
            ) by {}
            lemma_cover_subsets_shape(self.left@, self.right@, c@, f@, cover_view(out@), k as int);
            if self.left@.no_duplicates() && self.right@.no_duplicates() {
                lemma_cover_parity_is_edges(self.graph, self.left@, self.right@, c@, f@, cover_view(out@), k as int);
            }
        }
        out
    }

    /// The subsets for the first `k` factors of `(c, f)`, as `cover_subset` gives them.
    fn subsets_of_factors(&self, c: &BitMatrix, f: &BitMatrix, k: usize) -> (out: Vec<Vec<usize>>)
        requires
            self.wf(),
            c.wf(),
            f.wf(),
            c@.len() == self.right@.len(),
            f.cols == self.left@.len(),
            k <= c.cols,
            k <= f@.len(),
        ensures
            out@.len() == k,
            forall|t: int| 0 <= t < k ==> (#[trigger] out@[t])@ == cover_subset(self.left@, self.right@, c@, f@, t),
    {
        let mut out: Vec<Vec<usize>> = Vec::new();
        let mut i: usize = 0;
        while i < k
            invariant
                self.wf(),
                c.wf(),
                f.wf(),
                c@.len() == self.right@.len(),
                f.cols == self.left@.len(),
                k <= c.cols,
                k <= f@.len(),
                i <= k,
                out@.len() == i,
                forall|t: int| 0 <= t < i ==> (#[trigger] out@[t])@ == cover_subset(self.left@, self.right@, c@, f@, t),
            decreases k - i,
        {
            let mut s: Vec<usize> = Vec::new();
            let mut r: usize = 0;
            while r < c.num_rows()
                invariant
                    c.wf(),
                    c@.len() == self.right@.len(),
                    i < c.cols,
                    r <= c@.len(),
                    s@ == picks(self.right@, column_of(c@, i as int), r as int),
                decreases c@.len() - r,
            {
                if c.get(r, i) == 1 {
                    s.push(self.right[r]);
                }
                r = r + 1;
            }
            let ghost mid = s@;
            let mut col: usize = 0;
            while col < f.num_cols()
                invariant
                    f.wf(),
                    f.cols == self.left@.len(),
                    i < f@.len(),
                    col <= f.cols,
                    s@ == mid + picks(self.left@, f@[i as int], col as int),
                decreases f.cols - col,
            {
                if f.get(i, col) == 1 {
                    s.push(self.left[col]);
                }
                col = col + 1;
            }
            out.push(s);
            i = i + 1;
        }
        out
    }

    /// The number of edges of the graph with one end in `left` and the other in `right`.
    pub fn crossing_edges(&self) -> (r: usize)
        requires
            self.wf(),
        ensures
            r == crossings(self.graph@, self.left@, self.right@, self.graph.n() as int),
    {
        let n = self.graph.num_vertices();
        let marks = side_marks(n, &self.left, &self.right);
        proof {
            self.graph.lemma_wf();
        }
        let mut count: usize = 0;
        let mut u: usize = 0;
        while u < n
            invariant
                self.wf(),
                n == self.graph.n(),
                u <= n,
                marks@.len() == n,
                forall|v: int| 0 <= v < n ==> (#[trigger] marks@[v] == 1) == self.left@.contains(v as usize),
                forall|v: int| 0 <= v < n ==> (#[trigger] marks@[v] == 2) == self.right@.contains(v as usize),
                count == crossings(self.graph@, self.left@, self.right@, u as int),
                count <= u * n,
            decreases n - u,
        {
            let ghost base = count;
            let mut v: usize = u + 1;
            while v < n
                invariant
                    self.wf(),
                    n == self.graph.n(),
                    u < n,
                    u + 1 <= v <= n,
                    marks@.len() == n,
                    forall|x: int| 0 <= x < n ==> (#[trigger] marks@[x] == 1) == self.left@.contains(x as usize),
                    forall|x: int| 0 <= x < n ==> (#[trigger] marks@[x] == 2) == self.right@.contains(x as usize),
                    count == base + row_crossings(self.graph@, self.left@, self.right@, u as int, v as int),
                    count <= base + v,
                    base <= u * n,
                decreases n - v,
            {
                proof {
                    self.graph.lemma_wf();
                    assert(u * n + v + 1 <= n * n) by (nonlinear_arith)
                        requires u < n, v < n;
                }
                if self.graph.has_edge(u, v) && ((marks[u] == 1 && marks[v] == 2) || (marks[u] == 2
                    && marks[v] == 1)) {
                    count = count + 1;
                }
                v = v + 1;
            }
            proof {
                assert(u * n + n == (u + 1) * n) by (nonlinear_arith);
            }
            u = u + 1;
        }
        count
    }

    /// The network whose minimum cut gives a minimum vertex cover: node
    /// `2 + i` for `left[i]`, node `2 + left.len() + j` for `right[j]`, an arc
    /// from the source to each left node, from each right node to the sink,
    /// and from left to right along each edge.
    pub fn flow_network(&self) -> (net: FlowNetwork)
        requires
            self.wf(),
        ensures
            net.num_nodes == 2 + self.left@.len() + self.right@.len(),
            net.arcs@ == network_arcs(self.graph, self.left@, self.right@),
    {
        proof {
            self.graph.lemma_wf();
            lemma_room_for_nodes(self.graph.n() as int);
        }
        let nl = self.left.len();
        let nr = self.right.len();
        let mut arcs: Vec<(usize, usize)> = Vec::new();
        let mut i: usize = 0;
        while i < nl
            invariant
                nl == self.left@.len(),
                nr == self.right@.len(),
                nl + nr + 2 <= usize::MAX,
                i <= nl,
                arcs@ == source_arcs(i as int),
            decreases nl - i,
        {
            arcs.push((SOURCE, 2 + i));
            assert(arcs@ =~= source_arcs(i + 1));
            i = i + 1;
        }
        let mut j: usize = 0;
        while j < nr
            invariant
                nl == self.left@.len(),
                nr == self.right@.len(),
                nl + nr + 2 <= usize::MAX,
                j <= nr,
                arcs@ == source_arcs(nl as int) + sink_arcs(nl as int, j as int),
            decreases nr - j,
        {
            arcs.push((2 + nl + j, SINK));
            assert(sink_arcs(nl as int, j + 1) =~= sink_arcs(nl as int, j as int).push(((2 + nl + j) as usize, SINK)));
            assert(arcs@ =~= source_arcs(nl as int) + sink_arcs(nl as int, j + 1));
            j = j + 1;
        }
        let ghost head = arcs@;
        let mut i: usize = 0;
        while i < nl
            invariant
                self.wf(),
                nl == self.left@.len(),
                nr == self.right@.len(),
                nl + nr + 2 <= usize::MAX,
                i <= nl,
                arcs@ == head + middle_arcs(self.graph, self.left@, self.right@, i as int),
            decreases nl - i,
        {
            let ghost before = arcs@;
            let mut j: usize = 0;
            while j < nr
                invariant
                    self.wf(),
                    nl == self.left@.len(),
                    nr == self.right@.len(),
                    nl + nr + 2 <= usize::MAX,
                        i < nl,
                    j <= nr,
                    arcs@ == before + middle_row(self.graph, self.left@, self.right@, i as int, j as int),
                decreases nr - j,
            {
                if self.graph.has_edge(self.left[i], self.right[j]) {
                    arcs.push((2 + i, 2 + nl + j));
                }
                assert(arcs@ =~= before + middle_row(self.graph, self.left@, self.right@, i as int, j + 1));
                j = j + 1;
            }
            assert(arcs@ =~= head + middle_arcs(self.graph, self.left@, self.right@, i + 1));
            i = i + 1;
        }
        FlowNetwork { num_nodes: 2 + nl + nr, arcs }
    }

    /// A minimum vertex cover of the crossing edges, read off the minimum cut
    /// that the max-flow solver finds on `flow_network()` (arcs at the source
    /// or sink of capacity one, the others too large to fill): left vertices
    /// on the sink side, then right vertices on the source side. Every edge
    /// between the sides has an end in it.
    pub fn min_vertex_cover(&self) -> (cover: Vec<usize>)
        requires
            self.wf(),
        ensures
            ({
                let arcs = network_arcs(self.graph, self.left@, self.right@);
                cover@ == cover_of_cut(
                    self.left@,
                    self.right@,
                    min_cut_of((2 + self.left@.len() + self.right@.len()) as nat, arcs, capacities_of(arcs)),
                )
            }),
            forall|i: int, j: int|
                0 <= i < self.left@.len() && 0 <= j < self.right@.len() && #[trigger] self.graph.edge(
                    self.left@[i] as int,
                    #[trigger] self.right@[j] as int,
                ) ==> cover@.contains(self.left@[i]) || cover@.contains(self.right@[j]),
            forall|kl: Seq<bool>, kr: Seq<bool>|
                kl.len() == self.left@.len() && kr.len() == self.right@.len() && #[trigger] covers_edges(
                    self.graph,
                    self.left@,
                    self.right@,
                    kl,
                    kr,
                ) ==> cover@.len() <= count_true(kl, 0, kl.len() as int) + count_true(kr, 0, kr.len() as int),
    {
        let net = self.flow_network();
        let ghost nl = self.left@.len() as int;
        let ghost nr = self.right@.len() as int;
        let ghost mid = middle_arcs(self.graph, self.left@, self.right@, nl);
        let ghost head = source_arcs(nl) + sink_arcs(nl, nr);
        proof {
            self.graph.lemma_wf();
            lemma_room_for_nodes(self.graph.n() as int);
            lemma_middle_arcs_shape(self.graph, self.left@, self.right@, nl);
            assert(net.arcs@ == head + mid);
            lemma_source_arc_count_all(nl);
            lemma_source_arc_count_concat(source_arcs(nl), sink_arcs(nl, nr), nr);
            lemma_source_arc_count_none(sink_arcs(nl, nr), nr);
            assert forall|t: int| 0 <= t < mid.len() implies (#[trigger] mid[t]).0 != SOURCE by {}
            lemma_source_arc_count_none(mid, mid.len() as int);
            lemma_source_arc_count_concat(head, mid, mid.len() as int);
            assert(source_arc_count(net.arcs@, net.arcs@.len() as int) == nl);
        }
        let caps = capacities(&net.arcs);
        proof {
            assert forall|k: int| 0 <= k < net.arcs@.len() implies (#[trigger] net.arcs@[k]).0 < net.num_nodes
                && net.arcs@[k].1 < net.num_nodes && net.arcs@[k].0 != net.arcs@[k].1 by {
                if k >= head.len() {
                    assert(net.arcs@[k] == mid[k - head.len()]);
                }
            }
            lemma_source_capacity(net.arcs@, caps@, net.arcs@.len() as int);
        }
        let side = min_cut_side(net.num_nodes, &net.arcs, &caps);
        proof {
            let arcs = net.arcs@;
            assert forall|i: int, j: int|
                0 <= i < nl && 0 <= j < nr && self.graph.edge(self.left@[i] as int, self.right@[j] as int)
                    && #[trigger] side@[2 + i] implies #[trigger] side@[2 + nl + j] by {
                lemma_middle_arcs_has(self.graph, self.left@, self.right@, i, j, nl);
                let x = ((2 + i) as usize, (2 + nl + j) as usize);
                let w = choose|w: int| 0 <= w < mid.len() && mid[w] == x;
                let k = head.len() + w;
                assert(arcs[k] == x);
                assert(caps@[k] == nl + 1);
            }
            lemma_cover_meets_every_edge(*self, side@);
            self.lemma_cover_is_minimum(side@, caps@);
        }
        self.cover_from_cut(&side)
    }

    /// The cover read off a minimum cut of the network, closed under the
    /// unbounded arcs, is no larger than any vertex cover of the edges.
    proof fn lemma_cover_is_minimum(&self, side: Seq<bool>, caps: Seq<u64>)
        requires
            self.wf(),
            self.left@.len() + self.right@.len() + 2 <= usize::MAX,
            caps == capacities_of(network_arcs(self.graph, self.left@, self.right@)),
            source_arc_count(network_arcs(self.graph, self.left@, self.right@), network_arcs(self.graph, self.left@, self.right@).len() as int)
                == self.left@.len(),
            side.len() == 2 + self.left@.len() + self.right@.len(),
            side[SOURCE as int],
            !side[SINK as int],
            forall|i: int, j: int|
                0 <= i < self.left@.len() && 0 <= j < self.right@.len() && self.graph.edge(
                    self.left@[i] as int,
                    self.right@[j] as int,
                ) && #[trigger] side[2 + i] ==> #[trigger] side[2 + self.left@.len() + j],
            forall|other: Seq<bool>|
                other.len() == side.len() && other[SOURCE as int] && !other[SINK as int] ==> cut_capacity(
                    network_arcs(self.graph, self.left@, self.right@),
                    caps,
                    side,
                ) <= #[trigger] cut_capacity(network_arcs(self.graph, self.left@, self.right@), caps, other),
        ensures
            forall|kl: Seq<bool>, kr: Seq<bool>|
                kl.len() == self.left@.len() && kr.len() == self.right@.len() && #[trigger] covers_edges(
                    self.graph,
                    self.left@,
                    self.right@,
                    kl,
                    kr,
                ) ==> cover_of_cut(self.left@, self.right@, side).len() <= count_true(kl, 0, kl.len() as int)
                    + count_true(kr, 0, kr.len() as int),
    {
        let nl = self.left@.len() as int;
        let nr = self.right@.len() as int;
        let arcs = network_arcs(self.graph, self.left@, self.right@);
        let mid = middle_arcs(self.graph, self.left@, self.right@, nl);
        let head = source_arcs(nl) + sink_arcs(nl, nr);
        lemma_middle_arcs_shape(self.graph, self.left@, self.right@, nl);
        assert(arcs == head + mid);
        assert forall|t: int| 0 <= t < nl implies #[trigger] arcs[0 + t] == (SOURCE, (2 + t) as usize) && caps[0 + t] == 1 by {
            assert(arcs[t] == head[t]);
        }
        assert forall|t: int| 0 <= t < nr implies #[trigger] arcs[nl + t] == ((2 + nl + t) as usize, SINK) && caps[nl + t] == 1 by {
            assert(arcs[nl + t] == head[nl + t]);
        }
        assert forall|t: int| head.len() <= t < arcs.len() implies #[trigger] caps[t] == nl + 1 && arcs[t] == mid[t - head.len()] by {
            assert(arcs[t] == mid[t - head.len()]);
        }
        // the cut found: left nodes off the source side, right nodes on it
        let lflags = Seq::new(nl as nat, |i: int| !side[2 + i]);
        let rflags = Seq::new(nr as nat, |j: int| side[2 + nl + j]);
        lemma_cap_count(arcs, caps, side, 0, nl, lflags);
        lemma_cap_count(arcs, caps, side, nl, nr, rflags);
        assert forall|k: int| head.len() <= k < arcs.len() implies !(side[(#[trigger] arcs[k]).0 as int]
            && !side[arcs[k].1 as int]) by {
            let x = mid[k - head.len()];
            let i = x.0 - 2;
            let j = x.1 - 2 - nl;
            assert(self.graph.edge(self.left@[i] as int, self.right@[j] as int));
            if side[2 + i] {
                assert(side[2 + nl + j]);
            }
        }
        lemma_cap_zero(arcs, caps, side, head.len() as int, arcs.len() as int);
        lemma_cap_split(arcs, caps, side, 0, nl, head.len() as int);
        lemma_cap_split(arcs, caps, side, 0, head.len() as int, arcs.len() as int);
        let lbits = Seq::new(nl as nat, |i: int| if on_source_side(side, 2 + i) { 0u8 } else { 1u8 });
        let rbits = Seq::new(nr as nat, |j: int| if on_source_side(side, 2 + nl + j) { 1u8 } else { 0u8 });
        lemma_picks_len(self.left@, lbits, nl, lflags);
        lemma_picks_len(self.right@, rbits, nr, rflags);
        assert(cover_of_cut(self.left@, self.right@, side).len() == cut_capacity(arcs, caps, side));
        assert forall|kl: Seq<bool>, kr: Seq<bool>|
            kl.len() == nl && kr.len() == nr && #[trigger] covers_edges(self.graph, self.left@, self.right@, kl, kr)
                implies cover_of_cut(self.left@, self.right@, side).len() <= count_true(kl, 0, kl.len() as int)
                + count_true(kr, 0, kr.len() as int) by {
            let other = Seq::new(
                side.len(),
                |x: int| if x == SOURCE { true } else if x == SINK { false } else if x < 2 + nl { !kl[x - 2] } else { kr[x - 2 - nl] },
            );
            lemma_cap_count(arcs, caps, other, 0, nl, kl);
            lemma_cap_count(arcs, caps, other, nl, nr, kr);
            assert forall|k: int| head.len() <= k < arcs.len() implies !(other[(#[trigger] arcs[k]).0 as int]
                && !other[arcs[k].1 as int]) by {
                let x = mid[k - head.len()];
                let i = x.0 - 2;
                let j = x.1 - 2 - nl;
                assert(self.graph.edge(self.left@[i] as int, self.right@[j] as int));
                assert(kl[i] || kr[j]);
            }
            lemma_cap_zero(arcs, caps, other, head.len() as int, arcs.len() as int);
            lemma_cap_split(arcs, caps, other, 0, nl, head.len() as int);
            lemma_cap_split(arcs, caps, other, 0, head.len() as int, arcs.len() as int);
            assert(cut_capacity(arcs, caps, side) <= cut_capacity(arcs, caps, other));
        }
    }

    /// The vertex cover read off a cut of `flow_network()`, given as the node
    /// set `side` of one part: left vertices on the sink side and right
    /// vertices on the source side.
    pub fn cover_from_cut(&self, side: &Vec<bool>) -> (r: Vec<usize>)
        requires
            self.wf(),
            side@.len() == 2 + self.left@.len() + self.right@.len(),
        ensures
            r@ == cover_of_cut(self.left@, self.right@, side@),
    {
        let ghost lbits = Seq::new(self.left@.len(), |i: int| if on_source_side(side@, 2 + i) { 0u8 } else { 1u8 });
        let ghost rbits = Seq::new(
            self.right@.len(),
            |j: int| if on_source_side(side@, 2 + self.left@.len() + j) { 1u8 } else { 0u8 },
        );
        let s0 = side[SOURCE];
        let total = side.len();
        let nl = self.left.len();
        let mut out: Vec<usize> = Vec::new();
        let mut i: usize = 0;
        while i < nl
            invariant
                self.wf(),
                nl == self.left@.len(),
                side@.len() == 2 + self.left@.len() + self.right@.len(),
                s0 == side@[SOURCE as int],
                total == side@.len(),
                i <= nl,
                lbits == Seq::new(self.left@.len(), |i: int| if on_source_side(side@, 2 + i) { 0u8 } else { 1u8 }),
                out@ == picks(self.left@, lbits, i as int),
            decreases nl - i,
        {
            assert(lbits[i as int] == if side@[2 + i] == s0 { 0u8 } else { 1u8 });
            if side[2 + i] != s0 {
                out.push(self.left[i]);
            }
            i = i + 1;
        }
        let ghost mid = out@;
        let mut j: usize = 0;
        while j < self.right.len()
            invariant
                self.wf(),
                nl == self.left@.len(),
                side@.len() == 2 + self.left@.len() + self.right@.len(),
                s0 == side@[SOURCE as int],
                total == side@.len(),
                j <= self.right@.len(),
                rbits == Seq::new(
                    self.right@.len(),
                    |j: int| if on_source_side(side@, 2 + self.left@.len() + j) { 1u8 } else { 0u8 },
                ),
                out@ == mid + picks(self.right@, rbits, j as int),
            decreases self.right@.len() - j,
        {
            assert(rbits[j as int] == if side@[2 + nl + j] == s0 { 1u8 } else { 0u8 });
            if side[2 + nl + j] == s0 {
                out.push(self.right[j]);
            }
            j = j + 1;
        }
        out
    }
}

/// Every edge between `left[i]` and `right[j]` has an end in the cover read
/// off a cut whose source side holds the source and is closed under the arcs
/// of unbounded capacity (as the source side of every finite cut is).
pub proof fn lemma_cover_meets_every_edge(b: BiGraph, side: Seq<bool>)
    requires
        b.wf(),
        side.len() == 2 + b.left@.len() + b.right@.len(),
        side[SOURCE as int],
        forall|i: int, j: int|
            0 <= i < b.left@.len() && 0 <= j < b.right@.len() && b.graph.edge(
                b.left@[i] as int,
                b.right@[j] as int,
            ) && #[trigger] side[2 + i] ==> #[trigger] side[2 + b.left@.len() + j],
    ensures
        forall|i: int, j: int|
            0 <= i < b.left@.len() && 0 <= j < b.right@.len() && #[trigger] b.graph.edge(
                b.left@[i] as int,
                #[trigger] b.right@[j] as int,
            ) ==> cover_of_cut(b.left@, b.right@, side).contains(b.left@[i]) || cover_of_cut(
                b.left@,
                b.right@,
                side,
            ).contains(b.right@[j]),
{
    let nl = b.left@.len() as int;
    let nr = b.right@.len() as int;
    let lbits = Seq::new(nl as nat, |i: int| if on_source_side(side, 2 + i) { 0u8 } else { 1u8 });
    let rbits = Seq::new(nr as nat, |j: int| if on_source_side(side, 2 + nl + j) { 1u8 } else { 0u8 });
    let pl = picks(b.left@, lbits, nl);
    let pr = picks(b.right@, rbits, nr);
    assert(cover_of_cut(b.left@, b.right@, side) == pl + pr);
    assert forall|i: int, j: int|
        0 <= i < nl && 0 <= j < nr && #[trigger] b.graph.edge(
            b.left@[i] as int,
            #[trigger] b.right@[j] as int,
        ) implies (pl + pr).contains(b.left@[i]) || (pl + pr).contains(b.right@[j]) by {
        if !side[2 + i] {
            lemma_picks_contains(b.left@, lbits, nl, i);
            let w = choose|w: int| 0 <= w < pl.len() && pl[w] == b.left@[i];
            assert((pl + pr)[w] == b.left@[i]);
        } else {
            assert(side[2 + nl + j]);
            lemma_picks_contains(b.right@, rbits, nr, j);
            let w = choose|w: int| 0 <= w < pr.len() && pr[w] == b.right@[j];
            assert((pl + pr)[pl.len() + w] == b.right@[j]);
        }
    }
}

proof fn lemma_source_arc_count_concat(p: Seq<(usize, usize)>, q: Seq<(usize, usize)>, t: int)
    requires
        0 <= t <= q.len(),
    ensures
        source_arc_count(p + q, p.len() + t) == source_arc_count(p, p.len() as int) + source_arc_count(q, t),
    decreases t,
{
    if t > 0 {
        lemma_source_arc_count_concat(p, q, t - 1);
        assert((p + q)[p.len() + t - 1] == q[t - 1]);
    } else {
        lemma_source_arc_count_prefix(p, q, p.len() as int);
    }
}

proof fn lemma_source_arc_count_prefix(p: Seq<(usize, usize)>, q: Seq<(usize, usize)>, k: int)
    requires
        0 <= k <= p.len(),
    ensures
        source_arc_count(p + q, k) == source_arc_count(p, k),
    decreases k,
{
    if k > 0 {
        lemma_source_arc_count_prefix(p, q, k - 1);
        assert((p + q)[k - 1] == p[k - 1]);
    }
}

proof fn lemma_source_arc_count_none(a: Seq<(usize, usize)>, k: int)
    requires
        0 <= k <= a.len(),
        forall|t: int| 0 <= t < a.len() ==> (#[trigger] a[t]).0 != SOURCE,
    ensures
        source_arc_count(a, k) == 0,
    decreases k,
{
    if k > 0 {
        lemma_source_arc_count_none(a, k - 1);
    }
}

proof fn lemma_source_arc_count_all(k: int)
    requires
        0 <= k,
    ensures
        source_arc_count(source_arcs(k), k) == k,
    decreases k,
{
    if k > 0 {
        lemma_source_arc_count_all(k - 1);
        lemma_source_arc_count_prefix(source_arcs(k - 1), seq![(SOURCE, (2 + k - 1) as usize)], k - 1);
        assert(source_arcs(k) =~= source_arcs(k - 1) + seq![(SOURCE, (2 + k - 1) as usize)]);
        assert(source_arcs(k)[k - 1].0 == SOURCE);
    }
}

proof fn lemma_source_capacity(arcs: Seq<(usize, usize)>, caps: Seq<u64>, k: int)
    requires
        0 <= k <= arcs.len(),
        caps.len() == arcs.len(),
        forall|t: int| 0 <= t < arcs.len() && (#[trigger] arcs[t]).0 == SOURCE ==> caps[t] == 1,
    ensures
        source_capacity(arcs, caps, k) == source_arc_count(arcs, k),
    decreases k,
{
    if k > 0 {
        lemma_source_capacity(arcs, caps, k - 1);
    }
}

proof fn lemma_middle_row_shape(g: SimpleGraph, left: Seq<usize>, right: Seq<usize>, i: int, k: int)
    requires
        0 <= i < left.len(),
        0 <= k <= right.len(),
        left.len() + right.len() + 2 <= usize::MAX,
    ensures
        forall|t: int|
            0 <= t < middle_row(g, left, right, i, k).len() ==> (#[trigger] middle_row(g, left, right, i, k)[t]).0
                == 2 + i && 2 + left.len() <= middle_row(g, left, right, i, k)[t].1 < 2 + left.len() + right.len()
                && g.edge(left[i] as int, right[middle_row(g, left, right, i, k)[t].1 - 2 - left.len()] as int),
    decreases k,
{
    if k > 0 {
        lemma_middle_row_shape(g, left, right, i, k - 1);
        let s = middle_row(g, left, right, i, k - 1);
        let x = ((2 + i) as usize, (2 + left.len() + k - 1) as usize);
        assert(x.0 == 2 + i && x.1 == 2 + left.len() + k - 1);
        if g.edge(left[i] as int, right[k - 1] as int) {
            assert forall|t: int| 0 <= t < s.push(x).len() implies (#[trigger] s.push(x)[t]).0 == 2 + i && 2
                + left.len() <= s.push(x)[t].1 < 2 + left.len() + right.len() && g.edge(
                left[i] as int,
                right[s.push(x)[t].1 - 2 - left.len()] as int,
            ) by {
                if t < s.len() {
                    assert(s.push(x)[t] == s[t]);
                }
            }
        }
    }
}

proof fn lemma_middle_arcs_shape(g: SimpleGraph, left: Seq<usize>, right: Seq<usize>, k: int)
    requires
        0 <= k <= left.len(),
        left.len() + right.len() + 2 <= usize::MAX,
    ensures
        forall|t: int|
            0 <= t < middle_arcs(g, left, right, k).len() ==> 2 <= (#[trigger] middle_arcs(g, left, right, k)[t]).0
                < 2 + k && 2 + left.len() <= middle_arcs(g, left, right, k)[t].1 < 2 + left.len() + right.len()
                && g.edge(
                left[middle_arcs(g, left, right, k)[t].0 - 2] as int,
                right[middle_arcs(g, left, right, k)[t].1 - 2 - left.len()] as int,
            ),
    decreases k,
{
    if k > 0 {
        lemma_middle_arcs_shape(g, left, right, k - 1);
        lemma_middle_row_shape(g, left, right, k - 1, right.len() as int);
        let a = middle_arcs(g, left, right, k - 1);
        let b = middle_row(g, left, right, k - 1, right.len() as int);
        assert forall|t: int| 0 <= t < (a + b).len() implies 2 <= (#[trigger] (a + b)[t]).0 < 2 + k && 2 + left.len()
            <= (a + b)[t].1 < 2 + left.len() + right.len() && g.edge(
            left[(a + b)[t].0 - 2] as int,
            right[(a + b)[t].1 - 2 - left.len()] as int,
        ) by {
            if t >= a.len() {
                assert((a + b)[t] == b[t - a.len()]);
            }
        }
    }
}

proof fn lemma_middle_row_has(g: SimpleGraph, left: Seq<usize>, right: Seq<usize>, i: int, j: int, k: int)
    requires
        0 <= i < left.len(),
        0 <= j < k <= right.len(),
        g.edge(left[i] as int, right[j] as int),
    ensures
        middle_row(g, left, right, i, k).contains(((2 + i) as usize, (2 + left.len() + j) as usize)),
    decreases k,
{
    let x = ((2 + i) as usize, (2 + left.len() + j) as usize);
    if j < k - 1 {
        lemma_middle_row_has(g, left, right, i, j, k - 1);
        let s = middle_row(g, left, right, i, k - 1);
        let w = choose|w: int| 0 <= w < s.len() && s[w] == x;
        assert(middle_row(g, left, right, i, k)[w] == x);
    } else {
        let s = middle_row(g, left, right, i, k - 1);
        assert(middle_row(g, left, right, i, k)[s.len() as int] == x);
    }
}

proof fn lemma_middle_arcs_has(g: SimpleGraph, left: Seq<usize>, right: Seq<usize>, i: int, j: int, k: int)
    requires
        0 <= i < k <= left.len(),
        0 <= j < right.len(),
        g.edge(left[i] as int, right[j] as int),
    ensures
        middle_arcs(g, left, right, k).contains(((2 + i) as usize, (2 + left.len() + j) as usize)),
    decreases k,
{
    let x = ((2 + i) as usize, (2 + left.len() + j) as usize);
    let a = middle_arcs(g, left, right, k - 1);
    let b = middle_row(g, left, right, k - 1, right.len() as int);
    if i < k - 1 {
        lemma_middle_arcs_has(g, left, right, i, j, k - 1);
        let w = choose|w: int| 0 <= w < a.len() && a[w] == x;
        assert((a + b)[w] == x);
    } else {
        lemma_middle_row_has(g, left, right, i, j, right.len() as int);
        let w = choose|w: int| 0 <= w < b.len() && b[w] == x;
        assert((a + b)[a.len() + w] == x);
    }
}

/// The capacities `capacities_of(arcs)`.
fn capacities(arcs: &Vec<(usize, usize)>) -> (caps: Vec<u64>)
    requires
        source_arc_count(arcs@, arcs@.len() as int) < u64::MAX,
    ensures
        caps@ == capacities_of(arcs@),
{
    let mut s: u64 = 0;
    let mut k: usize = 0;
    while k < arcs.len()
        invariant
            k <= arcs@.len(),
            s == source_arc_count(arcs@, k as int),
            source_arc_count(arcs@, arcs@.len() as int) < u64::MAX,
        decreases arcs@.len() - k,
    {
        proof {
            lemma_source_arc_count_mono(arcs@, k + 1, arcs@.len() as int);
        }
        if arcs[k].0 == SOURCE {
            s = s + 1;
        }
        k = k + 1;
    }
    let mut caps: Vec<u64> = Vec::new();
    let mut k: usize = 0;
    while k < arcs.len()
        invariant
            k <= arcs@.len(),
            s == source_arc_count(arcs@, arcs@.len() as int),
            s < u64::MAX,
            caps@ == capacities_of(arcs@).subrange(0, k as int),
        decreases arcs@.len() - k,
    {
        if arcs[k].0 == SOURCE || arcs[k].1 == SINK {
            caps.push(1);
        } else {
            caps.push(s + 1);
        }
        assert(caps@ =~= capacities_of(arcs@).subrange(0, k + 1));
        k = k + 1;
    }
    assert(caps@ =~= capacities_of(arcs@));
    caps
}

proof fn lemma_source_arc_count_mono(arcs: Seq<(usize, usize)>, a: int, b: int)
    requires
        0 <= a <= b <= arcs.len(),
    ensures
        source_arc_count(arcs, a) <= source_arc_count(arcs, b),
    decreases b - a,
{
    if a < b {
        lemma_source_arc_count_mono(arcs, a, b - 1);
    }
}

proof fn lemma_cap_split(arcs: Seq<(usize, usize)>, caps: Seq<u64>, side: Seq<bool>, lo: int, mid: int, hi: int)
    requires
        lo <= mid <= hi,
    ensures
        cap_between(arcs, caps, side, lo, hi) == cap_between(arcs, caps, side, lo, mid) + cap_between(
            arcs,
            caps,
            side,
            mid,
            hi,
        ),
    decreases hi - mid,
{
    if hi > mid {
        lemma_cap_split(arcs, caps, side, lo, mid, hi - 1);
    }
}

proof fn lemma_cap_zero(arcs: Seq<(usize, usize)>, caps: Seq<u64>, side: Seq<bool>, lo: int, hi: int)
    requires
        forall|k: int| lo <= k < hi ==> !(side[(#[trigger] arcs[k]).0 as int] && !side[arcs[k].1 as int]),
    ensures
        cap_between(arcs, caps, side, lo, hi) == 0,
    decreases hi - lo,
{
    if hi > lo {
        lemma_cap_zero(arcs, caps, side, lo, hi - 1);
    }
}

/// Over arcs `lo + t` for `t < k` of unit capacity, the capacity leaving `side` counts the `t` with `bits[t]`.
proof fn lemma_cap_count(arcs: Seq<(usize, usize)>, caps: Seq<u64>, side: Seq<bool>, lo: int, k: int, bits: Seq<bool>)
    requires
        0 <= k <= bits.len(),
        forall|t: int| 0 <= t < k ==> #[trigger] caps[lo + t] == 1,
        forall|t: int|
            0 <= t < k ==> (side[(#[trigger] arcs[lo + t]).0 as int] && !side[arcs[lo + t].1 as int]) == bits[t],
    ensures
        cap_between(arcs, caps, side, lo, lo + k) == count_true(bits, 0, k),
    decreases k,
{
    if k > 0 {
        lemma_cap_count(arcs, caps, side, lo, k - 1, bits);
        assert(arcs[lo + (k - 1)] == arcs[lo + k - 1]);
    }
}

/// The number of entries `picks` takes is the number of 1 bits.
proof fn lemma_picks_len(ids: Seq<usize>, bits: Seq<u8>, k: int, flags: Seq<bool>)
    requires
        0 <= k <= bits.len(),
        flags.len() == bits.len(),
        forall|t: int| 0 <= t < bits.len() ==> #[trigger] flags[t] == (bits[t] == 1),
    ensures
        picks(ids, bits, k).len() == count_true(flags, 0, k),
    decreases k,
{
    if k > 0 {
        lemma_picks_len(ids, bits, k - 1, flags);
    }
}

proof fn lemma_room_for_nodes(n: int)
    requires
        0 <= n,
        n * n <= usize::MAX,
    ensures
        2 * n + 2 <= usize::MAX,
{
    if n >= 3 {
        assert(n * n >= 3 * n) by (nonlinear_arith)
            requires n >= 3;
    }
}

/// `v` has a neighbour in `g`.
fn neighbor_exists(g: &SimpleGraph, v: usize) -> (r: bool)
    requires
        g.wf(),
        v < g.n(),
    ensures
        r == has_neighbor(*g, v as int),
{
    let n = g.num_vertices();
    let mut w: usize = 0;
    while w < n
        invariant
            g.wf(),
            n == g.n(),
            v < n,
            w <= n,
            forall|x: int| 0 <= x < w ==> !#[trigger] g.edge(v as int, x),
        decreases n - w,
    {
        if g.has_edge(v, w) {
            return true;
        }
        w = w + 1;
    }
    false
}

/// Marks each vertex below `n`: 1 for one in `a`, 2 for one in `b`, 0 otherwise.
fn side_marks(n: usize, a: &Vec<usize>, b: &Vec<usize>) -> (m: Vec<u8>)
    requires
        forall|i: int| 0 <= i < a@.len() ==> #[trigger] a@[i] < n,
        forall|i: int| 0 <= i < b@.len() ==> #[trigger] b@[i] < n,
        forall|v: usize| !(#[trigger] a@.contains(v) && b@.contains(v)),
    ensures
        m@.len() == n,
        forall|v: int| 0 <= v < n ==> (#[trigger] m@[v] == 1) == a@.contains(v as usize),
        forall|v: int| 0 <= v < n ==> (#[trigger] m@[v] == 2) == b@.contains(v as usize),
{
    let mut m: Vec<u8> = Vec::new();
    let mut i: usize = 0;
    while i < n
        invariant
            i <= n,
            m@ == Seq::new(i as nat, |k: int| 0u8),
        decreases n - i,
    {
        m.push(0);
        i = i + 1;
    }
    let mut i: usize = 0;
    while i < a.len()
        invariant
            forall|t: int| 0 <= t < a@.len() ==> #[trigger] a@[t] < n,
            i <= a@.len(),
            m@.len() == n,
            forall|v: int| 0 <= v < n ==> (#[trigger] m@[v] == 1) == (exists|t: int| 0 <= t < i && a@[t] == v),
            forall|v: int| 0 <= v < n ==> #[trigger] m@[v] != 2,
        decreases a@.len() - i,
    {
        let ghost old_m = m@;
        m.set(a[i], 1);
        assert forall|v: int| 0 <= v < n implies (#[trigger] m@[v] == 1) == (exists|t: int|
            0 <= t < i + 1 && a@[t] == v) by {
            if v == a@[i as int] {
                assert(a@[i as int] == v);
            } else {
                assert(m@[v] == old_m[v]);
                if exists|t: int| 0 <= t < i + 1 && a@[t] == v {
                    let t = choose|t: int| 0 <= t < i + 1 && a@[t] == v;
                    assert(t < i);
                }
            }
        }
        i = i + 1;
    }
    let mut i: usize = 0;
    while i < b.len()
        invariant
            forall|t: int| 0 <= t < a@.len() ==> #[trigger] a@[t] < n,
            forall|t: int| 0 <= t < b@.len() ==> #[trigger] b@[t] < n,
            forall|v: usize| !(#[trigger] a@.contains(v) && b@.contains(v)),
            i <= b@.len(),
            m@.len() == n,
            forall|v: int| 0 <= v < n ==> (#[trigger] m@[v] == 1) == (a@.contains(v as usize) && !(exists|t: int| 0 <= t < i && b@[t] == v)),
            forall|v: int| 0 <= v < n ==> (#[trigger] m@[v] == 2) == (exists|t: int| 0 <= t < i && b@[t] == v),
        decreases b@.len() - i,
    {
        let ghost old_m = m@;
        m.set(b[i], 2);
        assert forall|v: int| 0 <= v < n implies (#[trigger] m@[v] == 2) == (exists|t: int|
            0 <= t < i + 1 && b@[t] == v) && (m@[v] == 1) == (a@.contains(v as usize) && !(exists|t: int| 0 <= t < i + 1 && b@[t] == v)) by {
            if v == b@[i as int] {
                assert(b@[i as int] == v);
            } else {
                assert(m@[v] == old_m[v]);
                if exists|t: int| 0 <= t < i + 1 && b@[t] == v {
                    let t = choose|t: int| 0 <= t < i + 1 && b@[t] == v;
                    assert(t < i);
                }
            }
        }
        i = i + 1;
    }
    assert forall|v: int| 0 <= v < n implies (#[trigger] m@[v] == 1) == a@.contains(v as usize) by {
        if a@.contains(v as usize) && exists|t: int| 0 <= t < b@.len() && b@[t] == v {
            let t = choose|t: int| 0 <= t < b@.len() && b@[t] == v;
            assert(b@[t] == v as usize);
            assert(b@.contains(v as usize));
        }
    }
    assert forall|v: int| 0 <= v < n implies (#[trigger] m@[v] == 2) == b@.contains(v as usize) by {
        if b@.contains(v as usize) {
            let t = choose|t: int| 0 <= t < b@.len() && b@[t] == v as usize;
            assert(b@[t] == v);
        }
    }
    assert forall|v: int| 0 <= v < n implies (#[trigger] m@[v] == 1) == a@.contains(v as usize) by {
        if a@.contains(v as usize) {
            let t = choose|t: int| 0 <= t < a@.len() && a@[t] == v as usize;
            assert(a@[t] == v);
        }
    }
    m
}

} // verus!
