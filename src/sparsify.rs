use vstd::prelude::*;
use crate::anneal::{
    complemented, lemma_members_contains, members, pivoted, set_members, ComplementFinder, PivotFinder,
};
use crate::graph::{edge_count, is_adjacency, SimpleGraph};

verus! {

/// A move committed by the sparsifier.
#[derive(Clone, Debug)]
pub enum SparsifierMove {
    /// A local complementation on these vertices.
    Complement(Vec<usize>),
    /// A pivot between these two disjoint vertex sets.
    Pivot(Vec<usize>, Vec<usize>),
}

/// `m` locally complemented on the listed vertices.
pub open spec fn complemented_list(m: Seq<Seq<bool>>, c: Seq<usize>) -> Seq<Seq<bool>> {
    Seq::new(
        m.len(),
        |a: int| Seq::new(m.len(), |b: int| m[a][b] != (a != b && c.contains(a as usize) && c.contains(b as usize))),
    )
}

/// `m` pivoted between the two listed vertex sets.
pub open spec fn pivoted_list(m: Seq<Seq<bool>>, l: Seq<usize>, r: Seq<usize>) -> Seq<Seq<bool>> {
    Seq::new(
        m.len(),
        |a: int| Seq::new(m.len(), |b: int| m[a][b] != ((l.contains(a as usize) && r.contains(b as usize)) || (r.contains(a as usize) && l.contains(b as usize)))),
    )
}

/// `m` after the move `mv`.
pub open spec fn apply_move(m: Seq<Seq<bool>>, mv: SparsifierMove) -> Seq<Seq<bool>> {
    match mv {
        SparsifierMove::Complement(c) => complemented_list(m, c@),
        SparsifierMove::Pivot(l, r) => pivoted_list(m, l@, r@),
    }
}

/// `m` after the moves of `moves`, in order.
pub open spec fn replay(m: Seq<Seq<bool>>, moves: Seq<SparsifierMove>) -> Seq<Seq<bool>>
    decreases moves.len(),
{
    if moves.len() == 0 {
        m
    } else {
        apply_move(replay(m, moves.drop_last()), moves.last())
    }
}

proof fn lemma_complemented_members(m: Seq<Seq<bool>>, s: Seq<bool>)
    requires
        s.len() == m.len(),
        m.len() <= usize::MAX,
    ensures
        complemented(m, s) == complemented_list(m, members(s, s.len() as int)),
{
    let c = complemented(m, s);
    let d = complemented_list(m, members(s, s.len() as int));
    assert forall|a: int| 0 <= a < m.len() implies #[trigger] c[a] =~= d[a] by {
        lemma_members_contains(s, s.len() as int, a);
        assert forall|b: int| 0 <= b < m.len() implies c[a][b] == d[a][b] by {
            lemma_members_contains(s, s.len() as int, b);
        }
    }
    assert(c =~= d);
}

proof fn lemma_pivoted_members(m: Seq<Seq<bool>>, l: Seq<bool>, r: Seq<bool>)
    requires
        l.len() == m.len(),
        r.len() == m.len(),
        m.len() <= usize::MAX,
    ensures
        pivoted(m, l, r) == pivoted_list(m, members(l, l.len() as int), members(r, r.len() as int)),
{
    let c = pivoted(m, l, r);
    let d = pivoted_list(m, members(l, l.len() as int), members(r, r.len() as int));
    assert forall|a: int| 0 <= a < m.len() implies #[trigger] c[a] =~= d[a] by {
        lemma_members_contains(l, l.len() as int, a);
        lemma_members_contains(r, r.len() as int, a);
        assert forall|b: int| 0 <= b < m.len() implies c[a][b] == d[a][b] by {
            lemma_members_contains(l, l.len() as int, b);
            lemma_members_contains(r, r.len() as int, b);
        }
    }
    assert(c =~= d);
}

/// The cost `alpha * vertices + beta * edges`.
pub open spec fn cost_of(alpha: u32, beta: u32, vertices: nat, edges: nat) -> int {
    alpha * vertices + beta * edges
}

/// The extra cost charged for committing a complementation: one more term.
pub const COMPLEMENT_PENALTY: u128 = 1;

/// The extra cost charged for committing a pivot: two more terms.
pub const PIVOT_PENALTY: u128 = 2;

/// Repeatedly replaces the graph by the cheaper of a complementation and a
/// pivot found by the annealers, while that lowers the cost. Costs are
/// counted in units of `unit`: a weight `w` stands for `w / unit`.
pub struct Sparsifier {
    /// The graph the sparsifier started from.
    pub origin: Ghost<Seq<Seq<bool>>>,
    pub graph: SimpleGraph,
    pub moves: Vec<SparsifierMove>,
    pub alpha: u32,
    pub beta: u32,
    pub unit: u32,
}

impl Sparsifier {
    /// The graph is well formed and is the starting graph with the logged moves applied in order.
    pub open spec fn wf(&self) -> bool {
        &&& self.graph.wf()
        &&& self.graph@ == replay(self.origin@, self.moves@)
    }

    /// A sparsifier on a copy of `graph`, with no move yet.
    pub fn new(graph: &SimpleGraph, alpha: u32, beta: u32, unit: u32) -> (s: Sparsifier)
        requires
            graph.wf(),
        ensures
            s.wf(),
            s.origin@ == graph@,
            s.graph@ == graph@,
            s.moves@.len() == 0,
            s.alpha == alpha,
            s.beta == beta,
            s.unit == unit,
    {
        Sparsifier { origin: Ghost(graph@), graph: graph.copy(), moves: Vec::new(), alpha, beta, unit }
    }

    /// The cost of `graph`: `alpha` per vertex and `beta` per edge.
    pub fn cost(&self, graph: &SimpleGraph) -> (c: u128)
        requires
            graph.wf(),
        ensures
            c == cost_of(self.alpha, self.beta, graph.n(), edge_count(graph@)),
            c <= 2 * 0xffff_ffff * 0xffff_ffff_ffff_ffffu128,
    {
        let v = graph.num_vertices() as u128;
        let e = graph.num_edges() as u128;
        let a = self.alpha as u128;
        let b = self.beta as u128;
        assert(a * v <= 0xffff_ffff * 0xffff_ffff_ffff_ffff) by (nonlinear_arith)
            requires a <= 0xffff_ffff, v <= 0xffff_ffff_ffff_ffff;
        assert(b * e <= 0xffff_ffff * 0xffff_ffff_ffff_ffff) by (nonlinear_arith)
            requires b <= 0xffff_ffff, e <= 0xffff_ffff_ffff_ffff;
        a * v + b * e
    }

    /// Whether `new` costs strictly less than `old`: a round's result is kept only then.
    pub fn improves(&self, old: &SimpleGraph, new: &SimpleGraph) -> (r: bool)
        requires
            old.wf(),
            new.wf(),
        ensures
            r == (cost_of(self.alpha, self.beta, new.n(), edge_count(new@)) < cost_of(
                self.alpha,
                self.beta,
                old.n(),
                edge_count(old@),
            )),
    {
        self.cost(new) < self.cost(old)
    }

    /// One round: with the finished complement and pivot searches on the
    /// current graph, commits the cheaper of the two moves (the pivot on a
    /// tie) when it costs less than the current graph, penalties included,
    /// and reports whether a move was committed.
    pub fn commit_round(&mut self, complement: ComplementFinder, pivot: PivotFinder) -> (improved: bool)
        requires
            old(self).wf(),
            complement.wf(),
            pivot.wf(),
            complement.origin@ == old(self).graph@,
            pivot.origin@ == old(self).graph@,
        ensures
            final(self).wf(),
            final(self).origin == old(self).origin,
            final(self).alpha == old(self).alpha,
            final(self).beta == old(self).beta,
            final(self).unit == old(self).unit,
            ({
                let base = cost_of(old(self).alpha, old(self).beta, old(self).graph.n(), edge_count(old(self).graph@));
                let cc = cost_of(old(self).alpha, old(self).beta, complement.graph.n(), edge_count(complement.graph@))
                    + old(self).unit * COMPLEMENT_PENALTY;
                let pc = cost_of(old(self).alpha, old(self).beta, pivot.graph.n(), edge_count(pivot.graph@))
                    + old(self).unit * PIVOT_PENALTY;
                &&& improved == (cc < base || pc < base)
                &&& !improved ==> final(self).graph@ == old(self).graph@ && final(self).moves@ == old(self).moves@
                &&& improved && cc < pc ==> final(self).graph@ == complement.graph@
                    && final(self).moves@.len() == old(self).moves@.len() + 1
                    && final(self).moves@.subrange(0, old(self).moves@.len() as int) == old(self).moves@
                    && (final(self).moves@.last() matches SparsifierMove::Complement(c) && c@ == members(
                        complement.current@,
                        complement.current@.len() as int,
                    ))
                &&& improved && !(cc < pc) ==> final(self).graph@ == pivot.graph@
                    && final(self).moves@.len() == old(self).moves@.len() + 1
                    && final(self).moves@.subrange(0, old(self).moves@.len() as int) == old(self).moves@
                    && (final(self).moves@.last() matches SparsifierMove::Pivot(l, r) && l@ == members(
                        pivot.left@,
                        pivot.left@.len() as int,
                    ) && r@ == members(pivot.right@, pivot.right@.len() as int))
            }),
    {
        proof {
            complement.lemma_graph();
            pivot.lemma_graph();
        }
        let unit = self.unit as u128;
        let complement_cost = self.cost(&complement.graph) + unit * COMPLEMENT_PENALTY;
        let pivot_cost = self.cost(&pivot.graph) + unit * PIVOT_PENALTY;
        let base = self.cost(&self.graph);
        if complement_cost >= base && pivot_cost >= base {
            return false;
        }
        let ghost old_moves = self.moves@;
        let ghost old_graph = self.graph@;
        proof {
            self.graph.lemma_wf();
            let n = self.graph.n();
            assert(n <= usize::MAX) by (nonlinear_arith)
                requires n * n <= usize::MAX;
        }
        if complement_cost < pivot_cost {
            let c = set_members(&complement.current);
            proof {
                lemma_complemented_members(old_graph, complement.current@);
            }
            self.graph = complement.graph;
            self.moves.push(SparsifierMove::Complement(c));
        } else {
            let l = set_members(&pivot.left);
            let r = set_members(&pivot.right);
            proof {
                lemma_pivoted_members(old_graph, pivot.left@, pivot.right@);
            }
            self.graph = pivot.graph;
            self.moves.push(SparsifierMove::Pivot(l, r));
        }
        assert(self.moves@.subrange(0, old_moves.len() as int) =~= old_moves);
        assert(self.moves@.drop_last() =~= old_moves);
        true
    }
}

} // verus!
