use vstd::prelude::*;
use crate::graph::{copy_bools, edge_count, is_adjacency, SimpleGraph};

verus! {

/// Toggling `v` against the set `p` flips the pair `{a, b}`: one end is `v`
/// and the other a different vertex of `p`.
pub open spec fn flips(p: Seq<bool>, v: int, a: int, b: int) -> bool {
    a != b && ((a == v && p[b]) || (b == v && p[a]))
}

/// The adjacency matrix `m` after toggling `v` against `p`: every edge
/// between `v` and another vertex of `p` is flipped.
pub open spec fn toggle_against(m: Seq<Seq<bool>>, p: Seq<bool>, v: int) -> Seq<Seq<bool>> {
    Seq::new(m.len(), |a: int| Seq::new(m.len(), |b: int| m[a][b] != flips(p, v, a, b)))
}

/// The set `s` with the membership of `v` flipped.
pub open spec fn flip_member(s: Seq<bool>, v: int) -> Seq<bool> {
    s.update(v, !s[v])
}

/// The adjacency matrix `m` locally complemented on the set `s`: every pair
/// of distinct members is flipped.
pub open spec fn complemented(m: Seq<Seq<bool>>, s: Seq<bool>) -> Seq<Seq<bool>> {
    Seq::new(m.len(), |a: int| Seq::new(m.len(), |b: int| m[a][b] != (a != b && s[a] && s[b])))
}

/// The adjacency matrix `m` pivoted between `l` and `r`: every pair of a
/// member of `l` and a member of `r` is flipped.
pub open spec fn pivoted(m: Seq<Seq<bool>>, l: Seq<bool>, r: Seq<bool>) -> Seq<Seq<bool>> {
    Seq::new(m.len(), |a: int| Seq::new(m.len(), |b: int| m[a][b] != ((l[a] && r[b]) || (r[a] && l[b]))))
}

/// Toggling `v` in the set `s` of a complemented graph gives the graph
/// complemented on the new set: the search graph only depends on its set.
pub proof fn lemma_toggle_complemented(o: Seq<Seq<bool>>, s: Seq<bool>, v: int)
    requires
        is_adjacency(o),
        s.len() == o.len(),
        0 <= v < o.len(),
    ensures
        toggle_against(complemented(o, s), s, v) == complemented(o, flip_member(s, v)),
{
    let t = toggle_against(complemented(o, s), s, v);
    let c = complemented(o, flip_member(s, v));
    assert forall|a: int| 0 <= a < o.len() implies #[trigger] t[a] =~= c[a] by {}
    assert(t =~= c);
}

/// Toggling `v` on the left side of a pivoted graph gives the graph pivoted
/// with the new left side.
pub proof fn lemma_toggle_pivoted_left(o: Seq<Seq<bool>>, l: Seq<bool>, r: Seq<bool>, v: int)
    requires
        is_adjacency(o),
        l.len() == o.len(),
        r.len() == o.len(),
        0 <= v < o.len(),
        !r[v],
    ensures
        toggle_against(pivoted(o, l, r), r, v) == pivoted(o, flip_member(l, v), r),
{
    let t = toggle_against(pivoted(o, l, r), r, v);
    let c = pivoted(o, flip_member(l, v), r);
    assert forall|a: int| 0 <= a < o.len() implies #[trigger] t[a] =~= c[a] by {}
    assert(t =~= c);
}

/// Toggling `v` on the right side of a pivoted graph gives the graph pivoted
/// with the new right side.
pub proof fn lemma_toggle_pivoted_right(o: Seq<Seq<bool>>, l: Seq<bool>, r: Seq<bool>, v: int)
    requires
        is_adjacency(o),
        l.len() == o.len(),
        r.len() == o.len(),
        0 <= v < o.len(),
        !l[v],
    ensures
        toggle_against(pivoted(o, l, r), l, v) == pivoted(o, l, flip_member(r, v)),
{
    let t = toggle_against(pivoted(o, l, r), l, v);
    let c = pivoted(o, l, flip_member(r, v));
    assert forall|a: int| 0 <= a < o.len() implies #[trigger] t[a] =~= c[a] by {}
    assert(t =~= c);
}

/// Toggling a vertex in a set twice restores both the graph and the set.
pub proof fn lemma_toggle_twice(m: Seq<Seq<bool>>, s: Seq<bool>, v: int)
    requires
        is_adjacency(m),
        s.len() == m.len(),
        0 <= v < m.len(),
    ensures
        toggle_against(toggle_against(m, s, v), flip_member(s, v), v) == m,
        flip_member(flip_member(s, v), v) == s,
{
    let t = toggle_against(toggle_against(m, s, v), flip_member(s, v), v);
    assert forall|a: int| 0 <= a < m.len() implies #[trigger] t[a] =~= m[a] by {
        assert forall|b: int| 0 <= b < m.len() implies t[a][b] == m[a][b] by {
            assert(flips(flip_member(s, v), v, a, b) == flips(s, v, a, b));
        }
    }
    assert(t =~= m);
    assert(flip_member(flip_member(s, v), v) =~= s);
}

/// Toggles, in `g`, the edge between `v` and each other vertex of `p`.
pub fn toggle_node_against(g: &mut SimpleGraph, p: &Vec<bool>, v: usize)
    requires
        old(g).wf(),
        p@.len() == old(g).n(),
        v < old(g).n(),
    ensures
        final(g).wf(),
        final(g)@ == toggle_against(old(g)@, p@, v as int),
{
    let n = g.num_vertices();
    let ghost m = g@;
    proof {
        g.lemma_wf();
    }
    let mut u: usize = 0;
    while u < n
        invariant
            g.wf(),
            g.n() == n,
            m.len() == n,
            is_adjacency(m),
            p@.len() == n,
            v < n,
            u <= n,
            forall|a: int, b: int|
                0 <= a < n && 0 <= b < n ==> #[trigger] g@[a][b] == (m[a][b] != (flips(p@, v as int, a, b)
                    && (if a == v { b } else { a }) < u)),
        decreases n - u,
    {
        let ghost before = g@;
        proof {
            g.lemma_wf();
        }
        if u != v && p[u] {
            g.toggle_edge(v, u);
        }
        proof {
            g.lemma_wf();
            assert forall|a: int, b: int|
                0 <= a < n && 0 <= b < n implies #[trigger] g@[a][b] == (m[a][b] != (flips(p@, v as int, a, b)
                    && (if a == v { b } else { a }) < u + 1)) by {
                assert(before[a][b] == (m[a][b] != (flips(p@, v as int, a, b) && (if a == v { b } else { a }) < u)));
                if u != v && p@[u as int] {
                    let m1 = before.update(v as int, before[v as int].update(u as int, !before[v as int][u as int]));
                    assert(g@ == m1.update(u as int, m1[u as int].update(v as int, !before[v as int][u as int])));
                    assert(before[a].len() == n && before[v as int].len() == n && before[u as int].len() == n);
                    assert(g@[a][b] == if (a == v && b == u) || (a == u && b == v) { !before[a][b] } else { before[a][b] });
                } else {
                    assert(g@ == before);
                }
            }
        }
        u = u + 1;
    }
    proof {
        g.lemma_wf();
        let t = toggle_against(m, p@, v as int);
        assert forall|a: int| 0 <= a < n implies #[trigger] g@[a] =~= t[a] by {
            assert forall|b: int| 0 <= b < n implies g@[a][b] == t[a][b] by {}
        }
        assert(g@ =~= t);
    }
}

/// Toggles `v` in the set `s` of the graph `g`: the edges between `v` and
/// the other members flip, and the membership of `v` flips. Doing it twice
/// restores both (`lemma_toggle_twice`).
pub fn toggle_in_set(g: &mut SimpleGraph, s: &mut Vec<bool>, v: usize)
    requires
        old(g).wf(),
        old(s)@.len() == old(g).n(),
        v < old(g).n(),
    ensures
        final(g).wf(),
        final(g)@ == toggle_against(old(g)@, old(s)@, v as int),
        final(s)@ == flip_member(old(s)@, v as int),
{
    toggle_node_against(g, s, v);
    let was = s[v];
    s.set(v, !was);
}

/// A set of `n` vertices, none of them chosen.
pub fn empty_set(n: usize) -> (s: Vec<bool>)
    ensures
        s@ == Seq::new(n as nat, |i: int| false),
{
    let mut s: Vec<bool> = Vec::new();
    let mut i: usize = 0;
    while i < n
        invariant
            i <= n,
            s@ == Seq::new(i as nat, |k: int| false),
        decreases n - i,
    {
        s.push(false);
        i = i + 1;
    }
    s
}

/// Searches for a set of vertices whose local complementation leaves the
/// fewest edges. Each step toggles one vertex in the set (flipping its edges
/// to the other members); a step that does not add edges is kept, and the
/// caller decides, by the Metropolis rule, whether to keep one that does.
/// The best state seen is kept aside and can be restored.
pub struct ComplementFinder {
    /// The graph the search started from.
    pub origin: Ghost<Seq<Seq<bool>>>,
    pub graph: SimpleGraph,
    pub current: Vec<bool>,
    pub fitness: usize,
    /// The vertex whose toggle awaits a decision, if any.
    pub pending: Option<usize>,
    pub best_graph: SimpleGraph,
    pub best_current: Vec<bool>,
    pub best_fitness: usize,
}

impl ComplementFinder {
    /// After a settled step from `prev`: the best fitness is the smaller of
    /// the previous best and the new fitness, and the best graph and set are
    /// the new ones when that improved, and the previous best ones otherwise.
    pub open spec fn best_updated(prev: &ComplementFinder, next: &ComplementFinder) -> bool {
        &&& next.best_fitness == if next.fitness < prev.best_fitness { next.fitness } else { prev.best_fitness }
        &&& next.fitness < prev.best_fitness ==> next.best_graph@ == next.graph@ && next.best_current@ == next.current@
        &&& next.fitness >= prev.best_fitness ==> next.best_graph@ == prev.best_graph@ && next.best_current@
            == prev.best_current@
    }

    /// The best state did not change between `prev` and `next`.
    pub open spec fn best_kept(prev: &ComplementFinder, next: &ComplementFinder) -> bool {
        &&& next.best_fitness == prev.best_fitness
        &&& next.best_graph@ == prev.best_graph@
        &&& next.best_current@ == prev.best_current@
    }

    /// The graphs are well formed over the same vertices; the working graph is
    /// the starting graph complemented on the current set and the best graph
    /// on the best set; the best fitness is the best graph's edge count and no
    /// more than the current fitness; with nothing pending the fitness is the
    /// working graph's edge count, and with a toggle pending it is that of the
    /// graph before the toggle, which the toggle raised.
    pub open spec fn wf(&self) -> bool {
        &&& self.graph.wf()
        &&& self.current@.len() == self.graph.n()
        &&& self.best_graph.wf()
        &&& self.best_graph.n() == self.graph.n()
        &&& self.best_current@.len() == self.graph.n()
        &&& self.best_fitness == edge_count(self.best_graph@)
        &&& self.best_fitness <= self.fitness
        &&& is_adjacency(self.origin@)
        &&& self.origin@.len() == self.graph.n()
        &&& self.graph@ == complemented(self.origin@, self.current@)
        &&& self.best_graph@ == complemented(self.origin@, self.best_current@)
        &&& match self.pending {
            Some(v) => v < self.graph.n() && self.fitness == edge_count(
                toggle_against(self.graph@, self.current@, v as int),
            ) && edge_count(self.graph@) > self.fitness,
            None => self.fitness == edge_count(self.graph@),
        }
    }

    /// The working graph is well formed, and it is the starting graph
    /// complemented on the current set; the best graph, on the best set.
    pub proof fn lemma_graph(&self)
        requires
            self.wf(),
        ensures
            self.graph.wf(),
            self.current@.len() == self.graph.n(),
            self.best_current@.len() == self.graph.n(),
            is_adjacency(self.origin@),
            self.graph@ == complemented(self.origin@, self.current@),
            self.best_graph@ == complemented(self.origin@, self.best_current@),
    {
    }

    /// A finder on a copy of `graph`, with the empty set.
    pub fn new(graph: &SimpleGraph) -> (f: ComplementFinder)
        requires
            graph.wf(),
        ensures
            f.wf(),
            f.origin@ == graph@,
            f.graph@ == graph@,
            f.current@ == Seq::new(graph.n(), |i: int| false),
            f.fitness == edge_count(graph@),
            f.pending.is_none(),
            f.best_fitness == f.fitness,
            f.best_graph@ == f.graph@,
            f.best_current@ == f.current@,
    {
        let n = graph.num_vertices();
        proof {
            graph.lemma_wf();
            let c = complemented(graph@, Seq::new(graph.n(), |i: int| false));
            assert forall|a: int| 0 <= a < n implies #[trigger] c[a] =~= graph@[a] by {}
            assert(c =~= graph@);
        }
        ComplementFinder {
            origin: Ghost(graph@),
            graph: graph.copy(),
            current: empty_set(n),
            fitness: graph.num_edges(),
            pending: None,
            best_graph: graph.copy(),
            best_current: empty_set(n),
            best_fitness: graph.num_edges(),
        }
    }

    /// Toggles `node` in the set: its edges to the other members flip, and
    /// its membership flips.
    fn toggle_node(&mut self, node: usize)
        requires
            old(self).graph.wf(),
            old(self).current@.len() == old(self).graph.n(),
            node < old(self).graph.n(),
        ensures
            final(self).graph.wf(),
            final(self).graph@ == toggle_against(old(self).graph@, old(self).current@, node as int),
            final(self).current@ == flip_member(old(self).current@, node as int),
            final(self).fitness == old(self).fitness,
            final(self).pending == old(self).pending,
            final(self).best_graph == old(self).best_graph,
            final(self).best_current == old(self).best_current,
            final(self).best_fitness == old(self).best_fitness,
            final(self).origin == old(self).origin,
    {
        toggle_in_set(&mut self.graph, &mut self.current, node);
    }

    /// Keeps the current state as the best one if it is strictly better.
    fn record_best(&mut self)
        requires
            old(self).graph.wf(),
            old(self).best_graph.wf(),
            old(self).pending.is_none(),
            old(self).fitness == edge_count(old(self).graph@),
            old(self).best_fitness == edge_count(old(self).best_graph@),
        ensures
            final(self).graph == old(self).graph,
            final(self).current == old(self).current,
            final(self).fitness == old(self).fitness,
            final(self).pending == old(self).pending,
            final(self).origin == old(self).origin,
            final(self).best_graph.wf(),
            final(self).best_fitness == edge_count(final(self).best_graph@),
            final(self).best_fitness <= old(self).best_fitness,
            final(self).best_fitness <= final(self).fitness,
            old(self).fitness < old(self).best_fitness ==> final(self).best_graph@ == old(self).graph@
                && final(self).best_current@ == old(self).current@,
            old(self).fitness >= old(self).best_fitness ==> final(self).best_graph == old(self).best_graph
                && final(self).best_current == old(self).best_current,
    {
        if self.fitness < self.best_fitness {
            self.best_graph = self.graph.copy();
            self.best_current = copy_bools(&self.current);
            self.best_fitness = self.fitness;
        }
    }

    /// Proposes toggling `node`. A move that does not add edges is kept and
    /// `None` is returned; otherwise the move stays applied, awaiting
    /// `resolve`, and the number of edges it adds is returned.
    pub fn propose(&mut self, node: usize) -> (d: Option<usize>)
        requires
            old(self).wf(),
            old(self).pending.is_none(),
            node < old(self).graph.n(),
        ensures
            final(self).wf(),
            final(self).graph@ == toggle_against(old(self).graph@, old(self).current@, node as int),
            final(self).current@ == flip_member(old(self).current@, node as int),
            edge_count(final(self).graph@) <= old(self).fitness ==> d.is_none() && final(self).pending.is_none() && final(self).fitness == edge_count(final(self).graph@),
            edge_count(final(self).graph@) > old(self).fitness ==> d == Some(
                (edge_count(final(self).graph@) - old(self).fitness) as usize,
            ) && final(self).pending == Some(node) && final(self).fitness == old(self).fitness,
            d.is_none() ==> ComplementFinder::best_updated(&*old(self), &*final(self)),
            d.is_some() ==> ComplementFinder::best_kept(&*old(self), &*final(self)),
            final(self).best_fitness <= old(self).best_fitness,
            final(self).origin == old(self).origin,
    {
        proof {
            lemma_toggle_complemented(self.origin@, self.current@, node as int);
        }
        self.toggle_node(node);
        let new_fitness = self.graph.num_edges();
        if new_fitness <= self.fitness {
            self.fitness = new_fitness;
            self.record_best();
            None
        } else {
            self.pending = Some(node);
            proof {
                old(self).graph.lemma_wf();
                lemma_toggle_twice(old(self).graph@, old(self).current@, node as int);
            }
            Some(new_fitness - self.fitness)
        }
    }

    /// Settles the proposal that awaits a decision: keeps it when `accept`
    /// holds, and otherwise undoes it exactly.
    pub fn resolve(&mut self, accept: bool)
        requires
            old(self).wf(),
            old(self).pending.is_some(),
        ensures
            final(self).wf(),
            final(self).pending.is_none(),
            accept ==> final(self).graph@ == old(self).graph@ && final(self).current@ == old(self).current@ && final(self).fitness == edge_count(old(self).graph@),
            !accept ==> final(self).graph@ == toggle_against(
                old(self).graph@,
                old(self).current@,
                old(self).pending.unwrap() as int,
            ) && final(self).current@
                == flip_member(old(self).current@, old(self).pending.unwrap() as int)
                && final(self).fitness == old(self).fitness,
            ComplementFinder::best_updated(&*old(self), &*final(self)),
            final(self).best_fitness <= old(self).best_fitness,
            final(self).origin == old(self).origin,
    {
        let node = match self.pending {
            Some(v) => v,
            None => 0,
        };
        self.pending = None;
        if accept {
            self.fitness = self.graph.num_edges();
        } else {
            proof {
                lemma_toggle_complemented(self.origin@, self.current@, node as int);
            }
            self.toggle_node(node);
        }
        self.record_best();
    }

    /// Ends the search: the best state seen becomes the current one.
    pub fn restore_best(&mut self)
        requires
            old(self).wf(),
        ensures
            final(self).wf(),
            final(self).pending.is_none(),
            final(self).graph@ == old(self).best_graph@,
            final(self).current@ == old(self).best_current@,
            final(self).fitness == old(self).best_fitness,
            final(self).fitness == edge_count(final(self).graph@),
            ComplementFinder::best_kept(&*old(self), &*final(self)),
            final(self).origin == old(self).origin,
    {
        self.graph = self.best_graph.copy();
        self.current = copy_bools(&self.best_current);
        self.fitness = self.best_fitness;
        self.pending = None;
    }

    /// The fitness of the best state seen.
    pub fn best_fitness(&self) -> (r: usize)
        ensures
            r == self.best_fitness,
    {
        self.best_fitness
    }

    /// The members of the set, in increasing order.
    pub fn solution_found(&self) -> (r: Vec<usize>)
        ensures
            r@ == members(self.current@, self.current@.len() as int),
    {
        set_members(&self.current)
    }
}

/// The vertices `v < k` with `s[v]`, in increasing order.
pub open spec fn members(s: Seq<bool>, k: int) -> Seq<usize>
    decreases k,
{
    if k <= 0 {
        Seq::empty()
    } else if s[k - 1] {
        members(s, k - 1).push((k - 1) as usize)
    } else {
        members(s, k - 1)
    }
}

/// `members(s, k)` lists exactly the members of `s` below `k`.
pub proof fn lemma_members_contains(s: Seq<bool>, k: int, v: int)
    requires
        0 <= k <= s.len(),
        s.len() <= usize::MAX,
        0 <= v,
        v <= usize::MAX,
    ensures
        members(s, k).contains(v as usize) <==> (v < k && s[v]),
    decreases k,
{
    if k > 0 {
        lemma_members_contains(s, k - 1, v);
        let p = members(s, k - 1);
        if s[k - 1] {
            assert(members(s, k) == p.push((k - 1) as usize));
            if p.contains(v as usize) {
                let w = choose|w: int| 0 <= w < p.len() && p[w] == v as usize;
                assert(p.push((k - 1) as usize)[w] == v as usize);
            }
            if v == k - 1 {
                assert(p.push((k - 1) as usize)[p.len() as int] == v as usize);
            }
            let q = p.push((k - 1) as usize);
            if q.contains(v as usize) && v != k - 1 {
                let w = choose|w: int| 0 <= w < q.len() && q[w] == v as usize;
                assert(q[p.len() as int] == (k - 1) as usize);
                assert(w < p.len());
                assert(p[w] == v as usize);
            }
        }
    }
}

/// The members of `s`, in increasing order.
pub fn set_members(s: &Vec<bool>) -> (r: Vec<usize>)
    ensures
        r@ == members(s@, s@.len() as int),
{
    let mut r: Vec<usize> = Vec::new();
    let mut i: usize = 0;
    while i < s.len()
        invariant
            i <= s@.len(),
            r@ == members(s@, i as int),
        decreases s@.len() - i,
    {
        if s[i] {
            r.push(i);
        }
        i = i + 1;
    }
    r
}


/// Toggling `v` twice against the same partners restores the graph.
pub proof fn lemma_toggle_same_twice(m: Seq<Seq<bool>>, p: Seq<bool>, v: int)
    requires
        is_adjacency(m),
        p.len() == m.len(),
        0 <= v < m.len(),
    ensures
        toggle_against(toggle_against(m, p, v), p, v) == m,
{
    let t = toggle_against(toggle_against(m, p, v), p, v);
    assert forall|a: int| 0 <= a < m.len() implies #[trigger] t[a] =~= m[a] by {}
    assert(t =~= m);
}

/// No vertex is in both `l` and `r`.
pub open spec fn disjoint(l: Seq<bool>, r: Seq<bool>) -> bool {
    forall|v: int| 0 <= v < l.len() ==> !(#[trigger] l[v] && r[v])
}

/// Searches for two disjoint vertex sets whose pivot (flipping every edge
/// between them) leaves the fewest edges. Each step moves one vertex into or
/// out of one side, flipping its edges to the other side; the acceptance
/// rule is that of `ComplementFinder`.
pub struct PivotFinder {
    /// The graph the search started from.
    pub origin: Ghost<Seq<Seq<bool>>>,
    pub graph: SimpleGraph,
    pub left: Vec<bool>,
    pub right: Vec<bool>,
    pub fitness: usize,
    /// The vertex whose toggle awaits a decision, with its side (`true` for left).
    pub pending: Option<(usize, bool)>,
    pub best_graph: SimpleGraph,
    pub best_left: Vec<bool>,
    pub best_right: Vec<bool>,
    pub best_fitness: usize,
}

impl PivotFinder {
    /// After a settled step from `prev`: the best fitness is the smaller of
    /// the previous best and the new fitness, and the best graph and sides
    /// are the new ones when that improved, and the previous best ones otherwise.
    pub open spec fn best_updated(prev: &PivotFinder, next: &PivotFinder) -> bool {
        &&& next.best_fitness == if next.fitness < prev.best_fitness { next.fitness } else { prev.best_fitness }
        &&& next.fitness < prev.best_fitness ==> next.best_graph@ == next.graph@ && next.best_left@ == next.left@
            && next.best_right@ == next.right@
        &&& next.fitness >= prev.best_fitness ==> next.best_graph@ == prev.best_graph@ && next.best_left@
            == prev.best_left@ && next.best_right@ == prev.best_right@
    }

    /// The best state did not change between `prev` and `next`.
    pub open spec fn best_kept(prev: &PivotFinder, next: &PivotFinder) -> bool {
        &&& next.best_fitness == prev.best_fitness
        &&& next.best_graph@ == prev.best_graph@
        &&& next.best_left@ == prev.best_left@
        &&& next.best_right@ == prev.best_right@
    }

    /// As for `ComplementFinder`, with the graphs pivoted between disjoint
    /// sides, and a pending toggle's vertex off the other side.
    pub open spec fn wf(&self) -> bool {
        &&& self.graph.wf()
        &&& self.left@.len() == self.graph.n()
        &&& self.right@.len() == self.graph.n()
        &&& disjoint(self.left@, self.right@)
        &&& self.best_graph.wf()
        &&& self.best_graph.n() == self.graph.n()
        &&& self.best_left@.len() == self.graph.n()
        &&& self.best_right@.len() == self.graph.n()
        &&& disjoint(self.best_left@, self.best_right@)
        &&& self.best_fitness == edge_count(self.best_graph@)
        &&& self.best_fitness <= self.fitness
        &&& is_adjacency(self.origin@)
        &&& self.origin@.len() == self.graph.n()
        &&& self.graph@ == pivoted(self.origin@, self.left@, self.right@)
        &&& self.best_graph@ == pivoted(self.origin@, self.best_left@, self.best_right@)
        &&& match self.pending {
            Some((v, side)) => v < self.graph.n() && !(if side { self.right@ } else { self.left@ })[v as int]
                && self.fitness == edge_count(
                toggle_against(self.graph@, if side { self.right@ } else { self.left@ }, v as int),
            ) && edge_count(self.graph@) > self.fitness,
            None => self.fitness == edge_count(self.graph@),
        }
    }

    /// The working graph is well formed, the sides are disjoint, and the
    /// graph is the starting graph pivoted between them; the best graph,
    /// between the best sides.
    pub proof fn lemma_graph(&self)
        requires
            self.wf(),
        ensures
            self.graph.wf(),
            disjoint(self.left@, self.right@),
            is_adjacency(self.origin@),
            self.graph@ == pivoted(self.origin@, self.left@, self.right@),
            self.best_graph@ == pivoted(self.origin@, self.best_left@, self.best_right@),
            self.best_left@.len() == self.graph.n(),
            self.best_right@.len() == self.graph.n(),
            self.left@.len() == self.graph.n(),
            self.right@.len() == self.graph.n(),
    {
    }

    /// A finder on a copy of `graph`, with both sides empty.
    pub fn new(graph: &SimpleGraph) -> (f: PivotFinder)
        requires
            graph.wf(),
        ensures
            f.wf(),
            f.origin@ == graph@,
            f.graph@ == graph@,
            f.left@ == Seq::new(graph.n(), |i: int| false),
            f.right@ == Seq::new(graph.n(), |i: int| false),
            f.fitness == edge_count(graph@),
            f.pending.is_none(),
            f.best_fitness == f.fitness,
            f.best_graph@ == f.graph@,
            f.best_left@ == f.left@,
            f.best_right@ == f.right@,
    {
        let n = graph.num_vertices();
        proof {
            graph.lemma_wf();
            let e = Seq::new(graph.n(), |i: int| false);
            let c = pivoted(graph@, e, e);
            assert forall|a: int| 0 <= a < n implies #[trigger] c[a] =~= graph@[a] by {}
            assert(c =~= graph@);
        }
        PivotFinder {
            origin: Ghost(graph@),
            graph: graph.copy(),
            left: empty_set(n),
            right: empty_set(n),
            fitness: graph.num_edges(),
            pending: None,
            best_graph: graph.copy(),
            best_left: empty_set(n),
            best_right: empty_set(n),
            best_fitness: graph.num_edges(),
        }
    }

    /// `node` may be toggled on the given side: it is not on the other one.
    pub fn can_toggle(&self, node: usize, left_side: bool) -> (r: bool)
        requires
            self.wf(),
            node < self.graph.n(),
        ensures
            r == !(if left_side { self.right@ } else { self.left@ })[node as int],
    {
        if left_side {
            !self.right[node]
        } else {
            !self.left[node]
        }
    }

    /// Toggles `node` on one side: its edges to the other side flip, and its
    /// membership of this side flips.
    fn toggle_node(&mut self, node: usize, left_side: bool)
        requires
            old(self).graph.wf(),
            old(self).left@.len() == old(self).graph.n(),
            old(self).right@.len() == old(self).graph.n(),
            node < old(self).graph.n(),
        ensures
            final(self).graph.wf(),
            final(self).graph@ == toggle_against(
                old(self).graph@,
                if left_side { old(self).right@ } else { old(self).left@ },
                node as int,
            ),
            left_side ==> final(self).left@ == flip_member(old(self).left@, node as int)
                && final(self).right == old(self).right,
            !left_side ==> final(self).right@ == flip_member(old(self).right@, node as int)
                && final(self).left == old(self).left,
            final(self).fitness == old(self).fitness,
            final(self).pending == old(self).pending,
            final(self).best_graph == old(self).best_graph,
            final(self).best_left == old(self).best_left,
            final(self).best_right == old(self).best_right,
            final(self).best_fitness == old(self).best_fitness,
            final(self).origin == old(self).origin,
    {
        if left_side {
            toggle_node_against(&mut self.graph, &self.right, node);
            let was = self.left[node];
            self.left.set(node, !was);
        } else {
            toggle_node_against(&mut self.graph, &self.left, node);
            let was = self.right[node];
            self.right.set(node, !was);
        }
    }

    /// Keeps the current state as the best one if it is strictly better.
    fn record_best(&mut self)
        requires
            old(self).graph.wf(),
            old(self).best_graph.wf(),
            old(self).pending.is_none(),
            old(self).fitness == edge_count(old(self).graph@),
            old(self).best_fitness == edge_count(old(self).best_graph@),
        ensures
            final(self).graph == old(self).graph,
            final(self).left == old(self).left,
            final(self).right == old(self).right,
            final(self).fitness == old(self).fitness,
            final(self).pending == old(self).pending,
            final(self).origin == old(self).origin,
            final(self).best_graph.wf(),
            final(self).best_fitness == edge_count(final(self).best_graph@),
            final(self).best_fitness <= old(self).best_fitness,
            final(self).best_fitness <= final(self).fitness,
            old(self).fitness < old(self).best_fitness ==> final(self).best_graph@ == old(self).graph@
                && final(self).best_left@ == old(self).left@ && final(self).best_right@ == old(self).right@,
            old(self).fitness >= old(self).best_fitness ==> final(self).best_graph == old(self).best_graph
                && final(self).best_left == old(self).best_left && final(self).best_right == old(self).best_right,
    {
        if self.fitness < self.best_fitness {
            self.best_graph = self.graph.copy();
            self.best_left = copy_bools(&self.left);
            self.best_right = copy_bools(&self.right);
            self.best_fitness = self.fitness;
        }
    }

    /// Proposes toggling `node` on the left side (or the right one). A move
    /// that does not add edges is kept and `None` is returned; otherwise the
    /// move stays applied, awaiting `resolve`, and the number of edges it
    /// adds is returned.
    pub fn propose(&mut self, node: usize, left_side: bool) -> (d: Option<usize>)
        requires
            old(self).wf(),
            old(self).pending.is_none(),
            node < old(self).graph.n(),
            !(if left_side { old(self).right@ } else { old(self).left@ })[node as int],
        ensures
            final(self).wf(),
            final(self).graph@ == toggle_against(
                old(self).graph@,
                if left_side { old(self).right@ } else { old(self).left@ },
                node as int,
            ),
            left_side ==> final(self).left@ == flip_member(old(self).left@, node as int)
                && final(self).right@ == old(self).right@,
            !left_side ==> final(self).right@ == flip_member(old(self).right@, node as int)
                && final(self).left@ == old(self).left@,
            edge_count(final(self).graph@) <= old(self).fitness ==> d.is_none() && final(self).pending.is_none()
                && final(self).fitness == edge_count(final(self).graph@),
            edge_count(final(self).graph@) > old(self).fitness ==> d == Some(
                (edge_count(final(self).graph@) - old(self).fitness) as usize,
            ) && final(self).pending == Some((node, left_side)) && final(self).fitness == old(self).fitness,
            d.is_none() ==> PivotFinder::best_updated(&*old(self), &*final(self)),
            d.is_some() ==> PivotFinder::best_kept(&*old(self), &*final(self)),
            final(self).best_fitness <= old(self).best_fitness,
            final(self).origin == old(self).origin,
    {
        proof {
            if left_side {
                lemma_toggle_pivoted_left(self.origin@, self.left@, self.right@, node as int);
            } else {
                lemma_toggle_pivoted_right(self.origin@, self.left@, self.right@, node as int);
            }
        }
        self.toggle_node(node, left_side);
        let new_fitness = self.graph.num_edges();
        proof {
            old(self).graph.lemma_wf();
            lemma_toggle_same_twice(
                old(self).graph@,
                if left_side { old(self).right@ } else { old(self).left@ },
                node as int,
            );
        }
        if new_fitness <= self.fitness {
            self.fitness = new_fitness;
            self.record_best();
            None
        } else {
            self.pending = Some((node, left_side));
            Some(new_fitness - self.fitness)
        }
    }

    /// Settles the proposal that awaits a decision: keeps it when `accept`
    /// holds, and otherwise undoes it exactly.
    pub fn resolve(&mut self, accept: bool)
        requires
            old(self).wf(),
            old(self).pending.is_some(),
        ensures
            final(self).wf(),
            final(self).pending.is_none(),
            accept ==> final(self).graph@ == old(self).graph@ && final(self).left@ == old(self).left@
                && final(self).right@ == old(self).right@ && final(self).fitness == edge_count(old(self).graph@),
            !accept ==> ({
                let (v, side) = old(self).pending.unwrap();
                &&& final(self).graph@ == toggle_against(
                    old(self).graph@,
                    if side { old(self).right@ } else { old(self).left@ },
                    v as int,
                )
                &&& side ==> final(self).left@ == flip_member(old(self).left@, v as int)
                    && final(self).right@ == old(self).right@
                &&& !side ==> final(self).right@ == flip_member(old(self).right@, v as int)
                    && final(self).left@ == old(self).left@
                &&& final(self).fitness == old(self).fitness
            }),
            PivotFinder::best_updated(&*old(self), &*final(self)),
            final(self).best_fitness <= old(self).best_fitness,
            final(self).origin == old(self).origin,
    {
        let (node, side) = match self.pending {
            Some(p) => p,
            None => (0, true),
        };
        self.pending = None;
        if accept {
            self.fitness = self.graph.num_edges();
        } else {
            proof {
                if side {
                    lemma_toggle_pivoted_left(self.origin@, self.left@, self.right@, node as int);
                } else {
                    lemma_toggle_pivoted_right(self.origin@, self.left@, self.right@, node as int);
                }
            }
            self.toggle_node(node, side);
            proof {
                assert(flip_member(flip_member(old(self).left@, node as int), node as int) =~= old(self).left@);
                assert(flip_member(flip_member(old(self).right@, node as int), node as int) =~= old(self).right@);
            }
        }
        self.record_best();
    }

    /// Ends the search: the best state seen becomes the current one.
    pub fn restore_best(&mut self)
        requires
            old(self).wf(),
        ensures
            final(self).wf(),
            final(self).pending.is_none(),
            final(self).graph@ == old(self).best_graph@,
            final(self).left@ == old(self).best_left@,
            final(self).right@ == old(self).best_right@,
            final(self).fitness == old(self).best_fitness,
            final(self).fitness == edge_count(final(self).graph@),
            PivotFinder::best_kept(&*old(self), &*final(self)),
            final(self).origin == old(self).origin,
    {
        self.graph = self.best_graph.copy();
        self.left = copy_bools(&self.best_left);
        self.right = copy_bools(&self.best_right);
        self.fitness = self.best_fitness;
        self.pending = None;
    }
}

/// The pairs `(a, j)` with `a < j < k` and both `a` and `j` in `s`, in increasing order of `j`.
pub open spec fn pair_row(s: Seq<bool>, a: int, k: int) -> Seq<(usize, usize)>
    decreases k - a,
{
    if k <= a + 1 {
        Seq::empty()
    } else if s[a] && s[k - 1] {
        pair_row(s, a, k - 1).push((a as usize, (k - 1) as usize))
    } else {
        pair_row(s, a, k - 1)
    }
}

/// The pairs `(a, b)` with `a < b`, `a < k` and both in `s`, in lexicographic order.
pub open spec fn member_pairs(s: Seq<bool>, k: int) -> Seq<(usize, usize)>
    decreases k,
{
    if k <= 0 {
        Seq::empty()
    } else {
        member_pairs(s, k - 1) + pair_row(s, k - 1, s.len() as int)
    }
}

/// The pairs `(a, j)` with `j < k`, `a` in `l` and `j` in `r`, in increasing order of `j`.
pub open spec fn cross_row(l: Seq<bool>, r: Seq<bool>, a: int, k: int) -> Seq<(usize, usize)>
    decreases k,
{
    if k <= 0 {
        Seq::empty()
    } else if l[a] && r[k - 1] {
        cross_row(l, r, a, k - 1).push((a as usize, (k - 1) as usize))
    } else {
        cross_row(l, r, a, k - 1)
    }
}

/// The pairs `(a, b)` with `a < k`, `a` in `l` and `b` in `r`, in lexicographic order.
pub open spec fn cross_pairs(l: Seq<bool>, r: Seq<bool>, k: int) -> Seq<(usize, usize)>
    decreases k,
{
    if k <= 0 {
        Seq::empty()
    } else {
        cross_pairs(l, r, k - 1) + cross_row(l, r, k - 1, r.len() as int)
    }
}

/// The edges that a local complementation on the set `s` flips: every pair
/// of distinct members, each once.
pub fn complement_pairs(s: &Vec<bool>) -> (r: Vec<(usize, usize)>)
    ensures
        r@ == member_pairs(s@, s@.len() as int),
{
    let n = s.len();
    let mut r: Vec<(usize, usize)> = Vec::new();
    let mut a: usize = 0;
    while a < n
        invariant
            n == s@.len(),
            a <= n,
            r@ == member_pairs(s@, a as int),
        decreases n - a,
    {
        let ghost base = r@;
        let mut b: usize = a + 1;
        while b < n
            invariant
                n == s@.len(),
                a < n,
                a + 1 <= b <= n,
                r@ == base + pair_row(s@, a as int, b as int),
            decreases n - b,
        {
            if s[a] && s[b] {
                r.push((a, b));
            }
            assert(r@ =~= base + pair_row(s@, a as int, b + 1));
            b = b + 1;
        }
        a = a + 1;
    }
    r
}

/// The edges that a pivot between `l` and `r` flips: every pair of a
/// member of `l` and a member of `r`, each once.
pub fn pivot_pairs(l: &Vec<bool>, r: &Vec<bool>) -> (p: Vec<(usize, usize)>)
    ensures
        p@ == cross_pairs(l@, r@, l@.len() as int),
{
    let mut p: Vec<(usize, usize)> = Vec::new();
    let mut a: usize = 0;
    while a < l.len()
        invariant
            a <= l@.len(),
            p@ == cross_pairs(l@, r@, a as int),
        decreases l@.len() - a,
    {
        let ghost base = p@;
        let mut b: usize = 0;
        while b < r.len()
            invariant
                a < l@.len(),
                b <= r@.len(),
                p@ == base + cross_row(l@, r@, a as int, b as int),
            decreases r@.len() - b,
        {
            if l[a] && r[b] {
                p.push((a, b));
            }
            assert(p@ =~= base + cross_row(l@, r@, a as int, b + 1));
            b = b + 1;
        }
        a = a + 1;
    }
    p
}

} // verus!
