use vstd::prelude::*;
use crate::anneal::{empty_set, flip_member, lemma_toggle_twice, toggle_against, toggle_node_against};
use crate::graph::{
    copy_bools, copy_ids, count_true, edge_count, lemma_count_true_bound, lemma_count_true_update, SimpleGraph,
};

verus! {

/// The number of members of the set `s`.
pub open spec fn set_size(s: Seq<bool>) -> nat {
    count_true(s, 0, s.len() as int)
}

/// `sizes[0] + ... + sizes[k - 1]`.
pub open spec fn sizes_total(sizes: Seq<usize>, k: int) -> nat
    decreases k,
{
    if k <= 0 {
        0
    } else {
        sizes_total(sizes, k - 1) + sizes[k - 1] as nat
    }
}

/// The number of non-zero entries among `sizes[..k]`.
pub open spec fn nonempty_count(sizes: Seq<usize>, k: int) -> nat
    decreases k,
{
    if k <= 0 {
        0
    } else {
        nonempty_count(sizes, k - 1) + if sizes[k - 1] > 0 { 1nat } else { 0nat }
    }
}

/// The cost `alpha * vertices + beta * edges` of the diagram the sets lead to.
/// Cut into terms, the diagram is the graph itself; otherwise each non-empty
/// set adds a gadget vertex with an edge to each member.
pub open spec fn set_fitness(alpha: u32, beta: u32, cut: bool, vertices: nat, edges: nat, sizes: Seq<usize>) -> int {
    if cut {
        alpha * vertices + beta * edges
    } else {
        alpha * (vertices + nonempty_count(sizes, sizes.len() as int)) + beta * (edges + sizes_total(
            sizes,
            sizes.len() as int,
        ))
    }
}

/// The sets, viewed as sequences.
pub open spec fn sets_view(sets: Seq<Vec<bool>>) -> Seq<Seq<bool>> {
    Seq::new(sets.len(), |i: int| sets[i]@)
}

/// `sizes[i]` is the size of `sets[i]`, each set has `n` entries, and the
/// sets fit in memory together.
pub open spec fn sets_ok(sets: Seq<Seq<bool>>, sizes: Seq<usize>, n: nat) -> bool {
    &&& sets.len() == sizes.len()
    &&& sets.len() >= 1
    &&& sets.len() * n <= usize::MAX
    &&& forall|i: int| 0 <= i < sets.len() ==> (#[trigger] sets[i]).len() == n
    &&& forall|i: int| 0 <= i < sets.len() ==> #[trigger] sizes[i] == set_size(sets[i])
}

proof fn lemma_sizes_total_bound(sizes: Seq<usize>, k: int, n: int)
    requires
        0 <= k <= sizes.len(),
        forall|i: int| 0 <= i < sizes.len() ==> #[trigger] sizes[i] <= n,
    ensures
        sizes_total(sizes, k) <= k * n,
        nonempty_count(sizes, k) <= k,
    decreases k,
{
    if k > 0 {
        lemma_sizes_total_bound(sizes, k - 1, n);
        assert(sizes[k - 1] <= n);
        assert(sizes_total(sizes, k) == sizes_total(sizes, k - 1) + sizes[k - 1]);
        assert((k - 1) * n + n == k * n) by (nonlinear_arith);
        assert(sizes_total(sizes, k) <= k * n);
    } else {
        assert(k * n == 0) by (nonlinear_arith)
            requires k == 0;
    }
}

/// Searches for several vertex sets, each locally complemented, that make
/// the diagram cheapest. Each step toggles one vertex in one set; the
/// acceptance rule is that of `ComplementFinder`.
pub struct ComplementSetFinder {
    pub graph: SimpleGraph,
    pub sets: Vec<Vec<bool>>,
    pub sizes: Vec<usize>,
    pub fitness: u128,
    pub cut: bool,
    pub alpha: u32,
    pub beta: u32,
    /// The vertex and the set whose toggle awaits a decision, if any.
    pub pending: Option<(usize, usize)>,
    pub best_graph: SimpleGraph,
    pub best_sets: Vec<Vec<bool>>,
    pub best_sizes: Vec<usize>,
    pub best_fitness: u128,
}

impl ComplementSetFinder {
    /// The fitness of the graph `g` with the set sizes `sizes`, under these weights.
    pub open spec fn fitness_of(&self, g: Seq<Seq<bool>>, sizes: Seq<usize>) -> int {
        set_fitness(self.alpha, self.beta, self.cut, g.len(), edge_count(g), sizes)
    }

    /// After a settled step from `prev`: the best fitness is the smaller of
    /// the previous best and the new fitness, and the best graph, sets and
    /// sizes are the new ones when that improved, and the previous best ones otherwise.
    pub open spec fn best_updated(prev: &ComplementSetFinder, next: &ComplementSetFinder) -> bool {
        &&& next.best_fitness == if next.fitness < prev.best_fitness { next.fitness } else { prev.best_fitness }
        &&& next.fitness < prev.best_fitness ==> next.best_graph@ == next.graph@ && sets_view(next.best_sets@)
            == sets_view(next.sets@) && next.best_sizes@ == next.sizes@
        &&& next.fitness >= prev.best_fitness ==> ComplementSetFinder::best_kept(prev, next)
    }

    /// The best state did not change between `prev` and `next`.
    pub open spec fn best_kept(prev: &ComplementSetFinder, next: &ComplementSetFinder) -> bool {
        &&& next.best_fitness == prev.best_fitness
        &&& next.best_graph@ == prev.best_graph@
        &&& sets_view(next.best_sets@) == sets_view(prev.best_sets@)
        &&& next.best_sizes@ == prev.best_sizes@
    }

    /// The graphs are well formed over the same vertices, the sizes are those
    /// of the sets, the best fitness is that of the best state and no more
    /// than the current fitness; with nothing pending the fitness is that of
    /// the current state, and with a toggle pending it is that of the state
    /// before the toggle, which the toggle raised.
    pub open spec fn wf(&self) -> bool {
        &&& self.graph.wf()
        &&& sets_ok(sets_view(self.sets@), self.sizes@, self.graph.n())
        &&& self.best_graph.wf()
        &&& self.best_graph.n() == self.graph.n()
        &&& sets_ok(sets_view(self.best_sets@), self.best_sizes@, self.graph.n())
        &&& self.best_sets@.len() == self.sets@.len()
        &&& self.best_fitness == self.fitness_of(self.best_graph@, self.best_sizes@)
        &&& self.best_fitness <= self.fitness
        &&& match self.pending {
            Some((v, i)) => v < self.graph.n() && i < self.sets@.len() && self.fitness == self.fitness_of(
                toggle_against(self.graph@, self.sets@[i as int]@, v as int),
                self.sizes@.update(i as int, set_size(flip_member(self.sets@[i as int]@, v as int)) as usize),
            ) && self.fitness_of(self.graph@, self.sizes@) > self.fitness,
            None => self.fitness == self.fitness_of(self.graph@, self.sizes@),
        }
    }

    pub proof fn lemma_graph(&self)
        requires
            self.wf(),
        ensures
            self.graph.wf(),
            self.sets@.len() >= 1,
            forall|i: int| 0 <= i < self.sets@.len() ==> (#[trigger] self.sets@[i])@.len() == self.graph.n(),
    {
        assert forall|i: int| 0 <= i < self.sets@.len() implies (#[trigger] self.sets@[i])@.len() == self.graph.n() by {
            assert(sets_view(self.sets@)[i] == self.sets@[i]@);
        }
    }

    /// The fitness of the current state.
    fn compute_fitness(&self) -> (f: u128)
        requires
            self.graph.wf(),
            sets_ok(sets_view(self.sets@), self.sizes@, self.graph.n()),
        ensures
            f == self.fitness_of(self.graph@, self.sizes@),
            f <= 4 * 0xffff_ffff * 0xffff_ffff_ffff_ffffu128,
    {
        let n = self.graph.num_vertices();
        let e = self.graph.num_edges();
        proof {
            self.graph.lemma_wf();
            assert forall|i: int| 0 <= i < self.sizes@.len() implies #[trigger] self.sizes@[i] <= n by {
                assert(sets_view(self.sets@)[i].len() == n);
                lemma_count_true_bound(sets_view(self.sets@)[i], 0, n as int);
            }
            lemma_sizes_total_bound(self.sizes@, self.sizes@.len() as int, n as int);
        }
        let mut total: u128 = 0;
        let mut nonempty: u128 = 0;
        let mut i: usize = 0;
        while i < self.sizes.len()
            invariant
                i <= self.sizes@.len(),
                self.sizes@.len() * n <= usize::MAX,
                forall|t: int| 0 <= t < self.sizes@.len() ==> #[trigger] self.sizes@[t] <= n,
                total == sizes_total(self.sizes@, i as int),
                nonempty == nonempty_count(self.sizes@, i as int),
            decreases self.sizes@.len() - i,
        {
            proof {
                lemma_sizes_total_bound(self.sizes@, i + 1, n as int);
                assert((i + 1) * n <= self.sizes@.len() * n) by (nonlinear_arith)
                    requires i + 1 <= self.sizes@.len();
            }
            total = total + self.sizes[i] as u128;
            if self.sizes[i] > 0 {
                nonempty = nonempty + 1;
            }
            i = i + 1;
        }
        let a = self.alpha as u128;
        let b = self.beta as u128;
        let nv = n as u128;
        let ne = e as u128;
        if self.cut {
            assert(a * nv <= 0xffff_ffff * 0xffff_ffff_ffff_ffff) by (nonlinear_arith)
                requires a <= 0xffff_ffff, nv <= 0xffff_ffff_ffff_ffff;
            assert(b * ne <= 0xffff_ffff * 0xffff_ffff_ffff_ffff) by (nonlinear_arith)
                requires b <= 0xffff_ffff, ne <= 0xffff_ffff_ffff_ffff;
            a * nv + b * ne
        } else {
            let x = nv + nonempty;
            let y = ne + total;
            assert(a * x <= 0xffff_ffff * (2 * 0xffff_ffff_ffff_ffff)) by (nonlinear_arith)
                requires a <= 0xffff_ffff, x <= 2 * 0xffff_ffff_ffff_ffff;
            assert(b * y <= 0xffff_ffff * (2 * 0xffff_ffff_ffff_ffff)) by (nonlinear_arith)
                requires b <= 0xffff_ffff, y <= 2 * 0xffff_ffff_ffff_ffff;
            a * x + b * y
        }
    }

    /// A finder on a copy of `graph` with `count` empty sets.
    pub fn new(graph: &SimpleGraph, cut: bool, alpha: u32, beta: u32, count: usize) -> (f: ComplementSetFinder)
        requires
            graph.wf(),
            count >= 1,
            count * graph.n() <= usize::MAX,
        ensures
            f.wf(),
            f.graph@ == graph@,
            f.sets@.len() == count,
            forall|i: int| 0 <= i < count ==> (#[trigger] f.sets@[i])@ == Seq::new(graph.n(), |v: int| false),
            f.cut == cut && f.alpha == alpha && f.beta == beta,
            f.fitness == set_fitness(alpha, beta, cut, graph.n(), edge_count(graph@), Seq::new(count as nat, |i: int| 0usize)),
            f.pending.is_none(),
            f.best_fitness == f.fitness,
            f.best_graph@ == f.graph@,
            sets_view(f.best_sets@) == sets_view(f.sets@),
            f.best_sizes@ == f.sizes@,
    {
        let n = graph.num_vertices();
        let mut sets: Vec<Vec<bool>> = Vec::new();
        let mut sizes: Vec<usize> = Vec::new();
        let mut best_sets: Vec<Vec<bool>> = Vec::new();
        let mut best_sizes: Vec<usize> = Vec::new();
        let mut i: usize = 0;
        while i < count
            invariant
                i <= count,
                n == graph.n(),
                sets@.len() == i && sizes@.len() == i && best_sets@.len() == i && best_sizes@.len() == i,
                forall|t: int| 0 <= t < i ==> (#[trigger] sets@[t])@ == Seq::new(n as nat, |v: int| false),
                forall|t: int| 0 <= t < i ==> (#[trigger] best_sets@[t])@ == Seq::new(n as nat, |v: int| false),
                sizes@ == Seq::new(i as nat, |t: int| 0usize),
                best_sizes@ == Seq::new(i as nat, |t: int| 0usize),
            decreases count - i,
        {
            sets.push(empty_set(n));
            best_sets.push(empty_set(n));
            sizes.push(0);
            best_sizes.push(0);
            i = i + 1;
        }
        proof {
            lemma_count_zero(Seq::new(n as nat, |v: int| false), n as int);
        }
        let mut f = ComplementSetFinder {
            graph: graph.copy(),
            sets,
            sizes,
            fitness: 0,
            cut,
            alpha,
            beta,
            pending: None,
            best_graph: graph.copy(),
            best_sets,
            best_sizes,
            best_fitness: 0,
        };
        assert(sets_view(f.sets@).len() == count);
        assert(sets_view(f.best_sets@) =~= sets_view(f.sets@));
        assert(f.best_sizes@ =~= f.sizes@);
        let fit = f.compute_fitness();
        f.fitness = fit;
        f.best_fitness = fit;
        f
    }

    /// Toggles `node` in set `idx`: its edges to the other members of that
    /// set flip, and its membership flips.
    fn toggle_node(&mut self, node: usize, idx: usize)
        requires
            old(self).graph.wf(),
            sets_ok(sets_view(old(self).sets@), old(self).sizes@, old(self).graph.n()),
            node < old(self).graph.n(),
            idx < old(self).sets@.len(),
        ensures
            final(self).graph.wf(),
            sets_ok(sets_view(final(self).sets@), final(self).sizes@, final(self).graph.n()),
            final(self).graph@ == toggle_against(old(self).graph@, old(self).sets@[idx as int]@, node as int),
            final(self).sets@.len() == old(self).sets@.len(),
            final(self).sets@[idx as int]@ == flip_member(old(self).sets@[idx as int]@, node as int),
            forall|i: int| 0 <= i < old(self).sets@.len() && i != idx ==> #[trigger] final(self).sets@[i] == old(self).sets@[i],
            final(self).sizes@ == old(self).sizes@.update(idx as int, set_size(final(self).sets@[idx as int]@) as usize),
            final(self).fitness == old(self).fitness,
            final(self).pending == old(self).pending,
            final(self).cut == old(self).cut && final(self).alpha == old(self).alpha && final(self).beta == old(self).beta,
            final(self).best_graph == old(self).best_graph,
            final(self).best_sets == old(self).best_sets,
            final(self).best_sizes == old(self).best_sizes,
            final(self).best_fitness == old(self).best_fitness,
    {
        let n = self.graph.num_vertices();
        assert(sets_view(self.sets@)[idx as int] == self.sets@[idx as int]@);
        toggle_node_against(&mut self.graph, &self.sets[idx], node);
        let mut s = copy_bools(&self.sets[idx]);
        let was = s[node];
        s.set(node, !was);
        let ghost olds = self.sets@[idx as int]@;
        proof {
            lemma_count_true_update(olds, node as int, !was, 0, n as int);
            lemma_count_true_bound(s@, 0, n as int);
        }
        let size = if was {
            self.sizes[idx] - 1
        } else {
            self.sizes[idx] + 1
        };
        self.sets.set(idx, s);
        self.sizes.set(idx, size);
        proof {
            let sv = sets_view(self.sets@);
            assert forall|i: int| 0 <= i < sv.len() implies (#[trigger] sv[i]).len() == n && self.sizes@[i] == set_size(sv[i]) by {
                if i != idx {
                    assert(sv[i] == sets_view(old(self).sets@)[i]);
                }
            }
        }
    }

    /// Keeps the current state as the best one if it is strictly better.
    fn record_best(&mut self)
        requires
            old(self).graph.wf(),
            old(self).best_graph.wf(),
            old(self).best_graph.n() == old(self).graph.n(),
            sets_ok(sets_view(old(self).sets@), old(self).sizes@, old(self).graph.n()),
            sets_ok(sets_view(old(self).best_sets@), old(self).best_sizes@, old(self).graph.n()),
            old(self).best_sets@.len() == old(self).sets@.len(),
            old(self).pending.is_none(),
            old(self).fitness == old(self).fitness_of(old(self).graph@, old(self).sizes@),
            old(self).best_fitness == old(self).fitness_of(old(self).best_graph@, old(self).best_sizes@),
        ensures
            final(self).graph == old(self).graph,
            final(self).sets == old(self).sets,
            final(self).sizes == old(self).sizes,
            final(self).fitness == old(self).fitness,
            final(self).pending == old(self).pending,
            final(self).cut == old(self).cut && final(self).alpha == old(self).alpha && final(self).beta == old(self).beta,
            final(self).best_graph.wf(),
            final(self).best_graph.n() == old(self).graph.n(),
            sets_ok(sets_view(final(self).best_sets@), final(self).best_sizes@, old(self).graph.n()),
            final(self).best_sets@.len() == old(self).sets@.len(),
            final(self).best_fitness == final(self).fitness_of(final(self).best_graph@, final(self).best_sizes@),
            final(self).best_fitness <= old(self).best_fitness,
            final(self).best_fitness <= final(self).fitness,
            ComplementSetFinder::best_updated(&*old(self), &*final(self)),
    {
        if self.fitness < self.best_fitness {
            self.best_graph = self.graph.copy();
            self.best_sets = copy_sets(&self.sets);
            self.best_sizes = copy_ids(&self.sizes);
            self.best_fitness = self.fitness;
        }
    }

    /// Proposes toggling `node` in set `idx`. A move that does not raise the
    /// fitness is kept and `None` is returned; otherwise the move stays
    /// applied, awaiting `resolve`, and the rise is returned.
    pub fn propose(&mut self, node: usize, idx: usize) -> (d: Option<u128>)
        requires
            old(self).wf(),
            old(self).pending.is_none(),
            node < old(self).graph.n(),
            idx < old(self).sets@.len(),
        ensures
            final(self).wf(),
            final(self).graph@ == toggle_against(old(self).graph@, old(self).sets@[idx as int]@, node as int),
            final(self).sets@[idx as int]@ == flip_member(old(self).sets@[idx as int]@, node as int),
            forall|i: int| 0 <= i < old(self).sets@.len() && i != idx ==> #[trigger] final(self).sets@[i] == old(self).sets@[i],
            final(self).fitness_of(final(self).graph@, final(self).sizes@) <= old(self).fitness ==> d.is_none()
                && final(self).pending.is_none(),
            final(self).fitness_of(final(self).graph@, final(self).sizes@) > old(self).fitness ==> d == Some(
                (final(self).fitness_of(final(self).graph@, final(self).sizes@) - old(self).fitness) as u128,
            ) && final(self).pending == Some((node, idx)) && final(self).fitness == old(self).fitness,
            d.is_none() ==> final(self).fitness == final(self).fitness_of(final(self).graph@, final(self).sizes@)
                && ComplementSetFinder::best_updated(&*old(self), &*final(self)),
            d.is_some() ==> ComplementSetFinder::best_kept(&*old(self), &*final(self)),
            final(self).best_fitness <= old(self).best_fitness,
    {
        let ghost before = *self;
        self.toggle_node(node, idx);
        proof {
            before.graph.lemma_wf();
            assert(sets_view(before.sets@)[idx as int] == before.sets@[idx as int]@);
            lemma_toggle_twice(before.graph@, before.sets@[idx as int]@, node as int);
            assert(self.sizes@.update(idx as int, set_size(flip_member(self.sets@[idx as int]@, node as int)) as usize)
                =~= before.sizes@);
        }
        let new_fitness = self.compute_fitness();
        if new_fitness <= self.fitness {
            self.fitness = new_fitness;
            self.record_best();
            None
        } else {
            self.pending = Some((node, idx));
            Some(new_fitness - self.fitness)
        }
    }

    /// Settles the proposal that awaits a decision: keeps it when `accept`
    /// holds, and otherwise undoes it exactly.
    pub fn resolve(&mut self, accept: bool)
        requires
            old(self).wf(),
            old(self).pending.is_some(),
        ensures
            final(self).wf(),
            final(self).pending.is_none(),
            accept ==> final(self).graph@ == old(self).graph@ && final(self).sets@ == old(self).sets@
                && final(self).fitness == old(self).fitness_of(old(self).graph@, old(self).sizes@),
            !accept ==> ({
                let (v, i) = old(self).pending.unwrap();
                &&& final(self).graph@ == toggle_against(old(self).graph@, old(self).sets@[i as int]@, v as int)
                &&& final(self).sets@[i as int]@ == flip_member(old(self).sets@[i as int]@, v as int)
                &&& final(self).fitness == old(self).fitness
            }),
            ComplementSetFinder::best_updated(&*old(self), &*final(self)),
            final(self).best_fitness <= old(self).best_fitness,
    {
        let (node, idx) = match self.pending {
            Some(p) => p,
            None => (0, 0),
        };
        self.pending = None;
        if accept {
            self.fitness = self.compute_fitness();
        } else {
            self.toggle_node(node, idx);
        }
        self.record_best();
    }

    /// Ends the search: the best state seen becomes the current one.
    pub fn restore_best(&mut self)
        requires
            old(self).wf(),
        ensures
            final(self).wf(),
            final(self).pending.is_none(),
            final(self).graph@ == old(self).best_graph@,
            sets_view(final(self).sets@) == sets_view(old(self).best_sets@),
            final(self).fitness == old(self).best_fitness,
            final(self).fitness == final(self).fitness_of(final(self).graph@, final(self).sizes@),
            ComplementSetFinder::best_kept(&*old(self), &*final(self)),
    {
        self.graph = self.best_graph.copy();
        self.sets = copy_sets(&self.best_sets);
        self.sizes = copy_ids(&self.best_sizes);
        self.fitness = self.best_fitness;
        self.pending = None;
    }

    /// The sign choices of the terms that cutting the sets produces: one
    /// entry per term, holding for each set whether its members take the
    /// phase `-1/2` (`true`) or `+1/2`. The terms double with each non-empty
    /// set, the `+1/2` term first; empty sets are skipped. Without cutting
    /// there is a single term.
    pub fn term_signs(&self) -> (r: Vec<Vec<bool>>)
        requires
            self.wf(),
            nonempty_count(self.sizes@, self.sizes@.len() as int) < 64,
        ensures
            r@.len() == if self.cut { pow2(nonempty_count(self.sizes@, self.sizes@.len() as int)) } else { 1 },
            forall|j: int| 0 <= j < r@.len() ==> (#[trigger] r@[j])@.len() == self.sets@.len(),
            self.cut ==> forall|j: int, i: int|
                0 <= j < r@.len() && 0 <= i < self.sets@.len() ==> #[trigger] r@[j]@[i] == (self.sizes@[i] > 0
                    && bit_of(j, (nonempty_count(self.sizes@, self.sizes@.len() as int) - 1 - nonempty_count(self.sizes@, i)) as nat)),
            !self.cut ==> forall|i: int| 0 <= i < self.sets@.len() ==> !(#[trigger] r@[0]@[i]),
    {
        let k = self.sizes.len();
        let mut terms: Vec<Vec<bool>> = Vec::new();
        terms.push(empty_set(k));
        if !self.cut {
            return terms;
        }
        let ghost total = nonempty_count(self.sizes@, k as int);
        let mut i: usize = 0;
        while i < k
            invariant
                k == self.sizes@.len(),
                k == self.sets@.len(),
                i <= k,
                total == nonempty_count(self.sizes@, k as int),
                total < 64,
                nonempty_count(self.sizes@, i as int) <= total,
                terms@.len() == pow2(nonempty_count(self.sizes@, i as int)),
                forall|j: int| 0 <= j < terms@.len() ==> (#[trigger] terms@[j])@.len() == k,
                forall|j: int, t: int|
                    0 <= j < terms@.len() && 0 <= t < k ==> #[trigger] terms@[j]@[t] == (t < i && self.sizes@[t] > 0
                        && bit_of(j, (nonempty_count(self.sizes@, i as int) - 1 - nonempty_count(self.sizes@, t)) as nat)),
            decreases k - i,
        {
            proof {
                lemma_nonempty_mono(self.sizes@, i as int + 1, k as int);
            }
            if self.sizes[i] > 0 {
                let ghost c = nonempty_count(self.sizes@, i as int);
                let mut next: Vec<Vec<bool>> = Vec::new();
                let mut j: usize = 0;
                proof {
                    lemma_pow2_bound(c);
                }
                while j < terms.len()
                    invariant
                        k == self.sizes@.len(),
                        i < k,
                        self.sizes@[i as int] > 0,
                        c == nonempty_count(self.sizes@, i as int),
                        c < 64,
                        terms@.len() == pow2(c),
                        pow2(c) <= 0x8000_0000_0000_0000,
                        j <= terms@.len(),
                        next@.len() == 2 * j,
                        forall|x: int| 0 <= x < terms@.len() ==> (#[trigger] terms@[x])@.len() == k,
                        forall|x: int| 0 <= x < next@.len() ==> (#[trigger] next@[x])@.len() == k,
                        forall|x: int, t: int|
                            0 <= x < next@.len() && 0 <= t < k ==> #[trigger] next@[x]@[t] == if t == i {
                                x % 2 == 1
                            } else {
                                terms@[x / 2]@[t]
                            },
                    decreases terms@.len() - j,
                {
                    let mut a = copy_bools(&terms[j]);
                    let mut b = copy_bools(&terms[j]);
                    a.set(i, false);
                    b.set(i, true);
                    next.push(a);
                    next.push(b);
                    j = j + 1;
                }
                proof {
                    lemma_pow2_step(c);
                    assert forall|x: int, t: int|
                        0 <= x < next@.len() && 0 <= t < k implies #[trigger] next@[x]@[t] == (t < i + 1 && self.sizes@[t] > 0
                            && bit_of(x, (nonempty_count(self.sizes@, i + 1) - 1 - nonempty_count(self.sizes@, t)) as nat)) by {
                        if t == i {
                            lemma_bit_low(x);
                        } else {
                            if t < i && self.sizes@[t] > 0 {
                                lemma_nonempty_mono(self.sizes@, t + 1, i as int);
                                lemma_bit_shift(x, (c - 1 - nonempty_count(self.sizes@, t)) as nat);
                            }
                        }
                    }
                }
                terms = next;
            }
            i = i + 1;
        }
        terms
    }
}

/// `2^k`.
pub open spec fn pow2(k: nat) -> nat
    decreases k,
{
    if k == 0 {
        1
    } else {
        2 * pow2((k - 1) as nat)
    }
}

/// Bit `b` of `j`, the lowest being bit 0.
pub open spec fn bit_of(j: int, b: nat) -> bool
    decreases b,
{
    if b == 0 {
        j % 2 == 1
    } else {
        bit_of(j / 2, (b - 1) as nat)
    }
}

proof fn lemma_pow2_bound(k: nat)
    requires
        k < 64,
    ensures
        pow2(k) <= 0x8000_0000_0000_0000,
{
    lemma_pow2_mono(k, 63);
    lemma_pow2_add(21, 21);
    lemma_pow2_add(21, 42);
    reveal_with_fuel(pow2, 22);
    assert(pow2(21) == 0x20_0000);
    assert(pow2(42) == 0x20_0000 * 0x20_0000);
    assert(pow2(63) == 0x8000_0000_0000_0000);
}

proof fn lemma_pow2_add(a: nat, b: nat)
    ensures
        pow2(a + b) == pow2(a) * pow2(b),
    decreases a,
{
    if a > 0 {
        lemma_pow2_add((a - 1) as nat, b);
        assert(pow2(a + b) == 2 * pow2((a - 1 + b) as nat));
        assert(pow2(a) == 2 * pow2((a - 1) as nat));
        assert(2 * (pow2((a - 1) as nat) * pow2(b)) == (2 * pow2((a - 1) as nat)) * pow2(b)) by (nonlinear_arith);
    } else {
        assert(pow2(0) == 1);
        assert(a + b == b);
    }
}

proof fn lemma_pow2_mono(a: nat, b: nat)
    requires
        a <= b,
    ensures
        pow2(a) <= pow2(b),
    decreases b,
{
    if a < b {
        lemma_pow2_mono(a, (b - 1) as nat);
    }
}

proof fn lemma_pow2_step(k: nat)
    ensures
        pow2(k + 1) == 2 * pow2(k),
{
}

proof fn lemma_bit_low(x: int)
    requires
        x >= 0,
    ensures
        bit_of(x, 0) == (x % 2 == 1),
{
}

proof fn lemma_bit_shift(x: int, b: nat)
    requires
        x >= 0,
    ensures
        bit_of(x, b + 1) == bit_of(x / 2, b),
{
}

proof fn lemma_nonempty_mono(sizes: Seq<usize>, a: int, b: int)
    requires
        0 <= a <= b <= sizes.len(),
    ensures
        nonempty_count(sizes, a) <= nonempty_count(sizes, b),
        a < b && sizes[a] > 0 ==> nonempty_count(sizes, a) < nonempty_count(sizes, b),
    decreases b - a,
{
    if a < b {
        lemma_nonempty_mono(sizes, a, b - 1);
    }
}

proof fn lemma_count_zero(s: Seq<bool>, k: int)
    requires
        0 <= k <= s.len(),
        forall|i: int| 0 <= i < s.len() ==> !#[trigger] s[i],
    ensures
        count_true(s, 0, k) == 0,
    decreases k,
{
    if k > 0 {
        lemma_count_zero(s, k - 1);
    }
}

/// A copy of each set.
fn copy_sets(s: &Vec<Vec<bool>>) -> (c: Vec<Vec<bool>>)
    ensures
        sets_view(c@) == sets_view(s@),
        c@.len() == s@.len(),
{
    let mut c: Vec<Vec<bool>> = Vec::new();
    let mut i: usize = 0;
    while i < s.len()
        invariant
            i <= s@.len(),
            c@.len() == i,
            forall|t: int| 0 <= t < i ==> (#[trigger] c@[t])@ == s@[t]@,
        decreases s@.len() - i,
    {
        c.push(copy_bools(&s[i]));
        i = i + 1;
    }
    assert(sets_view(c@) =~= sets_view(s@));
    c
}

} // verus!
