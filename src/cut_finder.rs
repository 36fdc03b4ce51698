use vstd::prelude::*;
use crate::alpha::cover_view;
use crate::anneal::{
    complemented, empty_set, flip_member, lemma_toggle_complemented, toggle_against, toggle_node_against,
};
use crate::graph::{copy_bools, copy_ids, is_adjacency, SimpleGraph};
use crate::separator::VertexSeparator;

verus! {

/// The separator and complement cover computed with the last fitness.
pub struct CutCache {
    pub sep: VertexSeparator,
    pub cover: Vec<Vec<usize>>,
}

impl CutCache {
    pub open spec fn view(&self) -> (Seq<usize>, Seq<usize>, Seq<usize>, Seq<Seq<usize>>) {
        (self.sep.left@, self.sep.right@, self.sep.cut@, cover_view(self.cover@))
    }

    /// A cache with nothing in it.
    pub fn empty() -> (c: CutCache)
        ensures
            c@ == (Seq::<usize>::empty(), Seq::<usize>::empty(), Seq::<usize>::empty(), Seq::<Seq<usize>>::empty()),
    {
        let c = CutCache {
            sep: VertexSeparator { left: Vec::new(), right: Vec::new(), cut: Vec::new() },
            cover: Vec::new(),
        };
        assert(cover_view(c.cover@) =~= Seq::<Seq<usize>>::empty());
        c
    }

    /// A copy of the cache.
    pub fn copy(&self) -> (c: CutCache)
        ensures
            c@ == self@,
    {
        let mut cover: Vec<Vec<usize>> = Vec::new();
        let mut i: usize = 0;
        while i < self.cover.len()
            invariant
                i <= self.cover@.len(),
                cover@.len() == i,
                forall|t: int| 0 <= t < i ==> (#[trigger] cover@[t])@ == self.cover@[t]@,
            decreases self.cover@.len() - i,
        {
            cover.push(copy_ids(&self.cover[i]));
            i = i + 1;
        }
        let c = CutCache {
            sep: VertexSeparator {
                left: copy_ids(&self.sep.left),
                right: copy_ids(&self.sep.right),
                cut: copy_ids(&self.sep.cut),
            },
            cover,
        };
        assert(cover_view(c.cover@) =~= cover_view(self.cover@));
        c
    }
}

/// `s` with the membership of each of `seeds[..k]` flipped in turn.
pub open spec fn flip_all(s: Seq<bool>, seeds: Seq<usize>, k: int) -> Seq<bool>
    decreases k,
{
    if k <= 0 {
        s
    } else {
        flip_member(flip_all(s, seeds, k - 1), seeds[k - 1] as int)
    }
}

/// Searches for a vertex set whose local complementation gives the graph
/// the best vertex-separator score. The score of a state comes from outside
/// (a separator routine and a root finder), with the separator and cover it
/// was computed from; each step toggles one vertex, is scored, and is kept
/// when the score does not rise or when the caller accepts the rise. The best
/// state is kept aside together with its separator and cover.
pub struct SubgraphCutFinder {
    /// The graph the search started from.
    pub origin: Ghost<Seq<Seq<bool>>>,
    pub graph: SimpleGraph,
    pub current: Vec<bool>,
    pub fitness: i64,
    pub current_cut: CutCache,
    /// Whether the current state has been scored.
    pub scored: bool,
    /// The vertex whose toggle awaits its score, if any.
    pub pending: Option<usize>,
    pub best_graph: SimpleGraph,
    pub best_current: Vec<bool>,
    pub best_fitness: i64,
    pub best_cut: CutCache,
}

impl SubgraphCutFinder {
    /// After a settled step from `prev`: the best score is the smaller of the
    /// previous best and the new score, and the best graph, set, separator
    /// and cover are the new ones when that improved, and the previous best
    /// ones otherwise.
    pub open spec fn best_updated(prev: &SubgraphCutFinder, next: &SubgraphCutFinder) -> bool {
        &&& next.best_fitness == if next.fitness < prev.best_fitness { next.fitness } else { prev.best_fitness }
        &&& next.fitness < prev.best_fitness ==> next.best_graph@ == next.graph@ && next.best_current@
            == next.current@ && next.best_cut@ == next.current_cut@
        &&& next.fitness >= prev.best_fitness ==> SubgraphCutFinder::best_kept(prev, next)
    }

    /// The best state did not change between `prev` and `next`.
    pub open spec fn best_kept(prev: &SubgraphCutFinder, next: &SubgraphCutFinder) -> bool {
        &&& next.best_fitness == prev.best_fitness
        &&& next.best_graph@ == prev.best_graph@
        &&& next.best_current@ == prev.best_current@
        &&& next.best_cut@ == prev.best_cut@
    }

    /// Well formed, and once scored the best score is no more than the current one.
    pub open spec fn wf(&self) -> bool {
        &&& self.shape_ok()
        &&& self.scored ==> self.best_fitness <= self.fitness
    }

    /// The graphs are well formed over the same vertices, the working graph
    /// is the starting graph complemented on the current set and the best
    /// graph on the best set, and a pending toggle follows a score.
    pub open spec fn shape_ok(&self) -> bool {
        &&& self.graph.wf()
        &&& self.current@.len() == self.graph.n()
        &&& self.best_graph.wf()
        &&& self.best_graph.n() == self.graph.n()
        &&& self.best_current@.len() == self.graph.n()
        &&& is_adjacency(self.origin@)
        &&& self.origin@.len() == self.graph.n()
        &&& self.graph@ == complemented(self.origin@, self.current@)
        &&& self.best_graph@ == complemented(self.origin@, self.best_current@)
        &&& (self.pending.is_some() ==> self.scored && self.pending.unwrap() < self.graph.n())
    }

    /// The working graph is the starting graph complemented on the current set.
    pub proof fn lemma_graph(&self)
        requires
            self.wf(),
        ensures
            self.graph.wf(),
            self.current@.len() == self.graph.n(),
            self.graph@ == complemented(self.origin@, self.current@),
            self.best_graph@ == complemented(self.origin@, self.best_current@),
    {
    }

    /// A finder on a copy of `graph` whose set starts as `seeds` toggled in
    /// turn, not yet scored.
    pub fn new(graph: &SimpleGraph, seeds: &Vec<usize>) -> (f: SubgraphCutFinder)
        requires
            graph.wf(),
            forall|i: int| 0 <= i < seeds@.len() ==> #[trigger] seeds@[i] < graph.n(),
        ensures
            f.wf(),
            f.origin@ == graph@,
            f.current@ == flip_all(Seq::new(graph.n(), |i: int| false), seeds@, seeds@.len() as int),
            !f.scored,
            f.pending.is_none(),
    {
        let n = graph.num_vertices();
        proof {
            graph.lemma_wf();
            let c = complemented(graph@, Seq::new(graph.n(), |i: int| false));
            assert forall|a: int| 0 <= a < n implies #[trigger] c[a] =~= graph@[a] by {}
            assert(c =~= graph@);
        }
        let mut f = SubgraphCutFinder {
            origin: Ghost(graph@),
            graph: graph.copy(),
            current: empty_set(n),
            fitness: 0,
            current_cut: CutCache::empty(),
            scored: false,
            pending: None,
            best_graph: graph.copy(),
            best_current: empty_set(n),
            best_fitness: 0,
            best_cut: CutCache::empty(),
        };
        let mut i: usize = 0;
        while i < seeds.len()
            invariant
                f.wf(),
                !f.scored,
                f.pending.is_none(),
                f.origin@ == graph@,
                f.graph.n() == n,
                n == graph.n(),
                i <= seeds@.len(),
                forall|t: int| 0 <= t < seeds@.len() ==> #[trigger] seeds@[t] < n,
                f.current@ == flip_all(Seq::new(n as nat, |v: int| false), seeds@, i as int),
            decreases seeds@.len() - i,
        {
            f.toggle_node(seeds[i]);
            i = i + 1;
        }
        f
    }

    /// Toggles `node` in the set: its edges to the other members flip, and
    /// its membership flips.
    fn toggle_node(&mut self, node: usize)
        requires
            old(self).wf(),
            old(self).pending.is_none(),
            node < old(self).graph.n(),
        ensures
            final(self).wf(),
            final(self).graph@ == toggle_against(old(self).graph@, old(self).current@, node as int),
            final(self).current@ == flip_member(old(self).current@, node as int),
            final(self).graph.n() == old(self).graph.n(),
            final(self).fitness == old(self).fitness,
            final(self).scored == old(self).scored,
            final(self).pending == old(self).pending,
            final(self).origin == old(self).origin,
            final(self).current_cut@ == old(self).current_cut@,
            final(self).best_fitness == old(self).best_fitness,
            final(self).best_graph@ == old(self).best_graph@,
            final(self).best_current@ == old(self).best_current@,
            final(self).best_cut@ == old(self).best_cut@,
    {
        proof {
            lemma_toggle_complemented(self.origin@, self.current@, node as int);
        }
        toggle_node_against(&mut self.graph, &self.current, node);
        let was = self.current[node];
        self.current.set(node, !was);
    }

    /// Keeps the current state, with its separator and cover, as the best one
    /// if it is strictly better.
    fn record_best(&mut self)
        requires
            old(self).shape_ok(),
            old(self).pending.is_none(),
        ensures
            final(self).wf(),
            SubgraphCutFinder::best_updated(&*old(self), &*final(self)),
            final(self).best_fitness <= old(self).best_fitness,
            final(self).best_fitness <= final(self).fitness,
            final(self).graph == old(self).graph,
            final(self).current == old(self).current,
            final(self).fitness == old(self).fitness,
            final(self).scored == old(self).scored,
            final(self).pending == old(self).pending,
            final(self).origin == old(self).origin,
            final(self).current_cut@ == old(self).current_cut@,
            final(self).best_graph.wf(),
            final(self).best_graph.n() == old(self).graph.n(),
            final(self).best_current@.len() == old(self).graph.n(),
            final(self).best_graph@ == complemented(old(self).origin@, final(self).best_current@),
            old(self).fitness < old(self).best_fitness ==> final(self).best_fitness == old(self).fitness
                && final(self).best_graph@ == old(self).graph@ && final(self).best_current@ == old(self).current@
                && final(self).best_cut@ == old(self).current_cut@,
            old(self).fitness >= old(self).best_fitness ==> final(self).best_fitness == old(self).best_fitness
                && final(self).best_graph@ == old(self).best_graph@ && final(self).best_current@ == old(self).best_current@
                && final(self).best_cut@ == old(self).best_cut@,
    {
        if self.fitness < self.best_fitness {
            self.best_graph = self.graph.copy();
            self.best_current = copy_bools(&self.current);
            self.best_fitness = self.fitness;
            self.best_cut = self.current_cut.copy();
        }
    }

    /// Scores the starting state: it becomes the best one seen so far.
    pub fn score(&mut self, fitness: i64, cut: CutCache)
        requires
            old(self).wf(),
            !old(self).scored,
            old(self).pending.is_none(),
        ensures
            final(self).wf(),
            final(self).scored,
            final(self).pending.is_none(),
            final(self).graph@ == old(self).graph@,
            final(self).current@ == old(self).current@,
            final(self).origin == old(self).origin,
            final(self).fitness == fitness,
            final(self).current_cut@ == cut@,
            final(self).best_fitness == fitness,
            final(self).best_graph@ == old(self).graph@,
            final(self).best_current@ == old(self).current@,
            final(self).best_cut@ == cut@,
    {
        self.fitness = fitness;
        self.best_fitness = fitness;
        self.best_graph = self.graph.copy();
        self.best_current = copy_bools(&self.current);
        self.best_cut = cut.copy();
        self.current_cut = cut;
        self.scored = true;
    }

    /// Proposes toggling `node`; the new state awaits its score.
    pub fn propose(&mut self, node: usize)
        requires
            old(self).wf(),
            old(self).scored,
            old(self).pending.is_none(),
            node < old(self).graph.n(),
        ensures
            final(self).wf(),
            final(self).scored,
            final(self).pending == Some(node),
            final(self).graph@ == toggle_against(old(self).graph@, old(self).current@, node as int),
            final(self).current@ == flip_member(old(self).current@, node as int),
            final(self).fitness == old(self).fitness,
            final(self).origin == old(self).origin,
            final(self).current_cut@ == old(self).current_cut@,
            final(self).best_fitness == old(self).best_fitness,
            final(self).best_graph@ == old(self).best_graph@,
            final(self).best_current@ == old(self).best_current@,
            final(self).best_cut@ == old(self).best_cut@,
    {
        self.toggle_node(node);
        self.pending = Some(node);
    }

    /// Settles the proposal with its score `fitness` and the separator and
    /// cover it came from, which become the current ones. The proposal is
    /// kept when the score does not rise or when `accept` holds, and is
    /// otherwise undone exactly.
    pub fn decide(&mut self, fitness: i64, cut: CutCache, accept: bool)
        requires
            old(self).wf(),
            old(self).pending.is_some(),
        ensures
            final(self).wf(),
            final(self).scored,
            final(self).pending.is_none(),
            final(self).origin == old(self).origin,
            final(self).current_cut@ == cut@,
            (fitness <= old(self).fitness || accept) ==> final(self).graph@ == old(self).graph@
                && final(self).current@ == old(self).current@ && final(self).fitness == fitness,
            !(fitness <= old(self).fitness || accept) ==> final(self).graph@ == toggle_against(
                old(self).graph@,
                old(self).current@,
                old(self).pending.unwrap() as int,
            ) && final(self).current@ == flip_member(old(self).current@, old(self).pending.unwrap() as int)
                && final(self).fitness == old(self).fitness,
            SubgraphCutFinder::best_updated(&*old(self), &*final(self)),
            final(self).best_fitness <= old(self).best_fitness,
            final(self).best_fitness <= final(self).fitness,
    {
        let node = match self.pending {
            Some(v) => v,
            None => 0,
        };
        self.pending = None;
        self.current_cut = cut;
        if fitness <= self.fitness || accept {
            self.fitness = fitness;
        } else {
            self.toggle_node(node);
        }
        self.record_best();
    }

    /// Undoes the proposal that awaits a score when no score could be had for
    /// it: the state, its score and its separator and cover stay as they
    /// were before the proposal.
    pub fn abandon(&mut self)
        requires
            old(self).wf(),
            old(self).pending.is_some(),
        ensures
            final(self).wf(),
            final(self).pending.is_none(),
            final(self).scored,
            final(self).origin == old(self).origin,
            final(self).graph@ == toggle_against(old(self).graph@, old(self).current@, old(self).pending.unwrap() as int),
            final(self).current@ == flip_member(old(self).current@, old(self).pending.unwrap() as int),
            final(self).fitness == old(self).fitness,
            final(self).current_cut@ == old(self).current_cut@,
            SubgraphCutFinder::best_kept(&*old(self), &*final(self)),
    {
        let node = match self.pending {
            Some(v) => v,
            None => 0,
        };
        self.pending = None;
        self.toggle_node(node);
    }

    /// Ends the search: the best state seen, with its separator and cover,
    /// becomes the current one.
    pub fn restore_best(&mut self)
        requires
            old(self).wf(),
            old(self).pending.is_none(),
        ensures
            final(self).wf(),
            final(self).pending.is_none(),
            final(self).scored == old(self).scored,
            final(self).origin == old(self).origin,
            final(self).graph@ == old(self).best_graph@,
            final(self).current@ == old(self).best_current@,
            final(self).current_cut@ == old(self).best_cut@,
            final(self).fitness == old(self).best_fitness,
            SubgraphCutFinder::best_kept(&*old(self), &*final(self)),
    {
        self.graph = self.best_graph.copy();
        self.current = copy_bools(&self.best_current);
        self.current_cut = self.best_cut.copy();
        self.fitness = self.best_fitness;
    }
}

} // verus!
