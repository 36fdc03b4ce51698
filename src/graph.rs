use vstd::prelude::*;

verus! {

/// Number of `true` entries of `r` at the positions `lo..hi`.
pub open spec fn count_true(r: Seq<bool>, lo: int, hi: int) -> nat
    decreases hi - lo,
{
    if hi <= lo {
        0
    } else {
        count_true(r, lo, hi - 1) + if r[hi - 1] { 1nat } else { 0nat }
    }
}

/// Number of pairs `(u, v)` with `u < v`, `u < k` and `m[u][v]`.
pub open spec fn upper_edges(m: Seq<Seq<bool>>, k: int) -> nat
    decreases k,
{
    if k <= 0 {
        0
    } else {
        upper_edges(m, k - 1) + count_true(m[k - 1], k, m.len() as int)
    }
}

/// Number of undirected edges of the adjacency matrix `m`.
pub open spec fn edge_count(m: Seq<Seq<bool>>) -> nat {
    upper_edges(m, m.len() as int)
}

/// `m` is the adjacency matrix of a simple undirected graph.
pub open spec fn is_adjacency(m: Seq<Seq<bool>>) -> bool {
    &&& forall|i: int| 0 <= i < m.len() ==> (#[trigger] m[i]).len() == m.len()
    &&& forall|i: int, j: int|
        0 <= i < m.len() && 0 <= j < m.len() ==> #[trigger] m[i][j] == m[j][i]
    &&& forall|i: int| 0 <= i < m.len() ==> !(#[trigger] m[i])[i]
}

/// The adjacency matrix `m` with the edge `{u, v}` flipped.
pub open spec fn toggled(m: Seq<Seq<bool>>, u: int, v: int) -> Seq<Seq<bool>> {
    let m1 = m.update(u, m[u].update(v, !m[u][v]));
    m1.update(v, m1[v].update(u, !m[u][v]))
}

pub proof fn lemma_count_true_update(r: Seq<bool>, j: int, b: bool, lo: int, hi: int)
    requires
        0 <= j < r.len(),
        0 <= lo,
        hi <= r.len(),
    ensures
        lo <= j < hi ==> count_true(r.update(j, b), lo, hi) + (if r[j] { 1int } else { 0 })
            == count_true(r, lo, hi) + (if b { 1int } else { 0 }),
        !(lo <= j < hi) ==> count_true(r.update(j, b), lo, hi) == count_true(r, lo, hi),
    decreases hi - lo,
{
    if hi > lo {
        lemma_count_true_update(r, j, b, lo, hi - 1);
    }
}

pub proof fn lemma_count_true_bound(r: Seq<bool>, lo: int, hi: int)
    requires
        lo <= hi,
    ensures
        count_true(r, lo, hi) <= hi - lo,
    decreases hi - lo,
{
    if hi > lo {
        lemma_count_true_bound(r, lo, hi - 1);
    }
}

proof fn lemma_upper_edges_bound(m: Seq<Seq<bool>>, k: int)
    requires
        0 <= k <= m.len(),
    ensures
        upper_edges(m, k) <= k * m.len(),
    decreases k,
{
    if k > 0 {
        lemma_upper_edges_bound(m, k - 1);
        lemma_count_true_bound(m[k - 1], k, m.len() as int);
        assert((k - 1) * m.len() + m.len() == k * m.len()) by (nonlinear_arith);
    }
}

proof fn lemma_upper_edges_update(m: Seq<Seq<bool>>, u: int, row: Seq<bool>, k: int)
    requires
        0 <= u < m.len(),
        0 <= k <= m.len(),
    ensures
        u < k ==> upper_edges(m.update(u, row), k) + count_true(m[u], u + 1, m.len() as int)
            == upper_edges(m, k) + count_true(row, u + 1, m.len() as int),
        u >= k ==> upper_edges(m.update(u, row), k) == upper_edges(m, k),
    decreases k,
{
    if k > 0 {
        lemma_upper_edges_update(m, u, row, k - 1);
        assert(m.update(u, row)[k - 1] == if k - 1 == u { row } else { m[k - 1] });
    }
}

proof fn lemma_toggle_count(m: Seq<Seq<bool>>, u: int, v: int)
    requires
        is_adjacency(m),
        0 <= u < m.len(),
        0 <= v < m.len(),
        u != v,
    ensures
        is_adjacency(toggled(m, u, v)),
        m[u][v] ==> edge_count(toggled(m, u, v)) + 1 == edge_count(m),
        !m[u][v] ==> edge_count(toggled(m, u, v)) == edge_count(m) + 1,
        edge_count(toggled(m, u, v)) <= m.len() * m.len(),
{
    let n = m.len() as int;
    let x = !m[u][v];
    let m1 = m.update(u, m[u].update(v, x));
    let t = toggled(m, u, v);
    assert(t == m1.update(v, m1[v].update(u, x)));
    assert(m1[v] == m[v]);
    lemma_upper_edges_update(m, u, m[u].update(v, x), n);
    lemma_upper_edges_update(m1, v, m1[v].update(u, x), n);
    lemma_count_true_update(m[u], v, x, u + 1, n);
    lemma_count_true_update(m[v], u, x, v + 1, n);
    lemma_count_true_update(m[u], v, x, v + 1, n);
    lemma_count_true_update(m[v], u, x, u + 1, n);
    assert(m[v][u] == m[u][v]);
    assert forall|i: int, j: int| 0 <= i < n && 0 <= j < n implies #[trigger] t[i][j] == t[j][i] by {
        assert(m[i][j] == m[j][i]);
    }
    assert forall|i: int| 0 <= i < n implies !(#[trigger] t[i])[i] by {
        assert(!m[i][i]);
    }
    assert forall|i: int| 0 <= i < n implies (#[trigger] t[i]).len() == n by {
        assert(m[i].len() == n);
    }
    lemma_upper_edges_bound(t, n);
}

/// A simple undirected graph on the vertices `0..n`, held as an adjacency
/// matrix together with its number of edges.
pub struct SimpleGraph {
    adj: Vec<Vec<bool>>,
    edges: usize,
}

impl SimpleGraph {
    /// Adjacency matrix of the graph.
    pub closed spec fn view(&self) -> Seq<Seq<bool>> {
        Seq::new(self.adj@.len(), |i: int| self.adj@[i]@)
    }

    pub open spec fn n(&self) -> nat {
        self@.len()
    }

    pub open spec fn edge(&self, u: int, v: int) -> bool {
        self@[u][v]
    }

    pub closed spec fn wf(&self) -> bool {
        &&& is_adjacency(self@)
        &&& self.edges == edge_count(self@)
        &&& self.n() * self.n() <= usize::MAX
    }

    pub proof fn lemma_wf(&self)
        requires
            self.wf(),
        ensures
            is_adjacency(self@),
            self.n() * self.n() <= usize::MAX,
    {
    }

    /// The graph on `n` vertices with no edge.
    pub fn new(n: usize) -> (g: SimpleGraph)
        requires
            n * n <= usize::MAX,
        ensures
            g.wf(),
            g.n() == n,
            forall|u: int, v: int| 0 <= u < n && 0 <= v < n ==> !g.edge(u, v),
    {
        let mut adj: Vec<Vec<bool>> = Vec::new();
        let mut i: usize = 0;
        while i < n
            invariant
                i <= n,
                adj@.len() == i,
                forall|k: int| 0 <= k < i ==> adj@[k]@ == Seq::new(n as nat, |j: int| false),
            decreases n - i,
        {
            let mut row: Vec<bool> = Vec::new();
            let mut j: usize = 0;
            while j < n
                invariant
                    j <= n,
                    row@ == Seq::new(j as nat, |c: int| false),
                decreases n - j,
            {
                row.push(false);
                j = j + 1;
            }
            adj.push(row);
            i = i + 1;
        }
        let g = SimpleGraph { adj, edges: 0 };
        proof {
            let m = g@;
            assert forall|k: int| 0 <= k <= n implies upper_edges(m, k) == 0 by {
                lemma_upper_edges_zero(m, k);
            }
        }
        g
    }

    pub fn num_vertices(&self) -> (r: usize)
        requires
            self.wf(),
        ensures
            r == self.n(),
    {
        self.adj.len()
    }

    pub fn num_edges(&self) -> (r: usize)
        requires
            self.wf(),
        ensures
            r == edge_count(self@),
    {
        self.edges
    }

    pub fn has_edge(&self, u: usize, v: usize) -> (r: bool)
        requires
            self.wf(),
            u < self.n(),
            v < self.n(),
        ensures
            r == self.edge(u as int, v as int),
    {
        assert(self@[u as int] == self.adj@[u as int]@);
        self.adj[u][v]
    }

    /// Flips the edge `{u, v}`: removes it if present, adds it otherwise.
    pub fn toggle_edge(&mut self, u: usize, v: usize)
        requires
            old(self).wf(),
            u < old(self).n(),
            v < old(self).n(),
            u != v,
        ensures
            final(self).wf(),
            final(self)@ == toggled(old(self)@, u as int, v as int),
            old(self).edge(u as int, v as int) ==> edge_count(final(self)@) + 1 == edge_count(
                old(self)@,
            ),
            !old(self).edge(u as int, v as int) ==> edge_count(final(self)@) == edge_count(
                old(self)@,
            ) + 1,
    {
        proof {
            lemma_toggle_count(self@, u as int, v as int);
        }
        let ghost m = self@;
        assert(self@[u as int] == self.adj@[u as int]@);
        assert(self@[v as int] == self.adj@[v as int]@);
        let x = !self.adj[u][v];
        let mut ru = copy_bools(&self.adj[u]);
        ru.set(v, x);
        self.adj.set(u, ru);
        let mut rv = copy_bools(&self.adj[v]);
        rv.set(u, x);
        self.adj.set(v, rv);
        assert(self@ =~= toggled(m, u as int, v as int));
        proof {
            lemma_toggle_count(m, u as int, v as int);
            assert(self.n() == m.len());
        }
        if x {
            self.edges = self.edges + 1;
        } else {
            self.edges = self.edges - 1;
        }
    }

    /// A copy of the graph.
    pub fn copy(&self) -> (c: SimpleGraph)
        requires
            self.wf(),
        ensures
            c.wf(),
            c@ == self@,
    {
        let mut adj: Vec<Vec<bool>> = Vec::new();
        let mut i: usize = 0;
        while i < self.adj.len()
            invariant
                i <= self.adj@.len(),
                adj@.len() == i,
                forall|k: int| 0 <= k < i ==> (#[trigger] adj@[k])@ == self.adj@[k]@,
            decreases self.adj@.len() - i,
        {
            adj.push(copy_bools(&self.adj[i]));
            i = i + 1;
        }
        let c = SimpleGraph { adj, edges: self.edges };
        assert(c@ =~= self@);
        c
    }

    /// Adds the edge `{u, v}` if it is absent.
    pub fn add_edge(&mut self, u: usize, v: usize)
        requires
            old(self).wf(),
            u < old(self).n(),
            v < old(self).n(),
            u != v,
        ensures
            final(self).wf(),
            final(self).n() == old(self).n(),
            forall|a: int, b: int|
                0 <= a < old(self).n() && 0 <= b < old(self).n() ==> #[trigger] final(self).edge(a, b)
                    == (old(self).edge(a, b) || (a == u && b == v) || (a == v && b == u)),
    {
        assert(self@[u as int] == self.adj@[u as int]@);
        if !self.adj[u][v] {
            self.toggle_edge(u, v);
        }
    }
}

proof fn lemma_upper_edges_zero(m: Seq<Seq<bool>>, k: int)
    requires
        0 <= k <= m.len(),
        forall|i: int, j: int| 0 <= i < m.len() && 0 <= j < m.len() ==> !#[trigger] m[i][j],
        forall|i: int| 0 <= i < m.len() ==> (#[trigger] m[i]).len() == m.len(),
    ensures
        upper_edges(m, k) == 0,
    decreases k,
{
    if k > 0 {
        lemma_upper_edges_zero(m, k - 1);
        lemma_count_true_zero(m[k - 1], k, m.len() as int);
    }
}

proof fn lemma_count_true_zero(r: Seq<bool>, lo: int, hi: int)
    requires
        0 <= lo,
        hi <= r.len(),
        forall|j: int| 0 <= j < r.len() ==> !#[trigger] r[j],
    ensures
        count_true(r, lo, hi) == 0,
    decreases hi - lo,
{
    if hi > lo {
        lemma_count_true_zero(r, lo, hi - 1);
    }
}

/// A copy of `r`, element by element.
pub fn copy_bools(r: &Vec<bool>) -> (c: Vec<bool>)
    ensures
        c@ == r@,
{
    let mut c: Vec<bool> = Vec::new();
    let mut i: usize = 0;
    while i < r.len()
        invariant
            i <= r.len(),
            c@ == r@.subrange(0, i as int),
        decreases r.len() - i,
    {
        c.push(r[i]);
        i = i + 1;
    }
    assert(c@ =~= r@);
    c
}

/// A copy of `r`, element by element.
pub fn copy_ids(r: &Vec<usize>) -> (c: Vec<usize>)
    ensures
        c@ == r@,
{
    let mut c: Vec<usize> = Vec::new();
    let mut i: usize = 0;
    while i < r.len()
        invariant
            i <= r.len(),
            c@ == r@.subrange(0, i as int),
        decreases r.len() - i,
    {
        c.push(r[i]);
        i = i + 1;
    }
    assert(c@ =~= r@);
    c
}

} // verus!
