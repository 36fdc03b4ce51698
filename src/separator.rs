use vstd::prelude::*;
use crate::graph::SimpleGraph;

verus! {

/// What a vertex separator routine needs of a graph: its vertices and adjacency.
pub trait GraphLike {
    spec fn spec_valid(&self) -> bool;

    spec fn spec_vertices(&self) -> Seq<usize>;

    spec fn spec_has_edge(&self, a: usize, b: usize) -> bool;

    fn vertices(&self) -> (r: Vec<usize>)
        requires
            self.spec_valid(),
        ensures
            r@ == self.spec_vertices(),
    ;

    fn has_edge(&self, a: usize, b: usize) -> (r: bool)
        requires
            self.spec_valid(),
            self.spec_vertices().contains(a),
            self.spec_vertices().contains(b),
        ensures
            r == self.spec_has_edge(a, b),
    ;
}

impl GraphLike for SimpleGraph {
    open spec fn spec_valid(&self) -> bool {
        self.wf()
    }

    open spec fn spec_vertices(&self) -> Seq<usize> {
        Seq::new(self.n(), |i: int| i as usize)
    }

    open spec fn spec_has_edge(&self, a: usize, b: usize) -> bool {
        self.edge(a as int, b as int)
    }

    fn vertices(&self) -> (r: Vec<usize>) {
        let n = self.num_vertices();
        let mut r: Vec<usize> = Vec::new();
        let mut i: usize = 0;
        while i < n
            invariant
                i <= n,
                n == self.n(),
                r@ == Seq::new(i as nat, |k: int| k as usize),
            decreases n - i,
        {
            r.push(i);
            i = i + 1;
        }
        r
    }

    fn has_edge(&self, a: usize, b: usize) -> (r: bool) {
        let ghost vs = self.spec_vertices();
        assert(vs.contains(a));
        assert(vs.contains(b));
        SimpleGraph::has_edge(self, a, b)
    }
}

/// `map[i]` and `map[j]` are joined, in one direction or the other.
pub open spec fn joined<G: GraphLike>(g: &G, map: Seq<usize>, i: int, j: int) -> bool {
    g.spec_has_edge(map[i], map[j]) || g.spec_has_edge(map[j], map[i])
}

/// The positions `j < k` in `map` whose vertex is joined to `map[i]`, in increasing order.
pub open spec fn neighbor_positions<G: GraphLike>(g: &G, map: Seq<usize>, i: int, k: int) -> Seq<usize>
    decreases k,
{
    if k <= 0 {
        Seq::empty()
    } else if joined(g, map, i, k - 1) {
        neighbor_positions(g, map, i, k - 1).push((k - 1) as usize)
    } else {
        neighbor_positions(g, map, i, k - 1)
    }
}

/// The adjacency lists of the first `k` vertices of `map`, one after another.
pub open spec fn adjacency_prefix<G: GraphLike>(g: &G, map: Seq<usize>, k: int) -> Seq<usize>
    decreases k,
{
    if k <= 0 {
        Seq::empty()
    } else {
        adjacency_prefix(g, map, k - 1) + neighbor_positions(g, map, k - 1, map.len() as int)
    }
}

/// A graph in compressed adjacency form: vertex `i` stands for `map[i]`, and
/// its neighbours are `adjncy[xadj[i]..xadj[i + 1]]`, as positions in `map`.
pub struct Graph {
    map: Vec<usize>,
    xadj: Vec<usize>,
    adjncy: Vec<usize>,
    nvtxs: usize,
}

impl Graph {
    pub closed spec fn spec_map(&self) -> Seq<usize> {
        self.map@
    }

    pub closed spec fn spec_xadj(&self) -> Seq<usize> {
        self.xadj@
    }

    pub closed spec fn spec_adjncy(&self) -> Seq<usize> {
        self.adjncy@
    }

    pub closed spec fn spec_nvtxs(&self) -> usize {
        self.nvtxs
    }

    /// Builds the compressed adjacency form of `graph`: an edge in either
    /// direction joins two vertices.
    pub fn new<G: GraphLike>(graph: &G) -> (r: Graph)
        requires
            graph.spec_valid(),
        ensures
            r.spec_map() == graph.spec_vertices(),
            r.spec_nvtxs() == graph.spec_vertices().len(),
            r.spec_xadj().len() == graph.spec_vertices().len() + 1,
            forall|i: int|
                0 <= i <= graph.spec_vertices().len() ==> #[trigger] r.spec_xadj()[i]
                    == adjacency_prefix(graph, graph.spec_vertices(), i).len(),
            r.spec_adjncy() == adjacency_prefix(
                graph,
                graph.spec_vertices(),
                graph.spec_vertices().len() as int,
            ),
    {
        let map = graph.vertices();
        let n = map.len();
        let mut xadj: Vec<usize> = Vec::new();
        xadj.push(0);
        let mut adjncy: Vec<usize> = Vec::new();
        let mut a: usize = 0;
        while a < n
            invariant
                graph.spec_valid(),
                map@ == graph.spec_vertices(),
                n == map@.len(),
                a <= n,
                xadj@.len() == a + 1,
                forall|i: int| 0 <= i <= a ==> #[trigger] xadj@[i] == adjacency_prefix(graph, map@, i).len(),
                adjncy@ == adjacency_prefix(graph, map@, a as int),
            decreases n - a,
        {
            let ghost base = adjncy@;
            let mut j: usize = 0;
            while j < n
                invariant
                    graph.spec_valid(),
                    map@ == graph.spec_vertices(),
                    n == map@.len(),
                    a < n,
                    j <= n,
                    adjncy@ == base + neighbor_positions(graph, map@, a as int, j as int),
                decreases n - j,
            {
                assert(map@.contains(map@[a as int]));
                assert(map@.contains(map@[j as int]));
                if graph.has_edge(map[a], map[j]) || graph.has_edge(map[j], map[a]) {
                    adjncy.push(j);
                    assert(adjncy@ =~= base + neighbor_positions(graph, map@, a as int, j + 1));
                }
                j = j + 1;
            }
            xadj.push(adjncy.len());
            a = a + 1;
        }
        Graph { map, xadj, adjncy, nvtxs: n }
    }

    /// The vertex each position stands for.
    pub fn map(&self) -> (r: &Vec<usize>)
        ensures
            r@ == self.spec_map(),
    {
        &self.map
    }

    /// Where each vertex's adjacency list starts in `adjncy`, with the total length last.
    pub fn xadj(&self) -> (r: &Vec<usize>)
        ensures
            r@ == self.spec_xadj(),
    {
        &self.xadj
    }

    /// The adjacency lists, one after another, as positions.
    pub fn adjncy(&self) -> (r: &Vec<usize>)
        ensures
            r@ == self.spec_adjncy(),
    {
        &self.adjncy
    }

    /// The number of vertices.
    pub fn nvtxs(&self) -> (r: usize)
        ensures
            r == self.spec_nvtxs(),
    {
        self.nvtxs
    }

    /// The separator whose parts are given by `part`: 0 puts the vertex on
    /// the left, 1 on the right and 2 in the cut; any other value leaves it out.
    pub fn separator_from_parts(&self, part: &Vec<u8>) -> (s: VertexSeparator)
        requires
            part@.len() == self.spec_map().len(),
        ensures
            s.left@ == parts_with(self.spec_map(), part@, 0, part@.len() as int),
            s.right@ == parts_with(self.spec_map(), part@, 1, part@.len() as int),
            s.cut@ == parts_with(self.spec_map(), part@, 2, part@.len() as int),
    {
        let mut s = VertexSeparator { left: Vec::new(), right: Vec::new(), cut: Vec::new() };
        let mut i: usize = 0;
        while i < part.len()
            invariant
                part@.len() == self.map@.len(),
                i <= part@.len(),
                s.left@ == parts_with(self.map@, part@, 0, i as int),
                s.right@ == parts_with(self.map@, part@, 1, i as int),
                s.cut@ == parts_with(self.map@, part@, 2, i as int),
            decreases part@.len() - i,
        {
            let p = part[i];
            if p == 0 {
                s.left.push(self.map[i]);
            } else if p == 1 {
                s.right.push(self.map[i]);
            } else if p == 2 {
                s.cut.push(self.map[i]);
            }
            i = i + 1;
        }
        s
    }
}

/// The vertices `map[i]`, `i < k`, whose part is `p`, in order.
pub open spec fn parts_with(map: Seq<usize>, part: Seq<u8>, p: u8, k: int) -> Seq<usize>
    decreases k,
{
    if k <= 0 {
        Seq::empty()
    } else if part[k - 1] == p {
        parts_with(map, part, p, k - 1).push(map[k - 1])
    } else {
        parts_with(map, part, p, k - 1)
    }
}

/// A vertex separator: no edge joins `left` to `right`.
#[derive(Clone, Debug)]
pub struct VertexSeparator {
    pub left: Vec<usize>,
    pub right: Vec<usize>,
    pub cut: Vec<usize>,
}

impl VertexSeparator {
    /// Every vertex is below `n` and lies in at most one of the three parts.
    pub open spec fn wf(&self, n: nat) -> bool {
        &&& forall|i: int| 0 <= i < self.left@.len() ==> #[trigger] self.left@[i] < n
        &&& forall|i: int| 0 <= i < self.right@.len() ==> #[trigger] self.right@[i] < n
        &&& forall|i: int| 0 <= i < self.cut@.len() ==> #[trigger] self.cut@[i] < n
        &&& forall|v: usize| !(#[trigger] self.left@.contains(v) && self.cut@.contains(v))
        &&& forall|v: usize| !(#[trigger] self.right@.contains(v) && self.cut@.contains(v))
        &&& forall|v: usize| !(#[trigger] self.left@.contains(v) && self.right@.contains(v))
    }
}

/// Settings handed to the separator routine.
#[derive(Clone, Debug)]
pub struct Options {
    /// The allowed load imbalance (METIS's `UFACTOR`), or the routine's default.
    pub ufactor: Option<usize>,
}

impl Options {
    /// The routine's default settings.
    pub fn default_options() -> (o: Options)
        ensures
            o.ufactor.is_none(),
    {
        Options { ufactor: None }
    }

    /// These settings with the allowed imbalance set to `factor`.
    pub fn max_imbalance(self, factor: usize) -> (o: Options)
        ensures
            o.ufactor == Some(factor),
    {
        let mut o = self;
        o.ufactor = Some(factor);
        o
    }
}

impl Default for Options {
    /// The routine's default settings.
    fn default() -> (o: Options)
        ensures
            o.ufactor.is_none(),
    {
        Options::default_options()
    }
}

/// The status code of a successful separator call.
pub const STATUS_OK: i32 = 1;

/// The status code of a call rejected for its input.
pub const STATUS_ERROR_INPUT: i32 = -2;

/// The status code of a call that ran out of memory.
pub const STATUS_ERROR_MEMORY: i32 = -3;

/// Why the separator routine failed.
#[derive(Clone, Copy, Debug, PartialEq, Eq, Structural)]
pub enum Error {
    Input,
    Memory,
    Other,
}

/// Maps the routine's status code to success or to its error.
pub fn check_status(code: i32) -> (r: Result<(), Error>)
    ensures
        code == STATUS_OK <==> r is Ok,
        code == STATUS_ERROR_INPUT ==> r == Err::<(), Error>(Error::Input),
        code == STATUS_ERROR_MEMORY ==> r == Err::<(), Error>(Error::Memory),
        code != STATUS_OK && code != STATUS_ERROR_INPUT && code != STATUS_ERROR_MEMORY ==> r
            == Err::<(), Error>(Error::Other),
{
    if code == STATUS_OK {
        Ok(())
    } else if code == STATUS_ERROR_MEMORY {
        Err(Error::Memory)
    } else if code == STATUS_ERROR_INPUT {
        Err(Error::Input)
    } else {
        Err(Error::Other)
    }
}

} // verus!
