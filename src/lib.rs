//! Searches for local complementations and pivots that sparsify graph-like
//! ZX diagrams, and the machinery that prices a vertex-separator cut: GF(2)
//! rank decomposition, subgraph-complement covers, minimum vertex covers by
//! maximum flow, and the integers of the alpha score.

pub mod alpha;
pub mod anneal;
pub mod bigraph;
pub mod cut_finder;
pub mod gf2;
pub mod graph;
pub mod separator;
pub mod set_finder;
pub mod sparsify;
