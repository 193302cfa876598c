//! The control flow graph of one function.

use vstd::prelude::*;
use petgraph::graph::Graph;
use crate::convert::Node;

verus! {

/// Control flow graph of a single function: its nodes are the function's
/// blocks (or calls), `entry` and `exit` are node indices.
pub struct CFG {
    pub entry: usize,
    pub exit: usize,
    pub graph: Graph<Node, ()>,
}

} // verus!
