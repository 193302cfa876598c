//! The graphs of `petgraph` as this library uses them: what a graph holds is
//! named, and each method that the library calls has a contract over those
//! names. Node and edge indices are handed over as `usize`.

use vstd::prelude::*;
use std::sync::Arc;
use petgraph::graph::{Graph, NodeIndex, EdgeIndex};
use petgraph::Direction::{Incoming, Outgoing};
use petgraph::Directed;
use crate::convert::{Node, literal_node};
use crate::re::{RegExp, RegModel, share};

verus! {

#[verifier::external_type_specification]
#[verifier::external_body]
#[verifier::reject_recursive_types(N)]
#[verifier::reject_recursive_types(E)]
#[verifier::reject_recursive_types(Ty)]
#[verifier::reject_recursive_types(Ix)]
pub struct ExGraph<N, E, Ty, Ix>(Graph<N, E, Ty, Ix>);

#[verifier::external_type_specification]
#[verifier::external_body]
pub struct ExDirected(Directed);

/// The nodes of a control flow graph, by index.
pub uninterp spec fn cfg_nodes(g: Graph<Node, ()>) -> Seq<Node>;

/// The edges of a control flow graph, by index: source and target nodes.
pub uninterp spec fn cfg_edges(g: Graph<Node, ()>) -> Seq<(usize, usize)>;

/// The nodes of a graph of basic blocks, by index.
pub uninterp spec fn block_nodes(g: Graph<i32, ()>) -> Seq<i32>;

/// The edges of a graph of basic blocks, by index: source and target nodes.
pub uninterp spec fn block_edges(g: Graph<i32, ()>) -> Seq<(usize, usize)>;

/// Each block of `bs` as a node that stands for it.
pub open spec fn literal_nodes(bs: Seq<i32>) -> Seq<Node> {
    bs.map_values(|b: i32| Node::Literal(b))
}

/// The nodes of an automaton graph, by index.
pub uninterp spec fn gnfa_nodes(g: Graph<(), Arc<RegExp>>) -> Seq<()>;

/// The arrows of an automaton graph, by index: source, target and the
/// regular expression that the arrow carries.
pub uninterp spec fn gnfa_edges(g: Graph<(), Arc<RegExp>>) -> Seq<(usize, usize, RegModel)>;

/// The number of edges of `es` that leave node `n`.
pub open spec fn out_count(es: Seq<(usize, usize)>, n: usize) -> nat
    decreases es.len(),
{
    if es.len() == 0 {
        0
    } else {
        out_count(es.drop_last(), n) + if es.last().0 == n { 1nat } else { 0nat }
    }
}

/// The number of arrows of `es` that leave node `n`.
pub open spec fn arrow_out_count(es: Seq<(usize, usize, RegModel)>, n: usize) -> nat
    decreases es.len(),
{
    if es.len() == 0 {
        0
    } else {
        arrow_out_count(es.drop_last(), n) + if es.last().0 == n { 1nat } else { 0nat }
    }
}

/// The number of arrows of `es` from `a` to `b`.
pub open spec fn arrow_count(es: Seq<(usize, usize, RegModel)>, a: usize, b: usize) -> nat
    decreases es.len(),
{
    if es.len() == 0 {
        0
    } else {
        arrow_count(es.drop_last(), a, b) + if es.last().0 == a && es.last().1 == b { 1nat } else { 0nat }
    }
}

/// `Graph::node_count` on a control flow graph. With `u32` indices a graph
/// never holds more than `u32::MAX` nodes (`add_node` asserts it).
#[verifier::external_body]
pub(crate) fn cfg_node_count(g: &Graph<Node, ()>) -> (n: usize)
    ensures
        n == cfg_nodes(*g).len(),
        n <= u32::MAX,
{
    g.node_count()
}

/// `Graph::edge_count` on a control flow graph; at most `u32::MAX` edges
/// (`add_edge` asserts it), and every edge joins two nodes of the graph
/// (`add_edge` panics otherwise).
#[verifier::external_body]
pub(crate) fn cfg_edge_count(g: &Graph<Node, ()>) -> (n: usize)
    ensures
        n == cfg_edges(*g).len(),
        n <= u32::MAX,
        forall|i: int| #![trigger cfg_edges(*g)[i]] 0 <= i < n ==> cfg_edges(*g)[i].0 < cfg_nodes(*g).len() && cfg_edges(*g)[i].1 < cfg_nodes(*g).len(),
{
    g.edge_count()
}

/// `Graph::node_weight` on a control flow graph: the node at index `n`.
#[verifier::external_body]
pub(crate) fn cfg_node(g: &Graph<Node, ()>, n: usize) -> (w: Node)
    requires
        n < cfg_nodes(*g).len(),
    ensures
        w == cfg_nodes(*g)[n as int],
{
    *g.node_weight(NodeIndex::new(n)).unwrap()
}

/// `Graph::edge_endpoints` on a control flow graph: the source and target of
/// edge `e`.
#[verifier::external_body]
pub(crate) fn cfg_edge_endpoints(g: &Graph<Node, ()>, e: usize) -> (ends: (usize, usize))
    requires
        e < cfg_edges(*g).len(),
    ensures
        ends == cfg_edges(*g)[e as int],
{
    let (a, b) = g.edge_endpoints(EdgeIndex::new(e)).unwrap();
    (a.index(), b.index())
}

/// `Graph::neighbors(n).count()` on a control flow graph: one neighbour for
/// every edge that leaves `n`.
#[verifier::external_body]
pub(crate) fn cfg_out_degree(g: &Graph<Node, ()>, n: usize) -> (d: usize)
    requires
        n < cfg_nodes(*g).len(),
    ensures
        d == out_count(cfg_edges(*g), n),
{
    g.neighbors(NodeIndex::new(n)).count()
}

/// The weight of edge `i`, shared.
fn shared_weight(weights: &Vec<Arc<RegExp>>, i: usize) -> (w: Arc<RegExp>)
    requires
        i < weights@.len(),
    ensures
        w@ == weights@[i as int]@,
{
    share(&weights[i])
}

/// `Graph::map` from a control flow graph to an automaton graph with the
/// same indices: nodes carry nothing, edge `i` carries `weights[i]`.
#[verifier::external_body]
pub(crate) fn gnfa_from_cfg_graph(g: &Graph<Node, ()>, weights: &Vec<Arc<RegExp>>) -> (res: Graph<(), Arc<RegExp>>)
    requires
        weights@.len() == cfg_edges(*g).len(),
    ensures
        gnfa_nodes(res).len() == cfg_nodes(*g).len(),
        gnfa_edges(res).len() == cfg_edges(*g).len(),
        forall|i: int| 0 <= i < cfg_edges(*g).len() ==> #[trigger] gnfa_edges(res)[i] == (cfg_edges(*g)[i].0, cfg_edges(*g)[i].1, weights@[i]@),
{
    g.map(|_n, _w| (), |e, _w| shared_weight(weights, e.index()))
}

/// `Graph::map` from a graph of basic blocks to a control flow graph with the
/// same indices: node `i` stands for block `i`, and the edges stay as they are.
#[verifier::external_body]
pub(crate) fn literal_cfg_graph(g: &Graph<i32, ()>) -> (res: Graph<Node, ()>)
    ensures
        cfg_nodes(res) == literal_nodes(block_nodes(*g)),
        cfg_edges(res) == block_edges(*g),
{
    g.map(|_n, b| literal_node(b), |_e, _w| ())
}

/// `Graph::node_count` on an automaton graph; at most `u32::MAX` nodes.
#[verifier::external_body]
pub(crate) fn gnfa_node_count(g: &Graph<(), Arc<RegExp>>) -> (n: usize)
    ensures
        n == gnfa_nodes(*g).len(),
        n <= u32::MAX,
{
    g.node_count()
}

/// `Graph::edge_count` on an automaton graph; at most `u32::MAX` arrows
/// (`add_edge` asserts it).
#[verifier::external_body]
pub(crate) fn gnfa_edge_count(g: &Graph<(), Arc<RegExp>>) -> (n: usize)
    ensures
        n == gnfa_edges(*g).len(),
        n <= u32::MAX,
{
    g.edge_count()
}

/// `Graph::add_node`: a new node at the next index; the arrows stay.
#[verifier::external_body]
pub(crate) fn gnfa_add_node(g: &mut Graph<(), Arc<RegExp>>) -> (n: usize)
    requires
        gnfa_nodes(*old(g)).len() < u32::MAX,
    ensures
        n == gnfa_nodes(*old(g)).len(),
        gnfa_nodes(*final(g)) == gnfa_nodes(*old(g)).push(()),
        gnfa_edges(*final(g)) == gnfa_edges(*old(g)),
{
    g.add_node(()).index()
}

/// `Graph::add_edge`: a new arrow at the next index; the nodes stay.
#[verifier::external_body]
pub(crate) fn gnfa_add_edge(g: &mut Graph<(), Arc<RegExp>>, a: usize, b: usize, w: Arc<RegExp>) -> (e: usize)
    requires
        a < gnfa_nodes(*old(g)).len(),
        b < gnfa_nodes(*old(g)).len(),
        gnfa_edges(*old(g)).len() < u32::MAX,
    ensures
        e == gnfa_edges(*old(g)).len(),
        gnfa_nodes(*final(g)) == gnfa_nodes(*old(g)),
        gnfa_edges(*final(g)) == gnfa_edges(*old(g)).push((a, b, w@)),
{
    g.add_edge(NodeIndex::new(a), NodeIndex::new(b), w).index()
}

/// `Graph::neighbors(n).count()` on an automaton graph: one neighbour for
/// every arrow that leaves `n`.
#[verifier::external_body]
pub(crate) fn gnfa_out_degree(g: &Graph<(), Arc<RegExp>>, n: usize) -> (d: usize)
    requires
        n < gnfa_nodes(*g).len(),
    ensures
        d == arrow_out_count(gnfa_edges(*g), n),
{
    g.neighbors(NodeIndex::new(n)).count()
}

/// `Graph::find_edge`: an arrow from `a` to `b`, if there is one (which one,
/// where there are several, is left open here).
#[verifier::external_body]
pub(crate) fn gnfa_find_edge(g: &Graph<(), Arc<RegExp>>, a: usize, b: usize) -> (res: Option<usize>)
    requires
        a < gnfa_nodes(*g).len(),
        b < gnfa_nodes(*g).len(),
    ensures
        match res {
            Some(e) => e < gnfa_edges(*g).len() && gnfa_edges(*g)[e as int].0 == a && gnfa_edges(*g)[e as int].1 == b,
            None => forall|i: int| 0 <= i < gnfa_edges(*g).len() ==> !(#[trigger] gnfa_edges(*g)[i].0 == a && gnfa_edges(*g)[i].1 == b),
        },
{
    g.find_edge(NodeIndex::new(a), NodeIndex::new(b)).map(|e| e.index())
}

/// `Graph::edge_weight`: the expression on arrow `e`.
#[verifier::external_body]
pub(crate) fn gnfa_edge_weight_ref(g: &Graph<(), Arc<RegExp>>, e: usize) -> (w: &Arc<RegExp>)
    requires
        e < gnfa_edges(*g).len(),
    ensures
        w@ == gnfa_edges(*g)[e as int].2,
{
    g.edge_weight(EdgeIndex::new(e)).unwrap()
}

/// The expression on arrow `e`, shared.
pub(crate) fn gnfa_edge_weight(g: &Graph<(), Arc<RegExp>>, e: usize) -> (w: Arc<RegExp>)
    requires
        e < gnfa_edges(*g).len(),
    ensures
        w@ == gnfa_edges(*g)[e as int].2,
{
    share(gnfa_edge_weight_ref(g, e))
}

/// `graph[e] = w`: arrow `e` gets the expression `w`; nothing else changes.
#[verifier::external_body]
pub(crate) fn gnfa_set_edge_weight(g: &mut Graph<(), Arc<RegExp>>, e: usize, w: Arc<RegExp>)
    requires
        e < gnfa_edges(*old(g)).len(),
    ensures
        gnfa_nodes(*final(g)) == gnfa_nodes(*old(g)),
        gnfa_edges(*final(g)) == gnfa_edges(*old(g)).update(e as int, (gnfa_edges(*old(g))[e as int].0, gnfa_edges(*old(g))[e as int].1, w@)),
{
    g[EdgeIndex::new(e)] = w;
}

/// `Graph::edge_endpoints`: the source and target of arrow `e`.
#[verifier::external_body]
pub(crate) fn gnfa_edge_endpoints(g: &Graph<(), Arc<RegExp>>, e: usize) -> (ends: (usize, usize))
    requires
        e < gnfa_edges(*g).len(),
    ensures
        ends.0 == gnfa_edges(*g)[e as int].0,
        ends.1 == gnfa_edges(*g)[e as int].1,
{
    let (a, b) = g.edge_endpoints(EdgeIndex::new(e)).unwrap();
    (a.index(), b.index())
}

/// `Graph::edges_directed(n, Incoming)`, as the indices of the arrows: every
/// arrow into `n`, once each (in an order left open here).
#[verifier::external_body]
pub(crate) fn gnfa_in_edges(g: &Graph<(), Arc<RegExp>>, n: usize) -> (es: Vec<usize>)
    requires
        n < gnfa_nodes(*g).len(),
    ensures
        es@.no_duplicates(),
        forall|i: int| 0 <= i < es@.len() ==> #[trigger] es@[i] < gnfa_edges(*g).len() && gnfa_edges(*g)[es@[i] as int].1 == n,
        forall|e: int| 0 <= e < gnfa_edges(*g).len() && #[trigger] gnfa_edges(*g)[e].1 == n ==> es@.contains(e as usize),
{
    g.edges_directed(NodeIndex::new(n), Incoming).map(|x| petgraph::visit::EdgeRef::id(&x).index()).collect()
}

/// `Graph::edges_directed(n, Outgoing)`, as the indices of the arrows: every
/// arrow out of `n`, once each (in an order left open here).
#[verifier::external_body]
pub(crate) fn gnfa_out_edges(g: &Graph<(), Arc<RegExp>>, n: usize) -> (es: Vec<usize>)
    requires
        n < gnfa_nodes(*g).len(),
    ensures
        es@.no_duplicates(),
        forall|i: int| 0 <= i < es@.len() ==> #[trigger] es@[i] < gnfa_edges(*g).len() && gnfa_edges(*g)[es@[i] as int].0 == n,
        forall|e: int| 0 <= e < gnfa_edges(*g).len() && #[trigger] gnfa_edges(*g)[e].0 == n ==> es@.contains(e as usize),
{
    g.edges_directed(NodeIndex::new(n), Outgoing).map(|x| petgraph::visit::EdgeRef::id(&x).index()).collect()
}

/// Where node `x` lands when node `n` is removed from a graph of `len`
/// nodes: the last node takes the index of the removed one.
pub open spec fn moved(x: usize, n: usize, len: nat) -> usize {
    if x == len - 1 {
        n
    } else {
        x
    }
}

/// Arrow `j` of `es` as it stands once node `n` is removed from `len` nodes.
pub open spec fn arrow_moved(es: Seq<(usize, usize, RegModel)>, n: usize, len: nat, j: int) -> (usize, usize, RegModel) {
    (moved(es[j].0, n, len), moved(es[j].1, n, len), es[j].2)
}

/// Arrow `j` of `es` does not touch node `n`.
pub open spec fn arrow_avoids(es: Seq<(usize, usize, RegModel)>, n: usize, j: int) -> bool {
    es[j].0 != n && es[j].1 != n
}

/// Every arrow `es2` holds after the removal of node `s` from `n` nodes is
/// an arrow of `es` that avoids `s`, moved along.
pub open spec fn removal_from(es: Seq<(usize, usize, RegModel)>, es2: Seq<(usize, usize, RegModel)>, s: usize, n: nat) -> bool {
    forall|i: int| 0 <= i < es2.len() ==> exists|j: int| 0 <= j < es.len()
        && arrow_avoids(es, s, j) && #[trigger] es2[i] == arrow_moved(es, s, n, j)
}

/// Every arrow of `es` that avoids `s` is in `es2`, moved along.
pub open spec fn removal_keeps(es: Seq<(usize, usize, RegModel)>, es2: Seq<(usize, usize, RegModel)>, s: usize, n: nat) -> bool {
    forall|j: int| 0 <= j < es.len() && #[trigger] arrow_avoids(es, s, j) ==> exists|i: int| 0 <= i < es2.len()
        && es2[i] == arrow_moved(es, s, n, j)
}

/// Two arrows of `es2` come from two arrows of `es`.
pub open spec fn removal_distinct(es: Seq<(usize, usize, RegModel)>, es2: Seq<(usize, usize, RegModel)>, s: usize, n: nat) -> bool {
    forall|i1: int, i2: int| 0 <= i1 < i2 < es2.len() ==> exists|j1: int, j2: int| 0 <= j1 < es.len() && 0 <= j2 < es.len() && j1 != j2
        && arrow_avoids(es, s, j1) && arrow_avoids(es, s, j2)
        && #[trigger] es2[i1] == arrow_moved(es, s, n, j1) && #[trigger] es2[i2] == arrow_moved(es, s, n, j2)
}

/// `Graph::remove_node`: node `n` and its arrows go; the last node takes
/// index `n`, and the other arrows stay, once each, with their ends moved
/// along (their indices may change).
#[verifier::external_body]
pub(crate) fn gnfa_remove_node(g: &mut Graph<(), Arc<RegExp>>, n: usize)
    requires
        n < gnfa_nodes(*old(g)).len(),
    ensures
        gnfa_nodes(*final(g)).len() == gnfa_nodes(*old(g)).len() - 1,
        removal_from(gnfa_edges(*old(g)), gnfa_edges(*final(g)), n, gnfa_nodes(*old(g)).len()),
        removal_keeps(gnfa_edges(*old(g)), gnfa_edges(*final(g)), n, gnfa_nodes(*old(g)).len()),
        removal_distinct(gnfa_edges(*old(g)), gnfa_edges(*final(g)), n, gnfa_nodes(*old(g)).len()),
{
    g.remove_node(NodeIndex::new(n));
}

/// `Graph::edges_connecting(a, b).count()`: the number of arrows from `a` to `b`.
#[verifier::external_body]
pub(crate) fn gnfa_count_connecting(g: &Graph<(), Arc<RegExp>>, a: usize, b: usize) -> (c: usize)
    requires
        a < gnfa_nodes(*g).len(),
        b < gnfa_nodes(*g).len(),
    ensures
        c == arrow_count(gnfa_edges(*g), a, b),
{
    g.edges_connecting(NodeIndex::new(a), NodeIndex::new(b)).count()
}

} // verus!
