//! Conversion of control flow graphs to regular expressions, by state
//! elimination on a generalized automaton whose arrows carry regular
//! expressions.

use vstd::prelude::*;
use std::sync::Arc;
use petgraph::graph::Graph;
use crate::intern_cfg::CFG;
use crate::re::{RegExp, RegModel, concat_model, alter_model, share};
use crate::graph::{block_nodes, block_edges, literal_nodes, literal_cfg_graph, cfg_nodes, cfg_edges, out_count, cfg_out_degree, arrow_out_count, arrow_count, cfg_node_count, cfg_edge_count, cfg_node, cfg_edge_endpoints, gnfa_from_cfg_graph, gnfa_add_node, gnfa_out_degree, gnfa_count_connecting, gnfa_edge_weight_ref, gnfa_nodes, gnfa_edges, moved, arrow_moved, arrow_avoids, removal_from, removal_keeps, removal_distinct, gnfa_in_edges, gnfa_out_edges, gnfa_edge_endpoints, gnfa_remove_node, gnfa_node_count, gnfa_find_edge, gnfa_edge_weight, gnfa_set_edge_weight, gnfa_add_edge, gnfa_edge_count};

verus! {

/// A node of a control flow graph: a basic block, a call of another
/// function, or a call outside the program.
#[derive(Clone, Copy, Debug)]
pub enum Node {
    Literal(i32),
    Var(i32),
    Extern,
}

/// The regular expression that a node stands for.
pub open spec fn node_re(n: Node) -> RegModel {
    match n {
        Node::Literal(c) => RegModel::Literal(c),
        Node::Var(x) => RegModel::Var(x),
        Node::Extern => RegModel::Epsilon,
    }
}

impl Node {
    /// The expression of the node: its block, its call, or the empty
    /// expression for a call outside the program.
    pub fn to_re(self) -> (res: RegExp)
        ensures
            res@ == node_re(self),
    {
        match self {
            Node::Literal(c) => RegExp::Literal(c),
            Node::Var(x) => RegExp::Var(x),
            Node::Extern => RegExp::Epsilon,
        }
    }
}


/// The arrows of `es` by their two ends (for graphs with at most one arrow
/// from a node to another).
pub open spec fn arrow_map(es: Seq<(usize, usize, RegModel)>) -> Map<(usize, usize), RegModel> {
    Map::new(
        |pq: (usize, usize)| exists|i: int| 0 <= i < es.len() && es[i].0 == pq.0 && es[i].1 == pq.1,
        |pq: (usize, usize)| es[choose|i: int| 0 <= i < es.len() && es[i].0 == pq.0 && es[i].1 == pq.1].2,
    )
}

/// No two arrows of `es` go from the same node to the same node.
pub open spec fn simple_arrows(es: Seq<(usize, usize, RegModel)>) -> bool {
    forall|i: int, j: int| 0 <= i < j < es.len() ==> !(es[i].0 == es[j].0 && es[i].1 == es[j].1)
}

/// Every arrow of `es` joins nodes below `n`.
pub open spec fn arrows_within(es: Seq<(usize, usize, RegModel)>, n: nat) -> bool {
    forall|i: int| 0 <= i < es.len() ==> es[i].0 < n && es[i].1 < n
}

/// The mathematical value of an automaton: its number of states, its start
/// and accepting states, and the expression on the arrow between two states.
pub struct GnfaState {
    pub n: nat,
    pub start: usize,
    pub accept: usize,
    pub arrows: Map<(usize, usize), RegModel>,
}

/// There are arrows `p -> s` and `s -> q`.
pub open spec fn contributes(m: Map<(usize, usize), RegModel>, s: usize, p: usize, q: usize) -> bool {
    m.contains_key((p, s)) && m.contains_key((s, q))
}

/// The expression of the way from `p` through `s` (and its loop) to `q`.
pub open spec fn route(m: Map<(usize, usize), RegModel>, s: usize, p: usize, q: usize) -> RegModel {
    if m.contains_key((s, s)) {
        concat_model(m[(p, s)], concat_model(RegModel::Star(Box::new(m[(s, s)])), m[(s, q)]))
    } else {
        concat_model(m[(p, s)], m[(s, q)])
    }
}

/// The expression on the arrow from `pq.0` to `pq.1` once the way through
/// `s` has joined it.
pub open spec fn merged_value(m: Map<(usize, usize), RegModel>, s: usize, pq: (usize, usize)) -> RegModel {
    if m.contains_key(pq) {
        alter_model(m[pq], route(m, s, pq.0, pq.1))
    } else {
        route(m, s, pq.0, pq.1)
    }
}

/// The arrows once every way through `s` has become an arrow of its own
/// (joined with an arrow already there), and the arrows of `s` are gone.
pub open spec fn bypassed(m: Map<(usize, usize), RegModel>, s: usize) -> Map<(usize, usize), RegModel> {
    Map::new(
        |pq: (usize, usize)| pq.0 != s && pq.1 != s && (m.contains_key(pq) || contributes(m, s, pq.0, pq.1)),
        |pq: (usize, usize)| if contributes(m, s, pq.0, pq.1) { merged_value(m, s, pq) } else { m[pq] },
    )
}

/// No way through `s` is joined with an arrow where one of the two is the
/// empty expression (`RegExp::alter` does not accept one).
pub open spec fn rip_ok(m: Map<(usize, usize), RegModel>, s: usize) -> bool {
    forall|p: usize, q: usize|
        p != s && q != s && #[trigger] contributes(m, s, p, q) && m.contains_key((p, q)) ==> !(m[(p, q)] is Epsilon) && !(route(m, s, p, q) is Epsilon)
}

/// The index that node `a` had before node `s` was removed from `n` nodes.
pub open spec fn unmoved(a: usize, s: usize, n: nat) -> usize {
    if a == s {
        (n - 1) as usize
    } else {
        a
    }
}

/// The automaton after state `s` is ripped out: its ways are bypassed, and
/// the last state takes the index of `s`.
pub open spec fn ripped(st: GnfaState, s: usize) -> GnfaState {
    let m1 = bypassed(st.arrows, s);
    let n1 = (st.n - 1) as nat;
    GnfaState {
        n: n1,
        start: moved(st.start, s, st.n),
        accept: moved(st.accept, s, st.n),
        arrows: Map::new(
            |ab: (usize, usize)| ab.0 < n1 && ab.1 < n1 && m1.contains_key((unmoved(ab.0, s, st.n), unmoved(ab.1, s, st.n))),
            |ab: (usize, usize)| m1[(unmoved(ab.0, s, st.n), unmoved(ab.1, s, st.n))],
        ),
    }
}

/// The state ripped next: the lowest index that is neither the start nor the
/// accepting state.
pub open spec fn next_rip(st: GnfaState) -> usize {
    if st.start != 0 && st.accept != 0 {
        0
    } else if st.start != 1 && st.accept != 1 {
        1
    } else {
        2
    }
}

/// State elimination: states are ripped out until two are left; `None` where
/// a rip joins an empty expression.
pub open spec fn eliminate(st: GnfaState) -> Option<GnfaState>
    decreases st.n,
{
    if st.n <= 2 {
        Some(st)
    } else if !rip_ok(st.arrows, next_rip(st)) {
        None
    } else {
        eliminate(ripped(st, next_rip(st)))
    }
}

/// Where state elimination stops: at two states, or before the first rip
/// that would join an empty expression or would not fit (`rip_fits`).
pub open spec fn elimination_end(st: GnfaState) -> GnfaState
    decreases st.n,
{
    if st.n <= 2 || !rip_ok(st.arrows, next_rip(st)) || !rip_fits(st.arrows, next_rip(st)) {
        st
    } else {
        elimination_end(ripped(st, next_rip(st)))
    }
}

/// The way from `p` through `s` to `q` meets `rip_ok`'s demand.
pub open spec fn way_ok(m: Map<(usize, usize), RegModel>, s: usize, p: usize, q: usize) -> bool {
    p != s && q != s && contributes(m, s, p, q) && m.contains_key((p, q)) ==> !(m[(p, q)] is Epsilon) && !(route(m, s, p, q) is Epsilon)
}

/// State elimination goes through, with every rip fitting, exactly where
/// it stops at two states, and then gives the state where it stops.
proof fn lemma_elimination_end(st: GnfaState)
    ensures
        (eliminate(st) is Some && elimination_fits(st)) <==> elimination_end(st).n <= 2,
        elimination_end(st).n <= 2 ==> eliminate(st).unwrap() == elimination_end(st),
    decreases st.n,
{
    if st.n > 2 && rip_ok(st.arrows, next_rip(st)) {
        lemma_elimination_end(ripped(st, next_rip(st)));
    }
}

/// In a simple list of arrows, the map gives each arrow's expression.
pub proof fn lemma_arrow_map_at(es: Seq<(usize, usize, RegModel)>, i: int)
    requires
        simple_arrows(es),
        0 <= i < es.len(),
    ensures
        arrow_map(es).contains_key((es[i].0, es[i].1)),
        arrow_map(es)[(es[i].0, es[i].1)] == es[i].2,
{
    let pq = (es[i].0, es[i].1);
    assert(exists|j: int| 0 <= j < es.len() && es[j].0 == pq.0 && es[j].1 == pq.1);
    let j = choose|j: int| 0 <= j < es.len() && es[j].0 == pq.0 && es[j].1 == pq.1;
    if j < i {
        assert(!(es[j].0 == es[i].0 && es[j].1 == es[i].1));
    } else if i < j {
        assert(!(es[i].0 == es[j].0 && es[i].1 == es[j].1));
    }
}

/// Adding an arrow between two nodes that had none.
pub proof fn lemma_arrow_map_push(es: Seq<(usize, usize, RegModel)>, x: (usize, usize, RegModel))
    requires
        simple_arrows(es),
        !arrow_map(es).contains_key((x.0, x.1)),
    ensures
        simple_arrows(es.push(x)),
        arrow_map(es.push(x)) == arrow_map(es).insert((x.0, x.1), x.2),
{
    let es2 = es.push(x);
    assert forall|i: int, j: int| 0 <= i < j < es2.len() implies !(es2[i].0 == es2[j].0 && es2[i].1 == es2[j].1) by {
        if j == es.len() {
            if es2[i].0 == es2[j].0 && es2[i].1 == es2[j].1 {
                assert(es[i].0 == x.0 && es[i].1 == x.1);
            }
        } else {
            assert(es2[i] == es[i] && es2[j] == es[j]);
        }
    }
    let m2 = arrow_map(es).insert((x.0, x.1), x.2);
    assert forall|pq: (usize, usize)| #[trigger] arrow_map(es2).contains_key(pq) <==> m2.contains_key(pq) by {
        if arrow_map(es2).contains_key(pq) {
            let i = choose|i: int| 0 <= i < es2.len() && es2[i].0 == pq.0 && es2[i].1 == pq.1;
            if i < es.len() {
                assert(es2[i] == es[i]);
            }
        }
        if m2.contains_key(pq) && pq != (x.0, x.1) {
            let i = choose|i: int| 0 <= i < es.len() && es[i].0 == pq.0 && es[i].1 == pq.1;
            assert(es2[i] == es[i]);
        }
        if pq == (x.0, x.1) {
            assert(es2[es.len() as int] == x);
        }
    }
    assert forall|pq: (usize, usize)| #[trigger] arrow_map(es2).contains_key(pq) implies arrow_map(es2)[pq] == m2[pq] by {
        let i = choose|i: int| 0 <= i < es2.len() && es2[i].0 == pq.0 && es2[i].1 == pq.1;
        lemma_arrow_map_at(es2, i);
        if i < es.len() {
            assert(es2[i] == es[i]);
            lemma_arrow_map_at(es, i);
        }
    }
    assert(arrow_map(es2) =~= m2);
}

/// Changing the expression on arrow `e`.
pub proof fn lemma_arrow_map_update(es: Seq<(usize, usize, RegModel)>, e: int, w: RegModel)
    requires
        simple_arrows(es),
        0 <= e < es.len(),
    ensures
        simple_arrows(es.update(e, (es[e].0, es[e].1, w))),
        arrow_map(es.update(e, (es[e].0, es[e].1, w))) == arrow_map(es).insert((es[e].0, es[e].1), w),
{
    let es2 = es.update(e, (es[e].0, es[e].1, w));
    assert forall|i: int, j: int| 0 <= i < j < es2.len() implies !(es2[i].0 == es2[j].0 && es2[i].1 == es2[j].1) by {
        assert(es2[i].0 == es[i].0 && es2[i].1 == es[i].1);
        assert(es2[j].0 == es[j].0 && es2[j].1 == es[j].1);
    }
    let m2 = arrow_map(es).insert((es[e].0, es[e].1), w);
    assert forall|pq: (usize, usize)| #[trigger] arrow_map(es2).contains_key(pq) <==> m2.contains_key(pq) by {
        if arrow_map(es2).contains_key(pq) {
            let i = choose|i: int| 0 <= i < es2.len() && es2[i].0 == pq.0 && es2[i].1 == pq.1;
            assert(es[i].0 == pq.0 && es[i].1 == pq.1);
        }
        if m2.contains_key(pq) {
            if pq == (es[e].0, es[e].1) {
                assert(es2[e].0 == pq.0 && es2[e].1 == pq.1);
            } else {
                let i = choose|i: int| 0 <= i < es.len() && es[i].0 == pq.0 && es[i].1 == pq.1;
                assert(es2[i].0 == pq.0 && es2[i].1 == pq.1);
            }
        }
    }
    assert forall|pq: (usize, usize)| #[trigger] arrow_map(es2).contains_key(pq) implies arrow_map(es2)[pq] == m2[pq] by {
        let i = choose|i: int| 0 <= i < es2.len() && es2[i].0 == pq.0 && es2[i].1 == pq.1;
        lemma_arrow_map_at(es2, i);
        if i != e {
            assert(es2[i] == es[i]);
            lemma_arrow_map_at(es, i);
        }
    }
    assert(arrow_map(es2) =~= m2);
}

/// A list of distinct numbers below `b` has at most `b` elements.
proof fn lemma_distinct_below(s: Seq<int>, b: int)
    requires
        b >= 0,
        s.no_duplicates(),
        forall|i: int| 0 <= i < s.len() ==> 0 <= #[trigger] s[i] < b,
    ensures
        s.len() <= b,
    decreases b,
{
    if b <= 0 {
        if s.len() > 0 {
            assert(0 <= s[0] < b);
        }
    } else if exists|k: int| 0 <= k < s.len() && s[k] == b - 1 {
        let k = choose|k: int| 0 <= k < s.len() && s[k] == b - 1;
        let t = s.remove(k);
        assert(t.len() == s.len() - 1);
        assert forall|i: int| 0 <= i < t.len() implies 0 <= #[trigger] t[i] < b - 1 by {
            if i < k {
                assert(t[i] == s[i]);
                assert(s[i] != s[k]);
            } else {
                assert(t[i] == s[i + 1]);
                assert(s[i + 1] != s[k]);
            }
        }
        assert(t.no_duplicates()) by {
            assert forall|i: int, j: int| 0 <= i < t.len() && 0 <= j < t.len() && i != j implies t[i] != t[j] by {
                let i2 = if i < k { i } else { i + 1 };
                let j2 = if j < k { j } else { j + 1 };
                assert(t[i] == s[i2] && t[j] == s[j2]);
            }
        }
        lemma_distinct_below(t, b - 1);
    } else {
        assert forall|i: int| 0 <= i < s.len() implies 0 <= #[trigger] s[i] < b - 1 by {
            assert(s[i] != b - 1);
        }
        lemma_distinct_below(s, b - 1);
    }
}

proof fn lemma_code_bound(a: int, c: int, n: int)
    by (nonlinear_arith)
    requires
        0 <= a < n,
        0 <= c < n,
    ensures
        0 <= a * n + c < n * n,
{
}

proof fn lemma_code_injective(a1: int, c1: int, a2: int, c2: int, n: int)
    by (nonlinear_arith)
    requires
        0 <= a1 < n,
        0 <= c1 < n,
        0 <= a2 < n,
        0 <= c2 < n,
        a1 * n + c1 == a2 * n + c2,
    ensures
        a1 == a2,
        c1 == c2,
{
}

/// The pairs of states of the arrows of `m` into `s`.
pub open spec fn pairs_into(m: Map<(usize, usize), RegModel>, s: usize) -> Set<(usize, usize)> {
    m.dom().filter(|pq: (usize, usize)| pq.1 == s)
}

/// The pairs of states of the arrows of `m` out of `s`.
pub open spec fn pairs_out_of(m: Map<(usize, usize), RegModel>, s: usize) -> Set<(usize, usize)> {
    m.dom().filter(|pq: (usize, usize)| pq.0 == s)
}

/// The number of arrows of `m` into `s`.
pub open spec fn arrows_into(m: Map<(usize, usize), RegModel>, s: usize) -> nat {
    pairs_into(m, s).len()
}

/// The number of arrows of `m` out of `s`.
pub open spec fn arrows_out_of(m: Map<(usize, usize), RegModel>, s: usize) -> nat {
    pairs_out_of(m, s).len()
}

/// Ripping `s` out keeps the arrows within what a graph with `u32` indices
/// holds: the arrows there are, and one more for each way into and out of
/// `s`, are at most `u32::MAX`.
pub open spec fn rip_fits(m: Map<(usize, usize), RegModel>, s: usize) -> bool {
    m.dom().len() + arrows_into(m, s) * arrows_out_of(m, s) <= u32::MAX
}

/// Every rip of state elimination, up to where it stops, fits
/// (`rip_fits`).
pub open spec fn elimination_fits(st: GnfaState) -> bool
    decreases st.n,
{
    st.n <= 2 || !rip_ok(st.arrows, next_rip(st)) || (rip_fits(st.arrows, next_rip(st)) && elimination_fits(ripped(st, next_rip(st))))
}

/// In a simple list, the arrows are as many as the pairs of states they
/// join.
pub proof fn lemma_arrow_map_len(es: Seq<(usize, usize, RegModel)>)
    requires
        simple_arrows(es),
    ensures
        arrow_map(es).dom().finite(),
        arrow_map(es).dom().len() == es.len(),
    decreases es.len(),
{
    if es.len() == 0 {
        assert(arrow_map(es).dom() =~= Set::<(usize, usize)>::empty());
    } else {
        let es1 = es.drop_last();
        let x = es.last();
        assert(simple_arrows(es1)) by {
            assert forall|i: int, j: int| 0 <= i < j < es1.len() implies !(es1[i].0 == es1[j].0 && es1[i].1 == es1[j].1) by {
                assert(es1[i] == es[i] && es1[j] == es[j]);
            }
        }
        lemma_arrow_map_len(es1);
        if arrow_map(es1).contains_key((x.0, x.1)) {
            let k = choose|k: int| 0 <= k < es1.len() && es1[k].0 == x.0 && es1[k].1 == x.1;
            assert(es[k] == es1[k]);
            assert(!(es[k].0 == es[es.len() - 1].0 && es[k].1 == es[es.len() - 1].1));
        }
        lemma_arrow_map_push(es1, x);
        assert(es1.push(x) == es);
        assert(arrow_map(es).dom() =~= arrow_map(es1).dom().insert((x.0, x.1)));
    }
}

/// The arrows into `s` of a simple list, listed once each by their indices
/// in `ins`, are as many as `arrows_into` counts.
proof fn lemma_arrows_into_count(es: Seq<(usize, usize, RegModel)>, ins: Seq<usize>, s: usize)
    requires
        simple_arrows(es),
        ins.no_duplicates(),
        forall|a: int| 0 <= a < ins.len() ==> #[trigger] ins[a] < es.len() && es[ins[a] as int].1 == s,
        forall|e: int| 0 <= e < es.len() && #[trigger] es[e].1 == s ==> ins.contains(e as usize),
        es.len() <= u32::MAX,
    ensures
        ins.len() == arrows_into(arrow_map(es), s),
{
    let m = arrow_map(es);
    lemma_arrow_map_len(es);
    let x = ins.to_set();
    ins.unique_seq_to_set();
    let f = |i: usize| (es[i as int].0, es[i as int].1);
    let p = pairs_into(m, s);
    broadcast use vstd::seq_lib::seq_to_set_is_finite;
    assert(vstd::relations::injective_on(f, x)) by {
        assert forall|i: usize, j: usize| x.contains(i) && x.contains(j) && #[trigger] f(i) == #[trigger] f(j) implies i == j by {
            let a = choose|a: int| 0 <= a < ins.len() && ins[a] == i;
            let b = choose|b: int| 0 <= b < ins.len() && ins[b] == j;
            if i < j {
                assert(!(es[i as int].0 == es[j as int].0 && es[i as int].1 == es[j as int].1));
            } else if j < i {
                assert(!(es[j as int].0 == es[i as int].0 && es[j as int].1 == es[i as int].1));
            }
        }
    }
    assert(x.map(f) =~= p) by {
        assert forall|pq: (usize, usize)| x.map(f).contains(pq) implies p.contains(pq) by {
            let i = choose|i: usize| x.contains(i) && f(i) == pq;
            let a = choose|a: int| 0 <= a < ins.len() && ins[a] == i;
            assert(es[i as int].0 == pq.0 && es[i as int].1 == pq.1);
        }
        assert forall|pq: (usize, usize)| p.contains(pq) implies x.map(f).contains(pq) by {
            let e = choose|e: int| 0 <= e < es.len() && es[e].0 == pq.0 && es[e].1 == pq.1;
            assert(es[e].1 == s);
            assert(ins.contains(e as usize));
            assert(x.contains(e as usize));
            assert(f(e as usize) == pq);
        }
    }
    vstd::set_lib::lemma_map_size(x, p, f);
}

/// The arrows out of `s` of a simple list, listed once each by their
/// indices in `outs`, are as many as `arrows_out_of` counts.
proof fn lemma_arrows_out_count(es: Seq<(usize, usize, RegModel)>, outs: Seq<usize>, s: usize)
    requires
        simple_arrows(es),
        outs.no_duplicates(),
        forall|a: int| 0 <= a < outs.len() ==> #[trigger] outs[a] < es.len() && es[outs[a] as int].0 == s,
        forall|e: int| 0 <= e < es.len() && #[trigger] es[e].0 == s ==> outs.contains(e as usize),
        es.len() <= u32::MAX,
    ensures
        outs.len() == arrows_out_of(arrow_map(es), s),
{
    let m = arrow_map(es);
    lemma_arrow_map_len(es);
    let x = outs.to_set();
    outs.unique_seq_to_set();
    let f = |i: usize| (es[i as int].0, es[i as int].1);
    let p = pairs_out_of(m, s);
    broadcast use vstd::seq_lib::seq_to_set_is_finite;
    assert(vstd::relations::injective_on(f, x)) by {
        assert forall|i: usize, j: usize| x.contains(i) && x.contains(j) && #[trigger] f(i) == #[trigger] f(j) implies i == j by {
            let a = choose|a: int| 0 <= a < outs.len() && outs[a] == i;
            let b = choose|b: int| 0 <= b < outs.len() && outs[b] == j;
            if i < j {
                assert(!(es[i as int].0 == es[j as int].0 && es[i as int].1 == es[j as int].1));
            } else if j < i {
                assert(!(es[j as int].0 == es[i as int].0 && es[j as int].1 == es[i as int].1));
            }
        }
    }
    assert(x.map(f) =~= p) by {
        assert forall|pq: (usize, usize)| x.map(f).contains(pq) implies p.contains(pq) by {
            let i = choose|i: usize| x.contains(i) && f(i) == pq;
            let a = choose|a: int| 0 <= a < outs.len() && outs[a] == i;
            assert(es[i as int].0 == pq.0 && es[i as int].1 == pq.1);
        }
        assert forall|pq: (usize, usize)| p.contains(pq) implies x.map(f).contains(pq) by {
            let e = choose|e: int| 0 <= e < es.len() && es[e].0 == pq.0 && es[e].1 == pq.1;
            assert(es[e].0 == s);
            assert(outs.contains(e as usize));
            assert(x.contains(e as usize));
            assert(f(e as usize) == pq);
        }
    }
    vstd::set_lib::lemma_map_size(x, p, f);
}

/// A simple list of arrows between `n` nodes has at most `n * n` arrows.
proof fn lemma_arrow_count(es: Seq<(usize, usize, RegModel)>, n: nat)
    requires
        simple_arrows(es),
        arrows_within(es, n),
    ensures
        es.len() <= n * n,
{
    let codes: Seq<int> = Seq::new(es.len(), |i: int| es[i].0 * n + es[i].1);
    assert forall|i: int| 0 <= i < codes.len() implies 0 <= #[trigger] codes[i] < n * n by {
        lemma_code_bound(es[i].0 as int, es[i].1 as int, n as int);
    }
    assert(codes.no_duplicates()) by {
        assert forall|i: int, j: int| 0 <= i < codes.len() && 0 <= j < codes.len() && i != j implies codes[i] != codes[j] by {
            if codes[i] == codes[j] {
                lemma_code_injective(es[i].0 as int, es[i].1 as int, es[j].0 as int, es[j].1 as int, n as int);
                if i < j {
                    assert(!(es[i].0 == es[j].0 && es[i].1 == es[j].1));
                } else {
                    assert(!(es[j].0 == es[i].0 && es[j].1 == es[i].1));
                }
            }
        }
    }
    lemma_distinct_below(codes, (n * n) as int);
}

/// The arrows that stay after node `s` is removed from `n` nodes, by their
/// new ends.
pub open spec fn arrows_after_removal(m: Map<(usize, usize), RegModel>, s: usize, n: nat) -> Map<(usize, usize), RegModel> {
    Map::new(
        |ab: (usize, usize)| ab.0 < n - 1 && ab.1 < n - 1 && m.contains_key((unmoved(ab.0, s, n), unmoved(ab.1, s, n))),
        |ab: (usize, usize)| m[(unmoved(ab.0, s, n), unmoved(ab.1, s, n))],
    )
}

proof fn lemma_moved_ends(a: usize, s: usize, n: nat)
    requires
        a < n,
        a != s,
        s < n,
    ensures
        moved(a, s, n) < n - 1,
        unmoved(moved(a, s, n), s, n) == a,
{
}

proof fn lemma_unmoved_ends(a: usize, s: usize, n: nat)
    requires
        a < n - 1,
        s < n,
        n <= u32::MAX,
    ensures
        unmoved(a, s, n) < n,
        unmoved(a, s, n) != s,
        moved(unmoved(a, s, n), s, n) == a,
{
}

proof fn lemma_removal_within(es: Seq<(usize, usize, RegModel)>, es2: Seq<(usize, usize, RegModel)>, s: usize, n: nat)
    requires
        arrows_within(es, n),
        s < n,
        removal_from(es, es2, s, n),
    ensures
        arrows_within(es2, (n - 1) as nat),
{
    assert forall|i: int| 0 <= i < es2.len() implies es2[i].0 < n - 1 && es2[i].1 < n - 1 by {
        let j = choose|j: int| 0 <= j < es.len() && arrow_avoids(es, s, j) && es2[i] == arrow_moved(es, s, n, j);
        lemma_moved_ends(es[j].0, s, n);
        lemma_moved_ends(es[j].1, s, n);
    }
}

proof fn lemma_removal_simple(es: Seq<(usize, usize, RegModel)>, es2: Seq<(usize, usize, RegModel)>, s: usize, n: nat)
    requires
        simple_arrows(es),
        arrows_within(es, n),
        s < n,
        removal_distinct(es, es2, s, n),
    ensures
        simple_arrows(es2),
{
    assert forall|i1: int, i2: int| 0 <= i1 < i2 < es2.len() implies !(es2[i1].0 == es2[i2].0 && es2[i1].1 == es2[i2].1) by {
        let (j1, j2) = choose|j1: int, j2: int| 0 <= j1 < es.len() && 0 <= j2 < es.len() && j1 != j2
            && arrow_avoids(es, s, j1) && arrow_avoids(es, s, j2)
            && es2[i1] == arrow_moved(es, s, n, j1) && es2[i2] == arrow_moved(es, s, n, j2);
        lemma_moved_ends(es[j1].0, s, n);
        lemma_moved_ends(es[j1].1, s, n);
        lemma_moved_ends(es[j2].0, s, n);
        lemma_moved_ends(es[j2].1, s, n);
        if j1 < j2 {
            assert(!(es[j1].0 == es[j2].0 && es[j1].1 == es[j2].1));
        } else {
            assert(!(es[j2].0 == es[j1].0 && es[j2].1 == es[j1].1));
        }
    }
}

proof fn lemma_removal_map_from(es: Seq<(usize, usize, RegModel)>, es2: Seq<(usize, usize, RegModel)>, s: usize, n: nat, ab: (usize, usize))
    requires
        simple_arrows(es),
        simple_arrows(es2),
        arrows_within(es, n),
        s < n,
        n <= u32::MAX,
        removal_from(es, es2, s, n),
        arrow_map(es2).contains_key(ab),
    ensures
        arrows_after_removal(arrow_map(es), s, n).contains_key(ab),
        arrow_map(es2)[ab] == arrows_after_removal(arrow_map(es), s, n)[ab],
{
    let i = choose|i: int| 0 <= i < es2.len() && es2[i].0 == ab.0 && es2[i].1 == ab.1;
    let j = choose|j: int| 0 <= j < es.len() && arrow_avoids(es, s, j) && es2[i] == arrow_moved(es, s, n, j);
    lemma_moved_ends(es[j].0, s, n);
    lemma_moved_ends(es[j].1, s, n);
    lemma_arrow_map_at(es2, i);
    lemma_arrow_map_at(es, j);
}

proof fn lemma_removal_map_keeps(es: Seq<(usize, usize, RegModel)>, es2: Seq<(usize, usize, RegModel)>, s: usize, n: nat, ab: (usize, usize))
    requires
        s < n,
        n <= u32::MAX,
        removal_keeps(es, es2, s, n),
        arrows_after_removal(arrow_map(es), s, n).contains_key(ab),
    ensures
        arrow_map(es2).contains_key(ab),
{
    let pq = (unmoved(ab.0, s, n), unmoved(ab.1, s, n));
    lemma_unmoved_ends(ab.0, s, n);
    lemma_unmoved_ends(ab.1, s, n);
    let j = choose|j: int| 0 <= j < es.len() && es[j].0 == pq.0 && es[j].1 == pq.1;
    assert(arrow_avoids(es, s, j));
    let i = choose|i: int| 0 <= i < es2.len() && es2[i] == arrow_moved(es, s, n, j);
    assert(es2[i].0 == ab.0 && es2[i].1 == ab.1);
}

proof fn lemma_removal_map(es: Seq<(usize, usize, RegModel)>, es2: Seq<(usize, usize, RegModel)>, s: usize, n: nat)
    requires
        simple_arrows(es),
        simple_arrows(es2),
        arrows_within(es, n),
        s < n,
        n <= u32::MAX,
        removal_from(es, es2, s, n),
        removal_keeps(es, es2, s, n),
    ensures
        arrow_map(es2) == arrows_after_removal(arrow_map(es), s, n),
{
    let target = arrows_after_removal(arrow_map(es), s, n);
    assert forall|ab: (usize, usize)| #[trigger] arrow_map(es2).contains_key(ab) implies target.contains_key(ab) && arrow_map(es2)[ab] == target[ab] by {
        lemma_removal_map_from(es, es2, s, n, ab);
    }
    assert forall|ab: (usize, usize)| #[trigger] target.contains_key(ab) implies arrow_map(es2).contains_key(ab) by {
        lemma_removal_map_keeps(es, es2, s, n, ab);
    }
    assert(arrow_map(es2) =~= target);
}

/// The ends of the way through arrow `ins[a]` and arrow `outs[b]`.
pub open spec fn way_ends(es: Seq<(usize, usize, RegModel)>, ins: Seq<usize>, outs: Seq<usize>, a: int, b: int) -> (usize, usize) {
    (es[ins[a] as int].0, es[outs[b] as int].1)
}

/// The pair `(a, b)` comes before `(i, j)` in the order of the nested loops.
pub open spec fn visited(i: int, j: int, a: int, b: int) -> bool {
    a < i || (a == i && b < j)
}

/// Where the arrows agree with `bypassed` away from `s`, removing `s`
/// gives the arrows of the ripped automaton.
proof fn lemma_ripped_arrows(st: GnfaState, s: usize, cur: Map<(usize, usize), RegModel>, after: Map<(usize, usize), RegModel>)
    requires
        s < st.n,
        st.n <= u32::MAX,
        forall|pq: (usize, usize)| pq.0 != s && pq.1 != s ==> (#[trigger] cur.contains_key(pq) <==> bypassed(st.arrows, s).contains_key(pq)),
        forall|pq: (usize, usize)| pq.0 != s && pq.1 != s && #[trigger] cur.contains_key(pq) ==> cur[pq] == bypassed(st.arrows, s)[pq],
        after == arrows_after_removal(cur, s, st.n),
    ensures
        after == ripped(st, s).arrows,
{
    let r = ripped(st, s);
    assert forall|ab: (usize, usize)| #[trigger] r.arrows.contains_key(ab) <==> after.contains_key(ab) by {
        if ab.0 < st.n - 1 && ab.1 < st.n - 1 {
            lemma_unmoved_ends(ab.0, s, st.n);
            lemma_unmoved_ends(ab.1, s, st.n);
        }
    }
    assert forall|ab: (usize, usize)| #[trigger] r.arrows.contains_key(ab) implies r.arrows[ab] == after[ab] by {
        lemma_unmoved_ends(ab.0, s, st.n);
        lemma_unmoved_ends(ab.1, s, st.n);
    }
    assert(r.arrows =~= after);
}

/// In a simple list, the number of arrows from `a` to `b` is one where the
/// map has an arrow, none where it has not.
proof fn lemma_arrow_count_simple(es: Seq<(usize, usize, RegModel)>, a: usize, b: usize)
    requires
        simple_arrows(es),
    ensures
        arrow_count(es, a, b) == if arrow_map(es).contains_key((a, b)) { 1nat } else { 0nat },
    decreases es.len(),
{
    if es.len() > 0 {
        let es1 = es.drop_last();
        assert(simple_arrows(es1)) by {
            assert forall|i: int, j: int| 0 <= i < j < es1.len() implies !(es1[i].0 == es1[j].0 && es1[i].1 == es1[j].1) by {
                assert(es1[i] == es[i] && es1[j] == es[j]);
            }
        }
        lemma_arrow_count_simple(es1, a, b);
        let l = es.len() - 1;
        if es[l].0 == a && es[l].1 == b {
            if arrow_map(es1).contains_key((a, b)) {
                let k = choose|k: int| 0 <= k < es1.len() && es1[k].0 == a && es1[k].1 == b;
                assert(es1[k] == es[k]);
            }
            assert(es[l].0 == a && es[l].1 == b);
        } else {
            if arrow_map(es).contains_key((a, b)) {
                let k = choose|k: int| 0 <= k < es.len() && es[k].0 == a && es[k].1 == b;
                assert(k != l);
                assert(es1[k] == es[k]);
            }
            if arrow_map(es1).contains_key((a, b)) {
                let k = choose|k: int| 0 <= k < es1.len() && es1[k].0 == a && es1[k].1 == b;
                assert(es1[k] == es[k]);
            }
        }
    }
}

/// No arrow leaves `v` exactly where the count of arrows leaving it is zero.
proof fn lemma_arrow_out_count_zero(es: Seq<(usize, usize, RegModel)>, v: usize)
    ensures
        arrow_out_count(es, v) == 0 <==> forall|i: int| 0 <= i < es.len() ==> #[trigger] es[i].0 != v,
    decreases es.len(),
{
    if es.len() > 0 {
        let es1 = es.drop_last();
        lemma_arrow_out_count_zero(es1, v);
        if arrow_out_count(es, v) == 0 {
            assert forall|i: int| 0 <= i < es.len() implies #[trigger] es[i].0 != v by {
                if i < es.len() - 1 {
                    assert(es1[i] == es[i]);
                }
            }
        }
        if forall|i: int| 0 <= i < es.len() ==> #[trigger] es[i].0 != v {
            assert forall|i: int| 0 <= i < es1.len() implies #[trigger] es1[i].0 != v by {
                assert(es1[i] == es[i]);
            }
            assert(es[es.len() - 1].0 != v);
        }
    }
}

/// Some pair of arrows visited before `(i, j)` makes the way with ends `pq`.
pub open spec fn reached(es: Seq<(usize, usize, RegModel)>, ins: Seq<usize>, outs: Seq<usize>, i: int, j: int, pq: (usize, usize)) -> bool {
    exists|a: int, b: int| 0 <= a < ins.len() && 0 <= b < outs.len() && visited(i, j, a, b) && #[trigger] way_ends(es, ins, outs, a, b) == pq
}

proof fn lemma_reached_later(es: Seq<(usize, usize, RegModel)>, ins: Seq<usize>, outs: Seq<usize>, i: int, j: int, i2: int, j2: int, pq: (usize, usize))
    requires
        reached(es, ins, outs, i, j, pq),
        i < i2 || (i == i2 && j <= j2) || (i2 == i + 1 && j2 == 0 && j == outs.len()),
    ensures
        reached(es, ins, outs, i2, j2, pq),
{
    let (a, b) = choose|a: int, b: int| 0 <= a < ins.len() && 0 <= b < outs.len() && visited(i, j, a, b) && #[trigger] way_ends(es, ins, outs, a, b) == pq;
    assert(visited(i2, j2, a, b));
}

/// The arrows while the ways through `s` are added: those to the pairs in
/// `done` have been joined, the others are as they were.
pub open spec fn partly_bypassed(m: Map<(usize, usize), RegModel>, s: usize, done: Set<(usize, usize)>) -> Map<(usize, usize), RegModel> {
    Map::new(
        |pq: (usize, usize)| m.contains_key(pq) || done.contains(pq),
        |pq: (usize, usize)| if done.contains(pq) { merged_value(m, s, pq) } else { m[pq] },
    )
}

/// No two edges of `es` join the same nodes in the same direction.
pub open spec fn cfg_simple(es: Seq<(usize, usize)>) -> bool {
    forall|i: int, j: int| 0 <= i < j < es.len() ==> es[i] != es[j]
}

/// The arrows of a control flow graph as an automaton: the edge into a node
/// carries the node's expression.
pub open spec fn cfg_arrows(nodes: Seq<Node>, es: Seq<(usize, usize)>) -> Map<(usize, usize), RegModel> {
    Map::new(
        |pq: (usize, usize)| exists|i: int| 0 <= i < es.len() && es[i] == pq,
        |pq: (usize, usize)| node_re(nodes[pq.1 as int]),
    )
}

/// No edge leaves node `v`.
pub open spec fn is_sink(es: Seq<(usize, usize)>, v: usize) -> bool {
    forall|i: int| 0 <= i < es.len() ==> #[trigger] es[i].0 != v
}

/// No edge leaves `v` exactly where the count of edges leaving it is zero.
pub(crate) proof fn lemma_out_count_zero(es: Seq<(usize, usize)>, v: usize)
    ensures
        out_count(es, v) == 0 <==> is_sink(es, v),
    decreases es.len(),
{
    if es.len() > 0 {
        let es1 = es.drop_last();
        lemma_out_count_zero(es1, v);
        if out_count(es, v) == 0 {
            assert forall|i: int| 0 <= i < es.len() implies #[trigger] es[i].0 != v by {
                if i < es.len() - 1 {
                    assert(es1[i] == es[i]);
                }
            }
        }
        if is_sink(es, v) {
            assert forall|i: int| 0 <= i < es1.len() implies #[trigger] es1[i].0 != v by {
                assert(es1[i] == es[i]);
            }
            assert(es[es.len() - 1].0 != v);
        }
    }
}

/// The nodes that no edge leaves.
pub open spec fn sinks(nodes: Seq<Node>, es: Seq<(usize, usize)>) -> Set<usize> {
    Set::new(|v: usize| v < nodes.len() && is_sink(es, v))
}

/// The graph has more than one node that no edge leaves.
pub open spec fn several_sinks(nodes: Seq<Node>, es: Seq<(usize, usize)>) -> bool {
    exists|a: usize, b: usize| a != b && sinks(nodes, es).contains(a) && sinks(nodes, es).contains(b)
}

/// The nodes among the first `v` that no edge leaves, in the order of the
/// nodes.
pub open spec fn sinks_below(nodes: Seq<Node>, es: Seq<(usize, usize)>, v: nat) -> Seq<usize>
    decreases v,
{
    if v == 0 {
        seq![]
    } else {
        let before = sinks_below(nodes, es, (v - 1) as nat);
        if sinks(nodes, es).contains((v - 1) as usize) {
            before.push((v - 1) as usize)
        } else {
            before
        }
    }
}

/// The nodes that no edge leaves, in the order of the nodes.
pub open spec fn sink_list(nodes: Seq<Node>, es: Seq<(usize, usize)>) -> Seq<usize> {
    sinks_below(nodes, es, nodes.len())
}

/// An empty arrow from each node of `xs`, in order, into `t`.
pub open spec fn exit_arrows(xs: Seq<usize>, t: usize) -> Seq<(usize, usize, RegModel)> {
    Seq::new(xs.len(), |k: int| (xs[k], t, RegModel::Epsilon))
}

/// The arrows of the automaton of a control flow graph, in the order the
/// automaton holds them: those of `cfg_arrow_list`, then, where several
/// nodes have no way out, an empty arrow from each of them into the new
/// accepting state.
pub open spec fn initial_arrow_list(nodes: Seq<Node>, es: Seq<(usize, usize)>, entry: usize) -> Seq<(usize, usize, RegModel)> {
    if several_sinks(nodes, es) {
        cfg_arrow_list(nodes, es, entry) + exit_arrows(sink_list(nodes, es), (nodes.len() + 1) as usize)
    } else {
        cfg_arrow_list(nodes, es, entry)
    }
}

/// The automaton of a control flow graph fits a graph with `u32` indices:
/// the new start state, and where several nodes have no way out the new
/// accepting state, get an index, and so does every arrow.
pub open spec fn exits_fit(nodes: Seq<Node>, es: Seq<(usize, usize)>) -> bool {
    if several_sinks(nodes, es) {
        nodes.len() + 1 < u32::MAX && es.len() + 1 + sink_list(nodes, es).len() <= u32::MAX
    } else {
        nodes.len() < u32::MAX && es.len() < u32::MAX
    }
}

/// The first `v` nodes that no edge leaves come in increasing order, and
/// they are exactly those below `v`.
proof fn lemma_sinks_below(nodes: Seq<Node>, es: Seq<(usize, usize)>, v: nat)
    requires
        v <= nodes.len() < u32::MAX,
    ensures
        forall|k: int| 0 <= k < sinks_below(nodes, es, v).len() ==> #[trigger] sinks_below(nodes, es, v)[k] < v,
        forall|a: int, b: int| 0 <= a < b < sinks_below(nodes, es, v).len() ==> sinks_below(nodes, es, v)[a] < sinks_below(nodes, es, v)[b],
        forall|w: usize| #[trigger] sinks_below(nodes, es, v).contains(w) <==> (w < v && sinks(nodes, es).contains(w)),
    decreases v,
{
    if v > 0 {
        let before = sinks_below(nodes, es, (v - 1) as nat);
        lemma_sinks_below(nodes, es, (v - 1) as nat);
        let cur = sinks_below(nodes, es, v);
        assert forall|a: int, b: int| 0 <= a < b < cur.len() implies cur[a] < cur[b] by {
            if b >= before.len() {
                assert(sinks(nodes, es).contains((v - 1) as usize));
                assert(cur == before.push((v - 1) as usize));
                assert(cur[b] == (v - 1) as usize);
                assert(cur[a] == before[a]);
                assert(before[a] < v - 1);
            } else if sinks(nodes, es).contains((v - 1) as usize) {
                assert(cur[a] == before[a] && cur[b] == before[b]);
            } else {
                assert(cur[a] == before[a] && cur[b] == before[b]);
            }
        }
        assert forall|k: int| 0 <= k < cur.len() implies #[trigger] cur[k] < v by {
            if k < before.len() {
                assert(cur[k] == before[k]);
            }
        }
        assert forall|w: usize| #[trigger] cur.contains(w) <==> (w < v && sinks(nodes, es).contains(w)) by {
            if cur.contains(w) {
                let k = choose|k: int| 0 <= k < cur.len() && cur[k] == w;
                if k < before.len() {
                    assert(before[k] == w);
                    assert(before.contains(w));
                }
            }
            if w < v && sinks(nodes, es).contains(w) {
                if w < v - 1 {
                    assert(before.contains(w));
                    let k = choose|k: int| 0 <= k < before.len() && before[k] == w;
                    assert(cur[k] == w);
                } else {
                    assert(cur[before.len() as int] == w);
                }
            }
        }
    }
}

/// The list of the nodes that no edge leaves holds each of them once, in
/// increasing order; it has two or more exactly where several nodes have no
/// way out.
proof fn lemma_sink_list(nodes: Seq<Node>, es: Seq<(usize, usize)>)
    requires
        nodes.len() < u32::MAX,
    ensures
        forall|k: int| 0 <= k < sink_list(nodes, es).len() ==> #[trigger] sink_list(nodes, es)[k] < nodes.len(),
        forall|a: int, b: int| 0 <= a < b < sink_list(nodes, es).len() ==> sink_list(nodes, es)[a] < sink_list(nodes, es)[b],
        forall|w: usize| #[trigger] sink_list(nodes, es).contains(w) <==> sinks(nodes, es).contains(w),
        several_sinks(nodes, es) <==> sink_list(nodes, es).len() > 1,
        sinks(nodes, es) != Set::<usize>::empty() <==> sink_list(nodes, es).len() > 0,
{
    lemma_sinks_below(nodes, es, nodes.len());
    let xs = sink_list(nodes, es);
    let sk = sinks(nodes, es);
    if several_sinks(nodes, es) {
        let (a, b) = choose|a: usize, b: usize| a != b && sk.contains(a) && sk.contains(b);
        assert(xs.contains(a) && xs.contains(b));
        if xs.len() <= 1 {
            let i = choose|i: int| 0 <= i < xs.len() && xs[i] == a;
            let j = choose|j: int| 0 <= j < xs.len() && xs[j] == b;
        }
    }
    if xs.len() > 1 {
        assert(xs[0] < xs[1]);
        assert(xs.contains(xs[0]) && xs.contains(xs[1]));
        assert(sk.contains(xs[0]) && sk.contains(xs[1]));
    }
    if sk != Set::<usize>::empty() {
        let w = sk.choose();
        if !sk.contains(w) {
            assert(sk =~= Set::<usize>::empty());
        }
        assert(xs.contains(w));
    }
    if xs.len() > 0 {
        assert(xs.contains(xs[0]));
        assert(sk.contains(xs[0]));
    }
}

/// Adding the empty arrows from the first `i` nodes of `xs` to a simple list
/// whose arrows all end below `t` gives a simple list whose map adds those
/// arrows.
proof fn lemma_exit_arrows(es1: Seq<(usize, usize, RegModel)>, xs: Seq<usize>, t: usize, i: nat)
    requires
        simple_arrows(es1),
        forall|k: int| 0 <= k < es1.len() ==> #[trigger] es1[k].1 < t,
        forall|a: int, b: int| 0 <= a < b < xs.len() ==> xs[a] < xs[b],
        i <= xs.len(),
    ensures
        simple_arrows(es1 + exit_arrows(xs.take(i as int), t)),
        arrow_map(es1 + exit_arrows(xs.take(i as int), t)) == Map::new(
            |pq: (usize, usize)| arrow_map(es1).contains_key(pq) || (pq.1 == t && exists|k: int| 0 <= k < i && xs[k] == pq.0),
            |pq: (usize, usize)| if arrow_map(es1).contains_key(pq) { arrow_map(es1)[pq] } else { RegModel::Epsilon },
        ),
    decreases i,
{
    let m1 = arrow_map(es1);
    if i == 0 {
        assert(es1 + exit_arrows(xs.take(0), t) =~= es1);
        let target = Map::new(
            |pq: (usize, usize)| m1.contains_key(pq) || (pq.1 == t && exists|k: int| 0 <= k < 0 && xs[k] == pq.0),
            |pq: (usize, usize)| if m1.contains_key(pq) { m1[pq] } else { RegModel::Epsilon },
        );
        assert(m1 =~= target);
    } else {
        let j = (i - 1) as nat;
        lemma_exit_arrows(es1, xs, t, j);
        let cur = es1 + exit_arrows(xs.take(j as int), t);
        let x = (xs[j as int], t, RegModel::Epsilon);
        if arrow_map(cur).contains_key((x.0, x.1)) {
            if m1.contains_key((x.0, x.1)) {
                let k = choose|k: int| 0 <= k < es1.len() && es1[k].0 == x.0 && es1[k].1 == x.1;
                assert(es1[k].1 < t);
            } else {
                let k = choose|k: int| 0 <= k < j && xs[k] == x.0;
                assert(xs[k] < xs[j as int]);
            }
        }
        lemma_arrow_map_push(cur, x);
        assert(cur.push(x) =~= es1 + exit_arrows(xs.take(i as int), t));
        let target = Map::new(
            |pq: (usize, usize)| m1.contains_key(pq) || (pq.1 == t && exists|k: int| 0 <= k < i && xs[k] == pq.0),
            |pq: (usize, usize)| if m1.contains_key(pq) { m1[pq] } else { RegModel::Epsilon },
        );
        assert forall|pq: (usize, usize)| #[trigger] arrow_map(cur.push(x)).contains_key(pq) <==> target.contains_key(pq) by {
            if pq.1 == t && exists|k: int| 0 <= k < i && xs[k] == pq.0 {
                let k = choose|k: int| 0 <= k < i && xs[k] == pq.0;
                if k < j {
                    assert(exists|k2: int| 0 <= k2 < j && xs[k2] == pq.0);
                }
            }
            if pq == (x.0, x.1) {
                assert(0 <= j < i && xs[j as int] == pq.0);
            }
        }
        assert(arrow_map(cur.push(x)) =~= target);
    }
}


/// Where no two edges join the same nodes in the same direction and the
/// exit is a node, the arrow list of the automaton of a control flow graph
/// is simple, lies between its states, and gives its arrows.
proof fn lemma_initial_arrows(nodes: Seq<Node>, es: Seq<(usize, usize)>, entry: usize, exit: usize)
    requires
        entry < nodes.len(),
        nodes.len() < u32::MAX,
        exit < nodes.len(),
        cfg_simple(es),
        forall|i: int| #![trigger es[i]] 0 <= i < es.len() ==> es[i].0 < nodes.len() && es[i].1 < nodes.len(),
    ensures
        simple_arrows(initial_arrow_list(nodes, es, entry)),
        arrows_within(initial_arrow_list(nodes, es, entry), initial_state(nodes, es, entry, exit).n),
        arrow_map(initial_arrow_list(nodes, es, entry)) == initial_state(nodes, es, entry, exit).arrows,
{
    let n0 = nodes.len();
    lemma_cfg_arrow_list(nodes, es, entry);
    lemma_sink_list(nodes, es);
    let es1 = cfg_arrow_list(nodes, es, entry);
    if several_sinks(nodes, es) {
        let xs = sink_list(nodes, es);
        let t = (n0 + 1) as usize;
        assert forall|k: int| 0 <= k < es1.len() implies #[trigger] es1[k].1 < t by {
            if k < es.len() {
                assert(es[k].1 < n0);
                assert(es1[k].1 == es[k].1);
            } else {
                assert(es1[k].1 == entry);
            }
        }
        lemma_exit_arrows(es1, xs, t, xs.len());
        assert(xs.take(xs.len() as int) =~= xs);
        let all = initial_arrow_list(nodes, es, entry);
        assert(all == es1 + exit_arrows(xs, t));
        assert(arrows_within(all, n0 + 2)) by {
            assert forall|k: int| 0 <= k < all.len() implies all[k].0 < n0 + 2 && all[k].1 < n0 + 2 by {
                if k >= es1.len() {
                    assert(all[k] == (xs[k - es1.len()], t, RegModel::Epsilon));
                } else {
                    assert(all[k] == es1[k]);
                }
            }
        }
        let target = initial_state(nodes, es, entry, exit).arrows;
        let m = arrow_map(all);
        assert forall|pq: (usize, usize)| #[trigger] m.contains_key(pq) <==> target.contains_key(pq) by {
            if pq.1 == t && sinks(nodes, es).contains(pq.0) {
                assert(xs.contains(pq.0));
                let k = choose|k: int| 0 <= k < xs.len() && xs[k] == pq.0;
            }
            if pq.1 == t && exists|k: int| 0 <= k < xs.len() && xs[k] == pq.0 {
                let k = choose|k: int| 0 <= k < xs.len() && xs[k] == pq.0;
                assert(xs.contains(pq.0));
            }
        }
        assert(m =~= target);
    }
}

/// The automaton of a control flow graph: a new start state with an arrow
/// into the entry node; where several nodes have no way out, a new accepting
/// state with empty arrows from each of them, else the exit node accepts.
pub open spec fn initial_state(nodes: Seq<Node>, es: Seq<(usize, usize)>, entry: usize, exit: usize) -> GnfaState {
    let n0 = nodes.len();
    let base = cfg_arrows(nodes, es).insert((n0 as usize, entry), node_re(nodes[entry as int]));
    if several_sinks(nodes, es) {
        GnfaState {
            n: n0 + 2,
            start: n0 as usize,
            accept: (n0 + 1) as usize,
            arrows: Map::new(
                |pq: (usize, usize)| base.contains_key(pq) || (pq.1 == n0 + 1 && sinks(nodes, es).contains(pq.0)),
                |pq: (usize, usize)| if base.contains_key(pq) { base[pq] } else { RegModel::Epsilon },
            ),
        }
    } else {
        GnfaState { n: n0 + 1, start: n0 as usize, accept: exit, arrows: base }
    }
}

/// Whether `r` is the empty expression.
fn is_empty_re(r: &Arc<RegExp>) -> (b: bool)
    ensures
        b == (r@ is Epsilon),
{
    match &**r {
        RegExp::Epsilon => true,
        _ => false,
    }
}

/// The number of nodes of `graph` that have no way out.
fn sink_count(graph: &Graph<Node, ()>) -> (c: usize)
    requires
        cfg_nodes(*graph).len() < u32::MAX,
    ensures
        c == sink_list(cfg_nodes(*graph), cfg_edges(*graph)).len(),
        c <= cfg_nodes(*graph).len(),
{
    let ghost nodes = cfg_nodes(*graph);
    let ghost es = cfg_edges(*graph);
    let n = cfg_node_count(graph);
    let mut c: usize = 0;
    let mut v: usize = 0;
    while v < n
        invariant
            v <= n,
            n == nodes.len(),
            n < u32::MAX,
            nodes == cfg_nodes(*graph),
            es == cfg_edges(*graph),
            c == sinks_below(nodes, es, v as nat).len(),
            c <= v,
        decreases n - v,
    {
        let d = cfg_out_degree(graph, v);
        proof {
            lemma_out_count_zero(es, v);
        }
        if d == 0 {
            assert(sinks(nodes, es).contains(v));
            c = c + 1;
        } else {
            assert(!sinks(nodes, es).contains(v));
        }
        v = v + 1;
    }
    c
}

/// Whether the automaton of `graph` fits a graph with `u32` indices
/// (`exits_fit`).
pub(crate) fn automaton_fits(graph: &Graph<Node, ()>) -> (ok: bool)
    ensures
        ok == exits_fit(cfg_nodes(*graph), cfg_edges(*graph)),
{
    let ghost nodes = cfg_nodes(*graph);
    let ghost es = cfg_edges(*graph);
    let n = cfg_node_count(graph);
    let e = cfg_edge_count(graph);
    if n >= 4294967295usize {
        return false;
    }
    proof {
        lemma_sink_list(nodes, es);
    }
    let c = sink_count(graph);
    if c > 1 {
        (n as u64) + 1 < 4294967295u64 && (e as u64) + 1 + (c as u64) <= 4294967295u64
    } else {
        e < 4294967295usize
    }
}

/// Whether no two edges of `graph` join the same nodes in the same
/// direction.
pub(crate) fn edges_distinct(graph: &Graph<Node, ()>) -> (res: bool)
    ensures
        res == cfg_simple(cfg_edges(*graph)),
        forall|i: int| #![trigger cfg_edges(*graph)[i]] 0 <= i < cfg_edges(*graph).len() ==>
            cfg_edges(*graph)[i].0 < cfg_nodes(*graph).len() && cfg_edges(*graph)[i].1 < cfg_nodes(*graph).len(),
{
    let ghost es = cfg_edges(*graph);
    let m = cfg_edge_count(graph);
    let mut j: usize = 0;
    while j < m
        invariant
            j <= m,
            m == es.len(),
            es == cfg_edges(*graph),
            forall|a: int, b: int| 0 <= a < b < j ==> es[a] != es[b],
            forall|i: int| #![trigger es[i]] 0 <= i < es.len() ==> es[i].0 < cfg_nodes(*graph).len() && es[i].1 < cfg_nodes(*graph).len(),
        decreases m - j,
    {
        let ej = cfg_edge_endpoints(graph, j);
        let mut i: usize = 0;
        while i < j
            invariant
                i <= j,
                j < m,
                m == es.len(),
                es == cfg_edges(*graph),
                ej == es[j as int],
                forall|a: int, b: int| 0 <= a < b < j ==> es[a] != es[b],
                forall|a: int| 0 <= a < i ==> es[a] != es[j as int],
                forall|i: int| #![trigger es[i]] 0 <= i < es.len() ==> es[i].0 < cfg_nodes(*graph).len() && es[i].1 < cfg_nodes(*graph).len(),
            decreases j - i,
        {
            let ei = cfg_edge_endpoints(graph, i);
            if ei.0 == ej.0 && ei.1 == ej.1 {
                assert(es[i as int] == es[j as int]);
                return false;
            }
            i = i + 1;
        }
        j = j + 1;
    }
    true
}

/// Whether some node of `graph` has no way out.
pub(crate) fn has_sink(graph: &Graph<Node, ()>) -> (res: bool)
    ensures
        res == (sinks(cfg_nodes(*graph), cfg_edges(*graph)) != Set::<usize>::empty()),
{
    let ghost nodes = cfg_nodes(*graph);
    let ghost es = cfg_edges(*graph);
    let n = cfg_node_count(graph);
    let mut v: usize = 0;
    while v < n
        invariant
            v <= n,
            n == nodes.len(),
            nodes == cfg_nodes(*graph),
            es == cfg_edges(*graph),
            forall|u: usize| u < v ==> !#[trigger] sinks(nodes, es).contains(u),
        decreases n - v,
    {
        let d = cfg_out_degree(graph, v);
        proof {
            lemma_out_count_zero(es, v);
        }
        if d == 0 {
            assert(sinks(nodes, es).contains(v));
            return true;
        }
        assert(!sinks(nodes, es).contains(v));
        v = v + 1;
    }
    assert(sinks(nodes, es) =~= Set::<usize>::empty()) by {
        assert forall|u: usize| !sinks(nodes, es).contains(u) by {
            if u < n {
                assert(!sinks(nodes, es).contains(u));
            }
        }
    }
    false
}

/// The arrows of the automaton of a control flow graph, in the order the
/// graph holds them: edge `i` of the graph carries the expression of the node
/// it enters; then comes the arrow from the new start state (the last index)
/// into the entry node.
pub open spec fn cfg_arrow_list(nodes: Seq<Node>, es: Seq<(usize, usize)>, entry: usize) -> Seq<(usize, usize, RegModel)> {
    Seq::new(es.len(), |i: int| (es[i].0, es[i].1, node_re(nodes[es[i].1 as int])))
        .push((nodes.len() as usize, entry, node_re(nodes[entry as int])))
}

/// The expression on every arrow into state `q` of the automaton of a
/// control flow graph: that of node `q`, or the empty expression on an arrow
/// into the new accepting state.
pub open spec fn entering_re(nodes: Seq<Node>, q: usize) -> RegModel {
    if q < nodes.len() {
        node_re(nodes[q as int])
    } else {
        RegModel::Epsilon
    }
}

/// Where every arrow carries the expression of the state it enters, two
/// arrows between the same states carry the same expression, and the map
/// gives it, whichever arrow it picks.
proof fn lemma_arrow_map_entering(es: Seq<(usize, usize, RegModel)>, nodes: Seq<Node>)
    requires
        forall|i: int| 0 <= i < es.len() ==> #[trigger] es[i].2 == entering_re(nodes, es[i].1),
    ensures
        forall|pq: (usize, usize)| #[trigger] arrow_map(es).contains_key(pq) ==> arrow_map(es)[pq] == entering_re(nodes, pq.1),
{
    assert forall|pq: (usize, usize)| #[trigger] arrow_map(es).contains_key(pq) implies arrow_map(es)[pq] == entering_re(nodes, pq.1) by {
        let i = choose|i: int| 0 <= i < es.len() && es[i].0 == pq.0 && es[i].1 == pq.1;
        assert(es[i].2 == entering_re(nodes, es[i].1));
    }
}

/// The map of the arrow list of the automaton of a control flow graph, with
/// or without two edges between the same nodes: the graph's edges, each with
/// the expression of the node it enters, and the start arrow.
proof fn lemma_cfg_arrow_map(nodes: Seq<Node>, es: Seq<(usize, usize)>, entry: usize)
    requires
        entry < nodes.len(),
        nodes.len() < u32::MAX,
        forall|i: int| #![trigger es[i]] 0 <= i < es.len() ==> es[i].0 < nodes.len() && es[i].1 < nodes.len(),
    ensures
        arrow_map(cfg_arrow_list(nodes, es, entry)) == cfg_arrows(nodes, es).insert(
            (nodes.len() as usize, entry),
            node_re(nodes[entry as int]),
        ),
        forall|i: int| 0 <= i < cfg_arrow_list(nodes, es, entry).len() ==>
            #[trigger] cfg_arrow_list(nodes, es, entry)[i].2 == entering_re(nodes, cfg_arrow_list(nodes, es, entry)[i].1)
            && cfg_arrow_list(nodes, es, entry)[i].1 < nodes.len(),
{
    let n0 = nodes.len();
    let l = cfg_arrow_list(nodes, es, entry);
    let target = cfg_arrows(nodes, es).insert((n0 as usize, entry), node_re(nodes[entry as int]));
    assert forall|i: int| 0 <= i < l.len() implies #[trigger] l[i].2 == entering_re(nodes, l[i].1) && l[i].1 < n0 by {
        if i < es.len() {
            assert(es[i].1 < n0);
        }
    }
    lemma_arrow_map_entering(l, nodes);
    let m = arrow_map(l);
    assert forall|pq: (usize, usize)| #[trigger] m.contains_key(pq) <==> target.contains_key(pq) by {
        if m.contains_key(pq) {
            let i = choose|i: int| 0 <= i < l.len() && l[i].0 == pq.0 && l[i].1 == pq.1;
            if i < es.len() {
                assert(es[i] == pq);
            }
        }
        if target.contains_key(pq) {
            if pq == (n0 as usize, entry) {
                assert(l[es.len() as int].0 == pq.0 && l[es.len() as int].1 == pq.1);
            } else {
                let i = choose|i: int| 0 <= i < es.len() && es[i] == pq;
                assert(l[i].0 == pq.0 && l[i].1 == pq.1);
            }
        }
    }
    assert forall|pq: (usize, usize)| #[trigger] m.contains_key(pq) implies m[pq] == target[pq] by {
        let i = choose|i: int| 0 <= i < l.len() && l[i].0 == pq.0 && l[i].1 == pq.1;
        assert(l[i].1 < n0);
    }
    assert(m =~= target);
}

/// The map of the arrow list of the automaton of a control flow graph, with
/// or without two edges between the same nodes, is the automaton's arrows.
proof fn lemma_initial_arrow_map(nodes: Seq<Node>, es: Seq<(usize, usize)>, entry: usize, exit: usize)
    requires
        entry < nodes.len(),
        exits_fit(nodes, es),
        forall|i: int| #![trigger es[i]] 0 <= i < es.len() ==> es[i].0 < nodes.len() && es[i].1 < nodes.len(),
    ensures
        arrow_map(initial_arrow_list(nodes, es, entry)) == initial_state(nodes, es, entry, exit).arrows,
{
    let n0 = nodes.len();
    lemma_cfg_arrow_map(nodes, es, entry);
    if several_sinks(nodes, es) {
        lemma_sink_list(nodes, es);
        let l = cfg_arrow_list(nodes, es, entry);
        let xs = sink_list(nodes, es);
        let t = (n0 + 1) as usize;
        let all = initial_arrow_list(nodes, es, entry);
        let ex = exit_arrows(xs, t);
        assert(all == l + ex);
        assert forall|i: int| 0 <= i < all.len() implies #[trigger] all[i].2 == entering_re(nodes, all[i].1) by {
            if i < l.len() {
                assert(all[i] == l[i]);
            } else {
                assert(all[i] == ex[i - l.len()]);
            }
        }
        lemma_arrow_map_entering(all, nodes);
        let base = l;
        let m = arrow_map(all);
        let target = initial_state(nodes, es, entry, exit).arrows;
        let bm = arrow_map(l);
        assert forall|pq: (usize, usize)| #[trigger] m.contains_key(pq) <==> target.contains_key(pq) by {
            if m.contains_key(pq) {
                let i = choose|i: int| 0 <= i < all.len() && all[i].0 == pq.0 && all[i].1 == pq.1;
                if i < l.len() {
                    assert(all[i] == l[i]);
                    assert(bm.contains_key(pq));
                } else {
                    let k = i - l.len();
                    assert(all[i] == ex[k]);
                    assert(xs.contains(xs[k]));
                }
            }
            if target.contains_key(pq) {
                if bm.contains_key(pq) {
                    let i = choose|i: int| 0 <= i < l.len() && l[i].0 == pq.0 && l[i].1 == pq.1;
                    assert(all[i] == l[i]);
                } else {
                    assert(pq.1 == t && sinks(nodes, es).contains(pq.0));
                    assert(xs.contains(pq.0));
                    let k = choose|k: int| 0 <= k < xs.len() && xs[k] == pq.0;
                    assert(all[l.len() + k] == ex[k]);
                }
            }
        }
        assert forall|pq: (usize, usize)| #[trigger] m.contains_key(pq) implies m[pq] == target[pq] by {
            if bm.contains_key(pq) {
                let i = choose|i: int| 0 <= i < l.len() && l[i].0 == pq.0 && l[i].1 == pq.1;
                assert(l[i].1 < n0);
            } else {
                let i = choose|i: int| 0 <= i < all.len() && all[i].0 == pq.0 && all[i].1 == pq.1;
                if i < l.len() {
                    assert(all[i] == l[i]);
                    assert(bm.contains_key(pq));
                }
            }
        }
        assert(m =~= target);
    }
}

/// Where no two edges join the same nodes in the same direction, the arrow
/// list of the automaton has one arrow for each pair it joins, between its
/// states, with the map of the graph's edges and the start arrow.
proof fn lemma_cfg_arrow_list(nodes: Seq<Node>, es: Seq<(usize, usize)>, entry: usize)
    requires
        entry < nodes.len(),
        nodes.len() < u32::MAX,
        cfg_simple(es),
        forall|i: int| #![trigger es[i]] 0 <= i < es.len() ==> es[i].0 < nodes.len() && es[i].1 < nodes.len(),
    ensures
        simple_arrows(cfg_arrow_list(nodes, es, entry)),
        arrows_within(cfg_arrow_list(nodes, es, entry), nodes.len() + 1),
        arrow_map(cfg_arrow_list(nodes, es, entry)) == cfg_arrows(nodes, es).insert(
            (nodes.len() as usize, entry),
            node_re(nodes[entry as int]),
        ),
        es.len() + 1 <= (nodes.len() + 1) * (nodes.len() + 1),
{
    let n0 = nodes.len();
    let es0 = Seq::new(es.len(), |i: int| (es[i].0, es[i].1, node_re(nodes[es[i].1 as int])));
    assert(simple_arrows(es0)) by {
        assert forall|i: int, j: int| 0 <= i < j < es0.len() implies !(es0[i].0 == es0[j].0 && es0[i].1 == es0[j].1) by {
            assert(es[i] != es[j]);
        }
    }
    assert forall|pq: (usize, usize)| #[trigger] arrow_map(es0).contains_key(pq) <==> cfg_arrows(nodes, es).contains_key(pq) by {
        if arrow_map(es0).contains_key(pq) {
            let i = choose|i: int| 0 <= i < es0.len() && es0[i].0 == pq.0 && es0[i].1 == pq.1;
            assert(es[i] == pq);
        }
        if cfg_arrows(nodes, es).contains_key(pq) {
            let i = choose|i: int| 0 <= i < es.len() && es[i] == pq;
            assert(es0[i].0 == pq.0 && es0[i].1 == pq.1);
        }
    }
    assert forall|pq: (usize, usize)| #[trigger] arrow_map(es0).contains_key(pq) implies arrow_map(es0)[pq] == cfg_arrows(nodes, es)[pq] by {
        let i = choose|i: int| 0 <= i < es0.len() && es0[i].0 == pq.0 && es0[i].1 == pq.1;
        lemma_arrow_map_at(es0, i);
    }
    assert(arrow_map(es0) =~= cfg_arrows(nodes, es));
    if arrow_map(es0).contains_key((n0 as usize, entry)) {
        let i = choose|i: int| 0 <= i < es0.len() && es0[i].0 == n0 as usize && es0[i].1 == entry;
        assert(es[i].0 < n0);
    }
    let x = (n0 as usize, entry, node_re(nodes[entry as int]));
    lemma_arrow_map_push(es0, x);
    assert(cfg_arrow_list(nodes, es, entry) == es0.push(x));
    assert(arrows_within(es0.push(x), n0 + 1)) by {
        assert forall|i: int| 0 <= i < es0.push(x).len() implies es0.push(x)[i].0 < n0 + 1 && es0.push(x)[i].1 < n0 + 1 by {
            if i < es0.len() {
                assert(es[i].0 < n0 && es[i].1 < n0);
            }
        }
    }
    lemma_arrow_count(es0.push(x), n0 + 1);
}

/// The automaton of a control flow graph before its accepting state is
/// chosen: the graph's edges, each carrying the expression of the node it
/// enters, and a new start state (the last index) with an arrow into the
/// entry node.
fn automaton_of(graph: &Graph<Node, ()>, entry: usize) -> (res: (Graph<(), Arc<RegExp>>, usize))
    requires
        entry < cfg_nodes(*graph).len(),
        cfg_nodes(*graph).len() < u32::MAX,
        cfg_edges(*graph).len() < u32::MAX,
    ensures
        res.1 == cfg_nodes(*graph).len(),
        gnfa_nodes(res.0).len() == cfg_nodes(*graph).len() + 1,
        gnfa_edges(res.0) == cfg_arrow_list(cfg_nodes(*graph), cfg_edges(*graph), entry),
        forall|i: int| #![trigger cfg_edges(*graph)[i]] 0 <= i < cfg_edges(*graph).len() ==>
            cfg_edges(*graph)[i].0 < cfg_nodes(*graph).len() && cfg_edges(*graph)[i].1 < cfg_nodes(*graph).len(),
{
    let ghost nodes = cfg_nodes(*graph);
    let ghost es = cfg_edges(*graph);
    let ghost n0 = nodes.len();
    let ecount = cfg_edge_count(graph);
    let mut weights: Vec<Arc<RegExp>> = Vec::new();
    let mut k: usize = 0;
    while k < ecount
        invariant
            k <= ecount,
            ecount == es.len(),
            es == cfg_edges(*graph),
            nodes == cfg_nodes(*graph),
            forall|i: int| #![trigger es[i]] 0 <= i < es.len() ==> es[i].0 < nodes.len() && es[i].1 < nodes.len(),
            weights@.len() == k,
            forall|i: int| 0 <= i < k ==> #[trigger] weights@[i]@ == node_re(nodes[es[i].1 as int]),
        decreases ecount - k,
    {
        let (_, dst) = cfg_edge_endpoints(graph, k);
        let w = cfg_node(graph, dst);
        weights.push(Arc::new(w.to_re()));
        k = k + 1;
    }
    let mut the_graph = gnfa_from_cfg_graph(graph, &weights);
    let ghost es0 = gnfa_edges(the_graph);
    let start_state = gnfa_add_node(&mut the_graph);
    let entry_node = cfg_node(graph, entry);
    gnfa_add_edge(&mut the_graph, start_state, entry, Arc::new(entry_node.to_re()));
    assert(gnfa_edges(the_graph) =~= cfg_arrow_list(nodes, es, entry)) by {
        assert forall|i: int| 0 <= i < es.len() implies es0[i] == (es[i].0, es[i].1, node_re(nodes[es[i].1 as int])) by {}
    }
    (the_graph, start_state)
}

/// The node that stands for block `b`.
pub(crate) fn literal_node(b: &i32) -> (n: Node)
    ensures
        n == Node::Literal(*b),
{
    Node::Literal(*b)
}

/// The automaton of a graph of basic blocks with its entry and exit: the
/// edge into a node carries the node's block, a new start state has an arrow
/// into the entry node, and the exit node accepts.
pub open spec fn block_graph_state(blocks: Seq<i32>, es: Seq<(usize, usize)>, entry: usize, exit: usize) -> GnfaState {
    let nodes = literal_nodes(blocks);
    GnfaState {
        n: nodes.len() + 1,
        start: nodes.len() as usize,
        accept: exit,
        arrows: cfg_arrows(nodes, es).insert((nodes.len() as usize, entry), node_re(nodes[entry as int])),
    }
}

/// An automaton: `the_graph` with arrows that carry regular expressions, from
/// `start_state` to `accepting_state`.
pub struct GNFA {
    start_state: usize,
    accepting_state: usize,
    pub the_graph: Graph<(), Arc<RegExp>>,
}

impl GNFA {
    /// The mathematical value of the automaton.
    pub closed spec fn state(&self) -> GnfaState {
        GnfaState {
            n: gnfa_nodes(self.the_graph).len(),
            start: self.start_state,
            accept: self.accepting_state,
            arrows: arrow_map(gnfa_edges(self.the_graph)),
        }
    }

    /// The arrows of the automaton, in the order its graph holds them: the
    /// source, the target and the expression of each.
    pub closed spec fn arrow_list(&self) -> Seq<(usize, usize, RegModel)> {
        gnfa_edges(self.the_graph)
    }

    /// The start and accepting states are two states of the graph, and no two
    /// arrows join the same states in the same direction.
    pub closed spec fn wf(&self) -> bool {
        &&& simple_arrows(gnfa_edges(self.the_graph))
        &&& arrows_within(gnfa_edges(self.the_graph), gnfa_nodes(self.the_graph).len())
        &&& self.start_state < gnfa_nodes(self.the_graph).len()
        &&& self.accepting_state < gnfa_nodes(self.the_graph).len()
        &&& self.start_state != self.accepting_state
        &&& gnfa_nodes(self.the_graph).len() <= u32::MAX
    }

    /// The start and the accepting state of a well-formed automaton are two
    /// of its states.
    pub proof fn lemma_wf_ends(&self)
        requires
            self.wf(),
        ensures
            self.state().start < self.state().n,
            self.state().accept < self.state().n,
            self.state().start != self.state().accept,
    {
    }

    /// The number of states.
    pub fn num_states(&self) -> (n: usize)
        ensures
            n == self.state().n,
    {
        gnfa_node_count(&self.the_graph)
    }

    /// The lowest state that is neither the start nor the accepting state.
    fn next_to_rip(&self) -> (v: usize)
        requires
            self.wf(),
            self.state().n > 2,
        ensures
            v == next_rip(self.state()),
            v < self.state().n,
    {
        let n = gnfa_node_count(&self.the_graph);
        let mut v: usize = 0;
        while v < n
            invariant
                n == self.state().n,
                n > 2,
                self.wf(),
                v <= 2,
                v > 0 ==> (0 == self.start_state || 0 == self.accepting_state),
                v > 1 ==> (1 == self.start_state || 1 == self.accepting_state),
            decreases n - v,
        {
            if v != self.start_state && v != self.accepting_state {
                return v;
            }
            v = v + 1;
        }
        v
    }

    /// Rips state `s_rip` out: every way through it becomes an arrow (joined
    /// with any arrow already between the same two states), and the state
    /// goes, the last state taking its index.
    fn rip_state(&mut self, s_rip: usize)
        requires
            old(self).wf(),
            s_rip < old(self).state().n,
            s_rip != old(self).state().start,
            s_rip != old(self).state().accept,
            rip_ok(old(self).state().arrows, s_rip),
            rip_fits(old(self).state().arrows, s_rip),
        ensures
            final(self).wf(),
            final(self).state() == ripped(old(self).state(), s_rip),
    {
        let ghost st0 = self.state();
        let ghost m = st0.arrows;
        let ghost n = st0.n;
        let ghost es0 = gnfa_edges(self.the_graph);
        let e_rip = gnfa_find_edge(&self.the_graph, s_rip, s_rip);
        let e_rip_weight: Option<Arc<RegExp>> = match e_rip {
            Some(e) => Some(gnfa_edge_weight(&self.the_graph, e)),
            None => None,
        };
        proof {
            match e_rip {
                Some(e) => {
                    lemma_arrow_map_at(es0, e as int);
                },
                None => {
                    if m.contains_key((s_rip, s_rip)) {
                        let k = choose|k: int| 0 <= k < es0.len() && es0[k].0 == s_rip && es0[k].1 == s_rip;
                        assert(!(es0[k].0 == s_rip && es0[k].1 == s_rip));
                    }
                },
            }
        }
        let in_edges = gnfa_in_edges(&self.the_graph, s_rip);
        let out_edges = gnfa_out_edges(&self.the_graph, s_rip);
        let ghost ins = in_edges@;
        let ghost outs = out_edges@;
        assert(es0 == gnfa_edges(self.the_graph));
        proof {
            lemma_arrow_map_len(es0);
            lemma_arrows_into_count(es0, ins, s_rip);
            lemma_arrows_out_count(es0, outs, s_rip);
        }
        assert forall|a: int| 0 <= a < ins.len() implies #[trigger] ins[a] < es0.len() && es0[ins[a] as int].1 == s_rip by {
            assert(in_edges@[a] < gnfa_edges(self.the_graph).len() && gnfa_edges(self.the_graph)[in_edges@[a] as int].1 == s_rip);
        }
        assert forall|a: int| 0 <= a < outs.len() implies #[trigger] outs[a] < es0.len() && es0[outs[a] as int].0 == s_rip by {
            assert(out_edges@[a] < gnfa_edges(self.the_graph).len() && gnfa_edges(self.the_graph)[out_edges@[a] as int].0 == s_rip);
        }
        let ghost mut done: Set<(usize, usize)> = Set::empty();
        assert(arrow_map(gnfa_edges(self.the_graph)) =~= partly_bypassed(m, s_rip, done));
        let mut i: usize = 0;
        while i < in_edges.len()
            invariant
                self.wf(),
                self.state().n == n,
                self.state().start == st0.start,
                self.state().accept == st0.accept,
                es0.len() + ins.len() * outs.len() <= u32::MAX,
                m.dom().finite(),
                m.dom().len() == es0.len(),
                done.finite(),
                done.len() <= i * outs.len(),
                s_rip < n,
                m == arrow_map(es0),
                simple_arrows(es0),
                arrows_within(es0, n),
                rip_ok(m, s_rip),
                ins == in_edges@,
                outs == out_edges@,
                ins.no_duplicates(),
                outs.no_duplicates(),
                forall|a: int| 0 <= a < ins.len() ==> #[trigger] ins[a] < es0.len() && es0[ins[a] as int].1 == s_rip,
                forall|a: int| 0 <= a < outs.len() ==> #[trigger] outs[a] < es0.len() && es0[outs[a] as int].0 == s_rip,
                match e_rip_weight {
                    Some(w) => m.contains_key((s_rip, s_rip)) && w@ == m[(s_rip, s_rip)],
                    None => !m.contains_key((s_rip, s_rip)),
                },
                arrow_map(gnfa_edges(self.the_graph)) == partly_bypassed(m, s_rip, done),
                gnfa_edges(self.the_graph).len() >= es0.len(),
                forall|k: int| 0 <= k < es0.len() ==> #[trigger] gnfa_edges(self.the_graph)[k].0 == es0[k].0 && gnfa_edges(self.the_graph)[k].1 == es0[k].1,
                forall|pq: (usize, usize)| #[trigger] done.contains(pq) ==> pq.0 != s_rip && pq.1 != s_rip && reached(es0, ins, outs, i as int, 0, pq),
                forall|a: int, b: int| 0 <= a < ins.len() && 0 <= b < outs.len() && visited(i as int, 0, a, b)
                    && way_ends(es0, ins, outs, a, b).0 != s_rip && way_ends(es0, ins, outs, a, b).1 != s_rip
                    ==> done.contains(#[trigger] way_ends(es0, ins, outs, a, b)),
            decreases in_edges.len() - i,
        {
            let in_edge = in_edges[i];
            let mut j: usize = 0;
            while j < out_edges.len()
                invariant
                    self.wf(),
                    self.state().n == n,
                    self.state().start == st0.start,
                    self.state().accept == st0.accept,
                    es0.len() + ins.len() * outs.len() <= u32::MAX,
                    m.dom().finite(),
                    m.dom().len() == es0.len(),
                    done.finite(),
                    done.len() <= i * outs.len() + j,
                    j <= outs.len(),
                    s_rip < n,
                    m == arrow_map(es0),
                    simple_arrows(es0),
                    arrows_within(es0, n),
                    rip_ok(m, s_rip),
                    i < ins.len(),
                    in_edge == ins[i as int],
                    ins == in_edges@,
                    outs == out_edges@,
                    ins.no_duplicates(),
                    outs.no_duplicates(),
                    forall|a: int| 0 <= a < ins.len() ==> #[trigger] ins[a] < es0.len() && es0[ins[a] as int].1 == s_rip,
                    forall|a: int| 0 <= a < outs.len() ==> #[trigger] outs[a] < es0.len() && es0[outs[a] as int].0 == s_rip,
                    match e_rip_weight {
                        Some(w) => m.contains_key((s_rip, s_rip)) && w@ == m[(s_rip, s_rip)],
                        None => !m.contains_key((s_rip, s_rip)),
                    },
                    arrow_map(gnfa_edges(self.the_graph)) == partly_bypassed(m, s_rip, done),
                    gnfa_edges(self.the_graph).len() >= es0.len(),
                    forall|k: int| 0 <= k < es0.len() ==> #[trigger] gnfa_edges(self.the_graph)[k].0 == es0[k].0 && gnfa_edges(self.the_graph)[k].1 == es0[k].1,
                    forall|pq: (usize, usize)| #[trigger] done.contains(pq) ==> pq.0 != s_rip && pq.1 != s_rip && reached(es0, ins, outs, i as int, j as int, pq),
                    forall|a: int, b: int| 0 <= a < ins.len() && 0 <= b < outs.len() && visited(i as int, j as int, a, b)
                        && way_ends(es0, ins, outs, a, b).0 != s_rip && way_ends(es0, ins, outs, a, b).1 != s_rip
                        ==> done.contains(#[trigger] way_ends(es0, ins, outs, a, b)),
                decreases out_edges.len() - j,
            {
                let out_edge = out_edges[j];
                let s_in = gnfa_edge_endpoints(&self.the_graph, in_edge).0;
                let s_out = gnfa_edge_endpoints(&self.the_graph, out_edge).1;
                let ghost pq = (s_in, s_out);
                assert(pq == way_ends(es0, ins, outs, i as int, j as int));
                if s_in == s_rip || s_out == s_rip {
                    proof {
                        assert forall|pq2: (usize, usize)| #[trigger] done.contains(pq2) implies reached(es0, ins, outs, i as int, j + 1, pq2) by {
                            lemma_reached_later(es0, ins, outs, i as int, j as int, i as int, j + 1, pq2);
                        }
                    }
                    j = j + 1;
                    continue;
                }
                let ghost cur = gnfa_edges(self.the_graph);
                proof {
                    lemma_arrow_map_at(es0, in_edge as int);
                    lemma_arrow_map_at(es0, out_edge as int);
                    lemma_arrow_map_at(cur, in_edge as int);
                    lemma_arrow_map_at(cur, out_edge as int);
                    assert(!done.contains((s_in, s_rip)));
                    assert(!done.contains((s_rip, s_out)));
                    assert(contributes(m, s_rip, s_in, s_out));
                    if done.contains(pq) {
                        let (a, b) = choose|a: int, b: int| 0 <= a < ins.len() && 0 <= b < outs.len() && visited(i as int, j as int, a, b) && #[trigger] way_ends(es0, ins, outs, a, b) == pq;
                        if ins[a] != ins[i as int] {
                            if ins[a] < ins[i as int] {
                                assert(!(es0[ins[a] as int].0 == es0[ins[i as int] as int].0 && es0[ins[a] as int].1 == es0[ins[i as int] as int].1));
                            } else {
                                assert(!(es0[ins[i as int] as int].0 == es0[ins[a] as int].0 && es0[ins[i as int] as int].1 == es0[ins[a] as int].1));
                            }
                        }
                        assert(a == i);
                        if outs[b] != outs[j as int] {
                            if outs[b] < outs[j as int] {
                                assert(!(es0[outs[b] as int].0 == es0[outs[j as int] as int].0 && es0[outs[b] as int].1 == es0[outs[j as int] as int].1));
                            } else {
                                assert(!(es0[outs[j as int] as int].0 == es0[outs[b] as int].0 && es0[outs[j as int] as int].1 == es0[outs[b] as int].1));
                            }
                        }
                        assert(b == j);
                    }
                    lemma_arrow_map_len(cur);
                    assert(arrow_map(cur).dom() =~= m.dom().union(done));
                    vstd::set_lib::lemma_len_union(m.dom(), done);
                    assert(i * outs.len() + j < ins.len() * outs.len()) by (nonlinear_arith)
                        requires
                            i < ins.len(),
                            j < outs.len(),
                    ;
                }
                let e_in = gnfa_edge_weight(&self.the_graph, in_edge);
                let e_out = gnfa_edge_weight(&self.the_graph, out_edge);
                let e_new = match &e_rip_weight {
                    Some(w) => RegExp::concat(e_in, RegExp::concat(Arc::new(RegExp::star(share(w))), e_out)),
                    None => RegExp::concat(e_in, e_out),
                };
                assert(e_new@ == route(m, s_rip, s_in, s_out));
                self.add_arrow(s_in, s_out, e_new);
                proof {
                    assert(arrow_map(gnfa_edges(self.the_graph)) =~= partly_bypassed(m, s_rip, done.insert(pq)));
                    assert(visited(i as int, j + 1, i as int, j as int));
                    assert(reached(es0, ins, outs, i as int, j + 1, pq));
                    assert forall|pq2: (usize, usize)| #[trigger] done.contains(pq2) implies reached(es0, ins, outs, i as int, j + 1, pq2) by {
                        lemma_reached_later(es0, ins, outs, i as int, j as int, i as int, j + 1, pq2);
                    }
                    done = done.insert(pq);
                }
                j = j + 1;
            }
            proof {
                assert forall|pq2: (usize, usize)| #[trigger] done.contains(pq2) implies reached(es0, ins, outs, i + 1, 0, pq2) by {
                    lemma_reached_later(es0, ins, outs, i as int, j as int, i + 1, 0, pq2);
                }
                assert(i * outs.len() + outs.len() == (i + 1) * outs.len()) by (nonlinear_arith);
            }
            i = i + 1;
        }
        proof {
            let full = Set::new(|pq: (usize, usize)| pq.0 != s_rip && pq.1 != s_rip && contributes(m, s_rip, pq.0, pq.1));
            assert forall|pq: (usize, usize)| full.contains(pq) implies done.contains(pq) by {
                let k1 = choose|k: int| 0 <= k < es0.len() && es0[k].0 == pq.0 && es0[k].1 == s_rip;
                let k2 = choose|k: int| 0 <= k < es0.len() && es0[k].0 == s_rip && es0[k].1 == pq.1;
                assert(ins.contains(k1 as usize));
                assert(outs.contains(k2 as usize));
                let a = choose|a: int| 0 <= a < ins.len() && ins[a] == k1 as usize;
                let b = choose|b: int| 0 <= b < outs.len() && outs[b] == k2 as usize;
                assert(way_ends(es0, ins, outs, a, b) == pq);
            }
            assert forall|pq: (usize, usize)| done.contains(pq) implies full.contains(pq) by {
                let (a, b) = choose|a: int, b: int| 0 <= a < ins.len() && 0 <= b < outs.len() && visited(i as int, 0, a, b) && #[trigger] way_ends(es0, ins, outs, a, b) == pq;
                lemma_arrow_map_at(es0, ins[a] as int);
                lemma_arrow_map_at(es0, outs[b] as int);
            }
        }
        let ghost cur = gnfa_edges(self.the_graph);
        let ghost g_before = self.the_graph;
        gnfa_remove_node(&mut self.the_graph, s_rip);
        let count = gnfa_node_count(&self.the_graph);
        if self.start_state == count {
            self.start_state = s_rip;
        }
        if self.accepting_state == count {
            self.accepting_state = s_rip;
        }
        proof {
            let es2 = gnfa_edges(self.the_graph);
            assert(gnfa_nodes(g_before).len() == n);
            assert(gnfa_edges(g_before) == cur);
            assert(removal_from(cur, es2, s_rip, n));
            assert(removal_keeps(cur, es2, s_rip, n));
            assert(removal_distinct(cur, es2, s_rip, n));
            lemma_removal_within(cur, es2, s_rip, n);
            lemma_removal_simple(cur, es2, s_rip, n);
            lemma_removal_map(cur, es2, s_rip, n);
            lemma_moved_ends(st0.start, s_rip, n);
            lemma_moved_ends(st0.accept, s_rip, n);
            lemma_ripped_arrows(st0, s_rip, arrow_map(cur), arrow_map(es2));
        }
    }

    /// The automaton of the graph of basic blocks `g` with its entry and
    /// exit nodes: edge `i` of `g` carries the block of the node it enters,
    /// and a new start state has an arrow into the entry node. Its language
    /// is the set of paths of `g` from `entry` to `exit`
    /// (`language::law_block_graph_language`), with or without two edges
    /// between the same nodes; it is well formed, ready to be reduced, where
    /// there are none and the exit is a node.
    pub fn from_cfg(g: Graph<i32, ()>, entry: usize, exit: usize) -> (res: Self)
        requires
            entry < block_nodes(g).len(),
            block_nodes(g).len() < u32::MAX,
            block_edges(g).len() < u32::MAX,
        ensures
            res.arrow_list() == cfg_arrow_list(literal_nodes(block_nodes(g)), block_edges(g), entry),
            res.state() == block_graph_state(block_nodes(g), block_edges(g), entry, exit),
            cfg_simple(block_edges(g)) && exit < block_nodes(g).len() ==> res.wf(),
    {
        let graph = literal_cfg_graph(&g);
        let ghost nodes = cfg_nodes(graph);
        let ghost es = cfg_edges(graph);
        let (the_graph, start_state) = automaton_of(&graph, entry);
        let res = GNFA { start_state, accepting_state: exit, the_graph };
        proof {
            lemma_cfg_arrow_map(nodes, es, entry);
            if cfg_simple(es) && exit < nodes.len() {
                lemma_cfg_arrow_list(nodes, es, entry);
            }
        }
        res
    }

    /// The automaton of the control flow graph `graph`: edge `i` of the
    /// graph carries the expression of the node it enters, a new start state
    /// has an arrow into the entry node, and where several nodes have no way
    /// out, a new accepting state has an empty arrow from each of them, in
    /// the order of the nodes. Its language is the set of execution paths of
    /// the function (`language::law_cfg_automaton_language`), with or
    /// without two edges between the same nodes; it is well formed, ready to
    /// be reduced, where there are none and the exit is a node.
    pub fn from_intern_cfg(graph: CFG) -> (res: Self)
        requires
            graph.entry < cfg_nodes(graph.graph).len(),
            sinks(cfg_nodes(graph.graph), cfg_edges(graph.graph)) != Set::<usize>::empty(),
            exits_fit(cfg_nodes(graph.graph), cfg_edges(graph.graph)),
        ensures
            res.arrow_list() == initial_arrow_list(cfg_nodes(graph.graph), cfg_edges(graph.graph), graph.entry),
            res.state() == initial_state(cfg_nodes(graph.graph), cfg_edges(graph.graph), graph.entry, graph.exit),
            cfg_simple(cfg_edges(graph.graph)) && graph.exit < cfg_nodes(graph.graph).len() ==> res.wf(),
    {
        GNFA::automaton_of_cfg(&graph)
    }

    /// The automaton of the control flow graph `cfg`, built from a borrow of
    /// it (`from_intern_cfg`).
    pub(crate) fn automaton_of_cfg(cfg: &CFG) -> (res: Self)
        requires
            cfg.entry < cfg_nodes(cfg.graph).len(),
            sinks(cfg_nodes(cfg.graph), cfg_edges(cfg.graph)) != Set::<usize>::empty(),
            exits_fit(cfg_nodes(cfg.graph), cfg_edges(cfg.graph)),
        ensures
            res.arrow_list() == initial_arrow_list(cfg_nodes(cfg.graph), cfg_edges(cfg.graph), cfg.entry),
            res.state() == initial_state(cfg_nodes(cfg.graph), cfg_edges(cfg.graph), cfg.entry, cfg.exit),
            cfg_simple(cfg_edges(cfg.graph)) && cfg.exit < cfg_nodes(cfg.graph).len() ==> res.wf(),
    {
        let entry = cfg.entry;
        let exit = cfg.exit;
        let graph = &cfg.graph;
        let ghost nodes = cfg_nodes(*graph);
        let ghost es = cfg_edges(*graph);
        let ghost n0 = nodes.len();
        proof {
            lemma_sink_list(nodes, es);
        }
        let (mut the_graph, start_state) = automaton_of(graph, entry);
        let ghost es1 = gnfa_edges(the_graph);
        assert(es1.len() == es.len() + 1 && es1[es.len() as int].0 == n0);
        assert(forall|i: int| 0 <= i < es.len() ==> #[trigger] es1[i].0 == es[i].0);
        let count = gnfa_node_count(&the_graph);
        let mut exit_nodes: Vec<usize> = Vec::new();
        let mut v: usize = 0;
        while v < count
            invariant
                v <= count,
                count == n0 + 1,
                n0 == nodes.len(),
                es1 == gnfa_edges(the_graph),
                gnfa_nodes(the_graph).len() == n0 + 1,
                es1.len() == es.len() + 1,
                es1[es.len() as int].0 == n0,
                forall|i: int| 0 <= i < es.len() ==> #[trigger] es1[i].0 == es[i].0,
                forall|i: int| 0 <= i < exit_nodes@.len() ==> #[trigger] exit_nodes@[i] < v,
                forall|i: int, j: int| 0 <= i < j < exit_nodes@.len() ==> exit_nodes@[i] < exit_nodes@[j],
                forall|w: usize| #[trigger] exit_nodes@.contains(w) <==> (w < v && sinks(nodes, es).contains(w)),
                exit_nodes@ == sinks_below(nodes, es, v as nat),
            decreases count - v,
        {
            let d = gnfa_out_degree(&the_graph, v);
            proof {
                lemma_arrow_out_count_zero(es1, v);
                if d == 0 && v < n0 {
                    assert forall|i: int| 0 <= i < es.len() implies #[trigger] es[i].0 != v by {
                        assert(es1[i].0 != v);
                    }
                }
                if v < n0 && is_sink(es, v) {
                    assert forall|i: int| 0 <= i < es1.len() implies #[trigger] es1[i].0 != v by {
                        if i < es.len() {
                            assert(es[i].0 != v);
                        }
                    }
                }
                if v == n0 {
                    assert(es1[es.len() as int].0 == v);
                }
                assert(sinks(nodes, es).contains(v) <==> (v < n0 && is_sink(es, v)));
                assert(sinks(nodes, es).contains(v) <==> d == 0);
            }
            if d == 0 {
                let ghost before = exit_nodes@;
                exit_nodes.push(v);
                proof {
                    assert(exit_nodes@ == sinks_below(nodes, es, (v + 1) as nat));
                    assert forall|w: usize| #[trigger] exit_nodes@.contains(w) <==> (w < v + 1 && sinks(nodes, es).contains(w)) by {
                        if exit_nodes@.contains(w) && w != v {
                            let i = choose|i: int| 0 <= i < exit_nodes@.len() && exit_nodes@[i] == w;
                            assert(i != before.len());
                            assert(before[i] == w);
                            assert(before.contains(w));
                        }
                        if w < v && sinks(nodes, es).contains(w) {
                            assert(before.contains(w));
                            let i = choose|i: int| 0 <= i < before.len() && before[i] == w;
                            assert(exit_nodes@[i] == w);
                        }
                        if w == v {
                            assert(exit_nodes@[before.len() as int] == v);
                        }
                    }
                }
            } else {
                proof {
                    assert(exit_nodes@ == sinks_below(nodes, es, (v + 1) as nat));
                    assert forall|w: usize| #[trigger] exit_nodes@.contains(w) <==> (w < v + 1 && sinks(nodes, es).contains(w)) by {
                        if exit_nodes@.contains(w) {
                            let i = choose|i: int| 0 <= i < exit_nodes@.len() && exit_nodes@[i] == w;
                        }
                    }
                }
            }
            v = v + 1;
        }
        proof {
            assert(!sinks(nodes, es).contains(n0 as usize));
            assert(exit_nodes@ == sink_list(nodes, es));
        }
        if exit_nodes.len() > 1 {
            let exit_node = gnfa_add_node(&mut the_graph);
            let mut i: usize = 0;
            while i < exit_nodes.len()
                invariant
                    i <= exit_nodes@.len(),
                    exit_node == n0 + 1,
                    n0 == nodes.len(),
                    gnfa_nodes(the_graph).len() == n0 + 2,
                    exit_nodes@ == sink_list(nodes, es),
                    es1.len() == es.len() + 1,
                    es.len() + 1 + exit_nodes@.len() <= u32::MAX,
                    gnfa_edges(the_graph) == es1 + exit_arrows(exit_nodes@.take(i as int), (n0 + 1) as usize),
                    forall|k: int| 0 <= k < exit_nodes@.len() ==> #[trigger] exit_nodes@[k] < n0 + 1,
                decreases exit_nodes.len() - i,
            {
                let ghost cur = gnfa_edges(the_graph);
                gnfa_add_edge(&mut the_graph, exit_nodes[i], exit_node, Arc::new(RegExp::Epsilon));
                assert(gnfa_edges(the_graph) =~= es1 + exit_arrows(exit_nodes@.take(i + 1), (n0 + 1) as usize));
                i = i + 1;
            }
            assert(exit_nodes@.take(exit_nodes@.len() as int) =~= exit_nodes@);
            let res = GNFA { start_state, accepting_state: exit_node, the_graph };
            proof {
                lemma_initial_arrow_map(nodes, es, entry, exit);
                if cfg_simple(es) && exit < n0 {
                    lemma_initial_arrows(nodes, es, entry, exit);
                }
            }
            res
        } else {
            let res = GNFA { start_state, accepting_state: exit, the_graph };
            proof {
                lemma_initial_arrow_map(nodes, es, entry, exit);
                if cfg_simple(es) && exit < n0 {
                    lemma_initial_arrows(nodes, es, entry, exit);
                }
            }
            res
        }
    }

    /// The automaton of the graph of basic blocks `g`, where `from_cfg` can
    /// build it and it is well formed: `None` where `entry` or `exit` is no
    /// node of `g`, two edges join the same nodes in the same direction, or
    /// the nodes or edges are too many for the indices of the automaton.
    pub fn try_from_cfg(g: Graph<i32, ()>, entry: usize, exit: usize) -> (res: Option<Self>)
        ensures
            res is Some <==> (entry < block_nodes(g).len() && exit < block_nodes(g).len()
                && cfg_simple(block_edges(g)) && block_nodes(g).len() < u32::MAX && block_edges(g).len() < u32::MAX),
            res matches Some(a) ==> a.wf() && a.state() == block_graph_state(block_nodes(g), block_edges(g), entry, exit),
    {
        let lg = literal_cfg_graph(&g);
        let n = cfg_node_count(&lg);
        let e = cfg_edge_count(&lg);
        if entry < n && exit < n && edges_distinct(&lg) && n < 4294967295usize && e < 4294967295usize {
            Some(GNFA::from_cfg(g, entry, exit))
        } else {
            None
        }
    }

    /// The automaton of the control flow graph `graph`, where
    /// `from_intern_cfg` can build it and it is well formed: `None` where its
    /// entry or exit is no node of the graph, two edges join the same nodes
    /// in the same direction, every node has a way out, or the automaton
    /// does not fit a graph with `u32` indices.
    pub fn try_from_intern_cfg(graph: CFG) -> (res: Option<Self>)
        ensures
            res is Some <==> (graph.entry < cfg_nodes(graph.graph).len() && graph.exit < cfg_nodes(graph.graph).len()
                && cfg_simple(cfg_edges(graph.graph))
                && sinks(cfg_nodes(graph.graph), cfg_edges(graph.graph)) != Set::<usize>::empty()
                && exits_fit(cfg_nodes(graph.graph), cfg_edges(graph.graph))),
            res matches Some(a) ==> a.wf() && a.state() == initial_state(cfg_nodes(graph.graph), cfg_edges(graph.graph), graph.entry, graph.exit),
    {
        let n = cfg_node_count(&graph.graph);
        if graph.entry < n && graph.exit < n && edges_distinct(&graph.graph) && has_sink(&graph.graph) && automaton_fits(&graph.graph) {
            Some(GNFA::from_intern_cfg(graph))
        } else {
            None
        }
    }

    /// Reduces the automaton to its start and accepting states by ripping
    /// out the others, lowest index first, where no rip joins an empty
    /// expression and every rip fits a graph with `u32` indices. The language
    /// accepted does not change (`language::law_reduce_keeps_language`).
    pub fn reduce(&mut self)
        requires
            old(self).wf(),
            eliminate(old(self).state()) is Some,
            elimination_fits(old(self).state()),
        ensures
            final(self).wf(),
            final(self).state() == eliminate(old(self).state()).unwrap(),
    {
        let ghost target = eliminate(self.state());
        while self.num_states() > 2
            invariant
                self.wf(),
                eliminate(self.state()) == target,
                target is Some,
                elimination_fits(self.state()),
            decreases self.state().n,
        {
            let s_rip = self.next_to_rip();
            self.rip_state(s_rip);
        }
    }

    /// Whether state `s` can be ripped out: no way through it is joined
    /// with an arrow where one of the two is the empty expression.
    fn rip_allowed(&self, s: usize) -> (ok: bool)
        requires
            self.wf(),
            s < self.state().n,
            gnfa_edges(self.the_graph).len() <= u32::MAX,
        ensures
            ok == rip_ok(self.state().arrows, s),
    {
        let ghost es = gnfa_edges(self.the_graph);
        let ghost m = self.state().arrows;
        let has_loop = gnfa_find_edge(&self.the_graph, s, s).is_some();
        proof {
            if m.contains_key((s, s)) {
                let k = choose|k: int| 0 <= k < es.len() && es[k].0 == s && es[k].1 == s;
                assert(es[k].0 == s && es[k].1 == s);
            }
        }
        assert(has_loop == m.contains_key((s, s)));
        let ins = gnfa_in_edges(&self.the_graph, s);
        let outs = gnfa_out_edges(&self.the_graph, s);
        let mut a: usize = 0;
        while a < ins.len()
            invariant
                self.wf(),
                s < self.state().n,
                es == gnfa_edges(self.the_graph),
                m == self.state().arrows,
                has_loop == m.contains_key((s, s)),
                es.len() <= u32::MAX,
                forall|i: int| 0 <= i < ins@.len() ==> #[trigger] ins@[i] < es.len() && es[ins@[i] as int].1 == s,
                forall|i: int| 0 <= i < outs@.len() ==> #[trigger] outs@[i] < es.len() && es[outs@[i] as int].0 == s,
                forall|e: int| 0 <= e < es.len() && #[trigger] es[e].1 == s ==> ins@.contains(e as usize),
                forall|e: int| 0 <= e < es.len() && #[trigger] es[e].0 == s ==> outs@.contains(e as usize),
                forall|a2: int, b2: int| 0 <= a2 < a && 0 <= b2 < outs@.len() ==>
                    way_ok(m, s, #[trigger] es[ins@[a2] as int].0, #[trigger] es[outs@[b2] as int].1),
            decreases ins.len() - a,
        {
            let (p, _) = gnfa_edge_endpoints(&self.the_graph, ins[a]);
            let in_empty = is_empty_re(gnfa_edge_weight_ref(&self.the_graph, ins[a]));
            proof {
                lemma_arrow_map_at(es, ins@[a as int] as int);
            }
            let mut b: usize = 0;
            while b < outs.len()
                invariant
                    self.wf(),
                    s < self.state().n,
                    es == gnfa_edges(self.the_graph),
                    m == self.state().arrows,
                    has_loop == m.contains_key((s, s)),
                    a < ins@.len(),
                    p == es[ins@[a as int] as int].0,
                    m.contains_key((p, s)),
                    in_empty == (m[(p, s)] is Epsilon),
                    forall|i: int| 0 <= i < ins@.len() ==> #[trigger] ins@[i] < es.len() && es[ins@[i] as int].1 == s,
                    forall|i: int| 0 <= i < outs@.len() ==> #[trigger] outs@[i] < es.len() && es[outs@[i] as int].0 == s,
                    forall|a2: int, b2: int| 0 <= a2 < a && 0 <= b2 < outs@.len() ==>
                        way_ok(m, s, #[trigger] es[ins@[a2] as int].0, #[trigger] es[outs@[b2] as int].1),
                    forall|b2: int| 0 <= b2 < b ==> way_ok(m, s, p, #[trigger] es[outs@[b2] as int].1),
                decreases outs.len() - b,
            {
                let (_, q) = gnfa_edge_endpoints(&self.the_graph, outs[b]);
                proof {
                    lemma_arrow_map_at(es, outs@[b as int] as int);
                }
                if p != s && q != s {
                    match gnfa_find_edge(&self.the_graph, p, q) {
                        Some(e) => {
                            proof {
                                lemma_arrow_map_at(es, e as int);
                            }
                            let out_empty = is_empty_re(gnfa_edge_weight_ref(&self.the_graph, outs[b]));
                            let joined_empty = is_empty_re(gnfa_edge_weight_ref(&self.the_graph, e));
                            if joined_empty || (in_empty && out_empty && !has_loop) {
                                assert(!way_ok(m, s, p, q));
                                return false;
                            }
                        },
                        None => {
                            proof {
                                if m.contains_key((p, q)) {
                                    let k = choose|k: int| 0 <= k < es.len() && es[k].0 == p && es[k].1 == q;
                                    assert(es[k].0 == p && es[k].1 == q);
                                }
                            }
                        },
                    }
                }
                assert(way_ok(m, s, p, q));
                b = b + 1;
            }
            a = a + 1;
        }
        assert forall|p: usize, q: usize| #[trigger] contributes(m, s, p, q) implies way_ok(m, s, p, q) by {
            if p != s && q != s && m.contains_key((p, q)) {
                let i = choose|i: int| 0 <= i < es.len() && es[i].0 == p && es[i].1 == s;
                let j = choose|j: int| 0 <= j < es.len() && es[j].0 == s && es[j].1 == q;
                assert(es[i].1 == s);
                assert(ins@.contains(i as usize));
                assert(es[j].0 == s);
                assert(outs@.contains(j as usize));
                let a2 = choose|a2: int| 0 <= a2 < ins@.len() && ins@[a2] == i as usize;
                let b2 = choose|b2: int| 0 <= b2 < outs@.len() && outs@[b2] == j as usize;
                assert(way_ok(m, s, es[ins@[a2] as int].0, es[outs@[b2] as int].1));
            }
        }
        true
    }

    /// Reduces the automaton as `reduce` does where state elimination goes
    /// through (`true`); where a rip would join an empty expression (which
    /// `RegExp::alter` does not accept), or would add more arrows than a
    /// graph with `u32` indices holds (`rip_fits`), it stops before that rip
    /// and gives `false`.
    pub fn try_reduce(&mut self) -> (ok: bool)
        requires
            old(self).wf(),
        ensures
            final(self).wf(),
            ok == (eliminate(old(self).state()) is Some && elimination_fits(old(self).state())),
            ok ==> final(self).state() == eliminate(old(self).state()).unwrap(),
            final(self).state() == elimination_end(old(self).state()),
    {
        let ghost target = elimination_end(self.state());
        proof {
            lemma_elimination_end(self.state());
        }
        while self.num_states() > 2
            invariant
                self.wf(),
                elimination_end(self.state()) == target,
                target == elimination_end(old(self).state()),
                (eliminate(old(self).state()) is Some && elimination_fits(old(self).state())) <==> target.n <= 2,
                target.n <= 2 ==> eliminate(old(self).state()).unwrap() == target,
            decreases self.state().n,
        {
            let s_rip = self.next_to_rip();
            let edge_count = gnfa_edge_count(&self.the_graph);
            if !self.rip_allowed(s_rip) || !self.rip_fits_check(s_rip, edge_count) {
                assert(elimination_end(self.state()) == self.state());
                return false;
            }
            self.rip_state(s_rip);
        }
        true
    }

    /// Whether ripping `s` out fits (`rip_fits`), for an automaton with
    /// `edge_count` arrows.
    fn rip_fits_check(&self, s: usize, edge_count: usize) -> (ok: bool)
        requires
            self.wf(),
            s < self.state().n,
            edge_count == gnfa_edges(self.the_graph).len(),
            edge_count <= u32::MAX,
        ensures
            ok == rip_fits(self.state().arrows, s),
    {
        let ghost es = gnfa_edges(self.the_graph);
        let ghost m = self.state().arrows;
        let ins = gnfa_in_edges(&self.the_graph, s);
        let outs = gnfa_out_edges(&self.the_graph, s);
        proof {
            lemma_arrow_map_len(es);
            lemma_arrows_into_count(es, ins@, s);
            lemma_arrows_out_count(es, outs@, s);
            m.dom().lemma_len_filter(|pq: (usize, usize)| pq.1 == s);
            m.dom().lemma_len_filter(|pq: (usize, usize)| pq.0 == s);
            assert(pairs_into(m, s) == m.dom().filter(|pq: (usize, usize)| pq.1 == s));
            assert(pairs_out_of(m, s) == m.dom().filter(|pq: (usize, usize)| pq.0 == s));
            let a = ins@.len();
            let b = outs@.len();
            assert(a * b <= u32::MAX * u32::MAX) by (nonlinear_arith)
                requires
                    a <= u32::MAX,
                    b <= u32::MAX,
            ;
        }
        let a = ins.len() as u64;
        let b = outs.len() as u64;
        (edge_count as u64) + a * b <= 4294967295u64
    }

    /// The expression on the arrow from the start to the accepting state,
    /// where there is one.
    pub fn try_start_to_end(&self) -> (res: Option<&RegExp>)
        requires
            self.wf(),
        ensures
            res is Some <==> self.state().arrows.contains_key((self.state().start, self.state().accept)),
            res matches Some(r) ==> r@ == self.state().arrows[(self.state().start, self.state().accept)],
    {
        let count = gnfa_count_connecting(&self.the_graph, self.start_state, self.accepting_state);
        proof {
            lemma_arrow_count_simple(gnfa_edges(self.the_graph), self.start_state, self.accepting_state);
        }
        if count == 1 {
            Some(self.start_to_end())
        } else {
            None
        }
    }

    /// The expression on the one arrow from the start to the accepting state.
    pub fn start_to_end(&self) -> (res: &RegExp)
        requires
            self.wf(),
            self.state().arrows.contains_key((self.state().start, self.state().accept)),
        ensures
            res@ == self.state().arrows[(self.state().start, self.state().accept)],
    {
        let count = gnfa_count_connecting(&self.the_graph, self.start_state, self.accepting_state);
        proof {
            lemma_arrow_count_simple(gnfa_edges(self.the_graph), self.start_state, self.accepting_state);
        }
        assert(count == 1);
        let idx = gnfa_find_edge(&self.the_graph, self.start_state, self.accepting_state).unwrap();
        proof {
            lemma_arrow_map_at(gnfa_edges(self.the_graph), idx as int);
        }
        &**gnfa_edge_weight_ref(&self.the_graph, idx)
    }

    /// Puts `arrow` on the arrow from `s` to `t`: as an alternative to what
    /// is there, or on a new arrow.
    fn add_arrow(&mut self, s: usize, t: usize, arrow: Arc<RegExp>)
        requires
            old(self).wf(),
            s < old(self).state().n,
            t < old(self).state().n,
            old(self).state().arrows.contains_key((s, t)) ==> !(old(self).state().arrows[(s, t)] is Epsilon) && !(arrow@ is Epsilon),
            gnfa_edges(old(self).the_graph).len() < u32::MAX,
        ensures
            final(self).wf(),
            final(self).state().n == old(self).state().n,
            final(self).state().start == old(self).state().start,
            final(self).state().accept == old(self).state().accept,
            final(self).state().arrows == old(self).state().arrows.insert(
                (s, t),
                if old(self).state().arrows.contains_key((s, t)) {
                    alter_model(old(self).state().arrows[(s, t)], arrow@)
                } else {
                    arrow@
                },
            ),
            gnfa_edges(final(self).the_graph).len() >= gnfa_edges(old(self).the_graph).len(),
            forall|k: int| 0 <= k < gnfa_edges(old(self).the_graph).len() ==>
                #[trigger] gnfa_edges(final(self).the_graph)[k].0 == gnfa_edges(old(self).the_graph)[k].0
                && gnfa_edges(final(self).the_graph)[k].1 == gnfa_edges(old(self).the_graph)[k].1,
    {
        let ghost es = gnfa_edges(self.the_graph);
        match gnfa_find_edge(&self.the_graph, s, t) {
            Some(e) => {
                proof {
                    lemma_arrow_map_at(es, e as int);
                }
                let old_arrow = gnfa_edge_weight(&self.the_graph, e);
                let merged = RegExp::alter(old_arrow, arrow);
                gnfa_set_edge_weight(&mut self.the_graph, e, merged);
                proof {
                    lemma_arrow_map_update(es, e as int, merged@);
                }
            },
            None => {
                gnfa_add_edge(&mut self.the_graph, s, t, arrow);
                proof {
                    lemma_arrow_map_push(es, (s, t, arrow@));
                }
            },
        }
    }
}

} // verus!
