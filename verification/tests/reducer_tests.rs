use std::collections::BTreeMap;

use path_reduction::convert::{Node, GNFA};
use path_reduction::intern_cfg::CFG;
use path_reduction::path_reduction::{OnInvalid, PathReducer, ReduceError, SIMPLE_REDUCTION_K};
use path_reduction::re::RegExp;
use petgraph::graph::Graph;

/// A control flow graph from its nodes and edges; the entry is node 0.
fn cfg(nodes: &[Node], edges: &[(usize, usize)], exit: usize) -> CFG {
    let mut graph: Graph<Node, ()> = Graph::new();
    let ids: Vec<_> = nodes.iter().map(|n| graph.add_node(*n)).collect();
    for (a, b) in edges {
        graph.add_edge(ids[*a], ids[*b], ());
    }
    CFG { entry: 0, exit, graph }
}

/// main (0): 1 -> 2, 2 -> 2, 2 -> 3
fn looping_main() -> CFG {
    cfg(
        &[Node::Literal(1), Node::Literal(2), Node::Literal(3)],
        &[(0, 1), (1, 1), (1, 2)],
        2,
    )
}

/// main (0): 1 -> call f -> 2; f (10): 7 -> 8
fn calling_program() -> BTreeMap<i32, CFG> {
    let mut cfgs = BTreeMap::new();
    cfgs.insert(
        0,
        cfg(&[Node::Literal(1), Node::Var(10), Node::Literal(2)], &[(0, 1), (1, 2)], 2),
    );
    cfgs.insert(10, cfg(&[Node::Literal(7), Node::Literal(8)], &[(0, 1)], 1));
    cfgs
}

/// f (10): 7 -> call f -> 8, 7 -> 8
fn recursive_program() -> BTreeMap<i32, CFG> {
    let mut cfgs = BTreeMap::new();
    cfgs.insert(
        10,
        cfg(
            &[Node::Literal(7), Node::Var(10), Node::Literal(8)],
            &[(0, 1), (1, 2), (0, 2)],
            2,
        ),
    );
    cfgs
}

fn one_function(c: CFG) -> BTreeMap<i32, CFG> {
    let mut cfgs = BTreeMap::new();
    cfgs.insert(0, c);
    cfgs
}

#[test]
fn convert_test1() {
    let mut g: Graph<i32, ()> = Graph::new();
    let v1 = g.add_node(1);
    let v4 = g.add_node(4);
    let v2 = g.add_node(2);
    let v3 = g.add_node(3);
    g.add_edge(v1, v2, ());
    g.add_edge(v1, v3, ());
    g.add_edge(v2, v1, ());
    g.add_edge(v2, v4, ());
    g.add_edge(v3, v1, ());
    g.add_edge(v3, v4, ());
    let mut gnfa = GNFA::from_cfg(g, v1.index(), v4.index());
    gnfa.reduce();
    println!("{:?}", gnfa.start_to_end());
}

#[test]
fn convert_test2() {
    let mut g: Graph<i32, ()> = Graph::new();
    let v1 = g.add_node(1);
    let v2 = g.add_node(2);
    let v3 = g.add_node(3);
    let v4 = g.add_node(4);
    g.add_edge(v1, v2, ());
    g.add_edge(v2, v3, ());
    g.add_edge(v3, v4, ());
    g.add_edge(v3, v2, ());
    let mut gnfa = GNFA::from_cfg(g, v1.index(), v4.index());
    gnfa.reduce();
    println!("{:?}", gnfa.start_to_end());
}

#[test]
fn from_cfg_of_a_chain() {
    let mut g: Graph<i32, ()> = Graph::new();
    let v1 = g.add_node(1);
    let v2 = g.add_node(2);
    g.add_edge(v1, v2, ());
    let mut gnfa = GNFA::from_cfg(g, v1.index(), v2.index());
    assert_eq!(gnfa.num_states(), 3);
    gnfa.reduce();
    assert_eq!(gnfa.num_states(), 2);
    let expected = RegExp::Concat(
        std::sync::Arc::new(RegExp::Literal(1)),
        std::sync::Arc::new(RegExp::Literal(2)),
    );
    assert!(gnfa.start_to_end().equals(&expected));
}

#[test]
fn reduce_keeps_the_paths_of_a_loop() {
    // 1 -> 2, 2 -> 2, 2 -> 3: the paths are 1 2 2* 3
    let mut g: Graph<i32, ()> = Graph::new();
    let v1 = g.add_node(1);
    let v2 = g.add_node(2);
    let v3 = g.add_node(3);
    g.add_edge(v1, v2, ());
    g.add_edge(v2, v2, ());
    g.add_edge(v2, v3, ());
    let mut gnfa = GNFA::from_cfg(g, v1.index(), v3.index());
    gnfa.reduce();
    let lit = |c: i32| std::sync::Arc::new(RegExp::Literal(c));
    let expected = RegExp::Concat(
        std::sync::Arc::new(RegExp::Concat(lit(1), lit(2))),
        std::sync::Arc::new(RegExp::Concat(std::sync::Arc::new(RegExp::Star(lit(2))), lit(3))),
    );
    assert!(gnfa.start_to_end().equals(&expected), "{:?}", gnfa.start_to_end());
}

#[test]
fn from_intern_cfg_joins_several_exits() {
    // 1 -> 2, 1 -> 3: two nodes without a way out get a common accepting state
    let c = cfg(
        &[Node::Literal(1), Node::Literal(2), Node::Literal(3)],
        &[(0, 1), (0, 2)],
        1,
    );
    let mut gnfa = GNFA::from_intern_cfg(c);
    assert_eq!(gnfa.num_states(), 5);
    gnfa.reduce();
    assert_eq!(gnfa.num_states(), 2);
    let c = |a: i32, b: i32| {
        std::sync::Arc::new(RegExp::Concat(
            std::sync::Arc::new(RegExp::Literal(a)),
            std::sync::Arc::new(RegExp::Literal(b)),
        ))
    };
    let expected = RegExp::Alter(c(1, 2), c(1, 3));
    assert!(gnfa.start_to_end().equals(&expected), "{:?}", gnfa.start_to_end());
}

#[test]
fn node_to_re() {
    assert!(Node::Literal(4).to_re().equals(&RegExp::Literal(4)));
    assert!(Node::Var(9).to_re().equals(&RegExp::Var(9)));
    assert!(Node::Extern.to_re().equals(&RegExp::Epsilon));
}

#[test]
fn reduce_by_parsing_cuts_repetitions() {
    let reducer = PathReducer::from_cfgs(one_function(looping_main()), 2);
    let path = vec![1, 2, 2, 2, 2, 3];
    assert_eq!(reducer.reduce(&path, 0, None).unwrap(), vec![1, 2, 2, 2, 3]);
    let reducer = PathReducer::from_cfgs(one_function(looping_main()), 1);
    assert_eq!(reducer.reduce(&path, 0, None).unwrap(), vec![1, 2, 2, 3]);
}

#[test]
fn reduce_empty_path() {
    let reducer = PathReducer::from_cfgs(one_function(looping_main()), 2);
    assert_eq!(reducer.reduce(&[], 0, None).unwrap(), Vec::<i32>::new());
}

#[test]
fn reduce_several_top_level_calls() {
    let reducer = PathReducer::from_cfgs(one_function(looping_main()), 1);
    let path = vec![1, 2, 2, 2, 3, 1, 2, 3];
    assert_eq!(reducer.reduce(&path, 0, None).unwrap(), vec![1, 2, 2, 3, 1, 2, 3]);
}

#[test]
fn reduce_cut_short_path_keeps_what_matched() {
    let reducer = PathReducer::from_cfgs(one_function(looping_main()), 1);
    let path = vec![1, 2, 2, 2];
    assert_eq!(reducer.reduce(&path, 0, None).unwrap(), vec![1, 2, 2]);
}

#[test]
fn reduce_invalid_path() {
    let reducer = PathReducer::from_cfgs(one_function(looping_main()), 2);
    let path = vec![1, 5];
    assert_eq!(reducer.reduce(&path, 0, Some(OnInvalid::FullPath)).unwrap(), vec![1, 5]);
    assert_eq!(reducer.reduce(&path, 0, Some(OnInvalid::EmptyPath)).unwrap(), Vec::<i32>::new());
    match reducer.reduce(&path, 0, None) {
        Err(ReduceError::InvalidPath(m)) => assert_eq!(m, "expected 2 found 5"),
        other => panic!("unexpected {:?}", other),
    }
}

#[test]
fn reduce_through_a_call() {
    let reducer = PathReducer::from_cfgs(calling_program(), 2);
    let path = vec![1, 7, 8, 2];
    assert_eq!(reducer.reduce(&path, 0, None).unwrap(), vec![1, 7, 8, 2]);
}

#[test]
fn reduce_bounds_recursion() {
    let path = vec![7, 7, 7, 8, 8, 8];
    let reducer = PathReducer::from_cfgs(recursive_program(), 1);
    assert_eq!(reducer.reduce(&path, 10, None).unwrap(), vec![7, 8]);
    let reducer = PathReducer::from_cfgs(recursive_program(), 2);
    assert_eq!(reducer.reduce(&path, 10, None).unwrap(), vec![7, 7, 8, 8]);
}

#[test]
fn simple_reduction_drops_loop_rounds() {
    let reducer = PathReducer::from_cfgs(one_function(looping_main()), SIMPLE_REDUCTION_K);
    let path = vec![1, 2, 2, 2, 2, 3];
    assert_eq!(reducer.reduce(&path, 0, None).unwrap(), vec![1, 2, 3]);
}

#[test]
fn simple_reduction_keeps_calls() {
    let reducer = PathReducer::from_cfgs(calling_program(), SIMPLE_REDUCTION_K);
    let path = vec![1, 7, 8, 2];
    assert_eq!(reducer.reduce(&path, 0, None).unwrap(), vec![1, 7, 8, 2]);
}

#[test]
fn simple_reduction_skips_recursive_calls() {
    let reducer = PathReducer::from_cfgs(recursive_program(), SIMPLE_REDUCTION_K);
    let path = vec![7, 7, 8, 8];
    assert_eq!(reducer.reduce(&path, 10, None).unwrap(), vec![7, 8]);
}

#[test]
fn simple_reduction_of_an_unfinished_call() {
    let reducer = PathReducer::from_cfgs(calling_program(), SIMPLE_REDUCTION_K);
    let path = vec![1, 7];
    assert_eq!(reducer.reduce(&path, 0, None).unwrap(), vec![1, 7]);
}

/// Whether `a` is a subsequence of `b`.
fn is_subsequence(a: &[i32], b: &[i32]) -> bool {
    let mut i = 0;
    for x in b {
        if i < a.len() && a[i] == *x {
            i += 1;
        }
    }
    i == a.len()
}

#[test]
fn reductions_are_subsequences() {
    let path = vec![7, 7, 7, 8, 8, 8];
    for k in [1usize, 2, 3] {
        let reducer = PathReducer::from_cfgs(recursive_program(), k);
        let r = reducer.reduce(&path, 10, None).unwrap();
        assert!(is_subsequence(&r, &path));
    }
    let path = vec![1, 2, 2, 2, 2, 3, 1, 2, 3];
    for k in [1usize, 2, SIMPLE_REDUCTION_K] {
        let reducer = PathReducer::from_cfgs(one_function(looping_main()), k);
        let r = reducer.reduce(&path, 0, None).unwrap();
        assert!(is_subsequence(&r, &path));
    }
}

#[test]
fn starts_function_and_mode() {
    let reducer = PathReducer::from_cfgs(calling_program(), 2);
    assert!(reducer.starts_function(1));
    assert!(reducer.starts_function(7));
    assert!(!reducer.starts_function(2));
    assert!(!reducer.uses_simple_reduction());
    let reducer = PathReducer::from_cfgs(calling_program(), SIMPLE_REDUCTION_K);
    assert!(reducer.uses_simple_reduction());
}

#[test]
fn try_from_cfg_checks_the_graph() {
    let mut g: Graph<i32, ()> = Graph::new();
    let v1 = g.add_node(1);
    let v2 = g.add_node(2);
    g.add_edge(v1, v2, ());
    let mut gnfa = GNFA::try_from_cfg(g.clone(), v1.index(), v2.index()).unwrap();
    assert_eq!(gnfa.num_states(), 3);
    gnfa.reduce();
    let expected = RegExp::Concat(
        std::sync::Arc::new(RegExp::Literal(1)),
        std::sync::Arc::new(RegExp::Literal(2)),
    );
    assert!(gnfa.start_to_end().equals(&expected));
    // an exit that is no node of the graph
    assert!(GNFA::try_from_cfg(g.clone(), v1.index(), 7).is_none());
    // two edges from 1 to 2
    let mut parallel = g.clone();
    parallel.add_edge(v1, v2, ());
    assert!(GNFA::try_from_cfg(parallel, v1.index(), v2.index()).is_none());
}

#[test]
fn try_from_intern_cfg_checks_the_graph() {
    let c = cfg(&[Node::Literal(1), Node::Literal(2)], &[(0, 1)], 1);
    let gnfa = GNFA::try_from_intern_cfg(c).unwrap();
    assert_eq!(gnfa.num_states(), 3);
    // every node has a way out
    let c = cfg(&[Node::Literal(1), Node::Literal(2)], &[(0, 1), (1, 0)], 1);
    assert!(GNFA::try_from_intern_cfg(c).is_none());
    // two edges from 1 to 2
    let c = cfg(&[Node::Literal(1), Node::Literal(2)], &[(0, 1), (0, 1)], 1);
    assert!(GNFA::try_from_intern_cfg(c).is_none());
    // an entry that is no node of the graph
    let mut c = cfg(&[Node::Literal(1), Node::Literal(2)], &[(0, 1)], 1);
    c.entry = 5;
    assert!(GNFA::try_from_intern_cfg(c).is_none());
}

#[test]
fn from_cfg_accepts_parallel_edges() {
    let mut g: Graph<i32, ()> = Graph::new();
    let v1 = g.add_node(1);
    let v2 = g.add_node(2);
    g.add_edge(v1, v2, ());
    g.add_edge(v1, v2, ());
    let gnfa = GNFA::from_cfg(g, v1.index(), v2.index());
    assert_eq!(gnfa.num_states(), 3);
    assert_eq!(gnfa.the_graph.edge_count(), 3);
}

#[test]
fn from_intern_cfg_accepts_parallel_edges() {
    // 1 -> 2 twice, 1 -> 3: two exits get a common accepting state
    let c = cfg(
        &[Node::Literal(1), Node::Literal(2), Node::Literal(3)],
        &[(0, 1), (0, 1), (0, 2)],
        1,
    );
    let gnfa = GNFA::from_intern_cfg(c);
    assert_eq!(gnfa.num_states(), 5);
    assert_eq!(gnfa.the_graph.edge_count(), 6);
}

#[test]
fn try_reduce_and_start_to_end_of_a_chain() {
    let c = cfg(&[Node::Literal(1), Node::Literal(2)], &[(0, 1)], 1);
    let mut gnfa = GNFA::try_from_intern_cfg(c).unwrap();
    assert!(gnfa.try_reduce());
    assert_eq!(gnfa.num_states(), 2);
    let expected = RegExp::Concat(
        std::sync::Arc::new(RegExp::Literal(1)),
        std::sync::Arc::new(RegExp::Literal(2)),
    );
    assert!(gnfa.try_start_to_end().unwrap().equals(&expected));
}

#[test]
fn try_reduce_stops_before_joining_an_empty_arrow() {
    // 7 -> 5 -> extern -> 9 and 7 -> extern: ripping 5 would join the way
    // 7 5 with the empty arrow from 7 into the extern call
    let mut c = cfg(
        &[Node::Literal(5), Node::Extern, Node::Literal(7), Node::Literal(9)],
        &[(2, 0), (0, 1), (2, 1), (1, 3)],
        3,
    );
    c.entry = 2;
    let mut gnfa = GNFA::try_from_intern_cfg(c).unwrap();
    assert!(!gnfa.try_reduce());
    assert_eq!(gnfa.num_states(), 5);
}

#[test]
fn try_start_to_end_without_an_arrow() {
    // before any rip there is no arrow from the start to the accepting state
    let c = cfg(&[Node::Literal(1), Node::Literal(2)], &[(0, 1)], 1);
    let gnfa = GNFA::try_from_intern_cfg(c).unwrap();
    assert!(gnfa.try_start_to_end().is_none());
}

#[test]
fn try_from_cfgs_builds_where_from_cfgs_can() {
    let reducer = PathReducer::try_from_cfgs(calling_program(), 2).unwrap();
    assert_eq!(reducer.reduce(&[1, 7, 8, 2], 0, None).unwrap(), vec![1, 7, 8, 2]);
}

#[test]
fn try_from_cfgs_refuses_two_functions_with_one_first_block() {
    let mut cfgs = calling_program();
    cfgs.insert(20, cfg(&[Node::Literal(7), Node::Literal(9)], &[(0, 1)], 1));
    assert!(PathReducer::try_from_cfgs(cfgs, 2).is_none());
}

#[test]
fn try_from_cfgs_refuses_a_call_at_the_entry() {
    let mut cfgs = calling_program();
    cfgs.insert(30, cfg(&[Node::Var(10), Node::Literal(9)], &[(0, 1)], 1));
    assert!(PathReducer::try_from_cfgs(cfgs, 2).is_none());
}

#[test]
fn try_from_cfgs_refuses_parallel_edges() {
    let cfgs = one_function(cfg(&[Node::Literal(1), Node::Literal(2)], &[(0, 1), (0, 1)], 1));
    assert!(PathReducer::try_from_cfgs(cfgs, 2).is_none());
}
