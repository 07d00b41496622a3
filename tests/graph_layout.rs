use gram::graph::layout::{assign_ranks, build_adjacency_graph, rank_nodes};
use gram::graph::parser::parse;

#[test]
fn ranks_of_a_dag_increase_along_edges() {
    let graph = parse("a -> b\na -> c\nb -> d\nc -> d\nd -> e").unwrap();
    let ranks = rank_nodes(&graph).unwrap();
    let names: Vec<&str> = graph.nodes.iter().map(|s| s.as_str()).collect();
    assert_eq!(names, vec!["a", "b", "c", "d", "e"]);
    assert_eq!(ranks, vec![0, 1, 1, 2, 3]);
    for e in &graph.edges {
        let f = graph.nodes.iter().position(|n| *n == e.from).unwrap();
        let t = graph.nodes.iter().position(|n| *n == e.to).unwrap();
        assert!(ranks[f] < ranks[t]);
    }
}

#[test]
fn rank_is_longest_path_layer() {
    let graph = parse("x -> y\ny -> z\nx -> z").unwrap();
    assert_eq!(rank_nodes(&graph).unwrap(), vec![0, 1, 2]);
}

#[test]
fn adjacency_lists_targets_in_edge_order() {
    let graph = parse("a -> c\nb -> a\na -> b").unwrap();
    let adjacency = build_adjacency_graph(&graph);
    assert_eq!(adjacency, vec![vec![1, 2], vec![], vec![0]]);
}

#[test]
fn cycle_leaves_nodes_unranked_and_is_reported() {
    let graph = parse("a -> b\nb -> c\nc -> b\nc -> d").unwrap();
    let adjacency = build_adjacency_graph(&graph);
    let ranks = assign_ranks(&graph, &adjacency);
    assert_eq!(ranks, vec![Some(0), None, None, None]);
    assert!(ranks.iter().filter(|r| r.is_some()).count() < graph.nodes.len());
    let err = rank_nodes(&graph).unwrap_err();
    assert_eq!(err.message, "Graph has a cycle");
}

#[test]
fn self_loop_is_a_cycle() {
    let graph = parse("a -> a").unwrap();
    assert!(rank_nodes(&graph).is_err());
}
