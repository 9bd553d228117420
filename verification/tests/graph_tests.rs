use pagerank::graph::Graph;
use pagerank::graph::GraphError;

#[test]
fn accepts_valid_graph() {
    let g = Graph::new(vec![vec![1, 2], vec![0], vec![0, 3], vec![0], vec![0, 1]]).unwrap();
    assert_eq!(g.node_count(), 5);
    assert_eq!(g.out_degree(0), 2);
    assert_eq!(g.out_degree(1), 1);
    assert_eq!(g.target(0, 1), 2);
    assert_eq!(g.target(4, 0), 0);
}

#[test]
fn accepts_self_loops_and_duplicate_edges() {
    let g = Graph::new(vec![vec![0, 0], vec![0, 1, 1]]).unwrap();
    assert_eq!(g.node_count(), 2);
    assert_eq!(g.out_degree(0), 2);
    assert_eq!(g.out_degree(1), 3);
}

#[test]
fn accepts_empty_graph() {
    let g = Graph::new(vec![]).unwrap();
    assert_eq!(g.node_count(), 0);
}

#[test]
fn rejects_edge_target_equal_to_node_count() {
    let r = Graph::new(vec![vec![1]]);
    assert_eq!(r.err(), Some(GraphError::OutOfRangeEdge));
}

#[test]
fn rejects_edge_target_beyond_node_count() {
    let r = Graph::new(vec![vec![0, 7], vec![0]]);
    assert_eq!(r.err(), Some(GraphError::OutOfRangeEdge));
}

#[test]
fn rejects_bad_edge_in_later_node() {
    let r = Graph::new(vec![vec![1], vec![2]]);
    assert_eq!(r.err(), Some(GraphError::OutOfRangeEdge));
}
