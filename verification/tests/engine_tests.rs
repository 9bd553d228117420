use pagerank::engine::ConfigError;
use pagerank::engine::PageRank;
use pagerank::graph::Graph;
use pagerank::model::SCALE;

fn sports_graph() -> Graph {
    // node0 ESPN, node1 NFL, node2 NBA, node3 UFC, node4 MLB.
    Graph::new(vec![vec![1, 2], vec![0], vec![0, 3], vec![0], vec![0, 1]]).unwrap()
}

fn l1_distance(a: &[u64], b: &[u64]) -> u64 {
    assert_eq!(a.len(), b.len());
    let mut d: u64 = 0;
    for i in 0..a.len() {
        d += a[i].abs_diff(b[i]);
    }
    d
}

#[test]
fn rejects_zero_damping() {
    let r = PageRank::new(0, 10);
    assert_eq!(r.err(), Some(ConfigError::InvalidDamping));
}

#[test]
fn rejects_damping_of_one_or_more() {
    assert_eq!(PageRank::new(1_000_000, 10).err(), Some(ConfigError::InvalidDamping));
    assert_eq!(PageRank::new(2_000_000, 10).err(), Some(ConfigError::InvalidDamping));
}

#[test]
fn accepts_damping_strictly_inside_unit_interval() {
    assert!(PageRank::new(1, 0).is_ok());
    assert!(PageRank::new(850_000, 100).is_ok());
    assert!(PageRank::new(999_999, 3).is_ok());
}

#[test]
fn zero_iterations_gives_uniform_vector() {
    let g = Graph::new(vec![vec![], vec![], vec![]]).unwrap();
    let engine = PageRank::new(850_000, 0).unwrap();
    let r = engine.rank(&g);
    assert_eq!(r, vec![333_333_333, 333_333_333, 333_333_333]);
}

#[test]
fn empty_graph_ranks_to_empty_vector() {
    let g = Graph::new(vec![]).unwrap();
    let engine = PageRank::new(850_000, 100).unwrap();
    assert_eq!(engine.rank(&g), Vec::<u64>::new());
}

#[test]
fn single_self_loop_keeps_full_rank() {
    let g = Graph::new(vec![vec![0]]).unwrap();
    for iterations in [0u64, 1, 7, 100] {
        let engine = PageRank::new(850_000, iterations).unwrap();
        assert_eq!(engine.rank(&g), vec![SCALE]);
    }
}

#[test]
fn total_mass_stays_close_to_one() {
    let g = sports_graph();
    let engine = PageRank::new(850_000, 100).unwrap();
    let r = engine.rank(&g);
    let total: u64 = r.iter().sum();
    assert!(total <= SCALE);
    assert!(total >= SCALE - 10_000);
}

#[test]
fn ranking_is_deterministic() {
    let g = sports_graph();
    let engine = PageRank::new(850_000, 100).unwrap();
    let first = engine.rank(&g);
    let second = engine.rank(&g);
    assert_eq!(first, second);
}

#[test]
fn doubling_iterations_does_not_move_the_vector_farther() {
    let g = sports_graph();
    let at = |k: u64| PageRank::new(850_000, k).unwrap().rank(&g);
    let r40 = at(40);
    let r80 = at(80);
    let r160 = at(160);
    let d1 = l1_distance(&r40, &r80);
    let d2 = l1_distance(&r80, &r160);
    assert!(d2 <= d1);
}

#[test]
fn sports_graph_ranks_espn_highest() {
    let g = sports_graph();
    let engine = PageRank::new(850_000, 100).unwrap();
    let r = engine.rank(&g);
    assert_eq!(r.len(), 5);
    for i in 1..5 {
        assert!(r[0] > r[i]);
    }
    // Node 4 receives no incoming links, so after any full iteration its
    // rank is exactly the teleport share (1 - 0.85) / 5 = 0.03.
    assert_eq!(r[4], 30_000_000);
}

#[test]
fn dangling_node_mass_is_redistributed_uniformly() {
    // Node 0 has no outgoing edges; its mass is split over both nodes.
    let g = Graph::new(vec![vec![], vec![0]]).unwrap();
    let engine = PageRank::new(850_000, 1).unwrap();
    let r = engine.rank(&g);
    assert_eq!(r, vec![712_500_000, 287_500_000]);
    assert_eq!(r.iter().sum::<u64>(), SCALE);
}

#[test]
fn duplicate_edges_accumulate_additively() {
    let g = Graph::new(vec![vec![1, 1], vec![0]]).unwrap();
    let engine = PageRank::new(850_000, 1).unwrap();
    let r = engine.rank(&g);
    assert_eq!(r, vec![500_000_000, 500_000_000]);
}

#[test]
fn every_node_keeps_at_least_the_teleport_share() {
    let g = sports_graph();
    let engine = PageRank::new(850_000, 100).unwrap();
    let r = engine.rank(&g);
    // (1 - 0.85) / 5 of the mass, in SCALE units.
    for value in r {
        assert!(value >= 30_000_000);
    }
}

#[test]
fn engine_reports_its_configuration() {
    let engine = PageRank::new(850_000, 100).unwrap();
    assert_eq!(engine.damping_parts_per_million(), 850_000);
    assert_eq!(engine.iteration_count(), 100);
}

#[test]
fn engine_is_reusable_across_graphs() {
    let engine = PageRank::new(850_000, 10).unwrap();
    let g1 = Graph::new(vec![vec![0]]).unwrap();
    let g2 = sports_graph();
    assert_eq!(engine.rank(&g1), vec![SCALE]);
    assert_eq!(engine.rank(&g2).len(), 5);
    assert_eq!(engine.rank(&g1), vec![SCALE]);
}
