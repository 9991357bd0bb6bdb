use graph_search::graph::{Graph, GraphError, MAX_WEIGHT, POS_MAX};

fn square_graph() -> Graph {
    // Four vertices in a line plus one expensive shortcut: 0-1-2-3 at 1.0
    // each (scaled to 1000 units) and 0-3 at 5.0.
    let records = vec![(0, 1, 1000u64), (1, 2, 1000), (2, 3, 1000), (0, 3, 5000)];
    let positions = vec![(0u32, 0u32); 4];
    Graph::from_edge_list(&records, positions).unwrap()
}

#[test]
fn cheap_detour_beats_direct_edge() {
    let g = square_graph();
    assert_eq!(g.shortest_path_dijkstras(0, 3), Some(3000));
    assert_ne!(g.shortest_path_dijkstras(0, 3), Some(5000));
}

#[test]
fn all_variants_agree_on_square() {
    let g = square_graph();
    for to in 0..4u32 {
        let d = g.shortest_path_dijkstras(0, to);
        assert_eq!(g.shortest_path_bfs(0, to), d);
        assert_eq!(g.shortest_path_bfs_heuristic(0, to), d);
        assert_eq!(g.shortest_path_a_star(0, to), d);
    }
}

#[test]
fn search_to_self_is_zero() {
    let g = square_graph();
    assert_eq!(g.shortest_path_bfs(2, 2), Some(0));
    assert_eq!(g.shortest_path_dijkstras(2, 2), Some(0));
    assert_eq!(g.shortest_path_a_star(2, 2), Some(0));
    assert_eq!(g.shortest_path_bfs_heuristic(2, 2), Some(0));
}

#[test]
fn disconnected_components_unreachable() {
    // {0,1} and {2,3} with no cross edges.
    let records = vec![(0, 1, 100u64), (2, 3, 100)];
    let positions = vec![(0u32, 0u32); 4];
    let g = Graph::from_edge_list(&records, positions).unwrap();
    assert_eq!(g.shortest_path_bfs(0, 2), None);
    assert_eq!(g.shortest_path_bfs_heuristic(0, 2), None);
    assert_eq!(g.shortest_path_dijkstras(0, 2), None);
    assert_eq!(g.shortest_path_a_star(0, 2), None);
    assert_eq!(g.shortest_path_dijkstras(0, 1), Some(100));
}

#[test]
fn no_self_loops_and_zero_convention() {
    let g = square_graph();
    for v in 0..4u32 {
        assert!(!g.is_edge(v, v));
        assert_eq!(g.get_edge(v, v), 0);
    }
    // a missing edge also reads as weight zero
    assert!(!g.is_edge(1, 3));
    assert_eq!(g.get_edge(1, 3), 0);
    // an out-of-range endpoint has no edges
    assert!(!g.is_edge(99, 0));
    assert_eq!(g.get_edge(99, 0), 0);
}

#[test]
fn edges_are_symmetric() {
    let g = square_graph();
    for a in 0..4u32 {
        for b in 0..4u32 {
            assert_eq!(g.is_edge(a, b), g.is_edge(b, a));
            assert_eq!(g.get_edge(a, b), g.get_edge(b, a));
        }
    }
    assert!(g.is_edge(3, 0));
    assert_eq!(g.get_edge(3, 0), 5000);
}

#[test]
fn vertex_and_half_edge_counts() {
    let g = square_graph();
    assert_eq!(g.vertex_count(), 4);
    assert_eq!(g.half_edge_count(), 8);
}

#[test]
fn later_records_overwrite_earlier_ones() {
    let records = vec![(0, 1, 500u64), (0, 1, 700)];
    let g = Graph::from_edge_list(&records, Vec::new()).unwrap();
    assert_eq!(g.get_edge(0, 1), 700);
    let records = vec![(0, 1, 500u64), (1, 0, 900)];
    let g = Graph::from_edge_list(&records, Vec::new()).unwrap();
    assert_eq!(g.get_edge(0, 1), 900);
    assert_eq!(g.half_edge_count(), 2);
}

#[test]
fn vertex_count_follows_largest_id() {
    let records = vec![(2, 7, 10u64)];
    let g = Graph::from_edge_list(&records, Vec::new()).unwrap();
    assert_eq!(g.vertex_count(), 8);
    assert_eq!(g.shortest_path_dijkstras(2, 7), Some(10));
    assert_eq!(g.shortest_path_dijkstras(2, 5), None);
}

#[test]
fn malformed_records_are_refused() {
    let r = Graph::from_edge_list(&vec![(1, 1, 5u64)], Vec::new());
    assert!(matches!(r, Err(GraphError::SelfLoop)));
    let r = Graph::from_edge_list(&vec![(0, 1, MAX_WEIGHT + 1)], Vec::new());
    assert!(matches!(r, Err(GraphError::WeightTooLarge)));
    let r = Graph::from_edge_list(&vec![(0, 1, 5u64)], vec![(0, 0)]);
    assert!(matches!(r, Err(GraphError::PositionCountMismatch)));
    let r = Graph::from_edge_list(&vec![(0, 1, 5u64)], vec![(0, 0), (POS_MAX + 1, 0)]);
    assert!(matches!(r, Err(GraphError::CoordTooLarge)));
}

#[test]
fn empty_record_list_builds_empty_graph() {
    let g = Graph::from_edge_list(&Vec::new(), Vec::new()).unwrap();
    assert_eq!(g.vertex_count(), 0);
    assert_eq!(g.half_edge_count(), 0);
}
