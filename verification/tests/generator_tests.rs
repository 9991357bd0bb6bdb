use graph_search::graph::{Graph, GraphError};

#[test]
fn generated_counts_match_request() {
    let g = Graph::new_random(10, 20).unwrap();
    assert_eq!(g.vertex_count(), 10);
    assert_eq!(g.half_edge_count(), 2 * 20);
}

#[test]
fn generated_graph_is_connected() {
    let g = Graph::new_random(12, 18).unwrap();
    for v in 0..12u32 {
        assert!(g.shortest_path_dijkstras(0, v).is_some());
    }
}

#[test]
fn generated_graph_has_no_self_loops_and_is_symmetric() {
    let g = Graph::new_random(9, 14).unwrap();
    for a in 0..9u32 {
        assert!(!g.is_edge(a, a));
        for b in 0..9u32 {
            assert_eq!(g.is_edge(a, b), g.is_edge(b, a));
            assert_eq!(g.get_edge(a, b), g.get_edge(b, a));
        }
    }
}

#[test]
fn generator_rejects_bad_requests() {
    assert!(matches!(Graph::new_random(5, 3), Err(GraphError::TooFewEdges)));
    assert!(matches!(Graph::new_random_2d(5, 3), Err(GraphError::TooFewEdges)));
    assert!(matches!(Graph::new_random_2d_taxicab(5, 3), Err(GraphError::TooFewEdges)));
    assert!(matches!(Graph::new_random(0, 2), Err(GraphError::EmptyGraph)));
}

#[test]
fn empty_generation_is_allowed() {
    let g = Graph::new_random(0, 0).unwrap();
    assert_eq!(g.vertex_count(), 0);
    assert_eq!(g.half_edge_count(), 0);
}

#[test]
fn planar_variants_store_positions_and_agree_with_dijkstra() {
    let g = Graph::new_random_2d(15, 25).unwrap();
    assert_eq!(g.vertex_count(), 15);
    assert_eq!(g.half_edge_count(), 2 * 25);
    for v in 0..15u32 {
        let d = g.shortest_path_dijkstras(0, v);
        assert!(d.is_some());
        assert_eq!(g.shortest_path_a_star(0, v), d);
        assert_eq!(g.shortest_path_bfs_heuristic(0, v), d);
        assert_eq!(g.shortest_path_bfs(0, v), d);
    }
    let g = Graph::new_random_2d_taxicab(15, 25).unwrap();
    assert_eq!(g.vertex_count(), 15);
    assert_eq!(g.half_edge_count(), 2 * 25);
    for v in 0..15u32 {
        let d = g.shortest_path_dijkstras(0, v);
        assert!(d.is_some());
        assert_eq!(g.shortest_path_a_star(0, v), d);
        assert_eq!(g.shortest_path_bfs_heuristic(0, v), d);
    }
}
