use graph_analytics::graph::Graph;

#[test]
fn duplicate_edges_are_preserved() {
    let mut graph = Graph::new();
    graph.add_edge(1, 2);
    graph.add_edge(1, 2);
    graph.add_edge(1, 3);

    let neighbors = graph.neighbors(1);
    assert_eq!(neighbors, vec![2, 2, 3]);
    assert_eq!(neighbors.iter().filter(|&&v| v == 2).count(), 2);
}

#[test]
fn neighbors_of_non_source_is_empty() {
    let mut graph = Graph::new();
    graph.add_edge(1, 2);

    assert_eq!(graph.neighbors(2), Vec::<u32>::new());
    assert_eq!(graph.neighbors(99), Vec::<u32>::new());
}

#[test]
fn bfs_order_follows_insertion_order() {
    let mut graph = Graph::new();
    graph.add_edge(1, 2);
    graph.add_edge(1, 3);
    graph.add_edge(2, 4);
    graph.add_edge(3, 5);

    assert_eq!(graph.bfs_order(1), vec![1, 2, 3, 4, 5]);
}

#[test]
fn bfs_never_revisits_on_cycle() {
    let mut graph = Graph::new();
    graph.add_edge(1, 2);
    graph.add_edge(2, 1);
    graph.add_edge(2, 3);

    assert_eq!(graph.bfs_order(1), vec![1, 2, 3]);
    assert_eq!(graph.bfs(1), 3);
}

#[test]
fn bfs_from_non_source_returns_zero() {
    let mut graph = Graph::new();
    graph.add_edge(1, 2);

    // Vertex 2 occurs only as a destination; vertex 99 not at all.
    assert_eq!(graph.bfs(2), 0);
    assert_eq!(graph.bfs(99), 0);
    assert_eq!(graph.bfs_order(99), Vec::<u32>::new());
}

#[test]
fn bfs_on_self_loop() {
    let mut graph = Graph::new();
    graph.add_edge(1, 1);

    assert_eq!(graph.neighbors(1), vec![1]);
    assert_eq!(graph.bfs(1), 1);
}

#[test]
fn vertex_count_counts_distinct_sources() {
    let mut graph = Graph::new();
    assert_eq!(graph.vertex_count(), 0);
    graph.add_edge(1, 2);
    graph.add_edge(1, 3);
    graph.add_edge(2, 4);
    graph.add_edge(3, 5);

    // Sources are 1, 2 and 3; 4 and 5 occur only as destinations.
    assert_eq!(graph.vertex_count(), 3);
    assert_eq!(graph.edge_count(), 4);
}

#[test]
fn centrality_sum_is_twice_edge_count() {
    let mut graph = Graph::new();
    graph.add_edge(1, 2);
    graph.add_edge(1, 2);
    graph.add_edge(2, 3);
    graph.add_edge(3, 1);
    graph.add_edge(4, 4);

    let table = graph.calculate_degree_centrality();
    assert_eq!(table.total(), 2 * graph.edge_count());
}

#[test]
fn centrality_keys_cover_sources_and_destinations() {
    let mut graph = Graph::new();
    graph.add_edge(1, 2);
    graph.add_edge(3, 4);

    let table = graph.calculate_degree_centrality();
    assert_eq!(table.len(), 4);
    assert!(table.contains_key(1));
    assert!(table.contains_key(2));
    assert!(table.contains_key(3));
    assert!(table.contains_key(4));
    assert!(!table.contains_key(5));
    assert_eq!(table.get(5), 0);
}

#[test]
fn self_loop_counts_in_and_out() {
    let mut graph = Graph::new();
    graph.add_edge(1, 1);

    let table = graph.calculate_degree_centrality();
    assert_eq!(table.get(1), 2);
    assert_eq!(table.total(), 2);
    assert_eq!(table.len(), 1);
}

#[test]
fn duplicate_edges_count_in_centrality() {
    let mut graph = Graph::new();
    graph.add_edge(1, 2);
    graph.add_edge(1, 2);

    let table = graph.calculate_degree_centrality();
    assert_eq!(table.get(1), 2);
    assert_eq!(table.get(2), 2);
    assert_eq!(table.total(), 4);
}

#[test]
fn average_centrality_scenario() {
    // Edges {(1,2),(1,3),(2,3)}: every vertex scores 2, so the mean is 2.0.
    let mut graph = Graph::new();
    graph.add_edge(1, 2);
    graph.add_edge(1, 3);
    graph.add_edge(2, 3);

    let table = graph.calculate_degree_centrality();
    assert_eq!(table.total(), 6);
    assert_eq!(table.len(), 3);
    let average = table.total() as f64 / table.len() as f64;
    assert!((average - 2.0).abs() < 1e-12);
}

#[test]
fn empty_table_average_guard() {
    let graph = Graph::new();
    let table = graph.calculate_degree_centrality();
    assert!(table.is_empty());
    assert_eq!(table.len(), 0);
    assert_eq!(table.total(), 0);
}
