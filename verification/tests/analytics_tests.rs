use graph_analytics::graph::Graph;

#[test]
fn main_test_graph_construction() {
    // Test if the graph is built correctly
    let mut graph = Graph::new();
    graph.add_edge(1, 2);
    graph.add_edge(1, 3);

    assert_eq!(graph.neighbors(1), vec![2, 3]);
}

#[test]
fn main_test_bfs_visits_correct_nodes() {
    // Test BFS traversal to ensure all connected nodes are visited
    let mut graph = Graph::new();
    graph.add_edge(1, 2);
    graph.add_edge(1, 3);
    graph.add_edge(2, 4);
    graph.add_edge(3, 5);

    let visited_count = graph.bfs(1);
    assert_eq!(visited_count, 5); // 5 nodes in the connected component
}

#[test]
fn main_test_degree_centrality() {
    // Test calculation of degree centrality
    let mut graph = Graph::new();
    graph.add_edge(1, 2);
    graph.add_edge(1, 3);
    graph.add_edge(2, 3);

    let degree_centrality = graph.calculate_degree_centrality();

    assert_eq!(degree_centrality.get(1), 2); // Node 1 has two outgoing edges
    assert_eq!(degree_centrality.get(2), 2); // Node 2 has 1 out-degree, 1 in-degree
    assert_eq!(degree_centrality.get(3), 2); // Node 3 has 2 in-degrees
}

#[test]
fn test_empty_graph() {
    // Test behavior on an empty graph
    let graph = Graph::new();
    let degree_centrality = graph.calculate_degree_centrality();
    let visited_count = graph.bfs(1);

    assert!(degree_centrality.is_empty()); // Centrality table should be empty
    assert_eq!(visited_count, 0); // BFS should visit 0 nodes
}

#[test]
fn test_disconnected_graph() {
    // Test behavior on a disconnected graph
    let mut graph = Graph::new();
    graph.add_edge(1, 2);
    graph.add_edge(3, 4);

    let visited_count_from_1 = graph.bfs(1);
    let visited_count_from_3 = graph.bfs(3);

    assert_eq!(visited_count_from_1, 2); // Component starting at 1 has 2 nodes
    assert_eq!(visited_count_from_3, 2); // Component starting at 3 has 2 nodes
}
