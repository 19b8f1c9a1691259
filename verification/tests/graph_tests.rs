use graph_analytics::graph::Graph;

#[test]
fn tests_test_graph_construction() {
    let mut graph = Graph::new();
    graph.add_edge(1, 2);
    graph.add_edge(1, 3);

    assert_eq!(graph.neighbors(1), vec![2, 3]);
}

#[test]
fn tests_test_bfs_visits_correct_nodes() {
    let mut graph = Graph::new();
    graph.add_edge(1, 2);
    graph.add_edge(1, 3);
    graph.add_edge(2, 4);
    graph.add_edge(3, 5);

    let visited_count = graph.bfs(1);
    assert_eq!(visited_count, 5);
}

#[test]
fn tests_test_degree_centrality() {
    let mut graph = Graph::new();
    graph.add_edge(1, 2);
    graph.add_edge(1, 3);
    graph.add_edge(2, 3);

    let centrality = graph.calculate_degree_centrality();
    assert_eq!(centrality.get(1), 2);
    assert_eq!(centrality.get(2), 2);
    assert_eq!(centrality.get(3), 2);
}
