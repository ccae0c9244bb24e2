use dstructs::bfs::BFS;
use dstructs::graph::GraphOps;
use dstructs::graph::MGraph;
use dstructs::graph::Weight;

#[test]
fn test_mgraph_add_node() {
    let mut graph = MGraph::new();

    let id1 = graph.add_node("A");
    let id2 = graph.add_node("B");
    let id3 = graph.add_node("C");

    assert_eq!(id1, 0);
    assert_eq!(id2, 1);
    assert_eq!(id3, 2);
    assert_eq!(graph.vertex_count(), 3);
}

#[test]
fn test_mgraph_get_data() {
    let mut graph = MGraph::new();

    let id1 = graph.add_node("Node1");
    let id2 = graph.add_node("Node2");

    assert_eq!(graph.get_data(id1), Some(&"Node1"));
    assert_eq!(graph.get_data(id2), Some(&"Node2"));
    assert_eq!(graph.get_data(999), None);
}

#[test]
fn test_mgraph_add_edge() {
    let mut graph = MGraph::new();

    let id1 = graph.add_node("A");
    let id2 = graph.add_node("B");
    let id3 = graph.add_node("C");

    graph.add_edge(id1, id2, 10);
    graph.add_edge(id1, id3, 20);
    graph.add_edge(id2, id3, 5);

    assert_eq!(graph.edge[id1][id2], Weight::Value(10));
    assert_eq!(graph.edge[id1][id3], Weight::Value(20));
    assert_eq!(graph.edge[id2][id3], Weight::Value(5));
    assert_eq!(graph.edge[id2][id1], Weight::Infinity);
}

#[test]
fn test_graphops_vertex_count() {
    let mut graph = MGraph::new();

    assert_eq!(graph.vertex_count(), 0);

    graph.add_node("A");
    graph.add_node("B");

    assert_eq!(graph.vertex_count(), 2);
}

#[test]
fn test_graphops_first_neighbor() {
    let mut graph = MGraph::new();

    let id1 = graph.add_node("A");
    let id2 = graph.add_node("B");
    let id3 = graph.add_node("C");

    graph.add_edge(id1, id2, 10);
    graph.add_edge(id1, id3, 20);

    assert_eq!(graph.first_neighbor(id1), Some(id2));
    assert_eq!(graph.first_neighbor(id2), None);
}

#[test]
fn test_graphops_next_neighbor() {
    let mut graph = MGraph::new();

    let id1 = graph.add_node("A");
    let id2 = graph.add_node("B");
    let id3 = graph.add_node("C");
    let id4 = graph.add_node("D");

    graph.add_edge(id1, id2, 10);
    graph.add_edge(id1, id3, 20);
    graph.add_edge(id1, id4, 30);

    let first = graph.first_neighbor(id1).unwrap();
    assert_eq!(first, id2);

    let second = graph.next_neighbor(id1, first).unwrap();
    assert_eq!(second, id3);

    let third = graph.next_neighbor(id1, second).unwrap();
    assert_eq!(third, id4);

    let fourth = graph.next_neighbor(id1, third);
    assert_eq!(fourth, None);
}

#[test]
fn test_bfs_traverse_simple() {
    let mut graph = MGraph::new();

    let id0 = graph.add_node("0");
    let id1 = graph.add_node("1");
    let id2 = graph.add_node("2");
    let id3 = graph.add_node("3");

    graph.add_edge(id0, id1, 1);
    graph.add_edge(id0, id2, 1);
    graph.add_edge(id1, id3, 1);

    let visited_order = graph.bfs_traverse(id0);

    assert_eq!(visited_order, vec![id0, id1, id2, id3]);
}

#[test]
fn test_bfs_traverse_complex() {
    let mut graph = MGraph::new();

    let id0 = graph.add_node("0");
    let id1 = graph.add_node("1");
    let id2 = graph.add_node("2");
    let id3 = graph.add_node("3");
    let id4 = graph.add_node("4");

    graph.add_edge(id0, id1, 1);
    graph.add_edge(id0, id2, 1);
    graph.add_edge(id1, id3, 1);
    graph.add_edge(id2, id4, 1);

    let visited_order = graph.bfs_traverse(id0);

    assert_eq!(visited_order, vec![id0, id1, id2, id3, id4]);
}

#[test]
fn test_bfs_traverse_with_data_access() {
    let mut graph = MGraph::new();

    let id0 = graph.add_node("Start");
    let id1 = graph.add_node("Middle");
    let id2 = graph.add_node("End");

    graph.add_edge(id0, id1, 1);
    graph.add_edge(id1, id2, 1);

    let mut visited_data = Vec::new();
    for id in graph.bfs_traverse(id0) {
        if let Some(data) = graph.get_data(id) {
            visited_data.push(*data);
        }
    }

    assert_eq!(visited_data, vec!["Start", "Middle", "End"]);
}

#[test]
fn test_weight_comparison() {
    assert_eq!(Weight::Value(10), Weight::Value(10));
    assert_ne!(Weight::Value(10), Weight::Value(20));
    assert_ne!(Weight::Value(10), Weight::Infinity);
}

#[test]
fn test_empty_graph() {
    let graph: MGraph<&str> = MGraph::new();

    assert_eq!(graph.vertex_count(), 0);
    assert_eq!(graph.first_neighbor(0), None);
}

#[test]
fn test_disconnected_graph() {
    let mut graph = MGraph::new();

    let id0 = graph.add_node("A");
    let id1 = graph.add_node("B");
    let id2 = graph.add_node("C");

    graph.add_edge(id0, id1, 1);
    graph.add_edge(id1, id0, 1);

    let visited = graph.bfs_traverse(id0);

    assert_eq!(visited, vec![id0, id1]);
    assert!(!visited.contains(&id2));
}

#[test]
fn test_new_graph_matrix_all_infinity() {
    let mut graph = MGraph::new();

    graph.add_node("A");
    graph.add_node("B");
    graph.add_node("C");

    assert_eq!(graph.edge.len(), 3);
    for row in &graph.edge {
        assert_eq!(row.len(), 3);
        for cell in row {
            assert_eq!(*cell, Weight::Infinity);
        }
    }
}

#[test]
fn test_add_edge_out_of_range_is_ignored() {
    let mut graph = MGraph::new();

    let id0 = graph.add_node("A");
    let id1 = graph.add_node("B");
    graph.add_edge(id0, id1, 7);

    graph.add_edge(5, id1, 1);
    graph.add_edge(id0, 5, 1);
    graph.add_edge(9, 9, 1);

    assert_eq!(graph.edge[id0][id1], Weight::Value(7));
    assert_eq!(graph.edge[id0][id0], Weight::Infinity);
    assert_eq!(graph.edge[id1][id0], Weight::Infinity);
    assert_eq!(graph.edge[id1][id1], Weight::Infinity);
    assert_eq!(graph.edge.len(), 2);
}

#[test]
fn test_bfs_empty_graph_reports_only_start() {
    let graph: MGraph<&str> = MGraph::new();

    let visited = graph.bfs_traverse(0);

    assert_eq!(visited, vec![0]);
}

#[test]
fn test_bfs_out_of_range_start_reports_only_start() {
    let mut graph = MGraph::new();

    let id0 = graph.add_node("A");
    let id1 = graph.add_node("B");
    graph.add_edge(id0, id1, 1);

    let visited = graph.bfs_traverse(42);

    assert_eq!(visited, vec![42]);
}

#[test]
fn test_neighbor_scan_in_ascending_order() {
    let mut graph = MGraph::new();

    let a = graph.add_node("A");
    let b = graph.add_node("B");
    let c = graph.add_node("C");

    graph.add_edge(a, b, 10);
    graph.add_edge(a, c, 20);

    assert_eq!(graph.first_neighbor(a), Some(b));
    assert_eq!(graph.next_neighbor(a, b), Some(c));
    assert_eq!(graph.next_neighbor(a, c), None);
}

#[test]
fn test_bfs_layers_break_ties_by_identifier() {
    let mut graph = MGraph::new();

    let id0 = graph.add_node(0);
    let id1 = graph.add_node(1);
    let id2 = graph.add_node(2);
    let id3 = graph.add_node(3);

    graph.add_edge(id0, id3, 1);
    graph.add_edge(id0, id1, 1);
    graph.add_edge(id3, id2, 1);
    graph.add_edge(id1, id2, 1);

    let visited = graph.bfs_traverse(id0);

    assert_eq!(visited, vec![id0, id1, id3, id2]);
}
