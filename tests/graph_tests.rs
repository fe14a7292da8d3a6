use rae_core_rust::{Direction, InMemoryGraphStore};
use uuid::Uuid;

fn fresh() -> u128 {
    Uuid::new_v4().as_u128()
}

#[test]
fn test_graph_basic() {
    let mut graph = InMemoryGraphStore::new();
    let tenant_id = "test_tenant";

    let id1 = fresh();
    let id2 = fresh();

    assert!(graph.create_node(id1, "Memory", tenant_id, None), "Failed to create node 1");
    assert!(graph.create_node(id2, "Reflection", tenant_id, None), "Failed to create node 2");

    assert!(
        graph.create_edge(id1, id2, "supports", tenant_id, 0.8f32.to_bits(), None),
        "Failed to create edge"
    );

    let neighbors = graph.get_neighbors(id1, tenant_id, None, "both", 1);
    assert_eq!(neighbors.len(), 1);
    assert_eq!(neighbors[0], id2);
}

#[test]
fn test_shortest_path() {
    let mut graph = InMemoryGraphStore::new();
    let tenant_id = "test_tenant";

    let a = fresh();
    let b = fresh();
    let c = fresh();
    let d = fresh();

    graph.create_node(a, "T", tenant_id, None);
    graph.create_node(b, "T", tenant_id, None);
    graph.create_node(c, "T", tenant_id, None);
    graph.create_node(d, "T", tenant_id, None);

    graph.create_edge(a, b, "L", tenant_id, 1.0f32.to_bits(), None);
    graph.create_edge(b, c, "L", tenant_id, 1.0f32.to_bits(), None);
    graph.create_edge(c, d, "L", tenant_id, 1.0f32.to_bits(), None);

    let path = graph.shortest_path(a, d, tenant_id, 5);
    assert!(path.is_some(), "Failed to find path");
    let path = path.unwrap();
    assert_eq!(path.len(), 4);
    assert_eq!(path, vec![a, b, c, d]);
}

fn chain() -> (InMemoryGraphStore, [u128; 4]) {
    let mut graph = InMemoryGraphStore::new();
    let ids = [1u128, 2, 3, 4];
    for id in ids {
        graph.create_node(id, "T", "t", None);
    }
    graph.create_edge(1, 2, "L", "t", 0, None);
    graph.create_edge(2, 3, "L", "t", 0, None);
    graph.create_edge(3, 4, "L", "t", 0, None);
    (graph, ids)
}

#[test]
fn shortest_path_depth_bound() {
    let (graph, [a, _, _, d]) = chain();
    assert_eq!(graph.shortest_path(a, d, "t", 2), None);
    assert_eq!(graph.shortest_path(a, d, "t", 3), None);
    assert_eq!(graph.shortest_path(a, d, "t", 4), Some(vec![1, 2, 3, 4]));
    assert_eq!(graph.shortest_path(a, 2, "t", 2), Some(vec![1, 2]));
    assert_eq!(graph.shortest_path(a, 2, "t", 1), None);
    assert_eq!(graph.shortest_path(a, d, "t", 0), None);
}

#[test]
fn shortest_path_same_endpoint() {
    let graph = InMemoryGraphStore::new();
    assert_eq!(graph.shortest_path(7, 7, "t", 0), Some(vec![7]));
}

#[test]
fn shortest_path_walks_edges_backwards_and_stays_in_tenant() {
    let (mut graph, _) = chain();
    assert_eq!(graph.shortest_path(4, 1, "t", 10), Some(vec![4, 3, 2, 1]));
    assert_eq!(graph.shortest_path(1, 4, "other", 10), None);
    graph.create_edge(1, 4, "shortcut", "t", 0, None);
    assert_eq!(graph.shortest_path(1, 4, "t", 10), Some(vec![1, 4]));
}

#[test]
fn shortest_path_unreachable() {
    let (mut graph, _) = chain();
    graph.create_edge(8, 9, "L", "t", 0, None);
    assert_eq!(graph.shortest_path(1, 9, "t", 100), None);
}

#[test]
fn neighbors_follow_direction() {
    let mut graph = InMemoryGraphStore::new();
    graph.create_edge(1, 2, "L", "t", 0, None);
    assert_eq!(graph.get_neighbors(1, "t", Some("L"), "out", 1), vec![2]);
    assert!(graph.get_neighbors(2, "t", Some("L"), "out", 1).is_empty());
    assert_eq!(graph.get_neighbors(2, "t", Some("L"), "in", 1), vec![1]);
    assert_eq!(graph.get_neighbors(1, "t", Some("L"), "both", 1), vec![2]);
    assert_eq!(graph.get_neighbors(2, "t", Some("L"), "both", 1), vec![1]);
    assert_eq!(graph.get_neighbors(2, "t", None, "sideways", 1), vec![1]);
}

#[test]
fn neighbors_filter_type_tenant_and_duplicates() {
    let mut graph = InMemoryGraphStore::new();
    graph.create_edge(1, 2, "L", "t", 0, None);
    graph.create_edge(1, 2, "M", "t", 0, None);
    graph.create_edge(3, 1, "L", "t", 0, None);
    graph.create_edge(1, 5, "L", "u", 0, None);
    assert_eq!(graph.get_neighbors(1, "t", None, "both", 3), vec![2, 3]);
    assert_eq!(graph.get_neighbors(1, "t", Some("M"), "both", 1), vec![2]);
    assert!(graph.get_neighbors(1, "t", Some("N"), "both", 1).is_empty());
    assert_eq!(graph.get_neighbors(1, "u", None, "out", 1), vec![5]);
    assert!(graph.get_neighbors(1, "nobody", None, "out", 1).is_empty());
}

#[test]
fn direction_words() {
    assert_eq!(Direction::parse("out"), Direction::Out);
    assert_eq!(Direction::parse("in"), Direction::In);
    assert_eq!(Direction::parse("both"), Direction::Both);
    assert_eq!(Direction::parse("OUT"), Direction::Both);
}

#[test]
fn delete_node_cascades_edges() {
    let mut graph = InMemoryGraphStore::new();
    for id in [1u128, 2, 3] {
        graph.create_node(id, "T", "t", None);
    }
    graph.create_edge(1, 2, "L", "t", 0, None);
    graph.create_edge(2, 3, "L", "t", 0, None);
    graph.create_edge(1, 3, "L", "t", 0, None);
    graph.create_edge(1, 2, "L", "u", 0, None);
    assert!(graph.delete_node(2, "t"));
    assert_eq!(graph.get_neighbors(1, "t", None, "both", 1), vec![3]);
    assert_eq!(graph.get_neighbors(3, "t", None, "both", 1), vec![1]);
    assert_eq!(graph.get_neighbors(1, "u", None, "both", 1), vec![2]);
    assert!(!graph.delete_node(2, "t"));
}

#[test]
fn delete_node_cleans_edges_of_missing_node() {
    let mut graph = InMemoryGraphStore::new();
    graph.create_edge(1, 9, "L", "t", 0, None);
    assert!(!graph.delete_node(9, "t"));
    assert!(graph.get_neighbors(1, "t", None, "both", 1).is_empty());
}

#[test]
fn delete_edge_is_directional() {
    let mut graph = InMemoryGraphStore::new();
    graph.create_edge(1, 2, "L", "t", 0, None);
    graph.create_edge(1, 2, "L", "t", 0, None);
    assert!(!graph.delete_edge(2, 1, "L", "t"));
    assert!(!graph.delete_edge(1, 2, "M", "t"));
    assert!(!graph.delete_edge(1, 2, "L", "u"));
    assert_eq!(graph.get_neighbors(1, "t", None, "out", 1), vec![2]);
    assert!(graph.delete_edge(1, 2, "L", "t"));
    assert!(graph.get_neighbors(1, "t", None, "out", 1).is_empty());
}

#[test]
fn subgraph_is_induced() {
    let mut graph = InMemoryGraphStore::new();
    for id in [1u128, 2, 3] {
        graph.create_node(id, "T", "t", None);
    }
    graph.create_edge(1, 2, "L", "t", 0.5f32.to_bits(), None);
    graph.create_edge(1, 3, "L", "t", 0, None);
    let sub = graph.get_subgraph(vec![1, 2, 42], "t", true);
    let ids: Vec<u128> = sub.nodes.iter().map(|n| n.id).collect();
    assert_eq!(ids, vec![1, 2]);
    assert_eq!(sub.edges.len(), 1);
    assert_eq!((sub.edges[0].source_id, sub.edges[0].target_id), (1, 2));
    assert_eq!(f32::from_bits(sub.edges[0].weight_bits), 0.5);

    let bare = graph.get_subgraph(vec![1, 2], "t", false);
    assert_eq!(bare.nodes.len(), 2);
    assert!(bare.edges.is_empty());

    let foreign = graph.get_subgraph(vec![1, 2], "u", true);
    assert!(foreign.nodes.is_empty());
    assert!(foreign.edges.is_empty());
}

#[test]
fn create_node_overwrites() {
    let mut graph = InMemoryGraphStore::new();
    graph.create_node(1, "Memory", "t", None);
    graph.create_node(1, "Reflection", "t", None);
    graph.create_node(1, "Entity", "u", None);
    let sub = graph.get_subgraph(vec![1], "t", false);
    assert_eq!(sub.nodes.len(), 1);
    assert_eq!(sub.nodes[0].node_type, "Reflection");
    let other = graph.get_subgraph(vec![1], "u", false);
    assert_eq!(other.nodes[0].node_type, "Entity");
}

#[test]
fn node_properties_are_kept() {
    let mut graph = InMemoryGraphStore::new();
    let mut props = std::collections::HashMap::new();
    props.insert("k".to_string(), serde_json::Value::from(3));
    graph.create_node(1, "T", "t", Some(props));
    let sub = graph.get_subgraph(vec![1], "t", false);
    assert_eq!(sub.nodes[0].properties.get("k"), Some(&serde_json::Value::from(3)));
}

#[test]
fn shortest_path_ties_follow_edge_order() {
    let mut graph = InMemoryGraphStore::new();
    graph.create_edge(1, 2, "L", "t", 0, None);
    graph.create_edge(1, 3, "L", "t", 0, None);
    graph.create_edge(3, 4, "L", "t", 0, None);
    graph.create_edge(2, 4, "L", "t", 0, None);
    assert_eq!(graph.shortest_path(1, 4, "t", 3), Some(vec![1, 2, 4]));
    assert_eq!(graph.shortest_path(1, 4, "t", 2), None);
    assert_eq!(graph.shortest_path(1, 4, "t", 1), None);
}
