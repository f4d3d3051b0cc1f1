use pgm_rust::edge::Edge;
use pgm_rust::edgetype::EdgeType;
use pgm_rust::error::GraphError;
use pgm_rust::graph::Graph;
use pgm_rust::node::Node;
use pgm_rust::ops::{
    edge_by_id, edges_by_vertices, edges_of, get_subgraph_by_vertices, incoming_edges_of, is_adjacent_of, is_in,
    is_neighbor_of, is_node_incident, neighbors_of, outgoing_edges_of, to_adjacencylist, to_adjmat, vertex_by_id,
    EdgePolicy,
};
use std::collections::{HashMap, HashSet};

fn mk_node(n_id: &str) -> Node {
    Node::new(n_id.to_string(), HashMap::new())
}

fn mk_uedge(n1_id: &str, n2_id: &str, e_id: &str) -> Edge {
    Edge::empty(e_id, EdgeType::Undirected, n1_id, n2_id)
}

fn mk_data_uedge(n1_id: &str, n2_id: &str, e_id: &str) -> Edge {
    let mut h1 = HashMap::new();
    h1.insert(String::from("my"), vec![String::from("data")]);
    Edge::undirected(e_id.to_string(), mk_node(n1_id), mk_node(n2_id), h1)
}

/// edges n1-n2, n2-n3; nodes n1..n4
fn mk_g1() -> Graph {
    let e1 = mk_data_uedge("n1", "n2", "e1");
    let e2 = mk_data_uedge("n2", "n3", "e2");
    let nset = vec![
        e1.start().clone(),
        e1.end().clone(),
        e2.start().clone(),
        e2.end().clone(),
        mk_node("n4"),
    ];
    let mut h1 = HashMap::new();
    h1.insert(String::from("my"), vec![String::from("data")]);
    Graph::new("g1".to_string(), h1, nset, vec![e1, e2])
}

/// edges n1-n3, n2-n3, n2-n4; nodes n1..n5
fn mk_g2() -> Graph {
    let edges = vec![mk_uedge("n1", "n3", "e1"), mk_uedge("n2", "n3", "e2"), mk_uedge("n2", "n4", "e3")];
    let nset = vec!["n1", "n2", "n3", "n4", "n5"].into_iter().map(mk_node).collect();
    Graph::new("g1".to_string(), HashMap::new(), nset, edges)
}

fn edge_set(es: &[Edge]) -> HashSet<Edge> {
    es.iter().cloned().collect()
}

fn node_set(ns: &[Node]) -> HashSet<Node> {
    ns.iter().cloned().collect()
}

#[test]
fn test_is_in_true() {
    let g1 = mk_g1();
    let n1 = mk_node("n1");
    assert!(is_in(&g1, &n1));
}

#[test]
fn test_is_in_false() {
    let g1 = mk_g1();
    let n1 = mk_node("n55");
    assert!(!is_in(&g1, &n1));
}

#[test]
fn is_in_finds_edges_and_isolated_nodes() {
    let g1 = mk_g1();
    assert!(is_in(&g1, &mk_uedge("x", "y", "e2")));
    assert!(is_in(&g1, &mk_node("n4")));
}

#[test]
fn test_is_adjacent_of_true() {
    let g = mk_g1();
    let e2 = mk_data_uedge("n2", "n3", "e2");
    let e1 = mk_data_uedge("n1", "n2", "e1");
    assert!(is_adjacent_of(&g, &e1, &e2).unwrap());
}

#[test]
fn test_is_adjacent_of_false() {
    let g = mk_g1();
    let e2 = mk_data_uedge("n2", "n3", "e2");
    let e1 = mk_data_uedge("n4", "n1", "e1");
    assert!(!is_adjacent_of(&g, &e1, &e2).unwrap());
}

#[test]
fn is_adjacent_of_an_edge_outside_fails() {
    let g = mk_g1();
    let e2 = mk_data_uedge("n2", "n3", "e2");
    let e9 = mk_data_uedge("n2", "n3", "e9");
    assert_eq!(is_adjacent_of(&g, &e9, &e2), Err(GraphError::NotInGraph));
    assert_eq!(is_adjacent_of(&g, &e2, &e2), Ok(false));
}

#[test]
fn test_is_node_incident() {
    let n1 = Node::empty("n1");
    let n2 = Node::empty("n2");
    let e1 = Edge::empty("e1", EdgeType::Undirected, "n1", "n2");
    let e2 = Edge::empty("e2", EdgeType::Undirected, "n1", "n1");
    let g = mk_g1();
    assert!(is_node_incident(&g, &e1, &n1).unwrap());
    assert!(!is_node_incident(&g, &e2, &n2).unwrap());
}

#[test]
fn is_node_incident_outside_fails() {
    let g = mk_g1();
    let e1 = Edge::empty("e1", EdgeType::Undirected, "n1", "n2");
    assert_eq!(is_node_incident(&g, &e1, &Node::empty("n77")), Err(GraphError::NotInGraph));
}

#[test]
fn test_is_neighbor_of_true() {
    let g1 = mk_g1();
    let n2 = mk_node("n2");
    let n3 = mk_node("n3");
    assert!(is_neighbor_of(&g1, &n2, &n3).unwrap());
}

#[test]
fn test_is_neighbor_of_false() {
    let g1 = mk_g1();
    let n1 = mk_node("n1");
    let n3 = mk_node("n3");
    assert!(!is_neighbor_of(&g1, &n1, &n3).unwrap());
}

#[test]
fn test_edges_of() {
    let g = mk_g1();
    let n2 = Node::empty("n2");
    let hset = edges_of(&g, &n2);
    assert_eq!(edge_set(&hset), edge_set(g.edges()));
}

#[test]
fn test_outgoing_edges_of() {
    let g = mk_g1();
    let n2 = Node::empty("n2");
    let hset = outgoing_edges_of(&g, &n2);
    assert_eq!(edge_set(&hset), edge_set(&[mk_uedge("n2", "n3", "e2")]));
}

#[test]
fn test_incoming_edges_of() {
    let g = mk_g1();
    let n2 = Node::empty("n2");
    let hset = incoming_edges_of(&g, &n2);
    assert_eq!(edge_set(&hset), edge_set(&[mk_uedge("n1", "n2", "e1")]));
}

#[test]
fn edges_of_a_non_vertex_is_empty() {
    let g = mk_g1();
    assert!(edges_of(&g, &Node::empty("zz")).is_empty());
    assert!(edges_of(&g, &Node::empty("e1")).is_empty());
    assert!(edges_by_vertices(&g, &Node::empty("e1"), &Node::empty("n2")).is_empty());
    assert!(edges_of(&g, &Node::empty("n4")).is_empty());
    assert_eq!(edges_by_vertices(&g, &Node::empty("n2"), &Node::empty("n1")).len(), 1);
}

#[test]
fn test_edge_by_vertices() {
    let g = mk_g1();
    let n2 = Node::empty("n2");
    let n1 = Node::empty("n1");
    let hset = edges_by_vertices(&g, &n1, &n2);
    assert_eq!(edge_set(&hset), edge_set(&[mk_uedge("n1", "n2", "e1")]));
}

#[test]
fn test_edge_by_id() {
    let g = mk_g1();
    let e = edge_by_id(&g, "e2").unwrap();
    assert_eq!(e.start_node.id, "n2");
    assert_eq!(e.end_node.id, "n3");
    assert_eq!(edge_by_id(&g, "e7"), Err(GraphError::EdgeNotFound));
}

#[test]
fn test_to_adjacencylist() {
    let g = mk_g2();
    let alst: HashMap<String, Option<HashSet<String>>> = to_adjacencylist(&g)
        .into_iter()
        .map(|(k, v)| (k, v.map(|ids| ids.into_iter().collect())))
        .collect();
    let refset = |es: Vec<&str>| -> HashSet<String> { es.into_iter().map(|s| s.to_string()).collect() };
    let mut comp = HashMap::new();
    comp.insert("n5".to_string(), None);
    comp.insert("n4".to_string(), Some(refset(vec!["e3"])));
    comp.insert("n3".to_string(), Some(refset(vec!["e1", "e2"])));
    comp.insert("n2".to_string(), Some(refset(vec!["e2", "e3"])));
    comp.insert("n1".to_string(), Some(refset(vec!["e1"])));
    assert_eq!(comp, alst);
}

#[test]
fn test_to_adjmat() {
    let ae = mk_uedge("a", "e", "ae");
    let af = mk_uedge("a", "f", "af");
    let ef = mk_uedge("e", "f", "ef");
    let nset = vec!["a", "b", "f", "e"].into_iter().map(mk_node).collect();
    let g1 = Graph::new("g1".to_string(), HashMap::new(), nset, vec![ae, af, ef]);
    let amat: HashMap<(String, String), bool> =
        to_adjmat(&g1).into_iter().map(|(a, b, v)| ((a, b), v)).collect();
    let mut comp = HashMap::new();
    let mut put = |a: &str, b: &str, v: bool| {
        comp.insert((a.to_string(), b.to_string()), v);
    };
    put("b", "b", false);
    put("b", "e", false);
    put("b", "f", false);
    put("b", "a", false);
    put("e", "b", false);
    put("e", "e", false);
    put("e", "f", true);
    put("e", "a", true);
    put("f", "b", false);
    put("f", "e", true);
    put("f", "f", false);
    put("f", "a", true);
    put("a", "b", false);
    put("a", "e", true);
    put("a", "f", true);
    put("a", "a", false);
    assert_eq!(amat, comp);
}

#[test]
fn test_get_subgraph_by_vertices_default_edge_policy() {
    let g1 = mk_g2();
    let nrefset = vec![mk_node("n1"), mk_node("n2"), mk_node("n4")];
    let (nodes, edges) = get_subgraph_by_vertices(&g1, &nrefset, None);
    assert_eq!(node_set(&nodes), node_set(&nrefset));
    assert_eq!(edge_set(&edges), edge_set(&[mk_uedge("n2", "n4", "e3")]));
}

#[test]
fn test_get_subgraph_by_vertices_inclusive_edge_policy() {
    let g1 = mk_g2();
    let nrefset = vec![mk_node("n1"), mk_node("n3")];
    let (nodes, edges) = get_subgraph_by_vertices(&g1, &nrefset, Some(EdgePolicy::EitherEnd));
    assert_eq!(node_set(&nodes), node_set(&nrefset));
    assert_eq!(edge_set(&edges), edge_set(&[mk_uedge("n1", "n3", "e1"), mk_uedge("n2", "n3", "e2")]));
}

#[test]
fn subgraph_taken_twice_is_taken_once() {
    let g1 = mk_g2();
    let s = vec![mk_node("n2"), mk_node("n3"), mk_node("n4"), mk_node("n9")];
    let (n1, e1) = get_subgraph_by_vertices(&g1, &s, None);
    let g2 = Graph::new("sub".to_string(), HashMap::new(), n1.clone(), e1.clone());
    let (n2, e2) = get_subgraph_by_vertices(&g2, &s, None);
    assert_eq!(node_set(&n2), node_set(&n1));
    assert_eq!(edge_set(&e2), edge_set(&e1));
    assert_eq!(node_set(&n1), node_set(&[mk_node("n2"), mk_node("n3"), mk_node("n4")]));
}

#[test]
fn test_vertex_by_id() {
    let g = mk_g2();
    let n2 = mk_node("n2");
    assert_eq!(n2, vertex_by_id(&g, "n2").unwrap());
    assert_eq!(vertex_by_id(&g, "n42"), Err(GraphError::VertexNotFound));
}

#[test]
fn test_neighbors_of_true() {
    let g = mk_g2();
    let n2 = mk_node("n2");
    let ns = neighbors_of(&g, &n2).unwrap();
    assert_eq!(node_set(&ns), node_set(&[mk_node("n3"), mk_node("n4")]));
}

#[test]
fn test_neighbors_of_false() {
    let g = mk_g2();
    let n2 = mk_node("n2");
    let n1 = mk_node("n1");
    let ns = neighbors_of(&g, &n2).unwrap();
    assert_ne!(node_set(&ns), node_set(&[n1]));
}

#[test]
fn neighbors_of_a_stranger_fails() {
    let g = mk_g2();
    assert_eq!(neighbors_of(&g, &mk_node("q")), Err(GraphError::NotInGraph));
    assert_eq!(neighbors_of(&g, &mk_node("n5")), Ok(Vec::new()));
}
