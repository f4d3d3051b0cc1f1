use pgm_rust::edge::Edge;
use pgm_rust::edgetype::EdgeType;
use pgm_rust::graph::Graph;
use pgm_rust::node::Node;
use pgm_rust::ops::is_empty;
use pgm_rust::traits::{Identified, Named};
use std::collections::{HashMap, HashSet};

fn mk_node(n_id: &str) -> Node {
    Node::new(n_id.to_string(), HashMap::new())
}

fn mk_nodes(ns: Vec<&str>) -> Vec<Node> {
    ns.into_iter().map(mk_node).collect()
}

fn mk_uedge(n1_id: &str, n2_id: &str, e_id: &str) -> Edge {
    let n1 = mk_node(n1_id);
    let n2 = mk_node(n2_id);
    let mut h1 = HashMap::new();
    h1.insert(String::from("my"), vec![String::from("data")]);
    Edge::undirected(e_id.to_string(), n1, n2, h1)
}

fn mk_g(g_id: &str) -> Graph {
    let nodes = mk_nodes(vec!["n1", "n2", "n3", "n4"]);
    let edges = vec![mk_uedge("n1", "n2", "e1"), mk_uedge("n2", "n3", "e2")];
    Graph::new(g_id.to_string(), HashMap::new(), nodes, edges)
}

fn node_set(ns: Vec<Node>) -> HashSet<Node> {
    ns.into_iter().collect()
}

fn edge_set(es: &[Edge]) -> HashSet<Edge> {
    es.iter().cloned().collect()
}

#[test]
fn test_vertices() {
    let g = mk_g("g1");
    let vs = node_set(g.vertices());
    let nodes = node_set(mk_nodes(vec!["n1", "n2", "n3", "n4"]));
    assert_eq!(nodes, vs);
}

#[test]
fn test_edges() {
    let g = mk_g("g1");
    let es = edge_set(g.edges());
    let edges = edge_set(&[mk_uedge("n1", "n2", "e1"), mk_uedge("n2", "n3", "e2")]);
    assert_eq!(edges, es);
}

#[test]
fn test_from_graphish_ref() {
    let g1 = mk_g("g1");
    let g2 = mk_g("g1");
    let g = Graph::from_graphish_ref(&g1);
    assert_eq!(g.id(), g2.id());
    assert_eq!(node_set(g.vertices()), node_set(g2.vertices()));
    assert_eq!(edge_set(g.edges()), edge_set(g2.edges()));
}

#[test]
fn test_from_graphish() {
    let g1 = mk_g("g1");
    let g2 = mk_g("g1");
    let g = Graph::from_graphish(g1);
    assert_eq!(g.id(), g2.id());
    assert_eq!(node_set(g.vertices()), node_set(g2.vertices()));
    assert_eq!(edge_set(g.edges()), edge_set(g2.edges()));
}

#[test]
fn test_from_edgeset() {
    let edges = vec![mk_uedge("n1", "n2", "e1"), mk_uedge("n2", "n3", "e2")];
    let g1 = Graph::from_edgeset(edges.clone());
    let nodes = node_set(mk_nodes(vec!["n1", "n2", "n3"]));
    assert_eq!(node_set(g1.vertices()), nodes);
    assert_eq!(edge_set(g1.edges()), edge_set(&edges));
}

#[test]
fn test_from_edge_node_set() {
    let ns = mk_nodes(vec!["n1", "n2", "n3", "n4"]);
    let e1 = mk_uedge("n1", "n2", "e1");
    let e2 = mk_uedge("n2", "n3", "e2");
    let g = Graph::from_edge_node_set(vec![e1.clone(), e2.clone()], ns.clone());
    assert_eq!(node_set(g.vertices()), node_set(ns));
    assert_eq!(edge_set(g.edges()), edge_set(&[e1, e2]));
}

#[test]
fn test_based_on_node_set() {
    let nodes = mk_nodes(vec!["n2", "n3"]);
    let edges = vec![mk_uedge("n1", "n2", "e1"), mk_uedge("n2", "n3", "e2")];
    let g = Graph::based_on_node_set(edges, nodes.clone());
    assert_eq!(node_set(g.vertices()), node_set(nodes));
    assert_eq!(edge_set(g.edges()), edge_set(&[mk_uedge("n2", "n3", "e2")]));
}

#[test]
fn test_is_empty_true() {
    let g = Graph::from_edgeset(Vec::new());
    assert!(is_empty(&g));
    assert!(g.vertices().is_empty());
}

#[test]
fn test_is_empty_false() {
    let g = Graph::from_edgeset(vec![mk_uedge("n1", "n2", "e1")]);
    assert!(!is_empty(&g));
}

#[test]
fn graph_keeps_the_first_edge_of_an_identifier() {
    let a = Edge::empty("e", EdgeType::Directed, "a", "b");
    let b = Edge::empty("e", EdgeType::Directed, "c", "d");
    let g = Graph::new("g".to_string(), HashMap::new(), Vec::new(), vec![a, b]);
    assert_eq!(g.edges().len(), 1);
    assert_eq!(g.edges()[0].start_node.id(), "a");
    assert_eq!(node_set(g.vertices()), node_set(mk_nodes(vec!["a", "b"])));
}

#[test]
fn graph_does_not_store_an_end_as_isolated() {
    let g = Graph::new(
        "g".to_string(),
        HashMap::new(),
        mk_nodes(vec!["n1", "n9"]),
        vec![mk_uedge("n1", "n2", "e1")],
    );
    assert_eq!(g.nodes.len(), 1);
    assert_eq!(g.vertices().len(), 3);
}

#[test]
fn fresh_graph_identifiers_are_uuid_shaped_and_differ() {
    let g1 = Graph::from_edgeset(Vec::new());
    let g2 = Graph::from_edgeset(Vec::new());
    assert_eq!(g1.id().len(), 36);
    assert_ne!(g1.id(), g2.id());
}

#[test]
fn graph_empty_and_text() {
    let g = Graph::empty("g0");
    assert_eq!(g.id(), "g0");
    assert!(is_empty(&g));
    assert_eq!(g.to_text(), "<Graph id='g0'/>");
    assert_eq!(g.name(), "Graph");
}

#[test]
fn graph_from_references_copies_nodes_and_edges() {
    let nodes = mk_nodes(vec!["n1", "n4"]);
    let edges = vec![mk_uedge("n1", "n2", "e1"), mk_uedge("n2", "n3", "e2")];
    let g = Graph::new_refs("g".to_string(), HashMap::new(), &nodes, &edges);
    assert_eq!(node_set(g.vertices()), node_set(mk_nodes(vec!["n1", "n2", "n3", "n4"])));
    assert_eq!(edge_set(g.edges()), edge_set(&edges));
    assert_eq!(nodes.len(), 2);
}

#[test]
fn graph_from_edge_and_node_references() {
    let nodes = mk_nodes(vec!["n7"]);
    let edges = vec![mk_uedge("n1", "n2", "e1")];
    let g = Graph::from_edge_node_refs_set(&edges, &nodes);
    assert_eq!(node_set(g.vertices()), node_set(mk_nodes(vec!["n1", "n2", "n7"])));
    assert_eq!(g.id().len(), 36);
}
