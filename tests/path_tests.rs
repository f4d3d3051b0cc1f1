use pgm_rust::edge::Edge;
use pgm_rust::edgetype::EdgeType;
use pgm_rust::error::GraphError;
use pgm_rust::node::Node;
use pgm_rust::path::{get_end_vertices_and_nodes, Path};
use std::collections::{HashMap, HashSet};

fn mk_node(n_id: &str) -> Node {
    Node::new(n_id.to_string(), HashMap::new())
}

fn mk_uedge(n1_id: &str, n2_id: &str, e_id: &str) -> Edge {
    let mut h1 = HashMap::new();
    h1.insert(String::from("my"), vec![String::from("data")]);
    Edge::undirected(e_id.to_string(), mk_node(n1_id), mk_node(n2_id), h1)
}

/// n1 - n2 - n3 - n4 - n5 - n6 - n7
fn mk_path() -> Path {
    let es = vec![
        mk_uedge("n1", "n2", "e1"),
        mk_uedge("n2", "n3", "e2"),
        mk_uedge("n3", "n4", "e3"),
        mk_uedge("n4", "n5", "e4"),
        mk_uedge("n5", "n6", "e5"),
        mk_uedge("n6", "n7", "e6"),
    ];
    Path::create("mpath".to_string(), HashMap::new(), es).unwrap()
}

#[test]
fn path_test_id() {
    let p = mk_path();
    assert_eq!(p.id(), "mpath");
}

#[test]
fn test_length() {
    let p = mk_path();
    assert_eq!(p.length(), 6);
}

#[test]
fn test_endvertices() {
    let p = mk_path();
    let n1 = mk_node("n1");
    let n7 = mk_node("n7");
    assert_eq!(p.ends, (n1.clone(), n7.clone()));
    assert_eq!(p.endvertices(), (&n1, &n7));
}

#[test]
fn path_without_edges_is_empty_input() {
    assert!(matches!(Path::create("p".to_string(), HashMap::new(), Vec::new()), Err(GraphError::EmptyInput)));
}

#[test]
fn cycle_is_no_path() {
    let es = vec![mk_uedge("a", "b", "e1"), mk_uedge("b", "c", "e2"), mk_uedge("c", "a", "e3")];
    assert!(matches!(Path::create("p".to_string(), HashMap::new(), es), Err(GraphError::MalformedPath)));
}

#[test]
fn star_is_no_path() {
    let es = vec![mk_uedge("c", "a", "e1"), mk_uedge("c", "b", "e2"), mk_uedge("c", "d", "e3")];
    assert!(matches!(get_end_vertices_and_nodes(&es), Err(GraphError::MalformedPath)));
    assert!(matches!(Path::create("p".to_string(), HashMap::new(), es), Err(GraphError::MalformedPath)));
}

#[test]
fn end_vertices_and_nodes_of_a_path() {
    let es = vec![mk_uedge("x", "y", "e1"), mk_uedge("y", "z", "e2")];
    let (ends, all) = get_end_vertices_and_nodes(&es).unwrap();
    let ends: HashSet<String> = ends.into_iter().map(|n| n.id).collect();
    let all: HashSet<String> = all.into_iter().map(|n| n.id).collect();
    assert_eq!(ends, ["x", "z"].iter().map(|s| s.to_string()).collect());
    assert_eq!(all, ["x", "y", "z"].iter().map(|s| s.to_string()).collect());
}

#[test]
fn end_vertices_of_no_edges_is_empty_input() {
    assert!(matches!(get_end_vertices_and_nodes(&Vec::new()), Err(GraphError::EmptyInput)));
    let cycle = vec![mk_uedge("a", "b", "e1"), mk_uedge("b", "a", "e2")];
    assert!(matches!(get_end_vertices_and_nodes(&cycle), Err(GraphError::MalformedPath)));
}
