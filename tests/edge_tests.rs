use pgm_rust::edge::{get_other, is_end, is_endvertice, is_start, node_ids, Edge, Edges};
use pgm_rust::edgetype::EdgeType;
use pgm_rust::node::Node;
use pgm_rust::traits::{GraphObject, IdChanger, Identified, LoadChanger, Loaded};
use std::collections::{HashMap, HashSet};

fn mk_uedge() -> Edge {
    let n1 = Node::new(String::from("m1"), HashMap::new());
    let n2 = Node::new(String::from("m2"), HashMap::new());
    let mut h1 = HashMap::new();
    h1.insert(String::from("my"), vec![String::from("data")]);
    Edge::undirected(String::from("uedge"), n1, n2, h1)
}

fn create_mock_node(idstr: &str) -> Node {
    Node::from_id(idstr)
}

fn setup_test_edge() -> Edge {
    let start_node = Node::from_id("n1");
    let end_node = create_mock_node("n2");
    let mut data = HashMap::new();
    data.insert("value".to_string(), vec!["1.5".to_string()]);
    Edge::new("e_test".to_string(), data, EdgeType::Directed, start_node, end_node)
}

#[test]
fn edge_test_id() {
    let e = mk_uedge();
    assert_eq!(e.id(), String::from("uedge"));
}

#[test]
fn test_endvertice_true() {
    let e = mk_uedge();
    let n1 = Node::new(String::from("m1"), HashMap::new());
    assert!(is_endvertice(&e, &n1));
}

#[test]
fn test_endvertice_false() {
    let e = mk_uedge();
    let n1 = Node::new(String::from("m3"), HashMap::new());
    assert!(!is_endvertice(&e, &n1));
}

#[test]
fn test_is_start() {
    let e = mk_uedge();
    let n1 = Node::new(String::from("m1"), HashMap::new());
    assert!(is_start(&e, &n1));
}

#[test]
fn test_is_end() {
    let e = mk_uedge();
    let n2 = Node::new(String::from("m2"), HashMap::new());
    assert!(is_end(&e, &n2));
}

#[test]
fn test_node_ids() {
    let e = mk_uedge();
    let ids: HashSet<String> = node_ids(&e).into_iter().collect();
    let mut h1 = HashSet::new();
    h1.insert("m1".to_string());
    h1.insert("m2".to_string());
    assert_eq!(ids, h1);
}

#[test]
fn node_ids_of_a_loop_has_one_member() {
    let e = Edge::empty("l", EdgeType::Undirected, "a", "a");
    assert_eq!(node_ids(&e), vec!["a".to_string()]);
}

#[test]
fn test_get_other_some() {
    let e = mk_uedge();
    let n2 = Node::new(String::from("m2"), HashMap::new());
    let n1 = Some(Node::new(String::from("m1"), HashMap::new()));
    assert_eq!(get_other(&e, &n2), n1.as_ref());
}

#[test]
fn get_other_from_the_start_gives_the_end() {
    let e = mk_uedge();
    let n1 = Node::from_id("m1");
    assert_eq!(get_other(&e, &n1).map(|n| n.id.clone()), Some("m2".to_string()));
}

#[test]
fn get_other_of_a_stranger_is_absent() {
    let e = Edge::empty("e", EdgeType::Undirected, "n1", "n2");
    let n3 = Node::from_id("n3");
    assert_eq!(get_other(&e, &n3), None);
    assert_eq!(e.get_other(&n3), None);
}

#[test]
fn test_edge_new_and_from_info_constructors() {
    let s_node = create_mock_node("s");
    let e_node = create_mock_node("e");
    let data = HashMap::from([("key".to_string(), vec!["val".to_string()])]);
    let edge = Edge::new(
        "e_f".to_string(),
        data.clone(),
        EdgeType::Undirected,
        s_node.clone(),
        e_node.clone(),
    );
    assert_eq!(edge.id, "e_f");
    assert_eq!(edge.edge_type, EdgeType::Undirected);
    assert_eq!(edge.start_node.id(), "s");
    assert_eq!(edge.end_node.id(), "e");
    let edge_new = Edge::new(
        "e_n".to_string(),
        data.clone(),
        EdgeType::Directed,
        s_node.clone(),
        e_node.clone(),
    );
    assert_eq!(edge_new.id, "e_n");
    assert_eq!(edge_new.edge_type, EdgeType::Directed);
}

#[test]
fn test_edge_undirected_and_directed_constructors() {
    let s_node = create_mock_node("s");
    let e_node = create_mock_node("e");
    let data = HashMap::new();
    let directed_edge = Edge::directed("e_d".to_string(), s_node.clone(), e_node.clone(), data.clone());
    assert_eq!(directed_edge.id, "e_d");
    assert_eq!(directed_edge.edge_type, EdgeType::Directed);
    let undirected_edge = Edge::undirected("e_u".to_string(), s_node, e_node, data);
    assert_eq!(undirected_edge.id, "e_u");
    assert_eq!(undirected_edge.edge_type, EdgeType::Undirected);
}

#[test]
fn test_edge_trait_methods() {
    let edge = setup_test_edge();
    assert_eq!(edge.start().id(), "n1");
    assert_eq!(edge.end().id(), "n2");
    assert_eq!(edge.has_type(), EdgeType::Directed);
}

#[test]
fn test_edge_graph_object_id_and_data() {
    let edge = setup_test_edge();
    assert_eq!(edge.id(), "e_test");
    let data = edge.data();
    assert_eq!(data.get("value").unwrap(), &vec!["1.5".to_string()]);
}

#[test]
fn test_edge_graph_object_null_and_empty() {
    let null_edge = Edge::null();
    assert_eq!(null_edge.id(), "");
    assert_eq!(null_edge.start_node.id(), "");
    let empty_edge = Edge::null();
    assert_eq!(empty_edge.id(), "");
}

#[test]
fn test_edge_graph_object_set_id() {
    let edge = setup_test_edge();
    let new_id = "e_updated";
    let new_edge = edge.set_id(new_id);
    assert_eq!(new_edge.id(), new_id);
    assert_eq!(new_edge.start_node.id(), edge.start_node.id());
    assert_eq!(new_edge.edge_type, edge.edge_type);
}

#[test]
fn test_edge_graph_object_set_data() {
    let edge = setup_test_edge();
    let new_data = HashMap::from([("new_key".to_string(), vec!["new_val".to_string()])]);
    let new_edge = edge.set_data(new_data.clone());
    assert_eq!(new_edge.id(), edge.id());
    let updated_data = new_edge.data();
    assert_eq!(updated_data.get("new_key").unwrap(), &vec!["new_val".to_string()]);
    assert!(!updated_data.contains_key("value"));
}

#[test]
fn test_edge_equality_ignores_nodes_and_data() {
    let s_node1 = create_mock_node("n1");
    let e_node1 = create_mock_node("n2");
    let s_node2 = create_mock_node("n3");
    let e_node2 = create_mock_node("n4");
    let mut data1 = HashMap::new();
    data1.insert("color".to_string(), vec!["red".to_string()]);
    let mut data2 = HashMap::new();
    data2.insert("color".to_string(), vec!["blue".to_string()]);
    let edge_a = Edge::new("id_x".to_string(), data1.clone(), EdgeType::Directed, s_node1.clone(), e_node1.clone());
    let edge_b = Edge::new("id_x".to_string(), data2.clone(), EdgeType::Undirected, s_node2.clone(), e_node2.clone());
    let edge_c = Edge::new("id_y".to_string(), data1, EdgeType::Directed, s_node1.clone(), e_node1.clone());
    assert_eq!(edge_a, edge_b);
    assert_ne!(edge_a, edge_c);
}

#[test]
fn test_edge_display_format() {
    let edge = setup_test_edge();
    let expected =
        "<Edge id='e_test' type='Directed'><start><Node id='n1'/></start><end><Node id='n2'/></end></Edge>";
    assert_eq!(edge.to_text(), expected);
}

#[test]
fn test_edge_from_ids() {
    let edge = Edge::from_ids("e_id", EdgeType::Undirected, "s_id", "e_id");
    assert_eq!(edge.id(), "e_id");
    assert_eq!(edge.start_node.id(), "s_id");
    assert_eq!(edge.end_node.id(), "e_id");
    assert_eq!(edge.edge_type, EdgeType::Undirected);
}

#[test]
fn test_edges_create_and_size() {
    let edge1 = setup_test_edge();
    let edge2 = setup_test_edge().set_id("e_2");
    let edge3 = setup_test_edge().set_id("e_3");
    let edges_set = Edges::create(&vec![edge1, edge2, edge3]);
    assert_eq!(edges_set.edge_set.len(), 3);
    let edge1_in_set = edges_set.edge_set.iter().find(|e| e.id() == "e_test").unwrap();
    assert_eq!(edge1_in_set.id(), "e_test");
}

#[test]
fn test_edges_members_returns_references() {
    let edge1 = setup_test_edge();
    let edge2 = setup_test_edge().set_id("e_2");
    let edges_set = Edges::create(&vec![edge1, edge2]);
    let members = edges_set.members();
    assert_eq!(members.len(), 2);
    assert!(members.iter().any(|e| e.id() == "e_test"));
    assert!(members.iter().any(|e| e.id() == "e_2"));
}

#[test]
fn edges_create_keeps_the_first_edge_of_an_identifier() {
    let first = Edge::empty("e", EdgeType::Directed, "a", "b");
    let second = Edge::empty("e", EdgeType::Directed, "c", "d");
    let edges_set = Edges::create(&vec![first, second]);
    assert_eq!(edges_set.edge_set.len(), 1);
    assert_eq!(edges_set.edge_set[0].start_node.id(), "a");
}

#[test]
fn test_edge_info_new_initializes_correctly() {
    let edge_id = "e_123".to_string();
    let mut data = HashMap::new();
    data.insert("color".to_string(), vec!["blue".to_string()]);
    let edge = Edge::new(edge_id.clone(), data.clone(), EdgeType::Directed, Node::from_id("a"), Node::from_id("b"));
    assert_eq!(edge.id, edge_id);
    assert_eq!(edge.edge_type, EdgeType::Directed);
    assert!(edge.data.contains_key("color"));
    assert_eq!(edge.data.get("color").unwrap(), &vec!["blue".to_string()]);
}

#[test]
fn test_edge_info_null_creates_default_instance() {
    let null_edge = Edge::null();
    assert_eq!(null_edge.id, "", "Null edge ID should be an empty string.");
    assert!(null_edge.data.is_empty(), "Null edge data map should be empty.");
    assert_eq!(null_edge.edge_type, EdgeType::Undirected, "Null edge type should be Undirected.");
}

#[test]
fn test_edge_info_equality_ignores_data_and_type() {
    let mut data_1 = HashMap::new();
    data_1.insert("weight".to_string(), vec!["10".to_string()]);
    let edge_a = Edge::new("same_id".to_string(), data_1, EdgeType::Directed, Node::from_id("a"), Node::from_id("b"));
    let mut data_2 = HashMap::new();
    data_2.insert("weight".to_string(), vec!["5".to_string()]);
    let edge_b = Edge::new("same_id".to_string(), data_2, EdgeType::Undirected, Node::from_id("a"), Node::from_id("b"));
    let edge_c = Edge::new("different_id".to_string(), HashMap::new(), EdgeType::Directed, Node::from_id("a"), Node::from_id("b"));
    assert_eq!(edge_a, edge_b, "Edges with the same ID but different data/type should be equal.");
    assert_ne!(edge_a, edge_c, "Edges with different IDs should not be equal.");
}

#[test]
fn edge_type_text() {
    assert_eq!(EdgeType::Directed.to_text(), "Directed");
    assert_eq!(EdgeType::Undirected.to_text(), "Undirected");
}
