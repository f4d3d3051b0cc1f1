use pgm_rust::node::{Node, Vertices};
use pgm_rust::traits::{GraphObject, IdChanger, Identified, LoadChanger, Loaded, Named};
use std::collections::hash_map::DefaultHasher;
use std::collections::{HashMap, HashSet};
use std::hash::{Hash, Hasher};

fn sample_data() -> HashMap<String, Vec<String>> {
    HashMap::from([
        ("meta".to_string(), vec!["version".to_string()]),
        (
            "info".to_string(),
            vec!["user_a".to_string(), "active".to_string()],
        ),
    ])
}

fn create_sample_node() -> Node {
    Node::new("n1".to_string(), sample_data())
}

fn awesome_data() -> HashMap<String, Vec<String>> {
    let mut my_map: HashMap<String, Vec<String>> = HashMap::new();
    let myv = vec![
        String::from("awesome"),
        String::from("string"),
        String::from("stuff"),
    ];
    my_map.insert(String::from("my"), myv);
    my_map
}

#[test]
fn test_node_new() {
    let node = Node::new("n_test".to_string(), sample_data());
    assert_eq!(node.id, "n_test");
    assert_eq!(node.data, sample_data());
}

#[test]
fn test_node_from_id() {
    let node = Node::from_id("n_empty");
    assert_eq!(node.id, "n_empty");
    assert!(node.data.is_empty());
}

#[test]
fn test_node_from_nodish_ref() {
    let dummy = Node::from_id("d1");
    let node = Node::from_nodish_ref(&dummy);
    assert_eq!(node.id, "d1");
    assert!(node.data.is_empty());
}

#[test]
fn test_node_from_nodish() {
    let dummy = Node::from_id("d2");
    let node = Node::from_nodish(dummy);
    assert_eq!(node.id, "d2");
}

#[test]
fn test_node_id() {
    let node = create_sample_node();
    assert_eq!(node.id(), "n1");
}

#[test]
fn test_node_data() {
    let node = create_sample_node();
    assert_eq!(node.data(), &sample_data());
}

#[test]
fn test_node_null() {
    let null_node = Node::null();
    assert_eq!(null_node.id, "");
    assert!(null_node.data.is_empty());
}

#[test]
fn test_node_set_id() {
    let base = create_sample_node();
    let modified = base.set_id("n_modified");
    assert_eq!(modified.id(), "n_modified");
    assert_eq!(modified.data, base.data, "Data should be cloned");
    assert_ne!(base.id(), modified.id(), "IDs must differ");
}

#[test]
fn test_node_set_data() {
    let base = create_sample_node();
    let new_data = HashMap::from([("config".to_string(), vec!["true".to_string()])]);
    let modified = base.set_data(new_data);
    assert_eq!(
        modified.data,
        HashMap::from([("config".to_string(), vec!["true".to_string()])])
    );
    assert_eq!(modified.id(), base.id());
}

#[test]
fn test_node_display() {
    let node = Node::from_id("n_fmt");
    assert_eq!(node.to_text(), "<Node id='n_fmt'/>");
}

#[test]
fn test_node_hash_eq_based_on_id() {
    let data1 = HashMap::from([("k".to_string(), vec!["v1".to_string()])]);
    let data2 = HashMap::from([("k".to_string(), vec!["v2".to_string()])]);
    let node1 = Node::new("same_id".to_string(), data1.clone());
    let node2 = Node::new("same_id".to_string(), data2.clone());
    let node3 = Node::new("diff_id".to_string(), data1.clone());
    assert_eq!(
        node1, node2,
        "Nodes with same ID but different data must be equal."
    );
    assert_ne!(
        node1, node3,
        "Nodes with different ID but same data must not be equal."
    );
    let mut hasher1 = DefaultHasher::new();
    node1.hash(&mut hasher1);
    let hash1 = hasher1.finish();
    let mut hasher2 = DefaultHasher::new();
    node2.hash(&mut hasher2);
    let hash2 = hasher2.finish();
    assert_eq!(
        hash1, hash2,
        "Hashing must be identical because IDs are identical."
    );
    let mut set = HashSet::new();
    set.insert(node1.clone());
    set.insert(node2.clone());
    assert_eq!(set.len(), 1, "Set holds one element for one identifier.");
}

#[test]
fn test_vertices_members() {
    let n1 = Node::from_id("v1");
    let n2 = Node::from_id("v2");
    let vertices = Vertices {
        vertex_set: vec![n1.clone(), n2.clone()],
    };
    let members = vertices.members();
    assert_eq!(members.len(), 2);
    assert!(members.contains(&n1));
    assert!(members.contains(&n2));
}

#[test]
fn test_vertices_create() {
    let d1 = Node::from_id("d_a");
    let d2 = Node::from_id("d_b");
    let vertices = Vertices::create(&vec![d1.clone(), d2.clone()]);
    assert_eq!(vertices.vertex_set.len(), 2);
    assert!(vertices.vertex_set.contains(&d1));
    assert!(vertices.vertex_set.contains(&d2));
}

#[test]
fn vertices_create_keeps_one_node_per_identifier() {
    let d1 = Node::from_id("d_a");
    let d2 = Node::new("d_a".to_string(), sample_data());
    let vertices = Vertices::create(&vec![d1, d2]);
    assert_eq!(vertices.vertex_set.len(), 1);
    assert!(vertices.vertex_set[0].data.is_empty());
}

#[test]
fn node_test_id() {
    let my_node = Node::new(String::from("mnode"), HashMap::new());
    assert_eq!(my_node.id(), &String::from("mnode"));
}

#[test]
fn node_test_data() {
    let my_node = Node::new(String::from("mnode"), awesome_data());
    assert_eq!(my_node.data(), &awesome_data());
}

#[test]
fn node_test_from_nodish_ref() {
    let my_node = Node::new(String::from("mnode"), awesome_data());
    let n2 = Node::from_nodish_ref(&my_node);
    assert_eq!(my_node, n2);
    assert_eq!(my_node.data, n2.data);
}

#[test]
fn node_test_from_nodish() {
    let my_node = Node::new(String::from("mnode"), awesome_data());
    let n1 = my_node.clone();
    let n2 = Node::from_nodish(my_node);
    assert_eq!(n1, n2);
}

#[test]
fn node2_test_id() {
    let my_node = Node::new(String::from("mnode"), HashMap::new());
    assert_eq!(my_node.id(), "mnode");
}

#[test]
fn node2_test_data() {
    let my_node = Node::new(String::from("mnode"), awesome_data());
    let mut my_map2: HashMap<String, Vec<String>> = HashMap::new();
    my_map2.insert(
        "my".to_string(),
        vec!["awesome".to_string(), "string".to_string(), "stuff".to_string()],
    );
    assert_eq!(my_node.data(), &my_map2);
}

#[test]
fn node2_test_from_nodish_ref() {
    let my_node = Node::new(String::from("mnode"), awesome_data());
    let n2 = Node::from_nodish_ref(&my_node);
    assert_eq!(my_node, n2);
}

#[test]
fn node2_test_from_nodish() {
    let my_node = Node::new(String::from("mnode"), awesome_data());
    let n1 = my_node.clone();
    let n2 = Node::from_nodish(my_node);
    assert_eq!(n1, n2);
}

#[test]
fn node_empty_and_name() {
    let n = Node::empty("x");
    assert_eq!(n.id(), "x");
    assert!(n.data().is_empty());
    assert_eq!(n.name(), "Node");
    assert!(n.same_id(&Node::from_id("x")));
    assert!(!n.same_id(&Node::from_id("y")));
}
