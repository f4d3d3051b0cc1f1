use pgm_rust::edge::Edge;
use pgm_rust::edgetype::EdgeType;
use pgm_rust::graph::Graph;
use pgm_rust::node::Node;
use pgm_rust::setops::{
    contains, contains_edges, contains_node, difference, difference_edge, difference_edges, difference_nodes,
    intersection, intersection_edge, intersection_edges, intersection_nodes, set_op_graph_obj_ref_set,
    set_op_graph_obj_set, symmetric_difference, symmetric_difference_edges, symmetric_difference_node, union_edge,
    union_edges, union_graph, union_nodes, SetOpKind,
};
use std::collections::{HashMap, HashSet};

fn mk_node(n_id: &str) -> Node {
    Node::empty(n_id)
}

fn mk_uedge(n1_id: &str, n2_id: &str, e_id: &str) -> Edge {
    Edge::empty(e_id, EdgeType::Undirected, n1_id, n2_id)
}

fn mk_g1() -> Graph {
    let edges = vec![mk_uedge("n1", "n3", "e1"), mk_uedge("n2", "n3", "e2"), mk_uedge("n2", "n4", "e3")];
    let nset = vec!["n1", "n2", "n3", "n4", "n5"].into_iter().map(mk_node).collect();
    Graph::new("g1".to_string(), HashMap::new(), nset, edges)
}

fn mk_g2() -> Graph {
    let edges = vec![mk_uedge("n1", "n3", "e1"), mk_uedge("n20", "n30", "e2"), mk_uedge("n20", "n40", "e3")];
    let nset = vec!["n1", "n2", "n3", "n20", "n30"].into_iter().map(mk_node).collect();
    Graph::new("g2".to_string(), HashMap::new(), nset, edges)
}

fn ids_n(ns: &[Node]) -> HashSet<String> {
    ns.iter().map(|n| n.id.clone()).collect()
}

fn ids_e(es: &[Edge]) -> HashSet<String> {
    es.iter().map(|e| e.id.clone()).collect()
}

fn set(xs: Vec<&str>) -> HashSet<String> {
    xs.into_iter().map(|s| s.to_string()).collect()
}

#[test]
fn test_set_op_graph_obj_ref_set_union() {
    let (n1, n2, n3) = (Node::empty("n1"), Node::empty("n2"), Node::empty("n3"));
    let set_a = vec![n1.clone(), n2.clone()];
    let set_b = vec![n2.clone(), n3.clone()];
    let result = set_op_graph_obj_ref_set(&set_a, &set_b, SetOpKind::Union);
    assert_eq!(result.len(), 3);
    assert!(result.contains(&n1));
    assert!(result.contains(&n2));
    assert!(result.contains(&n3));
}

#[test]
fn test_set_op_graph_obj_ref_set_intersection() {
    let (n1, n2, n3) = (Node::empty("n1"), Node::empty("n2"), Node::empty("n3"));
    let result = set_op_graph_obj_ref_set(&vec![n1, n2.clone()], &vec![n2.clone(), n3], SetOpKind::Intersection);
    assert_eq!(result.len(), 1);
    assert!(result.contains(&n2));
}

#[test]
fn test_set_op_graph_obj_ref_set_difference() {
    let (n1, n2, n3) = (Node::empty("n1"), Node::empty("n2"), Node::empty("n3"));
    let result = set_op_graph_obj_ref_set(&vec![n1.clone(), n2.clone()], &vec![n2, n3], SetOpKind::Difference);
    assert_eq!(result.len(), 1);
    assert!(result.contains(&n1));
}

#[test]
fn test_set_op_graph_obj_ref_set_symmetric_difference() {
    let (n1, n2, n3) = (Node::empty("n1"), Node::empty("n2"), Node::empty("n3"));
    let result = set_op_graph_obj_ref_set(
        &vec![n1.clone(), n2.clone()],
        &vec![n2.clone(), n3.clone()],
        SetOpKind::SymmetricDifference,
    );
    assert_eq!(result.len(), 2);
    assert!(result.contains(&n1));
    assert!(result.contains(&n3));
    assert!(!result.contains(&n2));
}

#[test]
fn test_set_op_graph_obj_set_union() {
    let (n1, n2, n3) = (Node::empty("n1"), Node::empty("n2"), Node::empty("n3"));
    let result = set_op_graph_obj_set(&vec![n1.clone(), n2.clone()], &vec![n2.clone(), n3.clone()], SetOpKind::Union);
    assert_eq!(result.len(), 3);
    assert!(result.contains(&n1));
    assert!(result.contains(&n2));
    assert!(result.contains(&n3));
}

#[test]
fn test_set_op_graph_obj_set_intersection() {
    let (n1, n2, n3) = (Node::empty("n1"), Node::empty("n2"), Node::empty("n3"));
    let result =
        set_op_graph_obj_set(&vec![n1.clone(), n2.clone()], &vec![n2.clone(), n3.clone()], SetOpKind::Intersection);
    assert_eq!(result.len(), 1);
    assert!(result.contains(&n2));
    assert!(!result.contains(&n1));
    assert!(!result.contains(&n3));
}

#[test]
fn test_set_op_graph_obj_set_difference() {
    let (n1, n2, n3) = (Node::empty("n1"), Node::empty("n2"), Node::empty("n3"));
    let result =
        set_op_graph_obj_set(&vec![n1.clone(), n2.clone()], &vec![n2.clone(), n3.clone()], SetOpKind::Difference);
    assert_eq!(result.len(), 1);
    assert!(result.contains(&n1));
    assert!(!result.contains(&n2));
    assert!(!result.contains(&n3));
}

#[test]
fn test_set_op_graph_obj_set_symmetric_difference() {
    let (n1, n2, n3) = (Node::empty("n1"), Node::empty("n2"), Node::empty("n3"));
    let result = set_op_graph_obj_set(
        &vec![n1.clone(), n2.clone()],
        &vec![n2.clone(), n3.clone()],
        SetOpKind::SymmetricDifference,
    );
    assert_eq!(result.len(), 2);
    assert!(result.contains(&n1));
    assert!(result.contains(&n3));
    assert!(!result.contains(&n2));
}

#[test]
fn test_intersection_edge() {
    let e1 = mk_uedge("n1", "n2", "e1");
    let e2 = mk_uedge("n2", "n30", "e2");
    let einter = intersection_edge(&e1, &e2);
    assert_eq!(ids_n(&einter), set(vec!["n2"]));
}

#[test]
fn test_intersection_edges() {
    // Edges are one edge when their identifiers agree, whatever their ends:
    // every identifier of the second collection is in the first.
    let g1 = mk_g1();
    let es = vec![mk_uedge("n1", "n3", "e1"), mk_uedge("n20", "n30", "e2"), mk_uedge("n20", "n40", "e3")];
    let einter = intersection_edges(g1.edges(), &es);
    assert_eq!(ids_e(&einter), set(vec!["e1", "e2", "e3"]));
    let other = vec![mk_uedge("n1", "n3", "e1"), mk_uedge("n20", "n30", "e8")];
    assert_eq!(ids_e(&intersection_edges(g1.edges(), &other)), set(vec!["e1"]));
}

#[test]
fn test_intersection_nodes() {
    let g1 = mk_g1();
    let ns = vec![mk_node("n1"), mk_node("n20"), mk_node("n30")];
    let ninter = intersection_nodes(&g1.vertices(), &ns);
    assert_eq!(ids_n(&ninter), set(vec!["n1"]));
}

#[test]
fn test_intersection() {
    let g = intersection(&mk_g1(), &mk_g2());
    assert_eq!(ids_e(g.edges()), set(vec!["e1", "e2", "e3"]));
    let vs = ids_n(&g.vertices());
    assert!(set(vec!["n1", "n2", "n3"]).is_subset(&vs));
}

#[test]
fn test_union_edge() {
    let e2 = mk_uedge("n20", "n30", "e2");
    let e3 = mk_uedge("n20", "n40", "e3");
    assert_eq!(ids_n(&union_edge(&e2, &e3)), set(vec!["n20", "n30", "n40"]));
}

#[test]
fn test_union_edges() {
    let g1 = mk_g1();
    let es = vec![mk_uedge("n1", "n3", "e1"), mk_uedge("n20", "n30", "e2"), mk_uedge("n20", "n40", "e3")];
    let eunion = union_edges(g1.edges(), &es);
    let mut comp = ids_e(g1.edges());
    comp.insert("e2".to_string());
    comp.insert("e3".to_string());
    assert_eq!(ids_e(&eunion), comp);
}

#[test]
fn test_union_nodes() {
    let g1 = mk_g1();
    let ns = vec![mk_node("n1"), mk_node("n20"), mk_node("n30")];
    let nunion = union_nodes(&g1.vertices(), &ns);
    let mut comp = ids_n(&g1.vertices());
    comp.insert("n20".to_string());
    comp.insert("n30".to_string());
    assert_eq!(ids_n(&nunion), comp);
}

#[test]
fn test_union_graph() {
    let g1 = mk_g1();
    let g2 = mk_g2();
    let g = union_graph(&g1, &g2);
    let mut comp_v = ids_n(&g1.vertices());
    comp_v.extend(ids_n(&g2.vertices()));
    assert_eq!(ids_n(&g.vertices()), comp_v);
    let mut comp_e = ids_e(g1.edges());
    comp_e.extend(ids_e(g2.edges()));
    assert_eq!(ids_e(g.edges()), comp_e);
}

#[test]
fn test_difference_edge() {
    let e2 = mk_uedge("n20", "n30", "e2");
    let e3 = mk_uedge("n20", "n40", "e3");
    assert_eq!(ids_n(&difference_edge(&e2, &e3)), set(vec!["n30"]));
}

#[test]
fn test_difference_edges() {
    // The second collection holds every identifier of the first (an edge
    // with identifier e1 but other ends is the same edge), so nothing is left.
    let es1 = vec![mk_uedge("n1", "n3", "e1"), mk_uedge("n20", "n30", "e2"), mk_uedge("n20", "n40", "e3")];
    let es2 = vec![mk_uedge("n2", "n3", "e1"), mk_uedge("n20", "n30", "e2"), mk_uedge("n20", "n40", "e3")];
    assert_eq!(ids_e(&difference_edges(&es1, &es2)), set(vec![]));
    let es3 = vec![mk_uedge("n20", "n30", "e2"), mk_uedge("n20", "n40", "e3")];
    assert_eq!(ids_e(&difference_edges(&es1, &es3)), set(vec!["e1"]));
}

#[test]
fn test_difference_nodes() {
    let g1 = mk_g1();
    let ns = vec![mk_node("n1"), mk_node("n20"), mk_node("n30")];
    let d = difference_nodes(&ns, &g1.vertices());
    assert_eq!(ids_n(&d), set(vec!["n20", "n30"]));
}

#[test]
fn symmetric_differences() {
    let a = vec![mk_node("a"), mk_node("b")];
    let b = vec![mk_node("b"), mk_node("c")];
    assert_eq!(ids_n(&symmetric_difference_node(&a, &b)), set(vec!["a", "c"]));
    let ea = vec![mk_uedge("x", "y", "e1"), mk_uedge("x", "y", "e2")];
    let eb = vec![mk_uedge("x", "y", "e2"), mk_uedge("x", "y", "e3")];
    assert_eq!(ids_e(&symmetric_difference_edges(&ea, &eb)), set(vec!["e1", "e3"]));
}

#[test]
fn containment() {
    let g1 = mk_g1();
    let part = Graph::new("p".to_string(), HashMap::new(), vec![mk_node("n5")], vec![mk_uedge("n1", "n3", "e1")]);
    assert!(contains(&g1, &part));
    assert!(!contains(&part, &g1));
    assert!(contains_node(&g1.vertices(), &vec![mk_node("n1")]));
    assert!(!contains_node(&g1.vertices(), &vec![mk_node("n9")]));
    assert!(contains_edges(g1.edges(), &vec![mk_uedge("a", "b", "e3")]));
    assert!(!contains_edges(g1.edges(), &vec![mk_uedge("a", "b", "e4")]));
}

#[test]
fn graph_difference_and_symmetric_difference() {
    let g1 = mk_g1();
    let g2 = mk_g2();
    assert_eq!(ids_e(difference(&g1, &g2).edges()), set(vec![]));
    assert_eq!(ids_e(symmetric_difference(&g1, &g2).edges()), set(vec![]));
    let d = difference(&g1, &g2);
    assert!(ids_n(&d.vertices()).contains("n4"));
}

#[test]
fn set_operations_keep_the_objects_of_the_first_collection() {
    let a = vec![mk_uedge("n1", "n2", "e1")];
    let b = vec![mk_uedge("x", "y", "e1"), mk_uedge("p", "q", "e2")];
    let u = union_edges(&a, &b);
    let e1 = u.iter().find(|e| e.id == "e1").unwrap();
    assert_eq!((e1.start_node.id.as_str(), e1.end_node.id.as_str()), ("n1", "n2"));
    let e2 = u.iter().find(|e| e.id == "e2").unwrap();
    assert_eq!((e2.start_node.id.as_str(), e2.end_node.id.as_str()), ("p", "q"));
    let mut data = HashMap::new();
    data.insert("k".to_string(), vec!["v".to_string()]);
    let na = vec![Node::new("n".to_string(), data.clone())];
    let nb = vec![Node::empty("n")];
    let i = intersection_nodes(&na, &nb);
    assert_eq!(i[0].data, data);
}
