use pgm_rust::edge::Edge;
use pgm_rust::edgetype::EdgeType;
use pgm_rust::error::GraphError;
use pgm_rust::graph::Graph;
use pgm_rust::node::Node;
use pgm_rust::search::{depth_first_search, DepthFirstResult, EdgeGenerator};
use std::collections::{HashMap, HashSet};

fn mk_node(n_id: &str) -> Node {
    Node::empty(n_id)
}

fn mk_uedge(n1_id: &str, n2_id: &str, e_id: &str) -> Edge {
    Edge::empty(e_id, EdgeType::Undirected, n1_id, n2_id)
}

fn mk_dedge(n1_id: &str, n2_id: &str, e_id: &str) -> Edge {
    Edge::empty(e_id, EdgeType::Directed, n1_id, n2_id)
}

fn mk_graph(nodes: Vec<&str>, edges: Vec<Edge>) -> Graph {
    Graph::new("g".to_string(), HashMap::new(), nodes.into_iter().map(mk_node).collect(), edges)
}

/// Alan Gibbons, Algorithmic graph theory 1985, p. 22, fig. 1.16
fn mk_ugraph() -> Graph {
    let ns = vec!["n1", "n2", "n3", "n4", "n5", "n6", "n7", "n8", "n9", "n10", "n11", "n12", "n13"];
    let es = vec![
        mk_uedge("n1", "n4", "n1n4"),
        mk_uedge("n1", "n3", "n1n3"),
        mk_uedge("n1", "n2", "n1n2"),
        mk_uedge("n1", "n5", "n1n5"),
        mk_uedge("n1", "n6", "n1n6"),
        mk_uedge("n1", "n7", "n1n7"),
        mk_uedge("n1", "n8", "n1n8"),
        mk_uedge("n8", "n2", "n8n2"),
        mk_uedge("n9", "n10", "n9n10"),
        mk_uedge("n9", "n13", "n9n13"),
        mk_uedge("n10", "n11", "n10n11"),
        mk_uedge("n10", "n12", "n10n12"),
    ];
    mk_graph(ns, es)
}

fn comp_sets(r: &DepthFirstResult) -> Vec<HashSet<String>> {
    r.components().into_iter().map(|c| c.into_iter().collect()).collect()
}

fn set(xs: Vec<&str>) -> HashSet<String> {
    xs.into_iter().map(|s| s.to_string()).collect()
}

fn paren(d1: usize, f1: usize, d2: usize, f2: usize) -> bool {
    f1 < d2 || f2 < d1 || (d1 <= d2 && f2 <= f1) || (d2 <= d1 && f1 <= f2)
}

#[test]
fn test_depth_first_search() {
    let ugraph = mk_ugraph();
    let r = depth_first_search(&ugraph, EdgeGenerator::IncidentEdges, true, Some(&mk_node("n1"))).unwrap();
    assert_eq!(r.nb_component(), 2);
    let comps = comp_sets(&r);
    assert_eq!(comps[0], set(vec!["n1", "n2", "n3", "n4", "n5", "n6", "n7", "n8"]));
    assert_eq!(comps[1], set(vec!["n9", "n10", "n11", "n12", "n13"]));
    assert_eq!(r.discover_time_of("n1"), Some(1));
    assert_eq!(r.cycle_info().len(), 1);
    let c = &r.cycle_info()[0];
    assert_eq!(c.ancestor(), "n1");
    assert_eq!(c.before(), "n8");
    assert_eq!(r.forest().iter().map(|f| f.len()).sum::<usize>(), 11);
}

#[test]
fn star_with_isolated_node_has_two_components_and_no_cycle() {
    let g = mk_graph(
        vec!["n5"],
        vec![mk_uedge("n1", "n2", "e1"), mk_uedge("n2", "n3", "e2"), mk_uedge("n2", "n4", "e3")],
    );
    let r = depth_first_search(&g, EdgeGenerator::IncidentEdges, true, Some(&mk_node("n1"))).unwrap();
    assert_eq!(r.nb_component(), 2);
    let comps = comp_sets(&r);
    assert_eq!(comps[0], set(vec!["n1", "n2", "n3", "n4"]));
    assert_eq!(comps[1], set(vec!["n5"]));
    assert!(r.cycle_info().is_empty());
}

#[test]
fn triangle_reports_exactly_one_back_edge_to_the_root() {
    let g = mk_graph(vec![], vec![mk_uedge("n1", "n2", "e1"), mk_uedge("n2", "n3", "e2"), mk_uedge("n3", "n1", "e3")]);
    let r = depth_first_search(&g, EdgeGenerator::IncidentEdges, true, Some(&mk_node("n1"))).unwrap();
    assert_eq!(r.cycle_info().len(), 1);
    let c = &r.cycle_info()[0];
    assert_eq!(c.ancestor(), "n1");
    assert_eq!(c.before(), "n3");
    assert_eq!(c.ancestor_first_time_visit(), 1);
    assert_eq!(c.ancestor_last_time_visit(), Some(6));
    assert_eq!(c.current_final_time_visit(), 4);
}

#[test]
fn no_cycles_without_cycle_check() {
    let g = mk_graph(vec![], vec![mk_uedge("n1", "n2", "e1"), mk_uedge("n2", "n3", "e2"), mk_uedge("n3", "n1", "e3")]);
    let r = depth_first_search(&g, EdgeGenerator::IncidentEdges, false, None).unwrap();
    assert!(r.cycle_info().is_empty());
    assert_eq!(r.nb_component(), 1);
}

#[test]
fn stamps_are_nested_or_disjoint() {
    let r = depth_first_search(&mk_ugraph(), EdgeGenerator::IncidentEdges, true, None).unwrap();
    let n = r.vertex_ids.len();
    for i in 0..n {
        assert!(1 <= r.first_visit[i] && r.first_visit[i] < r.last_visit[i] && r.last_visit[i] <= 2 * n);
        for j in 0..n {
            assert!(paren(r.first_visit[i], r.last_visit[i], r.first_visit[j], r.last_visit[j]));
        }
    }
    for c in r.cycle_info() {
        let a = c.ancestor_first_time_visit();
        let f = c.ancestor_last_time_visit().unwrap();
        assert!(a < c.current_first_time_visit && c.current_first_time_visit < c.current_final_time_visit());
        assert!(c.current_final_time_visit() < f);
    }
}

#[test]
fn every_vertex_in_exactly_one_component() {
    let g = mk_ugraph();
    let r = depth_first_search(&g, EdgeGenerator::IncidentEdges, false, None).unwrap();
    let comps = comp_sets(&r);
    assert_eq!(comps.len(), r.nb_component());
    for id in &r.vertex_ids {
        assert_eq!(comps.iter().filter(|c| c.contains(id)).count(), 1);
    }
    assert_eq!(comps.iter().map(|c| c.len()).sum::<usize>(), 13);
}

#[test]
fn two_runs_agree() {
    let g = mk_ugraph();
    let a = depth_first_search(&g, EdgeGenerator::IncidentEdges, true, Some(&mk_node("n9"))).unwrap();
    let b = depth_first_search(&g, EdgeGenerator::IncidentEdges, true, Some(&mk_node("n9"))).unwrap();
    assert_eq!(a.first_visit_times(), b.first_visit_times());
    assert_eq!(a.last_visit_times(), b.last_visit_times());
    assert_eq!(a.forest(), b.forest());
}

#[test]
fn unknown_start_vertex_fails() {
    let r = depth_first_search(&mk_ugraph(), EdgeGenerator::IncidentEdges, true, Some(&mk_node("n99")));
    assert!(matches!(r, Err(GraphError::VertexNotFound)));
}

#[test]
fn empty_graph_has_no_component() {
    let g = Graph::from_edgeset(Vec::new());
    let r = depth_first_search(&g, EdgeGenerator::IncidentEdges, true, None).unwrap();
    assert_eq!(r.nb_component(), 0);
    assert!(r.components().is_empty());
    assert!(r.first_visit_times().is_empty());
}

#[test]
fn self_loop_is_its_own_back_edge() {
    let g = mk_graph(vec![], vec![mk_uedge("a", "a", "l")]);
    let r = depth_first_search(&g, EdgeGenerator::IncidentEdges, true, None).unwrap();
    assert_eq!(r.cycle_info().len(), 1);
    assert_eq!(r.cycle_info()[0].ancestor(), "a");
    assert_eq!(r.cycle_info()[0].before(), "a");
}

#[test]
fn directed_traversal_follows_out_edges_only() {
    let g = mk_graph(vec![], vec![mk_dedge("a", "b", "ab"), mk_dedge("c", "b", "cb")]);
    let r = depth_first_search(&g, EdgeGenerator::OutEdges, true, Some(&mk_node("a"))).unwrap();
    assert_eq!(r.nb_component(), 2);
    assert_eq!(r.discover_time_of("a"), Some(1));
    assert_eq!(r.discover_time_of("b"), Some(2));
    assert_eq!(r.finish_time_of("b"), Some(3));
    assert_eq!(r.finish_time_of("a"), Some(4));
    assert_eq!(r.discover_time_of("zz"), None);
    assert!(r.cycle_info().is_empty());
    let trees = r.trees();
    assert_eq!(trees[0], vec![("b".to_string(), "a".to_string())]);
}
