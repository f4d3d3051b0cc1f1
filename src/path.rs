//! Paths: graphs whose edges form a simple path, with its two end vertices.
use crate::edge::Edge;
use crate::error::GraphError;
use crate::graph::{endpoint_ids_of, Graph};
use crate::node::{has_id, ids_of, unique_ids, Node};
use std::collections::HashMap;
use vstd::prelude::*;

verus! {

/// Number of edge ends of `s` at the vertex `id` (a loop counts twice).
pub open spec fn degree(s: Seq<Edge>, id: Seq<char>) -> nat
    decreases s.len(),
{
    if s.len() == 0 {
        0
    } else {
        degree(s.drop_last(), id) + (if s.last().start_node.id@ == id { 1nat } else { 0nat }) + (if s.last().end_node.id@
            == id {
            1nat
        } else {
            0nat
        })
    }
}

/// The edges of `s` have exactly two vertices of degree one, `a` and `b`.
pub open spec fn ends_are(s: Seq<Edge>, a: Seq<char>, b: Seq<char>) -> bool {
    &&& a != b
    &&& degree(s, a) == 1
    &&& degree(s, b) == 1
    &&& forall|v: Seq<char>| #[trigger] degree(s, v) == 1 ==> v == a || v == b
}

/// The edges of `s` have exactly two vertices of degree one.
pub open spec fn has_two_ends(s: Seq<Edge>) -> bool {
    exists|a: Seq<char>, b: Seq<char>| #[trigger] ends_are(s, a, b)
}

/// A vertex of nonzero degree is an end of some edge.
proof fn lemma_degree_endpoint(s: Seq<Edge>, id: Seq<char>)
    ensures
        degree(s, id) > 0 ==> endpoint_ids_of(s).contains(id),
    decreases s.len(),
{
    if s.len() > 0 {
        lemma_degree_endpoint(s.drop_last(), id);
        if degree(s.drop_last(), id) > 0 {
            let k = choose|k: int| 0 <= k < s.drop_last().len() && crate::edge::is_endpoint(s.drop_last()[k], id);
            assert(s[k] == s.drop_last()[k]);
        }
        if degree(s, id) > 0 && degree(s.drop_last(), id) == 0 {
            assert(crate::edge::is_endpoint(s[s.len() - 1], id));
        }
    }
}

/// Number of edge ends of `edges` at the vertex `id`.
pub fn degree_of(edges: &Vec<Edge>, id: &String) -> (r: usize)
    requires
        edges@.len() <= usize::MAX / 2,
    ensures
        r == degree(edges@, id@),
{
    let mut d: usize = 0;
    let mut i: usize = 0;
    while i < edges.len()
        invariant
            0 <= i <= edges@.len(),
            edges@.len() <= usize::MAX / 2,
            d == degree(edges@.take(i as int), id@),
            d <= 2 * i,
        decreases edges@.len() - i,
    {
        let ghost t1 = edges@.take(i + 1);
        assert(t1.drop_last() == edges@.take(i as int));
        assert(t1.last() == edges@[i as int]);
        if edges[i].start_node.id == *id {
            d += 1;
        }
        if edges[i].end_node.id == *id {
            d += 1;
        }
        i += 1;
    }
    assert(edges@.take(edges@.len() as int) == edges@);
    d
}

/// A path: a graph whose edges have exactly two vertices of degree one,
/// its end vertices.
#[derive(Debug)]
pub struct Path {
    /// the graph of the path
    pub graph: Graph,
    /// the two end vertices
    pub ends: (Node, Node),
}

impl Path {
    /// Builds the path made of `edges`. Fails with `EmptyInput` when there
    /// is no edge, and with `MalformedPath` unless exactly two vertices have
    /// degree one.
    pub fn create(path_id: String, path_data: HashMap<String, Vec<String>>, edges: Vec<Edge>) -> (r: Result<
        Path,
        GraphError,
    >)
        requires
            edges@.len() <= usize::MAX / 4,
        ensures
            edges@.len() == 0 ==> r == Err::<Path, GraphError>(GraphError::EmptyInput),
            edges@.len() > 0 && !has_two_ends(edges@) ==> r == Err::<Path, GraphError>(GraphError::MalformedPath),
            edges@.len() > 0 && has_two_ends(edges@) ==> r is Ok,
            r matches Ok(p) ==> {
                &&& ends_are(edges@, p.ends.0.id@, p.ends.1.id@)
                &&& p.graph.id@ == path_id@
                &&& p.graph.wf()
                &&& crate::graph::dedup_edges(p.graph.edges@, edges@)
            },
    {
        let ends = match get_end_vertices_and_nodes(&edges) {
            Ok((ends, _)) => ends,
            Err(e) => {
                return Err(e);
            },
        };
        let a = Node::from_nodish_ref(&ends[0]);
        let b = Node::from_nodish_ref(&ends[1]);
        let graph = Graph::new(path_id, path_data, Vec::new(), edges);
        Ok(Path { graph, ends: (a, b) })
    }

    /// Number of edges of the path.
    pub fn length(&self) -> (r: usize)
        ensures
            r == self.graph.edges@.len(),
    {
        self.graph.edges.len()
    }

    /// The two end vertices of the path.
    pub fn endvertices(&self) -> (r: (&Node, &Node))
        ensures
            r.0 == &self.ends.0,
            r.1 == &self.ends.1,
    {
        (&self.ends.0, &self.ends.1)
    }

    /// Identifier of the path.
    pub fn id(&self) -> (r: &str)
        ensures
            r@ == self.graph.id@,
    {
        self.graph.id.as_str()
    }
}

/// The two end vertices of the path made of `edges`, and all its vertices,
/// each once. Fails with `EmptyInput` when there is no edge, and with
/// `MalformedPath` unless exactly two vertices have degree one.
pub fn get_end_vertices_and_nodes(edges: &Vec<Edge>) -> (r: Result<(Vec<Node>, Vec<Node>), GraphError>)
    requires
        edges@.len() <= usize::MAX / 4,
    ensures
        edges@.len() == 0 ==> r == Err::<(Vec<Node>, Vec<Node>), GraphError>(GraphError::EmptyInput),
        edges@.len() > 0 && !has_two_ends(edges@) ==> r == Err::<(Vec<Node>, Vec<Node>), GraphError>(
            GraphError::MalformedPath,
        ),
        edges@.len() > 0 && has_two_ends(edges@) ==> r is Ok,
        r matches Ok(res) ==> {
            &&& res.0@.len() == 2
            &&& ends_are(edges@, res.0@[0].id@, res.0@[1].id@)
            &&& unique_ids(res.1@)
            &&& ids_of(res.1@) == endpoint_ids_of(edges@)
        },
{
    if edges.len() == 0 {
        return Err(GraphError::EmptyInput);
    }
    let (ends, all) = degree_one_vertices(edges);
    if ends.len() != 2 {
        return Err(GraphError::MalformedPath);
    }
    Ok((ends, all))
}

/// The vertices of degree one of `edges`, each once, and all vertices of
/// `edges`, each once. The first holds exactly two members when the edges
/// have two ends.
fn degree_one_vertices(edges: &Vec<Edge>) -> (r: (Vec<Node>, Vec<Node>))
    requires
        edges@.len() <= usize::MAX / 4,
    ensures
        unique_ids(r.0@),
        unique_ids(r.1@),
        ids_of(r.1@) == endpoint_ids_of(edges@),
        forall|k: int| 0 <= k < r.0@.len() ==> degree(edges@, #[trigger] r.0@[k].id@) == 1,
        forall|v: Seq<char>| #[trigger] degree(edges@, v) == 1 ==> has_id(r.0@, v),
        r.0@.len() == 2 <==> has_two_ends(edges@),
        r.0@.len() == 2 ==> ends_are(edges@, r.0@[0].id@, r.0@[1].id@),
{
    let all = crate::graph::endpoint_nodes(edges);
    let mut ends: Vec<Node> = Vec::new();
    let ghost mut src: Seq<int> = Seq::empty();
    let mut i: usize = 0;
    while i < all.len()
        invariant
            0 <= i <= all@.len(),
            edges@.len() <= usize::MAX / 4,
            unique_ids(all@),
            ids_of(all@) == endpoint_ids_of(edges@),
            unique_ids(ends@),
            forall|k: int| 0 <= k < ends@.len() ==> degree(edges@, #[trigger] ends@[k].id@) == 1,
            forall|k: int| 0 <= k < i && degree(edges@, #[trigger] all@[k].id@) == 1 ==> has_id(ends@, all@[k].id@),
            src.len() == ends@.len(),
            forall|k: int| #![trigger ends@[k]] #![trigger src[k]] 0 <= k < ends@.len() ==> 0 <= src[k] < i && all@[src[k]].id@ == ends@[k].id@,
        decreases all@.len() - i,
    {
        let v = &all[i];
        let ghost old_ends = ends@;
        if degree_of(edges, &v.id) == 1 {
            proof {
                assert forall|k: int| 0 <= k < ends@.len() implies ends@[k].id@ != v.id@ by {
                    let m = src[k];
                    assert(all@[m].id@ != all@[i as int].id@);
                }
            }
            ends.push(Node::from_nodish_ref(v));
            proof {
                assert forall|k: int| 0 <= k < ends@.len() implies degree(edges@, #[trigger] ends@[k].id@) == 1 by {
                    if k < old_ends.len() {
                        assert(ends@[k] == old_ends[k]);
                    }
                }
                src = src.push(i as int);
                assert forall|k: int| #![trigger ends@[k]] #![trigger src[k]] 0 <= k < ends@.len() implies 0 <= src[k] < i + 1 && all@[src[k]].id@ == ends@[k].id@ by {
                    if k < old_ends.len() {
                        assert(ends@[k] == old_ends[k]);
                    } else {
                        assert(all@[i as int].id@ == ends@[k].id@);
                    }
                }
                assert(ends@[ends@.len() - 1].id@ == v.id@);
            }
        }
        proof {
            assert forall|k: int| 0 <= k < i + 1 && degree(edges@, #[trigger] all@[k].id@) == 1 implies has_id(ends@, all@[k].id@) by {
                if k < i {
                    let j = choose|j: int| 0 <= j < old_ends.len() && old_ends[j].id@ == all@[k].id@;
                    assert(ends@[j] == old_ends[j]);
                } else {
                    assert(ends@[ends@.len() - 1].id@ == v.id@);
                }
            }
        }
        i += 1;
    }
    proof {
        assert forall|v: Seq<char>| #[trigger] degree(edges@, v) == 1 implies has_id(ends@, v) by {
            lemma_degree_endpoint(edges@, v);
            assert(ids_of(all@).contains(v));
            let k = choose|k: int| 0 <= k < all@.len() && all@[k].id@ == v;
        }
        if ends@.len() == 2 {
            assert forall|v: Seq<char>| #[trigger] degree(edges@, v) == 1 implies v == ends@[0].id@ || v == ends@[1].id@ by {
                assert(has_id(ends@, v));
            }
            assert(ends_are(edges@, ends@[0].id@, ends@[1].id@));
        }
        if has_two_ends(edges@) {
            let (a, b) = choose|a: Seq<char>, b: Seq<char>| #[trigger] ends_are(edges@, a, b);
            assert(has_id(ends@, a));
            assert(has_id(ends@, b));
            let ia = choose|k: int| 0 <= k < ends@.len() && ends@[k].id@ == a;
            let ib = choose|k: int| 0 <= k < ends@.len() && ends@[k].id@ == b;
            if ends@.len() > 2 {
                assert(degree(edges@, ends@[0].id@) == 1);
                assert(degree(edges@, ends@[1].id@) == 1);
                assert(degree(edges@, ends@[2].id@) == 1);
                assert(ends@[0].id@ != ends@[1].id@ && ends@[1].id@ != ends@[2].id@ && ends@[0].id@ != ends@[2].id@);
            }
            assert(ia != ib);
        }
    }
    (ends, all)
}

} // verus!
