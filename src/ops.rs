//! Queries on a graph: membership, incidence, adjacency, neighbourhoods,
//! edge selections, lookups by identifier and induced subgraphs.
use crate::edge::{is_endpoint, other_end, Edge};
use crate::error::GraphError;
use crate::graph::{
    contains_edge_id, contains_node_id, edge_ids_of, endpoint_ids_of, has_edge_id, is_some_endpoint,
    push_unique_node, same_edge, unique_edge_ids, Graph,
};
use crate::node::{ids_of, unique_ids, Node};
use crate::traits::Identified;
use vstd::prelude::*;

verus! {

/// The graph has no vertex (and so no edge).
pub fn is_empty(g: &Graph) -> (r: bool)
    ensures
        r == (g.vertex_ids() == Set::<Seq<char>>::empty()),
{
    if g.nodes.len() == 0 && g.edges.len() == 0 {
        assert(g.vertex_ids() =~= Set::<Seq<char>>::empty());
        true
    } else {
        if g.nodes.len() > 0 {
            assert(g.vertex_ids().contains(g.nodes@[0].id@));
        } else {
            assert(is_endpoint(g.edges@[0], g.edges@[0].start_node.id@));
            assert(g.vertex_ids().contains(g.edges@[0].start_node.id@));
        }
        false
    }
}

/// Some edge or vertex of `g` carries the identifier `id`.
pub open spec fn in_graph(g: Graph, id: Seq<char>) -> bool {
    g.edge_ids().contains(id) || g.vertex_ids().contains(id)
}

/// Some edge or vertex of `g` carries the identifier of `element`.
pub fn is_in<T: Identified>(g: &Graph, element: &T) -> (r: bool)
    ensures
        r == in_graph(*g, element.ident()),
{
    let id = String::from_str(element.id());
    contains_edge_id(&g.edges, &id) || is_some_endpoint(&g.edges, &id) || contains_node_id(&g.nodes, &id)
}

/// `n` is a vertex of `g`.
pub fn has_vertex(g: &Graph, n: &Node) -> (r: bool)
    ensures
        r == g.vertex_ids().contains(n.id@),
{
    is_some_endpoint(&g.edges, &n.id) || contains_node_id(&g.nodes, &n.id)
}

/// `e` is an edge of `g`.
pub fn has_edge(g: &Graph, e: &Edge) -> (r: bool)
    ensures
        r == g.edge_ids().contains(e.id@),
{
    contains_edge_id(&g.edges, &e.id)
}

/// The two edges are distinct and share an end.
pub open spec fn edges_adjacent(e1: Edge, e2: Edge) -> bool {
    e1.id@ != e2.id@ && (is_endpoint(e2, e1.start_node.id@) || is_endpoint(e2, e1.end_node.id@))
}

/// Whether the two edges share an end (an edge is not adjacent to itself).
/// Fails with `NotInGraph` unless both are edges of `g`.
pub fn is_adjacent_of(g: &Graph, e1: &Edge, e2: &Edge) -> (r: Result<bool, GraphError>)
    ensures
        r is Err <==> !g.edge_ids().contains(e1.id@) || !g.edge_ids().contains(e2.id@),
        r is Err ==> r == Err::<bool, GraphError>(GraphError::NotInGraph),
        r matches Ok(b) ==> b == edges_adjacent(*e1, *e2),
{
    if !has_edge(g, e1) || !has_edge(g, e2) {
        return Err(GraphError::NotInGraph);
    }
    if e1.id == e2.id {
        return Ok(false);
    }
    Ok(e2.is_endvertice(&e1.start_node) || e2.is_endvertice(&e1.end_node))
}

/// Whether `n` is an end of `e`. Fails with `NotInGraph` unless `e` is an
/// edge and `n` a vertex of `g`.
pub fn is_node_incident(g: &Graph, e: &Edge, n: &Node) -> (r: Result<bool, GraphError>)
    ensures
        r is Err <==> !g.edge_ids().contains(e.id@) || !g.vertex_ids().contains(n.id@),
        r is Err ==> r == Err::<bool, GraphError>(GraphError::NotInGraph),
        r matches Ok(b) ==> b == is_endpoint(*e, n.id@),
{
    if !has_edge(g, e) || !has_vertex(g, n) {
        return Err(GraphError::NotInGraph);
    }
    Ok(e.is_endvertice(n))
}

/// Some edge of `s` has both `a` and `b` among its ends.
pub open spec fn joined(s: Seq<Edge>, a: Seq<char>, b: Seq<char>) -> bool {
    exists|k: int| 0 <= k < s.len() && is_endpoint(#[trigger] s[k], a) && is_endpoint(s[k], b)
}

/// Some edge of `edges` has both `a` and `b` among its ends.
fn any_joining(edges: &Vec<Edge>, a: &Node, b: &Node) -> (r: bool)
    ensures
        r == joined(edges@, a.id@, b.id@),
{
    let mut i: usize = 0;
    while i < edges.len()
        invariant
            0 <= i <= edges@.len(),
            forall|k: int| 0 <= k < i ==> !(is_endpoint(#[trigger] edges@[k], a.id@) && is_endpoint(edges@[k], b.id@)),
        decreases edges@.len() - i,
    {
        if edges[i].is_endvertice(a) && edges[i].is_endvertice(b) {
            return true;
        }
        i += 1;
    }
    false
}

/// Whether some edge joins `n1` and `n2`, whatever its orientation. Fails
/// with `NotInGraph` unless both are vertices of `g`.
pub fn is_neighbor_of(g: &Graph, n1: &Node, n2: &Node) -> (r: Result<bool, GraphError>)
    ensures
        r is Err <==> !g.vertex_ids().contains(n1.id@) || !g.vertex_ids().contains(n2.id@),
        r is Err ==> r == Err::<bool, GraphError>(GraphError::NotInGraph),
        r matches Ok(b) ==> b == joined(g.edges@, n1.id@, n2.id@),
{
    if !has_vertex(g, n1) || !has_vertex(g, n2) {
        return Err(GraphError::NotInGraph);
    }
    Ok(any_joining(&g.edges, n1, n2))
}

/// How edges are selected relative to one or two vertices.
#[derive(Clone, Copy, Debug, PartialEq, Eq, Structural)]
pub enum EdgeSelection {
    /// edges that have the vertex as an end
    Incident,
    /// edges that start at the vertex
    Outgoing,
    /// edges that end at the vertex
    Incoming,
    /// edges that have both vertices as ends
    Joining,
}

/// Edge `e` is selected by `sel` relative to `a` (and `b`, when joining).
pub open spec fn selects(sel: EdgeSelection, e: Edge, a: Seq<char>, b: Seq<char>) -> bool {
    match sel {
        EdgeSelection::Incident => is_endpoint(e, a),
        EdgeSelection::Outgoing => e.start_node.id@ == a,
        EdgeSelection::Incoming => e.end_node.id@ == a,
        EdgeSelection::Joining => is_endpoint(e, a) && is_endpoint(e, b),
    }
}

/// `e` agrees with an edge of `s` that `sel` selects.
pub open spec fn selected_from(e: Edge, s: Seq<Edge>, sel: EdgeSelection, a: Seq<char>, b: Seq<char>) -> bool {
    exists|k: int| 0 <= k < s.len() && selects(sel, s[k], a, b) && #[trigger] same_edge(e, s[k])
}

/// `r` holds copies of exactly the edges of `s` that `sel` selects.
pub open spec fn selection_of(r: Seq<Edge>, s: Seq<Edge>, sel: EdgeSelection, a: Seq<char>, b: Seq<char>) -> bool {
    &&& unique_edge_ids(s) ==> unique_edge_ids(r)
    &&& forall|j: int| 0 <= j < r.len() ==> selected_from(#[trigger] r[j], s, sel, a, b)
    &&& forall|k: int| 0 <= k < s.len() && selects(sel, s[k], a, b) ==> has_edge_id(r, #[trigger] s[k].id@)
}

/// Copies of the edges of `edges` that `sel` selects relative to `a` and
/// `b`, in order.
pub fn select_edges(edges: &Vec<Edge>, sel: EdgeSelection, a: &Node, b: &Node) -> (r: Vec<Edge>)
    ensures
        selection_of(r@, edges@, sel, a.id@, b.id@),
{
    let mut r: Vec<Edge> = Vec::new();
    let ghost mut src: Seq<int> = Seq::empty();
    let mut i: usize = 0;
    while i < edges.len()
        invariant
            0 <= i <= edges@.len(),
            src.len() == r@.len(),
            forall|j: int| #![trigger r@[j]] #![trigger src[j]] 0 <= j < r@.len() ==> 0 <= src[j] < i && selects(sel, edges@[src[j]], a.id@, b.id@)
                && same_edge(r@[j], edges@[src[j]]),
            forall|j1: int, j2: int| 0 <= j1 < j2 < r@.len() ==> #[trigger] src[j1] < #[trigger] src[j2],
            forall|k: int| 0 <= k < i && selects(sel, edges@[k], a.id@, b.id@) ==> has_edge_id(r@, #[trigger] edges@[k].id@),
        decreases edges@.len() - i,
    {
        let e = &edges[i];
        let take = match sel {
            EdgeSelection::Incident => e.is_endvertice(a),
            EdgeSelection::Outgoing => e.is_start(a),
            EdgeSelection::Incoming => e.is_end(a),
            EdgeSelection::Joining => e.is_endvertice(a) && e.is_endvertice(b),
        };
        let ghost old_r = r@;
        if take {
            r.push(Edge::from_edgish_ref(e));
            proof {
                src = src.push(i as int);
                assert forall|j: int| #![trigger r@[j]] #![trigger src[j]] 0 <= j < r@.len() implies 0 <= src[j] < i + 1
                    && selects(sel, edges@[src[j]], a.id@, b.id@) && same_edge(r@[j], edges@[src[j]]) by {
                    if j < old_r.len() {
                        assert(r@[j] == old_r[j]);
                    }
                }
                assert(r@[r@.len() - 1].id@ == e.id@);
            }
        }
        proof {
            assert forall|k: int| 0 <= k < i + 1 && selects(sel, edges@[k], a.id@, b.id@) implies has_edge_id(r@, #[trigger] edges@[k].id@) by {
                if k < i {
                    let j = choose|j: int| 0 <= j < old_r.len() && old_r[j].id@ == edges@[k].id@;
                    assert(r@[j] == old_r[j]);
                } else {
                    assert(r@[r@.len() - 1].id@ == e.id@);
                }
            }
        }
        i += 1;
    }
    proof {
        assert forall|j: int| 0 <= j < r@.len() implies selected_from(#[trigger] r@[j], edges@, sel, a.id@, b.id@) by {
            assert(same_edge(r@[j], edges@[src[j]]));
        }
        if unique_edge_ids(edges@) {
            assert forall|j1: int, j2: int| 0 <= j1 < r@.len() && 0 <= j2 < r@.len() && j1 != j2 implies r@[j1].id@ != r@[j2].id@ by {
                assert(same_edge(r@[j1], edges@[src[j1]]));
                assert(same_edge(r@[j2], edges@[src[j2]]));
                if j1 < j2 {
                    assert(src[j1] < src[j2]);
                } else {
                    assert(src[j2] < src[j1]);
                }
            }
        }
    }
    r
}

/// The edges of `g` that have `n` as an end, in edge order.
pub fn edges_of(g: &Graph, n: &Node) -> (r: Vec<Edge>)
    requires
        g.wf(),
    ensures
        selection_of(r@, g.edges@, EdgeSelection::Incident, n.id@, n.id@),
{
    select_edges(&g.edges, EdgeSelection::Incident, n, n)
}

/// The edges of `g` that start at `n`, in edge order.
pub fn outgoing_edges_of(g: &Graph, n: &Node) -> (r: Vec<Edge>)
    requires
        g.wf(),
    ensures
        selection_of(r@, g.edges@, EdgeSelection::Outgoing, n.id@, n.id@),
{
    select_edges(&g.edges, EdgeSelection::Outgoing, n, n)
}

/// The edges of `g` that end at `n`, in edge order.
pub fn incoming_edges_of(g: &Graph, n: &Node) -> (r: Vec<Edge>)
    requires
        g.wf(),
    ensures
        selection_of(r@, g.edges@, EdgeSelection::Incoming, n.id@, n.id@),
{
    select_edges(&g.edges, EdgeSelection::Incoming, n, n)
}

/// The edges of `g` that have both `n1` and `n2` as ends, in edge order.
pub fn edges_by_vertices(g: &Graph, n1: &Node, n2: &Node) -> (r: Vec<Edge>)
    requires
        g.wf(),
    ensures
        selection_of(r@, g.edges@, EdgeSelection::Joining, n1.id@, n2.id@),
{
    select_edges(&g.edges, EdgeSelection::Joining, n1, n2)
}

/// The edge of `g` with identifier `id`. Fails with `EdgeNotFound` when
/// there is none.
pub fn edge_by_id(g: &Graph, id: &str) -> (r: Result<Edge, GraphError>)
    ensures
        r is Err <==> !g.edge_ids().contains(id@),
        r is Err ==> r == Err::<Edge, GraphError>(GraphError::EdgeNotFound),
        r matches Ok(e) ==> e.id@ == id@ && exists|k: int| 0 <= k < g.edges@.len() && #[trigger] same_edge(e, g.edges@[k]),
{
    let key = String::from_str(id);
    let mut i: usize = 0;
    while i < g.edges.len()
        invariant
            0 <= i <= g.edges@.len(),
            key@ == id@,
            forall|k: int| 0 <= k < i ==> g.edges@[k].id@ != id@,
        decreases g.edges@.len() - i,
    {
        if g.edges[i].id == key {
            let e = Edge::from_edgish_ref(&g.edges[i]);
            assert(same_edge(e, g.edges@[i as int]));
            return Ok(e);
        }
        i += 1;
    }
    Err(GraphError::EdgeNotFound)
}

/// The vertex of `g` with identifier `vid`. Fails with `VertexNotFound`
/// when there is none.
pub fn vertex_by_id(g: &Graph, vid: &str) -> (r: Result<Node, GraphError>)
    requires
        g.wf(),
    ensures
        r is Err <==> !g.vertex_ids().contains(vid@),
        r is Err ==> r == Err::<Node, GraphError>(GraphError::VertexNotFound),
        r matches Ok(n) ==> n.id@ == vid@,
{
    let vs = g.vertices();
    let key = String::from_str(vid);
    let mut i: usize = 0;
    while i < vs.len()
        invariant
            0 <= i <= vs@.len(),
            key@ == vid@,
            ids_of(vs@) == g.vertex_ids(),
            forall|k: int| 0 <= k < i ==> vs@[k].id@ != vid@,
        decreases vs@.len() - i,
    {
        if vs[i].id == key {
            assert(ids_of(vs@).contains(vs@[i as int].id@));
            return Ok(Node::from_nodish_ref(&vs[i]));
        }
        i += 1;
    }
    proof {
        if ids_of(vs@).contains(vid@) {
            let k = choose|k: int| 0 <= k < vs@.len() && vs@[k].id@ == vid@;
        }
    }
    Err(GraphError::VertexNotFound)
}

/// Identifiers of the vertices joined to `id` by an edge of `s`: the other
/// end of each edge incident to it (`id` itself for a loop).
pub open spec fn neighbor_ids(s: Seq<Edge>, id: Seq<char>) -> Set<Seq<char>> {
    Set::new(
        |x: Seq<char>|
            exists|k: int| 0 <= k < s.len() && is_endpoint(#[trigger] s[k], id) && other_end(s[k], id) == Some(x),
    )
}

/// The vertices joined to `n` by an edge, each once. Fails with
/// `NotInGraph` unless `n` is a vertex of `g`.
pub fn neighbors_of(g: &Graph, n: &Node) -> (r: Result<Vec<Node>, GraphError>)
    requires
        g.wf(),
    ensures
        r is Err <==> !g.vertex_ids().contains(n.id@),
        r is Err ==> r == Err::<Vec<Node>, GraphError>(GraphError::NotInGraph),
        r matches Ok(ns) ==> unique_ids(ns@) && ids_of(ns@) == neighbor_ids(g.edges@, n.id@),
{
    if !has_vertex(g, n) {
        return Err(GraphError::NotInGraph);
    }
    let mut r: Vec<Node> = Vec::new();
    let mut i: usize = 0;
    while i < g.edges.len()
        invariant
            0 <= i <= g.edges@.len(),
            unique_ids(r@),
            ids_of(r@) == neighbor_ids(g.edges@.take(i as int), n.id@),
        decreases g.edges@.len() - i,
    {
        let e = &g.edges[i];
        let ghost t0 = g.edges@.take(i as int);
        let ghost t1 = g.edges@.take(i + 1);
        match e.get_other(n) {
            Some(other) => {
                push_unique_node(&mut r, other);
                proof {
                    assert forall|x: Seq<char>| neighbor_ids(t1, n.id@).contains(x) <==> neighbor_ids(t0, n.id@).insert(other.id@).contains(x) by {
                        if neighbor_ids(t1, n.id@).contains(x) {
                            let k = choose|k: int| 0 <= k < t1.len() && is_endpoint(#[trigger] t1[k], n.id@) && other_end(t1[k], n.id@) == Some(x);
                            if k < i {
                                assert(t0[k] == t1[k]);
                            }
                        }
                        if neighbor_ids(t0, n.id@).contains(x) {
                            let k = choose|k: int| 0 <= k < t0.len() && is_endpoint(#[trigger] t0[k], n.id@) && other_end(t0[k], n.id@) == Some(x);
                            assert(t0[k] == t1[k]);
                        }
                        assert(t1[i as int] == *e);
                    }
                    assert(neighbor_ids(t1, n.id@) =~= neighbor_ids(t0, n.id@).insert(other.id@));
                }
            },
            None => {
                proof {
                    assert forall|x: Seq<char>| neighbor_ids(t1, n.id@).contains(x) <==> neighbor_ids(t0, n.id@).contains(x) by {
                        if neighbor_ids(t1, n.id@).contains(x) {
                            let k = choose|k: int| 0 <= k < t1.len() && is_endpoint(#[trigger] t1[k], n.id@) && other_end(t1[k], n.id@) == Some(x);
                            if k < i {
                                assert(t0[k] == t1[k]);
                            } else {
                                assert(t1[k] == *e);
                            }
                        }
                        if neighbor_ids(t0, n.id@).contains(x) {
                            let k = choose|k: int| 0 <= k < t0.len() && is_endpoint(#[trigger] t0[k], n.id@) && other_end(t0[k], n.id@) == Some(x);
                            assert(t0[k] == t1[k]);
                        }
                    }
                    assert(neighbor_ids(t1, n.id@) =~= neighbor_ids(t0, n.id@));
                }
            },
        }
        i += 1;
    }
    assert(g.edges@.take(g.edges@.len() as int) == g.edges@);
    Ok(r)
}

/// Which edges an induced subgraph keeps.
#[derive(Clone, Copy, Debug, PartialEq, Eq, Structural)]
pub enum EdgePolicy {
    /// edges whose two ends are among the vertices (the induced subgraph)
    BothEnds,
    /// edges with at least one end among the vertices
    EitherEnd,
}

/// Edge `e` is kept under `policy` for the vertex identifiers `s`.
pub open spec fn keeps(policy: EdgePolicy, e: Edge, s: Set<Seq<char>>) -> bool {
    match policy {
        EdgePolicy::BothEnds => s.contains(e.start_node.id@) && s.contains(e.end_node.id@),
        EdgePolicy::EitherEnd => s.contains(e.start_node.id@) || s.contains(e.end_node.id@),
    }
}

/// `e` agrees with an edge of `es` that `policy` keeps.
pub open spec fn kept_from(e: Edge, es: Seq<Edge>, policy: EdgePolicy, s: Set<Seq<char>>) -> bool {
    exists|k: int| 0 <= k < es.len() && keeps(policy, es[k], s) && #[trigger] same_edge(e, es[k])
}

/// `nodes` and `edges` are the part of `g` on the vertex identifiers `s`:
/// the vertices of `g` in `s`, each once, and copies of exactly the edges of
/// `g` that `policy` keeps.
pub open spec fn subgraph_of(
    g: Graph,
    s: Set<Seq<char>>,
    policy: EdgePolicy,
    nodes: Seq<Node>,
    edges: Seq<Edge>,
) -> bool {
    &&& unique_ids(nodes)
    &&& ids_of(nodes) == g.vertex_ids().intersect(s)
    &&& unique_edge_ids(edges)
    &&& forall|j: int| 0 <= j < edges.len() ==> kept_from(#[trigger] edges[j], g.edges@, policy, s)
    &&& forall|k: int|
        0 <= k < g.edges@.len() && keeps(policy, g.edges@[k], s) ==> has_edge_id(edges, #[trigger] g.edges@[k].id@)
}

/// The part of `g` on the vertices `ns`: the vertices of `g` that `ns`
/// names, and the edges that `edge_policy` keeps (both ends among them when
/// no policy is given).
pub fn get_subgraph_by_vertices(g: &Graph, ns: &Vec<Node>, edge_policy: Option<EdgePolicy>) -> (r: (
    Vec<Node>,
    Vec<Edge>,
))
    requires
        g.wf(),
    ensures
        subgraph_of(
            *g,
            ids_of(ns@),
            match edge_policy {
                Some(p) => p,
                None => EdgePolicy::BothEnds,
            },
            r.0@,
            r.1@,
        ),
{
    let policy = match edge_policy {
        Some(p) => p,
        None => EdgePolicy::BothEnds,
    };
    let ghost s = ids_of(ns@);
    let vs = g.vertices();
    let mut nodes: Vec<Node> = Vec::new();
    let mut i: usize = 0;
    while i < vs.len()
        invariant
            0 <= i <= vs@.len(),
            s == ids_of(ns@),
            unique_ids(vs@),
            unique_ids(nodes@),
            ids_of(nodes@) == ids_of(vs@.take(i as int)).intersect(s),
        decreases vs@.len() - i,
    {
        let v = &vs[i];
        let ghost t0 = vs@.take(i as int);
        let ghost t1 = vs@.take(i + 1);
        proof {
            assert forall|x: Seq<char>| ids_of(t1).contains(x) <==> ids_of(t0).insert(v.id@).contains(x) by {
                if ids_of(t1).contains(x) {
                    let k = choose|k: int| 0 <= k < t1.len() && t1[k].id@ == x;
                    if k < i {
                        assert(t0[k] == t1[k]);
                    }
                }
                if ids_of(t0).contains(x) {
                    let k = choose|k: int| 0 <= k < t0.len() && t0[k].id@ == x;
                    assert(t0[k] == t1[k]);
                }
                assert(t1[i as int] == *v);
            }
            assert(ids_of(t1) =~= ids_of(t0).insert(v.id@));
        }
        if contains_node_id(ns, &v.id) {
            push_unique_node(&mut nodes, v);
        }
        assert(ids_of(nodes@) =~= ids_of(t1).intersect(s));
        i += 1;
    }
    assert(vs@.take(vs@.len() as int) == vs@);
    let mut edges: Vec<Edge> = Vec::new();
    let ghost mut src: Seq<int> = Seq::empty();
    let mut k: usize = 0;
    while k < g.edges.len()
        invariant
            0 <= k <= g.edges@.len(),
            s == ids_of(ns@),
            g.wf(),
            src.len() == edges@.len(),
            forall|j: int| #![trigger edges@[j]] #![trigger src[j]] 0 <= j < edges@.len() ==> 0 <= src[j] < k && keeps(policy, g.edges@[src[j]], s)
                && same_edge(edges@[j], g.edges@[src[j]]),
            forall|j1: int, j2: int| 0 <= j1 < j2 < edges@.len() ==> #[trigger] src[j1] < #[trigger] src[j2],
            forall|m: int| 0 <= m < k && keeps(policy, g.edges@[m], s) ==> has_edge_id(edges@, #[trigger] g.edges@[m].id@),
        decreases g.edges@.len() - k,
    {
        let e = &g.edges[k];
        let c1 = contains_node_id(ns, &e.start_node.id);
        let c2 = contains_node_id(ns, &e.end_node.id);
        let take = match policy {
            EdgePolicy::BothEnds => c1 && c2,
            EdgePolicy::EitherEnd => c1 || c2,
        };
        let ghost old_e = edges@;
        if take {
            edges.push(Edge::from_edgish_ref(e));
            proof {
                src = src.push(k as int);
                assert forall|j: int| #![trigger edges@[j]] #![trigger src[j]] 0 <= j < edges@.len() implies 0 <= src[j] < k + 1
                    && keeps(policy, g.edges@[src[j]], s) && same_edge(edges@[j], g.edges@[src[j]]) by {
                    if j < old_e.len() {
                        assert(edges@[j] == old_e[j]);
                    }
                }
                assert(edges@[edges@.len() - 1].id@ == e.id@);
            }
        }
        proof {
            assert forall|m: int| 0 <= m < k + 1 && keeps(policy, g.edges@[m], s) implies has_edge_id(edges@, #[trigger] g.edges@[m].id@) by {
                if m < k {
                    let j = choose|j: int| 0 <= j < old_e.len() && old_e[j].id@ == g.edges@[m].id@;
                    assert(edges@[j] == old_e[j]);
                } else {
                    assert(edges@[edges@.len() - 1].id@ == e.id@);
                }
            }
        }
        k += 1;
    }
    proof {
        assert forall|j: int| 0 <= j < edges@.len() implies kept_from(#[trigger] edges@[j], g.edges@, policy, s) by {
            assert(same_edge(edges@[j], g.edges@[src[j]]));
        }
        assert forall|j1: int, j2: int| 0 <= j1 < edges@.len() && 0 <= j2 < edges@.len() && j1 != j2 implies edges@[j1].id@ != edges@[j2].id@ by {
            assert(same_edge(edges@[j1], g.edges@[src[j1]]));
            assert(same_edge(edges@[j2], g.edges@[src[j2]]));
            if j1 < j2 {
                assert(src[j1] < src[j2]);
            } else {
                assert(src[j2] < src[j1]);
            }
        }
    }
    (nodes, edges)
}

/// Taking the induced subgraph on a set of vertices twice gives what taking
/// it once gives: building a graph from the vertices and edges kept, and
/// inducing on the same vertices again, keeps the same vertices and edges.
pub proof fn lemma_subgraph_idempotent(
    g: Graph,
    s: Set<Seq<char>>,
    n1: Seq<Node>,
    e1: Seq<Edge>,
    g1: Graph,
    n2: Seq<Node>,
    e2: Seq<Edge>,
)
    requires
        g.wf(),
        subgraph_of(g, s, EdgePolicy::BothEnds, n1, e1),
        g1.wf(),
        g1.vertex_ids() == ids_of(n1) + endpoint_ids_of(g1.edges@),
        crate::graph::dedup_edges(g1.edges@, e1),
        subgraph_of(g1, s, EdgePolicy::BothEnds, n2, e2),
    ensures
        ids_of(n2) == ids_of(n1),
        edge_ids_of(e2) == edge_ids_of(e1),
{
    assert forall|x: Seq<char>| endpoint_ids_of(g1.edges@).contains(x) implies ids_of(n1).contains(x) by {
        let j = choose|j: int| 0 <= j < g1.edges@.len() && is_endpoint(g1.edges@[j], x);
        assert(crate::graph::is_first_in(g1.edges@[j], e1));
        let i = choose|i: int| crate::graph::first_of_its_id(e1, i) && #[trigger] same_edge(g1.edges@[j], e1[i]);
        assert(kept_from(e1[i], g.edges@, EdgePolicy::BothEnds, s));
        let k = choose|k: int| 0 <= k < g.edges@.len() && keeps(EdgePolicy::BothEnds, g.edges@[k], s) && #[trigger] same_edge(e1[i], g.edges@[k]);
        assert(is_endpoint(g.edges@[k], x));
        assert(endpoint_ids_of(g.edges@).contains(x));
    }
    assert(g1.vertex_ids() =~= ids_of(n1));
    assert(ids_of(n2) =~= ids_of(n1));
    assert forall|x: Seq<char>| edge_ids_of(e2).contains(x) <==> edge_ids_of(e1).contains(x) by {
        if edge_ids_of(e2).contains(x) {
            let j = choose|j: int| 0 <= j < e2.len() && e2[j].id@ == x;
            assert(kept_from(e2[j], g1.edges@, EdgePolicy::BothEnds, s));
            let k = choose|k: int| 0 <= k < g1.edges@.len() && keeps(EdgePolicy::BothEnds, g1.edges@[k], s) && #[trigger] same_edge(e2[j], g1.edges@[k]);
            assert(edge_ids_of(g1.edges@).contains(x));
        }
        if edge_ids_of(e1).contains(x) {
            assert(edge_ids_of(g1.edges@).contains(x));
            let k = choose|k: int| 0 <= k < g1.edges@.len() && g1.edges@[k].id@ == x;
            assert(crate::graph::is_first_in(g1.edges@[k], e1));
            let i = choose|i: int| crate::graph::first_of_its_id(e1, i) && #[trigger] same_edge(g1.edges@[k], e1[i]);
            assert(kept_from(e1[i], g.edges@, EdgePolicy::BothEnds, s));
            let m = choose|m: int| 0 <= m < g.edges@.len() && keeps(EdgePolicy::BothEnds, g.edges@[m], s) && #[trigger] same_edge(e1[i], g.edges@[m]);
            assert(keeps(EdgePolicy::BothEnds, g1.edges@[k], s));
            assert(has_edge_id(e2, g1.edges@[k].id@));
        }
    }
    assert(edge_ids_of(e2) =~= edge_ids_of(e1));
}

/// For each vertex of `g`, in the order `vertices` lists them, its
/// identifier and the identifiers of its incident edges, or nothing when it
/// has none.
pub fn to_adjacencylist(g: &Graph) -> (r: Vec<(String, Option<Vec<String>>)>)
    requires
        g.wf(),
    ensures
        unique_ids_of_rows(r@),
        Set::new(|id: Seq<char>| exists|i: int| 0 <= i < r@.len() && (#[trigger] r@[i]).0@ == id) == g.vertex_ids(),
        forall|i: int|
            0 <= i < r@.len() ==> match (#[trigger] r@[i]).1 {
                None => forall|k: int| 0 <= k < g.edges@.len() ==> !is_endpoint(#[trigger] g.edges@[k], r@[i].0@),
                Some(ids) => ids@.len() > 0 && forall|j: int|
                    0 <= j < ids@.len() ==> incident_with(g.edges@, (#[trigger] ids@[j])@, r@[i].0@),
            },
        forall|i: int, k: int|
            0 <= i < r@.len() && 0 <= k < g.edges@.len() && is_endpoint(#[trigger] g.edges@[k], (#[trigger] r@[i]).0@)
                ==> r@[i].1.is_some() && crate::search::contains_str(r@[i].1.unwrap()@, g.edges@[k].id@),
{
    let vs = g.vertices();
    let mut r: Vec<(String, Option<Vec<String>>)> = Vec::new();
    let mut i: usize = 0;
    while i < vs.len()
        invariant
            0 <= i <= vs@.len(),
            unique_ids(vs@),
            ids_of(vs@) == g.vertex_ids(),
            r@.len() == i,
            forall|j: int| 0 <= j < i ==> (#[trigger] r@[j]).0@ == vs@[j].id@,
            forall|j: int|
                0 <= j < i ==> match (#[trigger] r@[j]).1 {
                    None => forall|k: int| 0 <= k < g.edges@.len() ==> !is_endpoint(#[trigger] g.edges@[k], r@[j].0@),
                    Some(ids) => ids@.len() > 0 && forall|m: int|
                        0 <= m < ids@.len() ==> incident_with(g.edges@, (#[trigger] ids@[m])@, r@[j].0@),
                },
            forall|j: int, k: int|
                0 <= j < i && 0 <= k < g.edges@.len() && is_endpoint(#[trigger] g.edges@[k], (#[trigger] r@[j]).0@)
                    ==> r@[j].1.is_some() && crate::search::contains_str(r@[j].1.unwrap()@, g.edges@[k].id@),
        decreases vs@.len() - i,
    {
        let v = &vs[i];
        let mut ids: Vec<String> = Vec::new();
        let mut k: usize = 0;
        while k < g.edges.len()
            invariant
                0 <= k <= g.edges@.len(),
                forall|m: int|
                    0 <= m < ids@.len() ==> incident_with(g.edges@, (#[trigger] ids@[m])@, v.id@),
                forall|k2: int| 0 <= k2 < k && is_endpoint(#[trigger] g.edges@[k2], v.id@) ==> crate::search::contains_str(ids@, g.edges@[k2].id@),
            decreases g.edges@.len() - k,
        {
            let ghost old_ids = ids@;
            if g.edges[k].is_endvertice(v) {
                ids.push(g.edges[k].id.clone());
                proof {
                    assert forall|m: int|
                        0 <= m < ids@.len() implies incident_with(g.edges@, (#[trigger] ids@[m])@, v.id@) by {
                        if m < old_ids.len() {
                            assert(ids@[m] == old_ids[m]);
                        } else {
                            assert(g.edges@[k as int].id@ == ids@[m]@);
                            assert(is_endpoint(g.edges@[k as int], v.id@));
                        }
                    }
                    assert(ids@[ids@.len() - 1]@ == g.edges@[k as int].id@);
                }
            }
            proof {
                assert forall|k2: int| 0 <= k2 < k + 1 && is_endpoint(#[trigger] g.edges@[k2], v.id@) implies crate::search::contains_str(ids@, g.edges@[k2].id@) by {
                    if k2 < k {
                        let m = choose|m: int| 0 <= m < old_ids.len() && (#[trigger] old_ids[m])@ == g.edges@[k2].id@;
                        assert(ids@[m] == old_ids[m]);
                    } else {
                        assert(ids@[ids@.len() - 1]@ == g.edges@[k as int].id@);
                    }
                }
            }
            k += 1;
        }
        let entry = if ids.len() == 0 {
            proof {
                assert forall|k2: int| 0 <= k2 < g.edges@.len() implies !is_endpoint(#[trigger] g.edges@[k2], v.id@) by {
                    if is_endpoint(g.edges@[k2], v.id@) {
                        assert(crate::search::contains_str(ids@, g.edges@[k2].id@));
                    }
                }
            }
            None
        } else {
            Some(ids)
        };
        let ghost old_r = r@;
        r.push((v.id.clone(), entry));
        proof {
            assert forall|j: int| 0 <= j < i + 1 implies (#[trigger] r@[j]).0@ == vs@[j].id@ by {
                if j < i {
                    assert(r@[j] == old_r[j]);
                }
            }
        }
        i += 1;
    }
    proof {
        assert forall|a: int, b: int| 0 <= a < r@.len() && 0 <= b < r@.len() && a != b implies (#[trigger] r@[a]).0@ != (#[trigger] r@[b]).0@ by {
            assert(r@[a].0@ == vs@[a].id@);
            assert(r@[b].0@ == vs@[b].id@);
        }
        let s = Set::new(|id: Seq<char>| exists|i: int| 0 <= i < r@.len() && (#[trigger] r@[i]).0@ == id);
        assert forall|id: Seq<char>| s.contains(id) <==> ids_of(vs@).contains(id) by {
            if s.contains(id) {
                let i = choose|i: int| 0 <= i < r@.len() && (#[trigger] r@[i]).0@ == id;
                assert(r@[i].0@ == vs@[i].id@);
            }
            if ids_of(vs@).contains(id) {
                let i = choose|i: int| 0 <= i < vs@.len() && vs@[i].id@ == id;
                assert(r@[i].0@ == vs@[i].id@);
            }
        }
        assert(s =~= g.vertex_ids());
    }
    r
}

/// Some edge of `s` with identifier `id` has `v` as an end.
pub open spec fn incident_with(s: Seq<Edge>, id: Seq<char>, v: Seq<char>) -> bool {
    exists|k: int| 0 <= k < s.len() && #[trigger] s[k].id@ == id && is_endpoint(s[k], v)
}

/// The first members of the rows are pairwise distinct.
pub open spec fn unique_ids_of_rows<T>(r: Seq<(String, T)>) -> bool {
    forall|a: int, b: int| 0 <= a < r.len() && 0 <= b < r.len() && a != b ==> (#[trigger] r[a]).0@ != (#[trigger] r[b]).0@
}

/// The adjacency matrix of `g`: for each ordered pair of vertices, in the
/// order `vertices` lists them, whether some edge joins them (either way).
pub fn to_adjmat(g: &Graph) -> (r: Vec<(String, String, bool)>)
    requires
        g.wf(),
    ensures
        forall|p: int| 0 <= p < r@.len() ==> {
            let (a, b, adjacent) = #[trigger] r@[p];
            &&& g.vertex_ids().contains(a@)
            &&& g.vertex_ids().contains(b@)
            &&& adjacent == (joined(g.edges@, a@, b@) && (a@ != b@ || exists|k: int| 0 <= k < g.edges@.len() && #[trigger] g.edges@[k].start_node.id@ == a@ && g.edges@[k].end_node.id@ == a@))
        },
        forall|a: Seq<char>, b: Seq<char>| g.vertex_ids().contains(a) && g.vertex_ids().contains(b) ==> #[trigger] has_pair(r@, a, b),
{
    let vs = g.vertices();
    let mut r: Vec<(String, String, bool)> = Vec::new();
    let mut i: usize = 0;
    while i < vs.len()
        invariant
            0 <= i <= vs@.len(),
            ids_of(vs@) == g.vertex_ids(),
            forall|p: int| 0 <= p < r@.len() ==> {
                let (a, b, adjacent) = #[trigger] r@[p];
                &&& g.vertex_ids().contains(a@)
                &&& g.vertex_ids().contains(b@)
                &&& adjacent == (joined(g.edges@, a@, b@) && (a@ != b@ || exists|k: int| 0 <= k < g.edges@.len() && #[trigger] g.edges@[k].start_node.id@ == a@ && g.edges@[k].end_node.id@ == a@))
            },
            forall|x: int, y: int| 0 <= x < i && 0 <= y < vs@.len() ==> #[trigger] has_pair(r@, vs@[x].id@, vs@[y].id@),
        decreases vs@.len() - i,
    {
        let mut j: usize = 0;
        while j < vs.len()
            invariant
                0 <= i < vs@.len(),
                0 <= j <= vs@.len(),
                ids_of(vs@) == g.vertex_ids(),
                forall|p: int| 0 <= p < r@.len() ==> {
                    let (a, b, adjacent) = #[trigger] r@[p];
                    &&& g.vertex_ids().contains(a@)
                    &&& g.vertex_ids().contains(b@)
                    &&& adjacent == (joined(g.edges@, a@, b@) && (a@ != b@ || exists|k: int| 0 <= k < g.edges@.len() && #[trigger] g.edges@[k].start_node.id@ == a@ && g.edges@[k].end_node.id@ == a@))
                },
                forall|x: int, y: int| 0 <= x < i && 0 <= y < vs@.len() ==> #[trigger] has_pair(r@, vs@[x].id@, vs@[y].id@),
                forall|y: int| 0 <= y < j ==> #[trigger] has_pair(r@, vs@[i as int].id@, vs@[y].id@),
            decreases vs@.len() - j,
        {
            let a = &vs[i];
            let b = &vs[j];
            let adjacent = if a.id == b.id {
                has_loop(&g.edges, a)
            } else {
                any_joining(&g.edges, a, b)
            };
            let ghost old_r = r@;
            proof {
                assert(ids_of(vs@).contains(a.id@));
                assert(ids_of(vs@).contains(b.id@));
                if a.id@ != b.id@ {
                } else {
                    if joined(g.edges@, a.id@, b.id@) && !adjacent {
                        let k = choose|k: int| 0 <= k < g.edges@.len() && is_endpoint(#[trigger] g.edges@[k], a.id@) && is_endpoint(g.edges@[k], b.id@);
                    }
                    if adjacent {
                        let k = choose|k: int| 0 <= k < g.edges@.len() && #[trigger] g.edges@[k].start_node.id@ == a.id@ && g.edges@[k].end_node.id@ == a.id@;
                        assert(is_endpoint(g.edges@[k], a.id@));
                    }
                }
            }
            r.push((a.id.clone(), b.id.clone(), adjacent));
            proof {
                assert forall|p: int| 0 <= p < r@.len() implies {
                    let (a2, b2, adj2) = #[trigger] r@[p];
                    &&& g.vertex_ids().contains(a2@)
                    &&& g.vertex_ids().contains(b2@)
                    &&& adj2 == (joined(g.edges@, a2@, b2@) && (a2@ != b2@ || exists|k: int| 0 <= k < g.edges@.len() && #[trigger] g.edges@[k].start_node.id@ == a2@ && g.edges@[k].end_node.id@ == a2@))
                } by {
                    if p < old_r.len() {
                        assert(r@[p] == old_r[p]);
                    }
                }
                assert(r@[r@.len() - 1] == (a.id, b.id, adjacent));
                assert forall|x: int, y: int| 0 <= x < i && 0 <= y < vs@.len() implies #[trigger] has_pair(r@, vs@[x].id@, vs@[y].id@) by {
                    assert(has_pair(old_r, vs@[x].id@, vs@[y].id@));
                    let p = choose|p: int| 0 <= p < old_r.len() && (#[trigger] old_r[p]).0@ == vs@[x].id@ && old_r[p].1@ == vs@[y].id@;
                    assert(r@[p] == old_r[p]);
                }
                assert forall|y: int| 0 <= y < j + 1 implies #[trigger] has_pair(r@, vs@[i as int].id@, vs@[y].id@) by {
                    if y < j {
                        assert(has_pair(old_r, vs@[i as int].id@, vs@[y].id@));
                        let p = choose|p: int| 0 <= p < old_r.len() && (#[trigger] old_r[p]).0@ == vs@[i as int].id@ && old_r[p].1@ == vs@[y].id@;
                        assert(r@[p] == old_r[p]);
                    } else {
                        assert(r@[r@.len() - 1].0@ == vs@[i as int].id@);
                    }
                }
            }
            j += 1;
        }
        i += 1;
    }
    proof {
        assert forall|a: Seq<char>, b: Seq<char>| g.vertex_ids().contains(a) && g.vertex_ids().contains(b) implies #[trigger] has_pair(r@, a, b) by {
            let x = choose|x: int| 0 <= x < vs@.len() && vs@[x].id@ == a;
            let y = choose|y: int| 0 <= y < vs@.len() && vs@[y].id@ == b;
            assert(has_pair(r@, vs@[x].id@, vs@[y].id@));
        }
    }
    r
}

/// `r` holds an entry for the ordered pair `(a, b)`.
pub open spec fn has_pair(r: Seq<(String, String, bool)>, a: Seq<char>, b: Seq<char>) -> bool {
    exists|p: int| 0 <= p < r.len() && (#[trigger] r[p]).0@ == a && r[p].1@ == b
}

/// Some edge of `edges` is a loop on `a`.
fn has_loop(edges: &Vec<Edge>, a: &Node) -> (r: bool)
    ensures
        r == exists|k: int| 0 <= k < edges@.len() && #[trigger] edges@[k].start_node.id@ == a.id@ && edges@[k].end_node.id@ == a.id@,
{
    let mut i: usize = 0;
    while i < edges.len()
        invariant
            0 <= i <= edges@.len(),
            forall|k: int| 0 <= k < i ==> !(#[trigger] edges@[k].start_node.id@ == a.id@ && edges@[k].end_node.id@ == a.id@),
        decreases edges@.len() - i,
    {
        if edges[i].start_node.id == a.id && edges[i].end_node.id == a.id {
            return true;
        }
        i += 1;
    }
    false
}

} // verus!
