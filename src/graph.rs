//! Graphs: a set of isolated vertices and a set of edges.
use crate::edge::{is_endpoint, Edge};
use crate::edgetype::EdgeType;
use crate::node::{has_id, ids_of, lemma_same_ids, unique_ids, Node};
use std::collections::HashMap;
use vstd::prelude::*;

verus! {

/// Relies on uuid::Uuid::new_v4 and its `Display`: a fresh random identifier
/// written in the hyphenated form, 36 characters long.
#[verifier::external_body]
pub(crate) fn fresh_id() -> (r: String)
    ensures
        r@.len() == 36,
{
    uuid::Uuid::new_v4().to_string()
}

/// The identifiers of a sequence of edges, as a set.
pub open spec fn edge_ids_of(s: Seq<Edge>) -> Set<Seq<char>> {
    Set::new(|id: Seq<char>| exists|i: int| 0 <= i < s.len() && s[i].id@ == id)
}

/// What identifies an edge and its ends: identifier, orientation, start
/// identifier, end identifier.
pub open spec fn edge_key(e: Edge) -> (Seq<char>, EdgeType, Seq<char>, Seq<char>) {
    (e.id@, e.edge_type, e.start_node.id@, e.end_node.id@)
}

/// The identifiers of all ends of a sequence of edges, as a set.
pub open spec fn endpoint_ids_of(s: Seq<Edge>) -> Set<Seq<char>> {
    Set::new(|id: Seq<char>| exists|i: int| 0 <= i < s.len() && is_endpoint(s[i], id))
}

/// Edge sequences that agree position by position on their keys have the
/// same identifiers and the same ends.
pub proof fn lemma_same_keys(a: Seq<Edge>, b: Seq<Edge>)
    requires
        a.len() == b.len(),
        forall|k: int| 0 <= k < a.len() ==> #[trigger] same_edge(a[k], b[k]),
    ensures
        edge_ids_of(a) == edge_ids_of(b),
        endpoint_ids_of(a) == endpoint_ids_of(b),
{
    assert forall|id: Seq<char>| edge_ids_of(a).contains(id) <==> edge_ids_of(b).contains(id) by {
        if edge_ids_of(a).contains(id) {
            let k = choose|k: int| 0 <= k < a.len() && a[k].id@ == id;
            assert(same_edge(a[k], b[k]));
        }
        if edge_ids_of(b).contains(id) {
            let k = choose|k: int| 0 <= k < b.len() && b[k].id@ == id;
            assert(same_edge(a[k], b[k]));
        }
    }
    assert forall|id: Seq<char>| endpoint_ids_of(a).contains(id) <==> endpoint_ids_of(b).contains(id) by {
        if endpoint_ids_of(a).contains(id) {
            let k = choose|k: int| 0 <= k < a.len() && is_endpoint(a[k], id);
            assert(same_edge(a[k], b[k]));
        }
        if endpoint_ids_of(b).contains(id) {
            let k = choose|k: int| 0 <= k < b.len() && is_endpoint(b[k], id);
            assert(same_edge(a[k], b[k]));
        }
    }
    assert(edge_ids_of(a) =~= edge_ids_of(b));
    assert(endpoint_ids_of(a) =~= endpoint_ids_of(b));
}

/// No two edges of `s` share an identifier.
pub open spec fn unique_edge_ids(s: Seq<Edge>) -> bool {
    forall|i: int, j: int|
        0 <= i < s.len() && 0 <= j < s.len() && i != j ==> s[i].id@ != s[j].id@
}

/// `s` holds an edge with identifier `id`.
pub open spec fn has_edge_id(s: Seq<Edge>, id: Seq<char>) -> bool {
    exists|i: int| 0 <= i < s.len() && s[i].id@ == id
}

/// Two edges agree on identifier, orientation and end identifiers.
pub open spec fn same_edge(a: Edge, b: Edge) -> bool {
    edge_key(a) == edge_key(b)
}

/// Position `i` of `s` holds the first edge of `s` with its identifier.
pub open spec fn first_of_its_id(s: Seq<Edge>, i: int) -> bool {
    0 <= i < s.len() && forall|k: int| 0 <= k < i ==> s[k].id@ != s[i].id@
}

/// Both ends of `e` are among `ids`.
pub open spec fn ends_within(e: Edge, ids: Set<Seq<char>>) -> bool {
    ids.contains(e.start_node.id@) && ids.contains(e.end_node.id@)
}

/// `e` agrees with the first edge of `s` that has its identifier.
pub open spec fn is_first_in(e: Edge, s: Seq<Edge>) -> bool {
    exists|i: int| first_of_its_id(s, i) && #[trigger] same_edge(e, s[i])
}

/// `e` agrees with the first edge of `s` that has its identifier, and that
/// edge has both ends among `ids`.
pub open spec fn is_first_within(e: Edge, s: Seq<Edge>, ids: Set<Seq<char>>) -> bool {
    exists|i: int| first_of_its_id(s, i) && ends_within(s[i], ids) && #[trigger] same_edge(e, s[i])
}

/// `r` holds, once each, the first edge of each identifier in `s` whose ends
/// are among `ids`.
pub open spec fn first_edges_within(r: Seq<Edge>, s: Seq<Edge>, ids: Set<Seq<char>>) -> bool {
    &&& unique_edge_ids(r)
    &&& forall|i: int| first_of_its_id(s, i) && ends_within(s[i], ids) ==> has_edge_id(r, #[trigger] s[i].id@)
    &&& forall|j: int| 0 <= j < r.len() ==> is_first_within(#[trigger] r[j], s, ids)
}

/// Position of the first edge of `s` with identifier `id`.
pub open spec fn first_pos(s: Seq<Edge>, id: Seq<char>) -> int {
    choose|i: int| first_of_its_id(s, i) && s[i].id@ == id
}

/// The first edge with the identifier at position `i` is at position `i`.
pub proof fn lemma_first_pos(s: Seq<Edge>, i: int)
    requires
        first_of_its_id(s, i),
    ensures
        first_pos(s, s[i].id@) == i,
{
    let q = first_pos(s, s[i].id@);
    assert(first_of_its_id(s, q) && s[q].id@ == s[i].id@);
    if q < i {
        assert(s[q].id@ != s[i].id@);
    } else if q > i {
        assert(s[i].id@ != s[q].id@);
    }
}

/// `r` holds, once each, the first edge of each identifier in `s`, in the
/// order of `s`.
pub open spec fn dedup_edges(r: Seq<Edge>, s: Seq<Edge>) -> bool {
    &&& unique_edge_ids(r)
    &&& edge_ids_of(r) == edge_ids_of(s)
    &&& forall|j: int| 0 <= j < r.len() ==> is_first_in(#[trigger] r[j], s)
    &&& forall|j1: int, j2: int|
        0 <= j1 < j2 < r.len() ==> first_pos(s, (#[trigger] r[j1]).id@) < first_pos(s, (#[trigger] r[j2]).id@)
}

/// A graph: vertices are the isolated nodes together with every end of an
/// edge; edges are identified by their identifiers.
#[derive(Debug, Clone)]
pub struct Graph {
    /// identifier of the graph
    pub id: String,
    /// payload attached to the graph
    pub data: HashMap<String, Vec<String>>,
    /// vertices that are no end of any edge
    pub nodes: Vec<Node>,
    /// the edges
    pub edges: Vec<Edge>,
}

impl Graph {
    /// Identifiers of the vertices.
    pub open spec fn vertex_ids(&self) -> Set<Seq<char>> {
        ids_of(self.nodes@) + endpoint_ids_of(self.edges@)
    }

    /// Identifiers of the edges.
    pub open spec fn edge_ids(&self) -> Set<Seq<char>> {
        edge_ids_of(self.edges@)
    }

    /// Well-formed: edge identifiers are unique, isolated nodes are unique
    /// and no end of an edge.
    pub open spec fn wf(&self) -> bool {
        &&& unique_edge_ids(self.edges@)
        &&& unique_ids(self.nodes@)
        &&& forall|i: int, j: int|
            0 <= i < self.nodes@.len() && 0 <= j < self.edges@.len() ==> !is_endpoint(
                #[trigger] self.edges@[j],
                #[trigger] self.nodes@[i].id@,
            )
    }

    /// Builds a graph from its parts. Of several edges with one identifier
    /// the first is kept; nodes that are ends of edges are not stored twice.
    pub fn new(
        graph_id: String,
        graph_data: HashMap<String, Vec<String>>,
        nodes: Vec<Node>,
        edges: Vec<Edge>,
    ) -> (r: Graph)
        ensures
            r.wf(),
            r.id@ == graph_id@,
            r.data@ == graph_data@,
            r.vertex_ids() == ids_of(nodes@) + endpoint_ids_of(r.edges@),
            dedup_edges(r.edges@, edges@),
    {
        let es = dedup_edge_list(&edges);
        let ns = get_vertices(&nodes, &es);
        let r = Graph { id: graph_id, data: graph_data, nodes: ns, edges: es };
        assert(r.vertex_ids() =~= ids_of(nodes@) + endpoint_ids_of(r.edges@));
        r
    }

    /// Builds a graph from copies of the given nodes and edges, as `new`
    /// does.
    pub fn new_refs(
        graph_id: String,
        graph_data: HashMap<String, Vec<String>>,
        nodes: &Vec<Node>,
        edges: &Vec<Edge>,
    ) -> (r: Graph)
        ensures
            r.wf(),
            r.id@ == graph_id@,
            r.data@ == graph_data@,
            r.vertex_ids() == ids_of(nodes@) + endpoint_ids_of(r.edges@),
            dedup_edges(r.edges@, edges@),
    {
        let ns = copy_nodes(nodes);
        let es = copy_edges(edges);
        let ghost es_view = es@;
        let r = Graph::new(graph_id, graph_data, ns, es);
        proof {
            lemma_same_ids(ns@, nodes@);
            lemma_same_keys(es_view, edges@);
            assert forall|j: int| 0 <= j < r.edges@.len() implies is_first_in(#[trigger] r.edges@[j], edges@) by {
                assert(is_first_in(r.edges@[j], es_view));
                let i = choose|i: int| first_of_its_id(es_view, i) && #[trigger] same_edge(r.edges@[j], es_view[i]);
                assert(same_edge(es_view[i], edges@[i]));
                assert forall|k: int| 0 <= k < i implies edges@[k].id@ != edges@[i].id@ by {
                    assert(same_edge(es_view[k], edges@[k]));
                }
                assert(first_of_its_id(edges@, i));
                assert(same_edge(r.edges@[j], edges@[i]));
            }
            assert forall|j: int| 0 <= j < r.edges@.len() implies first_pos(edges@, (#[trigger] r.edges@[j]).id@) == first_pos(
                es_view,
                r.edges@[j].id@,
            ) by {
                assert(is_first_in(r.edges@[j], es_view));
                let i = choose|i: int| first_of_its_id(es_view, i) && #[trigger] same_edge(r.edges@[j], es_view[i]);
                assert(same_edge(es_view[i], edges@[i]));
                assert forall|k: int| 0 <= k < i implies edges@[k].id@ != edges@[i].id@ by {
                    assert(same_edge(es_view[k], edges@[k]));
                }
                lemma_first_pos(es_view, i);
                lemma_first_pos(edges@, i);
            }
            assert forall|j1: int, j2: int|
                0 <= j1 < j2 < r.edges@.len() implies first_pos(edges@, (#[trigger] r.edges@[j1]).id@) < first_pos(
                    edges@,
                    (#[trigger] r.edges@[j2]).id@,
                ) by {
                assert(first_pos(edges@, r.edges@[j1].id@) == first_pos(es_view, r.edges@[j1].id@));
                assert(first_pos(edges@, r.edges@[j2].id@) == first_pos(es_view, r.edges@[j2].id@));
            }
        }
        r
    }

    /// The graph without vertices and edges.
    pub fn empty(graph_id: &str) -> (r: Graph)
        ensures
            r.wf(),
            r.id@ == graph_id@,
            r.data@ == Map::<String, Vec<String>>::empty(),
            r.vertex_ids() == Set::<Seq<char>>::empty(),
            r.edges@.len() == 0,
    {
        let r = Graph { id: String::from_str(graph_id), data: HashMap::new(), nodes: Vec::new(), edges: Vec::new() };
        assert(r.vertex_ids() =~= Set::<Seq<char>>::empty());
        r
    }

    /// A copy of `g`.
    pub fn from_graphish_ref(g: &Graph) -> (r: Graph)
        requires
            g.wf(),
        ensures
            r.wf(),
            r.id@ == g.id@,
            r.data@ == g.data@,
            r.vertex_ids() == g.vertex_ids(),
            r.edges@.len() == g.edges@.len(),
            forall|k: int| 0 <= k < g.edges@.len() ==> #[trigger] same_edge(r.edges@[k], g.edges@[k]),
    {
        let r = Graph { id: g.id.clone(), data: g.data.clone(), nodes: copy_nodes(&g.nodes), edges: copy_edges(&g.edges) };
        proof {
            lemma_same_ids(r.nodes@, g.nodes@);
            lemma_same_keys(r.edges@, g.edges@);
            assert forall|i: int, j: int|
                0 <= i < r.nodes@.len() && 0 <= j < r.edges@.len() implies !is_endpoint(
                    #[trigger] r.edges@[j],
                    #[trigger] r.nodes@[i].id@,
                ) by {
                assert(same_edge(r.edges@[j], g.edges@[j]));
                assert(!is_endpoint(g.edges@[j], g.nodes@[i].id@));
            }
            assert forall|i: int, j: int|
                0 <= i < r.edges@.len() && 0 <= j < r.edges@.len() && i != j implies r.edges@[i].id@ != r.edges@[j].id@ by {
                assert(same_edge(r.edges@[j], g.edges@[j]));
                assert(same_edge(r.edges@[i], g.edges@[i]));
            }
        }
        r
    }

    /// Takes `g` over.
    pub fn from_graphish(g: Graph) -> (r: Graph)
        requires
            g.wf(),
        ensures
            r.wf(),
            r.id@ == g.id@,
            r.data@ == g.data@,
            r.vertex_ids() == g.vertex_ids(),
            r.edges@ == g.edges@,
    {
        g
    }

    /// A graph with a fresh identifier made of `edges` alone.
    pub fn from_edgeset(edges: Vec<Edge>) -> (r: Graph)
        ensures
            r.wf(),
            r.vertex_ids() == endpoint_ids_of(r.edges@),
            dedup_edges(r.edges@, edges@),
    {
        let r = Graph::new(fresh_id(), HashMap::new(), Vec::new(), edges);
        assert(ids_of(Seq::<Node>::empty()) =~= Set::<Seq<char>>::empty());
        assert(r.vertex_ids() =~= endpoint_ids_of(r.edges@));
        r
    }

    /// A graph with a fresh identifier made of `edges` and `nodes`.
    pub fn from_edge_node_set(edges: Vec<Edge>, nodes: Vec<Node>) -> (r: Graph)
        ensures
            r.wf(),
            r.vertex_ids() == ids_of(nodes@) + endpoint_ids_of(r.edges@),
            dedup_edges(r.edges@, edges@),
    {
        Graph::new(fresh_id(), HashMap::new(), nodes, edges)
    }

    /// A graph with a fresh identifier made of copies of `edges` and `nodes`.
    pub fn from_edge_node_refs_set(edges: &Vec<Edge>, nodes: &Vec<Node>) -> (r: Graph)
        ensures
            r.wf(),
            r.vertex_ids() == ids_of(nodes@) + endpoint_ids_of(r.edges@),
            dedup_edges(r.edges@, edges@),
    {
        Graph::new_refs(fresh_id(), HashMap::new(), nodes, edges)
    }

    /// A graph with a fresh identifier made of `nodes` and of those `edges`
    /// whose two ends are among `nodes`.
    pub fn based_on_node_set(edges: Vec<Edge>, nodes: Vec<Node>) -> (r: Graph)
        ensures
            r.wf(),
            r.vertex_ids() == ids_of(nodes@),
            first_edges_within(r.edges@, edges@, ids_of(nodes@)),
    {
        let kept = first_edges_inside(&edges, &nodes);
        let ns = get_vertices(&nodes, &kept);
        let r = Graph { id: fresh_id(), data: HashMap::new(), nodes: ns, edges: kept };
        proof {
            assert forall|id: Seq<char>| r.vertex_ids().contains(id) <==> ids_of(nodes@).contains(id) by {
                if endpoint_ids_of(kept@).contains(id) {
                    let k = choose|k: int| 0 <= k < kept@.len() && is_endpoint(kept@[k], id);
                    assert(is_first_within(kept@[k], edges@, ids_of(nodes@)));
                    let j = choose|j: int| first_of_its_id(edges@, j) && ends_within(edges@[j], ids_of(nodes@)) && #[trigger] same_edge(kept@[k], edges@[j]);
                }
            }
            assert(r.vertex_ids() =~= ids_of(nodes@));
        }
        r
    }

    /// The edges.
    pub fn edges(&self) -> (r: &Vec<Edge>)
        ensures
            r@ == self.edges@,
    {
        &self.edges
    }

    /// The vertices, each once: the ends of the edges in edge order, then
    /// the isolated nodes.
    pub fn vertices(&self) -> (r: Vec<Node>)
        requires
            self.wf(),
        ensures
            unique_ids(r@),
            ids_of(r@) == self.vertex_ids(),
            r@.len() <= self.nodes@.len() + 2 * self.edges@.len(),
    {
        let mut r = endpoint_nodes(&self.edges);
        proof {
            assert(self.edges@.take(self.edges@.len() as int) == self.edges@);
        }
        let ghost before = r@;
        let mut j: usize = 0;
        while j < self.nodes.len()
            invariant
                self.wf(),
                0 <= j <= self.nodes@.len(),
                unique_ids(r@),
                ids_of(before) == endpoint_ids_of(self.edges@),
                ids_of(r@) == ids_of(before) + ids_of(self.nodes@.take(j as int)),
                before.len() <= 2 * self.edges@.len(),
                r@.len() <= before.len() + j,
            decreases self.nodes@.len() - j,
        {
            let n = &self.nodes[j];
            proof {
                if has_id(r@, n.id@) {
                    assert(ids_of(r@).contains(n.id@));
                    if ids_of(before).contains(n.id@) {
                        let e = choose|e: int| 0 <= e < self.edges@.len() && is_endpoint(self.edges@[e], n.id@);
                        assert(!is_endpoint(self.edges@[e], self.nodes@[j as int].id@));
                    } else {
                        let k = choose|k: int| 0 <= k < j && self.nodes@.take(j as int)[k].id@ == n.id@;
                        assert(self.nodes@[k].id@ == self.nodes@[j as int].id@);
                    }
                }
            }
            push_unique_node(&mut r, n);
            proof {
                let t0 = self.nodes@.take(j as int);
                let t1 = self.nodes@.take(j + 1);
                assert forall|id: Seq<char>| ids_of(t1).contains(id) <==> ids_of(t0).insert(n.id@).contains(id) by {
                    if ids_of(t1).contains(id) {
                        let k = choose|k: int| 0 <= k < t1.len() && t1[k].id@ == id;
                        if k < j {
                            assert(t0[k] == t1[k]);
                        }
                    }
                    if ids_of(t0).contains(id) {
                        let k = choose|k: int| 0 <= k < t0.len() && t0[k].id@ == id;
                        assert(t0[k] == t1[k]);
                    }
                    assert(t1[j as int] == *n);
                }
                assert(ids_of(t1) =~= ids_of(t0).insert(n.id@));
                assert(ids_of(r@) =~= ids_of(before) + ids_of(t1));
            }
            j += 1;
        }
        assert(self.nodes@.take(self.nodes@.len() as int) == self.nodes@);
        assert(ids_of(r@) =~= self.vertex_ids());
        r
    }

    /// Text form of the graph: `<Graph id='...'/>`.
    pub fn to_text(&self) -> (r: String)
        ensures
            r@ == "<Graph id='"@ + self.id@ + "'/>"@,
    {
        let mut s = String::from_str("<Graph id='");
        s.append(self.id.as_str());
        s.append("'/>");
        s
    }
}

/// The ends of the edges of `edges`, each identifier once, in edge order.
pub fn endpoint_nodes(edges: &Vec<Edge>) -> (r: Vec<Node>)
    ensures
        unique_ids(r@),
        ids_of(r@) == endpoint_ids_of(edges@),
        r@.len() <= 2 * edges@.len(),
{
    let mut r: Vec<Node> = Vec::new();
    let mut i: usize = 0;
    while i < edges.len()
        invariant
            0 <= i <= edges@.len(),
            unique_ids(r@),
            ids_of(r@) == endpoint_ids_of(edges@.take(i as int)),
            r@.len() <= 2 * i,
        decreases edges@.len() - i,
    {
        let e = &edges[i];
        push_unique_node(&mut r, &e.start_node);
        push_unique_node(&mut r, &e.end_node);
        proof {
            let t0 = edges@.take(i as int);
            let t1 = edges@.take(i + 1);
            assert forall|id: Seq<char>| endpoint_ids_of(t1).contains(id) <==> endpoint_ids_of(t0).insert(e.start_node.id@).insert(e.end_node.id@).contains(id) by {
                if endpoint_ids_of(t1).contains(id) {
                    let k = choose|k: int| 0 <= k < t1.len() && is_endpoint(t1[k], id);
                    if k < i {
                        assert(t0[k] == t1[k]);
                    }
                }
                if endpoint_ids_of(t0).contains(id) {
                    let k = choose|k: int| 0 <= k < t0.len() && is_endpoint(t0[k], id);
                    assert(t0[k] == t1[k]);
                }
                assert(t1[i as int] == *e);
            }
            assert(endpoint_ids_of(t1) =~= endpoint_ids_of(t0).insert(e.start_node.id@).insert(e.end_node.id@));
        }
        i += 1;
    }
    assert(edges@.take(edges@.len() as int) == edges@);
    r
}

/// `v` holds a node with identifier `id`.
pub fn contains_node_id(v: &Vec<Node>, id: &String) -> (r: bool)
    ensures
        r == has_id(v@, id@),
        r == ids_of(v@).contains(id@),
{
    let mut i: usize = 0;
    while i < v.len()
        invariant
            0 <= i <= v@.len(),
            forall|k: int| 0 <= k < i ==> v@[k].id@ != id@,
        decreases v@.len() - i,
    {
        if v[i].id == *id {
            return true;
        }
        i += 1;
    }
    false
}

/// `v` holds an edge with identifier `id`.
pub fn contains_edge_id(v: &Vec<Edge>, id: &String) -> (r: bool)
    ensures
        r == has_edge_id(v@, id@),
        r == edge_ids_of(v@).contains(id@),
{
    let mut i: usize = 0;
    while i < v.len()
        invariant
            0 <= i <= v@.len(),
            forall|k: int| 0 <= k < i ==> v@[k].id@ != id@,
        decreases v@.len() - i,
    {
        if v[i].id == *id {
            return true;
        }
        i += 1;
    }
    false
}

/// Appends a copy of `n` unless a node with its identifier is there.
pub fn push_unique_node(r: &mut Vec<Node>, n: &Node)
    requires
        unique_ids(old(r)@),
    ensures
        unique_ids(final(r)@),
        has_id(final(r)@, n.id@),
        ids_of(final(r)@) == ids_of(old(r)@).insert(n.id@),
        has_id(old(r)@, n.id@) ==> final(r)@ == old(r)@,
        !has_id(old(r)@, n.id@) ==> final(r)@ == old(r)@.push(final(r)@.last()) && final(r)@.last().id@
            == n.id@ && final(r)@.last().data@ == n.data@,
{
    let ghost old_r = r@;
    if !contains_node_id(r, &n.id) {
        r.push(Node::from_nodish_ref(n));
        proof {
            let k = r@.len() - 1;
            assert(r@[k].id@ == n.id@);
            assert forall|id: Seq<char>| ids_of(r@).contains(id) <==> ids_of(old_r).insert(n.id@).contains(id) by {
                if ids_of(r@).contains(id) {
                    let j = choose|j: int| 0 <= j < r@.len() && r@[j].id@ == id;
                    if j < old_r.len() {
                        assert(r@[j] == old_r[j]);
                    }
                }
                if ids_of(old_r).contains(id) {
                    let j = choose|j: int| 0 <= j < old_r.len() && old_r[j].id@ == id;
                    assert(r@[j] == old_r[j]);
                }
            }
        }
    } else {
        assert(ids_of(r@).contains(n.id@));
    }
    assert(ids_of(r@) =~= ids_of(old_r).insert(n.id@));
}

/// Copies of the nodes of `v`, in order.
pub fn copy_nodes(v: &Vec<Node>) -> (r: Vec<Node>)
    ensures
        r@.len() == v@.len(),
        forall|k: int| 0 <= k < v@.len() ==> r@[k].id@ == #[trigger] v@[k].id@ && r@[k].data@ == v@[k].data@,
{
    let mut r: Vec<Node> = Vec::new();
    let mut i: usize = 0;
    while i < v.len()
        invariant
            0 <= i <= v@.len(),
            r@.len() == i,
            forall|k: int| 0 <= k < i ==> r@[k].id@ == #[trigger] v@[k].id@ && r@[k].data@ == v@[k].data@,
        decreases v@.len() - i,
    {
        r.push(Node::from_nodish_ref(&v[i]));
        i += 1;
    }
    r
}

/// Copies of the edges of `v`, in order.
pub fn copy_edges(v: &Vec<Edge>) -> (r: Vec<Edge>)
    ensures
        r@.len() == v@.len(),
        forall|k: int| 0 <= k < v@.len() ==> #[trigger] same_edge(r@[k], v@[k]),
{
    let mut r: Vec<Edge> = Vec::new();
    let mut i: usize = 0;
    while i < v.len()
        invariant
            0 <= i <= v@.len(),
            r@.len() == i,
            forall|k: int| 0 <= k < i ==> #[trigger] same_edge(r@[k], v@[k]),
        decreases v@.len() - i,
    {
        r.push(Edge::from_edgish_ref(&v[i]));
        i += 1;
    }
    r
}

/// The first edge of each identifier in `edges` whose ends are among
/// `nodes`, in order.
pub fn first_edges_inside(edges: &Vec<Edge>, nodes: &Vec<Node>) -> (r: Vec<Edge>)
    ensures
        first_edges_within(r@, edges@, ids_of(nodes@)),
{
    let ghost ids = ids_of(nodes@);
    let mut r: Vec<Edge> = Vec::new();
    let ghost mut src: Seq<int> = Seq::empty();
    let mut i: usize = 0;
    while i < edges.len()
        invariant
            0 <= i <= edges@.len(),
            ids == ids_of(nodes@),
            unique_edge_ids(r@),
            src.len() == r@.len(),
            forall|j: int| #![trigger r@[j]] #![trigger src[j]] 0 <= j < r@.len() ==> 0 <= src[j] < i && first_of_its_id(edges@, src[j])
                && ends_within(edges@[src[j]], ids) && same_edge(r@[j], edges@[src[j]]),
            forall|k: int| 0 <= k < i && first_of_its_id(edges@, k) && ends_within(edges@[k], ids) ==> has_edge_id(r@, #[trigger] edges@[k].id@),
        decreases edges@.len() - i,
    {
        let e = &edges[i];
        let ghost old_r = r@;
        let first = !prefix_has_edge_id(edges, i, &e.id);
        let inside = contains_node_id(nodes, &e.start_node.id) && contains_node_id(nodes, &e.end_node.id);
        if first && inside {
            proof {
                assert forall|j: int| 0 <= j < r@.len() implies r@[j].id@ != e.id@ by {
                    assert(same_edge(r@[j], edges@[src[j]]));
                }
            }
            r.push(Edge::from_edgish_ref(e));
            proof {
                src = src.push(i as int);
                assert forall|j: int| #![trigger r@[j]] #![trigger src[j]] 0 <= j < r@.len() implies 0 <= src[j] < i + 1 && first_of_its_id(edges@, src[j])
                    && ends_within(edges@[src[j]], ids) && same_edge(r@[j], edges@[src[j]]) by {
                    if j < old_r.len() {
                        assert(r@[j] == old_r[j]);
                    }
                }
                assert(has_edge_id(r@, e.id@)) by {
                    assert(r@[r@.len() - 1].id@ == e.id@);
                }
            }
        }
        proof {
            assert forall|k: int| 0 <= k < i + 1 && first_of_its_id(edges@, k) && ends_within(edges@[k], ids) implies has_edge_id(r@, #[trigger] edges@[k].id@) by {
                if k < i {
                    assert(has_edge_id(old_r, edges@[k].id@));
                    let j = choose|j: int| 0 <= j < old_r.len() && old_r[j].id@ == edges@[k].id@;
                    assert(r@[j] == old_r[j]);
                }
            }
        }
        i += 1;
    }
    proof {
        assert forall|j: int| 0 <= j < r@.len() implies is_first_within(#[trigger] r@[j], edges@, ids) by {
            assert(same_edge(r@[j], edges@[src[j]]));
        }
    }
    r
}

/// Some edge among the first `i` of `edges` has identifier `id`.
pub fn prefix_has_edge_id(edges: &Vec<Edge>, i: usize, id: &String) -> (r: bool)
    requires
        i <= edges@.len(),
    ensures
        r == exists|k: int| 0 <= k < i && #[trigger] edges@[k].id@ == id@,
{
    let mut k: usize = 0;
    while k < i
        invariant
            0 <= k <= i <= edges@.len(),
            forall|m: int| 0 <= m < k ==> edges@[m].id@ != id@,
        decreases i - k,
    {
        if edges[k].id == *id {
            return true;
        }
        k += 1;
    }
    false
}

/// The first edge of each identifier in `edges`, in order.
pub fn dedup_edge_list(edges: &Vec<Edge>) -> (r: Vec<Edge>)
    ensures
        dedup_edges(r@, edges@),
{
    let mut r: Vec<Edge> = Vec::new();
    let ghost mut src: Seq<int> = Seq::empty();
    let mut i: usize = 0;
    while i < edges.len()
        invariant
            0 <= i <= edges@.len(),
            unique_edge_ids(r@),
            src.len() == r@.len(),
            forall|j: int| #![trigger r@[j]] #![trigger src[j]] 0 <= j < r@.len() ==> 0 <= src[j] < i && first_of_its_id(edges@, src[j])
                && same_edge(r@[j], edges@[src[j]]),
            forall|k: int| 0 <= k < i ==> has_edge_id(r@, #[trigger] edges@[k].id@),
            forall|j1: int, j2: int| 0 <= j1 < j2 < r@.len() ==> #[trigger] src[j1] < #[trigger] src[j2],
        decreases edges@.len() - i,
    {
        let e = &edges[i];
        let ghost old_r = r@;
        if !contains_edge_id(&r, &e.id) {
            proof {
                assert forall|k: int| 0 <= k < i implies edges@[k].id@ != e.id@ by {
                    assert(has_edge_id(r@, edges@[k].id@));
                }
                assert(first_of_its_id(edges@, i as int));
                assert forall|j: int| 0 <= j < r@.len() implies r@[j].id@ != e.id@ by {
                    if r@[j].id@ == e.id@ {
                        assert(has_edge_id(r@, e.id@));
                    }
                }
            }
            r.push(Edge::from_edgish_ref(e));
            proof {
                src = src.push(i as int);
                assert forall|j: int| #![trigger r@[j]] #![trigger src[j]] 0 <= j < r@.len() implies 0 <= src[j] < i + 1 && first_of_its_id(edges@, src[j])
                    && same_edge(r@[j], edges@[src[j]]) by {
                    if j < old_r.len() {
                        assert(r@[j] == old_r[j]);
                    }
                }
                assert(r@[r@.len() - 1].id@ == e.id@);
            }
        }
        proof {
            assert forall|k: int| 0 <= k < i + 1 implies has_edge_id(r@, #[trigger] edges@[k].id@) by {
                if k < i {
                    assert(has_edge_id(old_r, edges@[k].id@));
                    let j = choose|j: int| 0 <= j < old_r.len() && old_r[j].id@ == edges@[k].id@;
                    assert(r@[j] == old_r[j]);
                } else {
                    assert(has_edge_id(r@, e.id@));
                }
            }
        }
        i += 1;
    }
    proof {
        assert forall|id: Seq<char>| edge_ids_of(r@).contains(id) <==> edge_ids_of(edges@).contains(id) by {
            if edge_ids_of(edges@).contains(id) {
                let k = choose|k: int| 0 <= k < edges@.len() && edges@[k].id@ == id;
                assert(has_edge_id(r@, edges@[k].id@));
            }
            if edge_ids_of(r@).contains(id) {
                let j = choose|j: int| 0 <= j < r@.len() && r@[j].id@ == id;
                assert(same_edge(r@[j], edges@[src[j]]));
            }
        }
        assert(edge_ids_of(r@) =~= edge_ids_of(edges@));
        assert forall|j1: int, j2: int|
            0 <= j1 < j2 < r@.len() implies first_pos(edges@, (#[trigger] r@[j1]).id@) < first_pos(edges@, (#[trigger] r@[j2]).id@) by {
            assert(same_edge(r@[j1], edges@[src[j1]]));
            assert(same_edge(r@[j2], edges@[src[j2]]));
            lemma_first_pos(edges@, src[j1]);
            lemma_first_pos(edges@, src[j2]);
            assert(src[j1] < src[j2]);
        }
        assert forall|j: int| 0 <= j < r@.len() implies is_first_in(#[trigger] r@[j], edges@) by {
            assert(same_edge(r@[j], edges@[src[j]]));
        }
    }
    r
}

/// Copies of those `nodes` that are no end of an edge of `edges`, each
/// identifier once.
pub fn get_vertices(nodes: &Vec<Node>, edges: &Vec<Edge>) -> (r: Vec<Node>)
    ensures
        unique_ids(r@),
        ids_of(r@) == ids_of(nodes@).difference(endpoint_ids_of(edges@)),
        forall|i: int, j: int|
            0 <= i < r@.len() && 0 <= j < edges@.len() ==> !is_endpoint(#[trigger] edges@[j], #[trigger] r@[i].id@),
{
    let mut r: Vec<Node> = Vec::new();
    let mut i: usize = 0;
    while i < nodes.len()
        invariant
            0 <= i <= nodes@.len(),
            unique_ids(r@),
            ids_of(r@) == ids_of(nodes@.take(i as int)).difference(endpoint_ids_of(edges@)),
        decreases nodes@.len() - i,
    {
        let n = &nodes[i];
        let incident = is_some_endpoint(edges, &n.id);
        if !incident {
            push_unique_node(&mut r, n);
        }
        proof {
            let t0 = nodes@.take(i as int);
            let t1 = nodes@.take(i + 1);
            assert forall|id: Seq<char>| ids_of(t1).contains(id) <==> ids_of(t0).insert(n.id@).contains(id) by {
                if ids_of(t1).contains(id) {
                    let k = choose|k: int| 0 <= k < t1.len() && t1[k].id@ == id;
                    if k < i {
                        assert(t0[k] == t1[k]);
                    }
                }
                if ids_of(t0).contains(id) {
                    let k = choose|k: int| 0 <= k < t0.len() && t0[k].id@ == id;
                    assert(t0[k] == t1[k]);
                }
                assert(t1[i as int] == *n);
            }
            assert(ids_of(t1) =~= ids_of(t0).insert(n.id@));
            assert(ids_of(r@) =~= ids_of(t1).difference(endpoint_ids_of(edges@)));
        }
        i += 1;
    }
    assert(nodes@.take(nodes@.len() as int) == nodes@);
    proof {
        assert forall|i: int, j: int|
            0 <= i < r@.len() && 0 <= j < edges@.len() implies !is_endpoint(#[trigger] edges@[j], #[trigger] r@[i].id@) by {
            assert(ids_of(r@).contains(r@[i].id@));
            if is_endpoint(edges@[j], r@[i].id@) {
                assert(endpoint_ids_of(edges@).contains(r@[i].id@));
            }
        }
    }
    r
}

/// Some edge of `edges` has an end with identifier `id`.
pub fn is_some_endpoint(edges: &Vec<Edge>, id: &String) -> (r: bool)
    ensures
        r == endpoint_ids_of(edges@).contains(id@),
{
    let mut i: usize = 0;
    while i < edges.len()
        invariant
            0 <= i <= edges@.len(),
            forall|k: int| 0 <= k < i ==> !is_endpoint(edges@[k], id@),
        decreases edges@.len() - i,
    {
        if edges[i].start_node.id == *id || edges[i].end_node.id == *id {
            assert(is_endpoint(edges@[i as int], id@));
            return true;
        }
        i += 1;
    }
    false
}

} // verus!
