//! Edges: identified objects joining a start and an end vertex.
use crate::edgetype::EdgeType;
use crate::node::Node;
use std::collections::HashMap;
use vstd::prelude::*;

verus! {

/// An edge between two vertices. Its identity is its identifier alone:
/// two edges with one identifier are one edge, whatever their ends.
#[derive(Debug, Clone)]
pub struct Edge {
    /// identifier of the edge
    pub id: String,
    /// payload attached to the edge
    pub data: HashMap<String, Vec<String>>,
    /// orientation of the edge
    pub edge_type: EdgeType,
    /// start vertex
    pub start_node: Node,
    /// end vertex
    pub end_node: Node,
}

/// The vertex with identifier `id` is an end of `e`.
pub open spec fn is_endpoint(e: Edge, id: Seq<char>) -> bool {
    e.start_node.id@ == id || e.end_node.id@ == id
}

/// What `get_other` gives: the identifier of the other end, if `id` is an end.
pub open spec fn other_end(e: Edge, id: Seq<char>) -> Option<Seq<char>> {
    if e.start_node.id@ == id {
        Some(e.end_node.id@)
    } else if e.end_node.id@ == id {
        Some(e.start_node.id@)
    } else {
        None
    }
}

/// The identifiers of the two ends of `e`, as a set.
pub open spec fn end_ids(e: Edge) -> Set<Seq<char>> {
    set![e.start_node.id@, e.end_node.id@]
}

impl Edge {
    /// Builds an edge from all of its parts.
    pub fn new(
        eid: String,
        e_data: HashMap<String, Vec<String>>,
        etype: EdgeType,
        snode: Node,
        enode: Node,
    ) -> (r: Edge)
        ensures
            r.id@ == eid@,
            r.data@ == e_data@,
            r.edge_type == etype,
            r.start_node.id@ == snode.id@,
            r.start_node.data@ == snode.data@,
            r.end_node.id@ == enode.id@,
            r.end_node.data@ == enode.data@,
    {
        Edge { id: eid, data: e_data, edge_type: etype, start_node: snode, end_node: enode }
    }

    /// Builds an undirected edge.
    pub fn undirected(eid: String, snode: Node, enode: Node, e_data: HashMap<String, Vec<String>>) -> (r: Edge)
        ensures
            r.id@ == eid@,
            r.data@ == e_data@,
            r.edge_type == EdgeType::Undirected,
            r.start_node.id@ == snode.id@,
            r.start_node.data@ == snode.data@,
            r.end_node.id@ == enode.id@,
            r.end_node.data@ == enode.data@,
    {
        Edge::new(eid, e_data, EdgeType::Undirected, snode, enode)
    }

    /// Builds a directed edge.
    pub fn directed(eid: String, snode: Node, enode: Node, e_data: HashMap<String, Vec<String>>) -> (r: Edge)
        ensures
            r.id@ == eid@,
            r.data@ == e_data@,
            r.edge_type == EdgeType::Directed,
            r.start_node.id@ == snode.id@,
            r.start_node.data@ == snode.data@,
            r.end_node.id@ == enode.id@,
            r.end_node.data@ == enode.data@,
    {
        Edge::new(eid, e_data, EdgeType::Directed, snode, enode)
    }

    /// A copy of `e`.
    pub fn from_edgish_ref(e: &Edge) -> (r: Edge)
        ensures
            r.id@ == e.id@,
            r.data@ == e.data@,
            r.edge_type == e.edge_type,
            r.start_node.id@ == e.start_node.id@,
            r.start_node.data@ == e.start_node.data@,
            r.end_node.id@ == e.end_node.id@,
            r.end_node.data@ == e.end_node.data@,
    {
        Edge {
            id: e.id.clone(),
            data: e.data.clone(),
            edge_type: e.edge_type,
            start_node: Node::from_nodish_ref(&e.start_node),
            end_node: Node::from_nodish_ref(&e.end_node),
        }
    }

    /// Takes `e` over.
    pub fn from_edgish(e: Edge) -> (r: Edge)
        ensures
            r.id@ == e.id@,
            r.data@ == e.data@,
            r.edge_type == e.edge_type,
            r.start_node.id@ == e.start_node.id@,
            r.end_node.id@ == e.end_node.id@,
    {
        e
    }

    /// Builds an edge without payload from identifiers alone.
    pub fn from_ids(eid: &str, etype: EdgeType, start_id: &str, end_id: &str) -> (r: Edge)
        ensures
            r.id@ == eid@,
            r.data@ == Map::<String, Vec<String>>::empty(),
            r.edge_type == etype,
            r.start_node.id@ == start_id@,
            r.start_node.data@ == Map::<String, Vec<String>>::empty(),
            r.end_node.id@ == end_id@,
            r.end_node.data@ == Map::<String, Vec<String>>::empty(),
    {
        Edge {
            id: String::from_str(eid),
            data: HashMap::new(),
            edge_type: etype,
            start_node: Node::from_id(start_id),
            end_node: Node::from_id(end_id),
        }
    }

    /// Builds an edge without payload from identifiers alone.
    pub fn empty(eid: &str, etype: EdgeType, start_id: &str, end_id: &str) -> (r: Edge)
        ensures
            r.id@ == eid@,
            r.data@ == Map::<String, Vec<String>>::empty(),
            r.edge_type == etype,
            r.start_node.id@ == start_id@,
            r.start_node.data@ == Map::<String, Vec<String>>::empty(),
            r.end_node.id@ == end_id@,
            r.end_node.data@ == Map::<String, Vec<String>>::empty(),
    {
        Edge::from_ids(eid, etype, start_id, end_id)
    }

    /// Start vertex.
    pub fn start(&self) -> (r: &Node)
        ensures
            r == &self.start_node,
    {
        &self.start_node
    }

    /// End vertex.
    pub fn end(&self) -> (r: &Node)
        ensures
            r == &self.end_node,
    {
        &self.end_node
    }

    /// Orientation of the edge.
    pub fn has_type(&self) -> (r: EdgeType)
        ensures
            r == self.edge_type,
    {
        self.edge_type
    }

    /// `n` is the start vertex.
    pub fn is_start(&self, n: &Node) -> (r: bool)
        ensures
            r == (self.start_node.id@ == n.id@),
    {
        self.start_node.id == n.id
    }

    /// `n` is the end vertex.
    pub fn is_end(&self, n: &Node) -> (r: bool)
        ensures
            r == (self.end_node.id@ == n.id@),
    {
        self.end_node.id == n.id
    }

    /// The identifiers of the ends, without repetition, start first.
    pub fn node_ids(&self) -> (r: Vec<String>)
        ensures
            r@.len() == if self.start_node.id@ == self.end_node.id@ { 1int } else { 2int },
            r@[0]@ == self.start_node.id@,
            r@.len() == 2 ==> r@[1]@ == self.end_node.id@,
    {
        let mut v: Vec<String> = Vec::new();
        v.push(self.start_node.id.clone());
        if self.start_node.id != self.end_node.id {
            v.push(self.end_node.id.clone());
        }
        v
    }

    /// `n` is one of the ends.
    pub fn is_endvertice(&self, n: &Node) -> (r: bool)
        ensures
            r == is_endpoint(*self, n.id@),
    {
        self.is_start(n) || self.is_end(n)
    }

    /// The end that is not `n`; nothing when `n` is no end of the edge.
    /// For a loop on `n`, that end is `n` itself.
    pub fn get_other(&self, n: &Node) -> (r: Option<&Node>)
        ensures
            r.is_some() == is_endpoint(*self, n.id@),
            self.start_node.id@ == n.id@ ==> r == Some(&self.end_node),
            self.start_node.id@ != n.id@ && self.end_node.id@ == n.id@ ==> r == Some(
                &self.start_node,
            ),
    {
        if self.start_node.id == n.id {
            Some(&self.end_node)
        } else if self.end_node.id == n.id {
            Some(&self.start_node)
        } else {
            None
        }
    }

    /// Text form of the edge.
    pub fn to_text(&self) -> (r: String)
        ensures
            r@ == "<Edge id='"@ + self.id@ + "' type='"@ + (if self.edge_type == EdgeType::Directed {
                "Directed"@
            } else {
                "Undirected"@
            }) + "'><start>"@ + "<Node id='"@ + self.start_node.id@ + "'/>"@ + "</start><end>"@
                + "<Node id='"@ + self.end_node.id@ + "'/>"@ + "</end></Edge>"@,
    {
        let mut s = String::from_str("<Edge id='");
        s.append(self.id.as_str());
        s.append("' type='");
        let t = self.edge_type.to_text();
        s.append(t.as_str());
        s.append("'><start>");
        let a = self.start_node.to_text();
        s.append(a.as_str());
        s.append("</start><end>");
        let b = self.end_node.to_text();
        s.append(b.as_str());
        s.append("</end></Edge>");
        s
    }
}

/// A collection of edges, one per identifier.
#[derive(Debug, Clone)]
pub struct Edges {
    /// the edges
    pub edge_set: Vec<Edge>,
}

impl Edges {
    /// The members of the collection.
    pub fn members(&self) -> (r: &Vec<Edge>)
        ensures
            r@ == self.edge_set@,
    {
        &self.edge_set
    }

    /// A collection of copies of `es`, the first edge of each identifier.
    pub fn create(es: &Vec<Edge>) -> (r: Edges)
        ensures
            crate::graph::dedup_edges(r.edge_set@, es@),
    {
        Edges { edge_set: crate::graph::dedup_edge_list(es) }
    }
}

impl PartialEq for Edge {
    fn eq(&self, o: &Edge) -> (r: bool) {
        self.id == o.id
    }
}

impl Eq for Edge {
}

impl vstd::std_specs::cmp::PartialEqSpecImpl for Edge {
    open spec fn obeys_eq_spec() -> bool {
        true
    }

    open spec fn eq_spec(&self, o: &Edge) -> bool {
        self.id@ == o.id@
    }
}

impl std::hash::Hash for Edge {
    fn hash<H: std::hash::Hasher>(&self, state: &mut H) {
        self.id.hash(state);
    }
}

/// `n` is the start vertex of `e`.
pub fn is_start(e: &Edge, n: &Node) -> (r: bool)
    ensures
        r == (e.start_node.id@ == n.id@),
{
    e.is_start(n)
}

/// `n` is the end vertex of `e`.
pub fn is_end(e: &Edge, n: &Node) -> (r: bool)
    ensures
        r == (e.end_node.id@ == n.id@),
{
    e.is_end(n)
}

/// `n` is one of the ends of `e`.
pub fn is_endvertice(e: &Edge, n: &Node) -> (r: bool)
    ensures
        r == is_endpoint(*e, n.id@),
{
    e.is_endvertice(n)
}

/// The identifiers of the ends of `e`, without repetition, start first.
pub fn node_ids(e: &Edge) -> (r: Vec<String>)
    ensures
        r@.len() == if e.start_node.id@ == e.end_node.id@ { 1int } else { 2int },
        r@[0]@ == e.start_node.id@,
        r@.len() == 2 ==> r@[1]@ == e.end_node.id@,
{
    e.node_ids()
}

/// The end of `e` that is not `n`, or nothing when `n` is no end of `e`.
pub fn get_other<'a>(e: &'a Edge, n: &Node) -> (r: Option<&'a Node>)
    ensures
        r.is_some() == is_endpoint(*e, n.id@),
        r.is_some() ==> r.unwrap().id@ == other_end(*e, n.id@).unwrap(),
{
    e.get_other(n)
}

} // verus!
