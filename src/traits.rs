//! Capabilities shared by nodes, edges and graphs: an identifier, a
//! payload, a kind name, and copy-on-write setters.
use crate::edge::Edge;
use crate::edgetype::EdgeType;
use crate::graph::Graph;
use crate::node::Node;
use std::collections::HashMap;
use vstd::prelude::*;

verus! {

/// Something with an identifier.
pub trait Identified {
    /// The identifier.
    spec fn ident(&self) -> Seq<char>;

    /// The identifier.
    fn id(&self) -> (r: &str)
        ensures
            r@ == self.ident(),
    ;
}

/// Something with a payload of string lists under string keys.
pub trait Loaded {
    /// The payload.
    spec fn payload(&self) -> Map<String, Vec<String>>;

    /// The payload.
    fn data(&self) -> (r: &HashMap<String, Vec<String>>)
        ensures
            r@ == self.payload(),
    ;
}

/// Something with the name of its kind.
pub trait Named {
    /// The name of the kind.
    spec fn kind_name(&self) -> Seq<char>;

    /// The name of the kind.
    fn name(&self) -> (r: String)
        ensures
            r@ == self.kind_name(),
    ;
}

/// Something with a structure besides its identifier and payload.
pub trait Shaped {
    /// `self` and `other` agree on everything but identifier and payload.
    spec fn same_shape(&self, other: &Self) -> bool;
}

/// Something that can be copied under another identifier.
pub trait IdChanger: Identified + Loaded + Shaped + Sized {
    /// A copy under identifier `idstr`, with the same payload and structure.
    fn set_id(&self, idstr: &str) -> (r: Self)
        ensures
            r.ident() == idstr@,
            r.payload() == self.payload(),
            r.same_shape(self),
    ;
}

/// Something that can be copied with another payload.
pub trait LoadChanger: Identified + Loaded + Shaped + Sized {
    /// A copy with payload `data`, under the same identifier and with the
    /// same structure.
    fn set_data(&self, data: HashMap<String, Vec<String>>) -> (r: Self)
        ensures
            r.ident() == self.ident(),
            r.payload() == data@,
            r.same_shape(self),
    ;
}

/// An object of a graph: identified, loaded, named, changeable.
pub trait GraphObject: Named + Identified + Loaded + IdChanger + LoadChanger {
    /// The object with the empty identifier and no payload.
    fn null() -> (r: Self)
        ensures
            r.ident() == Seq::<char>::empty(),
            r.payload() == Map::<String, Vec<String>>::empty(),
    ;
}

impl Identified for Node {
    open spec fn ident(&self) -> Seq<char> {
        self.id@
    }

    fn id(&self) -> (r: &str) {
        self.id.as_str()
    }
}

impl Loaded for Node {
    open spec fn payload(&self) -> Map<String, Vec<String>> {
        self.data@
    }

    fn data(&self) -> (r: &HashMap<String, Vec<String>>) {
        &self.data
    }
}

impl Named for Node {
    open spec fn kind_name(&self) -> Seq<char> {
        "Node"@
    }

    fn name(&self) -> (r: String) {
        String::from_str("Node")
    }
}

impl Shaped for Node {
    open spec fn same_shape(&self, other: &Node) -> bool {
        true
    }
}

impl IdChanger for Node {
    fn set_id(&self, idstr: &str) -> (r: Node) {
        Node { id: String::from_str(idstr), data: self.data.clone() }
    }
}

impl LoadChanger for Node {
    fn set_data(&self, data: HashMap<String, Vec<String>>) -> (r: Node) {
        Node { id: self.id.clone(), data }
    }
}

impl GraphObject for Node {
    fn null() -> (r: Node) {
        Node { id: String::new(), data: HashMap::new() }
    }
}

impl Identified for Edge {
    open spec fn ident(&self) -> Seq<char> {
        self.id@
    }

    fn id(&self) -> (r: &str) {
        self.id.as_str()
    }
}

impl Loaded for Edge {
    open spec fn payload(&self) -> Map<String, Vec<String>> {
        self.data@
    }

    fn data(&self) -> (r: &HashMap<String, Vec<String>>) {
        &self.data
    }
}

impl Named for Edge {
    open spec fn kind_name(&self) -> Seq<char> {
        "Edge"@
    }

    fn name(&self) -> (r: String) {
        String::from_str("Edge")
    }
}

impl Shaped for Edge {
    /// Same orientation and the same two ends, payloads included.
    open spec fn same_shape(&self, other: &Edge) -> bool {
        &&& self.edge_type == other.edge_type
        &&& self.start_node.id@ == other.start_node.id@
        &&& self.start_node.data@ == other.start_node.data@
        &&& self.end_node.id@ == other.end_node.id@
        &&& self.end_node.data@ == other.end_node.data@
    }
}

impl IdChanger for Edge {
    fn set_id(&self, idstr: &str) -> (r: Edge) {
        let mut e = Edge::from_edgish_ref(self);
        e.id = String::from_str(idstr);
        e
    }
}

impl LoadChanger for Edge {
    fn set_data(&self, data: HashMap<String, Vec<String>>) -> (r: Edge) {
        let mut e = Edge::from_edgish_ref(self);
        e.data = data;
        e
    }
}

impl GraphObject for Edge {
    fn null() -> (r: Edge) {
        Edge {
            id: String::new(),
            data: HashMap::new(),
            edge_type: EdgeType::Undirected,
            start_node: Node { id: String::new(), data: HashMap::new() },
            end_node: Node { id: String::new(), data: HashMap::new() },
        }
    }
}

impl Identified for Graph {
    open spec fn ident(&self) -> Seq<char> {
        self.id@
    }

    fn id(&self) -> (r: &str) {
        self.id.as_str()
    }
}

impl Loaded for Graph {
    open spec fn payload(&self) -> Map<String, Vec<String>> {
        self.data@
    }

    fn data(&self) -> (r: &HashMap<String, Vec<String>>) {
        &self.data
    }
}

impl Named for Graph {
    open spec fn kind_name(&self) -> Seq<char> {
        "Graph"@
    }

    fn name(&self) -> (r: String) {
        String::from_str("Graph")
    }
}

} // verus!
