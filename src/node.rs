//! Vertices: identified objects with an attached payload.
use std::collections::HashMap;
use vstd::prelude::*;

verus! {

/// A vertex of a graph. Its identity is its identifier alone; the payload
/// in `data` travels with it but takes no part in comparisons.
#[derive(Debug, Clone)]
pub struct Node {
    /// identifier of the vertex
    pub id: String,
    /// payload attached to the vertex
    pub data: HashMap<String, Vec<String>>,
}

/// The identifiers of a sequence of nodes, as a set.
pub open spec fn ids_of(s: Seq<Node>) -> Set<Seq<char>> {
    Set::new(|id: Seq<char>| exists|i: int| 0 <= i < s.len() && s[i].id@ == id)
}

/// No two nodes of `s` share an identifier.
pub open spec fn unique_ids(s: Seq<Node>) -> bool {
    forall|i: int, j: int|
        0 <= i < s.len() && 0 <= j < s.len() && i != j ==> s[i].id@ != s[j].id@
}

/// Node sequences that agree position by position on identifiers have the
/// same identifier set.
pub proof fn lemma_same_ids(a: Seq<Node>, b: Seq<Node>)
    requires
        a.len() == b.len(),
        forall|k: int| 0 <= k < a.len() ==> #[trigger] a[k].id@ == b[k].id@,
    ensures
        ids_of(a) == ids_of(b),
        unique_ids(a) == unique_ids(b),
{
    assert forall|id: Seq<char>| ids_of(a).contains(id) <==> ids_of(b).contains(id) by {
        if ids_of(a).contains(id) {
            let k = choose|k: int| 0 <= k < a.len() && a[k].id@ == id;
            assert(a[k].id@ == b[k].id@);
        }
        if ids_of(b).contains(id) {
            let k = choose|k: int| 0 <= k < b.len() && b[k].id@ == id;
            assert(a[k].id@ == b[k].id@);
        }
    }
    assert(ids_of(a) =~= ids_of(b));
    assert forall|i: int, j: int|
        0 <= i < a.len() && 0 <= j < a.len() && i != j implies (a[i].id@ != a[j].id@ <==> b[i].id@
            != b[j].id@) by {
        assert(a[i].id@ == b[i].id@);
        assert(a[j].id@ == b[j].id@);
    }
}

/// `s` holds a node with identifier `id`.
pub open spec fn has_id(s: Seq<Node>, id: Seq<char>) -> bool {
    exists|i: int| 0 <= i < s.len() && s[i].id@ == id
}

impl Node {
    /// Builds a node from its identifier and payload.
    pub fn new(nid: String, ndata: HashMap<String, Vec<String>>) -> (r: Node)
        ensures
            r.id@ == nid@,
            r.data@ == ndata@,
    {
        Node { id: nid, data: ndata }
    }

    /// Builds a node with the given identifier and no payload.
    pub fn from_id(nid: &str) -> (r: Node)
        ensures
            r.id@ == nid@,
            r.data@ == Map::<String, Vec<String>>::empty(),
    {
        Node { id: String::from_str(nid), data: HashMap::new() }
    }

    /// Builds a node with the given identifier and no payload.
    pub fn empty(nid: &str) -> (r: Node)
        ensures
            r.id@ == nid@,
            r.data@ == Map::<String, Vec<String>>::empty(),
    {
        Node::from_id(nid)
    }

    /// A copy of `n`, identifier and payload.
    pub fn from_nodish_ref(n: &Node) -> (r: Node)
        ensures
            r.id@ == n.id@,
            r.data@ == n.data@,
    {
        Node { id: n.id.clone(), data: n.data.clone() }
    }

    /// Takes `n` over, identifier and payload.
    pub fn from_nodish(n: Node) -> (r: Node)
        ensures
            r.id@ == n.id@,
            r.data@ == n.data@,
    {
        n
    }

    /// Both nodes carry the same identifier.
    pub fn same_id(&self, other: &Node) -> (r: bool)
        ensures
            r == (self.id@ == other.id@),
    {
        self.id == other.id
    }

    /// Text form of the node: `<Node id='...'/>`.
    pub fn to_text(&self) -> (r: String)
        ensures
            r@ == "<Node id='"@ + self.id@ + "'/>"@,
    {
        let mut s = String::from_str("<Node id='");
        s.append(self.id.as_str());
        s.append("'/>");
        s
    }
}

/// A collection of nodes, one per identifier.
#[derive(Debug, Clone)]
pub struct Vertices {
    /// the nodes
    pub vertex_set: Vec<Node>,
}

impl Vertices {
    /// The members of the collection.
    pub fn members(&self) -> (r: &Vec<Node>)
        ensures
            r@ == self.vertex_set@,
    {
        &self.vertex_set
    }

    /// A collection of copies of `vs`, each identifier once.
    pub fn create(vs: &Vec<Node>) -> (r: Vertices)
        ensures
            unique_ids(r.vertex_set@),
            ids_of(r.vertex_set@) == ids_of(vs@),
    {
        let mut out: Vec<Node> = Vec::new();
        let mut i: usize = 0;
        while i < vs.len()
            invariant
                0 <= i <= vs@.len(),
                unique_ids(out@),
                ids_of(out@) == ids_of(vs@.take(i as int)),
            decreases vs@.len() - i,
        {
            let v = &vs[i];
            let ghost t0 = vs@.take(i as int);
            let ghost t1 = vs@.take(i + 1);
            proof {
                assert forall|x: Seq<char>| ids_of(t1).contains(x) <==> ids_of(t0).insert(v.id@).contains(x) by {
                    if ids_of(t1).contains(x) {
                        let k = choose|k: int| 0 <= k < t1.len() && t1[k].id@ == x;
                        if k < i {
                            assert(t0[k] == t1[k]);
                        }
                    }
                    if ids_of(t0).contains(x) {
                        let k = choose|k: int| 0 <= k < t0.len() && t0[k].id@ == x;
                        assert(t0[k] == t1[k]);
                    }
                    assert(t1[i as int] == *v);
                }
                assert(ids_of(t1) =~= ids_of(t0).insert(v.id@));
            }
            crate::graph::push_unique_node(&mut out, v);
            i += 1;
        }
        assert(vs@.take(vs@.len() as int) == vs@);
        Vertices { vertex_set: out }
    }
}

impl PartialEq for Node {
    fn eq(&self, o: &Node) -> (r: bool) {
        self.id == o.id
    }
}

impl Eq for Node {
}

impl vstd::std_specs::cmp::PartialEqSpecImpl for Node {
    open spec fn obeys_eq_spec() -> bool {
        true
    }

    open spec fn eq_spec(&self, o: &Node) -> bool {
        self.id@ == o.id@
    }
}

/// Relies on std's `Hash` for `String`: feeds the identifier to the hasher.
pub assume_specification<H: std::hash::Hasher>[ <String as std::hash::Hash>::hash::<H> ](
    s: &String,
    state: &mut H,
);

impl std::hash::Hash for Node {
    fn hash<H: std::hash::Hasher>(&self, state: &mut H) {
        self.id.hash(state);
    }
}

} // verus!
