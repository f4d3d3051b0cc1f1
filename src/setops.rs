//! Set algebra on collections of graph objects, by identifier: two objects
//! with one identifier count as one element.
use crate::edge::{is_endpoint, Edge};
use crate::graph::{edge_ids_of, endpoint_ids_of, fresh_id, same_edge, Graph};
use crate::node::{ids_of, Node};
use crate::traits::Identified;
use std::collections::HashMap;
use vstd::prelude::*;

verus! {

/// The set operations.
#[derive(Clone, Copy, Debug, PartialEq, Eq, Structural)]
pub enum SetOpKind {
    /// elements of either collection
    Union,
    /// elements of both collections
    Intersection,
    /// elements of the first collection only
    Difference,
    /// elements of exactly one collection
    SymmetricDifference,
}

/// A graph object that can be copied, identifier and content kept.
pub trait Duplicate: Identified + Sized {
    /// `self` agrees with `other` on identifier and content.
    spec fn same_as(&self, other: &Self) -> bool;

    /// A copy: same identifier, same content.
    fn duplicate(&self) -> (r: Self)
        ensures
            r.same_as(self),
            r.ident() == self.ident(),
    ;
}

impl Duplicate for Node {
    open spec fn same_as(&self, other: &Node) -> bool {
        self.id@ == other.id@ && self.data@ == other.data@
    }

    fn duplicate(&self) -> (r: Node) {
        Node::from_nodish_ref(self)
    }
}

impl Duplicate for Edge {
    open spec fn same_as(&self, other: &Edge) -> bool {
        same_edge(*self, *other) && self.data@ == other.data@
    }

    fn duplicate(&self) -> (r: Edge) {
        Edge::from_edgish_ref(self)
    }
}

/// `x` agrees with some object of `s`.
pub open spec fn copy_in<T: Duplicate>(x: T, s: Seq<T>) -> bool {
    exists|i: int| 0 <= i < s.len() && s[i].ident() == x.ident() && #[trigger] x.same_as(&s[i])
}

/// Every object of `r` is a copy of an object of `a` when its identifier is
/// in `a`, and of an object of `b` otherwise.
pub open spec fn drawn_from<T: Duplicate>(r: Seq<T>, a: Seq<T>, b: Seq<T>) -> bool {
    forall|j: int|
        0 <= j < r.len() ==> (idents(a).contains((#[trigger] r[j]).ident()) ==> copy_in(r[j], a)) && (!idents(
            a,
        ).contains(r[j].ident()) ==> copy_in(r[j], b))
}

/// The identifiers of a sequence of objects, as a set.
pub open spec fn idents<T: Identified>(s: Seq<T>) -> Set<Seq<char>> {
    Set::new(|id: Seq<char>| exists|i: int| 0 <= i < s.len() && s[i].ident() == id)
}

/// No two objects of `s` share an identifier.
pub open spec fn unique_idents<T: Identified>(s: Seq<T>) -> bool {
    forall|i: int, j: int| 0 <= i < s.len() && 0 <= j < s.len() && i != j ==> s[i].ident() != s[j].ident()
}

/// What the set operation `kind` makes of the identifier sets `a` and `b`.
pub open spec fn set_op(kind: SetOpKind, a: Set<Seq<char>>, b: Set<Seq<char>>) -> Set<Seq<char>> {
    match kind {
        SetOpKind::Union => a.union(b),
        SetOpKind::Intersection => a.intersect(b),
        SetOpKind::Difference => a.difference(b),
        SetOpKind::SymmetricDifference => a.difference(b).union(b.difference(a)),
    }
}

/// `s` holds an object with identifier `id`.
pub fn holds_ident<T: Identified>(s: &Vec<T>, id: &str) -> (r: bool)
    ensures
        r == idents(s@).contains(id@),
{
    let mut i: usize = 0;
    while i < s.len()
        invariant
            0 <= i <= s@.len(),
            forall|k: int| 0 <= k < i ==> s@[k].ident() != id@,
        decreases s@.len() - i,
    {
        if crate::search::str_eq(s[i].id(), id) {
            assert(idents(s@).contains(s@[i as int].ident()));
            return true;
        }
        i += 1;
    }
    false
}

/// Appends copies of the objects of `src` whose membership in `other` is
/// `keep_in`, skipping identifiers already in `r`.
fn push_filtered<T: Duplicate>(r: &mut Vec<T>, src: &Vec<T>, other: &Vec<T>, keep_in: bool)
    requires
        unique_idents(old(r)@),
    ensures
        unique_idents(final(r)@),
        idents(final(r)@) == idents(old(r)@).union(
            Set::new(|x: Seq<char>| idents(src@).contains(x) && idents(other@).contains(x) == keep_in),
        ),
        final(r)@.len() >= old(r)@.len(),
        forall|j: int| 0 <= j < old(r)@.len() ==> #[trigger] final(r)@[j] == old(r)@[j],
        forall|j: int|
            old(r)@.len() <= j < final(r)@.len() ==> copy_in(#[trigger] final(r)@[j], src@) && !idents(old(r)@).contains(
                final(r)@[j].ident(),
            ) && idents(other@).contains(final(r)@[j].ident()) == keep_in,
{
    let ghost start = r@;
    let mut i: usize = 0;
    while i < src.len()
        invariant
            0 <= i <= src@.len(),
            unique_idents(r@),
            idents(r@) == idents(start).union(
                Set::new(|x: Seq<char>| idents(src@.take(i as int)).contains(x) && idents(other@).contains(x) == keep_in),
            ),
            r@.len() >= start.len(),
            forall|j: int| 0 <= j < start.len() ==> #[trigger] r@[j] == start[j],
            forall|j: int|
                start.len() <= j < r@.len() ==> copy_in(#[trigger] r@[j], src@) && !idents(start).contains(r@[j].ident())
                    && idents(other@).contains(r@[j].ident()) == keep_in,
        decreases src@.len() - i,
    {
        let x = &src[i];
        let ghost t0 = src@.take(i as int);
        let ghost t1 = src@.take(i + 1);
        proof {
            assert forall|y: Seq<char>| idents(t1).contains(y) <==> idents(t0).insert(x.ident()).contains(y) by {
                if idents(t1).contains(y) {
                    let k = choose|k: int| 0 <= k < t1.len() && t1[k].ident() == y;
                    if k < i {
                        assert(t0[k] == t1[k]);
                    }
                }
                if idents(t0).contains(y) {
                    let k = choose|k: int| 0 <= k < t0.len() && t0[k].ident() == y;
                    assert(t0[k] == t1[k]);
                }
                assert(t1[i as int] == *x);
            }
            assert(idents(t1) =~= idents(t0).insert(x.ident()));
        }
        let ghost old_r = r@;
        if holds_ident(other, x.id()) == keep_in && !holds_ident(r, x.id()) {
            r.push(x.duplicate());
            proof {
                let last = r@.len() - 1;
                assert(r@[last].same_as(&src@[i as int]));
                assert(r@[last].ident() == src@[i as int].ident());
                assert(copy_in(r@[last], src@));
                assert forall|j: int| 0 <= j < start.len() implies #[trigger] r@[j] == start[j] by {
                    assert(r@[j] == old_r[j]);
                }
                if idents(start).contains(x.ident()) {
                    let m = choose|m: int| 0 <= m < start.len() && start[m].ident() == x.ident();
                    assert(old_r[m] == start[m]);
                    assert(idents(old_r).contains(x.ident()));
                }
                assert forall|j: int|
                    start.len() <= j < r@.len() implies copy_in(#[trigger] r@[j], src@) && !idents(start).contains(r@[j].ident())
                        && idents(other@).contains(r@[j].ident()) == keep_in by {
                    if j < old_r.len() {
                        assert(r@[j] == old_r[j]);
                    }
                }
                assert forall|y: Seq<char>| idents(r@).contains(y) <==> idents(old_r).insert(x.ident()).contains(y) by {
                    if idents(r@).contains(y) {
                        let k = choose|k: int| 0 <= k < r@.len() && r@[k].ident() == y;
                        if k < old_r.len() {
                            assert(r@[k] == old_r[k]);
                        }
                    }
                    if idents(old_r).contains(y) {
                        let k = choose|k: int| 0 <= k < old_r.len() && old_r[k].ident() == y;
                        assert(r@[k] == old_r[k]);
                    }
                    assert(r@[r@.len() - 1].ident() == x.ident());
                }
                assert(idents(r@) =~= idents(old_r).insert(x.ident()));
                assert forall|a: int, b: int| 0 <= a < r@.len() && 0 <= b < r@.len() && a != b implies r@[a].ident() != r@[b].ident() by {
                    if a < old_r.len() && b < old_r.len() {
                        assert(r@[a] == old_r[a] && r@[b] == old_r[b]);
                    } else if a < old_r.len() {
                        assert(r@[a] == old_r[a]);
                        assert(idents(old_r).contains(old_r[a].ident()));
                    } else if b < old_r.len() {
                        assert(r@[b] == old_r[b]);
                        assert(idents(old_r).contains(old_r[b].ident()));
                    }
                }
            }
        }
        assert(idents(r@) =~= idents(start).union(
            Set::new(|y: Seq<char>| idents(t1).contains(y) && idents(other@).contains(y) == keep_in),
        ));
        i += 1;
    }
    assert(src@.take(src@.len() as int) == src@);
}

/// Copies of objects of `a` carry identifiers of `a`.
proof fn lemma_copies_named<T: Duplicate>(r: Seq<T>, a: Seq<T>)
    requires
        forall|j: int| 0 <= j < r.len() ==> copy_in(#[trigger] r[j], a),
    ensures
        forall|j: int| 0 <= j < r.len() ==> idents(a).contains((#[trigger] r[j]).ident()),
{
    assert forall|j: int| 0 <= j < r.len() implies idents(a).contains((#[trigger] r[j]).ident()) by {
        assert(copy_in(r[j], a));
        let i = choose|i: int| 0 <= i < a.len() && a[i].ident() == r[j].ident() && #[trigger] r[j].same_as(&a[i]);
    }
}

/// The set operation `kind` on two collections of graph objects: copies of
/// the objects whose identifiers the operation yields, each once.
pub fn set_op_graph_obj_set<T: Duplicate>(a: &Vec<T>, b: &Vec<T>, set_op_kind: SetOpKind) -> (r: Vec<T>)
    ensures
        unique_idents(r@),
        idents(r@) == set_op(set_op_kind, idents(a@), idents(b@)),
        drawn_from(r@, a@, b@),
{
    let mut r: Vec<T> = Vec::new();
    let empty: Vec<T> = Vec::new();
    assert(idents(r@) =~= Set::<Seq<char>>::empty());
    assert(idents(empty@) =~= Set::<Seq<char>>::empty());
    match set_op_kind {
        SetOpKind::Union => {
            push_filtered(&mut r, a, &empty, false);
            let ghost r1 = r@;
            proof {
                assert(idents(r1) =~= idents(a@));
            }
            push_filtered(&mut r, b, &empty, false);
            proof {
                lemma_copies_named(r1, a@);
                assert forall|j: int| 0 <= j < r@.len() implies (idents(a@).contains((#[trigger] r@[j]).ident())
                    ==> copy_in(r@[j], a@)) && (!idents(a@).contains(r@[j].ident()) ==> copy_in(r@[j], b@)) by {
                    if j < r1.len() {
                        assert(r@[j] == r1[j]);
                    }
                }
            }
        },
        SetOpKind::Intersection => {
            push_filtered(&mut r, a, b, true);
            proof {
                lemma_copies_named(r@, a@);
            }
        },
        SetOpKind::Difference => {
            push_filtered(&mut r, a, b, false);
            proof {
                lemma_copies_named(r@, a@);
            }
        },
        SetOpKind::SymmetricDifference => {
            push_filtered(&mut r, a, b, false);
            let ghost r1 = r@;
            push_filtered(&mut r, b, a, false);
            proof {
                lemma_copies_named(r1, a@);
                assert forall|j: int| 0 <= j < r@.len() implies (idents(a@).contains((#[trigger] r@[j]).ident())
                    ==> copy_in(r@[j], a@)) && (!idents(a@).contains(r@[j].ident()) ==> copy_in(r@[j], b@)) by {
                    if j < r1.len() {
                        assert(r@[j] == r1[j]);
                    }
                }
            }
        },
    }
    assert(idents(r@) =~= set_op(set_op_kind, idents(a@), idents(b@)));
    r
}

/// The set operation `kind` on two collections of graph objects, given by
/// reference.
pub fn set_op_graph_obj_ref_set<T: Duplicate>(a: &Vec<T>, b: &Vec<T>, set_op_kind: SetOpKind) -> (r: Vec<T>)
    ensures
        unique_idents(r@),
        idents(r@) == set_op(set_op_kind, idents(a@), idents(b@)),
        drawn_from(r@, a@, b@),
{
    set_op_graph_obj_set(a, b, set_op_kind)
}

/// Nodes in both collections.
pub fn intersection_nodes(a1: &Vec<Node>, a2: &Vec<Node>) -> (r: Vec<Node>)
    ensures
        unique_idents(r@),
        idents(r@) == idents(a1@).intersect(idents(a2@)),
        drawn_from(r@, a1@, a2@),
{
    set_op_graph_obj_set(a1, a2, SetOpKind::Intersection)
}

/// Nodes in either collection.
pub fn union_nodes(a1: &Vec<Node>, a2: &Vec<Node>) -> (r: Vec<Node>)
    ensures
        unique_idents(r@),
        idents(r@) == idents(a1@).union(idents(a2@)),
        drawn_from(r@, a1@, a2@),
{
    set_op_graph_obj_set(a1, a2, SetOpKind::Union)
}

/// Nodes in the first collection only.
pub fn difference_nodes(a1: &Vec<Node>, a2: &Vec<Node>) -> (r: Vec<Node>)
    ensures
        unique_idents(r@),
        idents(r@) == idents(a1@).difference(idents(a2@)),
        drawn_from(r@, a1@, a2@),
{
    set_op_graph_obj_set(a1, a2, SetOpKind::Difference)
}

/// Nodes in exactly one collection.
pub fn symmetric_difference_node(a1: &Vec<Node>, a2: &Vec<Node>) -> (r: Vec<Node>)
    ensures
        unique_idents(r@),
        idents(r@) == idents(a1@).difference(idents(a2@)).union(idents(a2@).difference(idents(a1@))),
        drawn_from(r@, a1@, a2@),
{
    set_op_graph_obj_set(a1, a2, SetOpKind::SymmetricDifference)
}

/// Edges in both collections.
pub fn intersection_edges(a1: &Vec<Edge>, a2: &Vec<Edge>) -> (r: Vec<Edge>)
    ensures
        unique_idents(r@),
        idents(r@) == idents(a1@).intersect(idents(a2@)),
        drawn_from(r@, a1@, a2@),
{
    set_op_graph_obj_set(a1, a2, SetOpKind::Intersection)
}

/// Edges in either collection.
pub fn union_edges(a1: &Vec<Edge>, a2: &Vec<Edge>) -> (r: Vec<Edge>)
    ensures
        unique_idents(r@),
        idents(r@) == idents(a1@).union(idents(a2@)),
        drawn_from(r@, a1@, a2@),
{
    set_op_graph_obj_set(a1, a2, SetOpKind::Union)
}

/// Edges in the first collection only.
pub fn difference_edges(a1: &Vec<Edge>, a2: &Vec<Edge>) -> (r: Vec<Edge>)
    ensures
        unique_idents(r@),
        idents(r@) == idents(a1@).difference(idents(a2@)),
        drawn_from(r@, a1@, a2@),
{
    set_op_graph_obj_set(a1, a2, SetOpKind::Difference)
}

/// Edges in exactly one collection.
pub fn symmetric_difference_edges(a1: &Vec<Edge>, a2: &Vec<Edge>) -> (r: Vec<Edge>)
    ensures
        unique_idents(r@),
        idents(r@) == idents(a1@).difference(idents(a2@)).union(idents(a2@).difference(idents(a1@))),
        drawn_from(r@, a1@, a2@),
{
    set_op_graph_obj_set(a1, a2, SetOpKind::SymmetricDifference)
}

/// The two ends of `e`, as nodes.
fn ends_of(e: &Edge) -> (r: Vec<Node>)
    ensures
        idents(r@) == set![e.start_node.id@, e.end_node.id@],
{
    let mut r: Vec<Node> = Vec::new();
    r.push(Node::from_nodish_ref(&e.start_node));
    r.push(Node::from_nodish_ref(&e.end_node));
    proof {
        assert(r@[0].ident() == e.start_node.id@);
        assert(r@[1].ident() == e.end_node.id@);
        assert forall|x: Seq<char>| idents(r@).contains(x) <==> set![e.start_node.id@, e.end_node.id@].contains(x) by {
            if idents(r@).contains(x) {
                let k = choose|k: int| 0 <= k < r@.len() && r@[k].ident() == x;
            }
        }
        assert(idents(r@) =~= set![e.start_node.id@, e.end_node.id@]);
    }
    r
}

/// The ends the two edges share.
pub fn intersection_edge(a1: &Edge, a2: &Edge) -> (r: Vec<Node>)
    ensures
        unique_idents(r@),
        idents(r@) == set![a1.start_node.id@, a1.end_node.id@].intersect(set![a2.start_node.id@, a2.end_node.id@]),
{
    intersection_nodes(&ends_of(a1), &ends_of(a2))
}

/// The ends of either edge.
pub fn union_edge(a1: &Edge, a2: &Edge) -> (r: Vec<Node>)
    ensures
        unique_idents(r@),
        idents(r@) == set![a1.start_node.id@, a1.end_node.id@].union(set![a2.start_node.id@, a2.end_node.id@]),
{
    union_nodes(&ends_of(a1), &ends_of(a2))
}

/// The ends of the first edge that are no end of the second.
pub fn difference_edge(a1: &Edge, a2: &Edge) -> (r: Vec<Node>)
    ensures
        unique_idents(r@),
        idents(r@) == set![a1.start_node.id@, a1.end_node.id@].difference(set![a2.start_node.id@, a2.end_node.id@]),
{
    difference_nodes(&ends_of(a1), &ends_of(a2))
}

/// Every object of `a2` has its identifier in `a1`.
fn covers<T: Identified>(a1: &Vec<T>, a2: &Vec<T>) -> (r: bool)
    ensures
        r == idents(a2@).subset_of(idents(a1@)),
{
    let mut i: usize = 0;
    while i < a2.len()
        invariant
            0 <= i <= a2@.len(),
            forall|k: int| 0 <= k < i ==> idents(a1@).contains(#[trigger] a2@[k].ident()),
        decreases a2@.len() - i,
    {
        if !holds_ident(a1, a2[i].id()) {
            assert(idents(a2@).contains(a2@[i as int].ident()));
            return false;
        }
        i += 1;
    }
    assert forall|x: Seq<char>| idents(a2@).contains(x) implies idents(a1@).contains(x) by {
        let k = choose|k: int| 0 <= k < a2@.len() && a2@[k].ident() == x;
    }
    true
}

/// Every edge of `a2` is in `a1`.
pub fn contains_edges(a1: &Vec<Edge>, a2: &Vec<Edge>) -> (r: bool)
    ensures
        r == idents(a2@).subset_of(idents(a1@)),
{
    covers(a1, a2)
}

/// Every node of `a2` is in `a1`.
pub fn contains_node(a1: &Vec<Node>, a2: &Vec<Node>) -> (r: bool)
    ensures
        r == idents(a2@).subset_of(idents(a1@)),
{
    covers(a1, a2)
}

/// The objects of `s` are identified as the nodes of `s` are.
proof fn lemma_idents_nodes(s: Seq<Node>)
    ensures
        idents(s) == ids_of(s),
{
    assert(idents(s) =~= ids_of(s));
}

/// The objects of `s` are identified as the edges of `s` are.
proof fn lemma_idents_edges(s: Seq<Edge>)
    ensures
        idents(s) == edge_ids_of(s),
{
    assert(idents(s) =~= edge_ids_of(s));
}

/// `g2` is a part of `a1`: its vertices and edges are all in `a1`.
pub fn contains(a1: &Graph, a2: &Graph) -> (r: bool)
    requires
        a1.wf(),
        a2.wf(),
    ensures
        r == (a2.vertex_ids().subset_of(a1.vertex_ids()) && a2.edge_ids().subset_of(a1.edge_ids())),
{
    let v1 = a1.vertices();
    let v2 = a2.vertices();
    proof {
        lemma_idents_nodes(v1@);
        lemma_idents_nodes(v2@);
        lemma_idents_edges(a1.edges@);
        lemma_idents_edges(a2.edges@);
    }
    let has_node = contains_node(&v1, &v2);
    let has_edge = contains_edges(&a1.edges, &a2.edges);
    has_node && has_edge
}

/// A graph with a fresh identifier made of the vertices and edges that the
/// set operation `kind` yields on those of `a1` and `a2`.
fn graph_set_op(a1: &Graph, a2: &Graph, kind: SetOpKind) -> (r: Graph)
    requires
        a1.wf(),
        a2.wf(),
    ensures
        r.wf(),
        r.edge_ids() == set_op(kind, a1.edge_ids(), a2.edge_ids()),
        set_op(kind, a1.vertex_ids(), a2.vertex_ids()).subset_of(r.vertex_ids()),
        r.vertex_ids() == set_op(kind, a1.vertex_ids(), a2.vertex_ids()) + endpoint_ids_of(r.edges@),
        endpoint_ids_of(r.edges@).subset_of(a1.vertex_ids() + a2.vertex_ids()),
{
    let v1 = a1.vertices();
    let v2 = a2.vertices();
    let vs = set_op_graph_obj_set(&v1, &v2, kind);
    let es = set_op_graph_obj_set(&a1.edges, &a2.edges, kind);
    proof {
        lemma_idents_nodes(v1@);
        lemma_idents_nodes(v2@);
        lemma_idents_nodes(vs@);
        lemma_idents_edges(a1.edges@);
        lemma_idents_edges(a2.edges@);
        lemma_idents_edges(es@);
    }
    let ghost es_view = es@;
    let r = Graph::new(fresh_id(), HashMap::new(), vs, es);
    proof {
        assert forall|x: Seq<char>| endpoint_ids_of(r.edges@).contains(x) implies (a1.vertex_ids() + a2.vertex_ids()).contains(x) by {
            let k = choose|k: int| 0 <= k < r.edges@.len() && is_endpoint(r.edges@[k], x);
            assert(crate::graph::is_first_in(r.edges@[k], es_view));
            let i = choose|i: int| crate::graph::first_of_its_id(es_view, i) && #[trigger] same_edge(r.edges@[k], es_view[i]);
            assert(is_endpoint(es_view[i], x));
            if idents(a1.edges@).contains(es_view[i].ident()) {
                assert(copy_in(es_view[i], a1.edges@));
                let m = choose|m: int| 0 <= m < a1.edges@.len() && a1.edges@[m].ident() == es_view[i].ident() && #[trigger] es_view[i].same_as(&a1.edges@[m]);
                assert(is_endpoint(a1.edges@[m], x));
                assert(endpoint_ids_of(a1.edges@).contains(x));
            } else {
                assert(copy_in(es_view[i], a2.edges@));
                let m = choose|m: int| 0 <= m < a2.edges@.len() && a2.edges@[m].ident() == es_view[i].ident() && #[trigger] es_view[i].same_as(&a2.edges@[m]);
                assert(is_endpoint(a2.edges@[m], x));
                assert(endpoint_ids_of(a2.edges@).contains(x));
            }
        }
    }
    r
}

/// The graph of the vertices and edges in both graphs.
pub fn intersection(a1: &Graph, a2: &Graph) -> (r: Graph)
    requires
        a1.wf(),
        a2.wf(),
    ensures
        r.wf(),
        r.edge_ids() == a1.edge_ids().intersect(a2.edge_ids()),
        r.vertex_ids() == a1.vertex_ids().intersect(a2.vertex_ids()) + endpoint_ids_of(r.edges@),
        endpoint_ids_of(r.edges@).subset_of(a1.vertex_ids() + a2.vertex_ids()),
{
    graph_set_op(a1, a2, SetOpKind::Intersection)
}

/// The graph of the vertices and edges in either graph.
pub fn union_graph(a1: &Graph, a2: &Graph) -> (r: Graph)
    requires
        a1.wf(),
        a2.wf(),
    ensures
        r.wf(),
        r.edge_ids() == a1.edge_ids().union(a2.edge_ids()),
        r.vertex_ids() == a1.vertex_ids().union(a2.vertex_ids()),
{
    let r = graph_set_op(a1, a2, SetOpKind::Union);
    assert(r.vertex_ids() =~= a1.vertex_ids().union(a2.vertex_ids()));
    r
}

/// The graph of the vertices and edges of the first graph only.
pub fn difference(a1: &Graph, a2: &Graph) -> (r: Graph)
    requires
        a1.wf(),
        a2.wf(),
    ensures
        r.wf(),
        r.edge_ids() == a1.edge_ids().difference(a2.edge_ids()),
        r.vertex_ids() == a1.vertex_ids().difference(a2.vertex_ids()) + endpoint_ids_of(r.edges@),
        endpoint_ids_of(r.edges@).subset_of(a1.vertex_ids() + a2.vertex_ids()),
{
    graph_set_op(a1, a2, SetOpKind::Difference)
}

/// The graph of the vertices and edges in exactly one of the graphs.
pub fn symmetric_difference(a1: &Graph, a2: &Graph) -> (r: Graph)
    requires
        a1.wf(),
        a2.wf(),
    ensures
        r.wf(),
        r.edge_ids() == a1.edge_ids().difference(a2.edge_ids()).union(a2.edge_ids().difference(a1.edge_ids())),
        r.vertex_ids() == a1.vertex_ids().difference(a2.vertex_ids()).union(a2.vertex_ids().difference(a1.vertex_ids()))
            + endpoint_ids_of(r.edges@),
        endpoint_ids_of(r.edges@).subset_of(a1.vertex_ids() + a2.vertex_ids()),
{
    graph_set_op(a1, a2, SetOpKind::SymmetricDifference)
}

} // verus!
