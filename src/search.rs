//! Depth-first forest engine: spanning trees, discovery and finish stamps,
//! components and back edges.
use crate::edge::{is_endpoint, other_end, Edge};
use crate::error::GraphError;
use crate::graph::{endpoint_ids_of, fresh_id, has_edge_id, Graph};
use crate::node::{has_id, ids_of, unique_ids, Node};
use crate::order::{lemma_sorted_listing_unique, lex_lt, sort_by_id, str_set, strictly_sorted};
use vstd::prelude::*;
use vstd::string::StrSliceExecFns;
use vstd::set_lib::{lemma_int_range, lemma_len_subset, set_int_range};

verus! {

/// Stamp of a vertex that has not been reached yet.
pub const UNSET: usize = usize::MAX;

/// Largest number of vertices a traversal takes: stamps run up to twice it.
pub const MAX_VERTICES: usize = usize::MAX / 4;

/// Which edges of a vertex the traversal follows.
#[derive(Clone, Copy, Debug, PartialEq, Eq, Structural)]
pub enum EdgeGenerator {
    /// edges that start at the vertex (directed reading)
    OutEdges,
    /// every edge the vertex is an end of (undirected reading)
    IncidentEdges,
}

/// The traversal follows `e` out of the vertex with identifier `id`.
pub open spec fn follows(generator: EdgeGenerator, e: Edge, id: Seq<char>) -> bool {
    match generator {
        EdgeGenerator::OutEdges => e.start_node.id@ == id,
        EdgeGenerator::IncidentEdges => is_endpoint(e, id),
    }
}

/// Identifier of the vertex that `e` leads to out of `id`.
pub open spec fn reached(generator: EdgeGenerator, e: Edge, id: Seq<char>) -> Seq<char> {
    match generator {
        EdgeGenerator::OutEdges => e.end_node.id@,
        EdgeGenerator::IncidentEdges => other_end(e, id).unwrap(),
    }
}

/// Every entry `(k, v)` of `adj[u]` is an edge `k` that the traversal
/// follows out of vertex `u` to vertex `v`.
pub open spec fn entries_valid(
    adj: Seq<Vec<(usize, usize)>>,
    verts: Seq<Node>,
    edges: Seq<Edge>,
    generator: EdgeGenerator,
) -> bool {
    &&& adj.len() == verts.len()
    &&& forall|u: int, p: int|
        #![trigger adj[u]@[p]]
        0 <= u < adj.len() && 0 <= p < adj[u]@.len() ==> {
            let (k, v) = adj[u]@[p];
            &&& k < edges.len()
            &&& v < verts.len()
            &&& follows(generator, edges[k as int], verts[u].id@)
            &&& verts[v as int].id@ == reached(generator, edges[k as int], verts[u].id@)
        }
}

/// Some entry of `row` is for edge `k`.
pub open spec fn has_entry(row: Seq<(usize, usize)>, k: int) -> bool {
    exists|p: int| 0 <= p < row.len() && (#[trigger] row[p]).0 == k
}

/// Every entry `(k, v)` of `adj[u]` is an edge `k` that the traversal follows
/// out of vertex `u` to vertex `v`; and every such edge has an entry.
pub open spec fn adjacency_of(
    adj: Seq<Vec<(usize, usize)>>,
    verts: Seq<Node>,
    edges: Seq<Edge>,
    generator: EdgeGenerator,
) -> bool {
    &&& adj.len() == verts.len()
    &&& forall|u: int, p: int|
        #![trigger adj[u]@[p]]
        0 <= u < adj.len() && 0 <= p < adj[u]@.len() ==> {
            let (k, v) = adj[u]@[p];
            &&& k < edges.len()
            &&& v < verts.len()
            &&& follows(generator, edges[k as int], verts[u].id@)
            &&& verts[v as int].id@ == reached(generator, edges[k as int], verts[u].id@)
        }
    &&& forall|u: int, k: int|
        0 <= u < adj.len() && 0 <= k < edges.len() && #[trigger] follows(generator, edges[k], verts[u].id@)
            ==> has_entry(adj[u]@, k)
}

/// The position of the identifier `id` in `ids`.
pub open spec fn pos_of_id(ids: Seq<Seq<char>>, id: Seq<char>) -> int {
    choose|i: int| 0 <= i < ids.len() && ids[i] == id
}

/// The identifiers of a sequence of nodes, in order.
pub open spec fn id_seq(verts: Seq<Node>) -> Seq<Seq<char>> {
    verts.map_values(|n: Node| n.id@)
}

/// The adjacency entries of vertex `u` among the first `k` edges: for each
/// edge followed out of `u`, in edge order, the edge position and the
/// position of the vertex it leads to.
pub open spec fn adj_row(
    ids: Seq<Seq<char>>,
    edges: Seq<Edge>,
    generator: EdgeGenerator,
    u: int,
    k: int,
) -> Seq<(usize, usize)>
    decreases k,
{
    if k <= 0 {
        Seq::empty()
    } else if follows(generator, edges[k - 1], ids[u]) {
        adj_row(ids, edges, generator, u, k - 1).push(
            ((k - 1) as usize, pos_of_id(ids, reached(generator, edges[k - 1], ids[u])) as usize),
        )
    } else {
        adj_row(ids, edges, generator, u, k - 1)
    }
}

/// Position of the node with identifier `id` in `verts`, if any.
pub fn index_of(verts: &Vec<Node>, id: &String) -> (r: Option<usize>)
    ensures
        r.is_some() ==> r.unwrap() < verts@.len() && verts@[r.unwrap() as int].id@ == id@,
        r.is_none() ==> !has_id(verts@, id@),
{
    let mut i: usize = 0;
    while i < verts.len()
        invariant
            0 <= i <= verts@.len(),
            forall|k: int| 0 <= k < i ==> verts@[k].id@ != id@,
        decreases verts@.len() - i,
    {
        if verts[i].id == *id {
            return Some(i);
        }
        i += 1;
    }
    None
}

/// For each vertex, the edges the traversal follows out of it and the
/// vertex each leads to, in edge order.
pub fn build_adjacency(verts: &Vec<Node>, edges: &Vec<Edge>, generator: EdgeGenerator) -> (r: Vec<
    Vec<(usize, usize)>,
>)
    requires
        forall|k: int| 0 <= k < edges@.len() ==> ids_of(verts@).contains(#[trigger] edges@[k].start_node.id@)
            && ids_of(verts@).contains(edges@[k].end_node.id@),
        unique_ids(verts@),
    ensures
        adjacency_of(r@, verts@, edges@, generator),
        forall|u: int| 0 <= u < verts@.len() ==> (#[trigger] r@[u])@ == adj_row(id_seq(verts@), edges@, generator, u, edges@.len() as int),
{
    let mut adj: Vec<Vec<(usize, usize)>> = Vec::new();
    let mut u: usize = 0;
    while u < verts.len()
        invariant
            0 <= u <= verts@.len(),
            adj@.len() == u,
            forall|k: int| 0 <= k < edges@.len() ==> ids_of(verts@).contains(#[trigger] edges@[k].start_node.id@)
                && ids_of(verts@).contains(edges@[k].end_node.id@),
            forall|w: int, p: int|
                #![trigger adj@[w]@[p]]
                0 <= w < adj@.len() && 0 <= p < adj@[w]@.len() ==> {
                    let (k, v) = adj@[w]@[p];
                    &&& k < edges@.len()
                    &&& v < verts@.len()
                    &&& follows(generator, edges@[k as int], verts@[w].id@)
                    &&& verts@[v as int].id@ == reached(generator, edges@[k as int], verts@[w].id@)
                },
            forall|w: int, k: int|
                0 <= w < adj@.len() && 0 <= k < edges@.len() && #[trigger] follows(generator, edges@[k], verts@[w].id@)
                    ==> has_entry(adj@[w]@, k),
            unique_ids(verts@),
            forall|w: int| 0 <= w < u ==> (#[trigger] adj@[w])@ == adj_row(id_seq(verts@), edges@, generator, w, edges@.len() as int),
        decreases verts@.len() - u,
    {
        let uid = &verts[u].id;
        let mut row: Vec<(usize, usize)> = Vec::new();
        let mut k: usize = 0;
        while k < edges.len()
            invariant
                0 <= k <= edges@.len(),
                0 <= u < verts@.len(),
                uid@ == verts@[u as int].id@,
                forall|k: int| 0 <= k < edges@.len() ==> ids_of(verts@).contains(#[trigger] edges@[k].start_node.id@)
                    && ids_of(verts@).contains(edges@[k].end_node.id@),
                forall|p: int|
                    #![trigger row@[p]]
                    0 <= p < row@.len() ==> {
                        let (k2, v) = row@[p];
                        &&& k2 < edges@.len()
                        &&& v < verts@.len()
                        &&& follows(generator, edges@[k2 as int], verts@[u as int].id@)
                        &&& verts@[v as int].id@ == reached(generator, edges@[k2 as int], verts@[u as int].id@)
                    },
                forall|j: int|
                    0 <= j < k && #[trigger] follows(generator, edges@[j], verts@[u as int].id@)
                        ==> has_entry(row@, j),
                unique_ids(verts@),
                row@ == adj_row(id_seq(verts@), edges@, generator, u as int, k as int),
            decreases edges@.len() - k,
        {
            let e = &edges[k];
            let target: Option<&String> = match generator {
                EdgeGenerator::OutEdges => {
                    if e.start_node.id == *uid {
                        Some(&e.end_node.id)
                    } else {
                        None
                    }
                },
                EdgeGenerator::IncidentEdges => {
                    if e.start_node.id == *uid {
                        Some(&e.end_node.id)
                    } else if e.end_node.id == *uid {
                        Some(&e.start_node.id)
                    } else {
                        None
                    }
                },
            };
            let ghost old_row = row@;
            match target {
                Some(tid) => {
                    assert(ids_of(verts@).contains(tid@));
                    match index_of(verts, tid) {
                        Some(v) => {
                            proof {
                                let ids = id_seq(verts@);
                                assert(ids[u as int] == verts@[u as int].id@);
                                assert(ids[v as int] == verts@[v as int].id@);
                                let q = pos_of_id(ids, tid@);
                                assert(0 <= q < ids.len() && ids[q] == tid@);
                                assert(ids[q] == verts@[q].id@);
                                assert(q == v as int);
                                assert(follows(generator, edges@[k as int], ids[u as int]));
                            }
                            row.push((k, v));
                            proof {
                                assert(row@[row@.len() - 1].0 == k);
                                assert forall|j: int|
                                    0 <= j < k + 1 && #[trigger] follows(generator, edges@[j], verts@[u as int].id@)
                                        implies has_entry(row@, j) by {
                                    if j < k {
                                        let p = choose|p: int| 0 <= p < old_row.len() && (#[trigger] old_row[p]).0 == j;
                                        assert(row@[p] == old_row[p]);
                                    } else {
                                        assert(row@[row@.len() - 1].0 == j);
                                    }
                                }
                            }
                        },
                        None => {
                            assert(false);
                        },
                    }
                },
                None => {
                    proof {
                        let ids = id_seq(verts@);
                        assert(ids[u as int] == verts@[u as int].id@);
                        assert(!follows(generator, edges@[k as int], ids[u as int]));
                    }
                },
            }
            k += 1;
        }
        let ghost old_adj = adj@;
        adj.push(row);
        proof {
            assert forall|w: int, k: int|
                0 <= w < adj@.len() && 0 <= k < edges@.len() && #[trigger] follows(generator, edges@[k], verts@[w].id@)
                    implies has_entry(adj@[w]@, k) by {
                if w < u {
                    assert(adj@[w] == old_adj[w]);
                }
            }
            assert forall|w: int| 0 <= w < u + 1 implies (#[trigger] adj@[w])@ == adj_row(id_seq(verts@), edges@, generator, w, edges@.len() as int) by {
                if w < u {
                    assert(adj@[w] == old_adj[w]);
                }
            }
        }
        u += 1;
    }
    adj
}

/// Two stamp intervals `[d1, f1]` and `[d2, f2]` are disjoint or nested.
pub open spec fn paren(d1: int, f1: int, d2: int, f2: int) -> bool {
    f1 < d2 || f2 < d1 || (d1 <= d2 && f2 <= f1) || (d2 <= d1 && f1 <= f2)
}

/// Vertices that have a discovery stamp.
pub open spec fn seen_set(disc: Seq<usize>) -> Set<int> {
    Set::new(|v: int| 0 <= v < disc.len() && disc[v] != UNSET)
}

/// Vertices that have a finish stamp.
pub open spec fn done_set(fin: Seq<usize>) -> Set<int> {
    Set::new(|v: int| 0 <= v < fin.len() && fin[v] != UNSET)
}

/// A set of vertex positions below `n` that misses `w` has room for `w`.
proof fn lemma_room(s: Set<int>, n: int, w: int)
    requires
        forall|x: int| s.contains(x) ==> 0 <= x < n,
        0 <= w < n,
        !s.contains(w),
    ensures
        s.finite(),
        s.len() + 1 <= n,
{
    lemma_int_range(0, n);
    assert(s.insert(w).subset_of(set_int_range(0, n)));
    lemma_len_subset(s.insert(w), set_int_range(0, n));
    lemma_len_subset(s, s.insert(w));
}

/// A set of vertex positions below `n` has at most `n` members.
proof fn lemma_bounded(s: Set<int>, n: int)
    requires
        forall|x: int| s.contains(x) ==> 0 <= x < n,
        0 <= n,
    ensures
        s.finite(),
        s.len() <= n,
{
    lemma_int_range(0, n);
    assert(s.subset_of(set_int_range(0, n)));
    lemma_len_subset(s, set_int_range(0, n));
}

/// The stamps of a traversal in progress at clock `time`: unreached vertices
/// carry no stamp, stamps are distinct, every finish follows its discovery,
/// and the intervals of any two reached vertices are disjoint or nested (an
/// open interval ends at `UNSET`).
pub open spec fn stamps_ok(n: int, disc: Seq<usize>, fin: Seq<usize>, time: int) -> bool {
    &&& disc.len() == n
    &&& fin.len() == n
    &&& forall|v: int| 0 <= v < n && #[trigger] disc[v] == UNSET ==> fin[v] == UNSET
    &&& forall|v: int| 0 <= v < n && #[trigger] disc[v] != UNSET ==> 1 <= disc[v] <= time
    &&& forall|v: int| 0 <= v < n && #[trigger] fin[v] != UNSET ==> disc[v] < fin[v] <= time
    &&& forall|u: int, v: int|
        #![trigger disc[u], disc[v]]
        0 <= u < n && 0 <= v < n && u != v && disc[u] != UNSET && disc[v] != UNSET ==> disc[u] != disc[v]
    &&& forall|u: int, v: int|
        #![trigger disc[u], disc[v]]
        0 <= u < n && 0 <= v < n && disc[u] != UNSET && disc[v] != UNSET ==> paren(
            disc[u] as int,
            fin[u] as int,
            disc[v] as int,
            fin[v] as int,
        )
    &&& forall|u: int, v: int|
        #![trigger fin[u], fin[v]]
        0 <= u < n && 0 <= v < n && u != v && fin[u] != UNSET && fin[v] != UNSET ==> fin[u] != fin[v]
    &&& forall|u: int, v: int|
        #![trigger disc[u], fin[v]]
        0 <= u < n && 0 <= v < n && disc[u] != UNSET && fin[v] != UNSET ==> disc[u] != fin[v]
    &&& time == seen_set(disc).len() + done_set(fin).len()
    &&& time < UNSET
}

/// Parents and components of a traversal in progress: a parent was reached
/// before its child, lies in its component, and finishes after it.
pub open spec fn trees_ok(
    n: int,
    disc: Seq<usize>,
    fin: Seq<usize>,
    pred: Seq<Option<usize>>,
    comp: Seq<usize>,
    ncomp: int,
) -> bool {
    &&& pred.len() == n
    &&& comp.len() == n
    &&& forall|v: int| 0 <= v < n && #[trigger] disc[v] == UNSET ==> pred[v].is_none()
    &&& forall|v: int| 0 <= v < n && #[trigger] disc[v] != UNSET ==> comp[v] < ncomp
    &&& forall|v: int|
        #![trigger pred[v]]
        0 <= v < n && pred[v].is_some() ==> {
            let p = pred[v].unwrap() as int;
            &&& 0 <= p < n
            &&& disc[v] != UNSET
            &&& disc[p] != UNSET
            &&& disc[p] < disc[v]
            &&& comp[p] == comp[v]
            &&& fin[v] == UNSET ==> fin[p] == UNSET
            &&& fin[p] != UNSET ==> fin[v] != UNSET && fin[v] < fin[p]
        }
}

/// Each of the `ncomp` components has a root at position `roots[c]`: a
/// reached vertex of that component without a parent.
pub open spec fn roots_ok(
    n: int,
    disc: Seq<usize>,
    pred: Seq<Option<usize>>,
    comp: Seq<usize>,
    ncomp: int,
    roots: Seq<int>,
) -> bool {
    &&& roots.len() == ncomp
    &&& forall|c: int|
        #![trigger roots[c]]
        0 <= c < ncomp ==> {
            let r = roots[c];
            &&& 0 <= r < n
            &&& comp[r] == c
            &&& disc[r] != UNSET
            &&& pred[r].is_none()
        }
}

/// Component `c` has a root: a vertex of `c` without a parent.
pub open spec fn has_root(pred: Seq<Option<usize>>, comp: Seq<usize>, c: int) -> bool {
    exists|r: int| 0 <= r < pred.len() && #[trigger] comp[r] == c && pred[r].is_none()
}

/// Recorded back edges `(a, w)`: a loop on `a`, or `a` was reached before
/// `w`, stays open while `w` is open, and finishes after it.
pub open spec fn back_ok(
    n: int,
    disc: Seq<usize>,
    fin: Seq<usize>,
    comp: Seq<usize>,
    back: Seq<(usize, usize)>,
) -> bool {
    forall|b: int|
        #![trigger back[b]]
        0 <= b < back.len() ==> {
            let (a, w) = back[b];
            &&& a < n
            &&& w < n
            &&& disc[a as int] != UNSET
            &&& disc[w as int] != UNSET
            &&& comp[a as int] == comp[w as int]
            &&& a != w ==> {
                &&& disc[a as int] < disc[w as int]
                &&& fin[w as int] == UNSET ==> fin[a as int] == UNSET
                &&& fin[a as int] != UNSET ==> fin[w as int] != UNSET && fin[w as int] < fin[a as int]
            }
        }
}

/// Recorded tree edges `(v, k)`: edge `k` leads from the parent of `v` to `v`.
pub open spec fn tree_ok(
    n: int,
    pred: Seq<Option<usize>>,
    tree: Seq<(usize, usize)>,
    verts: Seq<Node>,
    edges: Seq<Edge>,
    generator: EdgeGenerator,
) -> bool {
    forall|t: int|
        #![trigger tree[t]]
        0 <= t < tree.len() ==> {
            let (v, k) = tree[t];
            &&& v < n
            &&& k < edges.len()
            &&& pred[v as int].is_some()
            &&& follows(generator, edges[k as int], verts[pred[v as int].unwrap() as int].id@)
            &&& verts[v as int].id@ == reached(
                generator,
                edges[k as int],
                verts[pred[v as int].unwrap() as int].id@,
            )
        }
}

/// The traversal stack: open vertices in discovery order, each with the
/// position of its next adjacency entry; `slot` finds each open vertex on it.
pub open spec fn stack_ok(
    n: int,
    disc: Seq<usize>,
    fin: Seq<usize>,
    comp: Seq<usize>,
    ncomp: int,
    adj: Seq<Vec<(usize, usize)>>,
    stack: Seq<(usize, usize)>,
    slot: Seq<int>,
) -> bool {
    &&& slot.len() == n
    &&& forall|i: int|
        #![trigger stack[i]]
        0 <= i < stack.len() ==> {
            let (u, pos) = stack[i];
            &&& u < n
            &&& disc[u as int] != UNSET
            &&& fin[u as int] == UNSET
            &&& pos <= adj[u as int]@.len()
        }
    &&& forall|i: int, j: int|
        #![trigger stack[i], stack[j]]
        0 <= i < j < stack.len() ==> disc[stack[i].0 as int] < disc[stack[j].0 as int]
    &&& forall|v: int|
        #![trigger slot[v]]
        0 <= v < n && disc[v] != UNSET && fin[v] == UNSET ==> {
            &&& 0 <= slot[v] < stack.len()
            &&& stack[slot[v]].0 == v
            &&& comp[v] == ncomp - 1
        }
}

/// Everything a traversal leaves: stamps, parents, components, recorded
/// tree edges and back edges.
pub struct DfsForestMaps {
    /// discovery stamp of each vertex
    pub disc: Vec<usize>,
    /// finish stamp of each vertex
    pub fin: Vec<usize>,
    /// parent of each vertex in its tree
    pub pred: Vec<Option<usize>>,
    /// component of each vertex
    pub comp: Vec<usize>,
    /// number of components
    pub ncomp: usize,
    /// tree edges, as (child, edge position)
    pub tree: Vec<(usize, usize)>,
    /// back edges, as (ancestor, descendant)
    pub back: Vec<(usize, usize)>,
}

/// The state of a traversal: stamps, parents, components, recorded tree
/// and back edges, the stack, the clock, and the next start position.
pub ghost struct WalkState {
    pub disc: Seq<usize>,
    pub fin: Seq<usize>,
    pub pred: Seq<Option<usize>>,
    pub comp: Seq<usize>,
    pub ncomp: int,
    pub tree: Seq<(usize, usize)>,
    pub back: Seq<(usize, usize)>,
    pub stack: Seq<(usize, usize)>,
    pub time: int,
    pub step: int,
}

/// The state before the traversal of `n` vertices.
pub open spec fn walk_init(n: int) -> WalkState {
    WalkState {
        disc: Seq::new(n as nat, |i: int| UNSET),
        fin: Seq::new(n as nat, |i: int| UNSET),
        pred: Seq::new(n as nat, |i: int| None),
        comp: Seq::new(n as nat, |i: int| 0usize),
        ncomp: 0,
        tree: Seq::empty(),
        back: Seq::empty(),
        stack: Seq::empty(),
        time: 0,
        step: 0,
    }
}

/// The vertex a tree is started from at start position `step`: `first` at
/// position zero (none if not given), then the vertices in order.
pub open spec fn start_at(n: int, first: Option<usize>, step: int) -> int {
    if step == 0 {
        match first {
            Some(f) => f as int,
            None => n,
        }
    } else {
        step - 1
    }
}

#[verifier::opaque]
/// One move of the traversal over the adjacency rows `rows`: follow the
/// next entry of the top of the stack (reaching a new vertex, recording a
/// back edge, or passing), finish the top when its entries are used up, or,
/// with an empty stack, start a tree from the next start position.
pub open spec fn walk_next(
    rows: Seq<Seq<(usize, usize)>>,
    n: int,
    check_cycle: bool,
    first: Option<usize>,
    s: WalkState,
) -> WalkState {
    if s.stack.len() > 0 {
        let (u, pos) = s.stack.last();
        if (pos as int) < rows[u as int].len() {
            let (k, v) = rows[u as int][pos as int];
            let st = s.stack.update(s.stack.len() - 1, (u, (pos + 1) as usize));
            if s.disc[v as int] == UNSET {
                WalkState {
                    disc: s.disc.update(v as int, (s.time + 1) as usize),
                    pred: s.pred.update(v as int, Some(u)),
                    comp: s.comp.update(v as int, (s.ncomp - 1) as usize),
                    tree: s.tree.push((v, k)),
                    stack: st.push((v, 0usize)),
                    time: s.time + 1,
                    ..s
                }
            } else if check_cycle && s.fin[v as int] == UNSET && s.pred[u as int] != Some(v) {
                WalkState { back: s.back.push((v, u)), stack: st, ..s }
            } else {
                WalkState { stack: st, ..s }
            }
        } else {
            WalkState {
                fin: s.fin.update(u as int, (s.time + 1) as usize),
                stack: s.stack.drop_last(),
                time: s.time + 1,
                ..s
            }
        }
    } else if s.step <= n {
        let root = start_at(n, first, s.step);
        if root < n && s.disc[root] == UNSET {
            WalkState {
                disc: s.disc.update(root, (s.time + 1) as usize),
                comp: s.comp.update(root, s.ncomp as usize),
                ncomp: s.ncomp + 1,
                stack: seq![(root as usize, 0usize)],
                time: s.time + 1,
                step: s.step + 1,
                ..s
            }
        } else {
            WalkState { step: s.step + 1, ..s }
        }
    } else {
        s
    }
}

/// The state after `fuel` moves.
pub open spec fn walk_run(
    rows: Seq<Seq<(usize, usize)>>,
    n: int,
    check_cycle: bool,
    first: Option<usize>,
    fuel: nat,
) -> WalkState
    decreases fuel,
{
    if fuel == 0 {
        walk_init(n)
    } else {
        walk_next(rows, n, check_cycle, first, walk_run(rows, n, check_cycle, first, (fuel - 1) as nat))
    }
}

/// The move that follows the next entry `(k, v)` of the top `u` of the
/// stack to an unreached vertex.
proof fn lemma_next_discover(
    rows: Seq<Seq<(usize, usize)>>,
    n: int,
    check_cycle: bool,
    first: Option<usize>,
    s: WalkState,
    t: WalkState,
    u: usize,
    pos: usize,
    k: usize,
    v: usize,
)
    requires
        s.stack.len() > 0,
        s.stack.last() == (u, pos),
        (pos as int) < rows[u as int].len(),
        rows[u as int][pos as int] == (k, v),
        s.disc[v as int] == UNSET,
        t.disc == s.disc.update(v as int, (s.time + 1) as usize),
        t.fin == s.fin,
        t.pred == s.pred.update(v as int, Some(u)),
        t.comp == s.comp.update(v as int, (s.ncomp - 1) as usize),
        t.ncomp == s.ncomp,
        t.tree == s.tree.push((v, k)),
        t.back == s.back,
        t.stack == s.stack.update(s.stack.len() - 1, (u, (pos + 1) as usize)).push((v, 0usize)),
        t.time == s.time + 1,
        t.step == s.step,
    ensures
        walk_next(rows, n, check_cycle, first, s) == t,
{
    reveal(walk_next);
}

/// The move that follows the next entry `(k, v)` of the top `u` of the
/// stack to a reached vertex, recording a back edge when it closes a cycle.
proof fn lemma_next_pass(
    rows: Seq<Seq<(usize, usize)>>,
    n: int,
    check_cycle: bool,
    first: Option<usize>,
    s: WalkState,
    t: WalkState,
    u: usize,
    pos: usize,
    k: usize,
    v: usize,
)
    requires
        s.stack.len() > 0,
        s.stack.last() == (u, pos),
        (pos as int) < rows[u as int].len(),
        rows[u as int][pos as int] == (k, v),
        s.disc[v as int] != UNSET,
        t.disc == s.disc,
        t.fin == s.fin,
        t.pred == s.pred,
        t.comp == s.comp,
        t.ncomp == s.ncomp,
        t.tree == s.tree,
        (check_cycle && s.fin[v as int] == UNSET && s.pred[u as int] != Some(v)) ==> t.back == s.back.push((v, u)),
        !(check_cycle && s.fin[v as int] == UNSET && s.pred[u as int] != Some(v)) ==> t.back == s.back,
        t.stack == s.stack.update(s.stack.len() - 1, (u, (pos + 1) as usize)),
        t.time == s.time,
        t.step == s.step,
    ensures
        walk_next(rows, n, check_cycle, first, s) == t,
{
    reveal(walk_next);
}

/// The move that finishes the top `u` of the stack, its entries used up.
proof fn lemma_next_finish(
    rows: Seq<Seq<(usize, usize)>>,
    n: int,
    check_cycle: bool,
    first: Option<usize>,
    s: WalkState,
    t: WalkState,
    u: usize,
    pos: usize,
)
    requires
        s.stack.len() > 0,
        s.stack.last() == (u, pos),
        (pos as int) >= rows[u as int].len(),
        t.disc == s.disc,
        t.fin == s.fin.update(u as int, (s.time + 1) as usize),
        t.pred == s.pred,
        t.comp == s.comp,
        t.ncomp == s.ncomp,
        t.tree == s.tree,
        t.back == s.back,
        t.stack == s.stack.drop_last(),
        t.time == s.time + 1,
        t.step == s.step,
    ensures
        walk_next(rows, n, check_cycle, first, s) == t,
{
    reveal(walk_next);
}

/// The move that, with an empty stack, starts a tree from the next start
/// position if its vertex is unreached.
proof fn lemma_next_start(rows: Seq<Seq<(usize, usize)>>, n: int, check_cycle: bool, first: Option<usize>, s: WalkState)
    requires
        s.stack.len() == 0,
        s.step <= n,
    ensures
        ({
            let root = start_at(n, first, s.step);
            walk_next(rows, n, check_cycle, first, s) == if root < n && s.disc[root] == UNSET {
                WalkState {
                    disc: s.disc.update(root, (s.time + 1) as usize),
                    comp: s.comp.update(root, s.ncomp as usize),
                    ncomp: s.ncomp + 1,
                    stack: seq![(root as usize, 0usize)],
                    time: s.time + 1,
                    step: s.step + 1,
                    ..s
                }
            } else {
                WalkState { step: s.step + 1, ..s }
            }
        }),
{
    reveal(walk_next);
}

/// The traversal is over: the stack is empty and every start position used.
pub open spec fn walk_done(s: WalkState, n: int) -> bool {
    s.stack.len() == 0 && s.step > n
}

/// Every entry of the rows leads to one of the `n` vertices.
pub open spec fn rows_valid(rows: Seq<Seq<(usize, usize)>>, n: int) -> bool {
    &&& rows.len() == n
    &&& forall|u: int, p: int| 0 <= u < n && 0 <= p < rows[u].len() ==> ((#[trigger] rows[u][p]).1 as int) < n
}

/// What holds of every traversal state whose clock has not run out: the
/// stack and the recorded back edges hold reached vertices, and no back
/// edge names the parent of the vertex it leaves from.
pub open spec fn model_ok(s: WalkState, n: int) -> bool {
    &&& s.time >= 0
    &&& s.step >= 0
    &&& s.disc.len() == n
    &&& s.pred.len() == n
    &&& forall|i: int|
        0 <= i < s.stack.len() ==> ((#[trigger] s.stack[i]).0 as int) < n && s.disc[s.stack[i].0 as int] != UNSET
    &&& forall|b: int|
        0 <= b < s.back.len() ==> ((#[trigger] s.back[b]).1 as int) < n && s.disc[s.back[b].1 as int] != UNSET
            && s.pred[s.back[b].1 as int] != Some(s.back[b].0)
}

/// A move never turns the clock back.
proof fn lemma_next_time(rows: Seq<Seq<(usize, usize)>>, n: int, check_cycle: bool, first: Option<usize>, s: WalkState)
    ensures
        walk_next(rows, n, check_cycle, first, s).time >= s.time,
{
    reveal(walk_next);
}

/// The clock after `c1` moves is at most the clock after `c2 >= c1` moves.
proof fn lemma_run_time(rows: Seq<Seq<(usize, usize)>>, n: int, check_cycle: bool, first: Option<usize>, c1: nat, c2: nat)
    requires
        c1 <= c2,
    ensures
        walk_run(rows, n, check_cycle, first, c1).time <= walk_run(rows, n, check_cycle, first, c2).time,
    decreases c2,
{
    if c2 > c1 {
        lemma_run_time(rows, n, check_cycle, first, c1, (c2 - 1) as nat);
        lemma_next_time(rows, n, check_cycle, first, walk_run(rows, n, check_cycle, first, (c2 - 1) as nat));
    }
}

/// Every state of a traversal whose clock stays below `UNSET` is sound.
pub proof fn lemma_model_ok(rows: Seq<Seq<(usize, usize)>>, n: int, check_cycle: bool, first: Option<usize>, c: nat)
    requires
        rows_valid(rows, n),
        0 <= n <= MAX_VERTICES,
        walk_run(rows, n, check_cycle, first, c).time < UNSET,
    ensures
        model_ok(walk_run(rows, n, check_cycle, first, c), n),
    decreases c,
{
    if c > 0 {
        let s = walk_run(rows, n, check_cycle, first, (c - 1) as nat);
        lemma_run_time(rows, n, check_cycle, first, (c - 1) as nat, c);
        lemma_model_ok(rows, n, check_cycle, first, (c - 1) as nat);
        let t = walk_next(rows, n, check_cycle, first, s);
        assert(t == walk_run(rows, n, check_cycle, first, c));
        reveal(walk_next);
        if s.stack.len() > 0 {
            let (u, pos) = s.stack.last();
            assert(s.stack[s.stack.len() - 1] == s.stack.last());
            if (pos as int) < rows[u as int].len() {
                let (k, v) = rows[u as int][pos as int];
                assert(rows[u as int][pos as int] == (k, v));
                let st = s.stack.update(s.stack.len() - 1, (u, (pos + 1) as usize));
                if s.disc[v as int] == UNSET {
                    assert((v as int) < n);
                    assert(t.disc == s.disc.update(v as int, (s.time + 1) as usize));
                    assert(t.time == s.time + 1);
                    assert(t.disc[v as int] != UNSET);
                    assert(t.stack == st.push((v, 0usize)));
                    assert forall|i: int| 0 <= i < t.stack.len() implies ((#[trigger] t.stack[i]).0 as int) < n
                        && t.disc[t.stack[i].0 as int] != UNSET by {
                        if i < s.stack.len() {
                            assert(t.stack[i].0 == s.stack[i].0);
                            assert(s.disc[s.stack[i].0 as int] != UNSET);
                            assert(s.stack[i].0 as int != v as int);
                        } else {
                            assert(t.stack[i] == (v, 0usize));
                        }
                    }
                    assert forall|b: int| 0 <= b < t.back.len() implies ((#[trigger] t.back[b]).1 as int) < n
                        && t.disc[t.back[b].1 as int] != UNSET && t.pred[t.back[b].1 as int] != Some(t.back[b].0) by {
                        assert(s.back[b].1 as int != v as int);
                    }
                } else if check_cycle && s.fin[v as int] == UNSET && s.pred[u as int] != Some(v) {
                    assert forall|i: int| 0 <= i < t.stack.len() implies ((#[trigger] t.stack[i]).0 as int) < n
                        && t.disc[t.stack[i].0 as int] != UNSET by {
                        assert(t.stack[i].0 == s.stack[i].0);
                    }
                    assert forall|b: int| 0 <= b < t.back.len() implies ((#[trigger] t.back[b]).1 as int) < n
                        && t.disc[t.back[b].1 as int] != UNSET && t.pred[t.back[b].1 as int] != Some(t.back[b].0) by {
                        if b < s.back.len() {
                            assert(t.back[b] == s.back[b]);
                        }
                    }
                } else {
                    assert forall|i: int| 0 <= i < t.stack.len() implies ((#[trigger] t.stack[i]).0 as int) < n
                        && t.disc[t.stack[i].0 as int] != UNSET by {
                        assert(t.stack[i].0 == s.stack[i].0);
                    }
                }
            } else {
                assert forall|i: int| 0 <= i < t.stack.len() implies ((#[trigger] t.stack[i]).0 as int) < n
                    && t.disc[t.stack[i].0 as int] != UNSET by {
                    assert(t.stack[i] == s.stack[i]);
                }
            }
        } else if s.step <= n {
            let root = start_at(n, first, s.step);
            assert(root >= 0);
            if root < n && s.disc[root] == UNSET {
                assert(t.disc == s.disc.update(root, (s.time + 1) as usize));
                assert(t.time == s.time + 1);
                assert(t.disc[root] != UNSET);
                assert(t.stack == seq![(root as usize, 0usize)]);
                assert(t.back == s.back && t.pred == s.pred);
                assert forall|i: int| 0 <= i < t.stack.len() implies ((#[trigger] t.stack[i]).0 as int) < n
                    && t.disc[t.stack[i].0 as int] != UNSET by {
                    assert(t.stack[i] == (root as usize, 0usize));
                }
                assert forall|b: int| 0 <= b < t.back.len() implies ((#[trigger] t.back[b]).1 as int) < n
                    && t.disc[t.back[b].1 as int] != UNSET && t.pred[t.back[b].1 as int] != Some(t.back[b].0) by {
                    assert(t.back[b] == s.back[b]);
                    assert(s.disc[s.back[b].1 as int] != UNSET);
                    assert(s.back[b].1 as int != root);
                }
            }
        }
    } else {
        assert(walk_run(rows, n, check_cycle, first, c) == walk_init(n));
    }
}

/// Once over, the traversal stays as it is.
proof fn lemma_walk_stays_done(
    rows: Seq<Seq<(usize, usize)>>,
    n: int,
    check_cycle: bool,
    first: Option<usize>,
    c1: nat,
    c2: nat,
)
    requires
        c1 <= c2,
        walk_done(walk_run(rows, n, check_cycle, first, c1), n),
    ensures
        walk_run(rows, n, check_cycle, first, c2) == walk_run(rows, n, check_cycle, first, c1),
    decreases c2,
{
    if c2 > c1 {
        lemma_walk_stays_done(rows, n, check_cycle, first, c1, (c2 - 1) as nat);
        reveal(walk_next);
    }
}

/// A traversal ends in one state only.
pub proof fn lemma_walk_end_unique(
    rows: Seq<Seq<(usize, usize)>>,
    n: int,
    check_cycle: bool,
    first: Option<usize>,
    c1: nat,
    c2: nat,
)
    requires
        walk_done(walk_run(rows, n, check_cycle, first, c1), n),
        walk_done(walk_run(rows, n, check_cycle, first, c2), n),
    ensures
        walk_run(rows, n, check_cycle, first, c1) == walk_run(rows, n, check_cycle, first, c2),
{
    if c1 <= c2 {
        lemma_walk_stays_done(rows, n, check_cycle, first, c1, c2);
    } else {
        lemma_walk_stays_done(rows, n, check_cycle, first, c2, c1);
    }
}

/// The adjacency rows of `adj`, as sequences.
pub open spec fn rows_of(adj: Seq<Vec<(usize, usize)>>) -> Seq<Seq<(usize, usize)>> {
    adj.map_values(|r: Vec<(usize, usize)>| r@)
}

/// The traversal over `rows` ends in the state `e`.
pub open spec fn walk_ends_in(
    rows: Seq<Seq<(usize, usize)>>,
    n: int,
    check_cycle: bool,
    first: Option<usize>,
    e: WalkState,
) -> bool {
    walk_done(e, n) && exists|c: nat| #[trigger] walk_run(rows, n, check_cycle, first, c) == e
}

/// Some recorded back edge goes from `w` to `a`.
pub open spec fn recorded(back: Seq<(usize, usize)>, a: int, w: int) -> bool {
    exists|b: int| 0 <= b < back.len() && #[trigger] back[b] == (a as usize, w as usize)
}

/// `v` is `u` itself, or was reached before `u` and is still open or
/// finishes after it.
pub open spec fn open_ancestor(disc: Seq<usize>, fin: Seq<usize>, u: int, v: int) -> bool {
    v == u || (disc[v] < disc[u] && (fin[v] == UNSET || (fin[u] != UNSET && fin[u] < fin[v])))
}

/// Entry `p` of vertex `u`, once followed, leads to a reached vertex, and
/// when cycles are checked it is recorded as a back edge if it leads to an
/// open ancestor other than the parent.
pub open spec fn entry_done(
    adj: Seq<Vec<(usize, usize)>>,
    disc: Seq<usize>,
    fin: Seq<usize>,
    pred: Seq<Option<usize>>,
    back: Seq<(usize, usize)>,
    check_cycle: bool,
    u: int,
    p: int,
) -> bool {
    let v = adj[u]@[p].1;
    &&& disc[v as int] != UNSET
    &&& (check_cycle && pred[u] != Some(v) && open_ancestor(disc, fin, u, v as int)) ==> recorded(back, v as int, u)
}

/// Number of entries of `u` followed so far: none before `u` is reached,
/// the stack position while it is open, all once it is finished.
pub open spec fn followed(
    adj: Seq<Vec<(usize, usize)>>,
    disc: Seq<usize>,
    fin: Seq<usize>,
    stack: Seq<(usize, usize)>,
    slot: Seq<int>,
    u: int,
) -> int {
    if disc[u] == UNSET {
        0
    } else if fin[u] == UNSET {
        stack[slot[u]].1 as int
    } else {
        adj[u]@.len() as int
    }
}

/// Some recorded tree edge leads to `v`.
pub open spec fn has_tree_entry(tree: Seq<(usize, usize)>, v: int) -> bool {
    exists|t: int| 0 <= t < tree.len() && #[trigger] tree[t].0 == v as usize
}

/// Every open vertex lies on the stack, in the newest component, and was
/// reached no later than the top of the stack.
proof fn lemma_top_latest(
    n: int,
    disc: Seq<usize>,
    fin: Seq<usize>,
    comp: Seq<usize>,
    ncomp: int,
    adj: Seq<Vec<(usize, usize)>>,
    stack: Seq<(usize, usize)>,
    slot: Seq<int>,
)
    requires
        stack_ok(n, disc, fin, comp, ncomp, adj, stack, slot),
        stack.len() > 0,
        disc.len() == n,
    ensures
        forall|x: int|
            0 <= x < n && disc[x] != UNSET && fin[x] == UNSET ==> {
                &&& #[trigger] disc[x] <= disc[stack.last().0 as int]
                &&& x != stack.last().0 ==> disc[x] < disc[stack.last().0 as int]
                &&& comp[x] == ncomp - 1
            },
{
    let top = stack.len() - 1;
    assert(stack[top] == stack.last());
    assert forall|x: int|
        0 <= x < n && disc[x] != UNSET && fin[x] == UNSET implies {
            &&& #[trigger] disc[x] <= disc[stack.last().0 as int]
            &&& x != stack.last().0 ==> disc[x] < disc[stack.last().0 as int]
            &&& comp[x] == ncomp - 1
        } by {
        let i = slot[x];
        assert(stack[i].0 == x);
        if i < top {
            assert(disc[stack[i].0 as int] < disc[stack[top].0 as int]);
        }
    }
}

/// Open vertices are on the stack at their slot.
pub open spec fn slots_ok(disc: Seq<usize>, fin: Seq<usize>, stack: Seq<(usize, usize)>, slot: Seq<int>) -> bool {
    forall|x: int|
        #![trigger slot[x]]
        0 <= x < disc.len() && disc[x] != UNSET && fin[x] == UNSET ==> 0 <= slot[x] < stack.len() && stack[slot[x]].0
            == x as usize
}

/// Every followed entry is done.
pub open spec fn entries_ok(
    n: int,
    adj: Seq<Vec<(usize, usize)>>,
    disc: Seq<usize>,
    fin: Seq<usize>,
    pred: Seq<Option<usize>>,
    back: Seq<(usize, usize)>,
    check_cycle: bool,
    stack: Seq<(usize, usize)>,
    slot: Seq<int>,
) -> bool {
    forall|x: int, q: int|
        0 <= x < n && 0 <= q < followed(adj, disc, fin, stack, slot, x) ==> #[trigger] entry_done(
            adj,
            disc,
            fin,
            pred,
            back,
            check_cycle,
            x,
            q,
        )
}

/// Following entry `pos` of the top `u` to the unreached `v`, stamped `t`,
/// keeps every followed entry done.
proof fn lemma_entries_after_discover(
    n: int,
    adj: Seq<Vec<(usize, usize)>>,
    d0: Seq<usize>,
    disc: Seq<usize>,
    fin: Seq<usize>,
    p0: Seq<Option<usize>>,
    pred: Seq<Option<usize>>,
    back: Seq<(usize, usize)>,
    check_cycle: bool,
    s_head: Seq<(usize, usize)>,
    stack: Seq<(usize, usize)>,
    slot_head: Seq<int>,
    slot: Seq<int>,
    u: int,
    pos: int,
    v: int,
    t: int,
)
    requires
        forall|x: int, q: int| 0 <= x < n && 0 <= q < adj[x]@.len() ==> (#[trigger] adj[x]@[q]).1 < n,
        0 <= t < UNSET,
        0 <= pos < usize::MAX,
        forall|i: int| 0 <= i < s_head.len() ==> (#[trigger] s_head[i]).0 < n && s_head[i].1 <= adj[s_head[i].0 as int]@.len(),
        n <= MAX_VERTICES,
        d0.len() == n,
        fin.len() == n,
        p0.len() == n,
        adj.len() == n,
        slot_head.len() == n,
        0 <= u < n,
        0 <= v < n,
        s_head.len() > 0,
        s_head.last() == (u as usize, pos as usize),
        forall|i: int| 0 <= i < s_head.len() - 1 ==> #[trigger] s_head[i].0 != u as usize,
        0 <= pos < adj[u]@.len(),
        adj[u]@[pos].1 == v as usize,
        d0[v] == UNSET,
        d0[u] != UNSET,
        fin[u] == UNSET,
        fin[v] == UNSET,
        t != UNSET,
        forall|x: int| 0 <= x < n && d0[x] != UNSET ==> #[trigger] d0[x] < t,
        disc == d0.update(v, t as usize),
        pred == p0.update(v, Some(u as usize)),
        stack == s_head.update(s_head.len() - 1, (u as usize, (pos + 1) as usize)).push((v as usize, 0usize)),
        slot == slot_head.update(v, s_head.len() as int),
        slots_ok(d0, fin, s_head, slot_head),
        entries_ok(n, adj, d0, fin, p0, back, check_cycle, s_head, slot_head),
    ensures
        entries_ok(n, adj, disc, fin, pred, back, check_cycle, stack, slot),
{
    let top = s_head.len() - 1;
    assert(s_head[top] == s_head.last());
    assert(slot_head[u] == top) by {
        assert(s_head[slot_head[u]].0 == u as usize);
        if slot_head[u] != top {
            assert(s_head[top].0 == u as usize);
        }
    }
    assert forall|x: int, q: int|
        0 <= x < n && 0 <= q < followed(adj, disc, fin, stack, slot, x) implies #[trigger] entry_done(
            adj,
            disc,
            fin,
            pred,
            back,
            check_cycle,
            x,
            q,
        ) by {
        if x == v {
            assert(stack[slot[x]] == (v as usize, 0usize));
        } else if x == u {
            assert(followed(adj, d0, fin, s_head, slot_head, x) == pos);
            assert(stack[slot[x]] == (u as usize, (pos + 1) as usize));
            if q < pos {
                assert(entry_done(adj, d0, fin, p0, back, check_cycle, x, q));
                let w = adj[x]@[q].1 as int;
                assert(w != v);
                assert(disc[w] == d0[w]);
            } else {
                assert(q == pos);
                assert(disc[v] == t as usize);
            }
            assert(pred[x] == p0[x]);
            assert(disc[x] == d0[x]);
        } else {
            if d0[x] != UNSET && fin[x] == UNSET {
                assert(slot_head[x] != top);
                assert(stack[slot[x]] == s_head[slot_head[x]]);
            }
            assert(followed(adj, disc, fin, stack, slot, x) == followed(adj, d0, fin, s_head, slot_head, x));
            assert(entry_done(adj, d0, fin, p0, back, check_cycle, x, q));
            let w = adj[x]@[q].1 as int;
            assert(w != v);
            assert(disc[w] == d0[w]);
            assert(pred[x] == p0[x]);
            assert(disc[x] == d0[x]);
        }
    }
}

/// Following entry `pos` of the top `u` to the reached `v` (recording it
/// when it closes a cycle) keeps every followed entry done.
proof fn lemma_entries_after_back(
    n: int,
    adj: Seq<Vec<(usize, usize)>>,
    disc: Seq<usize>,
    fin: Seq<usize>,
    pred: Seq<Option<usize>>,
    b0: Seq<(usize, usize)>,
    back: Seq<(usize, usize)>,
    check_cycle: bool,
    s_head: Seq<(usize, usize)>,
    stack: Seq<(usize, usize)>,
    slot: Seq<int>,
    u: int,
    pos: int,
    v: int,
)
    requires
        forall|x: int, q: int| 0 <= x < n && 0 <= q < adj[x]@.len() ==> (#[trigger] adj[x]@[q]).1 < n,
        0 <= pos < usize::MAX,
        forall|i: int| 0 <= i < s_head.len() ==> (#[trigger] s_head[i]).0 < n && s_head[i].1 <= adj[s_head[i].0 as int]@.len(),
        n <= MAX_VERTICES,
        disc.len() == n,
        fin.len() == n,
        pred.len() == n,
        adj.len() == n,
        slot.len() == n,
        0 <= u < n,
        0 <= v < n,
        s_head.len() > 0,
        s_head.last() == (u as usize, pos as usize),
        forall|i: int| 0 <= i < s_head.len() - 1 ==> #[trigger] s_head[i].0 != u as usize,
        0 <= pos < adj[u]@.len(),
        adj[u]@[pos].1 == v as usize,
        disc[v] != UNSET,
        disc[u] != UNSET,
        fin[u] == UNSET,
        (check_cycle && fin[v] == UNSET && pred[u] != Some(v as usize)) ==> back == b0.push((v as usize, u as usize)),
        !(check_cycle && fin[v] == UNSET && pred[u] != Some(v as usize)) ==> back == b0,
        stack == s_head.update(s_head.len() - 1, (u as usize, (pos + 1) as usize)),
        slots_ok(disc, fin, s_head, slot),
        entries_ok(n, adj, disc, fin, pred, b0, check_cycle, s_head, slot),
    ensures
        entries_ok(n, adj, disc, fin, pred, back, check_cycle, stack, slot),
{
    let top = s_head.len() - 1;
    assert(s_head[top] == s_head.last());
    assert(slot[u] == top) by {
        assert(s_head[slot[u]].0 == u as usize);
        if slot[u] != top {
            assert(s_head[top].0 == u as usize);
        }
    }
    if back != b0 {
        assert(back[back.len() - 1] == (v as usize, u as usize));
    }
    assert forall|x: int, q: int|
        0 <= x < n && 0 <= q < followed(adj, disc, fin, stack, slot, x) implies #[trigger] entry_done(
            adj,
            disc,
            fin,
            pred,
            back,
            check_cycle,
            x,
            q,
        ) by {
        if x == u {
            assert(followed(adj, disc, fin, s_head, slot, x) == pos);
            assert(stack[slot[x]] == (u as usize, (pos + 1) as usize));
        } else {
            if disc[x] != UNSET && fin[x] == UNSET {
                assert(slot[x] != top);
                assert(stack[slot[x]] == s_head[slot[x]]);
            }
            assert(followed(adj, disc, fin, stack, slot, x) == followed(adj, disc, fin, s_head, slot, x));
        }
        if !(x == u && q == pos) {
            assert(entry_done(adj, disc, fin, pred, b0, check_cycle, x, q));
            let w = adj[x]@[q].1 as int;
            if check_cycle && pred[x] != Some(w as usize) && open_ancestor(disc, fin, x, w) {
                let b = choose|b: int| 0 <= b < b0.len() && #[trigger] b0[b] == (w as usize, x as usize);
                assert(back[b] == b0[b]);
            }
        }
    }
}

/// Finishing the top `u` at `t` keeps every followed entry done.
proof fn lemma_entries_after_finish(
    n: int,
    adj: Seq<Vec<(usize, usize)>>,
    disc: Seq<usize>,
    f0: Seq<usize>,
    fin: Seq<usize>,
    pred: Seq<Option<usize>>,
    back: Seq<(usize, usize)>,
    check_cycle: bool,
    s_head: Seq<(usize, usize)>,
    stack: Seq<(usize, usize)>,
    slot: Seq<int>,
    u: int,
    pos: int,
    t: int,
)
    requires
        forall|x: int, q: int| 0 <= x < n && 0 <= q < adj[x]@.len() ==> (#[trigger] adj[x]@[q]).1 < n,
        0 <= t < UNSET,
        0 <= pos <= usize::MAX,
        forall|i: int| 0 <= i < s_head.len() ==> (#[trigger] s_head[i]).0 < n && s_head[i].1 <= adj[s_head[i].0 as int]@.len(),
        n <= MAX_VERTICES,
        disc.len() == n,
        f0.len() == n,
        adj.len() == n,
        slot.len() == n,
        0 <= u < n,
        s_head.len() > 0,
        s_head.last() == (u as usize, pos as usize),
        forall|i: int| 0 <= i < s_head.len() - 1 ==> #[trigger] s_head[i].0 != u as usize,
        pos == adj[u]@.len(),
        disc[u] != UNSET,
        f0[u] == UNSET,
        t != UNSET,
        forall|x: int| 0 <= x < n && f0[x] != UNSET ==> #[trigger] f0[x] < t,
        forall|x: int| 0 <= x < n && disc[x] != UNSET && f0[x] == UNSET && x != u ==> #[trigger] disc[x] < disc[u],
        fin == f0.update(u, t as usize),
        stack == s_head.drop_last(),
        slots_ok(disc, f0, s_head, slot),
        entries_ok(n, adj, disc, f0, pred, back, check_cycle, s_head, slot),
    ensures
        entries_ok(n, adj, disc, fin, pred, back, check_cycle, stack, slot),
{
    let top = s_head.len() - 1;
    assert(s_head[top] == s_head.last());
    assert(slot[u] == top) by {
        assert(s_head[slot[u]].0 == u as usize);
        if slot[u] != top {
            assert(s_head[top].0 == u as usize);
        }
    }
    assert forall|x: int, q: int|
        0 <= x < n && 0 <= q < followed(adj, disc, fin, stack, slot, x) implies #[trigger] entry_done(
            adj,
            disc,
            fin,
            pred,
            back,
            check_cycle,
            x,
            q,
        ) by {
        if x == u {
            assert(followed(adj, disc, f0, s_head, slot, x) == pos);
        } else {
            if disc[x] != UNSET && f0[x] == UNSET {
                assert(s_head[slot[x]].0 == x as usize);
                assert(slot[x] != top);
                assert(stack[slot[x]] == s_head[slot[x]]);
            }
            assert(followed(adj, disc, fin, stack, slot, x) == followed(adj, disc, f0, s_head, slot, x));
        }
        assert(entry_done(adj, disc, f0, pred, back, check_cycle, x, q));
        let w = adj[x]@[q].1 as int;
        if x != u && w == u && disc[u] < disc[x] {
            assert(f0[x] != UNSET);
        }
    }
}

/// The parent of `u` is `v`.
fn is_parent(p: Option<usize>, v: usize) -> (r: bool)
    ensures
        r == (p == Some(v)),
{
    match p {
        Some(x) => x == v,
        None => false,
    }
}

#[verifier::rlimit(100)]
#[verifier::spinoff_prover]
/// Runs the depth-first traversal over the adjacency `adj`, starting trees
/// from `first` if given, then from the vertices in position order, and
/// records back edges when `check_cycle` holds.
pub fn walk(
    adj: &Vec<Vec<(usize, usize)>>,
    verts: &Vec<Node>,
    edges: &Vec<Edge>,
    generator: EdgeGenerator,
    check_cycle: bool,
    first: Option<usize>,
) -> (r: DfsForestMaps)
    requires
        adjacency_of(adj@, verts@, edges@, generator),
        verts@.len() <= MAX_VERTICES,
        first.is_some() ==> first.unwrap() < verts@.len(),
    ensures
        first.is_some() ==> r.disc@[first.unwrap() as int] == 1 && r.comp@[first.unwrap() as int] == 0
            && r.pred@[first.unwrap() as int].is_none(),
        walk_ends_in(
            rows_of(adj@),
            verts@.len() as int,
            check_cycle,
            first,
            WalkState {
                disc: r.disc@,
                fin: r.fin@,
                pred: r.pred@,
                comp: r.comp@,
                ncomp: r.ncomp as int,
                tree: r.tree@,
                back: r.back@,
                stack: Seq::empty(),
                time: 2 * verts@.len() as int,
                step: verts@.len() as int + 1,
            },
        ),
        ({
            let n = verts@.len() as int;
            &&& stamps_ok(n, r.disc@, r.fin@, 2 * n)
            &&& trees_ok(n, r.disc@, r.fin@, r.pred@, r.comp@, r.ncomp as int)
            &&& forall|c: int| 0 <= c < r.ncomp ==> #[trigger] has_root(r.pred@, r.comp@, c)
            &&& back_ok(n, r.disc@, r.fin@, r.comp@, r.back@)
            &&& tree_ok(n, r.pred@, r.tree@, verts@, edges@, generator)
            &&& forall|v: int| 0 <= v < n ==> #[trigger] r.fin@[v] != UNSET
            &&& !check_cycle ==> r.back@.len() == 0
            &&& forall|u: int, p: int|
                0 <= u < n && 0 <= p < adj@[u]@.len() ==> #[trigger] entry_done(
                    adj@,
                    r.disc@,
                    r.fin@,
                    r.pred@,
                    r.back@,
                    check_cycle,
                    u,
                    p,
                )
            &&& forall|v: int| 0 <= v < n && #[trigger] r.pred@[v].is_some() ==> has_tree_entry(r.tree@, v)
        }),
{
    let n = verts.len();
    let mut disc: Vec<usize> = Vec::new();
    let mut fin: Vec<usize> = Vec::new();
    let mut pred: Vec<Option<usize>> = Vec::new();
    let mut comp: Vec<usize> = Vec::new();
    let mut i: usize = 0;
    while i < n
        invariant
            0 <= i <= n,
            n == verts@.len(),
            disc@.len() == i && fin@.len() == i && pred@.len() == i && comp@.len() == i,
            forall|v: int| 0 <= v < i ==> #[trigger] disc@[v] == UNSET,
            forall|v: int| 0 <= v < i ==> #[trigger] fin@[v] == UNSET,
            forall|v: int| 0 <= v < i ==> #[trigger] pred@[v].is_none(),
            forall|v: int| 0 <= v < i ==> #[trigger] comp@[v] == 0,
        decreases n - i,
    {
        disc.push(UNSET);
        fin.push(UNSET);
        pred.push(None);
        comp.push(0);
        i += 1;
    }
    let mut time: usize = 0;
    let mut ncomp: usize = 0;
    let mut tree: Vec<(usize, usize)> = Vec::new();
    let mut back: Vec<(usize, usize)> = Vec::new();
    let ghost mut roots: Seq<int> = Seq::empty();
    let ghost rows = rows_of(adj@);
    let ghost mut count: nat = 0;
    proof {
        assert(disc@ =~= walk_init(n as int).disc);
        assert(fin@ =~= walk_init(n as int).fin);
        assert(pred@ =~= walk_init(n as int).pred);
        assert(comp@ =~= walk_init(n as int).comp);
        assert(tree@ =~= walk_init(n as int).tree);
        assert(back@ =~= walk_init(n as int).back);
        assert(seen_set(disc@) =~= Set::<int>::empty());
        assert(done_set(fin@) =~= Set::<int>::empty());
    }
    proof {
        assert forall|v: int| #![trigger pred@[v]] #![trigger disc@[v]] #![trigger fin@[v]] 0 <= v < n implies pred@[v].is_none() && disc@[v] == UNSET && fin@[v] == UNSET by {}
    }
    let mut step: usize = 0;
    while step <= n
        invariant
            0 <= step <= n + 1,
            first.is_some() ==> first.unwrap() < n,
            first.is_some() && step >= 1 ==> disc@[first.unwrap() as int] == 1 && comp@[first.unwrap() as int] == 0
                && pred@[first.unwrap() as int].is_none(),
            n == verts@.len(),
            n <= MAX_VERTICES,
            entries_valid(adj@, verts@, edges@, generator),
            stamps_ok(n as int, disc@, fin@, time as int),
            trees_ok(n as int, disc@, fin@, pred@, comp@, ncomp as int),
                    roots_ok(n as int, disc@, pred@, comp@, ncomp as int, roots),
            back_ok(n as int, disc@, fin@, comp@, back@),
            tree_ok(n as int, pred@, tree@, verts@, edges@, generator),
            forall|v: int| 0 <= v < step - 1 ==> #[trigger] disc@[v] != UNSET,
            forall|v: int| 0 <= v < n && #[trigger] disc@[v] != UNSET ==> fin@[v] != UNSET,
            !check_cycle ==> back@.len() == 0,
            ncomp <= step,
            step == 0 ==> time == 0,
            forall|u: int, p: int|
                0 <= u < n && disc@[u] != UNSET && 0 <= p < adj@[u]@.len() ==> #[trigger] entry_done(
                    adj@,
                    disc@,
                    fin@,
                    pred@,
                    back@,
                    check_cycle,
                    u,
                    p,
                ),
            forall|v: int| 0 <= v < n && #[trigger] pred@[v].is_some() ==> has_tree_entry(tree@, v),
            rows == rows_of(adj@),
            walk_run(rows, n as int, check_cycle, first, count) == (WalkState {
                disc: disc@,
                fin: fin@,
                pred: pred@,
                comp: comp@,
                ncomp: ncomp as int,
                tree: tree@,
                back: back@,
                stack: Seq::empty(),
                time: time as int,
                step: step as int,
            }),
        decreases n + 1 - step,
    {
        let ghost cur0 = walk_run(rows, n as int, check_cycle, first, count);
        let root: usize = if step == 0 {
            match first {
                Some(s) => s,
                None => n,
            }
        } else {
            step - 1
        };
        assert(root as int == start_at(n as int, first, step as int));
        if root < n && disc[root] == UNSET {
            proof {
                lemma_room(seen_set(disc@), n as int, root as int);
                lemma_bounded(done_set(fin@), n as int);
            }
            let ghost d0 = disc@;
            time = time + 1;
            disc.set(root, time);
            comp.set(root, ncomp);
            proof {
                assert(seen_set(disc@) =~= seen_set(d0).insert(root as int));
                roots = roots.push(root as int);
            }
            ncomp = ncomp + 1;
            let mut stack: Vec<(usize, usize)> = Vec::new();
            stack.push((root, 0));
            let ghost mut slot: Seq<int> = Seq::new(n as nat, |v: int| 0);
            proof {
                lemma_next_start(rows, n as int, check_cycle, first, cur0);
                count = count + 1;
                assert(stack@ =~= seq![(root, 0usize)]);
                assert(walk_run(rows, n as int, check_cycle, first, count) == walk_next(rows, n as int, check_cycle, first, cur0));

                assert forall|u: int, p: int|
                    0 <= u < n && 0 <= p < followed(adj@, disc@, fin@, stack@, slot, u) implies #[trigger] entry_done(
                        adj@,
                        disc@,
                        fin@,
                        pred@,
                        back@,
                        check_cycle,
                        u,
                        p,
                    ) by {
                    if u == root {
                        assert(stack@[slot[u]] == (root, 0usize));
                    } else {
                        assert(d0[u] != UNSET);
                        assert(entry_done(adj@, d0, fin@, pred@, back@, check_cycle, u, p));
                        let v = adj@[u]@[p].1 as int;
                        assert(d0[v] != UNSET);
                        assert(v != root);
                    }
                }
            }
            while stack.len() > 0
                invariant
                    n == verts@.len(),
                    n <= MAX_VERTICES,
                    0 <= root < n,
                    1 <= ncomp,
                    entries_valid(adj@, verts@, edges@, generator),
                    stamps_ok(n as int, disc@, fin@, time as int),
                    trees_ok(n as int, disc@, fin@, pred@, comp@, ncomp as int),
                    roots_ok(n as int, disc@, pred@, comp@, ncomp as int, roots),
                    back_ok(n as int, disc@, fin@, comp@, back@),
                    tree_ok(n as int, pred@, tree@, verts@, edges@, generator),
                    stack_ok(n as int, disc@, fin@, comp@, ncomp as int, adj@, stack@, slot),
                    forall|v: int| 0 <= v < step - 1 ==> #[trigger] disc@[v] != UNSET,
                    disc@[root as int] != UNSET,
                    step >= 1 ==> root == step - 1,
                    step == 0 ==> first == Some(root),
                    first.is_some() ==> first.unwrap() < n,
                    first.is_some() ==> disc@[first.unwrap() as int] == 1 && comp@[first.unwrap() as int] == 0
                        && pred@[first.unwrap() as int].is_none(),
                    ncomp <= step + 1,
                    forall|v: int| 0 <= v < n && #[trigger] disc@[v] != UNSET && comp@[v] != ncomp - 1 ==> fin@[v] != UNSET,
                    !check_cycle ==> back@.len() == 0,
                    forall|u: int, p: int|
                        0 <= u < n && 0 <= p < followed(adj@, disc@, fin@, stack@, slot, u) ==> #[trigger] entry_done(
                            adj@,
                            disc@,
                            fin@,
                            pred@,
                            back@,
                            check_cycle,
                            u,
                            p,
                        ),
                    forall|v: int| 0 <= v < n && #[trigger] pred@[v].is_some() ==> has_tree_entry(tree@, v),
                    rows == rows_of(adj@),
                    step <= n,
                    walk_run(rows, n as int, check_cycle, first, count) == (WalkState {
                        disc: disc@,
                        fin: fin@,
                        pred: pred@,
                        comp: comp@,
                        ncomp: ncomp as int,
                        tree: tree@,
                        back: back@,
                        stack: stack@,
                        time: time as int,
                        step: step as int + 1,
                    }),
                decreases 2 * n - time, if stack@.len() == 0 {
                    0int
                } else {
                    adj@[stack@.last().0 as int]@.len() - stack@.last().1
                },
            {
                proof {
                    lemma_bounded(seen_set(disc@), n as int);
                    lemma_bounded(done_set(fin@), n as int);
                }
                let ghost cur0 = walk_run(rows, n as int, check_cycle, first, count);
                let top = stack.len() - 1;
                let (u, pos) = stack[top];
                let ghost s_head = stack@;
                let ghost slot_head = slot;
                proof {
                    lemma_top_latest(n as int, disc@, fin@, comp@, ncomp as int, adj@, stack@, slot);
                    assert(stack@[top as int] == stack@.last());
                    assert forall|i: int| 0 <= i < s_head.len() - 1 implies #[trigger] s_head[i].0 != u by {
                        assert(disc@[s_head[i].0 as int] < disc@[s_head[top as int].0 as int]);
                    }
                }
                if pos < adj[u].len() {
                    let (k, v) = adj[u][pos];
                    assert(adj@[u as int]@[pos as int] == (k, v));
                    stack.set(top, (u, pos + 1));
                    if disc[v] == UNSET {
                        proof {
                            lemma_room(seen_set(disc@), n as int, v as int);
                            if first.is_some() {
                                assert(v != first.unwrap());
                            }
                        }
                        let ghost d0 = disc@;
                        let ghost p0 = pred@;
                        let ghost t0 = tree@;
                        time = time + 1;
                        disc.set(v, time);
                        pred.set(v, Some(u));
                        comp.set(v, ncomp - 1);
                        tree.push((v, k));
                        stack.push((v, 0));
                        proof {
                            assert(seen_set(disc@) =~= seen_set(d0).insert(v as int));
                            slot = slot.update(v as int, top + 1);
                            assert(rows[u as int][pos as int] == (k, v));
                            let t_new = WalkState {
                                disc: disc@,
                                fin: fin@,
                                pred: pred@,
                                comp: comp@,
                                ncomp: ncomp as int,
                                tree: tree@,
                                back: back@,
                                stack: stack@,
                                time: time as int,
                                step: step as int + 1,
                            };
                            lemma_next_discover(rows, n as int, check_cycle, first, cur0, t_new, u, pos, k, v);
                            count = count + 1;
                            lemma_entries_after_discover(
                                n as int, adj@, d0, disc@, fin@, p0, pred@, back@, check_cycle, s_head, stack@, slot_head,
                                slot, u as int, pos as int, v as int, time as int,
                            );
                            assert forall|w: int| 0 <= w < n && #[trigger] pred@[w].is_some() implies has_tree_entry(tree@, w) by {
                                if w == v as int {
                                    assert(tree@[tree@.len() - 1].0 == v);
                                } else {
                                    assert(has_tree_entry(t0, w));
                                    let t = choose|t: int| 0 <= t < t0.len() && #[trigger] t0[t].0 == w as usize;
                                    assert(tree@[t] == t0[t]);
                                }
                            }

                        }
                    } else {
                        let ghost b0 = back@;
                        if check_cycle && fin[v] == UNSET && !is_parent(pred[u], v) {
                            back.push((v, u));
                            assert(back@[back@.len() - 1] == (v, u));
                        }
                        proof {
                            assert(rows[u as int][pos as int] == (k, v));
                            let t_new = WalkState {
                                disc: disc@,
                                fin: fin@,
                                pred: pred@,
                                comp: comp@,
                                ncomp: ncomp as int,
                                tree: tree@,
                                back: back@,
                                stack: stack@,
                                time: time as int,
                                step: step as int + 1,
                            };
                            lemma_next_pass(rows, n as int, check_cycle, first, cur0, t_new, u, pos, k, v);
                            count = count + 1;
                            lemma_entries_after_back(
                                n as int, adj@, disc@, fin@, pred@, b0, back@, check_cycle, s_head, stack@, slot,
                                u as int, pos as int, v as int,
                            );
                        }
                    }
                } else {
                    proof {
                        lemma_room(done_set(fin@), n as int, u as int);
                    }
                    let ghost f0 = fin@;
                    time = time + 1;
                    fin.set(u, time);
                    stack.pop();
                    proof {
                        assert(done_set(fin@) =~= done_set(f0).insert(u as int));
                        assert(rows[u as int].len() == adj@[u as int]@.len());
                        let t_new = WalkState {
                            disc: disc@,
                            fin: fin@,
                            pred: pred@,
                            comp: comp@,
                            ncomp: ncomp as int,
                            tree: tree@,
                            back: back@,
                            stack: stack@,
                            time: time as int,
                            step: step as int + 1,
                        };
                        lemma_next_finish(rows, n as int, check_cycle, first, cur0, t_new, u, pos);
                        count = count + 1;
                        lemma_entries_after_finish(
                            n as int, adj@, disc@, f0, fin@, pred@, back@, check_cycle, s_head, stack@, slot,
                            u as int, pos as int, time as int,
                        );
                    }
                }
            }
            proof {
                assert(stack@ =~= Seq::<(usize, usize)>::empty());
                assert forall|v: int| 0 <= v < n && #[trigger] disc@[v] != UNSET implies fin@[v] != UNSET by {
                    if fin@[v] == UNSET && comp@[v] == ncomp - 1 {
                        assert(0 <= slot[v] < stack@.len());
                    }
                }
                assert forall|u: int, p: int|
                    0 <= u < n && disc@[u] != UNSET && 0 <= p < adj@[u]@.len() implies #[trigger] entry_done(
                        adj@,
                        disc@,
                        fin@,
                        pred@,
                        back@,
                        check_cycle,
                        u,
                        p,
                    ) by {
                    assert(fin@[u] != UNSET);
                    assert(followed(adj@, disc@, fin@, stack@, slot, u) == adj@[u]@.len());
                }
            }
        } else {
            proof {
                lemma_next_start(rows, n as int, check_cycle, first, cur0);
                count = count + 1;
                assert(walk_run(rows, n as int, check_cycle, first, count) == walk_next(rows, n as int, check_cycle, first, cur0));
            }
        }
        step += 1;
    }
    proof {
        assert(seen_set(disc@) =~= set_int_range(0, n as int));
        assert(done_set(fin@) =~= set_int_range(0, n as int));
        lemma_int_range(0, n as int);
        assert forall|v: int| 0 <= v < n implies #[trigger] fin@[v] != UNSET by {
            assert(disc@[v] != UNSET);
        }
        assert forall|c: int| 0 <= c < ncomp implies #[trigger] has_root(pred@, comp@, c) by {
            assert(comp@[roots[c]] == c);
        }
        assert(time == 2 * n);
        assert(walk_done(walk_run(rows, n as int, check_cycle, first, count), n as int));
    }
    DfsForestMaps { disc, fin, pred, comp, ncomp, tree, back }
}

/// A back edge found by the traversal: `before` reaches `ancestor`, an open
/// vertex of its tree (itself, for a loop). Positions refer to the
/// traversal's vertex list.
#[derive(Debug, Clone)]
pub struct CycleInfo {
    /// identifier of the ancestor
    pub ancestor: String,
    /// identifier of the vertex the back edge leaves from
    pub before: String,
    /// position of the ancestor
    pub ancestor_index: usize,
    /// position of the vertex the back edge leaves from
    pub before_index: usize,
    /// discovery stamp of the ancestor
    pub ancestor_first_time_visit: usize,
    /// finish stamp of the ancestor
    pub ancestor_last_time_visit: Option<usize>,
    /// discovery stamp of the vertex the back edge leaves from
    pub current_first_time_visit: usize,
    /// finish stamp of the vertex the back edge leaves from
    pub current_final_time_visit: usize,
}

impl CycleInfo {
    /// Identifier of the ancestor.
    pub fn ancestor(&self) -> (r: &str)
        ensures
            r@ == self.ancestor@,
    {
        self.ancestor.as_str()
    }

    /// Identifier of the vertex the back edge leaves from.
    pub fn before(&self) -> (r: &str)
        ensures
            r@ == self.before@,
    {
        self.before.as_str()
    }

    /// Discovery stamp of the ancestor.
    pub fn ancestor_first_time_visit(&self) -> (r: usize)
        ensures
            r == self.ancestor_first_time_visit,
    {
        self.ancestor_first_time_visit
    }

    /// Finish stamp of the ancestor.
    pub fn ancestor_last_time_visit(&self) -> (r: Option<usize>)
        ensures
            r == self.ancestor_last_time_visit,
    {
        self.ancestor_last_time_visit
    }

    /// Finish stamp of the vertex the back edge leaves from.
    pub fn current_final_time_visit(&self) -> (r: usize)
        ensures
            r == self.current_final_time_visit,
    {
        self.current_final_time_visit
    }
}

/// The record of a back edge agrees with the stamps of the traversal.
pub open spec fn cycle_ok(c: CycleInfo, ids: Seq<String>, first: Seq<usize>, last: Seq<usize>, comp: Seq<usize>) -> bool {
    let a = c.ancestor_index as int;
    let w = c.before_index as int;
    &&& 0 <= a < ids.len()
    &&& 0 <= w < ids.len()
    &&& c.ancestor@ == ids[a]@
    &&& c.before@ == ids[w]@
    &&& c.ancestor_first_time_visit == first[a]
    &&& c.ancestor_last_time_visit == Some(last[a])
    &&& c.current_first_time_visit == first[w]
    &&& c.current_final_time_visit == last[w]
    &&& comp[a] == comp[w]
}

/// A back edge closes a cycle: it is a loop, or its ancestor was discovered
/// before and finished after the vertex it leaves from.
pub open spec fn is_back_edge(c: CycleInfo) -> bool {
    c.ancestor_index == c.before_index || (c.ancestor_first_time_visit < c.current_first_time_visit
        && c.current_first_time_visit < c.current_final_time_visit && c.ancestor_last_time_visit.is_some()
        && c.current_final_time_visit < c.ancestor_last_time_visit.unwrap())
}

/// Result of a depth-first traversal. Vertices are listed once each in
/// `vertex_ids`; every other per-vertex sequence is indexed like it.
#[derive(Debug, Clone)]
pub struct DepthFirstResult {
    /// identifier of the result
    pub id: String,
    /// the vertices, in the order trees were started from
    pub vertex_ids: Vec<String>,
    /// discovery stamp of each vertex
    pub first_visit: Vec<usize>,
    /// finish stamp of each vertex
    pub last_visit: Vec<usize>,
    /// position of the parent of each vertex in its tree
    pub parent: Vec<Option<usize>>,
    /// component of each vertex
    pub component_of: Vec<usize>,
    /// number of components (trees)
    pub nb_component: usize,
    /// tree edges, as (position of the child, edge identifier)
    pub tree_edges: Vec<(usize, String)>,
    /// back edges found
    pub cycles: Vec<CycleInfo>,
}

impl DepthFirstResult {
    /// The facts every traversal result satisfies.
    pub open spec fn wf(&self) -> bool {
        let n = self.vertex_ids@.len() as int;
        let first = self.first_visit@;
        let last = self.last_visit@;
        let comp = self.component_of@;
        &&& first.len() == n
        &&& last.len() == n
        &&& self.parent@.len() == n
        &&& comp.len() == n
        &&& forall|i: int, j: int|
            0 <= i < n && 0 <= j < n && i != j ==> #[trigger] self.vertex_ids@[i]@ != #[trigger] self.vertex_ids@[j]@
        &&& forall|i: int| 0 <= i < n ==> 1 <= #[trigger] first[i] && first[i] < last[i] && last[i] <= 2 * n
        &&& forall|i: int, j: int|
            #![trigger first[i], first[j]]
            0 <= i < n && 0 <= j < n && i != j ==> first[i] != first[j]
        &&& forall|i: int, j: int|
            #![trigger first[i], first[j]]
            0 <= i < n && 0 <= j < n ==> paren(first[i] as int, last[i] as int, first[j] as int, last[j] as int)
        &&& forall|i: int, j: int|
            #![trigger last[i], last[j]]
            0 <= i < n && 0 <= j < n && i != j ==> last[i] != last[j]
        &&& forall|i: int, j: int| #![trigger first[i], last[j]] 0 <= i < n && 0 <= j < n ==> first[i] != last[j]
        &&& forall|i: int| 0 <= i < n ==> #[trigger] comp[i] < self.nb_component
        &&& forall|c: int| 0 <= c < self.nb_component ==> #[trigger] has_root(self.parent@, comp, c)
        &&& forall|i: int|
            #![trigger self.parent@[i]]
            0 <= i < n && self.parent@[i].is_some() ==> {
                let p = self.parent@[i].unwrap() as int;
                &&& 0 <= p < n
                &&& comp[p] == comp[i]
                &&& first[p] < first[i]
                &&& last[i] < last[p]
            }
        &&& forall|k: int|
            0 <= k < self.cycles@.len() ==> cycle_ok(#[trigger] self.cycles@[k], self.vertex_ids@, first, last, comp)
        &&& forall|k: int| 0 <= k < self.tree_edges@.len() ==> {
            let (v, _) = #[trigger] self.tree_edges@[k];
            &&& v < n
            &&& self.parent@[v as int].is_some()
        }
    }
}

/// `s` holds the string `x`.
pub open spec fn contains_str(s: Seq<String>, x: Seq<char>) -> bool {
    exists|j: int| 0 <= j < s.len() && (#[trigger] s[j])@ == x
}

impl DepthFirstResult {
    /// Identifier of the result.
    pub fn id(&self) -> (r: &str)
        ensures
            r@ == self.id@,
    {
        self.id.as_str()
    }

    /// Number of components (trees) of the forest.
    pub fn nb_component(&self) -> (r: usize)
        ensures
            r == self.nb_component,
    {
        self.nb_component
    }

    /// Number of components (trees) of the forest.
    pub fn component_count(&self) -> (r: usize)
        ensures
            r == self.nb_component,
    {
        self.nb_component
    }

    /// The back edges found.
    pub fn cycle_info(&self) -> (r: &Vec<CycleInfo>)
        ensures
            r@ == self.cycles@,
    {
        &self.cycles
    }

    /// The vertices of each component: component `c` holds exactly the
    /// vertices whose component is `c`, and none is empty.
    pub fn components(&self) -> (r: Vec<Vec<String>>)
        requires
            self.wf(),
        ensures
            lists_components(*self, r@),
            forall|c: int, j: int|
                0 <= c < self.nb_component && 0 <= j < r@[c]@.len() ==> contains_str(
                    self.vertex_ids@,
                    (#[trigger] r@[c]@[j])@,
                ),
            forall|c: int| 0 <= c < self.nb_component ==> (#[trigger] r@[c])@.len() > 0,
    {
        let n = self.vertex_ids.len();
        let mut r: Vec<Vec<String>> = Vec::new();
        let mut c: usize = 0;
        while c < self.nb_component
            invariant
                self.wf(),
                n == self.vertex_ids@.len(),
                0 <= c <= self.nb_component,
                r@.len() == c,
                forall|c2: int, i: int|
                    0 <= c2 < c && 0 <= i < n ==> (contains_str(#[trigger] r@[c2]@, #[trigger] self.vertex_ids@[i]@)
                        <==> self.component_of@[i] == c2),
                forall|c2: int, j: int|
                    0 <= c2 < c && 0 <= j < r@[c2]@.len() ==> contains_str(self.vertex_ids@, (#[trigger] r@[c2]@[j])@),
                forall|c2: int| 0 <= c2 < c ==> (#[trigger] r@[c2])@.len() > 0,
            decreases self.nb_component - c,
        {
            let mut row: Vec<String> = Vec::new();
            let ghost mut src: Seq<int> = Seq::empty();
            let mut i: usize = 0;
            while i < n
                invariant
                    self.wf(),
                    n == self.vertex_ids@.len(),
                    0 <= c < self.nb_component,
                    0 <= i <= n,
                    src.len() == row@.len(),
                    forall|j: int| #![trigger row@[j]] #![trigger src[j]] 0 <= j < row@.len() ==> 0 <= src[j] < i
                        && row@[j]@ == self.vertex_ids@[src[j]]@ && self.component_of@[src[j]] == c,
                    forall|m: int| 0 <= m < i && self.component_of@[m] == c ==> contains_str(row@, #[trigger] self.vertex_ids@[m]@),
                decreases n - i,
            {
                let ghost old_row = row@;
                if self.component_of[i] == c {
                    row.push(self.vertex_ids[i].clone());
                    proof {
                        src = src.push(i as int);
                        assert forall|j: int| #![trigger row@[j]] #![trigger src[j]] 0 <= j < row@.len() implies 0 <= src[j] < i + 1
                            && row@[j]@ == self.vertex_ids@[src[j]]@ && self.component_of@[src[j]] == c by {
                            if j < old_row.len() {
                                assert(row@[j] == old_row[j]);
                            }
                        }
                        assert(row@[row@.len() - 1]@ == self.vertex_ids@[i as int]@);
                    }
                }
                proof {
                    assert forall|m: int| 0 <= m < i + 1 && self.component_of@[m] == c implies contains_str(row@, #[trigger] self.vertex_ids@[m]@) by {
                        if m < i {
                            let j = choose|j: int| 0 <= j < old_row.len() && (#[trigger] old_row[j])@ == self.vertex_ids@[m]@;
                            assert(row@[j] == old_row[j]);
                        } else {
                            assert(row@[row@.len() - 1]@ == self.vertex_ids@[i as int]@);
                        }
                    }
                }
                i += 1;
            }
            proof {
                assert forall|m: int| 0 <= m < n implies (contains_str(row@, #[trigger] self.vertex_ids@[m]@)
                    <==> self.component_of@[m] == c) by {
                    if contains_str(row@, self.vertex_ids@[m]@) {
                        let j = choose|j: int| 0 <= j < row@.len() && (#[trigger] row@[j])@ == self.vertex_ids@[m]@;
                        let q = src[j];
                        assert(self.vertex_ids@[q]@ == self.vertex_ids@[m]@);
                        if q != m {
                            assert(self.vertex_ids@[q]@ != self.vertex_ids@[m]@);
                        }
                    }
                }
                assert forall|j: int| 0 <= j < row@.len() implies contains_str(self.vertex_ids@, (#[trigger] row@[j])@) by {
                    assert(self.vertex_ids@[src[j]]@ == row@[j]@);
                }
                assert(has_root(self.parent@, self.component_of@, c as int));
                let q = choose|q: int| 0 <= q < self.parent@.len() && #[trigger] self.component_of@[q] == c as int && self.parent@[q].is_none();
                assert(contains_str(row@, self.vertex_ids@[q]@));
            }
            let ghost old_r = r@;
            r.push(row);
            proof {
                assert forall|c2: int, m: int|
                    0 <= c2 < c + 1 && 0 <= m < n implies (contains_str(#[trigger] r@[c2]@, #[trigger] self.vertex_ids@[m]@)
                        <==> self.component_of@[m] == c2) by {
                    if c2 < c {
                        assert(r@[c2] == old_r[c2]);
                    }
                }
                assert forall|c2: int, j: int|
                    0 <= c2 < c + 1 && 0 <= j < r@[c2]@.len() implies contains_str(self.vertex_ids@, (#[trigger] r@[c2]@[j])@) by {
                    if c2 < c {
                        assert(r@[c2] == old_r[c2]);
                    }
                }
                assert forall|c2: int| 0 <= c2 < c + 1 implies (#[trigger] r@[c2])@.len() > 0 by {
                    if c2 < c {
                        assert(r@[c2] == old_r[c2]);
                    }
                }
            }
            c += 1;
        }
        r
    }

    /// The tree edges of each component, by identifier.
    pub fn forest(&self) -> (r: Vec<Vec<String>>)
        requires
            self.wf(),
        ensures
            r@.len() == self.nb_component,
            forall|c: int, j: int|
                0 <= c < self.nb_component && 0 <= j < r@[c]@.len() ==> is_tree_edge_in(*self, (#[trigger] r@[c]@[j])@, c as int),
            forall|k: int|
                0 <= k < self.tree_edges@.len() ==> contains_str(
                    r@[self.component_of@[(#[trigger] self.tree_edges@[k]).0 as int] as int]@,
                    self.tree_edges@[k].1@,
                ),
    {
        let mut r: Vec<Vec<String>> = Vec::new();
        let mut c: usize = 0;
        while c < self.nb_component
            invariant
                self.wf(),
                0 <= c <= self.nb_component,
                r@.len() == c,
                forall|c2: int, j: int|
                    0 <= c2 < c && 0 <= j < r@[c2]@.len() ==> is_tree_edge_in(*self, (#[trigger] r@[c2]@[j])@, c2 as int),
                forall|k: int|
                    0 <= k < self.tree_edges@.len() && self.component_of@[(#[trigger] self.tree_edges@[k]).0 as int] < c
                        ==> contains_str(r@[self.component_of@[self.tree_edges@[k].0 as int] as int]@, self.tree_edges@[k].1@),
            decreases self.nb_component - c,
        {
            let mut row: Vec<String> = Vec::new();
            let mut k: usize = 0;
            while k < self.tree_edges.len()
                invariant
                    self.wf(),
                    0 <= c < self.nb_component,
                    0 <= k <= self.tree_edges@.len(),
                    forall|j: int|
                        0 <= j < row@.len() ==> is_tree_edge_in(*self, (#[trigger] row@[j])@, c as int),
                    forall|k2: int|
                        0 <= k2 < k && self.component_of@[(#[trigger] self.tree_edges@[k2]).0 as int] == c ==> contains_str(
                            row@,
                            self.tree_edges@[k2].1@,
                        ),
                decreases self.tree_edges@.len() - k,
            {
                let (v, ref eid) = self.tree_edges[k];
                assert(self.tree_edges@[k as int].0 == v);
                let ghost old_row = row@;
                if self.component_of[v] == c {
                    row.push(eid.clone());
                    proof {
                        assert forall|j: int|
                            0 <= j < row@.len() implies is_tree_edge_in(*self, (#[trigger] row@[j])@, c as int) by {
                            if j < old_row.len() {
                                assert(row@[j] == old_row[j]);
                            } else {
                                assert(self.tree_edges@[k as int].1@ == row@[j]@);
                                assert(self.component_of@[self.tree_edges@[k as int].0 as int] == c);
                            }
                        }
                    }
                }
                proof {
                    assert forall|k2: int|
                        0 <= k2 < k + 1 && self.component_of@[(#[trigger] self.tree_edges@[k2]).0 as int] == c implies contains_str(
                            row@,
                            self.tree_edges@[k2].1@,
                        ) by {
                        if k2 < k {
                            let j = choose|j: int| 0 <= j < old_row.len() && (#[trigger] old_row[j])@ == self.tree_edges@[k2].1@;
                            assert(row@[j] == old_row[j]);
                        } else {
                            assert(row@[row@.len() - 1]@ == self.tree_edges@[k as int].1@);
                        }
                    }
                }
                k += 1;
            }
            let ghost old_r = r@;
            r.push(row);
            proof {
                assert forall|c2: int, j: int|
                    0 <= c2 < c + 1 && 0 <= j < r@[c2]@.len() implies is_tree_edge_in(*self, (#[trigger] r@[c2]@[j])@, c2 as int) by {
                    if c2 < c {
                        assert(r@[c2] == old_r[c2]);
                    }
                }
                assert forall|k: int|
                    0 <= k < self.tree_edges@.len() && self.component_of@[(#[trigger] self.tree_edges@[k]).0 as int] < c + 1
                        implies contains_str(r@[self.component_of@[self.tree_edges@[k].0 as int] as int]@, self.tree_edges@[k].1@) by {
                    let cc = self.component_of@[self.tree_edges@[k].0 as int] as int;
                    if cc < c {
                        assert(r@[cc] == old_r[cc]);
                    }
                }
            }
            c += 1;
        }
        proof {
            assert forall|k: int| 0 <= k < self.tree_edges@.len() implies contains_str(
                r@[self.component_of@[(#[trigger] self.tree_edges@[k]).0 as int] as int]@,
                self.tree_edges@[k].1@,
            ) by {
                let v = self.tree_edges@[k].0 as int;
                assert(self.component_of@[v] < self.nb_component);
            }
        }
        r
    }

    /// The parent links of each component, as (child, parent) identifiers,
    /// in vertex order.
    pub fn trees(&self) -> (r: Vec<Vec<(String, String)>>)
        requires
            self.wf(),
        ensures
            r@.len() == self.nb_component,
            forall|c: int, j: int|
                0 <= c < self.nb_component && 0 <= j < r@[c]@.len() ==> is_parent_link(*self, #[trigger] r@[c]@[j], c),
            forall|v: int|
                0 <= v < self.vertex_ids@.len() && #[trigger] self.parent@[v].is_some() ==> has_link(
                    r@[self.component_of@[v] as int]@,
                    self.vertex_ids@[v]@,
                    self.vertex_ids@[self.parent@[v].unwrap() as int]@,
                ),
    {
        let n = self.vertex_ids.len();
        let mut r: Vec<Vec<(String, String)>> = Vec::new();
        let mut c: usize = 0;
        while c < self.nb_component
            invariant
                self.wf(),
                n == self.vertex_ids@.len(),
                0 <= c <= self.nb_component,
                r@.len() == c,
                forall|c2: int, j: int|
                    0 <= c2 < c && 0 <= j < r@[c2]@.len() ==> is_parent_link(*self, #[trigger] r@[c2]@[j], c2),
                forall|v: int|
                    0 <= v < n && #[trigger] self.parent@[v].is_some() && self.component_of@[v] < c ==> has_link(
                        r@[self.component_of@[v] as int]@,
                        self.vertex_ids@[v]@,
                        self.vertex_ids@[self.parent@[v].unwrap() as int]@,
                    ),
            decreases self.nb_component - c,
        {
            let mut row: Vec<(String, String)> = Vec::new();
            let mut i: usize = 0;
            while i < n
                invariant
                    self.wf(),
                    n == self.vertex_ids@.len(),
                    0 <= c < self.nb_component,
                    0 <= i <= n,
                    forall|j: int| 0 <= j < row@.len() ==> is_parent_link(*self, #[trigger] row@[j], c as int),
                    forall|m: int|
                        0 <= m < i && #[trigger] self.parent@[m].is_some() && self.component_of@[m] == c ==> has_link(
                            row@,
                            self.vertex_ids@[m]@,
                            self.vertex_ids@[self.parent@[m].unwrap() as int]@,
                        ),
                decreases n - i,
            {
                if self.component_of[i] == c {
                    match self.parent[i] {
                        Some(p) => {
                            assert(self.parent@[i as int].is_some());
                            let ghost old_row = row@;
                            row.push((self.vertex_ids[i].clone(), self.vertex_ids[p].clone()));
                            proof {
                                assert forall|j: int| 0 <= j < row@.len() implies is_parent_link(*self, #[trigger] row@[j], c as int) by {
                                    if j < old_row.len() {
                                        assert(row@[j] == old_row[j]);
                                    } else {
                                        assert(row@[j].0@ == self.vertex_ids@[i as int]@);
                                        assert(row@[j].1@ == self.vertex_ids@[p as int]@);
                                    }
                                }
                                assert forall|m: int|
                                    0 <= m < i + 1 && #[trigger] self.parent@[m].is_some() && self.component_of@[m] == c implies has_link(
                                        row@,
                                        self.vertex_ids@[m]@,
                                        self.vertex_ids@[self.parent@[m].unwrap() as int]@,
                                    ) by {
                                    if m < i {
                                        let j = choose|j: int| 0 <= j < old_row.len() && (#[trigger] old_row[j]).0@ == self.vertex_ids@[m]@
                                            && old_row[j].1@ == self.vertex_ids@[self.parent@[m].unwrap() as int]@;
                                        assert(row@[j] == old_row[j]);
                                    } else {
                                        assert(row@[row@.len() - 1].0@ == self.vertex_ids@[i as int]@);
                                    }
                                }
                            }
                        },
                        None => {},
                    }
                }
                i += 1;
            }
            let ghost old_r = r@;
            r.push(row);
            proof {
                assert forall|c2: int, j: int|
                    0 <= c2 < c + 1 && 0 <= j < r@[c2]@.len() implies is_parent_link(*self, #[trigger] r@[c2]@[j], c2) by {
                    if c2 < c {
                        assert(r@[c2] == old_r[c2]);
                    }
                }
                assert forall|v: int|
                    0 <= v < n && #[trigger] self.parent@[v].is_some() && self.component_of@[v] < c + 1 implies has_link(
                        r@[self.component_of@[v] as int]@,
                        self.vertex_ids@[v]@,
                        self.vertex_ids@[self.parent@[v].unwrap() as int]@,
                    ) by {
                    let cv = self.component_of@[v] as int;
                    if cv < c {
                        assert(r@[cv] == old_r[cv]);
                    }
                }
            }
            c += 1;
        }
        proof {
            assert forall|v: int|
                0 <= v < self.vertex_ids@.len() && #[trigger] self.parent@[v].is_some() implies has_link(
                    r@[self.component_of@[v] as int]@,
                    self.vertex_ids@[v]@,
                    self.vertex_ids@[self.parent@[v].unwrap() as int]@,
                ) by {
                assert(self.component_of@[v] < self.nb_component);
            }
        }
        r
    }

    /// Discovery stamp of each vertex, with its identifier, in vertex order.
    pub fn first_visit_times(&self) -> (r: Vec<(String, usize)>)
        requires
            self.wf(),
        ensures
            r@.len() == self.vertex_ids@.len(),
            forall|i: int| 0 <= i < r@.len() ==> (#[trigger] r@[i]).0@ == self.vertex_ids@[i]@ && r@[i].1 == self.first_visit@[i],
    {
        let mut r: Vec<(String, usize)> = Vec::new();
        let mut i: usize = 0;
        while i < self.vertex_ids.len()
            invariant
                self.wf(),
                0 <= i <= self.vertex_ids@.len(),
                r@.len() == i,
                forall|j: int| 0 <= j < i ==> (#[trigger] r@[j]).0@ == self.vertex_ids@[j]@ && r@[j].1 == self.first_visit@[j],
            decreases self.vertex_ids@.len() - i,
        {
            r.push((self.vertex_ids[i].clone(), self.first_visit[i]));
            i += 1;
        }
        r
    }

    /// Finish stamp of each vertex, with its identifier, in vertex order.
    pub fn last_visit_times(&self) -> (r: Vec<(String, usize)>)
        requires
            self.wf(),
        ensures
            r@.len() == self.vertex_ids@.len(),
            forall|i: int| 0 <= i < r@.len() ==> (#[trigger] r@[i]).0@ == self.vertex_ids@[i]@ && r@[i].1 == self.last_visit@[i],
    {
        let mut r: Vec<(String, usize)> = Vec::new();
        let mut i: usize = 0;
        while i < self.vertex_ids.len()
            invariant
                self.wf(),
                0 <= i <= self.vertex_ids@.len(),
                r@.len() == i,
                forall|j: int| 0 <= j < i ==> (#[trigger] r@[j]).0@ == self.vertex_ids@[j]@ && r@[j].1 == self.last_visit@[j],
            decreases self.vertex_ids@.len() - i,
        {
            r.push((self.vertex_ids[i].clone(), self.last_visit[i]));
            i += 1;
        }
        r
    }

    /// Position of the vertex with identifier `id`, if any.
    pub fn position_of(&self, id: &str) -> (r: Option<usize>)
        ensures
            r.is_some() ==> r.unwrap() < self.vertex_ids@.len() && self.vertex_ids@[r.unwrap() as int]@ == id@,
            r.is_none() ==> !contains_str(self.vertex_ids@, id@),
    {
        let mut i: usize = 0;
        while i < self.vertex_ids.len()
            invariant
                0 <= i <= self.vertex_ids@.len(),
                forall|k: int| 0 <= k < i ==> (#[trigger] self.vertex_ids@[k])@ != id@,
            decreases self.vertex_ids@.len() - i,
        {
            if str_eq(self.vertex_ids[i].as_str(), id) {
                return Some(i);
            }
            i += 1;
        }
        None
    }

    /// Discovery stamp of the vertex with identifier `id`; nothing when no
    /// vertex has it.
    pub fn discover_time_of(&self, id: &str) -> (r: Option<usize>)
        requires
            self.wf(),
        ensures
            r.is_none() <==> !contains_str(self.vertex_ids@, id@),
            r.is_some() ==> exists|i: int| 0 <= i < self.vertex_ids@.len() && (#[trigger] self.vertex_ids@[i])@ == id@
                && self.first_visit@[i] == r.unwrap(),
    {
        match self.position_of(id) {
            Some(i) => Some(self.first_visit[i]),
            None => None,
        }
    }

    /// Finish stamp of the vertex with identifier `id`; nothing when no
    /// vertex has it.
    pub fn finish_time_of(&self, id: &str) -> (r: Option<usize>)
        requires
            self.wf(),
        ensures
            r.is_none() <==> !contains_str(self.vertex_ids@, id@),
            r.is_some() ==> exists|i: int| 0 <= i < self.vertex_ids@.len() && (#[trigger] self.vertex_ids@[i])@ == id@
                && self.last_visit@[i] == r.unwrap(),
    {
        match self.position_of(id) {
            Some(i) => Some(self.last_visit[i]),
            None => None,
        }
    }
}

/// Some tree edge of `res` with identifier `id` leads to a vertex of
/// component `c`.
pub open spec fn is_tree_edge_in(res: DepthFirstResult, id: Seq<char>, c: int) -> bool {
    exists|k: int|
        0 <= k < res.tree_edges@.len() && #[trigger] res.tree_edges@[k].1@ == id && res.component_of@[res.tree_edges@[k].0 as int] == c
}

/// `row` holds the link `(child, parent)`.
pub open spec fn has_link(row: Seq<(String, String)>, child: Seq<char>, parent: Seq<char>) -> bool {
    exists|j: int| 0 <= j < row.len() && (#[trigger] row[j]).0@ == child && row[j].1@ == parent
}

/// `link` is `(child, parent)` for a vertex of component `c` and its parent.
pub open spec fn is_parent_link(res: DepthFirstResult, link: (String, String), c: int) -> bool {
    exists|i: int|
        0 <= i < res.vertex_ids@.len() && (#[trigger] res.vertex_ids@[i])@ == link.0@ && res.component_of@[i] == c
            && res.parent@[i].is_some() && link.1@ == res.vertex_ids@[res.parent@[i].unwrap() as int]@
}

/// The identifiers held by a sequence of strings, in order.
pub open spec fn views_of(s: Seq<String>) -> Seq<Seq<char>> {
    s.map_values(|x: String| x@)
}

/// The adjacency rows of a traversal of `edges` over the vertices `ids`.
pub open spec fn rows_for(ids: Seq<Seq<char>>, edges: Seq<Edge>, generator: EdgeGenerator) -> Seq<Seq<(usize, usize)>> {
    Seq::new(ids.len(), |u: int| adj_row(ids, edges, generator, u, edges.len() as int))
}

/// The position of the start vertex among `ids`, if one is given.
pub open spec fn first_for(ids: Seq<Seq<char>>, start_id: Option<Seq<char>>) -> Option<usize> {
    match start_id {
        Some(x) => Some(pos_of_id(ids, x) as usize),
        None => None,
    }
}

/// The tree edges `named` are the tree edges `tree` with each edge position
/// replaced by the identifier of that edge of `edges`.
pub open spec fn tree_named(tree: Seq<(usize, usize)>, named: Seq<(usize, String)>, edges: Seq<Edge>) -> bool {
    &&& tree.len() == named.len()
    &&& forall|t: int|
        0 <= t < tree.len() ==> (#[trigger] named[t]).0 == tree[t].0 && named[t].1@ == edges[tree[t].1 as int].id@
}

/// The back-edge records `cycles` are the back edges `back`, in order:
/// each record names the ancestor and the vertex the edge leaves from.
pub open spec fn cycles_named(back: Seq<(usize, usize)>, cycles: Seq<CycleInfo>) -> bool {
    &&& back.len() == cycles.len()
    &&& forall|b: int|
        0 <= b < back.len() ==> (#[trigger] cycles[b]).ancestor_index == back[b].0 && cycles[b].before_index
            == back[b].1
}

/// `res` holds what the final traversal state `s` holds: stamps, parents,
/// components, tree edges and back edges.
pub open spec fn result_matches(s: WalkState, res: DepthFirstResult, edges: Seq<Edge>) -> bool {
    &&& s.disc == res.first_visit@
    &&& s.fin == res.last_visit@
    &&& s.pred == res.parent@
    &&& s.comp == res.component_of@
    &&& s.ncomp == res.nb_component as int
    &&& tree_named(s.tree, res.tree_edges@, edges)
    &&& cycles_named(s.back, res.cycles@)
}

/// `res` holds the stamps, parents, components, tree edges and back edges
/// that the moves of the traversal produce, one after the other, on `g`
/// with its vertices in the order of `res`.
pub open spec fn traversal_of(
    g: Graph,
    generator: EdgeGenerator,
    check_cycle: bool,
    start_id: Option<Seq<char>>,
    res: DepthFirstResult,
) -> bool {
    let ids = views_of(res.vertex_ids@);
    let n = ids.len() as int;
    exists|c: nat|
        {
            let s = #[trigger] walk_run(rows_for(ids, g.edges@, generator), n, check_cycle, first_for(ids, start_id), c);
            walk_done(s, n) && result_matches(s, res, g.edges@)
        }
}

/// Two traversals of one graph, with one edge selection, cycle setting and
/// start vertex, give the same stamps, parents, components, tree edges and
/// back edges.
pub proof fn lemma_traversal_determined(
    g: Graph,
    generator: EdgeGenerator,
    check_cycle: bool,
    start_id: Option<Seq<char>>,
    r1: DepthFirstResult,
    r2: DepthFirstResult,
)
    requires
        str_set(r1.vertex_ids@) == g.vertex_ids(),
        strictly_sorted(r1.vertex_ids@),
        traversal_of(g, generator, check_cycle, start_id, r1),
        str_set(r2.vertex_ids@) == g.vertex_ids(),
        strictly_sorted(r2.vertex_ids@),
        traversal_of(g, generator, check_cycle, start_id, r2),
    ensures
        r1.vertex_ids@.len() == r2.vertex_ids@.len(),
        forall|i: int| 0 <= i < r1.vertex_ids@.len() ==> (#[trigger] r1.vertex_ids@[i])@ == r2.vertex_ids@[i]@,
        r1.first_visit@ == r2.first_visit@,
        r1.last_visit@ == r2.last_visit@,
        r1.parent@ == r2.parent@,
        r1.component_of@ == r2.component_of@,
        r1.nb_component == r2.nb_component,
        r1.tree_edges@.len() == r2.tree_edges@.len(),
        forall|t: int|
            0 <= t < r1.tree_edges@.len() ==> (#[trigger] r1.tree_edges@[t]).0 == r2.tree_edges@[t].0
                && r1.tree_edges@[t].1@ == r2.tree_edges@[t].1@,
        r1.cycles@.len() == r2.cycles@.len(),
        forall|b: int|
            0 <= b < r1.cycles@.len() ==> (#[trigger] r1.cycles@[b]).ancestor_index == r2.cycles@[b].ancestor_index
                && r1.cycles@[b].before_index == r2.cycles@[b].before_index,
{
    lemma_sorted_listing_unique(r1.vertex_ids@, r2.vertex_ids@);
    let ids = views_of(r1.vertex_ids@);
    assert(ids =~= views_of(r2.vertex_ids@));
    let rows = rows_for(ids, g.edges@, generator);
    let n = ids.len() as int;
    let first = first_for(ids, start_id);
    let c1 = choose|c: nat|
        {
            let s = #[trigger] walk_run(rows, n, check_cycle, first, c);
            walk_done(s, n) && result_matches(s, r1, g.edges@)
        };
    let c2 = choose|c: nat|
        {
            let s = #[trigger] walk_run(rows, n, check_cycle, first, c);
            walk_done(s, n) && result_matches(s, r2, g.edges@)
        };
    lemma_walk_end_unique(rows, n, check_cycle, first, c1, c2);
    let s = walk_run(rows, n, check_cycle, first, c1);
    assert forall|t: int| 0 <= t < r1.tree_edges@.len() implies (#[trigger] r1.tree_edges@[t]).0 == r2.tree_edges@[t].0
        && r1.tree_edges@[t].1@ == r2.tree_edges@[t].1@ by {
        assert(r1.tree_edges@[t].0 == s.tree[t].0);
        assert(r2.tree_edges@[t].0 == s.tree[t].0);
    }
    assert forall|b: int| 0 <= b < r1.cycles@.len() implies (#[trigger] r1.cycles@[b]).ancestor_index
        == r2.cycles@[b].ancestor_index && r1.cycles@[b].before_index == r2.cycles@[b].before_index by {
        assert(r1.cycles@[b].ancestor_index == s.back[b].0);
        assert(r2.cycles@[b].ancestor_index == s.back[b].0);
    }
}

/// Some tree edge of `res` leads to the vertex at position `v`.
pub open spec fn has_tree_edge(res: DepthFirstResult, v: int) -> bool {
    exists|t: int| 0 <= t < res.tree_edges@.len() && (#[trigger] res.tree_edges@[t]).0 == v as usize
}

/// Some back edge of `res` goes from position `w` to position `a`.
pub open spec fn has_cycle_record(res: DepthFirstResult, a: int, w: int) -> bool {
    exists|c: int|
        0 <= c < res.cycles@.len() && (#[trigger] res.cycles@[c]).ancestor_index == a as usize && res.cycles@[c].before_index
            == w as usize
}

/// An edge from position `u` to position `v` closes a cycle: `v` is not the
/// parent of `u`, and is `u` itself or an ancestor of it.
pub open spec fn closes_cycle(res: DepthFirstResult, u: int, v: int) -> bool {
    &&& res.parent@[u] != Some(v as usize)
    &&& (v == u || (res.first_visit@[v] < res.first_visit@[u] && res.last_visit@[u] < res.last_visit@[v]))
}

/// `comps` lists the components of `res` as `components` returns them.
pub open spec fn lists_components(res: DepthFirstResult, comps: Seq<Vec<String>>) -> bool {
    &&& comps.len() == res.nb_component
    &&& forall|c: int, i: int|
        0 <= c < res.nb_component && 0 <= i < res.vertex_ids@.len() ==> (contains_str(
            #[trigger] comps[c]@,
            #[trigger] res.vertex_ids@[i]@,
        ) <==> res.component_of@[i] == c)
}

/// The component numbers that some vertex carries.
pub open spec fn component_ids(res: DepthFirstResult) -> Set<int> {
    Set::new(|c: int| exists|i: int| 0 <= i < res.vertex_ids@.len() && #[trigger] res.component_of@[i] == c)
}

/// The components of a traversal partition its vertices: every vertex lies
/// in exactly one of them, and the number of components is the number of
/// distinct component numbers.
pub proof fn lemma_components_partition(res: DepthFirstResult, comps: Seq<Vec<String>>)
    requires
        res.wf(),
        lists_components(res, comps),
    ensures
        forall|i: int|
            0 <= i < res.vertex_ids@.len() ==> contains_str(
                comps[res.component_of@[i] as int]@,
                #[trigger] res.vertex_ids@[i]@,
            ),
        forall|i: int, c: int|
            0 <= i < res.vertex_ids@.len() && 0 <= c < comps.len() && contains_str(
                #[trigger] comps[c]@,
                #[trigger] res.vertex_ids@[i]@,
            ) ==> c == res.component_of@[i],
        component_ids(res) == set_int_range(0, res.nb_component as int),
        component_ids(res).len() == res.nb_component,
{
    assert forall|i: int| 0 <= i < res.vertex_ids@.len() implies contains_str(
        comps[res.component_of@[i] as int]@,
        #[trigger] res.vertex_ids@[i]@,
    ) by {
        let c = res.component_of@[i] as int;
        assert(0 <= c < res.nb_component);
        assert(contains_str(comps[c]@, res.vertex_ids@[i]@) <==> res.component_of@[i] == c);
    }
    assert forall|c: int| #[trigger] component_ids(res).contains(c) <==> set_int_range(0, res.nb_component as int).contains(c) by {
        if component_ids(res).contains(c) {
            let i = choose|i: int| 0 <= i < res.vertex_ids@.len() && #[trigger] res.component_of@[i] == c;
        }
        if set_int_range(0, res.nb_component as int).contains(c) {
            assert(has_root(res.parent@, res.component_of@, c));
            let q = choose|q: int| 0 <= q < res.parent@.len() && #[trigger] res.component_of@[q] == c && res.parent@[q].is_none();
        }
    }
    assert(component_ids(res) =~= set_int_range(0, res.nb_component as int));
    lemma_int_range(0, res.nb_component as int);
}

/// Two traversals of one graph list its vertices in the same order: by
/// increasing identifier.
pub proof fn lemma_vertex_order_determined(g: Graph, r1: DepthFirstResult, r2: DepthFirstResult)
    requires
        str_set(r1.vertex_ids@) == g.vertex_ids(),
        strictly_sorted(r1.vertex_ids@),
        str_set(r2.vertex_ids@) == g.vertex_ids(),
        strictly_sorted(r2.vertex_ids@),
    ensures
        r1.vertex_ids@.len() == r2.vertex_ids@.len(),
        forall|i: int| 0 <= i < r1.vertex_ids@.len() ==> (#[trigger] r1.vertex_ids@[i])@ == r2.vertex_ids@[i]@,
{
    lemma_sorted_listing_unique(r1.vertex_ids@, r2.vertex_ids@);
}

/// Two strings are equal, character for character.
pub fn str_eq(a: &str, b: &str) -> (r: bool)
    ensures
        r == (a@ == b@),
{
    let n = a.unicode_len();
    if n != b.unicode_len() {
        return false;
    }
    let mut i: usize = 0;
    while i < n
        invariant
            0 <= i <= n,
            n == a@.len(),
            n == b@.len(),
            forall|k: int| 0 <= k < i ==> a@[k] == b@[k],
        decreases n - i,
    {
        if a.get_char(i) != b.get_char(i) {
            return false;
        }
        i += 1;
    }
    assert(a@ =~= b@);
    true
}

/// The identifiers of the nodes of `verts`, in order.
fn ids_in_order(verts: &Vec<Node>) -> (r: Vec<String>)
    ensures
        r@.len() == verts@.len(),
        forall|i: int| 0 <= i < verts@.len() ==> #[trigger] r@[i]@ == verts@[i].id@,
{
    let mut r: Vec<String> = Vec::new();
    let mut i: usize = 0;
    while i < verts.len()
        invariant
            0 <= i <= verts@.len(),
            r@.len() == i,
            forall|j: int| 0 <= j < i ==> #[trigger] r@[j]@ == verts@[j].id@,
        decreases verts@.len() - i,
    {
        r.push(verts[i].id.clone());
        i += 1;
    }
    r
}

/// Depth-first traversal of `g` that builds a spanning forest.
///
/// Vertices are listed in increasing lexicographic order of identifiers.
/// Trees are started from `start` if given, then from the vertices in that
/// order; from each vertex the edges that `generator` selects are followed
/// in edge order. With `check_cycle`, every followed edge to a still open
/// vertex other than the parent is reported as a back edge. The stamps and
/// tree edges are those that these moves produce one after the other
/// (`traversal_of`), so they depend on the arguments alone. Fails with
/// `VertexNotFound` when `start` is no vertex of `g`.
pub fn depth_first_search(
    g: &Graph,
    generator: EdgeGenerator,
    check_cycle: bool,
    start: Option<&Node>,
) -> (r: Result<DepthFirstResult, GraphError>)
    requires
        g.wf(),
        g.nodes@.len() + 2 * g.edges@.len() <= MAX_VERTICES,
    ensures
        r is Err <==> (start.is_some() && !g.vertex_ids().contains(start.unwrap().id@)),
        r is Err ==> r == Err::<DepthFirstResult, GraphError>(GraphError::VertexNotFound),
        r matches Ok(res) ==> {
            &&& res.wf()
            &&& str_set(res.vertex_ids@) == g.vertex_ids()
            &&& traversal_of(
                *g,
                generator,
                check_cycle,
                match start {
                    Some(s) => Some(s.id@),
                    None => None,
                },
                res,
            )
            &&& start.is_some() ==> forall|i: int|
                0 <= i < res.vertex_ids@.len() && #[trigger] res.vertex_ids@[i]@ == start.unwrap().id@ ==> {
                    &&& res.first_visit@[i] == 1
                    &&& res.parent@[i].is_none()
                    &&& res.component_of@[i] == 0
                }
            &&& strictly_sorted(res.vertex_ids@)
            &&& forall|k: int| 0 <= k < res.cycles@.len() ==> is_back_edge(#[trigger] res.cycles@[k])
            &&& forall|k: int|
                0 <= k < res.cycles@.len() ==> res.parent@[(#[trigger] res.cycles@[k]).before_index as int] != Some(
                    res.cycles@[k].ancestor_index,
                )
            &&& !check_cycle ==> res.cycles@.len() == 0
            &&& forall|k: int| 0 <= k < res.tree_edges@.len() ==> has_edge_id(g.edges@, (#[trigger] res.tree_edges@[k]).1@)
            &&& forall|v: int| 0 <= v < res.vertex_ids@.len() && #[trigger] res.parent@[v].is_some() ==> has_tree_edge(res, v)
            &&& check_cycle ==> forall|u: int, v: int, k: int|
                #![trigger follows(generator, g.edges@[k], res.vertex_ids@[u]@), res.vertex_ids@[v]]
                0 <= u < res.vertex_ids@.len() && 0 <= v < res.vertex_ids@.len() && 0 <= k < g.edges@.len()
                    && follows(generator, g.edges@[k], res.vertex_ids@[u]@) && res.vertex_ids@[v]@ == reached(
                    generator,
                    g.edges@[k],
                    res.vertex_ids@[u]@,
                ) && closes_cycle(res, u, v) ==> has_cycle_record(res, v, u)
        },
{
    let verts = sort_by_id(g.vertices());
    let first: Option<usize> = match start {
        Some(s) => {
            match index_of(&verts, &s.id) {
                Some(i) => Some(i),
                None => {
                    return Err(GraphError::VertexNotFound);
                },
            }
        },
        None => None,
    };
    proof {
        assert forall|k: int| 0 <= k < g.edges@.len() implies ids_of(verts@).contains(#[trigger] g.edges@[k].start_node.id@)
            && ids_of(verts@).contains(g.edges@[k].end_node.id@) by {
            assert(is_endpoint(g.edges@[k], g.edges@[k].start_node.id@));
            assert(is_endpoint(g.edges@[k], g.edges@[k].end_node.id@));
            assert(endpoint_ids_of(g.edges@).contains(g.edges@[k].start_node.id@));
            assert(endpoint_ids_of(g.edges@).contains(g.edges@[k].end_node.id@));
        }
    }
    let adj = build_adjacency(&verts, &g.edges, generator);
    let w = walk(&adj, &verts, &g.edges, generator, check_cycle, first);
    let ids = ids_in_order(&verts);
    let ghost n = verts@.len() as int;
    // tree edges
    let mut tree_edges: Vec<(usize, String)> = Vec::new();
    let mut t: usize = 0;
    while t < w.tree.len()
        invariant
            0 <= t <= w.tree@.len(),
            n == verts@.len(),
            tree_ok(n, w.pred@, w.tree@, verts@, g.edges@, generator),
            tree_edges@.len() == t,
            forall|k: int| 0 <= k < t ==> (#[trigger] tree_edges@[k]).0 == w.tree@[k].0 && tree_edges@[k].1@ == g.edges@[w.tree@[k].1 as int].id@,
            forall|k: int| 0 <= k < t ==> {
                let (v, e) = #[trigger] tree_edges@[k];
                &&& v < n
                &&& w.pred@[v as int].is_some()
                &&& has_edge_id(g.edges@, e@)
            },
        decreases w.tree@.len() - t,
    {
        let (v, k) = w.tree[t];
        assert(w.tree@[t as int] == (v, k));
        tree_edges.push((v, g.edges[k].id.clone()));
        proof {
            assert(g.edges@[k as int].id@ == tree_edges@[t as int].1@);
        }
        t += 1;
    }
    // back edges
    let mut cycles: Vec<CycleInfo> = Vec::new();
    let mut b: usize = 0;
    while b < w.back.len()
        invariant
            0 <= b <= w.back@.len(),
            n == verts@.len(),
            ids@.len() == n,
            stamps_ok(n, w.disc@, w.fin@, 2 * n),
            forall|v: int| 0 <= v < n ==> #[trigger] w.fin@[v] != UNSET,
            back_ok(n, w.disc@, w.fin@, w.comp@, w.back@),
            cycles@.len() == b,
            forall|k: int| 0 <= k < b ==> (#[trigger] cycles@[k]).ancestor_index == w.back@[k].0 && cycles@[k].before_index == w.back@[k].1,
            forall|k: int| 0 <= k < b ==> cycle_ok(#[trigger] cycles@[k], ids@, w.disc@, w.fin@, w.comp@)
                && is_back_edge(cycles@[k]),
        decreases w.back@.len() - b,
    {
        let (a, v) = w.back[b];
        assert(w.back@[b as int] == (a, v));
        assert(w.fin@[a as int] != UNSET && w.fin@[v as int] != UNSET);
        let c = CycleInfo {
            ancestor: ids[a].clone(),
            before: ids[v].clone(),
            ancestor_index: a,
            before_index: v,
            ancestor_first_time_visit: w.disc[a],
            ancestor_last_time_visit: Some(w.fin[a]),
            current_first_time_visit: w.disc[v],
            current_final_time_visit: w.fin[v],
        };
        cycles.push(c);
        b += 1;
    }
    let res = DepthFirstResult {
        id: fresh_id(),
        vertex_ids: ids,
        first_visit: w.disc,
        last_visit: w.fin,
        parent: w.pred,
        component_of: w.comp,
        nb_component: w.ncomp,
        tree_edges,
        cycles,
    };
    proof {
        assert forall|i: int| 0 <= i < n implies #[trigger] res.component_of@[i] < res.nb_component by {
            assert(w.fin@[i] != UNSET);
            assert(w.disc@[i] != UNSET);
        }
        if start.is_some() {
            let f = first.unwrap() as int;
            assert forall|i: int|
                0 <= i < res.vertex_ids@.len() && #[trigger] res.vertex_ids@[i]@ == start.unwrap().id@ implies {
                    &&& res.first_visit@[i] == 1
                    &&& res.parent@[i].is_none()
                    &&& res.component_of@[i] == 0
                } by {
                assert(res.vertex_ids@[i]@ == verts@[i].id@);
                assert(res.vertex_ids@[f]@ == verts@[f].id@);
                if i != f {
                    assert(verts@[i].id@ != verts@[f].id@);
                }
            }
        }
        assert forall|i: int| 0 <= i < n implies 1 <= #[trigger] res.first_visit@[i] && res.first_visit@[i]
            < res.last_visit@[i] && res.last_visit@[i] <= 2 * n by {
            assert(w.fin@[i] != UNSET);
        }
        assert forall|i: int, j: int|
            0 <= i < n && 0 <= j < n && i != j implies #[trigger] res.vertex_ids@[i]@ != #[trigger] res.vertex_ids@[j]@ by {
            assert(res.vertex_ids@[i]@ == verts@[i].id@);
            assert(res.vertex_ids@[j]@ == verts@[j].id@);
        }
        assert forall|i: int|
            #![trigger res.parent@[i]]
            0 <= i < n && res.parent@[i].is_some() implies {
                let p = res.parent@[i].unwrap() as int;
                &&& 0 <= p < n
                &&& res.component_of@[p] == res.component_of@[i]
                &&& res.first_visit@[p] < res.first_visit@[i]
                &&& res.last_visit@[i] < res.last_visit@[p]
            } by {
            let p = res.parent@[i].unwrap() as int;
            assert(w.fin@[p] != UNSET);
        }
        let s = Set::new(|id: Seq<char>| exists|i: int| 0 <= i < res.vertex_ids@.len() && res.vertex_ids@[i]@ == id);
        assert forall|id: Seq<char>| s.contains(id) <==> ids_of(verts@).contains(id) by {
            if s.contains(id) {
                let i = choose|i: int| 0 <= i < res.vertex_ids@.len() && res.vertex_ids@[i]@ == id;
                assert(res.vertex_ids@[i]@ == verts@[i].id@);
            }
            if ids_of(verts@).contains(id) {
                let i = choose|i: int| 0 <= i < verts@.len() && verts@[i].id@ == id;
                assert(res.vertex_ids@[i]@ == verts@[i].id@);
            }
        }
        assert(s =~= g.vertex_ids());
        assert forall|i: int, j: int|
            0 <= i < j < res.vertex_ids@.len() implies lex_lt(#[trigger] res.vertex_ids@[i]@, #[trigger] res.vertex_ids@[j]@) by {
            assert(res.vertex_ids@[i]@ == verts@[i].id@);
            assert(res.vertex_ids@[j]@ == verts@[j].id@);
        }
        assert forall|v: int| 0 <= v < res.vertex_ids@.len() && #[trigger] res.parent@[v].is_some() implies has_tree_edge(res, v) by {
            assert(has_tree_entry(w.tree@, v));
            let t = choose|t: int| 0 <= t < w.tree@.len() && #[trigger] w.tree@[t].0 == v as usize;
            assert(res.tree_edges@[t].0 == w.tree@[t].0);
        }
        let ids = views_of(res.vertex_ids@);
        assert(ids =~= id_seq(verts@));
        assert(rows_for(ids, g.edges@, generator) =~= rows_of(adj@));
        let start_id: Option<Seq<char>> = match start {
            Some(s) => Some(s.id@),
            None => None,
        };
        if start.is_some() {
            let f = first.unwrap() as int;
            let q = pos_of_id(ids, start.unwrap().id@);
            assert(ids[f] == verts@[f].id@);
            assert(0 <= q < ids.len() && ids[q] == start.unwrap().id@);
            assert(ids[q] == verts@[q].id@);
            assert(q == f);
        }
        assert(first_for(ids, start_id) == first);
        assert(tree_named(w.tree@, res.tree_edges@, g.edges@));
        assert(cycles_named(w.back@, res.cycles@));
        let c = choose|c: nat| #[trigger] walk_run(rows_of(adj@), n, check_cycle, first, c) == (WalkState {
            disc: w.disc@,
            fin: w.fin@,
            pred: w.pred@,
            comp: w.comp@,
            ncomp: w.ncomp as int,
            tree: w.tree@,
            back: w.back@,
            stack: Seq::empty(),
            time: 2 * n as int,
            step: n as int + 1,
        });
        assert(result_matches(walk_run(rows_for(ids, g.edges@, generator), ids.len() as int, check_cycle, first_for(ids, start_id), c), res, g.edges@));
        assert(rows_valid(rows_of(adj@), n)) by {
            assert forall|u: int, p: int| 0 <= u < n && 0 <= p < rows_of(adj@)[u].len() implies ((#[trigger] rows_of(adj@)[u][p]).1 as int) < n by {
                assert(rows_of(adj@)[u] == adj@[u]@);
                assert(adj@[u]@[p] == rows_of(adj@)[u][p]);
            }
        }
        lemma_model_ok(rows_of(adj@), n, check_cycle, first, c);
        assert forall|k: int|
            0 <= k < res.cycles@.len() implies res.parent@[(#[trigger] res.cycles@[k]).before_index as int] != Some(
                res.cycles@[k].ancestor_index,
            ) by {
            assert(res.cycles@[k].ancestor_index == w.back@[k].0 && res.cycles@[k].before_index == w.back@[k].1);
            assert(w.back@[k] == walk_run(rows_of(adj@), n, check_cycle, first, c).back[k]);
        }
        if check_cycle {
            assert forall|u: int, v: int, k: int|
                #![trigger follows(generator, g.edges@[k], res.vertex_ids@[u]@), res.vertex_ids@[v]]
                0 <= u < res.vertex_ids@.len() && 0 <= v < res.vertex_ids@.len() && 0 <= k < g.edges@.len()
                    && follows(generator, g.edges@[k], res.vertex_ids@[u]@) && res.vertex_ids@[v]@ == reached(
                    generator,
                    g.edges@[k],
                    res.vertex_ids@[u]@,
                ) && closes_cycle(res, u, v) implies has_cycle_record(res, v, u) by {
                assert(res.vertex_ids@[u]@ == verts@[u].id@);
                assert(res.vertex_ids@[v]@ == verts@[v].id@);
                assert(follows(generator, g.edges@[k], verts@[u].id@));
                assert(has_entry(adj@[u]@, k));
                let p = choose|p: int| 0 <= p < adj@[u]@.len() && (#[trigger] adj@[u]@[p]).0 == k;
                let x = adj@[u]@[p].1 as int;
                assert(verts@[x].id@ == reached(generator, g.edges@[k], verts@[u].id@));
                if x != v {
                    assert(verts@[x].id@ != verts@[v].id@);
                }
                assert(entry_done(adj@, w.disc@, w.fin@, w.pred@, w.back@, check_cycle, u, p));
                assert(w.fin@[u] != UNSET && w.fin@[v] != UNSET);
                assert(open_ancestor(w.disc@, w.fin@, u, v));
                assert(recorded(w.back@, v, u));
                let b = choose|b: int| 0 <= b < w.back@.len() && #[trigger] w.back@[b] == (v as usize, u as usize);
                assert(res.cycles@[b].ancestor_index == w.back@[b].0);
            }
        }
    }
    Ok(res)
}

} // verus!
