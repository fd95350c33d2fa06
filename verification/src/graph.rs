//! The note graph: notes by identity, and an undirected petgraph graph whose
//! nodes are note identities and whose edges are links.
use vstd::prelude::*;
use std::collections::{HashMap, HashSet};
use petgraph::graph::{EdgeIndex, Graph, NodeIndex, UnGraph};
use petgraph::visit::EdgeRef;
use petgraph::Undirected;
use vstd::std_specs::iter::IteratorSpec;
use crate::error::PenumbraError;
use crate::notes::{Link, LinkKind, Note, NoteId, default_weight_bits, hyphenated, note_view};

verus! {

broadcast use vstd::std_specs::hash::group_hash_axioms;

#[verifier::external_type_specification]
#[verifier::external_body]
#[verifier::reject_recursive_types(N)]
#[verifier::reject_recursive_types(E)]
#[verifier::reject_recursive_types(Ty)]
#[verifier::reject_recursive_types(Ix)]
pub struct ExGraph<N, E, Ty, Ix>(Graph<N, E, Ty, Ix>);

#[verifier::external_type_specification]
#[verifier::external_body]
pub struct ExUndirected(Undirected);

/// An edge of the graph as the library sees it: the indices of its two
/// ends, in the order they were given, and its link.
pub type EdgeV = (u32, u32, Link);

/// The node weights of a note graph, by node index.
pub uninterp spec fn graph_nodes(g: UnGraph<NoteId, Link>) -> Seq<NoteId>;

/// The edges of a note graph, by edge index.
pub uninterp spec fn graph_edges(g: UnGraph<NoteId, Link>) -> Seq<EdgeV>;

pub open spec fn touches(e: EdgeV, a: u32) -> bool {
    e.0 == a || e.1 == a
}

/// Whether the edge joins `a` and `b`, in either order.
pub open spec fn joins(e: EdgeV, a: u32, b: u32) -> bool {
    (e.0 == a && e.1 == b) || (e.0 == b && e.1 == a)
}

/// The end of an edge other than `a` (`a` itself for a loop).
pub open spec fn other_end(e: EdgeV, a: u32) -> u32 {
    if e.0 == a {
        e.1
    } else {
        e.0
    }
}

/// `s` with its element `i` replaced by its last element, then shortened
/// by one (`Vec::swap_remove`).
pub open spec fn swap_removed<A>(s: Seq<A>, i: int) -> Seq<A> {
    s.update(i, s.last()).drop_last()
}

/// How many elements of `s` satisfy `p`.
pub open spec fn count_where<A>(s: Seq<A>, p: spec_fn(A) -> bool) -> nat
    decreases s.len(),
{
    if s.len() == 0 {
        0
    } else {
        count_where(s.drop_last(), p) + if p(s.last()) {
            1nat
        } else {
            0nat
        }
    }
}

/// The test for being `x`.
pub open spec fn is_value<A>(x: A) -> spec_fn(A) -> bool {
    |y: A| y == x
}

/// How many times `x` occurs in `s`.
pub open spec fn occurrences<A>(s: Seq<A>, x: A) -> nat {
    count_where(s, is_value(x))
}

/// The edges that join `a` to `x` (loops at `a` when `x` is `a`).
pub open spec fn joining(a: u32, x: u32) -> spec_fn(EdgeV) -> bool {
    |e: EdgeV| touches(e, a) && other_end(e, a) == x
}

/// Whether `k` is the index of an edge at node `a`.
pub open spec fn edge_at(edges: Seq<EdgeV>, a: u32, k: u32) -> bool {
    k < edges.len() && touches(edges[k as int], a)
}

/// Every end index is the index of a node.
pub open spec fn ends_in_range(nodes: Seq<NoteId>, edges: Seq<EdgeV>) -> bool {
    forall|i: int| 0 <= i < edges.len() ==> (#[trigger] edges[i]).0 < nodes.len() && edges[i].1 < nodes.len()
}

/// The index a node takes when node `a` is removed and the last node,
/// `last`, moves into its place, seen from its new index.
pub open spec fn index_before(x: u32, a: u32, last: u32) -> u32 {
    if x == a {
        last
    } else {
        x
    }
}

/// How many times the edge `v` occurs once node `a` and its edges are
/// removed and node `last` takes index `a`.
pub open spec fn count_after_node_removal(edges: Seq<EdgeV>, a: u32, last: u32, v: EdgeV) -> nat {
    if a == last {
        if touches(v, a) {
            0
        } else {
            occurrences(edges, v)
        }
    } else if touches(v, last) {
        0
    } else {
        occurrences(edges, (index_before(v.0, a, last), index_before(v.1, a, last), v.2))
    }
}

/// `UnGraph::new_undirected()`: a graph with no nodes and no edges.
#[verifier::external_body]
fn graph_new() -> (g: UnGraph<NoteId, Link>)
    ensures
        graph_nodes(g) == Seq::<NoteId>::empty(),
        graph_edges(g) == Seq::<EdgeV>::empty(),
{
    UnGraph::new_undirected()
}

/// `Graph::add_node`: the node is appended and its index returned. The
/// crate panics when the index type (`u32`) has no index left.
#[verifier::external_body]
fn graph_add_node(g: &mut UnGraph<NoteId, Link>, id: NoteId) -> (r: u32)
    requires
        graph_nodes(*old(g)).len() < u32::MAX,
    ensures
        r == graph_nodes(*old(g)).len(),
        graph_nodes(*final(g)) == graph_nodes(*old(g)).push(id),
        graph_edges(*final(g)) == graph_edges(*old(g)),
{
    g.add_node(id).index() as u32
}

/// `Graph::add_edge`: the edge is appended and its index returned. The
/// crate panics when an end is not a node or no edge index is left.
#[verifier::external_body]
fn graph_add_edge(g: &mut UnGraph<NoteId, Link>, a: u32, b: u32, link: Link) -> (r: u32)
    requires
        a < graph_nodes(*old(g)).len(),
        b < graph_nodes(*old(g)).len(),
        graph_edges(*old(g)).len() < u32::MAX,
    ensures
        r == graph_edges(*old(g)).len(),
        graph_nodes(*final(g)) == graph_nodes(*old(g)),
        graph_edges(*final(g)) == graph_edges(*old(g)).push((a, b, link)),
{
    g.add_edge(NodeIndex::new(a as usize), NodeIndex::new(b as usize), link).index() as u32
}

/// `Graph::find_edge` on an undirected graph: an edge joining `a` and `b`
/// in either direction, `None` when there is none.
#[verifier::external_body]
fn graph_find_edge(g: &UnGraph<NoteId, Link>, a: u32, b: u32) -> (r: Option<u32>)
    ensures
        match r {
            Some(e) => e < graph_edges(*g).len() && joins(graph_edges(*g)[e as int], a, b),
            None => forall|i: int| 0 <= i < graph_edges(*g).len() ==> !joins(#[trigger] graph_edges(*g)[i], a, b),
        },
{
    match g.find_edge(NodeIndex::new(a as usize), NodeIndex::new(b as usize)) {
        Some(e) => Some(e.index() as u32),
        None => None,
    }
}

/// `Graph::remove_edge`: the last edge takes the removed edge's index;
/// `None` when there is no such edge.
#[verifier::external_body]
fn graph_remove_edge(g: &mut UnGraph<NoteId, Link>, e: u32) -> (r: Option<Link>)
    ensures
        graph_nodes(*final(g)) == graph_nodes(*old(g)),
        e < graph_edges(*old(g)).len() ==> r == Some(graph_edges(*old(g))[e as int].2) && graph_edges(*final(g))
            == swap_removed(graph_edges(*old(g)), e as int),
        e >= graph_edges(*old(g)).len() ==> r is None && graph_edges(*final(g)) == graph_edges(*old(g)),
{
    g.remove_edge(EdgeIndex::new(e as usize))
}

/// `Graph::remove_node`: the node's edges are removed and the last node
/// takes its index, its edges following it. Which index each remaining
/// edge ends up at is left unsaid (the crate removes edges one by one, each
/// time moving the last edge into the gap); what is stated is how many
/// times each edge occurs. `None` when there is no such node.
#[verifier::external_body]
fn graph_remove_node(g: &mut UnGraph<NoteId, Link>, a: u32) -> (r: Option<NoteId>)
    ensures
        a < graph_nodes(*old(g)).len() ==> {
            &&& r == Some(graph_nodes(*old(g))[a as int])
            &&& graph_nodes(*final(g)) == swap_removed(graph_nodes(*old(g)), a as int)
            &&& forall|v: EdgeV| #[trigger] occurrences(graph_edges(*final(g)), v) == count_after_node_removal(
                graph_edges(*old(g)),
                a,
                (graph_nodes(*old(g)).len() - 1) as u32,
                v,
            )
        },
        a >= graph_nodes(*old(g)).len() ==> r is None && graph_nodes(*final(g)) == graph_nodes(*old(g))
            && graph_edges(*final(g)) == graph_edges(*old(g)),
{
    g.remove_node(NodeIndex::new(a as usize))
}

/// `Graph::neighbors` on an undirected graph, each neighbor as its index:
/// the other end of every edge at `a`, a loop listed once. Their order
/// follows the crate's adjacency lists and is left unsaid; how many times
/// each node is listed is stated.
#[verifier::external_body]
fn graph_neighbors(g: &UnGraph<NoteId, Link>, a: u32) -> (r: Vec<u32>)
    ensures
        forall|x: u32| #[trigger] occurrences(r@, x) == count_where(graph_edges(*g), joining(a, x)),
{
    g.neighbors(NodeIndex::new(a as usize)).map(|n| n.index() as u32).collect()
}

/// Indexing the graph by a node index: the node's identity. The crate
/// panics on an index that is not a node.
#[verifier::external_body]
fn graph_node(g: &UnGraph<NoteId, Link>, n: u32) -> (r: NoteId)
    requires
        n < graph_nodes(*g).len(),
    ensures
        r == graph_nodes(*g)[n as int],
{
    g[NodeIndex::new(n as usize)]
}

/// Indexing the graph by an edge index: the edge's link. The crate panics
/// on an index that is not an edge.
#[verifier::external_body]
fn graph_edge_link(g: &UnGraph<NoteId, Link>, e: usize) -> (r: &Link)
    requires
        e < graph_edges(*g).len(),
    ensures
        *r == graph_edges(*g)[e as int].2,
{
    &g[EdgeIndex::new(e)]
}

/// `Graph::edge_endpoints` on an edge of the graph: its two end indices.
#[verifier::external_body]
fn graph_edge_ends(g: &UnGraph<NoteId, Link>, e: usize) -> (r: (u32, u32))
    requires
        e < graph_edges(*g).len(),
    ensures
        r.0 == graph_edges(*g)[e as int].0,
        r.1 == graph_edges(*g)[e as int].1,
{
    let (a, b) = g.edge_endpoints(EdgeIndex::new(e)).unwrap();
    (a.index() as u32, b.index() as u32)
}

/// `Graph::edge_count`.
#[verifier::external_body]
fn graph_edge_count(g: &UnGraph<NoteId, Link>) -> (r: usize)
    ensures
        r == graph_edges(*g).len(),
{
    g.edge_count()
}

/// `Graph::node_count`.
#[verifier::external_body]
fn graph_node_count(g: &UnGraph<NoteId, Link>) -> (r: usize)
    ensures
        r == graph_nodes(*g).len(),
{
    g.node_count()
}

/// `Graph::edges` on an undirected graph, each edge as its index: every
/// edge at `a` once, in an order left unsaid.
#[verifier::external_body]
fn graph_incident_edges(g: &UnGraph<NoteId, Link>, a: u32) -> (r: Vec<u32>)
    ensures
        r@.no_duplicates(),
        forall|k: u32| #[trigger] r@.contains(k) <==> edge_at(graph_edges(*g), a, k),
{
    g.edges(NodeIndex::new(a as usize)).map(|edge| edge.id().index() as u32).collect()
}



// ---------------------------------------------------------------------------
// Counting.

proof fn lemma_count_concat<A>(s1: Seq<A>, s2: Seq<A>, p: spec_fn(A) -> bool)
    ensures
        count_where(s1 + s2, p) == count_where(s1, p) + count_where(s2, p),
    decreases s2.len(),
{
    if s2.len() == 0 {
        assert(s1 + s2 =~= s1);
    } else {
        assert((s1 + s2).drop_last() =~= s1 + s2.drop_last());
        assert((s1 + s2).last() == s2.last());
        lemma_count_concat(s1, s2.drop_last(), p);
    }
}

proof fn lemma_count_single<A>(x: A, p: spec_fn(A) -> bool)
    ensures
        count_where(seq![x], p) == if p(x) {
            1nat
        } else {
            0nat
        },
{
    assert(seq![x].drop_last() =~= Seq::<A>::empty());
    assert(count_where(Seq::<A>::empty(), p) == 0);
    assert(seq![x].last() == x);
}

/// Removing element `i` by a swap with the last one takes it out of the count.
proof fn lemma_count_swap_removed<A>(s: Seq<A>, i: int, p: spec_fn(A) -> bool)
    requires
        0 <= i < s.len(),
    ensures
        count_where(swap_removed(s, i), p) + (if p(s[i]) {
            1nat
        } else {
            0nat
        }) == count_where(s, p),
{
    let n = s.len() as int;
    if i == n - 1 {
        assert(s.update(i, s.last()) =~= s);
    } else {
        let t = s.update(i, s.last());
        assert(s =~= s.take(i) + seq![s[i]] + s.subrange(i + 1, n));
        assert(t =~= s.take(i) + seq![s.last()] + s.subrange(i + 1, n));
        lemma_count_concat(s.take(i) + seq![s[i]], s.subrange(i + 1, n), p);
        lemma_count_concat(s.take(i), seq![s[i]], p);
        lemma_count_concat(s.take(i) + seq![s.last()], s.subrange(i + 1, n), p);
        lemma_count_concat(s.take(i), seq![s.last()], p);
        lemma_count_single(s[i], p);
        lemma_count_single(s.last(), p);
        assert(t.last() == s.last());
    }
}

proof fn lemma_count_positive<A>(s: Seq<A>, p: spec_fn(A) -> bool, i: int)
    requires
        0 <= i < s.len(),
        p(s[i]),
    ensures
        count_where(s, p) >= 1,
    decreases s.len(),
{
    if i < s.len() - 1 {
        lemma_count_positive(s.drop_last(), p, i);
    }
}

proof fn lemma_count_witness<A>(s: Seq<A>, p: spec_fn(A) -> bool) -> (i: int)
    requires
        count_where(s, p) >= 1,
    ensures
        0 <= i < s.len(),
        p(s[i]),
    decreases s.len(),
{
    if p(s.last()) {
        s.len() - 1
    } else {
        lemma_count_witness(s.drop_last(), p)
    }
}

/// The count of `x` in a list loses one when its first element is dropped
/// and that element is `x`.
proof fn lemma_occurrences_step<A>(l: Seq<A>, k: int, x: A)
    requires
        0 <= k < l.len(),
    ensures
        occurrences(l.subrange(k, l.len() as int), x) == occurrences(l.subrange(k + 1, l.len() as int), x) + if l[k]
            == x {
            1nat
        } else {
            0nat
        },
{
    let n = l.len() as int;
    assert(l.subrange(k, n) =~= seq![l[k]] + l.subrange(k + 1, n));
    lemma_count_concat(seq![l[k]], l.subrange(k + 1, n), is_value(x));
    lemma_count_single(l[k], is_value(x));
}

// ---------------------------------------------------------------------------
// The store.

/// The whole of a store as plain data: its notes and its links.
pub struct GraphSnapshot {
    pub notes: Vec<Note>,
    pub links: Vec<Link>,
}

/// The notes of a vault and the links between them: the notes by identity,
/// a graph with a node per note, and the index of each note's node.
pub struct GraphStore {
    state: GraphState,
}

/// The notes by identity, the graph, and the node index of each note.
struct GraphState {
    notes: HashMap<u128, Note>,
    graph: UnGraph<NoteId, Link>,
    node_index: HashMap<u128, u32>,
}

/// The abstract value of a store: notes by identity value, the graph's
/// nodes and edges by index, and the node index recorded for each note.
pub struct GraphV {
    pub notes: Map<u128, Note>,
    pub nodes: Seq<NoteId>,
    pub edges: Seq<EdgeV>,
    pub index: Map<u128, u32>,
}

impl GraphStore {
    /// Every store records a node index for exactly its notes, and its
    /// edges join nodes it has.
    #[verifier::type_invariant]
    pub(crate) open spec fn well_formed(self) -> bool {
        graph_wf(self@)
    }
}

impl View for GraphStore {
    type V = GraphV;

    closed spec fn view(&self) -> GraphV {
        self.state@
    }
}

impl View for GraphState {
    type V = GraphV;

    closed spec fn view(&self) -> GraphV {
        GraphV {
            notes: self.notes@,
            nodes: graph_nodes(self.graph),
            edges: graph_edges(self.graph),
            index: self.node_index@,
        }
    }
}

/// What every store satisfies: a recorded node index for exactly the
/// stored notes, node indices that fit in `u32`, and edges between nodes
/// only.
pub open spec fn graph_wf(v: GraphV) -> bool {
    &&& v.notes.dom() == v.index.dom()
    &&& v.nodes.len() <= u32::MAX
    &&& ends_in_range(v.nodes, v.edges)
}

/// The recorded indices are exact: each note's index is that of the node
/// carrying its identity, and each node carries the identity of a note
/// indexed to it. Adding notes and linking keep this; removing a note keeps
/// it only when the note's node is the last one, since the graph then moves
/// its last node into the gap and the recorded index of the moved note is
/// not updated.
pub open spec fn graph_consistent(v: GraphV) -> bool {
    &&& forall|id: u128| #[trigger] v.index.contains_key(id) ==> v.index[id] < v.nodes.len()
        && v.nodes[v.index[id] as int].0 == id
    &&& forall|i: int| 0 <= i < v.nodes.len() ==> v.index.contains_key((#[trigger] v.nodes[i]).0)
        && v.index[v.nodes[i].0] == i
}

/// Every recorded index is the index of a node.
pub open spec fn indices_in_range(v: GraphV) -> bool {
    forall|id: u128| #[trigger] v.index.contains_key(id) ==> v.index[id] < v.nodes.len()
}

/// Whether some edge joins the nodes `a` and `b`.
pub open spec fn linked(edges: Seq<EdgeV>, a: u32, b: u32) -> bool {
    exists|i: int| 0 <= i < edges.len() && joins(#[trigger] edges[i], a, b)
}

pub open spec fn not_found_message(id: NoteId) -> Seq<char> {
    hyphenated(id.0 as nat)
}

pub open spec fn already_linked_message(a: NoteId, b: NoteId) -> Seq<char> {
    "link already exists between "@ + hyphenated(a.0 as nat) + " and "@ + hyphenated(b.0 as nat)
}

pub open spec fn not_linked_message(a: NoteId, b: NoteId) -> Seq<char> {
    "no link between "@ + hyphenated(a.0 as nat) + " and "@ + hyphenated(b.0 as nat)
}


/// The recorded indices agree with the graph around the note `id`: every
/// node linked to the note's node whose identity has a recorded index is
/// recorded at its own index. Consistent stores satisfy this for every note.
pub open spec fn neighbors_indexed(v: GraphV, id: u128) -> bool {
    forall|i: int| 0 <= i < v.edges.len() && touches(#[trigger] v.edges[i], v.index[id]) ==> {
        let o = other_end(v.edges[i], v.index[id]);
        v.index.contains_key(v.nodes[o as int].0) ==> v.index[v.nodes[o as int].0] == o
    }
}

/// What removing the note `id` leaves, given the store before.
pub open spec fn removed_note_v(v: GraphV, w: GraphV, id: u128) -> bool {
    let idx = v.index[id];
    &&& w.notes == v.notes.remove(id)
    &&& w.index == v.index.remove(id)
    &&& if idx < v.nodes.len() {
        &&& w.nodes == swap_removed(v.nodes, idx as int)
        &&& forall|e: EdgeV| #[trigger] occurrences(w.edges, e) == count_after_node_removal(
            v.edges,
            idx,
            (v.nodes.len() - 1) as u32,
            e,
        )
    } else {
        w.nodes == v.nodes && w.edges == v.edges
    }
}


/// Whether `p` is a walk: each node after the first joined to the one
/// before it by an edge.
pub open spec fn is_walk(edges: Seq<EdgeV>, p: Seq<u32>) -> bool {
    forall|i: int| 0 <= i < p.len() - 1 ==> linked(edges, #[trigger] p[i], p[i + 1])
}

/// Whether a walk leads from node `a` to node `b`.
pub open spec fn reachable(edges: Seq<EdgeV>, a: u32, b: u32) -> bool {
    exists|p: Seq<u32>| p.len() >= 1 && p[0] == a && p.last() == b && #[trigger] is_walk(edges, p)
}

/// The identities carried by the nodes that can be reached from node `a`.
pub open spec fn component_ids(v: GraphV, a: u32) -> Set<u128> {
    Set::new(|x: u128| exists|j: u32| j < v.nodes.len() && reachable(v.edges, a, j) && (#[trigger] v.nodes[j as int]).0 == x)
}

/// No two nodes carry the same identity.
pub open spec fn distinct_ids(nodes: Seq<NoteId>) -> bool {
    forall|i: int, j: int| 0 <= i < nodes.len() && 0 <= j < nodes.len() && i != j ==> (#[trigger] nodes[i]).0 != (#[trigger] nodes[j]).0
}

/// The notes stored under the identities of the listed nodes, in order,
/// nodes whose identity has no note skipped.
pub open spec fn notes_of_nodes(v: GraphV, l: Seq<u32>) -> Seq<Note>
    decreases l.len(),
{
    if l.len() == 0 {
        Seq::empty()
    } else {
        let rest = notes_of_nodes(v, l.drop_last());
        let id = v.nodes[l.last() as int].0;
        if v.notes.contains_key(id) {
            rest.push(v.notes[id])
        } else {
            rest
        }
    }
}

/// A listing of the neighbors of node `a`: each node as many times as
/// edges join it to `a`.
pub open spec fn lists_neighbors(edges: Seq<EdgeV>, a: u32, l: Seq<u32>) -> bool {
    forall|x: u32| #[trigger] occurrences(l, x) == count_where(edges, joining(a, x))
}

/// A listing of the edges at node `a`: each edge index once.
pub open spec fn lists_edges_at(edges: Seq<EdgeV>, a: u32, l: Seq<u32>) -> bool {
    &&& l.no_duplicates()
    &&& forall|k: u32| #[trigger] l.contains(k) <==> edge_at(edges, a, k)
}

proof fn lemma_linked_counted(edges: Seq<EdgeV>, a: u32, b: u32)
    ensures
        linked(edges, a, b) <==> count_where(edges, joining(a, b)) >= 1,
{
    if linked(edges, a, b) {
        let i = choose|i: int| 0 <= i < edges.len() && joins(#[trigger] edges[i], a, b);
        assert(joining(a, b)(edges[i]));
        lemma_count_positive(edges, joining(a, b), i);
    }
    if count_where(edges, joining(a, b)) >= 1 {
        let i = lemma_count_witness(edges, joining(a, b));
        assert(joins(edges[i], a, b));
    }
}

proof fn lemma_reach_self(edges: Seq<EdgeV>, a: u32)
    ensures
        reachable(edges, a, a),
{
    let p = seq![a];
    assert(is_walk(edges, p));
}

proof fn lemma_reach_step(edges: Seq<EdgeV>, a: u32, b: u32, c: u32)
    requires
        reachable(edges, a, b),
        linked(edges, b, c),
    ensures
        reachable(edges, a, c),
{
    let p = choose|p: Seq<u32>| p.len() >= 1 && p[0] == a && p.last() == b && #[trigger] is_walk(edges, p);
    let q = p.push(c);
    assert forall|i: int| 0 <= i < q.len() - 1 implies linked(edges, #[trigger] q[i], q[i + 1]) by {
        if i < p.len() - 1 {
            assert(q[i] == p[i] && q[i + 1] == p[i + 1]);
        }
    }
    assert(is_walk(edges, q));
}


/// In a set of nodes closed under edges, every node reachable from a
/// member is a member.
proof fn lemma_closed_reach(v: GraphV, xs: Set<u32>, a: u32, b: u32)
    requires
        ends_in_range(v.nodes, v.edges),
        xs.contains(a),
        forall|j: u32, k: u32| #![trigger linked(v.edges, j, k)] xs.contains(j) && linked(v.edges, j, k) ==> xs.contains(k),
        reachable(v.edges, a, b),
    ensures
        xs.contains(b),
{
    let p = choose|p: Seq<u32>| p.len() >= 1 && p[0] == a && p.last() == b && #[trigger] is_walk(v.edges, p);
    lemma_walk_inside(v, xs, p, p.len() - 1);
}

proof fn lemma_walk_inside(v: GraphV, xs: Set<u32>, p: Seq<u32>, i: int)
    requires
        p.len() >= 1,
        0 <= i < p.len(),
        xs.contains(p[0]),
        is_walk(v.edges, p),
        forall|j: u32, k: u32| #![trigger linked(v.edges, j, k)] xs.contains(j) && linked(v.edges, j, k) ==> xs.contains(k),
    ensures
        xs.contains(p[i]),
    decreases i,
{
    if i > 0 {
        lemma_walk_inside(v, xs, p, i - 1);
        assert(linked(v.edges, p[i - 1], p[i]));
    }
}

proof fn lemma_walked_bound(walked: Set<u32>, n: nat)
    requires
        forall|j: u32| #[trigger] walked.contains(j) ==> j < n,
        walked.finite(),
    ensures
        walked.len() <= n,
{
    let f = |j: u32| j as int;
    let ints = walked.map(f);
    assert(vstd::relations::injective_on(f, walked));
    vstd::set_lib::lemma_map_size(walked, ints, f);
    vstd::set_lib::lemma_int_range(0, n as int);
    assert(ints.subset_of(vstd::set_lib::set_int_range(0, n as int)));
    vstd::set_lib::lemma_len_subset(ints, vstd::set_lib::set_int_range(0, n as int));
}


/// The store after adding a note, as `GraphStore::add_note` leaves it.
pub open spec fn add_note_v(v: GraphV, note: Note) -> GraphV {
    if v.notes.contains_key(note.id.0) {
        v
    } else {
        GraphV {
            notes: v.notes.insert(note.id.0, note),
            nodes: v.nodes.push(note.id),
            edges: v.edges,
            index: v.index.insert(note.id.0, v.nodes.len() as u32),
        }
    }
}

/// The store after adding the notes in order.
pub open spec fn with_notes(v: GraphV, ns: Seq<Note>) -> GraphV
    decreases ns.len(),
{
    if ns.len() == 0 {
        v
    } else {
        add_note_v(with_notes(v, ns.drop_last()), ns.last())
    }
}

pub open spec fn empty_graph_v() -> GraphV {
    GraphV {
        notes: Map::empty(),
        nodes: Seq::empty(),
        edges: Seq::empty(),
        index: Map::empty(),
    }
}

/// The edge a link becomes: between the recorded nodes of its ends.
pub open spec fn link_edge(v: GraphV, l: Link) -> EdgeV {
    (v.index[l.source.0], v.index[l.target.0], l)
}

/// Whether some note in `ns` has identity `id`.
pub open spec fn has_note_id(ns: Seq<Note>, id: u128) -> bool {
    exists|i: int| 0 <= i < ns.len() && (#[trigger] ns[i]).id.0 == id
}

proof fn lemma_add_note_v(v: GraphV, note: Note)
    requires
        graph_wf(v),
        !v.notes.contains_key(note.id.0) ==> v.nodes.len() < u32::MAX,
    ensures
        graph_wf(add_note_v(v, note)),
        graph_consistent(v) ==> graph_consistent(add_note_v(v, note)),
{
    let w = add_note_v(v, note);
    let id = note.id;
    if !v.notes.contains_key(id.0) {
        assert(w.notes.dom() =~= w.index.dom());
        assert forall|i: int| 0 <= i < w.edges.len() implies (#[trigger] w.edges[i]).0 < w.nodes.len()
            && w.edges[i].1 < w.nodes.len() by {
            assert(w.edges[i] == v.edges[i]);
        }
        if graph_consistent(v) {
            assert forall|k: u128| #[trigger] w.index.contains_key(k) implies w.index[k] < w.nodes.len()
                && w.nodes[w.index[k] as int].0 == k by {
                if k != id.0 {
                    assert(v.index.contains_key(k));
                }
            }
            assert forall|i: int| 0 <= i < w.nodes.len() implies w.index.contains_key((#[trigger] w.nodes[i]).0)
                && w.index[w.nodes[i].0] == i by {
                if i < v.nodes.len() {
                    assert(w.nodes[i] == v.nodes[i]);
                    assert(v.index.contains_key(v.nodes[i].0));
                    assert(v.nodes[i].0 != id.0);
                }
            }
        }
    }
}

proof fn lemma_with_notes(ns: Seq<Note>)
    requires
        ns.len() < u32::MAX,
    ensures
        graph_wf(with_notes(empty_graph_v(), ns)),
        graph_consistent(with_notes(empty_graph_v(), ns)),
        with_notes(empty_graph_v(), ns).nodes.len() <= ns.len(),
        with_notes(empty_graph_v(), ns).edges == Seq::<EdgeV>::empty(),
        forall|id: u128| #[trigger] with_notes(empty_graph_v(), ns).index.contains_key(id) <==> has_note_id(ns, id),
    decreases ns.len(),
{
    let e = empty_graph_v();
    if ns.len() == 0 {
        assert(e.notes.dom() =~= e.index.dom());
    } else {
        lemma_with_notes(ns.drop_last());
        let g = with_notes(e, ns.drop_last());
        lemma_add_note_v(g, ns.last());
        assert forall|id: u128| #[trigger] with_notes(e, ns).index.contains_key(id) <==> has_note_id(ns, id) by {
            if has_note_id(ns, id) {
                let i = choose|i: int| 0 <= i < ns.len() && (#[trigger] ns[i]).id.0 == id;
                if i < ns.len() - 1 {
                    assert(ns.drop_last()[i] == ns[i]);
                    assert(has_note_id(ns.drop_last(), id));
                }
            }
            if has_note_id(ns.drop_last(), id) {
                let i = choose|i: int| 0 <= i < ns.drop_last().len() && (#[trigger] ns.drop_last()[i]).id.0 == id;
                assert(ns[i] == ns.drop_last()[i]);
            }
        }
    }
}


/// Why linking two notes fails.
pub enum LinkFailure {
    SourceMissing,
    TargetMissing,
    AlreadyLinked,
}

/// What linking two notes gives: the new link and the store after it, or
/// why it fails.
pub open spec fn link_outcome(v: GraphV, source: NoteId, target: NoteId, kind: LinkKind) -> Result<(Link, GraphV), LinkFailure> {
    if !v.notes.contains_key(source.0) {
        Err(LinkFailure::SourceMissing)
    } else if !v.notes.contains_key(target.0) {
        Err(LinkFailure::TargetMissing)
    } else if linked(v.edges, v.index[source.0], v.index[target.0]) {
        Err(LinkFailure::AlreadyLinked)
    } else {
        let link = Link { source, target, kind, weight_bits: default_weight_bits(kind) };
        Ok((link, GraphV { edges: v.edges.push((v.index[source.0], v.index[target.0], link)), ..v }))
    }
}

/// Whether `r` is the error reporting the failure.
pub open spec fn failure_reported<T>(f: LinkFailure, source: NoteId, target: NoteId, r: Result<T, PenumbraError>) -> bool {
    match f {
        LinkFailure::SourceMissing => r matches Err(PenumbraError::NoteNotFound(m)) && m@ == not_found_message(source),
        LinkFailure::TargetMissing => r matches Err(PenumbraError::NoteNotFound(m)) && m@ == not_found_message(target),
        LinkFailure::AlreadyLinked => r matches Err(PenumbraError::Graph(m)) && m@ == already_linked_message(source, target),
    }
}

/// The operations that change a store, on its bare state. A `GraphStore`
/// takes its state out, applies one of them, and puts the result back
/// under its invariant.
impl GraphState {
    fn add_note(&mut self, note: Note) -> (r: bool)
        requires
            graph_wf(old(self)@),
            !old(self)@.notes.contains_key(note.id.0) ==> old(self)@.nodes.len() < u32::MAX,
        ensures
            graph_wf(final(self)@),
            r == !old(self)@.notes.contains_key(note.id.0),
            final(self)@ == add_note_v(old(self)@, note),
            graph_consistent(old(self)@) ==> graph_consistent(final(self)@),
    {
        let id = note.id;
        if self.notes.contains_key(&id.0) {
            return false;
        }
        let ghost before = self@;
        let idx = graph_add_node(&mut self.graph, id);
        self.node_index.insert(id.0, idx);
        self.notes.insert(id.0, note);
        proof {
            lemma_add_note_v(before, note);
            assert(self@ == add_note_v(before, note));
        }
        true
    }

    fn remove_note(&mut self, id: &NoteId) -> (r: Option<Note>)
        requires
            graph_wf(old(self)@),
            old(self)@.notes.contains_key(id.0) ==> neighbors_indexed(old(self)@, id.0),
        ensures
            graph_wf(final(self)@),
            match r {
                None => !old(self)@.notes.contains_key(id.0) && final(self)@ == old(self)@,
                Some(n) => old(self)@.notes.contains_key(id.0) && n == old(self)@.notes[id.0]
                    && removed_note_v(old(self)@, final(self)@, id.0),
            },
            graph_consistent(old(self)@) && old(self)@.notes.contains_key(id.0) && old(self)@.index[id.0]
                == old(self)@.nodes.len() - 1 ==> graph_consistent(final(self)@),
    {
        let ghost v0 = self@;
        let note = match self.notes.remove(&id.0) {
            Some(n) => n,
            None => {
                assert(self.notes@ =~= v0.notes);
                return None;
            },
        };
        let idx = *self.node_index.get(&id.0).unwrap();
        let neighbors = graph_neighbors(&self.graph, idx);
        let ghost l = neighbors@;
        let ghost e0 = v0.edges;
        // The identities of the neighbors, read before any edge goes.
        let mut neighbor_ids: Vec<NoteId> = Vec::new();
        let mut j: usize = 0;
        while j < neighbors.len()
            invariant
                j <= neighbors.len(),
                l == neighbors@,
                graph_nodes(self.graph) == v0.nodes,
                graph_edges(self.graph) == e0,
                ends_in_range(v0.nodes, e0),
                forall|x: u32| #[trigger] occurrences(l, x) == count_where(e0, joining(idx, x)),
                neighbor_ids@.len() == j,
                forall|k: int| 0 <= k < j ==> #[trigger] l[k] < v0.nodes.len(),
                forall|k: int| 0 <= k < j ==> #[trigger] neighbor_ids@[k] == v0.nodes[l[k] as int],
                self.notes@ == v0.notes.remove(id.0),
                self.node_index@ == v0.index,
                e0 == v0.edges,
            decreases neighbors.len() - j,
        {
            proof {
                lemma_count_positive(l, is_value(l[j as int]), j as int);
                assert(occurrences(l, l[j as int]) >= 1);
                let w = lemma_count_witness(e0, joining(idx, l[j as int]));
                assert(e0[w].0 < v0.nodes.len() && e0[w].1 < v0.nodes.len());
            }
            let ghost before = neighbor_ids@;
            let nid = graph_node(&self.graph, neighbors[j]);
            neighbor_ids.push(nid);
            proof {
                assert(l[j as int] < v0.nodes.len());
                assert(nid == v0.nodes[l[j as int] as int]);
                assert(neighbor_ids@[j as int] == nid);
                assert forall|k: int| 0 <= k < j + 1 implies #[trigger] neighbor_ids@[k] == v0.nodes[l[k] as int] by {
                    if k < j {
                        assert(neighbor_ids@[k] == before[k]);
                    }
                }
            }
            j = j + 1;
        }
        assert(l.subrange(0, l.len() as int) =~= l);
        let mut k: usize = 0;
        while k < neighbor_ids.len()
            invariant
                k <= neighbor_ids.len() == l.len(),
                v0.notes.contains_key(id.0),
                neighbors_indexed(v0, id.0),
                idx == v0.index[id.0],
                self.node_index@ == v0.index,
                graph_nodes(self.graph) == v0.nodes,
                ends_in_range(v0.nodes, graph_edges(self.graph)),
                forall|i: int| 0 <= i < l.len() ==> #[trigger] l[i] < v0.nodes.len(),
                forall|i: int| 0 <= i < l.len() ==> #[trigger] neighbor_ids@[i] == v0.nodes[l[i] as int],
                forall|x: u32| #[trigger] count_where(graph_edges(self.graph), joining(idx, x)) >= occurrences(
                    l.subrange(k as int, l.len() as int),
                    x,
                ),
                forall|e: EdgeV| !touches(e, idx) ==> #[trigger] occurrences(graph_edges(self.graph), e)
                    == occurrences(e0, e),
                k == 0 ==> graph_edges(self.graph) == e0,
                forall|x: u32| #[trigger] occurrences(l, x) == count_where(e0, joining(idx, x)),
                ends_in_range(v0.nodes, e0),
                self.notes@ == v0.notes.remove(id.0),
                e0 == v0.edges,
            decreases neighbor_ids.len() - k,
        {
            let ghost ek = graph_edges(self.graph);
            let ghost x = l[k as int];
            proof {
                lemma_occurrences_step(l, k as int, x);
            }
            match self.node_index.get(&neighbor_ids[k].0) {
                Some(nidx) => {
                    let nidx = *nidx;
                    proof {
                        // An edge joins the note's node to `x`, so `x` is recorded at its own index.
                        lemma_count_positive(l, is_value(x), k as int);
                        assert(occurrences(l, x) >= 1);
                        let w0 = lemma_count_witness(e0, joining(idx, x));
                        assert(touches(e0[w0], idx) && other_end(e0[w0], idx) == x);
                        assert(touches(v0.edges[w0], v0.index[id.0]));
                        assert(neighbor_ids@[k as int] == v0.nodes[x as int]);
                        assert(v0.index.contains_key(v0.nodes[x as int].0));
                        assert(nidx == v0.index[v0.nodes[x as int].0]);
                        assert(nidx == x);
                        let w = lemma_count_witness(ek, joining(idx, x));
                        assert(joins(ek[w], idx, x));
                    }
                    let e = graph_find_edge(&self.graph, idx, nidx).unwrap();
                    proof {
                        assert(joining(idx, x)(ek[e as int]));
                    }
                    graph_remove_edge(&mut self.graph, e);
                    proof {
                        let ek1 = graph_edges(self.graph);
                        assert forall|y: u32| #[trigger] count_where(ek1, joining(idx, y)) >= occurrences(
                            l.subrange(k + 1, l.len() as int),
                            y,
                        ) by {
                            lemma_count_swap_removed(ek, e as int, joining(idx, y));
                            lemma_occurrences_step(l, k as int, y);
                        }
                        assert forall|f: EdgeV| !touches(f, idx) implies #[trigger] occurrences(ek1, f) == occurrences(e0, f) by {
                            lemma_count_swap_removed(ek, e as int, is_value(f));
                            assert(occurrences(ek, f) == occurrences(e0, f));
                            assert(ek[e as int] != f);
                        }
                        assert forall|i: int| 0 <= i < ek1.len() implies (#[trigger] ek1[i]).0 < v0.nodes.len()
                            && ek1[i].1 < v0.nodes.len() by {
                            if i == e {
                                assert(ek1[i] == ek.last());
                            } else {
                                assert(ek1[i] == ek[i]);
                            }
                        }
                    }
                },
                None => {
                    proof {
                        assert forall|y: u32| #[trigger] count_where(ek, joining(idx, y)) >= occurrences(
                            l.subrange(k + 1, l.len() as int),
                            y,
                        ) by {
                            lemma_occurrences_step(l, k as int, y);
                        }
                    }
                },
            }
            k = k + 1;
        }
        let ghost e_end = graph_edges(self.graph);
        graph_remove_node(&mut self.graph, idx);
        self.node_index.remove(&id.0);
        proof {
            let w = self@;
            let n0 = v0.nodes.len();
            assert(w.notes =~= v0.notes.remove(id.0));
            assert(w.index =~= v0.index.remove(id.0));
            assert(w.notes.dom() =~= w.index.dom());
            if idx < n0 {
                let last = (n0 - 1) as u32;
                assert forall|f: EdgeV| #[trigger] occurrences(w.edges, f) == count_after_node_removal(
                    v0.edges,
                    idx,
                    last,
                    f,
                ) by {
                    assert(occurrences(w.edges, f) == count_after_node_removal(e_end, idx, last, f));
                    if idx != last && !touches(f, last) {
                        let g = (index_before(f.0, idx, last), index_before(f.1, idx, last), f.2);
                        assert(!touches(g, idx));
                    }
                }
                assert forall|i: int| 0 <= i < w.edges.len() implies (#[trigger] w.edges[i]).0 < w.nodes.len()
                    && w.edges[i].1 < w.nodes.len() by {
                    let f = w.edges[i];
                    lemma_count_positive(w.edges, is_value(f), i);
                    assert(occurrences(w.edges, f) >= 1);
                    assert(count_after_node_removal(v0.edges, idx, last, f) >= 1);
                    let g = if idx == last {
                        f
                    } else {
                        (index_before(f.0, idx, last), index_before(f.1, idx, last), f.2)
                    };
                    assert(occurrences(v0.edges, g) >= 1);
                    let t = lemma_count_witness(v0.edges, is_value(g));
                    assert(v0.edges[t] == g);
                }
            } else {
                if l.len() > 0 {
                    lemma_count_positive(l, is_value(l[0]), 0);
                    assert(occurrences(l, l[0]) >= 1);
                    let t = lemma_count_witness(e0, joining(idx, l[0]));
                    assert(e0[t].0 < n0 && e0[t].1 < n0);
                }
                assert(w.edges == e0);
            }
            if graph_consistent(v0) && idx == n0 - 1 {
                assert(w.nodes =~= v0.nodes.drop_last());
                assert forall|q: u128| #[trigger] w.index.contains_key(q) implies w.index[q] < w.nodes.len()
                    && w.nodes[w.index[q] as int].0 == q by {
                    assert(v0.index.contains_key(q));
                    assert(v0.nodes[v0.index[q] as int].0 == q);
                }
                assert forall|i: int| 0 <= i < w.nodes.len() implies w.index.contains_key(
                    (#[trigger] w.nodes[i]).0,
                ) && w.index[w.nodes[i].0] == i by {
                    assert(w.nodes[i] == v0.nodes[i]);
                    assert(v0.index.contains_key(v0.nodes[i].0));
                }
            }
        }
        Some(note)
    }

    fn restore(&mut self, snapshot: GraphSnapshot)
        requires
            snapshot.notes@.len() < u32::MAX,
            snapshot.links@.len() < u32::MAX,
            forall|i: int| 0 <= i < snapshot.links@.len() ==> has_note_id(snapshot.notes@, (#[trigger] snapshot.links@[i]).source.0)
                && has_note_id(snapshot.notes@, snapshot.links@[i].target.0),
        ensures
            graph_wf(final(self)@),
            graph_consistent(final(self)@),
            ({
                let g = with_notes(empty_graph_v(), snapshot.notes@);
                final(self)@ == (GraphV { edges: snapshot.links@.map_values(|l: Link| link_edge(g, l)), ..g })
            }),
    {
        let ghost ns = snapshot.notes@;
        let ghost ls = snapshot.links@;
        let ghost g = with_notes(empty_graph_v(), ns);
        proof {
            lemma_with_notes(ns);
        }
        self.notes.clear();
        self.graph = graph_new();
        self.node_index.clear();
        assert(self@ == with_notes(empty_graph_v(), ns.take(0)));
        for note in it: snapshot.notes.into_iter()
            invariant
                ns.len() < u32::MAX,
                it.seq() == ns,
                self@ == with_notes(empty_graph_v(), ns.take(it.index() as int)),
        {
            proof {
                assert(ns.take(it.index() + 1).drop_last() =~= ns.take(it.index() as int));
                assert(ns.take(it.index() + 1).last() == note);
                lemma_with_notes(ns.take(it.index() as int));
            }
            self.add_note(note);
        }
        proof {
            assert(ns.take(ns.len() as int) =~= ns);
            assert(self@ == g);
            assert(ls.take(0).map_values(|l: Link| link_edge(g, l)) =~= g.edges);
        }
        let mut j: usize = 0;
        while j < snapshot.links.len()
            invariant
                j <= snapshot.links@.len() == ls.len() < u32::MAX,
                ls == snapshot.links@,
                g == with_notes(empty_graph_v(), ns),
                graph_wf(g),
                graph_consistent(g),
                forall|id: u128| #[trigger] g.index.contains_key(id) <==> has_note_id(ns, id),
                forall|i: int| 0 <= i < ls.len() ==> has_note_id(ns, (#[trigger] ls[i]).source.0)
                    && has_note_id(ns, ls[i].target.0),
                self@ == (GraphV { edges: ls.take(j as int).map_values(|l: Link| link_edge(g, l)), ..g }),
                graph_wf(self@),
            decreases ls.len() - j,
        {
            let link = snapshot.links[j];
            proof {
                assert(g.index.contains_key(link.source.0));
                assert(g.index.contains_key(link.target.0));
            }
            let source_idx = *self.node_index.get(&link.source.0).unwrap();
            let target_idx = *self.node_index.get(&link.target.0).unwrap();
            let ghost before = self@;
            graph_add_edge(&mut self.graph, source_idx, target_idx, link);
            proof {
                assert(ls.take(j + 1).map_values(|l: Link| link_edge(g, l)) =~= ls.take(j as int).map_values(
                    |l: Link| link_edge(g, l),
                ).push(link_edge(g, link)));
                let w = self@;
                assert forall|i: int| 0 <= i < w.edges.len() implies (#[trigger] w.edges[i]).0 < w.nodes.len()
                    && w.edges[i].1 < w.nodes.len() by {
                    if i < before.edges.len() {
                        assert(w.edges[i] == before.edges[i]);
                    }
                }
            }
            j = j + 1;
        }
        proof {
            assert(ls.take(ls.len() as int) =~= ls);
        }
    }

    fn update_note<F: FnOnce(Note) -> Note>(&mut self, id: &NoteId, edit: F) -> (r: Result<(), PenumbraError>)
        requires
            graph_wf(old(self)@),
            old(self)@.notes.contains_key(id.0) ==> edit.requires((old(self)@.notes[id.0],)),
        ensures
            graph_wf(final(self)@),
            graph_consistent(old(self)@) ==> graph_consistent(final(self)@),
            !old(self)@.notes.contains_key(id.0) ==> (r matches Err(PenumbraError::NoteNotFound(m)) && m@
                == not_found_message(*id) && final(self)@ == old(self)@),
            old(self)@.notes.contains_key(id.0) ==> r is Ok && exists|edited: Note| {
                let n = final(self)@.notes[id.0];
                &&& #[trigger] edit.ensures((old(self)@.notes[id.0],), edited)
                &&& final(self)@ == (GraphV { notes: old(self)@.notes.insert(id.0, n), ..old(self)@ })
                &&& n.id == edited.id && n.title == edited.title && n.body == edited.body && n.tags == edited.tags
                &&& n.meta.created_at == edited.meta.created_at && n.meta.pinned == edited.meta.pinned
                &&& n.meta.archived == edited.meta.archived
            },
    {
        let ghost v = self@;
        let note = match self.notes.remove(&id.0) {
            Some(n) => n,
            None => {
                assert(self.notes@ =~= v.notes);
                return Err(PenumbraError::NoteNotFound(id.to_string()));
            },
        };
        let mut edited = edit(note);
        let ghost e = edited;
        edited.touch();
        self.notes.insert(id.0, edited);
        proof {
            assert(self.notes@ =~= v.notes.insert(id.0, self.notes@[id.0]));
            assert(self.notes@.dom() =~= v.notes.dom());
            assert(edit.ensures((v.notes[id.0],), e));
        }
        Ok(())
    }

    fn link_notes(&mut self, source: &NoteId, target: &NoteId, kind: LinkKind) -> (r: Result<Link, PenumbraError>)
        requires
            graph_wf(old(self)@),
            old(self)@.notes.contains_key(source.0) && old(self)@.notes.contains_key(target.0) ==> {
                &&& old(self)@.index[source.0] < old(self)@.nodes.len()
                &&& old(self)@.index[target.0] < old(self)@.nodes.len()
                &&& old(self)@.edges.len() < u32::MAX
            },
        ensures
            graph_wf(final(self)@),
            graph_consistent(old(self)@) ==> graph_consistent(final(self)@),
            match link_outcome(old(self)@, *source, *target, kind) {
                Ok((link, w)) => r == Ok::<Link, PenumbraError>(link) && final(self)@ == w,
                Err(f) => final(self)@ == old(self)@ && failure_reported(f, *source, *target, r),
            },
    {
        if !self.notes.contains_key(&source.0) {
            return Err(PenumbraError::NoteNotFound(source.to_string()));
        }
        if !self.notes.contains_key(&target.0) {
            return Err(PenumbraError::NoteNotFound(target.to_string()));
        }
        let source_idx = *self.node_index.get(&source.0).unwrap();
        let target_idx = *self.node_index.get(&target.0).unwrap();
        match graph_find_edge(&self.graph, source_idx, target_idx) {
            Some(e) => {
                let mut m = String::new();
                m.push_str("link already exists between ");
                m.push_str(source.to_string().as_str());
                m.push_str(" and ");
                m.push_str(target.to_string().as_str());
                return Err(PenumbraError::Graph(m));
            },
            None => {},
        }
        let ghost before = self@;
        let link = Link::new(*source, *target, kind);
        graph_add_edge(&mut self.graph, source_idx, target_idx, link);
        proof {
            let v = self@;
            assert forall|i: int| 0 <= i < v.edges.len() implies (#[trigger] v.edges[i]).0 < v.nodes.len()
                && v.edges[i].1 < v.nodes.len() by {
                if i < before.edges.len() {
                    assert(v.edges[i] == before.edges[i]);
                }
            }
        }
        Ok(link)
    }

    fn unlink_notes(&mut self, source: &NoteId, target: &NoteId) -> (r: Result<Link, PenumbraError>)
        requires
            graph_wf(old(self)@),
        ensures
            graph_wf(final(self)@),
            graph_consistent(old(self)@) ==> graph_consistent(final(self)@),
            ({
                let v = old(self)@;
                if !v.index.contains_key(source.0) {
                    &&& r matches Err(PenumbraError::NoteNotFound(m)) && m@ == not_found_message(*source)
                    &&& final(self)@ == v
                } else if !v.index.contains_key(target.0) {
                    &&& r matches Err(PenumbraError::NoteNotFound(m)) && m@ == not_found_message(*target)
                    &&& final(self)@ == v
                } else if !linked(v.edges, v.index[source.0], v.index[target.0]) {
                    &&& r matches Err(PenumbraError::Graph(m)) && m@ == not_linked_message(*source, *target)
                    &&& final(self)@ == v
                } else {
                    exists|e: int| {
                        &&& 0 <= e < v.edges.len()
                        &&& joins(v.edges[e], v.index[source.0], v.index[target.0])
                        &&& r == Ok::<Link, PenumbraError>(v.edges[e].2)
                        &&& final(self)@ == (GraphV { edges: swap_removed(v.edges, e), ..v })
                    }
                }
            }),
    {
        let source_idx = match self.node_index.get(&source.0) {
            Some(i) => *i,
            None => {
                return Err(PenumbraError::NoteNotFound(source.to_string()));
            },
        };
        let target_idx = match self.node_index.get(&target.0) {
            Some(i) => *i,
            None => {
                return Err(PenumbraError::NoteNotFound(target.to_string()));
            },
        };
        let e = match graph_find_edge(&self.graph, source_idx, target_idx) {
            Some(e) => e,
            None => {
                let mut m = String::new();
                m.push_str("no link between ");
                m.push_str(source.to_string().as_str());
                m.push_str(" and ");
                m.push_str(target.to_string().as_str());
                return Err(PenumbraError::Graph(m));
            },
        };
        let ghost before = self@;
        let removed = graph_remove_edge(&mut self.graph, e);
        proof {
            let v = self@;
            assert forall|i: int| 0 <= i < v.edges.len() implies (#[trigger] v.edges[i]).0 < v.nodes.len()
                && v.edges[i].1 < v.nodes.len() by {
                if i == e {
                    assert(v.edges[i] == before.edges.last());
                } else {
                    assert(v.edges[i] == before.edges[i]);
                }
            }
            assert(v == (GraphV { edges: swap_removed(before.edges, e as int), ..before }));
            assert(joins(before.edges[e as int], source_idx, target_idx));
        }
        Ok(removed.unwrap())
    }
}

impl GraphStore {
    /// An empty store.
    pub fn new() -> (s: GraphStore)
        ensures
            graph_wf(s@),
            graph_consistent(s@),
            s@.notes == Map::<u128, Note>::empty(),
            s@.nodes == Seq::<NoteId>::empty(),
            s@.edges == Seq::<EdgeV>::empty(),
            s@.index == Map::<u128, u32>::empty(),
    {
        GraphStore { state: GraphState { notes: HashMap::new(), graph: graph_new(), node_index: HashMap::new() } }
    }

    /// Takes the state out, leaving an empty store in its place.
    fn take_state(&mut self) -> (st: GraphState)
        ensures
            st@ == old(self)@,
            graph_wf(st@),
    {
        proof {
            use_type_invariant(&*self);
        }
        let mut taken = GraphStore::new();
        std::mem::swap(self, &mut taken);
        let GraphStore { state } = taken;
        state
    }

    /// The stored note with the given identity.
    pub fn get_note(&self, id: &NoteId) -> (r: Option<&Note>)
        ensures
            match r {
                Some(n) => self@.notes.contains_key(id.0) && *n == self@.notes[id.0],
                None => !self@.notes.contains_key(id.0),
            },
    {
        self.state.notes.get(&id.0)
    }

    /// The notes linked to a note, once per link, in the graph's order;
    /// empty when the note has no recorded node.
    pub fn get_neighbors(&self, id: &NoteId) -> (r: Vec<&Note>)
        ensures
            !self@.index.contains_key(id.0) ==> r@.len() == 0,
            self@.index.contains_key(id.0) ==> exists|l: Seq<u32>| {
                &&& #[trigger] lists_neighbors(self@.edges, self@.index[id.0], l)
                &&& r@.len() == notes_of_nodes(self@, l).len()
                &&& forall|i: int| 0 <= i < r@.len() ==> *r@[i] == notes_of_nodes(self@, l)[i]
            },
    {
        proof {
            use_type_invariant(self);
        }
        let idx = match self.state.node_index.get(&id.0) {
            Some(i) => *i,
            None => {
                return Vec::new();
            },
        };
        let ns = graph_neighbors(&self.state.graph, idx);
        let ghost v = self@;
        let mut out: Vec<&Note> = Vec::new();
        let mut m: usize = 0;
        while m < ns.len()
            invariant
                m <= ns.len(),
                v == self@,
                graph_wf(v),
                lists_neighbors(v.edges, idx, ns@),
                out@.len() == notes_of_nodes(v, ns@.take(m as int)).len(),
                forall|i: int| 0 <= i < out@.len() ==> *out@[i] == notes_of_nodes(v, ns@.take(m as int))[i],
            decreases ns.len() - m,
        {
            let n = ns[m];
            proof {
                lemma_count_positive(ns@, is_value(n), m as int);
                assert(occurrences(ns@, n) >= 1);
                let w = lemma_count_witness(v.edges, joining(idx, n));
                assert(v.edges[w].0 < v.nodes.len() && v.edges[w].1 < v.nodes.len());
                assert(ns@.take(m + 1).drop_last() =~= ns@.take(m as int));
                assert(ns@.take(m + 1).last() == n);
            }
            let nid = graph_node(&self.state.graph, n);
            match self.state.notes.get(&nid.0) {
                Some(note) => {
                    let ghost before = out@;
                    out.push(note);
                    assert forall|i: int| 0 <= i < out@.len() implies *out@[i] == notes_of_nodes(v, ns@.take(m + 1))[i] by {
                        if i < before.len() {
                            assert(out@[i] == before[i]);
                        }
                    }
                },
                None => {},
            }
            m = m + 1;
        }
        assert(ns@.take(ns.len() as int) =~= ns@);
        out
    }

    /// The links at a note, each once, in the graph's order; empty when
    /// the note has no recorded node.
    pub fn get_links(&self, id: &NoteId) -> (r: Vec<&Link>)
        ensures
            !self@.index.contains_key(id.0) ==> r@.len() == 0,
            self@.index.contains_key(id.0) ==> exists|l: Seq<u32>| {
                &&& #[trigger] lists_edges_at(self@.edges, self@.index[id.0], l)
                &&& r@.len() == l.len()
                &&& forall|i: int| 0 <= i < r@.len() ==> *r@[i] == self@.edges[l[i] as int].2
            },
    {
        proof {
            use_type_invariant(self);
        }
        let idx = match self.state.node_index.get(&id.0) {
            Some(i) => *i,
            None => {
                return Vec::new();
            },
        };
        let es = graph_incident_edges(&self.state.graph, idx);
        let mut out: Vec<&Link> = Vec::new();
        let mut m: usize = 0;
        while m < es.len()
            invariant
                m <= es.len(),
                lists_edges_at(graph_edges(self.state.graph), idx, es@),
                out@.len() == m,
                forall|i: int| 0 <= i < m ==> *out@[i] == graph_edges(self.state.graph)[es@[i] as int].2,
            decreases es.len() - m,
        {
            assert(es@.contains(es@[m as int]));
            let ghost before = out@;
            out.push(graph_edge_link(&self.state.graph, es[m] as usize));
            assert forall|i: int| 0 <= i < m + 1 implies *out@[i] == graph_edges(self.state.graph)[es@[i] as int].2 by {
                if i < m {
                    assert(out@[i] == before[i]);
                }
            }
            m = m + 1;
        }
        proof {
            assert(lists_edges_at(self@.edges, self@.index[id.0], es@));
        }
        out
    }

    /// The identities of the notes connected to a note by a chain of
    /// links, its own included, found by a depth-first walk from its node;
    /// empty when it has no recorded node. A node whose identity was
    /// already collected is not walked from again, so the result is the
    /// whole component when no two nodes carry the same identity, and part
    /// of it otherwise.
    pub fn get_connected_component(&self, id: &NoteId) -> (r: HashSet<u128>)
        requires
            self@.index.contains_key(id.0) ==> self@.index[id.0] < self@.nodes.len(),
        ensures
            !self@.index.contains_key(id.0) ==> r@ == Set::<u128>::empty(),
            self@.index.contains_key(id.0) ==> {
                let a = self@.index[id.0];
                &&& r@.contains(self@.nodes[a as int].0)
                &&& r@.subset_of(component_ids(self@, a))
                &&& distinct_ids(self@.nodes) ==> r@ == component_ids(self@, a)
            },
    {
        proof {
            use_type_invariant(self);
        }
        let idx = match self.state.node_index.get(&id.0) {
            Some(i) => *i,
            None => {
                let empty: HashSet<u128> = HashSet::new();
                return empty;
            },
        };
        let ghost v = self@;
        let ghost n = v.nodes.len();
        let mut component: HashSet<u128> = HashSet::new();
        let mut stack: Vec<u32> = Vec::new();
        stack.push(idx);
        // The nodes walked from so far.
        let ghost mut walked: Set<u32> = Set::empty();
        proof {
            lemma_reach_self(v.edges, idx);
            vstd::set_lib::lemma_int_range(0, n as int);
        }
        while stack.len() > 0
            invariant
                v == self@,
                graph_wf(v),
                n == v.nodes.len(),
                idx < n,
                walked.finite(),
                forall|j: u32| #[trigger] walked.contains(j) ==> j < n && reachable(v.edges, idx, j),
                forall|x: u128| #[trigger] component@.contains(x) <==> exists|j: u32| #[trigger] walked.contains(j)
                    && v.nodes[j as int].0 == x,
                forall|i: int| 0 <= i < stack@.len() ==> #[trigger] stack@[i] < n && reachable(v.edges, idx, stack@[i]),
                forall|j: u32, k: u32| #![trigger linked(v.edges, j, k)] walked.contains(j) && linked(v.edges, j, k) ==> component@.contains(
                    v.nodes[k as int].0,
                ) || stack@.contains(k),
                walked.len() == 0 ==> stack@ == seq![idx],
                walked.len() > 0 ==> walked.contains(idx),
            decreases n - walked.len(), stack@.len(),
        {
            proof {
                vstd::set_lib::lemma_int_range(0, n as int);
                assert(walked.subset_of(Set::new(|j: u32| j < n)));
                lemma_walked_bound(walked, n);
            }
            let ghost stack_before = stack@;
            let current = stack.pop().unwrap();
            assert(stack_before == stack@.push(current));
            assert(stack_before[stack_before.len() - 1] == current);
            let current_id = graph_node(&self.state.graph, current);
            if !component.insert(current_id.0) {
                proof {
                    assert forall|j: u32, k: u32| #![trigger linked(v.edges, j, k)] walked.contains(j) && linked(v.edges, j, k) implies component@.contains(
                        v.nodes[k as int].0,
                    ) || stack@.contains(k) by {
                        if !component@.contains(v.nodes[k as int].0) {
                            assert(stack_before.contains(k));
                            let t = choose|t: int| 0 <= t < stack_before.len() && stack_before[t] == k;
                            if t < stack@.len() {
                                assert(stack@[t] == k);
                            }
                        }
                    }
                    assert forall|i: int| 0 <= i < stack@.len() implies #[trigger] stack@[i] < n && reachable(v.edges, idx, stack@[i]) by {
                        assert(stack@[i] == stack_before[i]);
                    }
                }
                continue;
            }
            let ghost walked_before = walked;
            proof {
                walked = walked.insert(current);
                if walked_before.contains(current) {
                    assert(component@.contains(v.nodes[current as int].0));
                }
                assert(!walked_before.contains(current));
                assert forall|x: u128| #[trigger] component@.contains(x) implies exists|j: u32| #[trigger] walked.contains(j)
                    && v.nodes[j as int].0 == x by {
                    if x == current_id.0 {
                        assert(walked.contains(current));
                    } else {
                        let j = choose|j: u32| #[trigger] walked_before.contains(j) && v.nodes[j as int].0 == x;
                        assert(walked.contains(j));
                    }
                }
                assert forall|x: u128| (exists|j: u32| #[trigger] walked.contains(j) && v.nodes[j as int].0 == x) implies #[trigger] component@.contains(x) by {
                    let j = choose|j: u32| #[trigger] walked.contains(j) && v.nodes[j as int].0 == x;
                    if j != current {
                        assert(walked_before.contains(j));
                    }
                }
                assert(walked.len() == walked_before.len() + 1);
                lemma_walked_bound(walked, n);
            }
            let ns = graph_neighbors(&self.state.graph, current);
            let mut m: usize = 0;
            while m < ns.len()
                invariant
                    v == self@,
                    graph_wf(v),
                    n == v.nodes.len(),
                    current < n,
                    reachable(v.edges, idx, current),
                    lists_neighbors(v.edges, current, ns@),
                    m <= ns.len(),
                    forall|i: int| 0 <= i < stack@.len() ==> #[trigger] stack@[i] < n && reachable(v.edges, idx, stack@[i]),
                    forall|t: int| 0 <= t < m ==> component@.contains(v.nodes[ns@[t] as int].0) || stack@.contains(#[trigger] ns@[t]),
                    forall|k: u32| #[trigger] stack_before.contains(k) ==> k == current || stack@.contains(k),
                    forall|x: u128| #[trigger] component@.contains(x) <==> exists|j: u32| #[trigger] walked.contains(j)
                        && v.nodes[j as int].0 == x,
                decreases ns.len() - m,
            {
                let nb = ns[m];
                proof {
                    lemma_count_positive(ns@, is_value(nb), m as int);
                    assert(occurrences(ns@, nb) >= 1);
                    lemma_linked_counted(v.edges, current, nb);
                    let w = lemma_count_witness(v.edges, joining(current, nb));
                    assert(v.edges[w].0 < n && v.edges[w].1 < n);
                    lemma_reach_step(v.edges, idx, current, nb);
                }
                let nid = graph_node(&self.state.graph, nb);
                if !component.contains(&nid.0) {
                    let ghost s0 = stack@;
                    stack.push(nb);
                    proof {
                        assert(stack@[s0.len() as int] == nb);
                        assert forall|i: int| 0 <= i < stack@.len() implies #[trigger] stack@[i] < n && reachable(v.edges, idx, stack@[i]) by {
                            if i < s0.len() {
                                assert(stack@[i] == s0[i]);
                            }
                        }
                        assert forall|t: int| 0 <= t < m + 1 implies component@.contains(v.nodes[ns@[t] as int].0) || stack@.contains(#[trigger] ns@[t]) by {
                            if t < m && !component@.contains(v.nodes[ns@[t] as int].0) {
                                let q = choose|q: int| 0 <= q < s0.len() && s0[q] == ns@[t];
                                assert(stack@[q] == ns@[t]);
                            }
                        }
                        assert forall|k: u32| #[trigger] stack_before.contains(k) implies k == current || stack@.contains(k) by {
                            if k != current {
                                assert(s0.contains(k));
                                let q = choose|q: int| 0 <= q < s0.len() && s0[q] == k;
                                assert(stack@[q] == k);
                            }
                        }
                    }
                }
                m = m + 1;
            }
            proof {
                assert forall|j: u32, k: u32| #![trigger linked(v.edges, j, k)] walked.contains(j) && linked(v.edges, j, k) implies component@.contains(
                    v.nodes[k as int].0,
                ) || stack@.contains(k) by {
                    if j == current {
                        lemma_linked_counted(v.edges, current, k);
                        assert(occurrences(ns@, k) >= 1);
                        let t = lemma_count_witness(ns@, is_value(k));
                        assert(ns@[t] == k);
                    } else {
                        assert(walked_before.contains(j));
                        if !component@.contains(v.nodes[k as int].0) {
                            // Collected identities are never dropped.
                            assert(stack_before.contains(k) || component@.contains(v.nodes[k as int].0));
                        }
                    }
                }
            }
        }
        proof {
            let rs = component@;
            assert forall|x: u128| #[trigger] rs.contains(x) implies component_ids(v, idx).contains(x) by {
                let j = choose|j: u32| #[trigger] walked.contains(j) && v.nodes[j as int].0 == x;
                assert(v.nodes[j as int].0 == x);
            }
            assert(walked.contains(idx));
            assert(rs.contains(v.nodes[idx as int].0));
            if distinct_ids(v.nodes) {
                assert forall|j: u32, k: u32| #![trigger linked(v.edges, j, k)] walked.contains(j) && linked(v.edges, j, k) implies walked.contains(k) by {
                    assert(walked.contains(j) && linked(v.edges, j, k));
                    assert(rs.contains(v.nodes[k as int].0));
                    let j2 = choose|j2: u32| #[trigger] walked.contains(j2) && v.nodes[j2 as int].0 == v.nodes[k as int].0;
                    let e = choose|i: int| 0 <= i < v.edges.len() && joins(#[trigger] v.edges[i], j, k);
                    assert(k < n);
                    if j2 != k {
                        assert(v.nodes[j2 as int].0 != v.nodes[k as int].0);
                    }
                }
                assert forall|x: u128| #[trigger] component_ids(v, idx).contains(x) implies rs.contains(x) by {
                    let j = choose|j: u32| j < v.nodes.len() && reachable(v.edges, idx, j) && (#[trigger] v.nodes[j as int]).0 == x;
                    lemma_closed_reach(v, walked, idx, j);
                }
                assert(rs =~= component_ids(v, idx));
            }
        }
        component
    }

    /// Every stored note, in an order left to the map.
    pub fn all_notes(&self) -> (r: Vec<&Note>)
        ensures
            exists|keys: Seq<u128>| {
                &&& keys.no_duplicates()
                &&& keys.to_set() == self@.notes.dom()
                &&& #[trigger] keys.len() == r@.len()
                &&& forall|i: int| 0 <= i < r@.len() ==> *r@[i] == self@.notes[keys[i]]
            },
    {
        let ghost m = self.state.notes@;
        let mut out: Vec<&Note> = Vec::new();
        let ghost mut keys: Seq<u128> = Seq::empty();
        for k in it: self.state.notes.keys()
            invariant
                m == self.state.notes@,
                it.seq() == vstd::std_specs::hash::spec_keys_iter(&self.state.notes).remaining(),
                keys == it.seq().take(it.index() as int).map_values(|q: &u128| *q),
                out@.len() == it.index(),
                forall|i: int| 0 <= i < out@.len() ==> *out@[i] == m[keys[i]],
        {
            let note = self.state.notes.get(k).unwrap();
            out.push(note);
            proof {
                assert(*k == *it.seq()[it.index()]);
                assert(it.seq().take(it.index() + 1).map_values(|q: &u128| *q) =~= keys.push(*k));
                keys = keys.push(*k);
            }
        }
        proof {
            let rem = vstd::std_specs::hash::spec_keys_iter(&self.state.notes).remaining();
            assert(rem.take(rem.len() as int) =~= rem);
            assert(keys =~= rem.map_values(|q: &u128| *q));
            assert(keys =~= rem.unref());
            assert(keys.no_duplicates());
            assert(keys.to_set() =~= m.dom());
        }
        out
    }

    /// Every link, in edge order.
    pub fn all_links(&self) -> (r: Vec<&Link>)
        ensures
            r@.len() == self@.edges.len(),
            forall|i: int| 0 <= i < r@.len() ==> *r@[i] == self@.edges[i].2,
    {
        let n = graph_edge_count(&self.state.graph);
        let mut out: Vec<&Link> = Vec::new();
        let mut e: usize = 0;
        while e < n
            invariant
                e <= n == graph_edges(self.state.graph).len(),
                out@.len() == e,
                forall|i: int| 0 <= i < e ==> *out@[i] == graph_edges(self.state.graph)[i].2,
            decreases n - e,
        {
            let ghost before = out@;
            out.push(graph_edge_link(&self.state.graph, e));
            assert forall|i: int| 0 <= i < e + 1 implies *out@[i] == graph_edges(self.state.graph)[i].2 by {
                if i < e {
                    assert(out@[i] == before[i]);
                }
            }
            e = e + 1;
        }
        out
    }

    /// The store's notes (in an order left to the map) and its links (in
    /// edge order).
    pub fn snapshot(&self) -> (r: GraphSnapshot)
        ensures
            r.links@ == self@.edges.map_values(|e: EdgeV| e.2),
            exists|keys: Seq<u128>| {
                &&& keys.no_duplicates()
                &&& keys.to_set() == self@.notes.dom()
                &&& #[trigger] keys.len() == r.notes@.len()
                &&& forall|i: int| 0 <= i < r.notes@.len() ==> note_view(r.notes@[i]) == note_view(self@.notes[keys[i]])
            },
    {
        let refs = self.all_notes();
        let mut notes: Vec<Note> = Vec::new();
        let mut i: usize = 0;
        while i < refs.len()
            invariant
                i <= refs.len(),
                notes@.len() == i,
                forall|k: int| 0 <= k < i ==> note_view(#[trigger] notes@[k]) == note_view(*refs@[k]),
            decreases refs.len() - i,
        {
            let ghost before = notes@;
            notes.push(refs[i].duplicate());
            assert forall|k: int| 0 <= k < i + 1 implies note_view(#[trigger] notes@[k]) == note_view(*refs@[k]) by {
                if k < i {
                    assert(notes@[k] == before[k]);
                }
            }
            i = i + 1;
        }
        let link_refs = self.all_links();
        let mut links: Vec<Link> = Vec::new();
        let mut k: usize = 0;
        while k < link_refs.len()
            invariant
                k <= link_refs.len() == self@.edges.len(),
                forall|q: int| 0 <= q < link_refs@.len() ==> *link_refs@[q] == self@.edges[q].2,
                links@ == self@.edges.take(k as int).map_values(|e: EdgeV| e.2),
            decreases link_refs.len() - k,
        {
            links.push(*link_refs[k]);
            assert(links@ =~= self@.edges.take(k + 1).map_values(|e: EdgeV| e.2));
            k = k + 1;
        }
        assert(self@.edges.take(self@.edges.len() as int) =~= self@.edges);
        GraphSnapshot { notes, links }
    }

    /// Whether every recorded index is the index of a node: linking any two
    /// stored notes is then possible.
    pub fn indices_in_range_now(&self) -> (r: bool)
        ensures
            r == indices_in_range(self@),
    {
        let n = graph_node_count(&self.state.graph);
        let ghost m = self.state.node_index@;
        let mut ok = true;
        for idx in it: self.state.node_index.values()
            invariant
                m == self.state.node_index@,
                n == graph_nodes(self.state.graph).len(),
                it.seq() == vstd::std_specs::hash::spec_values_iter(&self.state.node_index).remaining(),
                ok == forall|q: int| 0 <= q < it.index() ==> *it.seq()[q] < n,
        {
            ok = ok && ((*idx as usize) < n);
        }
        proof {
            let rem = vstd::std_specs::hash::spec_values_iter(&self.state.node_index).remaining();
            assert(ok == forall|q: int| 0 <= q < rem.len() ==> *rem[q] < n);
            assert(rem.unref().to_set() == m.values());
            if ok {
                assert forall|id: u128| #[trigger] m.contains_key(id) implies m[id] < n by {
                    assert(m.values().contains(m[id]));
                    assert(rem.unref().to_set().contains(m[id]));
                    let q = choose|q: int| 0 <= q < rem.unref().len() && rem.unref()[q] == m[id];
                    assert(*rem[q] == rem.unref()[q]);
                }
                assert(self@.index == m);
                assert(self@.nodes.len() == n);
                assert(indices_in_range(self@));
            } else {
                let q = choose|q: int| 0 <= q < rem.len() && !(*rem[q] < n);
                assert(rem.unref()[q] == *rem[q]);
                assert(rem.unref().to_set().contains(rem.unref()[q]));
                assert(m.values().contains(*rem[q]));
                let id = choose|id: u128| m.contains_key(id) && m[id] == *rem[q];
                assert(m.contains_key(id));
                assert(!indices_in_range(self@));
            }
        }
        ok
    }

    /// Whether `remove_note` can remove the note: the recorded indices agree
    /// with the graph around it (see `neighbors_indexed`), or it is not
    /// stored.
    pub fn can_remove(&self, id: &NoteId) -> (r: bool)
        ensures
            r == (self@.notes.contains_key(id.0) ==> neighbors_indexed(self@, id.0)),
    {
        proof {
            use_type_invariant(self);
        }
        let ghost v = self@;
        if !self.state.notes.contains_key(&id.0) {
            return true;
        }
        let idx = *self.state.node_index.get(&id.0).unwrap();
        let count = graph_edge_count(&self.state.graph);
        let mut k: usize = 0;
        while k < count
            invariant
                v == self@,
                graph_wf(v),
                v.notes.contains_key(id.0),
                idx == v.index[id.0],
                count == v.edges.len(),
                k <= count,
                forall|q: int| 0 <= q < k && touches(#[trigger] v.edges[q], idx) ==> {
                    let o = other_end(v.edges[q], idx);
                    v.index.contains_key(v.nodes[o as int].0) ==> v.index[v.nodes[o as int].0] == o
                },
            decreases count - k,
        {
            let ends = graph_edge_ends(&self.state.graph, k);
            if ends.0 == idx || ends.1 == idx {
                let o = if ends.0 == idx { ends.1 } else { ends.0 };
                let nid = graph_node(&self.state.graph, o);
                match self.state.node_index.get(&nid.0) {
                    Some(j) => {
                        if *j != o {
                            assert(touches(v.edges[k as int], idx));
                            return false;
                        }
                    },
                    None => {},
                }
            }
            k = k + 1;
        }
        true
    }

    /// How many notes are stored.
    pub fn note_count(&self) -> (r: usize)
        ensures
            r == self@.notes.dom().len(),
    {
        self.state.notes.len()
    }

    /// How many links the graph holds.
    pub fn link_count(&self) -> (r: usize)
        ensures
            r == self@.edges.len(),
    {
        graph_edge_count(&self.state.graph)
    }

    /// Adds a note with a node of its own; `false`, and nothing changes,
    /// when a note with its identity is already stored.
    pub fn add_note(&mut self, note: Note) -> (r: bool)
        requires
            !old(self)@.notes.contains_key(note.id.0) ==> old(self)@.nodes.len() < u32::MAX,
        ensures
            graph_wf(final(self)@),
            r == !old(self)@.notes.contains_key(note.id.0),
            final(self)@ == add_note_v(old(self)@, note),
            graph_consistent(old(self)@) ==> graph_consistent(final(self)@),
    {
        let mut st = self.take_state();
        let r = st.add_note(note);
        *self = GraphStore { state: st };
        r
    }

    /// Removes a note, its node and every link at it, and gives the note
    /// back; `None`, and nothing changes, when it is not stored.
    pub fn remove_note(&mut self, id: &NoteId) -> (r: Option<Note>)
        requires
            old(self)@.notes.contains_key(id.0) ==> neighbors_indexed(old(self)@, id.0),
        ensures
            graph_wf(final(self)@),
            match r {
                None => !old(self)@.notes.contains_key(id.0) && final(self)@ == old(self)@,
                Some(n) => old(self)@.notes.contains_key(id.0) && n == old(self)@.notes[id.0]
                    && removed_note_v(old(self)@, final(self)@, id.0),
            },
            graph_consistent(old(self)@) && old(self)@.notes.contains_key(id.0) && old(self)@.index[id.0]
                == old(self)@.nodes.len() - 1 ==> graph_consistent(final(self)@),
    {
        let mut st = self.take_state();
        let r = st.remove_note(id);
        *self = GraphStore { state: st };
        r
    }

    /// Replaces the store's content with a snapshot's: its notes are added
    /// in order (a repeated identity keeps its first note) and then its
    /// links, each between the nodes of its ends.
    pub fn restore(&mut self, snapshot: GraphSnapshot)
        requires
            snapshot.notes@.len() < u32::MAX,
            snapshot.links@.len() < u32::MAX,
            forall|i: int| 0 <= i < snapshot.links@.len() ==> has_note_id(snapshot.notes@, (#[trigger] snapshot.links@[i]).source.0)
                && has_note_id(snapshot.notes@, snapshot.links@[i].target.0),
        ensures
            graph_wf(final(self)@),
            graph_consistent(final(self)@),
            ({
                let g = with_notes(empty_graph_v(), snapshot.notes@);
                final(self)@ == (GraphV { edges: snapshot.links@.map_values(|l: Link| link_edge(g, l)), ..g })
            }),
    {
        let mut st = self.take_state();
        st.restore(snapshot);
        *self = GraphStore { state: st };
    }

    /// Edits a stored note with `edit` and marks it changed now; the note
    /// stays under its identity. Fails, and nothing changes, when no note
    /// with the identity is stored.
    pub fn update_note<F: FnOnce(Note) -> Note>(&mut self, id: &NoteId, edit: F) -> (r: Result<(), PenumbraError>)
        requires
            old(self)@.notes.contains_key(id.0) ==> edit.requires((old(self)@.notes[id.0],)),
        ensures
            graph_wf(final(self)@),
            graph_consistent(old(self)@) ==> graph_consistent(final(self)@),
            !old(self)@.notes.contains_key(id.0) ==> (r matches Err(PenumbraError::NoteNotFound(m)) && m@
                == not_found_message(*id) && final(self)@ == old(self)@),
            old(self)@.notes.contains_key(id.0) ==> r is Ok && exists|edited: Note| {
                let n = final(self)@.notes[id.0];
                &&& #[trigger] edit.ensures((old(self)@.notes[id.0],), edited)
                &&& final(self)@ == (GraphV { notes: old(self)@.notes.insert(id.0, n), ..old(self)@ })
                &&& n.id == edited.id && n.title == edited.title && n.body == edited.body && n.tags == edited.tags
                &&& n.meta.created_at == edited.meta.created_at && n.meta.pinned == edited.meta.pinned
                &&& n.meta.archived == edited.meta.archived
            },
    {
        let mut st = self.take_state();
        let r = st.update_note(id, edit);
        *self = GraphStore { state: st };
        r
    }

    /// Links two stored notes. Fails when either is not stored (the source
    /// is checked first) or when a link already joins them.
    pub fn link_notes(&mut self, source: &NoteId, target: &NoteId, kind: LinkKind) -> (r: Result<Link, PenumbraError>)
        requires
            old(self)@.notes.contains_key(source.0) && old(self)@.notes.contains_key(target.0) ==> {
                &&& old(self)@.index[source.0] < old(self)@.nodes.len()
                &&& old(self)@.index[target.0] < old(self)@.nodes.len()
                &&& old(self)@.edges.len() < u32::MAX
            },
        ensures
            graph_wf(final(self)@),
            graph_consistent(old(self)@) ==> graph_consistent(final(self)@),
            match link_outcome(old(self)@, *source, *target, kind) {
                Ok((link, w)) => r == Ok::<Link, PenumbraError>(link) && final(self)@ == w,
                Err(f) => final(self)@ == old(self)@ && failure_reported(f, *source, *target, r),
            },
    {
        let mut st = self.take_state();
        let r = st.link_notes(source, target, kind);
        *self = GraphStore { state: st };
        r
    }

    /// Removes the link between two notes, given by identity. Fails when
    /// either has no recorded node (the source is checked first) or no link
    /// joins their nodes. When several do, which one goes is left to the
    /// graph.
    pub fn unlink_notes(&mut self, source: &NoteId, target: &NoteId) -> (r: Result<Link, PenumbraError>)
        ensures
            graph_wf(final(self)@),
            graph_consistent(old(self)@) ==> graph_consistent(final(self)@),
            ({
                let v = old(self)@;
                if !v.index.contains_key(source.0) {
                    &&& r matches Err(PenumbraError::NoteNotFound(m)) && m@ == not_found_message(*source)
                    &&& final(self)@ == v
                } else if !v.index.contains_key(target.0) {
                    &&& r matches Err(PenumbraError::NoteNotFound(m)) && m@ == not_found_message(*target)
                    &&& final(self)@ == v
                } else if !linked(v.edges, v.index[source.0], v.index[target.0]) {
                    &&& r matches Err(PenumbraError::Graph(m)) && m@ == not_linked_message(*source, *target)
                    &&& final(self)@ == v
                } else {
                    exists|e: int| {
                        &&& 0 <= e < v.edges.len()
                        &&& joins(v.edges[e], v.index[source.0], v.index[target.0])
                        &&& r == Ok::<Link, PenumbraError>(v.edges[e].2)
                        &&& final(self)@ == (GraphV { edges: swap_removed(v.edges, e), ..v })
                    }
                }
            }),
    {
        let mut st = self.take_state();
        let r = st.unlink_notes(source, target);
        *self = GraphStore { state: st };
        r
    }
}

// ---------------------------------------------------------------------------
// Laws.

/// Unlinking two notes right after linking them removes the new link and
/// nothing else: the only edge joining their nodes is the new one, the last.
pub proof fn lemma_unlink_undoes_link(v: GraphV, source: NoteId, target: NoteId, kind: LinkKind, e: int)
    requires
        graph_wf(v),
        v.notes.contains_key(source.0),
        v.notes.contains_key(target.0),
        !linked(v.edges, v.index[source.0], v.index[target.0]),
        0 <= e < v.edges.len() + 1,
        joins(
            v.edges.push(link_edge(v, Link { source, target, kind, weight_bits: default_weight_bits(kind) }))[e],
            v.index[source.0],
            v.index[target.0],
        ),
    ensures
        ({
            let link = (Link { source, target, kind, weight_bits: default_weight_bits(kind) });
            let pushed = v.edges.push(link_edge(v, link));
            &&& e == v.edges.len()
            &&& pushed[e].2 == link
            &&& swap_removed(pushed, e) == v.edges
        }),
{
    let link = (Link { source, target, kind, weight_bits: default_weight_bits(kind) });
    let pushed = v.edges.push(link_edge(v, link));
    if e < v.edges.len() {
        assert(pushed[e] == v.edges[e]);
        assert(joins(v.edges[e], v.index[source.0], v.index[target.0]));
    }
    assert(pushed.update(e, pushed.last()) =~= pushed);
    assert(swap_removed(pushed, e) =~= v.edges);
}

/// Removing a note right after adding it to a consistent store gives the
/// store back: the same notes, nodes and recorded indices, and the same
/// edges, each as many times as before.
pub proof fn lemma_remove_undoes_add(v: GraphV, note: Note, w: GraphV)
    requires
        graph_wf(v),
        graph_consistent(v),
        !v.notes.contains_key(note.id.0),
        v.nodes.len() < u32::MAX,
        removed_note_v(add_note_v(v, note), w, note.id.0),
    ensures
        w.notes == v.notes,
        w.nodes == v.nodes,
        w.index == v.index,
        forall|e: EdgeV| #[trigger] occurrences(w.edges, e) == occurrences(v.edges, e),
{
    let a = add_note_v(v, note);
    let last = v.nodes.len() as u32;
    assert(a.index[note.id.0] == last);
    assert(w.notes =~= v.notes);
    assert(w.index =~= v.index);
    assert(a.nodes.update(last as int, a.nodes.last()) =~= a.nodes);
    assert(w.nodes =~= v.nodes);
    assert forall|e: EdgeV| #[trigger] occurrences(w.edges, e) == occurrences(v.edges, e) by {
        assert(occurrences(w.edges, e) == count_after_node_removal(a.edges, last, last, e));
        if touches(e, last) && occurrences(v.edges, e) >= 1 {
            let t = lemma_count_witness(v.edges, is_value(e));
            assert(v.edges[t].0 < v.nodes.len() && v.edges[t].1 < v.nodes.len());
        }
    }
}

/// A consistent store's recorded indices agree with the graph around every
/// note, so any stored note can be removed.
pub proof fn lemma_consistent_neighbors_indexed(v: GraphV, id: u128)
    requires
        graph_wf(v),
        graph_consistent(v),
        v.notes.contains_key(id),
    ensures
        neighbors_indexed(v, id),
{
    assert forall|i: int| 0 <= i < v.edges.len() && touches(#[trigger] v.edges[i], v.index[id]) implies {
        let o = other_end(v.edges[i], v.index[id]);
        v.index.contains_key(v.nodes[o as int].0) ==> v.index[v.nodes[o as int].0] == o
    } by {
        let o = other_end(v.edges[i], v.index[id]);
        assert(o < v.nodes.len());
        assert(v.index.contains_key(v.nodes[o as int].0));
    }
}

impl Default for GraphStore {
    /// An empty store.
    fn default() -> (s: GraphStore)
        ensures
            graph_wf(s@),
            graph_consistent(s@),
            s@ == empty_graph_v(),
    {
        let s = GraphStore::new();
        assert(s@ == empty_graph_v());
        s
    }
}

} // verus!
