//! The bookkeeping of the canvas layout: which notes it places, under which
//! index, and which index pairs its springs join. The positions and the
//! physics are floating point and stay with the caller, in vectors kept
//! parallel to these indices.
use vstd::prelude::*;
use std::collections::HashMap;
use crate::notes::{Link, NoteId};

verus! {

/// The notes a layout places, in index order, the index of each, and the
/// springs between indices.
pub struct LayoutIndex {
    nodes: Vec<NoteId>,
    index_map: HashMap<u128, u32>,
    edges: Vec<(u32, u32)>,
}

pub struct LayoutIndexV {
    pub nodes: Seq<NoteId>,
    pub index: Map<u128, u32>,
    pub edges: Seq<(u32, u32)>,
}

impl View for LayoutIndex {
    type V = LayoutIndexV;

    closed spec fn view(&self) -> LayoutIndexV {
        LayoutIndexV { nodes: self.nodes@, index: self.index_map@, edges: self.edges@ }
    }
}

/// The index of every node as its position among the nodes, and of nothing
/// else.
pub open spec fn indexes(nodes: Seq<NoteId>, index: Map<u128, u32>) -> bool {
    &&& nodes.len() <= u32::MAX
    &&& forall|i: int| 0 <= i < nodes.len() ==> index.contains_key((#[trigger] nodes[i]).0) && index[nodes[i].0] == i
    &&& forall|id: u128| #[trigger] index.contains_key(id) ==> index[id] < nodes.len() && nodes[index[id] as int].0 == id
}

/// What every layout index satisfies.
pub open spec fn layout_wf(v: LayoutIndexV) -> bool {
    indexes(v.nodes, v.index)
}

/// The springs of the links whose two notes are both placed, in order.
pub open spec fn springs_of(index: Map<u128, u32>, links: Seq<Link>) -> Seq<(u32, u32)>
    decreases links.len(),
{
    if links.len() == 0 {
        Seq::empty()
    } else {
        let before = springs_of(index, links.drop_last());
        let l = links.last();
        if index.contains_key(l.source.0) && index.contains_key(l.target.0) {
            before.push((index[l.source.0], index[l.target.0]))
        } else {
            before
        }
    }
}

/// An index once the node at `i` is taken out: the indices above it move
/// down by one.
pub open spec fn shifted(x: u32, i: nat) -> u32 {
    if x > i {
        (x - 1) as u32
    } else {
        x
    }
}

/// The springs once the node at `i` is taken out, in order: those touching
/// it are dropped and the others follow their nodes to their new indices.
pub open spec fn springs_without(edges: Seq<(u32, u32)>, i: nat) -> Seq<(u32, u32)>
    decreases edges.len(),
{
    if edges.len() == 0 {
        Seq::empty()
    } else {
        let before = springs_without(edges.drop_last(), i);
        let e = edges.last();
        if e.0 == i || e.1 == i {
            before
        } else {
            before.push((shifted(e.0, i), shifted(e.1, i)))
        }
    }
}

impl LayoutIndex {
    /// Every layout index records each placed note under its position.
    #[verifier::type_invariant]
    spec fn well_formed(self) -> bool {
        layout_wf(self@)
    }

    /// An empty layout.
    pub fn new() -> (r: LayoutIndex)
        ensures
            layout_wf(r@),
            r@.nodes == Seq::<NoteId>::empty(),
            r@.edges == Seq::<(u32, u32)>::empty(),
    {
        LayoutIndex { nodes: Vec::new(), index_map: HashMap::new(), edges: Vec::new() }
    }

    /// Places a note under the next index; a note already placed is left
    /// where it is. Whether it was placed now.
    pub fn add_node(&mut self, id: NoteId) -> (r: bool)
        requires
            !old(self)@.index.contains_key(id.0) ==> old(self)@.nodes.len() < u32::MAX,
        ensures
            layout_wf(final(self)@),
            r == !old(self)@.index.contains_key(id.0),
            r ==> final(self)@.nodes == old(self)@.nodes.push(id),
            !r ==> final(self)@.nodes == old(self)@.nodes,
            final(self)@.edges == old(self)@.edges,
    {
        proof {
            use_type_invariant(&*self);
        }
        if self.index_map.contains_key(&id.0) {
            return false;
        }
        let ghost v = self@;
        let mut taken = LayoutIndex::new();
        std::mem::swap(self, &mut taken);
        let LayoutIndex { mut nodes, mut index_map, edges } = taken;
        let idx = nodes.len() as u32;
        nodes.push(id);
        index_map.insert(id.0, idx);
        proof {
            let w = LayoutIndexV { nodes: nodes@, index: index_map@, edges: edges@ };
            assert forall|i: int| 0 <= i < w.nodes.len() implies w.index.contains_key((#[trigger] w.nodes[i]).0)
                && w.index[w.nodes[i].0] == i by {
                if i < v.nodes.len() {
                    assert(w.nodes[i] == v.nodes[i]);
                    assert(v.index.contains_key(v.nodes[i].0));
                }
            }
            assert forall|k: u128| #[trigger] w.index.contains_key(k) implies w.index[k] < w.nodes.len()
                && w.nodes[w.index[k] as int].0 == k by {
                if k != id.0 {
                    assert(v.index.contains_key(k));
                }
            }
        }
        *self = LayoutIndex { nodes, index_map, edges };
        true
    }

    /// Takes a note out; the notes after it move down one index and the
    /// indices are recorded anew. Its springs go, and the others follow
    /// their nodes to their new indices, so that every spring that stays
    /// still joins the two notes it joined before: kept with its old
    /// indices, it would pull on whichever notes had moved into them, and
    /// a spring of the removed note would pull on its successor. The index
    /// the note had, when it was placed.
    pub fn remove_node(&mut self, id: &NoteId) -> (r: Option<usize>)
        ensures
            layout_wf(final(self)@),
            match r {
                None => !old(self)@.index.contains_key(id.0) && final(self)@ == old(self)@,
                Some(i) => old(self)@.index.contains_key(id.0) && i == old(self)@.index[id.0]
                    && final(self)@.nodes == old(self)@.nodes.remove(i as int)
                    && final(self)@.edges == springs_without(old(self)@.edges, i as nat),
            },
    {
        proof {
            use_type_invariant(&*self);
        }
        let ghost v = self@;
        let idx = match self.index_map.get(&id.0) {
            Some(i) => *i as usize,
            None => {
                return None;
            },
        };
        let mut taken = LayoutIndex::new();
        std::mem::swap(self, &mut taken);
        let LayoutIndex { mut nodes, mut index_map, edges } = taken;
        nodes.remove(idx);
        index_map.clear();
        let mut i: usize = 0;
        while i < nodes.len()
            invariant
                i <= nodes.len(),
                nodes@ == v.nodes.remove(idx as int),
                edges@ == v.edges,
                v.nodes.len() <= u32::MAX,
                indexes(v.nodes, v.index),
                idx < v.nodes.len(),
                forall|j: int| 0 <= j < i ==> index_map@.contains_key((#[trigger] nodes@[j]).0)
                    && index_map@[nodes@[j].0] == j,
                forall|k: u128| #[trigger] index_map@.contains_key(k) ==> index_map@[k] < i
                    && nodes@[index_map@[k] as int].0 == k,
            decreases nodes.len() - i,
        {
            let nid = nodes[i].0;
            let ghost before = index_map@;
            proof {
                // The identities are distinct, so this one is not yet recorded.
                if before.contains_key(nid) {
                    let j = before[nid] as int;
                    let n2 = nodes@;
                    let oj = if j < idx { j } else { j + 1 };
                    let oi = if i < idx { i as int } else { i + 1 };
                    assert(n2[j] == v.nodes[oj]);
                    assert(n2[i as int] == v.nodes[oi]);
                    assert(v.index[v.nodes[oj].0] == oj);
                    assert(v.index[v.nodes[oi].0] == oi);
                }
            }
            index_map.insert(nid, i as u32);
            proof {
                assert forall|j: int| 0 <= j < i + 1 implies index_map@.contains_key((#[trigger] nodes@[j]).0)
                    && index_map@[nodes@[j].0] == j by {
                    if j < i {
                        assert(before.contains_key(nodes@[j].0));
                        if nodes@[j].0 == nid {
                            let oj = if j < idx { j } else { j + 1 };
                            let oi = if i < idx { i as int } else { i + 1 };
                            assert(v.index[v.nodes[oj].0] == oj);
                            assert(v.index[v.nodes[oi].0] == oi);
                        }
                    }
                }
            }
            i = i + 1;
        }
        let gone = idx as u32;
        let mut kept: Vec<(u32, u32)> = Vec::new();
        let mut k: usize = 0;
        assert(v.edges.take(0) =~= Seq::<(u32, u32)>::empty());
        while k < edges.len()
            invariant
                k <= edges.len(),
                edges@ == v.edges,
                gone == idx,
                kept@ == springs_without(v.edges.take(k as int), idx as nat),
            decreases edges.len() - k,
        {
            let e = edges[k];
            proof {
                assert(v.edges.take(k + 1).drop_last() =~= v.edges.take(k as int));
                assert(v.edges.take(k + 1).last() == e);
            }
            if e.0 != gone && e.1 != gone {
                let a = if e.0 > gone { e.0 - 1 } else { e.0 };
                let b = if e.1 > gone { e.1 - 1 } else { e.1 };
                kept.push((a, b));
            }
            k = k + 1;
        }
        assert(v.edges.take(v.edges.len() as int) =~= v.edges);
        *self = LayoutIndex { nodes, index_map, edges: kept };
        Some(idx)
    }

    /// Replaces the springs with those of the links whose two notes are
    /// both placed, in the links' order.
    pub fn update_links(&mut self, links: &Vec<Link>)
        ensures
            layout_wf(final(self)@),
            final(self)@.nodes == old(self)@.nodes,
            final(self)@.index == old(self)@.index,
            final(self)@.edges == springs_of(old(self)@.index, links@),
    {
        proof {
            use_type_invariant(&*self);
        }
        let ghost m = self.index_map@;
        let mut edges: Vec<(u32, u32)> = Vec::new();
        let mut i: usize = 0;
        while i < links.len()
            invariant
                i <= links.len(),
                m == self.index_map@,
                edges@ == springs_of(m, links@.take(i as int)),
            decreases links.len() - i,
        {
            let l = links[i];
            proof {
                assert(links@.take(i + 1).drop_last() =~= links@.take(i as int));
                assert(links@.take(i + 1).last() == l);
            }
            match self.index_map.get(&l.source.0) {
                Some(s) => match self.index_map.get(&l.target.0) {
                    Some(t) => {
                        edges.push((*s, *t));
                    },
                    None => {},
                },
                None => {},
            }
            i = i + 1;
        }
        assert(links@.take(links.len() as int) =~= links@);
        let mut taken = LayoutIndex::new();
        std::mem::swap(self, &mut taken);
        let LayoutIndex { nodes, index_map, edges: _ } = taken;
        *self = LayoutIndex { nodes, index_map, edges };
    }

    /// The index of a placed note.
    pub fn index_of(&self, id: &NoteId) -> (r: Option<u32>)
        ensures
            r == (if self@.index.contains_key(id.0) { Some(self@.index[id.0]) } else { None::<u32> }),
    {
        match self.index_map.get(&id.0) {
            Some(i) => Some(*i),
            None => None,
        }
    }

    /// The placed notes, in index order.
    pub fn nodes(&self) -> (r: &Vec<NoteId>)
        ensures
            r@ == self@.nodes,
    {
        &self.nodes
    }

    /// The springs, as index pairs.
    pub fn edges(&self) -> (r: &Vec<(u32, u32)>)
        ensures
            r@ == self@.edges,
    {
        &self.edges
    }
}

} // verus!
