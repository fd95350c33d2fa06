//! Auto-linking: the implicit links created between a note and the notes a
//! similarity search found for it. Embedding, searching and scoring are
//! the caller's; it hands over each hit with the verdict of the score
//! floor.
use vstd::prelude::*;
use crate::error::PenumbraError;
use crate::graph::{
    EdgeV, GraphStore, GraphV, LinkFailure, edge_at, failure_reported, graph_consistent, graph_wf, indices_in_range, link_outcome,
    lists_edges_at, touches,
};
use crate::notes::{Link, LinkKind, NoteId};

verus! {

/// A search hit as auto-linking sees it: the note found, and whether its
/// similarity reaches the configured floor.
#[derive(Debug, Clone, Copy)]
pub struct LinkCandidate {
    pub id: NoteId,
    pub above_floor: bool,
}

/// How many neighbours are asked of the index by default.
pub const DEFAULT_TOP_K: usize = 10;

/// How many implicit links one pass may create by default.
pub const DEFAULT_MAX_LINKS: usize = 5;

/// Whether some link at the note's node already has `other` as an end.
pub open spec fn has_link_with(v: GraphV, note: NoteId, other: NoteId) -> bool {
    &&& v.index.contains_key(note.0)
    &&& exists|k: int| 0 <= k < v.edges.len() && touches(#[trigger] v.edges[k], v.index[note.0]) && (v.edges[k].2.source == other
        || v.edges[k].2.target == other)
}

/// Auto-linking the hits in order: a hit that is the note itself or below
/// the floor is passed over; once `max_links` links were made the rest is
/// left; a hit already linked to the note is passed over; otherwise an
/// implicit link is made, and a failure to make it ends the pass. The store
/// after it, the links made, and the failure with the hit it came from.
pub open spec fn auto_link_v(
    v: GraphV,
    note: NoteId,
    hits: Seq<LinkCandidate>,
    max_links: nat,
    created: Seq<Link>,
) -> (GraphV, Seq<Link>, Option<(LinkFailure, NoteId)>)
    decreases hits.len(),
{
    if hits.len() == 0 {
        (v, created, None)
    } else {
        let h = hits[0];
        if h.id == note || !h.above_floor {
            auto_link_v(v, note, hits.drop_first(), max_links, created)
        } else if created.len() >= max_links {
            (v, created, None)
        } else if has_link_with(v, note, h.id) {
            auto_link_v(v, note, hits.drop_first(), max_links, created)
        } else {
            match link_outcome(v, note, h.id, LinkKind::Implicit) {
                Err(f) => (v, created, Some((f, h.id))),
                Ok((l, w)) => auto_link_v(w, note, hits.drop_first(), max_links, created.push(l)),
            }
        }
    }
}

proof fn lemma_auto_link_grows(v: GraphV, note: NoteId, hits: Seq<LinkCandidate>, max_links: nat, created: Seq<Link>)
    ensures
        auto_link_v(v, note, hits, max_links, created).0.edges.len() <= v.edges.len() + hits.len(),
    decreases hits.len(),
{
    if hits.len() > 0 {
        let h = hits[0];
        lemma_auto_link_grows(v, note, hits.drop_first(), max_links, created);
        match link_outcome(v, note, h.id, LinkKind::Implicit) {
            Ok((l, w)) => lemma_auto_link_grows(w, note, hits.drop_first(), max_links, created.push(l)),
            Err(_) => {},
        }
    }
}

/// The links of the edges from index `from` on.
pub open spec fn links_from(edges: Seq<EdgeV>, from: int) -> Seq<Link> {
    edges.skip(from).map_values(|e: EdgeV| e.2)
}

/// Auto-linking only adds: the notes, nodes and recorded indices stay, the
/// edges there were stay first and in order, each edge added is an
/// implicit link from the note, and the links reported made are those
/// before the pass followed by the added edges' links.
pub proof fn lemma_auto_link_only_adds(v: GraphV, note: NoteId, hits: Seq<LinkCandidate>, max_links: nat, created: Seq<Link>)
    ensures
        ({
            let (w, links, _) = auto_link_v(v, note, hits, max_links, created);
            &&& w.notes == v.notes
            &&& w.nodes == v.nodes
            &&& w.index == v.index
            &&& v.edges.len() <= w.edges.len()
            &&& w.edges.take(v.edges.len() as int) == v.edges
            &&& forall|i: int| v.edges.len() <= i < w.edges.len() ==> (#[trigger] w.edges[i]).2.kind == LinkKind::Implicit
                && w.edges[i].2.source == note
            &&& links == created + links_from(w.edges, v.edges.len() as int)
        }),
    decreases hits.len(),
{
    let (w, links, _) = auto_link_v(v, note, hits, max_links, created);
    if hits.len() == 0 {
        assert(links_from(w.edges, v.edges.len() as int) =~= Seq::<Link>::empty());
        assert(w.edges.take(v.edges.len() as int) =~= v.edges);
        assert(created + Seq::<Link>::empty() =~= created);
    } else {
        let h = hits[0];
        if h.id == note || !h.above_floor || has_link_with(v, note, h.id) && created.len() < max_links {
            lemma_auto_link_only_adds(v, note, hits.drop_first(), max_links, created);
        } else if created.len() >= max_links {
            assert(links_from(w.edges, v.edges.len() as int) =~= Seq::<Link>::empty());
            assert(w.edges.take(v.edges.len() as int) =~= v.edges);
            assert(created + Seq::<Link>::empty() =~= created);
        } else {
            match link_outcome(v, note, h.id, LinkKind::Implicit) {
                Err(_) => {
                    assert(links_from(w.edges, v.edges.len() as int) =~= Seq::<Link>::empty());
                    assert(w.edges.take(v.edges.len() as int) =~= v.edges);
                    assert(created + Seq::<Link>::empty() =~= created);
                },
                Ok((l, w1)) => {
                    lemma_auto_link_only_adds(w1, note, hits.drop_first(), max_links, created.push(l));
                    let n = v.edges.len() as int;
                    assert(w1.edges.len() == n + 1);
                    assert(w.edges.take(n + 1) == w1.edges);
                    assert(w.edges.take(n) =~= w1.edges.take(n));
                    assert(w1.edges.take(n) =~= v.edges);
                    assert(w.edges[n] == w1.edges[n]);
                    assert(links_from(w.edges, n) =~= seq![l] + links_from(w.edges, n + 1));
                    assert(created.push(l) + links_from(w.edges, n + 1) =~= created + (seq![l] + links_from(w.edges, n + 1)));
                },
            }
        }
    }
}

proof fn lemma_same_error<A, B>(f: LinkFailure, source: NoteId, target: NoteId, e: PenumbraError)
    requires
        failure_reported(f, source, target, Err::<A, PenumbraError>(e)),
    ensures
        failure_reported(f, source, target, Err::<B, PenumbraError>(e)),
{
}

fn already_linked(graph: &GraphStore, note: &NoteId, other: NoteId) -> (r: bool)
    requires
        graph@.edges.len() <= u32::MAX,
    ensures
        r == has_link_with(graph@, *note, other),
{
    proof {
        use_type_invariant(graph);
    }
    let links = graph.get_links(note);
    let ghost v = graph@;
    let mut found = false;
    let mut i: usize = 0;
    while i < links.len()
        invariant
            i <= links.len(),
            found == exists|q: int| 0 <= q < i && ((#[trigger] links@[q]).source == other || links@[q].target == other),
        decreases links.len() - i,
    {
        if links[i].source.0 == other.0 || links[i].target.0 == other.0 {
            found = true;
        }
        i = i + 1;
    }
    proof {
        if v.index.contains_key(note.0) {
            let idx = v.index[note.0];
            let l = choose|l: Seq<u32>| {
                &&& #[trigger] lists_edges_at(v.edges, idx, l)
                &&& links@.len() == l.len()
                &&& forall|q: int| 0 <= q < links@.len() ==> *links@[q] == v.edges[l[q] as int].2
            };
            if found {
                let q = choose|q: int| 0 <= q < links@.len() && ((#[trigger] links@[q]).source == other || links@[q].target == other);
                assert(l.contains(l[q]));
                assert(edge_at(v.edges, idx, l[q]));
                assert(touches(v.edges[l[q] as int], idx));
            }
            if has_link_with(v, *note, other) {
                let k = choose|k: int| 0 <= k < v.edges.len() && touches(#[trigger] v.edges[k], idx) && (v.edges[k].2.source
                    == other || v.edges[k].2.target == other);
                assert(edge_at(v.edges, idx, k as u32));
                assert(l.contains(k as u32));
                let q = choose|q: int| 0 <= q < l.len() && l[q] == k as u32;
                assert(*links@[q] == v.edges[k].2);
            }
        }
    }
    found
}

/// Makes implicit links from a note to the hits of a similarity search, in
/// order, as `auto_link_v` says: the links made, or the error of the first
/// link that could not be made (the links made before it stay).
pub fn link_candidates(graph: &mut GraphStore, note: &NoteId, hits: &Vec<LinkCandidate>, max_links: usize) -> (r: Result<Vec<Link>, PenumbraError>)
    requires
        indices_in_range(old(graph)@),
        old(graph)@.edges.len() + hits@.len() < u32::MAX,
    ensures
        graph_wf(final(graph)@),
        indices_in_range(final(graph)@),
        graph_consistent(old(graph)@) ==> graph_consistent(final(graph)@),
        ({
            let (w, links, failure) = auto_link_v(old(graph)@, *note, hits@, max_links as nat, Seq::empty());
            &&& final(graph)@ == w
            &&& match failure {
                None => r matches Ok(ls) && ls@ == links,
                Some((f, target)) => failure_reported(f, *note, target, r),
            }
        }),
{
    proof {
        use_type_invariant(&*graph);
    }
    let ghost v0 = graph@;
    let mut created: Vec<Link> = Vec::new();
    let mut i: usize = 0;
    assert(hits@.skip(0) =~= hits@);
    while i < hits.len()
        invariant
            i <= hits.len(),
            v0 == old(graph)@,
            graph_wf(graph@),
            indices_in_range(graph@),
            graph_consistent(v0) ==> graph_consistent(graph@),
            graph@.edges.len() + (hits@.len() - i) < u32::MAX,
            auto_link_v(v0, *note, hits@, max_links as nat, Seq::empty()) == auto_link_v(
                graph@,
                *note,
                hits@.skip(i as int),
                max_links as nat,
                created@,
            ),
        decreases hits.len() - i,
    {
        let hit = hits[i];
        let ghost rest = hits@.skip(i as int);
        proof {
            assert(rest[0] == hit);
            assert(rest.drop_first() =~= hits@.skip(i + 1));
        }
        if hit.id.0 == note.0 || !hit.above_floor {
            i = i + 1;
            continue;
        }
        assert(hit.id != *note);
        if created.len() >= max_links {
            assert(auto_link_v(graph@, *note, rest, max_links as nat, created@) == (graph@, created@, None::<(LinkFailure, NoteId)>));
            return Ok(created);
        }
        if already_linked(graph, note, hit.id) {
            i = i + 1;
            continue;
        }
        proof {
            let v = graph@;
            if v.notes.contains_key(note.0) && v.notes.contains_key(hit.id.0) {
                assert(v.index.contains_key(note.0));
                assert(v.index.contains_key(hit.id.0));
            }
        }
        let ghost before = graph@;
        match graph.link_notes(note, &hit.id, LinkKind::Implicit) {
            Ok(link) => {
                created.push(link);
            },
            Err(e) => {
                proof {
                    let f = link_outcome(before, *note, hit.id, LinkKind::Implicit)->Err_0;
                    assert(auto_link_v(before, *note, rest, max_links as nat, created@) == (before, created@, Some((f, hit.id))));
                    lemma_same_error::<Link, Vec<Link>>(f, *note, hit.id, e);
                }
                return Err(e);
            },
        }
        i = i + 1;
    }
    Ok(created)
}

} // verus!
