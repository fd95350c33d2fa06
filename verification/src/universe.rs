//! Vault-wide link bookkeeping: the explicit links that the notes'
//! wikilinks stand for, and the notes a rename touches.
use vstd::prelude::*;
use crate::graph::{
    GraphStore, GraphV, graph_consistent, graph_wf, indices_in_range, joins, link_outcome, linked, lists_edges_at, swap_removed,
};
use crate::markdown::links::wikilinks_v;
use crate::markdown::parser::parse_v;
use crate::notes::{Link, LinkKind, Note, NoteId, default_weight_bits};
use crate::text::{lowercase, strings_view, to_lowercase};
use crate::vault::wikilink_targets;

verus! {

/// The wikilink targets of a note body, as `wikilink_targets` gives them.
pub open spec fn targets_of(body: Seq<char>) -> Seq<Seq<char>> {
    match parse_v(body) {
        Some(bs) => wikilinks_v(bs),
        None => Seq::empty(),
    }
}

/// The first note whose lowercased title is `key`.
pub open spec fn owner_of(notes: Seq<Note>, key: Seq<char>) -> Option<NoteId>
    decreases notes.len(),
{
    if notes.len() == 0 {
        None
    } else if lowercase(notes[0].title@) == key {
        Some(notes[0].id)
    } else {
        owner_of(notes.drop_first(), key)
    }
}

/// The pairs (note, target note) that the wikilinks of `body`, written in
/// the note `from`, resolve to among `notes`: targets matched by lowercased
/// title, unresolved targets and links to the note itself left out.
pub open spec fn resolved_pairs(notes: Seq<Note>, from: NoteId, targets: Seq<Seq<char>>) -> Seq<(NoteId, NoteId)>
    decreases targets.len(),
{
    if targets.len() == 0 {
        Seq::empty()
    } else {
        let rest = resolved_pairs(notes, from, targets.drop_last());
        match owner_of(notes, lowercase(targets.last())) {
            Some(to) => if to != from {
                rest.push((from, to))
            } else {
                rest
            },
            None => rest,
        }
    }
}

/// The pairs of all the given notes, in order.
pub open spec fn all_pairs(notes: Seq<Note>, writers: Seq<Note>) -> Seq<(NoteId, NoteId)>
    decreases writers.len(),
{
    if writers.len() == 0 {
        Seq::empty()
    } else {
        all_pairs(notes, writers.drop_last()) + resolved_pairs(
            notes,
            writers.last().id,
            targets_of(writers.last().body@),
        )
    }
}

/// `s` with each element after its first occurrence left out.
pub open spec fn first_occurrences<A>(s: Seq<A>) -> Seq<A>
    decreases s.len(),
{
    if s.len() == 0 {
        Seq::empty()
    } else {
        let rest = first_occurrences(s.drop_last());
        if rest.contains(s.last()) {
            rest
        } else {
            rest.push(s.last())
        }
    }
}

pub open spec fn explicit_link(p: (NoteId, NoteId)) -> Link {
    Link { source: p.0, target: p.1, kind: LinkKind::Explicit, weight_bits: default_weight_bits(LinkKind::Explicit) }
}

/// The explicit links that the notes' wikilinks stand for.
pub open spec fn derived_links(notes: Seq<Note>) -> Seq<Link> {
    first_occurrences(all_pairs(notes, notes)).map_values(|p: (NoteId, NoteId)| explicit_link(p))
}

fn owner_index(lower_titles: &Vec<String>, key: &String) -> (r: Option<usize>)
    ensures
        match r {
            Some(i) => i < lower_titles@.len() && lower_titles@[i as int]@ == key@ && forall|j: int|
                0 <= j < i ==> lower_titles@[j]@ != key@,
            None => forall|j: int| 0 <= j < lower_titles@.len() ==> lower_titles@[j]@ != key@,
        },
{
    let mut i: usize = 0;
    while i < lower_titles.len()
        invariant
            i <= lower_titles.len(),
            forall|j: int| 0 <= j < i ==> lower_titles@[j]@ != key@,
        decreases lower_titles.len() - i,
    {
        if lower_titles[i] == *key {
            return Some(i);
        }
        i = i + 1;
    }
    None
}

proof fn lemma_owner_of(notes: Seq<Note>, lower: Seq<Seq<char>>, key: Seq<char>, i: int)
    requires
        lower.len() == notes.len(),
        forall|j: int| 0 <= j < notes.len() ==> #[trigger] lower[j] == lowercase(notes[j].title@),
        0 <= i <= notes.len(),
        forall|j: int| 0 <= j < i ==> lower[j] != key,
        i < notes.len() ==> lower[i] == key,
    ensures
        owner_of(notes, key) == if i < notes.len() {
            Some(notes[i].id)
        } else {
            None::<NoteId>
        },
    decreases i,
{
    if notes.len() > 0 && i > 0 {
        assert(lower[0] != key);
        lemma_owner_of(notes.drop_first(), lower.drop_first(), key, i - 1);
    } else if notes.len() > 0 {
        assert(lower[0] == key);
    }
}

fn contains_pair(seen: &Vec<(NoteId, NoteId)>, p: (NoteId, NoteId)) -> (r: bool)
    ensures
        r == seen@.contains(p),
{
    let mut i: usize = 0;
    while i < seen.len()
        invariant
            i <= seen.len(),
            forall|j: int| 0 <= j < i ==> seen@[j] != p,
        decreases seen.len() - i,
    {
        let q = seen[i];
        if q.0.0 == p.0.0 && q.1.0 == p.1.0 {
            assert(seen@[i as int] == p);
            return true;
        }
        i = i + 1;
    }
    false
}

/// The explicit links that the notes' wikilinks stand for, in the order
/// the notes and their links come: each target is matched against the
/// titles without regard to case (the first note with a matching title
/// wins), unresolved targets and links of a note to itself are left out,
/// and each pair of notes is linked once.
pub fn derive_explicit_links(notes: &Vec<Note>) -> (r: Vec<Link>)
    ensures
        r@ == derived_links(notes@),
{
    let mut lower_titles: Vec<String> = Vec::new();
    let mut i: usize = 0;
    while i < notes.len()
        invariant
            i <= notes.len(),
            lower_titles@.len() == i,
            forall|j: int| 0 <= j < i ==> #[trigger] lower_titles@[j]@ == lowercase(notes@[j].title@),
        decreases notes.len() - i,
    {
        let ghost before = lower_titles@;
        lower_titles.push(to_lowercase(notes[i].title.as_str()));
        assert forall|j: int| 0 <= j < i + 1 implies #[trigger] lower_titles@[j]@ == lowercase(notes@[j].title@) by {
            if j < i {
                assert(lower_titles@[j] == before[j]);
            }
        }
        i = i + 1;
    }
    let ghost lower = strings_view(lower_titles@);
    assert forall|j: int| 0 <= j < notes@.len() implies #[trigger] lower[j] == lowercase(notes@[j].title@) by {
        assert(lower[j] == lower_titles@[j]@);
    }
    let mut seen: Vec<(NoteId, NoteId)> = Vec::new();
    let mut links: Vec<Link> = Vec::new();
    let mut w: usize = 0;
    assert(notes@.take(0) =~= Seq::<Note>::empty());
    while w < notes.len()
        invariant
            w <= notes.len(),
            lower == strings_view(lower_titles@),
            lower.len() == notes@.len(),
            forall|j: int| 0 <= j < notes@.len() ==> #[trigger] lower[j] == lowercase(notes@[j].title@),
            seen@ == first_occurrences(all_pairs(notes@, notes@.take(w as int))),
            links@ == seen@.map_values(|p: (NoteId, NoteId)| explicit_link(p)),
        decreases notes.len() - w,
    {
        let from = notes[w].id;
        let targets = wikilink_targets(notes[w].body.as_str());
        let ghost tv = strings_view(targets@);
        let ghost done = all_pairs(notes@, notes@.take(w as int));
        proof {
            assert(notes@.take(w + 1).drop_last() =~= notes@.take(w as int));
            assert(notes@.take(w + 1).last() == notes@[w as int]);
            assert(tv.take(0) =~= Seq::<Seq<char>>::empty());
            assert(done + resolved_pairs(notes@, from, tv.take(0)) =~= done);
        }
        let mut t: usize = 0;
        while t < targets.len()
            invariant
                t <= targets.len(),
                tv == strings_view(targets@),
                lower == strings_view(lower_titles@),
                lower.len() == notes@.len(),
                forall|j: int| 0 <= j < notes@.len() ==> #[trigger] lower[j] == lowercase(notes@[j].title@),
                seen@ == first_occurrences(done + resolved_pairs(notes@, from, tv.take(t as int))),
                links@ == seen@.map_values(|p: (NoteId, NoteId)| explicit_link(p)),
            decreases targets.len() - t,
        {
            let key = to_lowercase(targets[t].as_str());
            let ghost prefix = done + resolved_pairs(notes@, from, tv.take(t as int));
            proof {
                assert(tv.take(t + 1).drop_last() =~= tv.take(t as int));
                assert(tv.take(t + 1).last() == targets@[t as int]@);
            }
            match owner_index(&lower_titles, &key) {
                Some(k) => {
                    proof {
                        assert forall|j: int| 0 <= j < k implies lower[j] != key@ by {
                            assert(lower[j] == lower_titles@[j]@);
                        }
                        assert(lower[k as int] == lower_titles@[k as int]@);
                        lemma_owner_of(notes@, lower, key@, k as int);
                    }
                    let to = notes[k].id;
                    if to.0 != from.0 {
                        let p = (from, to);
                        proof {
                            assert(done + resolved_pairs(notes@, from, tv.take(t + 1)) =~= prefix.push(p));
                            assert(prefix.push(p).drop_last() =~= prefix);
                        }
                        if !contains_pair(&seen, p) {
                            seen.push(p);
                            links.push(Link::new(from, to, LinkKind::Explicit));
                            proof {
                                assert(links@ =~= seen@.map_values(|p: (NoteId, NoteId)| explicit_link(p)));
                            }
                        }
                    } else {
                        assert(done + resolved_pairs(notes@, from, tv.take(t + 1)) =~= prefix);
                    }
                },
                None => {
                    proof {
                        assert forall|j: int| 0 <= j < notes@.len() implies lower[j] != key@ by {
                            assert(lower[j] == lower_titles@[j]@);
                        }
                        lemma_owner_of(notes@, lower, key@, notes@.len() as int);
                        assert(done + resolved_pairs(notes@, from, tv.take(t + 1)) =~= prefix);
                    }
                },
            }
            t = t + 1;
        }
        proof {
            assert(tv.take(targets@.len() as int) =~= tv);
            assert(all_pairs(notes@, notes@.take(w + 1)) == done + resolved_pairs(notes@, from, tv));
        }
        w = w + 1;
    }
    assert(notes@.take(notes@.len() as int) =~= notes@);
    links
}

/// A character with ASCII upper-case letters lowered.
pub open spec fn ascii_lower(c: char) -> char {
    if 'A' <= c && c <= 'Z' {
        ((c as u32) + 32) as char
    } else {
        c
    }
}

/// Whether two texts are equal when ASCII letters are compared without case.
pub open spec fn eq_ascii_ci(a: Seq<char>, b: Seq<char>) -> bool {
    a.len() == b.len() && forall|i: int| 0 <= i < a.len() ==> ascii_lower(#[trigger] a[i]) == ascii_lower(b[i])
}

fn lower_ascii_char(c: char) -> (r: char)
    ensures
        r == ascii_lower(c),
{
    if 'A' <= c && c <= 'Z' {
        ((c as u32) + 32) as u8 as char
    } else {
        c
    }
}

pub(crate) fn equal_ignoring_ascii_case(a: &Vec<char>, b: &Vec<char>) -> (r: bool)
    ensures
        r == eq_ascii_ci(a@, b@),
{
    if a.len() != b.len() {
        return false;
    }
    let mut i: usize = 0;
    while i < a.len()
        invariant
            i <= a.len() == b.len(),
            forall|j: int| 0 <= j < i ==> ascii_lower(#[trigger] a@[j]) == ascii_lower(b@[j]),
        decreases a.len() - i,
    {
        if lower_ascii_char(a[i]) != lower_ascii_char(b[i]) {
            return false;
        }
        i = i + 1;
    }
    true
}

/// Whether a note body links to the title, compared without ASCII case.
pub open spec fn links_to_title(body: Seq<char>, title: Seq<char>) -> bool {
    exists|i: int| 0 <= i < targets_of(body).len() && eq_ascii_ci(#[trigger] targets_of(body)[i], title)
}

/// The notes other than `renamed` whose bodies link to `old_title`, in order.
pub open spec fn rename_affected(notes: Seq<Note>, renamed: NoteId, old_title: Seq<char>) -> Seq<NoteId>
    decreases notes.len(),
{
    if notes.len() == 0 {
        Seq::empty()
    } else {
        let rest = rename_affected(notes.drop_last(), renamed, old_title);
        let n = notes.last();
        if n.id != renamed && links_to_title(n.body@, old_title) {
            rest.push(n.id)
        } else {
            rest
        }
    }
}

/// The notes whose links a rename of `renamed` from `old_title` touches:
/// every other note whose body links to the old title, ASCII case aside.
pub fn notes_linking_to(notes: &Vec<Note>, renamed: &NoteId, old_title: &str) -> (r: Vec<NoteId>)
    ensures
        r@ == rename_affected(notes@, *renamed, old_title@),
{
    let old = crate::text::chars_of(old_title);
    let mut out: Vec<NoteId> = Vec::new();
    let mut i: usize = 0;
    while i < notes.len()
        invariant
            i <= notes.len(),
            old@ == old_title@,
            out@ == rename_affected(notes@.take(i as int), *renamed, old_title@),
        decreases notes.len() - i,
    {
        proof {
            assert(notes@.take(i + 1).drop_last() =~= notes@.take(i as int));
            assert(notes@.take(i + 1).last() == notes@[i as int]);
        }
        if notes[i].id.0 != renamed.0 {
            let targets = wikilink_targets(notes[i].body.as_str());
            let ghost tv = strings_view(targets@);
            let mut found = false;
            let mut t: usize = 0;
            while t < targets.len()
                invariant
                    t <= targets.len(),
                    tv == strings_view(targets@),
                    old@ == old_title@,
                    found == exists|k: int| 0 <= k < t && eq_ascii_ci(#[trigger] tv[k], old_title@),
                decreases targets.len() - t,
            {
                let tc = crate::text::chars_of(targets[t].as_str());
                assert(tv[t as int] == targets@[t as int]@);
                if equal_ignoring_ascii_case(&tc, &old) {
                    found = true;
                }
                t = t + 1;
            }
            proof {
                let body = notes@[i as int].body@;
                assert(tv == targets_of(body));
                if found {
                    let k = choose|k: int| 0 <= k < targets@.len() && eq_ascii_ci(#[trigger] tv[k], old_title@);
                    assert(eq_ascii_ci(targets_of(body)[k], old_title@));
                }
                if links_to_title(body, old_title@) {
                    let k = choose|k: int| 0 <= k < targets_of(body).len() && eq_ascii_ci(#[trigger] targets_of(body)[k], old_title@);
                    assert(eq_ascii_ci(tv[k], old_title@));
                }
                assert(found == links_to_title(body, old_title@));
            }
            if found {
                out.push(notes[i].id);
            }
        }
        i = i + 1;
    }
    assert(notes@.take(notes@.len() as int) =~= notes@);
    out
}

// ---------------------------------------------------------------------------
// Keeping a note's explicit links in step with its body.

/// What `GraphStore::unlink_notes` may leave: nothing changed when either
/// note has no recorded node or no link joins their nodes, else one joining
/// edge gone.
pub open spec fn unlink_v(v: GraphV, p: (NoteId, NoteId), w: GraphV) -> bool {
    if !v.index.contains_key(p.0.0) || !v.index.contains_key(p.1.0) || !linked(
        v.edges,
        v.index[p.0.0],
        v.index[p.1.0],
    ) {
        w == v
    } else {
        exists|e: int| 0 <= e < v.edges.len() && #[trigger] joins(v.edges[e], v.index[p.0.0], v.index[p.1.0]) && w == (GraphV {
            edges: swap_removed(v.edges, e),
            ..v
        })
    }
}

/// Whether the states step from one to the next by unlinking the pairs in
/// order.
pub open spec fn unlink_chain(states: Seq<GraphV>, pairs: Seq<(NoteId, NoteId)>) -> bool {
    &&& states.len() == pairs.len() + 1
    &&& forall|i: int| 0 <= i < pairs.len() ==> #[trigger] unlink_v(states[i], pairs[i], states[i + 1])
}

/// What unlinking the pairs in order may leave.
pub open spec fn unlinks_v(v: GraphV, pairs: Seq<(NoteId, NoteId)>, w: GraphV) -> bool {
    exists|states: Seq<GraphV>| #[trigger] unlink_chain(states, pairs) && states[0] == v && states.last() == w
}

/// The (source, target) pairs of the explicit links, among the listed
/// edges, whose source is `id`.
pub open spec fn stale_pairs(v: GraphV, l: Seq<u32>, id: NoteId) -> Seq<(NoteId, NoteId)>
    decreases l.len(),
{
    if l.len() == 0 {
        Seq::empty()
    } else {
        let rest = stale_pairs(v, l.drop_last(), id);
        let link = v.edges[l.last() as int].2;
        if link.kind == LinkKind::Explicit && link.source == id {
            rest.push((link.source, link.target))
        } else {
            rest
        }
    }
}

/// Removes the explicit links a note is the source of, each by unlinking
/// its two ends (a link joining the same two nodes may go in its place).
pub fn unlink_explicit_from(graph: &mut GraphStore, id: &NoteId)
    ensures
        graph_wf(final(graph)@),
        graph_consistent(old(graph)@) ==> graph_consistent(final(graph)@),
        !old(graph)@.index.contains_key(id.0) ==> final(graph)@ == old(graph)@,
        old(graph)@.index.contains_key(id.0) ==> exists|l: Seq<u32>| #[trigger] lists_edges_at(old(graph)@.edges, old(graph)@.index[id.0], l)
            && unlinks_v(old(graph)@, stale_pairs(old(graph)@, l, *id), final(graph)@),
{
    proof {
        use_type_invariant(&*graph);
    }
    let ghost v0 = graph@;
    let links = graph.get_links(id);
    let mut stale: Vec<(NoteId, NoteId)> = Vec::new();
    let ghost mut l: Seq<u32> = Seq::empty();
    proof {
        if v0.index.contains_key(id.0) {
            l = choose|l: Seq<u32>| {
                &&& #[trigger] lists_edges_at(v0.edges, v0.index[id.0], l)
                &&& links@.len() == l.len()
                &&& forall|i: int| 0 <= i < links@.len() ==> *links@[i] == v0.edges[l[i] as int].2
            };
        }
    }
    let mut i: usize = 0;
    while i < links.len()
        invariant
            i <= links.len(),
            v0 == graph@,
            v0.index.contains_key(id.0) ==> {
                &&& links@.len() == l.len()
                &&& forall|q: int| 0 <= q < links@.len() ==> *links@[q] == v0.edges[l[q] as int].2
                &&& stale@ == stale_pairs(v0, l.take(i as int), *id)
            },
            !v0.index.contains_key(id.0) ==> links@.len() == 0 && stale@.len() == 0,
        decreases links.len() - i,
    {
        proof {
            assert(l.take(i + 1).drop_last() =~= l.take(i as int));
            assert(l.take(i + 1).last() == l[i as int]);
        }
        let link = *links[i];
        if link.kind == LinkKind::Explicit && link.source.0 == id.0 {
            stale.push((link.source, link.target));
        }
        i = i + 1;
    }
    let ghost pairs = stale@;
    proof {
        if v0.index.contains_key(id.0) {
            assert(l.take(l.len() as int) =~= l);
        } else {
            assert(stale@.len() == 0);
        }
    }
    let mut k: usize = 0;
    let ghost mut chain: Seq<GraphV> = seq![v0];
    while k < stale.len()
        invariant
            k <= stale.len(),
            pairs == stale@,
            graph_wf(graph@),
            graph_consistent(v0) ==> graph_consistent(graph@),
            unlink_chain(chain, pairs.take(k as int)),
            chain[0] == v0,
            chain.last() == graph@,
        decreases stale.len() - k,
    {
        let ghost mid = graph@;
        let p = stale[k];
        let _ = graph.unlink_notes(&p.0, &p.1);
        proof {
            assert(pairs.take(k + 1).drop_last() =~= pairs.take(k as int));
            assert(pairs.take(k + 1).last() == p);
            if mid.index.contains_key(p.0.0) && mid.index.contains_key(p.1.0) && linked(mid.edges, mid.index[p.0.0], mid.index[p.1.0]) {
                let e = choose|e: int| {
                    &&& 0 <= e < mid.edges.len()
                    &&& joins(mid.edges[e], mid.index[p.0.0], mid.index[p.1.0])
                    &&& graph@ == (GraphV { edges: swap_removed(mid.edges, e), ..mid })
                };
                assert(joins(mid.edges[e], mid.index[p.0.0], mid.index[p.1.0]));
            }
            assert(unlink_v(mid, p, graph@));
            let next = chain.push(graph@);
            assert forall|i: int| 0 <= i < k + 1 implies #[trigger] unlink_v(next[i], pairs.take(k + 1)[i], next[i + 1]) by {
                if i < k {
                    assert(next[i] == chain[i] && next[i + 1] == chain[i + 1]);
                    assert(pairs.take(k + 1)[i] == pairs.take(k as int)[i]);
                    assert(unlink_v(chain[i], pairs.take(k as int)[i], chain[i + 1]));
                } else {
                    assert(next[i] == mid);
                }
            }
            chain = next;
        }
        k = k + 1;
    }
    proof {
        assert(pairs.take(pairs.len() as int) =~= pairs);
        assert(unlink_chain(chain, pairs));
        if !v0.index.contains_key(id.0) {
            assert(pairs.len() == 0);
        }
    }
}

/// The note whose lowercased title is `key`, the last entry for it winning.
pub open spec fn title_target(titles: Seq<(Seq<char>, NoteId)>, key: Seq<char>) -> Option<NoteId>
    decreases titles.len(),
{
    if titles.len() == 0 {
        None
    } else if titles.last().0 == key {
        Some(titles.last().1)
    } else {
        title_target(titles.drop_last(), key)
    }
}

/// Linking the note `from` explicitly to each target, in order, that
/// resolves through the titles to another note; a link that cannot be made
/// is passed over.
pub open spec fn link_targets_v(v: GraphV, from: NoteId, targets: Seq<Seq<char>>, titles: Seq<(Seq<char>, NoteId)>) -> GraphV
    decreases targets.len(),
{
    if targets.len() == 0 {
        v
    } else {
        let v1 = link_targets_v(v, from, targets.drop_last(), titles);
        match title_target(titles, lowercase(targets.last())) {
            None => v1,
            Some(t) => if t == from {
                v1
            } else {
                match link_outcome(v1, from, t, LinkKind::Explicit) {
                    Ok((_, w)) => w,
                    Err(_) => v1,
                }
            },
        }
    }
}

pub open spec fn titles_view(t: Seq<(String, NoteId)>) -> Seq<(Seq<char>, NoteId)> {
    t.map_values(|p: (String, NoteId)| (p.0@, p.1))
}

fn find_title(titles: &Vec<(String, NoteId)>, key: &String) -> (r: Option<NoteId>)
    ensures
        r == title_target(titles_view(titles@), key@),
{
    let ghost tv = titles_view(titles@);
    let mut i: usize = titles.len();
    assert(tv.take(titles.len() as int) =~= tv);
    while i > 0
        invariant
            i <= titles.len(),
            tv == titles_view(titles@),
            title_target(tv, key@) == title_target(tv.take(i as int), key@),
        decreases i,
    {
        proof {
            assert(tv.take(i as int).drop_last() =~= tv.take(i - 1));
            assert(tv.take(i as int).last() == (titles@[i - 1].0@, titles@[i - 1].1));
        }
        if titles[i - 1].0 == *key {
            return Some(titles[i - 1].1);
        }
        i = i - 1;
    }
    None
}

/// Links a note explicitly to the notes its body's wikilinks name, as
/// `link_targets_v` says, titles resolving through the given lowercased
/// titles (later entries win); nothing when the note is not stored.
pub fn link_wikilink_targets(graph: &mut GraphStore, id: &NoteId, titles: &Vec<(String, NoteId)>)
    requires
        indices_in_range(old(graph)@),
        old(graph)@.notes.contains_key(id.0) ==> old(graph)@.edges.len() + targets_of(
            old(graph)@.notes[id.0].body@,
        ).len() < u32::MAX,
    ensures
        graph_wf(final(graph)@),
        indices_in_range(final(graph)@),
        graph_consistent(old(graph)@) ==> graph_consistent(final(graph)@),
        !old(graph)@.notes.contains_key(id.0) ==> final(graph)@ == old(graph)@,
        old(graph)@.notes.contains_key(id.0) ==> final(graph)@ == link_targets_v(
            old(graph)@,
            *id,
            targets_of(old(graph)@.notes[id.0].body@),
            titles_view(titles@),
        ),
{
    proof {
        use_type_invariant(&*graph);
    }
    let ghost v0 = graph@;
    let body = match graph.get_note(id) {
        Some(n) => n.body.clone(),
        None => {
            return;
        },
    };
    let targets = wikilink_targets(body.as_str());
    let ghost tv = strings_view(targets@);
    let ghost ttl = titles_view(titles@);
    let mut t: usize = 0;
    assert(tv.take(0) =~= Seq::<Seq<char>>::empty());
    while t < targets.len()
        invariant
            t <= targets.len(),
            tv == strings_view(targets@),
            tv == targets_of(v0.notes[id.0].body@),
            ttl == titles_view(titles@),
            v0.notes.contains_key(id.0),
            v0.edges.len() + tv.len() < u32::MAX,
            graph_wf(graph@),
            indices_in_range(graph@),
            graph_consistent(v0) ==> graph_consistent(graph@),
            graph@.edges.len() <= v0.edges.len() + t,
            graph@.notes == v0.notes,
            graph@ == link_targets_v(v0, *id, tv.take(t as int), ttl),
        decreases targets.len() - t,
    {
        proof {
            assert(tv.take(t + 1).drop_last() =~= tv.take(t as int));
            assert(tv.take(t + 1).last() == targets@[t as int]@);
        }
        let key = to_lowercase(targets[t].as_str());
        match find_title(titles, &key) {
            Some(target) => {
                if target.0 != id.0 {
                    let ghost v = graph@;
                    proof {
                        if v.notes.contains_key(target.0) {
                            assert(v.index.contains_key(id.0));
                            assert(v.index.contains_key(target.0));
                        }
                    }
                    let _ = graph.link_notes(id, &target, LinkKind::Explicit);
                } else {
                    assert(target == *id);
                }
            },
            None => {},
        }
        t = t + 1;
    }
    assert(tv.take(targets.len() as int) =~= tv);
}

/// Unlinking keeps the notes, nodes and recorded indices, and removes edges
/// only.
proof fn lemma_unlinks_keep(v: GraphV, pairs: Seq<(NoteId, NoteId)>, w: GraphV)
    requires
        unlinks_v(v, pairs, w),
    ensures
        w.notes == v.notes,
        w.nodes == v.nodes,
        w.index == v.index,
        w.edges.len() <= v.edges.len(),
{
    let states = choose|states: Seq<GraphV>| #[trigger] unlink_chain(states, pairs) && states[0] == v && states.last() == w;
    lemma_chain_keep(states, pairs, pairs.len() as int);
}

proof fn lemma_chain_keep(states: Seq<GraphV>, pairs: Seq<(NoteId, NoteId)>, i: int)
    requires
        unlink_chain(states, pairs),
        0 <= i <= pairs.len(),
    ensures
        states[i].notes == states[0].notes,
        states[i].nodes == states[0].nodes,
        states[i].index == states[0].index,
        states[i].edges.len() <= states[0].edges.len(),
    decreases i,
{
    if i > 0 {
        lemma_chain_keep(states, pairs, i - 1);
        let j = i - 1;
        assert(unlink_v(states[j], pairs[j], states[j + 1]));
    }
}

/// The lowercased titles of the store's notes, in some order of their
/// identities.
pub open spec fn titles_of(v: GraphV, titles: Seq<(Seq<char>, NoteId)>) -> bool {
    exists|keys: Seq<u128>| {
        &&& keys.no_duplicates()
        &&& keys.to_set() == v.notes.dom()
        &&& #[trigger] keys.len() == titles.len()
        &&& forall|i: int| 0 <= i < keys.len() ==> titles[i] == (lowercase(v.notes[keys[i]].title@), v.notes[keys[i]].id)
    }
}

/// Replaces a note's outgoing explicit links with those its body's
/// wikilinks name: its explicit links are unlinked first, then each
/// wikilink target is resolved by lowercased title (among equal titles the
/// note that comes last in the store's order wins) and linked.
pub fn recompute_explicit_links(graph: &mut GraphStore, id: &NoteId)
    requires
        indices_in_range(old(graph)@),
        old(graph)@.notes.contains_key(id.0) ==> old(graph)@.edges.len() + targets_of(
            old(graph)@.notes[id.0].body@,
        ).len() < u32::MAX,
    ensures
        graph_wf(final(graph)@),
        indices_in_range(final(graph)@),
        graph_consistent(old(graph)@) ==> graph_consistent(final(graph)@),
        exists|mid: GraphV, titles: Seq<(Seq<char>, NoteId)>| {
            &&& #[trigger] titles_of(mid, titles)
            &&& !old(graph)@.index.contains_key(id.0) ==> mid == old(graph)@
            &&& old(graph)@.index.contains_key(id.0) ==> exists|l: Seq<u32>| #[trigger] lists_edges_at(old(graph)@.edges, old(graph)@.index[id.0], l)
                && unlinks_v(old(graph)@, stale_pairs(old(graph)@, l, *id), mid)
            &&& final(graph)@ == if mid.notes.contains_key(id.0) {
                link_targets_v(mid, *id, targets_of(mid.notes[id.0].body@), titles)
            } else {
                mid
            }
        },
{
    proof {
        use_type_invariant(&*graph);
    }
    let ghost v0 = graph@;
    unlink_explicit_from(graph, id);
    let ghost mid = graph@;
    proof {
        if v0.index.contains_key(id.0) {
            let l = choose|l: Seq<u32>| #[trigger] lists_edges_at(v0.edges, v0.index[id.0], l) && unlinks_v(v0, stale_pairs(v0, l, *id), mid);
            lemma_unlinks_keep(v0, stale_pairs(v0, l, *id), mid);
        }
    }
    let notes = graph.all_notes();
    let mut titles: Vec<(String, NoteId)> = Vec::new();
    let mut i: usize = 0;
    while i < notes.len()
        invariant
            i <= notes.len(),
            titles@.len() == i,
            forall|q: int| 0 <= q < i ==> #[trigger] titles_view(titles@)[q] == (lowercase(notes@[q].title@), notes@[q].id),
        decreases notes.len() - i,
    {
        let ghost before = titles@;
        titles.push((to_lowercase(notes[i].title.as_str()), notes[i].id));
        assert forall|q: int| 0 <= q < i + 1 implies #[trigger] titles_view(titles@)[q] == (lowercase(notes@[q].title@), notes@[q].id) by {
            if q < i {
                assert(titles@[q] == before[q]);
                assert(titles_view(titles@)[q] == titles_view(before)[q]);
            }
        }
        i = i + 1;
    }
    proof {
        let keys = choose|keys: Seq<u128>| {
            &&& keys.no_duplicates()
            &&& keys.to_set() == mid.notes.dom()
            &&& #[trigger] keys.len() == notes@.len()
            &&& forall|q: int| 0 <= q < notes@.len() ==> *notes@[q] == mid.notes[keys[q]]
        };
        assert(keys.len() == titles_view(titles@).len());
        assert(titles_of(mid, titles_view(titles@)));
    }
    link_wikilink_targets(graph, id, &titles);
    proof {
        assert(titles_of(mid, titles_view(titles@)));
    }
}

} // verus!
