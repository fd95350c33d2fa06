use penumbra::autolink::{link_candidates, LinkCandidate, DEFAULT_MAX_LINKS, DEFAULT_TOP_K};
use penumbra::error::PenumbraError;
use penumbra::graph::GraphStore;
use penumbra::notes::{Link, LinkKind, Note, NoteId, NoteMeta, Timestamp};
use penumbra::universe::{
    derive_explicit_links, link_wikilink_targets, notes_linking_to, recompute_explicit_links, unlink_explicit_from,
};

fn note(raw: u128, title: &str, body: &str) -> Note {
    let t = Timestamp { secs: 0, nanos: 0 };
    Note {
        id: NoteId(raw),
        title: title.to_string(),
        body: body.to_string(),
        tags: Vec::new(),
        meta: NoteMeta { created_at: t, updated_at: t, pinned: false, archived: false },
    }
}

fn hit(raw: u128, above_floor: bool) -> LinkCandidate {
    LinkCandidate { id: NoteId(raw), above_floor }
}

#[test]
fn wikilinks_become_explicit_links_once() {
    let notes = vec![
        note(1, "Alpha", "[[beta]] [[Beta]] [[Missing]] [[Alpha]]"),
        note(2, "Beta", "back to [[alpha]]"),
        note(3, "beta", ""),
    ];
    assert_eq!(
        derive_explicit_links(&notes),
        vec![
            Link::new(NoteId(1), NoteId(2), LinkKind::Explicit),
            Link::new(NoteId(2), NoteId(1), LinkKind::Explicit),
        ]
    );
}

#[test]
fn no_wikilinks_no_links() {
    assert!(derive_explicit_links(&vec![note(1, "A", "plain"), note(2, "B", "")]).is_empty());
}

#[test]
fn rename_touches_linking_notes() {
    let notes = vec![
        note(1, "Old", "self mention [[Old]]"),
        note(2, "Two", "see [[old]]"),
        note(3, "Three", "see [[Other]]"),
        note(4, "Four", "alias [[OLD|x]]"),
    ];
    assert_eq!(notes_linking_to(&notes, &NoteId(1), "Old"), vec![NoteId(2), NoteId(4)]);
    assert!(notes_linking_to(&notes, &NoteId(1), "Nobody").is_empty());
}

#[test]
fn auto_linking_follows_hits_in_order() {
    let mut g = GraphStore::new();
    for i in 1..=4u128 {
        assert!(g.add_note(note(i, &format!("n{i}"), "")));
    }
    let hits = vec![hit(1, true), hit(2, true), hit(3, false), hit(4, true), hit(2, true)];
    let links = link_candidates(&mut g, &NoteId(1), &hits, DEFAULT_MAX_LINKS).unwrap();
    assert_eq!(
        links,
        vec![
            Link::new(NoteId(1), NoteId(2), LinkKind::Implicit),
            Link::new(NoteId(1), NoteId(4), LinkKind::Implicit),
        ]
    );
    assert_eq!(g.link_count(), 2);
    assert_eq!(DEFAULT_TOP_K, 10);
}

#[test]
fn auto_linking_stops_at_the_limit() {
    let mut g = GraphStore::new();
    for i in 1..=3u128 {
        assert!(g.add_note(note(i, "t", "")));
    }
    let links = link_candidates(&mut g, &NoteId(1), &vec![hit(2, true), hit(3, true)], 1).unwrap();
    assert_eq!(links.len(), 1);
    assert_eq!(links[0].target, NoteId(2));
    assert_eq!(g.link_count(), 1);
}

#[test]
fn auto_linking_to_an_unknown_note_fails() {
    let mut g = GraphStore::new();
    assert!(g.add_note(note(1, "a", "")));
    match link_candidates(&mut g, &NoteId(1), &vec![hit(9, true)], 5) {
        Err(PenumbraError::NoteNotFound(m)) => assert_eq!(m, NoteId(9).to_string()),
        _ => panic!("expected note not found"),
    }
}

fn explicit_pairs(g: &GraphStore) -> Vec<(u128, u128)> {
    let mut pairs: Vec<(u128, u128)> =
        g.all_links().into_iter().filter(|l| l.kind == LinkKind::Explicit).map(|l| (l.source.0, l.target.0)).collect();
    pairs.sort();
    pairs
}

#[test]
fn recompute_follows_the_body() {
    let mut g = GraphStore::new();
    assert!(g.add_note(note(1, "A", "see [[b]] and [[C]] and [[a]]")));
    assert!(g.add_note(note(2, "B", "")));
    assert!(g.add_note(note(3, "C", "")));
    recompute_explicit_links(&mut g, &NoteId(1));
    assert_eq!(explicit_pairs(&g), vec![(1, 2), (1, 3)]);
    g.update_note(&NoteId(1), |mut n| {
        n.body = "only [[C]] now".to_string();
        n
    })
    .unwrap();
    recompute_explicit_links(&mut g, &NoteId(1));
    assert_eq!(explicit_pairs(&g), vec![(1, 3)]);
    assert_eq!(g.link_count(), 1);
}

#[test]
fn recompute_keeps_implicit_links_and_unknown_notes_alone() {
    let mut g = GraphStore::new();
    assert!(g.add_note(note(1, "A", "")));
    assert!(g.add_note(note(2, "B", "")));
    g.link_notes(&NoteId(1), &NoteId(2), LinkKind::Implicit).unwrap();
    recompute_explicit_links(&mut g, &NoteId(1));
    assert_eq!(g.link_count(), 1);
    recompute_explicit_links(&mut g, &NoteId(9));
    assert_eq!(g.link_count(), 1);
}

#[test]
fn unlinking_explicit_links_spares_incoming_ones() {
    let mut g = GraphStore::new();
    assert!(g.add_note(note(1, "A", "")));
    assert!(g.add_note(note(2, "B", "")));
    assert!(g.add_note(note(3, "C", "")));
    g.link_notes(&NoteId(1), &NoteId(2), LinkKind::Explicit).unwrap();
    g.link_notes(&NoteId(3), &NoteId(1), LinkKind::Explicit).unwrap();
    unlink_explicit_from(&mut g, &NoteId(1));
    assert_eq!(explicit_pairs(&g), vec![(3, 1)]);
}

#[test]
fn later_titles_win_when_linking_targets() {
    let mut g = GraphStore::new();
    assert!(g.add_note(note(1, "A", "[[Twin]] [[nobody]]")));
    assert!(g.add_note(note(2, "Twin", "")));
    assert!(g.add_note(note(3, "twin", "")));
    let titles = vec![("twin".to_string(), NoteId(2)), ("twin".to_string(), NoteId(3))];
    link_wikilink_targets(&mut g, &NoteId(1), &titles);
    assert_eq!(explicit_pairs(&g), vec![(1, 3)]);
}

#[test]
fn index_checks_after_removing_notes() {
    let mut g = GraphStore::new();
    assert!(g.add_note(note(1, "A", "")));
    assert!(g.add_note(note(2, "B", "")));
    assert!(g.add_note(note(3, "C", "")));
    g.link_notes(&NoteId(1), &NoteId(2), LinkKind::Explicit).unwrap();
    assert!(g.indices_in_range_now());
    assert!(g.can_remove(&NoteId(1)));
    assert!(g.can_remove(&NoteId(7)));
    assert!(g.remove_note(&NoteId(1)).is_some());
    // the last node moved into the gap; its recorded index is now stale
    assert!(!g.indices_in_range_now());
}

#[test]
fn auto_linking_keeps_explicit_links() {
    let mut g = GraphStore::new();
    for i in 1..=3u128 {
        assert!(g.add_note(note(i, "t", "")));
    }
    g.link_notes(&NoteId(1), &NoteId(2), LinkKind::Explicit).unwrap();
    let links = link_candidates(&mut g, &NoteId(1), &vec![hit(2, true), hit(3, true)], 5).unwrap();
    assert_eq!(links, vec![Link::new(NoteId(1), NoteId(3), LinkKind::Implicit)]);
    assert_eq!(explicit_pairs(&g), vec![(1, 2)]);
    assert_eq!(g.link_count(), 2);
}
