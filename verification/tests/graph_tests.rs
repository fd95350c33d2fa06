use penumbra::error::PenumbraError;
use penumbra::graph::{GraphSnapshot, GraphStore};
use penumbra::notes::{Link, LinkKind, Note, NoteId, NoteMeta, Timestamp, EXPLICIT_WEIGHT_BITS, IMPLICIT_WEIGHT_BITS};

fn note(raw: u128, title: &str) -> Note {
    let t = Timestamp { secs: 0, nanos: 0 };
    Note {
        id: NoteId::from_raw(raw),
        title: title.to_string(),
        body: String::new(),
        tags: Vec::new(),
        meta: NoteMeta { created_at: t, updated_at: t, pinned: false, archived: false },
    }
}

fn store_with(ids: &[u128]) -> GraphStore {
    let mut g = GraphStore::new();
    for &i in ids {
        assert!(g.add_note(note(i, &format!("n{i}"))));
    }
    g
}

fn component(g: &GraphStore, raw: u128) -> Vec<u128> {
    let mut v: Vec<u128> = g.get_connected_component(&NoteId(raw)).into_iter().collect();
    v.sort();
    v
}

#[test]
fn note_id_text_is_hyphenated_uuid() {
    let id = NoteId::from_raw(0x0123_4567_89ab_cdef_0011_2233_4455_6677);
    assert_eq!(id.to_string(), "01234567-89ab-cdef-0011-223344556677");
    assert_eq!(id.as_u128(), 0x0123_4567_89ab_cdef_0011_2233_4455_6677);
    assert_eq!(NoteId(0).to_string(), "00000000-0000-0000-0000-000000000000");
}

#[test]
fn fresh_note_ids_differ() {
    assert_ne!(NoteId::new(), NoteId::new());
    assert_ne!(NoteId::default(), NoteId::default());
}

#[test]
fn new_note_has_no_tags_and_equal_times() {
    let n = Note::new("T".to_string(), "B".to_string());
    assert_eq!(n.title, "T");
    assert_eq!(n.body, "B");
    assert!(n.tags.is_empty());
    assert_eq!(n.meta.created_at, n.meta.updated_at);
    assert!(!n.meta.pinned && !n.meta.archived);
    let d = NoteMeta::default();
    assert_eq!(d.created_at, d.updated_at);
}

#[test]
fn touch_moves_only_the_update_time() {
    let mut n = note(5, "x");
    n.touch();
    assert_eq!(n.meta.created_at, Timestamp { secs: 0, nanos: 0 });
    assert_ne!(n.meta.updated_at, Timestamp { secs: 0, nanos: 0 });
    assert_eq!(n.title, "x");
}

#[test]
fn link_weights_follow_kind() {
    let a = NoteId(1);
    let b = NoteId(2);
    let e = Link::new(a, b, LinkKind::Explicit);
    assert_eq!(f64::from_bits(e.weight_bits), 1.0);
    assert_eq!(e.weight_bits, EXPLICIT_WEIGHT_BITS);
    let i = Link::new(a, b, LinkKind::Implicit);
    assert_eq!(f64::from_bits(i.weight_bits), 0.5);
    assert_eq!(i.weight_bits, IMPLICIT_WEIGHT_BITS);
    let w = Link::with_weight(a, b, LinkKind::Implicit, 0.25f64.to_bits());
    assert_eq!(f64::from_bits(w.weight_bits), 0.25);
}

#[test]
fn link_other_end() {
    let l = Link::new(NoteId(1), NoteId(2), LinkKind::Explicit);
    assert_eq!(l.other(&NoteId(1)), Some(NoteId(2)));
    assert_eq!(l.other(&NoteId(2)), Some(NoteId(1)));
    assert_eq!(l.other(&NoteId(3)), None);
}

#[test]
fn adding_a_note_twice_is_refused() {
    let mut g = GraphStore::new();
    assert!(g.add_note(note(1, "a")));
    assert!(!g.add_note(note(1, "again")));
    assert_eq!(g.note_count(), 1);
    assert_eq!(g.get_note(&NoteId(1)).unwrap().title, "a");
    assert!(g.get_note(&NoteId(9)).is_none());
}

#[test]
fn linking_and_unlinking() {
    let mut g = store_with(&[1, 2]);
    let l = g.link_notes(&NoteId(1), &NoteId(2), LinkKind::Explicit).unwrap();
    assert_eq!(l.source, NoteId(1));
    assert_eq!(l.target, NoteId(2));
    assert_eq!(g.link_count(), 1);
    let back = g.unlink_notes(&NoteId(2), &NoteId(1)).unwrap();
    assert_eq!(back, l);
    assert_eq!(g.link_count(), 0);
}

#[test]
fn linking_twice_is_a_graph_error() {
    let mut g = store_with(&[1, 2]);
    g.link_notes(&NoteId(1), &NoteId(2), LinkKind::Explicit).unwrap();
    match g.link_notes(&NoteId(2), &NoteId(1), LinkKind::Implicit) {
        Err(PenumbraError::Graph(m)) => assert_eq!(
            m,
            format!("link already exists between {} and {}", NoteId(2).to_string(), NoteId(1).to_string())
        ),
        _ => panic!("expected a graph error"),
    }
    assert_eq!(g.link_count(), 1);
}

#[test]
fn linking_an_unknown_note_fails() {
    let mut g = store_with(&[1]);
    match g.link_notes(&NoteId(1), &NoteId(7), LinkKind::Explicit) {
        Err(PenumbraError::NoteNotFound(m)) => assert_eq!(m, NoteId(7).to_string()),
        _ => panic!("expected note not found"),
    }
    match g.unlink_notes(&NoteId(8), &NoteId(1)) {
        Err(PenumbraError::NoteNotFound(m)) => assert_eq!(m, NoteId(8).to_string()),
        _ => panic!("expected note not found"),
    }
}

#[test]
fn unlinking_unlinked_notes_fails() {
    let mut g = store_with(&[1, 2]);
    assert!(matches!(g.unlink_notes(&NoteId(1), &NoteId(2)), Err(PenumbraError::Graph(_))));
}

#[test]
fn neighbors_and_links() {
    let mut g = store_with(&[1, 2, 3, 4]);
    g.link_notes(&NoteId(1), &NoteId(2), LinkKind::Explicit).unwrap();
    g.link_notes(&NoteId(3), &NoteId(1), LinkKind::Implicit).unwrap();
    let mut ns: Vec<String> = g.get_neighbors(&NoteId(1)).iter().map(|n| n.title.clone()).collect();
    ns.sort();
    assert_eq!(ns, vec!["n2".to_string(), "n3".to_string()]);
    assert_eq!(g.get_links(&NoteId(1)).len(), 2);
    assert_eq!(g.get_links(&NoteId(4)).len(), 0);
    assert!(g.get_neighbors(&NoteId(99)).is_empty());
    assert_eq!(g.all_links().len(), 2);
}

#[test]
fn connected_components() {
    let mut g = store_with(&[1, 2, 3, 4, 5]);
    g.link_notes(&NoteId(1), &NoteId(2), LinkKind::Explicit).unwrap();
    g.link_notes(&NoteId(2), &NoteId(3), LinkKind::Explicit).unwrap();
    g.link_notes(&NoteId(4), &NoteId(5), LinkKind::Implicit).unwrap();
    assert_eq!(component(&g, 1), vec![1, 2, 3]);
    assert_eq!(component(&g, 3), vec![1, 2, 3]);
    assert_eq!(component(&g, 5), vec![4, 5]);
    assert!(component(&g, 42).is_empty());
}

#[test]
fn lone_note_is_its_own_component() {
    let g = store_with(&[7]);
    assert_eq!(component(&g, 7), vec![7]);
}

#[test]
fn removing_a_note_drops_its_links() {
    let mut g = store_with(&[1, 2, 3]);
    g.link_notes(&NoteId(1), &NoteId(3), LinkKind::Explicit).unwrap();
    g.link_notes(&NoteId(2), &NoteId(3), LinkKind::Explicit).unwrap();
    let removed = g.remove_note(&NoteId(3)).unwrap();
    assert_eq!(removed.title, "n3");
    assert_eq!(g.note_count(), 2);
    assert_eq!(g.link_count(), 0);
    assert!(g.remove_note(&NoteId(3)).is_none());
}

#[test]
fn remove_undoes_add() {
    let mut g = store_with(&[1, 2]);
    g.link_notes(&NoteId(1), &NoteId(2), LinkKind::Explicit).unwrap();
    assert!(g.add_note(note(3, "n3")));
    g.remove_note(&NoteId(3));
    assert_eq!(g.note_count(), 2);
    assert_eq!(g.link_count(), 1);
    assert_eq!(component(&g, 1), vec![1, 2]);
}

#[test]
fn update_note_edits_and_touches() {
    let mut g = store_with(&[1]);
    g.update_note(&NoteId(1), |mut n| {
        n.title = "renamed".to_string();
        n
    })
    .unwrap();
    let n = g.get_note(&NoteId(1)).unwrap();
    assert_eq!(n.title, "renamed");
    assert_eq!(n.meta.created_at, Timestamp { secs: 0, nanos: 0 });
    assert!(matches!(g.update_note(&NoteId(2), |n| n), Err(PenumbraError::NoteNotFound(_))));
}

#[test]
fn snapshot_and_restore_round_trip() {
    let mut g = store_with(&[1, 2, 3]);
    g.link_notes(&NoteId(1), &NoteId(2), LinkKind::Explicit).unwrap();
    g.link_notes(&NoteId(2), &NoteId(3), LinkKind::Implicit).unwrap();
    let snap = g.snapshot();
    assert_eq!(snap.notes.len(), 3);
    assert_eq!(snap.links.len(), 2);
    let mut h = GraphStore::default();
    h.restore(snap);
    assert_eq!(h.note_count(), 3);
    assert_eq!(h.link_count(), 2);
    assert_eq!(component(&h, 3), vec![1, 2, 3]);
    let mut titles: Vec<String> = h.all_notes().iter().map(|n| n.title.clone()).collect();
    titles.sort();
    assert_eq!(titles, vec!["n1".to_string(), "n2".to_string(), "n3".to_string()]);
}

#[test]
fn restore_keeps_first_of_repeated_identities() {
    let mut g = GraphStore::new();
    g.restore(GraphSnapshot { notes: vec![note(1, "first"), note(1, "second")], links: Vec::new() });
    assert_eq!(g.note_count(), 1);
    assert_eq!(g.get_note(&NoteId(1)).unwrap().title, "first");
}
