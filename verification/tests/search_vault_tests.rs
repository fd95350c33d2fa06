use penumbra::notes::{Note, NoteId, NoteMeta, Timestamp};
use penumbra::search::{query_tokens, tag_filter, tag_matches, text_hits};
use penumbra::sync::{pull_url, worker_base_url, worker_url, SyncSnapshot};
use penumbra::vault::{
    merge_tags, note_file_text, scan_index, sort_stored_by_title, stored_note, wikilink_targets, FrontmatterData,
    StoredNote, NOTE_EXTENSION,
};

fn note(raw: u128, title: &str, body: &str, tags: &[&str]) -> Note {
    let t = Timestamp { secs: 0, nanos: 0 };
    Note {
        id: NoteId(raw),
        title: title.to_string(),
        body: body.to_string(),
        tags: tags.iter().map(|s| s.to_string()).collect(),
        meta: NoteMeta { created_at: t, updated_at: t, pinned: false, archived: false },
    }
}

fn strings(v: &[&str]) -> Vec<String> {
    v.iter().map(|s| s.to_string()).collect()
}

#[test]
fn query_words_are_lowercased() {
    assert_eq!(query_tokens("  Hello  WORLD\tagain "), strings(&["hello", "world", "again"]));
    assert!(query_tokens("   ").is_empty());
}

#[test]
fn text_hits_weigh_title_over_body() {
    let n = note(1, "Rust Notes", "all about borrowing", &[]);
    assert_eq!(text_hits(&strings(&["rust"]), &n), 3);
    assert_eq!(text_hits(&strings(&["borrowing"]), &n), 1);
    assert_eq!(text_hits(&strings(&["rust", "borrowing", "missing"]), &n), 4);
    assert_eq!(text_hits(&Vec::new(), &n), 0);
}

#[test]
fn text_hits_ignore_punctuation_around_words() {
    let n = note(1, "Graphs", "layout", &[]);
    assert_eq!(text_hits(&strings(&["(graphs!)"]), &n), 3);
    assert_eq!(text_hits(&strings(&["..."]), &n), 0);
}

#[test]
fn tag_matches_count_asked_tags() {
    let n = note(1, "t", "b", &["a", "b"]);
    assert_eq!(tag_matches(&strings(&["a", "c", "b"]), &n), 2);
    assert_eq!(tag_matches(&Vec::new(), &n), 0);
    let bare = note(2, "t", "b", &[]);
    assert_eq!(tag_matches(&strings(&["a"]), &bare), 0);
}

#[test]
fn tag_filter_keeps_notes_with_every_tag() {
    let notes = vec![
        note(1, "a", "", &["x", "y"]),
        note(2, "b", "", &["x"]),
        note(3, "c", "", &["y", "x", "z"]),
    ];
    assert_eq!(tag_filter(&notes, &strings(&["x", "y"])), Some(vec![NoteId(1), NoteId(3)]));
    assert_eq!(tag_filter(&notes, &Vec::new()), None);
    assert_eq!(tag_filter(&notes, &strings(&["w"])), Some(Vec::new()));
}

#[test]
fn merged_tags_keep_frontmatter_first() {
    assert_eq!(merge_tags(&strings(&["a", "b"]), &strings(&["b", "c", "c"])), strings(&["a", "b", "c"]));
}

#[test]
fn stored_note_from_frontmatter() {
    let t = Timestamp { secs: 10, nanos: 5 };
    let fm = FrontmatterData { id: 77, created_at: t, updated_at: t, tags: strings(&["work"]), pinned: true, archived: false };
    let s = stored_note("My Note", "Body with #idea and #work\n".to_string(), Some(fm)).unwrap();
    assert_eq!(s.note.id, NoteId(77));
    assert_eq!(s.note.title, "My Note");
    assert_eq!(s.filename, "My Note");
    assert_eq!(s.fm_tags, strings(&["work"]));
    assert_eq!(s.note.tags, strings(&["work", "idea"]));
    assert!(s.note.meta.pinned);
    assert_eq!(s.note.meta.created_at, t);
}

#[test]
fn stored_note_without_frontmatter() {
    let s = stored_note("Plain", "#tag text".to_string(), None).unwrap();
    assert!(s.fm_tags.is_empty());
    assert_eq!(s.note.tags, strings(&["tag"]));
    assert_eq!(s.note.meta.created_at, s.note.meta.updated_at);
    assert!(!s.note.meta.pinned);
}

#[test]
fn note_file_text_ends_with_newline() {
    assert_eq!(note_file_text("id: 1\n", "body"), "---\nid: 1\n---\nbody\n");
    assert_eq!(note_file_text("id: 1\n", "body\n"), "---\nid: 1\n---\nbody\n");
    assert_eq!(note_file_text("id: 1\n", ""), "---\nid: 1\n---\n");
    assert_eq!(NOTE_EXTENSION, ".md");
}

#[test]
fn wikilink_targets_of_body() {
    assert_eq!(wikilink_targets("see [[A]] and [[B|b]] and [[A]]"), strings(&["A", "B"]));
    assert!(wikilink_targets("nothing").is_empty());
}

#[test]
fn worker_addresses() {
    assert_eq!(worker_base_url("https://sync.example.org//"), "https://sync.example.org");
    assert_eq!(worker_url("https://w", "/sync/status"), "https://w/sync/status");
    assert_eq!(pull_url("https://w", None), "https://w/sync/pull");
    assert_eq!(pull_url("https://w", Some("a b")), "https://w/sync/pull?since=a%20b");
}

#[test]
fn sync_snapshot_counts_notes() {
    let s = SyncSnapshot::new(strings(&["1", "2"]));
    assert_eq!(s.note_count, 2);
    assert_eq!(s.note_ids, strings(&["1", "2"]));
    assert_eq!(s.snapshot_id.len(), 36);
    assert_ne!(s.snapshot_id, SyncSnapshot::new(Vec::new()).snapshot_id);
}

fn stored(raw: u128, title: &str, file: &str) -> StoredNote {
    StoredNote { note: note(raw, title, "", &[]), filename: file.to_string(), fm_tags: Vec::new() }
}

#[test]
fn scan_sorts_by_title_keeping_equal_titles_in_order() {
    let sorted = sort_stored_by_title(vec![
        stored(1, "beta", "b"),
        stored(2, "Alpha", "a1"),
        stored(3, "alpha", "a2"),
        stored(4, "Alpha", "a3"),
        stored(5, "", "empty"),
    ]);
    let files: Vec<&str> = sorted.iter().map(|s| s.filename.as_str()).collect();
    assert_eq!(files, vec!["empty", "a1", "a3", "a2", "b"]);
}

#[test]
fn scan_index_keeps_the_first_file_of_an_identity() {
    let items = vec![stored(1, "A", "Alpha"), stored(2, "B", "Beta"), stored(1, "C", "Copy")];
    let entries = scan_index(&items);
    assert_eq!(
        entries,
        vec![(NoteId(1), "Alpha".to_string(), "alpha".to_string()), (NoteId(2), "Beta".to_string(), "beta".to_string())]
    );
}

#[test]
fn kept_hits_follow_the_filter_and_the_notes() {
    let notes = vec![note(1, "a", "", &[]), note(2, "b", "", &[]), note(1, "c", "", &[])];
    let hits = vec![NoteId(9), NoteId(1), NoteId(2)];
    assert_eq!(penumbra::search::kept_hits(&hits, &notes, &None), vec![(1, 2), (2, 1)]);
    assert_eq!(penumbra::search::kept_hits(&hits, &notes, &Some(vec![NoteId(2)])), vec![(2, 1)]);
}
