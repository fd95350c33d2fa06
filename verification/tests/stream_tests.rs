use penumbra::markdown::ast::{BlockKind, Inline};
use penumbra::markdown::stream::{MarkdownStream, PendingInfo};

#[test]
fn streamed_text_ends_up_parsed() {
    let mut s = MarkdownStream::new();
    assert!(s.snapshot().blocks.is_empty());
    assert!(s.pending_raw().is_none());
    s.append("# Title\n\nSome ").unwrap();
    s.append("text\n").unwrap();
    let last = s.finalize().unwrap();
    assert!(!last.reset);
    let doc = s.snapshot();
    assert_eq!(doc.blocks.len(), 2);
    assert_eq!(
        doc.blocks[0].kind,
        BlockKind::Heading { level: 1, children: vec![Inline::Text("Title".to_string())] }
    );
    assert_eq!(doc.blocks[1].kind, BlockKind::Paragraph(vec![Inline::Text("Some text".to_string())]));
}

#[test]
fn pending_text_is_reported() {
    let mut s = MarkdownStream::default();
    let u = s.append("partial line").unwrap();
    assert!(u.committed.is_empty());
    let p = u.pending.expect("a pending block");
    assert!(p.display_or_raw().starts_with("partial"));
    assert_eq!(s.pending_raw(), Some(p.raw.clone()));
}

#[test]
fn reset_forgets_everything() {
    let mut s = MarkdownStream::new();
    s.append("one\n\ntwo\n\n").unwrap();
    s.finalize().unwrap();
    assert!(!s.snapshot().blocks.is_empty());
    s.reset();
    assert!(s.snapshot().blocks.is_empty());
    assert!(s.pending_raw().is_none());
}

#[test]
fn display_falls_back_to_raw() {
    let p = PendingInfo { id: 3, raw: "**bold".to_string(), display: None };
    assert_eq!(p.display_or_raw(), "**bold");
    let q = PendingInfo { id: 3, raw: "**bold".to_string(), display: Some("**bold**".to_string()) };
    assert_eq!(q.display_or_raw(), "**bold**");
}

fn md_block(id: u64, status: mdstream::BlockStatus, raw: &str) -> mdstream::Block {
    mdstream::Block {
        id: mdstream::BlockId(id),
        status,
        kind: mdstream::BlockKind::Paragraph,
        raw: raw.to_string(),
        display: None,
    }
}

#[test]
fn apply_update_parses_what_is_committed() {
    let mut s = MarkdownStream::new();
    let update = mdstream::Update {
        committed: vec![md_block(1, mdstream::BlockStatus::Committed, "hello\n")],
        pending: Some(md_block(2, mdstream::BlockStatus::Pending, "wor")),
        reset: false,
        invalidated: vec![],
    };
    let u = s.apply_update(update).unwrap();
    assert!(!u.reset);
    assert_eq!(u.committed.len(), 1);
    assert_eq!(u.committed[0].kind, BlockKind::Paragraph(vec![Inline::Text("hello".to_string())]));
    let p = u.pending.expect("a pending block");
    assert_eq!(p.id, 2);
    assert_eq!(p.raw, "wor");
    assert_eq!(s.pending_raw(), Some("wor".to_string()));
    assert_eq!(s.snapshot().blocks.len(), 1);
}

#[test]
fn apply_update_reparses_invalidated_blocks() {
    let mut s = MarkdownStream::new();
    s.apply_update(mdstream::Update {
        committed: vec![md_block(1, mdstream::BlockStatus::Committed, "a\n")],
        pending: None,
        reset: false,
        invalidated: vec![],
    })
    .unwrap();
    let u = s
        .apply_update(mdstream::Update { committed: vec![], pending: None, reset: false, invalidated: vec![mdstream::BlockId(1)] })
        .unwrap();
    assert_eq!(u.committed.len(), 1);
    assert_eq!(u.committed[0].kind, BlockKind::Paragraph(vec![Inline::Text("a".to_string())]));
    assert_eq!(s.snapshot().blocks.len(), 1);
}

#[test]
fn apply_update_reset_rebuilds_from_committed() {
    let mut s = MarkdownStream::new();
    s.apply_update(mdstream::Update {
        committed: vec![md_block(1, mdstream::BlockStatus::Committed, "a\n")],
        pending: None,
        reset: false,
        invalidated: vec![],
    })
    .unwrap();
    let u = s
        .apply_update(mdstream::Update {
            committed: vec![md_block(5, mdstream::BlockStatus::Committed, "# H\n")],
            pending: None,
            reset: true,
            invalidated: vec![],
        })
        .unwrap();
    assert!(u.reset);
    let doc = s.snapshot();
    assert_eq!(doc.blocks.len(), 1);
    assert_eq!(doc.blocks[0].kind, BlockKind::Heading { level: 1, children: vec![Inline::Text("H".to_string())] });
}

#[test]
fn crlf_split_across_chunks_is_one_line_end() {
    let mut s = MarkdownStream::new();
    s.append("first\r").unwrap();
    s.append("\nsecond\r\n\r\nthird\r\n").unwrap();
    s.finalize().unwrap();
    let doc = s.snapshot();
    assert_eq!(doc.blocks.len(), 2);
    assert_eq!(doc.blocks[1].kind, BlockKind::Paragraph(vec![Inline::Text("third".to_string())]));
}
