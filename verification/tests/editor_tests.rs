use penumbra::editor::command::{apply_command, BlockMark, Command, CommandError, Journal};
use penumbra::editor::cursor::{Cursor, Selection};
use penumbra::editor::doc::Document;
use penumbra::editor::session::{mode_of_kind, BlockMode, EditorSession};
use penumbra::editor::view_model::ViewModel;
use penumbra::markdown::ast::{BlockId, BlockKind};

fn insert(at: usize, text: &str) -> Command {
    Command::InsertText { at, text: text.to_string() }
}

#[test]
fn insert_text_in_the_middle() {
    assert_eq!(apply_command("hello world", &insert(5, ",")).unwrap(), "hello, world");
}

#[test]
fn insert_text_past_end_is_refused() {
    assert_eq!(apply_command("abc", &insert(4, "x")), Err(CommandError::OffsetOutOfBounds(4, 3)));
}

#[test]
fn delete_range_removes_bytes() {
    let cmd = Command::DeleteRange { from: 1, to: 3 };
    assert_eq!(apply_command("abcde", &cmd).unwrap(), "ade");
}

#[test]
fn delete_empty_or_reversed_range_is_refused() {
    let empty = Command::DeleteRange { from: 2, to: 2 };
    assert_eq!(apply_command("abcde", &empty), Err(CommandError::InvalidRange(2, 2)));
    let past = Command::DeleteRange { from: 1, to: 9 };
    assert_eq!(apply_command("abcde", &past), Err(CommandError::InvalidRange(1, 9)));
}

#[test]
fn split_block_inserts_blank_line() {
    let cmd = Command::SplitBlock { at: 2 };
    assert_eq!(apply_command("abcd", &cmd).unwrap(), "ab\n\ncd");
    let far = Command::SplitBlock { at: 7 };
    assert_eq!(apply_command("abcd", &far), Err(CommandError::OffsetOutOfBounds(7, 4)));
}

#[test]
fn merge_blocks_removes_first_blank_line() {
    let cmd = Command::MergeBlocks { first: BlockId(1) };
    assert_eq!(apply_command("a\n\nb\n\nc", &cmd).unwrap(), "ab\n\nc");
    assert_eq!(apply_command("single", &cmd).unwrap(), "single");
}

#[test]
fn mark_and_cursor_commands_leave_source() {
    let mark = Command::SetMark { block: BlockId(7), mark: BlockMark::Bold };
    assert_eq!(apply_command("text", &mark).unwrap(), "text");
    let mv = Command::MoveCursor { to: 2 };
    assert_eq!(apply_command("text", &mv).unwrap(), "text");
}

#[test]
fn delete_undoes_insert() {
    let source = "héllo";
    let inserted = apply_command(source, &insert(3, "XY")).unwrap();
    let back = apply_command(&inserted, &Command::DeleteRange { from: 3, to: 5 }).unwrap();
    assert_eq!(back, source);
}

#[test]
fn command_error_messages() {
    assert_eq!(CommandError::OffsetOutOfBounds(4, 3).message(), "offset 4 out of bounds (len 3)");
    assert_eq!(CommandError::BlockNotFound("b1".to_string()).message(), "block b1 not found");
    assert_eq!(CommandError::InvalidRange(2, 1).message(), "invalid range 2..1");
}

#[test]
fn block_mark_markers() {
    assert_eq!(BlockMark::Bold.markers(), "**");
    assert_eq!(BlockMark::Italic.markers(), "*");
    assert_eq!(BlockMark::Strikethrough.markers(), "~~");
    assert_eq!(BlockMark::Code.markers(), "`");
}

#[test]
fn journal_undo_redo_cycle() {
    let mut j = Journal::new();
    assert!(!j.can_undo());
    assert!(!j.can_redo());
    j.push(insert(0, "a"));
    j.push(insert(1, "b"));
    assert!(j.can_undo());
    assert!(matches!(j.undo(), Some(Command::InsertText { at: 1, .. })));
    assert!(j.can_redo());
    assert!(matches!(j.redo(), Some(Command::InsertText { at: 1, .. })));
    assert!(j.redo().is_none());
}

#[test]
fn journal_push_after_undo_drops_redo() {
    let mut j = Journal::default();
    j.push(insert(0, "a"));
    j.push(insert(1, "b"));
    let _ = j.undo();
    j.push(insert(5, "c"));
    assert!(!j.can_redo());
    assert!(matches!(j.undo(), Some(Command::InsertText { at: 5, .. })));
    assert!(matches!(j.undo(), Some(Command::InsertText { at: 0, .. })));
    assert!(j.undo().is_none());
}

#[test]
fn cursor_moves_within_bounds() {
    let mut c = Cursor::new(0);
    assert!(c.at_start());
    c.move_left();
    assert_eq!(c.offset(), 0);
    c.move_right(2);
    c.move_right(2);
    c.move_right(2);
    assert_eq!(c.offset(), 2);
    assert!(c.at_end(2));
    c.set_offset(1);
    assert_eq!(c.offset(), 1);
}

#[test]
fn selection_range_and_invert() {
    let s = Selection::new(5, 2);
    assert_eq!(s.range(), (2, 5));
    assert!(!s.collapsed());
    let inv = s.invert();
    assert_eq!(inv.range(), (2, 5));
    assert!(Selection::new(3, 3).collapsed());
}

#[test]
fn editor_document_block_ranges() {
    let doc = Document::new("first\n\nsecond");
    let blocks = doc.blocks();
    assert_eq!(blocks.len(), 2);
    assert_eq!(blocks[0].source_range, (0, 7));
    assert_eq!(blocks[1].source_range, (7, 13));
    assert_eq!(doc.source_range(blocks[1].id), Some((7, 13)));
    assert!(doc.block(BlockId(u64::MAX)).is_none() || blocks.iter().any(|b| b.id == BlockId(u64::MAX)));
    assert_eq!(blocks[0].spans.len(), 1);
    assert_eq!(blocks[0].spans[0].text, "first");
}

#[test]
fn view_model_tracks_active_block() {
    let doc = Document::new("# H\n\ntext");
    let id = doc.blocks()[0].id;
    let vm = ViewModel::from_doc(&doc, Some(id), Cursor::new(3));
    assert_eq!(vm.blocks().len(), 2);
    assert!(vm.blocks()[0].is_active);
    assert!(!vm.blocks()[1].is_active);
    assert_eq!(vm.cursor().offset(), 3);
    assert_eq!(vm.active_block(), Some(id));
}

#[test]
fn session_splits_and_undoes() {
    let mut s = EditorSession::new("hello world");
    assert_eq!(s.blocks().len(), 1);
    s.split_active_at(5);
    assert_eq!(s.blocks().len(), 2);
    assert_eq!(s.blocks()[0].text, "hello");
    assert_eq!(s.blocks()[1].text, "world");
    assert_eq!(s.active(), 1);
    assert!(s.can_undo());
    assert_eq!(s.undo(), Some(0));
    assert_eq!(s.blocks().len(), 1);
    assert_eq!(s.blocks()[0].text, "hello world");
    assert_eq!(s.redo(), Some(1));
    assert_eq!(s.blocks().len(), 2);
}

#[test]
fn session_raw_body_joins_blocks() {
    let s = EditorSession::new("# Title\n\nBody text\n");
    assert_eq!(s.raw_body(), "# Title\n\nBody text");
    assert_eq!(s.heading_level(0), 1);
    assert_eq!(s.heading_level(1), 0);
    assert_eq!(s.heading_level(9), 0);
    assert_eq!(s.active_mode(), BlockMode::Heading);
    assert_eq!(s.active_heading_level(), 1);
}

#[test]
fn session_apply_text_normalizes_blank_lines() {
    let mut s = EditorSession::new("para");
    s.apply_active_text("one\n\n\ntwo");
    assert_eq!(s.blocks()[0].text, "one\ntwo");
    assert!(s.can_undo());
    assert!(!s.can_redo());
}

#[test]
fn session_apply_same_text_records_nothing() {
    let mut s = EditorSession::new("para");
    s.apply_active_text("para");
    assert!(!s.can_undo());
}

#[test]
fn session_merge_into_previous() {
    let mut s = EditorSession::new("first\n\nsecond");
    s.set_active(1);
    s.merge_into_previous();
    assert_eq!(s.blocks().len(), 1);
    assert_eq!(s.blocks()[0].text, "first second");
    assert_eq!(s.active(), 0);
}

#[test]
fn session_remove_active_clamps() {
    let mut s = EditorSession::new("a\n\nb");
    s.set_active(5);
    assert_eq!(s.active(), 1);
    s.remove_active();
    assert_eq!(s.blocks().len(), 1);
    assert_eq!(s.active(), 0);
    assert!(!s.is_empty());
}

#[test]
fn session_code_block_is_raw() {
    let s = EditorSession::new("```\ncode\n```");
    assert_eq!(s.active_mode(), BlockMode::Raw);
    assert!(s.active_is_code());
}

#[test]
fn empty_session() {
    let mut s = EditorSession::new("");
    assert!(s.is_empty());
    assert_eq!(s.undo(), None);
    assert_eq!(s.redo(), None);
    assert_eq!(s.raw_body(), "");
}

#[test]
fn modes_of_kinds() {
    assert_eq!(mode_of_kind(&BlockKind::ThematicBreak), BlockMode::Prose);
    assert_eq!(mode_of_kind(&BlockKind::HtmlBlock("x".to_string())), BlockMode::Prose);
    assert_eq!(
        mode_of_kind(&BlockKind::CodeBlock { language: None, text: String::new() }),
        BlockMode::Raw
    );
}

#[test]
fn undo_after_merge_restores_both_blocks() {
    let mut s = EditorSession::new("first\n\nsecond");
    s.set_active(1);
    s.merge_into_previous();
    assert_eq!(s.undo(), Some(1));
    assert_eq!(s.blocks().len(), 2);
    assert_eq!(s.blocks()[0].text, "first");
    assert_eq!(s.blocks()[1].text, "second");
    assert_eq!(s.active(), 1);
    assert!(s.can_redo());
}

#[test]
fn active_queries_on_an_empty_session() {
    let s = EditorSession::new("");
    assert!(!s.active_is_code());
    assert_eq!(s.active_heading_level(), 0);
    assert_eq!(EditorSession::new("## H").active_heading_level(), 2);
}

#[test]
fn history_keeps_at_most_64_states() {
    let mut s = EditorSession::new("x");
    for k in 1..=70 {
        s.apply_active_text(&format!("t{k}"));
    }
    for _ in 0..64 {
        assert_eq!(s.undo(), Some(0));
    }
    assert!(!s.can_undo());
    assert_eq!(s.undo(), None);
}

#[test]
fn a_loose_list_keeps_its_whole_source() {
    let doc = Document::new("- a\n\n- b");
    assert_eq!(doc.blocks().len(), 1);
    assert_eq!(doc.blocks()[0].source_range, (0, 8));
    let s = EditorSession::new("- a\n\n- b");
    assert_eq!(s.blocks().len(), 1);
    assert_eq!(s.blocks()[0].text, "- a\n\n- b");
}

#[test]
fn block_ranges_cover_mixed_blocks() {
    let src = "# T\n\n- a\n\n- b\n\n```\nx\n\ny\n```\n\n> q\n\n---\n\ntail";
    let doc = Document::new(src);
    let pieces: Vec<&str> = doc.blocks().iter().map(|b| src[b.source_range.0..b.source_range.1].trim_end()).collect();
    assert_eq!(pieces, vec!["# T", "- a\n\n- b", "```\nx\n\ny\n```", "> q", "---", "tail"]);
}

#[test]
fn block_ranges_take_the_blank_line_after_a_block() {
    let doc = Document::new("# T\n\nbody");
    assert_eq!(doc.blocks()[0].source_range, (0, 5));
    assert_eq!(doc.blocks()[1].source_range, (5, 9));
}

#[test]
fn merge_undoes_split_without_blank_lines() {
    let src = "ab\ncd";
    let split = apply_command(src, &Command::SplitBlock { at: 2 }).unwrap();
    assert_eq!(split, "ab\n\n\ncd");
    let merged = apply_command(&split, &Command::MergeBlocks { first: BlockId(1) }).unwrap();
    assert_eq!(merged, src);
    let inserted = apply_command(src, &Command::InsertText { at: 1, text: "é".to_string() }).unwrap();
    assert_eq!(apply_command(&inserted, &Command::DeleteRange { from: 1, to: 3 }).unwrap(), src);
}
