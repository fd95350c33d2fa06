//! Building the document tree from a CommonMark event stream.
use vstd::prelude::*;
use crate::error::PenumbraError;
use crate::markdown::ast::{
    Block, BlockId, BlockKind, BlockV, Inline, InlineV, ItemV, ListItem, Table, TableAlign, TableV,
    blocks_view, cells_view, inline_view, inlines_plain, inlines_view, item_view, items_view,
    kind_view, opt_str_view, rows_view, write_inlines_plain, lemma_blocks_view_push,
    lemma_cells_view_push, lemma_inlines_view_push, lemma_items_view_push, lemma_rows_view_push,
    lemma_inlines_view_concat, lemma_inlines_view_subrange, lemma_inlines_view_len,
};
use crate::markdown::commonmark::{PARSE_OPTIONS, commonmark_event_stream, commonmark_events};
use crate::markdown::ast::{Document, doc_plain};
use crate::markdown::render::html::{blocks_html, render_html, sanitized};
use crate::markdown::custom::{split_custom, split_text_for_custom};
use crate::text::{string_of, chars_of};

verus! {

// ---------------------------------------------------------------------------
// Events, as the library receives them from the CommonMark parser.

/// The opening of a markdown element.
#[derive(Debug)]
pub enum MdTag {
    Paragraph,
    Heading(u8),
    BlockQuote,
    /// A code block; `Some(info)` for a fenced block with its info string,
    /// `None` for an indented one.
    CodeBlock(Option<String>),
    List(Option<u64>),
    Item,
    Table(Vec<TableAlign>),
    TableHead,
    TableRow,
    TableCell,
    FootnoteDefinition(String),
    Emphasis,
    Strong,
    Strikethrough,
    Link { url: String, title: String },
    Image { url: String, title: String },
    /// Any element the library does not model.
    Other,
}

/// The closing of a markdown element.
#[derive(Debug, Clone, Copy, PartialEq, Eq, Structural)]
pub enum MdTagEnd {
    Paragraph,
    Heading,
    BlockQuote,
    CodeBlock,
    /// `true` for an ordered list.
    List(bool),
    Item,
    Table,
    TableHead,
    TableRow,
    TableCell,
    FootnoteDefinition,
    Emphasis,
    Strong,
    Strikethrough,
    Link,
    Image,
    Other,
}

/// One event of a CommonMark event stream.
#[derive(Debug)]
pub enum MdEvent {
    Start(MdTag),
    End(MdTagEnd),
    Text(String),
    Code(String),
    Html(String),
    InlineHtml(String),
    SoftBreak,
    HardBreak,
    Rule,
    TaskListMarker(bool),
    FootnoteReference(String),
    Other,
}

pub enum MdTagV {
    Paragraph,
    Heading(u8),
    BlockQuote,
    CodeBlock(Option<Seq<char>>),
    List(Option<u64>),
    Item,
    Table(Seq<TableAlign>),
    TableHead,
    TableRow,
    TableCell,
    FootnoteDefinition(Seq<char>),
    Emphasis,
    Strong,
    Strikethrough,
    Link(Seq<char>, Seq<char>),
    Image(Seq<char>, Seq<char>),
    Other,
}

pub enum MdEventV {
    Start(MdTagV),
    End(MdTagEnd),
    Text(Seq<char>),
    Code(Seq<char>),
    Html(Seq<char>),
    InlineHtml(Seq<char>),
    SoftBreak,
    HardBreak,
    Rule,
    TaskListMarker(bool),
    FootnoteReference(Seq<char>),
    Other,
}

pub open spec fn tag_view(t: MdTag) -> MdTagV {
    match t {
        MdTag::Paragraph => MdTagV::Paragraph,
        MdTag::Heading(l) => MdTagV::Heading(l),
        MdTag::BlockQuote => MdTagV::BlockQuote,
        MdTag::CodeBlock(info) => MdTagV::CodeBlock(opt_str_view(info)),
        MdTag::List(s) => MdTagV::List(s),
        MdTag::Item => MdTagV::Item,
        MdTag::Table(a) => MdTagV::Table(a@),
        MdTag::TableHead => MdTagV::TableHead,
        MdTag::TableRow => MdTagV::TableRow,
        MdTag::TableCell => MdTagV::TableCell,
        MdTag::FootnoteDefinition(n) => MdTagV::FootnoteDefinition(n@),
        MdTag::Emphasis => MdTagV::Emphasis,
        MdTag::Strong => MdTagV::Strong,
        MdTag::Strikethrough => MdTagV::Strikethrough,
        MdTag::Link { url, title } => MdTagV::Link(url@, title@),
        MdTag::Image { url, title } => MdTagV::Image(url@, title@),
        MdTag::Other => MdTagV::Other,
    }
}

pub open spec fn event_view(e: MdEvent) -> MdEventV {
    match e {
        MdEvent::Start(t) => MdEventV::Start(tag_view(t)),
        MdEvent::End(t) => MdEventV::End(t),
        MdEvent::Text(t) => MdEventV::Text(t@),
        MdEvent::Code(t) => MdEventV::Code(t@),
        MdEvent::Html(t) => MdEventV::Html(t@),
        MdEvent::InlineHtml(t) => MdEventV::InlineHtml(t@),
        MdEvent::SoftBreak => MdEventV::SoftBreak,
        MdEvent::HardBreak => MdEventV::HardBreak,
        MdEvent::Rule => MdEventV::Rule,
        MdEvent::TaskListMarker(b) => MdEventV::TaskListMarker(b),
        MdEvent::FootnoteReference(t) => MdEventV::FootnoteReference(t@),
        MdEvent::Other => MdEventV::Other,
    }
}

pub open spec fn events_view(s: Seq<MdEvent>) -> Seq<MdEventV> {
    s.map_values(|e: MdEvent| event_view(e))
}

// ---------------------------------------------------------------------------
// The tree builder's state, as a mathematical value, and its transitions.

#[derive(Debug, Clone, Copy, PartialEq, Eq, Structural)]
pub enum TablePhase {
    NotInTable,
    Headers,
    Body,
}

pub enum FrameV {
    Paragraph,
    Heading(u8),
    CodeBlock(Option<Seq<char>>, Seq<char>),
    List(Option<u64>, Seq<ItemV>),
    ListItem(Option<bool>, Seq<BlockV>),
    Quote(Seq<BlockV>),
    FootnoteDefinition(Seq<char>, Seq<BlockV>),
    Emphasis(int),
    Strong(int),
    Strikethrough(int),
    Link(Seq<char>, Seq<char>, int),
    Image(Seq<char>, Seq<char>),
}

pub struct CtxV {
    pub blocks: Seq<BlockV>,
    pub stack: Seq<FrameV>,
    pub inlines: Seq<InlineV>,
    pub text_buf: Seq<char>,
    pub table_phase: TablePhase,
    pub table_headers: Seq<Seq<InlineV>>,
    pub table_body: Seq<Seq<Seq<InlineV>>>,
    pub table_row_buf: Seq<Seq<InlineV>>,
    pub table_align: Seq<TableAlign>,
}

pub open spec fn init_v() -> CtxV {
    CtxV {
        blocks: Seq::empty(),
        stack: Seq::empty(),
        inlines: Seq::empty(),
        text_buf: Seq::empty(),
        table_phase: TablePhase::NotInTable,
        table_headers: Seq::empty(),
        table_body: Seq::empty(),
        table_row_buf: Seq::empty(),
        table_align: Seq::empty(),
    }
}

/// Pending text becomes inlines, split for embeds and tags.
pub open spec fn flush_text_v(c: CtxV) -> CtxV {
    if c.text_buf.len() == 0 {
        c
    } else {
        CtxV { inlines: c.inlines + split_custom(c.text_buf), text_buf: Seq::empty(), ..c }
    }
}

/// Frames that collect child blocks.
pub open spec fn is_container(f: FrameV) -> bool {
    match f {
        FrameV::Quote(_) => true,
        FrameV::ListItem(_, _) => true,
        FrameV::FootnoteDefinition(_, _) => true,
        _ => false,
    }
}

pub open spec fn add_child(f: FrameV, b: BlockV) -> FrameV {
    match f {
        FrameV::Quote(ch) => FrameV::Quote(ch.push(b)),
        FrameV::ListItem(m, ch) => FrameV::ListItem(m, ch.push(b)),
        FrameV::FootnoteDefinition(n, ch) => FrameV::FootnoteDefinition(n, ch.push(b)),
        _ => f,
    }
}

/// The stack after giving `b` to the innermost container, if there is one.
pub open spec fn push_into_stack(s: Seq<FrameV>, b: BlockV) -> Option<Seq<FrameV>>
    decreases s.len(),
{
    if s.len() == 0 {
        None
    } else if is_container(s.last()) {
        Some(s.drop_last().push(add_child(s.last(), b)))
    } else {
        match push_into_stack(s.drop_last(), b) {
            Some(t) => Some(t.push(s.last())),
            None => None,
        }
    }
}

/// A finished block goes to the innermost container, or to the top level.
pub open spec fn push_block_v(c: CtxV, b: BlockV) -> CtxV {
    match push_into_stack(c.stack, b) {
        Some(s) => CtxV { stack: s, ..c },
        None => CtxV { blocks: c.blocks.push(b), ..c },
    }
}

/// Gathered inlines become a paragraph.
pub open spec fn flush_v(c: CtxV) -> CtxV {
    if c.inlines.len() == 0 {
        c
    } else {
        push_block_v(CtxV { inlines: Seq::empty(), ..c }, BlockV::Paragraph(c.inlines))
    }
}

pub open spec fn push_frame_v(c: CtxV, f: FrameV) -> CtxV {
    CtxV { stack: c.stack.push(f), ..c }
}

pub open spec fn pop_stack(c: CtxV) -> CtxV {
    if c.stack.len() == 0 {
        c
    } else {
        CtxV { stack: c.stack.drop_last(), ..c }
    }
}

pub open spec fn top_frame(c: CtxV) -> Option<FrameV> {
    if c.stack.len() == 0 {
        None
    } else {
        Some(c.stack.last())
    }
}

pub open spec fn code_language(info: Option<Seq<char>>) -> Option<Seq<char>> {
    match info {
        Some(l) => if l.len() == 0 {
            None
        } else {
            Some(l)
        },
        None => None,
    }
}

pub open spec fn start_v(c: CtxV, t: MdTagV) -> CtxV {
    match t {
        MdTagV::Paragraph => push_frame_v(flush_v(c), FrameV::Paragraph),
        MdTagV::Heading(l) => push_frame_v(flush_v(c), FrameV::Heading(l)),
        MdTagV::BlockQuote => push_frame_v(flush_v(c), FrameV::Quote(Seq::empty())),
        MdTagV::CodeBlock(info) => push_frame_v(
            flush_v(c),
            FrameV::CodeBlock(code_language(info), Seq::empty()),
        ),
        MdTagV::List(s) => push_frame_v(flush_v(c), FrameV::List(s, Seq::empty())),
        MdTagV::Item => push_frame_v(c, FrameV::ListItem(None, Seq::empty())),
        MdTagV::Table(a) => {
            let f = flush_v(c);
            CtxV {
                table_phase: TablePhase::Headers,
                table_headers: Seq::empty(),
                table_body: Seq::empty(),
                table_row_buf: Seq::empty(),
                table_align: a,
                ..f
            }
        },
        MdTagV::TableHead => CtxV { table_phase: TablePhase::Headers, ..c },
        MdTagV::TableRow => c,
        MdTagV::TableCell => c,
        MdTagV::FootnoteDefinition(n) => push_frame_v(
            flush_v(c),
            FrameV::FootnoteDefinition(n, Seq::empty()),
        ),
        MdTagV::Emphasis => push_frame_v(c, FrameV::Emphasis(c.inlines.len() as int)),
        MdTagV::Strong => push_frame_v(c, FrameV::Strong(c.inlines.len() as int)),
        MdTagV::Strikethrough => push_frame_v(c, FrameV::Strikethrough(c.inlines.len() as int)),
        MdTagV::Link(u, ti) => push_frame_v(c, FrameV::Link(u, ti, c.inlines.len() as int)),
        MdTagV::Image(u, ti) => push_frame_v(c, FrameV::Image(u, ti)),
        MdTagV::Other => c,
    }
}

/// A finished table row lands where the table phase says.
pub open spec fn store_row_v(c: CtxV, row: Seq<Seq<InlineV>>) -> CtxV {
    if row.len() == 0 {
        c
    } else {
        match c.table_phase {
            TablePhase::Headers => CtxV { table_headers: row, ..c },
            TablePhase::Body => CtxV { table_body: c.table_body.push(row), ..c },
            TablePhase::NotInTable => c,
        }
    }
}

/// The inlines from position `saved` on become the children of `wrap`.
pub open spec fn wrap_inlines_v(c: CtxV, saved: int, wrap: spec_fn(Seq<InlineV>) -> InlineV) -> Option<CtxV> {
    if saved < 0 || saved > c.inlines.len() {
        None
    } else {
        Some(CtxV {
            inlines: c.inlines.subrange(0, saved).push(wrap(c.inlines.subrange(saved, c.inlines.len() as int))),
            ..c
        })
    }
}

pub open spec fn end_v(c: CtxV, t: MdTagEnd) -> Option<CtxV> {
    let top = top_frame(c);
    let p = pop_stack(c);
    match t {
        MdTagEnd::Paragraph => Some(push_block_v(CtxV { inlines: Seq::empty(), ..p }, BlockV::Paragraph(p.inlines))),
        MdTagEnd::Heading => match top {
            Some(FrameV::Heading(l)) => Some(push_block_v(
                CtxV { inlines: Seq::empty(), ..p },
                BlockV::Heading(l, p.inlines),
            )),
            _ => Some(p),
        },
        MdTagEnd::BlockQuote => match top {
            Some(FrameV::Quote(ch)) => Some(push_block_v(p, BlockV::Quote(ch))),
            _ => Some(p),
        },
        MdTagEnd::CodeBlock => match top {
            Some(FrameV::CodeBlock(l, text)) => Some(push_block_v(p, BlockV::CodeBlock(l, text))),
            _ => Some(p),
        },
        MdTagEnd::List(ordered) => match top {
            Some(FrameV::List(s, items)) => Some(push_block_v(p, BlockV::List(ordered, s, items))),
            _ => Some(p),
        },
        MdTagEnd::Item => {
            let c1 = item_flush_v(c);
            let top1 = top_frame(c1);
            let p1 = pop_stack(c1);
            match top1 {
                Some(FrameV::ListItem(m, ch)) => Some(add_item_v(p1, ItemV { checked: m, children: ch })),
                _ => Some(p1),
            }
        },
        MdTagEnd::Table => {
            let c1 = store_row_v(CtxV { table_row_buf: Seq::empty(), ..c }, c.table_row_buf);
            Some(push_block_v(
                CtxV {
                    table_align: Seq::empty(),
                    table_headers: Seq::empty(),
                    table_body: Seq::empty(),
                    table_phase: TablePhase::NotInTable,
                    ..c1
                },
                BlockV::Table(TableV { headers: c1.table_headers, rows: c1.table_body, align: c1.table_align }),
            ))
        },
        MdTagEnd::TableHead => {
            let c1 = CtxV { table_row_buf: Seq::empty(), ..c };
            let c2 = if c.table_row_buf.len() == 0 {
                c1
            } else {
                CtxV { table_headers: c.table_row_buf, ..c1 }
            };
            Some(CtxV { table_phase: TablePhase::Body, ..c2 })
        },
        MdTagEnd::TableCell => Some(CtxV {
            inlines: Seq::empty(),
            table_row_buf: c.table_row_buf.push(c.inlines),
            ..c
        }),
        MdTagEnd::TableRow => Some(store_row_v(CtxV { table_row_buf: Seq::empty(), ..c }, c.table_row_buf)),
        MdTagEnd::FootnoteDefinition => match top {
            Some(FrameV::FootnoteDefinition(n, ch)) => Some(push_block_v(p, BlockV::FootnoteDefinition(n, ch))),
            _ => Some(p),
        },
        MdTagEnd::Emphasis => match top {
            Some(FrameV::Emphasis(s)) => wrap_inlines_v(p, s, |ch: Seq<InlineV>| InlineV::Emphasis(ch)),
            _ => Some(p),
        },
        MdTagEnd::Strong => match top {
            Some(FrameV::Strong(s)) => wrap_inlines_v(p, s, |ch: Seq<InlineV>| InlineV::Strong(ch)),
            _ => Some(p),
        },
        MdTagEnd::Strikethrough => match top {
            Some(FrameV::Strikethrough(s)) => wrap_inlines_v(p, s, |ch: Seq<InlineV>| InlineV::Strikethrough(ch)),
            _ => Some(p),
        },
        MdTagEnd::Link => match top {
            Some(FrameV::Link(u, ti, s)) => wrap_inlines_v(
                p,
                s,
                |ch: Seq<InlineV>| InlineV::Link { url: u, title: ti, children: ch },
            ),
            _ => Some(p),
        },
        MdTagEnd::Image => match top {
            Some(FrameV::Image(u, ti)) => Some(CtxV {
                inlines: seq![InlineV::Image { url: u, alt: inlines_plain(p.inlines), title: ti }],
                ..p
            }),
            _ => Some(p),
        },
        MdTagEnd::Other => Some(c),
    }
}

/// At the end of an item, gathered inlines become a paragraph of the item
/// (and are dropped when the innermost frame is not an item).
pub open spec fn item_flush_v(c: CtxV) -> CtxV {
    if c.inlines.len() == 0 {
        c
    } else {
        let c0 = CtxV { inlines: Seq::empty(), ..c };
        match top_frame(c0) {
            Some(FrameV::ListItem(m, ch)) => CtxV {
                stack: c0.stack.drop_last().push(FrameV::ListItem(m, ch.push(BlockV::Paragraph(c.inlines)))),
                ..c0
            },
            _ => c0,
        }
    }
}

/// A finished item joins the list on top of the stack, if there is one.
pub open spec fn add_item_v(c: CtxV, item: ItemV) -> CtxV {
    match top_frame(c) {
        Some(FrameV::List(s, items)) => CtxV {
            stack: c.stack.drop_last().push(FrameV::List(s, items.push(item))),
            ..c
        },
        _ => c,
    }
}

/// One event's effect on the builder; `None` when the stream is malformed
/// (an inline element that closes after its start was consumed).
pub open spec fn step_v(c: CtxV, e: MdEventV) -> Option<CtxV> {
    match e {
        MdEventV::Start(t) => Some(start_v(flush_text_v(c), t)),
        MdEventV::End(t) => end_v(flush_text_v(c), t),
        MdEventV::Text(t) => match top_frame(c) {
            Some(FrameV::CodeBlock(l, code)) => Some(
                CtxV { stack: c.stack.drop_last().push(FrameV::CodeBlock(l, code + t)), ..c },
            ),
            _ => Some(CtxV { text_buf: c.text_buf + t, ..c }),
        },
        MdEventV::Code(t) => {
            let f = flush_text_v(c);
            Some(CtxV { inlines: f.inlines.push(InlineV::Code(t)), ..f })
        },
        MdEventV::Html(t) => {
            let f = flush_text_v(c);
            Some(CtxV { inlines: f.inlines.push(InlineV::Text(t)), ..f })
        },
        MdEventV::InlineHtml(t) => {
            let f = flush_text_v(c);
            Some(CtxV { inlines: f.inlines.push(InlineV::Text(t)), ..f })
        },
        MdEventV::SoftBreak => {
            let f = flush_text_v(c);
            Some(CtxV { inlines: f.inlines.push(InlineV::SoftBreak), ..f })
        },
        MdEventV::HardBreak => {
            let f = flush_text_v(c);
            Some(CtxV { inlines: f.inlines.push(InlineV::LineBreak), ..f })
        },
        MdEventV::Rule => {
            let f = flush_v(flush_text_v(c));
            Some(CtxV { blocks: f.blocks.push(BlockV::ThematicBreak), ..f })
        },
        MdEventV::TaskListMarker(checked) => {
            let f = flush_text_v(c);
            match top_frame(f) {
                Some(FrameV::ListItem(_, ch)) => Some(
                    CtxV { stack: f.stack.drop_last().push(FrameV::ListItem(Some(checked), ch)), ..f },
                ),
                _ => Some(f),
            }
        },
        MdEventV::FootnoteReference(t) => {
            let f = flush_text_v(c);
            Some(CtxV { inlines: f.inlines.push(InlineV::Text(seq!['[', '^'] + t + seq![']'])), ..f })
        },
        MdEventV::Other => Some(c),
    }
}

pub open spec fn run_v(c: CtxV, es: Seq<MdEventV>) -> Option<CtxV>
    decreases es.len(),
{
    if es.len() == 0 {
        Some(c)
    } else {
        match step_v(c, es[0]) {
            Some(c2) => run_v(c2, es.drop_first()),
            None => None,
        }
    }
}

pub open spec fn finish_v(c: CtxV) -> Seq<BlockV> {
    flush_v(flush_text_v(c)).blocks
}

/// The blocks that an event stream builds, or `None` for a malformed stream.
pub open spec fn build_v(es: Seq<MdEventV>) -> Option<Seq<BlockV>> {
    match run_v(init_v(), es) {
        Some(c) => Some(finish_v(c)),
        None => None,
    }
}


// ---------------------------------------------------------------------------
// The executable builder.

enum Frame {
    Paragraph,
    Heading { level: u8 },
    CodeBlock { language: Option<String>, text: String },
    List { start: Option<u64>, items: Vec<ListItem> },
    ListItem { checked_mark: Option<bool>, children: Vec<Block> },
    Quote(Vec<Block>),
    FootnoteDefinition { name: String, children: Vec<Block> },
    Emphasis { saved_len: usize },
    Strong { saved_len: usize },
    Strikethrough { saved_len: usize },
    Link { url: String, title: String, saved_len: usize },
    Image { url: String, title: String },
}

spec fn frame_view(f: Frame) -> FrameV {
    match f {
        Frame::Paragraph => FrameV::Paragraph,
        Frame::Heading { level } => FrameV::Heading(level),
        Frame::CodeBlock { language, text } => FrameV::CodeBlock(opt_str_view(language), text@),
        Frame::List { start, items } => FrameV::List(start, items_view(items@)),
        Frame::ListItem { checked_mark, children } => FrameV::ListItem(checked_mark, blocks_view(children@)),
        Frame::Quote(ch) => FrameV::Quote(blocks_view(ch@)),
        Frame::FootnoteDefinition { name, children } => FrameV::FootnoteDefinition(name@, blocks_view(children@)),
        Frame::Emphasis { saved_len } => FrameV::Emphasis(saved_len as int),
        Frame::Strong { saved_len } => FrameV::Strong(saved_len as int),
        Frame::Strikethrough { saved_len } => FrameV::Strikethrough(saved_len as int),
        Frame::Link { url, title, saved_len } => FrameV::Link(url@, title@, saved_len as int),
        Frame::Image { url, title } => FrameV::Image(url@, title@),
    }
}

spec fn frames_view(s: Seq<Frame>) -> Seq<FrameV> {
    s.map_values(|f: Frame| frame_view(f))
}

struct Ctx {
    blocks: Vec<Block>,
    stack: Vec<Frame>,
    inlines: Vec<Inline>,
    text_buf: String,
    table_phase: TablePhase,
    table_headers: Vec<Vec<Inline>>,
    table_body: Vec<Vec<Vec<Inline>>>,
    table_row_buf: Vec<Vec<Inline>>,
    table_align: Vec<TableAlign>,
}

spec fn ctx_view(c: Ctx) -> CtxV {
    CtxV {
        blocks: blocks_view(c.blocks@),
        stack: frames_view(c.stack@),
        inlines: inlines_view(c.inlines@),
        text_buf: c.text_buf@,
        table_phase: c.table_phase,
        table_headers: cells_view(c.table_headers@),
        table_body: rows_view(c.table_body@),
        table_row_buf: cells_view(c.table_row_buf@),
        table_align: c.table_align@,
    }
}

proof fn lemma_push_into_stack(s: Seq<FrameV>, b: BlockV, j: int)
    requires
        0 <= j <= s.len(),
        forall|k: int| j <= k < s.len() ==> !is_container(#[trigger] s[k]),
        j == 0 || is_container(s[j - 1]),
    ensures
        j == 0 ==> push_into_stack(s, b) is None,
        j > 0 ==> push_into_stack(s, b) == Some(s.update(j - 1, add_child(s[j - 1], b))),
    decreases s.len(),
{
    if s.len() == 0 {
    } else if j == s.len() {
        assert(s.drop_last().push(add_child(s.last(), b)) =~= s.update(j - 1, add_child(s[j - 1], b)));
    } else {
        assert(!is_container(s[s.len() - 1]));
        let t = s.drop_last();
        assert forall|k: int| j <= k < t.len() implies !is_container(#[trigger] t[k]) by {
            assert(t[k] == s[k]);
        }
        lemma_push_into_stack(t, b, j);
        if j > 0 {
            assert(t.update(j - 1, add_child(t[j - 1], b)).push(s.last()) =~= s.update(
                j - 1,
                add_child(s[j - 1], b),
            ));
        }
    }
}

fn take_inlines(v: &mut Vec<Inline>) -> (r: Vec<Inline>)
    ensures
        r@ == old(v)@,
        final(v)@.len() == 0,
{
    let mut r = Vec::new();
    std::mem::swap(&mut r, v);
    r
}

fn copy_aligns(v: &Vec<TableAlign>) -> (r: Vec<TableAlign>)
    ensures
        r@ == v@,
{
    let mut r: Vec<TableAlign> = Vec::new();
    let mut i: usize = 0;
    while i < v.len()
        invariant
            i <= v.len(),
            r@ == v@.take(i as int),
        decreases v.len() - i,
    {
        r.push(v[i]);
        i = i + 1;
        assert(r@ =~= v@.take(i as int));
    }
    assert(v@.take(v.len() as int) =~= v@);
    r
}

fn copy_string(s: &String) -> (r: String)
    ensures
        r@ == s@,
{
    s.clone()
}

fn copy_opt_string(s: &Option<String>) -> (r: Option<String>)
    ensures
        opt_str_view(r) == opt_str_view(*s),
{
    match s {
        Some(t) => Some(t.clone()),
        None => None,
    }
}

impl Ctx {
    fn new() -> (c: Ctx)
        ensures
            ctx_view(c) == init_v(),
    {
        let c = Ctx {
            blocks: Vec::new(),
            stack: Vec::new(),
            inlines: Vec::new(),
            text_buf: String::new(),
            table_phase: TablePhase::NotInTable,
            table_headers: Vec::new(),
            table_body: Vec::new(),
            table_row_buf: Vec::new(),
            table_align: Vec::new(),
        };
        assert(frames_view(c.stack@) =~= Seq::<FrameV>::empty());
        c
    }

    fn flush_text(&mut self)
        ensures
            ctx_view(*final(self)) == flush_text_v(ctx_view(*old(self))),
    {
        if self.text_buf.as_str().is_empty() {
            return;
        }
        let mut text = String::new();
        std::mem::swap(&mut text, &mut self.text_buf);
        let mut parts = split_text_for_custom(text.as_str());
        proof {
            lemma_inlines_view_concat(self.inlines@, parts@);
        }
        self.inlines.append(&mut parts);
        assert(ctx_view(*self) == flush_text_v(ctx_view(*old(self))));
    }

    fn push_block(&mut self, block: Block)
        ensures
            ctx_view(*final(self)) == push_block_v(ctx_view(*old(self)), kind_view(block.kind)),
    {
        let ghost b = kind_view(block.kind);
        let ghost fs = frames_view(self.stack@);
        let mut j = self.stack.len();
        while j > 0 && !Self::frame_is_container(&self.stack[j - 1])
            invariant
                j <= self.stack.len(),
                fs == frames_view(self.stack@),
                forall|k: int| j <= k < fs.len() ==> !is_container(#[trigger] fs[k]),
            decreases j,
        {
            j = j - 1;
        }
        proof {
            lemma_push_into_stack(fs, b, j as int);
        }
        if j == 0 {
            proof {
                lemma_blocks_view_push(self.blocks@, block);
            }
            self.blocks.push(block);
        } else {
            let f = self.stack.remove(j - 1);
            let g = Self::add_child(f, block);
            self.stack.insert(j - 1, g);
            proof {
                assert(frames_view(self.stack@) =~= fs.update(j - 1, add_child(fs[j - 1], b)));
            }
        }
    }

    fn frame_is_container(f: &Frame) -> (r: bool)
        ensures
            r == is_container(frame_view(*f)),
    {
        match f {
            Frame::Quote(_) => true,
            Frame::ListItem { .. } => true,
            Frame::FootnoteDefinition { .. } => true,
            _ => false,
        }
    }

    fn add_child(f: Frame, block: Block) -> (g: Frame)
        ensures
            frame_view(g) == add_child(frame_view(f), kind_view(block.kind)),
    {
        match f {
            Frame::Quote(mut ch) => {
                proof {
                    lemma_blocks_view_push(ch@, block);
                }
                ch.push(block);
                Frame::Quote(ch)
            },
            Frame::ListItem { checked_mark, mut children } => {
                proof {
                    lemma_blocks_view_push(children@, block);
                }
                children.push(block);
                Frame::ListItem { checked_mark, children }
            },
            Frame::FootnoteDefinition { name, mut children } => {
                proof {
                    lemma_blocks_view_push(children@, block);
                }
                children.push(block);
                Frame::FootnoteDefinition { name, children }
            },
            other => other,
        }
    }

    fn flush(&mut self)
        ensures
            ctx_view(*final(self)) == flush_v(ctx_view(*old(self))),
    {
        if self.inlines.len() == 0 {
            return;
        }
        let children = take_inlines(&mut self.inlines);
        assert(inlines_view(self.inlines@) =~= Seq::<InlineV>::empty());
        self.push_block(Block { id: BlockId::new(), kind: BlockKind::Paragraph(children) });
    }

    fn push_frame(&mut self, f: Frame)
        ensures
            ctx_view(*final(self)) == push_frame_v(ctx_view(*old(self)), frame_view(f)),
    {
        self.stack.push(f);
        assert(frames_view(self.stack@) =~= frames_view(old(self).stack@).push(frame_view(f)));
    }

    fn pop_frame(&mut self) -> (r: Option<Frame>)
        ensures
            ctx_view(*final(self)) == pop_stack(ctx_view(*old(self))),
            match r {
                Some(f) => top_frame(ctx_view(*old(self))) == Some(frame_view(f)),
                None => top_frame(ctx_view(*old(self))) is None,
            },
    {
        let r = self.stack.pop();
        proof {
            if old(self).stack@.len() > 0 {
                assert(frames_view(self.stack@) =~= frames_view(old(self).stack@).drop_last());
            }
        }
        r
    }

    fn handle_start(&mut self, tag: &MdTag)
        ensures
            ctx_view(*final(self)) == start_v(ctx_view(*old(self)), tag_view(*tag)),
    {
        match tag {
            MdTag::Paragraph => {
                self.flush();
                self.push_frame(Frame::Paragraph);
            },
            MdTag::Heading(level) => {
                self.flush();
                self.push_frame(Frame::Heading { level: *level });
            },
            MdTag::BlockQuote => {
                self.flush();
                self.push_frame(Frame::Quote(Vec::new()));
                assert(blocks_view(Seq::<Block>::empty()) =~= Seq::<BlockV>::empty());
            },
            MdTag::CodeBlock(info) => {
                self.flush();
                let language = match info {
                    Some(l) => if l.as_str().is_empty() {
                        None
                    } else {
                        Some(copy_string(l))
                    },
                    None => None,
                };
                self.push_frame(Frame::CodeBlock { language, text: String::new() });
            },
            MdTag::List(start) => {
                self.flush();
                self.push_frame(Frame::List { start: *start, items: Vec::new() });
                assert(items_view(Seq::<ListItem>::empty()) =~= Seq::<ItemV>::empty());
            },
            MdTag::Item => {
                self.push_frame(Frame::ListItem { checked_mark: None, children: Vec::new() });
                assert(blocks_view(Seq::<Block>::empty()) =~= Seq::<BlockV>::empty());
            },
            MdTag::Table(alignments) => {
                self.flush();
                self.table_phase = TablePhase::Headers;
                self.table_headers = Vec::new();
                self.table_body = Vec::new();
                self.table_row_buf = Vec::new();
                self.table_align = copy_aligns(alignments);
                assert(cells_view(Seq::<Vec<Inline>>::empty()) =~= Seq::<Seq<InlineV>>::empty());
                assert(rows_view(Seq::<Vec<Vec<Inline>>>::empty()) =~= Seq::<Seq<Seq<InlineV>>>::empty());
            },
            MdTag::TableHead => {
                self.table_phase = TablePhase::Headers;
            },
            MdTag::TableRow => {},
            MdTag::TableCell => {},
            MdTag::FootnoteDefinition(name) => {
                self.flush();
                self.push_frame(Frame::FootnoteDefinition { name: copy_string(name), children: Vec::new() });
                assert(blocks_view(Seq::<Block>::empty()) =~= Seq::<BlockV>::empty());
            },
            MdTag::Emphasis => {
                let saved_len = self.inlines.len();
                proof { lemma_inlines_view_len(self.inlines@); }
                self.push_frame(Frame::Emphasis { saved_len });
            },
            MdTag::Strong => {
                let saved_len = self.inlines.len();
                proof { lemma_inlines_view_len(self.inlines@); }
                self.push_frame(Frame::Strong { saved_len });
            },
            MdTag::Strikethrough => {
                let saved_len = self.inlines.len();
                proof { lemma_inlines_view_len(self.inlines@); }
                self.push_frame(Frame::Strikethrough { saved_len });
            },
            MdTag::Link { url, title } => {
                let saved_len = self.inlines.len();
                proof { lemma_inlines_view_len(self.inlines@); }
                self.push_frame(Frame::Link { url: copy_string(url), title: copy_string(title), saved_len });
            },
            MdTag::Image { url, title } => {
                self.push_frame(Frame::Image { url: copy_string(url), title: copy_string(title) });
            },
            MdTag::Other => {},
        }
    }

    fn end_block(&mut self, tag: MdTagEnd)
        requires
            tag == MdTagEnd::Paragraph || tag == MdTagEnd::Heading || tag == MdTagEnd::BlockQuote
                || tag == MdTagEnd::CodeBlock || tag is List || tag == MdTagEnd::FootnoteDefinition,
        ensures
            end_v(ctx_view(*old(self)), tag) == Some(ctx_view(*final(self))),
    {
        let ghost c = ctx_view(*self);
        let f = self.pop_frame();
        match tag {
            MdTagEnd::Paragraph => {
                let children = take_inlines(&mut self.inlines);
                assert(inlines_view(self.inlines@) =~= Seq::<InlineV>::empty());
                self.push_block(Block { id: BlockId::new(), kind: BlockKind::Paragraph(children) });
            },
            MdTagEnd::Heading => {
                if let Some(Frame::Heading { level }) = f {
                    let children = take_inlines(&mut self.inlines);
                    assert(inlines_view(self.inlines@) =~= Seq::<InlineV>::empty());
                    self.push_block(Block { id: BlockId::new(), kind: BlockKind::Heading { level, children } });
                }
            },
            MdTagEnd::BlockQuote => {
                if let Some(Frame::Quote(children)) = f {
                    self.push_block(Block { id: BlockId::new(), kind: BlockKind::Quote(children) });
                }
            },
            MdTagEnd::CodeBlock => {
                if let Some(Frame::CodeBlock { language, text }) = f {
                    self.push_block(Block { id: BlockId::new(), kind: BlockKind::CodeBlock { language, text } });
                }
            },
            MdTagEnd::List(ordered) => {
                if let Some(Frame::List { start, items }) = f {
                    self.push_block(Block { id: BlockId::new(), kind: BlockKind::List { ordered, start, items } });
                }
            },
            _ => {
                if let Some(Frame::FootnoteDefinition { name, children }) = f {
                    self.push_block(Block { id: BlockId::new(), kind: BlockKind::FootnoteDefinition { name, children } });
                }
            },
        }
    }

    fn end_item(&mut self)
        ensures
            end_v(ctx_view(*old(self)), MdTagEnd::Item) == Some(ctx_view(*final(self))),
    {
        let ghost c = ctx_view(*self);
        if self.inlines.len() > 0 {
            let inl = take_inlines(&mut self.inlines);
            assert(inlines_view(self.inlines@) =~= Seq::<InlineV>::empty());
            let ghost s0 = self.stack@;
            match self.stack.pop() {
                Some(Frame::ListItem { checked_mark, mut children }) => {
                    let b = Block { id: BlockId::new(), kind: BlockKind::Paragraph(inl) };
                    proof { lemma_blocks_view_push(children@, b); }
                    children.push(b);
                    self.stack.push(Frame::ListItem { checked_mark, children });
                    assert(frames_view(self.stack@) =~= frames_view(s0).drop_last().push(
                        frame_view(Frame::ListItem { checked_mark, children })));
                },
                Some(other) => {
                    self.stack.push(other);
                    assert(self.stack@ =~= s0);
                },
                None => {},
            }
        }
        assert(ctx_view(*self) == item_flush_v(c));
        let ghost c1 = ctx_view(*self);
        let f = self.pop_frame();
        if let Some(Frame::ListItem { checked_mark, children }) = f {
            let ghost s1 = self.stack@;
            let ghost p1 = ctx_view(*self);
            match self.stack.pop() {
                Some(Frame::List { start, mut items }) => {
                    let item = ListItem { checked: checked_mark, children };
                    proof { lemma_items_view_push(items@, item); }
                    items.push(item);
                    self.stack.push(Frame::List { start, items });
                    assert(frames_view(self.stack@) =~= frames_view(s1).drop_last().push(
                        frame_view(Frame::List { start, items })));
                },
                Some(other) => {
                    self.stack.push(other);
                    assert(self.stack@ =~= s1);
                },
                None => {},
            }
            assert(ctx_view(*self) == add_item_v(p1, ItemV { checked: checked_mark, children: blocks_view(children@) }));
        }
    }

    fn store_row(&mut self, row: Vec<Vec<Inline>>)
        ensures
            ctx_view(*final(self)) == store_row_v(ctx_view(*old(self)), cells_view(row@)),
    {
        proof { crate::markdown::ast::lemma_cells_view_len(row@); }
        if row.len() > 0 {
            match self.table_phase {
                TablePhase::Headers => {
                    self.table_headers = row;
                },
                TablePhase::Body => {
                    proof { lemma_rows_view_push(self.table_body@, row); }
                    self.table_body.push(row);
                },
                TablePhase::NotInTable => {},
            }
        }
    }

    fn end_table_part(&mut self, tag: MdTagEnd)
        requires
            tag == MdTagEnd::Table || tag == MdTagEnd::TableHead || tag == MdTagEnd::TableCell
                || tag == MdTagEnd::TableRow,
        ensures
            end_v(ctx_view(*old(self)), tag) == Some(ctx_view(*final(self))),
    {
        match tag {
            MdTagEnd::Table => {
                let mut row: Vec<Vec<Inline>> = Vec::new();
                std::mem::swap(&mut row, &mut self.table_row_buf);
                assert(cells_view(self.table_row_buf@) =~= Seq::<Seq<InlineV>>::empty());
                self.store_row(row);
                let mut align: Vec<TableAlign> = Vec::new();
                std::mem::swap(&mut align, &mut self.table_align);
                let mut headers: Vec<Vec<Inline>> = Vec::new();
                std::mem::swap(&mut headers, &mut self.table_headers);
                let mut rows: Vec<Vec<Vec<Inline>>> = Vec::new();
                std::mem::swap(&mut rows, &mut self.table_body);
                self.table_phase = TablePhase::NotInTable;
                assert(cells_view(self.table_headers@) =~= Seq::<Seq<InlineV>>::empty());
                assert(rows_view(self.table_body@) =~= Seq::<Seq<Seq<InlineV>>>::empty());
                self.push_block(Block { id: BlockId::new(), kind: BlockKind::Table(Table { headers, rows, align }) });
            },
            MdTagEnd::TableHead => {
                let mut row: Vec<Vec<Inline>> = Vec::new();
                std::mem::swap(&mut row, &mut self.table_row_buf);
                assert(cells_view(self.table_row_buf@) =~= Seq::<Seq<InlineV>>::empty());
                proof { crate::markdown::ast::lemma_cells_view_len(row@); }
                if row.len() > 0 {
                    self.table_headers = row;
                }
                self.table_phase = TablePhase::Body;
            },
            MdTagEnd::TableCell => {
                let cell = take_inlines(&mut self.inlines);
                assert(inlines_view(self.inlines@) =~= Seq::<InlineV>::empty());
                proof { lemma_cells_view_push(self.table_row_buf@, cell); }
                self.table_row_buf.push(cell);
            },
            _ => {
                let mut row: Vec<Vec<Inline>> = Vec::new();
                std::mem::swap(&mut row, &mut self.table_row_buf);
                assert(cells_view(self.table_row_buf@) =~= Seq::<Seq<InlineV>>::empty());
                self.store_row(row);
            },
        }
    }

    /// Splits off the inlines gathered since position `saved`.
    fn take_from(&mut self, saved: usize) -> (r: Result<Vec<Inline>, PenumbraError>)
        ensures
            match r {
                Ok(ch) => {
                    &&& saved <= old(self).inlines@.len()
                    &&& final(self).inlines@ == old(self).inlines@.subrange(0, saved as int)
                    &&& ch@ == old(self).inlines@.subrange(saved as int, old(self).inlines@.len() as int)
                    &&& ctx_view(*final(self)) == CtxV { inlines: inlines_view(final(self).inlines@), ..ctx_view(*old(self)) }
                },
                Err(_) => saved > old(self).inlines@.len() && *final(self) == *old(self),
            },
    {
        if saved > self.inlines.len() {
            return Err(malformed());
        }
        let ch = self.inlines.split_off(saved);
        Ok(ch)
    }

    fn end_inline(&mut self, tag: MdTagEnd) -> (r: Result<(), PenumbraError>)
        requires
            tag == MdTagEnd::Emphasis || tag == MdTagEnd::Strong || tag == MdTagEnd::Strikethrough
                || tag == MdTagEnd::Link || tag == MdTagEnd::Image,
        ensures
            match end_v(ctx_view(*old(self)), tag) {
                Some(c) => r is Ok && ctx_view(*final(self)) == c,
                None => r is Err,
            },
    {
        let ghost c = ctx_view(*self);
        let f = self.pop_frame();
        let ghost p = ctx_view(*self);
        proof { lemma_inlines_view_len(self.inlines@); }
        match tag {
            MdTagEnd::Emphasis => {
                if let Some(Frame::Emphasis { saved_len }) = f {
                    let ghost old_inl = self.inlines@;
                    let ch = self.take_from(saved_len)?;
                    proof {
                        lemma_inlines_view_subrange(old_inl, 0, saved_len as int);
                        lemma_inlines_view_subrange(old_inl, saved_len as int, old_inl.len() as int);
                        lemma_inlines_view_push(self.inlines@, Inline::Emphasis(ch));
                    }
                    self.inlines.push(Inline::Emphasis(ch));
                    assert(inlines_view(self.inlines@) =~= p.inlines.subrange(0, saved_len as int).push(
                        InlineV::Emphasis(p.inlines.subrange(saved_len as int, p.inlines.len() as int))));
                }
            },
            MdTagEnd::Strong => {
                if let Some(Frame::Strong { saved_len }) = f {
                    let ghost old_inl = self.inlines@;
                    let ch = self.take_from(saved_len)?;
                    proof {
                        lemma_inlines_view_subrange(old_inl, 0, saved_len as int);
                        lemma_inlines_view_subrange(old_inl, saved_len as int, old_inl.len() as int);
                        lemma_inlines_view_push(self.inlines@, Inline::Strong(ch));
                    }
                    self.inlines.push(Inline::Strong(ch));
                    assert(inlines_view(self.inlines@) =~= p.inlines.subrange(0, saved_len as int).push(
                        InlineV::Strong(p.inlines.subrange(saved_len as int, p.inlines.len() as int))));
                }
            },
            MdTagEnd::Strikethrough => {
                if let Some(Frame::Strikethrough { saved_len }) = f {
                    let ghost old_inl = self.inlines@;
                    let ch = self.take_from(saved_len)?;
                    proof {
                        lemma_inlines_view_subrange(old_inl, 0, saved_len as int);
                        lemma_inlines_view_subrange(old_inl, saved_len as int, old_inl.len() as int);
                        lemma_inlines_view_push(self.inlines@, Inline::Strikethrough(ch));
                    }
                    self.inlines.push(Inline::Strikethrough(ch));
                    assert(inlines_view(self.inlines@) =~= p.inlines.subrange(0, saved_len as int).push(
                        InlineV::Strikethrough(p.inlines.subrange(saved_len as int, p.inlines.len() as int))));
                }
            },
            MdTagEnd::Link => {
                if let Some(Frame::Link { url, title, saved_len }) = f {
                    let ghost old_inl = self.inlines@;
                    let ch = self.take_from(saved_len)?;
                    let link = Inline::Link { url, title, children: ch };
                    proof {
                        lemma_inlines_view_subrange(old_inl, 0, saved_len as int);
                        lemma_inlines_view_subrange(old_inl, saved_len as int, old_inl.len() as int);
                        lemma_inlines_view_push(self.inlines@, link);
                    }
                    self.inlines.push(link);
                    assert(inlines_view(self.inlines@) =~= p.inlines.subrange(0, saved_len as int).push(
                        inline_view(link)));
                }
            },
            _ => {
                if let Some(Frame::Image { url, title }) = f {
                    let alt_inlines = take_inlines(&mut self.inlines);
                    let mut alt = String::new();
                    write_inlines_plain(&alt_inlines, &mut alt);
                    let image = Inline::Image { url, alt, title };
                    proof { lemma_inlines_view_push(self.inlines@, image); }
                    self.inlines.push(image);
                    assert(inlines_view(self.inlines@) =~= seq![inline_view(image)]);
                }
            },
        }
        Ok(())
    }

    fn handle_end(&mut self, tag: MdTagEnd) -> (r: Result<(), PenumbraError>)
        ensures
            match end_v(ctx_view(*old(self)), tag) {
                Some(c) => r is Ok && ctx_view(*final(self)) == c,
                None => r is Err,
            },
    {
        match tag {
            MdTagEnd::Paragraph | MdTagEnd::Heading | MdTagEnd::BlockQuote | MdTagEnd::CodeBlock
            | MdTagEnd::List(_) | MdTagEnd::FootnoteDefinition => {
                self.end_block(tag);
                Ok(())
            },
            MdTagEnd::Item => {
                self.end_item();
                Ok(())
            },
            MdTagEnd::Table | MdTagEnd::TableHead | MdTagEnd::TableCell | MdTagEnd::TableRow => {
                self.end_table_part(tag);
                Ok(())
            },
            MdTagEnd::Emphasis | MdTagEnd::Strong | MdTagEnd::Strikethrough | MdTagEnd::Link
            | MdTagEnd::Image => self.end_inline(tag),
            MdTagEnd::Other => Ok(()),
        }
    }
}

impl Ctx {
    fn handle(&mut self, event: &MdEvent) -> (r: Result<(), PenumbraError>)
        ensures
            match step_v(ctx_view(*old(self)), event_view(*event)) {
                Some(c) => r is Ok && ctx_view(*final(self)) == c,
                None => r is Err,
            },
    {
        match event {
            MdEvent::Start(tag) => {
                self.flush_text();
                self.handle_start(tag);
                Ok(())
            },
            MdEvent::End(tag) => {
                self.flush_text();
                self.handle_end(*tag)
            },
            MdEvent::Text(text) => {
                let ghost s0 = self.stack@;
                match self.stack.pop() {
                    Some(Frame::CodeBlock { language, text: mut code }) => {
                        code.push_str(text.as_str());
                        self.stack.push(Frame::CodeBlock { language, text: code });
                        assert(frames_view(self.stack@) =~= frames_view(s0).drop_last().push(
                            frame_view(Frame::CodeBlock { language, text: code })));
                    },
                    Some(other) => {
                        self.stack.push(other);
                        assert(self.stack@ =~= s0);
                        self.text_buf.push_str(text.as_str());
                    },
                    None => {
                        assert(self.stack@ =~= s0);
                        self.text_buf.push_str(text.as_str());
                    },
                }
                Ok(())
            },
            MdEvent::Code(t) => {
                self.flush_text();
                let inline = Inline::Code(copy_string(t));
                proof { lemma_inlines_view_push(self.inlines@, inline); }
                self.inlines.push(inline);
                Ok(())
            },
            MdEvent::Html(t) => {
                self.flush_text();
                let inline = Inline::Text(copy_string(t));
                proof { lemma_inlines_view_push(self.inlines@, inline); }
                self.inlines.push(inline);
                Ok(())
            },
            MdEvent::InlineHtml(t) => {
                self.flush_text();
                let inline = Inline::Text(copy_string(t));
                proof { lemma_inlines_view_push(self.inlines@, inline); }
                self.inlines.push(inline);
                Ok(())
            },
            MdEvent::SoftBreak => {
                self.flush_text();
                proof { lemma_inlines_view_push(self.inlines@, Inline::SoftBreak); }
                self.inlines.push(Inline::SoftBreak);
                Ok(())
            },
            MdEvent::HardBreak => {
                self.flush_text();
                proof { lemma_inlines_view_push(self.inlines@, Inline::LineBreak); }
                self.inlines.push(Inline::LineBreak);
                Ok(())
            },
            MdEvent::Rule => {
                self.flush_text();
                self.flush();
                let b = Block { id: BlockId::new(), kind: BlockKind::ThematicBreak };
                proof { lemma_blocks_view_push(self.blocks@, b); }
                self.blocks.push(b);
                Ok(())
            },
            MdEvent::TaskListMarker(checked) => {
                self.flush_text();
                let ghost s0 = self.stack@;
                match self.stack.pop() {
                    Some(Frame::ListItem { checked_mark: _, children }) => {
                        self.stack.push(Frame::ListItem { checked_mark: Some(*checked), children });
                        assert(frames_view(self.stack@) =~= frames_view(s0).drop_last().push(
                            frame_view(Frame::ListItem { checked_mark: Some(*checked), children })));
                    },
                    Some(other) => {
                        self.stack.push(other);
                        assert(self.stack@ =~= s0);
                    },
                    None => {},
                }
                Ok(())
            },
            MdEvent::FootnoteReference(t) => {
                self.flush_text();
                let mut label = String::new();
                label.push('[');
                label.push('^');
                label.push_str(t.as_str());
                label.push(']');
                let inline = Inline::Text(label);
                proof { lemma_inlines_view_push(self.inlines@, inline); }
                self.inlines.push(inline);
                assert(label@ =~= seq!['[', '^'] + t@ + seq![']']);
                Ok(())
            },
            MdEvent::Other => Ok(()),
        }
    }

    fn finish(self) -> (r: Vec<Block>)
        ensures
            blocks_view(r@) == finish_v(ctx_view(self)),
    {
        let mut ctx = self;
        ctx.flush_text();
        ctx.flush();
        ctx.blocks
    }
}

/// Builds the document blocks from a CommonMark event stream. Fails exactly
/// when an inline element closes after the inlines it encloses were
/// consumed, which a well-formed stream never does.
pub fn build_blocks(events: &Vec<MdEvent>) -> (r: Result<Vec<Block>, PenumbraError>)
    ensures
        match build_v(events_view(events@)) {
            Some(bs) => r matches Ok(v) && blocks_view(v@) == bs,
            None => r is Err,
        },
{
    let ghost es = events_view(events@);
    let mut ctx = Ctx::new();
    let mut i: usize = 0;
    assert(es.skip(0) =~= es);
    while i < events.len()
        invariant
            i <= events.len(),
            es == events_view(events@),
            run_v(ctx_view(ctx), es.skip(i as int)) == run_v(init_v(), es),
        decreases events.len() - i,
    {
        proof {
            assert(es.skip(i as int)[0] == event_view(events@[i as int]));
            assert(es.skip(i as int).drop_first() =~= es.skip(i + 1));
        }
        ctx.handle(&events[i])?;
        i = i + 1;
    }
    assert(es.skip(i as int).len() == 0);
    Ok(ctx.finish())
}

/// What parsing a text gives: the blocks built from its CommonMark event
/// stream, or `None` when that stream's inline elements do not nest.
pub open spec fn parse_v(text: Seq<char>) -> Option<Seq<BlockV>> {
    build_v(commonmark_event_stream(text, PARSE_OPTIONS))
}

/// Parses markdown text into a document.
pub fn parse_document(text: &str) -> (r: Result<Document, PenumbraError>)
    ensures
        match parse_v(text@) {
            Some(bs) => r matches Ok(d) && d.view_blocks() == bs,
            None => r is Err,
        },
{
    let blocks = run_parser(text)?;
    Ok(Document { blocks })
}

/// Parses markdown text into its top-level blocks.
pub fn parse_block(text: &str) -> (r: Result<Vec<Block>, PenumbraError>)
    ensures
        match parse_v(text@) {
            Some(bs) => r matches Ok(v) && blocks_view(v@) == bs,
            None => r is Err,
        },
{
    run_parser(text)
}

/// Parses markdown text and renders it to sanitized HTML.
pub fn markdown_to_html(text: &str) -> (r: Result<String, PenumbraError>)
    ensures
        match parse_v(text@) {
            Some(bs) => r matches Ok(h) && h@ == sanitized(blocks_html(bs)),
            None => r is Err,
        },
{
    let doc = parse_document(text)?;
    Ok(render_html(&doc))
}

/// Parses markdown text and returns its plain text.
pub fn markdown_to_plain(text: &str) -> (r: Result<String, PenumbraError>)
    ensures
        match parse_v(text@) {
            Some(bs) => r matches Ok(p) && p@ == doc_plain(bs),
            None => r is Err,
        },
{
    let doc = parse_document(text)?;
    Ok(doc.plain_text())
}

fn run_parser(text: &str) -> (r: Result<Vec<Block>, PenumbraError>)
    ensures
        match parse_v(text@) {
            Some(bs) => r matches Ok(v) && blocks_view(v@) == bs,
            None => r is Err,
        },
{
    let events = commonmark_events(text, PARSE_OPTIONS);
    build_blocks(&events)
}

/// The error for an event stream whose inline elements do not nest.
fn malformed() -> (e: PenumbraError)
    ensures
        e is Markdown,
{
    let mut msg = String::new();
    msg.push_str("malformed markdown event stream");
    PenumbraError::Markdown(msg)
}

} // verus!
