//! The bridge to `pulldown_cmark`: its event stream, carried over into the
//! library's own event type.
use vstd::prelude::*;
use pulldown_cmark::{Alignment, CodeBlockKind, Event, Options, Parser, TagEnd};
use pulldown_cmark::Tag as CmTag;
use crate::markdown::ast::TableAlign;
use crate::markdown::parser::{MdEvent, MdEventV, MdTag, MdTagEnd, event_view, events_view};

verus! {

#[verifier::external_type_specification]
#[verifier::external_body]
pub struct ExCmarkEvent<'a>(Event<'a>);

#[verifier::external_type_specification]
#[verifier::external_body]
pub struct ExCmarkTagEnd(TagEnd);

#[verifier::external_type_specification]
#[verifier::external_body]
pub struct ExCmarkCodeBlockKind<'a>(CodeBlockKind<'a>);

#[verifier::external_type_specification]
#[verifier::external_body]
pub struct ExCmarkAlignment(Alignment);

/// The bits of `pulldown_cmark::Options` that the library parses with:
/// tables (bit 1), footnotes (bit 2), strikethrough (bit 3), task lists
/// (bit 4) and heading attributes (bit 6).
pub const PARSE_OPTIONS: u32 = (1u32 << 1) | (1u32 << 2) | (1u32 << 3) | (1u32 << 4) | (1u32 << 6);

/// The event stream that `pulldown_cmark::Parser` yields for a text under
/// the options whose bits are `options`, each event carried over into the
/// library's event type.
pub uninterp spec fn commonmark_event_stream(text: Seq<char>, options: u32) -> Seq<MdEventV>;

/// Runs `pulldown_cmark::Parser::new_ext` over `text` with the options
/// whose bits are `options` and collects its events. Trusted: the events,
/// viewed as values, are `commonmark_event_stream(text@, options)`; the
/// parser is a pure function of its input and options.
#[verifier::external_body]
pub(crate) fn commonmark_events(text: &str, options: u32) -> (r: Vec<MdEvent>)
    ensures
        events_view(r@) == commonmark_event_stream(text@, options),
{
    Parser::new_ext(text, Options::from_bits_retain(options)).map(event_of).collect()
}

/// The events of `pulldown_cmark::Parser::new_ext` for a text under the
/// options whose bits are `options`, each with the byte range of the source
/// it stands for, as its offset iterator yields them.
pub uninterp spec fn commonmark_offset_stream(text: Seq<char>, options: u32) -> Seq<(MdEventV, int, int)>;

pub open spec fn offset_events_view(s: Seq<(MdEvent, usize, usize)>) -> Seq<(MdEventV, int, int)> {
    s.map_values(|p: (MdEvent, usize, usize)| (event_view(p.0), p.1 as int, p.2 as int))
}

/// Runs `pulldown_cmark::Parser::new_ext` over `text` with the options whose
/// bits are `options` and collects `into_offset_iter`'s events with their
/// byte ranges. Trusted: the result, viewed as values, is
/// `commonmark_offset_stream(text@, options)`, a pure function of the text
/// and options; and its events are those of
/// `commonmark_event_stream(text@, options)`, since the offset iterator
/// yields the parser's events, each with its range.
#[verifier::external_body]
pub(crate) fn commonmark_offsets(text: &str, options: u32) -> (r: Vec<(MdEvent, usize, usize)>)
    ensures
        offset_events_view(r@) == commonmark_offset_stream(text@, options),
        offset_events_view(r@).map_values(|p: (MdEventV, int, int)| p.0) == commonmark_event_stream(text@, options),
{
    let parser = Parser::new_ext(text, Options::from_bits_retain(options));
    parser.into_offset_iter().map(|(e, r)| (event_of(e), r.start, r.end)).collect()
}

/// Carries one `pulldown_cmark::Event` over, variant for variant; the math
/// events, which the library does not model, become `MdEvent::Other`.
#[verifier::external_body]
fn event_of(e: Event<'_>) -> MdEvent {
    match e {
        Event::Start(t) => block_start_of(Event::Start(t)),
        Event::End(t) => MdEvent::End(tag_end_of(t)),
        Event::Text(s) => MdEvent::Text(s.into_string()),
        Event::Code(s) => MdEvent::Code(s.into_string()),
        Event::InlineMath(_) | Event::DisplayMath(_) => MdEvent::Other,
        Event::Html(s) => MdEvent::Html(s.into_string()),
        Event::InlineHtml(s) => MdEvent::InlineHtml(s.into_string()),
        Event::FootnoteReference(s) => MdEvent::FootnoteReference(s.into_string()),
        Event::SoftBreak => MdEvent::SoftBreak,
        Event::HardBreak => MdEvent::HardBreak,
        Event::Rule => MdEvent::Rule,
        Event::TaskListMarker(b) => MdEvent::TaskListMarker(b),
    }
}

/// Carries the start of a block-level element over; the heading level is
/// the number of the `HeadingLevel` variant (1 to 6).
#[verifier::external_body]
fn block_start_of(e: Event<'_>) -> MdEvent {
    match e {
        Event::Start(CmTag::Paragraph) => MdEvent::Start(MdTag::Paragraph),
        Event::Start(CmTag::Heading { level, .. }) => MdEvent::Start(MdTag::Heading(level as u8)),
        Event::Start(CmTag::BlockQuote(_)) => MdEvent::Start(MdTag::BlockQuote),
        Event::Start(CmTag::CodeBlock(k)) => MdEvent::Start(MdTag::CodeBlock(code_info_of(k))),
        Event::Start(CmTag::List(start)) => MdEvent::Start(MdTag::List(start)),
        Event::Start(CmTag::Item) => MdEvent::Start(MdTag::Item),
        other => table_start_of(other),
    }
}

/// Carries the start of a table element or a footnote definition over.
#[verifier::external_body]
fn table_start_of(e: Event<'_>) -> MdEvent {
    match e {
        Event::Start(CmTag::Table(a)) =>
            MdEvent::Start(MdTag::Table(a.into_iter().map(align_of).collect())),
        Event::Start(CmTag::TableHead) => MdEvent::Start(MdTag::TableHead),
        Event::Start(CmTag::TableRow) => MdEvent::Start(MdTag::TableRow),
        Event::Start(CmTag::TableCell) => MdEvent::Start(MdTag::TableCell),
        Event::Start(CmTag::FootnoteDefinition(n)) =>
            MdEvent::Start(MdTag::FootnoteDefinition(n.into_string())),
        other => inline_start_of(other),
    }
}

/// Carries the start of an inline element over; the elements the library
/// does not model, listed in the last arm but one, start `MdTag::Other`.
/// Only starts reach this function: the last arm is for the events that
/// `event_of` and the functions before this one carry over themselves.
#[verifier::external_body]
fn inline_start_of(e: Event<'_>) -> MdEvent {
    match e {
        Event::Start(CmTag::Emphasis) => MdEvent::Start(MdTag::Emphasis),
        Event::Start(CmTag::Strong) => MdEvent::Start(MdTag::Strong),
        Event::Start(CmTag::Strikethrough) => MdEvent::Start(MdTag::Strikethrough),
        Event::Start(CmTag::Link { dest_url, title, .. }) =>
            MdEvent::Start(MdTag::Link { url: dest_url.into_string(), title: title.into_string() }),
        Event::Start(CmTag::Image { dest_url, title, .. }) =>
            MdEvent::Start(MdTag::Image { url: dest_url.into_string(), title: title.into_string() }),
        Event::Start(CmTag::HtmlBlock | CmTag::DefinitionList | CmTag::DefinitionListTitle
            | CmTag::DefinitionListDefinition | CmTag::Superscript | CmTag::Subscript
            | CmTag::MetadataBlock(_)) => MdEvent::Start(MdTag::Other),
        _ => MdEvent::Other,
    }
}

/// A fenced code block's info string, or `None` for an indented block.
#[verifier::external_body]
fn code_info_of(k: CodeBlockKind<'_>) -> Option<String> {
    match k {
        CodeBlockKind::Fenced(info) => Some(info.into_string()),
        CodeBlockKind::Indented => None,
    }
}

/// Carries a column alignment over.
#[verifier::external_body]
fn align_of(a: Alignment) -> TableAlign {
    match a {
        Alignment::None => TableAlign::Unaligned,
        Alignment::Left => TableAlign::Left,
        Alignment::Center => TableAlign::Center,
        Alignment::Right => TableAlign::Right,
    }
}

/// Carries a block-level `pulldown_cmark::TagEnd` over.
#[verifier::external_body]
fn tag_end_of(t: TagEnd) -> MdTagEnd {
    match t {
        TagEnd::Paragraph => MdTagEnd::Paragraph,
        TagEnd::Heading(_) => MdTagEnd::Heading,
        TagEnd::BlockQuote(_) => MdTagEnd::BlockQuote,
        TagEnd::CodeBlock => MdTagEnd::CodeBlock,
        TagEnd::List(ordered) => MdTagEnd::List(ordered),
        TagEnd::Item => MdTagEnd::Item,
        TagEnd::Table => MdTagEnd::Table,
        TagEnd::TableHead => MdTagEnd::TableHead,
        TagEnd::TableRow => MdTagEnd::TableRow,
        other => inline_tag_end_of(other),
    }
}

/// Carries the remaining `pulldown_cmark::TagEnd` variants over; ends of
/// the tags the library does not model, listed in the last arm but one,
/// become `MdTagEnd::Other`. The last arm is for the ends that `tag_end_of`
/// carries over itself, which never reach this function.
#[verifier::external_body]
fn inline_tag_end_of(t: TagEnd) -> MdTagEnd {
    match t {
        TagEnd::TableCell => MdTagEnd::TableCell,
        TagEnd::FootnoteDefinition => MdTagEnd::FootnoteDefinition,
        TagEnd::Emphasis => MdTagEnd::Emphasis,
        TagEnd::Strong => MdTagEnd::Strong,
        TagEnd::Strikethrough => MdTagEnd::Strikethrough,
        TagEnd::Link => MdTagEnd::Link,
        TagEnd::Image => MdTagEnd::Image,
        TagEnd::HtmlBlock | TagEnd::DefinitionList | TagEnd::DefinitionListTitle
            | TagEnd::DefinitionListDefinition | TagEnd::Superscript | TagEnd::Subscript
            | TagEnd::MetadataBlock(_) => MdTagEnd::Other,
        _ => MdTagEnd::Other,
    }
}

} // verus!
