//! The editor's document: the parsed blocks of a source, each with the byte
//! range it was taken from and its styled text spans.
use vstd::prelude::*;
use vstd::string::StringSliceAdditionalSpecFns;
use vstd::utf8::{encode_utf8, is_char_boundary};
pub use crate::markdown::ast::{BlockId, BlockKind};
use crate::markdown::ast::{
    BlockV, InlineV, Inline, blocks_view, inline_view, inlines_view, kind_view, lemma_blocks_view_index,
    lemma_blocks_view_len, lemma_blocks_view_take, lemma_inlines_view_take,
};
use crate::markdown::commonmark::{PARSE_OPTIONS, commonmark_offset_stream, commonmark_offsets, offset_events_view};
use crate::markdown::parser::{MdEvent, MdEventV, parse_document, parse_v};

verus! {

/// A run of text with its styles.
#[derive(Debug, Clone)]
pub struct StyledSpan {
    pub text: String,
    pub bold: bool,
    pub italic: bool,
    pub strikethrough: bool,
    pub code: bool,
}

pub struct SpanV {
    pub text: Seq<char>,
    pub bold: bool,
    pub italic: bool,
    pub strikethrough: bool,
    pub code: bool,
}

pub open spec fn span_view(s: StyledSpan) -> SpanV {
    SpanV { text: s.text@, bold: s.bold, italic: s.italic, strikethrough: s.strikethrough, code: s.code }
}

pub open spec fn spans_view(s: Seq<StyledSpan>) -> Seq<SpanV> {
    s.map_values(|x: StyledSpan| span_view(x))
}

impl StyledSpan {
    pub fn duplicate(&self) -> (r: StyledSpan)
        ensures
            span_view(r) == span_view(*self),
    {
        StyledSpan {
            text: self.text.clone(),
            bold: self.bold,
            italic: self.italic,
            strikethrough: self.strikethrough,
            code: self.code,
        }
    }
}

/// A block of the editor's document.
#[derive(Debug)]
pub struct Block {
    pub id: BlockId,
    pub kind: BlockKind,
    /// The bytes of the source the block was taken from.
    pub source_range: (usize, usize),
    pub spans: Vec<StyledSpan>,
}

#[derive(Debug)]
pub struct Document {
    pub source: String,
    pub blocks: Vec<Block>,
}

// ---------------------------------------------------------------------------
// Spans.

/// The styled spans of a run of inlines inside the given styles: text and
/// code carry the styles, strong, emphasis and strikethrough add theirs,
/// links pass theirs on, the rest has no span.
pub open spec fn inline_spans(i: InlineV, bold: bool, italic: bool, strike: bool) -> Seq<SpanV>
    decreases i,
{
    match i {
        InlineV::Text(t) => seq![SpanV { text: t, bold, italic, strikethrough: strike, code: false }],
        InlineV::Code(t) => seq![SpanV { text: t, bold, italic, strikethrough: strike, code: true }],
        InlineV::Strong(c) => inlines_spans(c, true, italic, strike),
        InlineV::Emphasis(c) => inlines_spans(c, bold, true, strike),
        InlineV::Strikethrough(c) => inlines_spans(c, bold, italic, true),
        InlineV::Link { children, .. } => inlines_spans(children, bold, italic, strike),
        _ => Seq::empty(),
    }
}

pub open spec fn inlines_spans(s: Seq<InlineV>, bold: bool, italic: bool, strike: bool) -> Seq<SpanV>
    decreases s,
{
    if s.len() == 0 {
        Seq::empty()
    } else {
        inlines_spans(s.drop_last(), bold, italic, strike) + inline_spans(s.last(), bold, italic, strike)
    }
}

/// The spans of a block: those of its inlines (paragraphs and headings),
/// of its nested blocks (quotes), or its code as one code span.
pub open spec fn block_spans(b: BlockV) -> Seq<SpanV>
    decreases b,
{
    match b {
        BlockV::Paragraph(c) => inlines_spans(c, false, false, false),
        BlockV::Heading(_, c) => inlines_spans(c, false, false, false),
        BlockV::Quote(children) => blocks_spans(children),
        BlockV::CodeBlock(_, t) => seq![SpanV { text: t, bold: false, italic: false, strikethrough: false, code: true }],
        _ => Seq::empty(),
    }
}

pub open spec fn blocks_spans(s: Seq<BlockV>) -> Seq<SpanV>
    decreases s,
{
    if s.len() == 0 {
        Seq::empty()
    } else {
        blocks_spans(s.drop_last()) + block_spans(s.last())
    }
}

// ---------------------------------------------------------------------------
// Source ranges.

/// The byte ranges of the elements that pulldown-cmark opens outside all
/// others, in order, and of its thematic breaks (which the parser always
/// puts at the top level): the extents of the top-level blocks. `depth`
/// counts the elements open.
pub open spec fn top_extents(s: Seq<(MdEventV, int, int)>, depth: nat) -> Seq<(int, int)>
    decreases s.len(),
{
    if s.len() == 0 {
        Seq::empty()
    } else {
        let e = s[0];
        let rest = s.drop_first();
        match e.0 {
            MdEventV::Start(_) => (if depth == 0 {
                seq![(e.1, e.2)]
            } else {
                Seq::empty()
            }) + top_extents(rest, depth + 1),
            MdEventV::End(_) => top_extents(
                rest,
                if depth > 0 {
                    (depth - 1) as nat
                } else {
                    0
                },
            ),
            MdEventV::Rule => seq![(e.1, e.2)] + top_extents(rest, depth),
            _ => top_extents(rest, depth),
        }
    }
}

/// The top-level extents of a source.
pub open spec fn source_extents(text: Seq<char>) -> Seq<(int, int)> {
    top_extents(commonmark_offset_stream(text, PARSE_OPTIONS), 0)
}

/// Where a block whose end is looked for from byte `end` of `b` ends: just
/// after the first blank line (two newlines) from there, or at the end of
/// the source.
pub open spec fn block_end_from(b: Seq<u8>, end: int) -> int
    decreases b.len() - end,
{
    if end < 0 || end >= b.len() {
        end
    } else if b[end] == 0x0au8 && end + 1 < b.len() && b[end + 1] == 0x0au8 {
        end + 2
    } else {
        block_end_from(b, end + 1)
    }
}

/// Where the look for the end of the `i`-th block, which starts at `hint`,
/// begins: two bytes before the end of its top-level extent when that lies
/// further on, so that the blank line ending the block is found after all
/// of its text; else at `hint`.
pub open spec fn scan_from(src: Seq<u8>, exts: Seq<(int, int)>, i: int, hint: int) -> int {
    if 0 <= i < exts.len() && hint < exts[i].1 - 2 && exts[i].1 <= src.len() {
        exts[i].1 - 2
    } else {
        hint
    }
}

/// The byte range of the `i`-th block, which starts at `hint` (where the
/// block before ended): up to and including the first blank line after it,
/// or to the end of the source.
pub open spec fn block_range_v(src: Seq<u8>, exts: Seq<(int, int)>, i: int, hint: int) -> (int, int) {
    if hint >= src.len() {
        (src.len() as int, src.len() as int)
    } else {
        (hint, block_end_from(src, scan_from(src, exts, i, hint)))
    }
}

/// The ranges of the `n` blocks from the `i`-th on, the first starting at
/// `hint`, each next one where the one before ended.
pub open spec fn ranges_from(src: Seq<u8>, exts: Seq<(int, int)>, i: int, n: nat, hint: int) -> Seq<(int, int)>
    decreases n,
{
    if n == 0 {
        Seq::empty()
    } else {
        let r = block_range_v(src, exts, i, hint);
        seq![r] + ranges_from(src, exts, i + 1, (n - 1) as nat, r.1)
    }
}

pub proof fn lemma_ranges_len(src: Seq<u8>, exts: Seq<(int, int)>, i: int, n: nat, hint: int)
    ensures
        ranges_from(src, exts, i, n, hint).len() == n,
    decreases n,
{
    if n > 0 {
        lemma_ranges_len(src, exts, i + 1, (n - 1) as nat, block_range_v(src, exts, i, hint).1);
    }
}

/// An editor block as a value.
pub struct EdBlockV {
    pub kind: BlockV,
    pub range: (int, int),
    pub spans: Seq<SpanV>,
}

pub open spec fn ed_block_view(b: Block) -> EdBlockV {
    EdBlockV {
        kind: kind_view(b.kind),
        range: (b.source_range.0 as int, b.source_range.1 as int),
        spans: spans_view(b.spans@),
    }
}

pub open spec fn ed_blocks_view(s: Seq<Block>) -> Seq<EdBlockV> {
    s.map_values(|b: Block| ed_block_view(b))
}

/// The editor blocks made from parsed blocks over a source's bytes, each
/// with its range as `ranges_from` gives them.
pub open spec fn converted(bs: Seq<BlockV>, src: Seq<u8>, exts: Seq<(int, int)>) -> Seq<EdBlockV> {
    Seq::new(
        bs.len(),
        |i: int| EdBlockV { kind: bs[i], range: ranges_from(src, exts, 0, bs.len(), 0)[i], spans: block_spans(bs[i]) },
    )
}

/// The parsed blocks of a source, none when it does not parse.
pub open spec fn parsed_or_empty(text: Seq<char>) -> Seq<BlockV> {
    match parse_v(text) {
        Some(bs) => bs,
        None => Seq::empty(),
    }
}

/// The index of the first block with the given identity.
pub open spec fn find_block(bs: Seq<Block>, id: BlockId, i: int) -> Option<int>
    decreases bs.len() - i,
{
    if i < 0 || i >= bs.len() {
        None
    } else if bs[i].id == id {
        Some(i)
    } else {
        find_block(bs, id, i + 1)
    }
}

// ---------------------------------------------------------------------------
// Facts.

proof fn lemma_inlines_spans_push(s: Seq<InlineV>, x: InlineV, b: bool, i: bool, k: bool)
    ensures
        inlines_spans(s.push(x), b, i, k) == inlines_spans(s, b, i, k) + inline_spans(x, b, i, k),
{
    assert(s.push(x).drop_last() =~= s);
}

proof fn lemma_blocks_spans_push(s: Seq<BlockV>, x: BlockV)
    ensures
        blocks_spans(s.push(x)) == blocks_spans(s) + block_spans(x),
{
    assert(s.push(x).drop_last() =~= s);
}



proof fn lemma_find_block_bounds(bs: Seq<Block>, id: BlockId, i: int)
    ensures
        find_block(bs, id, i) matches Some(k) ==> i <= k < bs.len() && bs[k].id == id,
    decreases bs.len() - i,
{
    if 0 <= i < bs.len() && bs[i].id != id {
        lemma_find_block_bounds(bs, id, i + 1);
    }
}

// ---------------------------------------------------------------------------
// Building the document.

pub(crate) fn push_spans(out: &mut Vec<StyledSpan>, s: StyledSpan)
    ensures
        spans_view(final(out)@) == spans_view(old(out)@).push(span_view(s)),
{
    out.push(s);
    assert(spans_view(out@) =~= spans_view(old(out)@).push(span_view(s)));
}

fn extract_inline_span(inline: &Inline, out: &mut Vec<StyledSpan>, bold: bool, italic: bool, strikethrough: bool)
    ensures
        spans_view(final(out)@) == spans_view(old(out)@) + inline_spans(inline_view(*inline), bold, italic, strikethrough),
    decreases inline,
{
    let ghost before = spans_view(out@);
    match inline {
        Inline::Text(t) => {
            push_spans(out, StyledSpan { text: t.clone(), bold, italic, strikethrough, code: false });
            assert(spans_view(out@) =~= before + inline_spans(inline_view(*inline), bold, italic, strikethrough));
        },
        Inline::Code(t) => {
            push_spans(out, StyledSpan { text: t.clone(), bold, italic, strikethrough, code: true });
            assert(spans_view(out@) =~= before + inline_spans(inline_view(*inline), bold, italic, strikethrough));
        },
        Inline::Strong(children) => extract_inline_spans(children, out, true, italic, strikethrough),
        Inline::Emphasis(children) => extract_inline_spans(children, out, bold, true, strikethrough),
        Inline::Strikethrough(children) => extract_inline_spans(children, out, bold, italic, true),
        Inline::Link { children, .. } => extract_inline_spans(children, out, bold, italic, strikethrough),
        _ => {
            assert(spans_view(out@) =~= before + Seq::<SpanV>::empty());
        },
    }
}

fn extract_inline_spans(inlines: &Vec<Inline>, out: &mut Vec<StyledSpan>, bold: bool, italic: bool, strikethrough: bool)
    ensures
        spans_view(final(out)@) == spans_view(old(out)@) + inlines_spans(inlines_view(inlines@), bold, italic, strikethrough),
    decreases inlines,
{
    let mut i: usize = 0;
    while i < inlines.len()
        invariant
            i <= inlines.len(),
            spans_view(out@) == spans_view(old(out)@) + inlines_spans(inlines_view(inlines@.take(i as int)), bold, italic, strikethrough),
        decreases inlines.len() - i,
    {
        proof {
            assert(decreases_to!(inlines => inlines@[i as int]));
            lemma_inlines_view_take(inlines@, i as int);
            lemma_inlines_spans_push(inlines_view(inlines@.take(i as int)), inline_view(inlines@[i as int]), bold, italic, strikethrough);
        }
        let ghost mid = spans_view(out@);
        extract_inline_span(&inlines[i], out, bold, italic, strikethrough);
        proof {
            let s = inlines_spans(inlines_view(inlines@.take(i as int)), bold, italic, strikethrough);
            let x = inline_spans(inline_view(inlines@[i as int]), bold, italic, strikethrough);
            assert(spans_view(old(out)@) + s + x =~= spans_view(old(out)@) + (s + x));
        }
        i = i + 1;
    }
    assert(inlines@.take(inlines.len() as int) =~= inlines@);
}

fn extract_blocks_spans(children: &Vec<crate::markdown::ast::Block>) -> (r: Vec<StyledSpan>)
    ensures
        spans_view(r@) == blocks_spans(blocks_view(children@)),
    decreases children,
{
    let mut spans: Vec<StyledSpan> = Vec::new();
    let mut i: usize = 0;
    while i < children.len()
        invariant
            i <= children.len(),
            spans_view(spans@) == blocks_spans(blocks_view(children@.take(i as int))),
        decreases children.len() - i,
    {
        proof {
            assert(decreases_to!(children => children@[i as int]));
            lemma_blocks_view_take(children@, i as int);
            lemma_blocks_spans_push(blocks_view(children@.take(i as int)), kind_view(children@[i as int].kind));
        }
        let inner = extract_spans(&children[i].kind);
        let mut j: usize = 0;
        let ghost base = spans_view(spans@);
        while j < inner.len()
            invariant
                j <= inner.len(),
                spans_view(spans@) == base + spans_view(inner@.take(j as int)),
            decreases inner.len() - j,
        {
            push_spans(&mut spans, inner[j].duplicate());
            assert(spans_view(inner@.take(j + 1)) =~= spans_view(inner@.take(j as int)).push(span_view(inner@[j as int])));
            assert(base + spans_view(inner@.take(j + 1)) =~= (base + spans_view(inner@.take(j as int))).push(span_view(inner@[j as int])));
            j = j + 1;
        }
        assert(inner@.take(inner.len() as int) =~= inner@);
        i = i + 1;
    }
    assert(children@.take(children.len() as int) =~= children@);
    spans
}

fn extract_spans(kind: &BlockKind) -> (r: Vec<StyledSpan>)
    ensures
        spans_view(r@) == block_spans(kind_view(*kind)),
    decreases kind,
{
    let mut spans: Vec<StyledSpan> = Vec::new();
    match kind {
        BlockKind::Paragraph(inlines) => {
            extract_inline_spans(inlines, &mut spans, false, false, false);
            assert(spans_view(spans@) =~= block_spans(kind_view(*kind)));
        },
        BlockKind::Heading { children, .. } => {
            extract_inline_spans(children, &mut spans, false, false, false);
            assert(spans_view(spans@) =~= block_spans(kind_view(*kind)));
        },
        BlockKind::Quote(children) => {
            spans = extract_blocks_spans(children);
        },
        BlockKind::CodeBlock { text, .. } => {
            push_spans(&mut spans, StyledSpan { text: text.clone(), bold: false, italic: false, strikethrough: false, code: true });
            assert(spans_view(spans@) =~= block_spans(kind_view(*kind)));
        },
        _ => {
            assert(spans_view(spans@) =~= block_spans(kind_view(*kind)));
        },
    }
    spans
}

/// The top-level extents of a source, as `source_extents` says.
fn block_extents(source: &str) -> (r: Vec<(usize, usize)>)
    ensures
        r@.map_values(|p: (usize, usize)| (p.0 as int, p.1 as int)) == source_extents(source@),
{
    let evs = commonmark_offsets(source, PARSE_OPTIONS);
    let ghost s = offset_events_view(evs@);
    let mut out: Vec<(usize, usize)> = Vec::new();
    let mut depth: usize = 0;
    let mut i: usize = 0;
    assert(s.skip(0) =~= s);
    assert(out@.map_values(|p: (usize, usize)| (p.0 as int, p.1 as int)) =~= Seq::<(int, int)>::empty());
    while i < evs.len()
        invariant
            i <= evs.len(),
            s == offset_events_view(evs@),
            s == commonmark_offset_stream(source@, PARSE_OPTIONS),
            depth <= i,
            out@.map_values(|p: (usize, usize)| (p.0 as int, p.1 as int)) + top_extents(s.skip(i as int), depth as nat)
                == top_extents(s, 0),
        decreases evs.len() - i,
    {
        let ghost before = out@.map_values(|p: (usize, usize)| (p.0 as int, p.1 as int));
        let ghost rest = s.skip(i as int);
        proof {
            assert(rest[0] == s[i as int]);
            assert(rest.drop_first() =~= s.skip(i + 1));
        }
        let a = evs[i].1;
        let b = evs[i].2;
        match &evs[i].0 {
            MdEvent::Start(_) => {
                if depth == 0 {
                    out.push((a, b));
                    assert(out@.map_values(|p: (usize, usize)| (p.0 as int, p.1 as int)) =~= before.push((a as int, b as int)));
                    assert(before + (seq![(a as int, b as int)] + top_extents(s.skip(i + 1), 1)) =~= before.push((a as int, b as int)) + top_extents(s.skip(i + 1), 1));
                } else {
                    assert(Seq::<(int, int)>::empty() + top_extents(s.skip(i + 1), depth as nat + 1) =~= top_extents(s.skip(i + 1), depth as nat + 1));
                }
                depth = depth + 1;
            },
            MdEvent::End(_) => {
                if depth > 0 {
                    depth = depth - 1;
                }
            },
            MdEvent::Rule => {
                out.push((a, b));
                assert(out@.map_values(|p: (usize, usize)| (p.0 as int, p.1 as int)) =~= before.push((a as int, b as int)));
                assert(before + (seq![(a as int, b as int)] + top_extents(s.skip(i + 1), depth as nat)) =~= before.push((a as int, b as int)) + top_extents(s.skip(i + 1), depth as nat));
            },
            _ => {},
        }
        i = i + 1;
    }
    assert(top_extents(s.skip(i as int), depth as nat) =~= Seq::<(int, int)>::empty());
    assert(out@.map_values(|p: (usize, usize)| (p.0 as int, p.1 as int)) + Seq::<(int, int)>::empty() =~= out@.map_values(|p: (usize, usize)| (p.0 as int, p.1 as int)));
    out
}

/// The byte range of a block that starts at `hint`, its end looked for
/// from `from` on (see `block_range_v`).
fn find_block_range(source: &str, hint: usize, from: usize) -> (r: (usize, usize))
    requires
        hint <= from,
        hint < encode_utf8(source@).len() ==> from < encode_utf8(source@).len(),
    ensures
        (r.0 as int, r.1 as int) == (if hint >= encode_utf8(source@).len() {
            (encode_utf8(source@).len() as int, encode_utf8(source@).len() as int)
        } else {
            (hint as int, block_end_from(encode_utf8(source@), from as int))
        }),
{
    let bytes = source.as_bytes();
    let len = bytes.len();
    if hint >= len {
        return (len, len);
    }
    let mut end = from;
    while end < len
        invariant
            bytes@ == encode_utf8(source@),
            len == bytes@.len(),
            hint < len,
            from <= end <= len,
            block_end_from(bytes@, end as int) == block_end_from(bytes@, from as int),
        decreases len - end,
    {
        if bytes[end] == 0x0au8 && end + 1 < len && bytes[end + 1] == 0x0au8 {
            assert(block_end_from(bytes@, end as int) == end + 2);
            return (hint, end + 2);
        }
        end = end + 1;
    }
    (hint, end)
}

fn convert_blocks(md_blocks: &Vec<crate::markdown::ast::Block>, source: &str) -> (r: Vec<Block>)
    ensures
        ed_blocks_view(r@) == converted(blocks_view(md_blocks@), encode_utf8(source@), source_extents(source@)),
        r@.len() == md_blocks@.len(),
        forall|i: int| 0 <= i < r@.len() ==> #[trigger] r@[i].id == md_blocks@[i].id,
{
    let ghost bs = blocks_view(md_blocks@);
    let ghost src = encode_utf8(source@);
    let exts = block_extents(source);
    let ghost ev = source_extents(source@);
    let ghost all = ranges_from(src, ev, 0, md_blocks@.len(), 0);
    proof {
        lemma_blocks_view_len(md_blocks@);
        lemma_ranges_len(src, ev, 0, md_blocks@.len(), 0);
        assert(all.skip(0) =~= all);
        assert(source.spec_bytes() == encode_utf8(source@));
    }
    let len = source.as_bytes().len();
    let mut offset: usize = 0;
    let mut result: Vec<Block> = Vec::new();
    let mut i: usize = 0;
    while i < md_blocks.len()
        invariant
            i <= md_blocks.len(),
            bs == blocks_view(md_blocks@),
            bs.len() == md_blocks@.len(),
            src == encode_utf8(source@),
            len == src.len(),
            ev == source_extents(source@),
            exts@.map_values(|p: (usize, usize)| (p.0 as int, p.1 as int)) == ev,
            all == ranges_from(src, ev, 0, md_blocks@.len(), 0),
            all.len() == md_blocks@.len(),
            result@.len() == i,
            all.skip(i as int) == ranges_from(src, ev, i as int, (md_blocks@.len() - i) as nat, offset as int),
            forall|j: int| 0 <= j < i ==> #[trigger] ed_block_view(result@[j]) == (EdBlockV {
                kind: bs[j],
                range: all[j],
                spans: block_spans(bs[j]),
            }),
            forall|j: int| 0 <= j < i ==> #[trigger] result@[j].id == md_blocks@[j].id,
        decreases md_blocks.len() - i,
    {
        let from = if i < exts.len() && exts[i].1 <= len && exts[i].1 >= 2 && offset < exts[i].1 - 2 {
            exts[i].1 - 2
        } else {
            offset
        };
        proof {
            if i < exts.len() {
                assert(ev[i as int] == (exts@[i as int].0 as int, exts@[i as int].1 as int));
            }
            assert(from as int == scan_from(src, ev, i as int, offset as int));
        }
        let (start, end) = find_block_range(source, offset, from);
        proof {
            lemma_blocks_view_index(md_blocks@, i as int);
            let rest = ranges_from(src, ev, i as int, (md_blocks@.len() - i) as nat, offset as int);
            assert(rest[0] == block_range_v(src, ev, i as int, offset as int));
            assert(all.skip(i as int)[0] == all[i as int]);
            assert(all.skip(i + 1) =~= all.skip(i as int).drop_first());
            assert(rest.drop_first() =~= ranges_from(src, ev, i + 1, (md_blocks@.len() - i - 1) as nat, end as int));
        }
        let spans = extract_spans(&md_blocks[i].kind);
        result.push(Block { id: md_blocks[i].id, kind: md_blocks[i].kind.duplicate(), source_range: (start, end), spans });
        offset = end;
        i = i + 1;
    }
    assert(ed_blocks_view(result@) =~= converted(bs, src, ev));
    result
}

impl Document {
    pub open spec fn blocks_v(&self) -> Seq<EdBlockV> {
        ed_blocks_view(self.blocks@)
    }

    /// Parses a source into blocks, each with the byte range it was found
    /// in: from where the block before ended to just after the first blank
    /// line that follows the block's whole text (as the markdown parser
    /// reports the extent of the matching top-level element), or to the end;
    /// a source that does not parse gives no blocks.
    pub fn new(source: &str) -> (d: Document)
        ensures
            d.source@ == source@,
            d.blocks_v() == converted(parsed_or_empty(source@), encode_utf8(source@), source_extents(source@)),
    {
        let blocks = match parse_document(source) {
            Ok(md_doc) => convert_blocks(&md_doc.blocks, source),
            Err(_) => {
                let empty: Vec<crate::markdown::ast::Block> = Vec::new();
                assert(blocks_view(empty@) =~= Seq::<BlockV>::empty());
                convert_blocks(&empty, source)
            },
        };
        Document { source: source.to_owned(), blocks }
    }

    /// The first block with the given identity.
    pub fn block(&self, id: BlockId) -> (r: Option<&Block>)
        ensures
            match find_block(self.blocks@, id, 0) {
                Some(k) => r == Some(&self.blocks@[k]),
                None => r is None,
            },
    {
        let mut i: usize = 0;
        while i < self.blocks.len()
            invariant
                i <= self.blocks.len(),
                find_block(self.blocks@, id, i as int) == find_block(self.blocks@, id, 0),
            decreases self.blocks.len() - i,
        {
            if self.blocks[i].id == id {
                return Some(&self.blocks[i]);
            }
            i = i + 1;
        }
        None
    }

    pub fn blocks(&self) -> (r: &[Block])
        ensures
            r@ == self.blocks@,
    {
        self.blocks.as_slice()
    }

    /// The byte range of the first block with the given identity.
    pub fn source_range(&self, id: BlockId) -> (r: Option<(usize, usize)>)
        ensures
            match find_block(self.blocks@, id, 0) {
                Some(k) => r == Some(self.blocks@[k].source_range),
                None => r is None,
            },
    {
        match self.block(id) {
            Some(b) => Some(b.source_range),
            None => None,
        }
    }
}

} // verus!
