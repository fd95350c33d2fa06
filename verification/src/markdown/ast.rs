//! The markdown document tree and its plain-text projection.
use vstd::prelude::*;
use crate::text::{chars_of, string_of};

verus! {

/// Identity of a parsed block. Two blocks with equal content may carry
/// different identities.
#[derive(Debug, Clone, Copy, PartialEq, Eq, Hash, Structural)]
pub struct BlockId(pub u64);

impl BlockId {
    /// A fresh block identity: 64 random bits of a version-4 UUID. Counting
    /// identities out would take process-wide state (a `static`), which
    /// this crate keeps none of, so they are drawn at random instead.
    /// Nothing is promised of the value, so two identities drawn in one
    /// process are not promised to differ.
    #[verifier::external_body]
    pub fn new() -> (id: BlockId) {
        BlockId(uuid::Uuid::new_v4().as_u64_pair().1)
    }
}

#[derive(Debug)]
pub struct Document {
    pub blocks: Vec<Block>,
}

#[derive(Debug)]
pub struct Block {
    pub id: BlockId,
    pub kind: BlockKind,
}

#[derive(Debug, PartialEq)]
#[allow(inconsistent_fields)]
pub enum BlockKind {
    Paragraph(Vec<Inline>),
    Heading { level: u8, children: Vec<Inline> },
    CodeBlock { language: Option<String>, text: String },
    List { ordered: bool, start: Option<u64>, items: Vec<ListItem> },
    Quote(Vec<Block>),
    ThematicBreak,
    Table(Table),
    HtmlBlock(String),
    FootnoteDefinition { name: String, children: Vec<Block> },
}

#[derive(Debug, PartialEq)]
pub struct ListItem {
    pub checked: Option<bool>,
    pub children: Vec<Block>,
}

#[derive(Debug, PartialEq)]
pub struct Table {
    pub headers: Vec<Vec<Inline>>,
    pub rows: Vec<Vec<Vec<Inline>>>,
    pub align: Vec<TableAlign>,
}

#[derive(Debug, Clone, Copy, PartialEq, Eq, Structural)]
pub enum TableAlign {
    Unaligned,
    Left,
    Center,
    Right,
}

#[derive(Debug, PartialEq)]
pub enum Inline {
    Text(String),
    Strong(Vec<Inline>),
    Emphasis(Vec<Inline>),
    Strikethrough(Vec<Inline>),
    Code(String),
    Link { url: String, title: String, children: Vec<Inline> },
    Image { url: String, alt: String, title: String },
    NoteEmbed { note_ref: String },
    TagRef { name: String },
    LineBreak,
    SoftBreak,
}

// ---------------------------------------------------------------------------
// Mathematical model of the tree: strings become character sequences, vectors
// become sequences, and block identities are left out.

pub enum InlineV {
    Text(Seq<char>),
    Strong(Seq<InlineV>),
    Emphasis(Seq<InlineV>),
    Strikethrough(Seq<InlineV>),
    Code(Seq<char>),
    Link { url: Seq<char>, title: Seq<char>, children: Seq<InlineV> },
    Image { url: Seq<char>, alt: Seq<char>, title: Seq<char> },
    NoteEmbed(Seq<char>),
    TagRef(Seq<char>),
    LineBreak,
    SoftBreak,
}

pub struct ItemV {
    pub checked: Option<bool>,
    pub children: Seq<BlockV>,
}

pub struct TableV {
    pub headers: Seq<Seq<InlineV>>,
    pub rows: Seq<Seq<Seq<InlineV>>>,
    pub align: Seq<TableAlign>,
}

pub enum BlockV {
    Paragraph(Seq<InlineV>),
    Heading(u8, Seq<InlineV>),
    CodeBlock(Option<Seq<char>>, Seq<char>),
    List(bool, Option<u64>, Seq<ItemV>),
    Quote(Seq<BlockV>),
    ThematicBreak,
    Table(TableV),
    HtmlBlock(Seq<char>),
    FootnoteDefinition(Seq<char>, Seq<BlockV>),
}

pub open spec fn opt_str_view(o: Option<String>) -> Option<Seq<char>> {
    match o {
        Some(s) => Some(s@),
        None => None,
    }
}

pub open spec fn inline_view(i: Inline) -> InlineV
    decreases i,
{
    match i {
        Inline::Text(t) => InlineV::Text(t@),
        Inline::Strong(c) => InlineV::Strong(inlines_view(c@)),
        Inline::Emphasis(c) => InlineV::Emphasis(inlines_view(c@)),
        Inline::Strikethrough(c) => InlineV::Strikethrough(inlines_view(c@)),
        Inline::Code(t) => InlineV::Code(t@),
        Inline::Link { url, title, children } => InlineV::Link {
            url: url@,
            title: title@,
            children: inlines_view(children@),
        },
        Inline::Image { url, alt, title } => InlineV::Image { url: url@, alt: alt@, title: title@ },
        Inline::NoteEmbed { note_ref } => InlineV::NoteEmbed(note_ref@),
        Inline::TagRef { name } => InlineV::TagRef(name@),
        Inline::LineBreak => InlineV::LineBreak,
        Inline::SoftBreak => InlineV::SoftBreak,
    }
}

pub open spec fn inlines_view(s: Seq<Inline>) -> Seq<InlineV>
    decreases s,
{
    if s.len() == 0 {
        Seq::empty()
    } else {
        inlines_view(s.drop_last()).push(inline_view(s.last()))
    }
}

pub open spec fn cells_view(s: Seq<Vec<Inline>>) -> Seq<Seq<InlineV>>
    decreases s.len(),
{
    if s.len() == 0 {
        Seq::empty()
    } else {
        cells_view(s.drop_last()).push(inlines_view(s.last()@))
    }
}

pub open spec fn rows_view(s: Seq<Vec<Vec<Inline>>>) -> Seq<Seq<Seq<InlineV>>>
    decreases s.len(),
{
    if s.len() == 0 {
        Seq::empty()
    } else {
        rows_view(s.drop_last()).push(cells_view(s.last()@))
    }
}

pub open spec fn table_view(t: Table) -> TableV {
    TableV { headers: cells_view(t.headers@), rows: rows_view(t.rows@), align: t.align@ }
}

pub open spec fn kind_view(k: BlockKind) -> BlockV
    decreases k,
{
    match k {
        BlockKind::Paragraph(c) => BlockV::Paragraph(inlines_view(c@)),
        BlockKind::Heading { level, children } => BlockV::Heading(level, inlines_view(children@)),
        BlockKind::CodeBlock { language, text } => BlockV::CodeBlock(opt_str_view(language), text@),
        BlockKind::List { ordered, start, items } => BlockV::List(ordered, start, items_view(items@)),
        BlockKind::Quote(c) => BlockV::Quote(blocks_view(c@)),
        BlockKind::ThematicBreak => BlockV::ThematicBreak,
        BlockKind::Table(t) => BlockV::Table(table_view(t)),
        BlockKind::HtmlBlock(h) => BlockV::HtmlBlock(h@),
        BlockKind::FootnoteDefinition { name, children } => BlockV::FootnoteDefinition(
            name@,
            blocks_view(children@),
        ),
    }
}

pub open spec fn blocks_view(s: Seq<Block>) -> Seq<BlockV>
    decreases s,
{
    if s.len() == 0 {
        Seq::empty()
    } else {
        blocks_view(s.drop_last()).push(kind_view(s.last().kind))
    }
}

pub open spec fn item_view(i: ListItem) -> ItemV
    decreases i,
{
    ItemV { checked: i.checked, children: blocks_view(i.children@) }
}

pub open spec fn items_view(s: Seq<ListItem>) -> Seq<ItemV>
    decreases s,
{
    if s.len() == 0 {
        Seq::empty()
    } else {
        items_view(s.drop_last()).push(item_view(s.last()))
    }
}

impl Document {
    pub open spec fn view_blocks(&self) -> Seq<BlockV> {
        blocks_view(self.blocks@)
    }
}

// ---------------------------------------------------------------------------
// Facts about the models of sequences.

pub proof fn lemma_inlines_view_take(s: Seq<Inline>, i: int)
    requires
        0 <= i < s.len(),
    ensures
        inlines_view(s.take(i + 1)) == inlines_view(s.take(i)).push(inline_view(s[i])),
{
    assert(s.take(i + 1).drop_last() =~= s.take(i));
}

pub proof fn lemma_inlines_view_push(s: Seq<Inline>, x: Inline)
    ensures
        inlines_view(s.push(x)) == inlines_view(s).push(inline_view(x)),
{
    assert(s.push(x).drop_last() =~= s);
}

pub proof fn lemma_inlines_view_len(s: Seq<Inline>)
    ensures
        inlines_view(s).len() == s.len(),
    decreases s.len(),
{
    if s.len() > 0 {
        lemma_inlines_view_len(s.drop_last());
    }
}

pub proof fn lemma_inlines_view_index(s: Seq<Inline>, i: int)
    requires
        0 <= i < s.len(),
    ensures
        inlines_view(s)[i] == inline_view(s[i]),
        inlines_view(s).len() == s.len(),
    decreases s.len(),
{
    lemma_inlines_view_len(s);
    if i < s.len() - 1 {
        lemma_inlines_view_index(s.drop_last(), i);
    }
}

pub proof fn lemma_inlines_view_concat(a: Seq<Inline>, b: Seq<Inline>)
    ensures
        inlines_view(a + b) == inlines_view(a) + inlines_view(b),
    decreases b.len(),
{
    if b.len() == 0 {
        assert(a + b =~= a);
        assert(inlines_view(a) + inlines_view(b) =~= inlines_view(a));
    } else {
        lemma_inlines_view_concat(a, b.drop_last());
        assert((a + b).drop_last() =~= a + b.drop_last());
        assert((a + b).last() == b.last());
        assert(inlines_view(a) + inlines_view(b) =~= (inlines_view(a) + inlines_view(b.drop_last())).push(
            inline_view(b.last())));
    }
}

pub proof fn lemma_inlines_view_subrange(s: Seq<Inline>, lo: int, hi: int)
    requires
        0 <= lo <= hi <= s.len(),
    ensures
        inlines_view(s.subrange(lo, hi)) == inlines_view(s).subrange(lo, hi),
{
    let t = s.subrange(lo, hi);
    lemma_inlines_view_len(t);
    lemma_inlines_view_len(s);
    assert forall|k: int| 0 <= k < hi - lo implies inlines_view(t)[k] == inlines_view(s).subrange(lo, hi)[k] by {
        lemma_inlines_view_index(t, k);
        lemma_inlines_view_index(s, k + lo);
    }
    assert(inlines_view(t) =~= inlines_view(s).subrange(lo, hi));
}

pub proof fn lemma_blocks_view_take(s: Seq<Block>, i: int)
    requires
        0 <= i < s.len(),
    ensures
        blocks_view(s.take(i + 1)) == blocks_view(s.take(i)).push(kind_view(s[i].kind)),
{
    assert(s.take(i + 1).drop_last() =~= s.take(i));
}

pub proof fn lemma_blocks_view_push(s: Seq<Block>, x: Block)
    ensures
        blocks_view(s.push(x)) == blocks_view(s).push(kind_view(x.kind)),
{
    assert(s.push(x).drop_last() =~= s);
}

pub proof fn lemma_blocks_view_len(s: Seq<Block>)
    ensures
        blocks_view(s).len() == s.len(),
    decreases s.len(),
{
    if s.len() > 0 {
        lemma_blocks_view_len(s.drop_last());
    }
}

pub proof fn lemma_blocks_view_index(s: Seq<Block>, i: int)
    requires
        0 <= i < s.len(),
    ensures
        blocks_view(s)[i] == kind_view(s[i].kind),
        blocks_view(s).len() == s.len(),
    decreases s.len(),
{
    lemma_blocks_view_len(s);
    if i < s.len() - 1 {
        lemma_blocks_view_index(s.drop_last(), i);
    }
}

pub proof fn lemma_items_view_take(s: Seq<ListItem>, i: int)
    requires
        0 <= i < s.len(),
    ensures
        items_view(s.take(i + 1)) == items_view(s.take(i)).push(item_view(s[i])),
{
    assert(s.take(i + 1).drop_last() =~= s.take(i));
}

pub proof fn lemma_items_view_push(s: Seq<ListItem>, x: ListItem)
    ensures
        items_view(s.push(x)) == items_view(s).push(item_view(x)),
{
    assert(s.push(x).drop_last() =~= s);
}

pub proof fn lemma_cells_view_take(s: Seq<Vec<Inline>>, i: int)
    requires
        0 <= i < s.len(),
    ensures
        cells_view(s.take(i + 1)) == cells_view(s.take(i)).push(inlines_view(s[i]@)),
{
    assert(s.take(i + 1).drop_last() =~= s.take(i));
}

pub proof fn lemma_cells_view_push(s: Seq<Vec<Inline>>, x: Vec<Inline>)
    ensures
        cells_view(s.push(x)) == cells_view(s).push(inlines_view(x@)),
{
    assert(s.push(x).drop_last() =~= s);
}

pub proof fn lemma_cells_view_len(s: Seq<Vec<Inline>>)
    ensures
        cells_view(s).len() == s.len(),
    decreases s.len(),
{
    if s.len() > 0 {
        lemma_cells_view_len(s.drop_last());
    }
}

pub proof fn lemma_cells_view_index(s: Seq<Vec<Inline>>, i: int)
    requires
        0 <= i < s.len(),
    ensures
        cells_view(s)[i] == inlines_view(s[i]@),
        cells_view(s).len() == s.len(),
    decreases s.len(),
{
    lemma_cells_view_len(s);
    if i < s.len() - 1 {
        lemma_cells_view_index(s.drop_last(), i);
    }
}

pub proof fn lemma_items_view_len(s: Seq<ListItem>)
    ensures
        items_view(s).len() == s.len(),
    decreases s.len(),
{
    if s.len() > 0 {
        lemma_items_view_len(s.drop_last());
    }
}

pub proof fn lemma_rows_view_take(s: Seq<Vec<Vec<Inline>>>, i: int)
    requires
        0 <= i < s.len(),
    ensures
        rows_view(s.take(i + 1)) == rows_view(s.take(i)).push(cells_view(s[i]@)),
{
    assert(s.take(i + 1).drop_last() =~= s.take(i));
}

pub proof fn lemma_rows_view_push(s: Seq<Vec<Vec<Inline>>>, x: Vec<Vec<Inline>>)
    ensures
        rows_view(s.push(x)) == rows_view(s).push(cells_view(x@)),
{
    assert(s.push(x).drop_last() =~= s);
}

// ---------------------------------------------------------------------------
// Plain text.

/// The text of an HTML fragment with everything between `<` and `>` removed,
/// `in_tag` telling whether the fragment starts inside a tag.
pub open spec fn strip_html_from(s: Seq<char>, in_tag: bool) -> Seq<char>
    decreases s.len(),
{
    if s.len() == 0 {
        Seq::empty()
    } else if s[0] == '<' {
        strip_html_from(s.drop_first(), true)
    } else if s[0] == '>' {
        strip_html_from(s.drop_first(), false)
    } else if !in_tag {
        seq![s[0]] + strip_html_from(s.drop_first(), in_tag)
    } else {
        strip_html_from(s.drop_first(), in_tag)
    }
}

pub open spec fn inline_plain(i: InlineV) -> Seq<char>
    decreases i,
{
    match i {
        InlineV::Text(t) => t,
        InlineV::Code(t) => t,
        InlineV::Strong(c) => inlines_plain(c),
        InlineV::Emphasis(c) => inlines_plain(c),
        InlineV::Strikethrough(c) => inlines_plain(c),
        InlineV::Link { children, .. } => inlines_plain(children),
        InlineV::Image { alt, .. } => alt,
        InlineV::NoteEmbed(r) => r,
        InlineV::TagRef(n) => n,
        InlineV::LineBreak => seq![' '],
        InlineV::SoftBreak => seq![' '],
    }
}

pub open spec fn inlines_plain(s: Seq<InlineV>) -> Seq<char>
    decreases s,
{
    if s.len() == 0 {
        Seq::empty()
    } else {
        inlines_plain(s.drop_last()) + inline_plain(s.last())
    }
}

/// One table row: every cell's text followed by a space, then a newline.
pub open spec fn row_plain(row: Seq<Seq<InlineV>>) -> Seq<char>
    decreases row.len(),
{
    if row.len() == 0 {
        Seq::empty()
    } else {
        row_plain(row.drop_last()) + inlines_plain(row.last()) + seq![' ']
    }
}

pub open spec fn rows_plain(rows: Seq<Seq<Seq<InlineV>>>) -> Seq<char>
    decreases rows.len(),
{
    if rows.len() == 0 {
        Seq::empty()
    } else {
        rows_plain(rows.drop_last()) + row_plain(rows.last()) + seq!['\n']
    }
}

pub open spec fn kind_plain(b: BlockV) -> Seq<char>
    decreases b,
{
    match b {
        BlockV::Paragraph(c) => inlines_plain(c),
        BlockV::Heading(_, c) => inlines_plain(c),
        BlockV::CodeBlock(_, t) => t,
        BlockV::List(_, _, items) => items_plain(items),
        BlockV::Quote(c) => blocks_plain(c),
        BlockV::ThematicBreak => Seq::empty(),
        BlockV::Table(t) => rows_plain(t.rows),
        BlockV::HtmlBlock(h) => strip_html_from(h, false),
        BlockV::FootnoteDefinition(_, c) => blocks_plain(c),
    }
}

/// The blocks' texts run together.
pub open spec fn blocks_plain(s: Seq<BlockV>) -> Seq<char>
    decreases s,
{
    if s.len() == 0 {
        Seq::empty()
    } else {
        blocks_plain(s.drop_last()) + kind_plain(s.last())
    }
}

/// Each item's blocks run together and followed by a newline.
pub open spec fn items_plain(s: Seq<ItemV>) -> Seq<char>
    decreases s,
{
    if s.len() == 0 {
        Seq::empty()
    } else {
        items_plain(s.drop_last()) + blocks_plain(s.last().children) + seq!['\n']
    }
}

/// A document's text: the blocks' texts, each separated from the text
/// gathered so far by a newline whenever that text is not empty.
pub open spec fn doc_plain(s: Seq<BlockV>) -> Seq<char>
    decreases s.len(),
{
    if s.len() == 0 {
        Seq::empty()
    } else {
        let before = doc_plain(s.drop_last());
        if before.len() == 0 {
            kind_plain(s.last())
        } else {
            before.push('\n') + kind_plain(s.last())
        }
    }
}

pub fn strip_html(s: &str) -> (r: String)
    ensures
        r@ == strip_html_from(s@, false),
{
    let v = chars_of(s);
    let mut out = String::new();
    let mut in_tag = false;
    let mut i: usize = 0;
    assert(v@.skip(0) =~= v@);
    assert(out@ + strip_html_from(v@, false) =~= strip_html_from(v@, false));
    while i < v.len()
        invariant
            i <= v.len(),
            out@ + strip_html_from(v@.skip(i as int), in_tag) == strip_html_from(v@, false),
        decreases v.len() - i,
    {
        let c = v[i];
        proof {
            assert(v@.skip(i as int).drop_first() =~= v@.skip(i + 1));
            assert(v@.skip(i as int)[0] == c);
        }
        if c == '<' {
            in_tag = true;
        } else if c == '>' {
            in_tag = false;
        } else if !in_tag {
            out.push(c);
            proof {
                assert(out@ + strip_html_from(v@.skip(i + 1), in_tag) =~= old_out_plus(out@, c, v@.skip(i + 1), in_tag));
            }
        }
        i = i + 1;
    }
    proof {
        assert(v@.skip(v.len() as int).len() == 0);
        assert(out@ + Seq::<char>::empty() =~= out@);
    }
    out
}

spec fn old_out_plus(out: Seq<char>, c: char, rest: Seq<char>, in_tag: bool) -> Seq<char> {
    out + strip_html_from(rest, in_tag)
}

proof fn lemma_inlines_plain_push(s: Seq<InlineV>, x: InlineV)
    ensures
        inlines_plain(s.push(x)) == inlines_plain(s) + inline_plain(x),
{
    assert(s.push(x).drop_last() =~= s);
}

proof fn lemma_blocks_plain_push(s: Seq<BlockV>, x: BlockV)
    ensures
        blocks_plain(s.push(x)) == blocks_plain(s) + kind_plain(x),
{
    assert(s.push(x).drop_last() =~= s);
}

proof fn lemma_items_plain_push(s: Seq<ItemV>, x: ItemV)
    ensures
        items_plain(s.push(x)) == items_plain(s) + blocks_plain(x.children) + seq!['\n'],
{
    assert(s.push(x).drop_last() =~= s);
}

proof fn lemma_row_plain_push(s: Seq<Seq<InlineV>>, x: Seq<InlineV>)
    ensures
        row_plain(s.push(x)) == row_plain(s) + inlines_plain(x) + seq![' '],
{
    assert(s.push(x).drop_last() =~= s);
}

proof fn lemma_rows_plain_push(s: Seq<Seq<Seq<InlineV>>>, x: Seq<Seq<InlineV>>)
    ensures
        rows_plain(s.push(x)) == rows_plain(s) + row_plain(x) + seq!['\n'],
{
    assert(s.push(x).drop_last() =~= s);
}

impl Inline {
    /// Appends this inline's plain text to `buf`.
    pub fn write_plain_text(&self, buf: &mut String)
        ensures
            final(buf)@ == old(buf)@ + inline_plain(inline_view(*self)),
        decreases self,
    {
        match self {
            Inline::Text(t) => buf.push_str(t.as_str()),
            Inline::Code(t) => buf.push_str(t.as_str()),
            Inline::Strong(children) => write_inlines_plain(children, buf),
            Inline::Emphasis(children) => write_inlines_plain(children, buf),
            Inline::Strikethrough(children) => write_inlines_plain(children, buf),
            Inline::Link { children, .. } => write_inlines_plain(children, buf),
            Inline::Image { alt, .. } => buf.push_str(alt.as_str()),
            Inline::NoteEmbed { note_ref } => buf.push_str(note_ref.as_str()),
            Inline::TagRef { name } => buf.push_str(name.as_str()),
            Inline::LineBreak => buf.push(' '),
            Inline::SoftBreak => buf.push(' '),
        }
    }
}

/// Appends the plain text of every inline in `v` to `buf`.
pub fn write_inlines_plain(v: &Vec<Inline>, buf: &mut String)
    ensures
        final(buf)@ == old(buf)@ + inlines_plain(inlines_view(v@)),
    decreases v,
{
    let mut i: usize = 0;
    while i < v.len()
        invariant
            i <= v.len(),
            buf@ == old(buf)@ + inlines_plain(inlines_view(v@.take(i as int))),
        decreases v.len() - i,
    {
        proof {
            assert(decreases_to!(v => v@[i as int]));
            lemma_inlines_view_take(v@, i as int);
            lemma_inlines_plain_push(inlines_view(v@.take(i as int)), inline_view(v@[i as int]));
        }
        v[i].write_plain_text(buf);
        i = i + 1;
    }
    assert(v@.take(v.len() as int) =~= v@);
}

impl BlockKind {
    /// Appends this block's plain text to `buf`.
    #[verifier::loop_isolation(false)]
    pub fn write_plain_text(&self, buf: &mut String)
        ensures
            final(buf)@ == old(buf)@ + kind_plain(kind_view(*self)),
        decreases self,
    {
        match self {
            BlockKind::Paragraph(children) => write_inlines_plain(children, buf),
            BlockKind::Heading { children, .. } => write_inlines_plain(children, buf),
            BlockKind::CodeBlock { text, .. } => buf.push_str(text.as_str()),
            BlockKind::List { items, .. } => {
                let mut i: usize = 0;
                while i < items.len()
                    invariant
                        i <= items.len(),
                        buf@ == old(buf)@ + items_plain(items_view(items@.take(i as int))),
                    decreases items.len() - i,
                {
                    proof {
                        assert(decreases_to!(*self => self->items));
                        assert(decreases_to!(*self => items@[i as int].children));
                        lemma_items_view_take(items@, i as int);
                        lemma_items_plain_push(items_view(items@.take(i as int)), item_view(items@[i as int]));
                    }
                    write_blocks_plain(&items[i].children, buf);
                    buf.push('\n');
                    i = i + 1;
                }
                assert(items@.take(items.len() as int) =~= items@);
            },
            BlockKind::Quote(children) => write_blocks_plain(children, buf),
            BlockKind::ThematicBreak => {},
            BlockKind::Table(table) => {
                let mut r: usize = 0;
                while r < table.rows.len()
                    invariant
                        r <= table.rows.len(),
                        buf@ == old(buf)@ + rows_plain(rows_view(table.rows@.take(r as int))),
                    decreases table.rows.len() - r,
                {
                    let row = &table.rows[r];
                    let ghost before = buf@;
                    let mut c: usize = 0;
                    while c < row.len()
                        invariant
                            c <= row.len(),
                            buf@ == before + row_plain(cells_view(row@.take(c as int))),
                        decreases row.len() - c,
                    {
                        proof {
                            lemma_cells_view_take(row@, c as int);
                            lemma_row_plain_push(cells_view(row@.take(c as int)), inlines_view(row@[c as int]@));
                        }
                        write_inlines_plain(&row[c], buf);
                        buf.push(' ');
                        c = c + 1;
                    }
                    buf.push('\n');
                    proof {
                        assert(row@.take(row.len() as int) =~= row@);
                        lemma_rows_view_take(table.rows@, r as int);
                        lemma_rows_plain_push(rows_view(table.rows@.take(r as int)), cells_view(row@));
                    }
                    r = r + 1;
                }
                assert(table.rows@.take(table.rows.len() as int) =~= table.rows@);
            },
            BlockKind::HtmlBlock(html) => {
                let stripped = strip_html(html.as_str());
                buf.push_str(stripped.as_str());
            },
            BlockKind::FootnoteDefinition { children, .. } => write_blocks_plain(children, buf),
        }
    }
}

/// Appends the plain text of every block in `v`, run together, to `buf`.
pub fn write_blocks_plain(v: &Vec<Block>, buf: &mut String)
    ensures
        final(buf)@ == old(buf)@ + blocks_plain(blocks_view(v@)),
    decreases v,
{
    let mut i: usize = 0;
    while i < v.len()
        invariant
            i <= v.len(),
            buf@ == old(buf)@ + blocks_plain(blocks_view(v@.take(i as int))),
        decreases v.len() - i,
    {
        proof {
            assert(decreases_to!(v => v@[i as int]));
            lemma_blocks_view_take(v@, i as int);
            lemma_blocks_plain_push(blocks_view(v@.take(i as int)), kind_view(v@[i as int].kind));
        }
        v[i].kind.write_plain_text(buf);
        i = i + 1;
    }
    assert(v@.take(v.len() as int) =~= v@);
}

impl Document {
    pub fn empty() -> (d: Document)
        ensures
            d.blocks@.len() == 0,
    {
        Document { blocks: Vec::new() }
    }

    pub fn is_empty(&self) -> (r: bool)
        ensures
            r == (self.blocks@.len() == 0),
    {
        self.blocks.len() == 0
    }

    /// The document's plain text: block texts separated by newlines.
    pub fn plain_text(&self) -> (r: String)
        ensures
            r@ == doc_plain(self.view_blocks()),
    {
        let mut buf = String::new();
        let mut i: usize = 0;
        while i < self.blocks.len()
            invariant
                i <= self.blocks.len(),
                buf@ == doc_plain(blocks_view(self.blocks@.take(i as int))),
            decreases self.blocks.len() - i,
        {
            proof {
                lemma_blocks_view_take(self.blocks@, i as int);
                assert(blocks_view(self.blocks@.take(i + 1)).drop_last() =~= blocks_view(self.blocks@.take(i as int)));
            }
            if !buf.as_str().is_empty() {
                buf.push('\n');
            }
            self.blocks[i].kind.write_plain_text(&mut buf);
            i = i + 1;
        }
        assert(self.blocks@.take(self.blocks.len() as int) =~= self.blocks@);
        buf
    }
}

// ---------------------------------------------------------------------------
// Copies of trees, equal in the model to what they copy.

impl Inline {
    /// A copy of this inline.
    pub fn duplicate(&self) -> (r: Inline)
        ensures
            inline_view(r) == inline_view(*self),
        decreases self,
    {
        match self {
            Inline::Text(t) => Inline::Text(t.clone()),
            Inline::Strong(c) => Inline::Strong(duplicate_inlines(c)),
            Inline::Emphasis(c) => Inline::Emphasis(duplicate_inlines(c)),
            Inline::Strikethrough(c) => Inline::Strikethrough(duplicate_inlines(c)),
            Inline::Code(t) => Inline::Code(t.clone()),
            Inline::Link { url, title, children } => Inline::Link {
                url: url.clone(),
                title: title.clone(),
                children: duplicate_inlines(children),
            },
            Inline::Image { url, alt, title } => Inline::Image {
                url: url.clone(),
                alt: alt.clone(),
                title: title.clone(),
            },
            Inline::NoteEmbed { note_ref } => Inline::NoteEmbed { note_ref: note_ref.clone() },
            Inline::TagRef { name } => Inline::TagRef { name: name.clone() },
            Inline::LineBreak => Inline::LineBreak,
            Inline::SoftBreak => Inline::SoftBreak,
        }
    }
}

/// A copy of a run of inlines.
pub fn duplicate_inlines(v: &Vec<Inline>) -> (r: Vec<Inline>)
    ensures
        inlines_view(r@) == inlines_view(v@),
    decreases v,
{
    let mut out: Vec<Inline> = Vec::new();
    let mut i: usize = 0;
    while i < v.len()
        invariant
            i <= v.len(),
            inlines_view(out@) == inlines_view(v@.take(i as int)),
        decreases v.len() - i,
    {
        proof {
            assert(decreases_to!(v => v@[i as int]));
        }
        let x = v[i].duplicate();
        proof {
            lemma_inlines_view_push(out@, x);
            lemma_inlines_view_take(v@, i as int);
        }
        out.push(x);
        i = i + 1;
    }
    assert(v@.take(v.len() as int) =~= v@);
    out
}

fn duplicate_cells(v: &Vec<Vec<Inline>>) -> (r: Vec<Vec<Inline>>)
    ensures
        cells_view(r@) == cells_view(v@),
{
    let mut out: Vec<Vec<Inline>> = Vec::new();
    let mut i: usize = 0;
    while i < v.len()
        invariant
            i <= v.len(),
            cells_view(out@) == cells_view(v@.take(i as int)),
        decreases v.len() - i,
    {
        let x = duplicate_inlines(&v[i]);
        proof {
            lemma_cells_view_push(out@, x);
            lemma_cells_view_take(v@, i as int);
        }
        out.push(x);
        i = i + 1;
    }
    assert(v@.take(v.len() as int) =~= v@);
    out
}

fn duplicate_table(t: &Table) -> (r: Table)
    ensures
        table_view(r) == table_view(*t),
{
    let headers = duplicate_cells(&t.headers);
    let mut rows: Vec<Vec<Vec<Inline>>> = Vec::new();
    let mut i: usize = 0;
    while i < t.rows.len()
        invariant
            i <= t.rows.len(),
            rows_view(rows@) == rows_view(t.rows@.take(i as int)),
        decreases t.rows.len() - i,
    {
        let x = duplicate_cells(&t.rows[i]);
        proof {
            lemma_rows_view_push(rows@, x);
            lemma_rows_view_take(t.rows@, i as int);
        }
        rows.push(x);
        i = i + 1;
    }
    assert(t.rows@.take(t.rows.len() as int) =~= t.rows@);
    let mut align: Vec<TableAlign> = Vec::new();
    let mut j: usize = 0;
    while j < t.align.len()
        invariant
            j <= t.align.len(),
            align@ == t.align@.take(j as int),
        decreases t.align.len() - j,
    {
        align.push(t.align[j]);
        assert(align@ =~= t.align@.take(j + 1));
        j = j + 1;
    }
    assert(t.align@.take(t.align.len() as int) =~= t.align@);
    Table { headers, rows, align }
}

fn duplicate_opt_string(o: &Option<String>) -> (r: Option<String>)
    ensures
        opt_str_view(r) == opt_str_view(*o),
{
    match o {
        Some(s) => Some(s.clone()),
        None => None,
    }
}

impl BlockKind {
    /// A copy of this block kind and everything it holds.
    pub fn duplicate(&self) -> (r: BlockKind)
        ensures
            kind_view(r) == kind_view(*self),
        decreases self,
    {
        match self {
            BlockKind::Paragraph(c) => BlockKind::Paragraph(duplicate_inlines(c)),
            BlockKind::Heading { level, children } => BlockKind::Heading {
                level: *level,
                children: duplicate_inlines(children),
            },
            BlockKind::CodeBlock { language, text } => BlockKind::CodeBlock {
                language: duplicate_opt_string(language),
                text: text.clone(),
            },
            BlockKind::List { ordered, start, items } => {
                proof {
                    assert(decreases_to!(*self => self->items));
                }
                BlockKind::List { ordered: *ordered, start: *start, items: duplicate_items(items) }
            },
            BlockKind::Quote(c) => BlockKind::Quote(duplicate_blocks(c)),
            BlockKind::ThematicBreak => BlockKind::ThematicBreak,
            BlockKind::Table(t) => BlockKind::Table(duplicate_table(t)),
            BlockKind::HtmlBlock(h) => BlockKind::HtmlBlock(h.clone()),
            BlockKind::FootnoteDefinition { name, children } => BlockKind::FootnoteDefinition {
                name: name.clone(),
                children: duplicate_blocks(children),
            },
        }
    }
}

/// A copy of a list's items.
pub fn duplicate_items(v: &Vec<ListItem>) -> (r: Vec<ListItem>)
    ensures
        items_view(r@) == items_view(v@),
    decreases v,
{
    let mut out: Vec<ListItem> = Vec::new();
    let mut i: usize = 0;
    while i < v.len()
        invariant
            i <= v.len(),
            items_view(out@) == items_view(v@.take(i as int)),
        decreases v.len() - i,
    {
        proof {
            assert(decreases_to!(v => v@[i as int]));
            assert(decreases_to!(v@[i as int] => v@[i as int].children));
        }
        let x = ListItem { checked: v[i].checked, children: duplicate_blocks(&v[i].children) };
        proof {
            lemma_items_view_push(out@, x);
            lemma_items_view_take(v@, i as int);
        }
        out.push(x);
        i = i + 1;
    }
    assert(v@.take(v.len() as int) =~= v@);
    out
}

/// A copy of a run of blocks, identities included.
pub fn duplicate_blocks(v: &Vec<Block>) -> (r: Vec<Block>)
    ensures
        blocks_view(r@) == blocks_view(v@),
        r@.len() == v@.len(),
        forall|i: int| 0 <= i < v@.len() ==> #[trigger] r@[i].id == v@[i].id,
    decreases v,
{
    let mut out: Vec<Block> = Vec::new();
    let mut i: usize = 0;
    while i < v.len()
        invariant
            i <= v.len(),
            out@.len() == i,
            blocks_view(out@) == blocks_view(v@.take(i as int)),
            forall|j: int| 0 <= j < i ==> #[trigger] out@[j].id == v@[j].id,
        decreases v.len() - i,
    {
        proof {
            assert(decreases_to!(v => v@[i as int]));
        }
        let x = Block { id: v[i].id, kind: v[i].kind.duplicate() };
        proof {
            lemma_blocks_view_push(out@, x);
            lemma_blocks_view_take(v@, i as int);
        }
        out.push(x);
        i = i + 1;
    }
    assert(v@.take(v.len() as int) =~= v@);
    out
}

// ---------------------------------------------------------------------------
// Comparing trees by content; block identities do not take part.

fn same_string(a: &String, b: &String) -> (r: bool)
    ensures
        r == (a@ == b@),
{
    *a == *b
}

fn same_opt_string(a: &Option<String>, b: &Option<String>) -> (r: bool)
    ensures
        r == (opt_str_view(*a) == opt_str_view(*b)),
{
    match (a, b) {
        (Some(x), Some(y)) => same_string(x, y),
        (None, None) => true,
        _ => false,
    }
}

impl Inline {
    /// Whether two inlines have the same content.
    pub fn same_as(&self, other: &Inline) -> (r: bool)
        ensures
            r == (inline_view(*self) == inline_view(*other)),
        decreases self,
    {
        match (self, other) {
            (Inline::Text(x), Inline::Text(y)) => same_string(x, y),
            (Inline::Strong(x), Inline::Strong(y)) => same_inlines(x, y),
            (Inline::Emphasis(x), Inline::Emphasis(y)) => same_inlines(x, y),
            (Inline::Strikethrough(x), Inline::Strikethrough(y)) => same_inlines(x, y),
            (Inline::Code(x), Inline::Code(y)) => same_string(x, y),
            (
                Inline::Link { url: u1, title: t1, children: c1 },
                Inline::Link { url: u2, title: t2, children: c2 },
            ) => same_string(u1, u2) && same_string(t1, t2) && same_inlines(c1, c2),
            (Inline::Image { url: u1, alt: a1, title: t1 }, Inline::Image { url: u2, alt: a2, title: t2 }) =>
                same_string(u1, u2) && same_string(a1, a2) && same_string(t1, t2),
            (Inline::NoteEmbed { note_ref: x }, Inline::NoteEmbed { note_ref: y }) => same_string(x, y),
            (Inline::TagRef { name: x }, Inline::TagRef { name: y }) => same_string(x, y),
            (Inline::LineBreak, Inline::LineBreak) => true,
            (Inline::SoftBreak, Inline::SoftBreak) => true,
            _ => false,
        }
    }
}

/// Whether two runs of inlines have the same content.
pub fn same_inlines(a: &Vec<Inline>, b: &Vec<Inline>) -> (r: bool)
    ensures
        r == (inlines_view(a@) == inlines_view(b@)),
    decreases a,
{
    proof {
        lemma_inlines_view_len(a@);
        lemma_inlines_view_len(b@);
    }
    if a.len() != b.len() {
        return false;
    }
    let mut i: usize = 0;
    while i < a.len()
        invariant
            i <= a.len() == b.len(),
            inlines_view(a@).len() == a@.len(),
            inlines_view(b@).len() == b@.len(),
            forall|j: int| 0 <= j < i ==> #[trigger] inlines_view(a@)[j] == inlines_view(b@)[j],
        decreases a.len() - i,
    {
        proof {
            assert(decreases_to!(a => a@[i as int]));
            lemma_inlines_view_index(a@, i as int);
            lemma_inlines_view_index(b@, i as int);
        }
        if !a[i].same_as(&b[i]) {
            return false;
        }
        i = i + 1;
    }
    assert(inlines_view(a@) =~= inlines_view(b@));
    true
}

fn same_cells(a: &Vec<Vec<Inline>>, b: &Vec<Vec<Inline>>) -> (r: bool)
    ensures
        r == (cells_view(a@) == cells_view(b@)),
{
    proof {
        lemma_cells_view_len(a@);
        lemma_cells_view_len(b@);
    }
    if a.len() != b.len() {
        return false;
    }
    let mut i: usize = 0;
    while i < a.len()
        invariant
            i <= a.len() == b.len(),
            cells_view(a@).len() == a@.len(),
            cells_view(b@).len() == b@.len(),
            forall|j: int| 0 <= j < i ==> #[trigger] cells_view(a@)[j] == cells_view(b@)[j],
        decreases a.len() - i,
    {
        proof {
            lemma_cells_view_index(a@, i as int);
            lemma_cells_view_index(b@, i as int);
        }
        if !same_inlines(&a[i], &b[i]) {
            return false;
        }
        i = i + 1;
    }
    assert(cells_view(a@) =~= cells_view(b@));
    true
}

proof fn lemma_rows_view_index(s: Seq<Vec<Vec<Inline>>>, i: int)
    requires
        0 <= i < s.len(),
    ensures
        rows_view(s)[i] == cells_view(s[i]@),
        rows_view(s).len() == s.len(),
    decreases s.len(),
{
    lemma_rows_view_len(s);
    if i < s.len() - 1 {
        lemma_rows_view_index(s.drop_last(), i);
    }
}

proof fn lemma_rows_view_len(s: Seq<Vec<Vec<Inline>>>)
    ensures
        rows_view(s).len() == s.len(),
    decreases s.len(),
{
    if s.len() > 0 {
        lemma_rows_view_len(s.drop_last());
    }
}

fn same_table(a: &Table, b: &Table) -> (r: bool)
    ensures
        r == (table_view(*a) == table_view(*b)),
{
    if !same_cells(&a.headers, &b.headers) {
        return false;
    }
    proof {
        lemma_rows_view_len(a.rows@);
        lemma_rows_view_len(b.rows@);
    }
    if a.rows.len() != b.rows.len() || a.align.len() != b.align.len() {
        return false;
    }
    let mut i: usize = 0;
    while i < a.rows.len()
        invariant
            i <= a.rows.len() == b.rows.len(),
            rows_view(a.rows@).len() == a.rows@.len(),
            rows_view(b.rows@).len() == b.rows@.len(),
            forall|j: int| 0 <= j < i ==> #[trigger] rows_view(a.rows@)[j] == rows_view(b.rows@)[j],
        decreases a.rows.len() - i,
    {
        proof {
            lemma_rows_view_index(a.rows@, i as int);
            lemma_rows_view_index(b.rows@, i as int);
        }
        if !same_cells(&a.rows[i], &b.rows[i]) {
            return false;
        }
        i = i + 1;
    }
    assert(rows_view(a.rows@) =~= rows_view(b.rows@));
    let mut k: usize = 0;
    while k < a.align.len()
        invariant
            k <= a.align.len() == b.align.len(),
            forall|j: int| 0 <= j < k ==> a.align@[j] == b.align@[j],
        decreases a.align.len() - k,
    {
        if a.align[k] != b.align[k] {
            return false;
        }
        k = k + 1;
    }
    assert(a.align@ =~= b.align@);
    true
}

impl BlockKind {
    /// Whether two block kinds have the same content.
    pub fn same_as(&self, other: &BlockKind) -> (r: bool)
        ensures
            r == (kind_view(*self) == kind_view(*other)),
        decreases self,
    {
        match (self, other) {
            (BlockKind::Paragraph(x), BlockKind::Paragraph(y)) => same_inlines(x, y),
            (BlockKind::Heading { level: l1, children: c1 }, BlockKind::Heading { level: l2, children: c2 }) =>
                *l1 == *l2 && same_inlines(c1, c2),
            (BlockKind::CodeBlock { language: l1, text: t1 }, BlockKind::CodeBlock { language: l2, text: t2 }) =>
                same_opt_string(l1, l2) && same_string(t1, t2),
            (
                BlockKind::List { ordered: o1, start: s1, items: i1 },
                BlockKind::List { ordered: o2, start: s2, items: i2 },
            ) => {
                proof {
                    assert(decreases_to!(*self => self->items));
                }
                *o1 == *o2 && *s1 == *s2 && same_items(i1, i2)
            },
            (BlockKind::Quote(x), BlockKind::Quote(y)) => same_blocks(x, y),
            (BlockKind::ThematicBreak, BlockKind::ThematicBreak) => true,
            (BlockKind::Table(x), BlockKind::Table(y)) => same_table(x, y),
            (BlockKind::HtmlBlock(x), BlockKind::HtmlBlock(y)) => same_string(x, y),
            (
                BlockKind::FootnoteDefinition { name: n1, children: c1 },
                BlockKind::FootnoteDefinition { name: n2, children: c2 },
            ) => same_string(n1, n2) && same_blocks(c1, c2),
            _ => false,
        }
    }
}

/// Whether two lists' items have the same content.
pub fn same_items(a: &Vec<ListItem>, b: &Vec<ListItem>) -> (r: bool)
    ensures
        r == (items_view(a@) == items_view(b@)),
    decreases a,
{
    proof {
        lemma_items_view_len(a@);
        lemma_items_view_len(b@);
    }
    if a.len() != b.len() {
        return false;
    }
    let mut i: usize = 0;
    while i < a.len()
        invariant
            i <= a.len() == b.len(),
            items_view(a@).len() == a@.len(),
            items_view(b@).len() == b@.len(),
            forall|j: int| 0 <= j < i ==> #[trigger] items_view(a@)[j] == items_view(b@)[j],
        decreases a.len() - i,
    {
        proof {
            assert(decreases_to!(a => a@[i as int]));
            assert(decreases_to!(a@[i as int] => a@[i as int].children));
            lemma_items_view_index(a@, i as int);
            lemma_items_view_index(b@, i as int);
        }
        if a[i].checked != b[i].checked || !same_blocks(&a[i].children, &b[i].children) {
            return false;
        }
        i = i + 1;
    }
    assert(items_view(a@) =~= items_view(b@));
    true
}

proof fn lemma_items_view_index(s: Seq<ListItem>, i: int)
    requires
        0 <= i < s.len(),
    ensures
        items_view(s)[i] == item_view(s[i]),
        items_view(s).len() == s.len(),
    decreases s.len(),
{
    lemma_items_view_len(s);
    if i < s.len() - 1 {
        lemma_items_view_index(s.drop_last(), i);
    }
}

/// Whether two runs of blocks have the same content, identities aside.
pub fn same_blocks(a: &Vec<Block>, b: &Vec<Block>) -> (r: bool)
    ensures
        r == (blocks_view(a@) == blocks_view(b@)),
    decreases a,
{
    proof {
        lemma_blocks_view_len(a@);
        lemma_blocks_view_len(b@);
    }
    if a.len() != b.len() {
        return false;
    }
    let mut i: usize = 0;
    while i < a.len()
        invariant
            i <= a.len() == b.len(),
            blocks_view(a@).len() == a@.len(),
            blocks_view(b@).len() == b@.len(),
            forall|j: int| 0 <= j < i ==> #[trigger] blocks_view(a@)[j] == blocks_view(b@)[j],
        decreases a.len() - i,
    {
        proof {
            assert(decreases_to!(a => a@[i as int]));
            lemma_blocks_view_index(a@, i as int);
            lemma_blocks_view_index(b@, i as int);
        }
        if !a[i].kind.same_as(&b[i].kind) {
            return false;
        }
        i = i + 1;
    }
    assert(blocks_view(a@) =~= blocks_view(b@));
    true
}

impl PartialEq for Block {
    /// Blocks are equal when their content is; identities do not count.
    fn eq(&self, other: &Self) -> (r: bool) {
        self.kind.same_as(&other.kind)
    }
}

impl vstd::std_specs::cmp::PartialEqSpecImpl for Block {
    open spec fn obeys_eq_spec() -> bool {
        true
    }

    open spec fn eq_spec(&self, other: &Self) -> bool {
        kind_view(self.kind) == kind_view(other.kind)
    }
}

impl PartialEq for Document {
    /// Documents are equal when their blocks' contents are.
    fn eq(&self, other: &Self) -> (r: bool) {
        same_blocks(&self.blocks, &other.blocks)
    }
}

impl vstd::std_specs::cmp::PartialEqSpecImpl for Document {
    open spec fn obeys_eq_spec() -> bool {
        true
    }

    open spec fn eq_spec(&self, other: &Self) -> bool {
        self.view_blocks() == other.view_blocks()
    }
}

} // verus!
