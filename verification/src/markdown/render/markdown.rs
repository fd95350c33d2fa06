//! Serialization of the document tree back to canonical markdown source.
use vstd::prelude::*;
use crate::markdown::ast::{
    Block, BlockKind, BlockV, Document, Inline, InlineV, ItemV, ListItem, Table, TableAlign, TableV,
    blocks_view, cells_view, inline_view, inlines_view, item_view, items_view, kind_view,
    rows_view, table_view, lemma_blocks_view_take, lemma_blocks_view_len, lemma_blocks_view_index,
    lemma_cells_view_take, lemma_cells_view_len, lemma_inlines_view_take, lemma_items_view_take,
    lemma_rows_view_take,
};
use crate::markdown::custom::{
    closing_from, embed_at, split_custom, split_from, tag_at, tag_end_from, text_part,
    lemma_closing_from_bounds, lemma_tag_end_bounds,
};
use crate::text::{
    char_pred, chars_of, decimal, drop_while_end, lines, lines_of, strings_view, trim_end_char,
};

verus! {

// ---------------------------------------------------------------------------
// What the serializer writes, as sequences of characters.

pub open spec fn hashes(n: nat) -> Seq<char> {
    Seq::new(n, |_i: int| '#')
}

/// The ` "title"` part of a link or an image; nothing for an empty title.
pub open spec fn title_md(t: Seq<char>) -> Seq<char> {
    if t.len() == 0 {
        Seq::empty()
    } else {
        " \""@ + t + seq!['"']
    }
}

pub open spec fn inline_md(i: InlineV) -> Seq<char>
    decreases i,
{
    match i {
        InlineV::Text(t) => t,
        InlineV::Strong(c) => "**"@ + inlines_md(c) + "**"@,
        InlineV::Emphasis(c) => seq!['*'] + inlines_md(c) + seq!['*'],
        InlineV::Strikethrough(c) => "~~"@ + inlines_md(c) + "~~"@,
        InlineV::Code(t) => seq!['`'] + t + seq!['`'],
        InlineV::Link { url, title, children } => seq!['['] + inlines_md(children) + "]("@ + url
            + title_md(title) + seq![')'],
        InlineV::Image { url, alt, title } => "!["@ + alt + "]("@ + url + title_md(title) + seq![')'],
        InlineV::NoteEmbed(r) => "[["@ + r + "]]"@,
        InlineV::TagRef(n) => seq!['#'] + n,
        InlineV::LineBreak => "  \n"@,
        InlineV::SoftBreak => seq!['\n'],
    }
}

pub open spec fn inlines_md(s: Seq<InlineV>) -> Seq<char>
    decreases s,
{
    if s.len() == 0 {
        Seq::empty()
    } else {
        inlines_md(s.drop_last()) + inline_md(s.last())
    }
}

/// A strong inline is written between double asterisks and an emphasized
/// one between single asterisks, so the two never serialize alike: the
/// strong form has one more asterisk on each side.
pub proof fn lemma_emphasis_delimiters(c: Seq<InlineV>)
    ensures
        inlines_md(seq![InlineV::Strong(c)]) == seq!['*', '*'] + inlines_md(c) + seq!['*', '*'],
        inlines_md(seq![InlineV::Emphasis(c)]) == seq!['*'] + inlines_md(c) + seq!['*'],
        inlines_md(seq![InlineV::Strikethrough(c)]) == seq!['~', '~'] + inlines_md(c) + seq!['~', '~'],
        inlines_md(seq![InlineV::Strong(c)]).len() == inlines_md(seq![InlineV::Emphasis(c)]).len() + 2,
{
    reveal_strlit("**");
    reveal_strlit("~~");
    let e = Seq::<InlineV>::empty();
    assert(seq![InlineV::Strong(c)].drop_last() =~= e);
    assert(seq![InlineV::Emphasis(c)].drop_last() =~= e);
    assert(seq![InlineV::Strikethrough(c)].drop_last() =~= e);
    assert(inlines_md(e) == Seq::<char>::empty());
    assert("**"@ =~= seq!['*', '*']);
    assert(seq![InlineV::Strong(c)].last() == InlineV::Strong(c));
    assert(seq![InlineV::Emphasis(c)].last() == InlineV::Emphasis(c));
    assert(inlines_md(seq![InlineV::Strong(c)]) == Seq::<char>::empty() + inline_md(InlineV::Strong(c)));
    assert(inlines_md(seq![InlineV::Emphasis(c)]) == Seq::<char>::empty() + inline_md(InlineV::Emphasis(c)));
    assert("~~"@ =~= seq!['~', '~']);
    assert(seq![InlineV::Strikethrough(c)].last() == InlineV::Strikethrough(c));
    assert(inlines_md(seq![InlineV::Strikethrough(c)]) == Seq::<char>::empty() + inline_md(
        InlineV::Strikethrough(c),
    ));
    assert(inlines_md(seq![InlineV::Strong(c)]) =~= seq!['*', '*'] + inlines_md(c) + seq!['*', '*']);
    assert(inlines_md(seq![InlineV::Emphasis(c)]) =~= seq!['*'] + inlines_md(c) + seq!['*']);
    assert(inlines_md(seq![InlineV::Strikethrough(c)]) =~= seq!['~', '~'] + inlines_md(c) + seq!['~', '~']);
}

/// The parts with `sep` between each two.
pub open spec fn join(parts: Seq<Seq<char>>, sep: Seq<char>) -> Seq<char>
    decreases parts.len(),
{
    if parts.len() == 0 {
        Seq::empty()
    } else if parts.len() == 1 {
        parts[0]
    } else {
        join(parts.drop_last(), sep) + sep + parts.last()
    }
}

/// Each line prefixed by `spaces`, the lines joined by newlines.
pub open spec fn indented(lines: Seq<Seq<char>>, spaces: Seq<char>) -> Seq<char> {
    join(lines.map_values(|l: Seq<char>| spaces + l), seq!['\n'])
}

/// A cell's text with each `|` escaped as `\|`.
pub open spec fn escape_pipes(s: Seq<char>) -> Seq<char>
    decreases s.len(),
{
    if s.len() == 0 {
        Seq::empty()
    } else {
        escape_pipes(s.drop_last()) + (if s.last() == '|' {
            "\\|"@
        } else {
            seq![s.last()]
        })
    }
}

pub open spec fn cells_md(cells: Seq<Seq<InlineV>>) -> Seq<Seq<char>> {
    cells.map_values(|c: Seq<InlineV>| escape_pipes(inlines_md(c)))
}

pub open spec fn align_mark(a: TableAlign) -> Seq<char> {
    match a {
        TableAlign::Unaligned => "---"@,
        TableAlign::Left => ":---"@,
        TableAlign::Center => ":---:"@,
        TableAlign::Right => "---:"@,
    }
}

pub open spec fn table_row_md(cells: Seq<Seq<char>>) -> Seq<char> {
    "| "@ + join(cells, " | "@) + " |"@
}

pub open spec fn rows_md(rows: Seq<Seq<Seq<InlineV>>>) -> Seq<char>
    decreases rows.len(),
{
    if rows.len() == 0 {
        Seq::empty()
    } else {
        rows_md(rows.drop_last()) + seq!['\n'] + table_row_md(cells_md(rows.last()))
    }
}

/// A table: the header row, the alignment row, then one line per body row.
pub open spec fn table_md(t: TableV) -> Seq<char> {
    table_row_md(cells_md(t.headers)) + seq!['\n'] + table_row_md(
        t.align.map_values(|a: TableAlign| align_mark(a)),
    ) + rows_md(t.rows)
}

/// Two list blocks in a row are one newline apart; any other two blocks
/// are separated by a blank line.
pub open spec fn separator(prev: BlockV, next: BlockV) -> Seq<char> {
    if prev is List && next is List {
        seq!['\n']
    } else {
        "\n\n"@
    }
}

/// The marker of item `i` of a list.
pub open spec fn marker(ordered: bool, start: Option<u64>, i: nat) -> Seq<char> {
    if ordered {
        decimal(
            match start {
                Some(s) => s as nat,
                None => 1,
            } + i,
        ) + ". "@
    } else {
        "- "@
    }
}

pub open spec fn checkbox(c: Option<bool>) -> Seq<char> {
    match c {
        Some(true) => "[x] "@,
        Some(false) => "[ ] "@,
        None => Seq::empty(),
    }
}

pub open spec fn block_md(b: BlockV) -> Seq<char>
    decreases b, 0int,
{
    match b {
        BlockV::Paragraph(c) => inlines_md(c),
        BlockV::Heading(l, c) => hashes(l as nat) + seq![' '] + inlines_md(c),
        BlockV::CodeBlock(lang, t) => "```"@ + (match lang {
            Some(l) => l,
            None => Seq::empty(),
        }) + seq!['\n'] + drop_while_end(t, char_pred('\n')) + "\n```"@,
        BlockV::List(ordered, start, items) => list_md(ordered, start, items, Seq::empty()),
        BlockV::Quote(c) => indented(lines_of(blocks_md(c)), "> "@),
        BlockV::ThematicBreak => "---"@,
        BlockV::Table(t) => table_md(t),
        BlockV::HtmlBlock(h) => drop_while_end(h, char_pred('\n')),
        BlockV::FootnoteDefinition(n, c) => "[^"@ + n + "]: "@ + children_md(c),
    }
}

/// Sibling blocks, each separated from the one before it.
pub open spec fn blocks_md(s: Seq<BlockV>) -> Seq<char>
    decreases s, 0int,
{
    if s.len() == 0 {
        Seq::empty()
    } else if s.len() == 1 {
        block_md(s[0])
    } else {
        blocks_md(s.drop_last()) + separator(s[s.len() - 2], s.last()) + block_md(s.last())
    }
}

/// A list's items, one per line, each with its marker, its check box and
/// its blocks.
pub open spec fn list_md(ordered: bool, start: Option<u64>, items: Seq<ItemV>, indent: Seq<char>) -> Seq<char>
    decreases items, 0int,
{
    if items.len() == 0 {
        Seq::empty()
    } else {
        (if items.len() > 1 {
            list_md(ordered, start, items.drop_last(), indent) + seq!['\n']
        } else {
            Seq::empty()
        }) + indent + marker(ordered, start, (items.len() - 1) as nat) + checkbox(items.last().checked)
            + children_md(items.last().children)
    }
}

/// An item's or a footnote's blocks: the first continues the current line,
/// each later one starts a new line, indented by two spaces.
pub open spec fn children_md(children: Seq<BlockV>) -> Seq<char>
    decreases children, 0int,
{
    if children.len() == 0 {
        Seq::empty()
    } else if children.len() == 1 {
        block_md(children[0])
    } else {
        children_md(children.drop_last()) + seq!['\n'] + indented(
            lines_of(block_md(children.last())),
            "  "@,
        )
    }
}

// ---------------------------------------------------------------------------
// Facts about the serializations of sequences.

proof fn lemma_inlines_md_push(s: Seq<InlineV>, x: InlineV)
    ensures
        inlines_md(s.push(x)) == inlines_md(s) + inline_md(x),
{
    assert(s.push(x).drop_last() =~= s);
}

proof fn lemma_join_push(parts: Seq<Seq<char>>, x: Seq<char>, sep: Seq<char>)
    ensures
        join(parts.push(x), sep) == if parts.len() == 0 {
            x
        } else {
            join(parts, sep) + sep + x
        },
{
    assert(parts.push(x).drop_last() =~= parts);
}

proof fn lemma_escape_pipes_push(s: Seq<char>, c: char)
    ensures
        escape_pipes(s.push(c)) == escape_pipes(s) + (if c == '|' {
            "\\|"@
        } else {
            seq![c]
        }),
{
    assert(s.push(c).drop_last() =~= s);
}

proof fn lemma_rows_md_push(s: Seq<Seq<Seq<InlineV>>>, x: Seq<Seq<InlineV>>)
    ensures
        rows_md(s.push(x)) == rows_md(s) + seq!['\n'] + table_row_md(cells_md(x)),
{
    assert(s.push(x).drop_last() =~= s);
}

proof fn lemma_blocks_md_push(s: Seq<BlockV>, x: BlockV)
    ensures
        blocks_md(s.push(x)) == if s.len() == 0 {
            block_md(x)
        } else {
            blocks_md(s) + separator(s.last(), x) + block_md(x)
        },
{
    assert(s.push(x).drop_last() =~= s);
    if s.len() > 0 {
        assert(s.push(x)[s.len() - 1] == s.last());
    }
}

proof fn lemma_list_md_push(ordered: bool, start: Option<u64>, s: Seq<ItemV>, x: ItemV, indent: Seq<char>)
    ensures
        list_md(ordered, start, s.push(x), indent) == (if s.len() > 0 {
            list_md(ordered, start, s, indent) + seq!['\n']
        } else {
            Seq::empty()
        }) + indent + marker(ordered, start, s.len()) + checkbox(x.checked) + children_md(x.children),
{
    assert(s.push(x).drop_last() =~= s);
}

proof fn lemma_children_md_push(s: Seq<BlockV>, x: BlockV)
    ensures
        children_md(s.push(x)) == if s.len() == 0 {
            block_md(x)
        } else {
            children_md(s) + seq!['\n'] + indented(lines_of(block_md(x)), "  "@)
        },
{
    assert(s.push(x).drop_last() =~= s);
}

// ---------------------------------------------------------------------------
// Custom syntax survives a round trip.

pub proof fn lemma_inlines_md_concat(a: Seq<InlineV>, b: Seq<InlineV>)
    ensures
        inlines_md(a + b) == inlines_md(a) + inlines_md(b),
    decreases b.len(),
{
    if b.len() == 0 {
        assert(a + b =~= a);
        assert(inlines_md(a) + Seq::<char>::empty() =~= inlines_md(a));
    } else {
        lemma_inlines_md_concat(a, b.drop_last());
        assert((a + b).drop_last() =~= a + b.drop_last());
        assert((a + b).last() == b.last());
        assert(inlines_md(a) + inlines_md(b.drop_last()) + inline_md(b.last())
            =~= inlines_md(a) + (inlines_md(b.drop_last()) + inline_md(b.last())));
    }
}

proof fn lemma_one_md(x: InlineV)
    ensures
        inlines_md(seq![x]) == inline_md(x),
{
    let e = Seq::<InlineV>::empty();
    assert(inlines_md(e) == Seq::<char>::empty());
    assert(seq![x].drop_last() =~= e);
    assert(Seq::<char>::empty() + inline_md(x) =~= inline_md(x));
}

proof fn lemma_text_part_md(buf: Seq<char>)
    ensures
        inlines_md(text_part(buf)) == buf,
{
    if buf.len() > 0 {
        lemma_one_md(InlineV::Text(buf));
    } else {
        assert(inlines_md(Seq::<InlineV>::empty()) == Seq::<char>::empty());
        assert(buf =~= Seq::<char>::empty());
    }
}

proof fn lemma_split_from_md(c: Seq<char>, i: int, buf: Seq<char>)
    requires
        0 <= i <= c.len(),
    ensures
        inlines_md(split_from(c, i, buf)) == buf + c.skip(i),
    decreases c.len() + 2 - i,
{
    if i >= c.len() {
        lemma_text_part_md(buf);
        assert(buf + c.skip(i) =~= buf);
    } else if embed_at(c, i) {
        let end = closing_from(c, i + 2, 1)->0;
        lemma_closing_from_bounds(c, i + 2, 1);
        let r = c.subrange(i + 2, end);
        lemma_split_from_md(c, end + 2, Seq::empty());
        lemma_text_part_md(buf);
        lemma_one_md(InlineV::NoteEmbed(r));
        lemma_inlines_md_concat(text_part(buf), seq![InlineV::NoteEmbed(r)]);
        lemma_inlines_md_concat(text_part(buf) + seq![InlineV::NoteEmbed(r)], split_from(c, end + 2, Seq::empty()));
        reveal_strlit("[[");
        reveal_strlit("]]");
        assert(buf + c.skip(i) =~= buf + ("[["@ + r + "]]"@) + (Seq::<char>::empty() + c.skip(end + 2)));
    } else if tag_at(c, i) {
        let end = tag_end_from(c, i + 1);
        lemma_tag_end_bounds(c, i + 1);
        let n = c.subrange(i + 1, end);
        lemma_split_from_md(c, end, Seq::empty());
        lemma_text_part_md(buf);
        lemma_one_md(InlineV::TagRef(n));
        lemma_inlines_md_concat(text_part(buf), seq![InlineV::TagRef(n)]);
        lemma_inlines_md_concat(text_part(buf) + seq![InlineV::TagRef(n)], split_from(c, end, Seq::empty()));
        assert(buf + c.skip(i) =~= buf + (seq!['#'] + n) + (Seq::<char>::empty() + c.skip(end)));
    } else {
        lemma_split_from_md(c, i + 1, buf.push(c[i]));
        assert(buf.push(c[i]) + c.skip(i + 1) =~= buf + c.skip(i));
    }
}

/// Serializing the inlines that a text run splits into (its `[[note]]`
/// embeds, `#tag` references and plain text) gives the text back.
pub proof fn lemma_custom_split_roundtrip(text: Seq<char>)
    ensures
        inlines_md(split_custom(text)) == text,
{
    lemma_split_from_md(text, 0, Seq::empty());
    assert(Seq::<char>::empty() + text.skip(0) =~= text);
}

// ---------------------------------------------------------------------------
// The serializer.

/// The separator placed between two consecutive sibling blocks.
pub fn block_separator(previous: &BlockKind, next: &BlockKind) -> (r: &'static str)
    ensures
        r@ == separator(kind_view(*previous), kind_view(*next)),
{
    proof {
        reveal_strlit("\n");
    }
    if matches!(previous, BlockKind::List { .. }) && matches!(next, BlockKind::List { .. }) {
        "\n"
    } else {
        "\n\n"
    }
}

fn serialize_inline(inline: &Inline, out: &mut String)
    ensures
        final(out)@ == old(out)@ + inline_md(inline_view(*inline)),
    decreases inline,
{
    match inline {
        Inline::Text(text) => out.push_str(text.as_str()),
        Inline::Strong(children) => {
            out.push_str("**");
            serialize_inlines(children, out);
            out.push_str("**");
        },
        Inline::Emphasis(children) => {
            out.push('*');
            serialize_inlines(children, out);
            out.push('*');
        },
        Inline::Strikethrough(children) => {
            out.push_str("~~");
            serialize_inlines(children, out);
            out.push_str("~~");
        },
        Inline::Code(code) => {
            out.push('`');
            out.push_str(code.as_str());
            out.push('`');
        },
        Inline::Link { url, title, children } => {
            out.push('[');
            serialize_inlines(children, out);
            out.push_str("](");
            out.push_str(url.as_str());
            push_title(title, out);
            out.push(')');
        },
        Inline::Image { url, alt, title } => {
            out.push_str("![");
            out.push_str(alt.as_str());
            out.push_str("](");
            out.push_str(url.as_str());
            push_title(title, out);
            out.push(')');
        },
        Inline::NoteEmbed { note_ref } => {
            out.push_str("[[");
            out.push_str(note_ref.as_str());
            out.push_str("]]");
        },
        Inline::TagRef { name } => {
            out.push('#');
            out.push_str(name.as_str());
        },
        Inline::LineBreak => out.push_str("  \n"),
        Inline::SoftBreak => out.push('\n'),
    }
}

fn push_title(title: &String, out: &mut String)
    ensures
        final(out)@ == old(out)@ + title_md(title@),
{
    if !title.as_str().is_empty() {
        out.push_str(" \"");
        out.push_str(title.as_str());
        out.push('"');
    } else {
        assert(old(out)@ + Seq::<char>::empty() =~= old(out)@);
    }
}

fn serialize_inlines(inlines: &Vec<Inline>, out: &mut String)
    ensures
        final(out)@ == old(out)@ + inlines_md(inlines_view(inlines@)),
    decreases inlines,
{
    let mut i: usize = 0;
    while i < inlines.len()
        invariant
            i <= inlines.len(),
            out@ == old(out)@ + inlines_md(inlines_view(inlines@.take(i as int))),
        decreases inlines.len() - i,
    {
        proof {
            assert(decreases_to!(inlines => inlines@[i as int]));
            lemma_inlines_view_take(inlines@, i as int);
            lemma_inlines_md_push(inlines_view(inlines@.take(i as int)), inline_view(inlines@[i as int]));
        }
        serialize_inline(&inlines[i], out);
        i = i + 1;
    }
    assert(inlines@.take(inlines.len() as int) =~= inlines@);
}

/// Re-emits `text` with each line prefixed by `spaces`.
fn push_indented(text: &str, spaces: &str, out: &mut String)
    ensures
        final(out)@ == old(out)@ + indented(lines_of(text@), spaces@),
{
    let ls = lines(text);
    let ghost pre = lines_of(text@).map_values(|l: Seq<char>| spaces@ + l);
    let mut i: usize = 0;
    while i < ls.len()
        invariant
            i <= ls.len(),
            strings_view(ls@) == lines_of(text@),
            pre == lines_of(text@).map_values(|l: Seq<char>| spaces@ + l),
            out@ == old(out)@ + join(pre.take(i as int), seq!['\n']),
        decreases ls.len() - i,
    {
        proof {
            assert(pre.take(i + 1) =~= pre.take(i as int).push(spaces@ + ls@[i as int]@));
            lemma_join_push(pre.take(i as int), spaces@ + ls@[i as int]@, seq!['\n']);
        }
        if i > 0 {
            out.push('\n');
        }
        out.push_str(spaces);
        out.push_str(ls[i].as_str());
        i = i + 1;
    }
    assert(pre.take(ls.len() as int) =~= pre);
}

/// A cell's markdown with its pipes escaped.
fn format_cells(cells: &Vec<Inline>) -> (r: String)
    ensures
        r@ == escape_pipes(inlines_md(inlines_view(cells@))),
{
    let mut cell = String::new();
    serialize_inlines(cells, &mut cell);
    let v = chars_of(cell.as_str());
    let mut out = String::new();
    let mut i: usize = 0;
    while i < v.len()
        invariant
            i <= v.len(),
            out@ == escape_pipes(v@.take(i as int)),
        decreases v.len() - i,
    {
        let c = v[i];
        proof {
            assert(v@.take(i + 1) =~= v@.take(i as int).push(c));
            lemma_escape_pipes_push(v@.take(i as int), c);
        }
        if c == '|' {
            out.push_str("\\|");
        } else {
            out.push(c);
        }
        i = i + 1;
    }
    assert(v@.take(v.len() as int) =~= v@);
    out
}

/// Writes one table row: `| a | b |`.
fn push_row(cells: &Vec<Vec<Inline>>, out: &mut String)
    ensures
        final(out)@ == old(out)@ + table_row_md(cells_md(cells_view(cells@))),
{
    let ghost parts = cells_md(cells_view(cells@));
    proof {
        lemma_cells_view_len(cells@);
    }
    out.push_str("| ");
    let ghost base = out@;
    let mut i: usize = 0;
    while i < cells.len()
        invariant
            i <= cells.len(),
            parts == cells_md(cells_view(cells@)),
            parts.len() == cells@.len(),
            out@ == base + join(parts.take(i as int), " | "@),
        decreases cells.len() - i,
    {
        proof {
            crate::markdown::ast::lemma_cells_view_index(cells@, i as int);
            assert(parts.take(i + 1) =~= parts.take(i as int).push(parts[i as int]));
            lemma_join_push(parts.take(i as int), parts[i as int], " | "@);
        }
        if i > 0 {
            out.push_str(" | ");
        }
        let cell = format_cells(&cells[i]);
        out.push_str(cell.as_str());
        i = i + 1;
    }
    assert(parts.take(cells.len() as int) =~= parts);
    out.push_str(" |");
}

fn align_text(a: TableAlign) -> (r: &'static str)
    ensures
        r@ == align_mark(a),
{
    match a {
        TableAlign::Unaligned => "---",
        TableAlign::Left => ":---",
        TableAlign::Center => ":---:",
        TableAlign::Right => "---:",
    }
}

fn serialize_table(table: &Table, out: &mut String)
    ensures
        final(out)@ == old(out)@ + table_md(table_view(*table)),
{
    push_row(&table.headers, out);
    out.push('\n');
    let ghost marks = table.align@.map_values(|a: TableAlign| align_mark(a));
    out.push_str("| ");
    let ghost base = out@;
    let mut i: usize = 0;
    while i < table.align.len()
        invariant
            i <= table.align.len(),
            marks == table.align@.map_values(|a: TableAlign| align_mark(a)),
            out@ == base + join(marks.take(i as int), " | "@),
        decreases table.align.len() - i,
    {
        proof {
            assert(marks.take(i + 1) =~= marks.take(i as int).push(marks[i as int]));
            lemma_join_push(marks.take(i as int), marks[i as int], " | "@);
        }
        if i > 0 {
            out.push_str(" | ");
        }
        out.push_str(align_text(table.align[i]));
        i = i + 1;
    }
    assert(marks.take(table.align.len() as int) =~= marks);
    out.push_str(" |");
    let ghost after_align = out@;
    let mut r: usize = 0;
    while r < table.rows.len()
        invariant
            r <= table.rows.len(),
            out@ == after_align + rows_md(rows_view(table.rows@.take(r as int))),
        decreases table.rows.len() - r,
    {
        proof {
            lemma_rows_view_take(table.rows@, r as int);
            lemma_rows_md_push(rows_view(table.rows@.take(r as int)), cells_view(table.rows@[r as int]@));
        }
        out.push('\n');
        push_row(&table.rows[r], out);
        r = r + 1;
    }
    assert(table.rows@.take(table.rows.len() as int) =~= table.rows@);
}

/// Writes `count` `#` characters.
fn push_hashes(count: u8, out: &mut String)
    ensures
        final(out)@ == old(out)@ + hashes(count as nat),
{
    let mut k: u8 = 0;
    while k < count
        invariant
            k <= count,
            out@ == old(out)@ + hashes(k as nat),
        decreases count - k,
    {
        out.push('#');
        assert(hashes((k + 1) as nat) =~= hashes(k as nat).push('#'));
        k = k + 1;
    }
}

/// Writes the decimal number `n`, which may exceed `u64`.
fn push_decimal(n: u128, out: &mut String)
    ensures
        final(out)@ == old(out)@ + decimal(n as nat),
    decreases n,
{
    if n >= 10 {
        push_decimal(n / 10, out);
    }
    let d = n % 10;
    let c = if d == 0 {
        '0'
    } else if d == 1 {
        '1'
    } else if d == 2 {
        '2'
    } else if d == 3 {
        '3'
    } else if d == 4 {
        '4'
    } else if d == 5 {
        '5'
    } else if d == 6 {
        '6'
    } else if d == 7 {
        '7'
    } else if d == 8 {
        '8'
    } else {
        '9'
    };
    assert(c == (('0' as u32) + (n % 10)) as char);
    out.push(c);
}

fn push_marker(ordered: bool, start: Option<u64>, i: usize, out: &mut String)
    ensures
        final(out)@ == old(out)@ + marker(ordered, start, i as nat),
{
    if ordered {
        let first: u64 = match start {
            Some(s) => s,
            None => 1,
        };
        push_decimal(first as u128 + i as u128, out);
        out.push_str(". ");
    } else {
        out.push_str("- ");
    }
}

fn push_checkbox(checked: Option<bool>, out: &mut String)
    ensures
        final(out)@ == old(out)@ + checkbox(checked),
{
    match checked {
        Some(c) => {
            if c {
                out.push_str("[x] ");
            } else {
                out.push_str("[ ] ");
            }
        },
        None => {
            assert(old(out)@ + Seq::<char>::empty() =~= old(out)@);
        },
    }
}

#[verifier::spinoff_prover]
#[verifier::rlimit(40)]
fn serialize_list(ordered: bool, start: Option<u64>, items: &Vec<ListItem>, indent: &str, out: &mut String)
    ensures
        final(out)@ == old(out)@ + list_md(ordered, start, items_view(items@), indent@),
    decreases items, 0int,
{
    let mut i: usize = 0;
    while i < items.len()
        invariant
            i <= items.len(),
            out@ == old(out)@ + list_md(ordered, start, items_view(items@.take(i as int)), indent@),
        decreases items.len() - i,
    {
        proof {
            assert(decreases_to!(items => items@[i as int]));
            assert(decreases_to!(items@[i as int] => items@[i as int].children));
            lemma_items_view_take(items@, i as int);
            crate::markdown::ast::lemma_items_view_len(items@.take(i as int));
            lemma_list_md_push(ordered, start, items_view(items@.take(i as int)), item_view(items@[i as int]), indent@);
        }
        if i > 0 {
            out.push('\n');
        }
        out.push_str(indent);
        push_marker(ordered, start, i, out);
        push_checkbox(items[i].checked, out);
        serialize_children_inline(&items[i].children, out);
        i = i + 1;
    }
    assert(items@.take(items.len() as int) =~= items@);
}

/// Serializes a block's children: the first child continues the current
/// line, later children are dropped onto indented continuation lines.
fn serialize_children_inline(children: &Vec<Block>, out: &mut String)
    ensures
        final(out)@ == old(out)@ + children_md(blocks_view(children@)),
    decreases children, 0int,
{
    if children.len() == 0 {
        return;
    }
    proof {
        assert(decreases_to!(children => children@[0]));
        lemma_blocks_view_take(children@, 0);
        assert(children@.take(0) =~= Seq::<Block>::empty());
        lemma_children_md_push(blocks_view(children@.take(0)), kind_view(children@[0].kind));
        assert(children@.take(1) =~= children@.take(0).push(children@[0]));
    }
    serialize_block_inline(&children[0].kind, out);
    let mut i: usize = 1;
    while i < children.len()
        invariant
            1 <= i <= children.len(),
            out@ == old(out)@ + children_md(blocks_view(children@.take(i as int))),
        decreases children.len() - i,
    {
        proof {
            assert(decreases_to!(children => children@[i as int]));
            lemma_blocks_view_take(children@, i as int);
            lemma_blocks_view_len(children@.take(i as int));
            lemma_children_md_push(blocks_view(children@.take(i as int)), kind_view(children@[i as int].kind));
        }
        out.push('\n');
        let text = serialize_kind(&children[i].kind);
        push_indented(text.as_str(), "  ", out);
        i = i + 1;
    }
    assert(children@.take(children.len() as int) =~= children@);
}

/// The block's serialization where it opens inside an item.
fn serialize_block_inline(kind: &BlockKind, out: &mut String)
    ensures
        final(out)@ == old(out)@ + block_md(kind_view(*kind)),
    decreases kind, 2int,
{
    proof {
        reveal_strlit("");
        assert(""@ =~= Seq::<char>::empty());
    }
    match kind {
        BlockKind::Paragraph(inlines) => serialize_inlines(inlines, out),
        BlockKind::List { ordered, start, items } => serialize_list(*ordered, *start, items, "", out),
        _ => {
            let text = serialize_kind(kind);
            out.push_str(text.as_str());
        },
    }
}

/// A block kind serialized on its own.
fn serialize_kind(kind: &BlockKind) -> (r: String)
    ensures
        r@ == block_md(kind_view(*kind)),
    decreases kind, 1int,
{
    let mut out = String::new();
    serialize_block(kind, &mut out);
    out
}

fn serialize_blocks(blocks: &Vec<Block>, out: &mut String)
    ensures
        final(out)@ == old(out)@ + blocks_md(blocks_view(blocks@)),
    decreases blocks, 0int,
{
    let mut i: usize = 0;
    while i < blocks.len()
        invariant
            i <= blocks.len(),
            out@ == old(out)@ + blocks_md(blocks_view(blocks@.take(i as int))),
        decreases blocks.len() - i,
    {
        proof {
            assert(decreases_to!(blocks => blocks@[i as int]));
            lemma_blocks_view_take(blocks@, i as int);
            lemma_blocks_view_len(blocks@.take(i as int));
            lemma_blocks_md_push(blocks_view(blocks@.take(i as int)), kind_view(blocks@[i as int].kind));
        }
        if i > 0 {
            proof {
                lemma_blocks_view_index(blocks@.take(i as int), i - 1);
            }
            out.push_str(block_separator(&blocks[i - 1].kind, &blocks[i].kind));
        }
        serialize_block(&blocks[i].kind, out);
        i = i + 1;
    }
    assert(blocks@.take(blocks.len() as int) =~= blocks@);
}

fn serialize_block(kind: &BlockKind, out: &mut String)
    ensures
        final(out)@ == old(out)@ + block_md(kind_view(*kind)),
    decreases kind, 0int,
{
    match kind {
        BlockKind::Paragraph(inlines) => serialize_inlines(inlines, out),
        BlockKind::Heading { level, children } => {
            push_hashes(*level, out);
            out.push(' ');
            serialize_inlines(children, out);
        },
        BlockKind::CodeBlock { language, text } => {
            out.push_str("```");
            let ghost b0 = out@;
            match language {
                Some(lang) => out.push_str(lang.as_str()),
                None => {
                    assert(out@ =~= b0 + Seq::<char>::empty());
                },
            }
            out.push('\n');
            let body = trim_end_char(text.as_str(), '\n');
            out.push_str(body.as_str());
            out.push_str("\n```");
        },
        BlockKind::List { ordered, start, items } => {
            proof {
                reveal_strlit("");
                assert(""@ =~= Seq::<char>::empty());
            }
            serialize_list(*ordered, *start, items, "", out)
        },
        BlockKind::Quote(children) => {
            let mut inner = String::new();
            serialize_blocks(children, &mut inner);
            push_indented(inner.as_str(), "> ", out);
        },
        BlockKind::ThematicBreak => out.push_str("---"),
        BlockKind::Table(table) => serialize_table(table, out),
        BlockKind::HtmlBlock(text) => {
            let body = trim_end_char(text.as_str(), '\n');
            out.push_str(body.as_str());
        },
        BlockKind::FootnoteDefinition { name, children } => {
            out.push_str("[^");
            out.push_str(name.as_str());
            out.push_str("]: ");
            serialize_children_inline(children, out);
        },
    }
}

/// Serializes a document to canonical markdown source.
pub fn render_markdown(doc: &Document) -> (r: String)
    ensures
        r@ == blocks_md(doc.view_blocks()),
{
    let mut out = String::new();
    serialize_blocks(&doc.blocks, &mut out);
    out
}

} // verus!
