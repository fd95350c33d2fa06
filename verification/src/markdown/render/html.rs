//! HTML rendering of the document tree, followed by sanitizing.
use vstd::prelude::*;
use crate::markdown::ast::{
    Block, BlockKind, BlockV, Document, Inline, InlineV, ItemV, ListItem, Table, TableAlign, TableV,
    blocks_view, cells_view, inline_view, inlines_view, item_view, items_view, kind_view,
    rows_view, table_view, lemma_blocks_view_take, lemma_cells_view_take, lemma_inlines_view_take,
    lemma_items_view_take, lemma_rows_view_take,
};
use crate::text::{chars_of, decimal, decimal_string};
use ammonia::Builder;
use std::collections::{HashMap, HashSet};

verus! {

// ---------------------------------------------------------------------------
// What the renderer writes, as sequences of characters.

/// One character with the four HTML-special characters replaced by entities.
pub open spec fn escape_char(c: char) -> Seq<char> {
    if c == '&' {
        "&amp;"@
    } else if c == '<' {
        "&lt;"@
    } else if c == '>' {
        "&gt;"@
    } else if c == '"' {
        "&quot;"@
    } else {
        seq![c]
    }
}

/// A text with every `&`, `<`, `>` and `"` replaced by its entity.
pub open spec fn escape_seq(s: Seq<char>) -> Seq<char>
    decreases s.len(),
{
    if s.len() == 0 {
        Seq::empty()
    } else {
        escape_seq(s.drop_last()) + escape_char(s.last())
    }
}

/// Whether a character is one of the four that HTML text escapes.
pub open spec fn html_special(c: char) -> bool {
    c == '&' || c == '<' || c == '>' || c == '"'
}

proof fn lemma_escape_char(c: char)
    ensures
        !escape_char(c).contains('<') && !escape_char(c).contains('>') && !escape_char(c).contains('"'),
        !html_special(c) ==> escape_char(c) == seq![c],
        c == '<' ==> escape_char(c) == seq!['&', 'l', 't', ';'],
{
    reveal_strlit("&amp;");
    reveal_strlit("&lt;");
    reveal_strlit("&gt;");
    reveal_strlit("&quot;");
    let e = escape_char(c);
    if c == '&' {
        assert(e =~= seq!['&', 'a', 'm', 'p', ';']);
    } else if c == '<' {
        assert(e =~= seq!['&', 'l', 't', ';']);
    } else if c == '>' {
        assert(e =~= seq!['&', 'g', 't', ';']);
    } else if c == '"' {
        assert(e =~= seq!['&', 'q', 'u', 'o', 't', ';']);
    }
    assert forall|x: char| x == '<' || x == '>' || x == '"' implies !e.contains(x) by {
        if e.contains(x) {
            let i = choose|i: int| 0 <= i < e.len() && e[i] == x;
            if html_special(c) {
                assert(e[i] == x);
            }
        }
    }
}

/// Escaped text holds no `<`, `>` or `"` (so no text can open or close an
/// element or an attribute: each `<` of the text is written `&lt;`), and
/// text without any of the four special characters is written as it is.
pub proof fn lemma_escape_seq(t: Seq<char>)
    ensures
        !escape_seq(t).contains('<'),
        !escape_seq(t).contains('>'),
        !escape_seq(t).contains('"'),
        (forall|i: int| 0 <= i < t.len() ==> !html_special(#[trigger] t[i])) ==> escape_seq(t) == t,
    decreases t.len(),
{
    if t.len() > 0 {
        let a = escape_seq(t.drop_last());
        let b = escape_char(t.last());
        lemma_escape_seq(t.drop_last());
        lemma_escape_char(t.last());
        assert forall|x: char| x == '<' || x == '>' || x == '"' implies !(a + b).contains(x) by {
            if (a + b).contains(x) {
                let i = choose|i: int| 0 <= i < (a + b).len() && (a + b)[i] == x;
                if i < a.len() {
                    assert(a[i] == x);
                } else {
                    assert(b[i - a.len()] == x);
                }
            }
        }
        if forall|i: int| 0 <= i < t.len() ==> !html_special(#[trigger] t[i]) {
            assert forall|i: int| 0 <= i < t.drop_last().len() implies !html_special(#[trigger] t.drop_last()[i]) by {
                assert(t.drop_last()[i] == t[i]);
            }
            assert(!html_special(t[t.len() - 1]));
            assert(a + b =~= t);
        }
    }
}

/// The ` title="..."` attribute of a link or an image; nothing for an
/// empty title.
pub open spec fn title_attr(t: Seq<char>) -> Seq<char> {
    if t.len() == 0 {
        Seq::empty()
    } else {
        " title=\""@ + escape_seq(t) + "\""@
    }
}

pub open spec fn inline_html(i: InlineV) -> Seq<char>
    decreases i,
{
    match i {
        InlineV::Text(t) => escape_seq(t),
        InlineV::Strong(c) => "<strong>"@ + inlines_html(c) + "</strong>"@,
        InlineV::Emphasis(c) => "<em>"@ + inlines_html(c) + "</em>"@,
        InlineV::Strikethrough(c) => "<del>"@ + inlines_html(c) + "</del>"@,
        InlineV::Code(t) => "<code>"@ + escape_seq(t) + "</code>"@,
        InlineV::Link { url, title, children } => "<a href=\""@ + escape_seq(url) + "\""@
            + title_attr(title) + ">"@ + inlines_html(children) + "</a>"@,
        InlineV::Image { url, alt, title } => "<img src=\""@ + escape_seq(url) + "\" alt=\""@
            + escape_seq(alt) + "\""@ + title_attr(title) + ">"@,
        InlineV::NoteEmbed(r) => "<pe-embed data-ref=\""@ + escape_seq(r) + "\"></pe-embed>"@,
        InlineV::TagRef(n) => "<pe-tag data-name=\""@ + escape_seq(n) + "\"></pe-tag>"@,
        InlineV::LineBreak => "<br>\n"@,
        InlineV::SoftBreak => seq!['\n'],
    }
}

pub open spec fn inlines_html(s: Seq<InlineV>) -> Seq<char>
    decreases s,
{
    if s.len() == 0 {
        Seq::empty()
    } else {
        inlines_html(s.drop_last()) + inline_html(s.last())
    }
}

/// The HTML of a run of inlines is that of its parts, one after another.
pub proof fn lemma_inlines_html_concat(a: Seq<InlineV>, b: Seq<InlineV>)
    ensures
        inlines_html(a + b) == inlines_html(a) + inlines_html(b),
    decreases b.len(),
{
    if b.len() == 0 {
        assert(a + b =~= a);
        assert(inlines_html(a) + inlines_html(b) =~= inlines_html(a));
    } else {
        lemma_inlines_html_concat(a, b.drop_last());
        assert((a + b).drop_last() =~= a + b.drop_last());
        assert((a + b).last() == b.last());
        assert(inlines_html(a + b) =~= inlines_html(a) + inlines_html(b));
    }
}

/// Text is written escaped and code escaped inside a `<code>` element.
pub proof fn lemma_text_and_code_html(t: Seq<char>)
    ensures
        inlines_html(seq![InlineV::Text(t)]) == escape_seq(t),
        inlines_html(seq![InlineV::Code(t)]) == seq!['<', 'c', 'o', 'd', 'e', '>'] + escape_seq(t) + seq![
            '<',
            '/',
            'c',
            'o',
            'd',
            'e',
            '>',
        ],
{
    reveal_strlit("<code>");
    reveal_strlit("</code>");
    assert("<code>"@ =~= seq!['<', 'c', 'o', 'd', 'e', '>']);
    assert("</code>"@ =~= seq!['<', '/', 'c', 'o', 'd', 'e', '>']);
    let e = Seq::<InlineV>::empty();
    assert(seq![InlineV::Text(t)].drop_last() =~= e);
    assert(seq![InlineV::Code(t)].drop_last() =~= e);
    assert(seq![InlineV::Text(t)].last() == InlineV::Text(t));
    assert(seq![InlineV::Code(t)].last() == InlineV::Code(t));
    assert(inlines_html(e) == Seq::<char>::empty());
    assert(inlines_html(seq![InlineV::Text(t)]) == Seq::<char>::empty() + inline_html(InlineV::Text(t)));
    assert(inlines_html(seq![InlineV::Code(t)]) == Seq::<char>::empty() + inline_html(InlineV::Code(t)));
    assert(Seq::<char>::empty() + escape_seq(t) =~= escape_seq(t));
    assert(inlines_html(seq![InlineV::Code(t)]) =~= seq!['<', 'c', 'o', 'd', 'e', '>'] + escape_seq(t) + seq![
        '<',
        '/',
        'c',
        'o',
        'd',
        'e',
        '>',
    ]);
}

/// Strong, emphasized and struck-through inlines wrap their children's
/// HTML in elements of their own: `<strong>`, `<em>` and `<del>`; a strong
/// inline never renders as an emphasized one.
pub proof fn lemma_emphasis_elements(c: Seq<InlineV>)
    ensures
        inlines_html(seq![InlineV::Strong(c)]) == seq!['<', 's', 't', 'r', 'o', 'n', 'g', '>'] + inlines_html(c)
            + seq!['<', '/', 's', 't', 'r', 'o', 'n', 'g', '>'],
        inlines_html(seq![InlineV::Emphasis(c)]) == seq!['<', 'e', 'm', '>'] + inlines_html(c) + seq![
            '<',
            '/',
            'e',
            'm',
            '>',
        ],
        inlines_html(seq![InlineV::Strikethrough(c)]) == seq!['<', 'd', 'e', 'l', '>'] + inlines_html(c) + seq![
            '<',
            '/',
            'd',
            'e',
            'l',
            '>',
        ],
        inlines_html(seq![InlineV::Strong(c)]) != inlines_html(seq![InlineV::Emphasis(c)]),
{
    reveal_strlit("<strong>");
    reveal_strlit("</strong>");
    reveal_strlit("<em>");
    reveal_strlit("</em>");
    reveal_strlit("<del>");
    reveal_strlit("</del>");
    let e = Seq::<InlineV>::empty();
    assert(seq![InlineV::Strong(c)].drop_last() =~= e);
    assert(seq![InlineV::Emphasis(c)].drop_last() =~= e);
    assert(seq![InlineV::Strikethrough(c)].drop_last() =~= e);
    assert(inlines_html(e) == Seq::<char>::empty());
    assert("<strong>"@ =~= seq!['<', 's', 't', 'r', 'o', 'n', 'g', '>']);
    assert("</strong>"@ =~= seq!['<', '/', 's', 't', 'r', 'o', 'n', 'g', '>']);
    assert("<em>"@ =~= seq!['<', 'e', 'm', '>']);
    assert("</em>"@ =~= seq!['<', '/', 'e', 'm', '>']);
    assert(seq![InlineV::Strong(c)].last() == InlineV::Strong(c));
    assert(seq![InlineV::Emphasis(c)].last() == InlineV::Emphasis(c));
    let s = inlines_html(seq![InlineV::Strong(c)]);
    let m = inlines_html(seq![InlineV::Emphasis(c)]);
    assert(s == Seq::<char>::empty() + inline_html(InlineV::Strong(c)));
    assert(m == Seq::<char>::empty() + inline_html(InlineV::Emphasis(c)));
    assert("<del>"@ =~= seq!['<', 'd', 'e', 'l', '>']);
    assert("</del>"@ =~= seq!['<', '/', 'd', 'e', 'l', '>']);
    assert(seq![InlineV::Strikethrough(c)].last() == InlineV::Strikethrough(c));
    assert(inlines_html(seq![InlineV::Strikethrough(c)]) == Seq::<char>::empty() + inline_html(
        InlineV::Strikethrough(c),
    ));
    assert(s =~= seq!['<', 's', 't', 'r', 'o', 'n', 'g', '>'] + inlines_html(c) + seq!['<', '/', 's', 't', 'r', 'o', 'n', 'g', '>']);
    assert(m =~= seq!['<', 'e', 'm', '>'] + inlines_html(c) + seq!['<', '/', 'e', 'm', '>']);
    assert(inlines_html(seq![InlineV::Strikethrough(c)]) =~= seq!['<', 'd', 'e', 'l', '>'] + inlines_html(c) + seq![
        '<',
        '/',
        'd',
        'e',
        'l',
        '>',
    ]);
    assert(s[1] == 's' && m[1] == 'e');
}

/// The `align` value of column `i`, if the column has one.
pub open spec fn align_attr(align: Seq<TableAlign>, i: int) -> Option<Seq<char>> {
    if 0 <= i < align.len() {
        match align[i] {
            TableAlign::Left => Some("left"@),
            TableAlign::Center => Some("center"@),
            TableAlign::Right => Some("right"@),
            TableAlign::Unaligned => None,
        }
    } else {
        None
    }
}

/// The opening tag of a header (`head`) or body cell.
pub open spec fn cell_open(head: bool, a: Option<Seq<char>>) -> Seq<char> {
    match a {
        Some(x) => if head {
            "<th align=\""@ + x + "\">"@
        } else {
            "<td align=\""@ + x + "\">"@
        },
        None => if head {
            "<th>"@
        } else {
            "<td>"@
        },
    }
}

pub open spec fn cell_close(head: bool) -> Seq<char> {
    if head {
        "</th>"@
    } else {
        "</td>"@
    }
}

/// The cells of one row, each aligned by its column.
pub open spec fn cells_html(cells: Seq<Seq<InlineV>>, align: Seq<TableAlign>, head: bool) -> Seq<char>
    decreases cells.len(),
{
    if cells.len() == 0 {
        Seq::empty()
    } else {
        cells_html(cells.drop_last(), align, head) + cell_open(head, align_attr(align, cells.len() - 1))
            + inlines_html(cells.last()) + cell_close(head)
    }
}

pub open spec fn rows_html(rows: Seq<Seq<Seq<InlineV>>>, align: Seq<TableAlign>) -> Seq<char>
    decreases rows.len(),
{
    if rows.len() == 0 {
        Seq::empty()
    } else {
        rows_html(rows.drop_last(), align) + "<tr>\n"@ + cells_html(rows.last(), align, false)
            + "\n</tr>\n"@
    }
}

/// A table: the header row when there are header cells, the body when there
/// are body rows.
pub open spec fn table_html(t: TableV) -> Seq<char> {
    "<table>\n"@ + (if t.headers.len() == 0 {
        Seq::empty()
    } else {
        "<thead>\n<tr>\n"@ + cells_html(t.headers, t.align, true) + "\n</tr>\n</thead>\n"@
    }) + (if t.rows.len() == 0 {
        Seq::empty()
    } else {
        "<tbody>\n"@ + rows_html(t.rows, t.align) + "</tbody>\n"@
    }) + "</table>\n"@
}

pub open spec fn checked_attr(c: Option<bool>) -> Seq<char> {
    match c {
        Some(true) => " checked=\"checked\""@,
        Some(false) => " checked=\"false\""@,
        None => Seq::empty(),
    }
}

pub open spec fn list_open(ordered: bool, start: Option<u64>) -> Seq<char> {
    if ordered {
        match start {
            Some(s) => "<ol start=\""@ + decimal(s as nat) + "\">\n"@,
            None => "<ol>\n"@,
        }
    } else {
        "<ul>\n"@
    }
}

pub open spec fn list_close(ordered: bool) -> Seq<char> {
    if ordered {
        "</ol>\n"@
    } else {
        "</ul>\n"@
    }
}

pub open spec fn block_html(b: BlockV) -> Seq<char>
    decreases b,
{
    match b {
        BlockV::Paragraph(c) => "<p>"@ + inlines_html(c) + "</p>\n"@,
        BlockV::Heading(l, c) => "<h"@ + decimal(l as nat) + ">"@ + inlines_html(c) + "</h"@
            + decimal(l as nat) + ">\n"@,
        BlockV::CodeBlock(lang, t) => match lang {
            Some(l) => "<pre><code class=\"language-"@ + escape_seq(l) + "\">"@ + escape_seq(t)
                + "</code></pre>\n"@,
            None => "<pre><code>"@ + escape_seq(t) + "</code></pre>\n"@,
        },
        BlockV::List(ordered, start, items) => list_open(ordered, start) + items_html(items)
            + list_close(ordered),
        BlockV::Quote(c) => "<blockquote>\n"@ + blocks_html(c) + "</blockquote>\n"@,
        BlockV::ThematicBreak => "<hr>\n"@,
        BlockV::Table(t) => table_html(t),
        BlockV::HtmlBlock(h) => h.push('\n'),
        BlockV::FootnoteDefinition(n, c) => "<div class=\"footnote-definition\" id=\""@
            + escape_seq(n) + "\">\n"@ + blocks_html(c) + "</div>\n"@,
    }
}

pub open spec fn blocks_html(s: Seq<BlockV>) -> Seq<char>
    decreases s,
{
    if s.len() == 0 {
        Seq::empty()
    } else {
        blocks_html(s.drop_last()) + block_html(s.last())
    }
}

/// Each item as `<li>` with its check mark, its blocks, then `</li>`.
pub open spec fn items_html(s: Seq<ItemV>) -> Seq<char>
    decreases s,
{
    if s.len() == 0 {
        Seq::empty()
    } else {
        items_html(s.drop_last()) + "<li"@ + checked_attr(s.last().checked) + ">"@
            + blocks_html(s.last().children) + "</li>\n"@
    }
}

// ---------------------------------------------------------------------------
// Facts about the renderings of sequences.

proof fn lemma_escape_push(s: Seq<char>, c: char)
    ensures
        escape_seq(s.push(c)) == escape_seq(s) + escape_char(c),
{
    assert(s.push(c).drop_last() =~= s);
}

proof fn lemma_inlines_html_push(s: Seq<InlineV>, x: InlineV)
    ensures
        inlines_html(s.push(x)) == inlines_html(s) + inline_html(x),
{
    assert(s.push(x).drop_last() =~= s);
}

proof fn lemma_blocks_html_push(s: Seq<BlockV>, x: BlockV)
    ensures
        blocks_html(s.push(x)) == blocks_html(s) + block_html(x),
{
    assert(s.push(x).drop_last() =~= s);
}

proof fn lemma_items_html_push(s: Seq<ItemV>, x: ItemV)
    ensures
        items_html(s.push(x)) == items_html(s) + "<li"@ + checked_attr(x.checked) + ">"@
            + blocks_html(x.children) + "</li>\n"@,
{
    assert(s.push(x).drop_last() =~= s);
}

proof fn lemma_cells_html_push(s: Seq<Seq<InlineV>>, x: Seq<InlineV>, align: Seq<TableAlign>, head: bool)
    ensures
        cells_html(s.push(x), align, head) == cells_html(s, align, head) + cell_open(
            head,
            align_attr(align, s.len() as int),
        ) + inlines_html(x) + cell_close(head),
{
    assert(s.push(x).drop_last() =~= s);
}

proof fn lemma_rows_html_push(s: Seq<Seq<Seq<InlineV>>>, x: Seq<Seq<InlineV>>, align: Seq<TableAlign>)
    ensures
        rows_html(s.push(x), align) == rows_html(s, align) + "<tr>\n"@ + cells_html(x, align, false)
            + "\n</tr>\n"@,
{
    assert(s.push(x).drop_last() =~= s);
}

/// Escaped text holds no `<`, `>` or `"`: it cannot open or close a tag
/// or end an attribute value.
pub proof fn lemma_escape_is_inert(s: Seq<char>)
    ensures
        !escape_seq(s).contains('<'),
        !escape_seq(s).contains('>'),
        !escape_seq(s).contains('"'),
    decreases s.len(),
{
    reveal_strlit("&amp;");
    reveal_strlit("&lt;");
    reveal_strlit("&gt;");
    reveal_strlit("&quot;");
    if s.len() > 0 {
        lemma_escape_is_inert(s.drop_last());
        let e = escape_seq(s);
        let a = escape_seq(s.drop_last());
        let b = escape_char(s.last());
        assert(e == a + b);
        assert forall|k: int| 0 <= k < e.len() implies e[k] != '<' && e[k] != '>' && e[k] != '"' by {
            if k < a.len() {
                assert(e[k] == a[k]);
            } else {
                assert(e[k] == b[k - a.len()]);
            }
        }
    }
}

// ---------------------------------------------------------------------------
// The renderer.

/// `s` with `&`, `<`, `>` and `"` replaced by their entities.
fn escape_html(s: &str) -> (r: String)
    ensures
        r@ == escape_seq(s@),
{
    let v = chars_of(s);
    let mut out = String::new();
    let mut i: usize = 0;
    while i < v.len()
        invariant
            i <= v.len(),
            out@ == escape_seq(v@.take(i as int)),
        decreases v.len() - i,
    {
        let c = v[i];
        proof {
            assert(v@.take(i + 1) =~= v@.take(i as int).push(c));
            lemma_escape_push(v@.take(i as int), c);
        }
        if c == '&' {
            out.push_str("&amp;");
        } else if c == '<' {
            out.push_str("&lt;");
        } else if c == '>' {
            out.push_str("&gt;");
        } else if c == '"' {
            out.push_str("&quot;");
        } else {
            out.push(c);
        }
        i = i + 1;
    }
    assert(v@.take(v.len() as int) =~= v@);
    out
}

fn push_escaped(buf: &mut String, s: &str)
    ensures
        final(buf)@ == old(buf)@ + escape_seq(s@),
{
    let e = escape_html(s);
    buf.push_str(e.as_str());
}

fn push_title(buf: &mut String, title: &String)
    ensures
        final(buf)@ == old(buf)@ + title_attr(title@),
{
    if !title.as_str().is_empty() {
        buf.push_str(" title=\"");
        push_escaped(buf, title.as_str());
        buf.push_str("\"");
    } else {
        assert(old(buf)@ + Seq::<char>::empty() =~= old(buf)@);
    }
}

fn render_inline(inline: &Inline, buf: &mut String)
    ensures
        final(buf)@ == old(buf)@ + inline_html(inline_view(*inline)),
    decreases inline,
{
    match inline {
        Inline::Text(text) => push_escaped(buf, text.as_str()),
        Inline::Strong(children) => {
            buf.push_str("<strong>");
            render_inlines(children, buf);
            buf.push_str("</strong>");
        },
        Inline::Emphasis(children) => {
            buf.push_str("<em>");
            render_inlines(children, buf);
            buf.push_str("</em>");
        },
        Inline::Strikethrough(children) => {
            buf.push_str("<del>");
            render_inlines(children, buf);
            buf.push_str("</del>");
        },
        Inline::Code(code) => {
            buf.push_str("<code>");
            push_escaped(buf, code.as_str());
            buf.push_str("</code>");
        },
        Inline::Link { url, title, children } => {
            buf.push_str("<a href=\"");
            push_escaped(buf, url.as_str());
            buf.push_str("\"");
            push_title(buf, title);
            buf.push_str(">");
            render_inlines(children, buf);
            buf.push_str("</a>");
        },
        Inline::Image { url, alt, title } => {
            buf.push_str("<img src=\"");
            push_escaped(buf, url.as_str());
            buf.push_str("\" alt=\"");
            push_escaped(buf, alt.as_str());
            buf.push_str("\"");
            push_title(buf, title);
            buf.push_str(">");
        },
        Inline::NoteEmbed { note_ref } => {
            buf.push_str("<pe-embed data-ref=\"");
            push_escaped(buf, note_ref.as_str());
            buf.push_str("\"></pe-embed>");
        },
        Inline::TagRef { name } => {
            buf.push_str("<pe-tag data-name=\"");
            push_escaped(buf, name.as_str());
            buf.push_str("\"></pe-tag>");
        },
        Inline::LineBreak => buf.push_str("<br>\n"),
        Inline::SoftBreak => buf.push('\n'),
    }
}

fn render_inlines(inlines: &Vec<Inline>, buf: &mut String)
    ensures
        final(buf)@ == old(buf)@ + inlines_html(inlines_view(inlines@)),
    decreases inlines,
{
    let mut i: usize = 0;
    while i < inlines.len()
        invariant
            i <= inlines.len(),
            buf@ == old(buf)@ + inlines_html(inlines_view(inlines@.take(i as int))),
        decreases inlines.len() - i,
    {
        proof {
            assert(decreases_to!(inlines => inlines@[i as int]));
            lemma_inlines_view_take(inlines@, i as int);
            lemma_inlines_html_push(inlines_view(inlines@.take(i as int)), inline_view(inlines@[i as int]));
        }
        render_inline(&inlines[i], buf);
        i = i + 1;
    }
    assert(inlines@.take(inlines.len() as int) =~= inlines@);
}

fn push_cell_open(buf: &mut String, head: bool, align: &Vec<TableAlign>, i: usize)
    ensures
        final(buf)@ == old(buf)@ + cell_open(head, align_attr(align@, i as int)),
{
    let mut a: Option<&str> = None;
    if i < align.len() {
        match align[i] {
            TableAlign::Left => a = Some("left"),
            TableAlign::Center => a = Some("center"),
            TableAlign::Right => a = Some("right"),
            TableAlign::Unaligned => {},
        }
    }
    match a {
        Some(x) => {
            if head {
                buf.push_str("<th align=\"");
            } else {
                buf.push_str("<td align=\"");
            }
            buf.push_str(x);
            buf.push_str("\">");
        },
        None => {
            if head {
                buf.push_str("<th>");
            } else {
                buf.push_str("<td>");
            }
        },
    }
}

fn render_cells(cells: &Vec<Vec<Inline>>, align: &Vec<TableAlign>, head: bool, buf: &mut String)
    ensures
        final(buf)@ == old(buf)@ + cells_html(cells_view(cells@), align@, head),
{
    let mut i: usize = 0;
    while i < cells.len()
        invariant
            i <= cells.len(),
            buf@ == old(buf)@ + cells_html(cells_view(cells@.take(i as int)), align@, head),
        decreases cells.len() - i,
    {
        proof {
            lemma_cells_view_take(cells@, i as int);
            crate::markdown::ast::lemma_cells_view_len(cells@.take(i as int));
            lemma_cells_html_push(cells_view(cells@.take(i as int)), inlines_view(cells@[i as int]@), align@, head);
        }
        push_cell_open(buf, head, align, i);
        render_inlines(&cells[i], buf);
        if head {
            buf.push_str("</th>");
        } else {
            buf.push_str("</td>");
        }
        i = i + 1;
    }
    assert(cells@.take(cells.len() as int) =~= cells@);
}

fn render_table(table: &Table, buf: &mut String)
    ensures
        final(buf)@ == old(buf)@ + table_html(table_view(*table)),
{
    let ghost t = table_view(*table);
    buf.push_str("<table>\n");
    let ghost b0 = buf@;
    proof {
        crate::markdown::ast::lemma_cells_view_len(table.headers@);
    }
    if table.headers.len() != 0 {
        buf.push_str("<thead>\n<tr>\n");
        render_cells(&table.headers, &table.align, true, buf);
        buf.push_str("\n</tr>\n</thead>\n");
    } else {
        assert(buf@ =~= b0 + Seq::<char>::empty());
    }
    let ghost b1 = buf@;
    proof {
        rows_view_len(table.rows@);
    }
    if table.rows.len() != 0 {
        buf.push_str("<tbody>\n");
        let mut r: usize = 0;
        let ghost b2 = buf@;
        while r < table.rows.len()
            invariant
                r <= table.rows.len(),
                buf@ == b2 + rows_html(rows_view(table.rows@.take(r as int)), table.align@),
            decreases table.rows.len() - r,
        {
            proof {
                lemma_rows_view_take(table.rows@, r as int);
                lemma_rows_html_push(rows_view(table.rows@.take(r as int)), cells_view(table.rows@[r as int]@), table.align@);
            }
            buf.push_str("<tr>\n");
            render_cells(&table.rows[r], &table.align, false, buf);
            buf.push_str("\n</tr>\n");
            r = r + 1;
        }
        assert(table.rows@.take(table.rows.len() as int) =~= table.rows@);
        buf.push_str("</tbody>\n");
    } else {
        assert(buf@ =~= b1 + Seq::<char>::empty());
    }
    buf.push_str("</table>\n");
    assert(buf@ =~= old(buf)@ + table_html(t));
}

proof fn rows_view_len(s: Seq<Vec<Vec<Inline>>>)
    ensures
        rows_view(s).len() == s.len(),
    decreases s.len(),
{
    if s.len() > 0 {
        rows_view_len(s.drop_last());
    }
}

fn render_list_item(item: &ListItem, buf: &mut String)
    ensures
        final(buf)@ == old(buf)@ + "<li"@ + checked_attr(item_view(*item).checked) + ">"@
            + blocks_html(item_view(*item).children) + "</li>\n"@,
    decreases item,
{
    buf.push_str("<li");
    let ghost b0 = buf@;
    match item.checked {
        Some(checked) => {
            if checked {
                buf.push_str(" checked=\"checked\"");
            } else {
                buf.push_str(" checked=\"false\"");
            }
        },
        None => {
            assert(buf@ =~= b0 + Seq::<char>::empty());
        },
    }
    buf.push_str(">");
    render_blocks(&item.children, buf);
    buf.push_str("</li>\n");
}

fn render_blocks(blocks: &Vec<Block>, buf: &mut String)
    ensures
        final(buf)@ == old(buf)@ + blocks_html(blocks_view(blocks@)),
    decreases blocks,
{
    let mut i: usize = 0;
    while i < blocks.len()
        invariant
            i <= blocks.len(),
            buf@ == old(buf)@ + blocks_html(blocks_view(blocks@.take(i as int))),
        decreases blocks.len() - i,
    {
        proof {
            assert(decreases_to!(blocks => blocks@[i as int]));
            lemma_blocks_view_take(blocks@, i as int);
            lemma_blocks_html_push(blocks_view(blocks@.take(i as int)), kind_view(blocks@[i as int].kind));
        }
        render_block(&blocks[i], buf);
        i = i + 1;
    }
    assert(blocks@.take(blocks.len() as int) =~= blocks@);
}

fn render_heading(level: u8, children: &Vec<Inline>, buf: &mut String)
    ensures
        final(buf)@ == old(buf)@ + block_html(BlockV::Heading(level, inlines_view(children@))),
{
    let digits = decimal_string(level as u64);
    buf.push_str("<h");
    buf.push_str(digits.as_str());
    buf.push_str(">");
    render_inlines(children, buf);
    buf.push_str("</h");
    buf.push_str(digits.as_str());
    buf.push_str(">\n");
}

fn render_code_block(language: &Option<String>, text: &String, buf: &mut String)
    ensures
        final(buf)@ == old(buf)@ + block_html(
            BlockV::CodeBlock(crate::markdown::ast::opt_str_view(*language), text@),
        ),
{
    match language {
        Some(lang) => {
            buf.push_str("<pre><code class=\"language-");
            push_escaped(buf, lang.as_str());
            buf.push_str("\">");
            push_escaped(buf, text.as_str());
            buf.push_str("</code></pre>\n");
        },
        None => {
            buf.push_str("<pre><code>");
            push_escaped(buf, text.as_str());
            buf.push_str("</code></pre>\n");
        },
    }
}

fn push_list_open(ordered: bool, start: Option<u64>, buf: &mut String)
    ensures
        final(buf)@ == old(buf)@ + list_open(ordered, start),
{
    if ordered {
        match start {
            Some(s) => {
                let digits = decimal_string(s);
                buf.push_str("<ol start=\"");
                buf.push_str(digits.as_str());
                buf.push_str("\">\n");
            },
            None => buf.push_str("<ol>\n"),
        }
    } else {
        buf.push_str("<ul>\n");
    }
}

fn render_list(items: &Vec<ListItem>, buf: &mut String)
    ensures
        final(buf)@ == old(buf)@ + items_html(items_view(items@)),
    decreases items,
{
    let mut i: usize = 0;
    while i < items.len()
        invariant
            i <= items.len(),
            buf@ == old(buf)@ + items_html(items_view(items@.take(i as int))),
        decreases items.len() - i,
    {
        proof {
            assert(decreases_to!(items => items@[i as int]));
            lemma_items_view_take(items@, i as int);
            lemma_items_html_push(items_view(items@.take(i as int)), item_view(items@[i as int]));
        }
        render_list_item(&items[i], buf);
        i = i + 1;
    }
    assert(items@.take(items.len() as int) =~= items@);
}

fn render_block(block: &Block, buf: &mut String)
    ensures
        final(buf)@ == old(buf)@ + block_html(kind_view(block.kind)),
    decreases block,
{
    match &block.kind {
        BlockKind::Paragraph(children) => {
            buf.push_str("<p>");
            render_inlines(children, buf);
            buf.push_str("</p>\n");
        },
        BlockKind::Heading { level, children } => render_heading(*level, children, buf),
        BlockKind::CodeBlock { language, text } => render_code_block(language, text, buf),
        BlockKind::List { ordered, start, items } => {
            push_list_open(*ordered, *start, buf);
            render_list(items, buf);
            if *ordered {
                buf.push_str("</ol>\n");
            } else {
                buf.push_str("</ul>\n");
            }
        },
        BlockKind::Quote(children) => {
            buf.push_str("<blockquote>\n");
            render_blocks(children, buf);
            buf.push_str("</blockquote>\n");
        },
        BlockKind::ThematicBreak => buf.push_str("<hr>\n"),
        BlockKind::Table(table) => render_table(table, buf),
        BlockKind::HtmlBlock(html) => {
            buf.push_str(html.as_str());
            buf.push('\n');
        },
        BlockKind::FootnoteDefinition { name, children } => {
            buf.push_str("<div class=\"footnote-definition\" id=\"");
            push_escaped(buf, name.as_str());
            buf.push_str("\">\n");
            render_blocks(children, buf);
            buf.push_str("</div>\n");
        },
    }
}

/// The unsanitized HTML of a document: its blocks' renderings in order.
fn render_doc(doc: &Document) -> (r: String)
    ensures
        r@ == blocks_html(doc.view_blocks()),
{
    let mut buf = String::new();
    render_blocks(&doc.blocks, &mut buf);
    buf
}

// ---------------------------------------------------------------------------
// Sanitizing.

/// What `ammonia` makes of an HTML fragment when it keeps only the given
/// tags and, per tag, the given attributes, and sets `rel` on every link.
pub uninterp spec fn ammonia_clean(
    raw: Seq<char>,
    tags: Seq<Seq<char>>,
    attrs: Seq<(Seq<char>, Seq<Seq<char>>)>,
    link_rel: Seq<char>,
) -> Seq<char>;

pub open spec fn strs_view(s: Seq<&str>) -> Seq<Seq<char>> {
    s.map_values(|x: &str| x@)
}

pub open spec fn attrs_view(s: Seq<(&str, &[&str])>) -> Seq<(Seq<char>, Seq<Seq<char>>)> {
    s.map_values(|p: (&str, &[&str])| (p.0@, strs_view(p.1@)))
}

/// The settings under which `ammonia::Builder::clean` does not panic, given
/// that its other settings keep their defaults (`script` and `style` have
/// their content removed, no allowed classes, `lang` and `title` allowed on
/// every tag): no tag is both kept and content-cleaned, and the `a` tag
/// does not allow a `rel` of its own while `rel` is set on links.
pub open spec fn clean_settings_ok(tags: Seq<Seq<char>>, attrs: Seq<(Seq<char>, Seq<Seq<char>>)>) -> bool {
    &&& !tags.contains("script"@)
    &&& !tags.contains("style"@)
    &&& forall|i: int| 0 <= i < attrs.len() ==> attrs[i].0 != "script"@ && attrs[i].0 != "style"@
    &&& forall|i: int| 0 <= i < attrs.len() && attrs[i].0 == "a"@ ==> !attrs[i].1.contains("rel"@)
}

/// `ammonia::Builder::default()` with its tag list replaced by `tags`, its
/// per-tag attribute lists replaced by `attrs` and `link_rel` set, applied
/// to `raw` with `clean` and written out with `to_string`. Trusted: the
/// result is `ammonia_clean` of these values; cleaning is a pure function
/// of the input and the settings. Settings that make `clean` panic are
/// excluded.
#[verifier::external_body]
fn ammonia_clean_html(raw: &str, tags: &[&str], attrs: &[(&str, &[&str])], link_rel: &str) -> (r: String)
    requires
        clean_settings_ok(strs_view(tags@), attrs_view(attrs@)),
    ensures
        r@ == ammonia_clean(raw@, strs_view(tags@), attrs_view(attrs@), link_rel@),
{
    let tag_set: HashSet<&str> = tags.iter().copied().collect();
    let attr_map: HashMap<&str, HashSet<&str>> =
        attrs.iter().map(|p| (p.0, p.1.iter().copied().collect())).collect();
    Builder::default().tags(tag_set).tag_attributes(attr_map).link_rel(Some(link_rel))
        .clean(raw).to_string()
}

/// The tags that survive sanitizing.
pub open spec fn allowed_tags() -> Seq<Seq<char>> {
    seq!["a"@, "abbr"@, "b"@, "blockquote"@, "br"@, "caption"@, "cite"@, "code"@]
        + seq!["col"@, "colgroup"@, "dd"@, "del"@, "details"@, "dfn"@, "div"@, "dl"@]
        + seq!["dt"@, "em"@, "figcaption"@, "figure"@, "h1"@, "h2"@, "h3"@, "h4"@]
        + seq!["h5"@, "h6"@, "hr"@, "i"@, "img"@, "ins"@, "kbd"@, "li"@]
        + seq!["mark"@, "ol"@, "p"@, "pre"@, "q"@, "s"@, "samp"@, "small"@]
        + seq!["span"@, "strong"@, "sub"@, "summary"@, "sup"@, "table"@, "tbody"@, "td"@]
        + seq!["tfoot"@, "th"@, "thead"@, "time"@, "tr"@, "u"@, "ul"@, "var"@]
        + seq!["pe-embed"@, "pe-tag"@]
}

/// The attributes that survive sanitizing, per tag.
pub open spec fn allowed_attributes() -> Seq<(Seq<char>, Seq<Seq<char>>)> {
    seq![
        ("pe-embed"@, seq!["data-ref"@]),
        ("pe-tag"@, seq!["data-name"@]),
        ("a"@, seq!["href"@, "title"@, "target"@]),
        ("img"@, seq!["src"@, "alt"@, "title"@, "width"@, "height"@]),
        ("td"@, seq!["align"@]),
        ("th"@, seq!["align"@]),
        ("code"@, seq!["class"@]),
        ("pre"@, seq!["class"@]),
        ("details"@, seq!["open"@]),
        ("ol"@, seq!["start"@, "reversed"@]),
        ("li"@, seq!["checked"@])
    ]
}

/// The sanitized form of an HTML fragment.
pub open spec fn sanitized(raw: Seq<char>) -> Seq<char> {
    ammonia_clean(raw, allowed_tags(), allowed_attributes(), "noopener noreferrer"@)
}

proof fn lemma_concat_excludes(a: Seq<Seq<char>>, b: Seq<Seq<char>>, x: Seq<char>)
    requires
        !a.contains(x),
        !b.contains(x),
    ensures
        !(a + b).contains(x),
{
    assert forall|k: int| 0 <= k < (a + b).len() implies (a + b)[k] != x by {
        if k < a.len() {
            assert((a + b)[k] == a[k]);
        } else {
            assert((a + b)[k] == b[k - a.len()]);
        }
    }
}

proof fn lemma_policy_ok()
    ensures
        clean_settings_ok(allowed_tags(), allowed_attributes()),
{
    reveal_strlit("a");
    reveal_strlit("abbr");
    reveal_strlit("b");
    reveal_strlit("blockquote");
    reveal_strlit("br");
    reveal_strlit("caption");
    reveal_strlit("cite");
    reveal_strlit("code");
    reveal_strlit("col");
    reveal_strlit("colgroup");
    reveal_strlit("dd");
    reveal_strlit("del");
    reveal_strlit("details");
    reveal_strlit("dfn");
    reveal_strlit("div");
    reveal_strlit("dl");
    reveal_strlit("dt");
    reveal_strlit("em");
    reveal_strlit("figcaption");
    reveal_strlit("figure");
    reveal_strlit("h1");
    reveal_strlit("h2");
    reveal_strlit("h3");
    reveal_strlit("h4");
    reveal_strlit("h5");
    reveal_strlit("h6");
    reveal_strlit("hr");
    reveal_strlit("i");
    reveal_strlit("img");
    reveal_strlit("ins");
    reveal_strlit("kbd");
    reveal_strlit("li");
    reveal_strlit("mark");
    reveal_strlit("ol");
    reveal_strlit("p");
    reveal_strlit("pre");
    reveal_strlit("q");
    reveal_strlit("s");
    reveal_strlit("samp");
    reveal_strlit("small");
    reveal_strlit("span");
    reveal_strlit("strong");
    reveal_strlit("sub");
    reveal_strlit("summary");
    reveal_strlit("sup");
    reveal_strlit("table");
    reveal_strlit("tbody");
    reveal_strlit("td");
    reveal_strlit("tfoot");
    reveal_strlit("th");
    reveal_strlit("thead");
    reveal_strlit("time");
    reveal_strlit("tr");
    reveal_strlit("u");
    reveal_strlit("ul");
    reveal_strlit("var");
    reveal_strlit("pe-embed");
    reveal_strlit("pe-tag");
    reveal_strlit("script");
    reveal_strlit("style");
    assert("a"@.len() == 1);
    assert("abbr"@.len() == 4);
    assert("b"@.len() == 1);
    assert("blockquote"@.len() == 10);
    assert("br"@.len() == 2);
    assert("caption"@.len() == 7);
    assert("cite"@.len() == 4);
    assert("code"@.len() == 4);
    assert("col"@.len() == 3);
    assert("colgroup"@.len() == 8);
    assert("dd"@.len() == 2);
    assert("del"@.len() == 3);
    assert("details"@.len() == 7);
    assert("dfn"@.len() == 3);
    assert("div"@.len() == 3);
    assert("dl"@.len() == 2);
    assert("dt"@.len() == 2);
    assert("em"@.len() == 2);
    assert("figcaption"@.len() == 10);
    assert("figure"@.len() == 6);
    assert("h1"@.len() == 2);
    assert("h2"@.len() == 2);
    assert("h3"@.len() == 2);
    assert("h4"@.len() == 2);
    assert("h5"@.len() == 2);
    assert("h6"@.len() == 2);
    assert("hr"@.len() == 2);
    assert("i"@.len() == 1);
    assert("img"@.len() == 3);
    assert("ins"@.len() == 3);
    assert("kbd"@.len() == 3);
    assert("li"@.len() == 2);
    assert("mark"@.len() == 4);
    assert("ol"@.len() == 2);
    assert("p"@.len() == 1);
    assert("pre"@.len() == 3);
    assert("q"@.len() == 1);
    assert("s"@.len() == 1);
    assert("samp"@.len() == 4);
    assert("small"@.len() == 5);
    assert("span"@.len() == 4);
    assert("strong"@.len() == 6);
    assert("sub"@.len() == 3);
    assert("summary"@.len() == 7);
    assert("sup"@.len() == 3);
    assert("table"@.len() == 5);
    assert("tbody"@.len() == 5);
    assert("td"@.len() == 2);
    assert("tfoot"@.len() == 5);
    assert("th"@.len() == 2);
    assert("thead"@.len() == 5);
    assert("time"@.len() == 4);
    assert("tr"@.len() == 2);
    assert("u"@.len() == 1);
    assert("ul"@.len() == 2);
    assert("var"@.len() == 3);
    assert("pe-embed"@.len() == 8);
    assert("pe-tag"@.len() == 6);
    assert("script"@.len() == 6);
    assert("style"@.len() == 5);
    reveal_strlit("a");
    assert("a"@.len() == 1);
    reveal_strlit("align");
    assert("align"@.len() == 5);
    reveal_strlit("alt");
    assert("alt"@.len() == 3);
    reveal_strlit("checked");
    assert("checked"@.len() == 7);
    reveal_strlit("class");
    assert("class"@.len() == 5);
    reveal_strlit("code");
    assert("code"@.len() == 4);
    reveal_strlit("data-name");
    assert("data-name"@.len() == 9);
    reveal_strlit("data-ref");
    assert("data-ref"@.len() == 8);
    reveal_strlit("details");
    assert("details"@.len() == 7);
    reveal_strlit("height");
    assert("height"@.len() == 6);
    reveal_strlit("href");
    assert("href"@.len() == 4);
    reveal_strlit("img");
    assert("img"@.len() == 3);
    reveal_strlit("li");
    assert("li"@.len() == 2);
    reveal_strlit("ol");
    assert("ol"@.len() == 2);
    reveal_strlit("open");
    assert("open"@.len() == 4);
    reveal_strlit("pe-embed");
    assert("pe-embed"@.len() == 8);
    reveal_strlit("pe-tag");
    assert("pe-tag"@.len() == 6);
    reveal_strlit("pre");
    assert("pre"@.len() == 3);
    reveal_strlit("rel");
    assert("rel"@.len() == 3);
    reveal_strlit("reversed");
    assert("reversed"@.len() == 8);
    reveal_strlit("src");
    assert("src"@.len() == 3);
    reveal_strlit("start");
    assert("start"@.len() == 5);
    reveal_strlit("target");
    assert("target"@.len() == 6);
    reveal_strlit("td");
    assert("td"@.len() == 2);
    reveal_strlit("th");
    assert("th"@.len() == 2);
    reveal_strlit("title");
    assert("title"@.len() == 5);
    reveal_strlit("width");
    assert("width"@.len() == 5);
    assert forall|i: int| 0 <= i < allowed_attributes().len() && allowed_attributes()[i].0 == "a"@
        implies !allowed_attributes()[i].1.contains("rel"@) by {
        assert(i == 2);
    }
    assert("strong"@[1] != "script"@[1]);
    assert("small"@[1] != "style"@[1]);
    let c0: Seq<Seq<char>> = seq!["a"@, "abbr"@, "b"@, "blockquote"@, "br"@, "caption"@, "cite"@, "code"@];
    assert(!c0.contains("script"@) && !c0.contains("style"@));
    let c1: Seq<Seq<char>> = seq!["col"@, "colgroup"@, "dd"@, "del"@, "details"@, "dfn"@, "div"@, "dl"@];
    assert(!c1.contains("script"@) && !c1.contains("style"@));
    let c2: Seq<Seq<char>> = seq!["dt"@, "em"@, "figcaption"@, "figure"@, "h1"@, "h2"@, "h3"@, "h4"@];
    assert(!c2.contains("script"@) && !c2.contains("style"@));
    let c3: Seq<Seq<char>> = seq!["h5"@, "h6"@, "hr"@, "i"@, "img"@, "ins"@, "kbd"@, "li"@];
    assert(!c3.contains("script"@) && !c3.contains("style"@));
    let c4: Seq<Seq<char>> = seq!["mark"@, "ol"@, "p"@, "pre"@, "q"@, "s"@, "samp"@, "small"@];
    assert(!c4.contains("script"@) && !c4.contains("style"@));
    let c5: Seq<Seq<char>> = seq!["span"@, "strong"@, "sub"@, "summary"@, "sup"@, "table"@, "tbody"@, "td"@];
    assert(!c5.contains("script"@) && !c5.contains("style"@));
    let c6: Seq<Seq<char>> = seq!["tfoot"@, "th"@, "thead"@, "time"@, "tr"@, "u"@, "ul"@, "var"@];
    assert(!c6.contains("script"@) && !c6.contains("style"@));
    let c7: Seq<Seq<char>> = seq!["pe-embed"@, "pe-tag"@];
    assert(!c7.contains("script"@) && !c7.contains("style"@));
    lemma_concat_excludes(c0, c1, "script"@);
    lemma_concat_excludes(c0, c1, "style"@);
    lemma_concat_excludes(c0 + c1, c2, "script"@);
    lemma_concat_excludes(c0 + c1, c2, "style"@);
    lemma_concat_excludes(c0 + c1 + c2, c3, "script"@);
    lemma_concat_excludes(c0 + c1 + c2, c3, "style"@);
    lemma_concat_excludes(c0 + c1 + c2 + c3, c4, "script"@);
    lemma_concat_excludes(c0 + c1 + c2 + c3, c4, "style"@);
    lemma_concat_excludes(c0 + c1 + c2 + c3 + c4, c5, "script"@);
    lemma_concat_excludes(c0 + c1 + c2 + c3 + c4, c5, "style"@);
    lemma_concat_excludes(c0 + c1 + c2 + c3 + c4 + c5, c6, "script"@);
    lemma_concat_excludes(c0 + c1 + c2 + c3 + c4 + c5, c6, "style"@);
    lemma_concat_excludes(c0 + c1 + c2 + c3 + c4 + c5 + c6, c7, "script"@);
    lemma_concat_excludes(c0 + c1 + c2 + c3 + c4 + c5 + c6, c7, "style"@);
    assert(allowed_tags() == c0 + c1 + c2 + c3 + c4 + c5 + c6 + c7);
}

/// Whether an attribute name is that of an event handler (`on...`).
pub open spec fn is_handler(name: Seq<char>) -> bool {
    name.len() >= 2 && name[0] == 'o' && name[1] == 'n'
}

/// What sanitizing asks of `ammonia`: no `script` or `style` element is
/// kept, no kept attribute is `style` or an event handler, links may not
/// carry a `rel` of their own, and every link is given
/// `rel="noopener noreferrer"`. That the cleaned output honours these
/// settings rests on `ammonia`.
pub proof fn lemma_sanitize_policy()
    ensures
        !allowed_tags().contains("script"@),
        !allowed_tags().contains("style"@),
        forall|i: int, j: int|
            0 <= i < allowed_attributes().len() && 0 <= j < allowed_attributes()[i].1.len()
                ==> (#[trigger] allowed_attributes()[i].1[j]) != "style"@
                && !is_handler(allowed_attributes()[i].1[j]),
        forall|i: int|
            0 <= i < allowed_attributes().len() && (#[trigger] allowed_attributes()[i]).0 == "a"@
                ==> !allowed_attributes()[i].1.contains("rel"@),
        forall|raw: Seq<char>|
            #[trigger] sanitized(raw) == ammonia_clean(raw, allowed_tags(), allowed_attributes(), "noopener noreferrer"@),
{
    lemma_policy_ok();
    reveal_strlit("style");
    reveal_strlit("data-ref");
    reveal_strlit("data-name");
    reveal_strlit("href");
    reveal_strlit("title");
    reveal_strlit("target");
    reveal_strlit("src");
    reveal_strlit("alt");
    reveal_strlit("width");
    reveal_strlit("height");
    reveal_strlit("align");
    reveal_strlit("class");
    reveal_strlit("open");
    reveal_strlit("start");
    reveal_strlit("reversed");
    reveal_strlit("checked");
    let attrs = allowed_attributes();
    assert forall|i: int, j: int| 0 <= i < attrs.len() && 0 <= j < attrs[i].1.len() implies (#[trigger] attrs[i].1[j])
        != "style"@ && !is_handler(attrs[i].1[j]) by {
        let a = attrs[i].1[j];
        assert(a == "data-ref"@ || a == "data-name"@ || a == "href"@ || a == "title"@ || a == "target"@
            || a == "src"@ || a == "alt"@ || a == "width"@ || a == "height"@ || a == "align"@
            || a == "class"@ || a == "open"@ || a == "start"@ || a == "reversed"@ || a == "checked"@);
        assert(a.len() != 5 || a[0] != 's' || a[1] != 't' || a[2] != 'y');
    }
}

/// Sanitizes an HTML fragment: only the tags and attributes of the
/// library's allow-list survive, and every link gets
/// `rel="noopener noreferrer"`.
pub fn sanitize(raw: &str) -> (r: String)
    ensures
        r@ == sanitized(raw@),
{
    let tags = [
        "a",
        "abbr",
        "b",
        "blockquote",
        "br",
        "caption",
        "cite",
        "code",
        "col",
        "colgroup",
        "dd",
        "del",
        "details",
        "dfn",
        "div",
        "dl",
        "dt",
        "em",
        "figcaption",
        "figure",
        "h1",
        "h2",
        "h3",
        "h4",
        "h5",
        "h6",
        "hr",
        "i",
        "img",
        "ins",
        "kbd",
        "li",
        "mark",
        "ol",
        "p",
        "pre",
        "q",
        "s",
        "samp",
        "small",
        "span",
        "strong",
        "sub",
        "summary",
        "sup",
        "table",
        "tbody",
        "td",
        "tfoot",
        "th",
        "thead",
        "time",
        "tr",
        "u",
        "ul",
        "var",
        "pe-embed",
        "pe-tag"
    ];
    let attrs: [(&str, &[&str]); 11] = [
        ("pe-embed", &["data-ref"]),
        ("pe-tag", &["data-name"]),
        ("a", &["href", "title", "target"]),
        ("img", &["src", "alt", "title", "width", "height"]),
        ("td", &["align"]),
        ("th", &["align"]),
        ("code", &["class"]),
        ("pre", &["class"]),
        ("details", &["open"]),
        ("ol", &["start", "reversed"]),
        ("li", &["checked"])
    ];
    proof {
        assert(strs_view(tags@) =~= allowed_tags());
        assert(attrs_view(attrs@) =~~= allowed_attributes());
        lemma_policy_ok();
    }
    ammonia_clean_html(raw, &tags, &attrs, "noopener noreferrer")
}

/// A document rendered to HTML and sanitized.
pub fn render_html(doc: &Document) -> (r: String)
    ensures
        r@ == sanitized(blocks_html(doc.view_blocks())),
{
    let raw = render_doc(doc);
    sanitize(raw.as_str())
}

} // verus!
