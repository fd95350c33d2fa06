//! Extraction of wikilinks and inline tags from parsed markdown, and the
//! rewriting of wikilinks after a note is renamed.
use vstd::prelude::*;
use crate::markdown::ast::{
    Block, BlockKind, BlockV, Document, Inline, InlineV, ItemV, ListItem, blocks_view, cells_view,
    inline_view, inlines_view, item_view, items_view, kind_view, rows_view, lemma_blocks_view_take,
    lemma_cells_view_take, lemma_inlines_view_take, lemma_items_view_take, lemma_rows_view_take,
};
use crate::text::{
    chars_of, has_prefix, is_digit, lowercase, split_char, split_on, starts_with, string_of_range,
    strings_view, to_lowercase, trim, trim_seq, trim_start, trim_start_seq, lemma_trim_idempotent,
    lemma_trim_within,
};
use crate::markdown::render::markdown::join;
use vstd::utf8::{decode_utf8, encode_utf8, is_char_boundary};
use vstd::string::StringSliceAdditionalSpecFns;

verus! {

// ---------------------------------------------------------------------------
// Which inlines a document references, in document order.

/// The references an inline holds: its note embed (or, with `tags`, its tag
/// name), then those of its children.
pub open spec fn inline_refs(i: InlineV, tags: bool) -> Seq<Seq<char>>
    decreases i,
{
    match i {
        InlineV::NoteEmbed(r) => if tags {
            Seq::empty()
        } else {
            seq![r]
        },
        InlineV::TagRef(n) => if tags {
            seq![n]
        } else {
            Seq::empty()
        },
        InlineV::Strong(c) => inlines_refs(c, tags),
        InlineV::Emphasis(c) => inlines_refs(c, tags),
        InlineV::Strikethrough(c) => inlines_refs(c, tags),
        InlineV::Link { children, .. } => inlines_refs(children, tags),
        _ => Seq::empty(),
    }
}

pub open spec fn inlines_refs(s: Seq<InlineV>, tags: bool) -> Seq<Seq<char>>
    decreases s,
{
    if s.len() == 0 {
        Seq::empty()
    } else {
        inlines_refs(s.drop_last(), tags) + inline_refs(s.last(), tags)
    }
}

pub open spec fn cells_refs(cells: Seq<Seq<InlineV>>, tags: bool) -> Seq<Seq<char>>
    decreases cells.len(),
{
    if cells.len() == 0 {
        Seq::empty()
    } else {
        cells_refs(cells.drop_last(), tags) + inlines_refs(cells.last(), tags)
    }
}

pub open spec fn rows_refs(rows: Seq<Seq<Seq<InlineV>>>, tags: bool) -> Seq<Seq<char>>
    decreases rows.len(),
{
    if rows.len() == 0 {
        Seq::empty()
    } else {
        rows_refs(rows.drop_last(), tags) + cells_refs(rows.last(), tags)
    }
}

/// The references in a block: in its inlines, its table cells (header
/// first), its list items and nested blocks; none in code, rules or HTML.
pub open spec fn block_refs(b: BlockV, tags: bool) -> Seq<Seq<char>>
    decreases b,
{
    match b {
        BlockV::Paragraph(c) => inlines_refs(c, tags),
        BlockV::Heading(_, c) => inlines_refs(c, tags),
        BlockV::List(_, _, items) => items_refs(items, tags),
        BlockV::Quote(c) => blocks_refs(c, tags),
        BlockV::Table(t) => cells_refs(t.headers, tags) + rows_refs(t.rows, tags),
        BlockV::FootnoteDefinition(_, c) => blocks_refs(c, tags),
        _ => Seq::empty(),
    }
}

pub open spec fn blocks_refs(s: Seq<BlockV>, tags: bool) -> Seq<Seq<char>>
    decreases s,
{
    if s.len() == 0 {
        Seq::empty()
    } else {
        blocks_refs(s.drop_last(), tags) + block_refs(s.last(), tags)
    }
}

pub open spec fn items_refs(s: Seq<ItemV>, tags: bool) -> Seq<Seq<char>>
    decreases s,
{
    if s.len() == 0 {
        Seq::empty()
    } else {
        items_refs(s.drop_last(), tags) + blocks_refs(s.last().children, tags)
    }
}

/// The values of `s` that `keep` accepts, each once, in order of first
/// appearance.
pub open spec fn unique_kept(s: Seq<Seq<char>>, keep: spec_fn(Seq<char>) -> bool) -> Seq<Seq<char>>
    decreases s.len(),
{
    if s.len() == 0 {
        Seq::empty()
    } else {
        let d = unique_kept(s.drop_last(), keep);
        if keep(s.last()) && !d.contains(s.last()) {
            d.push(s.last())
        } else {
            d
        }
    }
}

// ---------------------------------------------------------------------------
// Link targets.

/// The text before the first `c` (all of it when there is none).
pub open spec fn before_first(s: Seq<char>, c: char) -> Seq<char>
    decreases s.len(),
{
    if s.len() == 0 {
        s
    } else if s[0] == c {
        Seq::empty()
    } else {
        seq![s[0]] + before_first(s.drop_first(), c)
    }
}

/// The text after the last `c` (all of it when there is none).
pub open spec fn after_last(s: Seq<char>, c: char) -> Seq<char>
    decreases s.len(),
{
    if s.len() == 0 {
        s
    } else if s.last() == c {
        Seq::empty()
    } else {
        after_last(s.drop_last(), c).push(s.last())
    }
}

/// A raw embed reference reduced to the bare note title: the alias after
/// `|`, the anchor after `#` and the folders before the last `/` dropped,
/// then surrounding whitespace trimmed.
pub open spec fn link_target(r: Seq<char>) -> Seq<char> {
    trim_seq(after_last(before_first(before_first(r, '|'), '#'), '/'))
}

proof fn lemma_before_first_facts(s: Seq<char>, c: char, x: char)
    ensures
        !before_first(s, c).contains(c),
        before_first(s, c).contains(x) ==> s.contains(x),
        !s.contains(c) ==> before_first(s, c) == s,
    decreases s.len(),
{
    if s.len() > 0 && s[0] != c {
        let t = s.drop_first();
        lemma_before_first_facts(t, c, x);
        let b = before_first(s, c);
        assert(b == seq![s[0]] + before_first(t, c));
        if b.contains(c) {
            let i = choose|i: int| 0 <= i < b.len() && b[i] == c;
            assert(i > 0);
            assert(before_first(t, c)[i - 1] == c);
        }
        if b.contains(x) {
            let i = choose|i: int| 0 <= i < b.len() && b[i] == x;
            if i > 0 {
                assert(before_first(t, c)[i - 1] == x);
                let j = choose|j: int| 0 <= j < t.len() && t[j] == x;
                assert(s[j + 1] == x);
            } else {
                assert(s[0] == x);
            }
        }
        if !s.contains(c) {
            assert forall|j: int| 0 <= j < t.len() implies t[j] != c by {
                assert(s[j + 1] == t[j]);
            }
            assert(seq![s[0]] + t =~= s);
        }
    } else if s.len() > 0 {
        assert(s[0] == c);
    }
}

proof fn lemma_after_last_facts(s: Seq<char>, c: char, x: char)
    ensures
        !after_last(s, c).contains(c),
        after_last(s, c).contains(x) ==> s.contains(x),
        !s.contains(c) ==> after_last(s, c) == s,
    decreases s.len(),
{
    if s.len() > 0 && s.last() != c {
        let t = s.drop_last();
        lemma_after_last_facts(t, c, x);
        let a = after_last(s, c);
        let at = after_last(t, c);
        assert(a == at.push(s.last()));
        if a.contains(c) {
            let i = choose|i: int| 0 <= i < a.len() && a[i] == c;
            assert(i < at.len());
            assert(at[i] == c);
        }
        if a.contains(x) {
            let i = choose|i: int| 0 <= i < a.len() && a[i] == x;
            if i < at.len() {
                assert(at[i] == x);
                let j = choose|j: int| 0 <= j < t.len() && t[j] == x;
                assert(s[j] == x);
            } else {
                assert(s[s.len() - 1] == x);
            }
        }
        if !s.contains(c) {
            assert forall|j: int| 0 <= j < t.len() implies t[j] != c by {
                assert(s[j] == t[j]);
            }
            assert(t.push(s.last()) =~= s);
        }
    } else if s.len() > 0 {
        assert(s[s.len() - 1] == c);
    }
}

/// A link target keeps no alias, anchor or folder: it holds no `|`, `#`
/// or `/`, and a reference with none of them is only trimmed. An alias
/// after the first `|` is dropped whatever it holds.
pub proof fn lemma_link_target(r: Seq<char>, alias: Seq<char>)
    ensures
        !link_target(r).contains('|'),
        !link_target(r).contains('#'),
        !link_target(r).contains('/'),
        !r.contains('|') && !r.contains('#') && !r.contains('/') ==> link_target(r) == trim_seq(r),
        !r.contains('|') ==> link_target(r + seq!['|'] + alias) == link_target(r),
{
    let a = before_first(r, '|');
    let b = before_first(a, '#');
    let c = after_last(b, '/');
    lemma_before_first_facts(r, '|', '|');
    lemma_before_first_facts(r, '|', '#');
    lemma_before_first_facts(r, '|', '/');
    lemma_before_first_facts(a, '#', '|');
    lemma_before_first_facts(a, '#', '#');
    lemma_before_first_facts(a, '#', '/');
    lemma_after_last_facts(b, '/', '|');
    lemma_after_last_facts(b, '/', '#');
    lemma_after_last_facts(b, '/', '/');
    lemma_trim_within(c, '|');
    lemma_trim_within(c, '#');
    lemma_trim_within(c, '/');
    if !r.contains('|') {
        let s = r + seq!['|'] + alias;
        lemma_before_first_split(r, alias, '|');
        assert(before_first(s, '|') == r);
        assert(before_first(r, '|') == r);
    }
}

proof fn lemma_before_first_split(a: Seq<char>, b: Seq<char>, c: char)
    requires
        !a.contains(c),
    ensures
        before_first(a + seq![c] + b, c) == a,
    decreases a.len(),
{
    let s = a + seq![c] + b;
    if a.len() == 0 {
        assert(s[0] == c);
    } else {
        assert(s[0] == a[0]);
        assert(a[0] != c);
        let t = a.drop_first();
        assert forall|j: int| 0 <= j < t.len() implies t[j] != c by {
            assert(a[j + 1] == t[j]);
        }
        lemma_before_first_split(t, b, c);
        assert(s.drop_first() =~= t + seq![c] + b);
        assert(seq![a[0]] + t =~= a);
    }
}

/// A tag name that counts: not empty and not made of ASCII digits only.
pub open spec fn valid_tag(n: Seq<char>) -> bool {
    n.len() > 0 && !(forall|i: int| 0 <= i < n.len() ==> is_digit(#[trigger] n[i]))
}

/// The wikilink targets of a document's blocks.
pub open spec fn wikilinks_v(bs: Seq<BlockV>) -> Seq<Seq<char>> {
    unique_kept(blocks_refs(bs, false).map_values(|r: Seq<char>| link_target(r)), |t: Seq<char>| t.len() > 0)
}

/// The inline tag names of a document's blocks.
pub open spec fn tags_v(bs: Seq<BlockV>) -> Seq<Seq<char>> {
    unique_kept(blocks_refs(bs, true), |n: Seq<char>| valid_tag(n))
}

// ---------------------------------------------------------------------------
// Where references occur in a document tree.

/// Whether an inline is, or holds among its descendants, a note embed of
/// `r` (with `tags`, a tag named `r`).
pub open spec fn inline_mentions(i: InlineV, tags: bool, r: Seq<char>) -> bool
    decreases i,
{
    match i {
        InlineV::NoteEmbed(x) => !tags && x == r,
        InlineV::TagRef(n) => tags && n == r,
        InlineV::Strong(c) => inlines_mention(c, tags, r),
        InlineV::Emphasis(c) => inlines_mention(c, tags, r),
        InlineV::Strikethrough(c) => inlines_mention(c, tags, r),
        InlineV::Link { children, .. } => inlines_mention(children, tags, r),
        _ => false,
    }
}

/// Whether some inline of a run mentions `r`.
pub open spec fn inlines_mention(s: Seq<InlineV>, tags: bool, r: Seq<char>) -> bool
    decreases s,
{
    s.len() > 0 && (inlines_mention(s.drop_last(), tags, r) || inline_mentions(s.last(), tags, r))
}

/// Whether some cell of a table row mentions `r`.
pub open spec fn cells_mention(cells: Seq<Seq<InlineV>>, tags: bool, r: Seq<char>) -> bool
    decreases cells.len(),
{
    cells.len() > 0 && (cells_mention(cells.drop_last(), tags, r) || inlines_mention(cells.last(), tags, r))
}

/// Whether some row of a table mentions `r`.
pub open spec fn rows_mention(rows: Seq<Seq<Seq<InlineV>>>, tags: bool, r: Seq<char>) -> bool
    decreases rows.len(),
{
    rows.len() > 0 && (rows_mention(rows.drop_last(), tags, r) || cells_mention(rows.last(), tags, r))
}

/// Whether a block mentions `r` anywhere inside it: in its inlines, its
/// table cells, or at any depth in its list items, quotes and footnotes.
pub open spec fn block_mentions(b: BlockV, tags: bool, r: Seq<char>) -> bool
    decreases b,
{
    match b {
        BlockV::Paragraph(c) => inlines_mention(c, tags, r),
        BlockV::Heading(_, c) => inlines_mention(c, tags, r),
        BlockV::List(_, _, items) => items_mention(items, tags, r),
        BlockV::Quote(c) => doc_mentions(c, tags, r),
        BlockV::Table(t) => cells_mention(t.headers, tags, r) || rows_mention(t.rows, tags, r),
        BlockV::FootnoteDefinition(_, c) => doc_mentions(c, tags, r),
        _ => false,
    }
}

/// Whether some block of a sequence mentions `r`.
pub open spec fn doc_mentions(s: Seq<BlockV>, tags: bool, r: Seq<char>) -> bool
    decreases s,
{
    s.len() > 0 && (doc_mentions(s.drop_last(), tags, r) || block_mentions(s.last(), tags, r))
}

/// Whether some block of some list item mentions `r`.
pub open spec fn items_mention(items: Seq<ItemV>, tags: bool, r: Seq<char>) -> bool
    decreases items,
{
    items.len() > 0 && (items_mention(items.drop_last(), tags, r) || doc_mentions(items.last().children, tags, r))
}

proof fn lemma_contains_concat(a: Seq<Seq<char>>, b: Seq<Seq<char>>, x: Seq<char>)
    ensures
        (a + b).contains(x) <==> a.contains(x) || b.contains(x),
{
    if (a + b).contains(x) {
        let i = choose|i: int| 0 <= i < (a + b).len() && (a + b)[i] == x;
        if i < a.len() {
            assert(a[i] == x);
        } else {
            assert(b[i - a.len()] == x);
        }
    }
    if a.contains(x) {
        let i = choose|i: int| 0 <= i < a.len() && a[i] == x;
        assert((a + b)[i] == x);
    }
    if b.contains(x) {
        let i = choose|i: int| 0 <= i < b.len() && b[i] == x;
        assert((a + b)[a.len() + i] == x);
    }
}

proof fn lemma_inline_refs_mention(i: InlineV, tags: bool, r: Seq<char>)
    ensures
        inline_refs(i, tags).contains(r) <==> inline_mentions(i, tags, r),
    decreases i,
{
    match i {
        InlineV::NoteEmbed(x) => {
            if !tags {
                assert(seq![x][0] == x);
                if seq![x].contains(r) {
                    let k = choose|k: int| 0 <= k < seq![x].len() && seq![x][k] == r;
                    assert(k == 0);
                }
            }
        },
        InlineV::TagRef(n) => {
            if tags {
                assert(seq![n][0] == n);
                if seq![n].contains(r) {
                    let k = choose|k: int| 0 <= k < seq![n].len() && seq![n][k] == r;
                    assert(k == 0);
                }
            }
        },
        InlineV::Strong(c) => lemma_inlines_refs_mention(c, tags, r),
        InlineV::Emphasis(c) => lemma_inlines_refs_mention(c, tags, r),
        InlineV::Strikethrough(c) => lemma_inlines_refs_mention(c, tags, r),
        InlineV::Link { children, .. } => lemma_inlines_refs_mention(children, tags, r),
        _ => {},
    }
}

proof fn lemma_inlines_refs_mention(s: Seq<InlineV>, tags: bool, r: Seq<char>)
    ensures
        inlines_refs(s, tags).contains(r) <==> inlines_mention(s, tags, r),
    decreases s,
{
    if s.len() > 0 {
        lemma_inlines_refs_mention(s.drop_last(), tags, r);
        lemma_inline_refs_mention(s.last(), tags, r);
        lemma_contains_concat(inlines_refs(s.drop_last(), tags), inline_refs(s.last(), tags), r);
    }
}

proof fn lemma_cells_refs_mention(cells: Seq<Seq<InlineV>>, tags: bool, r: Seq<char>)
    ensures
        cells_refs(cells, tags).contains(r) <==> cells_mention(cells, tags, r),
    decreases cells.len(),
{
    if cells.len() > 0 {
        lemma_cells_refs_mention(cells.drop_last(), tags, r);
        lemma_inlines_refs_mention(cells.last(), tags, r);
        lemma_contains_concat(cells_refs(cells.drop_last(), tags), inlines_refs(cells.last(), tags), r);
    }
}

proof fn lemma_rows_refs_mention(rows: Seq<Seq<Seq<InlineV>>>, tags: bool, r: Seq<char>)
    ensures
        rows_refs(rows, tags).contains(r) <==> rows_mention(rows, tags, r),
    decreases rows.len(),
{
    if rows.len() > 0 {
        lemma_rows_refs_mention(rows.drop_last(), tags, r);
        lemma_cells_refs_mention(rows.last(), tags, r);
        lemma_contains_concat(rows_refs(rows.drop_last(), tags), cells_refs(rows.last(), tags), r);
    }
}

proof fn lemma_block_refs_mention(b: BlockV, tags: bool, r: Seq<char>)
    ensures
        block_refs(b, tags).contains(r) <==> block_mentions(b, tags, r),
    decreases b,
{
    match b {
        BlockV::Paragraph(c) => lemma_inlines_refs_mention(c, tags, r),
        BlockV::Heading(_, c) => lemma_inlines_refs_mention(c, tags, r),
        BlockV::List(_, _, items) => lemma_items_refs_mention(items, tags, r),
        BlockV::Quote(c) => lemma_blocks_refs_mention(c, tags, r),
        BlockV::Table(t) => {
            lemma_cells_refs_mention(t.headers, tags, r);
            lemma_rows_refs_mention(t.rows, tags, r);
            lemma_contains_concat(cells_refs(t.headers, tags), rows_refs(t.rows, tags), r);
        },
        BlockV::FootnoteDefinition(_, c) => lemma_blocks_refs_mention(c, tags, r),
        _ => {},
    }
}

proof fn lemma_blocks_refs_mention(s: Seq<BlockV>, tags: bool, r: Seq<char>)
    ensures
        blocks_refs(s, tags).contains(r) <==> doc_mentions(s, tags, r),
    decreases s,
{
    if s.len() > 0 {
        lemma_blocks_refs_mention(s.drop_last(), tags, r);
        lemma_block_refs_mention(s.last(), tags, r);
        lemma_contains_concat(blocks_refs(s.drop_last(), tags), block_refs(s.last(), tags), r);
    }
}

proof fn lemma_items_refs_mention(items: Seq<ItemV>, tags: bool, r: Seq<char>)
    ensures
        items_refs(items, tags).contains(r) <==> items_mention(items, tags, r),
    decreases items,
{
    if items.len() > 0 {
        lemma_items_refs_mention(items.drop_last(), tags, r);
        lemma_blocks_refs_mention(items.last().children, tags, r);
        lemma_contains_concat(items_refs(items.drop_last(), tags), blocks_refs(items.last().children, tags), r);
    }
}

/// A run of inlines mentions `r` as soon as one of its inlines does.
pub proof fn lemma_inline_in_run(s: Seq<InlineV>, k: int, tags: bool, r: Seq<char>)
    requires
        0 <= k < s.len(),
        inline_mentions(s[k], tags, r),
    ensures
        inlines_mention(s, tags, r),
    decreases s.len(),
{
    if k < s.len() - 1 {
        lemma_inline_in_run(s.drop_last(), k, tags, r);
    } else {
        assert(s[k] == s.last());
    }
}

/// A sequence of blocks mentions `r` as soon as one of its blocks does.
pub proof fn lemma_block_in_run(s: Seq<BlockV>, k: int, tags: bool, r: Seq<char>)
    requires
        0 <= k < s.len(),
        block_mentions(s[k], tags, r),
    ensures
        doc_mentions(s, tags, r),
    decreases s.len(),
{
    if k < s.len() - 1 {
        lemma_block_in_run(s.drop_last(), k, tags, r);
    } else {
        assert(s[k] == s.last());
    }
}

/// A list mentions `r` as soon as some block of one of its items does,
/// at whatever position among the items and their blocks.
pub proof fn lemma_block_in_list(ordered: bool, start: Option<u64>, items: Seq<ItemV>, k: int, j: int, tags: bool, r: Seq<char>)
    requires
        0 <= k < items.len(),
        0 <= j < items[k].children.len(),
        block_mentions(items[k].children[j], tags, r),
    ensures
        block_mentions(BlockV::List(ordered, start, items), tags, r),
    decreases items.len(),
{
    lemma_block_in_run(items[k].children, j, tags, r);
    lemma_item_in_items(items, k, tags, r);
}

proof fn lemma_item_in_items(items: Seq<ItemV>, k: int, tags: bool, r: Seq<char>)
    requires
        0 <= k < items.len(),
        doc_mentions(items[k].children, tags, r),
    ensures
        items_mention(items, tags, r),
    decreases items.len(),
{
    if k < items.len() - 1 {
        lemma_item_in_items(items.drop_last(), k, tags, r);
    } else {
        assert(items[k] == items.last());
    }
}

proof fn lemma_unique_kept_contains(s: Seq<Seq<char>>, keep: spec_fn(Seq<char>) -> bool, x: Seq<char>)
    ensures
        unique_kept(s, keep).contains(x) <==> s.contains(x) && keep(x),
    decreases s.len(),
{
    if s.len() > 0 {
        let t = s.drop_last();
        lemma_unique_kept_contains(t, keep, x);
        let d = unique_kept(t, keep);
        if t.contains(x) {
            let i = choose|i: int| 0 <= i < t.len() && t[i] == x;
            assert(s[i] == x);
        }
        if s.contains(x) {
            let i = choose|i: int| 0 <= i < s.len() && s[i] == x;
            if i < t.len() {
                assert(t[i] == x);
            }
        }
        if keep(s.last()) && !d.contains(s.last()) {
            assert(d.push(s.last())[d.len() as int] == s.last());
            if d.push(s.last()).contains(x) {
                let i = choose|i: int| 0 <= i < d.push(s.last()).len() && d.push(s.last())[i] == x;
                if i < d.len() {
                    assert(d[i] == x);
                }
            }
            if d.contains(x) {
                let i = choose|i: int| 0 <= i < d.len() && d[i] == x;
                assert(d.push(s.last())[i] == x);
            }
        }
    }
}

/// The references extracted in document order are exactly those that
/// occur somewhere in the document's tree: in paragraphs, headings and
/// table cells, and at any depth in list items, quotes and footnotes.
pub proof fn lemma_refs_found_everywhere(bs: Seq<BlockV>, tags: bool, r: Seq<char>)
    ensures
        blocks_refs(bs, tags).contains(r) <==> doc_mentions(bs, tags, r),
{
    lemma_blocks_refs_mention(bs, tags, r);
}

/// Every note embed anywhere in a document's tree gives its target, when
/// that is not empty, to the extracted wikilinks; and each extracted
/// wikilink is the non-empty target of such an embed.
pub proof fn lemma_wikilinks_complete(bs: Seq<BlockV>, r: Seq<char>, x: Seq<char>)
    ensures
        doc_mentions(bs, false, r) && link_target(r).len() > 0 ==> wikilinks_v(bs).contains(link_target(r)),
        wikilinks_v(bs).contains(x) ==> x.len() > 0 && exists|e: Seq<char>| #[trigger] doc_mentions(bs, false, e) && link_target(e) == x,
{
    let raw = blocks_refs(bs, false);
    let norm = raw.map_values(|q: Seq<char>| link_target(q));
    let keep = |t: Seq<char>| t.len() > 0;
    lemma_unique_kept_contains(norm, keep, link_target(r));
    lemma_unique_kept_contains(norm, keep, x);
    lemma_blocks_refs_mention(bs, false, r);
    if doc_mentions(bs, false, r) && link_target(r).len() > 0 {
        let i = choose|i: int| 0 <= i < raw.len() && raw[i] == r;
        assert(norm[i] == link_target(r));
    }
    if wikilinks_v(bs).contains(x) {
        let i = choose|i: int| 0 <= i < norm.len() && norm[i] == x;
        lemma_blocks_refs_mention(bs, false, raw[i]);
        assert(raw[i] == raw[i]);
        assert(raw.contains(raw[i]));
        assert(doc_mentions(bs, false, raw[i]));
    }
}

/// Every tag reference anywhere in a document's tree whose name counts as
/// a tag is among the extracted tags, and each extracted tag is such a
/// name.
pub proof fn lemma_tags_complete(bs: Seq<BlockV>, n: Seq<char>)
    ensures
        tags_v(bs).contains(n) <==> doc_mentions(bs, true, n) && valid_tag(n),
{
    lemma_unique_kept_contains(blocks_refs(bs, true), |m: Seq<char>| valid_tag(m), n);
    lemma_blocks_refs_mention(bs, true, n);
}

// ---------------------------------------------------------------------------
// Facts.

proof fn lemma_before_first_take(s: Seq<char>, c: char, k: int)
    requires
        0 <= k <= s.len(),
        forall|i: int| 0 <= i < k ==> s[i] != c,
        k == s.len() || s[k] == c,
    ensures
        before_first(s, c) == s.take(k),
    decreases s.len(),
{
    if s.len() == 0 {
        assert(s.take(k) =~= s);
    } else if s[0] == c {
        assert(k == 0);
        assert(s.take(0) =~= Seq::<char>::empty());
    } else {
        let t = s.drop_first();
        lemma_before_first_take(t, c, k - 1);
        assert(seq![s[0]] + t.take(k - 1) =~= s.take(k));
    }
}

proof fn lemma_after_last_skip(s: Seq<char>, c: char, k: int)
    requires
        0 <= k <= s.len(),
        forall|i: int| k <= i < s.len() ==> s[i] != c,
        k == 0 || s[k - 1] == c,
    ensures
        after_last(s, c) == s.skip(k),
    decreases s.len(),
{
    if s.len() == k {
        assert(s.skip(k) =~= Seq::<char>::empty());
    } else {
        let t = s.drop_last();
        lemma_after_last_skip(t, c, k);
        assert(t.skip(k).push(s.last()) =~= s.skip(k));
    }
}

proof fn lemma_before_first_absent(s: Seq<char>, c: char)
    ensures
        !before_first(s, c).contains(c),
        !s.contains(c) ==> before_first(s, c) == s,
    decreases s.len(),
{
    if s.len() > 0 && s[0] != c {
        let t = s.drop_first();
        lemma_before_first_absent(t, c);
        let r = before_first(t, c);
        assert forall|i: int| 0 <= i < (seq![s[0]] + r).len() implies (seq![s[0]] + r)[i] != c by {
            if i > 0 {
                assert((seq![s[0]] + r)[i] == r[i - 1]);
            }
        }
        if !s.contains(c) {
            assert forall|i: int| 0 <= i < t.len() implies t[i] != c by {
                assert(t[i] == s[i + 1]);
            }
            assert(seq![s[0]] + t =~= s);
        }
    } else if s.len() > 0 {
        assert(s[0] == c);
    }
}

proof fn lemma_after_last_absent(s: Seq<char>, c: char)
    ensures
        !after_last(s, c).contains(c),
        !s.contains(c) ==> after_last(s, c) == s,
    decreases s.len(),
{
    if s.len() > 0 && s.last() != c {
        let t = s.drop_last();
        lemma_after_last_absent(t, c);
        let r = after_last(t, c);
        assert forall|i: int| 0 <= i < r.push(s.last()).len() implies r.push(s.last())[i] != c by {
            if i < r.len() {
                assert(r.push(s.last())[i] == r[i]);
            }
        }
        if !s.contains(c) {
            assert forall|i: int| 0 <= i < t.len() implies t[i] != c by {
                assert(t[i] == s[i]);
            }
            assert(t.push(s.last()) =~= s);
        }
    } else if s.len() > 0 {
        assert(s[s.len() - 1] == c);
    }
}

/// A link target holds no `|`, `#` or `/`, so reducing it again changes
/// nothing: reduction is idempotent.
pub proof fn lemma_link_target_idempotent(r: Seq<char>)
    ensures
        link_target(link_target(r)) == link_target(r),
        !link_target(r).contains('|'),
        !link_target(r).contains('#'),
        !link_target(r).contains('/'),
{
    let a = before_first(r, '|');
    let b = before_first(a, '#');
    let c = after_last(b, '/');
    let t = trim_seq(c);
    lemma_before_first_absent(r, '|');
    lemma_before_first_absent(a, '#');
    lemma_after_last_absent(b, '/');
    // `b` keeps no `|` of `a`: it is a prefix of `a`.
    assert(!b.contains('|')) by {
        if b.contains('|') {
            let j = choose|j: int| 0 <= j < b.len() && b[j] == '|';
            lemma_prefix_of(a, '#');
            assert(a[j] == '|');
        }
    }
    assert(!c.contains('|') && !c.contains('#')) by {
        lemma_suffix_of(b, '/');
        if c.contains('|') {
            let j = choose|j: int| 0 <= j < c.len() && c[j] == '|';
            assert(b[j + b.len() - c.len()] == '|');
        }
        if c.contains('#') {
            let j = choose|j: int| 0 <= j < c.len() && c[j] == '#';
            assert(b[j + b.len() - c.len()] == '#');
        }
    }
    lemma_trim_within(c, '|');
    lemma_trim_within(c, '#');
    lemma_trim_within(c, '/');
    lemma_before_first_absent(t, '|');
    lemma_before_first_absent(t, '#');
    lemma_after_last_absent(t, '/');
    lemma_trim_idempotent(c);
}

proof fn lemma_prefix_of(s: Seq<char>, c: char)
    ensures
        before_first(s, c).len() <= s.len(),
        forall|i: int| 0 <= i < before_first(s, c).len() ==> before_first(s, c)[i] == s[i],
    decreases s.len(),
{
    if s.len() > 0 && s[0] != c {
        lemma_prefix_of(s.drop_first(), c);
        let r = before_first(s.drop_first(), c);
        assert forall|i: int| 0 <= i < before_first(s, c).len() implies before_first(s, c)[i] == s[i] by {
            if i > 0 {
                assert((seq![s[0]] + r)[i] == r[i - 1]);
                assert(s.drop_first()[i - 1] == s[i]);
            } else {
                assert((seq![s[0]] + r)[0] == s[0]);
            }
        }
    }
}

proof fn lemma_suffix_of(s: Seq<char>, c: char)
    ensures
        after_last(s, c).len() <= s.len(),
        forall|i: int| 0 <= i < after_last(s, c).len() ==> after_last(s, c)[i] == s[i + s.len() - after_last(s, c).len()],
    decreases s.len(),
{
    if s.len() > 0 && s.last() != c {
        lemma_suffix_of(s.drop_last(), c);
    }
}

/// The values that `unique_kept` gives are those of `s` that `keep`
/// accepts, and none of them twice.
pub proof fn lemma_unique_kept(s: Seq<Seq<char>>, keep: spec_fn(Seq<char>) -> bool)
    ensures
        forall|x: Seq<char>| #[trigger] unique_kept(s, keep).contains(x) <==> (s.contains(x) && keep(x)),
        forall|i: int, j: int|
            0 <= i < j < unique_kept(s, keep).len() ==> unique_kept(s, keep)[i] != unique_kept(s, keep)[j],
    decreases s.len(),
{
    if s.len() > 0 {
        let t = s.drop_last();
        let y = s.last();
        lemma_unique_kept(t, keep);
        let d = unique_kept(t, keep);
        let u = unique_kept(s, keep);
        assert forall|x: Seq<char>| u.contains(x) implies s.contains(x) && keep(x) by {
            let k = choose|k: int| 0 <= k < u.len() && u[k] == x;
            if k < d.len() {
                assert(d[k] == x);
                assert(unique_kept(t, keep).contains(x));
                assert(t.contains(x));
                let j = choose|j: int| 0 <= j < t.len() && t[j] == x;
                assert(s[j] == t[j]);
            } else {
                assert(x == y);
                assert(s[s.len() - 1] == x);
            }
        }
        assert forall|x: Seq<char>| s.contains(x) && keep(x) implies u.contains(x) by {
            let j = choose|j: int| 0 <= j < s.len() && s[j] == x;
            if j < s.len() - 1 {
                assert(t[j] == x);
                assert(t.contains(x));
                assert(d.contains(x));
                let k = choose|k: int| 0 <= k < d.len() && d[k] == x;
                if keep(y) && !d.contains(y) {
                    assert(d.push(y)[k] == x);
                }
            } else {
                if !d.contains(x) {
                    assert(d.push(y)[d.len() as int] == x);
                }
            }
        }
    }
}

proof fn lemma_unique_kept_push(s: Seq<Seq<char>>, x: Seq<char>, keep: spec_fn(Seq<char>) -> bool)
    ensures
        unique_kept(s.push(x), keep) == if keep(x) && !unique_kept(s, keep).contains(x) {
            unique_kept(s, keep).push(x)
        } else {
            unique_kept(s, keep)
        },
{
    assert(s.push(x).drop_last() =~= s);
}

// ---------------------------------------------------------------------------
// Collecting references.

fn collect_from_inline(inline: &Inline, tags: bool, out: &mut Vec<String>)
    ensures
        strings_view(final(out)@) == strings_view(old(out)@) + inline_refs(inline_view(*inline), tags),
    decreases inline,
{
    let ghost before = strings_view(out@);
    match inline {
        Inline::NoteEmbed { note_ref } => {
            if !tags {
                out.push(note_ref.clone());
                assert(strings_view(out@) =~= before + seq![note_ref@]);
            } else {
                assert(strings_view(out@) =~= before + Seq::<Seq<char>>::empty());
            }
        },
        Inline::TagRef { name } => {
            if tags {
                out.push(name.clone());
                assert(strings_view(out@) =~= before + seq![name@]);
            } else {
                assert(strings_view(out@) =~= before + Seq::<Seq<char>>::empty());
            }
        },
        Inline::Strong(children) => collect_from_inlines(children, tags, out),
        Inline::Emphasis(children) => collect_from_inlines(children, tags, out),
        Inline::Strikethrough(children) => collect_from_inlines(children, tags, out),
        Inline::Link { children, .. } => collect_from_inlines(children, tags, out),
        _ => {
            assert(strings_view(out@) =~= before + Seq::<Seq<char>>::empty());
        },
    }
}

fn collect_from_inlines(inlines: &Vec<Inline>, tags: bool, out: &mut Vec<String>)
    ensures
        strings_view(final(out)@) == strings_view(old(out)@) + inlines_refs(inlines_view(inlines@), tags),
    decreases inlines,
{
    let mut i: usize = 0;
    while i < inlines.len()
        invariant
            i <= inlines.len(),
            strings_view(out@) == strings_view(old(out)@) + inlines_refs(inlines_view(inlines@.take(i as int)), tags),
        decreases inlines.len() - i,
    {
        proof {
            assert(decreases_to!(inlines => inlines@[i as int]));
            lemma_inlines_view_take(inlines@, i as int);
            let s = inlines_view(inlines@.take(i as int));
            let x = inline_view(inlines@[i as int]);
            assert(s.push(x).drop_last() =~= s);
        }
        let ghost mid = strings_view(out@);
        collect_from_inline(&inlines[i], tags, out);
        proof {
            let s = inlines_view(inlines@.take(i as int));
            let x = inline_view(inlines@[i as int]);
            assert(strings_view(old(out)@) + inlines_refs(s, tags) + inline_refs(x, tags)
                =~= strings_view(old(out)@) + (inlines_refs(s, tags) + inline_refs(x, tags)));
        }
        i = i + 1;
    }
    assert(inlines@.take(inlines.len() as int) =~= inlines@);
}

fn collect_from_cells(cells: &Vec<Vec<Inline>>, tags: bool, out: &mut Vec<String>)
    ensures
        strings_view(final(out)@) == strings_view(old(out)@) + cells_refs(cells_view(cells@), tags),
{
    let mut i: usize = 0;
    while i < cells.len()
        invariant
            i <= cells.len(),
            strings_view(out@) == strings_view(old(out)@) + cells_refs(cells_view(cells@.take(i as int)), tags),
        decreases cells.len() - i,
    {
        proof {
            lemma_cells_view_take(cells@, i as int);
            let s = cells_view(cells@.take(i as int));
            let x = inlines_view(cells@[i as int]@);
            assert(s.push(x).drop_last() =~= s);
        }
        collect_from_inlines(&cells[i], tags, out);
        proof {
            let s = cells_view(cells@.take(i as int));
            let x = inlines_view(cells@[i as int]@);
            assert(strings_view(old(out)@) + cells_refs(s, tags) + inlines_refs(x, tags)
                =~= strings_view(old(out)@) + (cells_refs(s, tags) + inlines_refs(x, tags)));
        }
        i = i + 1;
    }
    assert(cells@.take(cells.len() as int) =~= cells@);
}

fn collect_from_items(items: &Vec<ListItem>, tags: bool, out: &mut Vec<String>)
    ensures
        strings_view(final(out)@) == strings_view(old(out)@) + items_refs(items_view(items@), tags),
    decreases items,
{
    let mut i: usize = 0;
    while i < items.len()
        invariant
            i <= items.len(),
            strings_view(out@) == strings_view(old(out)@) + items_refs(items_view(items@.take(i as int)), tags),
        decreases items.len() - i,
    {
        proof {
            assert(decreases_to!(items => items@[i as int]));
            assert(decreases_to!(items@[i as int] => items@[i as int].children));
            lemma_items_view_take(items@, i as int);
            let s = items_view(items@.take(i as int));
            let x = item_view(items@[i as int]);
            assert(s.push(x).drop_last() =~= s);
        }
        collect_from_blocks(&items[i].children, tags, out);
        proof {
            let s = items_view(items@.take(i as int));
            let x = item_view(items@[i as int]);
            assert(strings_view(old(out)@) + items_refs(s, tags) + blocks_refs(x.children, tags)
                =~= strings_view(old(out)@) + (items_refs(s, tags) + blocks_refs(x.children, tags)));
        }
        i = i + 1;
    }
    assert(items@.take(items.len() as int) =~= items@);
}

fn collect_from_block(kind: &BlockKind, tags: bool, out: &mut Vec<String>)
    ensures
        strings_view(final(out)@) == strings_view(old(out)@) + block_refs(kind_view(*kind), tags),
    decreases kind,
{
    let ghost before = strings_view(out@);
    match kind {
        BlockKind::Paragraph(inlines) => collect_from_inlines(inlines, tags, out),
        BlockKind::Heading { children, .. } => collect_from_inlines(children, tags, out),
        BlockKind::List { items, .. } => collect_from_items(items, tags, out),
        BlockKind::Quote(nested) => collect_from_blocks(nested, tags, out),
        BlockKind::Table(table) => {
            collect_from_cells(&table.headers, tags, out);
            let ghost mid = strings_view(out@);
            let mut r: usize = 0;
            while r < table.rows.len()
                invariant
                    r <= table.rows.len(),
                    strings_view(out@) == mid + rows_refs(rows_view(table.rows@.take(r as int)), tags),
                decreases table.rows.len() - r,
            {
                proof {
                    lemma_rows_view_take(table.rows@, r as int);
                    let s = rows_view(table.rows@.take(r as int));
                    let x = cells_view(table.rows@[r as int]@);
                    assert(s.push(x).drop_last() =~= s);
                }
                collect_from_cells(&table.rows[r], tags, out);
                proof {
                    let s = rows_view(table.rows@.take(r as int));
                    let x = cells_view(table.rows@[r as int]@);
                    assert(mid + rows_refs(s, tags) + cells_refs(x, tags)
                        =~= mid + (rows_refs(s, tags) + cells_refs(x, tags)));
                }
                r = r + 1;
            }
            assert(table.rows@.take(table.rows.len() as int) =~= table.rows@);
            assert(before + cells_refs(cells_view(table.headers@), tags) + rows_refs(rows_view(table.rows@), tags)
                =~= before + (cells_refs(cells_view(table.headers@), tags) + rows_refs(rows_view(table.rows@), tags)));
        },
        BlockKind::FootnoteDefinition { children, .. } => collect_from_blocks(children, tags, out),
        _ => {
            assert(strings_view(out@) =~= before + Seq::<Seq<char>>::empty());
        },
    }
}

fn collect_from_blocks(blocks: &Vec<Block>, tags: bool, out: &mut Vec<String>)
    ensures
        strings_view(final(out)@) == strings_view(old(out)@) + blocks_refs(blocks_view(blocks@), tags),
    decreases blocks,
{
    let mut i: usize = 0;
    while i < blocks.len()
        invariant
            i <= blocks.len(),
            strings_view(out@) == strings_view(old(out)@) + blocks_refs(blocks_view(blocks@.take(i as int)), tags),
        decreases blocks.len() - i,
    {
        proof {
            assert(decreases_to!(blocks => blocks@[i as int]));
            lemma_blocks_view_take(blocks@, i as int);
            let s = blocks_view(blocks@.take(i as int));
            let x = kind_view(blocks@[i as int].kind);
            assert(s.push(x).drop_last() =~= s);
        }
        collect_from_block(&blocks[i].kind, tags, out);
        proof {
            let s = blocks_view(blocks@.take(i as int));
            let x = kind_view(blocks@[i as int].kind);
            assert(strings_view(old(out)@) + blocks_refs(s, tags) + block_refs(x, tags)
                =~= strings_view(old(out)@) + (blocks_refs(s, tags) + block_refs(x, tags)));
        }
        i = i + 1;
    }
    assert(blocks@.take(blocks.len() as int) =~= blocks@);
}

fn contains_string(v: &Vec<String>, s: &String) -> (r: bool)
    ensures
        r == strings_view(v@).contains(s@),
{
    let mut i: usize = 0;
    while i < v.len()
        invariant
            i <= v.len(),
            forall|j: int| 0 <= j < i ==> v@[j]@ != s@,
        decreases v.len() - i,
    {
        if v[i] == *s {
            assert(strings_view(v@)[i as int] == s@);
            return true;
        }
        i = i + 1;
    }
    assert forall|j: int| 0 <= j < strings_view(v@).len() implies strings_view(v@)[j] != s@ by {
        assert(strings_view(v@)[j] == v@[j]@);
    }
    false
}

/// Reduces a raw `NoteEmbed` reference to the bare note title used for
/// resolution against vault file names.
pub fn normalize_link_target(note_ref: &str) -> (r: String)
    ensures
        r@ == link_target(note_ref@),
{
    let v = chars_of(note_ref);
    let mut k: usize = 0;
    while k < v.len() && v[k] != '|'
        invariant
            k <= v.len(),
            forall|i: int| 0 <= i < k ==> v@[i] != '|',
        decreases v.len() - k,
    {
        k = k + 1;
    }
    proof {
        lemma_before_first_take(v@, '|', k as int);
    }
    let mut a: usize = 0;
    while a < k && v[a] != '#'
        invariant
            a <= k <= v.len(),
            forall|i: int| 0 <= i < a ==> v@[i] != '#',
        decreases k - a,
    {
        a = a + 1;
    }
    proof {
        let s1 = v@.take(k as int);
        assert forall|i: int| 0 <= i < a implies s1[i] != '#' by {
            assert(s1[i] == v@[i]);
        }
        lemma_before_first_take(s1, '#', a as int);
        assert(s1.take(a as int) =~= v@.take(a as int));
    }
    let mut b: usize = a;
    while b > 0 && v[b - 1] != '/'
        invariant
            b <= a,
            a <= v.len(),
            forall|i: int| b <= i < a ==> v@[i] != '/',
        decreases b,
    {
        b = b - 1;
    }
    proof {
        let s2 = v@.take(a as int);
        assert forall|i: int| b <= i < s2.len() implies s2[i] != '/' by {
            assert(s2[i] == v@[i]);
        }
        lemma_after_last_skip(s2, '/', b as int);
        assert(s2.skip(b as int) =~= v@.subrange(b as int, a as int));
    }
    let last_segment = string_of_range(&v, b, a);
    trim(last_segment.as_str())
}

/// Collects the wikilink targets a document references, each once, in
/// order of first appearance. Aliases (`[[Target|alias]]`), heading
/// anchors (`[[Target#section]]`) and folder paths (`[[folder/Target]]`)
/// reduce to the bare note title; empty targets are left out.
pub fn extract_wikilinks(doc: &Document) -> (r: Vec<String>)
    ensures
        strings_view(r@) == wikilinks_v(doc.view_blocks()),
{
    let mut refs: Vec<String> = Vec::new();
    collect_from_blocks(&doc.blocks, false, &mut refs);
    let ghost raw = blocks_refs(doc.view_blocks(), false);
    let ghost norm = raw.map_values(|r: Seq<char>| link_target(r));
    assert(strings_view(refs@) =~= raw);
    let mut targets: Vec<String> = Vec::new();
    let mut i: usize = 0;
    while i < refs.len()
        invariant
            i <= refs.len(),
            strings_view(refs@) == raw,
            norm == raw.map_values(|r: Seq<char>| link_target(r)),
            strings_view(targets@) == unique_kept(norm.take(i as int), |t: Seq<char>| t.len() > 0),
        decreases refs.len() - i,
    {
        let target = normalize_link_target(refs[i].as_str());
        proof {
            assert(raw[i as int] == refs@[i as int]@);
            assert(norm.take(i + 1) =~= norm.take(i as int).push(target@));
            lemma_unique_kept_push(norm.take(i as int), target@, |t: Seq<char>| t.len() > 0);
        }
        if !target.as_str().is_empty() && !contains_string(&targets, &target) {
            let ghost before = strings_view(targets@);
            targets.push(target);
            assert(strings_view(targets@) =~= before.push(norm[i as int]));
        }
        i = i + 1;
    }
    assert(norm.take(refs.len() as int) =~= norm);
    targets
}

/// Whether every character of `s` is an ASCII digit.
fn all_digits(s: &String) -> (r: bool)
    ensures
        r == (forall|i: int| 0 <= i < s@.len() ==> is_digit(#[trigger] s@[i])),
{
    let v = chars_of(s.as_str());
    let mut i: usize = 0;
    while i < v.len()
        invariant
            i <= v.len(),
            v@ == s@,
            forall|j: int| 0 <= j < i ==> is_digit(#[trigger] v@[j]),
        decreases v.len() - i,
    {
        if !('0' <= v[i] && v[i] <= '9') {
            return false;
        }
        i = i + 1;
    }
    true
}

/// Collects the inline `#tag` names of a document, each once, in order of
/// first appearance; empty and all-digit names are left out.
pub fn extract_inline_tags(doc: &Document) -> (r: Vec<String>)
    ensures
        strings_view(r@) == tags_v(doc.view_blocks()),
{
    let mut names: Vec<String> = Vec::new();
    collect_from_blocks(&doc.blocks, true, &mut names);
    let ghost raw = blocks_refs(doc.view_blocks(), true);
    assert(strings_view(names@) =~= raw);
    let mut tags: Vec<String> = Vec::new();
    let mut i: usize = 0;
    while i < names.len()
        invariant
            i <= names.len(),
            strings_view(names@) == raw,
            strings_view(tags@) == unique_kept(raw.take(i as int), |n: Seq<char>| valid_tag(n)),
        decreases names.len() - i,
    {
        proof {
            assert(raw[i as int] == names@[i as int]@);
            assert(raw.take(i + 1) =~= raw.take(i as int).push(names@[i as int]@));
            lemma_unique_kept_push(raw.take(i as int), names@[i as int]@, |n: Seq<char>| valid_tag(n));
        }
        let name = &names[i];
        let valid = !name.as_str().is_empty() && !all_digits(name);
        assert(valid == valid_tag(name@));
        if valid && !contains_string(&tags, name) {
            let ghost before = strings_view(tags@);
            tags.push(name.clone());
            assert(strings_view(tags@) =~= before.push(raw[i as int]));
        }
        i = i + 1;
    }
    assert(raw.take(names.len() as int) =~= raw);
    tags
}

// ---------------------------------------------------------------------------
// Rewriting wikilinks after a rename.

/// Whether the scan is inside a fenced code block, and the fence that
/// closes it.
pub struct FenceState {
    pub inside: bool,
    pub marker: Option<&'static str>,
}

pub struct FenceV {
    pub inside: bool,
    pub marker: Option<Seq<char>>,
}

pub open spec fn fence_view(f: FenceState) -> FenceV {
    FenceV {
        inside: f.inside,
        marker: match f.marker {
            Some(m) => Some(m@),
            None => None,
        },
    }
}

/// The fence that a (left-trimmed) line opens, if it opens one.
pub open spec fn fence_opening_v(trimmed: Seq<char>) -> Option<Seq<char>> {
    if has_prefix(trimmed, "```"@) {
        Some("```"@)
    } else if has_prefix(trimmed, "~~~"@) {
        Some("~~~"@)
    } else {
        None
    }
}

/// The index of the first byte `x` in `b` at or after `i`.
pub open spec fn find_byte_from(b: Seq<u8>, i: int, x: u8) -> Option<int>
    decreases b.len() - i,
{
    if i < 0 || i >= b.len() {
        None
    } else if b[i] == x {
        Some(i)
    } else {
        find_byte_from(b, i + 1, x)
    }
}

/// Whether the bytes of `b` from `i` on begin with `p`.
pub open spec fn bytes_at(b: Seq<u8>, i: int, p: Seq<u8>) -> bool {
    0 <= i && i + p.len() <= b.len() && b.subrange(i, i + p.len() as int) == p
}

/// Whether a link to the old title starts at byte `index` of the line's
/// bytes `b`: `[[`, then `old_len` bytes (those of the old title) whose
/// text lowercases to `low_old`, then `]` or `|`, all cut at character
/// boundaries.
pub open spec fn link_at(b: Seq<u8>, low_old: Seq<char>, old_len: int, index: int) -> bool {
    let end = index + 2 + old_len;
    &&& bytes_at(b, index, seq![0x5bu8, 0x5bu8])
    &&& 0 <= old_len
    &&& end < b.len()
    &&& is_char_boundary(b, index)
    &&& is_char_boundary(b, index + 2)
    &&& is_char_boundary(b, end)
    &&& lowercase(decode_utf8(b.subrange(index + 2, end))) == low_old
    &&& (b[end] == 0x5du8 || b[end] == 0x7cu8)
}

/// The scan of one line's bytes `b` for links to the old title, from byte
/// `index` with the line copied up to byte `cursor` into `out`. A backquote
/// with a closing one after it skips the code span; a link to the old title
/// (matched without case, see `link_at`) has its target replaced by `new`;
/// the rest is copied as it is.
pub open spec fn link_scan(
    b: Seq<u8>,
    low_old: Seq<char>,
    old_len: int,
    new: Seq<char>,
    index: int,
    cursor: int,
    out: Seq<char>,
) -> Seq<char>
    decreases if 0 <= index < b.len() {
        b.len() - index
    } else {
        0
    },
{
    if index < 0 || index >= b.len() {
        out + decode_utf8(b.subrange(cursor, b.len() as int))
    } else if b[index] == 0x60u8 && find_byte_from(b, index + 1, 0x60u8) is Some && find_byte_from(
        b,
        index + 1,
        0x60u8,
    )->0 >= index {
        link_scan(b, low_old, old_len, new, find_byte_from(b, index + 1, 0x60u8)->0 + 1, cursor, out)
    } else if link_at(b, low_old, old_len, index) {
        let end = index + 2 + old_len;
        link_scan(b, low_old, old_len, new, end, end, out + decode_utf8(b.subrange(cursor, index)) + "[["@ + new)
    } else {
        link_scan(b, low_old, old_len, new, index + 1, cursor, out)
    }
}

/// One line of the rewrite: lines in fenced or indented code are kept as
/// they are (a fence line opens or closes the fence), other lines are
/// scanned for links.
pub open spec fn line_step(st: FenceV, line: Seq<char>, low_old: Seq<char>, old_len: int, new: Seq<char>) -> (FenceV, Seq<char>) {
    let trimmed = trim_start_seq(line);
    if st.inside {
        let closes = match st.marker {
            Some(m) => has_prefix(trimmed, m),
            None => false,
        };
        (if closes {
            FenceV { inside: false, marker: None }
        } else {
            st
        }, line)
    } else if fence_opening_v(trimmed) is Some {
        (FenceV { inside: true, marker: fence_opening_v(trimmed) }, line)
    } else if has_prefix(line, "    "@) || has_prefix(line, seq!['\t']) {
        (st, line)
    } else {
        (st, link_scan(encode_utf8(line), low_old, old_len, new, 0, 0, Seq::empty()))
    }
}

pub open spec fn rewrite_lines(lines: Seq<Seq<char>>, st: FenceV, low_old: Seq<char>, old_len: int, new: Seq<char>) -> Seq<Seq<char>>
    decreases lines.len(),
{
    if lines.len() == 0 {
        Seq::empty()
    } else {
        let (st2, l) = line_step(st, lines[0], low_old, old_len, new);
        seq![l] + rewrite_lines(lines.drop_first(), st2, low_old, old_len, new)
    }
}

/// The body with its links to `old` pointed at `new`.
pub open spec fn rewrite_v(body: Seq<char>, old: Seq<char>, new: Seq<char>) -> Seq<char> {
    if old == new {
        body
    } else {
        join(
            rewrite_lines(
                split_on(body, '\n'),
                FenceV { inside: false, marker: None },
                lowercase(old),
                encode_utf8(old).len() as int,
                new,
            ),
            seq!['\n'],
        )
    }
}

fn fence_opening(trimmed: &str) -> (r: Option<&'static str>)
    ensures
        match r {
            Some(m) => fence_opening_v(trimmed@) == Some(m@),
            None => fence_opening_v(trimmed@) is None,
        },
{
    if starts_with(trimmed, "```") {
        Some("```")
    } else if starts_with(trimmed, "~~~") {
        Some("~~~")
    } else {
        None
    }
}

proof fn lemma_find_byte_bounds(b: Seq<u8>, i: int, x: u8)
    ensures
        find_byte_from(b, i, x) matches Some(k) ==> i <= k < b.len() && b[k] == x,
    decreases b.len() - i,
{
    if 0 <= i < b.len() && b[i] != x {
        lemma_find_byte_bounds(b, i + 1, x);
    }
}

/// The first backquote at or after `from`.
fn find_backquote(lb: &[u8], from: usize) -> (r: Option<usize>)
    ensures
        match r {
            Some(k) => find_byte_from(lb@, from as int, 0x60u8) == Some(k as int),
            None => find_byte_from(lb@, from as int, 0x60u8) is None,
        },
{
    let mut k = from;
    while k < lb.len()
        invariant
            from <= k,
            find_byte_from(lb@, k as int, 0x60u8) == find_byte_from(lb@, from as int, 0x60u8),
        decreases lb.len() - k,
    {
        if lb[k] == 0x60u8 {
            return Some(k);
        }
        k = k + 1;
    }
    None
}

/// Whether `nb` occurs in `lb` at `i`.
fn bytes_match_at(lb: &[u8], i: usize, nb: &[u8]) -> (r: bool)
    ensures
        r == bytes_at(lb@, i as int, nb@),
{
    if nb.len() > lb.len() || i > lb.len() - nb.len() {
        return false;
    }
    let mut j: usize = 0;
    while j < nb.len()
        invariant
            j <= nb.len(),
            i + nb.len() <= lb.len(),
            forall|t: int| 0 <= t < j ==> lb@[i + t] == nb@[t],
        decreases nb.len() - j,
    {
        if lb[i + j] != nb[j] {
            assert(lb@.subrange(i as int, i + nb.len())[j as int] != nb@[j as int]);
            return false;
        }
        j = j + 1;
    }
    assert(lb@.subrange(i as int, i + nb@.len()) =~= nb@);
    true
}


/// Whether a link to the old title starts at `index` (see `link_at`).
fn link_at_exec(line: &str, low_old: &str, old_len: usize, index: usize) -> (r: bool)
    ensures
        r == link_at(encode_utf8(line@), low_old@, old_len as int, index as int),
{
    broadcast use vstd::utf8::encode_utf8_valid_utf8;

    let b = line.as_bytes();
    let ghost bs = encode_utf8(line@);
    assert(b@ == bs);
    let two: [u8; 2] = [0x5bu8, 0x5bu8];
    let brackets = two.as_slice();
    assert(brackets@ =~= seq![0x5bu8, 0x5bu8]);
    if !bytes_match_at(b, index, brackets) {
        return false;
    }
    if old_len >= b.len() || index >= b.len() - old_len - 1 || index + 2 + old_len >= b.len() {
        return false;
    }
    let end = index + 2 + old_len;
    if !line.is_char_boundary(index) || !line.is_char_boundary(index + 2) || !line.is_char_boundary(end) {
        return false;
    }
    if !(b[end] == 0x5du8 || b[end] == 0x7cu8) {
        return false;
    }
    proof {
        vstd::utf8::encode_utf8_valid_utf8(line@);
        crate::text::lemma_boundary_within(bs, index + 2, end as int);
    }
    let (head, _tail) = line.split_at(end);
    assert(head.spec_bytes() =~= bs.subrange(0, end as int));
    let (_open, title) = head.split_at(index + 2);
    proof {
        assert(title.spec_bytes() =~= bs.subrange(index + 2, end as int));
        vstd::utf8::encode_utf8_decode_utf8(title@);
    }
    let lowered = to_lowercase(title);
    same_text(lowered.as_str(), low_old)
}

/// Scans one line for links to the old title (see `link_scan`).
#[verifier::rlimit(40)]
fn scan_line(line: &str, low_old: &str, old_len: usize, new_title: &str) -> (r: String)
    ensures
        r@ == link_scan(encode_utf8(line@), low_old@, old_len as int, new_title@, 0, 0, Seq::empty()),
{
    broadcast use vstd::utf8::encode_utf8_valid_utf8;

    let b = line.as_bytes();
    let ghost bs = encode_utf8(line@);
    let ghost result = link_scan(bs, low_old@, old_len as int, new_title@, 0, 0, Seq::empty());
    assert(b@ == bs);
    proof {
        vstd::utf8::encode_utf8_valid_utf8(line@);
        vstd::utf8::is_char_boundary_start_end_of_seq(bs);
    }
    let mut out = String::new();
    let mut cursor: usize = 0;
    let mut index: usize = 0;
    while index < b.len()
        invariant
            bs == encode_utf8(line@),
            vstd::utf8::valid_utf8(bs),
            result == link_scan(bs, low_old@, old_len as int, new_title@, 0, 0, Seq::empty()),
            b@ == bs,
            cursor <= index,
            cursor <= bs.len(),
            is_char_boundary(bs, cursor as int),
            link_scan(bs, low_old@, old_len as int, new_title@, index as int, cursor as int, out@) == result,
        decreases if index < b.len() {
            b.len() - index
        } else {
            0
        },
    {
        if b[index] == 0x60u8 {
            match find_backquote(b, index + 1) {
                Some(close) => {
                    proof {
                        lemma_find_byte_bounds(bs, index + 1, 0x60u8);
                    }
                    index = close + 1;
                    continue;
                },
                None => {},
            }
        }
        if link_at_exec(line, low_old, old_len, index) {
            let end = index + 2 + old_len;
            proof {
                crate::text::lemma_boundary_within(bs, cursor as int, index as int);
            }
            let (head, _tail) = line.split_at(index);
            assert(head.spec_bytes() =~= bs.subrange(0, index as int));
            let (_skip, piece) = head.split_at(cursor);
            proof {
                assert(piece.spec_bytes() =~= bs.subrange(cursor as int, index as int));
                vstd::utf8::encode_utf8_decode_utf8(piece@);
                reveal_strlit("[[");
            }
            out.push_str(piece);
            out.push_str("[[");
            out.push_str(new_title);
            cursor = end;
            index = end;
            continue;
        }
        index = index + 1;
    }
    let (_done, rest) = line.split_at(cursor);
    proof {
        assert(rest.spec_bytes() =~= bs.subrange(cursor as int, bs.len() as int));
        vstd::utf8::encode_utf8_decode_utf8(rest@);
    }
    out.push_str(rest);
    out
}

fn rewrite_line(
    state: &mut FenceState,
    line: &str,
    low_old: &str,
    old_len: usize,
    new_title: &str,
) -> (r: String)
    ensures
        (fence_view(*final(state)), r@) == line_step(
            fence_view(*old(state)),
            line@,
            low_old@,
            old_len as int,
            new_title@,
        ),
{
    let trimmed = trim_start(line);
    if state.inside {
        match state.marker {
            Some(marker) => {
                if starts_with(trimmed.as_str(), marker) {
                    state.inside = false;
                    state.marker = None;
                }
            },
            None => {},
        }
        return line.to_owned();
    }
    match fence_opening(trimmed.as_str()) {
        Some(marker) => {
            state.inside = true;
            state.marker = Some(marker);
            return line.to_owned();
        },
        None => {},
    }
    if starts_with(line, "    ") || starts_with(line, "\t") {
        proof {
            reveal_strlit("\t");
            assert("\t"@ =~= seq!['\t']);
        }
        return line.to_owned();
    }
    proof {
        reveal_strlit("\t");
        assert("\t"@ =~= seq!['\t']);
    }
    scan_line(line, low_old, old_len, new_title)
}

/// Joins the lines with newlines.
fn join_lines(lines: &Vec<String>) -> (r: String)
    ensures
        r@ == join(strings_view(lines@), seq!['\n']),
{
    let mut out = String::new();
    let mut i: usize = 0;
    while i < lines.len()
        invariant
            i <= lines.len(),
            out@ == join(strings_view(lines@).take(i as int), seq!['\n']),
        decreases lines.len() - i,
    {
        proof {
            let s = strings_view(lines@).take(i as int);
            assert(strings_view(lines@).take(i + 1) =~= s.push(lines@[i as int]@));
            assert(s.push(lines@[i as int]@).drop_last() =~= s);
        }
        if i > 0 {
            out.push('\n');
        }
        out.push_str(lines[i].as_str());
        i = i + 1;
    }
    assert(strings_view(lines@).take(lines.len() as int) =~= strings_view(lines@));
    out
}

fn same_text(a: &str, b: &str) -> (r: bool)
    ensures
        r == (a@ == b@),
{
    a.to_owned() == b.to_owned()
}

/// Rewrites inbound wikilinks in a raw note body after a title change:
/// `[[Old]]` and `[[Old|alias]]` become `[[New]]` and `[[New|alias]]`,
/// matched case-insensitively; everything else is kept as the author wrote
/// it, and so is text in fenced or indented code and in code spans.
pub fn rewrite_wikilink_targets(body: &str, old_title: &str, new_title: &str) -> (r: String)
    ensures
        r@ == rewrite_v(body@, old_title@, new_title@),
{
    if same_text(old_title, new_title) {
        return body.to_owned();
    }
    let low_old = to_lowercase(old_title);
    let old_len = old_title.as_bytes().len();
    let lines = split_char(body, '\n');
    let ghost all = split_on(body@, '\n');
    let ghost lo = lowercase(old_title@);
    let mut state = FenceState { inside: false, marker: None };
    let mut processed: Vec<String> = Vec::new();
    let mut i: usize = 0;
    assert(all.skip(0) =~= all);
    while i < lines.len()
        invariant
            i <= lines.len(),
            old_title@ != new_title@,
            processed@.len() == i,
            strings_view(lines@) == all,
            old_len == encode_utf8(old_title@).len(),
            low_old@ == lo,
            lo == lowercase(old_title@),
            all == split_on(body@, '\n'),
            rewrite_lines(all, FenceV { inside: false, marker: None }, lo, old_len as int, new_title@)
                == strings_view(processed@) + rewrite_lines(all.skip(i as int), fence_view(state), lo, old_len as int, new_title@),
        decreases lines.len() - i,
    {
        proof {
            assert(all.skip(i as int)[0] == lines@[i as int]@);
            assert(all.skip(i as int).drop_first() =~= all.skip(i + 1));
        }
        let l = rewrite_line(&mut state, lines[i].as_str(), low_old.as_str(), old_len, new_title);
        let ghost before = strings_view(processed@);
        processed.push(l);
        proof {
            assert(strings_view(processed@) =~= before.push(processed@[i as int]@));
            let rest = rewrite_lines(all.skip(i + 1), fence_view(state), lo, old_len as int, new_title@);
            assert(before + (seq![processed@[i as int]@] + rest) =~= before.push(processed@[i as int]@) + rest);
        }
        i = i + 1;
    }
    assert(all.skip(i as int).len() == 0);
    assert(strings_view(processed@) + Seq::<Seq<char>>::empty() =~= strings_view(processed@));
    join_lines(&processed)
}

} // verus!
