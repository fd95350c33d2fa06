//! Penumbra's own inline syntax inside markdown text runs: `[[note]]`
//! embeds and `#tag` references.
use vstd::prelude::*;
use crate::markdown::ast::{Inline, InlineV, inlines_view, inline_view, lemma_inlines_view_push};
use crate::text::{alphanumeric, chars_of, is_whitespace, is_ws, string_of_range};

verus! {

/// Where `find_closing_bracket` stops: scanning from `i` with `depth` open
/// `[[`, a `[[` opens one more, a `]]` closes one, and the `]]` that closes
/// the last is the answer.
pub open spec fn closing_from(c: Seq<char>, i: int, depth: int) -> Option<int>
    decreases c.len() + 2 - i,
{
    if i < 0 || i >= c.len() {
        None
    } else if c[i] == '[' && i + 1 < c.len() && c[i + 1] == '[' {
        closing_from(c, i + 2, depth + 1)
    } else if c[i] == ']' {
        if i + 1 < c.len() && c[i + 1] == ']' {
            if depth - 1 == 0 {
                Some(i)
            } else {
                closing_from(c, i + 2, depth - 1)
            }
        } else {
            closing_from(c, i + 1, depth)
        }
    } else {
        closing_from(c, i + 1, depth)
    }
}

/// Characters that may continue a tag name.
pub open spec fn is_tag_char(ch: char) -> bool {
    alphanumeric(ch) || ch == '-' || ch == '_' || ch == '/'
}

/// The end of the run of tag characters starting at `i`.
pub open spec fn tag_end_from(c: Seq<char>, i: int) -> int
    decreases c.len() - i,
{
    if 0 <= i < c.len() && is_tag_char(c[i]) {
        tag_end_from(c, i + 1)
    } else {
        i
    }
}

/// Characters after which a `#` may open a tag.
pub open spec fn is_boundary_char(ch: char) -> bool {
    ch == ' ' || ch == '\t' || ch == '\n' || ch == '\x0C' || ch == '\r' || ch == '(' || ch == '['
        || ch == ',' || ch == '.' || ch == '!' || ch == '?' || ch == ':' || ch == ';'
}

/// A `[[ref]]` embed with a non-empty reference starts at `i`.
pub open spec fn embed_at(c: Seq<char>, i: int) -> bool {
    &&& 0 <= i
    &&& i + 1 < c.len()
    &&& c[i] == '['
    &&& c[i + 1] == '['
    &&& closing_from(c, i + 2, 1) is Some
    &&& closing_from(c, i + 2, 1)->0 > i + 2
}

/// A `#tag` reference starts at `i`.
pub open spec fn tag_at(c: Seq<char>, i: int) -> bool {
    &&& 0 <= i
    &&& i + 1 < c.len()
    &&& c[i] == '#'
    &&& (i == 0 || is_boundary_char(c[i - 1]))
    &&& !is_ws(c[i + 1])
    &&& c[i + 1] != '#'
    &&& tag_end_from(c, i + 1) > i + 1
}

pub open spec fn text_part(buf: Seq<char>) -> Seq<InlineV> {
    if buf.len() > 0 {
        seq![InlineV::Text(buf)]
    } else {
        Seq::empty()
    }
}

/// The inlines that the scan of `c` produces from position `i` on, with
/// `buf` holding plain characters gathered since the last embed or tag.
pub open spec fn split_from(c: Seq<char>, i: int, buf: Seq<char>) -> Seq<InlineV>
    decreases c.len() + 2 - i,
{
    if i < 0 || i >= c.len() {
        text_part(buf)
    } else if embed_at(c, i) {
        let end = closing_from(c, i + 2, 1)->0;
        if i < end && end <= c.len() {
            text_part(buf) + seq![InlineV::NoteEmbed(c.subrange(i + 2, end))] + split_from(
                c,
                end + 2,
                Seq::empty(),
            )
        } else {
            Seq::empty()
        }
    } else if tag_at(c, i) {
        let end = tag_end_from(c, i + 1);
        if i < end && end <= c.len() {
            text_part(buf) + seq![InlineV::TagRef(c.subrange(i + 1, end))] + split_from(
                c,
                end,
                Seq::empty(),
            )
        } else {
            Seq::empty()
        }
    } else {
        split_from(c, i + 1, buf.push(c[i]))
    }
}

/// The inlines that a text run splits into.
pub open spec fn split_custom(text: Seq<char>) -> Seq<InlineV> {
    split_from(text, 0, Seq::empty())
}

pub proof fn lemma_closing_from_bounds(c: Seq<char>, i: int, depth: int)
    ensures
        closing_from(c, i, depth) matches Some(e) ==> i <= e && e + 1 < c.len() && c[e] == ']'
            && c[e + 1] == ']',
    decreases c.len() + 2 - i,
{
    if i < 0 || i >= c.len() {
    } else if c[i] == '[' && i + 1 < c.len() && c[i + 1] == '[' {
        lemma_closing_from_bounds(c, i + 2, depth + 1);
    } else if c[i] == ']' {
        if i + 1 < c.len() && c[i + 1] == ']' {
            if depth - 1 != 0 {
                lemma_closing_from_bounds(c, i + 2, depth - 1);
            }
        } else {
            lemma_closing_from_bounds(c, i + 1, depth);
        }
    } else {
        lemma_closing_from_bounds(c, i + 1, depth);
    }
}

pub proof fn lemma_tag_end_bounds(c: Seq<char>, i: int)
    requires
        0 <= i,
    ensures
        i <= tag_end_from(c, i),
        i <= c.len() ==> tag_end_from(c, i) <= c.len(),
    decreases c.len() - i,
{
    if 0 <= i < c.len() && is_tag_char(c[i]) {
        lemma_tag_end_bounds(c, i + 1);
    }
}

/// Whether a character may precede a tag's `#`.
pub fn is_tag_boundary(ch: char) -> (r: bool)
    ensures
        r == is_boundary_char(ch),
{
    ch == ' ' || ch == '\t' || ch == '\n' || ch == '\x0C' || ch == '\r' || ch == '(' || ch == '['
        || ch == ',' || ch == '.' || ch == '!' || ch == '?' || ch == ':' || ch == ';'
}

/// The position of the `]]` that closes a `[[` whose reference starts at
/// `start`, honouring nested `[[ ]]` pairs.
pub fn find_closing_bracket(c: &Vec<char>, start: usize) -> (r: Option<usize>)
    ensures
        r matches Some(e) ==> closing_from(c@, start as int, 1) == Some(e as int),
        r is None ==> closing_from(c@, start as int, 1) is None,
{
    let mut depth: u64 = 1;
    let mut i = start;
    while i < c.len()
        invariant
            closing_from(c@, start as int, 1) == closing_from(c@, i as int, depth as int),
            1 <= depth,
            depth <= i + 1,
            i <= start + c.len() + 2,
        decreases c.len() + 2 - i,
    {
        if c[i] == '[' && i + 1 < c.len() && c[i + 1] == '[' {
            depth = depth + 1;
            i = i + 2;
        } else if c[i] == ']' {
            if i + 1 < c.len() && c[i + 1] == ']' {
                depth = depth - 1;
                if depth == 0 {
                    return Some(i);
                }
                i = i + 2;
            } else {
                i = i + 1;
            }
        } else {
            i = i + 1;
        }
    }
    None
}

/// The end of the tag name whose first character is at `start`.
pub fn find_tag_end(c: &Vec<char>, start: usize) -> (r: usize)
    requires
        start <= c.len(),
    ensures
        r as int == tag_end_from(c@, start as int),
        start <= r <= c.len(),
{
    let mut end = start;
    while end < c.len() && (c[end].is_alphanumeric() || c[end] == '-' || c[end] == '_' || c[end]
        == '/')
        invariant
            start <= end <= c.len(),
            tag_end_from(c@, start as int) == tag_end_from(c@, end as int),
        decreases c.len() - end,
    {
        end = end + 1;
    }
    end
}

fn push_text_part(result: &mut Vec<Inline>, buf: &mut Vec<char>)
    ensures
        inlines_view(final(result)@) == inlines_view(old(result)@) + text_part(old(buf)@),
        final(buf)@.len() == 0,
{
    if buf.len() > 0 {
        let t = string_of_range(buf, 0, buf.len());
        proof {
            lemma_inlines_view_push(result@, Inline::Text(t));
            assert(buf@.subrange(0, buf@.len() as int) =~= buf@);
        }
        result.push(Inline::Text(t));
        *buf = Vec::new();
    } else {
        assert(inlines_view(result@) + text_part(buf@) =~= inlines_view(result@));
    }
}

/// Splits a text run into plain text, `[[note]]` embeds and `#tag`
/// references.
pub fn split_text_for_custom(text: &str) -> (r: Vec<Inline>)
    ensures
        inlines_view(r@) == split_custom(text@),
{
    let c = chars_of(text);
    let mut result: Vec<Inline> = Vec::new();
    let mut buf: Vec<char> = Vec::new();
    let mut i: usize = 0;
    while i < c.len()
        invariant
            i <= c.len(),
            inlines_view(result@) + split_from(c@, i as int, buf@) == split_custom(c@),
        decreases c.len() - i,
    {
        let ghost old_result = result@;
        let ghost old_buf = buf@;
        let ghost old_i = i as int;
        let mut advanced = false;
        if c[i] == '[' && i + 1 < c.len() && c[i + 1] == '[' {
            let found = find_closing_bracket(&c, i + 2);
            proof {
                lemma_closing_from_bounds(c@, i + 2, 1);
            }
            if let Some(end) = found {
                if end > i + 2 {
                    assert(embed_at(c@, i as int));
                    push_text_part(&mut result, &mut buf);
                    let r = string_of_range(&c, i + 2, end);
                    proof {
                        lemma_inlines_view_push(result@, Inline::NoteEmbed { note_ref: r });
                    }
                    result.push(Inline::NoteEmbed { note_ref: r });
                    i = end + 2;
                    advanced = true;
                    proof {
                        assert(buf@ =~= Seq::<char>::empty());
                        assert(split_from(c@, old_i, old_buf) == text_part(old_buf) + seq![
                            InlineV::NoteEmbed(c@.subrange(old_i + 2, end as int))] + split_from(
                            c@, end + 2, Seq::empty()));
                        assert(inlines_view(result@) + split_from(c@, i as int, buf@) =~= inlines_view(old_result)
                            + split_from(c@, old_i, old_buf));
                    }
                }
            }
        }
        if !advanced && c[i] == '#' && (i == 0 || is_tag_boundary(c[i - 1])) && i + 1 < c.len()
            && !is_whitespace(c[i + 1]) && c[i + 1] != '#' {
            let tag_end = find_tag_end(&c, i + 1);
            if tag_end > i + 1 {
                assert(!embed_at(c@, i as int));
                assert(tag_at(c@, i as int));
                push_text_part(&mut result, &mut buf);
                let r = string_of_range(&c, i + 1, tag_end);
                proof {
                    lemma_inlines_view_push(result@, Inline::TagRef { name: r });
                }
                result.push(Inline::TagRef { name: r });
                i = tag_end;
                advanced = true;
                proof {
                    assert(buf@ =~= Seq::<char>::empty());
                    assert(split_from(c@, old_i, old_buf) == text_part(old_buf) + seq![
                        InlineV::TagRef(c@.subrange(old_i + 1, tag_end as int))] + split_from(
                        c@, tag_end as int, Seq::empty()));
                    assert(inlines_view(result@) + split_from(c@, i as int, buf@) =~= inlines_view(old_result)
                        + split_from(c@, old_i, old_buf));
                }
            }
        }
        if !advanced {
            proof {
                assert(!embed_at(c@, i as int));
                assert(!tag_at(c@, i as int));
            }
            buf.push(c[i]);
            i = i + 1;
        }
    }
    proof {
        assert(split_from(c@, i as int, buf@) == text_part(buf@));
    }
    push_text_part(&mut result, &mut buf);
    assert(inlines_view(result@) =~= split_custom(c@));
    result
}

} // verus!
