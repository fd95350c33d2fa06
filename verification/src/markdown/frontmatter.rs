//! The framing of a note file's YAML frontmatter block: where the block
//! starts and ends, and what is body. Decoding the YAML itself is left to
//! the caller.
use vstd::prelude::*;
use crate::error::PenumbraError;
use crate::markdown::render::markdown::join;
use crate::text::{lines, lines_of, strings_view, trim_end, trim_end_seq};

verus! {

/// A note file cut at its frontmatter fences.
pub struct NoteFileParts {
    /// The text between the fences, trailing whitespace trimmed; `None` when
    /// the file has no frontmatter block.
    pub yaml: Option<String>,
    /// The markdown after the block (the whole text when there is none).
    pub body: String,
}

pub open spec fn strip_bom(t: Seq<char>) -> Seq<char> {
    if t.len() > 0 && t[0] == '\u{feff}' {
        t.drop_first()
    } else {
        t
    }
}

/// Whether a line is a frontmatter fence (`---`, trailing whitespace allowed).
pub open spec fn is_fence(line: Seq<char>) -> bool {
    trim_end_seq(line) == "---"@
}

/// Each line followed by a newline, run together.
pub open spec fn lines_with_newlines(ls: Seq<Seq<char>>) -> Seq<char>
    decreases ls.len(),
{
    if ls.len() == 0 {
        Seq::empty()
    } else {
        lines_with_newlines(ls.drop_last()) + ls.last().push('\n')
    }
}

/// The index of the first fence line at or after `i`.
pub open spec fn closing_fence(ls: Seq<Seq<char>>, i: int) -> Option<int>
    decreases ls.len() - i,
{
    if i < 0 || i >= ls.len() {
        None
    } else if is_fence(ls[i]) {
        Some(i)
    } else {
        closing_fence(ls, i + 1)
    }
}

/// The parts of a note file (a leading byte-order mark dropped), `None`
/// when a frontmatter block opens and never closes.
pub open spec fn note_parts_v(text: Seq<char>) -> Option<(Option<Seq<char>>, Seq<char>)> {
    let t = strip_bom(text);
    let ls = lines_of(t);
    if ls.len() == 0 || !is_fence(ls[0]) {
        Some((None, t))
    } else {
        match closing_fence(ls, 1) {
            None => None,
            Some(k) => {
                let inner = trim_end_seq(lines_with_newlines(ls.subrange(1, k)));
                let joined = join(ls.subrange(k + 1, ls.len() as int), seq!['\n']);
                let body = if joined.len() == 0 {
                    joined
                } else {
                    joined.push('\n')
                };
                Some((Some(inner), body))
            },
        }
    }
}

proof fn lemma_closing_fence_bounds(ls: Seq<Seq<char>>, i: int)
    ensures
        closing_fence(ls, i) matches Some(k) ==> i <= k < ls.len() && is_fence(ls[k]),
    decreases ls.len() - i,
{
    if 0 <= i < ls.len() && !is_fence(ls[i]) {
        lemma_closing_fence_bounds(ls, i + 1);
    }
}

fn is_fence_line(line: &String) -> (r: bool)
    ensures
        r == is_fence(line@),
{
    let t = trim_end(line.as_str());
    let fence = "---".to_owned();
    t == fence
}

/// Splits a note file into its frontmatter text and its body. A file that
/// does not open with a `---` line has no frontmatter and is all body; a
/// block that opens and never closes is an error.
pub fn split_note_file(text: &str) -> (r: Result<NoteFileParts, PenumbraError>)
    ensures
        match note_parts_v(text@) {
            None => r matches Err(e) && e is Markdown,
            Some((yaml, body)) => r matches Ok(p) && crate::markdown::ast::opt_str_view(p.yaml) == yaml
                && p.body@ == body,
        },
{
    let v = crate::text::chars_of(text);
    let t: String = if v.len() > 0 && v[0] == '\u{feff}' {
        let s = crate::text::string_of_range(&v, 1, v.len());
        assert(v@.subrange(1, v@.len() as int) =~= v@.drop_first());
        s
    } else {
        text.to_owned()
    };
    assert(t@ == strip_bom(text@));
    let ls = lines(t.as_str());
    let ghost lsv = strings_view(ls@);
    assert(lsv.len() == ls@.len());
    if ls.len() == 0 || !is_fence_line(&ls[0]) {
        return Ok(NoteFileParts { yaml: None, body: t });
    }
    let mut k: usize = 1;
    while k < ls.len() && !is_fence_line(&ls[k])
        invariant
            1 <= k <= ls.len(),
            lsv == strings_view(ls@),
            closing_fence(lsv, k as int) == closing_fence(lsv, 1),
        decreases ls.len() - k,
    {
        k = k + 1;
    }
    if k == ls.len() {
        return Err(PenumbraError::Markdown("unterminated frontmatter block".to_owned()));
    }
    let mut inner = String::new();
    let mut i: usize = 1;
    while i < k
        invariant
            1 <= i <= k < ls.len(),
            lsv == strings_view(ls@),
            inner@ == lines_with_newlines(lsv.subrange(1, i as int)),
        decreases k - i,
    {
        proof {
            assert(lsv.subrange(1, i + 1).drop_last() =~= lsv.subrange(1, i as int));
        }
        inner.push_str(ls[i].as_str());
        inner.push('\n');
        i = i + 1;
    }
    let yaml = trim_end(inner.as_str());
    let mut body = String::new();
    let mut j: usize = k + 1;
    while j < ls.len()
        invariant
            k < j <= ls.len(),
            lsv == strings_view(ls@),
            body@ == join(lsv.subrange(k + 1, j as int), seq!['\n']),
        decreases ls.len() - j,
    {
        proof {
            let s = lsv.subrange(k + 1, j as int);
            assert(lsv.subrange(k + 1, j + 1) =~= s.push(lsv[j as int]));
            assert(s.push(lsv[j as int]).drop_last() =~= s);
        }
        if j > k + 1 {
            body.push('\n');
        }
        body.push_str(ls[j].as_str());
        j = j + 1;
    }
    if !body.as_str().is_empty() {
        body.push('\n');
    }
    Ok(NoteFileParts { yaml: Some(yaml), body })
}

/// The fenced frontmatter block for a YAML text that ends with a newline:
/// `---`, the text, `---`, each fence on a line of its own.
pub fn frame_frontmatter(yaml: &str) -> (r: String)
    ensures
        r@ == "---\n"@ + yaml@ + "---\n"@,
{
    let mut out = String::new();
    out.push_str("---\n");
    out.push_str(yaml);
    out.push_str("---\n");
    out
}

/// Whether a flag is off: off flags are left out of the frontmatter.
pub fn is_false(value: &bool) -> (r: bool)
    ensures
        r == !*value,
{
    !*value
}

} // verus!
