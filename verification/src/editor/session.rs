//! A block-editing session over one note body, with bounded undo and redo.
use vstd::prelude::*;
use vstd::string::StringSliceAdditionalSpecFns;
use vstd::utf8::{decode_utf8, encode_utf8, is_char_boundary};
use crate::editor::doc::{
    BlockKind, Document, EdBlockV, block_end_from, block_range_v, converted, parsed_or_empty, ranges_from,
    scan_from, source_extents,
};
use crate::markdown::ast::{BlockV, kind_view};
use crate::markdown::render::markdown::{join, separator};
use crate::text::{
    char_pred, chars_of, drop_while_end, is_whitespace, is_ws, lines, lines_of, string_of, string_of_range,
    strings_view, trim, trim_end, trim_end_char, trim_end_seq, trim_seq, trim_start, trim_start_seq,
    lemma_after_newline_boundary, lemma_boundary_within, lemma_encode_concat,
};

verus! {

/// The number of undo snapshots a session keeps.
const HISTORY_LIMIT: usize = 64;

/// One editable block: its markdown kind and its raw source text, trailing
/// blank separator lines stripped.
#[derive(Debug)]
pub struct BlockEdit {
    pub kind: BlockKind,
    pub text: String,
}

pub struct EditV {
    pub kind: BlockV,
    pub text: Seq<char>,
}

pub open spec fn edit_view(e: BlockEdit) -> EditV {
    EditV { kind: kind_view(e.kind), text: e.text@ }
}

pub open spec fn edits_view(s: Seq<BlockEdit>) -> Seq<EditV> {
    s.map_values(|e: BlockEdit| edit_view(e))
}

pub open spec fn stack_view(s: Seq<(Vec<BlockEdit>, usize)>) -> Seq<(Seq<EditV>, nat)> {
    s.map_values(|p: (Vec<BlockEdit>, usize)| (edits_view(p.0@), p.1 as nat))
}

impl BlockEdit {
    /// A copy of the block.
    pub fn duplicate(&self) -> (r: BlockEdit)
        ensures
            edit_view(r) == edit_view(*self),
    {
        BlockEdit { kind: self.kind.duplicate(), text: self.text.clone() }
    }
}

fn copy_edits(v: &Vec<BlockEdit>) -> (r: Vec<BlockEdit>)
    ensures
        edits_view(r@) == edits_view(v@),
{
    let mut out: Vec<BlockEdit> = Vec::new();
    let mut i: usize = 0;
    while i < v.len()
        invariant
            i <= v.len(),
            edits_view(out@) == edits_view(v@.take(i as int)),
        decreases v.len() - i,
    {
        let e = v[i].duplicate();
        let ghost before = out@;
        out.push(e);
        assert(edits_view(out@) =~= edits_view(before).push(edit_view(e)));
        assert(edits_view(v@.take(i + 1)) =~= edits_view(v@.take(i as int)).push(edit_view(v@[i as int])));
        i = i + 1;
    }
    assert(v@.take(v.len() as int) =~= v@);
    out
}

/// How a block is edited.
#[derive(Debug, Clone, Copy, PartialEq, Eq, Structural)]
pub enum BlockMode {
    /// Prose: rendered as markdown, edited line by line, Enter splits.
    Prose,
    /// Headings are single-line; Enter drops the tail into a paragraph.
    Heading,
    /// Raw source edited verbatim, Enter inserts a newline.
    Raw,
}

pub open spec fn mode_v(k: BlockV) -> BlockMode {
    match k {
        BlockV::Heading(..) => BlockMode::Heading,
        BlockV::CodeBlock(..) => BlockMode::Raw,
        _ => BlockMode::Prose,
    }
}

/// The edit mode of a block kind.
pub fn mode_of_kind(kind: &BlockKind) -> (r: BlockMode)
    ensures
        r == mode_v(kind_view(*kind)),
{
    match kind {
        BlockKind::Heading { .. } => BlockMode::Heading,
        BlockKind::CodeBlock { .. } => BlockMode::Raw,
        _ => BlockMode::Prose,
    }
}

fn mode_of_block(block: &BlockEdit) -> (r: BlockMode)
    ensures
        r == mode_v(edit_view(*block).kind),
{
    mode_of_kind(&block.kind)
}

// ---------------------------------------------------------------------------
// The session as a value, and what each operation does to it.

pub struct SessionV {
    pub blocks: Seq<EditV>,
    pub active: nat,
    pub undo: Seq<(Seq<EditV>, nat)>,
    pub redo: Seq<(Seq<EditV>, nat)>,
}

/// Whether an active index names one of the blocks, or is 0 when there are
/// none.
pub open spec fn names_block(blocks: Seq<EditV>, active: nat) -> bool {
    if blocks.len() == 0 {
        active == 0
    } else {
        active < blocks.len()
    }
}

/// Whether a saved state's active index names one of its blocks.
pub open spec fn saved_wf(p: (Seq<EditV>, nat)) -> bool {
    names_block(p.0, p.1)
}

/// The active index of every state, current or saved, names one of its
/// blocks (or is 0 where there are none).
pub open spec fn session_wf(s: SessionV) -> bool {
    &&& names_block(s.blocks, s.active)
    &&& forall|i: int| 0 <= i < s.undo.len() ==> saved_wf(#[trigger] s.undo[i])
    &&& forall|i: int| 0 <= i < s.redo.len() ==> saved_wf(#[trigger] s.redo[i])
}

/// The undo stack with the current state saved on it, the oldest entry
/// dropped past the limit.
pub open spec fn snapshot_v(s: SessionV) -> Seq<(Seq<EditV>, nat)> {
    let u = s.undo.push((s.blocks, s.active));
    if u.len() > 64 {
        u.subrange(1, u.len() as int)
    } else {
        u
    }
}

/// An edit that saved the state before it: new blocks and active index,
/// nothing left to redo.
pub open spec fn edited(s: SessionV, blocks: Seq<EditV>, active: nat) -> SessionV {
    SessionV { blocks, active, undo: snapshot_v(s), redo: Seq::empty() }
}

/// The lines that are not blank.
pub open spec fn nonblank(ls: Seq<Seq<char>>) -> Seq<Seq<char>>
    decreases ls.len(),
{
    if ls.len() == 0 {
        Seq::empty()
    } else if trim_seq(ls.last()).len() > 0 {
        nonblank(ls.drop_last()).push(ls.last())
    } else {
        nonblank(ls.drop_last())
    }
}

/// Editor text as a block of this kind stores it: code keeps its lines but
/// not its trailing whitespace; other blocks keep their non-blank lines.
pub open spec fn normalize_v(k: BlockV, text: Seq<char>) -> Seq<char> {
    if k is CodeBlock {
        trim_end_seq(text)
    } else {
        join(nonblank(lines_of(text)), seq!['\n'])
    }
}

pub open spec fn apply_text_v(s: SessionV, text: Seq<char>) -> SessionV {
    if s.blocks.len() == 0 {
        s
    } else {
        let b = s.blocks[s.active as int];
        let n = normalize_v(b.kind, text);
        if b.text == n {
            s
        } else {
            edited(s, s.blocks.update(s.active as int, EditV { kind: b.kind, text: n }), s.active)
        }
    }
}

pub open spec fn byte_len(t: Seq<char>) -> nat {
    encode_utf8(t).len()
}

/// The index of the first character at or after `k` that starts at or
/// after byte `b`; the end of the text when there is none.
pub open spec fn char_at_byte(t: Seq<char>, b: int, k: int) -> int
    decreases t.len() - k,
{
    if k < 0 || k >= t.len() {
        t.len() as int
    } else if byte_len(t.take(k)) >= b {
        k
    } else {
        char_at_byte(t, b, k + 1)
    }
}

pub open spec fn remove_v(s: SessionV) -> SessionV {
    if s.blocks.len() == 0 {
        s
    } else {
        let nb = s.blocks.remove(s.active as int);
        edited(
            s,
            nb,
            if nb.len() == 0 {
                0
            } else if s.active <= nb.len() - 1 {
                s.active
            } else {
                (nb.len() - 1) as nat
            },
        )
    }
}

pub open spec fn split_v(s: SessionV, byte_offset: nat) -> SessionV {
    if s.blocks.len() == 0 {
        s
    } else {
        let index = s.active as int;
        let b = s.blocks[index];
        if trim_seq(b.text).len() == 0 {
            remove_v(s)
        } else if byte_offset == 0 {
            edited(s, s.blocks.insert(index, EditV { kind: BlockV::Paragraph(Seq::empty()), text: Seq::empty() }), s.active)
        } else {
            let k = char_at_byte(b.text, byte_offset as int, 0);
            let left = trim_end_seq(b.text.take(k));
            let right = trim_start_seq(b.text.skip(k));
            let tail_kind = match b.kind {
                BlockV::Heading(..) => BlockV::Paragraph(Seq::empty()),
                BlockV::Table(..) => BlockV::Paragraph(Seq::empty()),
                other => other,
            };
            if left.len() == 0 && right.len() == 0 {
                s
            } else {
                edited(
                    s,
                    s.blocks.update(index, EditV { kind: b.kind, text: left }).insert(
                        index + 1,
                        EditV { kind: tail_kind, text: right },
                    ),
                    s.active + 1,
                )
            }
        }
    }
}

/// The text joining a block to the previous one when merging: prose to
/// prose joins with a space unless either side is empty or the previous
/// text already ends in whitespace; anything else joins with a newline.
pub open spec fn merge_separator(prev: EditV, dragged: EditV) -> Seq<char> {
    if mode_v(prev.kind) == BlockMode::Prose && mode_v(dragged.kind) == BlockMode::Prose {
        if prev.text.len() == 0 || trim_seq(dragged.text).len() == 0 || is_ws(prev.text.last()) {
            Seq::empty()
        } else {
            seq![' ']
        }
    } else {
        seq!['\n']
    }
}

/// Merging the active block into the previous one; the state before the
/// merge is saved for undo.
pub open spec fn merge_v(s: SessionV) -> SessionV {
    if s.active == 0 || s.blocks.len() == 0 {
        s
    } else {
        let index = s.active as int;
        let dragged = s.blocks[index];
        let removed = s.blocks.remove(index);
        let prev = removed[index - 1];
        let merged = prev.text + merge_separator(prev, dragged) + trim_start_seq(dragged.text);
        SessionV {
            blocks: removed.update(index - 1, EditV { kind: prev.kind, text: merged }),
            active: (index - 1) as nat,
            undo: snapshot_v(s),
            redo: Seq::empty(),
        }
    }
}

pub open spec fn undo_v(s: SessionV) -> (SessionV, Option<nat>) {
    if s.undo.len() == 0 {
        (s, None)
    } else {
        let (b, a) = s.undo.last();
        (SessionV { blocks: b, active: a, undo: s.undo.drop_last(), redo: s.redo.push((s.blocks, s.active)) }, Some(a))
    }
}

pub open spec fn redo_v(s: SessionV) -> (SessionV, Option<nat>) {
    if s.redo.len() == 0 {
        (s, None)
    } else {
        let (b, a) = s.redo.last();
        (SessionV { blocks: b, active: a, undo: s.undo.push((s.blocks, s.active)), redo: s.redo.drop_last() }, Some(a))
    }
}

pub open spec fn opt_nat(r: Option<usize>) -> Option<nat> {
    match r {
        Some(a) => Some(a as nat),
        None => None,
    }
}

pub open spec fn set_active_v(s: SessionV, index: nat) -> SessionV {
    let top: nat = if s.blocks.len() == 0 {
        0
    } else {
        (s.blocks.len() - 1) as nat
    };
    SessionV { active: if index <= top { index } else { top }, ..s }
}

/// The markdown body of the blocks: each block's text without trailing
/// whitespace, separated as sibling blocks are.
pub open spec fn raw_body_v(bs: Seq<EditV>) -> Seq<char>
    decreases bs.len(),
{
    if bs.len() == 0 {
        Seq::empty()
    } else if bs.len() == 1 {
        trim_end_seq(bs[0].text)
    } else {
        raw_body_v(bs.drop_last()) + separator(bs[bs.len() - 2].kind, bs.last().kind) + trim_end_seq(bs.last().text)
    }
}

/// The editable text of a parsed block over the source, if it has one:
/// thematic breaks, empty ranges and ranges of newlines only have none.
pub open spec fn block_edit_v(src: Seq<char>, e: EdBlockV) -> Option<EditV> {
    if e.kind is ThematicBreak || e.range.0 >= e.range.1 {
        None
    } else {
        let text = drop_while_end(
            decode_utf8(encode_utf8(src).subrange(e.range.0, e.range.1)),
            char_pred('\n'),
        );
        if text.len() == 0 {
            None
        } else {
            Some(EditV { kind: e.kind, text })
        }
    }
}

pub open spec fn session_blocks_v(src: Seq<char>, eds: Seq<EdBlockV>) -> Seq<EditV>
    decreases eds.len(),
{
    if eds.len() == 0 {
        Seq::empty()
    } else {
        let r = session_blocks_v(src, eds.drop_last());
        match block_edit_v(src, eds.last()) {
            Some(e) => r.push(e),
            None => r,
        }
    }
}

// ---------------------------------------------------------------------------
// Laws.

/// Undoing an edit that saved its state before it restores the blocks and
/// the active index it started from; this holds of applying text,
/// splitting, removing and merging, each of which saves the state it
/// starts from.
pub proof fn lemma_undo_restores(s: SessionV, blocks: Seq<EditV>, active: nat)
    ensures
        undo_v(edited(s, blocks, active)).0.blocks == s.blocks,
        undo_v(edited(s, blocks, active)).0.active == s.active,
        undo_v(edited(s, blocks, active)).1 == Some(s.active),
{
    let u = s.undo.push((s.blocks, s.active));
    if u.len() > 64 {
        assert(u.subrange(1, u.len() as int).last() == u.last());
    }
}

/// Applying a changed text, splitting a block, removing one or merging one
/// into the previous, then undoing, gives back the blocks and active index
/// from before the edit.
pub proof fn lemma_undo_after_edit(s: SessionV, text: Seq<char>, byte_offset: nat)
    ensures
        apply_text_v(s, text) != s ==> undo_v(apply_text_v(s, text)).0.blocks == s.blocks
            && undo_v(apply_text_v(s, text)).0.active == s.active,
        split_v(s, byte_offset) != s ==> undo_v(split_v(s, byte_offset)).0.blocks == s.blocks
            && undo_v(split_v(s, byte_offset)).0.active == s.active,
        remove_v(s) != s ==> undo_v(remove_v(s)).0.blocks == s.blocks && undo_v(remove_v(s)).0.active
            == s.active,
        merge_v(s) != s ==> undo_v(merge_v(s)).0.blocks == s.blocks && undo_v(merge_v(s)).0.active
            == s.active,
{
    if s.active > 0 && s.blocks.len() > 0 {
        let index = s.active as int;
        let removed = s.blocks.remove(index);
        let prev = removed[index - 1];
        let merged = prev.text + merge_separator(prev, s.blocks[index]) + trim_start_seq(s.blocks[index].text);
        lemma_undo_restores(s, removed.update(index - 1, EditV { kind: prev.kind, text: merged }), (index - 1) as nat);
    }
    if s.blocks.len() > 0 {
        let b = s.blocks[s.active as int];
        lemma_undo_restores(s, s.blocks.update(s.active as int, EditV { kind: b.kind, text: normalize_v(b.kind, text) }), s.active);
        let nb = s.blocks.remove(s.active as int);
        lemma_undo_restores(
            s,
            nb,
            if nb.len() == 0 {
                0
            } else if s.active <= nb.len() - 1 {
                s.active
            } else {
                (nb.len() - 1) as nat
            },
        );
        lemma_undo_restores(s, s.blocks.insert(s.active as int, EditV { kind: BlockV::Paragraph(Seq::empty()), text: Seq::empty() }), s.active);
        let k = char_at_byte(b.text, byte_offset as int, 0);
        let tail_kind = match b.kind {
            BlockV::Heading(..) => BlockV::Paragraph(Seq::empty()),
            BlockV::Table(..) => BlockV::Paragraph(Seq::empty()),
            other => other,
        };
        lemma_undo_restores(
            s,
            s.blocks.update(s.active as int, EditV { kind: b.kind, text: trim_end_seq(b.text.take(k)) }).insert(
                s.active + 1 as int,
                EditV { kind: tail_kind, text: trim_start_seq(b.text.skip(k)) },
            ),
            s.active + 1,
        );
    }
}

/// Redoing right after an undo returns the session to where it was, and
/// undoing right after a redo likewise.
pub proof fn lemma_undo_redo_roundtrip(s: SessionV)
    ensures
        s.undo.len() > 0 ==> redo_v(undo_v(s).0).0 == s,
        s.redo.len() > 0 ==> undo_v(redo_v(s).0).0 == s,
{
    if s.undo.len() > 0 {
        assert(undo_v(s).0.redo.drop_last() =~= s.redo);
        assert(undo_v(s).0.undo.push((undo_v(s).0.blocks, undo_v(s).0.active)) =~= s.undo);
    }
    if s.redo.len() > 0 {
        assert(redo_v(s).0.undo.drop_last() =~= s.undo);
        assert(redo_v(s).0.redo.push((redo_v(s).0.blocks, redo_v(s).0.active)) =~= s.redo);
    }
}

/// Every operation keeps the session well formed.
pub proof fn lemma_operations_keep_wf(s: SessionV, text: Seq<char>, byte_offset: nat, index: nat)
    requires
        session_wf(s),
    ensures
        session_wf(apply_text_v(s, text)),
        session_wf(split_v(s, byte_offset)),
        session_wf(remove_v(s)),
        session_wf(merge_v(s)),
        session_wf(undo_v(s).0),
        session_wf(redo_v(s).0),
        session_wf(set_active_v(s, index)),
{
    lemma_snapshot_wf(s);
    if s.undo.len() > 0 {
        let u = undo_v(s).0;
        assert forall|i: int| 0 <= i < u.redo.len() implies saved_wf(#[trigger] u.redo[i]) by {
            if i < s.redo.len() {
                assert(u.redo[i] == s.redo[i]);
            }
        }
        assert(s.undo.last() == s.undo[s.undo.len() - 1]);
        assert(saved_wf(s.undo[s.undo.len() - 1]));
        assert forall|i: int| 0 <= i < u.undo.len() implies saved_wf(#[trigger] u.undo[i]) by {
            assert(u.undo[i] == s.undo[i]);
        }
    }
    if s.redo.len() > 0 {
        let r = redo_v(s).0;
        assert forall|i: int| 0 <= i < r.undo.len() implies saved_wf(#[trigger] r.undo[i]) by {
            if i < s.undo.len() {
                assert(r.undo[i] == s.undo[i]);
            }
        }
        assert(s.redo.last() == s.redo[s.redo.len() - 1]);
        assert(saved_wf(s.redo[s.redo.len() - 1]));
        assert forall|i: int| 0 <= i < r.redo.len() implies saved_wf(#[trigger] r.redo[i]) by {
            assert(r.redo[i] == s.redo[i]);
        }
    }
}

/// Saving a state never leaves more than 64 on the undo stack: the
/// current state is saved last, and past 64 the oldest goes.
pub proof fn lemma_snapshot_at_most_64(s: SessionV)
    requires
        s.undo.len() <= 64,
    ensures
        snapshot_v(s).len() <= 64,
        snapshot_v(s).len() == if s.undo.len() < 64 { s.undo.len() + 1 } else { 64 },
        snapshot_v(s).last() == (s.blocks, s.active),
{
    let u = s.undo.push((s.blocks, s.active));
    if u.len() > 64 {
        assert(u.subrange(1, u.len() as int).last() == u.last());
    }
}

/// The history never holds more than 64 states: if the undo and redo
/// stacks together hold at most 64, every operation keeps it so, and an
/// edit on a full undo stack drops its oldest state and saves the current
/// one last.
pub proof fn lemma_history_bounded(s: SessionV, text: Seq<char>, byte_offset: nat, index: nat)
    requires
        s.undo.len() + s.redo.len() <= 64,
    ensures
        apply_text_v(s, text).undo.len() + apply_text_v(s, text).redo.len() <= 64,
        split_v(s, byte_offset).undo.len() + split_v(s, byte_offset).redo.len() <= 64,
        remove_v(s).undo.len() + remove_v(s).redo.len() <= 64,
        merge_v(s).undo.len() + merge_v(s).redo.len() <= 64,
        undo_v(s).0.undo.len() + undo_v(s).0.redo.len() <= 64,
        redo_v(s).0.undo.len() + redo_v(s).0.redo.len() <= 64,
        set_active_v(s, index).undo.len() + set_active_v(s, index).redo.len() <= 64,
        s.undo.len() == 64 ==> snapshot_v(s) == s.undo.drop_first().push((s.blocks, s.active)),
{
    let u = s.undo.push((s.blocks, s.active));
    if s.undo.len() == 64 {
        assert(u.subrange(1, u.len() as int) =~= s.undo.drop_first().push((s.blocks, s.active)));
    }
}

proof fn lemma_snapshot_wf(s: SessionV)
    requires
        session_wf(s),
    ensures
        forall|i: int| 0 <= i < snapshot_v(s).len() ==> saved_wf(#[trigger] snapshot_v(s)[i]),
{
    let u = s.undo.push((s.blocks, s.active));
    assert forall|i: int| 0 <= i < u.len() implies saved_wf(#[trigger] u[i]) by {
        if i < s.undo.len() {
            assert(u[i] == s.undo[i]);
        }
    }
    if u.len() > 64 {
        let v = u.subrange(1, u.len() as int);
        assert forall|i: int| 0 <= i < v.len() implies saved_wf(#[trigger] v[i]) by {
            assert(v[i] == u[i + 1]);
        }
    }
}

// ---------------------------------------------------------------------------
// The session.

/// A full editing session over one note body.
pub struct EditorSession {
    state: SessionState,
}

/// The blocks, the active index and the two history stacks.
struct SessionState {
    blocks: Vec<BlockEdit>,
    active: usize,
    undo: Vec<(Vec<BlockEdit>, usize)>,
    redo: Vec<(Vec<BlockEdit>, usize)>,
}

impl EditorSession {
    /// Every session, and every state saved in its history, has an active
    /// index naming one of its blocks.
    #[verifier::type_invariant]
    spec fn well_formed(self) -> bool {
        session_wf(self@)
    }
}

impl View for EditorSession {
    type V = SessionV;

    closed spec fn view(&self) -> SessionV {
        self.state@
    }
}

impl View for SessionState {
    type V = SessionV;

    closed spec fn view(&self) -> SessionV {
        SessionV {
            blocks: edits_view(self.blocks@),
            active: self.active as nat,
            undo: stack_view(self.undo@),
            redo: stack_view(self.redo@),
        }
    }
}

fn char_width(c: char) -> (r: usize)
    ensures
        r == encode_utf8(seq![c]).len(),
        1 <= r <= 4,
{
    let u = c as u32;
    assert(encode_utf8(seq![c]) =~= vstd::utf8::encode_scalar(c as u32) + encode_utf8(seq![c].drop_first()));
    assert(encode_utf8(seq![c].drop_first()).len() == 0);
    if u <= 0x7f {
        1
    } else if u <= 0x7ff {
        2
    } else if u <= 0xffff {
        3
    } else {
        4
    }
}

/// The index of the first character that starts at or after byte `b`, or
/// the end of the text.
fn char_index_at_byte(v: &Vec<char>, b: usize) -> (k: usize)
    requires
        byte_len(v@) <= usize::MAX,
    ensures
        k == char_at_byte(v@, b as int, 0),
        k <= v.len(),
{
    let mut k: usize = 0;
    let mut pos: usize = 0;
    assert(v@.take(0) =~= Seq::<char>::empty());
    while k < v.len()
        invariant
            k <= v.len(),
            byte_len(v@) <= usize::MAX,
            pos == byte_len(v@.take(k as int)),
            char_at_byte(v@, b as int, k as int) == char_at_byte(v@, b as int, 0),
        decreases v.len() - k,
    {
        if pos >= b {
            return k;
        }
        let w = char_width(v[k]);
        proof {
            assert(v@.take(k + 1) =~= v@.take(k as int) + seq![v@[k as int]]);
            lemma_encode_concat(v@.take(k as int), seq![v@[k as int]]);
            assert(v@ =~= v@.take(k + 1) + v@.skip(k + 1));
            lemma_encode_concat(v@.take(k + 1), v@.skip(k + 1));
        }
        pos = pos + w;
        k = k + 1;
    }
    k
}

/// Editor text as a block of this kind stores it.
fn normalize_for_edit(kind: &BlockKind, text: &str) -> (r: String)
    ensures
        r@ == normalize_v(kind_view(*kind), text@),
{
    match kind {
        BlockKind::CodeBlock { .. } => trim_end(text),
        _ => {
            let ls = lines(text);
            let ghost all = lines_of(text@);
            let mut normalized = String::new();
            let mut i: usize = 0;
            while i < ls.len()
                invariant
                    i <= ls.len(),
                    strings_view(ls@) == all,
                    normalized@ == join(nonblank(all.take(i as int)), seq!['\n']),
                    nonblank(all.take(i as int)).len() == 0 <==> normalized@.len() == 0,
                decreases ls.len() - i,
            {
                let line = &ls[i];
                proof {
                    assert(all[i as int] == line@);
                    assert(all.take(i + 1).drop_last() =~= all.take(i as int));
                }
                let t = trim(line.as_str());
                if !t.as_str().is_empty() {
                    let ghost kept = nonblank(all.take(i as int));
                    proof {
                        assert(kept.push(line@).drop_last() =~= kept);
                        lemma_nonblank_nonempty(all.take(i as int));
                    }
                    if !normalized.as_str().is_empty() {
                        normalized.push('\n');
                    }
                    normalized.push_str(line.as_str());
                    proof {
                        if kept.len() == 0 {
                            assert(normalized@ =~= line@);
                        }
                        assert(line@.len() > 0) by {
                            if line@.len() == 0 {
                                assert(trim_seq(line@) =~= Seq::<char>::empty());
                            }
                        }
                    }
                }
                i = i + 1;
            }
            assert(all.take(ls.len() as int) =~= all);
            normalized
        },
    }
}

proof fn lemma_nonblank_nonempty(ls: Seq<Seq<char>>)
    ensures
        forall|j: int| 0 <= j < nonblank(ls).len() ==> #[trigger] nonblank(ls)[j].len() > 0,
    decreases ls.len(),
{
    if ls.len() > 0 {
        lemma_nonblank_nonempty(ls.drop_last());
        let r = nonblank(ls.drop_last());
        if trim_seq(ls.last()).len() > 0 {
            assert(ls.last().len() > 0) by {
                if ls.last().len() == 0 {
                    assert(trim_seq(ls.last()) =~= Seq::<char>::empty());
                }
            }
            assert forall|j: int| 0 <= j < r.push(ls.last()).len() implies #[trigger] r.push(ls.last())[j].len() > 0 by {
                if j < r.len() {
                    assert(r.push(ls.last())[j] == r[j]);
                }
            }
        }
    }
}



proof fn lemma_block_end_shape(b: Seq<u8>, end: int)
    requires
        0 <= end <= b.len(),
    ensures
        end <= block_end_from(b, end) <= b.len(),
        block_end_from(b, end) == b.len() || (block_end_from(b, end) >= 1 && b[block_end_from(b, end) - 1] == 0x0au8),
    decreases b.len() - end,
{
    if end < b.len() && !(b[end] == 0x0au8 && end + 1 < b.len() && b[end + 1] == 0x0au8) {
        lemma_block_end_shape(b, end + 1);
    }
}

/// Every range of consecutive blocks over a source starts and ends on a
/// character boundary, in order, within the source.
proof fn lemma_ranges_on_boundaries(b: Seq<u8>, exts: Seq<(int, int)>, i: int, n: nat, offset: int)
    requires
        vstd::utf8::valid_utf8(b),
        0 <= offset <= b.len(),
        is_char_boundary(b, offset),
    ensures
        forall|k: int| 0 <= k < ranges_from(b, exts, i, n, offset).len() ==> {
            let r = #[trigger] ranges_from(b, exts, i, n, offset)[k];
            &&& 0 <= r.0 <= r.1 <= b.len()
            &&& is_char_boundary(b, r.0)
            &&& is_char_boundary(b, r.1)
        },
    decreases n,
{
    if n > 0 {
        let r = block_range_v(b, exts, i, offset);
        vstd::utf8::is_char_boundary_start_end_of_seq(b);
        if offset < b.len() {
            let from = scan_from(b, exts, i, offset);
            lemma_block_end_shape(b, from);
            if block_end_from(b, from) < b.len() {
                lemma_after_newline_boundary(b, block_end_from(b, from));
            }
        }
        lemma_ranges_on_boundaries(b, exts, i + 1, (n - 1) as nat, r.1);
        let all = ranges_from(b, exts, i, n, offset);
        let rest = ranges_from(b, exts, i + 1, (n - 1) as nat, r.1);
        assert forall|k: int| 0 <= k < all.len() implies {
            let q = #[trigger] all[k];
            &&& 0 <= q.0 <= q.1 <= b.len()
            &&& is_char_boundary(b, q.0)
            &&& is_char_boundary(b, q.1)
        } by {
            if k > 0 {
                assert(all[k] == rest[k - 1]);
            }
        }
    }
}

/// The editable block for a parsed block, if it has one.
fn block_edit(doc: &Document, block: &crate::editor::doc::Block) -> (r: Option<BlockEdit>)
    requires
        block.source_range.0 <= block.source_range.1 <= encode_utf8(doc.source@).len(),
        is_char_boundary(encode_utf8(doc.source@), block.source_range.0 as int),
        is_char_boundary(encode_utf8(doc.source@), block.source_range.1 as int),
    ensures
        match block_edit_v(doc.source@, crate::editor::doc::ed_block_view(*block)) {
            Some(e) => r matches Some(x) && edit_view(x) == e,
            None => r is None,
        },
{
    if matches!(block.kind, BlockKind::ThematicBreak) {
        return None;
    }
    let (start, end) = block.source_range;
    if start >= end {
        return None;
    }
    let source = doc.source.as_str();
    let (upto, _) = source.split_at(end);
    assert(upto.spec_bytes() =~= encode_utf8(doc.source@).subrange(0, end as int));
    proof {
        vstd::utf8::encode_utf8_valid_utf8(doc.source@);
        vstd::utf8::valid_utf8_split(encode_utf8(doc.source@), end as int);
        lemma_boundary_within(encode_utf8(doc.source@), start as int, end as int);
    }
    let (_, piece) = upto.split_at(start);
    proof {
        assert(piece.spec_bytes() =~= encode_utf8(doc.source@).subrange(start as int, end as int));
        vstd::utf8::encode_utf8_decode_utf8(piece@);
    }
    let text = trim_end_char(piece, '\n');
    if text.as_str().is_empty() {
        return None;
    }
    Some(BlockEdit { kind: block.kind.duplicate(), text })
}


/// The operations on the bare state. An `EditorSession` takes its state
/// out, applies one of them, and puts the result back under its invariant.
impl SessionState {
    fn set_active(&mut self, index: usize)
        ensures
            final(self)@ == set_active_v(old(self)@, index as nat),
            session_wf(old(self)@) ==> session_wf(final(self)@),
    {
        proof {
            if session_wf(self@) {
                lemma_operations_keep_wf(self@, Seq::empty(), 0, index as nat);
            }
        }
        let top = if self.blocks.len() == 0 {
            0
        } else {
            self.blocks.len() - 1
        };
        self.active = if index <= top {
            index
        } else {
            top
        };
    }

    fn snapshot(&mut self)
        ensures
            final(self)@ == (SessionV { undo: snapshot_v(old(self)@), ..old(self)@ }),
    {
        let saved = copy_edits(&self.blocks);
        let ghost before = self.undo@;
        self.undo.push((saved, self.active));
        assert(stack_view(self.undo@) =~= stack_view(before).push((edits_view(self.blocks@), self.active as nat)));
        if self.undo.len() > HISTORY_LIMIT {
            let ghost full = self.undo@;
            self.undo.remove(0);
            assert(stack_view(self.undo@) =~= stack_view(full).subrange(1, full.len() as int));
        }
    }

    fn clear_redo(&mut self)
        ensures
            final(self)@ == (SessionV { redo: Seq::empty(), ..old(self)@ }),
    {
        self.redo.clear();
        assert(stack_view(self.redo@) =~= Seq::<(Seq<EditV>, nat)>::empty());
    }

    fn apply_active_text(&mut self, text: &str)
        requires
            session_wf(old(self)@),
        ensures
            session_wf(final(self)@),
            final(self)@ == apply_text_v(old(self)@, text@),
    {
        proof {
            lemma_operations_keep_wf(self@, text@, 0, 0);
        }
        if self.blocks.len() == 0 {
            return;
        }
        let normalized = normalize_for_edit(&self.blocks[self.active].kind, text);
        if self.blocks[self.active].text == normalized {
            return;
        }
        self.snapshot();
        let ghost mid = self.blocks@;
        let kind = self.blocks[self.active].kind.duplicate();
        self.blocks.set(self.active, BlockEdit { kind, text: normalized });
        assert(edits_view(self.blocks@) =~= edits_view(mid).update(
            self.active as int,
            EditV { kind: edits_view(mid)[self.active as int].kind, text: normalize_v(edits_view(mid)[self.active as int].kind, text@) },
        ));
        self.clear_redo();
    }

    fn split_active_at(&mut self, byte_offset: usize)
        requires
            session_wf(old(self)@),
        ensures
            session_wf(final(self)@),
            final(self)@ == split_v(old(self)@, byte_offset as nat),
    {
        proof {
            lemma_operations_keep_wf(self@, Seq::empty(), byte_offset as nat, 0);
        }
        if self.blocks.len() == 0 {
            return;
        }
        let index = self.active;
        let t = trim(self.blocks[index].text.as_str());
        if t.as_str().is_empty() {
            self.remove_active();
            return;
        }
        if byte_offset == 0 {
            self.snapshot();
            let ghost mid = self.blocks@;
            self.blocks.insert(index, BlockEdit { kind: BlockKind::Paragraph(Vec::new()), text: String::new() });
            assert(edits_view(self.blocks@) =~= edits_view(mid).insert(
                index as int,
                EditV { kind: BlockV::Paragraph(Seq::empty()), text: Seq::empty() },
            ));
            self.active = index;
            self.clear_redo();
            return;
        }
        let source = chars_of(self.blocks[index].text.as_str());
        let total = self.blocks[index].text.as_str().as_bytes().len();
        assert(total == byte_len(source@));
        let k = char_index_at_byte(&source, byte_offset);
        let head = string_of_range(&source, 0, k);
        let tail = string_of_range(&source, k, source.len());
        assert(head@ =~= source@.take(k as int));
        assert(tail@ =~= source@.skip(k as int));
        let kind = self.blocks[index].kind.duplicate();
        let tail_kind = match &kind {
            BlockKind::Heading { .. } => BlockKind::Paragraph(Vec::new()),
            BlockKind::Table(_) => BlockKind::Paragraph(Vec::new()),
            _ => kind.duplicate(),
        };
        let left_text = trim_end(head.as_str());
        let right_text = trim_start(tail.as_str());
        if left_text.as_str().is_empty() && right_text.as_str().is_empty() {
            return;
        }
        self.snapshot();
        let ghost mid = self.blocks@;
        self.blocks.set(index, BlockEdit { kind, text: left_text });
        let ghost mid2 = self.blocks@;
        self.blocks.insert(index + 1, BlockEdit { kind: tail_kind, text: right_text });
        assert(edits_view(mid2) =~= edits_view(mid).update(index as int, edit_view(mid2[index as int])));
        assert(edits_view(self.blocks@) =~= edits_view(mid2).insert(index + 1, edit_view(self.blocks@[index + 1])));
        self.active = index + 1;
        self.clear_redo();
    }

    fn remove_active(&mut self)
        requires
            session_wf(old(self)@),
        ensures
            session_wf(final(self)@),
            final(self)@ == remove_v(old(self)@),
    {
        proof {
            lemma_operations_keep_wf(self@, Seq::empty(), 0, 0);
        }
        if self.blocks.len() == 0 {
            return;
        }
        self.snapshot();
        let ghost mid = self.blocks@;
        self.blocks.remove(self.active);
        assert(edits_view(self.blocks@) =~= edits_view(mid).remove(self.active as int));
        if self.blocks.len() == 0 {
            self.active = 0;
        } else if self.active > self.blocks.len() - 1 {
            self.active = self.blocks.len() - 1;
        }
        self.clear_redo();
    }

    fn merge_into_previous(&mut self)
        requires
            session_wf(old(self)@),
        ensures
            session_wf(final(self)@),
            final(self)@ == merge_v(old(self)@),
    {
        proof {
            lemma_operations_keep_wf(self@, Seq::empty(), 0, 0);
        }
        if self.active == 0 || self.blocks.len() == 0 {
            return;
        }
        let index = self.active;
        self.snapshot();
        let ghost full = self.blocks@;
        let dragged = self.blocks.remove(index);
        assert(edits_view(self.blocks@) =~= edits_view(full).remove(index as int));
        let both_prose = mode_of_kind(&self.blocks[index - 1].kind) == BlockMode::Prose
            && mode_of_kind(&dragged.kind) == BlockMode::Prose;
        let prev_text = self.blocks[index - 1].text.as_str();
        let separator: &str = if both_prose {
            let pv = chars_of(prev_text);
            let ends_ws = pv.len() > 0 && is_whitespace(pv[pv.len() - 1]);
            let d = trim(dragged.text.as_str());
            if prev_text.is_empty() || d.as_str().is_empty() || ends_ws {
                ""
            } else {
                " "
            }
        } else {
            "\n"
        };
        proof {
            reveal_strlit("");
            reveal_strlit(" ");
            reveal_strlit("\n");
            assert(""@ =~= Seq::<char>::empty());
            assert(" "@ =~= seq![' ']);
            assert("\n"@ =~= seq!['\n']);
        }
        let mut merged = self.blocks[index - 1].text.clone();
        merged.push_str(separator);
        let rest = trim_start(dragged.text.as_str());
        merged.push_str(rest.as_str());
        let kind = self.blocks[index - 1].kind.duplicate();
        let ghost mid = self.blocks@;
        self.blocks.set(index - 1, BlockEdit { kind, text: merged });
        assert(edits_view(self.blocks@) =~= edits_view(mid).update(index - 1, edit_view(self.blocks@[index - 1])));
        self.active = index - 1;
        self.clear_redo();
    }

    fn undo(&mut self) -> (r: Option<usize>)
        ensures
            (final(self)@, opt_nat(r)) == undo_v(old(self)@),
            session_wf(old(self)@) ==> session_wf(final(self)@),
    {
        proof {
            if session_wf(self@) {
                lemma_operations_keep_wf(self@, Seq::empty(), 0, 0);
            }
        }
        match self.undo.pop() {
            Some(entry) => {
                proof {
                    assert(stack_view(self.undo@) =~= stack_view(old(self).undo@).drop_last());
                    assert(stack_view(old(self).undo@).last() == (edits_view(entry.0@), entry.1 as nat));
                }
                let (blocks, active) = entry;
                let ghost old_redo = self.redo@;
                let mut current = blocks;
                std::mem::swap(&mut self.blocks, &mut current);
                self.redo.push((current, self.active));
                assert(stack_view(self.redo@) =~= stack_view(old_redo).push((edits_view(current@), self.active as nat)));
                self.active = active;
                Some(active)
            },
            None => None,
        }
    }

    fn redo(&mut self) -> (r: Option<usize>)
        ensures
            (final(self)@, opt_nat(r)) == redo_v(old(self)@),
            session_wf(old(self)@) ==> session_wf(final(self)@),
    {
        proof {
            if session_wf(self@) {
                lemma_operations_keep_wf(self@, Seq::empty(), 0, 0);
            }
        }
        match self.redo.pop() {
            Some(entry) => {
                proof {
                    assert(stack_view(self.redo@) =~= stack_view(old(self).redo@).drop_last());
                    assert(stack_view(old(self).redo@).last() == (edits_view(entry.0@), entry.1 as nat));
                }
                let (blocks, active) = entry;
                let ghost old_undo = self.undo@;
                let mut current = blocks;
                std::mem::swap(&mut self.blocks, &mut current);
                self.undo.push((current, self.active));
                assert(stack_view(self.undo@) =~= stack_view(old_undo).push((edits_view(current@), self.active as nat)));
                self.active = active;
                Some(active)
            },
            None => None,
        }
    }
}

impl EditorSession {
    /// Parses a markdown body into an editable block session: each parsed
    /// block but thematic breaks, with its source text less trailing
    /// newlines, where that text is not empty.
    pub fn new(source: &str) -> (s: EditorSession)
        ensures
            session_wf(s@),
            s@.blocks == session_blocks_v(
                source@,
                converted(parsed_or_empty(source@), encode_utf8(source@), source_extents(source@)),
            ),
            s@.active == 0,
            s@.undo.len() == 0,
            s@.redo.len() == 0,
    {
        let doc = Document::new(source);
        let ghost eds = doc.blocks_v();
        proof {
            let b = encode_utf8(source@);
            vstd::utf8::encode_utf8_valid_utf8(source@);
            vstd::utf8::is_char_boundary_start_end_of_seq(b);
            let n = parsed_or_empty(source@).len();
            lemma_ranges_on_boundaries(b, source_extents(source@), 0, n, 0);
            assert forall|j: int| 0 <= j < eds.len() implies {
                let r = #[trigger] eds[j].range;
                &&& 0 <= r.0 <= r.1 <= b.len()
                &&& is_char_boundary(b, r.0)
                &&& is_char_boundary(b, r.1)
            } by {
                crate::editor::doc::lemma_ranges_len(b, source_extents(source@), 0, n, 0);
                assert(eds[j].range == ranges_from(b, source_extents(source@), 0, n, 0)[j]);
            }
        }
        let mut blocks: Vec<BlockEdit> = Vec::new();
        let mut i: usize = 0;
        while i < doc.blocks.len()
            invariant
                i <= doc.blocks.len(),
                doc.source@ == source@,
                eds == doc.blocks_v(),
                eds == converted(parsed_or_empty(source@), encode_utf8(source@), source_extents(source@)),
                forall|j: int| 0 <= j < eds.len() ==> {
                    let r = #[trigger] eds[j].range;
                    &&& 0 <= r.0 <= r.1 <= encode_utf8(source@).len()
                    &&& is_char_boundary(encode_utf8(source@), r.0)
                    &&& is_char_boundary(encode_utf8(source@), r.1)
                },
                edits_view(blocks@) == session_blocks_v(source@, eds.take(i as int)),
            decreases doc.blocks.len() - i,
        {
            proof {
                assert(eds[i as int] == crate::editor::doc::ed_block_view(doc.blocks@[i as int]));
                assert(eds[i as int].range == eds[i as int].range);
                assert(eds.take(i + 1).drop_last() =~= eds.take(i as int));
                assert(eds.take(i + 1).last() == eds[i as int]);
            }
            match block_edit(&doc, &doc.blocks[i]) {
                Some(e) => {
                    let ghost before = blocks@;
                    blocks.push(e);
                    assert(edits_view(blocks@) =~= edits_view(before).push(edit_view(e)));
                },
                None => {},
            }
            i = i + 1;
        }
        assert(eds.take(doc.blocks.len() as int) =~= eds);
        let st = SessionState { blocks, active: 0, undo: Vec::new(), redo: Vec::new() };
        assert(stack_view(st.undo@) =~= Seq::<(Seq<EditV>, nat)>::empty());
        assert(stack_view(st.redo@) =~= Seq::<(Seq<EditV>, nat)>::empty());
        EditorSession { state: st }
    }

    /// Takes the state out, leaving an empty session in its place.
    fn take_state(&mut self) -> (st: SessionState)
        ensures
            st@ == old(self)@,
            session_wf(st@),
    {
        proof {
            use_type_invariant(&*self);
        }
        let empty = SessionState { blocks: Vec::new(), active: 0, undo: Vec::new(), redo: Vec::new() };
        assert(stack_view(empty.undo@) =~= Seq::<(Seq<EditV>, nat)>::empty());
        let mut taken = EditorSession { state: empty };
        std::mem::swap(self, &mut taken);
        let EditorSession { state } = taken;
        state
    }

    /// The blocks in document order.
    pub fn blocks(&self) -> (r: &[BlockEdit])
        ensures
            edits_view(r@) == self@.blocks,
    {
        self.state.blocks.as_slice()
    }

    /// The index of the block being edited.
    pub fn active(&self) -> (r: usize)
        ensures
            r == self@.active,
    {
        self.state.active
    }

    /// The editing mode of the active block (prose when there is none).
    pub fn active_mode(&self) -> (r: BlockMode)
        ensures
            r == if self@.active < self@.blocks.len() {
                mode_v(self@.blocks[self@.active as int].kind)
            } else {
                BlockMode::Prose
            },
    {
        if self.state.active < self.state.blocks.len() {
            mode_of_block(&self.state.blocks[self.state.active])
        } else {
            BlockMode::Prose
        }
    }

    /// Whether the active block is a code block; false when there is no
    /// active block.
    pub fn active_is_code(&self) -> (r: bool)
        ensures
            r == (self@.active < self@.blocks.len() && self@.blocks[self@.active as int].kind is CodeBlock),
    {
        self.state.active < self.state.blocks.len() && matches!(self.state.blocks[self.state.active].kind, BlockKind::CodeBlock { .. })
    }

    /// True when the session holds no blocks at all.
    pub fn is_empty(&self) -> (r: bool)
        ensures
            r == (self@.blocks.len() == 0),
    {
        self.state.blocks.len() == 0
    }

    pub fn can_undo(&self) -> (r: bool)
        ensures
            r == (self@.undo.len() > 0),
    {
        self.state.undo.len() > 0
    }

    pub fn can_redo(&self) -> (r: bool)
        ensures
            r == (self@.redo.len() > 0),
    {
        self.state.redo.len() > 0
    }

    /// The full markdown body the session serializes to.
    pub fn raw_body(&self) -> (r: String)
        ensures
            r@ == raw_body_v(self@.blocks),
    {
        let mut out = String::new();
        let ghost bs = self@.blocks;
        let mut i: usize = 0;
        while i < self.state.blocks.len()
            invariant
                i <= self.state.blocks.len(),
                bs == edits_view(self.state.blocks@),
                out@ == raw_body_v(bs.take(i as int)),
            decreases self.state.blocks.len() - i,
        {
            proof {
                assert(bs.take(i + 1).drop_last() =~= bs.take(i as int));
                assert(bs.take(i + 1).last() == bs[i as int]);
                if i > 0 {
                    assert(bs.take(i + 1)[i - 1] == bs[i - 1]);
                }
            }
            if i > 0 {
                let previous = &self.state.blocks[i - 1];
                let same_list = matches!(previous.kind, BlockKind::List { .. })
                    && matches!(self.state.blocks[i].kind, BlockKind::List { .. });
                proof {
                    reveal_strlit("\n");
                    assert("\n"@ =~= seq!['\n']);
                }
                out.push_str(if same_list { "\n" } else { "\n\n" });
            }
            let t = trim_end(self.state.blocks[i].text.as_str());
            out.push_str(t.as_str());
            i = i + 1;
        }
        assert(bs.take(self.state.blocks.len() as int) =~= bs);
        out
    }

    /// The heading level of the active block, 0 when it is not a heading or
    /// there is no active block.
    pub fn active_heading_level(&self) -> (r: u8)
        ensures
            r == if self@.active < self@.blocks.len() {
                match self@.blocks[self@.active as int].kind {
                    BlockV::Heading(level, _) => level,
                    _ => 0,
                }
            } else {
                0
            },
    {
        if self.state.active >= self.state.blocks.len() {
            return 0;
        }
        match &self.state.blocks[self.state.active].kind {
            BlockKind::Heading { level, .. } => *level,
            _ => 0,
        }
    }

    /// The heading level of a block, 0 when it is not a heading or there is
    /// no such block.
    pub fn heading_level(&self, index: usize) -> (r: u8)
        ensures
            r == if index < self@.blocks.len() {
                match self@.blocks[index as int].kind {
                    BlockV::Heading(level, _) => level,
                    _ => 0,
                }
            } else {
                0
            },
    {
        if index < self.state.blocks.len() {
            match &self.state.blocks[index].kind {
                BlockKind::Heading { level, .. } => *level,
                _ => 0,
            }
        } else {
            0
        }
    }

    /// Makes the block at `index` active, clamped to the last block.
    pub fn set_active(&mut self, index: usize)
        ensures
            session_wf(final(self)@),
            final(self)@ == set_active_v(old(self)@, index as nat),
    {
        let mut st = self.take_state();
        st.set_active(index);
        *self = EditorSession { state: st };
    }

    /// Commits the text shown in the active editor, normalized for the
    /// block's kind; an unchanged text is not an edit.
    pub fn apply_active_text(&mut self, text: &str)
        ensures
            session_wf(final(self)@),
            final(self)@ == apply_text_v(old(self)@, text@),
    {
        let mut st = self.take_state();
        st.apply_active_text(text);
        *self = EditorSession { state: st };
    }

    /// Splits the active block at a UTF-8 byte offset (moved forward to
    /// the next character start) into two blocks; a blank block is removed
    /// instead, and offset 0 inserts an empty paragraph before it.
    pub fn split_active_at(&mut self, byte_offset: usize)
        ensures
            session_wf(final(self)@),
            final(self)@ == split_v(old(self)@, byte_offset as nat),
    {
        let mut st = self.take_state();
        st.split_active_at(byte_offset);
        *self = EditorSession { state: st };
    }

    /// Removes the active block; the active index stays, clamped to the
    /// last block.
    pub fn remove_active(&mut self)
        ensures
            session_wf(final(self)@),
            final(self)@ == remove_v(old(self)@),
    {
        let mut st = self.take_state();
        st.remove_active();
        *self = EditorSession { state: st };
    }

    /// Merges the active block into the previous one and makes that one
    /// active.
    pub fn merge_into_previous(&mut self)
        ensures
            session_wf(final(self)@),
            final(self)@ == merge_v(old(self)@),
    {
        let mut st = self.take_state();
        st.merge_into_previous();
        *self = EditorSession { state: st };
    }

    /// Undoes the last edit, returning the active index it lands on.
    pub fn undo(&mut self) -> (r: Option<usize>)
        ensures
            session_wf(final(self)@),
            (final(self)@, opt_nat(r)) == undo_v(old(self)@),
    {
        let mut st = self.take_state();
        let r = st.undo();
        *self = EditorSession { state: st };
        r
    }

    /// Redoes the last undone edit, returning the active index it lands on.
    pub fn redo(&mut self) -> (r: Option<usize>)
        ensures
            session_wf(final(self)@),
            (final(self)@, opt_nat(r)) == redo_v(old(self)@),
    {
        let mut st = self.take_state();
        let r = st.redo();
        *self = EditorSession { state: st };
        r
    }
}

} // verus!
