//! What the editor shows: a snapshot of each block, which one is active,
//! and the caret.
use vstd::prelude::*;
use crate::editor::cursor::Cursor;
use crate::editor::doc::{BlockId, BlockKind, Document, StyledSpan, push_spans, span_view, spans_view};
use crate::markdown::ast::kind_view;

verus! {

/// One block as the view shows it.
#[derive(Debug)]
pub struct BlockSnapshot {
    pub id: BlockId,
    pub kind: BlockKind,
    pub spans: Vec<StyledSpan>,
    pub source_range: (usize, usize),
    pub is_active: bool,
}

#[derive(Debug)]
pub struct ViewModel {
    blocks: Vec<BlockSnapshot>,
    cursor: Cursor,
}

/// The index of the first active snapshot at or after `i`.
pub open spec fn first_active(s: Seq<BlockSnapshot>, i: int) -> Option<int>
    decreases s.len() - i,
{
    if i < 0 || i >= s.len() {
        None
    } else if s[i].is_active {
        Some(i)
    } else {
        first_active(s, i + 1)
    }
}

proof fn lemma_first_active_bounds(s: Seq<BlockSnapshot>, i: int)
    ensures
        first_active(s, i) matches Some(k) ==> i <= k < s.len() && s[k].is_active,
    decreases s.len() - i,
{
    if 0 <= i < s.len() && !s[i].is_active {
        lemma_first_active_bounds(s, i + 1);
    }
}

impl ViewModel {
    pub closed spec fn snapshots(&self) -> Seq<BlockSnapshot> {
        self.blocks@
    }

    pub closed spec fn caret(&self) -> Cursor {
        self.cursor
    }

    /// A snapshot of every block of the document, the block with the given
    /// identity marked active.
    pub fn from_doc(doc: &Document, active_block: Option<BlockId>, cursor: Cursor) -> (v: ViewModel)
        ensures
            v.caret() == cursor,
            v.snapshots().len() == doc.blocks@.len(),
            forall|i: int| 0 <= i < doc.blocks@.len() ==> {
                let s = #[trigger] v.snapshots()[i];
                let b = doc.blocks@[i];
                &&& s.id == b.id
                &&& kind_view(s.kind) == kind_view(b.kind)
                &&& spans_view(s.spans@) == spans_view(b.spans@)
                &&& s.source_range == b.source_range
                &&& s.is_active == (active_block == Some(b.id))
            },
    {
        let mut blocks: Vec<BlockSnapshot> = Vec::new();
        let mut i: usize = 0;
        while i < doc.blocks.len()
            invariant
                i <= doc.blocks.len(),
                blocks@.len() == i,
                forall|j: int| 0 <= j < i ==> {
                    let s = #[trigger] blocks@[j];
                    let b = doc.blocks@[j];
                    &&& s.id == b.id
                    &&& kind_view(s.kind) == kind_view(b.kind)
                    &&& spans_view(s.spans@) == spans_view(b.spans@)
                    &&& s.source_range == b.source_range
                    &&& s.is_active == (active_block == Some(b.id))
                },
            decreases doc.blocks.len() - i,
        {
            let b = &doc.blocks[i];
            let mut spans: Vec<StyledSpan> = Vec::new();
            let mut j: usize = 0;
            while j < b.spans.len()
                invariant
                    j <= b.spans.len(),
                    spans_view(spans@) == spans_view(b.spans@.take(j as int)),
                decreases b.spans.len() - j,
            {
                push_spans(&mut spans, b.spans[j].duplicate());
                assert(spans_view(b.spans@.take(j + 1)) =~= spans_view(b.spans@.take(j as int)).push(span_view(b.spans@[j as int])));
                j = j + 1;
            }
            assert(b.spans@.take(b.spans.len() as int) =~= b.spans@);
            let is_active = match active_block {
                Some(a) => a == b.id,
                None => false,
            };
            blocks.push(BlockSnapshot { id: b.id, kind: b.kind.duplicate(), spans, source_range: b.source_range, is_active });
            i = i + 1;
        }
        ViewModel { blocks, cursor }
    }

    pub fn blocks(&self) -> (r: &[BlockSnapshot])
        ensures
            r@ == self.snapshots(),
    {
        self.blocks.as_slice()
    }

    pub fn cursor(&self) -> (r: &Cursor)
        ensures
            *r == self.caret(),
    {
        &self.cursor
    }

    /// The identity of the first active block.
    pub fn active_block(&self) -> (r: Option<BlockId>)
        ensures
            match first_active(self.snapshots(), 0) {
                Some(k) => r == Some(self.snapshots()[k].id),
                None => r is None,
            },
    {
        let mut i: usize = 0;
        while i < self.blocks.len()
            invariant
                i <= self.blocks.len(),
                first_active(self.blocks@, i as int) == first_active(self.blocks@, 0),
            decreases self.blocks.len() - i,
        {
            if self.blocks[i].is_active {
                return Some(self.blocks[i].id);
            }
            i = i + 1;
        }
        None
    }
}

} // verus!
