//! The caret and the selection, as byte offsets into the source.
use vstd::prelude::*;

verus! {

/// A caret position.
#[derive(Debug, Clone, Copy)]
pub struct Cursor {
    offset: usize,
}

/// Moving left: one step back, stopping at the start.
pub open spec fn left_of(offset: nat) -> nat {
    if offset == 0 {
        0
    } else {
        (offset - 1) as nat
    }
}

/// Moving right within a source of `len` bytes: one step on, stopping at the end.
pub open spec fn right_of(offset: nat, len: nat) -> nat {
    if offset < len {
        offset + 1
    } else {
        offset
    }
}

impl View for Cursor {
    type V = nat;

    closed spec fn view(&self) -> nat {
        self.offset as nat
    }
}

impl Cursor {
    pub fn new(offset: usize) -> (c: Cursor)
        ensures
            c@ == offset,
    {
        Cursor { offset }
    }

    pub fn offset(&self) -> (r: usize)
        ensures
            r == self@,
    {
        self.offset
    }

    pub fn set_offset(&mut self, n: usize)
        ensures
            final(self)@ == n,
    {
        self.offset = n;
    }

    pub fn move_left(&mut self)
        ensures
            final(self)@ == left_of(old(self)@),
    {
        self.offset = self.offset.saturating_sub(1);
    }

    pub fn move_right(&mut self, source_len: usize)
        ensures
            final(self)@ == right_of(old(self)@, source_len as nat),
            final(self)@ <= usize::MAX,
    {
        if self.offset < source_len {
            self.offset = self.offset + 1;
        }
    }

    pub fn at_start(&self) -> (r: bool)
        ensures
            r == (self@ == 0),
    {
        self.offset == 0
    }

    pub fn at_end(&self, source_len: usize) -> (r: bool)
        ensures
            r == (self@ >= source_len),
    {
        self.offset >= source_len
    }
}

/// A step right followed by a step left comes back, away from the end.
pub proof fn lemma_left_undoes_right(offset: nat, len: nat)
    requires
        offset < len,
    ensures
        left_of(right_of(offset, len)) == offset,
{
}

/// A step left followed by a step right comes back, away from the start.
pub proof fn lemma_right_undoes_left(offset: nat, len: nat)
    requires
        0 < offset <= len,
    ensures
        right_of(left_of(offset), len) == offset,
{
}

/// A caret never leaves the source by moving right: it stays at or before
/// the end, or where it was.
pub proof fn lemma_right_stays_in(offset: nat, len: nat)
    requires
        offset <= len,
    ensures
        right_of(offset, len) <= len,
{
}

/// A selection from `anchor` (where it started) to `head` (where it ends).
#[derive(Debug, Clone, Copy, PartialEq, Eq, Structural)]
pub struct Selection {
    pub anchor: usize,
    pub head: usize,
}

/// The ordered bounds of a selection.
pub open spec fn range_of(s: Selection) -> (usize, usize) {
    if s.anchor <= s.head {
        (s.anchor, s.head)
    } else {
        (s.head, s.anchor)
    }
}

pub open spec fn inverted(s: Selection) -> Selection {
    Selection { anchor: s.head, head: s.anchor }
}

impl Selection {
    pub fn new(anchor: usize, head: usize) -> (s: Selection)
        ensures
            s.anchor == anchor,
            s.head == head,
    {
        Selection { anchor, head }
    }

    pub fn collapsed(&self) -> (r: bool)
        ensures
            r == (self.anchor == self.head),
    {
        self.anchor == self.head
    }

    /// The selection's bounds, smaller first.
    pub fn range(&self) -> (r: (usize, usize))
        ensures
            r == range_of(*self),
    {
        if self.anchor <= self.head {
            (self.anchor, self.head)
        } else {
            (self.head, self.anchor)
        }
    }

    /// The same span, started from the other end.
    pub fn invert(&self) -> (r: Selection)
        ensures
            r == inverted(*self),
    {
        Selection { anchor: self.head, head: self.anchor }
    }
}

/// Inverting twice gives the selection back; inverting keeps the range;
/// a range is ordered and spans the selection's two ends; a selection is
/// collapsed exactly when its range is empty.
pub proof fn lemma_selection_laws(s: Selection)
    ensures
        inverted(inverted(s)) == s,
        range_of(inverted(s)) == range_of(s),
        range_of(s).0 <= range_of(s).1,
        (range_of(s).0 == s.anchor && range_of(s).1 == s.head) || (range_of(s).0 == s.head
            && range_of(s).1 == s.anchor),
        (s.anchor == s.head) <==> (range_of(s).0 == range_of(s).1),
{
}

} // verus!
