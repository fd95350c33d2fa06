//! Editing commands over a note's markdown source, and the journal that
//! records them for undo and redo.
use vstd::prelude::*;
use vstd::string::StringSliceAdditionalSpecFns;
use vstd::utf8::{decode_utf8, encode_utf8, is_char_boundary};
use crate::markdown::ast::BlockId;
use crate::text::{chars_of, decimal, decimal_string, string_of_range, lemma_decode_halves, lemma_encode_concat};

verus! {

/// Why a command could not be applied.
#[derive(Debug, Clone, PartialEq, Eq)]
pub enum CommandError {
    /// An offset past the end of the source: the offset and the length.
    OffsetOutOfBounds(usize, usize),
    BlockNotFound(String),
    /// A range that is empty, reversed or past the end.
    InvalidRange(usize, usize),
}

impl CommandError {
    /// The human-readable form of the error.
    pub fn message(&self) -> (r: String)
        ensures
            r@ == match *self {
                CommandError::OffsetOutOfBounds(o, l) => "offset "@ + decimal(o as nat) + " out of bounds (len "@
                    + decimal(l as nat) + ")"@,
                CommandError::BlockNotFound(b) => "block "@ + b@ + " not found"@,
                CommandError::InvalidRange(f, t) => "invalid range "@ + decimal(f as nat) + ".."@ + decimal(t as nat),
            },
    {
        let mut out = String::new();
        match self {
            CommandError::OffsetOutOfBounds(o, l) => {
                out.push_str("offset ");
                out.push_str(decimal_string(*o as u64).as_str());
                out.push_str(" out of bounds (len ");
                out.push_str(decimal_string(*l as u64).as_str());
                out.push_str(")");
            },
            CommandError::BlockNotFound(b) => {
                out.push_str("block ");
                out.push_str(b.as_str());
                out.push_str(" not found");
            },
            CommandError::InvalidRange(f, t) => {
                out.push_str("invalid range ");
                out.push_str(decimal_string(*f as u64).as_str());
                out.push_str("..");
                out.push_str(decimal_string(*t as u64).as_str());
            },
        }
        out
    }
}

/// An inline style a block can be given.
#[derive(Debug, Clone, Copy, PartialEq, Eq, Structural)]
pub enum BlockMark {
    Bold,
    Italic,
    Strikethrough,
    Code,
}

pub open spec fn markers_v(m: BlockMark) -> Seq<char> {
    match m {
        BlockMark::Bold => "**"@,
        BlockMark::Italic => "*"@,
        BlockMark::Strikethrough => "~~"@,
        BlockMark::Code => "`"@,
    }
}

impl BlockMark {
    /// The markdown delimiter of the style.
    pub fn markers(&self) -> (r: &'static str)
        ensures
            r@ == markers_v(*self),
    {
        match self {
            BlockMark::Bold => "**",
            BlockMark::Italic => "*",
            BlockMark::Strikethrough => "~~",
            BlockMark::Code => "`",
        }
    }
}

/// An edit of the source; offsets count UTF-8 bytes.
#[derive(Debug, Clone)]
pub enum Command {
    InsertText { at: usize, text: String },
    DeleteRange { from: usize, to: usize },
    SplitBlock { at: usize },
    MergeBlocks { first: BlockId },
    SetMark { block: BlockId, mark: BlockMark },
    MoveCursor { to: usize },
}

impl Command {
    /// A copy of the command.
    pub fn duplicate(&self) -> (r: Command)
        ensures
            r == *self,
    {
        match self {
            Command::InsertText { at, text } => Command::InsertText { at: *at, text: text.clone() },
            Command::DeleteRange { from, to } => Command::DeleteRange { from: *from, to: *to },
            Command::SplitBlock { at } => Command::SplitBlock { at: *at },
            Command::MergeBlocks { first } => Command::MergeBlocks { first: *first },
            Command::SetMark { block, mark } => Command::SetMark { block: *block, mark: *mark },
            Command::MoveCursor { to } => Command::MoveCursor { to: *to },
        }
    }
}

// ---------------------------------------------------------------------------
// The journal.

/// What undoing at `position` gives: the new position and the command to
/// revert, if any.
pub open spec fn undo_step(history: Seq<Command>, position: nat) -> (nat, Option<Command>) {
    if position == 0 {
        (position, None)
    } else {
        ((position - 1) as nat, Some(history[position - 1]))
    }
}

/// What redoing at `position` gives: the new position and the command to
/// apply again, if any.
pub open spec fn redo_step(history: Seq<Command>, position: nat) -> (nat, Option<Command>) {
    if position >= history.len() {
        (position, None)
    } else {
        (position + 1, Some(history[position as int]))
    }
}

/// The commands applied so far, with a position that undo moves back and
/// redo forward.
#[derive(Debug)]
pub struct Journal {
    commands: Vec<Command>,
    pointer: usize,
}

impl Journal {
    #[verifier::type_invariant]
    spec fn inv(&self) -> bool {
        self.pointer <= self.commands@.len()
    }

    /// The recorded commands, oldest first.
    pub closed spec fn history(&self) -> Seq<Command> {
        self.commands@
    }

    /// How many of the recorded commands are in effect.
    pub closed spec fn position(&self) -> nat {
        self.pointer as nat
    }

    pub fn new() -> (j: Journal)
        ensures
            j.history() == Seq::<Command>::empty(),
            j.position() == 0,
    {
        Journal { commands: Vec::new(), pointer: 0 }
    }

    /// Records a command; the commands undone before it are dropped.
    pub fn push(&mut self, cmd: Command)
        ensures
            final(self).history() == old(self).history().take(old(self).position() as int).push(cmd),
            final(self).position() == final(self).history().len(),
    {
        proof {
            use_type_invariant(&*self);
        }
        let mut taken = Journal::new();
        std::mem::swap(self, &mut taken);
        let Journal { commands: mut commands, pointer } = taken;
        commands.truncate(pointer);
        commands.push(cmd);
        let len = commands.len();
        *self = Journal { commands, pointer: len };
    }

    /// Steps back over the last command in effect and returns it.
    pub fn undo(&mut self) -> (r: Option<Command>)
        ensures
            final(self).history() == old(self).history(),
            (final(self).position(), r) == undo_step(old(self).history(), old(self).position()),
    {
        proof {
            use_type_invariant(&*self);
        }
        if self.pointer == 0 {
            return None;
        }
        self.pointer = self.pointer - 1;
        Some(self.commands[self.pointer].duplicate())
    }

    /// Steps forward over the next undone command and returns it.
    pub fn redo(&mut self) -> (r: Option<Command>)
        ensures
            final(self).history() == old(self).history(),
            (final(self).position(), r) == redo_step(old(self).history(), old(self).position()),
    {
        proof {
            use_type_invariant(&*self);
        }
        if self.pointer >= self.commands.len() {
            return None;
        }
        let cmd = self.commands[self.pointer].duplicate();
        self.pointer = self.pointer + 1;
        Some(cmd)
    }

    pub fn can_undo(&self) -> (r: bool)
        ensures
            r == (self.position() > 0),
    {
        self.pointer > 0
    }

    pub fn can_redo(&self) -> (r: bool)
        ensures
            r == (self.position() < self.history().len()),
            self.position() <= self.history().len(),
    {
        proof {
            use_type_invariant(self);
        }
        self.pointer < self.commands.len()
    }
}

impl Clone for Journal {
    fn clone(&self) -> (j: Journal)
        ensures
            j.history() == self.history(),
            j.position() == self.position(),
    {
        proof {
            use_type_invariant(self);
        }
        let mut commands: Vec<Command> = Vec::new();
        let mut i: usize = 0;
        while i < self.commands.len()
            invariant
                i <= self.commands@.len(),
                commands@ == self.commands@.take(i as int),
            decreases self.commands.len() - i,
        {
            commands.push(self.commands[i].duplicate());
            assert(commands@ =~= self.commands@.take(i + 1));
            i = i + 1;
        }
        assert(self.commands@.take(self.commands.len() as int) =~= self.commands@);
        Journal { commands, pointer: self.pointer }
    }
}

impl Default for Journal {
    fn default() -> (j: Journal)
        ensures
            j.history() == Seq::<Command>::empty(),
            j.position() == 0,
    {
        Journal::new()
    }
}

/// Redoing right after an undo brings back the same command and the same
/// position.
pub proof fn lemma_redo_after_undo(history: Seq<Command>, position: nat)
    requires
        position <= history.len(),
        undo_step(history, position).1 is Some,
    ensures
        redo_step(history, undo_step(history, position).0) == (position, undo_step(history, position).1),
{
}

/// Undoing right after a redo brings back the same command and the same
/// position.
pub proof fn lemma_undo_after_redo(history: Seq<Command>, position: nat)
    requires
        redo_step(history, position).1 is Some,
    ensures
        undo_step(history, redo_step(history, position).0) == (position, redo_step(history, position).1),
{
}

/// After a push, the pushed command is the one undo gives back, and there
/// is nothing to redo.
pub proof fn lemma_undo_after_push(history: Seq<Command>, position: nat, cmd: Command)
    requires
        position <= history.len(),
    ensures
        ({
            let h = history.take(position as int).push(cmd);
            &&& undo_step(h, h.len()) == (position, Some(cmd))
            &&& redo_step(h, h.len()).1 is None
        }),
{
}

// ---------------------------------------------------------------------------
// Applying a command to the source.

/// The text before byte `i` of `s`.
pub open spec fn text_before(s: Seq<char>, i: int) -> Seq<char> {
    decode_utf8(encode_utf8(s).subrange(0, i))
}

/// The text from byte `i` of `s` on.
pub open spec fn text_from(s: Seq<char>, i: int) -> Seq<char> {
    decode_utf8(encode_utf8(s).subrange(i, encode_utf8(s).len() as int))
}

pub open spec fn byte_len(s: Seq<char>) -> nat {
    encode_utf8(s).len()
}

/// The first `k >= i` where `s` holds two newlines in a row.
pub open spec fn blank_line_from(s: Seq<char>, i: int) -> Option<int>
    decreases s.len() - i,
{
    if i < 0 || i + 1 >= s.len() {
        None
    } else if s[i] == '\n' && s[i + 1] == '\n' {
        Some(i)
    } else {
        blank_line_from(s, i + 1)
    }
}

/// Whether the command's offsets, where they are in range, fall on
/// character boundaries of the source (elsewhere slicing would panic).
pub open spec fn command_defined(src: Seq<char>, cmd: Command) -> bool {
    match cmd {
        Command::InsertText { at, .. } => at <= byte_len(src) ==> is_char_boundary(encode_utf8(src), at as int),
        Command::SplitBlock { at } => at <= byte_len(src) ==> is_char_boundary(encode_utf8(src), at as int),
        Command::DeleteRange { from, to } => (from <= byte_len(src) && to <= byte_len(src) && from < to)
            ==> is_char_boundary(encode_utf8(src), from as int) && is_char_boundary(encode_utf8(src), to as int),
        _ => true,
    }
}

/// The source after a command, or the error it meets.
pub open spec fn apply_v(src: Seq<char>, cmd: Command) -> Result<Seq<char>, CommandError> {
    let len = byte_len(src);
    match cmd {
        Command::InsertText { at, text } => if at > len {
            Err(CommandError::OffsetOutOfBounds(at, len as usize))
        } else {
            Ok(text_before(src, at as int) + text@ + text_from(src, at as int))
        },
        Command::DeleteRange { from, to } => if from > len || to > len || from >= to {
            Err(CommandError::InvalidRange(from, to))
        } else {
            Ok(text_before(src, from as int) + text_from(src, to as int))
        },
        Command::SplitBlock { at } => if at > len {
            Err(CommandError::OffsetOutOfBounds(at, len as usize))
        } else {
            Ok(text_before(src, at as int) + "\n\n"@ + text_from(src, at as int))
        },
        Command::MergeBlocks { .. } => match blank_line_from(src, 0) {
            Some(k) => Ok(src.take(k) + src.skip(k + 2)),
            None => Ok(src),
        },
        _ => Ok(src),
    }
}

proof fn lemma_blank_line_bounds(s: Seq<char>, i: int)
    ensures
        blank_line_from(s, i) matches Some(k) ==> i <= k && k + 1 < s.len() && s[k] == '\n' && s[k + 1] == '\n',
    decreases s.len() - i,
{
    if 0 <= i && i + 1 < s.len() && !(s[i] == '\n' && s[i + 1] == '\n') {
        lemma_blank_line_bounds(s, i + 1);
    }
}

/// Splits `source` at byte `at`, a character boundary.
fn split_source(source: &str, at: usize) -> (r: (&str, &str))
    requires
        is_char_boundary(encode_utf8(source@), at as int),
    ensures
        r.0@ == text_before(source@, at as int),
        r.1@ == text_from(source@, at as int),
{
    let (head, tail) = source.split_at(at);
    proof {
        vstd::utf8::encode_utf8_decode_utf8(head@);
        vstd::utf8::encode_utf8_decode_utf8(tail@);
    }
    (head, tail)
}

/// Applies a command to the source. Offsets past the end, and empty or
/// reversed ranges, are errors; merging removes the first blank line;
/// marks and cursor moves leave the source as it is.
pub fn apply_command(source: &str, cmd: &Command) -> (r: Result<String, CommandError>)
    requires
        command_defined(source@, *cmd),
    ensures
        match apply_v(source@, *cmd) {
            Ok(s) => r matches Ok(t) && t@ == s,
            Err(e) => r == Err::<String, CommandError>(e),
        },
{
    let len = source.as_bytes().len();
    assert(len == byte_len(source@));
    match cmd {
        Command::InsertText { at, text } => {
            if *at > len {
                return Err(CommandError::OffsetOutOfBounds(*at, len));
            }
            let (head, tail) = split_source(source, *at);
            let mut result = String::new();
            result.push_str(head);
            result.push_str(text.as_str());
            result.push_str(tail);
            Ok(result)
        },
        Command::DeleteRange { from, to } => {
            if *from > len || *to > len {
                return Err(CommandError::InvalidRange(*from, *to));
            }
            if *from >= *to {
                return Err(CommandError::InvalidRange(*from, *to));
            }
            let (head, _) = split_source(source, *from);
            let (_, tail) = split_source(source, *to);
            let mut result = String::new();
            result.push_str(head);
            result.push_str(tail);
            Ok(result)
        },
        Command::SplitBlock { at } => {
            if *at > len {
                return Err(CommandError::OffsetOutOfBounds(*at, len));
            }
            let (head, tail) = split_source(source, *at);
            let mut result = String::new();
            result.push_str(head);
            result.push_str("\n\n");
            result.push_str(tail);
            Ok(result)
        },
        Command::MergeBlocks { .. } => {
            let v = chars_of(source);
            let mut k: usize = 0;
            while k < v.len() && k + 1 < v.len() && !(v[k] == '\n' && v[k + 1] == '\n')
                invariant
                    k <= v.len(),
                    v@ == source@,
                    blank_line_from(source@, k as int) == blank_line_from(source@, 0),
                decreases v.len() - k,
            {
                k = k + 1;
            }
            if k < v.len() && k + 1 < v.len() {
                let mut result = string_of_range(&v, 0, k);
                let rest = string_of_range(&v, k + 2, v.len());
                result.push_str(rest.as_str());
                assert(v@.subrange(0, k as int) =~= source@.take(k as int));
                assert(v@.subrange(k + 2, v.len() as int) =~= source@.skip(k + 2));
                Ok(result)
            } else {
                Ok(source.to_owned())
            }
        },
        Command::SetMark { .. } => Ok(source.to_owned()),
        Command::MoveCursor { .. } => Ok(source.to_owned()),
    }
}

/// Inserting a text and then deleting the bytes it took gives the source
/// back.
pub proof fn lemma_delete_undoes_insert(src: Seq<char>, at: usize, text: String)
    requires
        at <= byte_len(src),
        is_char_boundary(encode_utf8(src), at as int),
        byte_len(text@) > 0,
        at + byte_len(text@) <= usize::MAX,
    ensures
        ({
            let inserted = apply_v(src, Command::InsertText { at, text });
            let to = (at + byte_len(text@)) as usize;
            &&& inserted is Ok
            &&& command_defined(inserted->Ok_0, Command::DeleteRange { from: at, to })
            &&& apply_v(inserted->Ok_0, Command::DeleteRange { from: at, to }) == Ok::<Seq<char>, CommandError>(src)
        }),
{
    let b = encode_utf8(src);
    lemma_decode_halves(src, at as int);
    let head = text_before(src, at as int);
    let tail = text_from(src, at as int);
    vstd::utf8::encode_utf8_valid_utf8(src);
    vstd::utf8::valid_utf8_split(b, at as int);
    vstd::utf8::decode_utf8_encode_utf8(b.subrange(0, at as int));
    vstd::utf8::decode_utf8_encode_utf8(b.subrange(at as int, b.len() as int));
    let t = text@;
    let ins = head + t + tail;
    lemma_encode_concat(head + t, tail);
    lemma_encode_concat(head, t);
    let eb = encode_utf8(ins);
    let et = encode_utf8(t);
    assert(eb == b.subrange(0, at as int) + et + b.subrange(at as int, b.len() as int));
    let to = at + et.len();
    // The cut points of the inserted text are character boundaries.
    vstd::utf8::encode_utf8_valid_utf8(head);
    vstd::utf8::encode_utf8_valid_utf8(head + t);
    vstd::utf8::is_char_boundary_start_end_of_seq(encode_utf8(head));
    vstd::utf8::is_char_boundary_start_end_of_seq(encode_utf8(head + t));
    vstd::utf8::encode_utf8_valid_utf8(t + tail);
    vstd::utf8::encode_utf8_valid_utf8(tail);
    lemma_boundary_of_prefix(encode_utf8(head), encode_utf8(t + tail));
    lemma_encode_concat(t, tail);
    assert(eb =~= encode_utf8(head) + encode_utf8(t + tail));
    lemma_boundary_of_prefix(encode_utf8(head + t), encode_utf8(tail));
    assert(eb =~= encode_utf8(head + t) + encode_utf8(tail));
    assert(encode_utf8(head).len() == at);
    assert(encode_utf8(head + t).len() == to);
    // Deleting the inserted bytes.
    vstd::utf8::encode_utf8_valid_utf8(ins);
    assert(eb.subrange(0, at as int) =~= encode_utf8(head));
    assert(eb.subrange(to, eb.len() as int) =~= encode_utf8(tail));
    vstd::utf8::encode_utf8_decode_utf8(head);
    vstd::utf8::encode_utf8_decode_utf8(tail);
}

proof fn lemma_no_blank_line(s: Seq<char>, i: int, k: int)
    requires
        0 <= i <= k,
        k + 1 < s.len(),
        blank_line_from(s, i) is None,
    ensures
        !(s[k] == '\n' && s[k + 1] == '\n'),
    decreases k - i,
{
    if i < k {
        lemma_no_blank_line(s, i + 1, k);
    }
}

proof fn lemma_blank_line_at(s: Seq<char>, i: int, k: int)
    requires
        0 <= i <= k,
        k + 1 < s.len(),
        s[k] == '\n' && s[k + 1] == '\n',
        forall|j: int| i <= j < k ==> !(s[j] == '\n' && #[trigger] s[j + 1] == '\n'),
    ensures
        blank_line_from(s, i) == Some(k),
    decreases k - i,
{
    if i < k {
        lemma_blank_line_at(s, i + 1, k);
    }
}

/// Splitting a source that holds no blank line, then merging, gives the
/// source back: the blank line the split put in is the first one, and
/// merging takes it out. Marks and cursor moves leave the source as it is.
pub proof fn lemma_merge_undoes_split(src: Seq<char>, at: usize, first: BlockId, block: BlockId, mark: BlockMark, to: usize)
    requires
        at <= byte_len(src),
        is_char_boundary(encode_utf8(src), at as int),
        blank_line_from(src, 0) is None,
    ensures
        ({
            let split = apply_v(src, Command::SplitBlock { at });
            &&& split is Ok
            &&& command_defined(split->Ok_0, Command::MergeBlocks { first })
            &&& apply_v(split->Ok_0, Command::MergeBlocks { first }) == Ok::<Seq<char>, CommandError>(src)
        }),
        apply_v(src, Command::SetMark { block, mark }) == Ok::<Seq<char>, CommandError>(src),
        apply_v(src, Command::MoveCursor { to }) == Ok::<Seq<char>, CommandError>(src),
{
    reveal_strlit("\n\n");
    lemma_decode_halves(src, at as int);
    let h = text_before(src, at as int);
    let t = text_from(src, at as int);
    assert(h + t == src);
    let s2 = h + "\n\n"@ + t;
    let n = h.len() as int;
    assert(s2[n] == '\n' && s2[n + 1] == '\n');
    assert forall|j: int| 0 <= j < n - 1 implies !(s2[j] == '\n' && #[trigger] s2[j + 1] == '\n') by {
        assert(s2[j] == src[j] && s2[j + 1] == src[j + 1]);
        lemma_no_blank_line(src, 0, j);
    }
    if n > 0 && h[n - 1] == '\n' {
        lemma_blank_line_at(s2, 0, n - 1);
        assert(s2.take(n - 1) + s2.skip(n + 1) =~= src);
    } else {
        assert forall|j: int| 0 <= j < n implies !(s2[j] == '\n' && #[trigger] s2[j + 1] == '\n') by {
            if j < n - 1 {
                assert(s2[j] == src[j] && s2[j + 1] == src[j + 1]);
                lemma_no_blank_line(src, 0, j);
            }
        }
        lemma_blank_line_at(s2, 0, n);
        assert(s2.take(n) + s2.skip(n + 2) =~= src);
    }
}

/// In a valid encoding `a + b` where `a` is itself valid, the end of `a`
/// is a character boundary.
proof fn lemma_boundary_of_prefix(a: Seq<u8>, b: Seq<u8>)
    requires
        vstd::utf8::valid_utf8(a),
        vstd::utf8::valid_utf8(b),
    ensures
        vstd::utf8::valid_utf8(a + b),
        is_char_boundary(a + b, a.len() as int),
    decreases a.len(),
{
    vstd::utf8::valid_utf8_concat(a, b);
    if a.len() > 0 {
        let l = vstd::utf8::length_of_first_scalar(a);
        let rest = vstd::utf8::pop_first_scalar(a);
        assert(vstd::utf8::valid_first_scalar(a));
        lemma_boundary_of_prefix(rest, b);
        assert((a + b)[0] == a[0]);
        assert(vstd::utf8::length_of_first_scalar(a + b) == l);
        assert(vstd::utf8::pop_first_scalar(a + b) =~= rest + b);
    }
}

} // verus!
