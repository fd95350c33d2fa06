//! Streaming markdown: text arrives in chunks, mdstream cuts it into blocks
//! as they settle, and each settled block is parsed once into the document
//! tree, again only when mdstream says it changed.
use vstd::prelude::*;
use mdstream::{Block as MdBlock, BlockId as MdBlockId, BlockKind as MdBlockKind, BlockStatus, DocumentState, MdStream, Options as MdStreamOptions, Update};
use crate::error::PenumbraError;
use crate::markdown::ast::{Block, BlockV, Document, blocks_view, duplicate_blocks};
use crate::markdown::parser::{parse_block, parse_v};

verus! {

#[verifier::external_type_specification]
#[verifier::external_body]
pub struct ExMdStream(MdStream);

#[verifier::external_type_specification]
#[verifier::external_body]
pub struct ExMdStreamOptions(MdStreamOptions);

#[verifier::external_type_specification]
#[verifier::external_body]
pub struct ExDocumentState(DocumentState);

#[verifier::external_type_specification]
pub struct ExMdBlockId(MdBlockId);

#[verifier::external_type_specification]
pub struct ExBlockStatus(BlockStatus);

#[verifier::external_type_specification]
pub struct ExMdBlockKind(MdBlockKind);

#[verifier::external_type_specification]
pub struct ExMdBlock(MdBlock);

#[verifier::external_type_specification]
pub struct ExUpdate(Update);

/// A block of mdstream as the library keeps it: its identity and its raw
/// markdown.
pub type RawBlock = (u64, Seq<char>);

/// The committed blocks of an mdstream document state, in order.
pub uninterp spec fn md_committed(s: DocumentState) -> Seq<RawBlock>;

/// The pending block of an mdstream document state: identity, raw text and
/// the text to display, if any.
pub uninterp spec fn md_pending(s: DocumentState) -> Option<(u64, Seq<char>, Option<Seq<char>>)>;

pub open spec fn raw_block(b: MdBlock) -> RawBlock {
    (b.id.0, b.raw@)
}

pub open spec fn pending_block(p: Option<MdBlock>) -> Option<(u64, Seq<char>, Option<Seq<char>>)> {
    match p {
        Some(b) => Some((b.id.0, b.raw@, crate::markdown::ast::opt_str_view(b.display))),
        None => None,
    }
}

/// `DocumentState::new()`: nothing committed, nothing pending.
#[verifier::external_body]
fn state_new() -> (s: DocumentState)
    ensures
        md_committed(s) == Seq::<RawBlock>::empty(),
        md_pending(s) is None,
{
    DocumentState::new()
}

/// `DocumentState::apply`: a resetting update drops what was committed;
/// the update's committed blocks are appended and its pending block
/// replaces the pending one. Gives back the update's reset flag and the
/// identities it invalidated.
#[verifier::external_body]
fn state_apply(s: &mut DocumentState, u: Update) -> (r: (bool, Vec<u64>))
    ensures
        md_committed(*final(s)) == (if u.reset {
            Seq::<RawBlock>::empty()
        } else {
            md_committed(*old(s))
        }) + u.committed@.map_values(|b: MdBlock| raw_block(b)),
        md_pending(*final(s)) == pending_block(u.pending),
        r.0 == u.reset,
        r.1@ == u.invalidated@.map_values(|b: MdBlockId| b.0),
{
    let applied = s.apply(u);
    (applied.reset, applied.invalidated.iter().map(|b| b.0).collect())
}

/// `DocumentState::committed`, each block as its identity and raw text.
#[verifier::external_body]
fn state_committed(s: &DocumentState) -> (r: Vec<(u64, String)>)
    ensures
        r@.map_values(|p: (u64, String)| (p.0, p.1@)) == md_committed(*s),
{
    s.committed().iter().map(|b| (b.id.0, b.raw.clone())).collect()
}

/// `DocumentState::pending`, as identity, raw text and display text.
#[verifier::external_body]
fn state_pending(s: &DocumentState) -> (r: Option<(u64, String, Option<String>)>)
    ensures
        match r {
            Some(p) => md_pending(*s) == Some((p.0, p.1@, crate::markdown::ast::opt_str_view(p.2))),
            None => md_pending(*s) is None,
        },
{
    s.pending().map(|b| (b.id.0, b.raw.clone(), b.display.clone()))
}

/// The text an mdstream stream holds in its input buffer: what it has
/// taken in, with line ends normalized, less what a capped buffer has
/// dropped from its front.
pub uninterp spec fn md_input(s: MdStream) -> Seq<char>;

/// Whether the last chunk a stream took in ended in a carriage return whose
/// line end is not settled yet (it may be the first half of a CRLF).
pub uninterp spec fn md_pending_cr(s: MdStream) -> bool;

/// Whether a stream was made without a cap on its buffer
/// (`max_buffer_bytes` is `None`), so that it never drops text.
pub uninterp spec fn md_unbounded(s: MdStream) -> bool;

/// Whether `s` ends with `t`.
pub open spec fn ends_with(s: Seq<char>, t: Seq<char>) -> bool {
    t.len() <= s.len() && s.subrange(s.len() - t.len(), s.len() as int) == t
}

/// `MdStream::new(Options::default())`. Trusted: the stream holds no text
/// and, the default leaving the buffer uncapped, never drops any.
#[verifier::external_body]
fn stream_new_default() -> (s: MdStream)
    ensures
        md_input(s) == Seq::<char>::empty(),
        !md_pending_cr(s),
        md_unbounded(s),
{
    MdStream::new(MdStreamOptions::default())
}

/// `MdStream::new`. Trusted: the stream holds no text.
#[verifier::external_body]
fn stream_new(opts: MdStreamOptions) -> (s: MdStream)
    ensures
        md_input(s) == Seq::<char>::empty(),
        !md_pending_cr(s),
{
    MdStream::new(opts)
}

/// `MdStream::append`. Trusted, from the crate's source
/// (`stream/engine.rs`, `stream/input.rs`): the chunk, its line ends
/// normalized, is appended to the input buffer, whose front a capped
/// buffer may then drop; a chunk with no carriage return, after one that
/// did not end in one, goes in as it is; a carriage return is left
/// pending exactly when the chunk ends in one; the buffer cap never
/// changes. What the update commits depends on all the text taken in and
/// is left unsaid. The crate documents no panic; its code has no
/// `unwrap`, `expect` or `panic!` outside its tests, but it slices its
/// buffer at offsets it computes itself, and that those always fall on
/// character boundaries is taken on trust.
#[verifier::external_body]
fn stream_append(s: &mut MdStream, chunk: &str) -> (u: Update)
    ensures
        md_unbounded(*final(s)) == md_unbounded(*old(s)),
        md_pending_cr(*final(s)) == (chunk@.len() > 0 && chunk@.last() == '\r'),
        !chunk@.contains('\r') && !md_pending_cr(*old(s)) ==> ends_with(md_input(*old(s)) + chunk@, md_input(*final(s))),
        !chunk@.contains('\r') && !md_pending_cr(*old(s)) && md_unbounded(*old(s)) ==> md_input(*final(s))
            == md_input(*old(s)) + chunk@,
{
    s.append(chunk)
}

/// `MdStream::finalize`. Trusted, from the crate's source: a pending
/// carriage return becomes a line end, appended to the input buffer, and
/// nothing else is added to it (a capped buffer may drop its front); the
/// buffer cap never changes. What the update commits is left unsaid. As
/// with `append`, that its slicing cannot panic is taken on trust.
#[verifier::external_body]
fn stream_finalize(s: &mut MdStream) -> (u: Update)
    ensures
        md_unbounded(*final(s)) == md_unbounded(*old(s)),
        !md_pending_cr(*final(s)),
        ends_with(
            md_input(*old(s)) + if md_pending_cr(*old(s)) { seq!['\n'] } else { Seq::<char>::empty() },
            md_input(*final(s)),
        ),
        md_unbounded(*old(s)) ==> md_input(*final(s)) == md_input(*old(s)) + if md_pending_cr(*old(s)) {
            seq!['\n']
        } else {
            Seq::<char>::empty()
        },
{
    s.finalize()
}

/// `MdStream::reset`. Trusted: the stream holds no text again; its options,
/// and so its buffer cap, are kept.
#[verifier::external_body]
fn stream_reset(s: &mut MdStream)
    ensures
        md_input(*final(s)) == Seq::<char>::empty(),
        !md_pending_cr(*final(s)),
        md_unbounded(*final(s)) == md_unbounded(*old(s)),
{
    s.reset()
}

/// The parsed form of a committed block.
pub struct CommittedV {
    pub id: u64,
    pub blocks: Seq<BlockV>,
}

pub open spec fn committed_view(c: Seq<(u64, Vec<Block>)>) -> Seq<CommittedV> {
    c.map_values(|p: (u64, Vec<Block>)| CommittedV { id: p.0, blocks: blocks_view(p.1@) })
}

/// Parsing raw blocks in order onto what is committed and what is new;
/// `None` when one does not parse.
pub open spec fn parse_onto(c: Seq<CommittedV>, new: Seq<BlockV>, raws: Seq<RawBlock>) -> Option<(Seq<CommittedV>, Seq<BlockV>)>
    decreases raws.len(),
{
    if raws.len() == 0 {
        Some((c, new))
    } else {
        match parse_onto(c, new, raws.drop_last()) {
            None => None,
            Some((c1, n1)) => match parse_v(raws.last().1) {
                None => None,
                Some(bs) => Some((c1.push(CommittedV { id: raws.last().0, blocks: bs }), n1 + bs)),
            },
        }
    }
}

pub open spec fn has_id(c: Seq<CommittedV>, id: u64) -> bool {
    exists|i: int| 0 <= i < c.len() && (#[trigger] c[i]).id == id
}

/// Parsing, in order, the raw blocks whose identity is not yet committed.
pub open spec fn refill(c: Seq<CommittedV>, new: Seq<BlockV>, raws: Seq<RawBlock>) -> Option<(Seq<CommittedV>, Seq<BlockV>)>
    decreases raws.len(),
{
    if raws.len() == 0 {
        Some((c, new))
    } else {
        match refill(c, new, raws.drop_last()) {
            None => None,
            Some((c1, n1)) => if has_id(c1, raws.last().0) {
                Some((c1, n1))
            } else {
                match parse_v(raws.last().1) {
                    None => None,
                    Some(bs) => Some((c1.push(CommittedV { id: raws.last().0, blocks: bs }), n1 + bs)),
                }
            },
        }
    }
}

/// The parsed blocks whose identity was not invalidated, in order.
pub open spec fn keep_valid(c: Seq<CommittedV>, invalid: Seq<u64>) -> Seq<CommittedV>
    decreases c.len(),
{
    if c.len() == 0 {
        Seq::empty()
    } else {
        let rest = keep_valid(c.drop_last(), invalid);
        if invalid.contains(c.last().id) {
            rest
        } else {
            rest.push(c.last())
        }
    }
}

/// What taking in an update does to the parsed blocks, given those parsed
/// before, the blocks committed after it, the invalidated identities and
/// the reset flag: the parsed blocks after it and the newly parsed ones,
/// `None` when a block does not parse.
pub open spec fn stream_step(before: Seq<CommittedV>, current: Seq<RawBlock>, invalid: Seq<u64>, reset: bool) -> Option<(Seq<CommittedV>, Seq<BlockV>)> {
    let tail = if before.len() <= current.len() {
        current.skip(before.len() as int)
    } else {
        Seq::empty()
    };
    match parse_onto(before, Seq::empty(), tail) {
        None => None,
        Some((c1, n1)) => {
            let r2 = if invalid.len() > 0 {
                refill(keep_valid(c1, invalid), n1, current)
            } else {
                Some((c1, n1))
            };
            match r2 {
                None => None,
                Some((c2, n2)) => if reset {
                    parse_onto(Seq::empty(), Seq::empty(), current)
                } else {
                    Some((c2, n2))
                },
            }
        },
    }
}

/// A pending block as the stream reports it.
#[derive(Debug)]
pub struct PendingInfo {
    pub id: u64,
    pub raw: String,
    pub display: Option<String>,
}

impl PendingInfo {
    /// The display text when there is one, else the raw text.
    pub fn display_or_raw(&self) -> (r: &str)
        ensures
            r@ == match self.display {
                Some(d) => d@,
                None => self.raw@,
            },
    {
        match &self.display {
            Some(d) => d.as_str(),
            None => self.raw.as_str(),
        }
    }
}

/// What one chunk changed: the newly parsed blocks, the pending block, and
/// whether all that was shown before must be dropped.
#[derive(Debug)]
pub struct StreamUpdate {
    pub committed: Vec<Block>,
    pub pending: Option<PendingInfo>,
    pub reset: bool,
}

pub open spec fn pending_view(p: Option<PendingInfo>) -> Option<(u64, Seq<char>, Option<Seq<char>>)> {
    match p {
        Some(i) => Some((i.id, i.raw@, crate::markdown::ast::opt_str_view(i.display))),
        None => None,
    }
}

/// A markdown document built up from streamed chunks.
pub struct MarkdownStream {
    stream: MdStream,
    state: DocumentState,
    committed: Vec<(u64, Vec<Block>)>,
}

/// How taking in one update, with the given invalidated identities, reset
/// flag and newly committed blocks, left a stream: the blocks committed
/// after it are those before it (none after a reset) followed by the new
/// ones, and the result and the parsed blocks are as `stream_step` says.
pub open spec fn took_in_with(
    parsed_before: Seq<CommittedV>,
    committed_before: Seq<RawBlock>,
    committed_after: Seq<RawBlock>,
    pending_after: Option<(u64, Seq<char>, Option<Seq<char>>)>,
    parsed_after: Seq<CommittedV>,
    r: Result<StreamUpdate, PenumbraError>,
    invalid: Seq<u64>,
    reset: bool,
    added: Seq<RawBlock>,
) -> bool {
    &&& committed_after == (if reset {
        Seq::<RawBlock>::empty()
    } else {
        committed_before
    }) + added
    &&& match stream_step(parsed_before, committed_after, invalid, reset) {
        None => r is Err,
        Some((c, nw)) => r matches Ok(u) && {
            &&& parsed_after == c
            &&& blocks_view(u.committed@) == nw
            &&& u.reset == reset
            &&& pending_view(u.pending) == pending_after
        },
    }
}

/// How taking in some update left a stream (the update itself is
/// mdstream's and left unsaid).
pub open spec fn took_in(
    parsed_before: Seq<CommittedV>,
    committed_before: Seq<RawBlock>,
    committed_after: Seq<RawBlock>,
    pending_after: Option<(u64, Seq<char>, Option<Seq<char>>)>,
    parsed_after: Seq<CommittedV>,
    r: Result<StreamUpdate, PenumbraError>,
) -> bool {
    exists|invalid: Seq<u64>, reset: bool, added: Seq<RawBlock>| #[trigger] took_in_with(
        parsed_before,
        committed_before,
        committed_after,
        pending_after,
        parsed_after,
        r,
        invalid,
        reset,
        added,
    )
}

proof fn lemma_parse_onto_none(c: Seq<CommittedV>, n: Seq<BlockV>, raws: Seq<RawBlock>, j: int)
    requires
        0 <= j <= raws.len(),
        parse_onto(c, n, raws.take(j)) is None,
    ensures
        parse_onto(c, n, raws) is None,
    decreases raws.len() - j,
{
    if j < raws.len() {
        assert(raws.take(j + 1).drop_last() =~= raws.take(j));
        lemma_parse_onto_none(c, n, raws, j + 1);
    } else {
        assert(raws.take(j) =~= raws);
    }
}

proof fn lemma_refill_none(c: Seq<CommittedV>, n: Seq<BlockV>, raws: Seq<RawBlock>, j: int)
    requires
        0 <= j <= raws.len(),
        refill(c, n, raws.take(j)) is None,
    ensures
        refill(c, n, raws) is None,
    decreases raws.len() - j,
{
    if j < raws.len() {
        assert(raws.take(j + 1).drop_last() =~= raws.take(j));
        lemma_refill_none(c, n, raws, j + 1);
    } else {
        assert(raws.take(j) =~= raws);
    }
}

pub open spec fn raws_view(v: Seq<(u64, String)>) -> Seq<RawBlock> {
    v.map_values(|p: (u64, String)| (p.0, p.1@))
}

fn contains_id(ids: &Vec<u64>, id: u64) -> (r: bool)
    ensures
        r == ids@.contains(id),
{
    let mut i: usize = 0;
    while i < ids.len()
        invariant
            i <= ids.len(),
            forall|j: int| 0 <= j < i ==> ids@[j] != id,
        decreases ids.len() - i,
    {
        if ids[i] == id {
            return true;
        }
        i = i + 1;
    }
    false
}

fn has_committed(c: &Vec<(u64, Vec<Block>)>, id: u64) -> (r: bool)
    ensures
        r == has_id(committed_view(c@), id),
{
    let mut i: usize = 0;
    while i < c.len()
        invariant
            i <= c.len(),
            forall|j: int| 0 <= j < i ==> c@[j].0 != id,
        decreases c.len() - i,
    {
        if c[i].0 == id {
            assert(committed_view(c@)[i as int].id == id);
            return true;
        }
        i = i + 1;
    }
    assert forall|j: int| 0 <= j < committed_view(c@).len() implies (#[trigger] committed_view(c@)[j]).id != id by {
        assert(committed_view(c@)[j].id == c@[j].0);
    }
    false
}

impl MarkdownStream {
    /// The parsed committed blocks, by mdstream identity.
    pub closed spec fn parsed(&self) -> Seq<CommittedV> {
        committed_view(self.committed@)
    }

    /// The blocks mdstream has committed, as raw text.
    pub closed spec fn raw_committed(&self) -> Seq<RawBlock> {
        md_committed(self.state)
    }

    /// The block mdstream holds pending.
    pub closed spec fn raw_pending(&self) -> Option<(u64, Seq<char>, Option<Seq<char>>)> {
        md_pending(self.state)
    }

    /// The text mdstream holds, as `md_input` says.
    pub closed spec fn input(&self) -> Seq<char> {
        md_input(self.stream)
    }

    /// Whether a carriage return at the end of the last chunk is pending.
    pub closed spec fn cr_pending(&self) -> bool {
        md_pending_cr(self.stream)
    }

    /// Whether the stream's buffer is uncapped.
    pub closed spec fn unbounded(&self) -> bool {
        md_unbounded(self.stream)
    }

    /// A stream with mdstream's default options.
    pub fn new() -> (s: MarkdownStream)
        ensures
            s.parsed() == Seq::<CommittedV>::empty(),
            s.raw_committed() == Seq::<RawBlock>::empty(),
            s.raw_pending() is None,
            s.input() == Seq::<char>::empty(),
            !s.cr_pending(),
            s.unbounded(),
    {
        let s = MarkdownStream { stream: stream_new_default(), state: state_new(), committed: Vec::new() };
        assert(committed_view(s.committed@) =~= Seq::<CommittedV>::empty());
        s
    }

    /// A stream with the given mdstream options.
    pub fn with_options(opts: MdStreamOptions) -> (s: MarkdownStream)
        ensures
            s.parsed() == Seq::<CommittedV>::empty(),
            s.raw_committed() == Seq::<RawBlock>::empty(),
            s.raw_pending() is None,
            s.input() == Seq::<char>::empty(),
            !s.cr_pending(),
    {
        let s = MarkdownStream { stream: stream_new(opts), state: state_new(), committed: Vec::new() };
        assert(committed_view(s.committed@) =~= Seq::<CommittedV>::empty());
        s
    }

    /// Feeds a chunk of text to mdstream, and parses what it commits as
    /// `apply_update` says. The chunk goes into mdstream's buffer: as it is
    /// when it holds no carriage return and none was pending, in full when
    /// the buffer is uncapped.
    pub fn append(&mut self, chunk: &str) -> (r: Result<StreamUpdate, PenumbraError>)
        ensures
            took_in(
                old(self).parsed(),
                old(self).raw_committed(),
                final(self).raw_committed(),
                final(self).raw_pending(),
                final(self).parsed(),
                r,
            ),
            final(self).unbounded() == old(self).unbounded(),
            final(self).cr_pending() == (chunk@.len() > 0 && chunk@.last() == '\r'),
            !chunk@.contains('\r') && !old(self).cr_pending() ==> ends_with(old(self).input() + chunk@, final(self).input()),
            !chunk@.contains('\r') && !old(self).cr_pending() && old(self).unbounded() ==> final(self).input()
                == old(self).input() + chunk@,
    {
        let update = stream_append(&mut self.stream, chunk);
        self.apply_update(update)
    }

    /// Ends the text: mdstream commits what was pending, and that is
    /// parsed as `apply_update` says. A pending carriage return becomes a
    /// line end; nothing else enters the buffer.
    pub fn finalize(&mut self) -> (r: Result<StreamUpdate, PenumbraError>)
        ensures
            took_in(
                old(self).parsed(),
                old(self).raw_committed(),
                final(self).raw_committed(),
                final(self).raw_pending(),
                final(self).parsed(),
                r,
            ),
            final(self).unbounded() == old(self).unbounded(),
            !final(self).cr_pending(),
            ends_with(
                old(self).input() + if old(self).cr_pending() { seq!['\n'] } else { Seq::<char>::empty() },
                final(self).input(),
            ),
            old(self).unbounded() ==> final(self).input() == old(self).input() + if old(self).cr_pending() {
                seq!['\n']
            } else {
                Seq::<char>::empty()
            },
    {
        let update = stream_finalize(&mut self.stream);
        self.apply_update(update)
    }

    /// The document of every parsed block, in order.
    pub fn snapshot(&self) -> (d: Document)
        ensures
            d.view_blocks() == parsed_blocks(self.parsed()),
    {
        let mut blocks: Vec<Block> = Vec::new();
        let mut i: usize = 0;
        assert(blocks_view(blocks@) =~= parsed_blocks(self.parsed().take(0)));
        while i < self.committed.len()
            invariant
                i <= self.committed.len(),
                blocks_view(blocks@) == parsed_blocks(self.parsed().take(i as int)),
            decreases self.committed.len() - i,
        {
            extend_blocks(&mut blocks, &self.committed[i].1);
            proof {
                assert(self.parsed().take(i + 1).drop_last() =~= self.parsed().take(i as int));
                assert(self.parsed()[i as int].blocks == blocks_view(self.committed@[i as int].1@));
            }
            i = i + 1;
        }
        assert(self.parsed().take(self.committed.len() as int) =~= self.parsed());
        Document { blocks }
    }

    /// The raw text of the pending block, if any.
    pub fn pending_raw(&self) -> (r: Option<String>)
        ensures
            match r {
                Some(t) => self.raw_pending() matches Some(p) && t@ == p.1,
                None => self.raw_pending() is None,
            },
    {
        match state_pending(&self.state) {
            Some(p) => Some(p.1),
            None => None,
        }
    }

    /// Starts over: nothing committed, nothing pending, nothing parsed.
    pub fn reset(&mut self)
        ensures
            final(self).parsed() == Seq::<CommittedV>::empty(),
            final(self).raw_committed() == Seq::<RawBlock>::empty(),
            final(self).raw_pending() is None,
            final(self).input() == Seq::<char>::empty(),
            !final(self).cr_pending(),
            final(self).unbounded() == old(self).unbounded(),
    {
        stream_reset(&mut self.stream);
        self.state = state_new();
        self.committed = Vec::new();
        assert(committed_view(self.committed@) =~= Seq::<CommittedV>::empty());
    }

    fn parse_raws_onto(
        &mut self,
        new: &mut Vec<Block>,
        raws: &Vec<(u64, String)>,
        from: usize,
    ) -> (r: Result<(), PenumbraError>)
        requires
            from <= raws@.len(),
        ensures
            match parse_onto(
                committed_view(old(self).committed@),
                blocks_view(old(new)@),
                raws_view(raws@).skip(from as int),
            ) {
                None => r is Err,
                Some((c, nw)) => r is Ok && committed_view(final(self).committed@) == c && blocks_view(final(new)@)
                    == nw,
            },
            final(self).state == old(self).state,
            final(self).stream == old(self).stream,
    {
        let ghost c0 = committed_view(self.committed@);
        let ghost n0 = blocks_view(new@);
        let ghost rs = raws_view(raws@).skip(from as int);
        let mut k: usize = from;
        assert(rs.take(0) =~= Seq::<RawBlock>::empty());
        while k < raws.len()
            invariant
                from <= k <= raws.len(),
                rs == raws_view(raws@).skip(from as int),
                self.state == old(self).state,
                self.stream == old(self).stream,
                c0 == committed_view(old(self).committed@),
                n0 == blocks_view(old(new)@),
                parse_onto(c0, n0, rs.take(k - from)) == Some((committed_view(self.committed@), blocks_view(new@))),
            decreases raws.len() - k,
        {
            proof {
                assert(rs.take(k - from + 1).drop_last() =~= rs.take(k - from));
                assert(rs.take(k - from + 1).last() == (raws@[k as int].0, raws@[k as int].1@));
            }
            let ast = match parse_block(raws[k].1.as_str()) {
                Ok(a) => a,
                Err(e) => {
                    proof {
                        lemma_parse_onto_none(c0, n0, rs, k - from + 1);
                    }
                    return Err(e);
                },
            };
            extend_blocks(new, &ast);
            let ghost before = self.committed@;
            self.committed.push((raws[k].0, ast));
            assert(committed_view(self.committed@) =~= committed_view(before).push(
                CommittedV { id: raws@[k as int].0, blocks: blocks_view(ast@) },
            ));
            k = k + 1;
        }
        assert(rs.take(raws.len() - from) =~= rs);
        Ok(())
    }

    /// Takes in an update of mdstream's: its committed blocks, its pending
    /// block, the identities it invalidated and its reset flag go into the
    /// document state, and the blocks are parsed as `stream_step` says.
    /// The stream itself, and the text it holds, are left as they are.
    pub fn apply_update(&mut self, update: Update) -> (r: Result<StreamUpdate, PenumbraError>)
        ensures
            took_in_with(
                old(self).parsed(),
                old(self).raw_committed(),
                final(self).raw_committed(),
                final(self).raw_pending(),
                final(self).parsed(),
                r,
                update.invalidated@.map_values(|b: MdBlockId| b.0),
                update.reset,
                update.committed@.map_values(|b: MdBlock| raw_block(b)),
            ),
            final(self).raw_pending() == pending_block(update.pending),
            final(self).input() == old(self).input(),
            final(self).cr_pending() == old(self).cr_pending(),
            final(self).unbounded() == old(self).unbounded(),
    {
        let ghost parsed0 = self.parsed();
        let ghost committed0 = self.raw_committed();
        let ghost added = update.committed@.map_values(|b: MdBlock| raw_block(b));
        let ghost pend = pending_block(update.pending);
        let (reset, invalidated) = state_apply(&mut self.state, update);
        let committed_before = self.committed.len();
        let current = state_committed(&self.state);
        let ghost cur = raws_view(current@);
        let ghost inv = invalidated@;
        let ghost state1 = self.state;
        assert(cur == md_committed(state1));
        assert(parsed0.len() == committed_before);
        let ghost tail = if parsed0.len() <= cur.len() {
            cur.skip(parsed0.len() as int)
        } else {
            Seq::<RawBlock>::empty()
        };
        let ghost step = stream_step(parsed0, cur, inv, reset);
        let mut new: Vec<Block> = Vec::new();
        assert(blocks_view(new@) =~= Seq::<BlockV>::empty());
        // The blocks committed by this update are parsed in order.
        if committed_before <= current.len() {
            match self.parse_raws_onto(&mut new, &current, committed_before) {
                Ok(()) => {},
                Err(e) => {
                    let r = Err(e);
                    assert(took_in_with(parsed0, committed0, cur, md_pending(state1), self.parsed(), r, inv, reset, added));
                    return r;
                },
            }
        } else {
            assert(tail == Seq::<RawBlock>::empty());
            assert(parse_onto(parsed0, Seq::empty(), tail) == Some((parsed0, Seq::<BlockV>::empty())));
        }
        let ghost c1 = self.parsed();
        let ghost n1 = blocks_view(new@);
        assert(parse_onto(parsed0, Seq::empty(), tail) == Some((c1, n1)));
        // Blocks whose parse went stale are dropped and parsed again.
        if invalidated.len() > 0 {
            let mut old_c: Vec<(u64, Vec<Block>)> = Vec::new();
            std::mem::swap(&mut old_c, &mut self.committed);
            let ghost oc = committed_view(old_c@);
            assert(committed_view(self.committed@) =~= keep_valid(oc.take(0), inv));
            for entry in it: old_c.into_iter()
                invariant
                    it.seq() == old_c@,
                    oc == committed_view(old_c@),
                    self.stream == old(self).stream,
                    inv == invalidated@,
                    self.state == state1,
                    committed_view(self.committed@) == keep_valid(oc.take(it.index() as int), inv),
            {
                proof {
                    assert(oc.take(it.index() + 1).drop_last() =~= oc.take(it.index() as int));
                    assert(oc.take(it.index() + 1).last() == oc[it.index() as int]);
                }
                if !contains_id(&invalidated, entry.0) {
                    let ghost before = self.committed@;
                    self.committed.push(entry);
                    assert(committed_view(self.committed@) =~= committed_view(before).push(oc[it.index() as int]));
                }
            }
            assert(oc.take(oc.len() as int) =~= oc);
            let ghost kept = keep_valid(c1, inv);
            let mut j: usize = 0;
            assert(cur.take(0) =~= Seq::<RawBlock>::empty());
            while j < current.len()
                invariant
                    j <= current.len(),
                    cur == raws_view(current@),
                    self.state == state1,
                    self.stream == old(self).stream,
                    md_pending(state1) == pend,
                    pend == pending_block(update.pending),
                    added == update.committed@.map_values(|b: MdBlock| raw_block(b)),
                    inv == update.invalidated@.map_values(|b: MdBlockId| b.0),
                    reset == update.reset,
                    kept == keep_valid(c1, inv),
                    parsed0 == old(self).parsed(),
                    committed0 == old(self).raw_committed(),
                    invalidated.len() > 0,
                    inv == invalidated@,
                    parse_onto(parsed0, Seq::empty(), tail) == Some((c1, n1)),
                    tail == (if parsed0.len() <= cur.len() {
                        cur.skip(parsed0.len() as int)
                    } else {
                        Seq::<RawBlock>::empty()
                    }),
                    cur == (if reset {
                        Seq::<RawBlock>::empty()
                    } else {
                        committed0
                    }) + added,
                    cur == md_committed(state1),
                    refill(kept, n1, cur.take(j as int)) == Some((committed_view(self.committed@), blocks_view(new@))),
                decreases current.len() - j,
            {
                proof {
                    assert(cur.take(j + 1).drop_last() =~= cur.take(j as int));
                    assert(cur.take(j + 1).last() == (current@[j as int].0, current@[j as int].1@));
                }
                if !has_committed(&self.committed, current[j].0) {
                    let ast = match parse_block(current[j].1.as_str()) {
                        Ok(a) => a,
                        Err(e) => {
                            proof {
                                lemma_refill_none(kept, n1, cur, j + 1);
                            }
                            let r = Err(e);
                            assert(took_in_with(parsed0, committed0, cur, md_pending(state1), self.parsed(), r, inv, reset, added));
                            return r;
                        },
                    };
                    extend_blocks(&mut new, &ast);
                    let ghost before = self.committed@;
                    self.committed.push((current[j].0, ast));
                    assert(committed_view(self.committed@) =~= committed_view(before).push(
                        CommittedV { id: current@[j as int].0, blocks: blocks_view(ast@) },
                    ));
                }
                j = j + 1;
            }
            assert(cur.take(current.len() as int) =~= cur);
        }
        let ghost c2 = self.parsed();
        let ghost n2 = blocks_view(new@);
        // A reset drops everything and parses all committed blocks again.
        if reset {
            self.committed = Vec::new();
            new = Vec::new();
            assert(committed_view(self.committed@) =~= Seq::<CommittedV>::empty());
            assert(blocks_view(new@) =~= Seq::<BlockV>::empty());
            assert(raws_view(current@).skip(0) =~= cur);
            match self.parse_raws_onto(&mut new, &current, 0) {
                Ok(()) => {},
                Err(e) => {
                    let r = Err(e);
                    assert(took_in_with(parsed0, committed0, cur, md_pending(state1), self.parsed(), r, inv, reset, added));
                    return r;
                },
            }
        }
        let pending = match state_pending(&self.state) {
            Some(p) => Some(PendingInfo { id: p.0, raw: p.1, display: p.2 }),
            None => None,
        };
        let r = Ok(StreamUpdate { committed: new, pending, reset });
        assert(took_in_with(parsed0, committed0, cur, md_pending(state1), self.parsed(), r, inv, reset, added));
        r
    }
}

impl Default for MarkdownStream {
    fn default() -> (s: MarkdownStream)
        ensures
            s.parsed() == Seq::<CommittedV>::empty(),
            s.raw_committed() == Seq::<RawBlock>::empty(),
            s.raw_pending() is None,
    {
        MarkdownStream::new()
    }
}

/// The blocks of the parsed entries, in order.
pub open spec fn parsed_blocks(c: Seq<CommittedV>) -> Seq<BlockV>
    decreases c.len(),
{
    if c.len() == 0 {
        Seq::empty()
    } else {
        parsed_blocks(c.drop_last()) + c.last().blocks
    }
}

proof fn lemma_blocks_view_concat(a: Seq<Block>, b: Seq<Block>)
    ensures
        blocks_view(a + b) == blocks_view(a) + blocks_view(b),
    decreases b.len(),
{
    if b.len() == 0 {
        assert(a + b =~= a);
        assert(blocks_view(a) + blocks_view(b) =~= blocks_view(a));
    } else {
        lemma_blocks_view_concat(a, b.drop_last());
        assert((a + b).drop_last() =~= a + b.drop_last());
        assert((a + b).last() == b.last());
        assert(blocks_view(a) + blocks_view(b) =~= (blocks_view(a) + blocks_view(b.drop_last())).push(
            crate::markdown::ast::kind_view(b.last().kind),
        ));
    }
}

fn extend_blocks(dst: &mut Vec<Block>, src: &Vec<Block>)
    ensures
        blocks_view(final(dst)@) == blocks_view(old(dst)@) + blocks_view(src@),
{
    let mut copy = duplicate_blocks(src);
    let ghost a = dst@;
    let ghost b = copy@;
    dst.append(&mut copy);
    proof {
        lemma_blocks_view_concat(a, b);
    }
}

} // verus!
