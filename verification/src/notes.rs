//! The note model: identities, metadata, notes, tags and links.
use vstd::prelude::*;

verus! {

/// A tag on a note, with an optional display color.
#[derive(Debug, Clone)]
pub struct Tag {
    pub name: String,
    pub color: Option<String>,
}

impl Tag {
    pub fn new(name: String) -> (t: Tag)
        ensures
            t.name == name,
            t.color is None,
    {
        Tag { name, color: None }
    }

    pub fn with_color(name: String, color: String) -> (t: Tag)
        ensures
            t.name == name,
            t.color == Some(color),
    {
        Tag { name, color: Some(color) }
    }

    /// The tag as it is shown: its name.
    pub fn to_string(&self) -> (r: String)
        ensures
            r@ == self.name@,
    {
        self.name.clone()
    }
}

impl From<String> for Tag {
    fn from(name: String) -> (t: Tag) {
        Tag::new(name)
    }
}

impl vstd::std_specs::convert::FromSpecImpl<String> for Tag {
    open spec fn obeys_from_spec() -> bool {
        true
    }

    open spec fn from_spec(name: String) -> Tag {
        Tag { name, color: None }
    }
}


/// The i-th hexadecimal digit, lowercase.
pub open spec fn hex_char(d: nat) -> char {
    if d < 10 {
        (('0' as nat) + d) as char
    } else {
        (('a' as nat) + d - 10) as char
    }
}

/// The last `k` hexadecimal digits of `n`, most significant first.
pub open spec fn hex_digits(n: nat, k: nat) -> Seq<char>
    decreases k,
{
    if k == 0 {
        Seq::empty()
    } else {
        hex_digits(n / 16, (k - 1) as nat).push(hex_char(n % 16))
    }
}

/// The hyphenated form of a 128-bit identity: its 32 hexadecimal digits in
/// groups of 8, 4, 4, 4 and 12 joined by `-`.
pub open spec fn hyphenated(n: nat) -> Seq<char> {
    let d = hex_digits(n, 32);
    d.subrange(0, 8) + seq!['-'] + d.subrange(8, 12) + seq!['-'] + d.subrange(12, 16) + seq!['-']
        + d.subrange(16, 20) + seq!['-'] + d.subrange(20, 32)
}

/// `uuid::Uuid::from_u128(n).to_string()`. Trusted: the crate formats a
/// UUID as its sixteen big-endian bytes in lowercase hexadecimal, hyphenated
/// after the 8th, 12th, 16th and 20th digit.
#[verifier::external_body]
pub(crate) fn uuid_text(n: u128) -> (r: String)
    ensures
        r@ == hyphenated(n as nat),
{
    uuid::Uuid::from_u128(n).to_string()
}

/// A random version-4 UUID, as its 128-bit value. Trusted; nothing is
/// promised of the value, which comes from the system's random source.
#[verifier::external_body]
pub(crate) fn random_uuid() -> (r: u128) {
    uuid::Uuid::new_v4().as_u128()
}

/// The identity of a note: a UUID, held as its 128-bit value.
#[derive(Debug, Clone, Copy, PartialEq, Eq, Hash, Structural)]
pub struct NoteId(pub u128);

impl NoteId {
    /// A fresh random identity.
    pub fn new() -> (id: NoteId) {
        NoteId(random_uuid())
    }

    pub fn from_raw(raw: u128) -> (id: NoteId)
        ensures
            id.0 == raw,
    {
        NoteId(raw)
    }

    /// The UUID's 128-bit value.
    pub fn as_u128(&self) -> (r: u128)
        ensures
            r == self.0,
    {
        self.0
    }

    /// The hyphenated lowercase form in which the identity is shown.
    pub fn to_string(&self) -> (r: String)
        ensures
            r@ == hyphenated(self.0 as nat),
    {
        uuid_text(self.0)
    }
}

impl Default for NoteId {
    fn default() -> (id: NoteId) {
        NoteId::new()
    }
}

/// A point in time in UTC: seconds since the Unix epoch and the nanoseconds
/// past that second.
#[derive(Debug, Clone, Copy, PartialEq, Eq, Structural)]
pub struct Timestamp {
    pub secs: i64,
    pub nanos: u32,
}

/// The current time (`chrono::Utc::now()`). Trusted; nothing is promised of
/// the value, which comes from the system clock.
#[verifier::external_body]
pub fn now() -> (t: Timestamp) {
    let t = chrono::Utc::now();
    Timestamp { secs: t.timestamp(), nanos: t.timestamp_subsec_nanos() }
}

/// When a note was created and last changed, and its flags.
#[derive(Debug, Clone, Copy, PartialEq, Eq, Structural)]
pub struct NoteMeta {
    pub created_at: Timestamp,
    pub updated_at: Timestamp,
    pub pinned: bool,
    pub archived: bool,
}

impl Default for NoteMeta {
    /// Created and updated now, neither pinned nor archived.
    fn default() -> (m: NoteMeta)
        ensures
            m.created_at == m.updated_at,
            !m.pinned,
            !m.archived,
    {
        let t = now();
        NoteMeta { created_at: t, updated_at: t, pinned: false, archived: false }
    }
}

/// A note: its identity, title, markdown body, tags and metadata.
#[derive(Debug)]
pub struct Note {
    pub id: NoteId,
    pub title: String,
    pub body: String,
    pub tags: Vec<String>,
    pub meta: NoteMeta,
}

/// The abstract value of a note, text as characters.
pub struct NoteV {
    pub id: NoteId,
    pub title: Seq<char>,
    pub body: Seq<char>,
    pub tags: Seq<Seq<char>>,
    pub meta: NoteMeta,
}

pub open spec fn note_view(n: Note) -> NoteV {
    NoteV { id: n.id, title: n.title@, body: n.body@, tags: crate::text::strings_view(n.tags@), meta: n.meta }
}

impl Note {
    /// A new note with a fresh identity, no tags, created now.
    pub fn new(title: String, body: String) -> (n: Note)
        ensures
            n.title == title,
            n.body == body,
            n.tags@.len() == 0,
            n.meta.created_at == n.meta.updated_at,
            !n.meta.pinned,
            !n.meta.archived,
    {
        Note { id: NoteId::new(), title, body, tags: Vec::new(), meta: NoteMeta::default() }
    }

    /// Marks the note as changed now; nothing else changes.
    pub fn touch(&mut self)
        ensures
            final(self).id == old(self).id,
            final(self).title == old(self).title,
            final(self).body == old(self).body,
            final(self).tags == old(self).tags,
            final(self).meta.created_at == old(self).meta.created_at,
            final(self).meta.pinned == old(self).meta.pinned,
            final(self).meta.archived == old(self).meta.archived,
    {
        self.meta.updated_at = now();
    }

    /// A copy of the note.
    pub fn duplicate(&self) -> (r: Note)
        ensures
            note_view(r) == note_view(*self),
    {
        let mut tags: Vec<String> = Vec::new();
        let mut i: usize = 0;
        while i < self.tags.len()
            invariant
                i <= self.tags.len(),
                crate::text::strings_view(tags@) == crate::text::strings_view(self.tags@).take(i as int),
            decreases self.tags.len() - i,
        {
            let ghost before = tags@;
            tags.push(self.tags[i].clone());
            proof {
                assert(crate::text::strings_view(tags@) =~= crate::text::strings_view(before).push(self.tags@[i as int]@));
                assert(crate::text::strings_view(self.tags@).take(i + 1) =~= crate::text::strings_view(self.tags@).take(i as int).push(self.tags@[i as int]@));
            }
            i = i + 1;
        }
        assert(crate::text::strings_view(self.tags@).take(self.tags@.len() as int) =~= crate::text::strings_view(self.tags@));
        Note { id: self.id, title: self.title.clone(), body: self.body.clone(), tags, meta: self.meta }
    }
}

/// How a link between two notes came about.
#[derive(Debug, Clone, Copy, PartialEq, Eq, Structural)]
pub enum LinkKind {
    /// Written by the author.
    Explicit,
    /// Inferred, for instance from similar content.
    Implicit,
}

/// The bit pattern of the weight 1.0 (an IEEE-754 double), given to
/// explicit links.
pub const EXPLICIT_WEIGHT_BITS: u64 = 0x3ff0_0000_0000_0000;

/// The bit pattern of the weight 0.5, given to implicit links.
pub const IMPLICIT_WEIGHT_BITS: u64 = 0x3fe0_0000_0000_0000;

/// An undirected link between two notes. The weight is held as the bit
/// pattern of an IEEE-754 double: the library carries it and never computes
/// with it.
#[derive(Debug, Clone, Copy, PartialEq, Eq, Structural)]
pub struct Link {
    pub source: NoteId,
    pub target: NoteId,
    pub kind: LinkKind,
    pub weight_bits: u64,
}

pub open spec fn default_weight_bits(kind: LinkKind) -> u64 {
    match kind {
        LinkKind::Explicit => EXPLICIT_WEIGHT_BITS,
        LinkKind::Implicit => IMPLICIT_WEIGHT_BITS,
    }
}

impl Link {
    /// A link weighted by its kind: 1.0 when explicit, 0.5 when implicit.
    pub fn new(source: NoteId, target: NoteId, kind: LinkKind) -> (l: Link)
        ensures
            l == (Link { source, target, kind, weight_bits: default_weight_bits(kind) }),
    {
        let weight_bits = match kind {
            LinkKind::Explicit => EXPLICIT_WEIGHT_BITS,
            LinkKind::Implicit => IMPLICIT_WEIGHT_BITS,
        };
        Link { source, target, kind, weight_bits }
    }

    pub fn with_weight(source: NoteId, target: NoteId, kind: LinkKind, weight_bits: u64) -> (l: Link)
        ensures
            l == (Link { source, target, kind, weight_bits }),
    {
        Link { source, target, kind, weight_bits }
    }

    /// The note at the other end from `id`, if `id` is an end of the link;
    /// the source is checked first.
    pub fn other(&self, id: &NoteId) -> (r: Option<NoteId>)
        ensures
            r == if self.source == *id {
                Some(self.target)
            } else if self.target == *id {
                Some(self.source)
            } else {
                None
            },
    {
        if self.source.0 == id.0 {
            Some(self.target)
        } else if self.target.0 == id.0 {
            Some(self.source)
        } else {
            None
        }
    }
}

} // verus!
