//! The vault's note files: the note a file stands for, and the text a note
//! is written as. Reading and writing the files, and the YAML of their
//! frontmatter, are the caller's.
use vstd::prelude::*;
use crate::error::PenumbraError;
use crate::markdown::frontmatter::frame_frontmatter;
use crate::markdown::links::{extract_inline_tags, extract_wikilinks, tags_v, wikilinks_v};
use crate::markdown::parser::{parse_document, parse_v};
use crate::notes::{Note, NoteId, NoteMeta, Timestamp, now};
use crate::text::{chars_of, lowercase, strings_view, to_lowercase};

verus! {

/// The file name extension of note files.
pub const NOTE_EXTENSION: &'static str = ".md";

/// What a note file's frontmatter holds, decoded.
pub struct FrontmatterData {
    pub id: u128,
    pub created_at: Timestamp,
    pub updated_at: Timestamp,
    pub tags: Vec<String>,
    pub pinned: bool,
    pub archived: bool,
}

/// A note as loaded from the vault, with what is needed to write it back.
pub struct StoredNote {
    pub note: Note,
    /// The file stem the note was loaded from.
    pub filename: String,
    /// The tags that came from the frontmatter: inline tags of the body are
    /// not moved into the frontmatter when the note is saved.
    pub fm_tags: Vec<String>,
}

/// The frontmatter tags, then each inline tag not already among the tags
/// gathered so far.
pub open spec fn merged_tags(fm: Seq<Seq<char>>, inline: Seq<Seq<char>>) -> Seq<Seq<char>>
    decreases inline.len(),
{
    if inline.len() == 0 {
        fm
    } else {
        let acc = merged_tags(fm, inline.drop_last());
        if acc.contains(inline.last()) {
            acc
        } else {
            acc.push(inline.last())
        }
    }
}

fn contains_string(v: &Vec<String>, s: &String) -> (r: bool)
    ensures
        r == strings_view(v@).contains(s@),
{
    let mut i: usize = 0;
    while i < v.len()
        invariant
            i <= v.len(),
            forall|j: int| 0 <= j < i ==> v@[j]@ != s@,
        decreases v.len() - i,
    {
        if v[i] == *s {
            assert(strings_view(v@)[i as int] == s@);
            return true;
        }
        i = i + 1;
    }
    assert forall|j: int| 0 <= j < strings_view(v@).len() implies strings_view(v@)[j] != s@ by {
        assert(strings_view(v@)[j] == v@[j]@);
    }
    false
}

/// A note's tags: those of its frontmatter, then its inline tags that are
/// not among them.
pub fn merge_tags(fm_tags: &Vec<String>, inline_tags: &Vec<String>) -> (r: Vec<String>)
    ensures
        strings_view(r@) == merged_tags(strings_view(fm_tags@), strings_view(inline_tags@)),
{
    let ghost fv = strings_view(fm_tags@);
    let ghost iv = strings_view(inline_tags@);
    let mut tags: Vec<String> = Vec::new();
    let mut i: usize = 0;
    while i < fm_tags.len()
        invariant
            i <= fm_tags.len(),
            fv == strings_view(fm_tags@),
            strings_view(tags@) == fv.take(i as int),
        decreases fm_tags.len() - i,
    {
        let ghost before = tags@;
        tags.push(fm_tags[i].clone());
        assert(strings_view(tags@) =~= strings_view(before).push(fm_tags@[i as int]@));
        assert(fv.take(i + 1) =~= fv.take(i as int).push(fm_tags@[i as int]@));
        i = i + 1;
    }
    assert(fv.take(fm_tags.len() as int) =~= fv);
    assert(iv.take(0) =~= Seq::<Seq<char>>::empty());
    let mut k: usize = 0;
    while k < inline_tags.len()
        invariant
            k <= inline_tags.len(),
            fv == strings_view(fm_tags@),
            iv == strings_view(inline_tags@),
            strings_view(tags@) == merged_tags(fv, iv.take(k as int)),
        decreases inline_tags.len() - k,
    {
        assert(iv.take(k + 1).drop_last() =~= iv.take(k as int));
        assert(iv.take(k + 1).last() == inline_tags@[k as int]@);
        if !contains_string(&tags, &inline_tags[k]) {
            let ghost before = tags@;
            tags.push(inline_tags[k].clone());
            assert(strings_view(tags@) =~= strings_view(before).push(inline_tags@[k as int]@));
        }
        k = k + 1;
    }
    assert(iv.take(inline_tags.len() as int) =~= iv);
    tags
}

/// The note a note file stands for, given its stem, its body and its
/// decoded frontmatter. Without frontmatter the note gets a fresh identity
/// and is created and updated now, with no frontmatter tags. Its tags are
/// the frontmatter's followed by the body's inline tags not among them. An
/// error when the body is not markdown the parser takes.
pub fn stored_note(stem: &str, body: String, frontmatter: Option<FrontmatterData>) -> (r: Result<StoredNote, PenumbraError>)
    ensures
        match parse_v(body@) {
            None => r is Err,
            Some(bs) => r matches Ok(s) && {
                let fm_tags = match frontmatter {
                    Some(fm) => strings_view(fm.tags@),
                    None => Seq::empty(),
                };
                &&& s.note.title@ == stem@
                &&& s.note.body == body
                &&& s.filename@ == stem@
                &&& strings_view(s.fm_tags@) == fm_tags
                &&& strings_view(s.note.tags@) == merged_tags(fm_tags, tags_v(bs))
                &&& match frontmatter {
                    Some(fm) => {
                        &&& s.note.id == NoteId(fm.id)
                        &&& s.note.meta == (NoteMeta {
                            created_at: fm.created_at,
                            updated_at: fm.updated_at,
                            pinned: fm.pinned,
                            archived: fm.archived,
                        })
                    },
                    None => {
                        &&& s.note.meta.created_at == s.note.meta.updated_at
                        &&& !s.note.meta.pinned
                        &&& !s.note.meta.archived
                    },
                }
            },
        },
{
    let doc = parse_document(body.as_str())?;
    let inline_tags = extract_inline_tags(&doc);
    let (id, meta, fm_tags) = match frontmatter {
        Some(fm) => (
            NoteId(fm.id),
            NoteMeta { created_at: fm.created_at, updated_at: fm.updated_at, pinned: fm.pinned, archived: fm.archived },
            fm.tags,
        ),
        None => {
            let t = now();
            let no_tags: Vec<String> = Vec::new();
            assert(strings_view(no_tags@) =~= Seq::<Seq<char>>::empty());
            (NoteId::new(), NoteMeta { created_at: t, updated_at: t, pinned: false, archived: false }, no_tags)
        },
    };
    let tags = merge_tags(&fm_tags, &inline_tags);
    Ok(StoredNote {
        note: Note { id, title: stem.to_owned(), body, tags, meta },
        filename: stem.to_owned(),
        fm_tags,
    })
}

/// The text a note file is written as: the framed frontmatter and the
/// body, with a newline added when the text does not end with one.
pub fn note_file_text(frontmatter_yaml: &str, body: &str) -> (r: String)
    ensures
        r@ == {
            let t = "---\n"@ + frontmatter_yaml@ + "---\n"@ + body@;
            if t.last() == '\n' {
                t
            } else {
                t.push('\n')
            }
        },
{
    let mut out = frame_frontmatter(frontmatter_yaml);
    out.push_str(body);
    let v = crate::text::chars_of(out.as_str());
    proof {
        reveal_strlit("---\n");
        assert(v@.len() > 0);
    }
    if v[v.len() - 1] != '\n' {
        out.push('\n');
    }
    out
}

/// The wikilink targets a note body refers to, each once in order of
/// first appearance; none when the body does not parse.
pub fn wikilink_targets(body: &str) -> (r: Vec<String>)
    ensures
        strings_view(r@) == match parse_v(body@) {
            Some(bs) => wikilinks_v(bs),
            None => Seq::empty(),
        },
{
    match parse_document(body) {
        Ok(doc) => extract_wikilinks(&doc),
        Err(_) => {
            let v: Vec<String> = Vec::new();
            assert(strings_view(v@) =~= Seq::<Seq<char>>::empty());
            v
        },
    }
}

/// Whether `a` sorts before `b` or equals it: characters compared by code
/// point, from the first on, a text before any longer text it begins.
pub open spec fn text_le(a: Seq<char>, b: Seq<char>) -> bool
    decreases a.len(),
{
    if a.len() == 0 {
        true
    } else if b.len() == 0 {
        false
    } else if a[0] != b[0] {
        (a[0] as u32) < (b[0] as u32)
    } else {
        text_le(a.drop_first(), b.drop_first())
    }
}

/// `s` with `x` inserted after the last element whose title does not sort
/// after `x`'s.
pub open spec fn insert_by_title(s: Seq<StoredNote>, x: StoredNote) -> Seq<StoredNote>
    decreases s.len(),
{
    if s.len() == 0 {
        seq![x]
    } else if text_le(s.last().note.title@, x.note.title@) {
        s.push(x)
    } else {
        insert_by_title(s.drop_last(), x).push(s.last())
    }
}

/// The stored notes in order of title; notes with equal titles keep their
/// order (a stable sort).
pub open spec fn sorted_by_title(s: Seq<StoredNote>) -> Seq<StoredNote>
    decreases s.len(),
{
    if s.len() == 0 {
        s
    } else {
        insert_by_title(sorted_by_title(s.drop_last()), s.last())
    }
}

fn title_le(a: &String, b: &String) -> (r: bool)
    ensures
        r == text_le(a@, b@),
{
    let av = chars_of(a.as_str());
    let bv = chars_of(b.as_str());
    let mut i: usize = 0;
    assert(a@.skip(0) =~= a@);
    assert(b@.skip(0) =~= b@);
    loop
        invariant
            av@ == a@,
            bv@ == b@,
            i <= av.len(),
            i <= bv.len(),
            text_le(a@, b@) == text_le(a@.skip(i as int), b@.skip(i as int)),
        decreases av.len() - i,
    {
        if i == av.len() {
            return true;
        }
        if i == bv.len() {
            return false;
        }
        let ca = av[i];
        let cb = bv[i];
        if ca != cb {
            return (ca as u32) < (cb as u32);
        }
        proof {
            assert(a@.skip(i as int).drop_first() =~= a@.skip(i + 1));
            assert(b@.skip(i as int).drop_first() =~= b@.skip(i + 1));
        }
        i = i + 1;
    }
}

proof fn lemma_insert_by_title_at(s: Seq<StoredNote>, x: StoredNote, j: int)
    requires
        0 <= j <= s.len(),
        forall|k: int| j <= k < s.len() ==> !text_le(#[trigger] s[k].note.title@, x.note.title@),
        j == 0 || text_le(s[j - 1].note.title@, x.note.title@),
    ensures
        insert_by_title(s, x) == s.insert(j, x),
    decreases s.len(),
{
    if s.len() == 0 {
        assert(s.insert(j, x) =~= seq![x]);
    } else if j == s.len() {
        assert(s.insert(j, x) =~= s.push(x));
    } else {
        let t = s.drop_last();
        assert(!text_le(s[s.len() - 1].note.title@, x.note.title@));
        lemma_insert_by_title_at(t, x, j);
        assert(t.insert(j, x).push(s.last()) =~= s.insert(j, x));
    }
}

/// Whether the stored notes are in order of title.
pub open spec fn title_ordered(s: Seq<StoredNote>) -> bool {
    forall|i: int, j: int| 0 <= i < j < s.len() ==> text_le(#[trigger] s[i].note.title@, #[trigger] s[j].note.title@)
}

proof fn lemma_text_le_total(a: Seq<char>, b: Seq<char>)
    ensures
        text_le(a, b) || text_le(b, a),
    decreases a.len(),
{
    if a.len() > 0 && b.len() > 0 {
        if a[0] == b[0] {
            lemma_text_le_total(a.drop_first(), b.drop_first());
        } else {
            vstd::utf8::char_u32_cast(a[0], a[0] as u32);
            vstd::utf8::char_u32_cast(b[0], b[0] as u32);
            assert((a[0] as u32) != (b[0] as u32));
        }
    }
}

proof fn lemma_text_le_transitive(a: Seq<char>, b: Seq<char>, c: Seq<char>)
    requires
        text_le(a, b),
        text_le(b, c),
    ensures
        text_le(a, c),
    decreases a.len(),
{
    if a.len() > 0 && b.len() > 0 && c.len() > 0 && a[0] == b[0] && b[0] == c[0] {
        lemma_text_le_transitive(a.drop_first(), b.drop_first(), c.drop_first());
    }
}

proof fn lemma_insert_by_title(s: Seq<StoredNote>, x: StoredNote)
    requires
        title_ordered(s),
    ensures
        title_ordered(insert_by_title(s, x)),
        insert_by_title(s, x).to_multiset() =~= s.to_multiset().insert(x),
        forall|i: int| 0 <= i < insert_by_title(s, x).len() ==> #[trigger] insert_by_title(s, x)[i] == x
            || s.contains(insert_by_title(s, x)[i]),
    decreases s.len(),
{
    broadcast use vstd::seq_lib::group_to_multiset_ensures;

    if s.len() == 0 {
        assert(seq![x] =~= Seq::<StoredNote>::empty().push(x));
    } else if text_le(s.last().note.title@, x.note.title@) {
        let r = s.push(x);
        assert forall|i: int, j: int| 0 <= i < j < r.len() implies text_le(#[trigger] r[i].note.title@, #[trigger] r[j].note.title@) by {
            if j == s.len() {
                if i < s.len() - 1 {
                    lemma_text_le_transitive(s[i].note.title@, s.last().note.title@, x.note.title@);
                }
            }
        }
        assert forall|i: int| 0 <= i < r.len() implies #[trigger] r[i] == x || s.contains(r[i]) by {
            if i < s.len() {
                assert(s[i] == r[i]);
            }
        }
    } else {
        let t = s.drop_last();
        let last = s.last();
        assert(title_ordered(t)) by {
            assert forall|i: int, j: int| 0 <= i < j < t.len() implies text_le(#[trigger] t[i].note.title@, #[trigger] t[j].note.title@) by {
                assert(t[i] == s[i] && t[j] == s[j]);
            }
        }
        lemma_insert_by_title(t, x);
        let m = insert_by_title(t, x);
        let r = m.push(last);
        lemma_text_le_total(last.note.title@, x.note.title@);
        assert forall|i: int| 0 <= i < m.len() implies text_le(#[trigger] m[i].note.title@, last.note.title@) by {
            if m[i] != x {
                assert(t.contains(m[i]));
                let k = choose|k: int| 0 <= k < t.len() && t[k] == m[i];
                assert(s[k] == t[k]);
                assert(text_le(s[k].note.title@, s[s.len() - 1].note.title@));
            }
        }
        assert forall|i: int, j: int| 0 <= i < j < r.len() implies text_le(#[trigger] r[i].note.title@, #[trigger] r[j].note.title@) by {
            if j < m.len() {
                assert(r[i] == m[i] && r[j] == m[j]);
            } else {
                assert(r[i] == m[i]);
            }
        }
        assert forall|i: int| 0 <= i < r.len() implies #[trigger] r[i] == x || s.contains(r[i]) by {
            if i < m.len() {
                assert(r[i] == m[i]);
                if m[i] != x {
                    let k = choose|k: int| 0 <= k < t.len() && t[k] == m[i];
                    assert(s[k] == t[k]);
                }
            } else {
                assert(s[s.len() - 1] == last);
            }
        }
        assert(s =~= t.push(last));
        assert(r.to_multiset() =~= m.to_multiset().insert(last));
        assert(s.to_multiset() =~= t.to_multiset().insert(last));
    }
}

proof fn lemma_sorted_by_title(s: Seq<StoredNote>)
    ensures
        title_ordered(sorted_by_title(s)),
        sorted_by_title(s).to_multiset() =~= s.to_multiset(),
    decreases s.len(),
{
    broadcast use vstd::seq_lib::group_to_multiset_ensures;

    if s.len() > 0 {
        lemma_sorted_by_title(s.drop_last());
        lemma_insert_by_title(sorted_by_title(s.drop_last()), s.last());
        assert(s =~= s.drop_last().push(s.last()));
    }
}

/// Sorts the stored notes by title, as a scan of the vault orders them;
/// equal titles keep their order.
pub fn sort_stored_by_title(stored: Vec<StoredNote>) -> (r: Vec<StoredNote>)
    ensures
        r@ == sorted_by_title(stored@),
        title_ordered(r@),
        r@.to_multiset() == stored@.to_multiset(),
{
    proof {
        lemma_sorted_by_title(stored@);
    }
    let ghost s = stored@;
    let mut rest = stored;
    let mut out: Vec<StoredNote> = Vec::new();
    let ghost mut i: int = 0;
    assert(s.take(0) =~= Seq::<StoredNote>::empty());
    assert(s.skip(0) =~= s);
    while rest.len() > 0
        invariant
            0 <= i <= s.len(),
            rest@ == s.skip(i),
            out@ == sorted_by_title(s.take(i)),
        decreases rest.len(),
    {
        let x = rest.remove(0);
        proof {
            assert(x == s[i]);
            assert(s.take(i + 1).drop_last() =~= s.take(i));
            assert(s.take(i + 1).last() == s[i]);
        }
        let mut j: usize = out.len();
        while j > 0 && !title_le(&out[j - 1].note.title, &x.note.title)
            invariant
                j <= out.len(),
                forall|k: int| j <= k < out.len() ==> !text_le(#[trigger] out@[k].note.title@, x.note.title@),
            decreases j,
        {
            j = j - 1;
        }
        proof {
            lemma_insert_by_title_at(out@, x, j as int);
        }
        out.insert(j, x);
        proof {
            assert(rest@ =~= s.skip(i + 1));
            i = i + 1;
        }
    }
    assert(s.take(s.len() as int) =~= s);
    out
}

/// What a scan records of each stored note, in order, unless an earlier
/// one had the same identity: the identity, the stem, and the stem
/// lowercased.
pub open spec fn scan_entries(s: Seq<StoredNote>) -> Seq<(NoteId, Seq<char>, Seq<char>)>
    decreases s.len(),
{
    if s.len() == 0 {
        Seq::empty()
    } else {
        let x = s.last();
        let before = scan_entries(s.drop_last());
        if exists|k: int| 0 <= k < s.len() - 1 && #[trigger] s[k].note.id == x.note.id {
            before
        } else {
            before.push((x.note.id, x.filename@, lowercase(x.filename@)))
        }
    }
}

pub open spec fn entries_view(v: Seq<(NoteId, String, String)>) -> Seq<(NoteId, Seq<char>, Seq<char>)> {
    v.map_values(|e: (NoteId, String, String)| (e.0, e.1@, e.2@))
}

proof fn lemma_scan_entries_ids(s: Seq<StoredNote>, id: NoteId)
    ensures
        (exists|k: int| 0 <= k < s.len() && #[trigger] s[k].note.id == id) <==> (exists|q: int|
            0 <= q < scan_entries(s).len() && #[trigger] scan_entries(s)[q].0 == id),
    decreases s.len(),
{
    if s.len() > 0 {
        let t = s.drop_last();
        lemma_scan_entries_ids(t, id);
        let x = s.last();
        if exists|k: int| 0 <= k < s.len() && #[trigger] s[k].note.id == id {
            let k = choose|k: int| 0 <= k < s.len() && #[trigger] s[k].note.id == id;
            if k < s.len() - 1 {
                assert(t[k].note.id == id);
                let q = choose|q: int| 0 <= q < scan_entries(t).len() && #[trigger] scan_entries(t)[q].0 == id;
                assert(scan_entries(s)[q].0 == id);
            } else if exists|k2: int| 0 <= k2 < s.len() - 1 && #[trigger] s[k2].note.id == x.note.id {
                let k2 = choose|k2: int| 0 <= k2 < s.len() - 1 && #[trigger] s[k2].note.id == x.note.id;
                assert(t[k2].note.id == id);
                let q = choose|q: int| 0 <= q < scan_entries(t).len() && #[trigger] scan_entries(t)[q].0 == id;
                assert(scan_entries(s)[q].0 == id);
            } else {
                let q = scan_entries(t).len() as int;
                assert(scan_entries(s)[q].0 == id);
            }
        }
        if exists|q: int| 0 <= q < scan_entries(s).len() && #[trigger] scan_entries(s)[q].0 == id {
            let q = choose|q: int| 0 <= q < scan_entries(s).len() && #[trigger] scan_entries(s)[q].0 == id;
            if q < scan_entries(t).len() {
                assert(scan_entries(t)[q].0 == id);
                let k = choose|k: int| 0 <= k < t.len() && #[trigger] t[k].note.id == id;
                assert(s[k].note.id == id);
            } else {
                assert(s[s.len() - 1].note.id == id);
            }
        }
    }
}

/// The entries of a scan's file name index, as `scan_entries` says: the
/// first note seen under each identity gives its stem, and the lowercased
/// stem to find it by.
pub fn scan_index(stored: &Vec<StoredNote>) -> (r: Vec<(NoteId, String, String)>)
    ensures
        entries_view(r@) == scan_entries(stored@),
{
    let ghost s = stored@;
    let mut out: Vec<(NoteId, String, String)> = Vec::new();
    let mut i: usize = 0;
    assert(s.take(0) =~= Seq::<StoredNote>::empty());
    assert(entries_view(out@) =~= Seq::<(NoteId, Seq<char>, Seq<char>)>::empty());
    while i < stored.len()
        invariant
            s == stored@,
            i <= stored.len(),
            entries_view(out@) == scan_entries(s.take(i as int)),
        decreases stored.len() - i,
    {
        let id = stored[i].note.id;
        let ghost t = s.take(i + 1);
        proof {
            assert(t.drop_last() =~= s.take(i as int));
            assert(t.last() == s[i as int]);
            lemma_scan_entries_ids(s.take(i as int), id);
        }
        let mut seen = false;
        let mut q: usize = 0;
        while q < out.len()
            invariant
                q <= out.len(),
                seen == exists|p: int| 0 <= p < q && #[trigger] out@[p].0 == id,
            decreases out.len() - q,
        {
            if out[q].0.0 == id.0 {
                seen = true;
            }
            q = q + 1;
        }
        proof {
            assert(forall|p: int| 0 <= p < out@.len() ==> #[trigger] entries_view(out@)[p].0 == out@[p].0);
            if seen {
                let p = choose|p: int| 0 <= p < out@.len() && #[trigger] out@[p].0 == id;
                assert(entries_view(out@)[p].0 == id);
                let k = choose|k: int| 0 <= k < s.take(i as int).len() && #[trigger] s.take(i as int)[k].note.id == id;
                assert(t[k].note.id == id);
            } else {
                if exists|k: int| 0 <= k < t.len() - 1 && #[trigger] t[k].note.id == id {
                    let k = choose|k: int| 0 <= k < t.len() - 1 && #[trigger] t[k].note.id == id;
                    assert(s.take(i as int)[k].note.id == id);
                    let p = choose|p: int| 0 <= p < scan_entries(s.take(i as int)).len() && #[trigger] scan_entries(s.take(i as int))[p].0 == id;
                    assert(out@[p].0 == entries_view(out@)[p].0);
                }
            }
        }
        if !seen {
            let name = stored[i].filename.clone();
            let lower = to_lowercase(stored[i].filename.as_str());
            let ghost before = out@;
            out.push((id, name, lower));
            proof {
                assert(entries_view(out@) =~= entries_view(before).push((id, stored[i as int].filename@, lowercase(stored[i as int].filename@))));
            }
        }
        i = i + 1;
    }
    assert(s.take(s.len() as int) =~= s);
    out
}

} // verus!
