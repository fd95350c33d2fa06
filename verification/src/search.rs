//! The exact parts of hybrid search: the query's words, how many of them a
//! note's text matches, how many of the asked tags it carries, and which
//! notes carry them all. The scores built from these counts are weighted
//! with floating-point factors by the caller.
use vstd::prelude::*;
use crate::notes::{Note, NoteId};
use crate::text::{
    alphanumeric, chars_of, drop_while_end, drop_while_start, is_whitespace, is_ws, lowercase,
    string_of, string_of_range, strings_view, to_lowercase,
};

verus! {

/// The words of `s`, `cur` holding the word begun before `s`: maximal runs
/// of characters that are not whitespace.
pub open spec fn words_from(s: Seq<char>, cur: Seq<char>) -> Seq<Seq<char>>
    decreases s.len(),
{
    if s.len() == 0 {
        if cur.len() == 0 {
            Seq::empty()
        } else {
            seq![cur]
        }
    } else if is_ws(s[0]) {
        if cur.len() == 0 {
            words_from(s.drop_first(), Seq::empty())
        } else {
            seq![cur] + words_from(s.drop_first(), Seq::empty())
        }
    } else {
        words_from(s.drop_first(), cur.push(s[0]))
    }
}

/// `str::split_whitespace`.
pub open spec fn words(s: Seq<char>) -> Seq<Seq<char>> {
    words_from(s, Seq::empty())
}

/// The words of a search query, lowercased.
pub fn query_tokens(query: &str) -> (r: Vec<String>)
    ensures
        strings_view(r@) == words(lowercase(query@)),
{
    let lower = to_lowercase(query);
    let v = chars_of(lower.as_str());
    let mut out: Vec<String> = Vec::new();
    let mut cur: Vec<char> = Vec::new();
    let mut i: usize = 0;
    assert(v@.skip(0) =~= v@);
    assert(strings_view(out@) + words_from(v@, cur@) =~= words(lowercase(query@)));
    while i < v.len()
        invariant
            i <= v.len(),
            v@ == lowercase(query@),
            strings_view(out@) + words_from(v@.skip(i as int), cur@) == words(lowercase(query@)),
        decreases v.len() - i,
    {
        let c = v[i];
        let ghost rest = v@.skip(i as int);
        assert(rest[0] == c);
        assert(rest.drop_first() =~= v@.skip(i + 1));
        if is_whitespace(c) {
            if cur.len() > 0 {
                let word = string_of(&cur);
                let ghost old_out = strings_view(out@);
                out.push(word);
                assert(strings_view(out@) =~= old_out.push(cur@));
                assert(old_out + (seq![cur@] + words_from(v@.skip(i + 1), Seq::empty()))
                    =~= old_out.push(cur@) + words_from(v@.skip(i + 1), Seq::empty()));
            }
            cur = Vec::new();
        } else {
            cur.push(c);
        }
        i = i + 1;
    }
    assert(v@.skip(v.len() as int) =~= Seq::<char>::empty());
    if cur.len() > 0 {
        let word = string_of(&cur);
        let ghost old_out = strings_view(out@);
        out.push(word);
        assert(strings_view(out@) =~= old_out.push(cur@));
        assert(old_out + seq![cur@] =~= old_out.push(cur@));
    } else {
        assert(strings_view(out@) + Seq::<Seq<char>>::empty() =~= strings_view(out@));
    }
    out
}

pub open spec fn not_alnum() -> spec_fn(char) -> bool {
    |c: char| !alphanumeric(c)
}

/// A word with the characters that are neither letters nor digits cut
/// from both ends (`str::trim_matches` with that predicate).
pub open spec fn trim_non_alnum(s: Seq<char>) -> Seq<char> {
    drop_while_end(drop_while_start(s, not_alnum()), not_alnum())
}

proof fn lemma_drop_start_skip(s: Seq<char>, p: spec_fn(char) -> bool, i: int)
    requires
        0 <= i <= s.len(),
        forall|j: int| 0 <= j < i ==> p(s[j]),
        i == s.len() || !p(s[i]),
    ensures
        drop_while_start(s, p) == s.skip(i),
    decreases i,
{
    if i > 0 {
        assert(s.drop_first().skip(i - 1) =~= s.skip(i));
        lemma_drop_start_skip(s.drop_first(), p, i - 1);
    } else {
        assert(s.skip(0) =~= s);
    }
}

proof fn lemma_drop_end_take(s: Seq<char>, p: spec_fn(char) -> bool, k: int)
    requires
        0 <= k <= s.len(),
        forall|j: int| k <= j < s.len() ==> p(s[j]),
        k == 0 || !p(s[k - 1]),
    ensures
        drop_while_end(s, p) == s.take(k),
    decreases s.len() - k,
{
    if k < s.len() {
        assert(s.drop_last().take(k) =~= s.take(k));
        lemma_drop_end_take(s.drop_last(), p, k);
    } else {
        assert(s.take(k) =~= s);
    }
}

fn trim_word(w: &String) -> (r: Vec<char>)
    ensures
        r@ == trim_non_alnum(w@),
{
    let v = chars_of(w.as_str());
    let mut lo: usize = 0;
    while lo < v.len() && !v[lo].is_alphanumeric()
        invariant
            lo <= v.len(),
            v@ == w@,
            forall|j: int| 0 <= j < lo ==> !alphanumeric(#[trigger] v@[j]),
        decreases v.len() - lo,
    {
        lo = lo + 1;
    }
    proof {
        lemma_drop_start_skip(v@, not_alnum(), lo as int);
    }
    let mut hi: usize = v.len();
    while hi > lo && !v[hi - 1].is_alphanumeric()
        invariant
            lo <= hi <= v.len(),
            v@ == w@,
            forall|j: int| hi <= j < v.len() ==> !alphanumeric(#[trigger] v@[j]),
        decreases hi,
    {
        hi = hi - 1;
    }
    let ghost t = v@.skip(lo as int);
    proof {
        assert forall|j: int| hi - lo <= j < t.len() implies not_alnum()(t[j]) by {
            assert(t[j] == v@[lo + j]);
        }
        if hi > lo {
            assert(t[hi - lo - 1] == v@[hi - 1]);
        }
        lemma_drop_end_take(t, not_alnum(), hi - lo);
        assert(t.take(hi - lo) =~= v@.subrange(lo as int, hi as int));
    }
    let mut out: Vec<char> = Vec::new();
    let mut i: usize = lo;
    while i < hi
        invariant
            lo <= i <= hi <= v.len(),
            out@ == v@.subrange(lo as int, i as int),
        decreases hi - i,
    {
        out.push(v[i]);
        assert(out@ =~= v@.subrange(lo as int, i + 1));
        i = i + 1;
    }
    out
}

/// Whether `n` occurs in `h` as a run of consecutive characters.
pub open spec fn has_sub(h: Seq<char>, n: Seq<char>) -> bool {
    exists|i: int| 0 <= i && i + n.len() <= h.len() && #[trigger] h.subrange(i, i + n.len()) == n
}

fn occurs_at(h: &Vec<char>, n: &Vec<char>, i: usize) -> (r: bool)
    requires
        i + n.len() <= h.len(),
    ensures
        r == (h@.subrange(i as int, i + n.len()) == n@),
{
    let mut k: usize = 0;
    while k < n.len()
        invariant
            k <= n.len(),
            i + n.len() <= h.len(),
            forall|j: int| 0 <= j < k ==> h@[i + j] == n@[j],
        decreases n.len() - k,
    {
        if h[i + k] != n[k] {
            assert(h@.subrange(i as int, i + n.len())[k as int] != n@[k as int]);
            return false;
        }
        k = k + 1;
    }
    assert(h@.subrange(i as int, i + n.len()) =~= n@);
    true
}

/// `str::contains` with a string pattern.
fn contains_run(h: &Vec<char>, n: &Vec<char>) -> (r: bool)
    ensures
        r == has_sub(h@, n@),
{
    if n.len() > h.len() {
        return false;
    }
    let last = h.len() - n.len();
    let mut i: usize = 0;
    while i < last
        invariant
            n.len() <= h.len(),
            last == h.len() - n.len(),
            i <= last,
            forall|j: int| 0 <= j < i ==> #[trigger] h@.subrange(j, j + n.len()) != n@,
        decreases last - i,
    {
        if occurs_at(h, n, i) {
            return true;
        }
        i = i + 1;
    }
    if occurs_at(h, n, last) {
        return true;
    }
    assert forall|j: int| 0 <= j && j + n@.len() <= h@.len() implies #[trigger] h@.subrange(j, j + n@.len()) != n@ by {
        assert(j < i || j == last);
    }
    false
}

/// What one query word adds: 3 when it occurs in the lowercased title, else
/// 1 when it occurs in the lowercased body, nothing when it is all
/// punctuation.
pub open spec fn token_hits(token: Seq<char>, title: Seq<char>, body: Seq<char>) -> nat {
    let t = trim_non_alnum(token);
    if t.len() == 0 {
        0
    } else if has_sub(title, t) {
        3
    } else if has_sub(body, t) {
        1
    } else {
        0
    }
}

pub open spec fn hits_v(tokens: Seq<Seq<char>>, title: Seq<char>, body: Seq<char>) -> nat
    decreases tokens.len(),
{
    if tokens.len() == 0 {
        0
    } else {
        hits_v(tokens.drop_last(), title, body) + token_hits(tokens.last(), title, body)
    }
}

proof fn lemma_hits_bound(tokens: Seq<Seq<char>>, title: Seq<char>, body: Seq<char>)
    ensures
        hits_v(tokens, title, body) <= 3 * tokens.len(),
    decreases tokens.len(),
{
    if tokens.len() > 0 {
        lemma_hits_bound(tokens.drop_last(), title, body);
    }
}

/// The hits of a list of query words are the sum of the hits of its
/// parts: each word counts on its own.
pub proof fn lemma_hits_additive(a: Seq<Seq<char>>, b: Seq<Seq<char>>, title: Seq<char>, body: Seq<char>)
    ensures
        hits_v(a + b, title, body) == hits_v(a, title, body) + hits_v(b, title, body),
    decreases b.len(),
{
    if b.len() == 0 {
        assert(a + b =~= a);
    } else {
        lemma_hits_additive(a, b.drop_last(), title, body);
        assert((a + b).drop_last() =~= a + b.drop_last());
        assert((a + b).last() == b.last());
    }
}

/// What one query word counts, stripped of surrounding punctuation: 3 when
/// it occurs in the title, whether or not it also occurs in the body; 1
/// when it occurs in the body and not in the title; nothing when it occurs
/// in neither or is punctuation only. A word in the title always counts
/// more than one in the body only.
pub proof fn lemma_word_hits(word: Seq<char>, title: Seq<char>, body: Seq<char>)
    ensures
        ({
            let w = trim_non_alnum(word);
            &&& w.len() > 0 && has_sub(title, w) ==> hits_v(seq![word], title, body) == 3
            &&& w.len() > 0 && !has_sub(title, w) && has_sub(body, w) ==> hits_v(seq![word], title, body) == 1
            &&& w.len() == 0 || (!has_sub(title, w) && !has_sub(body, w)) ==> hits_v(seq![word], title, body) == 0
        }),
        hits_v(seq![word], title, body) <= 3,
{
    assert(seq![word].drop_last() =~= Seq::<Seq<char>>::empty());
    assert(seq![word].last() == word);
    assert(hits_v(Seq::<Seq<char>>::empty(), title, body) == 0);
    assert(hits_v(seq![word], title, body) == token_hits(word, title, body));
}

/// How strongly a note's text matches the query words: each word found in
/// the title counts 3, each found only in the body counts 1. The text
/// relevance of the note is this count over three times the number of
/// words.
pub fn text_hits(query_tokens: &Vec<String>, note: &Note) -> (r: usize)
    requires
        query_tokens@.len() <= usize::MAX / 3,
    ensures
        r == hits_v(strings_view(query_tokens@), lowercase(note.title@), lowercase(note.body@)),
{
    let ghost tv = strings_view(query_tokens@);
    let ghost tl = lowercase(note.title@);
    let ghost bl = lowercase(note.body@);
    if query_tokens.len() == 0 {
        return 0;
    }
    let title_lower = chars_of(to_lowercase(note.title.as_str()).as_str());
    let body_lower = chars_of(to_lowercase(note.body.as_str()).as_str());
    let mut hits: usize = 0;
    let mut i: usize = 0;
    while i < query_tokens.len()
        invariant
            i <= query_tokens.len() <= usize::MAX / 3,
            tv == strings_view(query_tokens@),
            title_lower@ == tl,
            body_lower@ == bl,
            hits == hits_v(tv.take(i as int), tl, bl),
        decreases query_tokens.len() - i,
    {
        proof {
            assert(tv.take(i + 1).drop_last() =~= tv.take(i as int));
            assert(tv.take(i + 1).last() == query_tokens@[i as int]@);
            lemma_hits_bound(tv.take(i as int), tl, bl);
        }
        let token = trim_word(&query_tokens[i]);
        if token.len() > 0 {
            if contains_run(&title_lower, &token) {
                hits = hits + 3;
            } else if contains_run(&body_lower, &token) {
                hits = hits + 1;
            }
        }
        i = i + 1;
    }
    assert(tv.take(query_tokens.len() as int) =~= tv);
    hits
}

/// How many of the asked tags the note carries.
pub open spec fn matched_v(query_tags: Seq<Seq<char>>, tags: Seq<Seq<char>>) -> nat
    decreases query_tags.len(),
{
    if query_tags.len() == 0 {
        0
    } else {
        matched_v(query_tags.drop_last(), tags) + if tags.contains(query_tags.last()) {
            1nat
        } else {
            0nat
        }
    }
}

proof fn lemma_matched_bound(query_tags: Seq<Seq<char>>, tags: Seq<Seq<char>>)
    ensures
        matched_v(query_tags, tags) <= query_tags.len(),
    decreases query_tags.len(),
{
    if query_tags.len() > 0 {
        lemma_matched_bound(query_tags.drop_last(), tags);
    }
}

fn carries(tags: &Vec<String>, t: &String) -> (r: bool)
    ensures
        r == strings_view(tags@).contains(t@),
{
    let mut i: usize = 0;
    while i < tags.len()
        invariant
            i <= tags.len(),
            forall|j: int| 0 <= j < i ==> tags@[j]@ != t@,
        decreases tags.len() - i,
    {
        if tags[i] == *t {
            assert(strings_view(tags@)[i as int] == t@);
            return true;
        }
        i = i + 1;
    }
    assert forall|j: int| 0 <= j < strings_view(tags@).len() implies strings_view(tags@)[j] != t@ by {
        assert(strings_view(tags@)[j] == tags@[j]@);
    }
    false
}

/// How many of the asked tags the note carries; the tag relevance of the
/// note is this count over the number of asked tags.
pub fn tag_matches(query_tags: &Vec<String>, note: &Note) -> (r: usize)
    ensures
        r == matched_v(strings_view(query_tags@), strings_view(note.tags@)),
{
    let ghost qv = strings_view(query_tags@);
    let ghost nv = strings_view(note.tags@);
    if query_tags.len() == 0 || note.tags.len() == 0 {
        proof {
            if query_tags.len() > 0 {
                lemma_none_matched(qv, nv);
            }
        }
        return 0;
    }
    let mut count: usize = 0;
    let mut i: usize = 0;
    while i < query_tags.len()
        invariant
            i <= query_tags.len(),
            qv == strings_view(query_tags@),
            nv == strings_view(note.tags@),
            count == matched_v(qv.take(i as int), nv),
        decreases query_tags.len() - i,
    {
        proof {
            assert(qv.take(i + 1).drop_last() =~= qv.take(i as int));
            assert(qv.take(i + 1).last() == query_tags@[i as int]@);
            lemma_matched_bound(qv.take(i as int), nv);
        }
        if carries(&note.tags, &query_tags[i]) {
            count = count + 1;
        }
        i = i + 1;
    }
    assert(qv.take(query_tags.len() as int) =~= qv);
    count
}

proof fn lemma_none_matched(q: Seq<Seq<char>>, tags: Seq<Seq<char>>)
    requires
        tags.len() == 0,
    ensures
        matched_v(q, tags) == 0,
    decreases q.len(),
{
    if q.len() > 0 {
        lemma_none_matched(q.drop_last(), tags);
    }
}

/// Whether a note's tags include every asked tag.
pub open spec fn has_all(note_tags: Seq<Seq<char>>, tags: Seq<Seq<char>>) -> bool {
    forall|j: int| 0 <= j < tags.len() ==> note_tags.contains(#[trigger] tags[j])
}

/// The identities of the notes that carry every asked tag, in order.
pub open spec fn tagged_ids(notes: Seq<Note>, tags: Seq<Seq<char>>) -> Seq<NoteId>
    decreases notes.len(),
{
    if notes.len() == 0 {
        Seq::empty()
    } else {
        let rest = tagged_ids(notes.drop_last(), tags);
        if has_all(strings_view(notes.last().tags@), tags) {
            rest.push(notes.last().id)
        } else {
            rest
        }
    }
}

fn carries_all(note: &Note, tags: &Vec<String>) -> (r: bool)
    ensures
        r == has_all(strings_view(note.tags@), strings_view(tags@)),
{
    let ghost nv = strings_view(note.tags@);
    let ghost tv = strings_view(tags@);
    let mut i: usize = 0;
    while i < tags.len()
        invariant
            i <= tags.len(),
            nv == strings_view(note.tags@),
            tv == strings_view(tags@),
            forall|j: int| 0 <= j < i ==> nv.contains(#[trigger] tv[j]),
        decreases tags.len() - i,
    {
        if !carries(&note.tags, &tags[i]) {
            assert(tv[i as int] == tags@[i as int]@);
            return false;
        }
        assert(tv[i as int] == tags@[i as int]@);
        i = i + 1;
    }
    true
}

/// The notes a tag search keeps: `None` when no tag is asked, else the
/// identities of the notes that carry all of them, in the order given.
pub fn tag_filter(notes: &Vec<Note>, tags: &Vec<String>) -> (r: Option<Vec<NoteId>>)
    ensures
        match r {
            None => tags@.len() == 0,
            Some(ids) => tags@.len() > 0 && ids@ == tagged_ids(notes@, strings_view(tags@)),
        },
{
    if tags.len() == 0 {
        return None;
    }
    let ghost tv = strings_view(tags@);
    let mut ids: Vec<NoteId> = Vec::new();
    let mut i: usize = 0;
    while i < notes.len()
        invariant
            i <= notes.len(),
            tv == strings_view(tags@),
            ids@ == tagged_ids(notes@.take(i as int), tv),
        decreases notes.len() - i,
    {
        proof {
            assert(notes@.take(i + 1).drop_last() =~= notes@.take(i as int));
            assert(notes@.take(i + 1).last() == notes@[i as int]);
        }
        if carries_all(&notes[i], tags) {
            ids.push(notes[i].id);
        }
        i = i + 1;
    }
    assert(notes@.take(notes.len() as int) =~= notes@);
    Some(ids)
}

/// The index of the last note with the given identity (the one a map from
/// identities to notes, filled in order, keeps).
pub open spec fn last_note_with(notes: Seq<Note>, id: NoteId) -> Option<int>
    decreases notes.len(),
{
    if notes.len() == 0 {
        None
    } else if notes.last().id == id {
        Some(notes.len() - 1)
    } else {
        last_note_with(notes.drop_last(), id)
    }
}

/// Whether a tag filter lets the identity through.
pub open spec fn allowed_by(allowed: Option<Seq<NoteId>>, id: NoteId) -> bool {
    match allowed {
        None => true,
        Some(ids) => ids.contains(id),
    }
}

/// The hits a search scores, in order: each hit the tag filter lets through
/// and that names a note, as the hit's index and the index of that note.
pub open spec fn kept_hits_v(hits: Seq<NoteId>, notes: Seq<Note>, allowed: Option<Seq<NoteId>>) -> Seq<(int, int)>
    decreases hits.len(),
{
    if hits.len() == 0 {
        Seq::empty()
    } else {
        let rest = kept_hits_v(hits.drop_last(), notes, allowed);
        let id = hits.last();
        match last_note_with(notes, id) {
            Some(j) => if allowed_by(allowed, id) {
                rest.push(((hits.len() - 1) as int, j))
            } else {
                rest
            },
            None => rest,
        }
    }
}

pub open spec fn opt_ids_view(a: Option<Vec<NoteId>>) -> Option<Seq<NoteId>> {
    match a {
        None => None,
        Some(v) => Some(v@),
    }
}

fn last_note_index(notes: &Vec<Note>, id: NoteId) -> (r: Option<usize>)
    ensures
        match r {
            Some(j) => last_note_with(notes@, id) == Some(j as int),
            None => last_note_with(notes@, id) is None,
        },
{
    let mut k: usize = notes.len();
    assert(notes@.take(notes.len() as int) =~= notes@);
    while k > 0
        invariant
            k <= notes.len(),
            last_note_with(notes@, id) == last_note_with(notes@.take(k as int), id),
        decreases k,
    {
        proof {
            assert(notes@.take(k as int).drop_last() =~= notes@.take(k - 1));
            assert(notes@.take(k as int).last() == notes@[k - 1]);
        }
        if notes[k - 1].id.0 == id.0 {
            return Some(k - 1);
        }
        k = k - 1;
    }
    None
}

fn id_listed(ids: &Vec<NoteId>, id: NoteId) -> (r: bool)
    ensures
        r == ids@.contains(id),
{
    let mut i: usize = 0;
    while i < ids.len()
        invariant
            i <= ids.len(),
            forall|j: int| 0 <= j < i ==> ids@[j] != id,
        decreases ids.len() - i,
    {
        if ids[i].0 == id.0 {
            return true;
        }
        i = i + 1;
    }
    false
}

/// Picks the hits a search scores, as `kept_hits_v` says: those the tag
/// filter (`None` for no filter) lets through and that name a note.
pub fn kept_hits(hits: &Vec<NoteId>, notes: &Vec<Note>, allowed: &Option<Vec<NoteId>>) -> (r: Vec<(usize, usize)>)
    ensures
        r@.map_values(|p: (usize, usize)| (p.0 as int, p.1 as int)) == kept_hits_v(hits@, notes@, opt_ids_view(*allowed)),
{
    let ghost al = opt_ids_view(*allowed);
    let mut out: Vec<(usize, usize)> = Vec::new();
    let mut i: usize = 0;
    assert(out@.map_values(|p: (usize, usize)| (p.0 as int, p.1 as int)) =~= Seq::<(int, int)>::empty());
    while i < hits.len()
        invariant
            i <= hits.len(),
            al == opt_ids_view(*allowed),
            out@.map_values(|p: (usize, usize)| (p.0 as int, p.1 as int)) == kept_hits_v(hits@.take(i as int), notes@, al),
        decreases hits.len() - i,
    {
        let ghost before = out@.map_values(|p: (usize, usize)| (p.0 as int, p.1 as int));
        proof {
            assert(hits@.take(i + 1).drop_last() =~= hits@.take(i as int));
            assert(hits@.take(i + 1).last() == hits@[i as int]);
        }
        let id = hits[i];
        let ok = match allowed {
            None => true,
            Some(ids) => id_listed(ids, id),
        };
        if ok {
            match last_note_index(notes, id) {
                Some(j) => {
                    out.push((i, j));
                    assert(out@.map_values(|p: (usize, usize)| (p.0 as int, p.1 as int)) =~= before.push((i as int, j as int)));
                },
                None => {},
            }
        }
        i = i + 1;
    }
    assert(hits@.take(hits.len() as int) =~= hits@);
    out
}

} // verus!
