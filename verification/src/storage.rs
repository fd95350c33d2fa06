//! File names for vault notes: a safe stem from a title, and a free one
//! when the stem is in use.
use vstd::prelude::*;
use crate::text::{
    chars_of, decimal, decimal_string, drop_while_end, drop_while_start, is_whitespace, is_ws,
    lowercase, string_of_range, strings_view, to_lowercase, trim, trim_seq, trim_start_seq, ws_pred,
    lemma_decimal_injective,
};
use crate::universe::{eq_ascii_ci, equal_ignoring_ascii_case};

verus! {

/// The longest stem, in characters.
pub const MAX_STEM_CHARS: usize = 100;

/// What `sanitize_filename::sanitize_with_options` makes of a name with the
/// given options: characters that file systems refuse replaced.
pub uninterp spec fn sanitized_name(name: Seq<char>, windows: bool, truncate: bool, replacement: Seq<char>) -> Seq<char>;

/// Whether a file system accepts a character in a name: none of
/// `/ ? < > \ : * | "`, and no control character (U+0000 to U+001F and
/// U+0080 to U+009F).
pub open spec fn file_safe(c: char) -> bool {
    &&& c != '/' && c != '?' && c != '<' && c != '>' && c != '\\'
    &&& c != ':' && c != '*' && c != '|' && c != '"'
    &&& !((c as u32) <= 0x1f)
    &&& !(0x80 <= (c as u32) && (c as u32) <= 0x9f)
}

/// Whether every character of `s` is one a file system accepts.
pub open spec fn all_file_safe(s: Seq<char>) -> bool {
    forall|i: int| 0 <= i < s.len() ==> file_safe(#[trigger] s[i])
}

/// `sanitize_filename::sanitize_with_options(name, Options { windows,
/// truncate, replacement })`. Trusted: the result is `sanitized_name` of
/// these values; the crate's regular expressions make it a function of them.
/// From its source: each step only replaces matches of its expressions
/// (the refused characters, the control characters, names of dots only,
/// and on Windows reserved names and trailing dots and spaces) by the
/// replacement, or cuts the name short, so with a replacement of
/// acceptable characters no refused or control character remains; and no
/// expression matches an empty name, which stays empty.
#[verifier::external_body]
fn sanitize_with_options(name: &str, windows: bool, truncate: bool, replacement: &str) -> (r: String)
    ensures
        r@ == sanitized_name(name@, windows, truncate, replacement@),
        all_file_safe(replacement@) ==> all_file_safe(r@),
        name@.len() == 0 ==> r@.len() == 0,
{
    sanitize_filename::sanitize_with_options(name, sanitize_filename::Options { windows, truncate, replacement })
}

/// Every run of whitespace replaced by one space, `prev` telling whether
/// the text before ended in such a run.
pub open spec fn collapse_ws(s: Seq<char>, prev: bool) -> Seq<char>
    decreases s.len(),
{
    if s.len() == 0 {
        Seq::empty()
    } else if is_ws(s[0]) {
        if prev {
            collapse_ws(s.drop_first(), true)
        } else {
            seq![' '] + collapse_ws(s.drop_first(), true)
        }
    } else {
        seq![s[0]] + collapse_ws(s.drop_first(), false)
    }
}

pub open spec fn dot_pred() -> spec_fn(char) -> bool {
    |c: char| c == '.'
}

pub open spec fn dot_or_space_pred() -> spec_fn(char) -> bool {
    |c: char| c == '.' || c == ' '
}

/// The stem for an already sanitized name: whitespace runs collapsed, the
/// ends trimmed, leading dots dropped, at most 100 characters kept, then
/// trailing dots and spaces dropped, and `Untitled` when nothing is left.
pub open spec fn stem_of(replaced: Seq<char>) -> Seq<char> {
    let s = drop_while_start(trim_seq(collapse_ws(replaced, false)), dot_pred());
    let capped = if s.len() > 100 {
        s.take(100)
    } else {
        s
    };
    let t = drop_while_end(capped, dot_or_space_pred());
    if t.len() == 0 {
        "Untitled"@
    } else {
        t
    }
}

/// The stem for a note title.
pub open spec fn title_stem(title: Seq<char>) -> Seq<char> {
    stem_of(sanitized_name(title, true, false, "-"@))
}

/// A stem is never empty, never longer than 100 characters, and never ends
/// with a dot or a space.
pub proof fn lemma_stem_bounds(replaced: Seq<char>)
    ensures
        1 <= stem_of(replaced).len() <= 100,
        stem_of(replaced).last() != '.' && stem_of(replaced).last() != ' ',
{
    reveal_strlit("Untitled");
    let s = drop_while_start(trim_seq(collapse_ws(replaced, false)), dot_pred());
    let capped = if s.len() > 100 {
        s.take(100)
    } else {
        s
    };
    crate::text::lemma_drop_while_end_last(capped, dot_or_space_pred());
    assert("Untitled"@.last() == 'd');
}

proof fn lemma_drop_start_safe(s: Seq<char>, p: spec_fn(char) -> bool)
    requires
        all_file_safe(s),
    ensures
        all_file_safe(drop_while_start(s, p)),
    decreases s.len(),
{
    if s.len() > 0 && p(s[0]) {
        assert forall|i: int| 0 <= i < s.drop_first().len() implies file_safe(#[trigger] s.drop_first()[i]) by {
            assert(s.drop_first()[i] == s[i + 1]);
        }
        lemma_drop_start_safe(s.drop_first(), p);
    }
}

proof fn lemma_drop_end_safe(s: Seq<char>, p: spec_fn(char) -> bool)
    requires
        all_file_safe(s),
    ensures
        all_file_safe(drop_while_end(s, p)),
    decreases s.len(),
{
    if s.len() > 0 && p(s.last()) {
        assert forall|i: int| 0 <= i < s.drop_last().len() implies file_safe(#[trigger] s.drop_last()[i]) by {
            assert(s.drop_last()[i] == s[i]);
        }
        lemma_drop_end_safe(s.drop_last(), p);
    }
}

proof fn lemma_collapse_safe(s: Seq<char>, prev: bool)
    requires
        all_file_safe(s),
    ensures
        all_file_safe(collapse_ws(s, prev)),
    decreases s.len(),
{
    if s.len() > 0 {
        let t = s.drop_first();
        assert forall|i: int| 0 <= i < t.len() implies file_safe(#[trigger] t[i]) by {
            assert(t[i] == s[i + 1]);
        }
        lemma_collapse_safe(t, true);
        lemma_collapse_safe(t, false);
        assert(file_safe(' '));
        assert(file_safe(s[0]));
        let c = collapse_ws(s, prev);
        if is_ws(s[0]) && !prev {
            assert(c =~= seq![' '] + collapse_ws(t, true));
            assert forall|i: int| 0 <= i < c.len() implies file_safe(#[trigger] c[i]) by {
                if i > 0 {
                    assert(c[i] == collapse_ws(t, true)[i - 1]);
                }
            }
        } else if !is_ws(s[0]) {
            assert(c =~= seq![s[0]] + collapse_ws(t, false));
            assert forall|i: int| 0 <= i < c.len() implies file_safe(#[trigger] c[i]) by {
                if i > 0 {
                    assert(c[i] == collapse_ws(t, false)[i - 1]);
                }
            }
        }
    }
}

/// A stem keeps no character that file systems refuse, given a sanitized
/// name that holds none; the stem of an empty name is `Untitled`.
pub proof fn lemma_stem_safe(replaced: Seq<char>)
    ensures
        all_file_safe(replaced) ==> all_file_safe(stem_of(replaced)),
        replaced.len() == 0 ==> stem_of(replaced) == "Untitled"@,
{
    reveal_strlit("Untitled");
    let u = "Untitled"@;
    assert(u =~= seq!['U', 'n', 't', 'i', 't', 'l', 'e', 'd']);
    assert(all_file_safe(u));
    if all_file_safe(replaced) {
        let c = collapse_ws(replaced, false);
        lemma_collapse_safe(replaced, false);
        lemma_drop_start_safe(c, ws_pred());
        lemma_drop_end_safe(trim_start_seq(c), ws_pred());
        let s = drop_while_start(trim_seq(c), dot_pred());
        lemma_drop_start_safe(trim_seq(c), dot_pred());
        let capped = if s.len() > 100 {
            s.take(100)
        } else {
            s
        };
        assert(all_file_safe(capped));
        lemma_drop_end_safe(capped, dot_or_space_pred());
    }
    if replaced.len() == 0 {
        assert(collapse_ws(replaced, false).len() == 0);
    }
}

/// Converts a note title into a safe file stem: never empty, at most 100
/// characters, free of the characters file systems refuse, and `Untitled`
/// for an empty title.
pub fn sanitize_title_to_stem(title: &str) -> (r: String)
    ensures
        r@ == title_stem(title@),
        all_file_safe(r@),
        1 <= r@.len() <= 100,
        title@.len() == 0 ==> r@ == "Untitled"@,
{
    proof {
        reveal_strlit("-");
        assert(all_file_safe("-"@));
    }
    let replaced = sanitize_with_options(title, true, false, "-");
    proof {
        lemma_stem_safe(replaced@);
        lemma_stem_bounds(replaced@);
    }
    let v = chars_of(replaced.as_str());
    let mut stem = String::new();
    let mut prev_space = false;
    let mut i: usize = 0;
    assert(v@.skip(0) =~= v@);
    while i < v.len()
        invariant
            i <= v.len(),
            v@ == replaced@,
            stem@ + collapse_ws(v@.skip(i as int), prev_space) == collapse_ws(replaced@, false),
        decreases v.len() - i,
    {
        let ch = v[i];
        let ghost rest = v@.skip(i as int);
        assert(rest[0] == ch);
        assert(rest.drop_first() =~= v@.skip(i + 1));
        let ghost before = stem@;
        if is_whitespace(ch) {
            if !prev_space {
                stem.push(' ');
                prev_space = true;
                assert(before + (seq![' '] + collapse_ws(v@.skip(i + 1), true)) =~= stem@ + collapse_ws(v@.skip(i + 1), true));
            }
        } else {
            stem.push(ch);
            prev_space = false;
            assert(before + (seq![ch] + collapse_ws(v@.skip(i + 1), false)) =~= stem@ + collapse_ws(v@.skip(i + 1), false));
        }
        i = i + 1;
    }
    assert(v@.skip(i as int).len() == 0);
    assert(stem@ + Seq::<char>::empty() =~= stem@);
    let trimmed = trim(stem.as_str());
    let w = chars_of(trimmed.as_str());
    let mut lo: usize = 0;
    while lo < w.len() && w[lo] == '.'
        invariant
            lo <= w.len(),
            forall|k: int| 0 <= k < lo ==> (dot_pred())(#[trigger] w@[k]),
        decreases w.len() - lo,
    {
        lo = lo + 1;
    }
    let top = if w.len() - lo > MAX_STEM_CHARS {
        lo + MAX_STEM_CHARS
    } else {
        w.len()
    };
    let mut hi: usize = top;
    while hi > lo && (w[hi - 1] == '.' || w[hi - 1] == ' ')
        invariant
            lo <= hi <= top <= w.len(),
            forall|k: int| hi <= k < top ==> (dot_or_space_pred())(#[trigger] w@[k]),
        decreases hi,
    {
        hi = hi - 1;
    }
    proof {
        crate::text::lemma_drop_while_start(w@, dot_pred(), lo as int);
        let a = w@.skip(lo as int);
        let c = w@.subrange(lo as int, top as int);
        if a.len() > 100 {
            assert(c =~= a.take(100));
        } else {
            assert(c =~= a);
        }
        assert forall|k: int| hi - lo <= k < c.len() implies (dot_or_space_pred())(#[trigger] c[k]) by {
            assert(c[k] == w@[k + lo]);
        }
        if hi > lo {
            assert(c[hi - lo - 1] == w@[hi - 1]);
        }
        crate::text::lemma_drop_while_end(c, dot_or_space_pred(), hi - lo);
        assert(c.take(hi - lo) =~= w@.subrange(lo as int, hi as int));
    }
    let capped = string_of_range(&w, lo, hi);
    if capped.as_str().is_empty() {
        return "Untitled".to_owned();
    }
    capped
}

/// The `n`-th candidate for a stem: the stem itself, then `stem 2`,
/// `stem 3` and so on.
pub open spec fn candidate(base: Seq<char>, n: nat) -> Seq<char> {
    if n < 2 {
        base
    } else {
        base + seq![' '] + decimal(n)
    }
}

/// The first `n >= 2` (or the stem itself, as 1) whose candidate is free.
pub open spec fn first_free(base: Seq<char>, taken: Seq<Seq<char>>, n: nat) -> bool {
    &&& !taken.contains(candidate(base, n))
    &&& forall|k: nat| k < n && (k == 1 || k >= 2) ==> taken.contains(#[trigger] candidate(base, k))
}

proof fn lemma_candidates_distinct(base: Seq<char>, j: nat, k: nat)
    requires
        j != k,
        j == 1 || j >= 2,
        k == 1 || k >= 2,
    ensures
        candidate(base, j) != candidate(base, k),
{
    if j >= 2 && k >= 2 {
        if candidate(base, j) == candidate(base, k) {
            let a = base + seq![' '] + decimal(j);
            let b = base + seq![' '] + decimal(k);
            assert(a.skip(base.len() + 1 as int) =~= decimal(j));
            assert(b.skip(base.len() + 1 as int) =~= decimal(k));
            lemma_decimal_injective(j, k);
        }
    } else if j >= 2 || k >= 2 {
        assert(candidate(base, j).len() != candidate(base, k).len());
    }
}

fn is_taken(taken: &Vec<String>, s: &String) -> (r: bool)
    ensures
        r == strings_view(taken@).contains(s@),
{
    let mut i: usize = 0;
    while i < taken.len()
        invariant
            i <= taken.len(),
            forall|j: int| 0 <= j < i ==> taken@[j]@ != s@,
        decreases taken.len() - i,
    {
        if taken[i] == *s {
            assert(strings_view(taken@)[i as int] == s@);
            return true;
        }
        i = i + 1;
    }
    assert forall|j: int| 0 <= j < strings_view(taken@).len() implies strings_view(taken@)[j] != s@ by {
        assert(strings_view(taken@)[j] == taken@[j]@);
    }
    false
}

/// Appends numeric suffixes (` 2`, ` 3`, ...) to the stem until it is not
/// one of the `taken` stems; a free stem is kept as it is.
pub fn dedupe_stem(candidate_stem: String, taken: &Vec<String>) -> (r: String)
    requires
        taken@.len() < u64::MAX - 1,
    ensures
        exists|n: nat| (n == 1 || n >= 2) && r@ == candidate(candidate_stem@, n) && first_free(
            candidate_stem@,
            strings_view(taken@),
            n,
        ),
        !strings_view(taken@).contains(r@),
{
    let ghost base = candidate_stem@;
    let ghost tv = strings_view(taken@);
    let base_str = candidate_stem.clone();
    let mut current = candidate_stem;
    let mut n: u64 = 2;
    let ghost mut seen: Set<Seq<char>> = Set::empty().insert(base);
    proof {
        tv.lemma_cardinality_of_set();
        vstd::seq_lib::seq_to_set_is_finite(tv);
        assert(candidate(base, 1) == base);
    }
    while is_taken(taken, &current)
        invariant
            base_str@ == base,
            tv == strings_view(taken@),
            2 <= n <= taken@.len() + 2,
            current@ == candidate(base, if n == 2 { 1 } else { (n - 1) as nat }),
            seen.finite(),
            seen.len() == n - 1,
            forall|k: nat| k < n - 1 && (k == 1 || k >= 2) ==> tv.contains(#[trigger] candidate(base, k)),
            forall|x: Seq<char>| seen.contains(x) ==> exists|k: nat| k < n && (k == 1 || k >= 2) && x == #[trigger] candidate(base, k),
            forall|k: nat| k < n && (k == 1 || k >= 2) ==> seen.contains(#[trigger] candidate(base, k)),
            tv.to_set().len() <= taken@.len(),
            tv.to_set().finite(),
            taken@.len() < u64::MAX - 1,
        decreases taken@.len() + 2 - n,
    {
        let ghost prev = if n == 2 { 1nat } else { (n - 1) as nat };
        proof {
            assert(tv.contains(current@));
            // Every candidate tried so far is taken, and they are all different.
            assert forall|x: Seq<char>| seen.contains(x) implies tv.to_set().contains(x) by {
                let k = choose|k: nat| k < n && (k == 1 || k >= 2) && x == #[trigger] candidate(base, k);
                if k < n - 1 {
                    assert(tv.contains(candidate(base, k)));
                } else {
                    assert(k == prev);
                }
            }
            vstd::set_lib::lemma_len_subset(seen, tv.to_set());
            assert(!seen.contains(candidate(base, n as nat))) by {
                if seen.contains(candidate(base, n as nat)) {
                    let k = choose|k: nat| k < n && (k == 1 || k >= 2) && candidate(base, n as nat) == #[trigger] candidate(base, k);
                    lemma_candidates_distinct(base, k, n as nat);
                }
            }
        }
        let mut next = base_str.clone();
        next.push(' ');
        let digits = decimal_string(n);
        next.push_str(digits.as_str());
        current = next;
        proof {
            seen = seen.insert(candidate(base, n as nat));
            assert forall|x: Seq<char>| seen.contains(x) implies exists|k: nat| k < n + 1 && (k == 1 || k >= 2) && x == #[trigger] candidate(base, k) by {
                if x == candidate(base, n as nat) {
                } else {
                    let k = choose|k: nat| k < n && (k == 1 || k >= 2) && x == #[trigger] candidate(base, k);
                }
            }
        }
        n = n + 1;
    }
    proof {
        let m = if n == 2 { 1nat } else { (n - 1) as nat };
        assert forall|k: nat| k < m && (k == 1 || k >= 2) implies tv.contains(#[trigger] candidate(base, k)) by {}
        assert(first_free(base, tv, m));
    }
    current
}

/// The first candidate (the stem itself as 1, then 2, 3, ...) whose
/// lowercase form is not among `taken`.
pub open spec fn first_free_lowercase(base: Seq<char>, taken: Seq<Seq<char>>, n: nat) -> bool {
    &&& !taken.contains(lowercase(candidate(base, n)))
    &&& forall|k: nat| k < n && (k == 1 || k >= 2) ==> taken.contains(#[trigger] lowercase(candidate(base, k)))
}

/// The candidates tried against `m` taken stems: the stem itself and the
/// suffixes 2 to `m + 1`, one more than there are taken stems.
pub open spec fn tried(m: nat, k: nat) -> bool {
    k == 1 || 2 <= k <= m + 1
}

/// Like `dedupe_stem`, with candidates compared by their lowercase forms
/// against `taken_lowercase`. One more candidate is tried than there are
/// taken stems; `None` says that the lowercase form of each was taken.
pub fn dedupe_stem_lowercase(desired: &String, taken_lowercase: &Vec<String>) -> (r: Option<String>)
    requires
        taken_lowercase@.len() < u64::MAX - 1,
    ensures
        match r {
            Some(s) => exists|n: nat| tried(taken_lowercase@.len(), n) && s@ == candidate(desired@, n)
                && first_free_lowercase(desired@, strings_view(taken_lowercase@), n),
            None => forall|k: nat| tried(taken_lowercase@.len(), k) ==> strings_view(taken_lowercase@).contains(
                #[trigger] lowercase(candidate(desired@, k)),
            ),
        },
{
    let ghost base = desired@;
    let ghost tv = strings_view(taken_lowercase@);
    let m = taken_lowercase.len() as u64;
    let mut n: u64 = 1;
    let mut current = desired.clone();
    while n <= m + 1
        invariant
            m == taken_lowercase@.len(),
            m < u64::MAX - 1,
            tv == strings_view(taken_lowercase@),
            base == desired@,
            1 <= n <= m + 2,
            n <= m + 1 ==> current@ == candidate(base, n as nat),
            forall|k: nat| k < n && (k == 1 || k >= 2) ==> tv.contains(#[trigger] lowercase(candidate(base, k))),
        decreases m + 2 - n,
    {
        let low = to_lowercase(current.as_str());
        if !is_taken(taken_lowercase, &low) {
            return Some(current);
        }
        n = n + 1;
        if n <= m + 1 {
            let mut next = desired.clone();
            next.push(' ');
            let digits = decimal_string(n);
            next.push_str(digits.as_str());
            current = next;
        }
    }
    None
}

/// How a save names a note's file.
pub enum StemPlan {
    /// The note keeps the file it has.
    Keep(String),
    /// The note is written under `new`, and the file it had, if any, goes.
    Write { old: Option<String>, new: String },
}

/// Whether a note's current stem stands for the desired one: equal but for
/// ASCII case.
pub open spec fn keeps_stem(current: Option<String>, desired: Seq<char>) -> bool {
    current matches Some(c) && eq_ascii_ci(c@, desired)
}

/// Plans the file name of a save: a current stem equal to the desired one
/// but for ASCII case is kept; otherwise the note is written under the
/// first free candidate of the desired stem, compared by lowercase form
/// with the stems that other notes hold (`taken_lowercase`, lowercased).
/// `None` when no candidate tried was free (see `dedupe_stem_lowercase`).
pub fn plan_stem(desired: String, current: Option<String>, taken_lowercase: &Vec<String>) -> (r: Option<StemPlan>)
    requires
        taken_lowercase@.len() < u64::MAX - 1,
    ensures
        keeps_stem(current, desired@) ==> r == Some(StemPlan::Keep(current->0)),
        !keeps_stem(current, desired@) ==> match r {
            Some(p) => p matches StemPlan::Write { old, new } && old == current && exists|n: nat| tried(
                taken_lowercase@.len(),
                n,
            ) && new@ == candidate(desired@, n) && first_free_lowercase(desired@, strings_view(taken_lowercase@), n),
            None => forall|k: nat| tried(taken_lowercase@.len(), k) ==> strings_view(taken_lowercase@).contains(
                #[trigger] lowercase(candidate(desired@, k)),
            ),
        },
{
    let keep = match &current {
        Some(c) => equal_ignoring_ascii_case(&chars_of(c.as_str()), &chars_of(desired.as_str())),
        None => false,
    };
    if keep {
        return match current {
            Some(c) => Some(StemPlan::Keep(c)),
            None => None,
        };
    }
    match dedupe_stem_lowercase(&desired, taken_lowercase) {
        Some(new) => Some(StemPlan::Write { old: current, new }),
        None => None,
    }
}

} // verus!
