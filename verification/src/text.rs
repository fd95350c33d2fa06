//! Character-level helpers shared by the text-processing modules.
use vstd::prelude::*;

verus! {

/// Appending a string slice to a `String` extends its characters.
pub assume_specification[ String::push_str ](s: &mut String, t: &str)
    ensures
        final(s)@ == old(s)@ + t@,
;

/// Pushing a character onto a `String` appends it.
pub assume_specification[ String::push ](s: &mut String, c: char)
    ensures
        final(s)@ == old(s)@.push(c),
;

/// Whether a character is alphabetic or numeric in the Unicode sense; the
/// tables behind it are std's.
pub uninterp spec fn alphanumeric(c: char) -> bool;

/// `char::is_alphanumeric`: the result is the Unicode `Alphabetic` or
/// `Numeric` property of the character, named `alphanumeric` here.
pub assume_specification[ char::is_alphanumeric ](c: char) -> (r: bool)
    ensures
        r == alphanumeric(c),
;

/// Unicode `White_Space`, the set that `char::is_whitespace` tests.
pub open spec fn is_ws(c: char) -> bool {
    let u = c as u32;
    ||| 0x9 <= u <= 0xd
    ||| u == 0x20
    ||| u == 0x85
    ||| u == 0xa0
    ||| u == 0x1680
    ||| 0x2000 <= u <= 0x200a
    ||| u == 0x2028
    ||| u == 0x2029
    ||| u == 0x202f
    ||| u == 0x205f
    ||| u == 0x3000
}

/// ASCII whitespace as `u8::is_ascii_whitespace` defines it.
pub open spec fn is_ascii_ws_byte(b: u8) -> bool {
    b == 0x20 || b == 0x09 || b == 0x0a || b == 0x0c || b == 0x0d
}

pub open spec fn is_digit(c: char) -> bool {
    '0' <= c && c <= '9'
}

/// Whether `c` is whitespace in the Unicode sense.
pub fn is_whitespace(c: char) -> (r: bool)
    ensures
        r == is_ws(c),
{
    let u = c as u32;
    (0x9 <= u && u <= 0xd) || u == 0x20 || u == 0x85 || u == 0xa0 || u == 0x1680 || (0x2000 <= u
        && u <= 0x200a) || u == 0x2028 || u == 0x2029 || u == 0x202f || u == 0x205f || u == 0x3000
}

/// Drops the longest prefix whose characters satisfy `p`.
pub open spec fn drop_while_start(s: Seq<char>, p: spec_fn(char) -> bool) -> Seq<char>
    decreases s.len(),
{
    if s.len() > 0 && p(s[0]) {
        drop_while_start(s.drop_first(), p)
    } else {
        s
    }
}

/// Drops the longest suffix whose characters satisfy `p`.
pub open spec fn drop_while_end(s: Seq<char>, p: spec_fn(char) -> bool) -> Seq<char>
    decreases s.len(),
{
    if s.len() > 0 && p(s.last()) {
        drop_while_end(s.drop_last(), p)
    } else {
        s
    }
}

pub open spec fn ws_pred() -> spec_fn(char) -> bool {
    |c: char| is_ws(c)
}

pub open spec fn char_pred(x: char) -> spec_fn(char) -> bool {
    |c: char| c == x
}

/// `str::trim_start`.
pub open spec fn trim_start_seq(s: Seq<char>) -> Seq<char> {
    drop_while_start(s, ws_pred())
}

/// `str::trim_end`.
pub open spec fn trim_end_seq(s: Seq<char>) -> Seq<char> {
    drop_while_end(s, ws_pred())
}

/// `str::trim`.
pub open spec fn trim_seq(s: Seq<char>) -> Seq<char> {
    trim_end_seq(trim_start_seq(s))
}

pub proof fn lemma_drop_while_start(s: Seq<char>, p: spec_fn(char) -> bool, k: int)
    requires
        0 <= k <= s.len(),
        forall|i: int| 0 <= i < k ==> p(#[trigger] s[i]),
        k == s.len() || !p(s[k]),
    ensures
        drop_while_start(s, p) == s.skip(k),
    decreases k,
{
    if k == 0 {
        assert(s.skip(0) =~= s);
    } else {
        let t = s.drop_first();
        assert forall|i: int| 0 <= i < k - 1 implies p(#[trigger] t[i]) by {
            assert(t[i] == s[i + 1]);
        }
        lemma_drop_while_start(t, p, k - 1);
        assert(t.skip(k - 1) =~= s.skip(k));
    }
}

pub proof fn lemma_drop_while_end(s: Seq<char>, p: spec_fn(char) -> bool, k: int)
    requires
        0 <= k <= s.len(),
        forall|i: int| k <= i < s.len() ==> p(#[trigger] s[i]),
        k == 0 || !p(s[k - 1]),
    ensures
        drop_while_end(s, p) == s.take(k),
    decreases s.len() - k,
{
    if k == s.len() {
        assert(s.take(k) =~= s);
    } else {
        let t = s.drop_last();
        assert forall|i: int| k <= i < t.len() implies p(#[trigger] t[i]) by {
            assert(t[i] == s[i]);
        }
        lemma_drop_while_end(t, p, k);
        assert(t.take(k) =~= s.take(k));
    }
}

/// The characters of a string slice, in order.
pub fn chars_of(s: &str) -> (v: Vec<char>)
    ensures
        v@ == s@,
{
    broadcast use vstd::string::axiom_spec_iter;

    let mut v: Vec<char> = Vec::new();
    for c in it: s.chars()
        invariant
            it.seq() == s@,
            v@ == s@.take(it.index()),
    {
        v.push(c);
    }
    assert(v@ =~= s@);
    v
}

/// A string holding `v[lo..hi]`.
pub fn string_of_range(v: &Vec<char>, lo: usize, hi: usize) -> (r: String)
    requires
        lo <= hi <= v.len(),
    ensures
        r@ == v@.subrange(lo as int, hi as int),
{
    let mut r = String::new();
    let mut i = lo;
    while i < hi
        invariant
            lo <= i <= hi <= v.len(),
            r@ == v@.subrange(lo as int, i as int),
        decreases hi - i,
    {
        r.push(v[i]);
        i = i + 1;
        assert(r@ =~= v@.subrange(lo as int, i as int));
    }
    r
}

/// A string holding the characters of `v`.
pub fn string_of(v: &Vec<char>) -> (r: String)
    ensures
        r@ == v@,
{
    let r = string_of_range(v, 0, v.len());
    assert(v@.subrange(0, v@.len() as int) =~= v@);
    r
}

/// The index of the first character at or after `from` that is not whitespace.
fn skip_ws_forward(v: &Vec<char>, from: usize) -> (k: usize)
    requires
        from <= v.len(),
    ensures
        from <= k <= v.len(),
        forall|i: int| from <= i < k ==> is_ws(#[trigger] v@[i]),
        k == v.len() || !is_ws(v@[k as int]),
{
    let mut k = from;
    while k < v.len() && is_whitespace(v[k])
        invariant
            from <= k <= v.len(),
            forall|i: int| from <= i < k ==> is_ws(#[trigger] v@[i]),
        decreases v.len() - k,
    {
        k = k + 1;
    }
    k
}

/// The end of `v[lo..hi]` once its trailing whitespace is dropped.
fn skip_ws_backward(v: &Vec<char>, lo: usize, hi: usize) -> (k: usize)
    requires
        lo <= hi <= v.len(),
    ensures
        lo <= k <= hi,
        forall|i: int| k <= i < hi ==> is_ws(#[trigger] v@[i]),
        k == lo || !is_ws(v@[k - 1]),
{
    let mut k = hi;
    while k > lo && is_whitespace(v[k - 1])
        invariant
            lo <= k <= hi <= v.len(),
            forall|i: int| k <= i < hi ==> is_ws(#[trigger] v@[i]),
        decreases k,
    {
        k = k - 1;
    }
    k
}

/// `str::trim`: the string without leading and trailing whitespace.
pub fn trim(s: &str) -> (r: String)
    ensures
        r@ == trim_seq(s@),
{
    let v = chars_of(s);
    let lo = skip_ws_forward(&v, 0);
    let hi = skip_ws_backward(&v, lo, v.len());
    proof {
        lemma_drop_while_start(v@, ws_pred(), lo as int);
        let t = v@.skip(lo as int);
        assert forall|i: int| hi - lo <= i < t.len() implies (ws_pred())(#[trigger] t[i]) by {
            assert(t[i] == v@[i + lo]);
        }
        if hi > lo {
            assert(t[hi - lo - 1] == v@[hi - 1]);
        }
        lemma_drop_while_end(t, ws_pred(), hi - lo);
        assert(t.take(hi - lo) =~= v@.subrange(lo as int, hi as int));
    }
    string_of_range(&v, lo, hi)
}

/// `str::trim_end`: the string without trailing whitespace.
pub fn trim_end(s: &str) -> (r: String)
    ensures
        r@ == trim_end_seq(s@),
{
    let v = chars_of(s);
    let hi = skip_ws_backward(&v, 0, v.len());
    proof {
        lemma_drop_while_end(v@, ws_pred(), hi as int);
        assert(v@.take(hi as int) =~= v@.subrange(0, hi as int));
    }
    string_of_range(&v, 0, hi)
}

/// `str::trim_start`: the string without leading whitespace.
pub fn trim_start(s: &str) -> (r: String)
    ensures
        r@ == trim_start_seq(s@),
{
    let v = chars_of(s);
    let lo = skip_ws_forward(&v, 0);
    proof {
        lemma_drop_while_start(v@, ws_pred(), lo as int);
        assert(v@.skip(lo as int) =~= v@.subrange(lo as int, v@.len() as int));
    }
    string_of_range(&v, lo, v.len())
}

/// `str::trim_end_matches` with a single character: drops every trailing `x`.
pub fn trim_end_char(s: &str, x: char) -> (r: String)
    ensures
        r@ == drop_while_end(s@, char_pred(x)),
{
    let v = chars_of(s);
    let mut k = v.len();
    while k > 0 && v[k - 1] == x
        invariant
            k <= v.len(),
            forall|i: int| k <= i < v.len() ==> (char_pred(x))(#[trigger] v@[i]),
        decreases k,
    {
        k = k - 1;
    }
    proof {
        lemma_drop_while_end(v@, char_pred(x), k as int);
        assert(v@.take(k as int) =~= v@.subrange(0, k as int));
    }
    string_of_range(&v, 0, k)
}

/// Whether every character of `s` is whitespace (`str::trim` would leave nothing).
pub fn is_blank(s: &str) -> (r: bool)
    ensures
        r == (trim_seq(s@).len() == 0),
        r == (forall|i: int| 0 <= i < s@.len() ==> is_ws(#[trigger] s@[i])),
{
    let v = chars_of(s);
    let k = skip_ws_forward(&v, 0);
    proof {
        lemma_drop_while_start(v@, ws_pred(), k as int);
        let t = v@.skip(k as int);
        if k == v.len() {
            assert(t.len() == 0);
        } else {
            assert(t[0] == v@[k as int]);
            assert(drop_while_end(t, ws_pred()).len() > 0) by {
                lemma_drop_while_end_keeps_first(t, ws_pred());
            }
        }
    }
    k == v.len()
}

pub proof fn lemma_drop_while_end_keeps_first(s: Seq<char>, p: spec_fn(char) -> bool)
    requires
        s.len() > 0,
        !p(s[0]),
    ensures
        drop_while_end(s, p).len() > 0,
        drop_while_end(s, p)[0] == s[0],
    decreases s.len(),
{
    if p(s.last()) {
        lemma_drop_while_end_keeps_first(s.drop_last(), p);
    }
}

proof fn lemma_drop_while_start_first(s: Seq<char>, p: spec_fn(char) -> bool)
    ensures
        drop_while_start(s, p).len() == 0 || !p(drop_while_start(s, p)[0]),
    decreases s.len(),
{
    if s.len() > 0 && p(s[0]) {
        lemma_drop_while_start_first(s.drop_first(), p);
    }
}

pub proof fn lemma_drop_while_end_last(s: Seq<char>, p: spec_fn(char) -> bool)
    ensures
        drop_while_end(s, p).len() == 0 || !p(drop_while_end(s, p).last()),
        drop_while_end(s, p).len() <= s.len(),
    decreases s.len(),
{
    if s.len() > 0 && p(s.last()) {
        lemma_drop_while_end_last(s.drop_last(), p);
    }
}

proof fn lemma_drop_while_start_within(s: Seq<char>, p: spec_fn(char) -> bool, x: char)
    ensures
        drop_while_start(s, p).contains(x) ==> s.contains(x),
    decreases s.len(),
{
    if s.len() > 0 && p(s[0]) {
        lemma_drop_while_start_within(s.drop_first(), p, x);
        if s.drop_first().contains(x) {
            let j = choose|j: int| 0 <= j < s.drop_first().len() && s.drop_first()[j] == x;
            assert(s[j + 1] == x);
        }
    }
}

proof fn lemma_drop_while_end_within(s: Seq<char>, p: spec_fn(char) -> bool, x: char)
    ensures
        drop_while_end(s, p).contains(x) ==> s.contains(x),
    decreases s.len(),
{
    if s.len() > 0 && p(s.last()) {
        lemma_drop_while_end_within(s.drop_last(), p, x);
        if s.drop_last().contains(x) {
            let j = choose|j: int| 0 <= j < s.drop_last().len() && s.drop_last()[j] == x;
            assert(s[j] == x);
        }
    }
}

/// Trimming adds no character: what the trimmed text holds, the text held.
pub proof fn lemma_trim_within(s: Seq<char>, x: char)
    ensures
        trim_seq(s).contains(x) ==> s.contains(x),
{
    lemma_drop_while_start_within(s, ws_pred(), x);
    lemma_drop_while_end_within(trim_start_seq(s), ws_pred(), x);
}

/// Trimming a trimmed text changes nothing.
pub proof fn lemma_trim_idempotent(s: Seq<char>)
    ensures
        trim_seq(trim_seq(s)) == trim_seq(s),
{
    let a = trim_start_seq(s);
    let t = trim_seq(s);
    lemma_drop_while_start_first(s, ws_pred());
    lemma_drop_while_end_last(a, ws_pred());
    if t.len() > 0 {
        assert(a.len() > 0);
        lemma_drop_while_end_keeps_first(a, ws_pred());
        assert(!(ws_pred())(t[0]));
        assert(drop_while_start(t, ws_pred()) == t);
        assert(drop_while_end(t, ws_pred()) == t);
    } else {
        assert(drop_while_start(t, ws_pred()) == t);
        assert(drop_while_end(t, ws_pred()) == t);
    }
}

/// Decimal digits of `n`, most significant first (`0` for zero).
pub open spec fn decimal(n: nat) -> Seq<char>
    decreases n,
{
    if n < 10 {
        seq![(('0' as u32) + n) as char]
    } else {
        decimal(n / 10).push((('0' as u32) + (n % 10)) as char)
    }
}

/// The decimal rendering of `n`, as `u64`'s `Display` writes it.
pub fn decimal_string(n: u64) -> (r: String)
    ensures
        r@ == decimal(n as nat),
    decreases n,
{
    if n < 10 {
        let mut r = String::new();
        r.push(digit_char(n));
        r
    } else {
        let mut r = decimal_string(n / 10);
        r.push(digit_char(n % 10));
        r
    }
}

fn digit_char(d: u64) -> (c: char)
    requires
        d < 10,
    ensures
        c == (('0' as u32) + d) as char,
{
    if d == 0 { '0' }
    else if d == 1 { '1' }
    else if d == 2 { '2' }
    else if d == 3 { '3' }
    else if d == 4 { '4' }
    else if d == 5 { '5' }
    else if d == 6 { '6' }
    else if d == 7 { '7' }
    else if d == 8 { '8' }
    else { '9' }
}

/// A line without the `\r` of a `\r\n` ending.
pub open spec fn strip_cr(l: Seq<char>) -> Seq<char> {
    if l.len() > 0 && l.last() == '\r' {
        l.drop_last()
    } else {
        l
    }
}

/// The lines of `s`, `cur` holding the characters of the line begun before
/// `s`: a line ends at `\n` (with a `\r` before it dropped); a last line
/// without `\n` is kept as it is, an empty one is not a line.
pub open spec fn lines_from(s: Seq<char>, cur: Seq<char>) -> Seq<Seq<char>>
    decreases s.len(),
{
    if s.len() == 0 {
        if cur.len() == 0 {
            Seq::empty()
        } else {
            seq![cur]
        }
    } else if s[0] == '\n' {
        seq![strip_cr(cur)] + lines_from(s.drop_first(), Seq::empty())
    } else {
        lines_from(s.drop_first(), cur.push(s[0]))
    }
}

/// `str::lines`.
pub open spec fn lines_of(s: Seq<char>) -> Seq<Seq<char>> {
    lines_from(s, Seq::empty())
}

pub open spec fn strings_view(v: Seq<String>) -> Seq<Seq<char>> {
    v.map_values(|x: String| x@)
}

/// The lines of `s`, as `str::lines` yields them.
pub fn lines(s: &str) -> (r: Vec<String>)
    ensures
        strings_view(r@) == lines_of(s@),
{
    let v = chars_of(s);
    let mut out: Vec<String> = Vec::new();
    let mut cur: Vec<char> = Vec::new();
    let mut i: usize = 0;
    assert(v@.skip(0) =~= v@);
    assert(strings_view(out@) + lines_from(v@, cur@) =~= lines_of(s@));
    while i < v.len()
        invariant
            i <= v.len(),
            v@ == s@,
            strings_view(out@) + lines_from(v@.skip(i as int), cur@) == lines_of(s@),
        decreases v.len() - i,
    {
        let c = v[i];
        let ghost rest = v@.skip(i as int);
        assert(rest[0] == c);
        assert(rest.drop_first() =~= v@.skip(i + 1));
        if c == '\n' {
            let ghost before = cur@;
            if cur.len() > 0 && cur[cur.len() - 1] == '\r' {
                cur.pop();
            }
            assert(cur@ == strip_cr(before)) by {
                if before.len() > 0 && before.last() == '\r' {
                    assert(cur@ =~= before.drop_last());
                }
            }
            let line = string_of(&cur);
            let ghost old_out = strings_view(out@);
            out.push(line);
            assert(strings_view(out@) =~= old_out.push(cur@));
            assert(old_out + (seq![cur@] + lines_from(v@.skip(i + 1), Seq::empty()))
                =~= old_out.push(cur@) + lines_from(v@.skip(i + 1), Seq::empty()));
            cur = Vec::new();
        } else {
            cur.push(c);
        }
        i = i + 1;
    }
    assert(v@.skip(i as int).len() == 0);
    if cur.len() > 0 {
        let line = string_of(&cur);
        let ghost old_out = strings_view(out@);
        out.push(line);
        assert(strings_view(out@) =~= old_out.push(cur@));
        assert(old_out + seq![cur@] =~= old_out.push(cur@));
    } else {
        assert(strings_view(out@) + Seq::<Seq<char>>::empty() =~= strings_view(out@));
    }
    out
}

/// The lowercase form of a text as `str::to_lowercase` computes it, by the
/// Unicode `Lowercase` mapping (a character may become several).
pub uninterp spec fn lowercase(s: Seq<char>) -> Seq<char>;

/// `str::to_lowercase`. Trusted: the result is `lowercase(s@)`, a function
/// of the text alone.
#[verifier::external_body]
pub fn to_lowercase(s: &str) -> (r: String)
    ensures
        r@ == lowercase(s@),
{
    s.to_lowercase()
}

/// Whether `s` begins with `p`.
pub open spec fn has_prefix(s: Seq<char>, p: Seq<char>) -> bool {
    p.len() <= s.len() && s.take(p.len() as int) == p
}

/// `str::starts_with` with a string pattern.
pub fn starts_with(s: &str, p: &str) -> (r: bool)
    ensures
        r == has_prefix(s@, p@),
{
    let v = chars_of(s);
    let w = chars_of(p);
    if w.len() > v.len() {
        return false;
    }
    let mut i: usize = 0;
    while i < w.len()
        invariant
            i <= w.len() <= v.len(),
            v@ == s@,
            w@ == p@,
            forall|j: int| 0 <= j < i ==> v@[j] == w@[j],
        decreases w.len() - i,
    {
        if v[i] != w[i] {
            assert(s@.take(p@.len() as int)[i as int] != p@[i as int]);
            return false;
        }
        i = i + 1;
    }
    assert(s@.take(p@.len() as int) =~= p@);
    true
}

/// The pieces of `s` between the occurrences of `c`, `cur` holding the
/// piece begun before `s`.
pub open spec fn split_from(s: Seq<char>, c: char, cur: Seq<char>) -> Seq<Seq<char>>
    decreases s.len(),
{
    if s.len() == 0 {
        seq![cur]
    } else if s[0] == c {
        seq![cur] + split_from(s.drop_first(), c, Seq::empty())
    } else {
        split_from(s.drop_first(), c, cur.push(s[0]))
    }
}

/// `str::split` with a character: the pieces between its occurrences,
/// empty ones included.
pub open spec fn split_on(s: Seq<char>, c: char) -> Seq<Seq<char>> {
    split_from(s, c, Seq::empty())
}

/// The pieces of `s` between the occurrences of `c`, as `str::split` yields them.
pub fn split_char(s: &str, c: char) -> (r: Vec<String>)
    ensures
        strings_view(r@) == split_on(s@, c),
{
    let v = chars_of(s);
    let mut out: Vec<String> = Vec::new();
    let mut cur: Vec<char> = Vec::new();
    let mut i: usize = 0;
    assert(v@.skip(0) =~= v@);
    assert(strings_view(out@) + split_from(v@, c, cur@) =~= split_on(s@, c));
    while i < v.len()
        invariant
            i <= v.len(),
            v@ == s@,
            strings_view(out@) + split_from(v@.skip(i as int), c, cur@) == split_on(s@, c),
        decreases v.len() - i,
    {
        let x = v[i];
        let ghost rest = v@.skip(i as int);
        assert(rest[0] == x);
        assert(rest.drop_first() =~= v@.skip(i + 1));
        if x == c {
            let piece = string_of(&cur);
            let ghost old_out = strings_view(out@);
            out.push(piece);
            assert(strings_view(out@) =~= old_out.push(cur@));
            assert(old_out + (seq![cur@] + split_from(v@.skip(i + 1), c, Seq::empty()))
                =~= old_out.push(cur@) + split_from(v@.skip(i + 1), c, Seq::empty()));
            cur = Vec::new();
        } else {
            cur.push(x);
        }
        i = i + 1;
    }
    assert(v@.skip(i as int).len() == 0);
    let piece = string_of(&cur);
    let ghost old_out = strings_view(out@);
    out.push(piece);
    assert(strings_view(out@) =~= old_out.push(cur@));
    assert(old_out + seq![cur@] =~= old_out.push(cur@));
    out
}

/// UTF-8 encoding distributes over concatenation.
pub proof fn lemma_encode_concat(a: Seq<char>, b: Seq<char>)
    ensures
        vstd::utf8::encode_utf8(a + b) == vstd::utf8::encode_utf8(a) + vstd::utf8::encode_utf8(b),
    decreases a.len(),
{
    if a.len() == 0 {
        assert(a + b =~= b);
        assert(Seq::<u8>::empty() + vstd::utf8::encode_utf8(b) =~= vstd::utf8::encode_utf8(b));
    } else {
        lemma_encode_concat(a.drop_first(), b);
        assert((a + b).drop_first() =~= a.drop_first() + b);
        assert((a + b)[0] == a[0]);
        let e0 = vstd::utf8::encode_scalar(a[0] as u32);
        assert(e0 + (vstd::utf8::encode_utf8(a.drop_first()) + vstd::utf8::encode_utf8(b))
            =~= (e0 + vstd::utf8::encode_utf8(a.drop_first())) + vstd::utf8::encode_utf8(b));
    }
}

/// Cutting the encoding of a text at a character boundary cuts the text.
pub proof fn lemma_decode_halves(s: Seq<char>, i: int)
    requires
        vstd::utf8::is_char_boundary(vstd::utf8::encode_utf8(s), i),
    ensures
        0 <= i <= vstd::utf8::encode_utf8(s).len(),
        vstd::utf8::decode_utf8(vstd::utf8::encode_utf8(s).subrange(0, i)) + vstd::utf8::decode_utf8(
            vstd::utf8::encode_utf8(s).subrange(i, vstd::utf8::encode_utf8(s).len() as int),
        ) == s,
{
    let b = vstd::utf8::encode_utf8(s);
    vstd::utf8::encode_utf8_valid_utf8(s);
    vstd::utf8::decode_utf8_split(b, i);
    vstd::utf8::encode_utf8_decode_utf8(s);
}

/// After a one-byte character at a character boundary comes another
/// boundary.
pub proof fn lemma_ascii_next_boundary(b: Seq<u8>, i: int)
    requires
        vstd::utf8::valid_utf8(b),
        vstd::utf8::is_char_boundary(b, i),
        0 <= i < b.len(),
        b[i] < 0x80,
    ensures
        vstd::utf8::is_char_boundary(b, i + 1),
    decreases b.len(),
{
    let l = vstd::utf8::length_of_first_scalar(b);
    let rest = vstd::utf8::pop_first_scalar(b);
    assert(vstd::utf8::valid_first_scalar(b));
    if i == 0 {
        assert(l == 1);
        assert(vstd::utf8::is_char_boundary(rest, 0));
    } else {
        assert(vstd::utf8::is_char_boundary(rest, i - l));
        assert(1 <= l <= 4);
        assert(rest.len() == b.len() - l);
        assert(rest[i - l] == b[i]);
        lemma_ascii_next_boundary(rest, i - l);
    }
}

/// In a valid encoding, the position right after a newline byte is a
/// character boundary.
pub proof fn lemma_after_newline_boundary(b: Seq<u8>, i: int)
    requires
        vstd::utf8::valid_utf8(b),
        1 <= i <= b.len(),
        b[i - 1] == 0x0au8,
    ensures
        vstd::utf8::is_char_boundary(b, i),
{
    vstd::utf8::is_char_boundary_iff_not_is_continuation_byte(b, i - 1);
    lemma_ascii_next_boundary(b, i - 1);
}

proof fn lemma_decimal_len(n: nat)
    ensures
        decimal(n).len() >= 1,
        n >= 10 ==> decimal(n).len() >= 2,
    decreases n,
{
    if n >= 10 {
        lemma_decimal_len(n / 10);
    }
}

/// Different numbers have different decimal renderings.
pub proof fn lemma_decimal_injective(a: nat, b: nat)
    requires
        decimal(a) == decimal(b),
    ensures
        a == b,
    decreases a,
{
    lemma_decimal_len(a);
    lemma_decimal_len(b);
    if a < 10 && b < 10 {
        let ca = decimal(a)[0];
        let cb = decimal(b)[0];
        assert(ca == cb);
        assert(ca as u32 == 48 + a);
        assert(cb as u32 == 48 + b);
    } else if a >= 10 && b >= 10 {
        assert(decimal(a).drop_last() =~= decimal(a / 10));
        assert(decimal(b).drop_last() =~= decimal(b / 10));
        let ca = decimal(a).last();
        let cb = decimal(b).last();
        assert(ca == cb);
        assert(ca as u32 == 48 + a % 10);
        assert(cb as u32 == 48 + b % 10);
        lemma_decimal_injective(a / 10, b / 10);
    } else {
        assert(decimal(a).len() != decimal(b).len());
    }
}

/// A boundary before a cut point is a boundary of the part before the cut.
pub proof fn lemma_boundary_within(b: Seq<u8>, i: int, j: int)
    requires
        vstd::utf8::valid_utf8(b),
        0 <= i <= j <= b.len(),
        vstd::utf8::is_char_boundary(b, i),
        vstd::utf8::is_char_boundary(b, j),
    ensures
        vstd::utf8::is_char_boundary(b.subrange(0, j), i),
    decreases b.len(),
{
    vstd::utf8::valid_utf8_split(b, j);
    if i > 0 {
        let l = vstd::utf8::length_of_first_scalar(b);
        let rest = vstd::utf8::pop_first_scalar(b);
        assert(vstd::utf8::valid_first_scalar(b));
        assert(vstd::utf8::is_char_boundary(rest, i - l));
        assert(vstd::utf8::is_char_boundary(rest, j - l));
        lemma_boundary_within(rest, i - l, j - l);
        let c = b.subrange(0, j);
        assert(c[0] == b[0]);
        assert(l <= j);
        assert(vstd::utf8::valid_utf8(c)) by {
            vstd::utf8::valid_utf8_split(b, j);
        }
        assert(vstd::utf8::length_of_first_scalar(c) == l);
        assert(vstd::utf8::pop_first_scalar(c) =~= rest.subrange(0, j - l));
    }
}

} // verus!
