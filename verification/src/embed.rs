//! Embedders without a model: a zero embedder, and one that hashes
//! character trigrams into buckets.
use vstd::prelude::*;
use vstd::utf8::encode_utf8;
use crate::text::{chars_of, lowercase, to_lowercase};

verus! {

/// An embedder whose vectors are all zero, of the configured dimension.
pub struct NullEmbedder {
    dims: usize,
}

impl NullEmbedder {
    pub closed spec fn dims(&self) -> usize {
        self.dims
    }

    pub fn new(dims: usize) -> (e: NullEmbedder)
        ensures
            e.dims() == dims,
    {
        NullEmbedder { dims }
    }

    /// The dimension of the vectors.
    pub fn dimensions(&self) -> (r: usize)
        ensures
            r == self.dims(),
    {
        self.dims
    }
}

/// N-gram order of the hashing embedder.
pub const NGRAM: usize = 3;

/// FNV-1a 64-bit offset basis.
pub const FNV_OFFSET_BASIS: u64 = 0xcbf2_9ce4_8422_2325;

/// FNV-1a 64-bit prime.
pub const FNV_PRIME: u64 = 0x0000_0100_0000_01b3;

/// FNV-1a over `bytes`, continuing from hash `h`.
pub open spec fn fnv_from(h: u64, bytes: Seq<u8>) -> u64
    decreases bytes.len(),
{
    if bytes.len() == 0 {
        h
    } else {
        fnv_from((h ^ (bytes[0] as u64)).wrapping_mul(FNV_PRIME), bytes.drop_first())
    }
}

/// The 64-bit FNV-1a hash of `bytes`.
pub open spec fn fnv_v(bytes: Seq<u8>) -> u64 {
    fnv_from(FNV_OFFSET_BASIS, bytes)
}

/// Deterministic 64-bit FNV-1a hash over `bytes`.
pub fn fnv1a(bytes: &[u8]) -> (r: u64)
    ensures
        r == fnv_v(bytes@),
{
    let mut hash = FNV_OFFSET_BASIS;
    let mut i: usize = 0;
    assert(bytes@.skip(0) =~= bytes@);
    while i < bytes.len()
        invariant
            i <= bytes.len(),
            fnv_from(hash, bytes@.skip(i as int)) == fnv_v(bytes@),
        decreases bytes.len() - i,
    {
        assert(bytes@.skip(i as int).drop_first() =~= bytes@.skip(i + 1));
        hash = (hash ^ (bytes[i] as u64)).wrapping_mul(FNV_PRIME);
        i = i + 1;
    }
    hash
}

/// The number of trigrams of a text of `n` characters.
pub open spec fn trigram_count(n: nat) -> nat {
    if n >= 3 {
        (n - 2) as nat
    } else {
        0
    }
}

/// The bucket of the trigram starting at character `i`: the hash of its
/// UTF-8 bytes, as a `usize`, modulo the dimension.
pub open spec fn bucket_of(l: Seq<char>, i: int, dims: usize) -> int {
    ((fnv_v(encode_utf8(l.subrange(i, i + 3))) as usize) as int) % (dims as int)
}

/// The bucket counts after the first `n` trigrams of `l`.
pub open spec fn counts_after(l: Seq<char>, dims: usize, n: nat) -> Seq<nat>
    decreases n,
{
    if n == 0 {
        Seq::new(dims as nat, |_i: int| 0nat)
    } else {
        let c = counts_after(l, dims, (n - 1) as nat);
        let b = bucket_of(l, n - 1, dims);
        c.update(b, c[b] + 1)
    }
}

/// How many trigrams of the lowercased text fall in each bucket.
pub open spec fn trigram_counts(text: Seq<char>, dims: usize) -> Seq<nat> {
    let l = lowercase(text);
    counts_after(l, dims, trigram_count(l.len()))
}

pub open spec fn total(c: Seq<nat>) -> nat
    decreases c.len(),
{
    if c.len() == 0 {
        0
    } else {
        total(c.drop_last()) + c.last()
    }
}

proof fn lemma_counts_len(l: Seq<char>, dims: usize, n: nat)
    requires
        dims > 0,
    ensures
        counts_after(l, dims, n).len() == dims,
    decreases n,
{
    if n > 0 {
        lemma_counts_len(l, dims, (n - 1) as nat);
        assert(0 <= bucket_of(l, n - 1, dims) < dims);
    }
}

proof fn lemma_total_update(c: Seq<nat>, b: int)
    requires
        0 <= b < c.len(),
    ensures
        total(c.update(b, c[b] + 1)) == total(c) + 1,
    decreases c.len(),
{
    let d = c.update(b, c[b] + 1);
    if b == c.len() - 1 {
        assert(d.drop_last() =~= c.drop_last());
    } else {
        lemma_total_update(c.drop_last(), b);
        assert(d.drop_last() =~= c.drop_last().update(b, c.drop_last()[b] + 1));
    }
}

proof fn lemma_total_zero(n: nat)
    ensures
        total(Seq::new(n, |_i: int| 0nat)) == 0,
    decreases n,
{
    if n > 0 {
        lemma_total_zero((n - 1) as nat);
        assert(Seq::new(n, |_i: int| 0nat).drop_last() =~= Seq::new((n - 1) as nat, |_i: int| 0nat));
    }
}

/// Every trigram lands in exactly one bucket: the counts add up to the
/// number of trigrams of the lowercased text.
pub proof fn lemma_counts_add_up(text: Seq<char>, dims: usize)
    requires
        dims > 0,
    ensures
        total(trigram_counts(text, dims)) == trigram_count(lowercase(text).len()),
        trigram_counts(text, dims).len() == dims,
{
    let l = lowercase(text);
    lemma_counts_up(l, dims, trigram_count(l.len()));
    lemma_counts_len(l, dims, trigram_count(l.len()));
}

proof fn lemma_counts_up(l: Seq<char>, dims: usize, n: nat)
    requires
        dims > 0,
    ensures
        total(counts_after(l, dims, n)) == n,
    decreases n,
{
    if n == 0 {
        lemma_total_zero(dims as nat);
    } else {
        lemma_counts_up(l, dims, (n - 1) as nat);
        lemma_counts_len(l, dims, (n - 1) as nat);
        let b = bucket_of(l, n - 1, dims);
        assert(0 <= b < dims);
        lemma_total_update(counts_after(l, dims, (n - 1) as nat), b);
    }
}

/// An embedder that maps a text to deterministic bucket counts of its
/// character trigrams (feature hashing). Not semantically meaningful; for
/// development, tests, and where no model is available.
pub struct SimpleEmbedder {
    dims: usize,
}

impl SimpleEmbedder {
    pub closed spec fn dims(&self) -> usize {
        self.dims
    }

    /// An embedder of the given dimension, at least 1.
    pub fn new(dims: usize) -> (e: SimpleEmbedder)
        ensures
            e.dims() == if dims >= 1 {
                dims
            } else {
                1
            },
    {
        SimpleEmbedder { dims: if dims >= 1 { dims } else { 1 } }
    }

    pub fn new_384() -> (e: SimpleEmbedder)
        ensures
            e.dims() == 384,
    {
        SimpleEmbedder { dims: 384 }
    }

    /// The dimension of the vectors.
    pub fn dimensions(&self) -> (r: usize)
        ensures
            r == self.dims(),
    {
        self.dims
    }

    /// How many character trigrams of the lowercased text hash into each
    /// of the buckets; normalized, these counts are the embedding.
    pub fn trigram_buckets(&self, text: &str) -> (r: Vec<u64>)
        requires
            self.dims() > 0,
        ensures
            r@.len() == self.dims(),
            forall|b: int| 0 <= b < r@.len() ==> r@[b] == #[trigger] trigram_counts(text@, self.dims())[b],
    {
        let dims = self.dims;
        let mut counts: Vec<u64> = Vec::new();
        let mut k: usize = 0;
        while k < dims
            invariant
                k <= dims,
                counts@.len() == k,
                forall|j: int| 0 <= j < k ==> counts@[j] == 0,
            decreases dims - k,
        {
            counts.push(0);
            k = k + 1;
        }
        let lower = to_lowercase(text);
        let l = chars_of(lower.as_str());
        let ghost lv = lowercase(text@);
        let n: usize = if l.len() >= NGRAM {
            l.len() - 2
        } else {
            0
        };
        proof {
            lemma_counts_len(lv, dims, 0);
        }
        let mut i: usize = 0;
        while i < n
            invariant
                l@ == lv,
                n == trigram_count(lv.len()),
                i <= n,
                dims > 0,
                counts@.len() == dims,
                forall|j: int| 0 <= j < dims ==> #[trigger] counts@[j] == counts_after(lv, dims, i as nat)[j],
                forall|j: int| 0 <= j < dims ==> #[trigger] counts@[j] <= i,
            decreases n - i,
        {
            let mut gram = String::new();
            gram.push(l[i]);
            gram.push(l[i + 1]);
            gram.push(l[i + 2]);
            assert(gram@ =~= lv.subrange(i as int, i + 3));
            let hash = fnv1a(gram.as_str().as_bytes());
            let b = (hash as usize) % dims;
            proof {
                lemma_counts_len(lv, dims, i as nat);
            }
            let c = counts[b];
            counts.set(b, c + 1);
            i = i + 1;
        }
        proof {
            lemma_counts_len(lv, dims, n as nat);
        }
        counts
    }
}

} // verus!
