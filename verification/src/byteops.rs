//! Byte-level primitives: in-place overwriting of a byte range, and reading
//! and writing 64-bit words in little-endian order.  Every on-disk record is
//! built from these.

use vstd::prelude::*;
use vstd::bytes::{
    lemma_auto_spec_u64_to_from_le_bytes, spec_u64_from_le_bytes, spec_u64_to_le_bytes,
    u64_from_le_bytes, u64_to_le_bytes,
};
use vstd::slice::slice_subrange;

verus! {

/// The sequence `s` with the bytes at `[off, off + xs.len())` replaced by `xs`.
pub open spec fn splice(s: Seq<u8>, off: int, xs: Seq<u8>) -> Seq<u8> {
    Seq::new(
        s.len(),
        |j: int|
            if off <= j < off + xs.len() {
                xs[j - off]
            } else {
                s[j]
            },
    )
}

/// Overwrites `v[off .. off + xs.len())` with the bytes of `xs`.
pub fn write_bytes(v: &mut Vec<u8>, off: usize, xs: &[u8])
    requires
        off + xs@.len() <= old(v)@.len(),
    ensures
        final(v)@ == splice(old(v)@, off as int, xs@),
{
    let n = xs.len();
    let total = v.len();
    let mut k: usize = 0;
    while k < n
        invariant
            n == xs@.len(),
            off + n <= total,
            total == old(v)@.len(),
            k <= n,
            v@.len() == old(v)@.len(),
            forall|j: int|
                0 <= j < v@.len() ==> #[trigger] v@[j] == (if off <= j < off + k {
                    xs@[j - off]
                } else {
                    old(v)@[j]
                }),
        decreases n - k,
    {
        v.set(off + k, xs[k]);
        k += 1;
    }
    proof {
        assert(v@ =~= splice(old(v)@, off as int, xs@));
    }
}

/// The 64-bit word encoded in little-endian order at byte offset `off` of `b`.
pub open spec fn spec_u64_at(b: Seq<u8>, off: int) -> u64 {
    spec_u64_from_le_bytes(b.subrange(off, off + 8))
}

/// Reads the 64-bit word stored in little-endian order at offset `off`.
pub fn read_u64_at(v: &[u8], off: usize) -> (x: u64)
    requires
        off + 8 <= v@.len(),
    ensures
        x == spec_u64_at(v@, off as int),
{
    let _len = v.len();
    u64_from_le_bytes(slice_subrange(v, off, off + 8))
}

/// The little-endian encoding of a sequence of 64-bit words, concatenated.
pub open spec fn words_enc(ws: Seq<u64>) -> Seq<u8>
    decreases ws.len(),
{
    if ws.len() == 0 {
        Seq::empty()
    } else {
        spec_u64_to_le_bytes(ws[0]) + words_enc(ws.drop_first())
    }
}

/// The encoding of `n` words takes `8 * n` bytes.
pub proof fn lemma_words_enc_len(ws: Seq<u64>)
    ensures
        words_enc(ws).len() == 8 * ws.len(),
    decreases ws.len(),
{
    lemma_auto_spec_u64_to_from_le_bytes();
    if ws.len() > 0 {
        lemma_words_enc_len(ws.drop_first());
    }
}

/// Appending one word to a word sequence appends its eight bytes.
pub proof fn lemma_words_enc_snoc(ws: Seq<u64>, x: u64)
    ensures
        words_enc(ws.push(x)) == words_enc(ws) + spec_u64_to_le_bytes(x),
    decreases ws.len(),
{
    lemma_auto_spec_u64_to_from_le_bytes();
    if ws.len() == 0 {
        assert(ws.push(x).drop_first() =~= ws);
        assert(words_enc(ws.push(x)) =~= words_enc(ws) + spec_u64_to_le_bytes(x));
    } else {
        assert(ws.push(x).drop_first() =~= ws.drop_first().push(x));
        lemma_words_enc_snoc(ws.drop_first(), x);
        assert(words_enc(ws.push(x)) =~= words_enc(ws) + spec_u64_to_le_bytes(x));
    }
}

/// Reading the word slot `k` out of an encoded word sequence (followed by any
/// padding) yields the word that was encoded there.
pub proof fn lemma_words_word_at(ws: Seq<u64>, pad: Seq<u8>, k: int)
    requires
        0 <= k < ws.len(),
    ensures
        spec_u64_at(words_enc(ws) + pad, 8 * k) == ws[k],
    decreases k,
{
    lemma_auto_spec_u64_to_from_le_bytes();
    lemma_words_enc_len(ws);
    let whole = words_enc(ws) + pad;
    if k == 0 {
        assert(whole.subrange(0, 8) =~= spec_u64_to_le_bytes(ws[0]));
    } else {
        lemma_words_enc_len(ws.drop_first());
        lemma_words_word_at(ws.drop_first(), pad, k - 1);
        let rest = words_enc(ws.drop_first()) + pad;
        assert(whole.subrange(8 * k, 8 * k + 8) =~= rest.subrange(8 * (k - 1), 8 * (k - 1) + 8));
    }
}

/// Encodes a sequence of 64-bit words into bytes, little-endian, in order.
pub fn encode_words(ws: &Vec<u64>) -> (v: Vec<u8>)
    ensures
        v@ == words_enc(ws@),
{
    let n = ws.len();
    let mut v: Vec<u8> = Vec::new();
    let mut k: usize = 0;
    proof {
        assert(ws@.take(0) =~= Seq::<u64>::empty());
    }
    while k < n
        invariant
            n == ws@.len(),
            k <= n,
            v@ == words_enc(ws@.take(k as int)),
        decreases n - k,
    {
        let mut bytes = u64_to_le_bytes(ws[k]);
        proof {
            lemma_words_enc_snoc(ws@.take(k as int), ws@[k as int]);
            assert(ws@.take(k as int).push(ws@[k as int]) =~= ws@.take(k as int + 1));
        }
        v.append(&mut bytes);
        k += 1;
    }
    proof {
        assert(ws@.take(n as int) =~= ws@);
    }
    v
}

} // verus!
