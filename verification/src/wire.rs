//! Byte-level forms of the wire format: little-endian 32-bit words, word
//! arrays, and in-place updates of a byte region.

use vstd::prelude::*;

verus! {

/// The little-endian byte image of a 32-bit word, the form in which every
/// integer of the calling convention is laid out in guest memory.
pub open spec fn le_bytes(v: u32) -> Seq<u8> {
    seq![
        (v & 0xff) as u8,
        ((v >> 8) & 0xff) as u8,
        ((v >> 16) & 0xff) as u8,
        ((v >> 24) & 0xff) as u8,
    ]
}

/// The 32-bit word stored little-endian in the four bytes `b0..b3`.
pub open spec fn word_of(b0: u8, b1: u8, b2: u8, b3: u8) -> u32 {
    (b0 as u32) | ((b1 as u32) << 8) | ((b2 as u32) << 16) | ((b3 as u32) << 24)
}

/// The 32-bit word stored little-endian at offset `p` of `mem`.
pub open spec fn word_at(mem: Seq<u8>, p: int) -> u32
    recommends
        0 <= p,
        p + 4 <= mem.len(),
{
    word_of(mem[p], mem[p + 1], mem[p + 2], mem[p + 3])
}

/// The little-endian byte image of a sequence of 32-bit words, in order.
pub open spec fn le_words(vals: Seq<u32>) -> Seq<u8>
    decreases vals.len(),
{
    if vals.len() == 0 {
        Seq::empty()
    } else {
        le_words(vals.drop_last()) + le_bytes(vals.last())
    }
}

/// True when the byte range `[at, at + len)` lies inside a region of
/// `region_len` bytes.
pub open spec fn fits(region_len: int, at: int, len: int) -> bool {
    at + len <= region_len
}

/// True when the byte ranges `[a, a + alen)` and `[b, b + blen)` do not
/// overlap.
pub open spec fn disjoint(a: int, alen: int, b: int, blen: int) -> bool {
    a + alen <= b || b + blen <= a
}

/// `mem` with the bytes of `data` written at offset `at` and everything else
/// unchanged: the effect of one bounds-checked write.
pub open spec fn splice(mem: Seq<u8>, at: int, data: Seq<u8>) -> Seq<u8>
    recommends
        0 <= at,
        at + data.len() <= mem.len(),
{
    Seq::new(mem.len(), |k: int| if at <= k < at + data.len() { data[k - at] } else { mem[k] })
}

/// Reading the four bytes of `le_bytes(v)` back as a word yields `v`.
pub proof fn lemma_le_bytes_word(v: u32)
    ensures
        word_of(le_bytes(v)[0], le_bytes(v)[1], le_bytes(v)[2], le_bytes(v)[3]) == v,
{
    assert((((v & 0xff) as u8) as u32) | (((((v >> 8) & 0xff) as u8) as u32) << 8) | (((((v
        >> 16) & 0xff) as u8) as u32) << 16) | (((((v >> 24) & 0xff) as u8) as u32) << 24)
        == v) by (bit_vector);
}

/// A word array's byte image is four bytes per word.
pub proof fn lemma_le_words_len(vals: Seq<u32>)
    ensures
        le_words(vals).len() == 4 * vals.len(),
    decreases vals.len(),
{
    if vals.len() > 0 {
        lemma_le_words_len(vals.drop_last());
    }
}

/// The bytes of word `i` inside a word array's byte image.
pub proof fn lemma_le_words_subrange(vals: Seq<u32>, i: int)
    requires
        0 <= i < vals.len(),
    ensures
        le_words(vals).subrange(4 * i, 4 * i + 4) == le_bytes(vals[i]),
    decreases vals.len(),
{
    lemma_le_words_len(vals);
    lemma_le_words_len(vals.drop_last());
    if i == vals.len() - 1 {
        assert(le_words(vals).subrange(4 * i, 4 * i + 4) =~= le_bytes(vals.last()));
    } else {
        lemma_le_words_subrange(vals.drop_last(), i);
        assert(le_words(vals).subrange(4 * i, 4 * i + 4) =~= le_words(vals.drop_last()).subrange(
            4 * i,
            4 * i + 4,
        ));
    }
}

/// Reading word `i` out of memory that holds a word array's byte image at
/// `base` yields the word that was laid down.
pub proof fn lemma_word_at_le_words(mem: Seq<u8>, base: int, vals: Seq<u32>, i: int)
    requires
        0 <= base,
        base + 4 * vals.len() <= mem.len(),
        mem.subrange(base, base + 4 * vals.len()) == le_words(vals),
        0 <= i < vals.len(),
    ensures
        word_at(mem, base + 4 * i) == vals[i],
{
    lemma_le_words_len(vals);
    lemma_le_words_subrange(vals, i);
    let sub = mem.subrange(base, base + 4 * vals.len());
    assert(mem[base + 4 * i + 0] == sub[4 * i + 0]);
    assert(mem[base + 4 * i + 1] == sub[4 * i + 1]);
    assert(mem[base + 4 * i + 2] == sub[4 * i + 2]);
    assert(mem[base + 4 * i + 3] == sub[4 * i + 3]);
    lemma_le_bytes_word(vals[i]);
}

/// A write lays its own bytes down where it was aimed.
pub proof fn lemma_splice_inside(mem: Seq<u8>, at: int, data: Seq<u8>)
    requires
        0 <= at,
        at + data.len() <= mem.len(),
    ensures
        splice(mem, at, data).subrange(at, at + data.len()) == data,
{
    assert(splice(mem, at, data).subrange(at, at + data.len()) =~= data);
}

/// A write leaves every range it does not overlap untouched.
pub proof fn lemma_splice_outside(mem: Seq<u8>, at: int, data: Seq<u8>, a: int, b: int)
    requires
        0 <= a <= b <= mem.len(),
        disjoint(a, b - a, at, data.len() as int),
    ensures
        splice(mem, at, data).subrange(a, b) == mem.subrange(a, b),
{
    assert(splice(mem, at, data).subrange(a, b) =~= mem.subrange(a, b));
}

/// Two writes laid down back to back are one write of the concatenated bytes.
pub proof fn lemma_splice_adjacent(mem: Seq<u8>, at: int, d1: Seq<u8>, d2: Seq<u8>)
    requires
        0 <= at,
        at + d1.len() + d2.len() <= mem.len(),
    ensures
        splice(splice(mem, at, d1), at + d1.len(), d2) == splice(mem, at, d1 + d2),
{
    assert(splice(splice(mem, at, d1), at + d1.len(), d2) =~= splice(mem, at, d1 + d2));
}

/// Flattens an array of 32-bit words into its little-endian byte image, the
/// exact form in which result tuples are written back into guest memory.
pub fn u32_array_to_u8(arr: &[u32]) -> (r: Vec<u8>)
    ensures
        r@ == le_words(arr@),
{
    let mut result: Vec<u8> = Vec::new();
    let n = arr.len();
    let mut i: usize = 0;
    while i < n
        invariant
            n == arr@.len(),
            0 <= i <= n,
            result@ == le_words(arr@.take(i as int)),
        decreases n - i,
    {
        let val = arr[i];
        result.push((val & 0xff) as u8);
        result.push(((val >> 8) & 0xff) as u8);
        result.push(((val >> 16) & 0xff) as u8);
        result.push(((val >> 24) & 0xff) as u8);
        proof {
            let t = arr@.take(i + 1);
            assert(t.drop_last() =~= arr@.take(i as int));
            assert(t.last() == arr@[i as int]);
            assert(result@ =~= le_words(t.drop_last()) + le_bytes(t.last()));
        }
        i = i + 1;
    }
    proof {
        assert(arr@.take(n as int) =~= arr@);
    }
    result
}

} // verus!
