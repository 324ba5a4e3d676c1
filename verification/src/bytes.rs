//! Little-endian encodings of what is exchanged with the device.

use crate::rows::{concat_rows, lemma_concat_rows_len, lemma_concat_rows_row, row};
use vstd::prelude::*;

verus! {

/// The four bytes of a word, the lowest first.
pub open spec fn le32(x: u32) -> Seq<u8> {
    seq![(x % 256) as u8, (x / 256 % 256) as u8, (x / 65536 % 256) as u8, (x / 16777216) as u8]
}

/// The two bytes of a half word, the lowest first.
pub open spec fn le16(x: u16) -> Seq<u8> {
    seq![(x % 256) as u8, (x / 256) as u8]
}

/// The eight bytes of a double word, the lowest first.
pub open spec fn le64(x: u64) -> Seq<u8> {
    le32((x % 0x1_0000_0000) as u32) + le32((x / 0x1_0000_0000) as u32)
}

/// The bytes of words, one after the other.
pub open spec fn words_bytes(v: Seq<u32>) -> Seq<u8> {
    concat_rows(v.len(), |i: int| le32(v[i]))
}

/// The bytes of signed words, one after the other.
pub open spec fn ints_bytes(v: Seq<i32>) -> Seq<u8> {
    concat_rows(v.len(), |i: int| le32(v[i] as u32))
}

/// The word that four bytes encode.
pub open spec fn word_of(b: Seq<u8>) -> u32 {
    (b[0] + b[1] * 256 + b[2] * 65536 + b[3] * 16777216) as u32
}

/// The words that bytes encode; what is left over at the end is dropped.
pub open spec fn words_of(b: Seq<u8>) -> Seq<u32> {
    Seq::new(b.len() / 4, |i: int| word_of(b.subrange(4 * i, 4 * i + 4)))
}

/// The floats that bf16 bytes encode, by their bit pattern; what is left over
/// at the end is dropped.
pub open spec fn widened_bf16(b: Seq<u8>) -> Seq<u32> {
    Seq::new(b.len() / 2, |i: int| ((b[2 * i] + b[2 * i + 1] * 256) * 65536) as u32)
}

/// Reading words back gives what was written.
pub proof fn lemma_words_round_trip(v: Seq<u32>)
    ensures
        words_of(words_bytes(v)) == v,
{
    let f = |i: int| le32(v[i]);
    let b: Seq<u8> = words_bytes(v);
    assert forall|i: int| 0 <= i < v.len() implies (#[trigger] f(i)).len() == 4 by {}
    lemma_concat_rows_len(v.len(), 4, f);
    assert forall|i: int| 0 <= i < v.len() implies words_of(b)[i] == v[i] by {
        lemma_concat_rows_row(v.len(), 4, f, i);
        let x: u32 = v[i];
        assert(row(b, i, 4) == le32(x));
        assert(b.subrange(4 * i, 4 * i + 4) =~= row(b, i, 4));
        assert(x == x % 256 + (x / 256 % 256) * 256 + (x / 65536 % 256) * 65536 + (x / 16777216) * 16777216);
    }
    assert(words_of(b) =~= v);
}

/// Appends the bytes of a word.
pub fn push_word(out: &mut Vec<u8>, x: u32)
    ensures
        final(out)@ == old(out)@ + le32(x),
{
    out.push((x % 256) as u8);
    out.push((x / 256 % 256) as u8);
    out.push((x / 65536 % 256) as u8);
    out.push((x / 16777216) as u8);
    assert(out@ =~= old(out)@ + le32(x));
}

/// Appends the bytes of a double word.
pub fn push_double(out: &mut Vec<u8>, x: u64)
    ensures
        final(out)@ == old(out)@ + le64(x),
{
    push_word(out, (x % 0x1_0000_0000) as u32);
    push_word(out, (x / 0x1_0000_0000) as u32);
    assert(out@ =~= old(out)@ + le64(x));
}

/// The bytes of floats, given by their bit patterns.
pub fn f32_bytes(v: &[u32]) -> (r: Vec<u8>)
    ensures
        r@ == words_bytes(v@),
        r@.len() == 4 * v@.len(),
{
    let n: usize = v.len();
    let mut out: Vec<u8> = Vec::new();
    let ghost f = |i: int| le32(v@[i]);
    for i in 0..n
        invariant
            n == v@.len(),
            f == |i: int| le32(v@[i]),
            out@ == concat_rows(i as nat, f),
    {
        push_word(&mut out, v[i]);
    }
    proof {
        assert forall|i: int| 0 <= i < n implies (#[trigger] f(i)).len() == 4 by {}
        lemma_concat_rows_len(n as nat, 4, f);
    }
    out
}

/// The bytes of signed words.
pub fn i32_bytes(v: &[i32]) -> (r: Vec<u8>)
    ensures
        r@ == ints_bytes(v@),
        r@.len() == 4 * v@.len(),
{
    let n: usize = v.len();
    let mut out: Vec<u8> = Vec::new();
    let ghost f = |i: int| le32(v@[i] as u32);
    for i in 0..n
        invariant
            n == v@.len(),
            f == |i: int| le32(v@[i] as u32),
            out@ == concat_rows(i as nat, f),
    {
        push_word(&mut out, v[i] as u32);
    }
    proof {
        assert forall|i: int| 0 <= i < n implies (#[trigger] f(i)).len() == 4 by {}
        lemma_concat_rows_len(n as nat, 4, f);
    }
    out
}

/// The floats that bytes encode, as bit patterns.
pub fn f32_from_bytes(b: &[u8]) -> (r: Vec<u32>)
    ensures
        r@ == words_of(b@),
{
    let total: usize = b.len();
    let n: usize = total / 4;
    let mut out: Vec<u32> = Vec::with_capacity(n);
    for i in 0..n
        invariant
            total == b@.len(),
            n == total / 4,
            out@ == words_of(b@).take(i as int),
    {
        let j: usize = 4 * i;
        let ghost s: Seq<u8> = b@.subrange(4 * i, 4 * i + 4);
        assert(s[0] == b@[j as int] && s[1] == b@[j + 1] && s[2] == b@[j + 2] && s[3] == b@[j + 3]);
        out.push(b[j] as u32 + b[j + 1] as u32 * 256 + b[j + 2] as u32 * 65536 + b[j + 3] as u32 * 16777216);
        assert(out@ =~= words_of(b@).take(i + 1));
    }
    assert(out@ =~= words_of(b@));
    out
}

/// The floats that bf16 bytes encode, as bit patterns.
pub fn f32_from_bf16_bytes(b: &[u8]) -> (r: Vec<u32>)
    ensures
        r@ == widened_bf16(b@),
{
    let total: usize = b.len();
    let n: usize = total / 2;
    let mut out: Vec<u32> = Vec::with_capacity(n);
    for i in 0..n
        invariant
            total == b@.len(),
            n == total / 2,
            out@ == widened_bf16(b@).take(i as int),
    {
        let j: usize = 2 * i;
        out.push((b[j] as u32 + b[j + 1] as u32 * 256) * 65536);
        assert(out@ =~= widened_bf16(b@).take(i + 1));
    }
    assert(out@ =~= widened_bf16(b@));
    out
}

/// Byte `i` of a word's encoding is worth `256^i`: the bytes, so weighted, add
/// up to the word, and with two or eight bytes alike.
pub proof fn lemma_bytes_are_weighted(x: u16, y: u32, z: u64)
    ensures
        le16(x).len() == 2,
        le16(x)[0] + 0x100 * le16(x)[1] == x,
        le32(y).len() == 4,
        le32(y)[0] + 0x100 * le32(y)[1] + 0x1_0000 * le32(y)[2] + 0x100_0000 * le32(y)[3] == y,
        le64(z).len() == 8,
        le64(z)[0] + 0x100 * le64(z)[1] + 0x1_0000 * le64(z)[2] + 0x100_0000 * le64(z)[3] + 0x1_0000_0000 * le64(z)[4]
            + 0x100_0000_0000 * le64(z)[5] + 0x1_0000_0000_0000 * le64(z)[6] + 0x100_0000_0000_0000 * le64(z)[7] == z,
{
    let lo: u32 = (z % 0x1_0000_0000) as u32;
    let hi: u32 = (z / 0x1_0000_0000) as u32;
    assert(y == y % 256 + (y / 256 % 256) * 256 + (y / 65536 % 256) * 65536 + (y / 16777216) * 16777216);
    assert(lo == lo % 256 + (lo / 256 % 256) * 256 + (lo / 65536 % 256) * 65536 + (lo / 16777216) * 16777216);
    assert(hi == hi % 256 + (hi / 256 % 256) * 256 + (hi / 65536 % 256) * 65536 + (hi / 16777216) * 16777216);
    assert(z == lo + 0x1_0000_0000 * hi);
}

/// A bf16 is the upper half of the f32 that it stands for.
pub proof fn lemma_bf16_is_the_upper_half(b: Seq<u8>, i: int)
    requires
        0 <= i < b.len() / 2,
    ensures
        widened_bf16(b).len() == b.len() / 2,
        widened_bf16(b)[i] == 0x1_0000 * b[2 * i] + 0x100_0000 * b[2 * i + 1],
{
}

} // verus!
