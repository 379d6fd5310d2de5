//! Little-endian integers inside byte sequences.
//!
//! Everything this crate reads or writes, on the network, in the shared map
//! and on disk, is little-endian. The spec functions here say which number a
//! position of a byte sequence holds and which bytes a number becomes; the
//! executable ones read and append exactly that.

use vstd::prelude::*;

verus! {

/// The unsigned 16-bit number at byte `i` of `s`.
pub open spec fn u16_at(s: Seq<u8>, i: int) -> int {
    s[i] + 0x100 * s[i + 1]
}

/// The unsigned 32-bit number at byte `i` of `s`.
pub open spec fn u32_at(s: Seq<u8>, i: int) -> int {
    s[i] + 0x100 * s[i + 1] + 0x1_0000 * s[i + 2] + 0x100_0000 * s[i + 3]
}

/// The unsigned 64-bit number at byte `i` of `s`.
pub open spec fn u64_at(s: Seq<u8>, i: int) -> int {
    u32_at(s, i) + 0x1_0000_0000 * u32_at(s, i + 4)
}

/// The two's complement 32-bit number at byte `i` of `s`.
pub open spec fn i32_at(s: Seq<u8>, i: int) -> int {
    if u32_at(s, i) < 0x8000_0000 {
        u32_at(s, i)
    } else {
        u32_at(s, i) - 0x1_0000_0000
    }
}

/// The two low bytes of `v`.
pub open spec fn u16_bytes(v: int) -> Seq<u8> {
    seq![(v % 0x100) as u8, (v / 0x100 % 0x100) as u8]
}

/// The four low bytes of `v`; of a negative number, those of its two's
/// complement.
pub open spec fn u32_bytes(v: int) -> Seq<u8> {
    seq![
        (v % 0x100) as u8,
        (v / 0x100 % 0x100) as u8,
        (v / 0x1_0000 % 0x100) as u8,
        (v / 0x100_0000 % 0x100) as u8,
    ]
}

/// The eight low bytes of `v`; of a negative number, those of its two's
/// complement.
pub open spec fn u64_bytes(v: int) -> Seq<u8> {
    u32_bytes(v % 0x1_0000_0000) + u32_bytes(v / 0x1_0000_0000)
}

/// The numbers one after another, four bytes each.
pub open spec fn words_bytes(words: Seq<int>) -> Seq<u8> {
    Seq::new(4 * words.len(), |i: int| u32_bytes(words[i / 4])[i % 4])
}

/// One more number adds its four bytes.
pub proof fn lemma_words_push(words: Seq<int>, v: int)
    ensures
        words_bytes(words.push(v)) == words_bytes(words) + u32_bytes(v),
{
    let n = words.len();
    let longer = words_bytes(words.push(v));
    assert forall|i: int| 0 <= i < 4 * n + 4 implies longer[i] == (words_bytes(words) + u32_bytes(
        v,
    ))[i] by {
        if i >= 4 * n {
            assert(i / 4 == n);
            assert(i % 4 == i - 4 * n);
        } else {
            assert(i / 4 < n);
        }
    }
    assert(longer =~= words_bytes(words) + u32_bytes(v));
}

/// Number `k` is read at byte `4 * k`, whatever follows.
pub proof fn lemma_words_read(words: Seq<int>, k: int, rest: Seq<u8>)
    requires
        0 <= k < words.len(),
        -0x8000_0000 <= words[k] < 0x8000_0000,
    ensures
        i32_at(words_bytes(words) + rest, 4 * k) == words[k],
{
    lemma_i32_round_trip(words[k]);
    let s = words_bytes(words) + rest;
    let f = u32_bytes(words[k]);
    assert((4 * k) / 4 == k && (4 * k) % 4 == 0);
    assert((4 * k + 1) / 4 == k && (4 * k + 1) % 4 == 1);
    assert((4 * k + 2) / 4 == k && (4 * k + 2) % 4 == 2);
    assert((4 * k + 3) / 4 == k && (4 * k + 3) % 4 == 3);
    assert(s[4 * k] == f[0] && s[4 * k + 1] == f[1] && s[4 * k + 2] == f[2] && s[4 * k + 3]
        == f[3]);
}

/// A number written as two bytes reads back as itself.
pub proof fn lemma_u16_round_trip(v: int)
    requires
        0 <= v < 0x1_0000,
    ensures
        u16_bytes(v).len() == 2,
        u16_at(u16_bytes(v), 0) == v,
{
}

/// A number written as four bytes reads back as itself.
pub proof fn lemma_u32_round_trip(v: int)
    requires
        0 <= v < 0x1_0000_0000,
    ensures
        u32_bytes(v).len() == 4,
        u32_at(u32_bytes(v), 0) == v,
{
}

/// A number written as eight bytes reads back as itself.
pub proof fn lemma_u64_round_trip(v: int)
    requires
        0 <= v < 0x1_0000_0000_0000_0000,
    ensures
        u64_bytes(v).len() == 8,
        u64_at(u64_bytes(v), 0) == v,
{
    lemma_u32_round_trip(v % 0x1_0000_0000);
    lemma_u32_round_trip(v / 0x1_0000_0000);
    let s = u64_bytes(v);
    assert(u32_at(s, 0) == u32_at(u32_bytes(v % 0x1_0000_0000), 0));
    assert(u32_at(s, 4) == u32_at(u32_bytes(v / 0x1_0000_0000), 0));
}

/// Only the low 32 bits of a number go into its four bytes.
proof fn lemma_u32_bytes_wrap(v: int)
    ensures
        u32_bytes(v + 0x1_0000_0000) == u32_bytes(v),
{
    let w = v + 0x1_0000_0000;
    assert(w % 0x100 == v % 0x100);
    assert(w / 0x100 == v / 0x100 + 0x100_0000);
    assert((v / 0x100 + 0x100_0000) % 0x100 == v / 0x100 % 0x100);
    assert(w / 0x1_0000 == v / 0x1_0000 + 0x1_0000);
    assert((v / 0x1_0000 + 0x1_0000) % 0x100 == v / 0x1_0000 % 0x100);
    assert(w / 0x100_0000 == v / 0x100_0000 + 0x100);
    assert((v / 0x100_0000 + 0x100) % 0x100 == v / 0x100_0000 % 0x100);
}

/// Only the low 64 bits of a number go into its eight bytes.
proof fn lemma_u64_bytes_wrap(v: int)
    ensures
        u64_bytes(v + 0x1_0000_0000_0000_0000) == u64_bytes(v),
{
    let w = v + 0x1_0000_0000_0000_0000;
    assert(w % 0x1_0000_0000 == v % 0x1_0000_0000);
    assert(w / 0x1_0000_0000 == v / 0x1_0000_0000 + 0x1_0000_0000);
    lemma_u32_bytes_wrap(v / 0x1_0000_0000);
}

/// Reads the `u16` at `off`.
pub fn rd_u16(b: &[u8], off: usize) -> (v: u16)
    requires
        off + 2 <= b@.len(),
    ensures
        v == u16_at(b@, off as int),
{
    b[off] as u16 + 0x100 * (b[off + 1] as u16)
}

/// Reads the `u32` at `off`.
pub fn rd_u32(b: &[u8], off: usize) -> (v: u32)
    requires
        off + 4 <= b@.len(),
    ensures
        v == u32_at(b@, off as int),
{
    b[off] as u32 + 0x100 * (b[off + 1] as u32) + 0x1_0000 * (b[off + 2] as u32) + 0x100_0000 * (
    b[off + 3] as u32)
}

/// Reads the `u64` at `off`.
pub fn rd_u64(b: &[u8], off: usize) -> (v: u64)
    requires
        off + 8 <= b@.len(),
    ensures
        v == u64_at(b@, off as int),
{
    assert(off + 8 <= b.len());
    rd_u32(b, off) as u64 + 0x1_0000_0000 * (rd_u32(b, off + 4) as u64)
}

/// Reads the `i32` at `off`.
pub fn rd_i32(b: &[u8], off: usize) -> (v: i32)
    requires
        off + 4 <= b@.len(),
    ensures
        v == i32_at(b@, off as int),
{
    let u: u32 = rd_u32(b, off);
    if u < 0x8000_0000 {
        u as i32
    } else {
        (u as i64 - 0x1_0000_0000) as i32
    }
}

/// Appends `v` as two bytes.
pub fn push_u16(out: &mut Vec<u8>, v: u16)
    ensures
        final(out)@ == old(out)@ + u16_bytes(v as int),
{
    out.push((v % 0x100) as u8);
    out.push((v / 0x100) as u8);
}

/// Appends `v` as four bytes.
pub fn push_u32(out: &mut Vec<u8>, v: u32)
    ensures
        final(out)@ == old(out)@ + u32_bytes(v as int),
{
    out.push((v % 0x100) as u8);
    out.push((v / 0x100 % 0x100) as u8);
    out.push((v / 0x1_0000 % 0x100) as u8);
    out.push((v / 0x100_0000) as u8);
}

/// Appends the low 32 bits of `v` as four bytes.
pub fn push_low_u32(out: &mut Vec<u8>, v: u64)
    ensures
        final(out)@ == old(out)@ + u32_bytes(v as int),
{
    out.push((v % 0x100) as u8);
    out.push((v / 0x100 % 0x100) as u8);
    out.push((v / 0x1_0000 % 0x100) as u8);
    out.push((v / 0x100_0000 % 0x100) as u8);
}

/// Appends `v` as eight bytes.
pub fn push_u64(out: &mut Vec<u8>, v: u64)
    ensures
        final(out)@ == old(out)@ + u64_bytes(v as int),
{
    push_u32(out, (v % 0x1_0000_0000) as u32);
    push_u32(out, (v / 0x1_0000_0000) as u32);
    assert(out@ =~= old(out)@ + u64_bytes(v as int));
}

/// Appends the low 32 bits of `v` as four bytes.
pub fn push_word(out: &mut Vec<u8>, v: i64)
    requires
        v >= -0x8000_0000,
    ensures
        final(out)@ == old(out)@ + u32_bytes(v as int),
{
    if v >= 0 {
        push_low_u32(out, v as u64);
    } else {
        proof {
            lemma_u32_bytes_wrap(v as int);
        }
        push_u32(out, (v + 0x1_0000_0000) as u32);
    }
}

/// Appends `v` as eight bytes.
pub fn push_i64(out: &mut Vec<u8>, v: i64)
    ensures
        final(out)@ == old(out)@ + u64_bytes(v as int),
{
    if v >= 0 {
        push_u64(out, v as u64);
    } else {
        proof {
            lemma_u64_bytes_wrap(v as int);
        }
        push_u64(out, (v as i128 + 0x1_0000_0000_0000_0000) as u64);
    }
}

/// A signed number written as four bytes reads back as itself.
pub proof fn lemma_i32_round_trip(v: int)
    requires
        -0x8000_0000 <= v < 0x8000_0000,
    ensures
        u32_bytes(v).len() == 4,
        i32_at(u32_bytes(v), 0) == v,
{
}

/// A number is made of its bytes, the lowest first, and of nothing else.
pub proof fn numbers_are_little_endian(s: Seq<u8>, i: int)
    ensures
        0 <= u16_at(s, i) < 0x1_0000,
        u16_at(s, i) % 0x100 == s[i],
        u16_at(s, i) / 0x100 == s[i + 1],
        0 <= u32_at(s, i) < 0x1_0000_0000,
        u32_at(s, i) % 0x1_0000 == u16_at(s, i),
        u32_at(s, i) / 0x1_0000 == u16_at(s, i + 2),
        0 <= u64_at(s, i) < 0x1_0000_0000_0000_0000,
        u64_at(s, i) % 0x1_0000_0000 == u32_at(s, i),
        u64_at(s, i) / 0x1_0000_0000 == u32_at(s, i + 4),
{
}

/// A signed number has the bytes of the unsigned one that differs from it by a
/// multiple of 2^32, and the highest bit is its sign.
pub proof fn signed_numbers_are_complements(s: Seq<u8>, i: int)
    ensures
        -0x8000_0000 <= i32_at(s, i) < 0x8000_0000,
        i32_at(s, i) % 0x1_0000_0000 == u32_at(s, i),
        i32_at(s, i) < 0 <==> s[i + 3] >= 0x80,
{
}

/// Only the low bits of a number are written in two bytes: what is read back is
/// those bits.
pub proof fn low_16_bits_are_written(v: int)
    ensures
        u16_bytes(v).len() == 2,
        u16_at(u16_bytes(v), 0) == v % 0x1_0000,
{
}

/// Only the low bits of a number are written in four bytes: what is read back is
/// those bits.
pub proof fn low_32_bits_are_written(v: int)
    ensures
        u32_bytes(v).len() == 4,
        u32_at(u32_bytes(v), 0) == v % 0x1_0000_0000,
{
    lemma_low_u32(v);
}

/// Only the low bits of a number are written in eight bytes: what is read back
/// is those bits.
pub proof fn low_64_bits_are_written(v: int)
    ensures
        u64_bytes(v).len() == 8,
        u64_at(u64_bytes(v), 0) == v % 0x1_0000_0000_0000_0000,
{
    lemma_low_u64(v);
}

proof fn lemma_low_u64(v: int)
    ensures
        u64_bytes(v).len() == 8,
        u64_at(u64_bytes(v), 0) == v % 0x1_0000_0000_0000_0000,
{
    let low = v % 0x1_0000_0000;
    let high = v / 0x1_0000_0000;
    let s = u64_bytes(v);
    assert(s =~= u32_bytes(low) + u32_bytes(high));
    assert(u32_at(s, 0) == low) by {
        lemma_low_u32(low);
        assert(u32_at(s, 0) == u32_at(u32_bytes(low), 0));
    }
    assert(u32_at(s, 4) == high % 0x1_0000_0000) by {
        lemma_low_u32(high);
        assert(u32_at(s, 4) == u32_at(u32_bytes(high), 0));
    }
    lemma_halves(v);
}

proof fn lemma_halves(v: int)
    ensures
        v % 0x1_0000_0000 + 0x1_0000_0000 * (v / 0x1_0000_0000 % 0x1_0000_0000) == v
            % 0x1_0000_0000_0000_0000,
{
}

proof fn lemma_low_u32(v: int)
    ensures
        u32_at(u32_bytes(v), 0) == v % 0x1_0000_0000,
{
    assert(v / 0x100 == v / 0x100 / 0x100 * 0x100 + v / 0x100 % 0x100);
    assert(v / 0x100 / 0x100 == v / 0x1_0000);
    assert(v / 0x1_0000 / 0x100 == v / 0x100_0000);
    assert(v / 0x100_0000 / 0x100 == v / 0x1_0000_0000);
}

/// Words stand one after another: none without words, and word `k` is at
/// byte `4 * k`.
pub proof fn words_stand_in_order(words: Seq<int>, k: int)
    requires
        0 <= k < words.len(),
    ensures
        words_bytes(words).len() == 4 * words.len(),
        words_bytes(words).subrange(4 * k, 4 * k + 4) == u32_bytes(words[k]),
{
    let f = u32_bytes(words[k]);
    assert((4 * k) / 4 == k && (4 * k) % 4 == 0);
    assert((4 * k + 1) / 4 == k && (4 * k + 1) % 4 == 1);
    assert((4 * k + 2) / 4 == k && (4 * k + 2) % 4 == 2);
    assert((4 * k + 3) / 4 == k && (4 * k + 3) % 4 == 3);
    assert(words_bytes(words).subrange(4 * k, 4 * k + 4) =~= f);
}

} // verus!
