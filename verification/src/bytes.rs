//! Fixed-width integers as bytes.

use vstd::prelude::*;

use crate::utf8::lemma_stands_at_split;

verus! {

/// A 32-bit number as four bytes, the lowest first.
pub open spec fn le32(x: u32) -> Seq<u8> {
    seq![
        (x % 256) as u8,
        (x / 256 % 256) as u8,
        (x / 65536 % 256) as u8,
        (x / 16777216 % 256) as u8,
    ]
}

/// The 32-bit number whose four bytes stand at a place, the lowest first.
pub open spec fn read_le32(b: Seq<u8>, i: int) -> u32 {
    (b[i] + b[i + 1] * 256 + b[i + 2] * 65536 + b[i + 3] * 16777216) as u32
}

/// A 64-bit number as eight bytes, the lowest first.
pub open spec fn le64(x: u64) -> Seq<u8> {
    le32((x % 0x1_0000_0000) as u32) + le32((x / 0x1_0000_0000) as u32)
}

/// The 64-bit number whose eight bytes stand at a place, the lowest first.
pub open spec fn read_le64(b: Seq<u8>, i: int) -> u64 {
    (read_le32(b, i) + read_le32(b, i + 4) * 0x1_0000_0000) as u64
}

/// A 32-bit number as four bytes, the highest first.
pub open spec fn be32(x: u32) -> Seq<u8> {
    seq![
        (x / 16777216 % 256) as u8,
        (x / 65536 % 256) as u8,
        (x / 256 % 256) as u8,
        (x % 256) as u8,
    ]
}

/// The 32-bit number whose four bytes stand at a place, the highest first.
pub open spec fn read_be32(b: Seq<u8>, i: int) -> u32 {
    (b[i] * 16777216 + b[i + 1] * 65536 + b[i + 2] * 256 + b[i + 3]) as u32
}

/// The unsigned number with the same 64 bits.
pub open spec fn bits_of(x: i64) -> u64 {
    if x >= 0 {
        x as u64
    } else {
        (x + 0x1_0000_0000_0000_0000) as u64
    }
}

/// The signed number with the same 64 bits.
pub open spec fn from_bits(x: u64) -> i64 {
    if x <= 0x7fff_ffff_ffff_ffff {
        x as i64
    } else {
        (x - 0x1_0000_0000_0000_0000) as i64
    }
}

/// A number is the sum of its digits to the base 256.
proof fn lemma_digits(x: u32)
    ensures
        x == (x % 256) + (x / 256 % 256) * 256 + (x / 65536 % 256) * 65536 + (x / 16777216 % 256)
            * 16777216,
{
    assert(x / 65536 == (x / 256) / 256);
    assert(x / 16777216 == (x / 65536) / 256);
}

/// Reading four bytes gives back the number that was written.
pub proof fn law_le32_round_trip(x: u32, b: Seq<u8>, i: int)
    requires
        0 <= i,
        i + 4 <= b.len(),
        b.subrange(i, i + 4) == le32(x),
    ensures
        read_le32(b, i) == x,
{
    lemma_digits(x);
    let w = b.subrange(i, i + 4);
    assert(w[0] == b[i]);
    assert(w[1] == b[i + 1]);
    assert(w[2] == b[i + 2]);
    assert(w[3] == b[i + 3]);
}

/// Reading eight bytes gives back the number that was written.
pub proof fn law_le64_round_trip(x: u64, b: Seq<u8>, i: int)
    requires
        0 <= i,
        i + 8 <= b.len(),
        b.subrange(i, i + 8) == le64(x),
    ensures
        read_le64(b, i) == x,
{
    let lo = (x % 0x1_0000_0000) as u32;
    let hi = (x / 0x1_0000_0000) as u32;
    lemma_stands_at_split(b, i, le32(lo), le32(hi));
    law_le32_round_trip(lo, b, i);
    law_le32_round_trip(hi, b, i + 4);
}

/// Reading four bytes gives back the number that was written.
pub proof fn law_be32_round_trip(x: u32, b: Seq<u8>, i: int)
    requires
        0 <= i,
        i + 4 <= b.len(),
        b.subrange(i, i + 4) == be32(x),
    ensures
        read_be32(b, i) == x,
{
    lemma_digits(x);
    let w = b.subrange(i, i + 4);
    assert(w[0] == b[i]);
    assert(w[1] == b[i + 1]);
    assert(w[2] == b[i + 2]);
    assert(w[3] == b[i + 3]);
}

/// A signed number and its bits determine each other.
pub proof fn law_bits_round_trip(x: i64, y: u64)
    ensures
        from_bits(bits_of(x)) == x,
        bits_of(from_bits(y)) == y,
{
}

/// Adds a 32-bit number, the lowest byte first.
pub fn push_le32(out: &mut Vec<u8>, x: u32)
    ensures
        final(out)@ == old(out)@ + le32(x),
{
    out.push((x % 256) as u8);
    out.push((x / 256 % 256) as u8);
    out.push((x / 65536 % 256) as u8);
    out.push((x / 16777216 % 256) as u8);
    assert(out@ =~= old(out)@ + le32(x));
}

/// Adds a 64-bit number, the lowest byte first.
pub fn push_le64(out: &mut Vec<u8>, x: u64)
    ensures
        final(out)@ == old(out)@ + le64(x),
{
    push_le32(out, (x % 0x1_0000_0000) as u32);
    push_le32(out, (x / 0x1_0000_0000) as u32);
    assert(out@ =~= old(out)@ + le64(x));
}

/// Adds a 32-bit number, the highest byte first.
pub fn push_be32(out: &mut Vec<u8>, x: u32)
    ensures
        final(out)@ == old(out)@ + be32(x),
{
    out.push((x / 16777216 % 256) as u8);
    out.push((x / 65536 % 256) as u8);
    out.push((x / 256 % 256) as u8);
    out.push((x % 256) as u8);
    assert(out@ =~= old(out)@ + be32(x));
}

/// Reads a 32-bit number, the lowest byte first.
pub fn get_le32(b: &[u8], i: usize) -> (r: u32)
    requires
        i + 4 <= b@.len(),
    ensures
        r == read_le32(b@, i as int),
{
    let _len: usize = b.len();
    b[i] as u32 + b[i + 1] as u32 * 256 + b[i + 2] as u32 * 65536 + b[i + 3] as u32 * 16777216
}

/// Reads a 64-bit number, the lowest byte first.
pub fn get_le64(b: &[u8], i: usize) -> (r: u64)
    requires
        i + 8 <= b@.len(),
    ensures
        r == read_le64(b@, i as int),
{
    let _len: usize = b.len();
    get_le32(b, i) as u64 + get_le32(b, i + 4) as u64 * 0x1_0000_0000
}

/// Reads a 32-bit number, the highest byte first.
pub fn get_be32(b: &[u8], i: usize) -> (r: u32)
    requires
        i + 4 <= b@.len(),
    ensures
        r == read_be32(b@, i as int),
{
    let _len: usize = b.len();
    b[i] as u32 * 16777216 + b[i + 1] as u32 * 65536 + b[i + 2] as u32 * 256 + b[i + 3] as u32
}

/// The unsigned number with the same 64 bits.
pub fn to_bits(x: i64) -> (r: u64)
    ensures
        r == bits_of(x),
{
    if x >= 0 {
        x as u64
    } else {
        let low: i64 = x + 0x7fff_ffff_ffff_ffff + 1;
        low as u64 + 0x8000_0000_0000_0000
    }
}

/// The signed number with the same 64 bits.
pub fn of_bits(x: u64) -> (r: i64)
    ensures
        r == from_bits(x),
{
    if x <= 0x7fff_ffff_ffff_ffff {
        x as i64
    } else {
        (x - 0x8000_0000_0000_0000) as i64 - 0x7fff_ffff_ffff_ffff - 1
    }
}

/// Adds the bytes of a slice.
pub fn push_bytes(out: &mut Vec<u8>, b: &[u8])
    ensures
        final(out)@ == old(out)@ + b@,
{
    let mut i: usize = 0;
    assert(out@ =~= old(out)@ + b@.take(0));
    while i < b.len()
        invariant
            i <= b@.len(),
            out@ == old(out)@ + b@.take(i as int),
        decreases b@.len() - i,
    {
        out.push(b[i]);
        i = i + 1;
        assert(out@ =~= old(out)@ + b@.take(i as int));
    }
    assert(b@.take(i as int) =~= b@);
}

/// A copy of `b[from..to]`.
pub fn copy_range(b: &[u8], from: usize, to: usize) -> (r: Vec<u8>)
    requires
        from <= to <= b@.len(),
    ensures
        r@ == b@.subrange(from as int, to as int),
{
    let mut out: Vec<u8> = Vec::new();
    let mut i: usize = from;
    while i < to
        invariant
            from <= i <= to <= b@.len(),
            out@ == b@.subrange(from as int, i as int),
        decreases to - i,
    {
        out.push(b[i]);
        i = i + 1;
        assert(out@ =~= b@.subrange(from as int, i as int));
    }
    out
}

} // verus!
