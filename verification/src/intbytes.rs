//! Big-endian encodings of the fixed-width integers used by the record
//! framing and the chunk payload format, with round-trip lemmas.

use vstd::prelude::*;

verus! {

/// The four bytes of `x`, most significant first.
pub open spec fn spec_u32_to_be(x: u32) -> Seq<u8> {
    seq![
        ((x >> 24) & 0xff) as u8,
        ((x >> 16) & 0xff) as u8,
        ((x >> 8) & 0xff) as u8,
        (x & 0xff) as u8,
    ]
}

/// The value read from four bytes, most significant first.
pub open spec fn spec_u32_from_be(s: Seq<u8>) -> u32
    recommends
        s.len() == 4,
{
    ((s[0] as u32) << 24 | (s[1] as u32) << 16 | (s[2] as u32) << 8 | (s[3] as u32)) as u32
}

pub proof fn lemma_u32_be_roundtrip(x: u32)
    ensures
        spec_u32_from_be(spec_u32_to_be(x)) == x,
{
    let s = spec_u32_to_be(x);
    assert((((((x >> 24) & 0xff) as u8) as u32) << 24 | (((((x >> 16) & 0xff) as u8) as u32))
        << 16 | (((((x >> 8) & 0xff) as u8) as u32)) << 8 | (((x & 0xff) as u8) as u32)) as u32
        == x) by (bit_vector);
}

pub proof fn lemma_u32_be_canonical(s: Seq<u8>)
    requires
        s.len() == 4,
    ensures
        spec_u32_to_be(spec_u32_from_be(s)) =~= s,
{
    let b0 = s[0];
    let b1 = s[1];
    let b2 = s[2];
    let b3 = s[3];
    let x = spec_u32_from_be(s);
    assert({
        let y = ((b0 as u32) << 24 | (b1 as u32) << 16 | (b2 as u32) << 8 | (b3 as u32)) as u32;
        ((y >> 24) & 0xff) as u8 == b0 && ((y >> 16) & 0xff) as u8 == b1 && ((y >> 8) & 0xff) as u8
            == b2 && (y & 0xff) as u8 == b3
    }) by (bit_vector);
}

pub fn u32_to_be(x: u32) -> (r: Vec<u8>)
    ensures
        r@ =~= spec_u32_to_be(x),
{
    let mut r: Vec<u8> = Vec::new();
    r.push(((x >> 24) & 0xff) as u8);
    r.push(((x >> 16) & 0xff) as u8);
    r.push(((x >> 8) & 0xff) as u8);
    r.push((x & 0xff) as u8);
    r
}

/// Reads the four bytes at `pos`, most significant first.
pub fn u32_from_be(s: &[u8], pos: usize) -> (r: u32)
    requires
        pos + 4 <= s@.len(),
    ensures
        r == spec_u32_from_be(s@.subrange(pos as int, pos + 4)),
{
    let b0 = s[pos];
    let b1 = s[pos + 1];
    let b2 = s[pos + 2];
    let b3 = s[pos + 3];
    let r = (b0 as u32) << 24 | (b1 as u32) << 16 | (b2 as u32) << 8 | (b3 as u32);
    assert(s@.subrange(pos as int, pos + 4)[0] == b0);
    assert(s@.subrange(pos as int, pos + 4)[1] == b1);
    assert(s@.subrange(pos as int, pos + 4)[2] == b2);
    assert(s@.subrange(pos as int, pos + 4)[3] == b3);
    r
}

/// The eight bytes of `x`, most significant first.
pub open spec fn spec_u64_to_be(x: u64) -> Seq<u8> {
    seq![
        ((x >> 56) & 0xff) as u8,
        ((x >> 48) & 0xff) as u8,
        ((x >> 40) & 0xff) as u8,
        ((x >> 32) & 0xff) as u8,
        ((x >> 24) & 0xff) as u8,
        ((x >> 16) & 0xff) as u8,
        ((x >> 8) & 0xff) as u8,
        (x & 0xff) as u8,
    ]
}

/// The value read from eight bytes, most significant first.
pub open spec fn spec_u64_from_be(s: Seq<u8>) -> u64
    recommends
        s.len() == 8,
{
    ((s[0] as u64) << 56 | (s[1] as u64) << 48 | (s[2] as u64) << 40 | (s[3] as u64) << 32 | (
    s[4] as u64) << 24 | (s[5] as u64) << 16 | (s[6] as u64) << 8 | (s[7] as u64)) as u64
}

pub proof fn lemma_u64_be_roundtrip(x: u64)
    ensures
        spec_u64_from_be(spec_u64_to_be(x)) == x,
{
    assert((((((x >> 56) & 0xff) as u8) as u64) << 56 | ((((x >> 48) & 0xff) as u8) as u64) << 48
        | ((((x >> 40) & 0xff) as u8) as u64) << 40 | ((((x >> 32) & 0xff) as u8) as u64) << 32 | (
    (((x >> 24) & 0xff) as u8) as u64) << 24 | ((((x >> 16) & 0xff) as u8) as u64) << 16 | ((((x
        >> 8) & 0xff) as u8) as u64) << 8 | (((x & 0xff) as u8) as u64)) as u64 == x)
        by (bit_vector);
}

pub proof fn lemma_u64_be_canonical(s: Seq<u8>)
    requires
        s.len() == 8,
    ensures
        spec_u64_to_be(spec_u64_from_be(s)) =~= s,
{
    let b0 = s[0];
    let b1 = s[1];
    let b2 = s[2];
    let b3 = s[3];
    let b4 = s[4];
    let b5 = s[5];
    let b6 = s[6];
    let b7 = s[7];
    assert({
        let y = ((b0 as u64) << 56 | (b1 as u64) << 48 | (b2 as u64) << 40 | (b3 as u64) << 32 | (
        b4 as u64) << 24 | (b5 as u64) << 16 | (b6 as u64) << 8 | (b7 as u64)) as u64;
        ((y >> 56) & 0xff) as u8 == b0 && ((y >> 48) & 0xff) as u8 == b1 && ((y >> 40) & 0xff) as u8
            == b2 && ((y >> 32) & 0xff) as u8 == b3 && ((y >> 24) & 0xff) as u8 == b4 && ((y >> 16)
            & 0xff) as u8 == b5 && ((y >> 8) & 0xff) as u8 == b6 && (y & 0xff) as u8 == b7
    }) by (bit_vector);
}

pub fn u64_to_be(x: u64) -> (r: Vec<u8>)
    ensures
        r@ =~= spec_u64_to_be(x),
{
    let mut r: Vec<u8> = Vec::new();
    r.push(((x >> 56) & 0xff) as u8);
    r.push(((x >> 48) & 0xff) as u8);
    r.push(((x >> 40) & 0xff) as u8);
    r.push(((x >> 32) & 0xff) as u8);
    r.push(((x >> 24) & 0xff) as u8);
    r.push(((x >> 16) & 0xff) as u8);
    r.push(((x >> 8) & 0xff) as u8);
    r.push((x & 0xff) as u8);
    r
}

/// Reads the eight bytes at `pos`, most significant first.
pub fn u64_from_be(s: &[u8], pos: usize) -> (r: u64)
    requires
        pos + 8 <= s@.len(),
    ensures
        r == spec_u64_from_be(s@.subrange(pos as int, pos + 8)),
{
    let b0 = s[pos];
    let b1 = s[pos + 1];
    let b2 = s[pos + 2];
    let b3 = s[pos + 3];
    let b4 = s[pos + 4];
    let b5 = s[pos + 5];
    let b6 = s[pos + 6];
    let b7 = s[pos + 7];
    let r = (b0 as u64) << 56 | (b1 as u64) << 48 | (b2 as u64) << 40 | (b3 as u64) << 32 | (
    b4 as u64) << 24 | (b5 as u64) << 16 | (b6 as u64) << 8 | (b7 as u64);
    let ghost sub = s@.subrange(pos as int, pos + 8);
    assert(sub[0] == b0 && sub[1] == b1 && sub[2] == b2 && sub[3] == b3 && sub[4] == b4 && sub[5]
        == b5 && sub[6] == b6 && sub[7] == b7);
    r
}

/// The sixteen bytes of `x`, most significant first.
pub open spec fn spec_u128_to_be(x: u128) -> Seq<u8> {
    spec_u64_to_be(((x >> 64) & 0xffff_ffff_ffff_ffff) as u64) + spec_u64_to_be(
        (x & 0xffff_ffff_ffff_ffff) as u64,
    )
}

/// The value read from sixteen bytes, most significant first.
pub open spec fn spec_u128_from_be(s: Seq<u8>) -> u128
    recommends
        s.len() == 16,
{
    ((spec_u64_from_be(s.subrange(0, 8)) as u128) << 64 | (spec_u64_from_be(
        s.subrange(8, 16),
    ) as u128)) as u128
}

pub proof fn lemma_u128_be_roundtrip(x: u128)
    ensures
        spec_u128_from_be(spec_u128_to_be(x)) == x,
{
    let hi = ((x >> 64) & 0xffff_ffff_ffff_ffff) as u64;
    let lo = (x & 0xffff_ffff_ffff_ffff) as u64;
    lemma_u64_be_roundtrip(hi);
    lemma_u64_be_roundtrip(lo);
    assert(spec_u128_to_be(x).subrange(0, 8) =~= spec_u64_to_be(hi));
    assert(spec_u128_to_be(x).subrange(8, 16) =~= spec_u64_to_be(lo));
    assert(((hi as u128) << 64 | (lo as u128)) as u128 == x) by {
        assert(((((x >> 64) & 0xffff_ffff_ffff_ffff) as u64 as u128) << 64 | ((x
            & 0xffff_ffff_ffff_ffff) as u64 as u128)) as u128 == x) by (bit_vector);
    }
}

pub fn u128_to_be(x: u128) -> (r: Vec<u8>)
    ensures
        r@ =~= spec_u128_to_be(x),
{
    let hi = ((x >> 64) & 0xffff_ffff_ffff_ffff) as u64;
    let lo = (x & 0xffff_ffff_ffff_ffff) as u64;
    let mut r = u64_to_be(hi);
    let mut low = u64_to_be(lo);
    r.append(&mut low);
    r
}

/// Reads the sixteen bytes at `pos`, most significant first.
pub fn u128_from_be(s: &[u8], pos: usize) -> (r: u128)
    requires
        pos + 16 <= s@.len(),
    ensures
        r == spec_u128_from_be(s@.subrange(pos as int, pos + 16)),
{
    let n: usize = s.len();
    let hi = u64_from_be(s, pos);
    let lo = u64_from_be(s, pos + 8);
    let ghost sub = s@.subrange(pos as int, pos + 16);
    assert(sub.subrange(0, 8) =~= s@.subrange(pos as int, pos + 8));
    assert(sub.subrange(8, 16) =~= s@.subrange(pos + 8, pos + 16));
    (hi as u128) << 64 | (lo as u128)
}

/// The low seven bytes of `x`, most significant first; used by the record
/// length header, whose length field is 56 bits wide.
pub open spec fn spec_u56_to_be(x: u64) -> Seq<u8>
    recommends
        x < 0x100_0000_0000_0000,
{
    spec_u64_to_be(x).subrange(1, 8)
}

pub fn u56_to_be(x: u64) -> (r: Vec<u8>)
    requires
        x < 0x100_0000_0000_0000,
    ensures
        r@ =~= spec_u56_to_be(x),
{
    let mut r: Vec<u8> = Vec::new();
    r.push(((x >> 48) & 0xff) as u8);
    r.push(((x >> 40) & 0xff) as u8);
    r.push(((x >> 32) & 0xff) as u8);
    r.push(((x >> 24) & 0xff) as u8);
    r.push(((x >> 16) & 0xff) as u8);
    r.push(((x >> 8) & 0xff) as u8);
    r.push((x & 0xff) as u8);
    assert(r@ =~= spec_u64_to_be(x).subrange(1, 8));
    r
}

/// The value read from seven bytes, most significant first.
pub open spec fn spec_u56_from_be(s: Seq<u8>) -> u64
    recommends
        s.len() == 7,
{
    spec_u64_from_be(seq![0u8] + s)
}

pub proof fn lemma_u56_be_roundtrip(x: u64)
    requires
        x < 0x100_0000_0000_0000,
    ensures
        spec_u56_from_be(spec_u56_to_be(x)) == x,
        spec_u56_to_be(x).len() == 7,
{
    assert(x < 0x100_0000_0000_0000 ==> ((x >> 56) & 0xff) as u8 == 0u8) by (bit_vector);
    assert(seq![0u8] + spec_u64_to_be(x).subrange(1, 8) =~= spec_u64_to_be(x));
    lemma_u64_be_roundtrip(x);
}

/// Reads the seven bytes at `pos`, most significant first.
pub fn u56_from_be(s: &[u8], pos: usize) -> (r: u64)
    requires
        pos + 7 <= s@.len(),
    ensures
        r == spec_u56_from_be(s@.subrange(pos as int, pos + 7)),
        r < 0x100_0000_0000_0000,
{
    let b0 = s[pos];
    let b1 = s[pos + 1];
    let b2 = s[pos + 2];
    let b3 = s[pos + 3];
    let b4 = s[pos + 4];
    let b5 = s[pos + 5];
    let b6 = s[pos + 6];
    let r = (b0 as u64) << 48 | (b1 as u64) << 40 | (b2 as u64) << 32 | (b3 as u64) << 24 | (
    b4 as u64) << 16 | (b5 as u64) << 8 | (b6 as u64);
    let ghost sub = seq![0u8] + s@.subrange(pos as int, pos + 7);
    assert(sub[0] == 0u8 && sub[1] == b0 && sub[2] == b1 && sub[3] == b2 && sub[4] == b3 && sub[5]
        == b4 && sub[6] == b5 && sub[7] == b6);
    assert({
        let y = ((0u8 as u64) << 56 | (b0 as u64) << 48 | (b1 as u64) << 40 | (b2 as u64) << 32 | (
        b3 as u64) << 24 | (b4 as u64) << 16 | (b5 as u64) << 8 | (b6 as u64)) as u64;
        y == ((b0 as u64) << 48 | (b1 as u64) << 40 | (b2 as u64) << 32 | (b3 as u64) << 24 | (
        b4 as u64) << 16 | (b5 as u64) << 8 | (b6 as u64)) && y < 0x100_0000_0000_0000
    }) by (bit_vector);
    r
}

/// The timestamp `x` as its two's-complement bit pattern.
pub open spec fn spec_i64_bits(x: i64) -> u64 {
    x as u64
}

/// The timestamp read back from a two's-complement bit pattern.
pub open spec fn spec_i64_from_bits(x: u64) -> i64 {
    x as i64
}

pub proof fn lemma_i64_bits_roundtrip(x: i64)
    ensures
        spec_i64_from_bits(spec_i64_bits(x)) == x,
{
    assert((x as u64) as i64 == x) by (bit_vector);
}

pub proof fn lemma_i64_bits_canonical(x: u64)
    ensures
        spec_i64_bits(spec_i64_from_bits(x)) == x,
{
    assert((x as i64) as u64 == x) by (bit_vector);
}

/// Copies the byte range `[from, to)` out of a slice.
pub fn copy_range(s: &[u8], from: usize, to: usize) -> (r: Vec<u8>)
    requires
        from <= to <= s@.len(),
    ensures
        r@ =~= s@.subrange(from as int, to as int),
{
    let mut r: Vec<u8> = Vec::new();
    let mut i: usize = from;
    while i < to
        invariant
            from <= i <= to <= s@.len(),
            r@ =~= s@.subrange(from as int, i as int),
        decreases to - i,
    {
        r.push(s[i]);
        assert(r@ =~= s@.subrange(from as int, i + 1 as int));
        i = i + 1;
    }
    r
}

} // verus!
