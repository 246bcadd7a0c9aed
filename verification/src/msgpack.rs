//! The msgpack forms this library reads and writes.
//!
//! Chunk payloads and wire messages are msgpack values. The library always
//! emits the widest header of each family — `bin 32`, `str 32`, `array 32`
//! and `int 64` — and accepts exactly what it emits, so every value has one
//! encoding and decoding is the exact inverse of encoding.

use vstd::prelude::*;
use vstd::slice::slice_to_vec;
use vstd::utf8::{decode_utf8, decode_utf8_encode_utf8, encode_utf8, encode_utf8_decode_utf8,
    encode_utf8_valid_utf8, valid_utf8};

use crate::intbytes::{lemma_i64_bits_roundtrip, lemma_u32_be_roundtrip, lemma_u64_be_roundtrip,
    spec_i64_from_bits, spec_u32_from_be, spec_u32_to_be, spec_u64_from_be, spec_u64_to_be,
    copy_range, u32_from_be, u32_to_be, u64_from_be, u64_to_be};
use crate::text::string_from_utf8;

verus! {

/// Tag byte of the `bin 32` form.
pub const TAG_BIN32: u8 = 0xc6;

/// Tag byte of the `str 32` form.
pub const TAG_STR32: u8 = 0xdb;

/// Tag byte of the `array 32` form.
pub const TAG_ARR32: u8 = 0xdd;

/// Tag byte of the `int 64` form.
pub const TAG_INT64: u8 = 0xd3;

/// Lengths and counts are carried in 32-bit headers.
pub const MAX_LEN32: usize = 0xffff_ffff;

/// A byte string as `bin 32`: tag, four length bytes, the bytes.
pub open spec fn mp_bin(b: Seq<u8>) -> Seq<u8>
    recommends
        b.len() <= MAX_LEN32,
{
    seq![TAG_BIN32] + spec_u32_to_be(b.len() as u32) + b
}

/// A string as `str 32`: tag, four length bytes, the UTF-8 bytes.
pub open spec fn mp_str(s: Seq<char>) -> Seq<u8>
    recommends
        encode_utf8(s).len() <= MAX_LEN32,
{
    seq![TAG_STR32] + spec_u32_to_be(encode_utf8(s).len() as u32) + encode_utf8(s)
}

/// An array header as `array 32`: tag and four count bytes.
pub open spec fn mp_arr(n: nat) -> Seq<u8>
    recommends
        n <= MAX_LEN32,
{
    seq![TAG_ARR32] + spec_u32_to_be(n as u32)
}

/// A timestamp as `int 64`: tag and eight two's-complement bytes.
pub open spec fn mp_i64(x: i64) -> Seq<u8> {
    seq![TAG_INT64] + spec_u64_to_be(x as u64)
}

/// Reading a `bin 32` at `pos`: the byte string and the position after it.
pub open spec fn dec_bin(bytes: Seq<u8>, pos: int) -> Option<(Seq<u8>, int)> {
    if 0 <= pos && pos + 5 <= bytes.len() && bytes[pos] == TAG_BIN32 {
        let n = spec_u32_from_be(bytes.subrange(pos + 1, pos + 5)) as int;
        if pos + 5 + n <= bytes.len() {
            Some((bytes.subrange(pos + 5, pos + 5 + n), pos + 5 + n))
        } else {
            None
        }
    } else {
        None
    }
}

/// Reading a `str 32` at `pos`: the string and the position after it.
pub open spec fn dec_str(bytes: Seq<u8>, pos: int) -> Option<(Seq<char>, int)> {
    if 0 <= pos && pos + 5 <= bytes.len() && bytes[pos] == TAG_STR32 {
        let n = spec_u32_from_be(bytes.subrange(pos + 1, pos + 5)) as int;
        if pos + 5 + n <= bytes.len() && valid_utf8(bytes.subrange(pos + 5, pos + 5 + n)) {
            Some((decode_utf8(bytes.subrange(pos + 5, pos + 5 + n)), pos + 5 + n))
        } else {
            None
        }
    } else {
        None
    }
}

/// Reading an `array 32` header at `pos`: the count and the position after.
pub open spec fn dec_arr(bytes: Seq<u8>, pos: int) -> Option<(int, int)> {
    if 0 <= pos && pos + 5 <= bytes.len() && bytes[pos] == TAG_ARR32 {
        Some((spec_u32_from_be(bytes.subrange(pos + 1, pos + 5)) as int, pos + 5))
    } else {
        None
    }
}

/// Reading an `int 64` at `pos`: the value and the position after it.
pub open spec fn dec_i64(bytes: Seq<u8>, pos: int) -> Option<(i64, int)> {
    if 0 <= pos && pos + 9 <= bytes.len() && bytes[pos] == TAG_INT64 {
        Some((spec_i64_from_bits(spec_u64_from_be(bytes.subrange(pos + 1, pos + 9))), pos + 9))
    } else {
        None
    }
}

/// A subrange of `bytes` equal to `seg` makes every inner subrange of
/// `seg` readable at its offset.
pub proof fn lemma_slice_at(bytes: Seq<u8>, pos: int, seg: Seq<u8>, a: int, b: int)
    requires
        0 <= pos,
        pos + seg.len() <= bytes.len(),
        bytes.subrange(pos, pos + seg.len()) == seg,
        0 <= a <= b <= seg.len(),
    ensures
        bytes.subrange(pos + a, pos + b) =~= seg.subrange(a, b),
{
    assert forall|k: int| 0 <= k < b - a implies bytes.subrange(pos + a, pos + b)[k]
        == seg.subrange(a, b)[k] by {
        assert(bytes.subrange(pos, pos + seg.len())[a + k] == seg[a + k]);
    }
}

/// Reading back an emitted `bin 32`.
pub proof fn lemma_dec_bin(bytes: Seq<u8>, pos: int, b: Seq<u8>)
    requires
        b.len() <= MAX_LEN32,
        0 <= pos,
        pos + mp_bin(b).len() <= bytes.len(),
        bytes.subrange(pos, pos + mp_bin(b).len()) == mp_bin(b),
    ensures
        dec_bin(bytes, pos) == Some((b, pos + 5 + b.len())),
{
    let seg = mp_bin(b);
    assert(bytes[pos] == seg[0]) by {
        assert(bytes.subrange(pos, pos + seg.len())[0] == seg[0]);
    }
    lemma_slice_at(bytes, pos, seg, 1, 5);
    assert(seg.subrange(1, 5) =~= spec_u32_to_be(b.len() as u32));
    lemma_u32_be_roundtrip(b.len() as u32);
    lemma_slice_at(bytes, pos, seg, 5, seg.len() as int);
    assert(seg.subrange(5, seg.len() as int) =~= b);
}

/// Reading back an emitted `str 32`.
pub proof fn lemma_dec_str(bytes: Seq<u8>, pos: int, s: Seq<char>)
    requires
        encode_utf8(s).len() <= MAX_LEN32,
        0 <= pos,
        pos + mp_str(s).len() <= bytes.len(),
        bytes.subrange(pos, pos + mp_str(s).len()) == mp_str(s),
    ensures
        dec_str(bytes, pos) == Some((s, pos + 5 + encode_utf8(s).len())),
{
    let seg = mp_str(s);
    let u = encode_utf8(s);
    assert(bytes[pos] == seg[0]) by {
        assert(bytes.subrange(pos, pos + seg.len())[0] == seg[0]);
    }
    lemma_slice_at(bytes, pos, seg, 1, 5);
    assert(seg.subrange(1, 5) =~= spec_u32_to_be(u.len() as u32));
    lemma_u32_be_roundtrip(u.len() as u32);
    lemma_slice_at(bytes, pos, seg, 5, seg.len() as int);
    assert(seg.subrange(5, seg.len() as int) =~= u);
    encode_utf8_valid_utf8(s);
    encode_utf8_decode_utf8(s);
}

/// Reading back an emitted `array 32` header.
pub proof fn lemma_dec_arr(bytes: Seq<u8>, pos: int, n: nat)
    requires
        n <= MAX_LEN32,
        0 <= pos,
        pos + 5 <= bytes.len(),
        bytes.subrange(pos, pos + 5) == mp_arr(n),
    ensures
        dec_arr(bytes, pos) == Some((n as int, pos + 5)),
{
    let seg = mp_arr(n);
    assert(bytes[pos] == seg[0]) by {
        assert(bytes.subrange(pos, pos + seg.len())[0] == seg[0]);
    }
    lemma_slice_at(bytes, pos, seg, 1, 5);
    assert(seg.subrange(1, 5) =~= spec_u32_to_be(n as u32));
    lemma_u32_be_roundtrip(n as u32);
}

/// Reading back an emitted `int 64`.
pub proof fn lemma_dec_i64(bytes: Seq<u8>, pos: int, x: i64)
    requires
        0 <= pos,
        pos + 9 <= bytes.len(),
        bytes.subrange(pos, pos + 9) == mp_i64(x),
    ensures
        dec_i64(bytes, pos) == Some((x, pos + 9)),
{
    let seg = mp_i64(x);
    assert(bytes[pos] == seg[0]) by {
        assert(bytes.subrange(pos, pos + seg.len())[0] == seg[0]);
    }
    lemma_slice_at(bytes, pos, seg, 1, 9);
    assert(seg.subrange(1, 9) =~= spec_u64_to_be(x as u64));
    lemma_u64_be_roundtrip(x as u64);
    lemma_i64_bits_roundtrip(x);
}

/// Appends a `bin 32` to `out`.
pub fn put_bin(out: &mut Vec<u8>, b: &[u8])
    requires
        b@.len() <= MAX_LEN32,
    ensures
        final(out)@ =~= old(out)@ + mp_bin(b@),
{
    out.push(TAG_BIN32);
    let mut hdr = u32_to_be(b.len() as u32);
    out.append(&mut hdr);
    let mut seg = slice_to_vec(b);
    out.append(&mut seg);
}

/// Appends a `str 32` to `out`.
pub fn put_str(out: &mut Vec<u8>, s: &String)
    requires
        encode_utf8(s@).len() <= MAX_LEN32,
    ensures
        final(out)@ =~= old(out)@ + mp_str(s@),
{
    let bytes = s.as_str().as_bytes();
    out.push(TAG_STR32);
    let mut hdr = u32_to_be(bytes.len() as u32);
    out.append(&mut hdr);
    let mut seg = slice_to_vec(bytes);
    out.append(&mut seg);
}

/// Appends an `array 32` header to `out`.
pub fn put_arr(out: &mut Vec<u8>, n: u32)
    ensures
        final(out)@ =~= old(out)@ + mp_arr(n as nat),
{
    out.push(TAG_ARR32);
    let mut hdr = u32_to_be(n);
    out.append(&mut hdr);
}

/// Appends an `int 64` to `out`.
pub fn put_i64(out: &mut Vec<u8>, x: i64)
    ensures
        final(out)@ =~= old(out)@ + mp_i64(x),
{
    out.push(TAG_INT64);
    let mut body = u64_to_be(x as u64);
    out.append(&mut body);
    proof {
        assert((x as u64) == spec_i64_bits_of(x));
    }
}

/// The bit pattern of a timestamp; a reading aid for `put_i64`.
pub open spec fn spec_i64_bits_of(x: i64) -> u64 {
    x as u64
}

/// Reads a `bin 32` at `pos`.
pub fn get_bin(bytes: &[u8], pos: usize) -> (r: Option<(Vec<u8>, usize)>)
    requires
        pos <= bytes@.len(),
    ensures
        r matches Some(p) ==> dec_bin(bytes@, pos as int) == Some((p.0@, p.1 as int)) && pos < p.1
            <= bytes@.len(),
        r is None ==> dec_bin(bytes@, pos as int) is None,
{
    let n = bytes.len();
    if n - pos < 5 {
        return None;
    }
    if bytes[pos] != TAG_BIN32 {
        return None;
    }
    let len32 = u32_from_be(bytes, pos + 1);
    let len = len32 as usize;
    if n - (pos + 5) < len {
        return None;
    }
    let seg = copy_range(bytes, pos + 5, pos + 5 + len);
    Some((seg, pos + 5 + len))
}

/// Reads a `str 32` at `pos`.
pub fn get_str(bytes: &[u8], pos: usize) -> (r: Option<(String, usize)>)
    requires
        pos <= bytes@.len(),
    ensures
        r matches Some(p) ==> dec_str(bytes@, pos as int) == Some((p.0@, p.1 as int)) && pos < p.1
            <= bytes@.len(),
        r is None ==> dec_str(bytes@, pos as int) is None,
{
    let n = bytes.len();
    if n - pos < 5 {
        return None;
    }
    if bytes[pos] != TAG_STR32 {
        return None;
    }
    let len32 = u32_from_be(bytes, pos + 1);
    let len = len32 as usize;
    if n - (pos + 5) < len {
        return None;
    }
    let seg = copy_range(bytes, pos + 5, pos + 5 + len);
    let ghost segv = seg@;
    match string_from_utf8(seg) {
        Some(s) => {
            proof {
                encode_utf8_valid_utf8(s@);
                encode_utf8_decode_utf8(s@);
                assert(segv == bytes@.subrange(pos + 5, pos + 5 + len));
            }
            Some((s, pos + 5 + len))
        },
        None => None,
    }
}

/// Reads an `array 32` header at `pos`.
pub fn get_arr(bytes: &[u8], pos: usize) -> (r: Option<(u32, usize)>)
    requires
        pos <= bytes@.len(),
    ensures
        r matches Some(p) ==> dec_arr(bytes@, pos as int) == Some((p.0 as int, p.1 as int)) && pos
            < p.1 <= bytes@.len(),
        r is None ==> dec_arr(bytes@, pos as int) is None,
{
    let n = bytes.len();
    if n - pos < 5 {
        return None;
    }
    if bytes[pos] != TAG_ARR32 {
        return None;
    }
    let count = u32_from_be(bytes, pos + 1);
    Some((count, pos + 5))
}

/// Reads an `int 64` at `pos`.
pub fn get_i64(bytes: &[u8], pos: usize) -> (r: Option<(i64, usize)>)
    requires
        pos <= bytes@.len(),
    ensures
        r matches Some(p) ==> dec_i64(bytes@, pos as int) == Some((p.0, p.1 as int)) && pos < p.1
            <= bytes@.len(),
        r is None ==> dec_i64(bytes@, pos as int) is None,
{
    let n = bytes.len();
    if n - pos < 9 {
        return None;
    }
    if bytes[pos] != TAG_INT64 {
        return None;
    }
    let bits = u64_from_be(bytes, pos + 1);
    Some((bits as i64, pos + 9))
}

} // verus!
