//! Chunks, their sealed on-disk form, and the record framing.
//!
//! A chunk is a batch of entries opened at a start time. On disk it is a
//! record: one version byte, a 56-bit big-endian payload length, and a
//! msgpack payload holding the start time, the nonce, and the AES-256-GCM
//! ciphertext of the encoded entries. Version 1 is current; version 0 seals
//! the legacy entry form; records of unknown versions are skipped on read.

use vstd::prelude::*;

use crate::crypto::{aead_open, aead_open_of, aead_seal};
use crate::entry::{views, Entry, EntryV};
use crate::entrycodec::{dec_entries_v0, dec_entries_v1, decode_entries_v0, decode_entries_v1,
    enc_entries_v0, enc_entries_v1, encode_entries_v0, encode_entries_v1, entries_ok};
use crate::errors::{Error, ErrorKind};
use crate::intbytes::{copy_range, lemma_u56_be_roundtrip, spec_u56_from_be, spec_u56_to_be,
    u56_from_be, u56_to_be};
use crate::msgpack::{dec_arr, dec_bin, dec_i64, get_arr, get_bin, get_i64, lemma_dec_arr,
    lemma_dec_bin, lemma_dec_i64, lemma_slice_at, mp_arr, mp_bin, mp_i64, put_arr, put_bin,
    put_i64, MAX_LEN32};

verus! {

/// The version written for every new record.
pub const CURRENT_CHUNK_VERSION: u8 = 1;

/// An ordered batch of entries sharing one encryption envelope.
#[derive(Debug)]
pub struct Chunk {
    /// When this chunk was opened, microseconds since the epoch.
    pub start: i64,
    /// The entries, in the order they were appended.
    pub entries: Vec<Entry>,
}

/// The mathematical value of a [`Chunk`].
#[verifier::ext_equal]
pub ghost struct ChunkV {
    pub start: int,
    pub entries: Seq<EntryV>,
}

impl View for Chunk {
    type V = ChunkV;

    open spec fn view(&self) -> ChunkV {
        ChunkV { start: self.start as int, entries: views(self.entries@) }
    }
}

impl Chunk {
    /// A chunk opened at `start` with no entries yet.
    pub fn with_start(start: i64) -> (r: Chunk)
        ensures
            r@.start == start as int,
            r@.entries =~= Seq::<EntryV>::empty(),
    {
        Chunk { start, entries: Vec::new() }
    }

    /// An exact copy of this chunk.
    pub fn duplicate(&self) -> (r: Chunk)
        ensures
            r@ =~= self@,
    {
        Chunk { start: self.start, entries: crate::entry::duplicate_entries(&self.entries) }
    }
}

/// A sealed chunk: what one on-disk record carries.
#[derive(Debug)]
pub struct SealedChunk {
    /// The record format version.
    pub version: u8,
    /// The start time of the sealed chunk, kept outside the ciphertext.
    pub start: i64,
    /// The nonce the chunk was sealed under.
    pub nonce: Vec<u8>,
    /// The ciphertext of the encoded entries, tag appended.
    pub data: Vec<u8>,
}

/// The mathematical value of a [`SealedChunk`].
#[verifier::ext_equal]
pub ghost struct SealedChunkV {
    pub version: u8,
    pub start: int,
    pub nonce: Seq<u8>,
    pub data: Seq<u8>,
}

impl View for SealedChunk {
    type V = SealedChunkV;

    open spec fn view(&self) -> SealedChunkV {
        SealedChunkV {
            version: self.version,
            start: self.start as int,
            nonce: self.nonce@,
            data: self.data@,
        }
    }
}

/// The views of a sequence of sealed chunks.
pub open spec fn sealed_views(s: Seq<SealedChunk>) -> Seq<SealedChunkV> {
    s.map_values(|c: SealedChunk| c@)
}

/// Seals a chunk's entries under the key. On success the sealed chunk
/// opens back, under the same key and the returned nonce, to exactly the
/// encoding of the entries.
pub fn encrypt_chunk(c: &Chunk, key: &Vec<u8>) -> (r: Result<SealedChunk, Error>)
    requires
        key@.len() == 32,
    ensures
        r matches Ok(sc) ==> sc.version == CURRENT_CHUNK_VERSION && sc@.start == c@.start
            && entries_ok(c@.entries) && sc.nonce@.len() == 12 && aead_open_of(
            key@,
            sc.nonce@,
            sc.data@,
        ) == Some(enc_entries_v1(c@.entries)),
        r matches Err(e) ==> (e.kind == ErrorKind::Generic && !entries_ok(c@.entries)) || e.kind
            == ErrorKind::CryptoFailure,
{
    let plain = match encode_entries_v1(&c.entries) {
        Ok(p) => p,
        Err(e) => {
            return Err(e);
        },
    };
    match aead_seal(key.as_slice(), &plain) {
        Ok((nonce, data)) => Ok(
            SealedChunk { version: CURRENT_CHUNK_VERSION, start: c.start, nonce, data },
        ),
        Err(_) => Err(Error::of(ErrorKind::CryptoFailure)),
    }
}

/// Seals a chunk's entries in the legacy record form; the path fields are
/// not carried. Kept so that reading of legacy records can be exercised.
pub fn encrypt_chunk_v0(c: &Chunk, key: &Vec<u8>) -> (r: Result<SealedChunk, Error>)
    requires
        key@.len() == 32,
    ensures
        r matches Ok(sc) ==> sc.version == 0 && sc@.start == c@.start && entries_ok(c@.entries)
            && sc.nonce@.len() == 12 && aead_open_of(key@, sc.nonce@, sc.data@) == Some(
            enc_entries_v0(c@.entries),
        ),
        r matches Err(e) ==> (e.kind == ErrorKind::Generic && !entries_ok(c@.entries)) || e.kind
            == ErrorKind::CryptoFailure,
{
    let plain = match encode_entries_v0(&c.entries) {
        Ok(p) => p,
        Err(e) => {
            return Err(e);
        },
    };
    match aead_seal(key.as_slice(), &plain) {
        Ok((nonce, data)) => Ok(SealedChunk { version: 0, start: c.start, nonce, data }),
        Err(_) => Err(Error::of(ErrorKind::CryptoFailure)),
    }
}

/// What decrypting a sealed chunk yields: the decoded entries of the
/// version's form, or nothing when opening or decoding fails.
pub open spec fn dec_sealed(sc: SealedChunkV, key: Seq<u8>) -> Option<Seq<EntryV>> {
    if sc.version == 0 || sc.version == CURRENT_CHUNK_VERSION {
        match aead_open_of(key, sc.nonce, sc.data) {
            Some(pt) => if sc.version == CURRENT_CHUNK_VERSION {
                dec_entries_v1(pt)
            } else {
                dec_entries_v0(pt)
            },
            None => None,
        }
    } else {
        None
    }
}

/// Opens a sealed chunk and decodes its entries. The error kind says what
/// failed: an unknown version, the authentication, or the payload decode.
pub fn decrypt_chunk(sc: &SealedChunk, key: &Vec<u8>) -> (r: Result<Chunk, Error>)
    requires
        key@.len() == 32,
    ensures
        r matches Ok(c) ==> dec_sealed(sc@, key@) == Some(c@.entries) && c@.start == sc@.start,
        r matches Err(e) ==> dec_sealed(sc@, key@) is None && ((e.kind == ErrorKind::Generic <==> !(
        sc.version == 0 || sc.version == CURRENT_CHUNK_VERSION)) && (e.kind
            == ErrorKind::CryptoFailure <==> (sc.version == 0 || sc.version
            == CURRENT_CHUNK_VERSION) && aead_open_of(key@, sc.nonce@, sc.data@) is None)),
{
    if sc.version != 0 && sc.version != CURRENT_CHUNK_VERSION {
        return Err(Error::of(ErrorKind::Generic));
    }
    let pt = match aead_open(key.as_slice(), &sc.nonce, &sc.data) {
        Ok(p) => p,
        Err(_) => {
            return Err(Error::of(ErrorKind::CryptoFailure));
        },
    };
    let entries = if sc.version == CURRENT_CHUNK_VERSION {
        match decode_entries_v1(pt.as_slice()) {
            Ok(es) => es,
            Err(e) => {
                return Err(e);
            },
        }
    } else {
        match decode_entries_v0(pt.as_slice()) {
            Ok(es) => es,
            Err(e) => {
                return Err(e);
            },
        }
    };
    Ok(Chunk { start: sc.start, entries })
}

/// The payload of a record: start time, nonce, ciphertext.
pub open spec fn enc_payload(start: int, nonce: Seq<u8>, data: Seq<u8>) -> Seq<u8> {
    mp_arr(3) + mp_i64(start as i64) + mp_bin(nonce) + mp_bin(data)
}

/// Reading a payload; the bytes must hold exactly one.
pub open spec fn dec_payload(bytes: Seq<u8>) -> Option<(int, Seq<u8>, Seq<u8>)> {
    match dec_arr(bytes, 0) {
        Some((n, p1)) => if n == 3 {
            match dec_i64(bytes, p1) {
                Some((start, p2)) => match dec_bin(bytes, p2) {
                    Some((nonce, p3)) => match dec_bin(bytes, p3) {
                        Some((data, p4)) => if p4 == bytes.len() {
                            Some((start as int, nonce, data))
                        } else {
                            None
                        },
                        None => None,
                    },
                    None => None,
                },
                None => None,
            }
        } else {
            None
        },
        None => None,
    }
}

/// A sealed chunk's nonce and ciphertext fit their length headers.
pub open spec fn payload_ok(sc: SealedChunkV) -> bool {
    &&& sc.nonce.len() <= MAX_LEN32
    &&& sc.data.len() <= MAX_LEN32
    &&& i64::MIN <= sc.start <= i64::MAX
}

/// Reading back an emitted payload.
pub proof fn lemma_payload_roundtrip(start: i64, nonce: Seq<u8>, data: Seq<u8>)
    requires
        nonce.len() <= MAX_LEN32,
        data.len() <= MAX_LEN32,
    ensures
        dec_payload(enc_payload(start as int, nonce, data)) == Some((start as int, nonce, data)),
{
    let bytes = enc_payload(start as int, nonce, data);
    let l0: int = 5;
    let l1: int = l0 + 9;
    let l2: int = l1 + 5 + nonce.len();
    let l3: int = l2 + 5 + data.len();
    assert(bytes.len() == l3);
    assert(bytes.subrange(0, l0) =~= mp_arr(3));
    assert(bytes.subrange(l0, l1) =~= mp_i64(start));
    assert(bytes.subrange(l1, l2) =~= mp_bin(nonce));
    assert(bytes.subrange(l2, l3) =~= mp_bin(data));
    lemma_dec_arr(bytes, 0, 3);
    lemma_dec_i64(bytes, l0, start);
    lemma_dec_bin(bytes, l1, nonce);
    lemma_dec_bin(bytes, l2, data);
    assert((start as int) as i64 == start);
}

/// Emits the payload of a sealed chunk.
pub fn encode_payload(sc: &SealedChunk) -> (r: Result<Vec<u8>, Error>)
    ensures
        r matches Ok(v) ==> payload_ok(sc@) && v@ =~= enc_payload(sc@.start, sc.nonce@, sc.data@),
        r matches Err(e) ==> !payload_ok(sc@) && e.kind == ErrorKind::Generic,
{
    if sc.nonce.len() > MAX_LEN32 || sc.data.len() > MAX_LEN32 {
        return Err(Error::of(ErrorKind::Generic));
    }
    let mut out: Vec<u8> = Vec::new();
    put_arr(&mut out, 3);
    put_i64(&mut out, sc.start);
    put_bin(&mut out, sc.nonce.as_slice());
    put_bin(&mut out, sc.data.as_slice());
    Ok(out)
}

/// Reads the payload of a record.
pub fn decode_payload(bytes: &[u8]) -> (r: Option<(i64, Vec<u8>, Vec<u8>)>)
    ensures
        r matches Some(p) ==> dec_payload(bytes@) == Some((p.0 as int, p.1@, p.2@)),
        r is None ==> dec_payload(bytes@) is None,
{
    let (n, p1) = match get_arr(bytes, 0) {
        Some(x) => x,
        None => {
            return None;
        },
    };
    if n != 3 {
        return None;
    }
    let (start, p2) = match get_i64(bytes, p1) {
        Some(x) => x,
        None => {
            return None;
        },
    };
    let (nonce, p3) = match get_bin(bytes, p2) {
        Some(x) => x,
        None => {
            return None;
        },
    };
    let (data, p4) = match get_bin(bytes, p3) {
        Some(x) => x,
        None => {
            return None;
        },
    };
    if p4 != bytes.len() {
        return None;
    }
    Some((start, nonce, data))
}

/// A framed record: one version byte, seven length bytes, the payload.
pub open spec fn enc_record(version: u8, payload: Seq<u8>) -> Seq<u8>
    recommends
        payload.len() < 0x100_0000_0000_0000,
{
    seq![version] + spec_u56_to_be(payload.len() as u64) + payload
}

/// The outcome of reading one record header at `pos`.
pub ghost enum RecordRead {
    /// The clean end of the byte stream.
    End,
    /// A truncated header or a length past the end of the stream.
    Bad,
    /// A record: its version, its payload, and the position after it.
    Rec(u8, Seq<u8>, int),
}

/// Reads one record frame at `pos`.
pub open spec fn dec_record(bytes: Seq<u8>, pos: int) -> RecordRead
    recommends
        0 <= pos <= bytes.len(),
{
    if pos == bytes.len() {
        RecordRead::End
    } else if pos + 8 > bytes.len() {
        RecordRead::Bad
    } else {
        let version = bytes[pos];
        let len = spec_u56_from_be(bytes.subrange(pos + 1, pos + 8)) as int;
        if pos + 8 + len > bytes.len() {
            RecordRead::Bad
        } else {
            RecordRead::Rec(version, bytes.subrange(pos + 8, pos + 8 + len), pos + 8 + len)
        }
    }
}

/// Reads every record from `pos` on. Records whose version is neither the
/// current nor the legacy one are skipped; a record whose payload is not
/// exactly one well-formed payload, or a truncated frame, fails the read.
pub open spec fn dec_records(bytes: Seq<u8>, pos: int) -> Option<Seq<SealedChunkV>>
    recommends
        0 <= pos <= bytes.len(),
    decreases bytes.len() - pos,
{
    match dec_record(bytes, pos) {
        RecordRead::End => Some(Seq::empty()),
        RecordRead::Bad => None,
        RecordRead::Rec(version, payload, next) => if 0 <= pos < next <= bytes.len() {
            if version == 0 || version == CURRENT_CHUNK_VERSION {
                match dec_payload(payload) {
                    Some((start, nonce, data)) => match dec_records(bytes, next) {
                        Some(rest) => Some(
                            seq![SealedChunkV { version, start, nonce, data }] + rest,
                        ),
                        None => None,
                    },
                    None => None,
                }
            } else {
                dec_records(bytes, next)
            }
        } else {
            None
        },
    }
}

/// Emits one whole record for a sealed chunk.
pub fn encode_record(sc: &SealedChunk) -> (r: Result<Vec<u8>, Error>)
    ensures
        r matches Ok(v) ==> payload_ok(sc@) && v@ =~= enc_record(
            sc.version,
            enc_payload(sc@.start, sc.nonce@, sc.data@),
        ),
        r matches Err(e) ==> !payload_ok(sc@) && e.kind == ErrorKind::Generic,
{
    let payload = match encode_payload(sc) {
        Ok(p) => p,
        Err(e) => {
            return Err(e);
        },
    };
    let mut out: Vec<u8> = Vec::new();
    out.push(sc.version);
    proof {
        assert(payload@.len() < 0x100_0000_0000_0000);
    }
    let mut hdr = u56_to_be(payload.len() as u64);
    out.append(&mut hdr);
    let mut body = payload;
    out.append(&mut body);
    Ok(out)
}

/// Reads every record of a day file or the active-chunk snapshot.
/// A truncated frame fails the whole read with a framing error.
pub fn read_records(bytes: &[u8]) -> (r: Result<Vec<SealedChunk>, Error>)
    ensures
        r matches Ok(v) ==> dec_records(bytes@, 0) == Some(sealed_views(v@)),
        r matches Err(e) ==> dec_records(bytes@, 0) is None && e.kind == ErrorKind::FramingDecode,
{
    let n = bytes.len();
    let mut acc: Vec<SealedChunk> = Vec::new();
    let mut cur: usize = 0;
    loop
        invariant
            cur <= n,
            n == bytes@.len(),
            dec_records(bytes@, 0) == spec_records_prepend(
                sealed_views(acc@),
                dec_records(bytes@, cur as int),
            ),
        decreases n - cur,
    {
        if cur == n {
            proof {
                assert(dec_records(bytes@, cur as int) == Some(Seq::<SealedChunkV>::empty()));
                assert(sealed_views(acc@) + Seq::<SealedChunkV>::empty() =~= sealed_views(acc@));
            }
            return Ok(acc);
        }
        if n - cur < 8 {
            proof {
                assert(dec_record(bytes@, cur as int) == RecordRead::Bad);
            }
            return Err(Error::of(ErrorKind::FramingDecode));
        }
        let version = bytes[cur];
        let len64 = u56_from_be(bytes, cur + 1);
        if ((n - (cur + 8)) as u64) < len64 {
            proof {
                assert(dec_record(bytes@, cur as int) == RecordRead::Bad);
            }
            return Err(Error::of(ErrorKind::FramingDecode));
        }
        let len = len64 as usize;
        let payload = copy_range(bytes, cur + 8, cur + 8 + len);
        let next = cur + 8 + len;
        proof {
            assert(dec_record(bytes@, cur as int) == RecordRead::Rec(
                version,
                payload@,
                next as int,
            ));
        }
        if version == 0 || version == CURRENT_CHUNK_VERSION {
            match decode_payload(payload.as_slice()) {
                Some((start, nonce, data)) => {
                    let sc = SealedChunk { version, start, nonce, data };
                    proof {
                        let tail = dec_records(bytes@, next as int);
                        assert(sealed_views(acc@.push(sc)) =~= sealed_views(acc@).push(sc@));
                        if tail is Some {
                            assert(sealed_views(acc@) + (seq![sc@] + tail.unwrap()) =~= sealed_views(
                                acc@,
                            ).push(sc@) + tail.unwrap());
                        }
                    }
                    acc.push(sc);
                },
                None => {
                    return Err(Error::of(ErrorKind::FramingDecode));
                },
            }
        }
        cur = next;
    }
}

/// Prefixing a decoded tail with already-read sealed chunks.
pub open spec fn spec_records_prepend(pre: Seq<SealedChunkV>, o: Option<Seq<SealedChunkV>>) -> Option<
    Seq<SealedChunkV>,
> {
    match o {
        Some(s) => Some(pre + s),
        None => None,
    }
}

} // verus!
