//! The on-disk store, as pure functions on file contents.
//!
//! A host's history lives in day files — append-only runs of framed,
//! sealed records — plus one active-chunk snapshot file that is rewritten
//! whole. This module turns file bytes into chunks and chunks into bytes
//! to append or write; the surrounding process does the actual reads,
//! writes, and directory walks.

use vstd::prelude::*;

use crate::chunkcodec::{dec_record, dec_records, dec_sealed, enc_payload, enc_record,
    encode_record, encrypt_chunk, decrypt_chunk, lemma_payload_roundtrip, read_records, Chunk,
    ChunkV, RecordRead, SealedChunk, SealedChunkV, CURRENT_CHUNK_VERSION};
use crate::errors::{Error, ErrorKind};
use crate::intbytes::{lemma_u56_be_roundtrip, spec_u56_to_be};
use crate::msgpack::MAX_LEN32;
use crate::timeunits::{day_of, spec_day_of};

verus! {

/// One day file of a host's directory: its day number and its bytes. The
/// day number is read from the file's name; a name that is not a date is
/// given the greatest day, so that it is never skipped.
#[derive(Debug)]
pub struct DayFile {
    pub day: i64,
    pub bytes: Vec<u8>,
}

/// The mathematical value of a [`DayFile`].
#[verifier::ext_equal]
pub ghost struct DayFileV {
    pub day: int,
    pub bytes: Seq<u8>,
}

impl View for DayFile {
    type V = DayFileV;

    open spec fn view(&self) -> DayFileV {
        DayFileV { day: self.day as int, bytes: self.bytes@ }
    }
}

/// The views of a run of day files.
pub open spec fn dayfile_views(s: Seq<DayFile>) -> Seq<DayFileV> {
    s.map_values(|f: DayFile| f@)
}

/// Bytes to append to one day file.
#[derive(Debug)]
pub struct DayAppend {
    pub day: i64,
    pub bytes: Vec<u8>,
}

/// The mathematical value of a [`DayAppend`].
#[verifier::ext_equal]
pub ghost struct DayAppendV {
    pub day: int,
    pub bytes: Seq<u8>,
}

impl View for DayAppend {
    type V = DayAppendV;

    open spec fn view(&self) -> DayAppendV {
        DayAppendV { day: self.day as int, bytes: self.bytes@ }
    }
}

/// An append carries one record that reads back, under `key`, as exactly
/// the chunk `c`, and goes to the day file of `c`'s start.
pub open spec fn app_matches(app: DayAppendV, c: ChunkV, key: Seq<u8>) -> bool {
    &&& app.day == spec_day_of(c.start)
    &&& match dec_records(app.bytes, 0) {
        Some(rs) => rs.len() == 1 && rs[0].version == CURRENT_CHUNK_VERSION && rs[0].start
            == c.start && dec_sealed(rs[0], key) == Some(c.entries),
        None => false,
    }
}

/// One host's directory: the host's name and its day files, in directory
/// order.
#[derive(Debug)]
pub struct HostDir {
    pub host: String,
    pub files: Vec<DayFile>,
}

/// The views of a run of chunks.
pub open spec fn chunk_views(s: Seq<Chunk>) -> Seq<ChunkV> {
    s.map_values(|c: Chunk| c@)
}

/// Opening every sealed chunk of a run under one key; any failure fails
/// the run.
pub open spec fn decrypt_all(scs: Seq<SealedChunkV>, key: Seq<u8>) -> Option<Seq<ChunkV>>
    decreases scs.len(),
{
    if scs.len() == 0 {
        Some(Seq::empty())
    } else {
        match dec_sealed(scs[0], key) {
            Some(es) => match decrypt_all(scs.drop_first(), key) {
                Some(cs) => Some(seq![ChunkV { start: scs[0].start, entries: es }] + cs),
                None => None,
            },
            None => None,
        }
    }
}

/// Prefixing an optional decrypted tail.
pub open spec fn chunks_prepend(pre: Seq<ChunkV>, o: Option<Seq<ChunkV>>) -> Option<Seq<ChunkV>> {
    match o {
        Some(s) => Some(pre + s),
        None => None,
    }
}

/// Opened runs keep their sealed start times, in order.
pub proof fn lemma_decrypt_all_starts(scs: Seq<SealedChunkV>, key: Seq<u8>)
    requires
        decrypt_all(scs, key) is Some,
    ensures
        decrypt_all(scs, key).unwrap().len() == scs.len(),
        forall|i: int|
            0 <= i < scs.len() ==> (#[trigger] decrypt_all(scs, key).unwrap()[i]).start == scs[i].start,
    decreases scs.len(),
{
    if scs.len() == 0 {
    } else {
        lemma_decrypt_all_starts(scs.drop_first(), key);
        let cs = decrypt_all(scs, key).unwrap();
        let rest = decrypt_all(scs.drop_first(), key).unwrap();
        assert forall|i: int| 0 <= i < scs.len() implies (#[trigger] cs[i]).start
            == scs[i].start by {
            if i > 0 {
                assert(cs[i] == rest[i - 1]);
                assert(scs.drop_first()[i - 1] == scs[i]);
            }
        }
    }
}

/// Opening a run splits over concatenation.
pub proof fn lemma_decrypt_all_concat(a: Seq<SealedChunkV>, b: Seq<SealedChunkV>, key: Seq<u8>)
    ensures
        decrypt_all(a + b, key) == (match decrypt_all(a, key) {
            Some(ca) => match decrypt_all(b, key) {
                Some(cb) => Some(ca + cb),
                None => None,
            },
            None => None,
        }),
    decreases a.len(),
{
    if a.len() == 0 {
        assert(a + b =~= b);
        if decrypt_all(b, key) is Some {
            assert(Seq::<ChunkV>::empty() + decrypt_all(b, key).unwrap() =~= decrypt_all(
                b,
                key,
            ).unwrap());
        }
    } else {
        assert((a + b)[0] == a[0]);
        assert((a + b).drop_first() =~= a.drop_first() + b);
        lemma_decrypt_all_concat(a.drop_first(), b, key);
        if dec_sealed(a[0], key) is Some && decrypt_all(a.drop_first(), key) is Some
            && decrypt_all(b, key) is Some {
            let h = seq![ChunkV { start: a[0].start, entries: dec_sealed(a[0], key).unwrap() }];
            assert(h + (decrypt_all(a.drop_first(), key).unwrap() + decrypt_all(b, key).unwrap())
                =~= (h + decrypt_all(a.drop_first(), key).unwrap()) + decrypt_all(b, key).unwrap());
        }
    }
}

/// Opening one sealed chunk as a one-element run.
pub proof fn lemma_decrypt_all_single(sc: SealedChunkV, key: Seq<u8>)
    ensures
        decrypt_all(seq![sc], key) == (match dec_sealed(sc, key) {
            Some(es) => Some(seq![ChunkV { start: sc.start, entries: es }]),
            None => None,
        }),
{
    assert(seq![sc].drop_first() =~= Seq::<SealedChunkV>::empty());
    assert(decrypt_all(Seq::<SealedChunkV>::empty(), key) == Some(Seq::<ChunkV>::empty()));
    if dec_sealed(sc, key) is Some {
        let h = seq![ChunkV { start: sc.start, entries: dec_sealed(sc, key).unwrap() }];
        assert(h + Seq::<ChunkV>::empty() =~= h);
    }
}

/// Opens every sealed chunk of a run.
pub fn decrypt_chunks(scs: &Vec<SealedChunk>, key: &Vec<u8>) -> (r: Result<Vec<Chunk>, Error>)
    requires
        key@.len() == 32,
    ensures
        r matches Ok(cs) ==> decrypt_all(crate::chunkcodec::sealed_views(scs@), key@) == Some(
            chunk_views(cs@),
        ),
        r is Err ==> decrypt_all(crate::chunkcodec::sealed_views(scs@), key@) is None,
{
    let ghost svs = crate::chunkcodec::sealed_views(scs@);
    let mut out: Vec<Chunk> = Vec::new();
    proof {
        assert(svs.take(0) =~= Seq::<SealedChunkV>::empty());
        assert(decrypt_all(Seq::<SealedChunkV>::empty(), key@) == Some(Seq::<ChunkV>::empty()));
        assert(chunk_views(out@) =~= Seq::<ChunkV>::empty());
    }
    let mut i: usize = 0;
    while i < scs.len()
        invariant
            i <= scs@.len(),
            svs == crate::chunkcodec::sealed_views(scs@),
            key@.len() == 32,
            decrypt_all(svs.take(i as int), key@) == Some(chunk_views(out@)),
        decreases scs@.len() - i,
    {
        let ghost scv = scs@[i as int]@;
        proof {
            assert(svs[i as int] == scv);
            assert(svs.take(i as int).push(scv) =~= svs.take(i + 1));
            lemma_decrypt_all_concat(svs.take(i as int), seq![scv], key@);
            lemma_decrypt_all_single(scv, key@);
            assert(svs.take(i as int) + seq![scv] =~= svs.take(i + 1));
        }
        match decrypt_chunk(&scs[i], key) {
            Ok(c) => {
                proof {
                    assert(chunk_views(out@.push(c)) =~= chunk_views(out@).push(c@));
                    assert(c@ =~= ChunkV { start: scv.start, entries: dec_sealed(scv, key@).unwrap() });
                    assert(chunk_views(out@) + seq![c@] =~= chunk_views(out@).push(c@));
                }
                out.push(c);
            },
            Err(e) => {
                proof {
                    assert(decrypt_all(svs.take(i + 1), key@) is None);
                    assert(svs.take(i + 1) + svs.skip(i + 1) =~= svs);
                    lemma_decrypt_all_concat(svs.take(i + 1), svs.skip(i + 1), key@);
                }
                return Err(e);
            },
        }
        i = i + 1;
    }
    proof {
        assert(svs.take(scs@.len() as int) =~= svs);
    }
    Ok(out)
}

/// What reading the active-chunk snapshot yields.
pub open spec fn read_state_spec(bytes: Seq<u8>, key: Seq<u8>) -> Option<Seq<ChunkV>> {
    match dec_records(bytes, 0) {
        Some(rs) => decrypt_all(rs, key),
        None => None,
    }
}

/// Reads the chunks of the active-chunk snapshot. A missing snapshot is
/// an empty byte string, which holds no records.
pub fn read_state(bytes: &[u8], key: &Vec<u8>) -> (r: Result<Vec<Chunk>, Error>)
    requires
        key@.len() == 32,
    ensures
        r matches Ok(cs) ==> read_state_spec(bytes@, key@) == Some(chunk_views(cs@)),
        r matches Err(e) ==> read_state_spec(bytes@, key@) is None && (dec_records(bytes@, 0)
            is None ==> e.kind == ErrorKind::FramingDecode),
{
    let records = match read_records(bytes) {
        Ok(rs) => rs,
        Err(e) => {
            return Err(e);
        },
    };
    decrypt_chunks(&records, key)
}

/// The sealed records of a file that lie past the watermark.
pub open spec fn past_watermark(since: int) -> spec_fn(SealedChunkV) -> bool {
    |sc: SealedChunkV| sc.start > since
}

/// What reading one host's day files since a watermark yields: for every
/// file whose day is at or past the watermark's day, the records past the
/// watermark, opened, in file order.
pub open spec fn read_chunks_spec(files: Seq<DayFileV>, since: int, key: Seq<u8>) -> Option<
    Seq<ChunkV>,
>
    decreases files.len(),
{
    if files.len() == 0 {
        Some(Seq::empty())
    } else if files[0].day < spec_day_of(since) {
        read_chunks_spec(files.drop_first(), since, key)
    } else {
        match dec_records(files[0].bytes, 0) {
            Some(rs) => match decrypt_all(rs.filter(past_watermark(since)), key) {
                Some(cs) => chunks_prepend(cs, read_chunks_spec(files.drop_first(), since, key)),
                None => None,
            },
            None => None,
        }
    }
}

/// Whatever such a read yields starts past the watermark.
pub proof fn lemma_read_chunks_starts(files: Seq<DayFileV>, since: int, key: Seq<u8>)
    requires
        read_chunks_spec(files, since, key) is Some,
    ensures
        forall|i: int|
            0 <= i < read_chunks_spec(files, since, key).unwrap().len() ==> (
            #[trigger] read_chunks_spec(files, since, key).unwrap()[i]).start > since,
    decreases files.len(),
{
    broadcast use vstd::seq_lib::group_filter_ensures;

    if files.len() == 0 {
    } else if files[0].day < spec_day_of(since) {
        lemma_read_chunks_starts(files.drop_first(), since, key);
    } else {
        lemma_read_chunks_starts(files.drop_first(), since, key);
        let rs = dec_records(files[0].bytes, 0).unwrap();
        let kept = rs.filter(past_watermark(since));
        let cs = decrypt_all(kept, key).unwrap();
        lemma_decrypt_all_starts(kept, key);
        let rest = read_chunks_spec(files.drop_first(), since, key).unwrap();
        assert forall|i: int|
            0 <= i < read_chunks_spec(files, since, key).unwrap().len() implies (
        #[trigger] read_chunks_spec(files, since, key).unwrap()[i]).start > since by {
            let whole = read_chunks_spec(files, since, key).unwrap();
            assert(whole == cs + rest);
            if i < cs.len() {
                assert(whole[i] == cs[i]);
                assert(past_watermark(since)(kept[i]));
            } else {
                assert(whole[i] == rest[i - cs.len()]);
            }
        }
    }
}

/// Keeps only the sealed records past the watermark.
fn filter_past(records: Vec<SealedChunk>, since: i64) -> (r: Vec<SealedChunk>)
    ensures
        crate::chunkcodec::sealed_views(r@) =~= crate::chunkcodec::sealed_views(records@).filter(
            past_watermark(since as int),
        ),
{
    broadcast use vstd::seq_lib::group_filter_ensures;

    let ghost rvs = crate::chunkcodec::sealed_views(records@);
    let mut kept: Vec<SealedChunk> = Vec::new();
    proof {
        assert(rvs.skip(0) =~= rvs);
        assert(rvs.take(0) =~= Seq::<SealedChunkV>::empty());
        assert(Seq::<SealedChunkV>::empty().filter(past_watermark(since as int)).len() <= 0);
        assert(crate::chunkcodec::sealed_views(kept@) =~= Seq::<SealedChunkV>::empty());
    }
    let mut k: usize = 0;
    let n = records.len();
    let mut rest = records;
    while k < n
        invariant
            k <= n,
            n == k + rest@.len(),
            rvs.len() == n,
            rvs.skip(k as int) =~= crate::chunkcodec::sealed_views(rest@),
            crate::chunkcodec::sealed_views(kept@) =~= rvs.take(k as int).filter(
                past_watermark(since as int),
            ),
        decreases n - k,
    {
        let sc = rest.remove(0);
        proof {
            assert(crate::chunkcodec::sealed_views(rest@) =~= rvs.skip(k as int).drop_first());
            assert(rvs.skip(k as int).drop_first() =~= rvs.skip(k + 1));
            assert(rvs.skip(k as int)[0] == sc@);
            assert(rvs[k as int] == sc@);
            rvs.take(k as int).lemma_filter_push(rvs[k as int], past_watermark(since as int));
            assert(rvs.take(k as int).push(rvs[k as int]) =~= rvs.take(k + 1));
        }
        if sc.start > since {
            proof {
                assert(past_watermark(since as int)(sc@));
                assert(crate::chunkcodec::sealed_views(kept@.push(sc))
                    =~= crate::chunkcodec::sealed_views(kept@).push(sc@));
            }
            kept.push(sc);
        } else {
            proof {
                assert(!past_watermark(since as int)(sc@));
            }
        }
        k = k + 1;
    }
    proof {
        assert(rvs.take(n as int) =~= rvs);
    }
    kept
}

/// Reads one host's day files since a watermark: files of earlier days
/// are skipped whole, and only records past the watermark are opened.
pub fn read_chunks(files: &Vec<DayFile>, since: i64, key: &Vec<u8>) -> (r: Result<
    Vec<Chunk>,
    Error,
>)
    requires
        key@.len() == 32,
    ensures
        r matches Ok(cs) ==> read_chunks_spec(dayfile_views(files@), since as int, key@) == Some(
            chunk_views(cs@),
        ),
        r is Err ==> read_chunks_spec(dayfile_views(files@), since as int, key@) is None,
{
    let ghost fvs = dayfile_views(files@);
    let since_day = day_of(since);
    let mut out: Vec<Chunk> = Vec::new();
    proof {
        assert(fvs.skip(0) =~= fvs);
        assert(chunk_views(out@) =~= Seq::<ChunkV>::empty());
        let t = read_chunks_spec(fvs, since as int, key@);
        if t is Some {
            assert(Seq::<ChunkV>::empty() + t.unwrap() =~= t.unwrap());
        }
    }
    let mut i: usize = 0;
    while i < files.len()
        invariant
            i <= files@.len(),
            fvs == dayfile_views(files@),
            since_day as int == spec_day_of(since as int),
            key@.len() == 32,
            read_chunks_spec(fvs, since as int, key@) == chunks_prepend(
                chunk_views(out@),
                read_chunks_spec(fvs.skip(i as int), since as int, key@),
            ),
        decreases files@.len() - i,
    {
        proof {
            assert(fvs.skip(i as int)[0] == files@[i as int]@);
            assert(fvs.skip(i as int).drop_first() =~= fvs.skip(i + 1));
        }
        let f = &files[i];
        if f.day >= since_day {
            let records = match read_records(f.bytes.as_slice()) {
                Ok(rs) => rs,
                Err(e) => {
                    return Err(e);
                },
            };
            let kept = filter_past(records, since);
            let mut cs = match decrypt_chunks(&kept, key) {
                Ok(cs) => cs,
                Err(e) => {
                    proof {
                        assert(read_chunks_spec(fvs.skip(i as int), since as int, key@) is None);
                    }
                    return Err(e);
                },
            };
            let ghost csv = chunk_views(cs@);
            let ghost pre = chunk_views(out@);
            out.append(&mut cs);
            proof {
                assert(chunk_views(out@) =~= pre + csv);
                let tail = read_chunks_spec(fvs.skip(i + 1), since as int, key@);
                assert(read_chunks_spec(fvs.skip(i as int), since as int, key@) == chunks_prepend(
                    csv,
                    tail,
                ));
                if tail is Some {
                    assert(pre + (csv + tail.unwrap()) =~= (pre + csv) + tail.unwrap());
                }
            }
        } else {
            proof {
                assert(read_chunks_spec(fvs.skip(i as int), since as int, key@)
                    == read_chunks_spec(fvs.skip(i + 1), since as int, key@));
            }
        }
        i = i + 1;
    }
    proof {
        assert(fvs.skip(files@.len() as int) =~= Seq::<DayFileV>::empty());
        assert(chunk_views(out@) + Seq::<ChunkV>::empty() =~= chunk_views(out@));
    }
    Ok(out)
}

/// The chunks a save writes: those past the write watermark that hold at
/// least one entry.
pub open spec fn to_write(lw: int) -> spec_fn(ChunkV) -> bool {
    |c: ChunkV| c.start > lw && c.entries.len() > 0
}

/// The chunks a save writes, in order.
pub open spec fn kept_chunks(cs: Seq<ChunkV>, lw: int) -> Seq<ChunkV> {
    cs.filter(to_write(lw))
}

/// A record holding exactly one sealed chunk reads back as that chunk.
pub proof fn lemma_dec_records_single(version: u8, start: int, nonce: Seq<u8>, data: Seq<u8>)
    requires
        version == 0 || version == CURRENT_CHUNK_VERSION,
        nonce.len() <= MAX_LEN32,
        data.len() <= MAX_LEN32,
        i64::MIN <= start <= i64::MAX,
    ensures
        dec_records(enc_record(version, enc_payload(start, nonce, data)), 0) == Some(
            seq![SealedChunkV { version, start, nonce, data }],
        ),
{
    let payload = enc_payload(start, nonce, data);
    let bytes = enc_record(version, payload);
    assert(payload.len() == 24 + nonce.len() + data.len());
    assert(payload.len() < 0x100_0000_0000_0000);
    lemma_u56_be_roundtrip(payload.len() as u64);
    assert(bytes.len() == 8 + payload.len());
    assert(bytes[0] == version);
    assert(bytes.subrange(1, 8) =~= spec_u56_to_be(payload.len() as u64));
    assert(bytes.subrange(8, bytes.len() as int) =~= payload);
    assert(dec_records(bytes, 0) == (match dec_records(bytes, bytes.len() as int) {
        Some(rest) => Some(seq![SealedChunkV { version, start, nonce, data }] + rest),
        None => None,
    })) by {
        assert(dec_record(bytes, 0) == RecordRead::Rec(version, payload, bytes.len() as int));
        lemma_payload_roundtrip(start as i64, nonce, data);
        assert((start as i64) as int == start);
    }
    assert(dec_records(bytes, bytes.len() as int) == Some(Seq::<SealedChunkV>::empty()));
    assert(seq![SealedChunkV { version, start, nonce, data }] + Seq::<SealedChunkV>::empty()
        =~= seq![SealedChunkV { version, start, nonce, data }]);
}

/// Seals and frames the chunks past the watermark, one append per record,
/// each going to the day file of its chunk's start. What is appended reads
/// back, under the same key, as exactly the chunk it was made from.
#[verifier::spinoff_prover]
#[verifier::rlimit(100)]
pub fn write_chunks(chunks: &Vec<Chunk>, last_write: i64, key: &Vec<u8>) -> (r: Result<
    Vec<DayAppend>,
    Error,
>)
    requires
        key@.len() == 32,
    ensures
        r matches Ok(apps) ==> {
            let kept = kept_chunks(chunk_views(chunks@), last_write as int);
            &&& apps@.len() == kept.len()
            &&& forall|i: int|
                0 <= i < kept.len() ==> app_matches((#[trigger] apps@[i])@, kept[i], key@)
        },
        r matches Err(e) ==> e.kind == ErrorKind::Generic || e.kind == ErrorKind::CryptoFailure,
        kept_chunks(chunk_views(chunks@), last_write as int).len() == 0 ==> r is Ok,
{
    broadcast use vstd::seq_lib::group_filter_ensures;

    let ghost cvs = chunk_views(chunks@);
    let mut apps: Vec<DayAppend> = Vec::new();
    let mut i: usize = 0;
    while i < chunks.len()
        invariant
            i <= chunks@.len(),
            cvs == chunk_views(chunks@),
            key@.len() == 32,
            apps@.len() == kept_chunks(cvs.take(i as int), last_write as int).len(),
            forall|k: int|
                0 <= k < apps@.len() ==> app_matches(
                    (#[trigger] apps@[k])@,
                    kept_chunks(cvs.take(i as int), last_write as int)[k],
                    key@,
                ),
        decreases chunks@.len() - i,
    {
        let c = &chunks[i];
        proof {
            assert(cvs.take(i + 1).drop_last() =~= cvs.take(i as int));
            assert(cvs.take(i + 1).last() == cvs[i as int]);
            cvs.take(i as int).lemma_filter_push(cvs[i as int], to_write(last_write as int));
            assert(cvs.take(i as int).push(cvs[i as int]) =~= cvs.take(i + 1));
        }
        if c.start > last_write && c.entries.len() > 0 {
            proof {
                assert(to_write(last_write as int)(cvs[i as int]));
            }
            let app = match seal_one(c, key) {
                Ok(a) => a,
                Err(e) => {
                    proof {
                        let kept_here = kept_chunks(cvs.take(i + 1), last_write as int);
                        assert(kept_here.len() > 0);
                        assert(cvs =~= cvs.take(i + 1) + cvs.skip(i + 1));
                        Seq::filter_distributes_over_add(
                            cvs.take(i + 1),
                            cvs.skip(i + 1),
                            to_write(last_write as int),
                        );
                        assert(kept_chunks(cvs, last_write as int).len() > 0);
                    }
                    return Err(e);
                },
            };
            apps.push(app);
        } else {
            proof {
                assert(!to_write(last_write as int)(cvs[i as int]));
            }
        }
        i = i + 1;
    }
    proof {
        assert(cvs.take(chunks@.len() as int) =~= cvs);
    }
    Ok(apps)
}

/// Seals one chunk and frames it as a single record.
#[verifier::spinoff_prover]
#[verifier::rlimit(100)]
fn seal_one(c: &Chunk, key: &Vec<u8>) -> (r: Result<DayAppend, Error>)
    requires
        key@.len() == 32,
    ensures
        r matches Ok(app) ==> app_matches(app@, c@, key@),
        r matches Err(e) ==> e.kind == ErrorKind::Generic || e.kind == ErrorKind::CryptoFailure,
{
    let sc = match encrypt_chunk(c, key) {
        Ok(sc) => sc,
        Err(e) => {
            return Err(e);
        },
    };
    let day = day_of(sc.start);
    let bytes = match encode_record(&sc) {
        Ok(b) => b,
        Err(e) => {
            return Err(e);
        },
    };
    proof {
        lemma_dec_records_single(sc.version, sc@.start, sc.nonce@, sc.data@);
        let rs = dec_records(bytes@, 0).unwrap();
        assert(rs[0] == SealedChunkV {
            version: sc.version,
            start: sc@.start,
            nonce: sc.nonce@,
            data: sc.data@,
        });
        crate::entrycodec::lemma_entries_v1_roundtrip(c@.entries);
        assert(dec_sealed(rs[0], key@) == Some(c@.entries));
    }
    Ok(DayAppend { day, bytes })
}

/// Writes the active-chunk snapshot: empty when no chunk is active, one
/// record otherwise; what is written reads back as that chunk.
#[verifier::spinoff_prover]
#[verifier::rlimit(100)]
pub fn write_state(active: Option<&Chunk>, key: &Vec<u8>) -> (r: Result<Vec<u8>, Error>)
    requires
        key@.len() == 32,
    ensures
        r matches Ok(bytes) ==> (match active {
            None => bytes@.len() == 0 && read_state_spec(bytes@, key@) == Some(
                Seq::<ChunkV>::empty(),
            ),
            Some(c) => read_state_spec(bytes@, key@) matches Some(cs) && cs.len() == 1
                && cs[0].start == c@.start && cs[0].entries == c@.entries,
        }),
        r matches Err(e) ==> e.kind == ErrorKind::Generic || e.kind == ErrorKind::CryptoFailure,
        active is None ==> r is Ok,
{
    match active {
        None => {
            let bytes: Vec<u8> = Vec::new();
            proof {
                assert(dec_records(bytes@, 0) == Some(Seq::<SealedChunkV>::empty()));
                assert(decrypt_all(Seq::<SealedChunkV>::empty(), key@) == Some(
                    Seq::<ChunkV>::empty(),
                ));
            }
            Ok(bytes)
        },
        Some(c) => {
            let sc = match encrypt_chunk(c, key) {
                Ok(sc) => sc,
                Err(e) => {
                    return Err(e);
                },
            };
            let bytes = match encode_record(&sc) {
                Ok(b) => b,
                Err(e) => {
                    return Err(e);
                },
            };
            proof {
                lemma_dec_records_single(sc.version, sc@.start, sc.nonce@, sc.data@);
                let rs = dec_records(bytes@, 0).unwrap();
                assert(rs =~= seq![sc@]);
                lemma_decrypt_all_single(sc@, key@);
                crate::entrycodec::lemma_entries_v1_roundtrip(c@.entries);
                assert(dec_sealed(sc@, key@) == Some(c@.entries));
            }
            Ok(bytes)
        },
    }
}

} // verus!
