//! Serialisation of entry batches: the current form and the legacy one.
//!
//! A batch is an `array 32` of entries. The current form writes each entry
//! as a six-element array: id (16 bytes), timestamp, host, command, path,
//! session. The legacy form lacks the path; reading it lifts each entry to
//! the current form with an empty path.

use vstd::prelude::*;
use vstd::utf8::encode_utf8;

use crate::entry::{views, Entry, EntryV};
use crate::errors::{Error, ErrorKind};
use crate::intbytes::{lemma_u128_be_roundtrip, spec_u128_from_be, spec_u128_to_be, u128_from_be,
    u128_to_be};
use crate::msgpack::{dec_arr, dec_bin, dec_i64, dec_str, get_arr, get_bin, get_i64, get_str,
    lemma_dec_arr, lemma_dec_bin, lemma_dec_i64, lemma_dec_str, lemma_slice_at, mp_arr, mp_bin,
    mp_i64, mp_str, put_arr, put_bin, put_i64, put_str, MAX_LEN32};

verus! {

/// A string fits a 32-bit length header.
pub open spec fn str_ok(s: Seq<char>) -> bool {
    encode_utf8(s).len() <= MAX_LEN32
}

/// An entry's fields all fit their headers.
pub open spec fn entry_ok(e: EntryV) -> bool {
    &&& str_ok(e.host)
    &&& str_ok(e.cmd)
    &&& str_ok(e.path)
    &&& str_ok(e.session)
    &&& i64::MIN <= e.ts <= i64::MAX
}

/// A batch fits its headers.
pub open spec fn entries_ok(es: Seq<EntryV>) -> bool {
    &&& es.len() <= MAX_LEN32
    &&& forall|i: int| 0 <= i < es.len() ==> entry_ok(#[trigger] es[i])
}

/// The encoding of one current-form entry.
pub open spec fn enc_entry_v1(e: EntryV) -> Seq<u8> {
    mp_arr(6) + mp_bin(spec_u128_to_be(e.id)) + mp_i64(e.ts as i64) + mp_str(e.host) + mp_str(
        e.cmd,
    ) + mp_str(e.path) + mp_str(e.session)
}

/// The concatenated encodings of a sequence of entries.
pub open spec fn enc_entry_seq_v1(es: Seq<EntryV>) -> Seq<u8>
    decreases es.len(),
{
    if es.len() == 0 {
        Seq::empty()
    } else {
        enc_entry_v1(es[0]) + enc_entry_seq_v1(es.drop_first())
    }
}

/// The encoding of a whole batch in the current form.
pub open spec fn enc_entries_v1(es: Seq<EntryV>) -> Seq<u8> {
    mp_arr(es.len()) + enc_entry_seq_v1(es)
}

/// Reading one current-form entry at `pos`.
pub open spec fn dec_entry_v1(bytes: Seq<u8>, pos: int) -> Option<(EntryV, int)> {
    match dec_arr(bytes, pos) {
        Some((n, p1)) => if n == 6 {
            match dec_bin(bytes, p1) {
                Some((idb, p2)) => if idb.len() == 16 {
                    match dec_i64(bytes, p2) {
                        Some((ts, p3)) => match dec_str(bytes, p3) {
                            Some((host, p4)) => match dec_str(bytes, p4) {
                                Some((cmd, p5)) => match dec_str(bytes, p5) {
                                    Some((path, p6)) => match dec_str(bytes, p6) {
                                        Some((session, p7)) => Some(
                                            (
                                                EntryV {
                                                    id: spec_u128_from_be(idb),
                                                    ts: ts as int,
                                                    host,
                                                    cmd,
                                                    path,
                                                    session,
                                                },
                                                p7,
                                            ),
                                        ),
                                        None => None,
                                    },
                                    None => None,
                                },
                                None => None,
                            },
                            None => None,
                        },
                        None => None,
                    }
                } else {
                    None
                },
                None => None,
            }
        } else {
            None
        },
        None => None,
    }
}

/// Reading `n` current-form entries from `pos`.
pub open spec fn dec_entry_seq_v1(bytes: Seq<u8>, pos: int, n: int) -> Option<(Seq<EntryV>, int)>
    decreases n,
{
    if n <= 0 {
        Some((Seq::empty(), pos))
    } else {
        match dec_entry_v1(bytes, pos) {
            Some((e, p)) => match dec_entry_seq_v1(bytes, p, n - 1) {
                Some((rest, end)) => Some((seq![e] + rest, end)),
                None => None,
            },
            None => None,
        }
    }
}

/// Reading a whole current-form batch; the bytes must hold exactly one.
pub open spec fn dec_entries_v1(bytes: Seq<u8>) -> Option<Seq<EntryV>> {
    match dec_arr(bytes, 0) {
        Some((n, p)) => match dec_entry_seq_v1(bytes, p, n) {
            Some((es, end)) => if end == bytes.len() {
                Some(es)
            } else {
                None
            },
            None => None,
        },
        None => None,
    }
}

/// Reading back an emitted entry.
#[verifier::spinoff_prover]
#[verifier::rlimit(80)]
pub proof fn lemma_dec_entry_v1(bytes: Seq<u8>, pos: int, e: EntryV)
    requires
        entry_ok(e),
        0 <= pos,
        pos + enc_entry_v1(e).len() <= bytes.len(),
        bytes.subrange(pos, pos + enc_entry_v1(e).len()) == enc_entry_v1(e),
    ensures
        dec_entry_v1(bytes, pos) == Some((e, pos + enc_entry_v1(e).len())),
{
    let seg = enc_entry_v1(e);
    let idb = spec_u128_to_be(e.id);
    assert(idb.len() == 16);
    let l0: int = 5;
    let l1: int = l0 + 21;
    let l2: int = l1 + 9;
    let l3: int = l2 + 5 + encode_utf8(e.host).len();
    let l4: int = l3 + 5 + encode_utf8(e.cmd).len();
    let l5: int = l4 + 5 + encode_utf8(e.path).len();
    let l6: int = l5 + 5 + encode_utf8(e.session).len();
    assert(seg.len() == l6);
    assert(seg.subrange(0, l0) =~= mp_arr(6));
    assert(seg.subrange(l0, l1) =~= mp_bin(idb));
    assert(seg.subrange(l1, l2) =~= mp_i64(e.ts as i64));
    assert(seg.subrange(l2, l3) =~= mp_str(e.host));
    assert(seg.subrange(l3, l4) =~= mp_str(e.cmd));
    assert(seg.subrange(l4, l5) =~= mp_str(e.path));
    assert(seg.subrange(l5, l6) =~= mp_str(e.session));
    lemma_slice_at(bytes, pos, seg, 0, l0);
    lemma_slice_at(bytes, pos, seg, l0, l1);
    lemma_slice_at(bytes, pos, seg, l1, l2);
    lemma_slice_at(bytes, pos, seg, l2, l3);
    lemma_slice_at(bytes, pos, seg, l3, l4);
    lemma_slice_at(bytes, pos, seg, l4, l5);
    lemma_slice_at(bytes, pos, seg, l5, l6);
    lemma_dec_arr(bytes, pos, 6);
    lemma_dec_bin(bytes, pos + l0, idb);
    lemma_dec_i64(bytes, pos + l1, e.ts as i64);
    lemma_dec_str(bytes, pos + l2, e.host);
    lemma_dec_str(bytes, pos + l3, e.cmd);
    lemma_dec_str(bytes, pos + l4, e.path);
    lemma_dec_str(bytes, pos + l5, e.session);
    lemma_u128_be_roundtrip(e.id);
    assert(dec_entry_v1(bytes, pos) == Some((e, pos + l6))) by {
        assert((e.ts as i64) as int == e.ts);
        let d = dec_entry_v1(bytes, pos).unwrap().0;
        assert(d =~= e);
    }
}

/// Reading back an emitted sequence of entries.
pub proof fn lemma_dec_entry_seq_v1(bytes: Seq<u8>, pos: int, es: Seq<EntryV>)
    requires
        forall|i: int| 0 <= i < es.len() ==> entry_ok(#[trigger] es[i]),
        0 <= pos,
        pos + enc_entry_seq_v1(es).len() <= bytes.len(),
        bytes.subrange(pos, pos + enc_entry_seq_v1(es).len()) == enc_entry_seq_v1(es),
    ensures
        dec_entry_seq_v1(bytes, pos, es.len() as int) == Some(
            (es, pos + enc_entry_seq_v1(es).len()),
        ),
    decreases es.len(),
{
    if es.len() == 0 {
        assert(dec_entry_seq_v1(bytes, pos, 0) == Some((Seq::<EntryV>::empty(), pos)));
        assert(es =~= Seq::<EntryV>::empty());
    } else {
        let seg = enc_entry_seq_v1(es);
        let first = enc_entry_v1(es[0]);
        let rest = enc_entry_seq_v1(es.drop_first());
        assert(seg =~= first + rest);
        assert(seg.subrange(0, first.len() as int) =~= first);
        assert(seg.subrange(first.len() as int, seg.len() as int) =~= rest);
        lemma_slice_at(bytes, pos, seg, 0, first.len() as int);
        lemma_slice_at(bytes, pos, seg, first.len() as int, seg.len() as int);
        lemma_dec_entry_v1(bytes, pos, es[0]);
        lemma_dec_entry_seq_v1(bytes, pos + first.len(), es.drop_first());
        assert(seq![es[0]] + es.drop_first() =~= es);
    }
}

/// Reading back an emitted batch: decoding inverts encoding.
pub proof fn lemma_entries_v1_roundtrip(es: Seq<EntryV>)
    requires
        entries_ok(es),
    ensures
        dec_entries_v1(enc_entries_v1(es)) == Some(es),
{
    let bytes = enc_entries_v1(es);
    let body = enc_entry_seq_v1(es);
    assert(bytes.subrange(0, 5) =~= mp_arr(es.len()));
    lemma_dec_arr(bytes, 0, es.len());
    assert(bytes.subrange(5, bytes.len() as int) =~= body);
    lemma_dec_entry_seq_v1(bytes, 5, es);
}

/// Appends one current-form entry, or reports that a field does not fit.
pub fn put_entry_v1(out: &mut Vec<u8>, e: &Entry) -> (r: bool)
    ensures
        r ==> final(out)@ =~= old(out)@ + enc_entry_v1(e@) && entry_ok(e@),
        !r ==> final(out)@ =~= old(out)@ && !entry_ok(e@),
{
    if e.host.as_str().as_bytes().len() > MAX_LEN32 || e.cmd.as_str().as_bytes().len() > MAX_LEN32
        || e.path.as_str().as_bytes().len() > MAX_LEN32 || e.session.as_str().as_bytes().len()
        > MAX_LEN32 {
        return false;
    }
    put_arr(out, 6);
    let idb = u128_to_be(e.id);
    put_bin(out, idb.as_slice());
    put_i64(out, e.ts);
    put_str(out, &e.host);
    put_str(out, &e.cmd);
    put_str(out, &e.path);
    put_str(out, &e.session);
    proof {
        assert(spec_u128_to_be(e.id).len() == 16);
        assert(final(out)@ =~= old(out)@ + enc_entry_v1(e@));
    }
    true
}

proof fn lemma_enc_seq_snoc(es: Seq<EntryV>, e: EntryV)
    ensures
        enc_entry_seq_v1(es.push(e)) =~= enc_entry_seq_v1(es) + enc_entry_v1(e),
    decreases es.len(),
{
    if es.len() == 0 {
        assert(es.push(e)[0] == e);
        assert(es.push(e).drop_first() =~= Seq::<EntryV>::empty());
        assert(enc_entry_seq_v1(Seq::<EntryV>::empty()) =~= Seq::<u8>::empty());
        assert(enc_entry_seq_v1(es.push(e)) =~= enc_entry_v1(e) + enc_entry_seq_v1(
            Seq::<EntryV>::empty(),
        ));
    } else {
        assert(es.push(e)[0] == es[0]);
        assert(es.push(e).drop_first() =~= es.drop_first().push(e));
        lemma_enc_seq_snoc(es.drop_first(), e);
        assert(enc_entry_seq_v1(es.push(e)) =~= enc_entry_v1(es[0]) + enc_entry_seq_v1(
            es.drop_first().push(e),
        ));
    }
}

/// Encodes a batch in the current form. Fails exactly when a count or a
/// field does not fit its 32-bit header.
pub fn encode_entries_v1(es: &Vec<Entry>) -> (r: Result<Vec<u8>, Error>)
    ensures
        r matches Ok(v) ==> entries_ok(views(es@)) && v@ == enc_entries_v1(views(es@)),
        r matches Err(e) ==> !entries_ok(views(es@)) && e.kind == ErrorKind::Generic,
{
    if es.len() > MAX_LEN32 {
        return Err(Error::of(ErrorKind::Generic));
    }
    let mut out: Vec<u8> = Vec::new();
    put_arr(&mut out, es.len() as u32);
    let mut i: usize = 0;
    while i < es.len()
        invariant
            i <= es@.len(),
            es@.len() <= MAX_LEN32,
            out@ =~= mp_arr(es@.len() as nat) + enc_entry_seq_v1(views(es@).take(i as int)),
            forall|k: int| 0 <= k < i ==> entry_ok(#[trigger] views(es@)[k]),
        decreases es@.len() - i,
    {
        let ghost pre = out@;
        let ok = put_entry_v1(&mut out, &es[i]);
        if !ok {
            assert(!entry_ok(views(es@)[i as int]));
            return Err(Error::of(ErrorKind::Generic));
        }
        proof {
            lemma_enc_seq_snoc(views(es@).take(i as int), es@[i as int]@);
            assert(views(es@).take(i as int).push(es@[i as int]@) =~= views(es@).take(i + 1));
        }
        i = i + 1;
    }
    proof {
        assert(views(es@).take(es@.len() as int) =~= views(es@));
    }
    Ok(out)
}

/// Reads one current-form entry at `pos`.
pub fn get_entry_v1(bytes: &[u8], pos: usize) -> (r: Option<(Entry, usize)>)
    requires
        pos <= bytes@.len(),
    ensures
        r matches Some(p) ==> dec_entry_v1(bytes@, pos as int) == Some((p.0@, p.1 as int)) && pos
            < p.1 <= bytes@.len(),
        r is None ==> dec_entry_v1(bytes@, pos as int) is None,
{
    let (n, p1) = match get_arr(bytes, pos) {
        Some(x) => x,
        None => {
            return None;
        },
    };
    if n != 6 {
        return None;
    }
    let (idb, p2) = match get_bin(bytes, p1) {
        Some(x) => x,
        None => {
            return None;
        },
    };
    if idb.len() != 16 {
        return None;
    }
    let id = u128_from_be(idb.as_slice(), 0);
    proof {
        assert(idb@.subrange(0, 16) =~= idb@);
    }
    let (ts, p3) = match get_i64(bytes, p2) {
        Some(x) => x,
        None => {
            return None;
        },
    };
    let (host, p4) = match get_str(bytes, p3) {
        Some(x) => x,
        None => {
            return None;
        },
    };
    let (cmd, p5) = match get_str(bytes, p4) {
        Some(x) => x,
        None => {
            return None;
        },
    };
    let (path, p6) = match get_str(bytes, p5) {
        Some(x) => x,
        None => {
            return None;
        },
    };
    let (session, p7) = match get_str(bytes, p6) {
        Some(x) => x,
        None => {
            return None;
        },
    };
    let e = Entry { id, ts, host, cmd, path, session };
    proof {
        let d = dec_entry_v1(bytes@, pos as int).unwrap().0;
        assert(d =~= e@);
    }
    Some((e, p7))
}

/// Prefixing a decoded tail with already-decoded entries.
pub open spec fn seq_prepend(pre: Seq<EntryV>, o: Option<(Seq<EntryV>, int)>) -> Option<
    (Seq<EntryV>, int),
> {
    match o {
        Some(p) => Some((pre + p.0, p.1)),
        None => None,
    }
}

/// Decodes a whole current-form batch. Fails exactly when the bytes are
/// not exactly one batch.
pub fn decode_entries_v1(bytes: &[u8]) -> (r: Result<Vec<Entry>, Error>)
    ensures
        r matches Ok(v) ==> dec_entries_v1(bytes@) == Some(views(v@)),
        r matches Err(e) ==> dec_entries_v1(bytes@) is None && e.kind == ErrorKind::StoreCorrupt,
{
    let (n, p0) = match get_arr(bytes, 0) {
        Some(x) => x,
        None => {
            return Err(Error::of(ErrorKind::StoreCorrupt));
        },
    };
    let mut acc: Vec<Entry> = Vec::new();
    let mut cur: usize = p0;
    let mut i: u32 = 0;
    while i < n
        invariant
            i <= n,
            cur <= bytes@.len(),
            views(acc@).len() == i,
            dec_arr(bytes@, 0) == Some((n as int, p0 as int)),
            dec_entry_seq_v1(bytes@, p0 as int, n as int) == seq_prepend(
                views(acc@),
                dec_entry_seq_v1(bytes@, cur as int, n as int - i as int),
            ),
        decreases n - i,
    {
        match get_entry_v1(bytes, cur) {
            Some((e, next)) => {
                proof {
                    let m = n as int - i as int;
                    let tail = dec_entry_seq_v1(bytes@, next as int, m - 1);
                    assert(dec_entry_seq_v1(bytes@, cur as int, m) == seq_prepend(
                        seq![e@],
                        tail,
                    ));
                    assert(views(acc@.push(e)) =~= views(acc@).push(e@));
                    if tail is Some {
                        assert(views(acc@) + (seq![e@] + tail.unwrap().0) =~= views(acc@).push(e@)
                            + tail.unwrap().0);
                    }
                }
                acc.push(e);
                cur = next;
            },
            None => {
                proof {
                    let m = n as int - i as int;
                    assert(dec_entry_seq_v1(bytes@, cur as int, m) is None);
                }
                return Err(Error::of(ErrorKind::StoreCorrupt));
            },
        }
        i = i + 1;
    }
    proof {
        assert(dec_entry_seq_v1(bytes@, cur as int, 0) == Some(
            (Seq::<EntryV>::empty(), cur as int),
        ));
        assert(views(acc@) + Seq::<EntryV>::empty() =~= views(acc@));
    }
    if cur != bytes.len() {
        return Err(Error::of(ErrorKind::StoreCorrupt));
    }
    Ok(acc)
}

/// Lifting a legacy entry to the current form: the path becomes empty.
pub open spec fn v0_lift(e: EntryV) -> EntryV {
    EntryV { path: Seq::empty(), ..e }
}

/// The views of a sequence of entries, each lifted from the legacy form.
pub open spec fn v0_lift_seq(es: Seq<EntryV>) -> Seq<EntryV> {
    es.map_values(|e: EntryV| v0_lift(e))
}

/// The encoding of one legacy entry: five fields, no path.
pub open spec fn enc_entry_v0(e: EntryV) -> Seq<u8> {
    mp_arr(5) + mp_bin(spec_u128_to_be(e.id)) + mp_i64(e.ts as i64) + mp_str(e.host) + mp_str(
        e.cmd,
    ) + mp_str(e.session)
}

/// The concatenated legacy encodings of a sequence of entries.
pub open spec fn enc_entry_seq_v0(es: Seq<EntryV>) -> Seq<u8>
    decreases es.len(),
{
    if es.len() == 0 {
        Seq::empty()
    } else {
        enc_entry_v0(es[0]) + enc_entry_seq_v0(es.drop_first())
    }
}

/// The encoding of a whole batch in the legacy form.
pub open spec fn enc_entries_v0(es: Seq<EntryV>) -> Seq<u8> {
    mp_arr(es.len()) + enc_entry_seq_v0(es)
}

/// Reading one legacy entry at `pos`; its path is lifted to empty.
pub open spec fn dec_entry_v0(bytes: Seq<u8>, pos: int) -> Option<(EntryV, int)> {
    match dec_arr(bytes, pos) {
        Some((n, p1)) => if n == 5 {
            match dec_bin(bytes, p1) {
                Some((idb, p2)) => if idb.len() == 16 {
                    match dec_i64(bytes, p2) {
                        Some((ts, p3)) => match dec_str(bytes, p3) {
                            Some((host, p4)) => match dec_str(bytes, p4) {
                                Some((cmd, p5)) => match dec_str(bytes, p5) {
                                    Some((session, p6)) => Some(
                                        (
                                            EntryV {
                                                id: spec_u128_from_be(idb),
                                                ts: ts as int,
                                                host,
                                                cmd,
                                                path: Seq::empty(),
                                                session,
                                            },
                                            p6,
                                        ),
                                    ),
                                    None => None,
                                },
                                None => None,
                            },
                            None => None,
                        },
                        None => None,
                    }
                } else {
                    None
                },
                None => None,
            }
        } else {
            None
        },
        None => None,
    }
}

/// Reading `n` legacy entries from `pos`.
pub open spec fn dec_entry_seq_v0(bytes: Seq<u8>, pos: int, n: int) -> Option<(Seq<EntryV>, int)>
    decreases n,
{
    if n <= 0 {
        Some((Seq::empty(), pos))
    } else {
        match dec_entry_v0(bytes, pos) {
            Some((e, p)) => match dec_entry_seq_v0(bytes, p, n - 1) {
                Some((rest, end)) => Some((seq![e] + rest, end)),
                None => None,
            },
            None => None,
        }
    }
}

/// Reading a whole legacy batch; the bytes must hold exactly one.
pub open spec fn dec_entries_v0(bytes: Seq<u8>) -> Option<Seq<EntryV>> {
    match dec_arr(bytes, 0) {
        Some((n, p)) => match dec_entry_seq_v0(bytes, p, n) {
            Some((es, end)) => if end == bytes.len() {
                Some(es)
            } else {
                None
            },
            None => None,
        },
        None => None,
    }
}

/// Reading back an emitted legacy entry.
#[verifier::spinoff_prover]
#[verifier::rlimit(80)]
pub proof fn lemma_dec_entry_v0(bytes: Seq<u8>, pos: int, e: EntryV)
    requires
        entry_ok(e),
        0 <= pos,
        pos + enc_entry_v0(e).len() <= bytes.len(),
        bytes.subrange(pos, pos + enc_entry_v0(e).len()) == enc_entry_v0(e),
    ensures
        dec_entry_v0(bytes, pos) == Some((v0_lift(e), pos + enc_entry_v0(e).len())),
{
    let seg = enc_entry_v0(e);
    let idb = spec_u128_to_be(e.id);
    assert(idb.len() == 16);
    let l0: int = 5;
    let l1: int = l0 + 21;
    let l2: int = l1 + 9;
    let l3: int = l2 + 5 + encode_utf8(e.host).len();
    let l4: int = l3 + 5 + encode_utf8(e.cmd).len();
    let l5: int = l4 + 5 + encode_utf8(e.session).len();
    assert(seg.len() == l5);
    assert(seg.subrange(0, l0) =~= mp_arr(5));
    assert(seg.subrange(l0, l1) =~= mp_bin(idb));
    assert(seg.subrange(l1, l2) =~= mp_i64(e.ts as i64));
    assert(seg.subrange(l2, l3) =~= mp_str(e.host));
    assert(seg.subrange(l3, l4) =~= mp_str(e.cmd));
    assert(seg.subrange(l4, l5) =~= mp_str(e.session));
    lemma_slice_at(bytes, pos, seg, 0, l0);
    lemma_slice_at(bytes, pos, seg, l0, l1);
    lemma_slice_at(bytes, pos, seg, l1, l2);
    lemma_slice_at(bytes, pos, seg, l2, l3);
    lemma_slice_at(bytes, pos, seg, l3, l4);
    lemma_slice_at(bytes, pos, seg, l4, l5);
    lemma_dec_arr(bytes, pos, 5);
    lemma_dec_bin(bytes, pos + l0, idb);
    lemma_dec_i64(bytes, pos + l1, e.ts as i64);
    lemma_dec_str(bytes, pos + l2, e.host);
    lemma_dec_str(bytes, pos + l3, e.cmd);
    lemma_dec_str(bytes, pos + l4, e.session);
    lemma_u128_be_roundtrip(e.id);
    assert(dec_entry_v0(bytes, pos) == Some((v0_lift(e), pos + l5))) by {
        assert((e.ts as i64) as int == e.ts);
        let d = dec_entry_v0(bytes, pos).unwrap().0;
        assert(d =~= v0_lift(e));
    }
}

/// Reading back an emitted legacy sequence.
pub proof fn lemma_dec_entry_seq_v0(bytes: Seq<u8>, pos: int, es: Seq<EntryV>)
    requires
        forall|i: int| 0 <= i < es.len() ==> entry_ok(#[trigger] es[i]),
        0 <= pos,
        pos + enc_entry_seq_v0(es).len() <= bytes.len(),
        bytes.subrange(pos, pos + enc_entry_seq_v0(es).len()) == enc_entry_seq_v0(es),
    ensures
        dec_entry_seq_v0(bytes, pos, es.len() as int) == Some(
            (v0_lift_seq(es), pos + enc_entry_seq_v0(es).len()),
        ),
    decreases es.len(),
{
    if es.len() == 0 {
        assert(v0_lift_seq(es) =~= Seq::<EntryV>::empty());
    } else {
        let seg = enc_entry_seq_v0(es);
        let first = enc_entry_v0(es[0]);
        let rest = enc_entry_seq_v0(es.drop_first());
        assert(seg =~= first + rest);
        assert(seg.subrange(0, first.len() as int) =~= first);
        assert(seg.subrange(first.len() as int, seg.len() as int) =~= rest);
        lemma_slice_at(bytes, pos, seg, 0, first.len() as int);
        lemma_slice_at(bytes, pos, seg, first.len() as int, seg.len() as int);
        lemma_dec_entry_v0(bytes, pos, es[0]);
        lemma_dec_entry_seq_v0(bytes, pos + first.len(), es.drop_first());
        assert(seq![v0_lift(es[0])] + v0_lift_seq(es.drop_first()) =~= v0_lift_seq(es));
    }
}

/// Reading back an emitted legacy batch: the entries come back with their
/// paths lifted to empty.
pub proof fn lemma_entries_v0_roundtrip(es: Seq<EntryV>)
    requires
        entries_ok(es),
    ensures
        dec_entries_v0(enc_entries_v0(es)) == Some(v0_lift_seq(es)),
{
    let bytes = enc_entries_v0(es);
    let body = enc_entry_seq_v0(es);
    assert(bytes.subrange(0, 5) =~= mp_arr(es.len()));
    lemma_dec_arr(bytes, 0, es.len());
    assert(bytes.subrange(5, bytes.len() as int) =~= body);
    lemma_dec_entry_seq_v0(bytes, 5, es);
    assert(v0_lift_seq(es).len() == es.len());
}

/// Appends one legacy entry, or reports that a field does not fit.
pub fn put_entry_v0(out: &mut Vec<u8>, e: &Entry) -> (r: bool)
    ensures
        r ==> final(out)@ =~= old(out)@ + enc_entry_v0(e@) && entry_ok(e@),
        !r ==> final(out)@ =~= old(out)@ && !entry_ok(e@),
{
    if e.host.as_str().as_bytes().len() > MAX_LEN32 || e.cmd.as_str().as_bytes().len() > MAX_LEN32
        || e.path.as_str().as_bytes().len() > MAX_LEN32 || e.session.as_str().as_bytes().len()
        > MAX_LEN32 {
        return false;
    }
    put_arr(out, 5);
    let idb = u128_to_be(e.id);
    put_bin(out, idb.as_slice());
    put_i64(out, e.ts);
    put_str(out, &e.host);
    put_str(out, &e.cmd);
    put_str(out, &e.session);
    proof {
        assert(spec_u128_to_be(e.id).len() == 16);
        assert(final(out)@ =~= old(out)@ + enc_entry_v0(e@));
    }
    true
}

proof fn lemma_enc_seq_v0_snoc(es: Seq<EntryV>, e: EntryV)
    ensures
        enc_entry_seq_v0(es.push(e)) =~= enc_entry_seq_v0(es) + enc_entry_v0(e),
    decreases es.len(),
{
    if es.len() == 0 {
        assert(es.push(e)[0] == e);
        assert(es.push(e).drop_first() =~= Seq::<EntryV>::empty());
        assert(enc_entry_seq_v0(Seq::<EntryV>::empty()) =~= Seq::<u8>::empty());
        assert(enc_entry_seq_v0(es.push(e)) =~= enc_entry_v0(e) + enc_entry_seq_v0(
            Seq::<EntryV>::empty(),
        ));
    } else {
        assert(es.push(e)[0] == es[0]);
        assert(es.push(e).drop_first() =~= es.drop_first().push(e));
        lemma_enc_seq_v0_snoc(es.drop_first(), e);
        assert(enc_entry_seq_v0(es.push(e)) =~= enc_entry_v0(es[0]) + enc_entry_seq_v0(
            es.drop_first().push(e),
        ));
    }
}

/// Encodes a batch in the legacy form; used to exercise the reading of
/// legacy files. Fails exactly when a count or field does not fit.
pub fn encode_entries_v0(es: &Vec<Entry>) -> (r: Result<Vec<u8>, Error>)
    ensures
        r matches Ok(v) ==> entries_ok(views(es@)) && v@ == enc_entries_v0(views(es@)),
        r matches Err(e) ==> !entries_ok(views(es@)) && e.kind == ErrorKind::Generic,
{
    if es.len() > MAX_LEN32 {
        return Err(Error::of(ErrorKind::Generic));
    }
    let mut out: Vec<u8> = Vec::new();
    put_arr(&mut out, es.len() as u32);
    let mut i: usize = 0;
    while i < es.len()
        invariant
            i <= es@.len(),
            es@.len() <= MAX_LEN32,
            out@ =~= mp_arr(es@.len() as nat) + enc_entry_seq_v0(views(es@).take(i as int)),
            forall|k: int| 0 <= k < i ==> entry_ok(#[trigger] views(es@)[k]),
        decreases es@.len() - i,
    {
        let ghost pre = out@;
        let ok = put_entry_v0(&mut out, &es[i]);
        if !ok {
            assert(!entry_ok(views(es@)[i as int]));
            return Err(Error::of(ErrorKind::Generic));
        }
        proof {
            lemma_enc_seq_v0_snoc(views(es@).take(i as int), es@[i as int]@);
            assert(views(es@).take(i as int).push(es@[i as int]@) =~= views(es@).take(i + 1));
        }
        i = i + 1;
    }
    proof {
        assert(views(es@).take(es@.len() as int) =~= views(es@));
    }
    Ok(out)
}

/// Reads one legacy entry at `pos`.
pub fn get_entry_v0(bytes: &[u8], pos: usize) -> (r: Option<(Entry, usize)>)
    requires
        pos <= bytes@.len(),
    ensures
        r matches Some(p) ==> dec_entry_v0(bytes@, pos as int) == Some((p.0@, p.1 as int)) && pos
            < p.1 <= bytes@.len(),
        r is None ==> dec_entry_v0(bytes@, pos as int) is None,
{
    let (n, p1) = match get_arr(bytes, pos) {
        Some(x) => x,
        None => {
            return None;
        },
    };
    if n != 5 {
        return None;
    }
    let (idb, p2) = match get_bin(bytes, p1) {
        Some(x) => x,
        None => {
            return None;
        },
    };
    if idb.len() != 16 {
        return None;
    }
    let id = u128_from_be(idb.as_slice(), 0);
    proof {
        assert(idb@.subrange(0, 16) =~= idb@);
    }
    let (ts, p3) = match get_i64(bytes, p2) {
        Some(x) => x,
        None => {
            return None;
        },
    };
    let (host, p4) = match get_str(bytes, p3) {
        Some(x) => x,
        None => {
            return None;
        },
    };
    let (cmd, p5) = match get_str(bytes, p4) {
        Some(x) => x,
        None => {
            return None;
        },
    };
    let (session, p6) = match get_str(bytes, p5) {
        Some(x) => x,
        None => {
            return None;
        },
    };
    let e = Entry { id, ts, host, cmd, path: String::new(), session };
    proof {
        let d = dec_entry_v0(bytes@, pos as int).unwrap().0;
        assert(d =~= e@);
    }
    Some((e, p6))
}

/// Decodes a whole legacy batch, lifting each entry to the current form.
/// Fails exactly when the bytes are not exactly one legacy batch.
pub fn decode_entries_v0(bytes: &[u8]) -> (r: Result<Vec<Entry>, Error>)
    ensures
        r matches Ok(v) ==> dec_entries_v0(bytes@) == Some(views(v@)),
        r matches Err(e) ==> dec_entries_v0(bytes@) is None && e.kind == ErrorKind::StoreCorrupt,
{
    let (n, p0) = match get_arr(bytes, 0) {
        Some(x) => x,
        None => {
            return Err(Error::of(ErrorKind::StoreCorrupt));
        },
    };
    let mut acc: Vec<Entry> = Vec::new();
    let mut cur: usize = p0;
    let mut i: u32 = 0;
    while i < n
        invariant
            i <= n,
            cur <= bytes@.len(),
            views(acc@).len() == i,
            dec_arr(bytes@, 0) == Some((n as int, p0 as int)),
            dec_entry_seq_v0(bytes@, p0 as int, n as int) == seq_prepend(
                views(acc@),
                dec_entry_seq_v0(bytes@, cur as int, n as int - i as int),
            ),
        decreases n - i,
    {
        match get_entry_v0(bytes, cur) {
            Some((e, next)) => {
                proof {
                    let m = n as int - i as int;
                    let tail = dec_entry_seq_v0(bytes@, next as int, m - 1);
                    assert(dec_entry_seq_v0(bytes@, cur as int, m) == seq_prepend(
                        seq![e@],
                        tail,
                    ));
                    assert(views(acc@.push(e)) =~= views(acc@).push(e@));
                    if tail is Some {
                        assert(views(acc@) + (seq![e@] + tail.unwrap().0) =~= views(acc@).push(e@)
                            + tail.unwrap().0);
                    }
                }
                acc.push(e);
                cur = next;
            },
            None => {
                proof {
                    let m = n as int - i as int;
                    assert(dec_entry_seq_v0(bytes@, cur as int, m) is None);
                }
                return Err(Error::of(ErrorKind::StoreCorrupt));
            },
        }
        i = i + 1;
    }
    proof {
        assert(dec_entry_seq_v0(bytes@, cur as int, 0) == Some(
            (Seq::<EntryV>::empty(), cur as int),
        ));
        assert(views(acc@) + Seq::<EntryV>::empty() =~= views(acc@));
    }
    if cur != bytes.len() {
        return Err(Error::of(ErrorKind::StoreCorrupt));
    }
    Ok(acc)
}

} // verus!
