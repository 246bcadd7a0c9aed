//! The wire protocol of the daemon's local socket.
//!
//! Every message is framed as an eight-byte little-endian length followed
//! by a msgpack body: an array whose first element is the variant tag.
//! Clients and the daemon use the same framing in both directions.

use vstd::bytes::{lemma_auto_spec_u64_to_from_le_bytes, spec_u64_from_le_bytes,
    spec_u64_to_le_bytes, u64_from_le_bytes, u64_to_le_bytes};
use vstd::prelude::*;
use crate::entry::{views, Entry, EntryV};
use crate::entrycodec::{dec_entry_seq_v1, enc_entry_seq_v1, entries_ok, get_entry_v1,
    seq_prepend, str_ok};
use crate::errors::{Error, ErrorKind};
use crate::intbytes::{spec_u128_from_be, spec_u128_to_be, u128_from_be, u128_to_be};
use crate::msgpack::{dec_arr, dec_bin, dec_i64, dec_str, get_arr, get_bin, get_i64, get_str,
    mp_arr, mp_bin, mp_i64, mp_str, put_arr, put_bin, put_i64, put_str, MAX_LEN32};

verus! {

/// A protocol message.
#[derive(Debug)]
pub enum Message {
    /// Positive reply with no payload.
    Ack,
    /// Store a command under a session.
    Store { cmd: String, session: String },
    /// Negative reply with a reason.
    ProtocolError(String),
    /// Ask for the merged history.
    HistoryRequest,
    /// The merged history.
    History(Vec<Entry>),
    /// Ask for a sync; true forces a push.
    Sync(bool),
    /// Ask the daemon to exit; true skips the final save.
    Exit(bool),
    /// Liveness probe and its reply.
    Ping,
    Pong,
    /// Edit or tombstone the entry with an id.
    Update { id: u128, cmd: String, session: String },
    /// Ask for a full rewrite of the store.
    Rebuild,
    /// One progress line of a running rewrite.
    RebuildStatus(String),
    /// The end of a rewrite: nothing on success, a reason on failure.
    RebuildComplete(Option<String>),
}

/// The mathematical value of a [`Message`].
pub ghost enum MessageV {
    Ack,
    Store { cmd: Seq<char>, session: Seq<char> },
    ProtocolError(Seq<char>),
    HistoryRequest,
    History(Seq<EntryV>),
    Sync(bool),
    Exit(bool),
    Ping,
    Pong,
    Update { id: u128, cmd: Seq<char>, session: Seq<char> },
    Rebuild,
    RebuildStatus(Seq<char>),
    RebuildComplete(Option<Seq<char>>),
}

impl View for Message {
    type V = MessageV;

    open spec fn view(&self) -> MessageV {
        match self {
            Message::Ack => MessageV::Ack,
            Message::Store { cmd, session } => MessageV::Store { cmd: cmd@, session: session@ },
            Message::ProtocolError(s) => MessageV::ProtocolError(s@),
            Message::HistoryRequest => MessageV::HistoryRequest,
            Message::History(es) => MessageV::History(views(es@)),
            Message::Sync(f) => MessageV::Sync(*f),
            Message::Exit(n) => MessageV::Exit(*n),
            Message::Ping => MessageV::Ping,
            Message::Pong => MessageV::Pong,
            Message::Update { id, cmd, session } => MessageV::Update {
                id: *id,
                cmd: cmd@,
                session: session@,
            },
            Message::Rebuild => MessageV::Rebuild,
            Message::RebuildStatus(s) => MessageV::RebuildStatus(s@),
            Message::RebuildComplete(r) => MessageV::RebuildComplete(
                match r {
                    Some(s) => Some(s@),
                    None => None,
                },
            ),
        }
    }
}

/// A message whose strings and batches fit their headers.
pub open spec fn msg_ok(m: MessageV) -> bool {
    match m {
        MessageV::Store { cmd, session } => str_ok(cmd) && str_ok(session),
        MessageV::ProtocolError(s) => str_ok(s),
        MessageV::History(es) => entries_ok(es),
        MessageV::Update { id, cmd, session } => str_ok(cmd) && str_ok(session),
        MessageV::RebuildStatus(s) => str_ok(s),
        MessageV::RebuildComplete(r) => (r matches Some(s) ==> str_ok(s)),
        _ => true,
    }
}

/// The body encoding of a message.
pub open spec fn enc_msg(m: MessageV) -> Seq<u8> {
    match m {
        MessageV::Ack => mp_arr(1) + mp_i64(0),
        MessageV::Store { cmd, session } => mp_arr(3) + mp_i64(1) + mp_str(cmd) + mp_str(session),
        MessageV::ProtocolError(s) => mp_arr(2) + mp_i64(2) + mp_str(s),
        MessageV::HistoryRequest => mp_arr(1) + mp_i64(3),
        MessageV::History(es) => mp_arr(2) + mp_i64(4) + (mp_arr(es.len()) + enc_entry_seq_v1(es)),
        MessageV::Sync(f) => mp_arr(2) + mp_i64(5) + mp_i64(if f { 1 } else { 0 }),
        MessageV::Exit(n) => mp_arr(2) + mp_i64(6) + mp_i64(if n { 1 } else { 0 }),
        MessageV::Ping => mp_arr(1) + mp_i64(7),
        MessageV::Pong => mp_arr(1) + mp_i64(8),
        MessageV::Update { id, cmd, session } => mp_arr(4) + mp_i64(9) + mp_bin(
            spec_u128_to_be(id),
        ) + mp_str(cmd) + mp_str(session),
        MessageV::Rebuild => mp_arr(1) + mp_i64(10),
        MessageV::RebuildStatus(s) => mp_arr(2) + mp_i64(11) + mp_str(s),
        MessageV::RebuildComplete(r) => match r {
            None => mp_arr(2) + mp_i64(12) + mp_i64(0),
            Some(s) => mp_arr(3) + mp_i64(12) + mp_i64(1) + mp_str(s),
        },
    }
}

/// Reading a message body; the bytes must hold exactly one.
pub open spec fn dec_msg(bytes: Seq<u8>) -> Option<MessageV> {
    match dec_arr(bytes, 0) {
        Some((n, p0)) => match dec_i64(bytes, p0) {
            Some((tag, p1)) => dec_msg_body(bytes, n, tag, p1),
            None => None,
        },
        None => None,
    }
}

/// Reading the rest of a message body after its tag.
pub open spec fn dec_msg_body(bytes: Seq<u8>, n: int, tag: i64, p1: int) -> Option<MessageV> {
    if tag == 0 && n == 1 && p1 == bytes.len() {
        Some(MessageV::Ack)
    } else if tag == 1 && n == 3 {
        match dec_str(bytes, p1) {
            Some((cmd, p2)) => match dec_str(bytes, p2) {
                Some((session, p3)) => if p3 == bytes.len() {
                    Some(MessageV::Store { cmd, session })
                } else {
                    None
                },
                None => None,
            },
            None => None,
        }
    } else if tag == 2 && n == 2 {
        match dec_str(bytes, p1) {
            Some((s, p2)) => if p2 == bytes.len() {
                Some(MessageV::ProtocolError(s))
            } else {
                None
            },
            None => None,
        }
    } else if tag == 3 && n == 1 && p1 == bytes.len() {
        Some(MessageV::HistoryRequest)
    } else if tag == 4 && n == 2 {
        match dec_arr(bytes, p1) {
            Some((count, p2)) => match dec_entry_seq_v1(bytes, p2, count) {
                Some((es, p3)) => if p3 == bytes.len() {
                    Some(MessageV::History(es))
                } else {
                    None
                },
                None => None,
            },
            None => None,
        }
    } else if tag == 5 && n == 2 {
        match dec_i64(bytes, p1) {
            Some((f, p2)) => if p2 == bytes.len() {
                Some(MessageV::Sync(f != 0))
            } else {
                None
            },
            None => None,
        }
    } else if tag == 6 && n == 2 {
        match dec_i64(bytes, p1) {
            Some((f, p2)) => if p2 == bytes.len() {
                Some(MessageV::Exit(f != 0))
            } else {
                None
            },
            None => None,
        }
    } else if tag == 7 && n == 1 && p1 == bytes.len() {
        Some(MessageV::Ping)
    } else if tag == 8 && n == 1 && p1 == bytes.len() {
        Some(MessageV::Pong)
    } else if tag == 9 && n == 4 {
        match dec_bin(bytes, p1) {
            Some((idb, p2)) => if idb.len() == 16 {
                match dec_str(bytes, p2) {
                    Some((cmd, p3)) => match dec_str(bytes, p3) {
                        Some((session, p4)) => if p4 == bytes.len() {
                            Some(
                                MessageV::Update { id: spec_u128_from_be(idb), cmd, session },
                            )
                        } else {
                            None
                        },
                        None => None,
                    },
                    None => None,
                }
            } else {
                None
            },
            None => None,
        }
    } else if tag == 10 && n == 1 && p1 == bytes.len() {
        Some(MessageV::Rebuild)
    } else if tag == 11 && n == 2 {
        match dec_str(bytes, p1) {
            Some((s, p2)) => if p2 == bytes.len() {
                Some(MessageV::RebuildStatus(s))
            } else {
                None
            },
            None => None,
        }
    } else if tag == 12 && n == 2 {
        match dec_i64(bytes, p1) {
            Some((f, p2)) => if p2 == bytes.len() && f == 0 {
                Some(MessageV::RebuildComplete(None))
            } else {
                None
            },
            None => None,
        }
    } else if tag == 12 && n == 3 {
        match dec_i64(bytes, p1) {
            Some((f, p2)) => if f == 1 {
                match dec_str(bytes, p2) {
                    Some((s, p3)) => if p3 == bytes.len() {
                        Some(MessageV::RebuildComplete(Some(s)))
                    } else {
                        None
                    },
                    None => None,
                }
            } else {
                None
            },
            None => None,
        }
    } else {
        None
    }
}

/// Encodes a message body. Fails exactly when a string or batch does not
/// fit its header.
pub fn encode_message(m: &Message) -> (r: Result<Vec<u8>, Error>)
    ensures
        r matches Ok(v) ==> msg_ok(m@) && v@ =~= enc_msg(m@),
        r matches Err(e) ==> !msg_ok(m@) && e.kind == ErrorKind::Generic,
{
    let mut out: Vec<u8> = Vec::new();
    match m {
        Message::Ack => {
            put_arr(&mut out, 1);
            put_i64(&mut out, 0);
        },
        Message::Store { cmd, session } => {
            if cmd.as_str().as_bytes().len() > MAX_LEN32 || session.as_str().as_bytes().len()
                > MAX_LEN32 {
                return Err(Error::of(ErrorKind::Generic));
            }
            put_arr(&mut out, 3);
            put_i64(&mut out, 1);
            put_str(&mut out, cmd);
            put_str(&mut out, session);
        },
        Message::ProtocolError(s) => {
            if s.as_str().as_bytes().len() > MAX_LEN32 {
                return Err(Error::of(ErrorKind::Generic));
            }
            put_arr(&mut out, 2);
            put_i64(&mut out, 2);
            put_str(&mut out, s);
        },
        Message::HistoryRequest => {
            put_arr(&mut out, 1);
            put_i64(&mut out, 3);
        },
        Message::History(es) => {
            let body = match crate::entrycodec::encode_entries_v1(es) {
                Ok(b) => b,
                Err(e) => {
                    return Err(e);
                },
            };
            put_arr(&mut out, 2);
            put_i64(&mut out, 4);
            let mut b = body;
            out.append(&mut b);
        },
        Message::Sync(f) => {
            put_arr(&mut out, 2);
            put_i64(&mut out, 5);
            put_i64(&mut out, if *f {
                1
            } else {
                0
            });
        },
        Message::Exit(n) => {
            put_arr(&mut out, 2);
            put_i64(&mut out, 6);
            put_i64(&mut out, if *n {
                1
            } else {
                0
            });
        },
        Message::Ping => {
            put_arr(&mut out, 1);
            put_i64(&mut out, 7);
        },
        Message::Pong => {
            put_arr(&mut out, 1);
            put_i64(&mut out, 8);
        },
        Message::Update { id, cmd, session } => {
            if cmd.as_str().as_bytes().len() > MAX_LEN32 || session.as_str().as_bytes().len()
                > MAX_LEN32 {
                return Err(Error::of(ErrorKind::Generic));
            }
            put_arr(&mut out, 4);
            put_i64(&mut out, 9);
            let idb = u128_to_be(*id);
            proof {
                assert(spec_u128_to_be(*id).len() == 16);
            }
            put_bin(&mut out, idb.as_slice());
            put_str(&mut out, cmd);
            put_str(&mut out, session);
        },
        Message::Rebuild => {
            put_arr(&mut out, 1);
            put_i64(&mut out, 10);
        },
        Message::RebuildStatus(s) => {
            if s.as_str().as_bytes().len() > MAX_LEN32 {
                return Err(Error::of(ErrorKind::Generic));
            }
            put_arr(&mut out, 2);
            put_i64(&mut out, 11);
            put_str(&mut out, s);
        },
        Message::RebuildComplete(r) => {
            match r {
                None => {
                    put_arr(&mut out, 2);
                    put_i64(&mut out, 12);
                    put_i64(&mut out, 0);
                },
                Some(s) => {
                    if s.as_str().as_bytes().len() > MAX_LEN32 {
                        return Err(Error::of(ErrorKind::Generic));
                    }
                    put_arr(&mut out, 3);
                    put_i64(&mut out, 12);
                    put_i64(&mut out, 1);
                    put_str(&mut out, s);
                },
            }
        },
    }
    Ok(out)
}

/// Decodes a message body. Fails exactly when the bytes are not exactly
/// one message.
pub fn decode_message(bytes: &[u8]) -> (r: Result<Message, Error>)
    ensures
        r matches Ok(m) ==> dec_msg(bytes@) == Some(m@),
        r matches Err(e) ==> dec_msg(bytes@) is None && e.kind == ErrorKind::FramingDecode,
{
    let bad = Error::of(ErrorKind::FramingDecode);
    let (n, p0) = match get_arr(bytes, 0) {
        Some(x) => x,
        None => {
            return Err(bad);
        },
    };
    let (tag, p1) = match get_i64(bytes, p0) {
        Some(x) => x,
        None => {
            return Err(bad);
        },
    };
    let blen = bytes.len();
    if tag == 0 && n == 1 {
        if p1 == blen {
            return Ok(Message::Ack);
        }
        return Err(bad);
    }
    if tag == 1 && n == 3 {
        let (cmd, p2) = match get_str(bytes, p1) {
            Some(x) => x,
            None => {
                return Err(bad);
            },
        };
        let (session, p3) = match get_str(bytes, p2) {
            Some(x) => x,
            None => {
                return Err(bad);
            },
        };
        if p3 == blen {
            return Ok(Message::Store { cmd, session });
        }
        return Err(bad);
    }
    if tag == 2 && n == 2 {
        let (s, p2) = match get_str(bytes, p1) {
            Some(x) => x,
            None => {
                return Err(bad);
            },
        };
        if p2 == blen {
            return Ok(Message::ProtocolError(s));
        }
        return Err(bad);
    }
    if tag == 3 && n == 1 {
        if p1 == blen {
            return Ok(Message::HistoryRequest);
        }
        return Err(bad);
    }
    if tag == 4 && n == 2 {
        let (count, p2) = match get_arr(bytes, p1) {
            Some(x) => x,
            None => {
                return Err(bad);
            },
        };
        let mut acc: Vec<Entry> = Vec::new();
        let mut cur: usize = p2;
        let mut i: u32 = 0;
        proof {
            assert(views(acc@) =~= Seq::<EntryV>::empty());
            let t = dec_entry_seq_v1(bytes@, p2 as int, count as int);
            if t is Some {
                assert(Seq::<EntryV>::empty() + t.unwrap().0 =~= t.unwrap().0);
            }
        }
        while i < count
            invariant
                i <= count,
                cur <= bytes@.len(),
                views(acc@).len() == i,
                dec_arr(bytes@, 0) == Some((n as int, p0 as int)),
                dec_i64(bytes@, p0 as int) == Some((tag, p1 as int)),
                dec_arr(bytes@, p1 as int) == Some((count as int, p2 as int)),
                tag == 4 && n == 2,
                dec_entry_seq_v1(bytes@, p2 as int, count as int) == seq_prepend(
                    views(acc@),
                    dec_entry_seq_v1(bytes@, cur as int, count as int - i as int),
                ),
            decreases count - i,
        {
            match get_entry_v1(bytes, cur) {
                Some((e, next)) => {
                    proof {
                        let m = count as int - i as int;
                        let tail = dec_entry_seq_v1(bytes@, next as int, m - 1);
                        assert(dec_entry_seq_v1(bytes@, cur as int, m) == seq_prepend(
                            seq![e@],
                            tail,
                        ));
                        assert(views(acc@.push(e)) =~= views(acc@).push(e@));
                        if tail is Some {
                            assert(views(acc@) + (seq![e@] + tail.unwrap().0) =~= views(
                                acc@,
                            ).push(e@) + tail.unwrap().0);
                        }
                    }
                    acc.push(e);
                    cur = next;
                },
                None => {
                    proof {
                        let m = count as int - i as int;
                        assert(dec_entry_seq_v1(bytes@, cur as int, m) is None);
                        assert(dec_entry_seq_v1(bytes@, p2 as int, count as int) is None);
                        assert(dec_msg_body(bytes@, n as int, tag, p1 as int) is None);
                        assert(dec_msg(bytes@) is None);
                    }
                    return Err(Error::of(ErrorKind::FramingDecode));
                },
            }
            i = i + 1;
        }
        proof {
            assert(dec_entry_seq_v1(bytes@, cur as int, 0) == Some(
                (Seq::<EntryV>::empty(), cur as int),
            ));
            assert(views(acc@) + Seq::<EntryV>::empty() =~= views(acc@));
        }
        if cur == blen {
            return Ok(Message::History(acc));
        }
        return Err(bad);
    }
    if (tag == 5 || tag == 6) && n == 2 {
        let (f, p2) = match get_i64(bytes, p1) {
            Some(x) => x,
            None => {
                return Err(bad);
            },
        };
        if p2 == blen {
            if tag == 5 {
                return Ok(Message::Sync(f != 0));
            }
            return Ok(Message::Exit(f != 0));
        }
        return Err(bad);
    }
    if tag == 7 && n == 1 {
        if p1 == blen {
            return Ok(Message::Ping);
        }
        return Err(bad);
    }
    if tag == 8 && n == 1 {
        if p1 == blen {
            return Ok(Message::Pong);
        }
        return Err(bad);
    }
    if tag == 9 && n == 4 {
        let (idb, p2) = match get_bin(bytes, p1) {
            Some(x) => x,
            None => {
                return Err(bad);
            },
        };
        if idb.len() != 16 {
            return Err(bad);
        }
        let id = u128_from_be(idb.as_slice(), 0);
        proof {
            assert(idb@.subrange(0, 16) =~= idb@);
        }
        let (cmd, p3) = match get_str(bytes, p2) {
            Some(x) => x,
            None => {
                return Err(bad);
            },
        };
        let (session, p4) = match get_str(bytes, p3) {
            Some(x) => x,
            None => {
                return Err(bad);
            },
        };
        if p4 == blen {
            return Ok(Message::Update { id, cmd, session });
        }
        return Err(bad);
    }
    if tag == 10 && n == 1 {
        if p1 == blen {
            return Ok(Message::Rebuild);
        }
        return Err(bad);
    }
    if tag == 11 && n == 2 {
        let (s, p2) = match get_str(bytes, p1) {
            Some(x) => x,
            None => {
                return Err(bad);
            },
        };
        if p2 == blen {
            return Ok(Message::RebuildStatus(s));
        }
        return Err(bad);
    }
    if tag == 12 && n == 2 {
        let (f, p2) = match get_i64(bytes, p1) {
            Some(x) => x,
            None => {
                return Err(bad);
            },
        };
        if p2 == blen && f == 0 {
            return Ok(Message::RebuildComplete(None));
        }
        return Err(bad);
    }
    if tag == 12 && n == 3 {
        let (f, p2) = match get_i64(bytes, p1) {
            Some(x) => x,
            None => {
                return Err(bad);
            },
        };
        if f != 1 {
            return Err(bad);
        }
        let (s, p3) = match get_str(bytes, p2) {
            Some(x) => x,
            None => {
                return Err(bad);
            },
        };
        if p3 == blen {
            return Ok(Message::RebuildComplete(Some(s)));
        }
        return Err(bad);
    }
    Err(bad)
}

/// The eight length bytes put before a message body.
pub open spec fn enc_frame_len(n: nat) -> Seq<u8>
    recommends
        n <= u64::MAX,
{
    spec_u64_to_le_bytes(n as u64)
}

/// Frames a message body: the body's length, little endian, then the body.
pub fn frame_body(body: Vec<u8>) -> (r: Vec<u8>)
    ensures
        r@ =~= enc_frame_len(body@.len() as nat) + body@,
{
    let mut out = u64_to_le_bytes(body.len() as u64);
    let mut b = body;
    out.append(&mut b);
    out
}

/// Reads a frame length from its eight little-endian bytes.
pub fn read_frame_len(hdr: &[u8]) -> (r: u64)
    requires
        hdr@.len() == 8,
    ensures
        r == spec_u64_from_le_bytes(hdr@),
        enc_frame_len(r as nat) =~= hdr@,
{
    proof {
        lemma_auto_spec_u64_to_from_le_bytes();
    }
    u64_from_le_bytes(hdr)
}

/// Encodes and frames a message in one step.
pub fn frame_message(m: &Message) -> (r: Result<Vec<u8>, Error>)
    ensures
        r matches Ok(v) ==> msg_ok(m@) && v@ =~= enc_frame_len(enc_msg(m@).len() as nat) + enc_msg(
            m@,
        ),
        r matches Err(e) ==> !msg_ok(m@) && e.kind == ErrorKind::Generic,
{
    let body = match encode_message(m) {
        Ok(b) => b,
        Err(e) => {
            return Err(e);
        },
    };
    Ok(frame_body(body))
}

} // verus!
