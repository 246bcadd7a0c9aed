//! The client side of the protocol: what each subcommand sends, and how
//! it reads the daemon's replies. The surrounding process owns the socket
//! and moves the bytes.

use vstd::prelude::*;

use crate::entry::{views, Entry, EntryV};
use crate::errors::{Error, ErrorKind};
use crate::protocol::{enc_frame_len, enc_msg, frame_message, Message, MessageV};

verus! {

/// Arguments of the get subcommand: one entry by index or id.
#[derive(Debug)]
pub struct GetArgs {
    /// Interpret `entry` as an id instead of an index.
    pub id: bool,
    /// The index or id text to look up.
    pub entry: String,
}

/// Arguments of the import subcommand.
#[derive(Debug)]
pub struct ImportArgs {
    /// Read from this file instead of the standard input.
    pub file: Option<String>,
    /// Attribute imported commands to the current session.
    pub current_session: bool,
}

/// Arguments of the save subcommand.
#[derive(Debug)]
pub struct SaveArgs {
    /// Write to this file instead of the standard output.
    pub file: Option<String>,
    /// Export every host's commands, not only this host's.
    pub all_hosts: bool,
}

/// Arguments of the load subcommand.
#[derive(Debug)]
pub struct LoadArgs {
    /// Read from this file instead of the standard input.
    pub file: Option<String>,
    /// Import saved commands of every host, not only this host's.
    pub all_hosts: bool,
}

/// Arguments of the move subcommand.
#[derive(Debug)]
pub struct MoveArgs {
    /// Prefix the output with the entry's id.
    pub with_id: bool,
    /// Keep only the most recent occurrence of each command.
    pub no_duplicates: bool,
    /// How far to move, negative values going back in time.
    pub distance: i64,
    /// The id to start from; the end of the history when absent.
    pub start: Option<u128>,
}

/// The framed request that stores one command, or nothing for an empty
/// command, which is not worth a connection.
pub fn store(cmd: String, session: String) -> (r: Result<Option<Vec<u8>>, Error>)
    ensures
        r matches Ok(o) ==> (match o {
            None => cmd@.len() == 0,
            Some(v) => cmd@.len() > 0 && v@ == enc_frame_len(
                enc_msg(MessageV::Store { cmd: cmd@, session: session@ }).len() as nat,
            ) + enc_msg(MessageV::Store { cmd: cmd@, session: session@ }),
        }),
        r matches Err(e) ==> e.kind == ErrorKind::Generic,
{
    if cmd.as_str().is_empty() {
        return Ok(None);
    }
    let m = Message::Store { cmd, session };
    match frame_message(&m) {
        Ok(v) => Ok(Some(v)),
        Err(e) => Err(e),
    }
}

/// The framed request that stops the daemon.
pub fn stop_server(no_sync: bool) -> (r: Result<Vec<u8>, Error>)
    ensures
        r matches Ok(v) ==> v@ == enc_frame_len(enc_msg(MessageV::Exit(no_sync)).len() as nat)
            + enc_msg(MessageV::Exit(no_sync)),
        r is Err ==> false,
{
    frame_message(&Message::Exit(no_sync))
}

/// The framed request that asks for a sync.
pub fn sync(force: bool) -> (r: Result<Vec<u8>, Error>)
    ensures
        r matches Ok(v) ==> v@ == enc_frame_len(enc_msg(MessageV::Sync(force)).len() as nat)
            + enc_msg(MessageV::Sync(force)),
        r is Err ==> false,
{
    frame_message(&Message::Sync(force))
}

/// The framed liveness probe.
pub fn ping() -> (r: Result<Vec<u8>, Error>)
    ensures
        r matches Ok(v) ==> v@ == enc_frame_len(enc_msg(MessageV::Ping).len() as nat) + enc_msg(
            MessageV::Ping,
        ),
        r is Err ==> false,
{
    frame_message(&Message::Ping)
}

/// The framed request that asks for a full rewrite.
pub fn rebuild() -> (r: Result<Vec<u8>, Error>)
    ensures
        r matches Ok(v) ==> v@ == enc_frame_len(enc_msg(MessageV::Rebuild).len() as nat) + enc_msg(
            MessageV::Rebuild,
        ),
        r is Err ==> false,
{
    frame_message(&Message::Rebuild)
}

/// The framed request that asks for the merged history.
pub fn history_request() -> (r: Result<Vec<u8>, Error>)
    ensures
        r matches Ok(v) ==> v@ == enc_frame_len(enc_msg(MessageV::HistoryRequest).len() as nat)
            + enc_msg(MessageV::HistoryRequest),
        r is Err ==> false,
{
    frame_message(&Message::HistoryRequest)
}

/// One framed tombstone request per id to delete.
pub fn delete(ids: &Vec<u128>, session: &String) -> (r: Result<Vec<Vec<u8>>, Error>)
    ensures
        r matches Ok(v) ==> v@.len() == ids@.len() && forall|i: int|
            0 <= i < ids@.len() ==> (#[trigger] v@[i])@ == enc_frame_len(
                enc_msg(
                    MessageV::Update { id: ids@[i], cmd: Seq::empty(), session: session@ },
                ).len() as nat,
            ) + enc_msg(MessageV::Update { id: ids@[i], cmd: Seq::empty(), session: session@ }),
        r matches Err(e) ==> e.kind == ErrorKind::Generic,
{
    let mut out: Vec<Vec<u8>> = Vec::new();
    let mut i: usize = 0;
    while i < ids.len()
        invariant
            i <= ids@.len(),
            out@.len() == i,
            forall|k: int|
                0 <= k < i ==> (#[trigger] out@[k])@ == enc_frame_len(
                    enc_msg(
                        MessageV::Update {
                            id: ids@[k],
                            cmd: Seq::empty(),
                            session: session@,
                        },
                    ).len() as nat,
                ) + enc_msg(
                    MessageV::Update { id: ids@[k], cmd: Seq::empty(), session: session@ },
                ),
        decreases ids@.len() - i,
    {
        let m = Message::Update { id: ids[i], cmd: String::new(), session: session.clone() };
        let framed = match frame_message(&m) {
            Ok(v) => v,
            Err(e) => {
                return Err(e);
            },
        };
        out.push(framed);
        i = i + 1;
    }
    Ok(out)
}

/// Reads a plain acknowledgement reply.
pub fn ack_reply(m: &Message) -> (r: Result<(), Error>)
    ensures
        r is Ok <==> m@ is Ack,
        r matches Err(e) ==> e.kind == ErrorKind::Generic,
{
    match m {
        Message::Ack => Ok(()),
        Message::ProtocolError(s) => Err(Error::with_detail(ErrorKind::Generic, s.clone())),
        _ => Err(Error::of(ErrorKind::Generic)),
    }
}

/// Reads a pong reply.
pub fn pong_reply(m: &Message) -> (r: Result<(), Error>)
    ensures
        r is Ok <==> m@ is Pong,
        r matches Err(e) ==> e.kind == ErrorKind::Generic,
{
    match m {
        Message::Pong => Ok(()),
        Message::ProtocolError(s) => Err(Error::with_detail(ErrorKind::Generic, s.clone())),
        _ => Err(Error::of(ErrorKind::Generic)),
    }
}

/// Reads a history reply.
pub fn history_reply(m: Message) -> (r: Result<Vec<Entry>, Error>)
    ensures
        r matches Ok(v) ==> (m@ matches MessageV::History(h) && views(v@) == h),
        r matches Err(e) ==> !(m@ is History) && e.kind == ErrorKind::Generic,
{
    match m {
        Message::History(es) => Ok(es),
        Message::ProtocolError(s) => Err(Error::with_detail(ErrorKind::Generic, s)),
        _ => Err(Error::of(ErrorKind::Generic)),
    }
}

/// One step of reading a rewrite's streamed replies.
#[derive(Debug)]
pub enum RebuildStep {
    /// A progress line; keep reading.
    Progress(String),
    /// The rewrite finished well.
    Done,
    /// The rewrite failed with this reason.
    Failed(String),
    /// A reply that does not belong to a rewrite.
    Unexpected,
}

/// Sorts one reply of a running rewrite.
pub fn rebuild_step(m: Message) -> (r: RebuildStep)
    ensures
        m@ matches MessageV::RebuildStatus(s) ==> (r matches RebuildStep::Progress(p) && p@ == s),
        m@ == MessageV::RebuildComplete(None::<Seq<char>>) ==> r is Done,
        m@ matches MessageV::RebuildComplete(Some(s)) ==> (r matches RebuildStep::Failed(f)
            && f@ == s),
        r is Unexpected ==> !(m@ is RebuildStatus) && !(m@ is RebuildComplete),
{
    match m {
        Message::RebuildStatus(s) => RebuildStep::Progress(s),
        Message::RebuildComplete(o) => match o {
            None => RebuildStep::Done,
            Some(s) => RebuildStep::Failed(s),
        },
        _ => RebuildStep::Unexpected,
    }
}

/// The first entry carrying an id, if any.
pub fn find_by_id(history: &Vec<Entry>, id: u128) -> (r: Option<Entry>)
    ensures
        r matches Some(e) ==> (exists|k: int|
            0 <= k < views(history@).len() && views(history@)[k] == e@ && e@.id == id),
        r is None ==> forall|k: int|
            0 <= k < views(history@).len() ==> (#[trigger] views(history@)[k]).id != id,
{
    let mut k: usize = 0;
    while k < history.len()
        invariant
            k <= history@.len(),
            forall|m: int| 0 <= m < k ==> (#[trigger] views(history@)[m]).id != id,
        decreases history@.len() - k,
    {
        if history[k].id == id {
            proof {
                assert(views(history@)[k as int].id == id);
            }
            return Some(history[k].duplicate());
        }
        k = k + 1;
    }
    None
}

/// The entry at an index, if the index is in range.
pub fn nth_entry(history: &Vec<Entry>, idx: usize) -> (r: Option<Entry>)
    ensures
        r matches Some(e) ==> idx < history@.len() && e@ == views(history@)[idx as int],
        r is None ==> idx >= history@.len(),
{
    if idx < history.len() {
        Some(history[idx].duplicate())
    } else {
        None
    }
}

/// An entry survives deduplication when no later entry runs the same
/// command.
pub open spec fn spec_dedup(s: Seq<EntryV>) -> Seq<EntryV>
    decreases s.len(),
{
    if s.len() == 0 {
        Seq::empty()
    } else if exists|j: int| 1 <= j < s.len() && (#[trigger] s[j]).cmd == s[0].cmd {
        spec_dedup(s.drop_first())
    } else {
        seq![s[0]] + spec_dedup(s.drop_first())
    }
}

/// Keeps the most recent occurrence of each command, in order.
pub fn remove_duplicates(history: &Vec<Entry>) -> (r: Vec<Entry>)
    ensures
        views(r@) == spec_dedup(views(history@)),
{
    let ghost hv = views(history@);
    let mut out: Vec<Entry> = Vec::new();
    let mut i: usize = 0;
    proof {
        assert(hv.skip(0) =~= hv);
        assert(views(out@) =~= Seq::<EntryV>::empty());
    }
    while i < history.len()
        invariant
            i <= history@.len(),
            hv == views(history@),
            spec_dedup(hv) == views(out@) + spec_dedup(hv.skip(i as int)),
        decreases history@.len() - i,
    {
        proof {
            assert(hv.skip(i as int)[0] == hv[i as int]);
            assert(hv.skip(i as int).drop_first() =~= hv.skip(i + 1));
        }
        let mut dup_later = false;
        let mut j: usize = i + 1;
        while j < history.len() && !(history[j].cmd == history[i].cmd)
            invariant
                i < j <= history@.len(),
                hv == views(history@),
                forall|m: int| i < m < j ==> (#[trigger] hv[m]).cmd != hv[i as int].cmd,
            decreases history@.len() - j,
        {
            j = j + 1;
        }
        dup_later = j < history.len();
        proof {
            let tail = hv.skip(i as int);
            if dup_later {
                assert(hv[j as int].cmd == hv[i as int].cmd);
                assert(tail[j - i] == hv[j as int]);
                assert(1 <= j - i < tail.len() && tail[j - i].cmd == tail[0].cmd);
                assert(spec_dedup(tail) == spec_dedup(hv.skip(i + 1)));
            } else {
                assert forall|m: int| 1 <= m < tail.len() implies (#[trigger] tail[m]).cmd
                    != tail[0].cmd by {
                    assert(tail[m] == hv[i + m]);
                }
                assert(spec_dedup(tail) == seq![tail[0]] + spec_dedup(hv.skip(i + 1)));
            }
        }
        if !dup_later {
            out.push(history[i].duplicate());
            proof {
                let pre = views(out@).drop_last();
                assert(views(out@) =~= pre.push(hv[i as int]));
                assert(pre + (seq![hv[i as int]] + spec_dedup(hv.skip(i + 1))) =~= views(out@)
                    + spec_dedup(hv.skip(i + 1)));
            }
        }
        i = i + 1;
    }
    proof {
        assert(hv.skip(history@.len() as int) =~= Seq::<EntryV>::empty());
        assert(spec_dedup(Seq::<EntryV>::empty()) =~= Seq::<EntryV>::empty());
        assert(views(out@) + Seq::<EntryV>::empty() =~= views(out@));
    }
    out
}

/// Where a relative move through the history lands: from the entry with
/// the start id — or one past the end — moved by `distance`, after
/// optional deduplication. Nothing when it lands past the end.
pub fn move_target(history: &Vec<Entry>, args: &MoveArgs) -> (r: Option<Entry>)
    ensures
        r matches Some(e) ==> (args.no_duplicates ==> exists|w: int|
            0 <= w < spec_dedup(views(history@)).len() && spec_dedup(views(history@))[w] == e@)
            && (!args.no_duplicates ==> exists|w: int|
            0 <= w < views(history@).len() && views(history@)[w] == e@),
{
    let working: Vec<Entry> = if args.no_duplicates {
        remove_duplicates(history)
    } else {
        crate::entry::duplicate_entries(history)
    };
    let n = working.len();
    let start: usize = match args.start {
        Some(id) => {
            let mut k: usize = 0;
            while k < n && !(working[k].id == id)
                invariant
                    k <= n,
                    n == working@.len(),
                decreases n - k,
            {
                k = k + 1;
            }
            k
        },
        None => n,
    };
    let want: i128 = (start as i128) + (args.distance as i128);
    if want < 0 || want >= (n as i128) {
        return None;
    }
    let w = want as usize;
    proof {
        assert(0 <= want < n as i128);
    }
    let e = working[w].duplicate();
    proof {
        assert(views(working@)[w as int] == e@);
        if args.no_duplicates {
            assert(views(working@) == spec_dedup(views(history@)));
            assert(spec_dedup(views(history@))[w as int] == e@);
        } else {
            assert(views(working@) == views(history@));
            assert(views(history@)[w as int] == e@);
        }
    }
    Some(e)
}

} // verus!
