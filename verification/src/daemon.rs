//! The daemon's request dispatch and its background-sync schedule.
//!
//! The surrounding process accepts connections, reads frames and performs
//! socket, file and git work; every decision — what a request does to the
//! history and what goes back — is made here.

use vstd::prelude::*;

use crate::entry::{views, EntryV};
use crate::history::{spec_new_entry, History};
use crate::merge::merged_of;
use crate::protocol::{Message, MessageV};

verus! {

/// What the surrounding process must do after a request was handled.
#[derive(Debug, Clone, Copy, PartialEq, Eq, Structural)]
pub enum Action {
    /// Nothing beyond sending the replies.
    Stay,
    /// Run a sync; true forces a push.
    RunSync(bool),
    /// Remove the socket, optionally save, and exit; true skips the save.
    Quit(bool),
    /// Run the full rewrite on a worker, streaming progress lines.
    RunRebuild,
}

/// The replies to send, in order, and what to do next.
#[derive(Debug)]
pub struct Reply {
    pub responses: Vec<Message>,
    pub action: Action,
}

/// The merged view gained exactly one fresh entry with these fields, at
/// some accepted time.
pub open spec fn stored_entry(
    pre: Seq<EntryV>,
    post: Seq<EntryV>,
    id: u128,
    host: Seq<char>,
    cmd: Seq<char>,
    session: Seq<char>,
) -> bool {
    exists|t: int|
        post == pre.push(#[trigger] spec_new_entry(t, id, host, cmd, Seq::empty(), session))
}

/// Whether any clock reading can still place a new entry: the watermark
/// and the last merged entry must leave room above them.
pub open spec fn spec_can_place(h: History) -> bool {
    &&& h.last_write < i64::MAX
    &&& views(h.merged@).len() > 0 ==> views(h.merged@).last().ts < i64::MAX
}

/// The entries gained exactly one edit or tombstone with these fields,
/// at some accepted time.
pub open spec fn edited_entry(
    pre: vstd::multiset::Multiset<EntryV>,
    post: vstd::multiset::Multiset<EntryV>,
    id: u128,
    host: Seq<char>,
    cmd: Seq<char>,
    session: Seq<char>,
) -> bool {
    exists|t: int|
        post == pre.insert(#[trigger] spec_new_entry(t, id, host, cmd, Seq::empty(), session))
}

/// Whether the merged view holds an entry with this id.
pub open spec fn spec_id_known(h: History, id: u128) -> bool {
    exists|k: int| 0 <= k < views(h.merged@).len() && (#[trigger] views(h.merged@)[k]).id == id
}

/// A clock reading moved forward until the history accepts it: past the
/// watermark and past every merged entry. Nothing exactly when the
/// history has run out of time itself.
pub fn usable_now(h: &History, now: i64) -> (r: Option<i64>)
    requires
        h.wf(),
    ensures
        r matches Some(t) ==> h.accepts_now(t as int) && t >= now,
        r is Some <==> spec_can_place(*h),
{
    let mut t = now;
    if t <= h.last_write {
        if h.last_write == i64::MAX {
            return None;
        }
        t = h.last_write + 1;
    }
    let n = h.merged.len();
    if n > 0 {
        let last_ts = h.merged[n - 1].ts;
        proof {
            assert(views(h.merged@).last() == h.merged@[n - 1]@);
        }
        if t <= last_ts {
            if last_ts == i64::MAX {
                return None;
            }
            t = last_ts + 1;
        }
    }
    Some(t)
}

/// Handles one request against the history. Requests that need the sync
/// backend or the process itself come back as actions; the rest are
/// answered from the history alone.
#[verifier::spinoff_prover]
#[verifier::rlimit(100)]
pub fn handle_request(h: &mut History, req: Message, now: i64, fresh_id: u128) -> (r: Reply)
    requires
        old(h).wf(),
    ensures
        final(h).wf(),
        final(h).host@ == old(h).host@,
        req@ matches MessageV::Store { cmd, session } ==> r.action == Action::Stay
            && r.responses@.len() == 1 && (spec_can_place(*old(h)) ==> r.responses@[0]@ is Ack
            && stored_entry(
            views(old(h).merged@),
            views(final(h).merged@),
            fresh_id,
            old(h).host@,
            cmd,
            session,
        )) && (!spec_can_place(*old(h)) ==> r.responses@[0]@ is ProtocolError && *final(h) == *old(
            h,
        )),
        req@ is HistoryRequest ==> *final(h) == *old(h) && r.responses@.len() == 1 && (r.responses@[0]@
            matches MessageV::History(es) && es == views(final(h).merged@)) && r.action == Action::Stay,
        req@ is Ping ==> *final(h) == *old(h) && r.responses@.len() == 1 && r.responses@[0]@ is Pong
            && r.action == Action::Stay,
        req@ matches MessageV::Update { id, cmd, session } ==> r.action == Action::Stay
            && r.responses@.len() == 1 && (spec_can_place(*old(h)) && spec_id_known(*old(h), id)
            ==> r.responses@[0]@ is Ack && views(final(h).merged@) == merged_of(
            final(h).all_entries(),
        ) && edited_entry(
            old(h).all_entries().to_multiset(),
            final(h).all_entries().to_multiset(),
            id,
            old(h).host@,
            cmd,
            session,
        )) && (spec_can_place(*old(h)) && !spec_id_known(*old(h), id) ==> r.responses@[0]@
            is ProtocolError && *final(h) == *old(h)) && (!spec_can_place(*old(h))
            ==> r.responses@[0]@ is ProtocolError && *final(h) == *old(h)),
        req@ matches MessageV::Sync(f) ==> *final(h) == *old(h) && r.responses@.len() == 0 && r.action
            == Action::RunSync(f),
        req@ matches MessageV::Exit(n) ==> *final(h) == *old(h) && r.responses@.len() == 1
            && r.responses@[0]@ is Ack && r.action == Action::Quit(n),
        req@ is Rebuild ==> *final(h) == *old(h) && r.responses@.len() == 0 && r.action
            == Action::RunRebuild,
        (req@ is Ack || req@ is Pong || req@ is ProtocolError || req@ is History
            || req@ is RebuildStatus || req@ is RebuildComplete) ==> *final(h) == *old(h)
            && r.responses@.len() == 1 && r.responses@[0]@ is ProtocolError && r.action
            == Action::Stay,
{
    match req {
        Message::Store { cmd, session } => {
            let mut responses: Vec<Message> = Vec::new();
            match usable_now(h, now) {
                Some(t) => {
                    let ghost h0 = *h;
                    let ghost cmdv = cmd@;
                    let ghost sessionv = session@;
                    h.add(t, fresh_id, cmd, String::new(), session);
                    proof {
                        assert(views(h.merged@) == views(h0.merged@).push(
                            spec_new_entry(
                                t as int,
                                fresh_id,
                                h0.host@,
                                cmdv,
                                Seq::empty(),
                                sessionv,
                            ),
                        ));
                        assert(stored_entry(
                            views(h0.merged@),
                            views(h.merged@),
                            fresh_id,
                            h0.host@,
                            cmdv,
                            sessionv,
                        ));
                    }
                    responses.push(Message::Ack);
                },
                None => {
                    responses.push(
                        Message::ProtocolError(String::from_str("cannot place entry in time")),
                    );
                },
            }
            Reply { responses, action: Action::Stay }
        },
        Message::HistoryRequest => {
            let mut responses: Vec<Message> = Vec::new();
            responses.push(Message::History(h.history()));
            Reply { responses, action: Action::Stay }
        },
        Message::Ping => {
            let mut responses: Vec<Message> = Vec::new();
            responses.push(Message::Pong);
            Reply { responses, action: Action::Stay }
        },
        Message::Update { id, cmd, session } => {
            let mut responses: Vec<Message> = Vec::new();
            match usable_now(h, now) {
                Some(t) => {
                    let ghost h0 = *h;
                    let ghost cmdv = cmd@;
                    let ghost sessionv = session@;
                    match h.update(t, id, cmd, session) {
                        Ok(()) => {
                            proof {
                                assert(h.all_entries().to_multiset()
                                    == h0.all_entries().to_multiset().insert(
                                    spec_new_entry(
                                        t as int,
                                        id,
                                        h0.host@,
                                        cmdv,
                                        Seq::empty(),
                                        sessionv,
                                    ),
                                ));
                                assert(edited_entry(
                                    h0.all_entries().to_multiset(),
                                    h.all_entries().to_multiset(),
                                    id,
                                    h0.host@,
                                    cmdv,
                                    sessionv,
                                ));
                            }
                            responses.push(Message::Ack);
                        },
                        Err(e) => {
                            responses.push(Message::ProtocolError(e.message()));
                        },
                    }
                },
                None => {
                    responses.push(
                        Message::ProtocolError(String::from_str("cannot place entry in time")),
                    );
                },
            }
            Reply { responses, action: Action::Stay }
        },
        Message::Sync(force) => {
            Reply { responses: Vec::new(), action: Action::RunSync(force) }
        },
        Message::Exit(no_sync) => {
            let mut responses: Vec<Message> = Vec::new();
            responses.push(Message::Ack);
            Reply { responses, action: Action::Quit(no_sync) }
        },
        Message::Rebuild => {
            Reply { responses: Vec::new(), action: Action::RunRebuild }
        },
        _ => {
            let mut responses: Vec<Message> = Vec::new();
            responses.push(Message::ProtocolError(String::from_str("unknown request")));
            Reply { responses, action: Action::Stay }
        },
    }
}

/// How long to sleep until the next boundary of the sync interval, so
/// that hosts sync on the same wall-clock grid: the wait lands exactly on
/// a multiple of the interval and is never zero.
pub fn next_sync_wait(now: i64, interval_secs: u64) -> (r: Option<i64>)
    requires
        interval_secs > 0,
        interval_secs <= 0x2_0000_0000,
        now >= 0,
    ensures
        r matches Some(w) ==> 0 < w <= interval_secs * 1_000_000 && ((now + w) as int) % (
        interval_secs * 1_000_000) as int == 0,
        r is None ==> now + interval_secs * 1_000_000 > i64::MAX,
{
    let iv: i64 = (interval_secs as i64) * 1_000_000;
    let rem = now % iv;
    proof {
        assert(iv == interval_secs * 1_000_000);
        assert(0 <= now % iv < iv) by (nonlinear_arith)
            requires
                now >= 0,
                iv > 0,
        ;
    }
    let w = iv - rem;
    if now > i64::MAX - iv {
        return None;
    }
    proof {
        assert(((now as int) + ((iv as int) - (now as int) % (iv as int))) % (iv as int)
            == 0) by (nonlinear_arith)
            requires
                now as int >= 0,
                iv as int > 0,
        ;
    }
    Some(w)
}

} // verus!
