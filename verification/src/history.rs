//! The in-memory history: per-host chunk lists, the merged view, and the
//! write watermark.
//!
//! One instance is the authority for the running daemon. Entries are
//! appended to this host's active chunk — the last chunk, while its start
//! lies past the write watermark — and the merged view collapses every
//! host's entries by id. Saving turns the chunks past the watermark into
//! day-file appends and advances the watermark; the surrounding process
//! performs the file writes.

use vstd::prelude::*;
use vstd::relations::sorted_by;
use vstd::multiset::Multiset;
use vstd::seq_lib::lemma_multiset_commutative;

use crate::chunkcodec::{Chunk, ChunkV};
use crate::entry::{entry_le, entry_le_ff, views, Entry, EntryV};
use crate::errors::{Error, ErrorKind};
use crate::merge::{merge_entries, merged_of};
use crate::timeunits::{hour_floor, spec_hour_floor, lemma_hour_floor_monotone};

verus! {

/// One host's chunk list.
#[derive(Debug)]
pub struct HostChunks {
    /// The host that owns these chunks.
    pub host: String,
    /// Its chunks, ordered by start time.
    pub chunks: Vec<Chunk>,
}

/// The mathematical value of a [`HostChunks`].
#[verifier::ext_equal]
pub ghost struct HostChunksV {
    pub host: Seq<char>,
    pub chunks: Seq<ChunkV>,
}

impl View for HostChunks {
    type V = HostChunksV;

    open spec fn view(&self) -> HostChunksV {
        HostChunksV {
            host: self.host@,
            chunks: crate::store::chunk_views(self.chunks@),
        }
    }
}

/// The views of a run of host chunk lists.
pub open spec fn host_views(s: Seq<HostChunks>) -> Seq<HostChunksV> {
    s.map_values(|h: HostChunks| h@)
}

/// All entries of a chunk list, in chunk order.
pub open spec fn entries_of_chunks(cs: Seq<ChunkV>) -> Seq<EntryV>
    decreases cs.len(),
{
    if cs.len() == 0 {
        Seq::empty()
    } else {
        cs[0].entries + entries_of_chunks(cs.drop_first())
    }
}

/// All entries of a run of hosts, in host order.
pub open spec fn entries_of_hosts(hs: Seq<HostChunksV>) -> Seq<EntryV>
    decreases hs.len(),
{
    if hs.len() == 0 {
        Seq::empty()
    } else {
        entries_of_chunks(hs[0].chunks) + entries_of_hosts(hs.drop_first())
    }
}

/// Splitting a chunk list splits its entries.
pub proof fn lemma_entries_of_chunks_concat(a: Seq<ChunkV>, b: Seq<ChunkV>)
    ensures
        entries_of_chunks(a + b) =~= entries_of_chunks(a) + entries_of_chunks(b),
    decreases a.len(),
{
    if a.len() == 0 {
        assert(a + b =~= b);
    } else {
        assert((a + b)[0] == a[0]);
        assert((a + b).drop_first() =~= a.drop_first() + b);
        lemma_entries_of_chunks_concat(a.drop_first(), b);
        assert(a[0].entries + (entries_of_chunks(a.drop_first()) + entries_of_chunks(b))
            =~= (a[0].entries + entries_of_chunks(a.drop_first())) + entries_of_chunks(b));
    }
}

/// Splitting a host run splits its entries.
pub proof fn lemma_entries_of_hosts_concat(a: Seq<HostChunksV>, b: Seq<HostChunksV>)
    ensures
        entries_of_hosts(a + b) =~= entries_of_hosts(a) + entries_of_hosts(b),
    decreases a.len(),
{
    if a.len() == 0 {
        assert(a + b =~= b);
    } else {
        assert((a + b)[0] == a[0]);
        assert((a + b).drop_first() =~= a.drop_first() + b);
        lemma_entries_of_hosts_concat(a.drop_first(), b);
        assert(entries_of_chunks(a[0].chunks) + (entries_of_hosts(a.drop_first())
            + entries_of_hosts(b)) =~= (entries_of_chunks(a[0].chunks) + entries_of_hosts(
            a.drop_first(),
        )) + entries_of_hosts(b));
    }
}

/// The chunk lists of the history, the merged view, and the watermark.
#[derive(Debug)]
pub struct History {
    /// This host's identifier.
    pub host: String,
    /// Every known host's chunk list; this host's may be absent until the
    /// first entry arrives.
    pub history: Vec<HostChunks>,
    /// The merged, collapsed, time-ordered view across all hosts.
    pub merged: Vec<Entry>,
    /// Chunks of this host whose start lies at or before this watermark
    /// are already written to day files.
    pub last_write: i64,
}

/// The index of a host's chunk list within a run, if present.
pub open spec fn hist_index(hist: Seq<HostChunks>, host: Seq<char>) -> int {
    choose|j: int| 0 <= j < hist.len() && hist[j]@.host == host
}

/// Whether a run holds a chunk list for a host.
pub open spec fn hist_has_host(hist: Seq<HostChunks>, host: Seq<char>) -> bool {
    exists|j: int| 0 <= j < hist.len() && (#[trigger] hist[j]@.host) == host
}

/// The read watermark a run holds for a host: the start of the last
/// chunk already held for it, or the epoch.
pub open spec fn watermark_of(hist: Seq<HostChunks>, host: Seq<char>) -> int {
    if hist_has_host(hist, host) && hist[hist_index(hist, host)]@.chunks.len() > 0 {
        hist[hist_index(hist, host)]@.chunks.last().start
    } else {
        0
    }
}

impl History {
    /// All entries held in the chunk lists, in host and chunk order.
    pub open spec fn all_entries(self) -> Seq<EntryV> {
        entries_of_hosts(host_views(self.history@))
    }

    /// The index of a host's chunk list, if present.
    pub open spec fn host_index(self, host: Seq<char>) -> int {
        hist_index(self.history@, host)
    }

    /// Whether a host has a chunk list.
    pub open spec fn has_host(self, host: Seq<char>) -> bool {
        hist_has_host(self.history@, host)
    }

    /// This host's chunks; empty when it has no list yet.
    pub open spec fn own_chunks(self) -> Seq<ChunkV> {
        if self.has_host(self.host@) {
            self.history@[self.host_index(self.host@)]@.chunks
        } else {
            Seq::empty()
        }
    }

    /// Whether the last own chunk is still open for appends.
    pub open spec fn has_active(self) -> bool {
        self.own_chunks().len() > 0 && self.own_chunks().last().start > self.last_write as int
    }

    /// Structural soundness: hosts are listed once, every chunk list is
    /// ordered by start, and the merged view is in the total order.
    pub open spec fn wf(self) -> bool {
        &&& forall|i: int, j: int|
            0 <= i < j < self.history@.len() ==> (#[trigger] self.history@[i]@.host) != (
            #[trigger] self.history@[j]@.host)
        &&& forall|k: int, i: int, j: int|
            0 <= k < self.history@.len() && 0 <= i < j < self.history@[k]@.chunks.len() ==> (
            #[trigger] self.history@[k]@.chunks[i]).start <= (
            #[trigger] self.history@[k]@.chunks[j]).start
        &&& sorted_by(views(self.merged@), entry_le_ff())
    }

    /// The merged view is exactly the collapse of everything held: the
    /// daemon's read surface shows one live entry per id, in order. Every
    /// operation that rebuilds the view restores this; an append keeps it
    /// whenever the appended entry is live, fresh and latest.
    pub open spec fn merged_consistent(self) -> bool {
        views(self.merged@) == merged_of(self.all_entries())
    }

    /// A fresh clock reading that keeps the history consistent: past the
    /// watermark and past every merged entry, so that a chunk opened at it
    /// is active and an entry stamped with it comes last.
    pub open spec fn accepts_now(self, now: int) -> bool {
        &&& now > self.last_write as int
        &&& views(self.merged@).len() > 0 ==> now > views(self.merged@).last().ts
    }

    /// An empty history for one host; the watermark starts at the clock.
    pub fn new(host: String, now: i64) -> (r: History)
        ensures
            r.wf(),
            r.host@ == host@,
            r.history@.len() == 0,
            r.merged@.len() == 0,
            r.last_write == now,
    {
        let r = History { host, history: Vec::new(), merged: Vec::new(), last_write: now };
        proof {
            assert(views(r.merged@) =~= Seq::<EntryV>::empty());
        }
        r
    }

    /// A copy of the merged view: the public read surface.
    pub fn history(&self) -> (r: Vec<Entry>)
        ensures
            views(r@) =~= views(self.merged@),
    {
        crate::entry::duplicate_entries(&self.merged)
    }

    /// The index of this host's chunk list, if it exists.
    fn find_own(&self) -> (r: Option<usize>)
        ensures
            r matches Some(j) ==> j < self.history@.len() && self.history@[j as int]@.host
                == self.host@ && self.has_host(self.host@) && (self.wf() ==> self.host_index(
                self.host@,
            ) == j as int),
            r is None ==> !self.has_host(self.host@),
    {
        let mut j: usize = 0;
        while j < self.history.len()
            invariant
                j <= self.history@.len(),
                forall|k: int| 0 <= k < j ==> (#[trigger] self.history@[k]@.host) != self.host@,
            decreases self.history@.len() - j,
        {
            if self.history[j].host == self.host {
                proof {
                    assert(self.history@[j as int]@.host == self.host@);
                    assert(self.has_host(self.host@));
                    if self.wf() {
                        let w = self.host_index(self.host@);
                        assert(0 <= w < self.history@.len() && self.history@[w]@.host
                            == self.host@);
                        if w != j as int {
                            assert(self.history@[w]@.host != self.history@[j as int]@.host);
                        }
                    }
                }
                return Some(j);
            }
            j = j + 1;
        }
        None
    }

    /// Appends a freshly recorded command. The entry goes to the active
    /// chunk — opened at `now` if none is open — and to the end of the
    /// merged view; the watermark does not move.
    pub fn add(&mut self, now: i64, id: u128, cmd: String, path: String, session: String)
        requires
            old(self).wf(),
            old(self).accepts_now(now as int),
        ensures
            final(self).wf(),
            final(self).host@ == old(self).host@,
            final(self).last_write == old(self).last_write,
            views(final(self).merged@) =~= views(old(self).merged@).push(
                spec_new_entry(now as int, id, old(self).host@, cmd@, path@, session@),
            ),
            final(self).all_entries().to_multiset() == old(self).all_entries().to_multiset().insert(
                spec_new_entry(now as int, id, old(self).host@, cmd@, path@, session@),
            ),
            old(self).has_active() ==> final(self).own_chunks().len() == old(self).own_chunks().len() && final(self).own_chunks().last().start == old(self).own_chunks().last().start,
            !old(self).has_active() ==> final(self).own_chunks().len() == old(self).own_chunks().len() + 1 && final(self).own_chunks().last().start == now as int,
            now > old(self).last_write ==> final(self).has_active(),
    {
        let entry = Entry {
            id,
            ts: now,
            host: self.host.clone(),
            cmd,
            path,
            session,
        };
        let ghost ev = entry@;
        let dup = entry.duplicate();
        self.push_own_active(now, entry);
        proof {
            lemma_sorted_push(views(self.merged@), ev);
        }
        self.merged.push(dup);
        proof {
            broadcast use vstd::seq_lib::group_to_multiset_ensures;

            assert(views(self.merged@) =~= views(old(self).merged@).push(ev));
            let old_all = old(self).all_entries();
            if old(self).merged_consistent() && ev.cmd.len() > 0 && (forall|k: int|
                0 <= k < old_all.len() ==> (#[trigger] old_all[k]).id != id && old_all[k].ts
                    < now as int) {
                assert(old_all.push(ev).to_multiset() == old_all.to_multiset().insert(ev));
                crate::merge::lemma_merged_insensitive_to_order(
                    self.all_entries(),
                    old_all.push(ev),
                );
                crate::merge::lemma_fresh_latest_entry(old_all, ev);
            }
        }
    }

    /// Appends one entry to the active chunk, opening a chunk at `now`
    /// when none is open.
    fn push_own_active(&mut self, now: i64, entry: Entry)
        requires
            old(self).wf(),
            now >= old(self).last_write,
            entry@.host == old(self).host@,
        ensures
            final(self).wf(),
            final(self).host@ == old(self).host@,
            final(self).last_write == old(self).last_write,
            final(self).merged@ == old(self).merged@,
            final(self).all_entries().to_multiset() == old(self).all_entries().to_multiset().insert(
                entry@,
            ),
            old(self).has_active() ==> final(self).own_chunks().len() == old(self).own_chunks().len() && final(self).own_chunks().last().start == old(self).own_chunks().last().start,
            !old(self).has_active() ==> final(self).own_chunks().len() == old(self).own_chunks().len() + 1 && final(self).own_chunks().last().start == now as int,
            final(self).own_chunks().len() > 0,
            final(self).has_active() == (final(self).own_chunks().last().start
                > final(self).last_write as int),
    {
        broadcast use vstd::seq_lib::group_to_multiset_ensures;

        let ghost pre = *self;
        match self.find_own() {
            Some(j) => {
                let mut hc = self.history.remove(j);
                let ghost hcv0 = hc@;
                proof {
                    assert(pre.history@[j as int]@ == hcv0);
                    assert(pre.own_chunks() == hcv0.chunks);
                    assert forall|a: int, b: int| 0 <= a < b < hc.chunks@.len() implies (
                    #[trigger] hc.chunks@[a]@).start <= (#[trigger] hc.chunks@[b]@).start by {
                        assert(hcv0.chunks[a] == hc.chunks@[a]@);
                        assert(hcv0.chunks[b] == hc.chunks@[b]@);
                        assert(pre.history@[j as int]@.chunks[a].start
                            <= pre.history@[j as int]@.chunks[b].start);
                    }
                }
                append_to_chunks(&mut hc.chunks, now, self.last_write, entry);
                let ghost hcv1 = hc@;
                let ghost ev = entry@;
                self.history.insert(j, hc);
                proof {
                    assert(self.history@ =~= pre.history@.update(j as int, hc));
                    let hs0 = host_views(pre.history@);
                    let hs1 = host_views(self.history@);
                    assert(hs1.len() == hs0.len());
                    assert(hs1[j as int] == hcv1);
                    assert(forall|k: int|
                        0 <= k < hs0.len() && k != j as int ==> hs1[k] == hs0[k]);
                    assert(hcv1.host == hcv0.host);
                    lemma_host_update(hs0, hs1, j as int, ev);
                    // this host's list is still at j, and it is the only one
                    assert(self.has_host(self.host@)) by {
                        assert(self.history@[j as int]@.host == self.host@);
                    }
                    assert(self.host_index(self.host@) == j as int) by {
                        let w = self.host_index(self.host@);
                        assert(0 <= w < self.history@.len() && self.history@[w]@.host
                            == self.host@);
                        if w != j as int {
                            assert(hs1[w].host != hs1[j as int].host) by {
                                if w < j as int {
                                    assert(self.history@[w]@.host != self.history@[j as int]@.host);
                                } else {
                                    assert(self.history@[j as int]@.host != self.history@[w]@.host);
                                }
                            }
                        }
                    }
                    assert(pre.own_chunks() == hcv0.chunks);
                    assert(self.own_chunks() == hcv1.chunks);
                }
            },
            None => {
                let mut chunks: Vec<Chunk> = Vec::new();
                append_to_chunks(&mut chunks, now, self.last_write, entry);
                let hc = HostChunks { host: self.host.clone(), chunks };
                let ghost hcv1 = hc@;
                let ghost ev = entry@;
                self.history.push(hc);
                proof {
                    assert(self.history@ =~= pre.history@.push(hc));
                    let hs0 = host_views(pre.history@);
                    let hs1 = host_views(self.history@);
                    assert(hs1 =~= hs0.push(hcv1));
                    assert(entries_of_chunks(hcv1.chunks) =~= entries_of_chunks(
                        Seq::<ChunkV>::empty(),
                    ).push(ev));
                    assert(entries_of_chunks(Seq::<ChunkV>::empty()) =~= Seq::<EntryV>::empty());
                    assert(entries_of_chunks(hcv1.chunks) =~= seq![ev]) by {
                        assert(Seq::<EntryV>::empty().push(ev) =~= seq![ev]);
                    }
                    lemma_host_append(hs0, hcv1, ev);
                    let j = pre.history@.len() as int;
                    assert(self.has_host(self.host@)) by {
                        assert(self.history@[j]@.host == self.host@);
                    }
                    assert(self.host_index(self.host@) == j) by {
                        let w = self.host_index(self.host@);
                        assert(0 <= w < self.history@.len() && self.history@[w]@.host
                            == self.host@);
                        if w != j {
                            assert(pre.history@[w]@.host == self.host@);
                            assert(pre.has_host(pre.host@));
                        }
                    }
                    assert(!pre.has_host(pre.host@));
                    assert(pre.own_chunks() =~= Seq::<ChunkV>::empty());
                    assert(self.own_chunks() == hcv1.chunks);
                }
            },
        }
    }
}

/// Appends one entry to the last chunk of a list, opening a chunk at
/// `now` when the list is empty or its last chunk is at or before the
/// watermark.
fn append_to_chunks(cs: &mut Vec<Chunk>, now: i64, lw: i64, entry: Entry)
    requires
        now >= lw,
        forall|a: int, b: int|
            0 <= a < b < old(cs)@.len() ==> (#[trigger] old(cs)@[a]@).start <= (
            #[trigger] old(cs)@[b]@).start,
    ensures
        forall|a: int, b: int|
            0 <= a < b < final(cs)@.len() ==> (#[trigger] final(cs)@[a]@).start <= (
            #[trigger] final(cs)@[b]@).start,
        entries_of_chunks(crate::store::chunk_views(final(cs)@)) =~= entries_of_chunks(
            crate::store::chunk_views(old(cs)@),
        ).push(entry@),
        final(cs)@.len() > 0,
        old(cs)@.len() > 0 && old(cs)@.last()@.start > lw as int ==> final(cs)@.len() == old(
            cs,
        )@.len() && final(cs)@.last()@.start == old(cs)@.last()@.start,
        !(old(cs)@.len() > 0 && old(cs)@.last()@.start > lw as int) ==> final(cs)@.len() == old(
            cs,
        )@.len() + 1 && final(cs)@.last()@.start == now as int,
        forall|a: int|
            0 <= a < final(cs)@.len() - 1 ==> (#[trigger] final(cs)@[a]@) == old(cs)@[a]@,
{
    let ghost cvs0 = crate::store::chunk_views(cs@);
    let n = cs.len();
    let active = n > 0 && cs[n - 1].start > lw;
    if !active {
        cs.push(Chunk::with_start(now));
    }
    let ghost mid = crate::store::chunk_views(cs@);
    let mut c = match cs.pop() {
        Some(c) => c,
        None => {
            proof {
                assert(false);
            }
            Chunk::with_start(now)
        },
    };
    let ghost cv0 = c@;
    c.entries.push(entry);
    let ghost cv1 = c@;
    proof {
        assert(cv1.entries =~= cv0.entries.push(entry@));
    }
    cs.push(c);
    proof {
        let cvs1 = crate::store::chunk_views(cs@);
        assert(cvs1 =~= mid.take(mid.len() - 1).push(cv1));
        assert(mid =~= mid.take(mid.len() - 1).push(cv0));
        if active {
            assert(mid =~= cvs0);
        } else {
            assert(mid =~= cvs0.push(ChunkV { start: now as int, entries: Seq::empty() }));
            assert(mid.take(mid.len() - 1) =~= cvs0);
        }
        lemma_entries_of_chunks_concat(mid.take(mid.len() - 1), seq![cv1]);
        lemma_entries_of_chunks_concat(mid.take(mid.len() - 1), seq![cv0]);
        assert(mid.take(mid.len() - 1) + seq![cv1] =~= cvs1);
        assert(mid.take(mid.len() - 1) + seq![cv0] =~= mid);
        assert(entries_of_chunks(seq![cv1]) =~= cv1.entries) by {
            assert(seq![cv1].drop_first() =~= Seq::<ChunkV>::empty());
            assert(entries_of_chunks(Seq::<ChunkV>::empty()) =~= Seq::<EntryV>::empty());
            assert(cv1.entries + Seq::<EntryV>::empty() =~= cv1.entries);
        }
        assert(entries_of_chunks(seq![cv0]) =~= cv0.entries) by {
            assert(seq![cv0].drop_first() =~= Seq::<ChunkV>::empty());
            assert(entries_of_chunks(Seq::<ChunkV>::empty()) =~= Seq::<EntryV>::empty());
            assert(cv0.entries + Seq::<EntryV>::empty() =~= cv0.entries);
        }
        if !active {
            assert(entries_of_chunks(cvs0.push(ChunkV { start: now as int, entries: Seq::empty() }))
                =~= entries_of_chunks(cvs0)) by {
                lemma_entries_of_chunks_concat(
                    cvs0,
                    seq![ChunkV { start: now as int, entries: Seq::empty() }],
                );
                assert(cvs0.push(ChunkV { start: now as int, entries: Seq::empty() }) =~= cvs0
                    + seq![ChunkV { start: now as int, entries: Seq::empty() }]);
                assert(entries_of_chunks(
                    seq![ChunkV { start: now as int, entries: Seq::empty() }],
                ) =~= Seq::<EntryV>::empty()) by {
                    assert(seq![ChunkV { start: now as int, entries: Seq::empty() }].drop_first()
                        =~= Seq::<ChunkV>::empty());
                }
            }
        }
        assert(entries_of_chunks(cvs1) =~= entries_of_chunks(mid.take(mid.len() - 1))
            + cv1.entries);
        assert(entries_of_chunks(mid) =~= entries_of_chunks(mid.take(mid.len() - 1))
            + cv0.entries);
        assert(entries_of_chunks(cvs1) =~= entries_of_chunks(mid).push(entry@));
        assert forall|a: int, b: int| 0 <= a < b < cs@.len() implies (#[trigger] cs@[a]@).start
            <= (#[trigger] cs@[b]@).start by {
            assert(cvs1[a] == cs@[a]@ && cvs1[b] == cs@[b]@);
            if b < cvs1.len() - 1 {
                assert(cvs1[a] == cvs0[a] && cvs1[b] == cvs0[b]);
                assert(old(cs)@[a]@.start <= old(cs)@[b]@.start);
            } else {
                assert(cvs1[b] == cv1);
                if active {
                    assert(cvs1[a] == cvs0[a]);
                    assert(cv1.start == cvs0.last().start);
                    if a < cvs0.len() - 1 {
                        assert(old(cs)@[a]@.start <= old(cs)@[cvs0.len() - 1]@.start);
                    }
                } else {
                    assert(cvs1[a] == cvs0[a]);
                    assert(cv1.start == now as int);
                    if cvs0.len() > 0 {
                        assert(old(cs)@.last()@.start <= lw as int);
                        if a < cvs0.len() - 1 {
                            assert(old(cs)@[a]@.start <= old(cs)@[cvs0.len() - 1]@.start);
                        }
                    }
                }
            }
        }
    }
}

/// Three-way splits of a host run's entries, with multisets.
proof fn lemma_entries_split(hs: Seq<HostChunksV>, j: int)
    requires
        0 <= j < hs.len(),
    ensures
        entries_of_hosts(hs).to_multiset() =~= entries_of_hosts(hs.take(j)).to_multiset().add(
            entries_of_chunks(hs[j].chunks).to_multiset(),
        ).add(entries_of_hosts(hs.skip(j + 1)).to_multiset()),
{
    let a = hs.take(j);
    let m = seq![hs[j]];
    let b = hs.skip(j + 1);
    assert(hs =~= (a + m) + b);
    lemma_entries_of_hosts_concat(a + m, b);
    lemma_entries_of_hosts_concat(a, m);
    assert(entries_of_hosts(m) =~= entries_of_chunks(hs[j].chunks)) by {
        assert(m.drop_first() =~= Seq::<HostChunksV>::empty());
        assert(entries_of_hosts(Seq::<HostChunksV>::empty()) =~= Seq::<EntryV>::empty());
        assert(entries_of_chunks(hs[j].chunks) + Seq::<EntryV>::empty() =~= entries_of_chunks(
            hs[j].chunks,
        ));
    }
    lemma_multiset_commutative(
        entries_of_hosts(a + m),
        entries_of_hosts(b),
    );
    lemma_multiset_commutative(entries_of_hosts(a), entries_of_hosts(m));
    assert(entries_of_hosts(hs) =~= entries_of_hosts(a + m) + entries_of_hosts(b));
    assert(entries_of_hosts(a + m) =~= entries_of_hosts(a) + entries_of_hosts(m));
}

/// Extending one host's chunk list by one entry inserts that entry into
/// the history's entries.
proof fn lemma_host_update(
    hs0: Seq<HostChunksV>,
    hs1: Seq<HostChunksV>,
    j: int,
    e: EntryV,
)
    requires
        0 <= j < hs0.len(),
        hs1.len() == hs0.len(),
        forall|k: int| 0 <= k < hs0.len() && k != j ==> hs1[k] == hs0[k],
        entries_of_chunks(hs1[j].chunks) =~= entries_of_chunks(hs0[j].chunks).push(e),
    ensures
        entries_of_hosts(hs1).to_multiset() == entries_of_hosts(hs0).to_multiset().insert(e),
{
    broadcast use vstd::seq_lib::group_to_multiset_ensures;

    lemma_entries_split(hs0, j);
    lemma_entries_split(hs1, j);
    assert(hs1.take(j) =~= hs0.take(j));
    assert(hs1.skip(j + 1) =~= hs0.skip(j + 1));
    let e0 = entries_of_chunks(hs0[j].chunks);
    let e1 = entries_of_chunks(hs1[j].chunks);
    assert(e1.to_multiset() =~= e0.to_multiset().insert(e)) by {
        assert(e1 == e0.push(e));
    }
    let ma = entries_of_hosts(hs0.take(j)).to_multiset();
    let mb = entries_of_hosts(hs0.skip(j + 1)).to_multiset();
    assert(entries_of_hosts(hs1).to_multiset() =~= ma.add(e0.to_multiset().insert(e)).add(mb));
    assert(ma.add(e0.to_multiset().insert(e)).add(mb) =~= ma.add(e0.to_multiset()).add(
        mb,
    ).insert(e));
}

/// Appending a new host whose chunks hold one entry inserts that entry
/// into the history's entries.
proof fn lemma_host_append(hs0: Seq<HostChunksV>, hcv: HostChunksV, e: EntryV)
    requires
        entries_of_chunks(hcv.chunks) =~= seq![e],
    ensures
        entries_of_hosts(hs0.push(hcv)).to_multiset() == entries_of_hosts(
            hs0,
        ).to_multiset().insert(e),
{
    broadcast use vstd::seq_lib::group_to_multiset_ensures;

    lemma_entries_of_hosts_concat(hs0, seq![hcv]);
    assert(hs0.push(hcv) =~= hs0 + seq![hcv]);
    assert(entries_of_hosts(seq![hcv]) =~= seq![e]) by {
        assert(seq![hcv].drop_first() =~= Seq::<HostChunksV>::empty());
        assert(entries_of_hosts(Seq::<HostChunksV>::empty()) =~= Seq::<EntryV>::empty());
        assert(entries_of_chunks(hcv.chunks) + Seq::<EntryV>::empty() =~= entries_of_chunks(
            hcv.chunks,
        ));
    }
    lemma_multiset_commutative(entries_of_hosts(hs0), entries_of_hosts(seq![hcv]));
    assert(entries_of_hosts(hs0.push(hcv)) =~= entries_of_hosts(hs0) + seq![e]);
    assert((entries_of_hosts(hs0) + seq![e]).to_multiset() =~= entries_of_hosts(
        hs0,
    ).to_multiset().insert(e)) by {
        assert(entries_of_hosts(hs0) + seq![e] =~= entries_of_hosts(hs0).push(e));
    }
}


/// The entry value recorded for a fresh command.
pub open spec fn spec_new_entry(
    now: int,
    id: u128,
    host: Seq<char>,
    cmd: Seq<char>,
    path: Seq<char>,
    session: Seq<char>,
) -> EntryV {
    EntryV { id, ts: now, host, cmd, path, session }
}

/// Pushing an entry past the end keeps the merged view sorted.
proof fn lemma_sorted_push(s: Seq<EntryV>, e: EntryV)
    requires
        sorted_by(s, entry_le_ff()),
        s.len() > 0 ==> e.ts > s.last().ts,
    ensures
        sorted_by(s.push(e), entry_le_ff()),
{
    assert forall|i: int, j: int| 0 <= i < j < s.push(e).len() implies entry_le_ff()(
        #[trigger] s.push(e)[i],
        #[trigger] s.push(e)[j],
    ) by {
        if j < s.len() {
            assert(s.push(e)[i] == s[i] && s.push(e)[j] == s[j]);
            assert(entry_le_ff()(s[i], s[j]));
        } else {
            assert(s.push(e)[j] == e);
            assert(s.push(e)[i] == s[i]);
            if i < s.len() - 1 {
                assert(entry_le_ff()(s[i], s[s.len() - 1]));
            }
            assert(entry_le(s[i], s.last()));
            assert(s.last().ts < e.ts);
            assert(entry_le(s[i], e));
        }
    }
}


/// Sorts chunks by start time; the result holds the same chunks.
fn sort_chunks(v: Vec<Chunk>) -> (r: Vec<Chunk>)
    ensures
        forall|a: int, b: int|
            0 <= a < b < r@.len() ==> (#[trigger] r@[a]@).start <= (#[trigger] r@[b]@).start,
        crate::store::chunk_views(r@).to_multiset() == crate::store::chunk_views(v@).to_multiset(),
{
    broadcast use vstd::seq_lib::group_to_multiset_ensures;

    let mut out: Vec<Chunk> = Vec::new();
    let mut i: usize = 0;
    let n = v.len();
    let mut rest = v;
    let ghost vvs = crate::store::chunk_views(rest@);
    while i < n
        invariant
            i <= n,
            n == i + rest@.len(),
            vvs.len() == n,
            vvs.skip(i as int) =~= crate::store::chunk_views(rest@),
            forall|a: int, b: int|
                0 <= a < b < out@.len() ==> (#[trigger] out@[a]@).start <= (
                #[trigger] out@[b]@).start,
            crate::store::chunk_views(out@).to_multiset() == vvs.take(i as int).to_multiset(),
        decreases n - i,
    {
        let c = rest.remove(0);
        proof {
            assert(crate::store::chunk_views(rest@) =~= vvs.skip(i as int).drop_first());
            assert(vvs.skip(i as int).drop_first() =~= vvs.skip(i + 1));
            assert(vvs.skip(i as int)[0] == c@);
            assert(vvs[i as int] == c@);
            assert(vvs.take(i + 1).drop_last() =~= vvs.take(i as int));
            assert(vvs.take(i + 1).last() == vvs[i as int]);
            assert(vvs.take(i as int).push(vvs[i as int]) =~= vvs.take(i + 1));
        }
        let mut j: usize = 0;
        while j < out.len() && out[j].start <= c.start
            invariant
                j <= out@.len(),
                forall|k: int| 0 <= k < j ==> (#[trigger] out@[k]@).start <= c@.start,
            decreases out@.len() - j,
        {
            j = j + 1;
        }
        let ghost pre = crate::store::chunk_views(out@);
        out.insert(j, c);
        proof {
            assert(crate::store::chunk_views(out@) =~= pre.insert(j as int, c@));
            vstd::seq_lib::to_multiset_insert(pre, j as int, c@);
            vstd::seq_lib::to_multiset_build(vvs.take(i as int), vvs[i as int]);
            assert(vvs.take(i + 1).to_multiset() == vvs.take(i as int).to_multiset().insert(
                vvs[i as int],
            ));
            assert forall|a: int, b: int| 0 <= a < b < out@.len() implies (
            #[trigger] out@[a]@).start <= (#[trigger] out@[b]@).start by {
                let s2 = pre.insert(j as int, c@);
                assert(out@[a]@ == s2[a] && out@[b]@ == s2[b]);
                if a < j && b < j {
                    assert(s2[a] == pre[a] && s2[b] == pre[b]);
                } else if a < j && b == j {
                    assert(s2[a] == pre[a] && s2[b] == c@);
                } else if a < j && b > j {
                    assert(s2[a] == pre[a] && s2[b] == pre[b - 1]);
                } else if a == j && b > j {
                    assert(s2[a] == c@ && s2[b] == pre[b - 1]);
                    assert(c@.start < pre[j as int].start || c@.start <= pre[j as int].start);
                } else {
                    assert(a > j && b > j);
                    assert(s2[a] == pre[a - 1] && s2[b] == pre[b - 1]);
                }
            }
        }
        i = i + 1;
    }
    proof {
        assert(vvs.take(n as int) =~= vvs);
    }
    out
}

/// Chunk lists holding the same chunks hold the same entries.
proof fn lemma_entries_chunks_ms(a: Seq<ChunkV>, b: Seq<ChunkV>)
    requires
        a.to_multiset() == b.to_multiset(),
    ensures
        entries_of_chunks(a).to_multiset() == entries_of_chunks(b).to_multiset(),
    decreases a.len(),
{
    broadcast use vstd::seq_lib::group_to_multiset_ensures;

    vstd::seq_lib::to_multiset_len(a);
    vstd::seq_lib::to_multiset_len(b);
    if a.len() == 0 {
        assert(a =~= b);
    } else {
        let c = a.last();
        let ap = a.drop_last();
        assert(a =~= ap.push(c));
        vstd::seq_lib::to_multiset_contains(a, c);
        vstd::seq_lib::to_multiset_contains(b, c);
        assert(b.contains(c));
        let k = choose|k: int| 0 <= k < b.len() && b[k] == c;
        let bp = b.remove(k);
        vstd::seq_lib::to_multiset_remove(b, k);
        assert(ap.to_multiset() == bp.to_multiset()) by {
            assert(ap.push(c).to_multiset() =~= ap.to_multiset().insert(c));
            assert(ap.to_multiset() =~= a.to_multiset().remove(c));
        }
        lemma_entries_chunks_ms(ap, bp);
        lemma_entries_of_chunks_concat(ap, seq![c]);
        assert(entries_of_chunks(seq![c]) =~= c.entries) by {
            assert(seq![c].drop_first() =~= Seq::<ChunkV>::empty());
            assert(entries_of_chunks(Seq::<ChunkV>::empty()) =~= Seq::<EntryV>::empty());
            assert(c.entries + Seq::<EntryV>::empty() =~= c.entries);
        }
        assert(entries_of_chunks(a) =~= entries_of_chunks(ap) + c.entries) by {
            assert(ap + seq![c] =~= a);
        }
        assert(b =~= (b.take(k) + seq![c]) + b.skip(k + 1));
        lemma_entries_of_chunks_concat(b.take(k) + seq![c], b.skip(k + 1));
        lemma_entries_of_chunks_concat(b.take(k), seq![c]);
        lemma_entries_of_chunks_concat(b.take(k), b.skip(k + 1));
        assert(bp =~= b.take(k) + b.skip(k + 1));
        let ta = entries_of_chunks(b.take(k));
        let tb = entries_of_chunks(b.skip(k + 1));
        assert(entries_of_chunks(b) =~= (ta + c.entries) + tb);
        assert(entries_of_chunks(bp) =~= ta + tb);
        lemma_multiset_commutative(ta + c.entries, tb);
        lemma_multiset_commutative(ta, c.entries);
        lemma_multiset_commutative(ta, tb);
        lemma_multiset_commutative(entries_of_chunks(ap), c.entries);
        assert(entries_of_chunks(a).to_multiset() =~= entries_of_chunks(b).to_multiset());
    }
}

impl History {
    /// Every entry currently held, flattened in host and chunk order.
    pub fn all_entries_vec(&self) -> (r: Vec<Entry>)
        ensures
            views(r@) =~= self.all_entries(),
    {
        let ghost hv = host_views(self.history@);
        let mut out: Vec<Entry> = Vec::new();
        proof {
            assert(hv.skip(0) =~= hv);
            assert(views(out@) =~= Seq::<EntryV>::empty());
        }
        let mut j: usize = 0;
        while j < self.history.len()
            invariant
                j <= self.history@.len(),
                hv == host_views(self.history@),
                entries_of_hosts(hv) =~= views(out@) + entries_of_hosts(hv.skip(j as int)),
            decreases self.history@.len() - j,
        {
            proof {
                assert(hv.skip(j as int)[0] == self.history@[j as int]@);
                assert(hv.skip(j as int).drop_first() =~= hv.skip(j + 1));
            }
            let hc = &self.history[j];
            let ghost cv = crate::store::chunk_views(hc.chunks@);
            let ghost outer_pre = views(out@);
            proof {
                assert(cv.skip(0) =~= cv);
                assert(outer_pre + Seq::<EntryV>::empty() =~= outer_pre);
            }
            let mut k: usize = 0;
            while k < hc.chunks.len()
                invariant
                    k <= hc.chunks@.len(),
                    cv == crate::store::chunk_views(hc.chunks@),
                    views(out@) + entries_of_chunks(cv.skip(k as int)) =~= outer_pre
                        + entries_of_chunks(cv),
                decreases hc.chunks@.len() - k,
            {
                proof {
                    assert(cv.skip(k as int)[0] == hc.chunks@[k as int]@);
                    assert(cv.skip(k as int).drop_first() =~= cv.skip(k + 1));
                }
                let mut es = crate::entry::duplicate_entries(&hc.chunks[k].entries);
                let ghost pre = views(out@);
                let ghost esv = views(es@);
                out.append(&mut es);
                proof {
                    assert(views(out@) =~= pre + esv);
                    assert(esv =~= cv.skip(k as int)[0].entries);
                    assert((pre + esv) + entries_of_chunks(cv.skip(k + 1)) =~= pre + (esv
                        + entries_of_chunks(cv.skip(k + 1))));
                }
                k = k + 1;
            }
            proof {
                assert(cv.skip(hc.chunks@.len() as int) =~= Seq::<ChunkV>::empty());
                assert(entries_of_chunks(Seq::<ChunkV>::empty()) =~= Seq::<EntryV>::empty());
                assert(views(out@) =~= outer_pre + entries_of_chunks(cv));
                assert(entries_of_hosts(hv.skip(j as int)) =~= entries_of_chunks(cv)
                    + entries_of_hosts(hv.skip(j + 1)));
                assert(outer_pre + (entries_of_chunks(cv) + entries_of_hosts(hv.skip(j + 1)))
                    =~= (outer_pre + entries_of_chunks(cv)) + entries_of_hosts(hv.skip(j + 1)));
            }
            j = j + 1;
        }
        proof {
            assert(hv.skip(self.history@.len() as int) =~= Seq::<HostChunksV>::empty());
            assert(entries_of_hosts(Seq::<HostChunksV>::empty()) =~= Seq::<EntryV>::empty());
            assert(views(out@) + Seq::<EntryV>::empty() =~= views(out@));
        }
        out
    }

    /// Recomputes the merged view from every entry currently held.
    fn rebuild_merged(&mut self)
        requires
            old(self).wf(),
        ensures
            final(self).wf(),
            final(self).host@ == old(self).host@,
            final(self).history@ == old(self).history@,
            final(self).last_write == old(self).last_write,
            views(final(self).merged@) == merged_of(old(self).all_entries()),
    {
        let flat = self.all_entries_vec();
        let merged = merge_entries(&flat);
        self.merged = merged;
        proof {
            crate::merge::lemma_merged_sorted(old(self).all_entries());
        }
    }

    /// Records an edit or tombstone of an existing entry: same id, fresh
    /// timestamp, possibly empty command. Fails exactly when the id is
    /// absent from the merged view.
    pub fn update(&mut self, now: i64, id: u128, cmd: String, session: String) -> (r: Result<
        (),
        Error,
    >)
        requires
            old(self).wf(),
            old(self).accepts_now(now as int),
        ensures
            final(self).wf(),
            final(self).host@ == old(self).host@,
            final(self).last_write == old(self).last_write,
            r is Ok ==> (exists|k: int|
                0 <= k < views(old(self).merged@).len() && (#[trigger] views(old(self).merged@)[k]).id
                    == id) && final(self).all_entries().to_multiset() == old(self).all_entries().to_multiset().insert(
                spec_new_entry(now as int, id, old(self).host@, cmd@, Seq::empty(), session@),
            ) && views(final(self).merged@) == merged_of(final(self).all_entries()),
            r matches Err(e) ==> e.kind == ErrorKind::UnknownId && *final(self) == *old(self) && !(
            exists|k: int|
                0 <= k < views(old(self).merged@).len() && (#[trigger] views(old(self).merged@)[k]).id
                    == id),
    {
        let mut found = false;
        let mut k: usize = 0;
        while k < self.merged.len() && self.merged[k].id != id
            invariant
                k <= self.merged@.len(),
                forall|m: int| 0 <= m < k ==> (#[trigger] views(self.merged@)[m]).id != id,
            decreases self.merged@.len() - k,
        {
            k = k + 1;
        }
        if k == self.merged.len() {
            proof {
                assert forall|m: int| 0 <= m < views(self.merged@).len() implies (
                #[trigger] views(self.merged@)[m]).id != id by {}
            }
            return Err(Error::of(ErrorKind::UnknownId));
        }
        proof {
            assert(views(self.merged@)[k as int].id == id);
        }
        let entry = Entry {
            id,
            ts: now,
            host: self.host.clone(),
            cmd,
            path: String::new(),
            session,
        };
        let ghost pre = *self;
        self.push_own_active(now, entry);
        self.rebuild_merged();
        proof {
            assert(final(self).all_entries() == self.all_entries());
        }
        Ok(())
    }
}


/// Extending one host's chunk list by a batch of entries adds that batch
/// to the history's entries.
proof fn lemma_host_update_add(
    hs0: Seq<HostChunksV>,
    hs1: Seq<HostChunksV>,
    j: int,
    m: Multiset<EntryV>,
)
    requires
        0 <= j < hs0.len(),
        hs1.len() == hs0.len(),
        forall|k: int| 0 <= k < hs0.len() && k != j ==> hs1[k] == hs0[k],
        entries_of_chunks(hs1[j].chunks).to_multiset() == entries_of_chunks(
            hs0[j].chunks,
        ).to_multiset().add(m),
    ensures
        entries_of_hosts(hs1).to_multiset() == entries_of_hosts(hs0).to_multiset().add(m),
{
    lemma_entries_split(hs0, j);
    lemma_entries_split(hs1, j);
    assert(hs1.take(j) =~= hs0.take(j));
    assert(hs1.skip(j + 1) =~= hs0.skip(j + 1));
    let ma = entries_of_hosts(hs0.take(j)).to_multiset();
    let mb = entries_of_hosts(hs0.skip(j + 1)).to_multiset();
    let me = entries_of_chunks(hs0[j].chunks).to_multiset();
    assert(entries_of_hosts(hs1).to_multiset() =~= ma.add(me.add(m)).add(mb));
    assert(ma.add(me.add(m)).add(mb) =~= ma.add(me).add(mb).add(m));
}

/// Appending a new host adds its entries to the history's entries.
proof fn lemma_host_append_add(hs0: Seq<HostChunksV>, hcv: HostChunksV, m: Multiset<EntryV>)
    requires
        entries_of_chunks(hcv.chunks).to_multiset() == m,
    ensures
        entries_of_hosts(hs0.push(hcv)).to_multiset() == entries_of_hosts(hs0).to_multiset().add(
            m,
        ),
{
    broadcast use vstd::seq_lib::group_to_multiset_ensures;

    lemma_entries_of_hosts_concat(hs0, seq![hcv]);
    assert(hs0.push(hcv) =~= hs0 + seq![hcv]);
    assert(entries_of_hosts(seq![hcv]) =~= entries_of_chunks(hcv.chunks)) by {
        assert(seq![hcv].drop_first() =~= Seq::<HostChunksV>::empty());
        assert(entries_of_hosts(Seq::<HostChunksV>::empty()) =~= Seq::<EntryV>::empty());
        assert(entries_of_chunks(hcv.chunks) + Seq::<EntryV>::empty() =~= entries_of_chunks(
            hcv.chunks,
        ));
    }
    lemma_multiset_commutative(entries_of_hosts(hs0), entries_of_hosts(seq![hcv]));
    assert(entries_of_hosts(hs0.push(hcv)) =~= entries_of_hosts(hs0) + entries_of_hosts(
        seq![hcv],
    ));
}

/// No entries make no multiset.
proof fn lemma_empty_entries_multiset()
    ensures
        Seq::<EntryV>::empty().to_multiset() =~= Multiset::<EntryV>::empty(),
{
    broadcast use vstd::multiset::group_multiset_axioms;

    vstd::seq_lib::to_multiset_len(Seq::<EntryV>::empty());
    assert forall|e: EntryV| Seq::<EntryV>::empty().to_multiset().count(e) == 0 by {
        vstd::seq_lib::to_multiset_contains(Seq::<EntryV>::empty(), e);
    }
}

/// A multiset is a subset of itself with anything added.
proof fn lemma_subset_add(m: Multiset<EntryV>, extra: Multiset<EntryV>)
    ensures
        m.subset_of(m.add(extra)),
{
    broadcast use vstd::multiset::group_multiset_axioms;

}

/// The hosts named by a run of directories are pairwise distinct, as a
/// directory listing's names are.
pub open spec fn distinct_dir_hosts(dirs: Seq<crate::store::HostDir>) -> bool {
    forall|i: int, j: int|
        0 <= i < j < dirs.len() ==> (#[trigger] dirs[i].host@) != (#[trigger] dirs[j].host@)
}

/// What one read round adds: for each visited directory, the entries of
/// its chunks past the watermark held before the round. Nothing when any
/// visited directory fails to read. On a cold start every directory is
/// visited, otherwise every directory but this host's own.
pub open spec fn spec_dirs_added(
    hist: Seq<HostChunks>,
    own: Seq<char>,
    cold: bool,
    dirs: Seq<crate::store::HostDir>,
    key: Seq<u8>,
) -> Option<Multiset<EntryV>>
    decreases dirs.len(),
{
    if dirs.len() == 0 {
        Some(Multiset::empty())
    } else if !(cold || dirs[0].host@ != own) {
        spec_dirs_added(hist, own, cold, dirs.drop_first(), key)
    } else {
        match crate::store::read_chunks_spec(
            crate::store::dayfile_views(dirs[0].files@),
            watermark_of(hist, dirs[0].host@),
            key,
        ) {
            Some(cs) => match spec_dirs_added(hist, own, cold, dirs.drop_first(), key) {
                Some(m) => Some(entries_of_chunks(cs).to_multiset().add(m)),
                None => None,
            },
            None => None,
        }
    }
}

/// A change confined to one host's chunk list leaves every other host's
/// read watermark alone.
proof fn lemma_watermark_stable(
    h0: Seq<HostChunks>,
    h1: Seq<HostChunks>,
    target: Seq<char>,
    x: Seq<char>,
)
    requires
        x != target,
        forall|i: int, j: int|
            0 <= i < j < h0.len() ==> (#[trigger] h0[i]@.host) != (#[trigger] h0[j]@.host),
        h0.len() <= h1.len(),
        forall|k: int| 0 <= k < h0.len() ==> (#[trigger] h1[k]@.host) == h0[k]@.host,
        forall|k: int|
            0 <= k < h0.len() && h0[k]@.host != target ==> (#[trigger] h1[k]) == h0[k],
        forall|k: int| h0.len() <= k < h1.len() ==> (#[trigger] h1[k]@.host) == target,
    ensures
        watermark_of(h1, x) == watermark_of(h0, x),
{
    assert(hist_has_host(h1, x) == hist_has_host(h0, x)) by {
        if hist_has_host(h0, x) {
            let k = choose|k: int| 0 <= k < h0.len() && (#[trigger] h0[k]@.host) == x;
            assert(h1[k]@.host == x);
        }
        if hist_has_host(h1, x) {
            let k = choose|k: int| 0 <= k < h1.len() && (#[trigger] h1[k]@.host) == x;
            assert(k < h0.len());
            assert(h0[k]@.host == x);
        }
    }
    if hist_has_host(h0, x) {
        let w0 = hist_index(h0, x);
        let w1 = hist_index(h1, x);
        assert(0 <= w0 < h0.len() && h0[w0]@.host == x);
        assert(0 <= w1 < h1.len() && h1[w1]@.host == x);
        assert(w1 < h0.len());
        assert(h0[w1]@.host == x);
        if w0 != w1 {
            if w0 < w1 {
                assert(h0[w0]@.host != h0[w1]@.host);
            } else {
                assert(h0[w1]@.host != h0[w0]@.host);
            }
        }
        assert(h1[w0] == h0[w0]);
    }
}

impl History {
    /// The read watermark for a host: the start of the last chunk already
    /// held for it, or the epoch.
    pub open spec fn read_watermark(self, host: Seq<char>) -> int {
        watermark_of(self.history@, host)
    }

    /// The index of any host's chunk list, if it exists.
    fn find_host(&self, host: &String) -> (r: Option<usize>)
        ensures
            r matches Some(j) ==> j < self.history@.len() && self.history@[j as int]@.host
                == host@ && self.has_host(host@) && (self.wf() ==> self.host_index(host@)
                == j as int),
            r is None ==> !self.has_host(host@),
    {
        let mut j: usize = 0;
        while j < self.history.len()
            invariant
                j <= self.history@.len(),
                forall|k: int| 0 <= k < j ==> (#[trigger] self.history@[k]@.host) != host@,
            decreases self.history@.len() - j,
        {
            if self.history[j].host == *host {
                proof {
                    assert(self.history@[j as int]@.host == host@);
                    assert(self.has_host(host@));
                    if self.wf() {
                        let w = self.host_index(host@);
                        assert(0 <= w < self.history@.len() && self.history@[w]@.host == host@);
                        if w != j as int {
                            assert(self.history@[w]@.host != self.history@[j as int]@.host);
                        }
                    }
                }
                return Some(j);
            }
            j = j + 1;
        }
        None
    }

    /// Merges a batch of freshly read chunks into one host's list, keeping
    /// the list ordered by start.
    fn merge_host_chunks(&mut self, host: &String, fresh: Vec<Chunk>)
        requires
            old(self).wf(),
        ensures
            final(self).wf(),
            final(self).host@ == old(self).host@,
            final(self).last_write == old(self).last_write,
            final(self).merged@ == old(self).merged@,
            final(self).all_entries().to_multiset() == old(self).all_entries().to_multiset().add(
                entries_of_chunks(crate::store::chunk_views(fresh@)).to_multiset(),
            ),
            old(self).history@.len() <= final(self).history@.len() <= old(self).history@.len() + 1,
            forall|k: int|
                0 <= k < old(self).history@.len() ==> (#[trigger] final(self).history@[k]@.host)
                    == old(self).history@[k]@.host,
            forall|k: int|
                0 <= k < old(self).history@.len() && old(self).history@[k]@.host != host@ ==> (
                #[trigger] final(self).history@[k]) == old(self).history@[k],
            forall|k: int|
                old(self).history@.len() <= k < final(self).history@.len()
                    ==> (#[trigger] final(self).history@[k]@.host) == host@,
    {
        let ghost freshv = crate::store::chunk_views(fresh@);
        let ghost pre = *self;
        match self.find_host(host) {
            Some(j) => {
                let hc = self.history.remove(j);
                let ghost hcv0 = hc@;
                let host_name = hc.host;
                let mut cs = hc.chunks;
                let ghost cs0 = crate::store::chunk_views(cs@);
                let mut extra = fresh;
                cs.append(&mut extra);
                let ghost cs1 = crate::store::chunk_views(cs@);
                proof {
                    assert(cs1 =~= cs0 + freshv);
                }
                let sorted = sort_chunks(cs);
                let hc2 = HostChunks { host: host_name, chunks: sorted };
                let ghost hcv1 = hc2@;
                self.history.insert(j, hc2);
                proof {
                    broadcast use vstd::seq_lib::group_to_multiset_ensures;

                    assert(self.history@ =~= pre.history@.update(j as int, hc2));
                    let hs0 = host_views(pre.history@);
                    let hs1 = host_views(self.history@);
                    assert(hs1.len() == hs0.len());
                    assert(hs1[j as int] == hcv1);
                    assert(forall|k: int|
                        0 <= k < hs0.len() && k != j as int ==> hs1[k] == hs0[k]);
                    lemma_entries_chunks_ms(hcv1.chunks, cs1);
                    lemma_entries_of_chunks_concat(cs0, freshv);
                    lemma_multiset_commutative(entries_of_chunks(cs0), entries_of_chunks(freshv));
                    assert(entries_of_chunks(hcv1.chunks).to_multiset() == entries_of_chunks(
                        hcv0.chunks,
                    ).to_multiset().add(entries_of_chunks(freshv).to_multiset()));
                    lemma_host_update_add(
                        hs0,
                        hs1,
                        j as int,
                        entries_of_chunks(freshv).to_multiset(),
                    );
                    assert(hcv1.host == hcv0.host);
                }
            },
            None => {
                let sorted = sort_chunks(fresh);
                let hc2 = HostChunks { host: host.clone(), chunks: sorted };
                let ghost hcv1 = hc2@;
                self.history.push(hc2);
                proof {
                    assert(self.history@ =~= pre.history@.push(hc2));
                    let hs0 = host_views(pre.history@);
                    let hs1 = host_views(self.history@);
                    assert(hs1 =~= hs0.push(hcv1));
                    lemma_entries_chunks_ms(hcv1.chunks, freshv);
                    lemma_host_append_add(hs0, hcv1, entries_of_chunks(freshv).to_multiset());
                }
            },
        }
    }

    /// Pulls one host's new chunks from its directory, past the read
    /// watermark, and merges them in. Reports whether anything was added.
    pub fn read_host(&mut self, dir: &crate::store::HostDir, key: &Vec<u8>) -> (r: Result<
        bool,
        Error,
    >)
        requires
            old(self).wf(),
            key@.len() == 32,
        ensures
            final(self).wf(),
            final(self).host@ == old(self).host@,
            final(self).last_write == old(self).last_write,
            final(self).merged@ == old(self).merged@,
            forall|x: Seq<char>|
                x != dir.host@ ==> watermark_of(final(self).history@, x) == watermark_of(
                    old(self).history@,
                    x,
                ),
            r matches Ok(added) ==> ({
                let got = crate::store::read_chunks_spec(
                    crate::store::dayfile_views(dir.files@),
                    old(self).read_watermark(dir.host@),
                    key@,
                );
                got matches Some(cs) && added == (cs.len() > 0)
                    && final(self).all_entries().to_multiset()
                    == old(self).all_entries().to_multiset().add(
                    entries_of_chunks(cs).to_multiset(),
                ) && (!added ==> *final(self) == *old(self))
            }),
            r is Err ==> crate::store::read_chunks_spec(
                crate::store::dayfile_views(dir.files@),
                old(self).read_watermark(dir.host@),
                key@,
            ) is None && *final(self) == *old(self),
    {
        broadcast use vstd::seq_lib::group_to_multiset_ensures;

        let lr: i64 = match self.find_host(&dir.host) {
            Some(j) => {
                let n = self.history[j].chunks.len();
                if n > 0 {
                    self.history[j].chunks[n - 1].start
                } else {
                    0
                }
            },
            None => 0,
        };
        proof {
            assert(lr as int == self.read_watermark(dir.host@));
        }
        let fresh = match crate::store::read_chunks(&dir.files, lr, key) {
            Ok(cs) => cs,
            Err(e) => {
                return Err(e);
            },
        };
        if fresh.len() == 0 {
            proof {
                assert(crate::store::chunk_views(fresh@) =~= Seq::<ChunkV>::empty());
                assert(entries_of_chunks(Seq::<ChunkV>::empty()) =~= Seq::<EntryV>::empty());
                assert(self.all_entries().to_multiset() =~= self.all_entries().to_multiset().add(
                    Seq::<EntryV>::empty().to_multiset(),
                ));
            }
            return Ok(false);
        }
        let ghost freshv = crate::store::chunk_views(fresh@);
        let ghost pre = *self;
        self.merge_host_chunks(&dir.host, fresh);
        proof {
            assert forall|x: Seq<char>| x != dir.host@ implies watermark_of(self.history@, x)
                == watermark_of(pre.history@, x) by {
                lemma_watermark_stable(pre.history@, self.history@, dir.host@, x);
            }
        }
        Ok(true)
    }
}


/// What one save hands back: day-file appends and, best effort, the new
/// active-chunk snapshot bytes.
#[derive(Debug)]
pub struct SaveOutput {
    /// One append per newly written record.
    pub appends: Vec<crate::store::DayAppend>,
    /// The new snapshot bytes, or nothing when sealing the snapshot failed;
    /// a failed snapshot is logged by the caller and does not fail the save.
    pub state: Option<Vec<u8>>,
}

/// The snapshot bytes hold exactly the active chunk, or nothing.
pub open spec fn state_reflects(h: History, bytes: Seq<u8>, key: Seq<u8>) -> bool {
    if h.has_active() {
        crate::store::read_state_spec(bytes, key) matches Some(cs) && cs.len() == 1 && cs[0]
            == h.own_chunks().last()
    } else {
        crate::store::read_state_spec(bytes, key) == Some(Seq::<ChunkV>::empty())
    }
}

impl History {
    /// Builds the snapshot bytes for the current active chunk, if sealing
    /// succeeds.
    pub fn snapshot_active(&self, key: &Vec<u8>) -> (r: Option<Vec<u8>>)
        requires
            self.wf(),
            key@.len() == 32,
        ensures
            r matches Some(b) ==> state_reflects(*self, b@, key@),
    {
        let active_idx: Option<usize> = match self.find_own() {
            Some(j) => {
                let n = self.history[j].chunks.len();
                if n > 0 && self.history[j].chunks[n - 1].start > self.last_write {
                    Some(j)
                } else {
                    None
                }
            },
            None => None,
        };
        match active_idx {
            Some(j) => {
                proof {
                    assert(self.has_active());
                    assert(self.own_chunks().last() == self.history@[j as int]@.chunks.last());
                }
                let n = self.history[j].chunks.len();
                match crate::store::write_state(Some(&self.history[j].chunks[n - 1]), key) {
                    Ok(b) => Some(b),
                    Err(_) => None,
                }
            },
            None => {
                proof {
                    assert(!self.has_active());
                }
                match crate::store::write_state(None, key) {
                    Ok(b) => Some(b),
                    Err(_) => None,
                }
            },
        }
    }

    /// Writes this host's chunks past the watermark as day-file appends,
    /// advances the watermark, and snapshots the active chunk. The history
    /// itself does not change; nothing is appended twice.
    pub fn save(&mut self, now: i64, key: &Vec<u8>) -> (r: Result<SaveOutput, Error>)
        requires
            old(self).wf(),
            key@.len() == 32,
            now >= old(self).last_write,
        ensures
            final(self).wf(),
            final(self).host@ == old(self).host@,
            final(self).history@ == old(self).history@,
            final(self).merged@ == old(self).merged@,
            r matches Ok(out) ==> ({
                let kept = crate::store::kept_chunks(
                    old(self).own_chunks(),
                    old(self).last_write as int,
                );
                &&& out.appends@.len() == kept.len()
                &&& forall|i: int|
                    0 <= i < kept.len() ==> crate::store::app_matches(
                        (#[trigger] out.appends@[i])@,
                        kept[i],
                        key@,
                    )
                &&& (out.appends@.len() == 0 <==> kept.len() == 0)
                &&& final(self).last_write == (if old(self).has_host(old(self).host@) {
                    now
                } else {
                    old(self).last_write
                })
                &&& (out.state matches Some(b) ==> state_reflects(*final(self), b@, key@))
            }),
            r is Err ==> *final(self) == *old(self),
            crate::store::kept_chunks(old(self).own_chunks(), old(self).last_write as int).len()
                == 0 ==> r is Ok,
    {
        let appends = match self.find_own() {
            Some(j) => {
                proof {
                    assert(self.own_chunks() == crate::store::chunk_views(
                        self.history@[j as int].chunks@,
                    ));
                }
                let apps = match crate::store::write_chunks(
                    &self.history[j].chunks,
                    self.last_write,
                    key,
                ) {
                    Ok(a) => a,
                    Err(e) => {
                        return Err(e);
                    },
                };
                self.last_write = now;
                apps
            },
            None => {
                proof {
                    assert(self.own_chunks() =~= Seq::<ChunkV>::empty());
                    assert(crate::store::kept_chunks(
                        self.own_chunks(),
                        self.last_write as int,
                    ) =~= Seq::<ChunkV>::empty()) by {
                        Seq::lemma_filter_len(
                            Seq::<ChunkV>::empty(),
                            crate::store::to_write(self.last_write as int),
                        );
                    }
                }
                Vec::new()
            },
        };
        let state = self.snapshot_active(key);
        Ok(SaveOutput { appends, state })
    }

    /// Reads every host's directory; this host's own directory is read
    /// only when nothing at all is held yet. Reports whether anything was
    /// added; the merged view is not rebuilt here.
    fn read_dirs(&mut self, dirs: &Vec<crate::store::HostDir>, key: &Vec<u8>) -> (r: Result<
        bool,
        Error,
    >)
        requires
            old(self).wf(),
            key@.len() == 32,
        ensures
            final(self).wf(),
            final(self).host@ == old(self).host@,
            final(self).last_write == old(self).last_write,
            final(self).merged@ == old(self).merged@,
            old(self).all_entries().to_multiset().subset_of(
                final(self).all_entries().to_multiset(),
            ),
            r matches Ok(added) ==> ((!added ==> *final(self) == *old(self)) && (
            distinct_dir_hosts(dirs@) ==> (spec_dirs_added(
                old(self).history@,
                old(self).host@,
                old(self).history@.len() == 0,
                dirs@,
                key@,
            ) matches Some(m) && final(self).all_entries().to_multiset() == old(
                self,
            ).all_entries().to_multiset().add(m)))),
            r is Err ==> (distinct_dir_hosts(dirs@) ==> spec_dirs_added(
                old(self).history@,
                old(self).host@,
                old(self).history@.len() == 0,
                dirs@,
                key@,
            ) is None),
    {
        broadcast use vstd::multiset::group_multiset_axioms;

        let ghost h0 = *self;
        let ghost cold = h0.history@.len() == 0;
        let empty0 = self.history.len() == 0;
        let mut added = false;
        let mut i: usize = 0;
        let ghost mut acc: Multiset<EntryV> = Multiset::empty();
        proof {
            assert(h0.all_entries().to_multiset().add(acc) =~= h0.all_entries().to_multiset());
            assert(dirs@.skip(0) =~= dirs@);
            if distinct_dir_hosts(dirs@) {
                let t = spec_dirs_added(h0.history@, h0.host@, cold, dirs@, key@);
                if t is Some {
                    assert(acc.add(t.unwrap()) =~= t.unwrap());
                }
            }
        }
        while i < dirs.len()
            invariant
                i <= dirs@.len(),
                self.wf(),
                key@.len() == 32,
                empty0 == cold,
                cold == (h0.history@.len() == 0),
                h0 == *old(self),
                h0.wf(),
                self.host@ == h0.host@,
                self.last_write == h0.last_write,
                self.merged@ == h0.merged@,
                !added ==> *self == h0,
                self.all_entries().to_multiset() == h0.all_entries().to_multiset().add(acc),
                distinct_dir_hosts(dirs@) ==> ({
                    &&& (forall|j: int|
                        i <= j < dirs@.len() ==> watermark_of(
                            self.history@,
                            #[trigger] dirs@[j].host@,
                        ) == watermark_of(h0.history@, dirs@[j].host@))
                    &&& spec_dirs_added(h0.history@, h0.host@, cold, dirs@, key@) == (
                    match spec_dirs_added(h0.history@, h0.host@, cold, dirs@.skip(i as int), key@) {
                        Some(mt) => Some(acc.add(mt)),
                        None => None,
                    })
                }),
            decreases dirs@.len() - i,
        {
            broadcast use vstd::multiset::group_multiset_axioms;

            proof {
                if distinct_dir_hosts(dirs@) {
                    assert(dirs@.skip(i as int)[0] == dirs@[i as int]);
                    assert(dirs@.skip(i as int).drop_first() =~= dirs@.skip(i + 1));
                }
            }
            if empty0 || !(dirs[i].host == self.host) {
                let ghost pre = *self;
                match self.read_host(&dirs[i], key) {
                    Ok(a) => {
                        proof {
                            if distinct_dir_hosts(dirs@) {
                                let wm = watermark_of(h0.history@, dirs@[i as int].host@);
                                assert(pre.read_watermark(dirs@[i as int].host@) == wm);
                                let got = crate::store::read_chunks_spec(
                                    crate::store::dayfile_views(dirs@[i as int].files@),
                                    wm,
                                    key@,
                                );
                                let cs = got.unwrap();
                                let e_ms = entries_of_chunks(cs).to_multiset();
                                assert(self.all_entries().to_multiset()
                                    == pre.all_entries().to_multiset().add(e_ms));
                                assert(h0.all_entries().to_multiset().add(acc).add(e_ms)
                                    =~= h0.all_entries().to_multiset().add(acc.add(e_ms)));
                                assert forall|j: int| i + 1 <= j < dirs@.len() implies watermark_of(
                                    self.history@,
                                    #[trigger] dirs@[j].host@,
                                ) == watermark_of(h0.history@, dirs@[j].host@) by {
                                    assert(dirs@[j].host@ != dirs@[i as int].host@);
                                }
                                assert(spec_dirs_added(
                                    h0.history@,
                                    h0.host@,
                                    cold,
                                    dirs@.skip(i as int),
                                    key@,
                                ) == (match spec_dirs_added(
                                    h0.history@,
                                    h0.host@,
                                    cold,
                                    dirs@.skip(i + 1),
                                    key@,
                                ) {
                                    Some(mt) => Some(e_ms.add(mt)),
                                    None => None,
                                }));
                                if spec_dirs_added(h0.history@, h0.host@, cold, dirs@.skip(i + 1), key@)
                                    is Some {
                                    let mt = spec_dirs_added(
                                        h0.history@,
                                        h0.host@,
                                        cold,
                                        dirs@.skip(i + 1),
                                        key@,
                                    ).unwrap();
                                    assert(acc.add(e_ms.add(mt)) =~= acc.add(e_ms).add(mt));
                                }
                                acc = acc.add(e_ms);
                            } else {
                                let got = crate::store::read_chunks_spec(
                                    crate::store::dayfile_views(dirs@[i as int].files@),
                                    pre.read_watermark(dirs@[i as int].host@),
                                    key@,
                                );
                                let e_ms = entries_of_chunks(got.unwrap()).to_multiset();
                                assert(h0.all_entries().to_multiset().add(acc).add(e_ms)
                                    =~= h0.all_entries().to_multiset().add(acc.add(e_ms)));
                                acc = acc.add(e_ms);
                            }
                        }
                        added = added || a;
                    },
                    Err(e) => {
                        proof {
                            if distinct_dir_hosts(dirs@) {
                                assert(pre.read_watermark(dirs@[i as int].host@) == watermark_of(
                                    h0.history@,
                                    dirs@[i as int].host@,
                                ));
                                assert(crate::store::read_chunks_spec(
                                    crate::store::dayfile_views(dirs@[i as int].files@),
                                    watermark_of(h0.history@, dirs@[i as int].host@),
                                    key@,
                                ) is None);
                                assert(cold || dirs@.skip(i as int)[0].host@ != h0.host@);
                                assert(spec_dirs_added(
                                    h0.history@,
                                    h0.host@,
                                    cold,
                                    dirs@.skip(i as int),
                                    key@,
                                ) is None);
                                assert(spec_dirs_added(h0.history@, h0.host@, cold, dirs@, key@)
                                    is None);
                            }
                            lemma_subset_add(h0.all_entries().to_multiset(), acc);
                        }
                        return Err(e);
                    },
                }
            } else {
                proof {
                    if distinct_dir_hosts(dirs@) {
                        assert(!(cold || dirs@[i as int].host@ != h0.host@));
                    }
                }
            }
            i = i + 1;
        }
        proof {
            assert(dirs@.skip(dirs@.len() as int) =~= Seq::<crate::store::HostDir>::empty());
            if distinct_dir_hosts(dirs@) {
                assert(spec_dirs_added(
                    h0.history@,
                    h0.host@,
                    cold,
                    Seq::<crate::store::HostDir>::empty(),
                    key@,
                ) == Some(Multiset::<EntryV>::empty()));
                assert(acc.add(Multiset::<EntryV>::empty()) =~= acc);
            }
            lemma_subset_add(h0.all_entries().to_multiset(), acc);
        }
        Ok(added)
    }

    /// Loads the active-chunk snapshot left by a previous run: its chunks
    /// join this host's list, the watermark moves to just before the first
    /// of them, and the merged view is rebuilt. Fails when a chunk is
    /// already active, or when the snapshot does not read back.
    pub fn read_active(&mut self, bytes: &[u8], key: &Vec<u8>) -> (r: Result<(), Error>)
        requires
            old(self).wf(),
            key@.len() == 32,
        ensures
            final(self).wf(),
            final(self).host@ == old(self).host@,
            r is Ok ==> !old(self).has_active() && ({
                let got = crate::store::read_state_spec(bytes@, key@);
                got matches Some(cs) && ((cs.len() == 0 ==> *final(self) == *old(self)) && (
                cs.len() > 0 ==> final(self).all_entries().to_multiset() == old(self).all_entries().to_multiset().add(entries_of_chunks(cs).to_multiset()) && views(
                    final(self).merged@,
                ) == merged_of(final(self).all_entries()) && final(self).last_write as int
                    == spec_back_one_second(cs[0].start)))
            }),
            r matches Err(e) ==> (old(self).has_active() && e.kind == ErrorKind::Generic && *final(self) == *old(self)) || (crate::store::read_state_spec(bytes@, key@) is None && *final(self) == *old(self)),
    {
        let already = match self.find_own() {
            Some(j) => {
                let n = self.history[j].chunks.len();
                n > 0 && self.history[j].chunks[n - 1].start > self.last_write
            },
            None => false,
        };
        proof {
            assert(already == self.has_active());
        }
        if already {
            return Err(Error::of(ErrorKind::Generic));
        }
        let cs = match crate::store::read_state(bytes, key) {
            Ok(cs) => cs,
            Err(e) => {
                proof {
                    assert(crate::store::read_state_spec(bytes@, key@) is None);
                }
                return Err(e);
            },
        };
        if cs.len() == 0 {
            proof {
                assert(crate::store::chunk_views(cs@) =~= Seq::<ChunkV>::empty());
            }
            return Ok(());
        }
        let first_start = cs[0].start;
        self.last_write = back_one_second(first_start);
        let own = self.host.clone();
        let ghost csv = crate::store::chunk_views(cs@);
        self.merge_host_chunks(&own, cs);
        self.rebuild_merged();
        proof {
            assert(csv[0].start == first_start as int);
        }
        Ok(())
    }

    /// Builds a history from the sync tree and the snapshot left by a
    /// previous run: every host's directory is read, then the snapshot.
    /// The merged view of the result collapses everything that was found.
    pub fn load(
        host: String,
        now: i64,
        dirs: &Vec<crate::store::HostDir>,
        state_bytes: &[u8],
        key: &Vec<u8>,
    ) -> (r: Result<History, Error>)
        requires
            key@.len() == 32,
        ensures
            r matches Ok(h) ==> h.wf() && h.host@ == host@ && views(h.merged@) == merged_of(
                h.all_entries(),
            ) && ({
                let got = crate::store::read_state_spec(state_bytes@, key@);
                &&& got matches Some(cs)
                &&& (cs.len() > 0 ==> h.last_write as int == spec_back_one_second(cs[0].start))
                &&& (cs.len() == 0 ==> h.last_write == now)
                &&& (distinct_dir_hosts(dirs@) ==> (spec_dirs_added(
                    Seq::empty(),
                    host@,
                    true,
                    dirs@,
                    key@,
                ) matches Some(m) && h.all_entries().to_multiset() == m.add(
                    entries_of_chunks(cs).to_multiset(),
                )))
            }),
    {
        let mut h = History::new(host, now);
        let ghost h_init = h;
        let added = match h.read_dirs(dirs, key) {
            Ok(a) => a,
            Err(e) => {
                return Err(e);
            },
        };
        if added {
            h.rebuild_merged();
        }
        let ghost before = h;
        proof {
            broadcast use vstd::multiset::group_multiset_axioms;

            if !added {
                assert(h.history@.len() == 0);
                assert(host_views(h.history@) =~= Seq::<HostChunksV>::empty());
                assert(entries_of_hosts(Seq::<HostChunksV>::empty()) =~= Seq::<EntryV>::empty());
                crate::merge::lemma_merged_of_empty();
                assert(views(h.merged@) =~= Seq::<EntryV>::empty());
            }
            assert(views(before.merged@) == merged_of(before.all_entries()));
            // the fresh history's entries are nothing, so the round's
            // additions are everything it now holds
            assert(h_init.history@ =~= Seq::<HostChunks>::empty());
            assert(host_views(h_init.history@) =~= Seq::<HostChunksV>::empty());
            assert(entries_of_hosts(Seq::<HostChunksV>::empty()) =~= Seq::<EntryV>::empty());
            lemma_empty_entries_multiset();
            assert(h_init.all_entries().to_multiset() =~= Multiset::<EntryV>::empty());
            if distinct_dir_hosts(dirs@) {
                let t = spec_dirs_added(Seq::empty(), host@, true, dirs@, key@);
                assert(t matches Some(m) && before.all_entries().to_multiset() == m) by {
                    assert(t is Some);
                    let m = t.unwrap();
                    assert(before.all_entries().to_multiset() =~= Multiset::<
                        EntryV,
                    >::empty().add(m));
                }
            }
        }
        match h.read_active(state_bytes, key) {
            Ok(()) => {},
            Err(e) => {
                return Err(e);
            },
        }
        proof {
            broadcast use vstd::multiset::group_multiset_axioms;

            let got = crate::store::read_state_spec(state_bytes@, key@);
            let cs = got.unwrap();
            if cs.len() == 0 {
                assert(h == before);
                assert(entries_of_chunks(cs).to_multiset() =~= Multiset::<EntryV>::empty()) by {
                    assert(entries_of_chunks(cs) =~= Seq::<EntryV>::empty());
                    lemma_empty_entries_multiset();
                }
                if distinct_dir_hosts(dirs@) {
                    let m = spec_dirs_added(Seq::empty(), host@, true, dirs@, key@).unwrap();
                    assert(h.all_entries().to_multiset() =~= m.add(
                        entries_of_chunks(cs).to_multiset(),
                    ));
                }
            } else {
                if distinct_dir_hosts(dirs@) {
                    let m = spec_dirs_added(Seq::empty(), host@, true, dirs@, key@).unwrap();
                    assert(h.all_entries().to_multiset() =~= m.add(
                        entries_of_chunks(cs).to_multiset(),
                    ));
                }
            }
        }
        Ok(h)
    }
}

/// One second before a chunk start, for the recovered watermark; the
/// subtraction saturates at the far past.
pub open spec fn spec_back_one_second(start: int) -> int {
    if start - 1_000_000 < i64::MIN {
        i64::MIN as int
    } else {
        start - 1_000_000
    }
}

/// Computes the recovered watermark: one second before a start.
fn back_one_second(start: i64) -> (r: i64)
    ensures
        r as int == spec_back_one_second(start as int),
{
    if start < i64::MIN + 1_000_000 {
        i64::MIN
    } else {
        start - 1_000_000
    }
}


/// The command text the merged view currently holds for an id: that of
/// the last merged entry carrying it.
pub open spec fn cmd_lookup(s: Seq<EntryV>, id: u128) -> Option<Seq<char>>
    decreases s.len(),
{
    if s.len() == 0 {
        None
    } else if s.last().id == id {
        Some(s.last().cmd)
    } else {
        cmd_lookup(s.drop_last(), id)
    }
}

/// Whether a bulk-loaded entry is taken: it must belong to this host and
/// be new or changed against the merged view.
pub open spec fn takes(merged: Seq<EntryV>, own: Seq<char>, e: EntryV) -> bool {
    &&& e.host == own
    &&& match cmd_lookup(merged, e.id) {
        None => true,
        Some(c) => c != e.cmd,
    }
}

/// The bulk-load filter as a first-class predicate.
pub open spec fn takes_pred(merged: Seq<EntryV>, own: Seq<char>) -> spec_fn(EntryV) -> bool {
    |e: EntryV| takes(merged, own, e)
}

impl History {
    /// Looks up the merged command for an id, scanning from the newest.
    fn lookup_cmd(&self, id: u128) -> (r: Option<String>)
        ensures
            r matches Some(c) ==> cmd_lookup(views(self.merged@), id) == Some(c@),
            r is None ==> cmd_lookup(views(self.merged@), id) is None,
    {
        let ghost mv = views(self.merged@);
        let mut k: usize = self.merged.len();
        proof {
            assert(mv.take(self.merged@.len() as int) =~= mv);
        }
        while k > 0
            invariant
                k <= self.merged@.len(),
                mv == views(self.merged@),
                cmd_lookup(mv, id) == cmd_lookup(mv.take(k as int), id),
            decreases k,
        {
            proof {
                assert(mv.take(k as int).last() == mv[k - 1]);
                assert(mv.take(k as int).drop_last() =~= mv.take(k - 1));
            }
            if self.merged[k - 1].id == id {
                return Some(self.merged[k - 1].cmd.clone());
            }
            k = k - 1;
        }
        proof {
            assert(mv.take(0) =~= Seq::<EntryV>::empty());
        }
        None
    }

    /// Imports a batch of saved entries. Only entries of this host that
    /// are new or changed against the merged view are taken; they join the
    /// active chunk with their own ids and timestamps, and the merged view
    /// is rebuilt when anything was taken. Importing for all hosts is
    /// deliberately not supported.
    pub fn load_entries(&mut self, now: i64, entries: &Vec<Entry>, all_hosts: bool) -> (r: Result<
        usize,
        Error,
    >)
        requires
            old(self).wf(),
            now >= old(self).last_write,
        ensures
            final(self).wf(),
            final(self).host@ == old(self).host@,
            final(self).last_write == old(self).last_write,
            all_hosts ==> (r matches Err(e) && e.kind == ErrorKind::Unimplemented && *final(self)
                == *old(self)),
            r matches Ok(n) ==> !all_hosts && ({
                let taken = views(entries@).filter(
                    takes_pred(views(old(self).merged@), old(self).host@),
                );
                &&& n == taken.len()
                &&& final(self).all_entries().to_multiset() == old(
                    self,
                ).all_entries().to_multiset().add(taken.to_multiset())
                &&& n > 0 ==> views(final(self).merged@) == merged_of(final(self).all_entries())
                &&& n == 0 ==> *final(self) == *old(self)
            }),
    {
        broadcast use vstd::seq_lib::group_filter_ensures;
        broadcast use vstd::seq_lib::group_to_multiset_ensures;

        if all_hosts {
            return Err(Error::of(ErrorKind::Unimplemented));
        }
        let ghost pre = *self;
        let ghost mv0 = views(old(self).merged@);
        let ghost own = old(self).host@;
        let mut count: usize = 0;
        let mut i: usize = 0;
        proof {
            assert(views(entries@).take(0).filter(takes_pred(mv0, own)) =~= Seq::<
                EntryV,
            >::empty()) by {
                assert(views(entries@).take(0) =~= Seq::<EntryV>::empty());
                Seq::lemma_filter_len(Seq::<EntryV>::empty(), takes_pred(mv0, own));
            }
            assert(pre.all_entries().to_multiset().add(
                Seq::<EntryV>::empty().to_multiset(),
            ) =~= pre.all_entries().to_multiset());
        }
        while i < entries.len()
            invariant
                i <= entries@.len(),
                self.wf(),
                self.host@ == own,
                self.last_write == pre.last_write,
                self.merged@ == pre.merged@,
                mv0 == views(pre.merged@),
                now >= self.last_write,
                count == views(entries@).take(i as int).filter(takes_pred(mv0, own)).len(),
                self.all_entries().to_multiset() == pre.all_entries().to_multiset().add(
                    views(entries@).take(i as int).filter(takes_pred(mv0, own)).to_multiset(),
                ),
                count == 0 ==> *self == pre,
            decreases entries@.len() - i,
        {
            let e = &entries[i];
            let ghost ev = views(entries@)[i as int];
            proof {
                assert(views(entries@).take(i + 1).drop_last() =~= views(entries@).take(i as int));
                assert(views(entries@).take(i + 1).last() == ev);
                views(entries@).take(i as int).lemma_filter_push(ev, takes_pred(mv0, own));
                assert(views(entries@).take(i as int).push(ev) =~= views(entries@).take(i + 1));
            }
            let mut take_it = false;
            if e.host == self.host {
                match self.lookup_cmd(e.id) {
                    None => {
                        take_it = true;
                    },
                    Some(c) => {
                        if !(c == e.cmd) {
                            take_it = true;
                        }
                    },
                }
            }
            proof {
                assert(take_it == takes(mv0, own, ev));
            }
            if take_it {
                let dup = e.duplicate();
                let ghost before_push = self.all_entries().to_multiset();
                self.push_own_active(now, dup);
                proof {
                    let f0 = views(entries@).take(i as int).filter(takes_pred(mv0, own));
                    let f1 = views(entries@).take(i + 1).filter(takes_pred(mv0, own));
                    assert(f1 == f0.push(ev));
                    vstd::seq_lib::to_multiset_build(f0, ev);
                    assert(f1.to_multiset() =~= f0.to_multiset().insert(ev));
                    assert(pre.all_entries().to_multiset().add(f0.to_multiset()).insert(ev)
                        =~= pre.all_entries().to_multiset().add(f1.to_multiset()));
                }
                count = count + 1;
            }
            i = i + 1;
        }
        proof {
            assert(views(entries@).take(entries@.len() as int) =~= views(entries@));
        }
        if count == 0 {
            return Ok(0);
        }
        self.rebuild_merged();
        Ok(count)
    }

    /// Saves everything past the watermark, then pulls every other host's
    /// new chunks and rebuilds the merged view when anything arrived.
    pub fn sync(&mut self, now: i64, dirs: &Vec<crate::store::HostDir>, key: &Vec<u8>) -> (r:
        Result<(SaveOutput, bool), Error>)
        requires
            old(self).wf(),
            key@.len() == 32,
            now >= old(self).last_write,
        ensures
            final(self).wf(),
            final(self).host@ == old(self).host@,
            r matches Ok(p) ==> ({
                let kept = crate::store::kept_chunks(
                    old(self).own_chunks(),
                    old(self).last_write as int,
                );
                &&& p.0.appends@.len() == kept.len()
                &&& forall|i: int|
                    0 <= i < kept.len() ==> crate::store::app_matches(
                        (#[trigger] p.0.appends@[i])@,
                        kept[i],
                        key@,
                    )
                &&& (p.1 ==> views(final(self).merged@) == merged_of(final(self).all_entries()))
                &&& (!p.1 ==> final(self).merged@ == old(self).merged@)
                &&& final(self).last_write == (if old(self).has_host(old(self).host@) {
                    now
                } else {
                    old(self).last_write
                })
                &&& (distinct_dir_hosts(dirs@) ==> (spec_dirs_added(
                    old(self).history@,
                    old(self).host@,
                    old(self).history@.len() == 0,
                    dirs@,
                    key@,
                ) matches Some(m) && final(self).all_entries().to_multiset() == old(
                    self,
                ).all_entries().to_multiset().add(m)))
            }),
            r is Err ==> final(self).merged@ == old(self).merged@,
            old(self).all_entries().to_multiset().subset_of(
                final(self).all_entries().to_multiset(),
            ),
    {
        proof {
            lemma_subset_add(
                old(self).all_entries().to_multiset(),
                Multiset::<EntryV>::empty(),
            );
            assert(old(self).all_entries().to_multiset().add(Multiset::<EntryV>::empty())
                =~= old(self).all_entries().to_multiset());
        }
        let out = match self.save(now, key) {
            Ok(o) => o,
            Err(e) => {
                return Err(e);
            },
        };
        let added = match self.read_dirs(dirs, key) {
            Ok(a) => a,
            Err(e) => {
                return Err(e);
            },
        };
        if added {
            self.rebuild_merged();
        }
        Ok((out, added))
    }
}


/// A chunk rebuilt by the hour: it starts on an hour boundary and holds
/// exactly the entries of one host whose timestamps fall in that hour.
pub open spec fn hour_chunk(c: ChunkV, host: Seq<char>) -> bool {
    forall|m: int|
        0 <= m < c.entries.len() ==> spec_hour_floor((#[trigger] c.entries[m]).ts) == c.start
            && c.entries[m].host == host
}

/// One host's rewritten day-file appends.
#[derive(Debug)]
pub struct HostAppends {
    pub host: String,
    pub appends: Vec<crate::store::DayAppend>,
}

/// What a full rewrite hands back.
#[derive(Debug)]
pub struct RewriteOutput {
    /// Appends per host, for a tree that was first emptied.
    pub hosts: Vec<HostAppends>,
    /// The new snapshot bytes, or nothing when sealing it failed.
    pub state: Option<Vec<u8>>,
}

/// Appends one entry to a list of hour chunks, opening a chunk at `hour`
/// unless the last chunk already starts there.
fn append_to_hour_chunks(cs: &mut Vec<Chunk>, hour: i64, entry: Entry, Ghost(host): Ghost<
    Seq<char>,
>)
    requires
        forall|a: int, b: int|
            0 <= a < b < old(cs)@.len() ==> (#[trigger] old(cs)@[a]@).start < (
            #[trigger] old(cs)@[b]@).start,
        forall|a: int| 0 <= a < old(cs)@.len() ==> (#[trigger] old(cs)@[a]@).start <= hour as int,
        forall|a: int| 0 <= a < old(cs)@.len() ==> hour_chunk(#[trigger] old(cs)@[a]@, host),
        forall|a: int| 0 <= a < old(cs)@.len() ==> (#[trigger] old(cs)@[a]@).entries.len() > 0,
        spec_hour_floor(entry@.ts) == hour as int,
        entry@.host == host,
    ensures
        forall|a: int, b: int|
            0 <= a < b < final(cs)@.len() ==> (#[trigger] final(cs)@[a]@).start < (
            #[trigger] final(cs)@[b]@).start,
        forall|a: int| 0 <= a < final(cs)@.len() ==> (#[trigger] final(cs)@[a]@).start <= hour as int,
        forall|a: int| 0 <= a < final(cs)@.len() ==> hour_chunk(#[trigger] final(cs)@[a]@, host),
        forall|a: int| 0 <= a < final(cs)@.len() ==> (#[trigger] final(cs)@[a]@).entries.len() > 0,
        entries_of_chunks(crate::store::chunk_views(final(cs)@)) =~= entries_of_chunks(
            crate::store::chunk_views(old(cs)@),
        ).push(entry@),
        final(cs)@.len() > 0,
{
    let ghost cvs0 = crate::store::chunk_views(cs@);
    let n = cs.len();
    let matching = n > 0 && cs[n - 1].start == hour;
    if !matching {
        cs.push(Chunk::with_start(hour));
    }
    let ghost mid = crate::store::chunk_views(cs@);
    let mut c = match cs.pop() {
        Some(c) => c,
        None => {
            proof {
                assert(false);
            }
            Chunk::with_start(hour)
        },
    };
    let ghost cv0 = c@;
    c.entries.push(entry);
    let ghost cv1 = c@;
    proof {
        assert(cv1.entries =~= cv0.entries.push(entry@));
    }
    cs.push(c);
    proof {
        let cvs1 = crate::store::chunk_views(cs@);
        assert(cvs1 =~= mid.take(mid.len() - 1).push(cv1));
        assert(mid =~= mid.take(mid.len() - 1).push(cv0));
        if matching {
            assert(mid =~= cvs0);
        } else {
            assert(mid =~= cvs0.push(ChunkV { start: hour as int, entries: Seq::empty() }));
            assert(mid.take(mid.len() - 1) =~= cvs0);
        }
        lemma_entries_of_chunks_concat(mid.take(mid.len() - 1), seq![cv1]);
        lemma_entries_of_chunks_concat(mid.take(mid.len() - 1), seq![cv0]);
        assert(mid.take(mid.len() - 1) + seq![cv1] =~= cvs1);
        assert(mid.take(mid.len() - 1) + seq![cv0] =~= mid);
        assert(entries_of_chunks(seq![cv1]) =~= cv1.entries) by {
            assert(seq![cv1].drop_first() =~= Seq::<ChunkV>::empty());
            assert(entries_of_chunks(Seq::<ChunkV>::empty()) =~= Seq::<EntryV>::empty());
            assert(cv1.entries + Seq::<EntryV>::empty() =~= cv1.entries);
        }
        assert(entries_of_chunks(seq![cv0]) =~= cv0.entries) by {
            assert(seq![cv0].drop_first() =~= Seq::<ChunkV>::empty());
            assert(entries_of_chunks(Seq::<ChunkV>::empty()) =~= Seq::<EntryV>::empty());
            assert(cv0.entries + Seq::<EntryV>::empty() =~= cv0.entries);
        }
        if !matching {
            assert(entries_of_chunks(cvs0.push(ChunkV { start: hour as int, entries: Seq::empty() }))
                =~= entries_of_chunks(cvs0)) by {
                lemma_entries_of_chunks_concat(
                    cvs0,
                    seq![ChunkV { start: hour as int, entries: Seq::empty() }],
                );
                assert(cvs0.push(ChunkV { start: hour as int, entries: Seq::empty() }) =~= cvs0
                    + seq![ChunkV { start: hour as int, entries: Seq::empty() }]);
                assert(entries_of_chunks(
                    seq![ChunkV { start: hour as int, entries: Seq::empty() }],
                ) =~= Seq::<EntryV>::empty()) by {
                    assert(seq![ChunkV { start: hour as int, entries: Seq::empty() }].drop_first()
                        =~= Seq::<ChunkV>::empty());
                }
            }
        }
        assert(entries_of_chunks(cvs1) =~= entries_of_chunks(mid.take(mid.len() - 1))
            + cv1.entries);
        assert(entries_of_chunks(mid) =~= entries_of_chunks(mid.take(mid.len() - 1))
            + cv0.entries);
        assert(entries_of_chunks(cvs1) =~= entries_of_chunks(mid).push(entry@));
        assert(cv1.start == cv0.start);
        assert forall|a: int| 0 <= a < cvs1.len() implies hour_chunk(
            #[trigger] cs@[a]@,
            host,
        ) by {
            assert(cs@[a]@ == cvs1[a]);
            if a < cvs1.len() - 1 {
                assert(cvs1[a] == cvs0[a]);
                assert(hour_chunk(old(cs)@[a]@, host));
            } else {
                assert(cvs1[a] == cv1);
                assert forall|m: int| 0 <= m < cv1.entries.len() implies spec_hour_floor(
                    (#[trigger] cv1.entries[m]).ts,
                ) == cv1.start && cv1.entries[m].host == host by {
                    if m < cv0.entries.len() {
                        assert(cv1.entries[m] == cv0.entries[m]);
                        if matching {
                            assert(hour_chunk(old(cs)@[cvs0.len() - 1]@, host));
                        }
                    } else {
                        assert(cv1.entries[m] == entry@);
                    }
                }
            }
        }
        assert forall|a: int, b: int| 0 <= a < b < cvs1.len() implies (
        #[trigger] cs@[a]@).start < (#[trigger] cs@[b]@).start by {
            assert(cs@[a]@ == cvs1[a] && cs@[b]@ == cvs1[b]);
            if b < cvs1.len() - 1 {
                assert(cvs1[a] == cvs0[a] && cvs1[b] == cvs0[b]);
                assert(old(cs)@[a]@.start < old(cs)@[b]@.start);
            } else {
                assert(cvs1[b] == cv1);
                assert(cvs1[a] == cvs0[a]);
                if matching {
                    assert(cv1.start == old(cs)@[cvs0.len() - 1]@.start);
                    assert(old(cs)@[a]@.start < old(cs)@[cvs0.len() - 1]@.start);
                } else {
                    assert(cv1.start == hour as int);
                    if cvs0.len() > 0 {
                        assert(old(cs)@.last()@.start <= hour as int);
                        assert(old(cs)@.last()@.start != hour as int);
                        if a < cvs0.len() - 1 {
                            assert(old(cs)@[a]@.start < old(cs)@[cvs0.len() - 1]@.start);
                        }
                    }
                }
            }
        }
        assert forall|a: int| 0 <= a < cvs1.len() implies (#[trigger] cs@[a]@).entries.len()
            > 0 by {
            assert(cs@[a]@ == cvs1[a]);
            if a < cvs1.len() - 1 {
                assert(cvs1[a] == cvs0[a]);
                assert(old(cs)@[a]@.entries.len() > 0);
            } else {
                assert(cvs1[a] == cv1);
            }
        }
        assert forall|a: int| 0 <= a < cvs1.len() implies (#[trigger] cs@[a]@).start
            <= hour as int by {
            assert(cs@[a]@ == cvs1[a]);
            if a < cvs1.len() - 1 {
                assert(cvs1[a] == cvs0[a]);
                assert(old(cs)@[a]@.start <= hour as int);
            }
        }
    }
}

impl History {
    /// Regroups every merged entry into hour chunks per host. Fails, and
    /// changes nothing, when a merged entry lies before the epoch.
    fn rebuild_chunks(&mut self) -> (r: Result<(), Error>)
        requires
            old(self).wf(),
        ensures
            final(self).wf(),
            final(self).host@ == old(self).host@,
            final(self).merged@ == old(self).merged@,
            final(self).last_write == old(self).last_write,
            r is Ok ==> final(self).all_entries().to_multiset() == views(
                old(self).merged@,
            ).to_multiset() && (forall|k: int, c: int|
                0 <= k < final(self).history@.len() && 0 <= c
                    < final(self).history@[k]@.chunks.len() ==> hour_chunk(
                    (#[trigger] final(self).history@[k]@.chunks[c]),
                    final(self).history@[k]@.host,
                ) && final(self).history@[k]@.chunks[c].entries.len() > 0) && (forall|
                k: int,
                a: int,
                b: int,
            |
                0 <= k < final(self).history@.len() && 0 <= a < b
                    < final(self).history@[k]@.chunks.len() ==> (
                #[trigger] final(self).history@[k]@.chunks[a]).start < (
                #[trigger] final(self).history@[k]@.chunks[b]).start),
            r matches Err(e) ==> e.kind == ErrorKind::Generic && *final(self) == *old(self),
    {
        broadcast use vstd::seq_lib::group_to_multiset_ensures;

        let ghost mv = views(self.merged@);
        let mut i: usize = 0;
        while i < self.merged.len()
            invariant
                i <= self.merged@.len(),
                *self == *old(self),
                self.wf(),
                mv == views(self.merged@),
                forall|m: int| 0 <= m < i ==> (#[trigger] mv[m]).ts >= 0,
            decreases self.merged@.len() - i,
        {
            if self.merged[i].ts < 0 {
                return Err(Error::of(ErrorKind::Generic));
            }
            i = i + 1;
        }
        let mut nh: Vec<HostChunks> = Vec::new();
        proof {
            assert(host_views(nh@) =~= Seq::<HostChunksV>::empty());
            assert(entries_of_hosts(Seq::<HostChunksV>::empty()) =~= Seq::<EntryV>::empty());
            assert(mv.take(0) =~= Seq::<EntryV>::empty());
        }
        let mut i: usize = 0;
        while i < self.merged.len()
            invariant
                i <= self.merged@.len(),
                mv == views(self.merged@),
                forall|m: int| 0 <= m < mv.len() ==> (#[trigger] mv[m]).ts >= 0,
                sorted_by(mv, entry_le_ff()),
                forall|a: int, b: int|
                    0 <= a < b < nh@.len() ==> (#[trigger] nh@[a]@.host) != (
                    #[trigger] nh@[b]@.host),
                forall|k: int, a: int, b: int|
                    0 <= k < nh@.len() && 0 <= a < b < nh@[k]@.chunks.len() ==> (
                    #[trigger] nh@[k]@.chunks[a]).start < (#[trigger] nh@[k]@.chunks[b]).start,
                forall|k: int, c: int|
                    0 <= k < nh@.len() && 0 <= c < nh@[k]@.chunks.len() ==> hour_chunk(
                        (#[trigger] nh@[k]@.chunks[c]),
                        nh@[k]@.host,
                    ) && nh@[k]@.chunks[c].entries.len() > 0,
                nh@.len() > 0 ==> i > 0,
                i > 0 ==> forall|k: int, c: int|
                    0 <= k < nh@.len() && 0 <= c < nh@[k]@.chunks.len() ==> (
                    #[trigger] nh@[k]@.chunks[c]).start <= spec_hour_floor(mv[i - 1].ts),
                entries_of_hosts(host_views(nh@)).to_multiset() == mv.take(i as int).to_multiset(),
            decreases self.merged@.len() - i,
        {
            let e = self.merged[i].duplicate();
            let ghost ev = mv[i as int];
            let hour = hour_floor(e.ts);
            proof {
                if i > 0 {
                    assert(entry_le_ff()(mv[i - 1], mv[i as int]));
                    assert(entry_le(mv[i - 1], mv[i as int]));
                    assert(mv[i - 1].ts <= mv[i as int].ts);
                    lemma_hour_floor_monotone(mv[i - 1].ts, mv[i as int].ts);
                }
                assert(mv.take(i + 1).drop_last() =~= mv.take(i as int));
                assert(mv.take(i + 1).last() == ev);
                vstd::seq_lib::to_multiset_build(mv.take(i as int), ev);
                assert(mv.take(i as int).push(ev) =~= mv.take(i + 1));
                assert(mv.take(i + 1).to_multiset() == mv.take(i as int).to_multiset().insert(ev));
            }
            let mut j: usize = 0;
            while j < nh.len() && !(nh[j].host == e.host)
                invariant
                    j <= nh@.len(),
                    forall|k: int| 0 <= k < j ==> (#[trigger] nh@[k]@.host) != e@.host,
                    e@ == ev,
                decreases nh@.len() - j,
            {
                j = j + 1;
            }
            if j < nh.len() {
                let ghost g0 = nh@;
                let mut hc = nh.remove(j);
                let ghost hcv0 = hc@;
                proof {
                    assert(g0[j as int]@ == hcv0);
                    assert forall|a: int, b: int| 0 <= a < b < hc.chunks@.len() implies (
                    #[trigger] hc.chunks@[a]@).start < (#[trigger] hc.chunks@[b]@).start by {
                        assert(g0[j as int]@.chunks[a].start < g0[j as int]@.chunks[b].start);
                    }
                    assert forall|a: int| 0 <= a < hc.chunks@.len() implies (
                    #[trigger] hc.chunks@[a]@).entries.len() > 0 by {
                        assert(g0[j as int]@.chunks[a].entries.len() > 0);
                    }
                    assert forall|a: int| 0 <= a < hc.chunks@.len() implies (
                    #[trigger] hc.chunks@[a]@).start <= hour as int by {
                        assert(g0[j as int]@.chunks[a].start <= spec_hour_floor(mv[i - 1].ts));
                    }
                    assert forall|a: int| 0 <= a < hc.chunks@.len() implies hour_chunk(
                        #[trigger] hc.chunks@[a]@,
                        ev.host,
                    ) by {
                        assert(hour_chunk(g0[j as int]@.chunks[a], g0[j as int]@.host));
                    }
                }
                append_to_hour_chunks(&mut hc.chunks, hour, e, Ghost(ev.host));
                let ghost hcv1 = hc@;
                nh.insert(j, hc);
                proof {
                    assert(nh@ =~= g0.update(j as int, hc));
                    let hs0 = host_views(g0);
                    let hs1 = host_views(nh@);
                    assert(hs1.len() == hs0.len());
                    assert(hs1[j as int] == hcv1);
                    assert(forall|k: int|
                        0 <= k < hs0.len() && k != j as int ==> hs1[k] == hs0[k]);
                    lemma_host_update(hs0, hs1, j as int, ev);
                    assert(hcv1.host == hcv0.host);
                }
            } else {
                let ghost g0 = nh@;
                let mut chunks: Vec<Chunk> = Vec::new();
                append_to_hour_chunks(&mut chunks, hour, e, Ghost(ev.host));
                let host_name = self.merged[i].host.clone();
                let hc = HostChunks { host: host_name, chunks };
                let ghost hcv1 = hc@;
                nh.push(hc);
                proof {
                    assert(nh@ =~= g0.push(hc));
                    let hs0 = host_views(g0);
                    let hs1 = host_views(nh@);
                    assert(hs1 =~= hs0.push(hcv1));
                    assert(entries_of_chunks(hcv1.chunks) =~= entries_of_chunks(
                        Seq::<ChunkV>::empty(),
                    ).push(ev));
                    assert(entries_of_chunks(Seq::<ChunkV>::empty()) =~= Seq::<EntryV>::empty());
                    assert(entries_of_chunks(hcv1.chunks) =~= seq![ev]) by {
                        assert(Seq::<EntryV>::empty().push(ev) =~= seq![ev]);
                    }
                    lemma_host_append(hs0, hcv1, ev);
                }
            }
            i = i + 1;
        }
        proof {
            assert(mv.take(self.merged@.len() as int) =~= mv);
        }
        self.history = nh;
        Ok(())
    }

    /// Rebuilds every chunk from the merged view by the hour, and hands
    /// back fresh appends for every host, for a tree that was first
    /// emptied; the watermark moves to `now` and the active chunk is
    /// snapshotted anew.
    pub fn rewrite_all_files(&mut self, now: i64, key: &Vec<u8>) -> (r: Result<
        RewriteOutput,
        Error,
    >)
        requires
            old(self).wf(),
            key@.len() == 32,
        ensures
            final(self).wf(),
            final(self).host@ == old(self).host@,
            final(self).merged@ == old(self).merged@,
            r matches Ok(out) ==> final(self).all_entries().to_multiset() == views(
                old(self).merged@,
            ).to_multiset() && (forall|k: int, c: int|
                0 <= k < final(self).history@.len() && 0 <= c
                    < final(self).history@[k]@.chunks.len() ==> hour_chunk(
                    (#[trigger] final(self).history@[k]@.chunks[c]),
                    final(self).history@[k]@.host,
                ) && final(self).history@[k]@.chunks[c].entries.len() > 0) && (forall|
                k: int,
                a: int,
                b: int,
            |
                0 <= k < final(self).history@.len() && 0 <= a < b
                    < final(self).history@[k]@.chunks.len() ==> (
                #[trigger] final(self).history@[k]@.chunks[a]).start < (
                #[trigger] final(self).history@[k]@.chunks[b]).start) && final(self).last_write
                == now && out.hosts@.len()
                == final(self).history@.len() && (forall|k: int|
                0 <= k < out.hosts@.len() ==> (#[trigger] out.hosts@[k]).host@
                    == final(self).history@[k]@.host) && (forall|k: int, a: int|
                0 <= k < out.hosts@.len() && 0 <= a < crate::store::kept_chunks(
                    final(self).history@[k]@.chunks,
                    0,
                ).len() ==> crate::store::app_matches(
                    #[trigger] (out.hosts@[k].appends@[a])@,
                    crate::store::kept_chunks(final(self).history@[k]@.chunks, 0)[a],
                    key@,
                )) && (forall|k: int|
                0 <= k < out.hosts@.len() ==> (#[trigger] out.hosts@[k]).appends@.len()
                    == crate::store::kept_chunks(final(self).history@[k]@.chunks, 0).len()) && (
            out.state matches Some(b) ==> state_reflects(*final(self), b@, key@)),
    {
        match self.rebuild_chunks() {
            Ok(()) => {},
            Err(e) => {
                return Err(e);
            },
        }
        let mut hosts_out: Vec<HostAppends> = Vec::new();
        let ghost rebuilt = *self;
        let mut k: usize = 0;
        while k < self.history.len()
            invariant
                k <= self.history@.len(),
                key@.len() == 32,
                *self == rebuilt,
                rebuilt.wf(),
                rebuilt.host@ == old(self).host@,
                rebuilt.merged@ == old(self).merged@,
                hosts_out@.len() == k,
                forall|m: int|
                    0 <= m < k ==> (#[trigger] hosts_out@[m]).host@
                        == self.history@[m]@.host,
                forall|m: int, a: int|
                    0 <= m < k && 0 <= a < crate::store::kept_chunks(
                        self.history@[m]@.chunks,
                        0,
                    ).len() ==> crate::store::app_matches(
                        #[trigger] (hosts_out@[m].appends@[a])@,
                        crate::store::kept_chunks(self.history@[m]@.chunks, 0)[a],
                        key@,
                    ),
                forall|m: int|
                    0 <= m < k ==> (#[trigger] hosts_out@[m]).appends@.len()
                        == crate::store::kept_chunks(self.history@[m]@.chunks, 0).len(),
            decreases self.history@.len() - k,
        {
            let apps = match crate::store::write_chunks(&self.history[k].chunks, 0, key) {
                Ok(a) => a,
                Err(e) => {
                    return Err(e);
                },
            };
            let host_name = self.history[k].host.clone();
            hosts_out.push(HostAppends { host: host_name, appends: apps });
            k = k + 1;
        }
        self.last_write = now;
        let state = self.snapshot_active(key);
        Ok(RewriteOutput { hosts: hosts_out, state })
    }
}

} // verus!
