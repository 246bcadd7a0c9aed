//! The merged view: collapsing every entry with one id to one survivor.
//!
//! All entries of all hosts are grouped by id. Each group is sorted by the
//! total order; the survivor is a copy of the group's least entry whose
//! command is taken from the group's greatest — the latest edit wins while
//! the first occurrence keeps its place in time. A survivor with an empty command is
//! a tombstone and is dropped. The survivors, sorted by the total order,
//! are the merged view.

use vstd::prelude::*;
use vstd::relations::{sorted_by, total_ordering};
use vstd::multiset::Multiset;
use vstd::seq_lib::{lemma_multiset_commutative, lemma_sorted_unique};

use crate::entry::{entry_le, entry_le_exec, entry_le_ff, lemma_entry_le_antisym,
    lemma_entry_le_connected, lemma_entry_le_total_ordering, lemma_entry_le_transitive, views,
    Entry, EntryV};

verus! {

/// A live entry: not a tombstone.
pub open spec fn is_live(e: EntryV) -> bool {
    e.cmd.len() != 0
}

/// The liveness test as a first-class predicate.
pub open spec fn live_pred() -> spec_fn(EntryV) -> bool {
    |e: EntryV| is_live(e)
}

/// The test for one id as a first-class predicate.
pub open spec fn has_id(id: u128) -> spec_fn(EntryV) -> bool {
    |e: EntryV| e.id == id
}

/// All entries of `s` carrying `id`, in order.
pub open spec fn group_of(s: Seq<EntryV>, id: u128) -> Seq<EntryV> {
    s.filter(has_id(id))
}

/// The distinct ids of `s`, in order of first appearance.
pub open spec fn ids_of(s: Seq<EntryV>) -> Seq<u128>
    decreases s.len(),
{
    if s.len() == 0 {
        Seq::empty()
    } else {
        let rest = ids_of(s.drop_last());
        if rest.contains(s.last().id) {
            rest
        } else {
            rest.push(s.last().id)
        }
    }
}

/// The least entry of a non-empty group under the total order.
pub open spec fn min_of(g: Seq<EntryV>) -> EntryV
    recommends
        g.len() > 0,
{
    g.sort_by(entry_le_ff()).first()
}

/// The greatest entry of a non-empty group under the total order.
pub open spec fn max_of(g: Seq<EntryV>) -> EntryV
    recommends
        g.len() > 0,
{
    g.sort_by(entry_le_ff()).last()
}

/// The survivor of a non-empty group: the least entry with the greatest
/// entry's command.
pub open spec fn collapse_group(g: Seq<EntryV>) -> EntryV
    recommends
        g.len() > 0,
{
    EntryV { cmd: max_of(g).cmd, ..min_of(g) }
}

/// The survivor for one id of `s`.
pub open spec fn collapse(s: Seq<EntryV>, id: u128) -> EntryV
    recommends
        group_of(s, id).len() > 0,
{
    collapse_group(group_of(s, id))
}

/// The survivor map as a first-class function.
pub open spec fn collapser(s: Seq<EntryV>) -> spec_fn(u128) -> EntryV {
    |id: u128| collapse(s, id)
}

/// The live survivors for a given id order.
pub open spec fn cand_list(s: Seq<EntryV>, ids: Seq<u128>) -> Seq<EntryV> {
    ids.map_values(collapser(s)).filter(live_pred())
}

/// The merged view of `s`: one live survivor per id, in the total order.
pub open spec fn merged_of(s: Seq<EntryV>) -> Seq<EntryV> {
    cand_list(s, ids_of(s)).sort_by(entry_le_ff())
}

/// `ids_of` lists exactly the ids of `s`, each once.
pub proof fn lemma_ids_of(s: Seq<EntryV>)
    ensures
        ids_of(s).no_duplicates(),
        forall|id: u128|
            ids_of(s).contains(id) <==> exists|k: int| 0 <= k < s.len() && #[trigger] s[k].id == id,
    decreases s.len(),
{
    if s.len() == 0 {
    } else {
        lemma_ids_of(s.drop_last());
        let rest = ids_of(s.drop_last());
        assert forall|id: u128| ids_of(s).contains(id) implies exists|k: int|
            0 <= k < s.len() && #[trigger] s[k].id == id by {
            if rest.contains(id) {
                let k = choose|k: int| 0 <= k < s.drop_last().len() && #[trigger] s.drop_last()[k].id
                    == id;
                assert(s[k].id == id);
            } else {
                assert(s[s.len() - 1].id == id);
            }
        }
        assert forall|id: u128| (exists|k: int| 0 <= k < s.len() && #[trigger] s[k].id == id)
            implies ids_of(s).contains(id) by {
            let k = choose|k: int| 0 <= k < s.len() && #[trigger] s[k].id == id;
            if k < s.len() - 1 {
                assert(s.drop_last()[k].id == id);
                assert(rest.contains(id));
                let m = choose|m: int| 0 <= m < rest.len() && rest[m] == id;
                if !rest.contains(s.last().id) {
                    assert(ids_of(s)[m] == id);
                } else {
                    assert(ids_of(s) == rest);
                }
            } else {
                if !rest.contains(s.last().id) {
                    assert(ids_of(s) == rest.push(s.last().id));
                    assert(ids_of(s)[rest.len() as int] == id);
                } else {
                    assert(ids_of(s) == rest);
                }
            }
        }
    }
}

/// Every member of a group carries the group's id, and membership in the
/// group is membership in `s` with that id.
pub proof fn lemma_group_members(s: Seq<EntryV>, id: u128)
    ensures
        forall|k: int|
            0 <= k < group_of(s, id).len() ==> (#[trigger] group_of(s, id)[k]).id == id,
        forall|e: EntryV| group_of(s, id).contains(e) <==> s.contains(e) && e.id == id,
        (group_of(s, id).len() > 0) <==> (exists|k: int|
            0 <= k < s.len() && (#[trigger] s[k].id) == id),
{
    broadcast use vstd::seq_lib::group_filter_ensures;

    assert forall|e: EntryV| s.contains(e) && e.id == id implies group_of(s, id).contains(e) by {
        let k = choose|k: int| 0 <= k < s.len() && s[k] == e;
        assert(has_id(id)(s[k]));
        assert(s.filter(has_id(id)).contains(s[k]));
    }
    assert forall|e: EntryV| group_of(s, id).contains(e) implies s.contains(e) && e.id == id by {
        s.lemma_filter_contains_rev(has_id(id), e);
        let k = choose|k: int| 0 <= k < group_of(s, id).len() && group_of(s, id)[k] == e;
        assert(has_id(id)(group_of(s, id)[k]));
    }
    if group_of(s, id).len() > 0 {
        let e = group_of(s, id)[0];
        assert(group_of(s, id).contains(e));
        s.lemma_filter_contains_rev(has_id(id), e);
        assert(has_id(id)(group_of(s, id)[0]));
        let k = choose|k: int| 0 <= k < s.len() && s[k] == e;
        assert(s[k].id == id);
    }
    if exists|k: int| 0 <= k < s.len() && (#[trigger] s[k].id) == id {
        let k = choose|k: int| 0 <= k < s.len() && (#[trigger] s[k].id) == id;
        assert(s.contains(s[k]));
        assert(group_of(s, id).contains(s[k]));
        assert(group_of(s, id).len() > 0);
    }
}

/// The least and greatest entries of a non-empty group belong to it and
/// bound it.
pub proof fn lemma_min_max(g: Seq<EntryV>)
    requires
        g.len() > 0,
    ensures
        g.contains(min_of(g)),
        g.contains(max_of(g)),
        forall|x: EntryV| g.contains(x) ==> entry_le(min_of(g), x),
        forall|x: EntryV| g.contains(x) ==> entry_le(x, max_of(g)),
{
    lemma_entry_le_total_ordering();
    g.lemma_sort_by_ensures(entry_le_ff());
    let st = g.sort_by(entry_le_ff());
    assert(st.to_multiset() == g.to_multiset());
    vstd::seq_lib::to_multiset_len(g);
    vstd::seq_lib::to_multiset_len(st);
    assert(st.len() == g.len());
    assert(st.contains(st.first()));
    vstd::seq_lib::to_multiset_contains(st, st.first());
    vstd::seq_lib::to_multiset_contains(g, st.first());
    assert(g.contains(min_of(g)));
    assert(st.contains(st.last()));
    vstd::seq_lib::to_multiset_contains(st, st.last());
    vstd::seq_lib::to_multiset_contains(g, st.last());
    assert(g.contains(max_of(g)));
    assert forall|x: EntryV| g.contains(x) implies entry_le(min_of(g), x) && entry_le(
        x,
        max_of(g),
    ) by {
        vstd::seq_lib::to_multiset_contains(g, x);
        vstd::seq_lib::to_multiset_contains(st, x);
        assert(st.contains(x));
        let k = choose|k: int| 0 <= k < st.len() && st[k] == x;
        if k > 0 {
            assert(sorted_by(st, entry_le_ff()));
            assert(entry_le_ff()(st[0], st[k]));
        } else {
            lemma_entry_le_connected(st[0], st[0]);
        }
        if k < st.len() - 1 {
            assert(entry_le_ff()(st[k], st[st.len() - 1]));
        } else {
            lemma_entry_le_connected(st[k], st[k]);
        }
        assert(entry_le(min_of(g), x));
        assert(entry_le(x, max_of(g)));
    }
}

/// Whatever belongs to a group and bounds it from below is its least
/// entry; likewise from above.
pub proof fn lemma_min_max_unique(g: Seq<EntryV>, m: EntryV, x: EntryV)
    requires
        g.contains(m),
        forall|y: EntryV| g.contains(y) ==> entry_le(m, y),
        g.contains(x),
        forall|y: EntryV| g.contains(y) ==> entry_le(y, x),
    ensures
        m == min_of(g),
        x == max_of(g),
{
    lemma_entry_le_total_ordering();
    lemma_min_max(g);
    assert(entry_le(m, min_of(g)) && entry_le(min_of(g), m));
    assert(entry_le(max_of(g), x) && entry_le(x, max_of(g)));
    assert(entry_le_ff()(m, min_of(g)) && entry_le_ff()(min_of(g), m));
    assert(entry_le_ff()(max_of(g), x) && entry_le_ff()(x, max_of(g)));
}

/// The survivor of a group of one id carries that id.
pub proof fn lemma_collapse_id(s: Seq<EntryV>, id: u128)
    requires
        group_of(s, id).len() > 0,
    ensures
        collapse(s, id).id == id,
{
    lemma_group_members(s, id);
    lemma_min_max(group_of(s, id));
}

/// Picks the least entry of a non-empty batch.
pub fn find_min_entry(es: &Vec<Entry>) -> (r: Entry)
    requires
        es@.len() > 0,
    ensures
        r@ == min_of(views(es@)),
{
    let mut best = es[0].duplicate();
    proof {
        assert(views(es@)[0] == best@);
        lemma_entry_le_connected(best@, best@);
    }
    let mut i: usize = 1;
    while i < es.len()
        invariant
            1 <= i <= es@.len(),
            views(es@).contains(best@),
            forall|k: int| 0 <= k < i ==> entry_le(best@, #[trigger] views(es@)[k]),
        decreases es@.len() - i,
    {
        let ghost prev = best@;
        if entry_le_exec(&es[i], &best) {
            best = es[i].duplicate();
            proof {
                assert(views(es@)[i as int] == best@);
                assert forall|k: int| 0 <= k < i + 1 implies entry_le(
                    best@,
                    #[trigger] views(es@)[k],
                ) by {
                    if k < i {
                        lemma_entry_le_transitive(best@, prev, views(es@)[k]);
                    } else {
                        lemma_entry_le_connected(best@, best@);
                    }
                }
            }
        } else {
            proof {
                lemma_entry_le_connected(best@, views(es@)[i as int]);
            }
        }
        i = i + 1;
    }
    proof {
        assert forall|y: EntryV| views(es@).contains(y) implies entry_le(best@, y) by {
            let k = choose|k: int| 0 <= k < views(es@).len() && views(es@)[k] == y;
            assert(entry_le(best@, views(es@)[k]));
        }
        lemma_min_max_witness(views(es@), best@);
    }
    best
}

proof fn lemma_min_max_witness(g: Seq<EntryV>, m: EntryV)
    requires
        g.len() > 0,
        g.contains(m),
        forall|y: EntryV| g.contains(y) ==> entry_le(m, y),
    ensures
        m == min_of(g),
{
    lemma_min_max(g);
    lemma_min_max_unique(g, m, max_of(g));
}

proof fn lemma_max_witness(g: Seq<EntryV>, x: EntryV)
    requires
        g.len() > 0,
        g.contains(x),
        forall|y: EntryV| g.contains(y) ==> entry_le(y, x),
    ensures
        x == max_of(g),
{
    lemma_min_max(g);
    lemma_min_max_unique(g, min_of(g), x);
}

/// Picks the greatest entry of a non-empty batch.
pub fn find_max_entry(es: &Vec<Entry>) -> (r: Entry)
    requires
        es@.len() > 0,
    ensures
        r@ == max_of(views(es@)),
{
    let mut best = es[0].duplicate();
    proof {
        assert(views(es@)[0] == best@);
        lemma_entry_le_connected(best@, best@);
    }
    let mut i: usize = 1;
    while i < es.len()
        invariant
            1 <= i <= es@.len(),
            views(es@).contains(best@),
            forall|k: int| 0 <= k < i ==> entry_le(#[trigger] views(es@)[k], best@),
        decreases es@.len() - i,
    {
        let ghost prev = best@;
        if entry_le_exec(&best, &es[i]) {
            best = es[i].duplicate();
            proof {
                assert(views(es@)[i as int] == best@);
                assert forall|k: int| 0 <= k < i + 1 implies entry_le(
                    #[trigger] views(es@)[k],
                    best@,
                ) by {
                    if k < i {
                        lemma_entry_le_transitive(views(es@)[k], prev, best@);
                    } else {
                        lemma_entry_le_connected(best@, best@);
                    }
                }
            }
        } else {
            proof {
                lemma_entry_le_connected(best@, views(es@)[i as int]);
            }
        }
        i = i + 1;
    }
    proof {
        assert forall|y: EntryV| views(es@).contains(y) implies entry_le(y, best@) by {
            let k = choose|k: int| 0 <= k < views(es@).len() && views(es@)[k] == y;
            assert(entry_le(views(es@)[k], best@));
        }
        lemma_max_witness(views(es@), best@);
    }
    best
}

/// The survivor of one non-empty group.
pub fn collapse_entries(es: &Vec<Entry>) -> (r: Entry)
    requires
        es@.len() > 0,
    ensures
        r@ == collapse_group(views(es@)),
{
    let min = find_min_entry(es);
    let max = find_max_entry(es);
    Entry {
        id: min.id,
        ts: min.ts,
        host: min.host,
        cmd: max.cmd,
        path: min.path,
        session: min.session,
    }
}

/// Sorts a batch by the total order; the result holds the same entries.
pub fn sort_entries(v: Vec<Entry>) -> (r: Vec<Entry>)
    ensures
        sorted_by(views(r@), entry_le_ff()),
        views(r@).to_multiset() == views(v@).to_multiset(),
{
    broadcast use vstd::seq_lib::group_to_multiset_ensures;

    let mut out: Vec<Entry> = Vec::new();
    let mut i: usize = 0;
    while i < v.len()
        invariant
            i <= v@.len(),
            sorted_by(views(out@), entry_le_ff()),
            views(out@).to_multiset() == views(v@).take(i as int).to_multiset(),
        decreases v@.len() - i,
    {
        let e = v[i].duplicate();
        let mut j: usize = 0;
        while j < out.len() && entry_le_exec(&out[j], &e)
            invariant
                j <= out@.len(),
                forall|k: int| 0 <= k < j ==> entry_le(#[trigger] views(out@)[k], e@),
            decreases out@.len() - j,
        {
            j = j + 1;
        }
        proof {
            if j < out@.len() {
                lemma_entry_le_connected(views(out@)[j as int], e@);
                assert(entry_le(e@, views(out@)[j as int]));
            }
        }
        let ghost pre = views(out@);
        out.insert(j, e);
        proof {
            assert(views(out@) =~= pre.insert(j as int, e@));
            vstd::seq_lib::to_multiset_insert(pre, j as int, e@);
            assert(views(v@).take(i + 1).drop_last() =~= views(v@).take(i as int));
            assert(views(v@).take(i + 1).last() == views(v@)[i as int]);
            vstd::seq_lib::to_multiset_build(views(v@).take(i as int), views(v@)[i as int]);
            assert(views(v@).take(i as int).push(views(v@)[i as int]) =~= views(v@).take(i + 1));
            assert forall|a: int, b: int| 0 <= a < b < pre.insert(j as int, e@).len() implies
                entry_le_ff()(
                #[trigger] pre.insert(j as int, e@)[a],
                #[trigger] pre.insert(j as int, e@)[b],
            ) by {
                let s2 = pre.insert(j as int, e@);
                if a < j && b < j {
                    assert(s2[a] == pre[a] && s2[b] == pre[b]);
                    assert(entry_le_ff()(pre[a], pre[b]));
                } else if a < j && b == j {
                    assert(s2[a] == pre[a] && s2[b] == e@);
                    assert(entry_le(pre[a], e@));
                } else if a < j && b > j {
                    assert(s2[a] == pre[a] && s2[b] == pre[b - 1]);
                    if b - 1 == a {
                        lemma_entry_le_connected(pre[a], pre[a]);
                    } else {
                        assert(entry_le_ff()(pre[a], pre[b - 1]));
                    }
                } else if a == j && b > j {
                    assert(s2[a] == e@ && s2[b] == pre[b - 1]);
                    assert(entry_le(e@, pre[j as int]));
                    if b - 1 > j {
                        assert(entry_le_ff()(pre[j as int], pre[b - 1]));
                        lemma_entry_le_transitive(e@, pre[j as int], pre[b - 1]);
                    }
                } else {
                    assert(a > j && b > j);
                    assert(s2[a] == pre[a - 1] && s2[b] == pre[b - 1]);
                    assert(entry_le_ff()(pre[a - 1], pre[b - 1]));
                }
                assert(entry_le(s2[a], s2[b]));
            }
        }
        i = i + 1;
    }
    proof {
        assert(views(v@).take(v@.len() as int) =~= views(v@));
    }
    out
}

/// One id's entries, gathered while grouping.
struct IdGroup {
    id: u128,
    entries: Vec<Entry>,
}

/// The ids of a run of groups, in order.
spec fn gids(gs: Seq<IdGroup>) -> Seq<u128> {
    gs.map_values(|g: IdGroup| g.id)
}

/// Computes the merged view of a flat batch of entries.
pub fn merge_entries(all: &Vec<Entry>) -> (r: Vec<Entry>)
    ensures
        views(r@) == merged_of(views(all@)),
{
    broadcast use vstd::seq_lib::group_filter_ensures;

    let ghost s = views(all@);
    let mut groups: Vec<IdGroup> = Vec::new();
    let mut i: usize = 0;
    while i < all.len()
        invariant
            i <= all@.len(),
            s == views(all@),
            gids(groups@) =~= ids_of(views(all@).take(i as int)),
            forall|k: int|
                0 <= k < groups@.len() ==> views(#[trigger] groups@[k].entries@) =~= group_of(
                    views(all@).take(i as int),
                    groups@[k].id,
                ),
            forall|k: int| 0 <= k < groups@.len() ==> #[trigger] groups@[k].entries@.len() > 0,
        decreases all@.len() - i,
    {
        broadcast use vstd::seq_lib::group_filter_ensures;

        let e = all[i].duplicate();
        let ghost prefix = views(all@).take(i as int);
        proof {
            assert(views(all@).take(i + 1).drop_last() =~= prefix);
            assert(views(all@).take(i + 1).last() == e@);
            assert(prefix.push(e@) =~= views(all@).take(i + 1));
        }
        let mut j: usize = 0;
        while j < groups.len() && groups[j].id != e.id
            invariant
                j <= groups@.len(),
                forall|k: int| 0 <= k < j ==> (#[trigger] gids(groups@)[k]) != e.id,
                e@ == views(all@)[i as int],
                i < all@.len(),
            decreases groups@.len() - j,
        {
            j = j + 1;
        }
        let found = j < groups.len();
        proof {
            if found {
                assert(gids(groups@)[j as int] == e.id);
            }
        }
        let ghost g0 = groups@;
        let ghost cur = views(all@).take(i + 1);
        let ghost ev = views(all@)[i as int];
        proof {
            assert(cur == prefix.push(ev));
            lemma_ids_of(prefix);
        }
        if found {
            let mut g = groups.remove(j);
            g.entries.push(e);
            let ghost gv = g;
            groups.insert(j, g);
            proof {
                assert(groups@ =~= g0.update(j as int, gv));
                assert(gids(g0)[j as int] == ev.id);
                assert(ids_of(prefix)[j as int] == ev.id);
                assert(ids_of(prefix).contains(ev.id));
                assert(ids_of(cur) == ids_of(prefix));
                assert(gids(groups@) =~= gids(g0));
                assert(gids(groups@) =~= ids_of(cur));
                assert forall|k: int| 0 <= k < groups@.len() implies views(
                    #[trigger] groups@[k].entries@,
                ) =~= group_of(cur, groups@[k].id) by {
                    prefix.lemma_filter_push(ev, has_id(groups@[k].id));
                    if k == j {
                        assert(groups@[k] == gv);
                        assert(has_id(groups@[k].id)(ev));
                        assert(views(gv.entries@) =~= views(g0[j as int].entries@).push(ev));
                        assert(group_of(cur, groups@[k].id) == group_of(
                            prefix,
                            groups@[k].id,
                        ).push(ev));
                    } else {
                        assert(groups@[k] == g0[k]);
                        assert(gids(g0)[k] != gids(g0)[j as int]) by {
                            assert(ids_of(prefix).no_duplicates());
                        }
                        assert(!has_id(groups@[k].id)(ev));
                        assert(group_of(cur, groups@[k].id) == group_of(prefix, groups@[k].id));
                    }
                }
            }
        } else {
            let mut entries: Vec<Entry> = Vec::new();
            entries.push(e);
            groups.push(IdGroup { id: all[i].id, entries });
            proof {
                assert(groups@ =~= g0.push(groups@[g0.len() as int]));
                assert(!ids_of(prefix).contains(ev.id)) by {
                    if ids_of(prefix).contains(ev.id) {
                        let m = choose|m: int|
                            0 <= m < ids_of(prefix).len() && ids_of(prefix)[m] == ev.id;
                        assert(gids(g0)[m] == ev.id);
                    }
                }
                assert(ids_of(cur) == ids_of(prefix).push(ev.id));
                assert(gids(groups@) =~= gids(g0).push(ev.id));
                assert(gids(groups@) =~= ids_of(cur));
                assert forall|k: int| 0 <= k < groups@.len() implies views(
                    #[trigger] groups@[k].entries@,
                ) =~= group_of(cur, groups@[k].id) by {
                    prefix.lemma_filter_push(ev, has_id(groups@[k].id));
                    if k == g0.len() {
                        assert(has_id(groups@[k].id)(ev));
                        lemma_group_members(prefix, ev.id);
                        assert(group_of(prefix, ev.id).len() == 0) by {
                            if group_of(prefix, ev.id).len() > 0 {
                                let m = choose|m: int|
                                    0 <= m < prefix.len() && (#[trigger] prefix[m].id) == ev.id;
                                assert(ids_of(prefix).contains(ev.id));
                            }
                        }
                        assert(group_of(cur, groups@[k].id) == group_of(
                            prefix,
                            groups@[k].id,
                        ).push(ev));
                        assert(views(groups@[k].entries@) =~= Seq::<EntryV>::empty().push(ev));
                        assert(group_of(prefix, groups@[k].id) + seq![ev] =~= Seq::<
                            EntryV,
                        >::empty().push(ev));
                    } else {
                        assert(groups@[k] == g0[k]);
                        assert(gids(g0)[k] != ev.id);
                        assert(!has_id(groups@[k].id)(ev));
                        assert(group_of(cur, groups@[k].id) == group_of(prefix, groups@[k].id));
                    }
                }
            }
        }
        i = i + 1;
    }
    proof {
        assert(views(all@).take(all@.len() as int) =~= views(all@));
    }
    let mut cands: Vec<Entry> = Vec::new();
    let mut j: usize = 0;
    while j < groups.len()
        invariant
            j <= groups@.len(),
            s == views(all@),
            gids(groups@) =~= ids_of(s),
            forall|k: int|
                0 <= k < groups@.len() ==> views(#[trigger] groups@[k].entries@) =~= group_of(
                    s,
                    groups@[k].id,
                ),
            forall|k: int| 0 <= k < groups@.len() ==> #[trigger] groups@[k].entries@.len() > 0,
            views(cands@) =~= cand_list(s, gids(groups@).take(j as int)),
        decreases groups@.len() - j,
    {
        broadcast use vstd::seq_lib::group_filter_ensures;

        let c = collapse_entries(&groups[j].entries);
        let ghost idsj = gids(groups@).take(j as int);
        proof {
            assert(views(groups@[j as int].entries@) =~= group_of(s, groups@[j as int].id));
            assert(c@ == collapse(s, groups@[j as int].id));
            assert(idsj.push(groups@[j as int].id) =~= gids(groups@).take(j + 1));
            assert(idsj.push(groups@[j as int].id).map_values(collapser(s)) =~= idsj.map_values(
                collapser(s),
            ).push(c@));
            idsj.map_values(collapser(s)).lemma_filter_push(c@, live_pred());
        }
        if !c.cmd.as_str().is_empty() {
            proof {
                assert(is_live(c@));
            }
            cands.push(c);
        } else {
            proof {
                assert(!is_live(c@));
            }
        }
        j = j + 1;
    }
    proof {
        assert(gids(groups@).take(groups@.len() as int) =~= gids(groups@));
    }
    let merged = sort_entries(cands);
    proof {
        lemma_entry_le_total_ordering();
        let pre = cand_list(s, ids_of(s));
        assert(views(cands@) =~= pre);
        pre.lemma_sort_by_ensures(entry_le_ff());
        lemma_sorted_unique(views(merged@), pre.sort_by(entry_le_ff()), entry_le_ff());
        assert(views(merged@) =~= merged_of(s));
    }
    merged
}


/// Elementwise facts about the live survivors of a given id order.
proof fn lemma_cand_ids(s: Seq<EntryV>, ids: Seq<u128>)
    requires
        forall|m: int| 0 <= m < ids.len() ==> group_of(s, #[trigger] ids[m]).len() > 0,
    ensures
        forall|k: int|
            0 <= k < cand_list(s, ids).len() ==> ids.contains((#[trigger] cand_list(s, ids)[k]).id)
                && cand_list(s, ids)[k] == collapse(s, cand_list(s, ids)[k].id) && is_live(
                cand_list(s, ids)[k],
            ),
    decreases ids.len(),
{
    broadcast use vstd::seq_lib::group_filter_ensures;

    let mapped = ids.map_values(collapser(s));
    let cand = cand_list(s, ids);
    assert forall|k: int| 0 <= k < cand.len() implies ids.contains((#[trigger] cand[k]).id)
        && cand[k] == collapse(s, cand[k].id) && is_live(cand[k]) by {
        assert(live_pred()(cand[k]));
        mapped.lemma_filter_contains_rev(live_pred(), cand[k]);
        let m = choose|m: int| 0 <= m < mapped.len() && mapped[m] == cand[k];
        assert(mapped[m] == collapse(s, ids[m]));
        lemma_collapse_id(s, ids[m]);
        assert(cand[k].id == ids[m]);
    }
}

/// Two positions of the live-survivor list carry different ids when the
/// id order has no duplicates.
proof fn lemma_cand_distinct(s: Seq<EntryV>, ids: Seq<u128>, a: int, b: int)
    requires
        forall|m: int| 0 <= m < ids.len() ==> group_of(s, #[trigger] ids[m]).len() > 0,
        ids.no_duplicates(),
        0 <= a < b < cand_list(s, ids).len(),
    ensures
        cand_list(s, ids)[a].id != cand_list(s, ids)[b].id,
    decreases ids.len(),
{
    broadcast use vstd::seq_lib::group_filter_ensures;

    if ids.len() == 0 {
    } else {
        let ids0 = ids.drop_last();
        let x = ids.last();
        let mapped = ids.map_values(collapser(s));
        let mapped0 = ids0.map_values(collapser(s));
        assert(mapped =~= mapped0.push(collapse(s, x)));
        mapped0.lemma_filter_push(collapse(s, x), live_pred());
        let cand = cand_list(s, ids);
        let cand0 = cand_list(s, ids0);
        assert forall|m: int| 0 <= m < ids0.len() implies group_of(
            s,
            #[trigger] ids0[m],
        ).len() > 0 by {
            assert(ids0[m] == ids[m]);
        }
        if is_live(collapse(s, x)) {
            assert(cand == cand0.push(collapse(s, x)));
            if b < cand0.len() {
                lemma_cand_distinct(s, ids0, a, b);
                assert(cand[a] == cand0[a] && cand[b] == cand0[b]);
            } else {
                assert(cand[b] == collapse(s, x));
                lemma_collapse_id(s, x);
                assert(cand[a] == cand0[a]);
                lemma_cand_ids(s, ids0);
                assert(ids0.contains(cand0[a].id));
                let m = choose|m: int| 0 <= m < ids0.len() && ids0[m] == cand0[a].id;
                assert(ids[m] == cand0[a].id);
                assert(ids[m] != ids[ids.len() - 1]);
            }
        } else {
            assert(cand == cand0);
            lemma_cand_distinct(s, ids0, a, b);
            assert(cand[a] == cand0[a] && cand[b] == cand0[b]);
        }
    }
}

/// Two distinct positions holding the same value give that value a count
/// of at least two.
proof fn lemma_dup_count(s: Seq<EntryV>, a: int, b: int)
    requires
        0 <= a < b < s.len(),
        s[a] == s[b],
    ensures
        s.to_multiset().count(s[a]) >= 2,
{
    broadcast use vstd::seq_lib::group_to_multiset_ensures;

    let s0 = s.subrange(0, b);
    let s1 = s.subrange(b, s.len() as int);
    assert(s =~= s0 + s1);
    lemma_multiset_commutative(s0, s1);
    assert(s0[a] == s[a]);
    assert(s0.contains(s[a]));
    vstd::seq_lib::to_multiset_contains(s0, s[a]);
    assert(s1[0] == s[b]);
    assert(s1.contains(s[a]));
    vstd::seq_lib::to_multiset_contains(s1, s[a]);
}

/// In the merged view every id appears at most once; the one entry that
/// carries an id is its group's survivor, and it is live. An id whose
/// survivor is a tombstone, or that no entry carries, is absent.
pub proof fn lemma_merged_one_per_id(s: Seq<EntryV>)
    ensures
        forall|i: int|
            0 <= i < merged_of(s).len() ==> (#[trigger] merged_of(s)[i]) == collapse(
                s,
                merged_of(s)[i].id,
            ) && is_live(merged_of(s)[i]) && group_of(s, merged_of(s)[i].id).len() > 0,
        forall|i: int, j: int|
            0 <= i < j < merged_of(s).len() ==> (#[trigger] merged_of(s)[i]).id != (
            #[trigger] merged_of(s)[j]).id,
        forall|id: u128|
            ((#[trigger] group_of(s, id)).len() > 0 && is_live(collapse(s, id))) <==> exists|i: int|
                0 <= i < merged_of(s).len() && (#[trigger] merged_of(s)[i]).id == id,
{
    broadcast use vstd::seq_lib::group_filter_ensures;
    broadcast use vstd::seq_lib::group_to_multiset_ensures;

    lemma_entry_le_total_ordering();
    lemma_ids_of(s);
    let ids = ids_of(s);
    assert forall|m: int| 0 <= m < ids.len() implies group_of(s, #[trigger] ids[m]).len() > 0 by {
        assert(ids.contains(ids[m]));
        let k = choose|k: int| 0 <= k < s.len() && #[trigger] s[k].id == ids[m];
        lemma_group_members(s, ids[m]);
    }
    lemma_cand_ids(s, ids);
    let cand = cand_list(s, ids);
    let merged = merged_of(s);
    cand.lemma_sort_by_ensures(entry_le_ff());
    assert(merged.to_multiset() == cand.to_multiset());
    assert forall|i: int| 0 <= i < merged.len() implies (#[trigger] merged[i]) == collapse(
        s,
        merged[i].id,
    ) && is_live(merged[i]) && group_of(s, merged[i].id).len() > 0 by {
        assert(merged.contains(merged[i]));
        vstd::seq_lib::to_multiset_contains(merged, merged[i]);
        vstd::seq_lib::to_multiset_contains(cand, merged[i]);
        let k = choose|k: int| 0 <= k < cand.len() && cand[k] == merged[i];
        assert(ids.contains(cand[k].id));
        let m = choose|m: int| 0 <= m < ids.len() && ids[m] == cand[k].id;
    }
    assert(cand.no_duplicates()) by {
        assert forall|a: int, b: int| 0 <= a < cand.len() && 0 <= b < cand.len() && a != b
            implies cand[a] != cand[b] by {
            if a < b {
                lemma_cand_distinct(s, ids, a, b);
            } else {
                lemma_cand_distinct(s, ids, b, a);
            }
        }
    }
    cand.lemma_multiset_has_no_duplicates();
    assert forall|x: EntryV| merged.to_multiset().contains(x) implies merged.to_multiset().count(x)
        == 1 by {}
    merged.lemma_multiset_has_no_duplicates_conv();
    assert forall|i: int, j: int| 0 <= i < j < merged.len() implies (#[trigger] merged[i]).id != (
    #[trigger] merged[j]).id by {
        if merged[i].id == merged[j].id {
            assert(merged[i] == collapse(s, merged[i].id));
            assert(merged[j] == collapse(s, merged[j].id));
            assert(merged[i] == merged[j]);
        }
    }
    assert forall|id: u128|
        ((#[trigger] group_of(s, id)).len() > 0 && is_live(collapse(s, id))) implies exists|i: int|
            0 <= i < merged.len() && (#[trigger] merged[i]).id == id by {
        lemma_group_members(s, id);
        let k = choose|k: int| 0 <= k < s.len() && (#[trigger] s[k].id) == id;
        assert(ids.contains(id));
        let m = choose|m: int| 0 <= m < ids.len() && ids[m] == id;
        let mapped = ids.map_values(collapser(s));
        assert(mapped[m] == collapse(s, id));
        assert(live_pred()(mapped[m]));
        assert(mapped.filter(live_pred()).contains(mapped[m]));
        vstd::seq_lib::to_multiset_contains(cand, collapse(s, id));
        vstd::seq_lib::to_multiset_contains(merged, collapse(s, id));
        assert(merged.contains(collapse(s, id)));
        let i = choose|i: int| 0 <= i < merged.len() && merged[i] == collapse(s, id);
        lemma_collapse_id(s, id);
        assert(merged[i].id == id);
    }
    assert forall|id: u128|
        (exists|i: int| 0 <= i < merged.len() && (#[trigger] merged[i]).id == id) implies ((
        #[trigger] group_of(s, id)).len() > 0 && is_live(collapse(s, id))) by {
        let i = choose|i: int| 0 <= i < merged.len() && (#[trigger] merged[i]).id == id;
        assert(merged[i] == collapse(s, id));
    }
}

/// When one tombstone comes last in its id's group, that id is absent
/// from the merged view.
pub proof fn lemma_tombstone_hides(s: Seq<EntryV>, t: EntryV)
    requires
        s.contains(t),
        t.is_tombstone(),
        forall|x: EntryV| group_of(s, t.id).contains(x) ==> entry_le(x, t),
    ensures
        forall|i: int| 0 <= i < merged_of(s).len() ==> (#[trigger] merged_of(s)[i]).id != t.id,
{
    lemma_group_members(s, t.id);
    assert(group_of(s, t.id).contains(t));
    assert(group_of(s, t.id).len() > 0) by {
        let k = choose|k: int| 0 <= k < group_of(s, t.id).len() && group_of(s, t.id)[k] == t;
    }
    lemma_max_witness(group_of(s, t.id), t);
    assert(collapse(s, t.id).cmd == t.cmd);
    assert(!is_live(collapse(s, t.id)));
    lemma_merged_one_per_id(s);
    assert forall|i: int| 0 <= i < merged_of(s).len() implies (#[trigger] merged_of(s)[i]).id
        != t.id by {
        if merged_of(s)[i].id == t.id {
            assert(merged_of(s)[i] == collapse(s, t.id));
            assert(is_live(merged_of(s)[i]));
        }
    }
}

/// Filtering keeps multiset equality: permuting the entries permutes
/// every group.
proof fn lemma_filter_multiset(s1: Seq<EntryV>, s2: Seq<EntryV>, p: spec_fn(EntryV) -> bool)
    requires
        s1.to_multiset() == s2.to_multiset(),
    ensures
        s1.filter(p).to_multiset() == s2.filter(p).to_multiset(),
    decreases s1.len(),
{
    broadcast use vstd::seq_lib::group_to_multiset_ensures;

    vstd::seq_lib::to_multiset_len(s1);
    vstd::seq_lib::to_multiset_len(s2);
    if s1.len() == 0 {
        assert(s1.filter(p) =~= s1);
        assert(s2.filter(p) =~= s2);
        assert(s1 =~= s2);
    } else {
        let e = s1.last();
        let s1p = s1.drop_last();
        assert(s1 =~= s1p.push(e));
        vstd::seq_lib::to_multiset_contains(s1, e);
        assert(s1.contains(e));
        vstd::seq_lib::to_multiset_contains(s2, e);
        assert(s2.contains(e));
        let k = choose|k: int| 0 <= k < s2.len() && s2[k] == e;
        let s2p = s2.remove(k);
        vstd::seq_lib::to_multiset_remove(s2, k);
        assert(s1p.to_multiset() == s2p.to_multiset()) by {
            assert(s1p.push(e).to_multiset() =~= s1p.to_multiset().insert(e));
            assert(s1.to_multiset() == s1p.to_multiset().insert(e));
            assert(s2p.to_multiset() == s2.to_multiset().remove(e));
            assert(s1p.to_multiset() =~= s1.to_multiset().remove(e));
        }
        lemma_filter_multiset(s1p, s2p, p);
        s1p.lemma_filter_push(e, p);
        assert(s2.take(k) + seq![e] + s2.skip(k + 1) =~= s2);
        assert(s2p =~= s2.take(k) + s2.skip(k + 1));
        Seq::filter_distributes_over_add(s2.take(k) + seq![e], s2.skip(k + 1), p);
        Seq::filter_distributes_over_add(s2.take(k), seq![e], p);
        Seq::filter_distributes_over_add(s2.take(k), s2.skip(k + 1), p);
        assert(seq![e].filter(p) =~= if p(e) {
            seq![e]
        } else {
            Seq::<EntryV>::empty()
        }) by {
            let emp = Seq::<EntryV>::empty();
            assert(emp.filter(p).len() <= 0);
            assert(emp.filter(p) =~= emp);
            emp.lemma_filter_push(e, p);
            assert(emp.push(e) =~= seq![e]);
        }
        lemma_multiset_commutative(s2.take(k).filter(p) + seq![e].filter(p), s2.skip(k + 1).filter(p));
        lemma_multiset_commutative(s2.take(k).filter(p), seq![e].filter(p));
        lemma_multiset_commutative(s2.take(k).filter(p), s2.skip(k + 1).filter(p));
        lemma_multiset_commutative(s1p.filter(p), seq![e].filter(p));
        assert(s1.filter(p).to_multiset() =~= s2.filter(p).to_multiset()) by {
            if p(e) {
                assert(s1.filter(p) == s1p.filter(p).push(e));
                assert(s1.filter(p).to_multiset() =~= s1p.filter(p).to_multiset().insert(e));
                assert((s2.take(k) + seq![e]).filter(p) =~= s2.take(k).filter(p) + seq![e]);
                assert(s2.filter(p).to_multiset() =~= s2.take(k).filter(p).to_multiset().add(
                    seq![e].to_multiset(),
                ).add(s2.skip(k + 1).filter(p).to_multiset()));
                assert(s2p.filter(p).to_multiset() =~= s2.take(k).filter(p).to_multiset().add(
                    s2.skip(k + 1).filter(p).to_multiset(),
                ));
                assert(seq![e].to_multiset() =~= Multiset::<EntryV>::empty().insert(e)) by {
                    assert(seq![e] =~= Seq::<EntryV>::empty().push(e));
                }
            } else {
                assert(s1.filter(p) == s1p.filter(p));
                assert((s2.take(k) + seq![e]).filter(p) =~= s2.take(k).filter(p));
                assert(s2.filter(p).to_multiset() =~= s2.take(k).filter(p).to_multiset().add(
                    s2.skip(k + 1).filter(p).to_multiset(),
                ));
                assert(s2p.filter(p).to_multiset() =~= s2.take(k).filter(p).to_multiset().add(
                    s2.skip(k + 1).filter(p).to_multiset(),
                ));
            }
        }
    }
}

/// Two duplicate-free sequences with the same members hold the same
/// multiset.
proof fn lemma_no_dup_same_members(x: Seq<EntryV>, y: Seq<EntryV>)
    requires
        x.no_duplicates(),
        y.no_duplicates(),
        forall|e: EntryV| x.contains(e) <==> y.contains(e),
    ensures
        x.to_multiset() == y.to_multiset(),
{
    x.lemma_multiset_has_no_duplicates();
    y.lemma_multiset_has_no_duplicates();
    assert forall|e: EntryV| x.to_multiset().count(e) == y.to_multiset().count(e) by {
        vstd::seq_lib::to_multiset_contains(x, e);
        vstd::seq_lib::to_multiset_contains(y, e);
        if x.contains(e) {
            assert(x.to_multiset().count(e) == 1);
            assert(y.to_multiset().count(e) == 1);
        } else {
            assert(x.to_multiset().count(e) == 0);
            assert(y.to_multiset().count(e) == 0);
        }
    }
    assert(x.to_multiset() =~= y.to_multiset());
}

/// The merged view depends only on which entries exist, not on the order
/// hosts or files were read in.
pub proof fn lemma_merged_insensitive_to_order(s1: Seq<EntryV>, s2: Seq<EntryV>)
    requires
        s1.to_multiset() == s2.to_multiset(),
    ensures
        merged_of(s1) == merged_of(s2),
{
    broadcast use vstd::seq_lib::group_filter_ensures;
    broadcast use vstd::seq_lib::group_to_multiset_ensures;

    lemma_entry_le_total_ordering();
    lemma_ids_of(s1);
    lemma_ids_of(s2);
    assert forall|id: u128| #[trigger] collapse(s1, id) == collapse(s2, id) && group_of(
        s1,
        id,
    ).len() == group_of(s2, id).len() by {
        lemma_filter_multiset(s1, s2, has_id(id));
        let g1 = group_of(s1, id);
        let g2 = group_of(s2, id);
        vstd::seq_lib::to_multiset_len(g1);
        vstd::seq_lib::to_multiset_len(g2);
        if g1.len() == 0 {
            assert(g1 =~= g2);
        } else {
            g1.lemma_sort_by_ensures(entry_le_ff());
            g2.lemma_sort_by_ensures(entry_le_ff());
            lemma_sorted_unique(
                g1.sort_by(entry_le_ff()),
                g2.sort_by(entry_le_ff()),
                entry_le_ff(),
            );
            assert(g1.sort_by(entry_le_ff()) == g2.sort_by(entry_le_ff()));
        }
    }
    let ids1 = ids_of(s1);
    let ids2 = ids_of(s2);
    assert forall|m: int| 0 <= m < ids1.len() implies group_of(
        s1,
        #[trigger] ids1[m],
    ).len() > 0 by {
        assert(ids1.contains(ids1[m]));
        let k = choose|k: int| 0 <= k < s1.len() && #[trigger] s1[k].id == ids1[m];
        lemma_group_members(s1, ids1[m]);
    }
    assert forall|m: int| 0 <= m < ids2.len() implies group_of(
        s2,
        #[trigger] ids2[m],
    ).len() > 0 by {
        assert(ids2.contains(ids2[m]));
        let k = choose|k: int| 0 <= k < s2.len() && #[trigger] s2[k].id == ids2[m];
        lemma_group_members(s2, ids2[m]);
    }
    lemma_cand_ids(s1, ids1);
    lemma_cand_ids(s2, ids2);
    let cand1 = cand_list(s1, ids1);
    let cand2 = cand_list(s2, ids2);
    assert(cand1.no_duplicates()) by {
        assert forall|a: int, b: int| 0 <= a < cand1.len() && 0 <= b < cand1.len() && a != b
            implies cand1[a] != cand1[b] by {
            if a < b {
                lemma_cand_distinct(s1, ids1, a, b);
            } else {
                lemma_cand_distinct(s1, ids1, b, a);
            }
        }
    }
    assert(cand2.no_duplicates()) by {
        assert forall|a: int, b: int| 0 <= a < cand2.len() && 0 <= b < cand2.len() && a != b
            implies cand2[a] != cand2[b] by {
            if a < b {
                lemma_cand_distinct(s2, ids2, a, b);
            } else {
                lemma_cand_distinct(s2, ids2, b, a);
            }
        }
    }
    assert forall|e: EntryV| cand1.contains(e) <==> cand2.contains(e) by {
        if cand1.contains(e) {
            lemma_cand_member(s1, s2, ids1, ids2, e);
        }
        if cand2.contains(e) {
            lemma_cand_member(s2, s1, ids2, ids1, e);
        }
    }
    lemma_no_dup_same_members(cand1, cand2);
    cand1.lemma_sort_by_ensures(entry_le_ff());
    cand2.lemma_sort_by_ensures(entry_le_ff());
    lemma_sorted_unique(cand1.sort_by(entry_le_ff()), cand2.sort_by(entry_le_ff()), entry_le_ff());
    assert(merged_of(s1) =~= merged_of(s2));
}

/// Membership transfer between the two live-survivor lists of
/// permutation-equal entry sequences.
proof fn lemma_cand_member(
    sa: Seq<EntryV>,
    sb: Seq<EntryV>,
    idsa: Seq<u128>,
    idsb: Seq<u128>,
    e: EntryV,
)
    requires
        sa.to_multiset() == sb.to_multiset(),
        idsa == ids_of(sa),
        idsb == ids_of(sb),
        forall|id: u128| #[trigger] collapse(sa, id) == collapse(sb, id),
        forall|m: int| 0 <= m < idsa.len() ==> group_of(sa, #[trigger] idsa[m]).len() > 0,
        forall|m: int| 0 <= m < idsb.len() ==> group_of(sb, #[trigger] idsb[m]).len() > 0,
        cand_list(sa, idsa).contains(e),
    ensures
        cand_list(sb, idsb).contains(e),
{
    broadcast use vstd::seq_lib::group_filter_ensures;
    broadcast use vstd::seq_lib::group_to_multiset_ensures;

    lemma_ids_of(sa);
    lemma_ids_of(sb);
    lemma_cand_ids(sa, idsa);
    let cand = cand_list(sa, idsa);
    let k = choose|k: int| 0 <= k < cand.len() && cand[k] == e;
    assert(idsa.contains(e.id));
    let ka = choose|ka: int| 0 <= ka < sa.len() && #[trigger] sa[ka].id == e.id;
    assert(sa.contains(sa[ka]));
    vstd::seq_lib::to_multiset_contains(sa, sa[ka]);
    vstd::seq_lib::to_multiset_contains(sb, sa[ka]);
    assert(sb.contains(sa[ka]));
    let kb = choose|kb: int| 0 <= kb < sb.len() && sb[kb] == sa[ka];
    assert(sb[kb].id == e.id);
    assert(idsb.contains(e.id));
    let m = choose|m: int| 0 <= m < idsb.len() && idsb[m] == e.id;
    let mapped = idsb.map_values(collapser(sb));
    assert(mapped[m] == collapse(sb, idsb[m]));
    assert(collapse(sb, e.id) == collapse(sa, e.id));
    assert(e == collapse(sa, e.id));
    assert(mapped[m] == e);
    assert(live_pred()(mapped[m]));
    assert(mapped.filter(live_pred()).contains(mapped[m]));
}


/// The merged view is sorted by the total order.
pub proof fn lemma_merged_sorted(s: Seq<EntryV>)
    ensures
        sorted_by(merged_of(s), entry_le_ff()),
{
    lemma_entry_le_total_ordering();
    cand_list(s, ids_of(s)).lemma_sort_by_ensures(entry_le_ff());
}

/// The merged view of nothing is empty.
pub proof fn lemma_merged_of_empty()
    ensures
        merged_of(Seq::<EntryV>::empty()) =~= Seq::<EntryV>::empty(),
{
    broadcast use vstd::seq_lib::group_filter_ensures;

    lemma_entry_le_total_ordering();
    let e = Seq::<EntryV>::empty();
    assert(ids_of(e) =~= Seq::<u128>::empty());
    assert(ids_of(e).map_values(collapser(e)) =~= Seq::<EntryV>::empty());
    assert(cand_list(e, ids_of(e)).len() <= 0);
    assert(cand_list(e, ids_of(e)) =~= Seq::<EntryV>::empty());
    cand_list(e, ids_of(e)).lemma_sort_by_ensures(entry_le_ff());
    vstd::seq_lib::to_multiset_len(merged_of(e));
    vstd::seq_lib::to_multiset_len(cand_list(e, ids_of(e)));
}

/// Appending a live entry with a fresh id and the latest timestamp
/// extends the merged view by exactly that entry: the append the daemon
/// does on a store is the rebuild's result.
pub proof fn lemma_fresh_latest_entry(s: Seq<EntryV>, e: EntryV)
    requires
        is_live(e),
        forall|k: int| 0 <= k < s.len() ==> (#[trigger] s[k]).id != e.id,
        forall|k: int| 0 <= k < s.len() ==> (#[trigger] s[k]).ts < e.ts,
    ensures
        merged_of(s.push(e)) == merged_of(s).push(e),
{
    broadcast use vstd::seq_lib::group_filter_ensures;
    broadcast use vstd::seq_lib::group_to_multiset_ensures;

    lemma_entry_le_total_ordering();
    lemma_ids_of(s);
    lemma_ids_of(s.push(e));
    let sp = s.push(e);
    let ids = ids_of(s);
    let idsp = ids_of(sp);
    assert(idsp == ids.push(e.id)) by {
        assert(sp.drop_last() =~= s);
        assert(sp.last() == e);
        if ids.contains(e.id) {
            let k = choose|k: int| 0 <= k < s.len() && #[trigger] s[k].id == e.id;
        }
    }
    // groups of old ids are untouched; the new id's group is the entry
    assert forall|id: u128| id != e.id implies #[trigger] group_of(sp, id) == group_of(
        s,
        id,
    ) by {
        s.lemma_filter_push(e, has_id(id));
        assert(!has_id(id)(e));
    }
    assert(group_of(sp, e.id) =~= seq![e]) by {
        s.lemma_filter_push(e, has_id(e.id));
        assert(has_id(e.id)(e));
        lemma_group_members(s, e.id);
        assert(group_of(s, e.id).len() == 0) by {
            if group_of(s, e.id).len() > 0 {
                let k = choose|k: int| 0 <= k < s.len() && (#[trigger] s[k].id) == e.id;
            }
        }
        assert(group_of(s, e.id) =~= Seq::<EntryV>::empty());
        assert(Seq::<EntryV>::empty().push(e) =~= seq![e]);
    }
    assert(collapse(sp, e.id) == e) by {
        let g = seq![e];
        lemma_min_max(g);
        assert(g[0] == e);
        assert(g.contains(e));
        lemma_min_max_unique(g, e, e);
        assert(collapse_group(g) =~= e);
    }
    // the candidate lists agree, then gain the entry itself
    let cand = cand_list(s, ids);
    let candp = cand_list(sp, idsp);
    assert(ids.map_values(collapser(sp)) =~= ids.map_values(collapser(s))) by {
        assert forall|k: int| 0 <= k < ids.len() implies ids.map_values(collapser(sp))[k]
            == ids.map_values(collapser(s))[k] by {
            assert(ids.contains(ids[k]));
            let m = choose|m: int| 0 <= m < s.len() && #[trigger] s[m].id == ids[k];
            assert(ids[k] != e.id);
            assert(collapse(sp, ids[k]) == collapse(s, ids[k]));
        }
    }
    assert(idsp.map_values(collapser(sp)) =~= ids.map_values(collapser(s)).push(e)) by {
        assert forall|k: int| 0 <= k < idsp.len() implies idsp.map_values(collapser(sp))[k]
            == ids.map_values(collapser(s)).push(e)[k] by {
            if k < ids.len() {
                assert(idsp[k] == ids[k]);
                assert(ids.map_values(collapser(sp))[k] == ids.map_values(collapser(s))[k]);
            } else {
                assert(idsp[k] == e.id);
            }
        }
    }
    assert(candp == cand.push(e)) by {
        ids.map_values(collapser(s)).lemma_filter_push(e, live_pred());
        assert(live_pred()(e));
    }
    // every candidate of the old entries lies strictly before the entry
    assert forall|k: int| 0 <= k < cand.len() implies entry_le(#[trigger] cand[k], e)
        && cand[k].ts < e.ts by {
        assert forall|m: int|
            0 <= m < ids.len() ==> group_of(s, #[trigger] ids[m]).len() > 0 by {
            assert forall|m: int| 0 <= m < ids.len() implies group_of(
                s,
                #[trigger] ids[m],
            ).len() > 0 by {
                assert(ids.contains(ids[m]));
                let w = choose|w: int| 0 <= w < s.len() && #[trigger] s[w].id == ids[m];
                lemma_group_members(s, ids[m]);
            }
        }
        lemma_cand_ids(s, ids);
        assert(cand[k] == collapse(s, cand[k].id));
        let g = group_of(s, cand[k].id);
        assert(ids.contains(cand[k].id));
        let w = choose|w: int| 0 <= w < s.len() && #[trigger] s[w].id == cand[k].id;
        lemma_group_members(s, cand[k].id);
        assert(g.len() > 0);
        lemma_min_max(g);
        assert(g.contains(min_of(g)));
        let gm = choose|gm: int| 0 <= gm < g.len() && g[gm] == min_of(g);
        assert(s.contains(min_of(g)));
        let sm = choose|sm: int| 0 <= sm < s.len() && s[sm] == min_of(g);
        assert(min_of(g).ts < e.ts);
        assert(cand[k].ts == min_of(g).ts);
    }
    // sorting the extended candidates appends the entry at the end
    cand.lemma_sort_by_ensures(entry_le_ff());
    candp.lemma_sort_by_ensures(entry_le_ff());
    let sorted = cand.sort_by(entry_le_ff());
    assert(sorted.push(e).to_multiset() =~= candp.to_multiset()) by {
        vstd::seq_lib::to_multiset_build(sorted, e);
        vstd::seq_lib::to_multiset_build(cand, e);
    }
    assert(sorted_by(sorted.push(e), entry_le_ff())) by {
        assert forall|a: int, b: int| 0 <= a < b < sorted.push(e).len() implies entry_le_ff()(
            #[trigger] sorted.push(e)[a],
            #[trigger] sorted.push(e)[b],
        ) by {
            if b < sorted.len() {
                assert(sorted.push(e)[a] == sorted[a] && sorted.push(e)[b] == sorted[b]);
                assert(entry_le_ff()(sorted[a], sorted[b]));
            } else {
                assert(sorted.push(e)[b] == e);
                assert(sorted.push(e)[a] == sorted[a]);
                assert(sorted.contains(sorted[a]));
                vstd::seq_lib::to_multiset_contains(sorted, sorted[a]);
                vstd::seq_lib::to_multiset_contains(cand, sorted[a]);
                assert(cand.contains(sorted[a]));
                let k = choose|k: int| 0 <= k < cand.len() && cand[k] == sorted[a];
                assert(cand[k].ts < e.ts);
                assert(entry_le(sorted[a], e));
            }
        }
    }
    lemma_sorted_unique(candp.sort_by(entry_le_ff()), sorted.push(e), entry_le_ff());
    assert(merged_of(sp) == merged_of(s).push(e));
}
} // verus!
