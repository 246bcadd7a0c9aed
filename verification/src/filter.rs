//! The client-side entry filter: every given predicate must hold.
//!
//! Text predicates go by UTF-8 bytes, as the shell's own matching does.

use vstd::prelude::*;
use vstd::utf8::encode_utf8;

use crate::entry::{views, Entry, EntryV};
use crate::session::{spec_in_session, Session};

verus! {

/// The optional predicates a listing can ask for.
#[derive(Debug)]
pub struct FilterArgs {
    /// Keep only the current session's entries.
    pub session: bool,
    /// Keep entries at or after this time.
    pub after: Option<i64>,
    /// Keep entries before this time.
    pub before: Option<i64>,
    /// Keep entries of these hosts.
    pub host: Option<Vec<String>>,
    /// Keep entries run in these directories.
    pub path: Option<Vec<String>>,
    /// Keep entries run in the current directory.
    pub current_path: bool,
    /// Keep entries older than this many microseconds.
    pub min_age: Option<i64>,
    /// Keep entries younger than this many microseconds.
    pub max_age: Option<i64>,
    /// Keep commands with this prefix.
    pub prefix: Option<String>,
    /// Keep commands containing this text.
    pub search: Option<String>,
}

/// A filter with its age bounds resolved against the clock.
#[derive(Debug)]
pub struct Filter {
    pub args: FilterArgs,
    /// Entries must be strictly older than this time, when set.
    pub min_age: Option<i64>,
    /// Entries must be at or after this time, when set.
    pub max_age: Option<i64>,
    pub current_session: Session,
    pub current_path: String,
}

/// One byte string begins with another.
pub open spec fn spec_starts_with(s: Seq<u8>, p: Seq<u8>) -> bool {
    p.len() <= s.len() && s.subrange(0, p.len() as int) == p
}

/// One byte string contains another.
pub open spec fn spec_contains_bytes(s: Seq<u8>, p: Seq<u8>) -> bool {
    exists|i: int| 0 <= i <= s.len() - p.len() && (#[trigger] s.subrange(i, i + p.len())) == p
}

/// Whether a list of strings holds one with this value.
pub open spec fn spec_has_string(hs: Seq<String>, v: Seq<char>) -> bool {
    exists|i: int| 0 <= i < hs.len() && (#[trigger] hs[i])@ == v
}

/// What the filter keeps.
pub open spec fn spec_keeps(f: Filter, e: EntryV) -> bool {
    &&& f.args.session ==> spec_in_session(
        f.current_session.id@,
        match f.current_session.start {
            Some(t) => Some(t as int),
            None => None,
        },
        e,
    )
    &&& (f.args.after matches Some(t) ==> e.ts >= t)
    &&& (f.args.before matches Some(t) ==> e.ts < t)
    &&& (f.args.host matches Some(hs) ==> spec_has_string(hs@, e.host))
    &&& (f.args.path matches Some(ps) ==> spec_has_string(ps@, e.path))
    &&& (f.args.current_path ==> e.path == f.current_path@)
    &&& (f.min_age matches Some(t) ==> e.ts < t)
    &&& (f.max_age matches Some(t) ==> e.ts >= t)
    &&& (f.args.prefix matches Some(p) ==> spec_starts_with(
        encode_utf8(e.cmd),
        encode_utf8(p@),
    ))
    &&& (f.args.search matches Some(p) ==> spec_contains_bytes(
        encode_utf8(e.cmd),
        encode_utf8(p@),
    ))
}

/// Decides whether one byte slice begins with another.
fn starts_with_bytes(s: &[u8], p: &[u8]) -> (r: bool)
    ensures
        r == spec_starts_with(s@, p@),
{
    let n = p.len();
    if n > s.len() {
        proof {
            assert(!spec_starts_with(s@, p@));
        }
        return false;
    }
    let mut i: usize = 0;
    while i < n
        invariant
            i <= n <= s@.len(),
            n == p@.len(),
            s@.subrange(0, i as int) =~= p@.subrange(0, i as int),
        decreases n - i,
    {
        if s[i] != p[i] {
            proof {
                assert(s@.subrange(0, n as int)[i as int] != p@[i as int]);
            }
            return false;
        }
        proof {
            assert(s@.subrange(0, i + 1) =~= p@.subrange(0, i + 1));
        }
        i = i + 1;
    }
    proof {
        assert(p@.subrange(0, n as int) =~= p@);
        assert(s@.subrange(0, n as int) =~= p@);
    }
    true
}

/// Decides whether one byte slice contains another.
fn contains_bytes(s: &[u8], p: &[u8]) -> (r: bool)
    ensures
        r == spec_contains_bytes(s@, p@),
{
    let n = p.len();
    let m = s.len();
    if n > m {
        proof {
            assert(!spec_contains_bytes(s@, p@));
        }
        return false;
    }
    let mut i: usize = 0;
    while i <= m - n
        invariant
            n == p@.len(),
            m == s@.len(),
            n <= m,
            i <= m - n + 1,
            forall|k: int| 0 <= k < i ==> (#[trigger] s@.subrange(k, k + p@.len())) != p@,
        decreases m - n + 1 - i,
    {
        let mut j: usize = 0;
        while j < n && s[i + j] == p[j]
            invariant
                i + n <= m,
                n == p@.len(),
                m == s@.len(),
                j <= n,
                forall|k: int| 0 <= k < j ==> s@[i + k] == p@[k],
            decreases n - j,
        {
            j = j + 1;
        }
        if j == n {
            proof {
                assert(s@.subrange(i as int, i + p@.len()) =~= p@);
            }
            return true;
        }
        proof {
            assert(s@[i + j as int] != p@[j as int]);
            assert forall|k: int| 0 <= k < i + 1 implies (#[trigger] s@.subrange(k, k + p@.len())) != p@ by {
                if k == i {
                    assert(s@.subrange(k, k + p@.len())[j as int] == s@[i + j as int]);
                }
            }
        }
        i = i + 1;
    }
    proof {
        assert forall|k: int| 0 <= k <= s@.len() - p@.len() implies (#[trigger] s@.subrange(
            k,
            k + p@.len(),
        )) != p@ by {}
    }
    false
}

/// Whether a list of strings holds one with this value.
fn has_string(hs: &Vec<String>, v: &String) -> (r: bool)
    ensures
        r == spec_has_string(hs@, v@),
{
    let mut i: usize = 0;
    while i < hs.len()
        invariant
            i <= hs@.len(),
            forall|k: int| 0 <= k < i ==> (#[trigger] hs@[k])@ != v@,
        decreases hs@.len() - i,
    {
        if hs[i] == *v {
            proof {
                assert(hs@[i as int]@ == v@);
            }
            return true;
        }
        i = i + 1;
    }
    false
}

impl Filter {
    /// Resolves a filter against the clock, the session and the current
    /// directory: age bounds become absolute times.
    pub fn new(args: FilterArgs, now: i64, current_session: Session, current_path: String) -> (r:
        Filter)
        ensures
            r.args == args,
            r.current_session == current_session,
            r.current_path == current_path,
            args.min_age matches Some(d) ==> (r.min_age matches Some(t) && t as int
                == spec_age_bound(now as int, d as int)),
            args.min_age is None ==> r.min_age is None,
            args.max_age matches Some(d) ==> (r.max_age matches Some(t) && t as int
                == spec_age_bound(now as int, d as int)),
            args.max_age is None ==> r.max_age is None,
    {
        let min_age = match args.min_age {
            Some(d) => Some(age_bound(now, d)),
            None => None,
        };
        let max_age = match args.max_age {
            Some(d) => Some(age_bound(now, d)),
            None => None,
        };
        Filter { args, min_age, max_age, current_session, current_path }
    }

    /// Whether this filter keeps an entry.
    pub fn entry(&self, e: &Entry) -> (r: bool)
        ensures
            r == spec_keeps(*self, e@),
    {
        if self.args.session && !self.current_session.includes_entry(e) {
            return false;
        }
        match self.args.after {
            Some(t) => {
                if e.ts < t {
                    return false;
                }
            },
            None => {},
        }
        match self.args.before {
            Some(t) => {
                if e.ts >= t {
                    return false;
                }
            },
            None => {},
        }
        match &self.args.host {
            Some(hs) => {
                if !has_string(hs, &e.host) {
                    return false;
                }
            },
            None => {},
        }
        match &self.args.path {
            Some(ps) => {
                if !has_string(ps, &e.path) {
                    return false;
                }
            },
            None => {},
        }
        if self.args.current_path {
            if !(e.path == self.current_path) {
                return false;
            }
        }
        match self.min_age {
            Some(t) => {
                if e.ts >= t {
                    return false;
                }
            },
            None => {},
        }
        match self.max_age {
            Some(t) => {
                if e.ts < t {
                    return false;
                }
            },
            None => {},
        }
        match &self.args.prefix {
            Some(p) => {
                if !starts_with_bytes(e.cmd.as_str().as_bytes(), p.as_str().as_bytes()) {
                    return false;
                }
            },
            None => {},
        }
        match &self.args.search {
            Some(p) => {
                if !contains_bytes(e.cmd.as_str().as_bytes(), p.as_str().as_bytes()) {
                    return false;
                }
            },
            None => {},
        }
        true
    }

    /// Keeps exactly the entries this filter accepts, in order.
    pub fn filter_history(&self, history: &Vec<Entry>) -> (r: Vec<Entry>)
        ensures
            views(r@) =~= views(history@).filter(|e: EntryV| spec_keeps(*self, e)),
    {
        broadcast use vstd::seq_lib::group_filter_ensures;

        let ghost hv = views(history@);
        let ghost pred = |e: EntryV| spec_keeps(*self, e);
        let mut out: Vec<Entry> = Vec::new();
        let mut i: usize = 0;
        proof {
            assert(hv.take(0) =~= Seq::<EntryV>::empty());
            assert(Seq::<EntryV>::empty().filter(pred).len() <= 0);
            assert(views(out@) =~= Seq::<EntryV>::empty());
        }
        while i < history.len()
            invariant
                i <= history@.len(),
                hv == views(history@),
                views(out@) =~= hv.take(i as int).filter(pred),
                pred == (|e: EntryV| spec_keeps(*self, e)),
            decreases history@.len() - i,
        {
            proof {
                assert(hv.take(i + 1).drop_last() =~= hv.take(i as int));
                assert(hv.take(i + 1).last() == hv[i as int]);
                hv.take(i as int).lemma_filter_push(hv[i as int], pred);
                assert(hv.take(i as int).push(hv[i as int]) =~= hv.take(i + 1));
            }
            if self.entry(&history[i]) {
                proof {
                    assert(pred(hv[i as int]));
                }
                let d = history[i].duplicate();
                out.push(d);
                proof {
                    assert(views(out@) =~= hv.take(i as int).filter(pred).push(hv[i as int]));
                }
            } else {
                proof {
                    assert(!pred(hv[i as int]));
                }
            }
            i = i + 1;
        }
        proof {
            assert(hv.take(history@.len() as int) =~= hv);
        }
        out
    }
}

/// The absolute time `d` before `now`, saturating at the far past.
pub open spec fn spec_age_bound(now: int, d: int) -> int {
    if now - d < i64::MIN {
        i64::MIN as int
    } else if now - d > i64::MAX {
        i64::MAX as int
    } else {
        now - d
    }
}

/// Computes the absolute time `d` before `now`.
fn age_bound(now: i64, d: i64) -> (r: i64)
    ensures
        r as int == spec_age_bound(now as int, d as int),
{
    let diff: i128 = (now as i128) - (d as i128);
    if diff < (i64::MIN as i128) {
        i64::MIN
    } else if diff > (i64::MAX as i128) {
        i64::MAX
    } else {
        diff as i64
    }
}

} // verus!
