//! The history entry and its total order.
//!
//! An entry records one command occurrence, or one edit or tombstone of an
//! earlier occurrence (same `id`, empty `cmd` for a tombstone). Entries are
//! ordered by timestamp, then host, then command, then path; the session and
//! the id break any remaining tie, so that the order is total and two
//! distinct entries never compare equal. Strings are compared by their UTF-8
//! bytes, which for valid UTF-8 agrees with the code-point order.

use vstd::prelude::*;
use vstd::relations::total_ordering;
use vstd::utf8::{encode_utf8, encode_utf8_decode_utf8};

verus! {

/// One command occurrence, or an edit/tombstone of one.
#[derive(Debug)]
pub struct Entry {
    /// Stable identifier, assigned at first creation and preserved by edits.
    pub id: u128,
    /// Microseconds since the Unix epoch, UTC.
    pub ts: i64,
    /// The host that recorded the entry.
    pub host: String,
    /// The command line; empty marks a tombstone.
    pub cmd: String,
    /// The working directory the command ran in; empty when unknown.
    pub path: String,
    /// The shell session that recorded the entry.
    pub session: String,
}

/// The mathematical value of an [`Entry`].
#[verifier::ext_equal]
pub ghost struct EntryV {
    pub id: u128,
    pub ts: int,
    pub host: Seq<char>,
    pub cmd: Seq<char>,
    pub path: Seq<char>,
    pub session: Seq<char>,
}

impl View for Entry {
    type V = EntryV;

    open spec fn view(&self) -> EntryV {
        EntryV {
            id: self.id,
            ts: self.ts as int,
            host: self.host@,
            cmd: self.cmd@,
            path: self.path@,
            session: self.session@,
        }
    }
}

impl EntryV {
    /// An entry with an empty command marks a deletion.
    pub open spec fn is_tombstone(self) -> bool {
        self.cmd.len() == 0
    }
}

impl Entry {
    /// An exact copy of this entry.
    pub fn duplicate(&self) -> (r: Entry)
        ensures
            r@ == self@,
    {
        Entry {
            id: self.id,
            ts: self.ts,
            host: self.host.clone(),
            cmd: self.cmd.clone(),
            path: self.path.clone(),
            session: self.session.clone(),
        }
    }
}

/// The views of a sequence of entries.
pub open spec fn views(s: Seq<Entry>) -> Seq<EntryV> {
    s.map_values(|e: Entry| e@)
}

/// Duplicates every entry of a vector.
pub fn duplicate_entries(v: &Vec<Entry>) -> (r: Vec<Entry>)
    ensures
        views(r@) =~= views(v@),
{
    let mut r: Vec<Entry> = Vec::new();
    let mut i: usize = 0;
    while i < v.len()
        invariant
            i <= v@.len(),
            r@.len() == i,
            forall|k: int| 0 <= k < i ==> r@[k]@ == v@[k]@,
        decreases v@.len() - i,
    {
        r.push(v[i].duplicate());
        i = i + 1;
    }
    r
}

/// Strict lexicographic order on byte strings.
pub open spec fn bytes_lt(a: Seq<u8>, b: Seq<u8>) -> bool
    decreases a.len(),
{
    if b.len() == 0 {
        false
    } else if a.len() == 0 {
        true
    } else if a[0] != b[0] {
        a[0] < b[0]
    } else {
        bytes_lt(a.drop_first(), b.drop_first())
    }
}

/// Strict order on strings: lexicographic on their UTF-8 bytes.
pub open spec fn str_lt(a: Seq<char>, b: Seq<char>) -> bool {
    bytes_lt(encode_utf8(a), encode_utf8(b))
}

pub proof fn lemma_bytes_lt_connected(a: Seq<u8>, b: Seq<u8>)
    ensures
        a =~= b || bytes_lt(a, b) || bytes_lt(b, a),
    decreases a.len(),
{
    if a.len() == 0 || b.len() == 0 {
    } else if a[0] != b[0] {
    } else {
        lemma_bytes_lt_connected(a.drop_first(), b.drop_first());
        if a.drop_first() =~= b.drop_first() {
            assert forall|k: int| 0 <= k < a.len() implies a[k] == b[k] by {
                if k > 0 {
                    assert(a.drop_first()[k - 1] == b.drop_first()[k - 1]);
                }
            }
            assert(a =~= b);
        }
    }
}

pub proof fn lemma_bytes_lt_asymmetric(a: Seq<u8>, b: Seq<u8>)
    ensures
        !(bytes_lt(a, b) && bytes_lt(b, a)),
    decreases a.len(),
{
    if a.len() == 0 || b.len() == 0 {
    } else if a[0] != b[0] {
    } else {
        lemma_bytes_lt_asymmetric(a.drop_first(), b.drop_first());
    }
}

pub proof fn lemma_bytes_lt_irreflexive(a: Seq<u8>)
    ensures
        !bytes_lt(a, a),
{
    lemma_bytes_lt_asymmetric(a, a);
    lemma_bytes_lt_connected(a, a);
}

pub proof fn lemma_bytes_lt_transitive(a: Seq<u8>, b: Seq<u8>, c: Seq<u8>)
    requires
        bytes_lt(a, b),
        bytes_lt(b, c),
    ensures
        bytes_lt(a, c),
    decreases a.len(),
{
    if c.len() == 0 {
    } else if b.len() == 0 {
    } else if a.len() == 0 {
    } else {
        if a[0] == b[0] && b[0] == c[0] {
            lemma_bytes_lt_transitive(a.drop_first(), b.drop_first(), c.drop_first());
        }
    }
}

/// The total order on entry values: timestamp, then host, then command,
/// then path, with session and id as final tie-breakers.
pub open spec fn entry_le(a: EntryV, b: EntryV) -> bool {
    if a.ts != b.ts {
        a.ts < b.ts
    } else if a.host != b.host {
        str_lt(a.host, b.host)
    } else if a.cmd != b.cmd {
        str_lt(a.cmd, b.cmd)
    } else if a.path != b.path {
        str_lt(a.path, b.path)
    } else if a.session != b.session {
        str_lt(a.session, b.session)
    } else {
        a.id <= b.id
    }
}

/// The order as a first-class relation, for vstd's sorting lemmas.
pub open spec fn entry_le_ff() -> spec_fn(EntryV, EntryV) -> bool {
    |a: EntryV, b: EntryV| entry_le(a, b)
}

/// Equal UTF-8 encodings come only from equal strings.
pub proof fn lemma_encode_utf8_injective(a: Seq<char>, b: Seq<char>)
    requires
        encode_utf8(a) == encode_utf8(b),
    ensures
        a =~= b,
{
    encode_utf8_decode_utf8(a);
    encode_utf8_decode_utf8(b);
}

proof fn lemma_str_lt_connected(a: Seq<char>, b: Seq<char>)
    ensures
        a =~= b || str_lt(a, b) || str_lt(b, a),
{
    lemma_bytes_lt_connected(encode_utf8(a), encode_utf8(b));
    if encode_utf8(a) =~= encode_utf8(b) {
        lemma_encode_utf8_injective(a, b);
    }
}

proof fn lemma_str_lt_asymmetric(a: Seq<char>, b: Seq<char>)
    ensures
        !(str_lt(a, b) && str_lt(b, a)),
{
    lemma_bytes_lt_asymmetric(encode_utf8(a), encode_utf8(b));
}

/// `entry_le` is a total order, so vstd's sorting machinery applies to it.
pub proof fn lemma_entry_le_total_ordering()
    ensures
        total_ordering(entry_le_ff()),
{
    let le = entry_le_ff();
    assert forall|a: EntryV, b: EntryV| !(#[trigger] le(a, b)) implies le(b, a) by {
        lemma_str_lt_connected(a.host, b.host);
        lemma_str_lt_connected(a.cmd, b.cmd);
        lemma_str_lt_connected(a.path, b.path);
        lemma_str_lt_connected(a.session, b.session);
    }
    assert forall|a: EntryV, b: EntryV| #[trigger] le(a, b) && #[trigger] le(b, a) implies a
        == b by {
        lemma_str_lt_asymmetric(a.host, b.host);
        lemma_str_lt_asymmetric(a.cmd, b.cmd);
        lemma_str_lt_asymmetric(a.path, b.path);
        lemma_str_lt_asymmetric(a.session, b.session);
        assert(a =~= b);
    }
    assert forall|a: EntryV, b: EntryV, c: EntryV| #[trigger] le(a, b) && #[trigger] le(b, c)
        implies le(a, c) by {
        lemma_entry_le_transitive(a, b, c);
    }
    assert forall|a: EntryV| #[trigger] le(a, a) by {}
}

proof fn lemma_str_le_chain(x: Seq<char>, y: Seq<char>, z: Seq<char>)
    requires
        x =~= y || str_lt(x, y),
        y =~= z || str_lt(y, z),
    ensures
        x =~= z || str_lt(x, z),
{
    if x =~= y {
    } else if y =~= z {
    } else {
        lemma_bytes_lt_transitive(encode_utf8(x), encode_utf8(y), encode_utf8(z));
        lemma_bytes_lt_irreflexive(encode_utf8(x));
    }
}

/// One of any two entries comes no later than the other.
pub proof fn lemma_entry_le_connected(a: EntryV, b: EntryV)
    ensures
        entry_le(a, b) || entry_le(b, a),
{
    lemma_str_lt_connected(a.host, b.host);
    lemma_str_lt_connected(a.cmd, b.cmd);
    lemma_str_lt_connected(a.path, b.path);
    lemma_str_lt_connected(a.session, b.session);
}

/// Entries that come no later than each other are equal.
pub proof fn lemma_entry_le_antisym(a: EntryV, b: EntryV)
    requires
        entry_le(a, b),
        entry_le(b, a),
    ensures
        a == b,
{
    lemma_str_lt_asymmetric(a.host, b.host);
    lemma_str_lt_asymmetric(a.cmd, b.cmd);
    lemma_str_lt_asymmetric(a.path, b.path);
    lemma_str_lt_asymmetric(a.session, b.session);
    assert(a =~= b);
}

/// The order chains across a middle entry.
pub proof fn lemma_entry_le_transitive(a: EntryV, b: EntryV, c: EntryV)
    requires
        entry_le(a, b),
        entry_le(b, c),
    ensures
        entry_le(a, c),
{
    lemma_str_lt_asymmetric(a.host, b.host);
    lemma_str_lt_asymmetric(b.host, c.host);
    lemma_str_lt_asymmetric(a.cmd, b.cmd);
    lemma_str_lt_asymmetric(b.cmd, c.cmd);
    lemma_str_lt_asymmetric(a.path, b.path);
    lemma_str_lt_asymmetric(b.path, c.path);
    lemma_str_lt_asymmetric(a.session, b.session);
    lemma_str_lt_asymmetric(b.session, c.session);
    if a.ts == c.ts {
        lemma_str_le_chain(a.host, b.host, c.host);
        if a.host =~= c.host && b.host =~= a.host {
            lemma_str_le_chain(a.cmd, b.cmd, c.cmd);
            if a.cmd =~= c.cmd && b.cmd =~= a.cmd {
                lemma_str_le_chain(a.path, b.path, c.path);
                if a.path =~= c.path && b.path =~= a.path {
                    lemma_str_le_chain(a.session, b.session, c.session);
                }
            }
        }
    }
}

/// Three-way comparison result.
#[derive(Debug, Clone, Copy, PartialEq, Eq, Structural)]
pub enum Rel {
    Before,
    Same,
    After,
}

proof fn lemma_bytes_lt_common_prefix(a: Seq<u8>, b: Seq<u8>, i: int)
    requires
        0 <= i <= a.len(),
        i <= b.len(),
        a.subrange(0, i) =~= b.subrange(0, i),
    ensures
        i == a.len() && i == b.len() ==> a =~= b,
        i == a.len() && i < b.len() ==> bytes_lt(a, b),
        i == b.len() && i < a.len() ==> bytes_lt(b, a),
        i < a.len() && i < b.len() && a[i] < b[i] ==> bytes_lt(a, b),
        i < a.len() && i < b.len() && b[i] < a[i] ==> bytes_lt(b, a),
    decreases i,
{
    if i == 0 {
    } else {
        assert(a[0] == a.subrange(0, i)[0]);
        assert(b[0] == b.subrange(0, i)[0]);
        assert(a.drop_first().subrange(0, i - 1) =~= b.drop_first().subrange(0, i - 1)) by {
            assert forall|k: int| 0 <= k < i - 1 implies #[trigger] a.drop_first().subrange(
                0,
                i - 1,
            )[k] == b.drop_first().subrange(0, i - 1)[k] by {
                assert(a.subrange(0, i)[k + 1] == b.subrange(0, i)[k + 1]);
            }
        }
        lemma_bytes_lt_common_prefix(a.drop_first(), b.drop_first(), i - 1);
        if i < a.len() && i < b.len() {
            assert(a.drop_first()[i - 1] == a[i]);
            assert(b.drop_first()[i - 1] == b[i]);
        }
        if a.drop_first() =~= b.drop_first() && a.len() == b.len() {
            assert forall|k: int| 0 <= k < a.len() implies a[k] == b[k] by {
                if k > 0 {
                    assert(a.drop_first()[k - 1] == b.drop_first()[k - 1]);
                }
            }
            assert(a =~= b);
        }
    }
}

/// Compares two byte slices lexicographically.
pub fn cmp_bytes(a: &[u8], b: &[u8]) -> (r: Rel)
    ensures
        r == Rel::Before <==> bytes_lt(a@, b@),
        r == Rel::Same <==> a@ =~= b@,
        r == Rel::After <==> bytes_lt(b@, a@),
{
    let alen: usize = a.len();
    let blen: usize = b.len();
    let mut i: usize = 0;
    loop
        invariant
            i <= alen <= a@.len(),
            i <= blen <= b@.len(),
            alen == a@.len(),
            blen == b@.len(),
            a@.subrange(0, i as int) =~= b@.subrange(0, i as int),
        decreases alen - i,
    {
        if i == alen && i == blen {
            proof {
                lemma_bytes_lt_common_prefix(a@, b@, i as int);
                lemma_bytes_lt_asymmetric(a@, b@);
                lemma_bytes_lt_irreflexive(a@);
            }
            return Rel::Same;
        }
        if i == alen {
            proof {
                lemma_bytes_lt_common_prefix(a@, b@, i as int);
                lemma_bytes_lt_asymmetric(a@, b@);
                lemma_bytes_lt_irreflexive(a@);
            }
            return Rel::Before;
        }
        if i == blen {
            proof {
                lemma_bytes_lt_common_prefix(a@, b@, i as int);
                lemma_bytes_lt_asymmetric(a@, b@);
                lemma_bytes_lt_irreflexive(a@);
            }
            return Rel::After;
        }
        if a[i] < b[i] {
            proof {
                lemma_bytes_lt_common_prefix(a@, b@, i as int);
                lemma_bytes_lt_asymmetric(a@, b@);
                lemma_bytes_lt_irreflexive(a@);
            }
            return Rel::Before;
        }
        if b[i] < a[i] {
            proof {
                lemma_bytes_lt_common_prefix(a@, b@, i as int);
                lemma_bytes_lt_asymmetric(a@, b@);
                lemma_bytes_lt_irreflexive(a@);
            }
            return Rel::After;
        }
        assert(a@.subrange(0, i + 1 as int) =~= b@.subrange(0, i + 1 as int));
        i = i + 1;
    }
}

/// Compares two strings by their UTF-8 bytes.
pub fn cmp_str(a: &String, b: &String) -> (r: Rel)
    ensures
        r == Rel::Before <==> str_lt(a@, b@),
        r == Rel::Same <==> a@ =~= b@,
        r == Rel::After <==> str_lt(b@, a@),
{
    let r = cmp_bytes(a.as_str().as_bytes(), b.as_str().as_bytes());
    proof {
        if encode_utf8(a@) =~= encode_utf8(b@) {
            lemma_encode_utf8_injective(a@, b@);
        }
    }
    r
}

/// Decides `entry_le` on two entries.
pub fn entry_le_exec(a: &Entry, b: &Entry) -> (r: bool)
    ensures
        r == entry_le(a@, b@),
{
    if a.ts != b.ts {
        a.ts < b.ts
    } else {
        match cmp_str(&a.host, &b.host) {
            Rel::Before => true,
            Rel::After => false,
            Rel::Same => match cmp_str(&a.cmd, &b.cmd) {
                Rel::Before => true,
                Rel::After => false,
                Rel::Same => match cmp_str(&a.path, &b.path) {
                    Rel::Before => true,
                    Rel::After => false,
                    Rel::Same => match cmp_str(&a.session, &b.session) {
                        Rel::Before => true,
                        Rel::After => false,
                        Rel::Same => a.id <= b.id,
                    },
                },
            },
        }
    }
}

} // verus!
