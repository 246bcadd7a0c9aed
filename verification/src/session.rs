//! The current shell session's identity.

use vstd::prelude::*;

use crate::entry::{Entry, EntryV};

verus! {

/// A session: its id and, when known, its start time. Both come from the
/// environment; the surrounding process reads them in.
#[derive(Debug)]
pub struct Session {
    /// The session id; a fixed placeholder when none is set.
    pub id: String,
    /// When the session began, if the shell said so.
    pub start: Option<i64>,
}

/// When an entry counts as part of a session: recorded before the session
/// began — so a rolling reimport attributes earlier history to it — or
/// recorded under the session's id.
pub open spec fn spec_in_session(id: Seq<char>, start: Option<int>, e: EntryV) -> bool {
    (start matches Some(t) && e.ts < t) || e.session == id
}

impl Session {
    /// Whether an entry belongs to this session.
    pub fn includes_entry(&self, e: &Entry) -> (r: bool)
        ensures
            r == spec_in_session(
                self.id@,
                match self.start {
                    Some(t) => Some(t as int),
                    None => None,
                },
                e@,
            ),
    {
        match self.start {
            Some(t) => {
                if e.ts < t {
                    return true;
                }
            },
            None => {},
        }
        e.session == self.id
    }
}

} // verus!
