//! The sync backends' shared contract and policy decisions.
//!
//! Two backends exist: a local directory, which never talks to anyone,
//! and a git working copy driven by the surrounding process. The policy
//! decisions of the git backend — when to commit, push, retry or give up
//! on the remote lock — live here, where they are checked; the process
//! performs the git operations they call for.

use vstd::prelude::*;

use crate::config::Config;
use crate::errors::{Error, ErrorKind};

verus! {

/// A locked sync backend: exclusive across all hosts until unlocked.
pub trait LockedSyncer: Sized {
    /// The hosts directory of a ready-to-read tree, without re-locking.
    fn refresh(&self) -> Result<String, Error>;

    /// Persists a rewritten history as a fresh single-commit line.
    fn push_changes(&self, host: &String) -> Result<(), Error>;

    /// Releases the lock.
    fn unlock(&self) -> Result<(), Error>;
}

/// A sync backend.
pub trait Syncer: Sized {
    /// The locked form of this backend.
    type Locked: LockedSyncer;

    /// The hosts directory of a ready-to-read tree.
    fn refresh(&self) -> Result<String, Error>;

    /// Persists staged changes as a commit; pushes when needed.
    fn push_changes(&self, host: &String, force: bool) -> Result<(), Error>;

    /// Takes the exclusive lock.
    fn lock(&self) -> Result<Self::Locked, Error>;
}

/// The backend used when syncing is off: a fixed local directory, with
/// nothing to push and nothing to lock.
#[derive(Debug)]
pub struct Local {
    /// The hosts directory.
    pub path: String,
}

impl Local {
    /// A local backend over a directory the caller has made.
    pub fn new(path: String) -> (r: Local)
        ensures
            r.path@ == path@,
    {
        Local { path }
    }
}

/// The locked form of the local backend: the same directory.
#[derive(Debug)]
pub struct LockedLocal {
    /// The hosts directory.
    pub path: String,
}

impl Syncer for Local {
    type Locked = LockedLocal;

    /// Always the fixed directory chosen at construction.
    fn refresh(&self) -> (r: Result<String, Error>)
        ensures
            r matches Ok(p) && p@ == self.path@,
    {
        Ok(self.path.clone())
    }

    /// Nothing to persist: always succeeds.
    fn push_changes(&self, host: &String, force: bool) -> (r: Result<(), Error>)
        ensures
            r is Ok,
    {
        Ok(())
    }

    /// Nothing to lock: a handle over the same directory.
    fn lock(&self) -> (r: Result<LockedLocal, Error>)
        ensures
            r matches Ok(l) && l.path@ == self.path@,
    {
        Ok(LockedLocal { path: self.path.clone() })
    }
}

impl LockedSyncer for LockedLocal {
    /// Always the fixed directory chosen at construction.
    fn refresh(&self) -> (r: Result<String, Error>)
        ensures
            r matches Ok(p) && p@ == self.path@,
    {
        Ok(self.path.clone())
    }

    /// Nothing to persist: always succeeds.
    fn push_changes(&self, host: &String) -> (r: Result<(), Error>)
        ensures
            r is Ok,
    {
        Ok(())
    }

    /// Nothing to release: always succeeds.
    fn unlock(&self) -> (r: Result<(), Error>)
        ensures
            r is Ok,
    {
        Ok(())
    }
}

/// A stand-in backend for tests: the same no-op behaviour as the local
/// one.
#[derive(Debug)]
pub struct Dummy {
    /// The hosts directory.
    pub path: String,
}

impl Dummy {
    /// A stand-in backend over a directory the caller has made.
    pub fn new(path: String) -> (r: Dummy)
        ensures
            r.path@ == path@,
    {
        Dummy { path }
    }
}

/// The locked form of the stand-in backend.
#[derive(Debug)]
pub struct LockedDummy {
    /// The hosts directory.
    pub path: String,
}

impl Syncer for Dummy {
    type Locked = LockedDummy;

    /// Always the fixed directory chosen at construction.
    fn refresh(&self) -> (r: Result<String, Error>)
        ensures
            r matches Ok(p) && p@ == self.path@,
    {
        Ok(self.path.clone())
    }

    /// Nothing to persist: always succeeds.
    fn push_changes(&self, host: &String, force: bool) -> (r: Result<(), Error>)
        ensures
            r is Ok,
    {
        Ok(())
    }

    /// Nothing to lock: a handle over the same directory.
    fn lock(&self) -> (r: Result<LockedDummy, Error>)
        ensures
            r matches Ok(l) && l.path@ == self.path@,
    {
        Ok(LockedDummy { path: self.path.clone() })
    }
}

impl LockedSyncer for LockedDummy {
    /// Always the fixed directory chosen at construction.
    fn refresh(&self) -> (r: Result<String, Error>)
        ensures
            r matches Ok(p) && p@ == self.path@,
    {
        Ok(self.path.clone())
    }

    /// Nothing to persist: always succeeds.
    fn push_changes(&self, host: &String) -> (r: Result<(), Error>)
        ensures
            r is Ok,
    {
        Ok(())
    }

    /// Nothing to release: always succeeds.
    fn unlock(&self) -> (r: Result<(), Error>)
        ensures
            r is Ok,
    {
        Ok(())
    }
}

/// Which backend a configuration calls for.
#[derive(Debug, Clone, Copy, PartialEq, Eq, Structural)]
pub enum SyncerKind {
    /// The git-backed variant, run by the surrounding process.
    GitBacked,
    /// The local directory variant.
    LocalOnly,
}

/// Picks the backend: git-backed exactly when syncing is enabled and a
/// remote is configured, local otherwise; always rooted at the
/// configured sync path.
pub fn get_syncer(cfg: &Config) -> (r: (SyncerKind, String))
    ensures
        (r.0 == SyncerKind::GitBacked) <==> (cfg.sync.enabled && cfg.sync.url@.len() > 0),
        r.1@ == crate::config::spec_sync_path(cfg.state_dir@, cfg.sync.path@),
{
    let path = cfg.sync_path();
    if cfg.sync.enabled && !cfg.sync.url.as_str().is_empty() {
        (SyncerKind::GitBacked, path)
    } else {
        (SyncerKind::LocalOnly, path)
    }
}

/// How long a fetch keeps waiting for the remote lock tag, in seconds.
pub const MAX_LOCK_WAIT_SECS: u64 = 300;

/// What the lock-wait loop does next.
#[derive(Debug, Clone, Copy, PartialEq, Eq, Structural)]
pub enum LockWait {
    /// The remote is unlocked: go on.
    Proceed,
    /// Still locked within the ceiling: sleep a second and fetch again.
    Retry,
    /// Still locked past the ceiling: give up.
    GiveUp,
}

/// Decides the next step of the lock-wait loop.
pub fn lock_wait_step(locked: bool, elapsed_secs: u64) -> (r: LockWait)
    ensures
        r == LockWait::Proceed <==> !locked,
        r == LockWait::Retry <==> locked && elapsed_secs < MAX_LOCK_WAIT_SECS,
        r == LockWait::GiveUp <==> locked && elapsed_secs >= MAX_LOCK_WAIT_SECS,
{
    if !locked {
        LockWait::Proceed
    } else if elapsed_secs < MAX_LOCK_WAIT_SECS {
        LockWait::Retry
    } else {
        LockWait::GiveUp
    }
}

/// The error reported when the lock never came free.
pub fn lock_timeout_error() -> (r: Error)
    ensures
        r.kind == ErrorKind::SyncLockTimeout,
{
    Error::of(ErrorKind::SyncLockTimeout)
}

/// Whether to create a commit: only when the tree changed, unless forced.
pub fn should_commit(tree_changed: bool, force: bool) -> (r: bool)
    ensures
        r == (tree_changed || force),
{
    tree_changed || force
}

/// Whether to push: only when local commits are unpushed, unless forced.
pub fn should_push(unpushed: u64, force: bool) -> (r: bool)
    ensures
        r == (unpushed > 0 || force),
{
    unpushed > 0 || force
}

/// Whether to pull and push once more after a failed push: only on the
/// first non-fast-forward failure.
pub fn push_retry(non_fast_forward: bool, attempts: u64) -> (r: bool)
    ensures
        r == (non_fast_forward && attempts == 0),
{
    non_fast_forward && attempts == 0
}

/// Sorts a git failure into the sync error taxonomy: authentication
/// first, then the network, then a conflict that survived the retry.
pub fn classify_sync_failure(auth: bool, network: bool, non_fast_forward: bool) -> (r: ErrorKind)
    ensures
        auth ==> r == ErrorKind::SyncAuth,
        !auth && network ==> r == ErrorKind::SyncNetwork,
        !auth && !network && non_fast_forward ==> r == ErrorKind::SyncConflict,
        !auth && !network && !non_fast_forward ==> r == ErrorKind::Generic,
{
    if auth {
        ErrorKind::SyncAuth
    } else if network {
        ErrorKind::SyncNetwork
    } else if non_fast_forward {
        ErrorKind::SyncConflict
    } else {
        ErrorKind::Generic
    }
}

} // verus!
