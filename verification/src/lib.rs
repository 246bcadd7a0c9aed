//! An encrypted, chunked, multi-host shell-history store.
//!
//! Each host appends command entries to an in-memory history that is
//! persisted as day-sharded files of framed, AES-256-GCM-encrypted chunks,
//! and exchanged between hosts through a shared directory. This crate holds
//! the verified core: the chunk codec, the on-disk record framing, the
//! merged cross-host view, the wire protocol, and the policy decisions of
//! the daemon and the sync backends. The surrounding process (sockets,
//! files, git) drives these functions from outside.

pub mod chunkcodec;
pub mod client;
pub mod config;
pub mod crypto;
pub mod daemon;
pub mod entry;
pub mod entrycodec;
pub mod errors;
pub mod filter;
pub mod history;
pub mod intbytes;
pub mod keys;
pub mod merge;
pub mod msgpack;
pub mod protocol;
pub mod session;
pub mod store;
pub mod syncers;
pub mod text;
pub mod timeunits;

pub use errors::{Error, ErrorKind};
