//! The daemon's configuration and its defaults.
//!
//! The configuration file is plain TOML read by the surrounding process,
//! which hands the raw optional fields here; this module applies the
//! defaults and derives the sync tree's place.

use vstd::prelude::*;

verus! {

/// The sync section of the configuration.
#[derive(Debug)]
pub struct Sync {
    /// Whether syncing through a git remote is on.
    pub enabled: bool,
    /// The remote repository, when syncing is on.
    pub url: String,
    /// A private key file for ssh authentication; empty for the agent.
    pub ssh_key: String,
    /// Seconds between background syncs; zero turns them off.
    pub interval_secs: u64,
    /// The sync working tree, relative to the state directory unless
    /// absolute.
    pub path: String,
}

/// The whole configuration.
#[derive(Debug)]
pub struct Config {
    /// Where the configuration file came from, when one was read.
    pub path: Option<String>,
    /// The cache directory.
    pub cache_dir: String,
    /// The state directory: socket, pid file, snapshot, sync tree.
    pub state_dir: String,
    /// This host's name.
    pub hostname: String,
    /// The sync section.
    pub sync: Sync,
}

/// The optional fields as they come out of the configuration file.
#[derive(Debug)]
pub struct RawConfig {
    pub path: Option<String>,
    pub cache_dir: Option<String>,
    pub state_dir: Option<String>,
    pub hostname: Option<String>,
    pub sync_enabled: Option<bool>,
    pub sync_url: Option<String>,
    pub sync_ssh_key: Option<String>,
    pub sync_interval_secs: Option<u64>,
    pub sync_path: Option<String>,
}

/// Syncing defaults to on.
pub fn default_sync_enabled() -> (r: bool)
    ensures
        r == true,
{
    true
}

/// Background syncs default to every thirty seconds.
pub fn default_sync_interval() -> (r: u64)
    ensures
        r == 30,
{
    30
}

/// The sync tree defaults to `sync` under the state directory.
pub fn default_sync_path() -> (r: String)
    ensures
        r@ == "sync"@,
{
    String::from_str("sync")
}

/// What a raw optional field resolves to.
pub open spec fn spec_or_default<T>(o: Option<T>, d: T) -> T {
    match o {
        Some(v) => v,
        None => d,
    }
}

impl Config {
    /// Applies the defaults to the raw fields. The directory and hostname
    /// defaults come from the caller, which knows the machine.
    pub fn load(
        raw: RawConfig,
        cache_dir_default: String,
        state_dir_default: String,
        hostname_default: String,
    ) -> (r: Config)
        ensures
            r.path == raw.path,
            r.cache_dir@ == spec_or_default(raw.cache_dir, cache_dir_default)@,
            r.state_dir@ == spec_or_default(raw.state_dir, state_dir_default)@,
            r.hostname@ == spec_or_default(raw.hostname, hostname_default)@,
            r.sync.enabled == spec_or_default(raw.sync_enabled, true),
            r.sync.url@ == (match raw.sync_url {
                Some(u) => u@,
                None => Seq::<char>::empty(),
            }),
            r.sync.ssh_key@ == (match raw.sync_ssh_key {
                Some(k) => k@,
                None => Seq::<char>::empty(),
            }),
            r.sync.interval_secs == spec_or_default(raw.sync_interval_secs, 30),
            r.sync.path@ == (match raw.sync_path {
                Some(p) => p@,
                None => "sync"@,
            }),
    {
        let cache_dir = match raw.cache_dir {
            Some(v) => v,
            None => cache_dir_default,
        };
        let state_dir = match raw.state_dir {
            Some(v) => v,
            None => state_dir_default,
        };
        let hostname = match raw.hostname {
            Some(v) => v,
            None => hostname_default,
        };
        let enabled = match raw.sync_enabled {
            Some(v) => v,
            None => default_sync_enabled(),
        };
        let url = match raw.sync_url {
            Some(v) => v,
            None => String::new(),
        };
        let ssh_key = match raw.sync_ssh_key {
            Some(v) => v,
            None => String::new(),
        };
        let interval_secs = match raw.sync_interval_secs {
            Some(v) => v,
            None => default_sync_interval(),
        };
        let sync_path = match raw.sync_path {
            Some(v) => v,
            None => default_sync_path(),
        };
        Config {
            path: raw.path,
            cache_dir,
            state_dir,
            hostname,
            sync: Sync { enabled, url, ssh_key, interval_secs, path: sync_path },
        }
    }

    /// Where the sync working tree lives: the configured path itself when
    /// absolute, otherwise under the state directory.
    pub fn sync_path(&self) -> (r: String)
        ensures
            r@ == spec_sync_path(self.state_dir@, self.sync.path@),
    {
        let bytes = self.sync.path.as_str().as_bytes();
        if bytes.len() > 0 && bytes[0] == 47 {
            proof {
                assert(vstd::utf8::encode_utf8(self.sync.path@)[0] == 47);
            }
            return self.sync.path.clone();
        }
        let mut out = self.state_dir.clone();
        out.append("/");
        out.append(self.sync.path.as_str());
        proof {
            vstd::utf8::encode_utf8_decode_utf8(self.sync.path@);
        }
        out
    }
}

/// The sync tree's place: the configured path when its first byte is a
/// slash, else the state directory, a slash, and the path.
pub open spec fn spec_sync_path(state_dir: Seq<char>, path: Seq<char>) -> Seq<char> {
    if vstd::utf8::encode_utf8(path).len() > 0 && vstd::utf8::encode_utf8(path)[0] == 47 {
        path
    } else {
        state_dir + "/"@ + path
    }
}

} // verus!
