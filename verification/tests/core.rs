//! End-to-end behaviour of the history core and the store, run against
//! the real outside crates.

use vellum::chunkcodec::{decrypt_chunk, encrypt_chunk, encrypt_chunk_v0, Chunk, SealedChunk};
use vellum::entry::Entry;
use vellum::errors::ErrorKind;
use vellum::history::History;
use vellum::keys::{decode_key, generate_key};
use vellum::chunkcodec::read_records;
use vellum::store::{read_chunks, DayFile, HostDir};
use vellum::timeunits::MICROS_PER_HOUR;

fn key() -> Vec<u8> {
    vec![0u8; 32]
}

fn entry(id: u128, ts: i64, host: &str, cmd: &str, session: &str) -> Entry {
    Entry {
        id,
        ts,
        host: host.to_string(),
        cmd: cmd.to_string(),
        path: String::new(),
        session: session.to_string(),
    }
}

/// Concatenates a host's appends into day files, as the daemon's file
/// appends would.
fn appends_to_dir(host: &str, appends: Vec<vellum::store::DayAppend>) -> HostDir {
    let mut files: Vec<DayFile> = Vec::new();
    for app in appends {
        match files.iter_mut().find(|f| f.day == app.day) {
            Some(f) => f.bytes.extend_from_slice(&app.bytes),
            None => files.push(DayFile { day: app.day, bytes: app.bytes }),
        }
    }
    HostDir { host: host.to_string(), files }
}

#[test]
fn chunk_round_trip() {
    let k = key();
    let c = Chunk {
        start: 1_000_000,
        entries: vec![
            entry(1, 1_000_000, "alpha", "ls", "S1"),
            entry(2, 1_000_500, "alpha", "echo hi", "S1"),
        ],
    };
    let sealed = encrypt_chunk(&c, &k).unwrap();
    assert_eq!(sealed.version, 1);
    assert_eq!(sealed.start, 1_000_000);
    let back = decrypt_chunk(&sealed, &k).unwrap();
    assert_eq!(back.start, 1_000_000);
    assert_eq!(back.entries.len(), 2);
    assert_eq!(back.entries[0].cmd, "ls");
    assert_eq!(back.entries[1].cmd, "echo hi");
    assert_eq!(back.entries[1].session, "S1");
}

#[test]
fn chunk_round_trip_wrong_key_fails() {
    let k = key();
    let mut other = key();
    other[0] = 1;
    let c = Chunk { start: 5, entries: vec![entry(1, 5, "a", "x", "s")] };
    let sealed = encrypt_chunk(&c, &k).unwrap();
    let err = decrypt_chunk(&sealed, &other).unwrap_err();
    assert_eq!(err.kind, ErrorKind::CryptoFailure);
}

#[test]
fn legacy_record_lifts_path() {
    let k = key();
    let mut e = entry(7, 42, "a", "old cmd", "s");
    e.path = "/ignored/by/v0".to_string();
    let c = Chunk { start: 42, entries: vec![e] };
    let sealed = encrypt_chunk_v0(&c, &k).unwrap();
    assert_eq!(sealed.version, 0);
    let back = decrypt_chunk(&sealed, &k).unwrap();
    assert_eq!(back.entries.len(), 1);
    assert_eq!(back.entries[0].cmd, "old cmd");
    assert_eq!(back.entries[0].path, "");
    // re-sealing under the current version keeps the lifted entries
    let again = encrypt_chunk(&back, &k).unwrap();
    assert_eq!(again.version, 1);
    let twice = decrypt_chunk(&again, &k).unwrap();
    assert_eq!(twice.entries[0].cmd, "old cmd");
    assert_eq!(twice.entries[0].path, "");
}

#[test]
fn truncated_record_is_framing_error() {
    let k = key();
    let mut h = History::new("a".to_string(), 0);
    h.add(9, 1, "x".to_string(), String::new(), "s".to_string());
    let out = h.save(10, &k).unwrap();
    assert_eq!(out.appends.len(), 1);
    let mut bytes = out.appends[0].bytes.clone();
    bytes.truncate(bytes.len() - 3);
    let err = read_records(&bytes).unwrap_err();
    assert_eq!(err.kind, ErrorKind::FramingDecode);
}

#[test]
fn garbage_payload_is_store_corrupt() {
    let k = key();
    let junk = vec![1u8, 2, 3, 4];
    let (nonce, data) = vellum::crypto::aead_seal(&k, &junk).unwrap();
    let sc = SealedChunk { version: 1, start: 0, nonce, data };
    let err = decrypt_chunk(&sc, &k).unwrap_err();
    assert_eq!(err.kind, ErrorKind::StoreCorrupt);
}

#[test]
fn unknown_version_records_are_skipped() {
    let k = key();
    let mut h = History::new("a".to_string(), 0);
    h.add(9, 1, "x".to_string(), String::new(), "s".to_string());
    let out = h.save(10, &k).unwrap();
    let mut bytes = vec![9u8, 0, 0, 0, 0, 0, 0, 2, 0xaa, 0xbb];
    bytes.extend_from_slice(&out.appends[0].bytes);
    let records = read_records(&bytes).unwrap();
    assert_eq!(records.len(), 1);
    assert_eq!(records[0].version, 1);
}

#[test]
fn read_chunks_since_now_is_empty() {
    let k = key();
    let mut h = History::new("a".to_string(), 0);
    h.add(1_000, 1, "past".to_string(), String::new(), "s".to_string());
    let out = h.save(2_000, &k).unwrap();
    let dir = appends_to_dir("a", out.appends);
    let now = 50_000_000;
    let cs = read_chunks(&dir.files, now, &k).unwrap();
    assert!(cs.is_empty());
    // the same files do hold a record before `now`
    let all = read_chunks(&dir.files, 0, &k).unwrap();
    assert_eq!(all.len(), 1);
}

#[test]
fn add_on_empty_history_opens_active_chunk() {
    let mut h = History::new("a".to_string(), 100);
    assert!(h.history.is_empty());
    h.add(150, 1, "ls".to_string(), String::new(), "s".to_string());
    assert_eq!(h.history.len(), 1);
    assert_eq!(h.history[0].host, "a");
    assert_eq!(h.history[0].chunks.len(), 1);
    assert!(h.history[0].chunks[0].start > h.last_write);
    assert_eq!(h.history[0].chunks[0].start, 150);
}

#[test]
fn save_without_new_entries_writes_nothing() {
    let k = key();
    let mut h = History::new("a".to_string(), 0);
    h.add(10, 1, "ls".to_string(), String::new(), "s".to_string());
    let first = h.save(20, &k).unwrap();
    assert_eq!(first.appends.len(), 1);
    let second = h.save(30, &k).unwrap();
    assert_eq!(second.appends.len(), 0);
}

#[test]
fn store_and_retrieve() {
    let mut h = History::new("host-a".to_string(), 0);
    h.add(10, 1, "ls".to_string(), String::new(), "S1".to_string());
    let view = h.history();
    assert_eq!(view.len(), 1);
    assert_eq!(view[0].cmd, "ls");
    assert_eq!(view[0].session, "S1");
    assert_eq!(view[0].host, "host-a");
    assert_eq!(view[0].path, "");
}

#[test]
fn update_then_delete() {
    let mut h = History::new("a".to_string(), 0);
    h.add(10, 1, "echo a".to_string(), String::new(), "S1".to_string());
    h.update(20, 1, "echo b".to_string(), "S1".to_string()).unwrap();
    let view = h.history();
    assert_eq!(view.len(), 1);
    assert_eq!(view[0].cmd, "echo b");
    h.update(30, 1, String::new(), "S1".to_string()).unwrap();
    assert!(h.history().is_empty());
}

#[test]
fn update_unknown_id_fails() {
    let mut h = History::new("a".to_string(), 0);
    h.add(10, 1, "x".to_string(), String::new(), "s".to_string());
    let err = h.update(20, 99, "y".to_string(), "s".to_string()).unwrap_err();
    assert_eq!(err.kind, ErrorKind::UnknownId);
}

#[test]
fn crash_recovery_from_snapshot() {
    let k = key();
    let mut h = History::new("a".to_string(), 0);
    h.add(10, 1, "cmd1".to_string(), String::new(), "s".to_string());
    // the snapshot written after the add is all that survives the crash
    let snapshot = h.snapshot_active(&k).unwrap();
    let restarted = History::load("a".to_string(), 1_000, &Vec::new(), &snapshot, &k).unwrap();
    let view = restarted.history();
    assert_eq!(view.len(), 1);
    assert_eq!(view[0].cmd, "cmd1");
}

#[test]
fn cross_host_merge() {
    let k = key();
    // host a writes and saves
    let mut a = History::new("a".to_string(), 0);
    a.add(10, 1, "a1".to_string(), String::new(), "s".to_string());
    let out_a = a.save(20, &k).unwrap();
    let dir_a = appends_to_dir("a", out_a.appends);
    // host b starts from a's files, writes, saves
    let mut b = History::load("b".to_string(), 30, &vec![clone_dir(&dir_a)], &[], &k).unwrap();
    b.add(40, 2, "b1".to_string(), String::new(), "s".to_string());
    let out_b = b.save(50, &k).unwrap();
    let dir_b = appends_to_dir("b", out_b.appends);
    assert_eq!(b.history().len(), 2);
    // host a syncs in b's files
    let (_, added) = a.sync(60, &vec![dir_b], &k).unwrap();
    assert!(added);
    let view = a.history();
    assert_eq!(view.len(), 2);
    assert_eq!(view[0].cmd, "a1");
    assert_eq!(view[1].cmd, "b1");
    assert!(view[0].ts <= view[1].ts);
}

fn clone_dir(d: &HostDir) -> HostDir {
    HostDir {
        host: d.host.clone(),
        files: d
            .files
            .iter()
            .map(|f| DayFile { day: f.day, bytes: f.bytes.clone() })
            .collect(),
    }
}

#[test]
fn merge_is_order_insensitive() {
    let k = key();
    let mut b = History::new("b".to_string(), 0);
    b.add(10, 1, "b1".to_string(), String::new(), "s".to_string());
    let dir_b = appends_to_dir("b", b.save(20, &k).unwrap().appends);
    let mut c = History::new("c".to_string(), 0);
    c.add(15, 2, "c1".to_string(), String::new(), "s".to_string());
    let dir_c = appends_to_dir("c", c.save(25, &k).unwrap().appends);
    let bc = History::load(
        "a".to_string(),
        100,
        &vec![clone_dir(&dir_b), clone_dir(&dir_c)],
        &[],
        &k,
    )
    .unwrap();
    let cb = History::load("a".to_string(), 100, &vec![dir_c, dir_b], &[], &k).unwrap();
    let h1 = bc.history();
    let h2 = cb.history();
    assert_eq!(h1.len(), h2.len());
    for (x, y) in h1.iter().zip(h2.iter()) {
        assert_eq!(x.id, y.id);
        assert_eq!(x.cmd, y.cmd);
        assert_eq!(x.ts, y.ts);
    }
}

#[test]
fn rebuild_compacts_by_hour() {
    let k = key();
    let mut h = History::new("a".to_string(), 0);
    // ten entries spread over four distinct hours
    let hours = [0i64, 0, 1, 1, 1, 2, 2, 2, 2, 3];
    for (i, hr) in hours.iter().enumerate() {
        let ts = hr * MICROS_PER_HOUR + (i as i64) + 1;
        h.add(ts, (i + 1) as u128, format!("c{}", i), String::new(), "s".to_string());
    }
    let before = h.history();
    let out = h.rewrite_all_files(10 * MICROS_PER_HOUR, &k).unwrap();
    assert_eq!(out.hosts.len(), 1);
    assert_eq!(h.history.len(), 1);
    let chunks = &h.history[0].chunks;
    assert_eq!(chunks.len(), 4);
    for c in chunks.iter() {
        assert_eq!(c.start % MICROS_PER_HOUR, 0);
        for e in c.entries.iter() {
            assert_eq!(e.ts - e.ts % MICROS_PER_HOUR, c.start);
        }
    }
    let after = h.history();
    assert_eq!(before.len(), after.len());
    for (x, y) in before.iter().zip(after.iter()) {
        assert_eq!(x.id, y.id);
        assert_eq!(x.cmd, y.cmd);
    }
}

#[test]
fn offline_hosts_converge() {
    let k = key();
    let mut a = History::new("a".to_string(), 0);
    let mut b = History::new("b".to_string(), 0);
    a.add(10, 1, "from-a".to_string(), String::new(), "s".to_string());
    b.add(11, 2, "from-b".to_string(), String::new(), "s".to_string());
    let dir_a = appends_to_dir("a", a.save(20, &k).unwrap().appends);
    let dir_b = appends_to_dir("b", b.save(21, &k).unwrap().appends);
    let (_, added_a) = a.sync(30, &vec![clone_dir(&dir_b)], &k).unwrap();
    let (_, added_b) = b.sync(31, &vec![clone_dir(&dir_a)], &k).unwrap();
    assert!(added_a && added_b);
    let va = a.history();
    let vb = b.history();
    assert_eq!(va.len(), 2);
    assert_eq!(vb.len(), 2);
    for (x, y) in va.iter().zip(vb.iter()) {
        assert_eq!(x.id, y.id);
        assert_eq!(x.cmd, y.cmd);
    }
}

#[test]
fn load_entries_filters_and_dedups() {
    let mut h = History::new("a".to_string(), 0);
    h.add(10, 1, "kept".to_string(), String::new(), "s".to_string());
    let batch = vec![
        entry(1, 10, "a", "kept", "s"),      // same id, same cmd: dropped
        entry(2, 11, "a", "new", "s"),       // new id: taken
        entry(3, 12, "elsewhere", "x", "s"), // foreign host: dropped
    ];
    let n = h.load_entries(20, &batch, false).unwrap();
    assert_eq!(n, 1);
    let err = h.load_entries(30, &batch, true).unwrap_err();
    assert_eq!(err.kind, ErrorKind::Unimplemented);
}

#[test]
fn key_round_trip_and_rejection() {
    let text = generate_key().unwrap();
    let k = decode_key(&text).unwrap();
    assert_eq!(k.len(), 32);
    let err = decode_key("this is not base64!").unwrap_err();
    assert_eq!(err.kind, ErrorKind::CryptoKey);
    let short = decode_key("AAAA").unwrap_err();
    assert_eq!(short.kind, ErrorKind::CryptoKey);
    // the key text parses back to the bytes it encodes
    let manual = base64::Engine::encode(&base64::engine::general_purpose::STANDARD, [0u8; 32]);
    let zeros = decode_key(&manual).unwrap();
    assert_eq!(zeros, vec![0u8; 32]);
}

#[test]
fn chunk_starts_stay_sorted() {
    let k = key();
    let mut h = History::new("a".to_string(), 0);
    for i in 0..5i64 {
        let t = 100 * (i + 1);
        h.add(t, (i + 1) as u128, format!("c{}", i), String::new(), "s".to_string());
        if i % 2 == 0 {
            let _ = h.save(t + 50, &k).unwrap();
        }
    }
    for hc in h.history.iter() {
        for w in hc.chunks.windows(2) {
            assert!(w[0].start <= w[1].start);
        }
    }
}
