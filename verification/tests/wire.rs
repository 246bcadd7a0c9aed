//! The wire protocol, the client helpers, the daemon dispatch, the
//! filter, and the configuration.

use vellum::client;
use vellum::config::{Config, RawConfig};
use vellum::daemon::{handle_request, next_sync_wait, usable_now, Action};
use vellum::entry::Entry;
use vellum::errors::ErrorKind;
use vellum::filter::{Filter, FilterArgs};
use vellum::history::History;
use vellum::protocol::{decode_message, encode_message, frame_message, read_frame_len, Message};
use vellum::session::Session;
use vellum::syncers::{
    classify_sync_failure, get_syncer, lock_wait_step, push_retry, should_commit, should_push,
    LockWait, SyncerKind,
};

fn entry(id: u128, ts: i64, host: &str, cmd: &str, path: &str, session: &str) -> Entry {
    Entry {
        id,
        ts,
        host: host.to_string(),
        cmd: cmd.to_string(),
        path: path.to_string(),
        session: session.to_string(),
    }
}

fn round_trip(m: Message) -> Message {
    let bytes = encode_message(&m).unwrap();
    decode_message(&bytes).unwrap()
}

#[test]
fn message_round_trips() {
    match round_trip(Message::Ack) {
        Message::Ack => {},
        other => panic!("unexpected: {:?}", other),
    }
    match round_trip(Message::Store { cmd: "ls -la".to_string(), session: "S1".to_string() }) {
        Message::Store { cmd, session } => {
            assert_eq!(cmd, "ls -la");
            assert_eq!(session, "S1");
        },
        other => panic!("unexpected: {:?}", other),
    }
    match round_trip(Message::Update {
        id: 0x1234_5678_9abc_def0_1111_2222_3333_4444,
        cmd: "x".to_string(),
        session: "s".to_string(),
    }) {
        Message::Update { id, cmd, .. } => {
            assert_eq!(id, 0x1234_5678_9abc_def0_1111_2222_3333_4444);
            assert_eq!(cmd, "x");
        },
        other => panic!("unexpected: {:?}", other),
    }
    match round_trip(Message::History(vec![entry(9, 77, "h", "c", "/p", "s")])) {
        Message::History(es) => {
            assert_eq!(es.len(), 1);
            assert_eq!(es[0].id, 9);
            assert_eq!(es[0].ts, 77);
            assert_eq!(es[0].path, "/p");
        },
        other => panic!("unexpected: {:?}", other),
    }
    match round_trip(Message::Sync(true)) {
        Message::Sync(true) => {},
        other => panic!("unexpected: {:?}", other),
    }
    match round_trip(Message::Exit(false)) {
        Message::Exit(false) => {},
        other => panic!("unexpected: {:?}", other),
    }
    match round_trip(Message::RebuildComplete(Some("boom".to_string()))) {
        Message::RebuildComplete(Some(s)) => assert_eq!(s, "boom"),
        other => panic!("unexpected: {:?}", other),
    }
    match round_trip(Message::RebuildComplete(None)) {
        Message::RebuildComplete(None) => {},
        other => panic!("unexpected: {:?}", other),
    }
}

#[test]
fn non_ascii_strings_survive_the_wire() {
    let cmd = "echo \u{00e9}t\u{00e9} \u{4e16}\u{754c}".to_string();
    match round_trip(Message::Store { cmd: cmd.clone(), session: "s\u{00df}".to_string() }) {
        Message::Store { cmd: c, session } => {
            assert_eq!(c, cmd);
            assert_eq!(session, "s\u{00df}");
        },
        other => panic!("unexpected: {:?}", other),
    }
}

#[test]
fn malformed_message_is_rejected() {
    let err = decode_message(&[0xdd, 0, 0]).unwrap_err();
    assert_eq!(err.kind, ErrorKind::FramingDecode);
    let err2 = decode_message(&[]).unwrap_err();
    assert_eq!(err2.kind, ErrorKind::FramingDecode);
}

#[test]
fn framing_carries_the_body_length() {
    let framed = frame_message(&Message::Ping).unwrap();
    assert!(framed.len() > 8);
    let len = read_frame_len(&framed[..8]);
    assert_eq!(len as usize, framed.len() - 8);
    match decode_message(&framed[8..]).unwrap() {
        Message::Ping => {},
        other => panic!("unexpected: {:?}", other),
    }
}

#[test]
fn client_requests_decode_back() {
    let bytes = client::store("ls".to_string(), "S1".to_string()).unwrap().unwrap();
    match decode_message(&bytes[8..]).unwrap() {
        Message::Store { cmd, session } => {
            assert_eq!(cmd, "ls");
            assert_eq!(session, "S1");
        },
        other => panic!("unexpected: {:?}", other),
    }
    assert!(client::store(String::new(), "S1".to_string()).unwrap().is_none());
    let sync_bytes = client::sync(true).unwrap();
    match decode_message(&sync_bytes[8..]).unwrap() {
        Message::Sync(true) => {},
        other => panic!("unexpected: {:?}", other),
    }
    let stop_bytes = client::stop_server(true).unwrap();
    match decode_message(&stop_bytes[8..]).unwrap() {
        Message::Exit(true) => {},
        other => panic!("unexpected: {:?}", other),
    }
    let ping_bytes = client::ping().unwrap();
    match decode_message(&ping_bytes[8..]).unwrap() {
        Message::Ping => {},
        other => panic!("unexpected: {:?}", other),
    }
    let rebuild_bytes = client::rebuild().unwrap();
    match decode_message(&rebuild_bytes[8..]).unwrap() {
        Message::Rebuild => {},
        other => panic!("unexpected: {:?}", other),
    }
    let dels = client::delete(&vec![5u128, 6u128], &"S".to_string()).unwrap();
    assert_eq!(dels.len(), 2);
    match decode_message(&dels[1][8..]).unwrap() {
        Message::Update { id, cmd, .. } => {
            assert_eq!(id, 6);
            assert_eq!(cmd, "");
        },
        other => panic!("unexpected: {:?}", other),
    }
}

#[test]
fn replies_are_sorted_correctly() {
    assert!(client::ack_reply(&Message::Ack).is_ok());
    assert!(client::ack_reply(&Message::Pong).is_err());
    assert!(client::pong_reply(&Message::Pong).is_ok());
    let es = client::history_reply(Message::History(vec![entry(1, 2, "h", "c", "", "s")]))
        .unwrap();
    assert_eq!(es.len(), 1);
    assert!(client::history_reply(Message::Ack).is_err());
}

#[test]
fn daemon_dispatch() {
    let mut h = History::new("a".to_string(), 0);
    let r = handle_request(
        &mut h,
        Message::Store { cmd: "ls".to_string(), session: "s".to_string() },
        100,
        7,
    );
    assert_eq!(r.responses.len(), 1);
    assert!(matches!(r.responses[0], Message::Ack));
    assert_eq!(r.action, Action::Stay);
    assert_eq!(h.history().len(), 1);
    assert_eq!(h.history()[0].id, 7);

    let r = handle_request(&mut h, Message::HistoryRequest, 200, 8);
    match &r.responses[0] {
        Message::History(es) => assert_eq!(es.len(), 1),
        other => panic!("unexpected: {:?}", other),
    }

    let r = handle_request(&mut h, Message::Ping, 300, 9);
    assert!(matches!(r.responses[0], Message::Pong));

    let r = handle_request(&mut h, Message::Sync(true), 400, 10);
    assert_eq!(r.action, Action::RunSync(true));
    assert!(r.responses.is_empty());

    let r = handle_request(&mut h, Message::Exit(false), 500, 11);
    assert_eq!(r.action, Action::Quit(false));
    assert!(matches!(r.responses[0], Message::Ack));

    let r = handle_request(&mut h, Message::Rebuild, 600, 12);
    assert_eq!(r.action, Action::RunRebuild);

    let r = handle_request(
        &mut h,
        Message::Update { id: 999, cmd: "x".to_string(), session: "s".to_string() },
        700,
        13,
    );
    assert_eq!(r.responses.len(), 1);
    assert!(matches!(r.responses[0], Message::ProtocolError(_)));
    assert_eq!(h.history().len(), 1);

    let r = handle_request(&mut h, Message::Pong, 800, 14);
    assert!(matches!(r.responses[0], Message::ProtocolError(_)));
}

#[test]
fn clock_is_clamped_forward() {
    let mut h = History::new("a".to_string(), 1_000);
    h.add(2_000, 1, "x".to_string(), String::new(), "s".to_string());
    // a reading behind the last entry is moved past it
    let t = usable_now(&h, 5).unwrap();
    assert!(t > 2_000);
}

#[test]
fn sync_wait_lands_on_the_grid() {
    let w = next_sync_wait(7_300_000, 30).unwrap();
    assert!(w > 0);
    assert_eq!((7_300_000 + w) % 30_000_000, 0);
    let w2 = next_sync_wait(30_000_000, 30).unwrap();
    assert_eq!(w2, 30_000_000);
}

#[test]
fn config_defaults_and_sync_path() {
    let raw = RawConfig {
        path: None,
        cache_dir: None,
        state_dir: None,
        hostname: None,
        sync_enabled: None,
        sync_url: None,
        sync_ssh_key: None,
        sync_interval_secs: None,
        sync_path: None,
    };
    let cfg = Config::load(
        raw,
        "/cache".to_string(),
        "/state".to_string(),
        "box".to_string(),
    );
    assert!(cfg.sync.enabled);
    assert_eq!(cfg.sync.interval_secs, 30);
    assert_eq!(cfg.sync.path, "sync");
    assert_eq!(cfg.hostname, "box");
    assert_eq!(cfg.sync_path(), "/state/sync");

    let raw2 = RawConfig {
        path: Some("/etc/v.toml".to_string()),
        cache_dir: None,
        state_dir: Some("/s".to_string()),
        hostname: Some("other".to_string()),
        sync_enabled: Some(false),
        sync_url: Some("ssh://example/repo".to_string()),
        sync_ssh_key: None,
        sync_interval_secs: Some(0),
        sync_path: Some("/abs/sync".to_string()),
    };
    let cfg2 = Config::load(
        raw2,
        "/cache".to_string(),
        "/state".to_string(),
        "box".to_string(),
    );
    assert!(!cfg2.sync.enabled);
    assert_eq!(cfg2.sync_path(), "/abs/sync");
    let (kind, path) = get_syncer(&cfg2);
    assert_eq!(kind, SyncerKind::LocalOnly);
    assert_eq!(path, "/abs/sync");
    // enabled but with no remote configured: the local backend
    let (kind1, _) = get_syncer(&cfg);
    assert_eq!(kind1, SyncerKind::LocalOnly);
    let raw3 = RawConfig {
        path: None,
        cache_dir: None,
        state_dir: None,
        hostname: None,
        sync_enabled: Some(true),
        sync_url: Some("ssh://example/repo".to_string()),
        sync_ssh_key: None,
        sync_interval_secs: None,
        sync_path: None,
    };
    let cfg3 = Config::load(
        raw3,
        "/cache".to_string(),
        "/state".to_string(),
        "box".to_string(),
    );
    let (kind3, _) = get_syncer(&cfg3);
    assert_eq!(kind3, SyncerKind::GitBacked);
}

#[test]
fn sync_policy_decisions() {
    assert_eq!(lock_wait_step(false, 0), LockWait::Proceed);
    assert_eq!(lock_wait_step(true, 299), LockWait::Retry);
    assert_eq!(lock_wait_step(true, 300), LockWait::GiveUp);
    assert!(should_commit(true, false));
    assert!(should_commit(false, true));
    assert!(!should_commit(false, false));
    assert!(should_push(1, false));
    assert!(should_push(0, true));
    assert!(!should_push(0, false));
    assert!(push_retry(true, 0));
    assert!(!push_retry(true, 1));
    assert!(!push_retry(false, 0));
    assert_eq!(classify_sync_failure(true, true, true), ErrorKind::SyncAuth);
    assert_eq!(classify_sync_failure(false, true, false), ErrorKind::SyncNetwork);
    assert_eq!(classify_sync_failure(false, false, true), ErrorKind::SyncConflict);
    assert_eq!(classify_sync_failure(false, false, false), ErrorKind::Generic);
}

#[test]
fn filter_predicates() {
    let args = FilterArgs {
        session: false,
        after: Some(10),
        before: Some(100),
        host: Some(vec!["a".to_string()]),
        path: None,
        current_path: false,
        min_age: None,
        max_age: None,
        prefix: Some("ec".to_string()),
        search: Some("ho".to_string()),
    };
    let session = Session { id: "s".to_string(), start: None };
    let f = Filter::new(args, 1_000, session, "/cwd".to_string());
    let good = entry(1, 50, "a", "echo", "", "s");
    let too_old = entry(2, 5, "a", "echo", "", "s");
    let wrong_host = entry(3, 50, "b", "echo", "", "s");
    let wrong_prefix = entry(4, 50, "a", "ls", "", "s");
    assert!(f.entry(&good));
    assert!(!f.entry(&too_old));
    assert!(!f.entry(&wrong_host));
    assert!(!f.entry(&wrong_prefix));
    let kept = f.filter_history(&vec![good, too_old, wrong_host, wrong_prefix]);
    assert_eq!(kept.len(), 1);
    assert_eq!(kept[0].id, 1);
}

#[test]
fn session_membership() {
    let s = Session { id: "S1".to_string(), start: Some(100) };
    let before_start = entry(1, 50, "a", "x", "", "other");
    let same_session = entry(2, 200, "a", "x", "", "S1");
    let outside = entry(3, 200, "a", "x", "", "other");
    assert!(s.includes_entry(&before_start));
    assert!(s.includes_entry(&same_session));
    assert!(!s.includes_entry(&outside));
}

#[test]
fn move_and_dedup() {
    let history = vec![
        entry(1, 10, "a", "ls", "", "s"),
        entry(2, 20, "a", "pwd", "", "s"),
        entry(3, 30, "a", "ls", "", "s"),
    ];
    let deduped = client::remove_duplicates(&history);
    assert_eq!(deduped.len(), 2);
    assert_eq!(deduped[0].cmd, "pwd");
    assert_eq!(deduped[1].cmd, "ls");
    let args = client::MoveArgs { with_id: false, no_duplicates: false, distance: -1, start: None };
    let target = client::move_target(&history, &args).unwrap();
    assert_eq!(target.id, 3);
    let args2 = client::MoveArgs {
        with_id: false,
        no_duplicates: false,
        distance: -1,
        start: Some(2),
    };
    let target2 = client::move_target(&history, &args2).unwrap();
    assert_eq!(target2.id, 1);
    let args3 = client::MoveArgs { with_id: false, no_duplicates: false, distance: 1, start: None };
    assert!(client::move_target(&history, &args3).is_none());
    assert_eq!(client::find_by_id(&history, 2).unwrap().cmd, "pwd");
    assert!(client::find_by_id(&history, 9).is_none());
    assert_eq!(client::nth_entry(&history, 1).unwrap().id, 2);
    assert!(client::nth_entry(&history, 5).is_none());
}

#[test]
fn merged_view_collapses_by_id() {
    let all = vec![
        entry(1, 10, "a", "first", "", "s"),
        entry(1, 20, "b", "edited", "", "s"),
        entry(2, 15, "a", "other", "", "s"),
    ];
    let merged = vellum::merge::merge_entries(&all);
    assert_eq!(merged.len(), 2);
    // the survivor keeps the earliest place but the latest command
    assert_eq!(merged[0].id, 1);
    assert_eq!(merged[0].ts, 10);
    assert_eq!(merged[0].cmd, "edited");
    assert_eq!(merged[1].id, 2);
}

#[test]
fn integer_encodings_round_trip() {
    let v = vellum::intbytes::u64_to_be(0x0102_0304_0506_0708);
    assert_eq!(v, vec![1, 2, 3, 4, 5, 6, 7, 8]);
    assert_eq!(vellum::intbytes::u64_from_be(&v, 0), 0x0102_0304_0506_0708);
    let w = vellum::intbytes::u128_to_be(0x00ff_0000_0000_0000_0000_0000_0000_00aa);
    assert_eq!(vellum::intbytes::u128_from_be(&w, 0), 0x00ff_0000_0000_0000_0000_0000_0000_00aa);
    let d = vellum::timeunits::day_of(86_400_000_000);
    assert_eq!(d, 1);
    assert_eq!(vellum::timeunits::day_of(-1), -1);
    assert_eq!(vellum::timeunits::hour_floor(3_700_000_000), 3_600_000_000);
}
