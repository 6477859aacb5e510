use hypixel_screentime::BroadcastEvent;
use hypixel_screentime::Fetched;
use hypixel_screentime::Record;
use hypixel_screentime::Storage;
use hypixel_screentime::UserEntry;

fn store_with(name: &str, records: Vec<Record>) -> Storage {
    Storage {
        last_fetch: 0,
        first_fetch: 0,
        users: vec![UserEntry { name: name.to_string(), records }],
    }
}

fn records_of<'a>(s: &'a Storage, name: &str) -> &'a Vec<Record> {
    &s.users.iter().find(|u| u.name == name).unwrap().records
}

#[test]
fn fresh_login_opens_record() {
    let mut s = Storage::default();
    let ev = s.push_beginning("alice".to_string(), 1000, 60_000);
    match ev {
        Some(BroadcastEvent::Online { user, resumed }) => {
            assert_eq!(user, "alice");
            assert!(!resumed);
        }
        _ => panic!("expected an online event"),
    }
    let recs = records_of(&s, "alice");
    assert_eq!(recs.len(), 1);
    assert_eq!(recs[0].beginning, 1000);
    assert_eq!(recs[0].session_begin, 1000);
    assert!(recs[0].end.is_none());
}

#[test]
fn duplicate_login_is_noop() {
    let mut s = Storage::default();
    s.push_beginning("alice".to_string(), 1000, 60_000);
    let ev = s.push_beginning("alice".to_string(), 1000, 60_000);
    assert!(ev.is_none());
    let recs = records_of(&s, "alice");
    assert_eq!(recs.len(), 1);
    assert_eq!(recs[0].beginning, 1000);
    assert!(recs[0].end.is_none());
}

#[test]
fn newer_login_supersedes_open_record() {
    let mut s = Storage::default();
    s.push_beginning("alice".to_string(), 1000, 60_000);
    let ev = s.push_beginning("alice".to_string(), 5000, 60_000);
    match ev {
        Some(BroadcastEvent::Online { resumed, .. }) => assert!(!resumed),
        _ => panic!("expected an online event"),
    }
    let recs = records_of(&s, "alice");
    assert_eq!(recs.len(), 1);
    assert_eq!(recs[0].beginning, 5000);
    assert_eq!(recs[0].session_begin, 5000);
    assert!(recs[0].end.is_none());
}

#[test]
fn login_within_merge_window_reopens() {
    let mut s = store_with(
        "alice",
        vec![Record { beginning: 1000, session_begin: 1000, end: Some(10_000) }],
    );
    let ev = s.push_beginning("alice".to_string(), 40_000, 60_000);
    match ev {
        Some(BroadcastEvent::Online { resumed, .. }) => assert!(resumed),
        _ => panic!("expected a resumed online event"),
    }
    let recs = records_of(&s, "alice");
    assert_eq!(recs.len(), 1);
    assert_eq!(recs[0].beginning, 1000);
    assert_eq!(recs[0].session_begin, 40_000);
    assert!(recs[0].end.is_none());
}

#[test]
fn merge_law_collapses_into_one_record() {
    let mut s = store_with(
        "alice",
        vec![Record { beginning: 1000, session_begin: 1000, end: Some(10_000) }],
    );
    s.push_beginning("alice".to_string(), 40_000, 60_000);
    let ev = s.push_logout("alice".to_string(), 90_000, 40_000);
    match ev {
        Some(BroadcastEvent::Offline { duration_ms, .. }) => assert_eq!(duration_ms, 89_000),
        _ => panic!("expected an offline event"),
    }
    let recs = records_of(&s, "alice");
    assert_eq!(recs.len(), 1);
    assert_eq!(recs[0].beginning, 1000);
    assert_eq!(recs[0].end, Some(90_000));
}

#[test]
fn gap_at_window_makes_two_records() {
    let mut s = store_with(
        "alice",
        vec![Record { beginning: 1000, session_begin: 1000, end: Some(10_000) }],
    );
    s.push_beginning("alice".to_string(), 70_000, 60_000);
    s.push_logout("alice".to_string(), 90_000, 70_000);
    let recs = records_of(&s, "alice");
    assert_eq!(recs.len(), 2);
    assert_eq!(recs[0].beginning, 1000);
    assert_eq!(recs[0].end, Some(10_000));
    assert_eq!(recs[1].beginning, 70_000);
    assert_eq!(recs[1].end, Some(90_000));
}

#[test]
fn logout_before_login_is_noop() {
    let mut s = Storage::default();
    s.push_beginning("alice".to_string(), 1000, 60_000);
    let ev = s.push_logout("alice".to_string(), 500, 1000);
    assert!(ev.is_none());
    let recs = records_of(&s, "alice");
    assert_eq!(recs.len(), 1);
    assert!(recs[0].end.is_none());
}

#[test]
fn logout_before_session_begin_is_noop() {
    let mut s = store_with(
        "alice",
        vec![Record { beginning: 1000, session_begin: 5000, end: None }],
    );
    let ev = s.push_logout("alice".to_string(), 3000, 2000);
    assert!(ev.is_none());
    assert!(records_of(&s, "alice")[0].end.is_none());
}

#[test]
fn logout_on_closed_record_is_noop() {
    let mut s = store_with(
        "alice",
        vec![Record { beginning: 1000, session_begin: 1000, end: Some(2000) }],
    );
    let ev = s.push_logout("alice".to_string(), 3000, 1000);
    assert!(ev.is_none());
    assert_eq!(records_of(&s, "alice")[0].end, Some(2000));
}

#[test]
fn logout_for_unknown_user_is_noop() {
    let mut s = Storage::default();
    let ev = s.push_logout("ghost".to_string(), 3000, 1000);
    assert!(ev.is_none());
    assert!(s.users.is_empty());
}

#[test]
fn expire_drops_old_closed_records() {
    let mut s = store_with(
        "alice",
        vec![
            Record { beginning: 100, session_begin: 100, end: Some(1000) },
            Record { beginning: 2000, session_begin: 2000, end: Some(3000) },
            Record { beginning: 9000, session_begin: 9000, end: None },
        ],
    );
    s.expire(5000);
    let recs = records_of(&s, "alice");
    assert_eq!(recs.len(), 1);
    assert_eq!(recs[0].beginning, 9000);
}

#[test]
fn expire_retains_most_recent_record() {
    let mut s = store_with(
        "alice",
        vec![
            Record { beginning: 100, session_begin: 100, end: Some(1000) },
            Record { beginning: 2000, session_begin: 2000, end: Some(3000) },
        ],
    );
    s.expire(1_000_000);
    let recs = records_of(&s, "alice");
    assert_eq!(recs.len(), 1);
    assert_eq!(recs[0].beginning, 2000);
    assert_eq!(recs[0].end, Some(3000));
}

#[test]
fn expire_leaves_empty_timelines_alone() {
    let mut s = store_with("alice", Vec::new());
    s.expire(5000);
    assert!(records_of(&s, "alice").is_empty());
    assert_eq!(s.users.len(), 1);
}

#[test]
fn expire_is_idempotent() {
    let mut s = store_with(
        "alice",
        vec![
            Record { beginning: 100, session_begin: 100, end: Some(1000) },
            Record { beginning: 2000, session_begin: 2000, end: Some(3000) },
        ],
    );
    s.expire(2500);
    let after_once: Vec<u64> = records_of(&s, "alice").iter().map(|r| r.beginning).collect();
    s.expire(2500);
    let after_twice: Vec<u64> = records_of(&s, "alice").iter().map(|r| r.beginning).collect();
    assert_eq!(after_once, after_twice);
}

#[test]
fn is_online_reports_open_last_record() {
    let mut s = Storage::default();
    assert!(!s.is_online("alice"));
    s.push_beginning("alice".to_string(), 1000, 60_000);
    assert!(s.is_online("alice"));
    s.push_logout("alice".to_string(), 2000, 1000);
    assert!(!s.is_online("alice"));
    assert!(!s.is_online("ghost"));
}

#[test]
fn snapshot_is_a_deep_copy() {
    let mut s = Storage::default();
    s.push_beginning("alice".to_string(), 1000, 60_000);
    let snap = s.snapshot();
    s.push_logout("alice".to_string(), 2000, 1000);
    assert!(snap.users[0].records[0].end.is_none());
    assert_eq!(s.users[0].records[0].end, Some(2000));
    assert_eq!(snap.users[0].name, "alice");
}

#[test]
fn apply_samples_runs_a_whole_cycle() {
    let mut s = Storage::default();
    let samples = vec![
        ("alice".to_string(), Fetched { last_login: 1000, last_logout: 5000 }),
        ("bob".to_string(), Fetched { last_login: 7000, last_logout: 2000 }),
    ];
    let events = s.apply_samples(&samples, 100, 60_000, 50);
    assert_eq!(s.last_fetch, 100);
    assert_eq!(s.first_fetch, 50);
    assert_eq!(events.len(), 3);
    match &events[0] {
        BroadcastEvent::Online { user, resumed } => {
            assert_eq!(user, "alice");
            assert!(!resumed);
        }
        _ => panic!("expected alice online"),
    }
    match &events[1] {
        BroadcastEvent::Offline { user, duration_ms } => {
            assert_eq!(user, "alice");
            assert_eq!(*duration_ms, 4000);
        }
        _ => panic!("expected alice offline"),
    }
    match &events[2] {
        BroadcastEvent::Online { user, resumed } => {
            assert_eq!(user, "bob");
            assert!(!resumed);
        }
        _ => panic!("expected bob online"),
    }
    assert_eq!(records_of(&s, "alice").len(), 1);
    assert_eq!(records_of(&s, "alice")[0].end, Some(5000));
    // bob's logout predates his login, so his record stays open
    assert!(records_of(&s, "bob")[0].end.is_none());
}

#[test]
fn apply_samples_twice_is_idempotent() {
    let mut s = Storage::default();
    let samples = vec![("alice".to_string(), Fetched { last_login: 1000, last_logout: 5000 })];
    s.apply_samples(&samples, 100, 60_000, 50);
    let once: Vec<(u64, u64, Option<u64>)> = records_of(&s, "alice")
        .iter()
        .map(|r| (r.beginning, r.session_begin, r.end))
        .collect();
    let second = s.apply_samples(&samples, 200, 60_000, 50);
    let twice: Vec<(u64, u64, Option<u64>)> = records_of(&s, "alice")
        .iter()
        .map(|r| (r.beginning, r.session_begin, r.end))
        .collect();
    assert_eq!(once, twice);
    assert!(second.is_empty());
}

#[test]
fn first_fetch_never_moves_backwards() {
    let mut s = Storage { last_fetch: 0, first_fetch: 500, users: Vec::new() };
    s.advance_first_fetch(1000);
    assert_eq!(s.first_fetch, 500);
    s.last_fetch = 2000;
    s.advance_first_fetch(1000);
    assert_eq!(s.first_fetch, 1000);
}

#[test]
fn check_wf_accepts_and_rejects() {
    let good = store_with(
        "alice",
        vec![
            Record { beginning: 100, session_begin: 100, end: Some(1000) },
            Record { beginning: 2000, session_begin: 2000, end: None },
        ],
    );
    assert!(good.check_wf());

    let open_not_last = store_with(
        "alice",
        vec![
            Record { beginning: 100, session_begin: 100, end: None },
            Record { beginning: 2000, session_begin: 2000, end: Some(3000) },
        ],
    );
    assert!(!open_not_last.check_wf());

    let inverted = store_with(
        "alice",
        vec![Record { beginning: 100, session_begin: 50, end: None }],
    );
    assert!(!inverted.check_wf());

    let ends_early = store_with(
        "alice",
        vec![Record { beginning: 100, session_begin: 200, end: Some(150) }],
    );
    assert!(!ends_early.check_wf());

    let duplicate_names = Storage {
        last_fetch: 0,
        first_fetch: 0,
        users: vec![
            UserEntry { name: "alice".to_string(), records: Vec::new() },
            UserEntry { name: "alice".to_string(), records: Vec::new() },
        ],
    };
    assert!(!duplicate_names.check_wf());
}

#[test]
fn lookups_distinguish_users() {
    let mut s = Storage::default();
    s.push_beginning("alice".to_string(), 1000, 60_000);
    s.push_beginning("bob".to_string(), 1000, 60_000);
    s.push_logout("bob".to_string(), 2000, 1000);
    assert!(s.is_online("alice"));
    assert!(!s.is_online("bob"));
    assert!(!s.is_online("alic"));
    assert!(!s.is_online("alicee"));
    let bob = records_of(&s, "bob");
    assert_eq!(bob.len(), 1);
    assert_eq!(bob[0].end, Some(2000));
    assert!(records_of(&s, "alice")[0].end.is_none());
}

#[test]
fn default_store_is_empty() {
    let s = Storage::default();
    assert_eq!(s.last_fetch, 0);
    assert_eq!(s.first_fetch, 0);
    assert!(s.users.is_empty());
    assert!(s.check_wf());
}
