use hypixel_screentime::Mermaid;
use hypixel_screentime::Record;
use hypixel_screentime::Storage;
use hypixel_screentime::UserEntry;
use hypixel_screentime::duration_hms;
use hypixel_screentime::next_key_index;
use hypixel_screentime::sleep_duration;

const HOUR: u64 = 3_600_000;
const DAY: u64 = 86_400_000;
const WEEK: u64 = 604_800_000;

fn closed(beginning: u64, end: u64) -> Record {
    Record { beginning, session_begin: beginning, end: Some(end) }
}

// The epoch day, 1970-01-01, was a Thursday: weekday index 3.
const THURSDAY: usize = 3;

#[test]
fn one_hour_session_lands_in_hour_zero() {
    let m = Mermaid::build(&vec![closed(0, HOUR)], HOUR);
    assert_eq!(m.timeofday.0[0], 3600);
    for h in 1..24 {
        assert_eq!(m.timeofday.0[h], 0);
    }
    assert_eq!(m.daily.0[THURSDAY], 3600);
    assert_eq!(m.weekly.0[0], 3600);
}

#[test]
fn midnight_crossing_splits_between_hours_and_days() {
    // 23:30:00 on the epoch day until 00:30:00 the next day
    let start = 23 * HOUR + 30 * 60 * 1000;
    let end = DAY + 30 * 60 * 1000;
    let m = Mermaid::build(&vec![closed(start, end)], end);
    assert_eq!(m.timeofday.0[23], 1800);
    assert_eq!(m.timeofday.0[0], 1800);
    for h in 1..23 {
        assert_eq!(m.timeofday.0[h], 0);
    }
    assert_eq!(m.daily.0[THURSDAY], 1800);
    assert_eq!(m.daily.0[THURSDAY + 1], 1800);
}

#[test]
fn hour_crossing_splits_proportionally() {
    // 00:45:00 to 02:15:00: 900 s in hour 0, 3600 s in hour 1, 900 s in hour 2
    let m = Mermaid::build(&vec![closed(45 * 60 * 1000, 2 * HOUR + 15 * 60 * 1000)], DAY);
    assert_eq!(m.timeofday.0[0], 900);
    assert_eq!(m.timeofday.0[1], 3600);
    assert_eq!(m.timeofday.0[2], 900);
    assert_eq!(m.daily.0[THURSDAY], 5400);
}

#[test]
fn full_days_distribute_over_every_hour() {
    let m = Mermaid::build(&vec![closed(0, 3 * DAY)], 3 * DAY);
    for h in 0..24 {
        assert_eq!(m.timeofday.0[h], 3 * 3600);
    }
    assert_eq!(m.daily.0[THURSDAY], 86_400);
    assert_eq!(m.daily.0[THURSDAY + 1], 86_400);
    assert_eq!(m.daily.0[THURSDAY + 2], 86_400);
    assert_eq!(m.daily.0[0], 0);
}

#[test]
fn open_record_counts_until_now() {
    let open = Record { beginning: 0, session_begin: 0, end: None };
    let m = Mermaid::build(&vec![open], HOUR);
    assert_eq!(m.timeofday.0[0], 3600);
    assert_eq!(m.daily.0[THURSDAY], 3600);
}

#[test]
fn malformed_record_contributes_nothing() {
    let m = Mermaid::build(&vec![closed(HOUR, 0)], DAY);
    for h in 0..24 {
        assert_eq!(m.timeofday.0[h], 0);
    }
    for d in 0..7 {
        assert_eq!(m.daily.0[d], 0);
    }
    for w in 0..10 {
        assert_eq!(m.weekly.0[w], 0);
    }
}

#[test]
fn weekly_buckets_count_back_from_now() {
    let now = 10 * WEEK;
    let two_weeks_back = closed(now - 2 * WEEK, now - 2 * WEEK + HOUR);
    let far_back = closed(now - 8 * WEEK, now - 8 * WEEK + HOUR);
    let m = Mermaid::build(&vec![far_back, two_weeks_back], now);
    assert_eq!(m.weekly.0[2], 3600);
    assert_eq!(m.weekly.0[6], 3600);
    assert_eq!(m.weekly.0[0], 0);
    assert_eq!(m.weekly.0[7], 0);
    assert_eq!(m.weekly.0[9], 0);
}

#[test]
fn several_records_accumulate() {
    let m = Mermaid::build(&vec![closed(0, HOUR), closed(2 * HOUR, 3 * HOUR)], DAY);
    assert_eq!(m.timeofday.0[0], 3600);
    assert_eq!(m.timeofday.0[2], 3600);
    assert_eq!(m.daily.0[THURSDAY], 7200);
}

#[test]
fn session_ending_at_midnight_stays_on_its_day() {
    let m = Mermaid::build(&vec![closed(23 * HOUR, DAY)], DAY);
    assert_eq!(m.timeofday.0[23], 3600);
    assert_eq!(m.timeofday.0[0], 0);
    assert_eq!(m.daily.0[THURSDAY], 3600);
    assert_eq!(m.daily.0[THURSDAY + 1], 0);
}

#[test]
fn empty_span_contributes_nothing() {
    let m = Mermaid::build(&vec![closed(HOUR, HOUR)], DAY);
    assert_eq!(m.timeofday.0.iter().sum::<u64>(), 0);
    assert_eq!(m.daily.0.iter().sum::<u64>(), 0);
    assert_eq!(m.weekly.0.iter().sum::<u64>(), 0);
}

#[test]
fn empty_timeline_builds_empty_histograms() {
    let m = Mermaid::build(&Vec::new(), DAY);
    assert_eq!(m.timeofday.0.iter().sum::<u64>(), 0);
    assert_eq!(m.daily.0.iter().sum::<u64>(), 0);
    assert_eq!(m.weekly.0.iter().sum::<u64>(), 0);
}

#[test]
fn init_builds_one_chart_per_user() {
    let storage = Storage {
        last_fetch: 0,
        first_fetch: 0,
        users: vec![
            UserEntry { name: "alice".to_string(), records: vec![closed(0, HOUR)] },
            UserEntry { name: "bob".to_string(), records: Vec::new() },
        ],
    };
    let charts = Mermaid::init(&storage, DAY);
    assert_eq!(charts.len(), 2);
    assert_eq!(charts[0].0, "alice");
    assert_eq!(charts[0].1.timeofday.0[0], 3600);
    assert_eq!(charts[1].0, "bob");
    assert_eq!(charts[1].1.daily.0.iter().sum::<u64>(), 0);
}

#[test]
fn duration_splits_into_hours_minutes_seconds() {
    assert_eq!(duration_hms(3661), (1, 1, 1));
    assert_eq!(duration_hms(0), (0, 0, 0));
    assert_eq!(duration_hms(90_061), (25, 1, 1));
    assert_eq!(duration_hms(59), (0, 0, 59));
}

#[test]
fn scheduler_sleeps_for_the_remaining_interval() {
    assert_eq!(sleep_duration(100, 60, 120), 40);
    assert_eq!(sleep_duration(100, 60, 160), 0);
    assert_eq!(sleep_duration(100, 60, 500), 0);
}

#[test]
fn key_rotation_wraps_around() {
    assert_eq!(next_key_index(0, 3), 1);
    assert_eq!(next_key_index(1, 3), 2);
    assert_eq!(next_key_index(2, 3), 0);
    assert_eq!(next_key_index(0, 1), 0);
}

#[test]
fn default_config_matches_first_start_values() {
    let c = hypixel_screentime::Config::default();
    assert_eq!(c.interval, 60);
    assert_eq!(c.merge, 60);
    assert_eq!(c.expire, 70);
    assert_eq!(c.port, 8080);
    assert!(c.keys.is_empty());
    assert!(c.users.is_empty());
}
