use timers::{Duration, Log, Task, TaskStatus, Timestamp};

fn ts(secs: i64) -> Timestamp {
    Timestamp { secs }
}

fn closed(a: i64, b: i64) -> Log {
    Log { start: ts(a), end: Some(ts(b)) }
}

fn open(a: i64) -> Log {
    Log { start: ts(a), end: None }
}

const H10: i64 = 36000; // 10:00 as seconds of some day
const H11: i64 = 39600;
const H11_30: i64 = 41400;
const H12: i64 = 43200;

#[test]
fn status_logging_iff_last_log_open() {
    let stopped = Task { id: 1, name: b"a".to_vec(), logs: vec![closed(0, 10)] };
    assert_eq!(stopped.status(), TaskStatus::Stopped());
    assert_eq!(stopped.status_text(), "stopped");

    let logging = Task { id: 2, name: b"b".to_vec(), logs: vec![closed(0, 10), open(20)] };
    assert_eq!(logging.status(), TaskStatus::Logging());
    assert_eq!(logging.status_text(), "logging");

    let empty = Task { id: 3, name: b"c".to_vec(), logs: vec![] };
    assert_eq!(empty.status(), TaskStatus::Stopped());
}

#[test]
fn closed_log_duration_is_end_minus_start() {
    let now = ts(1_000_000);
    for n in [0i64, 1, 60, 86400, 123456] {
        let lg = closed(5000, 5000 + n);
        assert_eq!(lg.duration(now).secs, n as i128);
    }
}

#[test]
fn open_log_duration_measured_to_now() {
    let lg = open(1000);
    assert_eq!(lg.duration(ts(4600)).secs, 3600);
}

#[test]
fn duration_between_full_containment() {
    let now = ts(100_000);
    let lg = closed(H10, H11);
    assert_eq!(lg.duration_between(ts(0), ts(H12), now).secs, 3600);
}

#[test]
fn duration_between_clamps_to_zero_on_disjoint_window() {
    // Log 10:00-11:00 against window 11:30-12:00: the partial-overlap
    // branch applies and floors at zero instead of going negative.
    let now = ts(100_000);
    let lg = closed(H10, H11);
    assert_eq!(lg.duration_between(ts(H11_30), ts(H12), now).secs, 0);
}

#[test]
fn duration_between_window_cuts_tail() {
    let now = ts(100_000);
    let lg = closed(H10, H12);
    // window starts inside the log, log ends inside the window
    assert_eq!(lg.duration_between(ts(H11), ts(H12), now).secs, 3600);
    // window ends inside the log
    assert_eq!(lg.duration_between(ts(H10 - 100), ts(H11), now).secs, 3600);
}

#[test]
fn duration_between_log_contains_window() {
    let now = ts(100_000);
    let lg = closed(H10, H12);
    // the documented degenerate case: the window length comes back
    assert_eq!(lg.duration_between(ts(H11), ts(H11_30), now).secs, (H11_30 - H11) as i128);
}

#[test]
fn task_duration_sums_logs() {
    let now = ts(10_000);
    let t = Task {
        id: 1,
        name: b"sum".to_vec(),
        logs: vec![closed(0, 100), closed(200, 500), open(9000)],
    };
    assert_eq!(t.duration(now).secs, 100 + 300 + 1000);
}

#[test]
fn task_duration_between_sums_overlaps() {
    let now = ts(100_000);
    let t = Task {
        id: 1,
        name: b"sum".to_vec(),
        logs: vec![closed(H10, H11), closed(H11_30, H12)],
    };
    // window 10:30-11:45
    let s = ts(H10 + 1800);
    let e = ts(H11_30 + 900);
    assert_eq!(t.duration_between(s, e, now).secs, 1800 + 900);
}

#[test]
fn duplicate_is_equal() {
    let t = Task { id: 5, name: b"copy".to_vec(), logs: vec![closed(1, 2), open(3)] };
    assert_eq!(t.duplicate(), t);
}

#[test]
fn format_duration_matches_policy() {
    assert_eq!(timers::format_duration(Duration { secs: 90 * 60 + 5 }), "1h 30m 5s");
    assert_eq!(timers::format_duration(Duration { secs: 25 * 3600 }), "1d 1h 0m 0s");
    assert_eq!(timers::format_duration(Duration { secs: 45 }), "45s");
    assert_eq!(timers::format_duration(Duration { secs: 0 }), "0s");
    assert_eq!(timers::format_duration(Duration { secs: 60 }), "1m 0s");
    assert_eq!(timers::format_duration(Duration { secs: 3600 }), "1h 0m 0s");
    assert_eq!(timers::format_duration(Duration { secs: 2 * 86400 + 3 * 3600 + 4 * 60 + 5 }), "2d 3h 4m 5s");
}

#[test]
fn format_duration_hours_keeps_total_hours() {
    assert_eq!(timers::format_duration_hours(Duration { secs: 26 * 3600 + 600 }), "26h 10m");
    assert_eq!(timers::format_duration_hours(Duration { secs: 45 }), "45s");
    assert_eq!(timers::format_duration_hours(Duration { secs: 3600 }), "1h 0m");
    assert_eq!(timers::format_duration_hours(Duration { secs: 90 * 60 + 5 }), "1h 30m");
}

#[test]
fn timestamp_new_checks_range() {
    assert_eq!(Timestamp::new(0), Some(ts(0)));
    assert_eq!(Timestamp::new(253402300799), Some(ts(253402300799)));
    assert_eq!(Timestamp::new(253402300800), None);
    assert_eq!(Timestamp::new(-62167219200), Some(ts(-62167219200)));
    assert_eq!(Timestamp::new(-62167219201), None);
}

#[test]
fn format_duration_large_day_count() {
    assert_eq!(
        timers::format_duration(Duration { secs: 365 * 86400 }),
        "365d 0h 0m 0s"
    );
}

#[test]
fn status_text_matches_status() {
    let logging = Task { id: 1, name: b"a".to_vec(), logs: vec![open(5)] };
    assert_eq!(logging.status_text(), "logging");
    let stopped = Task { id: 2, name: b"b".to_vec(), logs: vec![] };
    assert_eq!(stopped.status_text(), "stopped");
}
