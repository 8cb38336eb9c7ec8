use timers::{encode_task, Error, Log, Repo, Task, TaskStatus, Timestamp};

fn ts(secs: i64) -> Timestamp {
    Timestamp { secs }
}

fn closed(a: i64, b: i64) -> Log {
    Log { start: ts(a), end: Some(ts(b)) }
}

fn open(a: i64) -> Log {
    Log { start: ts(a), end: None }
}

fn file_for(id: u32, name: &[u8], logs: Vec<Log>) -> Vec<u8> {
    encode_task(&Task { id, name: name.to_vec(), logs })
}

const H09: i64 = 32400;
const H10: i64 = 36000;
const H11: i64 = 39600;
const H12: i64 = 43200;
const H17: i64 = 61200;
const NOW: i64 = 90000;

#[test]
fn current_log_task_found() {
    let files = vec![
        file_for(1, b"done", vec![closed(0, 10)]),
        file_for(2, b"busy", vec![open(100)]),
    ];
    let repo = Repo::from_files(&files).expect("well formed");
    let t = timers::get_current_log_task(&repo).expect("task 2 is logging");
    assert_eq!(t.id, 2);
    assert_eq!(t.status(), TaskStatus::Logging());
}

#[test]
fn current_log_task_none_when_all_stopped() {
    let files = vec![file_for(1, b"done", vec![closed(0, 10)])];
    let repo = Repo::from_files(&files).expect("well formed");
    assert!(timers::get_current_log_task(&repo).is_none());
}

#[test]
fn stop_current_task_at_closes_and_updates_snapshot() {
    let files = vec![
        file_for(1, b"done", vec![closed(0, 10)]),
        file_for(2, b"busy", vec![open(100)]),
    ];
    let mut repo = Repo::from_files(&files).expect("well formed");
    let t = timers::stop_current_task_at(&mut repo, ts(400)).expect("task 2 was logging");
    assert_eq!(t.id, 2);
    assert_eq!(t.logs, vec![closed(100, 400)]);
    assert_eq!(repo.list_tasks()[1].logs, vec![closed(100, 400)]);
    assert!(timers::get_current_log_task(&repo).is_none());
}

#[test]
fn stop_current_task_at_errors_when_idle() {
    let mut repo = Repo::from_files(&vec![]).expect("empty");
    match timers::stop_current_task_at(&mut repo, ts(400)) {
        Err(Error::Value(_)) => {},
        _ => panic!("no logging task must be a value error"),
    }
}

#[test]
fn tasks_between_uses_endpoint_test() {
    let files = vec![
        file_for(1, b"inside", vec![closed(H10 + 60, H11)]),
        file_for(2, b"before", vec![closed(0, 100)]),
        file_for(3, b"spanning", vec![closed(H09, H17)]),
    ];
    let repo = Repo::from_files(&files).expect("well formed");
    let hits = timers::get_all_tasks_between(&repo, ts(H10), ts(H12), ts(NOW));
    // The spanning log crosses the window but neither endpoint falls in
    // it, so the endpoint-based task filter deliberately excludes it.
    assert_eq!(hits.len(), 1);
    assert_eq!(hits[0].id, 1);
}

#[test]
fn tasks_between_matches_on_effective_end() {
    let files = vec![file_for(1, b"tail", vec![closed(0, H10 + 30)])];
    let repo = Repo::from_files(&files).expect("well formed");
    let hits = timers::get_all_tasks_between(&repo, ts(H10), ts(H12), ts(NOW));
    assert_eq!(hits.len(), 1);
}

#[test]
fn logs_between_clips_spanning_log() {
    // A log 09:00-17:00 queried with window 10:00-12:00 yields exactly
    // one pair, clipped to start 10:00 and end 12:00.
    let files = vec![file_for(1, b"span", vec![closed(H09, H17)])];
    let repo = Repo::from_files(&files).expect("well formed");
    let pairs = timers::get_all_logs_between(&repo, ts(H10), ts(H12), ts(NOW));
    assert_eq!(pairs.len(), 1);
    assert_eq!(pairs[0].0.id, 1);
    assert_eq!(pairs[0].1.start, ts(H10));
    assert_eq!(pairs[0].1.end, Some(ts(H12)));
}

#[test]
fn logs_between_sorts_by_start() {
    let files = vec![
        file_for(1, b"late", vec![closed(H11, H11 + 600)]),
        file_for(2, b"early", vec![closed(H10, H10 + 600)]),
    ];
    let repo = Repo::from_files(&files).expect("well formed");
    let pairs = timers::get_all_logs_between(&repo, ts(H09), ts(H12), ts(NOW));
    assert_eq!(pairs.len(), 2);
    assert_eq!(pairs[0].1.start, ts(H10));
    assert_eq!(pairs[0].0.id, 2);
    assert_eq!(pairs[1].1.start, ts(H11));
    assert_eq!(pairs[1].0.id, 1);
}

#[test]
fn logs_between_drops_disjoint_logs() {
    let files = vec![file_for(1, b"out", vec![closed(0, 100), closed(H10, H11)])];
    let repo = Repo::from_files(&files).expect("well formed");
    let pairs = timers::get_all_logs_between(&repo, ts(H09), ts(H12), ts(NOW));
    assert_eq!(pairs.len(), 1);
    assert_eq!(pairs[0].1.start, ts(H10));
    assert_eq!(pairs[0].1.end, Some(ts(H11)));
}

#[test]
fn logs_between_closes_open_log_past_window() {
    let files = vec![file_for(1, b"running", vec![open(H10)])];
    let repo = Repo::from_files(&files).expect("well formed");
    // now is far past the window end, so the returned pair is closed at
    // the window end.
    let pairs = timers::get_all_logs_between(&repo, ts(H09), ts(H12), ts(NOW));
    assert_eq!(pairs.len(), 1);
    assert_eq!(pairs[0].1.start, ts(H10));
    assert_eq!(pairs[0].1.end, Some(ts(H12)));
}

#[test]
fn total_duration_sums_over_all_tasks() {
    let files = vec![
        file_for(1, b"a", vec![closed(H10, H11)]),
        file_for(2, b"b", vec![closed(H11, H11 + 1800)]),
    ];
    let repo = Repo::from_files(&files).expect("well formed");
    let d = timers::get_total_duration(&repo, ts(H10), ts(H12), ts(NOW));
    assert_eq!(d.secs, 3600 + 1800);
}

#[test]
fn find_start_takes_earliest_first_log() {
    let tasks = vec![
        Task { id: 1, name: b"a".to_vec(), logs: vec![closed(500, 600)] },
        Task { id: 2, name: b"b".to_vec(), logs: vec![closed(100, 200), closed(900, 950)] },
    ];
    let t = timers::find_start(&tasks).expect("non-empty");
    assert_eq!(t, ts(100));
}

#[test]
fn find_end_takes_latest_effective_end() {
    let tasks = vec![
        Task { id: 1, name: b"a".to_vec(), logs: vec![closed(500, 600)] },
        Task { id: 2, name: b"b".to_vec(), logs: vec![closed(100, 200), open(900)] },
    ];
    let t = timers::find_end(&tasks, ts(1234)).expect("non-empty");
    assert_eq!(t, ts(1234));
}

#[test]
fn find_start_and_end_error_on_empty() {
    let tasks: Vec<Task> = vec![];
    assert!(matches!(timers::find_start(&tasks), Err(Error::Value(_))));
    assert!(matches!(timers::find_end(&tasks, ts(0)), Err(Error::Value(_))));
}

#[test]
fn tasks_between_empty_window_matches_nothing() {
    let files = vec![file_for(1, b"a", vec![closed(H10, H11)])];
    let repo = Repo::from_files(&files).expect("well formed");
    let hits = timers::get_all_tasks_between(&repo, ts(0), ts(100), ts(NOW));
    assert!(hits.is_empty());
}

#[test]
fn find_end_with_all_closed_takes_maximum() {
    let tasks = vec![
        Task { id: 1, name: b"a".to_vec(), logs: vec![closed(0, 700)] },
        Task { id: 2, name: b"b".to_vec(), logs: vec![closed(100, 300)] },
    ];
    let t = timers::find_end(&tasks, ts(99999)).expect("non-empty");
    assert_eq!(t, ts(700));
}

#[test]
fn logs_between_no_clip_when_inside_window() {
    let files = vec![file_for(1, b"inside", vec![closed(H10, H11)])];
    let repo = Repo::from_files(&files).expect("well formed");
    let pairs = timers::get_all_logs_between(&repo, ts(H09), ts(H12), ts(NOW));
    assert_eq!(pairs.len(), 1);
    assert_eq!(pairs[0].1.start, ts(H10));
    assert_eq!(pairs[0].1.end, Some(ts(H11)));
}
