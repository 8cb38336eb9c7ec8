use timers::{encode_task, Error, Log, Repo, Task, TaskStatus, Timestamp};

fn ts(secs: i64) -> Timestamp {
    Timestamp { secs }
}

fn closed(a: i64, b: i64) -> Log {
    Log { start: ts(a), end: Some(ts(b)) }
}

fn open(a: i64) -> Log {
    Log { start: ts(a), end: None }
}

fn empty_repo() -> Repo {
    Repo::from_files(&vec![]).expect("empty listing decodes")
}

fn file_for(id: u32, name: &[u8], logs: Vec<Log>) -> Vec<u8> {
    encode_task(&Task { id, name: name.to_vec(), logs })
}

#[test]
fn from_files_decodes_every_file() {
    let files = vec![
        file_for(1, b"alpha", vec![closed(0, 60)]),
        file_for(2, b"beta", vec![]),
    ];
    let repo = Repo::from_files(&files).expect("both files are well formed");
    let tasks = repo.list_tasks();
    assert_eq!(tasks.len(), 2);
    assert_eq!(tasks[0].id, 1);
    assert_eq!(tasks[0].name, b"alpha".to_vec());
    assert_eq!(tasks[1].id, 2);
}

#[test]
fn from_files_rejects_corrupt_file() {
    let files = vec![file_for(1, b"alpha", vec![]), b"not a task".to_vec()];
    match Repo::from_files(&files) {
        Err(Error::Value(_)) => {},
        other => panic!("expected a value error, got {:?}", other.is_ok()),
    }
}

#[test]
fn from_files_rejects_duplicate_ids() {
    let files = vec![file_for(4, b"alpha", vec![]), file_for(4, b"beta", vec![])];
    match Repo::from_files(&files) {
        Err(Error::Value(_)) => {},
        other => panic!("expected a value error, got {:?}", other.is_ok()),
    }
}

#[test]
fn create_task_allocates_sequential_ids() {
    let mut repo = empty_repo();
    let a = repo.create_task(&b"one".to_vec());
    let b = repo.create_task(&b"two".to_vec());
    let c = repo.create_task(&b"three".to_vec());
    assert_eq!((a.id, b.id, c.id), (1, 2, 3));
    assert_eq!(a.logs.len(), 0);
    assert_eq!(a.name, b"one".to_vec());
}

#[test]
fn create_task_never_reuses_removed_id() {
    // A repository whose directory holds files 1 and 3 (2 was removed
    // externally): the next id continues past the maximum, it never
    // fills the gap.
    let files = vec![file_for(1, b"one", vec![]), file_for(3, b"three", vec![])];
    let mut repo = Repo::from_files(&files).expect("well formed");
    let t = repo.create_task(&b"four".to_vec());
    assert_eq!(t.id, 4);
}

#[test]
fn get_task_finds_by_id() {
    let files = vec![file_for(1, b"one", vec![]), file_for(9, b"nine", vec![closed(5, 10)])];
    let repo = Repo::from_files(&files).expect("well formed");
    let t = repo.get_task(9).expect("id 9 exists");
    assert_eq!(t.name, b"nine".to_vec());
    assert_eq!(t.logs.len(), 1);
    match repo.get_task(2) {
        Err(Error::Value(_)) => {},
        _ => panic!("missing id must be a value error"),
    }
}

#[test]
fn log_task_appends_open_log() {
    let repo = empty_repo();
    let mut task = Task { id: 1, name: b"t".to_vec(), logs: vec![closed(0, 50)] };
    repo.log_task(&mut task, ts(100));
    assert_eq!(task.logs.len(), 2);
    assert_eq!(task.logs[1], open(100));
    assert_eq!(task.status(), TaskStatus::Logging());
}

#[test]
fn stop_task_closes_last_log() {
    let repo = empty_repo();
    let mut task = Task { id: 1, name: b"t".to_vec(), logs: vec![open(100)] };
    repo.stop_task(&mut task, ts(160)).expect("open log can stop");
    assert_eq!(task.logs[0], closed(100, 160));
    assert_eq!(task.status(), TaskStatus::Stopped());
}

#[test]
fn stop_task_fails_without_logs() {
    let repo = empty_repo();
    let mut task = Task { id: 1, name: b"t".to_vec(), logs: vec![] };
    match repo.stop_task(&mut task, ts(160)) {
        Err(Error::Value(_)) => {},
        _ => panic!("stopping a task without logs must be a value error"),
    }
}

#[test]
fn stop_task_fails_when_last_log_closed() {
    let repo = empty_repo();
    let mut task = Task { id: 1, name: b"t".to_vec(), logs: vec![closed(0, 50)] };
    match repo.stop_task(&mut task, ts(160)) {
        Err(Error::Value(_)) => {},
        _ => panic!("stopping a stopped task must be a value error"),
    }
    assert_eq!(task.logs, vec![closed(0, 50)]);
}

#[test]
fn repository_does_not_enforce_single_active_log() {
    // The single-active-log rule belongs to the orchestration layer: the
    // repository happily opens a second log while another task is
    // logging.  This documents the limitation instead of hiding it.
    let files = vec![
        file_for(1, b"first", vec![open(100)]),
        file_for(2, b"second", vec![]),
    ];
    let mut repo = Repo::from_files(&files).expect("well formed");
    let second = timers::log_task_at(&mut repo, 2, ts(200)).expect("no global check stops this");
    assert_eq!(second.status(), TaskStatus::Logging());
    let tasks = repo.list_tasks();
    assert_eq!(tasks[0].status(), TaskStatus::Logging());
    assert_eq!(tasks[1].status(), TaskStatus::Logging());
}

#[test]
fn log_task_at_records_in_snapshot() {
    let files = vec![file_for(1, b"first", vec![closed(0, 10)])];
    let mut repo = Repo::from_files(&files).expect("well formed");
    let t = timers::log_task_at(&mut repo, 1, ts(50)).expect("id exists");
    assert_eq!(t.logs.len(), 2);
    assert_eq!(t.logs[1], open(50));
    assert_eq!(repo.list_tasks()[0].logs.len(), 2);
    match timers::log_task_at(&mut repo, 77, ts(50)) {
        Err(Error::Value(_)) => {},
        _ => panic!("missing id must be a value error"),
    }
}

#[test]
fn create_log_task_at_creates_and_starts() {
    let mut repo = empty_repo();
    let t = timers::create_log_task_at(&mut repo, &b"fresh".to_vec(), ts(500))
        .expect("room for a new task");
    assert_eq!(t.id, 1);
    assert_eq!(t.logs, vec![open(500)]);
    assert_eq!(t.status(), TaskStatus::Logging());
}

#[test]
fn value_error_keeps_message() {
    let e = timers::ValueError::new("something went wrong");
    assert_eq!(e.message(), "something went wrong");
}

#[test]
fn error_carries_both_kinds() {
    let io = Error::Io(std::io::Error::new(std::io::ErrorKind::NotFound, "gone"));
    match io {
        Error::Io(_) => {},
        Error::Value(_) => panic!("constructed an io error"),
    }
    let val = Error::Value(timers::ValueError::new("rule broken"));
    match val {
        Error::Value(v) => assert_eq!(v.message(), "rule broken"),
        Error::Io(_) => panic!("constructed a value error"),
    }
}

#[test]
fn total_log_count_counts_all() {
    let files = vec![
        file_for(1, b"a", vec![closed(0, 1), closed(2, 3)]),
        file_for(2, b"b", vec![open(4)]),
    ];
    let repo = Repo::from_files(&files).expect("well formed");
    assert_eq!(timers::total_log_count(&repo), 3);
}

#[test]
fn has_any_open_log_reflects_state() {
    let idle = Repo::from_files(&vec![file_for(1, b"a", vec![closed(0, 10)])]).unwrap();
    assert!(!timers::has_any_open_log(&idle));
    let busy = Repo::from_files(&vec![file_for(1, b"a", vec![open(5)])]).unwrap();
    assert!(timers::has_any_open_log(&busy));
}
