use timers::{decode_task, encode_task, Log, Task, Timestamp};

// 2021-05-03T10:00:00Z; 2021-05-03 is exactly 18750 days past the epoch.
const T10: i64 = 1620036000;
const T11: i64 = 1620039600;

fn ts(secs: i64) -> Timestamp {
    Timestamp { secs }
}

#[test]
fn encode_closed_log_exact_bytes() {
    let task = Task {
        id: 7,
        name: b"work".to_vec(),
        logs: vec![Log { start: ts(T10), end: Some(ts(T11)) }],
    };
    let bytes = encode_task(&task);
    let expected = b"7\nwork\n2021-05-03T10:00:00+00:00 2021-05-03T11:00:00+00:00\n".to_vec();
    assert_eq!(bytes, expected);
}

#[test]
fn encode_open_log_has_no_trailing_newline() {
    let task = Task {
        id: 3,
        name: b"reading".to_vec(),
        logs: vec![Log { start: ts(T10), end: None }],
    };
    let bytes = encode_task(&task);
    let expected = b"3\nreading\n2021-05-03T10:00:00+00:00 ".to_vec();
    assert_eq!(bytes, expected);
}

#[test]
fn decode_known_file_pins_timestamps() {
    let bytes = b"7\nwork\n2021-05-03T10:00:00+00:00 2021-05-03T11:00:00+00:00\n".to_vec();
    let task = decode_task(&bytes).expect("well-formed file must decode");
    assert_eq!(task.id, 7);
    assert_eq!(task.name, b"work".to_vec());
    assert_eq!(task.logs.len(), 1);
    assert_eq!(task.logs[0].start.secs, T10);
    assert_eq!(task.logs[0].end, Some(ts(T11)));
}

#[test]
fn decode_trims_id_and_name() {
    let bytes = b" 12 \n  deep work \n".to_vec();
    let task = decode_task(&bytes).expect("whitespace around id and name is fine");
    assert_eq!(task.id, 12);
    assert_eq!(task.name, b"deep work".to_vec());
    assert_eq!(task.logs.len(), 0);
}

#[test]
fn round_trip_closed_and_open_logs() {
    let task = Task {
        id: 42,
        name: b"verification".to_vec(),
        logs: vec![
            Log { start: ts(T10), end: Some(ts(T11)) },
            Log { start: ts(T11 + 60), end: Some(ts(T11 + 3600)) },
            Log { start: ts(T11 + 7200), end: None },
        ],
    };
    let decoded = decode_task(&encode_task(&task)).expect("round trip must decode");
    assert_eq!(decoded, task);
}

#[test]
fn round_trip_no_logs() {
    let task = Task { id: 1, name: b"empty".to_vec(), logs: vec![] };
    let decoded = decode_task(&encode_task(&task)).expect("round trip must decode");
    assert_eq!(decoded, task);
}

#[test]
fn round_trip_extreme_years() {
    let task = Task {
        id: 9,
        name: b"span".to_vec(),
        logs: vec![Log {
            start: ts(-62167219200),          // 0000-01-01T00:00:00Z
            end: Some(ts(253402300799)),      // 9999-12-31T23:59:59Z
        }],
    };
    let decoded = decode_task(&encode_task(&task)).expect("boundary years round trip");
    assert_eq!(decoded, task);
}

#[test]
fn decode_rejects_missing_name_line() {
    assert!(decode_task(&b"5".to_vec()).is_none());
    assert!(decode_task(&b"5\n".to_vec()).is_none());
}

#[test]
fn decode_rejects_bad_id() {
    assert!(decode_task(&b"x\nname\n".to_vec()).is_none());
    assert!(decode_task(&b"\nname\n".to_vec()).is_none());
    assert!(decode_task(&b"4294967296\nname\n".to_vec()).is_none());
}

#[test]
fn decode_accepts_max_id() {
    let task = decode_task(&b"4294967295\nname\n".to_vec()).expect("u32::MAX is a valid id");
    assert_eq!(task.id, u32::MAX);
}

#[test]
fn decode_rejects_bad_timestamp() {
    let bytes = b"1\nname\nnot-a-date 2021-05-03T11:00:00+00:00\n".to_vec();
    assert!(decode_task(&bytes).is_none());
}

#[test]
fn decode_rejects_open_log_before_end_of_file() {
    // An empty end field on a non-final line cannot be a well-formed file.
    let bytes =
        b"1\nname\n2021-05-03T10:00:00+00:00 \n2021-05-03T11:00:00+00:00 2021-05-03T12:00:00+00:00\n"
            .to_vec();
    assert!(decode_task(&bytes).is_none());
}

#[test]
fn decode_rejects_out_of_range_year() {
    // chrono would accept the extended year, but the format stores four digits.
    let bytes = b"1\nname\n+10000-01-01T00:00:00+00:00 +10000-01-02T00:00:00+00:00\n".to_vec();
    assert!(decode_task(&bytes).is_none());
}
