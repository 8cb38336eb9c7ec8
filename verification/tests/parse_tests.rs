use timers::parse::{parse_time_text, TimeBase, TimeExpr};
use timers::{parse_duration, parse_time, Timestamp};

fn ts(secs: i64) -> Timestamp {
    Timestamp { secs }
}

const NOW: i64 = 1620036000; // 2021-05-03T10:00:00Z

#[test]
fn duration_bare_number_is_minutes() {
    assert_eq!(parse_duration("90").unwrap().secs, 90 * 60);
    assert_eq!(parse_duration("0").unwrap().secs, 0);
    assert_eq!(parse_duration("-15").unwrap().secs, -900);
}

#[test]
fn duration_hours_and_minutes() {
    assert_eq!(parse_duration("1:30").unwrap().secs, 5400);
    assert_eq!(parse_duration("0:05").unwrap().secs, 300);
    assert_eq!(parse_duration("-1:0").unwrap().secs, -3600);
    assert_eq!(parse_duration(" 2 : 15 ").unwrap().secs, 2 * 3600 + 15 * 60);
}

#[test]
fn duration_rejects_garbage() {
    assert!(parse_duration("abc").is_none());
    assert!(parse_duration("").is_none());
    assert!(parse_duration("1:xx").is_none());
    assert!(parse_duration("1:2:3").is_none());
    assert!(parse_duration("9999999999999999999999").is_none());
}

#[test]
fn time_plus_offset_is_exact() {
    let r = parse_time("+30", ts(NOW)).expect("offset parses");
    assert_eq!(r.secs, NOW + 1800);
}

#[test]
fn time_minus_offset_is_exact() {
    let r = parse_time("-0:30", ts(NOW)).expect("offset parses");
    assert_eq!(r.secs, NOW - 1800);
}

#[test]
fn time_yesterday_prefix_steps_back_a_day() {
    let r = parse_time("y+0", ts(NOW)).expect("offset parses");
    assert_eq!(r.secs, NOW - 86400);
    let r2 = parse_time("yy-10", ts(NOW)).expect("offset parses");
    assert_eq!(r2.secs, NOW - 2 * 86400 - 600);
}

#[test]
fn time_clock_resolves_to_some_instant() {
    // The exact value depends on the machine's timezone; what is checked
    // is that a plain wall-clock time is accepted.
    assert!(parse_time("10:30", ts(NOW)).is_some());
    assert!(parse_time("10:30:45", ts(NOW)).is_some());
}

#[test]
fn time_datetime_resolves_to_some_instant() {
    assert!(parse_time("2021-05-03 10:00", ts(NOW)).is_some());
    assert!(parse_time("2021-05-03 10:00:30", ts(NOW)).is_some());
}

#[test]
fn time_rejects_garbage() {
    assert!(parse_time("garbage", ts(NOW)).is_none());
    assert!(parse_time("", ts(NOW)).is_none());
    assert!(parse_time("y", ts(NOW)).is_none());
    assert!(parse_time("25:00", ts(NOW)).is_none());
    assert!(parse_time("10:65", ts(NOW)).is_none());
    assert!(parse_time("10:30:61", ts(NOW)).is_none());
    assert!(parse_time("2021-13-01 10:00", ts(NOW)).is_none());
    assert!(parse_time("2021-02-30 10:00", ts(NOW)).is_none());
    assert!(parse_time("+abc", ts(NOW)).is_none());
    assert!(parse_time("2021-05-03  10:00", ts(NOW)).is_none());
}

#[test]
fn time_text_exposes_the_expression() {
    let e = parse_time_text(&b"yy+30".to_vec()).expect("parses");
    assert_eq!(e, TimeExpr { days_back: 2, base: TimeBase::Rel { secs: 1800 } });

    let c = parse_time_text(&b"9:05".to_vec()).expect("parses");
    assert_eq!(c, TimeExpr { days_back: 0, base: TimeBase::Clock { hour: 9, minute: 5, second: 0 } });

    let d = parse_time_text(&b"2021-5-3 9:05:07".to_vec()).expect("parses");
    assert_eq!(
        d,
        TimeExpr {
            days_back: 0,
            base: TimeBase::Date { year: 2021, month: 5, day: 3, hour: 9, minute: 5, second: 7 },
        },
    );
}
