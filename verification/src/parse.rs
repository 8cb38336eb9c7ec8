use vstd::prelude::*;

verus! {

use crate::codec::{find_byte, find_byte_from, has_byte, subvec, trim_bytes, trim_spec};
use crate::num::{all_digits, dec_val, i64_dec_spec, parse_i64_dec, parse_u32_dec};
use crate::time::{Duration, Timestamp, TS_MIN_SECS, TS_MAX_SECS};
use chrono::TimeZone;
use vstd::string::StringSliceAdditionalSpecFns;
use chrono::Timelike;

pub const COLON: u8 = 58;
pub const DASH: u8 = 45;
pub const PLUS: u8 = 43;
pub const SPACE: u8 = 32;
pub const LETTER_Y: u8 = 121;

/// Seconds denoted by a duration string: `H:M` (signed hours and minutes,
/// each trimmed) or a bare signed integer read as minutes.
pub open spec fn parse_duration_spec(s: Seq<u8>) -> Option<int> {
    let c = find_byte(s, COLON);
    if c >= 0 {
        let h = i64_dec_spec(trim_spec(s.take(c)));
        let m = i64_dec_spec(trim_spec(s.skip(c + 1)));
        if h is Some && m is Some {
            Some(h->Some_0 * 3600 + m->Some_0 * 60)
        } else {
            None
        }
    } else {
        match i64_dec_spec(trim_spec(s)) {
            Some(m) => Some(m * 60),
            None => None,
        }
    }
}

fn parse_duration_bytes(v: &Vec<u8>) -> (r: Option<Duration>)
    ensures
        match r {
            Some(d) => parse_duration_spec(v@) == Some(d.secs as int),
            None => parse_duration_spec(v@) is None,
        },
{
    proof {
        assert(v@.skip(0) =~= v@);
    }
    let n = v.len();
    match find_byte_from(v, 0, COLON) {
        Some(c) => {
            let hp = trim_bytes(&subvec(v, 0, c));
            let mp = trim_bytes(&subvec(v, c + 1, n));
            proof {
                assert(v@.subrange(0, c as int) =~= v@.take(c as int));
                assert(v@.subrange(c + 1, n as int) =~= v@.skip(c + 1));
            }
            let h = match parse_i64_dec(&hp) {
                Some(x) => x,
                None => {
                    return None;
                },
            };
            let m = match parse_i64_dec(&mp) {
                Some(x) => x,
                None => {
                    return None;
                },
            };
            Some(Duration { secs: (h as i128) * 3600 + (m as i128) * 60 })
        },
        None => {
            let t = trim_bytes(v);
            match parse_i64_dec(&t) {
                Some(m) => Some(Duration { secs: (m as i128) * 60 }),
                None => None,
            }
        },
    }
}

/// Parses a human duration: `H:M` or bare minutes.
pub fn parse_duration(raw_duration: &str) -> (r: Option<Duration>)
    ensures
        match r {
            Some(d) => parse_duration_spec(raw_duration.spec_bytes()) == Some(d.secs as int),
            None => parse_duration_spec(raw_duration.spec_bytes()) is None,
        },
{
    let bytes = raw_duration.as_bytes_vec();
    parse_duration_bytes(&bytes)
}

/// A one- or two-digit field.
pub open spec fn field2(s: Seq<u8>) -> Option<int> {
    if 1 <= s.len() <= 2 && all_digits(s) {
        Some(dec_val(s))
    } else {
        None
    }
}

/// A wall-clock time `H:M` or `H:M:S`, fields of one or two digits, in
/// range.
pub open spec fn clock_spec(s: Seq<u8>) -> Option<(int, int, int)> {
    let c1 = find_byte(s, COLON);
    if c1 < 0 {
        None
    } else {
        let hp = s.take(c1);
        let rest = s.skip(c1 + 1);
        let c2 = find_byte(rest, COLON);
        if c2 < 0 {
            if field2(hp) is Some && field2(rest) is Some {
                let h = field2(hp)->Some_0;
                let m = field2(rest)->Some_0;
                if h <= 23 && m <= 59 {
                    Some((h, m, 0))
                } else {
                    None
                }
            } else {
                None
            }
        } else {
            let mp = rest.take(c2);
            let secp = rest.skip(c2 + 1);
            if has_byte(secp, COLON) {
                None
            } else if field2(hp) is Some && field2(mp) is Some && field2(secp) is Some {
                let h = field2(hp)->Some_0;
                let m = field2(mp)->Some_0;
                let sec = field2(secp)->Some_0;
                if h <= 23 && m <= 59 && sec <= 59 {
                    Some((h, m, sec))
                } else {
                    None
                }
            } else {
                None
            }
        }
    }
}

/// A local date and time `YYYY-MM-DD H:M[:S]`: four-digit year, one- or
/// two-digit month and day with basic range checks (exact calendar
/// validity is the resolver's concern), then a wall-clock time.
pub open spec fn date_spec(s: Seq<u8>) -> Option<(int, int, int, int, int, int)> {
    let sp = find_byte(s, SPACE);
    if sp < 0 {
        None
    } else {
        let dp = s.take(sp);
        let tp = s.skip(sp + 1);
        if has_byte(tp, SPACE) {
            None
        } else {
            let d1 = find_byte(dp, DASH);
            if d1 < 0 {
                None
            } else {
                let yp = dp.take(d1);
                let rest = dp.skip(d1 + 1);
                let d2 = find_byte(rest, DASH);
                if d2 < 0 {
                    None
                } else {
                    let mp = rest.take(d2);
                    let ddp = rest.skip(d2 + 1);
                    if yp.len() == 4 && all_digits(yp) && field2(mp) is Some && field2(ddp)
                        is Some && clock_spec(tp) is Some {
                        let mo = field2(mp)->Some_0;
                        let dd = field2(ddp)->Some_0;
                        let t = clock_spec(tp)->Some_0;
                        if 1 <= mo <= 12 && 1 <= dd <= 31 {
                            Some((dec_val(yp), mo, dd, t.0, t.1, t.2))
                        } else {
                            None
                        }
                    } else {
                        None
                    }
                }
            }
        }
    }
}

/// How the tracker reads a moment: possibly after `y` prefixes (one day
/// back each), a wall-clock time, a local date-time, or an offset from
/// now.
#[derive(Clone, Copy, PartialEq, Eq, Structural, Debug)]
pub enum TimeBase {
    Clock { hour: u8, minute: u8, second: u8 },
    Date { year: u32, month: u8, day: u8, hour: u8, minute: u8, second: u8 },
    Rel { secs: i128 },
}

#[derive(Clone, Copy, PartialEq, Eq, Structural, Debug)]
pub struct TimeExpr {
    pub days_back: u64,
    pub base: TimeBase,
}

/// The number of leading `y` bytes.
pub open spec fn y_count(s: Seq<u8>) -> int
    decreases s.len(),
{
    if s.len() > 0 && s[0] == LETTER_Y {
        1 + y_count(s.skip(1))
    } else {
        0
    }
}

proof fn lemma_y_count(s: Seq<u8>, k: int)
    requires
        0 <= k <= s.len(),
        forall|j: int| 0 <= j < k ==> s[j] == LETTER_Y,
        k < s.len() ==> s[k] != LETTER_Y,
    ensures
        y_count(s) == k,
    decreases k,
{
    if k == 0 {
        if s.len() > 0 {
            assert(s[0] != LETTER_Y);
        }
    } else {
        assert(s[0] == LETTER_Y);
        assert forall|j: int| 0 <= j < k - 1 implies s.skip(1)[j] == LETTER_Y by {
            assert(s.skip(1)[j] == s[j + 1]);
        }
        assert(k - 1 < s.skip(1).len() ==> s.skip(1)[k - 1] == s[k]);
        lemma_y_count(s.skip(1), k - 1);
    }
}

/// The grammar of time expressions: `y` prefixes, then either `+`/`-` and
/// a duration, a wall-clock time (no space), or a local date-time.
pub open spec fn parse_time_expr_spec(s: Seq<u8>) -> Option<TimeExpr> {
    let k = y_count(s);
    let body = s.skip(k);
    if body.len() > 0 && (body[0] == PLUS || body[0] == DASH) && parse_duration_spec(
        body.skip(1),
    ) is Some {
        let d = parse_duration_spec(body.skip(1))->Some_0;
        let signed = if body[0] == DASH {
            -d
        } else {
            d
        };
        Some(TimeExpr { days_back: k as u64, base: TimeBase::Rel { secs: signed as i128 } })
    } else if body.len() > 0 && (body[0] == PLUS || body[0] == DASH) {
        None
    } else if !has_byte(body, SPACE) && clock_spec(body) is Some {
        let t = clock_spec(body)->Some_0;
        Some(
            TimeExpr {
                days_back: k as u64,
                base: TimeBase::Clock {
                    hour: t.0 as u8,
                    minute: t.1 as u8,
                    second: t.2 as u8,
                },
            },
        )
    } else if !has_byte(body, SPACE) {
        None
    } else if date_spec(body) is Some {
        let t = date_spec(body)->Some_0;
        Some(
            TimeExpr {
                days_back: k as u64,
                base: TimeBase::Date {
                    year: t.0 as u32,
                    month: t.1 as u8,
                    day: t.2 as u8,
                    hour: t.3 as u8,
                    minute: t.4 as u8,
                    second: t.5 as u8,
                },
            },
        )
    } else {
        None
    }
}

fn parse_clock(v: &Vec<u8>) -> (r: Option<(u8, u8, u8)>)
    ensures
        match r {
            Some(t) => clock_spec(v@) == Some((t.0 as int, t.1 as int, t.2 as int)),
            None => clock_spec(v@) is None,
        },
{
    proof {
        assert(v@.skip(0) =~= v@);
    }
    let n = v.len();
    let c1 = match find_byte_from(v, 0, COLON) {
        Some(i) => i,
        None => {
            return None;
        },
    };
    let hp = subvec(v, 0, c1);
    let rest = subvec(v, c1 + 1, n);
    proof {
        assert(hp@ =~= v@.take(c1 as int));
        assert(rest@ =~= v@.skip(c1 + 1));
        assert(rest@.skip(0) =~= rest@);
    }
    let h = match parse_field2(&hp) {
        Some(x) => x,
        None => {
            return None;
        },
    };
    match find_byte_from(&rest, 0, COLON) {
        None => {
            let m = match parse_field2(&rest) {
                Some(x) => x,
                None => {
                    return None;
                },
            };
            if h <= 23 && m <= 59 {
                Some((h, m, 0))
            } else {
                None
            }
        },
        Some(c2) => {
            let rn = rest.len();
            let mp = subvec(&rest, 0, c2);
            let secp = subvec(&rest, c2 + 1, rn);
            proof {
                assert(mp@ =~= rest@.take(c2 as int));
                assert(secp@ =~= rest@.skip(c2 + 1));
                assert(secp@.skip(0) =~= secp@);
            }
            match find_byte_from(&secp, 0, COLON) {
                Some(_) => {
                    proof {
                        crate::codec::lemma_find_byte_props(secp@, COLON);
                    }
                    None
                },
                None => {
                    proof {
                        crate::codec::lemma_find_byte_props(secp@, COLON);
                    }
                    let m = match parse_field2(&mp) {
                        Some(x) => x,
                        None => {
                            return None;
                        },
                    };
                    let sec = match parse_field2(&secp) {
                        Some(x) => x,
                        None => {
                            return None;
                        },
                    };
                    if h <= 23 && m <= 59 && sec <= 59 {
                        Some((h, m, sec))
                    } else {
                        None
                    }
                },
            }
        },
    }
}

fn parse_field2(v: &Vec<u8>) -> (r: Option<u8>)
    ensures
        match r {
            Some(x) => field2(v@) == Some(x as int) && x <= 99,
            None => field2(v@) is None,
        },
{
    if v.len() < 1 || v.len() > 2 {
        return None;
    }
    proof {
        if all_digits(v@) {
            crate::num::lemma_dec_val_nonneg(v@);
            if v@.len() == 1 {
                assert(v@.drop_last() =~= Seq::<u8>::empty());
                assert(dec_val(v@) == dec_val(v@.drop_last()) * 10 + (v@.last() - 48));
                assert(dec_val(v@.drop_last()) == 0);
                assert(dec_val(v@) <= 9);
            } else {
                assert(all_digits(v@.drop_last())) by {
                    assert(v@.drop_last()[0] == v@[0]);
                }
                assert(v@.drop_last().drop_last() =~= Seq::<u8>::empty());
                assert(dec_val(v@.drop_last().drop_last()) == 0);
                assert(dec_val(v@.drop_last()) <= 9);
                assert(dec_val(v@) == dec_val(v@.drop_last()) * 10 + (v@.last() - 48));
                assert(dec_val(v@) <= 99);
            }
        }
    }
    match parse_u32_dec(v) {
        Some(x) => Some(x as u8),
        None => None,
    }
}

fn parse_date(v: &Vec<u8>) -> (r: Option<(u32, u8, u8, u8, u8, u8)>)
    ensures
        match r {
            Some(t) => date_spec(v@) == Some(
                (
                    t.0 as int,
                    t.1 as int,
                    t.2 as int,
                    t.3 as int,
                    t.4 as int,
                    t.5 as int,
                ),
            ) && t.0 <= 9999,
            None => date_spec(v@) is None,
        },
{
    proof {
        assert(v@.skip(0) =~= v@);
    }
    let n = v.len();
    let sp = match find_byte_from(v, 0, SPACE) {
        Some(i) => i,
        None => {
            return None;
        },
    };
    let dp = subvec(v, 0, sp);
    let tp = subvec(v, sp + 1, n);
    proof {
        assert(dp@ =~= v@.take(sp as int));
        assert(tp@ =~= v@.skip(sp + 1));
        assert(tp@.skip(0) =~= tp@);
        assert(dp@.skip(0) =~= dp@);
    }
    match find_byte_from(&tp, 0, SPACE) {
        Some(_) => {
            proof {
                crate::codec::lemma_find_byte_props(tp@, SPACE);
            }
            return None;
        },
        None => {
            proof {
                crate::codec::lemma_find_byte_props(tp@, SPACE);
            }
        },
    }
    let d1 = match find_byte_from(&dp, 0, DASH) {
        Some(i) => i,
        None => {
            return None;
        },
    };
    let dn = dp.len();
    let yp = subvec(&dp, 0, d1);
    let rest = subvec(&dp, d1 + 1, dn);
    proof {
        assert(yp@ =~= dp@.take(d1 as int));
        assert(rest@ =~= dp@.skip(d1 + 1));
        assert(rest@.skip(0) =~= rest@);
    }
    let d2 = match find_byte_from(&rest, 0, DASH) {
        Some(i) => i,
        None => {
            return None;
        },
    };
    let rn = rest.len();
    let mp = subvec(&rest, 0, d2);
    let ddp = subvec(&rest, d2 + 1, rn);
    proof {
        assert(mp@ =~= rest@.take(d2 as int));
        assert(ddp@ =~= rest@.skip(d2 + 1));
    }
    if yp.len() != 4 {
        return None;
    }
    proof {
        if all_digits(yp@) {
            crate::num::lemma_dec_val_nonneg(yp@);
            lemma_dec_val_len4_bound(yp@);
        }
    }
    let year = match parse_u32_dec(&yp) {
        Some(x) => x,
        None => {
            return None;
        },
    };
    let mo = match parse_field2(&mp) {
        Some(x) => x,
        None => {
            return None;
        },
    };
    let dd = match parse_field2(&ddp) {
        Some(x) => x,
        None => {
            return None;
        },
    };
    let clock = match parse_clock(&tp) {
        Some(t) => t,
        None => {
            return None;
        },
    };
    if 1 <= mo && mo <= 12 && 1 <= dd && dd <= 31 {
        Some((year, mo, dd, clock.0, clock.1, clock.2))
    } else {
        None
    }
}

proof fn lemma_dec_val_len4_bound(s: Seq<u8>)
    requires
        s.len() == 4,
        all_digits(s),
    ensures
        dec_val(s) <= 9999,
{
    let s3 = s.drop_last();
    let s2 = s3.drop_last();
    let s1 = s2.drop_last();
    assert(s1.drop_last() =~= Seq::<u8>::empty());
    assert(dec_val(s1.drop_last()) == 0);
    assert(dec_val(s1) <= 9);
    assert(dec_val(s2) <= 99);
    assert(dec_val(s3) <= 999);
    assert(dec_val(s) == dec_val(s3) * 10 + (s.last() - 48));
}

/// Reads a time expression from text, without resolving it against a
/// clock or timezone.
pub fn parse_time_text(v: &Vec<u8>) -> (r: Option<TimeExpr>)
    ensures
        r == parse_time_expr_spec(v@),
{
    let mut k: usize = 0;
    while k < v.len() && v[k] == LETTER_Y
        invariant
            0 <= k <= v@.len(),
            forall|j: int| 0 <= j < k ==> v@[j] == LETTER_Y,
        decreases v@.len() - k,
    {
        k = k + 1;
    }
    proof {
        lemma_y_count(v@, k as int);
    }
    let n = v.len();
    let body = subvec(v, k, n);
    proof {
        assert(body@ =~= v@.skip(k as int));
        assert(body@.skip(0) =~= body@);
    }
    let bn = body.len();
    if bn > 0 && (body[0] == PLUS || body[0] == DASH) {
        let neg = body[0] == DASH;
        let dpart = subvec(&body, 1, bn);
        proof {
            assert(dpart@ =~= body@.skip(1));
        }
        match parse_duration_bytes(&dpart) {
            Some(d) => {
                let secs: i128 = if neg {
                    -d.secs
                } else {
                    d.secs
                };
                proof {
                    lemma_duration_secs_bound(dpart@);
                }
                Some(TimeExpr { days_back: k as u64, base: TimeBase::Rel { secs } })
            },
            None => None,
        }
    } else {
        match find_byte_from(&body, 0, SPACE) {
            None => {
                proof {
                    crate::codec::lemma_find_byte_props(body@, SPACE);
                }
                match parse_clock(&body) {
                    Some(t) => Some(
                        TimeExpr {
                            days_back: k as u64,
                            base: TimeBase::Clock { hour: t.0, minute: t.1, second: t.2 },
                        },
                    ),
                    None => None,
                }
            },
            Some(_) => {
                proof {
                    crate::codec::lemma_find_byte_props(body@, SPACE);
                }
                match parse_date(&body) {
                    Some(t) => Some(
                        TimeExpr {
                            days_back: k as u64,
                            base: TimeBase::Date {
                                year: t.0,
                                month: t.1,
                                day: t.2,
                                hour: t.3,
                                minute: t.4,
                                second: t.5,
                            },
                        },
                    ),
                    None => None,
                }
            },
        }
    }
}

/// Any parsed duration is far inside `i128`, so negation cannot overflow.
proof fn lemma_duration_secs_bound(s: Seq<u8>)
    ensures
        parse_duration_spec(s) matches Some(d) ==> -0x1_0000_0000_0000_0000_0000i128 < d
            < 0x1_0000_0000_0000_0000_0000i128,
{
}

/// Relies on chrono's `Local::now` with the wall-clock fields substituted
/// (`with_hour` and friends): today's date in the machine's local
/// timezone, at the given time, as UTC epoch seconds.  The result depends
/// on the clock and timezone, so nothing is promised about it.
#[verifier::external_body]
fn local_clock_secs(hour: u8, minute: u8, second: u8) -> (r: Option<i64>)
    requires
        hour < 24,
        minute < 60,
        second < 60,
{
    let now = chrono::Local::now();
    now.with_nanosecond(0)
        .and_then(|d| d.with_second(second as u32))
        .and_then(|d| d.with_minute(minute as u32))
        .and_then(|d| d.with_hour(hour as u32))
        .map(|d| d.with_timezone(&chrono::Utc).timestamp())
}

/// Relies on chrono's `NaiveDate::from_ymd_opt`, `and_hms_opt` and
/// `Local.from_local_datetime`: the given local calendar moment as UTC
/// epoch seconds, `None` for invalid dates and for ambiguous or skipped
/// local times.  The result depends on the timezone, so nothing is
/// promised about it.
#[verifier::external_body]
fn local_datetime_secs(year: u32, month: u8, day: u8, hour: u8, minute: u8, second: u8) -> (r:
    Option<i64>)
    requires
        year <= 9999,
        hour < 24,
        minute < 60,
        second < 60,
{
    chrono::NaiveDate::from_ymd_opt(year as i32, month as u32, day as u32)
        .and_then(|d| d.and_hms_opt(hour as u32, minute as u32, second as u32))
        .and_then(|ndt| chrono::Local.from_local_datetime(&ndt).single())
        .map(|d| d.with_timezone(&chrono::Utc).timestamp())
}

/// Turns a parsed expression into an instant.  Offsets from `now` resolve
/// exactly; wall-clock and date forms go through the machine's local
/// timezone, so only well-formedness is stated for them.  Each `y` prefix
/// steps one whole day (86400 seconds) back from the resolved instant.
pub fn resolve_time_expr(e: &TimeExpr, now: Timestamp) -> (r: Option<Timestamp>)
    requires
        now.wf(),
    ensures
        (match e.base {
            TimeBase::Rel { secs } => {
                let target = now.secs + secs - 86400 * (e.days_back as int);
                &&& (r matches Some(t) ==> t.wf() && t.secs == target)
                &&& (r is None <==> !crate::codec::ts_in_range(target))
            },
            TimeBase::Clock { hour, minute, second } => {
                &&& (r matches Some(t) ==> t.wf())
                &&& (!(hour < 24 && minute < 60 && second < 60) ==> r is None)
            },
            TimeBase::Date { year, month, day, hour, minute, second } => {
                &&& (r matches Some(t) ==> t.wf())
                &&& (!(year <= 9999 && hour < 24 && minute < 60 && second < 60) ==> r is None)
            },
        }),
{
    match e.base {
        TimeBase::Rel { secs } => {
            let big: i128 = 0x10_0000_0000_0000_0000_0000_0000;
            if secs > big || secs < -big {
                return None;
            }
            let target: i128 = (now.secs as i128) + secs - 86400 * (e.days_back as i128);
            if (TS_MIN_SECS as i128) <= target && target <= (TS_MAX_SECS as i128) {
                Some(Timestamp { secs: target as i64 })
            } else {
                None
            }
        },
        TimeBase::Clock { hour, minute, second } => {
            if !(hour < 24 && minute < 60 && second < 60) {
                return None;
            }
            match local_clock_secs(hour, minute, second) {
                Some(secs) => shift_days_back(secs, e.days_back),
                None => None,
            }
        },
        TimeBase::Date { year, month, day, hour, minute, second } => {
            if !(year <= 9999 && hour < 24 && minute < 60 && second < 60) {
                return None;
            }
            match local_datetime_secs(year, month, day, hour, minute, second) {
                Some(secs) => shift_days_back(secs, e.days_back),
                None => None,
            }
        },
    }
}

fn shift_days_back(secs: i64, days_back: u64) -> (r: Option<Timestamp>)
    ensures
        r matches Some(t) ==> t.wf() && t.secs == secs - 86400 * (days_back as int),
        r is None <==> !crate::codec::ts_in_range(secs - 86400 * (days_back as int)),
{
    let shifted: i128 = (secs as i128) - 86400 * (days_back as i128);
    if (TS_MIN_SECS as i128) <= shifted && shifted <= (TS_MAX_SECS as i128) {
        Some(Timestamp { secs: shifted as i64 })
    } else {
        None
    }
}

/// Parses a moment of time as the tracker's users write one: `y` prefixes
/// for days back, `+`/`-` with a duration for an offset from `now`, a
/// wall-clock time today, or a full local date-time.
pub fn parse_time(raw_time: &str, now: Timestamp) -> (r: Option<Timestamp>)
    requires
        now.wf(),
    ensures
        parse_time_expr_spec(raw_time.spec_bytes()) is None ==> r is None,
        (parse_time_expr_spec(raw_time.spec_bytes()) matches Some(e) ==> (match e.base {
            TimeBase::Rel { secs } => {
                let target = now.secs + secs - 86400 * (e.days_back as int);
                &&& (r matches Some(t) ==> t.wf() && t.secs == target)
                &&& (r is None <==> !crate::codec::ts_in_range(target))
            },
            TimeBase::Clock { hour, minute, second } => {
                &&& (r matches Some(t) ==> t.wf())
                &&& (!(hour < 24 && minute < 60 && second < 60) ==> r is None)
            },
            TimeBase::Date { year, month, day, hour, minute, second } => {
                &&& (r matches Some(t) ==> t.wf())
                &&& (!(year <= 9999 && hour < 24 && minute < 60 && second < 60) ==> r is None)
            },
        })),
{
    let bytes = raw_time.as_bytes_vec();
    match parse_time_text(&bytes) {
        Some(e) => resolve_time_expr(&e, now),
        None => None,
    }
}

} // verus!
