use vstd::prelude::*;

verus! {

use crate::num::{all_digits, dec_digits, dec_val, is_digit, lemma_dec_digits_shape,
    lemma_dec_val_of_digits, parse_u32_dec, push_dec_u128};
use crate::task::{Log, Task, TaskModel, wf_logs};
use crate::time::{Timestamp, TS_MIN_SECS, TS_MAX_SECS};

pub const NL: u8 = 10;
pub const SP: u8 = 32;

pub open spec fn has_byte(s: Seq<u8>, b: u8) -> bool {
    exists|i: int| 0 <= i < s.len() && s[i] == b
}

/// Index of the first occurrence of `b` in `s`, or -1 if there is none.
pub open spec fn find_byte(s: Seq<u8>, b: u8) -> int
    decreases s.len(),
{
    if s.len() == 0 {
        -1
    } else if s[0] == b {
        0
    } else {
        let r = find_byte(s.skip(1), b);
        if r < 0 {
            -1
        } else {
            r + 1
        }
    }
}

pub proof fn lemma_find_byte_props(s: Seq<u8>, b: u8)
    ensures
        find_byte(s, b) >= 0 ==> 0 <= find_byte(s, b) < s.len() && s[find_byte(s, b)] == b
            && (forall|j: int| 0 <= j < find_byte(s, b) ==> s[j] != b),
        find_byte(s, b) < 0 ==> find_byte(s, b) == -1 && !has_byte(s, b),
    decreases s.len(),
{
    if s.len() == 0 {
    } else if s[0] == b {
    } else {
        lemma_find_byte_props(s.skip(1), b);
        let r = find_byte(s.skip(1), b);
        if r >= 0 {
            assert(s[r + 1] == s.skip(1)[r]);
            assert forall|j: int| 0 <= j < r + 1 implies s[j] != b by {
                if j > 0 {
                    assert(s[j] == s.skip(1)[j - 1]);
                }
            }
        } else {
            assert forall|i: int| 0 <= i < s.len() implies s[i] != b by {
                if i > 0 {
                    assert(s[i] == s.skip(1)[i - 1]);
                }
            }
        }
    }
}

pub proof fn lemma_find_byte_first(s: Seq<u8>, b: u8, k: int)
    requires
        0 <= k < s.len(),
        s[k] == b,
        forall|j: int| 0 <= j < k ==> s[j] != b,
    ensures
        find_byte(s, b) == k,
    decreases k,
{
    if k == 0 {
    } else {
        assert(s[0] != b);
        assert(s.skip(1)[k - 1] == s[k]);
        assert forall|j: int| 0 <= j < k - 1 implies s.skip(1)[j] != b by {
            assert(s.skip(1)[j] == s[j + 1]);
        }
        lemma_find_byte_first(s.skip(1), b, k - 1);
    }
}

pub proof fn lemma_find_byte_none(s: Seq<u8>, b: u8)
    requires
        forall|j: int| 0 <= j < s.len() ==> s[j] != b,
    ensures
        find_byte(s, b) == -1,
    decreases s.len(),
{
    if s.len() > 0 {
        assert forall|j: int| 0 <= j < s.skip(1).len() implies s.skip(1)[j] != b by {
            assert(s.skip(1)[j] == s[j + 1]);
        }
        lemma_find_byte_none(s.skip(1), b);
    }
}

/// Scans `v` from `from` for the first occurrence of `b`.
pub fn find_byte_from(v: &Vec<u8>, from: usize, b: u8) -> (r: Option<usize>)
    requires
        from <= v@.len(),
    ensures
        match r {
            Some(idx) => from <= idx < v@.len() && find_byte(v@.skip(from as int), b) == idx - from,
            None => find_byte(v@.skip(from as int), b) == -1,
        },
{
    let mut j: usize = from;
    while j < v.len()
        invariant
            from <= j <= v@.len(),
            forall|k: int| from <= k < j ==> v@[k] != b,
        decreases v@.len() - j,
    {
        if v[j] == b {
            proof {
                assert(v@.skip(from as int)[j - from] == v@[j as int]);
                assert forall|t: int| 0 <= t < j - from implies v@.skip(from as int)[t] != b by {
                    assert(v@.skip(from as int)[t] == v@[t + from]);
                }
                lemma_find_byte_first(v@.skip(from as int), b, j - from);
            }
            return Some(j);
        }
        j = j + 1;
    }
    proof {
        assert forall|t: int| 0 <= t < v@.skip(from as int).len() implies v@.skip(from as int)[t]
            != b by {
            assert(v@.skip(from as int)[t] == v@[t + from]);
        }
        lemma_find_byte_none(v@.skip(from as int), b);
    }
    None
}

/// Copies `v[lo..hi]` into a fresh vector.
pub fn subvec(v: &Vec<u8>, lo: usize, hi: usize) -> (r: Vec<u8>)
    requires
        lo <= hi <= v@.len(),
    ensures
        r@ == v@.subrange(lo as int, hi as int),
{
    let mut out: Vec<u8> = Vec::new();
    let mut j: usize = lo;
    while j < hi
        invariant
            lo <= j <= hi <= v@.len(),
            out@ == v@.subrange(lo as int, j as int),
        decreases hi - j,
    {
        out.push(v[j]);
        proof {
            assert(v@.subrange(lo as int, j + 1) =~= v@.subrange(lo as int, j as int).push(
                v@[j as int],
            ));
        }
        j = j + 1;
    }
    out
}

/// Appends a copy of `src` to `out`.
pub fn append_bytes(out: &mut Vec<u8>, src: &Vec<u8>)
    ensures
        final(out)@ == old(out)@ + src@,
{
    let mut j: usize = 0;
    let ghost prefix = out@;
    while j < src.len()
        invariant
            0 <= j <= src@.len(),
            out@ == prefix + src@.take(j as int),
        decreases src@.len() - j,
    {
        out.push(src[j]);
        proof {
            assert(src@.take(j + 1) =~= src@.take(j as int).push(src@[j as int]));
            assert(prefix + src@.take(j + 1) =~= (prefix + src@.take(j as int)).push(
                src@[j as int],
            ));
        }
        j = j + 1;
    }
    proof {
        assert(src@.take(src@.len() as int) =~= src@);
    }
}

/// ASCII whitespace as the task files may carry it around ids and names.
pub open spec fn is_ws(b: u8) -> bool {
    b == 32 || b == 9 || b == 13
}

pub open spec fn trim_start_spec(s: Seq<u8>) -> Seq<u8>
    decreases s.len(),
{
    if s.len() > 0 && is_ws(s[0]) {
        trim_start_spec(s.skip(1))
    } else {
        s
    }
}

pub open spec fn trim_end_spec(s: Seq<u8>) -> Seq<u8>
    decreases s.len(),
{
    if s.len() > 0 && is_ws(s.last()) {
        trim_end_spec(s.drop_last())
    } else {
        s
    }
}

/// `s` with leading and trailing ASCII whitespace removed.
pub open spec fn trim_spec(s: Seq<u8>) -> Seq<u8> {
    trim_end_spec(trim_start_spec(s))
}

proof fn lemma_trim_start_skip(s: Seq<u8>, lo: int)
    requires
        0 <= lo <= s.len(),
        forall|j: int| 0 <= j < lo ==> is_ws(#[trigger] s[j]),
        lo < s.len() ==> !is_ws(s[lo]),
    ensures
        trim_start_spec(s) == s.skip(lo),
    decreases lo,
{
    if lo == 0 {
        assert(s.skip(0) =~= s);
    } else {
        assert(is_ws(s[0]));
        assert forall|j: int| 0 <= j < lo - 1 implies is_ws(#[trigger] s.skip(1)[j]) by {
            assert(s.skip(1)[j] == s[j + 1]);
        }
        assert(lo - 1 < s.skip(1).len() ==> !is_ws(s.skip(1)[lo - 1]));
        lemma_trim_start_skip(s.skip(1), lo - 1);
        assert(s.skip(1).skip(lo - 1) =~= s.skip(lo));
    }
}

proof fn lemma_trim_end_take(s: Seq<u8>, hi: int)
    requires
        0 <= hi <= s.len(),
        forall|j: int| hi <= j < s.len() ==> is_ws(#[trigger] s[j]),
        hi > 0 ==> !is_ws(s[hi - 1]),
    ensures
        trim_end_spec(s) == s.take(hi),
    decreases s.len() - hi,
{
    if hi == s.len() {
        assert(s.take(hi) =~= s);
    } else {
        assert(is_ws(s.last()));
        assert forall|j: int| hi <= j < s.drop_last().len() implies is_ws(#[trigger] s.drop_last()[j])
            by {
            assert(s.drop_last()[j] == s[j]);
        }
        assert(hi > 0 ==> s.drop_last()[hi - 1] == s[hi - 1]);
        lemma_trim_end_take(s.drop_last(), hi);
        assert(s.drop_last().take(hi) =~= s.take(hi));
    }
}

/// Removes leading and trailing ASCII whitespace.
pub fn trim_bytes(v: &Vec<u8>) -> (r: Vec<u8>)
    ensures
        r@ == trim_spec(v@),
{
    let mut lo: usize = 0;
    while lo < v.len() && (v[lo] == 32 || v[lo] == 9 || v[lo] == 13)
        invariant
            0 <= lo <= v@.len(),
            forall|j: int| 0 <= j < lo ==> is_ws(#[trigger] v@[j]),
        decreases v@.len() - lo,
    {
        lo = lo + 1;
    }
    proof {
        lemma_trim_start_skip(v@, lo as int);
    }
    let mut hi: usize = v.len();
    while hi > lo && (v[hi - 1] == 32 || v[hi - 1] == 9 || v[hi - 1] == 13)
        invariant
            lo <= hi <= v@.len(),
            forall|j: int| hi <= j < v@.len() ==> is_ws(#[trigger] v@[j]),
        decreases hi,
    {
        hi = hi - 1;
    }
    proof {
        let mid = v@.skip(lo as int);
        assert forall|j: int| hi - lo <= j < mid.len() implies is_ws(#[trigger] mid[j]) by {
            assert(mid[j] == v@[j + lo]);
        }
        if hi > lo {
            assert(mid[hi - lo - 1] == v@[hi - 1]);
            assert(!is_ws(v@[hi - 1]));
        }
        lemma_trim_end_take(mid, hi - lo);
        assert(mid.take(hi - lo) =~= v@.subrange(lo as int, hi as int));
    }
    subvec(v, lo, hi)
}

/// The RFC 3339 text chrono renders for the UTC instant with the given epoch
/// seconds, e.g. `2021-05-03T10:00:00+00:00`; a function of the seconds alone.
pub uninterp spec fn rfc3339_of(secs: int) -> Seq<u8>;

/// The epoch seconds chrono reads back from a byte string, `None` where the
/// bytes are not a valid RFC 3339 date-time; a function of the bytes alone.
pub uninterp spec fn rfc3339_parse_of(s: Seq<u8>) -> Option<int>;

/// What the two trusted chrono calls guarantee about one seconds value: the
/// rendered text is non-empty, has no space and no newline, and parses back
/// to the same value.
pub open spec fn rfc3339_facts(secs: int) -> bool {
    &&& rfc3339_of(secs).len() >= 1
    &&& (forall|i: int|
        0 <= i < rfc3339_of(secs).len() ==> #[trigger] rfc3339_of(secs)[i] != NL
            && rfc3339_of(secs)[i] != SP)
    &&& rfc3339_parse_of(rfc3339_of(secs)) == Some(secs)
}

/// Relies on `chrono::DateTime::from_timestamp` and `to_rfc3339`: within the
/// four-digit-year range the rendering succeeds, is determined by the seconds
/// value, uses `T`, digits and punctuation only (so no space or newline), and
/// `parse_from_rfc3339` reads the same instant back.
#[verifier::external_body]
fn rfc3339_bytes(t: Timestamp) -> (r: Vec<u8>)
    requires
        t.wf(),
    ensures
        r@ == rfc3339_of(t.secs as int),
        r@.len() >= 1,
        forall|i: int| 0 <= i < r@.len() ==> #[trigger] r@[i] != NL && r@[i] != SP,
        rfc3339_parse_of(r@) == Some(t.secs as int),
{
    match chrono::DateTime::<chrono::Utc>::from_timestamp(t.secs, 0) {
        Some(dt) => dt.to_rfc3339().into_bytes(),
        None => Vec::new(),
    }
}

/// Relies on `chrono::DateTime::parse_from_rfc3339` (with `timestamp` for
/// the seconds): the outcome is a function of the byte string alone.
#[verifier::external_body]
fn rfc3339_parse(s: &Vec<u8>) -> (r: Option<i64>)
    ensures
        r matches Some(v) ==> rfc3339_parse_of(s@) == Some(v as int),
        r is None ==> rfc3339_parse_of(s@) is None,
{
    std::str::from_utf8(s.as_slice()).ok().and_then(
        |text| chrono::DateTime::parse_from_rfc3339(text).ok(),
    ).map(|dt| dt.timestamp())
}

pub open spec fn ts_in_range(v: int) -> bool {
    TS_MIN_SECS <= v <= TS_MAX_SECS
}

/// A timestamp token denotes an instant when chrono parses it and the
/// instant lies in the supported year range.
pub open spec fn parse_ts_spec(s: Seq<u8>) -> Option<Timestamp> {
    match rfc3339_parse_of(s) {
        Some(v) => if ts_in_range(v) {
            Some(Timestamp { secs: v as i64 })
        } else {
            None
        },
        None => None,
    }
}

fn parse_ts(tok: &Vec<u8>) -> (r: Option<Timestamp>)
    ensures
        match r {
            Some(t) => parse_ts_spec(tok@) == Some(t) && t.wf(),
            None => parse_ts_spec(tok@) is None,
        },
{
    match rfc3339_parse(tok) {
        Some(v) => {
            if TS_MIN_SECS <= v && v <= TS_MAX_SECS {
                Some(Timestamp { secs: v })
            } else {
                None
            }
        },
        None => None,
    }
}

/// A closed log line `<start> <end>`: one space, a non-empty second token
/// with no further space, both tokens valid timestamps.
pub open spec fn parse_closed_line_spec(line: Seq<u8>) -> Option<Log> {
    let sp = find_byte(line, SP);
    if sp < 0 {
        None
    } else {
        let s_tok = line.take(sp);
        let e_tok = line.skip(sp + 1);
        if e_tok.len() == 0 || has_byte(e_tok, SP) {
            None
        } else {
            match (parse_ts_spec(s_tok), parse_ts_spec(e_tok)) {
                (Some(st), Some(en)) => Some(Log { start: st, end: Some(en) }),
                _ => None,
            }
        }
    }
}

/// An open log line `<start> `: the single space is the final byte.
pub open spec fn parse_open_line_spec(line: Seq<u8>) -> Option<Log> {
    let sp = find_byte(line, SP);
    if line.len() < 1 || sp != line.len() - 1 {
        None
    } else {
        match parse_ts_spec(line.take(sp)) {
            Some(st) => Some(Log { start: st, end: None }),
            _ => None,
        }
    }
}

/// The log region of a task file: newline-terminated closed lines, with at
/// most one open line, which ends the file without a newline.  This shape
/// makes an open log necessarily the last one.
pub open spec fn decode_logs_spec(region: Seq<u8>) -> Option<Seq<Log>>
    decreases region.len(),
{
    if region.len() == 0 {
        Some(Seq::<Log>::empty())
    } else {
        let nl = find_byte(region, NL);
        if 0 <= nl < region.len() {
            match parse_closed_line_spec(region.take(nl)) {
                Some(log) => match decode_logs_spec(region.skip(nl + 1)) {
                    Some(rest) => Some(seq![log] + rest),
                    None => None,
                },
                None => None,
            }
        } else {
            match parse_open_line_spec(region) {
                Some(log) => Some(seq![log]),
                None => None,
            }
        }
    }
}

/// A whole task file: the id line, the name line, then the log region.
pub open spec fn decode_task_spec(bytes: Seq<u8>) -> Option<TaskModel> {
    let nl1 = find_byte(bytes, NL);
    if !(0 <= nl1 < bytes.len()) {
        None
    } else {
        let id_tok = trim_spec(bytes.take(nl1));
        let rest1 = bytes.skip(nl1 + 1);
        if !(id_tok.len() >= 1 && all_digits(id_tok) && dec_val(id_tok) <= u32::MAX) {
            None
        } else {
            let nl2 = find_byte(rest1, NL);
            if !(0 <= nl2 < rest1.len()) {
                None
            } else {
                let name = trim_spec(rest1.take(nl2));
                match decode_logs_spec(rest1.skip(nl2 + 1)) {
                    Some(logs) => Some(
                        TaskModel { id: dec_val(id_tok) as u32, name, logs },
                    ),
                    None => None,
                }
            }
        }
    }
}

/// A name the on-disk format can carry faithfully: no newline, and no
/// leading or trailing whitespace that decoding would strip.
pub open spec fn clean_name(name: Seq<u8>) -> bool {
    !has_byte(name, NL) && trim_spec(name) == name
}

/// A task the on-disk format represents exactly.
pub open spec fn encodable(t: TaskModel) -> bool {
    wf_logs(t.logs) && clean_name(t.name)
}

fn parse_closed_line(line: &Vec<u8>) -> (r: Option<Log>)
    ensures
        match r {
            Some(l) => parse_closed_line_spec(line@) == Some(l) && l.wf() && l.end is Some,
            None => parse_closed_line_spec(line@) is None,
        },
{
    proof {
        assert(line@.skip(0) =~= line@);
    }
    let sp = match find_byte_from(line, 0, SP) {
        Some(i) => i,
        None => {
            return None;
        },
    };
    let n = line.len();
    let s_tok = subvec(line, 0, sp);
    let e_tok = subvec(line, sp + 1, n);
    proof {
        assert(s_tok@ =~= line@.take(sp as int));
        assert(e_tok@ =~= line@.skip(sp + 1));
        assert(e_tok@.skip(0) =~= e_tok@);
    }
    if e_tok.len() == 0 {
        return None;
    }
    match find_byte_from(&e_tok, 0, SP) {
        Some(_) => {
            proof {
                lemma_find_byte_props(e_tok@, SP);
            }
            return None;
        },
        None => {
            proof {
                lemma_find_byte_props(e_tok@, SP);
            }
        },
    }
    let st = match parse_ts(&s_tok) {
        Some(t) => t,
        None => {
            return None;
        },
    };
    let en = match parse_ts(&e_tok) {
        Some(t) => t,
        None => {
            return None;
        },
    };
    Some(Log { start: st, end: Some(en) })
}

fn parse_open_line(line: &Vec<u8>) -> (r: Option<Log>)
    ensures
        match r {
            Some(l) => parse_open_line_spec(line@) == Some(l) && l.wf() && l.end is None,
            None => parse_open_line_spec(line@) is None,
        },
{
    if line.len() == 0 {
        return None;
    }
    proof {
        assert(line@.skip(0) =~= line@);
    }
    match find_byte_from(line, 0, SP) {
        Some(sp) => {
            if sp != line.len() - 1 {
                return None;
            }
            let s_tok = subvec(line, 0, sp);
            proof {
                assert(s_tok@ =~= line@.take(sp as int));
            }
            match parse_ts(&s_tok) {
                Some(st) => Some(Log { start: st, end: None }),
                None => None,
            }
        },
        None => None,
    }
}

fn decode_logs(region: &Vec<u8>) -> (r: Option<Vec<Log>>)
    ensures
        match r {
            Some(logs) => decode_logs_spec(region@) == Some(logs@),
            None => decode_logs_spec(region@) is None,
        },
{
    let mut acc: Vec<Log> = Vec::new();
    let mut pos: usize = 0;
    proof {
        assert(region@.skip(0) =~= region@);
    }
    loop
        invariant
            0 <= pos <= region@.len(),
            match decode_logs_spec(region@.skip(pos as int)) {
                Some(rest) => decode_logs_spec(region@) == Some(acc@ + rest),
                None => decode_logs_spec(region@) is None,
            },
        decreases region@.len() - pos,
    {
        if pos == region.len() {
            proof {
                assert(region@.skip(pos as int).len() == 0);
                assert(acc@ + Seq::<Log>::empty() =~= acc@);
            }
            return Some(acc);
        }
        let ghost s = region@.skip(pos as int);
        match find_byte_from(region, pos, NL) {
            Some(nlpos) => {
                let line = subvec(region, pos, nlpos);
                proof {
                    assert(s.len() > 0);
                    assert(find_byte(s, NL) == nlpos - pos);
                    assert(line@ =~= s.take(nlpos - pos));
                    assert(s.skip(nlpos - pos + 1) =~= region@.skip(nlpos + 1));
                }
                match parse_closed_line(&line) {
                    Some(log) => {
                        proof {
                            let ghost rest_r = region@.skip(nlpos + 1);
                            match decode_logs_spec(rest_r) {
                                Some(rest) => {
                                    assert(decode_logs_spec(s) == Some(seq![log] + rest));
                                    assert(acc@ + (seq![log] + rest) =~= (acc@ + seq![log])
                                        + rest);
                                    assert(acc@.push(log) =~= acc@ + seq![log]);
                                },
                                None => {
                                    assert(decode_logs_spec(s) is None);
                                },
                            }
                        }
                        acc.push(log);
                        pos = nlpos + 1;
                    },
                    None => {
                        proof {
                            assert(decode_logs_spec(s) is None);
                        }
                        return None;
                    },
                }
            },
            None => {
                let line = subvec(region, pos, region.len());
                proof {
                    assert(line@ =~= s);
                    assert(find_byte(s, NL) == -1);
                }
                match parse_open_line(&line) {
                    Some(log) => {
                        proof {
                            assert(decode_logs_spec(s) == Some(seq![log]));
                            assert(acc@ + seq![log] =~= acc@.push(log));
                        }
                        acc.push(log);
                        return Some(acc);
                    },
                    None => {
                        proof {
                            assert(decode_logs_spec(s) is None);
                        }
                        return None;
                    },
                }
            },
        }
    }
}

proof fn lemma_decode_logs_wf(region: Seq<u8>)
    ensures
        decode_logs_spec(region) matches Some(logs) ==> wf_logs(logs),
    decreases region.len(),
{
    if region.len() == 0 {
    } else {
        let nl = find_byte(region, NL);
        if 0 <= nl < region.len() {
            lemma_decode_logs_wf(region.skip(nl + 1));
            match parse_closed_line_spec(region.take(nl)) {
                Some(log) => {
                    match decode_logs_spec(region.skip(nl + 1)) {
                        Some(rest) => {
                            let logs = seq![log] + rest;
                            assert(log.wf() && log.end is Some);
                            assert(wf_logs(rest));
                            assert forall|i: int| 0 <= i < logs.len() implies (
                            #[trigger] logs[i]).wf() by {
                                if i > 0 {
                                    assert(logs[i] == rest[i - 1]);
                                }
                            }
                            assert forall|i: int|
                                0 <= i < logs.len() && (#[trigger] logs[i]).end is None implies i
                                == logs.len() - 1 by {
                                if i > 0 {
                                    assert(logs[i] == rest[i - 1]);
                                }
                            }
                        },
                        None => {},
                    }
                },
                None => {},
            }
        } else {
            match parse_open_line_spec(region) {
                Some(log) => {
                    let logs = seq![log];
                    assert(log.wf());
                    assert(wf_logs(logs));
                },
                None => {},
            }
        }
    }
}

proof fn lemma_trim_start_no_byte(s: Seq<u8>, b: u8)
    requires
        !has_byte(s, b),
    ensures
        !has_byte(trim_start_spec(s), b),
    decreases s.len(),
{
    if s.len() > 0 && is_ws(s[0]) {
        assert(!has_byte(s.skip(1), b)) by {
            if has_byte(s.skip(1), b) {
                let i = choose|i: int| 0 <= i < s.skip(1).len() && s.skip(1)[i] == b;
                assert(s[i + 1] == b);
            }
        }
        lemma_trim_start_no_byte(s.skip(1), b);
    }
}

proof fn lemma_trim_end_no_byte(s: Seq<u8>, b: u8)
    requires
        !has_byte(s, b),
    ensures
        !has_byte(trim_end_spec(s), b),
    decreases s.len(),
{
    if s.len() > 0 && is_ws(s.last()) {
        assert(!has_byte(s.drop_last(), b)) by {
            if has_byte(s.drop_last(), b) {
                let i = choose|i: int| 0 <= i < s.drop_last().len() && s.drop_last()[i] == b;
                assert(s[i] == b);
            }
        }
        lemma_trim_end_no_byte(s.drop_last(), b);
    }
}

proof fn lemma_trim_start_head(s: Seq<u8>)
    ensures
        trim_start_spec(s).len() > 0 ==> !is_ws(trim_start_spec(s)[0]),
        trim_start_spec(s).len() <= s.len(),
    decreases s.len(),
{
    if s.len() > 0 && is_ws(s[0]) {
        lemma_trim_start_head(s.skip(1));
    }
}

proof fn lemma_trim_end_last(s: Seq<u8>)
    ensures
        trim_end_spec(s).len() > 0 ==> !is_ws(trim_end_spec(s).last()),
        trim_end_spec(s).len() <= s.len(),
    decreases s.len(),
{
    if s.len() > 0 && is_ws(s.last()) {
        lemma_trim_end_last(s.drop_last());
    }
}

proof fn lemma_trim_end_head(s: Seq<u8>)
    ensures
        trim_end_spec(s).len() > 0 ==> s.len() > 0 && trim_end_spec(s)[0] == s[0],
    decreases s.len(),
{
    if s.len() > 0 && is_ws(s.last()) {
        lemma_trim_end_head(s.drop_last());
        if trim_end_spec(s).len() > 0 {
            assert(s.drop_last()[0] == s[0]);
        }
    }
}

/// Trimming is idempotent, so a decoded name is exactly what re-encoding
/// would write.
proof fn lemma_trim_idempotent(s: Seq<u8>)
    ensures
        trim_spec(trim_spec(s)) == trim_spec(s),
{
    let t1 = trim_start_spec(s);
    let t = trim_end_spec(t1);
    lemma_trim_start_head(s);
    lemma_trim_end_last(t1);
    lemma_trim_end_head(t1);
    if t.len() > 0 {
        assert(t[0] == t1[0]);
        assert(!is_ws(t[0]));
    }
    assert(trim_start_spec(t) == t);
    assert(trim_end_spec(t) == t);
}

/// Decodes one task file.  On the canonical encoding of a well-formed task
/// this recovers the task exactly; any malformed file is rejected.
pub fn decode_task(bytes: &Vec<u8>) -> (r: Option<Task>)
    ensures
        match r {
            Some(t) => decode_task_spec(bytes@) == Some(t@) && t.wf() && encodable(t@),
            None => decode_task_spec(bytes@) is None,
        },
{
    proof {
        assert(bytes@.skip(0) =~= bytes@);
    }
    let nl1 = match find_byte_from(bytes, 0, NL) {
        Some(i) => i,
        None => {
            return None;
        },
    };
    let id_line = subvec(bytes, 0, nl1);
    proof {
        assert(id_line@ =~= bytes@.take(nl1 as int));
    }
    let id_tok = trim_bytes(&id_line);
    let id = match parse_u32_dec(&id_tok) {
        Some(v) => v,
        None => {
            return None;
        },
    };
    let nb = bytes.len();
    let rest1 = subvec(bytes, nl1 + 1, nb);
    proof {
        assert(rest1@ =~= bytes@.skip(nl1 + 1));
        assert(rest1@.skip(0) =~= rest1@);
    }
    let nl2 = match find_byte_from(&rest1, 0, NL) {
        Some(i) => i,
        None => {
            return None;
        },
    };
    let name_line = subvec(&rest1, 0, nl2);
    proof {
        assert(name_line@ =~= rest1@.take(nl2 as int));
    }
    let name = trim_bytes(&name_line);
    let region = subvec(&rest1, nl2 + 1, rest1.len());
    proof {
        assert(region@ =~= rest1@.skip(nl2 + 1));
    }
    let logs = match decode_logs(&region) {
        Some(l) => l,
        None => {
            return None;
        },
    };
    proof {
        lemma_decode_logs_wf(region@);
        lemma_find_byte_props(rest1@, NL);
        assert(!has_byte(name_line@, NL)) by {
            if has_byte(name_line@, NL) {
                let i = choose|i: int|
                    0 <= i < name_line@.len() && name_line@[i] == NL;
                assert(rest1@[i] == NL);
            }
        }
        lemma_trim_start_no_byte(name_line@, NL);
        lemma_trim_end_no_byte(trim_start_spec(name_line@), NL);
        lemma_trim_idempotent(name_line@);
    }
    Some(Task { id, name, logs })
}

/// The bytes one log contributes to the file: `<start> <end>\n` when
/// closed, `<start> ` (no newline) when open.
pub open spec fn encode_log_spec(log: Log) -> Seq<u8> {
    match log.end {
        Some(e) => rfc3339_of(log.start.secs as int) + seq![SP] + rfc3339_of(e.secs as int)
            + seq![NL],
        None => rfc3339_of(log.start.secs as int) + seq![SP],
    }
}

pub open spec fn encode_logs_spec(logs: Seq<Log>) -> Seq<u8>
    decreases logs.len(),
{
    if logs.len() == 0 {
        Seq::<u8>::empty()
    } else {
        encode_log_spec(logs[0]) + encode_logs_spec(logs.skip(1))
    }
}

/// The canonical file for a task: id line, name line, then one line per log.
pub open spec fn encode_task_spec(t: TaskModel) -> Seq<u8> {
    dec_digits(t.id as nat) + seq![NL] + t.name + seq![NL] + encode_logs_spec(t.logs)
}

proof fn lemma_encode_logs_snoc(logs: Seq<Log>, log: Log)
    ensures
        encode_logs_spec(logs.push(log)) == encode_logs_spec(logs) + encode_log_spec(log),
    decreases logs.len(),
{
    if logs.len() == 0 {
        assert(logs.push(log)[0] == log);
        assert(logs.push(log).skip(1) =~= Seq::<Log>::empty());
        assert(encode_logs_spec(logs.push(log).skip(1)) =~= Seq::<u8>::empty());
        assert(encode_logs_spec(logs.push(log)) =~= encode_logs_spec(logs) + encode_log_spec(
            log,
        ));
    } else {
        assert(logs.push(log)[0] == logs[0]);
        assert(logs.push(log).skip(1) =~= logs.skip(1).push(log));
        lemma_encode_logs_snoc(logs.skip(1), log);
        assert(encode_logs_spec(logs.push(log)) =~= encode_logs_spec(logs) + encode_log_spec(
            log,
        ));
    }
}

/// What the format wrapper guarantees about the timestamps of one log.
pub open spec fn log_ts_facts(log: Log) -> bool {
    &&& rfc3339_facts(log.start.secs as int)
    &&& (log.end matches Some(e) ==> rfc3339_facts(e.secs as int))
}

proof fn lemma_trim_clean(s: Seq<u8>)
    requires
        forall|j: int| 0 <= j < s.len() ==> !is_ws(#[trigger] s[j]),
    ensures
        trim_spec(s) == s,
{
    if s.len() > 0 {
        assert(!is_ws(s[0]));
        assert(!is_ws(s.last()));
    }
}

/// Decoding inverts encoding on the log region.
proof fn lemma_decode_encode_logs(logs: Seq<Log>)
    requires
        wf_logs(logs),
        forall|k: int| 0 <= k < logs.len() ==> log_ts_facts(#[trigger] logs[k]),
    ensures
        decode_logs_spec(encode_logs_spec(logs)) == Some(logs),
    decreases logs.len(),
{
    let region = encode_logs_spec(logs);
    if logs.len() == 0 {
        assert(Seq::<Log>::empty() =~= logs);
    } else {
        let l0 = logs[0];
        assert(log_ts_facts(l0));
        assert(l0.wf());
        let s_txt = rfc3339_of(l0.start.secs as int);
        match l0.end {
            Some(e) => {
                let e_txt = rfc3339_of(e.secs as int);
                let rest_enc = encode_logs_spec(logs.skip(1));
                let line = s_txt + seq![SP] + e_txt;
                assert(region =~= line + seq![NL] + rest_enc);
                let n0 = line.len() as int;
                assert(region[n0] == NL);
                assert forall|j: int| 0 <= j < n0 implies region[j] != NL by {
                    if j < s_txt.len() {
                        assert(region[j] == s_txt[j]);
                    } else if j == s_txt.len() {
                        assert(region[j] == SP);
                    } else {
                        assert(region[j] == e_txt[j - s_txt.len() - 1]);
                    }
                }
                lemma_find_byte_first(region, NL, n0);
                assert(region.take(n0) =~= line);
                assert(line[s_txt.len() as int] == SP);
                assert forall|j: int| 0 <= j < s_txt.len() implies line[j] != SP by {
                    assert(line[j] == s_txt[j]);
                }
                lemma_find_byte_first(line, SP, s_txt.len() as int);
                assert(line.take(s_txt.len() as int) =~= s_txt);
                assert(line.skip(s_txt.len() as int + 1) =~= e_txt);
                assert(e_txt.len() >= 1);
                assert(!has_byte(e_txt, SP)) by {
                    if has_byte(e_txt, SP) {
                        let i = choose|i: int| 0 <= i < e_txt.len() && e_txt[i] == SP;
                        assert(rfc3339_of(e.secs as int)[i] != SP);
                    }
                }
                assert(parse_ts_spec(s_txt) == Some(l0.start)) by {
                    assert(rfc3339_parse_of(s_txt) == Some(l0.start.secs as int));
                    assert(ts_in_range(l0.start.secs as int));
                }
                assert(parse_ts_spec(e_txt) == Some(e)) by {
                    assert(rfc3339_parse_of(e_txt) == Some(e.secs as int));
                    assert(ts_in_range(e.secs as int));
                }
                assert(parse_closed_line_spec(line) == Some(l0));
                assert(region.skip(n0 + 1) =~= rest_enc);
                assert(wf_logs(logs.skip(1))) by {
                    assert forall|i: int| 0 <= i < logs.skip(1).len() implies (#[trigger] logs.skip(
                        1,
                    )[i]).wf() by {
                        assert(logs.skip(1)[i] == logs[i + 1]);
                    }
                    assert forall|i: int|
                        0 <= i < logs.skip(1).len() && (#[trigger] logs.skip(1)[i]).end is None
                        implies i == logs.skip(1).len() - 1 by {
                        assert(logs.skip(1)[i] == logs[i + 1]);
                    }
                }
                assert forall|k: int| 0 <= k < logs.skip(1).len() implies log_ts_facts(
                    #[trigger] logs.skip(1)[k],
                ) by {
                    assert(logs.skip(1)[k] == logs[k + 1]);
                }
                lemma_decode_encode_logs(logs.skip(1));
                assert(decode_logs_spec(region) == Some(seq![l0] + logs.skip(1)));
                assert(seq![l0] + logs.skip(1) =~= logs);
            },
            None => {
                assert(logs.len() == 1);
                assert(logs.skip(1) =~= Seq::<Log>::empty());
                assert(encode_logs_spec(logs.skip(1)) =~= Seq::<u8>::empty());
                assert(region =~= s_txt + seq![SP]);
                assert forall|j: int| 0 <= j < region.len() implies region[j] != NL by {
                    if j < s_txt.len() {
                        assert(region[j] == s_txt[j]);
                    } else {
                        assert(region[j] == SP);
                    }
                }
                lemma_find_byte_none(region, NL);
                assert(region[s_txt.len() as int] == SP);
                assert forall|j: int| 0 <= j < s_txt.len() implies region[j] != SP by {
                    assert(region[j] == s_txt[j]);
                }
                lemma_find_byte_first(region, SP, s_txt.len() as int);
                assert(region.take(s_txt.len() as int) =~= s_txt);
                assert(parse_ts_spec(s_txt) == Some(l0.start)) by {
                    assert(rfc3339_parse_of(s_txt) == Some(l0.start.secs as int));
                    assert(ts_in_range(l0.start.secs as int));
                }
                assert(parse_open_line_spec(region) == Some(l0));
                assert(decode_logs_spec(region) == Some(seq![l0]));
                assert(seq![l0] =~= logs);
            },
        }
    }
}

/// Decoding inverts encoding: the round trip recovers an encodable task
/// exactly, provided the chrono round-trip facts hold of its timestamps.
proof fn lemma_decode_encode(t: TaskModel)
    requires
        encodable(t),
        forall|k: int| 0 <= k < t.logs.len() ==> log_ts_facts(#[trigger] t.logs[k]),
    ensures
        decode_task_spec(encode_task_spec(t)) == Some(t),
{
    let dd = dec_digits(t.id as nat);
    let region = encode_logs_spec(t.logs);
    let bytes = encode_task_spec(t);
    lemma_dec_digits_shape(t.id as nat);
    lemma_dec_val_of_digits(t.id as nat);
    assert(bytes =~= dd + seq![NL] + t.name + seq![NL] + region);
    let n1 = dd.len() as int;
    assert(bytes[n1] == NL);
    assert forall|j: int| 0 <= j < n1 implies bytes[j] != NL by {
        assert(bytes[j] == dd[j]);
        assert(is_digit(dd[j]));
    }
    lemma_find_byte_first(bytes, NL, n1);
    assert(bytes.take(n1) =~= dd);
    assert(trim_spec(dd) == dd) by {
        assert forall|j: int| 0 <= j < dd.len() implies !is_ws(#[trigger] dd[j]) by {
            assert(is_digit(dd[j]));
        }
        lemma_trim_clean(dd);
    }
    let rest1 = bytes.skip(n1 + 1);
    assert(rest1 =~= t.name + seq![NL] + region);
    let n2 = t.name.len() as int;
    assert(rest1[n2] == NL);
    assert forall|j: int| 0 <= j < n2 implies rest1[j] != NL by {
        assert(rest1[j] == t.name[j]);
        if rest1[j] == NL {
            assert(has_byte(t.name, NL));
        }
    }
    lemma_find_byte_first(rest1, NL, n2);
    assert(rest1.take(n2) =~= t.name);
    assert(rest1.skip(n2 + 1) =~= region);
    lemma_decode_encode_logs(t.logs);
    assert(decode_task_spec(bytes) matches Some(m) && m =~= t);
}

/// Encodes a task as its on-disk file.  For an encodable task the second
/// clause is the round-trip law: decoding the produced bytes yields the
/// task back, unchanged.
pub fn encode_task(task: &Task) -> (r: Vec<u8>)
    requires
        task.wf(),
    ensures
        r@ == encode_task_spec(task@),
        encodable(task@) ==> decode_task_spec(r@) == Some(task@),
{
    let mut out: Vec<u8> = Vec::new();
    push_dec_u128(&mut out, task.id as u128);
    out.push(NL);
    append_bytes(&mut out, &task.name);
    out.push(NL);
    let ghost header = out@;
    proof {
        assert(header =~= dec_digits(task@.id as nat) + seq![NL] + task@.name + seq![NL]);
    }
    let mut i: usize = 0;
    while i < task.logs.len()
        invariant
            0 <= i <= task.logs@.len(),
            task.wf(),
            header == dec_digits(task@.id as nat) + seq![NL] + task@.name + seq![NL],
            out@ == header + encode_logs_spec(task.logs@.take(i as int)),
            forall|k: int| 0 <= k < i ==> log_ts_facts(#[trigger] task.logs@[k]),
        decreases task.logs@.len() - i,
    {
        let log = task.logs[i];
        proof {
            assert(task.logs@[i as int].wf());
        }
        let sb = rfc3339_bytes(log.start);
        append_bytes(&mut out, &sb);
        out.push(SP);
        match log.end {
            Some(e) => {
                let eb = rfc3339_bytes(e);
                append_bytes(&mut out, &eb);
                out.push(NL);
            },
            None => {},
        }
        proof {
            lemma_encode_logs_snoc(task.logs@.take(i as int), task.logs@[i as int]);
            assert(task.logs@.take(i + 1) =~= task.logs@.take(i as int).push(
                task.logs@[i as int],
            ));
            assert(log_ts_facts(task.logs@[i as int]));
            assert(out@ =~= header + encode_logs_spec(task.logs@.take(i + 1)));
        }
        i = i + 1;
    }
    proof {
        assert(task.logs@.take(task.logs@.len() as int) =~= task.logs@);
        assert(out@ =~= encode_task_spec(task@));
        if encodable(task@) {
            lemma_decode_encode(task@);
        }
    }
    out
}

} // verus!
