use vstd::prelude::*;

verus! {

use crate::num::{dec_digits, is_digit, lemma_dec_digits_shape, push_dec_u128};

/// Earliest instant the tracker stores: 0000-01-01T00:00:00Z in seconds from the Unix epoch.
/// Together with the upper bound this keeps every stored year at four decimal digits,
/// which is what the RFC 3339 lines in the task files require.
pub const TS_MIN_SECS: i64 = -62167219200;

/// Latest instant the tracker stores: 9999-12-31T23:59:59Z in seconds from the Unix epoch.
pub const TS_MAX_SECS: i64 = 253402300799;

/// An upper bound on the magnitude of any difference of two well-formed timestamps.
pub const TS_SPAN_SECS: i64 = 315569519999;

/// An absolute UTC instant, counted in whole seconds from the Unix epoch.
#[derive(Clone, Copy, PartialEq, Eq, Structural, Debug)]
pub struct Timestamp {
    pub secs: i64,
}

impl Timestamp {
    pub open spec fn wf(self) -> bool {
        TS_MIN_SECS <= self.secs <= TS_MAX_SECS
    }

    /// Builds a timestamp, rejecting seconds outside the supported year range.
    pub fn new(secs: i64) -> (r: Option<Timestamp>)
        ensures
            r matches Some(t) ==> t.wf() && t.secs == secs,
            r is None <==> !(Timestamp { secs }).wf(),
    {
        if TS_MIN_SECS <= secs && secs <= TS_MAX_SECS {
            Some(Timestamp { secs })
        } else {
            None
        }
    }
}

/// A signed span of time in whole seconds.  It is wider than a timestamp so
/// that sums over arbitrarily many logs can be computed without overflow.
#[derive(Clone, Copy, PartialEq, Eq, Structural, Debug)]
pub struct Duration {
    pub secs: i128,
}

/// The exact text `format_duration` produces for a non-negative number of
/// seconds: days, hours and minutes each appear when the whole duration
/// reaches that unit, seconds always appear, and the pieces are joined by
/// single spaces.
pub open spec fn format_duration_bytes(secs: int) -> Seq<u8>
    recommends
        secs >= 0,
{
    let d_part = if secs >= 86400 {
        dec_digits((secs / 86400) as nat) + seq![100u8, 32u8]
    } else {
        Seq::<u8>::empty()
    };
    let h_part = if secs >= 3600 {
        dec_digits(((secs / 3600) % 24) as nat) + seq![104u8, 32u8]
    } else {
        Seq::<u8>::empty()
    };
    let m_part = if secs >= 60 {
        dec_digits(((secs / 60) % 60) as nat) + seq![109u8, 32u8]
    } else {
        Seq::<u8>::empty()
    };
    let s_part = dec_digits((secs % 60) as nat) + seq![115u8];
    d_part + h_part + m_part + s_part
}

/// The text `format_duration_hours` produces: as above but with total hours
/// in place of days plus day-relative hours, and, mirroring the stored
/// behaviour of the tracker, seconds shown only for sub-minute durations.
pub open spec fn format_duration_hours_bytes(secs: int) -> Seq<u8>
    recommends
        secs >= 0,
{
    let h_part = if secs >= 3600 {
        dec_digits((secs / 3600) as nat) + seq![104u8, 32u8]
    } else {
        Seq::<u8>::empty()
    };
    let m_part = if secs >= 60 {
        dec_digits(((secs / 60) % 60) as nat) + seq![109u8, 32u8]
    } else {
        Seq::<u8>::empty()
    };
    let s_part = if secs < 60 {
        dec_digits((secs % 60) as nat) + seq![115u8, 32u8]
    } else {
        Seq::<u8>::empty()
    };
    (h_part + m_part + s_part).drop_last()
}

pub open spec fn bytes_as_chars(s: Seq<u8>) -> Seq<char> {
    s.map(|i: int, b: u8| b as char)
}

/// Relies on `String::from_utf8`: bytes below 128 decode to exactly one
/// character each, with the same code point.
#[verifier::external_body]
fn ascii_bytes_to_string(v: Vec<u8>) -> (r: String)
    requires
        forall|i: int| 0 <= i < v@.len() ==> v@[i] < 128,
    ensures
        r@ == bytes_as_chars(v@),
{
    match String::from_utf8(v) {
        Ok(s) => s,
        Err(_) => String::new(),
    }
}

proof fn lemma_dec_digits_below_128(n: nat)
    ensures
        forall|i: int| 0 <= i < dec_digits(n).len() ==> dec_digits(n)[i] < 128,
{
    lemma_dec_digits_shape(n);
    assert forall|i: int| 0 <= i < dec_digits(n).len() implies dec_digits(n)[i] < 128 by {
        assert(is_digit(dec_digits(n)[i]));
    }
}

/// Renders a duration as human units, e.g. `1d 1h 0m 0s` or `1h 30m 5s`:
/// each unit from days down appears once the duration reaches it, and
/// seconds always appear.
pub fn format_duration(duration: Duration) -> (r: String)
    requires
        duration.secs >= 0,
    ensures
        r@ == bytes_as_chars(format_duration_bytes(duration.secs as int)),
{
    let secs: u128 = duration.secs as u128;
    let mut out: Vec<u8> = Vec::new();
    if secs >= 86400 {
        push_dec_u128(&mut out, secs / 86400);
        out.push(100);
        out.push(32);
    }
    if secs >= 3600 {
        push_dec_u128(&mut out, (secs / 3600) % 24);
        out.push(104);
        out.push(32);
    }
    if secs >= 60 {
        push_dec_u128(&mut out, (secs / 60) % 60);
        out.push(109);
        out.push(32);
    }
    push_dec_u128(&mut out, secs % 60);
    out.push(115);
    proof {
        assert(out@ =~= format_duration_bytes(duration.secs as int));
        lemma_dec_digits_below_128(((duration.secs as int) / 86400) as nat);
        lemma_dec_digits_below_128((((duration.secs as int) / 3600) % 24) as nat);
        lemma_dec_digits_below_128((((duration.secs as int) / 60) % 60) as nat);
        lemma_dec_digits_below_128(((duration.secs as int) % 60) as nat);
    }
    ascii_bytes_to_string(out)
}

/// Renders a duration with total hours as the largest unit, e.g. `26h 10m`;
/// sub-minute durations render as seconds alone.
pub fn format_duration_hours(duration: Duration) -> (r: String)
    requires
        duration.secs >= 0,
    ensures
        r@ == bytes_as_chars(format_duration_hours_bytes(duration.secs as int)),
{
    let secs: u128 = duration.secs as u128;
    let mut out: Vec<u8> = Vec::new();
    if secs >= 3600 {
        push_dec_u128(&mut out, secs / 3600);
        out.push(104);
        out.push(32);
    }
    if secs >= 60 {
        push_dec_u128(&mut out, (secs / 60) % 60);
        out.push(109);
        out.push(32);
    }
    if secs < 60 {
        push_dec_u128(&mut out, secs % 60);
        out.push(115);
        out.push(32);
    }
    let _ = out.pop();
    proof {
        assert(out@ =~= format_duration_hours_bytes(duration.secs as int));
        lemma_dec_digits_below_128(((duration.secs as int) / 3600) as nat);
        lemma_dec_digits_below_128((((duration.secs as int) / 60) % 60) as nat);
        lemma_dec_digits_below_128(((duration.secs as int) % 60) as nat);
    }
    ascii_bytes_to_string(out)
}

} // verus!
