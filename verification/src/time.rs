//! Points in time.

use crate::error::Error;
use std::cmp::Ordering;
use vstd::prelude::*;

verus! {

/// The first representable nanosecond since the Unix epoch.
pub const MIN_NANOS: i128 = -377705023201000000000;

/// The last representable nanosecond since the Unix epoch.
pub const MAX_NANOS: i128 = 253402207200999999999;

/// The first microsecond since the Unix epoch that can be read back from a row.
pub const MIN_MICROS: i64 = -377705023201000000;

/// The last microsecond since the Unix epoch that can be read back from a row.
pub const MAX_MICROS: i64 = 253402207200000000;

/// An instant in nanoseconds since the Unix epoch, between the years -9999 and
/// 9999.
#[derive(Debug, Clone, Copy, PartialEq, Eq, Ord, Structural, Hash)]
pub struct Timestamp {
    nanos: i128,
}

impl View for Timestamp {
    type V = int;

    closed spec fn view(&self) -> int {
        self.nanos as int
    }
}

impl PartialOrd for Timestamp {
    fn partial_cmp(&self, other: &Timestamp) -> (order: Option<Ordering>)
        ensures
            order is Some,
            order->0 is Less <==> self@ < other@,
            order->0 is Equal <==> self@ == other@,
            order->0 is Greater <==> self@ > other@,
    {
        if self.nanos < other.nanos {
            Some(Ordering::Less)
        } else if self.nanos > other.nanos {
            Some(Ordering::Greater)
        } else {
            Some(Ordering::Equal)
        }
    }
}

impl vstd::std_specs::cmp::PartialOrdSpecImpl for Timestamp {
    open spec fn obeys_partial_cmp_spec() -> bool {
        true
    }

    open spec fn partial_cmp_spec(&self, other: &Timestamp) -> Option<Ordering> {
        if self@ < other@ {
            Some(Ordering::Less)
        } else if self@ > other@ {
            Some(Ordering::Greater)
        } else {
            Some(Ordering::Equal)
        }
    }
}

/// Whole microseconds in `nanos` nanoseconds, truncated toward zero.
pub open spec fn truncated(nanos: int) -> int {
    if nanos >= 0 {
        nanos / 1000
    } else {
        -((-nanos) / 1000)
    }
}

/// Whether a row may hold `micros` as a timestamp that can be read back.
pub open spec fn readable(micros: int) -> bool {
    MIN_MICROS <= micros <= MAX_MICROS
}

/// Calls `jiff::Timestamp::from_microsecond`, and `as_nanosecond` on what it
/// returns.
///
/// Claimed: it gives a timestamp on the microseconds from `MIN_MICROS` to `MAX_MICROS`
/// and on no others, and then counts a thousand nanoseconds for each. The last
/// second of the range of `jiff::Timestamp` is refused but for its beginning.
#[verifier::external_body]
fn nanos_from_micros(micros: i64) -> (r: Option<i128>)
    ensures
        r is Some <==> readable(micros as int),
        r matches Some(nanos) ==> nanos == micros * 1000,
{
    jiff::Timestamp::from_microsecond(micros).ok().map(|time| time.as_nanosecond())
}

/// Calls `jiff::Timestamp::as_microsecond` on the timestamp that
/// `jiff::Timestamp::from_nanosecond` makes.
///
/// Claimed: in the range of `jiff::Timestamp`, the result is the number of whole
/// microseconds, truncated toward zero.
#[verifier::external_body]
fn micros_from_nanos(nanos: i128) -> (micros: i64)
    requires
        MIN_NANOS <= nanos <= MAX_NANOS,
    ensures
        micros == truncated(nanos as int),
{
    jiff::Timestamp::from_nanosecond(nanos).unwrap().as_microsecond()
}

/// Calls `jiff::Timestamp::now`.
///
/// Claimed: the system clock's time lies in the range of `jiff::Timestamp`.
/// Nothing is claimed about which time it is; on a clock set outside that range
/// the call panics.
#[verifier::external_body]
fn nanos_now() -> (nanos: i128)
    ensures
        MIN_NANOS <= nanos <= MAX_NANOS,
{
    jiff::Timestamp::now().as_nanosecond()
}

impl Timestamp {
    /// The range that every timestamp lies in.
    #[verifier::type_invariant]
    spec fn in_range(self) -> bool {
        MIN_NANOS <= self.nanos <= MAX_NANOS
    }

    /// The timestamp `nanos` nanoseconds after the Unix epoch, if it is in range.
    pub fn from_nanosecond(nanos: i128) -> (r: Option<Timestamp>)
        ensures
            r is Some <==> MIN_NANOS <= nanos <= MAX_NANOS,
            r matches Some(time) ==> time@ == nanos,
    {
        if MIN_NANOS <= nanos && nanos <= MAX_NANOS {
            Some(Timestamp { nanos })
        } else {
            None
        }
    }

    /// Nanoseconds since the Unix epoch.
    pub fn as_nanosecond(self) -> (nanos: i128)
        ensures
            nanos == self@,
            MIN_NANOS <= nanos <= MAX_NANOS,
    {
        proof {
            use_type_invariant(self);
        }
        self.nanos
    }

    /// Whole microseconds since the Unix epoch, truncated toward zero.
    pub fn as_microsecond(self) -> (micros: i64)
        ensures
            micros == truncated(self@),
            MIN_NANOS <= self@ <= MAX_NANOS,
    {
        proof {
            use_type_invariant(self);
        }
        micros_from_nanos(self.nanos)
    }

    /// Whether a call that asks the system clock gave this time.
    pub closed spec fn is_clock_reading(self) -> bool {
        call_ensures(nanos_now, (), self.nanos)
    }

    /// The time on the system clock.
    pub fn now() -> (time: Timestamp)
        ensures
            time.is_clock_reading(),
            MIN_NANOS <= time@ <= MAX_NANOS,
    {
        Timestamp { nanos: nanos_now() }
    }
}

/// The timestamp that a row's microseconds stand for.
pub fn timestamp(micros: i64) -> (r: Result<Timestamp, Error>)
    ensures
        readable(micros as int) ==> r is Ok && r->Ok_0@ == micros * 1000,
        !readable(micros as int) ==> r == Err::<Timestamp, Error>(Error::Corrupt),
{
    match nanos_from_micros(micros) {
        Some(nanos) => Ok(Timestamp { nanos }),
        None => Err(Error::Corrupt),
    }
}

/// Why an event cannot be given the time that was asked for.
#[derive(Debug, Clone, Copy, PartialEq, Eq, Structural)]
pub enum CommitError {
    /// The time asked for is before that of the last event.
    Backwards { time: Timestamp, last: Timestamp },
}

/// The time of the next event in a log whose times never go backward: the one
/// asked for, if it is not before the last, and else the system clock's, but
/// never one before the last.
pub fn resolve_ts(explicit: Option<Timestamp>, last: Option<Timestamp>) -> (r: Result<
    Timestamp,
    CommitError,
>)
    ensures
        exists|now: Timestamp| #[trigger]
            call_ensures(Timestamp::now, (), now) && MIN_NANOS <= now@ <= MAX_NANOS && r
                == resolved_ts(explicit, last, now),
{
    let now = Timestamp::now();
    assert(call_ensures(Timestamp::now, (), now));
    resolve_ts_at(explicit, last, now)
}

/// What `resolve_ts` answers when the system clock shows `now`.
pub open spec fn resolved_ts(
    explicit: Option<Timestamp>,
    last: Option<Timestamp>,
    now: Timestamp,
) -> Result<Timestamp, CommitError> {
    match (explicit, last) {
        (Some(time), Some(last)) => if time@ < last@ {
            Err(CommitError::Backwards { time, last })
        } else {
            Ok(time)
        },
        (Some(time), None) => Ok(time),
        (None, Some(last)) => if now@ < last@ {
            Ok(last)
        } else {
            Ok(now)
        },
        (None, None) => Ok(now),
    }
}

/// As `resolve_ts`, with the time of the system clock as an argument.
pub fn resolve_ts_at(
    explicit: Option<Timestamp>,
    last: Option<Timestamp>,
    now: Timestamp,
) -> (r: Result<Timestamp, CommitError>)
    ensures
        r == resolved_ts(explicit, last, now),
{
    match (explicit, last) {
        (Some(time), Some(last)) => {
            if time.nanos < last.nanos {
                Err(CommitError::Backwards { time, last })
            } else {
                Ok(time)
            }
        },
        (Some(time), None) => Ok(time),
        (None, Some(last)) => {
            if now.nanos < last.nanos {
                Ok(last)
            } else {
                Ok(now)
            }
        },
        (None, None) => Ok(now),
    }
}

/// Truncation keeps the order of times.
pub proof fn truncation_keeps_order(a: int, b: int)
    requires
        a <= b,
    ensures
        truncated(a) <= truncated(b),
{
}

/// A time that was truncated is read back from a row, and it is not truncated
/// again. This does not hold of the times after the first microsecond of the last
/// second.
pub proof fn truncated_times_are_read_back(time: int)
    requires
        MIN_NANOS <= time <= MAX_NANOS,
        truncated(time) <= MAX_MICROS,
    ensures
        readable(truncated(time)),
        truncated(truncated(time) * 1000) == truncated(time),
        time >= 0 ==> time - 1000 < truncated(time) * 1000 <= time,
        time < 0 ==> time <= truncated(time) * 1000 < time + 1000,
{
}

/// The time of the next event is never before that of the last.
pub proof fn times_never_go_backward(
    explicit: Option<Timestamp>,
    last: Timestamp,
    now: Timestamp,
)
    ensures
        resolved_ts(explicit, Some(last), now) matches Ok(time) ==> last@ <= time@,
        explicit is None ==> resolved_ts(explicit, Some(last), now) is Ok,
{
}

/// Truncation to microseconds is toward zero: what is cut off is less than a
/// microsecond, and zero lies on the other side of it.
pub proof fn truncation_is_toward_zero(time: int)
    ensures
        time >= 0 ==> 0 <= time - truncated(time) * 1000 < 1000,
        time < 0 ==> -1000 < time - truncated(time) * 1000 <= 0,
{
}

/// A timestamp counts its nanoseconds, and whole microseconds toward zero.
pub proof fn a_timestamp_counts(time: Timestamp, nanos: i128, micros: i64)
    requires
        call_ensures(Timestamp::as_nanosecond, (time,), nanos),
        call_ensures(Timestamp::as_microsecond, (time,), micros),
    ensures
        nanos >= 0 ==> 0 <= nanos - micros * 1000 < 1000,
        nanos < 0 ==> -1000 < nanos - micros * 1000 <= 0,
{
}

/// The microseconds of a row are read as a thousand nanoseconds each, within the
/// range of what can be read back, and are corrupt outside it.
pub proof fn a_rows_time_is_read(micros: i64, r: Result<Timestamp, Error>)
    requires
        call_ensures(timestamp, (micros,), r),
    ensures
        -377705023201000000 <= micros <= 253402207200000000 <==> r is Ok,
        r matches Ok(time) ==> time@ == micros * 1000,
        r matches Err(e) ==> e == Error::Corrupt,
{
}

/// A time that was asked for is taken unless it is before the last; without one, the
/// later of the clock's time and the last is.
pub proof fn the_next_time(
    explicit: Option<Timestamp>,
    last: Option<Timestamp>,
    now: Timestamp,
    r: Result<Timestamp, CommitError>,
)
    requires
        call_ensures(resolve_ts_at, (explicit, last, now), r),
    ensures
        r is Err <==> explicit is Some && last is Some && explicit->0@ < last->0@,
        r matches Err(e) ==> e == (CommitError::Backwards { time: explicit->0, last: last->0 }),
        r is Ok && explicit is Some ==> r->Ok_0 == explicit->0,
        r is Ok && explicit is None ==> (r->Ok_0 == now || Some(r->Ok_0) == last) && now@
            <= r->Ok_0@,
        r is Ok && last is Some ==> last->0@ <= r->Ok_0@,
        last is None && explicit is None ==> r == Ok::<Timestamp, CommitError>(now),
{
}

/// A timestamp is made of any nanosecond from the first to the last of the range, and of
/// no other, and counts it.
pub proof fn timestamps_have_a_range(nanos: i128, r: Option<Timestamp>)
    requires
        call_ensures(Timestamp::from_nanosecond, (nanos,), r),
    ensures
        r is Some <==> -377705023201000000000 <= nanos <= 253402207200999999999,
        r matches Some(time) ==> time@ == nanos,
{
}

/// The time on the system clock is what the clock gave, and nothing else.
proof fn now_is_what_the_clock_gave(time: Timestamp)
    requires
        call_ensures(Timestamp::now, (), time),
    ensures
        call_ensures(nanos_now, (), time.nanos),
        time@ == time.nanos,
{
}

/// The time of the next event in a log, where none is asked for and there is none before,
/// is that of the system clock; and it is never another than the clock's or the last.
pub proof fn the_next_time_is_the_clocks(
    last: Option<Timestamp>,
    r: Result<Timestamp, CommitError>,
)
    requires
        call_ensures(resolve_ts, (None, last), r),
    ensures
        r is Ok,
        last is None ==> call_ensures(Timestamp::now, (), r->Ok_0),
        call_ensures(Timestamp::now, (), r->Ok_0) || last == Some(r->Ok_0),
{
}

} // verus!
