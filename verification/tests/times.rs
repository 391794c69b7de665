//! Timestamps and cutoffs.

use two_tdb::{timestamp, Coordinate, Error, Timestamp, TransactionCutoff, ValidCutoff};

const FIRST: i64 = -377705023201000000;
const LAST: i64 = 253402207200000000;

fn nanos(n: i128) -> Timestamp {
    Timestamp::from_nanosecond(n).unwrap()
}

#[test]
fn microseconds_are_truncated_toward_zero() {
    assert_eq!(nanos(1_999).as_microsecond(), 1);
    assert_eq!(nanos(-1_999).as_microsecond(), -1);
    assert_eq!(nanos(999).as_microsecond(), 0);
    assert_eq!(nanos(-999).as_microsecond(), 0);
    assert_eq!(nanos(1_577_836_800_000_000_500).as_microsecond(), 1_577_836_800_000_000);
}

#[test]
fn a_row_holds_microseconds() {
    assert_eq!(timestamp(1).unwrap().as_nanosecond(), 1_000);
    assert_eq!(timestamp(-5).unwrap().as_nanosecond(), -5_000);
    assert_eq!(timestamp(FIRST).unwrap().as_nanosecond(), FIRST as i128 * 1000);
    assert_eq!(timestamp(LAST).unwrap().as_nanosecond(), LAST as i128 * 1000);
    assert_eq!(timestamp(FIRST - 1), Err(Error::Corrupt));
    assert_eq!(timestamp(LAST + 1), Err(Error::Corrupt));
    assert_eq!(timestamp(i64::MIN), Err(Error::Corrupt));
    assert_eq!(timestamp(i64::MAX), Err(Error::Corrupt));
}

#[test]
fn timestamps_have_a_range() {
    let (first, last) = (jiff::Timestamp::MIN, jiff::Timestamp::MAX);
    assert_eq!(
        nanos(first.as_nanosecond()).as_microsecond(),
        first.as_microsecond()
    );
    assert_eq!(
        nanos(last.as_nanosecond()).as_microsecond(),
        last.as_microsecond()
    );
    assert_eq!(Timestamp::from_nanosecond(first.as_nanosecond() - 1), None);
    assert_eq!(Timestamp::from_nanosecond(last.as_nanosecond() + 1), None);
}

#[test]
fn the_last_second_is_not_read_back() {
    let last = nanos(jiff::Timestamp::MAX.as_nanosecond());
    assert_eq!(last.as_microsecond(), LAST + 999_999);
    assert_eq!(timestamp(last.as_microsecond()), Err(Error::Corrupt));
}

#[test]
fn truncated_times_are_read_back() {
    for n in [0, 1_500, -1_500, 1_577_836_800_123_456_789, LAST as i128 * 1000] {
        let micros = nanos(n).as_microsecond();
        let back = timestamp(micros).unwrap();
        assert_eq!(back.as_microsecond(), micros);
        assert!((back.as_nanosecond() - n).abs() < 1000);
    }
}

#[test]
fn times_are_ordered() {
    assert!(nanos(1) < nanos(2));
    assert!(nanos(2) >= nanos(2));
    assert!(nanos(-3) > nanos(-4));
    assert_eq!(nanos(5).max(nanos(4)), nanos(5));
    let (a, b) = (Timestamp::now(), Timestamp::now());
    assert!(a <= b);
    assert!(a > nanos(1_577_836_800_000_000_000));
}

#[test]
fn cutoffs_give_their_limits() {
    assert_eq!(TransactionCutoff::BeforeFirst.event_id(), None);
    assert_eq!(TransactionCutoff::Through(3).event_id(), Some(3));
    assert_eq!(TransactionCutoff::from(None), TransactionCutoff::BeforeFirst);
    assert_eq!(TransactionCutoff::from(Some(3)), TransactionCutoff::Through(3));
    let cutoff = ValidCutoff::Through(nanos(2_999));
    assert_eq!(cutoff.timestamp(), Some(nanos(2_999)));
    assert_eq!(cutoff.micros(), Some(2));
    assert_eq!(ValidCutoff::Unbounded.timestamp(), None);
    assert_eq!(ValidCutoff::Unbounded.micros(), None);
    let place = Coordinate {
        transaction: TransactionCutoff::Through(3),
        valid: cutoff,
    };
    assert_eq!(place.transaction.event_id(), Some(3));
}
