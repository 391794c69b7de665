//! The time of the next event in a log whose times never go backward.

use two_tdb::{resolve_ts, resolve_ts_at, CommitError, Timestamp};

fn ts(s: &str) -> Timestamp {
    let time: jiff::Timestamp = s.parse().unwrap();
    Timestamp::from_nanosecond(time.as_nanosecond()).unwrap()
}

#[test]
fn resolve_ts_rejects_an_explicit_time_before_the_last() {
    let last = ts("2020-06-01T00:00:00Z");
    let earlier = ts("2020-01-01T00:00:00Z");
    assert!(matches!(
        resolve_ts(Some(earlier), Some(last)),
        Err(CommitError::Backwards { .. })
    ));
}

#[test]
fn resolve_ts_accepts_an_explicit_time_at_or_after_the_last() {
    let last = ts("2020-06-01T00:00:00Z");
    let later = ts("2021-01-01T00:00:00Z");
    assert_eq!(resolve_ts(Some(later), Some(last)).unwrap(), later);
    assert_eq!(resolve_ts(Some(last), Some(last)).unwrap(), last);
}

#[test]
fn resolve_ts_never_precedes_the_last_when_implicit() {
    // `last` is far in the future, so the clock is earlier; the last time wins.
    let last = ts("2999-01-01T00:00:00Z");
    assert_eq!(resolve_ts(None, Some(last)).unwrap(), last);
}

#[test]
fn resolve_ts_uses_now_for_the_first_event() {
    let before = Timestamp::now();
    assert!(resolve_ts(None, None).unwrap() >= before);
}

#[test]
fn resolve_ts_at_takes_the_clock_as_an_argument() {
    let (early, late) = (ts("2020-01-01T00:00:00Z"), ts("2021-01-01T00:00:00Z"));
    assert_eq!(resolve_ts_at(None, None, early), Ok(early));
    assert_eq!(resolve_ts_at(None, Some(early), late), Ok(late));
    assert_eq!(resolve_ts_at(None, Some(late), early), Ok(late));
    assert_eq!(resolve_ts_at(Some(early), None, late), Ok(early));
    assert_eq!(
        resolve_ts_at(Some(early), Some(late), late),
        Err(CommitError::Backwards {
            time: early,
            last: late
        })
    );
}
