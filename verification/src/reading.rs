//! What holds of every read.

use crate::error::Error;
use crate::model::{
    event_is_unique, filter_holds, filter_keeps_order, last_known_is_unique, reaches,
    selection_is_unique, ChangeView, Cut, LogView,
    RecordedView,
};
use crate::raw::encoded;
use crate::time::readable;
use crate::value::ValueView;
use vstd::prelude::*;

verus! {

/// Whether a log offers an assertion for `key` within the cutoffs.
pub open spec fn offers(log: LogView, key: Seq<char>, cut: Cut, change: ChangeView) -> bool {
    log.changes.contains(change) && change.key == key && cut.admits(change)
}

/// What a log tells of a key together with its events is in order.
pub proof fn told_is_in_order(log: LogView, key: Seq<char>)
    requires
        log.wf(),
    ensures
        log.told(key).wf(),
{
    filter_keeps_order(
        log.changes,
        |change: ChangeView| change.key == key && log.has_event(change.seq),
    );
}

/// What a log tells of a key together with its events are its assertions for the key
/// whose event it holds.
pub proof fn told_offers(log: LogView, key: Seq<char>, cut: Cut, change: ChangeView)
    ensures
        offers(log.told(key), key, cut, change) <==> offers(log, key, cut, change)
            && log.has_event(change.seq),
{
    filter_holds(
        log.changes,
        |change: ChangeView| change.key == key && log.has_event(change.seq),
        change,
    );
}

/// Of the first changes, one of those that a read may select overrides the others.
proof fn greatest_of_first(log: LogView, key: Seq<char>, cut: Cut, n: int, i: int) -> (r: int)
    requires
        i < n <= log.changes.len(),
        log.candidate(key, cut, i),
    ensures
        r < n,
        log.candidate(key, cut, r),
        forall|j: int|
            j < n && #[trigger] log.candidate(key, cut, j) ==> log.changes[r].overrides(
                log.changes[j],
            ),
    decreases n,
{
    let last = n - 1;
    if exists|j: int| j < last && log.candidate(key, cut, j) {
        let j = choose|j: int| j < last && log.candidate(key, cut, j);
        let r = greatest_of_first(log, key, cut, last, j);
        if log.candidate(key, cut, last) && log.changes[last].overrides(log.changes[r]) {
            last
        } else {
            r
        }
    } else {
        i
    }
}

/// The assertion in force is, of those for the key within the cutoffs, the one with
/// the greatest valid time and event ID; there is none only where no assertion for
/// the key is within the cutoffs.
pub proof fn in_force_is_the_greatest(log: LogView, key: Seq<char>, cut: Cut)
    requires
        log.wf(),
    ensures
        match log.in_force(key, cut) {
            Some(change) => offers(log, key, cut, change) && forall|other: ChangeView| #[trigger]
                offers(log, key, cut, other) ==> change.overrides(other),
            None => forall|other: ChangeView| !#[trigger] offers(log, key, cut, other),
        },
{
    if exists|i: int| log.candidate(key, cut, i) {
        let i = choose|i: int| log.candidate(key, cut, i);
        let r = greatest_of_first(log, key, cut, log.changes.len() as int, i);
        assert(log.selected(key, cut, r));
        selection_is_unique(log, key, cut, r);
        assert forall|other: ChangeView| #[trigger] offers(log, key, cut, other) implies log.changes[r].overrides(
            other,
        ) by {
            let j = choose|j: int| 0 <= j < log.changes.len() && log.changes[j] == other;
            assert(log.candidate(key, cut, j));
        }
    } else {
        assert forall|i: int| !log.selected(key, cut, i) by {
            assert(!log.candidate(key, cut, i));
        }
        assert forall|other: ChangeView| !#[trigger] offers(log, key, cut, other) by {
            if offers(log, key, cut, other) {
                let j = choose|j: int| 0 <= j < log.changes.len() && log.changes[j] == other;
                assert(log.candidate(key, cut, j));
            }
        }
    }
}

/// An assertion for the key within the cutoffs that overrides the others is in
/// force.
pub proof fn the_greatest_is_in_force(
    log: LogView,
    key: Seq<char>,
    cut: Cut,
    change: ChangeView,
)
    requires
        log.wf(),
        offers(log, key, cut, change),
        forall|other: ChangeView| #[trigger]
            offers(log, key, cut, other) ==> change.overrides(other),
    ensures
        log.in_force(key, cut) == Some(change),
{
    let i = choose|i: int| 0 <= i < log.changes.len() && log.changes[i] == change;
    assert(log.candidate(key, cut, i));
    assert(log.selected(key, cut, i)) by {
        assert forall|j: int| #[trigger] log.candidate(key, cut, j) implies log.changes[i].overrides(
            log.changes[j],
        ) by {
            assert(log.changes.contains(log.changes[j]));
            assert(offers(log, key, cut, log.changes[j]));
        }
    }
    selection_is_unique(log, key, cut, i);
}

/// Where two logs offer the same assertions, the same is in force.
pub proof fn same_offers_same_force(
    log: LogView,
    cut: Cut,
    other: LogView,
    other_cut: Cut,
    key: Seq<char>,
)
    requires
        log.wf(),
        other.wf(),
        forall|change: ChangeView|
            offers(log, key, cut, change) <==> #[trigger] offers(other, key, other_cut, change),
    ensures
        log.in_force(key, cut) == other.in_force(key, other_cut),
{
    in_force_is_the_greatest(log, key, cut);
    in_force_is_the_greatest(other, key, other_cut);
    match log.in_force(key, cut) {
        Some(change) => {
            assert(offers(other, key, other_cut, change));
            the_greatest_is_in_force(other, key, other_cut, change);
        },
        None => {
            if let Some(change) = other.in_force(key, other_cut) {
                assert(offers(other, key, other_cut, change));
            }
        },
    }
}

/// `get` reads the value of the assertion that `blame` names, where the event of the
/// assertion in force is one of the log; and `blame` names none only where no
/// assertion for the key is within the cutoffs, and then `get` reads nothing.
pub proof fn get_reads_what_blame_names(log: LogView, key: Seq<char>, cut: Cut)
    requires
        log.wf(),
        log.in_force(key, cut) matches Some(change) ==> log.has_event(change.seq),
        log.blamed(key, cut) is Ok,
    ensures
        match log.blamed(key, cut)->Ok_0 {
            Some(recorded) => {
                &&& recorded.assertion.key == key
                &&& reaches(cut.through, recorded.event_id)
                &&& log.read(key, cut) == Ok::<_, Error>(recorded.assertion.value)
            },
            None => {
                &&& forall|change: ChangeView| !#[trigger] offers(log, key, cut, change)
                &&& log.read(key, cut) == Ok::<Option<ValueView>, Error>(None)
            },
        },
{
    what_is_in_force_is_told(log, key, cut);
    in_force_is_the_greatest(log, key, cut);
}

/// Where the event of the assertion in force is one of the log, the assertion is in
/// force too of those whose event the log holds.
proof fn what_is_in_force_is_told(log: LogView, key: Seq<char>, cut: Cut)
    requires
        log.wf(),
        log.in_force(key, cut) matches Some(change) ==> log.has_event(change.seq),
    ensures
        log.told(key).in_force(key, cut) == log.in_force(key, cut),
{
    let told = log.told(key);
    told_is_in_order(log, key);
    assert forall|change: ChangeView| #[trigger] offers(told, key, cut, change) <==> offers(
        log,
        key,
        cut,
        change,
    ) && log.has_event(change.seq) by {
        told_offers(log, key, cut, change);
    }
    in_force_is_the_greatest(log, key, cut);
    in_force_is_the_greatest(told, key, cut);
    match log.in_force(key, cut) {
        Some(change) => {
            assert(offers(told, key, cut, change));
            the_greatest_is_in_force(told, key, cut, change);
        },
        None => {
            if let Some(change) = told.in_force(key, cut) {
                assert(offers(told, key, cut, change));
            }
        },
    }
}

/// A state lists the keys for which `get` reads a value, with that value, and no
/// others.
pub proof fn state_lists_what_get_reads(log: LogView, key: Seq<char>, cut: Cut)
    requires
        log.wf(),
        log.state(cut) is Ok,
        log.read(key, cut) is Ok,
    ensures
        ({
            let state = log.state(cut)->Ok_0;
            log.read(key, cut)->Ok_0 == (if state.contains_key(key) {
                Some(state[key])
            } else {
                None
            })
        }),
{
    assert(log.value_readable(key, cut));
    if let Some(change) = log.in_force(key, cut) {
        let value = change.raw.decoded()->Ok_0;
        assert(encoded(value) == change.raw);
    }
}

/// A key that a state lists is one that `get` reads.
pub proof fn a_listed_key_is_read(log: LogView, key: Seq<char>, cut: Cut)
    requires
        log.state(cut) is Ok,
        log.state(cut)->Ok_0.contains_key(key),
    ensures
        log.read(key, cut) == Ok::<_, Error>(Some(log.state(cut)->Ok_0[key])),
{
    assert(log.value_readable(key, cut));
}

/// Without a valid-time cutoff, reads are as with one that no valid time is beyond.
pub proof fn unbounded_is_beyond_every_valid_time(
    log: LogView,
    key: Seq<char>,
    through: Option<u64>,
    last: int,
)
    requires
        log.wf(),
        forall|i: int| 0 <= i < log.changes.len() ==> (#[trigger] log.changes[i]).valid <= last,
    ensures
        log.in_force(key, (Cut { through, valid: None })) == log.in_force(
            key,
            (Cut { through, valid: Some(last) }),
        ),
        log.read(key, (Cut { through, valid: None })) == log.read(
            key,
            (Cut { through, valid: Some(last) }),
        ),
{
    let (all, some) = (Cut { through, valid: None }, Cut { through, valid: Some(last) });
    assert forall|change: ChangeView| offers(log, key, all, change) <==> #[trigger] offers(
        log,
        key,
        some,
        change,
    ) by {
        if log.changes.contains(change) {
            let i = choose|i: int| 0 <= i < log.changes.len() && log.changes[i] == change;
            assert(log.changes[i].valid <= last);
        }
    }
    same_offers_same_force(log, all, log, some, key);
}

/// Before the first event nothing is read.
pub proof fn nothing_is_known_before_the_first_event(log: LogView, key: Seq<char>, valid: Option<int>)
    ensures
        ({
            let cut = Cut { through: None, valid };
            &&& log.read(key, cut) == Ok::<Option<ValueView>, Error>(None)
            &&& log.blamed(key, cut) == Ok::<Option<RecordedView>, Error>(None)
            &&& log.state(cut) is Ok
            &&& !log.state(cut)->Ok_0.contains_key(key)
        }),
{
    let cut = Cut { through: None, valid };
    assert forall|name: Seq<char>| #[trigger] log.in_force(name, cut) is None by {
        assert forall|i: int| !log.selected(name, cut, i) by {
            assert(!log.candidate(name, cut, i));
        }
    }
    assert forall|name: Seq<char>| #[trigger] log.value_readable(name, cut) by {
        assert(log.in_force(name, cut) is None);
    }
    let told = log.told(key);
    assert forall|i: int| !told.selected(key, cut, i) by {
        assert(!told.candidate(key, cut, i));
    }
}

/// An event is known at the time of its commit: what is known then is it, or an
/// event of the same time with a greater ID.
pub proof fn an_event_is_known_at_its_commit(log: LogView, i: int)
    requires
        log.wf(),
        0 <= i < log.events.len(),
    ensures
        ({
            let event = log.events[i];
            &&& log.known_at(event.ts) matches Some(id)
            &&& event.seq <= id
            &&& log.time_of(id) == Some(event.ts)
        }),
{
    let ts = log.events[i].ts;
    assert(log.known(ts, i));
    let r = last_of_first(log, ts, log.events.len() as int, i);
    assert(log.last_known(ts, r));
    last_known_is_unique(log, ts, r);
    assert(log.is_event(r, log.events[r].seq));
    event_is_unique(log, r, log.events[r].seq);
}

/// No event is known by a time only if every event was committed later.
pub proof fn no_event_is_known_before_the_first_commit(log: LogView, micros: int)
    requires
        log.wf(),
    ensures
        log.known_at(micros) is None <==> forall|i: int|
            0 <= i < log.events.len() ==> micros < (#[trigger] log.events[i]).ts,
{
    if exists|i: int| log.known(micros, i) {
        let i = choose|i: int| log.known(micros, i);
        let r = last_of_first(log, micros, log.events.len() as int, i);
        assert(log.last_known(micros, r));
        assert(log.events[i].ts <= micros);
    } else {
        assert forall|i: int| 0 <= i < log.events.len() implies micros < (#[trigger] log.events[i]).ts by {
            assert(!log.known(micros, i));
        }
    }
}

/// Of the first events, one of those known by a time is the last.
proof fn last_of_first(log: LogView, micros: int, n: int, i: int) -> (r: int)
    requires
        log.wf(),
        i < n <= log.events.len(),
        log.known(micros, i),
    ensures
        r < n,
        log.known(micros, r),
        forall|j: int|
            j < n && #[trigger] log.known(micros, j) ==> log.events[j].ts < log.events[r].ts || (
            log.events[j].ts == log.events[r].ts && log.events[j].seq <= log.events[r].seq),
    decreases n,
{
    let last = n - 1;
    if exists|j: int| j < last && log.known(micros, j) {
        let j = choose|j: int| j < last && log.known(micros, j);
        let r = last_of_first(log, micros, last, j);
        assert(log.events[r].seq < log.events[last].seq);
        if log.known(micros, last) && log.events[r].ts <= log.events[last].ts {
            last
        } else {
            r
        }
    } else {
        i
    }
}

/// A filter after one that keeps all it keeps is as the filter alone.
proof fn filter_twice(
    changes: Seq<ChangeView>,
    keep: spec_fn(ChangeView) -> bool,
    fewer: spec_fn(ChangeView) -> bool,
)
    requires
        forall|change: ChangeView| #[trigger] fewer(change) ==> keep(change),
    ensures
        changes.filter(keep).filter(fewer) == changes.filter(fewer),
    decreases changes.len(),
{
    reveal(Seq::filter);
    if changes.len() > 0 {
        let rest = changes.drop_last();
        filter_twice(rest, keep, fewer);
        let some = rest.filter(keep);
        assert(some.push(changes.last()).drop_last() =~= some);
    }
}

/// Logs with the same events tell the same of them.
proof fn events_tell_the_same(log: LogView, other: LogView, id: u64)
    requires
        log.wf(),
        other.wf(),
        other.events == log.events,
    ensures
        other.has_event(id) == log.has_event(id),
        other.time_of(id) == log.time_of(id),
        other.committed_at(id) == log.committed_at(id),
{
    if log.has_event(id) {
        let i = choose|i: int| log.is_event(i, id);
        assert(log.is_event(i, id));
        assert(other.is_event(i, id));
        event_is_unique(log, i, id);
        event_is_unique(other, i, id);
    }
    if other.has_event(id) {
        let i = choose|i: int| other.is_event(i, id);
        assert(other.is_event(i, id));
        assert(log.is_event(i, id));
    }
}

/// What is read of a key rests on the events and on the rows of that key alone.
pub proof fn the_rows_of_a_key_suffice(log: LogView, rows: LogView, key: Seq<char>, cut: Cut)
    requires
        log.wf(),
        rows.events == log.events,
        rows.changes == log.changes_of(key),
    ensures
        rows.wf(),
        rows.in_force(key, cut) == log.in_force(key, cut),
        rows.read(key, cut) == log.read(key, cut),
        rows.blamed(key, cut) == log.blamed(key, cut),
        rows.history(key) == log.history(key),
{
    let keep = |change: ChangeView| change.key == key;
    filter_keeps_order(log.changes, keep);
    assert forall|change: ChangeView| offers(log, key, cut, change) <==> #[trigger] offers(
        rows,
        key,
        cut,
        change,
    ) by {
        filter_holds(log.changes, keep, change);
    }
    same_offers_same_force(log, cut, rows, cut, key);
    assert forall|id: u64| #[trigger] rows.has_event(id) == log.has_event(id)
        && rows.committed_at(id) == log.committed_at(id) by {
        events_tell_the_same(log, rows, id);
    }
    let joined = |change: ChangeView| change.key == key && log.has_event(change.seq);
    filter_twice(log.changes, keep, joined);
    assert((|change: ChangeView| change.key == key && rows.has_event(change.seq)) =~= joined);
    assert(rows.told(key) == log.told(key));
    assert forall|change: ChangeView| #[trigger] rows.recorded(change) == log.recorded(change) by {
        assert(rows.has_event(change.seq) == log.has_event(change.seq));
    }
    if log.history(key) is Ok {
        assert(rows.history(key)->Ok_0 =~= log.history(key)->Ok_0);
    }
}

/// What is read of an event rests on the events and on the rows of that event alone.
pub proof fn the_rows_of_an_event_suffice(log: LogView, rows: LogView, id: u64)
    requires
        log.wf(),
        rows.events == log.events,
        rows.changes == log.changes_in(id),
    ensures
        rows.wf(),
        rows.event(id) == log.event(id),
{
    let keep = |change: ChangeView| change.seq == id;
    filter_keeps_order(log.changes, keep);
    filter_twice(log.changes, keep, keep);
    events_tell_the_same(log, rows, id);
    assert(rows.changes_in(id) == log.changes_in(id));
}

/// What is asked of events alone does not rest on the changes.
pub proof fn the_events_suffice(log: LogView, rows: LogView, id: u64, micros: int)
    requires
        log.wf(),
        rows.events == log.events,
        rows.changes.len() == 0,
    ensures
        rows.wf(),
        rows.latest() == log.latest(),
        rows.committed_at(id) == log.committed_at(id),
        rows.known_at(micros) == log.known_at(micros),
{
    events_tell_the_same(log, rows, id);
    if exists|i: int| log.known(micros, i) {
        let i = choose|i: int| log.known(micros, i);
        let r = last_of_first(log, micros, log.events.len() as int, i);
        assert(log.last_known(micros, r));
        assert forall|j: int| #[trigger] rows.known(micros, j) implies log.known(micros, j) by {
        }
        assert(rows.last_known(micros, r));
        last_known_is_unique(log, micros, r);
        last_known_is_unique(rows, micros, r);
    } else {
        assert forall|i: int| !log.last_known(micros, i) && !rows.last_known(micros, i) by {
            assert(!log.known(micros, i));
        }
    }
}

/// Where commit times do not decrease, the events known by a time are those through
/// the last known, which is the greatest ID of them.
pub proof fn the_last_known_is_the_greatest(log: LogView, micros: int)
    requires
        log.wf(),
        forall|i: int, j: int|
            0 <= i < j < log.events.len() ==> (#[trigger] log.events[i]).ts <= (
            #[trigger] log.events[j]).ts,
    ensures
        match log.known_at(micros) {
            Some(id) => {
                &&& exists|i: int| log.known(micros, i) && log.is_event(i, id)
                &&& forall|i: int|
                    0 <= i < log.events.len() ==> (#[trigger] log.known(micros, i)
                        <==> log.events[i].seq <= id)
            },
            None => forall|i: int| !#[trigger] log.known(micros, i),
        },
{
    if exists|i: int| log.known(micros, i) {
        let i = choose|i: int| log.known(micros, i);
        let r = last_of_first(log, micros, log.events.len() as int, i);
        assert(log.last_known(micros, r));
        last_known_is_unique(log, micros, r);
        assert(log.known(micros, r) && log.is_event(r, log.events[r].seq));
        assert forall|i: int| 0 <= i < log.events.len() implies (#[trigger] log.known(micros, i)
            <==> log.events[i].seq <= log.events[r].seq) by {
            if i < r {
                assert(log.events[i].ts <= log.events[r].ts);
                assert(log.events[i].seq < log.events[r].seq);
            } else if r < i {
                assert(log.events[r].seq < log.events[i].seq);
                assert(log.events[r].ts <= log.events[i].ts);
            }
        }
    } else {
        assert forall|i: int| !log.last_known(micros, i) by {
            assert(!log.known(micros, i));
        }
    }
}

/// Whether every row can be read.
pub open spec fn intact(log: LogView) -> bool {
    &&& forall|i: int| 0 <= i < log.events.len() ==> readable((#[trigger] log.events[i]).ts)
    &&& forall|i: int| 0 <= i < log.changes.len() ==> (#[trigger] log.changes[i]).assertion() is Ok
}

/// Where every row can be read, every event of the log has a time.
proof fn times_are_readable(log: LogView, id: u64)
    requires
        log.wf(),
        intact(log),
        log.has_event(id),
    ensures
        log.committed_at(id) is Ok,
{
    let e = choose|e: int| log.is_event(e, id);
    assert(log.is_event(e, id));
    event_is_unique(log, e, id);
    assert(readable(log.events[e].ts));
}

/// Where every row can be read, no read fails, but for those of events that the log
/// does not hold.
pub proof fn reads_of_an_intact_log_succeed(log: LogView, key: Seq<char>, cut: Cut, id: u64)
    requires
        log.wf(),
        intact(log),
    ensures
        log.read(key, cut) is Ok,
        log.blamed(key, cut) is Ok,
        log.state(cut) is Ok,
        log.history(key) is Ok,
        forall|valid: int| #[trigger] log.changes_at(cut.through, valid) ==> readable(valid),
        log.event(id) is Ok <==> log.has_event(id),
        log.committed_at(id) is Ok <==> log.has_event(id),
{
    let told = log.told(key);
    assert forall|change: ChangeView| #[trigger] told.changes.contains(change) implies log.recorded(
        change,
    ) is Ok by {
        filter_holds(
            log.changes,
            |change: ChangeView| change.key == key && log.has_event(change.seq),
            change,
        );
        times_are_readable(log, change.seq);
    }
    assert forall|name: Seq<char>| (#[trigger] log.in_force(name, cut)) matches Some(change)
        ==> log.changes.contains(change) by {
        in_force_is_the_greatest(log, name, cut);
    }
    assert forall|name: Seq<char>| #[trigger] log.value_readable(name, cut) by {
        if let Some(change) = log.in_force(name, cut) {
            assert(log.changes.contains(change));
            assert(change.assertion() is Ok);
            assert(encoded(change.raw.decoded()->Ok_0) == change.raw);
        }
    }
    if let Some(change) = log.in_force(key, cut) {
        assert(log.changes.contains(change));
        assert(change.assertion() is Ok);
    }
    told_is_in_order(log, key);
    in_force_is_the_greatest(told, key, cut);
    assert forall|i: int| 0 <= i < told.changes.len() implies log.recorded(
        #[trigger] told.changes[i],
    ) is Ok by {
        assert(told.changes.contains(told.changes[i]));
    }
    let its = log.changes_in(id);
    assert forall|i: int| 0 <= i < its.len() implies (#[trigger] its[i]).assertion() is Ok by {
        assert(its.contains(its[i]));
        log.changes.lemma_filter_contains_rev(|change: ChangeView| change.seq == id, its[i]);
        assert(log.changes.contains(its[i]));
    }
    assert forall|valid: int| #[trigger] log.changes_at(cut.through, valid) implies readable(valid) by {
        let i = choose|i: int|
            0 <= i < log.changes.len() && (#[trigger] log.changes[i]).valid == valid && reaches(
                cut.through,
                log.changes[i].seq,
            );
        assert(log.changes[i].assertion() is Ok);
    }
    if log.has_event(id) {
        times_are_readable(log, id);
    }
}

/// Between two valid times with no changepoint after the first and through the
/// second, reads do not change.
pub proof fn reads_change_only_at_changepoints(
    log: LogView,
    key: Seq<char>,
    through: Option<u64>,
    first: int,
    second: int,
)
    requires
        log.wf(),
        first <= second,
        forall|valid: int| first < valid <= second ==> !#[trigger] log.changes_at(through, valid),
    ensures
        ({
            let (early, late) = (
                Cut { through, valid: Some(first) },
                Cut { through, valid: Some(second) },
            );
            &&& log.in_force(key, early) == log.in_force(key, late)
            &&& log.read(key, early) == log.read(key, late)
            &&& log.blamed(key, early) == log.blamed(key, late)
        }),
{
    let (early, late) = (Cut { through, valid: Some(first) }, Cut { through, valid: Some(second) });
    let told = log.told(key);
    told_is_in_order(log, key);
    assert forall|change: ChangeView| offers(log, key, early, change) <==> #[trigger] offers(
        log,
        key,
        late,
        change,
    ) by {
        if offers(log, key, late, change) {
            let i = choose|i: int| 0 <= i < log.changes.len() && log.changes[i] == change;
            assert(log.changes_at(through, log.changes[i].valid));
        }
    }
    same_offers_same_force(log, early, log, late, key);
    assert forall|change: ChangeView| offers(told, key, early, change) <==> #[trigger] offers(
        told,
        key,
        late,
        change,
    ) by {
        told_offers(log, key, early, change);
        told_offers(log, key, late, change);
    }
    same_offers_same_force(told, early, told, late, key);
}

/// A key that a state lists was asserted.
pub proof fn a_listed_key_was_asserted(log: LogView, key: Seq<char>, cut: Cut)
    requires
        log.state(cut) is Ok,
        log.state(cut)->Ok_0.contains_key(key),
    ensures
        log.asserted(key),
{
    let i = choose|i: int| log.selected(key, cut, i);
    assert(log.selected(key, cut, i));
    assert(log.changes[i].key == key);
}

/// What `blame` names is in the history of the key.
pub proof fn what_is_blamed_was_recorded(log: LogView, key: Seq<char>, cut: Cut)
    requires
        log.wf(),
        log.history(key) is Ok,
    ensures
        log.blamed(key, cut) is Ok,
        log.blamed(key, cut) matches Ok(Some(recorded)) ==> log.history(key)->Ok_0.contains(
            recorded,
        ),
{
    let told = log.told(key);
    told_is_in_order(log, key);
    in_force_is_the_greatest(told, key, cut);
    if let Some(change) = told.in_force(key, cut) {
        let k = choose|k: int| 0 <= k < told.changes.len() && told.changes[k] == change;
        assert(log.recorded(told.changes[k]) is Ok);
        assert(log.history(key)->Ok_0[k] == log.recorded(change)->Ok_0);
    }
}

/// What the history of a key tells is what its events tell: each recorded assertion
/// is one of its event's, and is of that event's time.
pub proof fn histories_agree_with_events(log: LogView, key: Seq<char>, k: int)
    requires
        log.wf(),
        log.history(key) is Ok,
        0 <= k < log.history(key)->Ok_0.len(),
        log.event(log.history(key)->Ok_0[k].event_id) is Ok,
    ensures
        ({
            let recorded = log.history(key)->Ok_0[k];
            let event = log.event(recorded.event_id)->Ok_0;
            &&& recorded.assertion.key == key
            &&& recorded.committed_at == event.committed_at
            &&& event.assertions.contains(recorded.assertion)
        }),
{
    let mine = log.told(key).changes;
    assert(log.recorded(mine[k]) is Ok);
    let id = mine[k].seq;
    assert(log.history(key)->Ok_0[k] == log.recorded(mine[k])->Ok_0);
    assert(mine.contains(mine[k]));
    filter_holds(
        log.changes,
        |change: ChangeView| change.key == key && log.has_event(change.seq),
        mine[k],
    );
    let i = choose|i: int| 0 <= i < log.changes.len() && log.changes[i] == mine[k];
    let in_event = |change: ChangeView| change.seq == id;
    let its = log.changes_in(id);
    log.changes.lemma_filter_contains(in_event, i);
    let n = choose|n: int| 0 <= n < its.len() && its[n] == mine[k];
    assert(log.event(id)->Ok_0.assertions[n] == its[n].assertion()->Ok_0);
}

} // verus!
