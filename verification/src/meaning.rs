//! What each operation of a store answers, told by the rows alone.

use crate::coordinate::{Coordinate, EventId, TransactionCutoff, ValidCutoff};
use crate::database::{Handle, ReadOnly, ReadWrite, Snapshot};
use crate::delta::{a_difference_tells, deltas_view, difference, Delta};
use crate::error::Error;
use crate::keymap::{names, KeyMap};
use crate::log::{
    changepoints_read, history_view, Assertion, ChangeRow, Event, EventRow, Log, RecordedAssertion,
    State,
};
use crate::model::{
    event_is_unique, filter_holds, filter_keeps_order, last_known_is_unique, reaches, ChangeView,
    LogView, RecordedView,
};
use crate::raw::{forms_are_read, is_form_of, is_some_form};
use crate::reading::{
    in_force_is_the_greatest, offers, the_greatest_is_in_force, told_is_in_order, told_offers,
};
use crate::text::key_lt;
use crate::time::{truncated, Timestamp};
use crate::value::Value;
use vstd::prelude::*;

verus! {

/// Whether rows stand in order: event IDs ascend, and changes ascend by event, key and
/// valid time.
pub open spec fn rows_ascend(events: Seq<EventRow>, changes: Seq<ChangeRow>) -> bool {
    &&& forall|i: int, j: int|
        0 <= i < j < events.len() ==> (#[trigger] events[i]).seq < (#[trigger] events[j]).seq
    &&& forall|i: int, j: int|
        0 <= i < j < changes.len() ==> {
            let (a, b) = (#[trigger] changes[i], #[trigger] changes[j]);
            a.seq < b.seq || (a.seq == b.seq && (key_lt(a.key@, b.key@) || (a.key@ == b.key@
                && a.valid < b.valid)))
        }
}

/// Whether a log holds just the given rows, in their order.
pub open spec fn holds_rows(
    log: LogView,
    events: Seq<EventRow>,
    changes: Seq<ChangeRow>,
) -> bool {
    &&& log.events.len() == events.len()
    &&& forall|i: int|
        0 <= i < events.len() ==> (#[trigger] log.events[i]).seq == events[i].seq
            && log.events[i].ts == events[i].ts
    &&& log.changes.len() == changes.len()
    &&& forall|i: int|
        0 <= i < changes.len() ==> {
            let (a, b) = (#[trigger] log.changes[i], changes[i]);
            a.seq == b.seq && a.key == b.key@ && a.valid == b.valid && a.raw.kind == b.value.kind
                && a.raw.value == b.value.value@
        }
}

/// A store opens from any rows that stand in order, and holds them; rows that do not are
/// corrupt.
pub proof fn rows_in_order_are_opened(
    events: Vec<EventRow>,
    changes: Vec<ChangeRow>,
    log: Result<Log, Error>,
    database: Result<Handle<ReadWrite>, Error>,
    reader: Result<Handle<ReadOnly>, Error>,
)
    requires
        call_ensures(Log::from_rows, (events, changes), log),
        call_ensures(Handle::<ReadWrite>::open, (events, changes), database),
        call_ensures(Handle::<ReadOnly>::inspect, (events, changes), reader),
    ensures
        rows_ascend(events@, changes@) ==> {
            &&& log is Ok && holds_rows(log->Ok_0@, events@, changes@)
            &&& database is Ok && holds_rows(database->Ok_0@, events@, changes@)
            &&& reader is Ok && holds_rows(reader->Ok_0@, events@, changes@)
        },
        !rows_ascend(events@, changes@) ==> {
            &&& log == Err::<Log, Error>(Error::Corrupt)
            &&& database == Err::<Handle<ReadWrite>, Error>(Error::Corrupt)
            &&& reader == Err::<Handle<ReadOnly>, Error>(Error::Corrupt)
        },
{
    let view = crate::log::tables(events@, changes@);
    assert(holds_rows(view, events@, changes@));
    if rows_ascend(events@, changes@) {
        assert(view.wf()) by {
            assert forall|i: int, j: int| 0 <= i < j < view.changes.len() implies (
            #[trigger] view.changes[i]).before(#[trigger] view.changes[j]) by {
                assert(view.changes[i] == changes@[i]@ && view.changes[j] == changes@[j]@);
            }
        }
    }
    if view.wf() {
        assert forall|i: int, j: int| 0 <= i < j < events@.len() implies (#[trigger] events@[i]).seq
            < (#[trigger] events@[j]).seq by {
            assert(view.events[i].seq < view.events[j].seq);
        }
        assert forall|i: int, j: int| 0 <= i < j < changes@.len() implies {
            let (a, b) = (#[trigger] changes@[i], #[trigger] changes@[j]);
            a.seq < b.seq || (a.seq == b.seq && (key_lt(a.key@, b.key@) || (a.key@ == b.key@
                && a.valid < b.valid)))
        } by {
            assert(view.changes[i].before(view.changes[j]));
        }
    }
}

/// Whether microseconds can be read as a time.
pub open spec fn is_time(micros: int) -> bool {
    -377705023201000000 <= micros <= 253402207200000000
}

/// Whether the `i`th change is one for a key that a place includes: its event is not
/// after the last that is included, and neither is its valid time.
pub open spec fn within(log: LogView, key: Seq<char>, place: Coordinate, i: int) -> bool {
    &&& 0 <= i < log.changes.len()
    &&& log.changes[i].key == key
    &&& place.transaction matches TransactionCutoff::Through(last) && log.changes[i].seq <= last
    &&& place.valid matches ValidCutoff::Through(time) ==> log.changes[i].valid <= truncated(time@)
}

/// Whether the `i`th change is, of those for a key that a place includes, the one with
/// the greatest valid time, and with the greatest event ID for it.
pub open spec fn foremost(log: LogView, key: Seq<char>, place: Coordinate, i: int) -> bool {
    &&& within(log, key, place, i)
    &&& forall|j: int| #[trigger]
        within(log, key, place, j) ==> log.changes[j].valid < log.changes[i].valid || (
        log.changes[j].valid == log.changes[i].valid && log.changes[j].seq <= log.changes[i].seq)
}

/// Whether the `e`th event is that of the `i`th change.
pub open spec fn made_by(log: LogView, i: int, e: int) -> bool {
    0 <= e < log.events.len() && log.events[e].seq == log.changes[i].seq
}

/// Whether the `i`th change is the foremost of those whose event the log holds.
pub open spec fn foremost_made(log: LogView, key: Seq<char>, place: Coordinate, i: int) -> bool {
    &&& within(log, key, place, i)
    &&& exists|e: int| made_by(log, i, e)
    &&& forall|j: int| #[trigger]
        within(log, key, place, j) && (exists|e: int| made_by(log, j, e)) ==> log.changes[j].valid
            < log.changes[i].valid || (log.changes[j].valid == log.changes[i].valid
            && log.changes[j].seq <= log.changes[i].seq)
}

/// What a place includes is what its cutoffs admit.
proof fn within_is_offered(log: LogView, key: Seq<char>, place: Coordinate, i: int)
    requires
        0 <= i < log.changes.len(),
    ensures
        within(log, key, place, i) <==> offers(log, key, place@, log.changes[i]),
        (exists|e: int| made_by(log, i, e)) <==> log.has_event(log.changes[i].seq),
{
    assert(log.changes.contains(log.changes[i]));
    let seq = log.changes[i].seq;
    if log.has_event(seq) {
        let e = choose|e: int| log.is_event(e, seq);
        assert(log.is_event(e, seq));
        assert(made_by(log, i, e));
    }
    if exists|e: int| made_by(log, i, e) {
        let e = choose|e: int| made_by(log, i, e);
        assert(log.is_event(e, seq));
    }
}

/// The foremost change is in force, and without any none is.
proof fn the_foremost_is_in_force(log: LogView, key: Seq<char>, place: Coordinate)
    requires
        log.wf(),
    ensures
        forall|i: int| #[trigger]
            foremost(log, key, place, i) ==> log.in_force(key, place@) == Some(log.changes[i]),
        (forall|i: int| !#[trigger] within(log, key, place, i)) <==> log.in_force(key, place@) is None,
        log.in_force(key, place@) is Some ==> exists|i: int| #[trigger]
            foremost(log, key, place, i) && log.changes[i] == log.in_force(key, place@)->0,
{
    let cut = place@;
    in_force_is_the_greatest(log, key, cut);
    assert forall|i: int| #[trigger] foremost(log, key, place, i) implies log.in_force(key, cut)
        == Some(log.changes[i]) by {
        within_is_offered(log, key, place, i);
        assert forall|other: ChangeView| #[trigger] offers(log, key, cut, other) implies log.changes[i].overrides(
            other,
        ) by {
            let j = choose|j: int| 0 <= j < log.changes.len() && log.changes[j] == other;
            within_is_offered(log, key, place, j);
            assert(within(log, key, place, j));
        }
        the_greatest_is_in_force(log, key, cut, log.changes[i]);
    }
    if exists|i: int| within(log, key, place, i) {
        let i = choose|i: int| within(log, key, place, i);
        within_is_offered(log, key, place, i);
    }
    if let Some(change) = log.in_force(key, cut) {
        let i = choose|i: int| 0 <= i < log.changes.len() && log.changes[i] == change;
        within_is_offered(log, key, place, i);
        assert forall|j: int| #[trigger] within(log, key, place, j) implies log.changes[j].valid
            < log.changes[i].valid || (log.changes[j].valid == log.changes[i].valid
            && log.changes[j].seq <= log.changes[i].seq) by {
            within_is_offered(log, key, place, j);
        }
        assert(foremost(log, key, place, i));
    }
}

/// The foremost change whose event the log holds is in force of what is told with
/// events, and without any none is.
proof fn the_foremost_made_is_told(log: LogView, key: Seq<char>, place: Coordinate)
    requires
        log.wf(),
    ensures
        forall|i: int| #[trigger]
            foremost_made(log, key, place, i) ==> log.told(key).in_force(key, place@) == Some(
                log.changes[i],
            ),
        (forall|i: int|
            !(#[trigger] within(log, key, place, i) && exists|e: int| made_by(log, i, e)))
            ==> log.told(key).in_force(key, place@) is None,
{
    let cut = place@;
    let told = log.told(key);
    told_is_in_order(log, key);
    in_force_is_the_greatest(told, key, cut);
    assert forall|i: int| #[trigger] foremost_made(log, key, place, i) implies told.in_force(
        key,
        cut,
    ) == Some(log.changes[i]) by {
        within_is_offered(log, key, place, i);
        told_offers(log, key, cut, log.changes[i]);
        assert forall|other: ChangeView| #[trigger] offers(told, key, cut, other) implies log.changes[i].overrides(
            other,
        ) by {
            told_offers(log, key, cut, other);
            let j = choose|j: int| 0 <= j < log.changes.len() && log.changes[j] == other;
            within_is_offered(log, key, place, j);
            assert(within(log, key, place, j));
        }
        the_greatest_is_in_force(told, key, cut, log.changes[i]);
    }
    if let Some(change) = told.in_force(key, cut) {
        told_offers(log, key, cut, change);
        let j = choose|j: int| 0 <= j < log.changes.len() && log.changes[j] == change;
        within_is_offered(log, key, place, j);
        assert(within(log, key, place, j) && exists|e: int| made_by(log, j, e));
    }
}

/// `get` reads the foremost change for the key, and nothing where there is none; a change
/// of no value's form is corrupt.
pub proof fn get_reads_the_foremost<'db>(
    snapshot: Snapshot<'db>,
    key: &str,
    r: Result<Option<Value>, Error>,
)
    requires
        call_ensures(Snapshot::<'db>::get, (&snapshot, key), r),
        snapshot@.log.wf(),
    ensures
        ({
            let (log, place) = (snapshot@.log, snapshot@.coordinate);
            &&& (forall|i: int| !#[trigger] within(log, key@, place, i)) ==> r == Ok::<
                Option<Value>,
                Error,
            >(None)
            &&& forall|i: int| #[trigger]
                foremost(log, key@, place, i) ==> if is_some_form(log.changes[i].raw) {
                    r is Ok && is_form_of(log.changes[i].raw, r->Ok_0)
                } else {
                    r == Err::<Option<Value>, Error>(Error::Corrupt)
                }
        }),
{
    let (log, place) = (snapshot@.log, snapshot@.coordinate);
    the_foremost_is_in_force(log, key@, place);
    if let Some(change) = log.in_force(key@, place@) {
        forms_are_read(change.raw, r);
    }
}

/// Whether a recorded assertion is what the `i`th change and its event, the `e`th, say.
pub open spec fn tells(log: LogView, i: int, e: int, recorded: RecordedAssertion) -> bool {
    let (change, event) = (log.changes[i], log.events[e]);
    &&& recorded.event_id == change.seq
    &&& recorded.committed_at@ == event.ts * 1000
    &&& recorded.assertion.key@ == change.key
    &&& recorded.assertion.valid_from@ == change.valid * 1000
    &&& is_form_of(change.raw, recorded.assertion.value)
}

/// Whether the `i`th change and its event, the `e`th, can be read.
pub open spec fn can_be_told(log: LogView, i: int, e: int) -> bool {
    is_time(log.events[e].ts) && is_time(log.changes[i].valid) && is_some_form(log.changes[i].raw)
}

/// What is recorded of a change is what it and its event say.
proof fn a_change_is_told(
    log: LogView,
    i: int,
    e: int,
    r: Result<RecordedAssertion, Error>,
)
    requires
        log.wf(),
        0 <= i < log.changes.len(),
        made_by(log, i, e),
        match r {
            Ok(recorded) => log.recorded(log.changes[i]) == Ok::<RecordedView, Error>(recorded@),
            Err(error) => log.recorded(log.changes[i]) == Err::<RecordedView, Error>(error),
        },
    ensures
        if can_be_told(log, i, e) {
            r is Ok && tells(log, i, e, r->Ok_0)
        } else {
            r == Err::<RecordedAssertion, Error>(Error::Corrupt)
        },
{
    let change = log.changes[i];
    assert(log.is_event(e, change.seq));
    event_is_unique(log, e, change.seq);
    let value: Result<Option<Value>, Error> = match r {
        Ok(recorded) => Ok(recorded.assertion.value),
        Err(_) => Err(Error::Corrupt),
    };
    if r is Ok || change.raw.decoded() is Err {
        forms_are_read(change.raw, value);
    } else if !is_some_form(change.raw) {
        crate::raw::decoded_is_written_back(change.raw);
    }
}

/// `blame` names the foremost change for the key whose event the log holds, with that
/// event, and nothing where there is none.
pub proof fn blame_names_the_foremost<'db>(
    snapshot: Snapshot<'db>,
    key: &str,
    r: Result<Option<RecordedAssertion>, Error>,
)
    requires
        call_ensures(Snapshot::<'db>::blame, (&snapshot, key), r),
        snapshot@.log.wf(),
    ensures
        ({
            let (log, place) = (snapshot@.log, snapshot@.coordinate);
            &&& (forall|i: int|
                !(#[trigger] within(log, key@, place, i) && exists|e: int| made_by(log, i, e)))
                ==> r == Ok::<Option<RecordedAssertion>, Error>(None)
            &&& forall|i: int, e: int| #[trigger]
                foremost_made(log, key@, place, i) && #[trigger] made_by(log, i, e)
                    ==> if can_be_told(log, i, e) {
                    r is Ok && r->Ok_0 is Some && tells(log, i, e, r->Ok_0->0)
                } else {
                    r == Err::<Option<RecordedAssertion>, Error>(Error::Corrupt)
                }
        }),
{
    let (log, place) = (snapshot@.log, snapshot@.coordinate);
    the_foremost_made_is_told(log, key@, place);
    assert forall|i: int, e: int| #[trigger]
        foremost_made(log, key@, place, i) && #[trigger] made_by(log, i, e) implies if can_be_told(
        log,
        i,
        e,
    ) {
        r is Ok && r->Ok_0 is Some && tells(log, i, e, r->Ok_0->0)
    } else {
        r == Err::<Option<RecordedAssertion>, Error>(Error::Corrupt)
    } by {
        let told: Result<RecordedAssertion, Error> = match r {
            Ok(Some(recorded)) => Ok(recorded),
            Ok(None) => Err(Error::Corrupt),
            Err(error) => Err(error),
        };
        assert(log.told(key@).in_force(key@, place@) == Some(log.changes[i]));
        a_change_is_told(log, i, e, told);
    }
}

/// A state has a key just if the foremost change for it is no deletion, and then the
/// value of that change; there is none just if such a change is of no value's form.
pub proof fn state_lists_the_foremost<'db>(
    snapshot: Snapshot<'db>,
    r: Result<State, Error>,
    key: Seq<char>,
)
    requires
        call_ensures(Snapshot::<'db>::state, (&snapshot,), r),
        snapshot@.log.wf(),
    ensures
        ({
            let (log, place) = (snapshot@.log, snapshot@.coordinate);
            &&& r is Ok && (forall|i: int| !#[trigger] within(log, key, place, i))
                ==> !r->Ok_0@.contains_key(key)
            &&& forall|i: int| #[trigger]
                foremost(log, key, place, i) ==> {
                    &&& log.changes[i].raw.kind != 4 && !is_some_form(log.changes[i].raw) ==> r
                        == Err::<State, Error>(Error::Corrupt)
                    &&& r is Ok ==> (r->Ok_0@.contains_key(key) <==> log.changes[i].raw.kind != 4)
                    &&& r is Ok && r->Ok_0@.contains_key(key) ==> is_form_of(
                        log.changes[i].raw,
                        Some(r->Ok_0@[key]),
                    )
                }
            &&& r matches Err(e) ==> e == Error::Corrupt && exists|name: Seq<char>, i: int| #[trigger]
                foremost(log, name, place, i) && log.changes[i].raw.kind != 4 && !is_some_form(
                    log.changes[i].raw,
                )
        }),
{
    let (log, place) = (snapshot@.log, snapshot@.coordinate);
    the_foremost_is_in_force(log, key, place);
    if r is Ok {
        let state = r->Ok_0@;
        assert(crate::log::values_view(state).contains_key(key) <==> state.contains_key(key));
        assert(log.value_readable(key, place@));
    }
    assert forall|i: int| #[trigger] foremost(log, key, place, i) implies {
        &&& log.changes[i].raw.kind != 4 && !is_some_form(log.changes[i].raw) ==> r == Err::<
            State,
            Error,
        >(Error::Corrupt)
        &&& r is Ok ==> (r->Ok_0@.contains_key(key) <==> log.changes[i].raw.kind != 4)
        &&& r is Ok && r->Ok_0@.contains_key(key) ==> is_form_of(
            log.changes[i].raw,
            Some(r->Ok_0@[key]),
        )
    } by {
        let raw = log.changes[i].raw;
        assert(log.in_force(key, place@) == Some(log.changes[i]));
        if raw.kind != 4 && !is_some_form(raw) {
            if raw.decoded() is Ok {
                crate::raw::decoded_is_written_back(raw);
            }
            assert(!log.value_readable(key, place@));
        }
        if r is Ok && r->Ok_0@.contains_key(key) {
            let value = r->Ok_0@[key];
            assert(crate::log::values_view(r->Ok_0@)[key] == value@);
            forms_are_read(raw, Ok::<Option<Value>, Error>(Some(value)));
        }
    }
    if r is Err {
        assert(!log.state_readable(place@));
        let name = choose|name: Seq<char>| !#[trigger] log.value_readable(name, place@);
        the_foremost_is_in_force(log, name, place);
        let i = choose|i: int| #[trigger]
            foremost(log, name, place, i) && log.changes[i] == log.in_force(name, place@)->0;
        let raw = log.changes[i].raw;
        if is_some_form(raw) {
            a_form_is_decoded(raw);
        }
        assert(foremost(log, name, place, i));
    }
}

/// A form of a value that is no deletion is decoded to a value.
proof fn a_form_is_decoded(raw: crate::raw::RawView)
    requires
        is_some_form(raw),
        raw.kind != 4,
    ensures
        raw.decoded_present() is Ok,
{
    let r: Result<Option<Value>, Error> = Err(Error::Corrupt);
    if raw.decoded() is Err {
        forms_are_read(raw, r);
    } else {
        crate::raw::decoded_is_written_back(raw);
    }
}

/// The snapshot at an event is at its ID and at the time of its row; there is none at an
/// ID that no event has, nor where the row's time cannot be read.
pub proof fn at_stands_at_the_event<'a, Access>(
    store: &'a Handle<Access>,
    id: EventId,
    r: Result<Snapshot<'a>, Error>,
)
    requires
        call_ensures(Handle::<Access>::at, (store, id), r),
        store@.wf(),
    ensures
        forall|i: int|
            0 <= i < store@.events.len() && (#[trigger] store@.events[i]).seq == id ==> if is_time(
                store@.events[i].ts,
            ) {
                &&& r is Ok
                &&& r->Ok_0@.log == store@
                &&& r->Ok_0@.coordinate.transaction == TransactionCutoff::Through(id)
                &&& r->Ok_0@.coordinate.valid is Through
                &&& r->Ok_0@.coordinate.valid->Through_0@ == store@.events[i].ts * 1000
            } else {
                r == Err::<Snapshot<'a>, Error>(Error::Corrupt)
            },
        (forall|i: int| 0 <= i < store@.events.len() ==> (#[trigger] store@.events[i]).seq != id)
            ==> r == Err::<Snapshot<'a>, Error>(
            Error::OutOfRange { id, len: store@.events.len() as u64 },
        ),
{
    let log = store@;
    assert forall|i: int| 0 <= i < log.events.len() && (#[trigger] log.events[i]).seq == id implies log.time_of(
        id,
    ) == Some(log.events[i].ts) by {
        assert(log.is_event(i, id));
        event_is_unique(log, i, id);
    }
    if log.has_event(id) {
        let i = choose|i: int| log.is_event(i, id);
        assert(log.is_event(i, id));
        assert(log.events[i].seq == id);
    }
}

/// The snapshot at a time is at the event with the greatest commit time that is not
/// after it, and of those with the greatest ID, or before the first where there is none;
/// and at that time.
pub proof fn known_at_stands_at_the_last_known<'a, Access>(
    store: &'a Handle<Access>,
    time: Timestamp,
    r: Result<Snapshot<'a>, Error>,
)
    requires
        call_ensures(Handle::<Access>::known_at, (store, time), r),
        store@.wf(),
    ensures
        r is Ok,
        r->Ok_0@.log == store@,
        r->Ok_0@.coordinate.valid == ValidCutoff::Through(time),
        forall|i: int|
            0 <= i < store@.events.len() && (#[trigger] store@.events[i]).ts <= truncated(time@) && (
            forall|j: int|
                0 <= j < store@.events.len() && (#[trigger] store@.events[j]).ts <= truncated(time@)
                    ==> store@.events[j].ts < store@.events[i].ts || (store@.events[j].ts
                    == store@.events[i].ts && store@.events[j].seq <= store@.events[i].seq))
                ==> r->Ok_0@.coordinate.transaction == TransactionCutoff::Through(
                store@.events[i].seq,
            ),
        (forall|i: int|
            0 <= i < store@.events.len() ==> (#[trigger] store@.events[i]).ts > truncated(time@))
            ==> r->Ok_0@.coordinate.transaction == TransactionCutoff::BeforeFirst,
{
    let log = store@;
    let micros = truncated(time@);
    assert forall|i: int|
        0 <= i < log.events.len() && (#[trigger] log.events[i]).ts <= micros && (forall|j: int|
            0 <= j < log.events.len() && (#[trigger] log.events[j]).ts <= micros ==> log.events[j].ts
                < log.events[i].ts || (log.events[j].ts == log.events[i].ts && log.events[j].seq
                <= log.events[i].seq)) implies log.known_at(micros) == Some(log.events[i].seq) by {
        assert(log.last_known(micros, i)) by {
            assert forall|j: int| #[trigger] log.known(micros, j) implies log.events[j].ts
                < log.events[i].ts || (log.events[j].ts == log.events[i].ts && log.events[j].seq
                <= log.events[i].seq) by {
                assert(log.events[j].ts <= micros);
            }
        }
        last_known_is_unique(log, micros, i);
    }
    if forall|i: int| 0 <= i < log.events.len() ==> (#[trigger] log.events[i]).ts > micros {
        assert forall|i: int| !log.last_known(micros, i) by {
            if log.known(micros, i) {
                assert(log.events[i].ts > micros);
            }
        }
    }
}

/// The latest snapshot is at the event with the greatest ID, or before the first where
/// there is none; and at the time that the system clock shows in that call, whatever the
/// log holds.
pub proof fn latest_stands_at_the_clock<'a, Access>(
    store: &'a Handle<Access>,
    r: Result<Snapshot<'a>, Error>,
)
    requires
        call_ensures(Handle::<Access>::latest, (store,), r),
        store@.wf(),
    ensures
        r is Ok,
        r->Ok_0@.log == store@,
        store@.events.len() == 0 ==> r->Ok_0@.coordinate.transaction
            == TransactionCutoff::BeforeFirst,
        store@.events.len() > 0 ==> r->Ok_0@.coordinate.transaction is Through,
        store@.events.len() > 0 ==> exists|i: int|
            0 <= i < store@.events.len() && (#[trigger] store@.events[i]).seq
                == r->Ok_0@.coordinate.transaction->Through_0,
        forall|i: int|
            0 <= i < store@.events.len() ==> (#[trigger] store@.events[i]).seq
                <= r->Ok_0@.coordinate.transaction->Through_0,
        r->Ok_0@.coordinate.valid is Through,
        call_ensures(Timestamp::now, (), r->Ok_0@.coordinate.valid->Through_0),
        r->Ok_0@.coordinate.valid->Through_0.is_clock_reading(),
{
    let log = store@;
    if log.events.len() > 0 {
        let last = log.events.len() - 1;
        assert(log.events[last].seq == log.latest()->0);
        assert forall|i: int| 0 <= i < log.events.len() implies (#[trigger] log.events[i]).seq
            <= log.events[last].seq by {
            if i < last {
                assert(log.events[i].seq < log.events[last].seq);
            }
        }
    }
}

/// The latest snapshot with a time given is at the event with the greatest ID, and at
/// that time.
pub proof fn latest_at_stands_at_the_time<'a, Access>(
    store: &'a Handle<Access>,
    now: Timestamp,
    r: Result<Snapshot<'a>, Error>,
)
    requires
        call_ensures(Handle::<Access>::latest_at, (store, now), r),
        store@.wf(),
    ensures
        r is Ok,
        r->Ok_0@.log == store@,
        store@.events.len() == 0 ==> r->Ok_0@.coordinate.transaction
            == TransactionCutoff::BeforeFirst,
        store@.events.len() > 0 ==> r->Ok_0@.coordinate.transaction == TransactionCutoff::Through(
            store@.events[store@.events.len() - 1].seq,
        ),
        r->Ok_0@.coordinate.valid == ValidCutoff::Through(now),
{
}

/// Whether an assertion is what the `i`th change says.
pub open spec fn says(log: LogView, i: int, assertion: Assertion) -> bool {
    &&& assertion.key@ == log.changes[i].key
    &&& assertion.valid_from@ == log.changes[i].valid * 1000
    &&& is_form_of(log.changes[i].raw, assertion.value)
}

/// Whether the `i`th change can be read.
pub open spec fn can_be_said(log: LogView, i: int) -> bool {
    is_time(log.changes[i].valid) && is_some_form(log.changes[i].raw)
}

/// A change that can be read makes the assertion that it says.
proof fn a_change_is_said(log: LogView, i: int)
    ensures
        log.changes[i].assertion() is Ok <==> can_be_said(log, i),
        log.changes[i].assertion() matches Err(e) ==> e == Error::Corrupt,
        forall|assertion: Assertion|
            log.changes[i].assertion() == Ok::<_, Error>(#[trigger] assertion@) ==> says(
                log,
                i,
                assertion,
            ),
{
    let raw = log.changes[i].raw;
    let none: Result<Option<Value>, Error> = Err(Error::Corrupt);
    if raw.decoded() is Err {
        forms_are_read(raw, none);
    } else {
        crate::raw::decoded_is_written_back(raw);
    }
    assert forall|assertion: Assertion|
        log.changes[i].assertion() == Ok::<_, Error>(#[trigger] assertion@) implies says(
        log,
        i,
        assertion,
    ) by {
        forms_are_read(raw, Ok::<Option<Value>, Error>(assertion.value));
    }
}

/// A change that a filter keeps is one of the log's.
proof fn the_index_of(changes: Seq<ChangeView>, keep: spec_fn(ChangeView) -> bool, k: int) -> (i: int)
    requires
        0 <= k < changes.filter(keep).len(),
    ensures
        0 <= i < changes.len(),
        changes[i] == changes.filter(keep)[k],
        keep(changes[i]),
{
    let some = changes.filter(keep);
    assert(some.contains(some[k]));
    filter_holds(changes, keep, some[k]);
    choose|i: int| 0 <= i < changes.len() && changes[i] == some[k]
}

/// A change that passes a filter is kept by it.
proof fn the_index_in(changes: Seq<ChangeView>, keep: spec_fn(ChangeView) -> bool, i: int) -> (k: int)
    requires
        0 <= i < changes.len(),
        keep(changes[i]),
    ensures
        0 <= k < changes.filter(keep).len(),
        changes.filter(keep)[k] == changes[i],
{
    let some = changes.filter(keep);
    assert(changes.contains(changes[i]));
    filter_holds(changes, keep, changes[i]);
    choose|k: int| 0 <= k < some.len() && some[k] == changes[i]
}

/// An event is read with its ID and the time of its row, if that and each of its changes
/// can be read, and else is corrupt.
pub proof fn an_event_is_read<Access>(
    store: &Handle<Access>,
    id: EventId,
    r: Result<Event, Error>,
    e: int,
)
    requires
        call_ensures(Handle::<Access>::event, (store, id), r),
        store@.wf(),
        0 <= e < store@.events.len(),
        store@.events[e].seq == id,
    ensures
        r is Ok <==> is_time(store@.events[e].ts) && forall|i: int|
            0 <= i < store@.changes.len() && (#[trigger] store@.changes[i]).seq == id
                ==> can_be_said(store@, i),
        r matches Ok(event) ==> event.id == id && event.committed_at@ == store@.events[e].ts * 1000,
        r matches Err(error) ==> error == Error::Corrupt,
{
    let log = store@;
    let keep = |change: ChangeView| change.seq == id;
    let its = log.changes_in(id);
    assert(log.is_event(e, id));
    event_is_unique(log, e, id);
    if r is Ok {
        assert forall|i: int| 0 <= i < log.changes.len() && (#[trigger] log.changes[i]).seq == id implies can_be_said(
            log,
            i,
        ) by {
            let k = the_index_in(log.changes, keep, i);
            assert(its[k].assertion() is Ok);
            a_change_is_said(log, i);
        }
    } else if is_time(log.events[e].ts) {
        let k = choose|k: int| 0 <= k < its.len() && (#[trigger] its[k]).assertion() is Err;
        let i = the_index_of(log.changes, keep, k);
        a_change_is_said(log, i);
    }
}

/// There is no event of an ID that no row has.
pub proof fn no_other_event_is_read<Access>(
    store: &Handle<Access>,
    id: EventId,
    r: Result<Event, Error>,
)
    requires
        call_ensures(Handle::<Access>::event, (store, id), r),
        forall|e: int| 0 <= e < store@.events.len() ==> (#[trigger] store@.events[e]).seq != id,
    ensures
        r == Err::<Event, Error>(Error::OutOfRange { id, len: store@.events.len() as u64 }),
{
    if store@.has_event(id) {
        let e = choose|e: int| store@.is_event(e, id);
        assert(store@.is_event(e, id));
    }
}

/// An assertion of an event that was read is what its place among the changes says.
proof fn its_assertions<Access>(store: &Handle<Access>, id: EventId, event: Event, k: int)
    requires
        call_ensures(Handle::<Access>::event, (store, id), Ok(event)),
    ensures
        event.assertions@.len() == store@.changes_in(id).len(),
        0 <= k < event.assertions@.len() ==> store@.changes_in(id)[k].assertion() == Ok::<_, Error>(
            event.assertions@[k]@,
        ),
{
    let its = store@.changes_in(id);
    assert(event@.assertions == its.map_values(|change: ChangeView| change.assertion()->Ok_0));
    assert(event@.assertions.len() == event.assertions@.len());
    if 0 <= k < event.assertions@.len() {
        assert(event@.assertions[k] == event.assertions@[k]@);
        assert(its[k].assertion() is Ok);
    }
}

/// Each change of an event is one of its assertions.
pub proof fn each_change_is_asserted<Access>(
    store: &Handle<Access>,
    id: EventId,
    event: Event,
    i: int,
) -> (k: int)
    requires
        call_ensures(Handle::<Access>::event, (store, id), Ok(event)),
        0 <= i < store@.changes.len(),
        store@.changes[i].seq == id,
    ensures
        0 <= k < event.assertions@.len(),
        says(store@, i, event.assertions@[k]),
{
    let k = the_index_in(store@.changes, |change: ChangeView| change.seq == id, i);
    its_assertions(store, id, event, k);
    a_change_is_said(store@, i);
    k
}

/// Each assertion of an event is one of its changes.
pub proof fn each_assertion_is_of_a_change<Access>(
    store: &Handle<Access>,
    id: EventId,
    event: Event,
    k: int,
) -> (i: int)
    requires
        call_ensures(Handle::<Access>::event, (store, id), Ok(event)),
        0 <= k < event.assertions@.len(),
    ensures
        0 <= i < store@.changes.len(),
        store@.changes[i].seq == id,
        says(store@, i, event.assertions@[k]),
{
    its_assertions(store, id, event, k);
    let i = the_index_of(store@.changes, |change: ChangeView| change.seq == id, k);
    a_change_is_said(store@, i);
    i
}

/// The assertions of an event ascend by key, and by valid time for one key.
pub proof fn assertions_ascend<Access>(
    store: &Handle<Access>,
    id: EventId,
    event: Event,
    a: int,
    b: int,
)
    requires
        call_ensures(Handle::<Access>::event, (store, id), Ok(event)),
        store@.wf(),
        0 <= a < b < event.assertions@.len(),
    ensures
        ({
            let (x, y) = (event.assertions@[a], event.assertions@[b]);
            key_lt(x.key@, y.key@) || (x.key@ == y.key@ && x.valid_from@ < y.valid_from@)
        }),
{
    let keep = |change: ChangeView| change.seq == id;
    let its = store@.changes_in(id);
    filter_keeps_order(store@.changes, keep);
    its_assertions(store, id, event, a);
    its_assertions(store, id, event, b);
    assert(its[a].before(its[b]));
    let i = the_index_of(store@.changes, keep, a);
    let j = the_index_of(store@.changes, keep, b);
}

/// Each change is of one of the keys of its store.
pub proof fn each_changes_key_is_listed<Access>(
    store: &Handle<Access>,
    keys: Vec<String>,
    i: int,
) -> (k: int)
    requires
        call_ensures(Handle::<Access>::keys, (store,), Ok(keys)),
        0 <= i < store@.changes.len(),
    ensures
        0 <= k < keys@.len(),
        keys@[k]@ == store@.changes[i].key,
{
    let key = store@.changes[i].key;
    assert(store@.asserted(key));
    assert(names(keys@, key));
    choose|k: int| 0 <= k < keys@.len() && (#[trigger] keys@[k])@ == key
}

/// Each key of a store is that of one of its changes; and the keys are always read, and
/// ascend.
pub proof fn each_key_is_of_a_change<Access>(
    store: &Handle<Access>,
    r: Result<Vec<String>, Error>,
    k: int,
) -> (i: int)
    requires
        call_ensures(Handle::<Access>::keys, (store,), r),
    ensures
        r is Ok,
        0 <= k < r->Ok_0@.len() ==> 0 <= i < store@.changes.len() && store@.changes[i].key
            == r->Ok_0@[k]@,
        0 < k < r->Ok_0@.len() ==> key_lt(r->Ok_0@[k - 1]@, r->Ok_0@[k]@),
{
    let keys = r->Ok_0@;
    if 0 <= k < keys.len() {
        assert(names(keys, keys[k]@));
        assert(store@.asserted(keys[k]@));
    }
    choose|i: int| 0 <= i < store@.changes.len() && (#[trigger] store@.changes[i]).key == keys[k]@
}

/// A history that was read tells the changes of the key in their order.
proof fn its_history<Access>(
    store: &Handle<Access>,
    key: &str,
    history: Vec<RecordedAssertion>,
    k: int,
)
    requires
        call_ensures(Handle::<Access>::history, (store, key), Ok(history)),
    ensures
        history@.len() == store@.told(key@).changes.len(),
        0 <= k < history@.len() ==> store@.recorded(store@.told(key@).changes[k]) == Ok::<
            RecordedView,
            Error,
        >(history@[k]@),
{
    let log = store@;
    let told = log.told(key@).changes;
    let view = history_view(Ok(history))->Ok_0;
    assert(view == told.map_values(|change: ChangeView| log.recorded(change)->Ok_0));
    assert(view.len() == history@.len());
    if 0 <= k < history@.len() {
        assert(view[k] == history@[k]@);
        assert(log.recorded(told[k]) is Ok);
    }
}

/// A change is recorded just if it and its event can be read.
proof fn a_change_is_told_or_not(log: LogView, i: int, e: int)
    requires
        log.wf(),
        0 <= i < log.changes.len(),
        made_by(log, i, e),
    ensures
        log.recorded(log.changes[i]) is Ok <==> can_be_told(log, i, e),
{
    assert(log.is_event(e, log.changes[i].seq));
    event_is_unique(log, e, log.changes[i].seq);
    a_change_is_said(log, i);
}

/// A history is read just if each change of the key whose event the log holds can be
/// read, and else is corrupt.
pub proof fn a_history_is_read<Access>(
    store: &Handle<Access>,
    key: &str,
    r: Result<Vec<RecordedAssertion>, Error>,
)
    requires
        call_ensures(Handle::<Access>::history, (store, key), r),
        store@.wf(),
    ensures
        r is Ok <==> forall|i: int, e: int|
            0 <= i < store@.changes.len() && store@.changes[i].key == key@ && #[trigger] made_by(
                store@,
                i,
                e,
            ) ==> can_be_told(store@, i, e),
        r matches Err(error) ==> error == Error::Corrupt,
{
    let log = store@;
    let keep = |change: ChangeView| change.key == key@ && log.has_event(change.seq);
    let told = log.told(key@).changes;
    if r is Ok {
        assert forall|i: int, e: int|
            0 <= i < log.changes.len() && log.changes[i].key == key@ && #[trigger] made_by(log, i, e) implies can_be_told(
            log,
            i,
            e,
        ) by {
            assert(log.is_event(e, log.changes[i].seq));
            let k = the_index_in(log.changes, keep, i);
            assert(log.recorded(told[k]) is Ok);
            a_change_is_told_or_not(log, i, e);
        }
    } else {
        let k = choose|k: int| 0 <= k < told.len() && log.recorded(#[trigger] told[k]) is Err;
        let i = the_index_of(log.changes, keep, k);
        let e = choose|e: int| log.is_event(e, log.changes[i].seq);
        assert(log.is_event(e, log.changes[i].seq));
        assert(made_by(log, i, e));
        a_change_is_told_or_not(log, i, e);
    }
}

/// Each change of a key whose event the log holds is told in its history.
pub proof fn each_change_is_told<Access>(
    store: &Handle<Access>,
    key: &str,
    history: Vec<RecordedAssertion>,
    i: int,
    e: int,
) -> (k: int)
    requires
        call_ensures(Handle::<Access>::history, (store, key), Ok(history)),
        store@.wf(),
        0 <= i < store@.changes.len(),
        store@.changes[i].key == key@,
        made_by(store@, i, e),
    ensures
        0 <= k < history@.len(),
        tells(store@, i, e, history@[k]),
{
    let log = store@;
    assert(log.is_event(e, log.changes[i].seq));
    let k = the_index_in(
        log.changes,
        |change: ChangeView| change.key == key@ && log.has_event(change.seq),
        i,
    );
    its_history(store, key, history, k);
    a_change_is_told(log, i, e, Ok(history@[k]));
    k
}

/// What a history tells is a change of the key and its event.
pub proof fn what_is_told_is_of_a_change<Access>(
    store: &Handle<Access>,
    key: &str,
    history: Vec<RecordedAssertion>,
    k: int,
) -> (r: (int, int))
    requires
        call_ensures(Handle::<Access>::history, (store, key), Ok(history)),
        store@.wf(),
        0 <= k < history@.len(),
    ensures
        0 <= r.0 < store@.changes.len(),
        store@.changes[r.0].key == key@,
        made_by(store@, r.0, r.1),
        tells(store@, r.0, r.1, history@[k]),
{
    let log = store@;
    its_history(store, key, history, k);
    let i = the_index_of(
        log.changes,
        |change: ChangeView| change.key == key@ && log.has_event(change.seq),
        k,
    );
    let e = choose|e: int| log.is_event(e, log.changes[i].seq);
    assert(log.is_event(e, log.changes[i].seq));
    a_change_is_told(log, i, e, Ok(history@[k]));
    (i, e)
}

/// A history ascends by event, and by valid time for one event.
pub proof fn a_history_ascends<Access>(
    store: &Handle<Access>,
    key: &str,
    history: Vec<RecordedAssertion>,
    a: int,
    b: int,
)
    requires
        call_ensures(Handle::<Access>::history, (store, key), Ok(history)),
        store@.wf(),
        0 <= a < b < history@.len(),
    ensures
        ({
            let (x, y) = (history@[a], history@[b]);
            x.event_id < y.event_id || (x.event_id == y.event_id && x.assertion.valid_from@
                < y.assertion.valid_from@)
        }),
{
    let log = store@;
    let keep = |change: ChangeView| change.key == key@ && log.has_event(change.seq);
    let told = log.told(key@).changes;
    filter_keeps_order(log.changes, keep);
    its_history(store, key, history, a);
    its_history(store, key, history, b);
    assert(told[a].before(told[b]));
    let i = the_index_of(log.changes, keep, a);
    let j = the_index_of(log.changes, keep, b);
    crate::text::key_lt_irreflexive(key@);
}

/// Whether the `i`th change is of an event that a cutoff includes.
pub open spec fn included(log: LogView, cutoff: TransactionCutoff, i: int) -> bool {
    &&& 0 <= i < log.changes.len()
    &&& cutoff matches TransactionCutoff::Through(last) && log.changes[i].seq <= last
}

/// The changepoints are read just if the valid times of the changes of the included
/// events can be, and else are corrupt.
pub proof fn changepoints_are_read<'db>(snapshot: Snapshot<'db>, r: Result<Vec<Timestamp>, Error>)
    requires
        call_ensures(Snapshot::<'db>::changepoints, (&snapshot,), r),
    ensures
        r is Ok <==> forall|i: int| #[trigger]
            included(snapshot@.log, snapshot@.coordinate.transaction, i) ==> is_time(
                snapshot@.log.changes[i].valid,
            ),
        r matches Err(error) ==> error == Error::Corrupt,
{
    let (log, cutoff) = (snapshot@.log, snapshot@.coordinate.transaction);
    let through = snapshot@.cut().through;
    assert(changepoints_read(r, log, through));
    if r is Ok {
        assert forall|i: int| #[trigger] included(log, cutoff, i) implies is_time(
            log.changes[i].valid,
        ) by {
            assert(log.changes_at(through, log.changes[i].valid));
        }
    } else {
        let valid = choose|valid: int| #[trigger]
            log.changes_at(through, valid) && !crate::time::readable(valid);
        let i = choose|i: int|
            0 <= i < log.changes.len() && (#[trigger] log.changes[i]).valid == valid && reaches(
                through,
                log.changes[i].seq,
            );
        assert(included(log, cutoff, i));
    }
}

/// The valid time of each change of the included events is a changepoint.
pub proof fn each_valid_time_is_a_changepoint<'db>(
    snapshot: Snapshot<'db>,
    points: Vec<Timestamp>,
    i: int,
) -> (k: int)
    requires
        call_ensures(Snapshot::<'db>::changepoints, (&snapshot,), Ok(points)),
        included(snapshot@.log, snapshot@.coordinate.transaction, i),
    ensures
        0 <= k < points@.len(),
        points@[k]@ == snapshot@.log.changes[i].valid * 1000,
{
    let log = snapshot@.log;
    let valid = log.changes[i].valid;
    assert(reaches(snapshot@.cut().through, log.changes[i].seq));
    assert(log.changes_at(snapshot@.cut().through, valid));
    choose|k: int| 0 <= k < points@.len() && (#[trigger] points@[k])@ == valid * 1000
}

/// Each changepoint is the valid time of a change of an included event, and they ascend.
pub proof fn each_changepoint_is_a_valid_time<'db>(
    snapshot: Snapshot<'db>,
    points: Vec<Timestamp>,
    k: int,
) -> (i: int)
    requires
        call_ensures(Snapshot::<'db>::changepoints, (&snapshot,), Ok(points)),
        0 <= k < points@.len(),
    ensures
        included(snapshot@.log, snapshot@.coordinate.transaction, i),
        points@[k]@ == snapshot@.log.changes[i].valid * 1000,
        k > 0 ==> points@[k - 1]@ < points@[k]@,
{
    let log = snapshot@.log;
    let through = snapshot@.cut().through;
    let valid = points@[k]@ / 1000;
    assert(log.changes_at(through, valid));
    choose|i: int|
        0 <= i < log.changes.len() && (#[trigger] log.changes[i]).valid == valid && reaches(
            through,
            log.changes[i].seq,
        )
}

/// A difference of two snapshots compares their states key by key: a key is missing from
/// it only if neither state has it, or both have it with the same value, or with floats
/// that are the same number.
pub proof fn snapshots_compare<'a, 'b>(
    one: Snapshot<'a>,
    other: Snapshot<'b>,
    before: Result<State, Error>,
    after: Result<State, Error>,
    r: Result<KeyMap<Delta>, Error>,
    key: Seq<char>,
)
    requires
        call_ensures(Snapshot::<'a>::state, (&one,), before),
        call_ensures(Snapshot::<'b>::state, (&other,), after),
        call_ensures(Snapshot::<'a>::diff, (&one, &other), r),
    ensures
        r is Ok <==> before is Ok && after is Ok,
        before matches Err(e) ==> r == Err::<KeyMap<Delta>, Error>(e),
        before is Ok && after is Err ==> r is Err && r->Err_0 == after->Err_0,
        r is Ok ==> {
            let (x, y, deltas) = (before->Ok_0@, after->Ok_0@, r->Ok_0@);
            &&& !x.contains_key(key) && !y.contains_key(key) ==> !deltas.contains_key(key)
            &&& !x.contains_key(key) && y.contains_key(key) ==> deltas.contains_key(key) && (
            deltas[key] matches Delta::Added(value) && value@ == y[key]@)
            &&& x.contains_key(key) && !y.contains_key(key) ==> deltas.contains_key(key) && (
            deltas[key] matches Delta::Removed(value) && value@ == x[key]@)
            &&& x.contains_key(key) && y.contains_key(key) && deltas.contains_key(key) ==> (
            deltas[key] matches Delta::Changed { before: first, after: second } && first@
                == x[key]@ && second@ == y[key]@)
            &&& x.contains_key(key) && y.contains_key(key) && !(x[key] is Float && y[key] is Float)
                ==> (deltas.contains_key(key) <==> x[key]@ != y[key]@)
            &&& x.contains_key(key) && y.contains_key(key) && x[key] is Float && y[key] is Float && {
                let (a, b) = (x[key]->Float_0, y[key]->Float_0);
                a != b && (a % 0x8000_0000_0000_0000 != 0 || b % 0x8000_0000_0000_0000 != 0)
            } ==> deltas.contains_key(key)
        },
{
    if r is Ok {
        let (x, y) = (
            crate::log::values_view(before->Ok_0@),
            crate::log::values_view(after->Ok_0@),
        );
        let deltas = deltas_view(r->Ok_0@);
        assert(deltas.contains_key(key) <==> r->Ok_0@.contains_key(key));
        assert(deltas == difference(x, y));
        a_difference_tells(x, y, key);
    }
}

/// A snapshot tells where it stands, and moves on the valid axis alone.
pub proof fn a_snapshot_moves_on_one_axis<'db>(
    snapshot: Snapshot<'db>,
    time: Timestamp,
    id: Option<EventId>,
    through: Option<Timestamp>,
    moved: Snapshot<'db>,
    free: Snapshot<'db>,
)
    requires
        call_ensures(Snapshot::<'db>::event_id, (&snapshot,), id),
        call_ensures(Snapshot::<'db>::valid_through, (&snapshot,), through),
        call_ensures(Snapshot::<'db>::valid_at, (snapshot, time), moved),
        call_ensures(Snapshot::<'db>::valid_unbounded, (snapshot,), free),
    ensures
        id is None <==> snapshot@.coordinate.transaction is BeforeFirst,
        id matches Some(last) ==> snapshot@.coordinate.transaction == TransactionCutoff::Through(
            last,
        ),
        through is None <==> snapshot@.coordinate.valid is Unbounded,
        through matches Some(last) ==> snapshot@.coordinate.valid == ValidCutoff::Through(last),
        moved@.log == snapshot@.log && free@.log == snapshot@.log,
        moved@.coordinate.transaction == snapshot@.coordinate.transaction,
        free@.coordinate.transaction == snapshot@.coordinate.transaction,
        moved@.coordinate.valid == ValidCutoff::Through(time),
        free@.coordinate.valid == ValidCutoff::Unbounded,
{
}

} // verus!
