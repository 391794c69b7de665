//! What a commit records and when it is refused, told by the writes and the rows alone.

use crate::committing::{a_commit_reads_back, committed};
use crate::coordinate::{EventId, TransactionCutoff, ValidCutoff};
use crate::database::{commit_at_micros, Snapshot};
use crate::error::Error;
use crate::log::{prepare, rows_view, ChangeRow, EventRow};
use crate::model::{holds_both, rows_of, LogView};
use crate::raw::encoded;
use crate::text::key_lt;
use crate::time::{truncated, Timestamp};
use crate::value::{Value, ValueView};
use crate::write::{
    is_resolution, the_last_write_is_kept, valid_time, what_is_kept_was_last, wins, writes_view,
    ResolvedView, Write, WriteView,
};
use vstd::prelude::*;

verus! {

/// Whether the `i`th write is the last for its key and valid time.
pub open spec fn is_last(writes: Seq<WriteView>, commit_micros: int, i: int) -> bool {
    &&& 0 <= i < writes.len()
    &&& forall|j: int|
        i < j < writes.len() ==> !((#[trigger] writes[j]).key == writes[i].key && valid_time(
            writes[j],
            commit_micros,
        ) == valid_time(writes[i], commit_micros))
}

/// A write that is the last for its key and valid time is kept.
proof fn the_last_wins(writes: Seq<WriteView>, micros: int, i: int)
    ensures
        is_last(writes, micros, i) <==> wins(writes, micros, i),
{
    if is_last(writes, micros, i) {
        assert forall|j: int| i < j < writes.len() implies !crate::write::same_slot(
            (#[trigger] writes[j]).resolved(micros),
            writes[i].resolved(micros),
        ) by {
            assert(writes[j].key != writes[i].key || valid_time(writes[j], micros) != valid_time(
                writes[i],
                micros,
            ));
        }
    }
    if wins(writes, micros, i) {
        assert forall|j: int| i < j < writes.len() implies !((#[trigger] writes[j]).key
            == writes[i].key && valid_time(writes[j], micros) == valid_time(writes[i], micros)) by {
            assert(!crate::write::same_slot(
                writes[j].resolved(micros),
                writes[i].resolved(micros),
            ));
        }
    }
}

/// A commit of at least one write succeeds, however many there are, if an event ID is
/// left, no written value is a float that is not a number, and every change of the log
/// belongs to one of its events. The event's ID is one above the latest, or one; and its
/// row is added after the others.
pub proof fn a_commit_succeeds(
    before: LogView,
    writes: Seq<WriteView>,
    micros: int,
    r: Result<EventId, Error>,
    after: LogView,
)
    requires
        commit_at_micros(before, writes, micros, r, after),
        before.wf(),
        writes.len() > 0,
        forall|e: int|
            0 <= e < before.events.len() ==> (#[trigger] before.events[e]).seq
                < 0x7fff_ffff_ffff_ffff,
        forall|i: int|
            0 <= i < writes.len() ==> ((#[trigger] writes[i]).value matches Some(
                ValueView::Float(bits),
            ) ==> bits % 0x8000_0000_0000_0000 <= 0x7ff0_0000_0000_0000),
        forall|n: int|
            0 <= n < before.changes.len() ==> exists|e: int|
                0 <= e < before.events.len() && (#[trigger] before.events[e]).seq == (
                #[trigger] before.changes[n]).seq,
    ensures
        r is Ok,
        before.events.len() == 0 ==> r->Ok_0 == 1,
        before.events.len() > 0 ==> r->Ok_0 == before.events[before.events.len() - 1].seq + 1,
        after.events.len() == before.events.len() + 1,
        after.events[before.events.len() as int].seq == r->Ok_0,
        after.events[before.events.len() as int].ts == micros,
        forall|e: int|
            0 <= e < before.events.len() ==> #[trigger] after.events[e] == before.events[e],
{
    let id = before.next_id();
    if before.events.len() > 0 {
        let last = before.events.len() - 1;
        assert(before.events[last].seq < 0x7fff_ffff_ffff_ffff);
        assert(before.latest() == Some(before.events[last].seq));
    }
    assert forall|i: int| #[trigger] wins(writes, micros, i) implies !(writes[i].value matches Some(
        value,
    ) && value.is_nan()) && !before.holds(id, writes[i].key, writes[i].resolved(micros).valid) by {
        if before.holds(id, writes[i].key, writes[i].resolved(micros).valid) {
            let n = choose|n: int|
                0 <= n < before.changes.len() && (#[trigger] before.changes[n]).seq == id
                    && before.changes[n].key == writes[i].key && before.changes[n].valid
                    == writes[i].resolved(micros).valid;
            let e = choose|e: int|
                0 <= e < before.events.len() && (#[trigger] before.events[e]).seq
                    == before.changes[n].seq;
            if e < before.events.len() - 1 {
                assert(before.events[e].seq < before.events[before.events.len() - 1].seq);
            }
        }
    }
    assert(before.refusal(writes, micros) is None);
}

/// A commit is refused as empty just if there is no write, and as full just if there is
/// one and no event ID is left. Otherwise it is refused only for a constraint: a write
/// that is the last for its key and valid time is a float that is not a number, or the
/// log holds a change of the next event for them. A commit that is refused leaves the log
/// as it was.
pub proof fn a_commit_is_refused(
    before: LogView,
    writes: Seq<WriteView>,
    micros: int,
    r: Result<EventId, Error>,
    after: LogView,
)
    requires
        commit_at_micros(before, writes, micros, r, after),
    ensures
        r is Err ==> after == before,
        r == Err::<EventId, Error>(Error::EmptyCommit) <==> writes.len() == 0,
        r == Err::<EventId, Error>(Error::Full) <==> writes.len() > 0 && before.events.len() > 0
            && before.events[before.events.len() - 1].seq >= 0x7fff_ffff_ffff_ffff,
        r matches Err(e) ==> e == Error::EmptyCommit || e == Error::Full || e == Error::Constraint,
        r == Err::<EventId, Error>(Error::Constraint) ==> exists|i: int| #[trigger]
            is_last(writes, micros, i) && ((writes[i].value matches Some(ValueView::Float(bits))
                && bits % 0x8000_0000_0000_0000 > 0x7ff0_0000_0000_0000) || exists|n: int|
                0 <= n < before.changes.len() && (#[trigger] before.changes[n]).key == writes[i].key
                    && before.changes[n].valid == valid_time(writes[i], micros)
                    && before.changes[n].seq == before.next_id()),
        forall|i: int| #[trigger]
            is_last(writes, micros, i) && (writes[i].value matches Some(ValueView::Float(bits))
                && bits % 0x8000_0000_0000_0000 > 0x7ff0_0000_0000_0000) ==> r is Err,
{
    if r == Err::<EventId, Error>(Error::Constraint) {
        if exists|i: int| #[trigger]
            wins(writes, micros, i) && (writes[i].value matches Some(value) && value.is_nan()) {
            let i = choose|i: int| #[trigger]
                wins(writes, micros, i) && (writes[i].value matches Some(value) && value.is_nan());
            the_last_wins(writes, micros, i);
        } else {
            let i = choose|i: int| #[trigger]
                wins(writes, micros, i) && before.holds(
                    before.next_id(),
                    writes[i].key,
                    writes[i].resolved(micros).valid,
                );
            the_last_wins(writes, micros, i);
            let n = choose|n: int|
                0 <= n < before.changes.len() && (#[trigger] before.changes[n]).seq
                    == before.next_id() && before.changes[n].key == writes[i].key
                    && before.changes[n].valid == writes[i].resolved(micros).valid;
            assert(before.changes[n].key == writes[i].key);
            assert(is_last(writes, micros, i));
        }
    }
    assert forall|i: int| #[trigger]
        is_last(writes, micros, i) && (writes[i].value matches Some(ValueView::Float(bits)) && bits
            % 0x8000_0000_0000_0000 > 0x7ff0_0000_0000_0000) implies r is Err by {
        the_last_wins(writes, micros, i);
        assert(wins(writes, micros, i));
    }
}

/// What a commit adds.
proof fn what_was_added(
    before: LogView,
    writes: Seq<WriteView>,
    micros: int,
    id: EventId,
    after: LogView,
) -> (resolved: Seq<ResolvedView>)
    requires
        commit_at_micros(before, writes, micros, Ok(id), after),
    ensures
        id == before.next_id(),
        is_resolution(resolved, writes, micros),
        holds_both(after.changes, before.changes, rows_of(id, resolved)),
{
    choose|resolved: Seq<ResolvedView>| #[trigger]
        is_resolution(resolved, writes, micros) && holds_both(
            after.changes,
            before.changes,
            rows_of(id, resolved),
        )
}

/// A commit records the last write for each key and valid time as a change of its event,
/// in the form of its value.
pub proof fn each_last_write_is_recorded(
    before: LogView,
    writes: Seq<WriteView>,
    micros: int,
    id: EventId,
    after: LogView,
    i: int,
) -> (n: int)
    requires
        commit_at_micros(before, writes, micros, Ok(id), after),
        is_last(writes, micros, i),
    ensures
        0 <= n < after.changes.len(),
        after.changes[n].seq == id,
        after.changes[n].key == writes[i].key,
        after.changes[n].valid == valid_time(writes[i], micros),
        after.changes[n].raw == encoded(writes[i].value),
{
    let resolved = what_was_added(before, writes, micros, id, after);
    let k = the_last_write_is_kept(resolved, writes, micros, i);
    let row = rows_of(id, resolved)[k];
    assert(rows_of(id, resolved).contains(row));
    assert(after.changes.contains(row));
    choose|n: int| 0 <= n < after.changes.len() && after.changes[n] == row
}

/// A commit takes no change away.
pub proof fn each_change_is_kept(
    before: LogView,
    writes: Seq<WriteView>,
    micros: int,
    id: EventId,
    after: LogView,
    m: int,
) -> (n: int)
    requires
        commit_at_micros(before, writes, micros, Ok(id), after),
        0 <= m < before.changes.len(),
    ensures
        0 <= n < after.changes.len(),
        after.changes[n] == before.changes[m],
{
    let resolved = what_was_added(before, writes, micros, id, after);
    assert(before.changes.contains(before.changes[m]));
    assert(after.changes.contains(before.changes[m]));
    choose|n: int| 0 <= n < after.changes.len() && after.changes[n] == before.changes[m]
}

/// A change after a commit was there before, or is of the commit's event and records the
/// last write for its key and valid time.
pub proof fn each_new_change_is_of_a_write(
    before: LogView,
    writes: Seq<WriteView>,
    micros: int,
    id: EventId,
    after: LogView,
    n: int,
) -> (i: int)
    requires
        commit_at_micros(before, writes, micros, Ok(id), after),
        0 <= n < after.changes.len(),
        forall|m: int|
            0 <= m < before.changes.len() ==> #[trigger] before.changes[m] != after.changes[n],
    ensures
        is_last(writes, micros, i),
        after.changes[n].seq == id,
        after.changes[n].key == writes[i].key,
        after.changes[n].valid == valid_time(writes[i], micros),
        after.changes[n].raw == encoded(writes[i].value),
{
    let resolved = what_was_added(before, writes, micros, id, after);
    let rows = rows_of(id, resolved);
    let change = after.changes[n];
    assert(after.changes.contains(change));
    if before.changes.contains(change) {
        let m = choose|m: int| 0 <= m < before.changes.len() && before.changes[m] == change;
        assert(before.changes[m] != after.changes[n]);
    }
    let k = choose|k: int| 0 <= k < rows.len() && rows[k] == change;
    what_is_kept_was_last(resolved, writes, micros, k)
}

/// After a commit, the changes still ascend by event, key and valid time.
pub proof fn changes_still_ascend(
    before: LogView,
    writes: Seq<WriteView>,
    micros: int,
    id: EventId,
    after: LogView,
    a: int,
    b: int,
)
    requires
        commit_at_micros(before, writes, micros, Ok(id), after),
        0 <= a < b < after.changes.len(),
    ensures
        ({
            let (x, y) = (after.changes[a], after.changes[b]);
            x.seq < y.seq || (x.seq == y.seq && (key_lt(x.key, y.key) || (x.key == y.key && x.valid
                < y.valid)))
        }),
{
    assert(after.changes[a].before(after.changes[b]));
}

/// A snapshot at a commit's event and at the valid time of one of its writes, the last for
/// its key and time, reads the value of that write, or nothing if it is a deletion.
pub proof fn a_committed_value_is_read<'db>(
    before: LogView,
    writes: Seq<WriteView>,
    micros: int,
    id: EventId,
    i: int,
    snapshot: Snapshot<'db>,
    key: &str,
    r: Result<Option<Value>, Error>,
)
    requires
        commit_at_micros(before, writes, micros, Ok(id), snapshot@.log),
        before.wf(),
        is_last(writes, micros, i),
        key@ == writes[i].key,
        snapshot@.coordinate.transaction == TransactionCutoff::Through(id),
        snapshot@.coordinate.valid matches ValidCutoff::Through(time) && truncated(time@)
            == valid_time(writes[i], micros),
        call_ensures(Snapshot::<'db>::get, (&snapshot, key), r),
    ensures
        r is Ok,
        writes[i].value is None ==> r->Ok_0 is None,
        writes[i].value is Some ==> r->Ok_0 is Some && r->Ok_0->0@ == writes[i].value->0,
{
    the_last_wins(writes, micros, i);
    assert(committed(before, writes, micros, snapshot@.log));
    a_commit_reads_back(before, writes, micros, snapshot@.log, i);
}

/// An integer that a write sets a key to is what is read of the key after a commit, to
/// the last digit.
pub proof fn a_committed_integer_is_read<'db, K: Into<String>>(
    before: LogView,
    writes: Seq<Write>,
    micros: int,
    id: EventId,
    i: int,
    name: K,
    number: i64,
    snapshot: Snapshot<'db>,
    key: &str,
    r: Result<Option<Value>, Error>,
)
    requires
        commit_at_micros(before, writes_view(writes), micros, Ok(id), snapshot@.log),
        before.wf(),
        is_last(writes_view(writes), micros, i),
        call_ensures(Write::set::<K, i64>, (name, number), writes[i]),
        key@ == writes[i]@.key,
        snapshot@.coordinate.transaction == TransactionCutoff::Through(id),
        snapshot@.coordinate.valid matches ValidCutoff::Through(time) && truncated(time@) == micros,
        call_ensures(Snapshot::<'db>::get, (&snapshot, key), r),
    ensures
        r == Ok::<Option<Value>, Error>(Some(Value::Int(number))),
{
    crate::write::writes_are_modeled_one_by_one(writes, Seq::empty());
    assert(writes_view(writes)[i] == writes[i]@);
    a_committed_value_is_read(before, writes_view(writes), micros, id, i, snapshot, key, r);
}

/// The rows of a commit are prepared whenever there is a write, an event ID is left, and
/// no written value is a float that is not a number, however many writes there are; the
/// row of the event has the next ID and the time of the commit.
pub proof fn a_commit_is_prepared(
    latest: Option<EventId>,
    writes: Vec<Write>,
    committed_at: Timestamp,
    r: Result<(EventRow, Vec<ChangeRow>), Error>,
)
    requires
        call_ensures(prepare, (latest, writes, committed_at), r),
    ensures
        r == Err::<(EventRow, Vec<ChangeRow>), Error>(Error::EmptyCommit) <==> writes@.len() == 0,
        writes@.len() > 0 && (latest matches Some(last) ==> last < 0x7fff_ffff_ffff_ffff) && (
        forall|i: int|
            0 <= i < writes@.len() ==> ((#[trigger] writes@[i])@.value matches Some(
                ValueView::Float(bits),
            ) ==> bits % 0x8000_0000_0000_0000 <= 0x7ff0_0000_0000_0000)) ==> r is Ok,
        r is Ok ==> r->Ok_0.0.ts == truncated(committed_at@),
        r is Ok && latest is None ==> r->Ok_0.0.seq == 1,
        r is Ok && latest is Some ==> r->Ok_0.0.seq == latest->0 + 1,
{
    let (given, micros) = (writes_view(writes@), truncated(committed_at@));
    crate::write::writes_are_modeled_one_by_one(writes@, Seq::empty());
    if forall|i: int|
        0 <= i < writes@.len() ==> ((#[trigger] writes@[i])@.value matches Some(
            ValueView::Float(bits),
        ) ==> bits % 0x8000_0000_0000_0000 <= 0x7ff0_0000_0000_0000) {
        assert forall|i: int| #[trigger] wins(given, micros, i) implies !(given[i].value matches Some(
            value,
        ) && value.is_nan()) by {
            assert(given[i] == writes@[i]@);
        }
    }
    if r is Ok {
        let event = r->Ok_0.0;
        assert(event@.seq == event.seq && event@.ts == event.ts);
    }
}

/// The rows of a commit hold the last write for each key and valid time.
pub proof fn each_last_write_is_prepared(
    latest: Option<EventId>,
    writes: Vec<Write>,
    committed_at: Timestamp,
    event: EventRow,
    rows: Vec<ChangeRow>,
    i: int,
) -> (k: int)
    requires
        call_ensures(prepare, (latest, writes, committed_at), Ok((event, rows))),
        is_last(writes_view(writes@), truncated(committed_at@), i),
    ensures
        0 <= k < rows@.len(),
        rows@[k].seq == event.seq,
        rows@[k].key@ == writes@[i]@.key,
        rows@[k].valid == valid_time(writes@[i]@, truncated(committed_at@)),
        rows@[k].value@ == encoded(writes@[i]@.value),
{
    let (given, micros) = (writes_view(writes@), truncated(committed_at@));
    let resolved = choose|resolved: Seq<ResolvedView>| #[trigger]
        is_resolution(resolved, given, micros) && rows_view(rows@) == rows_of(event@.seq, resolved);
    let k = the_last_write_is_kept(resolved, given, micros, i);
    assert(rows_view(rows@).len() == rows@.len());
    assert(rows_view(rows@)[k] == rows@[k]@);
    assert(given[i] == writes@[i]@);
    k
}

/// The rows of a commit ascend, and each holds a write that is the last for its key and
/// valid time.
pub proof fn each_prepared_row_is_of_a_write(
    latest: Option<EventId>,
    writes: Vec<Write>,
    committed_at: Timestamp,
    event: EventRow,
    rows: Vec<ChangeRow>,
    k: int,
) -> (i: int)
    requires
        call_ensures(prepare, (latest, writes, committed_at), Ok((event, rows))),
        0 <= k < rows@.len(),
    ensures
        is_last(writes_view(writes@), truncated(committed_at@), i),
        rows@[k].seq == event.seq,
        rows@[k].key@ == writes@[i]@.key,
        rows@[k].valid == valid_time(writes@[i]@, truncated(committed_at@)),
        rows@[k].value@ == encoded(writes@[i]@.value),
        k > 0 ==> key_lt(rows@[k - 1].key@, rows@[k].key@) || (rows@[k - 1].key@ == rows@[k].key@
            && rows@[k - 1].valid < rows@[k].valid),
{
    let (given, micros) = (writes_view(writes@), truncated(committed_at@));
    let resolved = choose|resolved: Seq<ResolvedView>| #[trigger]
        is_resolution(resolved, given, micros) && rows_view(rows@) == rows_of(event@.seq, resolved);
    assert(rows_view(rows@).len() == rows@.len());
    assert(rows_view(rows@)[k] == rows@[k]@);
    let i = what_is_kept_was_last(resolved, given, micros, k);
    assert(given[i] == writes@[i]@);
    if k > 0 {
        assert(rows_view(rows@)[k - 1] == rows@[k - 1]@);
        crate::write::what_is_kept_is_in_order(resolved, given, micros, k - 1, k);
    }
    i
}

} // verus!
