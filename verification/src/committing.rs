//! What holds of every commit.

use crate::coordinate::EventId;
use crate::error::Error;
use crate::model::{
    before_is_asymmetric, event_is_unique, filter_holds, filter_keeps_order, holds_both, in_order,
    reaches, rows_are_in_order, rows_of, same_changes_same_list, AssertionView, ChangeView, Cut,
    EventView, LogView,
};
use crate::raw::{encoded, encoded_is_read_back};
use crate::reading::{
    in_force_is_the_greatest, intact, offers, same_offers_same_force, the_greatest_is_in_force,
    told_is_in_order, told_offers,
};
use crate::time::readable;
use crate::value::ValueView;
use crate::write::{
    every_place_is_kept, is_resolution, no_more_are_kept, resolution_is_unique, same_slot, wins,
    ResolvedView, WriteView};
use vstd::prelude::*;

verus! {
/// Whether `new` is what a commit of `writes` at the microsecond `micros`, which is
/// not refused, makes of `log`.
pub open spec fn committed(
    log: LogView,
    writes: Seq<WriteView>,
    micros: int,
    new: LogView,
) -> bool {
    &&& log.wf()
    &&& log.refusal(writes, micros) is None
    &&& log.commits_to(writes, micros, new)
}

/// What a commit keeps of its writes.
spec fn kept(log: LogView, writes: Seq<WriteView>, micros: int, new: LogView) -> Seq<ResolvedView> {
    choose|resolved: Seq<ResolvedView>| #[trigger]
        is_resolution(resolved, writes, micros) && holds_both(
            new.changes,
            log.changes,
            rows_of(log.next_id(), resolved),
        )
}

/// The rows that a commit adds.
spec fn added(log: LogView, writes: Seq<WriteView>, micros: int, new: LogView) -> Seq<ChangeView> {
    rows_of(log.next_id(), kept(log, writes, micros, new))
}

/// A commit keeps the tables in order.
pub proof fn a_commit_keeps_order(
    log: LogView,
    writes: Seq<WriteView>,
    micros: int,
    new: LogView,
)
    requires
        committed(log, writes, micros, new),
    ensures
        new.wf(),
        new.latest() == Some(log.next_id()),
        log.latest() matches Some(id) ==> id < log.next_id(),
{
    assert(new.events.last().seq == log.next_id());
}

/// Where every change of a log belongs to one of its events, that stays so, and a
/// commit adds its changes at the end.
pub proof fn a_commit_appends(
    log: LogView,
    writes: Seq<WriteView>,
    micros: int,
    new: LogView,
)
    requires
        committed(log, writes, micros, new),
        log.linked(),
    ensures
        new.linked(),
        log.changes.is_prefix_of(new.changes),
{
    let id = log.next_id();
    let resolved = kept(log, writes, micros, new);
    let rows = rows_of(id, resolved);
    let all = log.changes + rows;
    rows_are_in_order(id, resolved);
    assert forall|i: int, j: int| 0 <= i < j < all.len() implies (#[trigger] all[i]).before(
        #[trigger] all[j],
    ) by {
        if i < log.changes.len() {
            seqs_are_below(log, i);
        }
    }
    assert forall|change: ChangeView| #[trigger] new.changes.contains(change) <==> all.contains(
        change,
    ) by {
        contains_of_both(log.changes, rows, change);
    }
    same_changes_same_list(new.changes, all);
    assert(new.is_event(log.events.len() as int, id));
    assert forall|i: int| 0 <= i < new.changes.len() implies new.has_event(
        (#[trigger] new.changes[i]).seq,
    ) by {
        if i < log.changes.len() {
            assert(log.has_event(log.changes[i].seq));
            let e = choose|e: int| log.is_event(e, log.changes[i].seq);
            assert(new.is_event(e, log.changes[i].seq));
        }
    }
}

/// A list after another holds what both hold.
proof fn contains_of_both(a: Seq<ChangeView>, b: Seq<ChangeView>, change: ChangeView)
    ensures
        (a + b).contains(change) <==> a.contains(change) || b.contains(change),
{
    let all = a + b;
    if all.contains(change) {
        let i = choose|i: int| 0 <= i < all.len() && all[i] == change;
        if i < a.len() {
            assert(a[i] == change);
        } else {
            assert(b[i - a.len()] == change);
        }
    }
    if a.contains(change) {
        let i = choose|i: int| 0 <= i < a.len() && a[i] == change;
        assert(all[i] == change);
    }
    if b.contains(change) {
        let i = choose|i: int| 0 <= i < b.len() && b[i] == change;
        assert(all[a.len() + i] == change);
    }
}

/// Every row that a commit adds is of its event.
proof fn added_rows_are_of_the_event(
    log: LogView,
    writes: Seq<WriteView>,
    micros: int,
    new: LogView,
    change: ChangeView,
)
    requires
        added(log, writes, micros, new).contains(change),
    ensures
        change.seq == log.next_id(),
{
    let rows = added(log, writes, micros, new);
    let k = choose|k: int| 0 <= k < rows.len() && rows[k] == change;
}

/// Whether rows hold an assertion for `key` within the cutoffs.
spec fn adds(rows: Seq<ChangeView>, key: Seq<char>, cut: Cut, change: ChangeView) -> bool {
    rows.contains(change) && change.key == key && cut.admits(change)
}

/// A commit leaves the times of the events before it as they were.
proof fn times_are_kept(
    log: LogView,
    writes: Seq<WriteView>,
    micros: int,
    new: LogView,
    id: EventId,
)
    requires
        committed(log, writes, micros, new),
    ensures
        id != log.next_id() ==> new.has_event(id) == log.has_event(id) && new.time_of(id)
            == log.time_of(id),
        new.time_of(log.next_id()) == Some(micros),
{
    a_commit_keeps_order(log, writes, micros, new);
    let n = log.events.len() as int;
    assert(new.is_event(n, log.next_id()));
    event_is_unique(new, n, log.next_id());
    if log.has_event(id) {
        let i = choose|i: int| log.is_event(i, id);
        assert(log.is_event(i, id));
        assert(new.is_event(i, id));
        event_is_unique(log, i, id);
        event_is_unique(new, i, id);
    }
    if id != log.next_id() && new.has_event(id) {
        let i = choose|i: int| new.is_event(i, id);
        assert(new.is_event(i, id));
        assert(log.is_event(i, id));
    }
}

/// A commit leaves every read that does not reach its event as it was.
pub proof fn reads_before_a_commit_are_kept(
    log: LogView,
    writes: Seq<WriteView>,
    micros: int,
    new: LogView,
    key: Seq<char>,
    cut: Cut,
)
    requires
        committed(log, writes, micros, new),
        !reaches(cut.through, log.next_id()),
    ensures
        new.in_force(key, cut) == log.in_force(key, cut),
        new.read(key, cut) == log.read(key, cut),
        new.blamed(key, cut) == log.blamed(key, cut),
{
    a_commit_keeps_order(log, writes, micros, new);
    assert forall|change: ChangeView| offers(log, key, cut, change) <==> #[trigger] offers(
        new,
        key,
        cut,
        change,
    ) by {
        if added(log, writes, micros, new).contains(change) {
            added_rows_are_of_the_event(log, writes, micros, new, change);
        }
        assert(new.changes.contains(change) <==> log.changes.contains(change) || added(
            log,
            writes,
            micros,
            new,
        ).contains(change));
    }
    same_offers_same_force(log, cut, new, cut, key);
    let (before, after) = (log.told(key), new.told(key));
    told_is_in_order(log, key);
    told_is_in_order(new, key);
    assert forall|change: ChangeView| offers(before, key, cut, change) <==> #[trigger] offers(
        after,
        key,
        cut,
        change,
    ) by {
        told_offers(log, key, cut, change);
        told_offers(new, key, cut, change);
        times_are_kept(log, writes, micros, new, change.seq);
        assert(offers(log, key, cut, change) <==> offers(new, key, cut, change));
    }
    same_offers_same_force(before, cut, after, cut, key);
    in_force_is_the_greatest(before, key, cut);
    if let Some(change) = before.in_force(key, cut) {
        times_are_kept(log, writes, micros, new, change.seq);
    }
}

/// A commit leaves the states and the changepoints that do not reach its event as
/// they were.
pub proof fn states_before_a_commit_are_kept(
    log: LogView,
    writes: Seq<WriteView>,
    micros: int,
    new: LogView,
    cut: Cut,
)
    requires
        committed(log, writes, micros, new),
        !reaches(cut.through, log.next_id()),
    ensures
        new.state(cut) == log.state(cut),
        forall|valid: int|
            new.changes_at(cut.through, valid) <==> #[trigger] log.changes_at(cut.through, valid),
{
    assert forall|key: Seq<char>| new.in_force(key, cut) == #[trigger] log.in_force(key, cut) by {
        reads_before_a_commit_are_kept(log, writes, micros, new, key, cut);
    }
    assert forall|key: Seq<char>| #[trigger] new.value_readable(key, cut) == log.value_readable(key, cut) by {
        assert(new.in_force(key, cut) == log.in_force(key, cut));
    }
    assert forall|key: Seq<char>| #[trigger] new.value_of(key, cut) == log.value_of(key, cut) by {
        assert(new.in_force(key, cut) == log.in_force(key, cut));
    }
    assert(new.state_readable(cut) == log.state_readable(cut)) by {
        if new.state_readable(cut) {
            assert forall|key: Seq<char>| #[trigger] log.value_readable(key, cut) by {
                assert(new.value_readable(key, cut));
            }
        }
    }
    if log.state_readable(cut) {
        assert(new.state(cut)->Ok_0 =~= log.state(cut)->Ok_0);
    }
    let rows = added(log, writes, micros, new);
    assert forall|valid: int|
        new.changes_at(cut.through, valid) <==> #[trigger] log.changes_at(cut.through, valid) by {
        if new.changes_at(cut.through, valid) {
            let i = choose|i: int|
                0 <= i < new.changes.len() && (#[trigger] new.changes[i]).valid == valid && reaches(
                    cut.through,
                    new.changes[i].seq,
                );
            let change = new.changes[i];
            assert(new.changes.contains(change));
            if rows.contains(change) {
                added_rows_are_of_the_event(log, writes, micros, new, change);
            }
            let j = choose|j: int| 0 <= j < log.changes.len() && log.changes[j] == change;
            assert(log.changes[j].valid == valid);
        }
        if log.changes_at(cut.through, valid) {
            let i = choose|i: int|
                0 <= i < log.changes.len() && (#[trigger] log.changes[i]).valid == valid && reaches(
                    cut.through,
                    log.changes[i].seq,
                );
            let change = log.changes[i];
            assert(log.changes.contains(change));
            assert(new.changes.contains(change));
            let j = choose|j: int| 0 <= j < new.changes.len() && new.changes[j] == change;
            assert(new.changes[j].valid == valid);
        }
    }
}

/// Whether the `i`th write is kept, and is one for `key` that the valid-time cutoff
/// includes.
pub open spec fn touches(
    writes: Seq<WriteView>,
    micros: int,
    key: Seq<char>,
    cut: Cut,
    i: int,
) -> bool {
    &&& wins(writes, micros, i)
    &&& writes[i].key == key
    &&& cut.valid matches Some(last) ==> writes[i].resolved(micros).valid <= last
}

/// The row of the `i`th write in event `id`.
pub open spec fn row_of(writes: Seq<WriteView>, micros: int, id: EventId, i: int) -> ChangeView {
    let write = writes[i].resolved(micros);
    ChangeView { seq: id, key: write.key, valid: write.valid, raw: encoded(write.value) }
}

/// What the rows of a commit add are the rows of the writes that touch a read.
proof fn touches_and_adds(
    log: LogView,
    writes: Seq<WriteView>,
    micros: int,
    new: LogView,
    key: Seq<char>,
    cut: Cut,
)
    requires
        committed(log, writes, micros, new),
        reaches(cut.through, log.next_id()),
    ensures
        ({
            let rows = added(log, writes, micros, new);
            &&& forall|i: int| #[trigger]
                touches(writes, micros, key, cut, i) ==> adds(
                    rows,
                    key,
                    cut,
                    row_of(writes, micros, log.next_id(), i),
                )
            &&& forall|change: ChangeView| #[trigger]
                adds(rows, key, cut, change) ==> exists|i: int| #[trigger]
                    touches(writes, micros, key, cut, i) && change == row_of(
                        writes,
                        micros,
                        log.next_id(),
                        i,
                    )
        }),
{
    let resolved = kept(log, writes, micros, new);
    let rows = rows_of(log.next_id(), resolved);
    assert(is_resolution(resolved, writes, micros));
    assert forall|i: int| #[trigger] touches(writes, micros, key, cut, i) implies adds(
        rows,
        key,
        cut,
        row_of(writes, micros, log.next_id(), i),
    ) by {
        assert(resolved.contains(writes[i].resolved(micros)));
        let k = choose|k: int| 0 <= k < resolved.len() && resolved[k] == writes[i].resolved(micros);
        assert(rows[k] == row_of(writes, micros, log.next_id(), i));
    }
    assert forall|change: ChangeView| #[trigger] adds(rows, key, cut, change) implies exists|i: int| #[trigger]
        touches(writes, micros, key, cut, i) && change == row_of(writes, micros, log.next_id(), i) by {
        let k = choose|k: int| 0 <= k < rows.len() && rows[k] == change;
        let i = choose|i: int| #[trigger]
            wins(writes, micros, i) && writes[i].resolved(micros) == resolved[k];
        assert(touches(writes, micros, key, cut, i));
    }
}

/// A correction does not reach past the next assertion: where the assertion in
/// force is valid from a later time than every new write for the key that the
/// cutoff includes, it stays in force. Where there is no such write, nothing
/// changes.
pub proof fn later_assertions_stay_in_force(
    log: LogView,
    writes: Seq<WriteView>,
    micros: int,
    new: LogView,
    key: Seq<char>,
    cut: Cut,
)
    requires
        committed(log, writes, micros, new),
        reaches(cut.through, log.next_id()),
        forall|i: int| #[trigger]
            touches(writes, micros, key, cut, i) ==> {
                &&& log.in_force(key, cut) is Some
                &&& writes[i].resolved(micros).valid < log.in_force(key, cut)->0.valid
            },
    ensures
        new.in_force(key, cut) == log.in_force(key, cut),
        new.read(key, cut) == log.read(key, cut),
{
    a_commit_keeps_order(log, writes, micros, new);
    let rows = added(log, writes, micros, new);
    touches_and_adds(log, writes, micros, new, key, cut);
    assert forall|change: ChangeView| #[trigger] offers(new, key, cut, change) <==> offers(
        log,
        key,
        cut,
        change,
    ) || adds(rows, key, cut, change) by {
        assert(new.changes.contains(change) <==> log.changes.contains(change) || rows.contains(
            change,
        ));
    }
    in_force_is_the_greatest(log, key, cut);
    match log.in_force(key, cut) {
        Some(change) => {
            assert(offers(new, key, cut, change));
            the_greatest_is_in_force(new, key, cut, change);
        },
        None => {
            in_force_is_the_greatest(new, key, cut);
            if let Some(change) = new.in_force(key, cut) {
                assert(offers(new, key, cut, change));
            }
        },
    }
}

/// A new write takes force from its valid time on: where no other new write for the
/// key is valid from a later time that the cutoff includes, and the write overrides
/// the assertion that was in force, the write is in force, and its value is read.
pub proof fn a_write_takes_force(
    log: LogView,
    writes: Seq<WriteView>,
    micros: int,
    new: LogView,
    key: Seq<char>,
    cut: Cut,
    i: int,
)
    requires
        committed(log, writes, micros, new),
        reaches(cut.through, log.next_id()),
        touches(writes, micros, key, cut, i),
        forall|j: int| #[trigger]
            touches(writes, micros, key, cut, j) ==> writes[j].resolved(micros).valid
                <= writes[i].resolved(micros).valid,
        log.in_force(key, cut) matches Some(change) ==> row_of(
            writes,
            micros,
            log.next_id(),
            i,
        ).overrides(change),
    ensures
        new.in_force(key, cut) == Some(row_of(writes, micros, log.next_id(), i)),
        new.read(key, cut) == Ok::<Option<ValueView>, Error>(writes[i].value),
{
    a_commit_keeps_order(log, writes, micros, new);
    let rows = added(log, writes, micros, new);
    let row = row_of(writes, micros, log.next_id(), i);
    touches_and_adds(log, writes, micros, new, key, cut);
    in_force_is_the_greatest(log, key, cut);
    assert(adds(rows, key, cut, row));
    assert(new.changes.contains(row));
    assert forall|other: ChangeView| #[trigger] offers(new, key, cut, other) implies row.overrides(
        other,
    ) by {
        assert(new.changes.contains(other));
        if offers(log, key, cut, other) {
            assert(log.in_force(key, cut)->0.overrides(other));
        } else {
            assert(adds(rows, key, cut, other));
            let j = choose|j: int| #[trigger]
                touches(writes, micros, key, cut, j) && other == row_of(
                    writes,
                    micros,
                    log.next_id(),
                    j,
                );
            assert(touches(writes, micros, key, cut, j));
        }
    }
    the_greatest_is_in_force(new, key, cut, row);
    encoded_is_read_back(writes[i].value);
}

/// Where every change of a log belongs to one of its events, an assertion that is
/// valid from no later time than a write of the next event is overridden by it.
pub proof fn the_next_event_overrides(
    log: LogView,
    writes: Seq<WriteView>,
    micros: int,
    key: Seq<char>,
    cut: Cut,
    i: int,
)
    requires
        log.wf(),
        log.linked(),
        log.refusal(writes, micros) is None,
        log.in_force(key, cut) is Some,
        log.in_force(key, cut)->0.valid <= writes[i].resolved(micros).valid,
    ensures
        row_of(writes, micros, log.next_id(), i).overrides(log.in_force(key, cut)->0),
{
    in_force_is_the_greatest(log, key, cut);
    let change = log.in_force(key, cut)->0;
    let k = choose|k: int| 0 <= k < log.changes.len() && log.changes[k] == change;
    seqs_are_below(log, k);
}

/// Where every change belongs to an event of the log, it was made before the next.
proof fn seqs_are_below(log: LogView, i: int)
    requires
        log.wf(),
        log.linked(),
        0 <= i < log.changes.len(),
        log.latest() matches Some(id) ==> id < u64::MAX,
    ensures
        log.changes[i].seq < log.next_id(),
{
    let seq = log.changes[i].seq;
    assert(log.has_event(seq));
    let e = choose|e: int| log.is_event(e, seq);
    assert(log.is_event(e, seq));
    if e < log.events.len() - 1 {
        assert(log.events[e].seq < log.events[log.events.len() - 1].seq);
    }
}

/// What a commit keeps is read back: at its event and at its valid time, each write
/// that no later one of the commit replaces is in force. For a write without a
/// valid time of its own, that is the snapshot at the event.
pub proof fn a_commit_reads_back(
    log: LogView,
    writes: Seq<WriteView>,
    micros: int,
    new: LogView,
    i: int,
)
    requires
        committed(log, writes, micros, new),
        wins(writes, micros, i),
    ensures
        new.read(
            writes[i].key,
            (Cut {
                through: Some(log.next_id()),
                valid: Some(writes[i].resolved(micros).valid),
            }),
        ) == Ok::<Option<ValueView>, Error>(writes[i].value),
{
    let valid = writes[i].resolved(micros).valid;
    let cut = Cut { through: Some(log.next_id()), valid: Some(valid) };
    in_force_is_the_greatest(log, writes[i].key, cut);
    a_write_takes_force(log, writes, micros, new, writes[i].key, cut, i);
}

/// A commit is determined by the log, the writes and the time.
pub proof fn a_commit_is_determined(
    log: LogView,
    writes: Seq<WriteView>,
    micros: int,
    new: LogView,
    other: LogView,
)
    requires
        log.commits_to(writes, micros, new),
        log.commits_to(writes, micros, other),
    ensures
        new == other,
{
    let resolved = kept(log, writes, micros, new);
    resolution_is_unique(resolved, kept(log, writes, micros, other), writes, micros);
    let rows = rows_of(log.next_id(), resolved);
    assert forall|change: ChangeView| #[trigger] new.changes.contains(change)
        <==> other.changes.contains(change) by {
        assert(other.changes.contains(change) <==> log.changes.contains(change) || rows.contains(
            change,
        ));
    }
    same_changes_same_list(new.changes, other.changes);
}

/// A commit adds its event and its changes, at most one for each write and at least
/// one, and neither changes a row nor takes one away.
pub proof fn a_commit_only_inserts(
    log: LogView,
    writes: Seq<WriteView>,
    micros: int,
    new: LogView,
)
    requires
        committed(log, writes, micros, new),
    ensures
        log.events.is_prefix_of(new.events),
        new.events.len() == log.events.len() + 1,
        forall|change: ChangeView| #[trigger]
            log.changes.contains(change) ==> new.changes.contains(change),
        log.changes.len() < new.changes.len() <= log.changes.len() + writes.len(),
{
    let resolved = kept(log, writes, micros, new);
    let rows = rows_of(log.next_id(), resolved);
    assert(is_resolution(resolved, writes, micros));
    no_more_are_kept(resolved, writes, micros);
    every_place_is_kept(resolved, writes, micros, 0);
    rows_are_in_order(log.next_id(), resolved);
    no_change_twice(log.changes);
    no_change_twice(rows);
    no_change_twice(new.changes);
    let (a, b, c) = (log.changes.to_set(), rows.to_set(), new.changes.to_set());
    assert(c =~= a + b) by {
        assert forall|change: ChangeView| c.contains(change) <==> (a + b).contains(change) by {
            assert(new.changes.contains(change) <==> log.changes.contains(change) || rows.contains(
                change,
            ));
        }
    }
    assert(a.disjoint(b)) by {
        assert forall|change: ChangeView| !(a.contains(change) && b.contains(change)) by {
            if a.contains(change) && b.contains(change) {
                let k = choose|k: int| 0 <= k < rows.len() && rows[k] == change;
                let n = choose|n: int| 0 <= n < log.changes.len() && log.changes[n] == change;
                let i = choose|i: int| #[trigger]
                    wins(writes, micros, i) && writes[i].resolved(micros) == resolved[k];
                assert(wins(writes, micros, i));
                assert(log.changes[n].seq == log.next_id());
                assert(log.holds(
                    log.next_id(),
                    writes[i].key,
                    writes[i].resolved(micros).valid,
                ));
            }
        }
    }
    vstd::set_lib::lemma_set_disjoint_lens(a, b);
}

/// Changes in order hold none twice.
proof fn no_change_twice(changes: Seq<ChangeView>)
    requires
        in_order(changes),
    ensures
        changes.to_set().finite(),
        changes.to_set().len() == changes.len(),
{
    assert forall|i: int, j: int| 0 <= i < j < changes.len() implies changes[i] != changes[j] by {
        before_is_asymmetric(changes[i], changes[j]);
    }
    changes.unique_seq_to_set();
}

/// Whether events are numbered from one on without a gap.
pub open spec fn numbered(log: LogView) -> bool {
    forall|i: int| 0 <= i < log.events.len() ==> (#[trigger] log.events[i]).seq == i + 1
}

/// Where events are numbered from one on, a commit gets the next number, and they
/// stay so.
pub proof fn commits_are_numbered(
    log: LogView,
    writes: Seq<WriteView>,
    micros: int,
    new: LogView,
)
    requires
        committed(log, writes, micros, new),
        numbered(log),
    ensures
        numbered(new),
        log.next_id() == log.events.len() + 1,
{
    assert forall|i: int| 0 <= i < new.events.len() implies (#[trigger] new.events[i]).seq == i + 1 by {
        if i < log.events.len() {
            assert(new.events[i] == log.events[i]);
        }
    }
}

/// Where events are numbered from one on, the log holds the events from one to
/// their number, and no others.
pub proof fn numbered_events_are_held(log: LogView, id: EventId)
    requires
        numbered(log),
    ensures
        log.has_event(id) <==> 1 <= id <= log.events.len(),
{
    if 1 <= id <= log.events.len() {
        assert(log.is_event(id - 1, id));
    }
    if log.has_event(id) {
        let i = choose|i: int| log.is_event(i, id);
        assert(log.is_event(i, id));
        assert(log.events[i].seq == i + 1);
    }
}

/// A commit of readable times keeps every row readable.
pub proof fn commits_keep_a_log_intact(
    log: LogView,
    writes: Seq<WriteView>,
    micros: int,
    new: LogView,
)
    requires
        committed(log, writes, micros, new),
        intact(log),
        readable(micros),
        forall|i: int|
            0 <= i < writes.len() ==> readable((#[trigger] writes[i]).resolved(micros).valid),
    ensures
        intact(new),
{
    let resolved = kept(log, writes, micros, new);
    let rows = rows_of(log.next_id(), resolved);
    assert(is_resolution(resolved, writes, micros));
    assert forall|i: int| 0 <= i < new.changes.len() implies (
    #[trigger] new.changes[i]).assertion() is Ok by {
        let change = new.changes[i];
        assert(new.changes.contains(change));
        if log.changes.contains(change) {
            let j = choose|j: int| 0 <= j < log.changes.len() && log.changes[j] == change;
            assert(log.changes[j].assertion() is Ok);
        } else {
            let k = choose|k: int| 0 <= k < rows.len() && rows[k] == change;
            row_reads_back(log.next_id(), resolved, writes, micros, k);
        }
    }
    assert forall|i: int| 0 <= i < new.events.len() implies readable((#[trigger] new.events[i]).ts) by {
        if i < log.events.len() {
            assert(new.events[i] == log.events[i]);
        }
    }
}

/// The assertion that a write makes.
pub open spec fn asserts(write: ResolvedView) -> AssertionView {
    AssertionView { key: write.key, valid_from: write.valid * 1000, value: write.value }
}

/// The row of a write whose time is readable makes its assertion.
proof fn row_reads_back(
    id: EventId,
    resolved: Seq<ResolvedView>,
    writes: Seq<WriteView>,
    micros: int,
    k: int,
)
    requires
        is_resolution(resolved, writes, micros),
        forall|i: int|
            0 <= i < writes.len() ==> readable((#[trigger] writes[i]).resolved(micros).valid),
        0 <= k < resolved.len(),
    ensures
        rows_of(id, resolved)[k].assertion() == Ok::<AssertionView, Error>(asserts(resolved[k])),
{
    let i = choose|i: int| #[trigger]
        wins(writes, micros, i) && writes[i].resolved(micros) == resolved[k];
    assert(readable(writes[i].resolved(micros).valid));
    encoded_is_read_back(resolved[k].value);
}

/// The event of a commit of readable times is read back: its time to the
/// microsecond, and for each key and valid time the last write, in the order of
/// keys and valid times. The log held no change of the event before it.
pub proof fn a_committed_event_reads_back(
    log: LogView,
    writes: Seq<WriteView>,
    micros: int,
    new: LogView,
)
    requires
        committed(log, writes, micros, new),
        log.changes_in(log.next_id()).len() == 0,
        readable(micros),
        forall|i: int|
            0 <= i < writes.len() ==> readable((#[trigger] writes[i]).resolved(micros).valid),
    ensures
        exists|resolved: Seq<ResolvedView>| #[trigger]
            is_resolution(resolved, writes, micros) && new.event(log.next_id()) == Ok::<
                EventView,
                Error,
            >(
                EventView {
                    id: log.next_id(),
                    committed_at: micros * 1000,
                    assertions: resolved.map_values(|write: ResolvedView| asserts(write)),
                },
            ),
{
    let id = log.next_id();
    let resolved = kept(log, writes, micros, new);
    let rows = rows_of(id, resolved);
    let keep = |change: ChangeView| change.seq == id;
    assert(is_resolution(resolved, writes, micros));
    times_are_kept(log, writes, micros, new, id);
    rows_are_in_order(id, resolved);
    filter_keeps_order(new.changes, keep);
    assert forall|change: ChangeView| #[trigger] new.changes_in(id).contains(change)
        <==> rows.contains(change) by {
        filter_holds(new.changes, keep, change);
        filter_holds(log.changes, keep, change);
        if rows.contains(change) {
            let k = choose|k: int| 0 <= k < rows.len() && rows[k] == change;
        }
        assert(new.changes.contains(change) <==> log.changes.contains(change) || rows.contains(
            change,
        ));
    }
    same_changes_same_list(new.changes_in(id), rows);
    assert forall|k: int| 0 <= k < rows.len() implies (#[trigger] rows[k]).assertion() == Ok::<
        AssertionView,
        Error,
    >(asserts(resolved[k])) by {
        row_reads_back(id, resolved, writes, micros, k);
    }
    assert(rows.map_values(|change: ChangeView| change.assertion()->Ok_0) =~= resolved.map_values(
        |write: ResolvedView| asserts(write),
    ));
}

/// A commit leaves every event before it as it was.
pub proof fn events_before_a_commit_are_kept(
    log: LogView,
    writes: Seq<WriteView>,
    micros: int,
    new: LogView,
    id: EventId,
)
    requires
        committed(log, writes, micros, new),
        log.has_event(id),
    ensures
        new.event(id) == log.event(id),
        new.committed_at(id) == log.committed_at(id),
{
    let keep = |change: ChangeView| change.seq == id;
    a_commit_keeps_order(log, writes, micros, new);
    times_are_kept(log, writes, micros, new, id);
    events_are_below(log, id);
    filter_keeps_order(log.changes, keep);
    filter_keeps_order(new.changes, keep);
    assert forall|change: ChangeView| #[trigger] new.changes_in(id).contains(change)
        <==> log.changes_in(id).contains(change) by {
        filter_holds(new.changes, keep, change);
        filter_holds(log.changes, keep, change);
        if added(log, writes, micros, new).contains(change) {
            added_rows_are_of_the_event(log, writes, micros, new, change);
        }
        assert(new.changes.contains(change) <==> log.changes.contains(change) || added(
            log,
            writes,
            micros,
            new,
        ).contains(change));
    }
    same_changes_same_list(new.changes_in(id), log.changes_in(id));
}

/// Every event of the log is before the next.
proof fn events_are_below(log: LogView, id: EventId)
    requires
        log.wf(),
        log.has_event(id),
        log.latest() matches Some(last) ==> last < u64::MAX,
    ensures
        id < log.next_id(),
{
    let e = choose|e: int| log.is_event(e, id);
    assert(log.is_event(e, id));
    if e < log.events.len() - 1 {
        assert(log.events[e].seq < log.events[log.events.len() - 1].seq);
    }
}

/// What was recorded of a key before a commit is what its history begins with
/// after.
pub proof fn a_history_only_grows(
    log: LogView,
    writes: Seq<WriteView>,
    micros: int,
    new: LogView,
    key: Seq<char>,
)
    requires
        committed(log, writes, micros, new),
        new.history(key) is Ok,
    ensures
        log.history(key) is Ok,
        log.history(key)->Ok_0.is_prefix_of(new.history(key)->Ok_0),
{
    let id = log.next_id();
    let (before, after) = (log.told(key).changes, new.told(key).changes);
    let latest = |change: ChangeView| change.key == key && change.seq == id;
    let tail = new.changes.filter(latest);
    let all = before + tail;
    a_commit_keeps_order(log, writes, micros, new);
    told_is_in_order(log, key);
    told_is_in_order(new, key);
    filter_keeps_order(new.changes, latest);
    assert forall|change: ChangeView| #[trigger] before.contains(change) <==> {
        &&& log.changes.contains(change)
        &&& change.key == key
        &&& log.has_event(change.seq)
    } by {
        filter_holds(
            log.changes,
            |change: ChangeView| change.key == key && log.has_event(change.seq),
            change,
        );
    }
    assert forall|change: ChangeView| #[trigger] before.contains(change) implies change.seq < id by {
        events_are_below(log, change.seq);
    }
    assert forall|change: ChangeView| #[trigger] tail.contains(change) <==> {
        &&& new.changes.contains(change)
        &&& change.key == key
        &&& change.seq == id
    } by {
        filter_holds(new.changes, latest, change);
    }
    assert(in_order(all)) by {
        assert forall|i: int, j: int| 0 <= i < j < all.len() implies (#[trigger] all[i]).before(
            #[trigger] all[j],
        ) by {
            if i < before.len() {
                assert(before.contains(before[i]));
            }
            if j >= before.len() {
                assert(tail.contains(tail[j - before.len()]));
            }
        }
    }
    assert forall|change: ChangeView| #[trigger] after.contains(change) <==> all.contains(change) by {
        filter_holds(
            new.changes,
            |change: ChangeView| change.key == key && new.has_event(change.seq),
            change,
        );
        contains_of_both(before, tail, change);
        times_are_kept(log, writes, micros, new, change.seq);
        if added(log, writes, micros, new).contains(change) {
            added_rows_are_of_the_event(log, writes, micros, new, change);
        }
        assert(new.is_event(log.events.len() as int, id));
        if before.contains(change) {
            assert(change.seq < id);
        }
        assert(new.changes.contains(change) <==> log.changes.contains(change) || added(
            log,
            writes,
            micros,
            new,
        ).contains(change));
    }
    same_changes_same_list(after, all);
    assert forall|i: int| 0 <= i < before.len() implies {
        &&& after[i] == #[trigger] before[i]
        &&& new.recorded(before[i]) == log.recorded(before[i])
        &&& log.recorded(before[i]) is Ok
    } by {
        assert(before.contains(before[i]));
        times_are_kept(log, writes, micros, new, before[i].seq);
        assert(new.recorded(after[i]) is Ok);
    }
}

/// After a commit, the keys that were ever asserted are those of before and those
/// of the writes; a deletion takes none away.
pub proof fn keys_are_never_lost(
    log: LogView,
    writes: Seq<WriteView>,
    micros: int,
    new: LogView,
    key: Seq<char>,
)
    requires
        committed(log, writes, micros, new),
    ensures
        new.asserted(key) <==> log.asserted(key) || exists|i: int|
            0 <= i < writes.len() && (#[trigger] writes[i]).key == key,
{
    let resolved = kept(log, writes, micros, new);
    let rows = rows_of(log.next_id(), resolved);
    assert(is_resolution(resolved, writes, micros));
    if new.asserted(key) {
        let i = choose|i: int| 0 <= i < new.changes.len() && (#[trigger] new.changes[i]).key == key;
        let change = new.changes[i];
        assert(new.changes.contains(change));
        if log.changes.contains(change) {
            let j = choose|j: int| 0 <= j < log.changes.len() && log.changes[j] == change;
            assert(log.changes[j].key == key);
        } else {
            let k = choose|k: int| 0 <= k < rows.len() && rows[k] == change;
            let w = choose|w: int| #[trigger]
                wins(writes, micros, w) && writes[w].resolved(micros) == resolved[k];
            assert(writes[w].key == key);
        }
    }
    if log.asserted(key) {
        let i = choose|i: int| 0 <= i < log.changes.len() && (#[trigger] log.changes[i]).key == key;
        assert(log.changes.contains(log.changes[i]));
        assert(new.changes.contains(log.changes[i]));
        let j = choose|j: int| 0 <= j < new.changes.len() && new.changes[j] == log.changes[i];
        assert(new.changes[j].key == key);
    }
    if exists|i: int| 0 <= i < writes.len() && (#[trigger] writes[i]).key == key {
        let i = choose|i: int| 0 <= i < writes.len() && (#[trigger] writes[i]).key == key;
        every_place_is_kept(resolved, writes, micros, i);
        let k = choose|k: int|
            0 <= k < resolved.len() && same_slot(
                #[trigger] resolved[k],
                writes[i].resolved(micros),
            );
        assert(rows.contains(rows[k]));
        assert(new.changes.contains(rows[k]));
        let j = choose|j: int| 0 <= j < new.changes.len() && new.changes[j] == rows[k];
        assert(new.changes[j].key == key);
    }
}

/// Whether one log is what some commit makes of another.
pub open spec fn follows(log: LogView, new: LogView) -> bool {
    exists|writes: Seq<WriteView>, micros: int| #[trigger] committed(log, writes, micros, new)
}

/// Whether the log after the `k`th is what some commit makes of it.
pub open spec fn follows_at(logs: Seq<LogView>, k: int) -> bool {
    follows(logs[k], logs[k + 1])
}

/// Whether logs are those of one store as it is committed to, from first to last.
pub open spec fn one_store(logs: Seq<LogView>) -> bool {
    forall|k: int| 0 <= k < logs.len() - 1 ==> #[trigger] follows_at(logs, k)
}

/// Whatever is committed later, a read that does not reach past the latest event
/// stays as it is.
pub proof fn snapshots_never_change(
    logs: Seq<LogView>,
    k: int,
    m: int,
    key: Seq<char>,
    cut: Cut,
)
    requires
        one_store(logs),
        0 <= k <= m < logs.len(),
        !reaches(cut.through, logs[k].next_id()),
    ensures
        logs[m].read(key, cut) == logs[k].read(key, cut),
        logs[m].blamed(key, cut) == logs[k].blamed(key, cut),
        logs[m].state(cut) == logs[k].state(cut),
        k < m ==> !reaches(cut.through, logs[m].next_id()),
    decreases m - k,
{
    if k < m {
        assert(follows_at(logs, k));
        let (writes, micros) = choose|writes: Seq<WriteView>, micros: int| #[trigger]
            committed(logs[k], writes, micros, logs[k + 1]);
        reads_before_a_commit_are_kept(logs[k], writes, micros, logs[k + 1], key, cut);
        states_before_a_commit_are_kept(logs[k], writes, micros, logs[k + 1], cut);
        a_commit_keeps_order(logs[k], writes, micros, logs[k + 1]);
        snapshots_never_change(logs, k + 1, m, key, cut);
    }
}

/// Whatever is committed later, an event stays as it is.
pub proof fn events_never_change(logs: Seq<LogView>, k: int, m: int, id: EventId)
    requires
        one_store(logs),
        0 <= k <= m < logs.len(),
        logs[k].has_event(id),
    ensures
        logs[m].has_event(id),
        logs[m].event(id) == logs[k].event(id),
        logs[m].committed_at(id) == logs[k].committed_at(id),
    decreases m - k,
{
    if k < m {
        assert(follows_at(logs, k));
        let (writes, micros) = choose|writes: Seq<WriteView>, micros: int| #[trigger]
            committed(logs[k], writes, micros, logs[k + 1]);
        events_before_a_commit_are_kept(logs[k], writes, micros, logs[k + 1], id);
        let e = choose|e: int| logs[k].is_event(e, id);
        assert(logs[k].is_event(e, id));
        assert(logs[k + 1].is_event(e, id));
        events_never_change(logs, k + 1, m, id);
    }
}

/// A store that begins without events is always in order, its events are numbered
/// from one on, one for each commit, and every change belongs to one of them.
pub proof fn a_store_stays_in_order(logs: Seq<LogView>, m: int)
    requires
        one_store(logs),
        0 <= m < logs.len(),
        logs[0].events.len() == 0,
        logs[0].changes.len() == 0,
    ensures
        logs[m].wf(),
        logs[m].linked(),
        numbered(logs[m]),
        logs[m].events.len() == m,
    decreases m,
{
    if m > 0 {
        a_store_stays_in_order(logs, m - 1);
        assert(follows_at(logs, m - 1));
        let (writes, micros) = choose|writes: Seq<WriteView>, micros: int| #[trigger]
            committed(logs[m - 1], writes, micros, logs[m]);
        a_commit_keeps_order(logs[m - 1], writes, micros, logs[m]);
        a_commit_appends(logs[m - 1], writes, micros, logs[m]);
        commits_are_numbered(logs[m - 1], writes, micros, logs[m]);
    }
}

} // verus!
