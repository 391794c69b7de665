//! The model of a log: what its tables hold, and what each read selects.

use crate::error::Error;
use crate::raw::{encoded, RawView, StorageKind};
use crate::time::readable;
use crate::value::ValueView;
use crate::write::{
    is_resolution, slot_lt, slot_lt_transitive, slot_lt_trichotomy, slots_ascend, wins, ResolvedView,
    WriteView,
};
use vstd::prelude::*;

verus! {

/// A row of the table of events: the event's ID, and the microsecond of its
/// commit.
#[verifier::ext_equal]
pub struct EventRowView {
    pub seq: u64,
    pub ts: int,
}

/// A row of the table of changes: the event that made the assertion, its key, the
/// microsecond from which it is valid, and its value.
#[verifier::ext_equal]
pub struct ChangeView {
    pub seq: u64,
    pub key: Seq<char>,
    pub valid: int,
    pub raw: RawView,
}

/// What a log's two tables hold: the events in the order of their IDs, and the
/// changes in the order of events, keys and valid times.
#[verifier::ext_equal]
pub struct LogView {
    pub events: Seq<EventRowView>,
    pub changes: Seq<ChangeView>,
}

/// A cutoff on each axis: the last event that is included, or `None` if none is,
/// and the last microsecond of valid time, or `None` if all are.
pub struct Cut {
    pub through: Option<u64>,
    pub valid: Option<int>,
}

/// The model of an `Assertion`. Its valid time is in nanoseconds.
#[verifier::ext_equal]
pub struct AssertionView {
    pub key: Seq<char>,
    pub valid_from: int,
    pub value: Option<ValueView>,
}

/// The model of an `Event`. Its commit time is in nanoseconds.
#[verifier::ext_equal]
pub struct EventView {
    pub id: u64,
    pub committed_at: int,
    pub assertions: Seq<AssertionView>,
}

/// The model of a `RecordedAssertion`. Its commit time is in nanoseconds.
#[verifier::ext_equal]
pub struct RecordedView {
    pub event_id: u64,
    pub committed_at: int,
    pub assertion: AssertionView,
}

/// Whether event `seq` is included by a cutoff.
pub open spec fn reaches(through: Option<u64>, seq: u64) -> bool {
    through matches Some(last) && seq <= last
}

impl Cut {
    /// Whether a change is within both cutoffs.
    pub open spec fn admits(self, change: ChangeView) -> bool {
        &&& reaches(self.through, change.seq)
        &&& self.valid matches Some(last) ==> change.valid <= last
    }
}

impl ChangeView {
    /// The order of changes in the log.
    pub open spec fn before(self, other: ChangeView) -> bool {
        self.seq < other.seq || (self.seq == other.seq && slot_lt(
            self.key,
            self.valid,
            other.key,
            other.valid,
        ))
    }

    /// Whether this change overrides another of the same key: it is valid from a
    /// later time, or from the same time and made by an event that is not
    /// earlier.
    pub open spec fn overrides(self, other: ChangeView) -> bool {
        other.valid < self.valid || (other.valid == self.valid && other.seq <= self.seq)
    }

    /// The assertion that the change makes.
    pub open spec fn assertion(self) -> Result<AssertionView, Error> {
        match self.raw.decoded() {
            Ok(value) => if readable(self.valid) {
                Ok(AssertionView { key: self.key, valid_from: self.valid * 1000, value })
            } else {
                Err(Error::Corrupt)
            },
            Err(e) => Err(e),
        }
    }
}

/// Whether changes stand in order.
pub open spec fn in_order(changes: Seq<ChangeView>) -> bool {
    forall|i: int, j: int|
        0 <= i < j < changes.len() ==> (#[trigger] changes[i]).before(#[trigger] changes[j])
}

/// Whether a list holds the changes of two others, and no more.
pub open spec fn holds_both(
    all: Seq<ChangeView>,
    some: Seq<ChangeView>,
    more: Seq<ChangeView>,
) -> bool {
    forall|change: ChangeView| #[trigger]
        all.contains(change) <==> some.contains(change) || more.contains(change)
}

impl LogView {
    /// What the tables' keys demand: event IDs ascend, and changes stand in order
    /// with no two of one event, key and valid time.
    pub open spec fn wf(self) -> bool {
        &&& forall|i: int, j: int|
            0 <= i < j < self.events.len() ==> (#[trigger] self.events[i]).seq < (
            #[trigger] self.events[j]).seq
        &&& in_order(self.changes)
    }

    /// Whether every change belongs to an event that the log holds. Commits keep it
    /// so; a log whose rows were edited may be otherwise.
    pub open spec fn linked(self) -> bool {
        forall|i: int|
            0 <= i < self.changes.len() ==> self.has_event((#[trigger] self.changes[i]).seq)
    }

    /// Whether the `i`th row of the events is that of event `id`.
    pub open spec fn is_event(self, i: int, id: u64) -> bool {
        0 <= i < self.events.len() && self.events[i].seq == id
    }

    /// Whether the log holds event `id`.
    pub open spec fn has_event(self, id: u64) -> bool {
        exists|i: int| self.is_event(i, id)
    }

    /// The microsecond at which event `id` was committed.
    pub open spec fn time_of(self, id: u64) -> Option<int> {
        if self.has_event(id) {
            Some(self.events[choose|i: int| self.is_event(i, id)].ts)
        } else {
            None
        }
    }

    /// The greatest event ID.
    pub open spec fn latest(self) -> Option<u64> {
        if self.events.len() == 0 {
            None
        } else {
            Some(self.events.last().seq)
        }
    }

    /// Whether the `i`th event was committed by the microsecond `micros`.
    pub open spec fn known(self, micros: int, i: int) -> bool {
        0 <= i < self.events.len() && self.events[i].ts <= micros
    }

    /// Whether the `i`th event is the last that was committed by the microsecond
    /// `micros`: its commit time is the greatest, and its ID is the greatest with
    /// that commit time.
    pub open spec fn last_known(self, micros: int, i: int) -> bool {
        &&& self.known(micros, i)
        &&& forall|j: int| #[trigger]
            self.known(micros, j) ==> self.events[j].ts < self.events[i].ts || (self.events[j].ts
                == self.events[i].ts && self.events[j].seq <= self.events[i].seq)
    }

    /// The last event that was committed by the microsecond `micros`.
    pub open spec fn known_at(self, micros: int) -> Option<u64> {
        if exists|i: int| self.last_known(micros, i) {
            Some(self.events[choose|i: int| self.last_known(micros, i)].seq)
        } else {
            None
        }
    }

    /// Whether the `i`th change is an assertion of `key` within the cutoffs.
    pub open spec fn candidate(self, key: Seq<char>, cut: Cut, i: int) -> bool {
        0 <= i < self.changes.len() && self.changes[i].key == key && cut.admits(self.changes[i])
    }

    /// Whether the `i`th change is, of the assertions of `key` within the
    /// cutoffs, the one with the greatest valid time, and with the greatest
    /// event ID for that valid time.
    pub open spec fn selected(self, key: Seq<char>, cut: Cut, i: int) -> bool {
        &&& self.candidate(key, cut, i)
        &&& forall|j: int| #[trigger]
            self.candidate(key, cut, j) ==> self.changes[i].overrides(self.changes[j])
    }

    /// The assertion of `key` that is in force at the cutoffs.
    pub open spec fn in_force(self, key: Seq<char>, cut: Cut) -> Option<ChangeView> {
        if exists|i: int| self.selected(key, cut, i) {
            Some(self.changes[choose|i: int| self.selected(key, cut, i)])
        } else {
            None
        }
    }

    /// The value of `key` at the cutoffs.
    pub open spec fn read(self, key: Seq<char>, cut: Cut) -> Result<Option<ValueView>, Error> {
        match self.in_force(key, cut) {
            Some(change) => change.raw.decoded(),
            None => Ok(None),
        }
    }

    /// A change with the ID and time of the event that made it.
    pub open spec fn recorded(self, change: ChangeView) -> Result<RecordedView, Error> {
        match (self.committed_at(change.seq), change.assertion()) {
            (Ok(committed_at), Ok(assertion)) => Ok(
                RecordedView { event_id: change.seq, committed_at, assertion },
            ),
            _ => Err(Error::Corrupt),
        }
    }

    /// What the log tells of `key` together with its events: the changes of the key
    /// whose event it holds.
    pub open spec fn told(self, key: Seq<char>) -> LogView {
        LogView {
            events: self.events,
            changes: self.changes.filter(
                |change: ChangeView| change.key == key && self.has_event(change.seq),
            ),
        }
    }

    /// Of the assertions of `key` whose event the log holds, the one in force at the
    /// cutoffs, with its event.
    pub open spec fn blamed(self, key: Seq<char>, cut: Cut) -> Result<Option<RecordedView>, Error> {
        match self.told(key).in_force(key, cut) {
            Some(change) => match self.recorded(change) {
                Ok(recorded) => Ok(Some(recorded)),
                Err(e) => Err(e),
            },
            None => Ok(None),
        }
    }

    /// Whether `key` has a value at the cutoffs: the assertion in force is not of
    /// the kind of a deletion.
    pub open spec fn present(self, key: Seq<char>, cut: Cut) -> bool {
        self.in_force(key, cut) matches Some(change) && change.raw.kind
            != StorageKind::Delete.code_spec()
    }

    /// Whether `key` has no value at the cutoffs, or one that can be read.
    pub open spec fn value_readable(self, key: Seq<char>, cut: Cut) -> bool {
        self.present(key, cut) ==> self.in_force(key, cut)->0.raw.decoded_present() is Ok
    }

    /// The value of `key` at the cutoffs, if it has one that can be read.
    pub open spec fn value_of(self, key: Seq<char>, cut: Cut) -> Option<ValueView> {
        if self.present(key, cut) {
            match self.in_force(key, cut)->0.raw.decoded_present() {
                Ok(value) => Some(value),
                Err(_) => None,
            }
        } else {
            None
        }
    }

    /// Whether the value of each present key can be read.
    pub open spec fn state_readable(self, cut: Cut) -> bool {
        forall|key: Seq<char>| #[trigger] self.value_readable(key, cut)
    }

    /// All values at the cutoffs.
    pub open spec fn state(self, cut: Cut) -> Result<Map<Seq<char>, ValueView>, Error> {
        if self.state_readable(cut) {
            Ok(
                Map::new(
                    |key: Seq<char>| self.value_of(key, cut) is Some,
                    |key: Seq<char>| self.value_of(key, cut)->0,
                ),
            )
        } else {
            Err(Error::Corrupt)
        }
    }

    /// Whether some included event made an assertion that is valid from `valid`.
    pub open spec fn changes_at(self, through: Option<u64>, valid: int) -> bool {
        exists|i: int|
            0 <= i < self.changes.len() && (#[trigger] self.changes[i]).valid == valid && reaches(
                through,
                self.changes[i].seq,
            )
    }

    /// Whether `key` was ever asserted.
    pub open spec fn asserted(self, key: Seq<char>) -> bool {
        exists|i: int| 0 <= i < self.changes.len() && (#[trigger] self.changes[i]).key == key
    }

    /// The changes of one key, in the order of events and valid times.
    pub open spec fn changes_of(self, key: Seq<char>) -> Seq<ChangeView> {
        self.changes.filter(|change: ChangeView| change.key == key)
    }

    /// The changes of one event, in the order of keys and valid times.
    pub open spec fn changes_in(self, id: u64) -> Seq<ChangeView> {
        self.changes.filter(|change: ChangeView| change.seq == id)
    }

    /// All that was recorded about one key by the events that the log holds, in the
    /// order of events and valid times.
    pub open spec fn history(self, key: Seq<char>) -> Result<Seq<RecordedView>, Error> {
        let changes = self.told(key).changes;
        if forall|i: int|
            0 <= i < changes.len() ==> self.recorded(#[trigger] changes[i]) is Ok {
            Ok(changes.map_values(|change: ChangeView| self.recorded(change)->Ok_0))
        } else {
            Err(Error::Corrupt)
        }
    }

    /// The error for an event that the log does not hold.
    pub open spec fn out_of_range(self, id: u64) -> Error {
        Error::OutOfRange { id, len: self.events.len() as u64 }
    }

    /// When event `id` was committed, in nanoseconds.
    pub open spec fn committed_at(self, id: u64) -> Result<int, Error> {
        match self.time_of(id) {
            None => Err(self.out_of_range(id)),
            Some(ts) => if readable(ts) {
                Ok(ts * 1000)
            } else {
                Err(Error::Corrupt)
            },
        }
    }

    /// Event `id` with its assertions, in the order of keys and valid times.
    pub open spec fn event(self, id: u64) -> Result<EventView, Error> {
        let changes = self.changes_in(id);
        match self.committed_at(id) {
            Err(e) => Err(e),
            Ok(committed_at) => if forall|i: int|
                0 <= i < changes.len() ==> (#[trigger] changes[i]).assertion() is Ok {
                Ok(
                    EventView {
                        id,
                        committed_at,
                        assertions: changes.map_values(
                            |change: ChangeView| change.assertion()->Ok_0,
                        ),
                    },
                )
            } else {
                Err(Error::Corrupt)
            },
        }
    }

    /// The ID of the next event.
    pub open spec fn next_id(self) -> u64 {
        next_after(self.latest())
    }

    /// Whether the log holds a change of event `id` for a key and valid time.
    pub open spec fn holds(self, id: u64, key: Seq<char>, valid: int) -> bool {
        exists|i: int|
            0 <= i < self.changes.len() && (#[trigger] self.changes[i]).seq == id
                && self.changes[i].key == key && self.changes[i].valid == valid
    }

    /// Why a commit of `writes` at the microsecond `micros` is refused, if it is: for
    /// a reason of its own, or because the log already holds a change of the next
    /// event, which it does not hold, for the key and valid time of a write that
    /// would be kept.
    pub open spec fn refusal(self, writes: Seq<WriteView>, micros: int) -> Option<Error> {
        match refused(self.latest(), writes, micros) {
            Some(e) => Some(e),
            None => if exists|i: int| #[trigger]
                wins(writes, micros, i) && self.holds(
                    self.next_id(),
                    writes[i].key,
                    writes[i].resolved(micros).valid,
                ) {
                Some(Error::Constraint)
            } else {
                None
            },
        }
    }

    /// Whether `new` is this log after a commit of `writes` at the microsecond
    /// `micros`: the next event is added, and the changes that it makes, each in its
    /// place.
    pub open spec fn commits_to(
        self,
        writes: Seq<WriteView>,
        micros: int,
        new: LogView,
    ) -> bool {
        &&& new.wf()
        &&& new.events == self.events.push(EventRowView { seq: self.next_id(), ts: micros })
        &&& exists|resolved: Seq<ResolvedView>| #[trigger]
            is_resolution(resolved, writes, micros) && holds_both(
                new.changes,
                self.changes,
                rows_of(self.next_id(), resolved),
            )
    }
}

/// The ID of the event after the latest.
pub open spec fn next_after(latest: Option<u64>) -> u64 {
    match latest {
        Some(id) => (id + 1) as u64,
        None => 1,
    }
}

/// Why a commit of `writes` at the microsecond `micros`, after the event `latest`, is
/// refused, if it is: there are none, or no event ID is left, or a write that would
/// be kept has a value that is not a number.
pub open spec fn refused(
    latest: Option<u64>,
    writes: Seq<WriteView>,
    micros: int,
) -> Option<Error> {
    if writes.len() == 0 {
        Some(Error::EmptyCommit)
    } else if latest matches Some(id) && id >= i64::MAX {
        Some(Error::Full)
    } else if exists|i: int| #[trigger]
        wins(writes, micros, i) && (writes[i].value matches Some(value) && value.is_nan()) {
        Some(Error::Constraint)
    } else {
        None
    }
}

/// The rows of the table of changes for the writes of event `id`.
pub open spec fn rows_of(id: u64, resolved: Seq<ResolvedView>) -> Seq<ChangeView> {
    resolved.map_values(
        |write: ResolvedView|
            ChangeView {
                seq: id,
                key: write.key,
                valid: write.valid,
                raw: encoded(write.value),
            },
    )
}

/// At most one row of the events is that of an event.
pub proof fn event_is_unique(log: LogView, i: int, id: u64)
    requires
        log.wf(),
        log.is_event(i, id),
    ensures
        log.time_of(id) == Some(log.events[i].ts),
{
    let j = choose|j: int| log.is_event(j, id);
    assert(log.is_event(j, id));
    if i < j {
        assert(log.events[i].seq < log.events[j].seq);
    } else if j < i {
        assert(log.events[j].seq < log.events[i].seq);
    }
}

/// At most one event is the last known.
pub proof fn last_known_is_unique(log: LogView, micros: int, i: int)
    requires
        log.wf(),
        log.last_known(micros, i),
    ensures
        log.known_at(micros) == Some(log.events[i].seq),
{
    let j = choose|j: int| log.last_known(micros, j);
    assert(log.last_known(micros, j));
    assert(log.known(micros, i) && log.known(micros, j));
}

/// At most one change is selected.
pub proof fn selection_is_unique(log: LogView, key: Seq<char>, cut: Cut, i: int)
    requires
        log.wf(),
        log.selected(key, cut, i),
    ensures
        log.in_force(key, cut) == Some(log.changes[i]),
{
    let j = choose|j: int| log.selected(key, cut, j);
    assert(log.selected(key, cut, j));
    assert(log.candidate(key, cut, i) && log.candidate(key, cut, j));
    let (a, b) = (log.changes[i], log.changes[j]);
    assert(a.overrides(b) && b.overrides(a));
    crate::text::key_lt_irreflexive(key);
    if i < j {
        assert(a.before(b));
    } else if j < i {
        assert(b.before(a));
    }
}

/// No two changes stand before each other, and none before itself.
pub proof fn before_is_asymmetric(a: ChangeView, b: ChangeView)
    ensures
        !a.before(a),
        a.before(b) ==> !b.before(a),
{
    slot_lt_trichotomy(a.key, a.valid, a.key, a.valid);
    slot_lt_trichotomy(a.key, a.valid, b.key, b.valid);
}

/// The order of changes is transitive.
pub proof fn before_is_transitive(a: ChangeView, b: ChangeView, c: ChangeView)
    requires
        a.before(b),
        b.before(c),
    ensures
        a.before(c),
{
    if a.seq == b.seq && b.seq == c.seq {
        slot_lt_transitive(a.key, a.valid, b.key, b.valid, c.key, c.valid);
    }
}

/// Two lists of changes in order that hold the same changes are equal.
pub proof fn same_changes_same_list(a: Seq<ChangeView>, b: Seq<ChangeView>)
    requires
        in_order(a),
        in_order(b),
        forall|change: ChangeView| #[trigger] a.contains(change) <==> b.contains(change),
    ensures
        a == b,
    decreases a.len(),
{
    if a.len() == 0 {
        if b.len() > 0 {
            assert(b.contains(b[0]));
            assert(a.contains(b[0]));
        }
        assert(a =~= b);
    } else {
        let (x, y) = (a.last(), b.last());
        assert(a.contains(x));
        assert(b.contains(x));
        assert(b.contains(y));
        assert(a.contains(y));
        let i = choose|i: int| 0 <= i < a.len() && a[i] == y;
        let j = choose|j: int| 0 <= j < b.len() && b[j] == x;
        before_is_asymmetric(x, y);
        assert(x == y);
        let (c, d) = (a.drop_last(), b.drop_last());
        assert forall|change: ChangeView| #[trigger] c.contains(change) <==> d.contains(change) by {
            before_is_asymmetric(change, x);
            if c.contains(change) {
                let k = choose|k: int| 0 <= k < c.len() && c[k] == change;
                assert(a[k] == change);
                assert(a.contains(change));
                assert(change.before(x));
                let m = choose|m: int| 0 <= m < b.len() && b[m] == change;
                assert(d[m] == change);
            }
            if d.contains(change) {
                let k = choose|k: int| 0 <= k < d.len() && d[k] == change;
                assert(b[k] == change);
                assert(b.contains(change));
                assert(a.contains(change));
                assert(change.before(y));
                let m = choose|m: int| 0 <= m < a.len() && a[m] == change;
                assert(c[m] == change);
            }
        }
        same_changes_same_list(c, d);
        assert(a =~= c.push(x));
        assert(b =~= d.push(y));
    }
}

/// What a filter keeps stays in order.
pub proof fn filter_keeps_order(changes: Seq<ChangeView>, keep: spec_fn(ChangeView) -> bool)
    requires
        in_order(changes),
    ensures
        in_order(changes.filter(keep)),
    decreases changes.len(),
{
    reveal(Seq::filter);
    if changes.len() > 0 {
        let rest = changes.drop_last();
        filter_keeps_order(rest, keep);
        let some = rest.filter(keep);
        assert forall|i: int| 0 <= i < some.len() implies (#[trigger] some[i]).before(
            changes.last(),
        ) by {
            assert(some.contains(some[i]));
            rest.lemma_filter_contains_rev(keep, some[i]);
            let j = choose|j: int| 0 <= j < rest.len() && rest[j] == some[i];
            assert(changes[j] == some[i]);
        }
    }
}

/// A filter keeps the changes that pass it, and no others.
pub proof fn filter_holds(
    changes: Seq<ChangeView>,
    keep: spec_fn(ChangeView) -> bool,
    change: ChangeView,
)
    ensures
        changes.filter(keep).contains(change) <==> changes.contains(change) && keep(change),
{
    let some = changes.filter(keep);
    if some.contains(change) {
        let i = choose|i: int| 0 <= i < some.len() && some[i] == change;
        changes.lemma_filter_pred(keep, i);
        changes.lemma_filter_contains_rev(keep, change);
    }
    if changes.contains(change) && keep(change) {
        let i = choose|i: int| 0 <= i < changes.len() && changes[i] == change;
        changes.lemma_filter_contains(keep, i);
    }
}

/// The rows of writes in order are in order.
pub proof fn rows_are_in_order(id: u64, resolved: Seq<ResolvedView>)
    requires
        slots_ascend(resolved),
    ensures
        in_order(rows_of(id, resolved)),
{
    let rows = rows_of(id, resolved);
    assert forall|i: int, j: int| 0 <= i < j < rows.len() implies (#[trigger] rows[i]).before(
        #[trigger] rows[j],
    ) by {
        let (a, b) = (resolved[i], resolved[j]);
        assert(slot_lt(a.key, a.valid, b.key, b.valid));
    }
}

/// Event IDs still ascend when the next event is added.
pub proof fn events_stay_in_order(log: LogView, micros: int)
    requires
        log.wf(),
        log.latest() matches Some(id) ==> id < u64::MAX,
    ensures
        ({
            let events = log.events.push(EventRowView { seq: log.next_id(), ts: micros });
            forall|i: int, j: int|
                0 <= i < j < events.len() ==> (#[trigger] events[i]).seq < (#[trigger] events[j]).seq
        }),
{
    let events = log.events.push(EventRowView { seq: log.next_id(), ts: micros });
    assert forall|i: int, j: int| 0 <= i < j < events.len() implies (#[trigger] events[i]).seq < (
    #[trigger] events[j]).seq by {
        if j == log.events.len() && i < j - 1 {
            assert(log.events[i].seq < log.events[j - 1].seq);
        }
    }
}

} // verus!
