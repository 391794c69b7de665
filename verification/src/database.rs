//! A store, and snapshots of it.

use crate::committing::{a_commit_keeps_order, a_commit_reads_back, committed};
use crate::coordinate::{Coordinate, EventId, TransactionCutoff, ValidCutoff};
use crate::delta::{deltas_view, difference, diff_states, Delta, DeltaView};
use crate::error::Error;
use crate::keymap::{names, names_ascend, KeyMap};
use crate::log::{
    blame_view, changepoints_read, event_view, history_view, state_view, tables, ChangeRow, Event,
    EventRow, Log, RecordedAssertion, State,
};
use crate::model::{event_is_unique, ChangeView, Cut, EventRowView, LogView};
use crate::raw::read_view;
use crate::time::{truncated, Timestamp, MAX_NANOS, MIN_NANOS};
use crate::value::{Value, ValueView};
use crate::write::{wins, writes_view, Write, WriteView};
use std::marker::PhantomData;
use vstd::prelude::*;

verus! {

/// The access of a store that can only be read.
pub struct ReadOnly;

/// The access of a store that can be read and committed to.
pub struct ReadWrite;

/// A store: a log of events, of which each asserts values of keys.
pub struct Handle<Access> {
    log: Log,
    access: PhantomData<Access>,
}

/// A store that can be read and committed to.
pub type Database = Handle<ReadWrite>;

/// A store that can only be read.
pub type Reader = Handle<ReadOnly>;

impl<Access> View for Handle<Access> {
    type V = LogView;

    closed spec fn view(&self) -> LogView {
        self.log@
    }
}

/// A store as it was known at one time, about one time.
#[derive(Clone, Copy)]
pub struct Snapshot<'db> {
    log: &'db Log,
    coordinate: Coordinate,
}

/// The model of a `Snapshot`.
#[verifier::ext_equal]
pub struct SnapshotView {
    pub log: LogView,
    pub coordinate: Coordinate,
}

impl SnapshotView {
    /// The cutoffs of the snapshot.
    pub open spec fn cut(self) -> Cut {
        self.coordinate@
    }
}

impl<'db> View for Snapshot<'db> {
    type V = SnapshotView;

    closed spec fn view(&self) -> SnapshotView {
        SnapshotView { log: self.log@, coordinate: self.coordinate }
    }
}

/// Whether a snapshot is the one at an event: it includes the events through it,
/// and the valid times through that of its commit.
pub open spec fn stands_at(snapshot: SnapshotView, log: LogView, id: EventId) -> bool {
    &&& snapshot.log == log
    &&& snapshot.coordinate.transaction == TransactionCutoff::Through(id)
    &&& snapshot.coordinate.valid matches ValidCutoff::Through(time) && log.committed_at(id)
        == Ok::<int, Error>(time@)
}

/// Whether a commit answered `r` and turned the log `before` into `after`, when it
/// was given `writes` at the microsecond `micros`.
pub open spec fn commit_at_micros(
    before: LogView,
    writes: Seq<WriteView>,
    micros: int,
    r: Result<EventId, Error>,
    after: LogView,
) -> bool {
    match before.refusal(writes, micros) {
        Some(e) => r == Err::<EventId, Error>(e) && after == before,
        None => {
            &&& r == Ok::<EventId, Error>(before.next_id())
            &&& before.commits_to(writes, micros, after)
        },
    }
}

/// Whether a predicate can give an answer at an event.
pub open spec fn answers<Predicate>(
    predicate: Predicate,
    log: LogView,
    id: int,
    answer: Result<bool, Error>,
) -> bool where Predicate: FnMut(Snapshot<'_>) -> Result<bool, Error> {
    exists|snapshot: Snapshot<'_>| #[trigger]
        stands_at(snapshot@, log, id as u64) && call_ensures(predicate, (snapshot,), answer)
}

impl Handle<ReadOnly> {
    /// A store that can only be read, from the rows of its tables.
    pub fn inspect(events: Vec<EventRow>, changes: Vec<ChangeRow>) -> (r: Result<Self, Error>)
        ensures
            tables(events@, changes@).wf() ==> r is Ok && r->Ok_0@ == tables(events@, changes@),
            !tables(events@, changes@).wf() ==> r == Err::<Self, Error>(Error::Corrupt),
    {
        match Log::from_rows(events, changes) {
            Ok(log) => Ok(Handle { log, access: PhantomData }),
            Err(e) => Err(e),
        }
    }
}

impl Handle<ReadWrite> {
    /// A store from the rows of its tables.
    pub fn open(events: Vec<EventRow>, changes: Vec<ChangeRow>) -> (r: Result<Self, Error>)
        ensures
            tables(events@, changes@).wf() ==> r is Ok && r->Ok_0@ == tables(events@, changes@),
            !tables(events@, changes@).wf() ==> r == Err::<Self, Error>(Error::Corrupt),
    {
        match Log::from_rows(events, changes) {
            Ok(log) => Ok(Handle { log, access: PhantomData }),
            Err(e) => Err(e),
        }
    }

    /// A store without events.
    pub fn memory() -> (r: Result<Self, Error>)
        ensures
            r is Ok,
            r->Ok_0@ == (LogView {
                events: Seq::<EventRowView>::empty(),
                changes: Seq::<ChangeView>::empty(),
            }),
    {
        Ok(Handle { log: Log::empty(), access: PhantomData })
    }

    /// Records writes as one event, committed at the time of the system clock,
    /// and returns its ID.
    ///
    /// Writes without a valid time get that of the commit. Of the writes for one
    /// key and valid time, in microseconds, the last is kept. Without any write
    /// there is no event.
    pub fn commit(&mut self, writes: Vec<Write>) -> (r: Result<EventId, Error>)
        ensures
            exists|now: Timestamp| #[trigger]
                call_ensures(Timestamp::now, (), now) && MIN_NANOS <= now@ <= MAX_NANOS
                    && commit_at_micros(
                    old(self)@,
                    writes_view(writes@),
                    truncated(now@),
                    r,
                    final(self)@,
                ),
    {
        let now = Timestamp::now();
        assert(call_ensures(Timestamp::now, (), now));
        self.commit_at(writes, now)
    }

    /// As `commit`, with the time of the commit as an argument.
    pub fn commit_at(&mut self, writes: Vec<Write>, committed_at: Timestamp) -> (r: Result<
        EventId,
        Error,
    >)
        ensures
            commit_at_micros(
                old(self)@,
                writes_view(writes@),
                truncated(committed_at@),
                r,
                final(self)@,
            ),
    {
        self.log.commit_at(writes, committed_at)
    }
}

impl<Access> Handle<Access> {
    /// How many events there are.
    pub fn len(&self) -> (r: Result<u64, Error>)
        ensures
            r is Ok,
            r->Ok_0 == self@.events.len(),
            self@.wf(),
    {
        Ok(self.log.len())
    }

    /// Whether there is no event.
    pub fn is_empty(&self) -> (r: Result<bool, Error>)
        ensures
            r == Ok::<bool, Error>(self@.events.len() == 0),
    {
        match self.len() {
            Ok(len) => Ok(len == 0),
            Err(e) => Err(e),
        }
    }

    /// The snapshot at an event: it includes the events through it, and the valid
    /// times through that of its commit.
    pub fn at(&self, id: EventId) -> (r: Result<Snapshot<'_>, Error>)
        ensures
            match self@.committed_at(id) {
                Ok(_) => r is Ok && stands_at(r->Ok_0@, self@, id),
                Err(e) => r == Err::<Snapshot<'_>, Error>(e),
            },
    {
        match self.log.event_timestamp(id) {
            Ok(valid_through) => Ok(
                Snapshot::new(
                    &self.log,
                    TransactionCutoff::Through(id),
                    ValidCutoff::Through(valid_through),
                ),
            ),
            Err(e) => Err(e),
        }
    }

    /// The snapshot at a time: it includes the events through the last that was
    /// committed by then, and the valid times through then.
    ///
    /// The last is the one with the greatest commit time, and of those the one with the
    /// greatest ID. Where the clock moved back, an event before it may have a later
    /// commit time and is included, and one after it may have an earlier and is not.
    pub fn known_at(&self, time: Timestamp) -> (r: Result<Snapshot<'_>, Error>)
        ensures
            r is Ok,
            r->Ok_0@.log == self@,
            r->Ok_0@.coordinate.transaction.last() == self@.known_at(truncated(time@)),
            r->Ok_0@.coordinate.valid == ValidCutoff::Through(time),
    {
        let transaction = TransactionCutoff::from(self.log.event_id_at(time));
        Ok(Snapshot::new(&self.log, transaction, ValidCutoff::Through(time)))
    }

    /// The snapshot of all events, with the valid times through that of the system
    /// clock.
    pub fn latest(&self) -> (r: Result<Snapshot<'_>, Error>)
        ensures
            r is Ok,
            r->Ok_0@.log == self@,
            r->Ok_0@.coordinate.transaction.last() == self@.latest(),
            exists|now: Timestamp| #[trigger]
                call_ensures(Timestamp::now, (), now) && r->Ok_0@.coordinate.valid
                    == ValidCutoff::Through(now),
    {
        let now = Timestamp::now();
        assert(call_ensures(Timestamp::now, (), now));
        self.latest_at(now)
    }

    /// As `latest`, with the last valid time as an argument.
    pub fn latest_at(&self, now: Timestamp) -> (r: Result<Snapshot<'_>, Error>)
        ensures
            r is Ok,
            r->Ok_0@.log == self@,
            r->Ok_0@.coordinate.transaction.last() == self@.latest(),
            r->Ok_0@.coordinate.valid == ValidCutoff::Through(now),
    {
        let transaction = TransactionCutoff::from(self.log.latest_event_id());
        Ok(Snapshot::new(&self.log, transaction, ValidCutoff::Through(now)))
    }

    /// An event with its assertions, in the order of keys and valid times.
    pub fn event(&self, id: EventId) -> (r: Result<Event, Error>)
        ensures
            event_view(r) == self@.event(id),
    {
        self.log.event(id)
    }

    /// All keys that were ever asserted, in order.
    pub fn keys(&self) -> (r: Result<Vec<String>, Error>)
        ensures
            r is Ok,
            names_ascend(r->Ok_0@),
            forall|key: Seq<char>| #[trigger] names(r->Ok_0@, key) <==> self@.asserted(key),
    {
        Ok(self.log.keys())
    }

    /// All that was recorded about a key, in the order of events and valid times.
    pub fn history(&self, key: &str) -> (r: Result<Vec<RecordedAssertion>, Error>)
        ensures
            history_view(r) == self@.history(key@),
    {
        self.log.history(key)
    }

    /// Gives the store up.
    pub fn close(self) -> (r: Result<(), Error>)
        ensures
            r == Ok::<(), Error>(()),
    {
        Ok(())
    }

    /// The first event at which a predicate holds, if it changes at most once
    /// from false to true.
    ///
    /// The events are taken to be numbered from one on without a gap, which is
    /// how a store numbers them. On a predicate that changes more than once, some
    /// event is found at which it turns true.
    pub fn bisect<Predicate>(&self, predicate: Predicate) -> (r: Result<Option<EventId>, Error>)
        where Predicate: FnMut(Snapshot<'_>) -> Result<bool, Error>
        requires
            forall|snapshot: Snapshot<'_>, id: EventId|
                1 <= id <= self@.events.len() && #[trigger] stands_at(snapshot@, self@, id)
                    ==> call_requires(predicate, (snapshot,)),
        ensures
            searched(predicate, self@, 1, self@.events.len() as int, None, r),
            bisected(predicate, self@, r),
    {
        let mut ask = predicate;
        let len = self.log.len();
        let ghost view = self@;
        let mut first: u64 = 1;
        let mut last: u64 = len;
        let mut found: Option<EventId> = None;
        while first <= last
            invariant
                view == self@,
                ask == predicate,
                len == view.events.len(),
                forall|snapshot: Snapshot<'_>, id: EventId|
                    1 <= id <= len && #[trigger] stands_at(snapshot@, view, id)
                        ==> call_requires(predicate, (snapshot,)),
                forall|r: Result<Option<EventId>, Error>| #[trigger]
                    searched(predicate, view, first as int, last as int, found, r) ==> searched(
                        predicate,
                        view,
                        1,
                        len as int,
                        None,
                        r,
                    ),
                1 <= first <= last + 1,
                last <= len,
                first == 1 || answers(predicate, view, first - 1, Ok(false)),
                found is None ==> last == len,
                found matches Some(id) ==> id == last + 1 && id <= len && answers(
                    predicate,
                    view,
                    id as int,
                    Ok(true),
                ),
            decreases last + 1 - first,
        {
            let middle: u64 = first + (last - first) / 2;
            let ghost (low, high, so_far) = (first as int, last as int, found);
            let snapshot = match self.at(middle) {
                Ok(snapshot) => snapshot,
                Err(e) => {
                    assert(fails(predicate, view, middle as int, e));
                    assert(searched(predicate, view, low, high, so_far, Err(e)));
                    return Err(e);
                },
            };
            match ask(snapshot) {
                Ok(true) => {
                    assert(answers(predicate, view, middle as int, Ok(true)));
                    found = Some(middle);
                    assert forall|r: Result<Option<EventId>, Error>| #[trigger]
                        searched(predicate, view, low, middle - 1, found, r) implies searched(
                        predicate,
                        view,
                        1,
                        len as int,
                        None,
                        r,
                    ) by {
                        assert(searched(predicate, view, low, high, so_far, r));
                    }
                    if middle == 1 {
                        assert(searched(predicate, view, low, middle - 1, found, Ok(found)));
                        return Ok(found);
                    }
                    last = middle - 1;
                },
                Ok(false) => {
                    assert(answers(predicate, view, middle as int, Ok(false)));
                    assert forall|r: Result<Option<EventId>, Error>| #[trigger]
                        searched(predicate, view, middle + 1, high, found, r) implies searched(
                        predicate,
                        view,
                        1,
                        len as int,
                        None,
                        r,
                    ) by {
                        assert(searched(predicate, view, low, high, so_far, r));
                    }
                    if middle == last {
                        assert(searched(predicate, view, middle + 1, high, found, Ok(found)));
                        return Ok(found);
                    }
                    first = middle + 1;
                },
                Err(e) => {
                    assert(fails(predicate, view, middle as int, e));
                    assert(searched(predicate, view, low, high, so_far, Err(e)));
                    return Err(e);
                },
            }
        }
        assert(searched(predicate, view, first as int, last as int, found, Ok(found)));
        Ok(found)
    }
}

/// Whether a search for the first event at which a predicate holds, among the events
/// from `first` to `last`, answers `r`, where `found` is the answer if it holds at
/// none of them. The search asks at the middle event. If that cannot be read, or the
/// predicate fails, that is the answer. If the predicate holds, the search goes on
/// among the events before, and else among those after.
pub open spec fn searched<Predicate>(
    predicate: Predicate,
    log: LogView,
    first: int,
    last: int,
    found: Option<EventId>,
    r: Result<Option<EventId>, Error>,
) -> bool where Predicate: FnMut(Snapshot<'_>) -> Result<bool, Error>
    decreases last - first + 1,
{
    if first > last {
        r == Ok::<Option<EventId>, Error>(found)
    } else {
        let middle = first + (last - first) / 2;
        ||| r matches Err(e) && fails(predicate, log, middle, e)
        ||| {
            &&& answers(predicate, log, middle, Ok(true))
            &&& searched(predicate, log, first, middle - 1, Some(middle as EventId), r)
        }
        ||| {
            &&& answers(predicate, log, middle, Ok(false))
            &&& searched(predicate, log, middle + 1, last, found, r)
        }
    }
}

/// Whether a predicate gives one answer at each event.
pub open spec fn answers_one<Predicate>(predicate: Predicate, log: LogView) -> bool where
    Predicate: FnMut(Snapshot<'_>) -> Result<bool, Error>
 {
    forall|id: int, a: Result<bool, Error>, b: Result<bool, Error>| #[trigger]
        answers(predicate, log, id, a) && #[trigger] answers(predicate, log, id, b) ==> a == b
}

/// Of a predicate that gives one answer at each event, a search has one answer. So an
/// error that the predicate gives where it is asked is handed on, whatever it gave
/// before.
pub proof fn a_search_is_determined<Predicate>(
    predicate: Predicate,
    log: LogView,
    first: int,
    last: int,
    found: Option<EventId>,
    r: Result<Option<EventId>, Error>,
    other: Result<Option<EventId>, Error>,
) where Predicate: FnMut(Snapshot<'_>) -> Result<bool, Error>
    requires
        answers_one(predicate, log),
        searched(predicate, log, first, last, found, r),
        searched(predicate, log, first, last, found, other),
    ensures
        r == other,
    decreases last - first + 1,
{
    if first <= last {
        let middle = first + (last - first) / 2;
        if answers(predicate, log, middle, Ok(true)) && searched(
            predicate,
            log,
            first,
            middle - 1,
            Some(middle as EventId),
            r,
        ) && searched(predicate, log, first, middle - 1, Some(middle as EventId), other) {
            a_search_is_determined(
                predicate,
                log,
                first,
                middle - 1,
                Some(middle as EventId),
                r,
                other,
            );
        } else if searched(predicate, log, middle + 1, last, found, r) && searched(
            predicate,
            log,
            middle + 1,
            last,
            found,
            other,
        ) {
            a_search_is_determined(predicate, log, middle + 1, last, found, r, other);
        }
    }
}

/// What a search for the first event at which a predicate holds can find: an event
/// at which it holds, while it does not at the one before; or none, if it does not
/// hold at the last. The search fails only where an event cannot be read, or the
/// predicate fails.
pub open spec fn bisected<Predicate>(
    predicate: Predicate,
    log: LogView,
    r: Result<Option<EventId>, Error>,
) -> bool where Predicate: FnMut(Snapshot<'_>) -> Result<bool, Error> {
    let len = log.events.len() as int;
    match r {
        Ok(Some(id)) => {
            &&& 1 <= id <= len
            &&& answers(predicate, log, id as int, Ok(true))
            &&& id == 1 || answers(predicate, log, id - 1, Ok(false))
        },
        Ok(None) => len == 0 || answers(predicate, log, len, Ok(false)),
        Err(e) => exists|id: int|
            1 <= id <= len && #[trigger] fails(predicate, log, id, e),
    }
}

/// Whether the search fails at an event: it cannot be read, or the predicate fails.
pub open spec fn fails<Predicate>(predicate: Predicate, log: LogView, id: int, e: Error) -> bool where
    Predicate: FnMut(Snapshot<'_>) -> Result<bool, Error>
 {
    log.committed_at(id as u64) == Err::<int, Error>(e) || answers(predicate, log, id, Err(e))
}

impl<'db> Snapshot<'db> {
    fn new(log: &'db Log, transaction: TransactionCutoff, valid: ValidCutoff) -> (snapshot: Self)
        ensures
            snapshot@ == (SnapshotView { log: log@, coordinate: Coordinate { transaction, valid } }),
    {
        Snapshot { log, coordinate: Coordinate { transaction, valid } }
    }

    /// Where the snapshot stands.
    pub fn coordinate(&self) -> (coordinate: Coordinate)
        ensures
            coordinate == self@.coordinate,
    {
        self.coordinate
    }

    /// The last event that is included, if any is.
    pub fn event_id(&self) -> (r: Option<EventId>)
        ensures
            r == self@.coordinate.transaction.last(),
    {
        self.coordinate.transaction.event_id()
    }

    /// The last valid time that is included, if there is a last.
    pub fn valid_through(&self) -> (r: Option<Timestamp>)
        ensures
            r == (match self@.coordinate.valid {
                ValidCutoff::Through(time) => Some(time),
                ValidCutoff::Unbounded => None,
            }),
    {
        self.coordinate.valid.timestamp()
    }

    /// The snapshot of the same events that includes the valid times through
    /// `time`.
    pub fn valid_at(self, time: Timestamp) -> (snapshot: Self)
        ensures
            snapshot@ == (SnapshotView {
                log: self@.log,
                coordinate: Coordinate {
                    transaction: self@.coordinate.transaction,
                    valid: ValidCutoff::Through(time),
                },
            }),
    {
        Snapshot::new(self.log, self.coordinate.transaction, ValidCutoff::Through(time))
    }

    /// The snapshot of the same events that includes all valid times.
    pub fn valid_unbounded(self) -> (snapshot: Self)
        ensures
            snapshot@ == (SnapshotView {
                log: self@.log,
                coordinate: Coordinate {
                    transaction: self@.coordinate.transaction,
                    valid: ValidCutoff::Unbounded,
                },
            }),
    {
        Snapshot::new(self.log, self.coordinate.transaction, ValidCutoff::Unbounded)
    }

    /// The value of a key.
    pub fn get(&self, key: &str) -> (r: Result<Option<Value>, Error>)
        ensures
            read_view(r) == self@.log.read(key@, self@.cut()),
    {
        self.log.get(self.coordinate, key)
    }

    /// The assertion of a key that is in force, with its event. It may be a
    /// deletion.
    pub fn blame(&self, key: &str) -> (r: Result<Option<RecordedAssertion>, Error>)
        ensures
            blame_view(r) == self@.log.blamed(key@, self@.cut()),
    {
        self.log.blame(self.coordinate, key)
    }

    /// The times from which the assertions of the included events are valid, in
    /// order.
    pub fn changepoints(&self) -> (r: Result<Vec<Timestamp>, Error>)
        ensures
            changepoints_read(r, self@.log, self@.cut().through),
    {
        self.log.changepoints(self.coordinate.transaction)
    }

    /// All values, in the order of their keys.
    pub fn state(&self) -> (r: Result<State, Error>)
        ensures
            state_view(r) == self@.log.state(self@.cut()),
    {
        self.log.state(self.coordinate)
    }

    /// How the state at another snapshot differs from the one here.
    pub fn diff(&self, other: &Snapshot<'_>) -> (r: Result<KeyMap<Delta>, Error>)
        ensures
            diff_view(r) == compared(
                self@.log.state(self@.cut()),
                other@.log.state(other@.cut()),
            ),
    {
        let before = match self.state() {
            Ok(state) => state,
            Err(e) => {
                return Err(e);
            },
        };
        let after = match other.state() {
            Ok(state) => state,
            Err(e) => {
                return Err(e);
            },
        };
        Ok(diff_states(&before, &after))
    }
}

/// The model of a difference that was read.
pub open spec fn diff_view(r: Result<KeyMap<Delta>, Error>) -> Result<
    Map<Seq<char>, DeltaView>,
    Error,
> {
    match r {
        Ok(deltas) => Ok(deltas_view(deltas@)),
        Err(e) => Err(e),
    }
}

/// The difference of two states, or the error of the first that cannot be read.
pub open spec fn compared(
    before: Result<Map<Seq<char>, ValueView>, Error>,
    after: Result<Map<Seq<char>, ValueView>, Error>,
) -> Result<Map<Seq<char>, DeltaView>, Error> {
    match (before, after) {
        (Ok(before), Ok(after)) => Ok(difference(before, after)),
        (Err(e), _) => Err(e),
        (_, Err(e)) => Err(e),
    }
}

/// Whether a predicate changes at most once, from false to true, from the first
/// event to the last.
pub open spec fn turns_once<Predicate>(predicate: Predicate, log: LogView) -> bool where
    Predicate: FnMut(Snapshot<'_>) -> Result<bool, Error>
 {
    forall|i: int, j: int|
        1 <= i <= j <= log.events.len() && #[trigger] answers(predicate, log, i, Ok(true))
            ==> !#[trigger] answers(predicate, log, j, Ok(false))
}

/// Of a predicate that changes at most once, from false to true, a search finds the
/// first event at which it holds; and it finds none only if there is none.
pub proof fn bisect_finds_the_first<Predicate>(
    predicate: Predicate,
    log: LogView,
    r: Result<Option<EventId>, Error>,
) where Predicate: FnMut(Snapshot<'_>) -> Result<bool, Error>
    requires
        bisected(predicate, log, r),
        turns_once(predicate, log),
    ensures
        r matches Ok(Some(id)) ==> {
            &&& answers(predicate, log, id as int, Ok(true))
            &&& forall|i: int| 1 <= i < id ==> !#[trigger] answers(predicate, log, i, Ok(true))
        },
        r matches Ok(None) ==> forall|i: int|
            1 <= i <= log.events.len() ==> !#[trigger] answers(predicate, log, i, Ok(true)),
{
}

/// The snapshot at a commit reads the values of its writes without a valid time of
/// their own, of which for each key the last counts.
pub proof fn the_snapshot_at_a_commit_reads_its_writes(
    log: LogView,
    writes: Seq<WriteView>,
    micros: int,
    new: LogView,
    snapshot: SnapshotView,
    i: int,
)
    requires
        committed(log, writes, micros, new),
        stands_at(snapshot, new, log.next_id()),
        wins(writes, micros, i),
        writes[i].valid is None,
    ensures
        snapshot.log.read(writes[i].key, snapshot.cut()) == Ok::<Option<ValueView>, Error>(
            writes[i].value,
        ),
{
    a_commit_keeps_order(log, writes, micros, new);
    assert(new.is_event(log.events.len() as int, log.next_id()));
    event_is_unique(new, log.events.len() as int, log.next_id());
    a_commit_reads_back(log, writes, micros, new, i);
}

/// A search does not fail of itself: where the events are numbered from one on with times
/// that can be read, and the predicate fails at none of them, there is an answer; and
/// without events the answer is none.
pub proof fn a_search_succeeds<Access, Predicate>(
    store: &Handle<Access>,
    predicate: Predicate,
    r: Result<Option<EventId>, Error>,
) where Predicate: FnMut(Snapshot<'_>) -> Result<bool, Error>
    requires
        call_ensures(Handle::<Access>::bisect::<Predicate>, (store, predicate), r),
        store@.wf(),
        forall|i: int|
            0 <= i < store@.events.len() ==> (#[trigger] store@.events[i]).seq == i + 1
                && -377705023201000000 <= store@.events[i].ts <= 253402207200000000,
        forall|id: int, e: Error|
            1 <= id <= store@.events.len() ==> !#[trigger] answers(predicate, store@, id, Err(e)),
    ensures
        r is Ok,
        store@.events.len() == 0 ==> r == Ok::<Option<EventId>, Error>(None),
{
    let log = store@;
    if let Err(e) = r {
        let id = choose|id: int|
            1 <= id <= log.events.len() && #[trigger] fails(predicate, log, id, e);
        assert(log.events[id - 1].seq == id);
        assert(log.is_event(id - 1, id as u64));
        event_is_unique(log, id - 1, id as u64);
        assert(!answers(predicate, log, id, Err(e)));
    }
}

/// An error of the predicate where the search asks first, in the middle, is handed on.
pub proof fn an_error_is_handed_on<Access, Predicate>(
    store: &Handle<Access>,
    predicate: Predicate,
    r: Result<Option<EventId>, Error>,
    middle: int,
    e: Error,
) where Predicate: FnMut(Snapshot<'_>) -> Result<bool, Error>
    requires
        call_ensures(Handle::<Access>::bisect::<Predicate>, (store, predicate), r),
        store@.events.len() > 0,
        2 * middle - 1 <= store@.events.len() <= 2 * middle,
        store@.committed_at(middle as u64) is Ok,
        forall|answer: Result<bool, Error>| #[trigger]
            answers(predicate, store@, middle, answer) ==> answer == Err::<
                bool,
                Error,
            >(e),
    ensures
        r == Err::<Option<EventId>, Error>(e),
{
    let len = store@.events.len() as int;
    assert(1 + (len - 1) / 2 == middle);
}

} // verus!
