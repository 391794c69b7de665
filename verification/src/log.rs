//! The tables of a log, and the reads and writes on them.

use crate::coordinate::{Coordinate, EventId, TransactionCutoff};
use crate::error::Error;
use crate::keymap::{insert_key, names, names_ascend, picks, picks_one_more, picks_the_map, KeyMap};
use crate::model::{
    before_is_transitive, event_is_unique, events_stay_in_order, holds_both, in_order,
    last_known_is_unique, next_after, reaches, refused, rows_are_in_order, rows_of, AssertionView,
    ChangeView, Cut, EventRowView, EventView, LogView, RecordedView,
};
use crate::raw::{read_view, RawValue, StorageKind};
use crate::reading::{
    in_force_is_the_greatest, offers, the_greatest_is_in_force, told_is_in_order, told_offers,
};
use crate::text::{key_lt_asymmetric, key_lt_irreflexive, order_of, same_key, Order};
use crate::time::{readable, timestamp, truncated, Timestamp};
use crate::value::{optional, Value, ValueView};
use crate::write::{
    is_resolution, resolve_writes, resolved_view, slot_lt_trichotomy, wins, writes_view,
    ResolvedView, ResolvedWrite, Write, WriteView,
};
use vstd::prelude::*;

verus! {

/// A row of the table of events.
#[derive(Debug, Clone, Copy, PartialEq, Eq, Structural)]
pub struct EventRow {
    pub seq: EventId,
    pub ts: i64,
}

impl View for EventRow {
    type V = EventRowView;

    open spec fn view(&self) -> EventRowView {
        EventRowView { seq: self.seq, ts: self.ts as int }
    }
}

/// A row of the table of changes.
#[derive(Debug)]
pub struct ChangeRow {
    pub seq: EventId,
    pub key: String,
    pub valid: i64,
    pub value: RawValue,
}

impl View for ChangeRow {
    type V = ChangeView;

    open spec fn view(&self) -> ChangeView {
        ChangeView { seq: self.seq, key: self.key@, valid: self.valid as int, raw: self.value@ }
    }
}

/// The model of two tables.
pub open spec fn tables(events: Seq<EventRow>, changes: Seq<ChangeRow>) -> LogView {
    LogView {
        events: events.map_values(|row: EventRow| row@),
        changes: changes.map_values(|row: ChangeRow| row@),
    }
}

/// An assertion of an event: a key is set or deleted from some time on.
#[derive(Debug, Clone, PartialEq)]
pub struct Assertion {
    pub key: String,
    pub valid_from: Timestamp,
    pub value: Option<Value>,
}

impl View for Assertion {
    type V = AssertionView;

    open spec fn view(&self) -> AssertionView {
        AssertionView {
            key: self.key@,
            valid_from: self.valid_from@,
            value: optional(self.value),
        }
    }
}

/// A commit, with the assertions that it made.
#[derive(Debug, Clone, PartialEq)]
pub struct Event {
    pub id: EventId,
    pub committed_at: Timestamp,
    pub assertions: Vec<Assertion>,
}

impl View for Event {
    type V = EventView;

    open spec fn view(&self) -> EventView {
        EventView {
            id: self.id,
            committed_at: self.committed_at@,
            assertions: self.assertions@.map_values(|assertion: Assertion| assertion@),
        }
    }
}

/// An assertion with the commit that made it.
#[derive(Debug, Clone, PartialEq)]
pub struct RecordedAssertion {
    pub event_id: EventId,
    pub committed_at: Timestamp,
    pub assertion: Assertion,
}

impl View for RecordedAssertion {
    type V = RecordedView;

    open spec fn view(&self) -> RecordedView {
        RecordedView {
            event_id: self.event_id,
            committed_at: self.committed_at@,
            assertion: self.assertion@,
        }
    }
}

/// All values at a coordinate.
pub type State = KeyMap<Value>;

/// The model of values by key.
pub open spec fn values_view(values: Map<Seq<char>, Value>) -> Map<Seq<char>, ValueView> {
    values.map_values(|value: Value| value@)
}

impl ChangeRow {
    /// The assertion that the change makes.
    fn decode(&self) -> (r: Result<Assertion, Error>)
        ensures
            r matches Ok(assertion) ==> self@.assertion() == Ok::<AssertionView, Error>(assertion@),
            r matches Err(e) ==> self@.assertion() == Err::<AssertionView, Error>(e),
    {
        let valid_from = match timestamp(self.valid) {
            Ok(time) => time,
            Err(e) => {
                return Err(e);
            },
        };
        match self.value.decode() {
            Ok(value) => Ok(Assertion { key: self.key.clone(), valid_from, value }),
            Err(e) => Err(e),
        }
    }
}

/// The events and changes of a store.
#[derive(Debug)]
pub struct Log {
    events: Vec<EventRow>,
    changes: Vec<ChangeRow>,
}

impl View for Log {
    type V = LogView;

    closed spec fn view(&self) -> LogView {
        tables(self.events@, self.changes@)
    }
}

impl Log {
    #[verifier::type_invariant]
    spec fn in_order(self) -> bool {
        self@.wf()
    }

    /// A log without events.
    pub fn empty() -> (log: Log)
        ensures
            log@.wf(),
            log@.events == Seq::<EventRowView>::empty(),
            log@.changes == Seq::<ChangeView>::empty(),
    {
        let log = Log { events: Vec::new(), changes: Vec::new() };
        log
    }

    /// How many events there are.
    pub fn len(&self) -> (len: u64)
        ensures
            len == self@.events.len(),
            self@.wf(),
    {
        proof {
            use_type_invariant(self);
        }
        self.events.len() as u64
    }

    /// The greatest event ID.
    pub fn latest_event_id(&self) -> (r: Option<EventId>)
        ensures
            r == self@.latest(),
    {
        let n = self.events.len();
        if n == 0 {
            None
        } else {
            Some(self.events[n - 1].seq)
        }
    }

    /// The row of an event.
    fn event_position(&self, id: EventId) -> (r: Option<usize>)
        ensures
            r matches Some(i) ==> self@.is_event(i as int, id),
            r is None ==> !self@.has_event(id),
    {
        proof {
            use_type_invariant(self);
            assert forall|i: int| 0 <= i < self.events@.len() implies (#[trigger] self.events@[i]).seq
                == self@.events[i].seq by {
            }
        }
        let r = find_event(&self.events, id);
        proof {
            assert forall|i: int| r is None implies !#[trigger] self@.is_event(i, id) by {
                if 0 <= i < self.events@.len() {
                    assert(self.events@[i].seq != id);
                }
            }
        }
        r
    }

    /// When an event was committed.
    pub fn event_timestamp(&self, id: EventId) -> (r: Result<Timestamp, Error>)
        ensures
            time_view(r) == self@.committed_at(id),
    {
        match self.event_position(id) {
            Some(i) => {
                proof {
                    use_type_invariant(self);
                    event_is_unique(self@, i as int, id);
                }
                timestamp(self.events[i].ts)
            },
            None => Err(Error::OutOfRange { id, len: self.len() }),
        }
    }

    /// The last event that was committed by a time.
    pub fn event_id_at(&self, time: Timestamp) -> (r: Option<EventId>)
        ensures
            r == self@.known_at(truncated(time@)),
    {
        let micros = time.as_microsecond();
        let ghost view = self@;
        let mut best: Option<usize> = None;
        let mut i: usize = 0;
        while i < self.events.len()
            invariant
                i <= self.events@.len(),
                view == self@,
                best is None ==> forall|j: int| 0 <= j < i ==> (#[trigger] view.events[j]).ts > micros,
                best matches Some(b) ==> {
                    &&& b < i
                    &&& view.events[b as int].ts <= micros
                    &&& forall|j: int|
                        0 <= j < i && (#[trigger] view.events[j]).ts <= micros ==> view.events[j].ts
                            < view.events[b as int].ts || (view.events[j].ts
                            == view.events[b as int].ts && j <= b)
                },
            decreases self.events@.len() - i,
        {
            assert(view.events[i as int].ts == self.events@[i as int].ts);
            if self.events[i].ts <= micros {
                best = match best {
                    Some(b) => {
                        assert(view.events[b as int].ts == self.events@[b as int].ts);
                        if self.events[i].ts < self.events[b].ts {
                            Some(b)
                        } else {
                            Some(i)
                        }
                    },
                    None => Some(i),
                };
            }
            i = i + 1;
        }
        match best {
            Some(b) => {
                proof {
                    use_type_invariant(self);
                    assert(view.last_known(micros as int, b as int)) by {
                        assert forall|j: int| #[trigger] view.known(micros as int, j) implies view.events[j].ts
                            < view.events[b as int].ts || (view.events[j].ts
                            == view.events[b as int].ts && view.events[j].seq <= view.events[b as int].seq) by {
                            if j < b {
                                assert(view.events[j].seq < view.events[b as int].seq);
                            }
                        }
                    }
                    last_known_is_unique(view, micros as int, b as int);
                }
                Some(self.events[b].seq)
            },
            None => {
                assert(forall|j: int| !view.known(micros as int, j));
                None
            },
        }
    }

    /// The change that is in force for a key, of all changes, or of those whose event
    /// the log holds.
    fn select(&self, coordinate: Coordinate, key: &str, joined: bool) -> (r: Option<usize>)
        ensures
            ({
                let view = if joined {
                    self@.told(key@)
                } else {
                    self@
                };
                match r {
                    Some(i) => {
                        &&& i < self.changes@.len()
                        &&& view.in_force(key@, coordinate@) == Some(self.changes@[i as int]@)
                        &&& joined ==> self@.has_event(self.changes@[i as int].seq)
                    },
                    None => view.in_force(key@, coordinate@) is None,
                }
            }),
    {
        let last = coordinate.transaction.event_id();
        let limit = coordinate.valid.micros();
        let ghost view = self@;
        let ghost cut = coordinate@;
        let mut best: Option<usize> = None;
        let mut i: usize = 0;
        while i < self.changes.len()
            invariant
                i <= self.changes@.len(),
                view == self@,
                cut == coordinate@,
                last == cut.through,
                limit is Some <==> cut.valid is Some,
                limit matches Some(micros) ==> cut.valid == Some(micros as int),
                best is None ==> forall|j: int|
                    j < i ==> !#[trigger] eligible(view, key@, cut, joined, j),
                best matches Some(b) ==> {
                    &&& b < i
                    &&& eligible(view, key@, cut, joined, b as int)
                    &&& forall|j: int|
                        j < i && #[trigger] eligible(view, key@, cut, joined, j)
                            ==> view.changes[b as int].overrides(view.changes[j])
                },
            decreases self.changes@.len() - i,
        {
            let row = &self.changes[i];
            assert(view.changes[i as int] == row@);
            let reached = match last {
                Some(id) => row.seq <= id,
                None => false,
            };
            let valid = match limit {
                Some(micros) => row.valid <= micros,
                None => true,
            };
            if reached && valid && same_key(row.key.as_str(), key) && (!joined
                || self.event_position(row.seq).is_some()) {
                assert(eligible(view, key@, cut, joined, i as int));
                best = match best {
                    Some(b) => {
                        let other = &self.changes[b];
                        assert(view.changes[b as int] == other@);
                        if other.valid < row.valid || (other.valid == row.valid && other.seq
                            <= row.seq) {
                            Some(i)
                        } else {
                            Some(b)
                        }
                    },
                    None => Some(i),
                };
            } else {
                assert(!eligible(view, key@, cut, joined, i as int));
            }
            i = i + 1;
        }
        proof {
            use_type_invariant(self);
            if best is Some {
                assert(view.changes[best->0 as int] == self.changes@[best->0 as int]@);
            }
            the_best_is_in_force(view, key@, cut, joined, best);
        }
        best
    }

    /// The value of a key.
    pub fn get(&self, coordinate: Coordinate, key: &str) -> (r: Result<Option<Value>, Error>)
        ensures
            read_view(r) == self@.read(key@, coordinate@),
    {
        match self.select(coordinate, key, false) {
            Some(i) => self.changes[i].value.decode(),
            None => Ok(None),
        }
    }

    /// A change with the ID and time of its event.
    fn record(&self, i: usize) -> (r: Result<RecordedAssertion, Error>)
        requires
            i < self.changes@.len(),
            self@.has_event(self.changes@[i as int].seq),
        ensures
            r matches Ok(recorded) ==> self@.recorded(self.changes@[i as int]@)
                == Ok::<RecordedView, Error>(recorded@),
            r matches Err(e) ==> self@.recorded(self.changes@[i as int]@)
                == Err::<RecordedView, Error>(e),
    {
        let row = &self.changes[i];
        let committed_at = match self.event_timestamp(row.seq) {
            Ok(time) => time,
            Err(e) => {
                return Err(e);
            },
        };
        match row.decode() {
            Ok(assertion) => Ok(RecordedAssertion { event_id: row.seq, committed_at, assertion }),
            Err(e) => Err(e),
        }
    }

    /// The assertion of a key that is in force, with its event. A change whose event
    /// the log does not hold is passed over.
    pub fn blame(&self, coordinate: Coordinate, key: &str) -> (r: Result<
        Option<RecordedAssertion>,
        Error,
    >)
        ensures
            blame_view(r) == self@.blamed(key@, coordinate@),
    {
        match self.select(coordinate, key, true) {
            Some(i) => match self.record(i) {
                Ok(recorded) => Ok(Some(recorded)),
                Err(e) => Err(e),
            },
            None => Ok(None),
        }
    }
}

/// Whether the `i`th change is an assertion of `key` within the cutoffs, and, where
/// asked for, its event is one of the log.
spec fn eligible(log: LogView, key: Seq<char>, cut: Cut, joined: bool, i: int) -> bool {
    log.candidate(key, cut, i) && (joined ==> log.has_event(log.changes[i].seq))
}

/// An eligible change that overrides the others is in force; without any, none is.
proof fn the_best_is_in_force(
    log: LogView,
    key: Seq<char>,
    cut: Cut,
    joined: bool,
    best: Option<usize>,
)
    requires
        log.wf(),
        match best {
            Some(b) => {
                &&& eligible(log, key, cut, joined, b as int)
                &&& forall|j: int| #[trigger]
                    eligible(log, key, cut, joined, j) ==> log.changes[b as int].overrides(
                        log.changes[j],
                    )
            },
            None => forall|j: int| !#[trigger] eligible(log, key, cut, joined, j),
        },
    ensures
        ({
            let view = if joined {
                log.told(key)
            } else {
                log
            };
            view.in_force(key, cut) == (match best {
                Some(b) => Some(log.changes[b as int]),
                None => None,
            })
        }),
{
    let view = if joined {
        log.told(key)
    } else {
        log
    };
    told_is_in_order(log, key);
    assert forall|change: ChangeView| #[trigger] offers(view, key, cut, change) implies exists|j: int|
        #[trigger] eligible(log, key, cut, joined, j) && log.changes[j] == change by {
        told_offers(log, key, cut, change);
        let j = choose|j: int| 0 <= j < log.changes.len() && log.changes[j] == change;
        assert(eligible(log, key, cut, joined, j));
    }
    in_force_is_the_greatest(view, key, cut);
    match best {
        Some(b) => {
            let change = log.changes[b as int];
            assert(log.changes.contains(change));
            told_offers(log, key, cut, change);
            the_greatest_is_in_force(view, key, cut, change);
        },
        None => {
            if let Some(change) = view.in_force(key, cut) {
                assert(offers(view, key, cut, change));
            }
        },
    }
}

/// The model of a time that was read, in nanoseconds.
pub open spec fn time_view(r: Result<Timestamp, Error>) -> Result<int, Error> {
    match r {
        Ok(time) => Ok(time@),
        Err(e) => Err(e),
    }
}

/// The model of a blamed assertion.
pub open spec fn blame_view(r: Result<Option<RecordedAssertion>, Error>) -> Result<
    Option<RecordedView>,
    Error,
> {
    match r {
        Ok(Some(recorded)) => Ok(Some(recorded@)),
        Ok(None) => Ok(None),
        Err(e) => Err(e),
    }
}

/// Whether numbers ascend, with none twice.
pub open spec fn ascend(numbers: Seq<i64>) -> bool {
    forall|i: int, j: int| 0 <= i < j < numbers.len() ==> #[trigger] numbers[i] < #[trigger] numbers[j]
}

/// Puts a number in its place among numbers in order, unless it is there.
fn insert_number(numbers: &mut Vec<i64>, number: i64)
    requires
        ascend(old(numbers)@),
    ensures
        ascend(final(numbers)@),
        forall|n: i64| #[trigger]
            final(numbers)@.contains(n) <==> old(numbers)@.contains(n) || n == number,
{
    let ghost before = numbers@;
    let mut low: usize = 0;
    let mut high: usize = numbers.len();
    while low < high
        invariant
            numbers@ == before,
            low <= high <= before.len(),
            ascend(before),
            forall|i: int| 0 <= i < low ==> #[trigger] before[i] < number,
            forall|i: int| high <= i < before.len() ==> number < #[trigger] before[i],
        decreases high - low,
    {
        let middle: usize = low + (high - low) / 2;
        let here = numbers[middle];
        if here == number {
            assert(before.contains(number));
            return ;
        } else if here < number {
            low = middle + 1;
        } else {
            high = middle;
        }
    }
    numbers.insert(low, number);
    proof {
        let after = numbers@;
        assert(after[low as int] == number);
        assert forall|n: i64| #[trigger]
            after.contains(n) <==> before.contains(n) || n == number by {
            if after.contains(n) {
                let i = choose|i: int| 0 <= i < after.len() && after[i] == n;
                if i < low {
                    assert(before[i] == n);
                } else if i > low {
                    assert(before[i - 1] == n);
                }
            }
            if before.contains(n) {
                let i = choose|i: int| 0 <= i < before.len() && before[i] == n;
                if i < low {
                    assert(after[i] == n);
                } else {
                    assert(after[i + 1] == n);
                }
            }
        }
    }
}

/// One more element is kept by a filter, or it is not.
proof fn filter_step<A>(all: Seq<A>, keep: spec_fn(A) -> bool, i: int)
    requires
        0 <= i < all.len(),
    ensures
        all.take(i + 1).filter(keep) == (if keep(all[i]) {
            all.take(i).filter(keep).push(all[i])
        } else {
            all.take(i).filter(keep)
        }),
{
    reveal(Seq::filter);
    assert(all.take(i + 1).drop_last() =~= all.take(i));
    assert(all.take(i + 1).last() == all[i]);
}

/// The model of recorded assertions.
pub open spec fn history_view(r: Result<Vec<RecordedAssertion>, Error>) -> Result<
    Seq<RecordedView>,
    Error,
> {
    match r {
        Ok(history) => Ok(history@.map_values(|recorded: RecordedAssertion| recorded@)),
        Err(e) => Err(e),
    }
}

/// The model of an event that was read.
pub open spec fn event_view(r: Result<Event, Error>) -> Result<EventView, Error> {
    match r {
        Ok(event) => Ok(event@),
        Err(e) => Err(e),
    }
}

/// The model of a state that was read.
pub open spec fn state_view(r: Result<State, Error>) -> Result<Map<Seq<char>, ValueView>, Error> {
    match r {
        Ok(state) => Ok(values_view(state@)),
        Err(e) => Err(e),
    }
}

impl Log {
    /// All keys that were ever asserted, in order.
    pub fn keys(&self) -> (keys: Vec<String>)
        ensures
            names_ascend(keys@),
            forall|key: Seq<char>| #[trigger] names(keys@, key) <==> self@.asserted(key),
    {
        let ghost view = self@;
        let mut keys: Vec<String> = Vec::new();
        let mut i: usize = 0;
        while i < self.changes.len()
            invariant
                i <= self.changes@.len(),
                view == self@,
                names_ascend(keys@),
                forall|key: Seq<char>| #[trigger]
                    names(keys@, key) <==> exists|j: int|
                        0 <= j < i && (#[trigger] view.changes[j]).key == key,
            decreases self.changes@.len() - i,
        {
            assert(view.changes[i as int] == self.changes@[i as int]@);
            let ghost before = keys@;
            insert_key(&mut keys, &self.changes[i].key);
            proof {
                assert forall|key: Seq<char>| #[trigger]
                    names(keys@, key) <==> exists|j: int|
                        0 <= j < i + 1 && (#[trigger] view.changes[j]).key == key by {
                    assert(names(keys@, key) <==> names(before, key) || key
                        == view.changes[i as int].key);
                }
            }
            i = i + 1;
        }
        keys
    }

    /// All that was recorded about a key, in the order of events and valid times. A
    /// change whose event the log does not hold is passed over.
    pub fn history(&self, key: &str) -> (r: Result<Vec<RecordedAssertion>, Error>)
        ensures
            history_view(r) == self@.history(key@),
    {
        let ghost view = self@;
        let ghost keep = |change: ChangeView| change.key == key@ && view.has_event(change.seq);
        let mut history: Vec<RecordedAssertion> = Vec::new();
        let mut i: usize = 0;
        proof {
            reveal(Seq::filter);
            assert(view.changes.take(0).filter(keep) =~= Seq::<ChangeView>::empty());
        }
        while i < self.changes.len()
            invariant
                i <= self.changes@.len(),
                view == self@,
                keep == (|change: ChangeView| change.key == key@ && view.has_event(change.seq)),
                history@.len() == view.changes.take(i as int).filter(keep).len(),
                forall|k: int|
                    0 <= k < history@.len() ==> view.recorded(
                        #[trigger] view.changes.take(i as int).filter(keep)[k],
                    ) == Ok::<RecordedView, Error>(history@[k]@),
            decreases self.changes@.len() - i,
        {
            assert(view.changes[i as int] == self.changes@[i as int]@);
            proof {
                filter_step(view.changes, keep, i as int);
            }
            if same_key(self.changes[i].key.as_str(), key) && self.event_position(
                self.changes[i].seq,
            ).is_some() {
                match self.record(i) {
                    Ok(recorded) => history.push(recorded),
                    Err(e) => {
                        proof {
                            view.changes.lemma_filter_contains(keep, i as int);
                            let rows = view.told(key@).changes;
                            let k = choose|k: int| 0 <= k < rows.len() && rows[k] == view.changes[i as int];
                            assert(view.recorded(rows[k]) is Err);
                        }
                        return Err(e);
                    },
                }
            }
            i = i + 1;
        }
        proof {
            assert(view.changes.take(i as int) =~= view.changes);
            let rows = view.told(key@).changes;
            assert forall|k: int| 0 <= k < rows.len() implies view.recorded(#[trigger] rows[k]) is Ok by {
                assert(view.changes.take(i as int).filter(keep)[k] == rows[k]);
            }
            assert(history@.map_values(|recorded: RecordedAssertion| recorded@)
                =~= rows.map_values(|change: ChangeView| view.recorded(change)->Ok_0)) by {
                assert forall|k: int| 0 <= k < rows.len() implies history@[k]@ == view.recorded(
                    #[trigger] rows[k],
                )->Ok_0 by {
                    assert(view.changes.take(i as int).filter(keep)[k] == rows[k]);
                }
            }
        }
        Ok(history)
    }

    /// An event with its assertions, in the order of keys and valid times.
    pub fn event(&self, id: EventId) -> (r: Result<Event, Error>)
        ensures
            event_view(r) == self@.event(id),
    {
        let committed_at = match self.event_timestamp(id) {
            Ok(time) => time,
            Err(e) => {
                return Err(e);
            },
        };
        let ghost view = self@;
        let ghost keep = |change: ChangeView| change.seq == id;
        let mut assertions: Vec<Assertion> = Vec::new();
        let mut i: usize = 0;
        proof {
            reveal(Seq::filter);
            assert(view.changes.take(0).filter(keep) =~= Seq::<ChangeView>::empty());
        }
        while i < self.changes.len()
            invariant
                i <= self.changes@.len(),
                view == self@,
                view.committed_at(id) == Ok::<int, Error>(committed_at@),
                keep == (|change: ChangeView| change.seq == id),
                assertions@.len() == view.changes.take(i as int).filter(keep).len(),
                forall|k: int|
                    0 <= k < assertions@.len() ==> (#[trigger] view.changes.take(i as int).filter(keep)[k]).assertion()
                        == Ok::<AssertionView, Error>(assertions@[k]@),
            decreases self.changes@.len() - i,
        {
            assert(view.changes[i as int] == self.changes@[i as int]@);
            proof {
                filter_step(view.changes, keep, i as int);
            }
            if self.changes[i].seq == id {
                match self.changes[i].decode() {
                    Ok(assertion) => assertions.push(assertion),
                    Err(e) => {
                        proof {
                            view.changes.lemma_filter_contains(keep, i as int);
                            let rows = view.changes_in(id);
                            let k = choose|k: int| 0 <= k < rows.len() && rows[k] == view.changes[i as int];
                            assert(rows[k].assertion() is Err);
                        }
                        return Err(e);
                    },
                }
            }
            i = i + 1;
        }
        proof {
            assert(view.changes.take(i as int) =~= view.changes);
            let rows = view.changes_in(id);
            assert forall|k: int| 0 <= k < rows.len() implies (#[trigger] rows[k]).assertion() is Ok by {
                assert(view.changes.take(i as int).filter(keep)[k] == rows[k]);
            }
            assert(assertions@.map_values(|assertion: Assertion| assertion@)
                =~= rows.map_values(|change: ChangeView| change.assertion()->Ok_0)) by {
                assert forall|k: int| 0 <= k < rows.len() implies assertions@[k]@ == (#[trigger] rows[k]).assertion()->Ok_0 by {
                    assert(view.changes.take(i as int).filter(keep)[k] == rows[k]);
                }
            }
        }
        Ok(Event { id, committed_at, assertions })
    }

    /// The times from which the assertions of the included events are valid, in
    /// order.
    pub fn changepoints(&self, transaction: TransactionCutoff) -> (r: Result<Vec<Timestamp>, Error>)
        ensures
            changepoints_read(r, self@, transaction.last()),
    {
        let last = transaction.event_id();
        let ghost view = self@;
        let mut numbers: Vec<i64> = Vec::new();
        let mut i: usize = 0;
        while i < self.changes.len()
            invariant
                i <= self.changes@.len(),
                view == self@,
                last == transaction.last(),
                ascend(numbers@),
                forall|n: i64| #[trigger]
                    numbers@.contains(n) <==> exists|j: int|
                        0 <= j < i && (#[trigger] view.changes[j]).valid == n && reaches(
                            last,
                            view.changes[j].seq,
                        ),
            decreases self.changes@.len() - i,
        {
            assert(view.changes[i as int] == self.changes@[i as int]@);
            let ghost before = numbers@;
            let reached = match last {
                Some(id) => self.changes[i].seq <= id,
                None => false,
            };
            if reached {
                insert_number(&mut numbers, self.changes[i].valid);
            }
            proof {
                assert forall|n: i64| #[trigger]
                    numbers@.contains(n) <==> exists|j: int|
                        0 <= j < i + 1 && (#[trigger] view.changes[j]).valid == n && reaches(
                            last,
                            view.changes[j].seq,
                        ) by {
                    assert(numbers@.contains(n) <==> before.contains(n) || (reached && n
                        == view.changes[i as int].valid));
                }
            }
            i = i + 1;
        }
        assert forall|n: i64| #[trigger] numbers@.contains(n) <==> view.changes_at(last, n as int) by {
        }
        let mut points: Vec<Timestamp> = Vec::new();
        let mut k: usize = 0;
        while k < numbers.len()
            invariant
                k <= numbers@.len(),
                view == self@,
                last == transaction.last(),
                ascend(numbers@),
                forall|n: i64| #[trigger] numbers@.contains(n) <==> view.changes_at(last, n as int),
                points@.len() == k,
                forall|j: int| 0 <= j < k ==> (#[trigger] points@[j])@ == numbers@[j] * 1000,
                forall|j: int| 0 <= j < k ==> readable(#[trigger] numbers@[j] as int),
            decreases numbers@.len() - k,
        {
            match timestamp(numbers[k]) {
                Ok(time) => points.push(time),
                Err(e) => {
                    assert(numbers@.contains(numbers@[k as int]));
                    assert(view.changes_at(last, numbers@[k as int] as int));
                    return Err(e);
                },
            }
            k = k + 1;
        }
        proof {
            assert forall|valid: int| #[trigger] view.changes_at(last, valid) implies readable(valid)
                && exists|j: int| 0 <= j < points@.len() && (#[trigger] points@[j])@ == valid * 1000 by {
                let i = choose|i: int|
                    0 <= i < view.changes.len() && (#[trigger] view.changes[i]).valid == valid && reaches(last, view.changes[i].seq);
                assert(view.changes[i] == self.changes@[i]@);
                let n = self.changes@[i].valid;
                assert(view.changes_at(last, n as int));
                assert(numbers@.contains(n));
                let j = choose|j: int| 0 <= j < numbers@.len() && numbers@[j] == n;
                assert(points@[j]@ == valid * 1000);
            }
            assert forall|j: int| 0 <= j < points@.len() implies (#[trigger] points@[j])@ % 1000 == 0
                && view.changes_at(last, points@[j]@ / 1000) by {
                assert(numbers@.contains(numbers@[j]));
                assert(view.changes_at(last, numbers@[j] as int));
            }
            assert forall|i: int, j: int| 0 <= i < j < points@.len() implies (#[trigger] points@[i])@
                < (#[trigger] points@[j])@ by {
                assert(numbers@[i] < numbers@[j]);
            }
            assert(are_changepoints(points@, view, last));
        }
        Ok(points)
    }

    /// All values, in the order of their keys.
    pub fn state(&self, coordinate: Coordinate) -> (r: Result<State, Error>)
        ensures
            state_view(r) == self@.state(coordinate@),
    {
        let ghost view = self@;
        let ghost cut = coordinate@;
        let ghost pick = |key: Seq<char>| view.value_of(key, cut);
        let keys = self.keys();
        let mut entries: Vec<(String, Value)> = Vec::new();
        let mut i: usize = 0;
        while i < keys.len()
            invariant
                i <= keys@.len(),
                view == self@,
                cut == coordinate@,
                pick == (|key: Seq<char>| view.value_of(key, cut)),
                names_ascend(keys@),
                picks(keys@.take(i as int), entries@, pick),
                forall|k: int| 0 <= k < i ==> view.value_readable((#[trigger] keys@[k])@, cut),
            decreases keys@.len() - i,
        {
            let key = &keys[i];
            let ghost before = entries@;
            match self.select(coordinate, key.as_str(), false) {
                Some(n) => {
                    let row = &self.changes[n];
                    if row.value.kind != StorageKind::Delete.code() {
                        assert(view.present(key@, cut));
                        match row.value.decode_present() {
                            Ok(value) => {
                                entries.push((key.clone(), value));
                            },
                            Err(e) => {
                                assert(!view.value_readable(key@, cut));
                                return Err(e);
                            },
                        }
                    }
                },
                None => {},
            }
            proof {
                picks_one_more(keys@, i as int, before, entries@, pick);
            }
            i = i + 1;
        }
        let state = KeyMap::from_entries(entries);
        proof {
            assert(keys@.take(i as int) =~= keys@);
            assert forall|key: Seq<char>| pick(key) is Some || !#[trigger] view.value_readable(key, cut) implies names(keys@, key) by {
                let n = choose|n: int| view.selected(key, cut, n);
                assert(view.selected(key, cut, n));
                assert(view.changes[n].key == key);
            }
            assert(view.state_readable(cut)) by {
                assert forall|key: Seq<char>| #[trigger] view.value_readable(key, cut) by {
                    if names(keys@, key) {
                        let k = choose|k: int| 0 <= k < keys@.len() && (#[trigger] keys@[k])@ == key;
                        assert(view.value_readable(keys@[k]@, cut));
                    }
                }
            }
            picks_the_map(keys@, entries@, pick, state@);
            assert(values_view(state@) =~= view.state(cut)->Ok_0);
        }
        Ok(state)
    }
}

/// Whether points are the times from which the assertions of the included events
/// are valid, each once, ascending.
pub open spec fn are_changepoints(
    points: Seq<Timestamp>,
    log: LogView,
    through: Option<u64>,
) -> bool {
    &&& forall|i: int, j: int|
        0 <= i < j < points.len() ==> (#[trigger] points[i])@ < (#[trigger] points[j])@
    &&& forall|valid: int| #[trigger]
        log.changes_at(through, valid) ==> exists|j: int|
            0 <= j < points.len() && (#[trigger] points[j])@ == valid * 1000
    &&& forall|j: int|
        0 <= j < points.len() ==> (#[trigger] points[j])@ % 1000 == 0 && log.changes_at(
            through,
            points[j]@ / 1000,
        )
}

/// Whether changepoints are read from a log as they should be: there is an error
/// if one of them cannot be read.
pub open spec fn changepoints_read(
    r: Result<Vec<Timestamp>, Error>,
    log: LogView,
    through: Option<u64>,
) -> bool {
    if exists|valid: int| #[trigger] log.changes_at(through, valid) && !readable(valid) {
        r == Err::<Vec<Timestamp>, Error>(Error::Corrupt)
    } else {
        r is Ok && are_changepoints(r->Ok_0@, log, through)
    }
}

/// Whether event IDs ascend.
spec fn events_ascend(events: Seq<EventRow>) -> bool {
    forall|i: int, j: int|
        0 <= i < j < events.len() ==> (#[trigger] events[i]).seq < (#[trigger] events[j]).seq
}

/// The row of an event.
fn find_event(events: &Vec<EventRow>, id: EventId) -> (r: Option<usize>)
    requires
        events_ascend(events@),
    ensures
        r matches Some(i) ==> i < events@.len() && events@[i as int].seq == id,
        r is None ==> forall|i: int| 0 <= i < events@.len() ==> (#[trigger] events@[i]).seq != id,
{
    let mut low: usize = 0;
    let mut high: usize = events.len();
    while low < high
        invariant
            low <= high <= events@.len(),
            events_ascend(events@),
            forall|i: int| 0 <= i < low ==> (#[trigger] events@[i]).seq < id,
            forall|i: int| high <= i < events@.len() ==> (#[trigger] events@[i]).seq > id,
        decreases high - low,
    {
        let middle: usize = low + (high - low) / 2;
        let seq = events[middle].seq;
        if seq == id {
            return Some(middle);
        } else if seq < id {
            low = middle + 1;
        } else {
            high = middle;
        }
    }
    None
}

/// Whether one change comes before another in the log.
fn row_before(a: &ChangeRow, b: &ChangeRow) -> (r: bool)
    ensures
        r == a@.before(b@),
{
    if a.seq < b.seq {
        true
    } else if b.seq < a.seq {
        false
    } else {
        match order_of(a.key.as_str(), b.key.as_str()) {
            Order::Less => true,
            Order::Greater => {
                proof {
                    key_lt_asymmetric(b.key@, a.key@);
                }
                false
            },
            Order::Equal => {
                proof {
                    key_lt_irreflexive(a.key@);
                }
                a.valid < b.valid
            },
        }
    }
}

/// Whether rows obey the tables' keys.
fn rows_in_order(events: &Vec<EventRow>, changes: &Vec<ChangeRow>) -> (r: bool)
    ensures
        r == tables(events@, changes@).wf(),
{
    let ghost view = tables(events@, changes@);
    let mut i: usize = 0;
    while i < events.len()
        invariant
            i <= events@.len(),
            view == tables(events@, changes@),
            forall|a: int, b: int|
                0 <= a < b < i ==> (#[trigger] events@[a]).seq < (#[trigger] events@[b]).seq,
        decreases events@.len() - i,
    {
        if i > 0 && events[i - 1].seq >= events[i].seq {
            assert(view.events[i - 1].seq >= view.events[i as int].seq);
            return false;
        }
        i = i + 1;
    }
    let mut n: usize = 0;
    while n < changes.len()
        invariant
            n <= changes@.len(),
            view == tables(events@, changes@),
            forall|a: int, b: int|
                0 <= a < b < i ==> (#[trigger] events@[a]).seq < (#[trigger] events@[b]).seq,
            i == events@.len(),
            forall|a: int, b: int|
                0 <= a < b < n ==> (#[trigger] view.changes[a]).before(#[trigger] view.changes[b]),
        decreases changes@.len() - n,
    {
        assert(view.changes[n as int] == changes@[n as int]@);
        if n > 0 {
            assert(view.changes[n - 1] == changes@[n - 1]@);
            if !row_before(&changes[n - 1], &changes[n]) {
                return false;
            }
            assert forall|a: int| 0 <= a < n implies (#[trigger] view.changes[a]).before(
                view.changes[n as int],
            ) by {
                if a < n - 1 {
                    before_is_transitive(view.changes[a], view.changes[n - 1], view.changes[n as int]);
                }
            }
        }
        n = n + 1;
    }
    true
}

/// Whether any write is of a value that is not a number.
fn any_nan(resolved: &Vec<ResolvedWrite>) -> (r: bool)
    ensures
        r <==> exists|i: int|
            0 <= i < resolved@.len() && ((#[trigger] resolved@[i]).value matches Some(value) && value@.is_nan()),
{
    let mut i: usize = 0;
    while i < resolved.len()
        invariant
            i <= resolved@.len(),
            forall|j: int|
                0 <= j < i ==> !((#[trigger] resolved@[j]).value matches Some(value) && value@.is_nan()),
        decreases resolved@.len() - i,
    {
        if let Some(value) = &resolved[i].value {
            if value.is_nan() {
                return true;
            }
        }
        i = i + 1;
    }
    false
}

/// The rows that a commit of writes adds to the tables, after the event `latest`.
///
/// The event gets the next ID. Writes without a valid time get that of the commit;
/// of the writes for one key and valid time, in microseconds, the last is kept.
pub fn prepare(latest: Option<EventId>, writes: Vec<Write>, committed_at: Timestamp) -> (r: Result<
    (EventRow, Vec<ChangeRow>),
    Error,
>)
    ensures
        ({
            let (given, micros) = (writes_view(writes@), truncated(committed_at@));
            match refused(latest, given, micros) {
                Some(e) => r == Err::<(EventRow, Vec<ChangeRow>), Error>(e),
                None => {
                    &&& r is Ok
                    &&& r->Ok_0.0@ == (EventRowView { seq: next_after(latest), ts: micros })
                    &&& exists|resolved: Seq<ResolvedView>| #[trigger]
                        is_resolution(resolved, given, micros) && rows_view(r->Ok_0.1@) == rows_of(
                            next_after(latest),
                            resolved,
                        )
                },
            }
        }),
{
    if writes.len() == 0 {
        return Err(Error::EmptyCommit);
    }
    let id: EventId = match latest {
        Some(last) => {
            if last >= i64::MAX as u64 {
                return Err(Error::Full);
            }
            last + 1
        },
        None => 1,
    };
    let ghost given = writes_view(writes@);
    let ghost micros = truncated(committed_at@);
    let resolved = resolve_writes(writes, committed_at);
    let ghost kept = resolved_view(resolved@);
    let refused = any_nan(&resolved);
    proof {
        nan_is_kept(resolved@, given, micros);
    }
    if refused {
        return Err(Error::Constraint);
    }
    let ts = committed_at.as_microsecond();
    let mut rows: Vec<ChangeRow> = Vec::new();
    for write in iter: resolved
        invariant
            rows@.len() == iter.index(),
            iter.seq() == resolved@,
            kept == resolved_view(resolved@),
            forall|k: int| 0 <= k < iter.index() ==> (#[trigger] rows@[k])@ == rows_of(id, kept)[k],
    {
        rows.push(
            ChangeRow {
                seq: id,
                key: write.key,
                valid: write.valid_from,
                value: RawValue::encode(write.value),
            },
        );
    }
    proof {
        assert(rows_view(rows@) =~= rows_of(id, kept));
        assert(is_resolution(kept, given, micros));
    }
    Ok((EventRow { seq: id, ts }, rows))
}

/// A value that is not a number is among what is kept just if a write of one is kept.
proof fn nan_is_kept(resolved: Seq<ResolvedWrite>, writes: Seq<WriteView>, micros: int)
    requires
        is_resolution(resolved_view(resolved), writes, micros),
    ensures
        (exists|k: int|
            0 <= k < resolved.len() && ((#[trigger] resolved[k]).value matches Some(value)
                && value@.is_nan())) <==> exists|i: int| #[trigger]
            wins(writes, micros, i) && (writes[i].value matches Some(value) && value.is_nan()),
{
    let kept = resolved_view(resolved);
    assert forall|k: int| 0 <= k < resolved.len() implies #[trigger] kept[k] == resolved[k]@ by {
    }
    if exists|k: int|
        0 <= k < resolved.len() && ((#[trigger] resolved[k]).value matches Some(value)
            && value@.is_nan()) {
        let k = choose|k: int|
            0 <= k < resolved.len() && ((#[trigger] resolved[k]).value matches Some(value)
                && value@.is_nan());
        let i = choose|i: int| #[trigger]
            wins(writes, micros, i) && writes[i].resolved(micros) == kept[k];
        assert(wins(writes, micros, i));
    }
    if exists|i: int| #[trigger]
        wins(writes, micros, i) && (writes[i].value matches Some(value) && value.is_nan()) {
        let i = choose|i: int| #[trigger]
            wins(writes, micros, i) && (writes[i].value matches Some(value) && value.is_nan());
        assert(kept.contains(writes[i].resolved(micros)));
        let k = choose|k: int| 0 <= k < kept.len() && kept[k] == writes[i].resolved(micros);
        assert(kept[k] == resolved[k]@);
    }
}

/// The place of a change among changes in order, and whether it is taken.
fn row_position(changes: &Vec<ChangeRow>, row: &ChangeRow) -> (r: (bool, usize))
    requires
        in_order(rows_view(changes@)),
    ensures
        r.1 <= changes@.len(),
        forall|i: int| 0 <= i < r.1 ==> (#[trigger] changes@[i])@.before(row@),
        r.0 ==> r.1 < changes@.len() && same_place(changes@[r.1 as int]@, row@),
        !r.0 ==> forall|i: int|
            r.1 <= i < changes@.len() ==> row@.before((#[trigger] changes@[i])@),
{
    let ghost view = rows_view(changes@);
    let mut low: usize = 0;
    let mut high: usize = changes.len();
    while low < high
        invariant
            low <= high <= changes@.len(),
            view == rows_view(changes@),
            in_order(view),
            forall|i: int| 0 <= i < low ==> (#[trigger] changes@[i])@.before(row@),
            forall|i: int| high <= i < changes@.len() ==> row@.before((#[trigger] changes@[i])@),
        decreases high - low,
    {
        let middle: usize = low + (high - low) / 2;
        let ghost here = view[middle as int];
        assert(here == changes@[middle as int]@);
        if row_before(&changes[middle], row) {
            assert forall|i: int| 0 <= i <= middle implies (#[trigger] changes@[i])@.before(row@) by {
                assert(view[i] == changes@[i]@);
                if i < middle {
                    before_is_transitive(view[i], here, row@);
                }
            }
            low = middle + 1;
        } else if row_before(row, &changes[middle]) {
            assert forall|i: int| middle <= i < changes@.len() implies row@.before(
                (#[trigger] changes@[i])@,
            ) by {
                assert(view[i] == changes@[i]@);
                if middle < i {
                    before_is_transitive(row@, here, view[i]);
                }
            }
            high = middle;
        } else {
            proof {
                slot_lt_trichotomy(here.key, here.valid, row@.key, row@.valid);
                assert forall|i: int| 0 <= i < middle implies (#[trigger] changes@[i])@.before(
                    row@,
                ) by {
                    assert(view[i] == changes@[i]@);
                    assert(view[i].before(here));
                }
            }
            return (true, middle);
        }
    }
    (false, low)
}

/// Whether two changes are of the same event, for the same key and valid time.
spec fn same_place(a: ChangeView, b: ChangeView) -> bool {
    a.seq == b.seq && a.key == b.key && a.valid == b.valid
}

/// Whether changes hold one of the same place as another.
spec fn taken(changes: Seq<ChangeView>, change: ChangeView) -> bool {
    exists|i: int| 0 <= i < changes.len() && same_place(#[trigger] changes[i], change)
}

/// A place among changes in order is taken just if the search for it finds it so.
proof fn found_is_taken(changes: Seq<ChangeView>, change: ChangeView, found: bool, at: int)
    requires
        in_order(changes),
        0 <= at <= changes.len(),
        forall|i: int| 0 <= i < at ==> (#[trigger] changes[i]).before(change),
        found ==> at < changes.len() && same_place(changes[at], change),
        !found ==> forall|i: int| at <= i < changes.len() ==> change.before(#[trigger] changes[i]),
    ensures
        found <==> taken(changes, change),
{
    if taken(changes, change) && !found {
        let i = choose|i: int| 0 <= i < changes.len() && same_place(#[trigger] changes[i], change);
        slot_lt_trichotomy(change.key, change.valid, change.key, change.valid);
    }
}

/// Whether changes in order hold one of the same place as one of some rows.
fn any_held(changes: &Vec<ChangeRow>, rows: &Vec<ChangeRow>) -> (r: bool)
    requires
        in_order(rows_view(changes@)),
    ensures
        r <==> exists|k: int|
            0 <= k < rows@.len() && taken(rows_view(changes@), (#[trigger] rows@[k])@),
{
    let ghost view = rows_view(changes@);
    let mut k: usize = 0;
    while k < rows.len()
        invariant
            k <= rows@.len(),
            view == rows_view(changes@),
            in_order(view),
            forall|j: int| 0 <= j < k ==> !taken(view, (#[trigger] rows@[j])@),
        decreases rows@.len() - k,
    {
        let (found, at) = row_position(changes, &rows[k]);
        proof {
            assert forall|i: int| 0 <= i < view.len() implies #[trigger] view[i] == changes@[i]@ by {
            }
            found_is_taken(view, rows@[k as int]@, found, at as int);
        }
        if found {
            return true;
        }
        k = k + 1;
    }
    false
}

/// Puts rows in order in their places among changes in order.
fn insert_rows(changes: &mut Vec<ChangeRow>, rows: Vec<ChangeRow>)
    requires
        in_order(rows_view(old(changes)@)),
        in_order(rows_view(rows@)),
        forall|k: int|
            0 <= k < rows@.len() ==> !taken(rows_view(old(changes)@), (#[trigger] rows@[k])@),
    ensures
        in_order(rows_view(final(changes)@)),
        holds_both(rows_view(final(changes)@), rows_view(old(changes)@), rows_view(rows@)),
{
    let ghost first = rows_view(changes@);
    let ghost all = rows_view(rows@);
    assert(all.take(0) =~= Seq::<ChangeView>::empty());
    for row in iter: rows
        invariant
            iter.seq() == rows@,
            all == rows_view(rows@),
            in_order(all),
            forall|k: int| 0 <= k < rows@.len() ==> !taken(first, (#[trigger] rows@[k])@),
            in_order(rows_view(changes@)),
            holds_both(rows_view(changes@), first, all.take(iter.index())),
    {
        let ghost view = rows_view(changes@);
        let ghost one = row@;
        let ghost k = iter.index();
        assert(all[k] == one);
        assert(!taken(first, rows@[k]@));
        let (found, at) = row_position(changes, &row);
        proof {
            assert forall|i: int| 0 <= i < view.len() implies #[trigger] view[i] == changes@[i]@ by {
            }
            found_is_taken(view, one, found, at as int);
            free_among_both(view, first, all, k, one);
        }
        changes.insert(at, row);
        proof {
            assert(rows_view(changes@) =~= view.insert(at as int, one));
            change_in_its_place(view, first, all, k, at as int);
        }
    }
    assert(all.take(all.len() as int) =~= all);
}

/// A row whose place is free among the changes of before is free too among the rows
/// before it.
proof fn free_among_both(
    changes: Seq<ChangeView>,
    first: Seq<ChangeView>,
    rows: Seq<ChangeView>,
    k: int,
    one: ChangeView,
)
    requires
        0 <= k < rows.len(),
        rows[k] == one,
        in_order(rows),
        holds_both(changes, first, rows.take(k)),
        !taken(first, one),
    ensures
        !taken(changes, one),
{
    if taken(changes, one) {
        let i = choose|i: int| 0 <= i < changes.len() && same_place(#[trigger] changes[i], one);
        let change = changes[i];
        assert(changes.contains(change));
        if first.contains(change) {
            let j = choose|j: int| 0 <= j < first.len() && first[j] == change;
            assert(same_place(first[j], one));
        } else {
            let some = rows.take(k);
            let j = choose|j: int| 0 <= j < some.len() && some[j] == change;
            assert(rows[j] == change);
            assert(rows[j].before(rows[k]));
            slot_lt_trichotomy(one.key, one.valid, one.key, one.valid);
        }
    }
}

/// A row in its place keeps the order, and is one more of those that are held.
proof fn change_in_its_place(
    changes: Seq<ChangeView>,
    first: Seq<ChangeView>,
    rows: Seq<ChangeView>,
    k: int,
    at: int,
)
    requires
        0 <= k < rows.len(),
        0 <= at <= changes.len(),
        in_order(changes),
        holds_both(changes, first, rows.take(k)),
        forall|i: int| 0 <= i < at ==> (#[trigger] changes[i]).before(rows[k]),
        forall|i: int| at <= i < changes.len() ==> rows[k].before(#[trigger] changes[i]),
    ensures
        in_order(changes.insert(at, rows[k])),
        holds_both(changes.insert(at, rows[k]), first, rows.take(k + 1)),
{
    let one = rows[k];
    let after = changes.insert(at, one);
    let (less, more) = (rows.take(k), rows.take(k + 1));
    assert forall|i: int, j: int| 0 <= i < j < after.len() implies (#[trigger] after[i]).before(
        #[trigger] after[j],
    ) by {
        if i != at {
            assert(after[i] == changes[if i < at { i } else { i - 1 }]);
        }
        if j != at {
            assert(after[j] == changes[if j < at { j } else { j - 1 }]);
        }
    }
    assert forall|change: ChangeView| #[trigger] after.contains(change) <==> first.contains(change)
        || more.contains(change) by {
        assert(changes.contains(change) <==> first.contains(change) || less.contains(change));
        if after.contains(change) {
            let i = choose|i: int| 0 <= i < after.len() && after[i] == change;
            if i == at {
                assert(more[k] == change);
            } else {
                assert(changes[if i < at { i } else { i - 1 }] == change);
                if less.contains(change) {
                    let j = choose|j: int| 0 <= j < less.len() && less[j] == change;
                    assert(more[j] == change);
                }
            }
        }
        if changes.contains(change) {
            let i = choose|i: int| 0 <= i < changes.len() && changes[i] == change;
            assert(after[if i < at { i } else { i + 1 }] == change);
        }
        if more.contains(change) {
            let j = choose|j: int| 0 <= j < more.len() && more[j] == change;
            if j < k {
                assert(less[j] == change);
            } else {
                assert(after[at] == change);
            }
        }
    }
}

/// A row's place is taken just if that of a write which is kept is.
proof fn clash_is_kept(
    log: LogView,
    resolved: Seq<ResolvedView>,
    writes: Seq<WriteView>,
    micros: int,
)
    requires
        is_resolution(resolved, writes, micros),
    ensures
        (exists|k: int|
            0 <= k < resolved.len() && taken(
                log.changes,
                #[trigger] rows_of(log.next_id(), resolved)[k],
            )) <==> exists|i: int| #[trigger]
            wins(writes, micros, i) && log.holds(
                log.next_id(),
                writes[i].key,
                writes[i].resolved(micros).valid,
            ),
{
    let id = log.next_id();
    let rows = rows_of(id, resolved);
    if exists|k: int| 0 <= k < resolved.len() && taken(log.changes, #[trigger] rows[k]) {
        let k = choose|k: int| 0 <= k < resolved.len() && taken(log.changes, #[trigger] rows[k]);
        let i = choose|i: int| #[trigger]
            wins(writes, micros, i) && writes[i].resolved(micros) == resolved[k];
        let n = choose|n: int|
            0 <= n < log.changes.len() && same_place(#[trigger] log.changes[n], rows[k]);
        assert(log.changes[n].seq == id);
        assert(wins(writes, micros, i) && log.holds(id, writes[i].key, writes[i].resolved(micros).valid));
    }
    if exists|i: int| #[trigger]
        wins(writes, micros, i) && log.holds(id, writes[i].key, writes[i].resolved(micros).valid) {
        let i = choose|i: int| #[trigger]
            wins(writes, micros, i) && log.holds(
                id,
                writes[i].key,
                writes[i].resolved(micros).valid,
            );
        assert(resolved.contains(writes[i].resolved(micros)));
        let k = choose|k: int| 0 <= k < resolved.len() && resolved[k] == writes[i].resolved(micros);
        let n = choose|n: int|
            0 <= n < log.changes.len() && (#[trigger] log.changes[n]).seq == id
                && log.changes[n].key == writes[i].key && log.changes[n].valid
                == writes[i].resolved(micros).valid;
        assert(same_place(log.changes[n], rows[k]));
        assert(taken(log.changes, rows[k]));
    }
}

/// The model of rows of the table of changes.
pub open spec fn rows_view(rows: Seq<ChangeRow>) -> Seq<ChangeView> {
    rows.map_values(|row: ChangeRow| row@)
}

impl Log {
    /// The log whose tables hold the given rows.
    pub fn from_rows(events: Vec<EventRow>, changes: Vec<ChangeRow>) -> (r: Result<Log, Error>)
        ensures
            tables(events@, changes@).wf() ==> r is Ok && r->Ok_0@ == tables(events@, changes@),
            !tables(events@, changes@).wf() ==> r == Err::<Log, Error>(Error::Corrupt),
    {
        if rows_in_order(&events, &changes) {
            Ok(Log { events, changes })
        } else {
            Err(Error::Corrupt)
        }
    }

    /// Records writes as one event, committed at a given time.
    pub fn commit_at(&mut self, writes: Vec<Write>, committed_at: Timestamp) -> (r: Result<EventId, Error>)
        ensures
            ({
                let (given, micros) = (writes_view(writes@), truncated(committed_at@));
                match old(self)@.refusal(given, micros) {
                    Some(e) => r == Err::<EventId, Error>(e) && final(self)@ == old(self)@,
                    None => {
                        &&& r == Ok::<EventId, Error>(old(self)@.next_id())
                        &&& old(self)@.commits_to(given, micros, final(self)@)
                    },
                }
            }),
    {
        let ghost given = writes_view(writes@);
        let ghost micros = truncated(committed_at@);
        let ghost before = self@;
        proof {
            use_type_invariant(&*self);
        }
        let (event, rows) = match prepare(self.latest_event_id(), writes, committed_at) {
            Ok(prepared) => prepared,
            Err(e) => {
                return Err(e);
            },
        };
        let ghost resolved = choose|resolved: Seq<ResolvedView>| #[trigger]
            is_resolution(resolved, given, micros) && rows_view(rows@) == rows_of(
                before.next_id(),
                resolved,
            );
        let ghost added = rows_of(before.next_id(), resolved);
        let clashes = any_held(&self.changes, &rows);
        proof {
            assert(is_resolution(resolved, given, micros) && rows_view(rows@) == added);
            assert(rows@.len() == rows_view(rows@).len());
            assert(added.len() == resolved.len());
            clash_is_kept(before, resolved, given, micros);
            rows_are_in_order(before.next_id(), resolved);
            assert(rows_view(self.changes@) == before.changes);
            assert forall|k: int| 0 <= k < rows@.len() implies (#[trigger] rows@[k])@ == added[k] by {
                assert(rows_view(rows@)[k] == rows@[k]@);
            }
            if exists|k: int| 0 <= k < resolved.len() && taken(before.changes, #[trigger] added[k]) {
                let k = choose|k: int|
                    0 <= k < resolved.len() && taken(before.changes, #[trigger] added[k]);
                assert(rows@[k]@ == added[k]);
            }
            if clashes {
                let k = choose|k: int|
                    0 <= k < rows@.len() && taken(before.changes, (#[trigger] rows@[k])@);
                assert(taken(before.changes, added[k]));
            }
        }
        if clashes {
            return Err(Error::Constraint);
        }
        let mut log = Log::empty();
        std::mem::swap(self, &mut log);
        let Log { mut events, mut changes } = log;
        events.push(event);
        insert_rows(&mut changes, rows);
        proof {
            let after = tables(events@, changes@);
            assert(is_resolution(resolved, given, micros));
            assert(after.events =~= before.events.push(event@));
            events_stay_in_order(before, micros);
            assert(after.changes =~= rows_view(changes@));
        }
        *self = Log { events, changes };
        Ok(event.seq)
    }
}

} // verus!
