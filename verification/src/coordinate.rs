//! Where a snapshot stands on the two axes of time.

use crate::model::Cut;
use crate::time::{truncated, Timestamp};
use vstd::prelude::*;

verus! {

/// The number of an event. Events are numbered in the order of their commits.
pub type EventId = u64;

/// The last event that a read includes.
#[derive(Debug, Clone, Copy, PartialEq, Eq, Structural)]
pub enum TransactionCutoff {
    /// No event is included.
    BeforeFirst,
    /// The events up to this one are included.
    Through(EventId),
}

impl TransactionCutoff {
    /// The last event that is included, if any is.
    pub open spec fn last(self) -> Option<EventId> {
        match self {
            TransactionCutoff::BeforeFirst => None,
            TransactionCutoff::Through(id) => Some(id),
        }
    }

    /// The last event that is included, if any is.
    pub fn event_id(self) -> (r: Option<EventId>)
        ensures
            r == self.last(),
            self is BeforeFirst ==> r is None,
            self matches TransactionCutoff::Through(id) ==> r == Some(id),
    {
        match self {
            TransactionCutoff::BeforeFirst => None,
            TransactionCutoff::Through(id) => Some(id),
        }
    }
}

impl From<Option<EventId>> for TransactionCutoff {
    fn from(event: Option<EventId>) -> (cutoff: TransactionCutoff)
        ensures
            cutoff.last() == event,
            event is None ==> cutoff == TransactionCutoff::BeforeFirst,
            event matches Some(id) ==> cutoff == TransactionCutoff::Through(id),
    {
        match event {
            Some(id) => TransactionCutoff::Through(id),
            None => TransactionCutoff::BeforeFirst,
        }
    }
}

impl vstd::std_specs::convert::FromSpecImpl<Option<EventId>> for TransactionCutoff {
    open spec fn obeys_from_spec() -> bool {
        true
    }

    open spec fn from_spec(event: Option<EventId>) -> TransactionCutoff {
        match event {
            Some(id) => TransactionCutoff::Through(id),
            None => TransactionCutoff::BeforeFirst,
        }
    }
}

/// The last valid time that a read includes.
#[derive(Debug, Clone, Copy, PartialEq, Eq, Structural)]
pub enum ValidCutoff {
    /// The valid times up to this one are included.
    Through(Timestamp),
    /// All valid times are included.
    Unbounded,
}

impl ValidCutoff {
    /// The last microsecond that is included, if there is a last.
    pub open spec fn last(self) -> Option<int> {
        match self {
            ValidCutoff::Through(time) => Some(truncated(time@)),
            ValidCutoff::Unbounded => None,
        }
    }

    /// The last time that is included, if there is a last.
    pub fn timestamp(self) -> (r: Option<Timestamp>)
        ensures
            r == (match self {
                ValidCutoff::Through(time) => Some(time),
                ValidCutoff::Unbounded => None,
            }),
    {
        match self {
            ValidCutoff::Through(time) => Some(time),
            ValidCutoff::Unbounded => None,
        }
    }

    /// The last microsecond that is included, if there is a last.
    pub fn micros(self) -> (r: Option<i64>)
        ensures
            r is Some <==> self.last() is Some,
            r matches Some(micros) ==> self.last() == Some(micros as int),
            self is Unbounded <==> r is None,
            self matches ValidCutoff::Through(time) ==> r->0 == truncated(time@),
    {
        match self.timestamp() {
            Some(time) => Some(time.as_microsecond()),
            None => None,
        }
    }
}

/// A cutoff on each axis.
#[derive(Debug, Clone, Copy, PartialEq, Eq, Structural)]
pub struct Coordinate {
    pub transaction: TransactionCutoff,
    pub valid: ValidCutoff,
}

impl View for Coordinate {
    type V = Cut;

    open spec fn view(&self) -> Cut {
        Cut { through: self.transaction.last(), valid: self.valid.last() }
    }
}

/// A coordinate's cutoffs are those that it is made of.
pub proof fn a_coordinate_cuts_where_it_stands(place: Coordinate)
    ensures
        place.transaction is BeforeFirst ==> place@.through is None,
        place.transaction matches TransactionCutoff::Through(id) ==> place@.through == Some(id),
        place.valid is Unbounded ==> place@.valid is None,
        place.valid matches ValidCutoff::Through(time) ==> place@.valid == Some(truncated(time@)),
{
}

} // verus!
