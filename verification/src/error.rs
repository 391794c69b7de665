//! What can go wrong when a log is written or read.

use vstd::prelude::*;

verus! {

/// An error of the store.
#[derive(Debug, Clone, Copy, PartialEq, Eq, Structural)]
pub enum Error {
    /// A commit was given no writes.
    EmptyCommit,
    /// There is no event `id`; the log holds `len` events.
    OutOfRange { id: u64, len: u64 },
    /// A row of the log cannot be read.
    Corrupt,
    /// What the tables cannot hold: a float that is not a number, or a second change of
    /// one event, key and valid time.
    Constraint,
    /// The greatest event ID is taken, so no event can be added.
    Full,
}

} // verus!
