//! A bitemporal key-value store.
//!
//! Each commit adds an event to a log. A read selects a transaction time, which
//! says what the store had learnt by then, and a valid time, which says about when
//! it is asked. So the store answers what holds, what held, what was thought to
//! hold, and what is to hold.
//!
//! The store is a [`Handle`] on a [`log::Log`], which holds the rows of two tables.
//! What the tables hold and what each read selects is defined in [`model`]; what
//! follows for reads and commits stands in [`reading`] and [`committing`]. What each
//! operation answers, told by the rows and the writes alone, stands in [`meaning`] and
//! [`recording`].

pub mod committing;
pub mod coordinate;
pub mod database;
pub mod delta;
pub mod error;
pub mod keymap;
pub mod log;
pub mod meaning;
pub mod model;
pub mod raw;
pub mod reading;
pub mod recording;
pub mod text;
pub mod time;
pub mod value;
pub mod write;

pub use coordinate::{Coordinate, EventId, TransactionCutoff, ValidCutoff};
pub use database::{Database, Handle, ReadOnly, ReadWrite, Reader, Snapshot};
pub use delta::{diff_states, Delta};
pub use error::Error;
pub use keymap::KeyMap;
pub use log::{Assertion, ChangeRow, Event, EventRow, Log, RecordedAssertion, State};
pub use raw::{RawValue, SqlValue, StorageKind};
pub use time::{resolve_ts, resolve_ts_at, timestamp, CommitError, Timestamp};
pub use value::Value;
pub use write::{resolve_writes, ResolvedWrite, Write};
