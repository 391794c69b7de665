# two_tdb

A bitemporal key-value store. Each commit adds an event to a log; each read selects
a transaction time (what the store had learnt by then) and a valid time (about when
it is asked). Corrections to the past, scheduled changes, historical snapshots,
diffs and audits are all reads of the same two tables.

What the store does is stated as contracts and proved with Verus.

## Layout

- `src/` is the library.
  - `model` defines what the tables hold and what each read selects: for a key at
    transaction cutoff `T` and valid-time cutoff `V`, the assertion with the greatest
    `(valid, event ID)` where `valid <= V` and `event ID <= T`.
  - `log` holds the tables, the reads on them, and commits; `database` holds stores
    and snapshots; `write`, `raw`, `value`, `time`, `coordinate`, `delta`, `keymap`
    and `text` hold what they are made of.
  - `reading` and `committing` hold the laws: that a commit is read back, that a
    correction does not reach past the next assertion, that later commits leave every
    snapshot as it was, and others.
- `app/` keeps the tables in SQLite. It loads rows, hands them to the library, and
  stores the rows that the library prepares.
- `tests/` runs the library, and holds its reads against SQLite's own answers.

## Time

Timestamps are nanoseconds within the range of `jiff::Timestamp`; rows hold
microseconds, truncated toward zero. Commit times come from the clock and may tie or
go backward: event IDs define the order of commits, and `known_at` breaks equal
times by event ID. A time in the last second of the range, but for its first
microsecond, can be written and not read back.

## Values

Booleans, 64-bit integers, 64-bit floats and strings. The library holds a float by its
bits and compares floats as numbers; a float that is not a number cannot be stored.
A deletion is an assertion without a value.
