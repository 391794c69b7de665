//! The reads of the library, held against queries on the same rows in SQLite.

use rusqlite::types::Value as Stored;
use rusqlite::{Connection, OptionalExtension};
use two_tdb::log::prepare;
use two_tdb::{
    timestamp, ChangeRow, Database, EventRow, RawValue, SqlValue, Timestamp, Value, Write,
};

const TABLES: &str = "
    CREATE TABLE events (seq INTEGER PRIMARY KEY, ts INTEGER NOT NULL) STRICT;
    CREATE TABLE changes (
        key TEXT NOT NULL, valid INTEGER NOT NULL,
        seq INTEGER NOT NULL REFERENCES events (seq),
        kind INTEGER NOT NULL, value ANY,
        PRIMARY KEY (key, valid, seq)
    ) STRICT, WITHOUT ROWID;";

const KEYS: [&str; 5] = ["a", "ab", "b", "é", ""];

struct Dice(u64);

impl Dice {
    fn roll(&mut self, sides: u64) -> u64 {
        self.0 = self
            .0
            .wrapping_mul(6364136223846793005)
            .wrapping_add(1442695040888963407);
        (self.0 >> 33) % sides
    }
}

fn at(micros: u64) -> Timestamp {
    timestamp(micros as i64).unwrap()
}

fn stored(value: &SqlValue) -> Stored {
    match value {
        SqlValue::Null => Stored::Null,
        SqlValue::Integer(value) => Stored::Integer(*value),
        SqlValue::Real(bits) => Stored::Real(f64::from_bits(*bits)),
        SqlValue::Text(value) => Stored::Text(value.clone()),
        SqlValue::Blob(value) => Stored::Blob(value.clone()),
    }
}

fn loaded(value: Stored) -> SqlValue {
    match value {
        Stored::Null => SqlValue::Null,
        Stored::Integer(value) => SqlValue::Integer(value),
        Stored::Real(value) => SqlValue::Real(value.to_bits()),
        Stored::Text(value) => SqlValue::Text(value),
        Stored::Blob(value) => SqlValue::Blob(value),
    }
}

fn decode(kind: i64, value: Stored) -> Option<Value> {
    RawValue {
        kind,
        value: loaded(value),
    }
    .decode()
    .unwrap()
}

/// One of the values, or a deletion.
fn value(dice: &mut Dice) -> Option<Value> {
    match dice.roll(5) {
        0 => Some(Value::Bool(dice.roll(2) == 0)),
        1 => Some(Value::Int(dice.roll(100) as i64 - 50)),
        2 => Some(Value::Float((dice.roll(100) as f64 / 8.0).to_bits())),
        3 => Some(Value::Str(format!("v{}", dice.roll(100)))),
        _ => None,
    }
}

fn write(dice: &mut Dice) -> Write {
    let key = KEYS[dice.roll(5) as usize];
    let valid = if dice.roll(3) == 0 {
        None
    } else {
        Some(at(dice.roll(12)))
    };
    match (value(dice), valid) {
        (Some(value), None) => Write::set(key, value),
        (Some(value), Some(valid)) => Write::set_at(key, value, valid),
        (None, None) => Write::delete(key),
        (None, Some(valid)) => Write::delete_at(key, valid),
    }
}

/// A store in memory, and the same rows in SQLite.
fn stores(seed: u64) -> (Database, Connection) {
    let mut dice = Dice(seed);
    let connection = Connection::open_in_memory().unwrap();
    connection.execute_batch(TABLES).unwrap();
    let mut latest = None;
    for _ in 0..8 {
        let n = dice.roll(4) + 1;
        let writes = (0..n).map(|_| write(&mut dice)).collect();
        let (event, rows) = prepare(latest, writes, at(dice.roll(12))).unwrap();
        latest = Some(event.seq);
        connection
            .execute(
                "INSERT INTO events (seq, ts) VALUES (?1, ?2)",
                (event.seq, event.ts),
            )
            .unwrap();
        for row in rows {
            connection
                .execute(
                    "INSERT INTO changes (seq, key, valid, kind, value)
                     VALUES (?1, ?2, ?3, ?4, ?5)",
                    (
                        row.seq,
                        row.key,
                        row.valid,
                        row.value.kind,
                        stored(&row.value.value),
                    ),
                )
                .unwrap();
        }
    }
    if seed % 2 == 1 {
        // Some changes are left without their event.
        connection
            .execute_batch("PRAGMA foreign_keys = OFF; DELETE FROM events WHERE seq IN (2, 5)")
            .unwrap();
    }
    let events: Vec<EventRow> = connection
        .prepare("SELECT seq, ts FROM events ORDER BY seq")
        .unwrap()
        .query_map([], |row| {
            Ok(EventRow {
                seq: row.get(0)?,
                ts: row.get(1)?,
            })
        })
        .unwrap()
        .map(|row| row.unwrap())
        .collect();
    let changes: Vec<ChangeRow> = connection
        .prepare("SELECT seq, key, valid, kind, value FROM changes ORDER BY seq, key, valid")
        .unwrap()
        .query_map([], |row| {
            Ok(ChangeRow {
                seq: row.get(0)?,
                key: row.get(1)?,
                valid: row.get(2)?,
                value: RawValue {
                    kind: row.get(3)?,
                    value: loaded(row.get(4)?),
                },
            })
        })
        .unwrap()
        .map(|row| row.unwrap())
        .collect();
    (Database::open(events, changes).unwrap(), connection)
}

fn held(connection: &Connection) -> Vec<u64> {
    connection
        .prepare("SELECT seq FROM events ORDER BY seq")
        .unwrap()
        .query_map([], |row| row.get(0))
        .unwrap()
        .map(|id| id.unwrap())
        .collect()
}

#[test]
fn reads_agree_with_queries() {
    for seed in 0..20 {
        let (db, connection) = stores(seed);
        for id in held(&connection) {
            for limit in [None, Some(0), Some(3), Some(6), Some(11)] {
                let snapshot = match limit {
                    Some(limit) => db.at(id).unwrap().valid_at(at(limit)),
                    None => db.at(id).unwrap().valid_unbounded(),
                };
                let mut state = Vec::new();
                let mut keys = KEYS.to_vec();
                keys.sort();
                for key in keys {
                    let place = (key, limit.map(|limit| limit as i64), id);
                    let row: Option<(i64, Stored)> = connection
                        .query_row(
                            "SELECT kind, value FROM changes
                             WHERE key = ?1 AND (?2 IS NULL OR valid <= ?2) AND seq <= ?3
                             ORDER BY valid DESC, seq DESC LIMIT 1",
                            place,
                            |row| Ok((row.get(0)?, row.get(1)?)),
                        )
                        .optional()
                        .unwrap();
                    let value = row.and_then(|(kind, value)| decode(kind, value));
                    assert_eq!(snapshot.get(key).unwrap(), value);
                    if let Some(value) = value {
                        state.push((key.to_string(), value));
                    }
                    let row: Option<(u64, i64, i64, i64, Stored)> = connection
                        .query_row(
                            "SELECT c.seq, e.ts, c.valid, c.kind, c.value
                             FROM changes c JOIN events e ON e.seq = c.seq
                             WHERE c.key = ?1 AND (?2 IS NULL OR c.valid <= ?2) AND c.seq <= ?3
                             ORDER BY c.valid DESC, c.seq DESC LIMIT 1",
                            place,
                            |row| {
                                Ok((
                                    row.get(0)?,
                                    row.get(1)?,
                                    row.get(2)?,
                                    row.get(3)?,
                                    row.get(4)?,
                                ))
                            },
                        )
                        .optional()
                        .unwrap();
                    let blamed = snapshot.blame(key).unwrap();
                    match row {
                        Some((seq, ts, valid, kind, value)) => {
                            let blamed = blamed.unwrap();
                            assert_eq!(blamed.event_id, seq);
                            assert_eq!(blamed.committed_at, at(ts as u64));
                            assert_eq!(blamed.assertion.valid_from, at(valid as u64));
                            assert_eq!(blamed.assertion.value, decode(kind, value));
                        }
                        None => assert_eq!(blamed, None),
                    }
                }
                assert_eq!(snapshot.state().unwrap().entries(), &state);
            }
        }
    }
}

#[test]
fn inspection_agrees_with_queries() {
    for seed in 0..20 {
        let (db, connection) = stores(seed);
        let keys: Vec<String> = connection
            .prepare("SELECT DISTINCT key FROM changes ORDER BY key")
            .unwrap()
            .query_map([], |row| row.get(0))
            .unwrap()
            .map(|key| key.unwrap())
            .collect();
        assert_eq!(db.keys().unwrap(), keys);
        for time in 0..13 {
            let id: Option<u64> = connection
                .query_row(
                    "SELECT seq FROM events WHERE ts <= ?1 ORDER BY ts DESC, seq DESC LIMIT 1",
                    [time],
                    |row| row.get(0),
                )
                .optional()
                .unwrap();
            assert_eq!(db.known_at(at(time as u64)).unwrap().event_id(), id);
        }
        for id in held(&connection) {
            let points: Vec<i64> = connection
                .prepare("SELECT DISTINCT valid FROM changes WHERE seq <= ?1 ORDER BY valid")
                .unwrap()
                .query_map([id], |row| row.get(0))
                .unwrap()
                .map(|point| point.unwrap())
                .collect();
            let seen: Vec<i64> = db
                .at(id)
                .unwrap()
                .changepoints()
                .unwrap()
                .into_iter()
                .map(|point| point.as_microsecond())
                .collect();
            assert_eq!(seen, points);
            let rows: Vec<(String, i64)> = connection
                .prepare("SELECT key, valid FROM changes WHERE seq = ?1 ORDER BY key, valid")
                .unwrap()
                .query_map([id], |row| Ok((row.get(0)?, row.get(1)?)))
                .unwrap()
                .map(|row| row.unwrap())
                .collect();
            let event = db.event(id).unwrap();
            let seen: Vec<(String, i64)> = event
                .assertions
                .into_iter()
                .map(|assertion| (assertion.key, assertion.valid_from.as_microsecond()))
                .collect();
            assert_eq!(seen, rows);
        }
        for key in KEYS {
            let rows: Vec<(u64, i64)> = connection
                .prepare(
                    "SELECT c.seq, c.valid FROM changes c JOIN events e ON e.seq = c.seq
                     WHERE c.key = ?1 ORDER BY c.seq, c.valid",
                )
                .unwrap()
                .query_map([key], |row| Ok((row.get(0)?, row.get(1)?)))
                .unwrap()
                .map(|row| row.unwrap())
                .collect();
            let seen: Vec<(u64, i64)> = db
                .history(key)
                .unwrap()
                .into_iter()
                .map(|r| (r.event_id, r.assertion.valid_from.as_microsecond()))
                .collect();
            assert_eq!(seen, rows);
        }
    }
}
