//! Reads and commits on a store.

use two_tdb::{
    Assertion, Database, Delta, Error, EventId, RecordedAssertion, Timestamp, Value, Write,
};

const SECOND: i128 = 1_000_000_000;

fn ts(s: &str) -> Timestamp {
    let time: jiff::Timestamp = s.parse().unwrap();
    Timestamp::from_nanosecond(time.as_nanosecond()).unwrap()
}

fn after(time: Timestamp, nanos: i128) -> Timestamp {
    Timestamp::from_nanosecond(time.as_nanosecond() + nanos).unwrap()
}

fn wait(millis: i128) {
    let start = Timestamp::now().as_nanosecond();
    while Timestamp::now().as_nanosecond() < start + millis * 1_000_000 {}
}

fn commit(db: &mut Database, writes: Vec<Write>) -> EventId {
    db.commit(writes).unwrap()
}

fn text(value: &str) -> Option<Value> {
    Some(Value::Str(value.into()))
}

#[test]
fn transaction_time_travel_reflects_each_commit() {
    let mut db = Database::memory().unwrap();
    commit(&mut db, vec![Write::set("x", 1)]);
    commit(&mut db, vec![Write::set("x", 2), Write::set("y", 9)]);
    commit(&mut db, vec![Write::delete("x")]);

    assert_eq!(db.at(1).unwrap().get("x").unwrap(), Some(Value::Int(1)));
    assert_eq!(db.at(2).unwrap().get("x").unwrap(), Some(Value::Int(2)));
    assert_eq!(db.latest().unwrap().get("x").unwrap(), None);
    assert_eq!(db.latest().unwrap().get("y").unwrap(), Some(Value::Int(9)));
    assert_eq!(db.len().unwrap(), 3);
    assert!(matches!(db.at(4), Err(Error::OutOfRange { id: 4, len: 3 })));
    assert!(matches!(db.event(4), Err(Error::OutOfRange { .. })));
}

#[test]
fn values_round_trip_with_their_types() {
    let mut db = Database::memory().unwrap();
    commit(
        &mut db,
        vec![
            Write::set("b", true),
            Write::set("i", 1),
            Write::set("f", Value::Float(2.5f64.to_bits())),
            Write::set("s", "hi"),
        ],
    );

    let state = db.latest().unwrap();
    assert_eq!(state.get("b").unwrap(), Some(Value::Bool(true)));
    assert_eq!(state.get("i").unwrap(), Some(Value::Int(1)));
    assert_eq!(
        state.get("f").unwrap(),
        Some(Value::Float(2.5f64.to_bits()))
    );
    assert_eq!(state.get("s").unwrap(), Some(Value::Str("hi".into())));
}

#[test]
fn corrections_splice_into_the_timeline() {
    let mut db = Database::memory().unwrap();
    commit(&mut db, vec![Write::set_at("x", "a", ts("2020-01-01T00:00:00Z"))]);
    commit(&mut db, vec![Write::set_at("x", "b", ts("2020-06-01T00:00:00Z"))]);
    commit(&mut db, vec![Write::set_at("x", "c", ts("2020-03-01T00:00:00Z"))]);

    let now = db.latest().unwrap();
    let get = |t| now.valid_at(ts(t)).get("x").unwrap();
    assert_eq!(get("2020-02-01T00:00:00Z"), text("a"));
    assert_eq!(get("2020-04-01T00:00:00Z"), text("c"));
    // The correction does not reach past the next assertion.
    assert_eq!(get("2020-07-01T00:00:00Z"), text("b"));

    let then = db.at(2).unwrap().valid_at(ts("2020-04-01T00:00:00Z"));
    assert_eq!(then.get("x").unwrap(), text("a"));
}

#[test]
fn reasserting_the_same_valid_time_supersedes() {
    let mut db = Database::memory().unwrap();
    let v = ts("2021-01-01T00:00:00Z");
    commit(&mut db, vec![Write::set_at("x", 1, v)]);
    commit(&mut db, vec![Write::set_at("x", 2, v)]);

    assert_eq!(
        db.latest().unwrap().valid_at(v).get("x").unwrap(),
        Some(Value::Int(2))
    );
    assert_eq!(
        db.at(1).unwrap().valid_at(v).get("x").unwrap(),
        Some(Value::Int(1))
    );
}

#[test]
fn scheduled_changes_wait_for_their_valid_time() {
    let future = after(Timestamp::now(), 3600 * SECOND);
    let mut db = Database::memory().unwrap();
    commit(
        &mut db,
        vec![Write::set("price", 3), Write::set_at("price", 4, future)],
    );

    let now = db.latest().unwrap();
    assert_eq!(now.get("price").unwrap(), Some(Value::Int(3)));
    assert_eq!(
        now.valid_at(future).get("price").unwrap(),
        Some(Value::Int(4))
    );
    assert_eq!(
        now.valid_unbounded().get("price").unwrap(),
        Some(Value::Int(4))
    );
    assert_eq!(now.valid_unbounded().valid_through(), None);
    assert_eq!(
        now.state().unwrap().entries(),
        &vec![("price".to_string(), Value::Int(3))]
    );
}

#[test]
fn known_at_walks_the_log_by_wall_clock() {
    let mut db = Database::memory().unwrap();
    commit(&mut db, vec![Write::set("x", 1)]);
    wait(2);
    commit(&mut db, vec![Write::set("x", 2)]);
    wait(2);
    commit(&mut db, vec![Write::set("x", 3)]);

    let stamp = |id| db.event(id).unwrap().committed_at;
    let before = after(stamp(1), -SECOND);
    assert_eq!(db.known_at(before).unwrap().get("x").unwrap(), None);
    assert_eq!(db.known_at(before).unwrap().event_id(), None);
    assert!(db.known_at(before).unwrap().state().unwrap().is_empty());
    assert_eq!(db.known_at(stamp(2)).unwrap().event_id(), Some(2));
    let get = |t| db.known_at(t).unwrap().get("x").unwrap();
    assert_eq!(get(stamp(1)), Some(Value::Int(1)));
    assert_eq!(get(after(stamp(2), -1000)), Some(Value::Int(1)));
    assert_eq!(get(stamp(2)), Some(Value::Int(2)));
    assert_eq!(get(after(stamp(3), SECOND)), Some(Value::Int(3)));
}

#[test]
fn state_lists_the_values_at_a_coordinate() {
    let mut db = Database::memory().unwrap();
    commit(&mut db, vec![Write::set("b", 2), Write::set("a", 1)]);
    commit(&mut db, vec![Write::delete("b"), Write::set("c", 3)]);

    assert_eq!(
        db.latest().unwrap().state().unwrap().entries(),
        &vec![
            ("a".to_string(), Value::Int(1)),
            ("c".to_string(), Value::Int(3))
        ]
    );
    assert_eq!(
        db.at(1).unwrap().state().unwrap().entries(),
        &vec![
            ("a".to_string(), Value::Int(1)),
            ("b".to_string(), Value::Int(2))
        ]
    );
}

#[test]
fn diff_spans_both_axes() {
    let mut db = Database::memory().unwrap();
    commit(
        &mut db,
        vec![
            Write::set("keep", 1),
            Write::set("change", 2),
            Write::set("drop", 3),
        ],
    );
    commit(
        &mut db,
        vec![
            Write::set("change", 20),
            Write::delete("drop"),
            Write::set("add", 4),
        ],
    );

    let changed = db.at(1).unwrap().diff(&db.latest().unwrap()).unwrap();
    assert_eq!(
        changed.entries(),
        &vec![
            ("add".to_string(), Delta::Added(Value::Int(4))),
            (
                "change".to_string(),
                Delta::Changed {
                    before: Value::Int(2),
                    after: Value::Int(20),
                },
            ),
            ("drop".to_string(), Delta::Removed(Value::Int(3))),
        ]
    );

    let mut db = Database::memory().unwrap();
    let jan = ts("2022-01-01T00:00:00Z");
    let jun = ts("2022-06-01T00:00:00Z");
    commit(
        &mut db,
        vec![Write::set_at("x", 1, jan), Write::set_at("x", 2, jun)],
    );
    let now = db.latest().unwrap();
    assert_eq!(
        now.valid_at(jan).diff(&now.valid_at(jun)).unwrap().entries(),
        &vec![(
            "x".to_string(),
            Delta::Changed {
                before: Value::Int(1),
                after: Value::Int(2),
            },
        )]
    );
}

#[test]
fn diff_can_compare_databases() {
    let mut a = Database::memory().unwrap();
    let mut b = Database::memory().unwrap();
    commit(&mut a, vec![Write::set("same", 1), Write::set("old", 2)]);
    commit(&mut b, vec![Write::set("same", 1), Write::set("new", 3)]);

    assert_eq!(
        a.latest()
            .unwrap()
            .diff(&b.latest().unwrap())
            .unwrap()
            .entries(),
        &vec![
            ("new".to_string(), Delta::Added(Value::Int(3))),
            ("old".to_string(), Delta::Removed(Value::Int(2))),
        ]
    );
}

#[test]
fn changepoints_enumerate_the_valid_axis() {
    let mut db = Database::memory().unwrap();
    assert!(db.latest().unwrap().changepoints().unwrap().is_empty());

    let jan = ts("2020-01-01T00:00:00Z");
    let mar = ts("2020-03-01T00:00:00Z");
    let jun = ts("2020-06-01T00:00:00Z");
    commit(&mut db, vec![Write::set_at("x", "a", jan)]);
    commit(&mut db, vec![Write::set_at("x", "b", jun)]);
    commit(
        &mut db,
        vec![Write::set_at("y", true, mar), Write::set_at("z", 1, jun)],
    );

    assert_eq!(
        db.latest().unwrap().changepoints().unwrap(),
        vec![jan, mar, jun]
    );
    assert_eq!(db.at(1).unwrap().changepoints().unwrap(), vec![jan]);
    assert_eq!(db.at(2).unwrap().changepoints().unwrap(), vec![jan, jun]);
}

#[test]
fn bisect_finds_a_monotonic_boundary() {
    let mut db = Database::memory().unwrap();
    assert_eq!(db.bisect(|_| Ok(true)).unwrap(), None);

    for value in 0..10 {
        commit(&mut db, vec![Write::set("n", value)]);
    }

    let above = |threshold| {
        db.bisect(|snapshot| {
            Ok(matches!(
                snapshot.get("n")?,
                Some(Value::Int(value)) if value >= threshold
            ))
        })
        .unwrap()
    };
    assert_eq!(above(0), Some(1));
    assert_eq!(above(7), Some(8));
    assert_eq!(above(10), None);
}

#[test]
fn blame_names_the_assertion_in_force() {
    let mut db = Database::memory().unwrap();
    let jan = ts("2020-01-01T00:00:00Z");
    let mar = ts("2020-03-01T00:00:00Z");
    commit(&mut db, vec![Write::set_at("x", "a", jan)]);
    commit(&mut db, vec![Write::set_at("x", "c", mar)]);
    commit(&mut db, vec![Write::delete("x")]);

    let now = db.latest().unwrap();
    assert_eq!(
        now.valid_at(ts("2020-02-01T00:00:00Z")).blame("x").unwrap(),
        Some(RecordedAssertion {
            event_id: 1,
            committed_at: db.event(1).unwrap().committed_at,
            assertion: Assertion {
                key: "x".into(),
                valid_from: jan,
                value: Some(Value::Str("a".into())),
            },
        })
    );
    let apr = now.valid_at(ts("2020-04-01T00:00:00Z"));
    assert_eq!(apr.blame("x").unwrap().unwrap().event_id, 2);

    // Absent now, and the event that deleted the key is named.
    assert_eq!(now.get("x").unwrap(), None);
    let gone = now.blame("x").unwrap().unwrap();
    assert_eq!((gone.event_id, gone.assertion.value), (3, None));

    assert_eq!(now.blame("y").unwrap(), None);
}

#[test]
fn empty_store_is_empty_until_the_first_commit() {
    let mut db = Database::memory().unwrap();
    assert!(db.is_empty().unwrap());
    commit(&mut db, vec![Write::set("x", 1)]);
    assert!(!db.is_empty().unwrap());
}

#[test]
fn a_snapshot_reports_its_coordinates() {
    let mut db = Database::memory().unwrap();
    commit(&mut db, vec![Write::set("x", 1)]);
    let v = ts("2030-01-01T00:00:00Z");
    let snap = db.at(1).unwrap();
    assert_eq!(snap.event_id(), Some(1));
    assert_eq!(snap.valid_at(v).valid_through(), Some(v));
    assert_eq!(snap.valid_unbounded().valid_through(), None);
}

#[test]
fn keys_enumerate_every_key_ever_asserted() {
    let mut db = Database::memory().unwrap();
    assert!(db.keys().unwrap().is_empty());

    commit(&mut db, vec![Write::set("b", 1), Write::set("a", 2)]);
    commit(&mut db, vec![Write::delete("a"), Write::set("c", 3)]);

    // Ascending; a deleted key was asserted too.
    assert_eq!(db.keys().unwrap(), vec!["a", "b", "c"]);
}

#[test]
fn history_reports_recorded_assertions() {
    let mut db = Database::memory().unwrap();
    let v = ts("2020-01-01T00:00:00Z");
    commit(&mut db, vec![Write::set_at("x", 1, v)]);
    commit(&mut db, vec![Write::set("y", 9)]);
    commit(&mut db, vec![Write::delete_at("x", v)]);

    let seen = db.history("x").unwrap();
    let deleted_at = db.event(3).unwrap().committed_at;
    assert_eq!(
        seen,
        vec![
            RecordedAssertion {
                event_id: 1,
                committed_at: db.event(1).unwrap().committed_at,
                assertion: Assertion {
                    key: "x".into(),
                    valid_from: v,
                    value: Some(Value::Int(1)),
                },
            },
            RecordedAssertion {
                event_id: 3,
                committed_at: deleted_at,
                assertion: Assertion {
                    key: "x".into(),
                    valid_from: v,
                    value: None,
                },
            },
        ]
    );
}

#[test]
fn one_event_can_assert_one_key_at_many_valid_times() {
    let mut db = Database::memory().unwrap();
    let jan = ts("2023-01-01T00:00:00Z");
    let jun = ts("2023-06-01T00:00:00Z");
    commit(
        &mut db,
        vec![Write::set_at("x", 1, jan), Write::set_at("x", 2, jun)],
    );

    let event = db.event(1).unwrap();
    assert_eq!(event.id, 1);
    assert_eq!(
        event.assertions,
        vec![
            Assertion {
                key: "x".into(),
                valid_from: jan,
                value: Some(Value::Int(1))
            },
            Assertion {
                key: "x".into(),
                valid_from: jun,
                value: Some(Value::Int(2))
            },
        ]
    );
}

#[test]
fn batches_dedupe_by_key_and_valid() {
    let mut db = Database::memory().unwrap();
    let v = ts("2020-01-01T00:00:00Z");
    commit(
        &mut db,
        vec![Write::set_at("x", 1, v), Write::set_at("x", 2, v)],
    );
    assert_eq!(
        db.latest().unwrap().valid_at(v).get("x").unwrap(),
        Some(Value::Int(2))
    );
}

#[test]
fn valid_times_are_truncated_to_microseconds() {
    let mut db = Database::memory().unwrap();
    commit(
        &mut db,
        vec![Write::set_at("x", 1, ts("2020-01-01T00:00:00.0000005Z"))],
    );
    assert_eq!(
        db.history("x").unwrap()[0].assertion.valid_from,
        ts("2020-01-01T00:00:00Z")
    );
}

#[test]
fn the_first_example_reads_back() {
    let mut db = Database::memory().unwrap();
    let first = commit(&mut db, vec![Write::set("votes", 1)]);
    commit(&mut db, vec![Write::set("votes", 2)]);
    assert_eq!(db.at(first).unwrap().get("votes").unwrap(), Some(Value::Int(1)));
    assert_eq!(db.latest().unwrap().get("votes").unwrap(), Some(Value::Int(2)));
}

#[test]
fn one_commit_asserts_many_keys() {
    let mut db = Database::memory().unwrap();
    let event = commit(
        &mut db,
        vec![
            Write::set("name", "Ada"),
            Write::set("active", true),
            Write::delete("pending"),
        ],
    );
    assert_eq!(db.event(event).unwrap().assertions.len(), 3);

    let names = ["alice", "bob"];
    let writes = names
        .iter()
        .map(|name| Write::set(format!("users/{name}/active"), true))
        .collect();
    let event = commit(&mut db, writes);
    assert_eq!(db.event(event).unwrap().assertions.len(), 2);
    assert_eq!(
        db.latest().unwrap().get("users/bob/active").unwrap(),
        Some(Value::Bool(true))
    );
    db.close().unwrap();
}
