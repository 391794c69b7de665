//! The laws of the store, on chosen values.

use two_tdb::{
    diff_states, timestamp, Assertion, ChangeRow, Database, Delta, Error, EventRow, RawValue,
    Reader, Timestamp, Value, Write,
};

fn at(micros: i64) -> Timestamp {
    timestamp(micros).unwrap()
}

/// Three events: at 10, 20 and 30.
fn store() -> Database {
    let mut db = Database::memory().unwrap();
    db.commit_at(vec![Write::set("a", 1), Write::set("b", "x")], at(10))
        .unwrap();
    db.commit_at(
        vec![Write::delete("b"), Write::set_at("a", 2, at(40))],
        at(20),
    )
    .unwrap();
    db.commit_at(vec![Write::set_at("a", 3, at(15)), Write::set("c", true)], at(30))
        .unwrap();
    db
}

#[test]
fn the_greatest_valid_time_and_event_is_in_force() {
    let db = store();
    let now = db.latest_at(at(100)).unwrap();
    let get = |v| now.valid_at(at(v)).get("a").unwrap();
    assert_eq!(get(9), None);
    assert_eq!(get(10), Some(Value::Int(1)));
    assert_eq!(get(14), Some(Value::Int(1)));
    assert_eq!(get(15), Some(Value::Int(3)));
    assert_eq!(get(39), Some(Value::Int(3)));
    assert_eq!(get(40), Some(Value::Int(2)));
}

#[test]
fn get_agrees_with_blame_and_state() {
    let db = store();
    for id in 1..=3 {
        for valid in [5, 10, 15, 20, 30, 40, 50] {
            let snapshot = db.at(id).unwrap().valid_at(at(valid));
            let state = snapshot.state().unwrap();
            for key in ["a", "b", "c", "never"] {
                let value = snapshot.get(key).unwrap();
                let blamed = snapshot.blame(key).unwrap();
                assert_eq!(blamed.and_then(|b| b.assertion.value), value);
                assert_eq!(state.get(key).cloned(), value);
            }
        }
    }
}

#[test]
fn blame_names_a_deletion_and_nothing_for_a_key_never_asserted() {
    let db = store();
    let now = db.at(3).unwrap();
    let gone = now.blame("b").unwrap().unwrap();
    assert_eq!(gone.event_id, 2);
    assert_eq!(gone.committed_at, at(20));
    assert_eq!(
        gone.assertion,
        Assertion {
            key: "b".into(),
            valid_from: at(20),
            value: None
        }
    );
    assert_eq!(now.blame("never"), Ok(None));
    assert_eq!(db.at(1).unwrap().blame("c"), Ok(None));
}

#[test]
fn unbounded_is_beyond_every_valid_time() {
    let db = store();
    let now = db.at(3).unwrap();
    for key in ["a", "b", "c"] {
        assert_eq!(
            now.valid_unbounded().get(key),
            now.valid_at(at(1000)).get(key)
        );
    }
    assert_eq!(now.valid_unbounded().event_id(), Some(3));
    assert_eq!(now.valid_at(at(7)).event_id(), Some(3));
}

#[test]
fn nothing_is_known_before_the_first_event() {
    let db = store();
    let early = db.known_at(at(9)).unwrap();
    assert_eq!(early.event_id(), None);
    assert_eq!(early.valid_unbounded().get("a"), Ok(None));
    assert_eq!(early.valid_unbounded().blame("a"), Ok(None));
    assert!(early.valid_unbounded().state().unwrap().is_empty());
    assert!(early.changepoints().unwrap().is_empty());
}

#[test]
fn equal_commit_times_are_told_apart_by_id() {
    let mut db = Database::memory().unwrap();
    db.commit_at(vec![Write::set("x", 1)], at(10)).unwrap();
    db.commit_at(vec![Write::set("x", 2)], at(10)).unwrap();
    // The clock goes backward.
    db.commit_at(vec![Write::set("x", 3)], at(5)).unwrap();
    assert_eq!(db.known_at(at(10)).unwrap().event_id(), Some(2));
    assert_eq!(db.known_at(at(9)).unwrap().event_id(), Some(3));
    assert_eq!(db.known_at(at(5)).unwrap().event_id(), Some(3));
    assert_eq!(db.known_at(at(4)).unwrap().event_id(), None);
    assert_eq!(db.latest_at(at(10)).unwrap().event_id(), Some(3));
    assert_eq!(db.latest_at(at(10)).unwrap().get("x"), Ok(Some(Value::Int(2))));
    assert_eq!(db.at(3).unwrap().get("x"), Ok(Some(Value::Int(3))));
}

#[test]
fn later_commits_leave_snapshots_as_they_were() {
    let mut db = store();
    let look = |db: &Database| {
        let snapshot = db.at(2).unwrap().valid_unbounded();
        (
            snapshot.get("a").unwrap(),
            snapshot.blame("b").unwrap(),
            snapshot.state().unwrap(),
            snapshot.changepoints().unwrap(),
            db.event(2).unwrap(),
        )
    };
    let before = look(&db);
    let told = db.history("a").unwrap();
    db.commit_at(
        vec![
            Write::set_at("a", 9, at(40)),
            Write::set_at("b", 9, at(1)),
            Write::delete("c"),
        ],
        at(50),
    )
    .unwrap();
    assert_eq!(look(&db), before);
    assert_eq!(db.history("a").unwrap()[..told.len()], told[..]);
    assert_eq!(db.history("a").unwrap().len(), told.len() + 1);
}

#[test]
fn a_commit_reads_back() {
    let mut db = store();
    let id = db
        .commit_at(
            vec![
                Write::set("p", 1),
                Write::set_at("q", 2, at(77)),
                Write::set("p", 3),
            ],
            at(60),
        )
        .unwrap();
    assert_eq!(id, 4);
    assert_eq!(db.len(), Ok(4));
    let here = db.at(id).unwrap();
    assert_eq!(here.get("p"), Ok(Some(Value::Int(3))));
    assert_eq!(here.get("q"), Ok(None));
    assert_eq!(here.valid_at(at(77)).get("q"), Ok(Some(Value::Int(2))));
    let event = db.event(id).unwrap();
    assert_eq!(event.committed_at, at(60));
    assert_eq!(
        event.assertions,
        vec![
            Assertion {
                key: "p".into(),
                valid_from: at(60),
                value: Some(Value::Int(3))
            },
            Assertion {
                key: "q".into(),
                valid_from: at(77),
                value: Some(Value::Int(2))
            },
        ]
    );
    assert_eq!(db.keys().unwrap(), vec!["a", "b", "c", "p", "q"]);
}

#[test]
fn a_refused_commit_changes_nothing() {
    let mut db = store();
    let before = (db.len(), db.keys(), db.history("a"));
    assert_eq!(db.commit_at(vec![], at(99)), Err(Error::EmptyCommit));
    let nan = Value::Float(f64::NAN.to_bits());
    assert_eq!(
        db.commit_at(vec![Write::set("a", nan)], at(99)),
        Err(Error::Constraint)
    );
    assert_eq!((db.len(), db.keys(), db.history("a")), before);
}

#[test]
fn a_difference_reverses_and_leads_across() {
    let db = store();
    let (one, three) = (db.at(1).unwrap(), db.at(3).unwrap());
    let there = one.diff(&three).unwrap();
    let back = three.diff(&one).unwrap();
    assert_eq!(
        there.entries(),
        &vec![
            (
                "a".to_string(),
                Delta::Changed {
                    before: Value::Int(1),
                    after: Value::Int(3)
                }
            ),
            ("b".to_string(), Delta::Removed(Value::Str("x".into()))),
            ("c".to_string(), Delta::Added(Value::Bool(true))),
        ]
    );
    assert_eq!(
        back.entries(),
        &vec![
            (
                "a".to_string(),
                Delta::Changed {
                    before: Value::Int(3),
                    after: Value::Int(1)
                }
            ),
            ("b".to_string(), Delta::Added(Value::Str("x".into()))),
            ("c".to_string(), Delta::Removed(Value::Bool(true))),
        ]
    );
    assert!(three.diff(&three).unwrap().is_empty());
    let (before, after) = (one.state().unwrap(), three.state().unwrap());
    assert_eq!(diff_states(&before, &after), there);
}

#[test]
fn zeros_do_not_differ() {
    let mut db = Database::memory().unwrap();
    let float = |x: f64| Value::Float(x.to_bits());
    db.commit_at(vec![Write::set("x", float(0.0))], at(1)).unwrap();
    db.commit_at(vec![Write::set("x", float(-0.0))], at(2)).unwrap();
    assert!(db.at(1).unwrap().diff(&db.at(2).unwrap()).unwrap().is_empty());
    // The bits are kept.
    assert!(matches!(
        db.at(2).unwrap().get("x"),
        Ok(Some(Value::Float(bits))) if bits == (-0.0f64).to_bits()
    ));
}

#[test]
fn bisect_hands_on_errors_and_counts_calls() {
    let db = store();
    assert_eq!(db.bisect(|_| Err(Error::Corrupt)), Err(Error::Corrupt));
    let mut asked = Vec::new();
    let found = db.bisect(|snapshot| {
        asked.push(snapshot.event_id());
        Ok(snapshot.get("b")?.is_none())
    });
    assert_eq!(found, Ok(Some(2)));
    assert_eq!(asked, vec![Some(2), Some(1)]);
    assert_eq!(db.bisect(|_| Ok(true)), Ok(Some(1)));
    assert_eq!(db.bisect(|_| Ok(false)), Ok(None));
}

#[test]
fn bisect_hands_on_an_error_after_an_answer() {
    let mut db = store();
    db.commit_at(vec![Write::set("d", 1)], at(50)).unwrap();
    let mut asked = Vec::new();
    let found = db.bisect(|snapshot| {
        asked.push(snapshot.event_id());
        match snapshot.event_id() {
            Some(2) => Ok(true),
            Some(1) => Err(Error::Full),
            _ => Ok(false),
        }
    });
    assert_eq!(found, Err(Error::Full));
    assert_eq!(asked, vec![Some(2), Some(1)]);
    let mut asked = 0;
    let none = Database::memory().unwrap();
    assert_eq!(
        none.bisect(|_| {
            asked += 1;
            Ok(true)
        }),
        Ok(None)
    );
    assert_eq!(asked, 0);
}

#[test]
fn the_last_known_is_the_greatest_where_times_do_not_decrease() {
    let db = store();
    for (time, id) in [(9, None), (10, Some(1)), (19, Some(1)), (20, Some(2)), (99, Some(3))] {
        assert_eq!(db.known_at(at(time)).unwrap().event_id(), id);
    }
}

#[test]
fn keys_are_ordered_by_their_bytes() {
    let mut db = Database::memory().unwrap();
    let names = ["b", "", "a", "ab", "é", "Z", "a\u{0}", "日本"];
    let writes = names.iter().map(|name| Write::set(*name, 1)).collect();
    db.commit_at(writes, at(1)).unwrap();
    let mut sorted: Vec<String> = names.iter().map(|name| name.to_string()).collect();
    sorted.sort();
    assert_eq!(db.keys().unwrap(), sorted);
    let state = db.at(1).unwrap().state().unwrap();
    let listed: Vec<String> = state.entries().iter().map(|(key, _)| key.clone()).collect();
    assert_eq!(listed, sorted);
    for name in names {
        assert_eq!(state.get(name), Some(&Value::Int(1)));
    }
    assert_eq!(state.get("aa"), None);
}

#[test]
fn events_are_numbered_from_one() {
    let mut db = Database::memory().unwrap();
    for id in 1..=5 {
        assert_eq!(db.commit(vec![Write::set("x", id as i64)]), Ok(id));
        assert_eq!(db.event(id).unwrap().id, id);
    }
    assert!(matches!(
        db.at(0),
        Err(Error::OutOfRange { id: 0, len: 5 })
    ));
    assert!(matches!(
        db.at(u64::MAX),
        Err(Error::OutOfRange { id: u64::MAX, len: 5 })
    ));
}

#[test]
fn reads_change_only_at_changepoints() {
    let db = store();
    let now = db.at(3).unwrap();
    let points: Vec<i64> = now
        .changepoints()
        .unwrap()
        .into_iter()
        .map(|point| point.as_microsecond())
        .collect();
    assert_eq!(points, vec![10, 15, 20, 30, 40]);
    for valid in 1..60 {
        if !points.contains(&valid) {
            let (before, after) = (now.valid_at(at(valid - 1)), now.valid_at(at(valid)));
            assert!(before.diff(&after).unwrap().is_empty());
            assert_eq!(before.blame("a"), after.blame("a"));
        }
    }
}

#[test]
fn histories_agree_with_events_and_blame() {
    let db = store();
    let history = db.history("a").unwrap();
    assert_eq!(history.len(), 3);
    for recorded in &history {
        let event = db.event(recorded.event_id).unwrap();
        assert_eq!(event.committed_at, recorded.committed_at);
        assert!(event.assertions.contains(&recorded.assertion));
        assert_eq!(recorded.assertion.key, "a");
    }
    for valid in [12, 17, 45] {
        let blamed = db.at(3).unwrap().valid_at(at(valid)).blame("a").unwrap();
        assert!(history.contains(&blamed.unwrap()));
    }
    assert!(db.history("never").unwrap().is_empty());
}

#[test]
fn the_rows_of_a_key_suffice() {
    let rows = |all: bool| {
        let mut rows = Vec::new();
        let events = [(1, 10), (2, 20), (3, 30)];
        for (seq, ts) in events {
            for key in ["a", "b", "c"] {
                if all || key == "b" {
                    rows.push(ChangeRow {
                        seq,
                        key: key.into(),
                        valid: 40 - ts,
                        value: RawValue::encode(Some(Value::Int(ts))),
                    });
                }
            }
        }
        let events = events.map(|(seq, ts)| EventRow { seq, ts });
        Reader::inspect(events.to_vec(), rows).unwrap()
    };
    let (whole, part) = (rows(true), rows(false));
    for id in 1..=3 {
        for valid in [5, 10, 20, 30] {
            let (one, two) = (
                whole.at(id).unwrap().valid_at(at(valid)),
                part.at(id).unwrap().valid_at(at(valid)),
            );
            assert_eq!(one.get("b"), two.get("b"));
            assert_eq!(one.blame("b"), two.blame("b"));
        }
    }
    assert_eq!(whole.history("b"), part.history("b"));
    assert_eq!(part.history("b").unwrap().len(), 3);
    assert_eq!(whole.at(3).unwrap().valid_at(at(30)).get("b"), Ok(Some(Value::Int(10))));
    assert_eq!(part.at(3).unwrap().get("a"), Ok(None));
}

#[test]
fn the_rows_of_an_event_suffice() {
    let change = |seq, key: &str| ChangeRow {
        seq,
        key: key.into(),
        valid: 7,
        value: RawValue::encode(Some(Value::Int(seq as i64))),
    };
    let events = || vec![EventRow { seq: 1, ts: 10 }, EventRow { seq: 2, ts: 20 }];
    let whole = Reader::inspect(
        events(),
        vec![change(1, "a"), change(1, "b"), change(2, "a"), change(2, "c")],
    )
    .unwrap();
    let part = Reader::inspect(events(), vec![change(2, "a"), change(2, "c")]).unwrap();
    assert_eq!(whole.event(2), part.event(2));
    assert_eq!(part.event(2).unwrap().assertions.len(), 2);
    let none = Reader::inspect(events(), vec![]).unwrap();
    assert_eq!(none.known_at(at(15)).unwrap().event_id(), Some(1));
    assert_eq!(none.latest_at(at(15)).unwrap().event_id(), Some(2));
    assert_eq!(none.at(2).unwrap().valid_through(), Some(at(20)));
}
