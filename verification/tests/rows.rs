//! The rows of the tables: how values are stored, and what is refused.

use two_tdb::{
    resolve_writes, timestamp, ChangeRow, Database, Error, EventRow, RawValue, Reader, SqlValue,
    StorageKind, Timestamp, Value, Write,
};
use two_tdb::log::prepare;

fn at(micros: i64) -> Timestamp {
    timestamp(micros).unwrap()
}

fn event(seq: u64, ts: i64) -> EventRow {
    EventRow { seq, ts }
}

fn change(seq: u64, key: &str, valid: i64, value: Option<Value>) -> ChangeRow {
    ChangeRow {
        seq,
        key: key.into(),
        valid,
        value: RawValue::encode(value),
    }
}

fn raw(kind: i64, value: SqlValue) -> RawValue {
    RawValue { kind, value }
}

#[test]
fn each_kind_of_value_is_encoded_and_read_back() {
    let bits = 2.5f64.to_bits();
    let values = vec![
        (Some(Value::Bool(false)), 0),
        (Some(Value::Bool(true)), 0),
        (Some(Value::Int(-7)), 1),
        (Some(Value::Float(bits)), 2),
        (Some(Value::Str("hi".into())), 3),
        (None, 4),
    ];
    for (value, kind) in values {
        let stored = RawValue::encode(value.clone());
        assert_eq!(stored.kind, kind);
        assert_eq!(stored.decode(), Ok(value));
    }
    assert!(matches!(
        RawValue::encode(Some(Value::Bool(true))).value,
        SqlValue::Integer(1)
    ));
    assert!(matches!(
        RawValue::encode(Some(Value::Float(bits))).value,
        SqlValue::Real(b) if b == bits
    ));
    assert!(matches!(RawValue::encode(None).value, SqlValue::Null));
}

#[test]
fn forms_of_no_value_are_corrupt() {
    let forms = vec![
        raw(5, SqlValue::Null),
        raw(-1, SqlValue::Integer(0)),
        raw(0, SqlValue::Integer(2)),
        raw(0, SqlValue::Null),
        raw(1, SqlValue::Real(0)),
        raw(2, SqlValue::Integer(1)),
        raw(3, SqlValue::Blob(vec![1, 2])),
        raw(4, SqlValue::Integer(0)),
    ];
    for form in forms {
        assert_eq!(form.decode(), Err(Error::Corrupt));
        assert_eq!(form.decode_present(), Err(Error::Corrupt));
    }
    assert_eq!(
        raw(4, SqlValue::Null).decode_present(),
        Err(Error::Corrupt)
    );
    assert_eq!(
        raw(1, SqlValue::Integer(3)).decode_present(),
        Ok(Value::Int(3))
    );
}

#[test]
fn storage_kinds_have_numbers() {
    let kinds = [
        StorageKind::Bool,
        StorageKind::Int,
        StorageKind::Float,
        StorageKind::Str,
        StorageKind::Delete,
    ];
    for (code, kind) in kinds.into_iter().enumerate() {
        assert_eq!(kind.code(), code as i64);
        assert_eq!(StorageKind::try_from(code as i64), Ok(kind));
    }
    assert_eq!(StorageKind::try_from(5), Err(Error::Corrupt));
    assert_eq!(StorageKind::try_from(-1), Err(Error::Corrupt));
}

#[test]
fn floats_compare_as_numbers() {
    let float = |x: f64| Value::Float(x.to_bits());
    assert_eq!(float(0.0), float(-0.0));
    assert_eq!(float(2.5), float(2.5));
    assert_ne!(float(2.5), float(-2.5));
    assert_ne!(float(f64::NAN), float(f64::NAN));
    assert_eq!(float(f64::INFINITY), float(f64::INFINITY));
    assert_ne!(float(1.0), Value::Int(1));
    assert!(float(f64::NAN).is_nan());
    assert!(float(-f64::NAN).is_nan());
    assert!(!float(f64::NEG_INFINITY).is_nan());
}

#[test]
fn values_convert_into_values() {
    assert_eq!(Value::from(true), Value::Bool(true));
    assert_eq!(Value::from(-3), Value::Int(-3));
    assert_eq!(Value::from("x"), Value::Str("x".into()));
    assert_eq!(Value::from("x".to_string()), Value::Str("x".into()));
}

#[test]
fn a_store_opens_from_its_rows() {
    let events = vec![event(1, 10), event(2, 20)];
    let changes = vec![
        change(1, "a", 10, Some(Value::Int(1))),
        change(1, "b", 5, Some(Value::Int(2))),
        change(1, "b", 30, Some(Value::Int(3))),
        change(2, "a", 20, None),
    ];
    let mut db = Database::open(events, changes).unwrap();
    assert_eq!(db.len(), Ok(2));
    assert_eq!(db.at(1).unwrap().get("a"), Ok(Some(Value::Int(1))));
    assert_eq!(db.at(2).unwrap().get("a"), Ok(None));
    assert_eq!(db.at(2).unwrap().get("b"), Ok(Some(Value::Int(2))));
    assert_eq!(
        db.at(2).unwrap().valid_unbounded().get("b"),
        Ok(Some(Value::Int(3)))
    );
    assert_eq!(db.commit_at(vec![Write::set("c", 1)], at(30)), Ok(3));
    assert_eq!(db.event(3).unwrap().committed_at, at(30));
}

#[test]
fn rows_out_of_order_are_corrupt() {
    let one = || vec![event(1, 10)];
    let int = || Some(Value::Int(1));
    let refused = vec![
        (vec![event(2, 10), event(1, 10)], vec![]),
        (vec![event(1, 10), event(1, 11)], vec![]),
        (one(), vec![change(1, "b", 1, int()), change(1, "a", 1, int())]),
        (one(), vec![change(1, "a", 2, int()), change(1, "a", 1, int())]),
        (one(), vec![change(1, "a", 1, int()), change(1, "a", 1, int())]),
    ];
    for (events, changes) in refused {
        assert!(matches!(
            Reader::inspect(events, changes),
            Err(Error::Corrupt)
        ));
    }
    assert!(matches!(
        Database::open(vec![event(1, 1), event(1, 1)], vec![]),
        Err(Error::Corrupt)
    ));
    assert!(Reader::inspect(one(), vec![change(1, "a", 1, int())]).is_ok());
}

/// One event, and changes of events that the log does not hold.
fn orphans() -> (Vec<EventRow>, Vec<ChangeRow>) {
    (
        vec![event(2, 20)],
        vec![
            change(1, "a", 10, Some(Value::Int(1))),
            change(1, "b", 30, Some(Value::Int(2))),
            change(2, "b", 15, Some(Value::Int(3))),
            change(3, "c", 5, Some(Value::Int(4))),
            change(9, "a", 12, None),
        ],
    )
}

#[test]
fn changes_without_an_event_are_read() {
    let (events, changes) = orphans();
    let db = Reader::inspect(events, changes).unwrap();
    let two = db.at(2).unwrap().valid_unbounded();
    assert_eq!(two.get("a"), Ok(Some(Value::Int(1))));
    assert_eq!(two.get("b"), Ok(Some(Value::Int(2))));
    assert_eq!(two.get("c"), Ok(None));
    assert_eq!(
        two.state().unwrap().entries(),
        &vec![
            ("a".to_string(), Value::Int(1)),
            ("b".to_string(), Value::Int(2))
        ]
    );
    assert_eq!(two.changepoints().unwrap(), vec![at(10), at(15), at(30)]);
    assert_eq!(db.keys().unwrap(), vec!["a", "b", "c"]);
    // What names an event passes them over.
    assert_eq!(two.blame("a"), Ok(None));
    let blamed = two.blame("b").unwrap().unwrap();
    assert_eq!((blamed.event_id, blamed.assertion.value), (2, Some(Value::Int(3))));
    assert!(db.history("a").unwrap().is_empty());
    assert_eq!(db.history("b").unwrap().len(), 1);
    assert_eq!(db.event(1), Err(Error::OutOfRange { id: 1, len: 1 }));
    assert_eq!(db.event(2).unwrap().assertions.len(), 1);
}

#[test]
fn a_commit_finds_changes_of_its_event() {
    let (events, changes) = orphans();
    let mut db = Database::open(events, changes).unwrap();
    assert_eq!(
        db.commit_at(vec![Write::set("x", 1), Write::set_at("c", 5, at(5))], at(40)),
        Err(Error::Constraint)
    );
    assert_eq!(db.len(), Ok(1));
    assert_eq!(
        db.commit_at(
            vec![
                Write::set("x", 1),
                Write::set_at("c", 5, at(6)),
                Write::set("b", 6)
            ],
            at(40)
        ),
        Ok(3)
    );
    let seen: Vec<(String, i64)> = db
        .event(3)
        .unwrap()
        .assertions
        .into_iter()
        .map(|a| (a.key, a.valid_from.as_microsecond()))
        .collect();
    assert_eq!(
        seen,
        vec![
            ("b".to_string(), 40),
            ("c".to_string(), 5),
            ("c".to_string(), 6),
            ("x".to_string(), 40),
        ]
    );
    assert_eq!(db.at(3).unwrap().get("c"), Ok(Some(Value::Int(5))));
    assert_eq!(db.history("c").unwrap().len(), 2);
    assert_eq!(db.history("a").unwrap().len(), 0);
}

#[test]
fn unreadable_rows_are_found_when_they_are_read() {
    let last = 253402207200000000;
    let mut bad = change(1, "bad", 1, None);
    bad.value = raw(0, SqlValue::Integer(7));
    let db = Reader::inspect(
        vec![event(1, 1), event(2, last + 1)],
        vec![
            bad,
            change(1, "good", 1, Some(Value::Int(1))),
            change(2, "late", 1, Some(Value::Int(2))),
        ],
    )
    .unwrap();
    let one = db.at(1).unwrap();
    assert_eq!(one.get("good"), Ok(Some(Value::Int(1))));
    assert_eq!(one.get("bad"), Err(Error::Corrupt));
    assert_eq!(one.blame("bad"), Err(Error::Corrupt));
    assert_eq!(one.state().unwrap_err(), Error::Corrupt);
    assert_eq!(one.diff(&one).unwrap_err(), Error::Corrupt);
    assert_eq!(db.event(1), Err(Error::Corrupt));
    assert_eq!(db.history("bad"), Err(Error::Corrupt));
    assert_eq!(db.history("good").unwrap().len(), 1);
    assert!(matches!(db.at(2), Err(Error::Corrupt)));
    assert_eq!(db.history("late"), Err(Error::Corrupt));
    assert_eq!(db.latest().unwrap().get("late"), Ok(Some(Value::Int(2))));
    assert_eq!(db.bisect(|_| Ok(false)), Err(Error::Corrupt));
    assert_eq!(db.keys().unwrap(), vec!["bad", "good", "late"]);
}

#[test]
fn unreadable_valid_times_are_corrupt() {
    let last = 253402207200000000;
    let db = Reader::inspect(
        vec![event(1, 1)],
        vec![change(1, "a", last + 1, Some(Value::Int(1)))],
    )
    .unwrap();
    let all = db.at(1).unwrap().valid_unbounded();
    assert_eq!(all.get("a"), Ok(Some(Value::Int(1))));
    assert_eq!(all.changepoints(), Err(Error::Corrupt));
    assert_eq!(all.blame("a"), Err(Error::Corrupt));
    assert_eq!(db.event(1), Err(Error::Corrupt));
}

#[test]
fn a_commit_without_writes_is_refused() {
    let mut db = Database::memory().unwrap();
    assert_eq!(db.commit(vec![]), Err(Error::EmptyCommit));
    assert_eq!(db.commit_at(vec![], at(5)), Err(Error::EmptyCommit));
    assert_eq!(db.len(), Ok(0));
}

#[test]
fn a_kept_value_that_is_not_a_number_is_refused() {
    let nan = || Value::Float(f64::NAN.to_bits());
    let mut db = Database::memory().unwrap();
    assert_eq!(
        db.commit_at(vec![Write::set("x", 1), Write::set("y", nan())], at(5)),
        Err(Error::Constraint)
    );
    assert_eq!(db.len(), Ok(0));
    assert!(db.keys().unwrap().is_empty());
    // It is not kept, so it does not matter.
    assert_eq!(
        db.commit_at(vec![Write::set("y", nan()), Write::set("y", 2)], at(5)),
        Ok(1)
    );
    assert_eq!(db.at(1).unwrap().get("y"), Ok(Some(Value::Int(2))));
}

#[test]
fn no_event_follows_the_greatest_id() {
    let top = i64::MAX as u64;
    let mut db = Database::open(vec![event(top, 1)], vec![]).unwrap();
    assert_eq!(
        db.commit_at(vec![Write::set("x", 1)], at(2)),
        Err(Error::Full)
    );
    assert_eq!(db.len(), Ok(1));
    let mut db = Database::open(vec![event(top - 1, 1)], vec![]).unwrap();
    assert_eq!(db.commit_at(vec![Write::set("x", 1)], at(2)), Ok(top));
}

#[test]
fn writes_are_resolved_in_order() {
    let resolved = resolve_writes(
        vec![
            Write::set("b", 1),
            Write::set_at("a", 2, at(9)),
            Write::set_at("a", 3, at(3)),
            Write::set("b", 4),
            Write::delete("a"),
            Write::set_at("b", 5, Timestamp::from_nanosecond(7999).unwrap()),
            Write::delete_at("é", at(1)),
            Write::set("z", "zed"),
        ],
        at(7),
    );
    let seen: Vec<_> = resolved
        .into_iter()
        .map(|write| (write.key, write.valid_from, write.value))
        .collect();
    assert_eq!(
        seen,
        vec![
            ("a".to_string(), 3, Some(Value::Int(3))),
            ("a".to_string(), 7, None),
            ("a".to_string(), 9, Some(Value::Int(2))),
            ("b".to_string(), 7, Some(Value::Int(5))),
            ("z".to_string(), 7, Some(Value::Str("zed".into()))),
            ("é".to_string(), 1, None),
        ]
    );
}

#[test]
fn a_commit_is_prepared_as_rows() {
    let (event, rows) = prepare(Some(4), vec![Write::set("x", 1), Write::delete("a")], at(7)).unwrap();
    assert_eq!(event, EventRow { seq: 5, ts: 7 });
    assert_eq!(rows.len(), 2);
    assert_eq!((rows[0].seq, rows[0].key.as_str(), rows[0].valid), (5, "a", 7));
    assert_eq!(rows[0].value.decode(), Ok(None));
    assert_eq!((rows[1].seq, rows[1].key.as_str(), rows[1].valid), (5, "x", 7));
    assert_eq!(rows[1].value.decode(), Ok(Some(Value::Int(1))));
    let (event, _) = prepare(None, vec![Write::set("x", 1)], at(7)).unwrap();
    assert_eq!(event.seq, 1);
    assert!(matches!(prepare(None, vec![], at(7)), Err(Error::EmptyCommit)));
}
