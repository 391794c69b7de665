//! How a row stores a value: a kind, and a value of one of SQLite's storage
//! classes.

use crate::error::Error;
use crate::value::{optional, Value, ValueView};
use vstd::prelude::*;

verus! {

/// A value of one of SQLite's storage classes. A real is held by the bits of its
/// IEEE 754 double.
#[derive(Debug)]
pub enum SqlValue {
    Null,
    Integer(i64),
    Real(u64),
    Text(String),
    Blob(Vec<u8>),
}

/// The model of a `SqlValue`.
pub enum SqlView {
    Null,
    Integer(i64),
    Real(u64),
    Text(Seq<char>),
    Blob(Seq<u8>),
}

impl View for SqlValue {
    type V = SqlView;

    open spec fn view(&self) -> SqlView {
        match *self {
            SqlValue::Null => SqlView::Null,
            SqlValue::Integer(value) => SqlView::Integer(value),
            SqlValue::Real(bits) => SqlView::Real(bits),
            SqlValue::Text(text) => SqlView::Text(text@),
            SqlValue::Blob(bytes) => SqlView::Blob(bytes@),
        }
    }
}

/// The kinds of assertion that a row can hold.
#[derive(Debug, Clone, Copy, PartialEq, Eq, Structural)]
pub enum StorageKind {
    Bool,
    Int,
    Float,
    Str,
    Delete,
}

impl StorageKind {
    /// The number by which a row names the kind.
    pub open spec fn code_spec(self) -> i64 {
        match self {
            StorageKind::Bool => 0,
            StorageKind::Int => 1,
            StorageKind::Float => 2,
            StorageKind::Str => 3,
            StorageKind::Delete => 4,
        }
    }

    /// The number by which a row names the kind.
    pub fn code(self) -> (code: i64)
        ensures
            code == self.code_spec(),
    {
        match self {
            StorageKind::Bool => 0,
            StorageKind::Int => 1,
            StorageKind::Float => 2,
            StorageKind::Str => 3,
            StorageKind::Delete => 4,
        }
    }
}

/// The kind that a row names by `raw`.
pub open spec fn kind_of(raw: i64) -> Option<StorageKind> {
    match raw {
        0 => Some(StorageKind::Bool),
        1 => Some(StorageKind::Int),
        2 => Some(StorageKind::Float),
        3 => Some(StorageKind::Str),
        4 => Some(StorageKind::Delete),
        _ => None,
    }
}

impl TryFrom<i64> for StorageKind {
    type Error = Error;

    fn try_from(raw: i64) -> (r: Result<StorageKind, Error>) {
        match raw {
            0 => Ok(StorageKind::Bool),
            1 => Ok(StorageKind::Int),
            2 => Ok(StorageKind::Float),
            3 => Ok(StorageKind::Str),
            4 => Ok(StorageKind::Delete),
            _ => Err(Error::Corrupt),
        }
    }
}

impl vstd::std_specs::convert::TryFromSpecImpl<i64> for StorageKind {
    open spec fn obeys_try_from_spec() -> bool {
        true
    }

    open spec fn try_from_spec(raw: i64) -> Result<StorageKind, Error> {
        match kind_of(raw) {
            Some(kind) => Ok(kind),
            None => Err(Error::Corrupt),
        }
    }
}

/// A value as a row holds it.
#[derive(Debug)]
pub struct RawValue {
    pub kind: i64,
    pub value: SqlValue,
}

/// The model of a `RawValue`.
pub struct RawView {
    pub kind: i64,
    pub value: SqlView,
}

impl View for RawValue {
    type V = RawView;

    open spec fn view(&self) -> RawView {
        RawView { kind: self.kind, value: self.value@ }
    }
}

/// The row's form of a value, or of a deletion.
pub open spec fn encoded(value: Option<ValueView>) -> RawView {
    match value {
        Some(ValueView::Bool(value)) => RawView {
            kind: StorageKind::Bool.code_spec(),
            value: SqlView::Integer(if value { 1 } else { 0 }),
        },
        Some(ValueView::Int(value)) => RawView {
            kind: StorageKind::Int.code_spec(),
            value: SqlView::Integer(value),
        },
        Some(ValueView::Float(bits)) => RawView {
            kind: StorageKind::Float.code_spec(),
            value: SqlView::Real(bits),
        },
        Some(ValueView::Str(text)) => RawView {
            kind: StorageKind::Str.code_spec(),
            value: SqlView::Text(text),
        },
        None => RawView { kind: StorageKind::Delete.code_spec(), value: SqlView::Null },
    }
}

impl RawView {
    /// What the row's form stands for: a value or a deletion, or nothing if no
    /// value and no deletion has that form.
    pub open spec fn decoded(self) -> Result<Option<ValueView>, Error> {
        if exists|value: Option<ValueView>| encoded(value) == self {
            Ok(choose|value: Option<ValueView>| encoded(value) == self)
        } else {
            Err(Error::Corrupt)
        }
    }

    /// As `decoded`, but a deletion is an error too.
    pub open spec fn decoded_present(self) -> Result<ValueView, Error> {
        match self.decoded() {
            Ok(Some(value)) => Ok(value),
            _ => Err(Error::Corrupt),
        }
    }
}

/// No two values have the same row's form, and none has that of a deletion:
/// what was encoded is read back as it was.
pub proof fn encoded_is_read_back(value: Option<ValueView>)
    ensures
        encoded(value).decoded() == Ok::<Option<ValueView>, Error>(value),
{
    assert(encoded(value) == encoded(value));
    let back = choose|other: Option<ValueView>| encoded(other) == encoded(value);
    assert(encoded(back) == encoded(value));
}

/// A row's form that can be read is the form of what was read.
pub proof fn decoded_is_written_back(raw: RawView)
    requires
        raw.decoded() is Ok,
    ensures
        encoded(raw.decoded()->Ok_0) == raw,
{
}

/// The model of a read value.
pub open spec fn read_view(r: Result<Option<Value>, Error>) -> Result<Option<ValueView>, Error> {
    match r {
        Ok(value) => Ok(optional(value)),
        Err(e) => Err(e),
    }
}

impl RawValue {
    /// The row's form of a value, or of a deletion.
    pub fn encode(value: Option<Value>) -> (raw: RawValue)
        ensures
            raw@ == encoded(optional(value)),
    {
        let (kind, value) = match value {
            Some(Value::Bool(value)) => (
                StorageKind::Bool,
                SqlValue::Integer(if value { 1 } else { 0 }),
            ),
            Some(Value::Int(value)) => (StorageKind::Int, SqlValue::Integer(value)),
            Some(Value::Float(bits)) => (StorageKind::Float, SqlValue::Real(bits)),
            Some(Value::Str(text)) => (StorageKind::Str, SqlValue::Text(text)),
            None => (StorageKind::Delete, SqlValue::Null),
        };
        RawValue { kind: kind.code(), value }
    }

    /// The value that the row's form stands for; `None` is a deletion.
    pub fn decode(&self) -> (r: Result<Option<Value>, Error>)
        ensures
            read_view(r) == self@.decoded(),
    {
        let kind = match StorageKind::try_from(self.kind) {
            Ok(kind) => kind,
            Err(e) => {
                assert(forall|value: Option<ValueView>| #[trigger] encoded(value) != self@);
                return Err(e);
            },
        };
        let r = match (kind, &self.value) {
            (StorageKind::Bool, SqlValue::Integer(0)) => Ok(Some(Value::Bool(false))),
            (StorageKind::Bool, SqlValue::Integer(1)) => Ok(Some(Value::Bool(true))),
            (StorageKind::Int, SqlValue::Integer(value)) => Ok(Some(Value::Int(*value))),
            (StorageKind::Float, SqlValue::Real(bits)) => Ok(Some(Value::Float(*bits))),
            (StorageKind::Str, SqlValue::Text(text)) => Ok(Some(Value::Str(text.clone()))),
            (StorageKind::Delete, SqlValue::Null) => Ok(None),
            _ => Err(Error::Corrupt),
        };
        proof {
            if r is Ok {
                assert(encoded(optional(r->Ok_0)) == self@);
                encoded_is_read_back(optional(r->Ok_0));
            } else {
                assert(forall|value: Option<ValueView>| #[trigger] encoded(value) != self@);
            }
        }
        r
    }

    /// As `decode`, but a deletion is an error too.
    pub fn decode_present(&self) -> (r: Result<Value, Error>)
        ensures
            r matches Ok(value) ==> self@.decoded_present() == Ok::<ValueView, Error>(value@),
            r matches Err(e) ==> self@.decoded_present() == Err::<ValueView, Error>(e),
    {
        match self.decode() {
            Ok(Some(value)) => Ok(value),
            Ok(None) => Err(Error::Corrupt),
            Err(e) => Err(e),
        }
    }
}

/// Whether a row's form is that of a value, or of a deletion: zero and an integer of
/// zero or one for a boolean, one and an integer, two and a real, three and a text,
/// or four and nothing for a deletion.
pub open spec fn is_form_of(raw: RawView, value: Option<Value>) -> bool {
    match value {
        Some(Value::Bool(flag)) => raw.kind == 0 && raw.value == SqlView::Integer(
            if flag {
                1
            } else {
                0
            },
        ),
        Some(Value::Int(number)) => raw.kind == 1 && raw.value == SqlView::Integer(number),
        Some(Value::Float(bits)) => raw.kind == 2 && raw.value == SqlView::Real(bits),
        Some(Value::Str(text)) => raw.kind == 3 && raw.value == SqlView::Text(text@),
        None => raw.kind == 4 && raw.value is Null,
    }
}

/// Whether a row's form is that of some value, or of a deletion.
pub open spec fn is_some_form(raw: RawView) -> bool {
    ||| raw.kind == 0 && (raw.value == SqlView::Integer(0) || raw.value == SqlView::Integer(1))
    ||| raw.kind == 1 && raw.value is Integer
    ||| raw.kind == 2 && raw.value is Real
    ||| raw.kind == 3 && raw.value is Text
    ||| raw.kind == 4 && raw.value is Null
}

/// What stands for a row's form, if it is one, is of that form.
pub proof fn forms_are_read(raw: RawView, r: Result<Option<Value>, Error>)
    requires
        read_view(r) == raw.decoded(),
    ensures
        is_some_form(raw) ==> r is Ok && is_form_of(raw, r->Ok_0),
        !is_some_form(raw) ==> r == Err::<Option<Value>, Error>(Error::Corrupt),
{
    if raw.decoded() is Ok {
        decoded_is_written_back(raw);
    }
    if is_some_form(raw) {
        let value: Option<ValueView> = match raw.value {
            SqlView::Null => None,
            SqlView::Integer(number) => if raw.kind == 1 {
                Some(ValueView::Int(number))
            } else {
                Some(ValueView::Bool(number == 1))
            },
            SqlView::Real(bits) => Some(ValueView::Float(bits)),
            SqlView::Text(text) => Some(ValueView::Str(text)),
            SqlView::Blob(_) => None,
        };
        assert(encoded(value) == raw);
    }
}

/// A value is encoded in its form.
pub proof fn values_are_encoded(value: Option<Value>, raw: RawValue)
    requires
        call_ensures(RawValue::encode, (value,), raw),
    ensures
        is_form_of(raw@, value),
        raw@.kind == raw.kind,
{
}

/// A row's form is decoded to what it stands for; one of no value is corrupt, and so is
/// a deletion where there has to be a value.
pub proof fn forms_are_decoded(
    raw: RawValue,
    r: Result<Option<Value>, Error>,
    present: Result<Value, Error>,
)
    requires
        call_ensures(RawValue::decode, (&raw,), r),
        call_ensures(RawValue::decode_present, (&raw,), present),
    ensures
        is_some_form(raw@) ==> r is Ok && is_form_of(raw@, r->Ok_0),
        !is_some_form(raw@) ==> r == Err::<Option<Value>, Error>(Error::Corrupt),
        is_some_form(raw@) && raw.kind != 4 ==> present is Ok && is_form_of(
            raw@,
            Some(present->Ok_0),
        ),
        !is_some_form(raw@) || raw.kind == 4 ==> present == Err::<Value, Error>(Error::Corrupt),
{
    forms_are_read(raw@, r);
    if present is Ok {
        forms_are_read(raw@, Ok::<Option<Value>, Error>(Some(present->Ok_0)));
    }
}

/// Each kind has its number, and no other number names a kind.
pub proof fn kinds_are_numbered(raw: i64, r: Result<StorageKind, Error>)
    requires
        call_ensures(<StorageKind as TryFrom<i64>>::try_from, (raw,), r),
    ensures
        r is Ok <==> 0 <= raw <= 4,
        r matches Ok(kind) ==> {
            &&& kind is Bool <==> raw == 0
            &&& kind is Int <==> raw == 1
            &&& kind is Float <==> raw == 2
            &&& kind is Str <==> raw == 3
            &&& kind is Delete <==> raw == 4
            &&& kind.code_spec() == raw
        },
        r matches Err(e) ==> e == Error::Corrupt,
{
}

/// The model of a row's form tells all of it: its kind, and what it holds.
pub proof fn the_model_tells_the_form(raw: RawValue)
    ensures
        raw@.kind == raw.kind,
        raw@.value == raw.value@,
        raw.value is Null <==> raw@.value is Null,
        raw.value matches SqlValue::Integer(number) ==> raw@.value == SqlView::Integer(number),
        raw.value matches SqlValue::Real(bits) ==> raw@.value == SqlView::Real(bits),
        raw.value matches SqlValue::Text(text) ==> raw@.value == SqlView::Text(text@),
        raw.value matches SqlValue::Blob(bytes) ==> raw@.value == SqlView::Blob(bytes@),
{
}

} // verus!
