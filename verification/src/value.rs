//! Values of keys.

use vstd::prelude::*;

verus! {

/// What a key can be set to. A float is held by the bits of its IEEE 754 double.
#[derive(Debug)]
pub enum Value {
    Bool(bool),
    Int(i64),
    Float(u64),
    Str(String),
}

/// The model of a `Value`.
pub enum ValueView {
    Bool(bool),
    Int(i64),
    Float(u64),
    Str(Seq<char>),
}

impl View for Value {
    type V = ValueView;

    open spec fn view(&self) -> ValueView {
        match *self {
            Value::Bool(value) => ValueView::Bool(value),
            Value::Int(value) => ValueView::Int(value),
            Value::Float(bits) => ValueView::Float(bits),
            Value::Str(text) => ValueView::Str(text@),
        }
    }
}

/// The model of an optional value: `None` is a deletion.
pub open spec fn optional(value: Option<Value>) -> Option<ValueView> {
    match value {
        Some(value) => Some(value@),
        None => None,
    }
}

/// The bits of a double without its sign.
pub open spec fn magnitude(bits: u64) -> int {
    bits as int % 0x8000_0000_0000_0000
}

/// Whether the bits are those of a double that is not a number: the magnitude is
/// above that of infinity.
pub open spec fn is_nan(bits: u64) -> bool {
    magnitude(bits) > 0x7ff0_0000_0000_0000
}

/// Whether two doubles are equal: both are numbers, and they are the same or both
/// zero.
pub open spec fn floats_equal(a: u64, b: u64) -> bool {
    &&& !is_nan(a)
    &&& !is_nan(b)
    &&& a == b || (magnitude(a) == 0 && magnitude(b) == 0)
}

impl ValueView {
    /// Whether two values are equal. Floats compare as numbers.
    pub open spec fn equals(self, other: ValueView) -> bool {
        match (self, other) {
            (ValueView::Float(a), ValueView::Float(b)) => floats_equal(a, b),
            _ => self == other,
        }
    }

    /// Whether the value is a float that is not a number.
    pub open spec fn is_nan(self) -> bool {
        self matches ValueView::Float(bits) && is_nan(bits)
    }
}

fn magnitude_of(bits: u64) -> (m: u64)
    ensures
        m == magnitude(bits),
{
    bits % 0x8000_0000_0000_0000u64
}

impl Value {
    /// Whether the value is a float that is not a number.
    pub fn is_nan(&self) -> (b: bool)
        ensures
            b == self@.is_nan(),
            b <==> (*self matches Value::Float(bits) && bits % 0x8000_0000_0000_0000
                > 0x7ff0_0000_0000_0000),
    {
        match self {
            Value::Float(bits) => magnitude_of(*bits) > 0x7ff0_0000_0000_0000u64,
            _ => false,
        }
    }

    fn equals(&self, other: &Value) -> (b: bool)
        ensures
            b == self@.equals(other@),
    {
        match (self, other) {
            (Value::Bool(a), Value::Bool(b)) => *a == *b,
            (Value::Int(a), Value::Int(b)) => *a == *b,
            (Value::Float(a), Value::Float(b)) => {
                let (x, y): (u64, u64) = (magnitude_of(*a), magnitude_of(*b));
                x <= 0x7ff0_0000_0000_0000u64 && y <= 0x7ff0_0000_0000_0000u64 && (*a == *b || (x
                    == 0 && y == 0))
            },
            (Value::Str(a), Value::Str(b)) => *a == *b,
            _ => false,
        }
    }
}

impl Clone for Value {
    fn clone(&self) -> (copy: Value)
        ensures
            copy == *self,
    {
        match self {
            Value::Bool(value) => Value::Bool(*value),
            Value::Int(value) => Value::Int(*value),
            Value::Float(bits) => Value::Float(*bits),
            Value::Str(text) => Value::Str(text.clone()),
        }
    }
}

impl PartialEq for Value {
    fn eq(&self, other: &Value) -> (b: bool) {
        self.equals(other)
    }
}

impl vstd::std_specs::cmp::PartialEqSpecImpl for Value {
    open spec fn obeys_eq_spec() -> bool {
        true
    }

    open spec fn eq_spec(&self, other: &Value) -> bool {
        self@.equals(other@)
    }
}

impl From<bool> for Value {
    fn from(value: bool) -> (r: Value)
        ensures
            r == Value::Bool(value),
    {
        Value::Bool(value)
    }
}

impl vstd::std_specs::convert::FromSpecImpl<bool> for Value {
    open spec fn obeys_from_spec() -> bool {
        true
    }

    open spec fn from_spec(value: bool) -> Value {
        Value::Bool(value)
    }
}

impl From<i64> for Value {
    fn from(value: i64) -> (r: Value)
        ensures
            r == Value::Int(value),
    {
        Value::Int(value)
    }
}

impl vstd::std_specs::convert::FromSpecImpl<i64> for Value {
    open spec fn obeys_from_spec() -> bool {
        true
    }

    open spec fn from_spec(value: i64) -> Value {
        Value::Int(value)
    }
}

impl From<String> for Value {
    fn from(value: String) -> (r: Value)
        ensures
            r == Value::Str(value),
    {
        Value::Str(value)
    }
}

impl vstd::std_specs::convert::FromSpecImpl<String> for Value {
    open spec fn obeys_from_spec() -> bool {
        true
    }

    open spec fn from_spec(value: String) -> Value {
        Value::Str(value)
    }
}

impl From<&str> for Value {
    fn from(value: &str) -> (r: Value)
        ensures
            r is Str,
            r->Str_0@ == value@,
            r@ == ValueView::Str(value@),
    {
        Value::Str(value.to_owned())
    }
}

impl vstd::std_specs::convert::FromSpecImpl<&str> for Value {
    open spec fn obeys_from_spec() -> bool {
        false
    }

    open spec fn from_spec(value: &str) -> Value {
        arbitrary()
    }
}

/// Two values that are not both floats are equal just if they are the same.
pub proof fn equal_values_are_the_same(a: ValueView, b: ValueView)
    requires
        !(a is Float && b is Float),
    ensures
        a.equals(b) <==> a == b,
{
}

/// Two floats are equal just if both are numbers, and they are the same or both are
/// zero: that is, they have the same bits but for the sign of a zero.
pub proof fn equal_floats_are_the_same_number(a: u64, b: u64)
    ensures
        ValueView::Float(a).equals(ValueView::Float(b)) <==> {
            &&& a % 0x8000_0000_0000_0000 <= 0x7ff0_0000_0000_0000
            &&& b % 0x8000_0000_0000_0000 <= 0x7ff0_0000_0000_0000
            &&& a == b || (a % 0x8000_0000_0000_0000 == 0 && b % 0x8000_0000_0000_0000 == 0)
        },
        ValueView::Float(a).is_nan() <==> a % 0x8000_0000_0000_0000 > 0x7ff0_0000_0000_0000,
{
}

/// Comparing two values tells whether they are the same: booleans and integers by
/// what they are, strings by their text, and floats as numbers.
pub proof fn values_compare(a: Value, b: Value, r: bool)
    requires
        call_ensures(<Value as PartialEq>::eq, (&a, &b), r),
    ensures
        match (a, b) {
            (Value::Bool(x), Value::Bool(y)) => r <==> x == y,
            (Value::Int(x), Value::Int(y)) => r <==> x == y,
            (Value::Float(x), Value::Float(y)) => r <==> {
                &&& x % 0x8000_0000_0000_0000 <= 0x7ff0_0000_0000_0000
                &&& y % 0x8000_0000_0000_0000 <= 0x7ff0_0000_0000_0000
                &&& x == y || (x % 0x8000_0000_0000_0000 == 0 && y % 0x8000_0000_0000_0000 == 0)
            },
            (Value::Str(x), Value::Str(y)) => r <==> x@ == y@,
            _ => !r,
        },
{
}

/// The model of a value tells all of it but where a string is kept: its kind, and what
/// it holds.
pub proof fn the_model_tells_the_value(value: Value)
    ensures
        value matches Value::Bool(x) ==> value@ == ValueView::Bool(x),
        value matches Value::Int(x) ==> value@ == ValueView::Int(x),
        value matches Value::Float(x) ==> value@ == ValueView::Float(x),
        value matches Value::Str(x) ==> value@ == ValueView::Str(x@),
        optional(Some(value)) == Some(value@),
        optional(None) == None::<ValueView>,
{
}

/// A value made from an integer, a boolean or a text holds just that.
pub proof fn values_hold_what_they_are_made_from(
    number: i64,
    flag: bool,
    string: String,
    text: &str,
    values: (Value, Value, Value, Value),
)
    requires
        call_ensures(<Value as From<i64>>::from, (number,), values.0),
        call_ensures(<Value as From<bool>>::from, (flag,), values.1),
        call_ensures(<Value as From<String>>::from, (string,), values.2),
        call_ensures(<Value as From<&str>>::from, (text,), values.3),
    ensures
        values.0 == Value::Int(number),
        values.1 == Value::Bool(flag),
        values.2 == Value::Str(string),
        values.3 is Str,
        values.3->Str_0@ == text@,
{
}

} // verus!
