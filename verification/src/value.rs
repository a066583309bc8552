use vstd::prelude::*;

use crate::deep_clone::DeepClone;

verus! {

/// Tagged payload carried by cells and tree nodes.  `Nil` is the default,
/// "absent" value; the other variants wrap a piece of text or an integer.
#[derive(Debug, Clone)]
pub enum Value {
    Nil,
    Str(String),
    Byte(u8),
    UInt(u64),
    Int(i64),
}

impl Value {
    /// The null payload.
    pub fn nil() -> (r: Value)
        ensures
            r == Value::Nil,
    {
        Value::Nil
    }

    /// True exactly on the null payload.
    pub fn is_nil(&self) -> (r: bool)
        ensures
            r == (*self matches Value::Nil),
    {
        match self {
            Value::Nil => true,
            _ => false,
        }
    }

    /// Wraps a piece of text.  The result holds exactly the characters of `s`.
    pub fn text(s: &str) -> (r: Value)
        ensures
            r matches Value::Str(t) && t@ == s@,
    {
        Value::Str(String::from_str(s))
    }

    /// What `==` on payloads decides: equal tags, and equal contents, where
    /// text compares by its characters.
    pub open spec fn eq_val(self, other: Value) -> bool {
        match (self, other) {
            (Value::Nil, Value::Nil) => true,
            (Value::Str(a), Value::Str(b)) => a@ == b@,
            (Value::Byte(a), Value::Byte(b)) => a == b,
            (Value::UInt(a), Value::UInt(b)) => a == b,
            (Value::Int(a), Value::Int(b)) => a == b,
            _ => false,
        }
    }
}

impl DeepClone for Value {
    fn deep_clone(&self) -> (r: Value) {
        match self {
            Value::Nil => Value::Nil,
            Value::Str(s) => Value::Str(s.clone()),
            Value::Byte(b) => Value::Byte(*b),
            Value::UInt(u) => Value::UInt(*u),
            Value::Int(i) => Value::Int(*i),
        }
    }
}

impl PartialEq for Value {
    fn eq(&self, other: &Value) -> (r: bool) {
        match (self, other) {
            (Value::Nil, Value::Nil) => true,
            (Value::Str(a), Value::Str(b)) => a.eq(b),
            (Value::Byte(a), Value::Byte(b)) => a == b,
            (Value::UInt(a), Value::UInt(b)) => a == b,
            (Value::Int(a), Value::Int(b)) => a == b,
            _ => false,
        }
    }
}

impl vstd::std_specs::cmp::PartialEqSpecImpl for Value {
    open spec fn obeys_eq_spec() -> bool {
        true
    }

    open spec fn eq_spec(&self, other: &Value) -> bool {
        self.eq_val(*other)
    }
}

impl From<u8> for Value {
    fn from(v: u8) -> (r: Value) {
        Value::Byte(v)
    }
}

impl vstd::std_specs::convert::FromSpecImpl<u8> for Value {
    open spec fn obeys_from_spec() -> bool {
        true
    }

    open spec fn from_spec(v: u8) -> Value {
        Value::Byte(v)
    }
}

impl From<u64> for Value {
    fn from(v: u64) -> (r: Value) {
        Value::UInt(v)
    }
}

impl vstd::std_specs::convert::FromSpecImpl<u64> for Value {
    open spec fn obeys_from_spec() -> bool {
        true
    }

    open spec fn from_spec(v: u64) -> Value {
        Value::UInt(v)
    }
}

impl From<i64> for Value {
    fn from(v: i64) -> (r: Value) {
        Value::Int(v)
    }
}

impl vstd::std_specs::convert::FromSpecImpl<i64> for Value {
    open spec fn obeys_from_spec() -> bool {
        true
    }

    open spec fn from_spec(v: i64) -> Value {
        Value::Int(v)
    }
}

impl<'a> From<&'a str> for Value {
    fn from(v: &'a str) -> (r: Value) {
        Value::Str(String::from_str(v))
    }
}

// A `String` cannot be named from its character sequence in specification
// code, so no exact `from_spec` exists for text; `Value::text` carries the
// character-level contract instead.
impl<'a> vstd::std_specs::convert::FromSpecImpl<&'a str> for Value {
    open spec fn obeys_from_spec() -> bool {
        false
    }

    open spec fn from_spec(v: &'a str) -> Value {
        Value::Nil
    }
}

impl From<String> for Value {
    fn from(v: String) -> (r: Value) {
        Value::Str(v)
    }
}

impl vstd::std_specs::convert::FromSpecImpl<String> for Value {
    open spec fn obeys_from_spec() -> bool {
        true
    }

    open spec fn from_spec(v: String) -> Value {
        Value::Str(v)
    }
}

impl From<Option<String>> for Value {
    fn from(v: Option<String>) -> (r: Value) {
        match v {
            Option::None => Value::Nil,
            Option::Some(s) => Value::Str(s),
        }
    }
}

impl vstd::std_specs::convert::FromSpecImpl<Option<String>> for Value {
    open spec fn obeys_from_spec() -> bool {
        true
    }

    open spec fn from_spec(v: Option<String>) -> Value {
        match v {
            Option::None => Value::Nil,
            Option::Some(s) => Value::Str(s),
        }
    }
}

} // verus!
