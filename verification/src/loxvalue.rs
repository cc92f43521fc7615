//! The values that evaluation yields.

use crate::number::Double;
use crate::numeral::display_text;
use vstd::prelude::*;
use vstd::string::StringExecFns;

verus! {

/// A runtime value.
#[derive(Debug, PartialEq)]
pub enum LoxValue {
    LoxNumber(Double),
    LoxString(String),
    LoxBool(bool),
    LoxNil,
}

/// What a value is, as a mathematical value: a number is its IEEE-754
/// bits, a string its characters.
pub ghost enum Value {
    Number(u64),
    Text(Seq<char>),
    Bool(bool),
    Nil,
}

impl View for LoxValue {
    type V = Value;

    open spec fn view(&self) -> Value {
        match self {
            LoxValue::LoxNumber(n) => Value::Number(n.bits),
            LoxValue::LoxString(s) => Value::Text(s@),
            LoxValue::LoxBool(b) => Value::Bool(*b),
            LoxValue::LoxNil => Value::Nil,
        }
    }
}

/// How a value is shown: `nil`, `true` or `false`, a number as numbers
/// are shown, a string as its characters.
pub open spec fn value_text(v: Value) -> Seq<char> {
    match v {
        Value::Nil => "nil"@,
        Value::Bool(b) => if b {
            "true"@
        } else {
            "false"@
        },
        Value::Number(n) => display_text(n),
        Value::Text(s) => s,
    }
}

impl LoxValue {
    /// The value as it is shown.
    pub fn to_string(&self) -> (s: String)
        ensures
            s@ == value_text(self@),
    {
        match self {
            LoxValue::LoxNil => String::from_str("nil"),
            LoxValue::LoxBool(b) => if *b {
                String::from_str("true")
            } else {
                String::from_str("false")
            },
            LoxValue::LoxNumber(n) => n.to_string(),
            LoxValue::LoxString(s) => s.clone(),
        }
    }
}

impl Clone for LoxValue {
    fn clone(&self) -> (r: Self)
        ensures
            r@ == self@,
    {
        match self {
            LoxValue::LoxNumber(n) => LoxValue::LoxNumber(*n),
            LoxValue::LoxString(s) => LoxValue::LoxString(s.clone()),
            LoxValue::LoxBool(b) => LoxValue::LoxBool(*b),
            LoxValue::LoxNil => LoxValue::LoxNil,
        }
    }
}

} // verus!
