//! Evaluated values.

use vstd::prelude::*;

use crate::expr::{decimal_string, decimal_text};

verus! {

/// A value produced by evaluation: for now only 64-bit signed
/// integers.
#[derive(Debug, PartialEq, Eq, Structural)]
pub enum Value {
    Integer(i64),
}

/// The canonical text of a value.
pub open spec fn value_text(v: Value) -> Seq<char> {
    match v {
        Value::Integer(n) => decimal_text(n as int),
    }
}

impl Value {
    /// Renders this value to its canonical decimal text.
    pub fn to_text(&self) -> (r: String)
        ensures
            r@ == value_text(*self),
    {
        match self {
            Value::Integer(n) => decimal_string(*n),
        }
    }
}

} // verus!
