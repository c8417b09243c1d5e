//! A reader front-end for a minimal Lisp-like expression language.
//!
//! A line of raw text is scanned into classified lexical units
//! ([`Token`]) and then parsed, by recursive descent, into a sequence
//! of literal values ([`Expr`]). Both stages either fully succeed or
//! fail atomically with an error that names what went wrong.

use vstd::prelude::*;

pub mod expr;
pub mod parse;
pub mod tokenize;
pub mod value;

pub use crate::expr::Expr;
pub use crate::parse::parse;
pub use crate::parse::ParseError;
pub use crate::tokenize::tokenize;
pub use crate::tokenize::Token;
pub use crate::tokenize::TokenizeError;
pub use crate::value::Value;

verus! {

/// The evaluator: currently the identity transformation on a literal
/// value.
pub fn eval(expr: &Expr) -> (r: Expr)
    ensures
        r@ == expr@,
{
    expr.duplicate()
}

} // verus!
