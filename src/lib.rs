//! Dimension-aware expression evaluation: operator registry, numeric literal
//! decoding, name tables and the operator-precedence pipeline.
use vstd::prelude::*;

pub mod alias;
pub mod condition;
pub mod errors;
pub mod expr;
pub mod literal;
pub mod operators;
pub mod rpn;

verus! {

} // verus!
