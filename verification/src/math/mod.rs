//! Arithmetic on 256-bit identifiers and the hash that derives them.

use vstd::prelude::*;

pub mod hash;
pub mod u256;

verus! {

/// Which bound an operation crossed; the payload is the wrapped result.
#[derive(Debug, PartialEq, Eq)]
pub enum ArithmeticError<T> {
    UnderFlow(T),
    Overflow(T),
}

/// The outcome of an operation that may cross a bound.
#[derive(Debug, PartialEq, Eq)]
pub enum OperationResult<T> {
    Exact(T),
    Bounds(ArithmeticError<T>),
    Fault(String),
}

} // verus!
