use vstd::prelude::*;

verus! {

/// The recoverable failure conditions of the integer engine and the reducers.
///
/// Every fallible operation reports its failure through this type instead of
/// aborting: subtraction that would go below zero, division or reduction by
/// the canonical zero, a Montgomery construction over an even modulus, and a
/// malformed decimal numeral at the boundary.
#[derive(Clone, Copy, Debug, PartialEq, Eq, Structural)]
pub enum ArithError {
    /// Subtraction where the minuend is less than the subtrahend.
    Underflow,
    /// Division or modular reduction with a zero divisor or modulus.
    DivideByZero,
    /// Montgomery construction over a modulus for which `R - p` has no
    /// inverse modulo `R`, which happens exactly for even moduli.
    NoInverse,
    /// A decimal numeral that is empty or holds a non-digit character.
    ParseError,
}

} // verus!
