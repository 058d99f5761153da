//! Finite-field arithmetic and a radix-2 number-theoretic transform over the
//! prime field of order 2^64 - 2^32 + 1, together with its cubic extension.
//!
//! The base field supports the usual modular operations, exponentiation,
//! inversion and derivation of roots of unity of two-power order; the
//! transform kernel evaluates a polynomial, in place, at all n-th roots of
//! unity for a power-of-two length n.
use vstd::prelude::*;

pub mod base;
pub mod fext;
pub mod ntt;

verus! {

/// The failure kinds of the field and transform operations.
#[derive(Clone, Copy, Debug, PartialEq, Eq, Structural)]
pub enum FieldError {
    /// An inverse or a division was requested with a zero divisor in the
    /// base field.
    DivisionByZero,
    /// An inverse or a division was requested with the zero element of the
    /// extension field as divisor.
    InverseOfZero,
    /// The requested root order is zero, not a power of two, or larger than
    /// the two-power part of the multiplicative group order.
    OrderedRootError,
    /// The transform input length is zero or not a power of two.
    InvalidLength,
}

} // verus!
