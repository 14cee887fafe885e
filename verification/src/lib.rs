//! Elliptic curves over prime fields: curve construction, point arithmetic
//! (the chord-and-tangent group law), and group-structure analysis, together
//! with the number-theoretic primitives they rest on.

pub mod curve;
pub mod fermat;
pub mod group;
pub mod laws;
pub mod prime;

use vstd::prelude::*;

verus! {

/// The failure values that the fallible operations of this crate return.
#[derive(Clone, Copy, Debug, PartialEq, Eq, Structural)]
pub enum Error {
    /// A value required to be a positive integer is zero or negative.
    NotPositive,
    /// An exponent is negative.
    NotNonNegative,
    /// A value required to be prime fails the primality test.
    NotAPrime,
    /// Curve coefficients (a, b) are both zero.
    NotNonSingular,
    /// A point does not satisfy the curve equation.
    NotOnCurve,
}

} // verus!
