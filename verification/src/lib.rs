//! Exact arithmetic over univariate polynomials with coefficients in a prime
//! field, together with the integer Euclidean primitives (`gcd` and
//! `extended_euclidean`) that supply multiplicative inverses for that field.

pub mod euclidean;
pub mod field;
pub mod polynomial;

use vstd::prelude::*;

verus! {

/// Absolute value of a mathematical integer.
pub open spec fn abs_i(x: int) -> int {
    if x < 0 {
        -x
    } else {
        x
    }
}

/// Maximum of two mathematical integers.
pub open spec fn max_i(x: int, y: int) -> int {
    if x < y {
        y
    } else {
        x
    }
}

/// `d` divides `n` over the integers.
pub open spec fn divides(d: int, n: int) -> bool {
    exists|k: int| n == #[trigger] (d * k)
}

} // verus!
