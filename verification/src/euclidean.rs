//! Euclidean algorithm on signed 64-bit integers: greatest common divisor and
//! the extended form that returns Bezout coefficients.
//!
//! The sign convention follows the plain remainder algorithm: the result is
//! the last nonzero remainder, whose sign is not normalized.

use vstd::prelude::*;
use vstd::arithmetic::div_mod::{
    lemma_fundamental_div_mod, lemma_mod_division_less_than_divisor, lemma_small_mod,
};
use crate::{abs_i, divides, max_i};

verus! {

/// Quotient of Rust's truncating signed division, defined over mathematical
/// integers by dividing the magnitudes and re-applying the signs.
pub open spec fn tdiv(a: int, b: int) -> int {
    if (a < 0) == (b < 0) {
        abs_i(a) / abs_i(b)
    } else {
        -(abs_i(a) / abs_i(b))
    }
}

/// Remainder of Rust's truncating signed division: magnitude remainder with
/// the sign of the dividend.
pub open spec fn tmod(a: int, b: int) -> int {
    if a < 0 {
        -(abs_i(a) % abs_i(b))
    } else {
        a % abs_i(b)
    }
}

/// The remainder's magnitude is below the divisor's.
proof fn lemma_tmod_bound(a: int, b: int)
    requires
        b != 0,
    ensures
        abs_i(tmod(a, b)) < abs_i(b),
{
    lemma_mod_division_less_than_divisor(abs_i(a), abs_i(b));
}

/// Truncating division and remainder reconstruct the dividend.
pub proof fn lemma_tdiv_tmod(a: int, b: int)
    requires
        b != 0,
    ensures
        b * tdiv(a, b) + tmod(a, b) == a,
{
    let ma = abs_i(a);
    let mb = abs_i(b);
    lemma_fundamental_div_mod(ma, mb);
    let q = ma / mb;
    let r = ma % mb;
    assert(ma == mb * q + r);
    if a >= 0 && b > 0 {
        assert(b * tdiv(a, b) + tmod(a, b) == a) by (nonlinear_arith)
            requires
                ma == mb * q + r,
                ma == a,
                mb == b,
                tdiv(a, b) == q,
                tmod(a, b) == r,
        ;
    } else if a >= 0 && b < 0 {
        assert(b * tdiv(a, b) + tmod(a, b) == a) by (nonlinear_arith)
            requires
                ma == mb * q + r,
                ma == a,
                mb == -b,
                tdiv(a, b) == -q,
                tmod(a, b) == r,
        ;
    } else if a < 0 && b > 0 {
        assert(b * tdiv(a, b) + tmod(a, b) == a) by (nonlinear_arith)
            requires
                ma == mb * q + r,
                ma == -a,
                mb == b,
                tdiv(a, b) == -q,
                tmod(a, b) == -r,
        ;
    } else {
        assert(b * tdiv(a, b) + tmod(a, b) == a) by (nonlinear_arith)
            requires
                ma == mb * q + r,
                ma == -a,
                mb == -b,
                tdiv(a, b) == q,
                tmod(a, b) == -r,
        ;
    }
}

/// The greatest common divisor as computed by repeated truncating remainder,
/// keeping the sign of the last nonzero remainder.
pub open spec fn gcd_spec(a: int, b: int) -> int
    decreases abs_i(b),
{
    if b == 0 {
        a
    } else if abs_i(tmod(a, b)) < abs_i(b) {
        gcd_spec(b, tmod(a, b))
    } else {
        // unreachable: the remainder's magnitude is below the divisor's
        0
    }
}

/// Swapping arguments of smaller magnitude into second place does not change
/// the greatest common divisor.
proof fn lemma_gcd_swap(a: int, b: int)
    requires
        abs_i(a) < abs_i(b),
    ensures
        gcd_spec(a, b) == gcd_spec(b, a),
{
    lemma_tmod_bound(a, b);
    lemma_small_mod(abs_i(a) as nat, abs_i(b) as nat);
    assert(tmod(a, b) == a);
}

/// The result of `gcd_spec` divides both arguments.
pub proof fn lemma_gcd_divides(a: int, b: int)
    ensures
        divides(gcd_spec(a, b), a),
        divides(gcd_spec(a, b), b),
    decreases abs_i(b),
{
    if b == 0 {
        assert(a == a * 1);
        assert(b == a * 0);
    } else {
        lemma_tmod_bound(a, b);
        let r = tmod(a, b);
        let g = gcd_spec(b, r);
        lemma_gcd_divides(b, r);
        let k1 = choose|k: int| b == #[trigger] (g * k);
        let k2 = choose|k: int| r == #[trigger] (g * k);
        lemma_tdiv_tmod(a, b);
        let q = tdiv(a, b);
        assert(a == g * (k1 * q + k2)) by (nonlinear_arith)
            requires
                b == g * k1,
                r == g * k2,
                a == b * q + r,
        ;
    }
}

/// Every common divisor of the two arguments divides `gcd_spec`.
pub proof fn lemma_gcd_greatest(a: int, b: int, c: int)
    requires
        divides(c, a),
        divides(c, b),
    ensures
        divides(c, gcd_spec(a, b)),
    decreases abs_i(b),
{
    if b == 0 {
    } else {
        lemma_tmod_bound(a, b);
        let r = tmod(a, b);
        lemma_tdiv_tmod(a, b);
        let q = tdiv(a, b);
        let k1 = choose|k: int| a == #[trigger] (c * k);
        let k2 = choose|k: int| b == #[trigger] (c * k);
        assert(r == c * (k1 - k2 * q)) by (nonlinear_arith)
            requires
                a == c * k1,
                b == c * k2,
                a == b * q + r,
        ;
        lemma_gcd_greatest(b, r, c);
    }
}

/// On nonnegative arguments the greatest common divisor is nonnegative.
pub proof fn lemma_gcd_nonneg(a: int, b: int)
    requires
        a >= 0,
        b >= 0,
    ensures
        gcd_spec(a, b) >= 0,
    decreases abs_i(b),
{
    if b != 0 {
        lemma_tmod_bound(a, b);
        lemma_gcd_nonneg(b, tmod(a, b));
    }
}

/// Truncating remainder on machine integers.
pub(crate) fn trunc_rem(a: i64, b: i64) -> (r: i64)
    requires
        a != i64::MIN,
        b != i64::MIN,
        b != 0,
    ensures
        r == tmod(a as int, b as int),
        abs_i(r as int) < abs_i(b as int),
{
    proof {
        lemma_tmod_bound(a as int, b as int);
    }
    let ma: i64 = if a < 0 {
        -a
    } else {
        a
    };
    let mb: i64 = if b < 0 {
        -b
    } else {
        b
    };
    let mr: i64 = ma % mb;
    if a < 0 {
        -mr
    } else {
        mr
    }
}

/// Quotient of truncating division on machine integers.
fn trunc_quot(a: i64, b: i64) -> (q: i64)
    requires
        a != i64::MIN,
        b != i64::MIN,
        b != 0,
    ensures
        q == tdiv(a as int, b as int),
        abs_i(q as int) <= abs_i(a as int),
{
    proof {
        assert(abs_i(a as int) / abs_i(b as int) <= abs_i(a as int)) by (nonlinear_arith)
            requires
                abs_i(b as int) >= 1,
                abs_i(a as int) >= 0,
        ;
    }
    let ma: i64 = if a < 0 {
        -a
    } else {
        a
    };
    let mb: i64 = if b < 0 {
        -b
    } else {
        b
    };
    let mq: i64 = ma / mb;
    if (a < 0) == (b < 0) {
        mq
    } else {
        -mq
    }
}

/// Greatest common divisor by the Euclidean algorithm; the result is the last
/// nonzero remainder, sign included.
pub fn gcd(a: i64, b: i64) -> (r: i64)
    requires
        a != i64::MIN,
        b != i64::MIN,
    ensures
        r == gcd_spec(a as int, b as int),
    decreases abs_i(b as int),
{
    let ma: i64 = if a < 0 {
        -a
    } else {
        a
    };
    let mb: i64 = if b < 0 {
        -b
    } else {
        b
    };
    if ma < mb {
        proof {
            lemma_gcd_swap(a as int, b as int);
        }
        return gcd(b, a);
    }
    let mut x: i64 = a;
    let mut y: i64 = b;
    while y != 0
        invariant
            x != i64::MIN,
            y != i64::MIN,
            gcd_spec(x as int, y as int) == gcd_spec(a as int, b as int),
        decreases abs_i(y as int),
    {
        let r = trunc_rem(x, y);
        proof {
            lemma_tmod_bound(x as int, y as int);
        }
        x = y;
        y = r;
    }
    x
}

/// The triple returned by the extended Euclidean algorithm: Bezout
/// coefficients first, the greatest common divisor last.
pub open spec fn ext_spec(a: int, b: int) -> (int, int, int)
    decreases abs_i(b), abs_i(a),
{
    if abs_i(b) > abs_i(a) {
        let (x, y, d) = ext_spec(b, a);
        (y, x, d)
    } else if b == 0 {
        (1, 0, a)
    } else if abs_i(tmod(a, b)) < abs_i(b) {
        let (x, y, d) = ext_spec(b, tmod(a, b));
        (y, x - tdiv(a, b) * y, d)
    } else {
        // unreachable: the remainder's magnitude is below the divisor's
        (0, 0, 0)
    }
}

/// The triple satisfies the Bezout identity and carries the greatest common
/// divisor in its last position.
pub proof fn lemma_ext_spec_bezout(a: int, b: int)
    ensures
        ({
            let (x, y, d) = ext_spec(a, b);
            a * x + b * y == d && d == gcd_spec(a, b)
        }),
    decreases abs_i(b), abs_i(a),
{
    if abs_i(b) > abs_i(a) {
        lemma_ext_spec_bezout(b, a);
        lemma_gcd_swap(a, b);
    } else if b == 0 {
        assert(a * 1 + b * 0 == a) by (nonlinear_arith);
    } else {
        lemma_tmod_bound(a, b);
        let r = tmod(a, b);
        let q = tdiv(a, b);
        lemma_ext_spec_bezout(b, r);
        let (x, y, d) = ext_spec(b, r);
        lemma_tdiv_tmod(a, b);
        assert(a * y + b * (x - q * y) == d) by (nonlinear_arith)
            requires
                b * x + r * y == d,
                a == b * q + r,
        ;
    }
}

/// Extended Euclidean algorithm: returns `(x, y, d)` with
/// `a * x + b * y == d` and `d` the greatest common divisor of `a` and `b`.
pub fn extended_euclidean(a: i64, b: i64) -> (t: (i64, i64, i64))
    requires
        a != i64::MIN,
        b != i64::MIN,
    ensures
        ({
            let (x, y, d) = ext_spec(a as int, b as int);
            t.0 == x && t.1 == y && t.2 == d
        }),
        a as int * t.0 as int + b as int * t.1 as int == t.2,
        t.2 == gcd_spec(a as int, b as int),
        abs_i(t.0 as int) <= max_i(1, abs_i(b as int)),
        abs_i(t.1 as int) <= max_i(1, abs_i(a as int)),
        b == 0 ==> t.0 == 1 && t.1 == 0,
    decreases abs_i(b as int), abs_i(a as int),
{
    proof {
        lemma_ext_spec_bezout(a as int, b as int);
    }
    let ma: i64 = if a < 0 {
        -a
    } else {
        a
    };
    let mb: i64 = if b < 0 {
        -b
    } else {
        b
    };
    if mb > ma {
        let (x, y, d) = extended_euclidean(b, a);
        return (y, x, d);
    }
    if b == 0 {
        return (1, 0, a);
    }
    let q = trunc_quot(a, b);
    let r = trunc_rem(a, b);
    let (x, y, d) = extended_euclidean(b, r);
    proof {
        lemma_tmod_bound(a as int, b as int);
        lemma_tdiv_tmod(a as int, b as int);
        lemma_fundamental_div_mod(abs_i(a as int), abs_i(b as int));
        assert(abs_i(a as int) / abs_i(b as int) >= 0) by (nonlinear_arith)
            requires
                abs_i(a as int) >= 0,
                abs_i(b as int) >= 1,
        ;
        // the magnitude of q * y is at most |a| - |r|, so x - q * y stays
        // within the magnitude of a
        assert(abs_i(q as int * y as int) <= abs_i(a as int) - abs_i(r as int))
            by (nonlinear_arith)
            requires
                abs_i(q as int) == abs_i(a as int) / abs_i(b as int),
                abs_i(y as int) <= abs_i(b as int),
                abs_i(a as int) == abs_i(b as int) * (abs_i(a as int) / abs_i(b as int)) + abs_i(
                    r as int,
                ),
                abs_i(b as int) >= 1,
                abs_i(a as int) / abs_i(b as int) >= 0,
        ;
        if r == 0 {
            assert(x == 1 && y == 0);
        } else {
            assert(abs_i(x as int) <= abs_i(r as int));
        }
        assert(abs_i(x as int - q as int * y as int) <= abs_i(a as int));
    }
    (y, x - q * y, d)
}

} // verus!
