//! The coefficient field: integers modulo a fixed prime, with multiplicative
//! inverses computed by the extended Euclidean algorithm.

use vstd::prelude::*;
use vstd::arithmetic::div_mod::{
    lemma_mod_add_multiples_vanish, lemma_mod_division_less_than_divisor, lemma_mod_multiples_basic,
    lemma_mod_multiples_vanish, lemma_mul_mod_noop_general, lemma_small_mod,
};
use crate::divides;
use crate::euclidean::{
    ext_spec, extended_euclidean, lemma_ext_spec_bezout, lemma_gcd_divides, lemma_gcd_nonneg,
    trunc_rem,
};

verus! {

/// The prime modulus of the coefficient field.
pub const MODULUS: u64 = 31;

/// `n` has no divisor `j` with `2 <= j <= k`.
pub open spec fn has_no_factor_through(n: int, k: int) -> bool
    decreases k,
{
    if k <= 1 {
        true
    } else {
        n % k != 0 && has_no_factor_through(n, k - 1)
    }
}

proof fn lemma_no_factor_instance(n: int, k: int, j: int)
    requires
        has_no_factor_through(n, k),
        2 <= j <= k,
    ensures
        n % j != 0,
    decreases k,
{
    if j < k {
        lemma_no_factor_instance(n, k - 1, j);
    }
}

/// The modulus has no factor among the residues above one: it is prime.
proof fn lemma_modulus_has_no_factor()
    ensures
        has_no_factor_through(MODULUS as int, MODULUS - 1),
{
    assert(has_no_factor_through(31, 5)) by {
        reveal_with_fuel(has_no_factor_through, 7);
    }
    assert(has_no_factor_through(31, 10)) by {
        reveal_with_fuel(has_no_factor_through, 7);
    }
    assert(has_no_factor_through(31, 15)) by {
        reveal_with_fuel(has_no_factor_through, 7);
    }
    assert(has_no_factor_through(31, 20)) by {
        reveal_with_fuel(has_no_factor_through, 7);
    }
    assert(has_no_factor_through(31, 25)) by {
        reveal_with_fuel(has_no_factor_through, 7);
    }
    assert(has_no_factor_through(31, 30)) by {
        reveal_with_fuel(has_no_factor_through, 7);
    }
}

/// The only divisor of the modulus strictly between zero and itself is one.
#[verifier::rlimit(100)]
proof fn lemma_modulus_prime_divisor(d: int)
    requires
        1 <= d < MODULUS,
        divides(d, MODULUS as int),
    ensures
        d == 1,
{
    if d >= 2 {
        lemma_modulus_has_no_factor();
        lemma_no_factor_instance(MODULUS as int, MODULUS - 1, d);
        let k = choose|k: int| MODULUS as int == #[trigger] (d * k);
        lemma_mod_multiples_basic(k, d);
        assert(d * k == k * d) by (nonlinear_arith);
        assert((k * d) % d == 0);
        assert(false);
    }
}

/// Sum in the field.
pub open spec fn fadd(a: int, b: int) -> int {
    (a + b) % (MODULUS as int)
}

/// Difference in the field.
pub open spec fn fsub(a: int, b: int) -> int {
    (a - b) % (MODULUS as int)
}

/// Additive inverse in the field.
pub open spec fn fneg(a: int) -> int {
    (MODULUS - a) % (MODULUS as int)
}

/// Product in the field.
pub open spec fn fmul(a: int, b: int) -> int {
    (a * b) % (MODULUS as int)
}

/// A residue: an integer reduced modulo the field's modulus.
pub open spec fn in_field(a: int) -> bool {
    0 <= a < MODULUS
}

/// Multiplicative inverse in the field: the residue whose product with `a`
/// is one.
pub open spec fn finv(a: int) -> int {
    choose|b: int| in_field(b) && #[trigger] fmul(a, b) == 1
}

/// Quotient in the field: multiplication by the inverse.
pub open spec fn fdiv(a: int, b: int) -> int {
    fmul(a, finv(b))
}

/// Field multiplication commutes.
pub proof fn lemma_fmul_comm(a: int, b: int)
    ensures
        fmul(a, b) == fmul(b, a),
{
    assert(a * b == b * a) by (nonlinear_arith);
}

/// Field multiplication associates.
pub proof fn lemma_fmul_assoc(a: int, b: int, c: int)
    ensures
        fmul(fmul(a, b), c) == fmul(a, fmul(b, c)),
{
    let m = MODULUS as int;
    lemma_mul_mod_noop_general(a * b, c, m);
    lemma_mul_mod_noop_general(a, b * c, m);
    assert((a * b) * c == a * (b * c)) by (nonlinear_arith);
}

/// Every nonzero residue has a multiplicative inverse, supplied by the
/// Bezout identity for the residue and the prime modulus.
pub proof fn lemma_finv(a: int)
    requires
        in_field(a),
        a != 0,
    ensures
        in_field(finv(a)),
        fmul(a, finv(a)) == 1,
{
    let m = MODULUS as int;
    let (x, y, d) = ext_spec(m, a);
    lemma_ext_spec_bezout(m, a);
    lemma_gcd_nonneg(m, a);
    lemma_gcd_divides(m, a);
    let km = choose|k: int| m == #[trigger] (d * k);
    let ka = choose|k: int| a == #[trigger] (d * k);
    if d == 0 {
        assert(m == 0 * km);
    }
    assert(d <= a) by (nonlinear_arith)
        requires
            a == d * ka,
            d >= 1,
            a >= 1,
    ;
    lemma_modulus_prime_divisor(d);
    let w = y % m;
    lemma_mod_division_less_than_divisor(y, m);
    lemma_mul_mod_noop_general(y, a, m);
    assert(y * a == a * y) by (nonlinear_arith);
    assert(a * y == m * (-x) + 1) by (nonlinear_arith)
        requires
            m * x + a * y == 1,
    ;
    lemma_mod_multiples_vanish(-x, 1, m);
    lemma_small_mod(1nat, MODULUS as nat);
    assert(fmul(a, w) == 1) by {
        assert(fmul(a, w) == (a * (y % m)) % m);
        assert((a * (y % m)) % m == (a * y) % m) by {
            lemma_mul_mod_noop_general(a, y, m);
        }
    }
    assert(in_field(w) && fmul(a, w) == 1);
}

/// Multiplication by a nonzero residue can be cancelled.
pub proof fn lemma_fmul_cancel(b: int, r1: int, r2: int)
    requires
        in_field(b),
        b != 0,
        in_field(r1),
        in_field(r2),
        fmul(r1, b) == fmul(r2, b),
    ensures
        r1 == r2,
{
    lemma_finv(b);
    let w = finv(b);
    lemma_fmul_assoc(r1, b, w);
    lemma_fmul_assoc(r2, b, w);
    lemma_small_mod(r1 as nat, MODULUS as nat);
    lemma_small_mod(r2 as nat, MODULUS as nat);
    assert(fmul(r1, 1) == r1 % (MODULUS as int));
    assert(fmul(r2, 1) == r2 % (MODULUS as int));
}

/// The product of two nonzero residues is nonzero.
pub proof fn lemma_fmul_nonzero(a: int, b: int)
    requires
        in_field(a),
        in_field(b),
        a != 0,
        b != 0,
    ensures
        fmul(a, b) != 0,
{
    if fmul(a, b) == 0 {
        lemma_small_mod(0nat, MODULUS as nat);
        assert(fmul(0, b) == (0 * b) % (MODULUS as int));
        assert(0 * b == 0) by (nonlinear_arith);
        lemma_fmul_cancel(b, a, 0);
    }
}

/// The field quotient is a residue, and multiplying it back by the divisor
/// returns the dividend: division in the field is exact.
pub proof fn lemma_fdiv_mul(a: int, b: int)
    requires
        in_field(a),
        in_field(b),
        b != 0,
    ensures
        in_field(fdiv(a, b)),
        fmul(fdiv(a, b), b) == a,
{
    let m = MODULUS as int;
    lemma_finv(b);
    let w = finv(b);
    lemma_mod_division_less_than_divisor(a * w, m);
    lemma_fmul_assoc(a, w, b);
    lemma_fmul_comm(w, b);
    assert(fmul(a, 1) == a % m);
    lemma_small_mod(a as nat, MODULUS as nat);
}

/// Zero is the additive identity.
pub proof fn lemma_fadd_zero(a: int)
    requires
        in_field(a),
    ensures
        fadd(a, 0) == a,
{
    lemma_small_mod(a as nat, MODULUS as nat);
}

/// The additive inverse is zero exactly for the zero residue.
pub proof fn lemma_fneg_zero(a: int)
    requires
        in_field(a),
    ensures
        (fneg(a) == 0) == (a == 0),
        in_field(fneg(a)),
{
    let m = MODULUS as int;
    if a == 0 {
        lemma_mod_add_multiples_vanish(0, m);
        lemma_small_mod(0nat, MODULUS as nat);
    } else {
        lemma_small_mod((m - a) as nat, MODULUS as nat);
    }
}

/// A residue and its additive inverse sum to zero.
pub proof fn lemma_fadd_fneg(a: int)
    requires
        in_field(a),
    ensures
        fadd(a, fneg(a)) == 0,
{
    let m = MODULUS as int;
    lemma_fneg_zero(a);
    if a == 0 {
        lemma_small_mod(0nat, MODULUS as nat);
    } else {
        lemma_small_mod((m - a) as nat, MODULUS as nat);
        lemma_mod_add_multiples_vanish(0, m);
        lemma_small_mod(0nat, MODULUS as nat);
    }
}

/// The field difference of two distinct residues is nonzero.
pub proof fn lemma_fsub_nonzero(a: int, b: int)
    requires
        in_field(a),
        in_field(b),
        a != b,
    ensures
        fsub(a, b) != 0,
        in_field(fsub(a, b)),
{
    let m = MODULUS as int;
    lemma_mod_division_less_than_divisor(a - b, m);
    if a > b {
        lemma_small_mod((a - b) as nat, MODULUS as nat);
    } else {
        lemma_mod_add_multiples_vanish(a - b, m);
        lemma_small_mod((m + a - b) as nat, MODULUS as nat);
    }
}

/// An element of the prime field.
#[derive(Clone, Copy, PartialEq, Eq, Structural)]
pub struct Fe {
    /// The residue; kept below `MODULUS` by every operation.
    pub v: u64,
}

impl View for Fe {
    type V = int;

    open spec fn view(&self) -> int {
        self.v as int
    }
}

impl Fe {
    /// Every element holds a residue below the modulus.
    pub open spec fn valid(self) -> bool {
        in_field(self@)
    }

    /// Builds the element for `v`, reduced modulo the field's modulus.
    pub fn new(v: u64) -> (r: Fe)
        ensures
            r.valid(),
            r@ == v as int % (MODULUS as int),
    {
        Fe { v: v % MODULUS }
    }

    /// The stored residue.
    pub fn residue(self) -> (r: u64)
        ensures
            r == self@,
    {
        self.v
    }

    /// The additive identity.
    pub fn zero() -> (r: Fe)
        ensures
            r.valid(),
            r@ == 0,
    {
        Fe { v: 0 }
    }

    /// The multiplicative identity.
    pub fn one() -> (r: Fe)
        ensures
            r.valid(),
            r@ == 1,
    {
        Fe { v: 1 }
    }

    /// Whether this is the additive identity.
    pub fn is_zero(self) -> (r: bool)
        ensures
            r == (self@ == 0),
    {
        self.v == 0
    }

    /// Field addition.
    pub fn add(self, other: Fe) -> (r: Fe)
        requires
            self.valid(),
            other.valid(),
        ensures
            r.valid(),
            r@ == fadd(self@, other@),
    {
        Fe { v: (self.v + other.v) % MODULUS }
    }

    /// Field subtraction.
    pub fn sub(self, other: Fe) -> (r: Fe)
        requires
            self.valid(),
            other.valid(),
        ensures
            r.valid(),
            r@ == fsub(self@, other@),
    {
        proof {
            lemma_mod_add_multiples_vanish(self@ - other@, MODULUS as int);
        }
        Fe { v: (self.v + MODULUS - other.v) % MODULUS }
    }

    /// Additive inverse.
    pub fn neg(self) -> (r: Fe)
        requires
            self.valid(),
        ensures
            r.valid(),
            r@ == fneg(self@),
    {
        Fe { v: (MODULUS - self.v) % MODULUS }
    }

    /// Field multiplication.
    pub fn mul(self, other: Fe) -> (r: Fe)
        requires
            self.valid(),
            other.valid(),
        ensures
            r.valid(),
            r@ == fmul(self@, other@),
    {
        proof {
            assert(self.v * other.v <= 30 * 30) by (nonlinear_arith)
                requires
                    self.v <= 30,
                    other.v <= 30,
            ;
        }
        Fe { v: (self.v * other.v) % MODULUS }
    }

    /// Multiplicative inverse, found through the extended Euclidean
    /// algorithm on the element and the modulus.
    pub fn inv(self) -> (r: Fe)
        requires
            self.valid(),
            self@ != 0,
        ensures
            r.valid(),
            fmul(self@, r@) == 1,
            r@ == finv(self@),
    {
        let c: i64 = self.v as i64;
        let m: i64 = MODULUS as i64;
        let (x, y, d) = extended_euclidean(m, c);
        proof {
            lemma_gcd_nonneg(m as int, c as int);
            lemma_gcd_divides(m as int, c as int);
            let km = choose|k: int| m as int == #[trigger] (d as int * k);
            let kc = choose|k: int| c as int == #[trigger] (d as int * k);
            if d == 0 {
                assert(m as int == 0 * km);
            }
            assert(d as int <= c as int) by (nonlinear_arith)
                requires
                    c as int == d as int * kc,
                    d as int >= 1,
                    c as int >= 1,
            ;
            lemma_modulus_prime_divisor(d as int);
        }
        let y0: i64 = trunc_rem(y, m);
        let y1: i64 = if y0 < 0 {
            y0 + m
        } else {
            y0
        };
        proof {
            crate::euclidean::lemma_tdiv_tmod(y as int, m as int);
            let t = crate::euclidean::tdiv(y as int, m as int);
            // y1 differs from y by a multiple of the modulus, so the Bezout
            // identity carries the inverse property over to y1
            let s = if y0 < 0 {
                t - 1
            } else {
                t
            };
            assert(y1 as int == y as int - (m as int) * s);
            assert(c as int * y1 as int == (MODULUS as int) * (-(x as int) - c as int * s) + 1)
                by (nonlinear_arith)
                requires
                    m as int * x as int + c as int * y as int == 1,
                    y1 as int == y as int - m as int * s,
                    m as int == MODULUS as int,
            ;
            lemma_mod_multiples_vanish(
                -(x as int) - c as int * s,
                1,
                MODULUS as int,
            );
            lemma_small_mod(1nat, MODULUS as nat);
            lemma_finv(c as int);
            lemma_fmul_comm(c as int, y1 as int);
            lemma_fmul_comm(c as int, finv(c as int));
            lemma_fmul_cancel(c as int, y1 as int, finv(c as int));
        }
        Fe { v: y1 as u64 }
    }

    /// Field division: multiplication by the divisor's inverse. The result is
    /// the unique field element whose product with `other` gives back `self`.
    pub fn div(self, other: Fe) -> (r: Fe)
        requires
            self.valid(),
            other.valid(),
            other@ != 0,
        ensures
            r.valid(),
            fmul(r@, other@) == self@,
            r@ == fdiv(self@, other@),
    {
        let i = other.inv();
        let r = self.mul(i);
        proof {
            lemma_fmul_assoc_swap(self@, i@, other@);
            assert(i@ * other@ == other@ * i@) by (nonlinear_arith);
            assert(fmul(i@, other@) == fmul(other@, i@));
            assert(fmul(self@, 1) == self@ % (MODULUS as int));
            lemma_small_mod(self@ as nat, MODULUS as nat);
            assert(self@ % (MODULUS as int) == self@);
        }
        r
    }
}

/// Rearranged associativity under the modulus: `(a*i mod m)*b mod m` equals
/// `a*(i*b mod m) mod m`.
proof fn lemma_fmul_assoc_swap(a: int, i: int, b: int)
    ensures
        fmul(fmul(a, i), b) == fmul(a, fmul(i, b)),
{
    let m = MODULUS as int;
    vstd::arithmetic::div_mod::lemma_mul_mod_noop_general(a * i, b, m);
    vstd::arithmetic::div_mod::lemma_mul_mod_noop_general(a, i * b, m);
    assert((a * i) * b == a * (i * b)) by (nonlinear_arith);
}

} // verus!
