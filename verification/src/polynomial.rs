//! Univariate polynomials over the prime field, in canonical form: the
//! stored coefficient sequence, ordered from the constant term upward, never
//! ends in a zero except for the zero polynomial, which is the single
//! coefficient zero.

use vstd::prelude::*;
use vstd::arithmetic::div_mod::{
    lemma_add_mod_noop, lemma_mul_mod_noop_general, lemma_small_mod,
};
use vstd::arithmetic::power::pow;
use crate::field::{
    fadd, fdiv, fmul, fneg, fsub, in_field, lemma_fdiv_mul, lemma_fmul_comm, lemma_fmul_nonzero,
    lemma_fsub_nonzero, Fe, MODULUS,
};

verus! {

/// The residues of a coefficient vector, in order.
pub open spec fn coeff_view(s: Seq<Fe>) -> Seq<int> {
    Seq::new(s.len(), |i: int| s[i]@)
}

/// Every entry is a reduced residue.
pub open spec fn all_in_field(s: Seq<int>) -> bool {
    forall|i: int| 0 <= i < s.len() ==> in_field(#[trigger] s[i])
}

/// Canonical form: nonempty, and no trailing zero unless the sequence is the
/// single zero coefficient.
pub open spec fn is_canonical(s: Seq<int>) -> bool {
    s.len() >= 1 && (s.len() == 1 || s.last() != 0)
}

/// The canonical zero polynomial.
pub open spec fn is_zero_poly(s: Seq<int>) -> bool {
    s.len() == 1 && s[0] == 0
}

/// Strips trailing zeros down to canonical form, leaving one zero for the
/// zero polynomial.
pub open spec fn pnorm(s: Seq<int>) -> Seq<int>
    decreases s.len(),
{
    if s.len() == 0 {
        seq![0int]
    } else if s.len() == 1 {
        s
    } else if s.last() != 0 {
        s
    } else {
        pnorm(s.drop_last())
    }
}

/// Normalization yields canonical form and keeps a prefix of the input.
pub proof fn lemma_pnorm_shape(s: Seq<int>)
    ensures
        is_canonical(pnorm(s)),
        pnorm(s).len() <= s.len() || s.len() == 0,
        s.len() == 0 ==> pnorm(s) == seq![0int],
        forall|i: int|
            0 <= i < pnorm(s).len() && i < s.len() ==> pnorm(s)[i] == #[trigger] s[i],
    decreases s.len(),
{
    if s.len() >= 2 && s.last() == 0 {
        lemma_pnorm_shape(s.drop_last());
        assert forall|i: int|
            0 <= i < pnorm(s).len() && i < s.len() implies pnorm(s)[i] == #[trigger] s[i] by {
            assert(pnorm(s) == pnorm(s.drop_last()));
            assert(s.drop_last()[i] == s[i]);
        }
    }
}

/// Normalization keeps every coefficient a residue.
pub proof fn lemma_pnorm_in_field(s: Seq<int>)
    requires
        all_in_field(s),
    ensures
        all_in_field(pnorm(s)),
    decreases s.len(),
{
    if s.len() == 0 {
        assert(pnorm(s) == seq![0int]);
        assert(in_field(0));
        assert(forall|i: int| 0 <= i < pnorm(s).len() ==> in_field(#[trigger] pnorm(s)[i]));
    } else if s.len() >= 2 && s.last() == 0 {
        assert(all_in_field(s.drop_last()));
        lemma_pnorm_in_field(s.drop_last());
    }
}

/// A canonical sequence is already normalized.
pub proof fn lemma_pnorm_of_canonical(s: Seq<int>)
    requires
        is_canonical(s),
    ensures
        pnorm(s) == s,
{
}

/// Normalization is idempotent: renormalizing a normalized sequence changes
/// nothing, so sequences differing only in trailing zeros normalize alike.
pub proof fn lemma_pnorm_idempotent(s: Seq<int>)
    ensures
        pnorm(pnorm(s)) == pnorm(s),
{
    lemma_pnorm_shape(s);
    lemma_pnorm_of_canonical(pnorm(s));
}

/// The coefficient at `i`, reading positions past the end as zero.
pub open spec fn pget(s: Seq<int>, i: int) -> int {
    if 0 <= i < s.len() {
        s[i]
    } else {
        0
    }
}

/// Pointwise field sum, the shorter sequence padded with zeros.
pub open spec fn padd(a: Seq<int>, b: Seq<int>) -> Seq<int> {
    Seq::new(
        if a.len() < b.len() {
            b.len()
        } else {
            a.len()
        },
        |i: int| fadd(pget(a, i), pget(b, i)),
    )
}

/// Pointwise additive inverse.
pub open spec fn pneg(s: Seq<int>) -> Seq<int> {
    Seq::new(s.len(), |i: int| fneg(s[i]))
}

/// Pointwise product with a scalar.
pub open spec fn pscale(s: Seq<int>, k: int) -> Seq<int> {
    Seq::new(s.len(), |i: int| fmul(s[i], k))
}

/// An all-zero sequence normalizes to the zero polynomial.
pub proof fn lemma_pnorm_all_zero(s: Seq<int>)
    requires
        s.len() >= 1,
        forall|i: int| 0 <= i < s.len() ==> #[trigger] s[i] == 0,
    ensures
        pnorm(s) == seq![0int],
    decreases s.len(),
{
    if s.len() == 1 {
        assert(s =~= seq![0int]);
    } else {
        assert(forall|i: int|
            0 <= i < s.drop_last().len() ==> #[trigger] s.drop_last()[i] == 0);
        lemma_pnorm_all_zero(s.drop_last());
    }
}

/// Adding the zero polynomial returns the same canonical polynomial.
pub proof fn lemma_add_zero_identity(s: Seq<int>)
    requires
        is_canonical(s),
        all_in_field(s),
    ensures
        pnorm(padd(s, seq![0int])) == s,
{
    let z = seq![0int];
    assert forall|i: int| 0 <= i < s.len() implies padd(s, z)[i] == #[trigger] s[i] by {
        assert(in_field(s[i]));
        crate::field::lemma_fadd_zero(s[i]);
    }
    assert(padd(s, z) =~= s);
    lemma_pnorm_of_canonical(s);
}

/// Adding a polynomial's negation yields the zero polynomial.
pub proof fn lemma_add_neg_zero(s: Seq<int>)
    requires
        is_canonical(s),
        all_in_field(s),
    ensures
        pnorm(pneg(s)) == pneg(s),
        pnorm(padd(s, pneg(s))) == seq![0int],
{
    if s.len() >= 2 {
        assert(in_field(s[s.len() - 1]));
        crate::field::lemma_fneg_zero(s.last());
        assert(pneg(s).last() == fneg(s.last()));
        assert(pneg(s).last() != 0);
    }
    lemma_pnorm_of_canonical(pneg(s));
    let t = padd(s, pneg(s));
    assert forall|i: int| 0 <= i < t.len() implies #[trigger] t[i] == 0 by {
        assert(in_field(s[i]));
        crate::field::lemma_fadd_fneg(s[i]);
    }
    lemma_pnorm_all_zero(t);
}

/// The partial convolution sum for the coefficient at `k`: the terms
/// `a[j] * b[k - j]` for the positions `j` below `i` at which both indices
/// are in range.
pub open spec fn convpre(a: Seq<int>, b: Seq<int>, k: int, i: int) -> int
    decreases i,
{
    if i <= 0 {
        0
    } else {
        convpre(a, b, k, i - 1) + if i - 1 < a.len() && 0 <= k - (i - 1) < b.len() {
            a[i - 1] * b[k - (i - 1)]
        } else {
            0
        }
    }
}

/// The discrete convolution of two coefficient sequences, each coefficient
/// reduced into the field.
pub open spec fn conv(a: Seq<int>, b: Seq<int>) -> Seq<int> {
    Seq::new(
        (a.len() + b.len() - 1) as nat,
        |k: int| convpre(a, b, k, k + 1) % (MODULUS as int),
    )
}

proof fn lemma_convpre_last_low(a: Seq<int>, b: Seq<int>, i: int)
    requires
        a.len() >= 1,
        b.len() >= 1,
        0 <= i <= a.len() - 1,
    ensures
        convpre(a, b, a.len() + b.len() - 2, i) == 0,
    decreases i,
{
    if i > 0 {
        lemma_convpre_last_low(a, b, i - 1);
    }
}

proof fn lemma_convpre_last_high(a: Seq<int>, b: Seq<int>, i: int)
    requires
        a.len() >= 1,
        b.len() >= 1,
        a.len() <= i <= a.len() + b.len() - 1,
    ensures
        convpre(a, b, a.len() + b.len() - 2, i) == a.last() * b.last(),
    decreases i,
{
    if i == a.len() {
        lemma_convpre_last_low(a, b, i - 1);
    } else {
        lemma_convpre_last_high(a, b, i - 1);
    }
}

/// The degree law: the product of two nonzero canonical polynomials is
/// already canonical, of length one less than the lengths' sum, so its
/// degree is the sum of the factors' degrees.
pub proof fn lemma_mul_degree(a: Seq<int>, b: Seq<int>)
    requires
        is_canonical(a),
        is_canonical(b),
        all_in_field(a),
        all_in_field(b),
        !is_zero_poly(a),
        !is_zero_poly(b),
    ensures
        pnorm(conv(a, b)) == conv(a, b),
        pnorm(conv(a, b)).len() - 1 == (a.len() - 1) + (b.len() - 1),
{
    let n = a.len() + b.len() - 1;
    lemma_convpre_last_high(a, b, n);
    assert(in_field(a[a.len() - 1]));
    assert(in_field(b[b.len() - 1]));
    assert(a.last() != 0);
    assert(b.last() != 0);
    lemma_fmul_nonzero(a.last(), b.last());
    assert(conv(a, b).last() == fmul(a.last(), b.last()));
    lemma_pnorm_of_canonical(conv(a, b));
}

/// The monomial `c * x^e` as a coefficient sequence.
pub open spec fn monomial(c: int, e: int) -> Seq<int> {
    Seq::new((e + 1) as nat, |i: int| if i == e { c } else { 0 })
}

/// One long-division step: subtract `c * x^(p.len()-d.len()) * d` from `p`.
/// The leading coefficients cancel, so the last position is dropped.
pub open spec fn reduce_step(p: Seq<int>, d: Seq<int>, c: int) -> Seq<int> {
    Seq::new(
        (p.len() - 1) as nat,
        |i: int|
            if i >= p.len() - d.len() {
                fsub(p[i], fmul(c, d[i - (p.len() - d.len())]))
            } else {
                p[i]
            },
    )
}

/// Long division of canonical coefficient sequences: repeatedly divide the
/// leading coefficients, accumulate the monomial into the quotient, and
/// reduce the dividend, until its degree falls below the divisor's.
pub open spec fn pdivmod(p: Seq<int>, d: Seq<int>) -> (Seq<int>, Seq<int>)
    decreases p.len(), (if is_zero_poly(p) { 0int } else { 1int }),
    via pdivmod_decreases
{
    if p.len() == 0 || is_zero_poly(p) || p.len() < d.len() {
        (seq![0int], p)
    } else {
        let c = fdiv(p.last(), d.last());
        let rest = pdivmod(pnorm(reduce_step(p, d, c)), d);
        (pnorm(padd(rest.0, monomial(c, p.len() - d.len()))), rest.1)
    }
}

#[via_fn]
proof fn pdivmod_decreases(p: Seq<int>, d: Seq<int>) {
    if !(p.len() == 0 || is_zero_poly(p) || p.len() < d.len()) {
        let c = fdiv(p.last(), d.last());
        let red = reduce_step(p, d, c);
        lemma_pnorm_shape(red);
        if p.len() >= 2 {
            assert(red.len() == p.len() - 1);
            assert(pnorm(red).len() < p.len());
        } else {
            assert(red.len() == 0);
            assert(pnorm(red) == seq![0int]);
            assert(pnorm(red)[0] == 0);
            assert(is_zero_poly(pnorm(red)));
        }
    }
}

/// A sequence that continues a canonical one with zeros normalizes back to
/// it.
pub proof fn lemma_pnorm_pad(s: Seq<int>, t: Seq<int>)
    requires
        is_canonical(s),
        t.len() >= s.len(),
        forall|i: int| 0 <= i < s.len() ==> t[i] == #[trigger] s[i],
        forall|i: int| s.len() <= i < t.len() ==> #[trigger] t[i] == 0,
    ensures
        pnorm(t) == s,
    decreases t.len(),
{
    if t.len() == s.len() {
        assert(t =~= s);
        lemma_pnorm_of_canonical(s);
    } else {
        assert(t.last() == 0);
        assert forall|i: int| s.len() <= i < t.drop_last().len() implies #[trigger] t.drop_last()[i]
            == 0 by {
            assert(t.drop_last()[i] == t[i]);
        }
        lemma_pnorm_pad(s, t.drop_last());
    }
}

/// Positions stripped by normalization held zeros.
pub proof fn lemma_pnorm_stripped_zero(s: Seq<int>)
    ensures
        forall|i: int| pnorm(s).len() <= i < s.len() ==> #[trigger] s[i] == 0,
    decreases s.len(),
{
    if s.len() >= 2 && s.last() == 0 {
        lemma_pnorm_stripped_zero(s.drop_last());
        lemma_pnorm_shape(s.drop_last());
        assert forall|i: int| pnorm(s).len() <= i < s.len() implies #[trigger] s[i] == 0 by {
            if i < s.len() - 1 {
                assert(s.drop_last()[i] == s[i]);
            }
        }
    }
}

/// Every position of a sequence and its normalization agree once positions
/// past either end read as zero.
pub proof fn lemma_pnorm_pget(s: Seq<int>, k: int)
    ensures
        pget(pnorm(s), k) == pget(s, k),
{
    lemma_pnorm_shape(s);
    lemma_pnorm_stripped_zero(s);
    if s.len() == 0 {
        assert(pnorm(s) == seq![0int]);
    }
}

/// The partial convolution sum vanishes once `k` is out of range of the
/// result.
proof fn lemma_convpre_out_of_range(a: Seq<int>, b: Seq<int>, k: int, i: int)
    requires
        k >= a.len() + b.len() - 1 || k < 0,
    ensures
        convpre(a, b, k, i) == 0,
    decreases i,
{
    if i > 0 {
        lemma_convpre_out_of_range(a, b, k, i - 1);
    }
}

/// The coefficient of the convolution at any position, positions out of
/// range reading as zero.
pub proof fn lemma_conv_pget(a: Seq<int>, b: Seq<int>, k: int)
    requires
        a.len() >= 1,
        b.len() >= 1,
    ensures
        pget(conv(a, b), k) == convpre(a, b, k, k + 1) % (MODULUS as int),
{
    if !(0 <= k < a.len() + b.len() - 1) {
        lemma_convpre_out_of_range(a, b, k, k + 1);
        lemma_small_mod(0nat, MODULUS as nat);
    }
}

/// Convolution sums are linear over a padded pointwise sum, modulo the
/// field's modulus.
proof fn lemma_convpre_linear(u: Seq<int>, v: Seq<int>, b: Seq<int>, k: int, i: int)
    requires
        all_in_field(u),
        all_in_field(v),
    ensures
        convpre(padd(u, v), b, k, i) % (MODULUS as int) == (convpre(u, b, k, i) + convpre(
            v,
            b,
            k,
            i,
        )) % (MODULUS as int),
    decreases i,
{
    let m = MODULUS as int;
    if i <= 0 {
    } else {
        lemma_convpre_linear(u, v, b, k, i - 1);
        let j = i - 1;
        let pa = padd(u, v);
        let x = convpre(pa, b, k, j);
        let y1 = convpre(u, b, k, j);
        let y2 = convpre(v, b, k, j);
        if j < pa.len() && 0 <= k - j < b.len() {
            let bt = b[k - j];
            let tu = if j < u.len() {
                u[j] * bt
            } else {
                0
            };
            let tv = if j < v.len() {
                v[j] * bt
            } else {
                0
            };
            assert(pa[j] == fadd(pget(u, j), pget(v, j)));
            assert(pa[j] * bt % m == (tu + tv) % m) by {
                assert((pget(u, j) + pget(v, j)) % m * bt % m == (pget(u, j) + pget(v, j)) * bt
                    % m) by {
                    lemma_mul_mod_noop_general(pget(u, j) + pget(v, j), bt, m);
                }
                assert((pget(u, j) + pget(v, j)) * bt == pget(u, j) * bt + pget(v, j) * bt)
                    by (nonlinear_arith);
                if j >= u.len() {
                    assert(pget(u, j) * bt == 0) by (nonlinear_arith)
                        requires
                            pget(u, j) == 0,
                    ;
                }
                if j >= v.len() {
                    assert(pget(v, j) * bt == 0) by (nonlinear_arith)
                        requires
                            pget(v, j) == 0,
                    ;
                }
            }
            // fold the step terms into the accumulated congruence
            lemma_add_mod_noop(x, pa[j] * bt, m);
            lemma_add_mod_noop(y1 + y2, tu + tv, m);
            lemma_add_mod_noop(y1 + y2, pa[j] * bt, m);
            assert(convpre(pa, b, k, i) == x + pa[j] * bt);
            assert((x + pa[j] * bt) % m == (x % m + (pa[j] * bt) % m) % m);
            assert((x % m + (pa[j] * bt) % m) % m == ((y1 + y2) % m + (pa[j] * bt) % m) % m);
            assert(((y1 + y2) % m + (pa[j] * bt) % m) % m == (y1 + y2 + pa[j] * bt) % m);
            assert((y1 + y2 + pa[j] * bt) % m == ((y1 + y2) % m + (pa[j] * bt) % m) % m);
            assert(((y1 + y2) % m + (tu + tv) % m) % m == (y1 + y2 + tu + tv) % m);
            assert(convpre(u, b, k, i) == y1 + tu);
            assert(convpre(v, b, k, i) == y2 + tv);
        } else {
            assert(convpre(pa, b, k, i) == x);
            if j < u.len() && 0 <= k - j < b.len() {
                assert(j < pa.len());
                assert(false);
            }
            if j < v.len() && 0 <= k - j < b.len() {
                assert(j < pa.len());
                assert(false);
            }
            assert(convpre(u, b, k, i) == y1);
            assert(convpre(v, b, k, i) == y2);
        }
    }
}

/// The convolution sum of a monomial: the single term through the
/// monomial's one nonzero coefficient.
proof fn lemma_convpre_monomial(c: int, e: int, b: Seq<int>, k: int, i: int)
    requires
        e >= 0,
    ensures
        convpre(monomial(c, e), b, k, i) == if e < i && 0 <= k - e < b.len() {
            c * b[k - e]
        } else {
            0
        },
    decreases i,
{
    if i > 0 {
        lemma_convpre_monomial(c, e, b, k, i - 1);
        let j = i - 1;
        if j < monomial(c, e).len() && 0 <= k - j < b.len() && j != e {
            assert(monomial(c, e)[j] == 0);
            assert(monomial(c, e)[j] * b[k - j] == 0) by (nonlinear_arith)
                requires
                    monomial(c, e)[j] == 0,
            ;
        }
    }
}

/// A residue arrives from every reduction by the modulus.
proof fn lemma_mod_in_field(x: int)
    ensures
        in_field(x % (MODULUS as int)),
{
    vstd::arithmetic::div_mod::lemma_mod_division_less_than_divisor(x, MODULUS as int);
}

/// Adding a residue to a reduced value reduces their plain sum.
proof fn lemma_fadd_reduce(x: int, r: int)
    requires
        in_field(r),
    ensures
        fadd(x % (MODULUS as int), r) == (x + r) % (MODULUS as int),
{
    let m = MODULUS as int;
    lemma_small_mod(r as nat, MODULUS as nat);
    lemma_add_mod_noop(x, r, m);
}

/// Division correctness: the quotient times the divisor plus the remainder
/// reconstructs the dividend, the remainder's degree falls below the
/// divisor's, and the quotient's length is bounded by the degree gap.
pub proof fn lemma_divmod_reconstructs(p: Seq<int>, d: Seq<int>)
    requires
        is_canonical(p),
        all_in_field(p),
        is_canonical(d),
        all_in_field(d),
        !is_zero_poly(d),
    ensures
        ({
            let (q, r) = pdivmod(p, d);
            &&& pnorm(padd(conv(q, d), r)) == p
            &&& is_canonical(q)
            &&& all_in_field(q)
            &&& is_canonical(r)
            &&& all_in_field(r)
            &&& (is_zero_poly(r) || r.len() < d.len())
            &&& q.len() <= (if p.len() < d.len() {
                1int
            } else {
                p.len() - d.len() + 1
            })
        }),
    decreases p.len(), (if is_zero_poly(p) { 0int } else { 1int }),
{
    let m = MODULUS as int;
    let (q, r) = pdivmod(p, d);
    if p.len() == 0 || is_zero_poly(p) || p.len() < d.len() {
        let z = seq![0int];
        assert(q == z && r == p);
        let t = padd(conv(z, d), p);
        assert(monomial(0, 0) =~= z);
        assert forall|k: int| 0 <= k < t.len() implies t[k] == pget(p, k) by {
            lemma_conv_pget(z, d, k);
            lemma_convpre_monomial(0, 0, d, k, k + 1);
            if 0 <= k < d.len() {
                assert(0 * d[k] == 0) by (nonlinear_arith);
            }
            lemma_small_mod(0nat, MODULUS as nat);
            assert(pget(conv(z, d), k) == 0);
            if 0 <= k < p.len() {
                assert(in_field(p[k]));
                lemma_small_mod(p[k] as nat, MODULUS as nat);
            }
        }
        lemma_pnorm_pad(p, t);
        assert(all_in_field(z)) by {
            assert(forall|i: int| 0 <= i < z.len() ==> in_field(#[trigger] z[i]));
        }
    } else {
        let e = p.len() - d.len();
        let c = fdiv(p.last(), d.last());
        assert(in_field(p.last()));
        assert(in_field(d.last()));
        assert(d.last() != 0);
        assert(p.last() != 0);
        lemma_fdiv_mul(p.last(), d.last());
        if c == 0 {
            assert(0 * d.last() == 0) by (nonlinear_arith);
            lemma_small_mod(0nat, MODULUS as nat);
            assert(false);
        }
        let red = reduce_step(p, d, c);
        assert forall|i: int| 0 <= i < red.len() implies in_field(#[trigger] red[i]) by {
            if i >= e {
                lemma_mod_in_field(p[i] - fmul(c, d[i - e]));
            } else {
                assert(in_field(p[i]));
            }
        }
        let p2 = pnorm(red);
        lemma_pnorm_shape(red);
        lemma_pnorm_in_field(red);
        lemma_divmod_reconstructs(p2, d);
        let (q2, r2) = pdivmod(p2, d);
        assert(r == r2);
        let mono = monomial(c, e);
        let qq = padd(q2, mono);
        // the quotient of the reduced dividend has no coefficient at or
        // above position e
        assert(pget(q2, e) == 0) by {
            if p2.len() == 0 || is_zero_poly(p2) || p2.len() < d.len() {
                assert(q2 == seq![0int]);
            } else {
                assert(q2.len() <= p2.len() - d.len() + 1);
                assert(p2.len() <= red.len());
            }
        }
        assert(q2.len() <= e + 1) by {
            if p2.len() == 0 || is_zero_poly(p2) || p2.len() < d.len() {
                assert(q2 == seq![0int]);
            } else {
                assert(q2.len() <= p2.len() - d.len() + 1);
                assert(p2.len() <= red.len());
            }
        }
        assert(qq.len() == e + 1);
        assert(qq[e as int] == fadd(0, c));
        lemma_small_mod(c as nat, MODULUS as nat);
        assert(qq[e as int] == c);
        assert(is_canonical(qq));
        lemma_pnorm_of_canonical(qq);
        assert(q == qq);
        assert(all_in_field(qq)) by {
            assert forall|i: int| 0 <= i < qq.len() implies in_field(#[trigger] qq[i]) by {
                lemma_mod_in_field(pget(q2, i) + pget(mono, i));
            }
        }
        // the pointwise reconstruction: at every position the convolution
        // of the quotient with the divisor plus the remainder equals the
        // dividend
        let t2 = padd(conv(q2, d), r2);
        assert forall|k: int| 0 <= k implies #[trigger] fadd(
            pget(conv(q, d), k),
            pget(r2, k),
        ) == pget(p, k) by {
            let ca = convpre(q2, d, k, k + 1);
            let cb = convpre(mono, d, k, k + 1);
            lemma_conv_pget(q2, d, k);
            lemma_conv_pget(qq, d, k);
            lemma_convpre_linear(q2, mono, d, k, k + 1);
            lemma_convpre_monomial(c, e, d, k, k + 1);
            // the inductive identity at position k
            lemma_pnorm_pget(t2, k);
            lemma_pnorm_pget(red, k);
            if k < t2.len() {
                assert(t2[k] == fadd(pget(conv(q2, d), k), pget(r2, k)));
            } else {
                assert(pget(conv(q2, d), k) == 0) by {
                    lemma_convpre_out_of_range(q2, d, k, k + 1);
                    lemma_small_mod(0nat, MODULUS as nat);
                }
                assert(pget(r2, k) == 0);
                lemma_small_mod(0nat, MODULUS as nat);
            }
            assert(fadd(ca % m, pget(r2, k)) == pget(red, k)) by {
                assert(in_field(pget(r2, k))) by {
                    if 0 <= k < r2.len() {
                        assert(in_field(r2[k]));
                    }
                }
            }
            assert(in_field(pget(r2, k))) by {
                if 0 <= k < r2.len() {
                    assert(in_field(r2[k]));
                }
            }
            lemma_fadd_reduce(ca, pget(r2, k));
            assert((ca + pget(r2, k)) % m == pget(red, k));
            lemma_fadd_reduce(ca + cb, pget(r2, k));
            assert(fadd(pget(conv(q, d), k), pget(r2, k)) == (ca + cb + pget(r2, k)) % m) by {
                assert(pget(conv(q, d), k) == (ca + cb) % m);
            }
            if k < e {
                assert(cb == 0);
                assert(pget(red, k) == p[k]);
            } else if k < p.len() - 1 {
                assert(cb == c * d[k - e]);
                let tt = fmul(c, d[k - e]);
                assert(pget(red, k) == fsub(p[k], tt));
                lemma_mod_in_field(c * d[k - e]);
                lemma_small_mod(tt as nat, MODULUS as nat);
                // (p[k] - tt) % m + cb recovers p[k]
                assert((ca + pget(r2, k)) % m == (p[k] - tt) % m);
                assert((ca + cb + pget(r2, k)) % m == ((ca + pget(r2, k)) % m + cb % m) % m) by {
                    lemma_add_mod_noop(ca + pget(r2, k), cb, m);
                }
                assert(cb % m == tt);
                assert(((p[k] - tt) % m + tt) % m == p[k]) by {
                    lemma_add_mod_noop(p[k] - tt, tt, m);
                    assert(in_field(p[k]));
                    lemma_small_mod(p[k] as nat, MODULUS as nat);
                }
            } else if k == p.len() - 1 {
                assert(pget(red, k) == 0);
                assert(cb == c * d[k - e]);
                assert(k - e == d.len() - 1);
                assert((ca + cb + pget(r2, k)) % m == ((ca + pget(r2, k)) % m + cb % m) % m) by {
                    lemma_add_mod_noop(ca + pget(r2, k), cb, m);
                }
                assert(cb % m == fmul(c, d.last()));
                assert(fmul(c, d.last()) == p.last());
                lemma_small_mod(p.last() as nat, MODULUS as nat);
                assert((0 + p.last()) % m == p.last());
            } else {
                assert(ca == 0) by {
                    lemma_convpre_out_of_range(q2, d, k, k + 1);
                }
                assert(cb == 0);
                assert(pget(r2, k) == 0);
                lemma_small_mod(0nat, MODULUS as nat);
                assert(pget(red, k) == 0);
                assert(pget(p, k) == 0);
            }
        }
        let t = padd(conv(q, d), r2);
        assert(t.len() == p.len());
        assert forall|k: int| 0 <= k < p.len() implies t[k] == #[trigger] p[k] by {
            assert(t[k] == fadd(pget(conv(q, d), k), pget(r2, k)));
        }
        assert(t =~= p);
        lemma_pnorm_of_canonical(p);
    }
}

/// The linear factor `x - v` as a coefficient sequence.
pub open spec fn lin_factor(v: int) -> Seq<int> {
    seq![fneg(v), 1int]
}

/// The Lagrange basis numerator for index `i`: the product of the linear
/// factors `x - xs[j]` over the positions `j` below `hi` other than `i`.
pub open spec fn basis_num(xs: Seq<int>, i: int, hi: int) -> Seq<int>
    decreases hi,
{
    if hi <= 0 {
        seq![1int]
    } else if hi - 1 == i {
        basis_num(xs, i, hi - 1)
    } else {
        pnorm(conv(basis_num(xs, i, hi - 1), lin_factor(xs[hi - 1])))
    }
}

/// The Lagrange denominator for index `i`: the product of the differences
/// `xs[i] - xs[j]` over the positions `j` below `hi` other than `i`.
pub open spec fn basis_den(xs: Seq<int>, i: int, hi: int) -> int
    decreases hi,
{
    if hi <= 0 {
        1
    } else if hi - 1 == i {
        basis_den(xs, i, hi - 1)
    } else {
        fmul(basis_den(xs, i, hi - 1), fsub(xs[i], xs[hi - 1]))
    }
}

/// The Lagrange interpolating polynomial over the first `n` points: the sum
/// of each basis numerator scaled by its value over its denominator.
pub open spec fn interp_sum(xs: Seq<int>, ys: Seq<int>, n: int) -> Seq<int>
    decreases n,
{
    if n <= 0 {
        seq![0int]
    } else {
        pnorm(
            padd(
                interp_sum(xs, ys, n - 1),
                pnorm(
                    pscale(
                        basis_num(xs, n - 1, xs.len() as int),
                        fdiv(ys[n - 1], basis_den(xs, n - 1, xs.len() as int)),
                    ),
                ),
            ),
        )
    }
}

/// Horner evaluation in the field: the constant coefficient plus `x` times
/// the evaluation of the remaining coefficients.
pub open spec fn peval(s: Seq<int>, x: int) -> int
    decreases s.len(),
{
    if s.len() == 0 {
        0
    } else {
        fadd(fmul(x, peval(s.drop_first(), x)), s.first())
    }
}

/// Horner's nesting over plain integers, from position `i` upward.
pub open spec fn hsum(s: Seq<int>, x: int, i: int) -> int
    decreases s.len() - i,
{
    if i < 0 || i >= s.len() {
        0
    } else {
        s[i] + x * hsum(s, x, i + 1)
    }
}

/// The direct weighted sum of `s[j] * x^j` over positions at or above `i`.
pub open spec fn wsum(s: Seq<int>, x: int, i: int) -> int
    decreases s.len() - i,
{
    if i < 0 || i >= s.len() {
        0
    } else {
        s[i] * pow(x, i as nat) + wsum(s, x, i + 1)
    }
}

proof fn lemma_peval_hsum(s: Seq<int>, x: int, i: int)
    requires
        all_in_field(s),
        in_field(x),
        0 <= i <= s.len(),
    ensures
        peval(s.skip(i), x) == hsum(s, x, i) % (MODULUS as int),
    decreases s.len() - i,
{
    let m = MODULUS as int;
    if i == s.len() {
        assert(s.skip(i).len() == 0);
        lemma_small_mod(0nat, MODULUS as nat);
    } else {
        lemma_peval_hsum(s, x, i + 1);
        assert(s.skip(i).drop_first() =~= s.skip(i + 1));
        assert(s.skip(i).first() == s[i]);
        let h = hsum(s, x, i + 1);
        lemma_mul_mod_noop_general(x, h, m);
        assert(fmul(x, h % m) == (x * h) % m);
        assert(in_field(s[i]));
        lemma_small_mod(s[i] as nat, MODULUS as nat);
        lemma_add_mod_noop(x * h, s[i], m);
        assert(fadd((x * h) % m, s[i]) == (x * h + s[i]) % m);
    }
}

proof fn lemma_hsum_wsum(s: Seq<int>, x: int, i: int)
    requires
        0 <= i <= s.len(),
    ensures
        pow(x, i as nat) * hsum(s, x, i) == wsum(s, x, i),
    decreases s.len() - i,
{
    reveal(pow);
    if i == s.len() {
        assert(pow(x, i as nat) * 0 == 0) by (nonlinear_arith);
    } else {
        lemma_hsum_wsum(s, x, i + 1);
        assert(pow(x, (i + 1) as nat) == x * pow(x, i as nat)) by {
            assert((i + 1) as nat != 0);
            assert(pow(x, (i + 1) as nat) == x * pow(x, ((i + 1) as nat - 1) as nat));
            assert(((i + 1) as nat - 1) as nat == i as nat);
        }
        assert(pow(x, i as nat) * (s[i] + x * hsum(s, x, i + 1)) == s[i] * pow(x, i as nat) + (x
            * pow(x, i as nat)) * hsum(s, x, i + 1)) by (nonlinear_arith);
        assert((x * pow(x, i as nat)) * hsum(s, x, i + 1) == pow(x, (i + 1) as nat) * hsum(
            s,
            x,
            i + 1,
        ));
    }
}

/// Horner evaluation agrees with the direct weighted sum of
/// `coefficient * x^exponent`, reduced into the field.
pub proof fn lemma_eval_weighted_sum(s: Seq<int>, x: int)
    requires
        all_in_field(s),
        in_field(x),
    ensures
        peval(s, x) == wsum(s, x, 0) % (MODULUS as int),
{
    lemma_peval_hsum(s, x, 0);
    assert(s.skip(0) =~= s);
    lemma_hsum_wsum(s, x, 0);
    vstd::arithmetic::power::lemma_pow0(x);
    assert(pow(x, 0nat) == 1);
    assert(1 * hsum(s, x, 0) == hsum(s, x, 0)) by (nonlinear_arith);
}

/// Dropping a zero trailing coefficient does not change evaluation.
proof fn lemma_peval_drop_last_zero(s: Seq<int>, x: int)
    requires
        s.len() >= 1,
        s.last() == 0,
    ensures
        peval(s.drop_last(), x) == peval(s, x),
    decreases s.len(),
{
    let m = MODULUS as int;
    if s.len() == 1 {
        assert(s.drop_last().len() == 0);
        assert(s.drop_first().len() == 0);
        assert(peval(s.drop_first(), x) == 0);
        assert(peval(s, x) == fadd(fmul(x, 0), s[0]));
        assert(x * 0 == 0) by (nonlinear_arith);
        lemma_small_mod(0nat, MODULUS as nat);
    } else {
        assert(s.drop_first().last() == 0);
        lemma_peval_drop_last_zero(s.drop_first(), x);
        assert(s.drop_last().drop_first() =~= s.drop_first().drop_last());
        assert(s.drop_last().first() == s.first());
    }
}

/// Evaluation is unchanged by normalization.
pub proof fn lemma_peval_pnorm(s: Seq<int>, x: int)
    ensures
        peval(pnorm(s), x) == peval(s, x),
    decreases s.len(),
{
    let m = MODULUS as int;
    if s.len() == 0 {
        assert(pnorm(s) == seq![0int]);
        assert(peval(seq![0int], x) == fadd(fmul(x, peval(seq![0int].drop_first(), x)), 0));
        assert(seq![0int].drop_first().len() == 0);
        assert(x * 0 == 0) by (nonlinear_arith);
        lemma_small_mod(0nat, MODULUS as nat);
    } else if s.len() >= 2 && s.last() == 0 {
        lemma_peval_pnorm(s.drop_last(), x);
        lemma_peval_drop_last_zero(s, x);
    }
}

/// Evaluation of a padded pointwise sum is the field sum of the
/// evaluations.
pub proof fn lemma_peval_padd(a: Seq<int>, b: Seq<int>, x: int)
    requires
        all_in_field(a),
        all_in_field(b),
        in_field(x),
    ensures
        peval(padd(a, b), x) == fadd(peval(a, x), peval(b, x)),
    decreases a.len() + b.len(),
{
    let m = MODULUS as int;
    let t = padd(a, b);
    if t.len() == 0 {
        lemma_small_mod(0nat, MODULUS as nat);
    } else {
        let a1 = a.drop_first();
        let b1 = b.drop_first();
        let aa = if a.len() == 0 {
            a
        } else {
            a1
        };
        let bb = if b.len() == 0 {
            b
        } else {
            b1
        };
        assert(all_in_field(aa)) by {
            if a.len() > 0 {
                assert(forall|i: int| 0 <= i < a1.len() ==> a1[i] == #[trigger] a[i + 1]);
            }
        }
        assert(all_in_field(bb)) by {
            if b.len() > 0 {
                assert(forall|i: int| 0 <= i < b1.len() ==> b1[i] == #[trigger] b[i + 1]);
            }
        }
        lemma_peval_padd(aa, bb, x);
        assert(t.drop_first() =~= padd(aa, bb));
        assert(t.first() == fadd(pget(a, 0), pget(b, 0)));
        let ea = peval(aa, x);
        let eb = peval(bb, x);
        assert(in_field(ea) && in_field(eb)) by {
            if aa.len() > 0 {
                lemma_mod_in_field(
                    x * peval(aa.drop_first(), x) % m + aa.first() - x * peval(
                        aa.drop_first(),
                        x,
                    ) % m,
                );
                lemma_mod_in_field(fmul(x, peval(aa.drop_first(), x)) + aa.first());
            } else {
                lemma_small_mod(0nat, MODULUS as nat);
            }
            if bb.len() > 0 {
                lemma_mod_in_field(fmul(x, peval(bb.drop_first(), x)) + bb.first());
            } else {
                lemma_small_mod(0nat, MODULUS as nat);
            }
        }
        // head coefficients and tails recombine under the modulus
        let ha = pget(a, 0);
        let hb = pget(b, 0);
        assert(in_field(ha) && in_field(hb)) by {
            if a.len() > 0 {
                assert(in_field(a[0]));
            }
            if b.len() > 0 {
                assert(in_field(b[0]));
            }
        }
        assert(peval(a, x) == (x * ea + ha) % m) by {
            if a.len() == 0 {
                assert(x * ea == 0) by (nonlinear_arith)
                    requires
                        ea == 0,
                ;
                lemma_small_mod(0nat, MODULUS as nat);
            } else {
                lemma_mul_mod_noop_general(x, ea, m);
                lemma_add_mod_noop(x * ea, ha, m);
                lemma_small_mod(ha as nat, MODULUS as nat);
            }
        }
        assert(peval(b, x) == (x * eb + hb) % m) by {
            if b.len() == 0 {
                assert(x * eb == 0) by (nonlinear_arith)
                    requires
                        eb == 0,
                ;
                lemma_small_mod(0nat, MODULUS as nat);
            } else {
                lemma_mul_mod_noop_general(x, eb, m);
                lemma_add_mod_noop(x * eb, hb, m);
                lemma_small_mod(hb as nat, MODULUS as nat);
            }
        }
        assert(peval(t, x) == (x * fadd(ea, eb) + fadd(ha, hb)) % m) by {
            lemma_mul_mod_noop_general(x, fadd(ea, eb), m);
            lemma_add_mod_noop(x * fadd(ea, eb), fadd(ha, hb), m);
            lemma_mod_in_field(x * fadd(ea, eb));
            lemma_mod_in_field(ha + hb);
            lemma_small_mod(fadd(ha, hb) as nat, MODULUS as nat);
        }
        assert((x * ((ea + eb) % m) + (ha + hb) % m) % m == (x * (ea + eb) + (ha + hb)) % m) by {
            lemma_mul_mod_noop_general(x, ea + eb, m);
            lemma_add_mod_noop(x * ((ea + eb) % m), ha + hb, m);
            lemma_add_mod_noop(x * (ea + eb), ha + hb, m);
            lemma_mod_in_field(x * ((ea + eb) % m));
            vstd::arithmetic::div_mod::lemma_mod_twice(x * ((ea + eb) % m), m);
        }
        assert(x * (ea + eb) == x * ea + x * eb) by (nonlinear_arith);
        assert(((x * ea + ha) % m + (x * eb + hb) % m) % m == (x * ea + ha + x * eb + hb) % m) by {
            lemma_add_mod_noop(x * ea + ha, x * eb + hb, m);
        }
    }
}

/// Removing the first coefficient of the left factor shifts a convolution
/// sum by one position.
proof fn lemma_convpre_drop_first(a: Seq<int>, b: Seq<int>, k: int, i: int)
    requires
        a.len() >= 1,
    ensures
        convpre(a, b, k, i) == (if 0 <= k < b.len() && i > 0 {
            a[0] * b[k]
        } else {
            0
        }) + convpre(a.drop_first(), b, k - 1, i - 1),
    decreases i,
{
    if i <= 0 {
    } else if i == 1 {
        assert(convpre(a, b, k, 0) == 0);
        assert(convpre(a.drop_first(), b, k - 1, 0) == 0);
    } else {
        lemma_convpre_drop_first(a, b, k, i - 1);
        let j = i - 1;
        let a1 = a.drop_first();
        assert(convpre(a, b, k, i) == convpre(a, b, k, i - 1) + (if j < a.len() && 0 <= k - j
            < b.len() {
            a[j] * b[k - j]
        } else {
            0
        }));
        assert(convpre(a1, b, k - 1, i - 1) == convpre(a1, b, k - 1, i - 2) + (if j - 1 < a1.len()
            && 0 <= (k - 1) - (j - 1) < b.len() {
            a1[j - 1] * b[(k - 1) - (j - 1)]
        } else {
            0
        }));
        if j < a.len() {
            assert(a1[j - 1] == a[j]);
        }
        assert((k - 1) - (j - 1) == k - j);
    }
}

/// Evaluation of a scaled sequence is the field product with the scalar.
proof fn lemma_peval_scale_raw(b: Seq<int>, c: int, x: int)
    requires
        all_in_field(b),
        in_field(c),
        in_field(x),
    ensures
        peval(Seq::new(b.len(), |k: int| (c * b[k]) % (MODULUS as int)), x) == fmul(
            c,
            peval(b, x),
        ),
    decreases b.len(),
{
    let m = MODULUS as int;
    let t = Seq::new(b.len(), |k: int| (c * b[k]) % m);
    if b.len() == 0 {
        assert(c * 0 == 0) by (nonlinear_arith);
        lemma_small_mod(0nat, MODULUS as nat);
    } else {
        let b1 = b.drop_first();
        assert(all_in_field(b1)) by {
            assert(forall|i: int| 0 <= i < b1.len() ==> b1[i] == #[trigger] b[i + 1]);
        }
        lemma_peval_scale_raw(b1, c, x);
        assert(t.drop_first() =~= Seq::new(b1.len(), |k: int| (c * b1[k]) % m));
        let eb = peval(b1, x);
        assert(in_field(eb)) by {
            if b1.len() > 0 {
                lemma_mod_in_field(fmul(x, peval(b1.drop_first(), x)) + b1.first());
            } else {
                lemma_small_mod(0nat, MODULUS as nat);
            }
        }
        assert(in_field(b[0]));
        // both sides reduce to (x * c * eb + c * b[0]) mod m
        assert(peval(t, x) == (x * ((c * eb) % m) + (c * b[0]) % m) % m);
        assert((x * ((c * eb) % m) + (c * b[0]) % m) % m == (x * (c * eb) + c * b[0]) % m) by {
            lemma_mul_mod_noop_general(x, c * eb, m);
            lemma_add_mod_noop(x * ((c * eb) % m), c * b[0], m);
            lemma_add_mod_noop(x * (c * eb), c * b[0], m);
            vstd::arithmetic::div_mod::lemma_mod_twice(x * ((c * eb) % m), m);
        }
        assert(peval(b, x) == (x * eb + b[0]) % m) by {
            lemma_mul_mod_noop_general(x, eb, m);
            lemma_add_mod_noop(x * eb, b[0], m);
            lemma_small_mod(b[0] as nat, MODULUS as nat);
        }
        assert(fmul(c, (x * eb + b[0]) % m) == (c * (x * eb + b[0])) % m) by {
            lemma_mul_mod_noop_general(c, x * eb + b[0], m);
        }
        assert(c * (x * eb + b[0]) == x * (c * eb) + c * b[0]) by (nonlinear_arith);
    }
}

/// Evaluation after prepending a zero coefficient multiplies by the point.
proof fn lemma_peval_shift(t: Seq<int>, x: int)
    ensures
        peval(seq![0int] + t, x) == fmul(x, peval(t, x)),
{
    let s = seq![0int] + t;
    assert(s.first() == 0);
    assert(s.drop_first() =~= t);
    let m = MODULUS as int;
    lemma_mod_in_field(x * peval(t, x));
    lemma_small_mod(fmul(x, peval(t, x)) as nat, MODULUS as nat);
}

/// Evaluation of a convolution is the field product of the evaluations.
pub proof fn lemma_peval_conv(a: Seq<int>, b: Seq<int>, x: int)
    requires
        a.len() >= 1,
        b.len() >= 1,
        all_in_field(a),
        all_in_field(b),
        in_field(x),
    ensures
        peval(conv(a, b), x) == fmul(peval(a, x), peval(b, x)),
    decreases a.len(),
{
    let m = MODULUS as int;
    let scaled = Seq::new(b.len(), |k: int| (a[0] * b[k]) % m);
    assert(in_field(a[0]));
    if a.len() == 1 {
        assert forall|k: int|
            0 <= k < conv(a, b).len() implies conv(a, b)[k] == #[trigger] scaled[k] by {
            assert(monomial(a[0], 0) =~= a);
            lemma_convpre_monomial(a[0], 0, b, k, k + 1);
        }
        assert(conv(a, b) =~= scaled);
        lemma_peval_scale_raw(b, a[0], x);
        assert(a.drop_first().len() == 0);
        assert(peval(a.drop_first(), x) == 0);
        assert(peval(a, x) == fadd(fmul(x, 0), a[0]));
        assert(x * 0 == 0) by (nonlinear_arith);
        lemma_small_mod(0nat, MODULUS as nat);
        lemma_small_mod(a[0] as nat, MODULUS as nat);
        assert(peval(a, x) == a[0]);
        lemma_fmul_comm(a[0], peval(b, x));
    } else {
        let a1 = a.drop_first();
        assert(all_in_field(a1)) by {
            assert(forall|i: int| 0 <= i < a1.len() ==> a1[i] == #[trigger] a[i + 1]);
        }
        lemma_peval_conv(a1, b, x);
        let shifted = seq![0int] + conv(a1, b);
        // the convolution splits into the head's scaled copy of b plus the
        // shifted convolution of the tail
        assert forall|k: int| 0 <= k < conv(a, b).len() implies conv(a, b)[k] == #[trigger] padd(
            scaled,
            shifted,
        )[k] by {
            lemma_convpre_drop_first(a, b, k, k + 1);
            let hterm = if 0 <= k < b.len() {
                a[0] * b[k]
            } else {
                0
            };
            let tail = convpre(a1, b, k - 1, k);
            assert(convpre(a, b, k, k + 1) == hterm + tail);
            assert(pget(shifted, k) == if 1 <= k < conv(a1, b).len() + 1 {
                conv(a1, b)[k - 1]
            } else {
                0
            });
            if 1 <= k < conv(a1, b).len() + 1 {
                assert(conv(a1, b)[k - 1] == tail % m);
            } else {
                lemma_convpre_out_of_range(a1, b, k - 1, k);
                assert(tail == 0);
            }
            lemma_small_mod(0nat, MODULUS as nat);
            assert(pget(shifted, k) == tail % m);
            assert(pget(scaled, k) == hterm % m) by {
                if !(0 <= k < b.len()) {
                    lemma_small_mod(0nat, MODULUS as nat);
                }
            }
            lemma_add_mod_noop(hterm, tail, m);
        }
        assert(conv(a, b) =~= padd(scaled, shifted));
        assert(all_in_field(scaled)) by {
            assert forall|i: int| 0 <= i < scaled.len() implies in_field(
                #[trigger] scaled[i],
            ) by {
                lemma_mod_in_field(a[0] * b[i]);
            }
        }
        assert(all_in_field(shifted)) by {
            assert forall|i: int| 0 <= i < shifted.len() implies in_field(
                #[trigger] shifted[i],
            ) by {
                if i >= 1 {
                    assert(shifted[i] == conv(a1, b)[i - 1]);
                    lemma_mod_in_field(convpre(a1, b, i - 1, i));
                }
            }
        }
        lemma_peval_padd(scaled, shifted, x);
        lemma_peval_scale_raw(b, a[0], x);
        lemma_peval_shift(conv(a1, b), x);
        // assemble: both sides are (a0 * Eb + x * (Ea1 * Eb)) mod m
        let eb = peval(b, x);
        let ea1 = peval(a1, x);
        assert(in_field(eb)) by {
            lemma_mod_in_field(fmul(x, peval(b.drop_first(), x)) + b.first());
        }
        assert(in_field(ea1)) by {
            if a1.len() > 0 {
                lemma_mod_in_field(fmul(x, peval(a1.drop_first(), x)) + a1.first());
            } else {
                lemma_small_mod(0nat, MODULUS as nat);
            }
        }
        assert(peval(conv(a, b), x) == fadd(fmul(a[0], eb), fmul(x, fmul(ea1, eb))));
        assert(peval(a, x) == (x * ea1 + a[0]) % m) by {
            lemma_mul_mod_noop_general(x, ea1, m);
            lemma_add_mod_noop(x * ea1, a[0], m);
            lemma_small_mod(a[0] as nat, MODULUS as nat);
        }
        assert(fmul(peval(a, x), eb) == ((x * ea1 + a[0]) * eb) % m) by {
            lemma_mul_mod_noop_general(x * ea1 + a[0], eb, m);
        }
        assert((x * ea1 + a[0]) * eb == x * (ea1 * eb) + a[0] * eb) by (nonlinear_arith);
        assert(fadd(fmul(a[0], eb), fmul(x, fmul(ea1, eb))) == (a[0] * eb + x * (ea1 * eb))
            % m) by {
            lemma_mul_mod_noop_general(x, ea1 * eb, m);
            lemma_add_mod_noop(a[0] * eb, x * ((ea1 * eb) % m), m);
            lemma_add_mod_noop(a[0] * eb, x * (ea1 * eb), m);
            vstd::arithmetic::div_mod::lemma_mod_twice(x * ((ea1 * eb) % m), m);
        }
    }
}

/// Every evaluation lands in the field.
proof fn lemma_peval_in_field(s: Seq<int>, x: int)
    ensures
        in_field(peval(s, x)),
{
    if s.len() == 0 {
    } else {
        lemma_mod_in_field(fmul(x, peval(s.drop_first(), x)) + s.first());
    }
}

/// A linear factor evaluates to the field difference of the point and its
/// root.
proof fn lemma_peval_lin_factor(v: int, x: int)
    requires
        in_field(v),
        in_field(x),
    ensures
        peval(lin_factor(v), x) == fsub(x, v),
{
    let m = MODULUS as int;
    let s = lin_factor(v);
    assert(s.drop_first() =~= seq![1int]);
    assert(seq![1int].drop_first().len() == 0);
    assert(peval(seq![1int].drop_first(), x) == 0);
    assert(x * 0 == 0) by (nonlinear_arith);
    lemma_small_mod(0nat, MODULUS as nat);
    lemma_small_mod(1nat, MODULUS as nat);
    assert(peval(seq![1int], x) == fadd(fmul(x, 0), 1));
    assert(fadd(0, 1) == 1);
    assert(fmul(x, 1) == x % m);
    lemma_small_mod(x as nat, MODULUS as nat);
    assert(peval(s, x) == fadd(x, fneg(v)));
    crate::field::lemma_fneg_zero(v);
    if v == 0 {
        lemma_small_mod(x as nat, MODULUS as nat);
        assert(fadd(x, 0) == x);
        assert(fsub(x, 0) == x % m);
    } else {
        lemma_small_mod((m - v) as nat, MODULUS as nat);
        assert(fneg(v) == m - v);
        vstd::arithmetic::div_mod::lemma_mod_add_multiples_vanish(x - v, m);
        assert(x + (m - v) == m + (x - v));
    }
}

/// The basis numerator is a nonempty sequence of residues.
proof fn lemma_basis_num_wf(xs: Seq<int>, i: int, hi: int)
    requires
        all_in_field(xs),
        hi <= xs.len(),
    ensures
        basis_num(xs, i, hi).len() >= 1,
        all_in_field(basis_num(xs, i, hi)),
    decreases hi,
{
    if hi <= 0 {
        assert(forall|j: int|
            0 <= j < seq![1int].len() ==> in_field(#[trigger] seq![1int][j]));
    } else if hi - 1 == i {
        lemma_basis_num_wf(xs, i, hi - 1);
    } else {
        lemma_basis_num_wf(xs, i, hi - 1);
        let prev = basis_num(xs, i, hi - 1);
        let lf = lin_factor(xs[hi - 1]);
        let cv = conv(prev, lf);
        assert forall|j: int| 0 <= j < cv.len() implies in_field(#[trigger] cv[j]) by {
            lemma_mod_in_field(convpre(prev, lf, j, j + 1));
        }
        lemma_pnorm_shape(cv);
        lemma_pnorm_in_field(cv);
    }
}

/// The basis denominator is a nonzero residue whenever the points are
/// pairwise distinct.
proof fn lemma_basis_den_nonzero(xs: Seq<int>, i: int, hi: int)
    requires
        all_in_field(xs),
        hi <= xs.len(),
        0 <= i < xs.len(),
        forall|a: int, b: int| 0 <= a < b < xs.len() ==> xs[a] != xs[b],
    ensures
        in_field(basis_den(xs, i, hi)),
        basis_den(xs, i, hi) != 0,
    decreases hi,
{
    if hi <= 0 {
    } else if hi - 1 == i {
        lemma_basis_den_nonzero(xs, i, hi - 1);
    } else {
        lemma_basis_den_nonzero(xs, i, hi - 1);
        assert(in_field(xs[i]) && in_field(xs[hi - 1]));
        assert(xs[i] != xs[hi - 1]) by {
            if i < hi - 1 {
                assert(xs[i] != xs[hi - 1]);
            } else {
                assert(xs[hi - 1] != xs[i]);
            }
        }
        lemma_fsub_nonzero(xs[i], xs[hi - 1]);
        lemma_fmul_nonzero(basis_den(xs, i, hi - 1), fsub(xs[i], xs[hi - 1]));
        lemma_mod_in_field(basis_den(xs, i, hi - 1) * fsub(xs[i], xs[hi - 1]));
    }
}

/// The basis numerator for `i` evaluates to zero at every other point, and
/// at the point `i` it evaluates to the basis denominator.
proof fn lemma_basis_num_eval(xs: Seq<int>, i: int, hi: int, t: int)
    requires
        all_in_field(xs),
        hi <= xs.len(),
        0 <= t < xs.len(),
    ensures
        t != i && t < hi ==> peval(basis_num(xs, i, hi), xs[t]) == 0,
        t == i ==> peval(basis_num(xs, i, hi), xs[t]) == basis_den(xs, i, hi),
    decreases hi,
{
    let m = MODULUS as int;
    let z = xs[t];
    assert(in_field(z));
    if hi <= 0 {
        if t == i {
            assert(seq![1int].drop_first().len() == 0);
            assert(peval(seq![1int].drop_first(), z) == 0);
            assert(z * 0 == 0) by (nonlinear_arith);
            lemma_small_mod(0nat, MODULUS as nat);
            lemma_small_mod(1nat, MODULUS as nat);
            assert(peval(seq![1int], z) == fadd(fmul(z, 0), 1));
        }
    } else if hi - 1 == i {
        lemma_basis_num_eval(xs, i, hi - 1, t);
    } else {
        lemma_basis_num_eval(xs, i, hi - 1, t);
        let prev = basis_num(xs, i, hi - 1);
        let lf = lin_factor(xs[hi - 1]);
        lemma_basis_num_wf(xs, i, hi - 1);
        assert(all_in_field(lf)) by {
            crate::field::lemma_fneg_zero(xs[hi - 1]);
            assert(in_field(lf[0]) && in_field(lf[1]));
            assert(forall|j: int| 0 <= j < lf.len() ==> in_field(#[trigger] lf[j]));
        }
        lemma_peval_pnorm(conv(prev, lf), z);
        lemma_peval_conv(prev, lf, z);
        lemma_peval_lin_factor(xs[hi - 1], z);
        if t == i || (t != i && t < hi) {
            let ep = peval(prev, z);
            let el = fsub(z, xs[hi - 1]);
            assert(peval(basis_num(xs, i, hi), z) == fmul(ep, el));
            if t == i {
                // matches the denominator's recursion
            } else if t == hi - 1 {
                assert(el == fsub(z, z));
                lemma_small_mod(0nat, MODULUS as nat);
                assert(el == 0);
                assert(ep * 0 == 0) by (nonlinear_arith);
                assert(fmul(ep, 0) == 0);
            } else {
                assert(ep == 0);
                assert(0 * el == 0) by (nonlinear_arith);
                assert(fmul(0, el) == 0);
            }
        }
    }
}

/// Scaling the coefficients scales the evaluation.
proof fn lemma_peval_pscale(s: Seq<int>, c: int, x: int)
    requires
        all_in_field(s),
        in_field(c),
        in_field(x),
    ensures
        peval(pscale(s, c), x) == fmul(c, peval(s, x)),
{
    let m = MODULUS as int;
    let t2 = Seq::new(s.len(), |k: int| (c * s[k]) % m);
    assert forall|j: int| 0 <= j < s.len() implies pscale(s, c)[j] == #[trigger] t2[j] by {
        assert(s[j] * c == c * s[j]) by (nonlinear_arith);
    }
    assert(pscale(s, c) =~= t2);
    lemma_peval_scale_raw(s, c, x);
}

/// The interpolating sum over the first `n` points passes through each of
/// them and evaluates to zero at every later point.
proof fn lemma_interp_eval(xs: Seq<int>, ys: Seq<int>, n: int, t: int)
    requires
        all_in_field(xs),
        all_in_field(ys),
        xs.len() == ys.len(),
        forall|a: int, b: int| 0 <= a < b < xs.len() ==> xs[a] != xs[b],
        0 <= n <= xs.len(),
        0 <= t < xs.len(),
    ensures
        peval(interp_sum(xs, ys, n), xs[t]) == (if t < n {
            ys[t]
        } else {
            0
        }),
    decreases n,
{
    let m = MODULUS as int;
    let z = xs[t];
    assert(in_field(z));
    if n <= 0 {
        assert(interp_sum(xs, ys, n) == seq![0int]);
        assert(seq![0int].drop_first().len() == 0);
        assert(peval(seq![0int].drop_first(), z) == 0);
        assert(z * 0 == 0) by (nonlinear_arith);
        lemma_small_mod(0nat, MODULUS as nat);
        assert(peval(seq![0int], z) == fadd(fmul(z, 0), 0));
    } else {
        let i = n - 1;
        lemma_interp_eval(xs, ys, n - 1, t);
        let acc = interp_sum(xs, ys, n - 1);
        let bn = basis_num(xs, i, xs.len() as int);
        let den = basis_den(xs, i, xs.len() as int);
        lemma_basis_num_wf(xs, i, xs.len() as int);
        lemma_basis_den_nonzero(xs, i, xs.len() as int);
        assert(in_field(ys[i]));
        lemma_fdiv_mul(ys[i], den);
        let c = fdiv(ys[i], den);
        let term = pnorm(pscale(bn, c));
        assert(all_in_field(pscale(bn, c))) by {
            assert forall|j: int| 0 <= j < pscale(bn, c).len() implies in_field(
                #[trigger] pscale(bn, c)[j],
            ) by {
                lemma_mod_in_field(bn[j] * c);
            }
        }
        lemma_pnorm_in_field(pscale(bn, c));
        assert(all_in_field(acc)) by {
            lemma_interp_in_field(xs, ys, n - 1);
        }
        lemma_peval_pnorm(padd(acc, term), z);
        lemma_peval_padd(acc, term, z);
        lemma_peval_pnorm(pscale(bn, c), z);
        lemma_peval_pscale(bn, c, z);
        lemma_basis_num_eval(xs, i, xs.len() as int, t);
        if t == i {
            assert(peval(bn, z) == den);
            assert(fmul(c, den) == ys[i]) by {
                lemma_fmul_comm(c, den);
            }
            assert(peval(acc, z) == 0);
            lemma_small_mod(ys[i] as nat, MODULUS as nat);
            assert(fadd(0, ys[i]) == ys[i]);
        } else {
            assert(peval(bn, z) == 0);
            assert(c * 0 == 0) by (nonlinear_arith);
            assert(fmul(c, 0) == 0) by {
                lemma_small_mod(0nat, MODULUS as nat);
            }
            assert(in_field(peval(acc, z))) by {
                lemma_peval_in_field(acc, z);
            }
            lemma_small_mod(peval(acc, z) as nat, MODULUS as nat);
            assert(fadd(peval(acc, z), 0) == peval(acc, z));
        }
    }
}

/// Every coefficient of an interpolating sum is a residue.
proof fn lemma_interp_in_field(xs: Seq<int>, ys: Seq<int>, n: int)
    ensures
        all_in_field(interp_sum(xs, ys, n)),
    decreases n,
{
    if n <= 0 {
        assert(forall|j: int|
            0 <= j < seq![0int].len() ==> in_field(#[trigger] seq![0int][j]));
    } else {
        let acc = interp_sum(xs, ys, n - 1);
        let term = pnorm(
            pscale(
                basis_num(xs, n - 1, xs.len() as int),
                fdiv(ys[n - 1], basis_den(xs, n - 1, xs.len() as int)),
            ),
        );
        let t = padd(acc, term);
        assert forall|j: int| 0 <= j < t.len() implies in_field(#[trigger] t[j]) by {
            lemma_mod_in_field(pget(acc, j) + pget(term, j));
        }
        lemma_pnorm_in_field(t);
    }
}

/// Interpolation round trip: the interpolating polynomial over distinct
/// points evaluates back to each given value at its point.
pub proof fn lemma_interpolate_round_trip(xs: Seq<int>, ys: Seq<int>, t: int)
    requires
        all_in_field(xs),
        all_in_field(ys),
        xs.len() == ys.len(),
        forall|a: int, b: int| 0 <= a < b < xs.len() ==> xs[a] != xs[b],
        0 <= t < xs.len(),
    ensures
        peval(interp_sum(xs, ys, xs.len() as int), xs[t]) == ys[t],
{
    lemma_interp_eval(xs, ys, xs.len() as int, t);
}

/// A polynomial over the prime field, the coefficient of the constant term
/// first. The stored vector is always canonical.
pub struct Polynomial {
    /// Coefficients from lowest to highest degree, in canonical form.
    pub coefficients: Vec<Fe>,
}

impl View for Polynomial {
    type V = Seq<int>;

    open spec fn view(&self) -> Seq<int> {
        coeff_view(self.coefficients@)
    }
}

impl Polynomial {
    /// Canonical form with every coefficient reduced.
    pub open spec fn wf(&self) -> bool {
        is_canonical(self@) && all_in_field(self@)
    }

    /// Builds a polynomial from coefficients ordered from the constant term
    /// upward, stripping trailing zeros down to canonical form.
    pub fn new(coefficients: Vec<Fe>) -> (r: Polynomial)
        requires
            all_in_field(coeff_view(coefficients@)),
        ensures
            r@ == pnorm(coeff_view(coefficients@)),
            r.wf(),
    {
        let ghost orig = coeff_view(coefficients@);
        let mut coeffs = coefficients;
        while coeffs.len() > 1 && coeffs[coeffs.len() - 1].is_zero()
            invariant
                pnorm(coeff_view(coeffs@)) == pnorm(orig),
                all_in_field(coeff_view(coeffs@)),
            decreases coeffs.len(),
        {
            let ghost before = coeff_view(coeffs@);
            coeffs.pop();
            proof {
                assert(coeff_view(coeffs@) =~= before.drop_last());
                assert(all_in_field(before.drop_last()));
            }
        }
        if coeffs.len() == 0 {
            coeffs.push(Fe::zero());
            proof {
                assert(coeff_view(coeffs@) =~= seq![0int]);
            }
        }
        proof {
            lemma_pnorm_of_canonical(coeff_view(coeffs@));
            lemma_pnorm_in_field(orig);
        }
        Polynomial { coefficients: coeffs }
    }

    /// The zero polynomial: one zero coefficient.
    pub fn zero() -> (r: Polynomial)
        ensures
            r@ == seq![0int],
            r.wf(),
            is_zero_poly(r@),
    {
        let mut coeffs: Vec<Fe> = Vec::new();
        coeffs.push(Fe::zero());
        proof {
            assert(coeff_view(coeffs@) =~= seq![0int]);
        }
        Polynomial { coefficients: coeffs }
    }

    /// Whether this is the zero polynomial.
    pub fn is_zero(&self) -> (r: bool)
        requires
            self.wf(),
        ensures
            r == is_zero_poly(self@),
    {
        self.coefficients.len() == 1 && self.coefficients[0].is_zero()
    }

    /// The degree: one less than the canonical length. The zero polynomial
    /// reports degree zero under this convention.
    pub fn degree(&self) -> (r: usize)
        requires
            self.wf(),
        ensures
            r == self@.len() - 1,
    {
        self.coefficients.len() - 1
    }

    /// The coefficient of the highest-degree term; zero only for the zero
    /// polynomial.
    pub fn leading_coefficient(&self) -> (r: Fe)
        requires
            self.wf(),
        ensures
            r@ == self@.last(),
            r.valid(),
    {
        proof {
            assert(in_field(self@[self@.len() - 1]));
        }
        self.coefficients[self.coefficients.len() - 1]
    }

    /// Term-by-term sum, the shorter operand padded with zeros, normalized.
    pub fn add(&self, other: &Polynomial) -> (r: Polynomial)
        requires
            self.wf(),
            other.wf(),
        ensures
            r@ == pnorm(padd(self@, other@)),
            r.wf(),
    {
        let n1 = self.coefficients.len();
        let n2 = other.coefficients.len();
        let n = if n1 < n2 {
            n2
        } else {
            n1
        };
        let mut out: Vec<Fe> = Vec::new();
        let mut i: usize = 0;
        while i < n
            invariant
                self.wf(),
                other.wf(),
                n1 == self.coefficients.len(),
                n2 == other.coefficients.len(),
                n == if n1 < n2 { n2 as int } else { n1 as int },
                i <= n,
                out@.len() == i,
                forall|j: int|
                    0 <= j < i ==> #[trigger] out@[j]@ == fadd(pget(self@, j), pget(other@, j))
                        && out@[j].valid(),
            decreases n - i,
        {
            let av = if i < n1 {
                self.coefficients[i]
            } else {
                Fe::zero()
            };
            let bv = if i < n2 {
                other.coefficients[i]
            } else {
                Fe::zero()
            };
            proof {
                if i < n1 {
                    assert(in_field(self@[i as int]));
                }
                if i < n2 {
                    assert(in_field(other@[i as int]));
                }
            }
            out.push(av.add(bv));
            i = i + 1;
        }
        proof {
            assert(coeff_view(out@) =~= padd(self@, other@));
        }
        Polynomial::new(out)
    }

    /// Negates every coefficient; the result is canonical.
    pub fn neg(&self) -> (r: Polynomial)
        requires
            self.wf(),
        ensures
            r@ == pnorm(pneg(self@)),
            r.wf(),
    {
        let n = self.coefficients.len();
        let mut out: Vec<Fe> = Vec::new();
        let mut i: usize = 0;
        while i < n
            invariant
                self.wf(),
                n == self.coefficients.len(),
                i <= n,
                out@.len() == i,
                forall|j: int|
                    0 <= j < i ==> #[trigger] out@[j]@ == fneg(self@[j]) && out@[j].valid(),
            decreases n - i,
        {
            proof {
                assert(in_field(self@[i as int]));
            }
            out.push(self.coefficients[i].neg());
            i = i + 1;
        }
        proof {
            assert(coeff_view(out@) =~= pneg(self@));
        }
        Polynomial::new(out)
    }

    /// Multiplies every coefficient by a constant, normalizing afterwards: a
    /// zero scalar collapses the result to the zero polynomial.
    pub fn mul_scalar(&self, scalar: &Fe) -> (r: Polynomial)
        requires
            self.wf(),
            scalar.valid(),
        ensures
            r@ == pnorm(pscale(self@, scalar@)),
            r.wf(),
    {
        let n = self.coefficients.len();
        let mut out: Vec<Fe> = Vec::new();
        let mut i: usize = 0;
        while i < n
            invariant
                self.wf(),
                scalar.valid(),
                n == self.coefficients.len(),
                i <= n,
                out@.len() == i,
                forall|j: int|
                    0 <= j < i ==> #[trigger] out@[j]@ == fmul(self@[j], scalar@)
                        && out@[j].valid(),
            decreases n - i,
        {
            proof {
                assert(in_field(self@[i as int]));
            }
            out.push(self.coefficients[i].mul(*scalar));
            i = i + 1;
        }
        proof {
            assert(coeff_view(out@) =~= pscale(self@, scalar@));
        }
        Polynomial::new(out)
    }

    /// The product polynomial: discrete convolution of the coefficient
    /// sequences, normalized.
    pub fn mul(&self, other: &Polynomial) -> (r: Polynomial)
        requires
            self.wf(),
            other.wf(),
            self@.len() + other@.len() <= usize::MAX,
        ensures
            r@ == pnorm(conv(self@, other@)),
            r.wf(),
    {
        let la = self.coefficients.len();
        let lb = other.coefficients.len();
        let n = la + lb - 1;
        let mut out: Vec<Fe> = Vec::new();
        let mut k: usize = 0;
        while k < n
            invariant
                self.wf(),
                other.wf(),
                la == self.coefficients.len(),
                lb == other.coefficients.len(),
                n == la + lb - 1,
                n <= usize::MAX,
                k <= n,
                out@.len() == k,
                forall|j: int|
                    0 <= j < k ==> #[trigger] out@[j]@ == convpre(self@, other@, j, j + 1) % (
                    MODULUS as int) && out@[j].valid(),
            decreases n - k,
        {
            let mut acc = Fe::zero();
            let mut i: usize = 0;
            proof {
                lemma_small_mod(0nat, MODULUS as nat);
            }
            while i <= k
                invariant
                    self.wf(),
                    other.wf(),
                    la == self.coefficients.len(),
                    lb == other.coefficients.len(),
                    k < n,
                    n == la + lb - 1,
                    n <= usize::MAX,
                    i <= k + 1,
                    acc.valid(),
                    acc@ == convpre(self@, other@, k as int, i as int) % (MODULUS as int),
                decreases k + 1 - i,
            {
                if i < la && k - i < lb {
                    proof {
                        assert(in_field(self@[i as int]));
                        assert(in_field(other@[k - i]));
                        lemma_add_mod_noop(
                            convpre(self@, other@, k as int, i as int),
                            self@[i as int] * other@[k - i],
                            MODULUS as int,
                        );
                    }
                    acc = acc.add(self.coefficients[i].mul(other.coefficients[k - i]));
                }
                i = i + 1;
            }
            out.push(acc);
            k = k + 1;
        }
        proof {
            assert(coeff_view(out@) =~= conv(self@, other@));
        }
        Polynomial::new(out)
    }

    /// Division with remainder: returns `(quotient, remainder)` by long
    /// division, the remainder's degree below the divisor's. The divisor
    /// must not be the zero polynomial.
    pub fn divmod(&self, divisor: &Polynomial) -> (qr: (Polynomial, Polynomial))
        requires
            self.wf(),
            divisor.wf(),
            !is_zero_poly(divisor@),
        ensures
            qr.0@ == pdivmod(self@, divisor@).0,
            qr.1@ == pdivmod(self@, divisor@).1,
            qr.0.wf(),
            qr.1.wf(),
            is_zero_poly(qr.1@) || qr.1@.len() < divisor@.len(),
        decreases self@.len(), (if is_zero_poly(self@) { 0int } else { 1int }),
    {
        if self.is_zero() || self.coefficients.len() < divisor.coefficients.len() {
            return (Polynomial::zero(), self.clone());
        }
        let lb = divisor.coefficients.len();
        let n1 = self.coefficients.len();
        proof {
            assert(in_field(divisor@[lb - 1]));
            assert(divisor@.last() != 0);
            assert(in_field(self@[n1 - 1]));
            assert(self@.last() != 0);
        }
        let dl = divisor.leading_coefficient();
        let pl = self.leading_coefficient();
        let c = pl.div(dl);
        let e = n1 - lb;
        let mut red: Vec<Fe> = Vec::new();
        let mut i: usize = 0;
        while i < n1 - 1
            invariant
                self.wf(),
                divisor.wf(),
                c.valid(),
                n1 == self.coefficients.len(),
                lb == divisor.coefficients.len(),
                1 <= lb <= n1,
                e == n1 - lb,
                i <= n1 - 1,
                red@.len() == i,
                forall|j: int|
                    0 <= j < i ==> #[trigger] red@[j]@ == reduce_step(self@, divisor@, c@)[j]
                        && red@[j].valid(),
            decreases n1 - 1 - i,
        {
            proof {
                assert(in_field(self@[i as int]));
                if i >= e {
                    assert(in_field(divisor@[i - e]));
                }
            }
            let v = if i >= e {
                self.coefficients[i].sub(c.mul(divisor.coefficients[i - e]))
            } else {
                self.coefficients[i]
            };
            red.push(v);
            i = i + 1;
        }
        proof {
            assert(coeff_view(red@) =~= reduce_step(self@, divisor@, c@));
            lemma_pnorm_shape(reduce_step(self@, divisor@, c@));
        }
        let p2 = Polynomial::new(red);
        let (q2, rem) = p2.divmod(divisor);
        let mut mono: Vec<Fe> = Vec::new();
        let mut j: usize = 0;
        while j < e
            invariant
                j <= e,
                mono@.len() == j,
                forall|t: int| 0 <= t < j ==> #[trigger] mono@[t]@ == 0 && mono@[t].valid(),
            decreases e - j,
        {
            mono.push(Fe::zero());
            j = j + 1;
        }
        mono.push(c);
        proof {
            assert(coeff_view(mono@) =~= monomial(c@, e as int));
            // the monomial's coefficient is nonzero, since the dividend's
            // leading coefficient is
            if c@ == 0 {
                assert(fmul(0, dl@) == (0 * dl@) % (MODULUS as int));
                assert(0 * dl@ == 0) by (nonlinear_arith);
                lemma_small_mod(0nat, MODULUS as nat);
                assert(fmul(c@, dl@) == pl@);
                assert(false);
            }
            assert(is_canonical(monomial(c@, e as int)));
        }
        let monop = Polynomial::new(mono);
        proof {
            lemma_pnorm_of_canonical(monomial(c@, e as int));
        }
        let q = q2.add(&monop);
        (q, rem)
    }

    /// Lagrange interpolation: the polynomial of least degree passing
    /// through the given points. The x-coordinates must be pairwise
    /// distinct; each denominator is then a nonzero field element.
    pub fn interpolate(xs: &Vec<Fe>, ys: &Vec<Fe>) -> (r: Polynomial)
        requires
            xs@.len() == ys@.len(),
            all_in_field(coeff_view(xs@)),
            all_in_field(coeff_view(ys@)),
            forall|a: int, b: int|
                0 <= a < b < xs@.len() ==> coeff_view(xs@)[a] != coeff_view(xs@)[b],
            xs@.len() + 3 <= usize::MAX,
        ensures
            r@ == interp_sum(coeff_view(xs@), coeff_view(ys@), xs@.len() as int),
            r.wf(),
    {
        let ghost xsv = coeff_view(xs@);
        let ghost ysv = coeff_view(ys@);
        let n = xs.len();
        let mut f = Polynomial::zero();
        let mut i: usize = 0;
        proof {
            assert(f@ == interp_sum(xsv, ysv, 0));
        }
        while i < n
            invariant
                xs@.len() == ys@.len(),
                all_in_field(xsv),
                all_in_field(ysv),
                xsv == coeff_view(xs@),
                ysv == coeff_view(ys@),
                forall|a: int, b: int| 0 <= a < b < xsv.len() ==> xsv[a] != xsv[b],
                n == xs@.len(),
                n + 3 <= usize::MAX,
                i <= n,
                f.wf(),
                f@ == interp_sum(xsv, ysv, i as int),
            decreases n - i,
        {
            let xi = xs[i];
            let yi = ys[i];
            proof {
                assert(in_field(xsv[i as int]));
                assert(in_field(ysv[i as int]));
            }
            let mut start: Vec<Fe> = Vec::new();
            start.push(Fe::one());
            proof {
                assert(coeff_view(start@) =~= seq![1int]);
            }
            let mut num = Polynomial::new(start);
            let mut den = Fe::one();
            let mut j: usize = 0;
            proof {
                assert(num@ == basis_num(xsv, i as int, 0));
                assert(den@ == basis_den(xsv, i as int, 0));
            }
            while j < n
                invariant
                    xs@.len() == ys@.len(),
                    all_in_field(xsv),
                    xsv == coeff_view(xs@),
                    forall|a: int, b: int| 0 <= a < b < xsv.len() ==> xsv[a] != xsv[b],
                    n == xs@.len(),
                    n + 3 <= usize::MAX,
                    i < n,
                    j <= n,
                    xi == xs@[i as int],
                    xi.valid(),
                    num.wf(),
                    num@ == basis_num(xsv, i as int, j as int),
                    num@.len() <= j + 1,
                    den.valid(),
                    den@ == basis_den(xsv, i as int, j as int),
                    den@ != 0,
                decreases n - j,
            {
                if i != j {
                    proof {
                        assert(in_field(xsv[j as int]));
                        if i < j {
                            assert(xsv[i as int] != xsv[j as int]);
                        } else {
                            assert(xsv[j as int] != xsv[i as int]);
                        }
                        lemma_fsub_nonzero(xsv[i as int], xsv[j as int]);
                        lemma_fmul_nonzero(den@, fsub(xsv[i as int], xsv[j as int]));
                    }
                    let mut lv: Vec<Fe> = Vec::new();
                    lv.push(xs[j].neg());
                    lv.push(Fe::one());
                    proof {
                        crate::field::lemma_fneg_zero(xsv[j as int]);
                        assert(coeff_view(lv@) =~= lin_factor(xsv[j as int]));
                        assert(is_canonical(lin_factor(xsv[j as int])));
                    }
                    let lp = Polynomial::new(lv);
                    proof {
                        lemma_pnorm_of_canonical(lin_factor(xsv[j as int]));
                        lemma_pnorm_shape(conv(num@, lp@));
                    }
                    num = num.mul(&lp);
                    den = den.mul(xi.sub(xs[j]));
                }
                j = j + 1;
            }
            let term = num.mul_scalar(&yi.div(den));
            f = f.add(&term);
            i = i + 1;
        }
        f
    }

    /// Evaluates the polynomial at `x` by Horner's method.
    pub fn eval_at(&self, x: Fe) -> (r: Fe)
        requires
            self.wf(),
            x.valid(),
        ensures
            r@ == peval(self@, x@),
            r.valid(),
    {
        let n = self.coefficients.len();
        let mut i: usize = n - 1;
        let mut y = self.leading_coefficient();
        proof {
            assert(self@.skip(n - 1).len() == 1);
            assert(self@.skip(n - 1).first() == self@[n - 1]);
            assert(self@.skip(n - 1).drop_first().len() == 0);
            lemma_small_mod(0nat, MODULUS as nat);
            assert(x@ * 0 == 0) by (nonlinear_arith);
            assert(fmul(x@, 0) == 0);
            assert(in_field(self@[n - 1]));
            lemma_small_mod(self@[n - 1] as nat, MODULUS as nat);
            assert(fadd(0, self@[n - 1]) == self@[n - 1]);
            assert(peval(self@.skip(n - 1), x@) == fadd(
                fmul(x@, peval(self@.skip(n - 1).drop_first(), x@)),
                self@.skip(n - 1).first(),
            ));
            assert(peval(self@.skip(n - 1).drop_first(), x@) == 0);
            assert(y@ == peval(self@.skip(n - 1), x@));
        }
        while i > 0
            invariant
                self.wf(),
                x.valid(),
                n == self.coefficients.len(),
                i < n,
                y.valid(),
                y@ == peval(self@.skip(i as int), x@),
            decreases i,
        {
            i = i - 1;
            proof {
                assert(in_field(self@[i as int]));
                assert(self@.skip(i as int).drop_first() =~= self@.skip(i + 1));
                assert(self@.skip(i as int).first() == self@[i as int]);
                lemma_fmul_comm(y@, x@);
            }
            y = y.mul(x).add(self.coefficients[i]);
        }
        proof {
            assert(self@.skip(0) =~= self@);
        }
        y
    }

    /// An independently owned copy.
    pub fn clone(&self) -> (r: Polynomial)
        requires
            self.wf(),
        ensures
            r@ == self@,
            r.wf(),
    {
        let mut coeffs: Vec<Fe> = Vec::new();
        let mut i: usize = 0;
        while i < self.coefficients.len()
            invariant
                i <= self.coefficients.len(),
                coeffs@.len() == i,
                forall|j: int| 0 <= j < i ==> coeffs@[j] == self.coefficients@[j],
            decreases self.coefficients.len() - i,
        {
            coeffs.push(self.coefficients[i]);
            i = i + 1;
        }
        proof {
            assert(coeff_view(coeffs@) =~= self@);
        }
        Polynomial { coefficients: coeffs }
    }
}

} // verus!
