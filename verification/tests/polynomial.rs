use finitefield::field::{Fe, MODULUS};
use finitefield::polynomial::Polynomial;

fn poly(vals: &[u64]) -> Polynomial {
    let coeffs: Vec<Fe> = vals.iter().map(|v| Fe::new(*v)).collect();
    Polynomial::new(coeffs)
}

fn coeffs(p: &Polynomial) -> Vec<u64> {
    p.coefficients.iter().map(|c| c.residue()).collect()
}

#[test]
fn test_field_inverses() {
    for c in 1..MODULUS {
        let e = Fe::new(c);
        let i = e.inv();
        assert_eq!(e.mul(i).residue(), 1, "inverse fails for {}", c);
    }
}

#[test]
fn test_field_division_exact() {
    for a in 0..MODULUS {
        for b in 1..MODULUS {
            let q = Fe::new(a).div(Fe::new(b));
            assert_eq!(q.mul(Fe::new(b)).residue(), a % MODULUS);
        }
    }
}

#[test]
fn test_normalization_strips_trailing_zeros() {
    let with_zeros = poly(&[1, 2, 0, 0]);
    let without = poly(&[1, 2]);
    assert_eq!(coeffs(&with_zeros), coeffs(&without));
    assert_eq!(with_zeros.degree(), 1);
}

#[test]
fn test_normalization_of_all_zeros() {
    let z = poly(&[0, 0, 0]);
    assert!(z.is_zero());
    assert_eq!(coeffs(&z), vec![0]);
    assert_eq!(z.degree(), 0);
    let empty = poly(&[]);
    assert!(empty.is_zero());
    assert_eq!(coeffs(&empty), vec![0]);
}

#[test]
fn test_add_zero_identity() {
    let p = poly(&[3, 0, 7, 12]);
    let sum = p.add(&Polynomial::zero());
    assert_eq!(coeffs(&sum), coeffs(&p));
}

#[test]
fn test_add_neg_gives_zero() {
    let p = poly(&[3, 0, 7, 12]);
    let sum = p.add(&p.neg());
    assert!(sum.is_zero());
}

#[test]
fn test_add_with_carry_cancellation() {
    // leading terms cancel, so the sum has lower degree
    let p = poly(&[1, 2, 5]);
    let q = poly(&[4, 9, MODULUS - 5]);
    let sum = p.add(&q);
    assert_eq!(coeffs(&sum), vec![5, 11]);
}

#[test]
fn test_mul_degree_law() {
    let p = poly(&[1, 0, 3]);
    let q = poly(&[7, 2, 0, 5]);
    let prod = p.mul(&q);
    assert_eq!(prod.degree(), p.degree() + q.degree());
}

#[test]
fn test_mul_known_product() {
    // (1 + x) * (1 + x) = 1 + 2x + x^2
    let p = poly(&[1, 1]);
    let sq = p.mul(&p);
    assert_eq!(coeffs(&sq), vec![1, 2, 1]);
    // (2 + 3x) * (4 + 5x) = 8 + 22x + 15x^2
    let a = poly(&[2, 3]);
    let b = poly(&[4, 5]);
    assert_eq!(coeffs(&a.mul(&b)), vec![8, 22, 15]);
}

#[test]
fn test_mul_scalar_by_zero_collapses() {
    let p = poly(&[1, 2, 3]);
    let z = p.mul_scalar(&Fe::new(0));
    assert!(z.is_zero());
}

#[test]
fn test_divmod_reconstructs_dividend() {
    let p = poly(&[7, 30, 2, 1]);
    let d = poly(&[2, 1]);
    let (q, r) = p.divmod(&d);
    assert!(r.is_zero() || r.degree() < d.degree());
    let back = q.mul(&d).add(&r);
    assert_eq!(coeffs(&back), coeffs(&p));
}

#[test]
fn test_divmod_low_degree_dividend() {
    let p = poly(&[5]);
    let d = poly(&[0, 0, 1]);
    let (q, r) = p.divmod(&d);
    assert!(q.is_zero());
    assert_eq!(coeffs(&r), vec![5]);
}

#[test]
fn test_divmod_exact_division() {
    // (1 + x)^2 divided by (1 + x) leaves no remainder
    let p = poly(&[1, 2, 1]);
    let d = poly(&[1, 1]);
    let (q, r) = p.divmod(&d);
    assert!(r.is_zero());
    assert_eq!(coeffs(&q), vec![1, 1]);
}

#[test]
fn test_eval_matches_weighted_sum() {
    let vals: [u64; 4] = [2, 3, 5, 11];
    let p = poly(&vals);
    for x in 0..MODULUS {
        let mut direct: u64 = 0;
        let mut xpow: u64 = 1;
        for c in vals.iter() {
            direct = (direct + c * xpow) % MODULUS;
            xpow = (xpow * x) % MODULUS;
        }
        assert_eq!(p.eval_at(Fe::new(x)).residue(), direct);
    }
}

#[test]
fn test_eval_zero_polynomial() {
    let z = Polynomial::zero();
    assert_eq!(z.eval_at(Fe::new(17)).residue(), 0);
}

#[test]
fn test_interpolate_round_trip() {
    let xs: Vec<Fe> = vec![1, 2, 3].into_iter().map(Fe::new).collect();
    let ys: Vec<Fe> = vec![5, 11, 8].into_iter().map(Fe::new).collect();
    let f = Polynomial::interpolate(&xs, &ys);
    for i in 0..xs.len() {
        assert_eq!(f.eval_at(xs[i]).residue(), ys[i].residue());
    }
}

#[test]
fn test_interpolate_many_points() {
    let xs: Vec<Fe> = (0..7u64).map(Fe::new).collect();
    let ys: Vec<Fe> = vec![3, 1, 4, 1, 5, 9, 2].into_iter().map(Fe::new).collect();
    let f = Polynomial::interpolate(&xs, &ys);
    assert!(f.degree() < xs.len());
    for i in 0..xs.len() {
        assert_eq!(f.eval_at(xs[i]).residue(), ys[i].residue());
    }
}

#[test]
fn test_interpolate_single_point() {
    let xs: Vec<Fe> = vec![Fe::new(4)];
    let ys: Vec<Fe> = vec![Fe::new(9)];
    let f = Polynomial::interpolate(&xs, &ys);
    assert_eq!(coeffs(&f), vec![9]);
}

#[test]
fn test_leading_coefficient_and_clone() {
    let p = poly(&[4, 0, 9]);
    assert_eq!(p.leading_coefficient().residue(), 9);
    let c = p.clone();
    assert_eq!(coeffs(&c), coeffs(&p));
}
