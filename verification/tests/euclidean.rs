use finitefield::euclidean::{extended_euclidean, gcd};

// prints out triples in a pretty format for debugging
fn print_triple(triple: (i64, i64, i64)) -> String {
    format!("({}, {}, {})", triple.0, triple.1, triple.2)
}

// tells whether the triples hold the same values in some order
fn triples_match(triple1: (i64, i64, i64), triple2: (i64, i64, i64)) -> bool {
    let mut triple1_vec = vec![triple1.0, triple1.1, triple1.2];
    let mut triple2_vec = vec![triple2.0, triple2.1, triple2.2];

    triple1_vec.sort();
    triple2_vec.sort();

    triple1_vec == triple2_vec
}

#[test]
fn test_gcd() {
    assert_eq!(gcd(12, 24), 12);
    assert_eq!(gcd(16, 36), 4);
    assert_eq!(gcd(39, 17), 1);
    assert_eq!(gcd(5, 18), 1);
    assert_eq!(gcd(0, 3), 3);
    assert_eq!(gcd(2689, 4001), 1);
    assert_eq!(gcd(1819, 3587), 17);
    assert_eq!(gcd(864, 468), 36);
}

#[test]
fn test_extended_euclidean() {
    let results = vec![
        extended_euclidean(84, 18),
        extended_euclidean(35, 15),
        extended_euclidean(30, 20),
        extended_euclidean(32, 18),
        extended_euclidean(17, 17),
    ];

    let expected = vec![(-1, 5, 6), (5, 1, -2), (10, 1, -1), (2, 4, -7), (0, 1, 17)];

    for i in 0..results.len() {
        let left: String = print_triple(results[i]);
        let right: String = print_triple(expected[i]);
        assert!(
            triples_match(results[i], expected[i]),
            "left: {}, right: {}",
            left,
            right
        );
    }
}

#[test]
fn test_bezout_identity_holds() {
    let pairs = vec![
        (84i64, 18i64),
        (18, 84),
        (35, 15),
        (0, 7),
        (7, 0),
        (1, 1),
        (-12, 18),
        (12, -18),
        (-12, -18),
        (2689, 4001),
    ];
    for (a, b) in pairs {
        let (x, y, d) = extended_euclidean(a, b);
        assert_eq!(a * x + b * y, d, "Bezout fails for ({}, {})", a, b);
        if d != 0 {
            assert_eq!(a % d, 0);
            assert_eq!(b % d, 0);
        } else {
            assert_eq!(a, 0);
            assert_eq!(b, 0);
        }
    }
}

#[test]
fn test_gcd_negative_operands() {
    // the sign follows the last nonzero remainder; magnitudes match the
    // nonnegative cases
    assert_eq!(gcd(-12, 18).abs(), 6);
    assert_eq!(gcd(12, -18).abs(), 6);
    assert_eq!(gcd(-12, -18).abs(), 6);
    assert_eq!(gcd(0, 0), 0);
}
