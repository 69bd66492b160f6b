use modular_arithmetic::congruence::{resolve, Resolution};

#[test]
fn no_solution_4_7_12() {
    // gcd(4, 12) == 4 and 7 is not a multiple of 4.
    match resolve(4, 7, 12) {
        Resolution::NoSolution { bezout, b_used } => {
            assert_eq!(bezout.r, 4);
            assert_eq!(b_used, 7);
        },
        other => panic!("expected NoSolution, got {:?}", other),
    }
}

#[test]
fn unique_3_4_5() {
    // gcd(3, 5) == 1 divides everything; the residue must literally
    // satisfy 3*x ≡ 4 (mod 5).
    match resolve(3, 4, 5) {
        Resolution::Unique { residue, modulus, b_used, .. } => {
            assert_eq!(modulus, 5);
            assert_eq!(b_used, 4);
            assert_eq!((3 * residue - 4) % 5, 0);
            assert_eq!(residue, 3);
        },
        other => panic!("expected Unique, got {:?}", other),
    }
}

#[test]
fn always_true_modulus_one() {
    assert_eq!(resolve(5, 0, 1), Resolution::AlwaysTrue);
    assert_eq!(resolve(123, -9, 1), Resolution::AlwaysTrue);
}

#[test]
fn invalid_modulus_zero() {
    assert_eq!(resolve(4, 7, 0), Resolution::InvalidModulus);
    assert_eq!(resolve(0, 0, 0), Resolution::InvalidModulus);
    assert_eq!(resolve(-5, 123456, 0), Resolution::InvalidModulus);
}

#[test]
fn idempotent_resolution() {
    // Resolution is pure: identical inputs give identical outcomes.
    let cases: [(i128, i128, i128); 4] = [(3, 4, 5), (4, 7, 12), (7, 7, 7), (17, 99, 1000)];
    for (a, b, c) in cases {
        assert_eq!(resolve(a, b, c), resolve(a, b, c));
    }
}

#[test]
fn normalizes_large_rhs() {
    // B outside [0, C) is reduced by the truncating remainder first, and
    // the reduced value is reported.
    match resolve(3, 9, 5) {
        Resolution::Unique { residue, b_used, .. } => {
            assert_eq!(b_used, 4);
            assert_eq!(residue, 3);
        },
        other => panic!("expected Unique, got {:?}", other),
    }
}

#[test]
fn degenerate_equal_inputs() {
    // a == c gives the two-element chain [a, a], too short to fold.
    assert_eq!(resolve(7, 3, 7), Resolution::Degenerate);
}

#[test]
fn degenerate_exact_division() {
    // c divides a exactly, so no intermediate remainder exists.
    assert_eq!(resolve(12, 5, 4), Resolution::Degenerate);
    assert_eq!(resolve(0, 3, 9), Resolution::Degenerate);
}

#[test]
fn degenerate_extreme_inputs() {
    assert_eq!(resolve(i128::MIN, 1, i128::MIN), Resolution::Degenerate);
}

#[test]
fn unique_larger_case() {
    // 5*x ≡ 3 (mod 7): gcd is 1, solution x ≡ 2 (mod 7).
    match resolve(5, 3, 7) {
        Resolution::Unique { residue, modulus, .. } => {
            assert_eq!(modulus, 7);
            assert_eq!(((5 * residue - 3) % 7 + 7) % 7, 0);
        },
        other => panic!("expected Unique, got {:?}", other),
    }
}

#[test]
fn unique_with_common_factor() {
    // 4*x ≡ 8 (mod 12): gcd(4, 12) == 4 divides 8.
    match resolve(4, 8, 12) {
        Resolution::Unique { bezout, residue, modulus, .. } => {
            assert_eq!(bezout.r, 4);
            assert_eq!(modulus, 12);
            assert_eq!(((4 * residue - 8) % 12 + 12) % 12, 0);
        },
        other => panic!("expected Unique, got {:?}", other),
    }
}

#[test]
fn normalizes_negative_rhs() {
    // A negative B is reduced by the truncating remainder, which keeps
    // its sign: -17 % 12 == -5, not a multiple of gcd(3, 12) == 3.
    match resolve(3, -17, 12) {
        Resolution::NoSolution { bezout, b_used } => {
            assert_eq!(bezout.r, 3);
            assert_eq!(b_used, -5);
        },
        other => panic!("expected NoSolution, got {:?}", other),
    }
}

#[test]
fn negative_modulus() {
    // A negative modulus is neither zero nor one, so the algorithm runs.
    match resolve(5, 2, -3) {
        Resolution::Unique { residue, modulus, b_used, .. } => {
            assert_eq!(modulus, -3);
            assert_eq!(b_used, 2 % -3);
            assert_eq!((5 * residue - b_used) % 3, 0);
        },
        other => panic!("expected Unique, got {:?}", other),
    }
}
