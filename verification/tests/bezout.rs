use modular_arithmetic::bezout::{backward, Equation};
use modular_arithmetic::sequence::forward;

#[test]
fn bezout_30_18() {
    // The worked trace: folding [30, 18, 12, 6] must yield exactly
    // 6 = (-1)*30 + 2*18.
    let v = forward(30, 18);
    let e = backward(&v).unwrap();
    assert_eq!(e, Equation { r: 6, x: 30, q: 18, n: -1, m: 2 });
    assert_eq!(e.n * e.x + e.m * e.q, e.r);
}

#[test]
fn bezout_identity_various_pairs() {
    // The folded identity n*a + m*b == gcd(a, b) holds exactly, with the
    // equation spanning the chain's first two values.
    let cases: [(i128, i128, i128); 5] =
        [(240, 46, 2), (3, 5, 1), (7, 3, 1), (1071, 462, 21), (270, 192, 6)];
    for (a, b, g) in cases {
        let v = forward(a, b);
        let e = backward(&v).unwrap();
        assert_eq!(e.x, a);
        assert_eq!(e.q, b);
        assert_eq!(e.r, g);
        assert_eq!(e.n * a + e.m * b, g);
    }
}

#[test]
fn bezout_negative_pair() {
    let v = forward(-30, -18);
    let e = backward(&v).unwrap();
    assert_eq!(e.r, -6);
    assert_eq!(e.n * -30 + e.m * -18, -6);
}

#[test]
fn bezout_short_chains() {
    // Fewer than three elements cannot seed an identity.
    assert_eq!(backward(&vec![]), None);
    assert_eq!(backward(&vec![5]), None);
    assert_eq!(backward(&vec![18, 6]), None);
}

#[test]
fn bezout_zero_divisor_in_chain() {
    // A malformed chain whose seed would divide by zero fails instead of
    // panicking.
    assert_eq!(backward(&vec![1, 0, 5]), None);
}

#[test]
fn substitute_mismatched_chain() {
    // e2 must express the value e1 refers to as q.
    let e1 = Equation { r: 6, x: 18, q: 12, n: 1, m: -1 };
    let e2 = Equation { r: 11, x: 30, q: 18, n: 1, m: -1 };
    assert_eq!(Equation::substitute(&e2, &e1), None);
}

#[test]
fn substitute_worked_step() {
    let e1 = Equation { r: 6, x: 18, q: 12, n: 1, m: -1 };
    let e2 = Equation { r: 12, x: 30, q: 18, n: 1, m: -1 };
    let e = Equation::substitute(&e2, &e1).unwrap();
    assert_eq!(e, Equation { r: 6, x: 30, q: 18, n: -1, m: 2 });
}

#[test]
fn substitute_overflowing_coefficient() {
    // A combined coefficient that leaves i128 makes the fold fail rather
    // than wrap.
    let e1 = Equation { r: 1, x: 0, q: 0, n: 1, m: i128::MAX };
    let e2 = Equation { r: 0, x: 0, q: 0, n: 2, m: 2 };
    assert_eq!(Equation::substitute(&e2, &e1), None);
}
