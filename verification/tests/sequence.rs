use modular_arithmetic::sequence::forward;

#[test]
fn forward_30_18() {
    // 30 = 1*18 + 12, 18 = 1*12 + 6, 12 = 2*6 + 0: the chain stops at the
    // gcd and never records the zero remainder.
    assert_eq!(forward(30, 18), vec![30, 18, 12, 6]);
}

#[test]
fn forward_zero_divisor() {
    assert_eq!(forward(5, 0), vec![5]);
    assert_eq!(forward(0, 0), vec![0]);
}

#[test]
fn forward_zero_dividend() {
    assert_eq!(forward(0, 5), vec![0, 5]);
}

#[test]
fn forward_equal_inputs() {
    // a == b terminates after a single division step.
    assert_eq!(forward(7, 7), vec![7, 7]);
}

#[test]
fn forward_exact_division() {
    assert_eq!(forward(18, 6), vec![18, 6]);
}

#[test]
fn forward_negative_inputs() {
    // Truncating remainders keep the dividend's sign, so a negative pair
    // yields a negative chain.
    assert_eq!(forward(-30, -18), vec![-30, -18, -12, -6]);
    assert_eq!(forward(-30, 18), vec![-30, 18, -12, 6]);
    assert_eq!(forward(30, -18), vec![30, -18, 12, -6]);
}

#[test]
fn forward_smaller_first() {
    // When a < b the first step swaps the pair.
    assert_eq!(forward(18, 30), vec![18, 30, 18, 12, 6]);
}

#[test]
fn forward_extreme_values() {
    assert_eq!(forward(i128::MAX, 1), vec![i128::MAX, 1]);
    assert_eq!(forward(i128::MIN, i128::MIN), vec![i128::MIN, i128::MIN]);
    assert_eq!(forward(i128::MIN, 1), vec![i128::MIN, 1]);
}
