use hmm::fixed::{neg_log2, saturating_sum, FRACTION_BITS, INFINITE, MANTISSA_ONE, ONE};

#[test]
fn constants_fit_together() {
    assert_eq!(ONE, 1i64 << FRACTION_BITS);
    assert_eq!(INFINITE, i64::MAX);
    assert_eq!(MANTISSA_ONE, 1u64 << 62);
}

#[test]
fn sum_inside_the_range_is_exact() {
    assert_eq!(saturating_sum(1, 2), 3);
    assert_eq!(saturating_sum(-5, 2), -3);
    assert_eq!(saturating_sum(i64::MAX - 1, i64::MIN), -2);
    assert_eq!(saturating_sum(i64::MAX - 2, 1), i64::MAX - 1);
}

#[test]
fn sum_outside_the_range_saturates() {
    assert_eq!(saturating_sum(i64::MAX, 1), i64::MAX);
    assert_eq!(saturating_sum(1, i64::MAX), i64::MAX);
    assert_eq!(saturating_sum(i64::MIN, -1), i64::MIN);
    assert_eq!(saturating_sum(-1, i64::MIN), i64::MIN);
    assert_eq!(saturating_sum(INFINITE, INFINITE), INFINITE);
}

#[test]
fn infinite_stays_infinite() {
    assert_eq!(saturating_sum(INFINITE, 0), INFINITE);
    assert_eq!(saturating_sum(INFINITE, -ONE), INFINITE);
    assert_eq!(saturating_sum(-ONE, INFINITE), INFINITE);
    assert_eq!(saturating_sum(INFINITE, i64::MIN), INFINITE);
    assert_eq!(saturating_sum(i64::MIN, INFINITE), INFINITE);
}

#[test]
fn logarithm_of_powers_of_two_is_exact() {
    assert_eq!(neg_log2(ONE), 0);
    assert_eq!(neg_log2(ONE / 2), ONE);
    assert_eq!(neg_log2(ONE / 4), 2 * ONE);
    assert_eq!(neg_log2(2 * ONE), -ONE);
    assert_eq!(neg_log2(1), 32 * ONE);
    assert_eq!(neg_log2(1i64 << 62), -30 * ONE);
}

#[test]
fn logarithm_of_zero_is_infinite() {
    assert_eq!(neg_log2(0), INFINITE);
}

#[test]
fn logarithm_rounds_towards_higher_cost() {
    // -log2(3/4) * 2^32 = 1782572486.6...
    assert_eq!(neg_log2(3 * (ONE / 4)), 1782572487);
    // -log2(3) * 2^32 = -6807362105.3...
    assert_eq!(neg_log2(3 * ONE), -6807362105);
    // -log2(2^63 - 1) + 32, times 2^32: just above -31
    assert_eq!(neg_log2(i64::MAX), -133143986175);
}

#[test]
fn logarithm_falls_as_the_number_grows() {
    let xs: [i64; 8] = [1, 2, 3, 1000, ONE - 1, ONE, ONE + 1, i64::MAX];
    for w in xs.windows(2) {
        assert!(neg_log2(w[0]) >= neg_log2(w[1]));
    }
}

#[test]
fn logarithm_agrees_with_floating_point() {
    let xs: [i64; 6] = [5, 77, 123_456_789, ONE / 3, 7 * ONE + 12345, 1 << 50];
    for &x in xs.iter() {
        let exact = -((x as f64) / 4294967296.0).log2() * 4294967296.0;
        let got = neg_log2(x) as f64;
        assert!((got - exact).abs() <= 4096.0);
    }
}

#[test]
fn sum_never_falls_when_an_operand_grows() {
    let xs: [i64; 7] = [i64::MIN, -ONE, -1, 0, 1, ONE, INFINITE];
    for &c in xs.iter() {
        for w in xs.windows(2) {
            assert!(saturating_sum(w[0], c) <= saturating_sum(w[1], c));
            assert!(saturating_sum(c, w[0]) <= saturating_sum(c, w[1]));
        }
    }
}
