use flightlive::measure::Real;

fn num(x: f64) -> Real {
    Real { bits: x.to_bits() }
}

const SAMPLES: [f64; 24] = [
    0.0,
    -0.0,
    5e-324,
    -5e-324,
    0.25,
    0.49999999999999994,
    0.5,
    -0.5,
    0.9999999999999999,
    1.0,
    -1.0,
    1.5,
    2.0,
    5.999999999999999,
    6.0,
    250.0,
    -2.5,
    2147483647.5,
    -2147483649.0,
    9.3e18,
    -9.3e18,
    f64::MAX,
    f64::INFINITY,
    f64::NEG_INFINITY,
];

#[test]
fn order_is_that_of_the_numbers() {
    for a in SAMPLES {
        for b in SAMPLES {
            assert_eq!(num(a).is_less(num(b)), a < b, "{} < {}", a, b);
            assert_eq!(num(a).is_at_most(num(b)), a <= b, "{} <= {}", a, b);
        }
    }
}

#[test]
fn nothing_is_said_of_what_is_no_number() {
    let nan = num(f64::NAN);
    assert!(nan.not_a_number());
    assert!(!num(f64::INFINITY).not_a_number());
    for a in SAMPLES {
        assert!(!nan.is_less(num(a)) && !num(a).is_less(nan));
        assert!(!nan.is_at_most(num(a)) && !num(a).is_at_most(nan));
    }
    assert!(!nan.is_below(3) && !nan.is_above(3) && !nan.is_at_least(3));
    assert!(!nan.is_below_half() && !nan.is_below_minus(3));
}

#[test]
fn comparisons_with_whole_numbers() {
    for a in SAMPLES {
        for n in [0u64, 1, 2, 6, 250, 6000] {
            let m = n as f64;
            assert_eq!(num(a).is_below(n), a < m);
            assert_eq!(num(a).is_above(n), a > m);
            assert_eq!(num(a).is_at_least(n), a >= m);
            assert_eq!(num(a).is_below_minus(n), a < -m);
        }
        assert_eq!(num(a).is_below_half(), a < 0.5);
    }
}

#[test]
fn whole_numbers_have_their_patterns() {
    for n in [0u64, 1, 2, 3, 10, 55, 60, 240, 10_000, 4_503_599_627_370_495, 9_007_199_254_740_991] {
        assert_eq!(Real::whole(n).bits, (n as f64).to_bits());
    }
    assert_eq!(Real::zero().bits, 0);
    assert_eq!(Real::half().bits, 0.5f64.to_bits());
    assert_eq!(Real::largest().bits, f64::MAX.to_bits());
}

#[test]
fn signs_are_turned() {
    for a in SAMPLES {
        assert_eq!(num(a).negated().bits, (-a).to_bits());
    }
}

#[test]
fn fractions_are_cut_off_towards_zero() {
    for a in SAMPLES {
        assert_eq!(num(a).to_i64(), a as i64);
        assert_eq!(num(a).to_i32(), a as i32);
    }
    assert_eq!(num(-2.5).to_i32(), -2);
    assert_eq!(num(1e10).to_i32(), i32::MAX);
    assert_eq!(num(f64::NAN).to_i64(), 0);
    assert_eq!(num(f64::NAN).to_i32(), 0);
}

#[test]
fn values_are_ordered_even_where_they_are_no_numbers() {
    assert!(num(1.0).is_worth_at_most(num(1.0)));
    assert!(num(-0.0).is_worth_at_most(num(0.0)));
    assert!(num(0.0).is_worth_at_most(num(-0.0)));
    assert!(!num(5.0).is_worth_at_most(num(0.0)));
}
