use numlist::number::Number;

fn n(x: f64) -> Number {
    Number::from_bits(x.to_bits())
}

fn samples() -> Vec<f64> {
    vec![
        0.0,
        -0.0,
        1.0,
        -1.0,
        1.5,
        -1.5,
        2.0,
        3.0,
        5.0,
        8.0,
        16.0,
        0.1,
        -0.1,
        1e-300,
        -1e-300,
        1e300,
        -1e300,
        f64::MIN_POSITIVE,
        -f64::MIN_POSITIVE,
        f64::from_bits(1),
        -f64::from_bits(1),
        f64::from_bits(0x000f_ffff_ffff_ffff),
        f64::MAX,
        f64::MIN,
        f64::EPSILON,
        f64::INFINITY,
        f64::NEG_INFINITY,
        f64::NAN,
        -f64::NAN,
        f64::from_bits(0x7ff0_0000_0000_0001),
        f64::from_bits(0xfff0_0000_0000_0001),
        f64::from_bits(0x7fff_ffff_ffff_ffff),
    ]
}

#[test]
fn bits_go_in_and_out_unchanged() {
    for x in samples() {
        assert_eq!(n(x).to_bits(), x.to_bits());
        assert_eq!(n(x).bits, x.to_bits());
    }
    assert_eq!(Number::from_bits(0x4014_0000_0000_0000).to_bits(), 5.0f64.to_bits());
}

#[test]
fn is_nan_agrees_with_the_hardware() {
    for x in samples() {
        assert_eq!(n(x).is_nan(), x.is_nan(), "{x:?}");
    }
}

#[test]
fn lt_agrees_with_the_hardware() {
    for a in samples() {
        for b in samples() {
            assert_eq!(n(a).lt(n(b)), a < b, "{a:?} < {b:?}");
        }
    }
}

#[test]
fn gt_agrees_with_the_hardware() {
    for a in samples() {
        for b in samples() {
            assert_eq!(n(a).gt(n(b)), a > b, "{a:?} > {b:?}");
        }
    }
}

#[test]
fn equals_agrees_with_the_hardware() {
    for a in samples() {
        for b in samples() {
            assert_eq!(n(a).equals(n(b)), a == b, "{a:?} == {b:?}");
        }
    }
}

#[test]
fn comparisons_agree_on_many_bit_patterns() {
    let mut state: u64 = 0x9e37_79b9_7f4a_7c15;
    let mut previous = 0.0f64;
    for _ in 0..20000 {
        state = state.wrapping_mul(6364136223846793005).wrapping_add(1442695040888963407);
        let x = f64::from_bits(state ^ (state >> 29));
        assert_eq!(n(x).lt(n(previous)), x < previous);
        assert_eq!(n(x).gt(n(previous)), x > previous);
        assert_eq!(n(x).equals(n(previous)), x == previous);
        assert_eq!(n(x).equals(n(x)), x == x);
        assert_eq!(n(x).is_nan(), x.is_nan());
        previous = x;
    }
}

#[test]
fn sort_key_of_known_values() {
    assert_eq!(n(0.0).sort_key(), 0);
    assert_eq!(n(-0.0).sort_key(), 0);
    assert_eq!(n(1.0).sort_key(), 0x3ff0_0000_0000_0000);
    assert_eq!(n(-1.0).sort_key(), -0x3ff0_0000_0000_0000);
    assert_eq!(n(f64::INFINITY).sort_key(), 0x7ff0_0000_0000_0000);
    assert_eq!(n(f64::NEG_INFINITY).sort_key(), -0x7ff0_0000_0000_0000);
    assert_eq!(n(f64::from_bits(1)).sort_key(), 1);
    assert_eq!(n(f64::from_bits(0x7fff_ffff_ffff_ffff)).sort_key(), i64::MAX);
    assert_eq!(n(f64::from_bits(0xffff_ffff_ffff_ffff)).sort_key(), -i64::MAX);
}

#[test]
fn sort_key_orders_as_the_values_do() {
    for a in samples() {
        for b in samples() {
            if !a.is_nan() && !b.is_nan() {
                assert_eq!(n(a).sort_key() < n(b).sort_key(), a < b, "{a:?} {b:?}");
                assert_eq!(n(a).sort_key() == n(b).sort_key(), a == b, "{a:?} {b:?}");
            }
        }
    }
}

#[test]
fn the_two_zeros_are_equal_but_not_identical() {
    assert!(n(0.0).equals(n(-0.0)));
    assert!(!n(0.0).lt(n(-0.0)));
    assert!(!n(0.0).gt(n(-0.0)));
    assert_ne!(n(0.0), n(-0.0));
}

#[test]
fn nan_compares_with_nothing() {
    let nan = n(f64::NAN);
    assert!(!nan.equals(nan));
    assert!(!nan.lt(n(1.0)));
    assert!(!nan.gt(n(1.0)));
    assert!(!n(1.0).lt(nan));
    assert!(!n(1.0).gt(nan));
    assert_eq!(nan, nan);
}
