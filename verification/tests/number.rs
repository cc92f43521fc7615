use rlox::number::Double;

fn d(x: f64) -> Double {
    Double::from_bits(x.to_bits())
}

fn same(ours: Double, theirs: f64) -> bool {
    if theirs.is_nan() {
        ours.is_nan()
    } else {
        ours.to_bits() == theirs.to_bits()
    }
}

fn samples() -> Vec<f64> {
    let mut v = vec![
        0.0,
        -0.0,
        1.0,
        -1.0,
        2.0,
        3.0,
        0.5,
        0.1,
        0.2,
        0.3,
        7.0,
        9.0,
        1.5,
        -2.75,
        1e300,
        -1e300,
        1e-300,
        1e308,
        1.7976931348623157e308,
        2.2250738585072014e-308,
        2.225073858507201e-308,
        5e-324,
        1e-323,
        4.9406564584124654e-324,
        9007199254740992.0,
        9007199254740993.0,
        9007199254740991.0,
        4503599627370496.5,
        1125899906842624.25,
        123456789.125,
        f64::INFINITY,
        f64::NEG_INFINITY,
        f64::NAN,
        f64::EPSILON,
        1.0 + f64::EPSILON,
        1.0 - f64::EPSILON / 2.0,
        3.141592653589793,
        2.718281828459045,
        1e16,
        1e21,
        1e22,
        1e23,
        6.02214076e23,
        1.6e-19,
    ];
    let mut state: u64 = 0x9E37_79B9_7F4A_7C15;
    for _ in 0..40 {
        state = state.wrapping_mul(6364136223846793005).wrapping_add(1442695040888963407);
        v.push(f64::from_bits(state));
        state = state.wrapping_mul(6364136223846793005).wrapping_add(1442695040888963407);
        v.push(f64::from_bits((state >> 12) | 0x3FF0_0000_0000_0000));
        state = state.wrapping_mul(6364136223846793005).wrapping_add(1442695040888963407);
        v.push(f64::from_bits(state >> 12));
    }
    v
}

#[test]
fn sum_is_the_ieee_sum() {
    for &a in samples().iter() {
        for &b in samples().iter() {
            assert!(same(d(a).plus(d(b)), a + b), "{:e} + {:e}", a, b);
        }
    }
}

#[test]
fn difference_is_the_ieee_difference() {
    for &a in samples().iter() {
        for &b in samples().iter() {
            assert!(same(d(a).minus(d(b)), a - b), "{:e} - {:e}", a, b);
        }
    }
}

#[test]
fn product_is_the_ieee_product() {
    for &a in samples().iter() {
        for &b in samples().iter() {
            assert!(same(d(a).times(d(b)), a * b), "{:e} * {:e}", a, b);
        }
    }
}

#[test]
fn quotient_is_the_ieee_quotient() {
    for &a in samples().iter() {
        for &b in samples().iter() {
            assert!(same(d(a).over(d(b)), a / b), "{:e} / {:e}", a, b);
        }
    }
}

#[test]
fn order_is_the_ieee_order() {
    for &a in samples().iter() {
        for &b in samples().iter() {
            assert_eq!(d(a).is_less_than(d(b)), a < b, "{:e} < {:e}", a, b);
            assert_eq!(d(a).equals(d(b)), a == b, "{:e} == {:e}", a, b);
            assert_eq!(d(a) == d(b), a == b);
        }
    }
}

#[test]
fn exact_sums_and_products() {
    assert_eq!(d(1.0).plus(d(2.0)).to_bits(), 3.0f64.to_bits());
    assert_eq!(d(2.0).times(d(3.0)).to_bits(), 6.0f64.to_bits());
    assert_eq!(d(1.0).over(d(4.0)).to_bits(), 0.25f64.to_bits());
    assert_eq!(d(0.1).plus(d(0.2)).to_bits(), 0x3FD3_3333_3333_3334);
    assert_eq!(d(1.0).minus(d(1.0)).to_bits(), 0);
    assert_eq!(d(-1.0).plus(d(1.0)).to_bits(), 0);
    assert_eq!(d(-0.0).plus(d(-0.0)).to_bits(), 0x8000_0000_0000_0000);
}

#[test]
fn division_by_zero_gives_infinity_or_nan() {
    assert_eq!(d(1.0).over(d(0.0)).to_bits(), f64::INFINITY.to_bits());
    assert_eq!(d(-1.0).over(d(0.0)).to_bits(), f64::NEG_INFINITY.to_bits());
    assert_eq!(d(1.0).over(d(-0.0)).to_bits(), f64::NEG_INFINITY.to_bits());
    assert!(d(0.0).over(d(0.0)).is_nan());
}

#[test]
fn negation_changes_the_sign_only() {
    assert_eq!(d(1.5).negated().to_bits(), (-1.5f64).to_bits());
    assert_eq!(d(0.0).negated().to_bits(), (-0.0f64).to_bits());
    assert_eq!(d(-7.0).negated().to_bits(), 7.0f64.to_bits());
}

fn parsed(text: &str) -> Double {
    let chars: Vec<char> = text.chars().collect();
    Double::from_decimal(&chars, 0, chars.len())
}

#[test]
fn decimal_literals_round_to_nearest() {
    let cases = [
        "0",
        "1",
        "7",
        "123",
        "0.1",
        "0.2",
        "0.3",
        "1.5",
        "45.67",
        "3.141592653589793",
        "3.14159265358979323846264338327950288",
        "9007199254740993",
        "9007199254740992",
        "9007199254740995",
        "18446744073709551616",
        "0.000001",
        "123456789012345678901234567890",
        "179769313486231570000000000000000000000000000000000000000000000000000000000000000000000000000000000000000000000000000000000000000000000000000000000000000000000000000000000000000000000000000000000000000000000000000000000000000000000000000000000000000000000000000000000000000000000000000000000000000000000",
        "0.00000000000000000000000000000000000000000000000000000000000000000000000000000000000000000000000000000000000000000000000000000000000000000000000000000000000000000000000000000000000000000000000000000000000000000000000000000000000000000000000000000000000000000000000000000000000000000000000000000000000000000000000000000000049406564584124654",
        "0.000000000000000000000000000000000000000000000000000000000000000000000000000000000000000000000000000000000000000000000000000000000000000000000000000000000000000000000000000000000000000000000000000000000000000000000000000000000000000000000000000000000000000000000000000000000000000000000000000000000000000022250738585072014",
        "2.5",
        "1.0000000000000002220446049250313",
        "1.00000000000000011102230246251565404236316680908203125",
        "1.00000000000000011102230246251565404236316680908203124",
        "1.00000000000000011102230246251565404236316680908203126",
        "4.35",
        "100.0",
        "00012.250",
    ];
    for text in cases.iter() {
        let expected: f64 = text.parse().unwrap();
        assert_eq!(parsed(text).to_bits(), expected.to_bits(), "{}", text);
    }
}

#[test]
fn a_literal_too_large_is_infinity() {
    let mut text = String::from("1");
    for _ in 0..400 {
        text.push('0');
    }
    assert_eq!(parsed(&text).to_bits(), f64::INFINITY.to_bits());
}

#[test]
fn a_literal_too_small_is_zero() {
    let mut text = String::from("0.");
    for _ in 0..400 {
        text.push('0');
    }
    text.push('1');
    assert_eq!(parsed(&text).to_bits(), 0);
}
