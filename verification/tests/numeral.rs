use rlox::number::Double;
use rlox::numeral::{push_debug, push_display, shortest_of, TEN_TO_16, TEN_TO_MINUS_4};

fn shown(x: f64) -> String {
    Double::from_bits(x.to_bits()).to_string()
}

fn detailed(x: f64) -> String {
    let mut s = String::new();
    push_debug(&mut s, Double::from_bits(x.to_bits()));
    s
}

fn samples() -> Vec<f64> {
    let mut v = vec![
        0.0,
        -0.0,
        1.0,
        -1.0,
        7.0,
        9.0,
        10.0,
        100.0,
        0.1,
        0.2,
        0.3,
        0.1 + 0.2,
        1.5,
        -2.75,
        45.67,
        123.0,
        123.456,
        0.000001,
        0.0001,
        0.00009999999999999999,
        0.095,
        0.95,
        9.5,
        9.5e22,
        1e15,
        1e16,
        9999999999999998.0,
        1e17,
        1e21,
        1e22,
        1e23,
        9.999999999999999e22,
        1e300,
        -1e300,
        1e-300,
        1.7976931348623157e308,
        2.2250738585072014e-308,
        5e-324,
        1e-323,
        9007199254740992.0,
        9007199254740993.0,
        1125899906842624.25,
        1125899906842624.75,
        2251799813685248.5,
        4503599627370496.5,
        4503599627370497.5,
        123456789.125,
        3.141592653589793,
        2.718281828459045,
        6.02214076e23,
        1.6e-19,
        f64::INFINITY,
        f64::NEG_INFINITY,
        f64::NAN,
        f64::EPSILON,
        1.0 + f64::EPSILON,
        1.0 - f64::EPSILON / 2.0,
        0.30000000000000004,
        1e-4,
        1e-5,
        123e-20,
        5e-5,
    ];
    let mut state: u64 = 0x1234_5678_9ABC_DEF1;
    for _ in 0..60 {
        state = state.wrapping_mul(6364136223846793005).wrapping_add(1442695040888963407);
        v.push(f64::from_bits(state));
        state = state.wrapping_mul(6364136223846793005).wrapping_add(1442695040888963407);
        v.push(f64::from_bits((state >> 12) | 0x3FF0_0000_0000_0000));
        state = state.wrapping_mul(6364136223846793005).wrapping_add(1442695040888963407);
        v.push(((state >> 40) as f64) / 1000.0);
    }
    v
}

#[test]
fn numbers_are_shown_as_the_standard_library_shows_them() {
    for &x in samples().iter() {
        assert_eq!(shown(x), format!("{}", x), "bits {:#x}", x.to_bits());
    }
}

#[test]
fn numbers_are_shown_in_detail_as_the_standard_library_shows_them() {
    for &x in samples().iter() {
        assert_eq!(detailed(x), format!("{:?}", x), "bits {:#x}", x.to_bits());
    }
}

#[test]
fn shown_numbers_read_back() {
    for &x in samples().iter() {
        if x.is_finite() && x.is_sign_positive() {
            let text: Vec<char> = shown(x).chars().collect();
            assert_eq!(Double::from_decimal(&text, 0, text.len()).to_bits(), x.to_bits());
        }
    }
}

#[test]
fn chosen_numerals() {
    assert_eq!(shown(7.0), "7");
    assert_eq!(shown(0.5), "0.5");
    assert_eq!(shown(-0.0), "-0");
    assert_eq!(shown(1e21), "1000000000000000000000");
    assert_eq!(shown(1e-7), "0.0000001");
    assert_eq!(shown(f64::NAN), "NaN");
    assert_eq!(shown(f64::NEG_INFINITY), "-inf");
    assert_eq!(detailed(7.0), "7.0");
    assert_eq!(detailed(1e16), "1e16");
    assert_eq!(detailed(1.5e-7), "1.5e-7");
    assert_eq!(detailed(0.0), "0.0");
}

#[test]
fn the_shortest_digits_and_their_power_of_ten() {
    assert_eq!(shortest_of(1.0f64.to_bits()), (1, 0));
    assert_eq!(shortest_of(0.5f64.to_bits()), (5, -1));
    assert_eq!(shortest_of(1200.0f64.to_bits()), (12, 2));
    assert_eq!(shortest_of(0.1f64.to_bits()), (1, -1));
    assert_eq!(shortest_of((0.1f64 + 0.2).to_bits()), (30000000000000004, -17));
    assert_eq!(shortest_of(9.5f64.to_bits()), (95, -1));
    assert_eq!(shortest_of(5e-324f64.to_bits()), (5, -324));
    assert_eq!(shortest_of(1.7976931348623157e308f64.to_bits()), (17976931348623157, 292));
    assert_eq!(shortest_of(1125899906842624.25f64.to_bits()), (11258999068426243, -1));
}

#[test]
fn appending_keeps_what_stands_before() {
    let mut s = String::from("x = ");
    push_display(&mut s, Double::from_bits(2.5f64.to_bits()));
    assert_eq!(s, "x = 2.5");
}

#[test]
fn the_bounds_of_the_plain_form() {
    assert_eq!(TEN_TO_16, 1e16f64.to_bits());
    assert_eq!(TEN_TO_MINUS_4, 1e-4f64.to_bits());
}

fn scattered(seed: u64, count: usize) -> Vec<f64> {
    let mut v = Vec::new();
    let mut state = seed;
    for i in 0..count {
        state = state.wrapping_mul(6364136223846793005).wrapping_add(1442695040888963407);
        let x = match i % 4 {
            0 => f64::from_bits(state & 0x7FFF_FFFF_FFFF_FFFF),
            1 => ((state >> 11) as f64) / 1e6,
            2 => f64::from_bits(0x3E00_0000_0000_0000 + (state >> 5)),
            _ => ((state % 100_000) as f64) / 100.0,
        };
        if x.is_finite() {
            v.push(x);
        }
    }
    v
}

#[test]
fn scattered_numbers_are_shown_as_the_standard_library_shows_them() {
    for &x in scattered(0xC0FF_EE00_1234_5678, 300).iter() {
        assert_eq!(shown(x), format!("{}", x), "bits {:#x}", x.to_bits());
        assert_eq!(detailed(x), format!("{:?}", x), "bits {:#x}", x.to_bits());
    }
}

#[test]
fn powers_of_ten_are_shown_as_the_standard_library_shows_them() {
    let mut x = 1.0f64;
    for _ in 0..110 {
        assert_eq!(shown(x), format!("{}", x));
        assert_eq!(shown(1.0 / x), format!("{}", 1.0 / x));
        x *= 1000.0;
    }
}

#[test]
fn powers_of_two_are_shown_as_the_standard_library_shows_them() {
    let mut y = 5e-324f64;
    while y.is_finite() {
        assert_eq!(shown(y), format!("{}", y), "bits {:#x}", y.to_bits());
        let below = f64::from_bits(y.to_bits() - 1);
        assert_eq!(shown(below), format!("{}", below), "bits {:#x}", below.to_bits());
        y *= 8192.0;
    }
}

#[test]
fn numbers_at_the_top_of_a_power_of_two_are_shown_as_the_standard_library_shows_them() {
    let mut y = 2.0f64;
    for _ in 0..60 {
        let below = f64::from_bits(y.to_bits() - 1);
        let above = f64::from_bits(y.to_bits() + 1);
        assert_eq!(shown(y), format!("{}", y), "bits {:#x}", y.to_bits());
        assert_eq!(shown(below), format!("{}", below), "bits {:#x}", below.to_bits());
        assert_eq!(shown(above), format!("{}", above), "bits {:#x}", above.to_bits());
        y *= 2.0;
    }
}

#[test]
fn scattered_literals_round_to_nearest() {
    for &x in scattered(0x0DDB_A11_5EED, 200).iter() {
        for text in [format!("{}", x), format!("{:.3}", x), format!("{:.25}", x)] {
            let expected: f64 = text.parse().unwrap();
            let chars: Vec<char> = text.chars().collect();
            assert_eq!(
                Double::from_decimal(&chars, 0, chars.len()).to_bits(),
                expected.to_bits(),
                "{}",
                text
            );
        }
    }
}
