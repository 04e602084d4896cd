use sheet_cells::number::Number;

fn samples() -> Vec<f64> {
    let mut values = vec![
        0.0,
        -0.0,
        0.5,
        -0.5,
        0.49999999999999994,
        -0.49999999999999994,
        1.0,
        1.5,
        2.5,
        -2.5,
        1.005,
        1.115,
        0.285,
        2.675,
        0.005,
        0.015,
        0.045,
        1e-320,
        5e-324,
        f64::MIN_POSITIVE,
        4503599627370495.5,
        4503599627370496.0,
        4503599627370497.0,
        9007199254740991.0,
        9007199254740992.0,
        2147483647.0,
        2147483647.4,
        2147483647.5,
        2147483648.0,
        -2147483648.0,
        -2147483648.5,
        -2147483649.0,
        21474836.47,
        21474836.475,
        21474836.48,
        -21474836.48,
        -21474836.485,
        9223372036854775807.0,
        9223372036854774784.0,
        -9223372036854775808.0,
        -9223372036854777856.0,
        18446744073709551615.0,
        18446744073709549568.0,
        1e19,
        1e20,
        1e300,
        -1e300,
        1.7e308,
        f64::MAX,
        f64::MIN,
        f64::INFINITY,
        f64::NEG_INFINITY,
        f64::NAN,
        -f64::NAN,
    ];
    // a fixed walk over bit patterns, so that every exponent is met
    let mut bits: u64 = 0x9e37_79b9_7f4a_7c15;
    for _ in 0..200_000 {
        bits = bits.wrapping_mul(6364136223846793005).wrapping_add(1442695040888963407);
        values.push(f64::from_bits(bits));
        // the same fraction, brought near the integers that matter
        let exponent = 1000 + (bits >> 52) % 90;
        values.push(f64::from_bits((bits & 0x800f_ffff_ffff_ffff) | (exponent << 52)));
    }
    for k in 0..20_000i64 {
        values.push(k as f64 / 8.0);
        values.push(-(k as f64) / 8.0);
        values.push(k as f64 / 1000.0);
        values.push(k as f64 * 1.005);
    }
    values
}

#[test]
fn rounding_to_u64_is_the_native_rounding() {
    for value in samples() {
        let n = Number::from_bits(value.to_bits());
        assert_eq!(n.round_to_u64(), value.round() as u64, "{:e}", value);
    }
}

#[test]
fn rounding_to_i64_is_the_native_rounding() {
    for value in samples() {
        let n = Number::from_bits(value.to_bits());
        assert_eq!(n.round_to_i64(), value.round() as i64, "{:e}", value);
    }
}

#[test]
fn rounding_to_i32_is_the_native_rounding() {
    for value in samples() {
        let n = Number::from_bits(value.to_bits());
        assert_eq!(n.round_to_i32(), value.round() as i32, "{:e}", value);
    }
}

#[test]
fn rounding_of_known_values() {
    let number = |value: f64| Number::from_bits(value.to_bits());
    assert_eq!(number(0.5).round_to_i64(), 1);
    assert_eq!(number(-0.5).round_to_i64(), -1);
    assert_eq!(number(0.49999999999999994).round_to_i64(), 0);
    assert_eq!(number(2.5).round_to_i64(), 3);
    assert_eq!(number(-2.5).round_to_u64(), 0);
    assert_eq!(number(16112020.0).round_to_u64(), 16112020);
    assert_eq!(number(1e20).round_to_u64(), u64::MAX);
    assert_eq!(number(1e20).round_to_i64(), i64::MAX);
    assert_eq!(number(-1e20).round_to_i64(), i64::MIN);
    assert_eq!(number(f64::NAN).round_to_u64(), 0);
    assert_eq!(number(f64::NAN).round_to_i64(), 0);
    assert_eq!(number(f64::INFINITY).round_to_u64(), u64::MAX);
    assert_eq!(number(f64::NEG_INFINITY).round_to_u64(), 0);
    assert_eq!(number(f64::NEG_INFINITY).round_to_i32(), i32::MIN);
}

#[test]
fn whole_numbers_become_the_native_values() {
    let mut values = vec![0, 1, -1, 2, 3, 255, 256, 44289, -693593, i32::MAX, i32::MIN, i32::MIN + 1];
    let mut v: i32 = 1;
    for _ in 0..100_000 {
        v = v.wrapping_mul(1103515245).wrapping_add(12345);
        values.push(v);
        values.push(v >> 8);
        values.push(v >> 20);
    }
    for value in values {
        let n = Number::from_i32(value);
        assert_eq!(n.to_bits(), (value as f64).to_bits(), "{}", value);
        assert_eq!(n.round_to_i32(), value);
    }
}

#[test]
fn bit_patterns_pass_through() {
    assert_eq!(Number::from_bits(0x3ff0_0000_0000_0000).to_bits(), 1.0f64.to_bits());
    assert_eq!(Number::from_bits(7).bits, 7);
    assert_eq!(Number { bits: 9 }, Number::from_bits(9));
}
