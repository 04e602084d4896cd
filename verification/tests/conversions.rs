use bigdecimal::num_bigint::BigInt;
use bigdecimal::{BigDecimal, FromPrimitive};
use sheet_cells::cell::RawCell;
use sheet_cells::date::Date;
use sheet_cells::decimal::Decimal;
use sheet_cells::number::Number;
use std::str::FromStr;

fn number(value: f64) -> RawCell {
    RawCell::Number(Number::from_bits(value.to_bits()))
}

fn text(value: &str) -> RawCell {
    RawCell::Text(value.to_string())
}

fn ymd(date: Date) -> (i32, u32, u32) {
    (date.year(), date.month(), date.day())
}

fn big(decimal: &Decimal) -> BigDecimal {
    BigDecimal::new(BigInt::from_str(&decimal.unscaled_text()).unwrap(), decimal.scale())
}

#[test]
fn lib_float_date() {
    let date_test = number(16112020.0);
    let ret = sheet_cells::convert_date(&date_test).unwrap();
    assert_eq!(ret.year(), 2020);
    assert_eq!(ret.month(), 11);
    assert_eq!(ret.day(), 16);
}

#[test]
fn types_float_date() {
    let date_test = number(16112020.0);
    let ret = sheet_cells::types::convert_date(&date_test).unwrap();
    assert_eq!(ret.year(), 2020);
    assert_eq!(ret.month(), 11);
    assert_eq!(ret.day(), 16);
}

#[test]
fn lib_convert_naivedate_to_datatype_test() {
    let d = Date::from_ymd_opt(1899, 12, 31).unwrap();
    let res = sheet_cells::convert_naivedate_to_datatype(d);
    if let RawCell::Number(date) = res {
        assert_eq!(f64::from_bits(date.to_bits()), 1.0);
    } else {
        panic!();
    }
}

#[test]
fn types_convert_naivedate_to_datatype_test() {
    let d = Date::from_ymd_opt(1899, 12, 31).unwrap();
    let res = sheet_cells::types::convert_naivedate_to_datatype(d);
    if let RawCell::Number(date) = res {
        assert_eq!(f64::from_bits(date.to_bits()), 1.0);
    } else {
        panic!();
    }
}

#[test]
fn packed_number_is_a_date_not_a_day_count() {
    // 16,112,020 days after the epoch would be a date as well
    assert!(sheet_cells::date::epoch_offset_to_date(16112020).is_some());
    let date = sheet_cells::convert_date(&number(16112020.0)).unwrap();
    assert_eq!(ymd(date), (2020, 11, 16));
    let date = sheet_cells::convert_date(&number(1112020.0)).unwrap();
    assert_eq!(ymd(date), (2020, 11, 1));
    let date = sheet_cells::convert_date(&number(16112019.6)).unwrap();
    assert_eq!(ymd(date), (2020, 11, 16));
    // seven or eight digits that name no day are no date at all
    assert_eq!(sheet_cells::convert_date(&number(99999999.0)), None);
    assert_eq!(sheet_cells::convert_date(&number(1000000.0)), None);
    assert_eq!(sheet_cells::convert_date(&number(30022021.0)), None);
}

#[test]
fn other_numbers_count_days_from_the_epoch() {
    assert_eq!(ymd(sheet_cells::convert_date(&number(0.0)).unwrap()), (1899, 12, 30));
    assert_eq!(ymd(sheet_cells::convert_date(&number(1.0)).unwrap()), (1899, 12, 31));
    assert_eq!(ymd(sheet_cells::convert_date(&number(44289.0)).unwrap()), (2021, 4, 3));
    assert_eq!(ymd(sheet_cells::convert_date(&number(44288.5)).unwrap()), (2021, 4, 3));
    assert_eq!(ymd(sheet_cells::convert_date(&number(-1.0)).unwrap()), (1899, 12, 29));
    assert_eq!(ymd(sheet_cells::convert_date(&number(999999.0)).unwrap()), (4637, 11, 25));
    assert_eq!(sheet_cells::convert_date(&number(100000000.0)), None);
    // the last day in range has eight digits as a day count, so it is read as packed
    assert_eq!(sheet_cells::convert_date(&number(95051805.0)), None);
    assert_eq!(ymd(sheet_cells::convert_date(&number(-96439723.0)).unwrap()), (-262143, 1, 1));
    assert_eq!(sheet_cells::convert_date(&number(-96439724.0)), None);
    assert_eq!(ymd(sheet_cells::convert_date(&number(f64::NAN)).unwrap()), (1899, 12, 30));
    assert_eq!(sheet_cells::convert_date(&number(1e300)), None);
    assert_eq!(sheet_cells::convert_date(&number(-1e300)), None);
    assert_eq!(sheet_cells::convert_date(&number(f64::INFINITY)), None);
}

#[test]
fn text_dates() {
    assert_eq!(ymd(sheet_cells::convert_date(&text("16/11/2020")).unwrap()), (2020, 11, 16));
    assert_eq!(ymd(sheet_cells::convert_date(&text("1/2/2020")).unwrap()), (2020, 2, 1));
    assert_eq!(ymd(sheet_cells::convert_date(&text("01/02/2020")).unwrap()), (2020, 2, 1));
    assert_eq!(ymd(sheet_cells::convert_date(&text("+1/+2/-44")).unwrap()), (-44, 2, 1));
    assert_eq!(ymd(sheet_cells::convert_date(&text("29/2/2020")).unwrap()), (2020, 2, 29));
    assert_eq!(ymd(sheet_cells::convert_date(&text("16112020")).unwrap()), (2020, 11, 16));
    assert_eq!(ymd(sheet_cells::convert_date(&text("1112020")).unwrap()), (2020, 11, 1));
    assert_eq!(sheet_cells::convert_date(&text("161120")), None);
    assert_eq!(sheet_cells::convert_date(&text("161120201")), None);
    assert_eq!(sheet_cells::convert_date(&text("5122020xx")), None);
    assert_eq!(sheet_cells::convert_date(&text("+5+52020")), None);
    assert_eq!(sheet_cells::convert_date(&text("16/11")), None);
    assert_eq!(sheet_cells::convert_date(&text("16/11/2020/1")), None);
    assert_eq!(sheet_cells::convert_date(&text("")), None);
    assert_eq!(sheet_cells::convert_date(&text("/")), None);
    assert_eq!(sheet_cells::convert_date(&text("//")), None);
    assert_eq!(sheet_cells::convert_date(&text("a/11/2020")), None);
    assert_eq!(sheet_cells::convert_date(&text("16/11/ 2020")), None);
    assert_eq!(sheet_cells::convert_date(&text(" 16/11/2020")), None);
    assert_eq!(sheet_cells::convert_date(&text("16/13/2020")), None);
    assert_eq!(sheet_cells::convert_date(&text("30/2/2020")), None);
    assert_eq!(sheet_cells::convert_date(&text("29/2/2021")), None);
    assert_eq!(sheet_cells::convert_date(&text("0/1/2020")), None);
    assert_eq!(sheet_cells::convert_date(&text("1/1/4294967296")), None);
    assert_eq!(sheet_cells::convert_date(&text("4294967297/1/2020")), None);
    assert_eq!(sheet_cells::convert_date(&text("1/1/262143")), None);
    assert_eq!(ymd(sheet_cells::convert_date(&text("1/1/262142")).unwrap()), (262142, 1, 1));
    assert_eq!(sheet_cells::convert_date(&text("30022020")), None);
    assert_eq!(sheet_cells::convert_date(&text("1611202\u{ff10}")), None);
}

#[test]
fn packed_text_dates() {
    assert_eq!(ymd(sheet_cells::convert_str_to_date("16112020").unwrap()), (2020, 11, 16));
    assert_eq!(ymd(sheet_cells::convert_str_to_date("1112020").unwrap()), (2020, 11, 1));
    assert_eq!(ymd(sheet_cells::convert_str_to_date("01010001").unwrap()), (1, 1, 1));
    assert_eq!(ymd(sheet_cells::convert_str_to_date("31120000").unwrap()), (0, 12, 31));
    assert_eq!(sheet_cells::convert_str_to_date("161120"), None);
    assert_eq!(sheet_cells::convert_str_to_date("16/11/20"), None);
    assert_eq!(sheet_cells::convert_str_to_date(""), None);
    assert_eq!(sheet_cells::convert_str_to_date("00112020"), None);
    assert_eq!(sheet_cells::convert_str_to_date("0112020"), None);
}

#[test]
fn blank_cells_stand_for_nothing() {
    for cell in [RawCell::Empty, RawCell::Other, RawCell::Boolean(true)] {
        assert_eq!(sheet_cells::convert_date(&cell), None);
        assert_eq!(sheet_cells::convert_i32(&cell), None);
        assert_eq!(sheet_cells::convert_decimal(&cell), None);
        assert_eq!(sheet_cells::convert_string(&cell, "1"), None);
    }
    let serial = RawCell::DateTime(Number::from_bits(1.0f64.to_bits()));
    assert_eq!(sheet_cells::convert_date(&serial), None);
    assert_eq!(sheet_cells::convert_i32(&serial), None);
    assert_eq!(sheet_cells::convert_decimal(&serial), None);
    assert_eq!(sheet_cells::convert_string(&serial, "1"), None);
    assert_eq!(sheet_cells::convert_date(&RawCell::Integer(16112020)), None);
}

#[test]
fn texts() {
    assert_eq!(sheet_cells::convert_string(&text("   "), ""), None);
    assert_eq!(sheet_cells::convert_string(&text(""), ""), None);
    assert_eq!(sheet_cells::convert_string(&text("  hi  "), ""), Some("hi".to_string()));
    assert_eq!(sheet_cells::convert_string(&text("hi"), ""), Some("hi".to_string()));
    assert_eq!(sheet_cells::convert_string(&text(" a b\t\n"), ""), Some("a b".to_string()));
    assert_eq!(
        sheet_cells::convert_string(&text("\u{a0}\u{3000}x\u{2003}y\u{85}\u{1680}"), ""),
        Some("x\u{2003}y".to_string())
    );
    assert_eq!(
        sheet_cells::convert_string(&text("\u{200b}x\u{200b}"), ""),
        Some("\u{200b}x\u{200b}".to_string())
    );
    assert_eq!(sheet_cells::convert_string(&RawCell::Integer(42), ""), Some("42".to_string()));
    assert_eq!(sheet_cells::convert_string(&RawCell::Integer(0), ""), Some("0".to_string()));
    assert_eq!(sheet_cells::convert_string(&RawCell::Integer(-7), ""), Some("-7".to_string()));
    assert_eq!(
        sheet_cells::convert_string(&RawCell::Integer(i64::MIN), ""),
        Some(i64::MIN.to_string())
    );
    assert_eq!(
        sheet_cells::convert_string(&RawCell::Integer(i64::MAX), ""),
        Some(i64::MAX.to_string())
    );
    let value = 1.5f64;
    assert_eq!(
        sheet_cells::convert_string(&number(value), &value.to_string()),
        Some("1.5".to_string())
    );
}

#[test]
fn trimming_agrees_with_the_standard_library() {
    for code in 0u32..0x11000 {
        if let Some(c) = char::from_u32(code) {
            let sample = format!("{}x{}", c, c);
            let expected = sample.trim();
            let got = sheet_cells::convert_string(&text(&sample), "").unwrap();
            assert_eq!(got, expected, "U+{:04X}", code);
        }
    }
}

#[test]
fn whole_numbers() {
    assert_eq!(sheet_cells::convert_i32(&number(2.4)), Some(2));
    assert_eq!(sheet_cells::convert_i32(&number(2.5)), Some(3));
    assert_eq!(sheet_cells::convert_i32(&number(-2.5)), Some(-3));
    assert_eq!(sheet_cells::convert_i32(&number(0.49999999999999994)), Some(0));
    assert_eq!(sheet_cells::convert_i32(&number(3e9)), Some(i32::MAX));
    assert_eq!(sheet_cells::convert_i32(&number(-3e9)), Some(i32::MIN));
    assert_eq!(sheet_cells::convert_i32(&number(f64::NAN)), Some(0));
    assert_eq!(sheet_cells::convert_i32(&RawCell::Integer(7)), Some(7));
    assert_eq!(sheet_cells::convert_i32(&RawCell::Integer(-7)), Some(-7));
    assert_eq!(sheet_cells::convert_i32(&RawCell::Integer(4294967296 + 5)), Some(5));
    assert_eq!(sheet_cells::convert_i32(&RawCell::Integer(2147483648)), Some(i32::MIN));
    assert_eq!(sheet_cells::convert_i32(&RawCell::Integer(-2147483649)), Some(i32::MAX));
    for v in [i64::MIN, i64::MIN + 1, -4294967297, -1, 0, 1, 4294967295, i64::MAX] {
        assert_eq!(sheet_cells::convert_i32(&RawCell::Integer(v)), Some(v as i32));
    }
    assert_eq!(sheet_cells::convert_i32(&text("7")), None);
}

#[test]
fn decimals() {
    let d = sheet_cells::convert_decimal(&text("1,50")).unwrap();
    assert_eq!(d.unscaled_text(), "150");
    assert_eq!(d.scale(), 2);
    assert_eq!(big(&d), BigDecimal::from_str("1.50").unwrap());
    assert_eq!(sheet_cells::convert_decimal(&text("abc")), None);
    assert_eq!(sheet_cells::convert_decimal(&text("")), None);
    assert_eq!(sheet_cells::convert_decimal(&text("1,2,3")), None);
    let d = sheet_cells::convert_decimal(&text("-0,075")).unwrap();
    assert_eq!(d.unscaled_text(), "-75");
    assert_eq!(d.scale(), 3);
    let d = sheet_cells::convert_decimal(&text("12e3")).unwrap();
    assert_eq!(big(&d), BigDecimal::from_str("12000").unwrap());
    let d = sheet_cells::convert_decimal(&text("0")).unwrap();
    assert_eq!(d.unscaled_text(), "0");
    let d = sheet_cells::convert_decimal(&text("-0.00")).unwrap();
    assert_eq!(d.unscaled_text(), "0");
    assert_eq!(d.scale(), 2);
    let long = "123456789012345678901234567890123456789012345678901234567890,5";
    let d = sheet_cells::convert_decimal(&text(long)).unwrap();
    assert_eq!(
        d.unscaled_text(),
        "1234567890123456789012345678901234567890123456789012345678905"
    );
    assert_eq!(d.scale(), 1);

    let d = sheet_cells::convert_decimal(&number(1.5)).unwrap();
    assert_eq!(d.unscaled_text(), "150");
    assert_eq!(d.scale(), 2);
    assert_eq!(big(&d), BigDecimal::from(150) / 100);
    let d = sheet_cells::convert_decimal(&number(1.005)).unwrap();
    assert_eq!(d.unscaled_text(), "100");
    let d = sheet_cells::convert_decimal(&number(1.115)).unwrap();
    assert_eq!(d.unscaled_text(), "112");
    let d = sheet_cells::convert_decimal(&number(0.285)).unwrap();
    assert_eq!(d.unscaled_text(), "28");
    let d = sheet_cells::convert_decimal(&number(-2.675)).unwrap();
    assert_eq!(d.unscaled_text(), "-268");
    // no size is cut off
    let d = sheet_cells::convert_decimal(&number(30000000.0)).unwrap();
    assert_eq!(d.unscaled_text(), "3000000000");
    assert_eq!(d.scale(), 2);
    assert_eq!(big(&d), BigDecimal::from_str("30000000").unwrap());
    let d = sheet_cells::convert_decimal(&number(21474836.48)).unwrap();
    assert_eq!(d.unscaled_text(), "2147483648");
    let d = sheet_cells::convert_decimal(&number(-21474836.49)).unwrap();
    assert_eq!(d.unscaled_text(), "-2147483649");
    let d = sheet_cells::convert_decimal(&number(-123456789012.345)).unwrap();
    assert_eq!(d.unscaled_text(), "-12345678901235");
    let d = sheet_cells::convert_decimal(&number(9007199254740992.0)).unwrap();
    assert_eq!(d.unscaled_text(), "900719925474099200");
    let d = sheet_cells::convert_decimal(&number(1e300)).unwrap();
    assert_eq!(d.unscaled_text(), BigInt::from_f64(1e300 * 100_f64).unwrap().to_string());
    assert_eq!(d.unscaled_text().len(), 303);
    let d = sheet_cells::convert_decimal(&number(-1e300)).unwrap();
    assert_eq!(d.unscaled_text(), BigInt::from_f64(-1e300 * 100_f64).unwrap().to_string());
    // what is no number keeps the answers it always had
    let d = sheet_cells::convert_decimal(&number(f64::NAN)).unwrap();
    assert_eq!((d.unscaled_text(), d.scale()), ("0".to_string(), 2));
    let d = sheet_cells::convert_decimal(&number(f64::INFINITY)).unwrap();
    assert_eq!(d.unscaled_text(), i32::MAX.to_string());
    let d = sheet_cells::convert_decimal(&number(f64::NEG_INFINITY)).unwrap();
    assert_eq!(d.unscaled_text(), i32::MIN.to_string());
    let d = sheet_cells::convert_decimal(&number(-0.0)).unwrap();
    assert_eq!(d.unscaled_text(), "0");
    let d = sheet_cells::convert_decimal(&number(-0.001)).unwrap();
    assert_eq!(d.unscaled_text(), "0");

    let d = sheet_cells::convert_decimal(&RawCell::Integer(-12)).unwrap();
    assert_eq!(d.unscaled_text(), "-12");
    assert_eq!(d.scale(), 0);
    let d = sheet_cells::convert_decimal(&RawCell::Integer(i64::MIN)).unwrap();
    assert_eq!(d.unscaled_text(), i64::MIN.to_string());
    let copy = d.clone();
    assert_eq!(copy, d);
}

#[test]
fn decimal_parts() {
    let d = Decimal::new(-150, 2);
    assert_eq!(d.unscaled_text(), "-150");
    assert_eq!(d.scale(), 2);
    let d = Decimal::parse("+.5").unwrap();
    assert_eq!(big(&d), BigDecimal::from_str("0.5").unwrap());
    assert_eq!(Decimal::parse("1,5"), None);
    assert_eq!(Decimal::parse(" 1"), None);
    let d = Decimal::hundredths_of(Number::from_bits(2.5f64.to_bits()));
    assert_eq!((d.unscaled_text(), d.scale()), ("250".to_string(), 2));
}

fn hundredths(value: f64) -> String {
    Decimal::hundredths_of(Number::from_bits(value.to_bits())).unscaled_text()
}

#[test]
fn hundredths_are_the_native_product_rounded() {
    let mut values = vec![
        0.0,
        -0.0,
        0.004,
        0.005,
        -0.005,
        0.015,
        0.045,
        1.005,
        1.115,
        0.285,
        2.675,
        1e-320,
        5e-324,
        f64::MIN_POSITIVE,
        21474836.47,
        21474836.475,
        21474836.48,
        -21474836.485,
        45035996273704.95,
        45035996273704.96,
        90071992547409.91,
        90071992547409.92,
        4503599627370495.5,
        4503599627370497.0,
        9007199254740991.0,
        92233720368547758.07,
        1e19,
        1e20,
        1e300,
        -1e300,
        1.797e306,
    ];
    let mut bits: u64 = 0x9e37_79b9_7f4a_7c15;
    for _ in 0..1500 {
        bits = bits.wrapping_mul(6364136223846793005).wrapping_add(1442695040888963407);
        values.push(f64::from_bits(bits));
    }
    for _ in 0..20_000 {
        bits = bits.wrapping_mul(6364136223846793005).wrapping_add(1442695040888963407);
        // the same fraction, brought near the sizes that cells hold
        let exponent = 1000 + (bits >> 52) % 80;
        values.push(f64::from_bits((bits & 0x800f_ffff_ffff_ffff) | (exponent << 52)));
    }
    for k in 0..20_000i64 {
        values.push(k as f64 / 1000.0);
        values.push(-(k as f64) * 1.005);
    }
    for value in values {
        let product = value * 100_f64;
        if value.is_finite() && product.is_finite() {
            let expected = BigInt::from_f64(product.round()).unwrap().to_string();
            assert_eq!(hundredths(value), expected, "{:e}", value);
        }
    }
}

#[test]
fn hundredths_beyond_the_largest_product() {
    // the product with one hundred has no binary64 of its own up here; it is
    // what the same number 1024 times smaller gives, 1024 times larger
    for value in [f64::MAX, -f64::MAX, 1.7e308, 3e306, -1.8e306] {
        assert!((value * 100_f64).is_infinite());
        let smaller = BigInt::from_f64((value / 1024_f64) * 100_f64).unwrap();
        let expected: BigInt = smaller * BigInt::from(1024);
        assert_eq!(hundredths(value), expected.to_string(), "{:e}", value);
    }
}

#[test]
fn dates_go_out_as_day_counts() {
    for (y, m, d, days) in [
        (1899, 12, 30, 0.0),
        (1899, 12, 29, -1.0),
        (1900, 1, 1, 2.0),
        (1900, 3, 1, 61.0),
        (1970, 1, 1, 25569.0),
        (2021, 4, 3, 44289.0),
        (9999, 12, 31, 2958465.0),
        (1, 1, 1, -693593.0),
    ] {
        let date = Date::from_ymd_opt(y, m, d).unwrap();
        match sheet_cells::convert_naivedate_to_datatype(date) {
            RawCell::Number(n) => assert_eq!(n.to_bits(), f64::to_bits(days)),
            _ => panic!(),
        }
    }
}

#[test]
fn day_counts_read_back_as_dates() {
    for (y, m, d) in [
        (1899, 12, 30),
        (1899, 12, 29),
        (1, 1, 1),
        (-262143, 1, 1),
        (1900, 1, 1),
        (2021, 4, 3),
        (4637, 11, 25),
    ] {
        let date = Date::from_ymd_opt(y, m, d).unwrap();
        let cell = sheet_cells::convert_naivedate_to_datatype(date);
        assert!(matches!(cell, RawCell::Number(_)));
        assert_eq!(sheet_cells::convert_date(&cell), Some(date));
    }
    // the next day is 1,000,000 days from the epoch, which reads as a packed date
    let date = Date::from_ymd_opt(4637, 11, 26).unwrap();
    let cell = sheet_cells::convert_naivedate_to_datatype(date);
    let RawCell::Number(days) = cell else {
        panic!();
    };
    assert_eq!(days.round_to_i64(), 1_000_000);
    assert_eq!(sheet_cells::convert_date(&cell), None);
}
