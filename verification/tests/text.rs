use sheet_cells::text::{
    chars_of, digits_value, find_char, i64_text, parse_i32, parse_u32, replace_commas, string_of,
    trim_bounds, u64_digits,
};
use std::str::FromStr;

fn literals() -> Vec<String> {
    let mut all: Vec<String> = [
        "", "0", "00", "007", "1", "16", "2020", "+", "-", "+0", "-0", "+5", "-5", "++5", "--5",
        "+-5", "5+", "5-", " 5", "5 ", "5_0", "5.0", "1e3", "0x10", "a", "4294967295",
        "4294967296", "+4294967295", "-4294967295", "2147483647", "2147483648", "-2147483648",
        "-2147483649", "+2147483647", "00000000000000000000000000000000000000012",
        "99999999999999999999999999999999", "-99999999999999999999999999999999",
        "18446744073709551616", "281474976710655", "281474976710656", "\u{0661}", "1\u{ff10}",
        "\u{00b2}", "12\n",
    ]
    .iter()
    .map(|s| s.to_string())
    .collect();
    for n in [0i64, 1, 9, 10, 99, 100, 12345, 2147483646, 4294967294, 9999999999] {
        all.push(n.to_string());
        all.push(format!("+{}", n));
        all.push(format!("-{}", n));
        all.push(format!("0{}", n));
    }
    all
}

#[test]
fn unsigned_literals_are_read_as_the_standard_library_reads_them() {
    for s in literals() {
        let chars = chars_of(&s);
        assert_eq!(parse_u32(&chars, 0, chars.len()), u32::from_str(&s).ok(), "{:?}", s);
    }
}

#[test]
fn signed_literals_are_read_as_the_standard_library_reads_them() {
    for s in literals() {
        let chars = chars_of(&s);
        assert_eq!(parse_i32(&chars, 0, chars.len()), i32::from_str(&s).ok(), "{:?}", s);
    }
}

#[test]
fn literals_inside_a_text() {
    let chars = chars_of("16/11/-2020");
    assert_eq!(parse_u32(&chars, 0, 2), Some(16));
    assert_eq!(parse_u32(&chars, 3, 5), Some(11));
    assert_eq!(parse_i32(&chars, 6, 11), Some(-2020));
    assert_eq!(parse_u32(&chars, 6, 11), None);
    assert_eq!(parse_u32(&chars, 2, 5), None);
    assert_eq!(parse_u32(&chars, 5, 5), None);
    assert_eq!(digits_value(&chars, 7, 11, 2020), Some(2020));
    assert_eq!(digits_value(&chars, 7, 11, 2019), None);
    assert_eq!(digits_value(&chars, 6, 11, 9999), None);
    assert_eq!(digits_value(&chars, 7, 7, 9999), None);
}

#[test]
fn numbers_are_written_as_the_standard_library_writes_them() {
    let mut values = vec![0u64, 1, 9, 10, 11, 99, 100, 999_999, 1_000_000, 99_999_999, u64::MAX];
    let mut v: u64 = 1;
    for _ in 0..2000 {
        v = v.wrapping_mul(6364136223846793005).wrapping_add(1442695040888963407);
        values.push(v);
        values.push(v >> 32);
        values.push(v >> 50);
    }
    for value in values {
        let digits: String = u64_digits(value).into_iter().collect();
        assert_eq!(digits, value.to_string());
        let signed = value as i64;
        assert_eq!(i64_text(signed), signed.to_string());
    }
    assert_eq!(i64_text(i64::MIN), i64::MIN.to_string());
}

#[test]
fn commas_become_full_stops() {
    for s in ["", "1,50", "1.50", ",", ",,", "a,b,c", "1\u{201a}5", "1\u{ff0c}5", "no comma"] {
        assert_eq!(replace_commas(&chars_of(s)), s.replace(',', "."));
    }
}

#[test]
fn characters_and_parts() {
    let s = "a\u{e9}\u{4e2d}\u{1f600}/z";
    let chars = chars_of(s);
    assert_eq!(chars, s.chars().collect::<Vec<char>>());
    assert_eq!(chars.len(), 6);
    assert_eq!(string_of(&chars, 0, chars.len()), s);
    assert_eq!(string_of(&chars, 1, 3), "\u{e9}\u{4e2d}");
    assert_eq!(string_of(&chars, 2, 2), "");
    assert_eq!(find_char(&chars, '/', 0), 4);
    assert_eq!(find_char(&chars, '/', 4), 4);
    assert_eq!(find_char(&chars, '/', 5), 6);
    assert_eq!(find_char(&chars, 'q', 0), 6);
    assert_eq!(find_char(&chars, 'a', 6), 6);
}

#[test]
fn bounds_of_trimmed_text() {
    assert_eq!(trim_bounds(&chars_of("  hi  ")), (2, 4));
    assert_eq!(trim_bounds(&chars_of("hi")), (0, 2));
    assert_eq!(trim_bounds(&chars_of("   ")), (3, 3));
    assert_eq!(trim_bounds(&chars_of("")), (0, 0));
    assert_eq!(trim_bounds(&chars_of(" a b ")), (1, 4));
}
