//! What a cell stands for: a date, a whole number, a decimal number or a
//! text. A cell that does not stand for what is asked gives `None`; nothing
//! here fails.

use crate::cell::RawCell;
use crate::date::{
    date_at_offset, date_to_epoch_offset, epoch_offset_to_date, lemma_days_before_month,
    lemma_epoch_offset_round_trip, offset_in_range, ymd, CalendarDate, Date, EPOCH_YEAR, MAX_YEAR,
    MIN_YEAR,
};
use crate::decimal::{parsed_decimal, Decimal};
use crate::number::Number;
use crate::text::{
    all_digits, chars_of, decimal_digits, decimal_text, decimal_value, digit_char, digit_value,
    digits_value, find_char, find_from, i32_literal, i64_text, is_digit, lemma_digit_at,
    lemma_digit_count, parse_i32, parse_u32, pow10, replace_commas, string_of, trim_bounds,
    trimmed, u32_literal, u64_digits, with_decimal_points,
};
use vstd::prelude::*;
use vstd::string::*;

verus! {

/// The day `year`-`month`-`day`, where the calendar has it and a `Date` can
/// hold its year.
pub open spec fn existing_day(year: int, month: int, day: int) -> Option<CalendarDate> {
    if ymd(year, month, day).is_valid() && MIN_YEAR <= year <= MAX_YEAR {
        Some(ymd(year, month, day))
    } else {
        None
    }
}

/// The date that a packed digit string writes: seven digits get a zero in
/// front; then there must be exactly eight digits, two for the day, two for
/// the month and four for the year.
pub open spec fn compact_date(s: Seq<char>) -> Option<CalendarDate> {
    let padded = if s.len() == 7 {
        seq!['0'] + s
    } else {
        s
    };
    if padded.len() == 8 && all_digits(padded) {
        existing_day(
            decimal_value(padded.subrange(4, 8)) as int,
            decimal_value(padded.subrange(2, 4)) as int,
            decimal_value(padded.subrange(0, 2)) as int,
        )
    } else {
        None
    }
}

/// The date that a text writes. With no `/` in it, it is read as a packed
/// digit string. With exactly two, the three parts are day, month and year,
/// each an integer literal. Any other number of parts is no date.
pub open spec fn text_date(s: Seq<char>) -> Option<CalendarDate> {
    let first = find_from(s, '/', 0);
    let second = find_from(s, '/', first + 1);
    let third = find_from(s, '/', second + 1);
    if first == s.len() {
        compact_date(s)
    } else if second == s.len() || third < s.len() {
        None
    } else {
        match (
            u32_literal(s.subrange(0, first)),
            u32_literal(s.subrange(first + 1, second)),
            i32_literal(s.subrange(second + 1, s.len() as int)),
        ) {
            (Some(day), Some(month), Some(year)) => existing_day(
                year as int,
                month as int,
                day as int,
            ),
            _ => None,
        }
    }
}

/// The date that a number stands for. Rounded, and written in decimal, a
/// number of seven or eight digits is always read as a packed date, never
/// as a count of days; any other number is the count of days from the
/// epoch to the date.
pub open spec fn number_date(n: Number) -> Option<CalendarDate> {
    let digits = decimal_digits(n.saturated(0, u64::MAX as int) as nat);
    let offset = n.saturated(i64::MIN as int, i64::MAX as int);
    if digits.len() == 7 || digits.len() == 8 {
        compact_date(digits)
    } else if offset_in_range(offset) {
        Some(date_at_offset(offset))
    } else {
        None
    }
}

/// The date that a cell stands for.
pub open spec fn cell_date(cell: RawCell) -> Option<CalendarDate> {
    match cell {
        RawCell::Text(s) => text_date(s@),
        RawCell::Number(n) => number_date(n),
        _ => None,
    }
}

/// Two digits write ten times the first plus the second, four digits
/// likewise.
pub proof fn lemma_value_of_fields(s: Seq<char>)
    ensures
        s.len() == 2 ==> decimal_value(s) == digit_value(s[0]) * 10 + digit_value(s[1]),
        s.len() == 4 ==> decimal_value(s) == digit_value(s[0]) * 1000 + digit_value(s[1]) * 100
            + digit_value(s[2]) * 10 + digit_value(s[3]),
{
    reveal_with_fuel(decimal_value, 5);
    if s.len() == 2 {
        assert(s.drop_last().drop_last().len() == 0);
        assert(s.drop_last().last() == s[0]);
    }
    if s.len() == 4 {
        let a = s.drop_last();
        let b = a.drop_last();
        let c = b.drop_last();
        assert(c.drop_last().len() == 0);
        assert(a.last() == s[2]);
        assert(b.last() == s[1]);
        assert(c.last() == s[0]);
    }
}

/// In the eight characters that a number from 1,000,000 to 99,999,999 is
/// read from, the one `p` places from the end is the digit of ten to the
/// power `p`.
proof fn lemma_packed_digit(r: nat, p: nat)
    requires
        1_000_000 <= r <= 99_999_999,
        p < 8,
    ensures
        ({
            let d = decimal_digits(r);
            let padded = if d.len() == 7 {
                seq!['0'] + d
            } else {
                d
            };
            &&& padded.len() == 8
            &&& is_digit(padded[7 - p])
            &&& digit_value(padded[7 - p]) == (r / pow10(p)) % 10
        }),
{
    lemma_powers_of_ten();
    lemma_digit_count(r, 6);
    lemma_digit_count(r, 7);
    lemma_digit_count(r, 8);
    let d = decimal_digits(r);
    let x = (r / pow10(p)) % 10;
    assert(digit_value(digit_char(x)) == x && is_digit(digit_char(x)));
    if p < d.len() {
        lemma_digit_at(r, p);
    } else {
        assert(p == 7 && d.len() == 7);
        assert(r / 10_000_000 == 0);
    }
}

/// The digits of a number below 100,000,000, put together field by field.
proof fn lemma_digits_of_fields(r: nat)
    requires
        r < 100_000_000,
    ensures
        ((r / 10_000_000) % 10) * 10 + (r / 1_000_000) % 10 == r / 1_000_000,
        ((r / 100_000) % 10) * 10 + (r / 10_000) % 10 == (r / 10_000) % 100,
        ((r / 1_000) % 10) * 1000 + ((r / 100) % 10) * 100 + ((r / 10) % 10) * 10 + r % 10 == r
            % 10_000,
{
    let a = r / 10;
    let b = a / 10;
    let c = b / 10;
    let d = c / 10;
    let e = d / 10;
    let f = e / 10;
    let g = f / 10;
    assert(b == r / 100 && c == r / 1_000 && d == r / 10_000 && e == r / 100_000 && f == r
        / 1_000_000 && g == r / 10_000_000);
}

/// The first powers of ten, written out.
proof fn lemma_powers_of_ten()
    ensures
        pow10(0) == 1,
        pow10(1) == 10,
        pow10(2) == 100,
        pow10(3) == 1_000,
        pow10(4) == 10_000,
        pow10(5) == 100_000,
        pow10(6) == 1_000_000,
        pow10(7) == 10_000_000,
        pow10(8) == 100_000_000,
{
    reveal_with_fuel(pow10, 10);
}

/// The packed reading in plain arithmetic: of a number from 1,000,000 to
/// 99,999,999 the last four digits are the year, the two before them the
/// month, and what stands before those the day. A number has seven or
/// eight digits exactly when it lies in that range.
pub proof fn lemma_packed_digits(r: nat)
    ensures
        (decimal_digits(r).len() == 7 || decimal_digits(r).len() == 8) <==> 1_000_000 <= r
            <= 99_999_999,
        1_000_000 <= r <= 99_999_999 ==> compact_date(decimal_digits(r)) == existing_day(
            (r % 10_000) as int,
            ((r / 10_000) % 100) as int,
            (r / 1_000_000) as int,
        ),
{
    lemma_powers_of_ten();
    lemma_digit_count(r, 6);
    lemma_digit_count(r, 7);
    lemma_digit_count(r, 8);
    if 1_000_000 <= r <= 99_999_999 {
        let d = decimal_digits(r);
        let padded = if d.len() == 7 {
            seq!['0'] + d
        } else {
            d
        };
        lemma_packed_digit(r, 0);
        lemma_packed_digit(r, 1);
        lemma_packed_digit(r, 2);
        lemma_packed_digit(r, 3);
        lemma_packed_digit(r, 4);
        lemma_packed_digit(r, 5);
        lemma_packed_digit(r, 6);
        lemma_packed_digit(r, 7);
        assert(all_digits(padded));
        let day = padded.subrange(0, 2);
        let month = padded.subrange(2, 4);
        let year = padded.subrange(4, 8);
        lemma_value_of_fields(day);
        lemma_value_of_fields(month);
        lemma_value_of_fields(year);
        assert(day[0] == padded[0] && day[1] == padded[1]);
        assert(month[0] == padded[2] && month[1] == padded[3]);
        assert(year[0] == padded[4] && year[1] == padded[5] && year[2] == padded[6] && year[3]
            == padded[7]);
        assert(decimal_value(day) == ((r / 10_000_000) % 10) * 10 + (r / 1_000_000) % 10);
        assert(decimal_value(month) == ((r / 100_000) % 10) * 10 + (r / 10_000) % 10);
        assert(decimal_value(year) == ((r / 1_000) % 10) * 1000 + ((r / 100) % 10) * 100 + ((r
            / 10) % 10) * 10 + r % 10);
        lemma_digits_of_fields(r);
    }
}

/// What date a number stands for, in plain arithmetic. Where it rounds to
/// an integer from 1,000,000 to 99,999,999 it is read as a packed date and
/// never as a count of days, even where that count would name a day too;
/// everywhere else it is the count of days from the epoch.
pub proof fn lemma_number_date(n: Number)
    ensures
        number_date(n) == ({
            let r = n.saturated(0, u64::MAX as int);
            let offset = n.saturated(i64::MIN as int, i64::MAX as int);
            if 1_000_000 <= r <= 99_999_999 {
                existing_day(r % 10_000, (r / 10_000) % 100, r / 1_000_000)
            } else if offset_in_range(offset) {
                Some(date_at_offset(offset))
            } else {
                None
            }
        }),
{
    let r = n.saturated(0, u64::MAX as int);
    assert(r >= 0);
    lemma_packed_digits(r as nat);
}

/// A date that went out as its count of days from the epoch comes back as
/// the same date when the number cell that holds the count is read as a
/// date, unless the count has seven or eight digits and is therefore read
/// as a packed date.
pub proof fn lemma_day_count_reads_back(d: CalendarDate, n: Number)
    requires
        d.is_valid(),
        d.in_range(),
        n.integer_value() == Some(d.epoch_offset()),
        !(1_000_000 <= d.epoch_offset() <= 99_999_999),
    ensures
        number_date(n) == Some(d),
        cell_date(RawCell::Number(n)) == Some(d),
{
    lemma_epoch_offset_round_trip(d);
    n.lemma_integer_value_rounds();
    lemma_number_date(n);
    lemma_days_before_month(MIN_YEAR as int);
    lemma_days_before_month(MAX_YEAR as int);
    lemma_days_before_month(EPOCH_YEAR as int);
}

/// `v` as the 32-bit integer with the same low 32 bits.
pub open spec fn wrapped_i32(v: int) -> int {
    let low = v % 0x1_0000_0000;
    if low >= 0x8000_0000 {
        low - 0x1_0000_0000
    } else {
        low
    }
}

/// The whole number that a cell stands for.
pub open spec fn cell_i32(cell: RawCell) -> Option<int> {
    match cell {
        RawCell::Number(n) => Some(n.saturated(i32::MIN as int, i32::MAX as int)),
        RawCell::Integer(v) => Some(wrapped_i32(v as int)),
        _ => None,
    }
}

/// The text that a cell stands for, `number_text` being the decimal
/// rendering of the cell's number where it holds one.
pub open spec fn cell_text(cell: RawCell, number_text: Seq<char>) -> Option<Seq<char>> {
    match cell {
        RawCell::Text(s) => if trimmed(s@).len() == 0 {
            None
        } else {
            Some(trimmed(s@))
        },
        RawCell::Number(_) => Some(number_text),
        RawCell::Integer(v) => Some(decimal_text(v as int)),
        _ => None,
    }
}

/// The decimal number that a cell stands for, as unscaled integer and
/// scale: a number in hundredths, a whole number as it is, a text as
/// `bigdecimal` reads it once its commas are full stops.
pub open spec fn cell_decimal(cell: RawCell) -> Option<(int, int)> {
    match cell {
        RawCell::Number(n) => Some((n.hundredths(), 2)),
        RawCell::Integer(v) => Some((v as int, 0)),
        RawCell::Text(s) => parsed_decimal(with_decimal_points(s@)),
        _ => None,
    }
}

/// The date that a cell stands for.
///
/// A text is a date as `day/month/year` or as a packed string of seven or
/// eight digits. A number that rounds to seven or eight digits is a packed
/// date too, whatever it was meant to be; any other number counts days from
/// the epoch. Other kinds of cell stand for no date.
///
/// The reading of numbers is a guess that cannot be told from the cell: a
/// quantity between 1,000,000 and 99,999,999 is taken for a date, or for
/// none where its digits name no day, and a day count in that range is
/// never read as one. `lemma_number_date` states the rule in arithmetic.
#[must_use]
pub fn convert_date(field_value: &RawCell) -> (r: Option<Date>)
    ensures
        r matches Some(d) ==> cell_date(*field_value) == Some(d@),
        r is None ==> cell_date(*field_value) is None,
        !(field_value is Text || field_value is Number) ==> r is None,
{
    match field_value {
        RawCell::Text(s) => {
            let chars = chars_of(s.as_str());
            let first = find_char(&chars, '/', 0);
            if first == chars.len() {
                return packed_date(&chars);
            }
            let second = find_char(&chars, '/', first + 1);
            if second == chars.len() {
                return None;
            }
            let third = find_char(&chars, '/', second + 1);
            if third < chars.len() {
                return None;
            }
            let day = parse_u32(&chars, 0, first);
            let month = parse_u32(&chars, first + 1, second);
            let year = parse_i32(&chars, second + 1, chars.len());
            match (day, month, year) {
                (Some(day), Some(month), Some(year)) => Date::from_ymd_opt(year, month, day),
                _ => None,
            }
        },
        RawCell::Number(n) => {
            let digits = u64_digits(n.round_to_u64());
            if digits.len() == 7 || digits.len() == 8 {
                packed_date(&digits)
            } else {
                epoch_offset_to_date(n.round_to_i64())
            }
        },
        _ => None,
    }
}

/// The date that a packed digit string writes: `ddmmyyyy`, or `dmmyyyy`
/// where the day's leading zero was dropped.
#[must_use]
pub fn convert_str_to_date(input: &str) -> (r: Option<Date>)
    ensures
        r matches Some(d) ==> compact_date(input@) == Some(d@),
        r is None ==> compact_date(input@) is None,
{
    let chars = chars_of(input);
    packed_date(&chars)
}

/// `compact_date` on a vector of characters.
fn packed_date(chars: &Vec<char>) -> (r: Option<Date>)
    ensures
        r matches Some(d) ==> compact_date(chars@) == Some(d@),
        r is None ==> compact_date(chars@) is None,
{
    if chars.len() == 7 {
        let mut padded: Vec<char> = Vec::new();
        padded.push('0');
        let mut i: usize = 0;
        while i < 7
            invariant
                i <= 7,
                chars.len() == 7,
                padded@ == seq!['0'] + chars@.take(i as int),
            decreases 7 - i,
        {
            padded.push(chars[i]);
            i = i + 1;
            assert(padded@ =~= seq!['0'] + chars@.take(i as int));
        }
        assert(chars@.take(7) =~= chars@);
        eight_digit_date(&padded)
    } else if chars.len() == 8 {
        eight_digit_date(chars)
    } else {
        None
    }
}

/// The date written by exactly eight digits.
fn eight_digit_date(chars: &Vec<char>) -> (r: Option<Date>)
    requires
        chars.len() == 8,
    ensures
        r matches Some(d) ==> all_digits(chars@) && existing_day(
            decimal_value(chars@.subrange(4, 8)) as int,
            decimal_value(chars@.subrange(2, 4)) as int,
            decimal_value(chars@.subrange(0, 2)) as int,
        ) == Some(d@),
        r is None ==> !all_digits(chars@) || existing_day(
            decimal_value(chars@.subrange(4, 8)) as int,
            decimal_value(chars@.subrange(2, 4)) as int,
            decimal_value(chars@.subrange(0, 2)) as int,
        ) is None,
{
    let ghost s = chars@;
    proof {
        reveal_with_fuel(decimal_value, 5);
        if all_digits(s) {
            assert forall|i: int| 0 <= i < 2 implies is_digit(
                #[trigger] s.subrange(0, 2)[i],
            ) by {
                assert(s.subrange(0, 2)[i] == s[i]);
            }
            assert forall|i: int| 0 <= i < 2 implies is_digit(
                #[trigger] s.subrange(2, 4)[i],
            ) by {
                assert(s.subrange(2, 4)[i] == s[i + 2]);
            }
            assert forall|i: int| 0 <= i < 4 implies is_digit(
                #[trigger] s.subrange(4, 8)[i],
            ) by {
                assert(s.subrange(4, 8)[i] == s[i + 4]);
            }
        }
        if all_digits(s.subrange(0, 2)) && all_digits(s.subrange(2, 4)) && all_digits(
            s.subrange(4, 8),
        ) {
            assert forall|i: int| 0 <= i < 8 implies is_digit(#[trigger] s[i]) by {
                if i < 2 {
                    assert(s.subrange(0, 2)[i] == s[i]);
                } else if i < 4 {
                    assert(s.subrange(2, 4)[i - 2] == s[i]);
                } else {
                    assert(s.subrange(4, 8)[i - 4] == s[i]);
                }
            }
        }
        if all_digits(s.subrange(0, 2)) {
            lemma_short_value(s.subrange(0, 2));
        }
        if all_digits(s.subrange(2, 4)) {
            lemma_short_value(s.subrange(2, 4));
        }
        if all_digits(s.subrange(4, 8)) {
            lemma_short_value(s.subrange(4, 8));
        }
    }
    let day = digits_value(chars, 0, 2, 9999);
    let month = digits_value(chars, 2, 4, 9999);
    let year = digits_value(chars, 4, 8, 9999);
    match (day, month, year) {
        (Some(day), Some(month), Some(year)) => Date::from_ymd_opt(
            year as i32,
            month as u32,
            day as u32,
        ),
        _ => None,
    }
}

/// Up to four digits write a number below ten thousand.
proof fn lemma_short_value(s: Seq<char>)
    requires
        s.len() <= 4,
        all_digits(s),
    ensures
        decimal_value(s) <= 9999,
    decreases s.len(),
{
    reveal_with_fuel(decimal_value, 5);
    if s.len() > 0 {
        assert(is_digit(s[s.len() - 1]));
        let a = s.drop_last();
        if a.len() > 0 {
            assert(is_digit(s[a.len() - 1]));
            assert(a[a.len() - 1] == s[a.len() - 1]);
            let b = a.drop_last();
            if b.len() > 0 {
                assert(b[b.len() - 1] == s[b.len() - 1]);
                assert(is_digit(s[b.len() - 1]));
                let c = b.drop_last();
                if c.len() > 0 {
                    assert(c[c.len() - 1] == s[c.len() - 1]);
                    assert(is_digit(s[c.len() - 1]));
                    assert(c.drop_last().len() == 0);
                }
            }
        }
    }
}

/// The text that a cell stands for: a text without the whitespace around
/// it, unless nothing is left; a whole number in decimal; for a number,
/// `number_text`, which the caller gives as the number's default decimal
/// rendering. Other kinds of cell stand for no text.
#[must_use]
pub fn convert_string(field_value: &RawCell, number_text: &str) -> (r: Option<String>)
    ensures
        r matches Some(s) ==> cell_text(*field_value, number_text@) == Some(s@),
        r is None ==> cell_text(*field_value, number_text@) is None,
        (field_value is Number || field_value is Integer) ==> r is Some,
        !(field_value is Number || field_value is Integer || field_value is Text) ==> r is None,
{
    match field_value {
        RawCell::Text(s) => {
            let chars = chars_of(s.as_str());
            let (start, end) = trim_bounds(&chars);
            if start == end {
                None
            } else {
                Some(string_of(&chars, start, end))
            }
        },
        RawCell::Number(_) => Some(String::from_str(number_text)),
        RawCell::Integer(v) => Some(i64_text(*v)),
        _ => None,
    }
}

/// The whole number that a cell stands for: a number rounded to the
/// nearest integer and held to 32 bits, a whole number narrowed to its low
/// 32 bits. Other kinds of cell stand for none.
#[must_use]
pub fn convert_i32(field_value: &RawCell) -> (r: Option<i32>)
    ensures
        r matches Some(v) ==> cell_i32(*field_value) == Some(v as int),
        r is None ==> cell_i32(*field_value) is None,
        r is Some <==> (field_value is Number || field_value is Integer),
{
    match field_value {
        RawCell::Number(n) => Some(n.round_to_i32()),
        RawCell::Integer(v) => Some(low_32_bits(*v)),
        _ => None,
    }
}

/// `wrapped_i32`.
fn low_32_bits(v: i64) -> (r: i32)
    ensures
        r == wrapped_i32(v as int),
{
    let low: u64 = if v >= 0 {
        (v as u64) % 0x1_0000_0000
    } else {
        let magnitude: u64 = (-(v as i128)) as u64;
        (0x1_0000_0000 - magnitude % 0x1_0000_0000) % 0x1_0000_0000
    };
    if low >= 0x8000_0000 {
        (low as i64 - 0x1_0000_0000) as i32
    } else {
        low as i32
    }
}

/// The decimal number that a cell stands for: a number to two decimal
/// places, whatever its size, a whole number exactly, a text as a decimal
/// literal in which a comma may stand for the decimal point. Other kinds of
/// cell stand for none, and so does a text that is no decimal literal.
///
/// A number is brought to hundredths as binary64 multiplies it by one
/// hundred, and then rounded, halves away from zero. A NaN stands for zero
/// and an infinity for the largest or smallest 32-bit count of hundredths.
#[must_use]
pub fn convert_decimal(field_value: &RawCell) -> (r: Option<Decimal>)
    ensures
        r matches Some(d) ==> cell_decimal(*field_value) == Some((d@.unscaled, d@.scale)),
        r is None ==> cell_decimal(*field_value) is None,
        (field_value is Number || field_value is Integer) ==> r is Some,
        !(field_value is Number || field_value is Integer || field_value is Text) ==> r is None,
{
    match field_value {
        RawCell::Number(n) => Some(Decimal::hundredths_of(*n)),
        RawCell::Integer(v) => Some(Decimal::new(*v, 0)),
        RawCell::Text(s) => {
            let chars = chars_of(s.as_str());
            let text = replace_commas(&chars);
            Decimal::parse(text.as_str())
        },
        _ => None,
    }
}

/// The cell that holds a date as spreadsheets store dates: a number cell
/// with the count of days from the epoch to the date, as the binary64
/// number that equals it. `Number::lemma_integer_value_unique` shows that
/// there is one such number; the epoch itself gives positive zero.
///
/// `convert_date` reads the cell back as the same date, unless the count
/// has seven or eight digits: `lemma_day_count_reads_back`.
#[must_use]
pub fn convert_naivedate_to_datatype(date: Date) -> (r: RawCell)
    ensures
        r matches RawCell::Number(n) && n.integer_value() == Some(date@.epoch_offset())
            && n.negative() == (date@.epoch_offset() < 0) && (date@.epoch_offset() == 0 ==> n.bits
            == 0),
        !(1_000_000 <= date@.epoch_offset() <= 99_999_999) ==> cell_date(r) == Some(date@),
{
    let offset = date_to_epoch_offset(date);
    proof {
        lemma_days_before_month(MIN_YEAR as int);
        lemma_days_before_month(MAX_YEAR as int);
        lemma_days_before_month(EPOCH_YEAR as int);
        use_type_invariant(date);
    }
    let number = Number::from_i32(offset as i32);
    proof {
        if !(1_000_000 <= date@.epoch_offset() <= 99_999_999) {
            lemma_day_count_reads_back(date@, number);
        }
    }
    RawCell::Number(number)
}

} // verus!
