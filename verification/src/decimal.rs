//! Decimal numbers of any size: an integer and the count of its digits that
//! stand after the decimal point. The integer is kept as its decimal
//! digits, so that no width cuts it off.

use crate::number::{nearest_saturating, round_half_away, Number, SIGNIFICAND_LIMIT};
use crate::text::{
    all_digits, char_of_digit, decimal_digits, decimal_text, decimal_value, digit_char, digit_value,
    is_digit, push_char, string_of, u64_digits,
};
use vstd::arithmetic::div_mod::lemma_div_nonincreasing;
use vstd::arithmetic::power2::{lemma2_to64, lemma_pow2_pos, lemma_pow2_unfold, pow2};
use bigdecimal::num_bigint::Sign;
use bigdecimal::BigDecimal;
use std::str::FromStr;
use vstd::prelude::*;
use vstd::string::*;

verus! {

/// The model of a `Decimal`: the number `unscaled / 10^scale`. A negative
/// scale stands for trailing zeros before the decimal point.
pub struct DecimalValue {
    pub unscaled: int,
    pub scale: int,
}

/// The unscaled integer and the scale of the decimal number that
/// `bigdecimal` reads from a text, or `None` where it reads none.
pub uninterp spec fn parsed_decimal(text: Seq<char>) -> Option<(int, int)>;

/// A decimal number: sign and decimal digits of its unscaled integer, and
/// its scale. Two decimals are the same when all three are: `1.5` and
/// `1.50` are two decimals of one value.
#[derive(Debug, PartialEq, Eq)]
pub struct Decimal {
    negative: bool,
    digits: String,
    scale: i64,
}

impl View for Decimal {
    type V = DecimalValue;

    closed spec fn view(&self) -> DecimalValue {
        DecimalValue {
            unscaled: if self.negative {
                -(decimal_value(self.digits@) as int)
            } else {
                decimal_value(self.digits@) as int
            },
            scale: self.scale as int,
        }
    }
}

/// Writing a number in decimal and reading the digits gives the number.
pub proof fn lemma_decimal_digits_value(n: nat)
    ensures
        decimal_value(decimal_digits(n)) == n,
    decreases n,
{
    if n < 10 {
        assert(decimal_digits(n).drop_last() =~= Seq::<char>::empty());
        assert(decimal_value(Seq::<char>::empty()) == 0);
        assert(digit_value(digit_char(n)) == n);
    } else {
        lemma_decimal_digits_value(n / 10);
        assert(decimal_digits(n).drop_last() =~= decimal_digits(n / 10));
        assert(digit_value(digit_char(n % 10)) == n % 10);
    }
}

/// Digits without a leading zero are the digits of the number they write.
pub proof fn lemma_digits_of_value(s: Seq<char>)
    requires
        s.len() >= 1,
        all_digits(s),
        s.len() == 1 || s[0] != '0',
    ensures
        decimal_digits(decimal_value(s)) == s,
        s[0] != '0' ==> decimal_value(s) >= 1,
    decreases s.len(),
{
    let d = digit_value(s.last());
    assert(is_digit(s[s.len() - 1]));
    assert(digit_char(d) == s.last());
    if s.len() == 1 {
        assert(s.drop_last().len() == 0);
        assert(decimal_value(s.drop_last()) == 0);
        assert(decimal_digits(d) =~= s);
    } else {
        let t = s.drop_last();
        assert(t[0] == s[0]);
        assert forall|i: int| 0 <= i < t.len() implies is_digit(#[trigger] t[i]) by {
            assert(t[i] == s[i]);
        }
        lemma_digits_of_value(t);
        let n = decimal_value(s);
        assert(n == decimal_value(t) * 10 + d);
        assert(n / 10 == decimal_value(t) && n % 10 == d);
        assert(decimal_digits(n) =~= s);
    }
}

/// The number that decimal digits write, least significant digit first.
spec fn low_first_value(s: Seq<u8>) -> nat
    decreases s.len(),
{
    if s.len() == 0 {
        0
    } else {
        s[0] as nat + 10 * low_first_value(s.drop_first())
    }
}

/// The decimal digits of `n`, least significant first; none for zero.
spec fn low_first_digits(n: nat) -> Seq<u8>
    decreases n,
{
    if n == 0 {
        Seq::empty()
    } else {
        seq![(n % 10) as u8] + low_first_digits(n / 10)
    }
}

/// The digits of twice a number plus a carry, from the number's digits,
/// least significant first.
spec fn doubled(s: Seq<u8>, carry: nat) -> Seq<u8>
    decreases s.len(),
{
    if s.len() == 0 {
        if carry == 0 {
            Seq::empty()
        } else {
            seq![carry as u8]
        }
    } else {
        let t = 2 * s[0] as nat + carry;
        seq![(t % 10) as u8] + doubled(s.drop_first(), t / 10)
    }
}

/// Digits, least significant first, of a number above zero: each is below
/// ten and the last is not zero.
spec fn proper_digits(s: Seq<u8>) -> bool {
    &&& s.len() >= 1
    &&& s.last() != 0
    &&& forall|i: int| 0 <= i < s.len() ==> #[trigger] s[i] <= 9
}

/// The digits of a number above zero write that number and are proper.
proof fn lemma_low_first_digits(n: nat)
    ensures
        low_first_value(low_first_digits(n)) == n,
        n >= 1 ==> proper_digits(low_first_digits(n)),
    decreases n,
{
    if n > 0 {
        lemma_low_first_digits(n / 10);
        let rest = low_first_digits(n / 10);
        let all = low_first_digits(n);
        assert(all.drop_first() =~= rest);
        if n / 10 > 0 {
            assert(all.last() == rest.last());
            assert forall|i: int| 0 <= i < all.len() implies #[trigger] all[i] <= 9 by {
                if i > 0 {
                    assert(all[i] == rest[i - 1]);
                }
            }
        } else {
            assert(rest.len() == 0);
        }
    }
}

/// Doubling proper digits gives proper digits of twice the number, plus
/// the carry.
proof fn lemma_doubled(s: Seq<u8>, carry: nat)
    requires
        carry <= 1,
        forall|i: int| 0 <= i < s.len() ==> #[trigger] s[i] <= 9,
    ensures
        low_first_value(doubled(s, carry)) == 2 * low_first_value(s) + carry,
        forall|i: int| 0 <= i < doubled(s, carry).len() ==> #[trigger] doubled(s, carry)[i] <= 9,
        proper_digits(s) ==> proper_digits(doubled(s, carry)),
    decreases s.len(),
{
    let out = doubled(s, carry);
    if s.len() == 0 {
        if carry != 0 {
            assert(out.drop_first().len() == 0);
            assert(low_first_value(out) == out[0] as nat + 10 * low_first_value(out.drop_first()));
        }
    } else {
        assert(s[0] <= 9);
        let t = 2 * s[0] as nat + carry;
        let rest = s.drop_first();
        assert forall|i: int| 0 <= i < rest.len() implies #[trigger] rest[i] <= 9 by {
            assert(rest[i] == s[i + 1]);
        }
        lemma_doubled(rest, t / 10);
        let tail = doubled(rest, t / 10);
        assert(out.drop_first() =~= tail);
        assert(out[0] == (t % 10) as u8);
        assert(low_first_value(out) == out[0] as nat + 10 * low_first_value(tail));
        assert(low_first_value(s) == s[0] as nat + 10 * low_first_value(rest));
        assert forall|i: int| 0 <= i < out.len() implies #[trigger] out[i] <= 9 by {
            if i > 0 {
                assert(out[i] == tail[i - 1]);
            }
        }
        if proper_digits(s) {
            if rest.len() == 0 {
                assert(s[0] == s.last());
                if t / 10 == 0 {
                    assert(tail.len() == 0);
                    assert(out.last() == (t % 10) as u8);
                } else {
                    assert(tail =~= seq![(t / 10) as u8]);
                    assert(out.last() == tail.last());
                }
            } else {
                assert(rest.last() == s.last());
                assert(proper_digits(rest));
                assert(out.last() == tail.last());
            }
        }
    }
}

/// Digits read from the most significant one write the same number as
/// their mirror image read from the least significant one.
proof fn lemma_mirrored_value(low_first: Seq<u8>, high_first: Seq<char>)
    requires
        low_first.len() == high_first.len(),
        forall|i: int| 0 <= i < low_first.len() ==> #[trigger] low_first[i] <= 9,
        forall|j: int|
            0 <= j < high_first.len() ==> #[trigger] high_first[j] == digit_char(
                low_first[high_first.len() - 1 - j] as nat,
            ),
    ensures
        decimal_value(high_first) == low_first_value(low_first),
        all_digits(high_first),
    decreases low_first.len(),
{
    let n = low_first.len() as int;
    assert forall|k: int| 0 <= k < n implies is_digit(#[trigger] high_first[k]) by {
        assert(low_first[n - 1 - k] <= 9);
    }
    if n > 0 {
        let rest = low_first.drop_first();
        let front = high_first.drop_last();
        assert forall|i: int| 0 <= i < rest.len() implies #[trigger] rest[i] <= 9 by {
            assert(rest[i] == low_first[i + 1]);
        }
        assert forall|j: int| 0 <= j < front.len() implies #[trigger] front[j] == digit_char(
            rest[front.len() - 1 - j] as nat,
        ) by {
            assert(front[j] == high_first[j]);
            assert(rest[front.len() - 1 - j] == low_first[n - 1 - j]);
        }
        lemma_mirrored_value(rest, front);
        assert(high_first.last() == high_first[n - 1]);
        assert(low_first[0] <= 9);
        assert(digit_value(digit_char(low_first[0] as nat)) == low_first[0]);
    }
}

/// The digits of `n`, least significant first.
fn digits_low_first(n: u64) -> (r: Vec<u8>)
    ensures
        r@ == low_first_digits(n as nat),
{
    let mut r: Vec<u8> = Vec::new();
    let mut m: u64 = n;
    while m > 0
        invariant
            low_first_digits(n as nat) == r@ + low_first_digits(m as nat),
        decreases m,
    {
        let ghost before = r@;
        let ghost rest = low_first_digits((m / 10) as nat);
        r.push((m % 10) as u8);
        assert(before + (seq![(m % 10) as u8] + rest) =~= r@ + rest);
        m = m / 10;
    }
    assert(r@ + Seq::<u8>::empty() =~= r@);
    r
}

/// The digits of twice the number that `digits` write.
fn double(digits: &Vec<u8>) -> (r: Vec<u8>)
    requires
        proper_digits(digits@),
    ensures
        proper_digits(r@),
        low_first_value(r@) == 2 * low_first_value(digits@),
{
    let mut r: Vec<u8> = Vec::new();
    let mut carry: u8 = 0;
    let mut i: usize = 0;
    assert(digits@.skip(0) =~= digits@);
    while i < digits.len()
        invariant
            i <= digits.len(),
            carry <= 1,
            forall|k: int| 0 <= k < digits.len() ==> #[trigger] digits[k] <= 9,
            doubled(digits@, 0) == r@ + doubled(digits@.skip(i as int), carry as nat),
        decreases digits.len() - i,
    {
        let ghost before = r@;
        let ghost here = digits@.skip(i as int);
        assert(here[0] == digits[i as int]);
        assert(here.drop_first() =~= digits@.skip(i + 1));
        let t: u8 = 2 * digits[i] + carry;
        let ghost rest = doubled(digits@.skip(i + 1), (t / 10) as nat);
        r.push(t % 10);
        assert(before + (seq![(t % 10) as u8] + rest) =~= r@ + rest);
        carry = t / 10;
        i = i + 1;
    }
    let ghost before = r@;
    assert(digits@.skip(digits.len() as int).len() == 0);
    if carry > 0 {
        r.push(carry);
        assert(r@ =~= before + seq![carry]);
    } else {
        assert(before + Seq::<u8>::empty() =~= before);
    }
    proof {
        lemma_doubled(digits@, 0);
    }
    r
}

/// The digits as a string, most significant first.
fn high_first_string(digits: &Vec<u8>) -> (r: String)
    requires
        proper_digits(digits@),
    ensures
        decimal_value(r@) == low_first_value(digits@),
        r@ == decimal_digits(decimal_value(r@)),
        decimal_value(r@) >= 1,
{
    let mut r = String::new();
    let n = digits.len();
    let mut k: usize = n;
    while k > 0
        invariant
            k <= n,
            n == digits.len(),
            forall|i: int| 0 <= i < n ==> #[trigger] digits[i] <= 9,
            r@.len() == n - k,
            forall|j: int| 0 <= j < n - k ==> #[trigger] r@[j] == digit_char(digits[n - 1 - j] as nat),
        decreases k,
    {
        k = k - 1;
        let ghost before = r@;
        push_char(&mut r, char_of_digit(digits[k]));
        assert forall|j: int| 0 <= j < n - k implies #[trigger] r@[j] == digit_char(
            digits[n - 1 - j] as nat,
        ) by {
            if j < n - k - 1 {
                assert(r@[j] == before[j]);
            }
        }
    }
    proof {
        lemma_mirrored_value(digits@, r@);
        assert(r@[0] == digit_char(digits[n - 1] as nat));
        assert(digits@.last() == digits[n - 1]);
        assert(r@[0] != '0');
        lemma_digits_of_value(r@);
    }
    r
}

impl Decimal {
    /// The digits are those of the magnitude, without leading zeros, and
    /// zero has no sign.
    #[verifier::type_invariant]
    closed spec fn well_formed(self) -> bool {
        &&& self.digits@ == decimal_digits(decimal_value(self.digits@))
        &&& self.negative ==> decimal_value(self.digits@) > 0
    }

    /// The number `unscaled / 10^scale`.
    pub fn new(unscaled: i64, scale: i64) -> (r: Decimal)
        ensures
            r@.unscaled == unscaled,
            r@.scale == scale,
    {
        let magnitude: u64 = if unscaled < 0 {
            (-(unscaled as i128)) as u64
        } else {
            unscaled as u64
        };
        let digits = u64_digits(magnitude);
        proof {
            lemma_decimal_digits_value(magnitude as nat);
            assert(digits@.subrange(0, digits.len() as int) =~= digits@);
        }
        Decimal { negative: unscaled < 0, digits: string_of(&digits, 0, digits.len()), scale }
    }

    /// `significand * 2^exponent` rounded to the nearest integer, halves
    /// away from zero, with its sign, as the unscaled integer of a decimal
    /// of the given scale. The integer may have any number of digits.
    fn rounded(negative: bool, significand: u64, exponent: i32, scale: i64) -> (r: Decimal)
        requires
            significand <= SIGNIFICAND_LIMIT,
        ensures
            r@.scale == scale,
            r@.unscaled == if negative {
                -(round_half_away(significand as nat, exponent as int) as int)
            } else {
                round_half_away(significand as nat, exponent as int) as int
            },
    {
        if exponent < 0 || significand == 0 {
            let magnitude = nearest_saturating(significand, exponent);
            proof {
                if exponent < 0 {
                    lemma_pow2_pos((-exponent) as nat);
                    lemma_div_nonincreasing(significand as int, pow2((-exponent) as nat) as int);
                } else {
                    let w = pow2(exponent as nat);
                    assert(0 * w == 0) by (nonlinear_arith);
                }
            }
            let signed: i64 = if negative {
                -(magnitude as i64)
            } else {
                magnitude as i64
            };
            return Decimal::new(signed, scale);
        }
        let mut digits = digits_low_first(significand);
        proof {
            lemma_low_first_digits(significand as nat);
            lemma2_to64();
            let one = pow2(0);
            assert(significand * one == significand) by (nonlinear_arith)
                requires
                    one == 1,
            ;
        }
        let mut k: i32 = 0;
        while k < exponent
            invariant
                0 <= k <= exponent,
                significand >= 1,
                proper_digits(digits@),
                low_first_value(digits@) == significand * pow2(k as nat),
            decreases exponent - k,
        {
            proof {
                let w = pow2(k as nat);
                lemma_pow2_unfold((k + 1) as nat);
                assert(2 * (significand * w) == significand * (2 * w)) by (nonlinear_arith);
            }
            digits = double(&digits);
            k = k + 1;
        }
        Decimal { negative, digits: high_first_string(&digits), scale }
    }

    /// The number to two decimal places: its hundredths as the unscaled
    /// integer, at scale 2. No size is too large for it.
    pub fn hundredths_of(number: Number) -> (r: Decimal)
        ensures
            r@.unscaled == number.hundredths(),
            r@.scale == 2,
    {
        let (nan, infinite) = number.not_a_number_or_infinite();
        if nan {
            Decimal::new(0, 2)
        } else if infinite {
            if number.sign_bit() {
                Decimal::new(-0x8000_0000, 2)
            } else {
                Decimal::new(0x7fff_ffff, 2)
            }
        } else {
            let (negative, significand, exponent) = number.scaled_parts();
            Decimal::rounded(negative, significand, exponent, 2)
        }
    }

    /// The decimal number that `bigdecimal` reads from `text`.
    pub fn parse(text: &str) -> (r: Option<Decimal>)
        ensures
            r matches Some(d) ==> parsed_decimal(text@) == Some((d@.unscaled, d@.scale)),
            r is None ==> parsed_decimal(text@) is None,
    {
        read_decimal(text)
    }

    /// The unscaled integer in decimal, with its sign.
    pub fn unscaled_text(&self) -> (r: String)
        ensures
            r@ == decimal_text(self@.unscaled),
    {
        proof {
            use_type_invariant(self);
        }
        let mut r = String::new();
        if self.negative {
            r.append("-");
            proof {
                reveal_strlit("-");
            }
            assert(r@ =~= seq!['-']);
        }
        r.append(self.digits.as_str());
        assert(Seq::<char>::empty() + self.digits@ =~= self.digits@);
        r
    }

    /// How many digits of the unscaled integer stand after the decimal
    /// point.
    pub fn scale(&self) -> (r: i64)
        ensures
            r == self@.scale,
    {
        self.scale
    }
}

impl Clone for Decimal {
    fn clone(&self) -> (r: Decimal)
        ensures
            r == *self,
    {
        proof {
            use_type_invariant(self);
        }
        Decimal { negative: self.negative, digits: self.digits.clone(), scale: self.scale }
    }
}

/// `BigDecimal::from_str`, with the number it makes taken apart by
/// `BigDecimal::into_bigint_and_exponent`, `BigInt::sign` and
/// `BigUint::to_str_radix`.
///
/// Claimed of them: the same text always gives the same outcome, and a
/// number comes out with the digits of its magnitude free of leading zeros
/// and zero without a sign.
#[verifier::external_body]
fn read_decimal(text: &str) -> (r: Option<Decimal>)
    ensures
        r matches Some(d) ==> parsed_decimal(text@) == Some((d@.unscaled, d@.scale)),
        r matches Some(d) ==> d.well_formed(),
        r is None ==> parsed_decimal(text@) is None,
{
    match BigDecimal::from_str(text) {
        Ok(number) => {
            let (unscaled, scale) = number.into_bigint_and_exponent();
            let negative = matches!(unscaled.sign(), Sign::Minus);
            Some(Decimal { negative, digits: unscaled.magnitude().to_str_radix(10), scale })
        },
        Err(_) => None,
    }
}

} // verus!
