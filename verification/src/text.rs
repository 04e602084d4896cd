//! Characters of cell text: decimal digits, integer literals, whitespace
//! and separators, as sequences of `char`.

use vstd::prelude::*;
use vstd::string::*;

verus! {

pub open spec fn is_digit(c: char) -> bool {
    '0' <= c <= '9'
}

/// The value of a decimal digit.
pub open spec fn digit_value(c: char) -> nat {
    (c as u32 - '0' as u32) as nat
}

/// The decimal digit of a value below ten.
pub open spec fn digit_char(d: nat) -> char {
    (d + '0' as u32) as char
}

pub open spec fn all_digits(s: Seq<char>) -> bool {
    forall|i: int| 0 <= i < s.len() ==> is_digit(#[trigger] s[i])
}

/// The number that a string of decimal digits writes, most significant
/// digit first; zero for the empty string.
pub open spec fn decimal_value(s: Seq<char>) -> nat
    decreases s.len(),
{
    if s.len() == 0 {
        0
    } else {
        decimal_value(s.drop_last()) * 10 + digit_value(s.last())
    }
}

/// The decimal digits of `n`, most significant first, without leading
/// zeros: `0` is written with one digit.
pub open spec fn decimal_digits(n: nat) -> Seq<char>
    decreases n,
{
    if n < 10 {
        seq![digit_char(n)]
    } else {
        decimal_digits(n / 10).push(digit_char(n % 10))
    }
}

/// `n` in decimal, with a minus sign in front where it is negative.
pub open spec fn decimal_text(n: int) -> Seq<char> {
    if n < 0 {
        seq!['-'] + decimal_digits((-n) as nat)
    } else {
        decimal_digits(n as nat)
    }
}

/// An unsigned integer literal: one or more decimal digits, after at most
/// one `+`. Nothing else is one, not even with blanks around it.
pub open spec fn unsigned_literal(s: Seq<char>) -> Option<nat> {
    let digits = if s.len() > 0 && s[0] == '+' {
        s.drop_first()
    } else {
        s
    };
    if digits.len() > 0 && all_digits(digits) {
        Some(decimal_value(digits))
    } else {
        None
    }
}

/// A signed integer literal: one or more decimal digits, after at most one
/// `+` or `-`.
pub open spec fn signed_literal(s: Seq<char>) -> Option<int> {
    if s.len() > 0 && s[0] == '-' {
        let digits = s.drop_first();
        if digits.len() > 0 && all_digits(digits) {
            Some(-(decimal_value(digits) as int))
        } else {
            None
        }
    } else {
        match unsigned_literal(s) {
            Some(v) => Some(v as int),
            None => None,
        }
    }
}

/// The `u32` that `s` writes as an unsigned literal, if it fits.
pub open spec fn u32_literal(s: Seq<char>) -> Option<u32> {
    match unsigned_literal(s) {
        Some(v) => if v <= u32::MAX {
            Some(v as u32)
        } else {
            None
        },
        None => None,
    }
}

/// The `i32` that `s` writes as a signed literal, if it fits.
pub open spec fn i32_literal(s: Seq<char>) -> Option<i32> {
    match signed_literal(s) {
        Some(v) => if i32::MIN <= v <= i32::MAX {
            Some(v as i32)
        } else {
            None
        },
        None => None,
    }
}

/// The characters that Unicode marks `White_Space`.
pub open spec fn is_whitespace(c: char) -> bool {
    let u = c as u32;
    (0x09 <= u <= 0x0d) || u == 0x20 || u == 0x85 || u == 0xa0 || u == 0x1680 || (0x2000 <= u
        <= 0x200a) || u == 0x2028 || u == 0x2029 || u == 0x202f || u == 0x205f || u == 0x3000
}

/// The first position at or after `from` that holds no whitespace; the
/// length of `s` if there is none.
pub open spec fn skip_whitespace(s: Seq<char>, from: int) -> int
    decreases s.len() - from,
{
    if 0 <= from < s.len() && is_whitespace(s[from]) {
        skip_whitespace(s, from + 1)
    } else {
        from
    }
}

/// The end of the last stretch without trailing whitespace that ends at or
/// before `to` and does not reach below `floor`.
pub open spec fn skip_whitespace_back(s: Seq<char>, to: int, floor: int) -> int
    decreases to - floor,
{
    if floor < to <= s.len() && 0 <= floor && is_whitespace(s[to - 1]) {
        skip_whitespace_back(s, to - 1, floor)
    } else {
        to
    }
}

/// `s` without the whitespace at its start and at its end.
pub open spec fn trimmed(s: Seq<char>) -> Seq<char> {
    let start = skip_whitespace(s, 0);
    s.subrange(start, skip_whitespace_back(s, s.len() as int, start))
}

/// The first position at or after `from` that holds `c`; the length of `s`
/// if there is none.
pub open spec fn find_from(s: Seq<char>, c: char, from: int) -> int
    decreases s.len() - from,
{
    if 0 <= from < s.len() && s[from] != c {
        find_from(s, c, from + 1)
    } else if from < s.len() {
        from
    } else {
        s.len() as int
    }
}

/// `s` with every comma turned into a full stop.
pub open spec fn with_decimal_points(s: Seq<char>) -> Seq<char> {
    s.map_values(
        |c: char|
            if c == ',' {
                '.'
            } else {
                c
            },
    )
}

/// `s` read from its end to its start.
pub open spec fn backwards(s: Seq<char>) -> Seq<char> {
    Seq::new(s.len(), |i: int| s[s.len() - 1 - i])
}

/// Ten to the power `k`.
pub open spec fn pow10(k: nat) -> nat
    decreases k,
{
    if k == 0 {
        1
    } else {
        10 * pow10((k - 1) as nat)
    }
}

/// Every number has a digit.
pub proof fn lemma_digits_nonempty(n: nat)
    ensures
        decimal_digits(n).len() >= 1,
    decreases n,
{
    if n >= 10 {
        lemma_digits_nonempty(n / 10);
    }
}

/// The powers of ten are positive, and from the first on at least ten.
pub proof fn lemma_pow10_grows(k: nat)
    ensures
        pow10(k) >= 1,
        k >= 1 ==> pow10(k) >= 10,
    decreases k,
{
    reveal_with_fuel(pow10, 2);
    if k > 0 {
        lemma_pow10_grows((k - 1) as nat);
    }
}

/// A number has at most `k` digits exactly when it is below ten to the
/// power `k`.
pub proof fn lemma_digit_count(n: nat, k: nat)
    requires
        k >= 1,
    ensures
        decimal_digits(n).len() <= k <==> n < pow10(k),
    decreases k,
{
    reveal_with_fuel(pow10, 2);
    lemma_pow10_grows(k);
    lemma_digits_nonempty(n);
    if n >= 10 {
        lemma_digits_nonempty(n / 10);
        if k > 1 {
            lemma_digit_count(n / 10, (k - 1) as nat);
        }
    }
}

/// The digit that stands `p` places from the end of a number's digits is
/// the number divided by ten to the power `p`, modulo ten.
pub proof fn lemma_digit_at(n: nat, p: nat)
    requires
        p < decimal_digits(n).len(),
    ensures
        decimal_digits(n)[decimal_digits(n).len() - 1 - p] == digit_char((n / pow10(p)) % 10),
    decreases p,
{
    reveal_with_fuel(pow10, 2);
    if p > 0 {
        let q = (p - 1) as nat;
        assert(n >= 10);
        let shorter = decimal_digits(n / 10);
        assert(decimal_digits(n) == shorter.push(digit_char(n % 10)));
        lemma_digit_at(n / 10, q);
        lemma_pow10_grows(q);
        vstd::arithmetic::div_mod::lemma_div_denominator(n as int, 10, pow10(q) as int);
        assert(pow10(p) == 10 * pow10(q));
        assert((n / 10) / pow10(q) == n / pow10(p));
        assert(decimal_digits(n)[decimal_digits(n).len() - 1 - p] == shorter[shorter.len() - 1 - q]);
    } else {
        assert(pow10(0) == 1);
        assert(n / 1 == n);
    }
}

/// A prefix of a digit string writes no larger a number than the string.
pub proof fn lemma_decimal_value_prefix(s: Seq<char>, k: int)
    requires
        0 <= k <= s.len(),
    ensures
        decimal_value(s.take(k)) <= decimal_value(s),
    decreases s.len() - k,
{
    if k == s.len() {
        assert(s.take(k) =~= s);
    } else {
        lemma_decimal_value_prefix(s.drop_last(), k);
        assert(s.drop_last().take(k) =~= s.take(k));
    }
}

/// One more digit multiplies by ten and adds the digit.
pub proof fn lemma_decimal_value_step(s: Seq<char>, k: int)
    requires
        0 <= k < s.len(),
    ensures
        decimal_value(s.take(k + 1)) == decimal_value(s.take(k)) * 10 + digit_value(s[k]),
{
    assert(s.take(k + 1).drop_last() =~= s.take(k));
}

pub fn char_is_digit(c: char) -> (r: bool)
    ensures
        r == is_digit(c),
{
    '0' <= c && c <= '9'
}

pub fn char_is_whitespace(c: char) -> (r: bool)
    ensures
        r == is_whitespace(c),
{
    let u: u32 = c as u32;
    (0x09 <= u && u <= 0x0d) || u == 0x20 || u == 0x85 || u == 0xa0 || u == 0x1680 || (0x2000 <= u
        && u <= 0x200a) || u == 0x2028 || u == 0x2029 || u == 0x202f || u == 0x205f || u == 0x3000
}

/// The decimal digit of a value below ten.
pub fn char_of_digit(d: u8) -> (r: char)
    requires
        d <= 9,
    ensures
        r == digit_char(d as nat),
{
    (d + 48u8) as char
}

/// The characters of `s`, in order.
pub fn chars_of(s: &str) -> (v: Vec<char>)
    ensures
        v@ == s@,
{
    let mut v: Vec<char> = Vec::new();
    for c in it: s.chars()
        invariant
            it.seq() == s@,
            v@ == s@.take(it.index() as int),
    {
        v.push(c);
    }
    v
}

/// `String::push`.
///
/// Claimed of it: the string afterwards is the string before with `c` at
/// its end.
#[verifier::external_body]
pub(crate) fn push_char(s: &mut String, c: char)
    ensures
        final(s)@ == old(s)@.push(c),
{
    s.push(c);
}

/// The string made of `chars[from..to]`.
pub fn string_of(chars: &Vec<char>, from: usize, to: usize) -> (r: String)
    requires
        from <= to <= chars.len(),
    ensures
        r@ == chars@.subrange(from as int, to as int),
{
    let mut r = String::new();
    let mut i: usize = from;
    while i < to
        invariant
            from <= i <= to <= chars.len(),
            r@ == chars@.subrange(from as int, i as int),
        decreases to - i,
    {
        push_char(&mut r, chars[i]);
        i = i + 1;
        assert(r@ =~= chars@.subrange(from as int, i as int));
    }
    r
}

/// The text with every comma turned into a full stop.
pub fn replace_commas(chars: &Vec<char>) -> (r: String)
    ensures
        r@ == with_decimal_points(chars@),
{
    let mut r = String::new();
    let mut i: usize = 0;
    while i < chars.len()
        invariant
            i <= chars.len(),
            r@ == with_decimal_points(chars@.take(i as int)),
        decreases chars.len() - i,
    {
        let c = chars[i];
        push_char(
            &mut r,
            if c == ',' {
                '.'
            } else {
                c
            },
        );
        i = i + 1;
        assert(r@ =~= with_decimal_points(chars@.take(i as int)));
    }
    assert(chars@.take(chars.len() as int) =~= chars@);
    r
}

/// The number written by the digits `chars[from..to]`, where there is at
/// least one, all are digits and the number is at most `limit`.
pub fn digits_value(chars: &Vec<char>, from: usize, to: usize, limit: u64) -> (r: Option<u64>)
    requires
        from <= to <= chars.len(),
        limit <= 0xffff_ffff_ffff,
    ensures
        r == ({
            let digits = chars@.subrange(from as int, to as int);
            if digits.len() > 0 && all_digits(digits) && decimal_value(digits) <= limit {
                Some(decimal_value(digits) as u64)
            } else {
                None
            }
        }),
{
    let ghost digits = chars@.subrange(from as int, to as int);
    if from == to {
        return None;
    }
    let mut value: u64 = 0;
    let mut i: usize = from;
    while i < to
        invariant
            from <= i <= to <= chars.len(),
            digits == chars@.subrange(from as int, to as int),
            all_digits(digits.take(i - from)),
            value == decimal_value(digits.take(i - from)),
            value <= limit <= 0xffff_ffff_ffff,
        decreases to - i,
    {
        let c = chars[i];
        proof {
            assert(digits[i - from] == c);
            lemma_decimal_value_step(digits, i - from);
            lemma_decimal_value_prefix(digits, i - from + 1);
        }
        if !char_is_digit(c) {
            return None;
        }
        let next: u64 = value * 10 + (c as u32 - '0' as u32) as u64;
        if next > limit {
            return None;
        }
        value = next;
        i = i + 1;
    }
    assert(digits.take(to - from) =~= digits);
    Some(value)
}

/// The `u32` that `chars[from..to]` writes as an unsigned literal.
pub fn parse_u32(chars: &Vec<char>, from: usize, to: usize) -> (r: Option<u32>)
    requires
        from <= to <= chars.len(),
    ensures
        r == u32_literal(chars@.subrange(from as int, to as int)),
{
    let ghost s = chars@.subrange(from as int, to as int);
    let start = if from < to && chars[from] == '+' {
        assert(s.drop_first() =~= chars@.subrange(from + 1, to as int));
        from + 1
    } else {
        from
    };
    match digits_value(chars, start, to, 0xffff_ffff) {
        Some(v) => Some(v as u32),
        None => None,
    }
}

/// The `i32` that `chars[from..to]` writes as a signed literal.
pub fn parse_i32(chars: &Vec<char>, from: usize, to: usize) -> (r: Option<i32>)
    requires
        from <= to <= chars.len(),
    ensures
        r == i32_literal(chars@.subrange(from as int, to as int)),
{
    let ghost s = chars@.subrange(from as int, to as int);
    if from < to && chars[from] == '-' {
        assert(s.drop_first() =~= chars@.subrange(from + 1, to as int));
        match digits_value(chars, from + 1, to, 0x8000_0000) {
            Some(v) => Some((-(v as i64)) as i32),
            None => None,
        }
    } else {
        let start = if from < to && chars[from] == '+' {
            assert(s.drop_first() =~= chars@.subrange(from + 1, to as int));
            from + 1
        } else {
            from
        };
        match digits_value(chars, start, to, 0x7fff_ffff) {
            Some(v) => Some(v as i32),
            None => None,
        }
    }
}

/// The decimal digits of `n`.
pub fn u64_digits(n: u64) -> (r: Vec<char>)
    ensures
        r@ == decimal_digits(n as nat),
{
    let mut rev: Vec<char> = Vec::new();
    let mut m: u64 = n;
    assert(backwards(rev@) =~= Seq::<char>::empty());
    while m >= 10
        invariant
            decimal_digits(n as nat) == decimal_digits(m as nat) + backwards(rev@),
        decreases m,
    {
        let ghost before = rev@;
        rev.push(char_of_digit((m % 10) as u8));
        assert(backwards(rev@) =~= seq![digit_char((m % 10) as nat)] + backwards(before));
        assert(decimal_digits(m as nat) + backwards(before) =~= decimal_digits((m / 10) as nat)
            + backwards(rev@));
        m = m / 10;
    }
    let mut r: Vec<char> = Vec::new();
    r.push(char_of_digit(m as u8));
    let mut k: usize = rev.len();
    while k > 0
        invariant
            k <= rev.len(),
            m < 10,
            r@ == decimal_digits(m as nat) + backwards(rev@).take(rev.len() - k),
        decreases k,
    {
        k = k - 1;
        r.push(rev[k]);
        assert(r@ =~= decimal_digits(m as nat) + backwards(rev@).take(rev.len() - k));
    }
    assert(backwards(rev@).take(rev.len() as int) =~= backwards(rev@));
    r
}

/// `n` in decimal, as a string.
pub fn i64_text(n: i64) -> (r: String)
    ensures
        r@ == decimal_text(n as int),
{
    let digits = if n < 0 {
        u64_digits((-(n as i128)) as u64)
    } else {
        u64_digits(n as u64)
    };
    let mut r = String::new();
    if n < 0 {
        push_char(&mut r, '-');
    }
    let ghost sign = r@;
    let mut i: usize = 0;
    while i < digits.len()
        invariant
            i <= digits.len(),
            r@ == sign + digits@.take(i as int),
        decreases digits.len() - i,
    {
        push_char(&mut r, digits[i]);
        i = i + 1;
        assert(r@ =~= sign + digits@.take(i as int));
    }
    assert(digits@.take(digits.len() as int) =~= digits@);
    assert(Seq::<char>::empty() + digits@ =~= digits@);
    r
}

/// `find_from` on a vector.
pub fn find_char(chars: &Vec<char>, c: char, from: usize) -> (r: usize)
    requires
        from <= chars.len(),
    ensures
        r == find_from(chars@, c, from as int),
        from <= r <= chars.len(),
        r < chars.len() ==> chars[r as int] == c,
{
    let mut i: usize = from;
    while i < chars.len() && chars[i] != c
        invariant
            from <= i <= chars.len(),
            find_from(chars@, c, from as int) == find_from(chars@, c, i as int),
        decreases chars.len() - i,
    {
        i = i + 1;
    }
    i
}

/// Where the text starts and ends once the whitespace around it is left
/// out.
pub fn trim_bounds(chars: &Vec<char>) -> (r: (usize, usize))
    ensures
        r.0 <= r.1 <= chars.len(),
        chars@.subrange(r.0 as int, r.1 as int) == trimmed(chars@),
{
    let mut start: usize = 0;
    while start < chars.len() && char_is_whitespace(chars[start])
        invariant
            start <= chars.len(),
            skip_whitespace(chars@, 0) == skip_whitespace(chars@, start as int),
        decreases chars.len() - start,
    {
        start = start + 1;
    }
    let mut end: usize = chars.len();
    while end > start && char_is_whitespace(chars[end - 1])
        invariant
            start <= end <= chars.len(),
            skip_whitespace_back(chars@, chars.len() as int, start as int) == skip_whitespace_back(
                chars@,
                end as int,
                start as int,
            ),
        decreases end,
    {
        end = end - 1;
    }
    (start, end)
}

} // verus!
