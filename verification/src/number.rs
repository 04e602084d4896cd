//! The numeric payload of a cell: a binary64 value held as its bit pattern,
//! read with integer arithmetic only.
//!
//! A finite value is `significand * 2^exponent`, negated when the sign bit is
//! set. Everything below is stated over that pair.

use vstd::arithmetic::div_mod::{
    lemma_basic_div, lemma_fundamental_div_mod, lemma_div_multiples_vanish, lemma_mod_multiples_basic, lemma_small_mod,
};
use vstd::arithmetic::mul::lemma_mul_is_commutative;
use vstd::arithmetic::power2::{
    lemma2_to64, lemma2_to64_rest, lemma_pow2_adds, lemma_pow2_pos, lemma_pow2_strictly_increases,
    lemma_pow2_unfold, pow2,
};
use vstd::prelude::*;

verus! {

/// Weight of the sign bit in the bit pattern.
pub const SIGN_BIT: u64 = 0x8000_0000_0000_0000;

/// Two to the power 52: the weight of the exponent field's lowest bit, and
/// the implicit leading bit of a normal significand.
pub const HIDDEN_BIT: u64 = 0x10_0000_0000_0000;

/// Two to the power 53: every significand is below it.
pub const SIGNIFICAND_LIMIT: u64 = 0x20_0000_0000_0000;

/// The exponent field of infinities and NaNs.
pub const EXPONENT_SPECIAL: u64 = 0x7ff;

/// `m * 2^e` rounded to the nearest integer, halves away from zero.
pub open spec fn round_half_away(m: nat, e: int) -> nat {
    if e >= 0 {
        m * pow2(e as nat)
    } else {
        let d = pow2((-e) as nat);
        if 2 * (m % d) >= d {
            m / d + 1
        } else {
            m / d
        }
    }
}

/// `p / 2^s` rounded to the nearest integer, halves to the even neighbour.
pub open spec fn round_half_even(p: nat, s: nat) -> nat {
    let d = pow2(s);
    let q = p / d;
    let r = p % d;
    if 2 * r > d || (2 * r == d && q % 2 == 1) {
        q + 1
    } else {
        q
    }
}

/// How many low bits a product below `2^60` must shed to fit 53 bits.
pub open spec fn excess_bits(p: nat) -> nat {
    if p < 0x20_0000_0000_0000 {
        0
    } else if p < 0x40_0000_0000_0000 {
        1
    } else if p < 0x80_0000_0000_0000 {
        2
    } else if p < 0x100_0000_0000_0000 {
        3
    } else if p < 0x200_0000_0000_0000 {
        4
    } else if p < 0x400_0000_0000_0000 {
        5
    } else if p < 0x800_0000_0000_0000 {
        6
    } else {
        7
    }
}

/// `v` limited to the interval from `lo` to `hi`.
pub open spec fn clamp(v: int, lo: int, hi: int) -> int {
    if v < lo {
        lo
    } else if v > hi {
        hi
    } else {
        v
    }
}

/// A binary64 value, held as its 64-bit pattern: one sign bit, eleven
/// exponent bits, fifty-two fraction bits.
#[derive(Clone, Copy, Debug, PartialEq, Eq, Structural)]
pub struct Number {
    pub bits: u64,
}

impl Number {
    /// Whether the sign bit is set.
    pub open spec fn negative(self) -> bool {
        self.bits >= SIGN_BIT
    }

    /// The eleven-bit exponent field.
    pub open spec fn exponent_field(self) -> nat {
        ((self.bits / HIDDEN_BIT) % 0x800) as nat
    }

    /// The fifty-two-bit fraction field.
    pub open spec fn fraction(self) -> nat {
        (self.bits % HIDDEN_BIT) as nat
    }

    pub open spec fn is_nan(self) -> bool {
        self.exponent_field() == EXPONENT_SPECIAL && self.fraction() != 0
    }

    pub open spec fn is_infinite(self) -> bool {
        self.exponent_field() == EXPONENT_SPECIAL && self.fraction() == 0
    }

    pub open spec fn is_finite(self) -> bool {
        self.exponent_field() < EXPONENT_SPECIAL
    }

    /// The integer significand of a finite value; subnormals have no
    /// implicit leading bit.
    pub open spec fn significand(self) -> nat {
        if self.exponent_field() == 0 {
            self.fraction()
        } else {
            self.fraction() + HIDDEN_BIT as nat
        }
    }

    /// The power of two that scales the significand of a finite value.
    pub open spec fn exponent(self) -> int {
        if self.exponent_field() == 0 {
            -1074
        } else {
            self.exponent_field() - 1075
        }
    }

    /// The integer nearest to a finite value, halves away from zero.
    pub open spec fn rounded(self) -> int {
        let magnitude = round_half_away(self.significand(), self.exponent());
        if self.negative() {
            -magnitude
        } else {
            magnitude as int
        }
    }

    /// The nearest integer brought into `lo..=hi`: a NaN gives zero, an
    /// infinity the bound on its side.
    pub open spec fn saturated(self, lo: int, hi: int) -> int {
        if self.is_nan() {
            0
        } else if self.is_infinite() {
            if self.negative() {
                lo
            } else {
                hi
            }
        } else {
            clamp(self.rounded(), lo, hi)
        }
    }

    /// The integer that a finite value equals exactly, if it is one.
    pub open spec fn integer_value(self) -> Option<int> {
        let m = self.significand();
        let e = self.exponent();
        if !self.is_finite() {
            None
        } else if e >= 0 {
            Some(
                if self.negative() {
                    -(m * pow2(e as nat))
                } else {
                    (m * pow2(e as nat)) as int
                },
            )
        } else if m % pow2((-e) as nat) == 0 {
            Some(
                if self.negative() {
                    -(m / pow2((-e) as nat))
                } else {
                    (m / pow2((-e) as nat)) as int
                },
            )
        } else {
            None
        }
    }

    /// The significand of the value times one hundred, as the binary64
    /// product holds it: kept to 53 bits, halves to even.
    pub open spec fn scaled_significand(self) -> nat {
        let p = self.significand() * 100;
        round_half_even(p, excess_bits(p))
    }

    /// The power of two that scales `scaled_significand`.
    pub open spec fn scaled_exponent(self) -> int {
        self.exponent() + excess_bits(self.significand() * 100)
    }

    /// The integer nearest to the binary64 product of a finite value and one
    /// hundred, halves away from zero.
    ///
    /// Binary64 holds products below its normal range more coarsely than 53
    /// bits; those round to zero either way. A product too large for
    /// binary64 is taken here with the same 53 bits and a larger exponent,
    /// so that every finite value has its hundredths.
    pub open spec fn scaled_rounded(self) -> int {
        let magnitude = round_half_away(self.scaled_significand(), self.scaled_exponent());
        if self.negative() {
            -magnitude
        } else {
            magnitude as int
        }
    }

    /// The value in hundredths, whatever its size: `scaled_rounded` for a
    /// finite value. What is no number has no hundredths of its own: a NaN
    /// is given zero, an infinity the 32-bit bound on its side.
    pub open spec fn hundredths(self) -> int {
        if self.is_nan() {
            0
        } else if self.is_infinite() {
            if self.negative() {
                i32::MIN as int
            } else {
                i32::MAX as int
            }
        } else {
            self.scaled_rounded()
        }
    }

    /// Wraps a bit pattern.
    pub fn from_bits(bits: u64) -> (r: Number)
        ensures
            r.bits == bits,
    {
        Number { bits }
    }

    /// The bit pattern.
    pub fn to_bits(self) -> (r: u64)
        ensures
            r == self.bits,
    {
        self.bits
    }

    /// Sign, exponent field and fraction field.
    fn fields(self) -> (r: (bool, u64, u64))
        ensures
            r.0 == self.negative(),
            r.1 == self.exponent_field(),
            r.2 == self.fraction(),
            r.1 <= EXPONENT_SPECIAL,
            r.2 < HIDDEN_BIT,
    {
        (self.bits >= SIGN_BIT, (self.bits / HIDDEN_BIT) % 0x800, self.bits % HIDDEN_BIT)
    }

    /// Significand and exponent of a finite value.
    fn parts(exponent_field: u64, fraction: u64) -> (r: (u64, i32))
        requires
            exponent_field < EXPONENT_SPECIAL,
            fraction < HIDDEN_BIT,
        ensures
            r.0 == if exponent_field == 0 {
                fraction as int
            } else {
                fraction + HIDDEN_BIT
            },
            r.1 == if exponent_field == 0 {
                -1074
            } else {
                exponent_field - 1075
            },
            r.0 < SIGNIFICAND_LIMIT,
    {
        if exponent_field == 0 {
            (fraction, -1074)
        } else {
            (fraction + HIDDEN_BIT, exponent_field as i32 - 1075)
        }
    }

    /// The nearest integer as a `u64`: zero for a NaN and for every
    /// negative value, `u64::MAX` from there upwards.
    pub fn round_to_u64(self) -> (r: u64)
        ensures
            r == self.saturated(0, u64::MAX as int),
    {
        let (negative, exponent_field, fraction) = self.fields();
        if exponent_field == EXPONENT_SPECIAL {
            if fraction != 0 || negative {
                0
            } else {
                u64::MAX
            }
        } else if negative {
            0
        } else {
            let (m, e) = Number::parts(exponent_field, fraction);
            nearest_saturating(m, e)
        }
    }

    /// The nearest integer as an `i64`: zero for a NaN, the nearer bound for
    /// what lies outside the type.
    pub fn round_to_i64(self) -> (r: i64)
        ensures
            r == self.saturated(i64::MIN as int, i64::MAX as int),
    {
        let (negative, exponent_field, fraction) = self.fields();
        if exponent_field == EXPONENT_SPECIAL {
            if fraction != 0 {
                0
            } else if negative {
                i64::MIN
            } else {
                i64::MAX
            }
        } else {
            let (m, e) = Number::parts(exponent_field, fraction);
            let magnitude = nearest_saturating(m, e);
            if negative {
                if magnitude > 0x7fff_ffff_ffff_ffff {
                    i64::MIN
                } else {
                    -(magnitude as i64)
                }
            } else if magnitude > 0x7fff_ffff_ffff_ffff {
                i64::MAX
            } else {
                magnitude as i64
            }
        }
    }

    /// The nearest integer as an `i32`: zero for a NaN, the nearer bound for
    /// what lies outside the type.
    pub fn round_to_i32(self) -> (r: i32)
        ensures
            r == self.saturated(i32::MIN as int, i32::MAX as int),
    {
        let (negative, exponent_field, fraction) = self.fields();
        if exponent_field == EXPONENT_SPECIAL {
            if fraction != 0 {
                0
            } else if negative {
                i32::MIN
            } else {
                i32::MAX
            }
        } else {
            let (m, e) = Number::parts(exponent_field, fraction);
            signed_i32(negative, nearest_saturating(m, e))
        }
    }

    /// Sign, significand and exponent of the binary64 product of a finite
    /// value and one hundred.
    pub(crate) fn scaled_parts(self) -> (r: (bool, u64, i32))
        requires
            self.is_finite(),
        ensures
            r.0 == self.negative(),
            r.1 == self.scaled_significand(),
            r.2 == self.scaled_exponent(),
            r.1 <= SIGNIFICAND_LIMIT,
    {
        let (negative, exponent_field, fraction) = self.fields();
        let (m, e) = Number::parts(exponent_field, fraction);
        let p: u64 = m * 100;
        let s: u32 = excess_bits_of(p);
        (negative, nearest_even(p, s), e + s as i32)
    }

    /// Whether the value is a NaN, and whether it is an infinity.
    pub(crate) fn not_a_number_or_infinite(self) -> (r: (bool, bool))
        ensures
            r.0 == self.is_nan(),
            r.1 == self.is_infinite(),
    {
        let (_, exponent_field, fraction) = self.fields();
        (
            exponent_field == EXPONENT_SPECIAL && fraction != 0,
            exponent_field == EXPONENT_SPECIAL && fraction == 0,
        )
    }

    /// Whether the sign bit is set.
    pub(crate) fn sign_bit(self) -> (r: bool)
        ensures
            r == self.negative(),
    {
        self.bits >= SIGN_BIT
    }

    /// The binary64 value that equals `n`; every 32-bit integer has one, and
    /// by `lemma_integer_value_unique` only one, zero being given its
    /// positive form.
    pub fn from_i32(n: i32) -> (r: Number)
        ensures
            r.integer_value() == Some(n as int),
            r.negative() == (n < 0),
            r.is_finite(),
            n == 0 ==> r.bits == 0,
    {
        if n == 0 {
            proof {
                lemma_pow2_pos(1074);
                let d = pow2(1074);
                lemma_small_mod(0, d);
                lemma_basic_div(0, d as int);
            }
            return Number { bits: 0 };
        }
        let magnitude: u64 = if n < 0 {
            (-(n as i64)) as u64
        } else {
            n as u64
        };
        let mut m: u64 = magnitude;
        let mut shift: u32 = 0;
        proof {
            lemma2_to64();
            lemma2_to64_rest();
        }
        while m < HIDDEN_BIT
            invariant
                0 < magnitude <= 0x8000_0000,
                m == magnitude * pow2(shift as nat),
                0 < m < SIGNIFICAND_LIMIT,
                shift <= 52,
                m >= pow2(shift as nat),
                pow2(52) == HIDDEN_BIT,
            decreases SIGNIFICAND_LIMIT - m,
        {
            proof {
                let w = pow2(shift as nat);
                lemma_pow2_unfold((shift + 1) as nat);
                assert(magnitude * (2 * w) == 2 * (magnitude * w)) by (nonlinear_arith);
                if shift >= 52 {
                    assert(false);
                }
            }
            m = m * 2;
            shift = shift + 1;
        }
        let exponent_field: u64 = (1075 - shift) as u64;
        let sign: u64 = if n < 0 {
            SIGN_BIT
        } else {
            0
        };
        let r = Number { bits: sign + exponent_field * HIDDEN_BIT + (m - HIDDEN_BIT) };
        proof {
            assert(r.exponent_field() == exponent_field);
            assert(r.fraction() == m - HIDDEN_BIT);
            assert(r.significand() == m);
            assert(r.exponent() == -(shift as int));
            assert(shift >= 1) by {
                lemma2_to64();
            }
            let d = pow2(shift as nat);
            lemma_mul_is_commutative(magnitude as int, d as int);
            lemma_mod_multiples_basic(magnitude as int, d as int);
            lemma_div_multiples_vanish(magnitude as int, d as int);
        }
        r
    }

    /// The significand of a finite value that equals an integer, scaled to
    /// the smallest power of two that any value has, is that integer's
    /// magnitude scaled likewise.
    proof fn lemma_integer_value_scaled(self)
        requires
            self.integer_value() is Some,
        ensures
            self.exponent() + 1074 >= 0,
            self.significand() * pow2((self.exponent() + 1074) as nat) == (if self.negative() {
                -(self.integer_value()->0)
            } else {
                self.integer_value()->0
            }) * pow2(1074),
            self.negative() ==> self.integer_value()->0 <= 0,
            !self.negative() ==> self.integer_value()->0 >= 0,
    {
        let m = self.significand();
        let e = self.exponent();
        let low = pow2(1074);
        if e >= 0 {
            let w = pow2(e as nat);
            lemma_pow2_adds(e as nat, 1074);
            assert(m * (w * low) == (m * w) * low) by (nonlinear_arith);
        } else {
            let k = (-e) as nat;
            let d = pow2(k);
            let rest = pow2((e + 1074) as nat);
            lemma_pow2_pos(k);
            lemma_pow2_adds(k, (e + 1074) as nat);
            lemma_fundamental_div_mod(m as int, d as int);
            let q = m / d;
            assert(m == d * q);
            assert((d * q) * rest == q * (d * rest)) by (nonlinear_arith);
        }
    }

    /// A nonzero integer has one binary64 value: two finite values that
    /// equal the same nonzero integer have the same bit pattern.
    pub proof fn lemma_integer_value_unique(self, other: Number)
        requires
            self.integer_value() is Some,
            self.integer_value() == other.integer_value(),
            self.integer_value()->0 != 0,
        ensures
            self == other,
    {
        self.lemma_integer_value_scaled();
        other.lemma_integer_value_scaled();
        let v = self.integer_value()->0;
        let magnitude: int = if v < 0 {
            -v
        } else {
            v
        };
        let low = pow2(1074);
        lemma_pow2_pos(1074);
        lemma2_to64_rest();
        lemma_pow2_strictly_increases(53, 1074);
        assert(magnitude * low >= low) by (nonlinear_arith)
            requires
                magnitude >= 1,
                low > 0,
        ;
        let ma = self.significand();
        let mb = other.significand();
        let ea = (self.exponent() + 1074) as nat;
        let eb = (other.exponent() + 1074) as nat;
        let pa = pow2(ea);
        let pb = pow2(eb);
        lemma_pow2_pos(ea);
        lemma_pow2_pos(eb);
        lemma2_to64();
        assert(self.negative() == other.negative());
        assert(ma * pa == mb * pb);
        // a subnormal value is below one, so both are normal
        assert(ma * pa == magnitude * low);
        assert(mb * pb == magnitude * low);
        if self.exponent_field() == 0 {
            assert(ea == 0 && pa == 1);
            assert(ma * pa == ma) by (nonlinear_arith)
                requires
                    pa == 1,
            ;
            assert(false);
        }
        if other.exponent_field() == 0 {
            assert(eb == 0 && pb == 1);
            assert(mb * pb == mb) by (nonlinear_arith)
                requires
                    pb == 1,
            ;
            assert(false);
        }
        if ea < eb {
            let q = pow2((eb - ea) as nat);
            lemma_pow2_adds(ea, (eb - ea) as nat);
            lemma_pow2_strictly_increases(0, (eb - ea) as nat);
            assert(false) by (nonlinear_arith)
                requires
                    ma * pa == mb * (pa * q),
                    pa > 0,
                    q >= 2,
                    mb >= 0x10_0000_0000_0000,
                    ma < 0x20_0000_0000_0000,
            ;
        }
        if eb < ea {
            let q = pow2((ea - eb) as nat);
            lemma_pow2_adds(eb, (ea - eb) as nat);
            lemma_pow2_strictly_increases(0, (ea - eb) as nat);
            assert(false) by (nonlinear_arith)
                requires
                    mb * pb == ma * (pb * q),
                    pb > 0,
                    q >= 2,
                    ma >= 0x10_0000_0000_0000,
                    mb < 0x20_0000_0000_0000,
            ;
        }
        assert(ma == mb) by (nonlinear_arith)
            requires
                ma * pa == mb * pa,
                pa > 0,
        ;
        assert(self.bits == other.bits);
    }

    /// A value that equals an integer rounds to that integer.
    pub proof fn lemma_integer_value_rounds(self)
        requires
            self.integer_value() is Some,
        ensures
            self.rounded() == self.integer_value()->0,
    {
        if self.exponent() < 0 {
            lemma_pow2_pos((-self.exponent()) as nat);
        }
    }
}

/// Two to the power `k`.
fn pow2_u64(k: u32) -> (r: u64)
    requires
        k < 64,
    ensures
        r == pow2(k as nat),
{
    let mut r: u64 = 1;
    let mut i: u32 = 0;
    proof {
        lemma2_to64();
    }
    while i < k
        invariant
            i <= k < 64,
            r == pow2(i as nat),
        decreases k - i,
    {
        proof {
            lemma_pow2_unfold((i + 1) as nat);
            if i + 1 < 63 {
                lemma_pow2_strictly_increases((i + 1) as nat, 63);
            }
            lemma2_to64_rest();
        }
        r = r * 2;
        i = i + 1;
    }
    r
}

/// `round_half_away`, cut off at `u64::MAX`.
pub(crate) fn nearest_saturating(m: u64, e: i32) -> (r: u64)
    requires
        m <= SIGNIFICAND_LIMIT,
    ensures
        r == clamp(round_half_away(m as nat, e as int) as int, 0, u64::MAX as int),
{
    if m == 0 {
        proof {
            if e >= 0 {
                let w = pow2(e as nat);
                assert(0 * w == 0) by (nonlinear_arith);
            } else {
                let d = pow2((-e) as nat);
                lemma_pow2_pos((-e) as nat);
                lemma_small_mod(0, d);
                lemma_basic_div(0, d as int);
            }
        }
        0
    } else if e >= 64 {
        proof {
            if e > 64 {
                lemma_pow2_strictly_increases(64, e as nat);
            }
            lemma2_to64();
            let p = pow2(e as nat);
            assert(m * p >= p) by (nonlinear_arith)
                requires
                    m >= 1,
                    p >= 0,
            ;
        }
        u64::MAX
    } else if e >= 0 {
        let p = pow2_u64(e as u32);
        proof {
            assert(m as u128 * p as u128 <= 0x20_0000_0000_0000 * 0xffff_ffff_ffff_ffff)
                by (nonlinear_arith)
                requires
                    m <= 0x20_0000_0000_0000,
                    p <= 0xffff_ffff_ffff_ffff,
            ;
        }
        let wide: u128 = m as u128 * p as u128;
        if wide > 0xffff_ffff_ffff_ffff {
            u64::MAX
        } else {
            wide as u64
        }
    } else if e <= -64 {
        proof {
            lemma2_to64_rest();
            if e < -64 {
                lemma_pow2_strictly_increases(64, (-e) as nat);
            }
            let d = pow2((-e) as nat);
            lemma_small_mod(m as nat, d);
            lemma_basic_div(m as int, d as int);
        }
        0
    } else {
        let d = pow2_u64((-e) as u32);
        proof {
            lemma_pow2_pos((-e) as nat);
        }
        let q = m / d;
        let r = m % d;
        if r >= d - r {
            q + 1
        } else {
            q
        }
    }
}

/// `excess_bits` of a product below `2^60`.
fn excess_bits_of(p: u64) -> (s: u32)
    requires
        p < 0x1000_0000_0000_0000,
    ensures
        s == excess_bits(p as nat),
        s <= 7,
        p < pow2((53 + s) as nat),
{
    proof {
        lemma2_to64_rest();
    }
    if p < 0x20_0000_0000_0000 {
        0
    } else if p < 0x40_0000_0000_0000 {
        1
    } else if p < 0x80_0000_0000_0000 {
        2
    } else if p < 0x100_0000_0000_0000 {
        3
    } else if p < 0x200_0000_0000_0000 {
        4
    } else if p < 0x400_0000_0000_0000 {
        5
    } else if p < 0x800_0000_0000_0000 {
        6
    } else {
        7
    }
}

/// `round_half_even` of a value that comes out within 53 bits.
fn nearest_even(p: u64, s: u32) -> (r: u64)
    requires
        s <= 7,
        p < pow2((53 + s) as nat),
    ensures
        r == round_half_even(p as nat, s as nat),
        r <= SIGNIFICAND_LIMIT,
{
    let d = pow2_u64(s);
    proof {
        lemma2_to64();
        lemma2_to64_rest();
        assert(d * SIGNIFICAND_LIMIT == pow2((53 + s) as nat)) by {
            if s == 0 {
            } else if s == 1 {
            } else if s == 2 {
            } else if s == 3 {
            } else if s == 4 {
            } else if s == 5 {
            } else if s == 6 {
            } else {
                assert(s == 7);
            }
        }
    }
    let q = p / d;
    let r = p % d;
    proof {
        lemma_fundamental_div_mod(p as int, d as int);
        assert(q < SIGNIFICAND_LIMIT) by (nonlinear_arith)
            requires
                p == d * q + r,
                0 <= r,
                0 < d,
                p < d * SIGNIFICAND_LIMIT,
        ;
    }
    if r > d - r || (r == d - r && q % 2 == 1) {
        q + 1
    } else {
        q
    }
}

/// A magnitude with its sign, as an `i32` with both ends cut off.
fn signed_i32(negative: bool, magnitude: u64) -> (r: i32)
    ensures
        r == clamp(
            if negative {
                -(magnitude as int)
            } else {
                magnitude as int
            },
            i32::MIN as int,
            i32::MAX as int,
        ),
{
    if negative {
        if magnitude > 0x8000_0000 {
            i32::MIN
        } else {
            (-(magnitude as i64)) as i32
        }
    } else if magnitude > 0x7fff_ffff {
        i32::MAX
    } else {
        magnitude as i32
    }
}

} // verus!
