//! Binary floating-point numbers as their bit patterns, and the conversions
//! between them and integers, in integer arithmetic.
//!
//! A [`Double`] holds the 64 bits of an IEEE 754 binary64 number, a
//! [`single::Single`] the 32 bits of a binary32 number. A finite number is its
//! significand times a power of two; the contracts speak of its magnitude
//! in units of the smallest positive number of its format.

use vstd::arithmetic::div_mod::{
    lemma_basic_div, lemma_div_by_multiple, lemma_div_is_ordered,
    lemma_div_multiples_vanish_quotient,
};
use vstd::arithmetic::mul::{lemma_mul_is_associative, lemma_mul_is_commutative};
use vstd::arithmetic::power2::{
    lemma2_to64, lemma2_to64_rest, lemma_pow2_adds, lemma_pow2_pos,
    lemma_pow2_strictly_increases, pow2,
};
use vstd::bits::lemma_u64_shl_is_mul;
use vstd::prelude::*;

pub mod single;

verus! {

/// The bit of a binary64 significand that normal numbers leave unwritten.
pub const DOUBLE_HIDDEN_BIT: u64 = 0x10_0000_0000_0000;

/// The sign bit of a binary64 number.
pub const DOUBLE_SIGN_BIT: u64 = 0x8000_0000_0000_0000;

/// The exponent field of a binary64 infinity or NaN.
pub const DOUBLE_EXPONENT_MAX: u64 = 0x7ff;

/// The exponent field of the binary64 number one.
pub const DOUBLE_EXPONENT_BIAS: u64 = 1023;

/// A binary64 floating-point number, by its bits. Two numbers are equal
/// when their bits are: a NaN equals itself, and the two zeros differ.
#[derive(Clone, Copy, Debug, PartialEq, Eq, Hash, Structural)]
pub struct Double {
    pub bits: u64,
}

/// Powers of two grow with their exponent.
pub proof fn lemma_pow2_monotonic(a: nat, b: nat)
    requires
        a <= b,
    ensures
        pow2(a) <= pow2(b),
{
    if a < b {
        lemma_pow2_strictly_increases(a, b);
    }
}

/// A power of two lies below another only if its exponent does.
pub proof fn lemma_pow2_order(a: nat, b: nat)
    requires
        pow2(a) < pow2(b),
    ensures
        a < b,
{
    if a >= b {
        lemma_pow2_monotonic(b, a);
    }
}

/// `2^shift` as a machine integer.
pub(crate) fn pow2_u64(shift: u64) -> (power: u64)
    requires
        shift < 64,
    ensures
        power == pow2(shift as nat),
{
    proof {
        vstd::bits::lemma_u64_pow2_no_overflow(shift as nat);
        lemma_u64_shl_is_mul(1, shift);
    }
    1u64 << shift
}

/// `significand` doubled until it has 53 bits, and `scale` lowered by one
/// for each doubling, so that `significand * 2^scale` stays what it was.
pub open spec fn spec_normalize(significand: int, scale: int) -> (int, int)
    decreases 0x20_0000_0000_0000 - significand,
{
    if 0 < significand < 0x10_0000_0000_0000 {
        spec_normalize(2 * significand, scale - 1)
    } else {
        (significand, scale)
    }
}

/// What normalizing keeps and what it reaches.
pub proof fn lemma_normalize(significand: int, scale: int)
    requires
        0 < significand < 0x20_0000_0000_0000,
    ensures
        0x10_0000_0000_0000 <= spec_normalize(significand, scale).0 < 0x20_0000_0000_0000,
        scale - 52 <= spec_normalize(significand, scale).1 <= scale,
        spec_normalize(significand, scale).0 == significand * pow2(
            (scale - spec_normalize(significand, scale).1) as nat,
        ),
    decreases 0x20_0000_0000_0000 - significand,
{
    lemma2_to64();
    lemma2_to64_rest();
    let normal = spec_normalize(significand, scale);
    if significand < 0x10_0000_0000_0000 {
        lemma_normalize(2 * significand, scale - 1);
        let shift = (scale - 1 - normal.1) as nat;
        lemma_pow2_adds(shift, 1);
        assert(pow2(shift + 1) == pow2(shift) * 2);
        assert(significand * (pow2(shift) * 2) == (2 * significand) * pow2(shift))
            by (nonlinear_arith);
        assert((scale - normal.1) as nat == shift + 1);
    } else {
        assert(significand * pow2(0) == significand) by (nonlinear_arith)
            requires
                pow2(0) == 1,
        ;
    }
    let total = (scale - normal.1) as nat;
    lemma_pow2_pos(total);
    assert(pow2(total) <= significand * pow2(total)) by (nonlinear_arith)
        requires
            1 <= significand,
            0 < pow2(total),
    ;
    lemma_pow2_order(total, 53);
}

/// Normalizes with machine integers: see [`spec_normalize`].
pub(crate) fn normalize(significand: u64, scale: u64) -> (normal: (u64, u64))
    requires
        0 < significand < 0x20_0000_0000_0000,
        52 <= scale,
    ensures
        (normal.0 as int, normal.1 as int) == spec_normalize(significand as int, scale as int),
{
    let mut current: u64 = significand;
    let mut lowered: u64 = scale;
    proof {
        lemma_normalize(significand as int, scale as int);
    }
    while current < DOUBLE_HIDDEN_BIT
        invariant
            0 < current < 0x20_0000_0000_0000,
            spec_normalize(current as int, lowered as int) == spec_normalize(
                significand as int,
                scale as int,
            ),
            spec_normalize(significand as int, scale as int).1 >= 0,
        decreases 0x20_0000_0000_0000 - current,
    {
        proof {
            lemma_normalize(2 * current, lowered - 1);
        }
        current = current * 2;
        lowered = lowered - 1;
    }
    (current, lowered)
}

impl Double {
    /// 0 for a number with the sign bit clear, 1 for one with it set.
    pub open spec fn sign(self) -> int {
        self.bits as int / 0x8000_0000_0000_0000
    }

    /// The exponent field, from 0 to 2047.
    pub open spec fn exponent(self) -> int {
        (self.bits as int / 0x10_0000_0000_0000) % 0x800
    }

    /// The fraction field: the written bits of the significand.
    pub open spec fn fraction(self) -> int {
        self.bits as int % 0x10_0000_0000_0000
    }

    /// The number with the given fields.
    pub open spec fn pack(sign: int, exponent: int, fraction: int) -> Double {
        Double {
            bits: (sign * 0x8000_0000_0000_0000 + exponent * 0x10_0000_0000_0000 + fraction) as u64,
        }
    }

    pub open spec fn is_nan(self) -> bool {
        self.exponent() == 0x7ff && self.fraction() != 0
    }

    pub open spec fn is_infinite(self) -> bool {
        self.exponent() == 0x7ff && self.fraction() == 0
    }

    /// Neither an infinity nor a NaN.
    pub open spec fn is_finite(self) -> bool {
        self.exponent() < 0x7ff
    }

    /// The significand as an integer: the fraction, with the hidden bit for
    /// a normal number.
    pub open spec fn significand(self) -> int {
        if self.exponent() == 0 {
            self.fraction()
        } else {
            0x10_0000_0000_0000 + self.fraction()
        }
    }

    /// The exponent field as it scales the significand: a subnormal number
    /// scales as the smallest normal ones do.
    pub open spec fn scale(self) -> nat {
        if self.exponent() == 0 {
            1
        } else {
            self.exponent() as nat
        }
    }

    /// The magnitude in units of `2^-1074`, the smallest positive binary64
    /// number. Every finite magnitude is a whole number of them.
    pub open spec fn scaled(self) -> int {
        self.significand() * pow2((self.scale() - 1) as nat)
    }

    /// The number is `n`, written with the sign bit clear.
    pub open spec fn holds_integer(self, n: int) -> bool {
        &&& self.sign() == 0
        &&& self.is_finite()
        &&& self.scaled() == n * pow2(1074)
    }

    /// The number that equals `value`, written with the sign bit clear.
    pub open spec fn spec_from_u32(value: u32) -> Double {
        if value == 0 {
            Double { bits: 0 }
        } else {
            let normal = spec_normalize(value as int, 1075);
            Self::pack(0, normal.1, normal.0 - 0x10_0000_0000_0000)
        }
    }

    /// The magnitude without what follows the binary point.
    pub open spec fn whole(self) -> int {
        self.scaled() / (pow2(1074) as int)
    }

    /// The number as an unsigned 32-bit integer: rounded toward zero, the
    /// nearest bound where it lies outside the integer's range, and 0 for a
    /// NaN.
    pub open spec fn spec_to_u32(self) -> u32 {
        if self.is_nan() || self.sign() == 1 {
            0
        } else if self.whole() > u32::MAX {
            u32::MAX
        } else {
            self.whole() as u32
        }
    }

    /// The fields of a number make up its bits.
    pub proof fn lemma_fields(self)
        ensures
            0 <= self.sign() <= 1,
            0 <= self.exponent() <= 0x7ff,
            0 <= self.fraction() < 0x10_0000_0000_0000,
            self.bits == self.sign() * 0x8000_0000_0000_0000 + self.exponent()
                * 0x10_0000_0000_0000 + self.fraction(),
            0 <= self.significand() < 0x20_0000_0000_0000,
            self.exponent() != 0 ==> self.significand() >= 0x10_0000_0000_0000,
            1 <= self.scale() <= 0x7ff,
    {
    }

    /// The fields of a number that was made from fields.
    pub proof fn lemma_pack(sign: int, exponent: int, fraction: int)
        requires
            0 <= sign <= 1,
            0 <= exponent <= 0x7ff,
            0 <= fraction < 0x10_0000_0000_0000,
        ensures
            Self::pack(sign, exponent, fraction).sign() == sign,
            Self::pack(sign, exponent, fraction).exponent() == exponent,
            Self::pack(sign, exponent, fraction).fraction() == fraction,
    {
        let low: int = exponent * 0x10_0000_0000_0000 + fraction;
        assert(0 <= low < 0x8000_0000_0000_0000);
        let bits: int = sign * 0x8000_0000_0000_0000 + low;
        assert(bits / 0x8000_0000_0000_0000 == sign);
        assert(bits / 0x10_0000_0000_0000 == sign * 0x800 + exponent);
    }

    /// Where a normal number lies: between two powers of two that its
    /// exponent field gives. A subnormal one lies below the first.
    pub proof fn lemma_scaled_bounds(self)
        ensures
            0 <= self.scaled() < pow2(52 + self.scale()),
            self.exponent() != 0 ==> pow2(51 + self.scale()) <= self.scaled(),
            self.exponent() == 0 ==> self.scaled() < pow2(51 + self.scale()),
    {
        self.lemma_fields();
        lemma2_to64_rest();
        let unit = pow2((self.scale() - 1) as nat) as int;
        lemma_pow2_pos((self.scale() - 1) as nat);
        lemma_pow2_adds(52, (self.scale() - 1) as nat);
        lemma_pow2_adds(53, (self.scale() - 1) as nat);
        let m = self.significand();
        assert(0 <= m * unit) by (nonlinear_arith)
            requires
                0 <= m,
                0 < unit,
        ;
        assert(m * unit < 0x20_0000_0000_0000 * unit) by (nonlinear_arith)
            requires
                m < 0x20_0000_0000_0000,
                0 < unit,
        ;
        if self.exponent() != 0 {
            assert(0x10_0000_0000_0000 * unit <= m * unit) by (nonlinear_arith)
                requires
                    0x10_0000_0000_0000 <= m,
                    0 < unit,
            ;
        } else {
            assert(m * unit < 0x10_0000_0000_0000 * unit) by (nonlinear_arith)
                requires
                    m < 0x10_0000_0000_0000,
                    0 < unit,
            ;
        }
    }

    /// Two finite numbers of one sign and one magnitude are one number.
    pub proof fn lemma_value_unique(self, other: Double)
        requires
            self.is_finite(),
            other.is_finite(),
            self.sign() == other.sign(),
            self.scaled() == other.scaled(),
        ensures
            self == other,
    {
        self.lemma_fields();
        other.lemma_fields();
        self.lemma_scaled_bounds();
        other.lemma_scaled_bounds();
        if self.exponent() != 0 && other.exponent() != 0 {
            lemma_pow2_order(51 + self.scale(), 52 + other.scale());
            lemma_pow2_order(51 + other.scale(), 52 + self.scale());
        } else if self.exponent() != 0 {
            lemma_pow2_order(51 + self.scale(), 51 + other.scale());
        } else if other.exponent() != 0 {
            lemma_pow2_order(51 + other.scale(), 51 + self.scale());
        }
        assert(self.scale() == other.scale());
        let unit = pow2((self.scale() - 1) as nat) as int;
        lemma_pow2_pos((self.scale() - 1) as nat);
        let a = self.significand();
        let b = other.significand();
        assert(a == b) by (nonlinear_arith)
            requires
                a * unit == b * unit,
                0 < unit,
        ;
    }

    /// At most one number holds a given integer.
    pub proof fn lemma_holds_integer_unique(self, other: Double, n: int)
        requires
            self.holds_integer(n),
            other.holds_integer(n),
        ensures
            self == other,
    {
        self.lemma_value_unique(other);
    }

    /// A number that holds an integer of 32 bits gives it back.
    pub proof fn lemma_u32_round_trip(self, value: u32)
        requires
            self.holds_integer(value as int),
        ensures
            self.spec_to_u32() == value,
    {
        lemma_pow2_pos(1074);
        lemma_div_by_multiple(value as int, pow2(1074) as int);
    }

    /// The number with these bits.
    pub fn from_bits(bits: u64) -> (number: Double)
        ensures
            number.bits == bits,
    {
        Double { bits }
    }

    /// The bits of the number.
    pub fn to_bits(self) -> (bits: u64)
        ensures
            bits == self.bits,
    {
        self.bits
    }

    /// Every integer of 32 bits has its number.
    pub proof fn lemma_from_u32(value: u32)
        ensures
            Self::spec_from_u32(value).holds_integer(value as int),
    {
        let number = Self::spec_from_u32(value);
        if value == 0 {
            assert(number.significand() == 0);
            assert(number.scaled() == 0) by (nonlinear_arith)
                requires
                    number.scaled() == 0 * pow2((number.scale() - 1) as nat),
            ;
            assert(0 * pow2(1074) == 0) by (nonlinear_arith);
        } else {
            lemma_normalize(value as int, 1075);
            let normal = spec_normalize(value as int, 1075);
            let shift = (1075 - normal.1) as nat;
            Self::lemma_pack(0, normal.1, normal.0 - 0x10_0000_0000_0000);
            assert(number.significand() == normal.0);
            assert(number.scale() == normal.1);
            lemma_pow2_adds(shift, (normal.1 - 1) as nat);
            lemma_mul_is_associative(
                value as int,
                pow2(shift) as int,
                pow2((normal.1 - 1) as nat) as int,
            );
        }
    }

    /// The number that equals `value`. Every integer of 32 bits has one.
    pub fn from_u32(value: u32) -> (number: Double)
        ensures
            number == Self::spec_from_u32(value),
            number.holds_integer(value as int),
    {
        proof {
            Self::lemma_from_u32(value);
        }
        if value == 0 {
            return Double { bits: 0 };
        }
        proof {
            lemma_normalize(value as int, 1075);
        }
        let (significand, scale) = normalize(value as u64, 1075);
        Double { bits: scale * DOUBLE_HIDDEN_BIT + (significand - DOUBLE_HIDDEN_BIT) }
    }

    /// The number as an unsigned 32-bit integer: rounded toward zero, the
    /// nearest bound where it lies outside the integer's range, and 0 for a
    /// NaN.
    pub fn to_u32(self) -> (value: u32)
        ensures
            value == self.spec_to_u32(),
    {
        let sign: u64 = self.bits / DOUBLE_SIGN_BIT;
        let exponent: u64 = (self.bits / DOUBLE_HIDDEN_BIT) % 0x800;
        let fraction: u64 = self.bits % DOUBLE_HIDDEN_BIT;
        if exponent == DOUBLE_EXPONENT_MAX && fraction != 0 {
            return 0;
        }
        if sign == 1 {
            return 0;
        }
        proof {
            self.lemma_fields();
            self.lemma_scaled_bounds();
            lemma2_to64();
            lemma2_to64_rest();
            lemma_pow2_pos(1074);
        }
        if exponent < DOUBLE_EXPONENT_BIAS {
            proof {
                // The magnitude lies below one.
                lemma_pow2_monotonic(52 + self.scale(), 1074);
                lemma_basic_div(self.scaled(), pow2(1074) as int);
            }
            return 0;
        }
        if exponent >= DOUBLE_EXPONENT_BIAS + 32 {
            proof {
                // The magnitude is 2^32 at least.
                lemma_pow2_monotonic(1106, 51 + self.scale());
                lemma_pow2_adds(32, 1074);
                lemma_div_by_multiple(0x1_0000_0000, pow2(1074) as int);
                lemma_div_is_ordered(
                    0x1_0000_0000 * (pow2(1074) as int),
                    self.scaled(),
                    pow2(1074) as int,
                );
            }
            return u32::MAX;
        }
        let shift: u64 = 1075 - exponent;
        let significand: u64 = DOUBLE_HIDDEN_BIT + fraction;
        let unit: u64 = pow2_u64(shift);
        proof {
            let low = pow2((exponent - 1) as nat) as int;
            lemma_pow2_pos((exponent - 1) as nat);
            lemma_pow2_pos(shift as nat);
            lemma_pow2_adds((exponent - 1) as nat, shift as nat);
            lemma_div_multiples_vanish_quotient(low, significand as int, unit as int);
            lemma_mul_is_commutative(low, significand as int);
            assert(self.whole() == significand / unit);
            lemma_pow2_monotonic(21, shift as nat);
            assert(significand / unit < 0x1_0000_0000) by (nonlinear_arith)
                requires
                    significand < 0x20_0000_0000_0000,
                    unit >= 0x20_0000,
            ;
        }
        (significand / unit) as u32
    }
}

} // verus!
