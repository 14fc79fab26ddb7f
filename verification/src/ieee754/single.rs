//! Binary32 numbers, and the conversions between them and binary64 numbers.

use crate::ieee754::{
    lemma_normalize, lemma_pow2_monotonic, lemma_pow2_order, normalize, pow2_u64,
    spec_normalize, Double, DOUBLE_HIDDEN_BIT, DOUBLE_SIGN_BIT,
};
use vstd::arithmetic::div_mod::{
    lemma_basic_div, lemma_div_by_multiple, lemma_fundamental_div_mod, lemma_mod_multiples_basic,
    lemma_mod_pos_bound, lemma_small_mod,
};
use vstd::arithmetic::mul::lemma_mul_is_associative;
use vstd::arithmetic::power2::{
    lemma2_to64, lemma2_to64_rest, lemma_pow2_adds, lemma_pow2_pos, pow2,
};
use vstd::prelude::*;

verus! {

/// The bit of a binary32 significand that normal numbers leave unwritten.
pub const SINGLE_HIDDEN_BIT: u32 = 0x80_0000;

/// The sign bit of a binary32 number.
pub const SINGLE_SIGN_BIT: u32 = 0x8000_0000;

/// The bits of the positive binary32 infinity.
pub const SINGLE_INFINITY: u32 = 0x7f80_0000;

/// The fraction bit that tells a quiet NaN from a signaling one.
pub const SINGLE_QUIET_BIT: u32 = 0x40_0000;

/// The number of fraction bits that binary64 has and binary32 lacks.
pub const FRACTION_GAP: u64 = 0x2000_0000;

/// A binary32 floating-point number, by its bits. Two numbers are equal
/// when their bits are: a NaN equals itself, and the two zeros differ.
#[derive(Clone, Copy, Debug, PartialEq, Eq, Hash, Structural)]
pub struct Single {
    pub bits: u32,
}

/// The fraction of a binary32 NaN with the quiet bit set.
pub open spec fn quieted(fraction: int) -> int {
    if fraction >= 0x40_0000 {
        fraction
    } else {
        fraction + 0x40_0000
    }
}

/// `n / unit` rounded to the nearest integer, and to the even one of two
/// that are equally near.
pub open spec fn round_half_even(n: int, unit: int) -> int {
    let quotient = n / unit;
    let rest = n % unit;
    if 2 * rest > unit || (2 * rest == unit && quotient % 2 == 1) {
        quotient + 1
    } else {
        quotient
    }
}

/// Rounding to the nearest multiple of `unit` moves a number by half of
/// `unit` at most.
pub proof fn lemma_round_half_even(n: int, unit: int)
    requires
        0 <= n,
        0 < unit,
    ensures
        n / unit <= round_half_even(n, unit) <= n / unit + 1,
        2 * (round_half_even(n, unit) * unit - n) <= unit,
        2 * (n - round_half_even(n, unit) * unit) <= unit,
{
    lemma_fundamental_div_mod(n, unit);
    lemma_mod_pos_bound(n, unit);
    let quotient = n / unit;
    assert((quotient + 1) * unit == quotient * unit + unit) by (nonlinear_arith);
    assert(unit * quotient == quotient * unit) by (nonlinear_arith);
}

impl Single {
    /// 0 for a number with the sign bit clear, 1 for one with it set.
    pub open spec fn sign(self) -> int {
        self.bits as int / 0x8000_0000
    }

    /// The exponent field, from 0 to 255.
    pub open spec fn exponent(self) -> int {
        (self.bits as int / 0x80_0000) % 0x100
    }

    /// The fraction field: the written bits of the significand.
    pub open spec fn fraction(self) -> int {
        self.bits as int % 0x80_0000
    }

    /// The number with the given fields.
    pub open spec fn pack(sign: int, exponent: int, fraction: int) -> Single {
        Single { bits: (sign * 0x8000_0000 + exponent * 0x80_0000 + fraction) as u32 }
    }

    pub open spec fn is_nan(self) -> bool {
        self.exponent() == 0xff && self.fraction() != 0
    }

    /// A NaN with the quiet bit clear.
    pub open spec fn is_signaling_nan(self) -> bool {
        self.is_nan() && self.fraction() < 0x40_0000
    }

    pub open spec fn is_infinite(self) -> bool {
        self.exponent() == 0xff && self.fraction() == 0
    }

    /// Neither an infinity nor a NaN.
    pub open spec fn is_finite(self) -> bool {
        self.exponent() < 0xff
    }

    /// The significand as an integer: the fraction, with the hidden bit for
    /// a normal number.
    pub open spec fn significand(self) -> int {
        if self.exponent() == 0 {
            self.fraction()
        } else {
            0x80_0000 + self.fraction()
        }
    }

    /// The exponent field as it scales the significand: a subnormal number
    /// scales as the smallest normal ones do.
    pub open spec fn scale(self) -> nat {
        if self.exponent() == 0 {
            1
        } else {
            self.exponent() as nat
        }
    }

    /// The magnitude in units of `2^-149`, the smallest positive binary32
    /// number. Every finite magnitude is a whole number of them.
    pub open spec fn scaled(self) -> int {
        self.significand() * pow2((self.scale() - 1) as nat)
    }

    /// The fields of a number make up its bits.
    pub proof fn lemma_fields(self)
        ensures
            0 <= self.sign() <= 1,
            0 <= self.exponent() <= 0xff,
            0 <= self.fraction() < 0x80_0000,
            self.bits == self.sign() * 0x8000_0000 + self.exponent() * 0x80_0000
                + self.fraction(),
            self == Self::pack(self.sign(), self.exponent(), self.fraction()),
            0 <= self.significand() < 0x100_0000,
            self.exponent() != 0 ==> self.significand() >= 0x80_0000,
            1 <= self.scale() <= 0xff,
    {
    }

    /// The fields of a number that was made from fields.
    pub proof fn lemma_pack(sign: int, exponent: int, fraction: int)
        requires
            0 <= sign <= 1,
            0 <= exponent <= 0xff,
            0 <= fraction < 0x80_0000,
        ensures
            Self::pack(sign, exponent, fraction).sign() == sign,
            Self::pack(sign, exponent, fraction).exponent() == exponent,
            Self::pack(sign, exponent, fraction).fraction() == fraction,
    {
        let low: int = exponent * 0x80_0000 + fraction;
        assert(0 <= low < 0x8000_0000);
        let bits: int = sign * 0x8000_0000 + low;
        assert(bits / 0x8000_0000 == sign);
        assert(bits / 0x80_0000 == sign * 0x100 + exponent);
    }

    /// Where a normal number lies: between two powers of two that its
    /// exponent field gives. A subnormal one lies below the first.
    pub proof fn lemma_scaled_bounds(self)
        ensures
            0 <= self.scaled() < pow2(23 + self.scale()),
            self.exponent() != 0 ==> pow2(22 + self.scale()) <= self.scaled(),
            self.exponent() == 0 ==> self.scaled() < pow2(22 + self.scale()),
    {
        self.lemma_fields();
        lemma2_to64();
        let unit = pow2((self.scale() - 1) as nat) as int;
        lemma_pow2_pos((self.scale() - 1) as nat);
        lemma_pow2_adds(23, (self.scale() - 1) as nat);
        lemma_pow2_adds(24, (self.scale() - 1) as nat);
        let m = self.significand();
        assert(0 <= m * unit) by (nonlinear_arith)
            requires
                0 <= m,
                0 < unit,
        ;
        assert(m * unit < 0x100_0000 * unit) by (nonlinear_arith)
            requires
                m < 0x100_0000,
                0 < unit,
        ;
        if self.exponent() != 0 {
            assert(0x80_0000 * unit <= m * unit) by (nonlinear_arith)
                requires
                    0x80_0000 <= m,
                    0 < unit,
            ;
        } else {
            assert(m * unit < 0x80_0000 * unit) by (nonlinear_arith)
                requires
                    m < 0x80_0000,
                    0 < unit,
            ;
        }
    }

    /// The binary64 number of the same value.
    pub open spec fn spec_to_double(self) -> Double {
        if self.exponent() == 0xff {
            Double::pack(
                self.sign(),
                0x7ff,
                if self.fraction() == 0 {
                    0
                } else {
                    quieted(self.fraction()) * 0x2000_0000
                },
            )
        } else if self.exponent() != 0 {
            Double::pack(self.sign(), self.exponent() + 896, self.fraction() * 0x2000_0000)
        } else if self.fraction() == 0 {
            Double::pack(self.sign(), 0, 0)
        } else {
            let normal = spec_normalize(self.fraction(), 926);
            Double::pack(self.sign(), normal.1, normal.0 - 0x10_0000_0000_0000)
        }
    }

    /// The number with these bits.
    pub fn from_bits(bits: u32) -> (number: Single)
        ensures
            number.bits == bits,
    {
        Single { bits }
    }

    /// The bits of the number.
    pub fn to_bits(self) -> (bits: u32)
        ensures
            bits == self.bits,
    {
        self.bits
    }

    /// Every binary32 number has its binary64 number.
    pub proof fn lemma_to_double(self)
        ensures
            self.spec_to_double().widens(self),
    {
        let wide = self.spec_to_double();
        let sign = self.sign();
        let exponent = self.exponent();
        let fraction = self.fraction();
        self.lemma_fields();
        lemma2_to64();
        if exponent == 0xff {
            let kept = if fraction == 0 {
                0
            } else {
                quieted(fraction) * 0x2000_0000
            };
            Double::lemma_pack(sign, 0x7ff, kept);
        } else if exponent != 0 {
            Double::lemma_pack(sign, exponent + 896, fraction * 0x2000_0000);
            let a = self.significand();
            let p = pow2((exponent + 895) as nat) as int;
            let q = pow2((exponent - 1) as nat) as int;
            let r = pow2(925) as int;
            assert(wide.significand() == a * 0x2000_0000);
            assert(wide.scale() == exponent + 896);
            lemma_pow2_adds(29, (exponent + 895) as nat);
            lemma_pow2_adds((exponent - 1) as nat, 925);
            assert(0x2000_0000 * p == q * r);
            assert((a * 0x2000_0000) * p == (a * q) * r) by (nonlinear_arith)
                requires
                    0x2000_0000 * p == q * r,
            ;
        } else if fraction == 0 {
            Double::lemma_pack(sign, 0, 0);
            assert(wide.significand() == 0);
            assert(wide.scaled() == 0) by (nonlinear_arith)
                requires
                    wide.scaled() == 0 * pow2((wide.scale() - 1) as nat),
            ;
            assert(self.scaled() * pow2(925) == 0) by (nonlinear_arith)
                requires
                    self.scaled() == 0 * pow2((self.scale() - 1) as nat),
            ;
        } else {
            lemma_normalize(fraction, 926);
            let normal = spec_normalize(fraction, 926);
            let shift = (926 - normal.1) as nat;
            Double::lemma_pack(sign, normal.1, normal.0 - 0x10_0000_0000_0000);
            assert(wide.significand() == normal.0);
            assert(wide.scale() == normal.1);
            lemma_pow2_adds(shift, (normal.1 - 1) as nat);
            lemma_mul_is_associative(
                fraction,
                pow2(shift) as int,
                pow2((normal.1 - 1) as nat) as int,
            );
            assert(self.scaled() == fraction) by (nonlinear_arith)
                requires
                    self.scaled() == fraction * pow2(0),
                    pow2(0) == 1,
            ;
        }
    }

    /// The binary64 number of the same value. Every binary32 number has
    /// one; a NaN becomes a quiet NaN that keeps its sign and its fraction
    /// bits.
    pub fn to_double(self) -> (wide: Double)
        ensures
            wide == self.spec_to_double(),
            wide.widens(self),
    {
        let sign: u64 = (self.bits / SINGLE_SIGN_BIT) as u64;
        let exponent: u64 = ((self.bits / SINGLE_HIDDEN_BIT) % 0x100) as u64;
        let fraction: u64 = (self.bits % SINGLE_HIDDEN_BIT) as u64;
        proof {
            self.lemma_fields();
            self.lemma_to_double();
        }
        if exponent == 0xff {
            let kept: u64 = if fraction == 0 {
                0
            } else if fraction >= SINGLE_QUIET_BIT as u64 {
                fraction
            } else {
                fraction + SINGLE_QUIET_BIT as u64
            };
            Double {
                bits: sign * DOUBLE_SIGN_BIT + 0x7ff * DOUBLE_HIDDEN_BIT + kept * FRACTION_GAP,
            }
        } else if exponent != 0 {
            Double {
                bits: sign * DOUBLE_SIGN_BIT + (exponent + 896) * DOUBLE_HIDDEN_BIT + fraction
                    * FRACTION_GAP,
            }
        } else if fraction == 0 {
            Double { bits: sign * DOUBLE_SIGN_BIT }
        } else {
            proof {
                lemma_normalize(fraction as int, 926);
            }
            let (significand, scale) = normalize(fraction, 926);
            Double {
                bits: sign * DOUBLE_SIGN_BIT + scale * DOUBLE_HIDDEN_BIT + (significand
                    - DOUBLE_HIDDEN_BIT),
            }
        }
    }
}

impl Double {
    /// This number has the value of `narrow`: the same sign and the same
    /// magnitude, or it is the infinity of that sign, or, for a NaN, a quiet
    /// NaN with the sign and the fraction bits of `narrow`.
    pub open spec fn widens(self, narrow: Single) -> bool {
        &&& self.sign() == narrow.sign()
        &&& if narrow.is_nan() {
            self.exponent() == 0x7ff && self.fraction() == quieted(narrow.fraction())
                * 0x2000_0000
        } else if narrow.is_infinite() {
            self.is_infinite()
        } else {
            self.is_finite() && self.scaled() == narrow.scaled() * pow2(925)
        }
    }

    /// At most one binary64 number has the value of a binary32 number.
    pub proof fn lemma_widens_unique(self, other: Double, narrow: Single)
        requires
            self.widens(narrow),
            other.widens(narrow),
        ensures
            self == other,
    {
        self.lemma_fields();
        other.lemma_fields();
        if narrow.is_finite() {
            self.lemma_value_unique(other);
        }
    }

    /// Narrowing never gives a signaling NaN.
    pub proof fn lemma_to_single_never_signaling(self)
        ensures
            !self.spec_to_single().is_signaling_nan(),
    {
        self.lemma_fields();
        let narrow = self.spec_to_single();
        if self.is_nan() {
            Single::lemma_pack(self.sign(), 0xff, quieted(self.fraction() / 0x2000_0000));
        } else {
            lemma_pow2_pos(self.narrowing_drop());
            let unit = pow2(self.narrowing_drop()) as int;
            let m = self.significand();
            assert(0 <= m / unit) by (nonlinear_arith)
                requires
                    0 <= m,
                    0 < unit,
            ;
            let position = narrow.bits - self.sign() * 0x8000_0000;
            assert(0 <= position <= 0x7f80_0000);
            if position == 0x7f80_0000 {
                assert(narrow.fraction() == 0);
            } else {
                assert(narrow.exponent() < 0xff);
            }
        }
    }

    /// The distance between the binary32 numbers around this number, in
    /// units of `2^-1074`.
    pub open spec fn narrowing_step(self) -> int {
        pow2((self.narrowing_drop() + self.scale() - 1) as nat) as int
    }

    /// The binary32 number that narrowing gives, where it is finite, has the
    /// sign of this number and lies no further from it than half the
    /// distance between binary32 numbers there: no binary32 number is
    /// nearer.
    pub proof fn lemma_to_single_is_nearest(self)
        requires
            !self.is_nan(),
            self.spec_to_single().is_finite(),
        ensures
            self.spec_to_single().sign() == self.sign(),
            2 * (self.spec_to_single().scaled() * pow2(925) - self.scaled())
                <= self.narrowing_step(),
            2 * (self.scaled() - self.spec_to_single().scaled() * pow2(925))
                <= self.narrowing_step(),
    {
        self.lemma_fields();
        lemma2_to64();
        lemma2_to64_rest();
        let narrow = self.spec_to_single();
        let m = self.significand();
        let scale = self.scale();
        let drop = self.narrowing_drop();
        let unit = pow2(drop) as int;
        let low = pow2((scale - 1) as nat) as int;
        let rounded = round_half_even(m, unit);
        lemma_pow2_pos(drop);
        lemma_pow2_pos((scale - 1) as nat);
        lemma_round_half_even(m, unit);
        let first = if scale >= 897 {
            (scale - 897) * 0x80_0000
        } else {
            0
        };
        let position = first + rounded;
        assert(0 <= m / unit) by (nonlinear_arith)
            requires
                0 <= m,
                0 < unit,
        ;
        assert(narrow.bits == self.sign() * 0x8000_0000 + (if position >= 0x7f80_0000 {
            0x7f80_0000
        } else {
            position
        }));
        if position >= 0x7f80_0000 {
            assert(narrow.exponent() == 0xff);
        }
        assert(position < 0x7f80_0000);
        let exponent = position / 0x80_0000;
        let fraction = position % 0x80_0000;
        Single::lemma_pack(self.sign(), exponent, fraction);
        assert(narrow == Single::pack(self.sign(), exponent, fraction));
        // The magnitude of the result is the rounded significand, in the
        // result's own units.
        let lifted = narrow.scaled() * pow2(925);
        lemma_pow2_pos(925);
        if scale >= 897 {
            assert(unit == 0x2000_0000);
            assert(self.exponent() != 0);
            assert(0x10_0000_0000_0000 <= m < 0x20_0000_0000_0000);
            assert(0x80_0000 <= m / 0x2000_0000 < 0x100_0000);
            assert(m / unit == m / 0x2000_0000);
            let grid = pow2((scale - 897) as nat) as int;
            lemma_pow2_pos((scale - 897) as nat);
            if rounded < 0x100_0000 {
                assert(exponent == scale - 896 && fraction == rounded - 0x80_0000);
                assert(narrow.scaled() == rounded * grid);
            } else {
                assert(exponent == scale - 895 && fraction == 0);
                lemma_pow2_adds(1, (scale - 897) as nat);
                assert(pow2((scale - 896) as nat) == 2 * grid);
                assert(0x80_0000 * (2 * grid) == rounded * grid) by (nonlinear_arith)
                    requires
                        rounded == 0x100_0000,
                ;
                assert(narrow.scaled() == rounded * grid);
            }
            lemma_pow2_adds((scale - 897) as nat, 925);
            lemma_pow2_adds(29, (scale - 1) as nat);
            assert(lifted == (rounded * unit) * low) by (nonlinear_arith)
                requires
                    lifted == (rounded * grid) * pow2(925),
                    grid * pow2(925) == unit * low,
            ;
        } else {
            lemma_pow2_monotonic(30, drop);
            assert(m / unit < 0x80_0000) by (nonlinear_arith)
                requires
                    0 <= m < 0x20_0000_0000_0000,
                    unit >= 0x4000_0000,
            ;
            assert(narrow.scaled() == rounded) by (nonlinear_arith)
                requires
                    narrow.scaled() == narrow.significand() * pow2((narrow.scale() - 1) as nat),
                    narrow.scale() == 1,
                    pow2(0) == 1,
                    narrow.significand() == rounded,
            ;
            lemma_pow2_adds(drop, (scale - 1) as nat);
            assert(lifted == (rounded * unit) * low) by (nonlinear_arith)
                requires
                    lifted == rounded * pow2(925),
                    pow2(925) == unit * low,
            ;
        }
        lemma_pow2_adds(drop, (scale - 1) as nat);
        assert(self.narrowing_step() == unit * low);
        assert(2 * (lifted - self.scaled()) <= unit * low && 2 * (self.scaled() - lifted) <= unit
            * low) by (nonlinear_arith)
            requires
                lifted == (rounded * unit) * low,
                self.scaled() == m * low,
                2 * (rounded * unit - m) <= unit,
                2 * (m - rounded * unit) <= unit,
                0 < low,
        ;
    }

    /// Narrowing gives an infinity for exactly the magnitudes that lie half
    /// a step or more beyond the largest binary32 number, which is
    /// `(2^24 - 1) * 2^104`.
    pub proof fn lemma_to_single_overflows(self)
        requires
            !self.is_nan(),
        ensures
            self.spec_to_single().is_infinite() <==> self.scaled() >= 0x1ff_ffff * pow2(1177),
    {
        self.lemma_fields();
        self.lemma_scaled_bounds();
        lemma2_to64();
        lemma2_to64_rest();
        let narrow = self.spec_to_single();
        let m = self.significand();
        let scale = self.scale();
        let unit = pow2(self.narrowing_drop()) as int;
        let rounded = round_half_even(m, unit);
        let limit = pow2(1177) as int;
        lemma_pow2_pos(self.narrowing_drop());
        lemma_pow2_pos(1177);
        lemma_round_half_even(m, unit);
        assert(0 <= m / unit) by (nonlinear_arith)
            requires
                0 <= m,
                0 < unit,
        ;
        let first = if scale >= 897 {
            (scale - 897) * 0x80_0000
        } else {
            0
        };
        let position = first + rounded;
        if position >= 0x7f80_0000 {
            assert(narrow.bits == self.sign() * 0x8000_0000 + 0x7f80_0000);
            assert(narrow.exponent() == 0xff && narrow.fraction() == 0);
        } else {
            assert(narrow.bits == self.sign() * 0x8000_0000 + position);
            assert(narrow.exponent() < 0xff);
        }
        assert(narrow.is_infinite() <==> position >= 0x7f80_0000);
        if scale < 897 {
            lemma_pow2_monotonic(30, self.narrowing_drop());
            assert(m / unit < 0x80_0000) by (nonlinear_arith)
                requires
                    0 <= m < 0x20_0000_0000_0000,
                    unit >= 0x4000_0000,
            ;
            lemma_pow2_monotonic(52 + scale, 1177);
            assert(limit <= 0x1ff_ffff * limit) by (nonlinear_arith)
                requires
                    0 < limit,
            ;
        } else {
            assert(unit == 0x2000_0000);
            assert(self.exponent() != 0);
            assert(0x80_0000 <= m / 0x2000_0000 < 0x100_0000);
            assert(m / unit == m / 0x2000_0000);
            if scale <= 1149 {
                lemma_pow2_monotonic(52 + scale, 1201);
                lemma_pow2_adds(24, 1177);
                assert(0x100_0000 * limit <= 0x1ff_ffff * limit) by (nonlinear_arith)
                    requires
                        0 < limit,
                ;
            } else if scale >= 1151 {
                lemma_pow2_monotonic(1202, 51 + scale);
                lemma_pow2_adds(25, 1177);
                assert(0x1ff_ffff * limit <= 0x200_0000 * limit) by (nonlinear_arith)
                    requires
                        0 < limit,
                ;
            } else {
                // The largest exponent of binary32: the result overflows
                // where the significand rounds up to 2^24.
                let low = pow2(1149) as int;
                lemma_pow2_pos(1149);
                lemma_pow2_adds(28, 1149);
                assert(limit == 0x1000_0000 * low);
                lemma_fundamental_div_mod(m, 0x2000_0000);
                assert(rounded >= 0x100_0000 <==> m >= 0x1ff_ffff * 0x1000_0000);
                assert(m >= 0x1ff_ffff * 0x1000_0000 <==> m * low >= 0x1ff_ffff * (0x1000_0000
                    * low)) by (nonlinear_arith)
                    requires
                        0 < low,
                ;
            }
        }
    }

    /// How many of the low bits of the significand a binary32 number of
    /// this magnitude cannot hold: 29 where the result is normal, more where
    /// it is subnormal.
    pub open spec fn narrowing_drop(self) -> nat {
        if self.scale() >= 897 {
            29
        } else {
            (926 - self.scale()) as nat
        }
    }

    /// The binary32 number nearest to this number, and of two that are
    /// equally near the one with an even significand; an infinity where the
    /// magnitude lies beyond the binary32 range. A NaN becomes a quiet NaN
    /// that keeps its sign and the leading bits of its fraction.
    ///
    /// The bits of the non-negative binary32 numbers rise with their value,
    /// so the result's magnitude is a position: the first number of its
    /// binade, plus the rounded significand.
    pub open spec fn spec_to_single(self) -> Single {
        if self.is_nan() {
            Single::pack(self.sign(), 0xff, quieted(self.fraction() / 0x2000_0000))
        } else {
            let first = if self.scale() >= 897 {
                (self.scale() - 897) * 0x80_0000
            } else {
                0
            };
            let position = first + round_half_even(
                self.significand(),
                pow2(self.narrowing_drop()) as int,
            );
            let capped = if position >= 0x7f80_0000 {
                0x7f80_0000
            } else {
                position
            };
            Single { bits: (self.sign() * 0x8000_0000 + capped) as u32 }
        }
    }

    /// The binary32 number nearest to this number: see
    /// [`Double::spec_to_single`].
    pub fn to_single(self) -> (narrow: Single)
        ensures
            narrow == self.spec_to_single(),
    {
        let sign: u32 = (self.bits / DOUBLE_SIGN_BIT) as u32;
        let exponent: u64 = (self.bits / DOUBLE_HIDDEN_BIT) % 0x800;
        let fraction: u64 = self.bits % DOUBLE_HIDDEN_BIT;
        proof {
            self.lemma_fields();
            lemma2_to64();
            lemma2_to64_rest();
        }
        if exponent == 0x7ff && fraction != 0 {
            let leading: u32 = (fraction / FRACTION_GAP) as u32;
            let kept: u32 = if leading >= SINGLE_QUIET_BIT {
                leading
            } else {
                leading + SINGLE_QUIET_BIT
            };
            return Single { bits: sign * SINGLE_SIGN_BIT + 0xff * SINGLE_HIDDEN_BIT + kept };
        }
        let significand: u64 = if exponent == 0 {
            fraction
        } else {
            DOUBLE_HIDDEN_BIT + fraction
        };
        let scale: u64 = if exponent == 0 {
            1
        } else {
            exponent
        };
        let first: u64 = if scale >= 897 {
            (scale - 897) * 0x80_0000
        } else {
            0
        };
        let drop: u64 = if scale >= 897 {
            29
        } else {
            926 - scale
        };
        let rounded: u64 = if drop >= 54 {
            proof {
                // Less than half of the smallest positive binary32 number.
                lemma_pow2_monotonic(54, drop as nat);
                lemma_basic_div(significand as int, pow2(drop as nat) as int);
                lemma_small_mod(significand as nat, pow2(drop as nat));
            }
            0
        } else {
            let unit: u64 = pow2_u64(drop);
            proof {
                lemma_pow2_monotonic(29, drop as nat);
                lemma_pow2_monotonic(drop as nat, 53);
                assert(significand / unit <= 0x100_0000) by (nonlinear_arith)
                    requires
                        significand < 0x20_0000_0000_0000,
                        unit >= 0x2000_0000,
                ;
            }
            let quotient: u64 = significand / unit;
            let rest: u64 = significand % unit;
            if 2 * rest > unit || (2 * rest == unit && quotient % 2 == 1) {
                quotient + 1
            } else {
                quotient
            }
        };
        let position: u64 = first + rounded;
        let capped: u32 = if position >= SINGLE_INFINITY as u64 {
            SINGLE_INFINITY
        } else {
            position as u32
        };
        Single { bits: sign * SINGLE_SIGN_BIT + capped }
    }

    /// Widening a binary32 number and narrowing the result gives the number
    /// back, unless it is a signaling NaN, which comes back quiet.
    pub proof fn lemma_single_round_trip(self, narrow: Single)
        requires
            self.widens(narrow),
            !narrow.is_signaling_nan(),
        ensures
            self.spec_to_single() == narrow,
    {
        self.lemma_fields();
        narrow.lemma_fields();
        lemma2_to64();
        lemma2_to64_rest();
        if narrow.is_nan() {
            let f = narrow.fraction();
            assert(self.fraction() / 0x2000_0000 == f);
        } else if narrow.is_infinite() {
            assert(self.significand() == 0x10_0000_0000_0000);
            assert(0x10_0000_0000_0000int / 0x2000_0000 == 0x80_0000);
            assert(0x10_0000_0000_0000int % 0x2000_0000 == 0);
        } else {
            self.lemma_scaled_bounds();
            narrow.lemma_scaled_bounds();
            let e = narrow.scale();
            let m = narrow.significand();
            let lifted = narrow.scaled() * pow2(925);
            lemma_pow2_pos(925);
            lemma_pow2_adds(23 + e, 925);
            lemma_pow2_adds(22 + e, 925);
            assert(lifted < pow2(948 + e)) by (nonlinear_arith)
                requires
                    lifted == narrow.scaled() * pow2(925),
                    narrow.scaled() < pow2(23 + e),
                    0 < pow2(925),
                    pow2(948 + e) == pow2(23 + e) * pow2(925),
            ;
            if narrow.exponent() != 0 {
                assert(pow2(947 + e) <= lifted) by (nonlinear_arith)
                    requires
                        lifted == narrow.scaled() * pow2(925),
                        pow2(22 + e) <= narrow.scaled(),
                        0 < pow2(925),
                        pow2(947 + e) == pow2(22 + e) * pow2(925),
                ;
                // The exponent field of the wide number follows from where
                // the magnitude lies.
                if self.exponent() == 0 {
                    lemma_pow2_order(947 + e, 51 + self.scale());
                }
                lemma_pow2_order(51 + self.scale(), 948 + e);
                lemma_pow2_order(947 + e, 52 + self.scale());
                assert(self.scale() == e + 896);
                let p = pow2((e + 895) as nat) as int;
                let q = pow2((e - 1) as nat) as int;
                let r = pow2(925) as int;
                lemma_pow2_pos((e + 895) as nat);
                lemma_pow2_adds(29, (e + 895) as nat);
                lemma_pow2_adds((e - 1) as nat, 925);
                let wide = self.significand();
                assert(wide == m * 0x2000_0000) by (nonlinear_arith)
                    requires
                        wide * p == (m * q) * r,
                        0x2000_0000 * p == q * r,
                        0 < p,
                ;
                lemma_div_by_multiple(m, 0x2000_0000);
                lemma_mod_multiples_basic(m, 0x2000_0000);
            } else {
                assert(lifted < pow2(947 + e)) by (nonlinear_arith)
                    requires
                        lifted == narrow.scaled() * pow2(925),
                        narrow.scaled() < pow2(22 + e),
                        0 < pow2(925),
                        pow2(947 + e) == pow2(22 + e) * pow2(925),
                ;
                if self.exponent() != 0 {
                    lemma_pow2_order(51 + self.scale(), 948);
                }
                assert(self.scale() <= 896);
                let drop = (926 - self.scale()) as nat;
                let unit = pow2(drop) as int;
                let low = pow2((self.scale() - 1) as nat) as int;
                lemma_pow2_pos(drop);
                lemma_pow2_pos((self.scale() - 1) as nat);
                lemma_pow2_adds(drop, (self.scale() - 1) as nat);
                let wide = self.significand();
                assert(narrow.scaled() == m) by (nonlinear_arith)
                    requires
                        narrow.scaled() == m * pow2(0),
                        pow2(0) == 1,
                ;
                assert(wide == m * unit) by (nonlinear_arith)
                    requires
                        wide * low == m * pow2(925),
                        pow2(925) == unit * low,
                        0 < low,
                ;
                lemma_div_by_multiple(m, unit);
                lemma_mod_multiples_basic(m, unit);
            }
        }
    }
}

} // verus!
