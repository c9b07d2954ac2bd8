//! Floating-point numbers as the bit patterns they are stored in.
//!
//! The library holds every current, duration and statistic as an IEEE 754 bit
//! pattern: a sample is a [`Single`], a statistic a [`Double`]. What can be
//! decided from a bit pattern exactly is decided here: the order of two
//! numbers, whether one is a number at all, and the whole number at or next to
//! it. Rounded arithmetic is not done here; see [`crate::arithmetic`].

use vstd::arithmetic::div_mod::{lemma_fundamental_div_mod, lemma_fundamental_div_mod_converse};
use vstd::arithmetic::mul::{
    lemma_mul_inequality, lemma_mul_is_commutative, lemma_mul_strict_inequality,
};
use vstd::arithmetic::power2::{
    lemma2_to64, lemma2_to64_rest, lemma_pow2_adds, lemma_pow2_pos, lemma_pow2_strictly_increases,
    lemma_pow2_unfold, pow2,
};
use vstd::bits::{lemma_u64_shl_is_mul, lemma_u64_shr_is_div};
use vstd::prelude::*;

verus! {

/// An IEEE 754 single-precision number, held as its bit pattern.
#[derive(Clone, Copy, Debug, PartialEq, Eq, Structural)]
pub struct Single {
    /// Sign, exponent and fraction, from the highest bit down.
    pub bits: u32,
}

/// An IEEE 754 double-precision number, held as its bit pattern.
#[derive(Clone, Copy, Debug, PartialEq, Eq, Structural)]
pub struct Double {
    /// Sign, exponent and fraction, from the highest bit down.
    pub bits: u64,
}

/// The lower of two whole numbers.
pub open spec fn lesser(a: int, b: int) -> int {
    if a <= b {
        a
    } else {
        b
    }
}

/// Bit pattern of positive zero.
pub const ZERO: u64 = 0x0000_0000_0000_0000;

/// Bit pattern of negative zero, where a sum of numbers starts.
pub const NEGATIVE_ZERO: u64 = 0x8000_0000_0000_0000;

/// Bit pattern of one half.
pub const HALF: u64 = 0x3fe0_0000_0000_0000;

/// Bit pattern of one.
pub const ONE: u64 = 0x3ff0_0000_0000_0000;

/// Bit pattern of five quarters.
pub const FIVE_QUARTERS: u64 = 0x3ff4_0000_0000_0000;

/// Bit pattern of two.
pub const TWO: u64 = 0x4000_0000_0000_0000;

/// Bit pattern of ten.
pub const TEN: u64 = 0x4024_0000_0000_0000;

/// Bit pattern of one hundred.
pub const HUNDRED: u64 = 0x4059_0000_0000_0000;

/// Bit pattern of one thousand.
pub const THOUSAND: u64 = 0x408f_4000_0000_0000;

/// Bit pattern of 3600, the seconds of an hour.
pub const HOUR: u64 = 0x40ac_2000_0000_0000;

/// Bit pattern of one million.
pub const MILLION: u64 = 0x412e_8480_0000_0000;

/// Bit pattern of positive infinity.
pub const INFINITY: u64 = 0x7ff0_0000_0000_0000;

/// Bit pattern of negative infinity.
pub const NEGATIVE_INFINITY: u64 = 0xfff0_0000_0000_0000;

/// Bit pattern of the not-a-number that stands for a missing statistic.
pub const NAN: u64 = 0x7ff8_0000_0000_0000;

/// Bit pattern of two to the power 900, far above every square of a sample and far
/// below the largest double.
pub const LARGE: u64 = 0x7830_0000_0000_0000;

/// Bit pattern of two to the power 901.
pub const TWICE_LARGE: u64 = 0x7840_0000_0000_0000;

/// Bit pattern of the number opposite to [`LARGE`].
pub const NEGATIVE_LARGE: u64 = 0xf830_0000_0000_0000;

/// Bit pattern of the number opposite to [`TWICE_LARGE`].
pub const NEGATIVE_TWICE_LARGE: u64 = 0xf840_0000_0000_0000;

/// The magnitude of a number with the given biased exponent and fraction, as a
/// multiple of the smallest subnormal; `scale` is two to the fraction's width.
pub open spec fn magnitude_of(scale: nat, exponent: nat, fraction: nat) -> nat {
    if exponent == 0 {
        fraction
    } else {
        (scale + fraction) * pow2((exponent - 1) as nat)
    }
}

/// Exponent and fraction, read as one integer, order magnitudes.
proof fn lemma_magnitude_grows(scale: nat, e1: nat, f1: nat, e2: nat, f2: nat)
    requires
        f1 < scale,
        f2 < scale,
        e1 * scale + f1 < e2 * scale + f2,
    ensures
        magnitude_of(scale, e1, f1) < magnitude_of(scale, e2, f2),
{
    if e1 > e2 {
        assert(e1 * scale >= (e2 + 1) * scale) by {
            lemma_mul_inequality((e2 + 1) as int, e1 as int, scale as int);
        }
        assert((e2 + 1) * scale == e2 * scale + scale) by (nonlinear_arith);
        assert(false);
    }
    if e1 == e2 {
        if e1 > 0 {
            lemma_pow2_pos((e1 - 1) as nat);
            lemma_mul_strict_inequality(
                (scale + f1) as int,
                (scale + f2) as int,
                pow2((e1 - 1) as nat) as int,
            );
        }
    } else {
        let p2 = pow2((e2 - 1) as nat);
        lemma_pow2_pos((e2 - 1) as nat);
        assert(scale <= scale * p2 <= (scale + f2) * p2) by (nonlinear_arith)
            requires
                p2 >= 1,
        ;
        if e1 > 0 {
            let p1 = pow2((e1 - 1) as nat);
            lemma_pow2_pos((e1 - 1) as nat);
            lemma_pow2_unfold(e1);
            if e1 < e2 - 1 {
                lemma_pow2_strictly_increases(e1, (e2 - 1) as nat);
            }
            assert(2 * p1 <= p2);
            assert((scale + f1) * p1 < (scale + f2) * p2) by (nonlinear_arith)
                requires
                    f1 < scale,
                    2 * p1 <= p2,
                    p1 > 0,
            ;
        }
    }
}

/// Magnitudes are ordered as exponent and fraction read as one integer.
proof fn lemma_magnitude_order(scale: nat, e1: nat, f1: nat, e2: nat, f2: nat)
    requires
        f1 < scale,
        f2 < scale,
    ensures
        magnitude_of(scale, e1, f1) < magnitude_of(scale, e2, f2) <==> e1 * scale + f1 < e2 * scale
            + f2,
        magnitude_of(scale, e1, f1) == magnitude_of(scale, e2, f2) <==> e1 * scale + f1 == e2
            * scale + f2,
{
    let k1 = e1 * scale + f1;
    let k2 = e2 * scale + f2;
    if k1 < k2 {
        lemma_magnitude_grows(scale, e1, f1, e2, f2);
    } else if k2 < k1 {
        lemma_magnitude_grows(scale, e2, f2, e1, f1);
    } else {
        lemma_mul_is_commutative(e1 as int, scale as int);
        lemma_mul_is_commutative(e2 as int, scale as int);
        lemma_fundamental_div_mod_converse(k1 as int, scale as int, e1 as int, f1 as int);
        lemma_fundamental_div_mod_converse(k2 as int, scale as int, e2 as int, f2 as int);
    }
}

impl Single {
    /// Whether the sign bit is set.
    pub open spec fn negative(self) -> bool {
        self.bits >= 0x8000_0000
    }

    /// The biased exponent.
    pub open spec fn exponent(self) -> nat {
        ((self.bits / 0x80_0000) % 0x100) as nat
    }

    /// The fraction field.
    pub open spec fn fraction(self) -> nat {
        (self.bits % 0x80_0000) as nat
    }

    /// Whether the pattern is not a number.
    pub open spec fn nan(self) -> bool {
        self.exponent() == 0xff && self.fraction() != 0
    }

    /// Whether the pattern is neither infinite nor not a number.
    pub open spec fn finite(self) -> bool {
        self.exponent() != 0xff
    }

    /// The magnitude as a multiple of two to the power -149; an infinity counts
    /// as one step beyond the largest finite number.
    pub open spec fn magnitude(self) -> nat {
        magnitude_of(0x80_0000, self.exponent(), self.fraction())
    }

    /// The number as a multiple of two to the power -149.
    pub open spec fn value(self) -> int {
        if self.negative() {
            -self.magnitude()
        } else {
            self.magnitude() as int
        }
    }

    /// `self < other` as numbers; false where either is not a number.
    pub open spec fn below(self, other: Single) -> bool {
        !self.nan() && !other.nan() && self.value() < other.value()
    }

    /// Rank of the pattern in the total order of IEEE 754, which puts negative
    /// not-a-number patterns first and positive ones last.
    pub open spec fn rank(self) -> int {
        if self.negative() {
            0xffff_ffff - self.bits
        } else {
            self.bits + 0x8000_0000
        }
    }

    /// Positive infinity.
    pub fn infinity() -> (r: Single)
        ensures
            r.bits == 0x7f80_0000,
    {
        Single { bits: 0x7f80_0000 }
    }

    /// Negative infinity.
    pub fn negative_infinity() -> (r: Single)
        ensures
            r.bits == 0xff80_0000,
    {
        Single { bits: 0xff80_0000 }
    }

    /// Whether the pattern is not a number.
    pub fn is_nan(&self) -> (r: bool)
        ensures
            r == self.nan(),
    {
        (self.bits / 0x80_0000) % 0x100 == 0xff && self.bits % 0x80_0000 != 0
    }

    /// `self < other` as numbers.
    pub fn is_below(&self, other: Single) -> (r: bool)
        ensures
            r == self.below(other),
    {
        proof {
            lemma_magnitude_order(
                0x80_0000,
                self.exponent(),
                self.fraction(),
                other.exponent(),
                other.fraction(),
            );
            lemma_magnitude_order(0x80_0000, self.exponent(), self.fraction(), 0, 0);
            lemma_magnitude_order(0x80_0000, other.exponent(), other.fraction(), 0, 0);
        }
        if self.is_nan() || other.is_nan() {
            return false;
        }
        let a: u32 = self.bits % 0x8000_0000;
        let b: u32 = other.bits % 0x8000_0000;
        assert(a == self.exponent() * 0x80_0000 + self.fraction());
        assert(b == other.exponent() * 0x80_0000 + other.fraction());
        if self.bits >= 0x8000_0000 {
            if other.bits >= 0x8000_0000 {
                b < a
            } else {
                a != 0 || b != 0
            }
        } else {
            other.bits < 0x8000_0000 && a < b
        }
    }
}

/// What a number becomes when it is converted to a count: below zero is zero,
/// beyond the largest count is the largest count.
pub open spec fn saturated(x: int) -> int {
    if x < 0 {
        0
    } else if x > usize::MAX {
        usize::MAX as int
    } else {
        x
    }
}

impl Double {
    /// Whether the sign bit is set.
    pub open spec fn negative(self) -> bool {
        self.bits >= 0x8000_0000_0000_0000
    }

    /// The biased exponent.
    pub open spec fn exponent(self) -> nat {
        ((self.bits / 0x10_0000_0000_0000) % 0x800) as nat
    }

    /// The fraction field.
    pub open spec fn fraction(self) -> nat {
        (self.bits % 0x10_0000_0000_0000) as nat
    }

    /// Whether the pattern is not a number.
    pub open spec fn nan(self) -> bool {
        self.exponent() == 0x7ff && self.fraction() != 0
    }

    /// Whether the pattern is neither infinite nor not a number.
    pub open spec fn finite(self) -> bool {
        self.exponent() != 0x7ff
    }

    /// The magnitude as a multiple of two to the power -1074; an infinity counts
    /// as one step beyond the largest finite number.
    pub open spec fn magnitude(self) -> nat {
        magnitude_of(0x10_0000_0000_0000, self.exponent(), self.fraction())
    }

    /// The number as a multiple of two to the power -1074.
    pub open spec fn value(self) -> int {
        if self.negative() {
            -self.magnitude()
        } else {
            self.magnitude() as int
        }
    }

    /// The value of the number one.
    pub open spec fn unit() -> int {
        pow2(1074) as int
    }

    /// `self < other` as numbers; false where either is not a number.
    pub open spec fn below(self, other: Double) -> bool {
        !self.nan() && !other.nan() && self.value() < other.value()
    }

    /// `self == other` as numbers; false where either is not a number.
    pub open spec fn equal_to(self, other: Double) -> bool {
        !self.nan() && !other.nan() && self.value() == other.value()
    }

    /// Whether the number is zero, of either sign.
    pub open spec fn zero_valued(self) -> bool {
        self.value() == 0
    }

    /// Rank of the pattern in the total order of IEEE 754, which puts negative
    /// not-a-number patterns first and positive ones last.
    pub open spec fn rank(self) -> int {
        if self.negative() {
            0xffff_ffff_ffff_ffff - self.bits
        } else {
            self.bits + 0x8000_0000_0000_0000
        }
    }

    /// The largest whole number at or below this one, as a count; zero where
    /// this is not a number.
    pub open spec fn floor(self) -> int {
        if self.nan() {
            0
        } else {
            saturated(self.value() / Self::unit())
        }
    }

    /// The smallest whole number at or above this one, as a count; zero where
    /// this is not a number.
    pub open spec fn ceil(self) -> int {
        if self.nan() {
            0
        } else {
            saturated(-((-self.value()) / Self::unit()))
        }
    }

    /// The whole number nearest to this one, halves away from zero, as a count;
    /// zero where this is not a number.
    pub open spec fn round(self) -> int {
        if self.nan() {
            0
        } else {
            saturated((2 * self.value() + Self::unit()) / (2 * Self::unit()))
        }
    }

    /// The magnitude without the sign.
    pub open spec fn absolute(self) -> Double {
        Double { bits: (self.bits % 0x8000_0000_0000_0000) as u64 }
    }
}

/// Whole part and remainder of a number between one and two to the power 53.
proof fn lemma_whole_part(mantissa: nat, e: nat, s: nat)
    requires
        1023 <= e <= 1075,
        s == 1075 - e,
    ensures
        pow2(s) > 0,
        (mantissa * pow2((e - 1) as nat)) as int / Double::unit() == mantissa as int / pow2(
            s,
        ) as int,
        (mantissa * pow2((e - 1) as nat)) as int % Double::unit() == (mantissa as int % pow2(
            s,
        ) as int) * pow2((e - 1) as nat),
        Double::unit() == pow2(s) * pow2((e - 1) as nat),
{
    let g = pow2((e - 1) as nat) as int;
    let d = pow2(s) as int;
    lemma_pow2_pos((e - 1) as nat);
    lemma_pow2_pos(s);
    lemma_pow2_adds(s, (e - 1) as nat);
    let q = mantissa as int / d;
    let r = mantissa as int % d;
    lemma_fundamental_div_mod(mantissa as int, d);
    assert(mantissa * g == q * (d * g) + r * g) by (nonlinear_arith)
        requires
            mantissa == d * q + r,
    ;
    assert(0 <= r * g < d * g) by (nonlinear_arith)
        requires
            0 <= r < d,
            g > 0,
    ;
    lemma_fundamental_div_mod_converse(mantissa * g, d * g, q, r * g);
}

/// A number of two to the power 52 or more is whole.
proof fn lemma_large_is_whole(mantissa: nat, e: nat)
    requires
        1075 <= e,
    ensures
        (mantissa * pow2((e - 1) as nat)) as int / Double::unit() == mantissa * pow2(
            (e - 1075) as nat,
        ),
        (mantissa * pow2((e - 1) as nat)) as int % Double::unit() == 0,
{
    lemma_pow2_pos(1074);
    lemma_pow2_adds((e - 1075) as nat, 1074);
    let k = pow2((e - 1075) as nat) as int;
    let u = Double::unit();
    assert(mantissa * (k * u) == (mantissa * k) * u + 0) by (nonlinear_arith);
    lemma_fundamental_div_mod_converse(mantissa * (k * u), u, mantissa * k, 0);
}

/// A number with a biased exponent below 1023 is below one, and below one half
/// exactly where the exponent is below 1022.
proof fn lemma_small_is_below_one(e: nat, fraction: nat)
    requires
        e < 1023,
        fraction < 0x10_0000_0000_0000,
    ensures
        magnitude_of(0x10_0000_0000_0000, e, fraction) < Double::unit(),
        2 * magnitude_of(0x10_0000_0000_0000, e, fraction) >= Double::unit() <==> e == 1022,
{
    lemma_named_numbers();
    let one = Double { bits: ONE };
    let half = Double { bits: HALF };
    assert(one.exponent() == 1023 && one.fraction() == 0);
    assert(half.exponent() == 1022 && half.fraction() == 0);
    lemma_magnitude_order(0x10_0000_0000_0000, e, fraction, 1023, 0);
    lemma_magnitude_order(0x10_0000_0000_0000, e, fraction, 1022, 0);
}

/// Rounding, written with the whole part and the remainder.
proof fn lemma_round_parts(v: int, u: int)
    requires
        u > 0,
    ensures
        (2 * v + u) / (2 * u) == v / u + (if 2 * (v % u) >= u {
            1int
        } else {
            0int
        }),
        -((-v) / u) == v / u + (if v % u != 0 {
            1int
        } else {
            0int
        }),
{
    let q = v / u;
    let r = v % u;
    lemma_fundamental_div_mod(v, u);
    if 2 * r >= u {
        assert(2 * v + u == (q + 1) * (2 * u) + (2 * r - u)) by (nonlinear_arith)
            requires
                v == u * q + r,
        ;
        lemma_fundamental_div_mod_converse(2 * v + u, 2 * u, q + 1, 2 * r - u);
    } else {
        assert(2 * v + u == q * (2 * u) + (2 * r + u)) by (nonlinear_arith)
            requires
                v == u * q + r,
        ;
        lemma_fundamental_div_mod_converse(2 * v + u, 2 * u, q, 2 * r + u);
    }
    if r != 0 {
        assert(-v == (-q - 1) * u + (u - r)) by (nonlinear_arith)
            requires
                v == u * q + r,
        ;
        lemma_fundamental_div_mod_converse(-v, u, -q - 1, u - r);
    } else {
        assert(-v == (-q) * u + 0) by (nonlinear_arith)
            requires
                v == u * q + r,
                r == 0,
        ;
        lemma_fundamental_div_mod_converse(-v, u, -q, 0);
    }
}

/// A number at or below zero is no positive count, however it is rounded.
proof fn lemma_negative_counts(v: int, u: int)
    requires
        u > 0,
        v <= 0,
    ensures
        saturated(v / u) == 0,
        saturated(-((-v) / u)) == 0,
        saturated((2 * v + u) / (2 * u)) == 0,
{
    lemma_fundamental_div_mod(v, u);
    lemma_fundamental_div_mod(-v, u);
    lemma_fundamental_div_mod(2 * v + u, 2 * u);
    assert(v / u <= 0) by (nonlinear_arith)
        requires
            v == u * (v / u) + v % u,
            0 <= v % u,
            v <= 0,
            u > 0,
    ;
    assert((-v) / u >= 0) by (nonlinear_arith)
        requires
            -v == u * ((-v) / u) + (-v) % u,
            (-v) % u < u,
            v <= 0,
            u > 0,
    ;
    let k = (2 * v + u) / (2 * u);
    let r = (2 * v + u) % (2 * u);
    assert(k <= 0) by (nonlinear_arith)
        requires
            2 * v + u == 2 * u * k + r,
            0 <= r,
            v <= 0,
            u > 0,
    ;
}

impl Double {
    /// Whether the pattern is not a number.
    pub fn is_nan(&self) -> (r: bool)
        ensures
            r == self.nan(),
    {
        (self.bits / 0x10_0000_0000_0000) % 0x800 == 0x7ff && self.bits % 0x10_0000_0000_0000 != 0
    }

    /// Whether the pattern is neither infinite nor not a number.
    pub fn is_finite(&self) -> (r: bool)
        ensures
            r == self.finite(),
    {
        (self.bits / 0x10_0000_0000_0000) % 0x800 != 0x7ff
    }

    /// `self < other` as numbers.
    pub fn is_below(&self, other: Double) -> (r: bool)
        ensures
            r == self.below(other),
    {
        proof {
            lemma_magnitude_order(
                0x10_0000_0000_0000,
                self.exponent(),
                self.fraction(),
                other.exponent(),
                other.fraction(),
            );
            lemma_magnitude_order(0x10_0000_0000_0000, self.exponent(), self.fraction(), 0, 0);
            lemma_magnitude_order(0x10_0000_0000_0000, other.exponent(), other.fraction(), 0, 0);
        }
        if self.is_nan() || other.is_nan() {
            return false;
        }
        let a: u64 = self.bits % 0x8000_0000_0000_0000;
        let b: u64 = other.bits % 0x8000_0000_0000_0000;
        assert(a == self.exponent() * 0x10_0000_0000_0000 + self.fraction());
        assert(b == other.exponent() * 0x10_0000_0000_0000 + other.fraction());
        if self.bits >= 0x8000_0000_0000_0000 {
            if other.bits >= 0x8000_0000_0000_0000 {
                b < a
            } else {
                a != 0 || b != 0
            }
        } else {
            other.bits < 0x8000_0000_0000_0000 && a < b
        }
    }

    /// `self == other` as numbers.
    pub fn is_equal(&self, other: Double) -> (r: bool)
        ensures
            r == self.equal_to(other),
    {
        !self.is_nan() && !other.is_nan() && !self.is_below(other) && !other.is_below(*self)
    }

    /// Whether the number is zero, of either sign.
    pub fn is_zero(&self) -> (r: bool)
        ensures
            r == self.zero_valued(),
    {
        proof {
            lemma_magnitude_order(0x10_0000_0000_0000, self.exponent(), self.fraction(), 0, 0);
        }
        let a: u64 = self.bits % 0x8000_0000_0000_0000;
        assert(a == self.exponent() * 0x10_0000_0000_0000 + self.fraction());
        a == 0
    }

    /// The number without its sign.
    pub fn abs(&self) -> (r: Double)
        ensures
            r == self.absolute(),
            r.magnitude() == self.magnitude(),
            !r.negative(),
    {
        let r = Double { bits: self.bits % 0x8000_0000_0000_0000 };
        proof {
            if self.bits >= 0x8000_0000_0000_0000 {
                assert(r.bits == self.bits - 0x8000_0000_0000_0000);
                assert(self.bits / 0x10_0000_0000_0000 == r.bits / 0x10_0000_0000_0000 + 0x800);
            }
            assert(r.exponent() == self.exponent());
            assert(r.fraction() == self.fraction());
        }
        r
    }

    /// The whole part, whether anything remains beyond it, and whether what
    /// remains is one half or more.
    fn parts(&self) -> (r: (u64, bool, bool))
        requires
            !self.nan(),
            !self.negative(),
        ensures
            r.0 == if self.value() / Self::unit() > u64::MAX {
                u64::MAX as int
            } else {
                self.value() / Self::unit()
            },
            r.1 == (self.value() % Self::unit() != 0),
            r.2 == (2 * (self.value() % Self::unit()) >= Self::unit()),
            r.1 || r.2 ==> r.0 < 0x20_0000_0000_0000,
    {
        let e: u64 = (self.bits / 0x10_0000_0000_0000) % 0x800;
        let f: u64 = self.bits % 0x10_0000_0000_0000;
        let ghost m = self.magnitude() as int;
        proof {
            lemma_pow2_pos(1074);
        }
        if e < 1023 {
            proof {
                lemma_small_is_below_one(e as nat, f as nat);
                lemma_fundamental_div_mod_converse(m, Self::unit(), 0, m);
                lemma_magnitude_order(0x10_0000_0000_0000, e as nat, f as nat, 0, 0);
            }
            (0, e != 0 || f != 0, e == 1022)
        } else if e <= 1075 {
            let mantissa: u64 = 0x10_0000_0000_0000 + f;
            let s: u64 = 1075 - e;
            let q: u64 = mantissa >> s;
            proof {
                lemma_whole_part(mantissa as nat, e as nat, s as nat);
                lemma_u64_shr_is_div(mantissa, s);
                lemma2_to64();
                lemma2_to64_rest();
                if s < 52 {
                    lemma_pow2_strictly_increases(s as nat, 52);
                }
                lemma_u64_shl_is_mul(1, s);
                lemma_pow2_pos((e - 1) as nat);
            }
            let d: u64 = 1u64 << s;
            assert(d == pow2(s as nat));
            let rest: u64 = mantissa % d;
            let ghost g = pow2((e - 1) as nat) as int;
            assert(rest == 0 <==> rest * g == 0) by (nonlinear_arith)
                requires
                    g > 0,
            ;
            assert(2 * rest >= d <==> 2 * (rest * g) >= d * g) by (nonlinear_arith)
                requires
                    g > 0,
            ;
            assert(q <= mantissa) by (nonlinear_arith)
                requires
                    q as int == mantissa as int / d as int,
                    d > 0,
            ;
            (q, rest != 0, 2 * rest >= d)
        } else {
            let mantissa: u64 = 0x10_0000_0000_0000 + f;
            let s: u64 = e - 1075;
            proof {
                lemma_large_is_whole(mantissa as nat, e as nat);
                lemma2_to64();
                lemma2_to64_rest();
            }
            let ghost k = pow2(s as nat) as int;
            if s > 11 {
                proof {
                    if s > 12 {
                        lemma_pow2_strictly_increases(12, s as nat);
                    }
                    assert(mantissa * k >= 0x10_0000_0000_0000 * 4096) by (nonlinear_arith)
                        requires
                            mantissa >= 0x10_0000_0000_0000,
                            k >= 4096,
                    ;
                }
                (u64::MAX, false, false)
            } else {
                proof {
                    if s < 11 {
                        lemma_pow2_strictly_increases(s as nat, 11);
                    }
                    assert(mantissa * k <= 0x1f_ffff_ffff_ffff * 2048) by (nonlinear_arith)
                        requires
                            mantissa <= 0x1f_ffff_ffff_ffff,
                            0 <= k <= 2048,
                    ;
                    lemma_u64_shl_is_mul(mantissa, s);
                }
                (mantissa << s, false, false)
            }
        }
    }

    /// The largest whole number at or below this one, as a count.
    pub fn floor_count(&self) -> (r: usize)
        ensures
            r == self.floor(),
    {
        proof {
            lemma_pow2_pos(1074);
        }
        if self.is_nan() {
            return 0;
        }
        if self.bits >= 0x8000_0000_0000_0000 {
            proof {
                lemma_negative_counts(self.value(), Self::unit());
            }
            return 0;
        }
        let (whole, _, _) = self.parts();
        proof {
            vstd::arithmetic::div_mod::lemma_div_pos_is_pos(self.value(), Self::unit());
        }
        if whole > usize::MAX as u64 {
            usize::MAX
        } else {
            whole as usize
        }
    }

    /// The smallest whole number at or above this one, as a count.
    pub fn ceil_count(&self) -> (r: usize)
        ensures
            r == self.ceil(),
    {
        proof {
            lemma_pow2_pos(1074);
            lemma_round_parts(self.value(), Self::unit());
        }
        if self.is_nan() {
            return 0;
        }
        if self.bits >= 0x8000_0000_0000_0000 {
            proof {
                lemma_negative_counts(self.value(), Self::unit());
            }
            return 0;
        }
        let (whole, more, _) = self.parts();
        proof {
            vstd::arithmetic::div_mod::lemma_div_pos_is_pos(self.value(), Self::unit());
        }
        let up: u64 = if more {
            whole + 1
        } else {
            whole
        };
        if up > usize::MAX as u64 {
            usize::MAX
        } else {
            up as usize
        }
    }

    /// The whole number nearest to this one, halves away from zero, as a count.
    pub fn round_count(&self) -> (r: usize)
        ensures
            r == self.round(),
    {
        proof {
            lemma_pow2_pos(1074);
            lemma_round_parts(self.value(), Self::unit());
        }
        if self.is_nan() {
            return 0;
        }
        if self.bits >= 0x8000_0000_0000_0000 {
            proof {
                lemma_negative_counts(self.value(), Self::unit());
            }
            return 0;
        }
        let (whole, _, half) = self.parts();
        proof {
            vstd::arithmetic::div_mod::lemma_div_pos_is_pos(self.value(), Self::unit());
        }
        let up: u64 = if half {
            whole + 1
        } else {
            whole
        };
        if up > usize::MAX as u64 {
            usize::MAX
        } else {
            up as usize
        }
    }

    /// This number held between zero and one.
    pub open spec fn unit_clamped(self) -> Double {
        if self.below(Double { bits: ZERO }) {
            Double { bits: ZERO }
        } else if (Double { bits: ONE }).below(self) {
            Double { bits: ONE }
        } else {
            self
        }
    }

    /// This number held between zero and one; what is not a number stays so.
    pub fn clamp_unit(&self) -> (r: Double)
        ensures
            r == self.unit_clamped(),
    {
        let zero = Double { bits: ZERO };
        let one = Double { bits: ONE };
        if self.is_below(zero) {
            zero
        } else if one.is_below(*self) {
            one
        } else {
            *self
        }
    }

    /// Infinity with the sign of this number.
    pub open spec fn infinite(self) -> Double {
        if self.nan() {
            Double { bits: NAN }
        } else if self.negative() {
            Double { bits: NEGATIVE_INFINITY }
        } else {
            Double { bits: INFINITY }
        }
    }

    /// Infinity with the sign of this number; not a number where this is not.
    pub fn signed_infinity(&self) -> (r: Double)
        ensures
            r == self.infinite(),
    {
        if self.is_nan() {
            Double { bits: NAN }
        } else if self.bits >= 0x8000_0000_0000_0000 {
            Double { bits: NEGATIVE_INFINITY }
        } else {
            Double { bits: INFINITY }
        }
    }
}

/// Facts on the numbers that the library names by their bit patterns.
pub proof fn lemma_named_numbers()
    ensures
        (Double { bits: ZERO }).value() == 0,
        2 * (Double { bits: HALF }).value() == Double::unit(),
        (Double { bits: ONE }).value() == Double::unit(),
        4 * (Double { bits: FIVE_QUARTERS }).value() == 5 * Double::unit(),
        (Double { bits: TWO }).value() == 2 * Double::unit(),
        (Double { bits: TEN }).value() == 10 * Double::unit(),
        (Double { bits: HUNDRED }).value() == 100 * Double::unit(),
        (Double { bits: THOUSAND }).value() == 1000 * Double::unit(),
        (Double { bits: HOUR }).value() == 3600 * Double::unit(),
        (Double { bits: MILLION }).value() == 1_000_000 * Double::unit(),
{
    lemma2_to64();
    lemma2_to64_rest();
    lemma_power_step(53, 0x20_0000_0000_0000);
    lemma_power_step(1, 2);
    lemma_power_step(2, 4);
    lemma_power_step(4, 16);
    lemma_power_step(7, 128);
    lemma_power_step(10, 1024);
    lemma_power_step(12, 4096);
    lemma_power_step(20, 0x10_0000);
    assert(pow2(1022) == 2 * pow2(1021));
    assert(pow2(1023) == 4 * pow2(1021));
    let half = Double { bits: HALF };
    assert(half.exponent() == 1022 && half.fraction() == 0);
    assert(half.magnitude() == 0x10_0000_0000_0000 * pow2(1021));
    let one = Double { bits: ONE };
    assert(one.exponent() == 1023 && one.fraction() == 0);
    assert(one.magnitude() == 0x10_0000_0000_0000 * pow2(1022));
    let slack = Double { bits: FIVE_QUARTERS };
    assert(slack.exponent() == 1023 && slack.fraction() == 0x4_0000_0000_0000);
    assert(slack.magnitude() == 0x14_0000_0000_0000 * pow2(1022));
    let two = Double { bits: TWO };
    assert(two.exponent() == 1024 && two.fraction() == 0);
    assert(two.magnitude() == 0x10_0000_0000_0000 * pow2(1023));
    let ten = Double { bits: TEN };
    assert(ten.exponent() == 1026 && ten.fraction() == 0x4_0000_0000_0000);
    assert(ten.magnitude() == 0x14_0000_0000_0000 * pow2(1025));
    let hundred = Double { bits: HUNDRED };
    assert(hundred.exponent() == 1029 && hundred.fraction() == 0x9_0000_0000_0000);
    assert(hundred.magnitude() == 0x19_0000_0000_0000 * pow2(1028));
    let thousand = Double { bits: THOUSAND };
    assert(thousand.exponent() == 1032 && thousand.fraction() == 0xf_4000_0000_0000);
    assert(thousand.magnitude() == 0x1f_4000_0000_0000 * pow2(1031));
    let hour = Double { bits: HOUR };
    assert(hour.exponent() == 1034 && hour.fraction() == 0xc_2000_0000_0000);
    assert(hour.magnitude() == 0x1c_2000_0000_0000 * pow2(1033));
    let million = Double { bits: MILLION };
    assert(million.exponent() == 1042 && million.fraction() == 0xe_8480_0000_0000);
    assert(million.magnitude() == 0x1e_8480_0000_0000 * pow2(1041));
}

/// Facts on the large numbers that the library names by their bit patterns.
pub proof fn lemma_large_numbers()
    ensures
        (Double { bits: LARGE }).finite(),
        (Double { bits: TWICE_LARGE }).finite(),
        (Double { bits: NEGATIVE_LARGE }).finite(),
        (Double { bits: NEGATIVE_TWICE_LARGE }).finite(),
        (Double { bits: LARGE }).value() == pow2(1974),
        (Double { bits: TWICE_LARGE }).value() == 2 * pow2(1974),
        (Double { bits: NEGATIVE_LARGE }).value() == -pow2(1974),
        (Double { bits: NEGATIVE_TWICE_LARGE }).value() == -2 * pow2(1974),
{
    lemma2_to64_rest();
    lemma_pow2_adds(52, 1922);
    lemma_pow2_adds(52, 1923);
    lemma_pow2_unfold(1975);
    let large = Double { bits: LARGE };
    assert(large.exponent() == 1923 && large.fraction() == 0);
    let twice = Double { bits: TWICE_LARGE };
    assert(twice.exponent() == 1924 && twice.fraction() == 0);
    let negative = Double { bits: NEGATIVE_LARGE };
    assert(negative.exponent() == 1923 && negative.fraction() == 0);
    let lowest = Double { bits: NEGATIVE_TWICE_LARGE };
    assert(lowest.exponent() == 1924 && lowest.fraction() == 0);
}

/// The largest finite sample.
pub proof fn lemma_largest_sample(a: Single)
    requires
        a.finite(),
    ensures
        a.magnitude() <= 0xff_ffff * pow2(253),
{
    lemma_pow2_pos(253);
    let e = a.exponent();
    if e == 0 {
        assert(0x80_0000 <= 0xff_ffff * pow2(253)) by (nonlinear_arith)
            requires
                pow2(253) >= 1,
        ;
    } else {
        if e < 254 {
            lemma_pow2_strictly_increases((e - 1) as nat, 253);
        }
        let p = pow2((e - 1) as nat) as int;
        lemma_pow2_pos((e - 1) as nat);
        assert((0x80_0000 + a.fraction()) * p <= 0xff_ffff * pow2(253)) by (nonlinear_arith)
            requires
                0 <= a.fraction() <= 0x7f_ffff,
                0 < p <= pow2(253),
        ;
    }
}

/// A double from two to the power 53 up is a whole number.
pub proof fn lemma_large_double_is_whole(x: Double)
    requires
        x.finite(),
        x.value() >= 0x20_0000_0000_0000 * Double::unit(),
    ensures
        x.value() % Double::unit() == 0,
{
    let e = x.exponent();
    let m = 0x10_0000_0000_0000 + x.fraction();
    lemma_pow2_pos(1074);
    assert(0x20_0000_0000_0000 * Double::unit() > 0x20_0000_0000_0000) by {
        lemma_pow2_unfold(1074);
        lemma_pow2_pos(1073);
    }
    assert(e > 0);
    if e < 1075 {
        lemma_pow2_strictly_increases((e - 1) as nat, 1074);
        lemma_pow2_pos((e - 1) as nat);
        lemma_mul_strict_inequality(m as int, 0x20_0000_0000_0000, pow2((e - 1) as nat) as int);
        assert(false);
    }
    lemma_large_is_whole(m, e);
}

/// A finite sample is smaller than two to the power 128.
pub proof fn lemma_sample_size(a: Single)
    requires
        a.finite(),
    ensures
        a.magnitude() <= pow2(277),
{
    lemma2_to64();
    lemma_pow2_adds(24, 253);
    lemma_pow2_pos(253);
    let e = a.exponent();
    if e == 0 {
        assert(0x80_0000 <= 0x100_0000 * pow2(253)) by (nonlinear_arith)
            requires
                pow2(253) >= 1,
        ;
    } else {
        if e < 254 {
            lemma_pow2_strictly_increases((e - 1) as nat, 253);
        }
        lemma_mul_inequality(
            (0x80_0000 + a.fraction()) as int,
            0x100_0000,
            pow2((e - 1) as nat) as int,
        );
        lemma_mul_inequality(pow2((e - 1) as nat) as int, pow2(253) as int, 0x100_0000);
        lemma_mul_is_commutative(pow2((e - 1) as nat) as int, 0x100_0000);
        lemma_mul_is_commutative(pow2(253) as int, 0x100_0000);
    }
}

proof fn lemma_power_step(k: nat, p: nat)
    requires
        pow2(k) == p,
    ensures
        pow2(1021 + k) == p * pow2(1021),
{
    lemma_pow2_adds(1021, k);
    lemma_mul_is_commutative(pow2(1021) as int, p as int);
}

/// The total order agrees with the order of values where both are numbers.
pub proof fn lemma_rank_orders_values(a: Single, b: Single)
    requires
        !a.nan(),
        !b.nan(),
        a.rank() <= b.rank(),
    ensures
        a.value() <= b.value(),
{
    lemma_magnitude_order(0x80_0000, a.exponent(), a.fraction(), b.exponent(), b.fraction());
    assert(a.bits % 0x8000_0000 == a.exponent() * 0x80_0000 + a.fraction());
    assert(b.bits % 0x8000_0000 == b.exponent() * 0x80_0000 + b.fraction());
}

/// The total order agrees with the order of values where both are numbers.
pub proof fn lemma_rank_orders_doubles(a: Double, b: Double)
    requires
        !a.nan(),
        !b.nan(),
        a.rank() <= b.rank(),
    ensures
        a.value() <= b.value(),
{
    let scale = 0x10_0000_0000_0000nat;
    lemma_magnitude_order(scale, a.exponent(), a.fraction(), b.exponent(), b.fraction());
    assert(a.bits % 0x8000_0000_0000_0000 == a.exponent() * scale + a.fraction());
    assert(b.bits % 0x8000_0000_0000_0000 == b.exponent() * scale + b.fraction());
}

/// What is no larger than a finite number is finite.
pub proof fn lemma_smaller_is_finite(x: Double, bound: Double)
    requires
        !x.nan(),
        bound.finite(),
        x.magnitude() <= bound.magnitude(),
    ensures
        x.finite(),
{
    lemma_magnitude_order(
        0x10_0000_0000_0000,
        bound.exponent(),
        bound.fraction(),
        x.exponent(),
        x.fraction(),
    );
}

/// What lies between finite numbers is finite.
pub proof fn lemma_between_is_finite(low: Double, x: Double, high: Double)
    requires
        !x.nan(),
        low.finite(),
        high.finite(),
        low.value() <= x.value() <= high.value(),
    ensures
        x.finite(),
{
    if x.negative() {
        lemma_smaller_is_finite(x, low);
    } else {
        lemma_smaller_is_finite(x, high);
    }
}

/// Numbers of the same or the opposite value differ in their sign at most.
pub proof fn lemma_same_magnitude(x: Double, y: Double)
    requires
        x.magnitude() == y.magnitude(),
    ensures
        x.absolute() == y.absolute(),
{
    let scale = 0x10_0000_0000_0000nat;
    lemma_magnitude_order(scale, x.exponent(), x.fraction(), y.exponent(), y.fraction());
    assert(x.bits % 0x8000_0000_0000_0000 == x.exponent() * scale + x.fraction());
    assert(y.bits % 0x8000_0000_0000_0000 == y.exponent() * scale + y.fraction());
}

/// Every number lies between the infinities.
pub proof fn lemma_infinities(a: Single)
    requires
        !a.nan(),
    ensures
        a.value() <= (Single { bits: 0x7f80_0000 }).value(),
        a.value() >= (Single { bits: 0xff80_0000 }).value(),
{
    let top = Single { bits: 0x7f80_0000 };
    let bottom = Single { bits: 0xff80_0000 };
    assert(top.exponent() == 0xff && top.fraction() == 0);
    assert(bottom.exponent() == 0xff && bottom.fraction() == 0);
    lemma_magnitude_order(0x80_0000, a.exponent(), a.fraction(), 0xff, 0);
}

/// A finite number is neither of the infinities.
pub proof fn lemma_finite_is_inside(a: Single)
    requires
        a.finite(),
    ensures
        a.value() < (Single { bits: 0x7f80_0000 }).value(),
        a.value() > (Single { bits: 0xff80_0000 }).value(),
{
    let top = Single { bits: 0x7f80_0000 };
    let bottom = Single { bits: 0xff80_0000 };
    assert(top.exponent() == 0xff && top.fraction() == 0);
    assert(bottom.exponent() == 0xff && bottom.fraction() == 0);
    lemma_magnitude_order(0x80_0000, a.exponent(), a.fraction(), 0xff, 0);
}

/// The whole numbers around a number are at most one apart, the lower first.
pub proof fn law_floor_and_ceil_are_adjacent(x: Double)
    ensures
        x.floor() <= x.ceil() <= x.floor() + 1,
        x.floor() <= x.round() <= x.ceil(),
{
    lemma_pow2_pos(1074);
    lemma_round_parts(x.value(), Double::unit());
    lemma_fundamental_div_mod(x.value(), Double::unit());
}

} // verus!
