//! Single-precision numbers, held as their IEEE 754 bit patterns.
//!
//! This module compares numbers, picks the smaller or larger one, flips signs
//! and converts to and from integers; all of that can be read off the bit
//! pattern. Arithmetic on numbers is in [`crate::arith`]. The meaning of a
//! pattern is [`Scalar::value`]: the number it stands for, scaled by 2^149 so
//! that every finite single is an integer.

use vstd::arithmetic::power2::pow2;
use vstd::prelude::*;

verus! {

use vstd::arithmetic::power2::{
    lemma2_to64, lemma_pow2_adds, lemma_pow2_pos, lemma_pow2_strictly_increases, lemma_pow2_unfold,
};

/// The weight of the sign bit.
pub const SIGN: u32 = 0x8000_0000;

/// The bit pattern of positive infinity; larger magnitudes are not numbers.
pub const INFINITY: u32 = 0x7f80_0000;

/// The weight of the lowest exponent bit.
pub const HIDDEN: u32 = 0x0080_0000;

/// A single-precision number, by its bit pattern.
#[derive(Clone, Copy, Debug, PartialEq, Eq, Structural)]
pub struct Scalar {
    pub bits: u32,
}

/// The pattern of 1.
pub const ONE: u32 = 0x3f80_0000;

/// The pattern of 100.
pub const HUNDRED: u32 = 0x42c8_0000;

/// The pattern of the single nearest to 0.001.
pub const MILLI: u32 = 0x3a83_126f;

/// The pattern of the single nearest to 0.000001.
pub const MICRO: u32 = 0x3586_37bd;

/// The value, scaled by 2^149, of a non-negative number with these exponent
/// and fraction bits. Infinity gets the value that its pattern would have if
/// it were one more binade, so that it lies above all finite numbers.
pub open spec fn magnitude(mag: int) -> int {
    if mag / 0x80_0000 == 0 {
        mag % 0x80_0000
    } else {
        (mag % 0x80_0000 + 0x80_0000) * pow2((mag / 0x80_0000 - 1) as nat)
    }
}

/// The scale of [`Scalar::value`].
pub open spec fn unit() -> int {
    pow2(149) as int
}

impl Scalar {
    pub open spec fn negative(self) -> bool {
        self.bits >= SIGN
    }

    /// The bits below the sign.
    pub open spec fn mag(self) -> int {
        if self.bits >= SIGN {
            self.bits - SIGN
        } else {
            self.bits as int
        }
    }

    pub open spec fn nan(self) -> bool {
        self.mag() > INFINITY
    }

    pub open spec fn finite(self) -> bool {
        self.mag() < INFINITY
    }

    /// The number that the pattern stands for, times 2^149. Both zeros have the
    /// value 0. The infinities have a value too, beyond all finite ones.
    pub open spec fn value(self) -> int {
        if self.negative() {
            -magnitude(self.mag())
        } else {
            magnitude(self.mag())
        }
    }

    /// `self < other`, as floating-point comparison has it.
    pub open spec fn less(self, other: Scalar) -> bool {
        !self.nan() && !other.nan() && self.value() < other.value()
    }

    /// `self == other`, as floating-point comparison has it.
    pub open spec fn same(self, other: Scalar) -> bool {
        !self.nan() && !other.nan() && self.value() == other.value()
    }

    /// The larger of two numbers; a value that is no number loses.
    pub open spec fn larger(self, other: Scalar) -> Scalar {
        if self.nan() || self.less(other) {
            other
        } else {
            self
        }
    }

    /// The smaller of two numbers; a value that is no number loses.
    pub open spec fn smaller(self, other: Scalar) -> Scalar {
        if self.nan() || other.less(self) {
            other
        } else {
            self
        }
    }

    /// The number with the opposite sign bit.
    pub open spec fn negated(self) -> Scalar {
        Scalar {
            bits: if self.bits >= SIGN {
                (self.bits - SIGN) as u32
            } else {
                (self.bits + SIGN) as u32
            },
        }
    }

    /// The number without its sign bit.
    pub open spec fn absolute(self) -> Scalar {
        Scalar { bits: self.mag() as u32 }
    }

    /// The number cut to an unsigned integer: rounded toward zero, held inside
    /// the range of `u32`, and 0 for what is no number.
    pub open spec fn truncated(self) -> int {
        if self.nan() || self.value() <= 0 {
            0
        } else if self.value() / unit() > u32::MAX {
            u32::MAX as int
        } else {
            self.value() / unit()
        }
    }

    /// The number rounded up to an integer and held inside the range of `u32`;
    /// 0 for what is no number.
    pub open spec fn raised(self) -> int {
        if self.nan() || self.value() <= 0 {
            0
        } else if (self.value() + unit() - 1) / unit() > u32::MAX {
            u32::MAX as int
        } else {
            (self.value() + unit() - 1) / unit()
        }
    }
}

proof fn lemma_magnitude_bounds(mag: int)
    requires
        0 <= mag <= 0x7fff_ffff,
    ensures
        magnitude(mag) >= 0,
        mag > 0 ==> magnitude(mag) > 0,
        mag == 0 ==> magnitude(mag) == 0,
        mag >= 0x80_0000 ==> magnitude(mag) >= 0x80_0000 * pow2((mag / 0x80_0000 - 1) as nat),
        mag >= 0x80_0000 ==> magnitude(mag) < 0x100_0000 * pow2((mag / 0x80_0000 - 1) as nat),
{
    if mag >= 0x80_0000 {
        let p = pow2((mag / 0x80_0000 - 1) as nat) as int;
        let f = mag % 0x80_0000;
        lemma_pow2_pos((mag / 0x80_0000 - 1) as nat);
        assert(0x80_0000 * p <= (f + 0x80_0000) * p < 0x100_0000 * p) by (nonlinear_arith)
            requires
                0 <= f < 0x80_0000,
                p > 0,
        ;
    }
}

/// A larger pattern stands for a larger magnitude.
pub proof fn lemma_magnitude_increases(a: int, b: int)
    requires
        0 <= a < b <= 0x7fff_ffff,
    ensures
        magnitude(a) < magnitude(b),
{
    lemma_magnitude_bounds(a);
    lemma_magnitude_bounds(b);
    let ea = a / 0x80_0000;
    let eb = b / 0x80_0000;
    assert(ea <= eb);
    if eb == 0 {
    } else if ea == 0 {
        lemma_pow2_pos((eb - 1) as nat);
        let p = pow2((eb - 1) as nat) as int;
        assert(0x80_0000 * p >= 0x80_0000) by (nonlinear_arith)
            requires
                p >= 1,
        ;
    } else if ea == eb {
        lemma_pow2_pos((ea - 1) as nat);
        let p = pow2((ea - 1) as nat) as int;
        let fa = a % 0x80_0000;
        let fb = b % 0x80_0000;
        assert((fa + 0x80_0000) * p < (fb + 0x80_0000) * p) by (nonlinear_arith)
            requires
                fa < fb,
                p > 0,
        ;
    } else {
        lemma_pow2_unfold(ea as nat);
        if ea < eb - 1 {
            lemma_pow2_strictly_increases(ea as nat, (eb - 1) as nat);
        }
    }
}

/// The order of values is the order of patterns, read as signed magnitudes.
pub proof fn lemma_value_order(a: Scalar, b: Scalar)
    ensures
        a.value() < b.value() <==> a.rank_of() < b.rank_of(),
        a.value() == b.value() <==> a.rank_of() == b.rank_of(),
{
    lemma_magnitude_bounds(a.mag());
    lemma_magnitude_bounds(b.mag());
    if a.mag() < b.mag() {
        lemma_magnitude_increases(a.mag(), b.mag());
    } else if b.mag() < a.mag() {
        lemma_magnitude_increases(b.mag(), a.mag());
    }
}

/// Negation is exact and undoes itself.
pub proof fn lemma_negated(a: Scalar)
    ensures
        a.negated().negated() == a,
        a.negated().value() == -a.value(),
        a.negated().nan() == a.nan(),
{
}

impl Scalar {
    /// The pattern as a signed magnitude.
    pub open spec fn rank_of(self) -> int {
        if self.negative() {
            -self.mag()
        } else {
            self.mag()
        }
    }

    /// The pattern as a signed magnitude, which orders as the number does.
    pub fn rank(self) -> (r: i64)
        ensures
            r == self.rank_of(),
            -0x8000_0000 < r < 0x8000_0000,
    {
        if self.bits >= SIGN {
            -((self.bits - SIGN) as i64)
        } else {
            self.bits as i64
        }
    }

    fn mag_bits(self) -> (r: u32)
        ensures
            r == self.mag(),
    {
        if self.bits >= SIGN {
            self.bits - SIGN
        } else {
            self.bits
        }
    }

    pub fn is_nan(self) -> (r: bool)
        ensures
            r == self.nan(),
    {
        self.mag_bits() > INFINITY
    }

    pub fn is_finite(self) -> (r: bool)
        ensures
            r == self.finite(),
    {
        self.mag_bits() < INFINITY
    }

    /// `self < other`.
    pub fn lt(self, other: Scalar) -> (r: bool)
        ensures
            r == self.less(other),
    {
        proof {
            lemma_value_order(self, other);
        }
        !self.is_nan() && !other.is_nan() && self.rank() < other.rank()
    }

    /// `self <= other`.
    pub fn le(self, other: Scalar) -> (r: bool)
        ensures
            r == (self.less(other) || self.same(other)),
    {
        proof {
            lemma_value_order(self, other);
        }
        !self.is_nan() && !other.is_nan() && self.rank() <= other.rank()
    }

    /// `self == other`, by number: the two zeros are equal, and what is no
    /// number equals nothing.
    pub fn num_eq(self, other: Scalar) -> (r: bool)
        ensures
            r == self.same(other),
    {
        proof {
            lemma_value_order(self, other);
        }
        !self.is_nan() && !other.is_nan() && self.rank() == other.rank()
    }

    pub fn max(self, other: Scalar) -> (r: Scalar)
        ensures
            r == self.larger(other),
    {
        if self.is_nan() || self.lt(other) {
            other
        } else {
            self
        }
    }

    pub fn min(self, other: Scalar) -> (r: Scalar)
        ensures
            r == self.smaller(other),
    {
        if self.is_nan() || other.lt(self) {
            other
        } else {
            self
        }
    }

    pub fn neg(self) -> (r: Scalar)
        ensures
            r == self.negated(),
    {
        if self.bits >= SIGN {
            Scalar { bits: self.bits - SIGN }
        } else {
            Scalar { bits: self.bits + SIGN }
        }
    }

    pub fn abs(self) -> (r: Scalar)
        ensures
            r == self.absolute(),
    {
        Scalar { bits: self.mag_bits() }
    }
}

/// How a positive finite number divides by the unit: its significand times a
/// power of two, against 2^149.
proof fn lemma_scaled(m: int, e: int)
    requires
        0x80_0000 <= m < 0x100_0000,
        1 <= e <= 254,
    ensures
        e <= 150 ==> m * pow2((e - 1) as nat) / unit() == m / (pow2((150 - e) as nat) as int),
        e > 150 ==> m * pow2((e - 1) as nat) / unit() == m * pow2((e - 150) as nat),
        e > 150 ==> m * pow2((e - 1) as nat) == m * pow2((e - 150) as nat) * unit(),
        unit() > 0,
{
    lemma_pow2_pos(149);
    lemma_pow2_pos((e - 1) as nat);
    let p = pow2((e - 1) as nat) as int;
    if e <= 150 {
        let q = pow2((150 - e) as nat) as int;
        lemma_pow2_pos((150 - e) as nat);
        lemma_pow2_adds((e - 1) as nat, (150 - e) as nat);
        assert(m * p >= 0) by (nonlinear_arith)
            requires
                m >= 0,
                p > 0,
        ;
        vstd::arithmetic::div_mod::lemma_div_denominator(m * p, p, q);
        vstd::arithmetic::div_mod::lemma_div_by_multiple(m, p);
    } else {
        let q = pow2((e - 150) as nat) as int;
        lemma_pow2_adds((e - 150) as nat, 149);
        assert(m * (q * unit()) == m * q * unit()) by (nonlinear_arith);
        vstd::arithmetic::div_mod::lemma_div_by_multiple(m * q, unit());
    }
}

proof fn lemma_ceiling(v: int, u: int, q: int)
    requires
        u > 0,
        (q - 1) * u < v <= q * u,
    ensures
        (v + u - 1) / u == q,
{
    let r = v + u - 1 - q * u;
    assert(v + u - 1 == q * u + r && 0 <= r < u) by (nonlinear_arith)
        requires
            (q - 1) * u < v <= q * u,
            r == v + u - 1 - q * u,
    ;
    vstd::arithmetic::div_mod::lemma_fundamental_div_mod_converse(v + u - 1, u, q, r);
}

impl Scalar {
    /// The number as an unsigned integer: cut toward zero, saturating.
    pub fn to_u32(self) -> (r: u32)
        ensures
            r == self.truncated(),
    {
        if self.is_nan() || self.bits >= SIGN {
            proof {
                lemma_magnitude_bounds(self.mag());
            }
            return 0;
        }
        let e: u32 = self.bits / HIDDEN;
        let m: u32 = self.bits % HIDDEN + HIDDEN;
        proof {
            lemma_magnitude_bounds(self.mag());
            lemma2_to64();
            lemma_pow2_pos(149);
            lemma_pow2_strictly_increases(24, 149);
        }
        if e == 0 {
            proof {
                vstd::arithmetic::div_mod::lemma_basic_div(self.value(), unit());
            }
            return 0;
        }
        proof {
            if e <= 254 {
                lemma_scaled(m as int, e as int);
            }
        }
        if e >= 159 {
            proof {
                lemma_large(self);
            }
            return u32::MAX;
        }
        if e > 150 {
            proof {
                lemma_pow2_pos((e - 150) as nat);
                if e < 158 {
                    lemma_pow2_strictly_increases((e - 150) as nat, 8);
                }
                let q = pow2((e - 150) as nat) as int;
                assert(0 < m * q <= u32::MAX) by (nonlinear_arith)
                    requires
                        0 < q <= 256,
                        0 < m < 0x100_0000,
                ;
                vstd::bits::lemma_u32_shl_is_mul(m, (e - 150) as u32);
            }
            return m << (e - 150);
        }
        if e < 127 {
            proof {
                lemma_small(m as int, e as int);
            }
            return 0;
        }
        proof {
            vstd::bits::lemma_u32_shr_is_div(m, (150 - e) as u32);
            lemma_pow2_pos((150 - e) as nat);
            let q = pow2((150 - e) as nat) as int;
            assert(m as int / q <= m) by {
                vstd::arithmetic::div_mod::lemma_div_is_ordered_by_denominator(m as int, 1, q);
            }
        }
        m >> (150 - e)
    }

    /// The number rounded up to an unsigned integer, saturating.
    pub fn ceil_to_u32(self) -> (r: u32)
        ensures
            r == self.raised(),
    {
        if self.is_nan() || self.bits >= SIGN || self.bits == 0 {
            proof {
                lemma_magnitude_bounds(self.mag());
            }
            return 0;
        }
        let ghost v = self.value();
        let ghost u = unit();
        proof {
            lemma_magnitude_bounds(self.mag());
            lemma_pow2_pos(149);
            vstd::arithmetic::div_mod::lemma_fundamental_div_mod(v, u);
        }
        let low: u32 = self.to_u32();
        let e: u32 = self.bits / HIDDEN;
        let m: u32 = self.bits % HIDDEN + HIDDEN;
        if e >= 159 {
            proof {
                lemma_large(self);
                vstd::arithmetic::div_mod::lemma_div_is_ordered(v, v + u - 1, u);
            }
            return u32::MAX;
        }
        if e > 150 {
            proof {
                lemma_scaled(m as int, e as int);
                let q = m * pow2((e - 150) as nat);
                assert((q - 1) * u < q * u) by (nonlinear_arith)
                    requires
                        u > 0,
                ;
                lemma_ceiling(v, u, q);
                lemma_pow2_pos((e - 150) as nat);
                lemma2_to64();
                if e < 158 {
                    lemma_pow2_strictly_increases((e - 150) as nat, 8);
                }
                let p = pow2((e - 150) as nat) as int;
                assert(m * p <= u32::MAX) by (nonlinear_arith)
                    requires
                        0 < p <= 256,
                        0 < m < 0x100_0000,
                ;
            }
            return low;
        }
        if e < 127 {
            proof {
                lemma2_to64();
                lemma_pow2_strictly_increases(24, 149);
                if e > 0 {
                    lemma_small(m as int, e as int);
                } else {
                    vstd::arithmetic::div_mod::lemma_basic_div(v, u);
                }
                lemma_ceiling(v, u, 1);
            }
            return 1;
        }
        let s: u32 = 150 - e;
        let back: u32 = low << s;
        proof {
            lemma_scaled(m as int, e as int);
            let q = pow2(s as nat) as int;
            let p = pow2((e - 1) as nat) as int;
            lemma_pow2_pos(s as nat);
            lemma_pow2_pos((e - 1) as nat);
            lemma_pow2_adds((e - 1) as nat, s as nat);
            assert(low == m as int / q) by {
                vstd::arithmetic::div_mod::lemma_div_is_ordered_by_denominator(m as int, 1, q);
                assert(v > 0);
            }
            vstd::arithmetic::div_mod::lemma_fundamental_div_mod(m as int, q);
            assert(low * q <= m) by (nonlinear_arith)
                requires
                    m == q * low + m as int % q,
                    m as int % q >= 0,
            ;
            vstd::bits::lemma_u32_shl_is_mul(low, s);
            assert(v == m * p);
            assert(u == p * q);
            if back == m {
                assert((low - 1) * u < v <= low * u) by (nonlinear_arith)
                    requires
                        v == m * p,
                        u == p * q,
                        m == low * q,
                        u > 0,
                ;
                lemma_ceiling(v, u, low as int);
            } else {
                let r = m as int % q;
                assert(0 < r < q) by {
                    if r == 0 {
                        assert(m == low * q) by (nonlinear_arith)
                            requires
                                m == q * low + r,
                                r == 0,
                        ;
                    }
                }
                assert((low + 1 - 1) * u < v <= (low + 1) * u) by (nonlinear_arith)
                    requires
                        v == m * p,
                        u == p * q,
                        m == q * low + r,
                        0 < r < q,
                        p > 0,
                ;
                lemma_ceiling(v, u, low + 1);
            }
        }
        if back == m {
            low
        } else {
            low + 1
        }
    }
}

/// From 2^32 on a number exceeds every `u32`.
proof fn lemma_large(a: Scalar)
    requires
        !a.nan(),
        !a.negative(),
        a.bits / HIDDEN >= 159,
    ensures
        a.value() > 0,
        a.value() / unit() > u32::MAX,
{
    let e = a.mag() / 0x80_0000;
    let m = a.mag() % 0x80_0000 + 0x80_0000;
    lemma_magnitude_bounds(a.mag());
    lemma_pow2_pos(149);
    lemma_pow2_adds((e - 150) as nat, 149);
    lemma2_to64();
    if e > 159 {
        lemma_pow2_strictly_increases(9, (e - 150) as nat);
    }
    let q = pow2((e - 150) as nat) as int;
    assert(m * (q * unit()) == m * q * unit()) by (nonlinear_arith);
    vstd::arithmetic::div_mod::lemma_div_by_multiple(m * q, unit());
    assert(m * q > u32::MAX) by (nonlinear_arith)
        requires
            m >= 0x80_0000,
            q >= 512,
    ;
}

/// Below 1 a number is less than the unit.
proof fn lemma_small(m: int, e: int)
    requires
        0x80_0000 <= m < 0x100_0000,
        1 <= e < 127,
    ensures
        0 < m * pow2((e - 1) as nat) < unit(),
        m * pow2((e - 1) as nat) / unit() == 0,
{
    lemma2_to64();
    lemma_pow2_pos((e - 1) as nat);
    lemma_pow2_adds((e - 1) as nat, 24);
    if e < 126 {
        lemma_pow2_strictly_increases((e - 1 + 24) as nat, 149);
    }
    let p = pow2((e - 1) as nat) as int;
    assert(0 < m * p < p * 0x100_0000) by (nonlinear_arith)
        requires
            0 < m < 0x100_0000,
            p > 0,
    ;
    vstd::arithmetic::div_mod::lemma_basic_div(m * p, unit());
}

} // verus!
