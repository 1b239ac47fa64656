//! Single-precision arithmetic on bit patterns.
//!
//! Each operation gives the number nearest to the exact result, and of two that
//! are equally near the one with an even last place, as IEEE 754 asks for. The
//! meaning of an operation is stated over exact values; the code works on
//! significands and exponents.

use crate::scalar;
use crate::scalar::{Scalar, HIDDEN, INFINITY, SIGN};
use vstd::arithmetic::power2::pow2;
use vstd::prelude::*;

verus! {

/// The pattern that stands for a result that is no number.
pub const NOT_A_NUMBER: u32 = 0x7fc0_0000;

/// How far the number with pattern `m` is from `n / d`, times `d`.
pub open spec fn distance(n: int, d: int, m: int) -> int {
    let v = scalar::magnitude(m) * d;
    if v <= n {
        n - v
    } else {
        v - n
    }
}

/// Pattern `m` is a better choice for `n / d` than pattern `o`: nearer, or as
/// near and even.
pub open spec fn preferred(n: int, d: int, m: int, o: int) -> bool {
    distance(n, d, m) < distance(n, d, o) || (distance(n, d, m) == distance(n, d, o) && m % 2 == 0)
}

/// Among the patterns from 0 to infinity, `m` is the best choice for `n / d`.
pub open spec fn is_nearest(n: int, d: int, m: int) -> bool {
    &&& 0 <= m <= INFINITY
    &&& forall|o: int| 0 <= o <= INFINITY && o != m ==> #[trigger] preferred(n, d, m, o)
}

/// The pattern of the number nearest to `n / d`.
pub open spec fn nearest_pattern(n: int, d: int) -> int {
    choose|m: int| is_nearest(n, d, m)
}

/// A magnitude with a sign.
pub open spec fn with_sign(negative: bool, m: int) -> Scalar {
    Scalar {
        bits: if negative {
            (m + SIGN) as u32
        } else {
            m as u32
        },
    }
}

pub open spec fn no_number() -> Scalar {
    Scalar { bits: NOT_A_NUMBER }
}

pub open spec fn absolute(v: int) -> int {
    if v < 0 {
        -v
    } else {
        v
    }
}

impl Scalar {
    pub open spec fn infinite(self) -> bool {
        self.mag() == INFINITY
    }

    /// The sum.
    pub open spec fn plus(self, other: Scalar) -> Scalar {
        let v = self.value() + other.value();
        if self.nan() || other.nan() {
            no_number()
        } else if self.infinite() {
            if other.infinite() && self.negative() != other.negative() {
                no_number()
            } else {
                self
            }
        } else if other.infinite() {
            other
        } else if v == 0 {
            with_sign(self.negative() && other.negative(), 0)
        } else {
            with_sign(v < 0, nearest_pattern(absolute(v), 1))
        }
    }

    /// The difference.
    pub open spec fn minus(self, other: Scalar) -> Scalar {
        self.plus(other.negated())
    }

    /// The product.
    pub open spec fn times(self, other: Scalar) -> Scalar {
        let negative = self.negative() != other.negative();
        if self.nan() || other.nan() {
            no_number()
        } else if self.infinite() || other.infinite() {
            if self.mag() == 0 || other.mag() == 0 {
                no_number()
            } else {
                with_sign(negative, INFINITY as int)
            }
        } else {
            with_sign(
                negative,
                nearest_pattern(absolute(self.value()) * absolute(other.value()), scalar::unit()),
            )
        }
    }

    /// The quotient.
    pub open spec fn over(self, other: Scalar) -> Scalar {
        let negative = self.negative() != other.negative();
        if self.nan() || other.nan() {
            no_number()
        } else if self.infinite() {
            if other.infinite() {
                no_number()
            } else {
                with_sign(negative, INFINITY as int)
            }
        } else if other.infinite() {
            with_sign(negative, 0)
        } else if other.mag() == 0 {
            if self.mag() == 0 {
                no_number()
            } else {
                with_sign(negative, INFINITY as int)
            }
        } else {
            with_sign(
                negative,
                nearest_pattern(absolute(self.value()) * scalar::unit(), absolute(other.value())),
            )
        }
    }

    /// What is left of the number when the other is taken off as often as it
    /// goes, with the sign of the number.
    pub open spec fn modulo(self, other: Scalar) -> Scalar {
        if self.nan() || other.nan() || self.infinite() || other.mag() == 0 {
            no_number()
        } else if other.infinite() {
            self
        } else {
            with_sign(
                self.negative(),
                nearest_pattern(absolute(self.value()) % absolute(other.value()), 1),
            )
        }
    }
}

pub proof fn lemma_magnitudes(a: int, b: int)
    requires
        0 <= a <= b <= INFINITY,
    ensures
        scalar::magnitude(a) <= scalar::magnitude(b),
        a < b ==> scalar::magnitude(a) < scalar::magnitude(b),
        scalar::magnitude(a) >= 0,
{
    if a < b {
        scalar::lemma_magnitude_increases(a, b);
    }
    if a > 0 {
        scalar::lemma_magnitude_increases(0, a);
    }
}

/// Between two neighbours the nearer one is the best choice.
pub proof fn lemma_bracket(n: int, d: int, m: int)
    requires
        d > 0,
        0 <= m < INFINITY,
        scalar::magnitude(m) * d <= n < scalar::magnitude(m + 1) * d,
    ensures
        ({
            let low = n - scalar::magnitude(m) * d;
            let high = scalar::magnitude(m + 1) * d - n;
            is_nearest(
                n,
                d,
                if low < high || (low == high && m % 2 == 0) {
                    m
                } else {
                    m + 1
                },
            )
        }),
{
    let low = n - scalar::magnitude(m) * d;
    let high = scalar::magnitude(m + 1) * d - n;
    let best = if low < high || (low == high && m % 2 == 0) {
        m
    } else {
        m + 1
    };
    assert forall|o: int| 0 <= o <= INFINITY && o != best implies #[trigger] preferred(
        n,
        d,
        best,
        o,
    ) by {
        if o < m {
            lemma_magnitudes(o, m);
            let a = scalar::magnitude(o);
            let b = scalar::magnitude(m);
            assert(a * d < b * d) by (nonlinear_arith)
                requires
                    a < b,
                    d > 0,
            ;
        } else if o > m + 1 {
            lemma_magnitudes(m + 1, o);
            let a = scalar::magnitude(m + 1);
            let b = scalar::magnitude(o);
            assert(a * d < b * d) by (nonlinear_arith)
                requires
                    a < b,
                    d > 0,
            ;
        }
    }
}

/// What is at least as large as the value of infinity rounds to it.
pub proof fn lemma_overflow(n: int, d: int)
    requires
        d > 0,
        n >= scalar::magnitude(INFINITY as int) * d,
    ensures
        is_nearest(n, d, INFINITY as int),
{
    let m = INFINITY as int;
    assert forall|o: int| 0 <= o <= INFINITY && o != m implies #[trigger] preferred(n, d, m, o) by {
        lemma_magnitudes(o, m);
        let a = scalar::magnitude(o);
        let b = scalar::magnitude(m);
        assert(a * d < b * d) by (nonlinear_arith)
            requires
                a < b,
                d > 0,
        ;
    }
}

/// There is only one best choice.
pub proof fn lemma_nearest_unique(n: int, d: int, m: int)
    requires
        d > 0,
        is_nearest(n, d, m),
    ensures
        nearest_pattern(n, d) == m,
{
    let c = nearest_pattern(n, d);
    if c != m {
        assert(is_nearest(n, d, c));
        assert(preferred(n, d, m, c));
        assert(preferred(n, d, c, m));
        let (a, b) = if m < c {
            (m, c)
        } else {
            (c, m)
        };
        let x = a + 1;
        assert(a < x < b);
        lemma_magnitudes(a, x);
        lemma_magnitudes(x, b);
        let p = scalar::magnitude(a);
        let q = scalar::magnitude(x);
        let r = scalar::magnitude(b);
        assert(p * d < q * d && q * d < r * d) by (nonlinear_arith)
            requires
                p < q < r,
                d > 0,
        ;
        assert(preferred(n, d, a, x));
    }
}

/// A number that has a pattern rounds to it.
pub proof fn lemma_exact(m: int)
    requires
        0 <= m <= INFINITY,
    ensures
        nearest_pattern(scalar::magnitude(m), 1) == m,
{
    let n = scalar::magnitude(m);
    if m < INFINITY {
        lemma_magnitudes(m, m + 1);
        lemma_bracket(n, 1, m);
    } else {
        lemma_overflow(n, 1);
    }
    lemma_nearest_unique(n, 1, m);
}

/// A pattern and the significand and exponent that it stands for.
pub open spec fn packs(q: int, s: int, m: int) -> bool {
    &&& 0 <= q < 0x100_0000
    &&& 0 <= s
    &&& s == 0 || q >= 0x80_0000
    &&& m == s * 0x80_0000 + q
}

pub proof fn lemma_packs(q: int, s: int, m: int)
    requires
        packs(q, s, m),
    ensures
        scalar::magnitude(m) == q * pow2(s as nat),
        scalar::magnitude(m + 1) == (q + 1) * pow2(s as nat),
{
    vstd::arithmetic::power2::lemma2_to64();
    let p = pow2(s as nat) as int;
    assert(q * 1 == q && (q + 1) * 1 == q + 1);
    if q < 0x80_0000 {
        assert(m / 0x80_0000 == 0 && m % 0x80_0000 == q);
        if q + 1 == 0x80_0000 {
            assert((m + 1) / 0x80_0000 == 1 && (m + 1) % 0x80_0000 == 0);
        } else {
            assert((m + 1) / 0x80_0000 == 0 && (m + 1) % 0x80_0000 == q + 1);
        }
    } else {
        assert(m / 0x80_0000 == s + 1 && m % 0x80_0000 == q - 0x80_0000);
        if q + 1 == 0x100_0000 {
            assert((m + 1) / 0x80_0000 == s + 2 && (m + 1) % 0x80_0000 == 0);
            vstd::arithmetic::power2::lemma_pow2_unfold((s + 1) as nat);
            assert(0x80_0000 * (2 * p) == 0x100_0000 * p) by (nonlinear_arith);
        } else {
            assert((m + 1) / 0x80_0000 == s + 1 && (m + 1) % 0x80_0000 == q + 1 - 0x80_0000);
        }
    }
}

pub open spec fn up(shift: int) -> int {
    if shift >= 0 {
        pow2(shift as nat) as int
    } else {
        1
    }
}

pub open spec fn down(shift: int) -> int {
    if shift >= 0 {
        1
    } else {
        pow2((-shift) as nat) as int
    }
}

/// `n / d` lies in `p..p + 1`, times a power of two; at `p` if `exact`.
pub open spec fn located(n: int, d: int, p: int, shift: int, exact: bool) -> bool {
    &&& p * (up(shift) * d) <= n * down(shift)
    &&& n * down(shift) < (p + 1) * (up(shift) * d)
    &&& exact <==> p * (up(shift) * d) == n * down(shift)
}

proof fn lemma_scale_positive(shift: int)
    ensures
        up(shift) > 0,
        down(shift) > 0,
{
    if shift >= 0 {
        vstd::arithmetic::power2::lemma_pow2_pos(shift as nat);
    } else {
        vstd::arithmetic::power2::lemma_pow2_pos((-shift) as nat);
    }
}

/// Comparing at one scale is comparing at the other.
proof fn lemma_rescale(n: int, d: int, h: int, shift: int, k: int)
    requires
        d > 0,
        k >= 0,
        shift + k >= 0,
    ensures
        n * down(shift) < h * pow2(k as nat) * (up(shift) * d) <==> n < h * pow2(
            (shift + k) as nat,
        ) * d,
        n * down(shift) == h * pow2(k as nat) * (up(shift) * d) <==> n == h * pow2(
            (shift + k) as nat,
        ) * d,
{
    let s = shift + k;
    let ps = pow2(s as nat) as int;
    let pk = pow2(k as nat) as int;
    lemma_scale_positive(shift);
    if shift >= 0 {
        vstd::arithmetic::power2::lemma_pow2_adds(shift as nat, k as nat);
        let u = up(shift);
        assert(h * pk * (u * d) == h * ps * d) by (nonlinear_arith)
            requires
                ps == u * pk,
        ;
        assert(n * 1 == n);
    } else {
        vstd::arithmetic::power2::lemma_pow2_adds(s as nat, (-shift) as nat);
        let t = down(shift);
        assert(h * pk * (1 * d) == (h * ps * d) * t) by (nonlinear_arith)
            requires
                pk == ps * t,
        ;
        let x = h * ps * d;
        assert(n * t < x * t <==> n < x) by (nonlinear_arith)
            requires
                t > 0,
        ;
        assert(n * t == x * t <==> n == x) by (nonlinear_arith)
            requires
                t > 0,
        ;
    }
}

/// Cutting `k` bits off and rounding by what they hold finds the best choice.
proof fn lemma_cut(n: int, d: int, p: int, shift: int, exact: bool, k: int, q: int, rem: int)
    requires
        d > 0,
        located(n, d, p, shift, exact),
        k >= 0,
        k == 0 ==> exact,
        shift + k >= 0,
        shift + k <= 253,
        p == q * pow2(k as nat) + rem,
        0 <= rem < pow2(k as nat),
        packs(q, shift + k, (shift + k) * 0x80_0000 + q),
    ensures
        ({
            let m = (shift + k) * 0x80_0000 + q;
            let twice = 2 * rem;
            let size = pow2(k as nat) as int;
            is_nearest(
                n,
                d,
                if twice > size || (twice == size && (!exact || q % 2 == 1)) {
                    m + 1
                } else {
                    m
                },
            )
        }),
{
    let s = shift + k;
    let m = s * 0x80_0000 + q;
    let size = pow2(k as nat) as int;
    let c = up(shift) * d;
    let nd = n * down(shift);
    let ps = pow2(s as nat) as int;
    vstd::arithmetic::power2::lemma_pow2_pos(k as nat);
    vstd::arithmetic::power2::lemma_pow2_pos(s as nat);
    lemma_scale_positive(shift);
    assert(c > 0) by (nonlinear_arith)
        requires
            c == up(shift) * d,
            up(shift) > 0,
            d > 0,
    ;
    lemma_packs(q, s, m);
    assert(m < INFINITY);
    // the bracket
    lemma_rescale(n, d, q, shift, k);
    lemma_rescale(n, d, q + 1, shift, k);
    assert(q * size * c <= nd) by (nonlinear_arith)
        requires
            p == q * size + rem,
            rem >= 0,
            c > 0,
            p * c <= nd,
    ;
    assert(nd < (q + 1) * size * c) by (nonlinear_arith)
        requires
            p == q * size + rem,
            rem < size,
            c > 0,
            nd < (p + 1) * c,
    ;
    assert(scalar::magnitude(m) * d <= n < scalar::magnitude(m + 1) * d);
    lemma_bracket(n, d, m);
    // the middle
    let h = 2 * q + 1;
    lemma_rescale(2 * n, d, h, shift, k);
    let low = n - scalar::magnitude(m) * d;
    let high = scalar::magnitude(m + 1) * d - n;
    let a = q * ps;
    let b = (q + 1) * ps;
    assert(h * ps * d == a * d + b * d) by (nonlinear_arith)
        requires
            a == q * ps,
            b == (q + 1) * ps,
            h == 2 * q + 1,
    ;
    assert(low < high <==> 2 * n < h * ps * d);
    assert(low == high <==> 2 * n == h * ps * d);
    let twice = 2 * n * down(shift);
    assert(twice == 2 * nd) by (nonlinear_arith)
        requires
            nd == n * down(shift),
            twice == 2 * n * down(shift),
    ;
    let mid = h * size * c;
    assert(mid == 2 * (q * size) * c + size * c) by (nonlinear_arith)
        requires
            mid == h * size * c,
            h == 2 * q + 1,
    ;
    let pc = p * c;
    assert(2 * pc == 2 * (q * size) * c + (2 * rem) * c) by (nonlinear_arith)
        requires
            pc == p * c,
            p == q * size + rem,
    ;
    if 2 * rem > size {
        assert((2 * rem) * c > size * c) by (nonlinear_arith)
            requires
                2 * rem > size,
                c > 0,
        ;
        assert(low > high);
    } else if 2 * rem == size {
        assert(2 * pc == mid);
    } else {
        let next = (p + 1) * c;
        assert(next == pc + c) by (nonlinear_arith)
            requires
                next == (p + 1) * c,
                pc == p * c,
        ;
        if k == 0 {
            vstd::arithmetic::power2::lemma2_to64();
            assert(rem == 0 && size == 1);
            assert(2 * pc < mid) by (nonlinear_arith)
                requires
                    2 * pc == 2 * (q * size) * c + (2 * rem) * c,
                    mid == 2 * (q * size) * c + size * c,
                    rem == 0,
                    size == 1,
                    c > 0,
            ;
        } else {
            vstd::arithmetic::power2::lemma_pow2_unfold(k as nat);
            assert(2 * rem + 2 <= size);
            assert((2 * rem + 2) * c <= size * c) by (nonlinear_arith)
                requires
                    2 * rem + 2 <= size,
                    c > 0,
            ;
            assert((2 * rem + 2) * c == (2 * rem) * c + 2 * c) by (nonlinear_arith);
        }
        assert(low < high);
    }
}

pub proof fn lemma_zero(d: int)
    requires
        d > 0,
    ensures
        is_nearest(0, d, 0),
        nearest_pattern(0, d) == 0,
{
    lemma_packs(0, 0, 0);
    vstd::arithmetic::power2::lemma2_to64();
    assert(scalar::magnitude(0) * d == 0) by (nonlinear_arith)
        requires
            scalar::magnitude(0) == 0,
    ;
    assert(scalar::magnitude(1) * d == d) by (nonlinear_arith)
        requires
            scalar::magnitude(1) == 1,
    ;
    lemma_bracket(0, d, 0);
    lemma_nearest_unique(0, d, 0);
}

/// The best choice for a number that is located by a significand and an
/// exponent.
fn round(p: u64, shift: i64, exact: bool, n: Ghost<int>, d: Ghost<int>) -> (m: u32)
    requires
        d@ > 0,
        located(n@, d@, p as int, shift as int, exact),
        !exact ==> p >= 0x100_0000,
        p < 0x8000_0000_0000_0000,
        -1000 <= shift <= 1000,
    ensures
        is_nearest(n@, d@, m as int),
{
    let ghost n = n@;
    let ghost d = d@;
    if p == 0 {
        proof {
            lemma_scale_positive(shift as int);
            assert(0 * (up(shift as int) * d) == 0);
            assert(n == 0) by (nonlinear_arith)
                requires
                    n * down(shift as int) == 0,
                    down(shift as int) > 0,
            ;
            lemma_zero(d);
        }
        return 0;
    }
    let mut p: u64 = p;
    let mut shift: i64 = shift;
    while exact && p < 0x80_0000 && shift > 0
        invariant
            d > 0,
            located(n, d, p as int, shift as int, exact),
            !exact ==> p >= 0x100_0000,
            0 < p < 0x8000_0000_0000_0000,
            -1000 <= shift <= 1000,
        decreases shift,
    {
        proof {
            vstd::arithmetic::power2::lemma_pow2_unfold(shift as nat);
            lemma_scale_positive(shift - 1);
            let c = up(shift - 1) * d;
            let two = up(shift as int) * d;
            assert(two == 2 * c && c > 0) by (nonlinear_arith)
                requires
                    c == up(shift - 1) * d,
                    two == up(shift as int) * d,
                    up(shift as int) == 2 * up(shift - 1),
                    up(shift - 1) > 0,
                    d > 0,
            ;
            assert(p * two == (p * 2) * c) by (nonlinear_arith)
                requires
                    two == 2 * c,
            ;
            assert((p * 2) * c < (p * 2 + 1) * c) by (nonlinear_arith)
                requires
                    c > 0,
            ;
        }
        p = p * 2;
        shift = shift - 1;
    }
    let mut top: u64 = p;
    let mut k: u64 = 0;
    assert(pow2(0) == 1) by {
        vstd::arithmetic::power2::lemma2_to64();
    }
    while top >= 0x100_0000
        invariant
            0 < p < 0x8000_0000_0000_0000,
            0 <= k <= 63,
            top > 0,
            k > 0 ==> top >= 0x80_0000,
            top == p as int / (pow2(k as nat) as int),
            top as int * pow2(k as nat) <= p,
        decreases top,
    {
        proof {
            vstd::arithmetic::power2::lemma_pow2_unfold((k + 1) as nat);
            vstd::arithmetic::power2::lemma_pow2_pos(k as nat);
            let size = pow2(k as nat) as int;
            vstd::arithmetic::div_mod::lemma_div_denominator(p as int, size, 2);
            assert(size * 2 == 2 * size);
            let half = top as int / 2;
            assert(half * (2 * size) <= top as int * size) by (nonlinear_arith)
                requires
                    half * 2 <= top,
                    size > 0,
            ;
            if k >= 39 {
                vstd::arithmetic::power2::lemma2_to64();
                vstd::arithmetic::power2::lemma2_to64_rest();
                if k > 39 {
                    vstd::arithmetic::power2::lemma_pow2_strictly_increases(39, k as nat);
                }
                assert(top as int * size >= 0x100_0000 * 0x80_0000_0000) by (nonlinear_arith)
                    requires
                        top >= 0x100_0000,
                        size >= 0x80_0000_0000,
                ;
            }
        }
        top = top / 2;
        k = k + 1;
    }
    proof {
        assert(k <= 40) by {
            if k > 40 {
                vstd::arithmetic::power2::lemma2_to64();
                vstd::arithmetic::power2::lemma2_to64_rest();
                vstd::arithmetic::power2::lemma_pow2_strictly_increases(40, k as nat);
                let size = pow2(k as nat) as int;
                assert(top as int * size >= 0x80_0000 * 0x100_0000_0000) by (nonlinear_arith)
                    requires
                        top >= 0x80_0000,
                        size >= 0x100_0000_0000,
                ;
            }
        }
    }
    let mut cut: i64 = k as i64;
    if shift + cut < 0 {
        cut = -shift;
    }
    let s: i64 = shift + cut;
    if cut > 63 {
        proof {
            vstd::arithmetic::power2::lemma2_to64_rest();
            vstd::arithmetic::power2::lemma_pow2_strictly_increases(63, cut as nat);
            vstd::arithmetic::power2::lemma_pow2_unfold(64);
            if cut > 64 {
                vstd::arithmetic::power2::lemma_pow2_strictly_increases(64, cut as nat);
            }
            assert(0 * pow2(cut as nat) == 0);
            lemma_cut(n, d, p as int, shift as int, exact, cut as int, 0, p as int);
        }
        return 0;
    }
    let c: u64 = cut as u64;
    let q: u64 = p >> c;
    let size: u64 = 1u64 << c;
    proof {
        vstd::bits::lemma_u64_pow2_no_overflow(c as nat);
        vstd::bits::lemma_u64_shr_is_div(p, c);
        vstd::bits::lemma_u64_shl_is_mul(1, c);
        assert(1 * pow2(c as nat) == pow2(c as nat));
        vstd::arithmetic::power2::lemma_pow2_pos(c as nat);
    }
    let rem: u64 = p % size;
    proof {
        vstd::arithmetic::div_mod::lemma_fundamental_div_mod(p as int, size as int);
        assert(p == q * pow2(cut as nat) + rem) by (nonlinear_arith)
            requires
                p == size * q + rem,
                size == pow2(cut as nat),
        ;
        if cut > k {
            assert(s == 0);
            vstd::arithmetic::power2::lemma_pow2_strictly_increases(k as nat, cut as nat);
            vstd::arithmetic::power2::lemma_pow2_pos(k as nat);
            vstd::arithmetic::div_mod::lemma_div_is_ordered_by_denominator(
                p as int,
                pow2(k as nat) as int,
                pow2(cut as nat) as int,
            );
        } else {
            assert(q == top);
        }
        assert(q < 0x100_0000);
        if s > 0 && k == 0 {
            assert(size == 1);
        }
        assert(s == 0 || q >= 0x80_0000);
    }
    if s > 253 {
        proof {
            lemma_rescale(n, d, q as int, shift as int, cut as int);
            let cc = up(shift as int) * d;
            lemma_scale_positive(shift as int);
            let nd = n * down(shift as int);
            let sz = size as int;
            assert(cc > 0) by (nonlinear_arith)
                requires
                    cc == up(shift as int) * d,
                    up(shift as int) > 0,
                    d > 0,
            ;
            assert(q * sz * cc <= nd) by (nonlinear_arith)
                requires
                    p == q * sz + rem,
                    rem >= 0,
                    cc > 0,
                    p * cc <= nd,
            ;
            if s > 254 {
                vstd::arithmetic::power2::lemma_pow2_strictly_increases(254, s as nat);
            }
            let ps = pow2(s as nat) as int;
            let p4 = pow2(254) as int;
            assert(scalar::magnitude(INFINITY as int) == 0x80_0000 * p4);
            assert(n >= 0x80_0000 * p4 * d) by (nonlinear_arith)
                requires
                    n >= q * ps * d,
                    q >= 0x80_0000,
                    ps >= p4,
                    p4 >= 0,
                    d > 0,
            ;
            lemma_overflow(n, d);
        }
        return INFINITY;
    }
    proof {
        lemma_cut(n, d, p as int, shift as int, exact, cut as int, q as int, rem as int);
    }
    let m: u32 = s as u32 * HIDDEN + q as u32;
    let twice: u64 = 2 * rem;
    if twice > size || (twice == size && (!exact || q % 2 == 1)) {
        m + 1
    } else {
        m
    }
}

pub(crate) fn signed(negative: bool, m: u32) -> (r: Scalar)
    requires
        m <= INFINITY,
    ensures
        r == with_sign(negative, m as int),
{
    if negative {
        Scalar { bits: m + SIGN }
    } else {
        Scalar { bits: m }
    }
}

/// A located number that is hit exactly.
proof fn lemma_located_exact(n: int, p: int, shift: int)
    requires
        shift >= 0,
        n == p * pow2(shift as nat),
    ensures
        located(n, 1, p, shift, true),
{
    lemma_scale_positive(shift);
    let u = up(shift);
    assert(p * (u * 1) == n * 1 && n * 1 < (p + 1) * (u * 1)) by (nonlinear_arith)
        requires
            n == p * u,
            u > 0,
    ;
}

/// A number that is far smaller is absorbed.
proof fn lemma_absorb(qa: int, sa: int, qb: int, sb: int, m: int)
    requires
        packs(qa, sa, m),
        m < INFINITY,
        0 <= qb < 0x100_0000,
        sb >= 0,
        sa - sb >= 40,
    ensures
        nearest_pattern(qa * pow2(sa as nat) + qb * pow2(sb as nat), 1) == m,
        nearest_pattern(qa * pow2(sa as nat) - qb * pow2(sb as nat), 1) == m,
        qa * pow2(sa as nat) > qb * pow2(sb as nat),
{
    let pa = pow2(sa as nat) as int;
    let pb = pow2(sb as nat) as int;
    let a = qa * pa;
    let b = qb * pb;
    vstd::arithmetic::power2::lemma2_to64();
    vstd::arithmetic::power2::lemma2_to64_rest();
    vstd::arithmetic::power2::lemma_pow2_pos(sb as nat);
    vstd::arithmetic::power2::lemma_pow2_adds(sb as nat, (sa - sb) as nat);
    if sa - sb > 40 {
        vstd::arithmetic::power2::lemma_pow2_strictly_increases(40, (sa - sb) as nat);
    }
    let gap = pow2((sa - sb) as nat) as int;
    assert(pa >= 0x100_0000_0000 * pb) by (nonlinear_arith)
        requires
            pa == pb * gap,
            gap >= 0x100_0000_0000,
            pb > 0,
    ;
    assert(0 <= b <= 0x100_0000 * pb) by (nonlinear_arith)
        requires
            b == qb * pb,
            0 <= qb < 0x100_0000,
            pb > 0,
    ;
    assert(a >= 0x80_0000 * pa) by (nonlinear_arith)
        requires
            a == qa * pa,
            qa >= 0x80_0000,
            pa >= 0,
    ;
    lemma_packs(qa, sa, m);
    assert((qa + 1) * pa == a + pa) by (nonlinear_arith)
        requires
            a == qa * pa,
    ;
    lemma_bracket(a + b, 1, m);
    lemma_nearest_unique(a + b, 1, m);
    if b == 0 {
        lemma_exact(m);
    } else {
        vstd::arithmetic::power2::lemma_pow2_unfold(sa as nat);
        let half = pow2((sa - 1) as nat) as int;
        if qa > 0x80_0000 {
            lemma_packs(qa - 1, sa, m - 1);
            assert((qa - 1) * pa == a - pa) by (nonlinear_arith)
                requires
                    a == qa * pa,
            ;
        } else {
            lemma_packs(0xff_ffff, sa - 1, m - 1);
            assert(0xff_ffff * half == a - half) by (nonlinear_arith)
                requires
                    a == qa * pa,
                    qa == 0x80_0000,
                    pa == 2 * half,
            ;
        }
        lemma_bracket(a - b, 1, m - 1);
        lemma_nearest_unique(a - b, 1, m);
    }
}

impl Scalar {
    /// Significand and exponent of a finite number.
    fn parts(self) -> (r: (u32, u32))
        requires
            self.finite(),
        ensures
            packs(r.0 as int, r.1 as int, self.mag()),
            r.1 <= 253,
            scalar::magnitude(self.mag()) == r.0 * pow2(r.1 as nat),
    {
        let m: u32 = if self.bits >= SIGN {
            self.bits - SIGN
        } else {
            self.bits
        };
        let e: u32 = m / HIDDEN;
        let r = if e == 0 {
            (m, 0)
        } else {
            (m % HIDDEN + HIDDEN, e - 1)
        };
        proof {
            lemma_packs(r.0 as int, r.1 as int, m as int);
        }
        r
    }

    fn is_negative(self) -> (r: bool)
        ensures
            r == self.negative(),
    {
        self.bits >= SIGN
    }

    fn magnitude_bits(self) -> (r: u32)
        ensures
            r == self.mag(),
    {
        if self.bits >= SIGN {
            self.bits - SIGN
        } else {
            self.bits
        }
    }

    /// The sum of two finite numbers, the first having the larger magnitude.
    fn add_ordered(self, other: Scalar) -> (r: Scalar)
        requires
            self.finite(),
            other.finite(),
            self.mag() >= other.mag(),
        ensures
            r == self.plus(other),
    {
        let (qa, sa) = self.parts();
        let (qb, sb) = other.parts();
        let negative = self.is_negative();
        let same = negative == other.is_negative();
        let ghost a = scalar::magnitude(self.mag());
        let ghost b = scalar::magnitude(other.mag());
        let ghost m = self.mag();
        proof {
            lemma_magnitudes(other.mag(), self.mag());
            assert(sa >= sb);
        }
        let gap: u32 = sa - sb;
        if gap >= 40 {
            proof {
                lemma_absorb(qa as int, sa as int, qb as int, sb as int, m);
            }
            return self;
        }
        let ghost pb = pow2(sb as nat) as int;
        let ghost pg = pow2(gap as nat) as int;
        proof {
            vstd::arithmetic::power2::lemma2_to64();
            vstd::arithmetic::power2::lemma2_to64_rest();
            vstd::arithmetic::power2::lemma_pow2_pos(sb as nat);
            vstd::arithmetic::power2::lemma_pow2_pos(gap as nat);
            vstd::arithmetic::power2::lemma_pow2_adds(sb as nat, gap as nat);
            if gap < 39 {
                vstd::arithmetic::power2::lemma_pow2_strictly_increases(gap as nat, 39);
            }
            assert(qa * pg <= 0xff_ffff * 0x80_0000_0000) by (nonlinear_arith)
                requires
                    0 <= qa < 0x100_0000,
                    0 < pg <= 0x80_0000_0000,
            ;
            vstd::bits::lemma_u64_shl_is_mul(qa as u64, gap as u64);
            assert(a == (qa * pg) * pb) by (nonlinear_arith)
                requires
                    a == qa * pow2(sa as nat),
                    pow2(sa as nat) == pb * pg,
            ;
        }
        let wide: u64 = (qa as u64) << (gap as u64);
        if same {
            let p: u64 = wide + qb as u64;
            proof {
                assert(p * pb == a + b) by (nonlinear_arith)
                    requires
                        p == qa * pg + qb,
                        a == (qa * pg) * pb,
                        b == qb * pb,
                ;
                lemma_located_exact(a + b, p as int, sb as int);
            }
            let r: u32 = round(p, sb as i64, true, Ghost(a + b), Ghost(1int));
            proof {
                lemma_nearest_unique(a + b, 1, r as int);
                if a + b == 0 {
                    lemma_zero(1);
                }
            }
            return signed(negative, r);
        }
        proof {
            assert(qb <= wide) by (nonlinear_arith)
                requires
                    a >= b,
                    a == wide * pb,
                    b == qb * pb,
                    pb > 0,
            ;
        }
        let p: u64 = wide - qb as u64;
        proof {
            assert(p * pb == a - b) by (nonlinear_arith)
                requires
                    p == wide - qb,
                    a == wide * pb,
                    b == qb * pb,
            ;
            lemma_located_exact(a - b, p as int, sb as int);
            assert(p == 0 <==> a - b == 0) by (nonlinear_arith)
                requires
                    p * pb == a - b,
                    pb > 0,
            ;
        }
        if p == 0 {
            return Scalar { bits: 0 };
        }
        let r: u32 = round(p, sb as i64, true, Ghost(a - b), Ghost(1int));
        proof {
            lemma_nearest_unique(a - b, 1, r as int);
        }
        signed(negative, r)
    }

    /// `self + other`.
    pub fn add(self, other: Scalar) -> (r: Scalar)
        ensures
            r == self.plus(other),
    {
        if self.is_nan() || other.is_nan() {
            return Scalar { bits: NOT_A_NUMBER };
        }
        if !self.is_finite() {
            if !other.is_finite() && self.is_negative() != other.is_negative() {
                return Scalar { bits: NOT_A_NUMBER };
            }
            return self;
        }
        if !other.is_finite() {
            return other;
        }
        if self.magnitude_bits() >= other.magnitude_bits() {
            self.add_ordered(other)
        } else {
            assert(other.plus(self) == self.plus(other));
            other.add_ordered(self)
        }
    }

    /// `self - other`.
    pub fn sub(self, other: Scalar) -> (r: Scalar)
        ensures
            r == self.minus(other),
    {
        self.add(other.neg())
    }

    /// `self * other`.
    pub fn mul(self, other: Scalar) -> (r: Scalar)
        ensures
            r == self.times(other),
    {
        if self.is_nan() || other.is_nan() {
            return Scalar { bits: NOT_A_NUMBER };
        }
        let negative = self.is_negative() != other.is_negative();
        if !self.is_finite() || !other.is_finite() {
            if self.magnitude_bits() == 0 || other.magnitude_bits() == 0 {
                return Scalar { bits: NOT_A_NUMBER };
            }
            return signed(negative, INFINITY);
        }
        let (qa, sa) = self.parts();
        let (qb, sb) = other.parts();
        assert(0 <= qa * qb <= 0x100_0000 * 0x100_0000) by (nonlinear_arith)
            requires
                0 <= qa < 0x100_0000,
                0 <= qb < 0x100_0000,
        ;
        let p: u64 = qa as u64 * qb as u64;
        let shift: i64 = sa as i64 + sb as i64 - 149;
        let ghost a = scalar::magnitude(self.mag());
        let ghost b = scalar::magnitude(other.mag());
        let ghost u = scalar::unit();
        proof {
            lemma_magnitudes(0, self.mag());
            lemma_magnitudes(0, other.mag());
            vstd::arithmetic::power2::lemma_pow2_pos(149);
            lemma_product_located(qa as int, sa as int, qb as int, sb as int);
        }
        let r: u32 = round(p, shift, true, Ghost(a * b), Ghost(u));
        proof {
            lemma_nearest_unique(a * b, u, r as int);
        }
        signed(negative, r)
    }

    /// `self / other`.
    pub fn div(self, other: Scalar) -> (r: Scalar)
        ensures
            r == self.over(other),
    {
        if self.is_nan() || other.is_nan() {
            return Scalar { bits: NOT_A_NUMBER };
        }
        let negative = self.is_negative() != other.is_negative();
        if !self.is_finite() {
            if !other.is_finite() {
                return Scalar { bits: NOT_A_NUMBER };
            }
            return signed(negative, INFINITY);
        }
        if !other.is_finite() {
            return signed(negative, 0);
        }
        if other.magnitude_bits() == 0 {
            if self.magnitude_bits() == 0 {
                return Scalar { bits: NOT_A_NUMBER };
            }
            return signed(negative, INFINITY);
        }
        let ghost a = scalar::magnitude(self.mag());
        let ghost b = scalar::magnitude(other.mag());
        let ghost u = scalar::unit();
        proof {
            lemma_magnitudes(0, self.mag());
            lemma_magnitudes(0, other.mag());
        }
        if self.magnitude_bits() == 0 {
            proof {
                assert(a == 0) by {
                    lemma_packs(0, 0, 0);
                }
                assert(a * u == 0) by (nonlinear_arith)
                    requires
                        a == 0,
                ;
                lemma_zero(b);
            }
            return signed(negative, 0);
        }
        let (qa, sa) = self.parts();
        let (qb, sb) = other.parts();
        proof {
            assert(qa > 0) by {
                if qa == 0 {
                    assert(self.mag() == 0);
                }
            }
            assert(qb > 0) by {
                if qb == 0 {
                    assert(other.mag() == 0);
                }
            }
        }
        let (na, ta) = normalized(qa);
        let (nb, tb) = normalized(qb);
        let x: u64 = na as u64 * 0x400_0000;
        let q: u64 = x / nb as u64;
        let rem: u64 = x % nb as u64;
        let shift: i64 = sa as i64 - ta as i64 - sb as i64 + tb as i64 + 123;
        proof {
            vstd::arithmetic::div_mod::lemma_fundamental_div_mod(x as int, nb as int);
            assert(0x100_0000 <= q <= x) by (nonlinear_arith)
                requires
                    x == nb * q + rem,
                    0 <= rem < nb,
                    nb < 0x100_0000,
                    nb >= 1,
                    x >= 0x80_0000 * 0x400_0000,
            ;
            lemma_quotient_located(
                qa as int,
                sa as int,
                ta as int,
                qb as int,
                sb as int,
                tb as int,
                q as int,
                rem as int,
            );
        }
        let r: u32 = round(q, shift, rem == 0, Ghost(a * u), Ghost(b));
        proof {
            lemma_nearest_unique(a * u, b, r as int);
        }
        signed(negative, r)
    }

    /// `self % other`.
    pub fn rem(self, other: Scalar) -> (r: Scalar)
        ensures
            r == self.modulo(other),
    {
        if self.is_nan() || other.is_nan() || !self.is_finite() || other.magnitude_bits() == 0 {
            return Scalar { bits: NOT_A_NUMBER };
        }
        if !other.is_finite() {
            return self;
        }
        let (qa, sa) = self.parts();
        let (qb, sb) = other.parts();
        let ghost a = scalar::magnitude(self.mag());
        let ghost b = scalar::magnitude(other.mag());
        proof {
            lemma_magnitudes(0, self.mag());
            lemma_magnitudes(0, other.mag());
            assert(qb > 0) by {
                if qb == 0 {
                    assert(other.mag() == 0);
                }
            }
        }
        if sa < sb {
            proof {
                lemma_magnitudes(self.mag(), other.mag());
                vstd::arithmetic::div_mod::lemma_small_mod(a as nat, b as nat);
                lemma_exact(self.mag());
            }
            return self;
        }
        let mut left: u32 = qa % qb;
        let mut at: u32 = sa;
        let ghost pb = pow2(sb as nat) as int;
        proof {
            vstd::arithmetic::power2::lemma_pow2_pos(sb as nat);
            vstd::arithmetic::power2::lemma2_to64();
            assert(sa - at == 0);
            assert(qa * 1 == qa);
        }
        while at > sb
            invariant
                sb <= at <= sa,
                0 < qb < 0x100_0000,
                0 <= left < qb,
                left == (qa * pow2((sa - at) as nat)) % (qb as int),
            decreases at,
        {
            proof {
                let g = qa * pow2((sa - at) as nat);
                vstd::arithmetic::power2::lemma_pow2_unfold((sa - at + 1) as nat);
                assert(qa * (2 * pow2((sa - at) as nat)) == 2 * g) by (nonlinear_arith)
                    requires
                        g == qa * pow2((sa - at) as nat),
                ;
                vstd::arithmetic::div_mod::lemma_mul_mod_noop_right(2, g, qb as int);
            }
            left = 2 * left % qb;
            at = at - 1;
        }
        proof {
            let g = pow2((sa - sb) as nat) as int;
            vstd::arithmetic::power2::lemma_pow2_adds((sa - sb) as nat, sb as nat);
            assert(a == (qa * g) * pb) by (nonlinear_arith)
                requires
                    a == qa * pow2(sa as nat),
                    pow2(sa as nat) == g * pb,
            ;
            lemma_mod_scale(qa * g, qb as int, pb);
            lemma_located_exact(left * pb, left as int, sb as int);
        }
        let r: u32 = round(left as u64, sb as i64, true, Ghost(left * pb), Ghost(1int));
        proof {
            lemma_nearest_unique(left * pb, 1, r as int);
        }
        signed(self.is_negative(), r)
    }
}

pub proof fn lemma_mod_scale(x: int, y: int, c: int)
    requires
        x >= 0,
        y > 0,
        c > 0,
    ensures
        (x * c) % (y * c) == (x % y) * c,
{
    let q = x / y;
    let r = x % y;
    vstd::arithmetic::div_mod::lemma_fundamental_div_mod(x, y);
    assert(x * c == q * (y * c) + r * c && 0 <= r * c < y * c) by (nonlinear_arith)
        requires
            x == y * q + r,
            0 <= r < y,
            c > 0,
    ;
    vstd::arithmetic::div_mod::lemma_fundamental_div_mod_converse(x * c, y * c, q, r * c);
}

/// A significand moved up to 24 bits, and by how much.
fn normalized(q: u32) -> (r: (u32, u32))
    requires
        0 < q < 0x100_0000,
    ensures
        0x80_0000 <= r.0 < 0x100_0000,
        r.1 <= 23,
        r.0 == q * pow2(r.1 as nat),
{
    let mut n: u32 = q;
    let mut t: u32 = 0;
    proof {
        vstd::arithmetic::power2::lemma2_to64();
    }
    while n < 0x80_0000
        invariant
            0 < n < 0x100_0000,
            0 < q,
            t <= 23,
            n == q * pow2(t as nat),
            n >= pow2(t as nat),
        decreases 0x100_0000 - n,
    {
        proof {
            vstd::arithmetic::power2::lemma2_to64();
            if t >= 23 {
                assert(n >= pow2(23));
            }
            vstd::arithmetic::power2::lemma_pow2_unfold((t + 1) as nat);
            let p = pow2(t as nat) as int;
            assert(q * (2 * p) == 2 * (q * p)) by (nonlinear_arith);
        }
        n = n * 2;
        t = t + 1;
    }
    (n, t)
}

proof fn lemma_product_located(qa: int, sa: int, qb: int, sb: int)
    requires
        qa >= 0,
        qb >= 0,
        sa >= 0,
        sb >= 0,
    ensures
        located(
            (qa * pow2(sa as nat)) * (qb * pow2(sb as nat)),
            scalar::unit(),
            qa * qb,
            sa + sb - 149,
            true,
        ),
{
    let pa = pow2(sa as nat) as int;
    let pb = pow2(sb as nat) as int;
    let n = (qa * pa) * (qb * pb);
    let u = scalar::unit();
    let p = qa * qb;
    let shift = sa + sb - 149;
    lemma_scale_positive(shift);
    vstd::arithmetic::power2::lemma_pow2_pos(149);
    vstd::arithmetic::power2::lemma_pow2_adds(sa as nat, sb as nat);
    let both = pow2((sa + sb) as nat) as int;
    assert(n == p * both) by (nonlinear_arith)
        requires
            n == (qa * pa) * (qb * pb),
            p == qa * qb,
            both == pa * pb,
    ;
    let w = up(shift);
    let t = down(shift);
    if shift >= 0 {
        vstd::arithmetic::power2::lemma_pow2_adds(shift as nat, 149);
        assert(p * (w * u) == n * 1) by (nonlinear_arith)
            requires
                n == p * both,
                both == w * u,
        ;
    } else {
        vstd::arithmetic::power2::lemma_pow2_adds((sa + sb) as nat, (-shift) as nat);
        assert(p * (1 * u) == n * t) by (nonlinear_arith)
            requires
                n == p * both,
                u == both * t,
        ;
    }
    assert((p + 1) * (w * u) > p * (w * u)) by (nonlinear_arith)
        requires
            w > 0,
            u > 0,
    ;
}

proof fn lemma_quotient_located(
    qa: int,
    sa: int,
    ta: int,
    qb: int,
    sb: int,
    tb: int,
    q: int,
    rem: int,
)
    requires
        qa > 0,
        qb > 0,
        sa >= 0,
        ta >= 0,
        sb >= 0,
        tb >= 0,
        (qa * pow2(ta as nat)) * 0x400_0000 == (qb * pow2(tb as nat)) * q + rem,
        0 <= rem < qb * pow2(tb as nat),
    ensures
        located(
            (qa * pow2(sa as nat)) * scalar::unit(),
            qb * pow2(sb as nat),
            q,
            sa - ta - sb + tb + 123,
            rem == 0,
        ),
{
    let shift = sa - ta - sb + tb + 123;
    let psa = pow2(sa as nat) as int;
    let pta = pow2(ta as nat) as int;
    let psb = pow2(sb as nat) as int;
    let ptb = pow2(tb as nat) as int;
    let u = scalar::unit();
    let n = (qa * psa) * u;
    let d = qb * psb;
    let nb = qb * ptb;
    let x = (qa * pta) * 0x400_0000;
    let w = up(shift);
    let t = down(shift);
    let c = w * d;
    vstd::arithmetic::power2::lemma2_to64();
    vstd::arithmetic::power2::lemma_pow2_pos(sa as nat);
    vstd::arithmetic::power2::lemma_pow2_pos(ta as nat);
    vstd::arithmetic::power2::lemma_pow2_pos(sb as nat);
    vstd::arithmetic::power2::lemma_pow2_pos(tb as nat);
    lemma_scale_positive(shift);
    // both sides are the same power of two
    let left = psa * u * ptb * t;
    let right = pta * 0x400_0000 * psb * w;
    assert(left == right) by {
        vstd::arithmetic::power2::lemma_pow2_adds(sa as nat, 149);
        vstd::arithmetic::power2::lemma_pow2_adds((sa + 149) as nat, tb as nat);
        vstd::arithmetic::power2::lemma_pow2_adds(ta as nat, 26);
        vstd::arithmetic::power2::lemma_pow2_adds((ta + 26) as nat, sb as nat);
        assert(psa * u * ptb == pow2((sa + 149 + tb) as nat));
        assert(pta * 0x400_0000 * psb == pow2((ta + 26 + sb) as nat));
        if shift >= 0 {
            vstd::arithmetic::power2::lemma_pow2_adds((ta + 26 + sb) as nat, shift as nat);
        } else {
            vstd::arithmetic::power2::lemma_pow2_adds((sa + 149 + tb) as nat, (-shift) as nat);
        }
    }
    let nt = n * t;
    assert(nt * nb == qa * qb * left) by (nonlinear_arith)
        requires
            nt == n * t,
            n == (qa * psa) * u,
            nb == qb * ptb,
            left == psa * u * ptb * t,
    ;
    assert(x * c == qa * qb * right) by (nonlinear_arith)
        requires
            x == (qa * pta) * 0x400_0000,
            c == w * d,
            d == qb * psb,
            right == pta * 0x400_0000 * psb * w,
    ;
    assert(nb > 0) by (nonlinear_arith)
        requires
            nb == qb * ptb,
            qb > 0,
            ptb > 0,
    ;
    assert(c > 0) by (nonlinear_arith)
        requires
            c == w * d,
            d == qb * psb,
            qb > 0,
            psb > 0,
            w > 0,
    ;
    let qc = q * c;
    let next = (q + 1) * c;
    assert(nt * nb == qc * nb + rem * c) by (nonlinear_arith)
        requires
            nt * nb == x * c,
            x == nb * q + rem,
            qc == q * c,
    ;
    assert(next * nb == qc * nb + nb * c) by (nonlinear_arith)
        requires
            next == (q + 1) * c,
            qc == q * c,
    ;
    assert(0 <= rem * c < nb * c) by (nonlinear_arith)
        requires
            0 <= rem < nb,
            c > 0,
    ;
    assert(qc <= nt) by (nonlinear_arith)
        requires
            qc * nb <= nt * nb,
            nb > 0,
    ;
    assert(nt < next) by (nonlinear_arith)
        requires
            nt * nb < next * nb,
            nb > 0,
    ;
    if rem == 0 {
        assert(qc == nt) by (nonlinear_arith)
            requires
                qc * nb == nt * nb,
                nb > 0,
        ;
    } else {
        assert(rem * c > 0) by (nonlinear_arith)
            requires
                rem > 0,
                c > 0,
        ;
    }
}

/// The pattern of one half.
pub const HALF: u32 = 0x3f00_0000;

/// The pattern of 2.
pub const TWO: u32 = 0x4000_0000;

/// The pattern of 3.
pub const THREE: u32 = 0x4040_0000;

/// The pattern of 4.
pub const FOUR: u32 = 0x4080_0000;

/// The pattern of 5.
pub const FIVE: u32 = 0x40a0_0000;

/// The pattern of the distance from 1 to the next larger number.
pub const EPSILON: u32 = 0x3400_0000;

/// The number with a pattern.
pub open spec fn num(bits: u32) -> Scalar {
    Scalar { bits }
}

impl Scalar {
    /// The number held inside a range.
    pub open spec fn clamped(self, low: Scalar, high: Scalar) -> Scalar {
        if self.less(low) {
            low
        } else if high.less(self) {
            high
        } else {
            self
        }
    }

    /// Holds the number inside a range.
    pub fn clamp(self, low: Scalar, high: Scalar) -> (r: Scalar)
        ensures
            r == self.clamped(low, high),
    {
        if self.lt(low) {
            low
        } else if high.lt(self) {
            high
        } else {
            self
        }
    }
}

/// A sum does not depend on the order of its terms.
pub proof fn lemma_plus_commutes(a: Scalar, b: Scalar)
    ensures
        a.plus(b) == b.plus(a),
{
}

/// A product does not depend on the order of its factors.
pub proof fn lemma_times_commutes(a: Scalar, b: Scalar)
    ensures
        a.times(b) == b.times(a),
{
    assert(absolute(a.value()) * absolute(b.value()) == absolute(b.value()) * absolute(a.value()))
        by (nonlinear_arith);
}

/// Adding zero to a number other than zero changes nothing.
pub proof fn lemma_plus_zero(a: Scalar)
    requires
        a.finite(),
        a.mag() != 0,
    ensures
        a.plus(num(0)) == a,
{
    lemma_packs(0, 0, 0);
    lemma_magnitudes(0, a.mag());
    lemma_exact(a.mag());
}

/// A finite number minus itself is zero.
pub proof fn lemma_minus_self(a: Scalar)
    requires
        a.finite(),
    ensures
        a.minus(a) == num(0),
{
    scalar::lemma_negated(a);
}

/// Multiplying a finite number by one changes nothing.
pub proof fn lemma_times_one(a: Scalar)
    requires
        a.finite(),
    ensures
        a.times(num(scalar::ONE)) == a,
{
    let m = a.mag();
    let u = scalar::unit();
    let v = scalar::magnitude(m);
    lemma_magnitudes(0, m);
    lemma_packs(0x80_0000, 126, 0x3f80_0000);
    vstd::arithmetic::power2::lemma2_to64();
    vstd::arithmetic::power2::lemma_pow2_pos(149);
    vstd::arithmetic::power2::lemma_pow2_adds(23, 126);
    assert(scalar::magnitude(0x3f80_0000) == u);
    lemma_magnitudes(m, m + 1);
    let w = scalar::magnitude(m + 1);
    assert(v * u < w * u) by (nonlinear_arith)
        requires
            v < w,
            u > 0,
    ;
    lemma_bracket(v * u, u, m);
    lemma_nearest_unique(v * u, u, m);
}

/// The number nearest to an integer.
pub open spec fn of_int(n: int) -> Scalar {
    with_sign(false, nearest_pattern(n * scalar::unit(), 1))
}

impl Scalar {
    /// The number nearest to an unsigned integer.
    pub fn from_u32(n: u32) -> (r: Scalar)
        ensures
            r == of_int(n as int),
    {
        let ghost v = n * scalar::unit();
        proof {
            lemma_located_exact(v, n as int, 149);
        }
        let m: u32 = round(n as u64, 149, true, Ghost(v), Ghost(1int));
        proof {
            lemma_nearest_unique(v, 1, m as int);
        }
        signed(false, m)
    }
}

} // verus!
