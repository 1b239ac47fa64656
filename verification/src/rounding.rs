//! What rounding keeps: numbers stay numbers, and their order is not turned.

use crate::arith;
use crate::scalar;
use crate::scalar::{Scalar, INFINITY};
use vstd::prelude::*;

verus! {

/// Some pattern is nearest.
pub proof fn lemma_nearest_exists(n: int, d: int)
    requires
        0 <= n,
        0 < d,
    ensures
        arith::is_nearest(n, d, arith::nearest_pattern(n, d)),
        0 <= arith::nearest_pattern(n, d) <= INFINITY,
{
    if n >= scalar::magnitude(INFINITY as int) * d {
        arith::lemma_overflow(n, d);
        arith::lemma_nearest_unique(n, d, INFINITY as int);
    } else {
        lemma_nearest_below(n, d, INFINITY as int);
    }
}

/// The nearest pattern is not beyond one that is too large.
pub proof fn lemma_nearest_below(n: int, d: int, bound: int)
    requires
        0 <= n,
        0 < d,
        0 < bound <= INFINITY,
        n < scalar::magnitude(bound) * d,
    ensures
        arith::is_nearest(n, d, arith::nearest_pattern(n, d)),
        0 <= arith::nearest_pattern(n, d) <= bound,
    decreases bound,
{
    if scalar::magnitude(bound - 1) * d <= n {
        arith::lemma_bracket(n, d, bound - 1);
        let low = n - scalar::magnitude(bound - 1) * d;
        let high = scalar::magnitude(bound) * d - n;
        let best = if low < high || (low == high && (bound - 1) % 2 == 0) {
            bound - 1
        } else {
            bound
        };
        arith::lemma_nearest_unique(n, d, best);
    } else if bound > 1 {
        lemma_nearest_below(n, d, bound - 1);
    } else {
        arith::lemma_packs(0, 0, 0);
        assert(scalar::magnitude(0) * d == 0) by (nonlinear_arith)
            requires
                scalar::magnitude(0) == 0,
        ;
    }
}

/// A larger number is not rounded to a smaller one.
pub proof fn lemma_nearest_ordered(a: int, b: int, d: int)
    requires
        0 <= a <= b,
        0 < d,
    ensures
        arith::nearest_pattern(a, d) <= arith::nearest_pattern(b, d),
{
    lemma_nearest_exists(a, d);
    lemma_nearest_exists(b, d);
    let m = arith::nearest_pattern(a, d);
    let o = arith::nearest_pattern(b, d);
    if m > o {
        arith::lemma_magnitudes(o, m);
        let p = scalar::magnitude(o);
        let q = scalar::magnitude(m);
        assert(p * d < q * d) by (nonlinear_arith)
            requires
                p < q,
                d > 0,
        ;
        assert(arith::preferred(a, d, m, o));
        assert(arith::preferred(b, d, o, m));
        assert(a == b);
    }
}

/// A rounded integer is a number.
pub proof fn lemma_of_int_is_number(n: int)
    requires
        0 <= n <= u32::MAX,
    ensures
        arith::of_int(n).finite(),
        !arith::of_int(n).negative(),
{
    let u = scalar::unit();
    let v = n * u;
    let bound = 0x5000_0000int;
    // 2^33 lies above every such integer
    arith::lemma_packs(0x80_0000, 159, bound);
    vstd::arithmetic::power2::lemma2_to64();
    vstd::arithmetic::power2::lemma_pow2_pos(149);
    vstd::arithmetic::power2::lemma_pow2_adds(149, 10);
    assert(0 <= v < 0x80_0000 * (u * 1024)) by (nonlinear_arith)
        requires
            v == n * u,
            0 <= n <= 0xffff_ffff,
            u > 0,
    ;
    lemma_nearest_below(v, 1, bound);
}

/// A larger integer is not rounded to a smaller number.
pub proof fn lemma_of_int_ordered(a: int, b: int)
    requires
        0 <= a <= b <= u32::MAX,
    ensures
        arith::of_int(a).value() <= arith::of_int(b).value(),
{
    let u = scalar::unit();
    vstd::arithmetic::power2::lemma_pow2_pos(149);
    assert(0 <= a * u <= b * u) by (nonlinear_arith)
        requires
            0 <= a <= b,
            u > 0,
    ;
    lemma_nearest_ordered(a * u, b * u, 1);
    lemma_nearest_exists(a * u, 1);
    lemma_nearest_exists(b * u, 1);
    lemma_of_int_is_number(a);
    lemma_of_int_is_number(b);
    scalar::lemma_value_order(arith::of_int(a), arith::of_int(b));
}

/// A sum of numbers is a number, unless both are infinite.
pub proof fn lemma_plus_is_number(a: Scalar, b: Scalar)
    requires
        !a.nan(),
        b.finite(),
    ensures
        !a.plus(b).nan(),
{
    lemma_nearest_exists(arith::absolute(a.value() + b.value()), 1);
}

/// Equal numbers have equal sums.
pub proof fn lemma_plus_same(a: Scalar, b: Scalar, c: Scalar)
    requires
        a.same(b),
        c.finite(),
    ensures
        a.plus(c).same(b.plus(c)),
{
    lemma_plus_is_number(a, c);
    lemma_plus_is_number(b, c);
    scalar::lemma_value_order(a, b);
    arith::lemma_packs(0, 0, 0);
    if a.mag() != 0 {
        assert(a.rank_of() == b.rank_of());
        assert(a == b);
    }
}

/// The rank of an exact value once it is rounded.
spec fn rounded_rank(v: int) -> int {
    if v < 0 {
        -arith::nearest_pattern(-v, 1)
    } else {
        arith::nearest_pattern(v, 1)
    }
}

proof fn lemma_rounded_ordered(v: int, w: int)
    requires
        v <= w,
    ensures
        rounded_rank(v) <= rounded_rank(w),
        -INFINITY <= rounded_rank(v) <= INFINITY,
        -INFINITY <= rounded_rank(w) <= INFINITY,
{
    lemma_nearest_exists(arith::absolute(v), 1);
    lemma_nearest_exists(arith::absolute(w), 1);
    if v >= 0 {
        lemma_nearest_ordered(v, w, 1);
    } else if w < 0 {
        lemma_nearest_ordered(-w, -v, 1);
    }
}

proof fn lemma_plus_rank(a: Scalar, c: Scalar)
    requires
        a.finite(),
        c.finite(),
    ensures
        a.plus(c).rank_of() == rounded_rank(a.value() + c.value()),
{
    let v = a.value() + c.value();
    lemma_nearest_exists(arith::absolute(v), 1);
    if v == 0 {
        arith::lemma_exact(0);
        arith::lemma_packs(0, 0, 0);
    }
}

/// Adding the same number to two keeps their order.
pub proof fn lemma_plus_ordered(a: Scalar, b: Scalar, c: Scalar)
    requires
        !a.nan(),
        !b.nan(),
        c.finite(),
        a.value() <= b.value(),
    ensures
        a.plus(c).value() <= b.plus(c).value(),
{
    scalar::lemma_value_order(a, b);
    scalar::lemma_value_order(a.plus(c), b.plus(c));
    lemma_plus_is_number(a, c);
    lemma_plus_is_number(b, c);
    if a.finite() && b.finite() {
        lemma_plus_rank(a, c);
        lemma_plus_rank(b, c);
        lemma_rounded_ordered(a.value() + c.value(), b.value() + c.value());
    } else {
        if a.finite() {
            lemma_plus_rank(a, c);
            lemma_rounded_ordered(a.value() + c.value(), a.value() + c.value());
        }
        if b.finite() {
            lemma_plus_rank(b, c);
            lemma_rounded_ordered(b.value() + c.value(), b.value() + c.value());
        }
    }
}

/// Multiplying two numbers that are not negative by a third keeps their order.
pub proof fn lemma_times_ordered(a: Scalar, b: Scalar, c: Scalar)
    requires
        a.finite(),
        b.finite(),
        c.finite(),
        !a.negative(),
        !b.negative(),
        !c.negative(),
        a.value() <= b.value(),
    ensures
        a.times(c).value() <= b.times(c).value(),
        !a.times(c).nan(),
        !a.times(c).negative(),
{
    let u = scalar::unit();
    vstd::arithmetic::power2::lemma_pow2_pos(149);
    arith::lemma_magnitudes(0, a.mag());
    arith::lemma_magnitudes(0, b.mag());
    arith::lemma_magnitudes(0, c.mag());
    let (x, y, z) = (a.value(), b.value(), c.value());
    assert(0 <= x * z <= y * z) by (nonlinear_arith)
        requires
            0 <= x <= y,
            0 <= z,
    ;
    lemma_nearest_ordered(x * z, y * z, u);
    lemma_nearest_exists(x * z, u);
    lemma_nearest_exists(y * z, u);
    scalar::lemma_value_order(a.times(c), b.times(c));
}

/// Taking a number off that is larger than the gap to the next lower number
/// leaves less.
pub proof fn lemma_minus_decreases(a: Scalar, c: Scalar)
    requires
        a.finite(),
        c.finite(),
        !a.negative(),
        !c.negative(),
        a.mag() > 0,
        c.value() <= a.value(),
        scalar::magnitude(a.mag()) - scalar::magnitude(a.mag() - 1) <= c.value(),
    ensures
        a.minus(c).value() < a.value(),
        a.minus(c).value() >= 0,
        a.minus(c).finite(),
        !a.minus(c).negative(),
{
    let m = a.mag();
    scalar::lemma_negated(c);
    let v = a.value() - c.value();
    lemma_plus_rank(a, c.negated());
    arith::lemma_exact(m - 1);
    lemma_nearest_ordered(v, scalar::magnitude(m - 1), 1);
    lemma_nearest_exists(v, 1);
    scalar::lemma_value_order(a.minus(c), a);
    scalar::lemma_value_order(arith::num(0), a.minus(c));
}

} // verus!
