//! Where arithmetic rounds nothing.
//!
//! A result that is a number is that number. So sums and products of numbers with
//! few digits are what they are in mathematics, and formulas made of them can be
//! read as such.

use crate::arith;
use crate::rounding;
use crate::root;
use crate::scalar;
use crate::scalar::{Scalar, INFINITY, ONE};
use vstd::arithmetic::power2::pow2;
use vstd::prelude::*;

verus! {

/// The largest number of units that a significand counts.
pub const DIGITS: i64 = 0x100_0000;

/// Equal but for the sign of a zero.
pub open spec fn alike(a: Scalar, b: Scalar) -> bool {
    a == b || (a.mag() == 0 && b.mag() == 0)
}

/// Both components equal but for the signs of zeros.
pub open spec fn alike2(a: [Scalar; 2], b: [Scalar; 2]) -> bool {
    alike(a[0], b[0]) && alike(a[1], b[1])
}

/// The number is `x` times 2^`s`, on the scale of [`Scalar::value`].
pub open spec fn stands_for(a: Scalar, x: int, s: nat) -> bool {
    a.finite() && a.value() == x * pow2(s)
}

/// Only the zeros have the value 0.
pub proof fn lemma_zero_value(a: Scalar)
    ensures
        a.mag() == 0 <==> a.value() == 0,
{
    scalar::lemma_value_order(a, arith::num(0));
    arith::lemma_packs(0, 0, 0);
}

/// Equal numbers are alike, and finite ones that are alike are equal numbers.
pub proof fn lemma_alike_same(a: Scalar, b: Scalar)
    ensures
        a.same(b) ==> alike(a, b),
        alike(a, b) && !a.nan() ==> a.same(b),
        alike(a, b) ==> a.value() == b.value() && a.nan() == b.nan() && a.finite() == b.finite()
            && a.mag() == b.mag(),
{
    lemma_zero_value(a);
    lemma_zero_value(b);
    scalar::lemma_value_order(a, b);
}

/// Terms that are alike have sums that are alike.
pub proof fn lemma_plus_alike(a: Scalar, b: Scalar, c: Scalar, d: Scalar)
    requires
        alike(a, b),
        alike(c, d),
    ensures
        alike(a.plus(c), b.plus(d)),
{
    lemma_alike_same(a, b);
    lemma_alike_same(c, d);
    lemma_zero_value(a);
    lemma_zero_value(c);
}

pub proof fn lemma_negated_alike(a: Scalar, b: Scalar)
    requires
        alike(a, b),
    ensures
        alike(a.negated(), b.negated()),
{
}

/// Terms that are alike have differences that are alike.
pub proof fn lemma_minus_alike(a: Scalar, b: Scalar, c: Scalar, d: Scalar)
    requires
        alike(a, b),
        alike(c, d),
    ensures
        alike(a.minus(c), b.minus(d)),
{
    lemma_plus_alike(a, b, c.negated(), d.negated());
}

/// A difference turned around is the difference the other way round.
pub proof fn lemma_minus_turned(a: Scalar, b: Scalar)
    ensures
        a.minus(b).nan() == b.minus(a).nan(),
        a.minus(b).negated().nan() == b.minus(a).nan(),
        !a.minus(b).nan() ==> alike(a.minus(b).negated(), b.minus(a)),
{
    scalar::lemma_negated(a);
    scalar::lemma_negated(b);
    rounding::lemma_nearest_exists(arith::absolute(a.value() - b.value()), 1);
}

/// Factors that are alike have products that are alike.
pub proof fn lemma_times_alike(a: Scalar, b: Scalar, c: Scalar, d: Scalar)
    requires
        alike(a, b),
        alike(c, d),
    ensures
        alike(a.times(c), b.times(d)),
{
    lemma_alike_same(a, b);
    lemma_alike_same(c, d);
    lemma_zero_value(a);
    lemma_zero_value(c);
    vstd::arithmetic::power2::lemma_pow2_pos(149);
    arith::lemma_zero(scalar::unit());
    let (x, y) = (arith::absolute(a.value()), arith::absolute(c.value()));
    if a.mag() == 0 || c.mag() == 0 {
        assert(x * y == 0) by (nonlinear_arith)
            requires
                x == 0 || y == 0,
        ;
        let (v, w) = (arith::absolute(b.value()), arith::absolute(d.value()));
        assert(v * w == 0) by (nonlinear_arith)
            requires
                v == 0 || w == 0,
        ;
    }
}

/// A finite number times zero is zero.
pub proof fn lemma_times_zero(a: Scalar, z: Scalar)
    requires
        a.finite(),
        z.mag() == 0,
    ensures
        a.times(z).mag() == 0,
        z.times(a).mag() == 0,
{
    lemma_zero_value(z);
    vstd::arithmetic::power2::lemma_pow2_pos(149);
    arith::lemma_zero(scalar::unit());
    let x = arith::absolute(a.value());
    assert(x * 0 == 0 && 0 * x == 0);
}

/// Zero added to a number changes nothing.
pub proof fn lemma_plus_zero(a: Scalar, z: Scalar)
    requires
        !a.nan(),
        z.mag() == 0,
    ensures
        alike(a.plus(z), a),
        alike(z.plus(a), a),
        alike(a.minus(z), a),
{
    lemma_zero_value(z);
    lemma_zero_value(a);
    if a.finite() {
        arith::lemma_exact(a.mag());
        arith::lemma_magnitudes(0, a.mag());
    }
}

/// One times a finite number is the number.
pub proof fn lemma_one_times(a: Scalar)
    requires
        a.finite(),
    ensures
        a.times(arith::num(ONE)) == a,
        arith::num(ONE).times(a) == a,
{
    arith::lemma_times_one(a);
    arith::lemma_times_commutes(a, arith::num(ONE));
}

/// A number other than zero goes into itself once.
pub proof fn lemma_over_self(a: Scalar)
    requires
        a.finite(),
        a.mag() != 0,
    ensures
        a.over(a) == arith::num(ONE),
{
    let v = scalar::magnitude(a.mag());
    let u = scalar::unit();
    lemma_zero_value(a);
    arith::lemma_magnitudes(0, a.mag());
    lemma_one();
    lemma_nearest_exact(ONE as int, v);
    assert(v * u == u * v) by (nonlinear_arith);
}

/// Zero over a number other than zero is zero.
pub proof fn lemma_zero_over(z: Scalar, a: Scalar)
    requires
        z.mag() == 0,
        !a.nan(),
        a.mag() != 0,
    ensures
        z.over(a).mag() == 0,
{
    lemma_zero_value(z);
    lemma_zero_value(a);
    if a.finite() {
        let d = arith::absolute(a.value());
        arith::lemma_zero(d);
        assert(0 * scalar::unit() == 0);
    }
}

/// The value of one is the unit.
pub proof fn lemma_one()
    ensures
        scalar::magnitude(ONE as int) == scalar::unit(),
        arith::num(ONE).value() == scalar::unit(),
        scalar::unit() > 0,
{
    arith::lemma_packs(0x80_0000, 126, ONE as int);
    vstd::arithmetic::power2::lemma2_to64();
    vstd::arithmetic::power2::lemma_pow2_pos(149);
    vstd::arithmetic::power2::lemma_pow2_adds(23, 126);
}

/// A fraction that is a number is rounded to that number.
pub proof fn lemma_nearest_exact(m: int, d: int)
    requires
        0 <= m < INFINITY,
        d > 0,
    ensures
        arith::nearest_pattern(scalar::magnitude(m) * d, d) == m,
{
    arith::lemma_magnitudes(m, m + 1);
    let v = scalar::magnitude(m);
    let w = scalar::magnitude(m + 1);
    assert(v * d < w * d) by (nonlinear_arith)
        requires
            v < w,
            d > 0,
    ;
    arith::lemma_bracket(v * d, d, m);
    arith::lemma_nearest_unique(v * d, d, m);
}

/// What a significand can count is a number.
proof fn lemma_fits(x: int, s: nat) -> (m: int)
    requires
        0 <= x <= DIGITS,
        s <= 252,
    ensures
        0 <= m < INFINITY,
        scalar::magnitude(m) == x * pow2(s),
    decreases s,
{
    if x == DIGITS {
        vstd::arithmetic::power2::lemma_pow2_unfold(s + 1);
        let up = s as int + 1;
        arith::lemma_packs(0x80_0000, up, up * 0x80_0000 + 0x80_0000);
        let p = pow2(s) as int;
        assert(0x80_0000 * (2 * p) == DIGITS * p) by (nonlinear_arith);
        up * 0x80_0000 + 0x80_0000
    } else if x >= 0x80_0000 || s == 0 {
        arith::lemma_packs(x, s as int, s * 0x80_0000 + x);
        s * 0x80_0000 + x
    } else {
        vstd::arithmetic::power2::lemma_pow2_unfold(s);
        let p = pow2((s - 1) as nat) as int;
        assert(x * (2 * p) == (2 * x) * p) by (nonlinear_arith);
        lemma_fits(2 * x, (s - 1) as nat)
    }
}

/// A value within the digits is not rounded.
proof fn lemma_kept(x: int, s: nat, negative: bool, d: int)
    requires
        0 <= x <= DIGITS,
        s <= 252,
        d > 0,
    ensures
        ({
            let m = arith::nearest_pattern((x * pow2(s)) * d, d);
            let r = arith::with_sign(negative, m);
            r.finite() && r.value() == if negative {
                -(x * pow2(s))
            } else {
                x * pow2(s)
            }
        }),
{
    let m = lemma_fits(x, s);
    lemma_nearest_exact(m, d);
}

/// A number counted in smaller units.
pub proof fn lemma_finer(a: Scalar, x: int, s: nat, k: nat)
    requires
        stands_for(a, x, s),
        k <= s,
    ensures
        stands_for(a, x * pow2(k), (s - k) as nat),
{
    vstd::arithmetic::power2::lemma_pow2_adds(k, (s - k) as nat);
    let (p, q) = (pow2(k) as int, pow2((s - k) as nat) as int);
    assert(x * (p * q) == (x * p) * q) by (nonlinear_arith);
}

/// A sum within the digits is not rounded.
pub proof fn lemma_sum(a: Scalar, x: int, b: Scalar, y: int, s: nat)
    requires
        stands_for(a, x, s),
        stands_for(b, y, s),
        -DIGITS <= x + y <= DIGITS,
        s <= 252,
    ensures
        stands_for(a.plus(b), x + y, s),
{
    let p = pow2(s) as int;
    vstd::arithmetic::power2::lemma_pow2_pos(s);
    let z = x + y;
    assert(x * p + y * p == z * p) by (nonlinear_arith)
        requires
            z == x + y,
    ;
    let v = a.value() + b.value();
    let n = if z < 0 {
        -z
    } else {
        z
    };
    assert(v < 0 <==> z < 0) by (nonlinear_arith)
        requires
            v == z * p,
            p > 0,
    ;
    assert(v == 0 <==> z == 0) by (nonlinear_arith)
        requires
            v == z * p,
            p > 0,
    ;
    assert(arith::absolute(v) == n * p) by (nonlinear_arith)
        requires
            v == z * p,
            p > 0,
            n == if z < 0 {
                -z
            } else {
                z
            },
            v < 0 <==> z < 0,
    ;
    lemma_kept(n, s, v < 0, 1);
    assert((n * p) * 1 == n * p);
    lemma_zero_value(a.plus(b));
}

/// A difference within the digits is not rounded.
pub proof fn lemma_difference(a: Scalar, x: int, b: Scalar, y: int, s: nat)
    requires
        stands_for(a, x, s),
        stands_for(b, y, s),
        -DIGITS <= x - y <= DIGITS,
        s <= 252,
    ensures
        stands_for(a.minus(b), x - y, s),
{
    lemma_opposite(b, y, s);
    lemma_sum(a, x, b.negated(), -y, s);
}

pub proof fn lemma_opposite(a: Scalar, x: int, s: nat)
    requires
        stands_for(a, x, s),
    ensures
        stands_for(a.negated(), -x, s),
{
    scalar::lemma_negated(a);
    let p = pow2(s) as int;
    assert(-(x * p) == (-x) * p) by (nonlinear_arith);
}

/// A product within the digits is not rounded.
pub proof fn lemma_product(a: Scalar, x: int, s: nat, b: Scalar, y: int, t: nat)
    requires
        stands_for(a, x, s),
        stands_for(b, y, t),
        -DIGITS <= x * y <= DIGITS,
        149 <= s + t <= 401,
    ensures
        stands_for(a.times(b), x * y, (s + t - 149) as nat),
{
    let k = (s + t - 149) as nat;
    let (p, q, r, u) = (pow2(s) as int, pow2(t) as int, pow2(k) as int, scalar::unit());
    vstd::arithmetic::power2::lemma_pow2_pos(s);
    vstd::arithmetic::power2::lemma_pow2_pos(t);
    vstd::arithmetic::power2::lemma_pow2_pos(k);
    vstd::arithmetic::power2::lemma_pow2_pos(149);
    vstd::arithmetic::power2::lemma_pow2_adds(s, t);
    vstd::arithmetic::power2::lemma_pow2_adds(k, 149);
    assert(p * q == r * u);
    let (v, w) = (a.value(), b.value());
    let z = x * y;
    let n = arith::absolute(z);
    let (xa, ya) = (arith::absolute(x), arith::absolute(y));
    assert(arith::absolute(v) == xa * p) by (nonlinear_arith)
        requires
            v == x * p,
            p > 0,
            xa == arith::absolute(x),
    ;
    assert(arith::absolute(w) == ya * q) by (nonlinear_arith)
        requires
            w == y * q,
            q > 0,
            ya == arith::absolute(y),
    ;
    assert(xa * ya == n) by (nonlinear_arith)
        requires
            xa == arith::absolute(x),
            ya == arith::absolute(y),
            n == arith::absolute(x * y),
    ;
    assert((xa * p) * (ya * q) == (n * r) * u) by (nonlinear_arith)
        requires
            xa * ya == n,
            p * q == r * u,
    ;
    let negative = a.negative() != b.negative();
    lemma_kept(n, k, negative, u);
    lemma_sign(a, x, s);
    lemma_sign(b, y, t);
    if z == 0 {
        assert(0 * r == 0);
    } else {
        assert(z < 0 <==> negative) by (nonlinear_arith)
            requires
                z == x * y,
                z != 0,
                x > 0 ==> !a.negative(),
                x < 0 ==> a.negative(),
                y > 0 ==> !b.negative(),
                y < 0 ==> b.negative(),
                negative == (a.negative() != b.negative()),
        ;
        assert(z * r == if z < 0 {
            -(n * r)
        } else {
            n * r
        }) by (nonlinear_arith)
            requires
                n == arith::absolute(z),
        ;
    }
}

/// The sign of a number is that of what it stands for.
pub proof fn lemma_sign(a: Scalar, x: int, s: nat)
    requires
        stands_for(a, x, s),
    ensures
        x > 0 ==> !a.negative(),
        x < 0 ==> a.negative(),
        x == 0 <==> a.mag() == 0,
{
    let p = pow2(s) as int;
    vstd::arithmetic::power2::lemma_pow2_pos(s);
    let v = a.value();
    assert((x > 0 ==> v > 0) && (x < 0 ==> v < 0) && (x == 0 ==> v == 0)) by (nonlinear_arith)
        requires
            v == x * p,
            p > 0,
    ;
    lemma_zero_value(a);
    arith::lemma_magnitudes(0, a.mag());
}

/// A quotient without a remainder, within the digits, is not rounded.
pub proof fn lemma_quotient(a: Scalar, q: int, b: Scalar, y: int, s: nat, t: nat)
    requires
        stands_for(a, q * y, s),
        stands_for(b, y, t),
        y != 0,
        -DIGITS <= q <= DIGITS,
        t <= s + 149,
        s + 149 - t <= 252,
    ensures
        stands_for(a.over(b), q, (s + 149 - t) as nat),
{
    let k = (s + 149 - t) as nat;
    let (p, g, r, u) = (pow2(s) as int, pow2(t) as int, pow2(k) as int, scalar::unit());
    vstd::arithmetic::power2::lemma_pow2_pos(s);
    vstd::arithmetic::power2::lemma_pow2_pos(t);
    vstd::arithmetic::power2::lemma_pow2_pos(k);
    vstd::arithmetic::power2::lemma_pow2_adds(s, 149);
    vstd::arithmetic::power2::lemma_pow2_adds(k, t);
    assert(p * u == r * g);
    let (v, w) = (a.value(), b.value());
    let x = q * y;
    let n = arith::absolute(q);
    let (xa, ya) = (arith::absolute(x), arith::absolute(y));
    assert(arith::absolute(v) == xa * p) by (nonlinear_arith)
        requires
            v == x * p,
            p > 0,
            xa == arith::absolute(x),
    ;
    assert(arith::absolute(w) == ya * g && ya * g > 0) by (nonlinear_arith)
        requires
            w == y * g,
            g > 0,
            ya == arith::absolute(y),
            y != 0,
    ;
    assert(xa == n * ya) by (nonlinear_arith)
        requires
            xa == arith::absolute(q * y),
            ya == arith::absolute(y),
            n == arith::absolute(q),
    ;
    assert((xa * p) * u == (n * r) * (ya * g)) by (nonlinear_arith)
        requires
            xa == n * ya,
            p * u == r * g,
    ;
    let negative = a.negative() != b.negative();
    lemma_sign(a, x, s);
    lemma_sign(b, y, t);
    lemma_kept(n, k, negative, ya * g);
    if q == 0 {
        assert(0 * r == 0);
    } else {
        assert(q < 0 <==> negative) by (nonlinear_arith)
            requires
                x == q * y,
                q != 0,
                y != 0,
                x > 0 ==> !a.negative(),
                x < 0 ==> a.negative(),
                y > 0 ==> !b.negative(),
                y < 0 ==> b.negative(),
                negative == (a.negative() != b.negative()),
        ;
        assert(q * r == if q < 0 {
            -(n * r)
        } else {
            n * r
        }) by (nonlinear_arith)
            requires
                n == arith::absolute(q),
        ;
    }
}

/// A whole number is its own nearest number.
pub proof fn lemma_integer(n: int)
    requires
        0 <= n <= DIGITS,
    ensures
        stands_for(arith::of_int(n), n, 149),
        !arith::of_int(n).negative(),
{
    lemma_kept(n, 149, false, 1);
    assert((n * pow2(149)) * 1 == n * scalar::unit());
    crate::rounding::lemma_of_int_is_number(n);
}

/// The small whole numbers, by their patterns.
pub proof fn lemma_small()
    ensures
        stands_for(arith::num(ONE), 1, 149),
        stands_for(arith::num(arith::TWO), 2, 149),
        stands_for(arith::num(arith::THREE), 3, 149),
        stands_for(arith::num(arith::FOUR), 4, 149),
        stands_for(arith::num(arith::FIVE), 5, 149),
        stands_for(arith::num(arith::HALF), 1, 148),
{
    vstd::arithmetic::power2::lemma2_to64();
    lemma_one();
    arith::lemma_packs(0x80_0000, 127, arith::TWO as int);
    arith::lemma_packs(0xc0_0000, 127, arith::THREE as int);
    arith::lemma_packs(0x80_0000, 128, arith::FOUR as int);
    arith::lemma_packs(0xa0_0000, 128, arith::FIVE as int);
    arith::lemma_packs(0x80_0000, 125, arith::HALF as int);
    vstd::arithmetic::power2::lemma_pow2_adds(23, 125);
    vstd::arithmetic::power2::lemma_pow2_adds(22, 127);
    vstd::arithmetic::power2::lemma_pow2_adds(21, 128);
}

/// A number that stands for the same as another, and not for zero, is the other.
pub proof fn lemma_only_one(a: Scalar, b: Scalar, x: int, s: nat)
    requires
        stands_for(a, x, s),
        stands_for(b, x, s),
    ensures
        alike(a, b),
        x != 0 ==> a == b,
{
    lemma_alike_same(a, b);
    lemma_sign(a, x, s);
}

/// Numbers that are not negative keep their order when they are divided by one
/// above zero.
pub proof fn lemma_over_ordered(a: Scalar, b: Scalar, c: Scalar)
    requires
        a.finite(),
        b.finite(),
        c.finite(),
        !a.negative(),
        !b.negative(),
        arith::num(0).less(c),
        a.value() <= b.value(),
    ensures
        a.over(c).value() <= b.over(c).value(),
        !a.over(c).nan(),
        !a.over(c).negative(),
{
    let u = scalar::unit();
    lemma_one();
    lemma_zero_value(arith::num(0));
    lemma_zero_value(c);
    arith::lemma_magnitudes(0, a.mag());
    arith::lemma_magnitudes(0, b.mag());
    arith::lemma_magnitudes(0, c.mag());
    let (x, y, z) = (a.value(), b.value(), c.value());
    assert(0 <= x * u <= y * u) by (nonlinear_arith)
        requires
            0 <= x <= y,
            u > 0,
    ;
    rounding::lemma_nearest_ordered(x * u, y * u, z);
    rounding::lemma_nearest_exists(x * u, z);
    rounding::lemma_nearest_exists(y * u, z);
    scalar::lemma_value_order(a.over(c), b.over(c));
}

/// A sum that is no number is always the same pattern.
pub proof fn lemma_plus_no_number(a: Scalar, b: Scalar)
    ensures
        a.plus(b).nan() ==> a.plus(b) == arith::no_number(),
{
    rounding::lemma_nearest_exists(arith::absolute(a.value() + b.value()), 1);
}

/// A product with the sign of one factor turned has its own sign turned.
pub proof fn lemma_times_turned(a: Scalar, b: Scalar)
    ensures
        a.times(b).nan() ==> a.negated().times(b).nan(),
        !a.times(b).nan() ==> a.negated().times(b) == a.times(b).negated(),
{
    scalar::lemma_negated(a);
    lemma_one();
    let n = arith::absolute(a.value()) * arith::absolute(b.value());
    assert(n >= 0) by (nonlinear_arith)
        requires
            n == arith::absolute(a.value()) * arith::absolute(b.value()),
    ;
    rounding::lemma_nearest_exists(n, scalar::unit());
}

/// A sum with both signs turned has its own sign turned.
pub proof fn lemma_plus_turned(a: Scalar, b: Scalar)
    ensures
        a.plus(b).nan() == a.negated().plus(b.negated()).nan(),
        !a.plus(b).nan() ==> alike(a.negated().plus(b.negated()), a.plus(b).negated()),
{
    scalar::lemma_negated(a);
    scalar::lemma_negated(b);
    rounding::lemma_nearest_exists(arith::absolute(a.value() + b.value()), 1);
}

/// Numbers that are alike have quotients that are alike, by a number other than zero.
pub proof fn lemma_over_alike(a: Scalar, b: Scalar, c: Scalar)
    requires
        alike(a, b),
        c.mag() != 0,
    ensures
        alike(a.over(c), b.over(c)),
{
    lemma_zero_value(a);
    lemma_zero_value(b);
    lemma_zero_value(c);
    if a != b && c.finite() {
        arith::lemma_zero(arith::absolute(c.value()));
        assert(0 * scalar::unit() == 0);
    }
}

/// A quotient with the sign of the first number turned has its own sign turned.
pub proof fn lemma_over_turned(a: Scalar, c: Scalar)
    ensures
        a.over(c).nan() ==> a.negated().over(c).nan(),
        !a.over(c).nan() ==> a.negated().over(c) == a.over(c).negated(),
{
    scalar::lemma_negated(a);
    lemma_one();
    lemma_zero_value(c);
    let n = arith::absolute(a.value()) * scalar::unit();
    assert(n >= 0) by (nonlinear_arith)
        requires
            n == arith::absolute(a.value()) * scalar::unit(),
            scalar::unit() > 0,
    ;
    if c.finite() && c.mag() != 0 {
        rounding::lemma_nearest_exists(n, arith::absolute(c.value()));
    }
}

/// The square of a number does not depend on its sign.
pub proof fn lemma_square_turned(a: Scalar)
    ensures
        a.negated().times(a.negated()) == a.times(a),
{
    scalar::lemma_negated(a);
}

/// The opposite of a number, but for the sign of a zero and for what is no number.
pub open spec fn opposite(a: Scalar, b: Scalar) -> bool {
    alike(a, b.negated()) || (a.nan() && b.nan())
}

/// The same number, but for the sign of a zero and for what is no number.
pub open spec fn matching(a: Scalar, b: Scalar) -> bool {
    alike(a, b) || (a.nan() && b.nan())
}

/// What mirroring the terms does to a sum.
pub proof fn lemma_plus_mirrored(a: Scalar, b: Scalar, c: Scalar, d: Scalar)
    ensures
        opposite(a, b) && opposite(c, d) ==> opposite(a.plus(c), b.plus(d)),
        matching(a, b) && matching(c, d) ==> matching(a.plus(c), b.plus(d)),
{
    scalar::lemma_negated(b);
    scalar::lemma_negated(d);
    if matching(a, b) && matching(c, d) && !a.nan() && !c.nan() {
        lemma_plus_alike(a, b, c, d);
    }
    if opposite(a, b) && opposite(c, d) && !b.nan() && !d.nan() {
        lemma_plus_alike(a, b.negated(), c, d.negated());
        lemma_plus_turned(b, d);
        if !b.plus(d).nan() {
            lemma_alike_same(a.plus(c), b.negated().plus(d.negated()));
            lemma_alike_same(b.negated().plus(d.negated()), b.plus(d).negated());
        } else {
            lemma_alike_same(a.plus(c), b.negated().plus(d.negated()));
        }
    }
}

/// What mirroring does to an opposite number.
pub proof fn lemma_negated_mirrored(a: Scalar, b: Scalar)
    ensures
        opposite(a, b) ==> opposite(a.negated(), b.negated()),
        matching(a, b) ==> matching(a.negated(), b.negated()),
{
    scalar::lemma_negated(a);
    scalar::lemma_negated(b);
}

/// What mirroring the terms does to a difference.
pub proof fn lemma_minus_mirrored(a: Scalar, b: Scalar, c: Scalar, d: Scalar)
    ensures
        opposite(a, b) && opposite(c, d) ==> opposite(a.minus(c), b.minus(d)),
        matching(a, b) && matching(c, d) ==> matching(a.minus(c), b.minus(d)),
{
    lemma_negated_mirrored(c, d);
    lemma_plus_mirrored(a, b, c.negated(), d.negated());
}

/// What mirroring the factors does to a product.
pub proof fn lemma_times_mirrored(a: Scalar, b: Scalar, c: Scalar, d: Scalar)
    ensures
        opposite(a, b) && matching(c, d) ==> opposite(a.times(c), b.times(d)),
        matching(a, b) && opposite(c, d) ==> opposite(a.times(c), b.times(d)),
        opposite(a, b) && opposite(c, d) ==> matching(a.times(c), b.times(d)),
        matching(a, b) && matching(c, d) ==> matching(a.times(c), b.times(d)),
{
    scalar::lemma_negated(b);
    scalar::lemma_negated(d);
    if !a.nan() && !b.nan() && !c.nan() && !d.nan() {
        if matching(a, b) && matching(c, d) {
            lemma_times_alike(a, b, c, d);
        }
        if opposite(a, b) && matching(c, d) {
            lemma_times_alike(a, b.negated(), c, d);
            lemma_alike_same(a.times(c), b.negated().times(d));
            lemma_times_turned(b, d);
        }
        if matching(a, b) && opposite(c, d) {
            lemma_times_alike(a, b, c, d.negated());
            lemma_alike_same(a.times(c), b.times(d.negated()));
            arith::lemma_times_commutes(b, d.negated());
            arith::lemma_times_commutes(b, d);
            lemma_times_turned(d, b);
        }
        if opposite(a, b) && opposite(c, d) {
            lemma_times_alike(a, b.negated(), c, d.negated());
            lemma_alike_same(a.times(c), b.negated().times(d.negated()));
            lemma_times_turned(b, d.negated());
            arith::lemma_times_commutes(b, d.negated());
            arith::lemma_times_commutes(b, d);
            lemma_times_turned(d, b);
            scalar::lemma_negated(b.times(d));
        }
    }
}

/// What mirroring does to a quotient by a number other than zero.
pub proof fn lemma_over_mirrored(a: Scalar, b: Scalar, c: Scalar)
    requires
        c.mag() != 0,
    ensures
        opposite(a, b) ==> opposite(a.over(c), b.over(c)),
        matching(a, b) ==> matching(a.over(c), b.over(c)),
{
    scalar::lemma_negated(b);
    if matching(a, b) && !a.nan() && !b.nan() {
        lemma_over_alike(a, b, c);
    }
    if opposite(a, b) && !a.nan() && !b.nan() {
        lemma_over_alike(a, b.negated(), c);
        lemma_alike_same(a.over(c), b.negated().over(c));
        lemma_over_turned(b, c);
    }
}

/// What is left of a number of units is what is left of its count.
pub proof fn lemma_remainder(a: Scalar, x: int, b: Scalar, y: int, s: nat)
    requires
        stands_for(a, x, s),
        stands_for(b, y, s),
        0 <= x <= DIGITS,
        0 < y <= DIGITS,
        s <= 252,
    ensures
        stands_for(a.modulo(b), x % y, s),
{
    let p = pow2(s) as int;
    vstd::arithmetic::power2::lemma_pow2_pos(s);
    lemma_sign(a, x, s);
    lemma_sign(b, y, s);
    lemma_zero_value(a);
    arith::lemma_mod_scale(x, y, p);
    assert(x * p >= 0 && y * p > 0) by (nonlinear_arith)
        requires
            x >= 0,
            y > 0,
            p > 0,
    ;
    let r = x % y;
    lemma_kept(r, s, a.negative(), 1);
    assert((r * p) * 1 == r * p);
    if a.negative() {
        assert(x == 0);
        vstd::arithmetic::div_mod::lemma_small_mod(0, y as nat);
        assert(0 * p == 0);
    }
}

/// An even number of units is half as many units of twice the size.
pub proof fn lemma_coarser(a: Scalar, x: int, s: nat)
    requires
        stands_for(a, 2 * x, s),
    ensures
        stands_for(a, x, s + 1),
{
    vstd::arithmetic::power2::lemma_pow2_unfold(s + 1);
    let p = pow2(s) as int;
    assert((2 * x) * p == x * (2 * p)) by (nonlinear_arith);
}

/// The root of a square is what was squared.
pub proof fn lemma_root(a: Scalar, b: Scalar, n: int)
    requires
        stands_for(a, n * n, 149),
        stands_for(b, n, 149),
        n > 0,
        n * n > 0,
    ensures
        a.root() == b,
{
    let u = pow2(149) as int;
    lemma_one();
    vstd::arithmetic::power2::lemma_pow2_pos(149);
    lemma_sign(a, n * n, 149);
    lemma_sign(b, n, 149);
    assert(scalar::unit() == u);
    assert(((n * n) * u) * u == (n * u) * (n * u)) by (nonlinear_arith);
    root::lemma_root_undoes_square(a, b);
}

} // verus!
