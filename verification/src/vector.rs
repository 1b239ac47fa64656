//! Pairs of numbers as plane vectors.

use crate::exact;
use crate::scalar::Scalar;
use vstd::prelude::*;

verus! {

pub open spec fn plus2(a: [Scalar; 2], b: [Scalar; 2]) -> [Scalar; 2] {
    [a[0].plus(b[0]), a[1].plus(b[1])]
}

pub open spec fn minus2(a: [Scalar; 2], b: [Scalar; 2]) -> [Scalar; 2] {
    [a[0].minus(b[0]), a[1].minus(b[1])]
}

pub open spec fn times2(a: [Scalar; 2], k: Scalar) -> [Scalar; 2] {
    [a[0].times(k), a[1].times(k)]
}

pub open spec fn over2(a: [Scalar; 2], k: Scalar) -> [Scalar; 2] {
    [a[0].over(k), a[1].over(k)]
}

/// The square of the length.
pub open spec fn square2(a: [Scalar; 2]) -> Scalar {
    a[0].times(a[0]).plus(a[1].times(a[1]))
}

pub open spec fn length2(a: [Scalar; 2]) -> Scalar {
    square2(a).root()
}

pub open spec fn finite2(a: [Scalar; 2]) -> bool {
    a[0].finite() && a[1].finite()
}

pub fn add2(a: [Scalar; 2], b: [Scalar; 2]) -> (r: [Scalar; 2])
    ensures
        r == plus2(a, b),
{
    [a[0].add(b[0]), a[1].add(b[1])]
}

pub fn sub2(a: [Scalar; 2], b: [Scalar; 2]) -> (r: [Scalar; 2])
    ensures
        r == minus2(a, b),
{
    [a[0].sub(b[0]), a[1].sub(b[1])]
}

pub fn mul2(a: [Scalar; 2], k: Scalar) -> (r: [Scalar; 2])
    ensures
        r == times2(a, k),
{
    [a[0].mul(k), a[1].mul(k)]
}

pub fn div2(a: [Scalar; 2], k: Scalar) -> (r: [Scalar; 2])
    ensures
        r == over2(a, k),
{
    [a[0].div(k), a[1].div(k)]
}

pub fn length_squared(a: [Scalar; 2]) -> (r: Scalar)
    ensures
        r == square2(a),
{
    a[0].mul(a[0]).add(a[1].mul(a[1]))
}

pub fn length(a: [Scalar; 2]) -> (r: Scalar)
    ensures
        r == length2(a),
{
    length_squared(a).sqrt()
}

pub fn is_finite2(a: [Scalar; 2]) -> (r: bool)
    ensures
        r == finite2(a),
{
    a[0].is_finite() && a[1].is_finite()
}

/// The length of a vector is the root of the sum of the squares of its components. The
/// numbers are whole: `x` and `y` are the components, `n` is the length.
pub proof fn lemma_length_exact(a: [Scalar; 2], b: Scalar, x: int, y: int, n: int)
    requires
        exact::stands_for(a[0], x, 149),
        exact::stands_for(a[1], y, 149),
        exact::stands_for(b, n, 149),
        -0x400 <= x <= 0x400,
        -0x400 <= y <= 0x400,
        0 < n <= 0x800,
        n * n == x * x + y * y,
    ensures
        length2(a) == b,
{
    assert(0 <= x * x <= 0x10_0000 && 0 <= y * y <= 0x10_0000) by (nonlinear_arith)
        requires
            -0x400 <= x <= 0x400,
            -0x400 <= y <= 0x400,
    ;
    exact::lemma_product(a[0], x, 149, a[0], x, 149);
    exact::lemma_product(a[1], y, 149, a[1], y, 149);
    exact::lemma_sum(a[0].times(a[0]), x * x, a[1].times(a[1]), y * y, 149);
    assert(n * n > 0) by (nonlinear_arith)
        requires
            n > 0,
    ;
    exact::lemma_root(square2(a), b, n);
}

} // verus!
