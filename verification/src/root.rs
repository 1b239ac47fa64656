//! Square roots of numbers, rounded to the nearest number.

use crate::arith;
use crate::arith::NOT_A_NUMBER;
use crate::scalar;
use crate::scalar::{Scalar, INFINITY, SIGN};
use vstd::arithmetic::power2::pow2;
use vstd::prelude::*;

verus! {

/// The pattern `m` is nearest to the square root of `x`: the root lies between
/// the middles to its two neighbours.
pub open spec fn is_root(x: int, m: int) -> bool {
    let below = scalar::magnitude(m - 1) + scalar::magnitude(m);
    let above = scalar::magnitude(m) + scalar::magnitude(m + 1);
    &&& 0 < m < INFINITY
    &&& below * below < 4 * x
    &&& 4 * x <= above * above
}

/// The pattern nearest to the square root of `x`.
pub open spec fn root_pattern(x: int) -> int {
    choose|m: int| is_root(x, m)
}

impl Scalar {
    /// The square root. Zero is its own root; a negative number has none.
    pub open spec fn root(self) -> Scalar {
        if self.nan() {
            arith::no_number()
        } else if self.mag() == 0 {
            self
        } else if self.negative() {
            arith::no_number()
        } else if self.infinite() {
            self
        } else {
            arith::with_sign(false, root_pattern(self.value() * scalar::unit()))
        }
    }
}

/// At most one pattern is nearest.
pub proof fn lemma_root_unique(x: int, a: int, b: int)
    requires
        is_root(x, a),
        is_root(x, b),
    ensures
        a == b,
{
    lemma_root_order(x, a, b);
    lemma_root_order(x, b, a);
}

proof fn lemma_root_order(x: int, a: int, b: int)
    requires
        is_root(x, a),
        is_root(x, b),
    ensures
        a >= b,
{
    if a < b {
        let p = scalar::magnitude(a) + scalar::magnitude(a + 1);
        let q = scalar::magnitude(b - 1) + scalar::magnitude(b);
        scalar::lemma_magnitude_increases(0, a);
        scalar::lemma_magnitude_increases(a, a + 1);
        if a + 1 < b {
            scalar::lemma_magnitude_increases(a, b - 1);
            scalar::lemma_magnitude_increases(a + 1, b);
        }
        assert(p * p <= q * q) by (nonlinear_arith)
            requires
                0 <= p <= q,
        ;
    }
}

/// The whole part of a square root.
fn whole_root(n: u64) -> (r: u64)
    requires
        0x4000_0000_0000 <= n < 0x1_0000_0000_0000,
    ensures
        0x80_0000 <= r < 0x100_0000,
        r * r <= n,
        n < (r + 1) * (r + 1),
{
    let mut low: u64 = 0x80_0000;
    let mut high: u64 = 0x100_0000;
    while high - low > 1
        invariant
            0x80_0000 <= low < high <= 0x100_0000,
            low * low <= n,
            n < high * high,
        decreases high - low,
    {
        let mid: u64 = (low + high) / 2;
        assert(mid * mid <= 0x100_0000 * 0x100_0000) by (nonlinear_arith)
            requires
                0 <= mid <= 0x100_0000,
        ;
        if mid * mid <= n {
            low = mid;
        } else {
            high = mid;
        }
    }
    low
}

/// A root between two whole numbers, scaled, is nearest to the pattern of one of
/// them.
proof fn lemma_rounds_to(x: int, n: int, r: int, e: int, m: int)
    requires
        0x80_0000 <= r < 0x100_0000,
        0 <= e <= 200,
        x == n * (pow2(e as nat) * pow2(e as nat)),
        r * r <= n < (r + 1) * (r + 1),
        arith::packs(r, e, m),
    ensures
        n - r * r <= r ==> is_root(x, m),
        n - r * r > r ==> is_root(x, m + 1),
{
    let p = pow2(e as nat) as int;
    vstd::arithmetic::power2::lemma_pow2_pos(e as nat);
    arith::lemma_packs(r, e, m);
    let a = scalar::magnitude(m - 1);
    let b = scalar::magnitude(m);
    let c = scalar::magnitude(m + 1);
    let d = scalar::magnitude(m + 2);
    scalar::lemma_magnitude_increases(m - 1, m);
    scalar::lemma_magnitude_increases(m + 1, m + 2);
    scalar::lemma_magnitude_increases(0, m - 1);
    assert(b == r * p && c == (r + 1) * p);
    if n - r * r <= r {
        assert((a + b) * (a + b) < 4 * x) by (nonlinear_arith)
            requires
                0 <= a < b,
                b == r * p,
                r * r <= n,
                x == n * (p * p),
                p > 0,
        {
            assert((a + b) * (a + b) < (2 * b) * (2 * b));
            assert((2 * b) * (2 * b) == 4 * ((r * r) * (p * p)));
            assert((r * r) * (p * p) <= n * (p * p));
        }
        assert(4 * x <= (b + c) * (b + c)) by (nonlinear_arith)
            requires
                b == r * p,
                c == (r + 1) * p,
                n <= r * r + r,
                x == n * (p * p),
                p > 0,
        {
            assert(b + c == (2 * r + 1) * p);
            assert((b + c) * (b + c) == ((2 * r + 1) * (2 * r + 1)) * (p * p));
            assert((2 * r + 1) * (2 * r + 1) == 4 * (r * r + r) + 1);
            assert((4 * n) * (p * p) <= ((2 * r + 1) * (2 * r + 1)) * (p * p));
        }
    } else {
        assert((b + c) * (b + c) < 4 * x) by (nonlinear_arith)
            requires
                b == r * p,
                c == (r + 1) * p,
                n >= r * r + r + 1,
                x == n * (p * p),
                p > 0,
        {
            assert(b + c == (2 * r + 1) * p);
            assert((b + c) * (b + c) == ((2 * r + 1) * (2 * r + 1)) * (p * p));
            assert((2 * r + 1) * (2 * r + 1) == 4 * (r * r + r) + 1);
            assert(((2 * r + 1) * (2 * r + 1)) * (p * p) < (4 * n) * (p * p));
        }
        assert(4 * x <= (c + d) * (c + d)) by (nonlinear_arith)
            requires
                c == (r + 1) * p,
                0 <= c < d,
                n < (r + 1) * (r + 1),
                x == n * (p * p),
                p > 0,
        {
            assert((2 * c) * (2 * c) <= (c + d) * (c + d));
            assert((2 * c) * (2 * c) == 4 * (((r + 1) * (r + 1)) * (p * p)));
            assert(n * (p * p) <= ((r + 1) * (r + 1)) * (p * p));
        }
    }
}

impl Scalar {
    /// The square root, rounded to the nearest number.
    pub fn sqrt(self) -> (r: Scalar)
        ensures
            r == self.root(),
    {
        if self.is_nan() {
            return Scalar { bits: NOT_A_NUMBER };
        }
        if self.bits == 0 || self.bits == SIGN {
            return self;
        }
        if self.bits >= SIGN {
            return Scalar { bits: NOT_A_NUMBER };
        }
        if self.bits == INFINITY {
            return self;
        }
        let bits: u32 = self.bits;
        let exponent: u32 = bits / 0x80_0000;
        let (q, s): (u64, u64) = if exponent == 0 {
            (bits as u64, 0)
        } else {
            (bits as u64 % 0x80_0000 + 0x80_0000, exponent as u64 - 1)
        };
        proof {
            arith::lemma_packs(q as int, s as int, bits as int);
            vstd::arithmetic::power2::lemma2_to64();
        }
        let ghost v = self.value();
        assert(v == q * pow2(s as nat));
        let mut n: u64 = q;
        let mut j: u64 = 0;
        while n < 0x4000_0000_0000
            invariant
                1 <= q < 0x100_0000,
                n == q * pow2(j as nat),
                j <= 46,
                n < 0x8000_0000_0000,
                n >= pow2(j as nat),
            decreases 0x8000_0000_0000 - n,
        {
            proof {
                vstd::arithmetic::power2::lemma2_to64_rest();
                vstd::arithmetic::power2::lemma_pow2_unfold((j + 1) as nat);
                vstd::arithmetic::power2::lemma_pow2_pos(j as nat);
                let p = pow2(j as nat) as int;
                assert(q * (2 * p) == 2 * (q * p)) by (nonlinear_arith);
                assert(j < 46);
            }
            n = n * 2;
            j = j + 1;
        }
        if (s + 149 - j) % 2 == 1 {
            proof {
                vstd::arithmetic::power2::lemma_pow2_unfold((j + 1) as nat);
                let p = pow2(j as nat) as int;
                assert(q * (2 * p) == 2 * (q * p)) by (nonlinear_arith);
            }
            n = n * 2;
            j = j + 1;
        }
        let e: u64 = (s + 149 - j) / 2;
        let r: u64 = whole_root(n);
        let m: u32 = (e * 0x80_0000 + r) as u32;
        let ghost x = v * scalar::unit();
        proof {
            let pe = pow2(e as nat) as int;
            vstd::arithmetic::power2::lemma_pow2_adds(s as nat, 149);
            vstd::arithmetic::power2::lemma_pow2_adds(j as nat, (2 * e) as nat);
            vstd::arithmetic::power2::lemma_pow2_adds(e as nat, e as nat);
            assert(s + 149 == j + 2 * e);
            let ps = pow2(s as nat) as int;
            let pu = pow2(149) as int;
            let pj = pow2(j as nat) as int;
            assert(x == n * (pe * pe)) by (nonlinear_arith)
                requires
                    x == (q * ps) * pu,
                    n == q * pj,
                    ps * pu == pj * (pe * pe),
            ;
            assert(r * r < (r + 1) * (r + 1)) by (nonlinear_arith);
            lemma_rounds_to(x, n as int, r as int, e as int, m as int);
        }
        assert(r * r <= n < 0x1_0000_0000_0000);
        let left: u64 = n - r * r;
        let nearest: u32 = if left <= r {
            m
        } else {
            m + 1
        };
        proof {
            lemma_root_unique(x, root_pattern(x), nearest as int);
        }
        Scalar { bits: nearest }
    }
}

/// The root of the square of a positive number is that number, where the square loses
/// nothing.
pub proof fn lemma_root_undoes_square(a: Scalar, b: Scalar)
    requires
        a.finite(),
        b.finite(),
        !a.negative(),
        !b.negative(),
        b.mag() > 0,
        a.value() * scalar::unit() == b.value() * b.value(),
    ensures
        a.root() == b,
{
    let m = b.mag();
    let x = a.value() * scalar::unit();
    let w = scalar::magnitude(m);
    scalar::lemma_magnitude_increases(m - 1, m);
    scalar::lemma_magnitude_increases(m, m + 1);
    if m > 1 {
        scalar::lemma_magnitude_increases(0, m - 1);
    }
    assert(w == b.value());
    let below = scalar::magnitude(m - 1) + w;
    let above = w + scalar::magnitude(m + 1);
    assert(w * w > 0) by (nonlinear_arith)
        requires
            w > 0,
    ;
    assert(below * below < 4 * (w * w)) by (nonlinear_arith)
        requires
            0 < w,
            w <= below < 2 * w,
    ;
    assert(4 * (w * w) <= above * above) by (nonlinear_arith)
        requires
            0 < w,
            2 * w <= above,
    ;
    assert(is_root(x, m));
    lemma_root_unique(x, m, root_pattern(x));
    assert(a.mag() != 0) by {
        if a.mag() == 0 {
            arith::lemma_magnitudes(0, a.mag());
            let u = scalar::unit();
            assert(a.value() == 0);
            assert(0 * u == 0) by (nonlinear_arith);
        }
    }
}

} // verus!
