use bevy_inochi2d::order::{order_by_number, stable_order};
use bevy_inochi2d::scalar::Scalar;
use bevy_inochi2d::vector::{add2, div2, is_finite2, length, length_squared, mul2, sub2};

fn bits(x: f32) -> Scalar {
    Scalar { bits: x.to_bits() }
}

fn same(got: Scalar, want: f32) -> bool {
    let got = f32::from_bits(got.bits);
    if want.is_nan() {
        got.is_nan()
    } else {
        got.to_bits() == want.to_bits()
    }
}

/// Patterns of all kinds: raw ones, ones near each other, and small integers.
fn samples() -> Vec<f32> {
    let mut state: u64 = 0x9e37_79b9_7f4a_7c15;
    let mut next = move || {
        state ^= state << 13;
        state ^= state >> 7;
        state ^= state << 17;
        (state >> 16) as u32
    };
    let mut v = vec![
        0.0,
        -0.0,
        1.0,
        -1.0,
        f32::MAX,
        f32::MIN,
        f32::MIN_POSITIVE,
        f32::INFINITY,
        f32::NEG_INFINITY,
        f32::NAN,
        f32::from_bits(1),
        f32::from_bits(0x007f_ffff),
        f32::from_bits(0x3f7f_ffff),
        f32::from_bits(0x3f80_0001),
        16777216.0,
        16777215.0,
        0.1,
        0.3,
        1.0e-30,
        1.0e30,
    ];
    for _ in 0..80 {
        v.push(f32::from_bits(next()));
    }
    for _ in 0..80 {
        let exponent = 120 + next() % 16;
        v.push(f32::from_bits(exponent << 23 | (next() & 0x807f_ffff)));
    }
    for _ in 0..40 {
        v.push((next() % 1000) as f32);
    }
    for _ in 0..40 {
        v.push(f32::from_bits(next() % 0x0200_0000));
    }
    v
}

#[test]
fn sums_match_the_hardware() {
    let v = samples();
    for &a in &v {
        for &b in &v {
            assert!(same(bits(a).add(bits(b)), a + b), "{a:e} + {b:e}");
            assert!(same(bits(a).sub(bits(b)), a - b), "{a:e} - {b:e}");
        }
    }
}

#[test]
fn products_match_the_hardware() {
    let v = samples();
    for &a in &v {
        for &b in &v {
            assert!(same(bits(a).mul(bits(b)), a * b), "{a:e} * {b:e}");
        }
    }
}

#[test]
fn quotients_match_the_hardware() {
    let v = samples();
    for &a in &v {
        for &b in &v {
            assert!(same(bits(a).div(bits(b)), a / b), "{a:e} / {b:e}");
        }
    }
}

#[test]
fn remainders_match_the_hardware() {
    let v = samples();
    for &a in &v {
        for &b in &v {
            assert!(same(bits(a).rem(bits(b)), a % b), "{a:e} % {b:e}");
        }
    }
}

#[test]
fn comparisons_match_the_hardware() {
    let v = samples();
    for &a in &v {
        for &b in &v {
            assert_eq!(bits(a).lt(bits(b)), a < b);
            assert_eq!(bits(a).le(bits(b)), a <= b);
            assert_eq!(bits(a).num_eq(bits(b)), a == b);
            if a != b {
                assert!(same(bits(a).max(bits(b)), a.max(b)));
                assert!(same(bits(a).min(bits(b)), a.min(b)));
            }
        }
    }
}

#[test]
fn conversions_match_the_hardware() {
    for &a in &samples() {
        assert_eq!(bits(a).to_u32(), a as u32, "{a:e}");
        assert_eq!(bits(a).ceil_to_u32(), a.ceil() as u32, "{a:e}");
        assert!(same(bits(a).neg(), -a) || a.is_nan());
        assert!(same(bits(a).abs(), a.abs()));
        assert_eq!(bits(a).is_nan(), a.is_nan());
        assert_eq!(bits(a).is_finite(), a.is_finite());
    }
    for n in [0u32, 1, 2, 3, 255, 16777215, 16777216, 16777217, 16777219, 33554431, 33554433, 33554435, 33554437, 4294967295, 4294967167, 4294967168, 2147483647, 123456789] {
        assert_eq!(Scalar::from_u32(n).bits, (n as f32).to_bits(), "{n}");
    }
}

#[test]
fn square_roots_match_the_hardware() {
    for a in samples() {
        assert!(same(bits(a).sqrt(), a.sqrt()), "sqrt {a}");
        assert!(same(bits(a.abs()).sqrt(), a.abs().sqrt()), "sqrt |{a}|");
    }
}

#[test]
fn orders_of_numbers_are_stable() {

    assert_eq!(stable_order(&vec![3, 1, 3, -2]), vec![3, 1, 0, 2]);
    let keys = vec![bits(0.5), bits(-1.0), bits(0.5), bits(2.0)];
    assert_eq!(order_by_number(&keys, false), vec![1, 0, 2, 3]);
    assert_eq!(order_by_number(&keys, true), vec![3, 0, 2, 1]);
    let zeros = vec![bits(0.0), bits(-0.0)];
    assert_eq!(order_by_number(&zeros, false), vec![0, 1]);
}

#[test]
fn vectors_work_by_component() {

    let v = |x: f32, y: f32| [bits(x), bits(y)];
    let got = |a: [Scalar; 2]| [f32::from_bits(a[0].bits), f32::from_bits(a[1].bits)];
    assert_eq!(got(add2(v(1.0, 2.0), v(3.0, 5.0))), [4.0, 7.0]);
    assert_eq!(got(sub2(v(1.0, 2.0), v(3.0, 5.0))), [-2.0, -3.0]);
    assert_eq!(got(mul2(v(1.0, 2.0), bits(4.0))), [4.0, 8.0]);
    assert_eq!(got(div2(v(1.0, 2.0), bits(4.0))), [0.25, 0.5]);
    assert_eq!(length_squared(v(3.0, 4.0)).bits, 25.0f32.to_bits());
    assert_eq!(length(v(3.0, 4.0)).bits, 5.0f32.to_bits());
    assert!(is_finite2(v(1.0, 2.0)));
    assert!(!is_finite2(v(1.0, f32::INFINITY)));
}
