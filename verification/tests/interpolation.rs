use bevy_inochi2d::grid_interpolation::{
    catmull_rom, cubic_hermite, ease_in_out, find_grid_pos, find_nearest_set_value,
    interpolate_2d, interpolate_2d_vec2, interpolate_binding, interpolate_binding_deform,
    is_addressable, lerp, merge_field, merge_scale, normalize_param, resolve_1d_value, resolve_is_set_scalar, NodeAccum,
};
use bevy_inochi2d::model::{
    InxBinding, InxBindingValues, InxFlatDeform, InxFlatTransform, InxInterpolation, InxMergeMode,
    InxParam, InxParamName,
};
use bevy_inochi2d::scalar::Scalar;

fn s(x: f32) -> Scalar {
    Scalar { bits: x.to_bits() }
}

fn f(x: Scalar) -> f32 {
    f32::from_bits(x.bits)
}

fn p(x: f32, y: f32) -> [Scalar; 2] {
    [s(x), s(y)]
}

fn many(xs: &[f32]) -> Vec<Scalar> {
    xs.iter().map(|x| s(*x)).collect()
}

fn param(is_vec2: bool, xs: &[f32], ys: &[f32]) -> InxParam {
    InxParam {
        uuid: 1,
        name: String::from("head"),
        is_vec2,
        min: p(-1.0, 0.0),
        max: p(1.0, 10.0),
        defaults: p(0.0, 0.0),
        axis_points: [many(xs), many(ys)],
        merge_mode: InxMergeMode::Additive,
        bindings: Vec::new(),
    }
}

fn flat(frames: usize, per: usize, data: &[f32]) -> InxFlatTransform {
    InxFlatTransform { data: many(data), frames, values_per_frame: per }
}

fn binding(values: InxBindingValues, mode: InxInterpolation, is_set: Vec<Vec<bool>>) -> InxBinding {
    InxBinding {
        node_uuid: 7,
        param_name: InxParamName::TransformTX,
        interpolation: mode,
        values,
        is_set,
    }
}

#[test]
fn lerp_has_the_formula() {
    assert_eq!(f(lerp(s(2.0), s(6.0), s(0.25))), 3.0);
    for (a, b, t) in [(0.1f32, 0.7f32, 0.3f32), (-3.5, 2.25, 1.5), (1e10, -1e-10, 0.9)] {
        assert_eq!(lerp(s(a), s(b), s(t)).bits, (a + (b - a) * t).to_bits());
    }
}

#[test]
fn hermite_has_the_formula() {
    for (a, b, t, k) in [(0.1f32, 0.7f32, 0.3f32, 0.0f32), (-3.5, 2.25, 0.5, 0.75)] {
        let t2 = t * t;
        let t3 = t2 * t;
        let m = (1.0 - k) * (b - a);
        let h1 = 2.0 * t3 - 3.0 * t2 + 1.0;
        let h2 = -2.0 * t3 + 3.0 * t2;
        let h3 = t3 - 2.0 * t2 + t;
        let h4 = t3 - t2;
        let want = h1 * a + h2 * b + h3 * m + h4 * m;
        assert_eq!(cubic_hermite(s(a), s(b), s(t), s(k)).bits, want.to_bits());
    }
    assert_eq!(f(cubic_hermite(s(1.0), s(3.0), s(0.0), s(0.5))), 1.0);
    assert_eq!(f(cubic_hermite(s(1.0), s(3.0), s(1.0), s(0.5))), 3.0);
}

#[test]
fn easing_is_smoothstep() {
    assert_eq!(f(ease_in_out(s(-1.0))), 0.0);
    assert_eq!(f(ease_in_out(s(0.5))), 0.5);
    assert_eq!(f(ease_in_out(s(0.25))), 0.15625);
    assert_eq!(f(ease_in_out(s(7.0))), 1.0);
}

#[test]
fn catmull_rom_goes_through_its_points() {
    assert_eq!(f(catmull_rom(s(0.0), s(1.0), s(2.0), s(3.0), s(0.0))), 1.0);
    assert_eq!(f(catmull_rom(s(0.0), s(1.0), s(2.0), s(3.0), s(1.0))), 2.0);
    assert_eq!(f(catmull_rom(s(0.0), s(1.0), s(2.0), s(3.0), s(0.5))), 1.5);
    assert_eq!(f(catmull_rom(s(0.0), s(0.0), s(1.0), s(0.0), s(0.5))), 0.5625);
}

#[test]
fn params_are_normalized_into_the_unit_square() {
    let q = param(true, &[0.0, 1.0], &[0.0, 1.0]);
    let (x, y) = normalize_param(&q, &p(0.0, 2.5));
    assert_eq!((f(x), f(y)), (0.5, 0.25));
    let (x, y) = normalize_param(&q, &p(-5.0, 50.0));
    assert_eq!((f(x), f(y)), (0.0, 1.0));
    let mut flat_range = param(true, &[0.0], &[0.0]);
    flat_range.max = flat_range.min;
    let (x, y) = normalize_param(&flat_range, &p(3.0, 3.0));
    assert_eq!((f(x), f(y)), (0.0, 0.0));
}

#[test]
fn grid_positions_name_a_cell_and_a_share() {
    let axis = many(&[0.0, 0.5, 1.0]);
    let at = |x: f32| {
        let (i, t) = find_grid_pos(&axis, s(x));
        (i, f(t))
    };
    assert_eq!(at(0.0), (0, 0.0));
    assert_eq!(at(0.25), (0, 0.5));
    assert_eq!(at(0.5), (0, 1.0));
    assert_eq!(at(0.75), (1, 0.5));
    assert_eq!(at(1.0), (1, 1.0));
    let (i, t) = find_grid_pos(&many(&[0.5]), s(0.9));
    assert_eq!((i, f(t)), (0, 0.0));
    let (i, t) = find_grid_pos(&Vec::new(), s(0.9));
    assert_eq!((i, f(t)), (0, 0.0));
}

#[test]
fn unset_points_take_the_nearest_set_one() {
    let v = flat(3, 2, &[1.0, 2.0, 3.0, 4.0, 5.0, 6.0]);
    let set = vec![vec![true, false], vec![false, false], vec![false, true]];
    assert_eq!(f(find_nearest_set_value(&v, &set, 0, 1)), 1.0);
    assert_eq!(f(find_nearest_set_value(&v, &set, 2, 0)), 6.0);
    let none = vec![vec![false, false]; 3];
    assert_eq!(f(find_nearest_set_value(&v, &none, 1, 1)), 0.0);
    let corners = resolve_is_set_scalar(&v, &set, 0, 0);
    assert_eq!(f(corners[0]), 1.0);
    let all = vec![vec![true, true]; 3];
    let corners = resolve_is_set_scalar(&v, &all, 1, 0);
    let got: Vec<f32> = corners.iter().map(|c| f(*c)).collect();
    assert_eq!(got, vec![3.0, 5.0, 4.0, 6.0]);
}

#[test]
fn unset_points_on_a_line_take_a_neighbour() {
    let v = flat(3, 1, &[1.0, 2.0, 3.0]);
    let set = vec![vec![false], vec![true], vec![false]];
    assert_eq!(f(resolve_1d_value(&v, &set, 1)), 2.0);
    assert_eq!(f(resolve_1d_value(&v, &set, 0)), 2.0);
    assert_eq!(f(resolve_1d_value(&v, &set, 2)), 2.0);
}

#[test]
fn corners_blend_by_mode() {
    let c = [s(0.0), s(1.0), s(2.0), s(3.0)];
    assert_eq!(f(interpolate_2d(c, s(0.5), s(0.5), InxInterpolation::Linear)), 1.5);
    assert_eq!(f(interpolate_2d(c, s(0.25), s(0.0), InxInterpolation::Linear)), 0.25);
    assert_eq!(f(interpolate_2d(c, s(0.75), s(0.25), InxInterpolation::Stepped)), 1.0);
    assert_eq!(f(interpolate_2d(c, s(0.25), s(0.75), InxInterpolation::Stepped)), 2.0);
    assert_eq!(f(interpolate_2d(c, s(0.5), s(0.5), InxInterpolation::Cubic)), 1.5);
    let v = [p(0.0, 4.0), p(1.0, 4.0), p(2.0, 4.0), p(3.0, 4.0)];
    let r = interpolate_2d_vec2(v, s(0.5), s(0.5), InxInterpolation::Linear);
    assert_eq!((f(r[0]), f(r[1])), (1.5, 4.0));
}

#[test]
fn bindings_interpolate_along_one_axis() {
    let q = param(false, &[0.0, 0.5, 1.0], &[0.0]);
    let set = vec![vec![true]; 3];
    let values = |d: &[f32]| InxBindingValues::Transform(flat(3, 1, d));
    let b = binding(values(&[0.0, 10.0, 30.0]), InxInterpolation::Linear, set);
    assert_eq!(f(interpolate_binding(&q, &p(-1.0, 0.0), &b)), 0.0);
    assert_eq!(f(interpolate_binding(&q, &p(-0.5, 0.0), &b)), 5.0);
    assert_eq!(f(interpolate_binding(&q, &p(0.5, 0.0), &b)), 20.0);
    assert_eq!(f(interpolate_binding(&q, &p(9.0, 0.0), &b)), 30.0);
    let other = binding(InxBindingValues::Other, InxInterpolation::Linear, Vec::new());
    assert_eq!(f(interpolate_binding(&q, &p(0.5, 0.0), &other)), 0.0);
    assert!(is_addressable(&q, &b));
}

#[test]
fn bindings_interpolate_over_two_axes() {
    let q = param(true, &[0.0, 1.0], &[0.0, 1.0]);
    let b = binding(
        InxBindingValues::Transform(flat(2, 2, &[0.0, 2.0, 4.0, 6.0])),
        InxInterpolation::Linear,
        vec![vec![true, true]; 2],
    );
    assert_eq!(f(interpolate_binding(&q, &p(0.0, 5.0), &b)), 3.0);
    assert_eq!(f(interpolate_binding(&q, &p(1.0, 0.0), &b)), 4.0);
    assert_eq!(f(interpolate_binding(&q, &p(-1.0, 10.0), &b)), 2.0);
}

#[test]
fn deform_bindings_interpolate_each_vertex() {
    let q = param(false, &[0.0, 1.0], &[0.0]);
    let data = vec![p(0.0, 0.0), p(2.0, 0.0), p(4.0, 8.0), p(2.0, 2.0)];
    let values =
        InxBindingValues::Deform(InxFlatDeform { data, frames: 2, vertices_per_frame: 2 });
    let b = binding(values, InxInterpolation::Linear, vec![vec![true]; 2]);
    let r = interpolate_binding_deform(&q, &p(0.0, 0.0), &b).unwrap();
    let got: Vec<[f32; 2]> = r.iter().map(|o| [f(o[0]), f(o[1])]).collect();
    assert_eq!(got, vec![[2.0, -4.0], [2.0, -1.0]]);
    let t = binding(
        InxBindingValues::Transform(flat(1, 1, &[1.0])),
        InxInterpolation::Linear,
        vec![vec![true]],
    );
    assert!(interpolate_binding_deform(&q, &p(0.0, 0.0), &t).is_none());
}

#[test]
fn out_of_range_values_are_absent() {
    let v = flat(2, 2, &[1.0, 2.0, 3.0, 4.0]);
    assert_eq!(v.get(1, 0).map(f), Some(3.0));
    assert!(v.get(2, 1).is_none());
    let d = InxFlatDeform { data: vec![p(1.0, 2.0)], frames: 1, vertices_per_frame: 1 };
    assert_eq!(d.get(0, 0).map(|o| f(o[1])), Some(2.0));
    assert!(d.get(1, 0).is_none());
    assert!(d.get(0, 1).is_none());
}

#[test]
fn values_merge_by_mode() {
    assert_eq!(f(merge_field(s(2.0), s(3.0), InxMergeMode::Additive)), 5.0);
    assert_eq!(f(merge_field(s(2.0), s(3.0), InxMergeMode::Multiply)), 6.0);
    assert_eq!(f(merge_field(s(2.0), s(3.0), InxMergeMode::Override)), 3.0);
    assert_eq!(f(merge_field(s(2.0), s(3.0), InxMergeMode::Forced)), 3.0);
    assert_eq!(f(merge_scale(s(2.0), s(3.0), InxMergeMode::Additive)), 6.0);
    assert_eq!(f(merge_scale(s(2.0), s(3.0), InxMergeMode::Override)), 3.0);
}

#[test]
fn opacities_are_merged() {
    for mode in [InxMergeMode::Multiply, InxMergeMode::Additive] {
        let mut acc = NodeAccum::default();
        acc.accumulate(&InxParamName::Opacity, s(0.5), mode);
        assert_eq!(f(acc.opacity), 0.5);
        acc.accumulate(&InxParamName::Opacity, s(0.5), mode);
        assert_eq!(f(acc.opacity), 0.25);
        assert!(acc.has_opacity);
    }
    let mut acc = NodeAccum::default();
    acc.accumulate(&InxParamName::Opacity, s(0.5), InxMergeMode::Override);
    acc.accumulate(&InxParamName::Opacity, s(0.75), InxMergeMode::Override);
    assert_eq!(f(acc.opacity), 0.75);
}

#[test]
fn accumulation_starts_neutral_and_goes_by_target() {
    let mut acc = NodeAccum::default();
    assert_eq!((f(acc.tx), f(acc.sx), f(acc.opacity)), (0.0, 1.0, 1.0));
    assert!(!acc.has_opacity);
    acc.accumulate(&InxParamName::TransformTX, s(3.0), InxMergeMode::Additive);
    acc.accumulate(&InxParamName::TransformTX, s(4.0), InxMergeMode::Additive);
    acc.accumulate(&InxParamName::TransformRZ, s(0.5), InxMergeMode::Override);
    assert_eq!((f(acc.tx), f(acc.rz)), (7.0, 0.5));
    acc.accumulate(&InxParamName::Opacity, s(0.25), InxMergeMode::Multiply);
    assert!(acc.has_opacity);
    acc.accumulate(&InxParamName::Deform, s(9.0), InxMergeMode::Additive);
    acc.accumulate(&InxParamName::Other, s(9.0), InxMergeMode::Additive);
    assert_eq!((f(acc.ty), f(acc.tz), f(acc.rx), f(acc.ry)), (0.0, 0.0, 0.0, 0.0));
}
