//! Interpolation on the value grids of params, and merging of their effects.

use crate::arith;
use crate::exact;
use crate::model::{
    InxBinding, InxBindingValues, InxFlatDeform, InxFlatTransform, InxInterpolation, InxMergeMode,
    InxParam, InxParamName,
};
use crate::rounding;
use crate::scalar;
use crate::scalar::{Scalar, ONE};
use vstd::prelude::*;

verus! {

/// Linear interpolation.
pub open spec fn lerp_of(a: Scalar, b: Scalar, t: Scalar) -> Scalar {
    a.plus(b.minus(a).times(t))
}

pub fn lerp(a: Scalar, b: Scalar, t: Scalar) -> (r: Scalar)
    ensures
        r == lerp_of(a, b, t),
{
    a.add(b.sub(a).mul(t))
}

/// Cubic Hermite interpolation; `tension` 1 makes the tangents flat.
pub open spec fn hermite_of(a: Scalar, b: Scalar, t: Scalar, tension: Scalar) -> Scalar {
    let one = arith::num(0x3f80_0000);
    let two = arith::num(arith::TWO);
    let three = arith::num(arith::THREE);
    let t2 = t.times(t);
    let t3 = t2.times(t);
    let h1 = two.times(t3).minus(three.times(t2)).plus(one);
    let h2 = two.negated().times(t3).plus(three.times(t2));
    let h3 = t3.minus(two.times(t2)).plus(t);
    let h4 = t3.minus(t2);
    let tangent = one.minus(tension).times(b.minus(a));
    h1.times(a).plus(h2.times(b)).plus(h3.times(tangent)).plus(h4.times(tangent))
}

pub fn cubic_hermite(a: Scalar, b: Scalar, t: Scalar, tension: Scalar) -> (r: Scalar)
    ensures
        r == hermite_of(a, b, t, tension),
{
    let one = Scalar { bits: 0x3f80_0000 };
    let two = Scalar { bits: arith::TWO };
    let three = Scalar { bits: arith::THREE };
    let t2 = t.mul(t);
    let t3 = t2.mul(t);
    let s = one.sub(tension);
    let h1 = two.mul(t3).sub(three.mul(t2)).add(one);
    let h2 = two.neg().mul(t3).add(three.mul(t2));
    let h3 = t3.sub(two.mul(t2)).add(t);
    let h4 = t3.sub(t2);
    let tangent = s.mul(b.sub(a));
    h1.mul(a).add(h2.mul(b)).add(h3.mul(tangent)).add(h4.mul(tangent))
}

/// Smoothstep between 0 and 1.
pub open spec fn eased(t: Scalar) -> Scalar {
    let c = t.clamped(arith::num(0), arith::num(0x3f80_0000));
    c.times(c).times(arith::num(arith::THREE).minus(arith::num(arith::TWO).times(c)))
}

/// Ease in and out, for soft transitions.
pub fn ease_in_out(t: Scalar) -> (r: Scalar)
    ensures
        r == eased(t),
{
    let t = t.clamp(Scalar { bits: 0 }, Scalar { bits: 0x3f80_0000 });
    t.mul(t).mul(Scalar { bits: arith::THREE }.sub(Scalar { bits: arith::TWO }.mul(t)))
}

/// Catmull-Rom interpolation between `p1` and `p2`.
pub open spec fn catmull_of(p0: Scalar, p1: Scalar, p2: Scalar, p3: Scalar, t: Scalar) -> Scalar {
    let two = arith::num(arith::TWO);
    let three = arith::num(arith::THREE);
    let t2 = t.times(t);
    let t3 = t2.times(t);
    let c1 = p0.negated().plus(p2);
    let c2 = two.times(p0).minus(arith::num(arith::FIVE).times(p1)).plus(
        arith::num(arith::FOUR).times(p2),
    ).minus(p3);
    let c3 = p0.negated().plus(three.times(p1)).minus(three.times(p2)).plus(p3);
    arith::num(arith::HALF).times(
        two.times(p1).plus(c1.times(t)).plus(c2.times(t2)).plus(c3.times(t3)),
    )
}

pub fn catmull_rom(p0: Scalar, p1: Scalar, p2: Scalar, p3: Scalar, t: Scalar) -> (r: Scalar)
    ensures
        r == catmull_of(p0, p1, p2, p3, t),
{
    let two = Scalar { bits: arith::TWO };
    let three = Scalar { bits: arith::THREE };
    let t2 = t.mul(t);
    let t3 = t2.mul(t);
    let c1 = p0.neg().add(p2);
    let c2 = two.mul(p0).sub(Scalar { bits: arith::FIVE }.mul(p1)).add(
        Scalar { bits: arith::FOUR }.mul(p2),
    ).sub(p3);
    let c3 = p0.neg().add(three.mul(p1)).sub(three.mul(p2)).add(p3);
    Scalar { bits: arith::HALF }.mul(
        two.mul(p1).add(c1.mul(t)).add(c2.mul(t2)).add(c3.mul(t3)),
    )
}

/// Where a value lies between two ends, as a number from 0 to 1; 0 if the ends
/// are too close to tell.
pub open spec fn portion(x: Scalar, low: Scalar, high: Scalar) -> Scalar {
    let range = high.minus(low);
    if arith::num(arith::EPSILON).less(range.absolute()) {
        x.minus(low).over(range).clamped(arith::num(0), arith::num(0x3f80_0000))
    } else {
        arith::num(0)
    }
}

fn portion_of(x: Scalar, low: Scalar, high: Scalar) -> (r: Scalar)
    ensures
        r == portion(x, low, high),
{
    let zero = Scalar { bits: 0 };
    let range = high.sub(low);
    if (Scalar { bits: arith::EPSILON }).lt(range.abs()) {
        x.sub(low).div(range).clamp(zero, Scalar { bits: 0x3f80_0000 })
    } else {
        zero
    }
}

/// The value of a param on both axes, as numbers from 0 to 1.
pub fn normalize_param(param: &InxParam, value: &[Scalar; 2]) -> (r: (Scalar, Scalar))
    ensures
        r.0 == portion(value[0], param.min[0], param.max[0]),
        r.1 == portion(value[1], param.min[1], param.max[1]),
{
    (
        portion_of(value[0], param.min[0], param.max[0]),
        portion_of(value[1], param.min[1], param.max[1]),
    )
}

/// The first cell from `i` on whose upper end is not below `x`, or else the
/// last cell.
pub open spec fn cell_from(axis: Seq<Scalar>, x: Scalar, i: int) -> int
    decreases axis.len() - i,
{
    if i >= axis.len() - 2 || x.less(axis[i + 1]) || x.same(axis[i + 1]) {
        i
    } else {
        cell_from(axis, x, i + 1)
    }
}

/// The grid cell of a value, and where in the cell it lies.
pub open spec fn grid_pos(axis: Seq<Scalar>, x: Scalar) -> (int, Scalar) {
    if axis.len() <= 1 {
        (0, arith::num(0))
    } else {
        let i = cell_from(axis, x, 0);
        (i, portion(x, axis[i], axis[i + 1]))
    }
}

/// The cell of a value is a cell of the grid.
pub proof fn lemma_cell_in_range(axis: Seq<Scalar>, x: Scalar, i: int)
    requires
        0 <= i,
        i + 2 <= axis.len(),
    ensures
        i <= cell_from(axis, x, i),
        cell_from(axis, x, i) + 2 <= axis.len(),
    decreases axis.len() - i,
{
    if i >= axis.len() - 2 || x.less(axis[i + 1]) || x.same(axis[i + 1]) {
    } else {
        lemma_cell_in_range(axis, x, i + 1);
    }
}

/// Finds the grid cell of a value between 0 and 1.
pub fn find_grid_pos(axis_points: &Vec<Scalar>, normalized: Scalar) -> (r: (usize, Scalar))
    ensures
        (r.0 as int, r.1) == grid_pos(axis_points@, normalized),
        r.0 + 2 <= axis_points@.len() || r.0 == 0,
        r.0 + 2 <= usize::MAX,
{
    let n: usize = axis_points.len();
    if n <= 1 {
        return (0, Scalar { bits: 0 });
    }
    let mut i: usize = 0;
    while i < n - 2 && !normalized.le(axis_points[i + 1])
        invariant
            n == axis_points@.len(),
            n >= 2,
            i <= n - 2,
            cell_from(axis_points@, normalized, 0) == cell_from(
                axis_points@,
                normalized,
                i as int,
            ),
        decreases n - i,
    {
        i = i + 1;
    }
    (i, portion_of(normalized, axis_points[i], axis_points[i + 1]))
}

/// The smaller of two indices.
pub open spec fn at_most(i: int, max: int) -> int {
    if i <= max {
        i
    } else {
        max
    }
}

fn least(i: usize, max: usize) -> (r: usize)
    ensures
        r == at_most(i as int, max as int),
{
    if i <= max {
        i
    } else {
        max
    }
}

/// The grid has points, and their indices can be computed.
pub open spec fn usable(flat: InxFlatTransform) -> bool {
    &&& flat.frames > 0
    &&& flat.values_per_frame > 0
    &&& flat.data@.len() > 0
    &&& flat.frames * flat.values_per_frame <= usize::MAX
}

/// The value at a grid point; 0 where the data ends early.
pub open spec fn sample(flat: InxFlatTransform, x: int, y: int) -> Scalar {
    let at = x * flat.values_per_frame + y;
    if at < flat.data@.len() {
        flat.data@[at]
    } else {
        arith::num(0)
    }
}

fn sample_at(flat: &InxFlatTransform, x: usize, y: usize) -> (r: Scalar)
    requires
        usable(*flat),
        x < flat.frames,
        y < flat.values_per_frame,
    ensures
        r == sample(*flat, x as int, y as int),
{
    assert(x * flat.values_per_frame + y <= flat.frames * flat.values_per_frame)
        by (nonlinear_arith)
        requires
            0 <= x <= flat.frames - 1,
            0 <= y < flat.values_per_frame,
    ;
    assert(x * flat.values_per_frame >= 0) by (nonlinear_arith);
    match flat.get(x, y) {
        Some(v) => v,
        None => Scalar { bits: 0 },
    }
}

/// Whether a grid point is authored; `outside` for points beyond the flags.
pub open spec fn authored(is_set: Seq<Vec<bool>>, x: int, y: int, outside: bool) -> bool {
    if 0 <= x < is_set.len() && 0 <= y < is_set[x]@.len() {
        is_set[x]@[y]
    } else {
        outside
    }
}

fn is_authored(is_set: &Vec<Vec<bool>>, x: usize, y: usize, outside: bool) -> (r: bool)
    ensures
        r == authored(is_set@, x as int, y as int, outside),
{
    if x < is_set.len() && y < is_set[x].len() {
        is_set[x][y]
    } else {
        outside
    }
}

/// The square of the distance between two grid points.
pub open spec fn gap(a: (int, int), b: (int, int)) -> int {
    (a.0 - b.0) * (a.0 - b.0) + (a.1 - b.1) * (a.1 - b.1)
}

/// Grid point `a` stands before `b`, row by row.
pub open spec fn earlier(a: (int, int), b: (int, int)) -> bool {
    a.0 < b.0 || (a.0 == b.0 && a.1 < b.1)
}

/// For a search around `c`, point `p` comes before point `o` or is it.
pub open spec fn beats(p: (int, int), o: (int, int), c: (int, int)) -> bool {
    gap(p, c) < gap(o, c) || (gap(p, c) == gap(o, c) && !earlier(o, p))
}

/// An authored grid point inside the grid.
pub open spec fn candidate(is_set: Seq<Vec<bool>>, max: (int, int), p: (int, int)) -> bool {
    0 <= p.0 <= max.0 && 0 <= p.1 <= max.1 && authored(is_set, p.0, p.1, false)
}

/// The authored grid point nearest to `c`; of equally near ones the first.
pub open spec fn is_nearest_point(
    is_set: Seq<Vec<bool>>,
    max: (int, int),
    c: (int, int),
    p: (int, int),
) -> bool {
    &&& candidate(is_set, max, p)
    &&& forall|o: (int, int)| #[trigger]
        candidate(is_set, max, o) ==> beats(p, o, c)
}

/// The value of the nearest authored grid point, or 0 if none is authored.
pub open spec fn nearest_value(
    flat: InxFlatTransform,
    is_set: Seq<Vec<bool>>,
    max: (int, int),
    c: (int, int),
) -> Scalar {
    if exists|p: (int, int)| is_nearest_point(is_set, max, c, p) {
        let p = choose|p: (int, int)| is_nearest_point(is_set, max, c, p);
        sample(flat, p.0, p.1)
    } else {
        arith::num(0)
    }
}

proof fn lemma_nearest_point_unique(
    is_set: Seq<Vec<bool>>,
    max: (int, int),
    c: (int, int),
    p: (int, int),
    q: (int, int),
)
    requires
        is_nearest_point(is_set, max, c, p),
        is_nearest_point(is_set, max, c, q),
    ensures
        p == q,
{
    assert(candidate(is_set, max, p) && candidate(is_set, max, q));
}

/// Squared distances between the points of a grid fit in 128 bits.
proof fn lemma_measurable(flat: InxFlatTransform)
    requires
        usable(flat),
    ensures
        (flat.frames - 1) * (flat.frames - 1) + (flat.values_per_frame - 1) * (
        flat.values_per_frame - 1) < u128::MAX,
{
    let a = flat.frames - 1;
    let b = flat.values_per_frame - 1;
    let all = flat.frames * flat.values_per_frame;
    assert(a + b <= all) by (nonlinear_arith)
        requires
            a >= 0,
            b >= 0,
            all == (a + 1) * (b + 1),
    ;
    assert(a * a + b * b <= (a + b) * (a + b)) by (nonlinear_arith)
        requires
            a >= 0,
            b >= 0,
    ;
    let sum = a + b;
    assert(sum * sum <= 0xffff_ffff_ffff_ffff * 0xffff_ffff_ffff_ffff) by (nonlinear_arith)
        requires
            0 <= sum <= 0xffff_ffff_ffff_ffff,
    ;
}

/// Searches the authored grid point nearest to `(cx, cy)` and gives its value.
pub fn find_nearest_set_value(
    flat: &InxFlatTransform,
    is_set: &Vec<Vec<bool>>,
    cx: usize,
    cy: usize,
) -> (r: Scalar)
    requires
        usable(*flat),
        cx < flat.frames,
        cy < flat.values_per_frame,
    ensures
        r == nearest_value(
            *flat,
            is_set@,
            (flat.frames - 1, flat.values_per_frame - 1),
            (cx as int, cy as int),
        ),
{
    let ghost max = (flat.frames - 1, flat.values_per_frame - 1);
    let ghost c = (cx as int, cy as int);
    let mut best_dist: u128 = u128::MAX;
    proof {
        lemma_measurable(*flat);
    }
    let mut best_val = Scalar { bits: 0 };
    let ghost mut best: Option<(int, int)> = None;
    let mut x: usize = 0;
    while x < flat.frames
        invariant
            usable(*flat),
            cx < flat.frames,
            cy < flat.values_per_frame,
            max == (flat.frames - 1, flat.values_per_frame - 1),
            c == (cx as int, cy as int),
            max.0 * max.0 + max.1 * max.1 < u128::MAX,
            x <= flat.frames,
            best is None ==> best_dist == u128::MAX && best_val == arith::num(0),
            best matches Some(p) ==> {
                &&& candidate(is_set@, max, p)
                &&& best_dist == gap(p, c)
                &&& best_val == sample(*flat, p.0, p.1)
                &&& p.0 < x
            },
            forall|o: (int, int)| #[trigger]
                candidate(is_set@, max, o) && o.0 < x ==> best is Some && beats(best->0, o, c),
        decreases flat.frames - x,
    {
        let mut y: usize = 0;
        while y < flat.values_per_frame
            invariant
                usable(*flat),
                cx < flat.frames,
                cy < flat.values_per_frame,
                max == (flat.frames - 1, flat.values_per_frame - 1),
                c == (cx as int, cy as int),
                max.0 * max.0 + max.1 * max.1 < u128::MAX,
                x < flat.frames,
                y <= flat.values_per_frame,
                best is None ==> best_dist == u128::MAX && best_val == arith::num(0),
                best matches Some(p) ==> {
                    &&& candidate(is_set@, max, p)
                    &&& best_dist == gap(p, c)
                    &&& best_val == sample(*flat, p.0, p.1)
                    &&& earlier(p, (x as int, y as int))
                },
                forall|o: (int, int)| #[trigger]
                    candidate(is_set@, max, o) && earlier(o, (x as int, y as int)) ==> best is Some
                        && beats(best->0, o, c),
            decreases flat.values_per_frame - y,
        {
            if is_authored(is_set, x, y, false) {
                let ghost here = (x as int, y as int);
                let across: usize = if x >= cx {
                    x - cx
                } else {
                    cx - x
                };
                let along: usize = if y >= cy {
                    y - cy
                } else {
                    cy - y
                };
                proof {
                    let a = across as int;
                    let b = along as int;
                    assert(0 <= a * a <= max.0 * max.0) by (nonlinear_arith)
                        requires
                            0 <= a <= max.0,
                    ;
                    assert(0 <= b * b <= max.1 * max.1) by (nonlinear_arith)
                        requires
                            0 <= b <= max.1,
                    ;
                    assert(a <= a * a) by (nonlinear_arith)
                        requires
                            0 <= a,
                    ;
                    assert(b <= b * b) by (nonlinear_arith)
                        requires
                            0 <= b,
                    ;
                    assert((x - cx) * (x - cx) == a * a) by (nonlinear_arith)
                        requires
                            a == x - cx || a == cx - x,
                    ;
                    assert((y - cy) * (y - cy) == b * b) by (nonlinear_arith)
                        requires
                            b == y - cy || b == cy - y,
                    ;
                    assert(gap(here, c) == a * a + b * b);
                    assert(candidate(is_set@, max, here));
                }
                let dx: u128 = across as u128;
                let dy: u128 = along as u128;
                let dist: u128 = dx * dx + dy * dy;
                if dist < best_dist {
                    best_dist = dist;
                    best_val = sample_at(flat, x, y);
                    proof {
                        best = Some(here);
                    }
                }
            }
            y = y + 1;
        }
        x = x + 1;
    }
    proof {
        if let Some(p) = best {
            assert(is_nearest_point(is_set@, max, c, p));
            let q = choose|p: (int, int)| is_nearest_point(is_set@, max, c, p);
            lemma_nearest_point_unique(is_set@, max, c, p, q);
        } else {
            assert forall|p: (int, int)| !is_nearest_point(is_set@, max, c, p) by {
                if is_nearest_point(is_set@, max, c, p) {
                    assert(candidate(is_set@, max, p));
                }
            }
        }
    }
    best_val
}

/// The value of a grid point: its own if it is authored, or else that of the
/// nearest authored one. Without flags every point is authored.
pub open spec fn point_value(
    flat: InxFlatTransform,
    is_set: Seq<Vec<bool>>,
    x: int,
    y: int,
) -> Scalar {
    if is_set.len() == 0 || authored(is_set, x, y, true) {
        sample(flat, x, y)
    } else {
        nearest_value(flat, is_set, (flat.frames - 1, flat.values_per_frame - 1), (x, y))
    }
}

fn resolve_point(flat: &InxFlatTransform, is_set: &Vec<Vec<bool>>, x: usize, y: usize) -> (r:
    Scalar)
    requires
        usable(*flat),
        x < flat.frames,
        y < flat.values_per_frame,
    ensures
        r == point_value(*flat, is_set@, x as int, y as int),
{
    if is_set.len() == 0 || is_authored(is_set, x, y, true) {
        sample_at(flat, x, y)
    } else {
        find_nearest_set_value(flat, is_set, x, y)
    }
}

/// The values at the corners of a cell: here, right, down, and both.
pub open spec fn corners(flat: InxFlatTransform, is_set: Seq<Vec<bool>>, ix: int, iy: int) -> [Scalar;
    4] {
    let x0 = at_most(ix, flat.frames - 1);
    let x1 = at_most(ix + 1, flat.frames - 1);
    let y0 = at_most(iy, flat.values_per_frame - 1);
    let y1 = at_most(iy + 1, flat.values_per_frame - 1);
    [
        point_value(flat, is_set, x0, y0),
        point_value(flat, is_set, x1, y0),
        point_value(flat, is_set, x0, y1),
        point_value(flat, is_set, x1, y1),
    ]
}

/// Gives the corners of a cell their values.
pub fn resolve_is_set_scalar(
    flat: &InxFlatTransform,
    is_set: &Vec<Vec<bool>>,
    ix: usize,
    iy: usize,
) -> (r: [Scalar; 4])
    requires
        usable(*flat),
        ix < usize::MAX,
        iy < usize::MAX,
    ensures
        r == corners(*flat, is_set@, ix as int, iy as int),
{
    let max_x: usize = flat.frames - 1;
    let max_y: usize = flat.values_per_frame - 1;
    let x0: usize = least(ix, max_x);
    let x1: usize = least(ix + 1, max_x);
    let y0: usize = least(iy, max_y);
    let y1: usize = least(iy + 1, max_y);
    [
        resolve_point(flat, is_set, x0, y0),
        resolve_point(flat, is_set, x1, y0),
        resolve_point(flat, is_set, x0, y1),
        resolve_point(flat, is_set, x1, y1),
    ]
}

/// Interpolation in a cell, from its corners. Stepped takes the nearer corner;
/// cubic would need more neighbours and is linear here.
pub open spec fn in_cell(c: [Scalar; 4], fx: Scalar, fy: Scalar, mode: InxInterpolation) -> Scalar {
    let half = arith::num(arith::HALF);
    match mode {
        InxInterpolation::Stepped => if fx.less(half) {
            if fy.less(half) {
                c[0]
            } else {
                c[2]
            }
        } else {
            if fy.less(half) {
                c[1]
            } else {
                c[3]
            }
        },
        _ => lerp_of(lerp_of(c[0], c[1], fx), lerp_of(c[2], c[3], fx), fy),
    }
}

pub fn interpolate_2d(corners: [Scalar; 4], fx: Scalar, fy: Scalar, mode: InxInterpolation) -> (r:
    Scalar)
    ensures
        r == in_cell(corners, fx, fy, mode),
{
    let half = Scalar { bits: arith::HALF };
    match mode {
        InxInterpolation::Stepped => {
            let right = !fx.lt(half);
            let down = !fy.lt(half);
            if !right && !down {
                corners[0]
            } else if right && !down {
                corners[1]
            } else if !right {
                corners[2]
            } else {
                corners[3]
            }
        },
        _ => {
            let top = lerp(corners[0], corners[1], fx);
            let bottom = lerp(corners[2], corners[3], fx);
            lerp(top, bottom, fy)
        },
    }
}

/// Interpolation in a cell, for both components of the corners.
pub open spec fn in_cell_vec2(
    c: [[Scalar; 2]; 4],
    fx: Scalar,
    fy: Scalar,
    mode: InxInterpolation,
) -> [Scalar; 2] {
    [
        in_cell([c[0][0], c[1][0], c[2][0], c[3][0]], fx, fy, mode),
        in_cell([c[0][1], c[1][1], c[2][1], c[3][1]], fx, fy, mode),
    ]
}

pub fn interpolate_2d_vec2(
    corners: [[Scalar; 2]; 4],
    fx: Scalar,
    fy: Scalar,
    mode: InxInterpolation,
) -> (r: [Scalar; 2])
    ensures
        r == in_cell_vec2(corners, fx, fy, mode),
{
    let a = corners[0];
    let b = corners[1];
    let c = corners[2];
    let d = corners[3];
    [
        interpolate_2d([a[0], b[0], c[0], d[0]], fx, fy, mode),
        interpolate_2d([a[1], b[1], c[1], d[1]], fx, fy, mode),
    ]
}

/// The authored point on a line nearest to `x`, from distance `dist` on; on the
/// left before the right. Without one, `x` itself.
pub open spec fn along(is_set: Seq<Vec<bool>>, x: int, max: int, dist: int) -> int
    decreases max + 1 - dist,
{
    if dist > max {
        x
    } else if x >= dist && authored(is_set, x - dist, 0, false) {
        x - dist
    } else if x + dist <= max && authored(is_set, x + dist, 0, false) {
        x + dist
    } else {
        along(is_set, x, max, dist + 1)
    }
}

/// The point of a line whose value stands for point `x`.
pub open spec fn line_point(is_set: Seq<Vec<bool>>, x: int, max: int) -> int {
    if is_set.len() == 0 || authored(is_set, x, 0, true) {
        x
    } else {
        along(is_set, x, max, 1)
    }
}

/// The value of a point of a line. Points beyond the end have the last value.
pub open spec fn line_value(flat: InxFlatTransform, is_set: Seq<Vec<bool>>, x: int) -> Scalar {
    sample(flat, at_most(line_point(is_set, x, flat.frames - 1), flat.frames - 1), 0)
}

/// Gives a point of a line its value.
pub fn resolve_1d_value(flat: &InxFlatTransform, is_set: &Vec<Vec<bool>>, x: usize) -> (r: Scalar)
    requires
        usable(*flat),
    ensures
        r == line_value(*flat, is_set@, x as int),
{
    let max: usize = flat.frames - 1;
    if is_set.len() == 0 || is_authored(is_set, x, 0, true) {
        return sample_at(flat, least(x, max), 0);
    }
    let mut dist: usize = 1;
    while dist <= max
        invariant
            usable(*flat),
            max == flat.frames - 1,
            1 <= dist <= max + 1,
            line_point(is_set@, x as int, max as int) == along(
                is_set@,
                x as int,
                max as int,
                dist as int,
            ),
        decreases max + 1 - dist,
    {
        if x >= dist && is_authored(is_set, x - dist, 0, false) {
            return sample_at(flat, least(x - dist, max), 0);
        }
        if x <= max - dist && is_authored(is_set, x + dist, 0, false) {
            return sample_at(flat, x + dist, 0);
        }
        dist = dist + 1;
    }
    sample_at(flat, least(x, max), 0)
}

/// The value of a scalar binding for a value of its param.
pub open spec fn binding_value(param: InxParam, value: [Scalar; 2], binding: InxBinding) -> Scalar {
    match binding.values {
        InxBindingValues::Transform(flat) => if flat.frames == 0 || flat.values_per_frame == 0
            || flat.data@.len() == 0 {
            arith::num(0)
        } else {
            let nx = portion(value[0], param.min[0], param.max[0]);
            let ny = portion(value[1], param.min[1], param.max[1]);
            let (ix, fx) = grid_pos(param.axis_points[0]@, nx);
            if param.is_vec2 && param.axis_points[1]@.len() > 1 {
                let (iy, fy) = grid_pos(param.axis_points[1]@, ny);
                in_cell(corners(flat, binding.is_set@, ix, iy), fx, fy, binding.interpolation)
            } else {
                let max = flat.frames - 1;
                let v0 = line_value(flat, binding.is_set@, ix);
                let v1 = line_value(flat, binding.is_set@, at_most(ix + 1, max));
                match binding.interpolation {
                    InxInterpolation::Stepped => v0,
                    InxInterpolation::Linear => lerp_of(v0, v1, fx),
                    InxInterpolation::Cubic => {
                        let before = if ix > 0 {
                            line_value(flat, binding.is_set@, ix - 1)
                        } else {
                            v0
                        };
                        let after = line_value(flat, binding.is_set@, at_most(ix + 2, max));
                        catmull_of(before, v0, v1, after, fx)
                    },
                }
            }
        },
        _ => arith::num(0),
    }
}

/// Interpolates the value of a scalar binding, honouring authored flags and the
/// interpolation mode.
pub fn interpolate_binding(param: &InxParam, value: &[Scalar; 2], binding: &InxBinding) -> (r:
    Scalar)
    requires
        addressable(*param, *binding),
    ensures
        r == binding_value(*param, *value, *binding),
{
    let flat = match &binding.values {
        InxBindingValues::Transform(flat) => flat,
        _ => {
            return Scalar { bits: 0 };
        },
    };
    if flat.frames == 0 || flat.values_per_frame == 0 || flat.data.len() == 0 {
        return Scalar { bits: 0 };
    }
    let (nx, ny) = normalize_param(param, value);
    let (ix, fx) = find_grid_pos(&param.axis_points[0], nx);
    if param.is_vec2 && param.axis_points[1].len() > 1 {
        let (iy, fy) = find_grid_pos(&param.axis_points[1], ny);
        let c = resolve_is_set_scalar(flat, &binding.is_set, ix, iy);
        interpolate_2d(c, fx, fy, binding.interpolation)
    } else {
        let max: usize = flat.frames - 1;
        let v0 = resolve_1d_value(flat, &binding.is_set, ix);
        let v1 = resolve_1d_value(flat, &binding.is_set, least(ix + 1, max));
        match binding.interpolation {
            InxInterpolation::Stepped => v0,
            InxInterpolation::Linear => lerp(v0, v1, fx),
            InxInterpolation::Cubic => {
                let before = if ix > 0 {
                    resolve_1d_value(flat, &binding.is_set, ix - 1)
                } else {
                    v0
                };
                let after = resolve_1d_value(flat, &binding.is_set, least(ix + 2, max));
                catmull_rom(before, v0, v1, after, fx)
            },
        }
    }
}

/// How many offsets of a deform binding belong to one grid point.
pub open spec fn vertices_of(param: InxParam, flat: InxFlatDeform) -> int {
    if param.is_vec2 && param.axis_points[1]@.len() > 1 {
        flat.vertices_per_frame as int / param.axis_points[1]@.len() as int
    } else {
        flat.vertices_per_frame as int
    }
}

/// Where in the data the offset of a vertex stands, for a grid point. Points
/// beyond the grid stand for the last.
pub open spec fn offset_place(param: InxParam, flat: InxFlatDeform, x: int, y: int, v: int) -> int {
    let rows = param.axis_points[1]@.len() as int;
    let xi = at_most(
        x,
        if param.axis_points[0]@.len() > 0 {
            param.axis_points[0]@.len() - 1
        } else {
            0
        },
    );
    let yi = at_most(
        y,
        if rows > 0 {
            rows - 1
        } else {
            0
        },
    );
    if param.is_vec2 && rows > 1 {
        xi * flat.vertices_per_frame + yi * (flat.vertices_per_frame as int / rows) + v
    } else {
        (xi * rows + yi) * flat.vertices_per_frame + v
    }
}

/// The offset at a place; none where the data ends early.
pub open spec fn offset_at(flat: InxFlatDeform, place: int) -> [Scalar; 2] {
    if place < flat.data@.len() {
        flat.data@[place]
    } else {
        [arith::num(0), arith::num(0)]
    }
}

/// The offset of a vertex, with Y turned up.
pub open spec fn vertex_offset(
    param: InxParam,
    flat: InxFlatDeform,
    mode: InxInterpolation,
    nx: Scalar,
    ny: Scalar,
    v: int,
) -> [Scalar; 2] {
    let (ix, fx) = grid_pos(param.axis_points[0]@, nx);
    if param.is_vec2 && param.axis_points[1]@.len() > 1 {
        let (iy, fy) = grid_pos(param.axis_points[1]@, ny);
        let r = in_cell_vec2(
            [
                offset_at(flat, offset_place(param, flat, ix, iy, v)),
                offset_at(flat, offset_place(param, flat, ix + 1, iy, v)),
                offset_at(flat, offset_place(param, flat, ix, iy + 1, v)),
                offset_at(flat, offset_place(param, flat, ix + 1, iy + 1, v)),
            ],
            fx,
            fy,
            mode,
        );
        [r[0], r[1].negated()]
    } else {
        let a = offset_at(flat, offset_place(param, flat, ix, 0, v));
        let b = offset_at(flat, offset_place(param, flat, ix + 1, 0, v));
        match mode {
            InxInterpolation::Stepped => [a[0], a[1].negated()],
            _ => [lerp_of(a[0], b[0], fx), lerp_of(a[1], b[1], fx).negated()],
        }
    }
}

/// The offsets of a deform binding for a value of its param, if it has any.
pub open spec fn binding_offsets(param: InxParam, value: [Scalar; 2], binding: InxBinding) -> Option<
    Seq<[Scalar; 2]>,
> {
    match binding.values {
        InxBindingValues::Deform(flat) => if flat.data@.len() == 0 || flat.frames == 0
            || flat.vertices_per_frame == 0 {
            None
        } else {
            Some(grid_offsets(param, value, flat, binding.interpolation))
        },
        _ => None,
    }
}

/// How many points an axis has; one at least.
pub open spec fn points_on(axis: Seq<Scalar>) -> int {
    if axis.len() > 0 {
        axis.len() as int
    } else {
        1
    }
}

/// Places in the data of a deform binding can be computed.
pub open spec fn placeable(param: InxParam, flat: InxFlatDeform) -> bool {
    let columns = points_on(param.axis_points[0]@);
    let rows = points_on(param.axis_points[1]@);
    (columns * rows) * flat.vertices_per_frame <= usize::MAX
}

/// Places in the data of a binding can be computed.
pub open spec fn addressable(param: InxParam, binding: InxBinding) -> bool {
    match binding.values {
        InxBindingValues::Transform(flat) => flat.frames * flat.values_per_frame <= usize::MAX,
        InxBindingValues::Deform(flat) => placeable(param, flat),
        InxBindingValues::Other => true,
    }
}

/// Whether places in the data of a binding can be computed.
pub fn is_addressable(param: &InxParam, binding: &InxBinding) -> (r: bool)
    ensures
        r == addressable(*param, *binding),
{
    match &binding.values {
        InxBindingValues::Transform(flat) => flat.frames.checked_mul(
            flat.values_per_frame,
        ).is_some(),
        InxBindingValues::Deform(flat) => {
            let per: usize = flat.vertices_per_frame;
            if per == 0 {
                assert(placeable(*param, *flat)) by (nonlinear_arith)
                    requires
                        flat.vertices_per_frame == 0,
                ;
                return true;
            }
            let columns: usize = points_of(&param.axis_points[0]);
            let rows: usize = points_of(&param.axis_points[1]);
            match columns.checked_mul(rows) {
                Some(all) => all.checked_mul(per).is_some(),
                None => {
                    let ghost all = columns * rows;
                    assert(all * per > usize::MAX) by (nonlinear_arith)
                        requires
                            all > usize::MAX,
                            per >= 1,
                    ;
                    false
                },
            }
        },
        InxBindingValues::Other => true,
    }
}

fn points_of(axis: &Vec<Scalar>) -> (r: usize)
    ensures
        r == points_on(axis@),
{
    if axis.len() > 0 {
        axis.len()
    } else {
        1
    }
}

fn get_vertex(param: &InxParam, flat: &InxFlatDeform, x: usize, y: usize, v: usize) -> (r: [Scalar;
    2])
    requires
        placeable(*param, *flat),
        0 <= v < vertices_of(*param, *flat),
    ensures
        r == offset_at(*flat, offset_place(*param, *flat, x as int, y as int, v as int)),
{
    let columns: usize = param.axis_points[0].len();
    let rows: usize = param.axis_points[1].len();
    let xi: usize = least(
        x,
        if columns > 0 {
            columns - 1
        } else {
            0
        },
    );
    let yi: usize = least(
        y,
        if rows > 0 {
            rows - 1
        } else {
            0
        },
    );
    let per: usize = flat.vertices_per_frame;
    let place: usize = if param.is_vec2 && rows > 1 {
        let each: usize = per / rows;
        proof {
            vstd::arithmetic::div_mod::lemma_fundamental_div_mod(per as int, rows as int);
            let c1 = points_on(param.axis_points[0]@);
            let all = c1 * rows;
            assert(0 <= xi * per && 0 <= yi * each && yi * each + each <= per && xi * per + per
                <= all * per) by (nonlinear_arith)
                requires
                    0 <= xi <= c1 - 1,
                    0 <= yi <= rows - 1,
                    per == rows * each + per as int % rows as int,
                    per as int % rows as int >= 0,
                    each >= 0,
                    per >= 0,
                    rows >= 1,
                    all == c1 * rows,
            ;
        }
        xi * per + yi * each + v
    } else {
        proof {
            let c1 = points_on(param.axis_points[0]@);
            let r1 = points_on(param.axis_points[1]@);
            let all = c1 * r1;
            assert(0 <= xi * rows && xi * rows + yi + 1 <= all) by (nonlinear_arith)
                requires
                    0 <= xi <= c1 - 1,
                    0 <= yi <= r1 - 1,
                    0 <= rows <= r1,
                    all == c1 * r1,
            ;
            let line = xi * rows + yi;
            assert(line <= line * per && line * per + per <= all * per) by (nonlinear_arith)
                requires
                    0 <= line,
                    line + 1 <= all,
                    per >= 1,
            ;
        }
        (xi * rows + yi) * per + v
    };
    if place < flat.data.len() {
        flat.data[place]
    } else {
        [Scalar { bits: 0 }, Scalar { bits: 0 }]
    }
}

/// The offsets of all vertices for a value of a param.
pub open spec fn grid_offsets(
    param: InxParam,
    value: [Scalar; 2],
    flat: InxFlatDeform,
    mode: InxInterpolation,
) -> Seq<[Scalar; 2]> {
    let nx = portion(value[0], param.min[0], param.max[0]);
    let ny = portion(value[1], param.min[1], param.max[1]);
    Seq::new(
        vertices_of(param, flat) as nat,
        |v: int| vertex_offset(param, flat, mode, nx, ny, v),
    )
}

/// Interpolates the offsets of all vertices of a grid that is not empty.
fn interpolate_grid(
    param: &InxParam,
    value: &[Scalar; 2],
    flat: &InxFlatDeform,
    mode: InxInterpolation,
) -> (r: Vec<[Scalar; 2]>)
    requires
        placeable(*param, *flat),
    ensures
        r@ == grid_offsets(*param, *value, *flat, mode),
{
    let (nx, ny) = normalize_param(param, value);
    let rows: usize = param.axis_points[1].len();
    let (ix, fx) = find_grid_pos(&param.axis_points[0], nx);
    let two_d = param.is_vec2 && rows > 1;
    let (iy, fy) = if two_d {
        find_grid_pos(&param.axis_points[1], ny)
    } else {
        (0, Scalar { bits: 0 })
    };
    let count: usize = if two_d {
        flat.vertices_per_frame / rows
    } else {
        flat.vertices_per_frame
    };
    let ghost want = grid_offsets(*param, *value, *flat, mode);
    let mut result: Vec<[Scalar; 2]> = Vec::new();
    let mut v: usize = 0;
    while v < count
        invariant
            v <= count,
            count == vertices_of(*param, *flat),
            placeable(*param, *flat),
            rows == param.axis_points[1]@.len(),
            two_d == (param.is_vec2 && rows > 1),
            ix < usize::MAX,
            iy < usize::MAX,
            (ix as int, fx) == grid_pos(param.axis_points[0]@, nx),
            two_d ==> (iy as int, fy) == grid_pos(param.axis_points[1]@, ny),
            want == Seq::new(
                count as nat,
                |v: int| vertex_offset(*param, *flat, mode, nx, ny, v),
            ),
            result@ == want.take(v as int),
        decreases count - v,
    {
        let offset = if two_d {
            let c = [
                get_vertex(param, flat, ix, iy, v),
                get_vertex(param, flat, ix + 1, iy, v),
                get_vertex(param, flat, ix, iy + 1, v),
                get_vertex(param, flat, ix + 1, iy + 1, v),
            ];
            let r = interpolate_2d_vec2(c, fx, fy, mode);
            [r[0], r[1].neg()]
        } else {
            let a = get_vertex(param, flat, ix, 0, v);
            let b = get_vertex(param, flat, ix + 1, 0, v);
            match mode {
                InxInterpolation::Stepped => [a[0], a[1].neg()],
                _ => [lerp(a[0], b[0], fx), lerp(a[1], b[1], fx).neg()],
            }
        };
        result.push(offset);
        v = v + 1;
        assert(result@ =~= want.take(v as int));
    }
    assert(result@ =~= want);
    result
}

/// Interpolates the vertex offsets of a deform binding.
pub fn interpolate_binding_deform(
    param: &InxParam,
    value: &[Scalar; 2],
    binding: &InxBinding,
) -> (r: Option<Vec<[Scalar; 2]>>)
    requires
        addressable(*param, *binding),
    ensures
        match binding_offsets(*param, *value, *binding) {
            Some(offsets) => r matches Some(v) && v@ == offsets,
            None => r is None,
        },
{
    let flat = match &binding.values {
        InxBindingValues::Deform(flat) => flat,
        _ => {
            return None;
        },
    };
    if flat.data.len() == 0 || flat.frames == 0 || flat.vertices_per_frame == 0 {
        return None;
    }
    Some(interpolate_grid(param, value, flat, binding.interpolation))
}

/// Vertex offsets accumulated for a node.
#[derive(Debug)]
pub struct DeformAccum {
    pub offsets: Vec<[Scalar; 2]>,
}

/// The effects of params accumulated for a node.
#[derive(Debug, Clone, Copy, PartialEq, Eq, Structural)]
pub struct NodeAccum {
    pub tx: Scalar,
    pub ty: Scalar,
    pub tz: Scalar,
    pub sx: Scalar,
    pub sy: Scalar,
    pub rx: Scalar,
    pub ry: Scalar,
    pub rz: Scalar,
    pub opacity: Scalar,
    pub has_opacity: bool,
}

/// No effect at all.
pub open spec fn no_effect() -> NodeAccum {
    let zero = arith::num(0);
    let one = arith::num(0x3f80_0000);
    NodeAccum {
        tx: zero,
        ty: zero,
        tz: zero,
        sx: one,
        sy: one,
        rx: zero,
        ry: zero,
        rz: zero,
        opacity: one,
        has_opacity: false,
    }
}

impl Default for NodeAccum {
    fn default() -> (r: NodeAccum)
        ensures
            r == no_effect(),
    {
        let zero = Scalar { bits: 0 };
        let one = Scalar { bits: 0x3f80_0000 };
        NodeAccum {
            tx: zero,
            ty: zero,
            tz: zero,
            sx: one,
            sy: one,
            rx: zero,
            ry: zero,
            rz: zero,
            opacity: one,
            has_opacity: false,
        }
    }
}

/// A field with a value merged in.
pub open spec fn merged(field: Scalar, value: Scalar, mode: InxMergeMode) -> Scalar {
    match mode {
        InxMergeMode::Additive => field.plus(value),
        InxMergeMode::Multiply => field.times(value),
        _ => value,
    }
}

/// A scale with a value merged in. A scale rests at 1, so adding multiplies.
pub open spec fn merged_scale(field: Scalar, value: Scalar, mode: InxMergeMode) -> Scalar {
    match mode {
        InxMergeMode::Additive => field.times(value),
        InxMergeMode::Multiply => field.times(value),
        _ => value,
    }
}

pub fn merge_field(field: Scalar, value: Scalar, mode: InxMergeMode) -> (r: Scalar)
    ensures
        r == merged(field, value, mode),
{
    match mode {
        InxMergeMode::Additive => field.add(value),
        InxMergeMode::Multiply => field.mul(value),
        _ => value,
    }
}

pub fn merge_scale(field: Scalar, value: Scalar, mode: InxMergeMode) -> (r: Scalar)
    ensures
        r == merged_scale(field, value, mode),
{
    match mode {
        InxMergeMode::Additive => field.mul(value),
        InxMergeMode::Multiply => field.mul(value),
        _ => value,
    }
}

/// The effects with those of one more binding. An opacity rests at 1, as a scale
/// does, and is merged as one: a first value is taken as it is in every mode.
pub open spec fn accumulated(
    a: NodeAccum,
    name: InxParamName,
    value: Scalar,
    mode: InxMergeMode,
) -> NodeAccum {
    match name {
        InxParamName::TransformTX => NodeAccum { tx: merged(a.tx, value, mode), ..a },
        InxParamName::TransformTY => NodeAccum { ty: merged(a.ty, value, mode), ..a },
        InxParamName::TransformTZ => NodeAccum { tz: merged(a.tz, value, mode), ..a },
        InxParamName::TransformSX => NodeAccum { sx: merged_scale(a.sx, value, mode), ..a },
        InxParamName::TransformSY => NodeAccum { sy: merged_scale(a.sy, value, mode), ..a },
        InxParamName::TransformRX => NodeAccum { rx: merged(a.rx, value, mode), ..a },
        InxParamName::TransformRY => NodeAccum { ry: merged(a.ry, value, mode), ..a },
        InxParamName::TransformRZ => NodeAccum { rz: merged(a.rz, value, mode), ..a },
        InxParamName::Opacity => NodeAccum {
            opacity: merged_scale(a.opacity, value, mode),
            has_opacity: true,
            ..a
        },
        _ => a,
    }
}

impl NodeAccum {
    /// Takes in the value of a binding, by the merge mode of its param.
    pub fn accumulate(&mut self, param_name: &InxParamName, value: Scalar, merge_mode: InxMergeMode)
        ensures
            *final(self) == accumulated(*old(self), *param_name, value, merge_mode),
    {
        match param_name {
            InxParamName::TransformTX => {
                self.tx = merge_field(self.tx, value, merge_mode);
            },
            InxParamName::TransformTY => {
                self.ty = merge_field(self.ty, value, merge_mode);
            },
            InxParamName::TransformTZ => {
                self.tz = merge_field(self.tz, value, merge_mode);
            },
            InxParamName::TransformSX => {
                self.sx = merge_scale(self.sx, value, merge_mode);
            },
            InxParamName::TransformSY => {
                self.sy = merge_scale(self.sy, value, merge_mode);
            },
            InxParamName::TransformRX => {
                self.rx = merge_field(self.rx, value, merge_mode);
            },
            InxParamName::TransformRY => {
                self.ry = merge_field(self.ry, value, merge_mode);
            },
            InxParamName::TransformRZ => {
                self.rz = merge_field(self.rz, value, merge_mode);
            },
            InxParamName::Opacity => {
                self.opacity = merge_scale(self.opacity, value, merge_mode);
                self.has_opacity = true;
            },
            _ => {},
        }
    }
}

/// The way from one number to another can be gone: the difference, added to the
/// first, gives the second.
pub open spec fn meets(a: Scalar, b: Scalar) -> bool {
    &&& a.finite()
    &&& b.finite()
    &&& b.minus(a).finite()
    &&& exact::alike(a.plus(b.minus(a)), b)
}

/// Linear interpolation starts at the first number.
pub proof fn lemma_lerp_starts(a: Scalar, b: Scalar, t: Scalar)
    requires
        a.finite(),
        b.minus(a).finite(),
        t.mag() == 0,
    ensures
        exact::alike(lerp_of(a, b, t), a),
{
    exact::lemma_times_zero(b.minus(a), t);
    exact::lemma_plus_zero(a, b.minus(a).times(t));
}

/// Linear interpolation ends at the second number.
pub proof fn lemma_lerp_ends(a: Scalar, b: Scalar)
    requires
        meets(a, b),
    ensures
        exact::alike(lerp_of(a, b, arith::num(ONE)), b),
{
    exact::lemma_one_times(b.minus(a));
}

/// Linear interpolation between equal numbers stays there.
pub proof fn lemma_lerp_level(a: Scalar, t: Scalar)
    requires
        a.finite(),
        t.finite(),
    ensures
        exact::alike(lerp_of(a, a, t), a),
{
    arith::lemma_minus_self(a);
    exact::lemma_times_zero(t, a.minus(a));
    exact::lemma_plus_zero(a, a.minus(a).times(t));
}

/// Further on, linear interpolation is nearer to the second number, or as near.
pub proof fn lemma_lerp_ordered(a: Scalar, b: Scalar, t: Scalar, u: Scalar)
    requires
        a.finite(),
        b.minus(a).finite(),
        t.finite(),
        u.finite(),
        !t.negative(),
        !u.negative(),
        t.value() <= u.value(),
        u.value() <= arith::num(ONE).value(),
        a.value() <= b.value(),
    ensures
        lerp_of(a, b, t).value() <= lerp_of(a, b, u).value(),
{
    let d = b.minus(a);
    lemma_difference_sign(a, b);
    if d.mag() == 0 {
        exact::lemma_times_zero(t, d);
        exact::lemma_times_zero(u, d);
        exact::lemma_plus_zero(a, d.times(t));
        exact::lemma_plus_zero(a, d.times(u));
        exact::lemma_alike_same(a.plus(d.times(t)), a);
        exact::lemma_alike_same(a.plus(d.times(u)), a);
    } else {
        lemma_times_rises(d, t, u);
        rounding::lemma_plus_ordered(d.times(t), d.times(u), a);
        arith::lemma_plus_commutes(a, d.times(t));
        arith::lemma_plus_commutes(a, d.times(u));
    }
}

/// A difference of rising numbers is not below zero.
proof fn lemma_difference_sign(a: Scalar, b: Scalar)
    requires
        a.value() <= b.value(),
        b.minus(a).finite(),
    ensures
        !b.minus(a).negative() || b.minus(a).mag() == 0,
{
    scalar::lemma_negated(a);
    rounding::lemma_nearest_exists(b.value() - a.value(), 1);
}

proof fn lemma_times_rises(d: Scalar, t: Scalar, u: Scalar)
    requires
        d.finite(),
        t.finite(),
        u.finite(),
        !d.negative(),
        !t.negative(),
        !u.negative(),
        t.value() <= u.value(),
    ensures
        d.times(t).value() <= d.times(u).value(),
        !d.times(t).nan(),
        !d.times(u).nan(),
{
    rounding::lemma_times_ordered(t, u, d);
    rounding::lemma_times_ordered(u, u, d);
    arith::lemma_times_commutes(t, d);
    arith::lemma_times_commutes(u, d);
}

/// Linear interpolation is a point on the line: at `k / 2^m` of the way from `x` to
/// `y`, counted in any unit and with few digits, it is `x + (y - x) * k / 2^m`.
pub proof fn lemma_lerp_exact(a: Scalar, b: Scalar, t: Scalar, x: int, y: int, k: int, s: nat, m: nat)
    requires
        exact::stands_for(a, x, s),
        exact::stands_for(b, y, s),
        exact::stands_for(t, k, (149 - m) as nat),
        -0x1000 <= x <= 0x1000,
        -0x1000 <= y <= 0x1000,
        m <= 11,
        m <= s <= 252,
        0 <= k <= vstd::arithmetic::power2::pow2(m),
    ensures
        exact::stands_for(
            lerp_of(a, b, t),
            x * vstd::arithmetic::power2::pow2(m) + (y - x) * k,
            (s - m) as nat,
        ),
{
    let p = vstd::arithmetic::power2::pow2(m) as int;
    vstd::arithmetic::power2::lemma2_to64();
    vstd::arithmetic::power2::lemma_pow2_pos(m);
    if m < 11 {
        vstd::arithmetic::power2::lemma_pow2_strictly_increases(m, 11);
    }
    let d = y - x;
    exact::lemma_difference(b, y, a, x, s);
    assert(-0x100_0000 <= d * k <= 0x100_0000 && -0x100_0000 <= x * p + d * k <= 0x100_0000)
        by (nonlinear_arith)
        requires
            0 <= k <= p,
            1 <= p <= 0x800,
            d == y - x,
            -0x1000 <= x <= 0x1000,
            -0x1000 <= y <= 0x1000,
    ;
    exact::lemma_product(b.minus(a), d, s, t, k, (149 - m) as nat);
    exact::lemma_finer(a, x, s, m);
    exact::lemma_sum(a, x * p, b.minus(a).times(t), d * k, (s - m) as nat);
}

/// The slopes at both ends of a cubic curve are finite.
pub open spec fn sloped(a: Scalar, b: Scalar, tension: Scalar) -> bool {
    &&& a.finite()
    &&& b.finite()
    &&& arith::num(ONE).minus(tension).times(b.minus(a)).finite()
}

/// A cubic curve starts at the first number.
pub proof fn lemma_hermite_starts(a: Scalar, b: Scalar, t: Scalar, tension: Scalar)
    requires
        sloped(a, b, tension),
        t.mag() == 0,
    ensures
        exact::alike(hermite_of(a, b, t, tension), a),
{
    let one = arith::num(ONE);
    let two = arith::num(arith::TWO);
    let three = arith::num(arith::THREE);
    let t2 = t.times(t);
    let t3 = t2.times(t);
    exact::lemma_times_zero(t, t);
    exact::lemma_times_zero(t2, t);
    exact::lemma_times_zero(two, t3);
    exact::lemma_times_zero(two, t2);
    exact::lemma_times_zero(two.negated(), t3);
    exact::lemma_times_zero(three, t2);
    let (p, q) = (two.times(t3), three.times(t2));
    exact::lemma_plus_zero(p, q);
    exact::lemma_plus_zero(one, p.minus(q));
    let h1 = p.minus(q).plus(one);
    assert(h1 == one);
    let h2 = two.negated().times(t3).plus(q);
    exact::lemma_plus_zero(two.negated().times(t3), q);
    exact::lemma_plus_zero(t3, two.times(t2));
    exact::lemma_plus_zero(t3.minus(two.times(t2)), t);
    let h3 = t3.minus(two.times(t2)).plus(t);
    exact::lemma_plus_zero(t3, t2);
    let h4 = t3.minus(t2);
    lemma_curve_at_end(a, b, h1, h2, h3, h4, one.minus(tension).times(b.minus(a)));
}

/// With all weight on one of two numbers and none on the slopes, the sum is the
/// number.
proof fn lemma_curve_at_end(
    a: Scalar,
    b: Scalar,
    h1: Scalar,
    h2: Scalar,
    h3: Scalar,
    h4: Scalar,
    tangent: Scalar,
)
    requires
        a.finite(),
        b.finite(),
        tangent.finite(),
        h3.mag() == 0,
        h4.mag() == 0,
        (h1 == arith::num(ONE) && h2.mag() == 0) || (h1.mag() == 0 && h2 == arith::num(ONE)),
    ensures
        exact::alike(
            h1.times(a).plus(h2.times(b)).plus(h3.times(tangent)).plus(h4.times(tangent)),
            if h2.mag() == 0 {
                a
            } else {
                b
            },
        ),
{
    let (c, d) = (h1.times(a), h2.times(b));
    exact::lemma_one_times(a);
    exact::lemma_one_times(b);
    exact::lemma_times_zero(tangent, h3);
    exact::lemma_times_zero(tangent, h4);
    let end = if h2.mag() == 0 {
        a
    } else {
        b
    };
    if h2.mag() == 0 {
        exact::lemma_times_zero(b, h2);
        exact::lemma_plus_zero(a, d);
    } else {
        exact::lemma_times_zero(a, h1);
        exact::lemma_plus_zero(b, c);
    }
    exact::lemma_alike_same(c.plus(d), end);
    exact::lemma_plus_zero(c.plus(d), h3.times(tangent));
    let sum = c.plus(d).plus(h3.times(tangent));
    exact::lemma_alike_same(sum, c.plus(d));
    exact::lemma_plus_zero(sum, h4.times(tangent));
    exact::lemma_alike_same(sum.plus(h4.times(tangent)), sum);
}

/// A cubic curve ends at the second number.
pub proof fn lemma_hermite_ends(a: Scalar, b: Scalar, tension: Scalar)
    requires
        sloped(a, b, tension),
    ensures
        exact::alike(hermite_of(a, b, arith::num(ONE), tension), b),
{
    let one = arith::num(ONE);
    let two = arith::num(arith::TWO);
    let three = arith::num(arith::THREE);
    exact::lemma_small();
    exact::lemma_one_times(one);
    exact::lemma_one_times(two);
    exact::lemma_one_times(three);
    exact::lemma_opposite(two, 2, 149);
    exact::lemma_one_times(two.negated());
    exact::lemma_difference(two, 2, three, 3, 149);
    exact::lemma_sum(two.minus(three), -1, one, 1, 149);
    let h1 = two.minus(three).plus(one);
    exact::lemma_sign(h1, 0, 149);
    exact::lemma_sum(two.negated(), -2, three, 3, 149);
    let h2 = two.negated().plus(three);
    exact::lemma_only_one(h2, one, 1, 149);
    exact::lemma_difference(one, 1, two, 2, 149);
    exact::lemma_sum(one.minus(two), -1, one, 1, 149);
    let h3 = one.minus(two).plus(one);
    exact::lemma_sign(h3, 0, 149);
    arith::lemma_minus_self(one);
    let h4 = one.minus(one);
    lemma_curve_at_end(a, b, h1, h2, h3, h4, one.minus(tension).times(b.minus(a)));
}

/// A cubic curve is the polynomial: at `k` sixteenths of the way from `x` to `y`,
/// with a slope of `z` quarters at both ends, it is
/// `(2t^3 - 3t^2 + 1) x + (3t^2 - 2t^3) y + (2t^3 - 3t^2 + t) (z / 4) (y - x)`,
/// with `t` for `k / 16`, counted in any unit and with few digits.
pub proof fn lemma_hermite_exact(
    a: Scalar,
    b: Scalar,
    t: Scalar,
    tension: Scalar,
    x: int,
    y: int,
    k: int,
    z: int,
    s: nat,
)
    requires
        exact::stands_for(a, x, s),
        exact::stands_for(b, y, s),
        exact::stands_for(t, k, 145),
        exact::stands_for(tension, 4 - z, 147),
        -0x100 <= x <= 0x100,
        -0x100 <= y <= 0x100,
        0 <= k <= 16,
        -4 <= z <= 4,
        14 <= s <= 252,
    ensures
        exact::stands_for(
            hermite_of(a, b, t, tension),
            4 * ((2 * (k * k * k) - 48 * (k * k) + 4096) * x + (48 * (k * k) - 2 * (k * k * k)) * y) + (
            2 * (k * k * k) - 48 * (k * k) + 256 * k) * (z * (y - x)),
            (s - 14) as nat,
        ),
{
    let one = arith::num(ONE);
    let two = arith::num(arith::TWO);
    let three = arith::num(arith::THREE);
    exact::lemma_small();
    vstd::arithmetic::power2::lemma2_to64();
    let (k2, k3) = (k * k, k * k * k);
    assert(0 <= k2 <= 256 && k2 <= 16 * k && 0 <= k3 <= 16 * k2) by (nonlinear_arith)
        requires
            0 <= k <= 16,
            k2 == k * k,
            k3 == k * k * k,
    ;
    assert(k3 == k2 * k);
    let t2 = t.times(t);
    let t3 = t2.times(t);
    exact::lemma_product(t, k, 145, t, k, 145);
    exact::lemma_product(t2, k2, 141, t, k, 145);
    exact::lemma_product(two, 2, 149, t3, k3, 137);
    exact::lemma_product(three, 3, 149, t2, k2, 141);
    exact::lemma_product(two, 2, 149, t2, k2, 141);
    exact::lemma_finer(three.times(t2), 3 * k2, 141, 4);
    exact::lemma_finer(two.times(t2), 2 * k2, 141, 4);
    exact::lemma_finer(t2, k2, 141, 4);
    exact::lemma_finer(t, k, 145, 8);
    exact::lemma_finer(one, 1, 149, 12);
    let h1 = two.times(t3).minus(three.times(t2)).plus(one);
    let n1 = 2 * k3 - 48 * k2 + 4096;
    exact::lemma_difference(two.times(t3), 2 * k3, three.times(t2), 48 * k2, 137);
    exact::lemma_sum(two.times(t3).minus(three.times(t2)), 2 * k3 - 48 * k2, one, 4096, 137);
    let h2 = two.negated().times(t3).plus(three.times(t2));
    let n2 = 48 * k2 - 2 * k3;
    exact::lemma_opposite(two, 2, 149);
    exact::lemma_product(two.negated(), -2, 149, t3, k3, 137);
    exact::lemma_sum(two.negated().times(t3), -2 * k3, three.times(t2), 48 * k2, 137);
    let h3 = t3.minus(two.times(t2)).plus(t);
    let n3 = k3 - 32 * k2 + 256 * k;
    exact::lemma_difference(t3, k3, two.times(t2), 32 * k2, 137);
    exact::lemma_sum(t3.minus(two.times(t2)), k3 - 32 * k2, t, 256 * k, 137);
    let h4 = t3.minus(t2);
    let n4 = k3 - 16 * k2;
    exact::lemma_difference(t3, k3, t2, 16 * k2, 137);
    exact::lemma_finer(one, 1, 149, 2);
    exact::lemma_difference(one, 4, tension, 4 - z, 147);
    exact::lemma_difference(b, y, a, x, s);
    let d = y - x;
    let tangent = one.minus(tension).times(b.minus(a));
    assert(-0x800 <= z * d <= 0x800) by (nonlinear_arith)
        requires
            -4 <= z <= 4,
            -0x200 <= d <= 0x200,
    ;
    exact::lemma_product(one.minus(tension), z, 147, b.minus(a), d, s);
    assert(0 <= n1 <= 4096 && 0 <= n2 <= 4096 && n1 + n2 == 4096) by (nonlinear_arith)
        requires
            0 <= k <= 16,
            k2 == k * k,
            k3 == k2 * k,
            n1 == 2 * k3 - 48 * k2 + 4096,
            n2 == 48 * k2 - 2 * k3,
    ;
    assert(0 <= n3 <= 4096 && -4096 <= n4 <= 0) by (nonlinear_arith)
        requires
            0 <= k <= 16,
            k2 == k * k,
            k3 == k2 * k,
            n3 == k3 - 32 * k2 + 256 * k,
            n4 == k3 - 16 * k2,
    ;
    assert(n3 <= 1024 && n4 >= -1024) by (nonlinear_arith)
        requires
            0 <= k <= 16,
            k2 == k * k,
            k3 == k2 * k,
            n3 == k3 - 32 * k2 + 256 * k,
            n4 == k3 - 16 * k2,
    ;
    lemma_weighed_curve(a, b, tangent, h1, h2, h3, h4, x, y, z * d, n1, n2, n3, n4, s);
    let g = z * d;
    assert(n3 * g + n4 * g == (n3 + n4) * g) by (nonlinear_arith);
}

/// The sum of a cubic curve, with weights of few digits.
proof fn lemma_weighed_curve(
    a: Scalar,
    b: Scalar,
    tangent: Scalar,
    h1: Scalar,
    h2: Scalar,
    h3: Scalar,
    h4: Scalar,
    x: int,
    y: int,
    g: int,
    n1: int,
    n2: int,
    n3: int,
    n4: int,
    s: nat,
)
    requires
        exact::stands_for(a, x, s),
        exact::stands_for(b, y, s),
        exact::stands_for(tangent, g, (s - 2) as nat),
        exact::stands_for(h1, n1, 137),
        exact::stands_for(h2, n2, 137),
        exact::stands_for(h3, n3, 137),
        exact::stands_for(h4, n4, 137),
        -0x100 <= x <= 0x100,
        -0x100 <= y <= 0x100,
        -0x800 <= g <= 0x800,
        0 <= n1 <= 4096,
        0 <= n2 <= 4096,
        n1 + n2 == 4096,
        0 <= n3 <= 1024,
        -1024 <= n4 <= 0,
        14 <= s <= 252,
    ensures
        exact::stands_for(
            h1.times(a).plus(h2.times(b)).plus(h3.times(tangent)).plus(h4.times(tangent)),
            4 * (n1 * x + n2 * y) + (n3 * g + n4 * g),
            (s - 14) as nat,
        ),
{
    vstd::arithmetic::power2::lemma2_to64();
    let r = (s - 14) as nat;
    let q = (s - 12) as nat;
    let (p1, p2, p3, p4) = (n1 * x, n2 * y, n3 * g, n4 * g);
    assert(-0x10_0000 <= p1 <= 0x10_0000 && -0x10_0000 <= p2 <= 0x10_0000) by (nonlinear_arith)
        requires
            p1 == n1 * x,
            p2 == n2 * y,
            0 <= n1 <= 4096,
            0 <= n2 <= 4096,
            -0x100 <= x <= 0x100,
            -0x100 <= y <= 0x100,
    ;
    assert(-0x20_0000 <= p3 <= 0x20_0000 && -0x20_0000 <= p4 <= 0x20_0000) by (nonlinear_arith)
        requires
            p3 == n3 * g,
            p4 == n4 * g,
            0 <= n3 <= 1024,
            -1024 <= n4 <= 0,
            -0x800 <= g <= 0x800,
    ;
    exact::lemma_product(h1, n1, 137, a, x, s);
    exact::lemma_product(h2, n2, 137, b, y, s);
    exact::lemma_product(h3, n3, 137, tangent, g, (s - 2) as nat);
    exact::lemma_product(h4, n4, 137, tangent, g, (s - 2) as nat);
    exact::lemma_sum(h1.times(a), p1, h2.times(b), p2, q);
    let ends = h1.times(a).plus(h2.times(b));
    exact::lemma_finer(ends, p1 + p2, q, 2);
    exact::lemma_sum(ends, 4 * (p1 + p2), h3.times(tangent), p3, r);
    let sum = ends.plus(h3.times(tangent));
    exact::lemma_sum(sum, 4 * (p1 + p2) + p3, h4.times(tangent), p4, r);
}

/// The points of an axis rise, far enough apart to tell, and their differences are
/// finite.
pub open spec fn spaced(axis: Seq<Scalar>) -> bool {
    &&& axis.len() > 0
    &&& forall|k: int| 0 <= k < axis.len() ==> (#[trigger] axis[k]).finite()
    &&& forall|p: int, q: int|
        #![trigger axis[p], axis[q]]
        0 <= p < q < axis.len() ==> axis[p].less(axis[q])
    &&& forall|p: int, q: int|
        #![trigger axis[p], axis[q]]
        0 <= p < q < axis.len() && q == p + 1 ==> axis[q].minus(axis[p]).finite() && arith::num(
            arith::EPSILON,
        ).less(axis[q].minus(axis[p]).absolute())
}

/// A value of a param, between its ends, is at `n` of the way.
pub open spec fn normalizes(x: Scalar, low: Scalar, high: Scalar, n: Scalar) -> bool {
    &&& arith::num(arith::EPSILON).less(high.minus(low).absolute())
    &&& x.minus(low).over(high.minus(low)) == n
    &&& n.finite()
    &&& 0 <= n.value() <= arith::num(ONE).value()
}

/// A value of a param lies on point `i` of an axis.
pub open spec fn on_point(x: Scalar, low: Scalar, high: Scalar, axis: Seq<Scalar>, i: int) -> bool {
    &&& 0 <= i < axis.len()
    &&& exists|n: Scalar| #[trigger]
        normalizes(x, low, high, n) && exact::alike(n, axis[i])
}

/// A value of a param lies in cell `p` of an axis, `k` sixteenths of the way from
/// the lower to the upper point, and not on the lower one.
pub open spec fn in_part(
    x: Scalar,
    low: Scalar,
    high: Scalar,
    axis: Seq<Scalar>,
    p: int,
    k: int,
) -> bool {
    &&& 0 <= p
    &&& p + 1 < axis.len()
    &&& 0 < k <= 16
    &&& exists|n: Scalar| #[trigger]
        normalizes(x, low, high, n) && axis[p].less(n) && n.value() <= axis[p + 1].value()
            && exact::stands_for(
            n.minus(axis[p]).over(axis[p + 1].minus(axis[p])),
            k,
            145,
        )
}

/// The cell of an axis in which a value of a param lies, and where in it.
#[verifier::opaque]
spec fn place_on(x: Scalar, low: Scalar, high: Scalar, axis: Seq<Scalar>) -> (int, Scalar) {
    grid_pos(axis, portion(x, low, high))
}

proof fn lemma_portion_is(x: Scalar, low: Scalar, high: Scalar, n: Scalar)
    requires
        normalizes(x, low, high, n),
    ensures
        portion(x, low, high) == n,
{
    exact::lemma_zero_value(arith::num(0));
}

proof fn lemma_cell(axis: Seq<Scalar>, x: Scalar, j: int, p: int)
    requires
        spaced(axis),
        0 <= j <= p,
        p + 1 < axis.len(),
        x.finite(),
        p > 0 ==> axis[p].value() < x.value(),
        x.value() <= axis[p + 1].value(),
    ensures
        cell_from(axis, x, j) == p,
    decreases p - j,
{
    assert(axis[p + 1].finite());
    if j < p {
        assert(axis[j + 1].finite());
        if j + 1 < p {
            assert(axis[j + 1].less(axis[p]));
        }
        lemma_cell(axis, x, j + 1, p);
    }
}

/// Where a value on a point of an axis lies: at the upper end of the cell before the
/// point, or at the lower end of the first cell.
proof fn lemma_point_pos(x: Scalar, low: Scalar, high: Scalar, axis: Seq<Scalar>, i: int)
    requires
        spaced(axis),
        on_point(x, low, high, axis, i),
    ensures
        ({
            let (c, f) = place_on(x, low, high, axis);
            (i == 0 && c == 0 && f.mag() == 0) || (i > 0 && c == i - 1 && f == arith::num(ONE))
        }),
{
    reveal(place_on);
    let n = choose|n: Scalar| #[trigger]
        normalizes(x, low, high, n) && exact::alike(n, axis[i]);
    lemma_portion_is(x, low, high, n);
    exact::lemma_alike_same(n, axis[i]);
    assert(axis[i].finite());
    exact::lemma_zero_value(arith::num(0));
    if axis.len() > 1 {
        if i == 0 {
            assert(axis[0].less(axis[1]));
            lemma_cell(axis, n, 0, 0);
            let range = axis[1].minus(axis[0]);
            lemma_wide(range);
            exact::lemma_minus_alike(n, axis[0], axis[0], axis[0]);
            arith::lemma_minus_self(axis[0]);
            exact::lemma_zero_over(n.minus(axis[0]), range);
            let f = n.minus(axis[0]).over(range);
            exact::lemma_zero_value(f);
            exact::lemma_one();
        } else {
            let (a, b) = (axis[i - 1], axis[i]);
            assert(a.less(b));
            lemma_cell(axis, n, 0, i - 1);
            let range = b.minus(a);
            lemma_wide(range);
            exact::lemma_minus_alike(n, b, a, a);
            assert(n.minus(a) == range);
            exact::lemma_over_self(range);
            exact::lemma_one();
        }
    }
}

/// What is wider than the least difference is not zero.
proof fn lemma_wide(range: Scalar)
    requires
        range.finite(),
        arith::num(arith::EPSILON).less(range.absolute()),
    ensures
        range.mag() != 0,
{
    exact::lemma_zero_value(range.absolute());
    arith::lemma_magnitudes(0, arith::EPSILON as int);
}

proof fn lemma_part_pos(
    x: Scalar,
    low: Scalar,
    high: Scalar,
    axis: Seq<Scalar>,
    p: int,
    k: int,
)
    requires
        spaced(axis),
        in_part(x, low, high, axis, p, k),
    ensures
        place_on(x, low, high, axis).0 == p,
        exact::stands_for(place_on(x, low, high, axis).1, k, 145),
{
    reveal(place_on);
    let n = choose|n: Scalar| #[trigger]
        normalizes(x, low, high, n) && axis[p].less(n) && n.value() <= axis[p + 1].value()
            && exact::stands_for(
            n.minus(axis[p]).over(axis[p + 1].minus(axis[p])),
            k,
            145,
        );
    lemma_portion_is(x, low, high, n);
    assert(axis[p + 1].finite() && axis[p].finite());
    lemma_cell(axis, n, 0, p);
    let f = n.minus(axis[p]).over(axis[p + 1].minus(axis[p]));
    let u = vstd::arithmetic::power2::pow2(145) as int;
    vstd::arithmetic::power2::lemma2_to64();
    vstd::arithmetic::power2::lemma_pow2_pos(145);
    vstd::arithmetic::power2::lemma_pow2_adds(4, 145);
    exact::lemma_one();
    exact::lemma_zero_value(arith::num(0));
    let v = f.value();
    assert(0 <= v <= 16 * u) by (nonlinear_arith)
        requires
            v == k * u,
            0 < k <= 16,
            u > 0,
    ;
}

proof fn lemma_lerp_alike(a: Scalar, b: Scalar, c: Scalar, d: Scalar, t: Scalar)
    requires
        exact::alike(a, c),
        exact::alike(b, d),
    ensures
        exact::alike(lerp_of(a, b, t), lerp_of(c, d, t)),
{
    exact::lemma_minus_alike(b, d, a, c);
    exact::lemma_times_alike(b.minus(a), d.minus(c), t, t);
    exact::lemma_plus_alike(a, c, b.minus(a).times(t), d.minus(c).times(t));
}

/// A number goes to itself.
proof fn lemma_meets_self(a: Scalar)
    requires
        a.finite(),
    ensures
        meets(a, a),
{
    arith::lemma_minus_self(a);
    exact::lemma_plus_zero(a, a.minus(a));
}

/// Either end of a cell: 0 at its lower end, 1 at its upper one.
pub open spec fn at_end(f: Scalar, end: int) -> bool {
    (end == 0 && f.mag() == 0) || (end == 1 && f == arith::num(ONE))
}

proof fn lemma_lerp_at_end(a: Scalar, b: Scalar, f: Scalar, end: int)
    requires
        meets(a, b),
        at_end(f, end),
    ensures
        exact::alike(
            lerp_of(a, b, f),
            if end == 0 {
                a
            } else {
                b
            },
        ),
{
    if end == 0 {
        lemma_lerp_starts(a, b, f);
    } else {
        lemma_lerp_ends(a, b);
    }
}

proof fn lemma_half()
    ensures
        0 < arith::num(arith::HALF).value() < arith::num(ONE).value(),
{
    exact::lemma_zero_value(arith::num(0));
    scalar::lemma_value_order(arith::num(0), arith::num(arith::HALF));
    scalar::lemma_value_order(arith::num(arith::HALF), arith::num(ONE));
}

/// At a corner of a cell, interpolation gives the value of the corner. `right` and
/// `down` tell the corner.
pub proof fn lemma_cell_corner(
    c: [Scalar; 4],
    fx: Scalar,
    fy: Scalar,
    mode: InxInterpolation,
    right: int,
    down: int,
)
    requires
        at_end(fx, right),
        at_end(fy, down),
        mode != InxInterpolation::Stepped ==> meets(c[0], c[1]) && meets(c[2], c[3]) && meets(
            c[right],
            c[2 + right],
        ),
    ensures
        exact::alike(in_cell(c, fx, fy, mode), c[right + 2 * down]),
{
    lemma_half();
    exact::lemma_zero_value(fx);
    exact::lemma_zero_value(fy);
    if mode != InxInterpolation::Stepped {
        let top = lerp_of(c[0], c[1], fx);
        let bottom = lerp_of(c[2], c[3], fx);
        lemma_lerp_at_end(c[0], c[1], fx, right);
        lemma_lerp_at_end(c[2], c[3], fx, right);
        lemma_lerp_alike(top, bottom, c[right], c[2 + right], fy);
        lemma_lerp_at_end(c[right], c[2 + right], fy, down);
    }
}

/// In a cell whose values do not change to the right, the way to the right does not
/// count; in one whose values do not change downwards, the way down does not.
pub proof fn lemma_cell_level(
    c: [Scalar; 4],
    fx: Scalar,
    gx: Scalar,
    fy: Scalar,
    gy: Scalar,
    mode: InxInterpolation,
)
    requires
        fx.finite(),
        gx.finite(),
        fy.finite(),
        gy.finite(),
        c[0].finite(),
        c[1].finite(),
        c[2].finite(),
        c[3].finite(),
    ensures
        exact::alike(c[0], c[1]) && exact::alike(c[2], c[3]) ==> exact::alike(
            in_cell(c, fx, fy, mode),
            in_cell(c, gx, fy, mode),
        ),
        exact::alike(c[0], c[2]) && exact::alike(c[1], c[3]) ==> exact::alike(
            in_cell(c, fx, fy, mode),
            in_cell(c, fx, gy, mode),
        ),
{
    if mode != InxInterpolation::Stepped {
        if exact::alike(c[0], c[1]) && exact::alike(c[2], c[3]) {
            lemma_level_row(c[0], c[1], fx);
            lemma_level_row(c[0], c[1], gx);
            lemma_level_row(c[2], c[3], fx);
            lemma_level_row(c[2], c[3], gx);
            lemma_lerp_alike(
                lerp_of(c[0], c[1], fx),
                lerp_of(c[2], c[3], fx),
                lerp_of(c[0], c[1], gx),
                lerp_of(c[2], c[3], gx),
                fy,
            );
        }
        if exact::alike(c[0], c[2]) && exact::alike(c[1], c[3]) {
            let top = lerp_of(c[0], c[1], fx);
            let bottom = lerp_of(c[2], c[3], fx);
            lemma_lerp_alike(c[0], c[1], c[2], c[3], fx);
            exact::lemma_alike_same(top, bottom);
            if top.finite() {
                lemma_level_row(top, bottom, fy);
                lemma_level_row(top, bottom, gy);
            } else {
                lemma_endless(top, bottom, fy);
                lemma_endless(top, bottom, gy);
            }
        }
    }
}

/// Interpolation between equal ends that are not finite is no number.
proof fn lemma_endless(a: Scalar, b: Scalar, t: Scalar)
    requires
        a == b || (a.mag() == 0 && b.mag() == 0),
        !a.finite(),
    ensures
        lerp_of(a, b, t) == arith::no_number(),
{
    scalar::lemma_negated(a);
}

proof fn lemma_level_row(a: Scalar, b: Scalar, t: Scalar)
    requires
        exact::alike(a, b),
        a.finite(),
        t.finite(),
    ensures
        exact::alike(lerp_of(a, b, t), a),
{
    lemma_lerp_alike(a, b, a, a, t);
    lemma_lerp_level(a, t);
}

/// Interpolation in a cell is bilinear: `kx` and `ky` sixteenths into a cell with
/// the values `x0`, `x1` (to the right), `x2` (down) and `x3` it is their mean, each
/// weighed by the area opposite to it. The numbers have few digits, in any unit `s`.
pub proof fn lemma_cell_exact(
    c: [Scalar; 4],
    fx: Scalar,
    fy: Scalar,
    mode: InxInterpolation,
    x0: int,
    x1: int,
    x2: int,
    x3: int,
    kx: int,
    ky: int,
    s: nat,
)
    requires
        mode != InxInterpolation::Stepped,
        exact::stands_for(c[0], x0, s),
        exact::stands_for(c[1], x1, s),
        exact::stands_for(c[2], x2, s),
        exact::stands_for(c[3], x3, s),
        exact::stands_for(fx, kx, 145),
        exact::stands_for(fy, ky, 145),
        -0x80 <= x0 <= 0x80,
        -0x80 <= x1 <= 0x80,
        -0x80 <= x2 <= 0x80,
        -0x80 <= x3 <= 0x80,
        0 <= kx <= 16,
        0 <= ky <= 16,
        8 <= s <= 252,
    ensures
        exact::stands_for(
            in_cell(c, fx, fy, mode),
            (16 - ky) * ((16 - kx) * x0 + kx * x1) + ky * ((16 - kx) * x2 + kx * x3),
            (s - 8) as nat,
        ),
{
    vstd::arithmetic::power2::lemma2_to64();
    let top = lerp_of(c[0], c[1], fx);
    let bottom = lerp_of(c[2], c[3], fx);
    lemma_lerp_exact(c[0], c[1], fx, x0, x1, kx, s, 4);
    lemma_lerp_exact(c[2], c[3], fx, x2, x3, kx, s, 4);
    let u = x0 * 16 + (x1 - x0) * kx;
    let v = x2 * 16 + (x3 - x2) * kx;
    lemma_mean(x0, x1, kx);
    lemma_mean(x2, x3, kx);
    lemma_lerp_exact(top, bottom, fy, u, v, ky, (s - 4) as nat, 4);
    assert(u * 16 + (v - u) * ky == (16 - ky) * u + ky * v) by (nonlinear_arith);
}

proof fn lemma_mean(x: int, y: int, k: int)
    requires
        -0x80 <= x <= 0x80,
        -0x80 <= y <= 0x80,
        0 <= k <= 16,
    ensures
        x * 16 + (y - x) * k == (16 - k) * x + k * y,
        -0x1000 <= x * 16 + (y - x) * k <= 0x1000,
{
    assert(x * 16 + (y - x) * k == (16 - k) * x + k * y) by (nonlinear_arith);
    assert(-0x800 <= (16 - k) * x <= 0x800 && -0x800 <= k * y <= 0x800) by (nonlinear_arith)
        requires
            -0x80 <= x <= 0x80,
            -0x80 <= y <= 0x80,
            0 <= k <= 16,
    ;
}

/// The offset that is stored for a vertex at point (i, j) of a grid of `rows` points
/// on its second axis: the frames of the first axis follow each other, and in each
/// the points of the second axis. None is stored where the data ends early.
#[verifier::opaque]
pub open spec fn stored_offset(flat: InxFlatDeform, rows: int, i: int, j: int, v: int) -> [Scalar;
    2] {
    let at = i * flat.vertices_per_frame + j * (flat.vertices_per_frame as int / rows) + v;
    if at < flat.data@.len() {
        flat.data@[at]
    } else {
        [arith::num(0), arith::num(0)]
    }
}

/// A binding of a param with two axes that deforms a vertex, `v`.
pub open spec fn deforms_vertex(param: InxParam, binding: InxBinding, flat: InxFlatDeform, v: int) -> bool {
    &&& param.is_vec2
    &&& param.axis_points[1]@.len() > 1
    &&& spaced(param.axis_points[0]@)
    &&& spaced(param.axis_points[1]@)
    &&& binding.values == InxBindingValues::Deform(flat)
    &&& flat.data@.len() > 0
    &&& flat.frames > 0
    &&& 0 <= v < flat.vertices_per_frame as int / param.axis_points[1]@.len() as int
}

/// The offsets of a vertex at all points are finite, and so are the ways between
/// neighbouring points: they can be gone.
pub open spec fn joined(param: InxParam, flat: InxFlatDeform, v: int) -> bool {
    let columns = param.axis_points[0]@.len() as int;
    let rows = param.axis_points[1]@.len() as int;
    &&& forall|i: int, j: int|
        0 <= i < columns && 0 <= j < rows ==> finite_offset(
            #[trigger] stored_offset(flat, rows, i, j, v),
        )
    &&& forall|i: int, k: int, j: int|
        #![trigger stored_offset(flat, rows, i, j, v), stored_offset(flat, rows, k, j, v)]
        0 <= i && k == i + 1 && k < columns && 0 <= j < rows ==> meets2(
            stored_offset(flat, rows, i, j, v),
            stored_offset(flat, rows, k, j, v),
        )
    &&& forall|i: int, j: int, k: int|
        #![trigger stored_offset(flat, rows, i, j, v), stored_offset(flat, rows, i, k, v)]
        0 <= i < columns && 0 <= j && k == j + 1 && k < rows ==> meets2(
            stored_offset(flat, rows, i, j, v),
            stored_offset(flat, rows, i, k, v),
        )
}

/// Both components of an offset are finite.
pub open spec fn finite_offset(o: [Scalar; 2]) -> bool {
    o[0].finite() && o[1].finite()
}

/// The way from one offset to another can be gone.
pub open spec fn meets2(a: [Scalar; 2], b: [Scalar; 2]) -> bool {
    meets(a[0], b[0]) && meets(a[1], b[1])
}

proof fn lemma_place(param: InxParam, flat: InxFlatDeform, i: int, j: int, v: int)
    requires
        param.is_vec2,
        param.axis_points[1]@.len() > 1,
        param.axis_points[0]@.len() > 0,
        0 <= i,
        0 <= j < param.axis_points[1]@.len(),
    ensures
        offset_at(flat, offset_place(param, flat, i, j, v)) == stored_offset(
            flat,
            param.axis_points[1]@.len() as int,
            at_most(i, param.axis_points[0]@.len() - 1),
            j,
            v,
        ),
{
    reveal(stored_offset);
}

/// Interpolation in a cell with four offsets at its corners, with Y turned up.
#[verifier::opaque]
spec fn cell_offset(
    c0: [Scalar; 2],
    c1: [Scalar; 2],
    c2: [Scalar; 2],
    c3: [Scalar; 2],
    fx: Scalar,
    fy: Scalar,
    mode: InxInterpolation,
) -> [Scalar; 2] {
    [
        in_cell([c0[0], c1[0], c2[0], c3[0]], fx, fy, mode),
        in_cell([c0[1], c1[1], c2[1], c3[1]], fx, fy, mode).negated(),
    ]
}

/// The corners of the cell in which a vertex is deformed.
proof fn lemma_vertex_cell(
    param: InxParam,
    value: [Scalar; 2],
    binding: InxBinding,
    flat: InxFlatDeform,
    v: int,
    i: int,
    j: int,
    fx: Scalar,
    fy: Scalar,
)
    requires
        deforms_vertex(param, binding, flat, v),
        (i, fx) == place_on(value[0], param.min[0], param.max[0], param.axis_points[0]@),
        (j, fy) == place_on(value[1], param.min[1], param.max[1], param.axis_points[1]@),
    ensures
        ({
            let columns = param.axis_points[0]@.len() as int;
            let rows = param.axis_points[1]@.len() as int;
            let k = at_most(i + 1, columns - 1);
            &&& 0 <= i < columns
            &&& 0 <= j && j + 1 < rows
            &&& binding_offsets(param, value, binding) matches Some(offsets)
            &&& offsets.len() == flat.vertices_per_frame as int / rows
            &&& offsets[v] == cell_offset(
                stored_offset(flat, rows, i, j, v),
                stored_offset(flat, rows, k, j, v),
                stored_offset(flat, rows, i, j + 1, v),
                stored_offset(flat, rows, k, j + 1, v),
                fx,
                fy,
                binding.interpolation,
            )
        }),
{
    reveal(place_on);
    reveal(cell_offset);
    let a0 = param.axis_points[0]@;
    let a1 = param.axis_points[1]@;
    let rows = a1.len() as int;
    if a0.len() > 1 {
        lemma_cell_in_range(a0, portion(value[0], param.min[0], param.max[0]), 0);
    }
    lemma_cell_in_range(a1, portion(value[1], param.min[1], param.max[1]), 0);
    lemma_place(param, flat, i, j, v);
    lemma_place(param, flat, i + 1, j, v);
    lemma_place(param, flat, i, j + 1, v);
    lemma_place(param, flat, i + 1, j + 1, v);
    assert(flat.vertices_per_frame > 0) by {
        vstd::arithmetic::div_mod::lemma_fundamental_div_mod(
            flat.vertices_per_frame as int,
            rows,
        );
    }
    let offsets = grid_offsets(param, value, flat, binding.interpolation);
    let nx = portion(value[0], param.min[0], param.max[0]);
    let ny = portion(value[1], param.min[1], param.max[1]);
    assert(offsets[v] == vertex_offset(param, flat, binding.interpolation, nx, ny, v));
    let k = at_most(i + 1, a0.len() - 1);
    let c = [
        stored_offset(flat, rows, i, j, v),
        stored_offset(flat, rows, k, j, v),
        stored_offset(flat, rows, i, j + 1, v),
        stored_offset(flat, rows, k, j + 1, v),
    ];
    let r = in_cell_vec2(c, fx, fy, binding.interpolation);
    assert(offsets[v] == [r[0], r[1].negated()]);
}

proof fn lemma_joined_cell(param: InxParam, flat: InxFlatDeform, v: int, p: int, k: int, q: int)
    requires
        joined(param, flat, v),
        0 <= p < param.axis_points[0]@.len(),
        k == at_most(p + 1, param.axis_points[0]@.len() - 1),
        0 <= q,
        q + 1 < param.axis_points[1]@.len(),
    ensures
        ({
            let rows = param.axis_points[1]@.len() as int;
            let c0 = stored_offset(flat, rows, p, q, v);
            let c1 = stored_offset(flat, rows, k, q, v);
            let c2 = stored_offset(flat, rows, p, q + 1, v);
            let c3 = stored_offset(flat, rows, k, q + 1, v);
            meets2(c0, c1) && meets2(c2, c3) && meets2(c0, c2) && meets2(c1, c3)
        }),
{
    let rows = param.axis_points[1]@.len() as int;
    let c0 = stored_offset(flat, rows, p, q, v);
    let c1 = stored_offset(flat, rows, k, q, v);
    let c2 = stored_offset(flat, rows, p, q + 1, v);
    let c3 = stored_offset(flat, rows, k, q + 1, v);
    assert(finite_offset(c0) && finite_offset(c2));
    lemma_meets_self(c0[0]);
    lemma_meets_self(c0[1]);
    lemma_meets_self(c2[0]);
    lemma_meets_self(c2[1]);
}

proof fn lemma_corner1(
    a: Scalar,
    b: Scalar,
    c: Scalar,
    d: Scalar,
    fx: Scalar,
    fy: Scalar,
    mode: InxInterpolation,
    right: int,
    down: int,
)
    requires
        at_end(fx, right),
        at_end(fy, down),
        mode != InxInterpolation::Stepped ==> meets(a, b) && meets(c, d) && meets(a, c) && meets(
            b,
            d,
        ),
    ensures
        exact::alike(
            in_cell([a, b, c, d], fx, fy, mode),
            if right == 0 {
                if down == 0 {
                    a
                } else {
                    c
                }
            } else {
                if down == 0 {
                    b
                } else {
                    d
                }
            },
        ),
{
    let x = [a, b, c, d];
    assert(x[0] == a && x[1] == b && x[2] == c && x[3] == d);
    if right == 0 {
        if down == 0 {
            lemma_cell_corner(x, fx, fy, mode, 0, 0);
        } else {
            lemma_cell_corner(x, fx, fy, mode, 0, 1);
        }
    } else {
        if down == 0 {
            lemma_cell_corner(x, fx, fy, mode, 1, 0);
        } else {
            lemma_cell_corner(x, fx, fy, mode, 1, 1);
        }
    }
}

/// At a corner of a cell both components are those of the corner.
proof fn lemma_corner2(
    c0: [Scalar; 2],
    c1: [Scalar; 2],
    c2: [Scalar; 2],
    c3: [Scalar; 2],
    fx: Scalar,
    fy: Scalar,
    mode: InxInterpolation,
    right: int,
    down: int,
)
    requires
        at_end(fx, right),
        at_end(fy, down),
        mode != InxInterpolation::Stepped ==> meets2(c0, c1) && meets2(c2, c3) && meets2(c0, c2)
            && meets2(c1, c3),
    ensures
        ({
            let c = if right == 0 {
                if down == 0 {
                    c0
                } else {
                    c2
                }
            } else {
                if down == 0 {
                    c1
                } else {
                    c3
                }
            };
            exact::alike2(cell_offset(c0, c1, c2, c3, fx, fy, mode), [c[0], c[1].negated()])
        }),
{
    reveal(cell_offset);
    lemma_corner1(c0[0], c1[0], c2[0], c3[0], fx, fy, mode, right, down);
    lemma_corner1(c0[1], c1[1], c2[1], c3[1], fx, fy, mode, right, down);
    let c = if right == 0 {
        if down == 0 {
            c0
        } else {
            c2
        }
    } else {
        if down == 0 {
            c1
        } else {
            c3
        }
    };
    let y = in_cell([c0[1], c1[1], c2[1], c3[1]], fx, fy, mode);
    exact::lemma_negated_alike(y, c[1]);
}

/// At a value of a param that lies on point (i, j) of its grid, each vertex has the
/// offset that is stored for that point, with Y turned up.
pub proof fn lemma_deform_on_grid_point(
    param: InxParam,
    value: [Scalar; 2],
    binding: InxBinding,
    flat: InxFlatDeform,
    v: int,
    i: int,
    j: int,
)
    requires
        deforms_vertex(param, binding, flat, v),
        on_point(value[0], param.min[0], param.max[0], param.axis_points[0]@, i),
        on_point(value[1], param.min[1], param.max[1], param.axis_points[1]@, j),
        binding.interpolation != InxInterpolation::Stepped ==> joined(param, flat, v),
    ensures
        binding_offsets(param, value, binding) matches Some(offsets) && {
            let stored = stored_offset(flat, param.axis_points[1]@.len() as int, i, j, v);
            &&& v < offsets.len()
            &&& exact::alike2(offsets[v], [stored[0], stored[1].negated()])
        },
{
    let a0 = param.axis_points[0]@;
    let a1 = param.axis_points[1]@;
    let rows = a1.len() as int;
    lemma_point_pos(value[0], param.min[0], param.max[0], a0, i);
    lemma_point_pos(value[1], param.min[1], param.max[1], a1, j);
    let (p, fx) = place_on(value[0], param.min[0], param.max[0], a0);
    let (q, fy) = place_on(value[1], param.min[1], param.max[1], a1);
    lemma_vertex_cell(param, value, binding, flat, v, p, q, fx, fy);
    let k = at_most(p + 1, a0.len() - 1);
    let c0 = stored_offset(flat, rows, p, q, v);
    let c1 = stored_offset(flat, rows, k, q, v);
    let c2 = stored_offset(flat, rows, p, q + 1, v);
    let c3 = stored_offset(flat, rows, k, q + 1, v);
    if binding.interpolation != InxInterpolation::Stepped {
        lemma_joined_cell(param, flat, v, p, k, q);
    }
    let right: int = if i == 0 {
        0
    } else {
        1
    };
    let down: int = if j == 0 {
        0
    } else {
        1
    };
    lemma_corner2(c0, c1, c2, c3, fx, fy, binding.interpolation, right, down);
}

/// The value of a param on an axis, its ends and the points there are finite, and so
/// are their differences.
pub open spec fn tame(x: Scalar, low: Scalar, high: Scalar) -> bool {
    x.finite() && low.finite() && high.finite() && high.minus(low).finite()
}

/// Where a number lies between two others is told by a number from 0 to 1.
pub proof fn lemma_portion_in_range(x: Scalar, low: Scalar, high: Scalar)
    requires
        tame(x, low, high),
    ensures
        portion(x, low, high).finite(),
        0 <= portion(x, low, high).value() <= arith::num(ONE).value(),
{
    let range = high.minus(low);
    exact::lemma_zero_value(arith::num(0));
    exact::lemma_one();
    if arith::num(arith::EPSILON).less(range.absolute()) {
        lemma_wide(range);
        let d = x.minus(low);
        rounding::lemma_plus_is_number(x, low.negated());
        let q = d.over(range);
        exact::lemma_zero_value(range);
        let n = arith::absolute(d.value()) * scalar::unit();
        assert(n >= 0) by (nonlinear_arith)
            requires
                n == arith::absolute(d.value()) * scalar::unit(),
                scalar::unit() > 0,
        ;
        rounding::lemma_nearest_exists(n, arith::absolute(range.value()));
        assert(!q.nan());
        scalar::lemma_value_order(q, arith::num(ONE));
        scalar::lemma_value_order(q, arith::num(0));
    }
}

proof fn lemma_pos_finite(x: Scalar, low: Scalar, high: Scalar, axis: Seq<Scalar>)
    requires
        spaced(axis),
        tame(x, low, high),
    ensures
        place_on(x, low, high, axis).1.finite(),
{
    reveal(place_on);
    let n = portion(x, low, high);
    lemma_portion_in_range(x, low, high);
    if axis.len() > 1 {
        lemma_cell_in_range(axis, n, 0);
        let i = cell_from(axis, n, 0);
        assert(axis[i].finite() && axis[i + 1].finite());
        lemma_portion_in_range(n, axis[i], axis[i + 1]);
    }
}

/// The stored offsets of a vertex do not change along the first axis.
pub open spec fn level_across(param: InxParam, flat: InxFlatDeform, v: int) -> bool {
    let rows = param.axis_points[1]@.len() as int;
    forall|i: int, k: int, j: int|
        #![trigger stored_offset(flat, rows, i, j, v), stored_offset(flat, rows, k, j, v)]
        0 <= i < param.axis_points[0]@.len() && 0 <= k < param.axis_points[0]@.len() && 0 <= j
            < rows ==> exact::alike2(
            stored_offset(flat, rows, i, j, v),
            stored_offset(flat, rows, k, j, v),
        )
}

/// The stored offsets of a vertex do not change along the second axis.
pub open spec fn level_along(param: InxParam, flat: InxFlatDeform, v: int) -> bool {
    let rows = param.axis_points[1]@.len() as int;
    forall|i: int, j: int, k: int|
        #![trigger stored_offset(flat, rows, i, j, v), stored_offset(flat, rows, i, k, v)]
        0 <= i < param.axis_points[0]@.len() && 0 <= j < rows && 0 <= k < rows ==> exact::alike2(
            stored_offset(flat, rows, i, j, v),
            stored_offset(flat, rows, i, k, v),
        )
}

/// Only the component of a param that belongs to an axis moves a vertex along it:
/// where the stored offsets do not change along the first axis, the first component
/// does not count, and where they do not change along the second, the second does
/// not.
pub proof fn lemma_deform_follows_axes(
    param: InxParam,
    value: [Scalar; 2],
    other: [Scalar; 2],
    binding: InxBinding,
    flat: InxFlatDeform,
    v: int,
)
    requires
        deforms_vertex(param, binding, flat, v),
        tame(value[0], param.min[0], param.max[0]),
        tame(value[1], param.min[1], param.max[1]),
        tame(other[0], param.min[0], param.max[0]),
        tame(other[1], param.min[1], param.max[1]),
        forall|i: int, j: int|
            0 <= i < param.axis_points[0]@.len() && 0 <= j < param.axis_points[1]@.len()
                ==> finite_offset(
                #[trigger] stored_offset(flat, param.axis_points[1]@.len() as int, i, j, v),
            ),
    ensures
        (value[1] == other[1] && level_across(param, flat, v)) || (value[0] == other[0]
            && level_along(param, flat, v)) ==> {
            &&& binding_offsets(param, value, binding) matches Some(a)
            &&& binding_offsets(param, other, binding) matches Some(b)
            &&& exact::alike2(a[v], b[v])
        },
{
    let a0 = param.axis_points[0]@;
    let a1 = param.axis_points[1]@;
    let rows = a1.len() as int;
    let columns = a0.len() as int;
    let mode = binding.interpolation;
    lemma_pos_finite(value[0], param.min[0], param.max[0], a0);
    lemma_pos_finite(value[1], param.min[1], param.max[1], a1);
    lemma_pos_finite(other[0], param.min[0], param.max[0], a0);
    lemma_pos_finite(other[1], param.min[1], param.max[1], a1);
    let (p, fx) = place_on(value[0], param.min[0], param.max[0], a0);
    let (q, fy) = place_on(value[1], param.min[1], param.max[1], a1);
    let (r, gx) = place_on(other[0], param.min[0], param.max[0], a0);
    let (t, gy) = place_on(other[1], param.min[1], param.max[1], a1);
    lemma_vertex_cell(param, value, binding, flat, v, p, q, fx, fy);
    lemma_vertex_cell(param, other, binding, flat, v, r, t, gx, gy);
    let k = at_most(p + 1, columns - 1);
    let m = at_most(r + 1, columns - 1);
    let c0 = stored_offset(flat, rows, p, q, v);
    let c1 = stored_offset(flat, rows, k, q, v);
    let c2 = stored_offset(flat, rows, p, q + 1, v);
    let c3 = stored_offset(flat, rows, k, q + 1, v);
    let d0 = stored_offset(flat, rows, r, t, v);
    let d1 = stored_offset(flat, rows, m, t, v);
    let d2 = stored_offset(flat, rows, r, t + 1, v);
    let d3 = stored_offset(flat, rows, m, t + 1, v);
    assert(finite_offset(d0) && finite_offset(d1) && finite_offset(d2) && finite_offset(d3));
    if value[1] == other[1] && level_across(param, flat, v) {
        assert(exact::alike2(c0, d0) && exact::alike2(c1, d1) && exact::alike2(c2, d2)
            && exact::alike2(c3, d3) && exact::alike2(d0, d1) && exact::alike2(d2, d3));
        lemma_cells_level(c0, c1, c2, c3, d0, d1, d2, d3, fx, fy, gx, gy, mode);
    }
    if value[0] == other[0] && level_along(param, flat, v) {
        assert(exact::alike2(c0, d0) && exact::alike2(c1, d1) && exact::alike2(c2, d2)
            && exact::alike2(c3, d3) && exact::alike2(d0, d2) && exact::alike2(d1, d3));
        lemma_cells_level(c0, c1, c2, c3, d0, d1, d2, d3, fx, fy, gx, gy, mode);
    }
}

proof fn lemma_cells_level(
    c0: [Scalar; 2],
    c1: [Scalar; 2],
    c2: [Scalar; 2],
    c3: [Scalar; 2],
    d0: [Scalar; 2],
    d1: [Scalar; 2],
    d2: [Scalar; 2],
    d3: [Scalar; 2],
    fx: Scalar,
    fy: Scalar,
    gx: Scalar,
    gy: Scalar,
    mode: InxInterpolation,
)
    requires
        exact::alike2(c0, d0),
        exact::alike2(c1, d1),
        exact::alike2(c2, d2),
        exact::alike2(c3, d3),
        fx.finite(),
        fy.finite(),
        gx.finite(),
        gy.finite(),
        finite_offset(d0),
        finite_offset(d1),
        finite_offset(d2),
        finite_offset(d3),
        (fy == gy && exact::alike2(d0, d1) && exact::alike2(d2, d3)) || (fx == gx
            && exact::alike2(d0, d2) && exact::alike2(d1, d3)),
    ensures
        exact::alike2(
            cell_offset(c0, c1, c2, c3, fx, fy, mode),
            cell_offset(d0, d1, d2, d3, gx, gy, mode),
        ),
{
    reveal(cell_offset);
    let x = [d0[0], d1[0], d2[0], d3[0]];
    let y = [d0[1], d1[1], d2[1], d3[1]];
    lemma_cell_alike([c0[0], c1[0], c2[0], c3[0]], x, fx, fy, mode);
    lemma_cell_alike([c0[1], c1[1], c2[1], c3[1]], y, fx, fy, mode);
    lemma_cell_level(x, fx, gx, fy, gy, mode);
    lemma_cell_level(y, fx, gx, fy, gy, mode);
    exact::lemma_negated_alike(
        in_cell([c0[1], c1[1], c2[1], c3[1]], fx, fy, mode),
        in_cell(y, gx, gy, mode),
    );
}

proof fn lemma_cell_alike(
    c: [Scalar; 4],
    d: [Scalar; 4],
    fx: Scalar,
    fy: Scalar,
    mode: InxInterpolation,
)
    requires
        exact::alike(c[0], d[0]),
        exact::alike(c[1], d[1]),
        exact::alike(c[2], d[2]),
        exact::alike(c[3], d[3]),
    ensures
        exact::alike(in_cell(c, fx, fy, mode), in_cell(d, fx, fy, mode)),
{
    lemma_lerp_alike(c[0], c[1], d[0], d[1], fx);
    lemma_lerp_alike(c[2], c[3], d[2], d[3], fx);
    lemma_lerp_alike(
        lerp_of(c[0], c[1], fx),
        lerp_of(c[2], c[3], fx),
        lerp_of(d[0], d[1], fx),
        lerp_of(d[2], d[3], fx),
        fy,
    );
}

/// Inside a cell of its grid a vertex is at the bilinear mean of the four stored
/// offsets: those of (p, q), (p + 1, q), (p, q + 1) and (p + 1, q + 1) are `x0` to `x3`
/// in one component, with few digits, and the value of the param is `kx` sixteenths
/// along the first axis and `ky` along the second.
pub proof fn lemma_deform_is_bilinear(
    param: InxParam,
    value: [Scalar; 2],
    binding: InxBinding,
    flat: InxFlatDeform,
    v: int,
    h: int,
    p: int,
    q: int,
    x0: int,
    x1: int,
    x2: int,
    x3: int,
    kx: int,
    ky: int,
    s: nat,
)
    requires
        deforms_vertex(param, binding, flat, v),
        binding.interpolation != InxInterpolation::Stepped,
        0 <= h < 2,
        in_part(value[0], param.min[0], param.max[0], param.axis_points[0]@, p, kx),
        in_part(value[1], param.min[1], param.max[1], param.axis_points[1]@, q, ky),
        exact::stands_for(
            stored_offset(flat, param.axis_points[1]@.len() as int, p, q, v)[h],
            x0,
            s,
        ),
        exact::stands_for(
            stored_offset(flat, param.axis_points[1]@.len() as int, p + 1, q, v)[h],
            x1,
            s,
        ),
        exact::stands_for(
            stored_offset(flat, param.axis_points[1]@.len() as int, p, q + 1, v)[h],
            x2,
            s,
        ),
        exact::stands_for(
            stored_offset(flat, param.axis_points[1]@.len() as int, p + 1, q + 1, v)[h],
            x3,
            s,
        ),
        -0x80 <= x0 <= 0x80,
        -0x80 <= x1 <= 0x80,
        -0x80 <= x2 <= 0x80,
        -0x80 <= x3 <= 0x80,
        8 <= s <= 252,
    ensures
        binding_offsets(param, value, binding) matches Some(offsets) && {
            let mean = (16 - ky) * ((16 - kx) * x0 + kx * x1) + ky * ((16 - kx) * x2 + kx * x3);
            &&& h == 0 ==> exact::stands_for(offsets[v][0], mean, (s - 8) as nat)
            &&& h == 1 ==> exact::stands_for(offsets[v][1], -mean, (s - 8) as nat)
        },
{
    let a0 = param.axis_points[0]@;
    let a1 = param.axis_points[1]@;
    let rows = a1.len() as int;
    lemma_part_pos(value[0], param.min[0], param.max[0], a0, p, kx);
    lemma_part_pos(value[1], param.min[1], param.max[1], a1, q, ky);
    let fx = place_on(value[0], param.min[0], param.max[0], a0).1;
    let fy = place_on(value[1], param.min[1], param.max[1], a1).1;
    lemma_vertex_cell(param, value, binding, flat, v, p, q, fx, fy);
    let c = [
        stored_offset(flat, rows, p, q, v)[h],
        stored_offset(flat, rows, p + 1, q, v)[h],
        stored_offset(flat, rows, p, q + 1, v)[h],
        stored_offset(flat, rows, p + 1, q + 1, v)[h],
    ];
    reveal(cell_offset);
    lemma_cell_exact(c, fx, fy, binding.interpolation, x0, x1, x2, x3, kx, ky, s);
    let r = in_cell(c, fx, fy, binding.interpolation);
    let mean = (16 - ky) * ((16 - kx) * x0 + kx * x1) + ky * ((16 - kx) * x2 + kx * x3);
    exact::lemma_opposite(r, mean, (s - 8) as nat);
}

/// The number that is stored for point (i, j) of a grid: the frames of the first axis
/// follow each other, and in each the points of the second axis. It is 0 where the
/// data ends early.
#[verifier::opaque]
pub open spec fn stored_value(flat: InxFlatTransform, i: int, j: int) -> Scalar {
    let at = i * flat.values_per_frame + j;
    if at < flat.data@.len() {
        flat.data@[at]
    } else {
        arith::num(0)
    }
}

/// A binding with a number for each point of the grid of its param, all of them
/// authored.
pub open spec fn drives_value(param: InxParam, binding: InxBinding, flat: InxFlatTransform) -> bool {
    &&& spaced(param.axis_points[0]@)
    &&& binding.values == InxBindingValues::Transform(flat)
    &&& flat.data@.len() > 0
    &&& flat.frames == param.axis_points[0]@.len()
    &&& flat.values_per_frame == param.axis_points[1]@.len()
    &&& flat.values_per_frame > 0
    &&& forall|x: int, y: int|
        0 <= x < flat.frames && 0 <= y < flat.values_per_frame ==> #[trigger] authored(
            binding.is_set@,
            x,
            y,
            true,
        )
}

/// The param has two axes.
pub open spec fn has_plane(param: InxParam) -> bool {
    param.is_vec2 && param.axis_points[1]@.len() > 1 && spaced(param.axis_points[1]@)
}

proof fn lemma_point_value(flat: InxFlatTransform, is_set: Seq<Vec<bool>>, i: int, j: int)
    requires
        authored(is_set, i, j, true),
    ensures
        point_value(flat, is_set, i, j) == stored_value(flat, i, j),
{
    reveal(stored_value);
}

proof fn lemma_value_cell(
    param: InxParam,
    value: [Scalar; 2],
    binding: InxBinding,
    flat: InxFlatTransform,
    i: int,
    j: int,
    fx: Scalar,
    fy: Scalar,
)
    requires
        drives_value(param, binding, flat),
        has_plane(param),
        (i, fx) == place_on(value[0], param.min[0], param.max[0], param.axis_points[0]@),
        (j, fy) == place_on(value[1], param.min[1], param.max[1], param.axis_points[1]@),
    ensures
        ({
            let k = at_most(i + 1, param.axis_points[0]@.len() - 1);
            &&& 0 <= i < param.axis_points[0]@.len()
            &&& 0 <= j && j + 1 < param.axis_points[1]@.len()
            &&& binding_value(param, value, binding) == in_cell(
                [
                    stored_value(flat, i, j),
                    stored_value(flat, k, j),
                    stored_value(flat, i, j + 1),
                    stored_value(flat, k, j + 1),
                ],
                fx,
                fy,
                binding.interpolation,
            )
        }),
{
    reveal(place_on);
    let a0 = param.axis_points[0]@;
    let a1 = param.axis_points[1]@;
    if a0.len() > 1 {
        lemma_cell_in_range(a0, portion(value[0], param.min[0], param.max[0]), 0);
    }
    lemma_cell_in_range(a1, portion(value[1], param.min[1], param.max[1]), 0);
    let k = at_most(i + 1, a0.len() - 1);
    lemma_point_value(flat, binding.is_set@, i, j);
    lemma_point_value(flat, binding.is_set@, k, j);
    lemma_point_value(flat, binding.is_set@, i, j + 1);
    lemma_point_value(flat, binding.is_set@, k, j + 1);
    assert(corners(flat, binding.is_set@, i, j) == [
        stored_value(flat, i, j),
        stored_value(flat, k, j),
        stored_value(flat, i, j + 1),
        stored_value(flat, k, j + 1),
    ]);
}

/// The stored numbers are finite, and the ways between neighbouring points can be
/// gone.
pub open spec fn values_joined(param: InxParam, flat: InxFlatTransform) -> bool {
    let columns = param.axis_points[0]@.len() as int;
    let rows = param.axis_points[1]@.len() as int;
    &&& forall|i: int, j: int|
        0 <= i < columns && 0 <= j < rows ==> (#[trigger] stored_value(flat, i, j)).finite()
    &&& forall|i: int, k: int, j: int|
        #![trigger stored_value(flat, i, j), stored_value(flat, k, j)]
        0 <= i && k == i + 1 && k < columns && 0 <= j < rows ==> meets(
            stored_value(flat, i, j),
            stored_value(flat, k, j),
        )
    &&& forall|i: int, j: int, k: int|
        #![trigger stored_value(flat, i, j), stored_value(flat, i, k)]
        0 <= i < columns && 0 <= j && k == j + 1 && k < rows ==> meets(
            stored_value(flat, i, j),
            stored_value(flat, i, k),
        )
}

proof fn lemma_joined_values(param: InxParam, flat: InxFlatTransform, p: int, k: int, q: int)
    requires
        values_joined(param, flat),
        0 <= p < param.axis_points[0]@.len(),
        k == at_most(p + 1, param.axis_points[0]@.len() - 1),
        0 <= q,
        q + 1 < param.axis_points[1]@.len(),
    ensures
        meets(stored_value(flat, p, q), stored_value(flat, k, q)),
        meets(stored_value(flat, p, q + 1), stored_value(flat, k, q + 1)),
        meets(stored_value(flat, p, q), stored_value(flat, p, q + 1)),
        meets(stored_value(flat, k, q), stored_value(flat, k, q + 1)),
{
    lemma_meets_self(stored_value(flat, p, q));
    lemma_meets_self(stored_value(flat, p, q + 1));
}

/// At a value of a param that lies on point (i, j) of its grid, a binding gives the
/// number that is stored for that point.
pub proof fn lemma_value_on_grid_point(
    param: InxParam,
    value: [Scalar; 2],
    binding: InxBinding,
    flat: InxFlatTransform,
    i: int,
    j: int,
)
    requires
        drives_value(param, binding, flat),
        has_plane(param),
        on_point(value[0], param.min[0], param.max[0], param.axis_points[0]@, i),
        on_point(value[1], param.min[1], param.max[1], param.axis_points[1]@, j),
        binding.interpolation != InxInterpolation::Stepped ==> values_joined(param, flat),
    ensures
        exact::alike(binding_value(param, value, binding), stored_value(flat, i, j)),
{
    let a0 = param.axis_points[0]@;
    let a1 = param.axis_points[1]@;
    lemma_point_pos(value[0], param.min[0], param.max[0], a0, i);
    lemma_point_pos(value[1], param.min[1], param.max[1], a1, j);
    let (p, fx) = place_on(value[0], param.min[0], param.max[0], a0);
    let (q, fy) = place_on(value[1], param.min[1], param.max[1], a1);
    lemma_value_cell(param, value, binding, flat, p, q, fx, fy);
    let k = at_most(p + 1, a0.len() - 1);
    if binding.interpolation != InxInterpolation::Stepped {
        lemma_joined_values(param, flat, p, k, q);
    }
    let right: int = if i == 0 {
        0
    } else {
        1
    };
    let down: int = if j == 0 {
        0
    } else {
        1
    };
    lemma_corner1(
        stored_value(flat, p, q),
        stored_value(flat, k, q),
        stored_value(flat, p, q + 1),
        stored_value(flat, k, q + 1),
        fx,
        fy,
        binding.interpolation,
        right,
        down,
    );
}

/// Inside a cell of its grid a binding gives the bilinear mean of the four stored
/// numbers: those of (p, q), (p + 1, q), (p, q + 1) and (p + 1, q + 1) are `x0` to `x3`,
/// with few digits, and the value of the param is `kx` sixteenths along the first axis
/// and `ky` along the second.
pub proof fn lemma_value_is_bilinear(
    param: InxParam,
    value: [Scalar; 2],
    binding: InxBinding,
    flat: InxFlatTransform,
    p: int,
    q: int,
    x0: int,
    x1: int,
    x2: int,
    x3: int,
    kx: int,
    ky: int,
    s: nat,
)
    requires
        drives_value(param, binding, flat),
        has_plane(param),
        binding.interpolation != InxInterpolation::Stepped,
        in_part(value[0], param.min[0], param.max[0], param.axis_points[0]@, p, kx),
        in_part(value[1], param.min[1], param.max[1], param.axis_points[1]@, q, ky),
        exact::stands_for(stored_value(flat, p, q), x0, s),
        exact::stands_for(stored_value(flat, p + 1, q), x1, s),
        exact::stands_for(stored_value(flat, p, q + 1), x2, s),
        exact::stands_for(stored_value(flat, p + 1, q + 1), x3, s),
        -0x80 <= x0 <= 0x80,
        -0x80 <= x1 <= 0x80,
        -0x80 <= x2 <= 0x80,
        -0x80 <= x3 <= 0x80,
        8 <= s <= 252,
    ensures
        exact::stands_for(
            binding_value(param, value, binding),
            (16 - ky) * ((16 - kx) * x0 + kx * x1) + ky * ((16 - kx) * x2 + kx * x3),
            (s - 8) as nat,
        ),
{
    let a0 = param.axis_points[0]@;
    let a1 = param.axis_points[1]@;
    lemma_part_pos(value[0], param.min[0], param.max[0], a0, p, kx);
    lemma_part_pos(value[1], param.min[1], param.max[1], a1, q, ky);
    let fx = place_on(value[0], param.min[0], param.max[0], a0).1;
    let fy = place_on(value[1], param.min[1], param.max[1], a1).1;
    lemma_value_cell(param, value, binding, flat, p, q, fx, fy);
    let c = [
        stored_value(flat, p, q),
        stored_value(flat, p + 1, q),
        stored_value(flat, p, q + 1),
        stored_value(flat, p + 1, q + 1),
    ];
    lemma_cell_exact(c, fx, fy, binding.interpolation, x0, x1, x2, x3, kx, ky, s);
}

/// A spline through four numbers is the polynomial of Catmull and Rom: `k` sixteenths
/// of the way from `x1` to `x2` it is half of
/// `2 x1 + (x2 - x0) t + (2 x0 - 5 x1 + 4 x2 - x3) t^2 + (3 x1 - x0 - 3 x2 + x3) t^3`,
/// with `t` for `k / 16`, counted in any unit and with few digits.
pub proof fn lemma_catmull_exact(
    p0: Scalar,
    p1: Scalar,
    p2: Scalar,
    p3: Scalar,
    t: Scalar,
    x0: int,
    x1: int,
    x2: int,
    x3: int,
    k: int,
    s: nat,
)
    requires
        exact::stands_for(p0, x0, s),
        exact::stands_for(p1, x1, s),
        exact::stands_for(p2, x2, s),
        exact::stands_for(p3, x3, s),
        exact::stands_for(t, k, 145),
        -0x40 <= x0 <= 0x40,
        -0x40 <= x1 <= 0x40,
        -0x40 <= x2 <= 0x40,
        -0x40 <= x3 <= 0x40,
        0 <= k <= 16,
        13 <= s <= 250,
    ensures
        exact::stands_for(
            catmull_of(p0, p1, p2, p3, t),
            8192 * x1 + 256 * ((x2 - x0) * k) + 16 * ((2 * x0 - 5 * x1 + 4 * x2 - x3) * (k * k)) + (
            3 * x1 - x0 - 3 * x2 + x3) * (k * k * k),
            (s - 13) as nat,
        ),
{
    let two = arith::num(arith::TWO);
    let three = arith::num(arith::THREE);
    let four = arith::num(arith::FOUR);
    let five = arith::num(arith::FIVE);
    let half = arith::num(arith::HALF);
    vstd::arithmetic::power2::lemma2_to64();
    exact::lemma_small();
    let (k2, k3) = (k * k, k * k * k);
    assert(0 <= k2 <= 256 && 0 <= k3 <= 4096 && k3 == k2 * k) by (nonlinear_arith)
        requires
            0 <= k <= 16,
            k2 == k * k,
            k3 == k * k * k,
    ;
    let t2 = t.times(t);
    let t3 = t2.times(t);
    exact::lemma_product(t, k, 145, t, k, 145);
    exact::lemma_product(t2, k2, 141, t, k, 145);
    exact::lemma_opposite(p0, x0, s);
    let c1 = p0.negated().plus(p2);
    let n1 = x2 - x0;
    exact::lemma_sum(p0.negated(), -x0, p2, x2, s);
    exact::lemma_product(two, 2, 149, p0, x0, s);
    exact::lemma_product(two, 2, 149, p1, x1, s);
    exact::lemma_product(five, 5, 149, p1, x1, s);
    exact::lemma_product(four, 4, 149, p2, x2, s);
    exact::lemma_product(three, 3, 149, p1, x1, s);
    exact::lemma_product(three, 3, 149, p2, x2, s);
    let n2 = 2 * x0 - 5 * x1 + 4 * x2 - x3;
    exact::lemma_difference(two.times(p0), 2 * x0, five.times(p1), 5 * x1, s);
    let d1 = two.times(p0).minus(five.times(p1));
    exact::lemma_sum(d1, 2 * x0 - 5 * x1, four.times(p2), 4 * x2, s);
    let d2 = d1.plus(four.times(p2));
    exact::lemma_difference(d2, 2 * x0 - 5 * x1 + 4 * x2, p3, x3, s);
    let c2 = d2.minus(p3);
    let n3 = 3 * x1 - x0 - 3 * x2 + x3;
    exact::lemma_sum(p0.negated(), -x0, three.times(p1), 3 * x1, s);
    let e1 = p0.negated().plus(three.times(p1));
    exact::lemma_difference(e1, 3 * x1 - x0, three.times(p2), 3 * x2, s);
    let e2 = e1.minus(three.times(p2));
    exact::lemma_sum(e2, 3 * x1 - x0 - 3 * x2, p3, x3, s);
    let c3 = e2.plus(p3);
    assert(-0x800 <= n1 * k <= 0x800 && -0x3_0000 <= n2 * k2 <= 0x3_0000 && -0x20_0000 <= n3 * k3
        <= 0x20_0000) by (nonlinear_arith)
        requires
            0 <= k <= 16,
            0 <= k2 <= 256,
            0 <= k3 <= 4096,
            -0x80 <= n1 <= 0x80,
            -0x300 <= n2 <= 0x300,
            -0x200 <= n3 <= 0x200,
    ;
    exact::lemma_product(c1, n1, s, t, k, 145);
    exact::lemma_product(c2, n2, s, t2, k2, 141);
    exact::lemma_product(c3, n3, s, t3, k3, 137);
    let (r1, r2, r3) = ((s - 4) as nat, (s - 8) as nat, (s - 12) as nat);
    exact::lemma_finer(two.times(p1), 2 * x1, s, 4);
    exact::lemma_sum(two.times(p1), 32 * x1, c1.times(t), n1 * k, r1);
    let s1 = two.times(p1).plus(c1.times(t));
    let m1 = 32 * x1 + n1 * k;
    exact::lemma_finer(s1, m1, r1, 4);
    exact::lemma_sum(s1, 16 * m1, c2.times(t2), n2 * k2, r2);
    let s2 = s1.plus(c2.times(t2));
    let m2 = 16 * m1 + n2 * k2;
    exact::lemma_finer(s2, m2, r2, 4);
    exact::lemma_sum(s2, 16 * m2, c3.times(t3), n3 * k3, r3);
    let s3 = s2.plus(c3.times(t3));
    exact::lemma_product(half, 1, 148, s3, 16 * m2 + n3 * k3, r3);
}

/// The param has one axis.
pub open spec fn has_line(param: InxParam) -> bool {
    param.axis_points[1]@.len() == 1
}

proof fn lemma_line_value(param: InxParam, binding: InxBinding, flat: InxFlatTransform, i: int)
    requires
        drives_value(param, binding, flat),
        0 <= i < param.axis_points[0]@.len(),
    ensures
        line_value(flat, binding.is_set@, i) == stored_value(flat, i, 0),
{
    reveal(stored_value);
    assert(authored(binding.is_set@, i, 0, true));
}

/// A binding of a param with one axis, in a cell of it.
proof fn lemma_value_line(
    param: InxParam,
    value: [Scalar; 2],
    binding: InxBinding,
    flat: InxFlatTransform,
    i: int,
    f: Scalar,
)
    requires
        drives_value(param, binding, flat),
        has_line(param),
        (i, f) == place_on(value[0], param.min[0], param.max[0], param.axis_points[0]@),
    ensures
        ({
            let last = param.axis_points[0]@.len() - 1;
            let v0 = stored_value(flat, i, 0);
            let v1 = stored_value(flat, at_most(i + 1, last), 0);
            let before = stored_value(
                flat,
                if i > 0 {
                    i - 1
                } else {
                    i
                },
                0,
            );
            let after = stored_value(flat, at_most(i + 2, last), 0);
            &&& 0 <= i <= last
            &&& binding_value(param, value, binding) == match binding.interpolation {
                InxInterpolation::Stepped => v0,
                InxInterpolation::Linear => lerp_of(v0, v1, f),
                InxInterpolation::Cubic => catmull_of(before, v0, v1, after, f),
            }
        }),
{
    reveal(place_on);
    let a0 = param.axis_points[0]@;
    if a0.len() > 1 {
        lemma_cell_in_range(a0, portion(value[0], param.min[0], param.max[0]), 0);
    }
    let last = a0.len() - 1;
    lemma_line_value(param, binding, flat, i);
    lemma_line_value(param, binding, flat, at_most(i + 1, last));
    lemma_line_value(param, binding, flat, at_most(i + 2, last));
    if i > 0 {
        lemma_line_value(param, binding, flat, i - 1);
    }
}

/// On a point of its only axis a linear binding gives the number that is stored for
/// the point. A stepped one gives, up to a point, the number of the point before.
pub proof fn lemma_value_on_point(
    param: InxParam,
    value: [Scalar; 2],
    binding: InxBinding,
    flat: InxFlatTransform,
    i: int,
)
    requires
        drives_value(param, binding, flat),
        has_line(param),
        on_point(value[0], param.min[0], param.max[0], param.axis_points[0]@, i),
        binding.interpolation == InxInterpolation::Linear ==> values_joined(param, flat),
    ensures
        binding.interpolation == InxInterpolation::Linear ==> exact::alike(
            binding_value(param, value, binding),
            stored_value(flat, i, 0),
        ),
        binding.interpolation == InxInterpolation::Stepped ==> binding_value(param, value, binding)
            == stored_value(
            flat,
            if i == 0 {
                0
            } else {
                i - 1
            },
            0,
        ),
{
    let a0 = param.axis_points[0]@;
    lemma_point_pos(value[0], param.min[0], param.max[0], a0, i);
    let (p, f) = place_on(value[0], param.min[0], param.max[0], a0);
    lemma_value_line(param, value, binding, flat, p, f);
    if binding.interpolation == InxInterpolation::Linear {
        let k = at_most(p + 1, a0.len() - 1);
        lemma_meets_self(stored_value(flat, p, 0));
        assert(meets(stored_value(flat, p, 0), stored_value(flat, k, 0)));
        let end: int = if i == 0 {
            0
        } else {
            1
        };
        lemma_lerp_at_end(stored_value(flat, p, 0), stored_value(flat, k, 0), f, end);
    }
}

/// Between two points of its only axis a binding is on the line between their numbers
/// `x1` and `x2`, or, if it is cubic, on the spline that also takes in the numbers `x0`
/// and `x3` beside them. At either end of the axis the last number stands for the one
/// that is not there.
pub proof fn lemma_value_between_points(
    param: InxParam,
    value: [Scalar; 2],
    binding: InxBinding,
    flat: InxFlatTransform,
    p: int,
    x0: int,
    x1: int,
    x2: int,
    x3: int,
    k: int,
    s: nat,
)
    requires
        drives_value(param, binding, flat),
        has_line(param),
        in_part(value[0], param.min[0], param.max[0], param.axis_points[0]@, p, k),
        exact::stands_for(stored_value(flat, p, 0), x1, s),
        exact::stands_for(stored_value(flat, p + 1, 0), x2, s),
        if p > 0 {
            exact::stands_for(stored_value(flat, p - 1, 0), x0, s)
        } else {
            x0 == x1
        },
        if p + 2 < param.axis_points[0]@.len() {
            exact::stands_for(stored_value(flat, p + 2, 0), x3, s)
        } else {
            x3 == x2
        },
        -0x40 <= x0 <= 0x40,
        -0x40 <= x1 <= 0x40,
        -0x40 <= x2 <= 0x40,
        -0x40 <= x3 <= 0x40,
        13 <= s <= 250,
    ensures
        binding.interpolation == InxInterpolation::Stepped ==> exact::stands_for(
            binding_value(param, value, binding),
            x1,
            s,
        ),
        binding.interpolation == InxInterpolation::Linear ==> exact::stands_for(
            binding_value(param, value, binding),
            (16 - k) * x1 + k * x2,
            (s - 4) as nat,
        ),
        binding.interpolation == InxInterpolation::Cubic ==> exact::stands_for(
            binding_value(param, value, binding),
            8192 * x1 + 256 * ((x2 - x0) * k) + 16 * ((2 * x0 - 5 * x1 + 4 * x2 - x3) * (k * k)) + (
            3 * x1 - x0 - 3 * x2 + x3) * (k * k * k),
            (s - 13) as nat,
        ),
{
    let a0 = param.axis_points[0]@;
    let last = a0.len() - 1;
    lemma_part_pos(value[0], param.min[0], param.max[0], a0, p, k);
    let f = place_on(value[0], param.min[0], param.max[0], a0).1;
    lemma_value_line(param, value, binding, flat, p, f);
    let v0 = stored_value(flat, p, 0);
    let v1 = stored_value(flat, p + 1, 0);
    vstd::arithmetic::power2::lemma2_to64();
    lemma_lerp_exact(v0, v1, f, x1, x2, k, s, 4);
    lemma_mean(x1, x2, k);
    let before = stored_value(
        flat,
        if p > 0 {
            p - 1
        } else {
            p
        },
        0,
    );
    let after = stored_value(flat, at_most(p + 2, last), 0);
    lemma_catmull_exact(before, v0, v1, after, f, x0, x1, x2, x3, k, s);
}

/// On a point of the only axis of its param each vertex has the offset that is stored
/// for the point, with Y turned up; a stepped binding gives, up to a point, the offset
/// of the point before.
pub proof fn lemma_deform_on_point(
    param: InxParam,
    value: [Scalar; 2],
    binding: InxBinding,
    flat: InxFlatDeform,
    v: int,
    i: int,
)
    requires
        has_line(param),
        spaced(param.axis_points[0]@),
        binding.values == InxBindingValues::Deform(flat),
        flat.data@.len() > 0,
        flat.frames > 0,
        0 <= v < flat.vertices_per_frame,
        on_point(value[0], param.min[0], param.max[0], param.axis_points[0]@, i),
        binding.interpolation != InxInterpolation::Stepped ==> joined(param, flat, v),
    ensures
        binding_offsets(param, value, binding) matches Some(offsets) && {
            let at = if i > 0 && binding.interpolation == InxInterpolation::Stepped {
                i - 1
            } else {
                i
            };
            let stored = stored_offset(flat, 1, at, 0, v);
            &&& offsets.len() == flat.vertices_per_frame
            &&& exact::alike2(offsets[v], [stored[0], stored[1].negated()])
        },
{
    let a0 = param.axis_points[0]@;
    let last = a0.len() - 1;
    lemma_point_pos(value[0], param.min[0], param.max[0], a0, i);
    let (p, f) = place_on(value[0], param.min[0], param.max[0], a0);
    let k = at_most(p + 1, last);
    let a = stored_offset(flat, 1, p, 0, v);
    let b = stored_offset(flat, 1, k, 0, v);
    lemma_vertex_line(param, value, binding, flat, v, p, f);
    let end: int = if i == 0 {
        0
    } else {
        1
    };
    if binding.interpolation != InxInterpolation::Stepped {
        assert(finite_offset(a));
        lemma_meets_self(a[0]);
        lemma_meets_self(a[1]);
        assert(meets2(a, b));
        lemma_lerp_at_end(a[0], b[0], f, end);
        lemma_lerp_at_end(a[1], b[1], f, end);
        exact::lemma_negated_alike(
            lerp_of(a[1], b[1], f),
            if end == 0 {
                a[1]
            } else {
                b[1]
            },
        );
    }
}

proof fn lemma_vertex_line(
    param: InxParam,
    value: [Scalar; 2],
    binding: InxBinding,
    flat: InxFlatDeform,
    v: int,
    i: int,
    f: Scalar,
)
    requires
        has_line(param),
        spaced(param.axis_points[0]@),
        binding.values == InxBindingValues::Deform(flat),
        flat.data@.len() > 0,
        flat.frames > 0,
        0 <= v < flat.vertices_per_frame,
        (i, f) == place_on(value[0], param.min[0], param.max[0], param.axis_points[0]@),
    ensures
        ({
            let last = param.axis_points[0]@.len() - 1;
            let a = stored_offset(flat, 1, i, 0, v);
            let b = stored_offset(flat, 1, at_most(i + 1, last), 0, v);
            &&& 0 <= i <= last
            &&& binding_offsets(param, value, binding) matches Some(offsets)
            &&& offsets.len() == flat.vertices_per_frame
            &&& offsets[v] == match binding.interpolation {
                InxInterpolation::Stepped => [a[0], a[1].negated()],
                _ => [lerp_of(a[0], b[0], f), lerp_of(a[1], b[1], f).negated()],
            }
        }),
{
    reveal(place_on);
    reveal(stored_offset);
    let a0 = param.axis_points[0]@;
    if a0.len() > 1 {
        lemma_cell_in_range(a0, portion(value[0], param.min[0], param.max[0]), 0);
    }
    let per = flat.vertices_per_frame as int;
    assert(per / 1 == per);
    assert(forall|x: int| #[trigger] (x * 1) == x);
    let offsets = grid_offsets(param, value, flat, binding.interpolation);
    let nx = portion(value[0], param.min[0], param.max[0]);
    let ny = portion(value[1], param.min[1], param.max[1]);
    assert(offsets[v] == vertex_offset(param, flat, binding.interpolation, nx, ny, v));
}

/// Between two points of the only axis of its param a vertex is on the line between
/// the stored offsets `x` and `y`, in one component, with Y turned up.
pub proof fn lemma_deform_between_points(
    param: InxParam,
    value: [Scalar; 2],
    binding: InxBinding,
    flat: InxFlatDeform,
    v: int,
    h: int,
    p: int,
    x: int,
    y: int,
    k: int,
    s: nat,
)
    requires
        has_line(param),
        spaced(param.axis_points[0]@),
        binding.values == InxBindingValues::Deform(flat),
        binding.interpolation != InxInterpolation::Stepped,
        flat.data@.len() > 0,
        flat.frames > 0,
        0 <= v < flat.vertices_per_frame,
        0 <= h < 2,
        in_part(value[0], param.min[0], param.max[0], param.axis_points[0]@, p, k),
        exact::stands_for(stored_offset(flat, 1, p, 0, v)[h], x, s),
        exact::stands_for(stored_offset(flat, 1, p + 1, 0, v)[h], y, s),
        -0x80 <= x <= 0x80,
        -0x80 <= y <= 0x80,
        4 <= s <= 252,
    ensures
        binding_offsets(param, value, binding) matches Some(offsets) && {
            let mean = (16 - k) * x + k * y;
            &&& h == 0 ==> exact::stands_for(offsets[v][0], mean, (s - 4) as nat)
            &&& h == 1 ==> exact::stands_for(offsets[v][1], -mean, (s - 4) as nat)
        },
{
    let a0 = param.axis_points[0]@;
    lemma_part_pos(value[0], param.min[0], param.max[0], a0, p, k);
    let f = place_on(value[0], param.min[0], param.max[0], a0).1;
    lemma_vertex_line(param, value, binding, flat, v, p, f);
    let a = stored_offset(flat, 1, p, 0, v)[h];
    let b = stored_offset(flat, 1, p + 1, 0, v)[h];
    vstd::arithmetic::power2::lemma2_to64();
    lemma_lerp_exact(a, b, f, x, y, k, s, 4);
    lemma_mean(x, y, k);
    exact::lemma_opposite(lerp_of(a, b, f), (16 - k) * x + k * y, (s - 4) as nat);
}

/// A binding changes only the field of its name: a translation, scale or rotation is
/// not changed by a binding of another name, and what a deform is bound to changes
/// none of them.
pub proof fn lemma_named_field_changes(
    a: NodeAccum,
    name: InxParamName,
    value: Scalar,
    mode: InxMergeMode,
)
    ensures
        ({
            let r = accumulated(a, name, value, mode);
            &&& name != InxParamName::TransformTX ==> r.tx == a.tx
            &&& name != InxParamName::TransformTY ==> r.ty == a.ty
            &&& name != InxParamName::TransformTZ ==> r.tz == a.tz
            &&& name != InxParamName::TransformSX ==> r.sx == a.sx
            &&& name != InxParamName::TransformSY ==> r.sy == a.sy
            &&& name != InxParamName::TransformRX ==> r.rx == a.rx
            &&& name != InxParamName::TransformRY ==> r.ry == a.ry
            &&& name != InxParamName::TransformRZ ==> r.rz == a.rz
            &&& name != InxParamName::Opacity ==> r.opacity == a.opacity && r.has_opacity
                == a.has_opacity
            &&& name == InxParamName::Opacity ==> r.has_opacity
        }),
{
}

/// The first value that a node gets is taken as it is, in each mode but
/// multiplication of what rests at zero.
pub proof fn lemma_first_value_is_taken(value: Scalar, mode: InxMergeMode)
    requires
        value.finite(),
    ensures
        ({
            let of = |name: InxParamName| accumulated(no_effect(), name, value, mode);
            &&& mode != InxMergeMode::Multiply ==> {
                &&& exact::alike(of(InxParamName::TransformTX).tx, value)
                &&& exact::alike(of(InxParamName::TransformTY).ty, value)
                &&& exact::alike(of(InxParamName::TransformTZ).tz, value)
                &&& exact::alike(of(InxParamName::TransformRX).rx, value)
                &&& exact::alike(of(InxParamName::TransformRY).ry, value)
                &&& exact::alike(of(InxParamName::TransformRZ).rz, value)
            }
            &&& exact::alike(of(InxParamName::TransformSX).sx, value)
            &&& exact::alike(of(InxParamName::TransformSY).sy, value)
            &&& exact::alike(of(InxParamName::Opacity).opacity, value)
        }),
{
    exact::lemma_plus_zero(value, arith::num(0));
    exact::lemma_one_times(value);
}

/// Modes merge as they are called: adding adds, multiplying multiplies, and the others
/// replace. A scale and an opacity rest at 1, so there adding multiplies too. The
/// numbers `x`, of the field, and `y` have few digits.
pub proof fn lemma_modes_merge(
    a: NodeAccum,
    field: Scalar,
    value: Scalar,
    x: int,
    y: int,
    mode: InxMergeMode,
)
    requires
        exact::stands_for(field, x, 149),
        exact::stands_for(value, y, 149),
        -0x1000 <= x <= 0x1000,
        -0x1000 <= y <= 0x1000,
        a.tx == field,
        a.ty == field,
        a.tz == field,
        a.sx == field,
        a.sy == field,
        a.rx == field,
        a.ry == field,
        a.rz == field,
        a.opacity == field,
    ensures
        ({
            let of = |name: InxParamName| accumulated(a, name, value, mode);
            let sum = if mode == InxMergeMode::Additive {
                x + y
            } else if mode == InxMergeMode::Multiply {
                x * y
            } else {
                y
            };
            let product = if mode == InxMergeMode::Additive || mode == InxMergeMode::Multiply {
                x * y
            } else {
                y
            };
            &&& exact::stands_for(of(InxParamName::TransformTX).tx, sum, 149)
            &&& exact::stands_for(of(InxParamName::TransformTY).ty, sum, 149)
            &&& exact::stands_for(of(InxParamName::TransformTZ).tz, sum, 149)
            &&& exact::stands_for(of(InxParamName::TransformRX).rx, sum, 149)
            &&& exact::stands_for(of(InxParamName::TransformRY).ry, sum, 149)
            &&& exact::stands_for(of(InxParamName::TransformRZ).rz, sum, 149)
            &&& exact::stands_for(of(InxParamName::TransformSX).sx, product, 149)
            &&& exact::stands_for(of(InxParamName::TransformSY).sy, product, 149)
            &&& exact::stands_for(of(InxParamName::Opacity).opacity, product, 149)
        }),
{
    assert(-0x100_0000 <= x * y <= 0x100_0000) by (nonlinear_arith)
        requires
            -0x1000 <= x <= 0x1000,
            -0x1000 <= y <= 0x1000,
    ;
    exact::lemma_sum(field, x, value, y, 149);
    exact::lemma_product(field, x, 149, value, y, 149);
}

/// Easing goes from 0 to 1 along `3 t^2 - 2 t^3`: at `k` sixteenths of the way it is
/// `(48 k^2 - 2 k^3) / 4096`, and beyond either end it stays there.
pub proof fn lemma_eased_exact(t: Scalar, k: int)
    requires
        exact::stands_for(t, k, 145),
        -16 <= k <= 32,
    ensures
        0 <= k <= 16 ==> exact::stands_for(eased(t), 48 * (k * k) - 2 * (k * k * k), 137),
        k <= 0 ==> exact::stands_for(eased(t), 0, 137),
        k >= 16 ==> exact::stands_for(eased(t), 4096, 137),
{
    let zero = arith::num(0);
    let one = arith::num(ONE);
    let two = arith::num(arith::TWO);
    let three = arith::num(arith::THREE);
    let u = vstd::arithmetic::power2::pow2(145) as int;
    vstd::arithmetic::power2::lemma2_to64();
    vstd::arithmetic::power2::lemma_pow2_pos(145);
    exact::lemma_small();
    exact::lemma_zero_value(zero);
    exact::lemma_finer(one, 1, 149, 4);
    exact::lemma_finer(three, 3, 149, 4);
    let v = t.value();
    assert((v < 0 <==> k < 0) && (16 * u < v <==> 16 < k)) by (nonlinear_arith)
        requires
            v == k * u,
            u > 0,
    ;
    let c = t.clamped(zero, one);
    let j = if k < 0 {
        0
    } else if k > 16 {
        16
    } else {
        k
    };
    assert(exact::stands_for(zero, 0, 145));
    assert(exact::stands_for(c, j, 145));
    let j2 = j * j;
    let e = 48 - 2 * j;
    assert(0 <= j2 <= 256 && 0 <= j2 * e <= 0x4000) by (nonlinear_arith)
        requires
            0 <= j <= 16,
            j2 == j * j,
            e == 48 - 2 * j,
    ;
    exact::lemma_product(c, j, 145, c, j, 145);
    exact::lemma_product(two, 2, 149, c, j, 145);
    exact::lemma_difference(three, 48, two.times(c), 2 * j, 145);
    exact::lemma_product(c.times(c), j2, 141, three.minus(two.times(c)), e, 145);
    assert(j2 * e == 48 * (j * j) - 2 * (j * j * j)) by (nonlinear_arith)
        requires
            j2 == j * j,
            e == 48 - 2 * j,
    ;
}

/// A point of a line that is not authored takes the number of the nearest authored
/// point, on the left before the right.
pub proof fn lemma_nearest_on_line(is_set: Seq<Vec<bool>>, x: int, max: int, dist: int, o: int)
    requires
        0 <= x <= max,
        1 <= dist,
        0 <= o <= max,
        authored(is_set, o, 0, false),
        o - x >= dist || x - o >= dist,
    ensures
        ({
            let p = along(is_set, x, max, dist);
            let gap_p = if p < x {
                x - p
            } else {
                p - x
            };
            let gap_o = if o < x {
                x - o
            } else {
                o - x
            };
            &&& 0 <= p <= max
            &&& authored(is_set, p, 0, false)
            &&& dist <= gap_p <= gap_o
            &&& gap_p == gap_o && o < x ==> p == o
        }),
    decreases max + 1 - dist,
{
    if dist <= max {
        if x >= dist && authored(is_set, x - dist, 0, false) {
        } else if x + dist <= max && authored(is_set, x + dist, 0, false) {
        } else {
            lemma_nearest_on_line(is_set, x, max, dist + 1, o);
        }
    }
}

/// The ends of a param are at 0 and 1 of the way, and the way between them rises with
/// the value.
pub proof fn lemma_portion_rises(x: Scalar, y: Scalar, low: Scalar, high: Scalar)
    requires
        tame(x, low, high),
        tame(y, low, high),
        low.value() < x.value() <= y.value() <= high.value(),
        arith::num(arith::EPSILON).less(high.minus(low).absolute()),
    ensures
        portion(low, low, high).mag() == 0,
        portion(high, low, high) == arith::num(ONE),
        portion(x, low, high).value() <= portion(y, low, high).value(),
{
    let range = high.minus(low);
    let zero = arith::num(0);
    let one = arith::num(ONE);
    lemma_wide(range);
    exact::lemma_zero_value(zero);
    exact::lemma_one();
    exact::lemma_zero_value(range);
    arith::lemma_minus_self(low);
    exact::lemma_zero_over(low.minus(low), range);
    exact::lemma_zero_value(low.minus(low).over(range));
    exact::lemma_over_self(range);
    scalar::lemma_negated(low);
    lemma_difference_sign(low, high);
    rounding::lemma_nearest_exists(x.value() - low.value(), 1);
    rounding::lemma_nearest_exists(y.value() - low.value(), 1);
    rounding::lemma_plus_is_number(x, low.negated());
    rounding::lemma_plus_is_number(y, low.negated());
    rounding::lemma_plus_ordered(x, y, low.negated());
    rounding::lemma_plus_ordered(y, high, low.negated());
    let (a, b) = (x.minus(low), y.minus(low));
    scalar::lemma_value_order(a, range);
    scalar::lemma_value_order(b, range);
    arith::lemma_magnitudes(0, range.mag());
    arith::lemma_magnitudes(0, a.mag());
    arith::lemma_magnitudes(0, b.mag());
    exact::lemma_over_ordered(a, b, range);
    exact::lemma_over_ordered(b, range, range);
    exact::lemma_over_ordered(b, b, range);
    arith::lemma_magnitudes(0, a.over(range).mag());
    arith::lemma_magnitudes(0, b.over(range).mag());
}

proof fn lemma_nearest_point_exists(
    is_set: Seq<Vec<bool>>,
    max: (int, int),
    c: (int, int),
    p: (int, int),
)
    requires
        candidate(is_set, max, p),
    ensures
        exists|q: (int, int)| is_nearest_point(is_set, max, c, q),
    decreases gap(p, c), p.0 * (max.1 + 1) + p.1,
{
    if !is_nearest_point(is_set, max, c, p) {
        let o = choose|o: (int, int)| #[trigger]
            candidate(is_set, max, o) && !beats(p, o, c);
        let (a, b) = (o.0 - c.0, o.1 - c.1);
        assert(a * a >= 0 && b * b >= 0) by (nonlinear_arith);
        let m = max.1 + 1;
        let (x, y) = (o.0, p.0);
        assert(x * m >= 0) by (nonlinear_arith)
            requires
                x >= 0,
                m > 0,
        ;
        if x < y {
            assert(x * m + m <= y * m) by (nonlinear_arith)
                requires
                    x + 1 <= y,
                    m > 0,
            ;
        }
        lemma_nearest_point_exists(is_set, max, c, o);
    }
}

/// A point that is not authored takes the value of an authored one, and none of the
/// authored ones lies nearer: `o` is any of them.
pub proof fn lemma_nearest_point_is_taken(
    flat: InxFlatTransform,
    is_set: Seq<Vec<bool>>,
    x: int,
    y: int,
    o: (int, int),
) -> (p: (int, int))
    requires
        0 <= o.0 < flat.frames,
        0 <= o.1 < flat.values_per_frame,
        authored(is_set, o.0, o.1, false),
        !authored(is_set, x, y, true),
    ensures
        0 <= p.0 < flat.frames,
        0 <= p.1 < flat.values_per_frame,
        authored(is_set, p.0, p.1, false),
        point_value(flat, is_set, x, y) == sample(flat, p.0, p.1),
        (p.0 - x) * (p.0 - x) + (p.1 - y) * (p.1 - y) <= (o.0 - x) * (o.0 - x) + (o.1 - y) * (
        o.1 - y),
{
    let max = (flat.frames - 1, flat.values_per_frame - 1);
    assert(candidate(is_set, max, o));
    lemma_nearest_point_exists(is_set, max, (x, y), o);
    let p = choose|p: (int, int)| is_nearest_point(is_set, max, (x, y), p);
    assert(beats(p, o, (x, y)));
    p
}

} // verus!
