//! Clipping the mesh of a part by its masks: outlines, areas, and texture
//! coordinates of what is left.

use crate::arith;
use crate::exact;
use crate::composite_bbox::NEGATIVE_INFINITY;
use crate::mesh2d;
use crate::mesh2d::{lift, mesh_vertices, NEARLY_ALL};
use crate::mesh_group;
use crate::mesh_group::has_corners;
use crate::model::{InxDeform, InxMaskMode, InxMesh};
use crate::scalar::{Scalar, ONE};
use vstd::prelude::*;

verus! {

/// The weights of the corners of a triangle at a point, if it has an area.
#[verifier::opaque]
pub open spec fn weights_in(
    p: [Scalar; 2],
    a: [Scalar; 2],
    b: [Scalar; 2],
    c: [Scalar; 2],
) -> Option<[Scalar; 3]> {
    let ab = mesh_group::between(a, b);
    let ac = mesh_group::between(a, c);
    let ap = mesh_group::between(a, p);
    let det = mesh_group::cross(ab, ac);
    let u = mesh_group::cross(ap, ac).over(det);
    let v = mesh_group::cross(ab, ap).over(det);
    if det.absolute().less(arith::num(arith::EPSILON)) {
        None
    } else {
        Some([arith::num(ONE).minus(u).minus(v), u, v])
    }
}

/// How far inside a triangle a point lies: its smallest weight.
pub open spec fn score_of(w: [Scalar; 3]) -> Scalar {
    w[1].smaller(w[2]).smaller(w[0])
}

/// The weights of a point in each triangle.
pub open spec fn all_weights(
    points: Seq<[Scalar; 2]>,
    tris: Seq<[u32; 3]>,
    p: [Scalar; 2],
) -> Seq<Option<[Scalar; 3]>> {
    Seq::new(
        tris.len(),
        |k: int|
            weights_in(
                p,
                points[tris[k][0] as int],
                points[tris[k][1] as int],
                points[tris[k][2] as int],
            ),
    )
}

/// The triangle can hold the point.
pub open spec fn counts(w: Option<[Scalar; 3]>) -> bool {
    w matches Some(x) && arith::num(NEGATIVE_INFINITY).less(score_of(x))
}

/// The triangle that holds the point best; of several, the first.
pub open spec fn is_best(ws: Seq<Option<[Scalar; 3]>>, k: int) -> bool {
    &&& 0 <= k < ws.len()
    &&& counts(ws[k])
    &&& forall|j: int|
        0 <= j < k && counts(#[trigger] ws[j]) ==> score_of(ws[j]->0).less(score_of(ws[k]->0))
    &&& forall|j: int|
        k < j < ws.len() && counts(#[trigger] ws[j]) ==> !score_of(ws[k]->0).less(
            score_of(ws[j]->0),
        )
}

fn weigh_in(p: [Scalar; 2], a: [Scalar; 2], b: [Scalar; 2], c: [Scalar; 2]) -> (r: Option<
    [Scalar; 3],
>)
    ensures
        r == weights_in(p, a, b, c),
{
    proof {
        reveal(weights_in);
    }
    let ab = [b[0].sub(a[0]), b[1].sub(a[1])];
    let ac = [c[0].sub(a[0]), c[1].sub(a[1])];
    let ap = [p[0].sub(a[0]), p[1].sub(a[1])];
    let det = ab[0].mul(ac[1]).sub(ac[0].mul(ab[1]));
    if det.abs().lt(Scalar { bits: arith::EPSILON }) {
        return None;
    }
    let u = ap[0].mul(ac[1]).sub(ac[0].mul(ap[1])).div(det);
    let v = ab[0].mul(ap[1]).sub(ap[0].mul(ab[1])).div(det);
    Some([Scalar { bits: ONE }.sub(u).sub(v), u, v])
}

/// The triangles of a list of indices all have their corners.
pub open spec fn indexes(points: int, indices: Seq<u32>) -> bool {
    mesh_group::corners_exist(points, mesh_group::tris_of(indices))
}

/// One more triangle is best if it holds the point better than the best so far.
proof fn lemma_best_extends(ws: Seq<Option<[Scalar; 3]>>, k: int, best: Option<int>)
    requires
        0 <= k < ws.len(),
        match best {
            Some(a) => is_best(ws.take(k), a),
            None => forall|j: int| 0 <= j < k ==> !counts(#[trigger] ws[j]),
        },
    ensures
        ({
            let better = counts(ws[k]) && match best {
                Some(a) => score_of(ws[a]->0).less(score_of(ws[k]->0)),
                None => true,
            };
            match (better, best) {
                (true, _) => is_best(ws.take(k + 1), k),
                (false, Some(a)) => is_best(ws.take(k + 1), a),
                (false, None) => forall|j: int| 0 <= j < k + 1 ==> !counts(#[trigger] ws[j]),
            }
        }),
{
    let before = ws.take(k);
    let now = ws.take(k + 1);
    assert forall|j: int| 0 <= j < k implies #[trigger] now[j] == before[j] && now[j] == ws[j] by {}
    assert(now[k] == ws[k]);
    match best {
        Some(a) => {
            assert(before[a] == ws[a]);
            let better = counts(ws[k]) && score_of(ws[a]->0).less(score_of(ws[k]->0));
            if better {
                assert forall|j: int| 0 <= j < k && counts(#[trigger] now[j]) implies score_of(
                    now[j]->0,
                ).less(score_of(now[k]->0)) by {
                    assert(counts(before[j]));
                }
            } else {
                assert forall|j: int| a < j < now.len() && counts(#[trigger] now[j]) implies
                    !score_of(now[a]->0).less(score_of(now[j]->0)) by {
                    if j < k {
                        assert(counts(before[j]));
                    }
                }
                assert forall|j: int| 0 <= j < a && counts(#[trigger] now[j]) implies score_of(
                    now[j]->0,
                ).less(score_of(now[a]->0)) by {
                    assert(counts(before[j]));
                }
            }
        },
        None => {
            assert forall|j: int| 0 <= j < k implies !counts(#[trigger] now[j]) by {
                assert(!counts(ws[j]));
            }
        },
    }
}

/// The triangle that holds a point best, with the weights of its corners.
fn find_best(points: &Vec<[Scalar; 2]>, indices: &Vec<u32>, p: [Scalar; 2]) -> (r: Option<
    ([u32; 3], [Scalar; 3]),
>)
    requires
        indexes(points@.len() as int, indices@),
    ensures
        ({
            let tris = mesh_group::tris_of(indices@);
            let ws = all_weights(points@, tris, p);
            match (r, best_of(ws)) {
                (Some(found), Some(k)) => is_best(ws, k) && tris[k] == found.0 && ws[k] == Some(
                    found.1,
                ),
                (None, None) => true,
                _ => false,
            }
        }),
{
    let ghost tris = mesh_group::tris_of(indices@);
    let ghost ws = all_weights(points@, tris, p);
    let n: usize = indices.len() / 3;
    let mut best: Option<([u32; 3], [Scalar; 3])> = None;
    let mut best_score = Scalar { bits: NEGATIVE_INFINITY };
    let ghost mut at = 0int;
    let mut k: usize = 0;
    while k < n
        invariant
            tris == mesh_group::tris_of(indices@),
            ws == all_weights(points@, tris, p),
            mesh_group::corners_exist(points@.len() as int, tris),
            n == tris.len(),
            n * 3 <= indices@.len() <= usize::MAX,
            k <= n,
            match best {
                Some(found) => {
                    &&& is_best(ws.take(k as int), at)
                    &&& tris[at] == found.0
                    &&& ws[at] == Some(found.1)
                    &&& best_score == score_of(found.1)
                },
                None => {
                    &&& best_score == arith::num(NEGATIVE_INFINITY)
                    &&& forall|j: int| 0 <= j < k ==> !counts(#[trigger] ws[j])
                },
            },
        decreases n - k,
    {
        let tri = [indices[3 * k], indices[3 * k + 1], indices[3 * k + 2]];
        assert(tris[k as int] == tri);
        let w = weigh_in(
            p,
            points[tri[0] as usize],
            points[tri[1] as usize],
            points[tri[2] as usize],
        );
        assert(ws[k as int] == w);
        let ghost had = if best is Some {
            Some(at)
        } else {
            None::<int>
        };
        proof {
            lemma_best_extends(ws, k as int, had);
        }
        if let Some(x) = w {
            let score = x[1].min(x[2]).min(x[0]);
            if best_score.lt(score) {
                best_score = score;
                best = Some((tri, x));
                proof {
                    at = k as int;
                }
            }
        }
        k = k + 1;
    }
    proof {
        assert(ws.take(n as int) =~= ws);
        if best is Some {
            assert(is_best(ws, at));
            lemma_best_unique(ws, at, best_of(ws)->0);
        } else if best_of(ws) is Some {
            assert(counts(ws[best_of(ws)->0]));
        }
    }
    best
}

/// Weighted corners of a triangle.
pub open spec fn mixed(
    values: Seq<[Scalar; 2]>,
    tri: [u32; 3],
    w: [Scalar; 3],
    axis: int,
) -> Scalar {
    w[0].times(values[tri[0] as int][axis]).plus(w[1].times(values[tri[1] as int][axis])).plus(
        w[2].times(values[tri[2] as int][axis]),
    )
}

pub open spec fn mixed2(values: Seq<[Scalar; 2]>, tri: [u32; 3], w: [Scalar; 3]) -> [Scalar; 2] {
    [mixed(values, tri, w, 0), mixed(values, tri, w, 1)]
}

fn mix(values: &Vec<[Scalar; 2]>, tri: [u32; 3], w: [Scalar; 3]) -> (r: [Scalar; 2])
    requires
        tri[0] < values@.len(),
        tri[1] < values@.len(),
        tri[2] < values@.len(),
    ensures
        r == mixed2(values@, tri, w),
{
    let a = values[tri[0] as usize];
    let b = values[tri[1] as usize];
    let c = values[tri[2] as usize];
    [
        w[0].mul(a[0]).add(w[1].mul(b[0])).add(w[2].mul(c[0])),
        w[0].mul(a[1]).add(w[1].mul(b[1])).add(w[2].mul(c[1])),
    ]
}

/// The triangle that holds a point best, if any holds it.
pub open spec fn best_of(ws: Seq<Option<[Scalar; 3]>>) -> Option<int> {
    if exists|k: int| is_best(ws, k) {
        Some(choose|k: int| is_best(ws, k))
    } else {
        None
    }
}

/// The value that a mesh has at a point: that of the triangle which holds the
/// point best, or zero without one. A value that is held stays inside the
/// triangle.
pub open spec fn value_at(
    points: Seq<[Scalar; 2]>,
    values: Seq<[Scalar; 2]>,
    indices: Seq<u32>,
    p: [Scalar; 2],
    held: bool,
) -> [Scalar; 2] {
    let tris = mesh_group::tris_of(indices);
    let ws = all_weights(points, tris, p);
    match best_of(ws) {
        Some(k) => mixed2(
            values,
            tris[k],
            if held {
                held_weights(ws[k]->0)
            } else {
                ws[k]->0
            },
        ),
        None => [arith::num(0), arith::num(0)],
    }
}

/// Weights held inside the triangle: none is negative, and they add up to one.
pub open spec fn held_weights(w: [Scalar; 3]) -> [Scalar; 3] {
    let zero = arith::num(0);
    let (cw, cu, cv) = (w[0].larger(zero), w[1].larger(zero), w[2].larger(zero));
    let sum = cu.plus(cv).plus(cw);
    if arith::num(arith::EPSILON).less(sum) {
        [cw.over(sum), cu.over(sum), cv.over(sum)]
    } else {
        [arith::num(ONE), zero, zero]
    }
}

fn hold_weights(w: [Scalar; 3]) -> (r: [Scalar; 3])
    ensures
        r == held_weights(w),
{
    let zero = Scalar { bits: 0 };
    let cw = w[0].max(zero);
    let cu = w[1].max(zero);
    let cv = w[2].max(zero);
    let sum = cu.add(cv).add(cw);
    if (Scalar { bits: arith::EPSILON }).lt(sum) {
        [cw.div(sum), cu.div(sum), cv.div(sum)]
    } else {
        [Scalar { bits: ONE }, zero, zero]
    }
}

/// The texture coordinates of a point of a part: interpolated in the triangle
/// that holds it, or else in the closest.
pub fn uv_for_point(
    p: [Scalar; 2],
    positions: &Vec<[Scalar; 2]>,
    uvs: &Vec<[Scalar; 2]>,
    indices: &Vec<u32>,
) -> (r: [Scalar; 2])
    requires
        indexes(positions@.len() as int, indices@),
        indexes(uvs@.len() as int, indices@),
    ensures
        r == value_at(positions@, uvs@, indices@, p, false),
{
    match find_best(positions, indices, p) {
        Some((tri, w)) => {
            mix(uvs, tri, w)
        },
        None => [Scalar { bits: 0 }, Scalar { bits: 0 }],
    }
}

/// Where a point of a texture lies on a part: interpolated in the triangle that
/// holds it there. A point outside all triangles is held at the closest.
pub fn local_for_uv(
    uv: [Scalar; 2],
    positions: &Vec<[Scalar; 2]>,
    uvs: &Vec<[Scalar; 2]>,
    indices: &Vec<u32>,
) -> (r: [Scalar; 2])
    requires
        indexes(positions@.len() as int, indices@),
        indexes(uvs@.len() as int, indices@),
    ensures
        r == value_at(uvs@, positions@, indices@, uv, true),
{
    match find_best(uvs, indices, uv) {
        Some((tri, w)) => {
            mix(positions, tri, hold_weights(w))
        },
        None => [Scalar { bits: 0 }, Scalar { bits: 0 }],
    }
}

/// A closed line, by its points.
pub type Contour = Vec<[Scalar; 2]>;

/// Twice the area left of the first `k` sides of a contour.
pub open spec fn swept(c: Seq<[Scalar; 2]>, k: nat) -> Scalar
    decreases k,
{
    if k == 0 {
        arith::num(0)
    } else {
        let a = c[k - 1];
        let b = c[k as int % c.len() as int];
        swept(c, (k - 1) as nat).plus(a[0].times(b[1]).minus(b[0].times(a[1])))
    }
}

/// The area of a contour, negative where it runs clockwise.
pub open spec fn area_of(c: Seq<[Scalar; 2]>) -> Scalar {
    swept(c, c.len()).times(arith::num(arith::HALF))
}

/// The area of a contour, negative where it runs clockwise.
pub fn signed_area_2d(c: &Contour) -> (r: Scalar)
    ensures
        r == area_of(c@),
{
    let mut sum = Scalar { bits: 0 };
    let n: usize = c.len();
    let mut i: usize = 0;
    while i < n
        invariant
            n == c@.len(),
            i <= n,
            sum == swept(c@, i as nat),
        decreases n - i,
    {
        let a = c[i];
        let next: usize = if i + 1 < n {
            i + 1
        } else {
            0
        };
        proof {
            if i + 1 < n {
                vstd::arithmetic::div_mod::lemma_small_mod((i + 1) as nat, n as nat);
            } else {
                vstd::arithmetic::div_mod::lemma_mod_self_0(n as int);
            }
        }
        let b = c[next];
        sum = sum.add(a[0].mul(b[1]).sub(b[0].mul(a[1])));
        i = i + 1;
    }
    sum.mul(Scalar { bits: arith::HALF })
}

/// The contour run counterclockwise, if it has points and an area.
pub open spec fn turned(c: Seq<[Scalar; 2]>) -> Option<Seq<[Scalar; 2]>> {
    let area = area_of(c);
    if c.len() < 3 || area.same(arith::num(0)) {
        None
    } else if area.less(arith::num(0)) {
        Some(c.reverse())
    } else {
        Some(c)
    }
}

fn reversed(c: &Contour) -> (r: Contour)
    ensures
        r@ == c@.reverse(),
{
    let mut r: Contour = Vec::new();
    let n: usize = c.len();
    let mut i: usize = 0;
    while i < n
        invariant
            n == c@.len(),
            i <= n,
            r@ == c@.reverse().take(i as int),
        decreases n - i,
    {
        r.push(c[n - 1 - i]);
        i = i + 1;
        assert(r@ =~= c@.reverse().take(i as int));
    }
    assert(r@ =~= c@.reverse());
    r
}

/// Turns a contour counterclockwise. One without an area is dropped.
pub fn orient_contour(c: Contour) -> (r: Option<Contour>)
    ensures
        r is Some <==> turned(c@) is Some,
        r matches Some(v) ==> turned(c@) == Some(v@),
{
    if c.len() < 3 {
        return None;
    }
    let zero = Scalar { bits: 0 };
    let area = signed_area_2d(&c);
    if area.num_eq(zero) {
        None
    } else if area.lt(zero) {
        Some(reversed(&c))
    } else {
        Some(c)
    }
}

/// Moves points from one space to another: `x * p.x + y * p.y + z * 0 + t`.
#[derive(Debug, Clone, Copy)]
pub struct Placement {
    pub x: [Scalar; 2],
    pub y: [Scalar; 2],
    pub z: [Scalar; 2],
    pub t: [Scalar; 2],
}

pub open spec fn moved(m: Placement, p: [Scalar; 2]) -> [Scalar; 2] {
    let zero = arith::num(0);
    [
        m.x[0].times(p[0]).plus(m.y[0].times(p[1])).plus(m.z[0].times(zero)).plus(m.t[0]),
        m.x[1].times(p[0]).plus(m.y[1].times(p[1])).plus(m.z[1].times(zero)).plus(m.t[1]),
    ]
}

pub open spec fn all_moved(m: Placement, ps: Seq<[Scalar; 2]>) -> Seq<[Scalar; 2]> {
    Seq::new(ps.len(), |i: int| moved(m, ps[i]))
}

impl Placement {
    pub fn transform_point(&self, p: [Scalar; 2]) -> (r: [Scalar; 2])
        ensures
            r == moved(*self, p),
    {
        let zero = Scalar { bits: 0 };
        [
            self.x[0].mul(p[0]).add(self.y[0].mul(p[1])).add(self.z[0].mul(zero)).add(self.t[0]),
            self.x[1].mul(p[0]).add(self.y[1].mul(p[1])).add(self.z[1].mul(zero)).add(self.t[1]),
        ]
    }

    fn transform_points(&self, ps: &Vec<[Scalar; 2]>) -> (r: Vec<[Scalar; 2]>)
        ensures
            r@ == all_moved(*self, ps@),
    {
        let mut r: Vec<[Scalar; 2]> = Vec::new();
        let mut i: usize = 0;
        while i < ps.len()
            invariant
                i <= ps@.len(),
                r@ == all_moved(*self, ps@).take(i as int),
            decreases ps@.len() - i,
        {
            r.push(self.transform_point(ps[i]));
            i = i + 1;
            assert(r@ =~= all_moved(*self, ps@).take(i as int));
        }
        assert(r@ =~= all_moved(*self, ps@));
        r
    }
}

/// A baked outline, from the texture to the part and from there to where the part
/// is seen from.
pub open spec fn mapped_outline(
    outline: Seq<[Scalar; 2]>,
    positions: Seq<[Scalar; 2]>,
    uvs: Seq<[Scalar; 2]>,
    indices: Seq<u32>,
    rel: Placement,
) -> Seq<[Scalar; 2]> {
    Seq::new(
        outline.len(),
        |i: int| moved(rel, value_at(uvs, positions, indices, outline[i], true)),
    )
}

/// The first `k` baked outlines that have an area, counterclockwise.
pub open spec fn mapped_outlines(
    outlines: Seq<Contour>,
    positions: Seq<[Scalar; 2]>,
    uvs: Seq<[Scalar; 2]>,
    indices: Seq<u32>,
    rel: Placement,
    k: nat,
) -> Seq<Seq<[Scalar; 2]>>
    decreases k,
{
    if k == 0 {
        Seq::empty()
    } else {
        let before = mapped_outlines(outlines, positions, uvs, indices, rel, (k - 1) as nat);
        match turned(mapped_outline(outlines[k - 1]@, positions, uvs, indices, rel)) {
            Some(c) => before.push(c),
            None => before,
        }
    }
}

fn map_outline(
    outline: &Contour,
    positions: &Vec<[Scalar; 2]>,
    uvs: &Vec<[Scalar; 2]>,
    indices: &Vec<u32>,
    rel: &Placement,
) -> (r: Contour)
    requires
        indexes(positions@.len() as int, indices@),
        indexes(uvs@.len() as int, indices@),
    ensures
        r@ == mapped_outline(outline@, positions@, uvs@, indices@, *rel),
{
    let ghost want = mapped_outline(outline@, positions@, uvs@, indices@, *rel);
    let mut r: Contour = Vec::new();
    let mut i: usize = 0;
    while i < outline.len()
        invariant
            indexes(positions@.len() as int, indices@),
            indexes(uvs@.len() as int, indices@),
            want == mapped_outline(outline@, positions@, uvs@, indices@, *rel),
            i <= outline@.len(),
            r@ == want.take(i as int),
        decreases outline@.len() - i,
    {
        let p = local_for_uv(outline[i], positions, uvs, indices);
        r.push(rel.transform_point(p));
        i = i + 1;
        assert(r@ =~= want.take(i as int));
    }
    assert(r@ =~= want);
    r
}

/// Adds the baked outlines of a mask. They follow what is seen of the texture,
/// where the mesh is but a loose frame around it.
pub fn alpha_contours(
    contours: &Vec<Contour>,
    positions: &Vec<[Scalar; 2]>,
    uvs: &Vec<[Scalar; 2]>,
    indices: &Vec<u32>,
    rel: &Placement,
    out: &mut Vec<Contour>,
)
    requires
        indexes(positions@.len() as int, indices@),
        indexes(uvs@.len() as int, indices@),
    ensures
        contour_points(final(out)@) == contour_points(old(out)@) + mapped_outlines(
            contours@,
            positions@,
            uvs@,
            indices@,
            *rel,
            contours@.len(),
        ),
{
    let ghost start = contour_points(out@);
    assert(start =~= start + mapped_outlines(contours@, positions@, uvs@, indices@, *rel, 0));
    let mut k: usize = 0;
    while k < contours.len()
        invariant
            indexes(positions@.len() as int, indices@),
            indexes(uvs@.len() as int, indices@),
            k <= contours@.len(),
            contour_points(out@) == start + mapped_outlines(
                contours@,
                positions@,
                uvs@,
                indices@,
                *rel,
                k as nat,
            ),
        decreases contours@.len() - k,
    {
        let ghost before = mapped_outlines(
            contours@,
            positions@,
            uvs@,
            indices@,
            *rel,
            k as nat,
        );
        let c = map_outline(&contours[k], positions, uvs, indices, rel);
        if let Some(line) = orient_contour(c) {
            let ghost had = out@;
            let ghost points = line@;
            out.push(line);
            assert(contour_points(out@) =~= contour_points(had).push(points));
            assert(contour_points(out@) =~= start + before.push(points));
        }
        k = k + 1;
    }
}

/// A triangle as a contour that runs counterclockwise, if it has an area.
pub open spec fn triangle_outline(positions: Seq<[Scalar; 2]>, tri: [u32; 3]) -> Option<
    Seq<[Scalar; 2]>,
> {
    let a = positions[tri[0] as int];
    let b = positions[tri[1] as int];
    let c = positions[tri[2] as int];
    let area = mesh_group::cross(mesh_group::between(a, b), mesh_group::between(a, c));
    if area.same(arith::num(0)) {
        None
    } else if area.less(arith::num(0)) {
        Some(seq![c, b, a])
    } else {
        Some(seq![a, b, c])
    }
}

/// The outlines of the first `k` triangles.
pub open spec fn outlines(positions: Seq<[Scalar; 2]>, tris: Seq<[u32; 3]>, k: nat) -> Seq<
    Seq<[Scalar; 2]>,
>
    decreases k,
{
    if k == 0 {
        Seq::empty()
    } else {
        let before = outlines(positions, tris, (k - 1) as nat);
        match triangle_outline(positions, tris[k - 1]) {
            Some(c) => before.push(c),
            None => before,
        }
    }
}

pub open spec fn contour_points(cs: Seq<Contour>) -> Seq<Seq<[Scalar; 2]>> {
    cs.map_values(|c: Contour| c@)
}

/// Adds every triangle of a mesh as a contour that runs counterclockwise. Together
/// they fill the outline of the mesh.
pub fn triangle_contours(
    positions: &Vec<[Scalar; 2]>,
    indices: &Vec<u32>,
    out: &mut Vec<Contour>,
)
    requires
        indexes(positions@.len() as int, indices@),
    ensures
        contour_points(final(out)@) == contour_points(old(out)@) + outlines(
            positions@,
            mesh_group::tris_of(indices@),
            mesh_group::tris_of(indices@).len(),
        ),
{
    let ghost tris = mesh_group::tris_of(indices@);
    let ghost start = contour_points(out@);
    let zero = Scalar { bits: 0 };
    let n: usize = indices.len() / 3;
    let mut k: usize = 0;
    assert(start =~= start + outlines(positions@, tris, 0));
    while k < n
        invariant
            zero == arith::num(0),
            tris == mesh_group::tris_of(indices@),
            mesh_group::corners_exist(positions@.len() as int, tris),
            n == tris.len(),
            n * 3 <= indices@.len() <= usize::MAX,
            k <= n,
            contour_points(out@) == start + outlines(positions@, tris, k as nat),
        decreases n - k,
    {
        let tri = [indices[3 * k], indices[3 * k + 1], indices[3 * k + 2]];
        assert(tris[k as int] == tri);
        let a = positions[tri[0] as usize];
        let b = positions[tri[1] as usize];
        let c = positions[tri[2] as usize];
        let area = b[0].sub(a[0]).mul(c[1].sub(a[1])).sub(c[0].sub(a[0]).mul(b[1].sub(a[1])));
        let ghost had = out@;
        let ghost before = outlines(positions@, tris, k as nat);
        if !area.num_eq(zero) {
            let line: Contour = if area.lt(zero) {
                vec![c, b, a]
            } else {
                vec![a, b, c]
            };
            let ghost points = line@;
            assert(triangle_outline(positions@, tri)->0 =~= points);
            out.push(line);
            assert(contour_points(out@) =~= contour_points(had).push(points));
            assert(contour_points(out@) =~= start + before.push(points));
        }
        k = k + 1;
    }
}

/// The areas of the first `k` contours, whichever way they run.
pub open spec fn total_area(cs: Seq<Seq<[Scalar; 2]>>, k: nat) -> Scalar
    decreases k,
{
    if k == 0 {
        arith::num(0)
    } else {
        total_area(cs, (k - 1) as nat).plus(area_of(cs[k - 1]).absolute())
    }
}

/// The areas of contours, whichever way they run.
pub fn sum_areas(cs: &Vec<Contour>) -> (r: Scalar)
    ensures
        r == total_area(contour_points(cs@), cs@.len()),
{
    let ghost all = contour_points(cs@);
    let mut r = Scalar { bits: 0 };
    let mut k: usize = 0;
    while k < cs.len()
        invariant
            all == contour_points(cs@),
            k <= cs@.len(),
            r == total_area(all, k as nat),
        decreases cs@.len() - k,
    {
        assert(all[k as int] == cs@[k as int]@);
        r = r.add(signed_area_2d(&cs[k]).abs());
        k = k + 1;
    }
    r
}

/// Whether a masked part is clipped anew: it or one of its masks has changed.
pub fn needs_clipping(changed: bool, masks_changed: &Vec<bool>) -> (r: bool)
    ensures
        r == (changed || masks_changed@.contains(true)),
{
    if changed {
        return true;
    }
    let mut i: usize = 0;
    while i < masks_changed.len()
        invariant
            i <= masks_changed@.len(),
            forall|j: int| 0 <= j < i ==> !masks_changed@[j],
        decreases masks_changed@.len() - i,
    {
        if masks_changed[i] {
            assert(masks_changed@[i as int] == true);
            return true;
        }
        i = i + 1;
    }
    false
}

/// What masks leave of a part.
#[derive(Debug, Clone, Copy, PartialEq, Eq, Structural)]
pub enum ClipPlan {
    /// There is nothing to clip, or nothing to clip it with.
    Untouched,
    /// What lies inside the masks.
    Inside,
    /// What lies outside the dodges.
    Outside,
    /// What lies inside the masks and outside the dodges.
    InsideAndOutside,
}

/// How a part is clipped, from the numbers of outlines of the part, of its masks
/// and of its dodges.
pub open spec fn plan_of(part: nat, masks: nat, dodges: nat) -> ClipPlan {
    if part == 0 || (masks == 0 && dodges == 0) {
        ClipPlan::Untouched
    } else if dodges == 0 {
        ClipPlan::Inside
    } else if masks == 0 {
        ClipPlan::Outside
    } else {
        ClipPlan::InsideAndOutside
    }
}

/// How a part is clipped, from the outlines of the part, of its masks and of its
/// dodges.
pub fn clip_plan(part: &Vec<Contour>, masks: &Vec<Contour>, dodges: &Vec<Contour>) -> (r: ClipPlan)
    ensures
        r == plan_of(part@.len(), masks@.len(), dodges@.len()),
{
    if part.len() == 0 || (masks.len() == 0 && dodges.len() == 0) {
        ClipPlan::Untouched
    } else if dodges.len() == 0 {
        ClipPlan::Inside
    } else if masks.len() == 0 {
        ClipPlan::Outside
    } else {
        ClipPlan::InsideAndOutside
    }
}

/// Whether a part keeps its whole mesh: a mask is meant to hold the part, so
/// where nearly all of it is left, the rest is taken for noise.
pub fn keeps_whole(plan: ClipPlan, part: &Vec<Contour>, clipped: &Vec<Contour>) -> (r: bool)
    ensures
        ({
            let all = total_area(contour_points(part@), part@.len());
            let left = total_area(contour_points(clipped@), clipped@.len());
            let share = left.over(all);
            r == (plan == ClipPlan::Inside && arith::num(0).less(all) && (arith::num(
                NEARLY_ALL,
            ).less(share) || arith::num(NEARLY_ALL).same(share)))
        }),
{
    if plan != ClipPlan::Inside {
        return false;
    }
    let all = sum_areas(part);
    let left = sum_areas(clipped);
    (Scalar { bits: 0 }).lt(all) && (Scalar { bits: NEARLY_ALL }).le(left.div(all))
}

/// A mesh after clipping.
#[derive(Debug, Clone)]
pub struct ClippedMesh {
    pub positions: Vec<[Scalar; 3]>,
    pub uvs: Vec<[Scalar; 2]>,
    pub indices: Vec<u32>,
}

/// The mesh of a clipped part, from the points and triangles of what is left.
/// Where nothing is left a triangle without an area stands in, so that the mesh
/// is never empty.
pub fn clipped_mesh(
    points: &Vec<[Scalar; 2]>,
    triangles: Vec<u32>,
    local: &Vec<[Scalar; 2]>,
    uvs: &Vec<[Scalar; 2]>,
    indices: &Vec<u32>,
) -> (r: ClippedMesh)
    requires
        indexes(local@.len() as int, indices@),
        indexes(uvs@.len() as int, indices@),
    ensures
        r.positions@.len() == r.uvs@.len(),
        r.positions@.len() > 0,
        r.indices@.len() > 0,
        if points@.len() == 0 || triangles@.len() == 0 {
            let zero = arith::num(0);
            &&& r.positions@ == seq![[zero, zero, zero], [zero, zero, zero], [zero, zero, zero]]
            &&& r.uvs@ == seq![[zero, zero], [zero, zero], [zero, zero]]
            &&& r.indices@ == seq![0u32, 1, 2]
        } else {
            &&& r.positions@ == mesh2d::all_lifted(points@)
            &&& forall|i: int|
                0 <= i < r.uvs@.len() ==> #[trigger] r.uvs@[i] == value_at(
                    local@,
                    uvs@,
                    indices@,
                    points@[i],
                    false,
                )
            &&& r.indices@ == triangles@
        },
{
    if points.len() == 0 || triangles.len() == 0 {
        let zero = Scalar { bits: 0 };
        let positions: Vec<[Scalar; 3]> = vec![
            [zero, zero, zero],
            [zero, zero, zero],
            [zero, zero, zero],
        ];
        let flat: Vec<[Scalar; 2]> = vec![[zero, zero], [zero, zero], [zero, zero]];
        let order: Vec<u32> = vec![0, 1, 2];
        assert(positions@ =~= seq![[zero, zero, zero], [zero, zero, zero], [zero, zero, zero]]);
        assert(flat@ =~= seq![[zero, zero], [zero, zero], [zero, zero]]);
        assert(order@ =~= seq![0u32, 1, 2]);
        return ClippedMesh { positions, uvs: flat, indices: order };
    }
    let mut out: Vec<[Scalar; 2]> = Vec::new();
    let mut i: usize = 0;
    while i < points.len()
        invariant
            indexes(local@.len() as int, indices@),
            indexes(uvs@.len() as int, indices@),
            i <= points@.len(),
            out@.len() == i,
            forall|j: int|
                0 <= j < i ==> #[trigger] out@[j] == value_at(
                    local@,
                    uvs@,
                    indices@,
                    points@[j],
                    false,
                ),
        decreases points@.len() - i,
    {
        out.push(uv_for_point(points[i], local, uvs, indices));
        i = i + 1;
    }
    ClippedMesh { positions: lift(points), uvs: out, indices: triangles }
}

/// At most one triangle holds a point best, so a mesh has one value at a point.
pub proof fn lemma_best_unique(ws: Seq<Option<[Scalar; 3]>>, a: int, b: int)
    requires
        is_best(ws, a),
        is_best(ws, b),
    ensures
        a == b,
{
}

/// A mask of a part: its mesh and deform, and how to get from its space to that of
/// the part.
pub struct MaskSource<'a> {
    pub mesh: &'a InxMesh,
    pub deform: Option<&'a InxDeform>,
    pub rel: Placement,
    pub mode: InxMaskMode,
}

/// The triangles of a mesh have positions and texture coordinates.
pub open spec fn drawable_mesh(mesh: InxMesh) -> bool {
    indexes(mesh.vertex_buffer@.len() as int, mesh.index_buffer@) && indexes(
        mesh.uv_buffer@.len() as int,
        mesh.index_buffer@,
    )
}

/// Whether the triangles of a mesh have all their corners.
pub fn is_drawable(mesh: &InxMesh) -> (r: bool)
    ensures
        r == drawable_mesh(*mesh),
{
    has_corners(mesh.vertex_buffer.len(), &mesh.index_buffer) && has_corners(
        mesh.uv_buffer.len(),
        &mesh.index_buffer,
    )
}

/// The triangles of a mesh have positions, and texture coordinates where the
/// outline is given by them.
pub open spec fn outlined_mesh(mesh: InxMesh) -> bool {
    &&& indexes(mesh.vertex_buffer@.len() as int, mesh.index_buffer@)
    &&& mesh.mask_contour_uv is Some ==> indexes(
        mesh.uv_buffer@.len() as int,
        mesh.index_buffer@,
    )
}

/// Whether the outline of a mesh can be told.
pub fn is_outlined(mesh: &InxMesh) -> (r: bool)
    ensures
        r == outlined_mesh(*mesh),
{
    has_corners(mesh.vertex_buffer.len(), &mesh.index_buffer) && (mesh.mask_contour_uv.is_none()
        || has_corners(mesh.uv_buffer.len(), &mesh.index_buffer))
}

/// The outlines of a mask, seen from the part: baked ones, or else its triangles.
pub open spec fn source_outlines(s: MaskSource) -> Seq<Seq<[Scalar; 2]>> {
    let local = mesh2d::local_vertices(*s.mesh, mesh2d::deform_value(s.deform));
    match s.mesh.mask_contour_uv {
        Some(cs) => mapped_outlines(
            cs@,
            local,
            s.mesh.uv_buffer@,
            s.mesh.index_buffer@,
            s.rel,
            cs@.len(),
        ),
        None => outlines(
            all_moved(s.rel, local),
            mesh_group::tris_of(s.mesh.index_buffer@),
            mesh_group::tris_of(s.mesh.index_buffer@).len(),
        ),
    }
}

/// The outlines of the masks of one mode among the first `k`.
pub open spec fn outlines_of_mode(ss: Seq<MaskSource>, mode: InxMaskMode, k: nat) -> Seq<
    Seq<[Scalar; 2]>,
>
    decreases k,
{
    if k == 0 {
        Seq::empty()
    } else {
        let before = outlines_of_mode(ss, mode, (k - 1) as nat);
        if ss[k - 1].mode == mode {
            before + source_outlines(ss[k - 1])
        } else {
            before
        }
    }
}

/// Adds the outlines of a mask.
fn add_source(s: &MaskSource, out: &mut Vec<Contour>)
    requires
        outlined_mesh(*s.mesh),
    ensures
        contour_points(final(out)@) == contour_points(old(out)@) + source_outlines(*s),
{
    let local = mesh_vertices(s.mesh, s.deform);
    match &s.mesh.mask_contour_uv {
        Some(cs) => alpha_contours(
            cs,
            &local,
            &s.mesh.uv_buffer,
            &s.mesh.index_buffer,
            &s.rel,
            out,
        ),
        None => {
            let placed = s.rel.transform_points(&local);
            triangle_contours(&placed, &s.mesh.index_buffer, out);
        },
    }
}

/// What is clipped, and what it is clipped with.
pub struct ClipInput {
    /// The vertices of the part where its deform has put them.
    pub local: Vec<[Scalar; 2]>,
    pub part: Vec<Contour>,
    pub masks: Vec<Contour>,
    pub dodges: Vec<Contour>,
    pub plan: ClipPlan,
}

/// Gathers what a part is clipped with: outlines of the part, of the masks that it
/// is seen inside, and of the dodges that it is seen outside.
pub fn sync_mask_clipping(
    mesh: &InxMesh,
    deform: Option<&InxDeform>,
    sources: &Vec<MaskSource>,
) -> (r: ClipInput)
    requires
        indexes(mesh.vertex_buffer@.len() as int, mesh.index_buffer@),
        forall|i: int| 0 <= i < sources@.len() ==> outlined_mesh(*(#[trigger] sources@[i]).mesh),
    ensures
        r.local@ == mesh2d::local_vertices(*mesh, mesh2d::deform_value(deform)),
        contour_points(r.part@) == outlines(
            r.local@,
            mesh_group::tris_of(mesh.index_buffer@),
            mesh_group::tris_of(mesh.index_buffer@).len(),
        ),
        contour_points(r.masks@) == outlines_of_mode(
            sources@,
            InxMaskMode::Mask,
            sources@.len(),
        ),
        contour_points(r.dodges@) == outlines_of_mode(
            sources@,
            InxMaskMode::Dodge,
            sources@.len(),
        ),
        r.plan == plan_of(r.part@.len(), r.masks@.len(), r.dodges@.len()),
{
    let local = mesh_vertices(mesh, deform);
    let mut part: Vec<Contour> = Vec::new();
    let ghost nothing = contour_points(part@);
    triangle_contours(&local, &mesh.index_buffer, &mut part);
    let ghost own = outlines(
        local@,
        mesh_group::tris_of(mesh.index_buffer@),
        mesh_group::tris_of(mesh.index_buffer@).len(),
    );
    assert(nothing + own =~= own);
    let mut masks: Vec<Contour> = Vec::new();
    let mut dodges: Vec<Contour> = Vec::new();
    assert(contour_points(masks@) =~= outlines_of_mode(sources@, InxMaskMode::Mask, 0));
    assert(contour_points(dodges@) =~= outlines_of_mode(sources@, InxMaskMode::Dodge, 0));
    let mut k: usize = 0;
    while k < sources.len()
        invariant
            forall|i: int|
                0 <= i < sources@.len() ==> outlined_mesh(*(#[trigger] sources@[i]).mesh),
            k <= sources@.len(),
            contour_points(masks@) == outlines_of_mode(sources@, InxMaskMode::Mask, k as nat),
            contour_points(dodges@) == outlines_of_mode(sources@, InxMaskMode::Dodge, k as nat),
        decreases sources@.len() - k,
    {
        let s = &sources[k];
        match s.mode {
            InxMaskMode::Mask => add_source(s, &mut masks),
            InxMaskMode::Dodge => add_source(s, &mut dodges),
        }
        k = k + 1;
    }
    let plan = clip_plan(&part, &masks, &dodges);
    ClipInput { local, part, masks, dodges, plan }
}

/// A placement moves a point by its columns, each by one coordinate, and its
/// translation: to `a x + b y + t` in each component, with few digits.
pub proof fn lemma_point_is_placed(
    m: Placement,
    p: [Scalar; 2],
    j: int,
    a: int,
    b: int,
    t: int,
    x: int,
    y: int,
)
    requires
        0 <= j < 2,
        exact::stands_for(m.x[j], a, 149),
        exact::stands_for(m.y[j], b, 149),
        exact::stands_for(m.t[j], t, 149),
        m.z[j].finite(),
        exact::stands_for(p[0], x, 149),
        exact::stands_for(p[1], y, 149),
        -0x800 <= a <= 0x800,
        -0x800 <= b <= 0x800,
        -0x800 <= x <= 0x800,
        -0x800 <= y <= 0x800,
        -0x1000 <= t <= 0x1000,
    ensures
        exact::stands_for(moved(m, p)[j], a * x + b * y + t, 149),
{
    let zero = arith::num(0);
    assert(-0x40_0000 <= a * x <= 0x40_0000 && -0x40_0000 <= b * y <= 0x40_0000)
        by (nonlinear_arith)
        requires
            -0x800 <= a <= 0x800,
            -0x800 <= b <= 0x800,
            -0x800 <= x <= 0x800,
            -0x800 <= y <= 0x800,
    ;
    exact::lemma_product(m.x[j], a, 149, p[0], x, 149);
    exact::lemma_product(m.y[j], b, 149, p[1], y, 149);
    exact::lemma_sum(m.x[j].times(p[0]), a * x, m.y[j].times(p[1]), b * y, 149);
    let s = m.x[j].times(p[0]).plus(m.y[j].times(p[1]));
    exact::lemma_times_zero(m.z[j], zero);
    exact::lemma_zero_value(m.z[j].times(zero));
    assert(exact::stands_for(m.z[j].times(zero), 0, 149));
    exact::lemma_sum(s, a * x + b * y, m.z[j].times(zero), 0, 149);
    exact::lemma_sum(s.plus(m.z[j].times(zero)), a * x + b * y, m.t[j], t, 149);
}

/// Twice the area of a triangle with whole corners.
pub open spec fn doubled_area(x: Seq<int>, y: Seq<int>) -> int {
    (x[1] - x[0]) * (y[2] - y[0]) - (x[2] - x[0]) * (y[1] - y[0])
}

/// The area of a triangle is half of what its sides span, above zero where it runs
/// counterclockwise, and turning a contour makes it run so.
pub proof fn lemma_triangle_area(c: Seq<[Scalar; 2]>, x: Seq<int>, y: Seq<int>)
    requires
        c.len() == 3,
        x.len() == 3,
        y.len() == 3,
        forall|k: int|
            0 <= k < 3 ==> exact::stands_for((#[trigger] c[k])[0], x[k], 149)
                && exact::stands_for(c[k][1], y[k], 149) && -0x400 <= x[k] <= 0x400 && -0x400
                <= y[k] <= 0x400,
    ensures
        exact::stands_for(area_of(c), doubled_area(x, y), 148),
        doubled_area(x, y) == 0 ==> turned(c) is None,
        doubled_area(x, y) > 0 ==> turned(c) == Some(c),
        doubled_area(x, y) < 0 ==> turned(c) == Some(seq![c[2], c[1], c[0]]),
{
    reveal_with_fuel(swept, 4);
    let zero = arith::num(0);
    exact::lemma_small();
    exact::lemma_zero_value(zero);
    assert(exact::stands_for(zero, 0, 149));
    assert(c[0] == c[0] && c[1] == c[1] && c[2] == c[2]);
    lemma_side(c[0], c[1], x[0], y[0], x[1], y[1]);
    lemma_side(c[1], c[2], x[1], y[1], x[2], y[2]);
    lemma_side(c[2], c[0], x[2], y[2], x[0], y[0]);
    let s0 = c[0][0].times(c[1][1]).minus(c[1][0].times(c[0][1]));
    let s1 = c[1][0].times(c[2][1]).minus(c[2][0].times(c[1][1]));
    let s2 = c[2][0].times(c[0][1]).minus(c[0][0].times(c[2][1]));
    let n0 = x[0] * y[1] - x[1] * y[0];
    let n1 = x[1] * y[2] - x[2] * y[1];
    let n2 = x[2] * y[0] - x[0] * y[2];
    exact::lemma_sum(zero, 0, s0, n0, 149);
    exact::lemma_sum(zero.plus(s0), n0, s1, n1, 149);
    exact::lemma_sum(zero.plus(s0).plus(s1), n0 + n1, s2, n2, 149);
    let sum = zero.plus(s0).plus(s1).plus(s2);
    assert(swept(c, 3) == sum);
    let n = n0 + n1 + n2;
    let (x0, x1, x2, y0, y1, y2) = (x[0], x[1], x[2], y[0], y[1], y[2]);
    assert(n == (x1 - x0) * (y2 - y0) - (x2 - x0) * (y1 - y0)) by (nonlinear_arith)
        requires
            n == (x0 * y1 - x1 * y0) + (x1 * y2 - x2 * y1) + (x2 * y0 - x0 * y2),
    ;
    let half = arith::num(arith::HALF);
    exact::lemma_product(sum, n, 149, half, 1, 148);
    let area = area_of(c);
    exact::lemma_sign(area, n, 148);
    exact::lemma_zero_value(area);
    arith::lemma_magnitudes(0, area.mag());
    assert(c.reverse() =~= seq![c[2], c[1], c[0]]);
}

proof fn lemma_side(a: [Scalar; 2], b: [Scalar; 2], ax: int, ay: int, bx: int, by: int)
    requires
        exact::stands_for(a[0], ax, 149),
        exact::stands_for(a[1], ay, 149),
        exact::stands_for(b[0], bx, 149),
        exact::stands_for(b[1], by, 149),
        -0x400 <= ax <= 0x400,
        -0x400 <= ay <= 0x400,
        -0x400 <= bx <= 0x400,
        -0x400 <= by <= 0x400,
    ensures
        exact::stands_for(
            a[0].times(b[1]).minus(b[0].times(a[1])),
            ax * by - bx * ay,
            149,
        ),
        -0x20_0000 <= ax * by - bx * ay <= 0x20_0000,
{
    assert(-0x10_0000 <= ax * by <= 0x10_0000 && -0x10_0000 <= bx * ay <= 0x10_0000)
        by (nonlinear_arith)
        requires
            -0x400 <= ax <= 0x400,
            -0x400 <= ay <= 0x400,
            -0x400 <= bx <= 0x400,
            -0x400 <= by <= 0x400,
    ;
    exact::lemma_product(a[0], ax, 149, b[1], by, 149);
    exact::lemma_product(b[0], bx, 149, a[1], ay, 149);
    exact::lemma_difference(a[0].times(b[1]), ax * by, b[0].times(a[1]), bx * ay, 149);
}

/// A mixed value is the mean of the corners' values, each by its weight: with weights
/// of `n` sixteenths and values `v`, with few digits.
pub proof fn lemma_corners_are_mixed(
    values: Seq<[Scalar; 2]>,
    tri: [u32; 3],
    w: [Scalar; 3],
    j: int,
    n: Seq<int>,
    v: Seq<int>,
    s: nat,
)
    requires
        0 <= j < 2,
        n.len() == 3,
        v.len() == 3,
        4 <= s <= 252,
        forall|k: int|
            0 <= k < 3 ==> exact::stands_for(values[(#[trigger] tri[k]) as int][j], v[k], s)
                && exact::stands_for(w[k], n[k], 145) && 0 <= n[k] <= 16 && -0x1000 <= v[k]
                <= 0x1000,
    ensures
        exact::stands_for(
            mixed2(values, tri, w)[j],
            n[0] * v[0] + n[1] * v[1] + n[2] * v[2],
            (s - 4) as nat,
        ),
{
    let r = (s - 4) as nat;
    let (a, b, c) = (
        values[tri[0] as int][j],
        values[tri[1] as int][j],
        values[tri[2] as int][j],
    );
    let (n0, n1, n2, v0, v1, v2) = (n[0], n[1], n[2], v[0], v[1], v[2]);
    assert(-0x1_0000 <= n0 * v0 <= 0x1_0000 && -0x1_0000 <= n1 * v1 <= 0x1_0000 && -0x1_0000 <= n2
        * v2 <= 0x1_0000) by (nonlinear_arith)
        requires
            0 <= n0 <= 16,
            0 <= n1 <= 16,
            0 <= n2 <= 16,
            -0x1000 <= v0 <= 0x1000,
            -0x1000 <= v1 <= 0x1000,
            -0x1000 <= v2 <= 0x1000,
    ;
    exact::lemma_product(w[0], n0, 145, a, v0, s);
    exact::lemma_product(w[1], n1, 145, b, v1, s);
    exact::lemma_product(w[2], n2, 145, c, v2, s);
    exact::lemma_sum(w[0].times(a), n0 * v0, w[1].times(b), n1 * v1, r);
    exact::lemma_sum(
        w[0].times(a).plus(w[1].times(b)),
        n0 * v0 + n1 * v1,
        w[2].times(c),
        n2 * v2,
        r,
    );
}

/// The weights in a triangle are the barycentric ones, wherever those tell an area.
pub proof fn lemma_weights_are_barycentric(
    p: [Scalar; 2],
    a: [Scalar; 2],
    b: [Scalar; 2],
    c: [Scalar; 2],
)
    ensures
        weights_in(p, a, b, c) is Some ==> weights_in(p, a, b, c) == mesh_group::weights_at(
            p,
            a,
            b,
            c,
        ),
{
    reveal(weights_in);
    crate::scalar::lemma_value_order(arith::num(mesh_group::NANO), arith::num(arith::EPSILON));
}

/// Weights that are held inside a triangle are not below zero, and those of a point
/// inside stay as they are where they add up to one.
pub proof fn lemma_held_weights(w: [Scalar; 3])
    requires
        w[0].finite(),
        w[1].finite(),
        w[2].finite(),
        w[0].value() >= 0,
        w[1].value() >= 0,
        w[2].value() >= 0,
        w[1].plus(w[2]).plus(w[0]) == arith::num(ONE),
    ensures
        exact::alike(held_weights(w)[0], w[0]),
        exact::alike(held_weights(w)[1], w[1]),
        exact::alike(held_weights(w)[2], w[2]),
{
    let zero = arith::num(0);
    let one = arith::num(ONE);
    exact::lemma_zero_value(zero);
    exact::lemma_zero_value(w[0]);
    exact::lemma_zero_value(w[1]);
    exact::lemma_zero_value(w[2]);
    crate::scalar::lemma_value_order(arith::num(arith::EPSILON), one);
    lemma_over_one(w[0]);
    lemma_over_one(w[1]);
    lemma_over_one(w[2]);
}

proof fn lemma_over_one(a: Scalar)
    requires
        a.finite(),
    ensures
        a.over(arith::num(ONE)) == a,
{
    exact::lemma_one();
    exact::lemma_small();
    exact::lemma_sign(arith::num(ONE), 1, 149);
    arith::lemma_magnitudes(0, a.mag());
    exact::lemma_nearest_exact(a.mag(), crate::scalar::unit());
}

/// The outline of a triangle runs counterclockwise through its corners, and one without
/// an area has none.
pub proof fn lemma_outline_runs_counterclockwise(
    positions: Seq<[Scalar; 2]>,
    tri: [u32; 3],
    x: Seq<int>,
    y: Seq<int>,
)
    requires
        x.len() == 3,
        y.len() == 3,
        forall|k: int|
            0 <= k < 3 ==> exact::stands_for(
                positions[(#[trigger] tri[k]) as int][0],
                x[k],
                149,
            ) && exact::stands_for(positions[tri[k] as int][1], y[k], 149) && -0x400 <= x[k]
                <= 0x400 && -0x400 <= y[k] <= 0x400,
    ensures
        ({
            let (a, b, c) = (
                positions[tri[0] as int],
                positions[tri[1] as int],
                positions[tri[2] as int],
            );
            let r = triangle_outline(positions, tri);
            &&& doubled_area(x, y) == 0 ==> r is None
            &&& doubled_area(x, y) > 0 ==> r == Some(seq![a, b, c])
            &&& doubled_area(x, y) < 0 ==> r == Some(seq![c, b, a])
        }),
{
    assert(tri[0] == tri[0] && tri[1] == tri[1] && tri[2] == tri[2]);
    let (a, b, c) = (positions[tri[0] as int], positions[tri[1] as int], positions[tri[2] as int]);
    let (p, q) = (x[1] - x[0], y[1] - y[0]);
    let (u, v) = (x[2] - x[0], y[2] - y[0]);
    exact::lemma_difference(b[0], x[1], a[0], x[0], 149);
    exact::lemma_difference(b[1], y[1], a[1], y[0], 149);
    exact::lemma_difference(c[0], x[2], a[0], x[0], 149);
    exact::lemma_difference(c[1], y[2], a[1], y[0], 149);
    assert(-0x40_0000 <= p * v <= 0x40_0000 && -0x40_0000 <= u * q <= 0x40_0000)
        by (nonlinear_arith)
        requires
            -0x800 <= p <= 0x800,
            -0x800 <= q <= 0x800,
            -0x800 <= u <= 0x800,
            -0x800 <= v <= 0x800,
    ;
    let ab = mesh_group::between(a, b);
    let ac = mesh_group::between(a, c);
    exact::lemma_product(ab[0], p, 149, ac[1], v, 149);
    exact::lemma_product(ac[0], u, 149, ab[1], q, 149);
    exact::lemma_difference(ab[0].times(ac[1]), p * v, ac[0].times(ab[1]), u * q, 149);
    let area = mesh_group::cross(ab, ac);
    exact::lemma_sign(area, p * v - u * q, 149);
    exact::lemma_zero_value(area);
    exact::lemma_zero_value(arith::num(0));
    arith::lemma_magnitudes(0, area.mag());
}

/// A part is clipped by its masks if there are masks, and by its dodges if there are
/// dodges, where it has an outline at all.
pub proof fn lemma_plan_uses_all(part: nat, masks: nat, dodges: nat)
    ensures
        ({
            let p = plan_of(part, masks, dodges);
            &&& p == ClipPlan::Inside || p == ClipPlan::InsideAndOutside <==> part > 0 && masks > 0
            &&& p == ClipPlan::Outside || p == ClipPlan::InsideAndOutside <==> part > 0 && dodges
                > 0
        }),
{
}

/// The areas of contours add up whichever way each runs, and so without loss: where the
/// areas before and the next one are `a` and `n` halves, those with it are `a + |n|`.
pub proof fn lemma_areas_add_up(cs: Seq<Seq<[Scalar; 2]>>, k: nat, a: int, n: int)
    requires
        k < cs.len(),
        exact::stands_for(total_area(cs, k), a, 148),
        exact::stands_for(area_of(cs[k as int]), n, 148),
        0 <= a <= 0x10_0000,
        -0x10_0000 <= n <= 0x10_0000,
    ensures
        total_area(cs, 0).mag() == 0,
        exact::stands_for(total_area(cs, k + 1), a + arith::absolute(n), 148),
{
    let area = area_of(cs[k as int]);
    exact::lemma_sign(area, n, 148);
    exact::lemma_opposite(area, n, 148);
    exact::lemma_zero_value(area);
    assert(exact::stands_for(area.absolute(), arith::absolute(n), 148));
    exact::lemma_sum(total_area(cs, k), a, area.absolute(), arith::absolute(n), 148);
}

} // verus!
