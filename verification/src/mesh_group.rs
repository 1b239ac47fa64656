//! Lattices of mesh groups and how they carry the vertices of parts.

use crate::arith;
use crate::exact;
use crate::model::InxMesh;
use crate::scalar::{Scalar, ONE};
use vstd::prelude::*;

verus! {

/// 1e-9, below which a determinant counts as zero.
pub const NANO: u32 = 0x3089_705f;

/// 2D affine map: p' = l * p + t.
#[derive(Debug, Clone, Copy)]
pub struct Aff2 {
    pub l: [[Scalar; 2]; 2],
    pub t: [Scalar; 2],
}

/// x * y + z * w.
pub open spec fn dot(x: Scalar, y: Scalar, z: Scalar, w: Scalar) -> Scalar {
    x.times(y).plus(z.times(w))
}

pub(crate) fn dot_of(x: Scalar, y: Scalar, z: Scalar, w: Scalar) -> (r: Scalar)
    ensures
        r == dot(x, y, z, w),
{
    x.mul(y).add(z.mul(w))
}

/// The linear part of the identity.
pub open spec fn unit_linear() -> [[Scalar; 2]; 2] {
    let zero = arith::num(0);
    let one = arith::num(ONE);
    [[one, zero], [zero, one]]
}

/// The identity.
pub open spec fn unit_map() -> Aff2 {
    Aff2 { l: unit_linear(), t: [arith::num(0), arith::num(0)] }
}

/// The map of a node with a translation, a scale, and the sine and cosine of its
/// angle. Y points down in a translation and up in the map.
pub open spec fn placed(
    translation: [Scalar; 3],
    scale: [Scalar; 3],
    sin: Scalar,
    cos: Scalar,
) -> Aff2 {
    Aff2 {
        l: [
            [cos.times(scale[0]), sin.negated().times(scale[1])],
            [sin.times(scale[0]), cos.times(scale[1])],
        ],
        t: [translation[0], translation[1].negated()],
    }
}

/// `b` first, then `a`.
pub open spec fn composed(a: Aff2, b: Aff2) -> Aff2 {
    Aff2 {
        l: [
            [
                dot(a.l[0][0], b.l[0][0], a.l[0][1], b.l[1][0]),
                dot(a.l[0][0], b.l[0][1], a.l[0][1], b.l[1][1]),
            ],
            [
                dot(a.l[1][0], b.l[0][0], a.l[1][1], b.l[1][0]),
                dot(a.l[1][0], b.l[0][1], a.l[1][1], b.l[1][1]),
            ],
        ],
        t: [
            dot(a.l[0][0], b.t[0], a.l[0][1], b.t[1]).plus(a.t[0]),
            dot(a.l[1][0], b.t[0], a.l[1][1], b.t[1]).plus(a.t[1]),
        ],
    }
}

/// Where a map takes a point.
pub open spec fn image(a: Aff2, p: [Scalar; 2]) -> [Scalar; 2] {
    [
        dot(a.l[0][0], p[0], a.l[0][1], p[1]).plus(a.t[0]),
        dot(a.l[1][0], p[0], a.l[1][1], p[1]).plus(a.t[1]),
    ]
}

/// The inverse of the linear part; the identity if there is none.
pub open spec fn inverse_linear(l: [[Scalar; 2]; 2]) -> [[Scalar; 2]; 2] {
    let det = l[0][0].times(l[1][1]).minus(l[0][1].times(l[1][0]));
    let inv = arith::num(ONE).over(det);
    if det.absolute().less(arith::num(NANO)) {
        unit_linear()
    } else {
        [
            [l[1][1].times(inv), l[0][1].negated().times(inv)],
            [l[1][0].negated().times(inv), l[0][0].times(inv)],
        ]
    }
}

impl Aff2 {
    /// The identity.
    pub fn identity() -> (r: Aff2)
        ensures
            r == unit_map(),
    {
        let zero = Scalar { bits: 0 };
        let one = Scalar { bits: ONE };
        Aff2 { l: [[one, zero], [zero, one]], t: [zero, zero] }
    }

    /// The map of a node, from the sine and cosine of its angle.
    pub fn from_node(
        translation: &[Scalar; 3],
        scale: &[Scalar; 3],
        sin: Scalar,
        cos: Scalar,
    ) -> (r: Aff2)
        ensures
            r == placed(*translation, *scale, sin, cos),
    {
        Aff2 {
            l: [
                [cos.mul(scale[0]), sin.neg().mul(scale[1])],
                [sin.mul(scale[0]), cos.mul(scale[1])],
            ],
            t: [translation[0], translation[1].neg()],
        }
    }

    /// `other` first, then `self`.
    pub fn compose(&self, other: &Aff2) -> (r: Aff2)
        ensures
            r == composed(*self, *other),
    {
        let a0 = self.l[0];
        let a1 = self.l[1];
        let b0 = other.l[0];
        let b1 = other.l[1];
        Aff2 {
            l: [
                [dot_of(a0[0], b0[0], a0[1], b1[0]), dot_of(a0[0], b0[1], a0[1], b1[1])],
                [dot_of(a1[0], b0[0], a1[1], b1[0]), dot_of(a1[0], b0[1], a1[1], b1[1])],
            ],
            t: [
                dot_of(a0[0], other.t[0], a0[1], other.t[1]).add(self.t[0]),
                dot_of(a1[0], other.t[0], a1[1], other.t[1]).add(self.t[1]),
            ],
        }
    }

    /// Takes a point through the map.
    pub fn apply(&self, p: [Scalar; 2]) -> (r: [Scalar; 2])
        ensures
            r == image(*self, p),
    {
        let a0 = self.l[0];
        let a1 = self.l[1];
        [
            dot_of(a0[0], p[0], a0[1], p[1]).add(self.t[0]),
            dot_of(a1[0], p[0], a1[1], p[1]).add(self.t[1]),
        ]
    }

    /// Inverts the linear part.
    pub fn inv_linear(&self) -> (r: [[Scalar; 2]; 2])
        ensures
            r == inverse_linear(self.l),
    {
        let zero = Scalar { bits: 0 };
        let one = Scalar { bits: ONE };
        let a = self.l[0];
        let b = self.l[1];
        let det = a[0].mul(b[1]).sub(a[1].mul(b[0]));
        if det.abs().lt(Scalar { bits: NANO }) {
            return [[one, zero], [zero, one]];
        }
        let inv = one.div(det);
        [[b[1].mul(inv), a[1].neg().mul(inv)], [b[0].neg().mul(inv), a[0].mul(inv)]]
    }
}

/// x0 * y1 - y0 * x1, the doubled area between two vectors.
pub open spec fn cross(x: [Scalar; 2], y: [Scalar; 2]) -> Scalar {
    x[0].times(y[1]).minus(y[0].times(x[1]))
}

pub open spec fn between(a: [Scalar; 2], b: [Scalar; 2]) -> [Scalar; 2] {
    [b[0].minus(a[0]), b[1].minus(a[1])]
}

fn cross_of(x: [Scalar; 2], y: [Scalar; 2]) -> (r: Scalar)
    ensures
        r == cross(x, y),
{
    x[0].mul(y[1]).sub(y[0].mul(x[1]))
}

fn between_of(a: [Scalar; 2], b: [Scalar; 2]) -> (r: [Scalar; 2])
    ensures
        r == between(a, b),
{
    [b[0].sub(a[0]), b[1].sub(a[1])]
}

/// The barycentric coordinates of a point in a triangle, if it has an area.
pub open spec fn weights_at(
    p: [Scalar; 2],
    a: [Scalar; 2],
    b: [Scalar; 2],
    c: [Scalar; 2],
) -> Option<[Scalar; 3]> {
    let den = cross(between(a, b), between(a, c));
    let v = cross(between(a, p), between(a, c)).over(den);
    let w = cross(between(a, b), between(a, p)).over(den);
    if den.absolute().less(arith::num(NANO)) {
        None
    } else {
        Some([arith::num(ONE).minus(v).minus(w), v, w])
    }
}

/// Barycentric coordinates of `p` in the triangle (a, b, c); none if it is
/// degenerate.
pub fn barycentric(p: [Scalar; 2], a: [Scalar; 2], b: [Scalar; 2], c: [Scalar; 2]) -> (r: Option<
    [Scalar; 3],
>)
    ensures
        r == weights_at(p, a, b, c),
{
    let v0 = between_of(a, b);
    let v1 = between_of(a, c);
    let v2 = between_of(a, p);
    let den = cross_of(v0, v1);
    if den.abs().lt(Scalar { bits: NANO }) {
        return None;
    }
    let v = cross_of(v2, v1).div(den);
    let w = cross_of(v0, v2).div(den);
    Some([Scalar { bits: ONE }.sub(v).sub(w), v, w])
}

/// No coordinate is negative: the point lies in the triangle.
pub open spec fn inside(w: [Scalar; 3]) -> bool {
    let least = w[0].smaller(w[1]).smaller(w[2]);
    arith::num(0).less(least) || arith::num(0).same(least)
}

/// The coordinates of a point in one triangle of a lattice, if it lies there.
pub open spec fn in_triangle(rest: Seq<[Scalar; 2]>, tri: [u32; 3], q: [Scalar; 2]) -> Option<
    [Scalar; 3],
> {
    match weights_at(q, rest[tri[0] as int], rest[tri[1] as int], rest[tri[2] as int]) {
        Some(w) => if inside(w) {
            Some(w)
        } else {
            None
        },
        None => None,
    }
}

/// The first triangle from `k` on that holds a point, with its coordinates
/// there.
pub open spec fn located(
    rest: Seq<[Scalar; 2]>,
    tris: Seq<[u32; 3]>,
    q: [Scalar; 2],
    k: int,
) -> Option<([u32; 3], [Scalar; 3])>
    decreases tris.len() - k,
{
    if k >= tris.len() {
        None
    } else {
        match in_triangle(rest, tris[k], q) {
            Some(w) => Some((tris[k], w)),
            None => located(rest, tris, q, k + 1),
        }
    }
}

/// The corners of all triangles exist.
pub open spec fn corners_exist(points: int, tris: Seq<[u32; 3]>) -> bool {
    forall|i: int|
        0 <= i < tris.len() ==> (#[trigger] tris[i])[0] < points && tris[i][1] < points
            && tris[i][2] < points
}

/// Finds the triangle of a lattice that holds a point.
pub fn locate(rest: &Vec<[Scalar; 2]>, tris: &Vec<[u32; 3]>, q: [Scalar; 2]) -> (r: Option<
    ([u32; 3], [Scalar; 3]),
>)
    requires
        corners_exist(rest@.len() as int, tris@),
    ensures
        r == located(rest@, tris@, q, 0),
{
    let mut k: usize = 0;
    while k < tris.len()
        invariant
            corners_exist(rest@.len() as int, tris@),
            k <= tris@.len(),
            located(rest@, tris@, q, 0) == located(rest@, tris@, q, k as int),
        decreases tris@.len() - k,
    {
        let tri = tris[k];
        assert(tris@[k as int] == tri);
        let found = barycentric(
            q,
            rest[tri[0] as usize],
            rest[tri[1] as usize],
            rest[tri[2] as usize],
        );
        if let Some(w) = found {
            if (Scalar { bits: 0 }).le(w[0].min(w[1]).min(w[2])) {
                return Some((tri, w));
            }
        }
        k = k + 1;
    }
    None
}

/// A vertex relative to the origin of its mesh.
pub open spec fn from_origin(mesh: InxMesh, i: int) -> [Scalar; 2] {
    between(mesh.origin, mesh.vertex_buffer@[i])
}

/// All vertices of a mesh relative to its origin.
pub open spec fn rest_of(mesh: InxMesh) -> Seq<[Scalar; 2]> {
    Seq::new(mesh.vertex_buffer@.len(), |i: int| from_origin(mesh, i))
}

/// The triangles of a mesh. Indices that are left over make none.
pub open spec fn tris_of(index: Seq<u32>) -> Seq<[u32; 3]> {
    Seq::new(index.len() / 3, |i: int| [index[3 * i], index[3 * i + 1], index[3 * i + 2]])
}

/// The positions of a lattice at rest, and its triangles.
pub fn lattice_rest_and_tris(lattice: &InxMesh) -> (r: (Vec<[Scalar; 2]>, Vec<[u32; 3]>))
    ensures
        r.0@ == rest_of(*lattice),
        r.1@ == tris_of(lattice.index_buffer@),
{
    let mut rest: Vec<[Scalar; 2]> = Vec::new();
    let mut i: usize = 0;
    while i < lattice.vertex_buffer.len()
        invariant
            i <= lattice.vertex_buffer@.len(),
            rest@ == rest_of(*lattice).take(i as int),
        decreases lattice.vertex_buffer@.len() - i,
    {
        rest.push(between_of(lattice.origin, lattice.vertex_buffer[i]));
        i = i + 1;
        assert(rest@ =~= rest_of(*lattice).take(i as int));
    }
    assert(rest@ =~= rest_of(*lattice));
    let index = &lattice.index_buffer;
    let n: usize = index.len() / 3;
    let mut tris: Vec<[u32; 3]> = Vec::new();
    let mut k: usize = 0;
    while k < n
        invariant
            n == index@.len() / 3,
            n * 3 <= index@.len() <= usize::MAX,
            k <= n,
            tris@ == tris_of(index@).take(k as int),
        decreases n - k,
    {
        tris.push([index[3 * k], index[3 * k + 1], index[3 * k + 2]]);
        k = k + 1;
        assert(tris@ =~= tris_of(index@).take(k as int));
    }
    assert(tris@ =~= tris_of(index@));
    (rest, tris)
}

/// Whether all corners of the triangles are among `points` points.
pub fn has_corners(points: usize, index: &Vec<u32>) -> (r: bool)
    ensures
        r == corners_exist(points as int, tris_of(index@)),
{
    let n: usize = index.len() / 3;
    let mut k: usize = 0;
    while k < n
        invariant
            n == index@.len() / 3,
            n * 3 <= index@.len() <= usize::MAX,
            k <= n,
            forall|i: int|
                0 <= i < k ==> (#[trigger] tris_of(index@)[i])[0] < points && tris_of(index@)[i][1]
                    < points && tris_of(index@)[i][2] < points,
        decreases n - k,
    {
        let tri = [index[3 * k], index[3 * k + 1], index[3 * k + 2]];
        assert(tri == tris_of(index@)[k as int]);
        if tri[0] as usize >= points || tri[1] as usize >= points || tri[2] as usize >= points {
            return false;
        }
        k = k + 1;
    }
    true
}

/// A mesh whose triangles have all their corners.
pub open spec fn meshed(mesh: InxMesh) -> bool {
    corners_exist(mesh.vertex_buffer@.len() as int, tris_of(mesh.index_buffer@))
}

/// Where the vertices of a part lie in the lattice of a mesh group: each in its
/// triangle, or nowhere, and as points in the space of the group.
pub fn map_part_to_lattice(
    rest: &Vec<[Scalar; 2]>,
    tris: &Vec<[u32; 3]>,
    part_mesh: &InxMesh,
    part_to_group: &Aff2,
) -> (r: (Vec<Option<([u32; 3], [Scalar; 3])>>, Vec<[Scalar; 2]>))
    requires
        corners_exist(rest@.len() as int, tris@),
    ensures
        r.0@ == part_places(rest@, tris@, *part_mesh, *part_to_group),
        r.1@ == part_points(*part_mesh, *part_to_group),
{
    let mut map: Vec<Option<([u32; 3], [Scalar; 3])>> = Vec::new();
    let mut points: Vec<[Scalar; 2]> = Vec::new();
    let ghost all = part_points(*part_mesh, *part_to_group);
    let ghost places = part_places(rest@, tris@, *part_mesh, *part_to_group);
    let mut i: usize = 0;
    while i < part_mesh.vertex_buffer.len()
        invariant
            corners_exist(rest@.len() as int, tris@),
            all == part_points(*part_mesh, *part_to_group),
            places == part_places(rest@, tris@, *part_mesh, *part_to_group),
            i <= part_mesh.vertex_buffer@.len(),
            map@ == places.take(i as int),
            points@ == all.take(i as int),
        decreases part_mesh.vertex_buffer@.len() - i,
    {
        let local = between_of(part_mesh.origin, part_mesh.vertex_buffer[i]);
        let p = part_to_group.apply(local);
        map.push(locate(rest, tris, p));
        points.push(p);
        i = i + 1;
        assert(map@ =~= places.take(i as int));
        assert(points@ =~= all.take(i as int));
    }
    assert(map@ =~= places);
    assert(points@ =~= all);
    (map, points)
}

/// The vertices of a part in the space of a group.
pub open spec fn part_points(part: InxMesh, part_to_group: Aff2) -> Seq<[Scalar; 2]> {
    Seq::new(
        part.vertex_buffer@.len(),
        |i: int| image(part_to_group, from_origin(part, i)),
    )
}

/// The places of the vertices of a part in a lattice.
pub open spec fn part_places(
    rest: Seq<[Scalar; 2]>,
    tris: Seq<[u32; 3]>,
    part: InxMesh,
    part_to_group: Aff2,
) -> Seq<Option<([u32; 3], [Scalar; 3])>> {
    Seq::new(
        part.vertex_buffer@.len(),
        |i: int| located(rest, tris, image(part_to_group, from_origin(part, i)), 0),
    )
}

/// How the lattice of a group carries the vertices of one part.
#[derive(Debug, Clone)]
pub struct MgChildMap {
    /// The part.
    pub entity: u64,
    /// Per vertex, the corners of its triangle and its coordinates there; none
    /// for a vertex outside the lattice, which the group leaves alone.
    pub map: Vec<Option<([u32; 3], [Scalar; 3])>>,
    /// Takes an offset from the space of the group to that of the part.
    pub inv_linear: [[Scalar; 2]; 2],
    /// Takes an offset from the space of the part to that of the group.
    pub fwd_linear: [[Scalar; 2]; 2],
    /// Per vertex, where it rests in the space of the group.
    pub rest_query: Vec<[Scalar; 2]>,
}

/// How the deform of a mesh group carries the parts below it.
#[derive(Debug, Clone)]
pub struct InxMeshGroupWarp {
    pub children: Vec<MgChildMap>,
    /// The lattice at rest.
    pub lattice_rest: Vec<[Scalar; 2]>,
    /// Triangles of the lattice.
    pub tris: Vec<[u32; 3]>,
    /// Whether parts are carried from where their own deform has put them, or
    /// else from their rest.
    pub dynamic: bool,
}

/// What a group does to one part.
pub struct CarriedPart {
    pub entity: u64,
    pub map: Seq<Option<([u32; 3], [Scalar; 3])>>,
    pub inv_linear: [[Scalar; 2]; 2],
    pub fwd_linear: [[Scalar; 2]; 2],
    pub rest_query: Seq<[Scalar; 2]>,
}

impl View for MgChildMap {
    type V = CarriedPart;

    open spec fn view(&self) -> CarriedPart {
        CarriedPart {
            entity: self.entity,
            map: self.map@,
            inv_linear: self.inv_linear,
            fwd_linear: self.fwd_linear,
            rest_query: self.rest_query@,
        }
    }
}

/// What a group does to the parts below it.
pub struct WarpView {
    pub children: Seq<CarriedPart>,
    pub lattice_rest: Seq<[Scalar; 2]>,
    pub tris: Seq<[u32; 3]>,
    pub dynamic: bool,
}

pub open spec fn parts_of(children: Seq<MgChildMap>) -> Seq<CarriedPart> {
    children.map_values(|c: MgChildMap| c@)
}

impl View for InxMeshGroupWarp {
    type V = WarpView;

    open spec fn view(&self) -> WarpView {
        WarpView {
            children: parts_of(self.children@),
            lattice_rest: self.lattice_rest@,
            tris: self.tris@,
            dynamic: self.dynamic,
        }
    }
}

/// All triangles of a warp have their corners, and every vertex has a rest
/// point.
pub open spec fn warp_sound(w: InxMeshGroupWarp) -> bool {
    &&& corners_exist(w.lattice_rest@.len() as int, w.tris@)
    &&& forall|i: int|
        0 <= i < w.children@.len() ==> (#[trigger] w.children@[i]).map@.len()
            == w.children@[i].rest_query@.len()
}

/// An offset taken through a linear map and added.
pub open spec fn shifted(own: [Scalar; 2], l: [[Scalar; 2]; 2], d: [Scalar; 2]) -> [Scalar; 2] {
    [
        own[0].plus(dot(l[0][0], d[0], l[0][1], d[1])),
        own[1].plus(dot(l[1][0], d[0], l[1][1], d[1])),
    ]
}

fn shift(own: [Scalar; 2], l: &[[Scalar; 2]; 2], d: [Scalar; 2]) -> (r: [Scalar; 2])
    ensures
        r == shifted(own, *l, d),
{
    let a = l[0];
    let b = l[1];
    [own[0].add(dot_of(a[0], d[0], a[1], d[1])), own[1].add(dot_of(b[0], d[0], b[1], d[1]))]
}

/// The offsets of the corners of a triangle, weighed; corners without an offset
/// add nothing.
pub open spec fn weighed(
    offsets: Seq<[Scalar; 2]>,
    tri: [u32; 3],
    w: [Scalar; 3],
    k: nat,
) -> [Scalar; 2]
    decreases k,
{
    if k == 0 {
        [arith::num(0), arith::num(0)]
    } else {
        let before = weighed(offsets, tri, w, (k - 1) as nat);
        let at = tri[k - 1] as int;
        if at < offsets.len() {
            [
                before[0].plus(offsets[at][0].times(w[k - 1])),
                before[1].plus(offsets[at][1].times(w[k - 1])),
            ]
        } else {
            before
        }
    }
}

fn weigh(offsets: &Vec<[Scalar; 2]>, tri: [u32; 3], w: [Scalar; 3]) -> (r: [Scalar; 2])
    ensures
        r == weighed(offsets@, tri, w, 3),
{
    let mut r = [Scalar { bits: 0 }, Scalar { bits: 0 }];
    let mut k: usize = 0;
    while k < 3
        invariant
            k <= 3,
            r == weighed(offsets@, tri, w, k as nat),
        decreases 3 - k,
    {
        let at: usize = tri[k] as usize;
        if at < offsets.len() {
            let o = offsets[at];
            r = [r[0].add(o[0].mul(w[k])), r[1].add(o[1].mul(w[k]))];
        }
        k = k + 1;
    }
    r
}

/// Where the lattice of a group is once its points have moved. Points without
/// an offset stay.
pub open spec fn moved_lattice(rest: Seq<[Scalar; 2]>, offsets: Seq<[Scalar; 2]>) -> Seq<
    [Scalar; 2],
> {
    Seq::new(
        rest.len(),
        |i: int|
            {
                let o = if i < offsets.len() {
                    offsets[i]
                } else {
                    [arith::num(0), arith::num(0)]
                };
                [rest[i][0].plus(o[0]), rest[i][1].plus(o[1])]
            },
    )
}

fn move_lattice(rest: &Vec<[Scalar; 2]>, offsets: &Vec<[Scalar; 2]>) -> (r: Vec<[Scalar; 2]>)
    ensures
        r@ == moved_lattice(rest@, offsets@),
{
    let mut r: Vec<[Scalar; 2]> = Vec::new();
    let mut i: usize = 0;
    while i < rest.len()
        invariant
            i <= rest@.len(),
            r@ == moved_lattice(rest@, offsets@).take(i as int),
        decreases rest@.len() - i,
    {
        let o = if i < offsets.len() {
            offsets[i]
        } else {
            [Scalar { bits: 0 }, Scalar { bits: 0 }]
        };
        let at = rest[i];
        r.push([at[0].add(o[0]), at[1].add(o[1])]);
        i = i + 1;
        assert(r@ =~= moved_lattice(rest@, offsets@).take(i as int));
    }
    assert(r@ =~= moved_lattice(rest@, offsets@));
    r
}

/// The offset of a vertex that a resting lattice carries.
pub open spec fn carried_static(
    own: [Scalar; 2],
    place: Option<([u32; 3], [Scalar; 3])>,
    inv: [[Scalar; 2]; 2],
    offsets: Seq<[Scalar; 2]>,
) -> [Scalar; 2] {
    match place {
        Some(p) => shifted(own, inv, weighed(offsets, p.0, p.1, 3)),
        None => own,
    }
}

/// Where a vertex is before the group moves it, in the space of the group.
pub open spec fn query_point(rest: [Scalar; 2], fwd: [[Scalar; 2]; 2], own: [Scalar; 2]) -> [Scalar;
    2] {
    [
        rest[0].plus(fwd[0][0].times(own[0])).plus(fwd[0][1].times(own[1])),
        rest[1].plus(fwd[1][0].times(own[0])).plus(fwd[1][1].times(own[1])),
    ]
}

/// The offset of a vertex that the lattice carries from where its own offset has
/// put it.
pub open spec fn carried_dynamic(
    own: [Scalar; 2],
    rest_point: [Scalar; 2],
    fwd: [[Scalar; 2]; 2],
    inv: [[Scalar; 2]; 2],
    rest: Seq<[Scalar; 2]>,
    tris: Seq<[u32; 3]>,
    offsets: Seq<[Scalar; 2]>,
) -> [Scalar; 2] {
    let q = query_point(rest_point, fwd, own);
    match located(rest, tris, q, 0) {
        Some(p) => {
            let there = weighed(moved_lattice(rest, offsets), p.0, p.1, 3);
            shifted(own, inv, between(q, there))
        },
        None => own,
    }
}

/// The offsets of a part after a group has carried it.
pub open spec fn carried(
    own: Seq<[Scalar; 2]>,
    warp: InxMeshGroupWarp,
    child: MgChildMap,
    offsets: Seq<[Scalar; 2]>,
) -> Seq<[Scalar; 2]> {
    Seq::new(
        own.len(),
        |v: int|
            if warp.dynamic {
                carried_dynamic(
                    own[v],
                    child.rest_query@[v],
                    child.fwd_linear,
                    child.inv_linear,
                    warp.lattice_rest@,
                    warp.tris@,
                    offsets,
                )
            } else {
                carried_static(own[v], child.map@[v], child.inv_linear, offsets)
            },
    )
}

/// Carries a part with the lattice of a group.
pub fn carry(
    own: &Vec<[Scalar; 2]>,
    warp: &InxMeshGroupWarp,
    child: &MgChildMap,
    offsets: &Vec<[Scalar; 2]>,
) -> (r: Vec<[Scalar; 2]>)
    requires
        own@.len() == child.map@.len(),
        own@.len() == child.rest_query@.len(),
        corners_exist(warp.lattice_rest@.len() as int, warp.tris@),
    ensures
        r@ == carried(own@, *warp, *child, offsets@),
{
    let lattice = if warp.dynamic {
        move_lattice(&warp.lattice_rest, offsets)
    } else {
        Vec::new()
    };
    let ghost want = carried(own@, *warp, *child, offsets@);
    let mut r: Vec<[Scalar; 2]> = Vec::new();
    let mut v: usize = 0;
    while v < own.len()
        invariant
            own@.len() == child.map@.len(),
            own@.len() == child.rest_query@.len(),
            corners_exist(warp.lattice_rest@.len() as int, warp.tris@),
            warp.dynamic ==> lattice@ == moved_lattice(warp.lattice_rest@, offsets@),
            want == carried(own@, *warp, *child, offsets@),
            v <= own@.len(),
            r@ == want.take(v as int),
        decreases own@.len() - v,
    {
        let o = own[v];
        let next = if warp.dynamic {
            let rest = child.rest_query[v];
            let a = child.fwd_linear[0];
            let b = child.fwd_linear[1];
            let q = [
                rest[0].add(a[0].mul(o[0])).add(a[1].mul(o[1])),
                rest[1].add(b[0].mul(o[0])).add(b[1].mul(o[1])),
            ];
            match locate(&warp.lattice_rest, &warp.tris, q) {
                Some((tri, w)) => {
                    let there = weigh(&lattice, tri, w);
                    shift(o, &child.inv_linear, between_of(q, there))
                },
                None => o,
            }
        } else {
            match child.map[v] {
                Some((tri, w)) => shift(o, &child.inv_linear, weigh(offsets, tri, w)),
                None => o,
            }
        };
        r.push(next);
        v = v + 1;
        assert(r@ =~= want.take(v as int));
    }
    assert(r@ =~= want);
    r
}

/// A resting group leaves the vertices outside its lattice alone.
pub proof fn lemma_outside_stays(
    own: Seq<[Scalar; 2]>,
    warp: InxMeshGroupWarp,
    child: MgChildMap,
    offsets: Seq<[Scalar; 2]>,
    v: int,
)
    requires
        !warp.dynamic,
        0 <= v < own.len(),
        child.map@[v] is None,
    ensures
        carried(own, warp, child, offsets)[v] == own[v],
{
}

/// What a lattice locates, it locates in one of its triangles, and inside it.
pub proof fn lemma_located(rest: Seq<[Scalar; 2]>, tris: Seq<[u32; 3]>, q: [Scalar; 2], k: int)
    requires
        0 <= k,
    ensures
        located(rest, tris, q, k) matches Some(p) ==> tris.contains(p.0) && inside(p.1)
            && in_triangle(rest, p.0, q) == Some(p.1),
        located(rest, tris, q, k) is None <==> forall|i: int|
            k <= i < tris.len() ==> in_triangle(rest, #[trigger] tris[i], q) is None,
    decreases tris.len() - k,
{
    if k < tris.len() {
        lemma_located(rest, tris, q, k + 1);
        assert(tris.contains(tris[k]));
        if in_triangle(rest, tris[k], q) is None {
            assert(forall|i: int|
                k <= i < tris.len() ==> (i == k || in_triangle(rest, #[trigger] tris[i], q) is None)
                    == (i == k || in_triangle(rest, tris[i], q) is None));
        }
    }
}

/// The offset of a lattice point; none where the offsets end early.
pub open spec fn corner_offset(offsets: Seq<[Scalar; 2]>, at: u32) -> [Scalar; 2] {
    if at < offsets.len() {
        offsets[at as int]
    } else {
        [arith::num(0), arith::num(0)]
    }
}

/// Of three numbers that are weighed and added, only one counts: the others, or
/// their weights, are zero.
proof fn lemma_one_counts(x: [Scalar; 3], w: [Scalar; 3], c: int)
    requires
        0 <= c < 3,
        forall|k: int| 0 <= k < 3 ==> (#[trigger] x[k]).finite() && w[k].finite(),
        forall|k: int|
            0 <= k < 3 && k != c ==> (#[trigger] x[k]).mag() == 0 || w[k].mag() == 0,
    ensures
        exact::alike(
            arith::num(0).plus(x[0].times(w[0])).plus(x[1].times(w[1])).plus(x[2].times(w[2])),
            x[c].times(w[c]),
        ),
        !x[c].times(w[c]).nan(),
{
    let zero = arith::num(0);
    let p0 = x[0].times(w[0]);
    let p1 = x[1].times(w[1]);
    let p2 = x[2].times(w[2]);
    lemma_product_is_number(x[0], w[0]);
    lemma_product_is_number(x[1], w[1]);
    lemma_product_is_number(x[2], w[2]);
    let s0 = zero.plus(p0);
    exact::lemma_plus_zero(p0, zero);
    exact::lemma_alike_same(s0, p0);
    let s1 = s0.plus(p1);
    if c == 0 {
        exact::lemma_plus_zero(s0, p1);
        exact::lemma_alike_same(s1, s0);
        exact::lemma_plus_zero(s1, p2);
    } else if c == 1 {
        exact::lemma_plus_zero(p1, s0);
        exact::lemma_alike_same(s1, p1);
        exact::lemma_plus_zero(s1, p2);
    } else {
        exact::lemma_plus_zero(s0, p1);
        exact::lemma_alike_same(s1, s0);
        exact::lemma_plus_zero(p2, s1);
    }
}

proof fn lemma_product_is_number(x: Scalar, w: Scalar)
    requires
        x.finite(),
        w.finite(),
    ensures
        !x.times(w).nan(),
        x.mag() == 0 || w.mag() == 0 ==> x.times(w).mag() == 0,
{
    exact::lemma_one();
    let (a, b) = (arith::absolute(x.value()), arith::absolute(w.value()));
    assert(a * b >= 0) by (nonlinear_arith)
        requires
            a >= 0,
            b >= 0,
    ;
    crate::rounding::lemma_nearest_exists(a * b, crate::scalar::unit());
    if x.mag() == 0 {
        exact::lemma_times_zero(w, x);
    }
    if w.mag() == 0 {
        exact::lemma_times_zero(x, w);
    }
}

/// The three terms of a weighed offset.
proof fn lemma_weighed_terms(offsets: Seq<[Scalar; 2]>, tri: [u32; 3], w: [Scalar; 3], j: int)
    requires
        0 <= j < 2,
        forall|k: int|
            0 <= k < 3 ==> corner_offset(offsets, #[trigger] tri[k])[j].finite() && w[k].finite(),
    ensures
        ({
            let o = |k: int| corner_offset(offsets, tri[k])[j];
            exact::alike(
                weighed(offsets, tri, w, 3)[j],
                arith::num(0).plus(o(0).times(w[0])).plus(o(1).times(w[1])).plus(o(2).times(w[2])),
            )
        }),
{
    reveal_with_fuel(weighed, 4);
    let zero = arith::num(0);
    let o0 = corner_offset(offsets, tri[0])[j];
    let o1 = corner_offset(offsets, tri[1])[j];
    let o2 = corner_offset(offsets, tri[2])[j];
    let s1 = weighed(offsets, tri, w, 1)[j];
    let s2 = weighed(offsets, tri, w, 2)[j];
    let s3 = weighed(offsets, tri, w, 3)[j];
    let t1 = zero.plus(o0.times(w[0]));
    let t2 = t1.plus(o1.times(w[1]));
    let t3 = t2.plus(o2.times(w[2]));
    assert(exact::alike(weighed(offsets, tri, w, 0)[j], zero));
    lemma_step(zero, zero, o0, w[0]);
    assert(exact::alike(s1, t1));
    lemma_step(s1, t1, o1, w[1]);
    assert(exact::alike(s2, t2));
    lemma_step(s2, t2, o2, w[2]);
    assert(exact::alike(s3, t3));
}

/// Adding a weighed number to two sums that are alike, or nothing where the number
/// is zero.
proof fn lemma_step(a: Scalar, b: Scalar, x: Scalar, w: Scalar)
    requires
        exact::alike(a, b),
        x.finite(),
        w.finite(),
    ensures
        exact::alike(a.plus(x.times(w)), b.plus(x.times(w))),
        a.plus(x.times(w)).nan() ==> a.plus(x.times(w)) == arith::no_number(),
        x == arith::num(0) && (a.nan() ==> a == arith::no_number()) ==> exact::alike(
            a,
            b.plus(x.times(w)),
        ),
{
    exact::lemma_plus_alike(a, b, x.times(w), x.times(w));
    exact::lemma_plus_no_number(a, x.times(w));
    if x == arith::num(0) {
        exact::lemma_times_zero(w, x);
        exact::lemma_alike_same(a, b);
        if !b.nan() {
            exact::lemma_plus_zero(b, x.times(w));
        }
    }
}

proof fn lemma_shift_alike(own: [Scalar; 2], l: [[Scalar; 2]; 2], d: [Scalar; 2], e: [Scalar; 2])
    requires
        exact::alike2(d, e),
    ensures
        exact::alike(
            shifted(own, l, d)[0],
            own[0].plus(l[0][0].times(e[0]).plus(l[0][1].times(e[1]))),
        ),
        exact::alike(
            shifted(own, l, d)[1],
            own[1].plus(l[1][0].times(e[0]).plus(l[1][1].times(e[1]))),
        ),
{
    exact::lemma_times_alike(l[0][0], l[0][0], d[0], e[0]);
    exact::lemma_times_alike(l[0][1], l[0][1], d[1], e[1]);
    exact::lemma_times_alike(l[1][0], l[1][0], d[0], e[0]);
    exact::lemma_times_alike(l[1][1], l[1][1], d[1], e[1]);
    let a = l[0][0].times(d[0]).plus(l[0][1].times(d[1]));
    let b = l[0][0].times(e[0]).plus(l[0][1].times(e[1]));
    let f = l[1][0].times(d[0]).plus(l[1][1].times(d[1]));
    let g = l[1][0].times(e[0]).plus(l[1][1].times(e[1]));
    exact::lemma_plus_alike(
        l[0][0].times(d[0]),
        l[0][0].times(e[0]),
        l[0][1].times(d[1]),
        l[0][1].times(e[1]),
    );
    exact::lemma_plus_alike(
        l[1][0].times(d[0]),
        l[1][0].times(e[0]),
        l[1][1].times(d[1]),
        l[1][1].times(e[1]),
    );
    exact::lemma_plus_alike(own[0], own[0], a, b);
    exact::lemma_plus_alike(own[1], own[1], f, g);
}

/// The offsets at the corners of a triangle, and the weights, are finite.
pub open spec fn weighable(offsets: Seq<[Scalar; 2]>, tri: [u32; 3], w: [Scalar; 3]) -> bool {
    forall|k: int|
        0 <= k < 3 ==> corner_offset(offsets, #[trigger] tri[k])[0].finite() && corner_offset(
            offsets,
            tri[k],
        )[1].finite() && w[k].finite()
}

proof fn lemma_weighed_one(offsets: Seq<[Scalar; 2]>, tri: [u32; 3], w: [Scalar; 3], c: int)
    requires
        0 <= c < 3,
        weighable(offsets, tri, w),
        forall|k: int|
            0 <= k < 3 && k != c ==> w[k].mag() == 0 || (corner_offset(
                offsets,
                #[trigger] tri[k],
            )[0].mag() == 0 && corner_offset(offsets, tri[k])[1].mag() == 0),
    ensures
        exact::alike2(
            weighed(offsets, tri, w, 3),
            [
                corner_offset(offsets, tri[c])[0].times(w[c]),
                corner_offset(offsets, tri[c])[1].times(w[c]),
            ],
        ),
{
    let o0 = corner_offset(offsets, tri[0]);
    let o1 = corner_offset(offsets, tri[1]);
    let o2 = corner_offset(offsets, tri[2]);
    lemma_weighed_terms(offsets, tri, w, 0);
    lemma_weighed_terms(offsets, tri, w, 1);
    let x = [o0[0], o1[0], o2[0]];
    let y = [o0[1], o1[1], o2[1]];
    assert(x[c] == corner_offset(offsets, tri[c])[0]);
    assert(y[c] == corner_offset(offsets, tri[c])[1]);
    lemma_one_counts(x, w, c);
    lemma_one_counts(y, w, c);
}

/// A vertex that rests on a corner of the lattice, with all its weight there, moves
/// with that corner: by the corner's offset, taken to the space of the part.
pub proof fn lemma_corner_moves_vertex(
    own: Seq<[Scalar; 2]>,
    warp: InxMeshGroupWarp,
    child: MgChildMap,
    offsets: Seq<[Scalar; 2]>,
    v: int,
    tri: [u32; 3],
    w: [Scalar; 3],
    c: int,
)
    requires
        !warp.dynamic,
        0 <= v < own.len(),
        child.map@[v] == Some((tri, w)),
        0 <= c < 3,
        weighable(offsets, tri, w),
        w[c] == arith::num(ONE),
        forall|k: int| 0 <= k < 3 && k != c ==> (#[trigger] w[k]).mag() == 0,
    ensures
        ({
            let o = corner_offset(offsets, tri[c]);
            let l = child.inv_linear;
            exact::alike2(
                carried(own, warp, child, offsets)[v],
                [
                    own[v][0].plus(l[0][0].times(o[0]).plus(l[0][1].times(o[1]))),
                    own[v][1].plus(l[1][0].times(o[0]).plus(l[1][1].times(o[1]))),
                ],
            )
        }),
{
    let o = corner_offset(offsets, tri[c]);
    lemma_weighed_one(offsets, tri, w, c);
    exact::lemma_one_times(o[0]);
    exact::lemma_one_times(o[1]);
    lemma_shift_alike(own[v], child.inv_linear, weighed(offsets, tri, w, 3), o);
}

/// Where only one corner of a triangle has moved, a vertex in it moves by the
/// corner's offset times the vertex's weight there, whichever corner it is.
pub proof fn lemma_corner_counts_by_weight(
    own: Seq<[Scalar; 2]>,
    warp: InxMeshGroupWarp,
    child: MgChildMap,
    offsets: Seq<[Scalar; 2]>,
    v: int,
    tri: [u32; 3],
    w: [Scalar; 3],
    c: int,
)
    requires
        !warp.dynamic,
        0 <= v < own.len(),
        child.map@[v] == Some((tri, w)),
        0 <= c < 3,
        weighable(offsets, tri, w),
        forall|k: int|
            0 <= k < 3 && k != c ==> corner_offset(offsets, #[trigger] tri[k])[0].mag() == 0
                && corner_offset(offsets, tri[k])[1].mag() == 0,
    ensures
        ({
            let o = corner_offset(offsets, tri[c]);
            let l = child.inv_linear;
            exact::alike2(
                carried(own, warp, child, offsets)[v],
                [
                    own[v][0].plus(
                        l[0][0].times(o[0].times(w[c])).plus(l[0][1].times(o[1].times(w[c]))),
                    ),
                    own[v][1].plus(
                        l[1][0].times(o[0].times(w[c])).plus(l[1][1].times(o[1].times(w[c]))),
                    ),
                ],
            )
        }),
{
    let o = corner_offset(offsets, tri[c]);
    lemma_weighed_one(offsets, tri, w, c);
    lemma_shift_alike(
        own[v],
        child.inv_linear,
        weighed(offsets, tri, w, 3),
        [o[0].times(w[c]), o[1].times(w[c])],
    );
}

/// The weighed sum in mathematics, with few digits: weights in sixteenths.
proof fn lemma_weighed_exact(
    offsets: Seq<[Scalar; 2]>,
    tri: [u32; 3],
    w: [Scalar; 3],
    j: int,
    x: Seq<int>,
    n: Seq<int>,
    s: nat,
)
    requires
        0 <= j < 2,
        x.len() == 3,
        n.len() == 3,
        4 <= s <= 252,
        forall|k: int|
            0 <= k < 3 ==> exact::stands_for(
                corner_offset(offsets, #[trigger] tri[k])[j],
                x[k],
                s,
            ) && exact::stands_for(w[k], n[k], 145) && -0x1000 <= x[k] <= 0x1000 && 0 <= n[k]
                <= 16,
    ensures
        exact::stands_for(
            weighed(offsets, tri, w, 3)[j],
            x[0] * n[0] + x[1] * n[1] + x[2] * n[2],
            (s - 4) as nat,
        ),
        -0x3_0000 <= x[0] * n[0] + x[1] * n[1] + x[2] * n[2] <= 0x3_0000,
{
    let o0 = corner_offset(offsets, tri[0])[j];
    let o1 = corner_offset(offsets, tri[1])[j];
    let o2 = corner_offset(offsets, tri[2])[j];
    let zero = arith::num(0);
    let r = (s - 4) as nat;
    let (a, b, c) = (x[0] * n[0], x[1] * n[1], x[2] * n[2]);
    lemma_small_product(x[0], n[0]);
    lemma_small_product(x[1], n[1]);
    lemma_small_product(x[2], n[2]);
    exact::lemma_product(o0, x[0], s, w[0], n[0], 145);
    exact::lemma_product(o1, x[1], s, w[1], n[1], 145);
    exact::lemma_product(o2, x[2], s, w[2], n[2], 145);
    exact::lemma_zero_value(zero);
    assert(exact::stands_for(zero, 0, r));
    exact::lemma_sum(zero, 0, o0.times(w[0]), a, r);
    let s1 = zero.plus(o0.times(w[0]));
    exact::lemma_sum(s1, a, o1.times(w[1]), b, r);
    let s2 = s1.plus(o1.times(w[1]));
    exact::lemma_sum(s2, a + b, o2.times(w[2]), c, r);
    let s3 = s2.plus(o2.times(w[2]));
    lemma_weighed_terms(offsets, tri, w, j);
    exact::lemma_alike_same(weighed(offsets, tri, w, 3)[j], s3);
}

proof fn lemma_small_product(x: int, n: int)
    requires
        -0x1000 <= x <= 0x1000,
        0 <= n <= 16,
    ensures
        -0x1_0000 <= x * n <= 0x1_0000,
{
    assert(-0x1_0000 <= x * n <= 0x1_0000) by (nonlinear_arith)
        requires
            -0x1000 <= x <= 0x1000,
            0 <= n <= 16,
    ;
}

/// One component of a shift in mathematics, with few digits.
proof fn lemma_shift_exact(
    own: Scalar,
    l0: Scalar,
    l1: Scalar,
    d0: Scalar,
    d1: Scalar,
    z: int,
    e0: int,
    e1: int,
    x: int,
    y: int,
    s: nat,
)
    requires
        exact::stands_for(own, z, s),
        exact::stands_for(l0, e0, 149),
        exact::stands_for(l1, e1, 149),
        exact::stands_for(d0, x, (s - 4) as nat),
        exact::stands_for(d1, y, (s - 4) as nat),
        -0x1000 <= z <= 0x1000,
        -8 <= e0 <= 8,
        -8 <= e1 <= 8,
        -0x6_0000 <= x <= 0x6_0000,
        -0x6_0000 <= y <= 0x6_0000,
        4 <= s <= 252,
    ensures
        exact::stands_for(
            own.plus(l0.times(d0).plus(l1.times(d1))),
            16 * z + (e0 * x + e1 * y),
            (s - 4) as nat,
        ),
{
    let r = (s - 4) as nat;
    vstd::arithmetic::power2::lemma2_to64();
    assert(-0x30_0000 <= e0 * x <= 0x30_0000 && -0x30_0000 <= e1 * y <= 0x30_0000)
        by (nonlinear_arith)
        requires
            -8 <= e0 <= 8,
            -8 <= e1 <= 8,
            -0x6_0000 <= x <= 0x6_0000,
            -0x6_0000 <= y <= 0x6_0000,
    ;
    exact::lemma_product(l0, e0, 149, d0, x, r);
    exact::lemma_product(l1, e1, 149, d1, y, r);
    exact::lemma_sum(l0.times(d0), e0 * x, l1.times(d1), e1 * y, r);
    exact::lemma_finer(own, z, s, 4);
    exact::lemma_sum(own, 16 * z, l0.times(d0).plus(l1.times(d1)), e0 * x + e1 * y, r);
}

/// What is needed to follow a carried vertex with whole numbers: its own offset `z`,
/// the offsets `x` and `y` of the three corners, the weights `n` in sixteenths and
/// the linear map `e`, all with few digits, in any unit `s`.
pub open spec fn countable(
    own: [Scalar; 2],
    z: [int; 2],
    l: [[Scalar; 2]; 2],
    e: [[int; 2]; 2],
    offsets: Seq<[Scalar; 2]>,
    tri: [u32; 3],
    w: [Scalar; 3],
    x: Seq<int>,
    y: Seq<int>,
    n: Seq<int>,
    s: nat,
) -> bool {
    &&& x.len() == 3
    &&& y.len() == 3
    &&& n.len() == 3
    &&& 4 <= s <= 252
    &&& forall|k: int|
        0 <= k < 3 ==> {
            &&& exact::stands_for(corner_offset(offsets, #[trigger] tri[k])[0], x[k], s)
            &&& exact::stands_for(corner_offset(offsets, tri[k])[1], y[k], s)
            &&& exact::stands_for(w[k], n[k], 145)
            &&& -0x1000 <= x[k] <= 0x1000
            &&& -0x1000 <= y[k] <= 0x1000
            &&& 0 <= n[k] <= 16
        }
    &&& forall|i: int|
        0 <= i < 2 ==> {
            &&& exact::stands_for(#[trigger] own[i], z[i], s)
            &&& -0x1000 <= z[i] <= 0x1000
            &&& exact::stands_for(l[i][0], e[i][0], 149)
            &&& exact::stands_for(l[i][1], e[i][1], 149)
            &&& -8 <= e[i][0] <= 8
            &&& -8 <= e[i][1] <= 8
        }
}

/// A resting lattice moves a vertex by the mean of its corners' offsets, each by
/// its weight, taken through the linear map and added to the vertex's own offset.
pub proof fn lemma_carried_exact(
    own: Seq<[Scalar; 2]>,
    warp: InxMeshGroupWarp,
    child: MgChildMap,
    offsets: Seq<[Scalar; 2]>,
    v: int,
    tri: [u32; 3],
    w: [Scalar; 3],
    z: [int; 2],
    e: [[int; 2]; 2],
    x: Seq<int>,
    y: Seq<int>,
    n: Seq<int>,
    s: nat,
)
    requires
        !warp.dynamic,
        0 <= v < own.len(),
        child.map@[v] == Some((tri, w)),
        countable(own[v], z, child.inv_linear, e, offsets, tri, w, x, y, n, s),
    ensures
        ({
            let dx = x[0] * n[0] + x[1] * n[1] + x[2] * n[2];
            let dy = y[0] * n[0] + y[1] * n[1] + y[2] * n[2];
            let r = carried(own, warp, child, offsets)[v];
            &&& exact::stands_for(
                r[0],
                16 * z[0] + (e[0][0] * dx + e[0][1] * dy),
                (s - 4) as nat,
            )
            &&& exact::stands_for(
                r[1],
                16 * z[1] + (e[1][0] * dx + e[1][1] * dy),
                (s - 4) as nat,
            )
        }),
{
    let l = child.inv_linear;
    let o = own[v];
    assert(exact::stands_for(o[0], z[0], s) && exact::stands_for(o[1], z[1], s));
    lemma_weighed_exact(offsets, tri, w, 0, x, n, s);
    lemma_weighed_exact(offsets, tri, w, 1, y, n, s);
    let d = weighed(offsets, tri, w, 3);
    let dx = x[0] * n[0] + x[1] * n[1] + x[2] * n[2];
    let dy = y[0] * n[0] + y[1] * n[1] + y[2] * n[2];
    lemma_shift_exact(o[0], l[0][0], l[0][1], d[0], d[1], z[0], e[0][0], e[0][1], dx, dy, s);
    lemma_shift_exact(o[1], l[1][0], l[1][1], d[0], d[1], z[1], e[1][0], e[1][1], dx, dy, s);
}

/// A vertex that a moving lattice finds on one of its corners goes where the corner
/// goes: by the way from the vertex to the moved corner.
pub proof fn lemma_moved_corner_takes_vertex(
    own: Seq<[Scalar; 2]>,
    warp: InxMeshGroupWarp,
    child: MgChildMap,
    offsets: Seq<[Scalar; 2]>,
    v: int,
    q: [Scalar; 2],
    tri: [u32; 3],
    w: [Scalar; 3],
    c: int,
)
    requires
        warp.dynamic,
        0 <= v < own.len(),
        q == [
            child.rest_query@[v][0].plus(child.fwd_linear[0][0].times(own[v][0])).plus(
                child.fwd_linear[0][1].times(own[v][1]),
            ),
            child.rest_query@[v][1].plus(child.fwd_linear[1][0].times(own[v][0])).plus(
                child.fwd_linear[1][1].times(own[v][1]),
            ),
        ],
        located(warp.lattice_rest@, warp.tris@, q, 0) == Some((tri, w)),
        0 <= c < 3,
        tri[c] < warp.lattice_rest@.len(),
        weighable(moved_lattice(warp.lattice_rest@, offsets), tri, w),
        w[c] == arith::num(ONE),
        forall|k: int| 0 <= k < 3 && k != c ==> (#[trigger] w[k]).mag() == 0,
    ensures
        ({
            let rest = warp.lattice_rest@[tri[c] as int];
            let o = corner_offset(offsets, tri[c]);
            let way = [
                rest[0].plus(o[0]).minus(q[0]),
                rest[1].plus(o[1]).minus(q[1]),
            ];
            let l = child.inv_linear;
            exact::alike2(
                carried(own, warp, child, offsets)[v],
                [
                    own[v][0].plus(l[0][0].times(way[0]).plus(l[0][1].times(way[1]))),
                    own[v][1].plus(l[1][0].times(way[0]).plus(l[1][1].times(way[1]))),
                ],
            )
        }),
{
    let lattice = moved_lattice(warp.lattice_rest@, offsets);
    let at = corner_offset(lattice, tri[c]);
    let rest = warp.lattice_rest@[tri[c] as int];
    let o = corner_offset(offsets, tri[c]);
    assert(q == query_point(child.rest_query@[v], child.fwd_linear, own[v]));
    lemma_weighed_one(lattice, tri, w, c);
    exact::lemma_one_times(at[0]);
    exact::lemma_one_times(at[1]);
    let there = weighed(lattice, tri, w, 3);
    let way = [rest[0].plus(o[0]).minus(q[0]), rest[1].plus(o[1]).minus(q[1])];
    assert(at == [rest[0].plus(o[0]), rest[1].plus(o[1])]);
    exact::lemma_minus_alike(there[0], at[0], q[0], q[0]);
    exact::lemma_minus_alike(there[1], at[1], q[1], q[1]);
    lemma_shift_alike(own[v], child.inv_linear, between(q, there), way);
}

/// A moving lattice moves a vertex by the way from where it is to the mean of the
/// moved corners, each by its weight. The corners are at `x` and `y` once moved, and
/// the vertex at `g`, with few digits.
pub proof fn lemma_carried_from_exact(
    own: Seq<[Scalar; 2]>,
    warp: InxMeshGroupWarp,
    child: MgChildMap,
    offsets: Seq<[Scalar; 2]>,
    v: int,
    q: [Scalar; 2],
    tri: [u32; 3],
    w: [Scalar; 3],
    z: [int; 2],
    e: [[int; 2]; 2],
    x: Seq<int>,
    y: Seq<int>,
    n: Seq<int>,
    g: [int; 2],
    s: nat,
)
    requires
        warp.dynamic,
        0 <= v < own.len(),
        q == [
            child.rest_query@[v][0].plus(child.fwd_linear[0][0].times(own[v][0])).plus(
                child.fwd_linear[0][1].times(own[v][1]),
            ),
            child.rest_query@[v][1].plus(child.fwd_linear[1][0].times(own[v][0])).plus(
                child.fwd_linear[1][1].times(own[v][1]),
            ),
        ],
        located(warp.lattice_rest@, warp.tris@, q, 0) == Some((tri, w)),
        countable(
            own[v],
            z,
            child.inv_linear,
            e,
            Seq::new(
                warp.lattice_rest@.len(),
                |i: int|
                    [
                        warp.lattice_rest@[i][0].plus(corner_offset(offsets, i as u32)[0]),
                        warp.lattice_rest@[i][1].plus(corner_offset(offsets, i as u32)[1]),
                    ],
            ),
            tri,
            w,
            x,
            y,
            n,
            s,
        ),
        warp.lattice_rest@.len() <= u32::MAX,
        exact::stands_for(q[0], g[0], s),
        exact::stands_for(q[1], g[1], s),
        -0x1000 <= g[0] <= 0x1000,
        -0x1000 <= g[1] <= 0x1000,
    ensures
        ({
            let dx = x[0] * n[0] + x[1] * n[1] + x[2] * n[2] - 16 * g[0];
            let dy = y[0] * n[0] + y[1] * n[1] + y[2] * n[2] - 16 * g[1];
            let r = carried(own, warp, child, offsets)[v];
            &&& exact::stands_for(
                r[0],
                16 * z[0] + (e[0][0] * dx + e[0][1] * dy),
                (s - 4) as nat,
            )
            &&& exact::stands_for(
                r[1],
                16 * z[1] + (e[1][0] * dx + e[1][1] * dy),
                (s - 4) as nat,
            )
        }),
{
    let l = child.inv_linear;
    let o = own[v];
    let lattice = moved_lattice(warp.lattice_rest@, offsets);
    let same = Seq::new(
        warp.lattice_rest@.len(),
        |i: int|
            [
                warp.lattice_rest@[i][0].plus(corner_offset(offsets, i as u32)[0]),
                warp.lattice_rest@[i][1].plus(corner_offset(offsets, i as u32)[1]),
            ],
    );
    assert(lattice =~= same);
    assert(q == query_point(child.rest_query@[v], child.fwd_linear, o));
    assert(exact::stands_for(o[0], z[0], s) && exact::stands_for(o[1], z[1], s));
    lemma_weighed_exact(lattice, tri, w, 0, x, n, s);
    lemma_weighed_exact(lattice, tri, w, 1, y, n, s);
    let there = weighed(lattice, tri, w, 3);
    let r = (s - 4) as nat;
    vstd::arithmetic::power2::lemma2_to64();
    exact::lemma_finer(q[0], g[0], s, 4);
    exact::lemma_finer(q[1], g[1], s, 4);
    let sx = x[0] * n[0] + x[1] * n[1] + x[2] * n[2];
    let sy = y[0] * n[0] + y[1] * n[1] + y[2] * n[2];
    exact::lemma_difference(there[0], sx, q[0], 16 * g[0], r);
    exact::lemma_difference(there[1], sy, q[1], 16 * g[1], r);
    let d = between(q, there);
    let dx = sx - 16 * g[0];
    let dy = sy - 16 * g[1];
    lemma_shift_exact(o[0], l[0][0], l[0][1], d[0], d[1], z[0], e[0][0], e[0][1], dx, dy, s);
    lemma_shift_exact(o[1], l[1][0], l[1][1], d[0], d[1], z[1], e[1][0], e[1][1], dx, dy, s);
}

/// The sides of a triangle, and the products that its area is made of, are finite.
pub open spec fn measurable(a: [Scalar; 2], b: [Scalar; 2], c: [Scalar; 2]) -> bool {
    let (x, y) = (between(a, b), between(a, c));
    &&& a[0].finite() && a[1].finite()
    &&& x[0].finite() && x[1].finite() && y[0].finite() && y[1].finite()
    &&& x[0].times(y[1]).finite() && y[0].times(x[1]).finite()
    &&& x[0].times(x[1]).finite() && y[0].times(y[1]).finite()
    &&& x[0].times(y[1]).minus(y[0].times(x[1])).finite()
    &&& x[0].times(y[1]).minus(y[0].times(x[1])).mag() != 0
}

proof fn lemma_cross_zero(z: [Scalar; 2], y: [Scalar; 2])
    requires
        z[0].mag() == 0,
        z[1].mag() == 0,
        y[0].finite(),
        y[1].finite(),
    ensures
        cross(z, y).mag() == 0,
        cross(y, z).mag() == 0,
{
    exact::lemma_times_zero(y[1], z[0]);
    exact::lemma_times_zero(y[0], z[1]);
    exact::lemma_plus_zero(z[0].times(y[1]), y[0].times(z[1]));
    exact::lemma_plus_zero(y[0].times(z[1]), z[0].times(y[1]));
}

proof fn lemma_cross_self(x: [Scalar; 2])
    requires
        x[0].times(x[1]).finite(),
    ensures
        cross(x, x).mag() == 0,
{
    arith::lemma_minus_self(x[0].times(x[1]));
}

/// At each corner of a triangle the corner has all the weight.
pub proof fn lemma_weights_at_corners(a: [Scalar; 2], b: [Scalar; 2], c: [Scalar; 2])
    requires
        measurable(a, b, c),
    ensures
        weights_at(a, a, b, c) matches Some(w) ==> w[0] == arith::num(ONE) && w[1].mag() == 0
            && w[2].mag() == 0,
        weights_at(b, a, b, c) matches Some(w) ==> w[0].mag() == 0 && w[1] == arith::num(ONE)
            && w[2].mag() == 0,
        weights_at(c, a, b, c) matches Some(w) ==> w[0].mag() == 0 && w[1].mag() == 0 && w[2]
            == arith::num(ONE),
{
    let (x, y) = (between(a, b), between(a, c));
    let den = cross(x, y);
    let none = between(a, a);
    let one = arith::num(ONE);
    arith::lemma_minus_self(a[0]);
    arith::lemma_minus_self(a[1]);
    lemma_cross_zero(none, x);
    lemma_cross_zero(none, y);
    lemma_cross_self(x);
    lemma_cross_self(y);
    exact::lemma_zero_over(cross(none, y), den);
    exact::lemma_zero_over(cross(x, none), den);
    exact::lemma_zero_over(cross(x, x), den);
    exact::lemma_zero_over(cross(y, y), den);
    exact::lemma_over_self(den);
    exact::lemma_small();
    arith::lemma_minus_self(one);
    let (v, w) = (cross(none, y).over(den), cross(x, none).over(den));
    exact::lemma_plus_zero(one, v);
    exact::lemma_plus_zero(one, w);
    let w1 = cross(x, x).over(den);
    exact::lemma_plus_zero(one.minus(one), w1);
    let v2 = cross(y, y).over(den);
    exact::lemma_plus_zero(one, v2);
}

/// One component of a cross product, in mathematics.
proof fn lemma_cross_exact(
    x: [Scalar; 2],
    y: [Scalar; 2],
    a: int,
    b: int,
    c: int,
    d: int,
    s: nat,
    t: nat,
)
    requires
        exact::stands_for(x[0], a, s),
        exact::stands_for(x[1], b, s),
        exact::stands_for(y[0], c, t),
        exact::stands_for(y[1], d, t),
        149 <= s + t <= 401,
        -0x800 <= a <= 0x800,
        -0x800 <= b <= 0x800,
        -0x800 <= c <= 0x800,
        -0x800 <= d <= 0x800,
    ensures
        exact::stands_for(cross(x, y), a * d - c * b, (s + t - 149) as nat),
        -0x80_0000 <= a * d - c * b <= 0x80_0000,
{
    assert(-0x40_0000 <= a * d <= 0x40_0000 && -0x40_0000 <= c * b <= 0x40_0000)
        by (nonlinear_arith)
        requires
            -0x800 <= a <= 0x800,
            -0x800 <= b <= 0x800,
            -0x800 <= c <= 0x800,
            -0x800 <= d <= 0x800,
    ;
    exact::lemma_product(x[0], a, s, y[1], d, t);
    exact::lemma_product(y[0], c, t, x[1], b, s);
    exact::lemma_difference(
        x[0].times(y[1]),
        a * d,
        y[0].times(x[1]),
        c * b,
        (s + t - 149) as nat,
    );
}

/// The weights of a point are those of which it is the mean: a point that is
/// `i` sixteenths of the way along one side and `j` sixteenths along the other has
/// these weights at the far corners, and the first corner has the rest.
pub proof fn lemma_weights_exact(
    p: [Scalar; 2],
    a: [Scalar; 2],
    b: [Scalar; 2],
    c: [Scalar; 2],
    ax: int,
    ay: int,
    bx: int,
    by: int,
    cx: int,
    cy: int,
    i: int,
    j: int,
    s: nat,
)
    requires
        77 <= s <= 200,
        exact::stands_for(a[0], ax, s),
        exact::stands_for(a[1], ay, s),
        exact::stands_for(b[0], bx, s),
        exact::stands_for(b[1], by, s),
        exact::stands_for(c[0], cx, s),
        exact::stands_for(c[1], cy, s),
        -16 <= ax <= 16,
        -16 <= ay <= 16,
        -16 <= bx <= 16,
        -16 <= by <= 16,
        -16 <= cx <= 16,
        -16 <= cy <= 16,
        0 <= i,
        0 <= j,
        i + j <= 16,
        exact::stands_for(p[0], 16 * ax + i * (bx - ax) + j * (cx - ax), (s - 4) as nat),
        exact::stands_for(p[1], 16 * ay + i * (by - ay) + j * (cy - ay), (s - 4) as nat),
        (bx - ax) * (cy - ay) != (cx - ax) * (by - ay),
        !cross(between(a, b), between(a, c)).absolute().less(arith::num(NANO)),
    ensures
        weights_at(p, a, b, c) matches Some(w) && exact::stands_for(w[0], 16 - i - j, 145)
            && exact::stands_for(w[1], i, 145) && exact::stands_for(w[2], j, 145),
{
    let r = (s - 4) as nat;
    let (ux, uy, vx, vy) = (bx - ax, by - ay, cx - ax, cy - ay);
    let (px, py) = (i * ux + j * vx, i * uy + j * vy);
    vstd::arithmetic::power2::lemma2_to64();
    lemma_part_way(i, j, ux, vx);
    lemma_part_way(i, j, uy, vy);
    let (x, y, q) = (between(a, b), between(a, c), between(a, p));
    exact::lemma_difference(b[0], bx, a[0], ax, s);
    exact::lemma_difference(b[1], by, a[1], ay, s);
    exact::lemma_difference(c[0], cx, a[0], ax, s);
    exact::lemma_difference(c[1], cy, a[1], ay, s);
    exact::lemma_finer(a[0], ax, s, 4);
    exact::lemma_finer(a[1], ay, s, 4);
    exact::lemma_difference(p[0], 16 * ax + i * ux + j * vx, a[0], ax * 16, r);
    exact::lemma_difference(p[1], 16 * ay + i * uy + j * vy, a[1], ay * 16, r);
    let den = ux * vy - vx * uy;
    lemma_cross_exact(x, y, ux, uy, vx, vy, s, s);
    lemma_cross_exact(q, y, px, py, vx, vy, r, s);
    lemma_cross_exact(x, q, ux, uy, px, py, s, r);
    assert(px * vy - vx * py == i * den) by (nonlinear_arith)
        requires
            px == i * ux + j * vx,
            py == i * uy + j * vy,
            den == ux * vy - vx * uy,
    ;
    assert(ux * py - px * uy == j * den) by (nonlinear_arith)
        requires
            px == i * ux + j * vx,
            py == i * uy + j * vy,
            den == ux * vy - vx * uy,
    ;
    let d = cross(x, y);
    let t = (s + s - 149) as nat;
    let f = (s + r - 149) as nat;
    exact::lemma_quotient(cross(q, y), i, d, den, f, t);
    exact::lemma_quotient(cross(x, q), j, d, den, f, t);
    let (v, w) = (cross(q, y).over(d), cross(x, q).over(d));
    let one = arith::num(ONE);
    exact::lemma_small();
    exact::lemma_finer(one, 1, 149, 4);
    exact::lemma_difference(one, 16, v, i, 145);
    exact::lemma_difference(one.minus(v), 16 - i, w, j, 145);
}

proof fn lemma_part_way(i: int, j: int, u: int, v: int)
    requires
        0 <= i <= 16,
        0 <= j <= 16,
        -32 <= u <= 32,
        -32 <= v <= 32,
    ensures
        -0x400 <= i * u + j * v <= 0x400,
{
    assert(-0x200 <= i * u <= 0x200 && -0x200 <= j * v <= 0x200) by (nonlinear_arith)
        requires
            0 <= i <= 16,
            0 <= j <= 16,
            -32 <= u <= 32,
            -32 <= v <= 32,
    ;
}

/// A point lies in a triangle if and only if none of its weights is below zero.
pub proof fn lemma_inside(w: [Scalar; 3])
    requires
        !w[0].nan(),
        !w[1].nan(),
        !w[2].nan(),
    ensures
        inside(w) <==> w[0].value() >= 0 && w[1].value() >= 0 && w[2].value() >= 0,
{
    exact::lemma_zero_value(arith::num(0));
}

/// The identity leaves a point where it is.
pub proof fn lemma_identity_stays(p: [Scalar; 2])
    requires
        p[0].finite(),
        p[1].finite(),
    ensures
        exact::alike2(image(unit_map(), p), p),
{
    let zero = arith::num(0);
    exact::lemma_one_times(p[0]);
    exact::lemma_one_times(p[1]);
    exact::lemma_times_zero(p[0], zero);
    exact::lemma_times_zero(p[1], zero);
    exact::lemma_plus_zero(p[0], zero.times(p[1]));
    exact::lemma_plus_zero(p[1], zero.times(p[0]));
    let x = p[0].plus(zero.times(p[1]));
    let y = zero.times(p[0]).plus(p[1]);
    exact::lemma_alike_same(x, p[0]);
    exact::lemma_alike_same(y, p[1]);
    exact::lemma_plus_zero(x, zero);
    exact::lemma_plus_zero(y, zero);
}

/// A node that is not turned scales a point and moves it, with Y of the move turned
/// up.
pub proof fn lemma_placed_upright(
    translation: [Scalar; 3],
    scale: [Scalar; 3],
    p: [Scalar; 2],
)
    requires
        scale[0].finite(),
        scale[1].finite(),
        p[0].finite(),
        p[1].finite(),
    ensures
        exact::alike2(
            image(placed(translation, scale, arith::num(0), arith::num(ONE)), p),
            [
                scale[0].times(p[0]).plus(translation[0]),
                scale[1].times(p[1]).plus(translation[1].negated()),
            ],
        ),
{
    let zero = arith::num(0);
    let one = arith::num(ONE);
    exact::lemma_one_times(scale[0]);
    exact::lemma_one_times(scale[1]);
    exact::lemma_times_zero(scale[1], zero.negated());
    exact::lemma_times_zero(scale[0], zero);
    let (b, c) = (zero.negated().times(scale[1]), zero.times(scale[0]));
    exact::lemma_times_zero(p[1], b);
    exact::lemma_times_zero(p[0], c);
    lemma_product_is_number(scale[0], p[0]);
    lemma_product_is_number(scale[1], p[1]);
    let (x, y) = (scale[0].times(p[0]), scale[1].times(p[1]));
    exact::lemma_plus_zero(x, b.times(p[1]));
    exact::lemma_plus_zero(y, c.times(p[0]));
    exact::lemma_plus_alike(x.plus(b.times(p[1])), x, translation[0], translation[0]);
    exact::lemma_plus_alike(
        c.times(p[0]).plus(y),
        y,
        translation[1].negated(),
        translation[1].negated(),
    );
}

/// A node turned by a quarter takes what points right to where up is, and what
/// points up to where left is.
pub proof fn lemma_placed_quarter_turn(translation: [Scalar; 3], scale: [Scalar; 3], p: [Scalar; 2])
    requires
        scale[0].finite(),
        scale[1].finite(),
        p[0].finite(),
        p[1].finite(),
    ensures
        exact::alike2(
            image(placed(translation, scale, arith::num(ONE), arith::num(0)), p),
            [
                scale[1].times(p[1]).negated().plus(translation[0]),
                scale[0].times(p[0]).plus(translation[1].negated()),
            ],
        ),
{
    let zero = arith::num(0);
    let one = arith::num(ONE);
    exact::lemma_one_times(scale[0]);
    exact::lemma_one_times(scale[1]);
    exact::lemma_times_turned(one, scale[1]);
    exact::lemma_times_turned(scale[1], p[1]);
    exact::lemma_times_zero(scale[0], zero);
    exact::lemma_times_zero(scale[1], zero);
    let (a, d) = (zero.times(scale[0]), zero.times(scale[1]));
    exact::lemma_times_zero(p[0], a);
    exact::lemma_times_zero(p[1], d);
    lemma_product_is_number(scale[0], p[0]);
    lemma_product_is_number(scale[1], p[1]);
    let (x, y) = (scale[0].times(p[0]), scale[1].times(p[1]).negated());
    assert(one.negated().times(scale[1]) == scale[1].negated());
    exact::lemma_plus_zero(y, a.times(p[0]));
    exact::lemma_plus_zero(x, d.times(p[1]));
    exact::lemma_plus_alike(a.times(p[0]).plus(y), y, translation[0], translation[0]);
    exact::lemma_plus_alike(
        x.plus(d.times(p[1])),
        x,
        translation[1].negated(),
        translation[1].negated(),
    );
}

/// A map whose entries are the whole numbers `m` (first row, second row, then the
/// translation), with few digits.
pub open spec fn whole_map(a: Aff2, m: Seq<int>, bound: int) -> bool {
    &&& m.len() == 6
    &&& forall|k: int| 0 <= k < 6 ==> -bound <= #[trigger] m[k] <= bound
    &&& exact::stands_for(a.l[0][0], m[0], 149)
    &&& exact::stands_for(a.l[0][1], m[1], 149)
    &&& exact::stands_for(a.l[1][0], m[2], 149)
    &&& exact::stands_for(a.l[1][1], m[3], 149)
    &&& exact::stands_for(a.t[0], m[4], 149)
    &&& exact::stands_for(a.t[1], m[5], 149)
}

/// A sum of two products and a number, in mathematics.
proof fn lemma_dot_exact(
    a: Scalar,
    b: Scalar,
    c: Scalar,
    d: Scalar,
    t: Scalar,
    x: int,
    y: int,
    z: int,
    w: int,
    k: int,
)
    requires
        exact::stands_for(a, x, 149),
        exact::stands_for(b, y, 149),
        exact::stands_for(c, z, 149),
        exact::stands_for(d, w, 149),
        exact::stands_for(t, k, 149),
        -0x800 <= x <= 0x800,
        -0x800 <= y <= 0x800,
        -0x800 <= z <= 0x800,
        -0x800 <= w <= 0x800,
        -0x1000 <= k <= 0x1000,
    ensures
        exact::stands_for(dot(a, b, c, d), x * y + z * w, 149),
        exact::stands_for(dot(a, b, c, d).plus(t), x * y + z * w + k, 149),
{
    assert(-0x40_0000 <= x * y <= 0x40_0000 && -0x40_0000 <= z * w <= 0x40_0000)
        by (nonlinear_arith)
        requires
            -0x800 <= x <= 0x800,
            -0x800 <= y <= 0x800,
            -0x800 <= z <= 0x800,
            -0x800 <= w <= 0x800,
    ;
    exact::lemma_product(a, x, 149, b, y, 149);
    exact::lemma_product(c, z, 149, d, w, 149);
    exact::lemma_sum(a.times(b), x * y, c.times(d), z * w, 149);
    exact::lemma_sum(dot(a, b, c, d), x * y + z * w, t, k, 149);
}

/// A map takes the point (x, y) to its linear part times the point, plus its
/// translation.
pub proof fn lemma_image_exact(a: Aff2, m: Seq<int>, p: [Scalar; 2], x: int, y: int)
    requires
        whole_map(a, m, 0x400),
        exact::stands_for(p[0], x, 149),
        exact::stands_for(p[1], y, 149),
        -0x800 <= x <= 0x800,
        -0x800 <= y <= 0x800,
    ensures
        exact::stands_for(image(a, p)[0], m[0] * x + m[1] * y + m[4], 149),
        exact::stands_for(image(a, p)[1], m[2] * x + m[3] * y + m[5], 149),
{
    lemma_dot_exact(a.l[0][0], p[0], a.l[0][1], p[1], a.t[0], m[0], x, m[1], y, m[4]);
    lemma_dot_exact(a.l[1][0], p[0], a.l[1][1], p[1], a.t[1], m[2], x, m[3], y, m[5]);
}

/// A composed map takes a point where the second map takes it, and then the first.
pub proof fn lemma_composed_follows(
    a: Aff2,
    b: Aff2,
    m: Seq<int>,
    n: Seq<int>,
    p: [Scalar; 2],
    x: int,
    y: int,
)
    requires
        whole_map(a, m, 16),
        whole_map(b, n, 16),
        exact::stands_for(p[0], x, 149),
        exact::stands_for(p[1], y, 149),
        -16 <= x <= 16,
        -16 <= y <= 16,
    ensures
        exact::alike2(image(composed(a, b), p), image(a, image(b, p))),
{
    let c = composed(a, b);
    lemma_image_exact(b, n, p, x, y);
    let q = image(b, p);
    let (qx, qy) = (n[0] * x + n[1] * y + n[4], n[2] * x + n[3] * y + n[5]);
    lemma_small_sum(n[0], x, n[1], y, n[4]);
    lemma_small_sum(n[2], x, n[3], y, n[5]);
    lemma_image_exact(a, m, q, qx, qy);
    lemma_dot_exact(a.l[0][0], b.l[0][0], a.l[0][1], b.l[1][0], a.t[0], m[0], n[0], m[1], n[2], m[4]);
    lemma_dot_exact(a.l[0][0], b.l[0][1], a.l[0][1], b.l[1][1], a.t[0], m[0], n[1], m[1], n[3], m[4]);
    lemma_dot_exact(a.l[1][0], b.l[0][0], a.l[1][1], b.l[1][0], a.t[0], m[2], n[0], m[3], n[2], m[4]);
    lemma_dot_exact(a.l[1][0], b.l[0][1], a.l[1][1], b.l[1][1], a.t[0], m[2], n[1], m[3], n[3], m[4]);
    lemma_dot_exact(a.l[0][0], b.t[0], a.l[0][1], b.t[1], a.t[0], m[0], n[4], m[1], n[5], m[4]);
    lemma_dot_exact(a.l[1][0], b.t[0], a.l[1][1], b.t[1], a.t[1], m[2], n[4], m[3], n[5], m[5]);
    let k = seq![
        m[0] * n[0] + m[1] * n[2],
        m[0] * n[1] + m[1] * n[3],
        m[2] * n[0] + m[3] * n[2],
        m[2] * n[1] + m[3] * n[3],
        m[0] * n[4] + m[1] * n[5] + m[4],
        m[2] * n[4] + m[3] * n[5] + m[5],
    ];
    lemma_small_sum(m[0], n[0], m[1], n[2], 0);
    lemma_small_sum(m[0], n[1], m[1], n[3], 0);
    lemma_small_sum(m[2], n[0], m[3], n[2], 0);
    lemma_small_sum(m[2], n[1], m[3], n[3], 0);
    lemma_small_sum(m[0], n[4], m[1], n[5], m[4]);
    lemma_small_sum(m[2], n[4], m[3], n[5], m[5]);
    assert(whole_map(c, k, 0x400));
    lemma_image_exact(c, k, p, x, y);
    let (ox, oy) = (m[0] * qx + m[1] * qy + m[4], m[2] * qx + m[3] * qy + m[5]);
    lemma_same_sum(m[0], m[1], m[4], n, x, y);
    lemma_same_sum(m[2], m[3], m[5], n, x, y);
    exact::lemma_only_one(image(c, p)[0], image(a, q)[0], ox, 149);
    exact::lemma_only_one(image(c, p)[1], image(a, q)[1], oy, 149);
}

proof fn lemma_small_sum(a: int, x: int, b: int, y: int, t: int)
    requires
        -16 <= a <= 16,
        -16 <= b <= 16,
        -16 <= x <= 16,
        -16 <= y <= 16,
        -16 <= t <= 16,
    ensures
        -0x400 <= a * x + b * y + t <= 0x400,
{
    assert(-0x100 <= a * x <= 0x100 && -0x100 <= b * y <= 0x100) by (nonlinear_arith)
        requires
            -16 <= a <= 16,
            -16 <= b <= 16,
            -16 <= x <= 16,
            -16 <= y <= 16,
    ;
}

proof fn lemma_spread(a: int, p: int, x: int, q: int, y: int, u: int)
    ensures
        a * (p * x + q * y + u) == (a * p) * x + (a * q) * y + a * u,
{
    assert(a * (p * x) == (a * p) * x) by (nonlinear_arith);
    assert(a * (q * y) == (a * q) * y) by (nonlinear_arith);
    let (v, w) = (p * x, q * y);
    assert(a * (v + w + u) == a * v + a * w + a * u) by (nonlinear_arith);
}

proof fn lemma_same_sum(a: int, b: int, t: int, n: Seq<int>, x: int, y: int)
    ensures
        a * (n[0] * x + n[1] * y + n[4]) + b * (n[2] * x + n[3] * y + n[5]) + t == (a * n[0] + b
            * n[2]) * x + (a * n[1] + b * n[3]) * y + (a * n[4] + b * n[5] + t),
{
    let (p, q, r, s, u, v) = (n[0], n[1], n[2], n[3], n[4], n[5]);
    lemma_spread(a, p, x, q, y, u);
    lemma_spread(b, r, x, s, y, v);
    let (g, h) = (a * p, b * r);
    assert(g * x + h * x == (g + h) * x) by (nonlinear_arith);
    let (k, l) = (a * q, b * s);
    assert(k * y + l * y == (k + l) * y) by (nonlinear_arith);
}

/// The inverse of a linear map undoes it, where its determinant `d` is 1 or -1: the
/// entries `k` of the inverse and the entries `m` of the map make the identity.
pub proof fn lemma_inverse_undoes(l: [[Scalar; 2]; 2], m: [[int; 2]; 2], d: int, k: [[int; 2]; 2])
    requires
        exact::stands_for(l[0][0], m[0][0], 149),
        exact::stands_for(l[0][1], m[0][1], 149),
        exact::stands_for(l[1][0], m[1][0], 149),
        exact::stands_for(l[1][1], m[1][1], 149),
        -0x800 <= m[0][0] <= 0x800,
        -0x800 <= m[0][1] <= 0x800,
        -0x800 <= m[1][0] <= 0x800,
        -0x800 <= m[1][1] <= 0x800,
        m[0][0] * m[1][1] - m[0][1] * m[1][0] == d,
        d == 1 || d == -1,
        k[0][0] * m[0][0] + k[0][1] * m[1][0] == 1,
        k[0][0] * m[0][1] + k[0][1] * m[1][1] == 0,
        k[1][0] * m[0][0] + k[1][1] * m[1][0] == 0,
        k[1][0] * m[0][1] + k[1][1] * m[1][1] == 1,
    ensures
        exact::stands_for(inverse_linear(l)[0][0], k[0][0], 149),
        exact::stands_for(inverse_linear(l)[0][1], k[0][1], 149),
        exact::stands_for(inverse_linear(l)[1][0], k[1][0], 149),
        exact::stands_for(inverse_linear(l)[1][1], k[1][1], 149),
{
    let (a, b, c, e) = (m[0][0], m[0][1], m[1][0], m[1][1]);
    assert(-0x40_0000 <= a * e <= 0x40_0000 && -0x40_0000 <= b * c <= 0x40_0000)
        by (nonlinear_arith)
        requires
            -0x800 <= a <= 0x800,
            -0x800 <= b <= 0x800,
            -0x800 <= c <= 0x800,
            -0x800 <= e <= 0x800,
    ;
    exact::lemma_product(l[0][0], a, 149, l[1][1], e, 149);
    exact::lemma_product(l[0][1], b, 149, l[1][0], c, 149);
    exact::lemma_difference(
        l[0][0].times(l[1][1]),
        a * e,
        l[0][1].times(l[1][0]),
        b * c,
        149,
    );
    let det = l[0][0].times(l[1][1]).minus(l[0][1].times(l[1][0]));
    let one = arith::num(ONE);
    exact::lemma_small();
    exact::lemma_one();
    exact::lemma_sign(det, d, 149);
    assert(det.absolute().value() == crate::scalar::unit());
    crate::scalar::lemma_value_order(arith::num(NANO), one);
    assert(d * d == 1) by (nonlinear_arith)
        requires
            d == 1 || d == -1,
    ;
    exact::lemma_quotient(one, d, det, d, 149, 149);
    let inv = one.over(det);
    exact::lemma_opposite(l[0][1], b, 149);
    exact::lemma_opposite(l[1][0], c, 149);
    assert(-0x800 <= e * d <= 0x800 && -0x800 <= (-b) * d <= 0x800 && -0x800 <= (-c) * d <= 0x800
        && -0x800 <= a * d <= 0x800) by (nonlinear_arith)
        requires
            d == 1 || d == -1,
            -0x800 <= a <= 0x800,
            -0x800 <= b <= 0x800,
            -0x800 <= c <= 0x800,
            -0x800 <= e <= 0x800,
    ;
    exact::lemma_product(l[1][1], e, 149, inv, d, 149);
    exact::lemma_product(l[0][1].negated(), -b, 149, inv, d, 149);
    exact::lemma_product(l[1][0].negated(), -c, 149, inv, d, 149);
    exact::lemma_product(l[0][0], a, 149, inv, d, 149);
    lemma_row(a, b, c, e, d, k[0][0], k[0][1], 1, 0);
    lemma_row(a, b, c, e, d, k[1][0], k[1][1], 0, 1);
}

/// A row of the inverse, by elimination.
proof fn lemma_row(a: int, b: int, c: int, e: int, d: int, p: int, q: int, r: int, s: int)
    requires
        a * e - b * c == d,
        d == 1 || d == -1,
        p * a + q * c == r,
        p * b + q * e == s,
    ensures
        p == (r * e - s * c) * d,
        q == (s * a - r * b) * d,
{
    assert(p * (a * e - b * c) == r * e - s * c) by (nonlinear_arith)
        requires
            p * a + q * c == r,
            p * b + q * e == s,
    ;
    assert(q * (a * e - b * c) == s * a - r * b) by (nonlinear_arith)
        requires
            p * a + q * c == r,
            p * b + q * e == s,
    ;
}

} // verus!
