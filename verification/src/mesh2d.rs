//! Meshes and materials of parts, and how masks clip them.

use crate::arith;
use crate::exact;
use crate::blend::BlendMode;
use crate::composite::ComposeMode;
use crate::composite_bbox;
use crate::composite_bbox::InxCompositeBbox;
use crate::composite_frame;
use crate::model::{InxDeform, InxMask, InxMaskMode, InxMaterial, InxMesh, InxNodeType};
use crate::scalar::{Scalar, ONE};
use vstd::prelude::*;

verus! {

/// 0.95, the share of a part's area above which clipping is taken for noise.
pub const NEARLY_ALL: u32 = 0x3f73_3333;

/// Uniform values of a part's material.
#[derive(Debug, Clone, Copy)]
pub struct InxPartMaterialUniform {
    /// RGB tint.
    pub tint: [Scalar; 3],
    /// Opacity.
    pub opacity: Scalar,
    /// Screen tint.
    pub screen_tint: [Scalar; 3],
    /// 1 for the quad of a composite, whose texture is premultiplied already.
    pub composite: u32,
    /// Multiplier for the emissive texture; 0 if there is none.
    pub emissive_strength: Scalar,
}

/// Specialization key: one pipeline per blend mode.
#[derive(Debug, Clone, Copy, PartialEq, Eq, Structural, Hash)]
pub struct InxPartMaterialKey {
    pub blend_mode: BlendMode,
}

pub open spec fn times3(a: [Scalar; 3], b: [Scalar; 3]) -> [Scalar; 3] {
    [a[0].times(b[0]), a[1].times(b[1]), a[2].times(b[2])]
}

/// Screen blending: `1 - (1 - a)(1 - b)`.
pub open spec fn screened(a: Scalar, b: Scalar) -> Scalar {
    let one = arith::num(ONE);
    one.minus(one.minus(a).times(one.minus(b)))
}

pub open spec fn screened3(a: [Scalar; 3], b: [Scalar; 3]) -> [Scalar; 3] {
    [screened(a[0], b[0]), screened(a[1], b[1]), screened(a[2], b[2])]
}

/// The emissive strength of a part; none without a texture.
pub open spec fn emission(mat: InxMaterial) -> Scalar {
    if mat.texture_emissive is Some {
        mat.emissive_strength
    } else {
        arith::num(0)
    }
}

/// The values of a part's own material.
pub open spec fn own_values(mat: InxMaterial) -> InxPartMaterialUniform {
    InxPartMaterialUniform {
        tint: mat.tint,
        opacity: mat.opacity,
        screen_tint: mat.screen_tint,
        composite: 0,
        emissive_strength: emission(mat),
    }
}

/// The values of a part's material with those of its group folded in.
pub open spec fn grouped_values(mat: InxMaterial, g: InxMaterial) -> InxPartMaterialUniform {
    InxPartMaterialUniform {
        tint: times3(mat.tint, g.tint),
        opacity: mat.opacity.times(g.opacity),
        screen_tint: screened3(mat.screen_tint, g.screen_tint),
        composite: 0,
        emissive_strength: emission(mat),
    }
}

fn mul3(a: &[Scalar; 3], b: &[Scalar; 3]) -> (r: [Scalar; 3])
    ensures
        r == times3(*a, *b),
{
    [a[0].mul(b[0]), a[1].mul(b[1]), a[2].mul(b[2])]
}

fn screen(a: Scalar, b: Scalar) -> (r: Scalar)
    ensures
        r == screened(a, b),
{
    let one = Scalar { bits: ONE };
    one.sub(one.sub(a).mul(one.sub(b)))
}

fn screen3(a: &[Scalar; 3], b: &[Scalar; 3]) -> (r: [Scalar; 3])
    ensures
        r == screened3(*a, *b),
{
    [screen(a[0], b[0]), screen(a[1], b[1]), screen(a[2], b[2])]
}

/// The emissive strength of a part. The stand-in for a missing texture is white,
/// so without a texture there is none.
pub fn part_emissive_strength(mat: &InxMaterial) -> (r: Scalar)
    ensures
        r == emission(*mat),
{
    if mat.texture_emissive.is_some() {
        mat.emissive_strength
    } else {
        Scalar { bits: 0 }
    }
}

/// The material of the group around a part, where its values are folded into
/// each part.
pub fn per_child_blend_group<'a>(group: Option<(&'a InxMaterial, ComposeMode)>) -> (r: Option<
    &'a InxMaterial,
>)
    ensures
        r == (match group {
            Some((mat, mode)) => if mode == ComposeMode::PerChildBlend {
                Some(mat)
            } else {
                None
            },
            None => None,
        }),
{
    match group {
        Some((mat, ComposeMode::PerChildBlend)) => Some(mat),
        _ => None,
    }
}

/// The values and the blend mode that a part is drawn with.
pub fn part_material_values(mat: &InxMaterial, group: Option<&InxMaterial>) -> (r: (
    InxPartMaterialUniform,
    BlendMode,
))
    ensures
        r.0 == (match group {
            Some(g) => grouped_values(*mat, *g),
            None => own_values(*mat),
        }),
        r.1 == (match group {
            Some(g) => g.blend_mode,
            None => mat.blend_mode,
        }),
{
    match group {
        Some(g) => (
            InxPartMaterialUniform {
                tint: mul3(&mat.tint, &g.tint),
                opacity: mat.opacity.mul(g.opacity),
                screen_tint: screen3(&mat.screen_tint, &g.screen_tint),
                composite: 0,
                emissive_strength: part_emissive_strength(mat),
            },
            g.blend_mode,
        ),
        None => (
            InxPartMaterialUniform {
                tint: mat.tint,
                opacity: mat.opacity,
                screen_tint: mat.screen_tint,
                composite: 0,
                emissive_strength: part_emissive_strength(mat),
            },
            mat.blend_mode,
        ),
    }
}

/// The new values of a part's material: none unless the part or the group around
/// it has changed.
pub fn sync_part_materials(
    mat: &InxMaterial,
    part_changed: bool,
    group: Option<(&InxMaterial, ComposeMode)>,
    group_changed: bool,
) -> (r: Option<InxPartMaterialUniform>)
    ensures
        r == (if part_changed || group_changed {
            Some(
                match group {
                    Some((g, ComposeMode::PerChildBlend)) => grouped_values(*mat, *g),
                    _ => own_values(*mat),
                },
            )
        } else {
            None
        }),
{
    if part_changed || group_changed {
        Some(part_material_values(mat, per_child_blend_group(group)).0)
    } else {
        None
    }
}

/// The values that the quad of a composite is drawn with.
pub fn composite_quad_values() -> (r: InxPartMaterialUniform)
    ensures
        r == (InxPartMaterialUniform {
            tint: [arith::num(ONE), arith::num(ONE), arith::num(ONE)],
            opacity: arith::num(ONE),
            screen_tint: [arith::num(0), arith::num(0), arith::num(0)],
            composite: 1,
            emissive_strength: arith::num(0),
        }),
{
    let one = Scalar { bits: ONE };
    let zero = Scalar { bits: 0 };
    InxPartMaterialUniform {
        tint: [one, one, one],
        opacity: one,
        screen_tint: [zero, zero, zero],
        composite: 1,
        emissive_strength: zero,
    }
}

/// Where the quad of a composite lies: its center and size. None where it is
/// hidden, for want of a render target or of something to draw.
pub fn sync_composite_quads(bbox: &InxCompositeBbox) -> (r: Option<([Scalar; 2], [Scalar; 2])>)
    ensures
        r == (if bbox.rt is Some && composite_frame::drawable(bbox.rect) {
            let half = arith::num(arith::HALF);
            Some(
                (
                    [
                        half.times(bbox.rect.min[0].plus(bbox.rect.max[0])),
                        half.times(bbox.rect.min[1].plus(bbox.rect.max[1])),
                    ],
                    composite_bbox::size_of_rect(bbox.rect),
                ),
            )
        } else {
            None
        }),
        r matches Some((center, size)) ==> center == composite_bbox::center_of(bbox.rect),
{
    let zero = Scalar { bits: 0 };
    let half = Scalar { bits: arith::HALF };
    let size = bbox.rect.size();
    if bbox.rt.is_none() || size[0].le(zero) || size[1].le(zero) {
        return None;
    }
    Some(
        (
            [
                half.mul(bbox.rect.min[0].add(bbox.rect.max[0])),
                half.mul(bbox.rect.min[1].add(bbox.rect.max[1])),
            ],
            size,
        ),
    )
}

/// The offset of a vertex, if it has one.
pub open spec fn offset_of(deform: Option<InxDeform>, i: int) -> [Scalar; 2] {
    match deform {
        Some(d) => if i < d.offsets@.len() {
            d.offsets@[i]
        } else {
            [arith::num(0), arith::num(0)]
        },
        None => [arith::num(0), arith::num(0)],
    }
}

/// A vertex of a part where its deform has put it, relative to the origin of the
/// mesh.
pub open spec fn local_vertex(mesh: InxMesh, deform: Option<InxDeform>, i: int) -> [Scalar; 2] {
    let v = mesh.vertex_buffer@[i];
    let d = offset_of(deform, i);
    [v[0].minus(mesh.origin[0]).plus(d[0]), v[1].minus(mesh.origin[1]).plus(d[1])]
}

pub open spec fn local_vertices(mesh: InxMesh, deform: Option<InxDeform>) -> Seq<[Scalar; 2]> {
    Seq::new(mesh.vertex_buffer@.len(), |i: int| local_vertex(mesh, deform, i))
}

pub open spec fn deform_value(deform: Option<&InxDeform>) -> Option<InxDeform> {
    match deform {
        Some(d) => Some(*d),
        None => None,
    }
}

fn vertex_at(mesh: &InxMesh, deform: Option<&InxDeform>, i: usize) -> (r: [Scalar; 2])
    requires
        i < mesh.vertex_buffer@.len(),
    ensures
        r == local_vertex(*mesh, deform_value(deform), i as int),
{
    let d = match deform {
        Some(d) => if i < d.offsets.len() {
            d.offsets[i]
        } else {
            [Scalar { bits: 0 }, Scalar { bits: 0 }]
        },
        None => [Scalar { bits: 0 }, Scalar { bits: 0 }],
    };
    let v = mesh.vertex_buffer[i];
    [v[0].sub(mesh.origin[0]).add(d[0]), v[1].sub(mesh.origin[1]).add(d[1])]
}

/// The vertices of a mesh where a deform has put them.
pub fn mesh_vertices(mesh: &InxMesh, deform: Option<&InxDeform>) -> (r: Vec<[Scalar; 2]>)
    ensures
        r@ == local_vertices(*mesh, deform_value(deform)),
{
    let ghost want = local_vertices(*mesh, deform_value(deform));
    let mut r: Vec<[Scalar; 2]> = Vec::new();
    let mut i: usize = 0;
    while i < mesh.vertex_buffer.len()
        invariant
            want == local_vertices(*mesh, deform_value(deform)),
            i <= mesh.vertex_buffer@.len(),
            r@ == want.take(i as int),
        decreases mesh.vertex_buffer@.len() - i,
    {
        r.push(vertex_at(mesh, deform, i));
        i = i + 1;
        assert(r@ =~= want.take(i as int));
    }
    assert(r@ =~= want);
    r
}

/// The vertices of a part where its deform has put them, if it has a mesh.
pub fn deformed_local(mat: &InxMaterial, deform: Option<&InxDeform>) -> (r: Option<
    Vec<[Scalar; 2]>,
>)
    ensures
        r is Some <==> mat.mesh is Some,
        r matches Some(v) ==> v@ == local_vertices(mat.mesh->0, deform_value(deform)),
{
    match &mat.mesh {
        Some(mesh) => Some(mesh_vertices(mesh, deform)),
        None => None,
    }
}

/// A point in the plane of the puppet.
pub open spec fn lifted(p: [Scalar; 2]) -> [Scalar; 3] {
    [p[0], p[1], arith::num(0)]
}

pub open spec fn all_lifted(ps: Seq<[Scalar; 2]>) -> Seq<[Scalar; 3]> {
    Seq::new(ps.len(), |i: int| lifted(ps[i]))
}

/// Points in the plane of the puppet.
pub fn lift(ps: &Vec<[Scalar; 2]>) -> (r: Vec<[Scalar; 3]>)
    ensures
        r@ == all_lifted(ps@),
{
    let mut r: Vec<[Scalar; 3]> = Vec::new();
    let mut i: usize = 0;
    while i < ps.len()
        invariant
            i <= ps@.len(),
            r@ == all_lifted(ps@).take(i as int),
        decreases ps@.len() - i,
    {
        let p = ps[i];
        r.push([p[0], p[1], Scalar { bits: 0 }]);
        i = i + 1;
        assert(r@ =~= all_lifted(ps@).take(i as int));
    }
    assert(r@ =~= all_lifted(ps@));
    r
}

/// The positions of a part's mesh, if it has one.
pub fn part_positions(mat: &InxMaterial, deform: Option<&InxDeform>) -> (r: Option<
    Vec<[Scalar; 3]>,
>)
    ensures
        r is Some <==> mat.mesh is Some,
        r matches Some(v) ==> v@ == all_lifted(
            local_vertices(mat.mesh->0, deform_value(deform)),
        ),
{
    match deformed_local(mat, deform) {
        Some(v) => Some(lift(&v)),
        None => None,
    }
}

/// The positions to write once the deform of a part has changed: none without a
/// mesh, and none for a masked part, whose mesh is the clipped one.
pub fn sync_part_deforms(mat: &InxMaterial, deform: &InxDeform, masked: bool) -> (r: Option<
    Vec<[Scalar; 3]>,
>)
    ensures
        r is Some <==> mat.mesh is Some && !masked,
        r matches Some(v) ==> v@ == all_lifted(
            local_vertices(mat.mesh->0, deform_value(Some(deform))),
        ),
{
    if masked {
        None
    } else {
        part_positions(mat, Some(deform))
    }
}

/// Whether a node gets a mesh: it is a part, and has one.
pub fn attach_part_meshes(node_type: InxNodeType, mat: &InxMaterial) -> (r: bool)
    ensures
        r == (node_type == InxNodeType::Part && mat.mesh is Some),
{
    node_type == InxNodeType::Part && mat.mesh.is_some()
}

/// A node that can be a mask: where it is, which puppet it is in, its UUID in that
/// puppet, and whether it has a mesh.
#[derive(Debug, Clone, Copy, PartialEq, Eq, Structural)]
pub struct MaskNode {
    pub entity: u64,
    pub root: u64,
    pub uuid: u32,
    pub has_mesh: bool,
}

/// The last node of a puppet with a UUID.
pub open spec fn node_named(nodes: Seq<MaskNode>, root: u64, uuid: u32, k: nat) -> Option<MaskNode>
    decreases k,
{
    if k == 0 {
        None
    } else if nodes[k - 1].root == root && nodes[k - 1].uuid == uuid {
        Some(nodes[k - 1])
    } else {
        node_named(nodes, root, uuid, (k - 1) as nat)
    }
}

/// The nodes that the first `k` masks name, where they have a mesh.
pub open spec fn mask_sources(
    masks: Seq<InxMask>,
    nodes: Seq<MaskNode>,
    root: u64,
    k: nat,
) -> Seq<(u64, InxMaskMode)>
    decreases k,
{
    if k == 0 {
        Seq::empty()
    } else {
        let before = mask_sources(masks, nodes, root, (k - 1) as nat);
        match node_named(nodes, root, masks[k - 1].source_uuid, nodes.len()) {
            Some(n) => if n.has_mesh {
                before.push((n.entity, masks[k - 1].mode))
            } else {
                before
            },
            None => before,
        }
    }
}

fn find_node(nodes: &Vec<MaskNode>, root: u64, uuid: u32) -> (r: Option<MaskNode>)
    ensures
        r == node_named(nodes@, root, uuid, nodes@.len()),
{
    let mut k: usize = nodes.len();
    while k > 0
        invariant
            k <= nodes@.len(),
            node_named(nodes@, root, uuid, nodes@.len()) == node_named(
                nodes@,
                root,
                uuid,
                k as nat,
            ),
        decreases k,
    {
        let n = nodes[k - 1];
        if n.root == root && n.uuid == uuid {
            return Some(n);
        }
        k = k - 1;
    }
    None
}

/// Finds the nodes that mask a part. UUIDs count within a puppet only. A part
/// without a mesh is not masked.
pub fn link_part_masks(mat: &InxMaterial, root: u64, nodes: &Vec<MaskNode>) -> (r: Vec<
    (u64, InxMaskMode),
>)
    ensures
        r@ == (if mat.mesh is Some {
            mask_sources(mat.masks@, nodes@, root, mat.masks@.len())
        } else {
            Seq::empty()
        }),
{
    let mut r: Vec<(u64, InxMaskMode)> = Vec::new();
    if mat.mesh.is_none() {
        return r;
    }
    let mut k: usize = 0;
    while k < mat.masks.len()
        invariant
            k <= mat.masks@.len(),
            r@ == mask_sources(mat.masks@, nodes@, root, k as nat),
        decreases mat.masks@.len() - k,
    {
        let mask = mat.masks[k];
        if let Some(n) = find_node(nodes, root, mask.source_uuid) {
            if n.has_mesh {
                r.push((n.entity, mask.mode));
            }
        }
        k = k + 1;
    }
    r
}

/// A mask on one puppet never takes a node of another.
pub proof fn lemma_masks_stay_in_puppet(nodes: Seq<MaskNode>, root: u64, uuid: u32, k: nat)
    requires
        k <= nodes.len(),
    ensures
        node_named(nodes, root, uuid, k) matches Some(n) ==> n.root == root && n.uuid == uuid,
    decreases k,
{
    if k > 0 {
        lemma_masks_stay_in_puppet(nodes, root, uuid, (k - 1) as nat);
    }
}

/// Whether a group gets a quad: it is drawn into a render target and has none yet.
pub fn attach_composite_quads(group: u64, mode: ComposeMode, quads: &Vec<u64>) -> (r: bool)
    ensures
        r == (mode == ComposeMode::NeedsRt && !quads@.contains(group)),
{
    if mode != ComposeMode::NeedsRt {
        return false;
    }
    let mut i: usize = 0;
    while i < quads.len()
        invariant
            i <= quads@.len(),
            forall|j: int| 0 <= j < i ==> quads@[j] != group,
        decreases quads@.len() - i,
    {
        if quads[i] == group {
            return false;
        }
        i = i + 1;
    }
    true
}

/// A vertex is drawn where it lies from the origin of its mesh, plus its offset: at
/// `v - o + d` in each component, with few digits. A vertex without an offset is not
/// moved.
pub proof fn lemma_vertex_is_moved(
    mesh: InxMesh,
    deform: Option<InxDeform>,
    i: int,
    j: int,
    v: int,
    o: int,
    d: int,
    s: nat,
)
    requires
        0 <= i < mesh.vertex_buffer@.len(),
        0 <= j < 2,
        exact::stands_for(mesh.vertex_buffer@[i][j], v, s),
        exact::stands_for(mesh.origin[j], o, s),
        match deform {
            Some(f) => if i < f.offsets@.len() {
                exact::stands_for(f.offsets@[i][j], d, s)
            } else {
                d == 0
            },
            None => d == 0,
        },
        -0x10_0000 <= v <= 0x10_0000,
        -0x10_0000 <= o <= 0x10_0000,
        -0x10_0000 <= d <= 0x10_0000,
        s <= 252,
    ensures
        local_vertices(mesh, deform).len() == mesh.vertex_buffer@.len(),
        exact::stands_for(local_vertices(mesh, deform)[i][j], v - o + d, s),
{
    let x = mesh.vertex_buffer@[i][j];
    let y = mesh.origin[j];
    let z = offset_of(deform, i)[j];
    exact::lemma_zero_value(arith::num(0));
    assert(exact::stands_for(arith::num(0), 0, s));
    assert(exact::stands_for(z, d, s));
    exact::lemma_difference(x, v, y, o, s);
    exact::lemma_sum(x.minus(y), v - o, z, d, s);
    assert(local_vertices(mesh, deform)[i] == local_vertex(mesh, deform, i));
}

/// A group that does not change a part leaves its values: white tint, full opacity and
/// black screen tint.
pub proof fn lemma_plain_group_changes_nothing(mat: InxMaterial, g: InxMaterial, j: int)
    requires
        0 <= j < 3,
        g.opacity == arith::num(ONE),
        g.tint[j] == arith::num(ONE),
        g.screen_tint[j].mag() == 0,
        mat.opacity.finite(),
        mat.tint[j].finite(),
        mat.screen_tint[j].finite(),
        crate::grid_interpolation::meets(arith::num(ONE), mat.screen_tint[j]),
    ensures
        grouped_values(mat, g).opacity == own_values(mat).opacity,
        grouped_values(mat, g).tint[j] == own_values(mat).tint[j],
        exact::alike(grouped_values(mat, g).screen_tint[j], own_values(mat).screen_tint[j]),
        grouped_values(mat, g).emissive_strength == own_values(mat).emissive_strength,
{
    let one = arith::num(ONE);
    let a = mat.screen_tint[j];
    exact::lemma_one_times(mat.opacity);
    exact::lemma_one_times(mat.tint[j]);
    exact::lemma_plus_zero(one, g.screen_tint[j]);
    assert(one.minus(g.screen_tint[j]) == one);
    let d = one.minus(a);
    exact::lemma_minus_turned(a, one);
    exact::lemma_minus_turned(one, a);
    let e = a.minus(one);
    exact::lemma_alike_same(d, e.negated());
    exact::lemma_one_times(d);
    assert(screened(a, g.screen_tint[j]) == one.minus(d));
    exact::lemma_minus_alike(one, one, d, e.negated());
    crate::scalar::lemma_negated(e);
}

/// A part in a group has the product of both opacities and tints, and of the screen
/// tints what is left of the dark by both. The numbers are sixteenths: `p` and `q` are
/// the opacities, `a` and `b` the tints, `c` and `d` the screen tints.
pub proof fn lemma_group_is_folded_in(
    mat: InxMaterial,
    g: InxMaterial,
    j: int,
    p: int,
    q: int,
    a: int,
    b: int,
    c: int,
    d: int,
)
    requires
        0 <= j < 3,
        exact::stands_for(mat.opacity, p, 145),
        exact::stands_for(g.opacity, q, 145),
        exact::stands_for(mat.tint[j], a, 145),
        exact::stands_for(g.tint[j], b, 145),
        exact::stands_for(mat.screen_tint[j], c, 145),
        exact::stands_for(g.screen_tint[j], d, 145),
        0 <= p <= 16,
        0 <= q <= 16,
        0 <= a <= 16,
        0 <= b <= 16,
        0 <= c <= 16,
        0 <= d <= 16,
    ensures
        ({
            let r = grouped_values(mat, g);
            &&& exact::stands_for(r.opacity, p * q, 141)
            &&& exact::stands_for(r.tint[j], a * b, 141)
            &&& exact::stands_for(r.screen_tint[j], 256 - (16 - c) * (16 - d), 141)
        }),
{
    let one = arith::num(ONE);
    vstd::arithmetic::power2::lemma2_to64();
    exact::lemma_small();
    let (m, n) = (16 - c, 16 - d);
    assert(0 <= p * q <= 256 && 0 <= a * b <= 256 && 0 <= m * n <= 256) by (nonlinear_arith)
        requires
            0 <= p <= 16,
            0 <= q <= 16,
            0 <= a <= 16,
            0 <= b <= 16,
            0 <= m <= 16,
            0 <= n <= 16,
    ;
    exact::lemma_product(mat.opacity, p, 145, g.opacity, q, 145);
    exact::lemma_product(mat.tint[j], a, 145, g.tint[j], b, 145);
    exact::lemma_finer(one, 1, 149, 4);
    exact::lemma_finer(one, 1, 149, 8);
    exact::lemma_difference(one, 16, mat.screen_tint[j], c, 145);
    exact::lemma_difference(one, 16, g.screen_tint[j], d, 145);
    let (x, y) = (one.minus(mat.screen_tint[j]), one.minus(g.screen_tint[j]));
    exact::lemma_product(x, m, 145, y, n, 145);
    exact::lemma_difference(one, 256, x.times(y), m * n, 141);
}

} // verus!
