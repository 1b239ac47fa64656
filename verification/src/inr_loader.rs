//! From an INR document to a puppet.
//!
//! The flat node list and the references by index let a puppet be built without
//! decoding images and without lookups by UUID.

use crate::arith;
use crate::blend::BlendMode;
use crate::id_map::NameMap;
use crate::inr;
use crate::inr::{
    InrAnimation, InrBinding, InrBindingKind, InrDoc, InrError, InrLane, InrMask, InrMesh, InrModel,
    InrNode, InrParam,
};
use crate::inr_names::same_text;
use crate::inr_nodes;
use crate::model::{
    InxAnimation, InxAnimationLane, InxBinding, InxBindingValues, InxFlatDeform, InxFlatTransform,
    InxInterpolation, InxKeyframe, InxMask, InxMaskMode, InxMergeMode, InxMesh, InxMeta, InxNode,
    InxNodeType, InxParam, InxParamName, InxPhysics, InxPuppet, InxTexture,
};
use crate::scalar::Scalar;
use vstd::prelude::*;

verus! {

/// The blend mode that a name stands for.
pub open spec fn blend_named(s: Seq<char>) -> BlendMode {
    if s == "multiply"@ {
        BlendMode::Multiply
    } else if s == "screen"@ {
        BlendMode::Screen
    } else if s == "overlay"@ {
        BlendMode::Overlay
    } else if s == "darken"@ {
        BlendMode::Darken
    } else if s == "lighten"@ {
        BlendMode::Lighten
    } else if s == "color_dodge"@ {
        BlendMode::ColorDodge
    } else if s == "linear_dodge"@ {
        BlendMode::LinearDodge
    } else if s == "add"@ {
        BlendMode::Add
    } else if s == "color_burn"@ {
        BlendMode::ColorBurn
    } else if s == "hard_light"@ {
        BlendMode::HardLight
    } else if s == "soft_light"@ {
        BlendMode::SoftLight
    } else if s == "subtract"@ {
        BlendMode::Subtract
    } else if s == "difference"@ {
        BlendMode::Difference
    } else if s == "exclusion"@ {
        BlendMode::Exclusion
    } else if s == "inverse"@ {
        BlendMode::Inverse
    } else if s == "destination_in"@ {
        BlendMode::DestinationIn
    } else if s == "clip_to_lower"@ {
        BlendMode::ClipToLower
    } else if s == "slice_from_lower"@ {
        BlendMode::SliceFromLower
    } else {
        BlendMode::Normal
    }
}

/// Reads a name; an unknown one gives `Normal`.
pub fn blend_mode(s: &str) -> (r: BlendMode)
    ensures
        r == blend_named(s@),
{
    if same_text(s, "multiply") {
        BlendMode::Multiply
    } else if same_text(s, "screen") {
        BlendMode::Screen
    } else if same_text(s, "overlay") {
        BlendMode::Overlay
    } else if same_text(s, "darken") {
        BlendMode::Darken
    } else if same_text(s, "lighten") {
        BlendMode::Lighten
    } else if same_text(s, "color_dodge") {
        BlendMode::ColorDodge
    } else if same_text(s, "linear_dodge") {
        BlendMode::LinearDodge
    } else if same_text(s, "add") {
        BlendMode::Add
    } else if same_text(s, "color_burn") {
        BlendMode::ColorBurn
    } else if same_text(s, "hard_light") {
        BlendMode::HardLight
    } else if same_text(s, "soft_light") {
        BlendMode::SoftLight
    } else if same_text(s, "subtract") {
        BlendMode::Subtract
    } else if same_text(s, "difference") {
        BlendMode::Difference
    } else if same_text(s, "exclusion") {
        BlendMode::Exclusion
    } else if same_text(s, "inverse") {
        BlendMode::Inverse
    } else if same_text(s, "destination_in") {
        BlendMode::DestinationIn
    } else if same_text(s, "clip_to_lower") {
        BlendMode::ClipToLower
    } else if same_text(s, "slice_from_lower") {
        BlendMode::SliceFromLower
    } else {
        BlendMode::Normal
    }
}

/// The merge mode that a name stands for.
pub open spec fn merge_named(s: Seq<char>) -> InxMergeMode {
    if s == "multiplicative"@ {
        InxMergeMode::Multiply
    } else if s == "override"@ {
        InxMergeMode::Override
    } else if s == "forced"@ {
        InxMergeMode::Forced
    } else {
        InxMergeMode::Additive
    }
}

/// Reads a name; an unknown one gives `Additive`.
pub fn merge_mode(s: &str) -> (r: InxMergeMode)
    ensures
        r == merge_named(s@),
{
    if same_text(s, "multiplicative") {
        InxMergeMode::Multiply
    } else if same_text(s, "override") {
        InxMergeMode::Override
    } else if same_text(s, "forced") {
        InxMergeMode::Forced
    } else {
        InxMergeMode::Additive
    }
}

/// The interpolation that a name stands for.
pub open spec fn interpolation_named(s: Seq<char>) -> InxInterpolation {
    if s == "stepped"@ || s == "nearest"@ {
        InxInterpolation::Stepped
    } else if s == "cubic"@ {
        InxInterpolation::Cubic
    } else {
        InxInterpolation::Linear
    }
}

/// Reads a name; an unknown one gives `Linear`.
pub fn interpolation(s: &str) -> (r: InxInterpolation)
    ensures
        r == interpolation_named(s@),
{
    if same_text(s, "stepped") || same_text(s, "nearest") {
        InxInterpolation::Stepped
    } else if same_text(s, "cubic") {
        InxInterpolation::Cubic
    } else {
        InxInterpolation::Linear
    }
}

/// The node field that a name stands for.
pub open spec fn field_named(s: Seq<char>) -> InxParamName {
    if s == "transform.t.x"@ {
        InxParamName::TransformTX
    } else if s == "transform.t.y"@ {
        InxParamName::TransformTY
    } else if s == "transform.t.z"@ {
        InxParamName::TransformTZ
    } else if s == "transform.s.x"@ {
        InxParamName::TransformSX
    } else if s == "transform.s.y"@ {
        InxParamName::TransformSY
    } else if s == "transform.r.x"@ {
        InxParamName::TransformRX
    } else if s == "transform.r.y"@ {
        InxParamName::TransformRY
    } else if s == "transform.r.z"@ {
        InxParamName::TransformRZ
    } else if s == "deform"@ {
        InxParamName::Deform
    } else if s == "opacity"@ {
        InxParamName::Opacity
    } else {
        InxParamName::Other
    }
}

/// Reads a name; an unknown one gives `Other`.
pub fn param_name(s: &str) -> (r: InxParamName)
    ensures
        r == field_named(s@),
{
    if same_text(s, "transform.t.x") {
        InxParamName::TransformTX
    } else if same_text(s, "transform.t.y") {
        InxParamName::TransformTY
    } else if same_text(s, "transform.t.z") {
        InxParamName::TransformTZ
    } else if same_text(s, "transform.s.x") {
        InxParamName::TransformSX
    } else if same_text(s, "transform.s.y") {
        InxParamName::TransformSY
    } else if same_text(s, "transform.r.x") {
        InxParamName::TransformRX
    } else if same_text(s, "transform.r.y") {
        InxParamName::TransformRY
    } else if same_text(s, "transform.r.z") {
        InxParamName::TransformRZ
    } else if same_text(s, "deform") {
        InxParamName::Deform
    } else if same_text(s, "opacity") {
        InxParamName::Opacity
    } else {
        InxParamName::Other
    }
}

/// The node type that a name stands for.
pub open spec fn node_type_named(s: Seq<char>) -> InxNodeType {
    if s == "part"@ {
        InxNodeType::Part
    } else if s == "composite"@ {
        InxNodeType::Composite
    } else if s == "mask"@ {
        InxNodeType::Mask
    } else if s == "meshgroup"@ {
        InxNodeType::MeshGroup
    } else if s == "camera"@ {
        InxNodeType::Camera
    } else if s == "simplephysics"@ {
        InxNodeType::SimplePhysics
    } else {
        InxNodeType::Generic
    }
}

/// Reads a name; an unknown one gives `Generic`.
pub fn node_type(s: &str) -> (r: InxNodeType)
    ensures
        r == node_type_named(s@),
{
    if same_text(s, "part") {
        InxNodeType::Part
    } else if same_text(s, "composite") {
        InxNodeType::Composite
    } else if same_text(s, "mask") {
        InxNodeType::Mask
    } else if same_text(s, "meshgroup") {
        InxNodeType::MeshGroup
    } else if same_text(s, "camera") {
        InxNodeType::Camera
    } else if same_text(s, "simplephysics") {
        InxNodeType::SimplePhysics
    } else {
        InxNodeType::Generic
    }
}

/// The image of a texture index: its position in the texture list, if it is
/// there.
pub open spec fn image_at(count: int, index: int) -> Option<u64> {
    if 0 <= index < count {
        Some(index as u64)
    } else {
        None
    }
}

pub fn tex_handle(count: usize, index: i32) -> (r: Option<u64>)
    ensures
        r == image_at(count as int, index as int),
{
    if index >= 0 && (index as usize) < count {
        Some(index as u64)
    } else {
        None
    }
}

/// How many vertices a mesh has: as many as it says, as far as there are
/// positions and texture coordinates.
pub open spec fn vertex_total(m: InrMesh, positions: int, uvs: int) -> int {
    let n = if positions / 2 < m.vertex_count {
        positions / 2
    } else {
        m.vertex_count as int
    };
    if uvs / 2 < n {
        uvs / 2
    } else {
        n
    }
}

/// A mesh, from the numbers of its views. Puppet space has Y down, so Y
/// changes its sign.
pub open spec fn mesh_made(
    m: InrMesh,
    positions: Seq<Scalar>,
    uvs: Seq<Scalar>,
    indices: Seq<u32>,
    mesh: InxMesh,
) -> bool {
    let n = vertex_total(m, positions.len() as int, uvs.len() as int) as nat;
    &&& mesh.vertex_buffer@ == Seq::new(
        n,
        |i: int| [positions[i * 2], positions[i * 2 + 1].negated()],
    )
    &&& mesh.uv_buffer@ == Seq::new(n, |i: int| [uvs[i * 2], uvs[i * 2 + 1]])
    &&& mesh.index_buffer@ == indices
    &&& mesh.origin == m.origin
}

/// Makes a mesh from the numbers of its views.
pub fn make_mesh(
    m: &InrMesh,
    positions: &Vec<Scalar>,
    uvs: &Vec<Scalar>,
    indices: Vec<u32>,
) -> (r: InxMesh)
    ensures
        mesh_made(*m, positions@, uvs@, indices@, r),
        r.mask_contour_uv is None,
{
    let mut count: usize = m.vertex_count as usize;
    if positions.len() / 2 < count {
        count = positions.len() / 2;
    }
    if uvs.len() / 2 < count {
        count = uvs.len() / 2;
    }
    let ghost want_vertices = Seq::new(
        count as nat,
        |i: int| [positions@[i * 2], positions@[i * 2 + 1].negated()],
    );
    let ghost want_uvs = Seq::new(count as nat, |i: int| [uvs@[i * 2], uvs@[i * 2 + 1]]);
    let mut vertex_buffer: Vec<[Scalar; 2]> = Vec::new();
    let mut uv_buffer: Vec<[Scalar; 2]> = Vec::new();
    let mut i: usize = 0;
    while i < count
        invariant
            i <= count,
            count * 2 <= positions@.len(),
            count * 2 <= uvs@.len(),
            positions@.len() <= usize::MAX,
            want_vertices == Seq::new(
                count as nat,
                |i: int| [positions@[i * 2], positions@[i * 2 + 1].negated()],
            ),
            want_uvs == Seq::new(count as nat, |i: int| [uvs@[i * 2], uvs@[i * 2 + 1]]),
            vertex_buffer@ == want_vertices.take(i as int),
            uv_buffer@ == want_uvs.take(i as int),
        decreases count - i,
    {
        vertex_buffer.push([positions[i * 2], positions[i * 2 + 1].neg()]);
        uv_buffer.push([uvs[i * 2], uvs[i * 2 + 1]]);
        i = i + 1;
        assert(vertex_buffer@ =~= want_vertices.take(i as int));
        assert(uv_buffer@ =~= want_uvs.take(i as int));
    }
    assert(vertex_buffer@ =~= want_vertices);
    assert(uv_buffer@ =~= want_uvs);
    InxMesh {
        vertex_buffer,
        uv_buffer,
        index_buffer: indices,
        origin: m.origin,
        mask_contour_uv: None,
    }
}

/// The first view of a mesh that cannot be read.
pub open spec fn mesh_error(model: InrModel, m: InrMesh) -> Option<u32> {
    if model.word_view(m.positions) is None {
        Some(m.positions)
    } else if model.word_view(m.uvs) is None {
        Some(m.uvs)
    } else if model.word_view(m.indices) is None {
        Some(m.indices)
    } else {
        None
    }
}

/// Numbers that a view can be read as.
pub open spec fn numbers(model: InrModel, view: u32, v: Seq<Scalar>) -> bool {
    model.word_view(view) matches Some(b) && inr::words(b, v.map_values(|x: Scalar| x.bits))
}

/// A mesh that a mesh of the document can be read as.
pub open spec fn mesh_reads(model: InrModel, m: InrMesh, mesh: InxMesh) -> bool {
    exists|positions: Seq<Scalar>, uvs: Seq<Scalar>, indices: Seq<u32>|
        {
            &&& #[trigger] numbers(model, m.positions, positions)
            &&& #[trigger] numbers(model, m.uvs, uvs)
            &&& model.word_view(m.indices) is Some
            &&& #[trigger] inr::words(model.word_view(m.indices)->0, indices)
            &&& mesh_made(m, positions, uvs, indices, mesh)
        }
}

/// Reads a mesh of the document.
pub fn convert_mesh(model: &InrModel, m: &InrMesh) -> (r: Result<InxMesh, InrError>)
    ensures
        match mesh_error(*model, *m) {
            Some(view) => r == Err::<InxMesh, InrError>(InrError::BadView(view)),
            None => r matches Ok(mesh) && mesh_reads(*model, *m, mesh) && mesh.mask_contour_uv
                is None,
        },
{
    let positions = match model.view_f32(m.positions) {
        Ok(v) => v,
        Err(e) => {
            return Err(e);
        },
    };
    let uvs = match model.view_f32(m.uvs) {
        Ok(v) => v,
        Err(e) => {
            return Err(e);
        },
    };
    let indices = match model.view_u32(m.indices) {
        Ok(v) => v,
        Err(e) => {
            return Err(e);
        },
    };
    let ghost i = indices@;
    let mesh = make_mesh(m, &positions, &uvs, indices);
    proof {
        assert(numbers(*model, m.positions, positions@));
        assert(numbers(*model, m.uvs, uvs@));
        assert(inr::words(model.word_view(m.indices)->0, i));
    }
    Ok(mesh)
}

/// The masks that the first `k` mask entries stand for. Entries that point at
/// no node are left out.
pub open spec fn masks_read(nodes: Seq<InrNode>, masks: Seq<InrMask>, k: nat) -> Seq<InxMask>
    decreases k,
{
    if k == 0 {
        Seq::empty()
    } else {
        let before = masks_read(nodes, masks, (k - 1) as nat);
        let m = masks[k - 1];
        if m.node < nodes.len() {
            before.push(
                InxMask {
                    source_uuid: nodes[m.node as int].uuid,
                    mode: if m.mode.name() == "dodge"@ {
                        InxMaskMode::Dodge
                    } else {
                        InxMaskMode::Mask
                    },
                },
            )
        } else {
            before
        }
    }
}

pub fn convert_masks(doc: &InrDoc, masks: &Vec<InrMask>) -> (r: Vec<InxMask>)
    ensures
        r@ == masks_read(doc.nodes@, masks@, masks@.len()),
{
    let mut r: Vec<InxMask> = Vec::new();
    let mut k: usize = 0;
    while k < masks.len()
        invariant
            k <= masks@.len(),
            r@ == masks_read(doc.nodes@, masks@, k as nat),
        decreases masks@.len() - k,
    {
        let m = masks[k];
        if (m.node as usize) < doc.nodes.len() {
            let mode = if same_text(m.mode.as_str(), "dodge") {
                InxMaskMode::Dodge
            } else {
                InxMaskMode::Mask
            };
            r.push(InxMask { source_uuid: doc.nodes[m.node as usize].uuid, mode });
        }
        k = k + 1;
    }
    r
}

/// A count of grid points; there is always one.
pub open spec fn points(n: u32) -> int {
    if n == 0 {
        1
    } else {
        n as int
    }
}

/// Row `i` of authored flags, `y` to a row. The last row that has flags may be
/// short; rows beyond are unset.
pub open spec fn flag_row(flags: Seq<bool>, y: int, i: int) -> Seq<bool> {
    if i * y < flags.len() {
        flags.subrange(
            i * y,
            if i * y + y < flags.len() {
                i * y + y
            } else {
                flags.len() as int
            },
        )
    } else {
        Seq::new(y as nat, |j: int| false)
    }
}

/// The flags as rows, one for each of `x` points.
pub open spec fn flag_rows(flags: Seq<bool>, x: int, y: int, rows: Seq<Vec<bool>>) -> bool {
    &&& rows.len() == x
    &&& forall|i: int| 0 <= i < x ==> (#[trigger] rows[i])@ == flag_row(flags, y, i)
}

fn split_flags(flags: &Vec<bool>, x: usize, y: usize) -> (r: Vec<Vec<bool>>)
    requires
        y > 0,
    ensures
        flag_rows(flags@, x as int, y as int, r@),
{
    let len: usize = flags.len();
    let mut rows: Vec<Vec<bool>> = Vec::new();
    let mut at: usize = 0;
    let mut i: usize = 0;
    while i < x
        invariant
            i <= x,
            y > 0,
            len == flags@.len(),
            at <= len,
            at == i * y || (at == len && len <= i * y),
            rows@.len() == i,
            forall|j: int| 0 <= j < i ==> (#[trigger] rows@[j])@ == flag_row(flags@, y as int, j),
        decreases x - i,
    {
        let mut row: Vec<bool> = Vec::new();
        proof {
            assert((i + 1) * y == i * y + y) by (nonlinear_arith);
        }
        if at < len {
            let end: usize = if y < len - at {
                at + y
            } else {
                len
            };
            let mut j: usize = at;
            while j < end
                invariant
                    at <= j <= end <= len,
                    len == flags@.len(),
                    row@ == flags@.subrange(at as int, j as int),
                decreases end - j,
            {
                row.push(flags[j]);
                j = j + 1;
                assert(row@ =~= flags@.subrange(at as int, j as int));
            }
            at = end;
        } else {
            let mut j: usize = 0;
            while j < y
                invariant
                    j <= y,
                    row@ == Seq::new(j as nat, |j: int| false),
                decreases y - j,
            {
                row.push(false);
                j = j + 1;
                assert(row@ =~= Seq::new(j as nat, |j: int| false));
            }
        }
        assert(row@ == flag_row(flags@, y as int, i as int));
        rows.push(row);
        i = i + 1;
    }
    rows
}

/// Consecutive numbers in pairs; an odd one out is dropped.
pub open spec fn pairs(v: Seq<Scalar>) -> Seq<[Scalar; 2]> {
    Seq::new((v.len() / 2) as nat, |i: int| [v[i * 2], v[i * 2 + 1]])
}

fn make_pairs(v: &Vec<Scalar>) -> (r: Vec<[Scalar; 2]>)
    ensures
        r@ == pairs(v@),
{
    let n: usize = v.len() / 2;
    let mut r: Vec<[Scalar; 2]> = Vec::new();
    let mut i: usize = 0;
    while i < n
        invariant
            i <= n,
            n == v@.len() / 2,
            v@.len() <= usize::MAX,
            r@ == pairs(v@).take(i as int),
        decreases n - i,
    {
        r.push([v[i * 2], v[i * 2 + 1]]);
        i = i + 1;
        assert(r@ =~= pairs(v@).take(i as int));
    }
    assert(r@ =~= pairs(v@));
    r
}

/// How many of `total` entries belong to one of `x` points; at least one.
pub open spec fn per_point(total: int, x: int) -> int {
    if total / x == 0 {
        1
    } else {
        total / x
    }
}

/// Values that the data of a binding can be read as.
pub open spec fn values_read(model: InrModel, b: InrBinding, v: InxBindingValues) -> bool {
    let x = points(b.x_count);
    match b.kind {
        InrBindingKind::Scalar => {
            &&& v matches InxBindingValues::Transform(t)
            &&& numbers(model, b.view, t.data@)
            &&& t.frames == x
            &&& t.values_per_frame == per_point(t.data@.len() as int, x)
        },
        InrBindingKind::Deform => {
            &&& v matches InxBindingValues::Deform(d)
            &&& exists|flat: Seq<Scalar>| #[trigger]
                numbers(model, b.view, flat) && d.data@ == pairs(flat)
            &&& d.frames == x
            &&& d.vertices_per_frame == per_point(d.data@.len() as int, x)
        },
        InrBindingKind::Other => v is Other,
    }
}

/// Makes binding values from the numbers of the binding's view.
fn make_values(b: &InrBinding, data: Vec<Scalar>) -> (r: InxBindingValues)
    requires
        b.kind != InrBindingKind::Other,
    ensures
        forall|model: InrModel|
            #![trigger values_read(model, *b, r)]
            numbers(model, b.view, data@) ==> values_read(model, *b, r),
{
    let x: usize = if b.x_count == 0 {
        1
    } else {
        b.x_count as usize
    };
    if b.kind == InrBindingKind::Scalar {
        let each: usize = data.len() / x;
        InxBindingValues::Transform(
            InxFlatTransform {
                data,
                frames: x,
                values_per_frame: if each == 0 {
                    1
                } else {
                    each
                },
            },
        )
    } else {
        let ghost flat = data@;
        let offsets = make_pairs(&data);
        let each: usize = offsets.len() / x;
        InxBindingValues::Deform(
            InxFlatDeform {
                data: offsets,
                frames: x,
                vertices_per_frame: if each == 0 {
                    1
                } else {
                    each
                },
            },
        )
    }
}

/// The bindings among the first `k` that point at a node, by position.
pub open spec fn kept(nodes: int, bindings: Seq<InrBinding>, k: nat) -> Seq<int>
    decreases k,
{
    if k == 0 {
        Seq::empty()
    } else {
        let before = kept(nodes, bindings, (k - 1) as nat);
        if bindings[k - 1].node < nodes {
            before.push(k - 1)
        } else {
            before
        }
    }
}

/// The binding points at a node but its data cannot be read.
pub open spec fn unreadable(model: InrModel, b: InrBinding) -> bool {
    b.node < model.doc.nodes@.len() && b.kind != InrBindingKind::Other && model.word_view(
        b.view,
    ) is None
}

/// The view of the first unreadable binding among the first `k`.
pub open spec fn binding_error(model: InrModel, bindings: Seq<InrBinding>, k: nat) -> Option<u32>
    decreases k,
{
    if k == 0 {
        None
    } else {
        match binding_error(model, bindings, (k - 1) as nat) {
            Some(view) => Some(view),
            None => if unreadable(model, bindings[k - 1]) {
                Some(bindings[k - 1].view)
            } else {
                None
            },
        }
    }
}

/// A binding that a binding of the document can be read as.
pub open spec fn binding_reads(model: InrModel, b: InrBinding, r: InxBinding) -> bool {
    &&& r.node_uuid == model.doc.nodes@[b.node as int].uuid
    &&& r.param_name == field_named(b.target.name())
    &&& r.interpolation == interpolation_named(b.interpolation.name())
    &&& values_read(model, b, r.values)
    &&& flag_rows(b.is_set@, points(b.x_count), points(b.y_count), r.is_set@)
}

/// A param that a param of the document can be read as.
pub open spec fn param_reads(model: InrModel, p: InrParam, r: InxParam) -> bool {
    let keep = kept(model.doc.nodes@.len() as int, p.bindings@, p.bindings@.len());
    &&& r.uuid == p.uuid
    &&& r.name@ == p.name@
    &&& r.is_vec2 == p.is_vec2
    &&& r.min == p.min
    &&& r.max == p.max
    &&& r.defaults == p.defaults
    &&& r.axis_points[0]@ == p.axis_points[0]@
    &&& r.axis_points[1]@ == p.axis_points[1]@
    &&& r.merge_mode == merge_named(p.merge_mode.name())
    &&& r.bindings@.len() == keep.len()
    &&& forall|i: int|
        0 <= i < keep.len() ==> binding_reads(
            model,
            p.bindings@[keep[i]],
            #[trigger] r.bindings@[i],
        )
}

fn copy_numbers(v: &Vec<Scalar>) -> (r: Vec<Scalar>)
    ensures
        r@ == v@,
{
    let mut r: Vec<Scalar> = Vec::new();
    let mut i: usize = 0;
    while i < v.len()
        invariant
            i <= v@.len(),
            r@ == v@.take(i as int),
        decreases v@.len() - i,
    {
        r.push(v[i]);
        i = i + 1;
        assert(r@ =~= v@.take(i as int));
    }
    assert(r@ =~= v@);
    r
}

/// Reads a param of the document.
pub fn convert_param(model: &InrModel, p: &InrParam) -> (r: Result<InxParam, InrError>)
    ensures
        match binding_error(*model, p.bindings@, p.bindings@.len()) {
            Some(view) => r == Err::<InxParam, InrError>(InrError::BadView(view)),
            None => r matches Ok(param) && param_reads(*model, *p, param),
        },
{
    let ghost n = model.doc.nodes@.len() as int;
    let ghost total = p.bindings@.len();
    let mut bindings: Vec<InxBinding> = Vec::new();
    let mut k: usize = 0;
    while k < p.bindings.len()
        invariant
            n == model.doc.nodes@.len(),
            total == p.bindings@.len(),
            k <= p.bindings@.len(),
            binding_error(*model, p.bindings@, k as nat) is None,
            bindings@.len() == kept(n, p.bindings@, k as nat).len(),
            forall|i: int|
                0 <= i < bindings@.len() ==> binding_reads(
                    *model,
                    p.bindings@[kept(n, p.bindings@, k as nat)[i]],
                    #[trigger] bindings@[i],
                ),
        decreases p.bindings@.len() - k,
    {
        let b = &p.bindings[k];
        if (b.node as usize) < model.doc.nodes.len() {
            let values = match b.kind {
                InrBindingKind::Other => InxBindingValues::Other,
                _ => match model.view_f32(b.view) {
                    Ok(data) => {
                        assert(numbers(*model, b.view, data@));
                        let values = make_values(b, data);
                        assert(values_read(*model, *b, values));
                        values
                    },
                    Err(e) => {
                        proof {
                            lemma_first_error(*model, p.bindings@, (k + 1) as nat, total);
                        }
                        return Err(e);
                    },
                },
            };
            let x: usize = if b.x_count == 0 {
                1
            } else {
                b.x_count as usize
            };
            let y: usize = if b.y_count == 0 {
                1
            } else {
                b.y_count as usize
            };
            let is_set = split_flags(&b.is_set, x, y);
            let binding = InxBinding {
                node_uuid: model.doc.nodes[b.node as usize].uuid,
                param_name: param_name(b.target.as_str()),
                interpolation: interpolation(b.interpolation.as_str()),
                values,
                is_set,
            };
            assert(binding_reads(*model, *b, binding));
            bindings.push(binding);
        }
        k = k + 1;
    }
    Ok(
        InxParam {
            uuid: p.uuid,
            name: p.name.clone(),
            is_vec2: p.is_vec2,
            min: p.min,
            max: p.max,
            defaults: p.defaults,
            axis_points: [copy_numbers(&p.axis_points[0]), copy_numbers(&p.axis_points[1])],
            merge_mode: merge_mode(p.merge_mode.as_str()),
            bindings,
        },
    )
}

/// An error that was found stays the first one.
proof fn lemma_first_error(model: InrModel, bindings: Seq<InrBinding>, j: nat, k: nat)
    requires
        j <= k,
        binding_error(model, bindings, j) is Some,
    ensures
        binding_error(model, bindings, k) == binding_error(model, bindings, j),
    decreases k,
{
    if j < k {
        lemma_first_error(model, bindings, j, (k - 1) as nat);
    }
}

/// The keyframes of a lane; the frame is cut to an integer.
pub open spec fn keyframes_read(keyframes: Seq<[Scalar; 3]>) -> Seq<InxKeyframe> {
    keyframes.map_values(
        |k: [Scalar; 3]|
            InxKeyframe { frame: k[0].truncated() as u32, value: k[1], tension: k[2] },
    )
}

fn convert_keyframes(keyframes: &Vec<[Scalar; 3]>) -> (r: Vec<InxKeyframe>)
    ensures
        r@ == keyframes_read(keyframes@),
{
    let mut r: Vec<InxKeyframe> = Vec::new();
    let mut i: usize = 0;
    while i < keyframes.len()
        invariant
            i <= keyframes@.len(),
            r@ == keyframes_read(keyframes@).take(i as int),
        decreases keyframes@.len() - i,
    {
        let k = keyframes[i];
        r.push(InxKeyframe { frame: k[0].to_u32(), value: k[1], tension: k[2] });
        i = i + 1;
        assert(r@ =~= keyframes_read(keyframes@).take(i as int));
    }
    assert(r@ =~= keyframes_read(keyframes@));
    r
}

/// The lanes among the first `k` whose param exists, by position.
pub open spec fn kept_lanes(params: int, lanes: Seq<InrLane>, k: nat) -> Seq<int>
    decreases k,
{
    if k == 0 {
        Seq::empty()
    } else {
        let before = kept_lanes(params, lanes, (k - 1) as nat);
        if 0 <= lanes[k - 1].param < params {
            before.push(k - 1)
        } else {
            before
        }
    }
}

/// A lane as it is read.
pub open spec fn lane_reads(params: Seq<InrParam>, l: InrLane, r: InxAnimationLane) -> bool {
    &&& r.param_uuid == params[l.param as int].uuid
    &&& r.target == l.target
    &&& r.interpolation == interpolation_named(l.interpolation.name())
    &&& r.merge_mode == merge_named(l.merge_mode.name())
    &&& r.keyframes@ == keyframes_read(l.keyframes@)
}

/// An animation as it is read.
pub open spec fn animation_reads(params: Seq<InrParam>, a: InrAnimation, r: InxAnimation) -> bool {
    let keep = kept_lanes(params.len() as int, a.lanes@, a.lanes@.len());
    &&& r.name@ == a.name@
    &&& r.duration == arith::of_int(a.length as int).times(a.timestep)
    &&& r.timestep == a.timestep
    &&& r.lanes@.len() == keep.len()
    &&& forall|i: int|
        0 <= i < keep.len() ==> lane_reads(params, a.lanes@[keep[i]], #[trigger] r.lanes@[i])
}

/// Reads an animation of the document.
pub fn convert_animation(doc: &InrDoc, a: &InrAnimation) -> (r: InxAnimation)
    ensures
        animation_reads(doc.params@, *a, r),
{
    let ghost n = doc.params@.len() as int;
    let mut lanes: Vec<InxAnimationLane> = Vec::new();
    let mut k: usize = 0;
    while k < a.lanes.len()
        invariant
            n == doc.params@.len(),
            k <= a.lanes@.len(),
            lanes@.len() == kept_lanes(n, a.lanes@, k as nat).len(),
            forall|i: int|
                0 <= i < lanes@.len() ==> lane_reads(
                    doc.params@,
                    a.lanes@[kept_lanes(n, a.lanes@, k as nat)[i]],
                    #[trigger] lanes@[i],
                ),
        decreases a.lanes@.len() - k,
    {
        let l = &a.lanes[k];
        if l.param >= 0 && (l.param as usize) < doc.params.len() {
            let lane = InxAnimationLane {
                param_uuid: doc.params[l.param as usize].uuid,
                target: l.target,
                interpolation: interpolation(l.interpolation.as_str()),
                merge_mode: merge_mode(l.merge_mode.as_str()),
                keyframes: convert_keyframes(&l.keyframes),
            };
            assert(lane_reads(doc.params@, *l, lane));
            lanes.push(lane);
        }
        k = k + 1;
    }
    InxAnimation {
        name: a.name.clone(),
        duration: Scalar::from_u32(a.length).mul(a.timestep),
        timestep: a.timestep,
        lanes,
    }
}

/// The view of the first unreadable texture among the first `k`.
pub open spec fn texture_error(model: InrModel, k: nat) -> Option<u32>
    decreases k,
{
    if k == 0 {
        None
    } else {
        match texture_error(model, (k - 1) as nat) {
            Some(view) => Some(view),
            None => if model.view(model.doc.textures@[k - 1].view) is None {
                Some(model.doc.textures@[k - 1].view)
            } else {
                None
            },
        }
    }
}

/// The view of the first unreadable binding among the first `k` params.
pub open spec fn param_error(model: InrModel, k: nat) -> Option<u32>
    decreases k,
{
    if k == 0 {
        None
    } else {
        match param_error(model, (k - 1) as nat) {
            Some(view) => Some(view),
            None => {
                let bindings = model.doc.params@[k - 1].bindings@;
                binding_error(model, bindings, bindings.len())
            },
        }
    }
}

/// The nodes of the document as a puppet lists them: children before their
/// parent, the root last.
pub open spec fn node_order(model: InrModel) -> Seq<int> {
    let root = inr_nodes::root_of(model.doc.nodes@);
    inr_nodes::post_order(model.doc.nodes@, root, root)
}

/// The first view that cannot be read: of the textures, then of the nodes, then
/// of the params.
pub open spec fn load_error(model: InrModel) -> Option<u32> {
    match texture_error(model, model.doc.textures@.len()) {
        Some(view) => Some(view),
        None => match inr_nodes::order_error(model, node_order(model)) {
            Some(view) => Some(view),
            None => param_error(model, model.doc.params@.len()),
        },
    }
}

/// A lookup from names to positions. Of equal names, the last counts.
pub open spec fn named(names: Seq<Seq<char>>) -> Map<Seq<char>, u64>
    decreases names.len(),
{
    if names.len() == 0 {
        Map::empty()
    } else {
        named(names.drop_last()).insert(names.last(), (names.len() - 1) as u64)
    }
}

/// A text, empty where there is none.
pub open spec fn text(s: Option<String>) -> Seq<char> {
    match s {
        Some(s) => s@,
        None => ""@,
    }
}

/// The metadata of a puppet.
pub open spec fn meta_reads(m: inr::Meta, r: InxMeta) -> bool {
    &&& r.name@ == text(m.name)
    &&& r.version@ == text(m.source_version)
    &&& r.rigger@ == text(m.rigger)
    &&& r.artist@ == text(m.artist)
    &&& r.rights@ == text(m.rights)
    &&& r.copyright@ == text(m.copyright)
    &&& r.license_url@ == text(m.license_url)
    &&& r.contact@ == text(m.contact)
    &&& r.reference@ == text(m.reference)
    &&& r.thumbnail_id == 0
    &&& !r.preserve_pixels
}

/// A puppet that a document can be read as.
pub open spec fn puppet_reads(model: InrModel, r: InxPuppet) -> bool {
    let doc = model.doc;
    &&& r.textures@.len() == doc.textures@.len()
    &&& forall|i: int|
        0 <= i < doc.textures@.len() ==> {
            &&& (#[trigger] r.textures@[i]).width == doc.textures@[i].width
            &&& r.textures@[i].height == doc.textures@[i].height
            &&& model.view(doc.textures@[i].view) == Some(r.textures@[i].pixels@)
        }
    &&& r.nodes@.len() == node_order(model).len()
    &&& inr_nodes::listed(model, node_order(model), 0, r.nodes@)
    &&& r.named_nodes@ == inr_nodes::names_after(
        doc.nodes@,
        node_order(model),
        0,
        Map::<Seq<char>, u64>::empty(),
    )
    &&& r.params@.len() == doc.params@.len()
    &&& forall|i: int|
        0 <= i < doc.params@.len() ==> param_reads(model, doc.params@[i], #[trigger] r.params@[i])
    &&& r.named_params@ == named(doc.params@.map_values(|p: InrParam| p.name@))
    &&& r.animations@.len() == doc.animations@.len()
    &&& forall|i: int|
        0 <= i < doc.animations@.len() ==> animation_reads(
            doc.params@,
            doc.animations@[i],
            #[trigger] r.animations@[i],
        )
    &&& r.named_animations@ == named(doc.animations@.map_values(|a: InrAnimation| a.name@))
    &&& meta_reads(doc.meta, r.meta)
    &&& r.physics == (InxPhysics {
        pixels_per_meter: doc.physics.pixels_per_meter,
        gravity: doc.physics.gravity,
    })
}

proof fn lemma_texture_error_stays(model: InrModel, j: nat, k: nat)
    requires
        j <= k,
        texture_error(model, j) is Some,
    ensures
        texture_error(model, k) == texture_error(model, j),
    decreases k,
{
    if j < k {
        lemma_texture_error_stays(model, j, (k - 1) as nat);
    }
}

proof fn lemma_param_error_stays(model: InrModel, j: nat, k: nat)
    requires
        j <= k,
        param_error(model, j) is Some,
    ensures
        param_error(model, k) == param_error(model, j),
    decreases k,
{
    if j < k {
        lemma_param_error_stays(model, j, (k - 1) as nat);
    }
}

fn text_or_empty(s: &Option<String>) -> (r: String)
    ensures
        r@ == text(*s),
{
    match s {
        Some(s) => s.clone(),
        None => "".to_owned(),
    }
}

fn convert_textures(model: &InrModel) -> (r: Result<Vec<InxTexture>, InrError>)
    ensures
        match texture_error(*model, model.doc.textures@.len()) {
            Some(view) => r == Err::<Vec<InxTexture>, InrError>(InrError::BadView(view)),
            None => {
                &&& r matches Ok(v)
                &&& v@.len() == model.doc.textures@.len()
                &&& forall|i: int|
                    0 <= i < v@.len() ==> {
                        &&& (#[trigger] v@[i]).width == model.doc.textures@[i].width
                        &&& v@[i].height == model.doc.textures@[i].height
                        &&& model.view(model.doc.textures@[i].view) == Some(v@[i].pixels@)
                    }
            },
        },
{
    let mut r: Vec<InxTexture> = Vec::new();
    let mut k: usize = 0;
    while k < model.doc.textures.len()
        invariant
            k <= model.doc.textures@.len(),
            texture_error(*model, k as nat) is None,
            r@.len() == k,
            forall|i: int|
                0 <= i < k ==> {
                    &&& (#[trigger] r@[i]).width == model.doc.textures@[i].width
                    &&& r@[i].height == model.doc.textures@[i].height
                    &&& model.view(model.doc.textures@[i].view) == Some(r@[i].pixels@)
                },
        decreases model.doc.textures@.len() - k,
    {
        let t = &model.doc.textures[k];
        match model.view_bytes(t.view) {
            Ok(bytes) => {
                let pixels = vstd::slice::slice_to_vec(bytes);
                r.push(InxTexture { width: t.width, height: t.height, pixels });
            },
            Err(e) => {
                proof {
                    lemma_texture_error_stays(*model, (k + 1) as nat, model.doc.textures@.len());
                }
                return Err(e);
            },
        }
        k = k + 1;
    }
    Ok(r)
}

fn convert_params(model: &InrModel) -> (r: Result<(Vec<InxParam>, NameMap), InrError>)
    ensures
        match param_error(*model, model.doc.params@.len()) {
            Some(view) => r == Err::<(Vec<InxParam>, NameMap), InrError>(InrError::BadView(view)),
            None => {
                &&& r matches Ok((v, names))
                &&& v@.len() == model.doc.params@.len()
                &&& forall|i: int|
                    0 <= i < v@.len() ==> param_reads(
                        *model,
                        model.doc.params@[i],
                        #[trigger] v@[i],
                    )
                &&& names@ == named(model.doc.params@.map_values(|p: InrParam| p.name@))
            },
        },
{
    let ghost all = model.doc.params@.map_values(|p: InrParam| p.name@);
    let mut r: Vec<InxParam> = Vec::new();
    let mut names = NameMap::new();
    let mut k: usize = 0;
    assert(all.take(0) =~= Seq::empty());
    while k < model.doc.params.len()
        invariant
            all == model.doc.params@.map_values(|p: InrParam| p.name@),
            k <= model.doc.params@.len(),
            param_error(*model, k as nat) is None,
            r@.len() == k,
            forall|i: int|
                0 <= i < k ==> param_reads(*model, model.doc.params@[i], #[trigger] r@[i]),
            names@ == named(all.take(k as int)),
        decreases model.doc.params@.len() - k,
    {
        match convert_param(model, &model.doc.params[k]) {
            Ok(param) => {
                names.insert(model.doc.params[k].name.clone(), k as u64);
                r.push(param);
                proof {
                    let now = all.take(k + 1);
                    assert(now.drop_last() =~= all.take(k as int));
                    assert(now.last() == model.doc.params@[k as int].name@);
                }
            },
            Err(e) => {
                proof {
                    lemma_param_error_stays(*model, (k + 1) as nat, model.doc.params@.len());
                }
                return Err(e);
            },
        }
        k = k + 1;
    }
    assert(all.take(k as int) =~= all);
    Ok((r, names))
}

fn convert_animations(doc: &InrDoc) -> (r: (Vec<InxAnimation>, NameMap))
    ensures
        r.0@.len() == doc.animations@.len(),
        forall|i: int|
            0 <= i < r.0@.len() ==> animation_reads(
                doc.params@,
                doc.animations@[i],
                #[trigger] r.0@[i],
            ),
        r.1@ == named(doc.animations@.map_values(|a: InrAnimation| a.name@)),
{
    let ghost all = doc.animations@.map_values(|a: InrAnimation| a.name@);
    let mut r: Vec<InxAnimation> = Vec::new();
    let mut names = NameMap::new();
    let mut k: usize = 0;
    assert(all.take(0) =~= Seq::empty());
    while k < doc.animations.len()
        invariant
            all == doc.animations@.map_values(|a: InrAnimation| a.name@),
            k <= doc.animations@.len(),
            r@.len() == k,
            forall|i: int|
                0 <= i < k ==> animation_reads(
                    doc.params@,
                    doc.animations@[i],
                    #[trigger] r@[i],
                ),
            names@ == named(all.take(k as int)),
        decreases doc.animations@.len() - k,
    {
        let a = &doc.animations[k];
        names.insert(a.name.clone(), k as u64);
        r.push(convert_animation(doc, a));
        proof {
            let now = all.take(k + 1);
            assert(now.drop_last() =~= all.take(k as int));
            assert(now.last() == doc.animations@[k as int].name@);
        }
        k = k + 1;
    }
    assert(all.take(k as int) =~= all);
    (r, names)
}

/// Builds a puppet from a document. The document has a node, its parents exist
/// and its nodes form a tree below the root.
pub fn convert(model: &InrModel) -> (r: Result<InxPuppet, InrError>)
    requires
        model.doc.nodes@.len() > 0,
        inr_nodes::parents_exist(model.doc.nodes@),
        inr_nodes::tree_at(model.doc.nodes@, inr_nodes::root_of(model.doc.nodes@)),
    ensures
        match load_error(*model) {
            Some(view) => r == Err::<InxPuppet, InrError>(InrError::BadView(view)),
            None => r matches Ok(puppet) && puppet_reads(*model, puppet),
        },
{
    let textures = match convert_textures(model) {
        Ok(v) => v,
        Err(e) => {
            return Err(e);
        },
    };
    let (children, root) = inr_nodes::child_lists(&model.doc.nodes);
    let mut nodes: Vec<InxNode> = Vec::new();
    let mut named_nodes = NameMap::new();
    proof {
        inr_nodes::lemma_root_is_below(model.doc.nodes@);
    }
    let built = inr_nodes::build_node(model, root, root, &children, &mut nodes, &mut named_nodes);
    if let Err(e) = built {
        return Err(e);
    }
    let (params, named_params) = match convert_params(model) {
        Ok(v) => v,
        Err(e) => {
            return Err(e);
        },
    };
    let (animations, named_animations) = convert_animations(&model.doc);
    let m = &model.doc.meta;
    let meta = InxMeta {
        name: text_or_empty(&m.name),
        version: text_or_empty(&m.source_version),
        rigger: text_or_empty(&m.rigger),
        artist: text_or_empty(&m.artist),
        rights: text_or_empty(&m.rights),
        copyright: text_or_empty(&m.copyright),
        license_url: text_or_empty(&m.license_url),
        contact: text_or_empty(&m.contact),
        reference: text_or_empty(&m.reference),
        thumbnail_id: 0,
        preserve_pixels: false,
    };
    Ok(
        InxPuppet {
            nodes,
            params,
            animations,
            textures,
            named_nodes,
            named_params,
            named_animations,
            meta,
            physics: InxPhysics {
                pixels_per_meter: model.doc.physics.pixels_per_meter,
                gravity: model.doc.physics.gravity,
            },
        },
    )
}

/// Loader of `.inr` files.
pub struct InrLoader;

impl InrLoader {
    /// The file extensions of the loader.
    pub fn extensions(&self) -> (r: [&'static str; 1])
        ensures
            r[0]@ == "inr"@,
    {
        ["inr"]
    }
}

/// In a puppet that was read from a document, children stand before their
/// parents.
pub proof fn lemma_children_come_first(model: InrModel, puppet: InxPuppet)
    requires
        puppet_reads(model, puppet),
    ensures
        crate::auto_spawn::children_first(puppet.nodes@),
{
    let nodes = puppet.nodes@;
    assert forall|i: int, j: int|
        #![trigger nodes[i].children@[j]]
        0 <= i < nodes.len() && 0 <= j < nodes[i].children@.len() implies nodes[i].children@[j]
        < i by {
        assert(inr_nodes::slot_reads(model, node_order(model), 0, i, nodes[0 + i]));
    }
}

/// Pairs written out in a row, the first of each before the second.
pub open spec fn written_out(v: Seq<[Scalar; 2]>) -> Seq<Scalar> {
    Seq::new(2 * v.len(), |i: int| v[i / 2][i % 2])
}

/// The bytes of a number, the lowest first.
pub open spec fn number_bytes(x: Scalar) -> Seq<u8> {
    inr::bytes_of(x.bits as int)
}

/// Numbers that were read from a view, written out again, are its bytes.
pub proof fn lemma_numbers_write_back(model: InrModel, view: u32, v: Seq<Scalar>, i: int)
    requires
        numbers(model, view, v),
        0 <= i < v.len(),
    ensures
        model.view(view) matches Some(bytes) && bytes.len() == 4 * v.len() && number_bytes(v[i])
            == bytes.subrange(4 * i, 4 * i + 4),
{
    let bits = v.map_values(|x: Scalar| x.bits);
    inr::lemma_words_write_back(model.word_view(view)->0, bits, i);
    assert(bits[i] == v[i].bits);
}

/// The offsets of a deform binding, written out again, X and then Y of each
/// vertex, are the numbers of the binding's view, but for an odd one at the end.
pub proof fn lemma_deform_writes_back(model: InrModel, b: InrBinding, r: InxBinding)
    requires
        binding_reads(model, b, r),
        b.kind == InrBindingKind::Deform,
    ensures
        r.values matches InxBindingValues::Deform(d) && {
            &&& exists|flat: Seq<Scalar>|
                {
                    &&& #[trigger] numbers(model, b.view, flat)
                    &&& flat.len() - 1 <= 2 * d.data@.len() <= flat.len()
                    &&& written_out(d.data@) == flat.take(2 * d.data@.len() as int)
                }
            &&& model.view(b.view) is Some
            &&& forall|v: int|
                0 <= v < d.data@.len() ==> {
                    &&& number_bytes((#[trigger] d.data@[v])[0]) == (
                    model.view(b.view)->0).subrange(8 * v, 8 * v + 4)
                    &&& number_bytes(d.data@[v][1]) == (model.view(b.view)->0).subrange(
                        8 * v + 4,
                        8 * v + 8,
                    )
                }
        },
{
    let d = r.values->Deform_0;
    let flat = choose|flat: Seq<Scalar>| #[trigger]
        numbers(model, b.view, flat) && d.data@ == pairs(flat);
    let n = d.data@.len() as int;
    assert(flat.len() - 1 <= 2 * n <= flat.len());
    assert(written_out(d.data@) =~= flat.take(2 * n)) by {
        assert forall|i: int| 0 <= i < 2 * n implies #[trigger] written_out(d.data@)[i]
            == flat[i] by {
            let v = i / 2;
            assert(d.data@[v] == [flat[v * 2], flat[v * 2 + 1]]);
            assert(i % 2 == 0 || i % 2 == 1);
        }
    }
    assert forall|v: int| 0 <= v < n implies {
        &&& number_bytes((#[trigger] d.data@[v])[0]) == (model.view(b.view)->0).subrange(
            8 * v,
            8 * v + 4,
        )
        &&& number_bytes(d.data@[v][1]) == (model.view(b.view)->0).subrange(8 * v + 4, 8 * v + 8)
    } by {
        assert(d.data@[v] == [flat[v * 2], flat[v * 2 + 1]]);
        lemma_numbers_write_back(model, b.view, flat, v * 2);
        lemma_numbers_write_back(model, b.view, flat, v * 2 + 1);
    }
}

/// The values of a scalar binding, written out again, are the bytes of the
/// binding's view.
pub proof fn lemma_values_write_back(model: InrModel, b: InrBinding, r: InxBinding)
    requires
        binding_reads(model, b, r),
        b.kind == InrBindingKind::Scalar,
    ensures
        r.values matches InxBindingValues::Transform(t) && {
            &&& model.view(b.view) is Some
            &&& (model.view(b.view)->0).len() == 4 * t.data@.len()
            &&& forall|i: int|
                0 <= i < t.data@.len() ==> number_bytes(#[trigger] t.data@[i]) == (
                model.view(b.view)->0).subrange(4 * i, 4 * i + 4)
        },
{
    let t = r.values->Transform_0;
    assert forall|i: int| 0 <= i < t.data@.len() implies number_bytes(#[trigger] t.data@[i]) == (
    model.view(b.view)->0).subrange(4 * i, 4 * i + 4) by {
        lemma_numbers_write_back(model, b.view, t.data@, i);
    }
}

/// The vertices of a mesh, written out again with Y turned back, are the bytes of
/// its positions; its texture coordinates and indices are those of their views.
pub proof fn lemma_mesh_writes_back(model: InrModel, m: InrMesh, mesh: InxMesh)
    requires
        mesh_reads(model, m, mesh),
    ensures
        model.view(m.positions) is Some,
        model.view(m.uvs) is Some,
        model.view(m.indices) is Some,
        mesh.uv_buffer@.len() == mesh.vertex_buffer@.len(),
        mesh.vertex_buffer@.len() <= m.vertex_count,
        forall|v: int|
            0 <= v < mesh.vertex_buffer@.len() ==> {
                &&& number_bytes((#[trigger] mesh.vertex_buffer@[v])[0]) == (
                model.view(m.positions)->0).subrange(8 * v, 8 * v + 4)
                &&& number_bytes(mesh.vertex_buffer@[v][1].negated()) == (
                model.view(m.positions)->0).subrange(8 * v + 4, 8 * v + 8)
            },
        forall|v: int|
            0 <= v < mesh.uv_buffer@.len() ==> {
                &&& number_bytes((#[trigger] mesh.uv_buffer@[v])[0]) == (
                model.view(m.uvs)->0).subrange(8 * v, 8 * v + 4)
                &&& number_bytes(mesh.uv_buffer@[v][1]) == (model.view(m.uvs)->0).subrange(
                    8 * v + 4,
                    8 * v + 8,
                )
            },
        (model.view(m.indices)->0).len() == 4 * mesh.index_buffer@.len(),
        forall|i: int|
            0 <= i < mesh.index_buffer@.len() ==> inr::bytes_of(
                #[trigger] mesh.index_buffer@[i] as int,
            ) == (model.view(m.indices)->0).subrange(4 * i, 4 * i + 4),
{
    let (positions, uvs, indices) = choose|
        positions: Seq<Scalar>,
        uvs: Seq<Scalar>,
        indices: Seq<u32>,
    |
        {
            &&& #[trigger] numbers(model, m.positions, positions)
            &&& #[trigger] numbers(model, m.uvs, uvs)
            &&& model.word_view(m.indices) is Some
            &&& #[trigger] inr::words(model.word_view(m.indices)->0, indices)
            &&& mesh_made(m, positions, uvs, indices, mesh)
        };
    let n = mesh.vertex_buffer@.len() as int;
    assert(2 * n <= positions.len() && 2 * n <= uvs.len());
    assert forall|v: int| 0 <= v < n implies {
        &&& number_bytes((#[trigger] mesh.vertex_buffer@[v])[0]) == (
        model.view(m.positions)->0).subrange(8 * v, 8 * v + 4)
        &&& number_bytes(mesh.vertex_buffer@[v][1].negated()) == (
        model.view(m.positions)->0).subrange(8 * v + 4, 8 * v + 8)
    } by {
        assert(mesh.vertex_buffer@[v] == [positions[v * 2], positions[v * 2 + 1].negated()]);
        crate::scalar::lemma_negated(positions[v * 2 + 1]);
        lemma_numbers_write_back(model, m.positions, positions, v * 2);
        lemma_numbers_write_back(model, m.positions, positions, v * 2 + 1);
    }
    assert forall|v: int| 0 <= v < n implies {
        &&& number_bytes((#[trigger] mesh.uv_buffer@[v])[0]) == (model.view(m.uvs)->0).subrange(
            8 * v,
            8 * v + 4,
        )
        &&& number_bytes(mesh.uv_buffer@[v][1]) == (model.view(m.uvs)->0).subrange(
            8 * v + 4,
            8 * v + 8,
        )
    } by {
        assert(mesh.uv_buffer@[v] == [uvs[v * 2], uvs[v * 2 + 1]]);
        lemma_numbers_write_back(model, m.uvs, uvs, v * 2);
        lemma_numbers_write_back(model, m.uvs, uvs, v * 2 + 1);
    }
    assert forall|i: int| 0 <= i < mesh.index_buffer@.len() implies inr::bytes_of(
        #[trigger] mesh.index_buffer@[i] as int,
    ) == (model.view(m.indices)->0).subrange(4 * i, 4 * i + 4) by {
        inr::lemma_words_write_back(model.word_view(m.indices)->0, indices, i);
    }
}

/// The rows of authored flags, one after the other, are the flags of the
/// document: point (x, y) has flag `x * y_count + y`.
pub proof fn lemma_flags_in_order(model: InrModel, b: InrBinding, r: InxBinding, x: int, y: int)
    requires
        binding_reads(model, b, r),
        0 <= x < b.x_count,
        0 <= y < b.y_count,
        x * b.y_count + y < b.is_set@.len(),
    ensures
        x < r.is_set@.len(),
        y < r.is_set@[x]@.len(),
        r.is_set@[x]@[y] == b.is_set@[x * b.y_count + y],
{
    assert(r.is_set@[x]@ == flag_row(b.is_set@, b.y_count as int, x));
}

/// The bindings that a param keeps are those that point at a node, in their
/// order.
pub proof fn lemma_kept(nodes: int, bindings: Seq<InrBinding>, k: nat)
    requires
        k <= bindings.len(),
    ensures
        forall|i: int|
            0 <= i < kept(nodes, bindings, k).len() ==> 0 <= #[trigger] kept(nodes, bindings, k)[i]
                < k && bindings[kept(nodes, bindings, k)[i]].node < nodes,
        forall|i: int, j: int|
            0 <= i < j < kept(nodes, bindings, k).len() ==> #[trigger] kept(nodes, bindings, k)[i]
                < #[trigger] kept(nodes, bindings, k)[j],
        forall|p: int|
            0 <= p < k && (#[trigger] bindings[p]).node < nodes ==> kept(
                nodes,
                bindings,
                k,
            ).contains(p),
    decreases k,
{
    if k > 0 {
        let j = (k - 1) as nat;
        lemma_kept(nodes, bindings, j);
        let before = kept(nodes, bindings, j);
        let now = kept(nodes, bindings, k);
        assert forall|p: int| 0 <= p < k && (#[trigger] bindings[p]).node < nodes implies now.contains(
            p,
        ) by {
            if p < j {
                let i = choose|i: int| 0 <= i < before.len() && before[i] == p;
                assert(now[i] == p);
            } else {
                assert(now[before.len() as int] == p);
            }
        }
    }
}

/// A keyframe on a whole frame keeps its frame, and every keyframe its value and
/// its tension.
pub proof fn lemma_keyframes_keep(keyframes: Seq<[Scalar; 3]>, i: int, n: int)
    requires
        0 <= i < keyframes.len(),
        0 <= n <= u32::MAX,
        keyframes[i][0].finite(),
        keyframes[i][0].value() == n * crate::scalar::unit(),
    ensures
        keyframes_read(keyframes).len() == keyframes.len(),
        keyframes_read(keyframes)[i].frame == n,
        keyframes_read(keyframes)[i].value == keyframes[i][1],
        keyframes_read(keyframes)[i].tension == keyframes[i][2],
{
    let u = crate::scalar::unit();
    vstd::arithmetic::power2::lemma_pow2_pos(149);
    vstd::arithmetic::div_mod::lemma_div_multiples_vanish(n, u);
    assert(n * u == u * n) by (nonlinear_arith);
    assert(n == 0 <==> n * u <= 0) by (nonlinear_arith)
        requires
            n >= 0,
            u > 0,
    ;
}

/// A blend mode of a document is the mode of the same name.
pub proof fn lemma_blend_mode_is_kept(mode: crate::inr_names::InrBlendMode)
    ensures
        blend_named(mode.name()) == match mode {
            crate::inr_names::InrBlendMode::Multiply => BlendMode::Multiply,
            crate::inr_names::InrBlendMode::Screen => BlendMode::Screen,
            crate::inr_names::InrBlendMode::Overlay => BlendMode::Overlay,
            crate::inr_names::InrBlendMode::Darken => BlendMode::Darken,
            crate::inr_names::InrBlendMode::Lighten => BlendMode::Lighten,
            crate::inr_names::InrBlendMode::ColorDodge => BlendMode::ColorDodge,
            crate::inr_names::InrBlendMode::LinearDodge => BlendMode::LinearDodge,
            crate::inr_names::InrBlendMode::Add => BlendMode::Add,
            crate::inr_names::InrBlendMode::ColorBurn => BlendMode::ColorBurn,
            crate::inr_names::InrBlendMode::HardLight => BlendMode::HardLight,
            crate::inr_names::InrBlendMode::SoftLight => BlendMode::SoftLight,
            crate::inr_names::InrBlendMode::Subtract => BlendMode::Subtract,
            crate::inr_names::InrBlendMode::Difference => BlendMode::Difference,
            crate::inr_names::InrBlendMode::Exclusion => BlendMode::Exclusion,
            crate::inr_names::InrBlendMode::Inverse => BlendMode::Inverse,
            crate::inr_names::InrBlendMode::DestinationIn => BlendMode::DestinationIn,
            crate::inr_names::InrBlendMode::ClipToLower => BlendMode::ClipToLower,
            crate::inr_names::InrBlendMode::SliceFromLower => BlendMode::SliceFromLower,
            crate::inr_names::InrBlendMode::Normal => BlendMode::Normal,
        },
{
    mode.lemma_named();
}

/// A merge mode of a document is the mode of the same name.
pub proof fn lemma_merge_mode_is_kept(mode: crate::inr_names::InrMergeMode)
    ensures
        merge_named(mode.name()) == match mode {
            crate::inr_names::InrMergeMode::Multiplicative => InxMergeMode::Multiply,
            crate::inr_names::InrMergeMode::Override => InxMergeMode::Override,
            crate::inr_names::InrMergeMode::Forced => InxMergeMode::Forced,
            crate::inr_names::InrMergeMode::Additive => InxMergeMode::Additive,
        },
{
    mode.lemma_named();
}

/// An interpolation of a document is the one of the same name; the nearest value is
/// taken by steps.
pub proof fn lemma_interpolation_is_kept(mode: crate::inr_names::InrInterpolation)
    ensures
        interpolation_named(mode.name()) == match mode {
            crate::inr_names::InrInterpolation::Stepped => InxInterpolation::Stepped,
            crate::inr_names::InrInterpolation::Nearest => InxInterpolation::Stepped,
            crate::inr_names::InrInterpolation::Cubic => InxInterpolation::Cubic,
            crate::inr_names::InrInterpolation::Linear => InxInterpolation::Linear,
        },
{
    mode.lemma_named();
}

/// A binding of a document drives the field that its target names.
pub proof fn lemma_target_is_kept(target: crate::inr_names::InrBindingTarget)
    ensures
        field_named(target.name()) == match target {
            crate::inr_names::InrBindingTarget::TranslateX => InxParamName::TransformTX,
            crate::inr_names::InrBindingTarget::TranslateY => InxParamName::TransformTY,
            crate::inr_names::InrBindingTarget::TranslateZ => InxParamName::TransformTZ,
            crate::inr_names::InrBindingTarget::RotateX => InxParamName::TransformRX,
            crate::inr_names::InrBindingTarget::RotateY => InxParamName::TransformRY,
            crate::inr_names::InrBindingTarget::RotateZ => InxParamName::TransformRZ,
            crate::inr_names::InrBindingTarget::ScaleX => InxParamName::TransformSX,
            crate::inr_names::InrBindingTarget::ScaleY => InxParamName::TransformSY,
            crate::inr_names::InrBindingTarget::Deform => InxParamName::Deform,
            crate::inr_names::InrBindingTarget::Opacity => InxParamName::Opacity,
            crate::inr_names::InrBindingTarget::Other => InxParamName::Other,
        },
{
    crate::inr_names::InrBindingTarget::RotateX.lemma_named();
    crate::inr_names::InrBindingTarget::RotateY.lemma_named();
    crate::inr_names::InrBindingTarget::RotateZ.lemma_named();
    crate::inr_names::InrBindingTarget::ScaleX.lemma_named();
    crate::inr_names::InrBindingTarget::ScaleY.lemma_named();
    crate::inr_names::InrBindingTarget::TranslateX.lemma_named();
    crate::inr_names::InrBindingTarget::TranslateY.lemma_named();
    crate::inr_names::InrBindingTarget::TranslateZ.lemma_named();
    crate::inr_names::InrBindingTarget::Deform.lemma_named();
    crate::inr_names::InrBindingTarget::Opacity.lemma_named();
    crate::inr_names::InrBindingTarget::Other.lemma_named();
}

/// A node of a document is of the type that its kind names.
pub proof fn lemma_node_type_is_kept(kind: crate::inr_names::InrNodeKind)
    ensures
        node_type_named(kind.name()) == match kind {
            crate::inr_names::InrNodeKind::Part => InxNodeType::Part,
            crate::inr_names::InrNodeKind::Composite => InxNodeType::Composite,
            crate::inr_names::InrNodeKind::Mask => InxNodeType::Mask,
            crate::inr_names::InrNodeKind::MeshGroup => InxNodeType::MeshGroup,
            crate::inr_names::InrNodeKind::SimplePhysics => InxNodeType::SimplePhysics,
            crate::inr_names::InrNodeKind::Camera => InxNodeType::Camera,
            crate::inr_names::InrNodeKind::Node => InxNodeType::Generic,
        },
{
    crate::inr_names::InrNodeKind::SimplePhysics.lemma_named();
    crate::inr_names::InrNodeKind::Camera.lemma_named();
    crate::inr_names::InrNodeKind::Part.lemma_named();
    crate::inr_names::InrNodeKind::Composite.lemma_named();
    crate::inr_names::InrNodeKind::Mask.lemma_named();
    crate::inr_names::InrNodeKind::MeshGroup.lemma_named();
    crate::inr_names::InrNodeKind::Node.lemma_named();
}

/// The masks that are read are those that point at a node, in their order: one more
/// entry adds one mask, with the UUID of its node, or none.
pub proof fn lemma_masks_point_at_nodes(nodes: Seq<InrNode>, masks: Seq<InrMask>, k: nat)
    requires
        k < masks.len(),
    ensures
        ({
            let before = masks_read(nodes, masks, k);
            let now = masks_read(nodes, masks, k + 1);
            let m = masks[k as int];
            &&& m.node >= nodes.len() ==> now == before
            &&& m.node < nodes.len() ==> {
                &&& now.len() == before.len() + 1
                &&& now.drop_last() == before
                &&& now.last().source_uuid == nodes[m.node as int].uuid
                &&& now.last().mode == InxMaskMode::Dodge <==> m.mode
                    == crate::inr_names::InrMaskMode::Dodge
            }
        }),
{
    let before = masks_read(nodes, masks, k);
    let m = masks[k as int];
    m.mode.lemma_named();
    if m.node < nodes.len() {
        assert(masks_read(nodes, masks, k + 1).drop_last() =~= before);
    }
}

/// The points of a grid share the data of its binding: what belongs to one point, times
/// the number of points of the first axis, is the data, but for what is left over.
pub proof fn lemma_points_share_data(model: InrModel, b: InrBinding, r: InxBinding)
    requires
        binding_reads(model, b, r),
        b.x_count > 0,
    ensures
        r.values matches InxBindingValues::Transform(t) ==> t.frames == b.x_count && (
        t.data@.len() >= b.x_count ==> t.frames * t.values_per_frame <= t.data@.len() < t.frames
            * t.values_per_frame + t.frames),
        r.values matches InxBindingValues::Deform(d) ==> d.frames == b.x_count && (d.data@.len()
            >= b.x_count ==> d.frames * d.vertices_per_frame <= d.data@.len() < d.frames
            * d.vertices_per_frame + d.frames),
{
    let x = b.x_count as int;
    match r.values {
        InxBindingValues::Transform(t) => {
            lemma_shares(t.data@.len() as int, x);
        },
        InxBindingValues::Deform(d) => {
            lemma_shares(d.data@.len() as int, x);
        },
        _ => {},
    }
}

proof fn lemma_shares(n: int, x: int)
    requires
        n >= 0,
        x > 0,
    ensures
        n >= x ==> x * per_point(n, x) <= n < x * per_point(n, x) + x,
{
    vstd::arithmetic::div_mod::lemma_fundamental_div_mod(n, x);
    let q = n / x;
    if n >= x {
        assert(q >= 1) by (nonlinear_arith)
            requires
                n == x * q + n % x,
                n % x < x,
                n >= x,
                x > 0,
        ;
    }
}

} // verus!
