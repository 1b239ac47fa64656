//! Collecting the sortable units of a puppet.

use crate::blend::BlendMode;
use crate::id_map::IdMap;
use crate::model::{InxMaskMode, InxMaterial, InxNodeType};
use crate::pipeline::extract;
use crate::pipeline::extract::{
    Buffers, CompositeHeader, ExtractedNode, InxData, InxPartData, MaskHeader, MaskMode, NodeTable,
    SortableNode,
};
use crate::scalar::Scalar;
use vstd::prelude::*;

verus! {

fn append_points(points: &mut Vec<[Scalar; 2]>, more: &Vec<[Scalar; 2]>)
    ensures
        final(points)@ == old(points)@ + more@,
{
    let ghost before = points@;
    let mut i: usize = 0;
    while i < more.len()
        invariant
            i <= more@.len(),
            points@ == before + more@.take(i as int),
        decreases more@.len() - i,
    {
        points.push(more[i]);
        i = i + 1;
        assert(points@ =~= before + more@.take(i as int));
    }
    assert(more@.take(i as int) =~= more@);
}

/// Cuts or fills a deform buffer to a length.
fn resize_deforms(deforms: &mut Vec<[Scalar; 2]>, n: usize)
    ensures
        final(deforms)@ == extract::sized(old(deforms)@, n as nat),
{
    let ghost before = deforms@;
    if n <= deforms.len() {
        deforms.truncate(n);
        assert(deforms@ =~= before.take(n as int));
    } else {
        while deforms.len() < n
            invariant
                before.len() <= deforms@.len() <= n,
                deforms@ == before + extract::rest((deforms@.len() - before.len()) as nat),
            decreases n - deforms@.len(),
        {
            deforms.push([Scalar { bits: 0 }, Scalar { bits: 0 }]);
            assert(deforms@ =~= before + extract::rest((deforms@.len() - before.len()) as nat));
        }
    }
}

fn append_indices(indices: &mut Vec<u32>, more: &Vec<u32>, offset: u32)
    requires
        forall|i: int| 0 <= i < more@.len() ==> #[trigger] more@[i] + offset <= u32::MAX,
    ensures
        final(indices)@.map_values(|i: u32| i as int) == old(indices)@.map_values(|i: u32| i as int)
            + more@.map_values(|i: u32| i + offset as int),
{
    let ghost before = indices@;
    let mut i: usize = 0;
    while i < more.len()
        invariant
            i <= more@.len(),
            forall|i: int| 0 <= i < more@.len() ==> #[trigger] more@[i] + offset <= u32::MAX,
            indices@.len() == before.len() + i,
            forall|j: int| 0 <= j < before.len() ==> indices@[j] == before[j],
            forall|j: int|
                0 <= j < i ==> #[trigger] indices@[before.len() + j] == more@[j] + offset,
        decreases more@.len() - i,
    {
        indices.push(more[i] + offset);
        i = i + 1;
    }
    assert(indices@.map_values(|i: u32| i as int) =~= before.map_values(|i: u32| i as int)
        + more@.map_values(|i: u32| i + offset as int)) by {
        assert forall|j: int| before.len() <= j < indices@.len() implies indices@[j] == more@[j
            - before.len()] + offset by {
            assert(indices@[before.len() + (j - before.len())] == more@[j - before.len()] + offset);
        }
    }
}

fn resolve_texture(id: Option<u64>, textures: &mut Vec<u64>, lookup: &mut IdMap) -> (r: u32)
    requires
        extract::indexed(old(textures)@, old(lookup)@),
    ensures
        (r, final(textures)@) == extract::slot(old(textures)@, id),
        extract::indexed(final(textures)@, final(lookup)@),
{
    match id {
        None => extract::TEX_NONE,
        Some(id) => match lookup.get(id) {
            Some(at) => {
                proof {
                    assert(lookup@.dom().contains(id));
                    let i = textures@.index_of(id);
                    assert(lookup@[textures@[i]] == (i as u32));
                }
                at as u32
            },
            None => {
                let ghost before = textures@;
                let ghost known = lookup@;
                let at: u32 = textures.len() as u32;
                lookup.insert(id, at as u64);
                textures.push(id);
                proof {
                    assert(!before.contains(id));
                    assert forall|x: u64| #[trigger]
                        lookup@.dom().contains(x) <==> textures@.contains(x) by {
                        if before.contains(x) {
                            let i = before.index_of(x);
                            assert(textures@[i] == x);
                        }
                        if textures@.contains(x) && x != id {
                            let i = textures@.index_of(x);
                            assert(before[i] == x);
                        }
                        assert(textures@[before.len() as int] == id);
                        assert(known.dom().contains(x) <==> before.contains(x));
                    }
                    assert forall|i: int| 0 <= i < textures@.len() implies lookup@[
                        #[trigger] textures@[i]
                    ] == (i as u32) by {
                        if i < before.len() {
                            assert(before[i] == textures@[i]);
                            assert(before.contains(before[i]));
                        }
                    }
                    assert(textures@.no_duplicates()) by {
                        assert forall|i: int, j: int|
                            0 <= i < textures@.len() && 0 <= j < textures@.len() && i
                                != j implies textures@[i] != textures@[j] by {
                            if i < before.len() {
                                assert(before.contains(before[i]));
                            }
                            if j < before.len() {
                                assert(before.contains(before[j]));
                            }
                        }
                    }
                }
                at
            },
        },
    }
}

/// Gives the three textures of a material their slots in a puppet's texture
/// list.
pub fn resolve_textures(mat: &InxMaterial, textures: &mut Vec<u64>, lookup: &mut IdMap) -> (r: [u32;
    3])
    requires
        extract::indexed(old(textures)@, old(lookup)@),
    ensures
        (r, final(textures)@) == extract::slots(old(textures)@, *mat),
        extract::indexed(final(textures)@, final(lookup)@),
{
    let a: u32 = resolve_texture(mat.texture_albedo, textures, lookup);
    let b: u32 = resolve_texture(mat.texture_emissive, textures, lookup);
    let c: u32 = resolve_texture(mat.texture_bumpmap, textures, lookup);
    [a, b, c]
}

/// The first buffers' indices begin the second's.
pub open spec fn grows(a: Buffers, b: Buffers) -> bool {
    &&& a.indices.len() <= b.indices.len()
    &&& forall|i: int| 0 <= i < a.indices.len() ==> #[trigger] b.indices[i] == a.indices[i]
}

proof fn lemma_grown_fits(a: Buffers, b: Buffers)
    requires
        grows(a, b),
        b.fits(),
    ensures
        a.fits(),
{
    assert forall|i: int| 0 <= i < a.indices.len() implies #[trigger] a.indices[i] <= u32::MAX by {
        assert(b.indices[i] == a.indices[i]);
    }
}

proof fn lemma_masks_grow(
    nodes: Map<u64, ExtractedNode>,
    uuids: Map<u64, u64>,
    part: ExtractedNode,
    k: nat,
    b: Buffers,
)
    ensures
        grows(b, extract::masks_of(nodes, uuids, part, k, b).1),
    decreases k,
{
    if k > 0 {
        lemma_masks_grow(nodes, uuids, part, (k - 1) as nat, b);
    }
}

proof fn lemma_subtree_grows(
    nodes: Map<u64, ExtractedNode>,
    uuids: Map<u64, u64>,
    e: u64,
    above: Scalar,
    b: Buffers,
)
    requires
        extract::acyclic(nodes),
    ensures
        grows(b, extract::subtree(nodes, uuids, e, above, b).1),
    decreases extract::rank_of(nodes)(e), nodes[e].children@.len() + 1,
{
    if nodes.dom().contains(e) {
        let node = nodes[e];
        let n = node.children@.len();
        lemma_children_grow(nodes, uuids, e, n, above.plus(nodes[e].zsort), b);
        if node.node_type == InxNodeType::Part && extract::mesh_of(node) is Some {
            let m = (node.material->0).masks@.len();
            let c = extract::with_part(b, node);
            lemma_masks_grow(nodes, uuids, node, m, c);
            let d = extract::masks_of(nodes, uuids, node, m, c).1;
            lemma_children_grow(nodes, uuids, e, n, above.plus(nodes[e].zsort), d);
            assert(grows(b, c));
        }
    }
}

proof fn lemma_children_grow(
    nodes: Map<u64, ExtractedNode>,
    uuids: Map<u64, u64>,
    e: u64,
    k: nat,
    depth: Scalar,
    b: Buffers,
)
    requires
        extract::acyclic(nodes),
        nodes.dom().contains(e),
        k <= nodes[e].children@.len(),
    ensures
        grows(b, extract::children_of(nodes, uuids, e, k, depth, b).1),
    decreases extract::rank_of(nodes)(e), k,
{
    if k > 0 {
        lemma_children_grow(nodes, uuids, e, (k - 1) as nat, depth, b);
        let c = extract::children_of(nodes, uuids, e, (k - 1) as nat, depth, b).1;
        assert(extract::ranked(nodes, extract::rank_of(nodes)));
        lemma_subtree_grows(nodes, uuids, nodes[e].children@[k - 1], depth, c);
    }
}

/// Only the buffers differ.
pub open spec fn same_rest(a: InxData, b: InxData) -> bool {
    &&& a.commands@ == b.commands@
    &&& a.deform_dirty == b.deform_dirty
    &&& a.structure_version == b.structure_version
    &&& a.layers == b.layers
}

/// Appends the geometry of a part's mask sources and gives their headers.
pub fn collect_masks(
    node: &ExtractedNode,
    nodes: &NodeTable,
    uuid_map: &IdMap,
    data: &mut InxData,
    tex_lookup: &mut IdMap,
) -> (r: Vec<MaskHeader>)
    requires
        node.material is Some,
        extract::indexed(old(data).textures@, old(tex_lookup)@),
        extract::masks_of(
            nodes@,
            uuid_map@,
            *node,
            (node.material->0).masks@.len(),
            old(data).buffers(),
        ).1.fits(),
    ensures
        (r@, final(data).buffers()) == extract::masks_of(
            nodes@,
            uuid_map@,
            *node,
            (node.material->0).masks@.len(),
            old(data).buffers(),
        ),
        extract::indexed(final(data).textures@, final(tex_lookup)@),
        same_rest(*old(data), *final(data)),
{
    let ghost b = data.buffers();
    let ghost total = (node.material->0).masks@.len();
    let mut headers: Vec<MaskHeader> = Vec::new();
    if let Some(mat) = &node.material {
        let mut k: usize = 0;
        while k < mat.masks.len()
            invariant
                node.material == Some(*mat),
                k <= mat.masks@.len(),
                total == mat.masks@.len(),
                (headers@, data.buffers()) == extract::masks_of(
                    nodes@,
                    uuid_map@,
                    *node,
                    k as nat,
                    b,
                ),
                extract::indexed(data.textures@, tex_lookup@),
                extract::masks_of(nodes@, uuid_map@, *node, total, b).1.fits(),
                same_rest(*old(data), *data),
            decreases mat.masks@.len() - k,
        {
            let ghost c = data.buffers();
            let mask = mat.masks[k];
            let found = uuid_map.get(mask.source_uuid as u64);
            let source = match found {
                Some(entity) => nodes.get(entity),
                None => None,
            };
            let ghost step = extract::masks_of(nodes@, uuid_map@, *node, (k + 1) as nat, b);
            proof {
                lemma_masks_suffix(nodes@, uuid_map@, *node, (k + 1) as nat, total, b);
                lemma_grown_fits(
                    step.1,
                    extract::masks_of(nodes@, uuid_map@, *node, total, b).1,
                );
            }
            if let Some(source_node) = source {
                if let Some(source_mat) = &source_node.material {
                    if let Some(source_mesh) = &source_mat.mesh {
                        assert(extract::mask_source(nodes@, uuid_map@, mask) == Some(*source_node));
                        let vertex_offset: u32 = data.verts.len() as u32;
                        let vertex_count: u32 = source_mesh.vertex_buffer.len() as u32;
                        append_points(&mut data.verts, &source_mesh.vertex_buffer);
                        append_points(&mut data.uvs, &source_mesh.uv_buffer);
                        let vertices: usize = data.verts.len();
                        resize_deforms(&mut data.deforms, vertices);
                        let index_offset: u32 = data.indices.len() as u32;
                        let index_count: u32 = source_mesh.index_buffer.len() as u32;
                        proof {
                            lemma_rebased(c, *source_mesh, step.1);
                        }
                        append_indices(&mut data.indices, &source_mesh.index_buffer, vertex_offset);
                        let slots = resolve_textures(source_mat, &mut data.textures, tex_lookup);
                        headers.push(
                            MaskHeader {
                                entity: node.entity,
                                entity_source: source_node.entity,
                                source_uuid: mask.source_uuid,
                                mode: match mask.mode {
                                    InxMaskMode::Dodge => MaskMode::Dodge,
                                    _ => MaskMode::Mask,
                                },
                                threshold: mat.mask_threshold,
                                name: source_node.name.clone(),
                                vertex_offset: if index_count > 0 {
                                    0
                                } else {
                                    vertex_offset
                                },
                                vertex_count,
                                index_offset,
                                index_count,
                                tex_albedo: slots[0],
                                transform: source_node.global_transform,
                                origin: source_mesh.origin,
                            },
                        );
                        assert(data.buffers() =~= extract::with_mask(c, *source_node));
                    }
                }
            }
            k = k + 1;
        }
    }
    headers
}

/// More mask entries only append.
proof fn lemma_masks_suffix(
    nodes: Map<u64, ExtractedNode>,
    uuids: Map<u64, u64>,
    part: ExtractedNode,
    j: nat,
    k: nat,
    b: Buffers,
)
    requires
        j <= k,
    ensures
        grows(
            extract::masks_of(nodes, uuids, part, j, b).1,
            extract::masks_of(nodes, uuids, part, k, b).1,
        ),
    decreases k,
{
    if j < k {
        lemma_masks_suffix(nodes, uuids, part, j, (k - 1) as nat, b);
    }
}

/// More children only append.
proof fn lemma_children_suffix(
    nodes: Map<u64, ExtractedNode>,
    uuids: Map<u64, u64>,
    e: u64,
    j: nat,
    k: nat,
    depth: Scalar,
    b: Buffers,
)
    requires
        extract::acyclic(nodes),
        nodes.dom().contains(e),
        j <= k <= nodes[e].children@.len(),
    ensures
        grows(
            extract::children_of(nodes, uuids, e, j, depth, b).1,
            extract::children_of(nodes, uuids, e, k, depth, b).1,
        ),
    decreases k,
{
    if j < k {
        lemma_children_suffix(nodes, uuids, e, j, (k - 1) as nat, depth, b);
        let c = extract::children_of(nodes, uuids, e, (k - 1) as nat, depth, b).1;
        lemma_subtree_grows(nodes, uuids, nodes[e].children@[k - 1], depth, c);
    }
}

/// Where the buffers with a mesh appended fit, the moved indices do.
proof fn lemma_rebased(b: Buffers, mesh: crate::model::InxMesh, after: Buffers)
    requires
        after.fits(),
        grows(extract::with_mesh(b, mesh), after),
    ensures
        forall|i: int|
            0 <= i < mesh.index_buffer@.len() ==> #[trigger] mesh.index_buffer@[i] + (
            b.verts.len() as u32) <= u32::MAX,
{
    let c = extract::with_mesh(b, mesh);
    lemma_grown_fits(c, after);
    assert forall|i: int| 0 <= i < mesh.index_buffer@.len() implies #[trigger] mesh.index_buffer@[i]
        + (b.verts.len() as u32) <= u32::MAX by {
        assert(c.indices[b.indices.len() + i] <= u32::MAX);
    }
}

/// Collects what the children of a node contribute, in order.
pub fn collect_children_flat(
    entity: u64,
    node: &ExtractedNode,
    nodes: &NodeTable,
    uuid_map: &IdMap,
    data: &mut InxData,
    tex_lookup: &mut IdMap,
    depth: Scalar,
) -> (r: Vec<SortableNode>)
    requires
        extract::acyclic(nodes@),
        nodes@.dom().contains(entity),
        nodes@[entity] == *node,
        extract::indexed(old(data).textures@, old(tex_lookup)@),
        extract::children_of(
            nodes@,
            uuid_map@,
            entity,
            node.children@.len(),
            depth,
            old(data).buffers(),
        ).1.fits(),
    ensures
        (extract::units_of(r@), final(data).buffers()) == extract::children_of(
            nodes@,
            uuid_map@,
            entity,
            node.children@.len(),
            depth,
            old(data).buffers(),
        ),
        extract::indexed(final(data).textures@, final(tex_lookup)@),
        same_rest(*old(data), *final(data)),
    decreases extract::rank_of(nodes@)(entity), node.children@.len(),
{
    let ghost b = data.buffers();
    let ghost total = node.children@.len();
    let mut result: Vec<SortableNode> = Vec::new();
    let mut k: usize = 0;
    assert(extract::units_of(result@) =~= Seq::empty());
    while k < node.children.len()
        invariant
            extract::acyclic(nodes@),
            nodes@.dom().contains(entity),
            nodes@[entity] == *node,
            k <= node.children@.len(),
            total == node.children@.len(),
            (extract::units_of(result@), data.buffers()) == extract::children_of(
                nodes@,
                uuid_map@,
                entity,
                k as nat,
                depth,
                b,
            ),
            extract::indexed(data.textures@, tex_lookup@),
            extract::children_of(nodes@, uuid_map@, entity, total, depth, b).1.fits(),
            same_rest(*old(data), *data),
        decreases node.children@.len() - k,
    {
        let child: u64 = node.children[k];
        proof {
            assert(extract::ranked(nodes@, extract::rank_of(nodes@)));
            assert(nodes@[entity].children@[k as int] == child);
            lemma_children_suffix(nodes@, uuid_map@, entity, (k + 1) as nat, total, depth, b);
            lemma_grown_fits(
                extract::children_of(nodes@, uuid_map@, entity, (k + 1) as nat, depth, b).1,
                extract::children_of(nodes@, uuid_map@, entity, total, depth, b).1,
            );
        }
        let ghost before = extract::units_of(result@);
        let ghost sofar = result@;
        let mut more = collect_subtree(child, nodes, uuid_map, data, tex_lookup, depth);
        let ghost added = more@;
        result.append(&mut more);
        proof {
            assert(result@ =~= sofar + added);
            assert(extract::units_of(result@) =~= before + extract::units_of(added));
        }
        k = k + 1;
    }
    result
}

fn collect_part(
    entity: u64,
    node: &ExtractedNode,
    nodes: &NodeTable,
    uuid_map: &IdMap,
    data: &mut InxData,
    tex_lookup: &mut IdMap,
    above: Scalar,
) -> (r: Vec<SortableNode>)
    requires
        extract::acyclic(nodes@),
        nodes@.dom().contains(entity),
        nodes@[entity] == *node,
        node.node_type == InxNodeType::Part,
        extract::indexed(old(data).textures@, old(tex_lookup)@),
        extract::subtree(nodes@, uuid_map@, entity, above, old(data).buffers()).1.fits(),
    ensures
        (extract::units_of(r@), final(data).buffers()) == extract::subtree(
            nodes@,
            uuid_map@,
            entity,
            above,
            old(data).buffers(),
        ),
        extract::indexed(final(data).textures@, final(tex_lookup)@),
        same_rest(*old(data), *final(data)),
    decreases extract::rank_of(nodes@)(entity), node.children@.len() + 1,
{
    let depth = above.add(node.zsort);
    let ghost b = data.buffers();
    let ghost n = node.children@.len();
    let mat = match &node.material {
        Some(mat) => mat,
        None => {
            return collect_children_flat(entity, node, nodes, uuid_map, data, tex_lookup, depth);
        },
    };
    let mesh = match &mat.mesh {
        Some(mesh) => mesh,
        None => {
            return collect_children_flat(entity, node, nodes, uuid_map, data, tex_lookup, depth);
        },
    };
    let ghost whole = extract::subtree(nodes@, uuid_map@, entity, above, b);
    let ghost own = extract::with_part(b, *node);
    let ghost masked = extract::masks_of(nodes@, uuid_map@, *node, mat.masks@.len(), own);
    proof {
        lemma_masks_grow(nodes@, uuid_map@, *node, mat.masks@.len(), own);
        lemma_children_grow(nodes@, uuid_map@, entity, n, depth, masked.1);
        lemma_grown_fits(masked.1, whole.1);
        lemma_grown_fits(own, masked.1);
        lemma_rebased(b, *mesh, own);
    }

    let vertex_offset: u32 = data.verts.len() as u32;
    let vertex_count: u32 = mesh.vertex_buffer.len() as u32;
    append_points(&mut data.verts, &mesh.vertex_buffer);
    append_points(&mut data.uvs, &mesh.uv_buffer);

    let deform_start: u32 = data.deforms.len() as u32;
    match &node.deform {
        Some(deform) => append_points(&mut data.deforms, &deform.offsets),
        None => append_rest(&mut data.deforms, vertex_count),
    }

    let index_offset: u32 = data.indices.len() as u32;
    let index_count: u32 = mesh.index_buffer.len() as u32;
    append_indices(&mut data.indices, &mesh.index_buffer, vertex_offset);

    let textures = resolve_textures(mat, &mut data.textures, tex_lookup);
    assert(data.buffers() =~= own);
    let masks = collect_masks(node, nodes, uuid_map, data, tex_lookup);

    let part_data = InxPartData {
        entity: node.entity,
        uuid: node.uuid,
        name: node.name.clone(),
        // Indices already point into the whole buffer.
        vertex_offset: if index_count > 0 {
            0
        } else {
            vertex_offset
        },
        vertex_count,
        index_offset,
        index_count,
        deform_start,
        textures,
        tint: mat.tint,
        screen_tint: mat.screen_tint,
        emissive_strength: mat.emissive_strength,
        blend_mode: mat.blend_mode,
        mask_threshold: mat.mask_threshold,
        opacity: mat.opacity,
        transform: node.global_transform,
        origin: mesh.origin,
    };

    let unit = SortableNode::Part { data: part_data, masks, zsort: depth };
    let mut result: Vec<SortableNode> = Vec::new();
    result.push(unit);
    let ghost head = result@;
    // Children of a part join its level, so that they sort with it.
    let mut below = collect_children_flat(entity, node, nodes, uuid_map, data, tex_lookup, depth);
    let ghost tail = below@;
    result.append(&mut below);
    proof {
        assert(result@ =~= head + tail);
        assert(extract::units_of(result@) =~= extract::units_of(head) + extract::units_of(tail));
        assert(extract::units_of(head) =~= seq![extract::unit_of(unit)]);
    }
    result
}

/// Appends `n` entries without displacement.
fn append_rest(deforms: &mut Vec<[Scalar; 2]>, n: u32)
    ensures
        final(deforms)@ == old(deforms)@ + extract::rest(n as nat),
{
    let ghost before = deforms@;
    let mut i: u32 = 0;
    while i < n
        invariant
            i <= n,
            deforms@ == before + extract::rest(i as nat),
        decreases n - i,
    {
        deforms.push([Scalar { bits: 0 }, Scalar { bits: 0 }]);
        i = i + 1;
        assert(deforms@ =~= before + extract::rest(i as nat));
    }
}

fn collect_composite(
    entity: u64,
    node: &ExtractedNode,
    nodes: &NodeTable,
    uuid_map: &IdMap,
    data: &mut InxData,
    tex_lookup: &mut IdMap,
    above: Scalar,
) -> (r: Vec<SortableNode>)
    requires
        extract::acyclic(nodes@),
        nodes@.dom().contains(entity),
        nodes@[entity] == *node,
        node.node_type == InxNodeType::Composite,
        extract::indexed(old(data).textures@, old(tex_lookup)@),
        extract::subtree(nodes@, uuid_map@, entity, above, old(data).buffers()).1.fits(),
    ensures
        (extract::units_of(r@), final(data).buffers()) == extract::subtree(
            nodes@,
            uuid_map@,
            entity,
            above,
            old(data).buffers(),
        ),
        extract::indexed(final(data).textures@, final(tex_lookup)@),
        same_rest(*old(data), *final(data)),
    decreases extract::rank_of(nodes@)(entity), node.children@.len() + 1,
{
    let depth = above.add(node.zsort);
    // Children sort among themselves and never leave the composite.
    let children = collect_children_flat(entity, node, nodes, uuid_map, data, tex_lookup, depth);
    let one = Scalar { bits: 0x3f80_0000 };
    let zero = Scalar { bits: 0 };
    let name = node.name.clone();
    let header = match &node.material {
        Some(mat) => CompositeHeader {
            entity: node.entity,
            uuid: node.uuid,
            name,
            tint: mat.tint,
            screen_tint: mat.screen_tint,
            blend_mode: mat.blend_mode,
            opacity: mat.opacity,
            transform: node.global_transform,
        },
        None => CompositeHeader {
            entity: node.entity,
            uuid: node.uuid,
            name,
            tint: [one, one, one],
            screen_tint: [zero, zero, zero],
            blend_mode: BlendMode::Normal,
            opacity: one,
            transform: node.global_transform,
        },
    };
    let unit = SortableNode::Composite { header, children, zsort: depth };
    let mut result: Vec<SortableNode> = Vec::new();
    result.push(unit);
    assert(extract::units_of(result@) =~= seq![extract::unit_of(unit)]);
    result
}

/// Collects what an entity and all below it contribute.
pub fn collect_subtree(
    entity: u64,
    nodes: &NodeTable,
    uuid_map: &IdMap,
    data: &mut InxData,
    tex_lookup: &mut IdMap,
    above: Scalar,
) -> (r: Vec<SortableNode>)
    requires
        extract::acyclic(nodes@),
        extract::indexed(old(data).textures@, old(tex_lookup)@),
        extract::subtree(nodes@, uuid_map@, entity, above, old(data).buffers()).1.fits(),
    ensures
        (extract::units_of(r@), final(data).buffers()) == extract::subtree(
            nodes@,
            uuid_map@,
            entity,
            above,
            old(data).buffers(),
        ),
        extract::indexed(final(data).textures@, final(tex_lookup)@),
        same_rest(*old(data), *final(data)),
    decreases extract::rank_of(nodes@)(entity), nodes@[entity].children@.len() + 2,
{
    let none: Vec<SortableNode> = Vec::new();
    assert(extract::units_of(none@) =~= Seq::empty());
    match nodes.get(entity) {
        None => none,
        Some(node) => match node.node_type {
            InxNodeType::Part => collect_part(entity, node, nodes, uuid_map, data, tex_lookup, above),
            InxNodeType::Composite => collect_composite(
                entity,
                node,
                nodes,
                uuid_map,
                data,
                tex_lookup,
                above,
            ),
            // Drawn by the parts that it masks.
            InxNodeType::Mask => none,
            _ => {
                let depth = above.add(node.zsort);
                collect_children_flat(entity, node, nodes, uuid_map, data, tex_lookup, depth)
            },
        },
    }
}

} // verus!
