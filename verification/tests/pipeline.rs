use bevy_inochi2d::blend::BlendMode;
use bevy_inochi2d::id_map::IdMap;
use bevy_inochi2d::model::{
    InxDeform, InxMask, InxMaskMode, InxMaterial, InxMesh, InxNodeType,
};
use bevy_inochi2d::pipeline::collect::resolve_textures;
use bevy_inochi2d::pipeline::extract::{
    build_uuid_map_for_root, CompositeHeader, ExtractedNode, InxData, InxPartData, MaskHeader,
    MaskMode, NodeTable, RenderOrder, SortableNode, TEX_NONE,
};
use bevy_inochi2d::pipeline::framebuffers::{
    layers_need_resize, scene_needs_resize, texture_extent, SceneTarget,
};
use bevy_inochi2d::pipeline::node::{
    plan_passes, target_samples, PassTarget, RenderOp, MAX_COMPOSITE_DEPTH,
};
use bevy_inochi2d::pipeline::prepare::{
    bind_texture, needs_samples, pipeline_switches, textures_to_bind, vertex_buffer_count,
    CompositeUniform, InxUniform,
};
use bevy_inochi2d::pipeline::recipes::{
    bind_group_layouts, create_part_pipeline, create_stencil_pipeline, GroupLayout, InxPipeline,
    PipelineKind, StencilTest,
};
use bevy_inochi2d::pipeline::refresh::{
    build_data, is_drawn_in, needs_slow_path, root_layers, take_deform_range,
    update_dynamic_data, update_dynamic_data_light, LightNode, LightTable, RootState,
};
use bevy_inochi2d::pipeline::sequence::{flatten_to_commands, sort_nodes};
use bevy_inochi2d::pipeline::uniforms::{align_up, build_uniform_pool, pack_uniforms, slot_offsets};
use bevy_inochi2d::scalar::Scalar;

fn s(x: f32) -> Scalar {
    Scalar { bits: x.to_bits() }
}

fn f(x: Scalar) -> f32 {
    f32::from_bits(x.bits)
}

fn p(x: f32, y: f32) -> [Scalar; 2] {
    [s(x), s(y)]
}

fn zero3() -> [Scalar; 3] {
    [s(0.0), s(0.0), s(0.0)]
}

fn part(uuid: u32) -> InxPartData {
    InxPartData {
        entity: uuid as u64,
        uuid,
        name: format!("part {uuid}"),
        vertex_offset: 0,
        vertex_count: 0,
        index_offset: 0,
        index_count: 0,
        deform_start: 0,
        textures: [TEX_NONE; 3],
        tint: zero3(),
        screen_tint: zero3(),
        emissive_strength: s(0.0),
        blend_mode: BlendMode::Normal,
        mask_threshold: s(0.5),
        opacity: s(uuid as f32),
        transform: [s(0.0); 16],
        origin: p(0.0, 0.0),
    }
}

fn header(uuid: u32) -> CompositeHeader {
    CompositeHeader {
        entity: uuid as u64,
        uuid,
        name: format!("group {uuid}"),
        tint: zero3(),
        screen_tint: zero3(),
        blend_mode: BlendMode::Normal,
        opacity: s(0.5),
        transform: [s(0.0); 16],
    }
}

fn mask(uuid: u32) -> MaskHeader {
    MaskHeader {
        entity: 1,
        entity_source: uuid as u64,
        source_uuid: uuid,
        mode: MaskMode::Mask,
        threshold: s(0.25),
        name: format!("mask {uuid}"),
        vertex_offset: 0,
        vertex_count: 0,
        index_offset: 0,
        index_count: 0,
        tex_albedo: TEX_NONE,
        transform: [s(0.0); 16],
        origin: p(0.0, 0.0),
    }
}

fn square() -> InxMesh {
    InxMesh {
        vertex_buffer: vec![p(0.0, 0.0), p(1.0, 0.0), p(1.0, 1.0), p(0.0, 1.0)],
        uv_buffer: vec![p(0.0, 0.0), p(1.0, 0.0), p(1.0, 1.0), p(0.0, 1.0)],
        index_buffer: vec![0, 1, 2, 0, 2, 3],
        origin: p(0.0, 0.0),
        mask_contour_uv: None,
    }
}

fn node(entity: u64, kind: InxNodeType, zsort: f32, children: Vec<u64>) -> ExtractedNode {
    let material = match kind {
        InxNodeType::Part | InxNodeType::Mask => Some(InxMaterial {
            mesh: Some(square()),
            texture_albedo: Some(40 + entity),
            opacity: s(1.0),
            ..Default::default()
        }),
        InxNodeType::Composite => Some(InxMaterial { opacity: s(0.5), ..Default::default() }),
        _ => None,
    };
    ExtractedNode {
        entity,
        uuid: entity as u32,
        name: format!("node {entity}"),
        node_type: kind,
        zsort: s(zsort),
        material,
        deform: Some(InxDeform { offsets: vec![p(0.0, 0.0); 4] }),
        global_transform: [s(0.0); 16],
        children,
    }
}

fn names(commands: &Vec<RenderOrder>) -> Vec<String> {
    commands
        .iter()
        .map(|c| match c {
            RenderOrder::DrawPart(d) => format!("part {}", d.uuid),
            RenderOrder::BeginComposite(h) => format!("begin {}", h.uuid),
            RenderOrder::EndComposite => String::from("end"),
            RenderOrder::PushMask(m) => format!("mask {}", m.source_uuid),
            RenderOrder::PopMask => String::from("unmask"),
        })
        .collect()
}

#[test]
fn commands_name_themselves() {
    assert_eq!(RenderOrder::DrawPart(part(3)).name(), "part 3");
    assert!(RenderOrder::DrawPart(part(3)).is_part());
    assert!(RenderOrder::BeginComposite(header(3)).is_composite());
    assert!(!RenderOrder::EndComposite.is_part());
    let mut placed = part(3);
    placed.transform[14] = s(2.5);
    assert_eq!(f(RenderOrder::DrawPart(placed).z_sort()), 2.5);
    assert_eq!(f(RenderOrder::PopMask.z_sort()), 0.0);
}

#[test]
fn nodes_are_drawn_from_far_to_near() {
    let leaf = |uuid: u32, z: f32| SortableNode::Part {
        data: part(uuid),
        masks: if uuid == 2 { vec![mask(9)] } else { Vec::new() },
        zsort: s(z),
    };
    let nodes = vec![
        leaf(1, 0.5),
        SortableNode::Composite {
            header: header(7),
            children: vec![leaf(3, 0.0), leaf(4, 1.0)],
            zsort: s(2.0),
        },
        leaf(2, 1.0),
    ];
    let sorted = sort_nodes(nodes);
    let mut commands = Vec::new();
    flatten_to_commands(sorted, &mut commands);
    let got = names(&commands);
    assert_eq!(
        got,
        vec!["begin 7", "part 4", "part 3", "end", "mask 9", "part 2", "unmask", "part 1"]
    );
}

#[test]
fn textures_get_one_slot_each() {
    let mut textures = Vec::new();
    let mut lookup = IdMap::new();
    let mat = InxMaterial {
        texture_albedo: Some(5),
        texture_bumpmap: Some(6),
        ..Default::default()
    };
    let slots = resolve_textures(&mat, &mut textures, &mut lookup);
    assert_eq!(slots[0], 0);
    assert_eq!(slots[1], TEX_NONE);
    assert_eq!(slots[2], 1);
    assert_eq!(resolve_textures(&mat, &mut textures, &mut lookup), slots);
    assert_eq!(textures, vec![5, 6]);
}

fn tree() -> NodeTable {
    let mut masked = node(3, InxNodeType::Part, 1.0, vec![]);
    if let Some(m) = &mut masked.material {
        m.masks.push(InxMask { source_uuid: 4, mode: InxMaskMode::Dodge });
    }
    NodeTable::new()
        .insert(node(1, InxNodeType::Generic, 0.0, vec![2, 3, 4]))
        .insert(node(2, InxNodeType::Composite, 0.5, vec![5]))
        .insert(masked)
        .insert(node(4, InxNodeType::Mask, 0.0, vec![]))
        .insert(node(5, InxNodeType::Part, 0.0, vec![]))
}

#[test]
fn uuids_are_mapped_below_the_root() {
    let table = tree();
    assert_eq!(table.get(5).map(|n| n.uuid), Some(5));
    assert!(table.get(9).is_none());
    let map = build_uuid_map_for_root(2, &table);
    assert_eq!((map.get(5), map.get(2), map.get(3)), (Some(5), Some(2), None));
}

#[test]
fn a_puppet_is_extracted_into_buffers_and_commands() {
    let data = build_data(1, &tree(), 7, root_layers(Some(vec![6])));
    assert_eq!(data.structure_version, 7);
    let got = names(&data.commands);
    assert_eq!(got, vec!["mask 4", "part 3", "unmask", "begin 2", "part 5", "end"]);
    assert_eq!(data.verts.len(), data.uvs.len());
    assert_eq!(data.verts.len(), data.deforms.len());
    for c in &data.commands {
        if let RenderOrder::DrawPart(d) = c {
            assert_eq!((d.vertex_count, d.index_count), (4, 6));
            // Indices count from the start of the whole buffer.
            assert_eq!(d.vertex_offset, 0);
            let first = d.index_offset as usize;
            assert_eq!(data.indices[first + 1], data.indices[first] + 1);
            assert_eq!(data.indices[first] % 4, 0);
        }
    }
}

fn light(deform_offsets: Option<Vec<[Scalar; 2]>>) -> LightTable {
    LightTable::new().insert(LightNode {
        entity: 5,
        uuid: 5,
        transform: [s(3.0); 16],
        opacity: s(0.125),
        deform_offsets,
        tint: zero3(),
        screen_tint: zero3(),
        emissive_strength: s(0.0),
        blend_mode: BlendMode::Screen,
        mask_threshold: s(0.5),
    })
}

#[test]
fn a_view_draws_the_puppets_of_its_layers() {
    let data = build_data(1, &tree(), 7, root_layers(Some(vec![4, 1])));
    assert!(!is_drawn_in(&data, &root_layers(None)));
    assert!(is_drawn_in(&data, &vec![6]));
    assert!(!is_drawn_in(&data, &vec![8]));
    assert!(is_drawn_in(&data, &vec![0, 1]));
    assert!(!is_drawn_in(&data, &Vec::new()));
    let data = build_data(1, &tree(), 7, root_layers(None));
    assert!(is_drawn_in(&data, &root_layers(None)));
}

#[test]
fn a_light_node_without_material_is_plain() {
    let plain = LightNode::new(5, 6, [s(3.0); 16], None, None);
    assert_eq!((plain.entity, plain.uuid), (5, 6));
    assert_eq!((f(plain.opacity), f(plain.emissive_strength)), (1.0, 0.0));
    assert_eq!((f(plain.tint[1]), f(plain.screen_tint[1])), (1.0, 0.0));
    assert_eq!(f(plain.mask_threshold), 0.5);
    assert_eq!(plain.blend_mode, BlendMode::Normal);
    let mat = InxMaterial {
        opacity: s(0.25),
        blend_mode: BlendMode::Screen,
        ..Default::default()
    };
    let node = LightNode::new(5, 6, [s(3.0); 16], Some(&mat), Some(vec![p(1.0, 2.0)]));
    assert_eq!((f(node.opacity), f(node.mask_threshold)), (0.25, 0.0));
    assert_eq!(node.blend_mode, BlendMode::Screen);
    assert_eq!(node.deform_offsets.map(|d| d.len()), Some(1));
}

#[test]
fn only_changed_deforms_are_marked_and_sent() {
    let mut data = build_data(1, &tree(), 0, root_layers(None));
    data.deform_dirty = None;
    update_dynamic_data_light(&mut data, &light(None));
    assert_eq!(take_deform_range(&mut data), None);
    update_dynamic_data_light(&mut data, &light(Some(vec![p(1.0, 2.0); 4])));
    let (start, end) = take_deform_range(&mut data).unwrap();
    assert_eq!(end - start, 32);
    assert_eq!(take_deform_range(&mut data), None);
    let at = start as usize / 8;
    assert_eq!(f(data.deforms[at][1]), 2.0);
    // The whole update sends everything.
    update_dynamic_data(&mut data, &tree());
    let all = data.deforms.len() as u32 * 8;
    assert_eq!(take_deform_range(&mut data), Some((0, all)));
    assert_eq!(f(data.deforms[at][1]), 0.0);
}

#[test]
fn light_updates_reach_the_parts() {
    let mut data = build_data(1, &tree(), 0, root_layers(None));
    let light = light(None);
    assert!(light.get(5, 5).is_some());
    assert!(light.get(6, 6).is_none());
    update_dynamic_data_light(&mut data, &light);
    let found = data.commands.iter().any(|c| match c {
        RenderOrder::DrawPart(d) => d.uuid == 5 && f(d.opacity) == 0.125,
        _ => false,
    });
    assert!(found);
}

#[test]
fn a_new_structure_is_extracted_again() {
    let fresh = RootState { built: None, version: None };
    let same = RootState { built: Some(3), version: Some(3) };
    let stale = RootState { built: Some(3), version: Some(4) };
    assert!(fresh.needs_rebuild());
    assert!(!same.needs_rebuild());
    assert!(stale.needs_rebuild());
    assert_eq!(stale.current_version(), 4);
    assert_eq!(fresh.current_version(), 0);
    assert!(needs_slow_path(&vec![same, stale]));
    assert!(!needs_slow_path(&vec![same]));
}

#[test]
fn passes_follow_the_nesting() {
    let commands = vec![
        RenderOrder::DrawPart(part(1)),
        RenderOrder::DrawPart(part(2)),
        RenderOrder::BeginComposite(header(3)),
        RenderOrder::DrawPart(part(4)),
        RenderOrder::EndComposite,
        RenderOrder::PushMask(mask(5)),
        RenderOrder::DrawPart(part(6)),
        RenderOrder::PopMask,
    ];
    let ops = plan_passes(&commands, MAX_COMPOSITE_DEPTH);
    let parts: Vec<(PassTarget, usize, usize)> = ops
        .iter()
        .filter_map(|op| match op {
            RenderOp::Parts { target, start, end, .. } => Some((*target, *start, *end)),
            _ => None,
        })
        .collect();
    assert_eq!(
        parts,
        vec![(PassTarget::View, 0, 2), (PassTarget::Layer(0), 3, 4), (PassTarget::View, 6, 7)]
    );
    let masks = ops.iter().filter(|op| matches!(op, RenderOp::Mask { .. })).count();
    let blits = ops.iter().filter(|op| matches!(op, RenderOp::Blit { .. })).count();
    assert_eq!((masks, blits), (1, 1));
    assert_eq!(target_samples(PassTarget::View, 4), 4);
    assert_eq!(target_samples(PassTarget::Layer(0), 4), 1);
}

#[test]
fn nested_composites_keep_their_own_uniforms() {
    let mut a = header(1);
    a.opacity = s(0.25);
    let mut b = header(2);
    b.opacity = s(0.75);
    let commands = vec![
        RenderOrder::BeginComposite(a),
        RenderOrder::BeginComposite(b),
        RenderOrder::DrawPart(part(3)),
        RenderOrder::EndComposite,
        RenderOrder::EndComposite,
    ];
    let pool = build_uniform_pool(&commands, 100, 80, 64);
    let blits: Vec<(usize, f32)> = plan_passes(&commands, MAX_COMPOSITE_DEPTH)
        .iter()
        .filter_map(|op| match op {
            RenderOp::Blit { begin, slot, .. } => Some((*begin, f(pool.composites[*slot].opacity))),
            _ => None,
        })
        .collect();
    assert_eq!(blits, vec![(1, 0.75), (0, 0.25)]);
}

#[test]
fn composites_beyond_the_limit_draw_into_the_last_layer() {
    let commands = vec![
        RenderOrder::BeginComposite(header(1)),
        RenderOrder::BeginComposite(header(2)),
        RenderOrder::DrawPart(part(3)),
        RenderOrder::EndComposite,
        RenderOrder::DrawPart(part(4)),
        RenderOrder::EndComposite,
        RenderOrder::DrawPart(part(5)),
    ];
    let ops = plan_passes(&commands, 1);
    let targets: Vec<PassTarget> = ops
        .iter()
        .filter_map(|op| match op {
            RenderOp::Parts { target, .. } => Some(*target),
            _ => None,
        })
        .collect();
    assert_eq!(targets, vec![PassTarget::Layer(0), PassTarget::Layer(0), PassTarget::View]);
    let blits: Vec<usize> = ops
        .iter()
        .filter_map(|op| match op {
            RenderOp::Blit { begin, .. } => Some(*begin),
            _ => None,
        })
        .collect();
    assert_eq!(blits, vec![0]);
}

#[test]
fn a_layer_is_cleared_once() {
    let commands = vec![
        RenderOrder::BeginComposite(header(1)),
        RenderOrder::DrawPart(part(2)),
        RenderOrder::BeginComposite(header(3)),
        RenderOrder::DrawPart(part(4)),
        RenderOrder::EndComposite,
        RenderOrder::DrawPart(part(5)),
        RenderOrder::EndComposite,
    ];
    let clears: Vec<bool> = plan_passes(&commands, MAX_COMPOSITE_DEPTH)
        .iter()
        .filter_map(|op| match op {
            RenderOp::Parts { target: PassTarget::Layer(0), clear, .. } => Some(*clear),
            RenderOp::Blit { target: PassTarget::Layer(0), clear, .. } => Some(*clear),
            _ => None,
        })
        .collect();
    // The part of the outer group, the inner group, and the part after it.
    assert_eq!(clears, vec![true, false, false]);
}

#[test]
fn targets_are_resized_after_a_change() {
    assert_eq!(texture_extent(0, 5), (1, 5));
    assert!(layers_need_resize((4, 4), (5, 4)));
    assert!(!layers_need_resize((4, 4), (4, 4)));
    let t = SceneTarget { width: 4, height: 4, samples: 1 };
    assert!(scene_needs_resize(t, SceneTarget { samples: 4, ..t }));
    assert!(!scene_needs_resize(t, t));
}

#[test]
fn bind_groups_are_shared_between_puppets() {
    let mut known = IdMap::new();
    known.insert(2, 0);
    assert_eq!(textures_to_bind(&vec![1, 2, 3, 1], &known), vec![1, 3]);
    let list = vec![7, 8];
    assert_eq!(bind_texture(1, Some(&list)), Some(8));
    assert_eq!(bind_texture(2, Some(&list)), None);
    assert_eq!(bind_texture(TEX_NONE, Some(&list)), None);
    assert_eq!(bind_texture(0, None), None);
}

#[test]
fn pipelines_switch_with_the_blend_mode() {
    let modes = vec![BlendMode::Normal, BlendMode::Normal, BlendMode::Add, BlendMode::Normal];
    assert_eq!(pipeline_switches(&modes, &vec![true; 4]), vec![true, false, true, true]);
    assert_eq!(
        pipeline_switches(&modes, &vec![true, true, false, true]),
        vec![true, false, false, false]
    );
    assert_eq!((vertex_buffer_count(true), vertex_buffer_count(false)), (2, 3));
    assert!(needs_samples(&vec![1], 4));
    assert!(!needs_samples(&vec![1, 4], 4));
}

#[test]
fn pipelines_are_built_once_per_sample_count() {
    let (mut pipeline, first) = InxPipeline::from_world();
    assert_eq!(first.parts.len(), 19);
    assert_eq!(first.mask.kind, PipelineKind::Mask);
    assert!(pipeline.ensure_samples(first.mask.samples).is_none());
    let more = pipeline.ensure_samples(8).unwrap();
    assert_eq!(more.mask.samples, 8);
    assert!(pipeline.ensure_samples(8).is_none());
    let recipes = create_part_pipeline(false, 4);
    assert_eq!(recipes[2].0, BlendMode::Screen);
    assert_eq!(recipes[2].1.blend, BlendMode::Screen.blend_state());
    assert_eq!(recipes[2].1.buffers.len(), 3);
    let stencil = recipes[2].1.stencil.unwrap();
    assert_eq!((stencil.test, stencil.write_mask), (StencilTest::Equal, 0));
    assert!(create_part_pipeline(true, 4)[0].1.stencil.is_none());
    let masks = create_stencil_pipeline(4);
    assert!(!masks.writes_color);
    assert!(masks.stencil.unwrap().replaces);
    assert_eq!(
        bind_group_layouts(PipelineKind::Mask),
        vec![GroupLayout::View, GroupLayout::PartUniform, GroupLayout::Texture]
    );
}

#[test]
fn uniforms_lie_in_aligned_slots() {
    assert_eq!(align_up(1, 256), 256);
    assert_eq!(align_up(256, 256), 256);
    assert_eq!(align_up(257, 256), 512);
    assert_eq!(slot_offsets(3, 64), vec![0, 64, 128]);
    let commands = vec![
        RenderOrder::DrawPart(part(1)),
        RenderOrder::BeginComposite(header(2)),
        RenderOrder::DrawPart(part(3)),
        RenderOrder::EndComposite,
        RenderOrder::PushMask(mask(4)),
        RenderOrder::PopMask,
    ];
    let pool = build_uniform_pool(&commands, 100, 80, 64);
    assert_eq!(pool.part_offsets, vec![0, 128]);
    assert_eq!(pool.mask_offsets, vec![0]);
    assert_eq!(pool.composite_offsets.len(), pool.composites.len());
    assert_eq!(f(pool.parts[1].opacity), 3.0);
    assert_eq!(f(pool.masks[0].mask_threshold), 0.25);
    let bytes = pack_uniforms(&vec![Some(vec![1, 2]), None, Some(vec![3])], 3);
    assert_eq!(bytes, vec![1, 2, 0, 0, 0, 0, 3, 0, 0]);
}

#[test]
fn uniforms_hold_what_they_are_given() {
    let u = InxUniform::new(
        [s(1.0); 16],
        p(2.0, 3.0),
        zero3(),
        [s(4.0); 3],
        s(0.5),
        s(6.0),
        s(0.75),
    );
    assert_eq!((f(u.offset[1]), f(u.opacity), f(u.emissive_strength)), (3.0, 0.5, 6.0));
    assert_eq!((f(u.mask_threshold), f(u.screen_tint[0])), (0.75, 4.0));
    let c = CompositeUniform::new([s(1.0); 16], s(0.5), zero3(), [s(4.0); 3]);
    assert_eq!((f(c.opacity), f(c.screen_tint[2])), (0.5, 4.0));
}

#[test]
fn data_without_deforms_sends_nothing() {
    let mut data = InxData {
        verts: Vec::new(),
        uvs: Vec::new(),
        deforms: Vec::new(),
        deform_dirty: Some((0, 8)),
        indices: Vec::new(),
        commands: Vec::new(),
        textures: Vec::new(),
        structure_version: 0,
        layers: vec![1],
    };
    assert_eq!(take_deform_range(&mut data), None);
}
