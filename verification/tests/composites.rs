use bevy_inochi2d::blend::BlendMode;
use bevy_inochi2d::composite::{
    classify, force_composite_member_visibility, isolate_needs_rt_children, rt_format,
    upgrade_composite_mode_for_dst_reading_children, ComposeMode, CompositeRtPool, InxComposeHint,
    InxCompositeGroup, RtFormat, COMPOSITE_ONLY_LAYER, COMPOSITE_RT_BUCKETS, COMPOSITE_RT_MAX,
};
use bevy_inochi2d::composite_bbox::{update_composite_bbox, BoxedGroup, InxCompositeBbox, Rect};
use bevy_inochi2d::composite_frame::{
    acquire_composite_rts, extract_composites, keeps_view, prepare_composite_depth_textures,
    queue_composite_views, GroupView, MemberView,
};
use bevy_inochi2d::mask_clip::Placement;
use bevy_inochi2d::mesh2d::{
    attach_composite_quads, composite_quad_values, deformed_local, sync_composite_quads,
};
use bevy_inochi2d::model::{InxMaterial, InxMesh};
use bevy_inochi2d::scalar::Scalar;

fn s(x: f32) -> Scalar {
    Scalar { bits: x.to_bits() }
}

fn f(x: Scalar) -> f32 {
    f32::from_bits(x.bits)
}

fn p(x: f32, y: f32) -> [Scalar; 2] {
    [s(x), s(y)]
}

fn floats(x: [Scalar; 2]) -> [f32; 2] {
    [f(x[0]), f(x[1])]
}

fn group() -> InxCompositeGroup {
    InxCompositeGroup::default()
}

fn bbox(min: [f32; 2], max: [f32; 2]) -> InxCompositeBbox {
    InxCompositeBbox {
        rect: Rect { min: p(min[0], min[1]), max: p(max[0], max[1]) },
        rt: None,
        rt_side: 0,
    }
}

#[test]
fn identity_composite_is_grouping_regardless_of_hint() {
    let group = InxCompositeGroup::default();
    assert_eq!(classify(&group, None), ComposeMode::Grouping);
    assert_eq!(classify(&group, Some(InxComposeHint::ChildrenOverlap)), ComposeMode::Grouping);
    assert_eq!(classify(&group, Some(InxComposeHint::ChildrenDisjoint)), ComposeMode::Grouping);
}

#[test]
fn non_identity_needs_disjoint_proof_for_per_child_blend() {
    let group = InxCompositeGroup { blend_mode: BlendMode::Multiply, ..Default::default() };
    assert_eq!(classify(&group, None), ComposeMode::NeedsRt);
    assert_eq!(classify(&group, Some(InxComposeHint::ChildrenOverlap)), ComposeMode::NeedsRt);
    assert_eq!(
        classify(&group, Some(InxComposeHint::ChildrenDisjoint)),
        ComposeMode::PerChildBlend
    );
}

#[test]
fn non_identity_opacity_or_tint_also_classify() {
    let translucent = InxCompositeGroup { opacity: s(0.5), ..Default::default() };
    assert_eq!(
        classify(&translucent, Some(InxComposeHint::ChildrenDisjoint)),
        ComposeMode::PerChildBlend
    );
    let tinted = InxCompositeGroup { tint: [s(1.0), s(0.5), s(0.5)], ..Default::default() };
    assert_eq!(classify(&tinted, None), ComposeMode::NeedsRt);
}

#[test]
fn nested_composite_bbox_folds_into_outer() {
    let mesh = || InxMesh {
        vertex_buffer: vec![p(-10.0, -10.0), p(10.0, -10.0), p(10.0, 10.0), p(-10.0, 10.0)],
        uv_buffer: vec![p(0.0, 0.0); 4],
        index_buffer: vec![0, 1, 2, 0, 2, 3],
        origin: p(0.0, 0.0),
        mask_contour_uv: None,
    };
    let placed = |x: f32| {
        let material = InxMaterial { mesh: Some(mesh()), ..Default::default() };
        let place = Placement { x: p(1.0, 0.0), y: p(0.0, 1.0), z: p(0.0, 0.0), t: p(x, 0.0) };
        deformed_local(&material, None)
            .unwrap()
            .into_iter()
            .map(|v| place.transform_point(v))
            .collect::<Vec<_>>()
    };
    let outer = BoxedGroup { entity: 1, padding: s(5.0), outer: None };
    let inner = BoxedGroup { entity: 2, padding: s(2.0), outer: Some(1) };
    // Direct member of outer, far from the inner's region (300 units away), and a
    // direct member of inner only.
    let members = vec![(1, placed(300.0)), (2, placed(0.0))];

    let boxes = update_composite_bbox(&vec![outer, inner], &members);
    let outer_rect = boxes[0];
    let inner_rect = boxes[1];

    // Inner: member spans [-10,10] padded by 2 -> [-12,12].
    assert_eq!(floats(inner_rect.min), [-12.0, -12.0]);
    assert_eq!(floats(inner_rect.max), [12.0, 12.0]);
    // Outer must cover its own member (around x=300) and the padded inner box.
    assert!(f(outer_rect.min[0]) <= -12.0, "outer lost the nested rect: {outer_rect:?}");
    assert!(f(outer_rect.max[0]) >= 310.0, "outer lost its direct member: {outer_rect:?}");
    // Padding of both levels.
    assert_eq!(floats(outer_rect.min), [-17.0, -17.0]);
    assert_eq!(floats(outer_rect.max), [315.0, 17.0]);
}

#[test]
fn bucket_for_clamps_oversize_to_max() {
    let mut pool = CompositeRtPool::new();
    assert_eq!(pool.bucket_for(4096), COMPOSITE_RT_MAX);
    assert_eq!(pool.bucket_for(2049), COMPOSITE_RT_MAX);
    assert_eq!(pool.bucket_for(COMPOSITE_RT_MAX), COMPOSITE_RT_MAX);
    assert_eq!(pool.bucket_for(1), COMPOSITE_RT_BUCKETS[0]);
}

#[test]
fn every_bucket_holds_the_sides_up_to_it() {
    let mut pool = CompositeRtPool::new();
    assert_eq!(pool.bucket_for(64), 64);
    assert_eq!(pool.bucket_for(65), 128);
    assert_eq!(pool.bucket_for(1025), 2048);
    assert!(!pool.warned_oversize());
    assert_eq!(pool.bucket_for(3000), 2048);
    assert!(pool.warned_oversize());
}

#[test]
fn default_group_is_the_identity() {
    let g = group();
    assert_eq!(g.blend_mode, BlendMode::Normal);
    assert_eq!(f(g.opacity), 1.0);
    assert_eq!(f(g.mask_threshold), 0.5);
    assert_eq!(f(g.padding), 8.0);
    assert_eq!(f(g.zsort), 0.0);
    assert_eq!(f(g.screen_tint[1]), 0.0);
    assert_eq!(f(g.tint[2]), 1.0);
}

#[test]
fn classification_has_a_tolerance() {
    let mut g = group();
    g.opacity = s(1.0 - 5.0e-7);
    assert_eq!(classify(&g, None), ComposeMode::Grouping);
    g.opacity = s(1.0 - 1.0e-5);
    assert_eq!(classify(&g, None), ComposeMode::NeedsRt);
    g.opacity = s(1.0);
    g.screen_tint = [s(0.0), s(0.25), s(0.0)];
    assert_eq!(classify(&g, None), ComposeMode::NeedsRt);
}

#[test]
fn children_that_read_the_destination_need_a_target() {
    let members = vec![(4, BlendMode::Normal), (4, BlendMode::ClipToLower), (5, BlendMode::Add)];
    let up = |g, mode| upgrade_composite_mode_for_dst_reading_children(g, mode, &members);
    assert_eq!(up(4, ComposeMode::Grouping), ComposeMode::NeedsRt);
    assert_eq!(up(5, ComposeMode::Grouping), ComposeMode::Grouping);
    assert_eq!(up(5, ComposeMode::PerChildBlend), ComposeMode::PerChildBlend);
    let slice = vec![(1, BlendMode::SliceFromLower)];
    assert_eq!(
        upgrade_composite_mode_for_dst_reading_children(1, ComposeMode::PerChildBlend, &slice),
        ComposeMode::NeedsRt
    );
}

#[test]
fn only_members_of_targets_are_isolated_and_kept_visible() {
    assert_eq!(COMPOSITE_ONLY_LAYER, 31);
    assert!(isolate_needs_rt_children(Some(ComposeMode::NeedsRt), false));
    assert!(!isolate_needs_rt_children(Some(ComposeMode::NeedsRt), true));
    assert!(!isolate_needs_rt_children(Some(ComposeMode::Grouping), false));
    assert!(!isolate_needs_rt_children(None, false));
    assert!(force_composite_member_visibility(Some((ComposeMode::NeedsRt, true))));
    assert!(!force_composite_member_visibility(Some((ComposeMode::NeedsRt, false))));
    assert!(!force_composite_member_visibility(Some((ComposeMode::PerChildBlend, true))));
    assert!(!force_composite_member_visibility(None));
}

#[test]
fn pool_hands_out_each_target_once_and_takes_it_back() {
    let mut pool = CompositeRtPool::new();
    assert_eq!(pool.acquire(128, 7), (7, true));
    assert_eq!(pool.acquire(128, 8), (8, true));
    pool.release_frame();
    let (first, made) = pool.acquire(128, 9);
    assert!(!made);
    let (second, made) = pool.acquire(128, 9);
    assert!(!made);
    assert!(first != second);
    assert!(first == 7 || first == 8);
    assert!(second == 7 || second == 8);
    // Another size has targets of its own.
    assert_eq!(pool.acquire(256, 9), (9, true));
}

#[test]
fn changing_the_color_space_drops_every_target() {
    let mut pool = CompositeRtPool::new();
    assert_eq!(pool.format(), rt_format(false));
    pool.acquire(64, 1);
    pool.acquire(64, 2);
    pool.release_frame();
    pool.acquire(64, 3);
    pool.set_srgb_compositing(true);
    assert_eq!(pool.format(), RtFormat::Rgba8Unorm);
    assert_eq!(pool.acquire(64, 10), (10, true));
    pool.release_frame();
    assert_eq!(pool.acquire(64, 11), (10, false));
    assert_eq!(pool.acquire(64, 11), (11, true));
    // The same setting again changes nothing.
    pool.release_frame();
    pool.set_srgb_compositing(true);
    assert!(!pool.acquire(64, 12).1);
}

#[test]
fn target_format_follows_the_color_space() {
    assert_eq!(rt_format(false), RtFormat::Rgba8UnormSrgb);
    assert_eq!(rt_format(true), RtFormat::Rgba8Unorm);
}

#[test]
fn box_of_a_group_without_members_is_empty() {
    let lonely = BoxedGroup { entity: 3, padding: s(8.0), outer: None };
    let boxes = update_composite_bbox(&vec![lonely], &Vec::new());
    assert_eq!(floats(boxes[0].min), [0.0, 0.0]);
    assert_eq!(floats(boxes[0].max), [0.0, 0.0]);
    assert_eq!(floats(Rect::empty().size()), [0.0, 0.0]);
}

#[test]
fn boxes_hold_their_members_with_padding() {
    let g = BoxedGroup { entity: 3, padding: s(1.5), outer: None };
    let members = vec![(3, vec![p(1.0, 2.0), p(-4.0, 6.0)]), (3, vec![p(0.0, 9.0)])];
    let r = update_composite_bbox(&vec![g], &members)[0];
    assert_eq!(floats(r.min), [-5.5, 0.5]);
    assert_eq!(floats(r.max), [2.5, 10.5]);
    assert_eq!(floats(r.size()), [8.0, 10.0]);
}

#[test]
fn deep_nesting_reaches_the_outermost_box() {
    // Listed outermost first, so that the boxes have to travel up twice.
    let groups = vec![
        BoxedGroup { entity: 1, padding: s(1.0), outer: None },
        BoxedGroup { entity: 2, padding: s(1.0), outer: Some(1) },
        BoxedGroup { entity: 3, padding: s(1.0), outer: Some(2) },
    ];
    let members = vec![(3, vec![p(0.0, 0.0)])];
    let r = update_composite_bbox(&groups, &members);
    assert_eq!(floats(r[2].max), [1.0, 1.0]);
    assert_eq!(floats(r[1].max), [2.0, 2.0]);
    assert_eq!(floats(r[0].max), [3.0, 3.0]);
}

#[test]
fn targets_are_acquired_for_groups_that_need_one() {
    let mut pool = CompositeRtPool::new();
    let mut groups = vec![
        (ComposeMode::NeedsRt, bbox([0.0, 0.0], [100.0, 20.5])),
        (ComposeMode::Grouping, bbox([0.0, 0.0], [100.0, 20.5])),
        (ComposeMode::NeedsRt, bbox([0.0, 0.0], [0.0, 0.0])),
    ];
    let made = acquire_composite_rts(&mut pool, false, &mut groups, 50);
    assert_eq!(groups[0].1.rt, Some(50));
    assert_eq!(groups[0].1.rt_side, 128);
    assert_eq!(groups[1].1.rt, None);
    assert_eq!(groups[2].1.rt, None);
    assert_eq!(made, vec![(50, 128)]);
    // The next frame uses the target again.
    let made = acquire_composite_rts(&mut pool, false, &mut groups, 51);
    assert_eq!(made, Vec::new());
    assert_eq!(groups[0].1.rt, Some(50));
}

fn views() -> (Vec<GroupView>, Vec<MemberView>) {
    let mut outer_box = bbox([-1.0, -1.0], [9.0, 3.0]);
    outer_box.rt = Some(70);
    outer_box.rt_side = 64;
    let mut inner_box = bbox([0.0, 0.0], [2.0, 2.0]);
    inner_box.rt = Some(71);
    inner_box.rt_side = 128;
    let groups = vec![
        GroupView {
            entity: 1,
            group: group(),
            mode: ComposeMode::NeedsRt,
            bbox: outer_box,
            outer: None,
        },
        GroupView {
            entity: 2,
            group: group(),
            mode: ComposeMode::NeedsRt,
            bbox: inner_box,
            outer: Some(1),
        },
        GroupView {
            entity: 3,
            group: group(),
            mode: ComposeMode::Grouping,
            bbox: bbox([0.0, 0.0], [2.0, 2.0]),
            outer: None,
        },
    ];
    let members = vec![
        MemberView { entity: 10, render: Some(100), group: 2, z: s(2.0) },
        MemberView { entity: 11, render: None, group: 2, z: s(1.0) },
        MemberView { entity: 12, render: Some(102), group: 1, z: s(0.0) },
    ];
    (groups, members)
}

#[test]
fn inner_composites_are_drawn_before_outer_ones() {
    let (groups, members) = views();
    let extracted = extract_composites(&groups, &members);
    assert_eq!(extracted.len(), 2);
    assert_eq!(extracted[0].group_entity, 2);
    assert_eq!(extracted[1].group_entity, 1);
    assert!(extracted[0].depth > extracted[1].depth);
    // Children from back to front.
    assert_eq!(extracted[0].children, vec![(None, 11), (Some(100), 10)]);
    assert_eq!(extracted[1].children, vec![(Some(102), 12)]);
    assert_eq!(extracted[0].rt, Some(71));
    assert_eq!(extracted[0].rt_side, 128);
}

#[test]
fn every_target_gets_a_view_of_its_box() {
    let (groups, members) = views();
    let extracted = extract_composites(&groups, &members);
    let queued = queue_composite_views(&extracted);
    assert_eq!(queued.len(), 2);
    let outer = queued.iter().find(|v| v.group == 1).unwrap();
    assert_eq!(floats(outer.center), [4.0, 1.0]);
    assert_eq!(outer.rt_side, 64);
    assert_eq!(outer.entities, vec![(Some(102), 12)]);
    assert!(keeps_view(1, &queued));
    assert!(keeps_view(2, &queued));
    assert!(!keeps_view(3, &queued));
}

#[test]
fn depth_textures_are_made_once_per_side() {
    let (groups, members) = views();
    let extracted = extract_composites(&groups, &members);
    let made = prepare_composite_depth_textures(&vec![64], &extracted);
    assert_eq!(made, vec![128]);
    let made = prepare_composite_depth_textures(&Vec::new(), &extracted);
    assert_eq!(made.len(), 2);
    assert!(made.contains(&64) && made.contains(&128));
}

#[test]
fn composite_quads_cover_their_box() {
    let q = composite_quad_values();
    assert_eq!(q.composite, 1);
    assert_eq!(f(q.opacity), 1.0);
    let mut b = bbox([-1.0, 2.0], [5.0, 4.0]);
    b.rt = Some(1);
    b.rt_side = 64;
    let (center, size) = sync_composite_quads(&b).unwrap();
    assert_eq!(floats(center), [2.0, 3.0]);
    assert_eq!(floats(size), [6.0, 2.0]);
    assert!(sync_composite_quads(&bbox([0.0, 0.0], [0.0, 0.0])).is_none());
}

#[test]
fn one_quad_per_group_that_needs_a_target() {
    assert!(attach_composite_quads(4, ComposeMode::NeedsRt, &vec![1, 2]));
    assert!(!attach_composite_quads(2, ComposeMode::NeedsRt, &vec![1, 2]));
    assert!(!attach_composite_quads(4, ComposeMode::Grouping, &vec![1, 2]));
}
