use bevy_inochi2d::blend::BlendMode;
use bevy_inochi2d::composite::InxComposeHint;
use bevy_inochi2d::inr::{
    BufferView, InrAnimation, InrBinding, InrComposite, InrDoc, InrError, InrLane, InrMask,
    InrMesh, InrModel, InrNode, InrParam, InrPart, InrPhysics, Meta, Physics, TextureDesc, MAGIC,
    VERSION,
};
use bevy_inochi2d::file_doc::document;
use bevy_inochi2d::inr_loader::{
    blend_mode, convert, convert_animation, convert_masks, convert_mesh, convert_param,
    interpolation, merge_mode, node_type, param_name, tex_handle, InrLoader,
};
use bevy_inochi2d::inr_names::{
    InrBindingKind, InrBindingTarget, InrBlendMode, InrColorSpace, InrInterpolation, InrMapMode,
    InrMaskMode, InrMergeMode, InrNodeKind, InrPhysicsModel, InrTextureFormat,
};
use bevy_inochi2d::inr_nodes::{child_lists, has_root, is_pre_ordered};
use bevy_inochi2d::loader::InxLoader;
use bevy_inochi2d::model::{
    InxBindingValues, InxInterpolation, InxMaskMode, InxMergeMode, InxNodeType, InxParamName,
    PhysicsMapMode, PhysicsModel,
};
use bevy_inochi2d::scalar::Scalar;
use bevy_inochi2d::shapes::{is_presentable, ZERO_LIMIT};

fn s(x: f32) -> Scalar {
    Scalar { bits: x.to_bits() }
}

fn f(x: Scalar) -> f32 {
    f32::from_bits(x.bits)
}

fn floats(v: [Scalar; 2]) -> [f32; 2] {
    [f(v[0]), f(v[1])]
}

fn zero3() -> [Scalar; 3] {
    [s(0.0), s(0.0), s(0.0)]
}

fn node(name: &str, uuid: u32, parent: Option<u32>, kind: InrNodeKind) -> InrNode {
    InrNode {
        name: String::from(name),
        uuid,
        parent,
        kind,
        enabled: true,
        zsort: s(0.5),
        lock_to_root: false,
        translation: [s(1.0), s(2.0), s(3.0)],
        rotation: zero3(),
        scale: [s(2.0), s(4.0)],
        mesh: None,
        part: None,
        composite: None,
        physics: None,
        mesh_group_dynamic: false,
    }
}

fn part(masks: Vec<InrMask>) -> InrPart {
    InrPart {
        textures: [0, -1, 7],
        blend_mode: InrBlendMode::Multiply,
        tint: [s(1.0), s(1.0), s(1.0)],
        screen_tint: zero3(),
        opacity: s(0.75),
        emission_strength: s(2.0),
        mask_threshold: s(0.5),
        masks,
    }
}

fn doc() -> InrDoc {
    InrDoc {
        meta: Meta::default(),
        physics: Physics { pixels_per_meter: s(1000.0), gravity: s(9.8) },
        buffer_views: vec![
            BufferView { offset: 0, length: 24 },
            BufferView { offset: 24, length: 12 },
            BufferView { offset: 36, length: 4 },
            BufferView { offset: 1, length: 3 },
            BufferView { offset: 38, length: 4 },
        ],
        textures: vec![TextureDesc {
            width: 1,
            height: 1,
            format: InrTextureFormat::Rgba8,
            color_space: InrColorSpace::Srgb,
            premultiplied: false,
            view: 2,
        }],
        nodes: vec![node("root", 10, None, InrNodeKind::Node)],
        params: Vec::new(),
        animations: Vec::new(),
        mask_contours: Vec::new(),
    }
}

fn blob() -> Vec<u8> {
    let mut b = Vec::new();
    for x in [1.0f32, 2.0, 3.0, 4.0, 5.0, 6.0] {
        b.extend_from_slice(&x.to_le_bytes());
    }
    for i in [0u32, 2, 1] {
        b.extend_from_slice(&i.to_le_bytes());
    }
    b.extend_from_slice(&[9, 8, 7, 255]);
    b
}

fn model() -> InrModel {
    InrModel { doc: doc(), bin: blob() }
}

fn container(json: &[u8], bin: &[u8]) -> Vec<u8> {
    let mut b = Vec::new();
    b.extend_from_slice(&MAGIC);
    b.extend_from_slice(&VERSION.to_le_bytes());
    b.extend_from_slice(&(json.len() as u32).to_le_bytes());
    b.extend_from_slice(&(bin.len() as u32).to_le_bytes());
    b.extend_from_slice(json);
    b.extend_from_slice(bin);
    b
}

#[test]
fn a_container_reads_back() {
    assert_eq!(&MAGIC, b"INR1");
    let bytes = container(b"{}  ", &[1, 2, 3]);
    let mut seen = Vec::new();
    let model = InrModel::from_bytes(&bytes, |json: &[u8]| {
        seen.extend_from_slice(json);
        Ok(doc())
    })
    .unwrap();
    assert_eq!(seen, b"{}  ".to_vec());
    assert_eq!(model.bin, vec![1, 2, 3]);
    // What follows the blob is ignored.
    let mut longer = bytes;
    longer.push(77);
    let model = InrModel::from_bytes(&longer, |_: &[u8]| Ok(doc())).unwrap();
    assert_eq!(model.bin, vec![1, 2, 3]);
}

#[test]
fn broken_containers_are_refused() {
    let read = |b: &[u8]| InrModel::from_bytes(b, |_: &[u8]| Ok(doc()));
    let good = container(b"{}", &[1, 2, 3]);
    assert!(matches!(read(&good[..15]), Err(InrError::Truncated)));
    assert!(matches!(read(&good[..20]), Err(InrError::Truncated)));
    let mut bad = good.clone();
    bad[0] = b'X';
    assert!(matches!(read(&bad), Err(InrError::BadMagic)));
    let mut newer = good.clone();
    newer[4] = 2;
    assert!(matches!(read(&newer), Err(InrError::UnsupportedVersion(2))));
    let mut huge = good.clone();
    huge[11] = 0xff;
    assert!(matches!(read(&huge), Err(InrError::Truncated)));
    let failed = InrModel::from_bytes(&good, |_: &[u8]| Err(String::from("no json")));
    assert!(matches!(failed, Err(InrError::Json(text)) if text == "no json"));
}

fn authored(json: &str) -> Vec<u8> {
    let mut bytes = b"TRNSRTS\0".to_vec();
    bytes.extend_from_slice(&(json.len() as u32).to_be_bytes());
    bytes.extend_from_slice(json.as_bytes());
    bytes.extend_from_slice(b"TEX_SECT");
    bytes.extend_from_slice(&0u32.to_be_bytes());
    bytes
}

fn puppet_json(params: &str, verts: &str) -> String {
    let part = format!(
        "{{\"uuid\":2,\"name\":\"eye\",\"type\":\"Part\",\"mesh\":{{\"verts\":[{verts}],\"uvs\":[0,0,1,0,0,1],\"indices\":[0,1,2],\"origin\":[0,0.5]}},\"textures\":[],\"children\":[]}}"
    );
    format!(
        "{{\"meta\":{{\"name\":\"Midori\"}},\"physics\":{{\"gravity\":9.5}},\"nodes\":{{\"uuid\":1,\"name\":\"root\",\"type\":\"Node\",\"zsort\":0.25,\"transform\":{{\"trans\":[1,2,3],\"rot\":[0,0,0.5],\"scale\":[1e39,2]}},\"children\":[{part}]}},\"param\":[{params}]}}"
    )
}

fn param_json(name: &str, values: &str) -> String {
    format!(
        "{{\"uuid\":7,\"name\":\"tilt\",\"is_vec2\":false,\"min\":[-1,0],\"max\":[1,0],\"defaults\":[0.5,0],\"axis_points\":[[0,1],[0]],\"merge_mode\":\"Multiply\",\"bindings\":[{{\"node\":2,\"param_name\":\"{name}\",\"values\":{values},\"isSet\":[[true],[false]],\"interpolate_mode\":\"Nearest\"}}]}}"
    )
}

#[test]
fn an_authored_puppet_becomes_a_model() {
    let json = puppet_json(&param_json("transform.t.x", "[[1],[2]]"), "0.5,1.5,2,0,0,2");
    let model = InxLoader.load(&authored(&json)).unwrap();
    assert_eq!(model.doc.meta.name.as_deref(), Some("Midori"));
    assert_eq!(f(model.doc.physics.gravity), 9.5);
    let nodes = &model.doc.nodes;
    assert_eq!((nodes[0].uuid, nodes[0].name.as_str(), nodes[0].parent), (1, "root", None));
    assert_eq!((nodes[1].uuid, nodes[1].name.as_str(), nodes[1].parent), (2, "eye", Some(0)));
    assert_eq!((nodes[0].kind, nodes[1].kind), (InrNodeKind::Node, InrNodeKind::Part));
    assert_eq!((f(nodes[0].zsort), f(nodes[0].translation[1])), (0.25, 2.0));
    assert_eq!((f(nodes[0].rotation[2]), f(nodes[0].scale[1])), (0.5, 2.0));
    // A number beyond the range of a single is infinite.
    assert_eq!(f(nodes[0].scale[0]), f32::INFINITY);
    let mesh = nodes[1].mesh.unwrap();
    assert_eq!((mesh.vertex_count, f(mesh.origin[1])), (3, 0.5));
    assert_eq!(nodes[1].part.as_ref().unwrap().textures, [-1, -1, -1]);
    let param = &model.doc.params[0];
    assert_eq!((param.uuid, param.name.as_str(), param.merge_mode), (7, "tilt", InrMergeMode::Multiplicative));
    assert_eq!((f(param.min[0]), f(param.max[0]), f(param.defaults[0])), (-1.0, 1.0, 0.5));
    assert_eq!(f(param.axis_points[0][1]), 1.0);
    let binding = &param.bindings[0];
    assert_eq!((binding.node, binding.target), (1, InrBindingTarget::TranslateX));
    assert_eq!((binding.interpolation, binding.kind), (InrInterpolation::Nearest, InrBindingKind::Scalar));
    assert_eq!(binding.is_set, vec![true, false]);
    let values: Vec<f32> = model.view_f32(binding.view).unwrap().into_iter().map(f).collect();
    assert_eq!(values, vec![1.0, 2.0]);
    let corners: Vec<f32> = model.view_f32(mesh.positions).unwrap().into_iter().map(f).collect();
    assert_eq!(corners, vec![0.5, 1.5, 2.0, 0.0, 0.0, 2.0]);
    assert!(convert(&model).is_ok());
}

#[test]
fn a_document_of_the_parser_is_taken_over() {
    let text = "{\"asset\":{\"generator\":\"g\",\"version\":1},\"meta\":{},\"physics\":{\"pixels_per_meter\":2.0,\"gravity\":1.0},\"buffer_views\":[{\"offset\":4,\"length\":8}],\"nodes\":[{\"name\":\"group\",\"uuid\":4,\"kind\":\"composite\",\"enabled\":false,\"zsort\":0.0,\"translation\":[0,0,0],\"rotation\":[0,0,0],\"scale\":[1,1],\"composite\":{\"blend_mode\":\"screen\",\"tint\":[1,1,0.5],\"screen_tint\":[0,0,0.25],\"opacity\":0.75,\"mask_threshold\":0.5,\"masks\":[{\"node\":0,\"mode\":\"dodge\"}],\"compose_hint\":\"children_overlap\"}},{\"name\":\"hair\",\"uuid\":5,\"parent\":0,\"kind\":\"simplephysics\",\"enabled\":true,\"zsort\":0.0,\"translation\":[0,0,0],\"rotation\":[0,0,0],\"scale\":[1,1],\"physics\":{\"param\":-1,\"model\":\"spring_pendulum\",\"map_mode\":\"yx\",\"gravity\":1.5,\"length\":2.5,\"frequency\":3.5,\"angle_damping\":4.5,\"length_damping\":5.5,\"output_scale\":[6.5,7.5],\"local_only\":true}}],\"animations\":[{\"name\":\"wave\",\"timestep\":0.5,\"length\":9,\"lead_in\":1,\"lead_out\":2,\"lanes\":[{\"param\":0,\"target\":1,\"interpolation\":\"cubic\",\"merge_mode\":\"forced\",\"keyframes\":[[0,1.5,0.5]]}]}],\"mask_contours\":{\"9\":[[[0,0],[1,0],[0,1]]],\"3\":[]},\"textures\":[{\"width\":2,\"height\":3,\"format\":\"bc7\",\"color_space\":\"linear\",\"premultiplied\":true,\"view\":0}]}";
    let file: inochi2d_parser::inr::InrDoc = serde_json::from_str(text).unwrap();
    let d = document(&file);
    assert_eq!((d.buffer_views[0].offset, d.buffer_views[0].length), (4, 8));
    let t = &d.textures[0];
    assert_eq!((t.width, t.height, t.format), (2, 3, InrTextureFormat::Bc7));
    assert_eq!((t.color_space, t.premultiplied, t.view), (InrColorSpace::Linear, true, 0));
    let c = d.nodes[0].composite.as_ref().unwrap();
    assert_eq!((c.blend_mode, f(c.tint[2]), f(c.screen_tint[2])), (InrBlendMode::Screen, 0.5, 0.25));
    assert_eq!((f(c.opacity), f(c.mask_threshold)), (0.75, 0.5));
    assert_eq!((c.masks[0].node, c.masks[0].mode), (0, InrMaskMode::Dodge));
    assert_eq!(c.compose_hint, Some(InxComposeHint::ChildrenOverlap));
    assert!(c.propagate_meshgroup && !d.nodes[0].enabled);
    let p = d.nodes[1].physics.unwrap();
    assert_eq!((p.param, p.model, p.map_mode), (-1, InrPhysicsModel::SpringPendulum, InrMapMode::Yx));
    let numbers = [p.gravity, p.length, p.frequency, p.angle_damping, p.length_damping];
    assert_eq!(numbers.map(f), [1.5, 2.5, 3.5, 4.5, 5.5]);
    assert_eq!((f(p.output_scale[0]), f(p.output_scale[1]), p.local_only), (6.5, 7.5, true));
    let a = &d.animations[0];
    assert_eq!((a.name.as_str(), f(a.timestep), a.length, f(a.weight)), ("wave", 0.5, 9, 1.0));
    assert_eq!((a.lead_in, a.lead_out, a.lanes[0].target), (1, 2, 1));
    assert_eq!(a.lanes[0].keyframes[0].map(f), [0.0, 1.5, 0.5]);
    let ids: Vec<u32> = d.mask_contours.iter().map(|c| c.0).collect();
    assert_eq!(ids, vec![3, 9]);
    assert_eq!(f(d.mask_contours[1].1[0][2][1]), 1.0);
}

#[test]
fn what_is_no_puppet_is_refused() {
    let refused = |bytes: &[u8]| matches!(InxLoader.load(bytes), Err(InrError::Authored(_)));
    assert!(refused(b"INR1"));
    assert!(refused(&authored("{}")));
    assert!(refused(&authored("not json")));
    let mut other = authored("{\"meta\":{},\"physics\":{},\"nodes\":{}}");
    assert!(InxLoader.load(&other).is_ok());
    other[0] = b'X';
    assert!(refused(&other));
    other[0] = b'T';
    other.truncate(20);
    assert!(refused(&other));
}

#[test]
fn puppets_out_of_shape_are_refused() {
    let fits = |name: &str, values: &str, verts: &str| {
        let bytes = authored(&puppet_json(&param_json(name, values), verts));
        assert_eq!(is_presentable(&bytes), InxLoader.load(&bytes).is_ok());
        is_presentable(&bytes)
    };
    let mesh = "0,0,1,0,0,1";
    assert!(fits("transform.t.x", "[[1,2],[3,4]]", mesh));
    assert!(!fits("transform.t.x", "[[1,2],[3]]", mesh));
    assert!(!fits("opacity", "[[1],[null]]", mesh));
    assert!(!fits("transform.r.z", "[[]]", mesh));
    assert!(fits("transform.r.z", "[]", mesh));
    // What an unknown target takes is not read.
    assert!(fits("color", "[[1,2],[3]]", mesh));
    assert!(fits("deform", "[[[[1,2],[3,4],[5,6]]],[[[1,2],[3,4],[5,6]]]]", mesh));
    assert!(!fits("deform", "[[[[1,2],[3,4]]],[[[1,2]]]]", mesh));
    assert!(!fits("deform", "[]", "4"));
    assert!(fits("deform", "[]", ""));
    let zeros = "0".repeat(ZERO_LIMIT);
    assert!(!fits("deform", "[]", &format!("0.{zeros}1,0")));
    // The data of a texture is no text; what follows the textures is.
    let mut bytes = authored(&puppet_json(&param_json("deform", "[]"), mesh));
    let count = bytes.len() - 1;
    bytes[count] = 1;
    bytes.extend((zeros.len() as u32).to_be_bytes());
    bytes.push(1);
    bytes.extend(zeros.as_bytes());
    assert!(is_presentable(&bytes));
    bytes.extend(zeros.as_bytes());
    assert!(!is_presentable(&bytes));
    assert!(InxLoader.load(&bytes).is_err());
}

#[test]
fn views_are_cut_out_of_the_blob() {
    let m = model();
    assert_eq!(m.view_bytes(2).unwrap(), &[9, 8, 7, 255]);
    assert_eq!(m.view_u32(1).unwrap(), vec![0, 2, 1]);
    let numbers: Vec<f32> = m.view_f32(0).unwrap().into_iter().map(f).collect();
    assert_eq!(numbers, vec![1.0, 2.0, 3.0, 4.0, 5.0, 6.0]);
    assert!(matches!(m.view_bytes(9), Err(InrError::BadView(9))));
    assert!(matches!(m.view_bytes(4), Err(InrError::BadView(4))));
    assert!(matches!(m.view_u32(3), Err(InrError::BadView(3))));
    assert!(matches!(m.view_f32(3), Err(InrError::BadView(3))));
}

#[test]
fn meshes_flip_their_y_axis() {
    let m = model();
    let mesh = InrMesh { vertex_count: 8, positions: 0, uvs: 0, indices: 1, origin: [s(0.5), s(1.5)] };
    let made = convert_mesh(&m, &mesh).unwrap();
    let points: Vec<[f32; 2]> = made.vertex_buffer.iter().map(|v| floats(*v)).collect();
    assert_eq!(points, vec![[1.0, -2.0], [3.0, -4.0], [5.0, -6.0]]);
    let uvs: Vec<[f32; 2]> = made.uv_buffer.iter().map(|v| floats(*v)).collect();
    assert_eq!(uvs, vec![[1.0, 2.0], [3.0, 4.0], [5.0, 6.0]]);
    assert_eq!(made.index_buffer, vec![0, 2, 1]);
    assert_eq!(floats(made.origin), [0.5, 1.5]);
    assert!(made.mask_contour_uv.is_none());
    let bad = InrMesh { vertex_count: 8, positions: 0, uvs: 3, indices: 1, origin: [s(0.0), s(0.0)] };
    assert!(matches!(convert_mesh(&m, &bad), Err(InrError::BadView(3))));
}

#[test]
fn masks_without_a_node_are_left_out() {
    let masks = vec![
        InrMask { node: 0, mode: InrMaskMode::Dodge },
        InrMask { node: 5, mode: InrMaskMode::Mask },
        InrMask { node: 0, mode: InrMaskMode::Mask },
    ];
    let made = convert_masks(&doc(), &masks);
    assert_eq!(made.len(), 2);
    assert_eq!((made[0].source_uuid, made[0].mode), (10, InxMaskMode::Dodge));
    assert_eq!((made[1].source_uuid, made[1].mode), (10, InxMaskMode::Mask));
}

#[test]
fn names_stand_for_modes() {
    assert_eq!(blend_mode("multiply"), BlendMode::Multiply);
    assert_eq!(blend_mode("clip_to_lower"), BlendMode::ClipToLower);
    assert_eq!(blend_mode("what"), BlendMode::Normal);
    assert_eq!(merge_mode("multiplicative"), InxMergeMode::Multiply);
    assert_eq!(merge_mode("forced"), InxMergeMode::Forced);
    assert_eq!(merge_mode("what"), InxMergeMode::Additive);
    assert_eq!(interpolation("cubic"), InxInterpolation::Cubic);
    assert_eq!(interpolation("nearest"), InxInterpolation::Stepped);
    assert_eq!(interpolation("what"), InxInterpolation::Linear);
    assert_eq!(param_name("transform.t.x"), InxParamName::TransformTX);
    assert_eq!(param_name("deform"), InxParamName::Deform);
    assert_eq!(param_name("what"), InxParamName::Other);
    assert_eq!(node_type("meshgroup"), InxNodeType::MeshGroup);
    assert_eq!(node_type("what"), InxNodeType::Generic);
    assert_eq!(InrNodeKind::from_name("part").as_str(), "part");
    assert_eq!(InrTextureFormat::from_name("bc7").as_str(), "bc7");
    assert_eq!(InrBindingKind::from_name("deform").as_str(), "deform");
    assert_eq!(tex_handle(3, 2), Some(2));
    assert_eq!(tex_handle(3, 3), None);
    assert_eq!(tex_handle(3, -1), None);
}

#[test]
fn loaders_have_their_extensions() {
    assert_eq!(InrLoader.extensions(), ["inr"]);
    assert_eq!(InxLoader.extensions(), ["inx", "inp"]);
}

#[test]
fn params_keep_their_grids() {
    let m = model();
    let p = InrParam {
        name: String::from("tilt"),
        uuid: 3,
        is_vec2: false,
        min: [s(-1.0), s(0.0)],
        max: [s(1.0), s(0.0)],
        defaults: [s(0.25), s(0.0)],
        axis_points: [vec![s(0.0), s(0.5), s(1.0)], vec![s(0.0)]],
        merge_mode: InrMergeMode::Multiplicative,
        bindings: vec![InrBinding {
            node: 0,
            target: InrBindingTarget::RotateZ,
            interpolation: InrInterpolation::Cubic,
            x_count: 3,
            y_count: 2,
            is_set: vec![true, false, true, true, false, false],
            kind: InrBindingKind::Scalar,
            view: 0,
        }],
    };
    let made = convert_param(&m, &p).unwrap();
    assert_eq!((made.uuid, made.name.as_str()), (3, "tilt"));
    assert_eq!(made.merge_mode, InxMergeMode::Multiply);
    let b = &made.bindings[0];
    assert_eq!(b.node_uuid, 10);
    assert_eq!(b.param_name, InxParamName::TransformRZ);
    assert_eq!(b.interpolation, InxInterpolation::Cubic);
    assert_eq!(b.is_set, vec![vec![true, false], vec![true, true], vec![false, false]]);
    match &b.values {
        InxBindingValues::Transform(flat) => {
            assert_eq!((flat.frames, flat.values_per_frame), (3, 2));
            assert_eq!(flat.get(2, 1).map(f), Some(6.0));
        }
        _ => panic!("not a transform"),
    }
}

#[test]
fn animations_keep_the_lanes_that_drive_a_param() {
    let mut d = doc();
    d.params = vec![InrParam {
        name: String::from("tilt"),
        uuid: 3,
        is_vec2: false,
        min: [s(-1.0), s(0.0)],
        max: [s(1.0), s(0.0)],
        defaults: [s(0.25), s(0.0)],
        axis_points: [vec![s(0.0), s(1.0)], vec![s(0.0)]],
        merge_mode: InrMergeMode::Additive,
        bindings: Vec::new(),
    }];
    let lane = |param: i32| InrLane {
        param,
        target: 1,
        interpolation: InrInterpolation::Stepped,
        merge_mode: InrMergeMode::Override,
        keyframes: vec![[s(3.0), s(0.5), s(0.25)]],
    };
    let a = InrAnimation {
        name: String::from("wave"),
        timestep: s(0.5),
        additive: false,
        length: 10,
        lead_in: 0,
        lead_out: 0,
        weight: s(1.0),
        lanes: vec![lane(-1), lane(0), lane(1)],
    };
    let made = convert_animation(&d, &a);
    assert_eq!(made.lanes.len(), 1);
    assert_eq!(made.lanes[0].param_uuid, 3);
    assert_eq!(made.name, "wave");
    assert_eq!(f(made.duration), 5.0);
    assert_eq!(made.lanes[0].keyframes[0].frame, 3);
    assert_eq!(f(made.lanes[0].keyframes[0].value), 0.5);
    assert_eq!(made.lanes[0].merge_mode, InxMergeMode::Override);
    assert_eq!(made.lanes[0].interpolation, InxInterpolation::Stepped);
}

#[test]
fn a_document_becomes_a_puppet_children_first() {
    let mut m = model();
    m.doc.meta.name = Some(String::from("Midori"));
    m.doc.params = vec![InrParam {
        name: String::from("tilt"),
        uuid: 3,
        is_vec2: false,
        min: [s(-1.0), s(0.0)],
        max: [s(1.0), s(0.0)],
        defaults: [s(0.25), s(0.0)],
        axis_points: [vec![s(0.0), s(1.0)], vec![s(0.0)]],
        merge_mode: InrMergeMode::Additive,
        bindings: Vec::new(),
    }];
    let mut face = node("face", 11, Some(0), InrNodeKind::Part);
    face.part = Some(part(vec![InrMask { node: 0, mode: InrMaskMode::Mask }]));
    face.mesh = Some(InrMesh {
        vertex_count: 3,
        positions: 0,
        uvs: 0,
        indices: 1,
        origin: [s(0.0), s(0.0)],
    });
    let mut comp = node("hair", 12, Some(0), InrNodeKind::Composite);
    comp.composite = Some(InrComposite {
        blend_mode: InrBlendMode::Screen,
        tint: zero3(),
        screen_tint: zero3(),
        opacity: s(0.5),
        mask_threshold: s(0.5),
        masks: Vec::new(),
        compose_hint: Some(InxComposeHint::ChildrenDisjoint),
        propagate_meshgroup: false,
    });
    let mut swing = node("swing", 13, Some(2), InrNodeKind::SimplePhysics);
    swing.physics = Some(InrPhysics {
        param: 0,
        model: InrPhysicsModel::SpringPendulum,
        map_mode: InrMapMode::Yx,
        gravity: s(1.0),
        length: s(100.0),
        frequency: s(1.0),
        angle_damping: s(0.5),
        length_damping: s(0.5),
        output_scale: [s(1.0), s(1.0)],
        local_only: true,
    });
    m.doc.nodes.push(face);
    m.doc.nodes.push(comp);
    m.doc.nodes.push(swing);
    m.doc.mask_contours = vec![(11, vec![vec![[s(0.0), s(0.5)]]])];

    assert!(is_pre_ordered(&m.doc.nodes));
    let (lists, root) = child_lists(&m.doc.nodes);
    assert_eq!(root, 0);
    assert_eq!(lists, vec![vec![1, 2], vec![], vec![3], vec![]]);

    let puppet = convert(&m).unwrap();
    let names: Vec<&str> = puppet.nodes.iter().map(|n| n.name.as_str()).collect();
    assert_eq!(names, vec!["face", "swing", "hair", "root"]);
    assert_eq!(puppet.nodes[3].children, vec![0, 2]);
    assert_eq!(puppet.nodes[2].children, vec![1]);
    assert_eq!(puppet.named_nodes.get("hair"), Some(2));
    assert_eq!(puppet.named_nodes.get("nobody"), None);
    assert_eq!(puppet.named_params.get("tilt"), Some(0));
    assert_eq!(puppet.meta.name, "Midori");
    assert_eq!(puppet.meta.artist, "");
    assert_eq!(f(puppet.physics.gravity), 9.8);
    assert_eq!(puppet.textures[0].pixels, vec![9, 8, 7, 255]);

    let face = &puppet.nodes[0];
    assert_eq!(face.node_type, InxNodeType::Part);
    let mat = face.material.as_ref().unwrap();
    assert_eq!(mat.blend_mode, BlendMode::Multiply);
    assert_eq!(mat.texture_albedo, Some(0));
    assert_eq!(mat.texture_emissive, None);
    assert_eq!(mat.textures, [0, u32::MAX, 7]);
    assert_eq!(mat.masks.len(), 1);
    let contour = mat.mesh.as_ref().unwrap().mask_contour_uv.as_ref().unwrap();
    assert_eq!(floats(contour[0][0]), [0.0, 0.5]);

    let hair = &puppet.nodes[2];
    assert_eq!(hair.compose_hint, Some(InxComposeHint::ChildrenDisjoint));
    assert!(!hair.composite_propagate_meshgroup);
    assert_eq!(f(hair.material.as_ref().unwrap().opacity), 0.5);
    assert_eq!(f(hair.transform.scale[1]), 4.0);
    assert_eq!(f(hair.transform.scale[2]), 1.0);

    let swing = puppet.nodes[1].physics_data.unwrap();
    assert_eq!(swing.param_uuid, 3);
    assert_eq!(swing.model, PhysicsModel::SpringPendulum);
    assert_eq!(swing.map_mode, PhysicsMapMode::YX);
}

#[test]
fn a_parent_may_follow_its_children() {
    let mut m = model();
    m.doc.nodes = vec![
        node("hand", 1, Some(1), InrNodeKind::Node),
        node("arm", 2, Some(2), InrNodeKind::Node),
        node("root", 3, None, InrNodeKind::Node),
    ];
    assert!(has_root(&m.doc.nodes));
    assert!(!is_pre_ordered(&m.doc.nodes));
    let names: Vec<String> =
        convert(&m).unwrap().nodes.iter().map(|n| n.name.clone()).collect();
    assert_eq!(names, vec!["hand", "arm", "root"]);
    let circle = vec![
        node("a", 1, Some(1), InrNodeKind::Node),
        node("b", 2, Some(0), InrNodeKind::Node),
    ];
    assert!(!has_root(&circle));
    assert!(!has_root(&Vec::new()));
    // Without a node that has no parent, the first node is the root.
    m.doc.nodes = vec![
        node("head", 1, Some(1), InrNodeKind::Node),
        node("loop", 2, Some(1), InrNodeKind::Node),
        node("eye", 3, Some(0), InrNodeKind::Node),
    ];
    assert!(has_root(&m.doc.nodes));
    let names: Vec<String> =
        convert(&m).unwrap().nodes.iter().map(|n| n.name.clone()).collect();
    assert_eq!(names, vec!["eye", "head"]);
    assert!(!has_root(&vec![node("a", 1, Some(5), InrNodeKind::Node)]));
}

#[test]
fn unreadable_documents_are_refused() {
    let mut m = model();
    m.doc.textures[0].view = 9;
    assert!(matches!(convert(&m), Err(InrError::BadView(9))));
    let mut m = model();
    m.doc.nodes[0].mesh = Some(InrMesh {
        vertex_count: 1,
        positions: 3,
        uvs: 0,
        indices: 1,
        origin: [s(0.0), s(0.0)],
    });
    assert!(matches!(convert(&m), Err(InrError::BadView(3))));
}
