//! Keeping an extracted puppet up to date: full builds and per-frame updates.

use crate::arith::HALF;
use crate::blend::BlendMode;
use crate::id_map::IdMap;
use crate::model::InxMaterial;
use crate::pipeline::collect;
use crate::pipeline::extract;
use crate::pipeline::extract::{
    Buffers, CompositeHeader, ExtractedNode, InxData, InxPartData, MaskHeader, NodeTable,
    RenderOrder, SortUnit,
};
use crate::pipeline::sequence;
use crate::scalar::{Scalar, ONE};
use vstd::prelude::*;

verus! {

/// Buffers that hold nothing.
pub open spec fn nothing() -> Buffers {
    Buffers {
        verts: Seq::empty(),
        uvs: Seq::empty(),
        deforms: Seq::empty(),
        indices: Seq::empty(),
        textures: Seq::empty(),
    }
}

/// The units and buffers of the puppet under a root.
pub open spec fn collected(nodes: Map<u64, ExtractedNode>, root: u64) -> (Seq<SortUnit>, Buffers) {
    extract::subtree(
        nodes,
        extract::uuids_of(nodes, extract::walk(nodes, root)),
        root,
        Scalar { bits: 0 },
        nothing(),
    )
}

/// The render layers of a root. One that names none is in layer 0.
pub open spec fn layers_or_first(layers: Option<Vec<u64>>) -> Seq<u64> {
    match layers {
        Some(words) => words@,
        None => seq![1u64],
    }
}

/// The render layers of a root, or of a view.
pub fn root_layers(layers: Option<Vec<u64>>) -> (r: Vec<u64>)
    ensures
        r@ == layers_or_first(layers),
{
    match layers {
        Some(words) => words,
        None => {
            let mut first: Vec<u64> = Vec::new();
            first.push(1);
            assert(first@ =~= seq![1u64]);
            first
        },
    }
}

/// Two sets of render layers have a layer in common.
pub open spec fn layers_meet(a: Seq<u64>, b: Seq<u64>) -> bool {
    exists|i: int| #![trigger a[i], b[i]] 0 <= i < a.len() && i < b.len() && a[i] & b[i] != 0
}

/// Whether a view with these render layers draws a puppet: one that has
/// commands and a layer in common with the view.
pub fn is_drawn_in(data: &InxData, view_layers: &Vec<u64>) -> (r: bool)
    ensures
        r == (data.commands@.len() > 0 && layers_meet(view_layers@, data.layers@)),
{
    if data.commands.len() == 0 {
        return false;
    }
    let mut i: usize = 0;
    while i < view_layers.len() && i < data.layers.len()
        invariant
            data.commands@.len() > 0,
            i <= view_layers@.len(),
            i <= data.layers@.len(),
            forall|j: int|
                #![trigger view_layers@[j], data.layers@[j]]
                0 <= j < i ==> view_layers@[j] & data.layers@[j] == 0,
        decreases view_layers@.len() - i,
    {
        if view_layers[i] & data.layers[i] != 0 {
            return true;
        }
        i = i + 1;
    }
    false
}

/// Builds the buffers and commands of the puppet under a root.
pub fn build_data(
    root: u64,
    nodes: &NodeTable,
    structure_version: u32,
    layers: Vec<u64>,
) -> (r: InxData)
    requires
        extract::acyclic(nodes@),
        collected(nodes@, root).1.fits(),
        sequence::comparable(collected(nodes@, root).0),
    ensures
        r.buffers() == collected(nodes@, root).1,
        exists|sorted: Seq<SortUnit>|
            #![trigger sequence::commands_of(sorted)]
            sequence::sorts_to(collected(nodes@, root).0, sorted) && r.commands@
                == sequence::commands_of(sorted),
        r.structure_version == structure_version,
        r.layers == layers,
        r.deform_dirty == None::<(u32, u32)>,
{
    let uuid_map = extract::build_uuid_map_for_root(root, nodes);
    let mut data = InxData {
        verts: Vec::new(),
        uvs: Vec::new(),
        deforms: Vec::new(),
        deform_dirty: None,
        indices: Vec::new(),
        commands: Vec::new(),
        textures: Vec::new(),
        structure_version,
        layers,
    };
    let mut tex_lookup = IdMap::new();
    assert(data.buffers() =~= nothing());
    let sortable = collect::collect_subtree(
        root,
        nodes,
        &uuid_map,
        &mut data,
        &mut tex_lookup,
        Scalar { bits: 0 },
    );
    let sorted = sequence::sort_nodes(sortable);
    let ghost order = extract::units_of(sorted@);
    sequence::flatten_to_commands(sorted, &mut data.commands);
    assert(data.commands@ =~= sequence::commands_of(order));
    data
}

/// What a root looks like to the extraction.
#[derive(Debug, Clone, Copy, PartialEq, Eq, Structural)]
pub struct RootState {
    /// Structure version that the renderer's data was built from, if there is
    /// data.
    pub built: Option<u32>,
    /// Structure version of the root, if it carries one.
    pub version: Option<u32>,
}

impl RootState {
    /// The version of the root; a root without one has version 0.
    pub open spec fn current(self) -> u32 {
        match self.version {
            Some(v) => v,
            None => 0,
        }
    }

    /// The renderer has no data of this version.
    pub open spec fn stale(self) -> bool {
        self.built != Some(self.current())
    }

    pub fn current_version(&self) -> (r: u32)
        ensures
            r == self.current(),
    {
        match self.version {
            Some(v) => v,
            None => 0,
        }
    }

    pub fn needs_rebuild(&self) -> (r: bool)
        ensures
            r == self.stale(),
    {
        match self.built {
            Some(v) => v != self.current_version(),
            None => true,
        }
    }
}

/// Whether some root needs a rebuild, so that the nodes have to be read in
/// full.
pub fn needs_slow_path(roots: &Vec<RootState>) -> (r: bool)
    ensures
        r == exists|i: int| 0 <= i < roots@.len() && (#[trigger] roots@[i]).stale(),
{
    let mut i: usize = 0;
    while i < roots.len()
        invariant
            i <= roots@.len(),
            forall|j: int| 0 <= j < i ==> !(#[trigger] roots@[j]).stale(),
        decreases roots@.len() - i,
    {
        if roots[i].needs_rebuild() {
            assert(roots@[i as int].stale());
            return true;
        }
        i = i + 1;
    }
    false
}

/// A sequence with a stretch replaced, if the stretch lies inside.
pub open spec fn overwritten(s: Seq<[Scalar; 2]>, start: int, with: Seq<[Scalar; 2]>) -> Seq<
    [Scalar; 2],
> {
    if start + with.len() <= s.len() {
        s.take(start) + with + s.skip(start + with.len())
    } else {
        s
    }
}

fn overwrite(deforms: &mut Vec<[Scalar; 2]>, start: u32, with: &Vec<[Scalar; 2]>) -> (r: bool)
    ensures
        final(deforms)@ == overwritten(old(deforms)@, start as int, with@),
        final(deforms)@.len() == old(deforms)@.len(),
        r == (start + with@.len() <= old(deforms)@.len()),
{
    let count: usize = with.len();
    if count > deforms.len() || start as usize > deforms.len() - count {
        return false;
    }
    let ghost before = deforms@;
    let at: usize = start as usize;
    let end: usize = at + count;
    let mut i: usize = 0;
    while i < count
        invariant
            i <= count,
            end == at + count,
            count == with@.len(),
            at + count <= before.len(),
            deforms@.len() == before.len(),
            forall|j: int| 0 <= j < i ==> #[trigger] deforms@[at + j] == with@[j],
            forall|j: int|
                0 <= j < before.len() && !(at <= j < at + i) ==> deforms@[j] == before[j],
        decreases count - i,
    {
        deforms[at + i] = with[i];
        i = i + 1;
    }
    proof {
        assert forall|j: int| at <= j < at + count implies deforms@[j] == with@[j - at] by {
            assert(deforms@[at + (j - at)] == with@[j - at]);
        }
        assert(deforms@ =~= overwritten(before, start as int, with@));
    }
    true
}

/// A command with the transform and opacity that its node now has.
pub open spec fn refreshed(cmd: RenderOrder, nodes: Map<u64, ExtractedNode>) -> RenderOrder {
    match cmd {
        RenderOrder::DrawPart(part) => if nodes.dom().contains(part.entity) {
            let node = nodes[part.entity];
            RenderOrder::DrawPart(
                InxPartData {
                    transform: node.global_transform,
                    opacity: match node.material {
                        Some(mat) => mat.opacity,
                        None => part.opacity,
                    },
                    ..part
                },
            )
        } else {
            cmd
        },
        RenderOrder::PushMask(mask) => if nodes.dom().contains(mask.entity_source) {
            RenderOrder::PushMask(
                MaskHeader { transform: nodes[mask.entity_source].global_transform, ..mask },
            )
        } else {
            cmd
        },
        RenderOrder::BeginComposite(header) => if nodes.dom().contains(header.entity) {
            let node = nodes[header.entity];
            RenderOrder::BeginComposite(
                CompositeHeader {
                    transform: node.global_transform,
                    opacity: match node.material {
                        Some(mat) => mat.opacity,
                        None => header.opacity,
                    },
                    ..header
                },
            )
        } else {
            cmd
        },
        _ => cmd,
    }
}

/// The deforms after the parts of the first `k` commands wrote theirs.
pub open spec fn refreshed_deforms(
    commands: Seq<RenderOrder>,
    k: nat,
    nodes: Map<u64, ExtractedNode>,
    deforms: Seq<[Scalar; 2]>,
) -> Seq<[Scalar; 2]>
    decreases k,
{
    if k == 0 {
        deforms
    } else {
        let before = refreshed_deforms(commands, (k - 1) as nat, nodes, deforms);
        match commands[k - 1] {
            RenderOrder::DrawPart(part) => if nodes.dom().contains(part.entity) {
                match nodes[part.entity].deform {
                    Some(d) => overwritten(before, part.deform_start as int, d.offsets@),
                    None => before,
                }
            } else {
                before
            },
            _ => before,
        }
    }
}

/// Updates the commands and deforms of a puppet from its nodes. All of the
/// deform buffer is then taken as changed.
pub fn update_dynamic_data(data: &mut InxData, nodes: &NodeTable)
    requires
        old(data).deforms@.len() * 8 <= usize::MAX,
    ensures
        final(data).commands@ == old(data).commands@.map_values(
            |cmd: RenderOrder| refreshed(cmd, nodes@),
        ),
        final(data).deforms@ == refreshed_deforms(
            old(data).commands@,
            old(data).commands@.len(),
            nodes@,
            old(data).deforms@,
        ),
        final(data).deform_dirty == (if old(data).deforms@.len() > 0 {
            Some((0u32, (old(data).deforms@.len() * 8) as u32))
        } else {
            old(data).deform_dirty
        }),
        final(data).verts@ == old(data).verts@,
        final(data).uvs@ == old(data).uvs@,
        final(data).indices@ == old(data).indices@,
        final(data).textures@ == old(data).textures@,
        final(data).structure_version == old(data).structure_version,
        final(data).layers == old(data).layers,
{
    let ghost cmds = data.commands@;
    let ghost was = *data;
    let mut i: usize = 0;
    while i < data.commands.len()
        invariant
            was == *old(data),
            cmds == was.commands@,
            i <= cmds.len(),
            data.commands@.len() == cmds.len(),
            forall|j: int|
                0 <= j < i ==> #[trigger] data.commands@[j] == refreshed(cmds[j], nodes@),
            forall|j: int| i <= j < cmds.len() ==> #[trigger] data.commands@[j] == cmds[j],
            data.deforms@ == refreshed_deforms(cmds, i as nat, nodes@, was.deforms@),
            data.deforms@.len() == was.deforms@.len(),
            data.verts@ == was.verts@,
            data.uvs@ == was.uvs@,
            data.indices@ == was.indices@,
            data.textures@ == was.textures@,
            data.structure_version == was.structure_version,
            data.layers == was.layers,
            data.deform_dirty == was.deform_dirty,
        decreases cmds.len() - i,
    {
        match &mut data.commands[i] {
            RenderOrder::DrawPart(part) => {
                if let Some(node) = nodes.get(part.entity) {
                    part.transform = node.global_transform;
                    if let Some(mat) = &node.material {
                        part.opacity = mat.opacity;
                    }
                    if let Some(deform) = &node.deform {
                        let start: u32 = part.deform_start;
                        overwrite(&mut data.deforms, start, &deform.offsets);
                    }
                }
            },
            RenderOrder::PushMask(mask) => {
                if let Some(node) = nodes.get(mask.entity_source) {
                    mask.transform = node.global_transform;
                }
            },
            RenderOrder::BeginComposite(header) => {
                if let Some(node) = nodes.get(header.entity) {
                    header.transform = node.global_transform;
                    if let Some(mat) = &node.material {
                        header.opacity = mat.opacity;
                    }
                }
            },
            _ => {},
        }
        i = i + 1;
    }
    assert(data.commands@ =~= cmds.map_values(|cmd: RenderOrder| refreshed(cmd, nodes@)));
    if data.deforms.len() > 0 {
        let bytes: usize = data.deforms.len() * 8;
        data.deform_dirty = Some((0, bytes as u32));
    }
}

/// What can change of a node from frame to frame.
#[derive(Debug)]
pub struct LightNode {
    pub entity: u64,
    pub uuid: u32,
    pub transform: [Scalar; 16],
    pub opacity: Scalar,
    pub deform_offsets: Option<Vec<[Scalar; 2]>>,
    pub tint: [Scalar; 3],
    pub screen_tint: [Scalar; 3],
    pub emissive_strength: Scalar,
    pub blend_mode: BlendMode,
    pub mask_threshold: Scalar,
}

/// What can change of a node; without a material it is drawn as it is.
pub open spec fn light_node(
    entity: u64,
    uuid: u32,
    transform: [Scalar; 16],
    material: Option<InxMaterial>,
    deform_offsets: Option<Vec<[Scalar; 2]>>,
) -> LightNode {
    match material {
        Some(m) => LightNode {
            entity,
            uuid,
            transform,
            opacity: m.opacity,
            deform_offsets,
            tint: m.tint,
            screen_tint: m.screen_tint,
            emissive_strength: m.emissive_strength,
            blend_mode: m.blend_mode,
            mask_threshold: m.mask_threshold,
        },
        None => LightNode {
            entity,
            uuid,
            transform,
            opacity: Scalar { bits: ONE },
            deform_offsets,
            tint: extract::white(),
            screen_tint: extract::black(),
            emissive_strength: Scalar { bits: 0 },
            blend_mode: BlendMode::Normal,
            mask_threshold: Scalar { bits: HALF },
        },
    }
}

impl LightNode {
    /// Reads what can change of a node.
    pub fn new(
        entity: u64,
        uuid: u32,
        transform: [Scalar; 16],
        material: Option<&InxMaterial>,
        deform_offsets: Option<Vec<[Scalar; 2]>>,
    ) -> (r: Self)
        ensures
            r == light_node(
                entity,
                uuid,
                transform,
                match material {
                    Some(m) => Some(*m),
                    None => None,
                },
                deform_offsets,
            ),
    {
        let zero = Scalar { bits: 0 };
        let one = Scalar { bits: ONE };
        match material {
            Some(m) => LightNode {
                entity,
                uuid,
                transform,
                opacity: m.opacity,
                deform_offsets,
                tint: m.tint,
                screen_tint: m.screen_tint,
                emissive_strength: m.emissive_strength,
                blend_mode: m.blend_mode,
                mask_threshold: m.mask_threshold,
            },
            None => LightNode {
                entity,
                uuid,
                transform,
                opacity: one,
                deform_offsets,
                tint: [one, one, one],
                screen_tint: [zero, zero, zero],
                emissive_strength: zero,
                blend_mode: BlendMode::Normal,
                mask_threshold: Scalar { bits: HALF },
            },
        }
    }
}

/// The light nodes, by entity. An entity is listed once, so a lookup by entity
/// and UUID succeeds if the entity is there and has that UUID.
pub struct LightTable {
    nodes: Vec<LightNode>,
    index: IdMap,
}

impl View for LightTable {
    type V = Map<u64, LightNode>;

    closed spec fn view(&self) -> Map<u64, LightNode> {
        Map::new(
            |e: u64| self.index@.dom().contains(e),
            |e: u64| self.nodes@[self.index@[e] as int],
        )
    }
}

/// The light node of an entity and UUID.
pub open spec fn light(nodes: Map<u64, LightNode>, entity: u64, uuid: u32) -> Option<LightNode> {
    if nodes.dom().contains(entity) && nodes[entity].uuid == uuid {
        Some(nodes[entity])
    } else {
        None
    }
}

impl LightTable {
    #[verifier::type_invariant]
    spec fn in_range(self) -> bool {
        forall|e: u64| #[trigger]
            self.index@.dom().contains(e) ==> self.index@[e] < self.nodes@.len()
    }

    pub fn new() -> (r: Self)
        ensures
            r@ == Map::<u64, LightNode>::empty(),
    {
        let r = LightTable { nodes: Vec::new(), index: IdMap::new() };
        assert(r@ =~= Map::<u64, LightNode>::empty());
        r
    }

    /// Adds a node under its entity, in place of an earlier one.
    pub fn insert(self, node: LightNode) -> (r: Self)
        ensures
            r@ == self@.insert(node.entity, node),
    {
        proof {
            use_type_invariant(&self);
        }
        let ghost before = self@;
        let mut nodes = self.nodes;
        let mut index = self.index;
        let at: usize = nodes.len();
        index.insert(node.entity, at as u64);
        nodes.push(node);
        let r = LightTable { nodes, index };
        assert(r@ =~= before.insert(node.entity, node));
        r
    }

    pub fn get(&self, entity: u64, uuid: u32) -> (r: Option<&LightNode>)
        ensures
            match r {
                Some(node) => light(self@, entity, uuid) == Some(*node),
                None => light(self@, entity, uuid) is None,
            },
    {
        proof {
            use_type_invariant(self);
        }
        match self.index.get(entity) {
            Some(at) => {
                assert(self.index@.dom().contains(entity));
                assert(at < self.nodes.len());
                let node = &self.nodes[at as usize];
                if node.uuid == uuid {
                    Some(node)
                } else {
                    None
                }
            },
            None => None,
        }
    }
}

/// A command with the values that its node now has.
pub open spec fn lit(cmd: RenderOrder, nodes: Map<u64, LightNode>) -> RenderOrder {
    match cmd {
        RenderOrder::DrawPart(part) => match light(nodes, part.entity, part.uuid) {
            Some(node) => RenderOrder::DrawPart(
                InxPartData {
                    transform: node.transform,
                    opacity: node.opacity,
                    tint: node.tint,
                    screen_tint: node.screen_tint,
                    emissive_strength: node.emissive_strength,
                    blend_mode: node.blend_mode,
                    mask_threshold: node.mask_threshold,
                    ..part
                },
            ),
            None => cmd,
        },
        RenderOrder::PushMask(mask) => match light(nodes, mask.entity_source, mask.source_uuid) {
            Some(node) => RenderOrder::PushMask(MaskHeader { transform: node.transform, ..mask }),
            None => cmd,
        },
        RenderOrder::BeginComposite(header) => match light(nodes, header.entity, header.uuid) {
            Some(node) => RenderOrder::BeginComposite(
                CompositeHeader {
                    transform: node.transform,
                    opacity: node.opacity,
                    tint: node.tint,
                    screen_tint: node.screen_tint,
                    blend_mode: node.blend_mode,
                    ..header
                },
            ),
            None => cmd,
        },
        _ => cmd,
    }
}

/// The smallest range around two.
pub open spec fn joined(dirty: Option<(u32, u32)>, start: u32, end: u32) -> Option<(u32, u32)> {
    match dirty {
        Some((s, e)) => Some(
            (
                if s <= start {
                    s
                } else {
                    start
                },
                if e >= end {
                    e
                } else {
                    end
                },
            ),
        ),
        None => Some((start, end)),
    }
}

/// The deforms and their changed byte range, after the parts of the first `k`
/// commands wrote theirs.
pub open spec fn lit_deforms(
    commands: Seq<RenderOrder>,
    k: nat,
    nodes: Map<u64, LightNode>,
    deforms: Seq<[Scalar; 2]>,
    dirty: Option<(u32, u32)>,
) -> (Seq<[Scalar; 2]>, Option<(u32, u32)>)
    decreases k,
{
    if k == 0 {
        (deforms, dirty)
    } else {
        let (before, range) = lit_deforms(commands, (k - 1) as nat, nodes, deforms, dirty);
        match commands[k - 1] {
            RenderOrder::DrawPart(part) => match light(nodes, part.entity, part.uuid) {
                Some(node) => match node.deform_offsets {
                    Some(offsets) => {
                        let start = part.deform_start as int;
                        let end = start + offsets@.len();
                        if end <= before.len() {
                            (
                                overwritten(before, start, offsets@),
                                joined(range, (start * 8) as u32, (end * 8) as u32),
                            )
                        } else {
                            (before, range)
                        }
                    },
                    None => (before, range),
                },
                None => (before, range),
            },
            _ => (before, range),
        }
    }
}

/// Updates the commands and deforms of a puppet from its light nodes, and keeps
/// track of the bytes of the deform buffer that changed.
pub fn update_dynamic_data_light(data: &mut InxData, nodes: &LightTable)
    requires
        old(data).deforms@.len() * 8 <= usize::MAX,
    ensures
        final(data).commands@ == old(data).commands@.map_values(
            |cmd: RenderOrder| lit(cmd, nodes@),
        ),
        (final(data).deforms@, final(data).deform_dirty) == lit_deforms(
            old(data).commands@,
            old(data).commands@.len(),
            nodes@,
            old(data).deforms@,
            old(data).deform_dirty,
        ),
        final(data).verts@ == old(data).verts@,
        final(data).uvs@ == old(data).uvs@,
        final(data).indices@ == old(data).indices@,
        final(data).textures@ == old(data).textures@,
        final(data).structure_version == old(data).structure_version,
        final(data).layers == old(data).layers,
{
    let ghost cmds = data.commands@;
    let ghost was = *data;
    let mut i: usize = 0;
    while i < data.commands.len()
        invariant
            was == *old(data),
            was.deforms@.len() * 8 <= usize::MAX,
            cmds == was.commands@,
            i <= cmds.len(),
            data.commands@.len() == cmds.len(),
            forall|j: int| 0 <= j < i ==> #[trigger] data.commands@[j] == lit(cmds[j], nodes@),
            forall|j: int| i <= j < cmds.len() ==> #[trigger] data.commands@[j] == cmds[j],
            (data.deforms@, data.deform_dirty) == lit_deforms(
                cmds,
                i as nat,
                nodes@,
                was.deforms@,
                was.deform_dirty,
            ),
            data.deforms@.len() == was.deforms@.len(),
            data.verts@ == was.verts@,
            data.uvs@ == was.uvs@,
            data.indices@ == was.indices@,
            data.textures@ == was.textures@,
            data.structure_version == was.structure_version,
            data.layers == was.layers,
        decreases cmds.len() - i,
    {
        match &mut data.commands[i] {
            RenderOrder::DrawPart(part) => {
                if let Some(node) = nodes.get(part.entity, part.uuid) {
                    part.transform = node.transform;
                    part.opacity = node.opacity;
                    part.tint = node.tint;
                    part.screen_tint = node.screen_tint;
                    part.emissive_strength = node.emissive_strength;
                    part.blend_mode = node.blend_mode;
                    part.mask_threshold = node.mask_threshold;
                    if let Some(offsets) = &node.deform_offsets {
                        let start: u32 = part.deform_start;
                        if overwrite(&mut data.deforms, start, offsets) {
                            let from: usize = start as usize;
                            let to: usize = from + offsets.len();
                            let byte_start: u32 = (from * 8) as u32;
                            let byte_end: u32 = (to * 8) as u32;
                            data.deform_dirty = Some(
                                match data.deform_dirty {
                                    Some((s, e)) => (
                                        if s <= byte_start {
                                            s
                                        } else {
                                            byte_start
                                        },
                                        if e >= byte_end {
                                            e
                                        } else {
                                            byte_end
                                        },
                                    ),
                                    None => (byte_start, byte_end),
                                },
                            );
                        }
                    }
                }
            },
            RenderOrder::PushMask(mask) => {
                if let Some(node) = nodes.get(mask.entity_source, mask.source_uuid) {
                    mask.transform = node.transform;
                }
            },
            RenderOrder::BeginComposite(header) => {
                if let Some(node) = nodes.get(header.entity, header.uuid) {
                    header.transform = node.transform;
                    header.opacity = node.opacity;
                    header.tint = node.tint;
                    header.screen_tint = node.screen_tint;
                    header.blend_mode = node.blend_mode;
                }
            },
            _ => {},
        }
        i = i + 1;
    }
    assert(data.commands@ =~= cmds.map_values(|cmd: RenderOrder| lit(cmd, nodes@)));
}

/// The byte range of the deform buffer to send to the GPU, of what was marked
/// as changed: nothing for an empty buffer or an empty range.
pub open spec fn upload_range(dirty: Option<(u32, u32)>, count: nat) -> Option<(u32, u32)> {
    match dirty {
        None => None,
        Some((start, end)) => {
            let bytes = (count * 8) as u32;
            let stop = if end <= bytes {
                end
            } else {
                bytes
            };
            if count == 0 || start >= stop {
                None
            } else {
                Some((start, stop))
            }
        },
    }
}

/// Takes the mark off the changed part of the deform buffer and gives the byte
/// range to send.
pub fn take_deform_range(data: &mut InxData) -> (r: Option<(u32, u32)>)
    requires
        old(data).deforms@.len() * 8 <= usize::MAX,
    ensures
        r == upload_range(old(data).deform_dirty, old(data).deforms@.len()),
        *final(data) == (InxData { deform_dirty: None, ..*old(data) }),
{
    let dirty = data.deform_dirty;
    data.deform_dirty = None;
    match dirty {
        None => None,
        Some((start, end)) => {
            if data.deforms.len() == 0 {
                return None;
            }
            let bytes: u32 = (data.deforms.len() * 8) as u32;
            let stop: u32 = if end <= bytes {
                end
            } else {
                bytes
            };
            if start >= stop {
                None
            } else {
                Some((start, stop))
            }
        },
    }
}

/// Byte range `inner` lies in `outer`.
pub open spec fn covers(outer: Option<(u32, u32)>, start: int, end: int) -> bool {
    match outer {
        Some((s, e)) => s <= start && end <= e,
        None => false,
    }
}

/// Every deform that an update changes lies in the byte range that it marks,
/// and what was marked before stays marked.
pub proof fn lemma_changes_are_marked(
    commands: Seq<RenderOrder>,
    k: nat,
    nodes: Map<u64, LightNode>,
    deforms: Seq<[Scalar; 2]>,
    dirty: Option<(u32, u32)>,
)
    requires
        k <= commands.len(),
        deforms.len() * 8 <= u32::MAX,
    ensures
        lit_deforms(commands, k, nodes, deforms, dirty).0.len() == deforms.len(),
        forall|i: int|
            #![trigger lit_deforms(commands, k, nodes, deforms, dirty).0[i]]
            0 <= i < deforms.len() && lit_deforms(commands, k, nodes, deforms, dirty).0[i]
                != deforms[i] ==> covers(
                lit_deforms(commands, k, nodes, deforms, dirty).1,
                i * 8,
                i * 8 + 8,
            ),
        dirty matches Some((s, e)) ==> covers(
            lit_deforms(commands, k, nodes, deforms, dirty).1,
            s as int,
            e as int,
        ),
    decreases k,
{
    if k > 0 {
        lemma_changes_are_marked(commands, (k - 1) as nat, nodes, deforms, dirty);
        let (before, range) = lit_deforms(commands, (k - 1) as nat, nodes, deforms, dirty);
        let (after, now) = lit_deforms(commands, k, nodes, deforms, dirty);
        assert forall|i: int|
            0 <= i < deforms.len() && #[trigger] after[i] != deforms[i] implies covers(
            now,
            i * 8,
            i * 8 + 8,
        ) by {
            assert(before[i] != deforms[i] ==> covers(range, i * 8, i * 8 + 8));
        }
    }
}

/// Marked bytes are sent, as far as the buffer reaches.
pub proof fn lemma_marked_is_sent(dirty: Option<(u32, u32)>, count: nat, i: int)
    requires
        count * 8 <= u32::MAX,
        0 <= i < count,
        covers(dirty, i * 8, i * 8 + 8),
    ensures
        covers(upload_range(dirty, count), i * 8, i * 8 + 8),
{
}

} // verus!
