//! From a node hierarchy to flat buffers and draw commands.
//!
//! Visible nodes are collected from the root down. Parts append their geometry
//! to shared buffers and become sortable units; a composite is one unit that
//! keeps its children inside. Each level is then sorted back to front and
//! written out as commands.

use crate::blend::BlendMode;
use crate::id_map::IdMap;
use crate::model::{InxDeform, InxMask, InxMaskMode, InxMaterial, InxMesh, InxNodeType};
use crate::scalar::Scalar;
use vstd::prelude::*;

verus! {

/// Marks a texture slot that is empty.
pub const TEX_NONE: u32 = 0xffff_ffff;

/// A part to draw, with its place in the flat buffers.
#[derive(Debug)]
pub struct InxPartData {
    pub entity: u64,
    pub uuid: u32,
    pub name: String,
    pub vertex_offset: u32,
    pub vertex_count: u32,
    pub index_offset: u32,
    pub index_count: u32,
    pub deform_start: u32,
    pub textures: [u32; 3],
    pub tint: [Scalar; 3],
    pub screen_tint: [Scalar; 3],
    pub emissive_strength: Scalar,
    pub blend_mode: BlendMode,
    pub mask_threshold: Scalar,
    pub opacity: Scalar,
    /// Column-major matrix.
    pub transform: [Scalar; 16],
    pub origin: [Scalar; 2],
}

/// A composite to open.
#[derive(Debug)]
pub struct CompositeHeader {
    pub entity: u64,
    pub uuid: u32,
    pub name: String,
    pub tint: [Scalar; 3],
    pub screen_tint: [Scalar; 3],
    pub blend_mode: BlendMode,
    pub opacity: Scalar,
    pub transform: [Scalar; 16],
}

/// How a mask writes the stencil.
#[derive(Debug, Clone, Copy, PartialEq, Eq, Structural)]
pub enum MaskMode {
    Mask,
    Dodge,
}

impl Default for MaskMode {
    fn default() -> (r: MaskMode)
        ensures
            r == MaskMode::Mask,
    {
        MaskMode::Mask
    }
}

/// A mask to push, with the geometry of its source node.
#[derive(Debug)]
pub struct MaskHeader {
    pub entity: u64,
    pub entity_source: u64,
    pub source_uuid: u32,
    pub mode: MaskMode,
    pub threshold: Scalar,
    pub name: String,
    pub vertex_offset: u32,
    pub vertex_count: u32,
    pub index_offset: u32,
    pub index_count: u32,
    pub tex_albedo: u32,
    pub transform: [Scalar; 16],
    pub origin: [Scalar; 2],
}

impl Clone for MaskHeader {
    fn clone(&self) -> (r: Self)
        ensures
            r == *self,
    {
        MaskHeader {
            entity: self.entity,
            entity_source: self.entity_source,
            source_uuid: self.source_uuid,
            mode: self.mode,
            threshold: self.threshold,
            name: self.name.clone(),
            vertex_offset: self.vertex_offset,
            vertex_count: self.vertex_count,
            index_offset: self.index_offset,
            index_count: self.index_count,
            tex_albedo: self.tex_albedo,
            transform: self.transform,
            origin: self.origin,
        }
    }
}

/// One draw command.
#[derive(Debug)]
pub enum RenderOrder {
    DrawPart(InxPartData),
    BeginComposite(CompositeHeader),
    EndComposite,
    PushMask(MaskHeader),
    PopMask,
}

impl RenderOrder {
    /// Readable name of the command.
    pub fn name(&self) -> (r: String)
        ensures
            r@ == (match *self {
                RenderOrder::DrawPart(part) => part.name@,
                RenderOrder::BeginComposite(header) => header.name@,
                RenderOrder::EndComposite => "End Composite"@,
                RenderOrder::PushMask(header) => header.name@,
                RenderOrder::PopMask => "Pop Mask"@,
            }),
    {
        match self {
            RenderOrder::DrawPart(part) => part.name.clone(),
            RenderOrder::BeginComposite(header) => header.name.clone(),
            RenderOrder::EndComposite => "End Composite".to_owned(),
            RenderOrder::PushMask(header) => header.name.clone(),
            RenderOrder::PopMask => "Pop Mask".to_owned(),
        }
    }

    /// Depth of the command: the Z translation of parts and composites, else 0.
    pub fn z_sort(&self) -> (r: Scalar)
        ensures
            r == (match *self {
                RenderOrder::DrawPart(part) => part.transform[14],
                RenderOrder::BeginComposite(header) => header.transform[14],
                _ => Scalar { bits: 0 },
            }),
    {
        match self {
            RenderOrder::DrawPart(part) => part.transform[14],
            RenderOrder::BeginComposite(header) => header.transform[14],
            _ => Scalar { bits: 0 },
        }
    }

    pub fn is_part(&self) -> (r: bool)
        ensures
            r == (*self is DrawPart),
    {
        matches!(self, RenderOrder::DrawPart(_))
    }

    pub fn is_composite(&self) -> (r: bool)
        ensures
            r == (*self is BeginComposite),
    {
        matches!(self, RenderOrder::BeginComposite(_))
    }
}

/// A puppet in the renderer: flat geometry buffers and the command list.
#[derive(Debug)]
pub struct InxData {
    pub verts: Vec<[Scalar; 2]>,
    pub uvs: Vec<[Scalar; 2]>,
    pub deforms: Vec<[Scalar; 2]>,
    /// Byte range of `deforms` that changed: (start, end).
    pub deform_dirty: Option<(u32, u32)>,
    pub indices: Vec<u32>,
    pub commands: Vec<RenderOrder>,
    /// Ids of the images in use, each once.
    pub textures: Vec<u64>,
    /// Structure version of the puppet when the commands were built; another
    /// version means that they have to be rebuilt.
    pub structure_version: u32,
    /// The render layers that the puppet is in, 64 to a word from layer 0 on.
    pub layers: Vec<u64>,
}

/// A visible node, copied from the scene.
#[derive(Debug)]
pub struct ExtractedNode {
    pub entity: u64,
    pub uuid: u32,
    pub name: String,
    pub node_type: InxNodeType,
    /// Depth relative to the parent.
    pub zsort: Scalar,
    pub material: Option<InxMaterial>,
    pub deform: Option<InxDeform>,
    pub global_transform: [Scalar; 16],
    pub children: Vec<u64>,
}

/// The visible nodes, by entity.
pub struct NodeTable {
    nodes: Vec<ExtractedNode>,
    index: IdMap,
}

impl View for NodeTable {
    type V = Map<u64, ExtractedNode>;

    closed spec fn view(&self) -> Map<u64, ExtractedNode> {
        Map::new(
            |e: u64| self.index@.dom().contains(e),
            |e: u64| self.nodes@[self.index@[e] as int],
        )
    }
}

impl NodeTable {
    #[verifier::type_invariant]
    spec fn in_range(self) -> bool {
        forall|e: u64| #[trigger]
            self.index@.dom().contains(e) ==> self.index@[e] < self.nodes@.len()
    }

    pub fn new() -> (r: Self)
        ensures
            r@ == Map::<u64, ExtractedNode>::empty(),
    {
        let r = NodeTable { nodes: Vec::new(), index: IdMap::new() };
        assert(r@ =~= Map::<u64, ExtractedNode>::empty());
        r
    }

    /// Adds a node under its entity, in place of an earlier one.
    pub fn insert(self, node: ExtractedNode) -> (r: Self)
        ensures
            r@ == self@.insert(node.entity, node),
    {
        proof {
            use_type_invariant(&self);
        }
        let ghost before = self@;
        let mut nodes = self.nodes;
        let mut index = self.index;
        let at: usize = nodes.len();
        index.insert(node.entity, at as u64);
        nodes.push(node);
        let r = NodeTable { nodes, index };
        assert(r@ =~= before.insert(node.entity, node));
        r
    }

    pub fn get(&self, entity: u64) -> (r: Option<&ExtractedNode>)
        ensures
            match r {
                Some(node) => self@.dom().contains(entity) && *node == self@[entity],
                None => !self@.dom().contains(entity),
            },
    {
        proof {
            use_type_invariant(self);
        }
        match self.index.get(entity) {
            Some(at) => {
                assert(self.index@.dom().contains(entity));
                assert(at < self.nodes.len());
                Some(&self.nodes[at as usize])
            },
            None => None,
        }
    }
}

/// A measure that falls from every node to its children.
pub open spec fn ranked(nodes: Map<u64, ExtractedNode>, rank: spec_fn(u64) -> nat) -> bool {
    forall|e: u64, i: int|
        #![trigger nodes[e].children@[i]]
        nodes.dom().contains(e) && 0 <= i < nodes[e].children@.len() ==> rank(
            nodes[e].children@[i],
        ) < rank(e)
}

/// No node is its own descendant.
pub open spec fn acyclic(nodes: Map<u64, ExtractedNode>) -> bool {
    exists|rank: spec_fn(u64) -> nat| ranked(nodes, rank)
}

/// A measure as [`ranked`] wants it, where there is one.
pub open spec fn rank_of(nodes: Map<u64, ExtractedNode>) -> spec_fn(u64) -> nat {
    choose|rank: spec_fn(u64) -> nat| ranked(nodes, rank)
}

/// The present nodes at and below an entity: the entity itself, then what is
/// below its children, the last child first.
pub open spec fn walk(nodes: Map<u64, ExtractedNode>, e: u64) -> Seq<u64>
    decreases rank_of(nodes)(e), nodes[e].children@.len() + 1,
    when acyclic(nodes)
{
    if nodes.dom().contains(e) {
        seq![e] + walk_children(nodes, e, nodes[e].children@.len())
    } else {
        Seq::empty()
    }
}

/// What is below the first `k` children of a present entity, the last of them
/// first.
pub open spec fn walk_children(nodes: Map<u64, ExtractedNode>, e: u64, k: nat) -> Seq<u64>
    decreases rank_of(nodes)(e), k,
    when acyclic(nodes) && nodes.dom().contains(e) && k <= nodes[e].children@.len()
{
    if k == 0 {
        Seq::empty()
    } else {
        walk(nodes, nodes[e].children@[k - 1]) + walk_children(nodes, e, (k - 1) as nat)
    }
}

/// What is below the entities of a stack, from the top down.
pub open spec fn walk_stack(nodes: Map<u64, ExtractedNode>, stack: Seq<u64>) -> Seq<u64>
    decreases stack.len(),
{
    if stack.len() == 0 {
        Seq::empty()
    } else {
        walk(nodes, stack.last()) + walk_stack(nodes, stack.drop_last())
    }
}

/// The entity of each UUID among the given entities; the last one counts.
pub open spec fn uuids_of(nodes: Map<u64, ExtractedNode>, entities: Seq<u64>) -> Map<u64, u64>
    decreases entities.len(),
{
    if entities.len() == 0 {
        Map::empty()
    } else {
        uuids_of(nodes, entities.drop_last()).insert(
            nodes[entities.last()].uuid as u64,
            entities.last(),
        )
    }
}

proof fn lemma_push_children(nodes: Map<u64, ExtractedNode>, stack: Seq<u64>, e: u64, k: nat)
    requires
        acyclic(nodes),
        nodes.dom().contains(e),
        k <= nodes[e].children@.len(),
    ensures
        walk_stack(nodes, stack + nodes[e].children@.take(k as int)) == walk_children(nodes, e, k)
            + walk_stack(nodes, stack),
    decreases k,
{
    let cs = nodes[e].children@;
    if k == 0 {
        assert(stack + cs.take(0) =~= stack);
        assert(walk_children(nodes, e, 0) + walk_stack(nodes, stack) =~= walk_stack(nodes, stack));
    } else {
        let all = stack + cs.take(k as int);
        lemma_push_children(nodes, stack, e, (k - 1) as nat);
        assert(all.drop_last() =~= stack + cs.take(k - 1));
        assert(all.last() == cs[k - 1]);
        assert(walk_stack(nodes, all) =~= walk_children(nodes, e, k) + walk_stack(nodes, stack));
    }
}

/// Taking a present entity off a stack and putting its children on takes just
/// that entity off the walk.
proof fn lemma_visit(nodes: Map<u64, ExtractedNode>, stack: Seq<u64>)
    requires
        acyclic(nodes),
        stack.len() > 0,
        nodes.dom().contains(stack.last()),
    ensures
        walk_stack(nodes, stack) == seq![stack.last()] + walk_stack(
            nodes,
            stack.drop_last() + nodes[stack.last()].children@,
        ),
{
    let e = stack.last();
    let cs = nodes[e].children@;
    lemma_push_children(nodes, stack.drop_last(), e, cs.len());
    assert(cs.take(cs.len() as int) =~= cs);
    assert(walk_stack(nodes, stack) =~= seq![e] + (walk_children(nodes, e, cs.len()) + walk_stack(
        nodes,
        stack.drop_last(),
    )));
}

/// Maps the UUID of each present node at or below the root to its entity.
pub fn build_uuid_map_for_root(root: u64, node_map: &NodeTable) -> (r: IdMap)
    requires
        acyclic(node_map@),
    ensures
        r@ == uuids_of(node_map@, walk(node_map@, root)),
{
    let mut map = IdMap::new();
    let mut stack: Vec<u64> = Vec::new();
    stack.push(root);
    let ghost mut done: Seq<u64> = Seq::empty();
    proof {
        assert(stack@.drop_last() =~= Seq::empty());
        assert(walk_stack(node_map@, stack@.drop_last()) =~= Seq::empty());
        assert(walk_stack(node_map@, stack@) =~= walk(node_map@, root));
    }
    while stack.len() > 0
        invariant
            acyclic(node_map@),
            done + walk_stack(node_map@, stack@) == walk(node_map@, root),
            map@ == uuids_of(node_map@, done),
        decreases walk_stack(node_map@, stack@).len(), stack@.len(),
    {
        let ghost before = stack@;
        let entity: u64 = stack[stack.len() - 1];
        stack.pop();
        proof {
            assert(stack@ == before.drop_last());
        }
        if let Some(node) = node_map.get(entity) {
            map.insert(node.uuid as u64, entity);
            let ghost base = stack@;
            let mut i: usize = 0;
            while i < node.children.len()
                invariant
                    i <= node.children@.len(),
                    stack@ == base + node.children@.take(i as int),
                decreases node.children@.len() - i,
            {
                stack.push(node.children[i]);
                i = i + 1;
                assert(stack@ =~= base + node.children@.take(i as int));
            }
            proof {
                assert(node.children@.take(node.children@.len() as int) =~= node.children@);
                lemma_visit(node_map@, before);
                assert(done.push(entity).drop_last() =~= done);
                assert(done.push(entity) + walk_stack(node_map@, stack@) =~= done + walk_stack(
                    node_map@,
                    before,
                ));
                done = done.push(entity);
            }
        } else {
            assert(walk_stack(node_map@, before) =~= walk_stack(node_map@, stack@));
        }
    }
    proof {
        assert(done =~= walk(node_map@, root));
    }
    map
}

/// A unit of the draw order: a part with its masks, or a composite with all
/// that it holds.
#[derive(Debug)]
pub enum SortableNode {
    Part { data: InxPartData, masks: Vec<MaskHeader>, zsort: Scalar },
    Composite { header: CompositeHeader, children: Vec<SortableNode>, zsort: Scalar },
}

/// The contents of a [`SortableNode`].
pub enum SortUnit {
    Part { data: InxPartData, masks: Seq<MaskHeader>, zsort: Scalar },
    Composite { header: CompositeHeader, children: Seq<SortUnit>, zsort: Scalar },
}

pub open spec fn unit_of(node: SortableNode) -> SortUnit
    decreases node,
{
    match node {
        SortableNode::Part { data, masks, zsort } => SortUnit::Part { data, masks: masks@, zsort },
        SortableNode::Composite { header, children, zsort } => SortUnit::Composite {
            header,
            children: units_of(children@),
            zsort,
        },
    }
}

pub open spec fn units_of(nodes: Seq<SortableNode>) -> Seq<SortUnit>
    decreases nodes,
{
    Seq::new(
        nodes.len(),
        |i: int|
            if 0 <= i < nodes.len() {
                unit_of(nodes[i])
            } else {
                arbitrary()
            },
    )
}

impl SortUnit {
    pub open spec fn depth(self) -> Scalar {
        match self {
            SortUnit::Part { zsort, .. } => zsort,
            SortUnit::Composite { zsort, .. } => zsort,
        }
    }
}

impl SortableNode {
    pub fn zsort(&self) -> (r: Scalar)
        ensures
            r == unit_of(*self).depth(),
    {
        match self {
            SortableNode::Part { zsort, .. } => *zsort,
            SortableNode::Composite { zsort, .. } => *zsort,
        }
    }
}

/// The flat buffers. Indices are unbounded here.
#[verifier::ext_equal]
pub struct Buffers {
    pub verts: Seq<[Scalar; 2]>,
    pub uvs: Seq<[Scalar; 2]>,
    pub deforms: Seq<[Scalar; 2]>,
    pub indices: Seq<int>,
    pub textures: Seq<u64>,
}

impl Buffers {
    /// Every index can be held in 32 bits.
    pub open spec fn fits(self) -> bool {
        forall|i: int| 0 <= i < self.indices.len() ==> #[trigger] self.indices[i] <= u32::MAX
    }
}

impl InxData {
    pub open spec fn buffers(self) -> Buffers {
        Buffers {
            verts: self.verts@,
            uvs: self.uvs@,
            deforms: self.deforms@,
            indices: self.indices@.map_values(|i: u32| i as int),
            textures: self.textures@,
        }
    }
}

/// No displacement.
pub open spec fn still() -> [Scalar; 2] {
    [Scalar { bits: 0 }, Scalar { bits: 0 }]
}

/// `n` times no displacement.
pub open spec fn rest(n: nat) -> Seq<[Scalar; 2]> {
    Seq::new(n, |i: int| still())
}

/// A sequence cut or filled with [`still`] to a length.
pub open spec fn sized(deforms: Seq<[Scalar; 2]>, n: nat) -> Seq<[Scalar; 2]> {
    if n <= deforms.len() {
        deforms.take(n as int)
    } else {
        deforms + rest((n - deforms.len()) as nat)
    }
}

/// The buffers with a mesh appended. Its indices move by the number of vertices
/// that were there.
pub open spec fn with_mesh(b: Buffers, mesh: InxMesh) -> Buffers {
    Buffers {
        verts: b.verts + mesh.vertex_buffer@,
        uvs: b.uvs + mesh.uv_buffer@,
        indices: b.indices + mesh.index_buffer@.map_values(
            |i: u32| i + (b.verts.len() as u32) as int,
        ),
        ..b
    }
}

/// The buffers with the deform of a part appended: its offsets, or none for
/// each vertex.
pub open spec fn with_deform(b: Buffers, deform: Option<InxDeform>, count: u32) -> Buffers {
    Buffers {
        deforms: match deform {
            Some(d) => b.deforms + d.offsets@,
            None => b.deforms + rest(count as nat),
        },
        ..b
    }
}

/// The slot of a texture and the texture list after asking for it: a known
/// texture keeps its slot, a new one gets the next.
pub open spec fn slot(textures: Seq<u64>, id: Option<u64>) -> (u32, Seq<u64>) {
    match id {
        None => (TEX_NONE, textures),
        Some(id) => if textures.contains(id) {
            (textures.index_of(id) as u32, textures)
        } else {
            (textures.len() as u32, textures.push(id))
        },
    }
}

/// The slots of a material's three textures.
pub open spec fn slots(textures: Seq<u64>, mat: InxMaterial) -> ([u32; 3], Seq<u64>) {
    let (a, after_a) = slot(textures, mat.texture_albedo);
    let (b, after_b) = slot(after_a, mat.texture_emissive);
    let (c, after_c) = slot(after_b, mat.texture_bumpmap);
    ([a, b, c], after_c)
}

/// The lookup gives each listed texture its slot, and no texture is listed
/// twice.
pub open spec fn indexed(textures: Seq<u64>, lookup: Map<u64, u64>) -> bool {
    &&& forall|id: u64| #[trigger] lookup.dom().contains(id) <==> textures.contains(id)
    &&& forall|i: int| 0 <= i < textures.len() ==> lookup[#[trigger] textures[i]] == (i as u32)
    &&& textures.no_duplicates()
}

/// The mesh that a node draws.
pub open spec fn mesh_of(node: ExtractedNode) -> Option<InxMesh> {
    match node.material {
        Some(mat) => mat.mesh,
        None => None,
    }
}

/// The mask that a part gets from one mask entry, if its source can be drawn.
pub open spec fn mask_source(
    nodes: Map<u64, ExtractedNode>,
    uuids: Map<u64, u64>,
    mask: InxMask,
) -> Option<ExtractedNode> {
    let key = mask.source_uuid as u64;
    if uuids.dom().contains(key) && nodes.dom().contains(uuids[key]) && mesh_of(
        nodes[uuids[key]],
    ) is Some {
        Some(nodes[uuids[key]])
    } else {
        None
    }
}

/// The buffers with the geometry of a mask source appended.
pub open spec fn with_mask(b: Buffers, source: ExtractedNode) -> Buffers {
    let c = with_mesh(b, mesh_of(source)->0);
    Buffers {
        deforms: sized(c.deforms, c.verts.len()),
        textures: slots(c.textures, source.material->0).1,
        ..c
    }
}

/// The header of a mask whose geometry is appended to `b`.
pub open spec fn mask_header(
    part: ExtractedNode,
    mask: InxMask,
    source: ExtractedNode,
    b: Buffers,
) -> MaskHeader {
    let mesh = mesh_of(source)->0;
    MaskHeader {
        entity: part.entity,
        entity_source: source.entity,
        source_uuid: mask.source_uuid,
        mode: if mask.mode == InxMaskMode::Dodge {
            MaskMode::Dodge
        } else {
            MaskMode::Mask
        },
        threshold: (part.material->0).mask_threshold,
        name: source.name,
        vertex_offset: if mesh.index_buffer@.len() as u32 > 0 {
            0
        } else {
            b.verts.len() as u32
        },
        vertex_count: mesh.vertex_buffer@.len() as u32,
        index_offset: b.indices.len() as u32,
        index_count: mesh.index_buffer@.len() as u32,
        tex_albedo: slots(b.textures, source.material->0).0[0],
        transform: source.global_transform,
        origin: mesh.origin,
    }
}

/// The masks of a part, for the first `k` of its mask entries, and the buffers
/// with their geometry. Entries without a drawable source are left out.
pub open spec fn masks_of(
    nodes: Map<u64, ExtractedNode>,
    uuids: Map<u64, u64>,
    part: ExtractedNode,
    k: nat,
    b: Buffers,
) -> (Seq<MaskHeader>, Buffers)
    decreases k,
{
    if k == 0 {
        (Seq::empty(), b)
    } else {
        let (headers, c) = masks_of(nodes, uuids, part, (k - 1) as nat, b);
        let mask = (part.material->0).masks@[k - 1];
        match mask_source(nodes, uuids, mask) {
            Some(source) => (
                headers.push(mask_header(part, mask, source, c)),
                with_mask(c, source),
            ),
            None => (headers, c),
        }
    }
}

/// The buffers with the mesh, deform and textures of a part appended.
pub open spec fn with_part(b: Buffers, node: ExtractedNode) -> Buffers {
    let mesh = mesh_of(node)->0;
    let c = with_deform(with_mesh(b, mesh), node.deform, mesh.vertex_buffer@.len() as u32);
    Buffers { textures: slots(c.textures, node.material->0).1, ..c }
}

/// The draw data of a part whose geometry is appended to `b`.
pub open spec fn part_data(node: ExtractedNode, b: Buffers) -> InxPartData {
    let mat = node.material->0;
    let mesh = mesh_of(node)->0;
    InxPartData {
        entity: node.entity,
        uuid: node.uuid,
        name: node.name,
        vertex_offset: if mesh.index_buffer@.len() as u32 > 0 {
            0
        } else {
            b.verts.len() as u32
        },
        vertex_count: mesh.vertex_buffer@.len() as u32,
        index_offset: b.indices.len() as u32,
        index_count: mesh.index_buffer@.len() as u32,
        deform_start: b.deforms.len() as u32,
        textures: slots(b.textures, mat).0,
        tint: mat.tint,
        screen_tint: mat.screen_tint,
        emissive_strength: mat.emissive_strength,
        blend_mode: mat.blend_mode,
        mask_threshold: mat.mask_threshold,
        opacity: mat.opacity,
        transform: node.global_transform,
        origin: mesh.origin,
    }
}

/// Full intensity in each channel.
pub open spec fn white() -> [Scalar; 3] {
    [Scalar { bits: 0x3f80_0000 }, Scalar { bits: 0x3f80_0000 }, Scalar { bits: 0x3f80_0000 }]
}

/// No intensity in any channel.
pub open spec fn black() -> [Scalar; 3] {
    [Scalar { bits: 0 }, Scalar { bits: 0 }, Scalar { bits: 0 }]
}

/// The header of a composite; without a material it is drawn as it is.
pub open spec fn composite_header(node: ExtractedNode) -> CompositeHeader {
    CompositeHeader {
        entity: node.entity,
        uuid: node.uuid,
        name: node.name,
        tint: match node.material {
            Some(mat) => mat.tint,
            None => white(),
        },
        screen_tint: match node.material {
            Some(mat) => mat.screen_tint,
            None => black(),
        },
        blend_mode: match node.material {
            Some(mat) => mat.blend_mode,
            None => BlendMode::Normal,
        },
        opacity: match node.material {
            Some(mat) => mat.opacity,
            None => Scalar { bits: 0x3f80_0000 },
        },
        transform: node.global_transform,
    }
}

/// What an entity and all below it contribute, and the buffers with their
/// geometry. A part comes with its descendants on the same level, a composite
/// keeps them inside, a mask contributes nothing, and other nodes stand aside
/// for their children. `above` is the depth of the parent.
pub open spec fn subtree(
    nodes: Map<u64, ExtractedNode>,
    uuids: Map<u64, u64>,
    e: u64,
    above: Scalar,
    b: Buffers,
) -> (Seq<SortUnit>, Buffers)
    decreases rank_of(nodes)(e), nodes[e].children@.len() + 1,
    when acyclic(nodes)
{
    if !nodes.dom().contains(e) {
        (Seq::empty(), b)
    } else {
        let node = nodes[e];
        let n = node.children@.len();
        let depth = above.plus(node.zsort);
        match node.node_type {
            InxNodeType::Mask => (Seq::empty(), b),
            InxNodeType::Composite => {
                let (inner, c) = children_of(nodes, uuids, e, n, depth, b);
                (
                    seq![
                        SortUnit::Composite {
                            header: composite_header(node),
                            children: inner,
                            zsort: depth,
                        },
                    ],
                    c,
                )
            },
            InxNodeType::Part => if mesh_of(node) is Some {
                let (masks, c) = masks_of(
                    nodes,
                    uuids,
                    node,
                    (node.material->0).masks@.len(),
                    with_part(b, node),
                );
                let (below, d) = children_of(nodes, uuids, e, n, depth, c);
                (
                    seq![SortUnit::Part { data: part_data(node, b), masks, zsort: depth }]
                        + below,
                    d,
                )
            } else {
                children_of(nodes, uuids, e, n, depth, b)
            },
            _ => children_of(nodes, uuids, e, n, depth, b),
        }
    }
}

/// What the first `k` children of a present entity contribute, in order. `depth`
/// is the depth of the entity.
pub open spec fn children_of(
    nodes: Map<u64, ExtractedNode>,
    uuids: Map<u64, u64>,
    e: u64,
    k: nat,
    depth: Scalar,
    b: Buffers,
) -> (Seq<SortUnit>, Buffers)
    decreases rank_of(nodes)(e), k,
    when acyclic(nodes) && nodes.dom().contains(e) && k <= nodes[e].children@.len()
{
    if k == 0 {
        (Seq::empty(), b)
    } else {
        let (before, c) = children_of(nodes, uuids, e, (k - 1) as nat, depth, b);
        let (last, d) = subtree(nodes, uuids, nodes[e].children@[k - 1], depth, c);
        (before + last, d)
    }
}

} // verus!
