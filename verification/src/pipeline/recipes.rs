//! What the pipelines of the renderer are made of.

use crate::blend;
use crate::blend::{BlendMode, BlendState};
use crate::pipeline::prepare::{needs_samples, vertex_buffer_count};
use vstd::prelude::*;

verus! {

/// What a pipeline draws.
#[derive(Debug, Clone, Copy, PartialEq, Eq, Structural)]
pub enum PipelineKind {
    /// Parts, where the stencil lets them.
    Part,
    /// Finished composites.
    Composite,
    /// Masks, into the stencil.
    Mask,
}

/// What a bind group holds.
#[derive(Debug, Clone, Copy, PartialEq, Eq, Structural)]
pub enum GroupLayout {
    /// The uniforms of the view, at a dynamic offset.
    View,
    /// The uniforms of a part, at a dynamic offset.
    PartUniform,
    /// The uniforms of a composite, at a dynamic offset.
    CompositeUniform,
    /// A texture and its sampler.
    Texture,
}

/// When the stencil test passes.
#[derive(Debug, Clone, Copy, PartialEq, Eq, Structural)]
pub enum StencilTest {
    /// The stencil has the reference value.
    Equal,
    Always,
}

/// The stencil of a pipeline. Whatever fails is kept.
#[derive(Debug, Clone, Copy, PartialEq, Eq, Structural)]
pub struct StencilRecipe {
    pub test: StencilTest,
    /// Whether what passes writes the reference value.
    pub replaces: bool,
    pub read_mask: u32,
    pub write_mask: u32,
}

/// One buffer of vertices: pairs of numbers, read at a shader location.
#[derive(Debug, Clone, Copy, PartialEq, Eq, Structural)]
pub struct VertexBuffer {
    /// Bytes from one vertex to the next.
    pub stride: u64,
    pub location: u32,
}

/// What a pipeline is made of.
#[derive(Debug, Clone)]
pub struct PipelineRecipe {
    pub kind: PipelineKind,
    pub samples: u32,
    pub layouts: Vec<GroupLayout>,
    pub buffers: Vec<VertexBuffer>,
    pub blend: BlendState,
    /// Whether it writes color.
    pub writes_color: bool,
    /// Its stencil; none where it has no depth or stencil buffer.
    pub stencil: Option<StencilRecipe>,
}

/// The bind groups of a pipeline, in order.
pub open spec fn layouts_of(kind: PipelineKind) -> Seq<GroupLayout> {
    match kind {
        PipelineKind::Part => seq![
            GroupLayout::View,
            GroupLayout::PartUniform,
            GroupLayout::Texture,
            GroupLayout::Texture,
            GroupLayout::Texture,
        ],
        PipelineKind::Composite => seq![
            GroupLayout::View,
            GroupLayout::CompositeUniform,
            GroupLayout::Texture,
            GroupLayout::Texture,
            GroupLayout::Texture,
        ],
        PipelineKind::Mask => seq![
            GroupLayout::View,
            GroupLayout::PartUniform,
            GroupLayout::Texture,
        ],
    }
}

/// `n` buffers of pairs, at the locations from 0 on.
pub open spec fn pair_buffers(n: nat) -> Seq<VertexBuffer> {
    Seq::new(n, |i: int| VertexBuffer { stride: 8, location: i as u32 })
}

/// The stencil of a pipeline: parts read it, masks write it, composites have none.
pub open spec fn stencil_of(kind: PipelineKind) -> Option<StencilRecipe> {
    match kind {
        PipelineKind::Part => Some(
            StencilRecipe {
                test: StencilTest::Equal,
                replaces: false,
                read_mask: 0xff,
                write_mask: 0,
            },
        ),
        PipelineKind::Composite => None,
        PipelineKind::Mask => Some(
            StencilRecipe {
                test: StencilTest::Always,
                replaces: true,
                read_mask: 0xff,
                write_mask: 0xff,
            },
        ),
    }
}

/// The recipe of a pipeline. Masks blend as `Normal` does, though they write no
/// color.
pub open spec fn is_recipe(
    kind: PipelineKind,
    mode: BlendMode,
    samples: u32,
    r: PipelineRecipe,
) -> bool {
    &&& r.kind == kind
    &&& r.samples == samples
    &&& r.layouts@ == layouts_of(kind)
    &&& r.buffers@ == pair_buffers(
        if kind == PipelineKind::Part {
            3
        } else {
            2
        },
    )
    &&& r.blend.color == blend::color_blend(mode)
    &&& r.blend.alpha == blend::alpha_blend(mode)
    &&& r.writes_color == (kind != PipelineKind::Mask)
    &&& r.stencil == stencil_of(kind)
}

/// The bind groups of a pipeline, in order.
pub fn bind_group_layouts(kind: PipelineKind) -> (r: Vec<GroupLayout>)
    ensures
        r@ == layouts_of(kind),
{
    let r: Vec<GroupLayout> = match kind {
        PipelineKind::Part => vec![
            GroupLayout::View,
            GroupLayout::PartUniform,
            GroupLayout::Texture,
            GroupLayout::Texture,
            GroupLayout::Texture,
        ],
        PipelineKind::Composite => vec![
            GroupLayout::View,
            GroupLayout::CompositeUniform,
            GroupLayout::Texture,
            GroupLayout::Texture,
            GroupLayout::Texture,
        ],
        PipelineKind::Mask => vec![
            GroupLayout::View,
            GroupLayout::PartUniform,
            GroupLayout::Texture,
        ],
    };
    assert(r@ =~= layouts_of(kind));
    r
}

fn vertex_buffers(n: u32) -> (r: Vec<VertexBuffer>)
    ensures
        r@ == pair_buffers(n as nat),
{
    let mut r: Vec<VertexBuffer> = Vec::new();
    let mut i: u32 = 0;
    while i < n
        invariant
            i <= n,
            r@ == pair_buffers(i as nat),
        decreases n - i,
    {
        r.push(VertexBuffer { stride: 8, location: i });
        i = i + 1;
        assert(r@ =~= pair_buffers(i as nat));
    }
    r
}

/// The recipes for all blend modes, in the order of the modes.
pub fn create_part_pipeline(composite: bool, samples: u32) -> (r: Vec<(BlendMode, PipelineRecipe)>)
    ensures
        r@.len() == 19,
        forall|mode: BlendMode|
            r@[#[trigger] blend::place(mode)].0 == mode && is_recipe(
                if composite {
                    PipelineKind::Composite
                } else {
                    PipelineKind::Part
                },
                mode,
                samples,
                r@[blend::place(mode)].1,
            ),
{
    let kind = if composite {
        PipelineKind::Composite
    } else {
        PipelineKind::Part
    };
    let modes = BlendMode::all();
    let mut r: Vec<(BlendMode, PipelineRecipe)> = Vec::new();
    let mut i: usize = 0;
    while i < 19
        invariant
            kind == (if composite {
                PipelineKind::Composite
            } else {
                PipelineKind::Part
            }),
            i <= 19,
            r@.len() == i,
            forall|j: int|
                0 <= j < i ==> (#[trigger] r@[j]).0 == modes[j] && is_recipe(
                    kind,
                    modes[j],
                    samples,
                    r@[j].1,
                ),
        decreases 19 - i,
    {
        let mode = modes[i];
        let stencil = if composite {
            None
        } else {
            Some(
                StencilRecipe {
                    test: StencilTest::Equal,
                    replaces: false,
                    read_mask: 0xff,
                    write_mask: 0,
                },
            )
        };
        r.push(
            (
                mode,
                PipelineRecipe {
                    kind,
                    samples,
                    layouts: bind_group_layouts(kind),
                    buffers: vertex_buffers(vertex_buffer_count(composite)),
                    blend: mode.blend_state(),
                    writes_color: true,
                    stencil,
                },
            ),
        );
        i = i + 1;
    }
    proof {
        assert forall|mode: BlendMode|
            r@[#[trigger] blend::place(mode)].0 == mode && is_recipe(
                kind,
                mode,
                samples,
                r@[blend::place(mode)].1,
            ) by {
            assert(modes[blend::place(mode)] == mode);
            assert(0 <= blend::place(mode) < 19);
        }
    }
    r
}

/// The recipe of the pipeline for masks.
pub fn create_stencil_pipeline(samples: u32) -> (r: PipelineRecipe)
    ensures
        is_recipe(PipelineKind::Mask, BlendMode::Normal, samples, r),
{
    PipelineRecipe {
        kind: PipelineKind::Mask,
        samples,
        layouts: bind_group_layouts(PipelineKind::Mask),
        buffers: vertex_buffers(2),
        blend: BlendMode::Normal.blend_state(),
        writes_color: false,
        stencil: Some(
            StencilRecipe {
                test: StencilTest::Always,
                replaces: true,
                read_mask: 0xff,
                write_mask: 0xff,
            },
        ),
    }
}

/// The pipelines for one sample count.
pub struct PipelineSet {
    pub parts: Vec<(BlendMode, PipelineRecipe)>,
    pub composites: Vec<(BlendMode, PipelineRecipe)>,
    pub mask: PipelineRecipe,
}

/// The set has a pipeline of each kind for every blend mode.
pub open spec fn is_set_for(samples: u32, r: PipelineSet) -> bool {
    &&& r.parts@.len() == 19
    &&& r.composites@.len() == 19
    &&& forall|mode: BlendMode|
        {
            &&& r.parts@[#[trigger] blend::place(mode)].0 == mode
            &&& is_recipe(PipelineKind::Part, mode, samples, r.parts@[blend::place(mode)].1)
            &&& r.composites@[blend::place(mode)].0 == mode
            &&& is_recipe(
                PipelineKind::Composite,
                mode,
                samples,
                r.composites@[blend::place(mode)].1,
            )
        }
    &&& is_recipe(PipelineKind::Mask, BlendMode::Normal, samples, r.mask)
}

/// Which sample counts have their pipelines.
pub struct InxPipeline {
    pub built: Vec<u32>,
}

impl InxPipeline {
    /// The pipelines to make for a sample count, if it has none yet.
    pub fn ensure_samples(&mut self, samples: u32) -> (r: Option<PipelineSet>)
        ensures
            r is Some <==> !old(self).built@.contains(samples),
            r matches Some(set) ==> is_set_for(samples, set),
            final(self).built@ == (if r is Some {
                old(self).built@.push(samples)
            } else {
                old(self).built@
            }),
    {
        if !needs_samples(&self.built, samples) {
            return None;
        }
        let set = PipelineSet {
            parts: create_part_pipeline(false, samples),
            composites: create_part_pipeline(true, samples),
            mask: create_stencil_pipeline(samples),
        };
        self.built.push(samples);
        Some(set)
    }

    /// The renderer at its start, with the pipelines to make for one sample:
    /// composites are always drawn with one.
    pub fn from_world() -> (r: (InxPipeline, PipelineSet))
        ensures
            r.0.built@ == seq![1u32],
            is_set_for(1, r.1),
    {
        let mut built: Vec<u32> = Vec::new();
        built.push(1);
        assert(built@ =~= seq![1u32]);
        let set = PipelineSet {
            parts: create_part_pipeline(false, 1),
            composites: create_part_pipeline(true, 1),
            mask: create_stencil_pipeline(1),
        };
        (InxPipeline { built }, set)
    }
}

/// Drawing parts leaves the stencil as the masks have written it, and masks leave
/// the colors alone.
pub proof fn lemma_masks_and_parts(a: PipelineRecipe, b: PipelineRecipe, mode: BlendMode, samples: u32)
    requires
        is_recipe(PipelineKind::Part, mode, samples, a),
        is_recipe(PipelineKind::Mask, BlendMode::Normal, samples, b),
    ensures
        a.stencil matches Some(s) && !s.replaces && s.write_mask == 0 && s.test
            == StencilTest::Equal,
        b.stencil matches Some(s) && s.replaces && s.write_mask == 0xff,
        a.writes_color,
        !b.writes_color,
{
}

} // verus!
