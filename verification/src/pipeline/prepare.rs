//! What is prepared for the GPU: uniforms, texture bindings and draw state.

use crate::blend::BlendMode;
use crate::id_map::IdMap;
use crate::pipeline::extract;
use crate::scalar::Scalar;
use vstd::prelude::*;

verus! {

/// Uniforms of a part or mask.
#[derive(Clone, Copy, Debug)]
pub struct InxUniform {
    pub transform: [Scalar; 16],
    pub offset: [Scalar; 2],
    pub opacity: Scalar,
    pub mask_threshold: Scalar,
    pub emissive_strength: Scalar,
    pub tint: [Scalar; 3],
    pub screen_tint: [Scalar; 3],
}

impl InxUniform {
    pub fn new(
        transform: [Scalar; 16],
        offset: [Scalar; 2],
        tint: [Scalar; 3],
        screen_tint: [Scalar; 3],
        opacity: Scalar,
        emissive_strength: Scalar,
        mask_threshold: Scalar,
    ) -> (r: Self)
        ensures
            r == (InxUniform {
                transform,
                offset,
                opacity,
                mask_threshold,
                emissive_strength,
                tint,
                screen_tint,
            }),
    {
        InxUniform {
            transform,
            offset,
            opacity,
            mask_threshold,
            emissive_strength,
            tint,
            screen_tint,
        }
    }
}

/// Uniforms of a composite.
#[derive(Clone, Copy, Debug)]
pub struct CompositeUniform {
    pub transform: [Scalar; 16],
    pub opacity: Scalar,
    pub tint: [Scalar; 3],
    pub screen_tint: [Scalar; 3],
}

impl CompositeUniform {
    pub fn new(
        transform: [Scalar; 16],
        opacity: Scalar,
        tint: [Scalar; 3],
        screen_tint: [Scalar; 3],
    ) -> (r: Self)
        ensures
            r == (CompositeUniform { transform, opacity, tint, screen_tint }),
    {
        CompositeUniform { transform, opacity, tint, screen_tint }
    }
}

/// The textures among the first `k` that are not known, each once.
pub open spec fn unbound(textures: Seq<u64>, k: nat, known: Map<u64, u64>) -> Seq<u64>
    decreases k,
{
    if k == 0 {
        Seq::empty()
    } else {
        let before = unbound(textures, (k - 1) as nat, known);
        let id = textures[k - 1];
        if known.dom().contains(id) || before.contains(id) {
            before
        } else {
            before.push(id)
        }
    }
}

/// The textures of a puppet that still need a bind group, in order. Textures
/// that some puppet already uses share theirs.
pub fn textures_to_bind(textures: &Vec<u64>, known: &IdMap) -> (r: Vec<u64>)
    ensures
        r@ == unbound(textures@, textures@.len(), known@),
{
    let mut r: Vec<u64> = Vec::new();
    let mut k: usize = 0;
    while k < textures.len()
        invariant
            k <= textures@.len(),
            r@ == unbound(textures@, k as nat, known@),
        decreases textures@.len() - k,
    {
        let id: u64 = textures[k];
        if known.get(id).is_none() {
            let mut seen = false;
            let mut i: usize = 0;
            while i < r.len()
                invariant
                    i <= r@.len(),
                    seen == exists|j: int| 0 <= j < i && #[trigger] r@[j] == id,
                decreases r@.len() - i,
            {
                if r[i] == id {
                    seen = true;
                }
                i = i + 1;
            }
            if !seen {
                r.push(id);
            }
        }
        k = k + 1;
    }
    r
}

/// Which image a texture slot of a part stands for: none for an empty slot, or
/// one beyond the puppet's textures, or a puppet without textures.
pub fn bind_texture(texture_idx: u32, textures: Option<&Vec<u64>>) -> (r: Option<u64>)
    ensures
        r == (match textures {
            Some(ids) => if texture_idx != extract::TEX_NONE && texture_idx < ids@.len() {
                Some(ids@[texture_idx as int])
            } else {
                None
            },
            None => None,
        }),
{
    if texture_idx == extract::TEX_NONE {
        return None;
    }
    match textures {
        Some(ids) => if (texture_idx as usize) < ids.len() {
            Some(ids[texture_idx as usize])
        } else {
            None
        },
        None => None,
    }
}

/// The blend mode of the pipeline that is set before part `k` of a batch: that
/// of the latest part that switched.
pub open spec fn blend_before(modes: Seq<BlendMode>, ready: Seq<bool>, k: nat) -> Option<BlendMode>
    decreases k,
{
    if k == 0 {
        None
    } else if ready[k - 1] {
        Some(modes[k - 1])
    } else {
        blend_before(modes, ready, (k - 1) as nat)
    }
}

/// For each part of a batch, whether its pipeline has to be set: its blend mode
/// is another than that of the set pipeline, and its pipeline is ready.
pub fn pipeline_switches(modes: &Vec<BlendMode>, ready: &Vec<bool>) -> (r: Vec<bool>)
    requires
        modes@.len() == ready@.len(),
    ensures
        r@.len() == modes@.len(),
        forall|k: int|
            0 <= k < r@.len() ==> #[trigger] r@[k] == (ready@[k] && blend_before(
                modes@,
                ready@,
                k as nat,
            ) != Some(modes@[k])),
{
    let mut r: Vec<bool> = Vec::new();
    let mut current: Option<BlendMode> = None;
    let mut k: usize = 0;
    while k < modes.len()
        invariant
            modes@.len() == ready@.len(),
            k <= modes@.len(),
            current == blend_before(modes@, ready@, k as nat),
            r@.len() == k,
            forall|j: int|
                0 <= j < k ==> #[trigger] r@[j] == (ready@[j] && blend_before(
                    modes@,
                    ready@,
                    j as nat,
                ) != Some(modes@[j])),
        decreases modes@.len() - k,
    {
        let same = match current {
            Some(mode) => mode == modes[k],
            None => false,
        };
        let switch = !same && ready[k];
        if switch {
            current = Some(modes[k]);
        }
        r.push(switch);
        k = k + 1;
    }
    r
}

/// How many vertex buffers a pipeline reads: positions and texture coordinates,
/// and the deforms of parts.
pub fn vertex_buffer_count(composite: bool) -> (r: u32)
    ensures
        r == (if composite {
            2u32
        } else {
            3
        }),
{
    if composite {
        2
    } else {
        3
    }
}

/// Whether the pipelines for a sample count still have to be made.
pub fn needs_samples(built: &Vec<u32>, samples: u32) -> (r: bool)
    ensures
        r == !built@.contains(samples),
{
    let mut i: usize = 0;
    while i < built.len()
        invariant
            i <= built@.len(),
            forall|j: int| 0 <= j < i ==> built@[j] != samples,
        decreases built@.len() - i,
    {
        if built[i] == samples {
            return false;
        }
        i = i + 1;
    }
    true
}

} // verus!
