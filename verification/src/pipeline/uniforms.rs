//! The uniform pool: one buffer for each kind of draw, addressed by offsets.

use crate::pipeline::extract;
use crate::pipeline::extract::{CompositeHeader, InxPartData, MaskHeader, RenderOrder};
use crate::pipeline::prepare::{CompositeUniform, InxUniform};
use crate::scalar::Scalar;
use vstd::prelude::*;

verus! {

/// The number has a single bit set.
pub open spec fn power_of_two(n: u32) -> bool {
    n > 0 && n & ((n - 1) as u32) == 0
}

/// The smallest multiple of `alignment` that is no smaller than `value`.
pub open spec fn aligned(value: int, alignment: int) -> int {
    (value + alignment - 1) / alignment * alignment
}

/// Rounds up to a multiple of a power of two.
pub fn align_up(value: u32, alignment: u32) -> (r: u32)
    requires
        power_of_two(alignment),
        value + alignment - 1 <= u32::MAX,
    ensures
        r == aligned(value as int, alignment as int),
{
    let mask: u32 = alignment - 1;
    let high: u32 = value + mask;
    let r: u32 = high & !mask;
    assert(r % alignment == 0 && value <= r && r <= high) by (bit_vector)
        requires
            alignment > 0,
            alignment & mask == 0,
            mask == alignment - 1,
            high == value + mask,
            r == high & !mask,
    ;
    proof {
        let a = alignment as int;
        let q = r as int / a;
        vstd::arithmetic::div_mod::lemma_fundamental_div_mod(r as int, a);
        assert(r == q * a) by (nonlinear_arith)
            requires
                r == a * q + r as int % a,
                r as int % a == 0,
        ;
        lemma_high_part(high, mask, alignment);
        vstd::arithmetic::div_mod::lemma_fundamental_div_mod_converse(
            high as int,
            a,
            q,
            high - q * a,
        );
    }
    r
}

proof fn lemma_high_part(high: u32, mask: u32, alignment: u32)
    requires
        alignment > 0,
        alignment & mask == 0,
        mask == alignment - 1,
    ensures
        high - (high & !mask) < alignment,
        high & !mask <= high,
{
    assert(high - (high & !mask) < alignment && high & !mask <= high) by (bit_vector)
        requires
            alignment > 0,
            alignment & mask == 0,
            mask == alignment - 1,
    ;
}

/// The uniforms of a part.
pub open spec fn part_uniform(part: InxPartData) -> InxUniform {
    InxUniform {
        transform: part.transform,
        offset: part.origin,
        opacity: part.opacity,
        mask_threshold: part.mask_threshold,
        emissive_strength: part.emissive_strength,
        tint: part.tint,
        screen_tint: part.screen_tint,
    }
}

/// The uniforms of a mask: the shape of its source, without color.
pub open spec fn mask_uniform(mask: MaskHeader) -> InxUniform {
    InxUniform {
        transform: mask.transform,
        offset: mask.origin,
        opacity: Scalar { bits: 0x3f80_0000 },
        mask_threshold: mask.threshold,
        emissive_strength: Scalar { bits: 0 },
        tint: extract::white(),
        screen_tint: extract::black(),
    }
}

/// The uniforms of a composite.
pub open spec fn composite_uniform(header: CompositeHeader) -> CompositeUniform {
    CompositeUniform {
        transform: header.transform,
        opacity: header.opacity,
        tint: header.tint,
        screen_tint: header.screen_tint,
    }
}

/// The uniforms of the parts among the first `k` commands, in order.
pub open spec fn part_uniforms(cmds: Seq<RenderOrder>, k: nat) -> Seq<InxUniform>
    decreases k,
{
    if k == 0 {
        Seq::empty()
    } else {
        let before = part_uniforms(cmds, (k - 1) as nat);
        match cmds[k - 1] {
            RenderOrder::DrawPart(part) => before.push(part_uniform(part)),
            _ => before,
        }
    }
}

/// The uniforms of the masks among the first `k` commands, in order.
pub open spec fn mask_uniforms(cmds: Seq<RenderOrder>, k: nat) -> Seq<InxUniform>
    decreases k,
{
    if k == 0 {
        Seq::empty()
    } else {
        let before = mask_uniforms(cmds, (k - 1) as nat);
        match cmds[k - 1] {
            RenderOrder::PushMask(mask) => before.push(mask_uniform(mask)),
            _ => before,
        }
    }
}

/// The uniforms of the composites that open among the first `k` commands, in
/// order.
pub open spec fn composite_uniforms(cmds: Seq<RenderOrder>, k: nat) -> Seq<CompositeUniform>
    decreases k,
{
    if k == 0 {
        Seq::empty()
    } else {
        let before = composite_uniforms(cmds, (k - 1) as nat);
        match cmds[k - 1] {
            RenderOrder::BeginComposite(header) => before.push(composite_uniform(header)),
            _ => before,
        }
    }
}

/// The uniforms of a puppet and their byte offsets, by kind.
#[derive(Debug)]
pub struct UniformPool {
    pub parts: Vec<InxUniform>,
    pub part_offsets: Vec<u32>,
    pub masks: Vec<InxUniform>,
    pub mask_offsets: Vec<u32>,
    pub composites: Vec<CompositeUniform>,
    pub composite_offsets: Vec<u32>,
}

/// One offset for each of `n` slots of a size.
pub open spec fn spaced(n: nat, size: int) -> Seq<u32> {
    Seq::new(n, |i: int| (i * size) as u32)
}

/// The offsets of `count` slots of a size.
pub fn slot_offsets(count: usize, size: u32) -> (r: Vec<u32>)
    requires
        size > 0,
        count > 0 ==> (count - 1) * size <= u32::MAX,
    ensures
        r@ == spaced(count as nat, size as int),
        forall|i: int| 0 <= i < count ==> #[trigger] r@[i] == i * size,
{
    let mut r: Vec<u32> = Vec::new();
    let mut i: usize = 0;
    while i < count
        invariant
            i <= count,
            size > 0,
            count > 0 ==> (count - 1) * size <= u32::MAX,
            r@.len() == i,
            forall|j: int| 0 <= j < i ==> #[trigger] r@[j] == j * size,
        decreases count - i,
    {
        assert(0 <= i <= i * size <= (count - 1) * size) by (nonlinear_arith)
            requires
                0 <= i <= count - 1,
                1 <= size,
        ;
        let offset: u32 = i as u32 * size;
        r.push(offset);
        i = i + 1;
    }
    assert(r@ =~= spaced(count as nat, size as int)) by {
        assert forall|j: int| 0 <= j < count implies r@[j] == (j * size) as u32 by {
            assert(r@[j] == j * size);
        }
    }
    r
}

/// Gathers the uniforms of a puppet's commands. `part_size` and
/// `composite_size` are the sizes in bytes of one set of uniforms, `alignment`
/// the GPU's offset alignment.
pub fn build_uniform_pool(
    commands: &Vec<RenderOrder>,
    part_size: u32,
    composite_size: u32,
    alignment: u32,
) -> (r: UniformPool)
    requires
        power_of_two(alignment),
        part_size > 0,
        composite_size > 0,
        part_size + alignment - 1 <= u32::MAX,
        composite_size + alignment - 1 <= u32::MAX,
        (part_uniforms(commands@, commands@.len()).len() - 1) * aligned(
            part_size as int,
            alignment as int,
        ) <= u32::MAX,
        (mask_uniforms(commands@, commands@.len()).len() - 1) * aligned(
            part_size as int,
            alignment as int,
        ) <= u32::MAX,
        (composite_uniforms(commands@, commands@.len()).len() - 1) * aligned(
            composite_size as int,
            alignment as int,
        ) <= u32::MAX,
    ensures
        r.parts@ == part_uniforms(commands@, commands@.len()),
        r.masks@ == mask_uniforms(commands@, commands@.len()),
        r.composites@ == composite_uniforms(commands@, commands@.len()),
        r.part_offsets@ == spaced(r.parts@.len(), aligned(part_size as int, alignment as int)),
        r.mask_offsets@ == spaced(r.masks@.len(), aligned(part_size as int, alignment as int)),
        r.composite_offsets@ == spaced(
            r.composites@.len(),
            aligned(composite_size as int, alignment as int),
        ),
{
    let ghost cmds = commands@;
    let one = Scalar { bits: 0x3f80_0000 };
    let zero = Scalar { bits: 0 };
    let mut parts: Vec<InxUniform> = Vec::new();
    let mut masks: Vec<InxUniform> = Vec::new();
    let mut composites: Vec<CompositeUniform> = Vec::new();
    let mut k: usize = 0;
    while k < commands.len()
        invariant
            cmds == commands@,
            k <= cmds.len(),
            one == (Scalar { bits: 0x3f80_0000 }),
            zero == (Scalar { bits: 0 }),
            parts@ == part_uniforms(cmds, k as nat),
            masks@ == mask_uniforms(cmds, k as nat),
            composites@ == composite_uniforms(cmds, k as nat),
        decreases cmds.len() - k,
    {
        match &commands[k] {
            RenderOrder::DrawPart(part) => {
                parts.push(
                    InxUniform::new(
                        part.transform,
                        part.origin,
                        part.tint,
                        part.screen_tint,
                        part.opacity,
                        part.emissive_strength,
                        part.mask_threshold,
                    ),
                );
            },
            RenderOrder::PushMask(mask) => {
                masks.push(
                    InxUniform::new(
                        mask.transform,
                        mask.origin,
                        [one, one, one],
                        [zero, zero, zero],
                        one,
                        zero,
                        mask.threshold,
                    ),
                );
            },
            RenderOrder::BeginComposite(header) => {
                composites.push(
                    CompositeUniform::new(
                        header.transform,
                        header.opacity,
                        header.tint,
                        header.screen_tint,
                    ),
                );
            },
            _ => {},
        }
        k = k + 1;
    }
    let part_slot: u32 = align_up(part_size, alignment);
    let composite_slot: u32 = align_up(composite_size, alignment);
    proof {
        lemma_aligned_bounds(part_size as int, alignment as int);
        lemma_aligned_bounds(composite_size as int, alignment as int);
    }
    let part_offsets = slot_offsets(parts.len(), part_slot);
    let mask_offsets = slot_offsets(masks.len(), part_slot);
    let composite_offsets = slot_offsets(composites.len(), composite_slot);
    UniformPool { parts, part_offsets, masks, mask_offsets, composites, composite_offsets }
}

/// Rounding up reaches a multiple, less than one step away.
pub proof fn lemma_aligned_bounds(value: int, alignment: int)
    requires
        value >= 0,
        alignment > 0,
    ensures
        value <= aligned(value, alignment) < value + alignment,
        aligned(value, alignment) % alignment == 0,
{
    let q = (value + alignment - 1) / alignment;
    vstd::arithmetic::div_mod::lemma_fundamental_div_mod(value + alignment - 1, alignment);
    assert(q * alignment == alignment * q) by (nonlinear_arith);
    vstd::arithmetic::div_mod::lemma_mod_multiples_basic(q, alignment);
}

/// A byte of the uniform buffer: in its slot, the byte of the serialized
/// uniforms, as far as there is one and the slot reaches; else 0.
pub open spec fn packed_byte(blobs: Seq<Option<Vec<u8>>>, size: int, at: int) -> u8 {
    match blobs[at / size] {
        Some(blob) => if at % size < blob@.len() {
            blob@[at % size]
        } else {
            0
        },
        None => 0,
    }
}

/// Lays serialized uniforms out in slots of a size. What failed to serialize
/// leaves its slot empty.
pub fn pack_uniforms(blobs: &Vec<Option<Vec<u8>>>, size: u32) -> (r: Vec<u8>)
    requires
        blobs@.len() * size <= usize::MAX,
    ensures
        r@.len() == blobs@.len() * size,
        forall|at: int| 0 <= at < r@.len() ==> #[trigger] r@[at] == packed_byte(
            blobs@,
            size as int,
            at,
        ),
{
    let mut r: Vec<u8> = Vec::new();
    let width: usize = size as usize;
    let mut i: usize = 0;
    while i < blobs.len()
        invariant
            i <= blobs@.len(),
            width == size,
            blobs@.len() * size <= usize::MAX,
            r@.len() == i * size,
            forall|at: int|
                0 <= at < r@.len() ==> #[trigger] r@[at] == packed_byte(blobs@, size as int, at),
        decreases blobs@.len() - i,
    {
        let mut k: usize = 0;
        while k < width
            invariant
                i < blobs@.len(),
                k <= width,
                width == size,
                r@.len() == i * size + k,
                forall|at: int|
                    0 <= at < r@.len() ==> #[trigger] r@[at] == packed_byte(
                        blobs@,
                        size as int,
                        at,
                    ),
            decreases width - k,
        {
            let byte: u8 = match &blobs[i] {
                Some(blob) => if k < blob.len() {
                    blob[k]
                } else {
                    0
                },
                None => 0,
            };
            proof {
                vstd::arithmetic::div_mod::lemma_fundamental_div_mod_converse(
                    i * size + k,
                    size as int,
                    i as int,
                    k as int,
                );
            }
            r.push(byte);
            k = k + 1;
        }
        proof {
            assert((i + 1) * size == i * size + size) by (nonlinear_arith);
        }
        i = i + 1;
    }
    r
}

/// Offsets of the pool are aligned, and no two sets of uniforms overlap.
pub proof fn lemma_slots_disjoint(n: nat, value: int, alignment: int, i: int, j: int)
    requires
        value > 0,
        alignment > 0,
        0 <= i < j < n,
        (n - 1) * aligned(value, alignment) <= u32::MAX,
    ensures
        spaced(n, aligned(value, alignment))[i] as int % alignment == 0,
        spaced(n, aligned(value, alignment))[i] + value <= spaced(n, aligned(value, alignment))[j],
{
    lemma_aligned_bounds(value, alignment);
    let size = aligned(value, alignment);
    let q = (value + alignment - 1) / alignment;
    assert(0 <= i * size && i * size + size <= j * size && j * size <= (n - 1) * size)
        by (nonlinear_arith)
        requires
            0 <= i < j <= n - 1,
            size > 0,
    ;
    assert(i * size == (i * q) * alignment) by (nonlinear_arith)
        requires
            size == q * alignment,
    ;
    vstd::arithmetic::div_mod::lemma_mod_multiples_basic(i * q, alignment);
}

} // verus!
