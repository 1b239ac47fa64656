//! Blend modes and the fixed-function blend states that they map to.

use vstd::prelude::*;

verus! {

/// Blend mode of a part or composite.
///
/// Each mode maps to a fixed-function state, see [`BlendMode::blend_state`].
/// `ColorBurn`, `HardLight`, `SoftLight`, `Difference`, `Exclusion` and
/// `Inverse` have no exact equivalent and fall back to `Normal`.
#[derive(Debug, Clone, Copy, Hash, PartialEq, Eq, Structural)]
pub enum BlendMode {
    /// Standard alpha compositing.
    Normal,
    /// Multiply colors (darken).
    Multiply,
    /// Screen blend (lighten, light effect).
    Screen,
    /// Overlay (combines Multiply and Screen).
    Overlay,
    /// Darken (only darker pixels).
    Darken,
    /// Lighten (only lighter pixels).
    Lighten,
    /// Color dodge (lightens selectively).
    ColorDodge,
    /// Linear dodge (lightens linearly).
    LinearDodge,
    /// Add (sums colors, glow effect).
    Add,
    /// Color burn (darkens selectively). Falls back to `Normal`.
    ColorBurn,
    /// Hard light (strong contrast). Falls back to `Normal`.
    HardLight,
    /// Soft light (soft contrast). Falls back to `Normal`.
    SoftLight,
    /// Subtract (subtracts colors).
    Subtract,
    /// Difference (absolute color difference). Falls back to `Normal`.
    Difference,
    /// Exclusion (soft difference). Falls back to `Normal`.
    Exclusion,
    /// Inverse (inverts by the overlapping color). Falls back to `Normal`.
    Inverse,
    /// Keeps only pixels where the destination exists.
    DestinationIn,
    /// Clips against lower content, respecting transparency.
    ClipToLower,
    /// Inverse of `ClipToLower`, cuts by lower content.
    SliceFromLower,
}

impl Default for BlendMode {
    fn default() -> (r: BlendMode)
        ensures
            r == BlendMode::Normal,
    {
        BlendMode::Normal
    }
}

/// Factor that a color or alpha value is multiplied with before blending.
#[derive(Debug, Clone, Copy, PartialEq, Eq, Structural)]
pub enum BlendFactor {
    Zero,
    One,
    Src,
    OneMinusSrc,
    SrcAlpha,
    OneMinusSrcAlpha,
    Dst,
    OneMinusDst,
    DstAlpha,
    OneMinusDstAlpha,
}

/// How the two weighted values are joined.
#[derive(Debug, Clone, Copy, PartialEq, Eq, Structural)]
pub enum BlendOperation {
    Add,
    Subtract,
    ReverseSubtract,
    Min,
    Max,
}

/// Blending of one channel group.
#[derive(Debug, Clone, Copy, PartialEq, Eq, Structural)]
pub struct BlendComponent {
    pub src_factor: BlendFactor,
    pub dst_factor: BlendFactor,
    pub operation: BlendOperation,
}

/// Blending of the color and alpha channels.
#[derive(Debug, Clone, Copy, PartialEq, Eq, Structural)]
pub struct BlendState {
    pub color: BlendComponent,
    pub alpha: BlendComponent,
}

/// A component that sums source and destination, each under its factor.
pub open spec fn sum_of(src_factor: BlendFactor, dst_factor: BlendFactor) -> BlendComponent {
    BlendComponent { src_factor, dst_factor, operation: BlendOperation::Add }
}

/// The source drawn over the destination, with colors premultiplied by alpha.
pub open spec fn over() -> BlendComponent {
    sum_of(BlendFactor::One, BlendFactor::OneMinusSrcAlpha)
}

/// The modes that no fixed-function state expresses.
pub open spec fn needs_shader(mode: BlendMode) -> bool {
    mode == BlendMode::ColorBurn || mode == BlendMode::HardLight || mode == BlendMode::SoftLight
        || mode == BlendMode::Difference || mode == BlendMode::Exclusion || mode
        == BlendMode::Inverse
}

/// The color blending of a mode.
pub open spec fn color_blend(mode: BlendMode) -> BlendComponent {
    match mode {
        BlendMode::Multiply => sum_of(BlendFactor::Dst, BlendFactor::OneMinusSrcAlpha),
        BlendMode::Screen => sum_of(BlendFactor::One, BlendFactor::OneMinusSrc),
        BlendMode::Overlay => sum_of(BlendFactor::SrcAlpha, BlendFactor::OneMinusSrcAlpha),
        BlendMode::Darken => BlendComponent {
            src_factor: BlendFactor::One,
            dst_factor: BlendFactor::One,
            operation: BlendOperation::Min,
        },
        BlendMode::Lighten => BlendComponent {
            src_factor: BlendFactor::One,
            dst_factor: BlendFactor::One,
            operation: BlendOperation::Max,
        },
        BlendMode::ColorDodge => sum_of(BlendFactor::Dst, BlendFactor::One),
        BlendMode::Add => sum_of(BlendFactor::SrcAlpha, BlendFactor::One),
        BlendMode::LinearDodge => sum_of(BlendFactor::SrcAlpha, BlendFactor::One),
        BlendMode::Subtract => BlendComponent {
            src_factor: BlendFactor::One,
            dst_factor: BlendFactor::One,
            operation: BlendOperation::ReverseSubtract,
        },
        BlendMode::DestinationIn => sum_of(BlendFactor::Zero, BlendFactor::SrcAlpha),
        BlendMode::ClipToLower => sum_of(BlendFactor::DstAlpha, BlendFactor::OneMinusSrcAlpha),
        BlendMode::SliceFromLower => sum_of(BlendFactor::Zero, BlendFactor::OneMinusSrcAlpha),
        _ => over(),
    }
}

/// The alpha blending of a mode: source over destination, but for the modes
/// that keep, cut or clip the destination.
pub open spec fn alpha_blend(mode: BlendMode) -> BlendComponent {
    match mode {
        BlendMode::ColorDodge => sum_of(BlendFactor::One, BlendFactor::OneMinusDstAlpha),
        BlendMode::Add => sum_of(BlendFactor::Zero, BlendFactor::One),
        BlendMode::LinearDodge => sum_of(BlendFactor::Zero, BlendFactor::One),
        BlendMode::DestinationIn => sum_of(BlendFactor::Zero, BlendFactor::SrcAlpha),
        BlendMode::ClipToLower => sum_of(BlendFactor::DstAlpha, BlendFactor::OneMinusSrcAlpha),
        BlendMode::SliceFromLower => sum_of(BlendFactor::Zero, BlendFactor::OneMinusSrcAlpha),
        _ => over(),
    }
}

/// The place of a mode in declaration order.
pub open spec fn place(mode: BlendMode) -> int {
    match mode {
        BlendMode::Normal => 0int,
        BlendMode::Multiply => 1,
        BlendMode::Screen => 2,
        BlendMode::Overlay => 3,
        BlendMode::Darken => 4,
        BlendMode::Lighten => 5,
        BlendMode::ColorDodge => 6,
        BlendMode::LinearDodge => 7,
        BlendMode::Add => 8,
        BlendMode::ColorBurn => 9,
        BlendMode::HardLight => 10,
        BlendMode::SoftLight => 11,
        BlendMode::Subtract => 12,
        BlendMode::Difference => 13,
        BlendMode::Exclusion => 14,
        BlendMode::Inverse => 15,
        BlendMode::DestinationIn => 16,
        BlendMode::ClipToLower => 17,
        BlendMode::SliceFromLower => 18,
    }
}

fn add(src_factor: BlendFactor, dst_factor: BlendFactor) -> (r: BlendComponent)
    ensures
        r == sum_of(src_factor, dst_factor),
{
    BlendComponent { src_factor, dst_factor, operation: BlendOperation::Add }
}

impl BlendMode {
    /// All modes, in declaration order.
    pub fn all() -> (r: [BlendMode; 19])
        ensures
            forall|mode: BlendMode| r[#[trigger] place(mode)] == mode,
    {
        [
            BlendMode::Normal,
            BlendMode::Multiply,
            BlendMode::Screen,
            BlendMode::Overlay,
            BlendMode::Darken,
            BlendMode::Lighten,
            BlendMode::ColorDodge,
            BlendMode::LinearDodge,
            BlendMode::Add,
            BlendMode::ColorBurn,
            BlendMode::HardLight,
            BlendMode::SoftLight,
            BlendMode::Subtract,
            BlendMode::Difference,
            BlendMode::Exclusion,
            BlendMode::Inverse,
            BlendMode::DestinationIn,
            BlendMode::ClipToLower,
            BlendMode::SliceFromLower,
        ]
    }

    /// The fixed-function state of the mode. Modes without an exact equivalent
    /// get the state of `Normal`.
    pub fn blend_state(&self) -> (r: BlendState)
        ensures
            r.color == color_blend(*self),
            r.alpha == alpha_blend(*self),
    {
        let above = self::add(BlendFactor::One, BlendFactor::OneMinusSrcAlpha);
        match self {
            // src * dst + dst * (1 - src alpha)
            BlendMode::Multiply => BlendState {
                color: self::add(BlendFactor::Dst, BlendFactor::OneMinusSrcAlpha),
                alpha: above,
            },
            // src + dst * (1 - src)
            BlendMode::Screen => BlendState {
                color: self::add(BlendFactor::One, BlendFactor::OneMinusSrc),
                alpha: above,
            },
            BlendMode::Overlay => BlendState {
                color: self::add(BlendFactor::SrcAlpha, BlendFactor::OneMinusSrcAlpha),
                alpha: above,
            },
            // min(src, dst)
            BlendMode::Darken => BlendState {
                color: BlendComponent {
                    src_factor: BlendFactor::One,
                    dst_factor: BlendFactor::One,
                    operation: BlendOperation::Min,
                },
                alpha: above,
            },
            // max(src, dst)
            BlendMode::Lighten => BlendState {
                color: BlendComponent {
                    src_factor: BlendFactor::One,
                    dst_factor: BlendFactor::One,
                    operation: BlendOperation::Max,
                },
                alpha: above,
            },
            // src * dst + dst
            BlendMode::ColorDodge => BlendState {
                color: self::add(BlendFactor::Dst, BlendFactor::One),
                alpha: self::add(BlendFactor::One, BlendFactor::OneMinusDstAlpha),
            },
            // src + dst
            BlendMode::Add | BlendMode::LinearDodge => BlendState {
                color: self::add(BlendFactor::SrcAlpha, BlendFactor::One),
                alpha: self::add(BlendFactor::Zero, BlendFactor::One),
            },
            // dst - src
            BlendMode::Subtract => BlendState {
                color: BlendComponent {
                    src_factor: BlendFactor::One,
                    dst_factor: BlendFactor::One,
                    operation: BlendOperation::ReverseSubtract,
                },
                alpha: above,
            },
            // dst * src alpha
            BlendMode::DestinationIn => BlendState {
                color: self::add(BlendFactor::Zero, BlendFactor::SrcAlpha),
                alpha: self::add(BlendFactor::Zero, BlendFactor::SrcAlpha),
            },
            // src * dst alpha + dst * (1 - src alpha)
            BlendMode::ClipToLower => BlendState {
                color: self::add(BlendFactor::DstAlpha, BlendFactor::OneMinusSrcAlpha),
                alpha: self::add(BlendFactor::DstAlpha, BlendFactor::OneMinusSrcAlpha),
            },
            // dst * (1 - src alpha)
            BlendMode::SliceFromLower => BlendState {
                color: self::add(BlendFactor::Zero, BlendFactor::OneMinusSrcAlpha),
                alpha: self::add(BlendFactor::Zero, BlendFactor::OneMinusSrcAlpha),
            },
            _ => BlendState { color: above, alpha: above },
        }
    }
}

/// The modes without an exact equivalent blend as `Normal` does.
pub proof fn lemma_fallback_is_normal(mode: BlendMode)
    requires
        needs_shader(mode),
    ensures
        color_blend(mode) == color_blend(BlendMode::Normal),
        alpha_blend(mode) == alpha_blend(BlendMode::Normal),
{
}

/// What a color or alpha value is multiplied with, in parts of `n`: `s` and `d` are
/// the values of the source and the destination, `sa` and `da` their alphas.
pub open spec fn factor(f: BlendFactor, s: int, sa: int, d: int, da: int, n: int) -> int {
    match f {
        BlendFactor::Zero => 0int,
        BlendFactor::One => n,
        BlendFactor::Src => s,
        BlendFactor::OneMinusSrc => n - s,
        BlendFactor::SrcAlpha => sa,
        BlendFactor::OneMinusSrcAlpha => n - sa,
        BlendFactor::Dst => d,
        BlendFactor::OneMinusDst => n - d,
        BlendFactor::DstAlpha => da,
        BlendFactor::OneMinusDstAlpha => n - da,
    }
}

/// What a component makes of two values, in parts of `n * n`. The smaller or larger
/// value is taken without factors.
pub open spec fn drawn(c: BlendComponent, s: int, sa: int, d: int, da: int, n: int) -> int {
    let a = factor(c.src_factor, s, sa, d, da, n) * s;
    let b = factor(c.dst_factor, s, sa, d, da, n) * d;
    match c.operation {
        BlendOperation::Add => a + b,
        BlendOperation::Subtract => a - b,
        BlendOperation::ReverseSubtract => b - a,
        BlendOperation::Min => if s < d {
            n * s
        } else {
            n * d
        },
        BlendOperation::Max => if s < d {
            n * d
        } else {
            n * s
        },
    }
}

/// What the modes do to colors, with the source premultiplied by its alpha.
pub proof fn lemma_colors_blend(s: int, sa: int, d: int, da: int, n: int)
    requires
        0 <= s <= n,
        0 <= sa <= n,
        0 <= d <= n,
        0 <= da <= n,
    ensures
        ({
            let of = |mode: BlendMode| drawn(color_blend(mode), s, sa, d, da, n);
            // The source covers the destination by its alpha.
            &&& of(BlendMode::Normal) == n * s + d * (n - sa)
            &&& sa == n ==> of(BlendMode::Normal) == n * s
            // Black stays black, and what is opaque and white changes nothing.
            &&& of(BlendMode::Multiply) == s * d + d * (n - sa)
            &&& s == n && sa == n ==> of(BlendMode::Multiply) == n * d
            // What is left of the dark is what both leave.
            &&& of(BlendMode::Screen) == n * n - (n - s) * (n - d)
            &&& of(BlendMode::Overlay) == sa * s + d * (n - sa)
            &&& of(BlendMode::Darken) <= n * s && of(BlendMode::Darken) <= n * d
            &&& of(BlendMode::Darken) == n * s || of(BlendMode::Darken) == n * d
            &&& of(BlendMode::Lighten) >= n * s && of(BlendMode::Lighten) >= n * d
            &&& of(BlendMode::Lighten) == n * s || of(BlendMode::Lighten) == n * d
            &&& of(BlendMode::ColorDodge) == d * (s + n)
            &&& of(BlendMode::Add) == n * d + sa * s
            &&& of(BlendMode::LinearDodge) == of(BlendMode::Add)
            &&& of(BlendMode::Subtract) == n * (d - s)
            // The destination stays as far as the source is there, or is not.
            &&& of(BlendMode::DestinationIn) == d * sa
            &&& of(BlendMode::DestinationIn) + of(BlendMode::SliceFromLower) == n * d
            &&& of(BlendMode::ClipToLower) == s * da + d * (n - sa)
        }),
{
    assert((n - sa) * d == d * (n - sa)) by (nonlinear_arith);
    assert(d * s == s * d && sa * d == d * sa && da * s == s * da) by (nonlinear_arith);
    assert(n * s + (n - s) * d == n * n - (n - s) * (n - d)) by (nonlinear_arith);
    assert(d * s + n * d == d * (s + n)) by (nonlinear_arith);
    assert(n * d - n * s == n * (d - s)) by (nonlinear_arith);
    assert(sa * d + (n - sa) * d == n * d) by (nonlinear_arith);
    assert((n - n) * d == 0 && d * (n - n) == 0) by (nonlinear_arith);
    assert(s < d ==> n * s <= n * d) by (nonlinear_arith)
        requires
            n >= 0,
    ;
    assert(d <= s ==> n * d <= n * s) by (nonlinear_arith)
        requires
            n >= 0,
    ;
}

/// What the modes do to alphas.
pub proof fn lemma_alphas_blend(sa: int, da: int, n: int, mode: BlendMode)
    requires
        0 <= sa <= n,
        0 <= da <= n,
    ensures
        ({
            let of = |mode: BlendMode| drawn(alpha_blend(mode), sa, sa, da, da, n);
            // What is seen through both is seen through.
            &&& of(BlendMode::Normal) == n * n - (n - sa) * (n - da)
            &&& mode != BlendMode::ColorDodge && mode != BlendMode::Add && mode
                != BlendMode::LinearDodge && mode != BlendMode::DestinationIn && mode
                != BlendMode::ClipToLower && mode != BlendMode::SliceFromLower ==> of(mode) == of(
                BlendMode::Normal,
            )
            &&& of(BlendMode::Add) == n * da && of(BlendMode::LinearDodge) == n * da
            &&& of(BlendMode::ColorDodge) == n * sa + da * (n - da)
            &&& of(BlendMode::DestinationIn) == da * sa
            &&& of(BlendMode::DestinationIn) + of(BlendMode::SliceFromLower) == n * da
            // Clipping keeps the alpha of the destination.
            &&& of(BlendMode::ClipToLower) == n * da
        }),
{
    assert(n * sa + (n - sa) * da == n * n - (n - sa) * (n - da)) by (nonlinear_arith);
    assert((n - da) * da == da * (n - da) && sa * da == da * sa) by (nonlinear_arith);
    assert(sa * da + (n - sa) * da == n * da) by (nonlinear_arith);
}

} // verus!
