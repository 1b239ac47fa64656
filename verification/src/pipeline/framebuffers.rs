//! When offscreen targets have to be made anew.

use vstd::prelude::*;

verus! {

/// Size and sample count that a depth-stencil target was made for.
#[derive(Debug, Clone, Copy, PartialEq, Eq, Structural)]
pub struct SceneTarget {
    pub width: u32,
    pub height: u32,
    pub samples: u32,
}

/// The extent of a texture for a view: at least one texel each way.
pub fn texture_extent(width: u32, height: u32) -> (r: (u32, u32))
    ensures
        r.0 == (if width == 0 {
            1
        } else {
            width
        }),
        r.1 == (if height == 0 {
            1
        } else {
            height
        }),
{
    (
        if width == 0 {
            1
        } else {
            width
        },
        if height == 0 {
            1
        } else {
            height
        },
    )
}

/// Whether the offscreen layers no longer match the view.
pub fn layers_need_resize(old_size: (u32, u32), new_size: (u32, u32)) -> (r: bool)
    ensures
        r == (old_size != new_size),
{
    old_size.0 != new_size.0 || old_size.1 != new_size.1
}

/// Whether the depth-stencil target no longer matches the view.
pub fn scene_needs_resize(current: SceneTarget, wanted: SceneTarget) -> (r: bool)
    ensures
        r == (current != wanted),
{
    current != wanted
}

} // verus!
