//! What the composite pass binds.
//!
//! The pass reads the splat buffers, the sorted permutation and the depth target,
//! and blends back to front into the scene color.

use vstd::prelude::*;

verus! {

/// Per-frame push constants of the composite pass: 80 bytes.
#[derive(Clone, Copy, Debug)]
pub struct PushConstants {
    /// World to clip transform: sixteen floats, by their bits.
    pub view_projection: [u32; 16],
    /// Viewport extent in pixels (width, height).
    pub viewport_extent: [u32; 2],
    /// Frame counter.
    pub frame_idx: u64,
}

/// The resources of the composite pass for one frame.
#[derive(Clone, Copy, Debug, PartialEq, Eq, Structural)]
pub struct SplatCompositePass {
    /// Storage-buffer handle for the splat attributes.
    pub splat_buffer: u32,
    /// Storage-buffer handle for the per-frame sorted permutation.
    pub sorted_perm: u32,
    /// Texture-view handle for the depth target (read-only sample).
    pub gbuffer_depth: u32,
    /// Texture-view handle for the scene color (blend target).
    pub scene_color: u32,
    /// Splat count of the bound cloud; the instance count of the draw.
    pub splat_count: u32,
}

impl SplatCompositePass {
    /// A pass over the given resources.
    pub fn new(splat_buffer: u32, sorted_perm: u32, gbuffer_depth: u32, scene_color: u32, splat_count: u32) -> (r:
        SplatCompositePass)
        ensures
            r == (SplatCompositePass { splat_buffer, sorted_perm, gbuffer_depth, scene_color, splat_count }),
    {
        SplatCompositePass { splat_buffer, sorted_perm, gbuffer_depth, scene_color, splat_count }
    }

    /// Stable pass name, as telemetry shows it.
    pub fn name() -> (r: &'static str)
        ensures
            r@ == "splat.composite"@,
    {
        "splat.composite"
    }
}

} // verus!
