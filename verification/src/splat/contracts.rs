//! Sizes and slots shared with the shaders.

use vstd::prelude::*;

verus! {

/// Splat-sort compute shader: workgroup size per pass.
pub const SPLAT_SORT_WORKGROUP_SIZE: u32 = 256;

/// Splat-sort radix-pass count (4 passes of 8 bits cover a 32-bit key).
pub const SPLAT_SORT_RADIX_PASSES: u32 = 4;

/// Splat-sort bins per radix pass.
pub const SPLAT_SORT_BINS: u32 = 256;

/// Splat-composite push-constant size in bytes.
pub const SPLAT_COMPOSITE_PUSH_CONSTANTS_BYTES: usize = 80;

/// Bind-group layout id of the composite pass's storage buffers (positions, scales,
/// rotations, colors, opacities, sorted permutation).
pub const SPLAT_COMPOSITE_BG_STORAGE: u32 = 0;

/// Bind-group layout id of the composite pass's textures (depth, scene color).
pub const SPLAT_COMPOSITE_BG_TEXTURES: u32 = 1;

} // verus!
