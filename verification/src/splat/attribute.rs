//! Attribute names that the glTF extension defines.

use vstd::prelude::*;

verus! {

/// Per-splat world-space position, three floats.
pub const POSITION: &'static str = "POSITION";

/// Per-splat ellipsoid scale (log space), three floats.
pub const SCALE: &'static str = "_SCALE";

/// Per-splat orientation quaternion, four floats (x, y, z, w).
pub const ROTATION: &'static str = "_ROTATION";

/// Per-splat base color, with the alpha in the last of its four floats.
pub const COLOR_0: &'static str = "COLOR_0";

/// Per-splat spherical-harmonics coefficients, 27 floats.
pub const SPHERICAL_HARMONICS: &'static str = "_SPHERICAL_HARMONICS";

} // verus!
