//! Gaussian splat clouds: storage, the ESPL asset format, the depth sort, and what
//! the composite pass binds.
//!
//! Attributes are single-precision floats; they are held by their bit patterns.

pub mod asset;
pub mod attribute;
pub mod cloud;
pub mod composite;
pub mod contracts;
pub mod gltf_ext;
pub mod sort;

pub use asset::{decode, encode, SplatCloudMeta};
pub use cloud::{SplatCloud, SplatCloudBuilder};
pub use composite::SplatCompositePass;
