//! The garbage-collected heap: two generations, marked and swept.
//!
//! Objects are born in the [nursery](nursery). One that survives two collections there
//! moves to the [old generation](old_gen). A store of a young object into an old one goes
//! through the write barrier, which records the old object in the [remembered
//! set](remembered); a collection of the nursery takes the recorded objects for roots.

pub mod barrier;
pub mod counts;
pub mod heap;
pub mod laws;
pub mod nursery;
pub mod object;
pub mod old_gen;
pub mod remembered;
pub mod store;

pub use heap::{GcConfig, GcStats, Heap};
pub use nursery::Nursery;
pub use object::{GcHandle, Obj, ObjModel, INDEX_MASK, OLD_GEN_BIT};
pub use old_gen::OldGen;
pub use remembered::RememberedSet;
pub use store::Color;
