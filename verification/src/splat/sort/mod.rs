//! Sorting splats by depth.

pub mod cpu;
