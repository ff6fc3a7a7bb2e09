//! The register virtual machine.
//!
//! - [`Value`] is a runtime value.
//! - [`CallFrame`] is the register window of a call.
//! - [`Vm`] holds a module, its heap and its host functions.
//! - [`run`] is the dispatch loop; [`step`] says what each instruction does.

pub mod dispatch;
pub mod frame;
pub mod machine;
pub mod soundness;
pub mod step;
pub mod value;
pub mod words;

pub use dispatch::{run, StopReason};
pub use frame::CallFrame;
pub use machine::Vm;
pub use value::{summary, Value};
