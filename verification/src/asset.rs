//! Compiled modules as assets.

use crate::bytecode;
use crate::bytecode::{BytecodeError, Module, ModuleModel};
use vstd::prelude::*;

verus! {

/// A compiled sli module asset.
#[derive(Clone, Debug, PartialEq, Eq)]
pub struct ScriptModule {
    /// Decoded bytecode module.
    pub module: Module,
}

impl View for ScriptModule {
    type V = ModuleModel;

    open spec fn view(&self) -> ModuleModel {
        self.module@
    }
}

impl ScriptModule {
    /// Borrows the underlying bytecode module.
    pub fn module(&self) -> (r: &Module)
        ensures
            *r == self.module,
    {
        &self.module
    }

    /// Reads an asset from the bytes of an encoded module; the error says in words
    /// what is wrong with them.
    pub fn decode(bytes: &[u8]) -> (r: Result<ScriptModule, String>)
        ensures
            match r {
                Ok(m) => bytecode::decoded(bytes@) == Ok::<ModuleModel, BytecodeError>(m@),
                Err(text) => bytecode::decoded(bytes@) matches Err(e) && text@ == bytecode::error_text(e),
            },
    {
        match bytecode::decode(bytes) {
            Ok(module) => Ok(ScriptModule { module }),
            Err(e) => Err(e.message()),
        }
    }
}

} // verus!
