//! Call frames.

use crate::views;
use crate::vm::value::{Value, ValueModel};
use vstd::prelude::*;

verus! {

/// One call frame.
#[derive(Debug)]
pub struct CallFrame {
    /// The function, by its place in the module.
    pub function_id: u16,
    /// Where in its code the next instruction starts.
    pub pc: usize,
    /// The registers.
    pub registers: Vec<Value>,
    /// The register of the caller that gets the result; `None` for the outermost frame.
    pub return_dst: Option<u8>,
}

/// Model of a frame.
#[verifier::ext_equal]
pub struct FrameModel {
    pub function_id: u16,
    pub pc: int,
    pub regs: Seq<ValueModel>,
    pub ret: Option<u8>,
}

impl View for CallFrame {
    type V = FrameModel;

    open spec fn view(&self) -> FrameModel {
        FrameModel {
            function_id: self.function_id,
            pc: self.pc as int,
            regs: views::views(self.registers@),
            ret: self.return_dst,
        }
    }
}

/// A frame at the start of a function, with `n` registers.
pub open spec fn fresh_frame(function_id: u16, n: int, ret: Option<u8>) -> FrameModel {
    FrameModel { function_id, pc: 0, regs: Seq::new(n as nat, |i: int| ValueModel::Nil), ret }
}

/// A frame at the start of a function, with values in its first registers.
pub open spec fn entry_frame(function_id: u16, n: int, args: Seq<ValueModel>, ret: Option<u8>) -> FrameModel {
    FrameModel {
        function_id,
        pc: 0,
        regs: Seq::new(
            n as nat,
            |i: int|
                if i < args.len() {
                    args[i]
                } else {
                    ValueModel::Nil
                },
        ),
        ret,
    }
}

impl FrameModel {
    /// The frame with a value in a register.
    pub open spec fn with(self, r: int, v: ValueModel) -> FrameModel {
        FrameModel { regs: self.regs.update(r, v), ..self }
    }

    /// The frame at another instruction.
    pub open spec fn to(self, pc: int) -> FrameModel {
        FrameModel { pc, ..self }
    }
}

impl CallFrame {
    /// A frame at the start of a function, all registers nil.
    pub fn new(function_id: u16, register_count: u8, return_dst: Option<u8>) -> (r: CallFrame)
        ensures
            r@ == fresh_frame(function_id, register_count as int, return_dst),
    {
        let mut registers: Vec<Value> = Vec::new();
        while registers.len() < register_count as usize
            invariant
                registers@.len() <= register_count,
                forall|i: int| 0 <= i < registers@.len() ==> (#[trigger] registers@[i])@ is Nil,
            decreases register_count - registers.len(),
        {
            registers.push(Value::Nil);
        }
        let r = CallFrame { function_id, pc: 0, registers, return_dst };
        assert(r@ =~= fresh_frame(function_id, register_count as int, return_dst));
        r
    }

    /// Reads a register.
    pub fn reg(&self, r: u8) -> (v: &Value)
        requires
            r < self@.regs.len(),
        ensures
            v@ == self@.regs[r as int],
    {
        &self.registers[r as usize]
    }

    /// Writes a register.
    pub fn set_reg(&mut self, r: u8, v: Value)
        requires
            r < old(self)@.regs.len(),
        ensures
            final(self)@ == old(self)@.with(r as int, v@),
    {
        let ghost before = self@;
        self.registers.set(r as usize, v);
        assert(self@ =~= before.with(r as int, v@));
    }

    /// A frame at the start of a function, with `args` in its first registers.
    pub(crate) fn entering(function_id: u16, register_count: u8, args: Vec<Value>, return_dst: Option<u8>) -> (r: CallFrame)
        requires
            args@.len() <= register_count,
        ensures
            r@ == entry_frame(function_id, register_count as int, views::views(args@), return_dst),
    {
        let ghost m = views::views(args@);
        let mut registers: Vec<Value> = args;
        while registers.len() < register_count as usize
            invariant
                m.len() <= registers@.len() <= register_count,
                forall|i: int|
                    0 <= i < registers@.len() ==> (#[trigger] registers@[i])@ == if i < m.len() {
                        m[i]
                    } else {
                        ValueModel::Nil
                    },
            decreases register_count - registers.len(),
        {
            registers.push(Value::Nil);
        }
        let r = CallFrame { function_id, pc: 0, registers, return_dst };
        assert(r@ =~= entry_frame(function_id, register_count as int, m, return_dst));
        r
    }
}

} // verus!
