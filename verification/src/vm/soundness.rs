//! Verified code does not go wrong in ways that the verifier rules out.

use crate::bytecode;
use crate::bytecode::{ModuleModel, Opcode};
use crate::ffi::BindingModel;
use crate::gc::heap::HeapModel;
use crate::verify;
use crate::verify::{Limits, Operand};
use crate::vm::frame;
use crate::vm::frame::FrameModel;
use crate::vm::step;
use crate::vm::step::{Effect, MachineModel, StopModel, Trouble};
use crate::vm::value::ValueModel;
use vstd::prelude::*;

verus! {

/// Whether a frame stands at an instruction of its function, or at the end of its code, and
/// has the registers that the function asks for.
pub open spec fn frame_ok(m: ModuleModel, f: FrameModel) -> bool {
    &&& f.function_id < m.functions.len()
    &&& f.regs.len() == m.functions[f.function_id as int].max_register
    &&& 0 <= f.pc <= m.functions[f.function_id as int].code.len()
    &&& verify::starts(m.functions[f.function_id as int].code, 0, f.pc)
}

/// Whether a frame above `caller` returns to a register that the caller has.
pub open spec fn returns_to(f: FrameModel, caller: FrameModel) -> bool {
    f.ret matches Some(d) ==> d < caller.regs.len()
}

/// Whether all frames are right, and each returns to a register of the one below.
pub open spec fn stack_ok(m: ModuleModel, frames: Seq<FrameModel>) -> bool {
    &&& frames.len() > 0
    &&& forall|i: int| 0 <= i < frames.len() ==> frame_ok(m, #[trigger] frames[i])
    &&& forall|i: int| 0 < i < frames.len() ==> returns_to(#[trigger] frames[i], frames[i - 1])
}

/// Whether code is short enough to be held in memory.
pub open spec fn fits_memory(m: ModuleModel) -> bool {
    forall|i: int| 0 <= i < m.functions.len() ==> (#[trigger] m.functions[i]).code.len() <= usize::MAX
}

/// Whether an effect keeps a frame right, given where its function may stand.
spec fn effect_ok(m: ModuleModel, f: FrameModel, e: Effect) -> bool {
    match e {
        Effect::Go(g, h) => frame_ok(m, g) && g.regs.len() == f.regs.len() && g.ret == f.ret,
        Effect::Enter(g, c) => frame_ok(m, g) && g.regs.len() == f.regs.len() && g.ret == f.ret && frame_ok(m, c)
            && returns_to(c, g),
        Effect::Leave(v) => true,
        Effect::Halt(s, g) => s != StopModel::Error(Trouble::Malformed) && !(s is Trapped),
    }
}

proof fn lemma_operands_ok(code: Seq<u8>, pc: int, l: Limits, op: Opcode)
    requires
        0 <= pc < code.len(),
        verify::instruction_fault(code, pc, l) is None,
        bytecode::op_of(code[pc]) == Some(op),
    ensures
        op != Opcode::Trap,
        pc + bytecode::len_of(op, code, pc) <= code.len(),
        forall|k: int|
            0 <= k < verify::operands(op, code, pc).len() ==> verify::operand_fault(
                #[trigger] verify::operands(op, code, pc)[k],
                pc,
                l,
            ) is None,
{
    reveal(bytecode::op_of);
    let os = verify::operands(op, code, pc);
    assert forall|k: int| 0 <= k < os.len() implies verify::operand_fault(#[trigger] os[k], pc, l) is None by {
        verify::lemma_operand(os, 0, k, pc, l);
    }
}

proof fn lemma_gather(regs: Seq<ValueModel>, code: Seq<u8>, pc: int, l: Limits, op: Opcode, base: int, p: int, n: int)
    requires
        forall|k: int|
            0 <= k < verify::operands(op, code, pc).len() ==> verify::operand_fault(
                #[trigger] verify::operands(op, code, pc)[k],
                pc,
                l,
            ) is None,
        l.regs == regs.len(),
        0 <= base,
        0 <= n,
        verify::operands(op, code, pc).len() == base + n,
        forall|i: int|
            0 <= i < n ==> #[trigger] verify::operands(op, code, pc)[base + i] == Operand::Reg(code[p + i]),
    ensures
        step::gather(regs, code, p, n) is Ok,
        step::gather(regs, code, p, n)->Ok_0.len() == n,
{
    let os = verify::operands(op, code, pc);
    assert forall|i: int| p <= i < p + n implies (#[trigger] code[i]) < regs.len() by {
        assert(os[base + (i - p)] == Operand::Reg(code[p + (i - p)]));
    }
}

#[verifier::spinoff_prover]
#[verifier::rlimit(80)]
proof fn lemma_value_ok(op: Opcode, m: ModuleModel, f: FrameModel, code: Seq<u8>, heap: HeapModel, l: Limits)
    requires
        forall|k: int|
            0 <= k < verify::operands(op, code, f.pc).len() ==> verify::operand_fault(
                #[trigger] verify::operands(op, code, f.pc)[k],
                f.pc,
                l,
            ) is None,
        l.regs == f.regs.len(),
        l.consts <= m.constants.len(),
        crate::vm::dispatch::plain(op),
    ensures
        step::value_of(op, code, f.pc, f.regs, m.constants, heap) != Err::<ValueModel, Trouble>(Trouble::Malformed),
        code[f.pc + 1] < f.regs.len(),
{
    reveal(step::value_of);
    reveal(verify::operands);
    let os = verify::operands(op, code, f.pc);
    let pc = f.pc;
    assert(os[0] == Operand::Reg(code[pc + 1]));
    match op {
        Opcode::ConstNil | Opcode::ConstTrue | Opcode::ConstFalse => {},
        Opcode::ConstInt | Opcode::ConstFloat | Opcode::ConstStr => {
            assert(os[1] == Operand::Pool(verify::word(code, pc + 2)));
        },
        Opcode::Move | Opcode::Neg | Opcode::Not | Opcode::ArrayLen => {
            assert(os[1] == Operand::Reg(code[pc + 2]));
        },
        Opcode::StructGet => {
            assert(os[1] == Operand::Reg(code[pc + 2]));
            assert(os[2] == Operand::Pool(verify::word(code, pc + 3)));
        },
        _ => {
            assert(os[1] == Operand::Reg(code[pc + 2]));
            assert(os[2] == Operand::Reg(code[pc + 3]));
        },
    }
}

#[verifier::spinoff_prover]
#[verifier::rlimit(80)]
proof fn lemma_store_ok(op: Opcode, m: ModuleModel, f: FrameModel, code: Seq<u8>, heap: HeapModel, l: Limits)
    requires
        forall|k: int|
            0 <= k < verify::operands(op, code, f.pc).len() ==> verify::operand_fault(
                #[trigger] verify::operands(op, code, f.pc)[k],
                f.pc,
                l,
            ) is None,
        l.regs == f.regs.len(),
        l.consts <= m.constants.len(),
        op == Opcode::ArraySet || op == Opcode::MapSet || op == Opcode::StructSet,
    ensures
        step::heap_after(op, code, f.pc, f.regs, m.constants, heap) != Err::<HeapModel, Trouble>(Trouble::Malformed),
{
    reveal(step::heap_after);
    reveal(verify::operands);
    let os = verify::operands(op, code, f.pc);
    let pc = f.pc;
    assert(os[0] == Operand::Reg(code[pc + 1]));
    if op == Opcode::StructSet {
        assert(os[1] == Operand::Pool(verify::word(code, pc + 2)));
        assert(os[2] == Operand::Reg(code[pc + 4]));
    } else {
        assert(os[1] == Operand::Reg(code[pc + 2]));
        assert(os[2] == Operand::Reg(code[pc + 3]));
    }
}

#[verifier::spinoff_prover]
#[verifier::rlimit(80)]
proof fn lemma_make_ok(op: Opcode, f: FrameModel, code: Seq<u8>, l: Limits)
    requires
        forall|k: int|
            0 <= k < verify::operands(op, code, f.pc).len() ==> verify::operand_fault(
                #[trigger] verify::operands(op, code, f.pc)[k],
                f.pc,
                l,
            ) is None,
        l.regs == f.regs.len(),
        op == Opcode::ArrayNew || op == Opcode::MapNew || op == Opcode::StructNew || op == Opcode::ClosureMake,
    ensures
        step::object_of(op, code, f.pc, f.regs) is Ok,
        code[f.pc + 1] < f.regs.len(),
{
    reveal(step::object_of);
    reveal(verify::operands);
    let os = verify::operands(op, code, f.pc);
    let pc = f.pc;
    assert(os[0] == Operand::Reg(code[pc + 1]));
    if op == Opcode::ArrayNew {
        lemma_gather(f.regs, code, pc, l, op, 1, pc + 3, code[pc + 2] as int);
    } else if op == Opcode::ClosureMake {
        lemma_gather(f.regs, code, pc, l, op, 2, pc + 5, code[pc + 4] as int);
    }
}

#[verifier::spinoff_prover]
#[verifier::rlimit(80)]
proof fn lemma_effect_ok<F>(m: ModuleModel, table: Seq<BindingModel<F>>, f: FrameModel, heap: HeapModel, op: Opcode)
    requires
        verify::verified(m),
        fits_memory(m),
        frame_ok(m, f),
        f.pc < m.functions[f.function_id as int].code.len(),
        bytecode::op_of(m.functions[f.function_id as int].code[f.pc]) == Some(op),
    ensures
        effect_ok(m, f, step::effect(op, m, table, f, m.functions[f.function_id as int].code, heap)),
        f.pc + bytecode::len_of(op, m.functions[f.function_id as int].code, f.pc) <= m.functions[f.function_id as int].code.len(),
{
    let fm = m.functions[f.function_id as int];
    let code = fm.code;
    let pc = f.pc;
    let l = verify::limits(fm, m);
    assert(verify::function_fault(m.functions[f.function_id as int], m) is None);
    verify::law_accepted_instructions(fm, m, pc);
    lemma_operands_ok(code, pc, l, op);
    let os = verify::operands(op, code, pc);
    match op {
        Opcode::Trap => {},
        Opcode::Nop | Opcode::ReturnNil => {},
        Opcode::Jmp => {},
        Opcode::JmpIfFalse | Opcode::JmpIfTrue => {
            reveal(verify::operands);
            assert(os[0] == Operand::Reg(code[pc + 1]));
        },
        Opcode::ReturnVal => {
            reveal(verify::operands);
            assert(os[0] == Operand::Reg(code[pc + 1]));
        },
        Opcode::Call => {
            reveal(verify::operands);
            reveal(step::called);
            assert(os[0] == Operand::Reg(code[pc + 1]));
            assert(os[1] == Operand::Func(verify::word(code, pc + 2)));
            lemma_gather(f.regs, code, pc, l, op, 2, pc + 5, code[pc + 4] as int);
        },
        Opcode::FfiCall => {
            reveal(verify::operands);
            reveal(step::host_called);
            lemma_gather(f.regs, code, pc, l, op, 1, pc + 5, code[pc + 4] as int);
        },
        Opcode::CallClosure => {
            reveal(verify::operands);
            reveal(step::closure_called);
            assert(os[0] == Operand::Reg(code[pc + 1]));
            assert(os[1] == Operand::Reg(code[pc + 2]));
            lemma_gather(f.regs, code, pc, l, op, 2, pc + 4, code[pc + 3] as int);
        },
        Opcode::ArrayNew | Opcode::MapNew | Opcode::StructNew | Opcode::ClosureMake => {
            lemma_make_ok(op, f, code, l);
        },
        Opcode::ArraySet | Opcode::MapSet | Opcode::StructSet => {
            lemma_store_ok(op, m, f, code, heap, l);
        },
        _ => {
            lemma_value_ok(op, m, f, code, heap, l);
        },
    }
}

/// Code that the verifier accepts never runs into an operand, a constant or a place in the
/// code that does not exist, nor into an unknown opcode or the debugger's mark: whatever a
/// step stops with is something else, and a step that goes on leaves frames that again
/// stand at instructions of their functions.
pub proof fn law_verified_code_is_never_malformed<F>(m: ModuleModel, table: Seq<BindingModel<F>>, s: MachineModel)
    requires
        verify::verified(m),
        fits_memory(m),
        stack_ok(m, s.frames),
    ensures
        step::step(m, table, s).1 != Some(StopModel::Error(Trouble::Malformed)),
        !(step::step(m, table, s).1 matches Some(StopModel::Trapped(..))),
        step::step(m, table, s).1 is None ==> stack_ok(m, step::step(m, table, s).0.frames),
{
    let rest = s.frames.drop_last();
    let f = s.frames.last();
    let heap = s.heap;
    assert(s.frames[s.frames.len() - 1] == f);
    assert(frame_ok(m, f));
    assert forall|i: int| 0 <= i < rest.len() implies frame_ok(m, #[trigger] rest[i]) by {
        assert(rest[i] == s.frames[i]);
    }
    assert forall|i: int| 0 < i < rest.len() implies returns_to(#[trigger] rest[i], rest[i - 1]) by {
        assert(rest[i] == s.frames[i] && rest[i - 1] == s.frames[i - 1]);
    }
    if rest.len() > 0 {
        assert(returns_to(s.frames[s.frames.len() - 1], s.frames[s.frames.len() - 2]));
        assert(rest.last() == s.frames[s.frames.len() - 2]);
    }
    let fm = m.functions[f.function_id as int];
    let code = fm.code;
    if f.pc >= code.len() {
        if f.ret is Some && rest.len() > 0 {
            lemma_given_ok(m, rest, f.ret->0, ValueModel::Nil, heap);
        }
    } else {
        assert(verify::function_fault(m.functions[f.function_id as int], m) is None);
        verify::law_accepted_instructions(fm, m, f.pc);
        let op = bytecode::op_of(code[f.pc])->0;
        lemma_effect_ok(m, table, f, heap, op);
        match step::effect(op, m, table, f, code, heap) {
            Effect::Go(g, h) => {
                lemma_push_ok(m, rest, g);
            },
            Effect::Enter(g, c) => {
                lemma_push_ok(m, rest, g);
                lemma_push_ok(m, rest.push(g), c);
            },
            Effect::Leave(v) => {
                if f.ret is Some && rest.len() > 0 {
                    lemma_given_ok(m, rest, f.ret->0, v, heap);
                }
            },
            Effect::Halt(_, _) => {},
        }
    }
}

proof fn lemma_push_ok(m: ModuleModel, rest: Seq<FrameModel>, g: FrameModel)
    requires
        forall|i: int| 0 <= i < rest.len() ==> frame_ok(m, #[trigger] rest[i]),
        forall|i: int| 0 < i < rest.len() ==> returns_to(#[trigger] rest[i], rest[i - 1]),
        frame_ok(m, g),
        rest.len() > 0 ==> returns_to(g, rest.last()),
    ensures
        stack_ok(m, rest.push(g)),
{
    let t = rest.push(g);
    assert forall|i: int| 0 <= i < t.len() implies frame_ok(m, #[trigger] t[i]) by {
        if i < rest.len() {
            assert(t[i] == rest[i]);
        }
    }
    assert forall|i: int| 0 < i < t.len() implies returns_to(#[trigger] t[i], t[i - 1]) by {
        assert(t[i - 1] == rest[i - 1]);
        if i < rest.len() {
            assert(t[i] == rest[i]);
        }
    }
}

proof fn lemma_given_ok(m: ModuleModel, rest: Seq<FrameModel>, dst: u8, v: ValueModel, heap: HeapModel)
    requires
        rest.len() > 0,
        forall|i: int| 0 <= i < rest.len() ==> frame_ok(m, #[trigger] rest[i]),
        forall|i: int| 0 < i < rest.len() ==> returns_to(#[trigger] rest[i], rest[i - 1]),
        dst < rest.last().regs.len(),
    ensures
        step::given(rest, dst, v, heap).1 is None,
        stack_ok(m, step::given(rest, dst, v, heap).0.frames),
{
    let below = rest.drop_last();
    let caller = rest.last();
    assert(rest[rest.len() - 1] == caller);
    assert(frame_ok(m, caller));
    assert forall|i: int| 0 <= i < below.len() implies frame_ok(m, #[trigger] below[i]) by {
        assert(below[i] == rest[i]);
    }
    assert forall|i: int| 0 < i < below.len() implies returns_to(#[trigger] below[i], below[i - 1]) by {
        assert(below[i] == rest[i] && below[i - 1] == rest[i - 1]);
    }
    if below.len() > 0 {
        assert(returns_to(rest[rest.len() - 1], rest[rest.len() - 2]));
    }
    lemma_push_ok(m, below, caller.with(dst as int, v));
}

} // verus!
