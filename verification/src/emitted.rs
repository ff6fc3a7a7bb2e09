//! What the code generator emits is accepted by the verifier.

use crate::ast::{BlockModel, DeclModel, ExprKindModel, ExprModel, FnDeclModel, ParamModel, StmtKindModel, StmtModel, LitModel};
use crate::bytecode;
use crate::bytecode::{ConstModel, FunctionModel, Opcode};
use crate::codegen;
use crate::codegen::{Cx, Gen};
use crate::source::Span;
use crate::verify;
use crate::verify::{Limits, Operand};
use vstd::prelude::*;

verus! {

// --- walking code ---------------------------------------------------------------

/// Whether code is right as far as it goes: each instruction by itself, and where its
/// jumps land.
spec fn right(code: Seq<u8>, l: Limits) -> bool {
    verify::scan(code, 0, upto(l, code)) is None && verify::jumps(code, 0) is None
}

/// The limits with the end of some code.
spec fn upto(l: Limits, code: Seq<u8>) -> Limits {
    Limits { end: code.len() as int, ..l }
}

/// Whether `code` starts `d`.
pub open spec fn starts_with(d: Seq<u8>, code: Seq<u8>) -> bool {
    code.len() <= d.len() && d.take(code.len() as int) == code
}

/// An instruction that is right by itself is known and complete.
proof fn lemma_instruction(code: Seq<u8>, pc: int, l: Limits)
    requires
        verify::instruction_fault(code, pc, l) is None,
        0 <= pc < code.len(),
    ensures
        bytecode::op_of(code[pc]) is Some,
        verify::next_pc(code, pc) == pc + bytecode::len_of(bytecode::op_of(code[pc])->0, code, pc),
        pc < verify::next_pc(code, pc) <= code.len(),
{
}

/// Bytes that two codes share make the same instruction of it.
proof fn lemma_same_instruction(c: Seq<u8>, d: Seq<u8>, pc: int, l: Limits, m: Limits)
    requires
        verify::instruction_fault(c, pc, l) is None,
        0 <= pc < c.len(),
        c.len() <= d.len(),
        forall|i: int| pc <= i < verify::next_pc(c, pc) ==> c[i] == d[i],
        m.regs == l.regs && m.consts == l.consts && m.fns == l.fns && l.end <= m.end,
    ensures
        verify::instruction_fault(d, pc, m) is None,
        verify::next_pc(d, pc) == verify::next_pc(c, pc),
        verify::jump_of(d, pc) == verify::jump_of(c, pc),
{
    lemma_instruction(c, pc, l);
    let op = bytecode::op_of(c[pc])->0;
    let n = bytecode::len_of(op, c, pc);
    assert(bytecode::len_of(op, d, pc) == n) by {
        if op == Opcode::Call || op == Opcode::FfiCall || op == Opcode::ClosureMake {
            assert(pc + 5 <= pc + n);
            assert(c[pc + 4] == d[pc + 4]);
        } else if op == Opcode::ArrayNew {
            assert(c[pc + 2] == d[pc + 2]);
        } else if op == Opcode::CallClosure {
            assert(c[pc + 3] == d[pc + 3]);
        }
    }
    lemma_same_operands(c, d, pc);
    let os = verify::operands(op, c, pc);
    assert(verify::operands(op, d, pc) == os);
    lemma_wider(os, 0, pc, l, m);
}

proof fn lemma_wider(os: Seq<Operand>, i: int, pc: int, l: Limits, m: Limits)
    requires
        verify::operands_fault(os, i, pc, l) is None,
        m.regs == l.regs && m.consts == l.consts && m.fns == l.fns && l.end <= m.end,
        0 <= i,
    ensures
        verify::operands_fault(os, i, pc, m) is None,
    decreases os.len() - i,
{
    if i < os.len() {
        lemma_wider(os, i + 1, pc, l, m);
    }
}

#[verifier::spinoff_prover]
proof fn lemma_same_operands(c: Seq<u8>, d: Seq<u8>, pc: int)
    requires
        0 <= pc < c.len(),
        c.len() <= d.len(),
        bytecode::op_of(c[pc]) is Some,
        pc + bytecode::len_of(bytecode::op_of(c[pc])->0, c, pc) <= c.len(),
        forall|i: int| pc <= i < pc + bytecode::len_of(bytecode::op_of(c[pc])->0, c, pc) ==> c[i] == d[i],
    ensures
        ({
            let op = bytecode::op_of(c[pc])->0;
            verify::operands(op, d, pc) == verify::operands(op, c, pc)
        }),
        verify::jump_of(d, pc) == verify::jump_of(c, pc),
{
    reveal(verify::operands);
    let op = bytecode::op_of(c[pc])->0;
    assert(c[pc] == d[pc]);
    assert(verify::operands(op, d, pc) =~= verify::operands(op, c, pc));
}

/// Walking over a part that two codes share.
proof fn lemma_walk_on(c: Seq<u8>, d: Seq<u8>, pc: int, l: Limits, m: Limits)
    requires
        verify::scan(c, pc, l) is None,
        0 <= pc <= c.len(),
        starts_with(d, c),
        m.regs == l.regs && m.consts == l.consts && m.fns == l.fns && l.end <= m.end,
        verify::scan(d, c.len() as int, m) is None,
    ensures
        verify::scan(d, pc, m) is None,
        verify::starts(d, pc, c.len() as int),
        forall|t: int| verify::starts(c, pc, t) ==> #[trigger] verify::starts(d, pc, t),
        forall|t: int| pc <= t && verify::starts(d, c.len() as int, t) ==> #[trigger] verify::starts(d, pc, t),
    decreases c.len() - pc,
{
    assert(forall|i: int| 0 <= i < c.len() ==> c[i] == d.take(c.len() as int)[i]);
    if pc < c.len() {
        lemma_instruction(c, pc, l);
        let n = verify::next_pc(c, pc);
        lemma_same_instruction(c, d, pc, l, m);
        lemma_walk_on(c, d, n, l, m);
        assert forall|t: int| verify::starts(c, pc, t) implies #[trigger] verify::starts(d, pc, t) by {
            if t != pc {
                assert(verify::starts(c, n, t));
                assert(verify::starts(d, n, t));
            }
        }
        assert forall|t: int| pc <= t && verify::starts(d, c.len() as int, t) implies #[trigger] verify::starts(d, pc, t) by {
            lemma_starts_above(d, c.len() as int, t);
            assert(verify::starts(d, n, t));
        }
        assert(verify::starts(d, n, c.len() as int));
    } else {
        assert forall|t: int| verify::starts(c, pc, t) implies #[trigger] verify::starts(d, pc, t) by {
            assert(t == pc);
        }
    }
}

proof fn lemma_starts_above(d: Seq<u8>, pc: int, t: int)
    requires
        verify::starts(d, pc, t),
        0 <= pc <= d.len(),
    ensures
        pc <= t <= d.len(),
    decreases d.len() - pc,
{
    if t != pc {
        lemma_starts_above(d, verify::next_pc(d, pc), t);
    }
}

/// The jumps of the first part land well in the whole.
proof fn lemma_jumps_on(c: Seq<u8>, d: Seq<u8>, pc: int, l: Limits, m: Limits)
    requires
        verify::scan(c, pc, l) is None,
        verify::jumps(c, pc) is None,
        0 <= pc <= c.len(),
        starts_with(d, c),
        m.regs == l.regs && m.consts == l.consts && m.fns == l.fns && l.end <= m.end,
        forall|t: int| verify::starts(c, 0, t) ==> #[trigger] verify::starts(d, 0, t),
        verify::jumps(d, c.len() as int) is None,
    ensures
        verify::jumps(d, pc) is None,
    decreases c.len() - pc,
{
    assert(forall|i: int| 0 <= i < c.len() ==> c[i] == d.take(c.len() as int)[i]);
    if pc < c.len() {
        lemma_instruction(c, pc, l);
        lemma_same_instruction(c, d, pc, l, m);
        lemma_jumps_on(c, d, verify::next_pc(c, pc), l, m);
    }
}

/// One more instruction behind right code: `ins` by itself must be right there, and if it
/// jumps, it must land where an instruction starts, or behind it.
proof fn lemma_append(c: Seq<u8>, d: Seq<u8>, l: Limits)
    requires
        right(c, l),
        starts_with(d, c),
        c.len() < d.len(),
        verify::instruction_fault(d, c.len() as int, upto(l, d)) is None,
        verify::next_pc(d, c.len() as int) == d.len(),
        verify::jump_of(d, c.len() as int) matches Some(t) ==> verify::starts(c, 0, t) || t == d.len(),
    ensures
        right(d, l),
        verify::starts(d, 0, c.len() as int),
{
    let n = c.len() as int;
    let m = upto(l, d);
    assert(verify::scan(d, d.len() as int, m) is None);
    assert(verify::scan(d, n, m) is None);
    lemma_walk_on(c, d, 0, upto(l, c), m);
    assert(verify::starts(d, d.len() as int, d.len() as int));
    assert(verify::starts(d, n, d.len() as int));
    assert(verify::starts(d, 0, d.len() as int));
    assert(verify::jumps(d, d.len() as int) is None);
    assert(verify::jumps(d, n) is None) by {
        if let Some(t) = verify::jump_of(d, n) {
            assert(verify::starts(d, 0, t));
        }
    }
    lemma_jumps_on(c, d, 0, upto(l, c), m);
}

/// Walking over a part that two codes share at their ends.
proof fn lemma_walk_end(c: Seq<u8>, d: Seq<u8>, pc: int, l: Limits)
    requires
        verify::scan(c, pc, l) is None,
        0 <= pc <= c.len(),
        d.len() == c.len(),
        forall|i: int| pc <= i < c.len() ==> c[i] == d[i],
    ensures
        verify::scan(d, pc, l) is None,
        verify::starts(c, pc, c.len() as int),
        forall|t: int| verify::starts(c, pc, t) ==> #[trigger] verify::starts(d, pc, t),
    decreases c.len() - pc,
{
    if pc < c.len() {
        lemma_instruction(c, pc, l);
        let n = verify::next_pc(c, pc);
        lemma_same_instruction(c, d, pc, l, l);
        lemma_walk_end(c, d, n, l);
        assert forall|t: int| verify::starts(c, pc, t) implies #[trigger] verify::starts(d, pc, t) by {
            if t != pc {
                assert(verify::starts(c, n, t));
                assert(verify::starts(d, n, t));
            }
        }
    } else {
        assert forall|t: int| verify::starts(c, pc, t) implies #[trigger] verify::starts(d, pc, t) by {
            assert(t == pc);
        }
    }
}

/// Walking over a jump whose distance was changed.
proof fn lemma_walk_patched(c: Seq<u8>, d: Seq<u8>, from: int, pc: int, l: Limits)
    requires
        verify::scan(c, from, l) is None,
        0 <= from <= pc < c.len(),
        d.len() == c.len(),
        verify::starts(c, from, pc),
        forall|i: int| 0 <= i < c.len() && !(pc < i < verify::next_pc(c, pc)) ==> c[i] == d[i],
        verify::instruction_fault(d, pc, l) is None,
        verify::next_pc(d, pc) == verify::next_pc(c, pc),
    ensures
        verify::scan(d, from, l) is None,
        verify::starts(d, from, pc),
        forall|t: int| verify::starts(c, from, t) ==> #[trigger] verify::starts(d, from, t),
    decreases pc - from,
{
    let n = verify::next_pc(c, from);
    lemma_instruction(c, from, l);
    if from < pc {
        assert(verify::starts(c, n, pc));
        lemma_starts_above(c, n, pc);
        lemma_same_instruction(c, d, from, l, l);
        lemma_walk_patched(c, d, n, pc, l);
        assert(verify::starts(d, n, pc));
    } else {
        lemma_walk_end(c, d, n, l);
    }
    assert forall|t: int| verify::starts(c, from, t) implies #[trigger] verify::starts(d, from, t) by {
        if t != from {
            assert(verify::starts(c, n, t));
            assert(verify::starts(d, n, t));
        }
    }
}

/// The jumps land well, but for the one that was changed.
proof fn lemma_jumps_patched(c: Seq<u8>, d: Seq<u8>, from: int, pc: int, l: Limits)
    requires
        verify::scan(c, from, l) is None,
        verify::jumps(c, from) is None,
        0 <= from <= c.len(),
        0 <= pc < c.len(),
        d.len() == c.len(),
        from <= pc ==> verify::starts(c, from, pc),
        from > pc ==> from >= verify::next_pc(c, pc),
        forall|i: int| 0 <= i < c.len() && !(pc < i < verify::next_pc(c, pc)) ==> c[i] == d[i],
        verify::next_pc(d, pc) == verify::next_pc(c, pc),
        forall|t: int| verify::starts(c, 0, t) ==> #[trigger] verify::starts(d, 0, t),
        verify::jump_of(d, pc) matches Some(t) ==> verify::starts(d, 0, t),
    ensures
        verify::jumps(d, from) is None,
    decreases c.len() - from,
{
    if from < c.len() {
        lemma_instruction(c, from, l);
        let n = verify::next_pc(c, from);
        if from != pc {
            if from < pc {
                assert(verify::starts(c, n, pc));
                lemma_starts_above(c, n, pc);
            }
            lemma_same_instruction(c, d, from, l, l);
        }
        lemma_jumps_patched(c, d, n, pc, l);
    }
}

/// Setting the distance of a jump to the end of the code.
proof fn lemma_patch(c: Seq<u8>, pc: int, k: int, l: Limits)
    requires
        right(c, l),
        verify::starts(c, 0, pc),
        0 <= pc,
        pc + k + 2 <= c.len() <= 0x7FFF,
        (k == 1 && bytecode::op_of(c[pc]) == Some(Opcode::Jmp)) || (k == 2 && bytecode::op_of(c[pc]) == Some(
            Opcode::JmpIfFalse,
        )),
    ensures
        ({
            let off = (c.len() - (pc + k + 2)) % 0x1_0000;
            let d = c.update(pc + k, codegen::lo8(off)).update(pc + k + 1, codegen::hi8(off));
            right(d, l) && forall|t: int| verify::starts(c, 0, t) ==> #[trigger] verify::starts(d, 0, t)
        }),
{
    let off = (c.len() - (pc + k + 2)) % 0x1_0000;
    let d = c.update(pc + k, codegen::lo8(off)).update(pc + k + 1, codegen::hi8(off));
    let m = upto(l, c);
    assert(upto(l, d) == m);
    lemma_at(c, 0, pc, m);
    lemma_instruction(c, pc, m);
    assert(off == c.len() - (pc + k + 2));
    assert(verify::offset(d, pc + k) == off) by {
        assert(d[pc + k] == off % 256);
        assert(d[pc + k + 1] == off / 256);
    }
    assert(d[pc] == c[pc]);
    assert(verify::next_pc(d, pc) == verify::next_pc(c, pc));
    assert(verify::jump_of(d, pc) == Some(c.len() as int));
    assert(verify::instruction_fault(d, pc, m) is None) by {
        reveal(verify::operands);
        let op = bytecode::op_of(c[pc])->0;
        let os = verify::operands(op, d, pc);
        if k == 1 {
            assert(os =~= seq![Operand::Target(c.len() as i128)]);
        } else {
            let old_os = verify::operands(op, c, pc);
            assert(old_os[0] == Operand::Reg(c[pc + 1]));
            verify::lemma_operand(old_os, 0, 0, pc, m);
            assert(os =~= seq![Operand::Reg(c[pc + 1]), Operand::Target(c.len() as i128)]);
        }
        lemma_all_fit(os, 0, pc, m);
    }
    lemma_walk_patched(c, d, 0, pc, m);
    lemma_walk_end(c, c, 0, m);
    assert(verify::starts(d, 0, c.len() as int));
    lemma_jumps_patched(c, d, 0, pc, m);
}

/// Where an instruction starts, it is right by itself.
proof fn lemma_at(c: Seq<u8>, from: int, pc: int, l: Limits)
    requires
        verify::scan(c, from, l) is None,
        0 <= from <= c.len(),
        verify::starts(c, from, pc),
        pc < c.len(),
    ensures
        verify::instruction_fault(c, pc, l) is None,
    decreases c.len() - from,
{
    if from != pc {
        lemma_instruction(c, from, l);
        lemma_at(c, verify::next_pc(c, from), pc, l);
    }
}

/// Operands without a fault have no first fault.
proof fn lemma_all_fit(os: Seq<Operand>, i: int, pc: int, l: Limits)
    requires
        0 <= i,
        forall|k: int| 0 <= k < os.len() ==> verify::operand_fault(#[trigger] os[k], 0, l) is None,
    ensures
        verify::operands_fault(os, i, pc, l) is None,
    decreases os.len() - i,
{
    if i < os.len() {
        assert(verify::operand_fault(os[i], 0, l) is None);
        assert(verify::operand_fault(os[i], pc, l) is None);
        lemma_all_fit(os, i + 1, pc, l);
    }
}

// --- instructions ---------------------------------------------------------------

/// Whether bytes are one instruction that does not jump, and its operands fit.
spec fn sound(ins: Seq<u8>, op: Opcode, l: Limits) -> bool {
    &&& ins.len() > 0
    &&& ins[0] == bytecode::byte_of(op)
    &&& op != Opcode::Trap && op != Opcode::Jmp && op != Opcode::JmpIfFalse && op != Opcode::JmpIfTrue
    &&& bytecode::len_of(op, ins, 0) == ins.len()
    &&& forall|k: int|
        0 <= k < verify::operands(op, ins, 0).len() ==> verify::operand_fault(
            #[trigger] verify::operands(op, ins, 0)[k],
            0,
            l,
        ) is None
}

proof fn lemma_no_trap(op: Opcode)
    requires
        op != Opcode::Trap,
    ensures
        bytecode::op_of(bytecode::byte_of(op)) == Some(op),
        bytecode::byte_of(op) != 0xFF,
{
    bytecode::law_opcode_bytes(op, 0);
}

#[verifier::spinoff_prover]
proof fn lemma_emit(c: Seq<u8>, ins: Seq<u8>, op: Opcode, l: Limits)
    requires
        right(c, l),
        sound(ins, op, l),
    ensures
        right(c + ins, l),
{
    let d = c + ins;
    let n = c.len() as int;
    lemma_no_trap(op);
    assert(d.take(n) =~= c);
    assert(forall|i: int| 0 <= i < ins.len() ==> d[n + i] == #[trigger] ins[i]);
    assert(d[n] == ins[0]);
    assert(bytecode::len_of(op, d, n) == ins.len()) by {
        if op == Opcode::Call || op == Opcode::FfiCall || op == Opcode::ClosureMake {
            assert(ins.len() >= 5);
            assert(d[n + 4] == ins[4]);
        } else if op == Opcode::ArrayNew {
            assert(ins.len() >= 3);
            assert(d[n + 2] == ins[2]);
        } else if op == Opcode::CallClosure {
            assert(ins.len() >= 4);
            assert(d[n + 3] == ins[3]);
        }
    }
    let os = verify::operands(op, ins, 0);
    assert(verify::operands(op, d, n) =~= os) by {
        reveal(verify::operands);
    }
    assert forall|k: int| 0 <= k < os.len() implies verify::operand_fault(#[trigger] os[k], 0, upto(l, d)) is None by {
        lemma_no_targets(op, ins, k);
        assert(verify::operand_fault(os[k], 0, l) is None);
    }
    lemma_all_fit(os, 0, n, upto(l, d));
    assert(verify::instruction_fault(d, n, upto(l, d)) is None);
    assert(verify::jump_of(d, n) is None);
    lemma_append(c, d, l);
}

proof fn lemma_no_targets(op: Opcode, ins: Seq<u8>, k: int)
    requires
        op != Opcode::Jmp && op != Opcode::JmpIfFalse && op != Opcode::JmpIfTrue,
        0 <= k < verify::operands(op, ins, 0).len(),
    ensures
        !(verify::operands(op, ins, 0)[k] is Target),
{
    reveal(verify::operands);
}

proof fn lemma_plain0(l: Limits)
    ensures
        sound(seq![bytecode::byte_of(Opcode::ReturnNil)], Opcode::ReturnNil, l),
{
    reveal(verify::operands);
}

proof fn lemma_plain1(op: Opcode, a: u8, l: Limits)
    requires
        a < l.regs,
        op == Opcode::ConstNil || op == Opcode::ConstTrue || op == Opcode::ConstFalse || op == Opcode::ReturnVal || op
            == Opcode::MapNew || op == Opcode::StructNew,
    ensures
        sound(seq![bytecode::byte_of(op), a], op, l),
{
    reveal(verify::operands);
}

proof fn lemma_plain2(op: Opcode, a: u8, b: u8, l: Limits)
    requires
        a < l.regs && b < l.regs,
        op == Opcode::Move || op == Opcode::Not || op == Opcode::Neg,
    ensures
        sound(seq![bytecode::byte_of(op), a, b], op, l),
{
    reveal(verify::operands);
}

/// The instructions with three registers that are emitted.
spec fn three(op: Opcode) -> bool {
    ||| op == Opcode::Add
    ||| op == Opcode::Sub
    ||| op == Opcode::Mul
    ||| op == Opcode::Div
    ||| op == Opcode::Mod
    ||| op == Opcode::Eq
    ||| op == Opcode::Ne
    ||| op == Opcode::Lt
    ||| op == Opcode::Le
    ||| op == Opcode::Gt
    ||| op == Opcode::Ge
    ||| op == Opcode::And
    ||| op == Opcode::Or
    ||| op == Opcode::ArrayGet
    ||| op == Opcode::MapGet
    ||| op == Opcode::MapSet
}

proof fn lemma_plain3(op: Opcode, a: u8, b: u8, c: u8, l: Limits)
    requires
        a < l.regs && b < l.regs && c < l.regs,
        three(op),
    ensures
        sound(seq![bytecode::byte_of(op), a, b, c], op, l),
{
    reveal(verify::operands);
}

/// The two bytes of a number that fits make the number.
pub(crate) proof fn lemma_word(code: Seq<u8>, p: int, v: int)
    requires
        0 <= v < 0x1_0000,
        code[p] == codegen::lo8(v),
        code[p + 1] == codegen::hi8(v),
    ensures
        verify::word(code, p) == v,
        verify::offset(code, p) == (if v >= 0x8000 {
            v - 0x1_0000
        } else {
            v
        }),
{
}

proof fn lemma_pooled(op: Opcode, a: u8, v: int, l: Limits)
    requires
        a < l.regs,
        0 <= v < l.consts <= 0x1_0000,
        op == Opcode::ConstInt || op == Opcode::ConstFloat || op == Opcode::ConstStr,
    ensures
        sound(seq![bytecode::byte_of(op), a, codegen::lo8(v), codegen::hi8(v)], op, l),
{
    reveal(verify::operands);
    let ins = seq![bytecode::byte_of(op), a, codegen::lo8(v), codegen::hi8(v)];
    lemma_word(ins, 2, v);
    assert(verify::operands(op, ins, 0) =~= seq![Operand::Reg(a), Operand::Pool(v as u16)]);
}

proof fn lemma_field_get(a: u8, b: u8, v: int, l: Limits)
    requires
        a < l.regs && b < l.regs,
        0 <= v < l.consts <= 0x1_0000,
    ensures
        sound(
            seq![bytecode::byte_of(Opcode::StructGet), a, b, codegen::lo8(v), codegen::hi8(v)],
            Opcode::StructGet,
            l,
        ),
{
    reveal(verify::operands);
    let ins = seq![bytecode::byte_of(Opcode::StructGet), a, b, codegen::lo8(v), codegen::hi8(v)];
    lemma_word(ins, 3, v);
    assert(verify::operands(Opcode::StructGet, ins, 0) =~= seq![
        Operand::Reg(a),
        Operand::Reg(b),
        Operand::Pool(v as u16),
    ]);
}

proof fn lemma_field_set(a: u8, v: int, b: u8, l: Limits)
    requires
        a < l.regs && b < l.regs,
        0 <= v < l.consts <= 0x1_0000,
    ensures
        sound(
            seq![bytecode::byte_of(Opcode::StructSet), a, codegen::lo8(v), codegen::hi8(v), b],
            Opcode::StructSet,
            l,
        ),
{
    reveal(verify::operands);
    let ins = seq![bytecode::byte_of(Opcode::StructSet), a, codegen::lo8(v), codegen::hi8(v), b];
    lemma_word(ins, 2, v);
    assert(verify::operands(Opcode::StructSet, ins, 0) =~= seq![
        Operand::Reg(a),
        Operand::Pool(v as u16),
        Operand::Reg(b),
    ]);
}

/// Whether all registers of a list fit.
spec fn all_below(rs: Seq<u8>, n: int) -> bool {
    forall|i: int| 0 <= i < rs.len() ==> (#[trigger] rs[i]) < n
}

proof fn lemma_call(op: Opcode, a: u8, v: int, rs: Seq<u8>, l: Limits)
    requires
        a < l.regs,
        0 <= v < l.fns <= 0x1_0000,
        rs.len() <= 255,
        all_below(rs, l.regs as int),
        op == Opcode::Call || op == Opcode::ClosureMake,
    ensures
        sound(
            seq![bytecode::byte_of(op), a, codegen::lo8(v), codegen::hi8(v), (rs.len() % 256) as u8] + rs,
            op,
            l,
        ),
{
    reveal(verify::operands);
    let ins = seq![bytecode::byte_of(op), a, codegen::lo8(v), codegen::hi8(v), (rs.len() % 256) as u8] + rs;
    lemma_word(ins, 2, v);
    let os = verify::operands(op, ins, 0);
    assert(ins[4] == rs.len());
    assert(os =~= seq![Operand::Reg(a), Operand::Func(v as u16)] + Seq::new(rs.len(), |i: int| Operand::Reg(rs[i])));
    assert forall|k: int| 0 <= k < os.len() implies verify::operand_fault(#[trigger] os[k], 0, l) is None by {
        if k >= 2 {
            assert(rs[k - 2] < l.regs);
        }
    }
}

proof fn lemma_closure_call(a: u8, c: u8, rs: Seq<u8>, l: Limits)
    requires
        a < l.regs && c < l.regs,
        rs.len() <= 255,
        all_below(rs, l.regs as int),
    ensures
        sound(
            seq![bytecode::byte_of(Opcode::CallClosure), a, c, (rs.len() % 256) as u8] + rs,
            Opcode::CallClosure,
            l,
        ),
{
    reveal(verify::operands);
    let op = Opcode::CallClosure;
    let ins = seq![bytecode::byte_of(op), a, c, (rs.len() % 256) as u8] + rs;
    let os = verify::operands(op, ins, 0);
    assert(ins[3] == rs.len());
    assert(os =~= seq![Operand::Reg(a), Operand::Reg(c)] + Seq::new(rs.len(), |i: int| Operand::Reg(rs[i])));
    assert forall|k: int| 0 <= k < os.len() implies verify::operand_fault(#[trigger] os[k], 0, l) is None by {
        if k >= 2 {
            assert(rs[k - 2] < l.regs);
        }
    }
}

proof fn lemma_array(a: u8, rs: Seq<u8>, l: Limits)
    requires
        a < l.regs,
        rs.len() <= 255,
        all_below(rs, l.regs as int),
    ensures
        sound(seq![bytecode::byte_of(Opcode::ArrayNew), a, (rs.len() % 256) as u8] + rs, Opcode::ArrayNew, l),
{
    reveal(verify::operands);
    let op = Opcode::ArrayNew;
    let ins = seq![bytecode::byte_of(op), a, (rs.len() % 256) as u8] + rs;
    let os = verify::operands(op, ins, 0);
    assert(ins[2] == rs.len());
    assert(os =~= seq![Operand::Reg(a)] + Seq::new(rs.len(), |i: int| Operand::Reg(rs[i])));
    assert forall|k: int| 0 <= k < os.len() implies verify::operand_fault(#[trigger] os[k], 0, l) is None by {
        if k >= 1 {
            assert(rs[k - 1] < l.regs);
        }
    }
}

/// A jump to where an instruction starts, or behind itself.
proof fn lemma_emit_jump(c: Seq<u8>, v: int, l: Limits)
    requires
        right(c, l),
        c.len() <= 0x7FFF,
        0 <= v < 0x1_0000,
        v == 0 || (v >= 0x8000 && verify::starts(c, 0, c.len() + 3 + v - 0x1_0000)),
    ensures
        right(c + seq![bytecode::byte_of(Opcode::Jmp), codegen::lo8(v), codegen::hi8(v)], l),
        verify::starts(c + seq![bytecode::byte_of(Opcode::Jmp), codegen::lo8(v), codegen::hi8(v)], 0, c.len() as int),
{
    reveal(verify::operands);
    let ins = seq![bytecode::byte_of(Opcode::Jmp), codegen::lo8(v), codegen::hi8(v)];
    let d = c + ins;
    let n = c.len() as int;
    lemma_no_trap(Opcode::Jmp);
    assert(d.take(n) =~= c);
    assert(d[n] == ins[0] && d[n + 1] == ins[1] && d[n + 2] == ins[2]);
    lemma_word(d, n + 1, v);
    let t = n + 3 + verify::offset(d, n + 1);
    if v != 0 {
        lemma_starts_above(c, 0, t);
    }
    assert(verify::operands(Opcode::Jmp, d, n) =~= seq![Operand::Target(t as i128)]);
    lemma_all_fit(verify::operands(Opcode::Jmp, d, n), 0, n, upto(l, d));
    lemma_append(c, d, l);
}

/// A conditional jump behind itself.
proof fn lemma_emit_unless(c: Seq<u8>, r: u8, l: Limits)
    requires
        right(c, l),
        c.len() <= 0x7FFF,
        r < l.regs,
    ensures
        right(c + seq![bytecode::byte_of(Opcode::JmpIfFalse), r, 0u8, 0u8], l),
        verify::starts(c + seq![bytecode::byte_of(Opcode::JmpIfFalse), r, 0u8, 0u8], 0, c.len() as int),
{
    reveal(verify::operands);
    let ins = seq![bytecode::byte_of(Opcode::JmpIfFalse), r, 0u8, 0u8];
    let d = c + ins;
    let n = c.len() as int;
    lemma_no_trap(Opcode::JmpIfFalse);
    assert(d.take(n) =~= c);
    assert(d[n] == ins[0] && d[n + 1] == ins[1] && d[n + 2] == ins[2] && d[n + 3] == ins[3]);
    assert(verify::offset(d, n + 2) == 0);
    let os = verify::operands(Opcode::JmpIfFalse, d, n);
    assert(os =~= seq![Operand::Reg(r), Operand::Target((n + 4) as i128)]);
    lemma_all_fit(os, 0, n, upto(l, d));
    lemma_append(c, d, l);
}

// --- growth ---------------------------------------------------------------------

/// Whether constants stay where they were.
pub open spec fn kept(a: Seq<ConstModel>, b: Seq<ConstModel>) -> bool {
    a.len() <= b.len() && forall|i: int| 0 <= i < a.len() ==> (#[trigger] b[i]) == a[i]
}

/// Whether `t` comes after `s`: nothing that was there is gone.
pub open spec fn after(s: Gen, t: Gen) -> bool {
    &&& s.next <= t.next
    &&& starts_with(t.code, s.code)
    &&& kept(s.consts, t.consts)
    &&& s.fns.len() <= t.fns.len()
    &&& t.fns.take(s.fns.len() as int) == s.fns
}

pub(crate) proof fn lemma_after_trans(s: Gen, t: Gen, u: Gen)
    requires
        after(s, t),
        after(t, u),
    ensures
        after(s, u),
{
    assert(u.code.take(s.code.len() as int) =~= s.code) by {
        assert(u.code.take(s.code.len() as int) =~= u.code.take(t.code.len() as int).take(s.code.len() as int));
    }
    assert(u.fns.take(s.fns.len() as int) =~= s.fns) by {
        assert(u.fns.take(s.fns.len() as int) =~= u.fns.take(t.fns.len() as int).take(s.fns.len() as int));
    }
}

pub(crate) proof fn lemma_after_self(s: Gen)
    ensures
        after(s, s),
{
    assert(s.code.take(s.code.len() as int) =~= s.code);
    assert(s.fns.take(s.fns.len() as int) =~= s.fns);
}

/// With code appended.
pub(crate) proof fn lemma_after_plus(s: Gen, t: Gen, ins: Seq<u8>)
    requires
        t.code == s.code + ins,
        s.next <= t.next,
        kept(s.consts, t.consts),
        t.fns == s.fns,
    ensures
        after(s, t),
{
    assert(t.code.take(s.code.len() as int) =~= s.code);
    assert(t.fns.take(s.fns.len() as int) =~= s.fns);
}

pub(crate) proof fn lemma_after_patch(s: Gen, t: Gen, at: int)
    requires
        after(s, t),
        s.code.len() <= at,
        at + 1 < t.code.len(),
    ensures
        after(s, t.patch(at)),
        t.patch(at).code.len() == t.code.len(),
{
    assert(t.patch(at).code.take(s.code.len() as int) =~= t.code.take(s.code.len() as int));
}

pub(crate) proof fn lemma_regs(s: Gen, rs: Seq<u8>, k: int)
    requires
        0 <= k <= rs.len(),
    ensures
        s.regs(rs, k).code == s.code + rs.take(k),
        s.regs(rs, k).next == s.next,
        s.regs(rs, k).env == s.env,
        s.regs(rs, k).consts == s.consts,
        s.regs(rs, k).fns == s.fns,
    decreases k,
{
    if k > 0 {
        lemma_regs(s, rs, k - 1);
        assert(s.code + rs.take(k) =~= (s.code + rs.take(k - 1)).push(rs[k - 1]));
    } else {
        assert(s.code + rs.take(0) =~= s.code);
    }
}

pub(crate) proof fn lemma_list(s: Gen, rs: Seq<u8>)
    ensures
        s.list(rs).code == s.code + (seq![(rs.len() % 256) as u8] + rs),
        s.list(rs).next == s.next,
        s.list(rs).env == s.env,
        s.list(rs).consts == s.consts,
        s.list(rs).fns == s.fns,
{
    let t = s.byte((rs.len() % 256) as u8);
    lemma_regs(t, rs, rs.len() as int);
    assert(rs.take(rs.len() as int) =~= rs);
    assert(t.code + rs =~= s.code + (seq![(rs.len() % 256) as u8] + rs));
}

/// Nil in a new register.
pub(crate) proof fn lemma_grow_nil(s: Gen, span: Span, cx: Cx)
    ensures
        after(s, s.nil(span, cx).0),
        s.nil(span, cx).0.env == s.env,
        s.nil(span, cx).0.code == s.code + seq![bytecode::byte_of(Opcode::ConstNil), s.reg()],
{
    let t = s.nil(span, cx).0;
    let ins = seq![bytecode::byte_of(Opcode::ConstNil), s.reg()];
    assert(t.code =~= s.code + ins);
    lemma_after_plus(s, t, ins);
}

pub(crate) proof fn lemma_grow_pooled(s: Gen, o: Opcode, c: ConstModel, span: Span, cx: Cx)
    ensures
        after(s, s.pooled(o, c, span, cx).0),
        s.pooled(o, c, span, cx).0.env == s.env,
        ({
            let v = bytecode::interned(s.consts, c) % 0x1_0000;
            s.pooled(o, c, span, cx).0.code == s.code + seq![
                bytecode::byte_of(o),
                s.reg(),
                codegen::lo8(v),
                codegen::hi8(v),
            ]
        }),
{
    let t = s.pooled(o, c, span, cx).0;
    let v = bytecode::interned(s.consts, c) % 0x1_0000;
    let ins = seq![bytecode::byte_of(o), s.reg(), codegen::lo8(v), codegen::hi8(v)];
    bytecode::law_interning(s.consts, c);
    assert(t.code =~= s.code + ins);
    lemma_after_plus(s, t, ins);
}

pub(crate) proof fn lemma_grow_direct(id: u16, rs: Seq<u8>, span: Span, s: Gen, cx: Cx)
    ensures
        ({
            let t = codegen::g_direct(id, rs, span, s, cx).0;
            &&& after(s, t)
            &&& t.env == s.env
            &&& t.code == s.code + (seq![
                bytecode::byte_of(Opcode::Call),
                s.reg(),
                codegen::lo8(id as int),
                codegen::hi8(id as int),
                (rs.len() % 256) as u8,
            ] + rs)
        }),
{
    let head = s.taken().op(Opcode::Call, span, cx).byte(s.reg()).word(id as int);
    let t = codegen::g_direct(id, rs, span, s, cx).0;
    lemma_list(head, rs);
    let ins = seq![
        bytecode::byte_of(Opcode::Call),
        s.reg(),
        codegen::lo8(id as int),
        codegen::hi8(id as int),
        (rs.len() % 256) as u8,
    ] + rs;
    assert(t.code =~= s.code + ins);
    lemma_after_plus(s, t, ins);
}

pub(crate) proof fn lemma_grow_indirect(cls: u8, rs: Seq<u8>, span: Span, s: Gen, cx: Cx)
    ensures
        ({
            let t = codegen::g_indirect(cls, rs, span, s, cx).0;
            &&& after(s, t)
            &&& t.env == s.env
            &&& t.code == s.code + (seq![
                bytecode::byte_of(Opcode::CallClosure),
                s.reg(),
                cls,
                (rs.len() % 256) as u8,
            ] + rs)
        }),
{
    let head = s.taken().op(Opcode::CallClosure, span, cx).byte(s.reg()).byte(cls);
    let t = codegen::g_indirect(cls, rs, span, s, cx).0;
    lemma_list(head, rs);
    let ins = seq![bytecode::byte_of(Opcode::CallClosure), s.reg(), cls, (rs.len() % 256) as u8] + rs;
    assert(t.code =~= s.code + ins);
    lemma_after_plus(s, t, ins);
}

pub(crate) proof fn lemma_grow_pairs_put(rs: Seq<(u8, u8)>, k: int, dst: u8, span: Span, s: Gen, cx: Cx)
    ensures
        after(s, codegen::put_pairs(rs, k, dst, span, s, cx)),
        codegen::put_pairs(rs, k, dst, span, s, cx).env == s.env,
        codegen::put_pairs(rs, k, dst, span, s, cx).next == s.next,
    decreases k,
{
    if k > 0 {
        lemma_grow_pairs_put(rs, k - 1, dst, span, s, cx);
        let t = codegen::put_pairs(rs, k - 1, dst, span, s, cx);
        let u = codegen::put_pairs(rs, k, dst, span, s, cx);
        let ins = seq![bytecode::byte_of(Opcode::MapSet), dst, rs[k - 1].0, rs[k - 1].1];
        assert(u.code =~= t.code + ins);
        lemma_after_plus(t, u, ins);
        lemma_after_trans(s, t, u);
    } else {
        lemma_after_self(s);
    }
}

pub(crate) proof fn lemma_grow_fields_put(ns: Seq<(Seq<char>, ExprModel)>, rs: Seq<u8>, k: int, dst: u8, span: Span, s: Gen, cx: Cx)
    ensures
        after(s, codegen::put_fields(ns, rs, k, dst, span, s, cx)),
        codegen::put_fields(ns, rs, k, dst, span, s, cx).env == s.env,
        codegen::put_fields(ns, rs, k, dst, span, s, cx).next == s.next,
    decreases k,
{
    if k > 0 {
        lemma_grow_fields_put(ns, rs, k - 1, dst, span, s, cx);
        let t = codegen::put_fields(ns, rs, k - 1, dst, span, s, cx);
        let u = codegen::put_fields(ns, rs, k, dst, span, s, cx);
        let c = ConstModel::Str(ns[k - 1].0);
        let v = bytecode::interned(t.consts, c) % 0x1_0000;
        let ins = seq![bytecode::byte_of(Opcode::StructSet), dst, codegen::lo8(v), codegen::hi8(v), rs[k - 1]];
        bytecode::law_interning(t.consts, c);
        assert(u.code =~= t.code + ins);
        lemma_after_plus(t, u, ins);
        lemma_after_trans(s, t, u);
    } else {
        lemma_after_self(s);
    }
}

pub(crate) proof fn lemma_grow_unless(s: Gen, r: u8, span: Span, cx: Cx)
    ensures
        after(s, codegen::unless(s, r, span, cx)),
        codegen::unless(s, r, span, cx).env == s.env,
        codegen::unless(s, r, span, cx).next == s.next,
        codegen::unless(s, r, span, cx).consts == s.consts,
        codegen::unless(s, r, span, cx).fns == s.fns,
        codegen::unless(s, r, span, cx).code == s.code + seq![bytecode::byte_of(Opcode::JmpIfFalse), r, 0u8, 0u8],
{
    let t = codegen::unless(s, r, span, cx);
    let ins = seq![bytecode::byte_of(Opcode::JmpIfFalse), r, 0u8, 0u8];
    assert(codegen::lo8(0) == 0 && codegen::hi8(0) == 0);
    assert(t.code =~= s.code + ins);
    lemma_after_plus(s, t, ins);
}

pub(crate) proof fn lemma_grow_joined(s: Gen, out: Option<u8>, tail: Option<u8>, span: Span, cx: Cx)
    ensures
        after(s, codegen::joined(s, out, tail, span, cx)),
        codegen::joined(s, out, tail, span, cx).env == s.env,
        codegen::joined(s, out, tail, span, cx).next == s.next,
        codegen::joined(s, out, tail, span, cx).consts == s.consts,
        codegen::joined(s, out, tail, span, cx).fns == s.fns,
        ({
            let t = codegen::joined(s, out, tail, span, cx);
            ||| t.code == s.code
            ||| out is Some && tail is Some && t.code == s.code + seq![bytecode::byte_of(Opcode::Move), out->0, tail->0]
        }),
{
    let t = codegen::joined(s, out, tail, span, cx);
    lemma_after_self(s);
    if out is Some && tail is Some && out->0 != tail->0 {
        let ins = seq![bytecode::byte_of(Opcode::Move), out->0, tail->0];
        assert(t.code =~= s.code + ins);
        lemma_after_plus(s, t, ins);
    }
}

pub(crate) proof fn lemma_grow_no_else(s: Gen, out: Option<u8>, span: Span, cx: Cx)
    ensures
        after(s, codegen::no_else(s, out, span, cx)),
        codegen::no_else(s, out, span, cx).env == s.env,
        codegen::no_else(s, out, span, cx).next == s.next,
        codegen::no_else(s, out, span, cx).consts == s.consts,
        codegen::no_else(s, out, span, cx).fns == s.fns,
        ({
            let t = codegen::no_else(s, out, span, cx);
            ||| t.code == s.code
            ||| out is Some && t.code == s.code + seq![bytecode::byte_of(Opcode::ConstNil), out->0]
        }),
{
    let t = codegen::no_else(s, out, span, cx);
    lemma_after_self(s);
    if let Some(d) = out {
        let ins = seq![bytecode::byte_of(Opcode::ConstNil), d];
        assert(t.code =~= s.code + ins);
        lemma_after_plus(s, t, ins);
    }
}

/// The state behind the jump over the other arm, its own distance still open and that of
/// the first jump not yet set.
pub open spec fn jumped(s: Gen, span: Span, cx: Cx) -> Gen {
    s.op(Opcode::Jmp, span, cx).word(0)
}

pub(crate) proof fn lemma_grow_jumped(s: Gen, span: Span, cx: Cx)
    ensures
        after(s, jumped(s, span, cx)),
        jumped(s, span, cx).env == s.env,
        jumped(s, span, cx).next == s.next,
        jumped(s, span, cx).consts == s.consts,
        jumped(s, span, cx).fns == s.fns,
        jumped(s, span, cx).code == s.code + seq![bytecode::byte_of(Opcode::Jmp), codegen::lo8(0), codegen::hi8(0)],
{
    let t = jumped(s, span, cx);
    let ins = seq![bytecode::byte_of(Opcode::Jmp), codegen::lo8(0), codegen::hi8(0)];
    assert(t.code =~= s.code + ins);
    lemma_after_plus(s, t, ins);
}

#[verifier::spinoff_prover]
#[verifier::rlimit(60)]
pub(crate) proof fn lemma_grow_expr(e: ExprModel, s: Gen, cx: Cx)
    ensures
        after(s, codegen::g_expr(e, s, cx).0),
        codegen::g_expr(e, s, cx).0.env == s.env,
    decreases e, 1int,
{
    reveal(codegen::g_expr);
    reveal(codegen::g_exprs);
    reveal(codegen::g_expr);
    reveal(codegen::g_inits);
    reveal(codegen::g_expr);
    reveal(codegen::g_pairs);
    reveal(codegen::g_expr);
    reveal(codegen::g_block);
    reveal(codegen::g_stmts);
    reveal(codegen::g_stmt);
    reveal(codegen::g_expr);
    reveal(codegen::g_block);
    reveal(codegen::g_expr);
    reveal(codegen::g_clos);
    reveal(codegen::g_expr);
    match e.kind {
        ExprKindModel::Lit(written) => {
            let l = crate::typeck::literal_value(written, e.ty);
            match l {
                LitModel::Nil => {
                    lemma_grow_nil(s, e.span, cx);
                },
                LitModel::Bool(b) => {
                    let t = codegen::g_lit(l, e.span, s, cx).0;
                    let ins = seq![
                        bytecode::byte_of(
                            if b {
                                Opcode::ConstTrue
                            } else {
                                Opcode::ConstFalse
                            },
                        ),
                        s.reg(),
                    ];
                    assert(t.code =~= s.code + ins);
                    lemma_after_plus(s, t, ins);
                },
                LitModel::Int(v) => {
                    lemma_grow_pooled(s, Opcode::ConstInt, ConstModel::Int(v), e.span, cx);
                },
                LitModel::Float(b) => {
                    lemma_grow_pooled(s, Opcode::ConstFloat, ConstModel::Float(b), e.span, cx);
                },
                LitModel::Str(x) => {
                    lemma_grow_pooled(s, Opcode::ConstStr, ConstModel::Str(x), e.span, cx);
                },
            }
        },
        ExprKindModel::Ident(n) => {
            lemma_after_self(s);
            lemma_grow_nil(s, e.span, cx);
        },
        ExprKindModel::Binary(op, l, r) => {
            lemma_grow_expr(*l.it, s, cx);
            let (s1, a) = codegen::g_expr(*l.it, s, cx);
            lemma_grow_expr(*r.it, s1, cx);
            let (s2, b) = codegen::g_expr(*r.it, s1, cx);
            let t = codegen::g_expr(e, s, cx).0;
            let ins = seq![bytecode::byte_of(codegen::binop_code(op)), s2.reg(), a, b];
            assert(t.code =~= s2.code + ins);
            lemma_after_plus(s2, t, ins);
            lemma_after_trans(s, s1, s2);
            lemma_after_trans(s, s2, t);
        },
        ExprKindModel::Unary(op, x) => {
            lemma_grow_expr(*x.it, s, cx);
            let (s1, a) = codegen::g_expr(*x.it, s, cx);
            let t = codegen::g_expr(e, s, cx).0;
            let ins = seq![bytecode::byte_of(codegen::unop_code(op)), s1.reg(), a];
            assert(t.code =~= s1.code + ins);
            lemma_after_plus(s1, t, ins);
            lemma_after_trans(s, s1, t);
        },
        ExprKindModel::Call(c, args) => {
            lemma_grow_exprs(args, args.len() as int, s, cx);
            let (s1, rs) = codegen::g_exprs(args, args.len() as int, s, cx);
            let t = codegen::g_expr(e, s, cx).0;
            match codegen::direct(*c.it, cx) {
                Some(id) => {
                    lemma_grow_direct(id, rs, e.span, s1, cx);
                },
                None => match codegen::named_callee(*c.it, s1) {
                    Some(Some(r)) => {
                        lemma_grow_indirect(r, rs, e.span, s1, cx);
                    },
                    Some(None) => {
                        lemma_grow_nil(s1, e.span, cx);
                    },
                    None => {
                        lemma_grow_expr(*c.it, s1, cx);
                        let (s2, r) = codegen::g_expr(*c.it, s1, cx);
                        lemma_grow_indirect(r, rs, e.span, s2, cx);
                        lemma_after_trans(s1, s2, t);
                    },
                },
            }
            lemma_after_trans(s, s1, t);
        },
        ExprKindModel::ArrayLit(es) => {
            lemma_grow_exprs(es, es.len() as int, s, cx);
            let (s1, rs) = codegen::g_exprs(es, es.len() as int, s, cx);
            let head = s1.taken().op(Opcode::ArrayNew, e.span, cx).byte(s1.reg());
            let t = codegen::g_expr(e, s, cx).0;
            lemma_list(head, rs);
            let ins = seq![bytecode::byte_of(Opcode::ArrayNew), s1.reg(), (rs.len() % 256) as u8] + rs;
            assert(t.code =~= s1.code + ins);
            lemma_after_plus(s1, t, ins);
            lemma_after_trans(s, s1, t);
        },
        ExprKindModel::MapLit(ps) => {
            lemma_grow_pairs(ps, ps.len() as int, s, cx);
            let (s1, rs) = codegen::g_pairs(ps, ps.len() as int, s, cx);
            let s2 = s1.taken().op(Opcode::MapNew, e.span, cx).byte(s1.reg());
            let ins = seq![bytecode::byte_of(Opcode::MapNew), s1.reg()];
            assert(s2.code =~= s1.code + ins);
            lemma_after_plus(s1, s2, ins);
            lemma_grow_pairs_put(rs, rs.len() as int, s1.reg(), e.span, s2, cx);
            lemma_after_trans(s, s1, s2);
            lemma_after_trans(s, s2, codegen::g_expr(e, s, cx).0);
        },
        ExprKindModel::StructLit(_, fs) => {
            lemma_grow_inits(fs, fs.len() as int, s, cx);
            let (s1, rs) = codegen::g_inits(fs, fs.len() as int, s, cx);
            let s2 = s1.taken().op(Opcode::StructNew, e.span, cx).byte(s1.reg());
            let ins = seq![bytecode::byte_of(Opcode::StructNew), s1.reg()];
            assert(s2.code =~= s1.code + ins);
            lemma_after_plus(s1, s2, ins);
            lemma_grow_fields_put(fs, rs, fs.len() as int, s1.reg(), e.span, s2, cx);
            lemma_after_trans(s, s1, s2);
            lemma_after_trans(s, s2, codegen::g_expr(e, s, cx).0);
        },
        ExprKindModel::Field(x, n) => {
            lemma_grow_expr(*x.it, s, cx);
            let (s1, a) = codegen::g_expr(*x.it, s, cx);
            let t = codegen::g_expr(e, s, cx).0;
            let c = ConstModel::Str(n);
            let v = bytecode::interned(s1.consts, c) % 0x1_0000;
            bytecode::law_interning(s1.consts, c);
            let ins = seq![bytecode::byte_of(Opcode::StructGet), s1.reg(), a, codegen::lo8(v), codegen::hi8(v)];
            assert(t.code =~= s1.code + ins);
            lemma_after_plus(s1, t, ins);
            lemma_after_trans(s, s1, t);
        },
        ExprKindModel::Index(x, i) => {
            lemma_grow_expr(*x.it, s, cx);
            let (s1, a) = codegen::g_expr(*x.it, s, cx);
            lemma_grow_expr(*i.it, s1, cx);
            let (s2, b) = codegen::g_expr(*i.it, s1, cx);
            let t = codegen::g_expr(e, s, cx).0;
            match codegen::index_code(x.it.ty) {
                Some(o) => {
                    let ins = seq![bytecode::byte_of(o), s2.reg(), a, b];
                    assert(t.code =~= s2.code + ins);
                    lemma_after_plus(s2, t, ins);
                },
                None => {
                    lemma_grow_nil(s2, e.span, cx);
                },
            }
            lemma_after_trans(s, s1, s2);
            lemma_after_trans(s, s2, t);
        },
        ExprKindModel::Closure(_, _) => {
            lemma_grow_clos(e, s, cx);
        },
        ExprKindModel::Block(b) => {
            lemma_grow_block(*b.it, s, cx);
            let (s1, r) = codegen::g_block(*b.it, s, cx);
            lemma_grow_nil(s1, e.span, cx);
            if r is None {
                lemma_after_trans(s, s1, s1.nil(e.span, cx).0);
            }
        },
        ExprKindModel::If(c, yes, no) => {
            let s0 = s.taken();
            assert(after(s, s0)) by {
                lemma_after_self(s);
            }
            lemma_grow_expr(*c.it, s0, cx);
            let (s1, r) = codegen::g_expr(*c.it, s0, cx);
            lemma_after_trans(s, s0, s1);
            lemma_grow_block(*yes.it, codegen::unless(s1, r, c.it.span, cx), cx);
            let other = match no {
                Some(b) => {
                    lemma_grow_block(*b.it, first_arm(*c.it, *yes.it, Some(s.reg()), s1, r, cx), cx);
                    Some(*b.it)
                },
                None => None,
            };
            lemma_grow_arms(*c.it, *yes.it, other, Some(s.reg()), s1, r, cx);
            assert(codegen::g_expr(e, s, cx).0 == arms(*c.it, *yes.it, other, Some(s.reg()), s1, r, cx));
            lemma_after_trans(s, s1, codegen::g_expr(e, s, cx).0);
        },
    }
}

/// The state behind the first arm of an `if`, once its condition stands in `r`: the jump
/// over the other arm is open.
pub open spec fn first_arm(c: ExprModel, yes: BlockModel, out: Option<u8>, s1: Gen, r: u8, cx: Cx) -> Gen {
    let s2 = codegen::unless(s1, r, c.span, cx);
    let (s3, t) = codegen::g_block(yes, s2, cx);
    codegen::otherwise(codegen::joined(s3, out, t, yes.span, cx), s2.code.len() - 2, yes.span, cx)
}

/// The state behind both arms.
pub open spec fn arms(c: ExprModel, yes: BlockModel, no: Option<BlockModel>, out: Option<u8>, s1: Gen, r: u8, cx: Cx) -> Gen {
    let s4 = first_arm(c, yes, out, s1, r, cx);
    match no {
        Some(b) => {
            let (s5, u) = codegen::g_block(b, s4, cx);
            codegen::joined(s5, out, u, b.span, cx).patch(s4.code.len() - 2)
        },
        None => codegen::no_else(s4, out, c.span, cx).patch(s4.code.len() - 2),
    }
}

/// Whether a block leaves the names as they were, and takes nothing away.
pub open spec fn block_grows(b: BlockModel, s: Gen, cx: Cx) -> bool {
    after(s, codegen::g_block(b, s, cx).0) && codegen::g_block(b, s, cx).0.env == s.env
}

pub(crate) proof fn lemma_grow_first_arm(c: ExprModel, yes: BlockModel, out: Option<u8>, s1: Gen, r: u8, cx: Cx)
    requires
        block_grows(yes, codegen::unless(s1, r, c.span, cx), cx),
    ensures
        after(s1, first_arm(c, yes, out, s1, r, cx)),
        first_arm(c, yes, out, s1, r, cx).env == s1.env,
        first_arm(c, yes, out, s1, r, cx).code.len() >= s1.code.len() + 7,
{
    let s2 = codegen::unless(s1, r, c.span, cx);
    lemma_grow_unless(s1, r, c.span, cx);
    let (s3, t) = codegen::g_block(yes, s2, cx);
    let j = codegen::joined(s3, out, t, yes.span, cx);
    lemma_grow_joined(s3, out, t, yes.span, cx);
    let k = jumped(j, yes.span, cx);
    lemma_grow_jumped(j, yes.span, cx);
    lemma_after_trans(s1, s2, s3);
    lemma_after_trans(s1, s3, j);
    lemma_after_trans(s1, j, k);
    lemma_after_patch(s1, k, s2.code.len() - 2);
    assert(k.patch(s2.code.len() - 2) == first_arm(c, yes, out, s1, r, cx));
}

pub(crate) proof fn lemma_grow_arms(c: ExprModel, yes: BlockModel, no: Option<BlockModel>, out: Option<u8>, s1: Gen, r: u8, cx: Cx)
    requires
        block_grows(yes, codegen::unless(s1, r, c.span, cx), cx),
        no matches Some(b) ==> block_grows(b, first_arm(c, yes, out, s1, r, cx), cx),
    ensures
        after(s1, arms(c, yes, no, out, s1, r, cx)),
        arms(c, yes, no, out, s1, r, cx).env == s1.env,
{
    lemma_grow_first_arm(c, yes, out, s1, r, cx);
    let s4 = first_arm(c, yes, out, s1, r, cx);
    let at = s4.code.len() - 2;
    match no {
        Some(b) => {
            let (s5, u) = codegen::g_block(b, s4, cx);
            let q = codegen::joined(s5, out, u, b.span, cx);
            lemma_grow_joined(s5, out, u, b.span, cx);
            lemma_after_trans(s1, s4, s5);
            lemma_after_trans(s1, s5, q);
            lemma_after_patch(s1, q, at);
        },
        None => {
            let q = codegen::no_else(s4, out, c.span, cx);
            lemma_grow_no_else(s4, out, c.span, cx);
            lemma_after_trans(s1, s4, q);
            lemma_after_patch(s1, q, at);
        },
    }
}

pub(crate) proof fn lemma_grow_binds(ns: Seq<Seq<char>>, k: int, s: Gen)
    ensures
        ({
            let t = codegen::bind_names(ns, k, s);
            t.code == s.code && t.consts == s.consts && t.fns == s.fns && s.next <= t.next
        }),
    decreases k,
{
    if k > 0 {
        lemma_grow_binds(ns, k - 1, s);
    }
}

pub(crate) proof fn lemma_grow_params(ps: Seq<ParamModel>, k: int, s: Gen)
    ensures
        ({
            let t = codegen::bind_params(ps, k, s);
            t.code == s.code && t.consts == s.consts && t.fns == s.fns && s.next <= t.next
        }),
    decreases k,
{
    if k > 0 {
        lemma_grow_params(ps, k - 1, s);
    }
}

#[verifier::spinoff_prover]
pub(crate) proof fn lemma_grow_clos(e: ExprModel, s: Gen, cx: Cx)
    ensures
        after(s, codegen::g_clos(e, s, cx).0),
        codegen::g_clos(e, s, cx).0.env == s.env,
    decreases e, 0int,
{
    reveal(codegen::g_clos);
    reveal(codegen::g_expr);
    match e.kind {
        ExprKindModel::Closure(ps, body) => {
            let names = codegen::free_vars(*body.it, ps);
            let caps = codegen::captured(names, names.len() as int, s.env);
            let start = codegen::closure_start(caps.0, ps, s);
            lemma_grow_binds(caps.0, caps.0.len() as int, codegen::blank(s.consts, s.fns));
            lemma_grow_params(
                ps,
                ps.len() as int,
                codegen::bind_names(caps.0, caps.0.len() as int, codegen::blank(s.consts, s.fns)),
            );
            lemma_grow_expr(*body.it, start, cx);
            let (t, r) = codegen::g_expr(*body.it, start, cx);
            let u = codegen::g_clos(e, s, cx).0;
            let name = "__closure_"@ + crate::text::dec(((cx.tops + s.fns.len()) % 0x1_0000) as nat);
            let f = codegen::closure_fn(name, caps.0.len() + ps.len(), t, r, body.it.span, cx);
            let v = Gen { consts: t.consts, fns: t.fns.push(f), ..s };
            let head = v.taken().op(Opcode::ClosureMake, e.span, cx).byte(v.reg()).word(
                (cx.tops + t.fns.len()) % 0x1_0000,
            );
            lemma_list(head, caps.1);
            assert(u == head.list(caps.1));
            assert(u.code.take(s.code.len() as int) =~= s.code);
            assert(u.fns.take(s.fns.len() as int) =~= s.fns) by {
                assert(u.fns == t.fns.push(f));
                assert(t.fns.take(s.fns.len() as int) == s.fns);
                assert(u.fns.take(s.fns.len() as int) =~= t.fns.take(s.fns.len() as int));
            }
        },
        _ => {
            lemma_after_self(s);
        },
    }
}

#[verifier::spinoff_prover]
pub(crate) proof fn lemma_grow_exprs(es: Seq<ExprModel>, k: int, s: Gen, cx: Cx)
    ensures
        after(s, codegen::g_exprs(es, k, s, cx).0),
        codegen::g_exprs(es, k, s, cx).0.env == s.env,
    decreases es, k,
{
    reveal(codegen::g_exprs);
    reveal(codegen::g_expr);
    if k <= 0 || k > es.len() {
        lemma_after_self(s);
    } else {
        lemma_grow_exprs(es, k - 1, s, cx);
        let s1 = codegen::g_exprs(es, k - 1, s, cx).0;
        lemma_grow_expr(es[k - 1], s1, cx);
        lemma_after_trans(s, s1, codegen::g_expr(es[k - 1], s1, cx).0);
    }
}

#[verifier::spinoff_prover]
pub(crate) proof fn lemma_grow_inits(fs: Seq<(Seq<char>, ExprModel)>, k: int, s: Gen, cx: Cx)
    ensures
        after(s, codegen::g_inits(fs, k, s, cx).0),
        codegen::g_inits(fs, k, s, cx).0.env == s.env,
    decreases fs, k,
{
    reveal(codegen::g_inits);
    reveal(codegen::g_expr);
    if k <= 0 || k > fs.len() {
        lemma_after_self(s);
    } else {
        lemma_grow_inits(fs, k - 1, s, cx);
        let s1 = codegen::g_inits(fs, k - 1, s, cx).0;
        assert(decreases_to!(fs => fs[k - 1]));
        assert(decreases_to!(fs[k - 1] => fs[k - 1].1));
        lemma_grow_expr(fs[k - 1].1, s1, cx);
        lemma_after_trans(s, s1, codegen::g_expr(fs[k - 1].1, s1, cx).0);
    }
}

#[verifier::spinoff_prover]
pub(crate) proof fn lemma_grow_pairs(ps: Seq<(ExprModel, ExprModel)>, k: int, s: Gen, cx: Cx)
    ensures
        after(s, codegen::g_pairs(ps, k, s, cx).0),
        codegen::g_pairs(ps, k, s, cx).0.env == s.env,
    decreases ps, k,
{
    reveal(codegen::g_pairs);
    reveal(codegen::g_expr);
    if k <= 0 || k > ps.len() {
        lemma_after_self(s);
    } else {
        lemma_grow_pairs(ps, k - 1, s, cx);
        let s1 = codegen::g_pairs(ps, k - 1, s, cx).0;
        assert(decreases_to!(ps => ps[k - 1]));
        assert(decreases_to!(ps[k - 1] => ps[k - 1].0));
        assert(decreases_to!(ps[k - 1] => ps[k - 1].1));
        lemma_grow_expr(ps[k - 1].0, s1, cx);
        let s2 = codegen::g_expr(ps[k - 1].0, s1, cx).0;
        lemma_grow_expr(ps[k - 1].1, s2, cx);
        let s3 = codegen::g_expr(ps[k - 1].1, s2, cx).0;
        lemma_after_trans(s, s1, s2);
        lemma_after_trans(s, s2, s3);
    }
}

#[verifier::spinoff_prover]
pub(crate) proof fn lemma_grow_block(b: BlockModel, s: Gen, cx: Cx)
    ensures
        after(s, codegen::g_block(b, s, cx).0),
        codegen::g_block(b, s, cx).0.env == s.env,
    decreases b, 0int,
{
    reveal(codegen::g_block);
    reveal(codegen::g_stmts);
    reveal(codegen::g_stmt);
    reveal(codegen::g_expr);
    reveal(codegen::g_block);
    reveal(codegen::g_expr);
    lemma_grow_stmts(b.stmts, b.stmts.len() as int, s, cx);
    let s1 = codegen::g_stmts(b.stmts, b.stmts.len() as int, s, cx);
    match b.tail {
        Some(e) => {
            lemma_grow_expr(e, s1, cx);
            let s2 = codegen::g_expr(e, s1, cx).0;
            lemma_after_trans(s, s1, s2);
        },
        None => {},
    }
}

#[verifier::spinoff_prover]
pub(crate) proof fn lemma_grow_stmts(ss: Seq<StmtModel>, k: int, s: Gen, cx: Cx)
    ensures
        after(s, codegen::g_stmts(ss, k, s, cx)),
        codegen::g_stmts(ss, k, s, cx).env.len() >= s.env.len(),
        codegen::g_stmts(ss, k, s, cx).env.take(s.env.len() as int) == s.env,
    decreases ss, k,
{
    reveal(codegen::g_stmts);
    reveal(codegen::g_stmt);
    reveal(codegen::g_expr);
    reveal(codegen::g_block);
    if k <= 0 || k > ss.len() {
        lemma_after_self(s);
        assert(s.env.take(s.env.len() as int) =~= s.env);
    } else {
        lemma_grow_stmts(ss, k - 1, s, cx);
        let s1 = codegen::g_stmts(ss, k - 1, s, cx);
        lemma_grow_stmt(ss[k - 1], s1, cx);
        let s2 = codegen::g_stmt(ss[k - 1], s1, cx);
        lemma_after_trans(s, s1, s2);
        assert(s2.env.take(s.env.len() as int) =~= s2.env.take(s1.env.len() as int).take(s.env.len() as int));
    }
}

#[verifier::spinoff_prover]
#[verifier::rlimit(40)]
pub(crate) proof fn lemma_grow_stmt(st: StmtModel, s: Gen, cx: Cx)
    ensures
        after(s, codegen::g_stmt(st, s, cx)),
        codegen::g_stmt(st, s, cx).env.len() >= s.env.len(),
        codegen::g_stmt(st, s, cx).env.take(s.env.len() as int) == s.env,
    decreases st, 0int,
{
    reveal(codegen::g_stmt);
    reveal(codegen::g_expr);
    reveal(codegen::g_block);
    let t = codegen::g_stmt(st, s, cx);
    lemma_after_self(s);
    assert(s.env.take(s.env.len() as int) =~= s.env);
    match st.kind {
        StmtKindModel::Let { name, ty, mutable, init } => {
            lemma_grow_expr(init, s, cx);
            assert(t.env.take(s.env.len() as int) =~= s.env);
        },
        StmtKindModel::Assign(target, v) => {
            lemma_grow_expr(v, s, cx);
            let (s1, r) = codegen::g_expr(v, s, cx);
            match target.kind {
                ExprKindModel::Ident(n) => {
                    if let Some(d) = codegen::bound_reg(s1.env, n) {
                        let ins = seq![bytecode::byte_of(Opcode::Move), d, r];
                        assert(t.code =~= s1.code + ins);
                        lemma_after_plus(s1, t, ins);
                        lemma_after_trans(s, s1, t);
                    }
                },
                _ => {},
            }
        },
        StmtKindModel::Expr(e) => {
            lemma_grow_expr(e, s, cx);
        },
        StmtKindModel::Return(None) => {
            let ins = seq![bytecode::byte_of(Opcode::ReturnNil)];
            assert(t.code =~= s.code + ins);
            lemma_after_plus(s, t, ins);
        },
        StmtKindModel::Return(Some(e)) => {
            lemma_grow_expr(e, s, cx);
            let (s1, r) = codegen::g_expr(e, s, cx);
            let ins = seq![bytecode::byte_of(Opcode::ReturnVal), r];
            assert(t.code =~= s1.code + ins);
            lemma_after_plus(s1, t, ins);
            lemma_after_trans(s, s1, t);
        },
        StmtKindModel::While(c, body) => {
            lemma_grow_expr(c, s, cx);
            let (s1, r) = codegen::g_expr(c, s, cx);
            let s2 = codegen::unless(s1, r, c.span, cx);
            lemma_grow_unless(s1, r, c.span, cx);
            lemma_grow_block(*body.it, s2, cx);
            let s3 = codegen::g_block(*body.it, s2, cx).0;
            let w = (s.code.len() - (s3.code.len() + 3)) % 0x1_0000;
            let s4 = s3.op(Opcode::Jmp, st.span, cx).word(w);
            let ins = seq![bytecode::byte_of(Opcode::Jmp), codegen::lo8(w), codegen::hi8(w)];
            assert(s4.code =~= s3.code + ins);
            lemma_after_plus(s3, s4, ins);
            lemma_after_trans(s, s1, s2);
            lemma_after_trans(s, s2, s3);
            lemma_after_trans(s, s3, s4);
            lemma_after_patch(s, s4, s2.code.len() - 2);
            assert(t == s4.patch(s2.code.len() - 2));
        },
        StmtKindModel::If(c, yes, no) => {
            lemma_grow_expr(c, s, cx);
            let (s1, r) = codegen::g_expr(c, s, cx);
            lemma_grow_block(*yes.it, codegen::unless(s1, r, c.span, cx), cx);
            let other = match no {
                Some(b) => {
                    lemma_grow_block(*b.it, first_arm(c, *yes.it, None, s1, r, cx), cx);
                    Some(*b.it)
                },
                None => None,
            };
            lemma_grow_arms(c, *yes.it, other, None, s1, r, cx);
            assert(t == arms(c, *yes.it, other, None, s1, r, cx));
            lemma_after_trans(s, s1, t);
        },
        _ => {},
    }
}

// --- acceptance -----------------------------------------------------------------

/// Whether the verifier finds nothing wrong with a function of a module with so many
/// constants and functions.
spec fn accepted(f: FunctionModel, l: Limits) -> bool {
    let m = Limits { regs: f.max_register, end: f.code.len() as int, ..l };
    &&& verify::scan(f.code, 0, m) is None
    &&& verify::jumps(f.code, 0) is None
    &&& f.code.len() > 0
    &&& verify::closes(f.code, verify::last_start(f.code, 0))
}

/// Whether all names are bound to registers that were taken.
spec fn names_taken(s: Gen) -> bool {
    forall|i: int| 0 <= i < s.env.len() ==> (#[trigger] s.env[i]).1 < s.next
}

/// What holds all along: the code is right so far, and so are the closures.
spec fn held(s: Gen, l: Limits) -> bool {
    &&& right(s.code, l)
    &&& names_taken(s)
    &&& s.next <= l.regs
    &&& forall|i: int| 0 <= i < s.fns.len() ==> accepted(#[trigger] s.fns[i], l)
}

/// Whether functions have registers, and code that jumps can span.
spec fn roomy(fns: Seq<FunctionModel>) -> bool {
    forall|i: int| 0 <= i < fns.len() ==> (#[trigger] fns[i]).max_register > 0 && fns[i].code.len() <= 0x7FFF
}

/// Whether a state is within limits.
spec fn inside(t: Gen, cx: Cx, l: Limits) -> bool {
    &&& t.next <= l.regs
    &&& t.code.len() <= 0x7FFF
    &&& t.consts.len() <= l.consts <= 0x1_0000
    &&& l.fns <= 0x1_0000
    &&& 0 <= cx.tops
    &&& cx.tops + t.fns.len() <= l.fns
    &&& roomy(t.fns)
    &&& forall|n: Seq<char>| cx.index.dom().contains(n) ==> (#[trigger] cx.index[n]) < l.fns
}

proof fn lemma_inside(s: Gen, t: Gen, cx: Cx, l: Limits)
    requires
        after(s, t),
        inside(t, cx, l),
    ensures
        inside(s, cx, l),
{
    assert forall|i: int| 0 <= i < s.fns.len() implies (#[trigger] s.fns[i]).max_register > 0 && s.fns[i].code.len()
        <= 0x7FFF by {
        assert(t.fns.take(s.fns.len() as int)[i] == t.fns[i]);
    }
}

/// One more instruction.
proof fn lemma_hold(s: Gen, t: Gen, ins: Seq<u8>, op: Opcode, l: Limits)
    requires
        held(s, l),
        sound(ins, op, l),
        t.code == s.code + ins,
        t.env == s.env,
        t.fns == s.fns,
        s.next <= t.next <= l.regs,
    ensures
        held(t, l),
{
    lemma_emit(s.code, ins, op, l);
}

pub(crate) proof fn lemma_bound(env: Seq<(Seq<char>, u8)>, n: Seq<char>, top: int)
    requires
        forall|i: int| 0 <= i < env.len() ==> (#[trigger] env[i]).1 < top,
    ensures
        codegen::bound_reg(env, n) matches Some(r) ==> r < top,
    decreases env.len(),
{
    if env.len() > 0 {
        assert(env.last() == env[env.len() - 1]);
        assert forall|i: int| 0 <= i < env.drop_last().len() implies (#[trigger] env.drop_last()[i]).1 < top by {
            assert(env[i].1 < top);
        }
        lemma_bound(env.drop_last(), n, top);
    }
}

proof fn lemma_captured(ns: Seq<Seq<char>>, k: int, env: Seq<(Seq<char>, u8)>, top: int)
    requires
        forall|i: int| 0 <= i < env.len() ==> (#[trigger] env[i]).1 < top,
    ensures
        all_below(codegen::captured(ns, k, env).1, top),
        codegen::captured(ns, k, env).1.len() == codegen::captured(ns, k, env).0.len(),
        k >= 0 ==> codegen::captured(ns, k, env).1.len() <= k,
    decreases k,
{
    if k > 0 {
        lemma_captured(ns, k - 1, env, top);
        lemma_bound(env, ns[k - 1], top);
    }
}

proof fn lemma_binds_taken(ns: Seq<Seq<char>>, k: int, s: Gen)
    requires
        names_taken(s),
        codegen::bind_names(ns, k, s).next <= 255,
    ensures
        names_taken(codegen::bind_names(ns, k, s)),
    decreases k,
{
    if k > 0 {
        lemma_binds_taken(ns, k - 1, s);
    }
}

proof fn lemma_params_taken(ps: Seq<ParamModel>, k: int, s: Gen)
    requires
        names_taken(s),
        codegen::bind_params(ps, k, s).next <= 255,
    ensures
        names_taken(codegen::bind_params(ps, k, s)),
    decreases k,
{
    if k > 0 {
        lemma_params_taken(ps, k - 1, s);
    }
}

/// Where an instruction starts, it still starts when code is appended.
proof fn lemma_starts_same(c: Seq<u8>, d: Seq<u8>, pc: int, t: int, l: Limits)
    requires
        verify::scan(c, pc, l) is None,
        0 <= pc <= c.len(),
        starts_with(d, c),
        verify::starts(c, pc, t),
    ensures
        verify::starts(d, pc, t),
    decreases c.len() - pc,
{
    assert(forall|i: int| 0 <= i < c.len() ==> c[i] == d.take(c.len() as int)[i]);
    if t != pc {
        lemma_instruction(c, pc, l);
        lemma_same_instruction(c, d, pc, l, l);
        lemma_starts_same(c, d, verify::next_pc(c, pc), t, l);
    }
}

/// The end of right code is where an instruction would start.
proof fn lemma_end_starts(c: Seq<u8>, l: Limits)
    requires
        right(c, l),
    ensures
        verify::starts(c, 0, c.len() as int),
{
    lemma_walk_end(c, c, 0, upto(l, c));
}

proof fn lemma_last(d: Seq<u8>, pc: int, n: int, l: Limits)
    requires
        verify::scan(d, pc, l) is None,
        0 <= pc <= n < d.len(),
        verify::starts(d, pc, n),
        verify::next_pc(d, n) == d.len(),
    ensures
        verify::last_start(d, pc) == n,
    decreases n - pc,
{
    lemma_instruction(d, pc, l);
    if pc != n {
        let m = verify::next_pc(d, pc);
        assert(verify::starts(d, m, n));
        lemma_starts_above(d, m, n);
        lemma_last(d, m, n, l);
    }
}

/// A return at the end makes a function of right code.
proof fn lemma_finish(c: Seq<u8>, ins: Seq<u8>, op: Opcode, f: FunctionModel, l: Limits)
    requires
        right(c, l),
        sound(ins, op, l),
        op == Opcode::ReturnNil || op == Opcode::ReturnVal,
        f.code == c + ins,
        f.max_register == l.regs,
    ensures
        accepted(f, l),
{
    let d = f.code;
    let n = c.len() as int;
    lemma_emit(c, ins, op, l);
    lemma_no_trap(op);
    lemma_end_starts(c, l);
    assert(d.take(n) =~= c);
    lemma_starts_same(c, d, 0, n, upto(l, c));
    assert(d[n] == ins[0]);
    assert(verify::next_pc(d, n) == d.len());
    lemma_last(d, 0, n, upto(l, d));
}

/// A literal.
proof fn lemma_hold_nil(s: Gen, span: Span, cx: Cx, l: Limits)
    requires
        held(s, l),
        s.nil(span, cx).0.next <= l.regs,
    ensures
        held(s.nil(span, cx).0, l),
        s.nil(span, cx).1 < s.nil(span, cx).0.next,
{
    lemma_grow_nil(s, span, cx);
    lemma_plain1(Opcode::ConstNil, s.reg(), l);
    lemma_hold(s, s.nil(span, cx).0, seq![bytecode::byte_of(Opcode::ConstNil), s.reg()], Opcode::ConstNil, l);
}

proof fn lemma_hold_pooled(s: Gen, o: Opcode, c: ConstModel, span: Span, cx: Cx, l: Limits)
    requires
        held(s, l),
        inside(s.pooled(o, c, span, cx).0, cx, l),
        o == Opcode::ConstInt || o == Opcode::ConstFloat || o == Opcode::ConstStr,
    ensures
        held(s.pooled(o, c, span, cx).0, l),
        s.pooled(o, c, span, cx).1 < s.pooled(o, c, span, cx).0.next,
{
    let t = s.pooled(o, c, span, cx).0;
    let v = bytecode::interned(s.consts, c);
    lemma_grow_pooled(s, o, c, span, cx);
    bytecode::law_interning(s.consts, c);
    assert(t.consts == bytecode::with_const(s.consts, c));
    lemma_pooled(o, s.reg(), v, l);
    lemma_hold(s, t, seq![bytecode::byte_of(o), s.reg(), codegen::lo8(v), codegen::hi8(v)], o, l);
}

proof fn lemma_hold_indirect(cls: u8, rs: Seq<u8>, span: Span, s: Gen, cx: Cx, l: Limits)
    requires
        held(s, l),
        cls < l.regs,
        rs.len() <= 255,
        all_below(rs, l.regs as int),
        codegen::g_indirect(cls, rs, span, s, cx).0.next <= l.regs,
    ensures
        held(codegen::g_indirect(cls, rs, span, s, cx).0, l),
        s.reg() < codegen::g_indirect(cls, rs, span, s, cx).0.next,
{
    let t = codegen::g_indirect(cls, rs, span, s, cx).0;
    lemma_grow_indirect(cls, rs, span, s, cx);
    lemma_list(s.taken().op(Opcode::CallClosure, span, cx).byte(s.reg()).byte(cls), rs);
    lemma_closure_call(s.reg(), cls, rs, l);
    lemma_hold(
        s,
        t,
        seq![bytecode::byte_of(Opcode::CallClosure), s.reg(), cls, (rs.len() % 256) as u8] + rs,
        Opcode::CallClosure,
        l,
    );
}

proof fn lemma_hold_direct(id: u16, rs: Seq<u8>, span: Span, s: Gen, cx: Cx, l: Limits)
    requires
        held(s, l),
        id < l.fns <= 0x1_0000,
        rs.len() <= 255,
        all_below(rs, l.regs as int),
        codegen::g_direct(id, rs, span, s, cx).0.next <= l.regs,
    ensures
        held(codegen::g_direct(id, rs, span, s, cx).0, l),
        s.reg() < codegen::g_direct(id, rs, span, s, cx).0.next,
{
    let t = codegen::g_direct(id, rs, span, s, cx).0;
    lemma_grow_direct(id, rs, span, s, cx);
    lemma_list(s.taken().op(Opcode::Call, span, cx).byte(s.reg()).word(id as int), rs);
    lemma_call(Opcode::Call, s.reg(), id as int, rs, l);
    lemma_hold(
        s,
        t,
        seq![
            bytecode::byte_of(Opcode::Call),
            s.reg(),
            codegen::lo8(id as int),
            codegen::hi8(id as int),
            (rs.len() % 256) as u8,
        ] + rs,
        Opcode::Call,
        l,
    );
}

proof fn lemma_hold_pairs_put(rs: Seq<(u8, u8)>, k: int, dst: u8, span: Span, s: Gen, cx: Cx, l: Limits)
    requires
        held(s, l),
        dst < l.regs,
        k <= rs.len(),
        forall|i: int| 0 <= i < rs.len() ==> (#[trigger] rs[i]).0 < l.regs && rs[i].1 < l.regs,
    ensures
        held(codegen::put_pairs(rs, k, dst, span, s, cx), l),
    decreases k,
{
    if k > 0 {
        lemma_hold_pairs_put(rs, k - 1, dst, span, s, cx, l);
        lemma_grow_pairs_put(rs, k - 1, dst, span, s, cx);
        let t = codegen::put_pairs(rs, k - 1, dst, span, s, cx);
        let u = codegen::put_pairs(rs, k, dst, span, s, cx);
        let (a, b) = rs[k - 1];
        assert(rs[k - 1].0 < l.regs);
        let ins = seq![bytecode::byte_of(Opcode::MapSet), dst, a, b];
        assert(u.code =~= t.code + ins);
        lemma_plain3(Opcode::MapSet, dst, a, b, l);
        lemma_hold(t, u, ins, Opcode::MapSet, l);
    }
}

proof fn lemma_hold_fields_put(
    ns: Seq<(Seq<char>, ExprModel)>,
    rs: Seq<u8>,
    k: int,
    dst: u8,
    span: Span,
    s: Gen,
    cx: Cx,
    l: Limits,
)
    requires
        held(s, l),
        dst < l.regs,
        k <= rs.len(),
        all_below(rs, l.regs as int),
        codegen::put_fields(ns, rs, k, dst, span, s, cx).consts.len() <= l.consts <= 0x1_0000,
    ensures
        held(codegen::put_fields(ns, rs, k, dst, span, s, cx), l),
    decreases k,
{
    if k > 0 {
        let t = codegen::put_fields(ns, rs, k - 1, dst, span, s, cx);
        let u = codegen::put_fields(ns, rs, k, dst, span, s, cx);
        let c = ConstModel::Str(ns[k - 1].0);
        let v = bytecode::interned(t.consts, c);
        bytecode::law_interning(t.consts, c);
        assert(u.consts == bytecode::with_const(t.consts, c));
        assert(v % 0x1_0000 == v);
        lemma_hold_fields_put(ns, rs, k - 1, dst, span, s, cx, l);
        lemma_grow_fields_put(ns, rs, k - 1, dst, span, s, cx);
        assert(rs[k - 1] < l.regs);
        let ins = seq![bytecode::byte_of(Opcode::StructSet), dst, codegen::lo8(v), codegen::hi8(v), rs[k - 1]];
        assert(u.code =~= t.code + ins);
        lemma_field_set(dst, v, rs[k - 1], l);
        lemma_hold(t, u, ins, Opcode::StructSet, l);
    }
}

proof fn lemma_hold_joined(s: Gen, out: Option<u8>, tail: Option<u8>, span: Span, cx: Cx, l: Limits)
    requires
        held(s, l),
        out matches Some(d) ==> d < l.regs,
        tail matches Some(r) ==> r < l.regs,
    ensures
        held(codegen::joined(s, out, tail, span, cx), l),
{
    let t = codegen::joined(s, out, tail, span, cx);
    if out is Some && tail is Some && out->0 != tail->0 {
        let ins = seq![bytecode::byte_of(Opcode::Move), out->0, tail->0];
        assert(t.code =~= s.code + ins);
        lemma_plain2(Opcode::Move, out->0, tail->0, l);
        lemma_hold(s, t, ins, Opcode::Move, l);
    }
}

proof fn lemma_hold_no_else(s: Gen, out: Option<u8>, span: Span, cx: Cx, l: Limits)
    requires
        held(s, l),
        out matches Some(d) ==> d < l.regs,
    ensures
        held(codegen::no_else(s, out, span, cx), l),
{
    if let Some(d) = out {
        let t = codegen::no_else(s, out, span, cx);
        let ins = seq![bytecode::byte_of(Opcode::ConstNil), d];
        assert(t.code =~= s.code + ins);
        lemma_plain1(Opcode::ConstNil, d, l);
        lemma_hold(s, t, ins, Opcode::ConstNil, l);
    }
}

/// Setting the distance of a jump that was left open.
proof fn lemma_hold_patch(c: Seq<u8>, s: Gen, pc: int, k: int, l: Limits)
    requires
        held(s, l),
        right(c, l),
        starts_with(s.code, c),
        verify::starts(c, 0, pc),
        0 <= pc,
        pc + k + 2 <= c.len(),
        s.code.len() <= 0x7FFF,
        (k == 1 && c[pc] == bytecode::byte_of(Opcode::Jmp)) || (k == 2 && c[pc] == bytecode::byte_of(
            Opcode::JmpIfFalse,
        )),
    ensures
        held(s.patch(pc + k), l),
        forall|t: int| verify::starts(s.code, 0, t) ==> #[trigger] verify::starts(s.patch(pc + k).code, 0, t),
{
    lemma_starts_same(c, s.code, 0, pc, upto(l, c));
    assert(s.code.take(c.len() as int)[pc] == s.code[pc]);
    lemma_no_trap(Opcode::Jmp);
    lemma_no_trap(Opcode::JmpIfFalse);
    lemma_patch(s.code, pc, k, l);
}

/// Whether an expression lists no more than 255 arguments, elements or captured names
/// anywhere: an instruction counts them in one byte.
pub open spec fn narrow(e: ExprModel) -> bool
    decreases e, 0int,
{
    match e.kind {
        ExprKindModel::Lit(_) | ExprKindModel::Ident(_) => true,
        ExprKindModel::Binary(_, l, r) => narrow(*l.it) && narrow(*r.it),
        ExprKindModel::Unary(_, x) => narrow(*x.it),
        ExprKindModel::Call(c, args) => args.len() <= 255 && narrow(*c.it) && narrow_exprs(args, args.len() as int),
        ExprKindModel::Field(x, _) => narrow(*x.it),
        ExprKindModel::Index(x, i) => narrow(*x.it) && narrow(*i.it),
        ExprKindModel::StructLit(_, fs) => narrow_inits(fs, fs.len() as int),
        ExprKindModel::ArrayLit(es) => es.len() <= 255 && narrow_exprs(es, es.len() as int),
        ExprKindModel::MapLit(ps) => narrow_pairs(ps, ps.len() as int),
        ExprKindModel::Closure(ps, body) => codegen::free_vars(*body.it, ps).len() <= 255 && narrow(*body.it),
        ExprKindModel::Block(b) => narrow_block(*b.it),
        ExprKindModel::If(c, t, el) => narrow(*c.it) && narrow_block(*t.it) && match el {
            Some(b) => narrow_block(*b.it),
            None => true,
        },
    }
}

/// The same of the first `k` expressions.
pub open spec fn narrow_exprs(es: Seq<ExprModel>, k: int) -> bool
    decreases es, k,
{
    k <= 0 || k > es.len() || (narrow_exprs(es, k - 1) && narrow(es[k - 1]))
}

/// The same of the first `k` field initializers.
pub open spec fn narrow_inits(fs: Seq<(Seq<char>, ExprModel)>, k: int) -> bool
    decreases fs, k,
{
    k <= 0 || k > fs.len() || (narrow_inits(fs, k - 1) && narrow(fs[k - 1].1))
}

/// The same of the first `k` map entries.
pub open spec fn narrow_pairs(ps: Seq<(ExprModel, ExprModel)>, k: int) -> bool
    decreases ps, k,
{
    k <= 0 || k > ps.len() || (narrow_pairs(ps, k - 1) && narrow(ps[k - 1].0) && narrow(ps[k - 1].1))
}

/// The same of a block.
pub open spec fn narrow_block(b: BlockModel) -> bool
    decreases b, 0int,
{
    narrow_stmts(b.stmts, b.stmts.len() as int) && match b.tail {
        Some(t) => narrow(t),
        None => true,
    }
}

/// The same of the first `k` statements.
pub open spec fn narrow_stmts(ss: Seq<StmtModel>, k: int) -> bool
    decreases ss, k,
{
    k <= 0 || k > ss.len() || (narrow_stmts(ss, k - 1) && narrow_stmt(ss[k - 1]))
}

/// The same of a statement.
pub open spec fn narrow_stmt(st: StmtModel) -> bool
    decreases st, 0int,
{
    match st.kind {
        StmtKindModel::Let { init, .. } => narrow(init),
        StmtKindModel::Assign(p, v) => narrow(p) && narrow(v),
        StmtKindModel::Expr(e) => narrow(e),
        StmtKindModel::Return(Some(e)) => narrow(e),
        StmtKindModel::Return(None) => true,
        StmtKindModel::While(c, b) => narrow(c) && narrow_block(*b.it),
        StmtKindModel::If(c, t, el) => narrow(c) && narrow_block(*t.it) && match el {
            Some(b) => narrow_block(*b.it),
            None => true,
        },
        StmtKindModel::Break | StmtKindModel::Continue => true,
    }
}

/// Whether a block keeps what holds.
spec fn block_holds(b: BlockModel, s: Gen, cx: Cx, l: Limits) -> bool {
    held(codegen::g_block(b, s, cx).0, l) && (codegen::g_block(b, s, cx).1 matches Some(r) ==> r < codegen::g_block(
        b,
        s,
        cx,
    ).0.next)
}

/// The conditional jump of an `if` or a `while`.
proof fn lemma_hold_unless(s: Gen, r: u8, span: Span, cx: Cx, l: Limits)
    requires
        held(s, l),
        s.code.len() <= 0x7FFF,
        r < l.regs,
    ensures
        held(codegen::unless(s, r, span, cx), l),
        verify::starts(codegen::unless(s, r, span, cx).code, 0, s.code.len() as int),
        codegen::unless(s, r, span, cx).code[s.code.len() as int] == bytecode::byte_of(Opcode::JmpIfFalse),
{
    lemma_grow_unless(s, r, span, cx);
    lemma_emit_unless(s.code, r, l);
}

/// The first arm of an `if`.
#[verifier::spinoff_prover]
proof fn lemma_hold_first_arm(c: ExprModel, yes: BlockModel, out: Option<u8>, s1: Gen, r: u8, cx: Cx, l: Limits)
    requires
        held(s1, l),
        r < l.regs,
        out matches Some(d) ==> d < l.regs,
        block_grows(yes, codegen::unless(s1, r, c.span, cx), cx),
        block_holds(yes, codegen::unless(s1, r, c.span, cx), cx, l),
        first_arm(c, yes, out, s1, r, cx).code.len() <= 0x7FFF,
    ensures
        held(first_arm(c, yes, out, s1, r, cx), l),
        ({
            let s4 = first_arm(c, yes, out, s1, r, cx);
            let at = s4.code.len() - 3;
            verify::starts(s4.code, 0, at) && s4.code[at] == bytecode::byte_of(Opcode::Jmp)
        }),
{
    lemma_grow_first_arm(c, yes, out, s1, r, cx);
    let n1 = s1.code.len() as int;
    let s2 = codegen::unless(s1, r, c.span, cx);
    lemma_hold_unless(s1, r, c.span, cx, l);
    lemma_grow_unless(s1, r, c.span, cx);
    let (s3, t) = codegen::g_block(yes, s2, cx);
    let j = codegen::joined(s3, out, t, yes.span, cx);
    lemma_hold_joined(s3, out, t, yes.span, cx, l);
    lemma_grow_joined(s3, out, t, yes.span, cx);
    let k = jumped(j, yes.span, cx);
    lemma_grow_jumped(j, yes.span, cx);
    let s4 = k.patch(n1 + 2);
    assert(s4 == first_arm(c, yes, out, s1, r, cx));
    assert(s4.code.len() == k.code.len());
    lemma_emit_jump(j.code, 0, l);
    assert(held(k, l));
    lemma_after_trans(s2, s3, j);
    lemma_after_trans(s2, j, k);
    lemma_hold_patch(s2.code, k, n1, 2, l);
    let at = j.code.len() as int;
    assert(k.code[at] == bytecode::byte_of(Opcode::Jmp));
    assert(s4.code[at] == k.code[at]);
}

/// Both arms of an `if`.
#[verifier::spinoff_prover]
proof fn lemma_hold_arms(
    c: ExprModel,
    yes: BlockModel,
    no: Option<BlockModel>,
    out: Option<u8>,
    s1: Gen,
    r: u8,
    cx: Cx,
    l: Limits,
)
    requires
        held(s1, l),
        r < l.regs,
        out matches Some(d) ==> d < l.regs,
        block_grows(yes, codegen::unless(s1, r, c.span, cx), cx),
        block_holds(yes, codegen::unless(s1, r, c.span, cx), cx, l),
        no matches Some(b) ==> block_grows(b, first_arm(c, yes, out, s1, r, cx), cx) && block_holds(
            b,
            first_arm(c, yes, out, s1, r, cx),
            cx,
            l,
        ),
        arms(c, yes, no, out, s1, r, cx).code.len() <= 0x7FFF,
    ensures
        held(arms(c, yes, no, out, s1, r, cx), l),
{
    let s4 = first_arm(c, yes, out, s1, r, cx);
    let at = s4.code.len() - 3;
    lemma_grow_first_arm(c, yes, out, s1, r, cx);
    match no {
        Some(b) => {
            let (s5, u) = codegen::g_block(b, s4, cx);
            let q = codegen::joined(s5, out, u, b.span, cx);
            lemma_grow_joined(s5, out, u, b.span, cx);
            lemma_after_trans(s4, s5, q);
            lemma_after_trans(s1, s4, q);
            lemma_after_patch(s1, q, at + 1);
            lemma_hold_first_arm(c, yes, out, s1, r, cx, l);
            lemma_hold_joined(s5, out, u, b.span, cx, l);
            lemma_hold_patch(s4.code, q, at, 1, l);
        },
        None => {
            let q = codegen::no_else(s4, out, c.span, cx);
            lemma_grow_no_else(s4, out, c.span, cx);
            lemma_after_trans(s1, s4, q);
            lemma_after_patch(s1, q, at + 1);
            lemma_hold_first_arm(c, yes, out, s1, r, cx, l);
            lemma_hold_no_else(s4, out, c.span, cx, l);
            lemma_hold_patch(s4.code, q, at, 1, l);
        },
    }
}

#[verifier::spinoff_prover]
#[verifier::rlimit(80)]
proof fn lemma_hold_expr(e: ExprModel, s: Gen, cx: Cx, l: Limits)
    requires
        held(s, l),
        narrow(e),
        inside(codegen::g_expr(e, s, cx).0, cx, l),
    ensures
        held(codegen::g_expr(e, s, cx).0, l),
        codegen::g_expr(e, s, cx).1 < codegen::g_expr(e, s, cx).0.next,
    decreases e, 1int,
{
    reveal(codegen::g_expr);
    reveal(codegen::g_exprs);
    reveal(codegen::g_inits);
    reveal(codegen::g_pairs);
    reveal(codegen::g_block);
    reveal(codegen::g_clos);
    let t = codegen::g_expr(e, s, cx).0;
    match e.kind {
        ExprKindModel::Lit(written) => {
            match crate::typeck::literal_value(written, e.ty) {
                LitModel::Nil => {
                    lemma_hold_nil(s, e.span, cx, l);
                },
                LitModel::Bool(b) => {
                    let op = if b {
                        Opcode::ConstTrue
                    } else {
                        Opcode::ConstFalse
                    };
                    let ins = seq![bytecode::byte_of(op), s.reg()];
                    assert(t.code =~= s.code + ins);
                    lemma_plain1(op, s.reg(), l);
                    lemma_hold(s, t, ins, op, l);
                },
                LitModel::Int(v) => {
                    lemma_hold_pooled(s, Opcode::ConstInt, ConstModel::Int(v), e.span, cx, l);
                },
                LitModel::Float(b) => {
                    lemma_hold_pooled(s, Opcode::ConstFloat, ConstModel::Float(b), e.span, cx, l);
                },
                LitModel::Str(x) => {
                    lemma_hold_pooled(s, Opcode::ConstStr, ConstModel::Str(x), e.span, cx, l);
                },
            }
        },
        ExprKindModel::Ident(n) => {
            lemma_bound(s.env, n, s.next as int);
            if codegen::bound_reg(s.env, n) is None {
                lemma_hold_nil(s, e.span, cx, l);
            }
        },
        ExprKindModel::Binary(op, x, y) => {
            let (s1, a) = codegen::g_expr(*x.it, s, cx);
            let (s2, b) = codegen::g_expr(*y.it, s1, cx);
            lemma_grow_expr(*x.it, s, cx);
            lemma_grow_expr(*y.it, s1, cx);
            let o = codegen::binop_code(op);
            let ins = seq![bytecode::byte_of(o), s2.reg(), a, b];
            assert(t.code =~= s2.code + ins);
            lemma_after_plus(s2, t, ins);
            lemma_inside(s2, t, cx, l);
            lemma_inside(s1, s2, cx, l);
            lemma_hold_expr(*x.it, s, cx, l);
            lemma_hold_expr(*y.it, s1, cx, l);
            lemma_plain3(o, s2.reg(), a, b, l);
            lemma_hold(s2, t, ins, o, l);
        },
        ExprKindModel::Unary(op, x) => {
            let (s1, a) = codegen::g_expr(*x.it, s, cx);
            lemma_grow_expr(*x.it, s, cx);
            let o = codegen::unop_code(op);
            let ins = seq![bytecode::byte_of(o), s1.reg(), a];
            assert(t.code =~= s1.code + ins);
            lemma_after_plus(s1, t, ins);
            lemma_inside(s1, t, cx, l);
            lemma_hold_expr(*x.it, s, cx, l);
            lemma_plain2(o, s1.reg(), a, l);
            lemma_hold(s1, t, ins, o, l);
        },
        ExprKindModel::Call(c, args) => {
            let n = args.len() as int;
            let (s1, rs) = codegen::g_exprs(args, n, s, cx);
            lemma_grow_exprs(args, n, s, cx);
            match codegen::direct(*c.it, cx) {
                Some(id) => {
                    lemma_grow_direct(id, rs, e.span, s1, cx);
                    lemma_inside(s1, t, cx, l);
                    lemma_hold_exprs(args, n, s, cx, l);
                    lemma_hold_direct(id, rs, e.span, s1, cx, l);
                },
                None => match codegen::named_callee(*c.it, s1) {
                    Some(Some(r)) => {
                        lemma_grow_indirect(r, rs, e.span, s1, cx);
                        lemma_inside(s1, t, cx, l);
                        lemma_hold_exprs(args, n, s, cx, l);
                        match c.it.kind {
                            ExprKindModel::Ident(name) => {
                                lemma_bound(s1.env, name, s1.next as int);
                            },
                            _ => {},
                        }
                        lemma_hold_indirect(r, rs, e.span, s1, cx, l);
                    },
                    Some(None) => {
                        lemma_grow_nil(s1, e.span, cx);
                        lemma_inside(s1, t, cx, l);
                        lemma_hold_exprs(args, n, s, cx, l);
                        lemma_hold_nil(s1, e.span, cx, l);
                    },
                    None => {
                        lemma_grow_expr(*c.it, s1, cx);
                        let (s2, r) = codegen::g_expr(*c.it, s1, cx);
                        lemma_grow_indirect(r, rs, e.span, s2, cx);
                        lemma_inside(s2, t, cx, l);
                        lemma_inside(s1, s2, cx, l);
                        lemma_hold_exprs(args, n, s, cx, l);
                        lemma_hold_expr(*c.it, s1, cx, l);
                        lemma_hold_indirect(r, rs, e.span, s2, cx, l);
                    },
                },
            }
        },
        ExprKindModel::ArrayLit(es) => {
            let n = es.len() as int;
            let (s1, rs) = codegen::g_exprs(es, n, s, cx);
            lemma_grow_exprs(es, n, s, cx);
            let head = s1.taken().op(Opcode::ArrayNew, e.span, cx).byte(s1.reg());
            lemma_list(head, rs);
            let ins = seq![bytecode::byte_of(Opcode::ArrayNew), s1.reg(), (rs.len() % 256) as u8] + rs;
            assert(t.code =~= s1.code + ins);
            lemma_after_plus(s1, t, ins);
            lemma_inside(s1, t, cx, l);
            lemma_hold_exprs(es, n, s, cx, l);
            lemma_array(s1.reg(), rs, l);
            lemma_hold(s1, t, ins, Opcode::ArrayNew, l);
        },
        ExprKindModel::MapLit(ps) => {
            let n = ps.len() as int;
            let (s1, rs) = codegen::g_pairs(ps, n, s, cx);
            lemma_grow_pairs(ps, n, s, cx);
            let s2 = s1.taken().op(Opcode::MapNew, e.span, cx).byte(s1.reg());
            let ins = seq![bytecode::byte_of(Opcode::MapNew), s1.reg()];
            assert(s2.code =~= s1.code + ins);
            lemma_after_plus(s1, s2, ins);
            lemma_grow_pairs_put(rs, rs.len() as int, s1.reg(), e.span, s2, cx);
            lemma_inside(s2, t, cx, l);
            lemma_inside(s1, s2, cx, l);
            lemma_hold_pairs(ps, n, s, cx, l);
            lemma_plain1(Opcode::MapNew, s1.reg(), l);
            lemma_hold(s1, s2, ins, Opcode::MapNew, l);
            lemma_hold_pairs_put(rs, rs.len() as int, s1.reg(), e.span, s2, cx, l);
        },
        ExprKindModel::StructLit(_, fs) => {
            let n = fs.len() as int;
            let (s1, rs) = codegen::g_inits(fs, n, s, cx);
            lemma_grow_inits(fs, n, s, cx);
            let s2 = s1.taken().op(Opcode::StructNew, e.span, cx).byte(s1.reg());
            let ins = seq![bytecode::byte_of(Opcode::StructNew), s1.reg()];
            assert(s2.code =~= s1.code + ins);
            lemma_after_plus(s1, s2, ins);
            lemma_grow_fields_put(fs, rs, n, s1.reg(), e.span, s2, cx);
            lemma_inside(s2, t, cx, l);
            lemma_inside(s1, s2, cx, l);
            lemma_hold_inits(fs, n, s, cx, l);
            lemma_plain1(Opcode::StructNew, s1.reg(), l);
            lemma_hold(s1, s2, ins, Opcode::StructNew, l);
            lemma_hold_fields_put(fs, rs, n, s1.reg(), e.span, s2, cx, l);
        },
        ExprKindModel::Field(x, n) => {
            let (s1, a) = codegen::g_expr(*x.it, s, cx);
            lemma_grow_expr(*x.it, s, cx);
            let c = ConstModel::Str(n);
            let v = bytecode::interned(s1.consts, c);
            bytecode::law_interning(s1.consts, c);
            assert(t.consts == bytecode::with_const(s1.consts, c));
            let ins = seq![bytecode::byte_of(Opcode::StructGet), s1.reg(), a, codegen::lo8(v), codegen::hi8(v)];
            assert(v % 0x1_0000 == v);
            assert(t.code =~= s1.code + ins);
            lemma_after_plus(s1, t, ins);
            lemma_inside(s1, t, cx, l);
            lemma_hold_expr(*x.it, s, cx, l);
            lemma_field_get(s1.reg(), a, v, l);
            lemma_hold(s1, t, ins, Opcode::StructGet, l);
        },
        ExprKindModel::Index(x, i) => {
            let (s1, a) = codegen::g_expr(*x.it, s, cx);
            let (s2, b) = codegen::g_expr(*i.it, s1, cx);
            lemma_grow_expr(*x.it, s, cx);
            lemma_grow_expr(*i.it, s1, cx);
            match codegen::index_code(x.it.ty) {
                Some(o) => {
                    let ins = seq![bytecode::byte_of(o), s2.reg(), a, b];
                    assert(t.code =~= s2.code + ins);
                    lemma_after_plus(s2, t, ins);
                    lemma_inside(s2, t, cx, l);
                    lemma_inside(s1, s2, cx, l);
                    lemma_hold_expr(*x.it, s, cx, l);
                    lemma_hold_expr(*i.it, s1, cx, l);
                    lemma_plain3(o, s2.reg(), a, b, l);
                    lemma_hold(s2, t, ins, o, l);
                },
                None => {
                    lemma_grow_nil(s2, e.span, cx);
                    lemma_inside(s2, t, cx, l);
                    lemma_inside(s1, s2, cx, l);
                    lemma_hold_expr(*x.it, s, cx, l);
                    lemma_hold_expr(*i.it, s1, cx, l);
                    lemma_hold_nil(s2, e.span, cx, l);
                },
            }
        },
        ExprKindModel::Closure(_, _) => {
            lemma_hold_clos(e, s, cx, l);
        },
        ExprKindModel::Block(b) => {
            let (s1, r) = codegen::g_block(*b.it, s, cx);
            lemma_grow_block(*b.it, s, cx);
            if r is None {
                lemma_grow_nil(s1, e.span, cx);
                lemma_inside(s1, t, cx, l);
                lemma_hold_block(*b.it, s, cx, l);
                lemma_hold_nil(s1, e.span, cx, l);
            } else {
                lemma_hold_block(*b.it, s, cx, l);
            }
        },
        ExprKindModel::If(c, yes, no) => {
            let out = Some(s.reg());
            let s0 = s.taken();
            let (s1, r) = codegen::g_expr(*c.it, s0, cx);
            let s2 = codegen::unless(s1, r, c.it.span, cx);
            let s4 = first_arm(*c.it, *yes.it, out, s1, r, cx);
            let other = match no {
                Some(b) => Some(*b.it),
                None => None,
            };
            assert(t == arms(*c.it, *yes.it, other, out, s1, r, cx));
            lemma_grow_expr(*c.it, s0, cx);
            lemma_grow_unless(s1, r, c.it.span, cx);
            lemma_grow_block(*yes.it, s2, cx);
            lemma_grow_first_arm(*c.it, *yes.it, out, s1, r, cx);
            if let Some(b) = no {
                lemma_grow_block(*b.it, s4, cx);
            }
            lemma_grow_arms(*c.it, *yes.it, other, out, s1, r, cx);
            lemma_inside(s1, t, cx, l);
            lemma_inside_arms(*c.it, *yes.it, other, out, s1, r, cx, l);
            assert(held(s0, l)) by {
                assert(s0.next <= s1.next);
            }
            lemma_hold_expr(*c.it, s0, cx, l);
            assert(s1.code.len() <= 0x7FFF);
            lemma_hold_unless(s1, r, c.it.span, cx, l);
            lemma_hold_block(*yes.it, s2, cx, l);
            lemma_hold_first_arm(*c.it, *yes.it, out, s1, r, cx, l);
            if let Some(b) = no {
                lemma_hold_block(*b.it, s4, cx, l);
            }
            lemma_hold_arms(*c.it, *yes.it, other, out, s1, r, cx, l);
        },
    }
}

/// Within the arms of an `if`, all is within limits where their end is.
proof fn lemma_inside_arms(
    c: ExprModel,
    yes: BlockModel,
    no: Option<BlockModel>,
    out: Option<u8>,
    s1: Gen,
    r: u8,
    cx: Cx,
    l: Limits,
)
    requires
        inside(arms(c, yes, no, out, s1, r, cx), cx, l),
        block_grows(yes, codegen::unless(s1, r, c.span, cx), cx),
        no matches Some(b) ==> block_grows(b, first_arm(c, yes, out, s1, r, cx), cx),
    ensures
        inside(codegen::g_block(yes, codegen::unless(s1, r, c.span, cx), cx).0, cx, l),
        inside(first_arm(c, yes, out, s1, r, cx), cx, l),
        no matches Some(b) ==> inside(codegen::g_block(b, first_arm(c, yes, out, s1, r, cx), cx).0, cx, l),
{
    let s2 = codegen::unless(s1, r, c.span, cx);
    lemma_grow_unless(s1, r, c.span, cx);
    lemma_grow_first_arm(c, yes, out, s1, r, cx);
    let (s3, x) = codegen::g_block(yes, s2, cx);
    let j = codegen::joined(s3, out, x, yes.span, cx);
    lemma_grow_joined(s3, out, x, yes.span, cx);
    let k = jumped(j, yes.span, cx);
    lemma_grow_jumped(j, yes.span, cx);
    let s4 = first_arm(c, yes, out, s1, r, cx);
    assert(s4 == k.patch(s2.code.len() - 2));
    let t = arms(c, yes, no, out, s1, r, cx);
    let at = s4.code.len() - 2;
    match no {
        Some(b) => {
            let (s5, u) = codegen::g_block(b, s4, cx);
            let q = codegen::joined(s5, out, u, b.span, cx);
            lemma_grow_joined(s5, out, u, b.span, cx);
            assert(inside(q, cx, l));
            lemma_inside(s5, q, cx, l);
            lemma_inside(s4, s5, cx, l);
        },
        None => {
            let q = codegen::no_else(s4, out, c.span, cx);
            lemma_grow_no_else(s4, out, c.span, cx);
            assert(inside(q, cx, l));
            lemma_inside(s4, q, cx, l);
        },
    }
    assert(inside(k, cx, l));
    lemma_inside(j, k, cx, l);
    lemma_inside(s3, j, cx, l);
}

#[verifier::spinoff_prover]
#[verifier::rlimit(60)]
proof fn lemma_hold_clos(e: ExprModel, s: Gen, cx: Cx, l: Limits)
    requires
        held(s, l),
        narrow(e),
        e.kind is Closure,
        inside(codegen::g_clos(e, s, cx).0, cx, l),
    ensures
        held(codegen::g_clos(e, s, cx).0, l),
        codegen::g_clos(e, s, cx).1 < codegen::g_clos(e, s, cx).0.next,
    decreases e, 0int,
{
    reveal(codegen::g_clos);
    reveal(codegen::g_expr);
    match e.kind {
        ExprKindModel::Closure(ps, body) => {
            let names = codegen::free_vars(*body.it, ps);
            let caps = codegen::captured(names, names.len() as int, s.env);
            let b0 = codegen::blank(s.consts, s.fns);
            let b1 = codegen::bind_names(caps.0, caps.0.len() as int, b0);
            let start = codegen::closure_start(caps.0, ps, s);
            lemma_grow_binds(caps.0, caps.0.len() as int, b0);
            lemma_grow_params(ps, ps.len() as int, b1);
            lemma_grow_expr(*body.it, start, cx);
            let (t, r) = codegen::g_expr(*body.it, start, cx);
            let u = codegen::g_clos(e, s, cx).0;
            let name = "__closure_"@ + crate::text::dec(((cx.tops + s.fns.len()) % 0x1_0000) as nat);
            let f = codegen::closure_fn(name, caps.0.len() + ps.len(), t, r, body.it.span, cx);
            let v = Gen { consts: t.consts, fns: t.fns.push(f), ..s };
            let idx = cx.tops + t.fns.len();
            let head = v.taken().op(Opcode::ClosureMake, e.span, cx).byte(v.reg()).word(idx % 0x1_0000);
            lemma_list(head, caps.1);
            assert(u == head.list(caps.1));
            assert(u.fns == t.fns.push(f));
            assert(u.fns[t.fns.len() as int] == f);
            assert(f.max_register > 0 && f.code.len() <= 0x7FFF);
            // the body
            let lb = Limits { regs: f.max_register, ..l };
            let ret = seq![bytecode::byte_of(Opcode::ReturnVal), r];
            assert(f.code =~= t.code + ret);
            assert(inside(t, cx, lb)) by {
                assert forall|i: int| 0 <= i < t.fns.len() implies (#[trigger] t.fns[i]).max_register > 0
                    && t.fns[i].code.len() <= 0x7FFF by {
                    assert(u.fns[i] == t.fns[i]);
                }
            }
            assert(names_taken(b0));
            lemma_binds_taken(caps.0, caps.0.len() as int, b0);
            lemma_params_taken(ps, ps.len() as int, b1);
            assert(start.code =~= Seq::empty());
            assert(held(start, lb)) by {
                assert forall|i: int| 0 <= i < start.fns.len() implies accepted(#[trigger] start.fns[i], lb) by {
                    assert(accepted(s.fns[i], l));
                }
            }
            lemma_hold_expr(*body.it, start, cx, lb);
            lemma_plain1(Opcode::ReturnVal, r, lb);
            lemma_finish(t.code, ret, Opcode::ReturnVal, f, lb);
            // the closure
            lemma_captured(names, names.len() as int, s.env, s.next as int);
            let ins = seq![
                bytecode::byte_of(Opcode::ClosureMake),
                v.reg(),
                codegen::lo8(idx),
                codegen::hi8(idx),
                (caps.1.len() % 256) as u8,
            ] + caps.1;
            assert(idx % 0x1_0000 == idx);
            assert(u.code =~= s.code + ins);
            lemma_call(Opcode::ClosureMake, v.reg(), idx, caps.1, l);
            lemma_emit(s.code, ins, Opcode::ClosureMake, l);
            assert forall|i: int| 0 <= i < u.fns.len() implies accepted(#[trigger] u.fns[i], l) by {
                if i < t.fns.len() {
                    assert(accepted(t.fns[i], lb));
                }
            }
        },
        _ => {},
    }
}

#[verifier::spinoff_prover]
proof fn lemma_hold_exprs(es: Seq<ExprModel>, k: int, s: Gen, cx: Cx, l: Limits)
    requires
        held(s, l),
        narrow_exprs(es, k),
        0 <= k <= es.len(),
        inside(codegen::g_exprs(es, k, s, cx).0, cx, l),
    ensures
        held(codegen::g_exprs(es, k, s, cx).0, l),
        codegen::g_exprs(es, k, s, cx).1.len() == k,
        all_below(codegen::g_exprs(es, k, s, cx).1, codegen::g_exprs(es, k, s, cx).0.next as int),
    decreases es, k,
{
    reveal(codegen::g_exprs);
    reveal(codegen::g_expr);
    if k > 0 {
        let (s1, rs) = codegen::g_exprs(es, k - 1, s, cx);
        let (s2, r) = codegen::g_expr(es[k - 1], s1, cx);
        lemma_grow_expr(es[k - 1], s1, cx);
        lemma_inside(s1, s2, cx, l);
        lemma_hold_exprs(es, k - 1, s, cx, l);
        lemma_hold_expr(es[k - 1], s1, cx, l);
        assert forall|i: int| 0 <= i < rs.push(r).len() implies (#[trigger] rs.push(r)[i]) < s2.next by {
            if i < rs.len() {
                assert(rs[i] < s1.next);
            }
        }
    }
}

#[verifier::spinoff_prover]
proof fn lemma_hold_inits(fs: Seq<(Seq<char>, ExprModel)>, k: int, s: Gen, cx: Cx, l: Limits)
    requires
        held(s, l),
        narrow_inits(fs, k),
        0 <= k <= fs.len(),
        inside(codegen::g_inits(fs, k, s, cx).0, cx, l),
    ensures
        held(codegen::g_inits(fs, k, s, cx).0, l),
        codegen::g_inits(fs, k, s, cx).1.len() == k,
        all_below(codegen::g_inits(fs, k, s, cx).1, codegen::g_inits(fs, k, s, cx).0.next as int),
    decreases fs, k,
{
    reveal(codegen::g_inits);
    reveal(codegen::g_expr);
    if k > 0 {
        let (s1, rs) = codegen::g_inits(fs, k - 1, s, cx);
        let (s2, r) = codegen::g_expr(fs[k - 1].1, s1, cx);
        assert(decreases_to!(fs => fs[k - 1]));
        assert(decreases_to!(fs[k - 1] => fs[k - 1].1));
        lemma_grow_expr(fs[k - 1].1, s1, cx);
        lemma_inside(s1, s2, cx, l);
        lemma_hold_inits(fs, k - 1, s, cx, l);
        lemma_hold_expr(fs[k - 1].1, s1, cx, l);
        assert forall|i: int| 0 <= i < rs.push(r).len() implies (#[trigger] rs.push(r)[i]) < s2.next by {
            if i < rs.len() {
                assert(rs[i] < s1.next);
            }
        }
    }
}

#[verifier::spinoff_prover]
proof fn lemma_hold_pairs(ps: Seq<(ExprModel, ExprModel)>, k: int, s: Gen, cx: Cx, l: Limits)
    requires
        held(s, l),
        narrow_pairs(ps, k),
        0 <= k <= ps.len(),
        inside(codegen::g_pairs(ps, k, s, cx).0, cx, l),
    ensures
        held(codegen::g_pairs(ps, k, s, cx).0, l),
        codegen::g_pairs(ps, k, s, cx).1.len() == k,
        ({
            let (t, rs) = codegen::g_pairs(ps, k, s, cx);
            forall|i: int| 0 <= i < rs.len() ==> (#[trigger] rs[i]).0 < t.next && rs[i].1 < t.next
        }),
    decreases ps, k,
{
    reveal(codegen::g_pairs);
    reveal(codegen::g_expr);
    if k > 0 {
        let (s1, rs) = codegen::g_pairs(ps, k - 1, s, cx);
        assert(decreases_to!(ps => ps[k - 1]));
        assert(decreases_to!(ps[k - 1] => ps[k - 1].0));
        assert(decreases_to!(ps[k - 1] => ps[k - 1].1));
        let (s2, a) = codegen::g_expr(ps[k - 1].0, s1, cx);
        let (s3, b) = codegen::g_expr(ps[k - 1].1, s2, cx);
        lemma_grow_expr(ps[k - 1].0, s1, cx);
        lemma_grow_expr(ps[k - 1].1, s2, cx);
        lemma_inside(s2, s3, cx, l);
        lemma_inside(s1, s2, cx, l);
        lemma_hold_pairs(ps, k - 1, s, cx, l);
        lemma_hold_expr(ps[k - 1].0, s1, cx, l);
        lemma_hold_expr(ps[k - 1].1, s2, cx, l);
        let all = rs.push((a, b));
        assert forall|i: int| 0 <= i < all.len() implies (#[trigger] all[i]).0 < s3.next && all[i].1 < s3.next by {
            if i < rs.len() {
                assert(rs[i].0 < s1.next);
            }
        }
    }
}

#[verifier::spinoff_prover]
proof fn lemma_hold_block(b: BlockModel, s: Gen, cx: Cx, l: Limits)
    requires
        held(s, l),
        narrow_block(b),
        inside(codegen::g_block(b, s, cx).0, cx, l),
    ensures
        block_holds(b, s, cx, l),
    decreases b, 0int,
{
    reveal(codegen::g_block);
    reveal(codegen::g_stmts);
    reveal(codegen::g_expr);
    let n = b.stmts.len() as int;
    let s1 = codegen::g_stmts(b.stmts, n, s, cx);
    let t = codegen::g_block(b, s, cx).0;
    lemma_grow_stmts(b.stmts, n, s, cx);
    match b.tail {
        Some(e) => {
            let (s2, r) = codegen::g_expr(e, s1, cx);
            lemma_grow_expr(e, s1, cx);
            assert(inside(s2, cx, l));
            lemma_inside(s1, s2, cx, l);
            lemma_hold_stmts(b.stmts, n, s, cx, l);
            lemma_hold_expr(e, s1, cx, l);
            assert(names_taken(t)) by {
                assert forall|i: int| 0 <= i < t.env.len() implies (#[trigger] t.env[i]).1 < t.next by {
                    assert(t.env[i] == s2.env[i]);
                }
            }
        },
        None => {
            assert(inside(s1, cx, l));
            lemma_hold_stmts(b.stmts, n, s, cx, l);
            assert(names_taken(t)) by {
                assert forall|i: int| 0 <= i < t.env.len() implies (#[trigger] t.env[i]).1 < t.next by {
                    assert(t.env[i] == s1.env[i]);
                }
            }
        },
    }
}

#[verifier::spinoff_prover]
proof fn lemma_hold_stmts(ss: Seq<StmtModel>, k: int, s: Gen, cx: Cx, l: Limits)
    requires
        held(s, l),
        narrow_stmts(ss, k),
        0 <= k <= ss.len(),
        inside(codegen::g_stmts(ss, k, s, cx), cx, l),
    ensures
        held(codegen::g_stmts(ss, k, s, cx), l),
    decreases ss, k,
{
    reveal(codegen::g_stmts);
    reveal(codegen::g_stmt);
    if k > 0 {
        let s1 = codegen::g_stmts(ss, k - 1, s, cx);
        lemma_grow_stmt(ss[k - 1], s1, cx);
        lemma_inside(s1, codegen::g_stmt(ss[k - 1], s1, cx), cx, l);
        lemma_hold_stmts(ss, k - 1, s, cx, l);
        lemma_hold_stmt(ss[k - 1], s1, cx, l);
    }
}

#[verifier::spinoff_prover]
#[verifier::rlimit(60)]
proof fn lemma_hold_stmt(st: StmtModel, s: Gen, cx: Cx, l: Limits)
    requires
        held(s, l),
        narrow_stmt(st),
        inside(codegen::g_stmt(st, s, cx), cx, l),
    ensures
        held(codegen::g_stmt(st, s, cx), l),
    decreases st, 0int,
{
    reveal(codegen::g_stmt);
    reveal(codegen::g_expr);
    reveal(codegen::g_block);
    let t = codegen::g_stmt(st, s, cx);
    match st.kind {
        StmtKindModel::Let { name, ty, mutable, init } => {
            let (s1, r) = codegen::g_expr(init, s, cx);
            assert(inside(s1, cx, l));
            lemma_hold_expr(init, s, cx, l);
        },
        StmtKindModel::Assign(target, v) => {
            let (s1, r) = codegen::g_expr(v, s, cx);
            lemma_grow_expr(v, s, cx);
            match target.kind {
                ExprKindModel::Ident(n) => match codegen::bound_reg(s1.env, n) {
                    Some(d) => {
                        let ins = seq![bytecode::byte_of(Opcode::Move), d, r];
                        assert(t.code =~= s1.code + ins);
                        lemma_after_plus(s1, t, ins);
                        lemma_inside(s1, t, cx, l);
                        lemma_hold_expr(v, s, cx, l);
                        lemma_bound(s1.env, n, s1.next as int);
                        lemma_plain2(Opcode::Move, d, r, l);
                        lemma_hold(s1, t, ins, Opcode::Move, l);
                    },
                    None => {
                        lemma_hold_expr(v, s, cx, l);
                    },
                },
                _ => {
                    lemma_hold_expr(v, s, cx, l);
                },
            }
        },
        StmtKindModel::Expr(e) => {
            lemma_hold_expr(e, s, cx, l);
        },
        StmtKindModel::Return(None) => {
            let ins = seq![bytecode::byte_of(Opcode::ReturnNil)];
            assert(t.code =~= s.code + ins);
            lemma_plain0(l);
            lemma_hold(s, t, ins, Opcode::ReturnNil, l);
        },
        StmtKindModel::Return(Some(e)) => {
            let (s1, r) = codegen::g_expr(e, s, cx);
            let ins = seq![bytecode::byte_of(Opcode::ReturnVal), r];
            assert(t.code =~= s1.code + ins);
            lemma_after_plus(s1, t, ins);
            lemma_inside(s1, t, cx, l);
            lemma_hold_expr(e, s, cx, l);
            lemma_plain1(Opcode::ReturnVal, r, l);
            lemma_hold(s1, t, ins, Opcode::ReturnVal, l);
        },
        StmtKindModel::While(c, body) => {
            let (s1, r) = codegen::g_expr(c, s, cx);
            let s2 = codegen::unless(s1, r, c.span, cx);
            let s3 = codegen::g_block(*body.it, s2, cx).0;
            let n0 = s.code.len() as int;
            let n1 = s1.code.len() as int;
            let w = (n0 - (s3.code.len() + 3)) % 0x1_0000;
            let s4 = s3.op(Opcode::Jmp, st.span, cx).word(w);
            let ins = seq![bytecode::byte_of(Opcode::Jmp), codegen::lo8(w), codegen::hi8(w)];
            assert(s4.code =~= s3.code + ins);
            assert(t == s4.patch(n1 + 2)) by {
                lemma_grow_unless(s1, r, c.span, cx);
            }
            lemma_grow_expr(c, s, cx);
            lemma_grow_unless(s1, r, c.span, cx);
            lemma_grow_block(*body.it, s2, cx);
            lemma_after_plus(s3, s4, ins);
            assert(inside(s4, cx, l));
            lemma_inside(s3, s4, cx, l);
            lemma_inside(s2, s3, cx, l);
            lemma_inside(s1, s2, cx, l);
            lemma_hold_expr(c, s, cx, l);
            lemma_hold_unless(s1, r, c.span, cx, l);
            lemma_hold_block(*body.it, s2, cx, l);
            // back to the start
            lemma_end_starts(s.code, l);
            lemma_after_trans(s, s1, s2);
            lemma_after_trans(s, s2, s3);
            lemma_starts_same(s.code, s3.code, 0, n0, upto(l, s.code));
            assert(w == n0 - (s3.code.len() + 3) + 0x1_0000);
            lemma_emit_jump(s3.code, w, l);
            assert(held(s4, l));
            // and out
            lemma_after_trans(s2, s3, s4);
            lemma_hold_patch(s2.code, s4, n1, 2, l);
        },
        StmtKindModel::If(c, yes, no) => {
            let (s1, r) = codegen::g_expr(c, s, cx);
            let s2 = codegen::unless(s1, r, c.span, cx);
            let s4 = first_arm(c, *yes.it, None, s1, r, cx);
            let other = match no {
                Some(b) => Some(*b.it),
                None => None,
            };
            assert(t == arms(c, *yes.it, other, None, s1, r, cx));
            lemma_grow_expr(c, s, cx);
            lemma_grow_unless(s1, r, c.span, cx);
            lemma_grow_block(*yes.it, s2, cx);
            lemma_grow_first_arm(c, *yes.it, None, s1, r, cx);
            if let Some(b) = no {
                lemma_grow_block(*b.it, s4, cx);
            }
            lemma_grow_arms(c, *yes.it, other, None, s1, r, cx);
            lemma_inside(s1, t, cx, l);
            lemma_inside_arms(c, *yes.it, other, None, s1, r, cx, l);
            lemma_hold_expr(c, s, cx, l);
            lemma_hold_unless(s1, r, c.span, cx, l);
            lemma_hold_block(*yes.it, s2, cx, l);
            lemma_hold_first_arm(c, *yes.it, None, s1, r, cx, l);
            if let Some(b) = no {
                lemma_hold_block(*b.it, s4, cx, l);
            }
            lemma_hold_arms(c, *yes.it, other, None, s1, r, cx, l);
        },
        _ => {},
    }
}

// --- functions and modules ------------------------------------------------------

/// How many registers a function takes.
pub open spec fn registers(f: FnDeclModel, consts: Seq<ConstModel>, fns: Seq<FunctionModel>, cx: Cx) -> u16 {
    codegen::g_block(f.body, codegen::bind_params(f.params, f.params.len() as int, codegen::blank(consts, fns)), cx).0.next
}

/// What a module is compiled by: the places of its functions, and how many there are.
pub open spec fn context(ds: Seq<DeclModel>, src: Seq<u8>) -> Cx {
    let n = ds.len() as int;
    Cx { index: codegen::fn_places(ds, n), src, tops: codegen::fn_count(ds, n) }
}

/// Whether a declaration is no function, or one whose lists are narrow and whose registers
/// can be counted in a byte.
pub open spec fn modest(ds: Seq<DeclModel>, k: int, cx: Cx) -> bool {
    ds[k] matches DeclModel::Fn(f) ==> {
        let (_, consts, fns) = codegen::g_decls(ds, k, cx);
        narrow_block(f.body) && registers(f, consts, fns, cx) <= 255
    }
}

/// Whether what a module compiles to can be addressed: constants and functions by two
/// bytes, the code of each function by its jumps, and the registers of each closure by one
/// byte.
pub open spec fn addressable(ds: Seq<DeclModel>, src: Seq<u8>) -> bool {
    let m = codegen::compiled(ds, src);
    let cx = context(ds, src);
    &&& m.constants.len() <= 0x1_0000
    &&& m.functions.len() <= 0x1_0000
    &&& forall|i: int| 0 <= i < m.functions.len() ==> (#[trigger] m.functions[i]).code.len() <= 0x7FFF
    &&& forall|i: int| cx.tops <= i < m.functions.len() ==> (#[trigger] m.functions[i]).max_register > 0
    &&& forall|k: int| 0 <= k < ds.len() ==> #[trigger] modest(ds, k, cx)
}

pub(crate) proof fn lemma_counts(ds: Seq<DeclModel>, k: int, n: int, cx: Cx)
    requires
        0 <= k <= n,
    ensures
        0 <= codegen::fn_count(ds, k) <= codegen::fn_count(ds, n),
        codegen::g_decls(ds, k, cx).0.len() == codegen::fn_count(ds, k),
        codegen::fn_count(ds, n) <= 0x1_0000 ==> forall|x: Seq<char>|
            codegen::fn_places(ds, k).dom().contains(x) ==> (#[trigger] codegen::fn_places(ds, k)[x])
                < codegen::fn_count(ds, n),
    decreases n,
{
    if k < n {
        lemma_counts(ds, k, n - 1, cx);
    } else if k > 0 {
        lemma_counts(ds, k - 1, n - 1, cx);
        let c = codegen::fn_count(ds, n);
        if c <= 0x1_0000 {
            let a = codegen::fn_places(ds, k - 1);
            let b = codegen::fn_places(ds, k);
            assert forall|x: Seq<char>| b.dom().contains(x) implies (#[trigger] b[x]) < c by {
                match ds[k - 1] {
                    DeclModel::Fn(f) => {
                        if x != f.name {
                            assert(a[x] < codegen::fn_count(ds, n - 1));
                        }
                    },
                    _ => {
                        assert(a[x] < codegen::fn_count(ds, n - 1));
                    },
                }
            }
        }
    }
}

/// What follows a block in a function.
pub(crate) proof fn lemma_grow_return(r: Option<u8>, span: Span, s: Gen, cx: Cx)
    ensures
        after(s, codegen::g_return(r, span, s, cx)),
{
    let t = codegen::g_return(r, span, s, cx);
    let ins = match r {
        Some(v) => seq![bytecode::byte_of(Opcode::ReturnVal), v],
        None => seq![bytecode::byte_of(Opcode::ReturnNil)],
    };
    assert(t.code =~= s.code + ins);
    lemma_after_plus(s, t, ins);
}

pub(crate) proof fn lemma_grow_fn(f: FnDeclModel, consts: Seq<ConstModel>, fns: Seq<FunctionModel>, cx: Cx)
    ensures
        ({
            let (_, c, n) = codegen::g_fn(f, consts, fns, cx);
            kept(consts, c) && fns.len() <= n.len() && forall|i: int|
                0 <= i < fns.len() ==> (#[trigger] n[i]) == fns[i]
        }),
{
    let start = codegen::bind_params(f.params, f.params.len() as int, codegen::blank(consts, fns));
    lemma_grow_params(f.params, f.params.len() as int, codegen::blank(consts, fns));
    lemma_grow_block(f.body, start, cx);
    let (s, r) = codegen::g_block(f.body, start, cx);
    lemma_grow_return(r, codegen::tail_span(f.body), s, cx);
}

pub(crate) proof fn lemma_grow_decls(ds: Seq<DeclModel>, k: int, n: int, cx: Cx)
    requires
        0 <= k <= n <= ds.len(),
    ensures
        ({
            let a = codegen::g_decls(ds, k, cx);
            let b = codegen::g_decls(ds, n, cx);
            &&& a.0.len() <= b.0.len()
            &&& kept(a.1, b.1)
            &&& a.2.len() <= b.2.len()
            &&& forall|i: int| 0 <= i < a.0.len() ==> (#[trigger] b.0[i]) == a.0[i]
            &&& forall|i: int| 0 <= i < a.2.len() ==> (#[trigger] b.2[i]) == a.2[i]
        }),
    decreases n - k,
{
    if k < n {
        lemma_grow_decls(ds, k, n - 1, cx);
        let a = codegen::g_decls(ds, k, cx);
        let m = codegen::g_decls(ds, n - 1, cx);
        let b = codegen::g_decls(ds, n, cx);
        if let DeclModel::Fn(f) = ds[n - 1] {
            lemma_grow_fn(f, m.1, m.2, cx);
        }
        assert forall|i: int| 0 <= i < a.0.len() implies (#[trigger] b.0[i]) == a.0[i] by {
            assert(m.0[i] == a.0[i]);
        }
        assert forall|i: int| 0 <= i < a.2.len() implies (#[trigger] b.2[i]) == a.2[i] by {
            assert(m.2[i] == a.2[i]);
        }
    }
}

#[verifier::spinoff_prover]
proof fn lemma_hold_fn(f: FnDeclModel, consts: Seq<ConstModel>, fns: Seq<FunctionModel>, cx: Cx, l: Limits)
    requires
        narrow_block(f.body),
        registers(f, consts, fns, cx) <= 255,
        forall|i: int| 0 <= i < fns.len() ==> accepted(#[trigger] fns[i], l),
        ({
            let (g, c, n) = codegen::g_fn(f, consts, fns, cx);
            &&& g.code.len() <= 0x7FFF
            &&& c.len() <= l.consts <= 0x1_0000
            &&& l.fns <= 0x1_0000
            &&& 0 <= cx.tops
            &&& cx.tops + n.len() <= l.fns
            &&& roomy(n)
        }),
        forall|n: Seq<char>| cx.index.dom().contains(n) ==> (#[trigger] cx.index[n]) < l.fns,
    ensures
        ({
            let (g, _, n) = codegen::g_fn(f, consts, fns, cx);
            accepted(g, l) && forall|i: int| 0 <= i < n.len() ==> accepted(#[trigger] n[i], l)
        }),
{
    let b = codegen::blank(consts, fns);
    let start = codegen::bind_params(f.params, f.params.len() as int, b);
    lemma_grow_params(f.params, f.params.len() as int, b);
    lemma_grow_block(f.body, start, cx);
    let (s, r) = codegen::g_block(f.body, start, cx);
    let (g, _, n) = codegen::g_fn(f, consts, fns, cx);
    lemma_grow_return(r, codegen::tail_span(f.body), s, cx);
    let m = Limits { regs: g.max_register, ..l };
    assert(inside(s, cx, m));
    assert(names_taken(b));
    lemma_params_taken(f.params, f.params.len() as int, b);
    assert(start.code =~= Seq::empty());
    assert(held(start, m)) by {
        assert forall|i: int| 0 <= i < start.fns.len() implies accepted(#[trigger] start.fns[i], m) by {
            assert(accepted(fns[i], l));
        }
    }
    lemma_hold_block(f.body, start, cx, m);
    match r {
        Some(v) => {
            let ins = seq![bytecode::byte_of(Opcode::ReturnVal), v];
            assert(g.code =~= s.code + ins);
            lemma_plain1(Opcode::ReturnVal, v, m);
            lemma_finish(s.code, ins, Opcode::ReturnVal, g, m);
        },
        None => {
            let ins = seq![bytecode::byte_of(Opcode::ReturnNil)];
            assert(g.code =~= s.code + ins);
            lemma_plain0(m);
            lemma_finish(s.code, ins, Opcode::ReturnNil, g, m);
        },
    }
    assert forall|i: int| 0 <= i < n.len() implies accepted(#[trigger] n[i], l) by {
        assert(accepted(s.fns[i], m));
    }
}

proof fn lemma_hold_decls(ds: Seq<DeclModel>, k: int, src: Seq<u8>, l: Limits)
    requires
        0 <= k <= ds.len(),
        addressable(ds, src),
        l.consts == codegen::compiled(ds, src).constants.len(),
        l.fns == codegen::compiled(ds, src).functions.len(),
    ensures
        ({
            let (tops, _, fns) = codegen::g_decls(ds, k, context(ds, src));
            &&& forall|i: int| 0 <= i < tops.len() ==> accepted(#[trigger] tops[i], l)
            &&& forall|i: int| 0 <= i < fns.len() ==> accepted(#[trigger] fns[i], l)
        }),
    decreases k,
{
    let cx = context(ds, src);
    let m = codegen::compiled(ds, src);
    let n = ds.len() as int;
    if k > 0 {
        lemma_hold_decls(ds, k - 1, src, l);
        let (tops, consts, fns) = codegen::g_decls(ds, k - 1, cx);
        match ds[k - 1] {
            DeclModel::Fn(f) => {
                let (g, c, ns) = codegen::g_fn(f, consts, fns, cx);
                let all = codegen::g_decls(ds, n, cx);
                lemma_grow_decls(ds, k, n, cx);
                lemma_counts(ds, n, n, cx);
                assert(m.functions == all.0 + all.2);
                assert(modest(ds, k - 1, cx));
                assert(g.code.len() <= 0x7FFF) by {
                    assert(codegen::g_decls(ds, k, cx).0[tops.len() as int] == g);
                    assert(all.0[tops.len() as int] == g);
                    assert(m.functions[tops.len() as int] == g);
                }
                assert(roomy(ns)) by {
                    assert forall|i: int| 0 <= i < ns.len() implies (#[trigger] ns[i]).max_register > 0
                        && ns[i].code.len() <= 0x7FFF by {
                        assert(all.2[i] == ns[i]);
                        assert(m.functions[all.0.len() + i] == ns[i]);
                    }
                }
                lemma_hold_fn(f, consts, fns, cx, l);
            },
            _ => {},
        }
    }
}

/// What compiles is accepted: the verifier finds nothing wrong with the code of a module,
/// as long as it can be addressed.
pub proof fn law_compiled_code_is_verified(ds: Seq<DeclModel>, src: Seq<u8>)
    requires
        addressable(ds, src),
    ensures
        verify::verified(codegen::compiled(ds, src)),
{
    let m = codegen::compiled(ds, src);
    let n = ds.len() as int;
    let l = Limits { regs: 0, consts: m.constants.len(), fns: m.functions.len(), end: 0 };
    lemma_hold_decls(ds, n, src, l);
    let (tops, _, fns) = codegen::g_decls(ds, n, context(ds, src));
    assert forall|i: int| 0 <= i < m.functions.len() implies verify::function_fault(
        #[trigger] m.functions[i],
        m,
    ) is None by {
        let f = m.functions[i];
        if i < tops.len() {
            assert(f == tops[i]);
        } else {
            assert(f == fns[i - tops.len()]);
        }
        assert(accepted(f, l));
        assert(verify::limits(f, m) == (Limits { regs: f.max_register, end: f.code.len() as int, ..l }));
    }
}

/// What compiles never holds a trap where an instruction starts: only the debugger puts one
/// there.
pub proof fn law_compiled_code_never_traps(ds: Seq<DeclModel>, src: Seq<u8>, i: int, pc: int)
    requires
        addressable(ds, src),
        0 <= i < codegen::compiled(ds, src).functions.len(),
        0 <= pc < codegen::compiled(ds, src).functions[i].code.len(),
        verify::starts(codegen::compiled(ds, src).functions[i].code, 0, pc),
    ensures
        codegen::compiled(ds, src).functions[i].code[pc] != bytecode::byte_of(Opcode::Trap),
        bytecode::op_of(codegen::compiled(ds, src).functions[i].code[pc]) is Some,
{
    let m = codegen::compiled(ds, src);
    law_compiled_code_is_verified(ds, src);
    verify::law_accepted_instructions(m.functions[i], m, pc);
    bytecode::law_opcode_bytes(Opcode::Trap, 0xFF);
}

} // verus!
