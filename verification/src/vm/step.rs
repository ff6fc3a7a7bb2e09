//! What one instruction does.

use crate::bytecode;
use crate::bytecode::{ConstModel, ModuleModel, Opcode};
use crate::ffi;
use crate::ffi::BindingModel;
use crate::float;
use crate::gc::heap::HeapModel;
use crate::gc::object;
use crate::gc::object::{GcHandle, ObjModel};
use crate::text;
use crate::verify;
use crate::vm::frame;
use crate::vm::frame::FrameModel;
use crate::vm::value;
use crate::vm::value::ValueModel;
use crate::vm::words;
use vstd::prelude::*;

verus! {

/// Why an instruction cannot be carried out.
pub enum Trouble {
    /// An operand or a place that the code does not have. Verified code does not get here.
    Malformed,
    /// More values for a callee than it has registers.
    TooManyArguments,
    /// No room for another object.
    HeapFull,
    /// Anything else, in words.
    Other(Seq<char>),
}

/// A trouble in words.
pub open spec fn trouble_text(t: Trouble) -> Seq<char> {
    match t {
        Trouble::Malformed => "malformed bytecode"@,
        Trouble::TooManyArguments => "too many arguments for the callee's registers"@,
        Trouble::HeapFull => "heap is full"@,
        Trouble::Other(s) => s,
    }
}

/// Why a run stops.
pub enum StopModel {
    Returned(ValueModel),
    Trapped(u16, int),
    Error(Trouble),
    Ffi(u16, Seq<ValueModel>, u8),
    OutOfSteps,
}

/// A register.
pub open spec fn rd(regs: Seq<ValueModel>, r: u8) -> Result<ValueModel, Trouble> {
    if r < regs.len() {
        Ok(regs[r as int])
    } else {
        Err(Trouble::Malformed)
    }
}

/// The registers that the `n` bytes at `p` list.
pub open spec fn gather(regs: Seq<ValueModel>, code: Seq<u8>, p: int, n: int) -> Result<Seq<ValueModel>, Trouble> {
    if forall|i: int| p <= i < p + n ==> (#[trigger] code[i]) < regs.len() {
        Ok(Seq::new(n as nat, |i: int| regs[code[p + i] as int]))
    } else {
        Err(Trouble::Malformed)
    }
}

/// A constant.
pub open spec fn pool(consts: Seq<ConstModel>, idx: u16) -> Result<ConstModel, Trouble> {
    if idx < consts.len() {
        Ok(consts[idx as int])
    } else {
        Err(Trouble::Malformed)
    }
}

/// A constant of the kind that the opcode asks for.
pub open spec fn loaded(op: Opcode, c: ConstModel) -> Result<ValueModel, Trouble> {
    match (op, c) {
        (Opcode::ConstInt, ConstModel::Int(v)) => Ok(ValueModel::Int(v)),
        (Opcode::ConstFloat, ConstModel::Float(b)) => Ok(ValueModel::Float(b)),
        (Opcode::ConstStr, ConstModel::Str(s)) => Ok(ValueModel::Str(s)),
        _ => Err(Trouble::Other("const pool mismatch: "@ + words::const_text(c))),
    }
}

/// Arithmetic on integers: it wraps around, and division by zero is an error, as is the
/// one quotient that does not fit.
pub open spec fn int_arith(op: Opcode, a: i64, b: i64) -> Result<ValueModel, Trouble> {
    match op {
        Opcode::Add => Ok(ValueModel::Int(a.wrapping_add(b))),
        Opcode::Sub => Ok(ValueModel::Int(a.wrapping_sub(b))),
        Opcode::Mul => Ok(ValueModel::Int(a.wrapping_mul(b))),
        Opcode::Div => match a.checked_div(b) {
            Some(v) => Ok(ValueModel::Int(v)),
            None => Err(Trouble::Other("integer division by zero"@)),
        },
        _ => match a.checked_rem(b) {
            Some(v) => Ok(ValueModel::Int(v)),
            None => Err(Trouble::Other("integer modulo by zero"@)),
        },
    }
}

/// Arithmetic on floats.
pub open spec fn float_arith(op: Opcode, a: u64, b: u64) -> u64 {
    match op {
        Opcode::Add => float::sum(a, b),
        Opcode::Sub => float::sum(a, float::negated(b)),
        Opcode::Mul => float::product(a, b),
        Opcode::Div => float::quotient(a, b),
        _ => float::remainder(a, b),
    }
}

/// Arithmetic.
pub open spec fn arith(op: Opcode, a: ValueModel, b: ValueModel) -> Result<ValueModel, Trouble> {
    match (a, b) {
        (ValueModel::Int(x), ValueModel::Int(y)) => int_arith(op, x, y),
        (ValueModel::Float(x), ValueModel::Float(y)) => Ok(ValueModel::Float(float_arith(op, x, y))),
        _ => Err(
            Trouble::Other(
                "arithmetic on incompatible values: "@ + value::value_text(a) + " "@ + words::arith_name(op) + " "@
                    + value::value_text(b),
            ),
        ),
    }
}

/// Whether an ordering holds, given which of the three ways two numbers lie.
pub open spec fn holds(op: Opcode, less: bool, same: bool, greater: bool) -> bool {
    match op {
        Opcode::Lt => less,
        Opcode::Le => less || same,
        Opcode::Gt => greater,
        _ => greater || same,
    }
}

/// Whether an ordering holds between two floats.
pub open spec fn floats_compared(op: Opcode, x: u64, y: u64) -> bool {
    holds(op, float::less(x, y), float::same(x, y), float::less(y, x))
}

/// A comparison. Integers are ordered as the floats nearest to them; values that have no
/// order compare as false.
pub open spec fn compared(op: Opcode, a: ValueModel, b: ValueModel) -> bool {
    match op {
        Opcode::Eq => a == b,
        Opcode::Ne => a != b,
        _ => match (a, b) {
            (ValueModel::Int(x), ValueModel::Int(y)) => floats_compared(
                op,
                float::of_int(x as int),
                float::of_int(y as int),
            ),
            (ValueModel::Float(x), ValueModel::Float(y)) => floats_compared(op, x, y),
            _ => false,
        },
    }
}

/// Negation.
pub open spec fn negated(v: ValueModel) -> Result<ValueModel, Trouble> {
    match v {
        ValueModel::Int(x) => Ok(ValueModel::Int(0i64.wrapping_sub(x))),
        ValueModel::Float(x) => Ok(ValueModel::Float(float::negated(x))),
        _ => Err(Trouble::Other(words::about("neg on non-numeric: "@, v))),
    }
}

/// Logical negation.
pub open spec fn inverted(v: ValueModel) -> Result<ValueModel, Trouble> {
    match v {
        ValueModel::Bool(b) => Ok(ValueModel::Bool(!b)),
        _ => Err(Trouble::Other(words::about("not on non-bool: "@, v))),
    }
}

/// Logical connectives.
pub open spec fn connected(op: Opcode, a: ValueModel, b: ValueModel) -> Result<ValueModel, Trouble> {
    match (a, b) {
        (ValueModel::Bool(x), ValueModel::Bool(y)) => Ok(
            ValueModel::Bool(
                if op == Opcode::And {
                    x && y
                } else {
                    x || y
                },
            ),
        ),
        _ => Err(
            Trouble::Other("logical on non-bool: "@ + value::value_text(a) + " / "@ + value::value_text(b)),
        ),
    }
}

/// The element of an array.
pub open spec fn element(heap: HeapModel, arr: ValueModel, idx: ValueModel) -> Result<ValueModel, Trouble> {
    match arr {
        ValueModel::Array(h) => match idx {
            ValueModel::Int(i) => match heap.at(h) {
                Some(ObjModel::Array(vs)) => if i < 0 || i >= vs.len() {
                    Err(Trouble::Other(out_of_bounds(i, vs.len())))
                } else {
                    Ok(vs[i as int])
                },
                Some(o) => Err(
                    Trouble::Other("ArrayGet handle resolved to non-array: "@ + words::object_text(o)),
                ),
                None => Err(Trouble::Other("ArrayGet on dead handle"@)),
            },
            _ => Err(Trouble::Other(words::about("ArrayGet index not Int: "@, idx))),
        },
        _ => Err(Trouble::Other(words::about("ArrayGet on non-array: "@, arr))),
    }
}

/// An index that is not in an array, in words.
pub open spec fn out_of_bounds(i: i64, n: nat) -> Seq<char> {
    "array index out of bounds: "@ + text::dec_int(i as int) + " (len "@ + text::dec(n) + ")"@
}

/// The length of an array.
pub open spec fn length(heap: HeapModel, arr: ValueModel) -> Result<ValueModel, Trouble> {
    match arr {
        ValueModel::Array(h) => match heap.at(h) {
            Some(ObjModel::Array(vs)) => Ok(ValueModel::Int(vs.len() as i64)),
            _ => Err(Trouble::Other("ArrayLen on dead/non-array handle"@)),
        },
        _ => Err(Trouble::Other(words::about("ArrayLen on non-array: "@, arr))),
    }
}

/// The place of a name among named values, from `i` on.
pub open spec fn entry_from(es: Seq<(Seq<char>, ValueModel)>, name: Seq<char>, i: int) -> Option<int>
    decreases es.len() - i,
{
    if i < 0 || i >= es.len() {
        None
    } else if es[i].0 == name {
        Some(i)
    } else {
        entry_from(es, name, i + 1)
    }
}

/// The value under a name; nil where there is none.
pub open spec fn entry(es: Seq<(Seq<char>, ValueModel)>, name: Seq<char>) -> ValueModel {
    match entry_from(es, name, 0) {
        Some(i) => es[i].1,
        None => ValueModel::Nil,
    }
}

/// Named values with a value under a name.
pub open spec fn with_entry(es: Seq<(Seq<char>, ValueModel)>, name: Seq<char>, v: ValueModel) -> Seq<
    (Seq<char>, ValueModel),
> {
    match entry_from(es, name, 0) {
        Some(i) => es.update(i, (es[i].0, v)),
        None => es.push((name, v)),
    }
}

/// The value under a key of a map.
pub open spec fn looked_up(heap: HeapModel, map: ValueModel, key: ValueModel) -> Result<ValueModel, Trouble> {
    match map {
        ValueModel::Dict(h) => match key {
            ValueModel::Str(s) => match heap.at(h) {
                Some(ObjModel::Dict(es)) => Ok(entry(es, s)),
                _ => Err(Trouble::Other("MapGet on dead/non-map handle"@)),
            },
            _ => Err(Trouble::Other(words::about("MapGet key not Str: "@, key))),
        },
        _ => Err(Trouble::Other(words::about("MapGet on non-map: "@, map))),
    }
}

/// The field of a struct.
pub open spec fn field(heap: HeapModel, c: ConstModel, strct: ValueModel) -> Result<ValueModel, Trouble> {
    match c {
        ConstModel::Str(name) => match strct {
            ValueModel::Struct(h) => match heap.at(h) {
                Some(ObjModel::Struct(es)) => Ok(entry(es, name)),
                _ => Err(Trouble::Other("StructGet on dead/non-struct handle"@)),
            },
            _ => Err(Trouble::Other(words::about("StructGet on non-struct: "@, strct))),
        },
        _ => Err(Trouble::Other("StructGet name const not Str: "@ + words::const_text(c))),
    }
}

/// One register in, one value out.
pub open spec fn unary(op: Opcode, heap: HeapModel, a: ValueModel) -> Result<ValueModel, Trouble> {
    match op {
        Opcode::Move => Ok(a),
        Opcode::Neg => negated(a),
        Opcode::Not => inverted(a),
        _ => length(heap, a),
    }
}

/// Two registers in, one value out.
pub open spec fn binary(op: Opcode, heap: HeapModel, a: ValueModel, b: ValueModel) -> Result<ValueModel, Trouble> {
    match op {
        Opcode::Add | Opcode::Sub | Opcode::Mul | Opcode::Div | Opcode::Mod => arith(op, a, b),
        Opcode::And | Opcode::Or => connected(op, a, b),
        Opcode::ArrayGet => element(heap, a, b),
        Opcode::MapGet => looked_up(heap, a, b),
        _ => Ok(ValueModel::Bool(compared(op, a, b))),
    }
}

/// The value that an instruction computes for its first register.
#[verifier::opaque]
pub open spec fn value_of(
    op: Opcode,
    code: Seq<u8>,
    pc: int,
    regs: Seq<ValueModel>,
    consts: Seq<ConstModel>,
    heap: HeapModel,
) -> Result<ValueModel, Trouble> {
    match op {
        Opcode::ConstNil => Ok(ValueModel::Nil),
        Opcode::ConstTrue => Ok(ValueModel::Bool(true)),
        Opcode::ConstFalse => Ok(ValueModel::Bool(false)),
        Opcode::ConstInt | Opcode::ConstFloat | Opcode::ConstStr => match pool(consts, verify::word(code, pc + 2)) {
            Ok(c) => loaded(op, c),
            Err(e) => Err(e),
        },
        Opcode::Move | Opcode::Neg | Opcode::Not | Opcode::ArrayLen => match rd(regs, code[pc + 2]) {
            Ok(a) => unary(op, heap, a),
            Err(e) => Err(e),
        },
        Opcode::StructGet => match pool(consts, verify::word(code, pc + 3)) {
            Ok(c) => match rd(regs, code[pc + 2]) {
                Ok(a) => field(heap, c, a),
                Err(e) => Err(e),
            },
            Err(e) => Err(e),
        },
        _ => match rd(regs, code[pc + 2]) {
            Ok(a) => match rd(regs, code[pc + 3]) {
                Ok(b) => binary(op, heap, a, b),
                Err(e) => Err(e),
            },
            Err(e) => Err(e),
        },
    }
}

/// The object that an instruction makes.
#[verifier::opaque]
pub open spec fn object_of(op: Opcode, code: Seq<u8>, pc: int, regs: Seq<ValueModel>) -> Result<ObjModel, Trouble> {
    match op {
        Opcode::ArrayNew => match gather(regs, code, pc + 3, code[pc + 2] as int) {
            Ok(vs) => Ok(ObjModel::Array(vs)),
            Err(e) => Err(e),
        },
        Opcode::ClosureMake => match gather(regs, code, pc + 5, code[pc + 4] as int) {
            Ok(vs) => Ok(ObjModel::Closure(verify::word(code, pc + 2), vs)),
            Err(e) => Err(e),
        },
        Opcode::MapNew => Ok(ObjModel::Dict(Seq::empty())),
        _ => Ok(ObjModel::Struct(Seq::empty())),
    }
}

/// The value that stands for a new object.
pub open spec fn value_for(op: Opcode, h: GcHandle) -> ValueModel {
    match op {
        Opcode::ArrayNew => ValueModel::Array(h),
        Opcode::ClosureMake => ValueModel::Closure(h),
        Opcode::MapNew => ValueModel::Dict(h),
        _ => ValueModel::Struct(h),
    }
}

/// The heap once `v` has been stored in the object behind `h`, which then is `o`.
pub open spec fn stored(heap: HeapModel, h: GcHandle, o: ObjModel, v: ValueModel) -> HeapModel {
    match value::handle_of(v) {
        Some(t) => heap.replaced(h, o).noted(h, t),
        None => heap.replaced(h, o),
    }
}

/// A store into an array.
pub open spec fn array_stored(heap: HeapModel, arr: ValueModel, idx: ValueModel, v: ValueModel) -> Result<HeapModel, Trouble> {
    match arr {
        ValueModel::Array(h) => match idx {
            ValueModel::Int(i) => match heap.at(h) {
                Some(ObjModel::Array(vs)) => if i < 0 || i >= vs.len() {
                    Err(Trouble::Other(out_of_bounds(i, vs.len())))
                } else {
                    Ok(stored(heap, h, ObjModel::Array(vs.update(i as int, v)), v))
                },
                Some(o) => Err(
                    Trouble::Other("ArraySet handle resolved to non-array: "@ + words::object_text(o)),
                ),
                None => Err(Trouble::Other("ArraySet on dead handle"@)),
            },
            _ => Err(Trouble::Other(words::about("ArraySet index not Int: "@, idx))),
        },
        _ => Err(Trouble::Other(words::about("ArraySet on non-array: "@, arr))),
    }
}

/// A store into a map.
pub open spec fn map_stored(heap: HeapModel, map: ValueModel, key: ValueModel, v: ValueModel) -> Result<HeapModel, Trouble> {
    match map {
        ValueModel::Dict(h) => match key {
            ValueModel::Str(s) => match heap.at(h) {
                Some(ObjModel::Dict(es)) => Ok(stored(heap, h, ObjModel::Dict(with_entry(es, s, v)), v)),
                _ => Err(Trouble::Other("MapSet on dead/non-map handle"@)),
            },
            _ => Err(Trouble::Other(words::about("MapSet key not Str: "@, key))),
        },
        _ => Err(Trouble::Other(words::about("MapSet on non-map: "@, map))),
    }
}

/// A store into a struct.
pub open spec fn struct_stored(heap: HeapModel, c: ConstModel, strct: ValueModel, v: ValueModel) -> Result<
    HeapModel,
    Trouble,
> {
    match c {
        ConstModel::Str(name) => match strct {
            ValueModel::Struct(h) => match heap.at(h) {
                Some(ObjModel::Struct(es)) => Ok(stored(heap, h, ObjModel::Struct(with_entry(es, name, v)), v)),
                _ => Err(Trouble::Other("StructSet on dead/non-struct handle"@)),
            },
            _ => Err(Trouble::Other(words::about("StructSet on non-struct: "@, strct))),
        },
        _ => Err(Trouble::Other("StructSet name const not Str: "@ + words::const_text(c))),
    }
}

/// The heap after a store.
#[verifier::opaque]
pub open spec fn heap_after(
    op: Opcode,
    code: Seq<u8>,
    pc: int,
    regs: Seq<ValueModel>,
    consts: Seq<ConstModel>,
    heap: HeapModel,
) -> Result<HeapModel, Trouble> {
    if op == Opcode::StructSet {
        match pool(consts, verify::word(code, pc + 2)) {
            Ok(c) => match rd(regs, code[pc + 1]) {
                Ok(s) => match rd(regs, code[pc + 4]) {
                    Ok(v) => struct_stored(heap, c, s, v),
                    Err(e) => Err(e),
                },
                Err(e) => Err(e),
            },
            Err(e) => Err(e),
        }
    } else {
        match rd(regs, code[pc + 1]) {
            Ok(a) => match rd(regs, code[pc + 2]) {
                Ok(b) => match rd(regs, code[pc + 3]) {
                    Ok(v) => if op == Opcode::ArraySet {
                        array_stored(heap, a, b, v)
                    } else {
                        map_stored(heap, a, b, v)
                    },
                    Err(e) => Err(e),
                },
                Err(e) => Err(e),
            },
            Err(e) => Err(e),
        }
    }
}

/// What an instruction does to the frame that runs it.
#[verifier::ext_equal]
pub enum Effect {
    /// The frame goes on.
    Go(FrameModel, HeapModel),
    /// The frame waits for another.
    Enter(FrameModel, FrameModel),
    /// The frame is done, with a value.
    Leave(ValueModel),
    /// The run stops.
    Halt(StopModel, FrameModel),
}

/// An error, with the frame as it is.
pub open spec fn fail(t: Trouble, f: FrameModel) -> Effect {
    Effect::Halt(StopModel::Error(t), f)
}

/// A value goes to a register, and the frame goes on.
pub open spec fn settle(f: FrameModel, dst: u8, v: ValueModel, next: int, heap: HeapModel) -> Effect {
    if dst < f.regs.len() {
        Effect::Go(f.with(dst as int, v).to(next), heap)
    } else {
        fail(Trouble::Malformed, f)
    }
}

/// A jump. One before the start of the code is one past its end.
pub open spec fn jumped(f: FrameModel, target: int, heap: HeapModel) -> Effect {
    if -0x1_0000 <= target < 0 {
        Effect::Go(f.to(target + usize::MAX + 1), heap)
    } else if 0 <= target <= usize::MAX {
        Effect::Go(f.to(target), heap)
    } else {
        fail(Trouble::Malformed, f)
    }
}

/// A conditional jump: taken where the register holds `on`.
pub open spec fn branched(f: FrameModel, code: Seq<u8>, on: bool, heap: HeapModel) -> Effect {
    match rd(f.regs, code[f.pc + 1]) {
        Ok(v) => if v == ValueModel::Bool(on) {
            jumped(f, f.pc + 4 + verify::offset(code, f.pc + 2), heap)
        } else {
            Effect::Go(f.to(f.pc + 4), heap)
        },
        Err(e) => fail(e, f),
    }
}

/// A new frame for a function, with values in its first registers.
pub open spec fn entered(m: ModuleModel, f: FrameModel, id: u16, args: Seq<ValueModel>, dst: u8) -> Effect {
    if args.len() > m.functions[id as int].max_register {
        fail(Trouble::TooManyArguments, f)
    } else {
        Effect::Enter(f, frame::entry_frame(id, m.functions[id as int].max_register as int, args, Some(dst)))
    }
}

/// A call of a function of the module.
#[verifier::opaque]
pub open spec fn called(m: ModuleModel, f: FrameModel, code: Seq<u8>) -> Effect {
    let id = verify::word(code, f.pc + 2);
    let n = code[f.pc + 4] as int;
    match gather(f.regs, code, f.pc + 5, n) {
        Err(e) => fail(e, f),
        Ok(args) => {
            let g = f.to(f.pc + 5 + n);
            if id >= m.functions.len() {
                fail(Trouble::Other("unknown function id "@ + text::dec(id as nat)), g)
            } else {
                entered(m, g, id, args, code[f.pc + 1])
            }
        },
    }
}

/// A call of a closure: what it captured comes first, then the arguments.
#[verifier::opaque]
pub open spec fn closure_called(m: ModuleModel, f: FrameModel, code: Seq<u8>, heap: HeapModel) -> Effect {
    let n = code[f.pc + 3] as int;
    match rd(f.regs, code[f.pc + 2]) {
        Err(e) => fail(e, f),
        Ok(ValueModel::Closure(h)) => match gather(f.regs, code, f.pc + 4, n) {
            Err(e) => fail(e, f),
            Ok(args) => {
                let g = f.to(f.pc + 4 + n);
                match heap.at(h) {
                    Some(ObjModel::Closure(id, ups)) => if id >= m.functions.len() {
                        fail(Trouble::Other("closure refers to unknown function id "@ + text::dec(id as nat)), g)
                    } else {
                        entered(m, g, id, ups + args, code[f.pc + 1])
                    },
                    _ => fail(Trouble::Other("CallClosure on dead/non-closure handle"@), g),
                }
            },
        },
        Ok(v) => fail(Trouble::Other(words::about("CallClosure on non-closure: "@, v)), f),
    }
}

/// A call of a host function: the run stops, and goes on once the host has the result.
#[verifier::opaque]
pub open spec fn host_called<F>(table: Seq<BindingModel<F>>, f: FrameModel, code: Seq<u8>) -> Effect {
    let id = verify::word(code, f.pc + 2);
    let n = code[f.pc + 4] as int;
    match gather(f.regs, code, f.pc + 5, n) {
        Err(e) => fail(e, f),
        Ok(args) => {
            let g = f.to(f.pc + 5 + n);
            match ffi::refusal(table, id, n) {
                Some(e) => fail(Trouble::Other("ffi error: "@ + e), g),
                None => Effect::Halt(StopModel::Ffi(id, args, code[f.pc + 1]), g),
            }
        },
    }
}

/// A new object goes to a register, and the frame goes on.
pub open spec fn made(op: Opcode, f: FrameModel, code: Seq<u8>, next: int, heap: HeapModel) -> Effect {
    match object_of(op, code, f.pc, f.regs) {
        Err(e) => fail(e, f),
        Ok(o) => if code[f.pc + 1] >= f.regs.len() {
            fail(Trouble::Malformed, f)
        } else if !heap.young.has_room() {
            fail(Trouble::HeapFull, f)
        } else {
            settle(f, code[f.pc + 1], value_for(op, heap.next()), next, heap.with(o))
        },
    }
}

/// What the instruction `op`, which is whole, does.
pub open spec fn effect<F>(
    op: Opcode,
    m: ModuleModel,
    table: Seq<BindingModel<F>>,
    f: FrameModel,
    code: Seq<u8>,
    heap: HeapModel,
) -> Effect {
    let next = f.pc + bytecode::len_of(op, code, f.pc);
    match op {
        Opcode::Trap => Effect::Halt(StopModel::Trapped(f.function_id, f.pc), f),
        Opcode::Nop => Effect::Go(f.to(next), heap),
        Opcode::Jmp => jumped(f, f.pc + 3 + verify::offset(code, f.pc + 1), heap),
        Opcode::JmpIfFalse => branched(f, code, false, heap),
        Opcode::JmpIfTrue => branched(f, code, true, heap),
        Opcode::Call => called(m, f, code),
        Opcode::CallClosure => closure_called(m, f, code, heap),
        Opcode::FfiCall => host_called(table, f, code),
        Opcode::ReturnNil => Effect::Leave(ValueModel::Nil),
        Opcode::ReturnVal => match rd(f.regs, code[f.pc + 1]) {
            Ok(v) => Effect::Leave(v),
            Err(e) => fail(e, f),
        },
        Opcode::ArrayNew | Opcode::MapNew | Opcode::StructNew | Opcode::ClosureMake => made(op, f, code, next, heap),
        Opcode::ArraySet | Opcode::MapSet | Opcode::StructSet => match heap_after(
            op,
            code,
            f.pc,
            f.regs,
            m.constants,
            heap,
        ) {
            Ok(h) => Effect::Go(f.to(next), h),
            Err(e) => fail(e, f),
        },
        _ => match value_of(op, code, f.pc, f.regs, m.constants, heap) {
            Ok(v) => settle(f, code[f.pc + 1], v, next, heap),
            Err(e) => fail(e, f),
        },
    }
}

/// The stack and the heap.
#[verifier::ext_equal]
pub struct MachineModel {
    pub frames: Seq<FrameModel>,
    pub heap: HeapModel,
}

/// A machine, and why it stopped, if it did.
pub type Outcome = (MachineModel, Option<StopModel>);

/// The machine stops with its stack as given.
pub open spec fn halted(frames: Seq<FrameModel>, heap: HeapModel, s: StopModel) -> Outcome {
    (MachineModel { frames, heap }, Some(s))
}

/// A result goes to the frame on top of `rest`.
pub open spec fn given(rest: Seq<FrameModel>, dst: u8, v: ValueModel, heap: HeapModel) -> Outcome {
    let caller = rest.last();
    if dst < caller.regs.len() {
        (MachineModel { frames: rest.drop_last().push(caller.with(dst as int, v)), heap }, None)
    } else {
        halted(rest, heap, StopModel::Error(Trouble::Malformed))
    }
}

/// A frame above `rest` is done.
pub open spec fn left(rest: Seq<FrameModel>, ret: Option<u8>, v: ValueModel, heap: HeapModel) -> Outcome {
    if rest.len() == 0 {
        halted(rest, heap, StopModel::Returned(v))
    } else {
        match ret {
            Some(dst) => given(rest, dst, v, heap),
            None => (MachineModel { frames: rest, heap }, None),
        }
    }
}

/// A frame above `rest` has run off the end of its code: it returns nil.
pub open spec fn ended(rest: Seq<FrameModel>, ret: Option<u8>, heap: HeapModel) -> Outcome {
    match ret {
        Some(dst) => left(rest, ret, ValueModel::Nil, heap),
        None => halted(rest, heap, StopModel::Returned(ValueModel::Nil)),
    }
}

/// An effect on the stack.
pub open spec fn applied(e: Effect, rest: Seq<FrameModel>, ret: Option<u8>, heap: HeapModel) -> Outcome {
    match e {
        Effect::Go(f, h) => (MachineModel { frames: rest.push(f), heap: h }, None),
        Effect::Enter(f, g) => (MachineModel { frames: rest.push(f).push(g), heap }, None),
        Effect::Leave(v) => left(rest, ret, v, heap),
        Effect::Halt(s, f) => halted(rest.push(f), heap, s),
    }
}

/// One step of the frame `f` above `rest`.
pub open spec fn frame_step<F>(
    m: ModuleModel,
    table: Seq<BindingModel<F>>,
    rest: Seq<FrameModel>,
    f: FrameModel,
    heap: HeapModel,
) -> Outcome {
    if f.function_id >= m.functions.len() {
        halted(rest.push(f), heap, StopModel::Error(Trouble::Malformed))
    } else {
        let code = m.functions[f.function_id as int].code;
        if f.pc >= code.len() {
            ended(rest, f.ret, heap)
        } else {
            match bytecode::op_of(code[f.pc]) {
                None => halted(
                    rest.push(f),
                    heap,
                    StopModel::Error(Trouble::Other("unknown opcode 0x"@ + text::hex2(code[f.pc] as nat))),
                ),
                Some(op) => if f.pc + bytecode::len_of(op, code, f.pc) > code.len() {
                    halted(rest.push(f), heap, StopModel::Error(Trouble::Malformed))
                } else {
                    applied(effect(op, m, table, f, code, heap), rest, f.ret, heap)
                },
            }
        }
    }
}

/// One step of a machine.
pub open spec fn step<F>(m: ModuleModel, table: Seq<BindingModel<F>>, s: MachineModel) -> Outcome {
    if s.frames.len() == 0 {
        halted(s.frames, s.heap, StopModel::Error(Trouble::Malformed))
    } else {
        frame_step(m, table, s.frames.drop_last(), s.frames.last(), s.heap)
    }
}

/// Where a machine is when it stops, and why, within `n` steps.
pub open spec fn ran<F>(m: ModuleModel, table: Seq<BindingModel<F>>, s: MachineModel, n: nat) -> (
    MachineModel,
    StopModel,
)
    decreases n,
{
    if n == 0 {
        (s, StopModel::OutOfSteps)
    } else {
        match step(m, table, s) {
            (t, Some(stop)) => (t, stop),
            (t, None) => ran(m, table, t, (n - 1) as nat),
        }
    }
}

} // verus!
