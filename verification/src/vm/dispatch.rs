//! The dispatch loop.

use crate::bytecode;
use crate::bytecode::{Const, ConstModel, Module, Opcode};
use crate::bignat::Order;
use crate::ffi;
use crate::ffi::CallTable;
use crate::float;
use crate::gc::heap::{Heap, HeapModel};
use crate::gc::object;
use crate::gc::object::{GcHandle, Obj, ObjModel};
use crate::gc::store;
use crate::text;
use crate::text::{push_dec, push_dec_int, push_hex2};
use crate::verify;
use crate::verify::{offset_at, word_at};
use crate::views;
use crate::vm::frame;
use crate::vm::frame::{CallFrame, FrameModel};
use crate::vm::step;
use crate::vm::step::{Effect, MachineModel, Outcome, StopModel, Trouble};
use crate::vm::value;
use crate::vm::value::{describe, Value, ValueModel};
use crate::vm::words;
use crate::vm::words::{arith_str, complain, push_const, push_object};
use vstd::prelude::*;

verus! {

/// Why a run stopped.
#[derive(Debug, PartialEq, Eq)]
pub enum StopReason {
    /// The outermost frame returned this value.
    Returned(Value),
    /// The debugger's mark was reached.
    Trapped {
        /// The function, by its place in the module.
        function_id: u16,
        /// Where in its code.
        pc: usize,
    },
    /// Something that the verifier cannot rule out went wrong.
    Error(String),
    /// The host is to run a function, and to go on with its result.
    Ffi {
        /// The host function, by its index in the call table.
        index: u16,
        /// The arguments.
        args: Vec<Value>,
        /// The register that gets the result.
        dst: u8,
    },
}

/// Whether a stop is the one of the model.
pub open spec fn stop_agrees(r: StopReason, s: StopModel) -> bool {
    match (r, s) {
        (StopReason::Returned(v), StopModel::Returned(m)) => v@ == m,
        (StopReason::Trapped { function_id, pc }, StopModel::Trapped(f, p)) => function_id == f && pc == p,
        (StopReason::Error(e), StopModel::Error(t)) => e@ == step::trouble_text(t),
        (StopReason::Error(e), StopModel::OutOfSteps) => e@ == "step limit reached"@,
        (StopReason::Ffi { index, args, dst }, StopModel::Ffi(i, a, d)) => index == i && views::views(args@) == a && dst
            == d,
        _ => false,
    }
}

/// Whether a value, or an error in words, is the one of the model.
pub open spec fn agrees(r: Result<Value, String>, s: Result<ValueModel, Trouble>) -> bool {
    match (r, s) {
        (Ok(v), Ok(m)) => v@ == m,
        (Err(e), Err(t)) => e@ == step::trouble_text(t),
        _ => false,
    }
}

fn malformed() -> (r: String)
    ensures
        r@ == step::trouble_text(Trouble::Malformed),
{
    "malformed bytecode".to_owned()
}

fn rd(f: &CallFrame, r: u8) -> (v: Option<&Value>)
    ensures
        match v {
            Some(x) => step::rd(f@.regs, r) == Ok::<ValueModel, Trouble>(x@),
            None => step::rd(f@.regs, r) == Err::<ValueModel, Trouble>(Trouble::Malformed),
        },
{
    if (r as usize) < f.registers.len() {
        assert(f@.regs[r as int] == f.registers@[r as int]@);
        Some(&f.registers[r as usize])
    } else {
        None
    }
}

fn gather(f: &CallFrame, code: &Vec<u8>, p: usize, n: usize) -> (r: Option<Vec<Value>>)
    requires
        p + n <= code@.len(),
    ensures
        match r {
            Some(vs) => step::gather(f@.regs, code@, p as int, n as int) == Ok::<Seq<ValueModel>, Trouble>(
                views::views(vs@),
            ) && vs@.len() == n,
            None => step::gather(f@.regs, code@, p as int, n as int) == Err::<Seq<ValueModel>, Trouble>(
                Trouble::Malformed,
            ),
        },
{
    let size: usize = code.len();
    let ghost regs = f@.regs;
    let mut out: Vec<Value> = Vec::new();
    let mut i: usize = 0;
    while i < n
        invariant
            i <= n,
            p + n <= code@.len() == size,
            regs == f@.regs,
            out@.len() == i,
            forall|j: int| p <= j < p + i ==> (#[trigger] code@[j]) < regs.len(),
            forall|j: int| 0 <= j < i ==> (#[trigger] out@[j])@ == regs[code@[p + j] as int],
        decreases n - i,
    {
        match rd(f, code[p + i]) {
            Some(v) => {
                out.push(v.clone());
            },
            None => {
                assert(code@[p + i] >= regs.len());
                return None;
            },
        }
        i += 1;
    }
    assert(views::views(out@) =~= Seq::new(n as nat, |i: int| regs[code@[p + i] as int]));
    Some(out)
}

fn load(op: Opcode, c: &Const) -> (r: Result<Value, String>)
    ensures
        agrees(r, step::loaded(op, c@)),
{
    match (op, c) {
        (Opcode::ConstInt, Const::Int(v)) => Ok(Value::Int(*v)),
        (Opcode::ConstFloat, Const::Float(b)) => Ok(Value::Float(*b)),
        (Opcode::ConstStr, Const::Str(s)) => Ok(Value::Str(s.clone())),
        _ => {
            let mut e = "const pool mismatch: ".to_owned();
            push_const(&mut e, c);
            Err(e)
        },
    }
}

fn int_arith(op: Opcode, a: i64, b: i64) -> (r: Result<Value, String>)
    ensures
        agrees(r, step::int_arith(op, a, b)),
{
    match op {
        Opcode::Add => Ok(Value::Int(a.wrapping_add(b))),
        Opcode::Sub => Ok(Value::Int(a.wrapping_sub(b))),
        Opcode::Mul => Ok(Value::Int(a.wrapping_mul(b))),
        Opcode::Div => match a.checked_div(b) {
            Some(v) => Ok(Value::Int(v)),
            None => Err("integer division by zero".to_owned()),
        },
        _ => match a.checked_rem(b) {
            Some(v) => Ok(Value::Int(v)),
            None => Err("integer modulo by zero".to_owned()),
        },
    }
}

fn float_arith(op: Opcode, a: u64, b: u64) -> (r: u64)
    ensures
        r == step::float_arith(op, a, b),
{
    match op {
        Opcode::Add => float::plus(a, b),
        Opcode::Sub => float::minus(a, b),
        Opcode::Mul => float::times(a, b),
        Opcode::Div => float::over(a, b),
        _ => float::rem(a, b),
    }
}

fn arith(op: Opcode, a: &Value, b: &Value) -> (r: Result<Value, String>)
    ensures
        agrees(r, step::arith(op, a@, b@)),
{
    match (a, b) {
        (Value::Int(x), Value::Int(y)) => int_arith(op, *x, *y),
        (Value::Float(x), Value::Float(y)) => Ok(Value::Float(float_arith(op, *x, *y))),
        _ => {
            let mut e = "arithmetic on incompatible values: ".to_owned();
            e.append(describe(a).as_str());
            e.append(" ");
            e.append(arith_str(op));
            e.append(" ");
            e.append(describe(b).as_str());
            Err(e)
        },
    }
}

fn holds(op: Opcode, o: Option<Order>) -> (r: bool)
    ensures
        r == step::holds(op, o == Some(Order::Less), o == Some(Order::Same), o == Some(Order::Greater)),
{
    match o {
        None => false,
        Some(Order::Less) => matches!(op, Opcode::Lt | Opcode::Le),
        Some(Order::Same) => !matches!(op, Opcode::Lt | Opcode::Gt),
        Some(Order::Greater) => !matches!(op, Opcode::Lt | Opcode::Le),
    }
}

fn compare(op: Opcode, a: &Value, b: &Value) -> (r: bool)
    ensures
        r == step::compared(op, a@, b@),
{
    match op {
        Opcode::Eq => a.same(b),
        Opcode::Ne => !a.same(b),
        _ => match (a, b) {
            (Value::Int(x), Value::Int(y)) => {
                holds(op, float::order(float::from_int(*x), float::from_int(*y)))
            },
            (Value::Float(x), Value::Float(y)) => holds(op, float::order(*x, *y)),
            _ => false,
        },
    }
}

fn negate(v: &Value) -> (r: Result<Value, String>)
    ensures
        agrees(r, step::negated(v@)),
{
    match v {
        Value::Int(x) => Ok(Value::Int(0i64.wrapping_sub(*x))),
        Value::Float(x) => Ok(Value::Float(float::neg(*x))),
        _ => Err(complain("neg on non-numeric: ", v)),
    }
}

fn invert(v: &Value) -> (r: Result<Value, String>)
    ensures
        agrees(r, step::inverted(v@)),
{
    match v {
        Value::Bool(b) => Ok(Value::Bool(!*b)),
        _ => Err(complain("not on non-bool: ", v)),
    }
}

fn connect(op: Opcode, a: &Value, b: &Value) -> (r: Result<Value, String>)
    ensures
        agrees(r, step::connected(op, a@, b@)),
{
    match (a, b) {
        (Value::Bool(x), Value::Bool(y)) => Ok(Value::Bool(if op == Opcode::And { *x && *y } else { *x || *y })),
        _ => {
            let mut e = "logical on non-bool: ".to_owned();
            e.append(describe(a).as_str());
            e.append(" / ");
            e.append(describe(b).as_str());
            Err(e)
        },
    }
}

fn out_of_bounds(i: i64, n: usize) -> (r: String)
    ensures
        r@ == step::out_of_bounds(i, n as nat),
{
    let mut e = "array index out of bounds: ".to_owned();
    push_dec_int(&mut e, i);
    e.append(" (len ");
    push_dec(&mut e, n as u64);
    e.append(")");
    e
}

fn element(heap: &Heap, arr: &Value, idx: &Value) -> (r: Result<Value, String>)
    ensures
        agrees(r, step::element(heap@, arr@, idx@)),
{
    match arr {
        Value::Array(h) => match idx {
            Value::Int(i) => match heap.get(*h) {
                Some(o) => match o {
                    Obj::Array(vs) => {
                        let ghost m = views::views(vs@);
                        assert(o@ == ObjModel::Array(m));
                        assert(m.len() == vs@.len());
                        if *i < 0 || *i as u64 >= vs.len() as u64 {
                            Err(out_of_bounds(*i, vs.len()))
                        } else {
                            Ok(vs[*i as usize].clone())
                        }
                    },
                    _ => {
                        let mut e = "ArrayGet handle resolved to non-array: ".to_owned();
                        push_object(&mut e, o);
                        Err(e)
                    },
                },
                None => Err("ArrayGet on dead handle".to_owned()),
            },
            _ => Err(complain("ArrayGet index not Int: ", idx)),
        },
        _ => Err(complain("ArrayGet on non-array: ", arr)),
    }
}

fn length(heap: &Heap, arr: &Value) -> (r: Result<Value, String>)
    ensures
        agrees(r, step::length(heap@, arr@)),
{
    match arr {
        Value::Array(h) => match heap.get(*h) {
            Some(Obj::Array(vs)) => {
                assert(views::views(vs@).len() == vs@.len());
                Ok(Value::Int(#[verifier::truncate] (vs.len() as i64)))
            },
            _ => Err("ArrayLen on dead/non-array handle".to_owned()),
        },
        _ => Err(complain("ArrayLen on non-array: ", arr)),
    }
}

fn find_entry(es: &Vec<(String, Value)>, name: &String) -> (r: Option<usize>)
    ensures
        match r {
            Some(i) => step::entry_from(object::entries_model(es@), name@, 0) == Some(i as int) && i < es@.len(),
            None => step::entry_from(object::entries_model(es@), name@, 0) is None,
        },
{
    let ghost m = object::entries_model(es@);
    let mut i: usize = 0;
    while i < es.len()
        invariant
            i <= es@.len(),
            m == object::entries_model(es@),
            step::entry_from(m, name@, 0) == step::entry_from(m, name@, i as int),
        decreases es.len() - i,
    {
        assert(m[i as int] == (es@[i as int].0@, es@[i as int].1@));
        if es[i].0.as_str().eq(name.as_str()) {
            return Some(i);
        }
        i += 1;
    }
    None
}

fn entry(es: &Vec<(String, Value)>, name: &String) -> (r: Value)
    ensures
        r@ == step::entry(object::entries_model(es@), name@),
{
    match find_entry(es, name) {
        Some(i) => es[i].1.clone(),
        None => Value::Nil,
    }
}

fn look_up(heap: &Heap, map: &Value, key: &Value) -> (r: Result<Value, String>)
    ensures
        agrees(r, step::looked_up(heap@, map@, key@)),
{
    match map {
        Value::Dict(h) => match key {
            Value::Str(s) => match heap.get(*h) {
                Some(Obj::Dict(es)) => Ok(entry(es, s)),
                _ => Err("MapGet on dead/non-map handle".to_owned()),
            },
            _ => Err(complain("MapGet key not Str: ", key)),
        },
        _ => Err(complain("MapGet on non-map: ", map)),
    }
}

fn field(heap: &Heap, c: &Const, strct: &Value) -> (r: Result<Value, String>)
    ensures
        agrees(r, step::field(heap@, c@, strct@)),
{
    match c {
        Const::Str(name) => match strct {
            Value::Struct(h) => match heap.get(*h) {
                Some(Obj::Struct(es)) => Ok(entry(es, name)),
                _ => Err("StructGet on dead/non-struct handle".to_owned()),
            },
            _ => Err(complain("StructGet on non-struct: ", strct)),
        },
        _ => {
            let mut e = "StructGet name const not Str: ".to_owned();
            push_const(&mut e, c);
            Err(e)
        },
    }
}

fn unary(op: Opcode, heap: &Heap, a: &Value) -> (r: Result<Value, String>)
    ensures
        agrees(r, step::unary(op, heap@, a@)),
{
    match op {
        Opcode::Move => Ok(a.clone()),
        Opcode::Neg => negate(a),
        Opcode::Not => invert(a),
        _ => length(heap, a),
    }
}

fn binary(op: Opcode, heap: &Heap, a: &Value, b: &Value) -> (r: Result<Value, String>)
    ensures
        agrees(r, step::binary(op, heap@, a@, b@)),
{
    match op {
        Opcode::Add | Opcode::Sub | Opcode::Mul | Opcode::Div | Opcode::Mod => arith(op, a, b),
        Opcode::And | Opcode::Or => connect(op, a, b),
        Opcode::ArrayGet => element(heap, a, b),
        Opcode::MapGet => look_up(heap, a, b),
        _ => Ok(Value::Bool(compare(op, a, b))),
    }
}

fn pool(module: &Module, idx: u16) -> (r: Option<&Const>)
    ensures
        match r {
            Some(c) => step::pool(module@.constants, idx) == Ok::<ConstModel, Trouble>(c@),
            None => step::pool(module@.constants, idx) == Err::<ConstModel, Trouble>(Trouble::Malformed),
        },
{
    if (idx as usize) < module.constants.len() {
        assert(module@.constants[idx as int] == module.constants@[idx as int]@);
        Some(&module.constants[idx as usize])
    } else {
        None
    }
}

/// Whether an instruction computes a value for its first register and does nothing else.
pub open spec fn plain(op: Opcode) -> bool {
    match op {
        Opcode::Trap | Opcode::Nop | Opcode::Jmp | Opcode::JmpIfFalse | Opcode::JmpIfTrue | Opcode::Call
        | Opcode::CallClosure | Opcode::FfiCall | Opcode::ReturnNil | Opcode::ReturnVal | Opcode::ArrayNew
        | Opcode::MapNew | Opcode::StructNew | Opcode::ClosureMake | Opcode::ArraySet | Opcode::MapSet
        | Opcode::StructSet => false,
        _ => true,
    }
}

#[verifier::spinoff_prover]
#[verifier::rlimit(40)]
fn value_of(op: Opcode, module: &Module, code: &Vec<u8>, f: &CallFrame, heap: &Heap) -> (r: Result<Value, String>)
    requires
        plain(op),
        f.pc + bytecode::len_of(op, code@, f.pc as int) <= code@.len(),
    ensures
        agrees(r, step::value_of(op, code@, f.pc as int, f@.regs, module@.constants, heap@)),
{
    proof {
        reveal(step::value_of);
    }
    let size: usize = code.len();
    let pc: usize = f.pc;
    match op {
        Opcode::ConstNil => Ok(Value::Nil),
        Opcode::ConstTrue => Ok(Value::Bool(true)),
        Opcode::ConstFalse => Ok(Value::Bool(false)),
        Opcode::ConstInt | Opcode::ConstFloat | Opcode::ConstStr => match pool(module, word_at(code, pc + 2)) {
            Some(c) => load(op, c),
            None => Err(malformed()),
        },
        Opcode::Move | Opcode::Neg | Opcode::Not | Opcode::ArrayLen => match rd(f, code[pc + 2]) {
            Some(a) => unary(op, heap, a),
            None => Err(malformed()),
        },
        Opcode::StructGet => match pool(module, word_at(code, pc + 3)) {
            Some(c) => match rd(f, code[pc + 2]) {
                Some(a) => field(heap, c, a),
                None => Err(malformed()),
            },
            None => Err(malformed()),
        },
        _ => match rd(f, code[pc + 2]) {
            Some(a) => match rd(f, code[pc + 3]) {
                Some(b) => binary(op, heap, a, b),
                None => Err(malformed()),
            },
            None => Err(malformed()),
        },
    }
}

#[verifier::spinoff_prover]
fn object_of(op: Opcode, code: &Vec<u8>, f: &CallFrame) -> (r: Option<Obj>)
    requires
        f.pc + bytecode::len_of(op, code@, f.pc as int) <= code@.len(),
    ensures
        match r {
            Some(o) => step::object_of(op, code@, f.pc as int, f@.regs) == Ok::<ObjModel, Trouble>(o@),
            None => step::object_of(op, code@, f.pc as int, f@.regs) == Err::<ObjModel, Trouble>(Trouble::Malformed),
        },
{
    proof {
        reveal(step::object_of);
    }
    let size: usize = code.len();
    let pc: usize = f.pc;
    match op {
        Opcode::ArrayNew => match gather(f, code, pc + 3, code[pc + 2] as usize) {
            Some(vs) => Some(Obj::Array(vs)),
            None => None,
        },
        Opcode::ClosureMake => match gather(f, code, pc + 5, code[pc + 4] as usize) {
            Some(vs) => Some(Obj::Closure { function_id: word_at(code, pc + 2), upvalues: vs }),
            None => None,
        },
        Opcode::MapNew => {
            let es: Vec<(String, Value)> = Vec::new();
            assert(object::entries_model(es@) =~= Seq::empty());
            Some(Obj::Dict(es))
        },
        _ => {
            let es: Vec<(String, Value)> = Vec::new();
            assert(object::entries_model(es@) =~= Seq::empty());
            Some(Obj::Struct(es))
        },
    }
}

fn value_for(op: Opcode, h: GcHandle) -> (r: Value)
    ensures
        r@ == step::value_for(op, h),
{
    match op {
        Opcode::ArrayNew => Value::Array(h),
        Opcode::ClosureMake => Value::Closure(h),
        Opcode::MapNew => Value::Dict(h),
        _ => Value::Struct(h),
    }
}

// --- stores --------------------------------------------------------------------------

/// Whether a store, or an error in words, is the one of the model.
pub open spec fn store_agrees(r: Result<(), String>, before: HeapModel, after: HeapModel, s: Result<HeapModel, Trouble>) -> bool {
    match (r, s) {
        (Ok(_), Ok(h)) => after == h,
        (Err(e), Err(t)) => e@ == step::trouble_text(t) && after == before,
        _ => false,
    }
}

proof fn lemma_replaced_wf(h: HeapModel, g: GcHandle, o: ObjModel)
    requires
        h.wf(),
        h.at(g) is Some,
    ensures
        h.replaced(g, o).wf(),
{
    store::lemma_store_kept(h.young, o, object::slot_of(g), false, Seq::empty());
    store::lemma_store_kept(h.old, o, object::slot_of(g), false, Seq::empty());
}

fn array_store(heap: &mut Heap, arr: &Value, idx: &Value, v: &Value) -> (r: Result<(), String>)
    requires
        old(heap)@.wf(),
    ensures
        store_agrees(r, old(heap)@, final(heap)@, step::array_stored(old(heap)@, arr@, idx@, v@)),
        final(heap)@.wf(),
{
    match arr {
        Value::Array(h) => match idx {
            Value::Int(i) => {
                match heap.get(*h) {
                    Some(o) => match o {
                        Obj::Array(vs) => {
                            assert(views::views(vs@).len() == vs@.len());
                            if *i < 0 || *i as u64 >= vs.len() as u64 {
                                return Err(out_of_bounds(*i, vs.len()));
                            }
                        },
                        _ => {
                            let mut e = "ArraySet handle resolved to non-array: ".to_owned();
                            push_object(&mut e, o);
                            return Err(e);
                        },
                    },
                    None => {
                        return Err("ArraySet on dead handle".to_owned());
                    },
                }
                let ghost h0 = heap@;
                if let Some(o) = heap.get_mut(*h) {
                    if let Obj::Array(vs) = o {
                        let ghost m = views::views(vs@);
                        let ghost was = vs@;
                        vs.set(*i as usize, v.clone());
                        assert(views::views(vs@) =~= m.update(*i as int, v@));
                    }
                }
                proof {
                    let m = h0.at(*h)->0->Array_0;
                    lemma_replaced_wf(h0, *h, ObjModel::Array(m.update(*i as int, v@)));
                }
                if let Some(t) = v.handle() {
                    heap.write_barrier(*h, t);
                }
                Ok(())
            },
            _ => Err(complain("ArraySet index not Int: ", idx)),
        },
        _ => Err(complain("ArraySet on non-array: ", arr)),
    }
}

fn put_entry(es: &mut Vec<(String, Value)>, name: &String, v: &Value)
    ensures
        object::entries_model(final(es)@) == step::with_entry(object::entries_model(old(es)@), name@, v@),
{
    let ghost m = object::entries_model(es@);
    match find_entry(es, name) {
        Some(i) => {
            es[i].1 = v.clone();
            assert(object::entries_model(es@) =~= m.update(i as int, (m[i as int].0, v@)));
        },
        None => {
            es.push((name.clone(), v.clone()));
            assert(object::entries_model(es@) =~= m.push((name@, v@)));
        },
    }
}

fn map_store(heap: &mut Heap, map: &Value, key: &Value, v: &Value) -> (r: Result<(), String>)
    requires
        old(heap)@.wf(),
    ensures
        store_agrees(r, old(heap)@, final(heap)@, step::map_stored(old(heap)@, map@, key@, v@)),
        final(heap)@.wf(),
{
    match map {
        Value::Dict(h) => match key {
            Value::Str(s) => {
                if !matches!(heap.get(*h), Some(Obj::Dict(_))) {
                    return Err("MapSet on dead/non-map handle".to_owned());
                }
                let ghost h0 = heap@;
                if let Some(o) = heap.get_mut(*h) {
                    if let Obj::Dict(es) = o {
                        put_entry(es, s, v);
                    }
                }
                proof {
                    let m = h0.at(*h)->0->Dict_0;
                    lemma_replaced_wf(h0, *h, ObjModel::Dict(step::with_entry(m, s@, v@)));
                }
                if let Some(t) = v.handle() {
                    heap.write_barrier(*h, t);
                }
                Ok(())
            },
            _ => Err(complain("MapSet key not Str: ", key)),
        },
        _ => Err(complain("MapSet on non-map: ", map)),
    }
}

fn struct_store(heap: &mut Heap, c: &Const, strct: &Value, v: &Value) -> (r: Result<(), String>)
    requires
        old(heap)@.wf(),
    ensures
        store_agrees(r, old(heap)@, final(heap)@, step::struct_stored(old(heap)@, c@, strct@, v@)),
        final(heap)@.wf(),
{
    match c {
        Const::Str(name) => match strct {
            Value::Struct(h) => {
                if !matches!(heap.get(*h), Some(Obj::Struct(_))) {
                    return Err("StructSet on dead/non-struct handle".to_owned());
                }
                let ghost h0 = heap@;
                if let Some(o) = heap.get_mut(*h) {
                    if let Obj::Struct(es) = o {
                        put_entry(es, name, v);
                    }
                }
                proof {
                    let m = h0.at(*h)->0->Struct_0;
                    lemma_replaced_wf(h0, *h, ObjModel::Struct(step::with_entry(m, name@, v@)));
                }
                if let Some(t) = v.handle() {
                    heap.write_barrier(*h, t);
                }
                Ok(())
            },
            _ => Err(complain("StructSet on non-struct: ", strct)),
        },
        _ => {
            let mut e = "StructSet name const not Str: ".to_owned();
            push_const(&mut e, c);
            Err(e)
        },
    }
}

#[verifier::spinoff_prover]
fn store_into(op: Opcode, module: &Module, code: &Vec<u8>, f: &CallFrame, heap: &mut Heap) -> (r: Result<(), String>)
    requires
        old(heap)@.wf(),
        op == Opcode::ArraySet || op == Opcode::MapSet || op == Opcode::StructSet,
        f.pc + bytecode::len_of(op, code@, f.pc as int) <= code@.len(),
    ensures
        store_agrees(
            r,
            old(heap)@,
            final(heap)@,
            step::heap_after(op, code@, f.pc as int, f@.regs, module@.constants, old(heap)@),
        ),
        final(heap)@.wf(),
{
    proof {
        reveal(step::heap_after);
    }
    let size: usize = code.len();
    let pc: usize = f.pc;
    if op == Opcode::StructSet {
        match pool(module, word_at(code, pc + 2)) {
            Some(c) => match rd(f, code[pc + 1]) {
                Some(s) => match rd(f, code[pc + 4]) {
                    Some(v) => struct_store(heap, c, s, v),
                    None => Err(malformed()),
                },
                None => Err(malformed()),
            },
            None => Err(malformed()),
        }
    } else {
        match rd(f, code[pc + 1]) {
            Some(a) => match rd(f, code[pc + 2]) {
                Some(b) => match rd(f, code[pc + 3]) {
                    Some(v) => {
                        if op == Opcode::ArraySet {
                            array_store(heap, a, b, v)
                        } else {
                            map_store(heap, a, b, v)
                        }
                    },
                    None => Err(malformed()),
                },
                None => Err(malformed()),
            },
            None => Err(malformed()),
        }
    }
}

// --- one instruction ---------------------------------------------------------------------

/// What an instruction does to the frame that runs it.
pub enum Doing {
    /// The frame goes on.
    Go,
    /// The frame waits for another.
    Enter(CallFrame),
    /// The frame is done, with a value.
    Leave(Value),
    /// The run stops.
    Halt(StopReason),
}

/// Whether a frame and a heap have come to the effect of the model.
pub open spec fn effect_agrees(d: Doing, f: FrameModel, before: HeapModel, after: HeapModel, e: Effect) -> bool {
    match (d, e) {
        (Doing::Go, Effect::Go(g, h)) => f == g && after == h,
        (Doing::Enter(c), Effect::Enter(g, k)) => f == g && c@ == k && after == before,
        (Doing::Leave(v), Effect::Leave(m)) => v@ == m && after == before,
        (Doing::Halt(s), Effect::Halt(t, g)) => stop_agrees(s, t) && f == g && after == before,
        _ => false,
    }
}

fn stop(e: String) -> (d: Doing)
    ensures
        d matches Doing::Halt(StopReason::Error(s)) && s == e,
{
    Doing::Halt(StopReason::Error(e))
}

fn jump(f: &mut CallFrame, target: i128, h: Ghost<HeapModel>) -> (d: Doing)
    ensures
        effect_agrees(d, final(f)@, h@, h@, step::jumped(old(f)@, target as int, h@)),
{
    if target < 0 && target >= -0x1_0000 {
        f.pc = (target + usize::MAX as i128 + 1) as usize;
        Doing::Go
    } else if target >= 0 && target <= usize::MAX as i128 {
        f.pc = target as usize;
        Doing::Go
    } else {
        stop(malformed())
    }
}

fn branch(f: &mut CallFrame, code: &Vec<u8>, on: bool, h: Ghost<HeapModel>) -> (d: Doing)
    requires
        old(f).pc + 4 <= code@.len(),
    ensures
        effect_agrees(d, final(f)@, h@, h@, step::branched(old(f)@, code@, on, h@)),
{
    let size: usize = code.len();
    let pc: usize = f.pc;
    let taken: bool = match rd(f, code[pc + 1]) {
        Some(v) => v.same(&Value::Bool(on)),
        None => {
            return stop(malformed());
        },
    };
    if taken {
        let target: i128 = pc as i128 + 4 + offset_at(code, pc + 2) as i128;
        jump(f, target, h)
    } else {
        f.pc = pc + 4;
        Doing::Go
    }
}

fn enter(module: &Module, f: &CallFrame, id: u16, args: Vec<Value>, dst: u8, h: Ghost<HeapModel>) -> (d: Doing)
    requires
        id < module@.functions.len(),
    ensures
        effect_agrees(d, f@, h@, h@, step::entered(module@, f@, id, views::views(args@), dst)),
{
    assert(module@.functions[id as int] == module.functions@[id as int]@);
    assert(views::views(args@).len() == args@.len());
    let n: u8 = module.functions[id as usize].max_register;
    if args.len() > n as usize {
        stop("too many arguments for the callee's registers".to_owned())
    } else {
        Doing::Enter(CallFrame::entering(id, n, args, Some(dst)))
    }
}

#[verifier::spinoff_prover]
fn call(module: &Module, f: &mut CallFrame, code: &Vec<u8>, h: Ghost<HeapModel>) -> (d: Doing)
    requires
        old(f).pc + bytecode::len_of(Opcode::Call, code@, old(f).pc as int) <= code@.len(),
    ensures
        effect_agrees(d, final(f)@, h@, h@, step::called(module@, old(f)@, code@)),
{
    proof {
        reveal(step::called);
    }
    let size: usize = code.len();
    let pc: usize = f.pc;
    let dst: u8 = code[pc + 1];
    let id: u16 = word_at(code, pc + 2);
    let n: usize = code[pc + 4] as usize;
    match gather(f, code, pc + 5, n) {
        None => stop(malformed()),
        Some(args) => {
            f.pc = pc + 5 + n;
            if id as usize >= module.functions.len() {
                let mut e = "unknown function id ".to_owned();
                push_dec(&mut e, id as u64);
                return stop(e);
            }
            enter(module, f, id, args, dst, h)
        },
    }
}

fn append_values(a: &Vec<Value>, b: Vec<Value>) -> (r: Vec<Value>)
    ensures
        views::views(r@) == views::views(a@) + views::views(b@),
{
    let ghost ma = views::views(a@);
    let ghost mb = views::views(b@);
    let mut out: Vec<Value> = Vec::new();
    let mut i: usize = 0;
    while i < a.len()
        invariant
            i <= a@.len(),
            out@.len() == i,
            forall|j: int| 0 <= j < i ==> (#[trigger] out@[j])@ == a@[j]@,
        decreases a.len() - i,
    {
        out.push(a[i].clone());
        i += 1;
    }
    let mut k: usize = 0;
    while k < b.len()
        invariant
            k <= b@.len(),
            out@.len() == a@.len() + k,
            forall|j: int| 0 <= j < a@.len() ==> (#[trigger] out@[j])@ == a@[j]@,
            forall|j: int| a@.len() <= j < a@.len() + k ==> (#[trigger] out@[j])@ == b@[j - a@.len()]@,
        decreases b.len() - k,
    {
        out.push(b[k].clone());
        k += 1;
    }
    assert(views::views(out@) =~= ma + mb);
    out
}

#[verifier::spinoff_prover]
#[verifier::rlimit(40)]
fn call_closure(module: &Module, f: &mut CallFrame, code: &Vec<u8>, heap: &Heap) -> (d: Doing)
    requires
        old(f).pc + bytecode::len_of(Opcode::CallClosure, code@, old(f).pc as int) <= code@.len(),
    ensures
        effect_agrees(d, final(f)@, heap@, heap@, step::closure_called(module@, old(f)@, code@, heap@)),
{
    proof {
        reveal(step::closure_called);
    }
    let size: usize = code.len();
    let pc: usize = f.pc;
    let dst: u8 = code[pc + 1];
    let n: usize = code[pc + 3] as usize;
    let cls: GcHandle = match rd(f, code[pc + 2]) {
        None => {
            return stop(malformed());
        },
        Some(v) => match v {
            Value::Closure(h) => *h,
            _ => {
                return stop(complain("CallClosure on non-closure: ", v));
            },
        },
    };
    match gather(f, code, pc + 4, n) {
        None => stop(malformed()),
        Some(args) => {
            f.pc = pc + 4 + n;
            match heap.get(cls) {
                Some(Obj::Closure { function_id, upvalues }) => {
                    let id: u16 = *function_id;
                    if id as usize >= module.functions.len() {
                        let mut e = "closure refers to unknown function id ".to_owned();
                        push_dec(&mut e, id as u64);
                        return stop(e);
                    }
                    let all = append_values(upvalues, args);
                    enter(module, f, id, all, dst, Ghost(heap@))
                },
                _ => stop("CallClosure on dead/non-closure handle".to_owned()),
            }
        },
    }
}

#[verifier::spinoff_prover]
fn call_host<F>(table: &CallTable<F>, f: &mut CallFrame, code: &Vec<u8>, h: Ghost<HeapModel>) -> (d: Doing)
    requires
        old(f).pc + bytecode::len_of(Opcode::FfiCall, code@, old(f).pc as int) <= code@.len(),
    ensures
        effect_agrees(d, final(f)@, h@, h@, step::host_called(table@, old(f)@, code@)),
{
    proof {
        reveal(step::host_called);
    }
    let size: usize = code.len();
    let pc: usize = f.pc;
    let dst: u8 = code[pc + 1];
    let id: u16 = word_at(code, pc + 2);
    let n: usize = code[pc + 4] as usize;
    match gather(f, code, pc + 5, n) {
        None => stop(malformed()),
        Some(args) => {
            f.pc = pc + 5 + n;
            match table.call(id, n) {
                Err(why) => {
                    let mut e = "ffi error: ".to_owned();
                    e.append(why.as_str());
                    stop(e)
                },
                Ok(_) => Doing::Halt(StopReason::Ffi { index: id, args, dst }),
            }
        },
    }
}

#[verifier::spinoff_prover]
fn make(op: Opcode, f: &mut CallFrame, code: &Vec<u8>, next: usize, heap: &mut Heap) -> (d: Doing)
    requires
        old(heap)@.wf(),
        op == Opcode::ArrayNew || op == Opcode::MapNew || op == Opcode::StructNew || op == Opcode::ClosureMake,
        next == old(f).pc + bytecode::len_of(op, code@, old(f).pc as int),
        next <= code@.len(),
    ensures
        effect_agrees(
            d,
            final(f)@,
            old(heap)@,
            final(heap)@,
            step::made(op, old(f)@, code@, next as int, old(heap)@),
        ),
        final(heap)@.wf(),
{
    let size: usize = code.len();
    let pc: usize = f.pc;
    match object_of(op, code, f) {
        None => stop(malformed()),
        Some(o) => {
            let dst: u8 = code[pc + 1];
            if dst as usize >= f.registers.len() {
                return stop(malformed());
            }
            if !heap.has_room() {
                return stop("heap is full".to_owned());
            }
            let h = heap.allocate(o);
            f.set_reg(dst, value_for(op, h));
            f.pc = next;
            Doing::Go
        },
    }
}

#[verifier::spinoff_prover]
#[verifier::rlimit(60)]
fn perform<F>(
    op: Opcode,
    module: &Module,
    table: &CallTable<F>,
    f: &mut CallFrame,
    code: &Vec<u8>,
    next: usize,
    heap: &mut Heap,
) -> (d: Doing)
    requires
        old(heap)@.wf(),
        next == old(f).pc + bytecode::len_of(op, code@, old(f).pc as int),
        next <= code@.len(),
    ensures
        effect_agrees(
            d,
            final(f)@,
            old(heap)@,
            final(heap)@,
            step::effect(op, module@, table@, old(f)@, code@, old(heap)@),
        ),
        final(heap)@.wf(),
{
    let size: usize = code.len();
    let pc: usize = f.pc;
    match op {
        Opcode::Trap => Doing::Halt(StopReason::Trapped { function_id: f.function_id, pc }),
        Opcode::Nop => {
            f.pc = next;
            Doing::Go
        },
        Opcode::Jmp => {
            let target: i128 = pc as i128 + 3 + offset_at(code, pc + 1) as i128;
            jump(f, target, Ghost(heap@))
        },
        Opcode::JmpIfFalse => branch(f, code, false, Ghost(heap@)),
        Opcode::JmpIfTrue => branch(f, code, true, Ghost(heap@)),
        Opcode::Call => call(module, f, code, Ghost(heap@)),
        Opcode::CallClosure => call_closure(module, f, code, heap),
        Opcode::FfiCall => call_host(table, f, code, Ghost(heap@)),
        Opcode::ReturnNil => Doing::Leave(Value::Nil),
        Opcode::ReturnVal => match rd(f, code[pc + 1]) {
            Some(v) => Doing::Leave(v.clone()),
            None => stop(malformed()),
        },
        Opcode::ArrayNew | Opcode::MapNew | Opcode::StructNew | Opcode::ClosureMake => make(op, f, code, next, heap),
        Opcode::ArraySet | Opcode::MapSet | Opcode::StructSet => match store_into(op, module, code, f, heap) {
            Ok(_) => {
                f.pc = next;
                Doing::Go
            },
            Err(e) => stop(e),
        },
        _ => match value_of(op, module, code, f, heap) {
            Ok(v) => {
                let dst: u8 = code[pc + 1];
                if (dst as usize) < f.registers.len() {
                    f.set_reg(dst, v);
                    f.pc = next;
                    Doing::Go
                } else {
                    stop(malformed())
                }
            },
            Err(e) => stop(e),
        },
    }
}

/// Whether a stack, a heap and a stop are those of the model.
pub open spec fn outcome_agrees(r: Option<StopReason>, stack: Seq<CallFrame>, heap: HeapModel, o: Outcome) -> bool {
    &&& o.0.frames == views::views(stack)
    &&& o.0.heap == heap
    &&& match (r, o.1) {
        (None, None) => true,
        (Some(s), Some(t)) => stop_agrees(s, t),
        _ => false,
    }
}

pub(crate) fn give(stack: &mut Vec<CallFrame>, dst: u8, v: Value, h: Ghost<HeapModel>) -> (r: Option<StopReason>)
    requires
        old(stack)@.len() > 0,
    ensures
        outcome_agrees(r, final(stack)@, h@, step::given(views::views(old(stack)@), dst, v@, h@)),
        r is None ==> final(stack)@.len() > 0,
{
    let ghost before = views::views(stack@);
    let n: usize = stack.len();
    assert(before.last() == stack@[n - 1]@);
    if (dst as usize) < stack[n - 1].registers.len() {
        stack[n - 1].set_reg(dst, v);
        assert(views::views(stack@) =~= before.drop_last().push(before.last().with(dst as int, v@)));
        None
    } else {
        Some(StopReason::Error(malformed()))
    }
}

fn leave(stack: &mut Vec<CallFrame>, ret: Option<u8>, v: Value, h: Ghost<HeapModel>) -> (r: Option<StopReason>)
    ensures
        outcome_agrees(r, final(stack)@, h@, step::left(views::views(old(stack)@), ret, v@, h@)),
        r is None ==> final(stack)@.len() > 0,
{
    assert(views::views(stack@).len() == stack@.len());
    if stack.len() == 0 {
        return Some(StopReason::Returned(v));
    }
    match ret {
        Some(dst) => give(stack, dst, v, h),
        None => None,
    }
}

#[verifier::spinoff_prover]
#[verifier::rlimit(40)]
fn take_step<F>(module: &Module, stack: &mut Vec<CallFrame>, heap: &mut Heap, table: &CallTable<F>) -> (r: Option<StopReason>)
    requires
        old(stack)@.len() > 0,
        old(heap)@.wf(),
    ensures
        outcome_agrees(
            r,
            final(stack)@,
            final(heap)@,
            step::step(module@, table@, MachineModel { frames: views::views(old(stack)@), heap: old(heap)@ }),
        ),
        final(heap)@.wf(),
        r is None ==> final(stack)@.len() > 0,
{
    let ghost before = views::views(stack@);
    let ghost h0 = heap@;
    match stack.pop() {
        None => Some(StopReason::Error(malformed())),
        Some(top) => {
            let mut f = top;
            let ghost f0 = f@;
            let ghost rest = views::views(stack@);
            assert(rest =~= before.drop_last());
            assert(before.last() == f0);
            if f.function_id as usize >= module.functions.len() {
                proof {
                    views::lemma_views_push(stack@, f);
                }
                stack.push(f);
                return Some(StopReason::Error(malformed()));
            }
            assert(module@.functions[f.function_id as int] == module.functions@[f.function_id as int]@);
            let code = &module.functions[f.function_id as usize].code;
            let ret = f.return_dst;
            if f.pc >= code.len() {
                return match ret {
                    Some(_) => leave(stack, ret, Value::Nil, Ghost(h0)),
                    None => Some(StopReason::Returned(Value::Nil)),
                };
            }
            let byte: u8 = code[f.pc];
            match Opcode::from_u8(byte) {
                None => {
                    let mut e = "unknown opcode 0x".to_owned();
                    push_hex2(&mut e, byte);
                    proof {
                        views::lemma_views_push(stack@, f);
                    }
                    stack.push(f);
                    Some(StopReason::Error(e))
                },
                Some(op) => {
                    let len: usize = op.instr_len(code.as_slice(), f.pc);
                    if len > code.len() - f.pc {
                        proof {
                            views::lemma_views_push(stack@, f);
                        }
                        stack.push(f);
                        return Some(StopReason::Error(malformed()));
                    }
                    let next: usize = f.pc + len;
                    let d = perform(op, module, table, &mut f, code, next, heap);
                    match d {
                        Doing::Go => {
                            proof {
                                views::lemma_views_push(stack@, f);
                            }
                            stack.push(f);
                            None
                        },
                        Doing::Enter(g) => {
                            proof {
                                views::lemma_views_push(stack@, f);
                            }
                            stack.push(f);
                            proof {
                                views::lemma_views_push(stack@, g);
                            }
                            stack.push(g);
                            None
                        },
                        Doing::Leave(v) => leave(stack, ret, v, Ghost(h0)),
                        Doing::Halt(s) => {
                            proof {
                                views::lemma_views_push(stack@, f);
                            }
                            stack.push(f);
                            Some(s)
                        },
                    }
                },
            }
        },
    }
}

/// Runs until the outermost frame returns, the debugger's mark is reached, the host is to
/// run a function, or something goes wrong; within 2^64 - 1 steps.
pub fn run<F>(module: &Module, stack: &mut Vec<CallFrame>, heap: &mut Heap, table: &CallTable<F>) -> (r: StopReason)
    requires
        old(stack)@.len() > 0,
        old(heap)@.wf(),
    ensures
        ({
            let (m, s) = step::ran(
                module@,
                table@,
                MachineModel { frames: views::views(old(stack)@), heap: old(heap)@ },
                u64::MAX as nat,
            );
            m.frames == views::views(final(stack)@) && m.heap == final(heap)@ && stop_agrees(r, s)
        }),
        final(heap)@.wf(),
{
    let ghost s0 = MachineModel { frames: views::views(stack@), heap: heap@ };
    let mut left: u64 = u64::MAX;
    while left > 0
        invariant
            stack@.len() > 0,
            heap@.wf(),
            s0 == (MachineModel { frames: views::views(old(stack)@), heap: old(heap)@ }),
            step::ran(module@, table@, s0, u64::MAX as nat) == step::ran(
                module@,
                table@,
                MachineModel { frames: views::views(stack@), heap: heap@ },
                left as nat,
            ),
        decreases left,
    {
        match take_step(module, stack, heap, table) {
            Some(s) => {
                return s;
            },
            None => {},
        }
        left -= 1;
    }
    StopReason::Error("step limit reached".to_owned())
}

} // verus!
