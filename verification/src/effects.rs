//! What instructions on arrays, maps and structs do, told by what is read afterwards; and
//! which way the branches go.

use crate::bytecode;
use crate::bytecode::{ConstModel, ModuleModel, Opcode};
use crate::ffi::BindingModel;
use crate::gc::heap::HeapModel;
use crate::gc::object;
use crate::gc::object::{GcHandle, ObjModel};
use crate::verify;
use crate::vm::frame::FrameModel;
use crate::vm::step;
use crate::vm::step::{Effect, StopModel, Trouble};
use crate::vm::value::ValueModel;
use vstd::prelude::*;

verus! {

/// A value that was read.
pub open spec fn got(v: ValueModel) -> Result<ValueModel, Trouble> {
    Ok(v)
}

/// After a store, the object behind the handle is the new one, and every other is as it was.
proof fn lemma_stored(heap: HeapModel, h: GcHandle, o: ObjModel, v: ValueModel, x: GcHandle)
    requires
        heap.at(h) is Some,
    ensures
        step::stored(heap, h, o, v).at(h) == Some(o),
        x != h ==> step::stored(heap, h, o, v).at(x) == heap.at(x),
{
    let i = object::slot_of(h);
    let j = object::slot_of(x);
    if x != h && object::is_old(x) == object::is_old(h) {
        assert(i != j);
    }
}

proof fn lemma_entry_from(es: Seq<(Seq<char>, ValueModel)>, n: Seq<char>, i: int)
    requires
        0 <= i <= es.len(),
    ensures
        match step::entry_from(es, n, i) {
            Some(j) => i <= j < es.len() && es[j].0 == n && forall|k: int| i <= k < j ==> (#[trigger] es[k]).0 != n,
            None => forall|k: int| i <= k < es.len() ==> (#[trigger] es[k]).0 != n,
        },
    decreases es.len() - i,
{
    if i < es.len() && es[i].0 != n {
        lemma_entry_from(es, n, i + 1);
    }
}

proof fn lemma_entry_is(es: Seq<(Seq<char>, ValueModel)>, n: Seq<char>, i: int)
    requires
        0 <= i < es.len(),
        es[i].0 == n,
        forall|k: int| 0 <= k < i ==> (#[trigger] es[k]).0 != n,
    ensures
        step::entry(es, n) == es[i].1,
{
    lemma_entry_from(es, n, 0);
    match step::entry_from(es, n, 0) {
        Some(j) => {
            if j < i {
                assert(es[j].0 != n);
            } else if i < j {
                assert(es[i].0 != n);
            }
        },
        None => {
            assert(es[i].0 != n);
        },
    }
}

proof fn lemma_entry_none(es: Seq<(Seq<char>, ValueModel)>, n: Seq<char>)
    requires
        forall|k: int| 0 <= k < es.len() ==> (#[trigger] es[k]).0 != n,
    ensures
        step::entry(es, n) == ValueModel::Nil,
{
    lemma_entry_from(es, n, 0);
    if let Some(j) = step::entry_from(es, n, 0) {
        assert(es[j].0 != n);
    }
}

/// A value that was put under a name is found there; under other names, what was there.
proof fn lemma_entries(es: Seq<(Seq<char>, ValueModel)>, n: Seq<char>, v: ValueModel, m: Seq<char>)
    ensures
        step::entry(step::with_entry(es, n, v), n) == v,
        m != n ==> step::entry(step::with_entry(es, n, v), m) == step::entry(es, m),
{
    let t = step::with_entry(es, n, v);
    lemma_entry_from(es, n, 0);
    lemma_entry_from(es, m, 0);
    match step::entry_from(es, n, 0) {
        Some(i) => {
            assert forall|k: int| 0 <= k < i implies (#[trigger] t[k]).0 != n by {
                assert(t[k] == es[k]);
            }
            lemma_entry_is(t, n, i);
        },
        None => {
            assert forall|k: int| 0 <= k < es.len() implies (#[trigger] t[k]).0 != n by {
                assert(t[k] == es[k]);
            }
            lemma_entry_is(t, n, es.len() as int);
        },
    }
    if m != n {
        match step::entry_from(es, m, 0) {
            Some(j) => {
                assert forall|k: int| 0 <= k < j implies (#[trigger] t[k]).0 != m by {
                    assert(es[k].0 != m);
                }
                lemma_entry_is(t, m, j);
            },
            None => {
                assert forall|k: int| 0 <= k < t.len() implies (#[trigger] t[k]).0 != m by {
                    if k < es.len() {
                        assert(es[k].0 != m);
                    }
                }
                lemma_entry_none(t, m);
            },
        }
    }
}

/// What is stored in an array is read back at that index; at every other index is what was
/// there, the length is the same, and so is every other object.
pub proof fn law_arrays_read_back(heap: HeapModel, a: ValueModel, i: ValueModel, v: ValueModel, j: ValueModel, x: GcHandle)
    ensures
        step::array_stored(heap, a, i, v) matches Ok(g) ==> {
            &&& step::element(g, a, i) == got(v)
            &&& j != i ==> step::element(g, a, j) == step::element(heap, a, j)
            &&& step::length(g, a) == step::length(heap, a)
            &&& a != ValueModel::Array(x) ==> g.at(x) == heap.at(x)
        },
{
    if let ValueModel::Array(h) = a {
        if let ValueModel::Int(k) = i {
            if let Some(ObjModel::Array(vs)) = heap.at(h) {
                if 0 <= k < vs.len() {
                    lemma_stored(heap, h, ObjModel::Array(vs.update(k as int, v)), v, x);
                }
            }
        }
    }
}

/// An index can be stored to exactly where it can be read, and that is from 0 up to the
/// length.
pub proof fn law_array_bounds(heap: HeapModel, a: ValueModel, i: i64, v: ValueModel, n: i64)
    requires
        step::length(heap, a) == got(ValueModel::Int(n)),
        a matches ValueModel::Array(h) ==> (heap.at(h) matches Some(ObjModel::Array(vs)) ==> vs.len() <= i64::MAX),
    ensures
        step::element(heap, a, ValueModel::Int(i)) is Ok <==> 0 <= i < n,
        step::array_stored(heap, a, ValueModel::Int(i), v) is Ok <==> 0 <= i < n,
{
}

/// What is stored in a map is read back under that key; under every other key is what was
/// there, and every other object is as it was. Exactly what can be read can be stored to.
pub proof fn law_maps_read_back(heap: HeapModel, m: ValueModel, k: ValueModel, v: ValueModel, j: ValueModel, x: GcHandle)
    ensures
        step::map_stored(heap, m, k, v) is Ok <==> step::looked_up(heap, m, k) is Ok,
        step::map_stored(heap, m, k, v) matches Ok(g) ==> {
            &&& step::looked_up(g, m, k) == got(v)
            &&& j != k ==> step::looked_up(g, m, j) == step::looked_up(heap, m, j)
            &&& m != ValueModel::Dict(x) ==> g.at(x) == heap.at(x)
        },
{
    if let ValueModel::Dict(h) = m {
        if let ValueModel::Str(n) = k {
            if let Some(ObjModel::Dict(es)) = heap.at(h) {
                lemma_stored(heap, h, ObjModel::Dict(step::with_entry(es, n, v)), v, x);
                let o = if let ValueModel::Str(q) = j {
                    q
                } else {
                    n
                };
                lemma_entries(es, n, v, o);
            }
        }
    }
}

/// What is stored in a struct is read back from that field; in every other field is what was
/// there, and every other object is as it was. Exactly what can be read can be stored to.
pub proof fn law_structs_read_back(heap: HeapModel, c: ConstModel, s: ValueModel, v: ValueModel, d: ConstModel, x: GcHandle)
    ensures
        step::struct_stored(heap, c, s, v) is Ok <==> step::field(heap, c, s) is Ok,
        step::struct_stored(heap, c, s, v) matches Ok(g) ==> {
            &&& step::field(g, c, s) == got(v)
            &&& d != c ==> step::field(g, d, s) == step::field(heap, d, s)
            &&& s != ValueModel::Struct(x) ==> g.at(x) == heap.at(x)
        },
{
    if let ConstModel::Str(n) = c {
        if let ValueModel::Struct(h) = s {
            if let Some(ObjModel::Struct(es)) = heap.at(h) {
                lemma_stored(heap, h, ObjModel::Struct(step::with_entry(es, n, v)), v, x);
                let o = if let ConstModel::Str(q) = d {
                    q
                } else {
                    n
                };
                lemma_entries(es, n, v, o);
            }
        }
    }
}

/// The register that a byte of an instruction names.
pub open spec fn reg(f: FrameModel, code: Seq<u8>, i: int) -> ValueModel {
    f.regs[code[f.pc + i] as int]
}

/// The instructions that store put the value of the last register into the object of the
/// first: at the index or under the key of the second, or in the field that a constant names.
/// Registers stay as they are, and the instruction behind is next.
pub proof fn law_stores_store<F>(op: Opcode, m: ModuleModel, table: Seq<BindingModel<F>>, f: FrameModel, code: Seq<u8>, heap: HeapModel)
    requires
        op == Opcode::ArraySet || op == Opcode::MapSet || op == Opcode::StructSet,
    ensures
        step::effect(op, m, table, f, code, heap) matches Effect::Go(g, h) ==> {
            &&& g.regs == f.regs
            &&& g.pc == f.pc + bytecode::len_of(op, code, f.pc)
            &&& op == Opcode::ArraySet ==> step::element(h, reg(f, code, 1), reg(f, code, 2)) == got(reg(f, code, 3))
            &&& op == Opcode::MapSet ==> step::looked_up(h, reg(f, code, 1), reg(f, code, 2)) == got(reg(f, code, 3))
            &&& op == Opcode::StructSet ==> step::field(
                h,
                m.constants[verify::word(code, f.pc + 2) as int],
                reg(f, code, 1),
            ) == got(reg(f, code, 4))
        },
{
    reveal(step::heap_after);
    let nil = ValueModel::Nil;
    if op == Opcode::ArraySet {
        law_arrays_read_back(heap, reg(f, code, 1), reg(f, code, 2), reg(f, code, 3), nil, GcHandle(0));
    } else if op == Opcode::MapSet {
        law_maps_read_back(heap, reg(f, code, 1), reg(f, code, 2), reg(f, code, 3), nil, GcHandle(0));
    } else {
        let c = m.constants[verify::word(code, f.pc + 2) as int];
        law_structs_read_back(heap, c, reg(f, code, 1), reg(f, code, 4), c, GcHandle(0));
    }
}

/// A new array holds the values of the registers that are listed, in their order, and is as
/// long as the list.
pub proof fn law_new_arrays_hold<F>(m: ModuleModel, table: Seq<BindingModel<F>>, f: FrameModel, code: Seq<u8>, heap: HeapModel, i: i64)
    requires
        heap.wf(),
    ensures
        step::effect(Opcode::ArrayNew, m, table, f, code, heap) matches Effect::Go(g, h) ==> {
            let a = g.regs[code[f.pc + 1] as int];
            &&& step::length(h, a) == got(ValueModel::Int(code[f.pc + 2] as i64))
            &&& 0 <= i < code[f.pc + 2] ==> step::element(h, a, ValueModel::Int(i)) == got(reg(f, code, 3 + i))
        },
{
    reveal(step::object_of);
    let n = code[f.pc + 2] as int;
    if let Ok(vs) = step::gather(f.regs, code, f.pc + 3, n) {
        if heap.young.has_room() {
            lemma_made(heap, ObjModel::Array(vs));
            if 0 <= i < n {
                assert(vs[i as int] == f.regs[code[f.pc + 3 + i] as int]);
            }
        }
    }
}

/// A new map has nothing under any key, and a new struct nothing in any field.
pub proof fn law_new_objects_are_empty<F>(m: ModuleModel, table: Seq<BindingModel<F>>, f: FrameModel, code: Seq<u8>, heap: HeapModel, n: Seq<char>)
    requires
        heap.wf(),
    ensures
        step::effect(Opcode::MapNew, m, table, f, code, heap) matches Effect::Go(g, h) ==> step::looked_up(
            h,
            g.regs[code[f.pc + 1] as int],
            ValueModel::Str(n),
        ) == got(ValueModel::Nil),
        step::effect(Opcode::StructNew, m, table, f, code, heap) matches Effect::Go(g, h) ==> step::field(
            h,
            ConstModel::Str(n),
            g.regs[code[f.pc + 1] as int],
        ) == got(ValueModel::Nil),
{
    reveal(step::object_of);
    if heap.young.has_room() {
        lemma_made(heap, ObjModel::Dict(Seq::empty()));
        lemma_made(heap, ObjModel::Struct(Seq::empty()));
    }
}

proof fn lemma_made(heap: HeapModel, o: ObjModel)
    requires
        heap.wf(),
        heap.young.has_room(),
    ensures
        heap.with(o).at(heap.next()) == Some(o),
{
    assert(object::slot_of(heap.next()) == heap.young.next());
}

/// Where an instruction of four bytes with an offset at its end leads when it jumps.
pub open spec fn target(f: FrameModel, code: Seq<u8>) -> int {
    f.pc + 4 + verify::offset(code, f.pc + 2)
}

/// Of the two branches exactly the one that asks for it jumps where a register holds a truth
/// value; the other goes on behind. Where it holds something else, both go on.
pub proof fn law_branches_part<F>(m: ModuleModel, table: Seq<BindingModel<F>>, f: FrameModel, code: Seq<u8>, heap: HeapModel)
    requires
        code[f.pc + 1] < f.regs.len(),
        0 <= target(f, code) <= usize::MAX,
    ensures
        ({
            let v = reg(f, code, 1);
            let yes = step::effect(Opcode::JmpIfTrue, m, table, f, code, heap);
            let no = step::effect(Opcode::JmpIfFalse, m, table, f, code, heap);
            let there = Effect::Go(FrameModel { pc: target(f, code), ..f }, heap);
            let behind = Effect::Go(FrameModel { pc: f.pc + 4, ..f }, heap);
            &&& v == ValueModel::Bool(true) ==> yes == there && no == behind
            &&& v == ValueModel::Bool(false) ==> yes == behind && no == there
            &&& !(v is Bool) ==> yes == behind && no == behind
        }),
{
}

/// A host function is asked for by the number in the instruction, with the values of the
/// registers that are listed, in their order; the run goes on behind the instruction.
pub proof fn law_host_calls_bind<F>(m: ModuleModel, table: Seq<BindingModel<F>>, f: FrameModel, code: Seq<u8>, heap: HeapModel)
    ensures
        step::effect(Opcode::FfiCall, m, table, f, code, heap) matches Effect::Halt(StopModel::Ffi(id, args, dst), g) ==> {
            &&& id == verify::word(code, f.pc + 2)
            &&& dst == code[f.pc + 1]
            &&& args.len() == code[f.pc + 4]
            &&& forall|i: int| 0 <= i < args.len() ==> #[trigger] args[i] == reg(f, code, 5 + i)
            &&& g.regs == f.regs
            &&& g.pc == f.pc + 5 + args.len()
        },
{
    reveal(step::host_called);
    let n = code[f.pc + 4] as int;
    if let Ok(args) = step::gather(f.regs, code, f.pc + 5, n) {
        assert forall|i: int| 0 <= i < n implies #[trigger] args[i] == reg(f, code, 5 + i) by {
            assert(args[i] == f.regs[code[f.pc + 5 + i] as int]);
        }
    }
}

} // verus!
