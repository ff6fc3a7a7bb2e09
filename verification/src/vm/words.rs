//! The words of runtime errors.

use crate::bytecode::{Const, ConstModel, Opcode};
use crate::gc::object;
use crate::gc::object::{Obj, ObjModel};
use crate::text;
use crate::text::{push_dec, push_dec_int, str_debug};
use crate::views;
use crate::vm::value;
use crate::vm::value::{describe, Value, ValueModel};
use vstd::prelude::*;

verus! {

/// A constant with its kind.
pub open spec fn const_text(c: ConstModel) -> Seq<char> {
    match c {
        ConstModel::Int(v) => "Int("@ + text::dec_int(v as int) + ")"@,
        ConstModel::Float(b) => "Float("@ + text::dec(b as nat) + ")"@,
        ConstModel::Str(s) => "Str("@ + text::debug_str(s) + ")"@,
    }
}

pub(crate) fn push_const(out: &mut String, c: &Const)
    ensures
        final(out)@ == old(out)@ + const_text(c@),
{
    match c {
        Const::Int(v) => {
            out.append("Int(");
            push_dec_int(out, *v);
        },
        Const::Float(b) => {
            out.append("Float(");
            push_dec(out, *b);
        },
        Const::Str(s) => {
            out.append("Str(");
            out.append(str_debug(s.as_str()).as_str());
        },
    }
    out.append(")");
    assert(out@ =~= old(out)@ + const_text(c@));
}

/// The first `k` values, with commas between.
pub open spec fn values_text(vs: Seq<ValueModel>, k: int) -> Seq<char>
    decreases k,
{
    if k <= 0 {
        Seq::empty()
    } else if k == 1 {
        value::value_text(vs[0])
    } else {
        values_text(vs, k - 1) + ", "@ + value::value_text(vs[k - 1])
    }
}

/// One named value.
pub open spec fn entry_text(e: (Seq<char>, ValueModel)) -> Seq<char> {
    "("@ + text::debug_str(e.0) + ", "@ + value::value_text(e.1) + ")"@
}

/// The first `k` named values, with commas between.
pub open spec fn entries_text(es: Seq<(Seq<char>, ValueModel)>, k: int) -> Seq<char>
    decreases k,
{
    if k <= 0 {
        Seq::empty()
    } else if k == 1 {
        entry_text(es[0])
    } else {
        entries_text(es, k - 1) + ", "@ + entry_text(es[k - 1])
    }
}

/// An object with its kind and what it holds.
pub open spec fn object_text(o: ObjModel) -> Seq<char> {
    match o {
        ObjModel::Array(vs) => "Array(["@ + values_text(vs, vs.len() as int) + "])"@,
        ObjModel::Dict(es) => "Map(["@ + entries_text(es, es.len() as int) + "])"@,
        ObjModel::Struct(es) => "Struct(["@ + entries_text(es, es.len() as int) + "])"@,
        ObjModel::Closure(f, vs) => "Closure { function_id: "@ + text::dec(f as nat) + ", upvalues: ["@ + values_text(
            vs,
            vs.len() as int,
        ) + "] }"@,
    }
}

fn push_values(out: &mut String, vs: &Vec<Value>)
    ensures
        final(out)@ == old(out)@ + values_text(views::views(vs@), vs@.len() as int),
{
    let ghost m = views::views(vs@);
    let mut i: usize = 0;
    assert(out@ =~= old(out)@ + values_text(m, 0));
    while i < vs.len()
        invariant
            i <= vs@.len(),
            m == views::views(vs@),
            out@ == old(out)@ + values_text(m, i as int),
        decreases vs.len() - i,
    {
        assert(m[i as int] == vs@[i as int]@);
        if i > 0 {
            out.append(", ");
        }
        out.append(describe(&vs[i]).as_str());
        i += 1;
        assert(out@ =~= old(out)@ + values_text(m, i as int));
    }
}

fn push_entries(out: &mut String, es: &Vec<(String, Value)>)
    ensures
        final(out)@ == old(out)@ + entries_text(object::entries_model(es@), es@.len() as int),
{
    let ghost m = object::entries_model(es@);
    let mut i: usize = 0;
    assert(out@ =~= old(out)@ + entries_text(m, 0));
    while i < es.len()
        invariant
            i <= es@.len(),
            m == object::entries_model(es@),
            out@ == old(out)@ + entries_text(m, i as int),
        decreases es.len() - i,
    {
        assert(m[i as int] == (es@[i as int].0@, es@[i as int].1@));
        if i > 0 {
            out.append(", ");
        }
        out.append("(");
        out.append(str_debug(es[i].0.as_str()).as_str());
        out.append(", ");
        out.append(describe(&es[i].1).as_str());
        out.append(")");
        i += 1;
        assert(out@ =~= old(out)@ + entries_text(m, i as int));
    }
}

pub(crate) fn push_object(out: &mut String, o: &Obj)
    ensures
        final(out)@ == old(out)@ + object_text(o@),
{
    match o {
        Obj::Array(vs) => {
            assert(views::views(vs@).len() == vs@.len());
            out.append("Array([");
            push_values(out, vs);
            out.append("])");
        },
        Obj::Dict(es) => {
            out.append("Map([");
            push_entries(out, es);
            out.append("])");
        },
        Obj::Struct(es) => {
            out.append("Struct([");
            push_entries(out, es);
            out.append("])");
        },
        Obj::Closure { function_id, upvalues } => {
            assert(views::views(upvalues@).len() == upvalues@.len());
            out.append("Closure { function_id: ");
            push_dec(out, *function_id as u64);
            out.append(", upvalues: [");
            push_values(out, upvalues);
            out.append("] }");
        },
    }
    assert(out@ =~= old(out)@ + object_text(o@));
}

/// The name of an arithmetic opcode.
pub open spec fn arith_name(op: Opcode) -> Seq<char> {
    match op {
        Opcode::Add => "Add"@,
        Opcode::Sub => "Sub"@,
        Opcode::Mul => "Mul"@,
        Opcode::Div => "Div"@,
        _ => "Mod"@,
    }
}

pub(crate) fn arith_str(op: Opcode) -> (r: &'static str)
    ensures
        r@ == arith_name(op),
{
    match op {
        Opcode::Add => "Add",
        Opcode::Sub => "Sub",
        Opcode::Mul => "Mul",
        Opcode::Div => "Div",
        _ => "Mod",
    }
}

/// A complaint about one value.
pub open spec fn about(prefix: Seq<char>, v: ValueModel) -> Seq<char> {
    prefix + value::value_text(v)
}

pub(crate) fn complain(prefix: &str, v: &Value) -> (r: String)
    ensures
        r@ == about(prefix@, v@),
{
    let mut s = prefix.to_owned();
    s.append(describe(v).as_str());
    s
}

} // verus!
