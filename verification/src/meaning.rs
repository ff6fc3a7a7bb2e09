//! What operators mean, in integers, and that the machine, the folding of constants and the
//! constant evaluator agree on it.

use crate::ast::{BinOp, LitModel, UnOp};
use crate::bytecode::Opcode;
use crate::codegen;
use crate::consteval;
use crate::float;
use crate::gc::heap::HeapModel;
use crate::ir;
use crate::ir::IrConst;
use crate::vm::step;
use crate::vm::value::ValueModel;
use vstd::prelude::*;

verus! {

/// The integer of 64 bits with a sign that differs from `x` by a multiple of 2^64.
pub open spec fn wrapped(x: int) -> int {
    let r = x % 0x1_0000_0000_0000_0000;
    if r > i64::MAX {
        r - 0x1_0000_0000_0000_0000
    } else {
        r
    }
}

/// The absolute value.
pub open spec fn size(x: int) -> int {
    if x < 0 {
        -x
    } else {
        x
    }
}

/// The quotient, cut off towards zero.
pub open spec fn truncated(a: int, b: int) -> int {
    if (a < 0) == (b < 0) {
        size(a) / size(b)
    } else {
        -(size(a) / size(b))
    }
}

/// What an arithmetic operator makes of two integers; `None` where there is no quotient, or
/// one that does not fit.
pub open spec fn int_result(op: BinOp, a: int, b: int) -> Option<int> {
    match op {
        BinOp::Add => Some(wrapped(a + b)),
        BinOp::Sub => Some(wrapped(a - b)),
        BinOp::Mul => Some(wrapped(a * b)),
        BinOp::Div => if b == 0 || truncated(a, b) > i64::MAX {
            None
        } else {
            Some(truncated(a, b))
        },
        BinOp::Mod => if b == 0 || truncated(a, b) > i64::MAX {
            None
        } else {
            Some(a - truncated(a, b) * b)
        },
        _ => None,
    }
}

/// What an arithmetic operator makes of two floats.
pub open spec fn float_result(op: BinOp, a: u64, b: u64) -> Option<u64> {
    match op {
        BinOp::Add => Some(float::sum(a, b)),
        BinOp::Sub => Some(float::sum(a, float::negated(b))),
        BinOp::Mul => Some(float::product(a, b)),
        BinOp::Div => Some(float::quotient(a, b)),
        BinOp::Mod => Some(float::remainder(a, b)),
        _ => None,
    }
}

/// Whether a comparison holds of two floats.
pub open spec fn float_compares(op: BinOp, a: u64, b: u64) -> bool {
    match op {
        BinOp::Lt => float::less(a, b),
        BinOp::Le => float::less(a, b) || float::same(a, b),
        BinOp::Gt => float::less(b, a),
        _ => float::less(b, a) || float::same(b, a),
    }
}

/// Whether a comparison holds of two integers.
pub open spec fn int_compares(op: BinOp, a: int, b: int) -> bool {
    match op {
        BinOp::Lt => a < b,
        BinOp::Le => a <= b,
        BinOp::Gt => b < a,
        _ => b <= a,
    }
}

/// Whether an operator calculates.
pub open spec fn arithmetic(op: BinOp) -> bool {
    op == BinOp::Add || op == BinOp::Sub || op == BinOp::Mul || op == BinOp::Div || op == BinOp::Mod
}

/// Whether an operator orders.
pub open spec fn ordering(op: BinOp) -> bool {
    op == BinOp::Lt || op == BinOp::Le || op == BinOp::Gt || op == BinOp::Ge
}

/// The value of a binary operation; `None` where it has none. A running program orders
/// integers as the floats nearest to them.
pub open spec fn operated(op: BinOp, a: ValueModel, b: ValueModel) -> Option<ValueModel> {
    if arithmetic(op) {
        match (a, b) {
            (ValueModel::Int(x), ValueModel::Int(y)) => match int_result(op, x as int, y as int) {
                Some(v) => Some(ValueModel::Int(v as i64)),
                None => None,
            },
            (ValueModel::Float(x), ValueModel::Float(y)) => match float_result(op, x, y) {
                Some(v) => Some(ValueModel::Float(v)),
                None => None,
            },
            _ => None,
        }
    } else if ordering(op) {
        match (a, b) {
            (ValueModel::Int(x), ValueModel::Int(y)) => Some(
                ValueModel::Bool(float_compares(op, float::of_int(x as int), float::of_int(y as int))),
            ),
            (ValueModel::Float(x), ValueModel::Float(y)) => Some(ValueModel::Bool(float_compares(op, x, y))),
            _ => None,
        }
    } else {
        match op {
            BinOp::Eq => Some(ValueModel::Bool(a == b)),
            BinOp::Ne => Some(ValueModel::Bool(a != b)),
            BinOp::And => match (a, b) {
                (ValueModel::Bool(x), ValueModel::Bool(y)) => Some(ValueModel::Bool(x && y)),
                _ => None,
            },
            _ => match (a, b) {
                (ValueModel::Bool(x), ValueModel::Bool(y)) => Some(ValueModel::Bool(x || y)),
                _ => None,
            },
        }
    }
}

/// The value of a unary operation.
pub open spec fn turned(op: UnOp, a: ValueModel) -> Option<ValueModel> {
    match (op, a) {
        (UnOp::Neg, ValueModel::Int(x)) => Some(ValueModel::Int(wrapped(-x) as i64)),
        (UnOp::Neg, ValueModel::Float(x)) => Some(ValueModel::Float(float::negated(x))),
        (UnOp::Not, ValueModel::Bool(x)) => Some(ValueModel::Bool(!x)),
        _ => None,
    }
}

proof fn lemma_wrapped(x: int)
    ensures
        i64::MIN <= wrapped(x) <= i64::MAX,
        (wrapped(x) - x) % 0x1_0000_0000_0000_0000 == 0,
        i64::MIN <= x <= i64::MAX ==> wrapped(x) == x,
        i64::MAX < x <= i64::MAX + 0x1_0000_0000_0000_0000 ==> wrapped(x) == x - 0x1_0000_0000_0000_0000,
        i64::MIN - 0x1_0000_0000_0000_0000 <= x < i64::MIN ==> wrapped(x) == x + 0x1_0000_0000_0000_0000,
{
}

proof fn lemma_division(a: int, b: int)
    requires
        b != 0,
    ensures
        size(a - truncated(a, b) * b) < size(b),
        a - truncated(a, b) * b == 0 || ((a - truncated(a, b) * b < 0) == (a < 0)),
        a - truncated(a, b) * b == if a < 0 {
            -(size(a) % size(b))
        } else {
            size(a) % size(b)
        },
        -size(a) <= truncated(a, b) <= size(a),
{
    let m = size(a);
    let n = size(b);
    let q = m / n;
    vstd::arithmetic::div_mod::lemma_fundamental_div_mod(m, n);
    vstd::arithmetic::div_mod::lemma_mod_bound(m, n);
    assert(m == n * q + m % n);
    assert(0 <= q <= m) by (nonlinear_arith)
        requires
            n >= 1,
            m >= 0,
            q == m / n,
    ;
    assert(truncated(a, b) * b == if a < 0 { -(n * q) } else { n * q }) by (nonlinear_arith)
        requires
            n == (if b < 0 { -b } else { b }),
            truncated(a, b) == (if (a < 0) == (b < 0) { q } else { -q }),
    ;
}

/// Folding, the machine and the constant evaluator calculate with the same integers.
proof fn lemma_ints(a: i64, b: i64)
    ensures
        a.wrapping_add(b) == wrapped(a + b),
        a.wrapping_sub(b) == wrapped(a - b),
        a.wrapping_mul(b) == wrapped(a * b),
        0i64.wrapping_sub(a) == wrapped(-a),
        a.checked_div(b) == (match int_result(BinOp::Div, a as int, b as int) {
            Some(v) => Some(v as i64),
            None => None::<i64>,
        }),
        a.checked_rem(b) == (match int_result(BinOp::Mod, a as int, b as int) {
            Some(v) => Some(v as i64),
            None => None::<i64>,
        }),
        forall|op: BinOp| (#[trigger] int_result(op, a as int, b as int)) matches Some(v) ==> i64::MIN <= v <= i64::MAX,
{
    lemma_wrapped(a + b);
    lemma_wrapped(a - b);
    lemma_wrapped(a * b);
    lemma_wrapped(0 - a);
    if b != 0 {
        lemma_division(a as int, b as int);
        let m = size(a as int);
        let n = size(b as int);
        if a == 0 {
            assert(0int / n == 0) by (nonlinear_arith)
                requires
                    n > 0,
            ;
        }
        assert(m / n <= m && (n >= 2 ==> m / n <= m / 2)) by (nonlinear_arith)
            requires
                m >= 0,
                n >= 1,
        ;
        if a == i64::MIN && b == -1 {
            assert(m / n == m);
        }
        if a != i64::MIN {
            assert(m <= i64::MAX);
        } else if n >= 2 {
            assert(m / n <= i64::MAX);
        }
    }
}

/// The machine computes what an operator means: its instruction for the operator gives that
/// value, and on integers without a quotient it gives none.
pub proof fn law_machine_operators(op: BinOp, a: ValueModel, b: ValueModel, heap: HeapModel)
    ensures
        operated(op, a, b) matches Some(v) ==> step::binary(codegen::binop_code(op), heap, a, b) == Ok::<
            ValueModel,
            step::Trouble,
        >(v),
        arithmetic(op) && operated(op, a, b) is None ==> step::binary(codegen::binop_code(op), heap, a, b) is Err,
{
    match (a, b) {
        (ValueModel::Int(x), ValueModel::Int(y)) => lemma_ints(x, y),
        _ => {},
    }
}

/// So for operators with one operand.
pub proof fn law_machine_turns(op: UnOp, a: ValueModel, heap: HeapModel)
    ensures
        turned(op, a) matches Some(v) ==> step::unary(codegen::unop_code(op), heap, a) == Ok::<ValueModel, step::Trouble>(v),
        turned(op, a) is None ==> step::unary(codegen::unop_code(op), heap, a) is Err,
{
    if let ValueModel::Int(x) = a {
        lemma_ints(x, 0);
    }
}

/// On integers, the machine adds, subtracts and multiplies up to multiples of 2^64, and
/// divides towards zero with what is left over, which is smaller than the divisor and has the
/// sign of the dividend.
pub proof fn law_machine_arithmetic(a: i64, b: i64)
    ensures
        step::int_arith(Opcode::Add, a, b) matches Ok(ValueModel::Int(v)) && (v - (a + b)) % 0x1_0000_0000_0000_0000 == 0,
        step::int_arith(Opcode::Sub, a, b) matches Ok(ValueModel::Int(v)) && (v - (a - b)) % 0x1_0000_0000_0000_0000 == 0,
        step::int_arith(Opcode::Mul, a, b) matches Ok(ValueModel::Int(v)) && (v - a * b) % 0x1_0000_0000_0000_0000 == 0,
        step::int_arith(Opcode::Div, a, b) is Ok <==> b != 0 && !(a == i64::MIN && b == -1),
        step::int_arith(Opcode::Mod, a, b) is Ok <==> b != 0 && !(a == i64::MIN && b == -1),
        step::int_arith(Opcode::Div, a, b) matches Ok(q) ==> q is Int && (step::int_arith(Opcode::Mod, a, b) matches Ok(
            ValueModel::Int(r),
        ) && a == (q->Int_0) * b + r && size(r as int) < size(b as int) && (r == 0 || ((r < 0) == (a < 0)))),
{
    lemma_ints(a, b);
    lemma_wrapped(a + b);
    lemma_wrapped(a - b);
    lemma_wrapped(a * b);
    if b != 0 {
        lemma_division(a as int, b as int);
        let m = size(a as int);
        let n = size(b as int);
        assert(n == 1 ==> m / n == m);
        assert(n >= 2 ==> m / n <= m / 2) by (nonlinear_arith)
            requires
                m >= 0,
                n >= 1,
        ;
    }
}

// --- constants --------------------------------------------------------------------

/// The value that a constant of the intermediate representation stands for.
pub open spec fn ir_value(c: IrConst) -> Option<ValueModel> {
    match c {
        IrConst::Nil => Some(ValueModel::Nil),
        IrConst::Bool(x) => Some(ValueModel::Bool(x)),
        IrConst::Int(x) => Some(ValueModel::Int(x)),
        IrConst::Float(x) => Some(ValueModel::Float(x)),
        _ => None,
    }
}

/// The value that a literal stands for.
pub open spec fn lit_value(l: LitModel) -> ValueModel {
    match l {
        LitModel::Nil => ValueModel::Nil,
        LitModel::Bool(x) => ValueModel::Bool(x),
        LitModel::Int(x) => ValueModel::Int(x),
        LitModel::Float(x) => ValueModel::Float(x),
        LitModel::Str(x) => ValueModel::Str(x),
    }
}

/// Whether an operation orders integers.
pub open spec fn orders_ints(op: BinOp, a: ValueModel, b: ValueModel) -> bool {
    ordering(op) && a is Int && b is Int
}

/// Whether an operation tells whether floats are equal: as numbers where it is folded, by
/// their bits where it runs.
pub open spec fn equates_floats(op: BinOp, a: ValueModel, b: ValueModel) -> bool {
    (op == BinOp::Eq || op == BinOp::Ne) && a is Float && b is Float
}

/// Folding a binary operation gives what the operation means, which is what the machine
/// computes; integers are ordered exactly, and floats are equal as numbers. It folds every
/// calculation with two integers that has a result.
pub proof fn law_folding_agrees(op: BinOp, l: IrConst, r: IrConst, heap: HeapModel)
    requires
        ir_value(l) is Some,
        ir_value(r) is Some,
    ensures
        ({
            let a = ir_value(l)->0;
            let b = ir_value(r)->0;
            let f = ir::fold_binop(op, l, r);
            &&& f matches Some(c) ==> ir_value(c) is Some
            &&& !orders_ints(op, a, b) && !equates_floats(op, a, b) ==> (f matches Some(c) ==> operated(op, a, b) == ir_value(
                c,
            ) && step::binary(codegen::binop_code(op), heap, a, b) == Ok::<ValueModel, step::Trouble>(ir_value(c)->0))
            &&& orders_ints(op, a, b) ==> f == Some(IrConst::Bool(int_compares(op, a->Int_0 as int, b->Int_0 as int)))
            &&& equates_floats(op, a, b) ==> f == Some(
                IrConst::Bool(float::same(a->Float_0, b->Float_0) == (op == BinOp::Eq)),
            )
            &&& a is Int && b is Int && arithmetic(op) ==> (f is Some <==> operated(op, a, b) is Some)
            &&& a is Float && b is Float && arithmetic(op) && op != BinOp::Mod ==> f is Some
        }),
{
    let a = ir_value(l)->0;
    let b = ir_value(r)->0;
    match (l, r) {
        (IrConst::Int(x), IrConst::Int(y)) => lemma_ints(x, y),
        _ => {},
    }
    law_machine_operators(op, a, b, heap);
}

/// So for operations with one operand.
pub proof fn law_folding_turns(op: UnOp, x: IrConst, heap: HeapModel)
    requires
        ir_value(x) is Some,
    ensures
        ({
            let f = ir::fold_unop(op, x);
            &&& f matches Some(c) ==> ir_value(c) == turned(op, ir_value(x)->0) && step::unary(
                codegen::unop_code(op),
                heap,
                ir_value(x)->0,
            ) == Ok::<ValueModel, step::Trouble>(ir_value(c)->0)
            &&& f is Some <==> turned(op, ir_value(x)->0) is Some
        }),
{
    if let IrConst::Int(v) = x {
        lemma_ints(v, 0);
    }
    law_machine_turns(op, ir_value(x)->0, heap);
}

/// Folding calculates with integers: up to multiples of 2^64, and towards zero.
pub proof fn law_folding_arithmetic(a: i64, b: i64)
    ensures
        ir::fold_ints(BinOp::Add, a, b) matches Some(IrConst::Int(v)) && (v - (a + b)) % 0x1_0000_0000_0000_0000 == 0,
        ir::fold_ints(BinOp::Sub, a, b) matches Some(IrConst::Int(v)) && (v - (a - b)) % 0x1_0000_0000_0000_0000 == 0,
        ir::fold_ints(BinOp::Mul, a, b) matches Some(IrConst::Int(v)) && (v - a * b) % 0x1_0000_0000_0000_0000 == 0,
        ir::fold_ints(BinOp::Div, a, b) is Some <==> b != 0 && !(a == i64::MIN && b == -1),
        ir::fold_ints(BinOp::Mod, a, b) is Some <==> b != 0 && !(a == i64::MIN && b == -1),
        ir::fold_ints(BinOp::Div, a, b) matches Some(q) ==> q is Int && (ir::fold_ints(BinOp::Mod, a, b) matches Some(
            IrConst::Int(r),
        ) && a == (q->Int_0) * b + r && size(r as int) < size(b as int) && (r == 0 || ((r < 0) == (a < 0)))),
{
    law_machine_arithmetic(a, b);
}

/// The constant evaluator gives what an operation means; integers are ordered exactly, and
/// floats are equal as numbers.
pub proof fn law_constants_agree(op: BinOp, l: LitModel, r: LitModel)
    ensures
        ({
            let a = lit_value(l);
            let b = lit_value(r);
            let e = consteval::binary(op, l, r);
            &&& !orders_ints(op, a, b) && !equates_floats(op, a, b) ==> (e matches Ok(v) ==> operated(op, a, b) == Some(
                lit_value(v),
            ))
            &&& orders_ints(op, a, b) ==> e == Ok::<LitModel, Seq<char>>(
                LitModel::Bool(int_compares(op, a->Int_0 as int, b->Int_0 as int)),
            )
            &&& equates_floats(op, a, b) ==> e == Ok::<LitModel, Seq<char>>(
                LitModel::Bool(float::same(a->Float_0, b->Float_0) == (op == BinOp::Eq)),
            )
            &&& a is Int && b is Int && arithmetic(op) ==> (e is Ok <==> operated(op, a, b) is Some)
            &&& a is Float && b is Float && arithmetic(op) && op != BinOp::Mod ==> e is Ok
            &&& a is Bool && b is Bool && !arithmetic(op) && !ordering(op) ==> e is Ok
        }),
{
    match (l, r) {
        (LitModel::Int(x), LitModel::Int(y)) => lemma_ints(x, y),
        _ => {},
    }
}

/// So for operations with one operand.
pub proof fn law_constants_turn(op: UnOp, x: LitModel)
    ensures
        consteval::unary(op, x) matches Ok(v) ==> turned(op, lit_value(x)) == Some(lit_value(v)),
        consteval::unary(op, x) is Ok <==> turned(op, lit_value(x)) is Some,
{
    if let LitModel::Int(v) = x {
        lemma_ints(v, 0);
    }
}

} // verus!
