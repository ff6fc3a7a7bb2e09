//! What a build without errors promises, and what the constants of a module are.

use crate::ast::{BinOp, DeclModel, ExprKindModel, ExprModel, LitModel};
use crate::bytecode;
use crate::bytecode::FunctionModel;
use crate::codegen;
use crate::compile;
use crate::consteval;
use crate::diag;
use crate::diag::{DiagnosticModel, Severity};
use crate::emitted;
use crate::faithful;
use crate::ffi::BindingModel;
use crate::float;
use crate::gc::heap::HeapModel;
use crate::meaning;
use crate::meaning::lit_value;
use crate::resolve;
use crate::running;
use crate::scoping;
use crate::source::FileId;
use crate::typeck;
use crate::typing;
use crate::vm::frame;
use crate::vm::machine;
use crate::vm::step;
use crate::vm::step::{MachineModel, StopModel};
use crate::vm::value::ValueModel;
use vstd::prelude::*;

verus! {

// --- constants --------------------------------------------------------------------------------

/// The value of an operation on two constants: what it means, where integers are ordered
/// exactly and floats are equal as numbers.
pub open spec fn makes(op: BinOp, a: ValueModel, b: ValueModel) -> Option<ValueModel> {
    if meaning::orders_ints(op, a, b) {
        Some(ValueModel::Bool(meaning::int_compares(op, a->Int_0 as int, b->Int_0 as int)))
    } else if meaning::equates_floats(op, a, b) {
        Some(ValueModel::Bool(float::same(a->Float_0, b->Float_0) == (op == BinOp::Eq)))
    } else {
        meaning::operated(op, a, b)
    }
}

/// The value of a constant expression, where names have values.
pub open spec fn denoted(e: ExprModel, env: Map<Seq<char>, LitModel>) -> Option<ValueModel>
    decreases e,
{
    match e.kind {
        ExprKindModel::Lit(l) => Some(lit_value(l)),
        ExprKindModel::Ident(n) => if env.dom().contains(n) {
            Some(lit_value(env[n]))
        } else {
            None
        },
        ExprKindModel::Binary(op, l, r) => match (denoted(*l.it, env), denoted(*r.it, env)) {
            (Some(a), Some(b)) => makes(op, a, b),
            _ => None,
        },
        ExprKindModel::Unary(op, x) => match denoted(*x.it, env) {
            Some(a) => meaning::turned(op, a),
            None => None,
        },
        _ => None,
    }
}

/// A constant expression is evaluated to what it denotes.
pub proof fn law_constants_denote(e: ExprModel, env: Map<Seq<char>, LitModel>)
    ensures
        consteval::value_of(e, env) matches Ok(v) ==> denoted(e, env) == Some(lit_value(v)),
    decreases e,
{
    match e.kind {
        ExprKindModel::Binary(op, l, r) => {
            law_constants_denote(*l.it, env);
            law_constants_denote(*r.it, env);
            if let (Ok(a), Ok(b)) = (consteval::value_of(*l.it, env), consteval::value_of(*r.it, env)) {
                meaning::law_constants_agree(op, a, b);
            }
        },
        ExprKindModel::Unary(op, x) => {
            law_constants_denote(*x.it, env);
            if let Ok(a) = consteval::value_of(*x.it, env) {
                meaning::law_constants_turn(op, a);
            }
        },
        _ => {},
    }
}

/// Whether an expression is made of literals, known names and operators.
pub open spec fn is_constant(e: ExprModel, env: Map<Seq<char>, LitModel>) -> bool
    decreases e,
{
    match e.kind {
        ExprKindModel::Lit(_) => true,
        ExprKindModel::Ident(n) => env.dom().contains(n),
        ExprKindModel::Binary(_, l, r) => is_constant(*l.it, env) && is_constant(*r.it, env),
        ExprKindModel::Unary(_, x) => is_constant(*x.it, env),
        _ => false,
    }
}

/// Only expressions of literals, known names and operators are constants. A calculation with
/// integers has a value exactly where its operands have, and it means something; so has one
/// with floats that is no remainder.
pub proof fn law_constants_are_calculated(e: ExprModel, env: Map<Seq<char>, LitModel>)
    ensures
        consteval::value_of(e, env) is Ok ==> is_constant(e, env),
        e.kind matches ExprKindModel::Lit(l) ==> consteval::value_of(e, env) is Ok,
        e.kind matches ExprKindModel::Ident(n) ==> (consteval::value_of(e, env) is Ok <==> env.dom().contains(n)),
        e.kind matches ExprKindModel::Binary(op, l, r) ==> match (
            consteval::value_of(*l.it, env),
            consteval::value_of(*r.it, env),
        ) {
            (Ok(a), Ok(b)) => {
                &&& meaning::arithmetic(op) && a is Int && b is Int ==> (consteval::value_of(e, env) is Ok <==> meaning::operated(
                    op,
                    lit_value(a),
                    lit_value(b),
                ) is Some)
                &&& meaning::arithmetic(op) && op != BinOp::Mod && a is Float && b is Float ==> consteval::value_of(e, env) is Ok
                &&& meaning::ordering(op) && a is Int && b is Int ==> consteval::value_of(e, env) is Ok
                &&& !meaning::arithmetic(op) && !meaning::ordering(op) && a is Bool && b is Bool ==> consteval::value_of(e, env) is Ok
            },
            _ => consteval::value_of(e, env) is Err,
        },
        e.kind matches ExprKindModel::Unary(op, x) ==> match consteval::value_of(*x.it, env) {
            Ok(a) => consteval::value_of(e, env) is Ok <==> meaning::turned(op, lit_value(a)) is Some,
            Err(_) => consteval::value_of(e, env) is Err,
        },
    decreases e,
{
    match e.kind {
        ExprKindModel::Binary(op, l, r) => {
            law_constants_are_calculated(*l.it, env);
            law_constants_are_calculated(*r.it, env);
            if let (Ok(a), Ok(b)) = (consteval::value_of(*l.it, env), consteval::value_of(*r.it, env)) {
                meaning::law_constants_agree(op, a, b);
            }
        },
        ExprKindModel::Unary(op, x) => {
            law_constants_are_calculated(*x.it, env);
            if let Ok(a) = consteval::value_of(*x.it, env) {
                meaning::law_constants_turn(op, a);
            }
        },
        _ => {},
    }
}

/// Whether a declaration is of a constant.
pub open spec fn is_const(d: DeclModel, n: Seq<char>) -> bool {
    d is Const && d->Const_0.name == n
}

/// A constant has the value of its initializer, where the constants before it have theirs,
/// until another of its name is declared.
pub proof fn law_constants_have_their_initializers(ds: Seq<DeclModel>, d: Seq<DiagnosticModel>, k: int, i: int)
    requires
        0 <= i < k <= ds.len(),
        ds[i] is Const,
        forall|j: int| i < j < k ==> !is_const(#[trigger] ds[j], ds[i]->Const_0.name),
    ensures
        ({
            let c = ds[i]->Const_0;
            let before = consteval::consts_of(ds, i, d).0;
            let env = consteval::consts_of(ds, k, d).0;
            &&& consteval::value_of(c.init, before) matches Ok(v) ==> env.dom().contains(c.name) && env[c.name] == v
            &&& consteval::value_of(c.init, before) is Err ==> (env.dom().contains(c.name) <==> before.dom().contains(c.name))
        }),
    decreases k,
{
    if i < k - 1 {
        law_constants_have_their_initializers(ds, d, k - 1, i);
        assert(!is_const(ds[k - 1], ds[i]->Const_0.name));
    }
}

/// There is a complaint for every constant without a value, at its initializer, and no other.
pub proof fn law_constants_without_value_are_told(ds: Seq<DeclModel>, d: Seq<DiagnosticModel>, k: int)
    requires
        0 <= k <= ds.len(),
    ensures
        d.is_prefix_of(consteval::consts_of(ds, k, d).1),
        forall|i: int|
            d.len() <= i < consteval::consts_of(ds, k, d).1.len() ==> (#[trigger] consteval::consts_of(ds, k, d).1[i]).severity
                == Severity::Error,
        consteval::consts_of(ds, k, d).1.len() == d.len() <==> all_have_values(ds, d, k),
    decreases k,
{
    let t = consteval::consts_of(ds, k, d).1;
    if k > 0 {
        law_constants_without_value_are_told(ds, d, k - 1);
        let b = consteval::consts_of(ds, k - 1, d).1;
        assert(t.take(d.len() as int) =~= b.take(d.len() as int));
        assert(all_have_values(ds, d, k) <==> all_have_values(ds, d, k - 1) && has_value(ds, d, k - 1)) by {
            if all_have_values(ds, d, k) {
                assert(has_value(ds, d, k - 1));
                assert forall|i: int| 0 <= i < k - 1 implies #[trigger] has_value(ds, d, i) by {}
            }
        }
    }
    assert(t.take(d.len() as int) =~= d);
}

/// Whether a declaration is no constant, or one that has a value.
pub open spec fn has_value(ds: Seq<DeclModel>, d: Seq<DiagnosticModel>, i: int) -> bool {
    ds[i] matches DeclModel::Const(c) ==> consteval::value_of(c.init, consteval::consts_of(ds, i, d).0) is Ok
}

/// Whether the first `k` declarations are so.
pub open spec fn all_have_values(ds: Seq<DeclModel>, d: Seq<DiagnosticModel>, k: int) -> bool {
    forall|i: int| 0 <= i < k ==> #[trigger] has_value(ds, d, i)
}

// --- clean builds -------------------------------------------------------------------------------

/// The complaints about a source before its types are checked.
pub open spec fn resolved(file: FileId, b: Seq<u8>) -> Seq<DiagnosticModel> {
    let (m, d) = compile::parsed_source(file, b);
    resolve::in_decls(m.decls, m.decls.len() as int, resolve::globals_of(m.decls, m.decls.len() as int), d)
}

proof fn lemma_errors_stay(a: Seq<DiagnosticModel>, b: Seq<DiagnosticModel>)
    requires
        a.is_prefix_of(b),
        !diag::holds_error(b),
    ensures
        !diag::holds_error(a),
{
    if diag::holds_error(a) {
        let i = choose|i: int| 0 <= i < a.len() && (#[trigger] a[i]).severity == Severity::Error;
        assert(b[i] == a[i]);
    }
}

/// Where a source builds without errors, it was read without errors, every name that its
/// functions read is declared in it, its types are right, and its constants have values; and
/// the code is that of the typed module.
pub proof fn law_clean_builds_are_sound(file: FileId, b: Seq<u8>, n: Seq<char>)
    requires
        !diag::holds_error(compile::built(file, b).diagnostics),
    ensures
        ({
            let (m, d) = compile::parsed_source(file, b);
            let (typed, e) = typeck::checked(m, resolved(file, b));
            &&& !diag::holds_error(d)
            &&& scoping::read_in(m.decls, m.decls.len() as int, n) ==> scoping::declared(m.decls, m.decls.len() as int, n)
            &&& typing::well_typed(m, typed)
            &&& all_have_values(typed.decls, e, typed.decls.len() as int)
            &&& compile::built(file, b).bytecode == codegen::compiled(typed.decls, b)
        }),
{
    let (m, d) = compile::parsed_source(file, b);
    let k = m.decls.len() as int;
    let g = resolve::globals_of(m.decls, k);
    let d1 = resolved(file, b);
    let (typed, d2) = typeck::checked(m, d1);
    let j = typed.decls.len() as int;
    let d3 = consteval::consts_of(typed.decls, j, d2).1;
    law_constants_without_value_are_told(typed.decls, d2, j);
    lemma_errors_stay(d2, d3);
    typing::law_accepted_modules_are_well_typed(m, d1);
    lemma_errors_stay(d1, d2);
    scoping::lemma_quiet(m.decls, g, d, n);
    lemma_errors_stay(d, d1);
    scoping::law_quiet_modules_are_closed(m.decls, g, d, n);
    scoping::law_symbols_are_declared(m.decls, k, n);
    if d2.len() > d1.len() {
        assert(d2[d1.len() as int].severity == Severity::Error);
    }
    assert(d2 =~= d1);
    if d3.len() > d2.len() {
        assert(d3[d2.len() as int].severity == Severity::Error);
    }
}

/// Running a function of a clean build gives what the function means.
pub proof fn law_clean_builds_run<F>(
    file: FileId,
    b: Seq<u8>,
    table: Seq<BindingModel<F>>,
    name: Seq<char>,
    args: Seq<ValueModel>,
    heap: HeapModel,
    fuel: nat,
    h: HeapModel,
    v: ValueModel,
) -> (n: nat)
    requires
        ({
            let ds = typeck::checked(compile::parsed_source(file, b).0, resolved(file, b)).0.decls;
            let p = faithful::program(ds, ds.len() as int);
            &&& emitted::addressable(ds, b)
            &&& p.dom().contains(name)
            &&& args.len() == p[name].params.len()
            &&& running::x_call(p[name], args, heap, p, fuel) == Some((h, v))
        }),
    ensures
        ({
            let ds = typeck::checked(compile::parsed_source(file, b).0, resolved(file, b)).0.decls;
            let m = compile::built(file, b).bytecode;
            let id = codegen::fn_places(ds, ds.len() as int)[name];
            let start = MachineModel {
                frames: seq![frame::entry_frame(id, m.functions[id as int].max_register as int, args, None)],
                heap,
            };
            forall|k: nat| k >= n ==> #[trigger] step::ran(m, table, start, k) == (
                MachineModel { frames: Seq::empty(), heap: h },
                StopModel::Returned(v),
            )
        }),
{
    let ds = typeck::checked(compile::parsed_source(file, b).0, resolved(file, b)).0.decls;
    faithful::law_compiling_keeps_meaning(ds, b, table, name, args, heap, fuel, h, v)
}

/// Whether a declaration is of a function of a name.
pub open spec fn is_fn(d: DeclModel, n: Seq<char>) -> bool {
    d is Fn && d->Fn_0.name == n
}

/// Whether one function has a name, at a place among the declarations.
pub open spec fn only_at(ds: Seq<DeclModel>, n: Seq<char>, i: int) -> bool {
    &&& 0 <= i < ds.len()
    &&& is_fn(ds[i], n)
    &&& forall|j: int| 0 <= j < ds.len() && j != i ==> !is_fn(#[trigger] ds[j], n)
}

/// Whether the function of a name stands where it was counted.
spec fn in_place(fs: Seq<FunctionModel>, n: Seq<char>, there: bool, at: int) -> bool {
    &&& there ==> 0 <= at < fs.len()
    &&& forall|j: int| 0 <= j < fs.len() ==> ((#[trigger] fs[j]).name == n <==> there && j == at)
}

proof fn lemma_in_place(ds: Seq<DeclModel>, k: int, cx: codegen::Cx, n: Seq<char>, i: int)
    requires
        0 <= k <= ds.len(),
        only_at(ds, n, i),
    ensures
        codegen::fn_count(ds, k) >= 0,
        codegen::g_decls(ds, k, cx).0.len() == codegen::fn_count(ds, k),
        in_place(codegen::g_decls(ds, k, cx).0, n, i < k, codegen::fn_count(ds, i)),
        i < k ==> codegen::fn_places(ds, k).dom().contains(n) && codegen::fn_places(ds, k)[n] == (codegen::fn_count(ds, i)
            % 0x1_0000) as u16,
        i < k ==> faithful::program(ds, k).dom().contains(n) && DeclModel::Fn(faithful::program(ds, k)[n]) == ds[i],
    decreases k,
{
    if k > 0 {
        lemma_in_place(ds, k - 1, cx, n, i);
        let before = codegen::g_decls(ds, k - 1, cx);
        let all = codegen::g_decls(ds, k, cx).0;
        if let DeclModel::Fn(f) = ds[k - 1] {
            let g = codegen::g_fn(f, before.1, before.2, cx).0;
            assert(all == before.0.push(g));
            assert(g.name == f.name);
            if i != k - 1 {
                assert(!is_fn(ds[k - 1], n));
            }
            assert forall|j: int| 0 <= j < all.len() implies ((#[trigger] all[j]).name == n <==> i < k && j == codegen::fn_count(
                ds,
                i,
            )) by {
                if j < before.0.len() {
                    assert(all[j] == before.0[j]);
                }
            }
        }
    }
}

proof fn lemma_found(index: Seq<(Seq<char>, u16)>, n: Seq<char>, i: int, at: int)
    requires
        0 <= i <= at < index.len(),
        index[at].0 == n,
        forall|j: int| i <= j < at ==> (#[trigger] index[j]).0 != n,
    ensures
        bytecode::id_from(index, n, i) == Some(index[at].1),
    decreases at - i,
{
    if i < at {
        assert(index[i].0 != n);
        lemma_found(index, n, i + 1, at);
    }
}

/// Calling the one function of a name in a compiled module gives what the function means, as
/// long as a machine can take so many steps.
pub proof fn law_calls_by_name_run<F>(
    ds: Seq<DeclModel>,
    src: Seq<u8>,
    table: Seq<BindingModel<F>>,
    name: Seq<char>,
    i: int,
    args: Seq<ValueModel>,
    heap: HeapModel,
    fuel: nat,
    h: HeapModel,
    v: ValueModel,
) -> (n: nat)
    requires
        emitted::addressable(ds, src),
        only_at(ds, name, i),
        args.len() == ds[i]->Fn_0.params.len(),
        running::x_call(ds[i]->Fn_0, args, heap, faithful::program(ds, ds.len() as int), fuel) == Some((h, v)),
    ensures
        n <= u64::MAX ==> machine::call_from(codegen::compiled(ds, src), table, heap, name, args) == (
            MachineModel { frames: Seq::empty(), heap: h },
            StopModel::Returned(v),
        ),
{
    let k = ds.len() as int;
    let m = codegen::compiled(ds, src);
    let cx = codegen::Cx { index: codegen::fn_places(ds, k), src, tops: codegen::fn_count(ds, k) };
    let (tops, consts, fns) = codegen::g_decls(ds, k, cx);
    let at = codegen::fn_count(ds, i);
    lemma_in_place(ds, k, cx, name, i);
    let n = faithful::law_compiling_keeps_meaning(ds, src, table, name, args, heap, fuel, h, v);
    assert forall|j: int| 0 <= j < at implies (#[trigger] m.index[j]).0 != name by {
        assert(m.functions[j] == tops[j]);
        assert(tops[j].name != name);
    }
    assert(m.functions[at] == tops[at]);
    assert(m.index[at].0 == name);
    lemma_found(m.index, name, 0, at);
    n
}

} // verus!
