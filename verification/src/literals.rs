//! Which type an integer literal takes: whichever numeric type is called for where it stands.

use crate::ast;
use crate::ast::{BinOp, BlockModel, ExprKindModel, ExprModel, LitModel, StmtKindModel, StmtModel, TypeModel, UnOp};
use crate::diag::DiagnosticModel;
use crate::typeck;
use crate::typeck::{Cx, Scope};
use vstd::prelude::*;

verus! {

/// Whether an expression calculates with integer literals and nothing else.
pub open spec fn of_literals(e: ExprModel) -> bool
    decreases e,
{
    match e.kind {
        ExprKindModel::Lit(LitModel::Int(_)) => true,
        ExprKindModel::Unary(UnOp::Neg, x) => of_literals(*x.it),
        ExprKindModel::Binary(op, l, r) => calculation(op) && of_literals(*l.it) && of_literals(*r.it),
        _ => false,
    }
}

/// Whether an operator calculates.
pub open spec fn calculation(op: BinOp) -> bool {
    match op {
        BinOp::Add | BinOp::Sub | BinOp::Mul | BinOp::Div | BinOp::Mod => true,
        _ => false,
    }
}

/// Whether an operator compares.
pub open spec fn comparison(op: BinOp) -> bool {
    match op {
        BinOp::Eq | BinOp::Ne | BinOp::Lt | BinOp::Le | BinOp::Gt | BinOp::Ge => true,
        _ => false,
    }
}

/// Whether a type is of numbers.
pub open spec fn of_numbers(t: TypeModel) -> bool {
    t is I32 || t is I64 || t is F32 || t is F64
}

proof fn lemma_literal(e: ExprModel)
    ensures
        typeck::int_literal(e) <==> of_literals(e),
    decreases e,
{
    match e.kind {
        ExprKindModel::Unary(_, x) => lemma_literal(*x.it),
        ExprKindModel::Binary(_, l, r) => {
            lemma_literal(*l.it);
            lemma_literal(*r.it);
        },
        _ => {},
    }
}

/// Literals take the numeric type that is called for; where none is, they are `i64`. Nothing
/// is complained about.
pub proof fn law_literals_adapt(e: ExprModel, hint: Option<TypeModel>, env: Scope, cx: Cx, d: Seq<DiagnosticModel>)
    requires
        of_literals(e),
    ensures
        typeck::t_expr(e, hint, env, cx, d).diags == d,
        typeck::t_expr(e, hint, env, cx, d).expr.ty == match hint {
            Some(t) => if of_numbers(t) {
                t
            } else {
                TypeModel::I64
            },
            None => TypeModel::I64,
        },
    decreases e, 1int,
{
    reveal(typeck::t_expr);
    reveal(typeck::t_binary);
    lemma_literal(e);
    match e.kind {
        ExprKindModel::Unary(_, x) => {
            lemma_literal(*x.it);
            law_literals_adapt(*x.it, hint, env, cx, d);
            let u = typeck::t_expr(*x.it, hint, env, cx, d);
            assert(typeck::literal_hint(e, hint) == hint);
            assert(of_numbers(u.expr.ty));
        },
        ExprKindModel::Binary(..) => {
            lemma_calculation(e, hint, env, cx, d);
        },
        _ => {},
    }
}

proof fn lemma_calculation(e: ExprModel, hint: Option<TypeModel>, env: Scope, cx: Cx, d: Seq<DiagnosticModel>)
    requires
        of_literals(e),
        e.kind is Binary,
    ensures
        typeck::t_binary(e, hint, env, cx, d).diags == d,
        typeck::t_binary(e, hint, env, cx, d).expr.ty == match hint {
            Some(t) => if of_numbers(t) {
                t
            } else {
                TypeModel::I64
            },
            None => TypeModel::I64,
        },
    decreases e, 0int,
{
    reveal(typeck::t_binary);
    reveal(typeck::t_expr);
    lemma_literal(e);
    if let ExprKindModel::Binary(op, l, r) = e.kind {
        lemma_literal(*l.it);
        lemma_literal(*r.it);
        law_literals_adapt(*l.it, hint, env, cx, d);
        let a = typeck::t_expr(*l.it, hint, env, cx, d);
        law_literals_adapt(*r.it, Some(a.expr.ty), env, cx, a.diags);
    }
}

proof fn lemma_beside(e: ExprModel, hint: Option<TypeModel>, env: Scope, cx: Cx, d: Seq<DiagnosticModel>)
    ensures
        beside(e, typeck::t_binary(e, hint, env, cx, d), env, cx, d),
{
    reveal(typeck::t_binary);
    reveal(typeck::t_expr);
    if let ExprKindModel::Binary(op, l, r) = e.kind {
        lemma_literal(e);
        lemma_literal(*l.it);
        lemma_literal(*r.it);
        let a = typeck::t_expr(*l.it, None, env, cx, d);
        let b = typeck::t_expr(*r.it, None, env, cx, d);
        if of_literals(*l.it) && !of_literals(*r.it) {
            law_literals_adapt(*l.it, Some(b.expr.ty), env, cx, b.diags);
        }
        if of_literals(*r.it) && !of_literals(*l.it) {
            law_literals_adapt(*r.it, Some(a.expr.ty), env, cx, a.diags);
        }
    }
}

/// Whether only what is wrong with the other operand was complained about.
pub open spec fn beside(e: ExprModel, t: typeck::Typed, env: Scope, cx: Cx, d: Seq<DiagnosticModel>) -> bool {
    match e.kind {
        ExprKindModel::Binary(op, l, r) => {
            let a = typeck::t_expr(*l.it, None, env, cx, d);
            let b = typeck::t_expr(*r.it, None, env, cx, d);
            &&& (calculation(op) || comparison(op)) && of_literals(*l.it) && !of_literals(*r.it) && of_numbers(b.expr.ty)
                ==> t.diags == b.diags
            &&& (calculation(op) || comparison(op)) && of_literals(*r.it) && !of_literals(*l.it) && of_numbers(a.expr.ty)
                ==> t.diags == a.diags
        },
        _ => true,
    }
}

/// Beside something of a numeric type a literal is of that type: nothing is complained about
/// but what is wrong with the other operand.
pub proof fn law_literals_follow_operands(e: ExprModel, hint: Option<TypeModel>, env: Scope, cx: Cx, d: Seq<DiagnosticModel>)
    ensures
        beside(e, typeck::t_expr(e, hint, env, cx, d), env, cx, d),
{
    reveal(typeck::t_expr);
    reveal(typeck::t_binary);
    lemma_beside(e, hint, env, cx, d);
}

/// A literal may be bound to a name, assigned and returned as any numeric type.
pub proof fn law_literals_suit_statements(s: StmtModel, env: Scope, cx: Cx, d: Seq<DiagnosticModel>)
    ensures
        s.kind matches StmtKindModel::Let { name, ty, mutable, init } ==> (of_literals(init) && of_numbers(ty) ==> typeck::t_stmt(
            s,
            env,
            cx,
            d,
        ).diags == d),
        s.kind matches StmtKindModel::Assign(p, v) ==> (of_literals(v) && of_numbers(typeck::t_expr(p, None, env, cx, d).expr.ty)
            ==> typeck::t_stmt(s, env, cx, d).diags == typeck::t_expr(p, None, env, cx, d).diags),
        s.kind matches StmtKindModel::Return(Some(e)) ==> (of_literals(e) && of_numbers(cx.ret) ==> typeck::t_stmt(
            s,
            env,
            cx,
            d,
        ).diags == d),
{
    reveal(typeck::t_stmt);
    reveal(typeck::t_expr);
    match s.kind {
        StmtKindModel::Let { name, ty, mutable, init } => {
            if of_literals(init) {
                law_literals_adapt(init, typeck::annotation(ty), env, cx, d);
            }
        },
        StmtKindModel::Assign(p, v) => {
            lemma_literal(v);
            let a = typeck::t_expr(p, None, env, cx, d);
            if of_literals(v) {
                law_literals_adapt(v, Some(a.expr.ty), env, cx, a.diags);
            }
        },
        StmtKindModel::Return(Some(e)) => {
            if of_literals(e) {
                law_literals_adapt(e, Some(cx.ret), env, cx, d);
            }
        },
        _ => {},
    }
}

/// A literal is handed over as its parameter is, where that is of a numeric type.
pub proof fn law_literals_suit_parameters(es: Seq<ExprModel>, k: int, ps: Seq<TypeModel>, env: Scope, cx: Cx, d: Seq<DiagnosticModel>, i: int)
    requires
        0 <= i < k <= es.len(),
        i < ps.len(),
        of_literals(es[i]),
        of_numbers(ps[i]),
    ensures
        typeck::t_args(es, k, ps, env, cx, d).exprs.len() == k,
        typeck::t_args(es, k, ps, env, cx, d).exprs[i].ty == ps[i],
    decreases k,
{
    reveal(typeck::t_args);
    reveal(typeck::t_expr);
    let before = typeck::t_args(es, k - 1, ps, env, cx, d);
    lemma_as_many(es, k - 1, ps, env, cx, d);
    if i < k - 1 {
        law_literals_suit_parameters(es, k - 1, ps, env, cx, d, i);
    } else {
        law_literals_adapt(es[i], Some(ps[i]), env, cx, before.diags);
    }
}

proof fn lemma_as_many(es: Seq<ExprModel>, k: int, ps: Seq<TypeModel>, env: Scope, cx: Cx, d: Seq<DiagnosticModel>)
    requires
        0 <= k <= es.len(),
    ensures
        typeck::t_args(es, k, ps, env, cx, d).exprs.len() == k,
    decreases k,
{
    reveal(typeck::t_args);
    if k > 0 {
        lemma_as_many(es, k - 1, ps, env, cx, d);
    }
}

/// A literal is of the type of the first element of its array, where that is numeric.
pub proof fn law_literals_suit_elements(es: Seq<ExprModel>, k: int, hint: Option<TypeModel>, env: Scope, cx: Cx, d: Seq<DiagnosticModel>, i: int)
    requires
        0 < i < k <= es.len(),
        of_literals(es[i]),
        of_numbers(typeck::t_expr(es[0], hint, env, cx, d).expr.ty),
    ensures
        typeck::t_elems(es, k, hint, env, cx, d).exprs.len() == k,
        typeck::t_elems(es, k, hint, env, cx, d).exprs[i].ty == typeck::t_expr(es[0], hint, env, cx, d).expr.ty,
    decreases k,
{
    reveal(typeck::t_elems);
    reveal(typeck::t_expr);
    let before = typeck::t_elems(es, k - 1, hint, env, cx, d);
    lemma_first(es, k - 1, hint, env, cx, d);
    if i < k - 1 {
        law_literals_suit_elements(es, k - 1, hint, env, cx, d, i);
    } else {
        law_literals_adapt(es[i], Some(before.exprs[0].ty), env, cx, before.diags);
    }
}

proof fn lemma_first(es: Seq<ExprModel>, k: int, hint: Option<TypeModel>, env: Scope, cx: Cx, d: Seq<DiagnosticModel>)
    requires
        0 < k <= es.len(),
    ensures
        typeck::t_elems(es, k, hint, env, cx, d).exprs.len() == k,
        typeck::t_elems(es, k, hint, env, cx, d).exprs[0] == typeck::t_expr(es[0], hint, env, cx, d).expr,
    decreases k,
{
    reveal(typeck::t_elems);
    reveal(typeck::t_expr);
    if k > 1 {
        lemma_first(es, k - 1, hint, env, cx, d);
    }
}

/// A literal that initializes a field is of the type of the field, where that is numeric.
pub proof fn law_literals_suit_fields(
    fs: Seq<(Seq<char>, ExprModel)>,
    k: int,
    decl: Seq<(Seq<char>, TypeModel)>,
    env: Scope,
    cx: Cx,
    d: Seq<DiagnosticModel>,
    i: int,
    j: int,
)
    requires
        0 <= i < k <= fs.len(),
        of_literals(fs[i].1),
        0 <= j < decl.len(),
        decl[j].0 == fs[i].0,
        forall|x: int| 0 <= x < j ==> (#[trigger] decl[x]).0 != fs[i].0,
        of_numbers(decl[j].1),
    ensures
        typeck::t_inits(fs, k, decl, env, cx, d).inits.len() == k,
        typeck::t_inits(fs, k, decl, env, cx, d).inits[i].0 == fs[i].0,
        typeck::t_inits(fs, k, decl, env, cx, d).inits[i].1.ty == decl[j].1,
    decreases k,
{
    reveal(typeck::t_inits);
    reveal(typeck::t_expr);
    let before = typeck::t_inits(fs, k - 1, decl, env, cx, d);
    lemma_inits(fs, k - 1, decl, env, cx, d);
    if i < k - 1 {
        law_literals_suit_fields(fs, k - 1, decl, env, cx, d, i, j);
    } else {
        lemma_field(decl, fs[i].0, 0, j);
        law_literals_adapt(fs[i].1, Some(decl[j].1), env, cx, before.diags);
    }
}

proof fn lemma_inits(fs: Seq<(Seq<char>, ExprModel)>, k: int, decl: Seq<(Seq<char>, TypeModel)>, env: Scope, cx: Cx, d: Seq<DiagnosticModel>)
    requires
        0 <= k <= fs.len(),
    ensures
        typeck::t_inits(fs, k, decl, env, cx, d).inits.len() == k,
    decreases k,
{
    reveal(typeck::t_inits);
    if k > 0 {
        lemma_inits(fs, k - 1, decl, env, cx, d);
    }
}

proof fn lemma_field(decl: Seq<(Seq<char>, TypeModel)>, n: Seq<char>, i: int, j: int)
    requires
        0 <= i <= j < decl.len(),
        decl[j].0 == n,
        forall|x: int| 0 <= x < j ==> (#[trigger] decl[x]).0 != n,
    ensures
        typeck::field_type(decl, n, i) == Some(decl[j].1),
    decreases j - i,
{
    if i < j {
        lemma_field(decl, n, i + 1, j);
    }
}

/// A literal that a block ends in is of the numeric type that is called for of the block, and
/// so in both arms of an `if`.
pub proof fn law_literals_suit_tails(e: ExprModel, t: TypeModel, env: Scope, cx: Cx, d: Seq<DiagnosticModel>)
    requires
        of_numbers(t),
    ensures
        e.kind matches ExprKindModel::Block(b) ==> (ends_in_literals(*b.it) ==> typeck::t_expr(e, Some(t), env, cx, d).expr.ty == t),
        e.kind matches ExprKindModel::If(c, yes, Some(no)) ==> (ends_in_literals(*yes.it) && ends_in_literals(*no.it)
            ==> typeck::t_expr(e, Some(t), env, cx, d).expr.ty == t),
{
    reveal(typeck::t_expr);
    reveal(typeck::t_block);
    reveal(typeck::t_if);
    match e.kind {
        ExprKindModel::Block(b) => {
            if ends_in_literals(*b.it) {
                lemma_tail(*b.it, t, env, cx, d);
            }
        },
        ExprKindModel::If(c, yes, Some(no)) => {
            if ends_in_literals(*yes.it) && ends_in_literals(*no.it) {
                lemma_arms(e, t, env, cx, d);
            }
        },
        _ => {},
    }
}

proof fn lemma_arms(e: ExprModel, t: TypeModel, env: Scope, cx: Cx, d: Seq<DiagnosticModel>)
    requires
        of_numbers(t),
        e.kind matches ExprKindModel::If(_, yes, Some(no)) && ends_in_literals(*yes.it) && ends_in_literals(*no.it),
    ensures
        typeck::t_if(e, Some(t), env, cx, d).expr.ty == t,
{
    reveal(typeck::t_if);
    reveal(typeck::t_expr);
    reveal(typeck::t_block);
    if let ExprKindModel::If(c, yes, Some(no)) = e.kind {
        let x = typeck::t_expr(*c.it, None, env, cx, d);
        let d1 = typeck::condition_check("`if` condition must be `bool`, found `"@, x.expr, x.diags);
        lemma_tail(*yes.it, t, env, cx, d1);
        lemma_tail(*no.it, t, env, cx, typeck::t_block(*yes.it, Some(t), env, cx, d1).diags);
    }
}

/// Whether a block ends in literals.
pub open spec fn ends_in_literals(b: BlockModel) -> bool {
    b.tail matches Some(x) && of_literals(x)
}

proof fn lemma_tail(b: BlockModel, t: TypeModel, env: Scope, cx: Cx, d: Seq<DiagnosticModel>)
    requires
        of_numbers(t),
        ends_in_literals(b),
    ensures
        typeck::t_block(b, Some(t), env, cx, d).ty == t,
{
    reveal(typeck::t_block);
    reveal(typeck::t_expr);
    let s = typeck::t_stmts(b.stmts, b.stmts.len() as int, env, cx, d);
    lemma_literal(b.tail->0);
    law_literals_adapt(b.tail->0, Some(t), s.env, cx, s.diags);
}

/// A literal of a float type is the float nearest to it; of any other type it is the integer.
pub proof fn law_literals_have_their_values(v: i64, t: TypeModel)
    ensures
        typeck::literal_value(LitModel::Int(v), t) == (if t is F32 || t is F64 {
            LitModel::Float(crate::float::of_int(v as int))
        } else {
            LitModel::Int(v)
        }),
        of_numbers(t) <==> ast::numeric(t),
{
}

} // verus!
