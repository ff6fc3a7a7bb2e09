//! What it is for a program to be well typed, and that the checker accepts nothing else.
//!
//! The rules relate a tree to the same tree with types in its slots. A slot holds
//! `TypeModel::Error` where two arms of an `if` have no type in common, or where a struct is
//! not declared; whatever is called for, an expression of that type may stand there.

use crate::ast;
use crate::ast::{
    BinOp, BlockModel, DeclModel, ExprKindModel, ExprModel, FnDeclModel, LitModel, ModuleModel, ParamModel, StmtKindModel,
    StmtModel, TypeModel, UnOp,
};
use crate::diag;
use crate::diag::{DiagnosticModel, Severity};
use crate::source::Span;
use crate::typeck;
use crate::typeck::{Cx, Scope, Tables};
use vstd::prelude::*;

verus! {

// --- rules ------------------------------------------------------------------------------

/// Whether an expression of one type may stand where another is called for.
pub open spec fn suits(got: TypeModel, want: TypeModel) -> bool {
    got == want || got is Error || want is Error
}

/// Whether a name has a type: that of its latest binding, or else of the constant or the
/// function of that name.
pub open spec fn name_has(env: Scope, tb: Tables, n: Seq<char>, ty: TypeModel) -> bool {
    ||| exists|i: int|
        0 <= i < env.len() && (#[trigger] env[i]) == (n, ty) && forall|j: int| i < j < env.len() ==> (#[trigger] env[j]).0 != n
    ||| !bound(env, n) && tb.constants.dom().contains(n) && ty == tb.constants[n]
    ||| !bound(env, n) && !tb.constants.dom().contains(n) && tb.functions.dom().contains(n) && ty == TypeModel::Fn(
        tb.functions[n].params,
        ast::node(tb.functions[n].ret),
    )
}

/// Whether a name is bound.
pub open spec fn bound(env: Scope, n: Seq<char>) -> bool {
    exists|i: int| 0 <= i < env.len() && (#[trigger] env[i]).0 == n
}

/// Whether a literal may have a type.
pub open spec fn lit_has(l: LitModel, ty: TypeModel) -> bool {
    match l {
        LitModel::Nil => ty is Nil,
        LitModel::Bool(_) => ty is Bool,
        LitModel::Int(_) => ty is I32 || ty is I64 || ty is F32 || ty is F64,
        LitModel::Float(_) => ty is F32 || ty is F64,
        LitModel::Str(_) => ty is Str,
    }
}

/// Whether a unary operation on a type has a type.
pub open spec fn unary_has(op: UnOp, x: TypeModel, ty: TypeModel) -> bool {
    if x is Error {
        ty is Error
    } else {
        match op {
            UnOp::Neg => ty == x && (x is I32 || x is I64 || x is F32 || x is F64),
            UnOp::Not => ty is Bool && x is Bool,
        }
    }
}

/// Whether a binary operation on two types has a type.
pub open spec fn binary_has(op: BinOp, l: TypeModel, r: TypeModel, ty: TypeModel) -> bool {
    if l is Error || r is Error {
        ty is Error
    } else {
        match op {
            BinOp::Add | BinOp::Sub | BinOp::Mul | BinOp::Div | BinOp::Mod => l == r && ty == l && (l is I32 || l is I64
                || l is F32 || l is F64),
            BinOp::And | BinOp::Or => l is Bool && r is Bool && ty is Bool,
            BinOp::Eq | BinOp::Ne | BinOp::Lt | BinOp::Le | BinOp::Gt | BinOp::Ge => l == r && ty is Bool,
        }
    }
}

/// Whether a call has a type: the callee is a function of as many parameters as there are
/// arguments, each argument suits its parameter, and the type is what the function returns.
pub open spec fn call_has(c: TypeModel, args: Seq<ExprModel>, ty: TypeModel) -> bool {
    match c {
        TypeModel::Fn(ps, r) => {
            &&& ps.len() == args.len()
            &&& forall|i: int| 0 <= i < args.len() ==> suits((#[trigger] args[i]).ty, ps[i])
            &&& ty == *r.it
        },
        TypeModel::Error => ty is Error,
        _ => false,
    }
}

/// Whether the first field of a name has a type.
pub open spec fn first_field(fs: Seq<(Seq<char>, TypeModel)>, n: Seq<char>, ty: TypeModel) -> bool {
    exists|i: int|
        0 <= i < fs.len() && (#[trigger] fs[i]) == (n, ty) && forall|j: int| 0 <= j < i ==> (#[trigger] fs[j]).0 != n
}

/// Whether the access to a field has a type.
pub open spec fn field_has(x: TypeModel, n: Seq<char>, tb: Tables, ty: TypeModel) -> bool {
    match x {
        TypeModel::Struct(s) => if tb.structs.dom().contains(s) {
            first_field(tb.structs[s], n, ty)
        } else {
            ty is Error
        },
        TypeModel::Error => ty is Error,
        _ => false,
    }
}

/// Whether the access to an element has a type.
pub open spec fn index_has(x: TypeModel, i: TypeModel, ty: TypeModel) -> bool {
    match x {
        TypeModel::Array(t) => ty == *t.it && (i is I32 || i is I64 || i is Error),
        TypeModel::Dict(k, v) => ty == *v.it && suits(i, *k.it),
        TypeModel::Error => ty is Error,
        _ => false,
    }
}

/// Whether the first initializer of a name suits a type.
pub open spec fn first_init(fs: Seq<(Seq<char>, ExprModel)>, n: Seq<char>, ty: TypeModel) -> bool {
    exists|i: int|
        0 <= i < fs.len() && (#[trigger] fs[i]).0 == n && suits(fs[i].1.ty, ty) && forall|j: int|
            0 <= j < i ==> (#[trigger] fs[j]).0 != n
}

/// Whether each declared field is initialized.
pub open spec fn struct_has(decl: Seq<(Seq<char>, TypeModel)>, fs: Seq<(Seq<char>, ExprModel)>) -> bool {
    forall|i: int| 0 <= i < decl.len() ==> first_init(fs, (#[trigger] decl[i]).0, decl[i].1)
}

/// Whether an `if` has a type: that of its arms, nil where one has no value.
pub open spec fn arms_have(a: TypeModel, b: TypeModel, ty: TypeModel) -> bool {
    if a == b {
        ty == a
    } else if a is Nil || b is Nil {
        ty is Nil
    } else {
        ty is Error
    }
}

/// Whether an expression may be a condition.
pub open spec fn condition(c: ExprModel) -> bool {
    c.ty is Bool || c.ty is Error
}

/// The scope with parameters.
pub open spec fn with_params(env: Scope, ps: Seq<ParamModel>) -> Scope {
    env + Seq::new(ps.len(), |i: int| (ps[i].name, ps[i].ty))
}

/// Whether `x` is `e` well typed.
#[verifier::opaque]
pub open spec fn w_expr(e: ExprModel, x: ExprModel, env: Scope, cx: Cx) -> bool
    decreases e, 1int,
{
    x.span == e.span && match (e.kind, x.kind) {
        (ExprKindModel::Lit(l), ExprKindModel::Lit(m)) => l == m && lit_has(l, x.ty),
        (ExprKindModel::Ident(n), ExprKindModel::Ident(m)) => n == m && name_has(env, cx.tb, n, x.ty),
        (ExprKindModel::Binary(op, a, b), ExprKindModel::Binary(oq, p, q)) => {
            &&& op == oq
            &&& w_expr(*a.it, *p.it, env, cx)
            &&& w_expr(*b.it, *q.it, env, cx)
            &&& binary_has(op, p.it.ty, q.it.ty, x.ty)
        },
        (ExprKindModel::Unary(op, a), ExprKindModel::Unary(oq, p)) => {
            &&& op == oq
            &&& w_expr(*a.it, *p.it, env, cx)
            &&& unary_has(op, p.it.ty, x.ty)
        },
        (ExprKindModel::Call(c, args), ExprKindModel::Call(d, brgs)) => {
            &&& w_expr(*c.it, *d.it, env, cx)
            &&& args.len() == brgs.len()
            &&& w_exprs(args, brgs, args.len() as int, env, cx)
            &&& call_has(d.it.ty, brgs, x.ty)
        },
        (ExprKindModel::Field(a, n), ExprKindModel::Field(p, m)) => {
            &&& n == m
            &&& w_expr(*a.it, *p.it, env, cx)
            &&& field_has(p.it.ty, n, cx.tb, x.ty)
        },
        (ExprKindModel::Index(a, i), ExprKindModel::Index(p, j)) => {
            &&& w_expr(*a.it, *p.it, env, cx)
            &&& w_expr(*i.it, *j.it, env, cx)
            &&& index_has(p.it.ty, j.it.ty, x.ty)
        },
        (ExprKindModel::StructLit(n, fs), ExprKindModel::StructLit(m, gs)) => {
            &&& n == m
            &&& cx.tb.structs.dom().contains(n)
            &&& fs.len() == gs.len()
            &&& w_inits(fs, gs, fs.len() as int, env, cx)
            &&& struct_has(cx.tb.structs[n], gs)
            &&& x.ty == TypeModel::Struct(n)
        },
        (ExprKindModel::ArrayLit(es), ExprKindModel::ArrayLit(xs)) => {
            &&& es.len() == xs.len()
            &&& w_exprs(es, xs, es.len() as int, env, cx)
            &&& match x.ty {
                TypeModel::Array(t) => forall|i: int| 0 <= i < xs.len() ==> suits((#[trigger] xs[i]).ty, *t.it),
                _ => false,
            }
        },
        (ExprKindModel::MapLit(ps), ExprKindModel::MapLit(qs)) => {
            &&& ps.len() == qs.len()
            &&& w_pairs(ps, qs, ps.len() as int, env, cx)
            &&& match x.ty {
                TypeModel::Dict(k, v) => forall|i: int|
                    0 <= i < qs.len() ==> suits((#[trigger] qs[i]).0.ty, *k.it) && suits(qs[i].1.ty, *v.it),
                _ => false,
            }
        },
        (ExprKindModel::Closure(ps, b), ExprKindModel::Closure(qs, c)) => {
            &&& ps == qs
            &&& w_expr(*b.it, *c.it, with_params(env, ps), cx)
            &&& x.ty == TypeModel::Fn(Seq::new(ps.len(), |i: int| ps[i].ty), ast::node(c.it.ty))
        },
        (ExprKindModel::Block(b), ExprKindModel::Block(c)) => w_block(*b.it, *c.it, env, cx) && x.ty == value_type(*c.it),
        (ExprKindModel::If(c, yes, no), ExprKindModel::If(d, yep, nope)) => {
            &&& w_expr(*c.it, *d.it, env, cx)
            &&& condition(*d.it)
            &&& w_block(*yes.it, *yep.it, env, cx)
            &&& match (no, nope) {
                (Some(p), Some(q)) => w_block(*p.it, *q.it, env, cx) && arms_have(value_type(*yep.it), value_type(*q.it), x.ty),
                (None, None) => arms_have(value_type(*yep.it), TypeModel::Nil, x.ty),
                _ => false,
            }
        },
        _ => false,
    }
}

/// Whether the first `k` expressions are well typed.
#[verifier::opaque]
pub open spec fn w_exprs(es: Seq<ExprModel>, xs: Seq<ExprModel>, k: int, env: Scope, cx: Cx) -> bool
    decreases es, k,
{
    k <= 0 || k > es.len() || (w_exprs(es, xs, k - 1, env, cx) && w_expr(es[k - 1], xs[k - 1], env, cx))
}

/// Whether the first `k` initializers are well typed.
#[verifier::opaque]
pub open spec fn w_inits(fs: Seq<(Seq<char>, ExprModel)>, gs: Seq<(Seq<char>, ExprModel)>, k: int, env: Scope, cx: Cx) -> bool
    decreases fs, k,
{
    k <= 0 || k > fs.len() || (w_inits(fs, gs, k - 1, env, cx) && fs[k - 1].0 == gs[k - 1].0 && w_expr(
        fs[k - 1].1,
        gs[k - 1].1,
        env,
        cx,
    ))
}

/// Whether the first `k` entries are well typed.
#[verifier::opaque]
pub open spec fn w_pairs(ps: Seq<(ExprModel, ExprModel)>, qs: Seq<(ExprModel, ExprModel)>, k: int, env: Scope, cx: Cx) -> bool
    decreases ps, k,
{
    k <= 0 || k > ps.len() || (w_pairs(ps, qs, k - 1, env, cx) && w_expr(ps[k - 1].0, qs[k - 1].0, env, cx) && w_expr(
        ps[k - 1].1,
        qs[k - 1].1,
        env,
        cx,
    ))
}

/// The type of a block: that of its value, or nil.
pub open spec fn value_type(b: BlockModel) -> TypeModel {
    match b.tail {
        Some(x) => x.ty,
        None => TypeModel::Nil,
    }
}

/// Whether a block is well typed.
#[verifier::opaque]
pub open spec fn w_block(b: BlockModel, c: BlockModel, env: Scope, cx: Cx) -> bool
    decreases b, 0int,
{
    let n = b.stmts.len() as int;
    &&& b.span == c.span
    &&& b.stmts.len() == c.stmts.len()
    &&& w_stmts(b.stmts, c.stmts, n, env, cx)
    &&& match (b.tail, c.tail) {
        (Some(e), Some(x)) => w_expr(e, x, behind(c.stmts, n, env), cx),
        (None, None) => true,
        _ => false,
    }
}

/// The scope behind a statement.
pub open spec fn past(s: StmtModel, env: Scope) -> Scope {
    match s.kind {
        StmtKindModel::Let { name, ty, mutable, init } => env.push((name, ty)),
        _ => env,
    }
}

/// The scope behind the first `k` statements.
pub open spec fn behind(ss: Seq<StmtModel>, k: int, env: Scope) -> Scope
    decreases k,
{
    if k <= 0 {
        env
    } else {
        past(ss[k - 1], behind(ss, k - 1, env))
    }
}

/// Whether the first `k` statements are well typed.
#[verifier::opaque]
pub open spec fn w_stmts(ss: Seq<StmtModel>, ts: Seq<StmtModel>, k: int, env: Scope, cx: Cx) -> bool
    decreases ss, k,
{
    k <= 0 || k > ss.len() || (w_stmts(ss, ts, k - 1, env, cx) && w_stmt(ss[k - 1], ts[k - 1], behind(ts, k - 1, env), cx))
}

/// Whether a statement is well typed.
#[verifier::opaque]
pub open spec fn w_stmt(s: StmtModel, t: StmtModel, env: Scope, cx: Cx) -> bool
    decreases s, 0int,
{
    s.span == t.span && match (s.kind, t.kind) {
        (StmtKindModel::Let { name, ty, mutable, init }, StmtKindModel::Let { name: n, ty: u, mutable: m, init: x }) => {
            &&& name == n
            &&& mutable == m
            &&& w_expr(init, x, env, cx)
            &&& if ty is Unknown {
                u == x.ty
            } else {
                u == ty && suits(x.ty, ty)
            }
        },
        (StmtKindModel::Assign(p, v), StmtKindModel::Assign(q, w)) => {
            &&& w_expr(p, q, env, cx)
            &&& w_expr(v, w, env, cx)
            &&& suits(w.ty, q.ty)
        },
        (StmtKindModel::Expr(e), StmtKindModel::Expr(x)) => w_expr(e, x, env, cx),
        (StmtKindModel::Return(None), StmtKindModel::Return(None)) => cx.ret is Nil,
        (StmtKindModel::Return(Some(e)), StmtKindModel::Return(Some(x))) => w_expr(e, x, env, cx) && suits(x.ty, cx.ret),
        (StmtKindModel::While(c, b), StmtKindModel::While(d, a)) => {
            &&& w_expr(c, d, env, cx)
            &&& condition(d)
            &&& w_block(*b.it, *a.it, env, cx)
        },
        (StmtKindModel::If(c, yes, no), StmtKindModel::If(d, yep, nope)) => {
            &&& w_expr(c, d, env, cx)
            &&& condition(d)
            &&& w_block(*yes.it, *yep.it, env, cx)
            &&& match (no, nope) {
                (Some(p), Some(q)) => w_block(*p.it, *q.it, env, cx),
                (None, None) => true,
                _ => false,
            }
        },
        (StmtKindModel::Break, StmtKindModel::Break) => true,
        (StmtKindModel::Continue, StmtKindModel::Continue) => true,
        _ => false,
    }
}

/// Whether the structs that a type names are declared.
pub open spec fn declared(t: TypeModel, tb: Tables) -> bool
    decreases t, 0int,
{
    match t {
        TypeModel::Struct(n) => tb.structs.dom().contains(n),
        TypeModel::Query(x) => declared(*x.it, tb),
        TypeModel::Res(x) => declared(*x.it, tb),
        TypeModel::ResMut(x) => declared(*x.it, tb),
        TypeModel::Array(x) => declared(*x.it, tb),
        TypeModel::Dict(k, v) => declared(*k.it, tb) && declared(*v.it, tb),
        TypeModel::Fn(ps, r) => declared(*r.it, tb) && all_declared(ps, ps.len() as int, tb),
        _ => true,
    }
}

/// The same of the first `k` types.
pub open spec fn all_declared(ts: Seq<TypeModel>, k: int, tb: Tables) -> bool
    decreases ts, k,
{
    k <= 0 || k > ts.len() || (all_declared(ts, k - 1, tb) && declared(ts[k - 1], tb))
}

/// Whether a function is well typed: its body has the type that it returns, or no value.
pub open spec fn w_fn(f: FnDeclModel, g: FnDeclModel, tb: Tables) -> bool {
    &&& g == (FnDeclModel { body: g.body, ..f })
    &&& declared(f.ret, tb)
    &&& forall|i: int| 0 <= i < f.params.len() ==> declared((#[trigger] f.params[i]).ty, tb)
    &&& w_block(f.body, g.body, with_params(Seq::empty(), f.params), Cx { tb, ret: f.ret })
    &&& f.ret is Nil || value_type(g.body) is Nil || value_type(g.body) is Error || value_type(g.body) == f.ret
}

/// Whether a declaration is well typed.
pub open spec fn w_decl(d: DeclModel, c: DeclModel, tb: Tables) -> bool {
    match (d, c) {
        (DeclModel::Fn(f), DeclModel::Fn(g)) => w_fn(f, g, tb),
        (DeclModel::Struct(s), DeclModel::Struct(_)) => d == c && forall|i: int|
            0 <= i < s.fields.len() ==> declared((#[trigger] s.fields[i]).1, tb),
        _ => d == c,
    }
}

/// Whether `n` is the module `m` well typed.
pub open spec fn well_typed(m: ModuleModel, n: ModuleModel) -> bool {
    let tb = typeck::tables_of(m.decls, m.decls.len() as int);
    &&& m.decls.len() == n.decls.len()
    &&& forall|i: int| 0 <= i < m.decls.len() ==> w_decl(#[trigger] m.decls[i], n.decls[i], tb)
}

// --- what is complained about ---------------------------------------------------------------

/// Whether complaints were only added, and only errors.
spec fn more(a: Seq<DiagnosticModel>, b: Seq<DiagnosticModel>) -> bool {
    &&& a.len() <= b.len()
    &&& forall|i: int| 0 <= i < a.len() ==> (#[trigger] b[i]) == a[i]
    &&& forall|i: int| a.len() <= i < b.len() ==> (#[trigger] b[i]).severity == Severity::Error
}

/// Whether nothing was added.
spec fn none(a: Seq<DiagnosticModel>, b: Seq<DiagnosticModel>) -> bool {
    a.len() == b.len()
}

proof fn lemma_more(a: Seq<DiagnosticModel>, b: Seq<DiagnosticModel>, c: Seq<DiagnosticModel>)
    requires
        more(a, b),
        more(b, c),
    ensures
        more(a, c),
        none(a, c) ==> none(a, b) && none(b, c),
{
    assert forall|i: int| 0 <= i < a.len() implies (#[trigger] c[i]) == a[i] by {
        assert(b[i] == a[i]);
    }
    assert forall|i: int| a.len() <= i < c.len() implies (#[trigger] c[i]).severity == Severity::Error by {
        if i < b.len() {
            assert(c[i] == b[i]);
        }
    }
}

/// A unary operation is complained about exactly where it has no type.
pub proof fn law_unary_is_judged(op: UnOp, x: TypeModel, span: Span, d: Seq<DiagnosticModel>)
    ensures
        ({
            let v = typeck::unary_verdict(op, x, span, d);
            &&& more_or_same(d, v.diags)
            &&& v.diags == d <==> unary_has(op, x, v.ty)
        }),
{
    let v = typeck::unary_verdict(op, x, span, d);
    if v.diags.len() > d.len() {
        assert(v.diags.drop_last() =~= d);
    }
}

/// Complaints as before, perhaps with one more, an error.
pub open spec fn more_or_same(a: Seq<DiagnosticModel>, b: Seq<DiagnosticModel>) -> bool {
    b == a || (b.len() == a.len() + 1 && b.drop_last() == a && b.last().severity == Severity::Error)
}

/// A binary operation is complained about exactly where it has no type.
pub proof fn law_binary_is_judged(op: BinOp, l: TypeModel, r: TypeModel, span: Span, d: Seq<DiagnosticModel>)
    ensures
        ({
            let v = typeck::binary_verdict(op, l, r, span, d);
            &&& more_or_same(d, v.diags)
            &&& v.diags == d <==> binary_has(op, l, r, v.ty)
        }),
{
    let v = typeck::binary_verdict(op, l, r, span, d);
    if v.diags.len() > d.len() {
        assert(v.diags.drop_last() =~= d);
    }
}

proof fn lemma_args(ps: Seq<TypeModel>, args: Seq<ExprModel>, k: int, d: Seq<DiagnosticModel>)
    requires
        0 <= k <= args.len(),
    ensures
        more(d, typeck::args_check(ps, args, k, d)),
        none(d, typeck::args_check(ps, args, k, d)) <==> forall|i: int| 0 <= i < k ==> suits((#[trigger] args[i]).ty, ps[i]),
    decreases k,
{
    if k > 0 {
        lemma_args(ps, args, k - 1, d);
        lemma_more(d, typeck::args_check(ps, args, k - 1, d), typeck::args_check(ps, args, k, d));
        if none(d, typeck::args_check(ps, args, k, d)) {
            assert forall|i: int| 0 <= i < k implies suits((#[trigger] args[i]).ty, ps[i]) by {
                if i == k - 1 {
                }
            }
        } else if forall|i: int| 0 <= i < k ==> suits((#[trigger] args[i]).ty, ps[i]) {
            assert(suits(args[k - 1].ty, ps[k - 1]));
        }
    }
}

/// A call is complained about exactly where it has no type: so with another number of
/// arguments than parameters, or an argument of a type that does not suit its parameter.
pub proof fn law_calls_are_judged(c: TypeModel, args: Seq<ExprModel>, span: Span, d: Seq<DiagnosticModel>)
    ensures
        ({
            let v = typeck::call_verdict(c, args, span, d);
            v.diags.len() >= d.len() && (v.diags.len() == d.len() <==> call_has(c, args, v.ty))
        }),
{
    if let TypeModel::Fn(ps, r) = c {
        if ps.len() == args.len() {
            lemma_args(ps, args, args.len() as int, d);
        }
    }
}

proof fn lemma_call(c: TypeModel, args: Seq<ExprModel>, span: Span, d: Seq<DiagnosticModel>)
    ensures
        more(d, typeck::call_verdict(c, args, span, d).diags),
        none(d, typeck::call_verdict(c, args, span, d).diags) <==> call_has(c, args, typeck::call_verdict(c, args, span, d).ty),
{
    if let TypeModel::Fn(ps, r) = c {
        if ps.len() == args.len() {
            lemma_args(ps, args, args.len() as int, d);
        }
    }
}

proof fn lemma_field_type(fs: Seq<(Seq<char>, TypeModel)>, n: Seq<char>, i: int)
    requires
        0 <= i <= fs.len(),
        forall|j: int| 0 <= j < i ==> (#[trigger] fs[j]).0 != n,
    ensures
        match typeck::field_type(fs, n, i) {
            Some(t) => first_field(fs, n, t),
            None => forall|j: int| 0 <= j < fs.len() ==> (#[trigger] fs[j]).0 != n,
        },
    decreases fs.len() - i,
{
    if i < fs.len() {
        if fs[i].0 == n {
            assert(fs[i] == (n, fs[i].1));
        } else {
            lemma_field_type(fs, n, i + 1);
        }
    }
}

/// The access to a field is complained about exactly where it has no type.
pub proof fn law_fields_are_judged(x: TypeModel, n: Seq<char>, tb: Tables, span: Span, d: Seq<DiagnosticModel>)
    ensures
        ({
            let v = typeck::field_verdict(x, n, tb, span, d);
            &&& more_or_same(d, v.diags)
            &&& v.diags == d <==> field_has(x, n, tb, v.ty)
        }),
{
    let v = typeck::field_verdict(x, n, tb, span, d);
    if let TypeModel::Struct(s) = x {
        if tb.structs.dom().contains(s) {
            lemma_field_type(tb.structs[s], n, 0);
        }
    }
    if v.diags.len() > d.len() {
        assert(v.diags.drop_last() =~= d);
    }
}

/// The access to an element is complained about exactly where it has no type.
pub proof fn law_elements_are_judged(x: TypeModel, i: ExprModel, span: Span, d: Seq<DiagnosticModel>)
    ensures
        ({
            let v = typeck::index_verdict(x, i, span, d);
            &&& more_or_same(d, v.diags)
            &&& v.diags == d <==> index_has(x, i.ty, v.ty)
        }),
{
    let v = typeck::index_verdict(x, i, span, d);
    if v.diags.len() > d.len() {
        assert(v.diags.drop_last() =~= d);
    }
}

proof fn lemma_one_more(a: Seq<DiagnosticModel>, b: Seq<DiagnosticModel>)
    requires
        more_or_same(a, b),
    ensures
        more(a, b),
        none(a, b) ==> a == b,
{
    if b != a {
        assert forall|i: int| 0 <= i < a.len() implies (#[trigger] b[i]) == a[i] by {
            assert(b.drop_last()[i] == b[i]);
        }
    }
}

proof fn lemma_init(fs: Seq<(Seq<char>, ExprModel)>, n: Seq<char>, i: int)
    requires
        0 <= i <= fs.len(),
        forall|j: int| 0 <= j < i ==> (#[trigger] fs[j]).0 != n,
    ensures
        match typeck::init_of(fs, n, i) {
            Some(e) => exists|k: int|
                0 <= k < fs.len() && (#[trigger] fs[k]) == (n, e) && forall|j: int| 0 <= j < k ==> (#[trigger] fs[j]).0 != n,
            None => forall|j: int| 0 <= j < fs.len() ==> (#[trigger] fs[j]).0 != n,
        },
    decreases fs.len() - i,
{
    if i < fs.len() {
        if fs[i].0 == n {
            assert(fs[i] == (n, fs[i].1));
        } else {
            lemma_init(fs, n, i + 1);
        }
    }
}

proof fn lemma_fields(decl: Seq<(Seq<char>, TypeModel)>, k: int, fs: Seq<(Seq<char>, ExprModel)>, span: Span, d: Seq<DiagnosticModel>)
    requires
        0 <= k <= decl.len(),
    ensures
        more(d, typeck::fields_check(decl, k, fs, span, d)),
        none(d, typeck::fields_check(decl, k, fs, span, d)) <==> forall|i: int|
            0 <= i < k ==> first_init(fs, (#[trigger] decl[i]).0, decl[i].1),
    decreases k,
{
    if k > 0 {
        lemma_fields(decl, k - 1, fs, span, d);
        let before = typeck::fields_check(decl, k - 1, fs, span, d);
        let all = typeck::fields_check(decl, k, fs, span, d);
        lemma_more(d, before, all);
        let (n, t) = decl[k - 1];
        lemma_init(fs, n, 0);
        if let Some(e) = typeck::init_of(fs, n, 0) {
            let j = choose|j: int|
                0 <= j < fs.len() && (#[trigger] fs[j]) == (n, e) && forall|i: int| 0 <= i < j ==> (#[trigger] fs[i]).0 != n;
            if suits(fs[j].1.ty, t) {
                assert(first_init(fs, n, t));
            }
            if first_init(fs, n, t) {
                let i = choose|i: int|
                    0 <= i < fs.len() && (#[trigger] fs[i]).0 == n && suits(fs[i].1.ty, t) && forall|j: int|
                        0 <= j < i ==> (#[trigger] fs[j]).0 != n;
                if i < j {
                    assert(fs[i].0 != n);
                } else if j < i {
                    assert(fs[j].0 != n);
                }
            }
        }
        assert(none(before, all) <==> first_init(fs, n, t));
        if forall|i: int| 0 <= i < k ==> first_init(fs, (#[trigger] decl[i]).0, decl[i].1) {
            assert(first_init(fs, decl[k - 1].0, decl[k - 1].1));
        }
    }
}

proof fn lemma_local(env: Scope, n: Seq<char>)
    ensures
        match typeck::local(env, n) {
            Some(t) => exists|i: int|
                0 <= i < env.len() && (#[trigger] env[i]) == (n, t) && forall|j: int| i < j < env.len() ==> (#[trigger] env[j]).0 != n,
            None => !bound(env, n),
        },
    decreases env.len(),
{
    if env.len() > 0 {
        let e = env.drop_last();
        let k = env.len() - 1;
        assert(env[k] == env.last());
        if env.last().0 == n {
            assert(env[k] == (n, env.last().1));
        } else {
            lemma_local(e, n);
            match typeck::local(env, n) {
                Some(t) => {
                    let i = choose|i: int|
                        0 <= i < e.len() && (#[trigger] e[i]) == (n, t) && forall|j: int| i < j < e.len() ==> (#[trigger] e[j]).0 != n;
                    assert(env[i] == (n, t));
                    assert forall|j: int| i < j < env.len() implies (#[trigger] env[j]).0 != n by {
                        if j < k {
                            assert(e[j] == env[j]);
                        }
                    }
                },
                None => {
                    if bound(env, n) {
                        let i = choose|i: int| 0 <= i < env.len() && (#[trigger] env[i]).0 == n;
                        assert(e[i] == env[i]);
                    }
                },
            }
        }
    }
}

proof fn lemma_bind(env: Scope, ps: Seq<ParamModel>, k: int)
    requires
        0 <= k <= ps.len(),
    ensures
        typeck::bind_params(env, ps, k) == env + Seq::new(k as nat, |i: int| (ps[i].name, ps[i].ty)),
    decreases k,
{
    if k > 0 {
        lemma_bind(env, ps, k - 1);
    }
    assert(typeck::bind_params(env, ps, k) =~= env + Seq::new(k as nat, |i: int| (ps[i].name, ps[i].ty)));
}

/// Whether an expression was typed well, or complained about.
spec fn judged(e: ExprModel, t: typeck::Typed, env: Scope, cx: Cx, d: Seq<DiagnosticModel>) -> bool {
    &&& more(d, t.diags)
    &&& none(d, t.diags) <==> w_expr(e, t.expr, env, cx)
    &&& t.expr.span == e.span
}

#[verifier::spinoff_prover]
#[verifier::rlimit(60)]
proof fn lemma_expr(e: ExprModel, hint: Option<TypeModel>, env: Scope, cx: Cx, d: Seq<DiagnosticModel>)
    ensures
        judged(e, typeck::t_expr(e, hint, env, cx, d), env, cx, d),
    decreases e, 1int,
{
    reveal(typeck::t_expr);
    reveal(w_expr);
    let t = typeck::t_expr(e, hint, env, cx, d);
    match e.kind {
        ExprKindModel::Lit(l) => {},
        ExprKindModel::Ident(n) => {
            lemma_local(env, n);
        },
        ExprKindModel::Binary(..) => lemma_binary(e, hint, env, cx, d),
        ExprKindModel::Unary(op, x) => {
            let h = typeck::literal_hint(e, hint);
            lemma_expr(*x.it, h, env, cx, d);
            let u = typeck::t_expr(*x.it, h, env, cx, d);
            law_unary_is_judged(op, u.expr.ty, e.span, u.diags);
            lemma_one_more(u.diags, t.diags);
            lemma_more(d, u.diags, t.diags);
        },
        ExprKindModel::Call(..) => lemma_calls(e, env, cx, d),
        ExprKindModel::Field(x, n) => {
            lemma_expr(*x.it, None, env, cx, d);
            let u = typeck::t_expr(*x.it, None, env, cx, d);
            law_fields_are_judged(u.expr.ty, n, cx.tb, e.span, u.diags);
            lemma_one_more(u.diags, t.diags);
            lemma_more(d, u.diags, t.diags);
        },
        ExprKindModel::Index(x, i) => {
            lemma_expr(*x.it, None, env, cx, d);
            let u = typeck::t_expr(*x.it, None, env, cx, d);
            let h = typeck::open_hint(*i.it, typeck::index_hint(u.expr.ty));
            lemma_expr(*i.it, h, env, cx, u.diags);
            let v = typeck::t_expr(*i.it, h, env, cx, u.diags);
            law_elements_are_judged(u.expr.ty, v.expr, e.span, v.diags);
            lemma_one_more(v.diags, t.diags);
            lemma_more(d, u.diags, v.diags);
            lemma_more(d, v.diags, t.diags);
        },
        ExprKindModel::StructLit(..) => lemma_struct(e, env, cx, d),
        ExprKindModel::ArrayLit(..) => lemma_array(e, hint, env, cx, d),
        ExprKindModel::MapLit(..) => lemma_map(e, hint, env, cx, d),
        ExprKindModel::Closure(ps, body) => {
            lemma_bind(env, ps, ps.len() as int);
            let inner = with_params(env, ps);
            assert(inner == typeck::bind_params(env, ps, ps.len() as int));
            lemma_expr(*body.it, None, inner, cx, d);
        },
        ExprKindModel::Block(b) => lemma_block(*b.it, hint, env, cx, d),
        ExprKindModel::If(..) => lemma_if(e, hint, env, cx, d),
    }
}

#[verifier::spinoff_prover]
#[verifier::rlimit(60)]
proof fn lemma_binary(e: ExprModel, hint: Option<TypeModel>, env: Scope, cx: Cx, d: Seq<DiagnosticModel>)
    requires
        e.kind is Binary,
    ensures
        judged(e, typeck::t_binary(e, hint, env, cx, d), env, cx, d),
    decreases e, 0int,
{
    reveal(typeck::t_binary);
    reveal(typeck::t_expr);
    reveal(w_expr);
    let t = typeck::t_binary(e, hint, env, cx, d);
    match e.kind {
        ExprKindModel::Binary(op, l, r) => {
            if typeck::int_literal(*l.it) && !typeck::int_literal(*r.it) {
                lemma_expr(*r.it, None, env, cx, d);
                let b = typeck::t_expr(*r.it, None, env, cx, d);
                lemma_expr(*l.it, Some(b.expr.ty), env, cx, b.diags);
                let a = typeck::t_expr(*l.it, Some(b.expr.ty), env, cx, b.diags);
                law_binary_is_judged(op, a.expr.ty, b.expr.ty, e.span, a.diags);
                lemma_one_more(a.diags, t.diags);
                lemma_more(d, b.diags, a.diags);
                lemma_more(d, a.diags, t.diags);
            } else {
                let h = typeck::literal_hint(e, hint);
                lemma_expr(*l.it, h, env, cx, d);
                let a = typeck::t_expr(*l.it, h, env, cx, d);
                let want = if typeck::int_literal(*r.it) {
                    Some(a.expr.ty)
                } else {
                    None
                };
                lemma_expr(*r.it, want, env, cx, a.diags);
                let b = typeck::t_expr(*r.it, want, env, cx, a.diags);
                law_binary_is_judged(op, a.expr.ty, b.expr.ty, e.span, b.diags);
                lemma_one_more(b.diags, t.diags);
                lemma_more(d, a.diags, b.diags);
                lemma_more(d, b.diags, t.diags);
            }
        },
        _ => {},
    }
}

#[verifier::spinoff_prover]
#[verifier::rlimit(60)]
proof fn lemma_calls(e: ExprModel, env: Scope, cx: Cx, d: Seq<DiagnosticModel>)
    requires
        e.kind is Call,
    ensures
        judged(e, typeck::t_call(e, env, cx, d), env, cx, d),
    decreases e, 0int,
{
    reveal(typeck::t_call);
    reveal(w_expr);
    let t = typeck::t_call(e, env, cx, d);
    match e.kind {
        ExprKindModel::Call(c, args) => {
            lemma_expr(*c.it, None, env, cx, d);
            let f = typeck::t_expr(*c.it, None, env, cx, d);
            let ps = typeck::callee_params(f.expr.ty);
            lemma_list(args, args.len() as int, ps, env, cx, f.diags);
            let a = typeck::t_args(args, args.len() as int, ps, env, cx, f.diags);
            lemma_call(f.expr.ty, a.exprs, e.span, a.diags);
            lemma_more(d, f.diags, a.diags);
            lemma_more(d, a.diags, t.diags);
        },
        _ => {},
    }
}

/// What is typed first stays as the list grows.
proof fn lemma_w_exprs(es: Seq<ExprModel>, xs: Seq<ExprModel>, ys: Seq<ExprModel>, k: int, env: Scope, cx: Cx)
    requires
        0 <= k <= es.len(),
        k <= xs.len(),
        k <= ys.len(),
        forall|i: int| 0 <= i < k ==> xs[i] == ys[i],
    ensures
        w_exprs(es, xs, k, env, cx) <==> w_exprs(es, ys, k, env, cx),
    decreases k,
{
    reveal(w_exprs);
    if k > 0 {
        lemma_w_exprs(es, xs, ys, k - 1, env, cx);
    }
}

#[verifier::spinoff_prover]
proof fn lemma_list(es: Seq<ExprModel>, k: int, ps: Seq<TypeModel>, env: Scope, cx: Cx, d: Seq<DiagnosticModel>)
    requires
        0 <= k <= es.len(),
    ensures
        ({
            let t = typeck::t_args(es, k, ps, env, cx, d);
            &&& more(d, t.diags)
            &&& t.exprs.len() == k
            &&& none(d, t.diags) <==> w_exprs(es, t.exprs, k, env, cx)
        }),
    decreases es, k,
{
    reveal(typeck::t_args);
    reveal(w_exprs);
    let t = typeck::t_args(es, k, ps, env, cx, d);
    if k > 0 {
        lemma_list(es, k - 1, ps, env, cx, d);
        let before = typeck::t_args(es, k - 1, ps, env, cx, d);
        let want = if k - 1 < ps.len() {
            Some(ps[k - 1])
        } else {
            None
        };
        lemma_expr(es[k - 1], want, env, cx, before.diags);
        lemma_more(d, before.diags, t.diags);
        lemma_w_exprs(es, before.exprs, t.exprs, k - 1, env, cx);
    }
}

#[verifier::spinoff_prover]
#[verifier::rlimit(60)]
proof fn lemma_struct(e: ExprModel, env: Scope, cx: Cx, d: Seq<DiagnosticModel>)
    requires
        e.kind is StructLit,
    ensures
        judged(e, typeck::t_struct(e, env, cx, d), env, cx, d),
    decreases e, 0int,
{
    reveal(typeck::t_struct);
    reveal(w_expr);
    let t = typeck::t_struct(e, env, cx, d);
    match e.kind {
        ExprKindModel::StructLit(n, fs) => {
            if cx.tb.structs.dom().contains(n) {
                let decl = cx.tb.structs[n];
                lemma_inits(fs, fs.len() as int, decl, env, cx, d);
                let u = typeck::t_inits(fs, fs.len() as int, decl, env, cx, d);
                lemma_fields(decl, decl.len() as int, u.inits, e.span, u.diags);
                lemma_more(d, u.diags, t.diags);
            }
        },
        _ => {},
    }
}

proof fn lemma_w_inits(fs: Seq<(Seq<char>, ExprModel)>, xs: Seq<(Seq<char>, ExprModel)>, ys: Seq<(Seq<char>, ExprModel)>, k: int, env: Scope, cx: Cx)
    requires
        0 <= k <= fs.len(),
        k <= xs.len(),
        k <= ys.len(),
        forall|i: int| 0 <= i < k ==> xs[i] == ys[i],
    ensures
        w_inits(fs, xs, k, env, cx) <==> w_inits(fs, ys, k, env, cx),
    decreases k,
{
    reveal(w_inits);
    if k > 0 {
        lemma_w_inits(fs, xs, ys, k - 1, env, cx);
    }
}

#[verifier::spinoff_prover]
proof fn lemma_inits(fs: Seq<(Seq<char>, ExprModel)>, k: int, decl: Seq<(Seq<char>, TypeModel)>, env: Scope, cx: Cx, d: Seq<DiagnosticModel>)
    requires
        0 <= k <= fs.len(),
    ensures
        ({
            let t = typeck::t_inits(fs, k, decl, env, cx, d);
            &&& more(d, t.diags)
            &&& t.inits.len() == k
            &&& none(d, t.diags) <==> w_inits(fs, t.inits, k, env, cx)
        }),
    decreases fs, k,
{
    reveal(typeck::t_inits);
    reveal(w_inits);
    let t = typeck::t_inits(fs, k, decl, env, cx, d);
    if k > 0 {
        lemma_inits(fs, k - 1, decl, env, cx, d);
        let before = typeck::t_inits(fs, k - 1, decl, env, cx, d);
        lemma_expr(fs[k - 1].1, typeck::field_type(decl, fs[k - 1].0, 0), env, cx, before.diags);
        lemma_more(d, before.diags, t.diags);
        lemma_w_inits(fs, before.inits, t.inits, k - 1, env, cx);
    }
}

#[verifier::spinoff_prover]
#[verifier::rlimit(60)]
proof fn lemma_array(e: ExprModel, hint: Option<TypeModel>, env: Scope, cx: Cx, d: Seq<DiagnosticModel>)
    requires
        e.kind is ArrayLit,
    ensures
        judged(e, typeck::t_array(e, hint, env, cx, d), env, cx, d),
    decreases e, 0int,
{
    reveal(typeck::t_array);
    reveal(w_expr);
    reveal(w_exprs);
    reveal(w_expr);
    match e.kind {
        ExprKindModel::ArrayLit(es) => {
            let t = typeck::t_array(e, hint, env, cx, d);
            if es.len() > 0 {
                lemma_elems(es, es.len() as int, typeck::element_hint(hint), env, cx, d);
                let u = typeck::t_elems(es, es.len() as int, typeck::element_hint(hint), env, cx, d);
                assert(t.expr.kind == ExprKindModel::ArrayLit(u.exprs));
            } else {
                assert(w_exprs(es, es, 0, env, cx));
            }
        },
        _ => {},
    }
}

#[verifier::spinoff_prover]
#[verifier::rlimit(60)]
proof fn lemma_elems(es: Seq<ExprModel>, k: int, hint: Option<TypeModel>, env: Scope, cx: Cx, d: Seq<DiagnosticModel>)
    requires
        0 <= k <= es.len(),
    ensures
        ({
            let t = typeck::t_elems(es, k, hint, env, cx, d);
            &&& more(d, t.diags)
            &&& t.exprs.len() == k
            &&& none(d, t.diags) <==> w_exprs(es, t.exprs, k, env, cx) && forall|i: int|
                0 <= i < k ==> suits((#[trigger] t.exprs[i]).ty, t.exprs[0].ty)
        }),
    decreases es, k,
{
    reveal(typeck::t_elems);
    reveal(w_exprs);
    let t = typeck::t_elems(es, k, hint, env, cx, d);
    if k > 0 {
        lemma_elems(es, k - 1, hint, env, cx, d);
        let before = typeck::t_elems(es, k - 1, hint, env, cx, d);
        if k == 1 {
            lemma_expr(es[0], hint, env, cx, d);
            let u = typeck::t_expr(es[0], hint, env, cx, d);
            assert(t.exprs[0] == u.expr);
            assert(w_exprs(es, t.exprs, 0, env, cx));
        } else {
            let want = before.exprs[0].ty;
            lemma_expr(es[k - 1], Some(want), env, cx, before.diags);
            let u = typeck::t_expr(es[k - 1], Some(want), env, cx, before.diags);
            lemma_more(before.diags, u.diags, t.diags);
            lemma_more(d, before.diags, t.diags);
            lemma_w_exprs(es, before.exprs, t.exprs, k - 1, env, cx);
            if forall|i: int| 0 <= i < k ==> suits((#[trigger] t.exprs[i]).ty, t.exprs[0].ty) {
                assert(suits(t.exprs[k - 1].ty, t.exprs[0].ty));
                assert forall|i: int| 0 <= i < k - 1 implies suits((#[trigger] before.exprs[i]).ty, before.exprs[0].ty) by {
                    assert(t.exprs[i] == before.exprs[i]);
                }
            }
            if none(d, t.diags) {
                assert forall|i: int| 0 <= i < k implies suits((#[trigger] t.exprs[i]).ty, t.exprs[0].ty) by {
                    if i < k - 1 {
                        assert(t.exprs[i] == before.exprs[i]);
                    }
                    assert(t.exprs[0] == before.exprs[0]);
                }
            }
        }
    }
}

#[verifier::spinoff_prover]
#[verifier::rlimit(60)]
proof fn lemma_map(e: ExprModel, hint: Option<TypeModel>, env: Scope, cx: Cx, d: Seq<DiagnosticModel>)
    requires
        e.kind is MapLit,
    ensures
        judged(e, typeck::t_map(e, hint, env, cx, d), env, cx, d),
    decreases e, 0int,
{
    reveal(typeck::t_map);
    reveal(w_expr);
    reveal(w_pairs);
    reveal(w_expr);
    match e.kind {
        ExprKindModel::MapLit(ps) => {
            let t = typeck::t_map(e, hint, env, cx, d);
            if ps.len() > 0 {
                lemma_pairs(ps, ps.len() as int, hint, env, cx, d);
                let u = typeck::t_pairs(ps, ps.len() as int, hint, env, cx, d);
                assert(t.expr.kind == ExprKindModel::MapLit(u.pairs));
            } else {
                assert(w_pairs(ps, ps, 0, env, cx));
            }
        },
        _ => {},
    }
}

proof fn lemma_w_pairs(ps: Seq<(ExprModel, ExprModel)>, xs: Seq<(ExprModel, ExprModel)>, ys: Seq<(ExprModel, ExprModel)>, k: int, env: Scope, cx: Cx)
    requires
        0 <= k <= ps.len(),
        k <= xs.len(),
        k <= ys.len(),
        forall|i: int| 0 <= i < k ==> xs[i] == ys[i],
    ensures
        w_pairs(ps, xs, k, env, cx) <==> w_pairs(ps, ys, k, env, cx),
    decreases k,
{
    reveal(w_pairs);
    if k > 0 {
        lemma_w_pairs(ps, xs, ys, k - 1, env, cx);
    }
}

#[verifier::spinoff_prover]
#[verifier::rlimit(60)]
proof fn lemma_pairs(ps: Seq<(ExprModel, ExprModel)>, k: int, hint: Option<TypeModel>, env: Scope, cx: Cx, d: Seq<DiagnosticModel>)
    requires
        0 <= k <= ps.len(),
    ensures
        ({
            let t = typeck::t_pairs(ps, k, hint, env, cx, d);
            &&& more(d, t.diags)
            &&& t.pairs.len() == k
            &&& none(d, t.diags) <==> w_pairs(ps, t.pairs, k, env, cx) && forall|i: int|
                0 <= i < k ==> suits((#[trigger] t.pairs[i]).0.ty, t.pairs[0].0.ty) && suits(t.pairs[i].1.ty, t.pairs[0].1.ty)
        }),
    decreases ps, k,
{
    reveal(typeck::t_pairs);
    reveal(w_pairs);
    let t = typeck::t_pairs(ps, k, hint, env, cx, d);
    if k > 0 {
        lemma_pairs(ps, k - 1, hint, env, cx, d);
        let before = typeck::t_pairs(ps, k - 1, hint, env, cx, d);
        if k == 1 {
            lemma_expr(ps[0].0, typeck::key_hint(hint), env, cx, d);
            let a = typeck::t_expr(ps[0].0, typeck::key_hint(hint), env, cx, d);
            lemma_expr(ps[0].1, typeck::value_hint(hint), env, cx, a.diags);
            let b = typeck::t_expr(ps[0].1, typeck::value_hint(hint), env, cx, a.diags);
            lemma_more(d, a.diags, b.diags);
            assert(t.pairs[0] == (a.expr, b.expr));
            assert(w_pairs(ps, t.pairs, 0, env, cx));
        } else {
            let want_k = before.pairs[0].0.ty;
            let want_v = before.pairs[0].1.ty;
            lemma_expr(ps[k - 1].0, Some(want_k), env, cx, before.diags);
            let a = typeck::t_expr(ps[k - 1].0, Some(want_k), env, cx, before.diags);
            let da = typeck::mismatch("map key expected `"@, want_k, a.expr.ty, a.expr.span, a.diags);
            lemma_more(before.diags, a.diags, da);
            lemma_expr(ps[k - 1].1, Some(want_v), env, cx, da);
            let b = typeck::t_expr(ps[k - 1].1, Some(want_v), env, cx, da);
            lemma_more(before.diags, da, b.diags);
            lemma_more(before.diags, b.diags, t.diags);
            lemma_more(d, before.diags, t.diags);
            lemma_w_pairs(ps, before.pairs, t.pairs, k - 1, env, cx);
            if forall|i: int|
                0 <= i < k ==> suits((#[trigger] t.pairs[i]).0.ty, t.pairs[0].0.ty) && suits(t.pairs[i].1.ty, t.pairs[0].1.ty) {
                assert(suits(t.pairs[k - 1].0.ty, t.pairs[0].0.ty));
                assert forall|i: int| 0 <= i < k - 1 implies suits((#[trigger] before.pairs[i]).0.ty, before.pairs[0].0.ty) && suits(
                    before.pairs[i].1.ty,
                    before.pairs[0].1.ty,
                ) by {
                    assert(t.pairs[i] == before.pairs[i]);
                }
            }
            if none(d, t.diags) {
                assert forall|i: int| 0 <= i < k implies suits((#[trigger] t.pairs[i]).0.ty, t.pairs[0].0.ty) && suits(
                    t.pairs[i].1.ty,
                    t.pairs[0].1.ty,
                ) by {
                    if i < k - 1 {
                        assert(t.pairs[i] == before.pairs[i]);
                    }
                    assert(t.pairs[0] == before.pairs[0]);
                }
            }
        }
    }
}

#[verifier::spinoff_prover]
#[verifier::rlimit(60)]
proof fn lemma_if(e: ExprModel, hint: Option<TypeModel>, env: Scope, cx: Cx, d: Seq<DiagnosticModel>)
    requires
        e.kind is If,
    ensures
        judged(e, typeck::t_if(e, hint, env, cx, d), env, cx, d),
    decreases e, 0int,
{
    reveal(typeck::t_if);
    reveal(w_expr);
    reveal(w_block);
    reveal(w_expr);
    let x = typeck::t_if(e, hint, env, cx, d);
    match e.kind {
        ExprKindModel::If(c, yes, no) => {
            lemma_expr(*c.it, None, env, cx, d);
            let t = typeck::t_expr(*c.it, None, env, cx, d);
            let dc = typeck::condition_check("`if` condition must be `bool`, found `"@, t.expr, t.diags);
            lemma_more(d, t.diags, dc);
            lemma_block(*yes.it, hint, env, cx, dc);
            let y = typeck::t_block(*yes.it, hint, env, cx, dc);
            lemma_more(d, dc, y.diags);
            match no {
                Some(b) => {
                    lemma_block(*b.it, hint, env, cx, y.diags);
                    let n = typeck::t_block(*b.it, hint, env, cx, y.diags);
                    lemma_more(d, y.diags, n.diags);
                    assert(arms_have(y.ty, n.ty, x.expr.ty));
                },
                None => {
                    assert(arms_have(y.ty, TypeModel::Nil, x.expr.ty));
                },
            }
        },
        _ => {},
    }
}

#[verifier::spinoff_prover]
#[verifier::rlimit(60)]
proof fn lemma_block(b: BlockModel, hint: Option<TypeModel>, env: Scope, cx: Cx, d: Seq<DiagnosticModel>)
    ensures
        ({
            let t = typeck::t_block(b, hint, env, cx, d);
            &&& more(d, t.diags)
            &&& none(d, t.diags) <==> w_block(b, t.block, env, cx)
            &&& t.ty == value_type(t.block)
        }),
    decreases b, 0int,
{
    reveal(typeck::t_block);
    reveal(w_block);
    let n = b.stmts.len() as int;
    lemma_stmts(b.stmts, n, env, cx, d);
    let s = typeck::t_stmts(b.stmts, n, env, cx, d);
    match b.tail {
        Some(e) => {
            let h = typeck::open_hint(e, hint);
            lemma_expr(e, h, s.env, cx, s.diags);
            lemma_more(d, s.diags, typeck::t_expr(e, h, s.env, cx, s.diags).diags);
        },
        None => {},
    }
}

proof fn lemma_w_stmts(ss: Seq<StmtModel>, xs: Seq<StmtModel>, ys: Seq<StmtModel>, k: int, env: Scope, cx: Cx)
    requires
        0 <= k <= ss.len(),
        k <= xs.len(),
        k <= ys.len(),
        forall|i: int| 0 <= i < k ==> xs[i] == ys[i],
    ensures
        w_stmts(ss, xs, k, env, cx) <==> w_stmts(ss, ys, k, env, cx),
        behind(xs, k, env) == behind(ys, k, env),
    decreases k,
{
    reveal(w_stmts);
    if k > 0 {
        lemma_w_stmts(ss, xs, ys, k - 1, env, cx);
    }
}

#[verifier::spinoff_prover]
#[verifier::rlimit(60)]
proof fn lemma_stmts(ss: Seq<StmtModel>, k: int, env: Scope, cx: Cx, d: Seq<DiagnosticModel>)
    requires
        0 <= k <= ss.len(),
    ensures
        ({
            let t = typeck::t_stmts(ss, k, env, cx, d);
            &&& more(d, t.diags)
            &&& t.stmts.len() == k
            &&& t.env == behind(t.stmts, k, env)
            &&& none(d, t.diags) <==> w_stmts(ss, t.stmts, k, env, cx)
        }),
    decreases ss, k,
{
    reveal(typeck::t_stmts);
    reveal(w_stmts);
    let t = typeck::t_stmts(ss, k, env, cx, d);
    if k > 0 {
        lemma_stmts(ss, k - 1, env, cx, d);
        let before = typeck::t_stmts(ss, k - 1, env, cx, d);
        lemma_stmt(ss[k - 1], before.env, cx, before.diags);
        let u = typeck::t_stmt(ss[k - 1], before.env, cx, before.diags);
        lemma_more(d, before.diags, u.diags);
        lemma_w_stmts(ss, before.stmts, t.stmts, k - 1, env, cx);
        assert(t.stmts[k - 1] == u.stmt);
    }
}

#[verifier::spinoff_prover]
#[verifier::rlimit(60)]
proof fn lemma_stmt(s: StmtModel, env: Scope, cx: Cx, d: Seq<DiagnosticModel>)
    ensures
        ({
            let t = typeck::t_stmt(s, env, cx, d);
            &&& more(d, t.diags)
            &&& none(d, t.diags) <==> w_stmt(s, t.stmt, env, cx)
            &&& t.env == past(t.stmt, env)
        }),
    decreases s, 0int,
{
    reveal(typeck::t_stmt);
    reveal(w_stmt);
    let x = typeck::t_stmt(s, env, cx, d);
    match s.kind {
        StmtKindModel::Let { name, ty, mutable, init } => {
            lemma_expr(init, typeck::annotation(ty), env, cx, d);
            let t = typeck::t_expr(init, typeck::annotation(ty), env, cx, d);
            lemma_more(d, t.diags, x.diags);
        },
        StmtKindModel::Assign(p, v) => {
            lemma_expr(p, None, env, cx, d);
            let a = typeck::t_expr(p, None, env, cx, d);
            let h = typeck::open_hint(v, Some(a.expr.ty));
            lemma_expr(v, h, env, cx, a.diags);
            let b = typeck::t_expr(v, h, env, cx, a.diags);
            lemma_more(d, a.diags, b.diags);
            lemma_more(d, b.diags, x.diags);
        },
        StmtKindModel::Expr(e) => {
            lemma_expr(e, None, env, cx, d);
        },
        StmtKindModel::Return(None) => {},
        StmtKindModel::Return(Some(e)) => {
            lemma_expr(e, Some(cx.ret), env, cx, d);
            let t = typeck::t_expr(e, Some(cx.ret), env, cx, d);
            lemma_more(d, t.diags, x.diags);
        },
        StmtKindModel::While(c, b) => {
            lemma_expr(c, None, env, cx, d);
            let t = typeck::t_expr(c, None, env, cx, d);
            let dc = typeck::condition_check("`while` condition must be `bool`, found `"@, t.expr, t.diags);
            lemma_more(d, t.diags, dc);
            lemma_block(*b.it, None, env, cx, dc);
            let y = typeck::t_block(*b.it, None, env, cx, dc);
            lemma_more(d, dc, y.diags);
        },
        StmtKindModel::If(c, yes, no) => {
            lemma_expr(c, None, env, cx, d);
            let t = typeck::t_expr(c, None, env, cx, d);
            let dc = typeck::condition_check("`if` condition must be `bool`, found `"@, t.expr, t.diags);
            lemma_more(d, t.diags, dc);
            lemma_block(*yes.it, None, env, cx, dc);
            let y = typeck::t_block(*yes.it, None, env, cx, dc);
            lemma_more(d, dc, y.diags);
            if let Some(b) = no {
                lemma_block(*b.it, None, env, cx, y.diags);
                let n = typeck::t_block(*b.it, None, env, cx, y.diags);
                lemma_more(d, y.diags, n.diags);
            }
        },
        _ => {},
    }
}

// --- whole modules ---------------------------------------------------------------------------

proof fn lemma_type(t: TypeModel, tb: Tables, span: Span, d: Seq<DiagnosticModel>)
    ensures
        more(d, typeck::in_type(t, tb, span, d)),
        none(d, typeck::in_type(t, tb, span, d)) <==> declared(t, tb),
    decreases t, 0int,
{
    match t {
        TypeModel::Query(x) => lemma_type(*x.it, tb, span, d),
        TypeModel::Res(x) => lemma_type(*x.it, tb, span, d),
        TypeModel::ResMut(x) => lemma_type(*x.it, tb, span, d),
        TypeModel::Array(x) => lemma_type(*x.it, tb, span, d),
        TypeModel::Dict(k, v) => {
            lemma_type(*k.it, tb, span, d);
            let u = typeck::in_type(*k.it, tb, span, d);
            lemma_type(*v.it, tb, span, u);
            lemma_more(d, u, typeck::in_type(*v.it, tb, span, u));
        },
        TypeModel::Fn(ps, r) => {
            lemma_types(ps, ps.len() as int, tb, span, d);
            let u = typeck::in_types(ps, ps.len() as int, tb, span, d);
            lemma_type(*r.it, tb, span, u);
            lemma_more(d, u, typeck::in_type(*r.it, tb, span, u));
        },
        _ => {},
    }
}

proof fn lemma_types(ts: Seq<TypeModel>, k: int, tb: Tables, span: Span, d: Seq<DiagnosticModel>)
    ensures
        more(d, typeck::in_types(ts, k, tb, span, d)),
        none(d, typeck::in_types(ts, k, tb, span, d)) <==> all_declared(ts, k, tb),
    decreases ts, k,
{
    if 0 < k <= ts.len() {
        lemma_types(ts, k - 1, tb, span, d);
        let u = typeck::in_types(ts, k - 1, tb, span, d);
        lemma_type(ts[k - 1], tb, span, u);
        lemma_more(d, u, typeck::in_type(ts[k - 1], tb, span, u));
    }
}

proof fn lemma_params(ps: Seq<ParamModel>, k: int, tb: Tables, d: Seq<DiagnosticModel>)
    requires
        0 <= k <= ps.len(),
    ensures
        more(d, typeck::in_params(ps, k, tb, d)),
        none(d, typeck::in_params(ps, k, tb, d)) <==> forall|i: int| 0 <= i < k ==> declared((#[trigger] ps[i]).ty, tb),
    decreases k,
{
    if k > 0 {
        lemma_params(ps, k - 1, tb, d);
        let u = typeck::in_params(ps, k - 1, tb, d);
        lemma_type(ps[k - 1].ty, tb, ps[k - 1].span, u);
        lemma_more(d, u, typeck::in_params(ps, k, tb, d));
    }
}

proof fn lemma_layout(fs: Seq<(Seq<char>, TypeModel, Span)>, k: int, tb: Tables, d: Seq<DiagnosticModel>)
    requires
        0 <= k <= fs.len(),
    ensures
        more(d, typeck::in_fields(fs, k, tb, d)),
        none(d, typeck::in_fields(fs, k, tb, d)) <==> forall|i: int| 0 <= i < k ==> declared((#[trigger] fs[i]).1, tb),
    decreases k,
{
    if k > 0 {
        lemma_layout(fs, k - 1, tb, d);
        let u = typeck::in_fields(fs, k - 1, tb, d);
        lemma_type(fs[k - 1].1, tb, fs[k - 1].2, u);
        lemma_more(d, u, typeck::in_fields(fs, k, tb, d));
    }
}

/// Whether the structs among the first `k` declarations have declared types.
spec fn layouts(ds: Seq<DeclModel>, k: int, tb: Tables) -> bool {
    forall|i: int| 0 <= i < k ==> ((#[trigger] ds[i]) matches DeclModel::Struct(s) ==> struct_declared(s.fields, tb))
}

/// Whether the types of the fields of a struct are declared.
spec fn struct_declared(fs: Seq<(Seq<char>, TypeModel, Span)>, tb: Tables) -> bool {
    forall|i: int| 0 <= i < fs.len() ==> declared((#[trigger] fs[i]).1, tb)
}

proof fn lemma_structs(ds: Seq<DeclModel>, k: int, tb: Tables, d: Seq<DiagnosticModel>)
    requires
        0 <= k <= ds.len(),
    ensures
        more(d, typeck::in_structs(ds, k, tb, d)),
        none(d, typeck::in_structs(ds, k, tb, d)) <==> layouts(ds, k, tb),
    decreases k,
{
    if k > 0 {
        lemma_structs(ds, k - 1, tb, d);
        let u = typeck::in_structs(ds, k - 1, tb, d);
        if let DeclModel::Struct(s) = ds[k - 1] {
            lemma_layout(s.fields, s.fields.len() as int, tb, u);
            lemma_more(d, u, typeck::in_structs(ds, k, tb, d));
        }
    }
}

#[verifier::spinoff_prover]
proof fn lemma_fn(f: FnDeclModel, tb: Tables, d: Seq<DiagnosticModel>)
    ensures
        more(d, typeck::t_fn(f, tb, d).1),
        none(d, typeck::t_fn(f, tb, d).1) <==> w_fn(f, typeck::t_fn(f, tb, d).0, tb),
{
    let n = f.params.len() as int;
    lemma_params(f.params, n, tb, d);
    let d0 = typeck::in_params(f.params, n, tb, d);
    lemma_type(f.ret, tb, f.span, d0);
    let d1 = typeck::in_type(f.ret, tb, f.span, d0);
    lemma_more(d, d0, d1);
    lemma_bind(Seq::empty(), f.params, n);
    let env = typeck::bind_params(Seq::empty(), f.params, n);
    assert(env == with_params(Seq::empty(), f.params));
    let cx = Cx { tb, ret: f.ret };
    lemma_block(f.body, Some(f.ret), env, cx, d1);
    let b = typeck::t_block(f.body, Some(f.ret), env, cx, d1);
    lemma_more(d, d1, b.diags);
    lemma_more(d, b.diags, typeck::t_fn(f, tb, d).1);
}

proof fn lemma_decls(ds: Seq<DeclModel>, k: int, tb: Tables, d: Seq<DiagnosticModel>)
    requires
        0 <= k <= ds.len(),
        layouts(ds, ds.len() as int, tb),
    ensures
        ({
            let t = typeck::t_decls(ds, k, tb, d);
            &&& more(d, t.1)
            &&& t.0.len() == k
            &&& none(d, t.1) <==> forall|i: int| 0 <= i < k ==> w_decl(#[trigger] ds[i], t.0[i], tb)
        }),
    decreases k,
{
    let t = typeck::t_decls(ds, k, tb, d);
    if k > 0 {
        lemma_decls(ds, k - 1, tb, d);
        let before = typeck::t_decls(ds, k - 1, tb, d);
        if let DeclModel::Fn(f) = ds[k - 1] {
            lemma_fn(f, tb, before.1);
            lemma_more(d, before.1, t.1);
        }
        if none(d, t.1) {
            assert forall|i: int| 0 <= i < k implies w_decl(#[trigger] ds[i], t.0[i], tb) by {
                if i < k - 1 {
                    assert(t.0[i] == before.0[i]);
                } else if let DeclModel::Struct(s) = ds[i] {
                    assert(struct_declared(s.fields, tb));
                }
            }
        }
    }
}

proof fn lemma_decls_more(ds: Seq<DeclModel>, k: int, tb: Tables, d: Seq<DiagnosticModel>)
    requires
        0 <= k <= ds.len(),
    ensures
        more(d, typeck::t_decls(ds, k, tb, d).1),
        typeck::t_decls(ds, k, tb, d).0.len() == k,
    decreases k,
{
    if k > 0 {
        lemma_decls_more(ds, k - 1, tb, d);
        let before = typeck::t_decls(ds, k - 1, tb, d);
        if let DeclModel::Fn(f) = ds[k - 1] {
            lemma_fn(f, tb, before.1);
            lemma_more(d, before.1, typeck::t_decls(ds, k, tb, d).1);
        }
    }
}

/// The checker accepts exactly what is well typed: it adds nothing to the complaints so far
/// where the module with the types that it filled in is the module well typed, and errors
/// where it is not.
pub proof fn law_accepted_modules_are_well_typed(m: ModuleModel, d: Seq<DiagnosticModel>)
    ensures
        ({
            let (n, c) = typeck::checked(m, d);
            &&& d.is_prefix_of(c)
            &&& forall|i: int| d.len() <= i < c.len() ==> (#[trigger] c[i]).severity == Severity::Error
            &&& c == d <==> well_typed(m, n)
        }),
{
    let k = m.decls.len() as int;
    let tb = typeck::tables_of(m.decls, k);
    let s = typeck::in_structs(m.decls, k, tb, d);
    lemma_structs(m.decls, k, tb, d);
    lemma_decls_more(m.decls, k, tb, s);
    let (n, c) = typeck::checked(m, d);
    lemma_more(d, s, c);
    assert(c.take(d.len() as int) =~= d);
    if well_typed(m, n) {
        assert forall|i: int| 0 <= i < k implies ((#[trigger] m.decls[i]) matches DeclModel::Struct(x) ==> struct_declared(
            x.fields,
            tb,
        )) by {
            assert(w_decl(m.decls[i], n.decls[i], tb));
        }
        assert(layouts(m.decls, k, tb));
    }
    if c == d || well_typed(m, n) {
        lemma_decls(m.decls, k, tb, s);
        assert(n.decls == typeck::t_decls(m.decls, k, tb, s).0);
    }
    if none(d, c) {
        assert(c =~= d);
    }
}

} // verus!
