//! Type checker for sli.
//!
//! Bottom-up checking: every expression is given a type by walking the AST,
//! with limited numeric promotion (an integer literal unifies with any of
//! the four numeric types; otherwise types must match exactly). Struct
//! field access, function calls, and ECS generics (`Query<T>`, `Res<T>`,
//! `ResMut<T>`, `Entity`) are recognised.
//!
//! The checker fills the type slots in [`crate::ast::Expr`]. Errors are
//! reported as diagnostics; the checker continues past errors so the editor
//! sees every problem in one round.

use crate::ast;
use crate::ast::{
    BinOp, Block, BlockModel, Decl, DeclModel, Expr, ExprKind, ExprKindModel, ExprModel, FnDecl, FnDeclModel, Lit, LitModel,
    Module, ModuleModel, Param, ParamModel, Stmt, StmtKind, StmtKindModel, StmtModel, StructDecl, Type, TypeModel, UnOp,
};
use crate::diag;
use crate::float;
use crate::diag::{Diagnostic, DiagnosticModel, Diagnostics};
use crate::names::NameMap;
use crate::print;
use crate::print::print_type;
use crate::source::Span;
use crate::text;
use crate::text::push_dec;
use vstd::prelude::*;
use vstd::string::*;

verus! {

/// The signature of a function.
#[derive(Debug)]
pub struct Signature {
    /// Parameter types.
    pub params: Vec<Type>,
    /// Return type.
    pub ret: Type,
}

/// The model of a [`Signature`].
pub struct SignatureModel {
    pub params: Seq<TypeModel>,
    pub ret: TypeModel,
}

impl View for Signature {
    type V = SignatureModel;

    open spec fn view(&self) -> SignatureModel {
        SignatureModel { params: ast::types_model(self.params@), ret: self.ret@ }
    }
}

/// The fields of a struct, in declaration order.
#[derive(Debug)]
pub struct Layout {
    /// `(field name, field type)`
    pub fields: Vec<(String, Type)>,
}

/// The model of a list of fields.
pub open spec fn fields_model(v: Seq<(String, Type)>) -> Seq<(Seq<char>, TypeModel)> {
    Seq::new(v.len(), |i: int| (v[i].0@, v[i].1@))
}

impl View for Layout {
    type V = Seq<(Seq<char>, TypeModel)>;

    open spec fn view(&self) -> Seq<(Seq<char>, TypeModel)> {
        fields_model(self.fields@)
    }
}

/// Per-module symbol table built by the checker — function signatures,
/// struct layouts, and const types.
#[derive(Debug)]
pub struct TypeTable {
    /// `name -> (param types, return type)`
    pub functions: NameMap<Signature>,
    /// `name -> field list`
    pub structs: NameMap<Layout>,
    /// `name -> declared type`
    pub constants: NameMap<Type>,
}

/// The model of a [`TypeTable`].
pub struct Tables {
    pub functions: Map<Seq<char>, SignatureModel>,
    pub structs: Map<Seq<char>, Seq<(Seq<char>, TypeModel)>>,
    pub constants: Map<Seq<char>, TypeModel>,
}

impl View for TypeTable {
    type V = Tables;

    open spec fn view(&self) -> Tables {
        Tables { functions: self.functions@, structs: self.structs@, constants: self.constants@ }
    }
}

/// The types of a list of parameters.
pub open spec fn param_types(ps: Seq<ParamModel>) -> Seq<TypeModel> {
    Seq::new(ps.len(), |i: int| ps[i].ty)
}

/// The names and types of the fields of a declaration.
pub open spec fn layout_of(fs: Seq<(Seq<char>, TypeModel, Span)>) -> Seq<(Seq<char>, TypeModel)> {
    Seq::new(fs.len(), |i: int| (fs[i].0, fs[i].1))
}

/// The symbols of the first `k` declarations.
pub open spec fn tables_of(ds: Seq<DeclModel>, k: int) -> Tables
    decreases k,
{
    if k <= 0 {
        Tables { functions: Map::empty(), structs: Map::empty(), constants: Map::empty() }
    } else {
        let t = tables_of(ds, k - 1);
        match ds[k - 1] {
            DeclModel::Fn(f) => Tables {
                functions: t.functions.insert(f.name, SignatureModel { params: param_types(f.params), ret: f.ret }),
                ..t
            },
            DeclModel::Struct(s) => Tables { structs: t.structs.insert(s.name, layout_of(s.fields)), ..t },
            DeclModel::Const(c) => Tables { constants: t.constants.insert(c.name, c.ty), ..t },
        }
    }
}

/// How a message names a type.
pub open spec fn shown(t: TypeModel) -> Seq<char> {
    print::of_type(Seq::empty(), t)
}

/// Whether a value of type `a` may stand where type `b` is called for.
pub open spec fn fits(a: TypeModel, b: TypeModel) -> bool {
    a is Error || b is Error || a == b
}

/// The complaints about a written type: a struct name that no declaration has.
pub open spec fn in_type(t: TypeModel, tb: Tables, span: Span, d: Seq<DiagnosticModel>) -> Seq<DiagnosticModel>
    decreases t, 0int,
{
    match t {
        TypeModel::Struct(n) => if tb.structs.dom().contains(n) {
            d
        } else {
            d.push(diag::error_at(span, "unknown type `"@ + n + "`"@))
        },
        TypeModel::Query(x) => in_type(*x.it, tb, span, d),
        TypeModel::Res(x) => in_type(*x.it, tb, span, d),
        TypeModel::ResMut(x) => in_type(*x.it, tb, span, d),
        TypeModel::Array(x) => in_type(*x.it, tb, span, d),
        TypeModel::Dict(k, v) => in_type(*v.it, tb, span, in_type(*k.it, tb, span, d)),
        TypeModel::Fn(ps, r) => in_type(*r.it, tb, span, in_types(ps, ps.len() as int, tb, span, d)),
        _ => d,
    }
}

/// The complaints about the first `k` types of a list.
pub open spec fn in_types(ts: Seq<TypeModel>, k: int, tb: Tables, span: Span, d: Seq<DiagnosticModel>) -> Seq<DiagnosticModel>
    decreases ts, k,
{
    if k <= 0 || k > ts.len() {
        d
    } else {
        in_type(ts[k - 1], tb, span, in_types(ts, k - 1, tb, span, d))
    }
}

// --- typing rules -----------------------------------------------------------------

/// The names in scope with their types; the last binding of a name counts.
pub type Scope = Seq<(Seq<char>, TypeModel)>;

/// What stays the same inside one function: the tables, and the declared return type.
pub struct Cx {
    pub tb: Tables,
    pub ret: TypeModel,
}

/// A type, and the complaints so far.
pub struct Verdict {
    pub ty: TypeModel,
    pub diags: Seq<DiagnosticModel>,
}

pub open spec fn good(ty: TypeModel, d: Seq<DiagnosticModel>) -> Verdict {
    Verdict { ty, diags: d }
}

pub open spec fn bad(ty: TypeModel, span: Span, message: Seq<char>, d: Seq<DiagnosticModel>) -> Verdict {
    Verdict { ty, diags: d.push(diag::error_at(span, message)) }
}

/// `prefix a middle b suffix`, where `a` and `b` are types.
pub open spec fn two_types(prefix: Seq<char>, a: TypeModel, middle: Seq<char>, b: TypeModel) -> Seq<char> {
    prefix + shown(a) + middle + shown(b) + "`"@
}

/// `prefix a suffix`, where `a` is a type.
pub open spec fn one_type(prefix: Seq<char>, a: TypeModel) -> Seq<char> {
    prefix + shown(a) + "`"@
}

/// The binding of a local name.
pub open spec fn local(env: Scope, n: Seq<char>) -> Option<TypeModel>
    decreases env.len(),
{
    if env.len() == 0 {
        None
    } else if env.last().0 == n {
        Some(env.last().1)
    } else {
        local(env.drop_last(), n)
    }
}

/// The type of a name: of a local, a constant, or a function.
pub open spec fn name_type(n: Seq<char>, env: Scope, tb: Tables) -> Option<TypeModel> {
    if local(env, n) is Some {
        local(env, n)
    } else if tb.constants.dom().contains(n) {
        Some(tb.constants[n])
    } else if tb.functions.dom().contains(n) {
        Some(TypeModel::Fn(tb.functions[n].params, ast::node(tb.functions[n].ret)))
    } else {
        None
    }
}

/// The type of a literal. An integer literal takes whichever numeric type the context calls
/// for, a float literal whichever float type.
pub open spec fn lit_type(l: LitModel, hint: Option<TypeModel>) -> TypeModel {
    match l {
        LitModel::Nil => TypeModel::Nil,
        LitModel::Bool(_) => TypeModel::Bool,
        LitModel::Int(_) => if hint is Some && ast::numeric(hint->0) {
            hint->0
        } else {
            TypeModel::I64
        },
        LitModel::Float(_) => if hint is Some && ast::floating(hint->0) {
            hint->0
        } else {
            TypeModel::F64
        },
        LitModel::Str(_) => TypeModel::Str,
    }
}

/// The value of a literal of a type: an integer literal of a float type is a float.
pub open spec fn literal_value(l: LitModel, ty: TypeModel) -> LitModel {
    match l {
        LitModel::Int(v) => if ast::floating(ty) {
            LitModel::Float(float::of_int(v as int))
        } else {
            l
        },
        _ => l,
    }
}

/// The float that an integer literal of a float type is.
pub(crate) fn as_float(l: &Lit, ty: &Type) -> (r: Option<u64>)
    ensures
        match r {
            Some(b) => literal_value(l@, ty@) == LitModel::Float(b) && l@ is Int,
            None => literal_value(l@, ty@) == l@,
        },
{
    match l {
        Lit::Int(v) => {
            if ty.is_float() {
                Some(float::from_int(*v))
            } else {
                None
            }
        },
        _ => None,
    }
}

/// Whether an operator calculates.
pub open spec fn calculates(op: BinOp) -> bool {
    op == BinOp::Add || op == BinOp::Sub || op == BinOp::Mul || op == BinOp::Div || op == BinOp::Mod
}

/// Whether an expression is an integer literal, or a calculation with nothing else.
pub open spec fn int_literal(e: ExprModel) -> bool
    decreases e,
{
    match e.kind {
        ExprKindModel::Lit(l) => l is Int,
        ExprKindModel::Unary(op, x) => op == UnOp::Neg && int_literal(*x.it),
        ExprKindModel::Binary(op, l, r) => calculates(op) && int_literal(*l.it) && int_literal(*r.it),
        _ => false,
    }
}

/// What is called for in an expression, where its literals have no other type to go by.
pub open spec fn literal_hint(e: ExprModel, hint: Option<TypeModel>) -> Option<TypeModel> {
    if int_literal(e) {
        hint
    } else {
        None
    }
}

/// Whether the integer literals of an expression may take a type from where it stands: those
/// of a calculation with nothing else, and those that a block or an `if` ends in.
pub open spec fn open_literal(e: ExprModel) -> bool {
    int_literal(e) || e.kind is Block || e.kind is If
}

/// What is called for where only an integer literal takes a type.
pub open spec fn open_hint(e: ExprModel, hint: Option<TypeModel>) -> Option<TypeModel> {
    if open_literal(e) {
        hint
    } else {
        None
    }
}

/// What is called for in an index: the key of a map.
pub open spec fn index_hint(x: TypeModel) -> Option<TypeModel> {
    match x {
        TypeModel::Dict(k, _) => Some(*k.it),
        _ => None,
    }
}

/// The type of a unary operation.
pub open spec fn unary_verdict(op: UnOp, x: TypeModel, span: Span, d: Seq<DiagnosticModel>) -> Verdict {
    if op == UnOp::Neg && ast::numeric(x) {
        good(x, d)
    } else if op == UnOp::Not && x is Bool {
        good(TypeModel::Bool, d)
    } else if x is Error {
        good(TypeModel::Error, d)
    } else {
        bad(TypeModel::Error, span, one_type("invalid unary operator for `"@, x), d)
    }
}

/// The type of a binary operation.
pub open spec fn binary_verdict(op: BinOp, l: TypeModel, r: TypeModel, span: Span, d: Seq<DiagnosticModel>) -> Verdict {
    if l is Error || r is Error {
        good(TypeModel::Error, d)
    } else {
        match op {
            BinOp::Add | BinOp::Sub | BinOp::Mul | BinOp::Div | BinOp::Mod => if ast::numeric(l) && l == r {
                good(l, d)
            } else {
                bad(
                    TypeModel::Error,
                    span,
                    two_types("arithmetic operator requires matching numeric types, got `"@, l, "` and `"@, r),
                    d,
                )
            },
            BinOp::And | BinOp::Or => if l is Bool && r is Bool {
                good(TypeModel::Bool, d)
            } else {
                bad(TypeModel::Bool, span, two_types("logical operator requires `bool`, got `"@, l, "` and `"@, r), d)
            },
            _ => if l == r {
                good(TypeModel::Bool, d)
            } else {
                bad(
                    TypeModel::Bool,
                    span,
                    two_types("comparison requires matching types, got `"@, l, "` and `"@, r),
                    d,
                )
            },
        }
    }
}

/// `expected {want}, found {got}` unless the types fit.
pub open spec fn mismatch(prefix: Seq<char>, want: TypeModel, got: TypeModel, span: Span, d: Seq<DiagnosticModel>) -> Seq<DiagnosticModel> {
    if fits(got, want) {
        d
    } else {
        d.push(diag::error_at(span, two_types(prefix, want, "`, found `"@, got)))
    }
}

/// The complaints about the first `k` arguments of a call.
pub open spec fn args_check(ps: Seq<TypeModel>, args: Seq<ExprModel>, k: int, d: Seq<DiagnosticModel>) -> Seq<DiagnosticModel>
    decreases k,
{
    if k <= 0 {
        d
    } else {
        mismatch(
            "argument "@ + text::dec(k as nat) + " expected `"@,
            ps[k - 1],
            args[k - 1].ty,
            args[k - 1].span,
            args_check(ps, args, k - 1, d),
        )
    }
}

/// The type of a call.
pub open spec fn call_verdict(c: TypeModel, args: Seq<ExprModel>, span: Span, d: Seq<DiagnosticModel>) -> Verdict {
    match c {
        TypeModel::Fn(ps, r) => if ps.len() != args.len() {
            bad(
                *r.it,
                span,
                "function expects "@ + text::dec(ps.len()) + " argument(s), found "@ + text::dec(args.len()),
                d,
            )
        } else {
            good(*r.it, args_check(ps, args, args.len() as int, d))
        },
        TypeModel::Error => good(TypeModel::Error, d),
        _ => bad(TypeModel::Error, span, one_type("cannot call value of type `"@, c), d),
    }
}

/// The type of the first field of a name, from the `i`th on.
pub open spec fn field_type(fs: Seq<(Seq<char>, TypeModel)>, n: Seq<char>, i: int) -> Option<TypeModel>
    decreases fs.len() - i,
{
    if i < 0 || i >= fs.len() {
        None
    } else if fs[i].0 == n {
        Some(fs[i].1)
    } else {
        field_type(fs, n, i + 1)
    }
}

/// The type of a field access.
pub open spec fn field_verdict(x: TypeModel, n: Seq<char>, tb: Tables, span: Span, d: Seq<DiagnosticModel>) -> Verdict {
    match x {
        TypeModel::Struct(s) => if !tb.structs.dom().contains(s) {
            good(TypeModel::Error, d)
        } else {
            match field_type(tb.structs[s], n, 0) {
                Some(t) => good(t, d),
                None => bad(TypeModel::Error, span, "struct `"@ + s + "` has no field `"@ + n + "`"@, d),
            }
        },
        TypeModel::Error => good(TypeModel::Error, d),
        _ => bad(TypeModel::Error, span, "`"@ + shown(x) + "` is not a struct"@, d),
    }
}

/// The type of an index access.
pub open spec fn index_verdict(x: TypeModel, i: ExprModel, span: Span, d: Seq<DiagnosticModel>) -> Verdict {
    match x {
        TypeModel::Array(t) => if ast::integer(i.ty) || i.ty is Error {
            good(*t.it, d)
        } else {
            bad(*t.it, i.span, one_type("array index must be integer, found `"@, i.ty), d)
        },
        TypeModel::Dict(k, v) => good(*v.it, mismatch("map index expected `"@, *k.it, i.ty, i.span, d)),
        TypeModel::Error => good(TypeModel::Error, d),
        _ => bad(TypeModel::Error, span, one_type("cannot index value of type `"@, x), d),
    }
}

/// The first initializer of a field, from the `i`th on.
pub open spec fn init_of(fs: Seq<(Seq<char>, ExprModel)>, n: Seq<char>, i: int) -> Option<ExprModel>
    decreases fs.len() - i,
{
    if i < 0 || i >= fs.len() {
        None
    } else if fs[i].0 == n {
        Some(fs[i].1)
    } else {
        init_of(fs, n, i + 1)
    }
}

/// The complaints about the first `k` declared fields of a struct literal.
pub open spec fn fields_check(decl: Seq<(Seq<char>, TypeModel)>, k: int, fs: Seq<(Seq<char>, ExprModel)>, span: Span, d: Seq<DiagnosticModel>) -> Seq<DiagnosticModel>
    decreases k,
{
    if k <= 0 {
        d
    } else {
        let before = fields_check(decl, k - 1, fs, span, d);
        let (n, t) = decl[k - 1];
        match init_of(fs, n, 0) {
            Some(e) => mismatch("field `"@ + n + "` expected `"@, t, e.ty, e.span, before),
            None => before.push(diag::error_at(span, "missing field `"@ + n + "` in struct literal"@)),
        }
    }
}

/// The type of the two branches of an `if`.
pub open spec fn branch_type(a: TypeModel, b: TypeModel) -> TypeModel {
    if a == b {
        a
    } else if a is Nil || b is Nil {
        TypeModel::Nil
    } else {
        TypeModel::Error
    }
}

/// The complaint about a condition that is no `bool`.
pub open spec fn condition_check(what: Seq<char>, c: ExprModel, d: Seq<DiagnosticModel>) -> Seq<DiagnosticModel> {
    if c.ty is Bool || c.ty is Error {
        d
    } else {
        d.push(diag::error_at(c.span, one_type(what, c.ty)))
    }
}

/// A typed expression, and the complaints so far.
pub struct Typed {
    pub expr: ExprModel,
    pub diags: Seq<DiagnosticModel>,
}

/// Typed expressions, and the complaints so far.
pub struct TypedList {
    pub exprs: Seq<ExprModel>,
    pub diags: Seq<DiagnosticModel>,
}

/// Typed field initializers, and the complaints so far.
pub struct TypedInits {
    pub inits: Seq<(Seq<char>, ExprModel)>,
    pub diags: Seq<DiagnosticModel>,
}

/// Typed map entries, and the complaints so far.
pub struct TypedPairs {
    pub pairs: Seq<(ExprModel, ExprModel)>,
    pub diags: Seq<DiagnosticModel>,
}

/// A typed block with its type, and the complaints so far.
pub struct TypedBlock {
    pub block: BlockModel,
    pub ty: TypeModel,
    pub diags: Seq<DiagnosticModel>,
}

/// Typed statements, the scope behind them, and the complaints so far.
pub struct TypedStmts {
    pub stmts: Seq<StmtModel>,
    pub env: Scope,
    pub diags: Seq<DiagnosticModel>,
}

/// A typed statement, the scope behind it, and the complaints so far.
pub struct TypedStmt {
    pub stmt: StmtModel,
    pub env: Scope,
    pub diags: Seq<DiagnosticModel>,
}

/// An expression with a new kind and a verdict.
pub open spec fn typed(e: ExprModel, kind: ExprKindModel, v: Verdict) -> Typed {
    Typed { expr: ExprModel { kind, span: e.span, ty: v.ty }, diags: v.diags }
}

/// The scope with the first `k` parameters bound.
pub open spec fn bind_params(env: Scope, ps: Seq<ParamModel>, k: int) -> Scope
    decreases k,
{
    if k <= 0 {
        env
    } else {
        bind_params(env, ps, k - 1).push((ps[k - 1].name, ps[k - 1].ty))
    }
}

/// The type of an expression where `hint` is called for.
#[verifier::opaque]
pub open spec fn t_expr(e: ExprModel, hint: Option<TypeModel>, env: Scope, cx: Cx, d: Seq<DiagnosticModel>) -> Typed
    decreases e, 1int,
{
    match e.kind {
        ExprKindModel::Lit(l) => typed(e, e.kind, good(lit_type(l, hint), d)),
        ExprKindModel::Ident(n) => match name_type(n, env, cx.tb) {
            Some(t) => typed(e, e.kind, good(t, d)),
            None => typed(e, e.kind, bad(TypeModel::Error, e.span, "undefined name `"@ + n + "`"@, d)),
        },
        ExprKindModel::Binary(..) => t_binary(e, hint, env, cx, d),
        ExprKindModel::Unary(op, x) => {
            let t = t_expr(*x.it, literal_hint(e, hint), env, cx, d);
            typed(e, ExprKindModel::Unary(op, ast::node(t.expr)), unary_verdict(op, t.expr.ty, e.span, t.diags))
        },
        ExprKindModel::Call(..) => t_call(e, env, cx, d),
        ExprKindModel::Field(x, n) => {
            let t = t_expr(*x.it, None, env, cx, d);
            typed(e, ExprKindModel::Field(ast::node(t.expr), n), field_verdict(t.expr.ty, n, cx.tb, e.span, t.diags))
        },
        ExprKindModel::Index(x, i) => {
            let t = t_expr(*x.it, None, env, cx, d);
            let u = t_expr(*i.it, open_hint(*i.it, index_hint(t.expr.ty)), env, cx, t.diags);
            typed(
                e,
                ExprKindModel::Index(ast::node(t.expr), ast::node(u.expr)),
                index_verdict(t.expr.ty, u.expr, e.span, u.diags),
            )
        },
        ExprKindModel::StructLit(..) => t_struct(e, env, cx, d),
        ExprKindModel::ArrayLit(..) => t_array(e, hint, env, cx, d),
        ExprKindModel::MapLit(..) => t_map(e, hint, env, cx, d),
        ExprKindModel::Closure(ps, body) => {
            let t = t_expr(*body.it, None, bind_params(env, ps, ps.len() as int), cx, d);
            typed(
                e,
                ExprKindModel::Closure(ps, ast::node(t.expr)),
                good(TypeModel::Fn(param_types(ps), ast::node(t.expr.ty)), t.diags),
            )
        },
        ExprKindModel::Block(b) => {
            let t = t_block(*b.it, hint, env, cx, d);
            typed(e, ExprKindModel::Block(ast::node(t.block)), good(t.ty, t.diags))
        },
        ExprKindModel::If(..) => t_if(e, hint, env, cx, d),
    }
}

/// A binary operation. An integer literal takes the type of the other operand, where that
/// is numeric; where both are literals, what is called for.
#[verifier::opaque]
pub open spec fn t_binary(e: ExprModel, hint: Option<TypeModel>, env: Scope, cx: Cx, d: Seq<DiagnosticModel>) -> Typed
    decreases e, 0int,
{
    match e.kind {
        ExprKindModel::Binary(op, l, r) => if int_literal(*l.it) && !int_literal(*r.it) {
            let b = t_expr(*r.it, None, env, cx, d);
            let a = t_expr(*l.it, Some(b.expr.ty), env, cx, b.diags);
            typed(
                e,
                ExprKindModel::Binary(op, ast::node(a.expr), ast::node(b.expr)),
                binary_verdict(op, a.expr.ty, b.expr.ty, e.span, a.diags),
            )
        } else {
            let a = t_expr(*l.it, literal_hint(e, hint), env, cx, d);
            let want = if int_literal(*r.it) {
                Some(a.expr.ty)
            } else {
                None
            };
            let b = t_expr(*r.it, want, env, cx, a.diags);
            typed(
                e,
                ExprKindModel::Binary(op, ast::node(a.expr), ast::node(b.expr)),
                binary_verdict(op, a.expr.ty, b.expr.ty, e.span, b.diags),
            )
        },
        _ => Typed { expr: e, diags: d },
    }
}

/// The parameter types of a callee.
pub open spec fn callee_params(t: TypeModel) -> Seq<TypeModel> {
    match t {
        TypeModel::Fn(ps, _) => ps,
        _ => Seq::empty(),
    }
}

/// A call.
#[verifier::opaque]
pub open spec fn t_call(e: ExprModel, env: Scope, cx: Cx, d: Seq<DiagnosticModel>) -> Typed
    decreases e, 0int,
{
    match e.kind {
        ExprKindModel::Call(c, args) => {
            let f = t_expr(*c.it, None, env, cx, d);
            let a = t_args(args, args.len() as int, callee_params(f.expr.ty), env, cx, f.diags);
            typed(e, ExprKindModel::Call(ast::node(f.expr), a.exprs), call_verdict(f.expr.ty, a.exprs, e.span, a.diags))
        },
        _ => Typed { expr: e, diags: d },
    }
}

/// The first `k` arguments of a call, each against its parameter.
#[verifier::opaque]
pub open spec fn t_args(es: Seq<ExprModel>, k: int, ps: Seq<TypeModel>, env: Scope, cx: Cx, d: Seq<DiagnosticModel>) -> TypedList
    decreases es, k,
{
    if k <= 0 || k > es.len() {
        TypedList { exprs: Seq::empty(), diags: d }
    } else {
        let before = t_args(es, k - 1, ps, env, cx, d);
        let want = if k - 1 < ps.len() {
            Some(ps[k - 1])
        } else {
            None
        };
        let t = t_expr(es[k - 1], want, env, cx, before.diags);
        TypedList { exprs: before.exprs.push(t.expr), diags: t.diags }
    }
}

/// A struct literal.
#[verifier::opaque]
pub open spec fn t_struct(e: ExprModel, env: Scope, cx: Cx, d: Seq<DiagnosticModel>) -> Typed
    decreases e, 0int,
{
    match e.kind {
        ExprKindModel::StructLit(n, fs) => if cx.tb.structs.dom().contains(n) {
            let decl = cx.tb.structs[n];
            let t = t_inits(fs, fs.len() as int, decl, env, cx, d);
            typed(
                e,
                ExprKindModel::StructLit(n, t.inits),
                good(TypeModel::Struct(n), fields_check(decl, decl.len() as int, t.inits, e.span, t.diags)),
            )
        } else {
            typed(e, e.kind, bad(TypeModel::Error, e.span, "unknown struct `"@ + n + "`"@, d))
        },
        _ => Typed { expr: e, diags: d },
    }
}

/// The first `k` field initializers, each against the declared field.
#[verifier::opaque]
pub open spec fn t_inits(fs: Seq<(Seq<char>, ExprModel)>, k: int, decl: Seq<(Seq<char>, TypeModel)>, env: Scope, cx: Cx, d: Seq<DiagnosticModel>) -> TypedInits
    decreases fs, k,
{
    if k <= 0 || k > fs.len() {
        TypedInits { inits: Seq::empty(), diags: d }
    } else {
        let before = t_inits(fs, k - 1, decl, env, cx, d);
        let t = t_expr(fs[k - 1].1, field_type(decl, fs[k - 1].0, 0), env, cx, before.diags);
        TypedInits { inits: before.inits.push((fs[k - 1].0, t.expr)), diags: t.diags }
    }
}

/// The element type that a hint calls for.
pub open spec fn element_hint(hint: Option<TypeModel>) -> Option<TypeModel> {
    match hint {
        Some(TypeModel::Array(t)) => Some(*t.it),
        _ => None,
    }
}

/// An array literal. The first element pins the element type.
#[verifier::opaque]
pub open spec fn t_array(e: ExprModel, hint: Option<TypeModel>, env: Scope, cx: Cx, d: Seq<DiagnosticModel>) -> Typed
    decreases e, 0int,
{
    match e.kind {
        ExprKindModel::ArrayLit(es) => if es.len() == 0 {
            match element_hint(hint) {
                Some(t) => typed(e, e.kind, good(TypeModel::Array(ast::node(t)), d)),
                None => typed(
                    e,
                    e.kind,
                    bad(TypeModel::Error, e.span, "empty array literal `[]` requires a type annotation"@, d),
                ),
            }
        } else {
            let t = t_elems(es, es.len() as int, element_hint(hint), env, cx, d);
            typed(e, ExprKindModel::ArrayLit(t.exprs), good(TypeModel::Array(ast::node(t.exprs[0].ty)), t.diags))
        },
        _ => Typed { expr: e, diags: d },
    }
}

/// The first `k` elements of an array, the first against `hint`, the others against the first.
#[verifier::opaque]
pub open spec fn t_elems(es: Seq<ExprModel>, k: int, hint: Option<TypeModel>, env: Scope, cx: Cx, d: Seq<DiagnosticModel>) -> TypedList
    decreases es, k,
{
    if k <= 0 || k > es.len() {
        TypedList { exprs: Seq::empty(), diags: d }
    } else {
        let before = t_elems(es, k - 1, hint, env, cx, d);
        if k == 1 {
            let t = t_expr(es[0], hint, env, cx, d);
            TypedList { exprs: seq![t.expr], diags: t.diags }
        } else {
            let want = before.exprs[0].ty;
            let t = t_expr(es[k - 1], Some(want), env, cx, before.diags);
            TypedList {
                exprs: before.exprs.push(t.expr),
                diags: mismatch("array element expected `"@, want, t.expr.ty, t.expr.span, t.diags),
            }
        }
    }
}

/// The key type that a hint calls for.
pub open spec fn key_hint(hint: Option<TypeModel>) -> Option<TypeModel> {
    match hint {
        Some(TypeModel::Dict(k, v)) => Some(*k.it),
        _ => None,
    }
}

/// The value type that a hint calls for.
pub open spec fn value_hint(hint: Option<TypeModel>) -> Option<TypeModel> {
    match hint {
        Some(TypeModel::Dict(k, v)) => Some(*v.it),
        _ => None,
    }
}

/// A map literal. The first entry pins the key and value types.
#[verifier::opaque]
pub open spec fn t_map(e: ExprModel, hint: Option<TypeModel>, env: Scope, cx: Cx, d: Seq<DiagnosticModel>) -> Typed
    decreases e, 0int,
{
    match e.kind {
        ExprKindModel::MapLit(ps) => if ps.len() == 0 {
            match hint {
                Some(TypeModel::Dict(k, v)) => typed(e, e.kind, good(TypeModel::Dict(k, v), d)),
                _ => typed(
                    e,
                    e.kind,
                    bad(TypeModel::Error, e.span, "empty map literal `[:]` requires a type annotation"@, d),
                ),
            }
        } else {
            let t = t_pairs(ps, ps.len() as int, hint, env, cx, d);
            typed(
                e,
                ExprKindModel::MapLit(t.pairs),
                good(TypeModel::Dict(ast::node(t.pairs[0].0.ty), ast::node(t.pairs[0].1.ty)), t.diags),
            )
        },
        _ => Typed { expr: e, diags: d },
    }
}

/// The first `k` entries of a map, the first against `hint`, the others against the first.
#[verifier::opaque]
pub open spec fn t_pairs(ps: Seq<(ExprModel, ExprModel)>, k: int, hint: Option<TypeModel>, env: Scope, cx: Cx, d: Seq<DiagnosticModel>) -> TypedPairs
    decreases ps, k,
{
    if k <= 0 || k > ps.len() {
        TypedPairs { pairs: Seq::empty(), diags: d }
    } else {
        let before = t_pairs(ps, k - 1, hint, env, cx, d);
        if k == 1 {
            let a = t_expr(ps[0].0, key_hint(hint), env, cx, d);
            let b = t_expr(ps[0].1, value_hint(hint), env, cx, a.diags);
            TypedPairs { pairs: seq![(a.expr, b.expr)], diags: b.diags }
        } else {
            let want_k = before.pairs[0].0.ty;
            let want_v = before.pairs[0].1.ty;
            let a = t_expr(ps[k - 1].0, Some(want_k), env, cx, before.diags);
            let da = mismatch("map key expected `"@, want_k, a.expr.ty, a.expr.span, a.diags);
            let b = t_expr(ps[k - 1].1, Some(want_v), env, cx, da);
            TypedPairs {
                pairs: before.pairs.push((a.expr, b.expr)),
                diags: mismatch("map value expected `"@, want_v, b.expr.ty, b.expr.span, b.diags),
            }
        }
    }
}

/// An `if` expression.
#[verifier::opaque]
pub open spec fn t_if(e: ExprModel, hint: Option<TypeModel>, env: Scope, cx: Cx, d: Seq<DiagnosticModel>) -> Typed
    decreases e, 0int,
{
    match e.kind {
        ExprKindModel::If(c, yes, no) => {
            let t = t_expr(*c.it, None, env, cx, d);
            let y = t_block(*yes.it, hint, env, cx, condition_check("`if` condition must be `bool`, found `"@, t.expr, t.diags));
            match no {
                Some(b) => {
                    let n = t_block(*b.it, hint, env, cx, y.diags);
                    typed(
                        e,
                        ExprKindModel::If(ast::node(t.expr), ast::node(y.block), Some(ast::node(n.block))),
                        good(branch_type(y.ty, n.ty), n.diags),
                    )
                },
                None => typed(
                    e,
                    ExprKindModel::If(ast::node(t.expr), ast::node(y.block), None),
                    good(branch_type(y.ty, TypeModel::Nil), y.diags),
                ),
            }
        },
        _ => Typed { expr: e, diags: d },
    }
}

/// A block, whose tail is an integer literal as `hint` calls for. What it binds is out of scope behind it.
#[verifier::opaque]
pub open spec fn t_block(b: BlockModel, hint: Option<TypeModel>, env: Scope, cx: Cx, d: Seq<DiagnosticModel>) -> TypedBlock
    decreases b, 0int,
{
    let s = t_stmts(b.stmts, b.stmts.len() as int, env, cx, d);
    match b.tail {
        Some(e) => {
            let t = t_expr(e, open_hint(e, hint), s.env, cx, s.diags);
            TypedBlock {
                block: BlockModel { stmts: s.stmts, tail: Some(t.expr), span: b.span },
                ty: t.expr.ty,
                diags: t.diags,
            }
        },
        None => TypedBlock {
            block: BlockModel { stmts: s.stmts, tail: None, span: b.span },
            ty: TypeModel::Nil,
            diags: s.diags,
        },
    }
}

/// The first `k` statements.
#[verifier::opaque]
pub open spec fn t_stmts(ss: Seq<StmtModel>, k: int, env: Scope, cx: Cx, d: Seq<DiagnosticModel>) -> TypedStmts
    decreases ss, k,
{
    if k <= 0 || k > ss.len() {
        TypedStmts { stmts: Seq::empty(), env, diags: d }
    } else {
        let before = t_stmts(ss, k - 1, env, cx, d);
        let t = t_stmt(ss[k - 1], before.env, cx, before.diags);
        TypedStmts { stmts: before.stmts.push(t.stmt), env: t.env, diags: t.diags }
    }
}

/// The type that a `let` calls for.
pub open spec fn annotation(ty: TypeModel) -> Option<TypeModel> {
    if ty is Unknown {
        None
    } else {
        Some(ty)
    }
}

/// One statement.
#[verifier::opaque]
pub open spec fn t_stmt(s: StmtModel, env: Scope, cx: Cx, d: Seq<DiagnosticModel>) -> TypedStmt
    decreases s, 0int,
{
    match s.kind {
        StmtKindModel::Let { name, ty, mutable, init } => {
            let t = t_expr(init, annotation(ty), env, cx, d);
            let bound = if ty is Unknown {
                t.expr.ty
            } else {
                ty
            };
            TypedStmt {
                stmt: StmtModel { kind: StmtKindModel::Let { name, ty: bound, mutable, init: t.expr }, span: s.span },
                env: env.push((name, bound)),
                diags: if ty is Unknown {
                    t.diags
                } else {
                    mismatch("expected `"@, ty, t.expr.ty, t.expr.span, t.diags)
                },
            }
        },
        StmtKindModel::Assign(p, v) => {
            let a = t_expr(p, None, env, cx, d);
            let b = t_expr(v, open_hint(v, Some(a.expr.ty)), env, cx, a.diags);
            TypedStmt {
                stmt: StmtModel { kind: StmtKindModel::Assign(a.expr, b.expr), span: s.span },
                env,
                diags: if fits(b.expr.ty, a.expr.ty) {
                    b.diags
                } else {
                    b.diags.push(
                        diag::error_at(s.span, two_types("cannot assign `"@, b.expr.ty, "` to `"@, a.expr.ty)),
                    )
                },
            }
        },
        StmtKindModel::Expr(e) => {
            let t = t_expr(e, None, env, cx, d);
            TypedStmt { stmt: StmtModel { kind: StmtKindModel::Expr(t.expr), span: s.span }, env, diags: t.diags }
        },
        StmtKindModel::Return(None) => TypedStmt {
            stmt: s,
            env,
            diags: if cx.ret is Nil {
                d
            } else {
                d.push(diag::error_at(s.span, one_type("expected return value of type `"@, cx.ret)))
            },
        },
        StmtKindModel::Return(Some(e)) => {
            let t = t_expr(e, Some(cx.ret), env, cx, d);
            TypedStmt {
                stmt: StmtModel { kind: StmtKindModel::Return(Some(t.expr)), span: s.span },
                env,
                diags: mismatch("return type mismatch: expected `"@, cx.ret, t.expr.ty, s.span, t.diags),
            }
        },
        StmtKindModel::While(c, b) => {
            let t = t_expr(c, None, env, cx, d);
            let y = t_block(*b.it, None, env, cx, condition_check("`while` condition must be `bool`, found `"@, t.expr, t.diags));
            TypedStmt {
                stmt: StmtModel { kind: StmtKindModel::While(t.expr, ast::node(y.block)), span: s.span },
                env,
                diags: y.diags,
            }
        },
        StmtKindModel::If(c, yes, no) => {
            let t = t_expr(c, None, env, cx, d);
            let y = t_block(*yes.it, None, env, cx, condition_check("`if` condition must be `bool`, found `"@, t.expr, t.diags));
            match no {
                Some(b) => {
                    let n = t_block(*b.it, None, env, cx, y.diags);
                    TypedStmt {
                        stmt: StmtModel {
                            kind: StmtKindModel::If(t.expr, ast::node(y.block), Some(ast::node(n.block))),
                            span: s.span,
                        },
                        env,
                        diags: n.diags,
                    }
                },
                None => TypedStmt {
                    stmt: StmtModel { kind: StmtKindModel::If(t.expr, ast::node(y.block), None), span: s.span },
                    env,
                    diags: y.diags,
                },
            }
        },
        _ => TypedStmt { stmt: s, env, diags: d },
    }
}

/// The complaints about the types of the first `k` parameters.
pub open spec fn in_params(ps: Seq<ParamModel>, k: int, tb: Tables, d: Seq<DiagnosticModel>) -> Seq<DiagnosticModel>
    decreases k,
{
    if k <= 0 {
        d
    } else {
        in_type(ps[k - 1].ty, tb, ps[k - 1].span, in_params(ps, k - 1, tb, d))
    }
}

/// The complaint about a body whose value is not what the function returns. A body without
/// a value returns by statements.
pub open spec fn body_check(f: FnDeclModel, body: TypeModel, d: Seq<DiagnosticModel>) -> Seq<DiagnosticModel> {
    if f.ret is Nil || body is Error || body == f.ret || body is Nil {
        d
    } else {
        d.push(
            diag::error_at(
                f.body.span,
                two_types("function `"@ + f.name + "` returns `"@, f.ret, "`, but body produces `"@, body),
            ),
        )
    }
}

/// A typed function, and the complaints so far.
pub open spec fn t_fn(f: FnDeclModel, tb: Tables, d: Seq<DiagnosticModel>) -> (FnDeclModel, Seq<DiagnosticModel>) {
    let n = f.params.len() as int;
    let d1 = in_type(f.ret, tb, f.span, in_params(f.params, n, tb, d));
    let b = t_block(f.body, Some(f.ret), bind_params(Seq::empty(), f.params, n), Cx { tb, ret: f.ret }, d1);
    (FnDeclModel { body: b.block, ..f }, body_check(f, b.ty, b.diags))
}

/// The complaints about the first `k` fields of a struct.
pub open spec fn in_fields(fs: Seq<(Seq<char>, TypeModel, Span)>, k: int, tb: Tables, d: Seq<DiagnosticModel>) -> Seq<DiagnosticModel>
    decreases k,
{
    if k <= 0 {
        d
    } else {
        in_type(fs[k - 1].1, tb, fs[k - 1].2, in_fields(fs, k - 1, tb, d))
    }
}

/// The complaints about the structs among the first `k` declarations.
pub open spec fn in_structs(ds: Seq<DeclModel>, k: int, tb: Tables, d: Seq<DiagnosticModel>) -> Seq<DiagnosticModel>
    decreases k,
{
    if k <= 0 {
        d
    } else {
        let before = in_structs(ds, k - 1, tb, d);
        match ds[k - 1] {
            DeclModel::Struct(s) => in_fields(s.fields, s.fields.len() as int, tb, before),
            _ => before,
        }
    }
}

/// The first `k` declarations with their functions typed, and the complaints so far.
pub open spec fn t_decls(ds: Seq<DeclModel>, k: int, tb: Tables, d: Seq<DiagnosticModel>) -> (Seq<DeclModel>, Seq<DiagnosticModel>)
    decreases k,
{
    if k <= 0 {
        (Seq::empty(), d)
    } else {
        let before = t_decls(ds, k - 1, tb, d);
        match ds[k - 1] {
            DeclModel::Fn(f) => {
                let t = t_fn(f, tb, before.1);
                (before.0.push(DeclModel::Fn(t.0)), t.1)
            },
            x => (before.0.push(x), before.1),
        }
    }
}

/// The typed module, and the complaints behind `d`.
pub open spec fn checked(m: ModuleModel, d: Seq<DiagnosticModel>) -> (ModuleModel, Seq<DiagnosticModel>) {
    let n = m.decls.len() as int;
    let tb = tables_of(m.decls, n);
    let r = t_decls(m.decls, n, tb, in_structs(m.decls, n, tb, d));
    (ModuleModel { decls: r.0 }, r.1)
}

// --- the checker --------------------------------------------------------------------

fn fmt_type(t: &Type) -> (r: String)
    ensures
        r@ == shown(t@),
{
    let mut s = String::new();
    print_type(&mut s, t);
    s
}

fn message_two(prefix: &str, a: &Type, middle: &str, b: &Type) -> (r: String)
    ensures
        r@ == two_types(prefix@, a@, middle@, b@),
{
    let mut m = prefix.to_owned();
    m.append(fmt_type(a).as_str());
    m.append(middle);
    m.append(fmt_type(b).as_str());
    m.append("`");
    m
}

fn message_one(prefix: &str, a: &Type) -> (r: String)
    ensures
        r@ == one_type(prefix@, a@),
{
    let mut m = prefix.to_owned();
    m.append(fmt_type(a).as_str());
    m.append("`");
    m
}

fn quoted(prefix: &str, name: &str, suffix: &str) -> (r: String)
    ensures
        r@ == prefix@ + name@ + suffix@,
{
    let mut m = prefix.to_owned();
    m.append(name);
    m.append(suffix);
    m
}

fn unifies(a: &Type, b: &Type) -> (r: bool)
    ensures
        r == fits(a@, b@),
{
    matches!(a, Type::Error) || matches!(b, Type::Error) || a.same(b)
}

fn validate_type(ty: &Type, t: &TypeTable, span: Span, diags: &mut Diagnostics)
    ensures
        final(diags)@ == in_type(ty@, t@, span, old(diags)@),
    decreases *ty, 0int,
{
    match ty {
        Type::Struct(n) => {
            if t.structs.get(n.as_str()).is_none() {
                diags.emit(Diagnostic::error(span, quoted("unknown type `", n.as_str(), "`")));
            }
        },
        Type::Query(x) => validate_type(x, t, span, diags),
        Type::Res(x) => validate_type(x, t, span, diags),
        Type::ResMut(x) => validate_type(x, t, span, diags),
        Type::Array(x) => validate_type(x, t, span, diags),
        Type::Dict(k, v) => {
            validate_type(k, t, span, diags);
            validate_type(v, t, span, diags);
        },
        Type::Fn(ps, r) => {
            assert(decreases_to!(*ps => ps@));
            validate_types(ps, t, span, diags);
            validate_type(r, t, span, diags);
        },
        _ => {},
    }
}

fn validate_types(ts: &Vec<Type>, t: &TypeTable, span: Span, diags: &mut Diagnostics)
    ensures
        final(diags)@ == in_types(ast::types_model(ts@), ts@.len() as int, t@, span, old(diags)@),
    decreases ts@, 0int,
{
    let ghost m = ast::types_model(ts@);
    let mut i: usize = 0;
    while i < ts.len()
        invariant
            i <= ts@.len(),
            m == ast::types_model(ts@),
            diags@ == in_types(m, i as int, t@, span, old(diags)@),
        decreases ts.len() - i,
    {
        assert(decreases_to!(ts@ => ts@[i as int]));
        assert(m[i as int] == ts@[i as int]@);
        validate_type(&ts[i], t, span, diags);
        i += 1;
    }
}

fn check_unop(op: UnOp, x: &Type, span: Span, diags: &mut Diagnostics) -> (r: Type)
    ensures
        r@ == unary_verdict(op, x@, span, old(diags)@).ty,
        final(diags)@ == unary_verdict(op, x@, span, old(diags)@).diags,
{
    if op == UnOp::Neg && x.is_numeric() {
        x.clone()
    } else if op == UnOp::Not && matches!(x, Type::Bool) {
        Type::Bool
    } else if matches!(x, Type::Error) {
        Type::Error
    } else {
        diags.emit(Diagnostic::error(span, message_one("invalid unary operator for `", x)));
        Type::Error
    }
}

fn check_binop(op: BinOp, l: &Type, r: &Type, span: Span, diags: &mut Diagnostics) -> (res: Type)
    ensures
        res@ == binary_verdict(op, l@, r@, span, old(diags)@).ty,
        final(diags)@ == binary_verdict(op, l@, r@, span, old(diags)@).diags,
{
    if matches!(l, Type::Error) || matches!(r, Type::Error) {
        return Type::Error;
    }
    match op {
        BinOp::Add | BinOp::Sub | BinOp::Mul | BinOp::Div | BinOp::Mod => {
            if l.is_numeric() && l.same(r) {
                l.clone()
            } else {
                diags.emit(
                    Diagnostic::error(
                        span,
                        message_two("arithmetic operator requires matching numeric types, got `", l, "` and `", r),
                    ),
                );
                Type::Error
            }
        },
        BinOp::And | BinOp::Or => {
            if !(matches!(l, Type::Bool) && matches!(r, Type::Bool)) {
                diags.emit(
                    Diagnostic::error(span, message_two("logical operator requires `bool`, got `", l, "` and `", r)),
                );
            }
            Type::Bool
        },
        _ => {
            if !l.same(r) {
                diags.emit(
                    Diagnostic::error(span, message_two("comparison requires matching types, got `", l, "` and `", r)),
                );
            }
            Type::Bool
        },
    }
}

fn require(prefix: &str, want: &Type, got: &Type, span: Span, diags: &mut Diagnostics)
    ensures
        final(diags)@ == mismatch(prefix@, want@, got@, span, old(diags)@),
{
    if !unifies(got, want) {
        diags.emit(Diagnostic::error(span, message_two(prefix, want, "`, found `", got)));
    }
}

fn require_bool(what: &str, c: &Expr, diags: &mut Diagnostics)
    ensures
        final(diags)@ == condition_check(what@, c@, old(diags)@),
{
    if !matches!(c.ty, Type::Bool | Type::Error) {
        diags.emit(Diagnostic::error(c.span, message_one(what, &c.ty)));
    }
}

fn check_args(ps: &Vec<Type>, args: &Vec<Expr>, diags: &mut Diagnostics)
    requires
        ps@.len() == args@.len(),
    ensures
        final(diags)@ == args_check(ast::types_model(ps@), ast::exprs_model(args@), args@.len() as int, old(diags)@),
{
    let ghost pm = ast::types_model(ps@);
    let ghost am = ast::exprs_model(args@);
    let mut i: usize = 0;
    while i < args.len()
        invariant
            i <= args@.len(),
            ps@.len() == args@.len(),
            pm == ast::types_model(ps@),
            am == ast::exprs_model(args@),
            diags@ == args_check(pm, am, i as int, old(diags)@),
        decreases args.len() - i,
    {
        assert(pm[i as int] == ps@[i as int]@);
        assert(am[i as int] == args@[i as int]@);
        let mut prefix = "argument ".to_owned();
        push_dec(&mut prefix, i as u64 + 1);
        prefix.append(" expected `");
        require(prefix.as_str(), &ps[i], &args[i].ty, args[i].span, diags);
        i += 1;
    }
}

fn check_callee(c: &Type, args: &Vec<Expr>, span: Span, diags: &mut Diagnostics) -> (r: Type)
    ensures
        r@ == call_verdict(c@, ast::exprs_model(args@), span, old(diags)@).ty,
        final(diags)@ == call_verdict(c@, ast::exprs_model(args@), span, old(diags)@).diags,
{
    match c {
        Type::Fn(ps, r) => {
            assert(ast::types_model(ps@).len() == ps@.len());
            if ps.len() != args.len() {
                let mut m = "function expects ".to_owned();
                push_dec(&mut m, ps.len() as u64);
                m.append(" argument(s), found ");
                push_dec(&mut m, args.len() as u64);
                diags.emit(Diagnostic::error(span, m));
            } else {
                check_args(ps, args, diags);
            }
            (**r).clone()
        },
        Type::Error => Type::Error,
        _ => {
            diags.emit(Diagnostic::error(span, message_one("cannot call value of type `", c)));
            Type::Error
        },
    }
}

fn find_field<'a>(fs: &'a Vec<(String, Type)>, n: &String) -> (r: Option<&'a Type>)
    ensures
        r is Some <==> field_type(fields_model(fs@), n@, 0) is Some,
        r is Some ==> r->0@ == field_type(fields_model(fs@), n@, 0)->0,
{
    let ghost m = fields_model(fs@);
    let mut i: usize = 0;
    while i < fs.len()
        invariant
            i <= fs@.len(),
            m == fields_model(fs@),
            field_type(m, n@, i as int) == field_type(m, n@, 0),
        decreases fs.len() - i,
    {
        assert(m[i as int] == (fs@[i as int].0@, fs@[i as int].1@));
        if fs[i].0 == *n {
            return Some(&fs[i].1);
        }
        i += 1;
    }
    None
}

fn check_field(x: &Type, n: &String, t: &TypeTable, span: Span, diags: &mut Diagnostics) -> (r: Type)
    ensures
        r@ == field_verdict(x@, n@, t@, span, old(diags)@).ty,
        final(diags)@ == field_verdict(x@, n@, t@, span, old(diags)@).diags,
{
    match x {
        Type::Struct(s) => match t.structs.get(s.as_str()) {
            None => Type::Error,
            Some(layout) => match find_field(&layout.fields, n) {
                Some(ft) => ft.clone(),
                None => {
                    let mut m = "struct `".to_owned();
                    m.append(s.as_str());
                    m.append("` has no field `");
                    m.append(n.as_str());
                    m.append("`");
                    diags.emit(Diagnostic::error(span, m));
                    Type::Error
                },
            },
        },
        Type::Error => Type::Error,
        _ => {
            diags.emit(Diagnostic::error(span, quoted("`", fmt_type(x).as_str(), "` is not a struct")));
            Type::Error
        },
    }
}

fn check_index(x: &Type, i: &Expr, span: Span, diags: &mut Diagnostics) -> (r: Type)
    ensures
        r@ == index_verdict(x@, i@, span, old(diags)@).ty,
        final(diags)@ == index_verdict(x@, i@, span, old(diags)@).diags,
{
    match x {
        Type::Array(t) => {
            if !i.ty.is_integer() && !matches!(i.ty, Type::Error) {
                diags.emit(Diagnostic::error(i.span, message_one("array index must be integer, found `", &i.ty)));
            }
            (**t).clone()
        },
        Type::Dict(k, v) => {
            require("map index expected `", k, &i.ty, i.span, diags);
            (**v).clone()
        },
        Type::Error => Type::Error,
        _ => {
            diags.emit(Diagnostic::error(span, message_one("cannot index value of type `", x)));
            Type::Error
        },
    }
}

fn find_init<'a>(fs: &'a Vec<(String, Expr)>, n: &String) -> (r: Option<&'a Expr>)
    ensures
        r is Some <==> init_of(ast::inits_model(fs@), n@, 0) is Some,
        r is Some ==> r->0@ == init_of(ast::inits_model(fs@), n@, 0)->0,
{
    let ghost m = ast::inits_model(fs@);
    let mut i: usize = 0;
    while i < fs.len()
        invariant
            i <= fs@.len(),
            m == ast::inits_model(fs@),
            init_of(m, n@, i as int) == init_of(m, n@, 0),
        decreases fs.len() - i,
    {
        assert(m[i as int] == (fs@[i as int].0@, fs@[i as int].1@));
        if fs[i].0 == *n {
            return Some(&fs[i].1);
        }
        i += 1;
    }
    None
}

fn check_fields(decl: &Vec<(String, Type)>, fs: &Vec<(String, Expr)>, span: Span, diags: &mut Diagnostics)
    ensures
        final(diags)@ == fields_check(fields_model(decl@), decl@.len() as int, ast::inits_model(fs@), span, old(diags)@),
{
    let ghost m = fields_model(decl@);
    let mut i: usize = 0;
    while i < decl.len()
        invariant
            i <= decl@.len(),
            m == fields_model(decl@),
            diags@ == fields_check(m, i as int, ast::inits_model(fs@), span, old(diags)@),
        decreases decl.len() - i,
    {
        assert(m[i as int] == (decl@[i as int].0@, decl@[i as int].1@));
        match find_init(fs, &decl[i].0) {
            Some(e) => {
                let prefix = quoted("field `", decl[i].0.as_str(), "` expected `");
                require(prefix.as_str(), &decl[i].1, &e.ty, e.span, diags);
            },
            None => {
                diags.emit(
                    Diagnostic::error(span, quoted("missing field `", decl[i].0.as_str(), "` in struct literal")),
                );
            },
        }
        i += 1;
    }
}

fn literal_type(l: &Lit, hint: Option<&Type>) -> (r: Type)
    ensures
        r@ == lit_type(l@, hint_of(hint)),
{
    match l {
        Lit::Nil => Type::Nil,
        Lit::Bool(_) => Type::Bool,
        Lit::Int(_) => {
            if let Some(h) = hint {
                if h.is_numeric() {
                    return h.clone();
                }
            }
            Type::I64
        },
        Lit::Float(_) => {
            if let Some(h) = hint {
                if h.is_float() {
                    return h.clone();
                }
            }
            Type::F64
        },
        Lit::Str(_) => Type::Str,
    }
}

fn is_int_literal(e: &Expr) -> (r: bool)
    ensures
        r == int_literal(e@),
    decreases *e,
{
    match &e.kind {
        ExprKind::Lit(l) => matches!(l, Lit::Int(_)),
        ExprKind::Unary(op, x) => *op == UnOp::Neg && is_int_literal(x),
        ExprKind::Binary(op, l, r) => does_calculate(*op) && is_int_literal(l) && is_int_literal(r),
        _ => false,
    }
}

fn is_open_literal(e: &Expr) -> (r: bool)
    ensures
        r == open_literal(e@),
{
    match &e.kind {
        ExprKind::Block(_) => true,
        ExprKind::If(..) => true,
        _ => is_int_literal(e),
    }
}

fn does_calculate(op: BinOp) -> (r: bool)
    ensures
        r == calculates(op),
{
    matches!(op, BinOp::Add | BinOp::Sub | BinOp::Mul | BinOp::Div | BinOp::Mod)
}

fn types_of(ps: &Vec<Param>) -> (r: Vec<Type>)
    ensures
        ast::types_model(r@) == param_types(ast::params_model(ps@)),
{
    let mut out: Vec<Type> = Vec::new();
    let mut i: usize = 0;
    while i < ps.len()
        invariant
            i <= ps@.len(),
            out@.len() == i,
            forall|j: int| 0 <= j < i ==> (#[trigger] out@[j])@ == ps@[j].ty@,
        decreases ps.len() - i,
    {
        out.push(ps[i].ty.clone());
        i += 1;
    }
    assert(ast::types_model(out@) =~= param_types(ast::params_model(ps@)));
    out
}

fn copy_types(ts: &Vec<Type>) -> (r: Vec<Type>)
    ensures
        ast::types_model(r@) == ast::types_model(ts@),
        r@.len() == ts@.len(),
{
    let mut out: Vec<Type> = Vec::new();
    let mut i: usize = 0;
    while i < ts.len()
        invariant
            i <= ts@.len(),
            out@.len() == i,
            forall|j: int| 0 <= j < i ==> (#[trigger] out@[j])@ == ts@[j]@,
        decreases ts.len() - i,
    {
        out.push(ts[i].clone());
        i += 1;
    }
    assert(ast::types_model(out@) =~= ast::types_model(ts@));
    out
}

fn mk(kind: ExprKind, span: Span, ty: Type) -> (r: Expr)
    ensures
        r@ == (ExprModel { kind: kind@, span, ty: ty@ }),
{
    Expr { kind, span, ty }
}

fn mk_stmt(kind: StmtKind, span: Span) -> (r: Stmt)
    ensures
        r@ == (StmtModel { kind: kind@, span }),
{
    Stmt { kind, span }
}

/// The model of a hint.
pub open spec fn hint_of(h: Option<&Type>) -> Option<TypeModel> {
    match h {
        Some(t) => Some(t@),
        None => None,
    }
}

struct Checker<'a> {
    table: &'a TypeTable,
    ret_ty: Type,
    locals: Vec<(String, Type)>,
    diags: Diagnostics,
}

impl<'a> Checker<'a> {
    spec fn env(&self) -> Scope {
        fields_model(self.locals@)
    }

    spec fn cx(&self) -> Cx {
        Cx { tb: self.table@, ret: self.ret_ty@ }
    }

    /// Whether nothing but the diagnostics differs from `before`.
    spec fn kept(&self, before: Checker<'a>) -> bool {
        self.table == before.table && self.ret_ty == before.ret_ty && self.locals@ == before.locals@
    }

    fn lookup(&self, name: &String) -> (r: Option<Type>)
        ensures
            r is Some <==> name_type(name@, self.env(), self.table@) is Some,
            r is Some ==> r->0@ == name_type(name@, self.env(), self.table@)->0,
    {
        let ghost env = self.env();
        let mut i: usize = self.locals.len();
        assert(env.take(i as int) =~= env);
        while i > 0
            invariant
                i <= self.locals@.len(),
                env == self.env(),
                local(env.take(i as int), name@) == local(env, name@),
            decreases i,
        {
            i -= 1;
            assert(env.take(i + 1).drop_last() =~= env.take(i as int));
            assert(env.take(i + 1).last() == (self.locals@[i as int].0@, self.locals@[i as int].1@));
            if self.locals[i].0 == *name {
                return Some(self.locals[i].1.clone());
            }
        }
        assert(local(env, name@) is None);
        if let Some(t) = self.table.constants.get(name.as_str()) {
            return Some(t.clone());
        }
        match self.table.functions.get(name.as_str()) {
            Some(sig) => {
                let r = Type::Fn(copy_types(&sig.params), Box::new(sig.ret.clone()));
                assert(r@ == TypeModel::Fn(sig@.params, ast::node(sig@.ret)));
                Some(r)
            },
            None => None,
        }
    }

    fn bind(&mut self, name: String, ty: Type)
        ensures
            final(self).env() == old(self).env().push((name@, ty@)),
            final(self).locals@ == old(self).locals@.push((name, ty)),
            final(self).table == old(self).table,
            final(self).ret_ty == old(self).ret_ty,
            final(self).diags@ == old(self).diags@,
    {
        let ghost before = self.locals@;
        self.locals.push((name, ty));
        assert(fields_model(self.locals@) =~= fields_model(before).push((name@, ty@)));
    }

    fn bind_all(&mut self, ps: &Vec<Param>)
        ensures
            final(self).env() == bind_params(old(self).env(), ast::params_model(ps@), ps@.len() as int),
            final(self).locals@.len() == old(self).locals@.len() + ps@.len(),
            final(self).locals@.take(old(self).locals@.len() as int) == old(self).locals@,
            final(self).table == old(self).table,
            final(self).ret_ty == old(self).ret_ty,
            final(self).diags@ == old(self).diags@,
    {
        let ghost m = ast::params_model(ps@);
        let mut i: usize = 0;
        assert(self.locals@.take(self.locals@.len() as int) =~= self.locals@);
        while i < ps.len()
            invariant
                i <= ps@.len(),
                m == ast::params_model(ps@),
                self.env() == bind_params(old(self).env(), m, i as int),
                self.locals@.len() == old(self).locals@.len() + i,
                self.locals@.take(old(self).locals@.len() as int) == old(self).locals@,
                self.table == old(self).table,
                self.ret_ty == old(self).ret_ty,
                self.diags@ == old(self).diags@,
            decreases ps.len() - i,
        {
            assert(m[i as int] == ps@[i as int]@);
            self.bind(ps[i].name.clone(), ps[i].ty.clone());
            i += 1;
            assert(self.locals@.take(old(self).locals@.len() as int) =~= old(self).locals@);
        }
    }

    #[verifier::spinoff_prover]
    #[verifier::rlimit(80)]
    fn check_expr_hinted(&mut self, e: Expr, hint: Option<&Type>) -> (r: Expr)
        ensures
            r@ == t_expr(e@, hint_of(hint), old(self).env(), old(self).cx(), old(self).diags@).expr,
            final(self).diags@ == t_expr(e@, hint_of(hint), old(self).env(), old(self).cx(), old(self).diags@).diags,
            final(self).kept(*old(self)),
        decreases e, 1int,
    {
        proof {
            reveal(t_expr);
            reveal(t_binary);
            reveal(t_call);
            reveal(t_struct);
            reveal(t_array);
            reveal(t_map);
            reveal(t_if);
            reveal(t_block);
        }
        let ghost k = ast::expr_kind_model(e.kind);
        assert(e@.kind == k);
        let span = e.span;
        match &e.kind {
            ExprKind::Binary(..) => {
                return self.check_binary(e, hint);
            },
            ExprKind::Call(..) => {
                return self.check_call(e);
            },
            ExprKind::StructLit(..) => {
                return self.check_struct_lit(e);
            },
            ExprKind::ArrayLit(..) => {
                return self.check_array(e, hint);
            },
            ExprKind::MapLit(..) => {
                return self.check_map(e, hint);
            },
            ExprKind::If(..) => {
                return self.check_if(e, hint);
            },
            _ => {},
        }
        match e.kind {
            ExprKind::Lit(l) => {
                let ty = literal_type(&l, hint);
                mk(ExprKind::Lit(l), span, ty)
            },
            ExprKind::Ident(name) => {
                let ty = match self.lookup(&name) {
                    Some(t) => t,
                    None => {
                        self.diags.emit(Diagnostic::error(span, quoted("undefined name `", name.as_str(), "`")));
                        Type::Error
                    },
                };
                mk(ExprKind::Ident(name), span, ty)
            },
            ExprKind::Unary(op, x) => {
                let want: Option<&Type> = if op == UnOp::Neg && is_int_literal(&x) { hint } else { None };
                let t = self.check_expr_hinted(*x, want);
                let ty = check_unop(op, &t.ty, span, &mut self.diags);
                mk(ExprKind::Unary(op, Box::new(t)), span, ty)
            },
            ExprKind::Field(x, name) => {
                let t = self.check_expr_hinted(*x, None);
                let ty = check_field(&t.ty, &name, self.table, span, &mut self.diags);
                mk(ExprKind::Field(Box::new(t), name), span, ty)
            },
            ExprKind::Index(x, i) => {
                let t = self.check_expr_hinted(*x, None);
                let u = match &t.ty {
                    Type::Dict(k, _) => {
                        let want: Option<&Type> = if is_open_literal(&i) { Some(k) } else { None };
                        self.check_expr_hinted(*i, want)
                    },
                    _ => self.check_expr_hinted(*i, None),
                };
                let ty = check_index(&t.ty, &u, span, &mut self.diags);
                mk(ExprKind::Index(Box::new(t), Box::new(u)), span, ty)
            },
            ExprKind::Closure(ps, body) => {
                let depth: usize = self.locals.len();
                self.bind_all(&ps);
                let t = self.check_expr_hinted(*body, None);
                self.locals.truncate(depth);
                let ty = Type::Fn(types_of(&ps), Box::new(t.ty.clone()));
                assert(ty@ == TypeModel::Fn(param_types(ast::params_model(ps@)), ast::node(t.ty@)));
                mk(ExprKind::Closure(ps, Box::new(t)), span, ty)
            },
            ExprKind::Block(b) => {
                let (block, ty) = self.check_block(*b, hint);
                mk(ExprKind::Block(Box::new(block)), span, ty)
            },
            kind => mk(kind, span, e.ty),
        }
    }

    #[verifier::spinoff_prover]
    #[verifier::rlimit(60)]
    fn check_binary(&mut self, e: Expr, hint: Option<&Type>) -> (r: Expr)
        requires
            e.kind is Binary,
        ensures
            r@ == t_binary(e@, hint_of(hint), old(self).env(), old(self).cx(), old(self).diags@).expr,
            final(self).diags@ == t_binary(e@, hint_of(hint), old(self).env(), old(self).cx(), old(self).diags@).diags,
            final(self).kept(*old(self)),
        decreases e, 0int,
    {
        proof {
            reveal(t_binary);
            reveal(t_expr);
        }
        let ghost k = ast::expr_kind_model(e.kind);
        assert(e@.kind == k);
        let span = e.span;
        match e.kind {
            ExprKind::Binary(op, l, r) => {
                if is_int_literal(&l) && !is_int_literal(&r) {
                    let b = self.check_expr_hinted(*r, None);
                    let a = self.check_expr_hinted(*l, Some(&b.ty));
                    let ty = check_binop(op, &a.ty, &b.ty, span, &mut self.diags);
                    mk(ExprKind::Binary(op, Box::new(a), Box::new(b)), span, ty)
                } else {
                    let lit: bool = is_int_literal(&r);
                    let want: Option<&Type> = if lit && does_calculate(op) && is_int_literal(&l) { hint } else { None };
                    let a = self.check_expr_hinted(*l, want);
                    let b = if lit { self.check_expr_hinted(*r, Some(&a.ty)) } else { self.check_expr_hinted(*r, None) };
                    let ty = check_binop(op, &a.ty, &b.ty, span, &mut self.diags);
                    mk(ExprKind::Binary(op, Box::new(a), Box::new(b)), span, ty)
                }
            },
            kind => mk(kind, span, e.ty),
        }
    }

    #[verifier::spinoff_prover]
    #[verifier::rlimit(60)]
    fn check_call(&mut self, e: Expr) -> (r: Expr)
        requires
            e.kind is Call,
        ensures
            r@ == t_call(e@, old(self).env(), old(self).cx(), old(self).diags@).expr,
            final(self).diags@ == t_call(e@, old(self).env(), old(self).cx(), old(self).diags@).diags,
            final(self).kept(*old(self)),
        decreases e, 0int,
    {
        proof {
            reveal(t_call);
            reveal(t_expr);
            reveal(t_args);
        }
        let ghost k = ast::expr_kind_model(e.kind);
        assert(e@.kind == k);
        let span = e.span;
        match e.kind {
            ExprKind::Call(c, args) => {
                assert(decreases_to!(args => args@));
                assert(ast::exprs_model(args@).len() == args@.len());
                let f = self.check_expr_hinted(*c, None);
                let params: Vec<Type> = match &f.ty {
                    Type::Fn(ps, _) => copy_types(ps),
                    _ => Vec::new(),
                };
                assert(ast::types_model(params@) =~= callee_params(f.ty@));
                let typed_args = self.check_arg_list(args, &params);
                let ty = check_callee(&f.ty, &typed_args, span, &mut self.diags);
                mk(ExprKind::Call(Box::new(f), typed_args), span, ty)
            },
            kind => mk(kind, span, e.ty),
        }
    }

    #[verifier::spinoff_prover]
    #[verifier::rlimit(60)]
    fn check_arg_list(&mut self, args: Vec<Expr>, params: &Vec<Type>) -> (r: Vec<Expr>)
        ensures
            ast::exprs_model(r@) == t_args(
                ast::exprs_model(args@),
                args@.len() as int,
                ast::types_model(params@),
                old(self).env(),
                old(self).cx(),
                old(self).diags@,
            ).exprs,
            final(self).diags@ == t_args(
                ast::exprs_model(args@),
                args@.len() as int,
                ast::types_model(params@),
                old(self).env(),
                old(self).cx(),
                old(self).diags@,
            ).diags,
            final(self).kept(*old(self)),
        decreases args@, 0int,
    {
        proof {
            reveal(t_args);
            reveal(t_expr);
        }
        let ghost m = ast::exprs_model(args@);
        let ghost pm = ast::types_model(params@);
        let ghost all = args@;
        let mut rest = args;
        let count: usize = rest.len();
        let mut out: Vec<Expr> = Vec::new();
        let mut i: usize = 0;
        assert(rest@ =~= all.skip(0));
        assert(ast::exprs_model(out@) =~= Seq::empty());
        while rest.len() > 0
            invariant
                i <= all.len(),
                all.len() == count,
                all == args@,
                m == ast::exprs_model(all),
                pm == ast::types_model(params@),
                rest@ == all.skip(i as int),
                ast::exprs_model(out@) == t_args(m, i as int, pm, old(self).env(), old(self).cx(), old(self).diags@).exprs,
                self.diags@ == t_args(m, i as int, pm, old(self).env(), old(self).cx(), old(self).diags@).diags,
                self.kept(*old(self)),
            decreases rest.len(),
        {
            proof {
                reveal(t_args);
                reveal(t_expr);
            }
            let a = rest.remove(0);
            assert(a == all[i as int]);
            assert(decreases_to!(all => all[i as int]));
            assert(m[i as int] == a@);
            assert(i < params@.len() ==> pm[i as int] == params@[i as int]@);
            let t = if i < params.len() {
                self.check_expr_hinted(a, Some(&params[i]))
            } else {
                self.check_expr_hinted(a, None)
            };
            proof {
                ast::lemma_exprs_push(out@, t);
            }
            out.push(t);
            i += 1;
            assert(rest@ =~= all.skip(i as int));
        }
        out
    }

    #[verifier::spinoff_prover]
    #[verifier::rlimit(60)]
    fn check_struct_lit(&mut self, e: Expr) -> (r: Expr)
        requires
            e.kind is StructLit,
        ensures
            r@ == t_struct(e@, old(self).env(), old(self).cx(), old(self).diags@).expr,
            final(self).diags@ == t_struct(e@, old(self).env(), old(self).cx(), old(self).diags@).diags,
            final(self).kept(*old(self)),
        decreases e, 0int,
    {
        proof {
            reveal(t_struct);
            reveal(t_inits);
        }
        let ghost k = ast::expr_kind_model(e.kind);
        assert(e@.kind == k);
        let span = e.span;
        match e.kind {
            ExprKind::StructLit(name, fs) => {
                assert(decreases_to!(fs => fs@));
                assert(ast::inits_model(fs@).len() == fs@.len());
                match self.table.structs.get(name.as_str()) {
                    Some(layout) => {
                        let typed_fs = self.check_init_list(fs, &layout.fields);
                        check_fields(&layout.fields, &typed_fs, span, &mut self.diags);
                        let ty = Type::Struct(name.clone());
                        mk(ExprKind::StructLit(name, typed_fs), span, ty)
                    },
                    None => {
                        self.diags.emit(Diagnostic::error(span, quoted("unknown struct `", name.as_str(), "`")));
                        mk(ExprKind::StructLit(name, fs), span, Type::Error)
                    },
                }
            },
            kind => mk(kind, span, e.ty),
        }
    }

    #[verifier::spinoff_prover]
    #[verifier::rlimit(60)]
    fn check_init_list(&mut self, fs: Vec<(String, Expr)>, decl: &Vec<(String, Type)>) -> (r: Vec<(String, Expr)>)
        ensures
            ast::inits_model(r@) == t_inits(
                ast::inits_model(fs@),
                fs@.len() as int,
                fields_model(decl@),
                old(self).env(),
                old(self).cx(),
                old(self).diags@,
            ).inits,
            final(self).diags@ == t_inits(
                ast::inits_model(fs@),
                fs@.len() as int,
                fields_model(decl@),
                old(self).env(),
                old(self).cx(),
                old(self).diags@,
            ).diags,
            final(self).kept(*old(self)),
        decreases fs@, 0int,
    {
        proof {
            reveal(t_inits);
            reveal(t_expr);
        }
        let ghost m = ast::inits_model(fs@);
        let ghost dm = fields_model(decl@);
        let ghost all = fs@;
        let mut rest = fs;
        let count: usize = rest.len();
        let mut out: Vec<(String, Expr)> = Vec::new();
        let mut i: usize = 0;
        assert(rest@ =~= all.skip(0));
        assert(ast::inits_model(out@) =~= Seq::empty());
        while rest.len() > 0
            invariant
                i <= all.len(),
                all.len() == count,
                all == fs@,
                m == ast::inits_model(all),
                dm == fields_model(decl@),
                rest@ == all.skip(i as int),
                ast::inits_model(out@) == t_inits(m, i as int, dm, old(self).env(), old(self).cx(), old(self).diags@).inits,
                self.diags@ == t_inits(m, i as int, dm, old(self).env(), old(self).cx(), old(self).diags@).diags,
                self.kept(*old(self)),
            decreases rest.len(),
        {
            proof {
                reveal(t_inits);
                reveal(t_expr);
            }
            let (n, x) = rest.remove(0);
            assert((n, x) == all[i as int]);
            assert(decreases_to!(all => all[i as int]));
            assert(decreases_to!(all[i as int] => all[i as int].1));
            assert(m[i as int] == (n@, x@));
            let t = self.check_expr_hinted(x, find_field(decl, &n));
            proof {
                ast::lemma_inits_push(out@, (n, t));
            }
            out.push((n, t));
            i += 1;
            assert(rest@ =~= all.skip(i as int));
        }
        out
    }

    #[verifier::spinoff_prover]
    #[verifier::rlimit(60)]
    fn check_array(&mut self, e: Expr, hint: Option<&Type>) -> (r: Expr)
        requires
            e.kind is ArrayLit,
        ensures
            r@ == t_array(e@, hint_of(hint), old(self).env(), old(self).cx(), old(self).diags@).expr,
            final(self).diags@ == t_array(e@, hint_of(hint), old(self).env(), old(self).cx(), old(self).diags@).diags,
            final(self).kept(*old(self)),
        decreases e, 0int,
    {
        proof {
            reveal(t_array);
            reveal(t_elems);
        }
        let ghost k = ast::expr_kind_model(e.kind);
        assert(e@.kind == k);
        let span = e.span;
        let want: Option<&Type> = match hint {
            Some(Type::Array(t)) => Some(&**t),
            _ => None,
        };
        assert(hint_of(want) == element_hint(hint_of(hint)));
        match e.kind {
            ExprKind::ArrayLit(es) => {
                assert(decreases_to!(es => es@));
                assert(ast::exprs_model(es@).len() == es@.len());
                if es.len() == 0 {
                    let ty = match want {
                        Some(t) => Type::Array(Box::new(t.clone())),
                        None => {
                            self.diags.emit(
                                Diagnostic::error(span, "empty array literal `[]` requires a type annotation".to_owned()),
                            );
                            Type::Error
                        },
                    };
                    mk(ExprKind::ArrayLit(es), span, ty)
                } else {
                    let typed_es = self.check_elems(es, want);
                    assert(ast::exprs_model(typed_es@)[0] == typed_es@[0]@);
                    let ty = Type::Array(Box::new(typed_es[0].ty.clone()));
                    mk(ExprKind::ArrayLit(typed_es), span, ty)
                }
            },
            kind => mk(kind, span, e.ty),
        }
    }

    #[verifier::spinoff_prover]
    #[verifier::rlimit(60)]
    fn check_elems(&mut self, es: Vec<Expr>, hint: Option<&Type>) -> (r: Vec<Expr>)
        requires
            es@.len() > 0,
        ensures
            r@.len() == es@.len(),
            ast::exprs_model(r@) == t_elems(
                ast::exprs_model(es@),
                es@.len() as int,
                hint_of(hint),
                old(self).env(),
                old(self).cx(),
                old(self).diags@,
            ).exprs,
            final(self).diags@ == t_elems(
                ast::exprs_model(es@),
                es@.len() as int,
                hint_of(hint),
                old(self).env(),
                old(self).cx(),
                old(self).diags@,
            ).diags,
            final(self).kept(*old(self)),
        decreases es@, 0int,
    {
        proof {
            reveal(t_elems);
            reveal(t_expr);
        }
        let ghost m = ast::exprs_model(es@);
        let ghost all = es@;
        let mut rest = es;
        let count: usize = rest.len();
        let mut out: Vec<Expr> = Vec::new();
        let first = rest.remove(0);
        assert(first == all[0]);
        assert(decreases_to!(all => all[0]));
        assert(m[0] == first@);
        let t0 = self.check_expr_hinted(first, hint);
        let want: Type = t0.ty.clone();
        out.push(t0);
        let mut i: usize = 1;
        assert(rest@ =~= all.skip(1));
        assert(ast::exprs_model(out@) =~= seq![t0@]);
        while rest.len() > 0
            invariant
                1 <= i <= all.len(),
                all.len() == count,
                all == es@,
                m == ast::exprs_model(all),
                rest@ == all.skip(i as int),
                out@.len() == i,
                want@ == out@[0].ty@,
                ast::exprs_model(out@) == t_elems(m, i as int, hint_of(hint), old(self).env(), old(self).cx(), old(self).diags@).exprs,
                self.diags@ == t_elems(m, i as int, hint_of(hint), old(self).env(), old(self).cx(), old(self).diags@).diags,
                self.kept(*old(self)),
            decreases rest.len(),
        {
            proof {
                reveal(t_elems);
                reveal(t_expr);
            }
            let a = rest.remove(0);
            assert(a == all[i as int]);
            assert(decreases_to!(all => all[i as int]));
            assert(m[i as int] == a@);
            assert(ast::exprs_model(out@)[0] == out@[0]@);
            let t = self.check_expr_hinted(a, Some(&want));
            require("array element expected `", &want, &t.ty, t.span, &mut self.diags);
            proof {
                ast::lemma_exprs_push(out@, t);
            }
            out.push(t);
            i += 1;
            assert(rest@ =~= all.skip(i as int));
        }
        out
    }

    #[verifier::spinoff_prover]
    #[verifier::rlimit(60)]
    fn check_map(&mut self, e: Expr, hint: Option<&Type>) -> (r: Expr)
        requires
            e.kind is MapLit,
        ensures
            r@ == t_map(e@, hint_of(hint), old(self).env(), old(self).cx(), old(self).diags@).expr,
            final(self).diags@ == t_map(e@, hint_of(hint), old(self).env(), old(self).cx(), old(self).diags@).diags,
            final(self).kept(*old(self)),
        decreases e, 0int,
    {
        proof {
            reveal(t_map);
            reveal(t_pairs);
        }
        let ghost k = ast::expr_kind_model(e.kind);
        assert(e@.kind == k);
        let span = e.span;
        match e.kind {
            ExprKind::MapLit(ps) => {
                assert(decreases_to!(ps => ps@));
                assert(ast::pairs_model(ps@).len() == ps@.len());
                if ps.len() == 0 {
                    let ty = match hint {
                        Some(Type::Dict(k, v)) => Type::Dict(Box::new((**k).clone()), Box::new((**v).clone())),
                        _ => {
                            self.diags.emit(
                                Diagnostic::error(span, "empty map literal `[:]` requires a type annotation".to_owned()),
                            );
                            Type::Error
                        },
                    };
                    mk(ExprKind::MapLit(ps), span, ty)
                } else {
                    let typed_ps = self.check_pairs(ps, hint);
                    assert(ast::pairs_model(typed_ps@)[0] == (typed_ps@[0].0@, typed_ps@[0].1@));
                    let ty = Type::Dict(Box::new(typed_ps[0].0.ty.clone()), Box::new(typed_ps[0].1.ty.clone()));
                    mk(ExprKind::MapLit(typed_ps), span, ty)
                }
            },
            kind => mk(kind, span, e.ty),
        }
    }

    #[verifier::spinoff_prover]
    #[verifier::rlimit(80)]
    fn check_pairs(&mut self, ps: Vec<(Expr, Expr)>, hint: Option<&Type>) -> (r: Vec<(Expr, Expr)>)
        requires
            ps@.len() > 0,
        ensures
            r@.len() == ps@.len(),
            ast::pairs_model(r@) == t_pairs(
                ast::pairs_model(ps@),
                ps@.len() as int,
                hint_of(hint),
                old(self).env(),
                old(self).cx(),
                old(self).diags@,
            ).pairs,
            final(self).diags@ == t_pairs(
                ast::pairs_model(ps@),
                ps@.len() as int,
                hint_of(hint),
                old(self).env(),
                old(self).cx(),
                old(self).diags@,
            ).diags,
            final(self).kept(*old(self)),
        decreases ps@, 0int,
    {
        proof {
            reveal(t_pairs);
            reveal(t_expr);
        }
        let ghost m = ast::pairs_model(ps@);
        let ghost all = ps@;
        let (kh, vh): (Option<&Type>, Option<&Type>) = match hint {
            Some(Type::Dict(k, v)) => (Some(&**k), Some(&**v)),
            _ => (None, None),
        };
        assert(hint_of(kh) == key_hint(hint_of(hint)));
        assert(hint_of(vh) == value_hint(hint_of(hint)));
        let mut rest = ps;
        let count: usize = rest.len();
        let mut out: Vec<(Expr, Expr)> = Vec::new();
        let (k0, v0) = rest.remove(0);
        assert((k0, v0) == all[0]);
        assert(decreases_to!(all => all[0]));
        assert(decreases_to!(all[0] => all[0].0));
        assert(decreases_to!(all[0] => all[0].1));
        assert(m[0] == (k0@, v0@));
        let tk = self.check_expr_hinted(k0, kh);
        let tv = self.check_expr_hinted(v0, vh);
        let want_k: Type = tk.ty.clone();
        let want_v: Type = tv.ty.clone();
        out.push((tk, tv));
        let mut i: usize = 1;
        assert(rest@ =~= all.skip(1));
        assert(ast::pairs_model(out@) =~= seq![(tk@, tv@)]);
        while rest.len() > 0
            invariant
                1 <= i <= all.len(),
                all.len() == count,
                all == ps@,
                m == ast::pairs_model(all),
                rest@ == all.skip(i as int),
                out@.len() == i,
                want_k@ == out@[0].0.ty@,
                want_v@ == out@[0].1.ty@,
                ast::pairs_model(out@) == t_pairs(m, i as int, hint_of(hint), old(self).env(), old(self).cx(), old(self).diags@).pairs,
                self.diags@ == t_pairs(m, i as int, hint_of(hint), old(self).env(), old(self).cx(), old(self).diags@).diags,
                self.kept(*old(self)),
            decreases rest.len(),
        {
            proof {
                reveal(t_pairs);
                reveal(t_expr);
            }
            let (k, v) = rest.remove(0);
            assert((k, v) == all[i as int]);
            assert(decreases_to!(all => all[i as int]));
            assert(decreases_to!(all[i as int] => all[i as int].0));
            assert(decreases_to!(all[i as int] => all[i as int].1));
            assert(m[i as int] == (k@, v@));
            assert(ast::pairs_model(out@)[0] == (out@[0].0@, out@[0].1@));
            let a = self.check_expr_hinted(k, Some(&want_k));
            require("map key expected `", &want_k, &a.ty, a.span, &mut self.diags);
            let b = self.check_expr_hinted(v, Some(&want_v));
            require("map value expected `", &want_v, &b.ty, b.span, &mut self.diags);
            proof {
                ast::lemma_pairs_push(out@, (a, b));
            }
            out.push((a, b));
            i += 1;
            assert(rest@ =~= all.skip(i as int));
        }
        out
    }

    #[verifier::spinoff_prover]
    #[verifier::rlimit(60)]
    fn check_if(&mut self, e: Expr, hint: Option<&Type>) -> (r: Expr)
        requires
            e.kind is If,
        ensures
            r@ == t_if(e@, hint_of(hint), old(self).env(), old(self).cx(), old(self).diags@).expr,
            final(self).diags@ == t_if(e@, hint_of(hint), old(self).env(), old(self).cx(), old(self).diags@).diags,
            final(self).kept(*old(self)),
        decreases e, 0int,
    {
        proof {
            reveal(t_if);
            reveal(t_expr);
            reveal(t_block);
        }
        let ghost k = ast::expr_kind_model(e.kind);
        assert(e@.kind == k);
        let span = e.span;
        match e.kind {
            ExprKind::If(c, yes, no) => {
                let t = self.check_expr_hinted(*c, None);
                require_bool("`if` condition must be `bool`, found `", &t, &mut self.diags);
                let (y, yt) = self.check_block(*yes, hint);
                match no {
                    Some(b) => {
                        let (n, nt) = self.check_block(*b, hint);
                        let ty = join_types(&yt, &nt);
                        mk(ExprKind::If(Box::new(t), Box::new(y), Some(Box::new(n))), span, ty)
                    },
                    None => {
                        let ty = join_types(&yt, &Type::Nil);
                        mk(ExprKind::If(Box::new(t), Box::new(y), None), span, ty)
                    },
                }
            },
            kind => mk(kind, span, e.ty),
        }
    }

    #[verifier::spinoff_prover]
    #[verifier::rlimit(60)]
    fn check_block(&mut self, b: Block, hint: Option<&Type>) -> (r: (Block, Type))
        ensures
            r.0@ == t_block(b@, hint_of(hint), old(self).env(), old(self).cx(), old(self).diags@).block,
            r.1@ == t_block(b@, hint_of(hint), old(self).env(), old(self).cx(), old(self).diags@).ty,
            final(self).diags@ == t_block(b@, hint_of(hint), old(self).env(), old(self).cx(), old(self).diags@).diags,
            final(self).kept(*old(self)),
        decreases b, 0int,
    {
        proof {
            reveal(t_block);
            reveal(t_stmts);
            reveal(t_expr);
        }
        let ghost m = ast::stmts_model(b.stmts@);
        let ghost all = b.stmts@;
        let ghost env0 = self.env();
        let depth: usize = self.locals.len();
        let mut rest = b.stmts;
        let count: usize = rest.len();
        let mut out: Vec<Stmt> = Vec::new();
        let mut i: usize = 0;
        assert(rest@ =~= all.skip(0));
        assert(ast::stmts_model(out@) =~= Seq::empty());
        assert(self.locals@.take(depth as int) =~= self.locals@);
        assert(decreases_to!(b.stmts => b.stmts@));
        while rest.len() > 0
            invariant
                i <= all.len(),
                all.len() == count,
                all == b.stmts@,
                decreases_to!(b => all),
                m == ast::stmts_model(all),
                rest@ == all.skip(i as int),
                env0 == old(self).env(),
                ast::stmts_model(out@) == t_stmts(m, i as int, env0, old(self).cx(), old(self).diags@).stmts,
                self.env() == t_stmts(m, i as int, env0, old(self).cx(), old(self).diags@).env,
                self.diags@ == t_stmts(m, i as int, env0, old(self).cx(), old(self).diags@).diags,
                self.table == old(self).table,
                self.ret_ty == old(self).ret_ty,
                depth <= self.locals@.len(),
                self.locals@.take(depth as int) == old(self).locals@,
            decreases rest.len(),
        {
            proof {
                reveal(t_stmts);
                reveal(t_stmt);
            }
            let s = rest.remove(0);
            assert(s == all[i as int]);
            assert(decreases_to!(all => all[i as int]));
            assert(m[i as int] == s@);
            let t = self.check_stmt(s);
            proof {
                ast::lemma_stmts_push(out@, t);
            }
            out.push(t);
            i += 1;
            assert(rest@ =~= all.skip(i as int));
        }
        let (tail, ty) = match b.tail {
            Some(e) => {
                let want: Option<&Type> = if is_open_literal(&e) { hint } else { None };
                let t = self.check_expr_hinted(e, want);
                let ty = t.ty.clone();
                (Some(t), ty)
            },
            None => (None, Type::Nil),
        };
        self.locals.truncate(depth);
        (Block { stmts: out, tail, span: b.span }, ty)
    }

    #[verifier::spinoff_prover]
    #[verifier::rlimit(80)]
    fn check_stmt(&mut self, s: Stmt) -> (r: Stmt)
        ensures
            r@ == t_stmt(s@, old(self).env(), old(self).cx(), old(self).diags@).stmt,
            final(self).env() == t_stmt(s@, old(self).env(), old(self).cx(), old(self).diags@).env,
            final(self).diags@ == t_stmt(s@, old(self).env(), old(self).cx(), old(self).diags@).diags,
            final(self).table == old(self).table,
            final(self).ret_ty == old(self).ret_ty,
            old(self).locals@.len() <= final(self).locals@.len(),
            forall|k: int| 0 <= k <= old(self).locals@.len() ==> #[trigger] final(self).locals@.take(k) == old(self).locals@.take(k),
        decreases s, 0int,
    {
        proof {
            reveal(t_stmt);
            reveal(t_expr);
            reveal(t_block);
        }
        let ghost k = ast::stmt_kind_model(s.kind);
        assert(s@.kind == k);
        let span = s.span;
        match s.kind {
            StmtKind::Let { name, ty, mutable, init } => {
                let unknown: bool = matches!(ty, Type::Unknown);
                let t = if unknown {
                    self.check_expr_hinted(init, None)
                } else {
                    self.check_expr_hinted(init, Some(&ty))
                };
                let bound: Type = if unknown {
                    t.ty.clone()
                } else {
                    require("expected `", &ty, &t.ty, t.span, &mut self.diags);
                    ty
                };
                self.bind(name.clone(), bound.clone());
                assert forall|k: int| 0 <= k <= old(self).locals@.len() implies #[trigger] self.locals@.take(k) == old(
                    self,
                ).locals@.take(k) by {
                    assert(self.locals@.take(k) =~= old(self).locals@.take(k));
                }
                mk_stmt(StmtKind::Let { name, ty: bound, mutable, init: t }, span)
            },
            StmtKind::Assign(p, v) => {
                let a = self.check_expr_hinted(p, None);
                let want: Option<&Type> = if is_open_literal(&v) { Some(&a.ty) } else { None };
                let b = self.check_expr_hinted(v, want);
                if !unifies(&b.ty, &a.ty) {
                    self.diags.emit(Diagnostic::error(span, message_two("cannot assign `", &b.ty, "` to `", &a.ty)));
                }
                mk_stmt(StmtKind::Assign(a, b), span)
            },
            StmtKind::Expr(e) => {
                let t = self.check_expr_hinted(e, None);
                mk_stmt(StmtKind::Expr(t), span)
            },
            StmtKind::Return(v) => match v {
                None => {
                    if !matches!(self.ret_ty, Type::Nil) {
                        self.diags.emit(
                            Diagnostic::error(span, message_one("expected return value of type `", &self.ret_ty)),
                        );
                    }
                    mk_stmt(StmtKind::Return(None), span)
                },
                Some(e) => {
                    let want: Type = self.ret_ty.clone();
                    let t = self.check_expr_hinted(e, Some(&want));
                    require("return type mismatch: expected `", &want, &t.ty, span, &mut self.diags);
                    mk_stmt(StmtKind::Return(Some(t)), span)
                },
            },
            StmtKind::While(c, body) => {
                let t = self.check_expr_hinted(c, None);
                require_bool("`while` condition must be `bool`, found `", &t, &mut self.diags);
                let (b, _) = self.check_block(*body, None);
                mk_stmt(StmtKind::While(t, Box::new(b)), span)
            },
            StmtKind::If(c, yes, no) => {
                let t = self.check_expr_hinted(c, None);
                require_bool("`if` condition must be `bool`, found `", &t, &mut self.diags);
                let (y, _) = self.check_block(*yes, None);
                match no {
                    Some(b) => {
                        let (n, _) = self.check_block(*b, None);
                        mk_stmt(StmtKind::If(t, Box::new(y), Some(Box::new(n))), span)
                    },
                    None => mk_stmt(StmtKind::If(t, Box::new(y), None), span),
                }
            },
            StmtKind::Break => mk_stmt(StmtKind::Break, span),
            StmtKind::Continue => mk_stmt(StmtKind::Continue, span),
        }
    }
}

fn join_types(a: &Type, b: &Type) -> (r: Type)
    ensures
        r@ == branch_type(a@, b@),
{
    if a.same(b) {
        a.clone()
    } else if matches!(a, Type::Nil) || matches!(b, Type::Nil) {
        Type::Nil
    } else {
        Type::Error
    }
}

fn check_fn(f: FnDecl, table: &TypeTable, diags: Diagnostics) -> (r: (FnDecl, Diagnostics))
    ensures
        r.0@ == t_fn(f@, table@, diags@).0,
        r.1@ == t_fn(f@, table@, diags@).1,
{
    let ghost m = f@;
    let ghost pm = ast::params_model(f.params@);
    let ghost d0 = diags@;
    let mut d = diags;
    let mut i: usize = 0;
    while i < f.params.len()
        invariant
            i <= f.params@.len(),
            pm == ast::params_model(f.params@),
            d@ == in_params(pm, i as int, table@, d0),
        decreases f.params.len() - i,
    {
        assert(pm[i as int] == f.params@[i as int]@);
        validate_type(&f.params[i].ty, table, f.params[i].span, &mut d);
        i += 1;
    }
    validate_type(&f.ret, table, f.span, &mut d);
    let mut c = Checker { table, ret_ty: f.ret.clone(), locals: Vec::new(), diags: d };
    assert(c.env() =~= Seq::empty());
    c.bind_all(&f.params);
    let body_span = f.body.span;
    let (body, ty) = c.check_block(f.body, Some(&f.ret));
    let mut d2 = c.diags;
    if !matches!(f.ret, Type::Nil) && !matches!(ty, Type::Error) && !ty.same(&f.ret) && !matches!(ty, Type::Nil) {
        let prefix = quoted("function `", f.name.as_str(), "` returns `");
        d2.emit(Diagnostic::error(body_span, message_two(prefix.as_str(), &f.ret, "`, but body produces `", &ty)));
    }
    (FnDecl { name: f.name, params: f.params, ret: f.ret, body, span: f.span }, d2)
}

fn check_struct_fields(s: &StructDecl, t: &TypeTable, diags: &mut Diagnostics)
    ensures
        final(diags)@ == in_fields(ast::struct_fields_model(s.fields@), s.fields@.len() as int, t@, old(diags)@),
{
    let ghost m = ast::struct_fields_model(s.fields@);
    let mut i: usize = 0;
    while i < s.fields.len()
        invariant
            i <= s.fields@.len(),
            m == ast::struct_fields_model(s.fields@),
            diags@ == in_fields(m, i as int, t@, old(diags)@),
        decreases s.fields.len() - i,
    {
        assert(m[i as int] == (s.fields@[i as int].0@, s.fields@[i as int].1@, s.fields@[i as int].2));
        validate_type(&s.fields[i].1, t, s.fields[i].2, diags);
        i += 1;
    }
}

fn layout(s: &StructDecl) -> (r: Layout)
    ensures
        r@ == layout_of(ast::struct_fields_model(s.fields@)),
{
    let mut fields: Vec<(String, Type)> = Vec::new();
    let mut i: usize = 0;
    while i < s.fields.len()
        invariant
            i <= s.fields@.len(),
            fields@.len() == i,
            forall|j: int|
                0 <= j < i ==> (#[trigger] fields@[j]).0@ == s.fields@[j].0@ && fields@[j].1@ == s.fields@[j].1@,
        decreases s.fields.len() - i,
    {
        fields.push((s.fields[i].0.clone(), s.fields[i].1.clone()));
        i += 1;
    }
    let r = Layout { fields };
    assert(r@ =~= layout_of(ast::struct_fields_model(s.fields@)));
    r
}

fn build_table(module: &Module) -> (table: TypeTable)
    ensures
        table@ == tables_of(module@.decls, module@.decls.len() as int),
{
    let mut table = TypeTable { functions: NameMap::new(), structs: NameMap::new(), constants: NameMap::new() };
    let mut i: usize = 0;
    while i < module.decls.len()
        invariant
            i <= module.decls@.len(),
            table@ == tables_of(module@.decls, i as int),
        decreases module.decls.len() - i,
    {
        assert(module@.decls[i as int] == module.decls@[i as int]@);
        match &module.decls[i] {
            Decl::Fn(f) => {
                let sig = Signature { params: types_of(&f.params), ret: f.ret.clone() };
                table.functions.insert(f.name.clone(), sig);
            },
            Decl::Struct(s) => {
                let l = layout(s);
                table.structs.insert(s.name.clone(), l);
            },
            Decl::Const(c) => {
                table.constants.insert(c.name.clone(), c.ty.clone());
            },
        }
        i += 1;
    }
    table
}

/// Typechecks `module` in place.
#[verifier::spinoff_prover]
pub fn check(module: &mut Module, diags: &mut Diagnostics) -> (table: TypeTable)
    ensures
        table@ == tables_of(old(module)@.decls, old(module)@.decls.len() as int),
        final(module)@ == checked(old(module)@, old(diags)@).0,
        final(diags)@ == checked(old(module)@, old(diags)@).1,
{
    let table = build_table(module);
    let ghost m = module@.decls;
    let ghost all = module.decls@;
    let ghost d0 = diags@;
    let mut i: usize = 0;
    while i < module.decls.len()
        invariant
            i <= module.decls@.len(),
            *module == *old(module),
            m == module@.decls,
            diags@ == in_structs(m, i as int, table@, d0),
        decreases module.decls.len() - i,
    {
        assert(m[i as int] == module.decls@[i as int]@);
        if let Decl::Struct(s) = &module.decls[i] {
            check_struct_fields(s, &table, diags);
        }
        i += 1;
    }
    let ghost d1 = diags@;
    let mut d = Diagnostics::new();
    core::mem::swap(&mut d, diags);
    let mut rest: Vec<Decl> = Vec::new();
    core::mem::swap(&mut rest, &mut module.decls);
    let mut out: Vec<Decl> = Vec::new();
    let mut j: usize = 0;
    assert(rest@ =~= all.skip(0));
    assert(crate::views::views(out@) =~= Seq::empty());
    while rest.len() > 0
        invariant
            j <= all.len() <= usize::MAX,
            all == old(module).decls@,
            m == old(module)@.decls,
            rest@ == all.skip(j as int),
            crate::views::views(out@) == t_decls(m, j as int, table@, d1).0,
            d@ == t_decls(m, j as int, table@, d1).1,
        decreases rest.len(),
    {
        let x = rest.remove(0);
        assert(x == all[j as int]);
        assert(m[j as int] == x@);
        let y = match x {
            Decl::Fn(f) => {
                let (g, d2) = check_fn(f, &table, d);
                d = d2;
                Decl::Fn(g)
            },
            other => other,
        };
        proof {
            crate::views::lemma_views_push(out@, y);
        }
        out.push(y);
        j += 1;
        assert(rest@ =~= all.skip(j as int));
    }
    *diags = d;
    module.decls = out;
    assert(module@.decls =~= crate::views::views(out@));
    table
}

} // verus!
