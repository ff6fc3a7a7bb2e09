//! Const-expression evaluator.
//!
//! `const` initializers must reduce to a single value at compile time:
//! literals, references to previously-defined consts, and arithmetic /
//! comparison / logical operators on those.
//!
//! Anything that requires runtime state (function calls, FFI, mutable
//! access, struct construction) is rejected with a diagnostic.

use crate::ast;
use crate::ast::{BinOp, Decl, DeclModel, Expr, ExprKind, ExprKindModel, ExprModel, Lit, LitModel, Module, UnOp};
use crate::bignat::Order;
use crate::diag;
use crate::diag::{Diagnostic, DiagnosticModel, Diagnostics};
use crate::float;
use crate::names::NameMap;
use vstd::prelude::*;
use vstd::string::*;

verus! {

/// A fully-reduced constant value.
#[derive(Debug, PartialEq)]
pub enum ConstValue {
    /// `nil`
    Nil,
    /// Boolean.
    Bool(bool),
    /// Integer.
    Int(i64),
    /// Float — stored as a bit pattern for total equality.
    Float(u64),
    /// String literal.
    Str(String),
}

impl View for ConstValue {
    type V = LitModel;

    open spec fn view(&self) -> LitModel {
        match *self {
            ConstValue::Nil => LitModel::Nil,
            ConstValue::Bool(b) => LitModel::Bool(b),
            ConstValue::Int(n) => LitModel::Int(n),
            ConstValue::Float(b) => LitModel::Float(b),
            ConstValue::Str(s) => LitModel::Str(s@),
        }
    }
}

impl Clone for ConstValue {
    fn clone(&self) -> (r: ConstValue)
        ensures
            r@ == self@,
    {
        match self {
            ConstValue::Nil => ConstValue::Nil,
            ConstValue::Bool(b) => ConstValue::Bool(*b),
            ConstValue::Int(n) => ConstValue::Int(*n),
            ConstValue::Float(b) => ConstValue::Float(*b),
            ConstValue::Str(s) => ConstValue::Str(s.clone()),
        }
    }
}

/// Const-eval environment: name -> value table built from the module's
/// `const` declarations.
#[derive(Debug)]
pub struct ConstEnv {
    /// Already-evaluated const bindings.
    pub bindings: NameMap<ConstValue>,
}

impl Default for ConstEnv {
    /// No bindings.
    fn default() -> (r: ConstEnv)
        ensures
            r.bindings@ == Map::<Seq<char>, LitModel>::empty(),
    {
        ConstEnv { bindings: NameMap::new() }
    }
}

/// What a constant expression evaluates to, or why it does not.
pub type Outcome = Result<LitModel, Seq<char>>;

/// The value of a checked operation, or a complaint.
pub open spec fn checked(v: Option<i64>, message: Seq<char>) -> Outcome {
    match v {
        Some(n) => Ok(LitModel::Int(n)),
        None => Err(message),
    }
}

/// Whether two ordered things stand in the relation that a comparison operator names.
pub open spec fn compares(op: BinOp, less: bool, same: bool, greater: bool) -> bool {
    match op {
        BinOp::Eq => same,
        BinOp::Ne => !same,
        BinOp::Lt => less,
        BinOp::Le => less || same,
        BinOp::Gt => greater,
        BinOp::Ge => greater || same,
        _ => false,
    }
}

/// An operator on two integers: wrapping arithmetic, checked division, comparison.
pub open spec fn int_op(op: BinOp, a: i64, b: i64) -> Outcome {
    match op {
        BinOp::Add => Ok(LitModel::Int(a.wrapping_add(b))),
        BinOp::Sub => Ok(LitModel::Int(a.wrapping_sub(b))),
        BinOp::Mul => Ok(LitModel::Int(a.wrapping_mul(b))),
        BinOp::Div => checked(a.checked_div(b), "division by zero"@),
        BinOp::Mod => checked(a.checked_rem(b), "modulo by zero"@),
        BinOp::And | BinOp::Or => Err("invalid operator on integers"@),
        _ => Ok(LitModel::Bool(compares(op, a < b, a == b, a > b))),
    }
}

/// An operator on two floats.
pub open spec fn float_op(op: BinOp, a: u64, b: u64) -> Outcome {
    match op {
        BinOp::Add => Ok(LitModel::Float(float::sum(a, b))),
        BinOp::Sub => Ok(LitModel::Float(float::sum(a, float::negated(b)))),
        BinOp::Mul => Ok(LitModel::Float(float::product(a, b))),
        BinOp::Div => Ok(LitModel::Float(float::quotient(a, b))),
        BinOp::Mod | BinOp::And | BinOp::Or => Err("invalid operator on floats"@),
        _ => Ok(LitModel::Bool(compares(op, float::less(a, b), float::same(a, b), float::less(b, a)))),
    }
}

/// An operator on two booleans.
pub open spec fn bool_op(op: BinOp, a: bool, b: bool) -> Outcome {
    match op {
        BinOp::And => Ok(LitModel::Bool(a && b)),
        BinOp::Or => Ok(LitModel::Bool(a || b)),
        BinOp::Eq => Ok(LitModel::Bool(a == b)),
        BinOp::Ne => Ok(LitModel::Bool(a != b)),
        _ => Err("invalid operator on booleans"@),
    }
}

/// A binary operator on two constants.
pub open spec fn binary(op: BinOp, l: LitModel, r: LitModel) -> Outcome {
    match (l, r) {
        (LitModel::Int(a), LitModel::Int(b)) => int_op(op, a, b),
        (LitModel::Float(a), LitModel::Float(b)) => float_op(op, a, b),
        (LitModel::Bool(a), LitModel::Bool(b)) => bool_op(op, a, b),
        _ => Err("type mismatch in constant expression"@),
    }
}

/// A unary operator on a constant.
pub open spec fn unary(op: UnOp, x: LitModel) -> Outcome {
    match (op, x) {
        (UnOp::Neg, LitModel::Int(v)) => Ok(LitModel::Int(0i64.wrapping_sub(v))),
        (UnOp::Neg, LitModel::Float(b)) => Ok(LitModel::Float(float::negated(b))),
        (UnOp::Not, LitModel::Bool(v)) => Ok(LitModel::Bool(!v)),
        _ => Err("invalid unary operator"@),
    }
}

/// The value of a constant expression under `env`. The left operand is evaluated first.
pub open spec fn value_of(e: ExprModel, env: Map<Seq<char>, LitModel>) -> Outcome
    decreases e,
{
    match e.kind {
        ExprKindModel::Lit(l) => Ok(l),
        ExprKindModel::Ident(n) => if env.dom().contains(n) {
            Ok(env[n])
        } else {
            Err("name `"@ + n + "` is not a constant"@)
        },
        ExprKindModel::Binary(op, l, r) => match value_of(*l.it, env) {
            Err(m) => Err(m),
            Ok(lv) => match value_of(*r.it, env) {
                Err(m) => Err(m),
                Ok(rv) => binary(op, lv, rv),
            },
        },
        ExprKindModel::Unary(op, x) => match value_of(*x.it, env) {
            Err(m) => Err(m),
            Ok(v) => unary(op, v),
        },
        _ => Err("not a constant expression"@),
    }
}

/// The constants of the first `k` declarations, and the complaints behind `diags`. A constant
/// that cannot be evaluated stays unbound.
pub open spec fn consts_of(decls: Seq<DeclModel>, k: int, diags: Seq<DiagnosticModel>) -> (Map<Seq<char>, LitModel>, Seq<DiagnosticModel>)
    decreases k,
{
    if k <= 0 {
        (Map::empty(), diags)
    } else {
        let (env, d) = consts_of(decls, k - 1, diags);
        match decls[k - 1] {
            DeclModel::Const(c) => match value_of(c.init, env) {
                Ok(v) => (env.insert(c.name, v), d),
                Err(m) => (env, d.push(diag::error_at(c.init.span, m))),
            },
            _ => (env, d),
        }
    }
}

/// Whether an exec result agrees with an outcome.
pub open spec fn agrees(r: Result<ConstValue, String>, o: Outcome) -> bool {
    match (r, o) {
        (Ok(v), Ok(m)) => v@ == m,
        (Err(s), Err(t)) => s@ == t,
        _ => false,
    }
}

/// Evaluates every `const` declaration in `module` and populates the
/// environment. Errors are emitted into `diags`.
pub fn eval_consts(module: &Module, diags: &mut Diagnostics) -> (r: ConstEnv)
    ensures
        r.bindings@ == consts_of(module@.decls, module@.decls.len() as int, old(diags)@).0,
        final(diags)@ == consts_of(module@.decls, module@.decls.len() as int, old(diags)@).1,
{
    let mut env = ConstEnv { bindings: NameMap::new() };
    let ghost d0 = diags@;
    let mut i: usize = 0;
    while i < module.decls.len()
        invariant
            i <= module.decls@.len(),
            env.bindings@ == consts_of(module@.decls, i as int, d0).0,
            diags@ == consts_of(module@.decls, i as int, d0).1,
        decreases module.decls.len() - i,
    {
        assert(module@.decls[i as int] == module.decls@[i as int]@);
        if let Decl::Const(c) = &module.decls[i] {
            match eval(&c.init, &env) {
                Ok(v) => {
                    env.bindings.insert(c.name.clone(), v);
                },
                Err(msg) => {
                    diags.emit(Diagnostic::error(c.init.span, msg));
                },
            }
        }
        i += 1;
    }
    env
}

/// Evaluates `expr` against `env`. Returns a value or a diagnostic message.
pub fn eval(expr: &Expr, env: &ConstEnv) -> (r: Result<ConstValue, String>)
    ensures
        agrees(r, value_of(expr@, env.bindings@)),
    decreases *expr,
{
    let ghost k = ast::expr_kind_model(expr.kind);
    assert(expr@.kind == k);
    match &expr.kind {
        ExprKind::Lit(l) => Ok(
            match l {
                Lit::Nil => ConstValue::Nil,
                Lit::Bool(v) => ConstValue::Bool(*v),
                Lit::Int(v) => ConstValue::Int(*v),
                Lit::Float(b) => ConstValue::Float(*b),
                Lit::Str(s) => ConstValue::Str(s.clone()),
            },
        ),
        ExprKind::Ident(n) => match env.bindings.get(n.as_str()) {
            Some(v) => Ok(v.clone()),
            None => {
                let mut m = "name `".to_owned();
                m.append(n.as_str());
                m.append("` is not a constant");
                Err(m)
            },
        },
        ExprKind::Binary(op, l, r) => match eval(l, env) {
            Err(m) => Err(m),
            Ok(lv) => match eval(r, env) {
                Err(m) => Err(m),
                Ok(rv) => apply_binop(*op, &lv, &rv),
            },
        },
        ExprKind::Unary(op, x) => match eval(x, env) {
            Err(m) => Err(m),
            Ok(v) => apply_unop(*op, &v),
        },
        _ => Err("not a constant expression".to_owned()),
    }
}

/// Compares by a comparison operator.
pub(crate) fn compare_by(op: BinOp, o: Option<Order>) -> (r: bool)
    ensures
        r == compares(op, o == Some(Order::Less), o == Some(Order::Same), o == Some(Order::Greater)),
{
    match op {
        BinOp::Eq => o == Some(Order::Same),
        BinOp::Ne => o != Some(Order::Same),
        BinOp::Lt => o == Some(Order::Less),
        BinOp::Le => o == Some(Order::Less) || o == Some(Order::Same),
        BinOp::Gt => o == Some(Order::Greater),
        BinOp::Ge => o == Some(Order::Greater) || o == Some(Order::Same),
        _ => false,
    }
}

/// How two integers compare.
pub(crate) fn int_order(a: i64, b: i64) -> (r: Option<Order>)
    ensures
        r == Some(Order::Less) <==> a < b,
        r == Some(Order::Same) <==> a == b,
        r == Some(Order::Greater) <==> a > b,
{
    Some(
        if a < b {
            Order::Less
        } else if a == b {
            Order::Same
        } else {
            Order::Greater
        },
    )
}

fn apply_binop(op: BinOp, l: &ConstValue, r: &ConstValue) -> (res: Result<ConstValue, String>)
    ensures
        agrees(res, binary(op, l@, r@)),
{
    match (l, r) {
        (ConstValue::Int(a), ConstValue::Int(b)) => match op {
            BinOp::Add => Ok(ConstValue::Int((*a).wrapping_add(*b))),
            BinOp::Sub => Ok(ConstValue::Int((*a).wrapping_sub(*b))),
            BinOp::Mul => Ok(ConstValue::Int((*a).wrapping_mul(*b))),
            BinOp::Div => match (*a).checked_div(*b) {
                Some(v) => Ok(ConstValue::Int(v)),
                None => Err("division by zero".to_owned()),
            },
            BinOp::Mod => match (*a).checked_rem(*b) {
                Some(v) => Ok(ConstValue::Int(v)),
                None => Err("modulo by zero".to_owned()),
            },
            BinOp::And | BinOp::Or => Err("invalid operator on integers".to_owned()),
            _ => Ok(ConstValue::Bool(compare_by(op, int_order(*a, *b)))),
        },
        (ConstValue::Float(a), ConstValue::Float(b)) => match op {
            BinOp::Add => Ok(ConstValue::Float(float::plus(*a, *b))),
            BinOp::Sub => Ok(ConstValue::Float(float::minus(*a, *b))),
            BinOp::Mul => Ok(ConstValue::Float(float::times(*a, *b))),
            BinOp::Div => Ok(ConstValue::Float(float::over(*a, *b))),
            BinOp::Mod | BinOp::And | BinOp::Or => Err("invalid operator on floats".to_owned()),
            _ => Ok(ConstValue::Bool(compare_by(op, float::order(*a, *b)))),
        },
        (ConstValue::Bool(a), ConstValue::Bool(b)) => match op {
            BinOp::And => Ok(ConstValue::Bool(*a && *b)),
            BinOp::Or => Ok(ConstValue::Bool(*a || *b)),
            BinOp::Eq => Ok(ConstValue::Bool(*a == *b)),
            BinOp::Ne => Ok(ConstValue::Bool(*a != *b)),
            _ => Err("invalid operator on booleans".to_owned()),
        },
        _ => Err("type mismatch in constant expression".to_owned()),
    }
}

fn apply_unop(op: UnOp, x: &ConstValue) -> (res: Result<ConstValue, String>)
    ensures
        agrees(res, unary(op, x@)),
{
    match (op, x) {
        (UnOp::Neg, ConstValue::Int(v)) => Ok(ConstValue::Int(0i64.wrapping_sub(*v))),
        (UnOp::Neg, ConstValue::Float(b)) => Ok(ConstValue::Float(float::neg(*b))),
        (UnOp::Not, ConstValue::Bool(v)) => Ok(ConstValue::Bool(!*v)),
        _ => Err("invalid unary operator".to_owned()),
    }
}

} // verus!
