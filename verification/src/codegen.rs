//! From the typechecked tree to register bytecode.
//!
//! Registers are handed out in order and not reused: every expression that computes
//! something gets a new one. A function that needs 256 or more gets code that the verifier
//! refuses.
//!
//! Top-level functions come first in the function table, in declaration order; the bodies
//! of closures follow. So a call can name its callee before the callee is compiled.

use crate::ast;
use crate::ast::{
    BinOp, Block, BlockModel, Decl, DeclModel, Expr, ExprKind, ExprKindModel, ExprModel, FnDecl, FnDeclModel, Lit,
    LitModel, Param, ParamModel, Stmt, StmtKind, StmtKindModel, StmtModel, Type, TypeModel, UnOp,
};
use crate::bytecode;
use crate::bytecode::{Const, ConstModel, FunctionBytecode, FunctionModel, Module, ModuleBuilder, ModuleModel, Opcode};
use crate::names::NameMap;
use crate::source;
use crate::source::{Source, Span};
use crate::text;
use crate::text::push_dec;
use crate::typeck;
use crate::views;
use vstd::prelude::*;

verus! {

// --- free variables -------------------------------------------------------------------

/// The free variables found so far, with one more.
pub open spec fn noted(n: Seq<char>, bound: Seq<Seq<char>>, out: Seq<Seq<char>>) -> Seq<Seq<char>> {
    if bound.contains(n) || out.contains(n) {
        out
    } else {
        out.push(n)
    }
}

/// The names in scope with the first `k` parameters.
pub open spec fn with_params(bound: Seq<Seq<char>>, ps: Seq<ParamModel>, k: int) -> Seq<Seq<char>>
    decreases k,
{
    if k <= 0 {
        bound
    } else {
        with_params(bound, ps, k - 1).push(ps[k - 1].name)
    }
}

/// The free variables of an expression behind `out`: the names it reads that neither a
/// `let` nor a parameter inside it binds, each once, in order of first appearance.
#[verifier::opaque]
pub open spec fn fv_expr(e: ExprModel, bound: Seq<Seq<char>>, out: Seq<Seq<char>>) -> Seq<Seq<char>>
    decreases e, 0int,
{
    match e.kind {
        ExprKindModel::Lit(_) => out,
        ExprKindModel::Ident(n) => noted(n, bound, out),
        ExprKindModel::Binary(_, l, r) => fv_expr(*r.it, bound, fv_expr(*l.it, bound, out)),
        ExprKindModel::Unary(_, x) => fv_expr(*x.it, bound, out),
        ExprKindModel::Call(c, args) => fv_exprs(args, args.len() as int, bound, fv_expr(*c.it, bound, out)),
        ExprKindModel::Field(x, _) => fv_expr(*x.it, bound, out),
        ExprKindModel::Index(x, i) => fv_expr(*i.it, bound, fv_expr(*x.it, bound, out)),
        ExprKindModel::StructLit(_, fs) => fv_inits(fs, fs.len() as int, bound, out),
        ExprKindModel::ArrayLit(es) => fv_exprs(es, es.len() as int, bound, out),
        ExprKindModel::MapLit(ps) => fv_pairs(ps, ps.len() as int, bound, out),
        ExprKindModel::Closure(ps, b) => fv_expr(*b.it, with_params(bound, ps, ps.len() as int), out),
        ExprKindModel::Block(b) => fv_block(*b.it, bound, out),
        ExprKindModel::If(c, yes, no) => {
            let o = fv_block(*yes.it, bound, fv_expr(*c.it, bound, out));
            match no {
                Some(b) => fv_block(*b.it, bound, o),
                None => o,
            }
        },
    }
}

/// Those of the first `k` expressions.
#[verifier::opaque]
pub open spec fn fv_exprs(es: Seq<ExprModel>, k: int, bound: Seq<Seq<char>>, out: Seq<Seq<char>>) -> Seq<Seq<char>>
    decreases es, k,
{
    if k <= 0 || k > es.len() {
        out
    } else {
        fv_expr(es[k - 1], bound, fv_exprs(es, k - 1, bound, out))
    }
}

/// Those of the first `k` field initializers.
#[verifier::opaque]
pub open spec fn fv_inits(fs: Seq<(Seq<char>, ExprModel)>, k: int, bound: Seq<Seq<char>>, out: Seq<Seq<char>>) -> Seq<
    Seq<char>,
>
    decreases fs, k,
{
    if k <= 0 || k > fs.len() {
        out
    } else {
        fv_expr(fs[k - 1].1, bound, fv_inits(fs, k - 1, bound, out))
    }
}

/// Those of the first `k` entries of a map.
#[verifier::opaque]
pub open spec fn fv_pairs(ps: Seq<(ExprModel, ExprModel)>, k: int, bound: Seq<Seq<char>>, out: Seq<Seq<char>>) -> Seq<
    Seq<char>,
>
    decreases ps, k,
{
    if k <= 0 || k > ps.len() {
        out
    } else {
        fv_expr(ps[k - 1].1, bound, fv_expr(ps[k - 1].0, bound, fv_pairs(ps, k - 1, bound, out)))
    }
}

/// The names in scope behind the first `k` statements.
pub open spec fn bound_by(ss: Seq<StmtModel>, k: int, bound: Seq<Seq<char>>) -> Seq<Seq<char>>
    decreases k,
{
    if k <= 0 || k > ss.len() {
        bound
    } else {
        match ss[k - 1].kind {
            StmtKindModel::Let { name, .. } => bound_by(ss, k - 1, bound).push(name),
            _ => bound_by(ss, k - 1, bound),
        }
    }
}

/// Those of a block.
#[verifier::opaque]
pub open spec fn fv_block(b: BlockModel, bound: Seq<Seq<char>>, out: Seq<Seq<char>>) -> Seq<Seq<char>>
    decreases b, 0int,
{
    let n = b.stmts.len() as int;
    let o = fv_stmts(b.stmts, n, bound, out);
    match b.tail {
        Some(e) => fv_expr(e, bound_by(b.stmts, n, bound), o),
        None => o,
    }
}

/// Those of the first `k` statements.
#[verifier::opaque]
pub open spec fn fv_stmts(ss: Seq<StmtModel>, k: int, bound: Seq<Seq<char>>, out: Seq<Seq<char>>) -> Seq<Seq<char>>
    decreases ss, k,
{
    if k <= 0 || k > ss.len() {
        out
    } else {
        fv_stmt(ss[k - 1], bound_by(ss, k - 1, bound), fv_stmts(ss, k - 1, bound, out))
    }
}

/// Those of a statement.
#[verifier::opaque]
pub open spec fn fv_stmt(s: StmtModel, bound: Seq<Seq<char>>, out: Seq<Seq<char>>) -> Seq<Seq<char>>
    decreases s, 0int,
{
    match s.kind {
        StmtKindModel::Let { name, ty, mutable, init } => fv_expr(init, bound, out),
        StmtKindModel::Assign(t, v) => fv_expr(v, bound, fv_expr(t, bound, out)),
        StmtKindModel::Expr(e) => fv_expr(e, bound, out),
        StmtKindModel::Return(Some(e)) => fv_expr(e, bound, out),
        StmtKindModel::Return(None) => out,
        StmtKindModel::While(c, b) => fv_block(*b.it, bound, fv_expr(c, bound, out)),
        StmtKindModel::If(c, yes, no) => {
            let o = fv_block(*yes.it, bound, fv_expr(c, bound, out));
            match no {
                Some(b) => fv_block(*b.it, bound, o),
                None => o,
            }
        },
        _ => out,
    }
}

/// The free variables of a closure.
pub open spec fn free_vars(body: ExprModel, ps: Seq<ParamModel>) -> Seq<Seq<char>> {
    fv_expr(body, with_params(Seq::empty(), ps, ps.len() as int), Seq::empty())
}

// --- code ---------------------------------------------------------------------------

/// What code generation looks things up in: the places of the top-level functions by
/// name, the bytes of the source, and how many top-level functions there are.
pub struct Cx {
    pub index: Map<Seq<char>, u16>,
    pub src: Seq<u8>,
    pub tops: int,
}

/// A function while its code is generated, and the constants and closures of the module.
#[verifier::ext_equal]
pub struct Gen {
    pub code: Seq<u8>,
    pub lines: Seq<u32>,
    pub next: u16,
    pub env: Seq<(Seq<char>, u8)>,
    pub consts: Seq<ConstModel>,
    pub fns: Seq<FunctionModel>,
}

/// The line of a span; 0 for the empty span at the start of the text.
pub open spec fn line_of(src: Seq<u8>, span: Span) -> u32 {
    if span.lo == 0 && span.hi == 0 {
        0
    } else {
        let line = source::newlines(src, span.lo as int) + 1;
        if line > u32::MAX {
            u32::MAX
        } else {
            line as u32
        }
    }
}

/// The low byte of a 16-bit number.
pub open spec fn lo8(v: int) -> u8 {
    (v % 256) as u8
}

/// The high byte of a 16-bit number.
pub open spec fn hi8(v: int) -> u8 {
    ((v / 256) % 256) as u8
}

impl Gen {
    /// With an opcode, and the line it stands for.
    pub open spec fn op(self, o: Opcode, span: Span, cx: Cx) -> Gen {
        Gen { code: self.code.push(bytecode::byte_of(o)), lines: self.lines.push(line_of(cx.src, span)), ..self }
    }

    /// With an operand byte.
    pub open spec fn byte(self, b: u8) -> Gen {
        Gen { code: self.code.push(b), lines: self.lines.push(0), ..self }
    }

    /// With a 16-bit operand.
    pub open spec fn word(self, v: int) -> Gen {
        self.byte(lo8(v)).byte(hi8(v))
    }

    /// With the first `k` of some registers.
    pub open spec fn regs(self, rs: Seq<u8>, k: int) -> Gen
        decreases k,
    {
        if k <= 0 {
            self
        } else {
            self.regs(rs, k - 1).byte(rs[k - 1])
        }
    }

    /// With a list of registers behind its length.
    pub open spec fn list(self, rs: Seq<u8>) -> Gen {
        self.byte((rs.len() % 256) as u8).regs(rs, rs.len() as int)
    }

    /// The next register; 255 from the 256th on.
    pub open spec fn reg(self) -> u8 {
        if self.next > 255 {
            255
        } else {
            self.next as u8
        }
    }

    /// With the next register taken.
    pub open spec fn taken(self) -> Gen {
        Gen {
            next: if self.next < u16::MAX {
                (self.next + 1) as u16
            } else {
                self.next
            },
            ..self
        }
    }

    /// With a name for a register.
    pub open spec fn bind(self, n: Seq<char>, r: u8) -> Gen {
        Gen { env: self.env.push((n, r)), ..self }
    }

    /// With only the first `k` names.
    pub open spec fn cut(self, k: int) -> Gen {
        Gen { env: self.env.take(k), ..self }
    }

    /// With the 16 bits at `at` set to the distance from behind them to the end.
    pub open spec fn patch(self, at: int) -> Gen {
        let off = (self.code.len() - (at + 2)) % 0x1_0000;
        Gen { code: self.code.update(at, lo8(off)).update(at + 1, hi8(off)), ..self }
    }

    /// With a constant interned.
    pub open spec fn interned(self, c: ConstModel) -> Gen {
        Gen { consts: bytecode::with_const(self.consts, c), ..self }
    }

    /// With nil in a new register.
    pub open spec fn nil(self, span: Span, cx: Cx) -> (Gen, u8) {
        (self.taken().op(Opcode::ConstNil, span, cx).byte(self.reg()), self.reg())
    }

    /// With a constant of the pool in a new register.
    pub open spec fn pooled(self, o: Opcode, c: ConstModel, span: Span, cx: Cx) -> (Gen, u8) {
        (
            self.taken().op(o, span, cx).interned(c).byte(self.reg()).word(
                bytecode::interned(self.consts, c) % 0x1_0000,
            ),
            self.reg(),
        )
    }
}

/// Where a name was bound last.
pub open spec fn bound_reg(env: Seq<(Seq<char>, u8)>, n: Seq<char>) -> Option<u8>
    decreases env.len(),
{
    if env.len() == 0 {
        None
    } else if env.last().0 == n {
        Some(env.last().1)
    } else {
        bound_reg(env.drop_last(), n)
    }
}

/// The opcode of a binary operator.
pub open spec fn binop_code(op: BinOp) -> Opcode {
    match op {
        BinOp::Add => Opcode::Add,
        BinOp::Sub => Opcode::Sub,
        BinOp::Mul => Opcode::Mul,
        BinOp::Div => Opcode::Div,
        BinOp::Mod => Opcode::Mod,
        BinOp::Eq => Opcode::Eq,
        BinOp::Ne => Opcode::Ne,
        BinOp::Lt => Opcode::Lt,
        BinOp::Le => Opcode::Le,
        BinOp::Gt => Opcode::Gt,
        BinOp::Ge => Opcode::Ge,
        BinOp::And => Opcode::And,
        BinOp::Or => Opcode::Or,
    }
}

/// The opcode of a unary operator.
pub open spec fn unop_code(op: UnOp) -> Opcode {
    match op {
        UnOp::Neg => Opcode::Neg,
        UnOp::Not => Opcode::Not,
    }
}

/// A literal.
pub open spec fn g_lit(l: LitModel, span: Span, s: Gen, cx: Cx) -> (Gen, u8) {
    match l {
        LitModel::Nil => s.nil(span, cx),
        LitModel::Bool(b) => (
            s.taken().op(
                if b {
                    Opcode::ConstTrue
                } else {
                    Opcode::ConstFalse
                },
                span,
                cx,
            ).byte(s.reg()),
            s.reg(),
        ),
        LitModel::Int(v) => s.pooled(Opcode::ConstInt, ConstModel::Int(v), span, cx),
        LitModel::Float(b) => s.pooled(Opcode::ConstFloat, ConstModel::Float(b), span, cx),
        LitModel::Str(t) => s.pooled(Opcode::ConstStr, ConstModel::Str(t), span, cx),
    }
}

/// The place of the callee of a direct call.
pub open spec fn direct(c: ExprModel, cx: Cx) -> Option<u16> {
    match c.kind {
        ExprKindModel::Ident(n) => if cx.index.dom().contains(n) {
            Some(cx.index[n])
        } else {
            None
        },
        _ => None,
    }
}

/// The register of a callee that is a name.
pub open spec fn named_callee(c: ExprModel, s: Gen) -> Option<Option<u8>> {
    match c.kind {
        ExprKindModel::Ident(n) => Some(bound_reg(s.env, n)),
        _ => None,
    }
}

/// A direct call.
pub open spec fn g_direct(id: u16, rs: Seq<u8>, span: Span, s: Gen, cx: Cx) -> (Gen, u8) {
    (s.taken().op(Opcode::Call, span, cx).byte(s.reg()).word(id as int).list(rs), s.reg())
}

/// A call of a closure.
pub open spec fn g_indirect(cls: u8, rs: Seq<u8>, span: Span, s: Gen, cx: Cx) -> (Gen, u8) {
    (s.taken().op(Opcode::CallClosure, span, cx).byte(s.reg()).byte(cls).list(rs), s.reg())
}

/// The stores of the first `k` entries of a map.
pub open spec fn put_pairs(rs: Seq<(u8, u8)>, k: int, dst: u8, span: Span, s: Gen, cx: Cx) -> Gen
    decreases k,
{
    if k <= 0 {
        s
    } else {
        put_pairs(rs, k - 1, dst, span, s, cx).op(Opcode::MapSet, span, cx).byte(dst).byte(rs[k - 1].0).byte(
            rs[k - 1].1,
        )
    }
}

/// The stores of the first `k` fields.
pub open spec fn put_fields(ns: Seq<(Seq<char>, ExprModel)>, rs: Seq<u8>, k: int, dst: u8, span: Span, s: Gen, cx: Cx) -> Gen
    decreases k,
{
    if k <= 0 {
        s
    } else {
        let t = put_fields(ns, rs, k - 1, dst, span, s, cx);
        let c = ConstModel::Str(ns[k - 1].0);
        t.interned(c).op(Opcode::StructSet, span, cx).byte(dst).word(bytecode::interned(t.consts, c) % 0x1_0000).byte(
            rs[k - 1],
        )
    }
}

/// The opcode that reads an element of a value of some type.
pub open spec fn index_code(t: TypeModel) -> Option<Opcode> {
    match t {
        TypeModel::Array(_) => Some(Opcode::ArrayGet),
        TypeModel::Dict(_, _) => Some(Opcode::MapGet),
        _ => None,
    }
}

/// The read of an element.
pub open spec fn g_index(t: TypeModel, x: u8, i: u8, span: Span, s: Gen, cx: Cx) -> (Gen, u8) {
    match index_code(t) {
        Some(o) => (s.taken().op(o, span, cx).byte(s.reg()).byte(x).byte(i), s.reg()),
        None => s.nil(span, cx),
    }
}

/// Those of the first `k` names that have a register, with their registers.
pub open spec fn captured(ns: Seq<Seq<char>>, k: int, env: Seq<(Seq<char>, u8)>) -> (Seq<Seq<char>>, Seq<u8>)
    decreases k,
{
    if k <= 0 {
        (Seq::empty(), Seq::empty())
    } else {
        let (names, rs) = captured(ns, k - 1, env);
        match bound_reg(env, ns[k - 1]) {
            Some(r) => (names.push(ns[k - 1]), rs.push(r)),
            None => (names, rs),
        }
    }
}

/// With the first `k` names bound to new registers.
pub open spec fn bind_names(ns: Seq<Seq<char>>, k: int, s: Gen) -> Gen
    decreases k,
{
    if k <= 0 {
        s
    } else {
        let t = bind_names(ns, k - 1, s);
        t.taken().bind(ns[k - 1], t.reg())
    }
}

/// With the first `k` parameters bound to new registers.
pub open spec fn bind_params(ps: Seq<ParamModel>, k: int, s: Gen) -> Gen
    decreases k,
{
    if k <= 0 {
        s
    } else {
        let t = bind_params(ps, k - 1, s);
        t.taken().bind(ps[k - 1].name, t.reg())
    }
}

/// How many registers a function is said to have.
pub open spec fn register_count(next: u16) -> u8 {
    if next >= 256 {
        0
    } else {
        next as u8
    }
}

/// A function at its start.
pub open spec fn blank(consts: Seq<ConstModel>, fns: Seq<FunctionModel>) -> Gen {
    Gen { code: Seq::empty(), lines: Seq::empty(), next: 0, env: Seq::empty(), consts, fns }
}

/// The function of a closure at the start of its body: what it captured, then its
/// parameters, in the first registers.
pub open spec fn closure_start(caps: Seq<Seq<char>>, ps: Seq<ParamModel>, s: Gen) -> Gen {
    bind_params(ps, ps.len() as int, bind_names(caps, caps.len() as int, blank(s.consts, s.fns)))
}

/// The function of a closure, once its body left `t` with its value in `r`.
pub open spec fn closure_fn(name: Seq<char>, args: nat, t: Gen, r: u8, span: Span, cx: Cx) -> FunctionModel {
    let u = t.op(Opcode::ReturnVal, span, cx).byte(r);
    FunctionModel {
        name,
        arity: (args % 256) as u8,
        max_register: register_count(t.next),
        code: u.code,
        lines: u.lines,
    }
}

/// The code around a closure: `t` is what compiling its body left.
pub open spec fn g_closure(e: ExprModel, caps: (Seq<Seq<char>>, Seq<u8>), args: nat, t: Gen, r: u8, span: Span, s: Gen, cx: Cx) -> (Gen, u8) {
    let name = "__closure_"@ + text::dec(((cx.tops + s.fns.len()) % 0x1_0000) as nat);
    let u = Gen {
        consts: t.consts,
        fns: t.fns.push(closure_fn(name, args, t, r, span, cx)),
        ..s
    };
    (
        u.taken().op(Opcode::ClosureMake, e.span, cx).byte(u.reg()).word((cx.tops + t.fns.len()) % 0x1_0000).list(
            caps.1,
        ),
        u.reg(),
    )
}

/// The conditional jump of an `if` or a `while`, its distance still open.
pub open spec fn unless(s: Gen, r: u8, span: Span, cx: Cx) -> Gen {
    s.op(Opcode::JmpIfFalse, span, cx).byte(r).word(0)
}

/// The value of an arm goes to the register of the whole.
pub open spec fn joined(s: Gen, out: Option<u8>, tail: Option<u8>, span: Span, cx: Cx) -> Gen {
    match (out, tail) {
        (Some(d), Some(t)) => if d != t {
            s.op(Opcode::Move, span, cx).byte(d).byte(t)
        } else {
            s
        },
        _ => s,
    }
}

/// The jump past the other arm, its distance still open; the jump at `at` leads behind it.
pub open spec fn otherwise(s: Gen, at: int, span: Span, cx: Cx) -> Gen {
    s.op(Opcode::Jmp, span, cx).word(0).patch(at)
}

/// The missing other arm.
pub open spec fn no_else(s: Gen, out: Option<u8>, span: Span, cx: Cx) -> Gen {
    match out {
        Some(d) => s.op(Opcode::ConstNil, span, cx).byte(d),
        None => s,
    }
}

/// The end of a loop that started at `start`; the jump at `at` leads behind it.
pub open spec fn again(s: Gen, start: int, at: int, span: Span, cx: Cx) -> Gen {
    let t = s.op(Opcode::Jmp, span, cx);
    t.word((start - (t.code.len() + 2)) % 0x1_0000).patch(at)
}

/// An expression, and the register of its value.
#[verifier::opaque]
pub open spec fn g_expr(e: ExprModel, s: Gen, cx: Cx) -> (Gen, u8)
    decreases e, 1int,
{
    match e.kind {
        ExprKindModel::Lit(l) => g_lit(typeck::literal_value(l, e.ty), e.span, s, cx),
        ExprKindModel::Ident(n) => match bound_reg(s.env, n) {
            Some(r) => (s, r),
            None => s.nil(e.span, cx),
        },
        ExprKindModel::Binary(op, l, r) => {
            let (s1, a) = g_expr(*l.it, s, cx);
            let (s2, b) = g_expr(*r.it, s1, cx);
            (s2.taken().op(binop_code(op), e.span, cx).byte(s2.reg()).byte(a).byte(b), s2.reg())
        },
        ExprKindModel::Unary(op, x) => {
            let (s1, a) = g_expr(*x.it, s, cx);
            (s1.taken().op(unop_code(op), e.span, cx).byte(s1.reg()).byte(a), s1.reg())
        },
        ExprKindModel::Call(c, args) => {
            let (s1, rs) = g_exprs(args, args.len() as int, s, cx);
            match direct(*c.it, cx) {
                Some(id) => g_direct(id, rs, e.span, s1, cx),
                None => match named_callee(*c.it, s1) {
                    Some(Some(r)) => g_indirect(r, rs, e.span, s1, cx),
                    Some(None) => s1.nil(e.span, cx),
                    None => {
                        let (s2, r) = g_expr(*c.it, s1, cx);
                        g_indirect(r, rs, e.span, s2, cx)
                    },
                },
            }
        },
        ExprKindModel::ArrayLit(es) => {
            let (s1, rs) = g_exprs(es, es.len() as int, s, cx);
            (s1.taken().op(Opcode::ArrayNew, e.span, cx).byte(s1.reg()).list(rs), s1.reg())
        },
        ExprKindModel::MapLit(ps) => {
            let (s1, rs) = g_pairs(ps, ps.len() as int, s, cx);
            let s2 = s1.taken().op(Opcode::MapNew, e.span, cx).byte(s1.reg());
            (put_pairs(rs, rs.len() as int, s1.reg(), e.span, s2, cx), s1.reg())
        },
        ExprKindModel::StructLit(_, fs) => {
            let (s1, rs) = g_inits(fs, fs.len() as int, s, cx);
            let s2 = s1.taken().op(Opcode::StructNew, e.span, cx).byte(s1.reg());
            (put_fields(fs, rs, fs.len() as int, s1.reg(), e.span, s2, cx), s1.reg())
        },
        ExprKindModel::Field(x, n) => {
            let (s1, a) = g_expr(*x.it, s, cx);
            let c = ConstModel::Str(n);
            (
                s1.taken().interned(c).op(Opcode::StructGet, e.span, cx).byte(s1.reg()).byte(a).word(
                    bytecode::interned(s1.consts, c) % 0x1_0000,
                ),
                s1.reg(),
            )
        },
        ExprKindModel::Index(x, i) => {
            let (s1, a) = g_expr(*x.it, s, cx);
            let (s2, b) = g_expr(*i.it, s1, cx);
            g_index(x.it.ty, a, b, e.span, s2, cx)
        },
        ExprKindModel::Closure(_, _) => g_clos(e, s, cx),
        ExprKindModel::Block(b) => match g_block(*b.it, s, cx) {
            (s1, Some(r)) => (s1, r),
            (s1, None) => s1.nil(e.span, cx),
        },
        ExprKindModel::If(c, yes, no) => {
            let out = s.reg();
            let (s1, r) = g_expr(*c.it, s.taken(), cx);
            let s2 = unless(s1, r, c.it.span, cx);
            let (s3, t) = g_block(*yes.it, s2, cx);
            let s4 = otherwise(joined(s3, Some(out), t, yes.it.span, cx), s2.code.len() - 2, yes.it.span, cx);
            match no {
                Some(b) => {
                    let (s5, u) = g_block(*b.it, s4, cx);
                    (joined(s5, Some(out), u, b.it.span, cx).patch(s4.code.len() - 2), out)
                },
                None => (no_else(s4, Some(out), c.it.span, cx).patch(s4.code.len() - 2), out),
            }
        },
    }
}

/// A closure.
#[verifier::opaque]
pub open spec fn g_clos(e: ExprModel, s: Gen, cx: Cx) -> (Gen, u8)
    decreases e, 0int,
{
    match e.kind {
        ExprKindModel::Closure(ps, body) => {
            let names = free_vars(*body.it, ps);
            let caps = captured(names, names.len() as int, s.env);
            let (t, r) = g_expr(*body.it, closure_start(caps.0, ps, s), cx);
            g_closure(e, caps, caps.0.len() + ps.len(), t, r, body.it.span, s, cx)
        },
        _ => (s, 0),
    }
}

/// The first `k` expressions, and their registers.
#[verifier::opaque]
pub open spec fn g_exprs(es: Seq<ExprModel>, k: int, s: Gen, cx: Cx) -> (Gen, Seq<u8>)
    decreases es, k,
{
    if k <= 0 || k > es.len() {
        (s, Seq::empty())
    } else {
        let (s1, rs) = g_exprs(es, k - 1, s, cx);
        let (s2, r) = g_expr(es[k - 1], s1, cx);
        (s2, rs.push(r))
    }
}

/// The first `k` field initializers, and their registers.
#[verifier::opaque]
pub open spec fn g_inits(fs: Seq<(Seq<char>, ExprModel)>, k: int, s: Gen, cx: Cx) -> (Gen, Seq<u8>)
    decreases fs, k,
{
    if k <= 0 || k > fs.len() {
        (s, Seq::empty())
    } else {
        let (s1, rs) = g_inits(fs, k - 1, s, cx);
        let (s2, r) = g_expr(fs[k - 1].1, s1, cx);
        (s2, rs.push(r))
    }
}

/// The first `k` entries of a map, and their registers.
#[verifier::opaque]
pub open spec fn g_pairs(ps: Seq<(ExprModel, ExprModel)>, k: int, s: Gen, cx: Cx) -> (Gen, Seq<(u8, u8)>)
    decreases ps, k,
{
    if k <= 0 || k > ps.len() {
        (s, Seq::empty())
    } else {
        let (s1, rs) = g_pairs(ps, k - 1, s, cx);
        let (s2, a) = g_expr(ps[k - 1].0, s1, cx);
        let (s3, b) = g_expr(ps[k - 1].1, s2, cx);
        (s3, rs.push((a, b)))
    }
}

/// A block, and the register of its value, where it has one.
#[verifier::opaque]
pub open spec fn g_block(b: BlockModel, s: Gen, cx: Cx) -> (Gen, Option<u8>)
    decreases b, 0int,
{
    let s1 = g_stmts(b.stmts, b.stmts.len() as int, s, cx);
    match b.tail {
        Some(e) => {
            let (s2, r) = g_expr(e, s1, cx);
            (s2.cut(s.env.len() as int), Some(r))
        },
        None => (s1.cut(s.env.len() as int), None),
    }
}

/// The first `k` statements.
#[verifier::opaque]
pub open spec fn g_stmts(ss: Seq<StmtModel>, k: int, s: Gen, cx: Cx) -> Gen
    decreases ss, k,
{
    if k <= 0 || k > ss.len() {
        s
    } else {
        g_stmt(ss[k - 1], g_stmts(ss, k - 1, s, cx), cx)
    }
}

/// The store of an assignment; only to a name that is bound.
pub open spec fn g_assign(target: ExprModel, v: u8, span: Span, s: Gen, cx: Cx) -> Gen {
    match target.kind {
        ExprKindModel::Ident(n) => match bound_reg(s.env, n) {
            Some(r) => s.op(Opcode::Move, span, cx).byte(r).byte(v),
            None => s,
        },
        _ => s,
    }
}

/// A statement.
#[verifier::opaque]
pub open spec fn g_stmt(st: StmtModel, s: Gen, cx: Cx) -> Gen
    decreases st, 0int,
{
    match st.kind {
        StmtKindModel::Let { name, ty, mutable, init } => {
            let (s1, r) = g_expr(init, s, cx);
            s1.bind(name, r)
        },
        StmtKindModel::Assign(t, v) => {
            let (s1, r) = g_expr(v, s, cx);
            g_assign(t, r, st.span, s1, cx)
        },
        StmtKindModel::Expr(e) => g_expr(e, s, cx).0,
        StmtKindModel::Return(None) => s.op(Opcode::ReturnNil, st.span, cx),
        StmtKindModel::Return(Some(e)) => {
            let (s1, r) = g_expr(e, s, cx);
            s1.op(Opcode::ReturnVal, st.span, cx).byte(r)
        },
        StmtKindModel::While(c, body) => {
            let (s1, r) = g_expr(c, s, cx);
            let s2 = unless(s1, r, c.span, cx);
            let s3 = g_block(*body.it, s2, cx).0;
            again(s3, s.code.len() as int, s2.code.len() - 2, st.span, cx)
        },
        StmtKindModel::If(c, yes, no) => {
            let (s1, r) = g_expr(c, s, cx);
            let s2 = unless(s1, r, c.span, cx);
            let (s3, t) = g_block(*yes.it, s2, cx);
            let s4 = otherwise(joined(s3, None, t, yes.it.span, cx), s2.code.len() - 2, yes.it.span, cx);
            match no {
                Some(b) => {
                    let (s5, u) = g_block(*b.it, s4, cx);
                    joined(s5, None, u, b.it.span, cx).patch(s4.code.len() - 2)
                },
                None => no_else(s4, None, c.span, cx).patch(s4.code.len() - 2),
            }
        },
        _ => s,
    }
}

/// Where a body ends, for its last line.
pub open spec fn tail_span(b: BlockModel) -> Span {
    match b.tail {
        Some(e) => e.span,
        None => b.span,
    }
}

/// The return at the end of a body.
pub open spec fn g_return(r: Option<u8>, span: Span, s: Gen, cx: Cx) -> Gen {
    match r {
        Some(v) => s.op(Opcode::ReturnVal, span, cx).byte(v),
        None => s.op(Opcode::ReturnNil, span, cx),
    }
}

/// A top-level function, and the constants and closures then.
pub open spec fn g_fn(f: FnDeclModel, consts: Seq<ConstModel>, fns: Seq<FunctionModel>, cx: Cx) -> (
    FunctionModel,
    Seq<ConstModel>,
    Seq<FunctionModel>,
) {
    let (s, r) = g_block(f.body, bind_params(f.params, f.params.len() as int, blank(consts, fns)), cx);
    let t = g_return(r, tail_span(f.body), s, cx);
    (
        FunctionModel {
            name: f.name,
            arity: (f.params.len() % 256) as u8,
            max_register: register_count(t.next),
            code: t.code,
            lines: t.lines,
        },
        t.consts,
        t.fns,
    )
}

/// How many functions the first `k` declarations hold.
pub open spec fn fn_count(ds: Seq<DeclModel>, k: int) -> int
    decreases k,
{
    if k <= 0 {
        0
    } else {
        fn_count(ds, k - 1) + if ds[k - 1] is Fn {
            1int
        } else {
            0
        }
    }
}

/// The places of the functions among the first `k` declarations, by name; of two with one
/// name the later counts.
pub open spec fn fn_places(ds: Seq<DeclModel>, k: int) -> Map<Seq<char>, u16>
    decreases k,
{
    if k <= 0 {
        Map::empty()
    } else {
        match ds[k - 1] {
            DeclModel::Fn(f) => fn_places(ds, k - 1).insert(f.name, (fn_count(ds, k - 1) % 0x1_0000) as u16),
            _ => fn_places(ds, k - 1),
        }
    }
}

/// The functions among the first `k` declarations, and the constants and closures then.
pub open spec fn g_decls(ds: Seq<DeclModel>, k: int, cx: Cx) -> (Seq<FunctionModel>, Seq<ConstModel>, Seq<FunctionModel>)
    decreases k,
{
    if k <= 0 {
        (Seq::empty(), Seq::empty(), Seq::empty())
    } else {
        let (tops, consts, fns) = g_decls(ds, k - 1, cx);
        match ds[k - 1] {
            DeclModel::Fn(f) => {
                let (g, c, n) = g_fn(f, consts, fns, cx);
                (tops.push(g), c, n)
            },
            _ => (tops, consts, fns),
        }
    }
}

/// The module that a tree compiles to.
pub open spec fn compiled(ds: Seq<DeclModel>, src: Seq<u8>) -> ModuleModel {
    let n = ds.len() as int;
    let cx = Cx { index: fn_places(ds, n), src, tops: fn_count(ds, n) };
    let (tops, consts, fns) = g_decls(ds, n, cx);
    ModuleModel { constants: consts, functions: tops + fns, index: bytecode::index_of(tops + fns) }
}

// --- finding free variables -------------------------------------------------------------

fn holds_name(ns: &Vec<String>, n: &String) -> (r: bool)
    ensures
        r == views::views(ns@).contains(n@),
{
    let ghost v = views::views(ns@);
    let mut i: usize = 0;
    while i < ns.len()
        invariant
            i <= ns@.len(),
            v == views::views(ns@),
            forall|j: int| 0 <= j < i ==> v[j] != n@,
        decreases ns.len() - i,
    {
        assert(v[i as int] == ns@[i as int]@);
        if ns[i] == *n {
            return true;
        }
        i += 1;
    }
    assert(!v.contains(n@));
    false
}

fn push_params(bound: &mut Vec<String>, ps: &Vec<Param>)
    ensures
        views::views(final(bound)@) == with_params(views::views(old(bound)@), ast::params_model(ps@), ps@.len() as int),
        final(bound)@.len() == old(bound)@.len() + ps@.len(),
        final(bound)@.take(old(bound)@.len() as int) == old(bound)@,
{
    let ghost m = ast::params_model(ps@);
    let mut i: usize = 0;
    assert(bound@.take(bound@.len() as int) =~= bound@);
    while i < ps.len()
        invariant
            i <= ps@.len(),
            m == ast::params_model(ps@),
            views::views(bound@) == with_params(views::views(old(bound)@), m, i as int),
            bound@.len() == old(bound)@.len() + i,
            bound@.take(old(bound)@.len() as int) == old(bound)@,
        decreases ps.len() - i,
    {
        assert(m[i as int] == ps@[i as int]@);
        let n = ps[i].name.clone();
        proof {
            views::lemma_views_push(bound@, n);
        }
        bound.push(n);
        i += 1;
        assert(bound@.take(old(bound)@.len() as int) =~= old(bound)@);
    }
}

#[verifier::spinoff_prover]
#[verifier::rlimit(60)]
fn walk_free_vars(e: &Expr, bound: &mut Vec<String>, out: &mut Vec<String>)
    ensures
        final(bound)@ == old(bound)@,
        views::views(final(out)@) == fv_expr(e@, views::views(old(bound)@), views::views(old(out)@)),
    decreases *e, 0int,
{
    proof {
        reveal(fv_expr);
        reveal(fv_exprs);
        reveal(fv_inits);
        reveal(fv_pairs);
        reveal(fv_block);
    }
    let ghost k = ast::expr_kind_model(e.kind);
    assert(e@.kind == k);
    match &e.kind {
        ExprKind::Lit(_) => {},
        ExprKind::Ident(n) => {
            if !holds_name(bound, n) && !holds_name(out, n) {
                let c = n.clone();
                proof {
                    views::lemma_views_push(out@, c);
                }
                out.push(c);
            }
        },
        ExprKind::Binary(_, l, r) => {
            walk_free_vars(l, bound, out);
            walk_free_vars(r, bound, out);
        },
        ExprKind::Unary(_, x) => walk_free_vars(x, bound, out),
        ExprKind::Call(c, args) => {
            assert(decreases_to!(*args => args@));
            assert(ast::exprs_model(args@).len() == args@.len());
            walk_free_vars(c, bound, out);
            walk_exprs(args, bound, out);
        },
        ExprKind::Field(x, _) => walk_free_vars(x, bound, out),
        ExprKind::Index(x, i) => {
            walk_free_vars(x, bound, out);
            walk_free_vars(i, bound, out);
        },
        ExprKind::StructLit(_, fs) => {
            assert(decreases_to!(*fs => fs@));
            assert(ast::inits_model(fs@).len() == fs@.len());
            walk_inits(fs, bound, out);
        },
        ExprKind::ArrayLit(es) => {
            assert(decreases_to!(*es => es@));
            assert(ast::exprs_model(es@).len() == es@.len());
            walk_exprs(es, bound, out);
        },
        ExprKind::MapLit(ps) => {
            assert(decreases_to!(*ps => ps@));
            assert(ast::pairs_model(ps@).len() == ps@.len());
            walk_pairs(ps, bound, out);
        },
        ExprKind::Closure(ps, b) => {
            assert(ast::params_model(ps@).len() == ps@.len());
            let depth: usize = bound.len();
            push_params(bound, ps);
            walk_free_vars(b, bound, out);
            bound.truncate(depth);
        },
        ExprKind::Block(b) => walk_free_vars_block(b, bound, out),
        ExprKind::If(c, yes, no) => {
            walk_free_vars(c, bound, out);
            walk_free_vars_block(yes, bound, out);
            if let Some(b) = no {
                walk_free_vars_block(b, bound, out);
            }
        },
    }
}

#[verifier::spinoff_prover]
fn walk_exprs(xs: &Vec<Expr>, bound: &mut Vec<String>, out: &mut Vec<String>)
    ensures
        final(bound)@ == old(bound)@,
        views::views(final(out)@) == fv_exprs(ast::exprs_model(xs@), xs@.len() as int, views::views(old(bound)@), views::views(old(out)@)),
    decreases xs@, 0int,
{
    proof {
        reveal(fv_exprs);
        reveal(fv_expr);
    }
    let ghost m = ast::exprs_model(xs@);
    let mut i: usize = 0;
    while i < xs.len()
        invariant
            i <= xs@.len(),
            m == ast::exprs_model(xs@),
            bound@ == old(bound)@,
            views::views(out@) == fv_exprs(m, i as int, views::views(old(bound)@), views::views(old(out)@)),
        decreases xs.len() - i,
    {
        proof {
            reveal(fv_exprs);
            reveal(fv_expr);
        }
        assert(decreases_to!(xs@ => xs@[i as int]));
        assert(m[i as int] == xs@[i as int]@);
        walk_free_vars(&xs[i], bound, out);
        i += 1;
    }
}

#[verifier::spinoff_prover]
fn walk_inits(xs: &Vec<(String, Expr)>, bound: &mut Vec<String>, out: &mut Vec<String>)
    ensures
        final(bound)@ == old(bound)@,
        views::views(final(out)@) == fv_inits(ast::inits_model(xs@), xs@.len() as int, views::views(old(bound)@), views::views(old(out)@)),
    decreases xs@, 0int,
{
    proof {
        reveal(fv_inits);
        reveal(fv_expr);
    }
    let ghost m = ast::inits_model(xs@);
    let mut i: usize = 0;
    while i < xs.len()
        invariant
            i <= xs@.len(),
            m == ast::inits_model(xs@),
            bound@ == old(bound)@,
            views::views(out@) == fv_inits(m, i as int, views::views(old(bound)@), views::views(old(out)@)),
        decreases xs.len() - i,
    {
        proof {
            reveal(fv_inits);
            reveal(fv_expr);
        }
        assert(decreases_to!(xs@ => xs@[i as int]));
        assert(decreases_to!(xs@[i as int] => xs@[i as int].1));
        assert(m[i as int] == (xs@[i as int].0@, xs@[i as int].1@));
        walk_free_vars(&xs[i].1, bound, out);
        i += 1;
    }
}

#[verifier::spinoff_prover]
fn walk_pairs(xs: &Vec<(Expr, Expr)>, bound: &mut Vec<String>, out: &mut Vec<String>)
    ensures
        final(bound)@ == old(bound)@,
        views::views(final(out)@) == fv_pairs(ast::pairs_model(xs@), xs@.len() as int, views::views(old(bound)@), views::views(old(out)@)),
    decreases xs@, 0int,
{
    proof {
        reveal(fv_pairs);
        reveal(fv_expr);
    }
    let ghost m = ast::pairs_model(xs@);
    let mut i: usize = 0;
    while i < xs.len()
        invariant
            i <= xs@.len(),
            m == ast::pairs_model(xs@),
            bound@ == old(bound)@,
            views::views(out@) == fv_pairs(m, i as int, views::views(old(bound)@), views::views(old(out)@)),
        decreases xs.len() - i,
    {
        proof {
            reveal(fv_pairs);
            reveal(fv_expr);
        }
        assert(decreases_to!(xs@ => xs@[i as int]));
        assert(decreases_to!(xs@[i as int] => xs@[i as int].0));
        assert(decreases_to!(xs@[i as int] => xs@[i as int].1));
        assert(m[i as int] == (xs@[i as int].0@, xs@[i as int].1@));
        walk_free_vars(&xs[i].0, bound, out);
        walk_free_vars(&xs[i].1, bound, out);
        i += 1;
    }
}

#[verifier::spinoff_prover]
#[verifier::rlimit(40)]
fn walk_free_vars_block(b: &Block, bound: &mut Vec<String>, out: &mut Vec<String>)
    ensures
        final(bound)@ == old(bound)@,
        views::views(final(out)@) == fv_block(b@, views::views(old(bound)@), views::views(old(out)@)),
    decreases *b, 0int,
{
    proof {
        reveal(fv_block);
        reveal(fv_stmts);
        reveal(fv_expr);
    }
    let ghost ss = ast::stmts_model(b.stmts@);
    let ghost b0 = views::views(bound@);
    let ghost o0 = views::views(out@);
    let depth: usize = bound.len();
    assert(bound@.take(depth as int) =~= bound@);
    let mut i: usize = 0;
    while i < b.stmts.len()
        invariant
            i <= b.stmts@.len(),
            ss == ast::stmts_model(b.stmts@),
            depth <= bound@.len(),
            bound@.take(depth as int) == old(bound)@,
            views::views(bound@) == bound_by(ss, i as int, b0),
            views::views(out@) == fv_stmts(ss, i as int, b0, o0),
        decreases b.stmts.len() - i,
    {
        proof {
            reveal(fv_stmts);
            reveal(fv_stmt);
        }
        assert(decreases_to!(b.stmts@ => b.stmts@[i as int]));
        assert(decreases_to!(b.stmts => b.stmts@));
        assert(ss[i as int] == b.stmts@[i as int]@);
        walk_free_vars_stmt(&b.stmts[i], bound, out);
        i += 1;
    }
    if let Some(t) = &b.tail {
        walk_free_vars(t, bound, out);
    }
    bound.truncate(depth);
}

#[verifier::spinoff_prover]
#[verifier::rlimit(40)]
fn walk_free_vars_stmt(s: &Stmt, bound: &mut Vec<String>, out: &mut Vec<String>)
    ensures
        views::views(final(out)@) == fv_stmt(s@, views::views(old(bound)@), views::views(old(out)@)),
        old(bound)@.len() <= final(bound)@.len(),
        forall|k: int| 0 <= k <= old(bound)@.len() ==> #[trigger] final(bound)@.take(k) == old(bound)@.take(k),
        views::views(final(bound)@) == (match s@.kind {
            StmtKindModel::Let { name, .. } => views::views(old(bound)@).push(name),
            _ => views::views(old(bound)@),
        }),
    decreases *s, 0int,
{
    proof {
        reveal(fv_stmt);
        reveal(fv_expr);
        reveal(fv_block);
    }
    let ghost k = ast::stmt_kind_model(s.kind);
    assert(s@.kind == k);
    match &s.kind {
        StmtKind::Let { name, init, .. } => {
            walk_free_vars(init, bound, out);
            let n = name.clone();
            proof {
                views::lemma_views_push(bound@, n);
            }
            bound.push(n);
            assert forall|k: int| 0 <= k <= old(bound)@.len() implies #[trigger] bound@.take(k) == old(bound)@.take(k) by {
                assert(bound@.take(k) =~= old(bound)@.take(k));
            }
        },
        StmtKind::Assign(t, v) => {
            walk_free_vars(t, bound, out);
            walk_free_vars(v, bound, out);
        },
        StmtKind::Expr(e) => walk_free_vars(e, bound, out),
        StmtKind::Return(v) => {
            if let Some(e) = v {
                walk_free_vars(e, bound, out);
            }
        },
        StmtKind::While(c, b) => {
            walk_free_vars(c, bound, out);
            walk_free_vars_block(b, bound, out);
        },
        StmtKind::If(c, yes, no) => {
            walk_free_vars(c, bound, out);
            walk_free_vars_block(yes, bound, out);
            if let Some(b) = no {
                walk_free_vars_block(b, bound, out);
            }
        },
        StmtKind::Break | StmtKind::Continue => {},
    }
}

fn collect_free_vars(body: &Expr, ps: &Vec<Param>) -> (r: Vec<String>)
    ensures
        views::views(r@) == free_vars(body@, ast::params_model(ps@)),
{
    let mut bound: Vec<String> = Vec::new();
    let mut out: Vec<String> = Vec::new();
    assert(views::views(bound@) =~= Seq::empty());
    assert(views::views(out@) =~= Seq::empty());
    assert(ast::params_model(ps@).len() == ps@.len());
    push_params(&mut bound, ps);
    walk_free_vars(body, &mut bound, &mut out);
    out
}

// --- generating code ----------------------------------------------------------------

/// Model of the names of a function while its code is generated.
pub open spec fn env_model(v: Seq<(String, u8)>) -> Seq<(Seq<char>, u8)> {
    Seq::new(v.len(), |i: int| (v[i].0@, v[i].1))
}

struct Compiler<'a> {
    builder: ModuleBuilder,
    fn_index: &'a NameMap<u16>,
    source: &'a Source,
    tops: usize,
    code: Vec<u8>,
    line_for_pc: Vec<u32>,
    next_reg: u16,
    env: Vec<(String, u8)>,
}

impl<'a> Compiler<'a> {
    spec fn gen(&self) -> Gen {
        Gen {
            code: self.code@,
            lines: self.line_for_pc@,
            next: self.next_reg,
            env: env_model(self.env@),
            consts: self.builder.so_far().constants,
            fns: self.builder.so_far().functions,
        }
    }

    spec fn cx(&self) -> Cx {
        Cx { index: self.fn_index@, src: self.source.bytes(), tops: self.tops as int }
    }

    spec fn ok(&self) -> bool {
        self.source.wf()
    }

    /// Whether nothing that stays for the whole module differs from `o`.
    spec fn beside(&self, o: Compiler<'a>) -> bool {
        self.fn_index == o.fn_index && self.source == o.source && self.tops == o.tops
    }

    fn line_for(&self, span: Span) -> (r: u32)
        requires
            self.ok(),
        ensures
            r == line_of(self.cx().src, span),
    {
        if span.lo == 0 && span.hi == 0 {
            return 0;
        }
        if span.lo == u32::MAX {
            let line: u32 = self.source.line_col(u32::MAX - 1).0;
            let b = self.source.text.as_str().as_bytes();
            if b.len() == u32::MAX as usize && b[u32::MAX as usize - 1] == 10 && line < u32::MAX {
                return line + 1;
            }
            return line;
        }
        proof {
            source::lemma_newlines_bound(self.source.bytes(), span.lo as int);
        }
        self.source.line_col(span.lo).0
    }

    fn emit_at(&mut self, op: Opcode, span: Span)
        requires
            old(self).ok(),
        ensures
            final(self).gen() == old(self).gen().op(op, span, old(self).cx()),
            final(self).beside(*old(self)),
            final(self).env@ == old(self).env@,
    {
        let line: u32 = self.line_for(span);
        self.code.push(op.to_u8());
        self.line_for_pc.push(line);
    }

    fn emit_byte(&mut self, b: u8)
        ensures
            final(self).gen() == old(self).gen().byte(b),
            final(self).beside(*old(self)),
            final(self).env@ == old(self).env@,
    {
        self.code.push(b);
        self.line_for_pc.push(0);
    }

    fn emit_u16(&mut self, v: u16)
        ensures
            final(self).gen() == old(self).gen().word(v as int),
            final(self).beside(*old(self)),
            final(self).env@ == old(self).env@,
    {
        self.emit_byte((v % 256) as u8);
        self.emit_byte((v / 256) as u8);
    }

    fn emit_list(&mut self, rs: &Vec<u8>)
        ensures
            final(self).gen() == old(self).gen().list(rs@),
            final(self).beside(*old(self)),
            final(self).env@ == old(self).env@,
            final(self).code@.len() >= old(self).code@.len(),
    {
        self.emit_byte((rs.len() % 256) as u8);
        let ghost s = self.gen();
        let mut i: usize = 0;
        while i < rs.len()
            invariant
                i <= rs@.len(),
                self.gen() == s.regs(rs@, i as int),
                self.code@.len() >= old(self).code@.len(),
                self.beside(*old(self)),
                self.env@ == old(self).env@,
            decreases rs.len() - i,
        {
            self.emit_byte(rs[i]);
            i += 1;
        }
    }

    fn alloc_reg(&mut self) -> (r: u8)
        ensures
            r == old(self).gen().reg(),
            final(self).gen() == old(self).gen().taken(),
            final(self).beside(*old(self)),
            final(self).env@ == old(self).env@,
    {
        let r: u16 = self.next_reg;
        if self.next_reg < u16::MAX {
            self.next_reg = self.next_reg + 1;
        }
        if r > 255 {
            255
        } else {
            r as u8
        }
    }

    fn intern(&mut self, c: Const) -> (r: u16)
        ensures
            r == bytecode::interned(old(self).gen().consts, c@) % 0x1_0000,
            final(self).gen() == old(self).gen().interned(c@),
            final(self).beside(*old(self)),
            final(self).env@ == old(self).env@,
    {
        self.builder.intern(c)
    }

    fn bind(&mut self, n: String, r: u8)
        ensures
            final(self).gen() == old(self).gen().bind(n@, r),
            final(self).beside(*old(self)),
            final(self).env@.len() == old(self).env@.len() + 1,
    {
        let ghost before = self.env@;
        self.env.push((n, r));
        assert(env_model(self.env@) =~= env_model(before).push((n@, r)));
    }

    fn cut(&mut self, k: usize)
        requires
            k <= old(self).env@.len(),
        ensures
            final(self).gen() == old(self).gen().cut(k as int),
            final(self).beside(*old(self)),
            final(self).env@.len() == k,
    {
        let ghost m = env_model(self.env@);
        self.env.truncate(k);
        assert(env_model(self.env@) =~= m.take(k as int));
    }

    fn lookup(&self, n: &String) -> (r: Option<u8>)
        ensures
            r == bound_reg(self.gen().env, n@),
    {
        let ghost m = self.gen().env;
        let mut i: usize = self.env.len();
        assert(m.take(i as int) =~= m);
        while i > 0
            invariant
                i <= self.env@.len(),
                m == self.gen().env,
                bound_reg(m, n@) == bound_reg(m.take(i as int), n@),
            decreases i,
        {
            i -= 1;
            assert(m.take(i + 1).drop_last() =~= m.take(i as int));
            assert(m.take(i + 1).last() == (self.env@[i as int].0@, self.env@[i as int].1));
            if self.env[i].0 == *n {
                return Some(self.env[i].1);
            }
        }
        None
    }

    fn patch(&mut self, at: usize)
        requires
            at + 2 <= old(self).code@.len(),
        ensures
            final(self).gen() == old(self).gen().patch(at as int),
            final(self).beside(*old(self)),
            final(self).env@ == old(self).env@,
    {
        let off: usize = (self.code.len() - (at + 2)) % 0x1_0000;
        self.code.set(at, (off % 256) as u8);
        self.code.set(at + 1, ((off / 256) % 256) as u8);
    }

    fn nil(&mut self, span: Span) -> (r: u8)
        requires
            old(self).ok(),
        ensures
            (final(self).gen(), r) == old(self).gen().nil(span, old(self).cx()),
            final(self).beside(*old(self)),
            final(self).env@ == old(self).env@,
            final(self).code@.len() >= old(self).code@.len(),
    {
        let dst: u8 = self.alloc_reg();
        self.emit_at(Opcode::ConstNil, span);
        self.emit_byte(dst);
        dst
    }

    fn pooled(&mut self, op: Opcode, c: Const, span: Span) -> (r: u8)
        requires
            old(self).ok(),
        ensures
            (final(self).gen(), r) == old(self).gen().pooled(op, c@, span, old(self).cx()),
            final(self).beside(*old(self)),
            final(self).env@ == old(self).env@,
            final(self).code@.len() >= old(self).code@.len(),
    {
        let dst: u8 = self.alloc_reg();
        self.emit_at(op, span);
        let idx: u16 = self.intern(c);
        self.emit_byte(dst);
        self.emit_u16(idx);
        dst
    }

    fn literal(&mut self, l: &Lit, span: Span) -> (r: u8)
        requires
            old(self).ok(),
        ensures
            (final(self).gen(), r) == g_lit(l@, span, old(self).gen(), old(self).cx()),
            final(self).beside(*old(self)),
            final(self).env@ == old(self).env@,
            final(self).code@.len() >= old(self).code@.len(),
    {
        match l {
            Lit::Nil => self.nil(span),
            Lit::Bool(b) => {
                let dst: u8 = self.alloc_reg();
                self.emit_at(if *b { Opcode::ConstTrue } else { Opcode::ConstFalse }, span);
                self.emit_byte(dst);
                dst
            },
            Lit::Int(v) => self.pooled(Opcode::ConstInt, Const::Int(*v), span),
            Lit::Float(b) => self.pooled(Opcode::ConstFloat, Const::Float(*b), span),
            Lit::Str(s) => self.pooled(Opcode::ConstStr, Const::Str(s.clone()), span),
        }
    }

    fn call_direct(&mut self, id: u16, rs: &Vec<u8>, span: Span) -> (r: u8)
        requires
            old(self).ok(),
        ensures
            (final(self).gen(), r) == g_direct(id, rs@, span, old(self).gen(), old(self).cx()),
            final(self).beside(*old(self)),
            final(self).env@ == old(self).env@,
            final(self).code@.len() >= old(self).code@.len(),
    {
        let dst: u8 = self.alloc_reg();
        self.emit_at(Opcode::Call, span);
        self.emit_byte(dst);
        self.emit_u16(id);
        self.emit_list(rs);
        dst
    }

    fn call_indirect(&mut self, cls: u8, rs: &Vec<u8>, span: Span) -> (r: u8)
        requires
            old(self).ok(),
        ensures
            (final(self).gen(), r) == g_indirect(cls, rs@, span, old(self).gen(), old(self).cx()),
            final(self).beside(*old(self)),
            final(self).env@ == old(self).env@,
            final(self).code@.len() >= old(self).code@.len(),
    {
        let dst: u8 = self.alloc_reg();
        self.emit_at(Opcode::CallClosure, span);
        self.emit_byte(dst);
        self.emit_byte(cls);
        self.emit_list(rs);
        dst
    }

    fn store_pairs(&mut self, rs: &Vec<(u8, u8)>, dst: u8, span: Span)
        requires
            old(self).ok(),
        ensures
            final(self).gen() == put_pairs(rs@, rs@.len() as int, dst, span, old(self).gen(), old(self).cx()),
            final(self).beside(*old(self)),
            final(self).env@ == old(self).env@,
            final(self).code@.len() >= old(self).code@.len(),
    {
        let mut i: usize = 0;
        while i < rs.len()
            invariant
                i <= rs@.len(),
                self.ok(),
                self.gen() == put_pairs(rs@, i as int, dst, span, old(self).gen(), old(self).cx()),
                self.code@.len() >= old(self).code@.len(),
                self.beside(*old(self)),
                self.env@ == old(self).env@,
            decreases rs.len() - i,
        {
            self.emit_at(Opcode::MapSet, span);
            self.emit_byte(dst);
            self.emit_byte(rs[i].0);
            self.emit_byte(rs[i].1);
            i += 1;
        }
    }

    fn store_fields(&mut self, fs: &Vec<(String, Expr)>, rs: &Vec<u8>, dst: u8, span: Span)
        requires
            old(self).ok(),
            rs@.len() == fs@.len(),
        ensures
            final(self).gen() == put_fields(
                ast::inits_model(fs@),
                rs@,
                fs@.len() as int,
                dst,
                span,
                old(self).gen(),
                old(self).cx(),
            ),
            final(self).beside(*old(self)),
            final(self).env@ == old(self).env@,
            final(self).code@.len() >= old(self).code@.len(),
    {
        let ghost m = ast::inits_model(fs@);
        let mut i: usize = 0;
        while i < fs.len()
            invariant
                i <= fs@.len(),
                rs@.len() == fs@.len(),
                m == ast::inits_model(fs@),
                self.ok(),
                self.gen() == put_fields(m, rs@, i as int, dst, span, old(self).gen(), old(self).cx()),
                self.code@.len() >= old(self).code@.len(),
                self.beside(*old(self)),
                self.env@ == old(self).env@,
            decreases fs.len() - i,
        {
            assert(m[i as int] == (fs@[i as int].0@, fs@[i as int].1@));
            let ki: u16 = self.intern(Const::Str(fs[i].0.clone()));
            self.emit_at(Opcode::StructSet, span);
            self.emit_byte(dst);
            self.emit_u16(ki);
            self.emit_byte(rs[i]);
            i += 1;
        }
    }

    fn read_element(&mut self, t: &Type, x: u8, i: u8, span: Span) -> (r: u8)
        requires
            old(self).ok(),
        ensures
            (final(self).gen(), r) == g_index(t@, x, i, span, old(self).gen(), old(self).cx()),
            final(self).beside(*old(self)),
            final(self).env@ == old(self).env@,
            final(self).code@.len() >= old(self).code@.len(),
    {
        let op: Opcode = match t {
            Type::Array(_) => Opcode::ArrayGet,
            Type::Dict(_, _) => Opcode::MapGet,
            _ => {
                return self.nil(span);
            },
        };
        let dst: u8 = self.alloc_reg();
        self.emit_at(op, span);
        self.emit_byte(dst);
        self.emit_byte(x);
        self.emit_byte(i);
        dst
    }

    fn unless(&mut self, r: u8, span: Span) -> (at: usize)
        requires
            old(self).ok(),
        ensures
            final(self).gen() == unless(old(self).gen(), r, span, old(self).cx()),
            at == final(self).code@.len() - 2,
            final(self).code@.len() >= 4,
            final(self).beside(*old(self)),
            final(self).env@ == old(self).env@,
    {
        self.emit_at(Opcode::JmpIfFalse, span);
        self.emit_byte(r);
        let at: usize = self.code.len();
        self.emit_u16(0);
        at
    }

    fn join(&mut self, out: Option<u8>, tail: Option<u8>, span: Span)
        requires
            old(self).ok(),
        ensures
            final(self).gen() == joined(old(self).gen(), out, tail, span, old(self).cx()),
            final(self).code@.len() >= old(self).code@.len(),
            final(self).beside(*old(self)),
            final(self).env@ == old(self).env@,
    {
        if let (Some(d), Some(t)) = (out, tail) {
            if d != t {
                self.emit_at(Opcode::Move, span);
                self.emit_byte(d);
                self.emit_byte(t);
            }
        }
    }

    fn otherwise(&mut self, at: usize, span: Span) -> (end: usize)
        requires
            old(self).ok(),
            at + 2 <= old(self).code@.len(),
        ensures
            final(self).gen() == otherwise(old(self).gen(), at as int, span, old(self).cx()),
            end == final(self).code@.len() - 2,
            final(self).code@.len() >= 4,
            final(self).beside(*old(self)),
            final(self).env@ == old(self).env@,
    {
        self.emit_at(Opcode::Jmp, span);
        let end: usize = self.code.len();
        self.emit_u16(0);
        self.patch(at);
        end
    }

    fn no_else(&mut self, out: Option<u8>, span: Span)
        requires
            old(self).ok(),
        ensures
            final(self).gen() == no_else(old(self).gen(), out, span, old(self).cx()),
            final(self).code@.len() >= old(self).code@.len(),
            final(self).beside(*old(self)),
            final(self).env@ == old(self).env@,
    {
        if let Some(d) = out {
            self.emit_at(Opcode::ConstNil, span);
            self.emit_byte(d);
        }
    }

    fn again(&mut self, start: usize, at: usize, span: Span)
        requires
            old(self).ok(),
            start <= old(self).code@.len(),
            at + 2 <= old(self).code@.len(),
        ensures
            final(self).gen() == again(old(self).gen(), start as int, at as int, span, old(self).cx()),
            final(self).code@.len() >= old(self).code@.len(),
            final(self).beside(*old(self)),
            final(self).env@ == old(self).env@,
    {
        self.emit_at(Opcode::Jmp, span);
        let back: u64 = (self.code.len() - start) as u64 % 0x1_0000;
        let off: u16 = ((0x2_0000 - back - 2) % 0x1_0000) as u16;
        proof {
            let n = self.code@.len() - start;
            assert((start - (self.code@.len() + 2)) % 0x1_0000 == off);
        }
        self.emit_u16(off);
        self.patch(at);
    }

    fn resolve_captures(&self, names: &Vec<String>) -> (r: (Vec<String>, Vec<u8>))
        ensures
            (views::views(r.0@), r.1@) == captured(views::views(names@), names@.len() as int, self.gen().env),
    {
        let ghost m = views::views(names@);
        let mut found: Vec<String> = Vec::new();
        let mut rs: Vec<u8> = Vec::new();
        let mut i: usize = 0;
        assert(views::views(found@) =~= Seq::empty());
        while i < names.len()
            invariant
                i <= names@.len(),
                m == views::views(names@),
                (views::views(found@), rs@) == captured(m, i as int, self.gen().env),
            decreases names.len() - i,
        {
            assert(m[i as int] == names@[i as int]@);
            if let Some(r) = self.lookup(&names[i]) {
                let n = names[i].clone();
                proof {
                    views::lemma_views_push(found@, n);
                }
                found.push(n);
                rs.push(r);
            }
            i += 1;
        }
        (found, rs)
    }

    fn bind_names(&mut self, ns: &Vec<String>)
        ensures
            final(self).gen() == bind_names(views::views(ns@), ns@.len() as int, old(self).gen()),
            final(self).beside(*old(self)),
    {
        let ghost m = views::views(ns@);
        let mut i: usize = 0;
        while i < ns.len()
            invariant
                i <= ns@.len(),
                m == views::views(ns@),
                self.gen() == bind_names(m, i as int, old(self).gen()),
                self.beside(*old(self)),
            decreases ns.len() - i,
        {
            assert(m[i as int] == ns@[i as int]@);
            let r: u8 = self.alloc_reg();
            self.bind(ns[i].clone(), r);
            i += 1;
        }
    }

    fn bind_params(&mut self, ps: &Vec<Param>)
        ensures
            final(self).gen() == bind_params(ast::params_model(ps@), ps@.len() as int, old(self).gen()),
            final(self).beside(*old(self)),
    {
        let ghost m = ast::params_model(ps@);
        let mut i: usize = 0;
        while i < ps.len()
            invariant
                i <= ps@.len(),
                m == ast::params_model(ps@),
                self.gen() == bind_params(m, i as int, old(self).gen()),
                self.beside(*old(self)),
            decreases ps.len() - i,
        {
            assert(m[i as int] == ps@[i as int]@);
            let r: u8 = self.alloc_reg();
            self.bind(ps[i].name.clone(), r);
            i += 1;
        }
    }

    /// Compiles the body of a closure as a function of its own.
    #[verifier::spinoff_prover]
    #[verifier::rlimit(60)]
    fn compile_closure_body(&mut self, caps: &Vec<String>, ps: &Vec<Param>, body: &Expr, name: String) -> (f: FunctionBytecode)
        requires
            old(self).ok(),
        ensures
            ({
                let pm = ast::params_model(ps@);
                let (t, r) = g_expr(
                    body@,
                    closure_start(views::views(caps@), pm, old(self).gen()),
                    old(self).cx(),
                );
                &&& f@ == closure_fn(name@, caps@.len() + ps@.len(), t, r, body.span, old(self).cx())
                &&& final(self).gen() == (Gen { consts: t.consts, fns: t.fns, ..old(self).gen() })
            }),
            final(self).beside(*old(self)),
            final(self).env@ == old(self).env@,
        decreases *body, 2int,
    {
        let ghost s0 = self.gen();
        let ghost cx = self.cx();
        let ghost pm = ast::params_model(ps@);
        assert(pm.len() == ps@.len());
        let ghost cm = views::views(caps@);
        assert(cm.len() == caps@.len());
        let mut code: Vec<u8> = Vec::new();
        let mut lines: Vec<u32> = Vec::new();
        let mut env: Vec<(String, u8)> = Vec::new();
        let next: u16 = self.next_reg;
        core::mem::swap(&mut code, &mut self.code);
        core::mem::swap(&mut lines, &mut self.line_for_pc);
        core::mem::swap(&mut env, &mut self.env);
        self.next_reg = 0;
        assert(self.gen() =~= blank(s0.consts, s0.fns));
        self.bind_names(caps);
        self.bind_params(ps);
        assert(self.gen() == closure_start(cm, pm, s0));
        let r: u8 = self.compile_expr(body);
        let ghost t = self.gen();
        self.emit_at(Opcode::ReturnVal, body.span);
        self.emit_byte(r);
        let arity: u8 = ((caps.len() % 256 + ps.len() % 256) % 256) as u8;
        let max_register: u8 = if self.next_reg >= 256 { 0 } else { self.next_reg as u8 };
        core::mem::swap(&mut code, &mut self.code);
        core::mem::swap(&mut lines, &mut self.line_for_pc);
        core::mem::swap(&mut env, &mut self.env);
        self.next_reg = next;
        assert(self.gen() =~= (Gen { consts: t.consts, fns: t.fns, ..s0 }));
        let f = FunctionBytecode { name, arity, max_register, code, line_for_pc: lines };
        assert(f@ =~= closure_fn(name@, caps@.len() + ps@.len(), t, r, body.span, cx));
        f
    }

    fn closure_name(&self) -> (r: String)
        ensures
            r@ == "__closure_"@ + text::dec(((self.cx().tops + self.gen().fns.len()) % 0x1_0000) as nat),
    {
        let n: usize = (self.builder.function_count() % 0x1_0000 + self.tops % 0x1_0000) % 0x1_0000;
        let mut name = "__closure_".to_owned();
        push_dec(&mut name, n as u64);
        name
    }

    #[verifier::spinoff_prover]
    #[verifier::rlimit(60)]
    fn make_closure(&mut self, f: FunctionBytecode, cap_regs: &Vec<u8>, span: Span) -> (r: u8)
        requires
            old(self).ok(),
        ensures
            ({
                let s = old(self).gen();
                let u = Gen { fns: s.fns.push(f@), ..s };
                &&& r == u.reg()
                &&& final(self).gen() == u.taken().op(Opcode::ClosureMake, span, old(self).cx()).byte(u.reg()).word(
                    (old(self).cx().tops + s.fns.len()) % 0x1_0000,
                ).list(cap_regs@)
            }),
            final(self).beside(*old(self)),
            final(self).env@ == old(self).env@,
            final(self).code@.len() >= old(self).code@.len(),
    {
        let count: usize = self.builder.function_count();
        let idx: u16 = ((count % 0x1_0000 + self.tops % 0x1_0000) % 0x1_0000) as u16;
        let ghost s = self.gen();
        let ghost u = Gen { fns: s.fns.push(f@), ..s };
        let _ = self.builder.push_function(f);
        assert(self.gen() =~= u);
        let dst: u8 = self.alloc_reg();
        assert(self.gen() == u.taken());
        self.emit_at(Opcode::ClosureMake, span);
        let ghost a = u.taken().op(Opcode::ClosureMake, span, old(self).cx());
        assert(self.gen() == a);
        self.emit_byte(dst);
        assert(self.gen() == a.byte(dst));
        self.emit_u16(idx);
        assert(self.gen() == a.byte(dst).word(idx as int));
        assert(idx as int == (old(self).cx().tops + s.fns.len()) % 0x1_0000);
        self.emit_list(cap_regs);
        dst
    }

    #[verifier::spinoff_prover]
    #[verifier::rlimit(60)]
    fn compile_closure(&mut self, e: &Expr) -> (r: u8)
        requires
            old(self).ok(),
            e.kind is Closure,
        ensures
            (final(self).gen(), r) == g_clos(e@, old(self).gen(), old(self).cx()),
            final(self).beside(*old(self)),
            final(self).env@.len() == old(self).env@.len(),
            final(self).code@.len() >= old(self).code@.len(),
        decreases *e, 0int,
    {
        let ghost k = ast::expr_kind_model(e.kind);
        assert(e@.kind == k);
        let ghost s0 = self.gen();
        let ghost cx = self.cx();
        if let ExprKind::Closure(ps, body) = &e.kind {
            let names = collect_free_vars(body, ps);
            assert(ast::params_model(ps@).len() == ps@.len());
            assert(views::views(names@).len() == names@.len());
            let (caps, cap_regs) = self.resolve_captures(&names);
            assert(views::views(caps@).len() == caps@.len());
            let name = self.closure_name();
            let f = self.compile_closure_body(&caps, ps, body, name);
            proof {
                lemma_clos(e@, s0, cx);
            }
            self.make_closure(f, &cap_regs, e.span)
        } else {
            0
        }
    }

    #[verifier::spinoff_prover]
    #[verifier::rlimit(80)]
    fn compile_expr(&mut self, e: &Expr) -> (r: u8)
        requires
            old(self).ok(),
        ensures
            (final(self).gen(), r) == g_expr(e@, old(self).gen(), old(self).cx()),
            final(self).beside(*old(self)),
            final(self).env@.len() == old(self).env@.len(),
            final(self).code@.len() >= old(self).code@.len(),
        decreases *e, 1int,
    {
        proof {
            reveal(g_expr);
            reveal(g_clos);
            reveal(g_exprs);
            reveal(g_inits);
            reveal(g_pairs);
            reveal(g_block);
        }
        let ghost k = ast::expr_kind_model(e.kind);
        assert(e@.kind == k);
        match &e.kind {
            ExprKind::Lit(l) => match typeck::as_float(l, &e.ty) {
                Some(b) => self.literal(&Lit::Float(b), e.span),
                None => self.literal(l, e.span),
            },
            ExprKind::Ident(n) => match self.lookup(n) {
                Some(r) => r,
                None => self.nil(e.span),
            },
            ExprKind::Binary(op, l, r) => {
                let a: u8 = self.compile_expr(l);
                let b: u8 = self.compile_expr(r);
                let dst: u8 = self.alloc_reg();
                self.emit_at(binop_opcode(*op), e.span);
                self.emit_byte(dst);
                self.emit_byte(a);
                self.emit_byte(b);
                dst
            },
            ExprKind::Unary(op, x) => {
                let a: u8 = self.compile_expr(x);
                let dst: u8 = self.alloc_reg();
                self.emit_at(
                    match op {
                        UnOp::Neg => Opcode::Neg,
                        UnOp::Not => Opcode::Not,
                    },
                    e.span,
                );
                self.emit_byte(dst);
                self.emit_byte(a);
                dst
            },
            ExprKind::Call(c, args) => {
                assert(decreases_to!(*args => args@));
                assert(ast::exprs_model(args@).len() == args@.len());
                let ghost ck = ast::expr_kind_model(c.kind);
                assert(c@.kind == ck);
                let rs = self.compile_exprs(args);
                match &c.kind {
                    ExprKind::Ident(n) => {
                        if let Some(id) = self.fn_index.get(n.as_str()) {
                            return self.call_direct(*id, &rs, e.span);
                        }
                        match self.lookup(n) {
                            Some(r) => self.call_indirect(r, &rs, e.span),
                            None => self.nil(e.span),
                        }
                    },
                    _ => {
                        let r: u8 = self.compile_expr(c);
                        self.call_indirect(r, &rs, e.span)
                    },
                }
            },
            ExprKind::ArrayLit(es) => {
                assert(decreases_to!(*es => es@));
                assert(ast::exprs_model(es@).len() == es@.len());
                let rs = self.compile_exprs(es);
                let dst: u8 = self.alloc_reg();
                self.emit_at(Opcode::ArrayNew, e.span);
                self.emit_byte(dst);
                self.emit_list(&rs);
                dst
            },
            ExprKind::MapLit(ps) => {
                assert(decreases_to!(*ps => ps@));
                assert(ast::pairs_model(ps@).len() == ps@.len());
                let rs = self.compile_pairs(ps);
                let dst: u8 = self.alloc_reg();
                self.emit_at(Opcode::MapNew, e.span);
                self.emit_byte(dst);
                self.store_pairs(&rs, dst, e.span);
                dst
            },
            ExprKind::StructLit(_, fs) => {
                assert(decreases_to!(*fs => fs@));
                assert(ast::inits_model(fs@).len() == fs@.len());
                let rs = self.compile_inits(fs);
                let dst: u8 = self.alloc_reg();
                self.emit_at(Opcode::StructNew, e.span);
                self.emit_byte(dst);
                self.store_fields(fs, &rs, dst, e.span);
                dst
            },
            ExprKind::Field(x, n) => {
                let a: u8 = self.compile_expr(x);
                let dst: u8 = self.alloc_reg();
                let ki: u16 = self.intern(Const::Str(n.clone()));
                self.emit_at(Opcode::StructGet, e.span);
                self.emit_byte(dst);
                self.emit_byte(a);
                self.emit_u16(ki);
                dst
            },
            ExprKind::Index(x, i) => {
                let a: u8 = self.compile_expr(x);
                let b: u8 = self.compile_expr(i);
                self.read_element(&x.ty, a, b, e.span)
            },
            ExprKind::Closure(_, _) => self.compile_closure(e),
            ExprKind::Block(b) => match self.compile_block(b) {
                Some(r) => r,
                None => self.nil(e.span),
            },
            ExprKind::If(c, yes, no) => {
                let out: u8 = self.alloc_reg();
                let r: u8 = self.compile_expr(c);
                let at: usize = self.unless(r, c.span);
                let t = self.compile_block(yes);
                self.join(Some(out), t, yes.span);
                let end: usize = self.otherwise(at, yes.span);
                match no {
                    Some(b) => {
                        let u = self.compile_block(b);
                        self.join(Some(out), u, b.span);
                    },
                    None => self.no_else(Some(out), c.span),
                }
                self.patch(end);
                out
            },
        }
    }

    #[verifier::spinoff_prover]
    fn compile_exprs(&mut self, es: &Vec<Expr>) -> (r: Vec<u8>)
        requires
            old(self).ok(),
        ensures
            (final(self).gen(), r@) == g_exprs(ast::exprs_model(es@), es@.len() as int, old(self).gen(), old(self).cx()),
            final(self).beside(*old(self)),
            final(self).env@.len() == old(self).env@.len(),
            final(self).code@.len() >= old(self).code@.len(),
        decreases es@, 0int,
    {
        proof {
            reveal(g_exprs);
            reveal(g_expr);
        }
        let ghost m = ast::exprs_model(es@);
        let mut out: Vec<u8> = Vec::new();
        let mut i: usize = 0;
        while i < es.len()
            invariant
                i <= es@.len(),
                m == ast::exprs_model(es@),
                self.ok(),
                (self.gen(), out@) == g_exprs(m, i as int, old(self).gen(), old(self).cx()),
                self.beside(*old(self)),
                self.env@.len() == old(self).env@.len(),
                self.code@.len() >= old(self).code@.len(),
            decreases es.len() - i,
        {
            proof {
                reveal(g_exprs);
                reveal(g_expr);
            }
            assert(decreases_to!(es@ => es@[i as int]));
            assert(m[i as int] == es@[i as int]@);
            let r: u8 = self.compile_expr(&es[i]);
            out.push(r);
            i += 1;
        }
        out
    }

    #[verifier::spinoff_prover]
    fn compile_inits(&mut self, fs: &Vec<(String, Expr)>) -> (r: Vec<u8>)
        requires
            old(self).ok(),
        ensures
            (final(self).gen(), r@) == g_inits(ast::inits_model(fs@), fs@.len() as int, old(self).gen(), old(self).cx()),
            r@.len() == fs@.len(),
            final(self).beside(*old(self)),
            final(self).env@.len() == old(self).env@.len(),
            final(self).code@.len() >= old(self).code@.len(),
        decreases fs@, 0int,
    {
        proof {
            reveal(g_inits);
            reveal(g_expr);
        }
        let ghost m = ast::inits_model(fs@);
        let mut out: Vec<u8> = Vec::new();
        let mut i: usize = 0;
        while i < fs.len()
            invariant
                i <= fs@.len(),
                m == ast::inits_model(fs@),
                self.ok(),
                out@.len() == i,
                (self.gen(), out@) == g_inits(m, i as int, old(self).gen(), old(self).cx()),
                self.beside(*old(self)),
                self.env@.len() == old(self).env@.len(),
                self.code@.len() >= old(self).code@.len(),
            decreases fs.len() - i,
        {
            proof {
                reveal(g_inits);
                reveal(g_expr);
            }
            assert(decreases_to!(fs@ => fs@[i as int]));
            assert(decreases_to!(fs@[i as int] => fs@[i as int].1));
            assert(m[i as int] == (fs@[i as int].0@, fs@[i as int].1@));
            let r: u8 = self.compile_expr(&fs[i].1);
            out.push(r);
            i += 1;
        }
        out
    }

    #[verifier::spinoff_prover]
    fn compile_pairs(&mut self, ps: &Vec<(Expr, Expr)>) -> (r: Vec<(u8, u8)>)
        requires
            old(self).ok(),
        ensures
            (final(self).gen(), r@) == g_pairs(ast::pairs_model(ps@), ps@.len() as int, old(self).gen(), old(self).cx()),
            final(self).beside(*old(self)),
            final(self).env@.len() == old(self).env@.len(),
            final(self).code@.len() >= old(self).code@.len(),
        decreases ps@, 0int,
    {
        proof {
            reveal(g_pairs);
            reveal(g_expr);
        }
        let ghost m = ast::pairs_model(ps@);
        let mut out: Vec<(u8, u8)> = Vec::new();
        let mut i: usize = 0;
        while i < ps.len()
            invariant
                i <= ps@.len(),
                m == ast::pairs_model(ps@),
                self.ok(),
                (self.gen(), out@) == g_pairs(m, i as int, old(self).gen(), old(self).cx()),
                self.beside(*old(self)),
                self.env@.len() == old(self).env@.len(),
                self.code@.len() >= old(self).code@.len(),
            decreases ps.len() - i,
        {
            proof {
                reveal(g_pairs);
                reveal(g_expr);
            }
            assert(decreases_to!(ps@ => ps@[i as int]));
            assert(decreases_to!(ps@[i as int] => ps@[i as int].0));
            assert(decreases_to!(ps@[i as int] => ps@[i as int].1));
            assert(m[i as int] == (ps@[i as int].0@, ps@[i as int].1@));
            let a: u8 = self.compile_expr(&ps[i].0);
            let b: u8 = self.compile_expr(&ps[i].1);
            out.push((a, b));
            i += 1;
        }
        out
    }

    #[verifier::spinoff_prover]
    fn compile_block(&mut self, b: &Block) -> (r: Option<u8>)
        requires
            old(self).ok(),
        ensures
            (final(self).gen(), r) == g_block(b@, old(self).gen(), old(self).cx()),
            final(self).beside(*old(self)),
            final(self).env@.len() == old(self).env@.len(),
            final(self).code@.len() >= old(self).code@.len(),
        decreases *b, 0int,
    {
        proof {
            reveal(g_block);
            reveal(g_stmts);
            reveal(g_expr);
        }
        let ghost ss = ast::stmts_model(b.stmts@);
        let depth: usize = self.env.len();
        let mut i: usize = 0;
        while i < b.stmts.len()
            invariant
                i <= b.stmts@.len(),
                ss == ast::stmts_model(b.stmts@),
                self.ok(),
                depth <= self.env@.len(),
                self.gen() == g_stmts(ss, i as int, old(self).gen(), old(self).cx()),
                self.beside(*old(self)),
                self.code@.len() >= old(self).code@.len(),
            decreases b.stmts.len() - i,
        {
            proof {
                reveal(g_stmts);
                reveal(g_stmt);
            }
            assert(decreases_to!(b.stmts@ => b.stmts@[i as int]));
            assert(decreases_to!(b.stmts => b.stmts@));
            assert(ss[i as int] == b.stmts@[i as int]@);
            self.compile_stmt(&b.stmts[i]);
            i += 1;
        }
        let r = match &b.tail {
            Some(e) => Some(self.compile_expr(e)),
            None => None,
        };
        self.cut(depth);
        r
    }

    #[verifier::spinoff_prover]
    #[verifier::rlimit(80)]
    fn compile_stmt(&mut self, s: &Stmt)
        requires
            old(self).ok(),
        ensures
            final(self).gen() == g_stmt(s@, old(self).gen(), old(self).cx()),
            final(self).beside(*old(self)),
            old(self).env@.len() <= final(self).env@.len(),
            final(self).code@.len() >= old(self).code@.len(),
        decreases *s, 0int,
    {
        proof {
            reveal(g_stmt);
            reveal(g_expr);
            reveal(g_block);
        }
        let ghost k = ast::stmt_kind_model(s.kind);
        assert(s@.kind == k);
        match &s.kind {
            StmtKind::Let { name, init, .. } => {
                let r: u8 = self.compile_expr(init);
                self.bind(name.clone(), r);
            },
            StmtKind::Assign(t, v) => {
                let ghost tk = ast::expr_kind_model(t.kind);
                assert(t@.kind == tk);
                let r: u8 = self.compile_expr(v);
                if let ExprKind::Ident(n) = &t.kind {
                    if let Some(d) = self.lookup(n) {
                        self.emit_at(Opcode::Move, s.span);
                        self.emit_byte(d);
                        self.emit_byte(r);
                    }
                }
            },
            StmtKind::Expr(e) => {
                let _ = self.compile_expr(e);
            },
            StmtKind::Return(v) => match v {
                None => self.emit_at(Opcode::ReturnNil, s.span),
                Some(e) => {
                    let r: u8 = self.compile_expr(e);
                    self.emit_at(Opcode::ReturnVal, s.span);
                    self.emit_byte(r);
                },
            },
            StmtKind::While(c, body) => {
                let start: usize = self.code.len();
                let r: u8 = self.compile_expr(c);
                let at: usize = self.unless(r, c.span);
                let _ = self.compile_block(body);
                self.again(start, at, s.span);
            },
            StmtKind::If(c, yes, no) => {
                let r: u8 = self.compile_expr(c);
                let at: usize = self.unless(r, c.span);
                let t = self.compile_block(yes);
                self.join(None, t, yes.span);
                let end: usize = self.otherwise(at, yes.span);
                match no {
                    Some(b) => {
                        let u = self.compile_block(b);
                        self.join(None, u, b.span);
                    },
                    None => self.no_else(None, c.span),
                }
                self.patch(end);
            },
            StmtKind::Break | StmtKind::Continue => {},
        }
    }
}

proof fn lemma_clos(e: ExprModel, s: Gen, cx: Cx)
    requires
        e.kind is Closure,
    ensures
        ({
            let ps = e.kind->Closure_0;
            let body = *e.kind->Closure_1.it;
            let names = free_vars(body, ps);
            let caps = captured(names, names.len() as int, s.env);
            let (t, r) = g_expr(body, closure_start(caps.0, ps, s), cx);
            g_clos(e, s, cx) == g_closure(e, caps, caps.0.len() + ps.len(), t, r, body.span, s, cx)
        }),
{
    reveal(g_clos);
    reveal(g_expr);
}

fn binop_opcode(op: BinOp) -> (r: Opcode)
    ensures
        r == binop_code(op),
{
    match op {
        BinOp::Add => Opcode::Add,
        BinOp::Sub => Opcode::Sub,
        BinOp::Mul => Opcode::Mul,
        BinOp::Div => Opcode::Div,
        BinOp::Mod => Opcode::Mod,
        BinOp::Eq => Opcode::Eq,
        BinOp::Ne => Opcode::Ne,
        BinOp::Lt => Opcode::Lt,
        BinOp::Le => Opcode::Le,
        BinOp::Gt => Opcode::Gt,
        BinOp::Ge => Opcode::Ge,
        BinOp::And => Opcode::And,
        BinOp::Or => Opcode::Or,
    }
}

fn compile_fn(
    f: &FnDecl,
    builder: ModuleBuilder,
    fn_index: &NameMap<u16>,
    source: &Source,
    tops: usize,
) -> (r: (FunctionBytecode, ModuleBuilder))
    requires
        source.wf(),
    ensures
        ({
            let cx = Cx { index: fn_index@, src: source.bytes(), tops: tops as int };
            (r.0@, r.1.so_far().constants, r.1.so_far().functions) == g_fn(
                f@,
                builder.so_far().constants,
                builder.so_far().functions,
                cx,
            )
        }),
{
    let ghost pm = ast::params_model(f.params@);
    assert(pm.len() == f.params@.len());
    let mut c = Compiler {
        builder,
        fn_index,
        source,
        tops,
        code: Vec::new(),
        line_for_pc: Vec::new(),
        next_reg: 0,
        env: Vec::new(),
    };
    assert(c.gen() =~= blank(builder.so_far().constants, builder.so_far().functions));
    c.bind_params(&f.params);
    let r = c.compile_block(&f.body);
    let span: Span = match &f.body.tail {
        Some(e) => e.span,
        None => f.body.span,
    };
    match r {
        Some(v) => {
            c.emit_at(Opcode::ReturnVal, span);
            c.emit_byte(v);
        },
        None => c.emit_at(Opcode::ReturnNil, span),
    }
    let max_register: u8 = if c.next_reg >= 256 { 0 } else { c.next_reg as u8 };
    (
        FunctionBytecode {
            name: f.name.clone(),
            arity: (f.params.len() % 256) as u8,
            max_register,
            code: c.code,
            line_for_pc: c.line_for_pc,
        },
        c.builder,
    )
}

fn place_functions(ast: &ast::Module) -> (r: (NameMap<u16>, usize))
    ensures
        r.0@ == fn_places(ast@.decls, ast@.decls.len() as int),
        r.1 == fn_count(ast@.decls, ast@.decls.len() as int),
{
    let ghost m = ast@.decls;
    let mut index: NameMap<u16> = NameMap::new();
    let mut n: usize = 0;
    let mut i: usize = 0;
    while i < ast.decls.len()
        invariant
            i <= ast.decls@.len(),
            m == ast@.decls,
            index@ == fn_places(m, i as int),
            n == fn_count(m, i as int),
            n <= i,
        decreases ast.decls.len() - i,
    {
        assert(m[i as int] == ast.decls@[i as int]@);
        if let Decl::Fn(f) = &ast.decls[i] {
            index.insert(f.name.clone(), (n % 0x1_0000) as u16);
            n += 1;
        }
        i += 1;
    }
    (index, n)
}

fn index_functions(fs: &Vec<FunctionBytecode>) -> (r: Vec<(String, u16)>)
    ensures
        bytecode::index_model(r@) == bytecode::index_of(views::views(fs@)),
{
    let mut out: Vec<(String, u16)> = Vec::new();
    let mut i: usize = 0;
    while i < fs.len()
        invariant
            i <= fs@.len(),
            out@.len() == i,
            forall|j: int| 0 <= j < i ==> (#[trigger] out@[j]).0@ == fs@[j].name@ && out@[j].1 == j % 0x1_0000,
        decreases fs.len() - i,
    {
        out.push((fs[i].name.clone(), (i % 0x1_0000) as u16));
        i += 1;
    }
    assert(bytecode::index_model(out@) =~= bytecode::index_of(views::views(fs@)));
    out
}

/// Compiles the functions of a typechecked module.
pub fn lower(ast: &ast::Module, source: &Source) -> (r: Module)
    requires
        source.wf(),
    ensures
        r@ == compiled(ast@.decls, source.bytes()),
{
    let ghost m = ast@.decls;
    let (index, tops) = place_functions(ast);
    let ghost cx = Cx { index: index@, src: source.bytes(), tops: tops as int };
    let mut builder = ModuleBuilder::new();
    let mut functions: Vec<FunctionBytecode> = Vec::new();
    let mut i: usize = 0;
    assert(views::views(functions@) =~= Seq::empty());
    while i < ast.decls.len()
        invariant
            i <= ast.decls@.len(),
            source.wf(),
            m == ast@.decls,
            cx == (Cx { index: index@, src: source.bytes(), tops: tops as int }),
            (views::views(functions@), builder.so_far().constants, builder.so_far().functions) == g_decls(m, i as int, cx),
        decreases ast.decls.len() - i,
    {
        assert(m[i as int] == ast.decls@[i as int]@);
        if let Decl::Fn(f) = &ast.decls[i] {
            let (g, b) = compile_fn(f, builder, &index, source, tops);
            builder = b;
            proof {
                views::lemma_views_push(functions@, g);
            }
            functions.push(g);
        }
        i += 1;
    }
    let mut rest = builder.build();
    proof {
        views::lemma_views_add(functions@, rest.functions@);
    }
    functions.append(&mut rest.functions);
    let function_index = index_functions(&functions);
    let r = Module { constants: rest.constants, functions, function_index };
    assert(r@ =~= compiled(m, source.bytes()));
    r
}

} // verus!
