//! Printed modules read back.
//!
//! A module that the parser gave without a complaint prints as text that gives the same
//! module again, but for the places where things stand.

pub mod decimals;
pub mod legibility;
pub mod reading;
pub mod structure;
pub mod writing;

use crate::ast;
use crate::ast::{
    BinOp, BlockModel, DeclModel, ExprKindModel, ExprModel, FnDeclModel, LitModel, ModuleModel, ParamModel, StmtKindModel,
    StmtModel, TypeModel, UnOp,
};
use crate::compile;
use crate::float;
use crate::lex;
use crate::lex::{TokenKind, TokenModel};
use crate::parse;
use crate::print;
use crate::source::{FileId, Span};
use vstd::prelude::*;
use vstd::utf8::encode_utf8;

verus! {

// --- what can be printed ---------------------------------------------------------------

/// Whether a character is one of the first 128.
pub open spec fn basic(c: char) -> bool {
    '\0' <= c <= '\u{7f}'
}

/// Whether a text is a name: the lexeme of an identifier.
pub open spec fn word(s: Seq<char>) -> bool {
    &&& s.len() > 0
    &&& lex::starts_ident(s[0] as u8)
    &&& forall|i: int| 0 <= i < s.len() ==> basic(#[trigger] s[i]) && lex::in_ident(s[i] as u8)
    &&& lex::keyword(s) is Ident
}

/// Whether a name is that of no built-in type.
pub open spec fn foreign(n: Seq<char>) -> bool {
    parse::simple_type(n) is None && parse::wrapped_type(n, TypeModel::Nil) is None && n != "Map"@
}

/// Whether a type can be written down.
#[verifier::opaque]
pub open spec fn legible_type(t: TypeModel) -> bool
    decreases t, 0int,
{
    match t {
        TypeModel::Unknown => false,
        TypeModel::Error => false,
        TypeModel::Query(x) => legible_type(*x.it),
        TypeModel::Res(x) => legible_type(*x.it),
        TypeModel::ResMut(x) => legible_type(*x.it),
        TypeModel::Array(x) => legible_type(*x.it),
        TypeModel::Dict(k, v) => legible_type(*k.it) && legible_type(*v.it),
        TypeModel::Fn(ps, r) => legible_types(ps, ps.len() as int) && legible_type(*r.it),
        TypeModel::Struct(n) => word(n) && foreign(n),
        _ => true,
    }
}

/// Whether the first `k` types can be written down.
#[verifier::opaque]
pub open spec fn legible_types(ts: Seq<TypeModel>, k: int) -> bool
    decreases ts, k,
{
    if k <= 0 || k > ts.len() {
        true
    } else {
        legible_types(ts, k - 1) && legible_type(ts[k - 1])
    }
}

/// Whether a literal can be written down: numbers have no sign there.
pub open spec fn legible_lit(l: LitModel) -> bool {
    match l {
        LitModel::Int(v) => v >= 0,
        LitModel::Float(b) => b <= float::INF,
        _ => true,
    }
}

/// Whether an annotation is left out, or can be written down.
pub open spec fn legible_note(t: TypeModel) -> bool {
    t is Unknown || legible_type(t)
}

/// Whether parameters can be written down.
pub open spec fn legible_params(ps: Seq<ParamModel>) -> bool {
    forall|i: int| 0 <= i < ps.len() ==> word((#[trigger] ps[i]).name) && legible_note(ps[i].ty)
}

/// Whether an expression can be written down.
#[verifier::opaque]
pub open spec fn legible_expr(e: ExprModel) -> bool
    decreases e, 0int,
{
    match e.kind {
        ExprKindModel::Lit(l) => legible_lit(l),
        ExprKindModel::Ident(n) => word(n),
        ExprKindModel::Binary(_, l, r) => legible_expr(*l.it) && legible_expr(*r.it),
        ExprKindModel::Unary(_, x) => legible_expr(*x.it),
        ExprKindModel::Call(c, args) => legible_expr(*c.it) && legible_exprs(args, args.len() as int),
        ExprKindModel::Field(x, n) => legible_expr(*x.it) && word(n),
        ExprKindModel::Index(x, i) => legible_expr(*x.it) && legible_expr(*i.it),
        ExprKindModel::StructLit(n, fs) => word(n) && parse::type_like(n) && legible_inits(fs, fs.len() as int),
        ExprKindModel::ArrayLit(es) => legible_exprs(es, es.len() as int),
        ExprKindModel::MapLit(ps) => legible_pairs(ps, ps.len() as int),
        ExprKindModel::Closure(ps, b) => legible_params(ps) && legible_expr(*b.it),
        ExprKindModel::Block(b) => legible_block(*b.it),
        ExprKindModel::If(c, yes, no) => {
            &&& legible_expr(*c.it)
            &&& legible_block(*yes.it)
            &&& match no {
                Some(b) => legible_block(*b.it),
                None => true,
            }
        },
    }
}

/// Whether the first `k` expressions can be written down.
#[verifier::opaque]
pub open spec fn legible_exprs(es: Seq<ExprModel>, k: int) -> bool
    decreases es, k,
{
    if k <= 0 || k > es.len() {
        true
    } else {
        legible_exprs(es, k - 1) && legible_expr(es[k - 1])
    }
}

/// Whether the first `k` field initializers can be written down.
#[verifier::opaque]
pub open spec fn legible_inits(fs: Seq<(Seq<char>, ExprModel)>, k: int) -> bool
    decreases fs, k,
{
    if k <= 0 || k > fs.len() {
        true
    } else {
        legible_inits(fs, k - 1) && word(fs[k - 1].0) && legible_expr(fs[k - 1].1)
    }
}

/// Whether the first `k` map entries can be written down.
#[verifier::opaque]
pub open spec fn legible_pairs(ps: Seq<(ExprModel, ExprModel)>, k: int) -> bool
    decreases ps, k,
{
    if k <= 0 || k > ps.len() {
        true
    } else {
        legible_pairs(ps, k - 1) && legible_expr(ps[k - 1].0) && legible_expr(ps[k - 1].1)
    }
}

/// Whether a block can be written down.
#[verifier::opaque]
pub open spec fn legible_block(b: BlockModel) -> bool
    decreases b, 0int,
{
    legible_stmts(b.stmts, b.stmts.len() as int) && match b.tail {
        Some(t) => legible_expr(t),
        None => true,
    }
}

/// Whether the first `k` statements can be written down.
#[verifier::opaque]
pub open spec fn legible_stmts(ss: Seq<StmtModel>, k: int) -> bool
    decreases ss, k,
{
    if k <= 0 || k > ss.len() {
        true
    } else {
        legible_stmts(ss, k - 1) && legible_stmt(ss[k - 1])
    }
}

/// Whether a statement can be written down. An `if` is an expression there.
#[verifier::opaque]
pub open spec fn legible_stmt(st: StmtModel) -> bool
    decreases st, 0int,
{
    match st.kind {
        StmtKindModel::Let { name, ty, mutable, init } => word(name) && legible_note(ty) && legible_expr(init),
        StmtKindModel::Assign(p, v) => legible_expr(p) && legible_expr(v),
        StmtKindModel::Expr(e) => legible_expr(e),
        StmtKindModel::Return(Some(v)) => legible_expr(v),
        StmtKindModel::Return(None) => true,
        StmtKindModel::While(c, b) => legible_expr(c) && legible_block(*b.it),
        StmtKindModel::If(..) => false,
        StmtKindModel::Break => true,
        StmtKindModel::Continue => true,
    }
}

/// Whether a declaration can be written down.
pub open spec fn legible_decl(d: DeclModel) -> bool {
    match d {
        DeclModel::Fn(f) => word(f.name) && legible_params(f.params) && legible_type(f.ret) && legible_block(f.body),
        DeclModel::Struct(s) => word(s.name) && forall|i: int|
            0 <= i < s.fields.len() ==> word((#[trigger] s.fields[i]).0) && legible_type(s.fields[i].1),
        DeclModel::Const(c) => word(c.name) && legible_type(c.ty) && legible_expr(c.init),
    }
}

/// Whether a module can be written down.
pub open spec fn legible(m: ModuleModel) -> bool {
    forall|i: int| 0 <= i < m.decls.len() ==> legible_decl(#[trigger] m.decls[i])
}

// --- trees without places --------------------------------------------------------------

/// No place.
pub open spec fn nowhere() -> Span {
    Span { file: FileId(0), lo: 0, hi: 0 }
}

/// An expression without the places where things stand, and without types of expressions.
#[verifier::opaque]
pub open spec fn bare_expr(e: ExprModel) -> ExprModel
    decreases e, 0int,
{
    let kind = match e.kind {
        ExprKindModel::Binary(op, l, r) => ExprKindModel::Binary(
            op,
            ast::node(bare_expr(*l.it)),
            ast::node(bare_expr(*r.it)),
        ),
        ExprKindModel::Unary(op, x) => ExprKindModel::Unary(op, ast::node(bare_expr(*x.it))),
        ExprKindModel::Call(c, args) => ExprKindModel::Call(
            ast::node(bare_expr(*c.it)),
            bare_exprs(args, args.len() as int),
        ),
        ExprKindModel::Field(x, n) => ExprKindModel::Field(ast::node(bare_expr(*x.it)), n),
        ExprKindModel::Index(x, i) => ExprKindModel::Index(ast::node(bare_expr(*x.it)), ast::node(bare_expr(*i.it))),
        ExprKindModel::StructLit(n, fs) => ExprKindModel::StructLit(n, bare_inits(fs, fs.len() as int)),
        ExprKindModel::ArrayLit(es) => ExprKindModel::ArrayLit(bare_exprs(es, es.len() as int)),
        ExprKindModel::MapLit(ps) => ExprKindModel::MapLit(bare_pairs(ps, ps.len() as int)),
        ExprKindModel::Closure(ps, b) => ExprKindModel::Closure(bare_params(ps), ast::node(bare_expr(*b.it))),
        ExprKindModel::Block(b) => ExprKindModel::Block(ast::node(bare_block(*b.it))),
        ExprKindModel::If(c, yes, no) => ExprKindModel::If(
            ast::node(bare_expr(*c.it)),
            ast::node(bare_block(*yes.it)),
            match no {
                Some(b) => Some(ast::node(bare_block(*b.it))),
                None => None,
            },
        ),
        k => k,
    };
    ExprModel { kind, span: nowhere(), ty: TypeModel::Unknown }
}

/// The first `k` expressions, the same way.
#[verifier::opaque]
pub open spec fn bare_exprs(es: Seq<ExprModel>, k: int) -> Seq<ExprModel>
    decreases es, k,
{
    if k <= 0 || k > es.len() {
        Seq::empty()
    } else {
        bare_exprs(es, k - 1).push(bare_expr(es[k - 1]))
    }
}

/// The first `k` field initializers.
#[verifier::opaque]
pub open spec fn bare_inits(fs: Seq<(Seq<char>, ExprModel)>, k: int) -> Seq<(Seq<char>, ExprModel)>
    decreases fs, k,
{
    if k <= 0 || k > fs.len() {
        Seq::empty()
    } else {
        bare_inits(fs, k - 1).push((fs[k - 1].0, bare_expr(fs[k - 1].1)))
    }
}

/// The first `k` map entries.
#[verifier::opaque]
pub open spec fn bare_pairs(ps: Seq<(ExprModel, ExprModel)>, k: int) -> Seq<(ExprModel, ExprModel)>
    decreases ps, k,
{
    if k <= 0 || k > ps.len() {
        Seq::empty()
    } else {
        bare_pairs(ps, k - 1).push((bare_expr(ps[k - 1].0), bare_expr(ps[k - 1].1)))
    }
}

/// Parameters without places.
pub open spec fn bare_params(ps: Seq<ParamModel>) -> Seq<ParamModel> {
    Seq::new(ps.len(), |i: int| ParamModel { span: nowhere(), ..ps[i] })
}

/// A block without places.
#[verifier::opaque]
pub open spec fn bare_block(b: BlockModel) -> BlockModel
    decreases b, 0int,
{
    BlockModel {
        stmts: bare_stmts(b.stmts, b.stmts.len() as int),
        tail: match b.tail {
            Some(t) => Some(bare_expr(t)),
            None => None,
        },
        span: nowhere(),
    }
}

/// The first `k` statements without places.
#[verifier::opaque]
pub open spec fn bare_stmts(ss: Seq<StmtModel>, k: int) -> Seq<StmtModel>
    decreases ss, k,
{
    if k <= 0 || k > ss.len() {
        Seq::empty()
    } else {
        bare_stmts(ss, k - 1).push(bare_stmt(ss[k - 1]))
    }
}

/// A statement without places.
#[verifier::opaque]
pub open spec fn bare_stmt(st: StmtModel) -> StmtModel
    decreases st, 0int,
{
    let kind = match st.kind {
        StmtKindModel::Let { name, ty, mutable, init } => StmtKindModel::Let {
            name,
            ty,
            mutable,
            init: bare_expr(init),
        },
        StmtKindModel::Assign(p, v) => StmtKindModel::Assign(bare_expr(p), bare_expr(v)),
        StmtKindModel::Expr(e) => StmtKindModel::Expr(bare_expr(e)),
        StmtKindModel::Return(Some(v)) => StmtKindModel::Return(Some(bare_expr(v))),
        StmtKindModel::While(c, b) => StmtKindModel::While(bare_expr(c), ast::node(bare_block(*b.it))),
        StmtKindModel::If(c, yes, no) => StmtKindModel::If(
            bare_expr(c),
            ast::node(bare_block(*yes.it)),
            match no {
                Some(b) => Some(ast::node(bare_block(*b.it))),
                None => None,
            },
        ),
        k => k,
    };
    StmtModel { kind, span: nowhere() }
}

/// The fields of a struct without places.
pub open spec fn bare_fields(fs: Seq<(Seq<char>, TypeModel, Span)>) -> Seq<(Seq<char>, TypeModel, Span)> {
    Seq::new(fs.len(), |i: int| (fs[i].0, fs[i].1, nowhere()))
}

/// A declaration without places.
pub open spec fn bare_decl(d: DeclModel) -> DeclModel {
    match d {
        DeclModel::Fn(f) => DeclModel::Fn(
            FnDeclModel { params: bare_params(f.params), body: bare_block(f.body), span: nowhere(), ..f },
        ),
        DeclModel::Struct(s) => DeclModel::Struct(
            ast::StructDeclModel { fields: bare_fields(s.fields), span: nowhere(), ..s },
        ),
        DeclModel::Const(c) => DeclModel::Const(
            ast::ConstDeclModel { init: bare_expr(c.init), span: nowhere(), ..c },
        ),
    }
}

/// A module without places: its structure.
pub open spec fn bare(m: ModuleModel) -> Seq<DeclModel> {
    Seq::new(m.decls.len(), |i: int| bare_decl(m.decls[i]))
}

// --- how trees are spelled -------------------------------------------------------------

// Each `spelt_*` function says behind which token a construct ends that starts at `i`; it is
// -1 where the tokens from `i` on do not spell it.

/// A token of some kind.
pub open spec fn spelt(toks: Seq<TokenModel>, i: int, k: TokenKind) -> int {
    if 0 <= i < toks.len() && toks[i].kind == k {
        i + 1
    } else {
        -1
    }
}

/// A name.
pub open spec fn spelt_name(toks: Seq<TokenModel>, i: int, n: Seq<char>) -> int {
    if 0 <= i < toks.len() && toks[i].kind is Ident && toks[i].ident == n {
        i + 1
    } else {
        -1
    }
}

/// A comma in front of the `k`th element of a list.
pub open spec fn spelt_comma(toks: Seq<TokenModel>, i: int, k: int) -> int {
    if k > 1 {
        spelt(toks, i, TokenKind::Comma)
    } else {
        i
    }
}

/// The token of an operator.
pub open spec fn operator_kind(op: BinOp) -> TokenKind {
    match op {
        BinOp::Add => TokenKind::Plus,
        BinOp::Sub => TokenKind::Minus,
        BinOp::Mul => TokenKind::Star,
        BinOp::Div => TokenKind::Slash,
        BinOp::Mod => TokenKind::Percent,
        BinOp::Eq => TokenKind::EqEq,
        BinOp::Ne => TokenKind::BangEq,
        BinOp::Lt => TokenKind::Lt,
        BinOp::Le => TokenKind::LtEq,
        BinOp::Gt => TokenKind::Gt,
        BinOp::Ge => TokenKind::GtEq,
        BinOp::And => TokenKind::AmpAmp,
        BinOp::Or => TokenKind::PipePipe,
    }
}

/// A type.
#[verifier::opaque]
pub open spec fn spelt_type(toks: Seq<TokenModel>, i: int, t: TypeModel) -> int
    decreases t, 0int,
{
    match t {
        TypeModel::Unknown => -1,
        TypeModel::Error => -1,
        TypeModel::Nil => spelt(toks, i, TokenKind::Nil),
        TypeModel::Bool => spelt_name(toks, i, "bool"@),
        TypeModel::I32 => spelt_name(toks, i, "i32"@),
        TypeModel::I64 => spelt_name(toks, i, "i64"@),
        TypeModel::F32 => spelt_name(toks, i, "f32"@),
        TypeModel::F64 => spelt_name(toks, i, "f64"@),
        TypeModel::Str => spelt_name(toks, i, "str"@),
        TypeModel::Entity => spelt_name(toks, i, "Entity"@),
        TypeModel::Query(x) => spelt(
            toks,
            spelt_type(toks, spelt(toks, spelt_name(toks, i, "Query"@), TokenKind::Lt), *x.it),
            TokenKind::Gt,
        ),
        TypeModel::Res(x) => spelt(
            toks,
            spelt_type(toks, spelt(toks, spelt_name(toks, i, "Res"@), TokenKind::Lt), *x.it),
            TokenKind::Gt,
        ),
        TypeModel::ResMut(x) => spelt(
            toks,
            spelt_type(toks, spelt(toks, spelt_name(toks, i, "ResMut"@), TokenKind::Lt), *x.it),
            TokenKind::Gt,
        ),
        TypeModel::Array(x) => spelt(
            toks,
            spelt_type(toks, spelt(toks, spelt_name(toks, i, "Array"@), TokenKind::Lt), *x.it),
            TokenKind::Gt,
        ),
        TypeModel::Dict(k, v) => {
            let a = spelt_type(toks, spelt(toks, spelt_name(toks, i, "Map"@), TokenKind::Lt), *k.it);
            spelt(toks, spelt_type(toks, spelt(toks, a, TokenKind::Comma), *v.it), TokenKind::Gt)
        },
        TypeModel::Fn(ps, r) => {
            let a = spelt_types(toks, spelt(toks, spelt(toks, i, TokenKind::KwFn), TokenKind::LParen), ps, ps.len() as int);
            spelt_type(toks, spelt(toks, spelt(toks, a, TokenKind::RParen), TokenKind::Arrow), *r.it)
        },
        TypeModel::Struct(n) => spelt_name(toks, i, n),
    }
}

/// The first `k` types of a list.
#[verifier::opaque]
pub open spec fn spelt_types(toks: Seq<TokenModel>, i: int, ts: Seq<TypeModel>, k: int) -> int
    decreases ts, k,
{
    if k <= 0 || k > ts.len() {
        i
    } else {
        spelt_type(toks, spelt_comma(toks, spelt_types(toks, i, ts, k - 1), k), ts[k - 1])
    }
}

/// An annotation.
pub open spec fn spelt_note(toks: Seq<TokenModel>, i: int, t: TypeModel) -> int {
    if t is Unknown {
        i
    } else {
        spelt_type(toks, spelt(toks, i, TokenKind::Colon), t)
    }
}

/// The first `k` parameters.
#[verifier::opaque]
pub open spec fn spelt_params(toks: Seq<TokenModel>, i: int, ps: Seq<ParamModel>, k: int) -> int
    decreases k,
{
    if k <= 0 || k > ps.len() {
        i
    } else {
        let p = ps[k - 1];
        spelt_note(toks, spelt_name(toks, spelt_comma(toks, spelt_params(toks, i, ps, k - 1), k), p.name), p.ty)
    }
}

/// A literal.
pub open spec fn spelt_lit(toks: Seq<TokenModel>, i: int, l: LitModel) -> int {
    match l {
        LitModel::Nil => spelt(toks, i, TokenKind::Nil),
        LitModel::Bool(true) => spelt(toks, i, TokenKind::True),
        LitModel::Bool(false) => spelt(toks, i, TokenKind::False),
        LitModel::Int(v) => spelt(toks, i, TokenKind::Int(v)),
        LitModel::Float(b) => spelt(toks, i, TokenKind::Float(b)),
        LitModel::Str(s) => if 0 <= i < toks.len() && toks[i].str_value == s {
            spelt(toks, i, TokenKind::Str)
        } else {
            -1
        },
    }
}

/// An operand, in parentheses where `wrap` says so.
#[verifier::opaque]
pub open spec fn spelt_operand(toks: Seq<TokenModel>, i: int, e: ExprModel, wrap: bool) -> int
    decreases e, 1int,
{
    if wrap {
        spelt(toks, spelt_expr(toks, spelt(toks, i, TokenKind::LParen), e), TokenKind::RParen)
    } else {
        spelt_expr(toks, i, e)
    }
}

/// An expression.
#[verifier::opaque]
pub open spec fn spelt_expr(toks: Seq<TokenModel>, i: int, e: ExprModel) -> int
    decreases e, 0int,
{
    match e.kind {
        ExprKindModel::Lit(l) => spelt_lit(toks, i, l),
        ExprKindModel::Ident(n) => spelt_name(toks, i, n),
        ExprKindModel::Binary(op, l, r) => {
            let a = spelt_operand(toks, spelt(toks, i, TokenKind::LParen), *l.it, print::open_ended(*l.it));
            spelt(toks, spelt_expr(toks, spelt(toks, a, operator_kind(op)), *r.it), TokenKind::RParen)
        },
        ExprKindModel::Unary(op, x) => spelt_expr(
            toks,
            spelt(
                toks,
                i,
                if op == UnOp::Neg {
                    TokenKind::Minus
                } else {
                    TokenKind::Bang
                },
            ),
            *x.it,
        ),
        ExprKindModel::Call(c, args) => {
            let a = spelt(toks, spelt_operand(toks, i, *c.it, print::loose(*c.it)), TokenKind::LParen);
            spelt(toks, spelt_exprs(toks, a, args, args.len() as int), TokenKind::RParen)
        },
        ExprKindModel::Field(x, n) => {
            let a = spelt(toks, spelt_operand(toks, i, *x.it, print::loose(*x.it)), TokenKind::Dot);
            spelt_name(toks, a, n)
        },
        ExprKindModel::Index(x, j) => {
            let a = spelt(toks, spelt_operand(toks, i, *x.it, print::loose(*x.it)), TokenKind::LBracket);
            spelt(toks, spelt_expr(toks, a, *j.it), TokenKind::RBracket)
        },
        ExprKindModel::StructLit(n, fs) => {
            let a = spelt(toks, spelt_name(toks, i, n), TokenKind::LBrace);
            spelt(toks, spelt_inits(toks, a, fs, fs.len() as int), TokenKind::RBrace)
        },
        ExprKindModel::ArrayLit(es) => {
            let a = spelt(toks, i, TokenKind::LBracket);
            spelt(toks, spelt_exprs(toks, a, es, es.len() as int), TokenKind::RBracket)
        },
        ExprKindModel::MapLit(ps) => {
            let a = spelt(toks, i, TokenKind::LBracket);
            spelt(
                toks,
                if ps.len() == 0 {
                    spelt(toks, a, TokenKind::Colon)
                } else {
                    spelt_pairs(toks, a, ps, ps.len() as int)
                },
                TokenKind::RBracket,
            )
        },
        ExprKindModel::Closure(ps, b) => {
            let a = spelt_params(toks, spelt(toks, i, TokenKind::Pipe), ps, ps.len() as int);
            spelt_expr(toks, spelt(toks, a, TokenKind::Pipe), *b.it)
        },
        ExprKindModel::Block(b) => spelt_block(toks, i, *b.it),
        ExprKindModel::If(c, yes, no) => {
            let a = spelt_operand(toks, spelt(toks, i, TokenKind::KwIf), *c.it, print::ends_in_type_name(*c.it));
            let d = spelt_block(toks, a, *yes.it);
            match no {
                Some(b) => spelt_block(toks, spelt(toks, d, TokenKind::KwElse), *b.it),
                None => d,
            }
        },
    }
}

/// The first `k` expressions of a list.
#[verifier::opaque]
pub open spec fn spelt_exprs(toks: Seq<TokenModel>, i: int, es: Seq<ExprModel>, k: int) -> int
    decreases es, k,
{
    if k <= 0 || k > es.len() {
        i
    } else {
        spelt_expr(toks, spelt_comma(toks, spelt_exprs(toks, i, es, k - 1), k), es[k - 1])
    }
}

/// The first `k` field initializers.
#[verifier::opaque]
pub open spec fn spelt_inits(toks: Seq<TokenModel>, i: int, fs: Seq<(Seq<char>, ExprModel)>, k: int) -> int
    decreases fs, k,
{
    if k <= 0 || k > fs.len() {
        i
    } else {
        let a = spelt_comma(toks, spelt_inits(toks, i, fs, k - 1), k);
        spelt_expr(toks, spelt(toks, spelt_name(toks, a, fs[k - 1].0), TokenKind::Colon), fs[k - 1].1)
    }
}

/// The first `k` map entries.
#[verifier::opaque]
pub open spec fn spelt_pairs(toks: Seq<TokenModel>, i: int, ps: Seq<(ExprModel, ExprModel)>, k: int) -> int
    decreases ps, k,
{
    if k <= 0 || k > ps.len() {
        i
    } else {
        let a = spelt_comma(toks, spelt_pairs(toks, i, ps, k - 1), k);
        spelt_expr(toks, spelt(toks, spelt_expr(toks, a, ps[k - 1].0), TokenKind::FatArrow), ps[k - 1].1)
    }
}

/// A block.
#[verifier::opaque]
pub open spec fn spelt_block(toks: Seq<TokenModel>, i: int, b: BlockModel) -> int
    decreases b, 0int,
{
    let a = spelt_stmts(toks, spelt(toks, i, TokenKind::LBrace), b.stmts, b.stmts.len() as int);
    spelt(
        toks,
        match b.tail {
            Some(t) => spelt_expr(toks, a, t),
            None => a,
        },
        TokenKind::RBrace,
    )
}

/// The first `k` statements.
#[verifier::opaque]
pub open spec fn spelt_stmts(toks: Seq<TokenModel>, i: int, ss: Seq<StmtModel>, k: int) -> int
    decreases ss, k,
{
    if k <= 0 || k > ss.len() {
        i
    } else {
        spelt_stmt(toks, spelt_stmts(toks, i, ss, k - 1), ss[k - 1])
    }
}

/// A statement.
#[verifier::opaque]
pub open spec fn spelt_stmt(toks: Seq<TokenModel>, i: int, st: StmtModel) -> int
    decreases st, 0int,
{
    match st.kind {
        StmtKindModel::Let { name, ty, mutable, init } => {
            let a = spelt(toks, i, TokenKind::KwLet);
            let b = if mutable {
                spelt(toks, a, TokenKind::KwMut)
            } else {
                a
            };
            let c = spelt_note(toks, spelt_name(toks, b, name), ty);
            spelt(toks, spelt_expr(toks, spelt(toks, c, TokenKind::Assign), init), TokenKind::Semicolon)
        },
        StmtKindModel::Assign(p, v) => {
            let a = spelt(toks, spelt_expr(toks, i, p), TokenKind::Assign);
            spelt(toks, spelt_expr(toks, a, v), TokenKind::Semicolon)
        },
        StmtKindModel::Expr(e) => spelt(toks, spelt_expr(toks, i, e), TokenKind::Semicolon),
        StmtKindModel::Return(Some(v)) => spelt(
            toks,
            spelt_expr(toks, spelt(toks, i, TokenKind::KwReturn), v),
            TokenKind::Semicolon,
        ),
        StmtKindModel::Return(None) => spelt(toks, spelt(toks, i, TokenKind::KwReturn), TokenKind::Semicolon),
        StmtKindModel::While(c, b) => {
            let a = spelt_operand(toks, spelt(toks, i, TokenKind::KwWhile), c, print::ends_in_type_name(c));
            spelt_block(toks, a, *b.it)
        },
        StmtKindModel::If(..) => -1,
        StmtKindModel::Break => spelt(toks, spelt(toks, i, TokenKind::KwBreak), TokenKind::Semicolon),
        StmtKindModel::Continue => spelt(toks, spelt(toks, i, TokenKind::KwContinue), TokenKind::Semicolon),
    }
}

/// The first `k` fields of a struct.
#[verifier::opaque]
pub open spec fn spelt_fields(toks: Seq<TokenModel>, i: int, fs: Seq<(Seq<char>, TypeModel, Span)>, k: int) -> int
    decreases k,
{
    if k <= 0 || k > fs.len() {
        i
    } else {
        let a = spelt(toks, spelt_name(toks, spelt_fields(toks, i, fs, k - 1), fs[k - 1].0), TokenKind::Colon);
        spelt(toks, spelt_type(toks, a, fs[k - 1].1), TokenKind::Comma)
    }
}

/// A declaration.
#[verifier::opaque]
pub open spec fn spelt_decl(toks: Seq<TokenModel>, i: int, d: DeclModel) -> int {
    match d {
        DeclModel::Fn(f) => {
            let a = spelt(toks, spelt_name(toks, spelt(toks, i, TokenKind::KwFn), f.name), TokenKind::LParen);
            let b = spelt(toks, spelt_params(toks, a, f.params, f.params.len() as int), TokenKind::RParen);
            let c = if f.ret is Nil {
                b
            } else {
                spelt_type(toks, spelt(toks, b, TokenKind::Arrow), f.ret)
            };
            spelt_block(toks, c, f.body)
        },
        DeclModel::Struct(s) => {
            let a = spelt(toks, spelt_name(toks, spelt(toks, i, TokenKind::KwStruct), s.name), TokenKind::LBrace);
            spelt(toks, spelt_fields(toks, a, s.fields, s.fields.len() as int), TokenKind::RBrace)
        },
        DeclModel::Const(c) => {
            let a = spelt(toks, spelt_name(toks, spelt(toks, i, TokenKind::KwConst), c.name), TokenKind::Colon);
            let b = spelt(toks, spelt_type(toks, a, c.ty), TokenKind::Assign);
            spelt(toks, spelt_expr(toks, b, c.init), TokenKind::Semicolon)
        },
    }
}

/// The first `k` declarations.
#[verifier::opaque]
pub open spec fn spelt_decls(toks: Seq<TokenModel>, i: int, ds: Seq<DeclModel>, k: int) -> int
    decreases k,
{
    if k <= 0 || k > ds.len() {
        i
    } else {
        spelt_decl(toks, spelt_decls(toks, i, ds, k - 1), ds[k - 1])
    }
}

// --- laws ------------------------------------------------------------------------------

/// What is printed of a module reads back as the module, but for the places where things
/// stand, and without a complaint.
pub proof fn law_printed_modules_read_back(file: FileId, m: ModuleModel)
    requires
        legible(m),
    ensures
        ({
            let (again, complaints) = compile::parsed_source(file, encode_utf8(print::printed(m)));
            bare(again) == bare(m) && complaints.len() == 0
        }),
{
    let t = print::printed(m);
    writing::lemma_write_module(file, m);
    reading::lemma_read_module(lex::lexed(file, encode_utf8(t), 0).0, m);
}

/// What is read without a complaint can be printed.
pub proof fn law_read_modules_are_legible(file: FileId, b: Seq<u8>)
    requires
        compile::parsed_source(file, b).1.len() == 0,
    ensures
        legible(compile::parsed_source(file, b).0),
{
    legibility::lemma_lexed(file, b, 0);
    legibility::lemma_parsed(lex::lexed(file, b, 0).0);
}

/// Printing reaches a fixed point: text that was read without a complaint is printed as text
/// that reads back as the same module, and that prints as itself.
pub proof fn law_printing_reaches_a_fixed_point(file: FileId, b: Seq<u8>, other: FileId)
    requires
        compile::parsed_source(file, b).1.len() == 0,
    ensures
        ({
            let m = compile::parsed_source(file, b).0;
            let t = print::printed(m);
            let (again, complaints) = compile::parsed_source(other, encode_utf8(t));
            bare(again) == bare(m) && complaints.len() == 0 && print::printed(again) == t
        }),
{
    let m = compile::parsed_source(file, b).0;
    law_read_modules_are_legible(file, b);
    law_printed_modules_read_back(other, m);
    structure::law_print_shows_structure(compile::parsed_source(other, encode_utf8(print::printed(m))).0, m);
}

} // verus!
