//! Tokens that spell a tree are parsed to it.

use super::{
    bare, bare_block, bare_decl, bare_expr, bare_exprs, bare_fields, bare_inits, bare_pairs, bare_params, bare_stmt,
    bare_stmts, legible, legible_block, legible_decl, legible_expr, legible_exprs, legible_inits, legible_note,
    legible_pairs, legible_params, legible_stmt, legible_stmts, legible_type, legible_types, operator_kind, spelt,
    spelt_block, spelt_comma, spelt_decl, spelt_decls, spelt_expr, spelt_exprs, spelt_fields, spelt_inits, spelt_name,
    spelt_note, spelt_operand, spelt_pairs, spelt_params, spelt_stmt, spelt_stmts, spelt_type, spelt_types, word,
};
use crate::ast::{
    BlockModel, DeclModel, ExprKindModel, ExprModel, ParamModel, StmtKindModel, StmtModel, TypeModel, UnOp,
};
use crate::lex::{TokenKind, TokenModel};
use crate::parse;
use crate::parse::{after, done, infix, kind_at, Body, Item, Res, St};
use crate::print;
use crate::source::Span;
use vstd::prelude::*;

verus! {

// --- positions -------------------------------------------------------------------------

#[verifier::spinoff_prover]
proof fn lemma_on_type(toks: Seq<TokenModel>, i: int, t: TypeModel)
    requires
        spelt_type(toks, i, t) >= 0,
    ensures
        0 <= i < spelt_type(toks, i, t),
    decreases t, 0int,
{
    reveal(spelt_type);
    reveal(spelt_types);
    match t {
        TypeModel::Query(x) => {
            lemma_on_type(toks, spelt(toks, spelt_name(toks, i, "Query"@), TokenKind::Lt), *x.it);
        },
        TypeModel::Res(x) => {
            lemma_on_type(toks, spelt(toks, spelt_name(toks, i, "Res"@), TokenKind::Lt), *x.it);
        },
        TypeModel::ResMut(x) => {
            lemma_on_type(toks, spelt(toks, spelt_name(toks, i, "ResMut"@), TokenKind::Lt), *x.it);
        },
        TypeModel::Array(x) => {
            lemma_on_type(toks, spelt(toks, spelt_name(toks, i, "Array"@), TokenKind::Lt), *x.it);
        },
        TypeModel::Dict(k, v) => {
            let a = spelt(toks, spelt_name(toks, i, "Map"@), TokenKind::Lt);
            let b = spelt_type(toks, a, *k.it);
            lemma_on_type(toks, spelt(toks, b, TokenKind::Comma), *v.it);
            lemma_on_type(toks, a, *k.it);
        },
        TypeModel::Fn(ps, r) => {
            let a = spelt(toks, spelt(toks, i, TokenKind::KwFn), TokenKind::LParen);
            let b = spelt_types(toks, a, ps, ps.len() as int);
            lemma_on_type(toks, spelt(toks, spelt(toks, b, TokenKind::RParen), TokenKind::Arrow), *r.it);
            lemma_on_types(toks, a, ps, ps.len() as int);
        },
        _ => {},
    }
}

#[verifier::spinoff_prover]
proof fn lemma_on_types(toks: Seq<TokenModel>, i: int, ts: Seq<TypeModel>, k: int)
    requires
        spelt_types(toks, i, ts, k) >= 0,
    ensures
        0 <= i <= spelt_types(toks, i, ts, k),
    decreases ts, k,
{
    reveal(spelt_types);
    reveal(spelt_type);
    if 0 < k <= ts.len() {
        lemma_on_type(toks, spelt_comma(toks, spelt_types(toks, i, ts, k - 1), k), ts[k - 1]);
        lemma_on_types(toks, i, ts, k - 1);
    }
}

proof fn lemma_on_note(toks: Seq<TokenModel>, i: int, t: TypeModel)
    requires
        spelt_note(toks, i, t) >= 0,
    ensures
        0 <= i <= spelt_note(toks, i, t),
        !(t is Unknown) ==> kind_at(toks, i) is Colon,
{
    if !(t is Unknown) {
        lemma_on_type(toks, spelt(toks, i, TokenKind::Colon), t);
    }
}

#[verifier::spinoff_prover]
proof fn lemma_on_params(toks: Seq<TokenModel>, i: int, ps: Seq<ParamModel>, k: int)
    requires
        spelt_params(toks, i, ps, k) >= 0,
    ensures
        0 <= i <= spelt_params(toks, i, ps, k),
    decreases k,
{
    reveal(spelt_params);
    if 0 < k <= ps.len() {
        let a = spelt_comma(toks, spelt_params(toks, i, ps, k - 1), k);
        lemma_on_note(toks, spelt_name(toks, a, ps[k - 1].name), ps[k - 1].ty);
        lemma_on_params(toks, i, ps, k - 1);
    }
}

#[verifier::spinoff_prover]
proof fn lemma_on_operand(toks: Seq<TokenModel>, i: int, e: ExprModel, wrap: bool)
    requires
        spelt_operand(toks, i, e, wrap) >= 0,
    ensures
        0 <= i < spelt_operand(toks, i, e, wrap),
    decreases e, 1int,
{
    reveal(spelt_operand);
    reveal(spelt_expr);
    if wrap {
        lemma_on_expr(toks, spelt(toks, i, TokenKind::LParen), e);
    } else {
        lemma_on_expr(toks, i, e);
    }
}

#[verifier::spinoff_prover]
proof fn lemma_on_expr(toks: Seq<TokenModel>, i: int, e: ExprModel)
    requires
        spelt_expr(toks, i, e) >= 0,
    ensures
        0 <= i < spelt_expr(toks, i, e),
    decreases e, 0int,
{
    reveal(spelt_expr);
    reveal(spelt_operand);
    reveal(spelt_exprs);
    reveal(spelt_inits);
    reveal(spelt_pairs);
    reveal(spelt_block);
    match e.kind {
        ExprKindModel::Binary(op, l, r) => {
            let a = spelt(toks, i, TokenKind::LParen);
            let w = print::open_ended(*l.it);
            let b = spelt_operand(toks, a, *l.it, w);
            lemma_on_expr(toks, spelt(toks, b, operator_kind(op)), *r.it);
            lemma_on_operand(toks, a, *l.it, w);
        },
        ExprKindModel::Unary(op, x) => {
            let k = if op == UnOp::Neg {
                TokenKind::Minus
            } else {
                TokenKind::Bang
            };
            lemma_on_expr(toks, spelt(toks, i, k), *x.it);
        },
        ExprKindModel::Call(c, args) => {
            let a = spelt_operand(toks, i, *c.it, print::loose(*c.it));
            lemma_on_exprs(toks, spelt(toks, a, TokenKind::LParen), args, args.len() as int);
            lemma_on_operand(toks, i, *c.it, print::loose(*c.it));
        },
        ExprKindModel::Field(x, n) => {
            lemma_on_operand(toks, i, *x.it, print::loose(*x.it));
        },
        ExprKindModel::Index(x, j) => {
            let a = spelt_operand(toks, i, *x.it, print::loose(*x.it));
            lemma_on_expr(toks, spelt(toks, a, TokenKind::LBracket), *j.it);
            lemma_on_operand(toks, i, *x.it, print::loose(*x.it));
        },
        ExprKindModel::StructLit(n, fs) => {
            let a = spelt(toks, spelt_name(toks, i, n), TokenKind::LBrace);
            lemma_on_inits(toks, a, fs, fs.len() as int);
        },
        ExprKindModel::ArrayLit(es) => {
            lemma_on_exprs(toks, spelt(toks, i, TokenKind::LBracket), es, es.len() as int);
        },
        ExprKindModel::MapLit(ps) => {
            if ps.len() > 0 {
                lemma_on_pairs(toks, spelt(toks, i, TokenKind::LBracket), ps, ps.len() as int);
            }
        },
        ExprKindModel::Closure(ps, b) => {
            let a = spelt(toks, i, TokenKind::Pipe);
            let c = spelt_params(toks, a, ps, ps.len() as int);
            lemma_on_expr(toks, spelt(toks, c, TokenKind::Pipe), *b.it);
            lemma_on_params(toks, a, ps, ps.len() as int);
        },
        ExprKindModel::Block(b) => {
            lemma_on_block(toks, i, *b.it);
        },
        ExprKindModel::If(c, yes, no) => {
            let a = spelt(toks, i, TokenKind::KwIf);
            let w = print::ends_in_type_name(*c.it);
            let b = spelt_operand(toks, a, *c.it, w);
            let d = spelt_block(toks, b, *yes.it);
            if let Some(x) = no {
                lemma_on_block(toks, spelt(toks, d, TokenKind::KwElse), *x.it);
            }
            lemma_on_block(toks, b, *yes.it);
            lemma_on_operand(toks, a, *c.it, w);
        },
        _ => {},
    }
}

#[verifier::spinoff_prover]
proof fn lemma_on_exprs(toks: Seq<TokenModel>, i: int, es: Seq<ExprModel>, k: int)
    requires
        spelt_exprs(toks, i, es, k) >= 0,
    ensures
        0 <= i <= spelt_exprs(toks, i, es, k),
    decreases es, k,
{
    reveal(spelt_exprs);
    reveal(spelt_expr);
    if 0 < k <= es.len() {
        lemma_on_expr(toks, spelt_comma(toks, spelt_exprs(toks, i, es, k - 1), k), es[k - 1]);
        lemma_on_exprs(toks, i, es, k - 1);
    }
}

#[verifier::spinoff_prover]
proof fn lemma_on_inits(toks: Seq<TokenModel>, i: int, fs: Seq<(Seq<char>, ExprModel)>, k: int)
    requires
        spelt_inits(toks, i, fs, k) >= 0,
    ensures
        0 <= i <= spelt_inits(toks, i, fs, k),
    decreases fs, k,
{
    reveal(spelt_inits);
    reveal(spelt_expr);
    if 0 < k <= fs.len() {
        assert(decreases_to!(fs => fs[k - 1]));
        assert(decreases_to!(fs[k - 1] => fs[k - 1].1));
        let a = spelt_comma(toks, spelt_inits(toks, i, fs, k - 1), k);
        lemma_on_expr(toks, spelt(toks, spelt_name(toks, a, fs[k - 1].0), TokenKind::Colon), fs[k - 1].1);
        lemma_on_inits(toks, i, fs, k - 1);
    }
}

#[verifier::spinoff_prover]
proof fn lemma_on_pairs(toks: Seq<TokenModel>, i: int, ps: Seq<(ExprModel, ExprModel)>, k: int)
    requires
        spelt_pairs(toks, i, ps, k) >= 0,
    ensures
        0 <= i <= spelt_pairs(toks, i, ps, k),
    decreases ps, k,
{
    reveal(spelt_pairs);
    reveal(spelt_expr);
    if 0 < k <= ps.len() {
        assert(decreases_to!(ps => ps[k - 1]));
        assert(decreases_to!(ps[k - 1] => ps[k - 1].0));
        assert(decreases_to!(ps[k - 1] => ps[k - 1].1));
        let a = spelt_comma(toks, spelt_pairs(toks, i, ps, k - 1), k);
        let b = spelt_expr(toks, a, ps[k - 1].0);
        lemma_on_expr(toks, spelt(toks, b, TokenKind::FatArrow), ps[k - 1].1);
        lemma_on_expr(toks, a, ps[k - 1].0);
        lemma_on_pairs(toks, i, ps, k - 1);
    }
}

#[verifier::spinoff_prover]
proof fn lemma_on_block(toks: Seq<TokenModel>, i: int, b: BlockModel)
    requires
        spelt_block(toks, i, b) >= 0,
    ensures
        0 <= i < spelt_block(toks, i, b),
    decreases b, 0int,
{
    reveal(spelt_block);
    reveal(spelt_stmts);
    reveal(spelt_expr);
    let o = spelt(toks, i, TokenKind::LBrace);
    let a = spelt_stmts(toks, o, b.stmts, b.stmts.len() as int);
    if let Some(t) = b.tail {
        lemma_on_expr(toks, a, t);
    }
    lemma_on_stmts(toks, o, b.stmts, b.stmts.len() as int);
}

#[verifier::spinoff_prover]
proof fn lemma_on_stmts(toks: Seq<TokenModel>, i: int, ss: Seq<StmtModel>, k: int)
    requires
        spelt_stmts(toks, i, ss, k) >= 0,
    ensures
        0 <= i <= spelt_stmts(toks, i, ss, k),
    decreases ss, k,
{
    reveal(spelt_stmts);
    reveal(spelt_stmt);
    if 0 < k <= ss.len() {
        lemma_on_stmt(toks, spelt_stmts(toks, i, ss, k - 1), ss[k - 1]);
        lemma_on_stmts(toks, i, ss, k - 1);
    }
}

#[verifier::spinoff_prover]
proof fn lemma_on_stmt(toks: Seq<TokenModel>, i: int, st: StmtModel)
    requires
        spelt_stmt(toks, i, st) >= 0,
    ensures
        0 <= i < spelt_stmt(toks, i, st),
    decreases st, 0int,
{
    reveal(spelt_stmt);
    reveal(spelt_expr);
    reveal(spelt_operand);
    reveal(spelt_block);
    match st.kind {
        StmtKindModel::Let { name, ty, mutable, init } => {
            let a = spelt(toks, i, TokenKind::KwLet);
            let b = if mutable {
                spelt(toks, a, TokenKind::KwMut)
            } else {
                a
            };
            let c = spelt_note(toks, spelt_name(toks, b, name), ty);
            lemma_on_expr(toks, spelt(toks, c, TokenKind::Assign), init);
            lemma_on_note(toks, spelt_name(toks, b, name), ty);
        },
        StmtKindModel::Assign(p, v) => {
            lemma_on_expr(toks, spelt(toks, spelt_expr(toks, i, p), TokenKind::Assign), v);
            lemma_on_expr(toks, i, p);
        },
        StmtKindModel::Expr(e) => {
            lemma_on_expr(toks, i, e);
        },
        StmtKindModel::Return(Some(v)) => {
            lemma_on_expr(toks, spelt(toks, i, TokenKind::KwReturn), v);
        },
        StmtKindModel::While(c, b) => {
            let a = spelt(toks, i, TokenKind::KwWhile);
            let w = print::ends_in_type_name(c);
            lemma_on_block(toks, spelt_operand(toks, a, c, w), *b.it);
            lemma_on_operand(toks, a, c, w);
        },
        _ => {},
    }
}

#[verifier::spinoff_prover]
proof fn lemma_on_fields(toks: Seq<TokenModel>, i: int, fs: Seq<(Seq<char>, TypeModel, Span)>, k: int)
    requires
        spelt_fields(toks, i, fs, k) >= 0,
    ensures
        0 <= i <= spelt_fields(toks, i, fs, k),
    decreases k,
{
    reveal(spelt_fields);
    if 0 < k <= fs.len() {
        let a = spelt(toks, spelt_name(toks, spelt_fields(toks, i, fs, k - 1), fs[k - 1].0), TokenKind::Colon);
        lemma_on_type(toks, a, fs[k - 1].1);
        lemma_on_fields(toks, i, fs, k - 1);
    }
}

#[verifier::spinoff_prover]
proof fn lemma_on_decl(toks: Seq<TokenModel>, i: int, d: DeclModel)
    requires
        spelt_decl(toks, i, d) >= 0,
    ensures
        0 <= i < spelt_decl(toks, i, d),
    decreases 0int,
{
    reveal(spelt_decl);
    match d {
        DeclModel::Fn(f) => {
            let a = spelt(toks, spelt_name(toks, spelt(toks, i, TokenKind::KwFn), f.name), TokenKind::LParen);
            let p = spelt_params(toks, a, f.params, f.params.len() as int);
            let b = spelt(toks, p, TokenKind::RParen);
            if f.ret is Nil {
                lemma_on_block(toks, b, f.body);
            } else {
                let t = spelt(toks, b, TokenKind::Arrow);
                lemma_on_block(toks, spelt_type(toks, t, f.ret), f.body);
                lemma_on_type(toks, t, f.ret);
            }
            lemma_on_params(toks, a, f.params, f.params.len() as int);
        },
        DeclModel::Struct(s) => {
            let a = spelt(toks, spelt_name(toks, spelt(toks, i, TokenKind::KwStruct), s.name), TokenKind::LBrace);
            lemma_on_fields(toks, a, s.fields, s.fields.len() as int);
        },
        DeclModel::Const(c) => {
            let a = spelt(toks, spelt_name(toks, spelt(toks, i, TokenKind::KwConst), c.name), TokenKind::Colon);
            let b = spelt(toks, spelt_type(toks, a, c.ty), TokenKind::Assign);
            lemma_on_expr(toks, b, c.init);
            lemma_on_type(toks, a, c.ty);
        },
    }
}

/// The element at `k` of a list that is spelt stands where the one before it ends.
proof fn lemma_types_at(toks: Seq<TokenModel>, i: int, xs: Seq<TypeModel>, k: int, n: int)
    requires
        spelt_types(toks, i, xs, n) >= 0,
        0 <= k < n <= xs.len(),
    ensures
        spelt_types(toks, i, xs, k + 1) >= 0,
        spelt_types(toks, i, xs, k) >= 0,
    decreases n,
{
    reveal(spelt_types);
    reveal(spelt_type);
    if k < n - 1 {
        lemma_on_type(toks, spelt_comma(toks, spelt_types(toks, i, xs, n - 1), n), xs[n - 1]);
        lemma_types_at(toks, i, xs, k, n - 1);
    } else {
        lemma_on_type(toks, spelt_comma(toks, spelt_types(toks, i, xs, n - 1), n), xs[n - 1]);
    }
}

/// The element at `k` of a list that is spelt stands where the one before it ends.
proof fn lemma_params_at(toks: Seq<TokenModel>, i: int, xs: Seq<ParamModel>, k: int, n: int)
    requires
        spelt_params(toks, i, xs, n) >= 0,
        0 <= k < n <= xs.len(),
    ensures
        spelt_params(toks, i, xs, k + 1) >= 0,
        spelt_params(toks, i, xs, k) >= 0,
    decreases n,
{
    reveal(spelt_params);
    if k < n - 1 {
        lemma_on_note(
            toks,
            spelt_name(toks, spelt_comma(toks, spelt_params(toks, i, xs, n - 1), n), xs[n - 1].name),
            xs[n - 1].ty,
        );
        lemma_params_at(toks, i, xs, k, n - 1);
    } else {
        lemma_on_note(
            toks,
            spelt_name(toks, spelt_comma(toks, spelt_params(toks, i, xs, n - 1), n), xs[n - 1].name),
            xs[n - 1].ty,
        );
    }
}

/// The element at `k` of a list that is spelt stands where the one before it ends.
proof fn lemma_exprs_at(toks: Seq<TokenModel>, i: int, xs: Seq<ExprModel>, k: int, n: int)
    requires
        spelt_exprs(toks, i, xs, n) >= 0,
        0 <= k < n <= xs.len(),
    ensures
        spelt_exprs(toks, i, xs, k + 1) >= 0,
        spelt_exprs(toks, i, xs, k) >= 0,
    decreases n,
{
    reveal(spelt_exprs);
    reveal(spelt_expr);
    if k < n - 1 {
        lemma_on_expr(toks, spelt_comma(toks, spelt_exprs(toks, i, xs, n - 1), n), xs[n - 1]);
        lemma_exprs_at(toks, i, xs, k, n - 1);
    } else {
        lemma_on_expr(toks, spelt_comma(toks, spelt_exprs(toks, i, xs, n - 1), n), xs[n - 1]);
    }
}

/// The element at `k` of a list that is spelt stands where the one before it ends.
proof fn lemma_inits_at(toks: Seq<TokenModel>, i: int, xs: Seq<(Seq<char>, ExprModel)>, k: int, n: int)
    requires
        spelt_inits(toks, i, xs, n) >= 0,
        0 <= k < n <= xs.len(),
    ensures
        spelt_inits(toks, i, xs, k + 1) >= 0,
        spelt_inits(toks, i, xs, k) >= 0,
    decreases n,
{
    reveal(spelt_inits);
    reveal(spelt_expr);
    if k < n - 1 {
        lemma_on_expr(
            toks,
            spelt(
                toks,
                spelt_name(toks, spelt_comma(toks, spelt_inits(toks, i, xs, n - 1), n), xs[n - 1].0),
                TokenKind::Colon,
            ),
            xs[n - 1].1,
        );
        lemma_inits_at(toks, i, xs, k, n - 1);
    } else {
        lemma_on_expr(
            toks,
            spelt(
                toks,
                spelt_name(toks, spelt_comma(toks, spelt_inits(toks, i, xs, n - 1), n), xs[n - 1].0),
                TokenKind::Colon,
            ),
            xs[n - 1].1,
        );
    }
}

/// The element at `k` of a list that is spelt stands where the one before it ends.
proof fn lemma_pairs_at(toks: Seq<TokenModel>, i: int, xs: Seq<(ExprModel, ExprModel)>, k: int, n: int)
    requires
        spelt_pairs(toks, i, xs, n) >= 0,
        0 <= k < n <= xs.len(),
    ensures
        spelt_pairs(toks, i, xs, k + 1) >= 0,
        spelt_pairs(toks, i, xs, k) >= 0,
    decreases n,
{
    reveal(spelt_pairs);
    reveal(spelt_expr);
    if k < n - 1 {
        let a = spelt_comma(toks, spelt_pairs(toks, i, xs, n - 1), n);
        lemma_on_expr(toks, spelt(toks, spelt_expr(toks, a, xs[n - 1].0), TokenKind::FatArrow), xs[n - 1].1);
        lemma_on_expr(toks, a, xs[n - 1].0);
        lemma_pairs_at(toks, i, xs, k, n - 1);
    } else {
        let a = spelt_comma(toks, spelt_pairs(toks, i, xs, n - 1), n);
        lemma_on_expr(toks, spelt(toks, spelt_expr(toks, a, xs[n - 1].0), TokenKind::FatArrow), xs[n - 1].1);
        lemma_on_expr(toks, a, xs[n - 1].0);
    }
}

/// The element at `k` of a list that is spelt stands where the one before it ends.
proof fn lemma_stmts_at(toks: Seq<TokenModel>, i: int, xs: Seq<StmtModel>, k: int, n: int)
    requires
        spelt_stmts(toks, i, xs, n) >= 0,
        0 <= k < n <= xs.len(),
    ensures
        spelt_stmts(toks, i, xs, k + 1) >= 0,
        spelt_stmts(toks, i, xs, k) >= 0,
    decreases n,
{
    reveal(spelt_stmts);
    reveal(spelt_stmt);
    if k < n - 1 {
        lemma_on_stmt(toks, spelt_stmts(toks, i, xs, n - 1), xs[n - 1]);
        lemma_stmts_at(toks, i, xs, k, n - 1);
    } else {
        lemma_on_stmt(toks, spelt_stmts(toks, i, xs, n - 1), xs[n - 1]);
    }
}

/// The element at `k` of a list that is spelt stands where the one before it ends.
proof fn lemma_fields_at(toks: Seq<TokenModel>, i: int, xs: Seq<(Seq<char>, TypeModel, Span)>, k: int, n: int)
    requires
        spelt_fields(toks, i, xs, n) >= 0,
        0 <= k < n <= xs.len(),
    ensures
        spelt_fields(toks, i, xs, k + 1) >= 0,
        spelt_fields(toks, i, xs, k) >= 0,
    decreases n,
{
    reveal(spelt_fields);
    if k < n - 1 {
        lemma_on_type(
            toks,
            spelt(toks, spelt_name(toks, spelt_fields(toks, i, xs, n - 1), xs[n - 1].0), TokenKind::Colon),
            xs[n - 1].1,
        );
        lemma_fields_at(toks, i, xs, k, n - 1);
    } else {
        lemma_on_type(
            toks,
            spelt(toks, spelt_name(toks, spelt_fields(toks, i, xs, n - 1), xs[n - 1].0), TokenKind::Colon),
            xs[n - 1].1,
        );
    }
}

/// The element at `k` of a list that is spelt stands where the one before it ends.
proof fn lemma_decls_at(toks: Seq<TokenModel>, i: int, xs: Seq<DeclModel>, k: int, n: int)
    requires
        spelt_decls(toks, i, xs, n) >= 0,
        0 <= k < n <= xs.len(),
    ensures
        spelt_decls(toks, i, xs, k + 1) >= 0,
        spelt_decls(toks, i, xs, k) >= 0,
    decreases n,
{
    reveal(spelt_decls);
    if k < n - 1 {
        lemma_on_decl(toks, spelt_decls(toks, i, xs, n - 1), xs[n - 1]);
        lemma_decls_at(toks, i, xs, k, n - 1);
    } else {
        lemma_on_decl(toks, spelt_decls(toks, i, xs, n - 1), xs[n - 1]);
    }
}

proof fn lemma_legible_types(xs: Seq<TypeModel>, k: int, n: int)
    requires
        legible_types(xs, n),
        0 <= k < n <= xs.len(),
    ensures
        legible_type(xs[k]),
    decreases n,
{
    reveal(legible_types);
    reveal(legible_type);
    if k < n - 1 {
        lemma_legible_types(xs, k, n - 1);
    }
}

proof fn lemma_legible_exprs(xs: Seq<ExprModel>, k: int, n: int)
    requires
        legible_exprs(xs, n),
        0 <= k < n <= xs.len(),
    ensures
        legible_expr(xs[k]),
    decreases n,
{
    reveal(legible_exprs);
    reveal(legible_expr);
    if k < n - 1 {
        lemma_legible_exprs(xs, k, n - 1);
    }
}

proof fn lemma_legible_inits(xs: Seq<(Seq<char>, ExprModel)>, k: int, n: int)
    requires
        legible_inits(xs, n),
        0 <= k < n <= xs.len(),
    ensures
        word(xs[k].0) && legible_expr(xs[k].1),
    decreases n,
{
    reveal(legible_inits);
    reveal(legible_expr);
    if k < n - 1 {
        lemma_legible_inits(xs, k, n - 1);
    }
}

proof fn lemma_legible_pairs(xs: Seq<(ExprModel, ExprModel)>, k: int, n: int)
    requires
        legible_pairs(xs, n),
        0 <= k < n <= xs.len(),
    ensures
        legible_expr(xs[k].0) && legible_expr(xs[k].1),
    decreases n,
{
    reveal(legible_pairs);
    reveal(legible_expr);
    if k < n - 1 {
        lemma_legible_pairs(xs, k, n - 1);
    }
}

proof fn lemma_legible_stmts(xs: Seq<StmtModel>, k: int, n: int)
    requires
        legible_stmts(xs, n),
        0 <= k < n <= xs.len(),
    ensures
        legible_stmt(xs[k]),
    decreases n,
{
    reveal(legible_stmts);
    reveal(legible_stmt);
    if k < n - 1 {
        lemma_legible_stmts(xs, k, n - 1);
    }
}

/// What comes behind does not matter.
proof fn lemma_bare_exprs(a: Seq<ExprModel>, b: Seq<ExprModel>, k: int)
    requires
        0 <= k <= a.len(),
        k <= b.len(),
        forall|i: int| 0 <= i < k ==> a[i] == b[i],
    ensures
        bare_exprs(a, k) == bare_exprs(b, k),
    decreases k,
{
    reveal(bare_exprs);
    reveal(bare_expr);
    if k > 0 {
        lemma_bare_exprs(a, b, k - 1);
    }
}

/// One element more.
proof fn lemma_bare_exprs_push(acc: Seq<ExprModel>, x: ExprModel, xs: Seq<ExprModel>)
    requires
        acc.len() < xs.len(),
        bare_exprs(acc, acc.len() as int) == bare_exprs(xs, acc.len() as int),
        bare_expr(x) == bare_expr(xs[acc.len() as int]),
    ensures
        bare_exprs(acc.push(x), acc.len() as int + 1) == bare_exprs(xs, acc.len() as int + 1),
{
    reveal(bare_exprs);
    reveal(bare_expr);
    lemma_bare_exprs(acc, acc.push(x), acc.len() as int);
    assert(acc.push(x)[acc.len() as int] == x);
}

/// What comes behind does not matter.
proof fn lemma_bare_inits(a: Seq<(Seq<char>, ExprModel)>, b: Seq<(Seq<char>, ExprModel)>, k: int)
    requires
        0 <= k <= a.len(),
        k <= b.len(),
        forall|i: int| 0 <= i < k ==> a[i] == b[i],
    ensures
        bare_inits(a, k) == bare_inits(b, k),
    decreases k,
{
    reveal(bare_inits);
    reveal(bare_expr);
    if k > 0 {
        lemma_bare_inits(a, b, k - 1);
    }
}

/// One element more.
proof fn lemma_bare_inits_push(acc: Seq<(Seq<char>, ExprModel)>, x: (Seq<char>, ExprModel), xs: Seq<(Seq<char>, ExprModel)>)
    requires
        acc.len() < xs.len(),
        bare_inits(acc, acc.len() as int) == bare_inits(xs, acc.len() as int),
        x.0 == xs[acc.len() as int].0 && bare_expr(x.1) == bare_expr(xs[acc.len() as int].1),
    ensures
        bare_inits(acc.push(x), acc.len() as int + 1) == bare_inits(xs, acc.len() as int + 1),
{
    reveal(bare_inits);
    reveal(bare_expr);
    lemma_bare_inits(acc, acc.push(x), acc.len() as int);
    assert(acc.push(x)[acc.len() as int] == x);
}

/// What comes behind does not matter.
proof fn lemma_bare_pairs(a: Seq<(ExprModel, ExprModel)>, b: Seq<(ExprModel, ExprModel)>, k: int)
    requires
        0 <= k <= a.len(),
        k <= b.len(),
        forall|i: int| 0 <= i < k ==> a[i] == b[i],
    ensures
        bare_pairs(a, k) == bare_pairs(b, k),
    decreases k,
{
    reveal(bare_pairs);
    reveal(bare_expr);
    if k > 0 {
        lemma_bare_pairs(a, b, k - 1);
    }
}

/// One element more.
proof fn lemma_bare_pairs_push(acc: Seq<(ExprModel, ExprModel)>, x: (ExprModel, ExprModel), xs: Seq<(ExprModel, ExprModel)>)
    requires
        acc.len() < xs.len(),
        bare_pairs(acc, acc.len() as int) == bare_pairs(xs, acc.len() as int),
        bare_expr(x.0) == bare_expr(xs[acc.len() as int].0) && bare_expr(x.1) == bare_expr(xs[acc.len() as int].1),
    ensures
        bare_pairs(acc.push(x), acc.len() as int + 1) == bare_pairs(xs, acc.len() as int + 1),
{
    reveal(bare_pairs);
    reveal(bare_expr);
    lemma_bare_pairs(acc, acc.push(x), acc.len() as int);
    assert(acc.push(x)[acc.len() as int] == x);
}

/// What comes behind does not matter.
proof fn lemma_bare_stmts(a: Seq<StmtModel>, b: Seq<StmtModel>, k: int)
    requires
        0 <= k <= a.len(),
        k <= b.len(),
        forall|i: int| 0 <= i < k ==> a[i] == b[i],
    ensures
        bare_stmts(a, k) == bare_stmts(b, k),
    decreases k,
{
    reveal(bare_stmts);
    reveal(bare_stmt);
    if k > 0 {
        lemma_bare_stmts(a, b, k - 1);
    }
}

/// One element more.
proof fn lemma_bare_stmts_push(acc: Seq<StmtModel>, x: StmtModel, xs: Seq<StmtModel>)
    requires
        acc.len() < xs.len(),
        bare_stmts(acc, acc.len() as int) == bare_stmts(xs, acc.len() as int),
        bare_stmt(x) == bare_stmt(xs[acc.len() as int]),
    ensures
        bare_stmts(acc.push(x), acc.len() as int + 1) == bare_stmts(xs, acc.len() as int + 1),
{
    reveal(bare_stmts);
    reveal(bare_stmt);
    lemma_bare_stmts(acc, acc.push(x), acc.len() as int);
    assert(acc.push(x)[acc.len() as int] == x);
}

// --- types and parameters --------------------------------------------------------------

/// Whether a rule that starts at `s` gives `v` and ends at `j`, without a complaint.
spec fn gives<T>(s: St, r: Res<T>, j: int, v: T) -> bool {
    r.val == Some(v) && r.used == j - s.pos && r.diags == s.diags
}

/// The names of the built-in types are read as them.
proof fn lemma_type_names()
    ensures
        parse::simple_type("bool"@) == Some(TypeModel::Bool),
        parse::simple_type("i32"@) == Some(TypeModel::I32),
        parse::simple_type("i64"@) == Some(TypeModel::I64),
        parse::simple_type("f32"@) == Some(TypeModel::F32),
        parse::simple_type("f64"@) == Some(TypeModel::F64),
        parse::simple_type("str"@) == Some(TypeModel::Str),
        parse::simple_type("Entity"@) == Some(TypeModel::Entity),
        parse::simple_type("Query"@) is None,
        parse::simple_type("Res"@) is None,
        parse::simple_type("ResMut"@) is None,
        parse::simple_type("Array"@) is None,
        parse::simple_type("Map"@) is None,
        forall|t: TypeModel| #[trigger]
            parse::wrapped_type("Query"@, t) == Some(TypeModel::Query(crate::ast::node(t))),
        forall|t: TypeModel| #[trigger] parse::wrapped_type("Res"@, t) == Some(TypeModel::Res(crate::ast::node(t))),
        forall|t: TypeModel| #[trigger]
            parse::wrapped_type("ResMut"@, t) == Some(TypeModel::ResMut(crate::ast::node(t))),
        forall|t: TypeModel| #[trigger]
            parse::wrapped_type("Array"@, t) == Some(TypeModel::Array(crate::ast::node(t))),
        forall|t: TypeModel| #[trigger] parse::wrapped_type("Map"@, t) is None,
{
    reveal(parse::simple_type);
    reveal(parse::wrapped_type);
    reveal_strlit("i32");
    reveal_strlit("i64");
    reveal_strlit("f32");
    reveal_strlit("f64");
    reveal_strlit("bool");
    reveal_strlit("str");
    reveal_strlit("nil");
    reveal_strlit("Entity");
    reveal_strlit("Query");
    reveal_strlit("Res");
    reveal_strlit("ResMut");
    reveal_strlit("Array");
    reveal_strlit("Map");
    assert("i32"@[1] == '3' && "i32"@[2] == '2' && "i64"@[1] == '6' && "f32"@[1] == '3' && "f64"@[1] == '6');
    assert("i32"@[0] == 'i' && "i64"@[0] == 'i' && "f32"@[0] == 'f' && "f64"@[0] == 'f');
    assert("bool"@[0] == 'b' && "str"@[0] == 's' && "nil"@[0] == 'n' && "Entity"@[0] == 'E');
    assert("Res"@.len() == 3 && "ResMut"@.len() == 6);
    assert("Query"@[0] == 'Q' && "Res"@[0] == 'R' && "ResMut"@[0] == 'R' && "Array"@[0] == 'A' && "Map"@[0] == 'M');
}

/// A type of one argument, once the argument can be read.
#[verifier::spinoff_prover]
proof fn lemma_read_wrapped(toks: Seq<TokenModel>, s: St, n: Seq<char>, x: TypeModel)
    requires
        spelt_name(toks, s.pos, n) >= 0,
        kind_at(toks, s.pos + 1) is Lt,
        spelt_type(toks, s.pos + 2, x) >= s.pos + 2,
        gives(
            St { pos: s.pos + 2, diags: s.diags },
            parse::p_type(toks, St { pos: s.pos + 2, diags: s.diags }),
            spelt_type(toks, s.pos + 2, x),
            x,
        ),
        kind_at(toks, spelt_type(toks, s.pos + 2, x)) is Gt,
        parse::simple_type(n) is None,
        parse::wrapped_type(n, TypeModel::Nil) is Some,
        parse::wrapped_type(n, x) is Some,
    ensures
        gives(s, parse::p_type(toks, s), spelt_type(toks, s.pos + 2, x) + 1, parse::wrapped_type(n, x)->0),
{
    reveal(parse::p_type);
    reveal(parse::p_type_args);
    reveal(parse::p_result);
}

#[verifier::spinoff_prover]
#[verifier::rlimit(30)]
proof fn lemma_read_dict(toks: Seq<TokenModel>, s: St, k: TypeModel, v: TypeModel)
    requires
        spelt_name(toks, s.pos, "Map"@) >= 0,
        kind_at(toks, s.pos + 1) is Lt,
        ({
            let b = spelt_type(toks, s.pos + 2, k);
            let d = spelt_type(toks, b + 1, v);
            &&& s.pos + 2 <= b
            &&& kind_at(toks, b) is Comma
            &&& b + 1 <= d
            &&& kind_at(toks, d) is Gt
            &&& gives(St { pos: s.pos + 2, diags: s.diags }, parse::p_type(toks, St { pos: s.pos + 2, diags: s.diags }), b, k)
            &&& gives(St { pos: b + 1, diags: s.diags }, parse::p_type(toks, St { pos: b + 1, diags: s.diags }), d, v)
        }),
    ensures
        gives(
            s,
            parse::p_type(toks, s),
            spelt_type(toks, spelt_type(toks, s.pos + 2, k) + 1, v) + 1,
            TypeModel::Dict(crate::ast::node(k), crate::ast::node(v)),
        ),
{
    reveal(parse::p_type);
    reveal(parse::p_type_args);
    reveal(parse::p_result);
    lemma_type_names();
}

#[verifier::spinoff_prover]
#[verifier::rlimit(30)]
proof fn lemma_read_fn_type(toks: Seq<TokenModel>, s: St, ps: Seq<TypeModel>, b: int, r: TypeModel, j: int)
    requires
        kind_at(toks, s.pos) is KwFn,
        kind_at(toks, s.pos + 1) is LParen,
        kind_at(toks, b) is RParen,
        kind_at(toks, b + 1) is Arrow,
        s.pos + 2 <= b,
        b + 2 <= j,
        gives(
            St { pos: s.pos + 2, diags: s.diags },
            parse::p_type_args(toks, St { pos: s.pos + 2, diags: s.diags }),
            b,
            ps,
        ),
        gives(St { pos: b + 2, diags: s.diags }, parse::p_type(toks, St { pos: b + 2, diags: s.diags }), j, r),
    ensures
        gives(s, parse::p_type(toks, s), j, TypeModel::Fn(ps, crate::ast::node(r))),
{
    reveal(parse::p_type);
    reveal(parse::p_type_args);
    reveal(parse::p_result);
    let sb = St { pos: b + 1, diags: s.diags };
    assert(gives(sb, parse::p_result(toks, sb), j, r));
}

#[verifier::spinoff_prover]
#[verifier::rlimit(60)]
proof fn lemma_read_type(toks: Seq<TokenModel>, s: St, t: TypeModel)
    requires
        spelt_type(toks, s.pos, t) >= 0,
        legible_type(t),
    ensures
        gives(s, parse::p_type(toks, s), spelt_type(toks, s.pos, t), t),
    decreases t, 0int,
{
    reveal(spelt_type);
    reveal(spelt_types);
    reveal(legible_type);
    reveal(legible_types);
    lemma_type_names();
    let i = s.pos;
    let a = i + 2;
    let sa = St { pos: a, diags: s.diags };
    match t {
        TypeModel::Query(x) => {
            lemma_on_type(toks, spelt(toks, spelt_name(toks, i, "Query"@), TokenKind::Lt), *x.it);
            lemma_read_type(toks, sa, *x.it);
            lemma_read_wrapped(toks, s, "Query"@, *x.it);
        },
        TypeModel::Res(x) => {
            lemma_on_type(toks, spelt(toks, spelt_name(toks, i, "Res"@), TokenKind::Lt), *x.it);
            lemma_read_type(toks, sa, *x.it);
            lemma_read_wrapped(toks, s, "Res"@, *x.it);
        },
        TypeModel::ResMut(x) => {
            lemma_on_type(toks, spelt(toks, spelt_name(toks, i, "ResMut"@), TokenKind::Lt), *x.it);
            lemma_read_type(toks, sa, *x.it);
            lemma_read_wrapped(toks, s, "ResMut"@, *x.it);
        },
        TypeModel::Array(x) => {
            lemma_on_type(toks, spelt(toks, spelt_name(toks, i, "Array"@), TokenKind::Lt), *x.it);
            lemma_read_type(toks, sa, *x.it);
            lemma_read_wrapped(toks, s, "Array"@, *x.it);
        },
        TypeModel::Dict(k, v) => {
            let o = spelt(toks, spelt_name(toks, i, "Map"@), TokenKind::Lt);
            let b = spelt_type(toks, o, *k.it);
            let c = spelt(toks, b, TokenKind::Comma);
            lemma_on_type(toks, c, *v.it);
            lemma_on_type(toks, o, *k.it);
            lemma_read_type(toks, sa, *k.it);
            lemma_read_type(toks, St { pos: c, diags: s.diags }, *v.it);
            lemma_read_dict(toks, s, *k.it, *v.it);
        },
        TypeModel::Fn(ps, r) => {
            let o = spelt(toks, spelt(toks, i, TokenKind::KwFn), TokenKind::LParen);
            let b = spelt_types(toks, o, ps, ps.len() as int);
            let c = spelt(toks, spelt(toks, b, TokenKind::RParen), TokenKind::Arrow);
            lemma_on_type(toks, c, *r.it);
            lemma_on_types(toks, o, ps, ps.len() as int);
            reveal(parse::p_type_args);
            if ps.len() > 0 {
                assert(ps.take(0) =~= Seq::empty());
                assert(spelt_types(toks, a, ps, 0) == a);
                lemma_read_types(toks, sa, ps, 0, a);
                lemma_types_at(toks, a, ps, 0, ps.len() as int);
                lemma_legible_types(ps, 0, ps.len() as int);
                lemma_first_of_type(toks, a, ps[0]);
                assert(gives(sa, parse::p_type_args(toks, sa), b, ps)) by {
                    reveal(parse::p_types);
                }
            } else {
                assert(ps =~= Seq::empty());
                assert(gives(sa, parse::p_type_args(toks, sa), b, ps));
            }
            lemma_read_type(toks, St { pos: c, diags: s.diags }, *r.it);
            lemma_read_fn_type(toks, s, ps, b, *r.it, spelt_type(toks, c, *r.it));
        },
        _ => {
            reveal(parse::p_type);
        },
    }
}

/// A type does not start with a parenthesis.
proof fn lemma_first_of_type(toks: Seq<TokenModel>, i: int, t: TypeModel)
    requires
        spelt_type(toks, i, t) >= 0,
    ensures
        kind_at(toks, i) is Ident || kind_at(toks, i) is Nil || kind_at(toks, i) is KwFn,
{
    reveal(spelt_type);
    reveal(spelt_types);
    match t {
        TypeModel::Query(x) => {
            lemma_on_type(toks, spelt(toks, spelt_name(toks, i, "Query"@), TokenKind::Lt), *x.it);
        },
        TypeModel::Res(x) => {
            lemma_on_type(toks, spelt(toks, spelt_name(toks, i, "Res"@), TokenKind::Lt), *x.it);
        },
        TypeModel::ResMut(x) => {
            lemma_on_type(toks, spelt(toks, spelt_name(toks, i, "ResMut"@), TokenKind::Lt), *x.it);
        },
        TypeModel::Array(x) => {
            lemma_on_type(toks, spelt(toks, spelt_name(toks, i, "Array"@), TokenKind::Lt), *x.it);
        },
        TypeModel::Dict(k, v) => {
            let a = spelt(toks, spelt_name(toks, i, "Map"@), TokenKind::Lt);
            lemma_on_type(toks, spelt(toks, spelt_type(toks, a, *k.it), TokenKind::Comma), *v.it);
            lemma_on_type(toks, a, *k.it);
        },
        TypeModel::Fn(ps, r) => {
            let a = spelt(toks, spelt(toks, i, TokenKind::KwFn), TokenKind::LParen);
            let b = spelt_types(toks, a, ps, ps.len() as int);
            lemma_on_type(toks, spelt(toks, spelt(toks, b, TokenKind::RParen), TokenKind::Arrow), *r.it);
            lemma_on_types(toks, a, ps, ps.len() as int);
        },
        _ => {},
    }
}

/// The rest of a list of types, from `k` on.
#[verifier::spinoff_prover]
proof fn lemma_read_types(toks: Seq<TokenModel>, s: St, ts: Seq<TypeModel>, k: int, i: int)
    requires
        0 <= k < ts.len(),
        spelt_types(toks, i, ts, ts.len() as int) >= 0,
        s.pos == spelt_comma(toks, spelt_types(toks, i, ts, k), k + 1),
        legible_types(ts, ts.len() as int),
        !(kind_at(toks, spelt_types(toks, i, ts, ts.len() as int)) is Comma),
    ensures
        gives(s, parse::p_types(toks, s, ts.take(k)), spelt_types(toks, i, ts, ts.len() as int), ts),
    decreases ts, ts.len() - k,
{
    reveal(spelt_types);
    reveal(spelt_type);
    reveal(parse::p_types);
    reveal(parse::p_type);
    let n = ts.len() as int;
    lemma_types_at(toks, i, ts, k, n);
    lemma_legible_types(ts, k, n);
    let j = spelt_types(toks, i, ts, k + 1);
    assert(j == spelt_type(toks, s.pos, ts[k]));
    lemma_on_type(toks, s.pos, ts[k]);
    lemma_read_type(toks, s, ts[k]);
    assert(ts.take(k).push(ts[k]) =~= ts.take(k + 1));
    if k + 1 < n {
        lemma_types_at(toks, i, ts, k + 1, n);
        lemma_on_type(toks, spelt_comma(toks, j, k + 2), ts[k + 1]);
        let s2 = St { pos: j + 1, diags: s.diags };
        lemma_read_types(toks, s2, ts, k + 1, i);
        lemma_types_tail(toks, i, ts, k + 2, n);
    } else {
        assert(ts.take(n) =~= ts);
    }
}

proof fn lemma_types_tail(toks: Seq<TokenModel>, i: int, ts: Seq<TypeModel>, k: int, n: int)
    requires
        spelt_types(toks, i, ts, n) >= 0,
        0 <= k <= n <= ts.len(),
    ensures
        spelt_types(toks, i, ts, k) <= spelt_types(toks, i, ts, n),
    decreases n,
{
    reveal(spelt_types);
    reveal(spelt_type);
    if k < n {
        lemma_on_type(toks, spelt_comma(toks, spelt_types(toks, i, ts, n - 1), n), ts[n - 1]);
        lemma_types_tail(toks, i, ts, k, n - 1);
    }
}

/// An annotation.
proof fn lemma_read_note(toks: Seq<TokenModel>, s: St, t: TypeModel)
    requires
        spelt_note(toks, s.pos, t) >= 0,
        legible_note(t),
        t is Unknown ==> !(kind_at(toks, s.pos) is Colon),
    ensures
        gives(s, parse::p_annotation(toks, s), spelt_note(toks, s.pos, t), t),
{
    reveal(parse::p_annotation);
    lemma_on_note(toks, s.pos, t);
    if !(t is Unknown) {
        lemma_on_type(toks, s.pos + 1, t);
        lemma_read_type(toks, St { pos: s.pos + 1, diags: s.diags }, t);
    }
}

/// The rest of a list of parameters, from `k` on.
#[verifier::spinoff_prover]
#[verifier::rlimit(40)]
proof fn lemma_read_params(toks: Seq<TokenModel>, s: St, ps: Seq<ParamModel>, k: int, i: int, acc: Seq<ParamModel>) -> (r:
    Seq<ParamModel>)
    requires
        0 <= k < ps.len(),
        spelt_params(toks, i, ps, ps.len() as int) >= 0,
        s.pos == spelt_comma(toks, spelt_params(toks, i, ps, k), k + 1),
        legible_params(ps),
        acc.len() == k,
        bare_params(acc) == bare_params(ps).take(k),
        !(kind_at(toks, spelt_params(toks, i, ps, ps.len() as int)) is Comma),
        !(kind_at(toks, spelt_params(toks, i, ps, ps.len() as int)) is Colon),
    ensures
        gives(s, parse::p_params(toks, s, acc), spelt_params(toks, i, ps, ps.len() as int), r),
        bare_params(r) == bare_params(ps),
        spelt_params(toks, i, ps, ps.len() as int) >= s.pos,
    decreases ps.len() - k,
{
    reveal(spelt_params);
    reveal(parse::p_params);
    reveal(parse::p_param);
    let n = ps.len() as int;
    let p = ps[k];
    lemma_params_at(toks, i, ps, k, n);
    let j = spelt_params(toks, i, ps, k + 1);
    let a = spelt_name(toks, s.pos, p.name);
    assert(j == spelt_note(toks, a, p.ty));
    lemma_on_note(toks, a, p.ty);
    if k + 1 < n {
        lemma_params_at(toks, i, ps, k + 1, n);
        lemma_on_note(toks, spelt_name(toks, spelt_comma(toks, j, k + 2), ps[k + 1].name), ps[k + 1].ty);
        assert(kind_at(toks, j) is Comma);
    }
    lemma_read_note(toks, St { pos: a, diags: s.diags }, p.ty);
    let x = ParamModel { name: p.name, ty: p.ty, span: toks[s.pos].span };
    assert(gives(s, parse::p_param(toks, s), j, x));
    assert(bare_params(acc.push(x)) =~= bare_params(ps).take(k + 1)) by {
        assert forall|q: int| 0 <= q < k implies bare_params(acc.push(x))[q] == bare_params(ps).take(k + 1)[q] by {
            assert(bare_params(acc)[q] == bare_params(ps).take(k)[q]);
        }
    }
    if k + 1 < n {
        let s2 = St { pos: j + 1, diags: s.diags };
        lemma_read_params(toks, s2, ps, k + 1, i, acc.push(x))
    } else {
        assert(bare_params(ps).take(n) =~= bare_params(ps));
        acc.push(x)
    }
}

/// Parameters up to a closing token.
proof fn lemma_read_all_params(toks: Seq<TokenModel>, s: St, ps: Seq<ParamModel>, close: TokenKind) -> (r: Seq<
    ParamModel,
>)
    requires
        spelt_params(toks, s.pos, ps, ps.len() as int) >= 0,
        legible_params(ps),
        close is RParen || close is Pipe,
        kind_at(toks, spelt_params(toks, s.pos, ps, ps.len() as int)) == close,
    ensures
        gives(s, parse::p_params_to(toks, s, close), spelt_params(toks, s.pos, ps, ps.len() as int), r),
        bare_params(r) == bare_params(ps),
        spelt_params(toks, s.pos, ps, ps.len() as int) >= s.pos,
{
    reveal(parse::p_params_to);
    reveal(spelt_params);
    if ps.len() > 0 {
        let n = ps.len() as int;
        lemma_params_at(toks, s.pos, ps, 0, n);
        lemma_on_note(toks, spelt_name(toks, s.pos, ps[0].name), ps[0].ty);
        assert(bare_params(Seq::empty()) =~= bare_params(ps).take(0));
        lemma_read_params(toks, s, ps, 0, s.pos, Seq::empty())
    } else {
        assert(bare_params(Seq::empty()) =~= bare_params(ps));
        Seq::empty()
    }
}

// --- expressions -----------------------------------------------------------------------

/// Whether a kind starts an expression.
spec fn opens(k: TokenKind) -> bool {
    match k {
        TokenKind::Int(_) | TokenKind::Float(_) | TokenKind::Str | TokenKind::True | TokenKind::False | TokenKind::Nil
        | TokenKind::Ident | TokenKind::LParen | TokenKind::LBracket | TokenKind::LBrace | TokenKind::KwIf | TokenKind::Pipe
        | TokenKind::Minus | TokenKind::Bang => true,
        _ => false,
    }
}

/// Whether a kind goes on with a postfix expression, or with an `if`.
spec fn goes_on(k: TokenKind) -> bool {
    k is LParen || k is Dot || k is LBracket || k is KwElse
}

/// An expression starts with a token that can start one; only prefix operators and closures
/// start with theirs.
proof fn lemma_first(toks: Seq<TokenModel>, i: int, e: ExprModel)
    requires
        spelt_expr(toks, i, e) >= 0,
    ensures
        opens(kind_at(toks, i)),
        !print::loose(e) ==> !(kind_at(toks, i) is Minus) && !(kind_at(toks, i) is Bang) && !(kind_at(toks, i) is Pipe),
    decreases e, 0int,
{
    reveal(spelt_expr);
    reveal(spelt_operand);
    reveal(spelt_exprs);
    reveal(spelt_inits);
    reveal(spelt_pairs);
    reveal(spelt_block);
    reveal(spelt_stmts);
    lemma_on_expr(toks, i, e);
    match e.kind {
        ExprKindModel::Binary(op, l, r) => {
            let a = spelt(toks, i, TokenKind::LParen);
            let w = print::open_ended(*l.it);
            lemma_on_expr(toks, spelt(toks, spelt_operand(toks, a, *l.it, w), operator_kind(op)), *r.it);
            lemma_on_operand(toks, a, *l.it, w);
        },
        ExprKindModel::Unary(op, x) => {
            let k = if op == UnOp::Neg {
                TokenKind::Minus
            } else {
                TokenKind::Bang
            };
            lemma_on_expr(toks, spelt(toks, i, k), *x.it);
        },
        ExprKindModel::Call(c, args) => {
            let a = spelt_operand(toks, i, *c.it, print::loose(*c.it));
            lemma_on_exprs(toks, spelt(toks, a, TokenKind::LParen), args, args.len() as int);
            lemma_first_operand(toks, i, *c.it);
        },
        ExprKindModel::Field(x, n) => {
            lemma_first_operand(toks, i, *x.it);
        },
        ExprKindModel::Index(x, j) => {
            let a = spelt_operand(toks, i, *x.it, print::loose(*x.it));
            lemma_on_expr(toks, spelt(toks, a, TokenKind::LBracket), *j.it);
            lemma_first_operand(toks, i, *x.it);
        },
        ExprKindModel::StructLit(n, fs) => {
            lemma_on_inits(toks, spelt(toks, spelt_name(toks, i, n), TokenKind::LBrace), fs, fs.len() as int);
        },
        ExprKindModel::ArrayLit(es) => {
            lemma_on_exprs(toks, spelt(toks, i, TokenKind::LBracket), es, es.len() as int);
        },
        ExprKindModel::MapLit(ps) => {
            if ps.len() > 0 {
                lemma_on_pairs(toks, spelt(toks, i, TokenKind::LBracket), ps, ps.len() as int);
            }
        },
        ExprKindModel::Closure(ps, b) => {
            let a = spelt(toks, i, TokenKind::Pipe);
            let c = spelt_params(toks, a, ps, ps.len() as int);
            lemma_on_expr(toks, spelt(toks, c, TokenKind::Pipe), *b.it);
            lemma_on_params(toks, a, ps, ps.len() as int);
        },
        ExprKindModel::Block(b) => {
            lemma_first_block(toks, i, *b.it);
        },
        ExprKindModel::If(c, yes, no) => {
            let a = spelt(toks, i, TokenKind::KwIf);
            let w = print::ends_in_type_name(*c.it);
            let b = spelt_operand(toks, a, *c.it, w);
            let d = spelt_block(toks, b, *yes.it);
            if let Some(x) = no {
                lemma_on_block(toks, spelt(toks, d, TokenKind::KwElse), *x.it);
            }
            lemma_on_block(toks, b, *yes.it);
            lemma_on_operand(toks, a, *c.it, w);
        },
        _ => {},
    }
}

proof fn lemma_first_block(toks: Seq<TokenModel>, i: int, b: BlockModel)
    requires
        spelt_block(toks, i, b) >= 0,
    ensures
        kind_at(toks, i) is LBrace,
{
    reveal(spelt_block);
    reveal(spelt_stmts);
    reveal(spelt_expr);
    let o = spelt(toks, i, TokenKind::LBrace);
    let a = spelt_stmts(toks, o, b.stmts, b.stmts.len() as int);
    if let Some(t) = b.tail {
        lemma_on_expr(toks, a, t);
    }
    lemma_on_stmts(toks, o, b.stmts, b.stmts.len() as int);
}

proof fn lemma_first_operand(toks: Seq<TokenModel>, i: int, e: ExprModel)
    requires
        spelt_operand(toks, i, e, print::loose(e)) >= 0,
    ensures
        opens(kind_at(toks, i)),
        !(kind_at(toks, i) is Minus) && !(kind_at(toks, i) is Bang) && !(kind_at(toks, i) is Pipe),
    decreases e, 1int,
{
    reveal(spelt_operand);
    reveal(spelt_expr);
    lemma_on_operand(toks, i, e, print::loose(e));
    if print::loose(e) {
        lemma_on_expr(toks, spelt(toks, i, TokenKind::LParen), e);
    } else {
        lemma_first(toks, i, e);
    }
}

/// `( e )`
#[verifier::spinoff_prover]
proof fn lemma_read_paren(toks: Seq<TokenModel>, s: St, e: ExprModel) -> (r: ExprModel)
    requires
        spelt_operand(toks, s.pos, e, true) >= 0,
        legible_expr(e),
    ensures
        gives(s, parse::p_atom(toks, s), spelt_operand(toks, s.pos, e, true), r),
        bare_expr(r) == bare_expr(e),
        kind_at(toks, s.pos) is LParen,
    decreases e, 4int,
{
    reveal(spelt_operand);
    reveal(spelt_expr);
    reveal(parse::p_atom);
    reveal(parse::p_paren);
    reveal(parse::p_expr);
    let a = spelt(toks, s.pos, TokenKind::LParen);
    lemma_on_expr(toks, a, e);
    lemma_read_expr(toks, St { pos: a, diags: s.diags }, e, 0)
}

/// An operand in front of a suffix: what is behind it is read as a suffix of it.
#[verifier::spinoff_prover]
proof fn lemma_read_operand(toks: Seq<TokenModel>, s: St, e: ExprModel) -> (r: ExprModel)
    requires
        spelt_operand(toks, s.pos, e, print::loose(e)) >= 0,
        legible_expr(e),
        !(kind_at(toks, spelt_operand(toks, s.pos, e, print::loose(e))) is KwElse),
        !(kind_at(toks, spelt_operand(toks, s.pos, e, print::loose(e))) is LBrace),
    ensures
        chained(toks, s, spelt_operand(toks, s.pos, e, print::loose(e)), r),
        bare_expr(r) == bare_expr(e),
    decreases e, 5int,
{
    reveal(spelt_operand);
    reveal(spelt_expr);
    lemma_on_operand(toks, s.pos, e, print::loose(e));
    if print::loose(e) {
        reveal(parse::p_postfix);
        reveal(parse::p_atom);
        reveal(parse::p_suffixes);
        lemma_read_paren(toks, s, e)
    } else {
        lemma_read_atomic(toks, s, e)
    }
}

/// Whether the postfix expression at `s` has read `r` at `j`, and goes on from there.
spec fn chained(toks: Seq<TokenModel>, s: St, j: int, r: ExprModel) -> bool {
    let t = St { pos: j, diags: s.diags };
    let q = parse::p_suffixes(toks, t, r);
    s.pos <= j && parse::p_postfix(toks, s) == done(s, after(t, q), q.val)
}

/// From an atom.
proof fn lemma_chain(toks: Seq<TokenModel>, s: St, j: int, r: ExprModel)
    requires
        gives(s, parse::p_atom(toks, s), j, r),
        s.pos <= j,
    ensures
        chained(toks, s, j, r),
{
    reveal(parse::p_postfix);
    reveal(parse::p_atom);
    reveal(parse::p_suffixes);
}

/// Over a suffix.
proof fn lemma_chain_on(toks: Seq<TokenModel>, s: St, i: int, x: ExprModel, j: int, r: ExprModel)
    requires
        chained(toks, s, i, x),
        i < j,
        kind_at(toks, i) is LParen || kind_at(toks, i) is Dot || kind_at(toks, i) is LBracket,
        gives(St { pos: i, diags: s.diags }, parse::p_suffix(toks, St { pos: i, diags: s.diags }, x), j, r),
    ensures
        chained(toks, s, j, r),
{
    reveal(parse::p_suffixes);
    reveal(parse::p_suffix);
}

/// Where nothing goes on, that was it.
proof fn lemma_chain_ends(toks: Seq<TokenModel>, s: St, j: int, r: ExprModel)
    requires
        chained(toks, s, j, r),
        !goes_on(kind_at(toks, j)),
    ensures
        gives(s, parse::p_postfix(toks, s), j, r),
{
    reveal(parse::p_suffixes);
    reveal(parse::p_suffix);
}

#[verifier::spinoff_prover]
#[verifier::rlimit(100)]
proof fn lemma_read_atomic(toks: Seq<TokenModel>, s: St, e: ExprModel) -> (r: ExprModel)
    requires
        spelt_expr(toks, s.pos, e) >= 0,
        legible_expr(e),
        !print::loose(e),
        !(kind_at(toks, spelt_expr(toks, s.pos, e)) is KwElse),
        kind_at(toks, spelt_expr(toks, s.pos, e)) is LBrace ==> !print::ends_in_type_name(e),
    ensures
        chained(toks, s, spelt_expr(toks, s.pos, e), r),
        bare_expr(r) == bare_expr(e),
    decreases e, 1int,
{
    let i = s.pos;
    let j = spelt_expr(toks, i, e);
    lemma_on_expr(toks, i, e);
    match e.kind {
        ExprKindModel::Call(c, args) => lemma_read_call(toks, s, e),
        ExprKindModel::Field(x, n) => lemma_read_field(toks, s, e),
        ExprKindModel::Index(x, y) => lemma_read_index(toks, s, e),
        ExprKindModel::Lit(l) => {
            reveal(spelt_expr);
            reveal(legible_expr);
            reveal(bare_expr);
            reveal(parse::p_atom);
            let r = parse::untyped(ExprKindModel::Lit(l), toks[i].span);
            lemma_chain(toks, s, j, r);
            r
        },
        ExprKindModel::Ident(n) => {
            reveal(spelt_expr);
            reveal(bare_expr);
            reveal(parse::p_atom);
            let r = parse::untyped(ExprKindModel::Ident(n), toks[i].span);
            lemma_chain(toks, s, j, r);
            r
        },
        ExprKindModel::Binary(op, x, y) => {
            let r = lemma_read_binary(toks, s, e);
            lemma_chain(toks, s, j, r);
            r
        },
        ExprKindModel::StructLit(n, fs) => {
            let r = lemma_read_struct(toks, s, e);
            lemma_chain(toks, s, j, r);
            r
        },
        ExprKindModel::ArrayLit(es) => {
            let r = lemma_read_array(toks, s, e);
            lemma_chain(toks, s, j, r);
            r
        },
        ExprKindModel::MapLit(ps) => {
            let r = lemma_read_map(toks, s, e);
            lemma_chain(toks, s, j, r);
            r
        },
        ExprKindModel::Block(b) => {
            reveal(spelt_expr);
            reveal(spelt_block);
            reveal(legible_expr);
            reveal(legible_block);
            reveal(bare_expr);
            reveal(bare_block);
            reveal(parse::p_atom);
            reveal(parse::p_block_expr);
            reveal(parse::p_block);
            lemma_first_block(toks, i, *b.it);
            let x = lemma_read_block(toks, s, *b.it);
            let r = parse::untyped(ExprKindModel::Block(crate::ast::node(x)), x.span);
            lemma_chain(toks, s, j, r);
            r
        },
        ExprKindModel::If(..) => {
            let r = lemma_read_if(toks, s, e);
            reveal(parse::p_atom);
            reveal(parse::p_if);
            lemma_chain(toks, s, j, r);
            r
        },
        _ => e,
    }
}

#[verifier::spinoff_prover]
#[verifier::rlimit(40)]
proof fn lemma_read_call(toks: Seq<TokenModel>, s: St, e: ExprModel) -> (r: ExprModel)
    requires
        spelt_expr(toks, s.pos, e) >= 0,
        legible_expr(e),
        e.kind is Call,
    ensures
        chained(toks, s, spelt_expr(toks, s.pos, e), r),
        bare_expr(r) == bare_expr(e),
    decreases e, 0int,
{
    reveal(spelt_expr);
    reveal(spelt_operand);
    reveal(spelt_exprs);
    reveal(legible_expr);
    reveal(legible_exprs);
    reveal(bare_expr);
    reveal(bare_exprs);
    reveal(parse::p_suffix);
    reveal(parse::p_args);
    reveal(parse::p_exprs);
    match e.kind {
        ExprKindModel::Call(c, args) => {
            let j = spelt_expr(toks, s.pos, e);
            let a = spelt_operand(toks, s.pos, *c.it, print::loose(*c.it));
            let b = spelt(toks, a, TokenKind::LParen);
            let n = args.len() as int;
            let d = spelt_exprs(toks, b, args, n);
            lemma_on_exprs(toks, b, args, n);
            let x = lemma_read_operand(toks, s, *c.it);
            let sa = St { pos: a, diags: s.diags };
            let sb = St { pos: b, diags: s.diags };
            let xs = if n > 0 {
                lemma_exprs_at(toks, b, args, 0, n);
                lemma_first(toks, b, args[0]);
                assert(bare_exprs(Seq::<ExprModel>::empty(), 0) =~= bare_exprs(args, 0));
                lemma_read_exprs(toks, sb, args, 0, b, Seq::empty())
            } else {
                assert(bare_exprs(Seq::<ExprModel>::empty(), 0) =~= bare_exprs(args, 0));
                Seq::empty()
            };
            assert(gives(sb, parse::p_args(toks, sb), d, xs));
            let r = parse::untyped(
                ExprKindModel::Call(crate::ast::node(x), xs),
                crate::source::span_join(x.span, toks[d].span),
            );
            assert(gives(sa, parse::p_suffix(toks, sa, x), j, r));
            lemma_chain_on(toks, s, a, x, j, r);
            r
        },
        _ => e,
    }
}

#[verifier::spinoff_prover]
proof fn lemma_read_field(toks: Seq<TokenModel>, s: St, e: ExprModel) -> (r: ExprModel)
    requires
        spelt_expr(toks, s.pos, e) >= 0,
        legible_expr(e),
        e.kind is Field,
    ensures
        chained(toks, s, spelt_expr(toks, s.pos, e), r),
        bare_expr(r) == bare_expr(e),
    decreases e, 0int,
{
    reveal(spelt_expr);
    reveal(spelt_operand);
    reveal(legible_expr);
    reveal(bare_expr);
    reveal(parse::p_suffix);
    match e.kind {
        ExprKindModel::Field(c, n) => {
            let j = spelt_expr(toks, s.pos, e);
            let a = spelt_operand(toks, s.pos, *c.it, print::loose(*c.it));
            let x = lemma_read_operand(toks, s, *c.it);
            let sa = St { pos: a, diags: s.diags };
            let r = parse::untyped(
                ExprKindModel::Field(crate::ast::node(x), n),
                crate::source::span_join(x.span, toks[a + 1].span),
            );
            assert(gives(sa, parse::p_suffix(toks, sa, x), j, r));
            lemma_chain_on(toks, s, a, x, j, r);
            r
        },
        _ => e,
    }
}

#[verifier::spinoff_prover]
proof fn lemma_read_index(toks: Seq<TokenModel>, s: St, e: ExprModel) -> (r: ExprModel)
    requires
        spelt_expr(toks, s.pos, e) >= 0,
        legible_expr(e),
        e.kind is Index,
    ensures
        chained(toks, s, spelt_expr(toks, s.pos, e), r),
        bare_expr(r) == bare_expr(e),
    decreases e, 0int,
{
    reveal(spelt_expr);
    reveal(spelt_operand);
    reveal(legible_expr);
    reveal(bare_expr);
    reveal(parse::p_suffix);
    reveal(parse::p_expr);
    match e.kind {
        ExprKindModel::Index(c, y) => {
            let j = spelt_expr(toks, s.pos, e);
            let a = spelt_operand(toks, s.pos, *c.it, print::loose(*c.it));
            let b = spelt(toks, a, TokenKind::LBracket);
            let d = spelt_expr(toks, b, *y.it);
            lemma_on_expr(toks, b, *y.it);
            let x = lemma_read_operand(toks, s, *c.it);
            let z = lemma_read_expr(toks, St { pos: b, diags: s.diags }, *y.it, 0);
            let sa = St { pos: a, diags: s.diags };
            let r = parse::untyped(
                ExprKindModel::Index(crate::ast::node(x), crate::ast::node(z)),
                crate::source::span_join(x.span, toks[d].span),
            );
            assert(gives(sa, parse::p_suffix(toks, sa, x), j, r));
            lemma_chain_on(toks, s, a, x, j, r);
            r
        },
        _ => e,
    }
}

#[verifier::spinoff_prover]
#[verifier::rlimit(40)]
proof fn lemma_read_binary(toks: Seq<TokenModel>, s: St, e: ExprModel) -> (r: ExprModel)
    requires
        spelt_expr(toks, s.pos, e) >= 0,
        legible_expr(e),
        e.kind is Binary,
    ensures
        gives(s, parse::p_atom(toks, s), spelt_expr(toks, s.pos, e), r),
        bare_expr(r) == bare_expr(e),
    decreases e, 0int,
{
    reveal(spelt_expr);
    reveal(spelt_operand);
    reveal(legible_expr);
    reveal(bare_expr);
    reveal(parse::p_atom);
    reveal(parse::p_paren);
    reveal(parse::p_expr);
    reveal(parse::p_unary);
    reveal(parse::p_infix);
    match e.kind {
        ExprKindModel::Binary(op, x, y) => {
            let a = spelt(toks, s.pos, TokenKind::LParen);
            let w = print::open_ended(*x.it);
            let b = spelt_operand(toks, a, *x.it, w);
            let c = spelt(toks, b, operator_kind(op));
            let d = spelt_expr(toks, c, *y.it);
            lemma_on_expr(toks, c, *y.it);
            lemma_on_operand(toks, a, *x.it, w);
            let sa = St { pos: a, diags: s.diags };
            let sb = St { pos: b, diags: s.diags };
            let sc = St { pos: c, diags: s.diags };
            let sd = St { pos: d, diags: s.diags };
            let l = if w {
                lemma_unary_paren(toks, sa, *x.it)
            } else {
                lemma_read_unary(toks, sa, *x.it)
            };
            assert(gives(sa, parse::p_unary(toks, sa), b, l));
            let (_, _, p) = infix(operator_kind(op))->0;
            let z = lemma_read_expr(toks, sc, *y.it, p);
            let r = parse::untyped(
                ExprKindModel::Binary(op, crate::ast::node(l), crate::ast::node(z)),
                crate::source::span_join(l.span, z.span),
            );
            assert(gives(sd, parse::p_infix(toks, sd, r, 0), d, r));
            assert(gives(sb, parse::p_infix(toks, sb, l, 0), d, r));
            assert(gives(sa, parse::p_expr(toks, sa, 0), d, r));
            r
        },
        _ => e,
    }
}

/// `( e )` where a prefix operator could stand.
proof fn lemma_unary_paren(toks: Seq<TokenModel>, s: St, e: ExprModel) -> (r: ExprModel)
    requires
        spelt_operand(toks, s.pos, e, true) >= 0,
        legible_expr(e),
        !goes_on(kind_at(toks, spelt_operand(toks, s.pos, e, true))),
    ensures
        gives(s, parse::p_unary(toks, s), spelt_operand(toks, s.pos, e, true), r),
        bare_expr(r) == bare_expr(e),
    decreases e, 5int,
{
    reveal(parse::p_unary);
    reveal(parse::p_postfix);
    lemma_on_operand(toks, s.pos, e, true);
    let r = lemma_read_paren(toks, s, e);
    lemma_chain(toks, s, spelt_operand(toks, s.pos, e, true), r);
    lemma_chain_ends(toks, s, spelt_operand(toks, s.pos, e, true), r);
    r
}

#[verifier::spinoff_prover]
#[verifier::rlimit(40)]
proof fn lemma_read_struct(toks: Seq<TokenModel>, s: St, e: ExprModel) -> (r: ExprModel)
    requires
        spelt_expr(toks, s.pos, e) >= 0,
        legible_expr(e),
        e.kind is StructLit,
    ensures
        gives(s, parse::p_atom(toks, s), spelt_expr(toks, s.pos, e), r),
        bare_expr(r) == bare_expr(e),
    decreases e, 0int,
{
    reveal(spelt_expr);
    reveal(spelt_inits);
    reveal(legible_expr);
    reveal(legible_inits);
    reveal(bare_expr);
    reveal(bare_inits);
    reveal(parse::p_atom);
    reveal(parse::p_struct_lit);
    reveal(parse::p_inits);
    match e.kind {
        ExprKindModel::StructLit(nm, fs) => {
            let a = spelt(toks, spelt_name(toks, s.pos, nm), TokenKind::LBrace);
            let n = fs.len() as int;
            let d = spelt_inits(toks, a, fs, n);
            lemma_on_inits(toks, a, fs, n);
            let sa = St { pos: a, diags: s.diags };
            assert(bare_inits(Seq::<(Seq<char>, ExprModel)>::empty(), 0) =~= bare_inits(fs, 0));
            let xs = if n > 0 {
                lemma_read_inits(toks, sa, fs, 0, a, Seq::empty())
            } else {
                Seq::empty()
            };
            assert(gives(sa, parse::p_inits(toks, sa, Seq::empty()), d, xs));
            parse::untyped(
                ExprKindModel::StructLit(nm, xs),
                crate::source::span_join(toks[s.pos].span, toks[d].span),
            )
        },
        _ => e,
    }
}

#[verifier::spinoff_prover]
#[verifier::rlimit(40)]
proof fn lemma_read_array(toks: Seq<TokenModel>, s: St, e: ExprModel) -> (r: ExprModel)
    requires
        spelt_expr(toks, s.pos, e) >= 0,
        legible_expr(e),
        e.kind is ArrayLit,
    ensures
        gives(s, parse::p_atom(toks, s), spelt_expr(toks, s.pos, e), r),
        bare_expr(r) == bare_expr(e),
    decreases e, 0int,
{
    reveal(spelt_expr);
    reveal(spelt_exprs);
    reveal(legible_expr);
    reveal(legible_exprs);
    reveal(bare_expr);
    reveal(bare_exprs);
    reveal(parse::p_atom);
    reveal(parse::p_bracket);
    reveal(parse::p_expr);
    reveal(parse::p_elems);
    match e.kind {
        ExprKindModel::ArrayLit(es) => {
            let a = spelt(toks, s.pos, TokenKind::LBracket);
            let n = es.len() as int;
            let d = spelt_exprs(toks, a, es, n);
            lemma_on_exprs(toks, a, es, n);
            let sa = St { pos: a, diags: s.diags };
            let span = crate::source::span_join(toks[s.pos].span, toks[d].span);
            if n > 0 {
                lemma_exprs_at(toks, a, es, 0, n);
                lemma_legible_exprs(es, 0, n);
                let b = spelt_exprs(toks, a, es, 1);
                assert(b == spelt_expr(toks, a, es[0]));
                lemma_first(toks, a, es[0]);
                lemma_on_expr(toks, a, es[0]);
                lemma_stops_exprs(toks, a, es, 1, n);
                let x = lemma_read_expr(toks, sa, es[0], 0);
                let none = Seq::<ExprModel>::empty();
                assert(bare_exprs(none, 0) =~= bare_exprs(es, 0));
                lemma_bare_exprs_push(none, x, es);
                assert(none.push(x) =~= seq![x]);
                let sb = St { pos: b, diags: s.diags };
                let xs = lemma_read_elems(toks, sb, es, 1, a, seq![x]);
                assert(gives(sb, parse::p_elems(toks, sb, seq![x]), d, xs));
                parse::untyped(ExprKindModel::ArrayLit(xs), span)
            } else {
                assert(bare_exprs(Seq::<ExprModel>::empty(), 0) =~= bare_exprs(es, 0));
                parse::untyped(ExprKindModel::ArrayLit(Seq::empty()), span)
            }
        },
        _ => e,
    }
}

#[verifier::spinoff_prover]
#[verifier::rlimit(60)]
proof fn lemma_read_map(toks: Seq<TokenModel>, s: St, e: ExprModel) -> (r: ExprModel)
    requires
        spelt_expr(toks, s.pos, e) >= 0,
        legible_expr(e),
        e.kind is MapLit,
    ensures
        gives(s, parse::p_atom(toks, s), spelt_expr(toks, s.pos, e), r),
        bare_expr(r) == bare_expr(e),
    decreases e, 0int,
{
    reveal(spelt_expr);
    reveal(spelt_pairs);
    reveal(legible_expr);
    reveal(legible_pairs);
    reveal(bare_expr);
    reveal(bare_pairs);
    reveal(parse::p_atom);
    reveal(parse::p_bracket);
    reveal(parse::p_expr);
    reveal(parse::p_pairs);
    match e.kind {
        ExprKindModel::MapLit(ps) => {
            let a = spelt(toks, s.pos, TokenKind::LBracket);
            let n = ps.len() as int;
            let sa = St { pos: a, diags: s.diags };
            if n > 0 {
                assert(decreases_to!(ps => ps[0]));
                assert(decreases_to!(ps[0] => ps[0].0));
                assert(decreases_to!(ps[0] => ps[0].1));
                let d = spelt_pairs(toks, a, ps, n);
                lemma_on_pairs(toks, a, ps, n);
                lemma_pairs_at(toks, a, ps, 0, n);
                lemma_legible_pairs(ps, 0, n);
                let m = spelt_expr(toks, a, ps[0].0);
                let v = spelt(toks, m, TokenKind::FatArrow);
                let b = spelt_pairs(toks, a, ps, 1);
                assert(b == spelt_expr(toks, v, ps[0].1));
                lemma_on_expr(toks, v, ps[0].1);
                lemma_on_expr(toks, a, ps[0].0);
                lemma_first(toks, a, ps[0].0);
                lemma_stops_pairs(toks, a, ps, 1, n);
                let x = lemma_read_expr(toks, sa, ps[0].0, 0);
                let y = lemma_read_expr(toks, St { pos: v, diags: s.diags }, ps[0].1, 0);
                let none = Seq::<(ExprModel, ExprModel)>::empty();
                assert(bare_pairs(none, 0) =~= bare_pairs(ps, 0));
                lemma_bare_pairs_push(none, (x, y), ps);
                assert(none.push((x, y)) =~= seq![(x, y)]);
                let sb = St { pos: b, diags: s.diags };
                let xs = lemma_read_entries(toks, sb, ps, 1, a, seq![(x, y)]);
                assert(gives(sb, parse::p_pairs(toks, sb, seq![(x, y)]), d, xs));
                parse::untyped(
                    ExprKindModel::MapLit(xs),
                    crate::source::span_join(toks[s.pos].span, toks[d].span),
                )
            } else {
                assert(bare_pairs(Seq::<(ExprModel, ExprModel)>::empty(), 0) =~= bare_pairs(ps, 0));
                parse::untyped(
                    ExprKindModel::MapLit(Seq::empty()),
                    crate::source::span_join(toks[s.pos].span, toks[s.pos + 2].span),
                )
            }
        },
        _ => e,
    }
}

/// Behind an element of a list stands a comma, or what is behind the list.
proof fn lemma_stops_exprs(toks: Seq<TokenModel>, i: int, es: Seq<ExprModel>, k: int, n: int)
    requires
        spelt_exprs(toks, i, es, n) >= 0,
        0 <= k <= n <= es.len(),
    ensures
        k < n ==> kind_at(toks, spelt_exprs(toks, i, es, k)) is Comma || k == 0,
        spelt_exprs(toks, i, es, k) <= spelt_exprs(toks, i, es, n),
    decreases n,
{
    reveal(spelt_exprs);
    reveal(spelt_expr);
    if k < n {
        lemma_on_expr(toks, spelt_comma(toks, spelt_exprs(toks, i, es, n - 1), n), es[n - 1]);
        lemma_stops_exprs(toks, i, es, k, n - 1);
    }
}

proof fn lemma_stops_inits(toks: Seq<TokenModel>, i: int, fs: Seq<(Seq<char>, ExprModel)>, k: int, n: int)
    requires
        spelt_inits(toks, i, fs, n) >= 0,
        0 <= k <= n <= fs.len(),
    ensures
        k < n ==> kind_at(toks, spelt_inits(toks, i, fs, k)) is Comma || k == 0,
        spelt_inits(toks, i, fs, k) <= spelt_inits(toks, i, fs, n),
    decreases n,
{
    reveal(spelt_inits);
    reveal(spelt_expr);
    if k < n {
        let a = spelt_comma(toks, spelt_inits(toks, i, fs, n - 1), n);
        lemma_on_expr(toks, spelt(toks, spelt_name(toks, a, fs[n - 1].0), TokenKind::Colon), fs[n - 1].1);
        lemma_stops_inits(toks, i, fs, k, n - 1);
    }
}

proof fn lemma_stops_pairs(toks: Seq<TokenModel>, i: int, ps: Seq<(ExprModel, ExprModel)>, k: int, n: int)
    requires
        spelt_pairs(toks, i, ps, n) >= 0,
        0 <= k <= n <= ps.len(),
    ensures
        k < n ==> kind_at(toks, spelt_pairs(toks, i, ps, k)) is Comma || k == 0,
        spelt_pairs(toks, i, ps, k) <= spelt_pairs(toks, i, ps, n),
    decreases n,
{
    reveal(spelt_pairs);
    reveal(spelt_expr);
    if k < n {
        let a = spelt_comma(toks, spelt_pairs(toks, i, ps, n - 1), n);
        lemma_on_expr(toks, spelt(toks, spelt_expr(toks, a, ps[n - 1].0), TokenKind::FatArrow), ps[n - 1].1);
        lemma_on_expr(toks, a, ps[n - 1].0);
        lemma_stops_pairs(toks, i, ps, k, n - 1);
    }
}

/// The rest of the arguments of a call, from `k` on.
#[verifier::spinoff_prover]
#[verifier::rlimit(40)]
proof fn lemma_read_exprs(toks: Seq<TokenModel>, s: St, es: Seq<ExprModel>, k: int, i: int, acc: Seq<ExprModel>) -> (r: Seq<
    ExprModel,
>)
    requires
        0 <= k < es.len(),
        spelt_exprs(toks, i, es, es.len() as int) >= 0,
        s.pos == spelt_comma(toks, spelt_exprs(toks, i, es, k), k + 1),
        legible_exprs(es, es.len() as int),
        acc.len() == k,
        bare_exprs(acc, k) == bare_exprs(es, k),
        kind_at(toks, spelt_exprs(toks, i, es, es.len() as int)) is RParen,
    ensures
        gives(s, parse::p_exprs(toks, s, acc), spelt_exprs(toks, i, es, es.len() as int), r),
        r.len() == es.len(),
        bare_exprs(r, r.len() as int) == bare_exprs(es, es.len() as int),
    decreases es, es.len() - k,
{
    reveal(spelt_exprs);
    reveal(spelt_expr);
    reveal(parse::p_exprs);
    reveal(parse::p_expr);
    let n = es.len() as int;
    lemma_exprs_at(toks, i, es, k, n);
    lemma_legible_exprs(es, k, n);
    lemma_stops_exprs(toks, i, es, k + 1, n);
    let j = spelt_exprs(toks, i, es, k + 1);
    assert(j == spelt_expr(toks, s.pos, es[k]));
    lemma_on_expr(toks, s.pos, es[k]);
    let x = lemma_read_expr(toks, s, es[k], 0);
    lemma_bare_exprs_push(acc, x, es);
    if k + 1 < n {
        lemma_read_exprs(toks, St { pos: j + 1, diags: s.diags }, es, k + 1, i, acc.push(x))
    } else {
        acc.push(x)
    }
}

/// The rest of the elements of an array, from `k` on.
#[verifier::spinoff_prover]
#[verifier::rlimit(40)]
proof fn lemma_read_elems(toks: Seq<TokenModel>, s: St, es: Seq<ExprModel>, k: int, i: int, acc: Seq<ExprModel>) -> (r: Seq<
    ExprModel,
>)
    requires
        0 < k <= es.len(),
        spelt_exprs(toks, i, es, es.len() as int) >= 0,
        s.pos == spelt_exprs(toks, i, es, k),
        legible_exprs(es, es.len() as int),
        acc.len() == k,
        bare_exprs(acc, k) == bare_exprs(es, k),
        kind_at(toks, spelt_exprs(toks, i, es, es.len() as int)) is RBracket,
    ensures
        gives(s, parse::p_elems(toks, s, acc), spelt_exprs(toks, i, es, es.len() as int), r),
        r.len() == es.len(),
        bare_exprs(r, r.len() as int) == bare_exprs(es, es.len() as int),
    decreases es, es.len() - k,
{
    reveal(spelt_exprs);
    reveal(spelt_expr);
    reveal(parse::p_elems);
    reveal(parse::p_expr);
    let n = es.len() as int;
    lemma_stops_exprs(toks, i, es, k, n);
    if k < n {
        lemma_exprs_at(toks, i, es, k, n);
        lemma_legible_exprs(es, k, n);
        lemma_stops_exprs(toks, i, es, k + 1, n);
        let j = spelt_exprs(toks, i, es, k + 1);
        let s1 = St { pos: s.pos + 1, diags: s.diags };
        assert(j == spelt_expr(toks, s1.pos, es[k]));
        lemma_on_expr(toks, s1.pos, es[k]);
        lemma_first(toks, s1.pos, es[k]);
        let x = lemma_read_expr(toks, s1, es[k], 0);
        lemma_bare_exprs_push(acc, x, es);
        lemma_read_elems(toks, St { pos: j, diags: s.diags }, es, k + 1, i, acc.push(x))
    } else {
        acc
    }
}

/// The rest of the entries of a map, from `k` on.
#[verifier::spinoff_prover]
#[verifier::rlimit(40)]
proof fn lemma_read_entries(
    toks: Seq<TokenModel>,
    s: St,
    ps: Seq<(ExprModel, ExprModel)>,
    k: int,
    i: int,
    acc: Seq<(ExprModel, ExprModel)>,
) -> (r: Seq<(ExprModel, ExprModel)>)
    requires
        0 < k <= ps.len(),
        spelt_pairs(toks, i, ps, ps.len() as int) >= 0,
        s.pos == spelt_pairs(toks, i, ps, k),
        legible_pairs(ps, ps.len() as int),
        acc.len() == k,
        bare_pairs(acc, k) == bare_pairs(ps, k),
        kind_at(toks, spelt_pairs(toks, i, ps, ps.len() as int)) is RBracket,
    ensures
        gives(s, parse::p_pairs(toks, s, acc), spelt_pairs(toks, i, ps, ps.len() as int), r),
        r.len() == ps.len(),
        bare_pairs(r, r.len() as int) == bare_pairs(ps, ps.len() as int),
    decreases ps, ps.len() - k,
{
    reveal(spelt_pairs);
    reveal(spelt_expr);
    reveal(parse::p_pairs);
    reveal(parse::p_expr);
    let n = ps.len() as int;
    lemma_stops_pairs(toks, i, ps, k, n);
    if k < n {
        assert(decreases_to!(ps => ps[k]));
        assert(decreases_to!(ps[k] => ps[k].0));
        assert(decreases_to!(ps[k] => ps[k].1));
        lemma_pairs_at(toks, i, ps, k, n);
        lemma_legible_pairs(ps, k, n);
        lemma_stops_pairs(toks, i, ps, k + 1, n);
        let j = spelt_pairs(toks, i, ps, k + 1);
        let s1 = St { pos: s.pos + 1, diags: s.diags };
        let m = spelt_expr(toks, s1.pos, ps[k].0);
        let v = spelt(toks, m, TokenKind::FatArrow);
        assert(j == spelt_expr(toks, v, ps[k].1));
        lemma_on_expr(toks, v, ps[k].1);
        lemma_on_expr(toks, s1.pos, ps[k].0);
        lemma_first(toks, s1.pos, ps[k].0);
        let x = lemma_read_expr(toks, s1, ps[k].0, 0);
        let y = lemma_read_expr(toks, St { pos: v, diags: s.diags }, ps[k].1, 0);
        lemma_bare_pairs_push(acc, (x, y), ps);
        lemma_read_entries(toks, St { pos: j, diags: s.diags }, ps, k + 1, i, acc.push((x, y)))
    } else {
        acc
    }
}

/// The rest of the fields of a struct literal, from `k` on.
#[verifier::spinoff_prover]
#[verifier::rlimit(40)]
proof fn lemma_read_inits(
    toks: Seq<TokenModel>,
    s: St,
    fs: Seq<(Seq<char>, ExprModel)>,
    k: int,
    i: int,
    acc: Seq<(Seq<char>, ExprModel)>,
) -> (r: Seq<(Seq<char>, ExprModel)>)
    requires
        0 <= k < fs.len(),
        spelt_inits(toks, i, fs, fs.len() as int) >= 0,
        s.pos == spelt_comma(toks, spelt_inits(toks, i, fs, k), k + 1),
        legible_inits(fs, fs.len() as int),
        acc.len() == k,
        bare_inits(acc, k) == bare_inits(fs, k),
        kind_at(toks, spelt_inits(toks, i, fs, fs.len() as int)) is RBrace,
    ensures
        gives(s, parse::p_inits(toks, s, acc), spelt_inits(toks, i, fs, fs.len() as int), r),
        r.len() == fs.len(),
        bare_inits(r, r.len() as int) == bare_inits(fs, fs.len() as int),
    decreases fs, fs.len() - k,
{
    reveal(spelt_inits);
    reveal(spelt_expr);
    reveal(parse::p_inits);
    reveal(parse::p_expr);
    let n = fs.len() as int;
    assert(decreases_to!(fs => fs[k]));
    assert(decreases_to!(fs[k] => fs[k].1));
    lemma_inits_at(toks, i, fs, k, n);
    lemma_legible_inits(fs, k, n);
    lemma_stops_inits(toks, i, fs, k + 1, n);
    let j = spelt_inits(toks, i, fs, k + 1);
    let v = spelt(toks, spelt_name(toks, s.pos, fs[k].0), TokenKind::Colon);
    assert(j == spelt_expr(toks, v, fs[k].1));
    lemma_on_expr(toks, v, fs[k].1);
    let x = lemma_read_expr(toks, St { pos: v, diags: s.diags }, fs[k].1, 0);
    lemma_bare_inits_push(acc, (fs[k].0, x), fs);
    if k + 1 < n {
        lemma_read_inits(toks, St { pos: j + 1, diags: s.diags }, fs, k + 1, i, acc.push((fs[k].0, x)))
    } else {
        acc.push((fs[k].0, x))
    }
}

/// The condition of an `if` or a loop.
#[verifier::spinoff_prover]
proof fn lemma_read_condition(toks: Seq<TokenModel>, s: St, c: ExprModel) -> (r: ExprModel)
    requires
        spelt_operand(toks, s.pos, c, print::ends_in_type_name(c)) >= 0,
        legible_expr(c),
        kind_at(toks, spelt_operand(toks, s.pos, c, print::ends_in_type_name(c))) is LBrace,
    ensures
        gives(s, parse::p_expr(toks, s, 0), spelt_operand(toks, s.pos, c, print::ends_in_type_name(c)), r),
        bare_expr(r) == bare_expr(c),
    decreases c, 6int,
{
    reveal(spelt_operand);
    reveal(spelt_expr);
    lemma_on_operand(toks, s.pos, c, print::ends_in_type_name(c));
    if print::ends_in_type_name(c) {
        reveal(parse::p_expr);
        reveal(parse::p_unary);
        reveal(parse::p_infix);
        lemma_unary_paren(toks, s, c)
    } else {
        lemma_read_expr(toks, s, c, 0)
    }
}

#[verifier::spinoff_prover]
#[verifier::rlimit(60)]
proof fn lemma_read_if(toks: Seq<TokenModel>, s: St, e: ExprModel) -> (r: ExprModel)
    requires
        spelt_expr(toks, s.pos, e) >= 0,
        legible_expr(e),
        e.kind is If,
        !(kind_at(toks, spelt_expr(toks, s.pos, e)) is KwElse),
    ensures
        gives(s, parse::p_if(toks, s), spelt_expr(toks, s.pos, e), r),
        bare_expr(r) == bare_expr(e),
        kind_at(toks, s.pos) is KwIf,
    decreases e, 0int,
{
    reveal(spelt_expr);
    reveal(spelt_operand);
    reveal(spelt_block);
    reveal(legible_expr);
    reveal(legible_block);
    reveal(bare_expr);
    reveal(bare_block);
    reveal(parse::p_if);
    reveal(parse::p_expr);
    reveal(parse::p_block);
    match e.kind {
        ExprKindModel::If(c, yes, no) => {
            let a = spelt(toks, s.pos, TokenKind::KwIf);
            let w = print::ends_in_type_name(*c.it);
            let b = spelt_operand(toks, a, *c.it, w);
            let d = spelt_block(toks, b, *yes.it);
            let j = spelt_expr(toks, s.pos, e);
            if let Some(x) = no {
                lemma_on_block(toks, spelt(toks, d, TokenKind::KwElse), *x.it);
            }
            lemma_on_block(toks, b, *yes.it);
            lemma_on_operand(toks, a, *c.it, w);
            lemma_first_block(toks, b, *yes.it);
            let x = lemma_read_condition(toks, St { pos: a, diags: s.diags }, *c.it);
            let y = lemma_read_block(toks, St { pos: b, diags: s.diags }, *yes.it);
            let span = crate::source::span_join(toks[s.pos].span, y.span);
            match no {
                Some(z) => {
                    lemma_first_block(toks, d + 1, *z.it);
                    let q = lemma_read_block(toks, St { pos: d + 1, diags: s.diags }, *z.it);
                    parse::untyped(
                        ExprKindModel::If(crate::ast::node(x), crate::ast::node(y), Some(crate::ast::node(q))),
                        crate::source::span_join(span, q.span),
                    )
                },
                None => parse::untyped(ExprKindModel::If(crate::ast::node(x), crate::ast::node(y), None), span),
            }
        },
        _ => e,
    }
}

#[verifier::spinoff_prover]
#[verifier::rlimit(60)]
proof fn lemma_read_unary(toks: Seq<TokenModel>, s: St, e: ExprModel) -> (r: ExprModel)
    requires
        spelt_expr(toks, s.pos, e) >= 0,
        legible_expr(e),
        !goes_on(kind_at(toks, spelt_expr(toks, s.pos, e))),
        print::open_ended(e) ==> infix(kind_at(toks, spelt_expr(toks, s.pos, e))) is None,
        kind_at(toks, spelt_expr(toks, s.pos, e)) is LBrace ==> !print::ends_in_type_name(e),
    ensures
        gives(s, parse::p_unary(toks, s), spelt_expr(toks, s.pos, e), r),
        bare_expr(r) == bare_expr(e),
    decreases e, 2int,
{
    let i = s.pos;
    let j = spelt_expr(toks, i, e);
    lemma_on_expr(toks, i, e);
    lemma_first(toks, i, e);
    match e.kind {
        ExprKindModel::Unary(op, x) => {
            reveal(spelt_expr);
            reveal(legible_expr);
            reveal(bare_expr);
            reveal(parse::p_unary);
            let k = if op == UnOp::Neg {
                TokenKind::Minus
            } else {
                TokenKind::Bang
            };
            let a = spelt(toks, i, k);
            lemma_on_expr(toks, a, *x.it);
            let y = lemma_read_unary(toks, St { pos: a, diags: s.diags }, *x.it);
            parse::untyped(
                ExprKindModel::Unary(op, crate::ast::node(y)),
                crate::source::span_join(toks[i].span, y.span),
            )
        },
        ExprKindModel::Closure(ps, b) => {
            reveal(spelt_expr);
            reveal(legible_expr);
            reveal(bare_expr);
            reveal(parse::p_unary);
            reveal(parse::p_postfix);
            reveal(parse::p_atom);
            reveal(parse::p_closure);
            reveal(parse::p_expr);
            let a = spelt(toks, i, TokenKind::Pipe);
            let c = spelt_params(toks, a, ps, ps.len() as int);
            let d = spelt(toks, c, TokenKind::Pipe);
            lemma_on_expr(toks, d, *b.it);
            lemma_on_params(toks, a, ps, ps.len() as int);
            let qs = lemma_read_all_params(toks, St { pos: a, diags: s.diags }, ps, TokenKind::Pipe);
            let y = lemma_read_expr(toks, St { pos: d, diags: s.diags }, *b.it, 0);
            let r = parse::untyped(
                ExprKindModel::Closure(qs, crate::ast::node(y)),
                crate::source::span_join(toks[i].span, y.span),
            );
            assert(gives(s, parse::p_atom(toks, s), j, r));
            lemma_chain(toks, s, j, r);
            lemma_chain_ends(toks, s, j, r);
            r
        },
        _ => {
            reveal(parse::p_unary);
            reveal(parse::p_postfix);
            let r = lemma_read_atomic(toks, s, e);
            lemma_chain_ends(toks, s, j, r);
            r
        },
    }
}

/// A whole expression, where nothing behind it goes on with it.
#[verifier::spinoff_prover]
proof fn lemma_read_expr(toks: Seq<TokenModel>, s: St, e: ExprModel, min: u8) -> (r: ExprModel)
    requires
        spelt_expr(toks, s.pos, e) >= 0,
        legible_expr(e),
        !goes_on(kind_at(toks, spelt_expr(toks, s.pos, e))),
        infix(kind_at(toks, spelt_expr(toks, s.pos, e))) is None,
        kind_at(toks, spelt_expr(toks, s.pos, e)) is LBrace ==> !print::ends_in_type_name(e),
    ensures
        gives(s, parse::p_expr(toks, s, min), spelt_expr(toks, s.pos, e), r),
        bare_expr(r) == bare_expr(e),
    decreases e, 3int,
{
    lemma_on_expr(toks, s.pos, e);
    let r = lemma_read_unary(toks, s, e);
    reveal(parse::p_expr);
    reveal(parse::p_unary);
    reveal(parse::p_infix);
    r
}

// --- statements ------------------------------------------------------------------------

#[verifier::spinoff_prover]
#[verifier::rlimit(40)]
proof fn lemma_read_block(toks: Seq<TokenModel>, s: St, b: BlockModel) -> (r: BlockModel)
    requires
        spelt_block(toks, s.pos, b) >= 0,
        legible_block(b),
    ensures
        gives(s, parse::p_block(toks, s), spelt_block(toks, s.pos, b), r),
        bare_block(r) == bare_block(b),
    decreases b, 3int,
{
    reveal(spelt_block);
    reveal(spelt_stmts);
    reveal(spelt_expr);
    reveal(bare_block);
    reveal(bare_stmts);
    reveal(bare_expr);
    reveal(parse::p_block);
    reveal(parse::p_body);
    let a = spelt(toks, s.pos, TokenKind::LBrace);
    let j = spelt_block(toks, s.pos, b);
    lemma_on_block(toks, s.pos, b);
    lemma_first_block(toks, s.pos, b);
    let sa = St { pos: a, diags: s.diags };
    let none = Seq::<StmtModel>::empty();
    assert(bare_stmts(none, 0) =~= bare_stmts(b.stmts, 0));
    let body = lemma_read_body(toks, sa, b, 0, a, none);
    assert(gives(sa, parse::p_body(toks, sa, none), j - 1, body));
    BlockModel {
        stmts: body.stmts,
        tail: body.tail,
        span: crate::source::span_join(toks[s.pos].span, toks[j - 1].span),
    }
}

/// The rest of a block, from statement `k` on.
#[verifier::spinoff_prover]
#[verifier::rlimit(60)]
proof fn lemma_read_body(toks: Seq<TokenModel>, s: St, b: BlockModel, k: int, i: int, acc: Seq<StmtModel>) -> (r: Body)
    requires
        0 <= k <= b.stmts.len(),
        i > 0,
        spelt_block(toks, i - 1, b) >= 0,
        s.pos == spelt_stmts(toks, i, b.stmts, k),
        legible_block(b),
        acc.len() == k,
        bare_stmts(acc, k) == bare_stmts(b.stmts, k),
    ensures
        gives(s, parse::p_body(toks, s, acc), spelt_block(toks, i - 1, b) - 1, r),
        spelt_block(toks, i - 1, b) - 1 >= s.pos,
        r.stmts.len() == b.stmts.len(),
        bare_stmts(r.stmts, r.stmts.len() as int) == bare_stmts(b.stmts, b.stmts.len() as int),
        r.tail is Some <==> b.tail is Some,
        b.tail is Some ==> bare_expr(r.tail->0) == bare_expr(b.tail->0),
    decreases b, 2int, b.stmts.len() - k,
{
    reveal(spelt_block);
    reveal(spelt_stmts);
    reveal(spelt_stmt);
    reveal(spelt_expr);
    reveal(legible_block);
    reveal(legible_stmts);
    reveal(legible_expr);
    reveal(parse::p_body);
    reveal(parse::p_item);
    let n = b.stmts.len() as int;
    let e = spelt_stmts(toks, i, b.stmts, n);
    lemma_first_block(toks, i - 1, b);
    assert(spelt(toks, i - 1, TokenKind::LBrace) == i);
    if let Some(t) = b.tail {
        lemma_on_expr(toks, e, t);
    }
    lemma_on_stmts(toks, i, b.stmts, n);
    if k < n {
        lemma_stmts_at(toks, i, b.stmts, k, n);
        lemma_legible_stmts(b.stmts, k, n);
        assert(decreases_to!(b => b.stmts));
        assert(decreases_to!(b.stmts => b.stmts[k]));
        lemma_on_stmt(toks, s.pos, b.stmts[k]);
        let x = lemma_read_stmt(toks, s, b.stmts[k]);
        lemma_bare_stmts_push(acc, x, b.stmts);
        let j = spelt_stmts(toks, i, b.stmts, k + 1);
        lemma_read_body(toks, St { pos: j, diags: s.diags }, b, k + 1, i, acc.push(x))
    } else {
        match b.tail {
            Some(t) => {
                reveal(parse::p_expr_item);
                reveal(parse::p_expr);
                lemma_first(toks, s.pos, t);
                let x = lemma_read_expr(toks, s, t, 0);
                Body { stmts: acc, tail: Some(x) }
            },
            None => Body { stmts: acc, tail: None },
        }
    }
}

#[verifier::spinoff_prover]
#[verifier::rlimit(40)]
proof fn lemma_read_let(toks: Seq<TokenModel>, s: St, st: StmtModel) -> (r: StmtModel)
    requires
        spelt_stmt(toks, s.pos, st) >= 0,
        legible_stmt(st),
        st.kind is Let,
    ensures
        gives(s, parse::p_item(toks, s), spelt_stmt(toks, s.pos, st), Item::Stmt(r)),
        bare_stmt(r) == bare_stmt(st),
        !(kind_at(toks, s.pos) is RBrace) && !(kind_at(toks, s.pos) is Eof),
    decreases st, 0int,
{
    reveal(spelt_stmt);
    reveal(legible_stmt);
    reveal(bare_stmt);
    reveal(spelt_expr);
    reveal(legible_expr);
    reveal(bare_expr);
    reveal(parse::p_item);
    let i = s.pos;
    let j = spelt_stmt(toks, i, st);
    lemma_on_stmt(toks, i, st);
    match st.kind {
        StmtKindModel::Let { name, ty, mutable, init } => {
            let a = spelt(toks, i, TokenKind::KwLet);
            let b = if mutable {
                spelt(toks, a, TokenKind::KwMut)
            } else {
                a
            };
            let m = spelt_name(toks, b, name);
            let c = spelt_note(toks, m, ty);
            let d = spelt(toks, c, TokenKind::Assign);
            lemma_on_expr(toks, d, init);
            lemma_on_note(toks, m, ty);
            lemma_read_note(toks, St { pos: m, diags: s.diags }, ty);
            let sc = St { pos: c, diags: s.diags };
            let x = lemma_read_init(toks, sc, init);
            reveal(parse::p_let);
            reveal(parse::p_init);
            StmtModel {
                kind: StmtKindModel::Let { name, ty, mutable, init: x },
                span: crate::source::span_join(toks[i].span, toks[j - 1].span),
            }
        },
        _ => st,
    }
}

#[verifier::spinoff_prover]
#[verifier::rlimit(40)]
proof fn lemma_read_assign(toks: Seq<TokenModel>, s: St, st: StmtModel) -> (r: StmtModel)
    requires
        spelt_stmt(toks, s.pos, st) >= 0,
        legible_stmt(st),
        st.kind is Assign,
    ensures
        gives(s, parse::p_item(toks, s), spelt_stmt(toks, s.pos, st), Item::Stmt(r)),
        bare_stmt(r) == bare_stmt(st),
        !(kind_at(toks, s.pos) is RBrace) && !(kind_at(toks, s.pos) is Eof),
    decreases st, 0int,
{
    reveal(spelt_stmt);
    reveal(legible_stmt);
    reveal(bare_stmt);
    reveal(spelt_expr);
    reveal(legible_expr);
    reveal(bare_expr);
    reveal(parse::p_item);
    let i = s.pos;
    let j = spelt_stmt(toks, i, st);
    lemma_on_stmt(toks, i, st);
    match st.kind {
        StmtKindModel::Assign(p, v) => {
            let a = spelt_expr(toks, i, p);
            let d = spelt(toks, a, TokenKind::Assign);
            lemma_on_expr(toks, d, v);
            lemma_on_expr(toks, i, p);
            lemma_first(toks, i, p);
            let x = lemma_read_expr(toks, s, p, 0);
            let sa = St { pos: a, diags: s.diags };
            let y = lemma_read_init(toks, sa, v);
            reveal(parse::p_expr_item);
            reveal(parse::p_expr);
            reveal(parse::p_init);
            StmtModel {
                kind: StmtKindModel::Assign(x, y),
                span: crate::source::span_join(x.span, toks[j - 1].span),
            }
        },
        _ => st,
    }
}

#[verifier::spinoff_prover]
#[verifier::rlimit(40)]
proof fn lemma_read_expr_stmt(toks: Seq<TokenModel>, s: St, st: StmtModel) -> (r: StmtModel)
    requires
        spelt_stmt(toks, s.pos, st) >= 0,
        legible_stmt(st),
        st.kind is Expr,
    ensures
        gives(s, parse::p_item(toks, s), spelt_stmt(toks, s.pos, st), Item::Stmt(r)),
        bare_stmt(r) == bare_stmt(st),
        !(kind_at(toks, s.pos) is RBrace) && !(kind_at(toks, s.pos) is Eof),
    decreases st, 0int,
{
    reveal(spelt_stmt);
    reveal(legible_stmt);
    reveal(bare_stmt);
    reveal(spelt_expr);
    reveal(legible_expr);
    reveal(bare_expr);
    reveal(parse::p_item);
    let i = s.pos;
    let j = spelt_stmt(toks, i, st);
    lemma_on_stmt(toks, i, st);
    match st.kind {
        StmtKindModel::Expr(e) => {
            lemma_on_expr(toks, i, e);
            lemma_first(toks, i, e);
            let x = lemma_read_expr(toks, s, e, 0);
            reveal(parse::p_expr_item);
            reveal(parse::p_expr);
            StmtModel {
                kind: StmtKindModel::Expr(x),
                span: crate::source::span_join(x.span, toks[j - 1].span),
            }
        },
        _ => st,
    }
}

#[verifier::spinoff_prover]
#[verifier::rlimit(40)]
proof fn lemma_read_return(toks: Seq<TokenModel>, s: St, st: StmtModel) -> (r: StmtModel)
    requires
        spelt_stmt(toks, s.pos, st) >= 0,
        legible_stmt(st),
        st.kind is Return,
    ensures
        gives(s, parse::p_item(toks, s), spelt_stmt(toks, s.pos, st), Item::Stmt(r)),
        bare_stmt(r) == bare_stmt(st),
        !(kind_at(toks, s.pos) is RBrace) && !(kind_at(toks, s.pos) is Eof),
    decreases st, 0int,
{
    reveal(spelt_stmt);
    reveal(legible_stmt);
    reveal(bare_stmt);
    reveal(spelt_expr);
    reveal(legible_expr);
    reveal(bare_expr);
    reveal(parse::p_item);
    let i = s.pos;
    let j = spelt_stmt(toks, i, st);
    lemma_on_stmt(toks, i, st);
    match st.kind {
        StmtKindModel::Return(Some(v)) => {
            let a = spelt(toks, i, TokenKind::KwReturn);
            lemma_on_expr(toks, a, v);
            lemma_first(toks, a, v);
            let sa = St { pos: a, diags: s.diags };
            let x = lemma_read_expr(toks, sa, v, 0);
            reveal(parse::p_return);
            reveal(parse::p_return_value);
            reveal(parse::p_expr);
            assert(gives(sa, parse::p_return_value(toks, sa), j - 1, Some(x)));
            StmtModel {
                kind: StmtKindModel::Return(Some(x)),
                span: crate::source::span_join(toks[i].span, toks[j - 1].span),
            }
        },
        StmtKindModel::Return(None) => {
            reveal(parse::p_return);
            reveal(parse::p_return_value);
            let sa = St { pos: i + 1, diags: s.diags };
            assert(gives(sa, parse::p_return_value(toks, sa), i + 1, None));
            StmtModel {
                kind: StmtKindModel::Return(None),
                span: crate::source::span_join(toks[i].span, toks[j - 1].span),
            }
        },
        _ => st,
    }
}

#[verifier::spinoff_prover]
#[verifier::rlimit(40)]
proof fn lemma_read_while(toks: Seq<TokenModel>, s: St, st: StmtModel) -> (r: StmtModel)
    requires
        spelt_stmt(toks, s.pos, st) >= 0,
        legible_stmt(st),
        st.kind is While,
    ensures
        gives(s, parse::p_item(toks, s), spelt_stmt(toks, s.pos, st), Item::Stmt(r)),
        bare_stmt(r) == bare_stmt(st),
        !(kind_at(toks, s.pos) is RBrace) && !(kind_at(toks, s.pos) is Eof),
    decreases st, 0int,
{
    reveal(spelt_stmt);
    reveal(legible_stmt);
    reveal(bare_stmt);
    reveal(spelt_expr);
    reveal(legible_expr);
    reveal(bare_expr);
    reveal(spelt_operand);
    reveal(spelt_block);
    reveal(legible_block);
    reveal(bare_block);
    reveal(parse::p_item);
    let i = s.pos;
    let j = spelt_stmt(toks, i, st);
    lemma_on_stmt(toks, i, st);
    match st.kind {
        StmtKindModel::While(c, b) => {
            let a = spelt(toks, i, TokenKind::KwWhile);
            let w = print::ends_in_type_name(c);
            let d = spelt_operand(toks, a, c, w);
            lemma_on_block(toks, d, *b.it);
            lemma_on_operand(toks, a, c, w);
            lemma_first_block(toks, d, *b.it);
            assert(decreases_to!(st => c));
            let x = lemma_read_condition(toks, St { pos: a, diags: s.diags }, c);
            let y = lemma_read_block(toks, St { pos: d, diags: s.diags }, *b.it);
            reveal(parse::p_while);
            reveal(parse::p_expr);
            reveal(parse::p_block);
            StmtModel {
                kind: StmtKindModel::While(x, crate::ast::node(y)),
                span: crate::source::span_join(toks[i].span, y.span),
            }
        },
        _ => st,
    }
}

proof fn lemma_read_stmt(toks: Seq<TokenModel>, s: St, st: StmtModel) -> (r: StmtModel)
    requires
        spelt_stmt(toks, s.pos, st) >= 0,
        legible_stmt(st),
    ensures
        gives(s, parse::p_item(toks, s), spelt_stmt(toks, s.pos, st), Item::Stmt(r)),
        bare_stmt(r) == bare_stmt(st),
        !(kind_at(toks, s.pos) is RBrace) && !(kind_at(toks, s.pos) is Eof),
    decreases st, 1int,
{
    let i = s.pos;
    let j = spelt_stmt(toks, i, st);
    match st.kind {
        StmtKindModel::Let { .. } => lemma_read_let(toks, s, st),
        StmtKindModel::Assign(..) => lemma_read_assign(toks, s, st),
        StmtKindModel::Expr(..) => lemma_read_expr_stmt(toks, s, st),
        StmtKindModel::Return(..) => lemma_read_return(toks, s, st),
        StmtKindModel::While(..) => lemma_read_while(toks, s, st),
        StmtKindModel::If(..) => {
            reveal(legible_stmt);
            st
        },
        StmtKindModel::Break => {
            reveal(spelt_stmt);
            reveal(bare_stmt);
            reveal(parse::p_item);
            reveal(parse::p_jump);
            StmtModel {
                kind: StmtKindModel::Break,
                span: crate::source::span_join(toks[i].span, toks[j - 1].span),
            }
        },
        StmtKindModel::Continue => {
            reveal(spelt_stmt);
            reveal(bare_stmt);
            reveal(parse::p_item);
            reveal(parse::p_jump);
            StmtModel {
                kind: StmtKindModel::Continue,
                span: crate::source::span_join(toks[i].span, toks[j - 1].span),
            }
        },
    }
}

/// `= e ;`
#[verifier::spinoff_prover]
proof fn lemma_read_init(toks: Seq<TokenModel>, s: St, e: ExprModel) -> (r: ExprModel)
    requires
        spelt(toks, spelt_expr(toks, spelt(toks, s.pos, TokenKind::Assign), e), TokenKind::Semicolon) >= 0,
        legible_expr(e),
    ensures
        ({
            let j = spelt(toks, spelt_expr(toks, spelt(toks, s.pos, TokenKind::Assign), e), TokenKind::Semicolon);
            gives(s, parse::p_init(toks, s), j, parse::InitModel { value: r, end: toks[j - 1].span })
        }),
        bare_expr(r) == bare_expr(e),
    decreases e, 4int,
{
    let a = spelt(toks, s.pos, TokenKind::Assign);
    lemma_on_expr(toks, a, e);
    let r = lemma_read_expr(toks, St { pos: a, diags: s.diags }, e, 0);
    reveal(parse::p_init);
    reveal(parse::p_expr);
    r
}

// --- declarations ----------------------------------------------------------------------

/// The rest of the fields of a struct, from `k` on.
#[verifier::spinoff_prover]
#[verifier::rlimit(40)]
proof fn lemma_read_fields(
    toks: Seq<TokenModel>,
    s: St,
    fs: Seq<(Seq<char>, TypeModel, Span)>,
    k: int,
    i: int,
    acc: Seq<(Seq<char>, TypeModel, Span)>,
) -> (r: Seq<(Seq<char>, TypeModel, Span)>)
    requires
        0 <= k <= fs.len(),
        spelt_fields(toks, i, fs, fs.len() as int) >= 0,
        s.pos == spelt_fields(toks, i, fs, k),
        forall|q: int| 0 <= q < fs.len() ==> word((#[trigger] fs[q]).0) && legible_type(fs[q].1),
        acc.len() == k,
        bare_fields(acc) == bare_fields(fs).take(k),
        kind_at(toks, spelt_fields(toks, i, fs, fs.len() as int)) is RBrace,
    ensures
        gives(s, parse::p_fields(toks, s, acc), spelt_fields(toks, i, fs, fs.len() as int), r),
        bare_fields(r) == bare_fields(fs),
        s.pos <= spelt_fields(toks, i, fs, fs.len() as int),
    decreases fs.len() - k,
{
    reveal(parse::p_fields);
    let n = fs.len() as int;
    if k < n {
        reveal(spelt_fields);
        lemma_fields_at(toks, i, fs, k, n);
        let f = fs[k];
        let a = spelt(toks, spelt_name(toks, s.pos, f.0), TokenKind::Colon);
        lemma_on_type(toks, a, f.1);
        lemma_read_type(toks, St { pos: a, diags: s.diags }, f.1);
        let j = spelt_fields(toks, i, fs, k + 1);
        let x = (f.0, f.1, toks[s.pos].span);
        assert(bare_fields(acc.push(x)) =~= bare_fields(fs).take(k + 1)) by {
            assert forall|q: int| 0 <= q < k implies bare_fields(acc.push(x))[q] == bare_fields(fs).take(k + 1)[q] by {
                assert(bare_fields(acc)[q] == bare_fields(fs).take(k)[q]);
            }
        }
        lemma_read_fields(toks, St { pos: j, diags: s.diags }, fs, k + 1, i, acc.push(x))
    } else {
        assert(bare_fields(fs).take(n) =~= bare_fields(fs));
        acc
    }
}

#[verifier::spinoff_prover]
#[verifier::rlimit(40)]
proof fn lemma_read_fn(toks: Seq<TokenModel>, s: St, d: DeclModel) -> (r: DeclModel)
    requires
        d is Fn,
        spelt_decl(toks, s.pos, d) >= 0,
        legible_decl(d),
    ensures
        gives(s, parse::p_decl(toks, s), spelt_decl(toks, s.pos, d), r),
        bare_decl(r) == bare_decl(d),
{
    reveal(spelt_decl);
    reveal(parse::p_decl);
    reveal(parse::p_fn);
    match d {
        DeclModel::Fn(f) => {
            let i = s.pos;
            let a = spelt(toks, spelt_name(toks, spelt(toks, i, TokenKind::KwFn), f.name), TokenKind::LParen);
            let p = spelt_params(toks, a, f.params, f.params.len() as int);
            let b = spelt(toks, p, TokenKind::RParen);
            let t = spelt(toks, b, TokenKind::Arrow);
            let c = if f.ret is Nil {
                b
            } else {
                spelt_type(toks, t, f.ret)
            };
            lemma_on_block(toks, c, f.body);
            lemma_first_block(toks, c, f.body);
            if !(f.ret is Nil) {
                lemma_on_type(toks, t, f.ret);
            }
            lemma_on_params(toks, a, f.params, f.params.len() as int);
            let ps = lemma_read_all_params(toks, St { pos: a, diags: s.diags }, f.params, TokenKind::RParen);
            let sb = St { pos: b, diags: s.diags };
            if !(f.ret is Nil) {
                lemma_read_type(toks, St { pos: t, diags: s.diags }, f.ret);
            }
            assert(gives(sb, parse::p_result(toks, sb), c, f.ret)) by {
                reveal(parse::p_result);
                reveal(parse::p_type);
            }
            let body = lemma_read_block(toks, St { pos: c, diags: s.diags }, f.body);
            DeclModel::Fn(
                crate::ast::FnDeclModel {
                    name: f.name,
                    params: ps,
                    ret: f.ret,
                    body,
                    span: crate::source::span_join(toks[i].span, body.span),
                },
            )
        },
        _ => d,
    }
}

#[verifier::spinoff_prover]
#[verifier::rlimit(40)]
proof fn lemma_read_struct_decl(toks: Seq<TokenModel>, s: St, d: DeclModel) -> (r: DeclModel)
    requires
        d is Struct,
        spelt_decl(toks, s.pos, d) >= 0,
        legible_decl(d),
    ensures
        gives(s, parse::p_decl(toks, s), spelt_decl(toks, s.pos, d), r),
        bare_decl(r) == bare_decl(d),
{
    reveal(spelt_decl);
    reveal(parse::p_decl);
    reveal(parse::p_struct);
    match d {
        DeclModel::Struct(x) => {
            let i = s.pos;
            let a = spelt(toks, spelt_name(toks, spelt(toks, i, TokenKind::KwStruct), x.name), TokenKind::LBrace);
            let n = x.fields.len() as int;
            let b = spelt_fields(toks, a, x.fields, n);
            lemma_on_fields(toks, a, x.fields, n);
            let none = Seq::<(Seq<char>, TypeModel, Span)>::empty();
            assert(bare_fields(none) =~= bare_fields(x.fields).take(0));
            assert(spelt_fields(toks, a, x.fields, 0) == a) by {
                reveal(spelt_fields);
            }
            let fields = lemma_read_fields(toks, St { pos: a, diags: s.diags }, x.fields, 0, a, none);
            DeclModel::Struct(
                crate::ast::StructDeclModel {
                    name: x.name,
                    fields,
                    span: crate::source::span_join(toks[i].span, toks[b].span),
                },
            )
        },
        _ => d,
    }
}

#[verifier::spinoff_prover]
#[verifier::rlimit(40)]
proof fn lemma_read_const(toks: Seq<TokenModel>, s: St, d: DeclModel) -> (r: DeclModel)
    requires
        d is Const,
        spelt_decl(toks, s.pos, d) >= 0,
        legible_decl(d),
    ensures
        gives(s, parse::p_decl(toks, s), spelt_decl(toks, s.pos, d), r),
        bare_decl(r) == bare_decl(d),
{
    reveal(spelt_decl);
    reveal(parse::p_decl);
    reveal(parse::p_const);
    match d {
        DeclModel::Const(c) => {
            let i = s.pos;
            let a = spelt(toks, spelt_name(toks, spelt(toks, i, TokenKind::KwConst), c.name), TokenKind::Colon);
            let t = spelt_type(toks, a, c.ty);
            let b = spelt(toks, t, TokenKind::Assign);
            lemma_on_expr(toks, b, c.init);
            lemma_on_type(toks, a, c.ty);
            lemma_read_type(toks, St { pos: a, diags: s.diags }, c.ty);
            let init = lemma_read_init(toks, St { pos: t, diags: s.diags }, c.init);
            let j = spelt_decl(toks, i, d);
            DeclModel::Const(
                crate::ast::ConstDeclModel {
                    name: c.name,
                    ty: c.ty,
                    init,
                    span: crate::source::span_join(toks[i].span, toks[j - 1].span),
                },
            )
        },
        _ => d,
    }
}

/// The rest of the declarations, from `k` on.
proof fn lemma_read_decls(toks: Seq<TokenModel>, s: St, ds: Seq<DeclModel>, k: int, acc: Seq<DeclModel>) -> (r: Seq<DeclModel>)
    requires
        0 <= k <= ds.len(),
        spelt_decls(toks, 0, ds, ds.len() as int) >= 0,
        s.pos == spelt_decls(toks, 0, ds, k),
        s.diags.len() == 0,
        forall|i: int| 0 <= i < ds.len() ==> legible_decl(#[trigger] ds[i]),
        acc.len() == k,
        forall|i: int| 0 <= i < k ==> bare_decl(#[trigger] acc[i]) == bare_decl(ds[i]),
        kind_at(toks, spelt_decls(toks, 0, ds, ds.len() as int)) is Eof,
    ensures
        parse::p_decls(toks, s, acc).0 == r,
        parse::p_decls(toks, s, acc).1.len() == 0,
        r.len() == ds.len(),
        forall|i: int| 0 <= i < r.len() ==> bare_decl(#[trigger] r[i]) == bare_decl(ds[i]),
    decreases ds.len() - k,
{
    reveal(parse::p_decls);
    let n = ds.len() as int;
    if k < n {
        lemma_decls_at(toks, 0, ds, k, n);
        let j = spelt_decls(toks, 0, ds, k + 1);
        assert(j == spelt_decl(toks, s.pos, ds[k])) by {
            reveal(spelt_decls);
        }
        lemma_on_decl(toks, s.pos, ds[k]);
        let x = match ds[k] {
            DeclModel::Fn(_) => lemma_read_fn(toks, s, ds[k]),
            DeclModel::Struct(_) => lemma_read_struct_decl(toks, s, ds[k]),
            DeclModel::Const(_) => lemma_read_const(toks, s, ds[k]),
        };
        assert(!(kind_at(toks, s.pos) is Eof)) by {
            lemma_first_of_decl(toks, s.pos, ds[k]);
        }
        let more = acc.push(x);
        assert forall|i: int| 0 <= i < k + 1 implies bare_decl(#[trigger] more[i]) == bare_decl(ds[i]) by {
            if i < k {
                assert(more[i] == acc[i]);
            }
        }
        lemma_read_decls(toks, St { pos: j, diags: s.diags }, ds, k + 1, more)
    } else {
        acc
    }
}

/// A declaration starts with its keyword.
proof fn lemma_first_of_decl(toks: Seq<TokenModel>, i: int, d: DeclModel)
    requires
        spelt_decl(toks, i, d) >= 0,
    ensures
        parse::starts_decl(kind_at(toks, i)),
{
    reveal(spelt_decl);
    match d {
        DeclModel::Fn(f) => {
            let a = spelt(toks, spelt_name(toks, spelt(toks, i, TokenKind::KwFn), f.name), TokenKind::LParen);
            let b = spelt(toks, spelt_params(toks, a, f.params, f.params.len() as int), TokenKind::RParen);
            if f.ret is Nil {
                lemma_on_block(toks, b, f.body);
            } else {
                let t = spelt(toks, b, TokenKind::Arrow);
                lemma_on_block(toks, spelt_type(toks, t, f.ret), f.body);
                lemma_on_type(toks, t, f.ret);
            }
            lemma_on_params(toks, a, f.params, f.params.len() as int);
        },
        DeclModel::Struct(s) => {
            let a = spelt(toks, spelt_name(toks, spelt(toks, i, TokenKind::KwStruct), s.name), TokenKind::LBrace);
            lemma_on_fields(toks, a, s.fields, s.fields.len() as int);
        },
        DeclModel::Const(c) => {
            let a = spelt(toks, spelt_name(toks, spelt(toks, i, TokenKind::KwConst), c.name), TokenKind::Colon);
            let b = spelt(toks, spelt_type(toks, a, c.ty), TokenKind::Assign);
            lemma_on_expr(toks, b, c.init);
            lemma_on_type(toks, a, c.ty);
        },
    }
}

/// Tokens that spell a module are parsed to it, without a complaint.
pub proof fn lemma_read_module(toks: Seq<TokenModel>, m: crate::ast::ModuleModel)
    requires
        legible(m),
        spelt_decls(toks, 0, m.decls, m.decls.len() as int) >= 0,
        kind_at(toks, spelt_decls(toks, 0, m.decls, m.decls.len() as int)) is Eof,
    ensures
        bare(parse::parsed(toks).0) == bare(m),
        parse::parsed(toks).1.len() == 0,
{
    assert(spelt_decls(toks, 0, m.decls, 0) == 0) by {
        reveal(spelt_decls);
    }
    let r = lemma_read_decls(toks, St { pos: 0, diags: Seq::empty() }, m.decls, 0, Seq::empty());
    assert(bare(parse::parsed(toks).0) =~= bare(m));
}

} // verus!
