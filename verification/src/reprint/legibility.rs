//! What the parser gives without a complaint can be written down.

use super::{
    basic, legible, legible_block, legible_decl, legible_expr, legible_exprs, legible_inits, legible_note,
    legible_pairs, legible_params, legible_stmt, legible_stmts, legible_type, legible_types, word,
};
use crate::ast::{DeclModel, ExprKindModel, ExprModel, ModuleModel, ParamModel, StmtKindModel, StmtModel, TypeModel};
use crate::float;
use crate::lex;
use crate::lex::{TokenKind, TokenModel};
use crate::parse;
use crate::parse::{after, bump, kind, left, Item, Res, St};
use crate::source::{FileId, Span};
use vstd::prelude::*;

verus! {

// --- tokens ----------------------------------------------------------------------------

/// Whether a token can be written down.
pub open spec fn neat(t: TokenModel) -> bool {
    &&& t.kind is Ident ==> word(t.ident)
    &&& t.kind matches TokenKind::Int(v) ==> v >= 0
    &&& t.kind matches TokenKind::Float(b) ==> b <= float::INF
}

/// Whether tokens can be written down.
pub open spec fn all_neat(toks: Seq<TokenModel>) -> bool {
    forall|i: int| 0 <= i < toks.len() ==> neat(#[trigger] toks[i])
}

proof fn lemma_ident_chars(b: Seq<u8>, i: int)
    requires
        0 <= i <= b.len(),
    ensures
        i <= lex::ident_end(b, i) <= b.len(),
        forall|k: int| i <= k < lex::ident_end(b, i) ==> lex::in_ident(#[trigger] b[k]),
    decreases b.len() - i,
{
    if i < b.len() && lex::in_ident(b[i]) {
        lemma_ident_chars(b, i + 1);
    }
}

/// What the lexer gives can be written down.
pub proof fn lemma_lexed(file: FileId, b: Seq<u8>, i: int)
    requires
        0 <= i <= b.len(),
    ensures
        all_neat(lex::lexed(file, b, i).0),
    decreases b.len() - i,
{
    let all = lex::lexed(file, b, i).0;
    if i < b.len() {
        lex::lemma_step_moves(file, b, i);
        let s = lex::step(file, b, i);
        let rest = lex::lexed(file, b, s.next).0;
        assert(all == s.tokens + rest);
        lemma_lexed(file, b, s.next);
        assert forall|k: int| 0 <= k < all.len() implies neat(#[trigger] all[k]) by {
            if k >= s.tokens.len() {
                assert(all[k] == rest[k - s.tokens.len()]);
            } else {
                assert(all[k] == s.tokens[k]);
                if lex::starts_ident(b[i]) {
                    lemma_ident_chars(b, i);
                    let n = all[k].ident;
                    let end = lex::ident_end(b, i);
                    assert(end > i);
                    assert(n == lex::ascii(b, i, end));
                    assert forall|q: int| 0 <= q < n.len() implies basic(#[trigger] n[q]) && lex::in_ident(n[q] as u8) by {
                        assert(lex::in_ident(b[i + q]));
                        assert(n[q] == b[i + q] as char);
                    }
                    assert(n[0] == b[i] as char);
                } else if lex::is_digit(b[i]) {
                    let d = lex::digits_end(b, i);
                    let f = lex::fraction_end(b, d);
                    super::decimals::lemma_decimal_bound(lex::digits_value(b, i, f), lex::digits_count(b, d, f));
                }
            }
        }
    }
}

// --- types and parameters --------------------------------------------------------------

/// Whether a rule adds complaints or none, and what it gives is fine where it adds none.
spec fn fine<T>(s: St, r: Res<T>, ok: bool) -> bool {
    r.diags.len() >= s.diags.len() && (r.diags.len() == s.diags.len() && r.val is Some ==> ok)
}

proof fn lemma_more_types(a: Seq<TypeModel>, b: Seq<TypeModel>, k: int)
    requires
        0 <= k <= a.len(),
        k <= b.len(),
        forall|i: int| 0 <= i < k ==> a[i] == b[i],
        legible_types(a, k),
    ensures
        legible_types(b, k),
    decreases k,
{
    reveal(legible_types);
    reveal(legible_type);
    if k > 0 {
        lemma_more_types(a, b, k - 1);
    }
}

proof fn lemma_push_types(acc: Seq<TypeModel>, x: TypeModel)
    requires
        legible_types(acc, acc.len() as int),
        legible_type(x),
    ensures
        legible_types(acc.push(x), acc.len() as int + 1),
{
    lemma_more_types(acc, acc.push(x), acc.len() as int);
    reveal(legible_types);
    reveal(legible_type);
    assert(acc.push(x)[acc.len() as int] == x);
}

proof fn lemma_more_exprs(a: Seq<ExprModel>, b: Seq<ExprModel>, k: int)
    requires
        0 <= k <= a.len(),
        k <= b.len(),
        forall|i: int| 0 <= i < k ==> a[i] == b[i],
        legible_exprs(a, k),
    ensures
        legible_exprs(b, k),
    decreases k,
{
    reveal(legible_exprs);
    reveal(legible_expr);
    if k > 0 {
        lemma_more_exprs(a, b, k - 1);
    }
}

proof fn lemma_push_exprs(acc: Seq<ExprModel>, x: ExprModel)
    requires
        legible_exprs(acc, acc.len() as int),
        legible_expr(x),
    ensures
        legible_exprs(acc.push(x), acc.len() as int + 1),
{
    lemma_more_exprs(acc, acc.push(x), acc.len() as int);
    reveal(legible_exprs);
    reveal(legible_expr);
    assert(acc.push(x)[acc.len() as int] == x);
}

proof fn lemma_more_inits(a: Seq<(Seq<char>, ExprModel)>, b: Seq<(Seq<char>, ExprModel)>, k: int)
    requires
        0 <= k <= a.len(),
        k <= b.len(),
        forall|i: int| 0 <= i < k ==> a[i] == b[i],
        legible_inits(a, k),
    ensures
        legible_inits(b, k),
    decreases k,
{
    reveal(legible_inits);
    reveal(legible_expr);
    if k > 0 {
        lemma_more_inits(a, b, k - 1);
    }
}

proof fn lemma_push_inits(acc: Seq<(Seq<char>, ExprModel)>, x: (Seq<char>, ExprModel))
    requires
        legible_inits(acc, acc.len() as int),
        word(x.0) && legible_expr(x.1),
    ensures
        legible_inits(acc.push(x), acc.len() as int + 1),
{
    lemma_more_inits(acc, acc.push(x), acc.len() as int);
    reveal(legible_inits);
    reveal(legible_expr);
    assert(acc.push(x)[acc.len() as int] == x);
}

proof fn lemma_more_pairs(a: Seq<(ExprModel, ExprModel)>, b: Seq<(ExprModel, ExprModel)>, k: int)
    requires
        0 <= k <= a.len(),
        k <= b.len(),
        forall|i: int| 0 <= i < k ==> a[i] == b[i],
        legible_pairs(a, k),
    ensures
        legible_pairs(b, k),
    decreases k,
{
    reveal(legible_pairs);
    reveal(legible_expr);
    if k > 0 {
        lemma_more_pairs(a, b, k - 1);
    }
}

proof fn lemma_push_pairs(acc: Seq<(ExprModel, ExprModel)>, x: (ExprModel, ExprModel))
    requires
        legible_pairs(acc, acc.len() as int),
        legible_expr(x.0) && legible_expr(x.1),
    ensures
        legible_pairs(acc.push(x), acc.len() as int + 1),
{
    lemma_more_pairs(acc, acc.push(x), acc.len() as int);
    reveal(legible_pairs);
    reveal(legible_expr);
    assert(acc.push(x)[acc.len() as int] == x);
}

proof fn lemma_more_stmts(a: Seq<StmtModel>, b: Seq<StmtModel>, k: int)
    requires
        0 <= k <= a.len(),
        k <= b.len(),
        forall|i: int| 0 <= i < k ==> a[i] == b[i],
        legible_stmts(a, k),
    ensures
        legible_stmts(b, k),
    decreases k,
{
    reveal(legible_stmts);
    reveal(legible_stmt);
    if k > 0 {
        lemma_more_stmts(a, b, k - 1);
    }
}

proof fn lemma_push_stmts(acc: Seq<StmtModel>, x: StmtModel)
    requires
        legible_stmts(acc, acc.len() as int),
        legible_stmt(x),
    ensures
        legible_stmts(acc.push(x), acc.len() as int + 1),
{
    lemma_more_stmts(acc, acc.push(x), acc.len() as int);
    reveal(legible_stmts);
    reveal(legible_stmt);
    assert(acc.push(x)[acc.len() as int] == x);
}

#[verifier::spinoff_prover]
#[verifier::rlimit(60)]
proof fn lemma_type(toks: Seq<TokenModel>, s: St)
    requires
        all_neat(toks),
    ensures
        ({
            let r = parse::p_type(toks, s);
            fine(s, r, legible_type(r.val->0))
        }),
    decreases left(toks, s), 0int,
{
    reveal(parse::p_type);
    reveal(parse::p_type_args);
    reveal(parse::p_result);
    reveal(legible_type);
    reveal(legible_types);
    reveal(parse::wrapped_type);
    let s1 = bump(toks, s);
    match kind(toks, s) {
        TokenKind::KwFn => {
            let open = parse::p_expect(toks, s1, TokenKind::LParen, "`(`"@);
            let s2 = after(s1, open);
            if open.val is Some {
                lemma_type_args(toks, s2);
                let ps = parse::p_type_args(toks, s2);
                let s3 = after(s2, ps);
                if ps.val is Some {
                    let close = parse::p_expect(toks, s3, TokenKind::RParen, "`)`"@);
                    let s4 = after(s3, close);
                    if close.val is Some {
                        lemma_result(toks, s4);
                    }
                }
            }
        },
        TokenKind::Ident => {
            assert(neat(toks[s.pos]));
            let n = toks[s.pos].ident;
            if parse::simple_type(n) is Some {
                reveal(parse::simple_type);
            } else if parse::wrapped_type(n, TypeModel::Nil) is Some {
                let open = parse::p_expect(toks, s1, TokenKind::Lt, "`<`"@);
                let s2 = after(s1, open);
                if open.val is Some {
                    lemma_type(toks, s2);
                }
            } else if n == "Map"@ {
                let open = parse::p_expect(toks, s1, TokenKind::Lt, "`<`"@);
                let s2 = after(s1, open);
                if open.val is Some {
                    lemma_type(toks, s2);
                    let key = parse::p_type(toks, s2);
                    let s3 = after(s2, key);
                    if key.val is Some {
                        let comma = parse::p_expect(toks, s3, TokenKind::Comma, "`,`"@);
                        let s4 = after(s3, comma);
                        if comma.val is Some {
                            lemma_type(toks, s4);
                        }
                    }
                }
            }
        },
        _ => {},
    }
}

#[verifier::spinoff_prover]
proof fn lemma_type_args(toks: Seq<TokenModel>, s: St)
    requires
        all_neat(toks),
    ensures
        ({
            let r = parse::p_type_args(toks, s);
            fine(s, r, legible_types(r.val->0, r.val->0.len() as int))
        }),
    decreases left(toks, s), 2int,
{
    reveal(parse::p_type_args);
    reveal(parse::p_types);
    reveal(legible_types);
    if !(kind(toks, s) is RParen) {
        lemma_types(toks, s, Seq::empty());
    }
}

#[verifier::spinoff_prover]
proof fn lemma_result(toks: Seq<TokenModel>, s: St)
    requires
        all_neat(toks),
    ensures
        ({
            let r = parse::p_result(toks, s);
            fine(s, r, legible_type(r.val->0))
        }),
    decreases left(toks, s), 1int,
{
    reveal(parse::p_result);
    reveal(parse::p_type);
    reveal(legible_type);
    if kind(toks, s) is Arrow {
        lemma_type(toks, bump(toks, s));
    }
}

#[verifier::spinoff_prover]
proof fn lemma_types(toks: Seq<TokenModel>, s: St, acc: Seq<TypeModel>)
    requires
        all_neat(toks),
    ensures
        ({
            let r = parse::p_types(toks, s, acc);
            fine(s, r, legible_types(acc, acc.len() as int) ==> legible_types(r.val->0, r.val->0.len() as int))
        }),
    decreases left(toks, s), 1int,
{
    reveal(parse::p_types);
    reveal(parse::p_type);
    lemma_type(toks, s);
    let t = parse::p_type(toks, s);
    let s1 = after(s, t);
    if t.val is Some {
        if legible_types(acc, acc.len() as int) && legible_type(t.val->0) {
            lemma_push_types(acc, t.val->0);
        }
        if kind(toks, s1) is Comma {
            lemma_types(toks, bump(toks, s1), acc.push(t.val->0));
        }
    }
}

#[verifier::spinoff_prover]
proof fn lemma_annotation(toks: Seq<TokenModel>, s: St)
    requires
        all_neat(toks),
    ensures
        ({
            let r = parse::p_annotation(toks, s);
            fine(s, r, legible_note(r.val->0))
        }),
{
    reveal(parse::p_annotation);
    if kind(toks, s) is Colon {
        lemma_type(toks, bump(toks, s));
    }
}

#[verifier::spinoff_prover]
proof fn lemma_param(toks: Seq<TokenModel>, s: St)
    requires
        all_neat(toks),
    ensures
        ({
            let r = parse::p_param(toks, s);
            fine(s, r, word(r.val->0.name) && legible_note(r.val->0.ty))
        }),
{
    reveal(parse::p_param);
    let name = parse::p_expect(toks, s, TokenKind::Ident, "parameter name"@);
    if name.val is Some {
        assert(neat(toks[s.pos]));
        lemma_annotation(toks, after(s, name));
    }
}

#[verifier::spinoff_prover]
proof fn lemma_params(toks: Seq<TokenModel>, s: St, acc: Seq<ParamModel>)
    requires
        all_neat(toks),
    ensures
        ({
            let r = parse::p_params(toks, s, acc);
            fine(s, r, legible_params(acc) ==> legible_params(r.val->0))
        }),
    decreases left(toks, s),
{
    reveal(parse::p_params);
    lemma_param(toks, s);
    reveal(parse::p_param);
    let p = parse::p_param(toks, s);
    let s1 = after(s, p);
    if p.val is Some {
        let x = p.val->0;
        if legible_params(acc) && word(x.name) && legible_note(x.ty) {
            assert(legible_params(acc.push(x)));
        }
        if kind(toks, s1) is Comma {
            lemma_params(toks, bump(toks, s1), acc.push(x));
        }
    }
}

#[verifier::spinoff_prover]
proof fn lemma_params_to(toks: Seq<TokenModel>, s: St, close: TokenKind)
    requires
        all_neat(toks),
    ensures
        ({
            let r = parse::p_params_to(toks, s, close);
            fine(s, r, legible_params(r.val->0))
        }),
{
    reveal(parse::p_params_to);
    if kind(toks, s) != close {
        lemma_params(toks, s, Seq::empty());
    }
}

// --- expressions -----------------------------------------------------------------------

#[verifier::spinoff_prover]
proof fn lemma_expr(toks: Seq<TokenModel>, s: St, min: u8)
    requires
        all_neat(toks),
    ensures
        ({
            let r = parse::p_expr(toks, s, min);
            fine(s, r, legible_expr(r.val->0))
        }),
    decreases left(toks, s), 5int,
{
    reveal(parse::p_expr);
    reveal(parse::p_unary);
    reveal(parse::p_infix);
    lemma_unary(toks, s);
    let l = parse::p_unary(toks, s);
    if l.val is Some {
        lemma_infix(toks, after(s, l), l.val->0, min);
    }
}

#[verifier::spinoff_prover]
proof fn lemma_infix(toks: Seq<TokenModel>, s: St, lhs: ExprModel, min: u8)
    requires
        all_neat(toks),
    ensures
        ({
            let r = parse::p_infix(toks, s, lhs, min);
            fine(s, r, legible_expr(lhs) ==> legible_expr(r.val->0))
        }),
    decreases left(toks, s), 4int,
{
    reveal(parse::p_infix);
    reveal(parse::p_expr);
    if let Some((op, l, r)) = parse::infix(kind(toks, s)) {
        if l >= min {
            let s1 = bump(toks, s);
            lemma_expr(toks, s1, r);
            let rhs = parse::p_expr(toks, s1, r);
            let s2 = after(s1, rhs);
            if let Some(e) = rhs.val {
                let both = parse::untyped(
                    ExprKindModel::Binary(op, crate::ast::node(lhs), crate::ast::node(e)),
                    crate::source::span_join(lhs.span, e.span),
                );
                reveal(legible_expr);
                lemma_infix(toks, s2, both, min);
            }
        }
    }
}

#[verifier::spinoff_prover]
proof fn lemma_unary(toks: Seq<TokenModel>, s: St)
    requires
        all_neat(toks),
    ensures
        ({
            let r = parse::p_unary(toks, s);
            fine(s, r, legible_expr(r.val->0))
        }),
    decreases left(toks, s), 4int,
{
    reveal(parse::p_unary);
    reveal(parse::p_postfix);
    if kind(toks, s) is Minus || kind(toks, s) is Bang {
        lemma_unary(toks, bump(toks, s));
        reveal(legible_expr);
    } else {
        lemma_postfix(toks, s);
    }
}

#[verifier::spinoff_prover]
proof fn lemma_postfix(toks: Seq<TokenModel>, s: St)
    requires
        all_neat(toks),
    ensures
        ({
            let r = parse::p_postfix(toks, s);
            fine(s, r, legible_expr(r.val->0))
        }),
    decreases left(toks, s), 3int,
{
    reveal(parse::p_postfix);
    reveal(parse::p_atom);
    reveal(parse::p_suffixes);
    lemma_atom(toks, s);
    let e = parse::p_atom(toks, s);
    if e.val is Some {
        lemma_suffixes(toks, after(s, e), e.val->0);
    }
}

#[verifier::spinoff_prover]
proof fn lemma_suffixes(toks: Seq<TokenModel>, s: St, e: ExprModel)
    requires
        all_neat(toks),
    ensures
        ({
            let r = parse::p_suffixes(toks, s, e);
            fine(s, r, legible_expr(e) ==> legible_expr(r.val->0))
        }),
    decreases left(toks, s), 1int,
{
    reveal(parse::p_suffixes);
    reveal(parse::p_suffix);
    match kind(toks, s) {
        TokenKind::LParen | TokenKind::Dot | TokenKind::LBracket => {
            lemma_suffix(toks, s, e);
            let one = parse::p_suffix(toks, s, e);
            if one.val is Some && one.used > 0 {
                lemma_suffixes(toks, after(s, one), one.val->0);
            }
        },
        _ => {},
    }
}

#[verifier::spinoff_prover]
proof fn lemma_suffix(toks: Seq<TokenModel>, s: St, e: ExprModel)
    requires
        all_neat(toks),
    ensures
        ({
            let r = parse::p_suffix(toks, s, e);
            fine(s, r, legible_expr(e) ==> legible_expr(r.val->0))
        }),
    decreases left(toks, s), 0int,
{
    reveal(parse::p_suffix);
    reveal(parse::p_args);
    reveal(parse::p_expr);
    reveal(legible_expr);
    reveal(legible_exprs);
    let s1 = bump(toks, s);
    match kind(toks, s) {
        TokenKind::LParen => {
            lemma_args(toks, s1);
        },
        TokenKind::Dot => {
            let n = parse::p_expect(toks, s1, TokenKind::Ident, "field name"@);
            if n.val is Some {
                assert(neat(toks[s1.pos]));
            }
        },
        TokenKind::LBracket => {
            lemma_expr(toks, s1, 0);
        },
        _ => {},
    }
}

#[verifier::spinoff_prover]
proof fn lemma_args(toks: Seq<TokenModel>, s: St)
    requires
        all_neat(toks),
    ensures
        ({
            let r = parse::p_args(toks, s);
            fine(s, r, legible_exprs(r.val->0, r.val->0.len() as int))
        }),
    decreases left(toks, s), 7int,
{
    reveal(parse::p_args);
    reveal(parse::p_exprs);
    reveal(legible_exprs);
    if !(kind(toks, s) is RParen) {
        lemma_exprs(toks, s, Seq::empty());
    }
}

#[verifier::spinoff_prover]
proof fn lemma_exprs(toks: Seq<TokenModel>, s: St, acc: Seq<ExprModel>)
    requires
        all_neat(toks),
    ensures
        ({
            let r = parse::p_exprs(toks, s, acc);
            fine(s, r, legible_exprs(acc, acc.len() as int) ==> legible_exprs(r.val->0, r.val->0.len() as int))
        }),
    decreases left(toks, s), 6int,
{
    reveal(parse::p_exprs);
    reveal(parse::p_expr);
    lemma_expr(toks, s, 0);
    let e = parse::p_expr(toks, s, 0);
    let s1 = after(s, e);
    if e.val is Some {
        if legible_exprs(acc, acc.len() as int) && legible_expr(e.val->0) {
            lemma_push_exprs(acc, e.val->0);
        }
        if kind(toks, s1) is Comma {
            lemma_exprs(toks, bump(toks, s1), acc.push(e.val->0));
        }
    }
}

#[verifier::spinoff_prover]
proof fn lemma_atom(toks: Seq<TokenModel>, s: St)
    requires
        all_neat(toks),
    ensures
        ({
            let r = parse::p_atom(toks, s);
            fine(s, r, legible_expr(r.val->0))
        }),
    decreases left(toks, s), 2int,
{
    reveal(parse::p_atom);
    reveal(parse::p_paren);
    reveal(parse::p_bracket);
    reveal(parse::p_block_expr);
    reveal(parse::p_if);
    reveal(parse::p_closure);
    reveal(parse::p_struct_lit);
    match kind(toks, s) {
        TokenKind::Int(_) | TokenKind::Float(_) | TokenKind::True | TokenKind::False | TokenKind::Nil | TokenKind::Str => {
            reveal(legible_expr);
            assert(neat(toks[s.pos]));
        },
        TokenKind::LParen => {
            lemma_paren(toks, s);
        },
        TokenKind::LBracket => {
            lemma_bracket(toks, s);
        },
        TokenKind::LBrace => {
            lemma_block_expr(toks, s);
        },
        TokenKind::KwIf => {
            lemma_if(toks, s);
        },
        TokenKind::Pipe => {
            lemma_closure(toks, s);
        },
        TokenKind::Ident => {
            reveal(legible_expr);
            assert(neat(toks[s.pos]));
            if kind(toks, bump(toks, s)) is LBrace && parse::type_like(toks[s.pos].ident) {
                lemma_struct_lit(toks, s);
            }
        },
        _ => {},
    }
}

#[verifier::spinoff_prover]
proof fn lemma_paren(toks: Seq<TokenModel>, s: St)
    requires
        all_neat(toks),
        kind(toks, s) is LParen,
    ensures
        ({
            let r = parse::p_paren(toks, s);
            fine(s, r, legible_expr(r.val->0))
        }),
    decreases left(toks, s), 0int,
{
    reveal(parse::p_paren);
    reveal(parse::p_expr);
    lemma_expr(toks, bump(toks, s), 0);
}

#[verifier::spinoff_prover]
proof fn lemma_block_expr(toks: Seq<TokenModel>, s: St)
    requires
        all_neat(toks),
    ensures
        ({
            let r = parse::p_block_expr(toks, s);
            fine(s, r, legible_expr(r.val->0))
        }),
    decreases left(toks, s), 1int,
{
    reveal(parse::p_block_expr);
    reveal(parse::p_block);
    reveal(legible_expr);
    reveal(legible_block);
    lemma_block(toks, s);
}

#[verifier::spinoff_prover]
proof fn lemma_struct_lit(toks: Seq<TokenModel>, s: St)
    requires
        all_neat(toks),
        kind(toks, s) is Ident,
        parse::type_like(toks[s.pos].ident),
    ensures
        ({
            let r = parse::p_struct_lit(toks, s);
            fine(s, r, legible_expr(r.val->0))
        }),
    decreases left(toks, s), 0int,
{
    reveal(parse::p_struct_lit);
    reveal(parse::p_inits);
    reveal(legible_expr);
    reveal(legible_inits);
    assert(neat(toks[s.pos]));
    lemma_inits(toks, bump(toks, bump(toks, s)), Seq::empty());
}

#[verifier::spinoff_prover]
proof fn lemma_inits(toks: Seq<TokenModel>, s: St, acc: Seq<(Seq<char>, ExprModel)>)
    requires
        all_neat(toks),
    ensures
        ({
            let r = parse::p_inits(toks, s, acc);
            fine(s, r, legible_inits(acc, acc.len() as int) ==> legible_inits(r.val->0, r.val->0.len() as int))
        }),
    decreases left(toks, s), 6int,
{
    reveal(parse::p_inits);
    reveal(parse::p_expr);
    if !(kind(toks, s) is RBrace || kind(toks, s) is Eof) {
        let name = parse::p_expect(toks, s, TokenKind::Ident, "field name"@);
        let s1 = after(s, name);
        if name.val is Some {
            assert(neat(toks[s.pos]));
            let colon = parse::p_expect(toks, s1, TokenKind::Colon, "`:`"@);
            let s2 = after(s1, colon);
            if colon.val is Some {
                lemma_expr(toks, s2, 0);
                let e = parse::p_expr(toks, s2, 0);
                let s3 = after(s2, e);
                if e.val is Some {
                    let x = (name.val->0.ident, e.val->0);
                    if legible_inits(acc, acc.len() as int) && legible_expr(e.val->0) {
                        lemma_push_inits(acc, x);
                    }
                    if kind(toks, s3) is Comma {
                        lemma_inits(toks, bump(toks, s3), acc.push(x));
                    }
                }
            }
        }
    }
}

#[verifier::spinoff_prover]
#[verifier::rlimit(40)]
proof fn lemma_bracket(toks: Seq<TokenModel>, s: St)
    requires
        all_neat(toks),
        kind(toks, s) is LBracket,
    ensures
        ({
            let r = parse::p_bracket(toks, s);
            fine(s, r, legible_expr(r.val->0))
        }),
    decreases left(toks, s), 0int,
{
    reveal(parse::p_bracket);
    reveal(parse::p_expr);
    reveal(parse::p_pairs);
    reveal(parse::p_elems);
    reveal(legible_expr);
    reveal(legible_exprs);
    reveal(legible_pairs);
    let s1 = bump(toks, s);
    if !(kind(toks, s1) is RBracket) && !(kind(toks, s1) is Colon && parse::kind_at(toks, s1.pos + 1) is RBracket) {
        lemma_expr(toks, s1, 0);
        let first = parse::p_expr(toks, s1, 0);
        let s2 = after(s1, first);
        if first.val is Some {
            if kind(toks, s2) is FatArrow {
                lemma_expr(toks, bump(toks, s2), 0);
                let v = parse::p_expr(toks, bump(toks, s2), 0);
                let s3 = after(bump(toks, s2), v);
                if v.val is Some {
                    let none = Seq::<(ExprModel, ExprModel)>::empty();
                    let x = (first.val->0, v.val->0);
                    assert(none.push(x) =~= seq![x]);
                    if legible_expr(x.0) && legible_expr(x.1) {
                        lemma_push_pairs(none, x);
                    }
                    lemma_pairs(toks, s3, seq![x]);
                    assert(legible_expr(x.0) && legible_expr(x.1) ==> legible_pairs(seq![x], seq![x].len() as int));
                }
            } else {
                let none = Seq::<ExprModel>::empty();
                let x = first.val->0;
                assert(none.push(x) =~= seq![x]);
                if legible_expr(x) {
                    lemma_push_exprs(none, x);
                }
                lemma_elems(toks, s2, seq![x]);
                assert(legible_expr(x) ==> legible_exprs(seq![x], seq![x].len() as int));
            }
        }
    } else {
        assert(legible_exprs(Seq::empty(), 0));
        assert(legible_pairs(Seq::empty(), 0));
    }
}

#[verifier::spinoff_prover]
proof fn lemma_elems(toks: Seq<TokenModel>, s: St, acc: Seq<ExprModel>)
    requires
        all_neat(toks),
    ensures
        ({
            let r = parse::p_elems(toks, s, acc);
            fine(s, r, legible_exprs(acc, acc.len() as int) ==> legible_exprs(r.val->0, r.val->0.len() as int))
        }),
    decreases left(toks, s), 0int,
{
    reveal(parse::p_elems);
    reveal(parse::p_expr);
    if kind(toks, s) is Comma && !(kind(toks, bump(toks, s)) is RBracket) {
        lemma_expr(toks, bump(toks, s), 0);
        let e = parse::p_expr(toks, bump(toks, s), 0);
        if e.val is Some {
            if legible_exprs(acc, acc.len() as int) && legible_expr(e.val->0) {
                lemma_push_exprs(acc, e.val->0);
            }
            lemma_elems(toks, after(bump(toks, s), e), acc.push(e.val->0));
        }
    }
}

#[verifier::spinoff_prover]
proof fn lemma_pairs(toks: Seq<TokenModel>, s: St, acc: Seq<(ExprModel, ExprModel)>)
    requires
        all_neat(toks),
    ensures
        ({
            let r = parse::p_pairs(toks, s, acc);
            fine(s, r, legible_pairs(acc, acc.len() as int) ==> legible_pairs(r.val->0, r.val->0.len() as int))
        }),
    decreases left(toks, s), 0int,
{
    reveal(parse::p_pairs);
    reveal(parse::p_expr);
    if kind(toks, s) is Comma && !(kind(toks, bump(toks, s)) is RBracket) {
        lemma_expr(toks, bump(toks, s), 0);
        let k = parse::p_expr(toks, bump(toks, s), 0);
        let s1 = after(bump(toks, s), k);
        if k.val is Some {
            let arrow = parse::p_expect(toks, s1, TokenKind::FatArrow, "`=>`"@);
            let s2 = after(s1, arrow);
            if arrow.val is Some {
                lemma_expr(toks, s2, 0);
                let v = parse::p_expr(toks, s2, 0);
                if v.val is Some {
                    let x = (k.val->0, v.val->0);
                    if legible_pairs(acc, acc.len() as int) && legible_expr(x.0) && legible_expr(x.1) {
                        lemma_push_pairs(acc, x);
                    }
                    lemma_pairs(toks, after(s2, v), acc.push(x));
                }
            }
        }
    }
}

#[verifier::spinoff_prover]
#[verifier::rlimit(40)]
proof fn lemma_if(toks: Seq<TokenModel>, s: St)
    requires
        all_neat(toks),
        kind(toks, s) is KwIf,
    ensures
        ({
            let r = parse::p_if(toks, s);
            fine(s, r, legible_expr(r.val->0))
        }),
    decreases left(toks, s), 0int,
{
    reveal(parse::p_if);
    reveal(parse::p_expr);
    reveal(parse::p_block);
    reveal(legible_expr);
    reveal(legible_block);
    reveal(legible_stmts);
    let s1 = bump(toks, s);
    lemma_expr(toks, s1, 0);
    let cond = parse::p_expr(toks, s1, 0);
    let s2 = after(s1, cond);
    if cond.val is Some {
        lemma_block(toks, s2);
        let yes = parse::p_block(toks, s2);
        let s3 = after(s2, yes);
        if yes.val is Some && kind(toks, s3) is KwElse {
            let s4 = bump(toks, s3);
            if kind(toks, s4) is KwIf {
                lemma_if(toks, s4);
                if let Some(i) = parse::p_if(toks, s4).val {
                    let b = crate::ast::BlockModel { stmts: Seq::empty(), tail: Some(i), span: i.span };
                    assert(legible_stmts(b.stmts, b.stmts.len() as int));
                    assert(legible_expr(i) ==> legible_block(b));
                }
            } else {
                lemma_block(toks, s4);
            }
        }
    }
}

#[verifier::spinoff_prover]
proof fn lemma_closure(toks: Seq<TokenModel>, s: St)
    requires
        all_neat(toks),
        kind(toks, s) is Pipe,
    ensures
        ({
            let r = parse::p_closure(toks, s);
            fine(s, r, legible_expr(r.val->0))
        }),
    decreases left(toks, s), 0int,
{
    reveal(parse::p_closure);
    reveal(parse::p_expr);
    reveal(legible_expr);
    let s1 = bump(toks, s);
    lemma_params_to(toks, s1, TokenKind::Pipe);
    let ps = parse::p_params_to(toks, s1, TokenKind::Pipe);
    let s2 = after(s1, ps);
    if ps.val is Some {
        let close = parse::p_expect(toks, s2, TokenKind::Pipe, "`|`"@);
        if close.val is Some {
            lemma_expr(toks, after(s2, close), 0);
        }
    }
}

// --- statements ------------------------------------------------------------------------

#[verifier::spinoff_prover]
proof fn lemma_block(toks: Seq<TokenModel>, s: St)
    requires
        all_neat(toks),
    ensures
        ({
            let r = parse::p_block(toks, s);
            fine(s, r, legible_block(r.val->0))
        }),
    decreases left(toks, s), 0int,
{
    reveal(parse::p_block);
    reveal(parse::p_body);
    reveal(legible_block);
    reveal(legible_stmts);
    reveal(legible_expr);
    let open = parse::p_expect(toks, s, TokenKind::LBrace, "`{`"@);
    if open.val is Some {
        lemma_body(toks, after(s, open), Seq::empty());
    }
}

#[verifier::spinoff_prover]
proof fn lemma_body(toks: Seq<TokenModel>, s: St, acc: Seq<StmtModel>)
    requires
        all_neat(toks),
    ensures
        ({
            let r = parse::p_body(toks, s, acc);
            fine(s, r, legible_stmts(acc, acc.len() as int) ==> legible_stmts(r.val->0.stmts, r.val->0.stmts.len() as int) && (r.val->0.tail is Some ==> legible_expr(r.val->0.tail->0)))
        }),
    decreases left(toks, s), 8int,
{
    reveal(parse::p_body);
    reveal(parse::p_item);
    if !(kind(toks, s) is RBrace || kind(toks, s) is Eof) {
        lemma_item(toks, s);
        let item = parse::p_item(toks, s);
        let s1 = after(s, item);
        if let Some(Item::Stmt(x)) = item.val {
            if item.used > 0 {
                if legible_stmts(acc, acc.len() as int) && legible_stmt(x) {
                    lemma_push_stmts(acc, x);
                }
                lemma_body(toks, s1, acc.push(x));
            }
        }
    }
}

#[verifier::spinoff_prover]
proof fn lemma_jump(toks: Seq<TokenModel>, s: St, k: StmtKindModel)
    requires
        all_neat(toks),
    ensures
        ({
            let r = parse::p_jump(toks, s, k);
            fine(s, r, k is Break || k is Continue ==> legible_stmt(r.val->0))
        }),
{
    reveal(parse::p_jump);
    reveal(legible_stmt);
}

#[verifier::spinoff_prover]
proof fn lemma_init(toks: Seq<TokenModel>, s: St)
    requires
        all_neat(toks),
    ensures
        ({
            let r = parse::p_init(toks, s);
            fine(s, r, legible_expr(r.val->0.value))
        }),
    decreases left(toks, s), 0int,
{
    reveal(parse::p_init);
    reveal(parse::p_expr);
    let eq = parse::p_expect(toks, s, TokenKind::Assign, "`=`"@);
    if eq.val is Some {
        lemma_expr(toks, after(s, eq), 0);
    }
}

#[verifier::spinoff_prover]
proof fn lemma_let(toks: Seq<TokenModel>, s: St)
    requires
        all_neat(toks),
        kind(toks, s) is KwLet,
    ensures
        ({
            let r = parse::p_let(toks, s);
            fine(s, r, legible_stmt(r.val->0))
        }),
    decreases left(toks, s), 0int,
{
    reveal(parse::p_let);
    reveal(parse::p_init);
    reveal(legible_stmt);
    let s1 = bump(toks, s);
    let s2 = parse::p_eat(toks, s1, TokenKind::KwMut);
    let name = parse::p_expect(toks, s2, TokenKind::Ident, "binding name"@);
    let s3 = after(s2, name);
    if name.val is Some {
        assert(neat(toks[s2.pos]));
        lemma_annotation(toks, s3);
        let ty = parse::p_annotation(toks, s3);
        if ty.val is Some {
            lemma_init(toks, after(s3, ty));
        }
    }
}

#[verifier::spinoff_prover]
proof fn lemma_return_value(toks: Seq<TokenModel>, s: St)
    requires
        all_neat(toks),
    ensures
        ({
            let r = parse::p_return_value(toks, s);
            fine(s, r, r.val->0 is Some ==> legible_expr(r.val->0->0))
        }),
    decreases left(toks, s), 6int,
{
    reveal(parse::p_return_value);
    reveal(parse::p_expr);
    if !(kind(toks, s) is Semicolon) {
        lemma_expr(toks, s, 0);
    }
}

#[verifier::spinoff_prover]
proof fn lemma_return(toks: Seq<TokenModel>, s: St)
    requires
        all_neat(toks),
        kind(toks, s) is KwReturn,
    ensures
        ({
            let r = parse::p_return(toks, s);
            fine(s, r, legible_stmt(r.val->0))
        }),
    decreases left(toks, s), 0int,
{
    reveal(parse::p_return);
    reveal(parse::p_return_value);
    reveal(legible_stmt);
    lemma_return_value(toks, bump(toks, s));
}

#[verifier::spinoff_prover]
proof fn lemma_while(toks: Seq<TokenModel>, s: St)
    requires
        all_neat(toks),
        kind(toks, s) is KwWhile,
    ensures
        ({
            let r = parse::p_while(toks, s);
            fine(s, r, legible_stmt(r.val->0))
        }),
    decreases left(toks, s), 0int,
{
    reveal(parse::p_while);
    reveal(parse::p_expr);
    reveal(parse::p_block);
    reveal(legible_stmt);
    let s1 = bump(toks, s);
    lemma_expr(toks, s1, 0);
    let cond = parse::p_expr(toks, s1, 0);
    if cond.val is Some {
        lemma_block(toks, after(s1, cond));
    }
}

#[verifier::spinoff_prover]
proof fn lemma_expr_item(toks: Seq<TokenModel>, s: St)
    requires
        all_neat(toks),
    ensures
        ({
            let r = parse::p_expr_item(toks, s);
            fine(s, r, match r.val->0 { Item::Stmt(x) => legible_stmt(x), Item::Tail(x) => legible_expr(x) })
        }),
    decreases left(toks, s), 6int,
{
    reveal(parse::p_expr_item);
    reveal(parse::p_expr);
    reveal(parse::p_init);
    reveal(legible_stmt);
    lemma_expr(toks, s, 0);
    let e = parse::p_expr(toks, s, 0);
    let s1 = after(s, e);
    if e.val is Some && kind(toks, s1) is Assign {
        lemma_init(toks, s1);
    }
}

#[verifier::spinoff_prover]
proof fn lemma_item(toks: Seq<TokenModel>, s: St)
    requires
        all_neat(toks),
    ensures
        ({
            let r = parse::p_item(toks, s);
            fine(s, r, match r.val->0 { Item::Stmt(x) => legible_stmt(x), Item::Tail(x) => legible_expr(x) })
        }),
    decreases left(toks, s), 7int,
{
    reveal(parse::p_item);
    reveal(parse::p_let);
    reveal(parse::p_return);
    reveal(parse::p_while);
    reveal(parse::p_expr_item);
    match kind(toks, s) {
        TokenKind::KwLet => {
            lemma_let(toks, s);
        },
        TokenKind::KwReturn => {
            lemma_return(toks, s);
        },
        TokenKind::KwWhile => {
            lemma_while(toks, s);
        },
        TokenKind::KwBreak => {
            lemma_jump(toks, s, StmtKindModel::Break);
        },
        TokenKind::KwContinue => {
            lemma_jump(toks, s, StmtKindModel::Continue);
        },
        _ => {
            lemma_expr_item(toks, s);
        },
    }
}

// --- declarations ----------------------------------------------------------------------

#[verifier::spinoff_prover]
#[verifier::rlimit(30)]
proof fn lemma_fn(toks: Seq<TokenModel>, s: St)
    requires
        all_neat(toks),
    ensures
        ({
            let r = parse::p_fn(toks, s);
            fine(s, r, legible_decl(DeclModel::Fn(r.val->0)))
        }),
{
    reveal(parse::p_fn);
    let s1 = bump(toks, s);
    let name = parse::p_expect(toks, s1, TokenKind::Ident, "function name"@);
    let s2 = after(s1, name);
    if name.val is Some {
        assert(neat(toks[s1.pos]));
        let open = parse::p_expect(toks, s2, TokenKind::LParen, "`(`"@);
        let s3 = after(s2, open);
        if open.val is Some {
            lemma_params_to(toks, s3, TokenKind::RParen);
            let ps = parse::p_params_to(toks, s3, TokenKind::RParen);
            let s4 = after(s3, ps);
            if ps.val is Some {
                let close = parse::p_expect(toks, s4, TokenKind::RParen, "`)`"@);
                let s5 = after(s4, close);
                if close.val is Some {
                    lemma_result(toks, s5);
                    let ret = parse::p_result(toks, s5);
                    if ret.val is Some {
                        lemma_block(toks, after(s5, ret));
                    }
                }
            }
        }
    }
}

#[verifier::spinoff_prover]
proof fn lemma_fields(toks: Seq<TokenModel>, s: St, acc: Seq<(Seq<char>, TypeModel, Span)>)
    requires
        all_neat(toks),
    ensures
        ({
            let r = parse::p_fields(toks, s, acc);
            fine(s, r, legible_fields(acc) ==> legible_fields(r.val->0))
        }),
    decreases left(toks, s),
{
    reveal(parse::p_fields);
    if !(kind(toks, s) is RBrace || kind(toks, s) is Eof) {
        let name = parse::p_expect(toks, s, TokenKind::Ident, "field name"@);
        let s1 = after(s, name);
        if name.val is Some {
            assert(neat(toks[s.pos]));
            let colon = parse::p_expect(toks, s1, TokenKind::Colon, "`:`"@);
            let s2 = after(s1, colon);
            if colon.val is Some {
                lemma_type(toks, s2);
                let t = parse::p_type(toks, s2);
                let s3 = after(s2, t);
                if t.val is Some {
                    let x = (name.val->0.ident, t.val->0, name.val->0.span);
                    if legible_fields(acc) && legible_type(t.val->0) {
                        assert(legible_fields(acc.push(x)));
                    }
                    if kind(toks, s3) is Comma {
                        lemma_fields(toks, bump(toks, s3), acc.push(x));
                    }
                }
            }
        }
    }
}

spec fn legible_fields(fs: Seq<(Seq<char>, TypeModel, Span)>) -> bool {
    forall|i: int| 0 <= i < fs.len() ==> word((#[trigger] fs[i]).0) && legible_type(fs[i].1)
}

#[verifier::spinoff_prover]
proof fn lemma_struct(toks: Seq<TokenModel>, s: St)
    requires
        all_neat(toks),
    ensures
        ({
            let r = parse::p_struct(toks, s);
            fine(s, r, legible_decl(DeclModel::Struct(r.val->0)))
        }),
{
    reveal(parse::p_struct);
    let s1 = bump(toks, s);
    let name = parse::p_expect(toks, s1, TokenKind::Ident, "struct name"@);
    let s2 = after(s1, name);
    if name.val is Some {
        assert(neat(toks[s1.pos]));
        let open = parse::p_expect(toks, s2, TokenKind::LBrace, "`{`"@);
        if open.val is Some {
            lemma_fields(toks, after(s2, open), Seq::empty());
        }
    }
}

#[verifier::spinoff_prover]
proof fn lemma_const(toks: Seq<TokenModel>, s: St)
    requires
        all_neat(toks),
    ensures
        ({
            let r = parse::p_const(toks, s);
            fine(s, r, legible_decl(DeclModel::Const(r.val->0)))
        }),
{
    reveal(parse::p_const);
    let s1 = bump(toks, s);
    let name = parse::p_expect(toks, s1, TokenKind::Ident, "constant name"@);
    let s2 = after(s1, name);
    if name.val is Some {
        assert(neat(toks[s1.pos]));
        let colon = parse::p_expect(toks, s2, TokenKind::Colon, "`:`"@);
        let s3 = after(s2, colon);
        if colon.val is Some {
            lemma_type(toks, s3);
            let ty = parse::p_type(toks, s3);
            if ty.val is Some {
                lemma_init(toks, after(s3, ty));
            }
        }
    }
}

#[verifier::spinoff_prover]
proof fn lemma_decl(toks: Seq<TokenModel>, s: St)
    requires
        all_neat(toks),
    ensures
        ({
            let r = parse::p_decl(toks, s);
            fine(s, r, legible_decl(r.val->0))
        }),
{
    reveal(parse::p_decl);
    match kind(toks, s) {
        TokenKind::KwFn => {
            lemma_fn(toks, s);
        },
        TokenKind::KwStruct => {
            lemma_struct(toks, s);
        },
        TokenKind::KwConst => {
            lemma_const(toks, s);
        },
        _ => {},
    }
}

proof fn lemma_decls(toks: Seq<TokenModel>, s: St, acc: Seq<DeclModel>)
    requires
        all_neat(toks),
    ensures
        ({
            let r = parse::p_decls(toks, s, acc);
            &&& r.1.len() >= s.diags.len()
            &&& r.1.len() == s.diags.len() && legible(ModuleModel { decls: acc }) ==> legible(ModuleModel { decls: r.0 })
        }),
    decreases left(toks, s),
{
    reveal(parse::p_decls);
    if !(kind(toks, s) is Eof) {
        lemma_decl(toks, s);
        let d = parse::p_decl(toks, s);
        let s1 = after(s, d);
        match d.val {
            Some(x) => {
                if legible(ModuleModel { decls: acc }) && legible_decl(x) {
                    let m = ModuleModel { decls: acc.push(x) };
                    assert forall|i: int| 0 <= i < m.decls.len() implies legible_decl(#[trigger] m.decls[i]) by {
                        if i < acc.len() {
                            assert(m.decls[i] == ModuleModel { decls: acc }.decls[i]);
                        }
                    }
                }
                if s1.pos > s.pos {
                    lemma_decls(toks, s1, acc.push(x));
                }
            },
            None => {
                let s2 = St { pos: parse::resync(toks, s1.pos), diags: s1.diags };
                if s2.pos > s.pos {
                    lemma_decls(toks, s2, acc);
                }
            },
        }
    }
}

/// A module that the parser gives without a complaint can be written down.
pub proof fn lemma_parsed(toks: Seq<TokenModel>)
    requires
        all_neat(toks),
        parse::parsed(toks).1.len() == 0,
    ensures
        legible(parse::parsed(toks).0),
{
    lemma_decls(toks, St { pos: 0, diags: Seq::empty() }, Seq::empty());
}

} // verus!
