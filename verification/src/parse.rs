//! Pratt parser for sli.
//!
//! Top-down operator precedence over the [`crate::lex::Token`] stream. The grammar is a
//! family of specification functions, `p_*`: each takes the token stream and a state (a
//! position, and the complaints so far) and says what is read there, how many tokens it
//! takes, and what complaints there are then. The parser's methods compute them.

use crate::ast;
use crate::ast::{
    BinOp, Block, BlockModel, ConstDecl, ConstDeclModel, Decl, DeclModel, Expr, ExprKind, ExprKindModel, ExprModel,
    FnDecl, FnDeclModel, Lit, LitModel, Module, ModuleModel, Param, ParamModel, Stmt, StmtKind, StmtKindModel, StmtModel,
    StructDecl, StructDeclModel, Type, TypeModel, UnOp,
};
use crate::diag;
use crate::diag::{Diagnostic, DiagnosticModel, Diagnostics};
use crate::float;
use crate::lex::{Token, TokenKind, TokenModel};
use crate::source;
use crate::source::Span;
use crate::text;
use crate::text::push_dec_int;
use crate::views;
use vstd::prelude::*;
use vstd::string::*;

pub use crate::print::print;

verus! {

// --- the grammar ----------------------------------------------------------------

/// A point in the parse: a position in the stream, and the complaints so far.
pub struct St {
    pub pos: int,
    pub diags: Seq<DiagnosticModel>,
}

/// What a rule gives: a value where it succeeds, the number of tokens it takes, and the
/// complaints so far.
pub struct Res<T> {
    pub val: Option<T>,
    pub used: nat,
    pub diags: Seq<DiagnosticModel>,
}

/// The state behind a rule.
pub open spec fn after<T>(s: St, r: Res<T>) -> St {
    St { pos: s.pos + r.used, diags: r.diags }
}

/// The result of a rule that started at `from` and ends at `to`.
pub open spec fn done<T>(from: St, to: St, val: Option<T>) -> Res<T> {
    Res { val, used: (to.pos - from.pos) as nat, diags: to.diags }
}

/// The tokens that are left.
pub open spec fn left(toks: Seq<TokenModel>, s: St) -> int {
    if s.pos < toks.len() {
        toks.len() - s.pos
    } else {
        0
    }
}

/// The kind of the token at a position; `Eof` outside the stream.
pub open spec fn kind_at(toks: Seq<TokenModel>, pos: int) -> TokenKind {
    if 0 <= pos < toks.len() {
        toks[pos].kind
    } else {
        TokenKind::Eof
    }
}

pub open spec fn kind(toks: Seq<TokenModel>, s: St) -> TokenKind {
    kind_at(toks, s.pos)
}

/// The state behind the current token. The final `Eof` is never passed.
pub open spec fn bump(toks: Seq<TokenModel>, s: St) -> St {
    if kind(toks, s) is Eof {
        s
    } else {
        St { pos: s.pos + 1, diags: s.diags }
    }
}

/// The state with one more complaint.
pub open spec fn complain(s: St, span: Span, message: Seq<char>) -> St {
    St { pos: s.pos, diags: s.diags.push(diag::error_at(span, message)) }
}

/// The name of a token kind.
#[verifier::opaque]
pub open spec fn kind_name(k: TokenKind) -> Seq<char> {
    match k {
        TokenKind::Int(_) => "Int"@,
        TokenKind::Float(_) => "Float"@,
        TokenKind::Str => "Str"@,
        TokenKind::Ident => "Ident"@,
        TokenKind::Eof => "Eof"@,
        TokenKind::True => "True"@,
        TokenKind::False => "False"@,
        TokenKind::Nil => "Nil"@,
        TokenKind::KwFn => "KwFn"@,
        TokenKind::KwLet => "KwLet"@,
        TokenKind::KwMut => "KwMut"@,
        TokenKind::KwConst => "KwConst"@,
        TokenKind::KwReturn => "KwReturn"@,
        TokenKind::KwIf => "KwIf"@,
        TokenKind::KwElse => "KwElse"@,
        TokenKind::KwWhile => "KwWhile"@,
        TokenKind::KwFor => "KwFor"@,
        TokenKind::KwIn => "KwIn"@,
        TokenKind::KwBreak => "KwBreak"@,
        TokenKind::KwContinue => "KwContinue"@,
        TokenKind::KwStruct => "KwStruct"@,
        TokenKind::KwAs => "KwAs"@,
        TokenKind::LParen => "LParen"@,
        TokenKind::RParen => "RParen"@,
        TokenKind::LBrace => "LBrace"@,
        TokenKind::RBrace => "RBrace"@,
        TokenKind::LBracket => "LBracket"@,
        TokenKind::RBracket => "RBracket"@,
        TokenKind::Comma => "Comma"@,
        TokenKind::Semicolon => "Semicolon"@,
        TokenKind::Colon => "Colon"@,
        TokenKind::ColonColon => "ColonColon"@,
        TokenKind::Dot => "Dot"@,
        TokenKind::Arrow => "Arrow"@,
        TokenKind::FatArrow => "FatArrow"@,
        TokenKind::Pipe => "Pipe"@,
        TokenKind::Assign => "Assign"@,
        TokenKind::Plus => "Plus"@,
        TokenKind::Minus => "Minus"@,
        TokenKind::Star => "Star"@,
        TokenKind::Slash => "Slash"@,
        TokenKind::Percent => "Percent"@,
        TokenKind::EqEq => "EqEq"@,
        TokenKind::BangEq => "BangEq"@,
        TokenKind::Lt => "Lt"@,
        TokenKind::LtEq => "LtEq"@,
        TokenKind::Gt => "Gt"@,
        TokenKind::GtEq => "GtEq"@,
        TokenKind::AmpAmp => "AmpAmp"@,
        TokenKind::PipePipe => "PipePipe"@,
        TokenKind::Bang => "Bang"@,
        TokenKind::Error => "Error"@,
    }
}

/// How a complaint names a token.
#[verifier::opaque]
pub open spec fn label(t: TokenModel) -> Seq<char> {
    match t.kind {
        TokenKind::Eof => "<eof>"@,
        TokenKind::Ident => t.ident,
        TokenKind::Str => "\""@ + t.str_value + "\""@,
        TokenKind::Int(v) => text::dec_int(v as int),
        TokenKind::Float(b) => float::shown(b),
        _ => kind_name(t.kind),
    }
}

/// `expected {what}, found {token}`.
pub open spec fn expected(what: Seq<char>, t: TokenModel) -> Seq<char> {
    "expected "@ + what + ", found `"@ + label(t) + "`"@
}

/// A token of kind `k`, or a complaint.
pub open spec fn p_expect(toks: Seq<TokenModel>, s: St, k: TokenKind, what: Seq<char>) -> Res<TokenModel> {
    if kind(toks, s) == k {
        done(s, bump(toks, s), Some(toks[s.pos]))
    } else {
        done(s, complain(s, toks[s.pos].span, expected(what, toks[s.pos])), None)
    }
}

/// The state behind a token of kind `k` where there is one, else the same state.
pub open spec fn p_eat(toks: Seq<TokenModel>, s: St, k: TokenKind) -> St {
    if kind(toks, s) == k {
        bump(toks, s)
    } else {
        s
    }
}

pub open spec fn untyped(kind: ExprKindModel, span: Span) -> ExprModel {
    ExprModel { kind, span, ty: TypeModel::Unknown }
}

/// Binary operators with their left and right binding powers.
pub open spec fn infix(k: TokenKind) -> Option<(BinOp, u8, u8)> {
    match k {
        TokenKind::PipePipe => Some((BinOp::Or, 1, 2)),
        TokenKind::AmpAmp => Some((BinOp::And, 3, 4)),
        TokenKind::EqEq => Some((BinOp::Eq, 5, 6)),
        TokenKind::BangEq => Some((BinOp::Ne, 5, 6)),
        TokenKind::Lt => Some((BinOp::Lt, 7, 8)),
        TokenKind::LtEq => Some((BinOp::Le, 7, 8)),
        TokenKind::Gt => Some((BinOp::Gt, 7, 8)),
        TokenKind::GtEq => Some((BinOp::Ge, 7, 8)),
        TokenKind::Plus => Some((BinOp::Add, 9, 10)),
        TokenKind::Minus => Some((BinOp::Sub, 9, 10)),
        TokenKind::Star => Some((BinOp::Mul, 11, 12)),
        TokenKind::Slash => Some((BinOp::Div, 11, 12)),
        TokenKind::Percent => Some((BinOp::Mod, 11, 12)),
        _ => None,
    }
}

/// Whether a name starts with an upper-case letter, as the names of structs do.
pub open spec fn type_like(name: Seq<char>) -> bool {
    name.len() > 0 && 'A' <= name[0] <= 'Z'
}

/// The built-in type of a name that takes no arguments.
#[verifier::opaque]
pub open spec fn simple_type(name: Seq<char>) -> Option<TypeModel> {
    if name == "i32"@ {
        Some(TypeModel::I32)
    } else if name == "i64"@ {
        Some(TypeModel::I64)
    } else if name == "f32"@ {
        Some(TypeModel::F32)
    } else if name == "f64"@ {
        Some(TypeModel::F64)
    } else if name == "bool"@ {
        Some(TypeModel::Bool)
    } else if name == "str"@ {
        Some(TypeModel::Str)
    } else if name == "nil"@ {
        Some(TypeModel::Nil)
    } else if name == "Entity"@ {
        Some(TypeModel::Entity)
    } else {
        None
    }
}

/// The built-in generic type `name<inner>`.
#[verifier::opaque]
pub open spec fn wrapped_type(name: Seq<char>, inner: TypeModel) -> Option<TypeModel> {
    if name == "Query"@ {
        Some(TypeModel::Query(ast::node(inner)))
    } else if name == "Res"@ {
        Some(TypeModel::Res(ast::node(inner)))
    } else if name == "ResMut"@ {
        Some(TypeModel::ResMut(ast::node(inner)))
    } else if name == "Array"@ {
        Some(TypeModel::Array(ast::node(inner)))
    } else {
        None
    }
}

/// `type := fn ( types ) [-> type] | Name [< type [, type] >] | nil`
#[verifier::opaque]
pub open spec fn p_type(toks: Seq<TokenModel>, s: St) -> Res<TypeModel>
    decreases left(toks, s), 0int,
{
    let tok = toks[s.pos];
    let s1 = bump(toks, s);
    match kind(toks, s) {
        TokenKind::KwFn => {
            let open = p_expect(toks, s1, TokenKind::LParen, "`(`"@);
            let s2 = after(s1, open);
            if open.val is None {
                done(s, s2, None)
            } else {
                let ps = p_type_args(toks, s2);
                let s3 = after(s2, ps);
                if ps.val is None {
                    done(s, s3, None)
                } else {
                    let close = p_expect(toks, s3, TokenKind::RParen, "`)`"@);
                    let s4 = after(s3, close);
                    if close.val is None {
                        done(s, s4, None)
                    } else {
                        let ret = p_result(toks, s4);
                        let s5 = after(s4, ret);
                        match ret.val {
                            Some(r) => done(s, s5, Some(TypeModel::Fn(ps.val->0, ast::node(r)))),
                            None => done(s, s5, None),
                        }
                    }
                }
            }
        },
        TokenKind::Ident => if simple_type(tok.ident) is Some {
            done(s, s1, simple_type(tok.ident))
        } else if wrapped_type(tok.ident, TypeModel::Nil) is Some {
            let open = p_expect(toks, s1, TokenKind::Lt, "`<`"@);
            let s2 = after(s1, open);
            if open.val is None {
                done(s, s2, None)
            } else {
                let inner = p_type(toks, s2);
                let s3 = after(s2, inner);
                if inner.val is None {
                    done(s, s3, None)
                } else {
                    let close = p_expect(toks, s3, TokenKind::Gt, "`>`"@);
                    let s4 = after(s3, close);
                    if close.val is None {
                        done(s, s4, None)
                    } else {
                        done(s, s4, wrapped_type(tok.ident, inner.val->0))
                    }
                }
            }
        } else if tok.ident == "Map"@ {
            let open = p_expect(toks, s1, TokenKind::Lt, "`<`"@);
            let s2 = after(s1, open);
            if open.val is None {
                done(s, s2, None)
            } else {
                let key = p_type(toks, s2);
                let s3 = after(s2, key);
                if key.val is None {
                    done(s, s3, None)
                } else {
                    let comma = p_expect(toks, s3, TokenKind::Comma, "`,`"@);
                    let s4 = after(s3, comma);
                    if comma.val is None {
                        done(s, s4, None)
                    } else {
                        let value = p_type(toks, s4);
                        let s5 = after(s4, value);
                        if value.val is None {
                            done(s, s5, None)
                        } else {
                            let close = p_expect(toks, s5, TokenKind::Gt, "`>`"@);
                            let s6 = after(s5, close);
                            if close.val is None {
                                done(s, s6, None)
                            } else {
                                done(s, s6, Some(TypeModel::Dict(ast::node(key.val->0), ast::node(value.val->0))))
                            }
                        }
                    }
                }
            }
        } else {
            done(s, s1, Some(TypeModel::Struct(tok.ident)))
        },
        TokenKind::Nil => done(s, s1, Some(TypeModel::Nil)),
        _ => done(s, complain(s1, tok.span, expected_type(tok)), Some(TypeModel::Error)),
    }
}

/// `expected type, found {token}`.
pub open spec fn expected_type(t: TokenModel) -> Seq<char> {
    "expected type, found `"@ + label(t) + "`"@
}

/// The parameter types of a function type, up to its closing parenthesis.
#[verifier::opaque]
pub open spec fn p_type_args(toks: Seq<TokenModel>, s: St) -> Res<Seq<TypeModel>>
    decreases left(toks, s), 2int,
{
    if kind(toks, s) is RParen {
        done(s, s, Some(Seq::empty()))
    } else {
        p_types(toks, s, Seq::empty())
    }
}

/// An optional `-> type`; `nil` where it is left out.
#[verifier::opaque]
pub open spec fn p_result(toks: Seq<TokenModel>, s: St) -> Res<TypeModel>
    decreases left(toks, s), 1int,
{
    if kind(toks, s) is Arrow {
        let t = p_type(toks, bump(toks, s));
        done(s, after(bump(toks, s), t), t.val)
    } else {
        done(s, s, Some(TypeModel::Nil))
    }
}

/// `types := type [, types]`, behind those of `acc`.
#[verifier::opaque]
pub open spec fn p_types(toks: Seq<TokenModel>, s: St, acc: Seq<TypeModel>) -> Res<Seq<TypeModel>>
    decreases left(toks, s), 1int,
{
    let t = p_type(toks, s);
    let s1 = after(s, t);
    match t.val {
        None => done(s, s1, None),
        Some(ty) => if kind(toks, s1) is Comma {
            let rest = p_types(toks, bump(toks, s1), acc.push(ty));
            done(s, after(bump(toks, s1), rest), rest.val)
        } else {
            done(s, s1, Some(acc.push(ty)))
        },
    }
}

/// An optional `: type`.
#[verifier::opaque]
pub open spec fn p_annotation(toks: Seq<TokenModel>, s: St) -> Res<TypeModel> {
    if kind(toks, s) is Colon {
        let t = p_type(toks, bump(toks, s));
        done(s, after(bump(toks, s), t), t.val)
    } else {
        done(s, s, Some(TypeModel::Unknown))
    }
}

/// `param := name [: type]`
#[verifier::opaque]
pub open spec fn p_param(toks: Seq<TokenModel>, s: St) -> Res<ParamModel> {
    let name = p_expect(toks, s, TokenKind::Ident, "parameter name"@);
    let s1 = after(s, name);
    match name.val {
        None => done(s, s1, None),
        Some(n) => {
            let ty = p_annotation(toks, s1);
            let s2 = after(s1, ty);
            match ty.val {
                None => done(s, s2, None),
                Some(t) => done(s, s2, Some(ParamModel { name: n.ident, ty: t, span: n.span })),
            }
        },
    }
}

/// `params := param [, params]`, behind those of `acc`.
#[verifier::opaque]
pub open spec fn p_params(toks: Seq<TokenModel>, s: St, acc: Seq<ParamModel>) -> Res<Seq<ParamModel>>
    decreases left(toks, s),
{
    let p = p_param(toks, s);
    let s1 = after(s, p);
    match p.val {
        None => done(s, s1, None),
        Some(x) => if kind(toks, s1) is Comma {
            let rest = p_params(toks, bump(toks, s1), acc.push(x));
            done(s, after(bump(toks, s1), rest), rest.val)
        } else {
            done(s, s1, Some(acc.push(x)))
        },
    }
}

/// The parameters up to a closing token.
#[verifier::opaque]
pub open spec fn p_params_to(toks: Seq<TokenModel>, s: St, close: TokenKind) -> Res<Seq<ParamModel>> {
    if kind(toks, s) == close {
        done(s, s, Some(Seq::empty()))
    } else {
        p_params(toks, s, Seq::empty())
    }
}

/// `expr`: a unary expression, then operators that bind at least as tightly as `min`.
#[verifier::opaque]
pub open spec fn p_expr(toks: Seq<TokenModel>, s: St, min: u8) -> Res<ExprModel>
    decreases left(toks, s), 5int,
{
    let lhs = p_unary(toks, s);
    let s1 = after(s, lhs);
    match lhs.val {
        None => done(s, s1, None),
        Some(e) => {
            let r = p_infix(toks, s1, e, min);
            done(s, after(s1, r), r.val)
        },
    }
}

/// The operators behind the left-hand side `lhs` that bind at least as tightly as `min`.
#[verifier::opaque]
pub open spec fn p_infix(toks: Seq<TokenModel>, s: St, lhs: ExprModel, min: u8) -> Res<ExprModel>
    decreases left(toks, s), 4int,
{
    match infix(kind(toks, s)) {
        None => done(s, s, Some(lhs)),
        Some((op, l, r)) => if l < min {
            done(s, s, Some(lhs))
        } else {
            let s1 = bump(toks, s);
            let rhs = p_expr(toks, s1, r);
            let s2 = after(s1, rhs);
            match rhs.val {
                None => done(s, s2, None),
                Some(e) => {
                    let both = untyped(
                        ExprKindModel::Binary(op, ast::node(lhs), ast::node(e)),
                        source::span_join(lhs.span, e.span),
                    );
                    let rest = p_infix(toks, s2, both, min);
                    done(s, after(s2, rest), rest.val)
                },
            }
        },
    }
}

/// `unary := (- | !) unary | postfix`
#[verifier::opaque]
pub open spec fn p_unary(toks: Seq<TokenModel>, s: St) -> Res<ExprModel>
    decreases left(toks, s), 4int,
{
    if kind(toks, s) is Minus || kind(toks, s) is Bang {
        let op = if kind(toks, s) is Minus {
            UnOp::Neg
        } else {
            UnOp::Not
        };
        let s1 = bump(toks, s);
        let e = p_unary(toks, s1);
        let s2 = after(s1, e);
        match e.val {
            None => done(s, s2, None),
            Some(x) => done(
                s,
                s2,
                Some(untyped(ExprKindModel::Unary(op, ast::node(x)), source::span_join(toks[s.pos].span, x.span))),
            ),
        }
    } else {
        p_postfix(toks, s)
    }
}

/// `postfix := atom suffixes`
#[verifier::opaque]
pub open spec fn p_postfix(toks: Seq<TokenModel>, s: St) -> Res<ExprModel>
    decreases left(toks, s), 3int,
{
    let e = p_atom(toks, s);
    let s1 = after(s, e);
    match e.val {
        None => done(s, s1, None),
        Some(x) => {
            let r = p_suffixes(toks, s1, x);
            done(s, after(s1, r), r.val)
        },
    }
}

/// `suffixes := [(( args ) | . name | [ expr ]) suffixes]`, behind the expression `e`.
#[verifier::opaque]
pub open spec fn p_suffixes(toks: Seq<TokenModel>, s: St, e: ExprModel) -> Res<ExprModel>
    decreases left(toks, s), 1int,
{
    match kind(toks, s) {
        TokenKind::LParen | TokenKind::Dot | TokenKind::LBracket => {
            let one = p_suffix(toks, s, e);
            let s1 = after(s, one);
            match one.val {
                None => done(s, s1, None),
                Some(x) => if one.used == 0 {
                    done(s, s1, None)
                } else {
                    let rest = p_suffixes(toks, s1, x);
                    done(s, after(s1, rest), rest.val)
                },
            }
        },
        _ => done(s, s, Some(e)),
    }
}

/// `suffix := ( args ) | . name | [ expr ]`, behind the expression `e`.
#[verifier::opaque]
pub open spec fn p_suffix(toks: Seq<TokenModel>, s: St, e: ExprModel) -> Res<ExprModel>
    decreases left(toks, s), 0int,
{
    let s1 = bump(toks, s);
    match kind(toks, s) {
        TokenKind::LParen => {
            let args = p_args(toks, s1);
            let s2 = after(s1, args);
            if args.val is None {
                done(s, s2, None)
            } else {
                let close = p_expect(toks, s2, TokenKind::RParen, "`)`"@);
                let s3 = after(s2, close);
                match close.val {
                    None => done(s, s3, None),
                    Some(c) => done(
                        s,
                        s3,
                        Some(untyped(ExprKindModel::Call(ast::node(e), args.val->0), source::span_join(e.span, c.span))),
                    ),
                }
            }
        },
        TokenKind::Dot => {
            let name = p_expect(toks, s1, TokenKind::Ident, "field name"@);
            let s2 = after(s1, name);
            match name.val {
                None => done(s, s2, None),
                Some(n) => done(
                    s,
                    s2,
                    Some(untyped(ExprKindModel::Field(ast::node(e), n.ident), source::span_join(e.span, n.span))),
                ),
            }
        },
        TokenKind::LBracket => {
            let idx = p_expr(toks, s1, 0);
            let s2 = after(s1, idx);
            if idx.val is None {
                done(s, s2, None)
            } else {
                let close = p_expect(toks, s2, TokenKind::RBracket, "`]`"@);
                let s3 = after(s2, close);
                match close.val {
                    None => done(s, s3, None),
                    Some(c) => done(
                        s,
                        s3,
                        Some(
                            untyped(
                                ExprKindModel::Index(ast::node(e), ast::node(idx.val->0)),
                                source::span_join(e.span, c.span),
                            ),
                        ),
                    ),
                }
            }
        },
        _ => done(s, s, Some(e)),
    }
}

/// The arguments of a call, up to its closing parenthesis.
#[verifier::opaque]
pub open spec fn p_args(toks: Seq<TokenModel>, s: St) -> Res<Seq<ExprModel>>
    decreases left(toks, s), 7int,
{
    if kind(toks, s) is RParen {
        done(s, s, Some(Seq::empty()))
    } else {
        p_exprs(toks, s, Seq::empty())
    }
}

/// `exprs := expr [, exprs]`, behind those of `acc`.
#[verifier::opaque]
pub open spec fn p_exprs(toks: Seq<TokenModel>, s: St, acc: Seq<ExprModel>) -> Res<Seq<ExprModel>>
    decreases left(toks, s), 6int,
{
    let e = p_expr(toks, s, 0);
    let s1 = after(s, e);
    match e.val {
        None => done(s, s1, None),
        Some(x) => if kind(toks, s1) is Comma {
            let rest = p_exprs(toks, bump(toks, s1), acc.push(x));
            done(s, after(bump(toks, s1), rest), rest.val)
        } else {
            done(s, s1, Some(acc.push(x)))
        },
    }
}

/// The literal that a token is, where it is one.
pub open spec fn literal(t: TokenModel) -> Option<LitModel> {
    match t.kind {
        TokenKind::Int(v) => Some(LitModel::Int(v)),
        TokenKind::Float(b) => Some(LitModel::Float(b)),
        TokenKind::True => Some(LitModel::Bool(true)),
        TokenKind::False => Some(LitModel::Bool(false)),
        TokenKind::Nil => Some(LitModel::Nil),
        TokenKind::Str => Some(LitModel::Str(t.str_value)),
        _ => None,
    }
}

/// `atom`: a literal, a name, a struct literal, or a bracketed form.
#[verifier::opaque]
pub open spec fn p_atom(toks: Seq<TokenModel>, s: St) -> Res<ExprModel>
    decreases left(toks, s), 2int,
{
    let tok = toks[s.pos];
    let s1 = bump(toks, s);
    match kind(toks, s) {
        TokenKind::Int(_) | TokenKind::Float(_) | TokenKind::True | TokenKind::False | TokenKind::Nil
        | TokenKind::Str => done(s, s1, Some(untyped(ExprKindModel::Lit(literal(tok)->0), tok.span))),
        TokenKind::LParen => p_paren(toks, s),
        TokenKind::LBracket => p_bracket(toks, s),
        TokenKind::LBrace => p_block_expr(toks, s),
        TokenKind::KwIf => p_if(toks, s),
        TokenKind::Pipe => p_closure(toks, s),
        TokenKind::Ident => if kind(toks, s1) is LBrace && type_like(tok.ident) {
            p_struct_lit(toks, s)
        } else {
            done(s, s1, Some(untyped(ExprKindModel::Ident(tok.ident), tok.span)))
        },
        _ => done(s, complain(s, tok.span, "expected expression, found `"@ + label(tok) + "`"@), None),
    }
}

/// `( expr )`
#[verifier::opaque]
pub open spec fn p_paren(toks: Seq<TokenModel>, s: St) -> Res<ExprModel>
    decreases left(toks, s), 0int,
    when kind(toks, s) is LParen
{
    let s1 = bump(toks, s);
    let e = p_expr(toks, s1, 0);
    let s2 = after(s1, e);
    if e.val is None {
        done(s, s2, None)
    } else {
        let close = p_expect(toks, s2, TokenKind::RParen, "`)`"@);
        let s3 = after(s2, close);
        if close.val is None {
            done(s, s3, None)
        } else {
            done(s, s3, e.val)
        }
    }
}

/// A block as an expression.
#[verifier::opaque]
pub open spec fn p_block_expr(toks: Seq<TokenModel>, s: St) -> Res<ExprModel>
    decreases left(toks, s), 1int,
{
    let b = p_block(toks, s);
    let s2 = after(s, b);
    match b.val {
        None => done(s, s2, None),
        Some(x) => done(s, s2, Some(untyped(ExprKindModel::Block(ast::node(x)), x.span))),
    }
}

/// `Name { inits }`
#[verifier::opaque]
pub open spec fn p_struct_lit(toks: Seq<TokenModel>, s: St) -> Res<ExprModel>
    decreases left(toks, s), 0int,
    when kind(toks, s) is Ident
{
    let tok = toks[s.pos];
    let s1 = bump(toks, bump(toks, s));
    let fields = p_inits(toks, s1, Seq::empty());
    let s2 = after(s1, fields);
    if fields.val is None {
        done(s, s2, None)
    } else {
        let close = p_expect(toks, s2, TokenKind::RBrace, "`}`"@);
        let s3 = after(s2, close);
        match close.val {
            None => done(s, s3, None),
            Some(c) => done(
                s,
                s3,
                Some(
                    untyped(ExprKindModel::StructLit(tok.ident, fields.val->0), source::span_join(tok.span, c.span)),
                ),
            ),
        }
    }
}

/// `inits := [name : expr [, inits]]`, behind those of `acc`, up to a closing brace.
#[verifier::opaque]
pub open spec fn p_inits(toks: Seq<TokenModel>, s: St, acc: Seq<(Seq<char>, ExprModel)>) -> Res<Seq<(Seq<char>, ExprModel)>>
    decreases left(toks, s), 6int,
{
    if kind(toks, s) is RBrace || kind(toks, s) is Eof {
        done(s, s, Some(acc))
    } else {
        let name = p_expect(toks, s, TokenKind::Ident, "field name"@);
        let s1 = after(s, name);
        if name.val is None {
            done(s, s1, None)
        } else {
            let colon = p_expect(toks, s1, TokenKind::Colon, "`:`"@);
            let s2 = after(s1, colon);
            if colon.val is None {
                done(s, s2, None)
            } else {
                let e = p_expr(toks, s2, 0);
                let s3 = after(s2, e);
                if e.val is None {
                    done(s, s3, None)
                } else {
                    let more = acc.push((name.val->0.ident, e.val->0));
                    if kind(toks, s3) is Comma {
                        let rest = p_inits(toks, bump(toks, s3), more);
                        done(s, after(bump(toks, s3), rest), rest.val)
                    } else {
                        done(s, s3, Some(more))
                    }
                }
            }
        }
    }
}

/// `[]`, `[:]`, `[ exprs ]` or `[ key => value, .. ]`, with an optional last comma.
#[verifier::opaque]
pub open spec fn p_bracket(toks: Seq<TokenModel>, s: St) -> Res<ExprModel>
    decreases left(toks, s), 0int,
    when kind(toks, s) is LBracket
{
    let tok = toks[s.pos];
    let s1 = bump(toks, s);
    if kind(toks, s1) is RBracket {
        done(
            s,
            bump(toks, s1),
            Some(untyped(ExprKindModel::ArrayLit(Seq::empty()), source::span_join(tok.span, toks[s1.pos].span))),
        )
    } else if kind(toks, s1) is Colon && kind_at(toks, s1.pos + 1) is RBracket {
        done(
            s,
            bump(toks, bump(toks, s1)),
            Some(untyped(ExprKindModel::MapLit(Seq::empty()), source::span_join(tok.span, toks[s1.pos + 1].span))),
        )
    } else {
        let first = p_expr(toks, s1, 0);
        let s2 = after(s1, first);
        if first.val is None {
            done(s, s2, None)
        } else if kind(toks, s2) is FatArrow {
            let v = p_expr(toks, bump(toks, s2), 0);
            let s3 = after(bump(toks, s2), v);
            if v.val is None {
                done(s, s3, None)
            } else {
                let pairs = p_pairs(toks, s3, seq![(first.val->0, v.val->0)]);
                let s4 = after(s3, pairs);
                if pairs.val is None {
                    done(s, s4, None)
                } else {
                    let close = p_expect(toks, s4, TokenKind::RBracket, "`]`"@);
                    let s5 = after(s4, close);
                    if close.val is None {
                        done(s, s5, None)
                    } else {
                        done(
                            s,
                            s5,
                            Some(
                                untyped(
                                    ExprKindModel::MapLit(pairs.val->0),
                                    source::span_join(tok.span, close.val->0.span),
                                ),
                            ),
                        )
                    }
                }
            }
        } else {
            let elems = p_elems(toks, s2, seq![first.val->0]);
            let s3 = after(s2, elems);
            if elems.val is None {
                done(s, s3, None)
            } else {
                let close = p_expect(toks, s3, TokenKind::RBracket, "`]`"@);
                let s4 = after(s3, close);
                if close.val is None {
                    done(s, s4, None)
                } else {
                    done(
                        s,
                        s4,
                        Some(
                            untyped(
                                ExprKindModel::ArrayLit(elems.val->0),
                                source::span_join(tok.span, close.val->0.span),
                            ),
                        ),
                    )
                }
            }
        }
    }
}

/// `elems := [, [expr elems]]`, behind those of `acc`.
#[verifier::opaque]
pub open spec fn p_elems(toks: Seq<TokenModel>, s: St, acc: Seq<ExprModel>) -> Res<Seq<ExprModel>>
    decreases left(toks, s), 0int,
{
    if kind(toks, s) is Comma && !(kind(toks, bump(toks, s)) is RBracket) {
        let e = p_expr(toks, bump(toks, s), 0);
        let s1 = after(bump(toks, s), e);
        match e.val {
            None => done(s, s1, None),
            Some(x) => {
                let rest = p_elems(toks, s1, acc.push(x));
                done(s, after(s1, rest), rest.val)
            },
        }
    } else {
        done(s, p_eat(toks, s, TokenKind::Comma), Some(acc))
    }
}

/// `pairs := [, [expr => expr pairs]]`, behind those of `acc`.
#[verifier::opaque]
pub open spec fn p_pairs(toks: Seq<TokenModel>, s: St, acc: Seq<(ExprModel, ExprModel)>) -> Res<Seq<(ExprModel, ExprModel)>>
    decreases left(toks, s), 0int,
{
    if kind(toks, s) is Comma && !(kind(toks, bump(toks, s)) is RBracket) {
        let k = p_expr(toks, bump(toks, s), 0);
        let s1 = after(bump(toks, s), k);
        if k.val is None {
            done(s, s1, None)
        } else {
            let arrow = p_expect(toks, s1, TokenKind::FatArrow, "`=>`"@);
            let s2 = after(s1, arrow);
            if arrow.val is None {
                done(s, s2, None)
            } else {
                let v = p_expr(toks, s2, 0);
                let s3 = after(s2, v);
                if v.val is None {
                    done(s, s3, None)
                } else {
                    let rest = p_pairs(toks, s3, acc.push((k.val->0, v.val->0)));
                    done(s, after(s3, rest), rest.val)
                }
            }
        }
    } else {
        done(s, p_eat(toks, s, TokenKind::Comma), Some(acc))
    }
}

/// `if expr block [else (block | if ..)]`
#[verifier::opaque]
pub open spec fn p_if(toks: Seq<TokenModel>, s: St) -> Res<ExprModel>
    decreases left(toks, s), 0int,
    when kind(toks, s) is KwIf
{
    let s1 = bump(toks, s);
    let cond = p_expr(toks, s1, 0);
    let s2 = after(s1, cond);
    if cond.val is None {
        done(s, s2, None)
    } else {
        let yes = p_block(toks, s2);
        let s3 = after(s2, yes);
        if yes.val is None {
            done(s, s3, None)
        } else {
            let span = source::span_join(toks[s.pos].span, yes.val->0.span);
            if kind(toks, s3) is KwElse {
                let s4 = bump(toks, s3);
                if kind(toks, s4) is KwIf {
                    let inner = p_if(toks, s4);
                    let s5 = after(s4, inner);
                    match inner.val {
                        None => done(s, s5, None),
                        Some(i) => done(
                            s,
                            s5,
                            Some(
                                untyped(
                                    ExprKindModel::If(
                                        ast::node(cond.val->0),
                                        ast::node(yes.val->0),
                                        Some(ast::node(BlockModel { stmts: Seq::empty(), tail: Some(i), span: i.span })),
                                    ),
                                    source::span_join(span, i.span),
                                ),
                            ),
                        ),
                    }
                } else {
                    let no = p_block(toks, s4);
                    let s5 = after(s4, no);
                    match no.val {
                        None => done(s, s5, None),
                        Some(b) => done(
                            s,
                            s5,
                            Some(
                                untyped(
                                    ExprKindModel::If(ast::node(cond.val->0), ast::node(yes.val->0), Some(ast::node(b))),
                                    source::span_join(span, b.span),
                                ),
                            ),
                        ),
                    }
                }
            } else {
                done(
                    s,
                    s3,
                    Some(untyped(ExprKindModel::If(ast::node(cond.val->0), ast::node(yes.val->0), None), span)),
                )
            }
        }
    }
}

/// `| [params] | expr`
#[verifier::opaque]
pub open spec fn p_closure(toks: Seq<TokenModel>, s: St) -> Res<ExprModel>
    decreases left(toks, s), 0int,
    when kind(toks, s) is Pipe
{
    let s1 = bump(toks, s);
    let ps = p_params_to(toks, s1, TokenKind::Pipe);
    let s2 = after(s1, ps);
    if ps.val is None {
        done(s, s2, None)
    } else {
        let close = p_expect(toks, s2, TokenKind::Pipe, "`|`"@);
        let s3 = after(s2, close);
        if close.val is None {
            done(s, s3, None)
        } else {
            let body = p_expr(toks, s3, 0);
            let s4 = after(s3, body);
            match body.val {
                None => done(s, s4, None),
                Some(b) => done(
                    s,
                    s4,
                    Some(
                        untyped(
                            ExprKindModel::Closure(ps.val->0, ast::node(b)),
                            source::span_join(toks[s.pos].span, b.span),
                        ),
                    ),
                ),
            }
        }
    }
}

/// `block := { body }`
#[verifier::opaque]
pub open spec fn p_block(toks: Seq<TokenModel>, s: St) -> Res<BlockModel>
    decreases left(toks, s), 0int,
{
    let open = p_expect(toks, s, TokenKind::LBrace, "`{`"@);
    let s1 = after(s, open);
    if open.val is None {
        done(s, s1, None)
    } else {
        let body = p_body(toks, s1, Seq::empty());
        let s2 = after(s1, body);
        if body.val is None {
            done(s, s2, None)
        } else {
            let close = p_expect(toks, s2, TokenKind::RBrace, "`}`"@);
            let s3 = after(s2, close);
            match close.val {
                None => done(s, s3, None),
                Some(c) => done(
                    s,
                    s3,
                    Some(
                        BlockModel {
                            stmts: body.val->0.stmts,
                            tail: body.val->0.tail,
                            span: source::span_join(open.val->0.span, c.span),
                        },
                    ),
                ),
            }
        }
    }
}

/// Statements, and the tail expression where there is one.
pub struct Body {
    pub stmts: Seq<StmtModel>,
    pub tail: Option<ExprModel>,
}

/// One element of a block: a statement, or its tail.
pub enum Item {
    Stmt(StmtModel),
    Tail(ExprModel),
}

/// The statements behind those of `acc`, up to a closing brace.
#[verifier::opaque]
pub open spec fn p_body(toks: Seq<TokenModel>, s: St, acc: Seq<StmtModel>) -> Res<Body>
    decreases left(toks, s), 8int,
{
    if kind(toks, s) is RBrace || kind(toks, s) is Eof {
        done(s, s, Some(Body { stmts: acc, tail: None }))
    } else {
        let item = p_item(toks, s);
        let s1 = after(s, item);
        match item.val {
            None => done(s, s1, None),
            Some(Item::Tail(e)) => done(s, s1, Some(Body { stmts: acc, tail: Some(e) })),
            Some(Item::Stmt(x)) => if item.used == 0 {
                done(s, s1, None)
            } else {
                let rest = p_body(toks, s1, acc.push(x));
                done(s, after(s1, rest), rest.val)
            },
        }
    }
}

/// A bare `break;` or `continue;`.
#[verifier::opaque]
pub open spec fn p_jump(toks: Seq<TokenModel>, s: St, kind: StmtKindModel) -> Res<StmtModel> {
    let s1 = bump(toks, s);
    let semi = p_expect(toks, s1, TokenKind::Semicolon, "`;`"@);
    let s2 = after(s1, semi);
    match semi.val {
        None => done(s, s2, None),
        Some(t) => done(s, s2, Some(StmtModel { kind, span: source::span_join(toks[s.pos].span, t.span) })),
    }
}

/// An initializer, and the span of the semicolon behind it.
pub struct InitModel {
    pub value: ExprModel,
    pub end: Span,
}

/// `= expr ;`
#[verifier::opaque]
pub open spec fn p_init(toks: Seq<TokenModel>, s: St) -> Res<InitModel>
    decreases left(toks, s), 0int,
{
    let eq = p_expect(toks, s, TokenKind::Assign, "`=`"@);
    let s1 = after(s, eq);
    if eq.val is None {
        done(s, s1, None)
    } else {
        let init = p_expr(toks, s1, 0);
        let s2 = after(s1, init);
        if init.val is None {
            done(s, s2, None)
        } else {
            let semi = p_expect(toks, s2, TokenKind::Semicolon, "`;`"@);
            let s3 = after(s2, semi);
            match semi.val {
                None => done(s, s3, None),
                Some(t) => done(s, s3, Some(InitModel { value: init.val->0, end: t.span })),
            }
        }
    }
}

/// `let [mut] name [: type] = expr ;`
#[verifier::opaque]
pub open spec fn p_let(toks: Seq<TokenModel>, s: St) -> Res<StmtModel>
    decreases left(toks, s), 0int,
    when kind(toks, s) is KwLet
{
    let s1 = bump(toks, s);
    let s2 = p_eat(toks, s1, TokenKind::KwMut);
    let name = p_expect(toks, s2, TokenKind::Ident, "binding name"@);
    let s3 = after(s2, name);
    if name.val is None {
        done(s, s3, None)
    } else {
        let ty = p_annotation(toks, s3);
        let s4 = after(s3, ty);
        if ty.val is None {
            done(s, s4, None)
        } else {
            let init = p_init(toks, s4);
            let s5 = after(s4, init);
            match init.val {
                None => done(s, s5, None),
                Some(x) => done(
                    s,
                    s5,
                    Some(
                        StmtModel {
                            kind: StmtKindModel::Let {
                                name: name.val->0.ident,
                                ty: ty.val->0,
                                mutable: kind(toks, s1) is KwMut,
                                init: x.value,
                            },
                            span: source::span_join(toks[s.pos].span, x.end),
                        },
                    ),
                ),
            }
        }
    }
}

/// The value of a `return`, where there is one.
#[verifier::opaque]
pub open spec fn p_return_value(toks: Seq<TokenModel>, s: St) -> Res<Option<ExprModel>>
    decreases left(toks, s), 6int,
{
    if kind(toks, s) is Semicolon {
        done(s, s, Some(None))
    } else {
        let e = p_expr(toks, s, 0);
        match e.val {
            None => done(s, after(s, e), None),
            Some(x) => done(s, after(s, e), Some(Some(x))),
        }
    }
}

/// `return [expr] ;`
#[verifier::opaque]
pub open spec fn p_return(toks: Seq<TokenModel>, s: St) -> Res<StmtModel>
    decreases left(toks, s), 0int,
    when kind(toks, s) is KwReturn
{
    let s1 = bump(toks, s);
    let value = p_return_value(toks, s1);
    let s2 = after(s1, value);
    if value.val is None {
        done(s, s2, None)
    } else {
        let semi = p_expect(toks, s2, TokenKind::Semicolon, "`;`"@);
        let s3 = after(s2, semi);
        match semi.val {
            None => done(s, s3, None),
            Some(t) => done(
                s,
                s3,
                Some(
                    StmtModel {
                        kind: StmtKindModel::Return(value.val->0),
                        span: source::span_join(toks[s.pos].span, t.span),
                    },
                ),
            ),
        }
    }
}

/// `while expr block`
#[verifier::opaque]
pub open spec fn p_while(toks: Seq<TokenModel>, s: St) -> Res<StmtModel>
    decreases left(toks, s), 0int,
    when kind(toks, s) is KwWhile
{
    let s1 = bump(toks, s);
    let cond = p_expr(toks, s1, 0);
    let s2 = after(s1, cond);
    if cond.val is None {
        done(s, s2, None)
    } else {
        let body = p_block(toks, s2);
        let s3 = after(s2, body);
        match body.val {
            None => done(s, s3, None),
            Some(b) => done(
                s,
                s3,
                Some(
                    StmtModel {
                        kind: StmtKindModel::While(cond.val->0, ast::node(b)),
                        span: source::span_join(toks[s.pos].span, b.span),
                    },
                ),
            ),
        }
    }
}

pub open spec fn as_item(r: Res<StmtModel>) -> Res<Item> {
    Res {
        val: match r.val {
            Some(x) => Some(Item::Stmt(x)),
            None => None,
        },
        used: r.used,
        diags: r.diags,
    }
}

/// Whether an expression is a statement without a semicolon: an `if` or a block.
pub open spec fn block_like(e: ExprModel) -> bool {
    e.kind is If || e.kind is Block
}

/// An element of a block that starts with an expression: an assignment, an expression
/// statement, or the tail.
#[verifier::opaque]
pub open spec fn p_expr_item(toks: Seq<TokenModel>, s: St) -> Res<Item>
    decreases left(toks, s), 6int,
{
    let e = p_expr(toks, s, 0);
    let s1 = after(s, e);
    match e.val {
        None => done(s, s1, None),
        Some(x) => match kind(toks, s1) {
            TokenKind::Assign => {
                let v = p_init(toks, s1);
                let s2 = after(s1, v);
                match v.val {
                    None => done(s, s2, None),
                    Some(y) => done(
                        s,
                        s2,
                        Some(
                            Item::Stmt(
                                StmtModel {
                                    kind: StmtKindModel::Assign(x, y.value),
                                    span: source::span_join(x.span, y.end),
                                },
                            ),
                        ),
                    ),
                }
            },
            TokenKind::Semicolon => done(
                s,
                bump(toks, s1),
                Some(
                    Item::Stmt(
                        StmtModel {
                            kind: StmtKindModel::Expr(x),
                            span: source::span_join(x.span, toks[s1.pos].span),
                        },
                    ),
                ),
            ),
            TokenKind::RBrace => done(s, s1, Some(Item::Tail(x))),
            _ => if block_like(x) {
                done(s, s1, Some(Item::Stmt(StmtModel { kind: StmtKindModel::Expr(x), span: x.span })))
            } else {
                done(
                    s,
                    complain(
                        s1,
                        toks[s1.pos].span,
                        "expected `;` or `}`, found `"@ + label(toks[s1.pos]) + "`"@,
                    ),
                    None,
                )
            },
        },
    }
}

/// One element of a block.
#[verifier::opaque]
pub open spec fn p_item(toks: Seq<TokenModel>, s: St) -> Res<Item>
    decreases left(toks, s), 7int,
{
    match kind(toks, s) {
        TokenKind::KwLet => as_item(p_let(toks, s)),
        TokenKind::KwReturn => as_item(p_return(toks, s)),
        TokenKind::KwWhile => as_item(p_while(toks, s)),
        TokenKind::KwBreak => as_item(p_jump(toks, s, StmtKindModel::Break)),
        TokenKind::KwContinue => as_item(p_jump(toks, s, StmtKindModel::Continue)),
        _ => p_expr_item(toks, s),
    }
}

/// `fn name ( [params] ) [-> type] block`
#[verifier::opaque]
pub open spec fn p_fn(toks: Seq<TokenModel>, s: St) -> Res<FnDeclModel> {
    let s1 = bump(toks, s);
    let name = p_expect(toks, s1, TokenKind::Ident, "function name"@);
    let s2 = after(s1, name);
    if name.val is None {
        done(s, s2, None)
    } else {
        let open = p_expect(toks, s2, TokenKind::LParen, "`(`"@);
        let s3 = after(s2, open);
        if open.val is None {
            done(s, s3, None)
        } else {
            let ps = p_params_to(toks, s3, TokenKind::RParen);
            let s4 = after(s3, ps);
            if ps.val is None {
                done(s, s4, None)
            } else {
                let close = p_expect(toks, s4, TokenKind::RParen, "`)`"@);
                let s5 = after(s4, close);
                if close.val is None {
                    done(s, s5, None)
                } else {
                    let ret = p_result(toks, s5);
                    let s6 = after(s5, ret);
                    if ret.val is None {
                        done(s, s6, None)
                    } else {
                        let body = p_block(toks, s6);
                        let s7 = after(s6, body);
                        match body.val {
                            None => done(s, s7, None),
                            Some(b) => done(
                                s,
                                s7,
                                Some(
                                    FnDeclModel {
                                        name: name.val->0.ident,
                                        params: ps.val->0,
                                        ret: ret.val->0,
                                        body: b,
                                        span: source::span_join(toks[s.pos].span, b.span),
                                    },
                                ),
                            ),
                        }
                    }
                }
            }
        }
    }
}

/// `fields := [name : type [, fields]]`, behind those of `acc`, up to a closing brace.
#[verifier::opaque]
pub open spec fn p_fields(toks: Seq<TokenModel>, s: St, acc: Seq<(Seq<char>, TypeModel, Span)>) -> Res<Seq<(Seq<char>, TypeModel, Span)>>
    decreases left(toks, s),
{
    if kind(toks, s) is RBrace || kind(toks, s) is Eof {
        done(s, s, Some(acc))
    } else {
        let name = p_expect(toks, s, TokenKind::Ident, "field name"@);
        let s1 = after(s, name);
        if name.val is None {
            done(s, s1, None)
        } else {
            let colon = p_expect(toks, s1, TokenKind::Colon, "`:`"@);
            let s2 = after(s1, colon);
            if colon.val is None {
                done(s, s2, None)
            } else {
                let ty = p_type(toks, s2);
                let s3 = after(s2, ty);
                if ty.val is None {
                    done(s, s3, None)
                } else {
                    let more = acc.push((name.val->0.ident, ty.val->0, name.val->0.span));
                    if kind(toks, s3) is Comma {
                        let rest = p_fields(toks, bump(toks, s3), more);
                        done(s, after(bump(toks, s3), rest), rest.val)
                    } else {
                        done(s, s3, Some(more))
                    }
                }
            }
        }
    }
}

/// `struct name { fields }`
#[verifier::opaque]
pub open spec fn p_struct(toks: Seq<TokenModel>, s: St) -> Res<StructDeclModel> {
    let s1 = bump(toks, s);
    let name = p_expect(toks, s1, TokenKind::Ident, "struct name"@);
    let s2 = after(s1, name);
    if name.val is None {
        done(s, s2, None)
    } else {
        let open = p_expect(toks, s2, TokenKind::LBrace, "`{`"@);
        let s3 = after(s2, open);
        if open.val is None {
            done(s, s3, None)
        } else {
            let fields = p_fields(toks, s3, Seq::empty());
            let s4 = after(s3, fields);
            if fields.val is None {
                done(s, s4, None)
            } else {
                let close = p_expect(toks, s4, TokenKind::RBrace, "`}`"@);
                let s5 = after(s4, close);
                match close.val {
                    None => done(s, s5, None),
                    Some(c) => done(
                        s,
                        s5,
                        Some(
                            StructDeclModel {
                                name: name.val->0.ident,
                                fields: fields.val->0,
                                span: source::span_join(toks[s.pos].span, c.span),
                            },
                        ),
                    ),
                }
            }
        }
    }
}

/// `const name : type = expr ;`
#[verifier::opaque]
pub open spec fn p_const(toks: Seq<TokenModel>, s: St) -> Res<ConstDeclModel> {
    let s1 = bump(toks, s);
    let name = p_expect(toks, s1, TokenKind::Ident, "constant name"@);
    let s2 = after(s1, name);
    if name.val is None {
        done(s, s2, None)
    } else {
        let colon = p_expect(toks, s2, TokenKind::Colon, "`:`"@);
        let s3 = after(s2, colon);
        if colon.val is None {
            done(s, s3, None)
        } else {
            let ty = p_type(toks, s3);
            let s4 = after(s3, ty);
            if ty.val is None {
                done(s, s4, None)
            } else {
                let init = p_init(toks, s4);
                let s5 = after(s4, init);
                match init.val {
                    None => done(s, s5, None),
                    Some(x) => done(
                        s,
                        s5,
                        Some(
                            ConstDeclModel {
                                name: name.val->0.ident,
                                ty: ty.val->0,
                                init: x.value,
                                span: source::span_join(toks[s.pos].span, x.end),
                            },
                        ),
                    ),
                }
            }
        }
    }
}

/// One top-level declaration.
#[verifier::opaque]
pub open spec fn p_decl(toks: Seq<TokenModel>, s: St) -> Res<DeclModel> {
    match kind(toks, s) {
        TokenKind::KwFn => {
            let r = p_fn(toks, s);
            done(
                s,
                after(s, r),
                match r.val {
                    Some(x) => Some(DeclModel::Fn(x)),
                    None => None,
                },
            )
        },
        TokenKind::KwStruct => {
            let r = p_struct(toks, s);
            done(
                s,
                after(s, r),
                match r.val {
                    Some(x) => Some(DeclModel::Struct(x)),
                    None => None,
                },
            )
        },
        TokenKind::KwConst => {
            let r = p_const(toks, s);
            done(
                s,
                after(s, r),
                match r.val {
                    Some(x) => Some(DeclModel::Const(x)),
                    None => None,
                },
            )
        },
        _ => done(
            s,
            complain(
                s,
                toks[s.pos].span,
                "expected `fn`, `struct`, or `const`, found `"@ + label(toks[s.pos]) + "`"@,
            ),
            None,
        ),
    }
}

/// Whether a kind starts a declaration.
pub open spec fn starts_decl(k: TokenKind) -> bool {
    k is KwFn || k is KwStruct || k is KwConst
}

/// The next position at which a declaration or the end of the stream stands.
pub open spec fn resync(toks: Seq<TokenModel>, pos: int) -> int
    decreases toks.len() - pos,
{
    if kind_at(toks, pos) is Eof || starts_decl(kind_at(toks, pos)) {
        pos
    } else {
        resync(toks, pos + 1)
    }
}

/// The declarations from `s` on, behind those of `acc`, and the complaints. Behind a
/// declaration that fails, the parser goes on at the next one.
#[verifier::opaque]
pub open spec fn p_decls(toks: Seq<TokenModel>, s: St, acc: Seq<DeclModel>) -> (Seq<DeclModel>, Seq<DiagnosticModel>)
    decreases left(toks, s),
{
    if kind(toks, s) is Eof {
        (acc, s.diags)
    } else {
        let d = p_decl(toks, s);
        let s1 = after(s, d);
        let s2 = match d.val {
            Some(_) => s1,
            None => St { pos: resync(toks, s1.pos), diags: s1.diags },
        };
        let more = match d.val {
            Some(x) => acc.push(x),
            None => acc,
        };
        if s2.pos > s.pos {
            p_decls(toks, s2, more)
        } else {
            (more, s2.diags)
        }
    }
}

/// The module that a token stream spells, and the complaints about it.
pub open spec fn parsed(toks: Seq<TokenModel>) -> (ModuleModel, Seq<DiagnosticModel>) {
    let r = p_decls(toks, St { pos: 0, diags: Seq::empty() }, Seq::empty());
    (ModuleModel { decls: r.0 }, r.1)
}

// --- the parser -----------------------------------------------------------------

/// The view of an optional value.
pub open spec fn opt<T: View>(o: Option<T>) -> Option<T::V> {
    match o {
        Some(x) => Some(x@),
        None => None,
    }
}

/// Whether two runs of rules end in the same value and state.
pub open spec fn same_end<T>(s: St, r: Res<T>, t: St, q: Res<T>) -> bool {
    r.val == q.val && after(s, r) == after(t, q)
}

/// Whether a token stream ends in an `Eof` token, as every stream of the lexer does.
pub open spec fn terminated(toks: Seq<TokenModel>) -> bool {
    toks.len() > 0 && toks.last().kind is Eof
}

fn copy_token(t: &Token) -> (r: Token)
    ensures
        r@ == t@,
{
    Token { kind: t.kind, span: t.span, str_value: t.str_value.clone(), ident: t.ident.clone() }
}

fn kind_label(k: TokenKind) -> (r: &'static str)
    ensures
        r@ == kind_name(k),
{
    proof {
        reveal(kind_name);
    }
    match k {
        TokenKind::Int(_) => "Int",
        TokenKind::Float(_) => "Float",
        TokenKind::Str => "Str",
        TokenKind::Ident => "Ident",
        TokenKind::Eof => "Eof",
        TokenKind::True => "True",
        TokenKind::False => "False",
        TokenKind::Nil => "Nil",
        TokenKind::KwFn => "KwFn",
        TokenKind::KwLet => "KwLet",
        TokenKind::KwMut => "KwMut",
        TokenKind::KwConst => "KwConst",
        TokenKind::KwReturn => "KwReturn",
        TokenKind::KwIf => "KwIf",
        TokenKind::KwElse => "KwElse",
        TokenKind::KwWhile => "KwWhile",
        TokenKind::KwFor => "KwFor",
        TokenKind::KwIn => "KwIn",
        TokenKind::KwBreak => "KwBreak",
        TokenKind::KwContinue => "KwContinue",
        TokenKind::KwStruct => "KwStruct",
        TokenKind::KwAs => "KwAs",
        TokenKind::LParen => "LParen",
        TokenKind::RParen => "RParen",
        TokenKind::LBrace => "LBrace",
        TokenKind::RBrace => "RBrace",
        TokenKind::LBracket => "LBracket",
        TokenKind::RBracket => "RBracket",
        TokenKind::Comma => "Comma",
        TokenKind::Semicolon => "Semicolon",
        TokenKind::Colon => "Colon",
        TokenKind::ColonColon => "ColonColon",
        TokenKind::Dot => "Dot",
        TokenKind::Arrow => "Arrow",
        TokenKind::FatArrow => "FatArrow",
        TokenKind::Pipe => "Pipe",
        TokenKind::Assign => "Assign",
        TokenKind::Plus => "Plus",
        TokenKind::Minus => "Minus",
        TokenKind::Star => "Star",
        TokenKind::Slash => "Slash",
        TokenKind::Percent => "Percent",
        TokenKind::EqEq => "EqEq",
        TokenKind::BangEq => "BangEq",
        TokenKind::Lt => "Lt",
        TokenKind::LtEq => "LtEq",
        TokenKind::Gt => "Gt",
        TokenKind::GtEq => "GtEq",
        TokenKind::AmpAmp => "AmpAmp",
        TokenKind::PipePipe => "PipePipe",
        TokenKind::Bang => "Bang",
        TokenKind::Error => "Error",
    }
}

fn token_label(t: &Token) -> (r: String)
    ensures
        r@ == label(t@),
{
    proof {
        reveal(label);
    }
    match t.kind {
        TokenKind::Eof => "<eof>".to_owned(),
        TokenKind::Ident => t.ident.clone(),
        TokenKind::Str => {
            let mut out = "\"".to_owned();
            out.append(t.str_value.as_str());
            out.append("\"");
            out
        },
        TokenKind::Int(v) => {
            let mut out = String::new();
            push_dec_int(&mut out, v);
            assert(out@ =~= text::dec_int(v as int));
            out
        },
        TokenKind::Float(b) => float::show(b),
        _ => kind_label(t.kind).to_owned(),
    }
}

fn found(prefix: &str, t: &Token) -> (r: String)
    ensures
        r@ == prefix@ + label(t@) + "`"@,
{
    let mut out = prefix.to_owned();
    let l = token_label(t);
    out.append(l.as_str());
    out.append("`");
    out
}

fn infix_bp(k: TokenKind) -> (r: Option<(BinOp, u8, u8)>)
    ensures
        r == infix(k),
{
    match k {
        TokenKind::PipePipe => Some((BinOp::Or, 1, 2)),
        TokenKind::AmpAmp => Some((BinOp::And, 3, 4)),
        TokenKind::EqEq => Some((BinOp::Eq, 5, 6)),
        TokenKind::BangEq => Some((BinOp::Ne, 5, 6)),
        TokenKind::Lt => Some((BinOp::Lt, 7, 8)),
        TokenKind::LtEq => Some((BinOp::Le, 7, 8)),
        TokenKind::Gt => Some((BinOp::Gt, 7, 8)),
        TokenKind::GtEq => Some((BinOp::Ge, 7, 8)),
        TokenKind::Plus => Some((BinOp::Add, 9, 10)),
        TokenKind::Minus => Some((BinOp::Sub, 9, 10)),
        TokenKind::Star => Some((BinOp::Mul, 11, 12)),
        TokenKind::Slash => Some((BinOp::Div, 11, 12)),
        TokenKind::Percent => Some((BinOp::Mod, 11, 12)),
        _ => None,
    }
}

pub(crate) fn looks_like_type(name: &str) -> (r: bool)
    ensures
        r == type_like(name@),
{
    if name.is_empty() {
        false
    } else {
        let c: char = name.get_char(0);
        'A' <= c && c <= 'Z'
    }
}

fn is_block_expr(e: &Expr) -> (r: bool)
    ensures
        r == block_like(e@),
{
    let ghost k = ast::expr_kind_model(e.kind);
    matches!(e.kind, ExprKind::If(..) | ExprKind::Block(..))
}

fn mk(kind: ExprKind, span: Span) -> (r: Expr)
    ensures
        r@ == untyped(kind@, span),
{
    let ty = Type::Unknown;
    assert(ty@ == TypeModel::Unknown);
    Expr { kind, span, ty }
}

fn mk_stmt(kind: StmtKind, span: Span) -> (r: Stmt)
    ensures
        r@ == (StmtModel { kind: kind@, span }),
{
    Stmt { kind, span }
}

struct Parser<'a> {
    toks: &'a [Token],
    pos: usize,
    diags: Diagnostics,
}

impl<'a> Parser<'a> {
    spec fn model(&self) -> Seq<TokenModel> {
        views::views(self.toks@)
    }

    spec fn st(&self) -> St {
        St { pos: self.pos as int, diags: self.diags@ }
    }

    spec fn wf(&self) -> bool {
        terminated(self.model()) && self.pos < self.toks@.len()
    }

    spec fn left(&self) -> int {
        self.toks@.len() - self.pos
    }

    /// Whether the parser has run from `before` to the end of a rule's result.
    spec fn ran<T>(&self, before: Parser<'a>, r: Res<T>) -> bool {
        self.wf() && self.toks == before.toks && self.st() == after(before.st(), r)
    }

    fn peek_kind(&self) -> (r: TokenKind)
        requires
            self.wf(),
        ensures
            r == kind(self.model(), self.st()),
    {
        assert(self.model()[self.pos as int] == self.toks@[self.pos as int]@);
        self.toks[self.pos].kind
    }

    fn peek_kind_at(&self, offset: usize) -> (r: TokenKind)
        requires
            self.wf(),
            offset <= 1,
        ensures
            r == kind_at(self.model(), self.pos + offset),
    {
        if self.toks.len() - self.pos > offset {
            assert(self.model()[self.pos + offset] == self.toks@[self.pos + offset]@);
            self.toks[self.pos + offset].kind
        } else {
            TokenKind::Eof
        }
    }

    fn peek(&self) -> (r: Token)
        requires
            self.wf(),
        ensures
            r@ == self.model()[self.pos as int],
    {
        copy_token(&self.toks[self.pos])
    }

    fn bump(&mut self) -> (r: Token)
        requires
            old(self).wf(),
        ensures
            final(self).wf(),
            final(self).toks == old(self).toks,
            final(self).st() == bump(old(self).model(), old(self).st()),
            r@ == old(self).model()[old(self).pos as int],
    {
        let t = self.peek();
        let n: usize = self.toks.len();
        if t.kind != TokenKind::Eof {
            assert(self.pos != self.toks@.len() - 1) by {
                assert(self.model().last() == self.toks@.last()@);
            }
            self.pos += 1;
        }
        t
    }

    fn at_end(&self) -> (r: bool)
        requires
            self.wf(),
        ensures
            r == (kind(self.model(), self.st()) is Eof),
    {
        self.peek_kind() == TokenKind::Eof
    }

    fn complain(&mut self, span: Span, message: String)
        requires
            old(self).wf(),
        ensures
            final(self).wf(),
            final(self).toks == old(self).toks,
            final(self).st() == complain(old(self).st(), span, message@),
    {
        self.diags.emit(Diagnostic::error(span, message));
    }

    fn expect(&mut self, k: TokenKind, what: &str) -> (r: Option<Token>)
        requires
            old(self).wf(),
        ensures
            opt(r) == p_expect(old(self).model(), old(self).st(), k, what@).val,
            final(self).ran(*old(self), p_expect(old(self).model(), old(self).st(), k, what@)),
    {
        if self.peek_kind() == k {
            Some(self.bump())
        } else {
            let tok = self.peek();
            let mut prefix = "expected ".to_owned();
            prefix.append(what);
            prefix.append(", found `");
            self.complain(tok.span, found(prefix.as_str(), &tok));
            None
        }
    }

    fn eat(&mut self, k: TokenKind) -> (r: bool)
        requires
            old(self).wf(),
        ensures
            r == (kind(old(self).model(), old(self).st()) == k),
            final(self).wf(),
            final(self).toks == old(self).toks,
            final(self).st() == p_eat(old(self).model(), old(self).st(), k),
    {
        if self.peek_kind() == k {
            self.bump();
            true
        } else {
            false
        }
    }

    fn parse_type(&mut self) -> (r: Option<Type>)
        requires
            old(self).wf(),
        ensures
            opt(r) == p_type(old(self).model(), old(self).st()).val,
            final(self).ran(*old(self), p_type(old(self).model(), old(self).st())),
        decreases old(self).left(), 0int,
    {
        proof {
            reveal(p_type);
            reveal(p_result);
            reveal(p_type_args);
        }
        proof {
            reveal(simple_type);
            reveal(wrapped_type);
        }
        let tok = self.bump();
        match tok.kind {
            TokenKind::KwFn => {
                if self.expect(TokenKind::LParen, "`(`").is_none() {
                    return None;
                }
                let params = match self.parse_type_args() {
                    Some(x) => x,
                    None => {
                        return None;
                    },
                };
                if self.expect(TokenKind::RParen, "`)`").is_none() {
                    return None;
                }
                let ret = match self.parse_result() {
                    Some(x) => x,
                    None => {
                        return None;
                    },
                };
                Some(Type::Fn(params, Box::new(ret)))
            },
            TokenKind::Ident => {
                let name = tok.ident.as_str();
                if name.eq("i32") {
                    Some(Type::I32)
                } else if name.eq("i64") {
                    Some(Type::I64)
                } else if name.eq("f32") {
                    Some(Type::F32)
                } else if name.eq("f64") {
                    Some(Type::F64)
                } else if name.eq("bool") {
                    Some(Type::Bool)
                } else if name.eq("str") {
                    Some(Type::Str)
                } else if name.eq("nil") {
                    Some(Type::Nil)
                } else if name.eq("Entity") {
                    Some(Type::Entity)
                } else if name.eq("Query") || name.eq("Res") || name.eq("ResMut") || name.eq("Array") {
                    if self.expect(TokenKind::Lt, "`<`").is_none() {
                        return None;
                    }
                    let inner = match self.parse_type() {
                        Some(x) => x,
                        None => {
                            return None;
                        },
                    };
                    if self.expect(TokenKind::Gt, "`>`").is_none() {
                        return None;
                    }
                    Some(
                        if name.eq("Query") {
                            Type::Query(Box::new(inner))
                        } else if name.eq("Res") {
                            Type::Res(Box::new(inner))
                        } else if name.eq("ResMut") {
                            Type::ResMut(Box::new(inner))
                        } else {
                            Type::Array(Box::new(inner))
                        },
                    )
                } else if name.eq("Map") {
                    if self.expect(TokenKind::Lt, "`<`").is_none() {
                        return None;
                    }
                    let k = match self.parse_type() {
                        Some(x) => x,
                        None => {
                            return None;
                        },
                    };
                    if self.expect(TokenKind::Comma, "`,`").is_none() {
                        return None;
                    }
                    let v = match self.parse_type() {
                        Some(x) => x,
                        None => {
                            return None;
                        },
                    };
                    if self.expect(TokenKind::Gt, "`>`").is_none() {
                        return None;
                    }
                    Some(Type::Dict(Box::new(k), Box::new(v)))
                } else {
                    Some(Type::Struct(tok.ident))
                }
            },
            TokenKind::Nil => Some(Type::Nil),
            _ => {
                self.complain(tok.span, found("expected type, found `", &tok));
                Some(Type::Error)
            },
        }
    }

    fn parse_types(&mut self) -> (r: Option<Vec<Type>>)
        requires
            old(self).wf(),
        ensures
            r is Some <==> p_types(old(self).model(), old(self).st(), Seq::empty()).val is Some,
            r is Some ==> ast::types_model(r->0@) == p_types(old(self).model(), old(self).st(), Seq::empty()).val->0,
            final(self).ran(*old(self), p_types(old(self).model(), old(self).st(), Seq::empty())),
        decreases old(self).left(), 1int,
    {
        proof {
            reveal(p_types);
            reveal(p_type);
        }
        let ghost m = self.model();
        let ghost all = p_types(m, self.st(), Seq::empty());
        let mut out: Vec<Type> = Vec::new();
        assert(ast::types_model(out@) =~= Seq::empty());
        loop
            invariant
                self.wf(),
                self.toks == old(self).toks,
                m == self.model(),
                m == old(self).model(),
                self.pos >= old(self).pos,
                all == p_types(m, old(self).st(), Seq::empty()),
                same_end(self.st(), p_types(m, self.st(), ast::types_model(out@)), old(self).st(), all),
            decreases self.left(),
        {
            proof {
                reveal(p_types);
                reveal(p_type);
            }
            let ghost before = self.st();
            let t = match self.parse_type() {
                Some(x) => x,
                None => {
                    return None;
                },
            };
            proof {
                ast::lemma_types_push(out@, t);
            }
            out.push(t);
            if !self.eat(TokenKind::Comma) {
                return Some(out);
            }
        }
    }

    fn parse_type_args(&mut self) -> (r: Option<Vec<Type>>)
        requires
            old(self).wf(),
        ensures
            r is Some <==> p_type_args(old(self).model(), old(self).st()).val is Some,
            r is Some ==> ast::types_model(r->0@) == p_type_args(old(self).model(), old(self).st()).val->0,
            final(self).ran(*old(self), p_type_args(old(self).model(), old(self).st())),
        decreases old(self).left(), 2int,
    {
        proof {
            reveal(p_type_args);
            reveal(p_types);
        }
        if self.peek_kind() == TokenKind::RParen {
            let none: Vec<Type> = Vec::new();
            assert(ast::types_model(none@) =~= Seq::empty());
            Some(none)
        } else {
            self.parse_types()
        }
    }

    fn parse_result(&mut self) -> (r: Option<Type>)
        requires
            old(self).wf(),
        ensures
            opt(r) == p_result(old(self).model(), old(self).st()).val,
            final(self).ran(*old(self), p_result(old(self).model(), old(self).st())),
        decreases old(self).left(), 1int,
    {
        proof {
            reveal(p_result);
            reveal(p_type);
        }
        if self.eat(TokenKind::Arrow) {
            self.parse_type()
        } else {
            Some(Type::Nil)
        }
    }

    fn parse_annotation(&mut self) -> (r: Option<Type>)
        requires
            old(self).wf(),
        ensures
            opt(r) == p_annotation(old(self).model(), old(self).st()).val,
            final(self).ran(*old(self), p_annotation(old(self).model(), old(self).st())),
    {
        proof {
            reveal(p_annotation);
        }
        if self.eat(TokenKind::Colon) {
            self.parse_type()
        } else {
            Some(Type::Unknown)
        }
    }

    fn parse_param(&mut self) -> (r: Option<Param>)
        requires
            old(self).wf(),
        ensures
            opt(r) == p_param(old(self).model(), old(self).st()).val,
            final(self).ran(*old(self), p_param(old(self).model(), old(self).st())),
    {
        proof {
            reveal(p_param);
        }
        let name_tok = match self.expect(TokenKind::Ident, "parameter name") {
            Some(x) => x,
            None => {
                return None;
            },
        };
        let ty = match self.parse_annotation() {
            Some(x) => x,
            None => {
                return None;
            },
        };
        Some(Param { name: name_tok.ident, ty, span: name_tok.span })
    }

    fn parse_params(&mut self) -> (r: Option<Vec<Param>>)
        requires
            old(self).wf(),
        ensures
            r is Some <==> p_params(old(self).model(), old(self).st(), Seq::empty()).val is Some,
            r is Some ==> ast::params_model(r->0@) == p_params(old(self).model(), old(self).st(), Seq::empty()).val->0,
            final(self).ran(*old(self), p_params(old(self).model(), old(self).st(), Seq::empty())),
    {
        proof {
            reveal(p_params);
        }
        let ghost m = self.model();
        let ghost all = p_params(m, self.st(), Seq::empty());
        let mut out: Vec<Param> = Vec::new();
        assert(ast::params_model(out@) =~= Seq::empty());
        loop
            invariant
                self.wf(),
                self.toks == old(self).toks,
                m == self.model(),
                self.pos >= old(self).pos,
                all == p_params(m, old(self).st(), Seq::empty()),
                same_end(self.st(), p_params(m, self.st(), ast::params_model(out@)), old(self).st(), all),
            decreases self.left(),
        {
            proof {
                reveal(p_params);
            }
            let p = match self.parse_param() {
                Some(x) => x,
                None => {
                    return None;
                },
            };
            proof {
                ast::lemma_params_push(out@, p);
            }
            out.push(p);
            if !self.eat(TokenKind::Comma) {
                return Some(out);
            }
        }
    }

    fn parse_expr(&mut self, min_bp: u8) -> (r: Option<Expr>)
        requires
            old(self).wf(),
        ensures
            opt(r) == p_expr(old(self).model(), old(self).st(), min_bp).val,
            final(self).ran(*old(self), p_expr(old(self).model(), old(self).st(), min_bp)),
            r is Some ==> final(self).pos > old(self).pos,
        decreases old(self).left(), 5int,
    {
        proof {
            reveal(p_expr);
            reveal(p_infix);
            reveal(p_unary);
        }
        let ghost m = self.model();
        let ghost all = p_expr(m, self.st(), min_bp);
        let mut lhs = match self.parse_unary() {
            Some(x) => x,
            None => {
                return None;
            },
        };
        loop
            invariant
                self.wf(),
                self.toks == old(self).toks,
                m == self.model(),
                m == old(self).model(),
                self.pos > old(self).pos,
                all == p_expr(m, old(self).st(), min_bp),
                same_end(self.st(), p_infix(m, self.st(), lhs@, min_bp), old(self).st(), all),
            decreases self.left(),
        {
            proof {
                reveal(p_infix);
                reveal(p_expr);
            }
            let (op, l_bp, r_bp) = match infix_bp(self.peek_kind()) {
                Some(t) => t,
                None => {
                    return Some(lhs);
                },
            };
            if l_bp < min_bp {
                return Some(lhs);
            }
            self.bump();
            let rhs = match self.parse_expr(r_bp) {
                Some(x) => x,
                None => {
                    return None;
                },
            };
            let span = lhs.span.join(rhs.span);
            let kind = ExprKind::Binary(op, Box::new(lhs), Box::new(rhs));
            lhs = mk(kind, span);
        }
    }

    fn parse_unary(&mut self) -> (r: Option<Expr>)
        requires
            old(self).wf(),
        ensures
            opt(r) == p_unary(old(self).model(), old(self).st()).val,
            final(self).ran(*old(self), p_unary(old(self).model(), old(self).st())),
            r is Some ==> final(self).pos > old(self).pos,
        decreases old(self).left(), 4int,
    {
        proof {
            reveal(p_unary);
            reveal(p_postfix);
        }
        let k = self.peek_kind();
        if k == TokenKind::Minus || k == TokenKind::Bang {
            let t = self.bump();
            let e = match self.parse_unary() {
                Some(x) => x,
                None => {
                    return None;
                },
            };
            let span = t.span.join(e.span);
            let op: UnOp = if k == TokenKind::Minus { UnOp::Neg } else { UnOp::Not };
            Some(mk(ExprKind::Unary(op, Box::new(e)), span))
        } else {
            self.parse_postfix()
        }
    }

    #[verifier::spinoff_prover]
    #[verifier::rlimit(60)]
    fn parse_postfix(&mut self) -> (r: Option<Expr>)
        requires
            old(self).wf(),
        ensures
            opt(r) == p_postfix(old(self).model(), old(self).st()).val,
            final(self).ran(*old(self), p_postfix(old(self).model(), old(self).st())),
            r is Some ==> final(self).pos > old(self).pos,
        decreases old(self).left(), 3int,
    {
        proof {
            reveal(p_postfix);
            reveal(p_atom);
            reveal(p_suffixes);
        }
        let ghost m = self.model();
        let ghost all = p_postfix(m, self.st());
        let mut expr = match self.parse_atom() {
            Some(x) => x,
            None => {
                return None;
            },
        };
        loop
            invariant
                self.wf(),
                self.toks == old(self).toks,
                m == self.model(),
                m == old(self).model(),
                self.pos > old(self).pos,
                all == p_postfix(m, old(self).st()),
                same_end(self.st(), p_suffixes(m, self.st(), expr@), old(self).st(), all),
            decreases self.left(),
        {
            proof {
                reveal(p_suffixes);
                reveal(p_suffix);
            }
            match self.peek_kind() {
                TokenKind::LParen => {
                    expr = match self.parse_call(expr) {
                        Some(x) => x,
                        None => {
                            return None;
                        },
                    };
                },
                TokenKind::Dot => {
                    expr = match self.parse_field(expr) {
                        Some(x) => x,
                        None => {
                            return None;
                        },
                    };
                },
                TokenKind::LBracket => {
                    expr = match self.parse_index(expr) {
                        Some(x) => x,
                        None => {
                            return None;
                        },
                    };
                },
                _ => {
                    return Some(expr);
                },
            }
        }
    }

    #[verifier::spinoff_prover]
    #[verifier::rlimit(60)]
    fn parse_call(&mut self, expr: Expr) -> (r: Option<Expr>)
        requires
            old(self).wf(),
            kind(old(self).model(), old(self).st()) is LParen,
        ensures
            opt(r) == p_suffix(old(self).model(), old(self).st(), expr@).val,
            final(self).ran(*old(self), p_suffix(old(self).model(), old(self).st(), expr@)),
            r is Some ==> final(self).pos > old(self).pos,
        decreases old(self).left(), 0int,
    {
        proof {
            reveal(p_suffix);
            reveal(p_args);
        }
        self.bump();
        let args = match self.parse_args() {
            Some(x) => x,
            None => {
                return None;
            },
        };
        let close = match self.expect(TokenKind::RParen, "`)`") {
            Some(x) => x,
            None => {
                return None;
            },
        };
        let span = expr.span.join(close.span);
        Some(mk(ExprKind::Call(Box::new(expr), args), span))
    }

    fn parse_field(&mut self, expr: Expr) -> (r: Option<Expr>)
        requires
            old(self).wf(),
            kind(old(self).model(), old(self).st()) is Dot,
        ensures
            opt(r) == p_suffix(old(self).model(), old(self).st(), expr@).val,
            final(self).ran(*old(self), p_suffix(old(self).model(), old(self).st(), expr@)),
            r is Some ==> final(self).pos > old(self).pos,
        decreases old(self).left(), 0int,
    {
        proof {
            reveal(p_suffix);
        }
        self.bump();
        let name = match self.expect(TokenKind::Ident, "field name") {
            Some(x) => x,
            None => {
                return None;
            },
        };
        let span = expr.span.join(name.span);
        Some(mk(ExprKind::Field(Box::new(expr), name.ident), span))
    }

    #[verifier::spinoff_prover]
    #[verifier::rlimit(60)]
    fn parse_index(&mut self, expr: Expr) -> (r: Option<Expr>)
        requires
            old(self).wf(),
            kind(old(self).model(), old(self).st()) is LBracket,
        ensures
            opt(r) == p_suffix(old(self).model(), old(self).st(), expr@).val,
            final(self).ran(*old(self), p_suffix(old(self).model(), old(self).st(), expr@)),
            r is Some ==> final(self).pos > old(self).pos,
        decreases old(self).left(), 0int,
    {
        proof {
            reveal(p_suffix);
            reveal(p_expr);
        }
        self.bump();
        let idx = match self.parse_expr(0) {
            Some(x) => x,
            None => {
                return None;
            },
        };
        let close = match self.expect(TokenKind::RBracket, "`]`") {
            Some(x) => x,
            None => {
                return None;
            },
        };
        let span = expr.span.join(close.span);
        Some(mk(ExprKind::Index(Box::new(expr), Box::new(idx)), span))
    }

    fn parse_args(&mut self) -> (r: Option<Vec<Expr>>)
        requires
            old(self).wf(),
        ensures
            r is Some <==> p_args(old(self).model(), old(self).st()).val is Some,
            r is Some ==> ast::exprs_model(r->0@) == p_args(old(self).model(), old(self).st()).val->0,
            final(self).ran(*old(self), p_args(old(self).model(), old(self).st())),
        decreases old(self).left(), 7int,
    {
        proof {
            reveal(p_args);
            reveal(p_exprs);
        }
        if self.peek_kind() == TokenKind::RParen {
            let none: Vec<Expr> = Vec::new();
            assert(ast::exprs_model(none@) =~= Seq::empty());
            Some(none)
        } else {
            self.parse_exprs()
        }
    }

    fn parse_exprs(&mut self) -> (r: Option<Vec<Expr>>)
        requires
            old(self).wf(),
        ensures
            r is Some <==> p_exprs(old(self).model(), old(self).st(), Seq::empty()).val is Some,
            r is Some ==> ast::exprs_model(r->0@) == p_exprs(old(self).model(), old(self).st(), Seq::empty()).val->0,
            final(self).ran(*old(self), p_exprs(old(self).model(), old(self).st(), Seq::empty())),
        decreases old(self).left(), 6int,
    {
        proof {
            reveal(p_exprs);
            reveal(p_expr);
        }
        let ghost m = self.model();
        let ghost all = p_exprs(m, self.st(), Seq::empty());
        let mut out: Vec<Expr> = Vec::new();
        assert(ast::exprs_model(out@) =~= Seq::empty());
        loop
            invariant
                self.wf(),
                self.toks == old(self).toks,
                m == self.model(),
                m == old(self).model(),
                self.pos >= old(self).pos,
                all == p_exprs(m, old(self).st(), Seq::empty()),
                same_end(self.st(), p_exprs(m, self.st(), ast::exprs_model(out@)), old(self).st(), all),
            decreases self.left(),
        {
            proof {
                reveal(p_exprs);
                reveal(p_expr);
            }
            let e = match self.parse_expr(0) {
                Some(x) => x,
                None => {
                    return None;
                },
            };
            proof {
                ast::lemma_exprs_push(out@, e);
            }
            out.push(e);
            if !self.eat(TokenKind::Comma) {
                return Some(out);
            }
        }
    }

    fn parse_literal(&mut self) -> (r: Expr)
        requires
            old(self).wf(),
            literal(old(self).model()[old(self).pos as int]) is Some,
        ensures
            r@ == untyped(
                ExprKindModel::Lit(literal(old(self).model()[old(self).pos as int])->0),
                old(self).model()[old(self).pos as int].span,
            ),
            final(self).wf(),
            final(self).toks == old(self).toks,
            final(self).st() == bump(old(self).model(), old(self).st()),
            final(self).pos > old(self).pos,
    {
        let tok = self.bump();
        let lit = match tok.kind {
            TokenKind::Int(v) => Lit::Int(v),
            TokenKind::Float(bits) => Lit::Float(bits),
            TokenKind::True => Lit::Bool(true),
            TokenKind::False => Lit::Bool(false),
            TokenKind::Str => Lit::Str(tok.str_value),
            _ => Lit::Nil,
        };
        mk(ExprKind::Lit(lit), tok.span)
    }

    fn parse_paren(&mut self) -> (r: Option<Expr>)
        requires
            old(self).wf(),
            kind(old(self).model(), old(self).st()) is LParen,
        ensures
            opt(r) == p_paren(old(self).model(), old(self).st()).val,
            final(self).ran(*old(self), p_paren(old(self).model(), old(self).st())),
            r is Some ==> final(self).pos > old(self).pos,
        decreases old(self).left(), 0int,
    {
        proof {
            reveal(p_paren);
            reveal(p_expr);
        }
        self.bump();
        let e = match self.parse_expr(0) {
            Some(x) => x,
            None => {
                return None;
            },
        };
        if self.expect(TokenKind::RParen, "`)`").is_none() {
            return None;
        }
        Some(e)
    }

    fn parse_block_expr(&mut self) -> (r: Option<Expr>)
        requires
            old(self).wf(),
        ensures
            opt(r) == p_block_expr(old(self).model(), old(self).st()).val,
            final(self).ran(*old(self), p_block_expr(old(self).model(), old(self).st())),
            r is Some ==> final(self).pos > old(self).pos,
        decreases old(self).left(), 1int,
    {
        proof {
            reveal(p_block_expr);
            reveal(p_block);
        }
        let b = match self.parse_block() {
            Some(x) => x,
            None => {
                return None;
            },
        };
        let span = b.span;
        Some(mk(ExprKind::Block(Box::new(b)), span))
    }

    #[verifier::spinoff_prover]
    #[verifier::rlimit(60)]
    fn parse_struct_lit(&mut self) -> (r: Option<Expr>)
        requires
            old(self).wf(),
            kind(old(self).model(), old(self).st()) is Ident,
        ensures
            opt(r) == p_struct_lit(old(self).model(), old(self).st()).val,
            final(self).ran(*old(self), p_struct_lit(old(self).model(), old(self).st())),
            r is Some ==> final(self).pos > old(self).pos,
        decreases old(self).left(), 0int,
    {
        proof {
            reveal(p_struct_lit);
            reveal(p_inits);
        }
        let tok = self.bump();
        self.bump();
        let fields = match self.parse_inits() {
            Some(x) => x,
            None => {
                return None;
            },
        };
        let close = match self.expect(TokenKind::RBrace, "`}`") {
            Some(x) => x,
            None => {
                return None;
            },
        };
        let span = tok.span.join(close.span);
        Some(mk(ExprKind::StructLit(tok.ident, fields), span))
    }

    fn parse_atom(&mut self) -> (r: Option<Expr>)
        requires
            old(self).wf(),
        ensures
            opt(r) == p_atom(old(self).model(), old(self).st()).val,
            final(self).ran(*old(self), p_atom(old(self).model(), old(self).st())),
            r is Some ==> final(self).pos > old(self).pos,
        decreases old(self).left(), 2int,
    {
        proof {
            reveal(p_atom);
            reveal(p_block_expr);
            reveal(p_bracket);
            reveal(p_closure);
            reveal(p_if);
            reveal(p_paren);
            reveal(p_struct_lit);
        }
        match self.peek_kind() {
            TokenKind::Int(_) | TokenKind::Float(_) | TokenKind::True | TokenKind::False | TokenKind::Nil
            | TokenKind::Str => Some(self.parse_literal()),
            TokenKind::LParen => self.parse_paren(),
            TokenKind::LBracket => self.parse_bracket(),
            TokenKind::LBrace => self.parse_block_expr(),
            TokenKind::KwIf => self.parse_if_expr(),
            TokenKind::Pipe => self.parse_closure(),
            TokenKind::Ident => {
                let tok = self.peek();
                if self.peek_kind_at(1) == TokenKind::LBrace && looks_like_type(tok.ident.as_str()) {
                    self.parse_struct_lit()
                } else {
                    self.bump();
                    Some(mk(ExprKind::Ident(tok.ident), tok.span))
                }
            },
            _ => {
                let tok = self.peek();
                self.complain(tok.span, found("expected expression, found `", &tok));
                None
            },
        }
    }

    fn parse_inits(&mut self) -> (r: Option<Vec<(String, Expr)>>)
        requires
            old(self).wf(),
        ensures
            r is Some <==> p_inits(old(self).model(), old(self).st(), Seq::empty()).val is Some,
            r is Some ==> ast::inits_model(r->0@) == p_inits(old(self).model(), old(self).st(), Seq::empty()).val->0,
            final(self).ran(*old(self), p_inits(old(self).model(), old(self).st(), Seq::empty())),
        decreases old(self).left(), 6int,
    {
        proof {
            reveal(p_inits);
            reveal(p_expr);
        }
        let ghost m = self.model();
        let ghost all = p_inits(m, self.st(), Seq::empty());
        let mut out: Vec<(String, Expr)> = Vec::new();
        assert(ast::inits_model(out@) =~= Seq::empty());
        loop
            invariant
                self.wf(),
                self.toks == old(self).toks,
                m == self.model(),
                m == old(self).model(),
                self.pos >= old(self).pos,
                all == p_inits(m, old(self).st(), Seq::empty()),
                same_end(self.st(), p_inits(m, self.st(), ast::inits_model(out@)), old(self).st(), all),
            decreases self.left(),
        {
            proof {
                reveal(p_inits);
                reveal(p_expr);
            }
            let k = self.peek_kind();
            if k == TokenKind::RBrace || k == TokenKind::Eof {
                return Some(out);
            }
            let n = match self.expect(TokenKind::Ident, "field name") {
                Some(x) => x,
                None => {
                    return None;
                },
            };
            if self.expect(TokenKind::Colon, "`:`").is_none() {
                return None;
            }
            let v = match self.parse_expr(0) {
                Some(x) => x,
                None => {
                    return None;
                },
            };
            proof {
                ast::lemma_inits_push(out@, (n.ident, v));
            }
            out.push((n.ident, v));
            if !self.eat(TokenKind::Comma) {
                return Some(out);
            }
        }
    }

    #[verifier::spinoff_prover]
    #[verifier::rlimit(60)]
    fn parse_bracket(&mut self) -> (r: Option<Expr>)
        requires
            old(self).wf(),
            kind(old(self).model(), old(self).st()) is LBracket,
        ensures
            opt(r) == p_bracket(old(self).model(), old(self).st()).val,
            final(self).ran(*old(self), p_bracket(old(self).model(), old(self).st())),
            r is Some ==> final(self).pos > old(self).pos,
        decreases old(self).left(), 0int,
    {
        proof {
            reveal(p_bracket);
            reveal(p_elems);
            reveal(p_expr);
            reveal(p_pairs);
        }
        let tok = self.bump();
        if self.peek_kind() == TokenKind::RBracket {
            let close = self.bump();
            let span = tok.span.join(close.span);
            let none: Vec<Expr> = Vec::new();
            assert(ast::exprs_model(none@) =~= Seq::empty());
            return Some(mk(ExprKind::ArrayLit(none), span));
        }
        if self.peek_kind() == TokenKind::Colon && self.peek_kind_at(1) == TokenKind::RBracket {
            self.bump();
            let close = self.bump();
            let span = tok.span.join(close.span);
            let none: Vec<(Expr, Expr)> = Vec::new();
            assert(ast::pairs_model(none@) =~= Seq::empty());
            return Some(mk(ExprKind::MapLit(none), span));
        }
        let first = match self.parse_expr(0) {
            Some(x) => x,
            None => {
                return None;
            },
        };
        if self.eat(TokenKind::FatArrow) {
            let v = match self.parse_expr(0) {
                Some(x) => x,
                None => {
                    return None;
                },
            };
            let pairs = match self.parse_pairs(first, v) {
                Some(x) => x,
                None => {
                    return None;
                },
            };
            let close = match self.expect(TokenKind::RBracket, "`]`") {
                Some(x) => x,
                None => {
                    return None;
                },
            };
            let span = tok.span.join(close.span);
            Some(mk(ExprKind::MapLit(pairs), span))
        } else {
            let elems = match self.parse_elems(first) {
                Some(x) => x,
                None => {
                    return None;
                },
            };
            let close = match self.expect(TokenKind::RBracket, "`]`") {
                Some(x) => x,
                None => {
                    return None;
                },
            };
            let span = tok.span.join(close.span);
            Some(mk(ExprKind::ArrayLit(elems), span))
        }
    }

    fn parse_elems(&mut self, first: Expr) -> (r: Option<Vec<Expr>>)
        requires
            old(self).wf(),
        ensures
            r is Some <==> p_elems(old(self).model(), old(self).st(), seq![first@]).val is Some,
            r is Some ==> ast::exprs_model(r->0@) == p_elems(old(self).model(), old(self).st(), seq![first@]).val->0,
            final(self).ran(*old(self), p_elems(old(self).model(), old(self).st(), seq![first@])),
        decreases old(self).left(), 0int,
    {
        proof {
            reveal(p_elems);
            reveal(p_expr);
        }
        let ghost m = self.model();
        let ghost start = seq![first@];
        let ghost all = p_elems(m, self.st(), start);
        let mut out: Vec<Expr> = Vec::new();
        out.push(first);
        assert(ast::exprs_model(out@) =~= start);
        loop
            invariant
                self.wf(),
                self.toks == old(self).toks,
                m == self.model(),
                m == old(self).model(),
                self.pos >= old(self).pos,
                start == seq![first@],
                all == p_elems(m, old(self).st(), start),
                same_end(self.st(), p_elems(m, self.st(), ast::exprs_model(out@)), old(self).st(), all),
            decreases self.left(),
        {
            proof {
                reveal(p_elems);
                reveal(p_expr);
            }
            if !self.eat(TokenKind::Comma) {
                return Some(out);
            }
            if self.peek_kind() == TokenKind::RBracket {
                return Some(out);
            }
            let e = match self.parse_expr(0) {
                Some(x) => x,
                None => {
                    return None;
                },
            };
            proof {
                ast::lemma_exprs_push(out@, e);
            }
            out.push(e);
        }
    }

    #[verifier::spinoff_prover]
    #[verifier::rlimit(60)]
    fn parse_pairs(&mut self, first: Expr, value: Expr) -> (r: Option<Vec<(Expr, Expr)>>)
        requires
            old(self).wf(),
        ensures
            r is Some <==> p_pairs(old(self).model(), old(self).st(), seq![(first@, value@)]).val is Some,
            r is Some ==> ast::pairs_model(r->0@) == p_pairs(
                old(self).model(),
                old(self).st(),
                seq![(first@, value@)],
            ).val->0,
            final(self).ran(*old(self), p_pairs(old(self).model(), old(self).st(), seq![(first@, value@)])),
        decreases old(self).left(), 0int,
    {
        proof {
            reveal(p_pairs);
            reveal(p_expr);
        }
        let ghost m = self.model();
        let ghost start = seq![(first@, value@)];
        let ghost all = p_pairs(m, self.st(), start);
        let mut out: Vec<(Expr, Expr)> = Vec::new();
        out.push((first, value));
        assert(ast::pairs_model(out@) =~= start);
        loop
            invariant
                self.wf(),
                self.toks == old(self).toks,
                m == self.model(),
                m == old(self).model(),
                self.pos >= old(self).pos,
                start == seq![(first@, value@)],
                all == p_pairs(m, old(self).st(), start),
                same_end(self.st(), p_pairs(m, self.st(), ast::pairs_model(out@)), old(self).st(), all),
            decreases self.left(),
        {
            proof {
                reveal(p_pairs);
                reveal(p_expr);
            }
            if !self.eat(TokenKind::Comma) {
                return Some(out);
            }
            if self.peek_kind() == TokenKind::RBracket {
                return Some(out);
            }
            let k = match self.parse_expr(0) {
                Some(x) => x,
                None => {
                    return None;
                },
            };
            if self.expect(TokenKind::FatArrow, "`=>`").is_none() {
                return None;
            }
            let v = match self.parse_expr(0) {
                Some(x) => x,
                None => {
                    return None;
                },
            };
            proof {
                ast::lemma_pairs_push(out@, (k, v));
            }
            out.push((k, v));
        }
    }

    #[verifier::spinoff_prover]
    #[verifier::rlimit(60)]
    fn parse_if_expr(&mut self) -> (r: Option<Expr>)
        requires
            old(self).wf(),
            kind(old(self).model(), old(self).st()) is KwIf,
        ensures
            opt(r) == p_if(old(self).model(), old(self).st()).val,
            final(self).ran(*old(self), p_if(old(self).model(), old(self).st())),
            r is Some ==> final(self).pos > old(self).pos,
        decreases old(self).left(), 0int,
    {
        proof {
            reveal(p_if);
            reveal(p_block);
            reveal(p_expr);
        }
        let kw = self.bump();
        let cond = match self.parse_expr(0) {
            Some(x) => x,
            None => {
                return None;
            },
        };
        let yes = match self.parse_block() {
            Some(x) => x,
            None => {
                return None;
            },
        };
        let span = kw.span.join(yes.span);
        if self.eat(TokenKind::KwElse) {
            if self.peek_kind() == TokenKind::KwIf {
                let inner = match self.parse_if_expr() {
                    Some(x) => x,
                    None => {
                        return None;
                    },
                };
                let inner_span = inner.span;
                let none: Vec<Stmt> = Vec::new();
                assert(ast::stmts_model(none@) =~= Seq::empty());
                let no = Block { stmts: none, tail: Some(inner), span: inner_span };
                let span2 = span.join(inner_span);
                Some(mk(ExprKind::If(Box::new(cond), Box::new(yes), Some(Box::new(no))), span2))
            } else {
                let no = match self.parse_block() {
                    Some(x) => x,
                    None => {
                        return None;
                    },
                };
                let span2 = span.join(no.span);
                Some(mk(ExprKind::If(Box::new(cond), Box::new(yes), Some(Box::new(no))), span2))
            }
        } else {
            Some(mk(ExprKind::If(Box::new(cond), Box::new(yes), None), span))
        }
    }

    fn parse_params_to(&mut self, close: TokenKind) -> (r: Option<Vec<Param>>)
        requires
            old(self).wf(),
        ensures
            r is Some <==> p_params_to(old(self).model(), old(self).st(), close).val is Some,
            r is Some ==> ast::params_model(r->0@) == p_params_to(old(self).model(), old(self).st(), close).val->0,
            final(self).ran(*old(self), p_params_to(old(self).model(), old(self).st(), close)),
    {
        proof {
            reveal(p_params_to);
        }
        if self.peek_kind() == close {
            let none: Vec<Param> = Vec::new();
            assert(ast::params_model(none@) =~= Seq::empty());
            Some(none)
        } else {
            self.parse_params()
        }
    }

    fn parse_closure(&mut self) -> (r: Option<Expr>)
        requires
            old(self).wf(),
            kind(old(self).model(), old(self).st()) is Pipe,
        ensures
            opt(r) == p_closure(old(self).model(), old(self).st()).val,
            final(self).ran(*old(self), p_closure(old(self).model(), old(self).st())),
            r is Some ==> final(self).pos > old(self).pos,
        decreases old(self).left(), 0int,
    {
        proof {
            reveal(p_closure);
            reveal(p_expr);
        }
        let open = self.bump();
        let params = match self.parse_params_to(TokenKind::Pipe) {
            Some(x) => x,
            None => {
                return None;
            },
        };
        if self.expect(TokenKind::Pipe, "`|`").is_none() {
            return None;
        }
        let body = match self.parse_expr(0) {
            Some(x) => x,
            None => {
                return None;
            },
        };
        let span = open.span.join(body.span);
        Some(mk(ExprKind::Closure(params, Box::new(body)), span))
    }

    fn parse_block(&mut self) -> (r: Option<Block>)
        requires
            old(self).wf(),
        ensures
            opt(r) == p_block(old(self).model(), old(self).st()).val,
            final(self).ran(*old(self), p_block(old(self).model(), old(self).st())),
            r is Some ==> final(self).pos > old(self).pos,
        decreases old(self).left(), 0int,
    {
        proof {
            reveal(p_block);
            reveal(p_body);
        }
        let ghost m = self.model();
        let open = match self.expect(TokenKind::LBrace, "`{`") {
            Some(x) => x,
            None => {
                return None;
            },
        };
        let ghost st1 = self.st();
        let ghost all = p_body(m, st1, Seq::empty());
        let mut stmts: Vec<Stmt> = Vec::new();
        let mut tail: Option<Expr> = None;
        assert(ast::stmts_model(stmts@) =~= Seq::empty());
        loop
            invariant_except_break
                tail is None,
                same_end(self.st(), p_body(m, self.st(), ast::stmts_model(stmts@)), st1, all),
            invariant
                self.wf(),
                self.toks == old(self).toks,
                m == self.model(),
                m == old(self).model(),
                self.pos > old(self).pos,
                all == p_body(m, st1, Seq::empty()),
                st1 == after(old(self).st(), p_expect(m, old(self).st(), TokenKind::LBrace, "`{`"@)),
                p_expect(m, old(self).st(), TokenKind::LBrace, "`{`"@).val is Some,
            ensures
                self.st() == after(st1, all),
                all.val == Some(Body { stmts: ast::stmts_model(stmts@), tail: opt(tail) }),
            decreases self.left(),
        {
            proof {
                reveal(p_block);
                reveal(p_body);
                reveal(p_item);
            }
            let k = self.peek_kind();
            if k == TokenKind::RBrace || k == TokenKind::Eof {
                break;
            }
            let item = match self.parse_item() {
                Some(x) => x,
                None => {
                    return None;
                },
            };
            match item {
                (Some(s), _) => {
                    proof {
                        ast::lemma_stmts_push(stmts@, s);
                    }
                    stmts.push(s);
                },
                (None, e) => {
                    tail = e;
                    break;
                },
            }
        }
        let close = match self.expect(TokenKind::RBrace, "`}`") {
            Some(x) => x,
            None => {
                return None;
            },
        };
        Some(Block { stmts, tail, span: open.span.join(close.span) })
    }

    fn parse_item(&mut self) -> (r: Option<(Option<Stmt>, Option<Expr>)>)
        requires
            old(self).wf(),
        ensures
            item_of(r) == p_item(old(self).model(), old(self).st()).val,
            r matches Some(x) ==> x.0 is Some || x.1 is Some,
            final(self).ran(*old(self), p_item(old(self).model(), old(self).st())),
            r is Some ==> final(self).pos > old(self).pos,
        decreases old(self).left(), 7int,
    {
        proof {
            reveal(p_item);
            reveal(p_expr_item);
            reveal(p_let);
            reveal(p_return);
            reveal(p_while);
        }
        match self.peek_kind() {
            TokenKind::KwLet => {
                let s = match self.parse_let() {
                    Some(x) => x,
                    None => {
                        return None;
                    },
                };
                Some((Some(s), None))
            },
            TokenKind::KwReturn => {
                let s = match self.parse_return() {
                    Some(x) => x,
                    None => {
                        return None;
                    },
                };
                Some((Some(s), None))
            },
            TokenKind::KwWhile => {
                let s = match self.parse_while() {
                    Some(x) => x,
                    None => {
                        return None;
                    },
                };
                Some((Some(s), None))
            },
            TokenKind::KwBreak => {
                let s = match self.parse_jump(StmtKind::Break) {
                    Some(x) => x,
                    None => {
                        return None;
                    },
                };
                Some((Some(s), None))
            },
            TokenKind::KwContinue => {
                let s = match self.parse_jump(StmtKind::Continue) {
                    Some(x) => x,
                    None => {
                        return None;
                    },
                };
                Some((Some(s), None))
            },
            _ => self.parse_expr_item(),
        }
    }

    fn parse_jump(&mut self, kind: StmtKind) -> (r: Option<Stmt>)
        requires
            old(self).wf(),
        ensures
            opt(r) == p_jump(old(self).model(), old(self).st(), kind@).val,
            final(self).ran(*old(self), p_jump(old(self).model(), old(self).st(), kind@)),
            r is Some ==> final(self).pos > old(self).pos,
    {
        proof {
            reveal(p_jump);
        }
        let t = self.bump();
        let semi = match self.expect(TokenKind::Semicolon, "`;`") {
            Some(x) => x,
            None => {
                return None;
            },
        };
        Some(mk_stmt(kind, t.span.join(semi.span)))
    }

    #[verifier::spinoff_prover]
    #[verifier::rlimit(60)]
    fn parse_expr_item(&mut self) -> (r: Option<(Option<Stmt>, Option<Expr>)>)
        requires
            old(self).wf(),
        ensures
            item_of(r) == p_expr_item(old(self).model(), old(self).st()).val,
            r matches Some(x) ==> x.0 is Some || x.1 is Some,
            final(self).ran(*old(self), p_expr_item(old(self).model(), old(self).st())),
            r is Some ==> final(self).pos > old(self).pos,
        decreases old(self).left(), 6int,
    {
        proof {
            reveal(p_expr_item);
            reveal(p_expr);
            reveal(p_init);
        }
        let expr = match self.parse_expr(0) {
            Some(x) => x,
            None => {
                return None;
            },
        };
        match self.peek_kind() {
            TokenKind::Assign => {
                let (value, end) = match self.parse_init() {
                    Some(x) => x,
                    None => {
                        return None;
                    },
                };
                let span = expr.span.join(end);
                Some((Some(mk_stmt(StmtKind::Assign(expr, value), span)), None))
            },
            TokenKind::Semicolon => {
                let semi = self.bump();
                let span = expr.span.join(semi.span);
                Some((Some(mk_stmt(StmtKind::Expr(expr), span)), None))
            },
            TokenKind::RBrace => Some((None, Some(expr))),
            _ => {
                if is_block_expr(&expr) {
                    let span = expr.span;
                    Some((Some(mk_stmt(StmtKind::Expr(expr), span)), None))
                } else {
                    let tok = self.peek();
                    self.complain(tok.span, found("expected `;` or `}`, found `", &tok));
                    None
                }
            },
        }
    }

    #[verifier::spinoff_prover]
    #[verifier::rlimit(60)]
    fn parse_init(&mut self) -> (r: Option<(Expr, Span)>)
        requires
            old(self).wf(),
        ensures
            match r {
                Some((e, end)) => p_init(old(self).model(), old(self).st()).val == Some(InitModel { value: e@, end }),
                None => p_init(old(self).model(), old(self).st()).val is None,
            },
            final(self).ran(*old(self), p_init(old(self).model(), old(self).st())),
        decreases old(self).left(), 0int,
    {
        proof {
            reveal(p_init);
            reveal(p_expr);
        }
        if self.expect(TokenKind::Assign, "`=`").is_none() {
            return None;
        }
        let init = match self.parse_expr(0) {
            Some(x) => x,
            None => {
                return None;
            },
        };
        let semi = match self.expect(TokenKind::Semicolon, "`;`") {
            Some(x) => x,
            None => {
                return None;
            },
        };
        Some((init, semi.span))
    }


    #[verifier::spinoff_prover]
    #[verifier::rlimit(60)]
    fn parse_let(&mut self) -> (r: Option<Stmt>)
        requires
            old(self).wf(),
            kind(old(self).model(), old(self).st()) is KwLet,
        ensures
            opt(r) == p_let(old(self).model(), old(self).st()).val,
            final(self).ran(*old(self), p_let(old(self).model(), old(self).st())),
            r is Some ==> final(self).pos > old(self).pos,
        decreases old(self).left(), 0int,
    {
        proof {
            reveal(p_let);
            reveal(p_init);
        }
        let kw = self.bump();
        let mutable = self.eat(TokenKind::KwMut);
        let name_tok = match self.expect(TokenKind::Ident, "binding name") {
            Some(x) => x,
            None => {
                return None;
            },
        };
        let ty = match self.parse_annotation() {
            Some(x) => x,
            None => {
                return None;
            },
        };
        let (init, end) = match self.parse_init() {
            Some(x) => x,
            None => {
                return None;
            },
        };
        Some(mk_stmt(StmtKind::Let { name: name_tok.ident, ty, mutable, init }, kw.span.join(end)))
    }

    fn parse_return_value(&mut self) -> (r: Option<Option<Expr>>)
        requires
            old(self).wf(),
        ensures
            match r {
                Some(v) => p_return_value(old(self).model(), old(self).st()).val == Some(opt(v)),
                None => p_return_value(old(self).model(), old(self).st()).val is None,
            },
            final(self).ran(*old(self), p_return_value(old(self).model(), old(self).st())),
        decreases old(self).left(), 6int,
    {
        proof {
            reveal(p_return_value);
            reveal(p_expr);
        }
        if self.peek_kind() == TokenKind::Semicolon {
            Some(None)
        } else {
            match self.parse_expr(0) {
                Some(e) => Some(Some(e)),
                None => None,
            }
        }
    }

    #[verifier::spinoff_prover]
    #[verifier::rlimit(60)]
    fn parse_return(&mut self) -> (r: Option<Stmt>)
        requires
            old(self).wf(),
            kind(old(self).model(), old(self).st()) is KwReturn,
        ensures
            opt(r) == p_return(old(self).model(), old(self).st()).val,
            final(self).ran(*old(self), p_return(old(self).model(), old(self).st())),
            r is Some ==> final(self).pos > old(self).pos,
        decreases old(self).left(), 0int,
    {
        proof {
            reveal(p_return);
            reveal(p_return_value);
        }
        let kw = self.bump();
        let value = match self.parse_return_value() {
            Some(x) => x,
            None => {
                return None;
            },
        };
        let semi = match self.expect(TokenKind::Semicolon, "`;`") {
            Some(x) => x,
            None => {
                return None;
            },
        };
        Some(mk_stmt(StmtKind::Return(value), kw.span.join(semi.span)))
    }

    #[verifier::spinoff_prover]
    #[verifier::rlimit(60)]
    fn parse_while(&mut self) -> (r: Option<Stmt>)
        requires
            old(self).wf(),
            kind(old(self).model(), old(self).st()) is KwWhile,
        ensures
            opt(r) == p_while(old(self).model(), old(self).st()).val,
            final(self).ran(*old(self), p_while(old(self).model(), old(self).st())),
            r is Some ==> final(self).pos > old(self).pos,
        decreases old(self).left(), 0int,
    {
        proof {
            reveal(p_while);
            reveal(p_block);
            reveal(p_expr);
        }
        let kw = self.bump();
        let cond = match self.parse_expr(0) {
            Some(x) => x,
            None => {
                return None;
            },
        };
        let body = match self.parse_block() {
            Some(x) => x,
            None => {
                return None;
            },
        };
        let span = kw.span.join(body.span);
        Some(mk_stmt(StmtKind::While(cond, Box::new(body)), span))
    }

    fn parse_fn(&mut self) -> (r: Option<FnDecl>)
        requires
            old(self).wf(),
            kind(old(self).model(), old(self).st()) is KwFn,
        ensures
            opt(r) == p_fn(old(self).model(), old(self).st()).val,
            final(self).ran(*old(self), p_fn(old(self).model(), old(self).st())),
            final(self).pos > old(self).pos,
    {
        proof {
            reveal(p_fn);
        }
        let fn_tok = self.bump();
        let name_tok = match self.expect(TokenKind::Ident, "function name") {
            Some(x) => x,
            None => {
                return None;
            },
        };
        if self.expect(TokenKind::LParen, "`(`").is_none() {
            return None;
        }
        let params = match self.parse_params_to(TokenKind::RParen) {
            Some(x) => x,
            None => {
                return None;
            },
        };
        if self.expect(TokenKind::RParen, "`)`").is_none() {
            return None;
        }
        let ret = match self.parse_result() {
            Some(x) => x,
            None => {
                return None;
            },
        };
        let body = match self.parse_block() {
            Some(x) => x,
            None => {
                return None;
            },
        };
        let span = fn_tok.span.join(body.span);
        Some(FnDecl { name: name_tok.ident, params, ret, body, span })
    }

    fn parse_fields(&mut self) -> (r: Option<Vec<(String, Type, Span)>>)
        requires
            old(self).wf(),
        ensures
            r is Some <==> p_fields(old(self).model(), old(self).st(), Seq::empty()).val is Some,
            r is Some ==> ast::struct_fields_model(r->0@) == p_fields(old(self).model(), old(self).st(), Seq::empty()).val->0,
            final(self).ran(*old(self), p_fields(old(self).model(), old(self).st(), Seq::empty())),
    {
        proof {
            reveal(p_fields);
        }
        let ghost m = self.model();
        let ghost all = p_fields(m, self.st(), Seq::empty());
        let mut out: Vec<(String, Type, Span)> = Vec::new();
        assert(ast::struct_fields_model(out@) =~= Seq::empty());
        loop
            invariant
                self.wf(),
                self.toks == old(self).toks,
                m == self.model(),
                self.pos >= old(self).pos,
                all == p_fields(m, old(self).st(), Seq::empty()),
                same_end(self.st(), p_fields(m, self.st(), ast::struct_fields_model(out@)), old(self).st(), all),
            decreases self.left(),
        {
            proof {
                reveal(p_fields);
            }
            let k = self.peek_kind();
            if k == TokenKind::RBrace || k == TokenKind::Eof {
                return Some(out);
            }
            let n = match self.expect(TokenKind::Ident, "field name") {
                Some(x) => x,
                None => {
                    return None;
                },
            };
            if self.expect(TokenKind::Colon, "`:`").is_none() {
                return None;
            }
            let ty = match self.parse_type() {
                Some(x) => x,
                None => {
                    return None;
                },
            };
            let ghost before = out@;
            out.push((n.ident, ty, n.span));
            assert(ast::struct_fields_model(out@) =~= ast::struct_fields_model(before).push((n.ident@, ty@, n.span)));
            if !self.eat(TokenKind::Comma) {
                return Some(out);
            }
        }
    }

    fn parse_struct(&mut self) -> (r: Option<StructDecl>)
        requires
            old(self).wf(),
            kind(old(self).model(), old(self).st()) is KwStruct,
        ensures
            r is Some <==> p_struct(old(self).model(), old(self).st()).val is Some,
            r is Some ==> Decl::Struct(r->0)@ == DeclModel::Struct(p_struct(old(self).model(), old(self).st()).val->0),
            final(self).ran(*old(self), p_struct(old(self).model(), old(self).st())),
            final(self).pos > old(self).pos,
    {
        proof {
            reveal(p_struct);
        }
        let kw = self.bump();
        let name_tok = match self.expect(TokenKind::Ident, "struct name") {
            Some(x) => x,
            None => {
                return None;
            },
        };
        if self.expect(TokenKind::LBrace, "`{`").is_none() {
            return None;
        }
        let fields = match self.parse_fields() {
            Some(x) => x,
            None => {
                return None;
            },
        };
        let close = match self.expect(TokenKind::RBrace, "`}`") {
            Some(x) => x,
            None => {
                return None;
            },
        };
        Some(StructDecl { name: name_tok.ident, fields, span: kw.span.join(close.span) })
    }

    fn parse_const(&mut self) -> (r: Option<ConstDecl>)
        requires
            old(self).wf(),
            kind(old(self).model(), old(self).st()) is KwConst,
        ensures
            r is Some <==> p_const(old(self).model(), old(self).st()).val is Some,
            r is Some ==> Decl::Const(r->0)@ == DeclModel::Const(p_const(old(self).model(), old(self).st()).val->0),
            final(self).ran(*old(self), p_const(old(self).model(), old(self).st())),
            final(self).pos > old(self).pos,
    {
        proof {
            reveal(p_const);
        }
        let kw = self.bump();
        let name_tok = match self.expect(TokenKind::Ident, "constant name") {
            Some(x) => x,
            None => {
                return None;
            },
        };
        if self.expect(TokenKind::Colon, "`:`").is_none() {
            return None;
        }
        let ty = match self.parse_type() {
            Some(x) => x,
            None => {
                return None;
            },
        };
        let (init, end) = match self.parse_init() {
            Some(x) => x,
            None => {
                return None;
            },
        };
        Some(ConstDecl { name: name_tok.ident, ty, init, span: kw.span.join(end) })
    }

    fn parse_decl(&mut self) -> (r: Option<Decl>)
        requires
            old(self).wf(),
        ensures
            opt(r) == p_decl(old(self).model(), old(self).st()).val,
            final(self).ran(*old(self), p_decl(old(self).model(), old(self).st())),
            starts_decl(kind(old(self).model(), old(self).st())) ==> final(self).pos > old(self).pos,
            r is Some ==> final(self).pos > old(self).pos,
    {
        proof {
            reveal(p_decl);
        }
        match self.peek_kind() {
            TokenKind::KwFn => match self.parse_fn() {
                Some(f) => Some(Decl::Fn(f)),
                None => None,
            },
            TokenKind::KwStruct => match self.parse_struct() {
                Some(s) => Some(Decl::Struct(s)),
                None => None,
            },
            TokenKind::KwConst => match self.parse_const() {
                Some(c) => Some(Decl::Const(c)),
                None => None,
            },
            _ => {
                let tok = self.peek();
                self.complain(tok.span, found("expected `fn`, `struct`, or `const`, found `", &tok));
                None
            },
        }
    }

    fn skip_to_decl(&mut self)
        requires
            old(self).wf(),
        ensures
            final(self).wf(),
            final(self).toks == old(self).toks,
            final(self).pos >= old(self).pos,
            final(self).st() == (St { pos: resync(old(self).model(), old(self).pos as int), diags: old(self).diags@ }),
            kind(final(self).model(), final(self).st()) is Eof || starts_decl(kind(final(self).model(), final(self).st())),
    {
        loop
            invariant
                self.wf(),
                self.toks == old(self).toks,
                self.pos >= old(self).pos,
                self.diags@ == old(self).diags@,
                resync(self.model(), self.pos as int) == resync(old(self).model(), old(self).pos as int),
            decreases self.left(),
        {
            match self.peek_kind() {
                TokenKind::Eof | TokenKind::KwFn | TokenKind::KwStruct | TokenKind::KwConst => {
                    return;
                },
                _ => {
                    self.bump();
                },
            }
        }
    }
}

/// What an element of a block is.
spec fn item_of(r: Option<(Option<Stmt>, Option<Expr>)>) -> Option<Item> {
    match r {
        Some((Some(s), _)) => Some(Item::Stmt(s@)),
        Some((None, Some(e))) => Some(Item::Tail(e@)),
        _ => None,
    }
}

/// Parses `tokens` into a [`Module`], emitting diagnostics into `diags`.
pub fn parse(tokens: &[Token], diags: &mut Diagnostics) -> (r: Module)
    requires
        terminated(views::views(tokens@)),
    ensures
        r@ == parsed(views::views(tokens@)).0,
        final(diags)@ == old(diags)@ + parsed(views::views(tokens@)).1,
{
    let ghost m = views::views(tokens@);
    let mut p = Parser { toks: tokens, pos: 0, diags: Diagnostics::new() };
    let mut decls: Vec<Decl> = Vec::new();
    let ghost all = p_decls(m, St { pos: 0, diags: Seq::empty() }, Seq::empty());
    assert(views::views(decls@) =~= Seq::empty());
    while !p.at_end()
        invariant
            p.wf(),
            p.model() == m,
            p_decls(m, p.st(), views::views(decls@)) == all,
        decreases p.left(),
    {
        let ghost before = p.st();
        proof {
            reveal(p_decls);
            reveal(p_decl);
        }
        match p.parse_decl() {
            Some(d) => {
                proof {
                    views::lemma_views_push(decls@, d);
                }
                decls.push(d);
            },
            None => {
                let ghost mid = p.st();
                p.skip_to_decl();
                assert(p.pos > before.pos) by {
                    if !starts_decl(kind(m, before)) {
                        assert(mid.pos == before.pos);
                    }
                }
            },
        }
    }
    proof {
        reveal(p_decls);
    }
    diags.extend(p.diags);
    let r = Module { decls };
    assert(r@.decls =~= views::views(decls@));
    r
}

} // verus!
