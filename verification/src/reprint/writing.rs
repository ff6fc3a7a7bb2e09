//! What is printed is read as the tokens that spell it.

use super::decimals;
use super::{
    basic, legible, legible_block, legible_decl, legible_expr, legible_exprs, legible_inits, legible_lit, legible_note,
    legible_pairs, legible_params, legible_stmt, legible_stmts, legible_type, legible_types, operator_kind, spelt,
    spelt_block, spelt_comma, spelt_decl, spelt_decls, spelt_expr, spelt_exprs, spelt_fields, spelt_inits, spelt_lit,
    spelt_name, spelt_note, spelt_operand, spelt_pairs, spelt_params, spelt_stmt, spelt_stmts, spelt_type, spelt_types,
    word,
};
use crate::ast::{
    BinOp, BlockModel, DeclModel, ExprKindModel, ExprModel, LitModel, ModuleModel, ParamModel, StmtKindModel, StmtModel,
    TypeModel, UnOp,
};
use crate::lex;
use crate::lex::{TokenKind, TokenModel};
use crate::print;
use crate::source::{FileId, Span};
use crate::text;
use vstd::prelude::*;
use vstd::string::*;
use vstd::utf8::*;

verus! {

// --- texts that grow -------------------------------------------------------------------

/// Whether a text is of basic characters.
#[verifier::opaque]
pub open spec fn all_basic(s: Seq<char>) -> bool {
    forall|i: int| 0 <= i < s.len() ==> basic(#[trigger] s[i])
}

/// Whether a text goes on with another.
#[verifier::opaque]
spec fn goes(a: Seq<char>, b: Seq<char>) -> bool {
    &&& a.len() <= b.len()
    &&& forall|i: int| 0 <= i < a.len() ==> a[i] == #[trigger] b[i]
}

/// Whether something is appended to a text that makes no longer operator of one before it.
#[verifier::opaque]
spec fn apart(out: Seq<char>, r: Seq<char>) -> bool {
    out.len() < r.len() && basic(r[out.len() as int]) && r[out.len() as int] != '>' && r[out.len() as int] != '='
}

proof fn lemma_goes()
    ensures
        forall|a: Seq<char>, b: Seq<char>, c: Seq<char>| #[trigger] goes(a, b) && #[trigger] goes(b, c) ==> goes(a, c),
        forall|a: Seq<char>, w: Seq<char>| goes(a, #[trigger] (a + w)),
        forall|o: Seq<char>, a: Seq<char>, b: Seq<char>| #[trigger] apart(o, a) && #[trigger] goes(a, b) ==> apart(o, b),
        forall|a: Seq<char>| #[trigger] goes(a, a),
{
    reveal(goes);
    reveal(apart);
    assert forall|a: Seq<char>, b: Seq<char>, c: Seq<char>| #[trigger] goes(a, b) && #[trigger] goes(b, c) implies goes(
        a,
        c,
    ) by {
        assert forall|i: int| 0 <= i < a.len() implies a[i] == #[trigger] c[i] by {
            assert(a[i] == b[i]);
        }
    }
}

/// The texts that printing puts between things.
proof fn lemma_literals()
    ensures
        all_basic("_"@),
        all_basic("nil"@),
        all_basic("bool"@),
        all_basic("i32"@),
        all_basic("i64"@),
        all_basic("f32"@),
        all_basic("f64"@),
        all_basic("str"@),
        all_basic("Entity"@),
        all_basic("Query<"@),
        all_basic("Res<"@),
        all_basic("ResMut<"@),
        all_basic("Array<"@),
        all_basic("Map<"@),
        all_basic(">"@),
        all_basic(", "@),
        all_basic("fn("@),
        all_basic(") -> "@),
        all_basic("("@),
        all_basic(")"@),
        all_basic(" "@),
        all_basic("+"@),
        all_basic("-"@),
        all_basic("*"@),
        all_basic("/"@),
        all_basic("%"@),
        all_basic("=="@),
        all_basic("!="@),
        all_basic("<"@),
        all_basic("<="@),
        all_basic(">="@),
        all_basic("&&"@),
        all_basic("||"@),
        all_basic("!"@),
        all_basic("."@),
        all_basic("["@),
        all_basic("]"@),
        all_basic(" { "@),
        all_basic(" }"@),
        all_basic("[:"@),
        all_basic("|"@),
        all_basic("| "@),
        all_basic(" | "@),
        all_basic("if "@),
        all_basic(" else "@),
        all_basic("else "@),
        all_basic(": "@),
        all_basic(" => "@),
        all_basic("{\n"@),
        all_basic("    "@),
        all_basic("\n"@),
        all_basic("}"@),
        all_basic("let "@),
        all_basic("mut "@),
        all_basic(""@),
        all_basic(";"@),
        all_basic(" = "@),
        all_basic("return"@),
        all_basic("while "@),
        all_basic("break;"@),
        all_basic("continue;"@),
        all_basic("fn "@),
        all_basic(" -> "@),
        all_basic("struct "@),
        all_basic(" {\n"@),
        all_basic(",\n"@),
        all_basic("const "@),
        all_basic("true"@),
        all_basic("false"@),
        all_basic("\""@),
        all_basic("\\\\"@),
        all_basic("\\\""@),
        all_basic("\\n"@),
        all_basic("\\r"@),
        all_basic("\\t"@),
{
    reveal(all_basic);
    reveal_strlit("_");
    reveal_strlit("nil");
    reveal_strlit("bool");
    reveal_strlit("i32");
    reveal_strlit("i64");
    reveal_strlit("f32");
    reveal_strlit("f64");
    reveal_strlit("str");
    reveal_strlit("Entity");
    reveal_strlit("Query<");
    reveal_strlit("Res<");
    reveal_strlit("ResMut<");
    reveal_strlit("Array<");
    reveal_strlit("Map<");
    reveal_strlit(">");
    reveal_strlit(", ");
    reveal_strlit("fn(");
    reveal_strlit(") -> ");
    reveal_strlit("(");
    reveal_strlit(")");
    reveal_strlit(" ");
    reveal_strlit("+");
    reveal_strlit("-");
    reveal_strlit("*");
    reveal_strlit("/");
    reveal_strlit("%");
    reveal_strlit("==");
    reveal_strlit("!=");
    reveal_strlit("<");
    reveal_strlit("<=");
    reveal_strlit(">=");
    reveal_strlit("&&");
    reveal_strlit("||");
    reveal_strlit("!");
    reveal_strlit(".");
    reveal_strlit("[");
    reveal_strlit("]");
    reveal_strlit(" { ");
    reveal_strlit(" }");
    reveal_strlit("[:");
    reveal_strlit("|");
    reveal_strlit("| ");
    reveal_strlit(" | ");
    reveal_strlit("if ");
    reveal_strlit(" else ");
    reveal_strlit("else ");
    reveal_strlit(": ");
    reveal_strlit(" => ");
    reveal_strlit("{\n");
    reveal_strlit("    ");
    reveal_strlit("\n");
    reveal_strlit("}");
    reveal_strlit("let ");
    reveal_strlit("mut ");
    reveal_strlit("");
    reveal_strlit(";");
    reveal_strlit(" = ");
    reveal_strlit("return");
    reveal_strlit("while ");
    reveal_strlit("break;");
    reveal_strlit("continue;");
    reveal_strlit("fn ");
    reveal_strlit(" -> ");
    reveal_strlit("struct ");
    reveal_strlit(" {\n");
    reveal_strlit(",\n");
    reveal_strlit("const ");
    reveal_strlit("true");
    reveal_strlit("false");
    reveal_strlit("\"");
    reveal_strlit("\\\\");
    reveal_strlit("\\\"");
    reveal_strlit("\\n");
    reveal_strlit("\\r");
    reveal_strlit("\\t");
}

proof fn lemma_apart(out: Seq<char>, w: Seq<char>)
    requires
        w.len() > 0,
        basic(w[0]),
        w[0] != '>',
        w[0] != '=',
    ensures
        apart(out, out + w),
{
    reveal(apart);
}

/// How types and expressions start.
proof fn lemma_heads()
    ensures
        forall|out: Seq<char>| apart(out, #[trigger] (out + "nil"@)),
        forall|out: Seq<char>| apart(out, #[trigger] (out + "bool"@)),
        forall|out: Seq<char>| apart(out, #[trigger] (out + "i32"@)),
        forall|out: Seq<char>| apart(out, #[trigger] (out + "i64"@)),
        forall|out: Seq<char>| apart(out, #[trigger] (out + "f32"@)),
        forall|out: Seq<char>| apart(out, #[trigger] (out + "f64"@)),
        forall|out: Seq<char>| apart(out, #[trigger] (out + "str"@)),
        forall|out: Seq<char>| apart(out, #[trigger] (out + "Entity"@)),
        forall|out: Seq<char>| apart(out, #[trigger] (out + "Query<"@)),
        forall|out: Seq<char>| apart(out, #[trigger] (out + "Res<"@)),
        forall|out: Seq<char>| apart(out, #[trigger] (out + "ResMut<"@)),
        forall|out: Seq<char>| apart(out, #[trigger] (out + "Array<"@)),
        forall|out: Seq<char>| apart(out, #[trigger] (out + "Map<"@)),
        forall|out: Seq<char>| apart(out, #[trigger] (out + "fn("@)),
        forall|out: Seq<char>| apart(out, #[trigger] (out + "("@)),
        forall|out: Seq<char>| apart(out, #[trigger] (out + "-"@)),
        forall|out: Seq<char>| apart(out, #[trigger] (out + "!"@)),
        forall|out: Seq<char>| apart(out, #[trigger] (out + "["@)),
        forall|out: Seq<char>| apart(out, #[trigger] (out + "[:"@)),
        forall|out: Seq<char>| apart(out, #[trigger] (out + "|"@)),
        forall|out: Seq<char>| apart(out, #[trigger] (out + "{\n"@)),
        forall|out: Seq<char>| apart(out, #[trigger] (out + "if "@)),
        forall|out: Seq<char>| apart(out, #[trigger] (out + "true"@)),
        forall|out: Seq<char>| apart(out, #[trigger] (out + "false"@)),
        forall|out: Seq<char>| apart(out, #[trigger] (out + "\""@)),
{
    reveal(apart);
    reveal_strlit("nil");
    reveal_strlit("bool");
    reveal_strlit("i32");
    reveal_strlit("i64");
    reveal_strlit("f32");
    reveal_strlit("f64");
    reveal_strlit("str");
    reveal_strlit("Entity");
    reveal_strlit("Query<");
    reveal_strlit("Res<");
    reveal_strlit("ResMut<");
    reveal_strlit("Array<");
    reveal_strlit("Map<");
    reveal_strlit("fn(");
    reveal_strlit("(");
    reveal_strlit("-");
    reveal_strlit("!");
    reveal_strlit("[");
    reveal_strlit("[:");
    reveal_strlit("|");
    reveal_strlit("{\n");
    reveal_strlit("if ");
    reveal_strlit("true");
    reveal_strlit("false");
    reveal_strlit("\"");
}

proof fn lemma_word_text(out: Seq<char>, n: Seq<char>)
    requires
        word(n),
    ensures
        all_basic(n),
        apart(out, out + n),
{
    reveal(all_basic);
    reveal(apart);
}

proof fn lemma_separated(out: Seq<char>, k: int)
    ensures
        goes(out, print::separated(out, k)),
{
    lemma_goes();
    lemma_literals();
}

proof fn lemma_operator(op: BinOp)
    ensures
        all_basic(print::operator(op)),
{
    lemma_literals();
}

#[verifier::spinoff_prover]
proof fn lemma_ext_type(out: Seq<char>, t: TypeModel)
    requires
        legible_type(t),
    ensures
        goes(out, print::of_type(out, t)),
        apart(out, print::of_type(out, t)),
    decreases t, 0int,
{
    reveal(legible_type);
    reveal(legible_types);
    lemma_goes();
    lemma_literals();
    lemma_heads();
    match t {
        TypeModel::Query(x) => {
            lemma_ext_type(out + "Query<"@, *x.it);
        },
        TypeModel::Res(x) => {
            lemma_ext_type(out + "Res<"@, *x.it);
        },
        TypeModel::ResMut(x) => {
            lemma_ext_type(out + "ResMut<"@, *x.it);
        },
        TypeModel::Array(x) => {
            lemma_ext_type(out + "Array<"@, *x.it);
        },
        TypeModel::Dict(k, v) => {
            lemma_ext_type(out + "Map<"@, *k.it);
            lemma_ext_type(print::of_type(out + "Map<"@, *k.it) + ", "@, *v.it);
        },
        TypeModel::Fn(ps, r) => {
            let a = print::of_types(out + "fn("@, ps, ps.len() as int);
            lemma_ext_types(out + "fn("@, ps, ps.len() as int);
            lemma_ext_type(a + ") -> "@, *r.it);
        },
        TypeModel::Struct(n) => {
            lemma_word_text(out, n);
        },
        _ => {},
    }
}

#[verifier::spinoff_prover]
proof fn lemma_ext_types(out: Seq<char>, ts: Seq<TypeModel>, k: int)
    requires
        legible_types(ts, k),
    ensures
        goes(out, print::of_types(out, ts, k)),
    decreases ts, k,
{
    reveal(legible_types);
    reveal(legible_type);
    lemma_goes();
    if 0 < k <= ts.len() {
        lemma_ext_types(out, ts, k - 1);
        let a = print::of_types(out, ts, k - 1);
        lemma_separated(a, k);
        lemma_ext_type(print::separated(a, k), ts[k - 1]);
    }
}

proof fn lemma_ext_params(out: Seq<char>, ps: Seq<ParamModel>, k: int)
    requires
        legible_params(ps),
        0 <= k <= ps.len(),
    ensures
        goes(out, print::of_params(out, ps, k)),
    decreases k,
{
    lemma_goes();
    lemma_literals();
    if 0 < k {
        lemma_ext_params(out, ps, k - 1);
        let a = print::of_params(out, ps, k - 1);
        let b = print::separated(a, k);
        let p = ps[k - 1];
        lemma_separated(a, k);
        lemma_word_text(b, p.name);
        if !(p.ty is Unknown) {
            lemma_ext_type(b + p.name + ": "@, p.ty);
        }
    }
}

proof fn lemma_ext_escaped(out: Seq<char>, s: Seq<char>, k: int)
    requires
        0 <= k <= s.len(),
    ensures
        goes(out, print::escaped_text(out, s, k)),
    decreases k,
{
    lemma_goes();
    if k > 0 {
        lemma_ext_escaped(out, s, k - 1);
    }
}

proof fn lemma_ext_lit(out: Seq<char>, l: LitModel)
    requires
        legible_lit(l),
    ensures
        goes(out, print::of_lit(out, l)),
        apart(out, print::of_lit(out, l)),
{
    lemma_goes();
    lemma_literals();
    lemma_heads();
    match l {
        LitModel::Int(v) => {
            let s = text::dec_int(v as int);
            decimals::lemma_dec(v as nat);
            assert(s == text::dec(v as nat));
            assert(decimals::digit(s[0]));
            lemma_apart(out, s);
        },
        LitModel::Float(b) => {
            let s = print::float_literal(b);
            decimals::lemma_float_literal(b);
            let k = choose|k: int| decimals::fraction_at(s, k);
            assert(decimals::digit(s[0]));
            lemma_apart(out, s);
        },
        LitModel::Str(s) => {
            lemma_ext_escaped(out + "\""@, s, s.len() as int);
        },
        _ => {},
    }
}

#[verifier::spinoff_prover]
proof fn lemma_ext_operand(out: Seq<char>, e: ExprModel, wrap: bool)
    requires
        legible_expr(e),
    ensures
        goes(out, print::of_operand(out, e, wrap)),
        apart(out, print::of_operand(out, e, wrap)),
    decreases e, 1int,
{
    lemma_goes();
    lemma_literals();
    lemma_heads();
    if wrap {
        lemma_ext_expr(out + "("@, e);
    } else {
        lemma_ext_expr(out, e);
    }
}

#[verifier::spinoff_prover]
#[verifier::rlimit(40)]
proof fn lemma_ext_expr(out: Seq<char>, e: ExprModel)
    requires
        legible_expr(e),
    ensures
        goes(out, print::of_expr(out, e)),
        apart(out, print::of_expr(out, e)),
    decreases e, 0int,
{
    reveal(legible_expr);
    reveal(legible_exprs);
    reveal(legible_inits);
    reveal(legible_pairs);
    reveal(legible_block);
    lemma_goes();
    lemma_literals();
    lemma_heads();
    match e.kind {
        ExprKindModel::Lit(l) => {
            lemma_ext_lit(out, l);
        },
        ExprKindModel::Ident(n) => {
            lemma_word_text(out, n);
        },
        ExprKindModel::Binary(op, l, r) => {
            let a = print::of_operand(out + "("@, *l.it, print::open_ended(*l.it));
            lemma_ext_operand(out + "("@, *l.it, print::open_ended(*l.it));
            lemma_operator(op);
            lemma_ext_expr(a + " "@ + print::operator(op) + " "@, *r.it);
        },
        ExprKindModel::Unary(op, x) => {
            if op == UnOp::Neg {
                lemma_ext_expr(out + "-"@, *x.it);
            } else {
                lemma_ext_expr(out + "!"@, *x.it);
            }
        },
        ExprKindModel::Call(c, args) => {
            let a = print::of_operand(out, *c.it, print::loose(*c.it));
            lemma_ext_operand(out, *c.it, print::loose(*c.it));
            lemma_ext_exprs(a + "("@, args, args.len() as int);
        },
        ExprKindModel::Field(x, n) => {
            let a = print::of_operand(out, *x.it, print::loose(*x.it));
            lemma_ext_operand(out, *x.it, print::loose(*x.it));
            lemma_word_text(a + "."@, n);
        },
        ExprKindModel::Index(x, i) => {
            let a = print::of_operand(out, *x.it, print::loose(*x.it));
            lemma_ext_operand(out, *x.it, print::loose(*x.it));
            lemma_ext_expr(a + "["@, *i.it);
        },
        ExprKindModel::StructLit(n, fs) => {
            lemma_word_text(out, n);
            lemma_ext_inits(out + n + " { "@, fs, fs.len() as int);
        },
        ExprKindModel::ArrayLit(es) => {
            lemma_ext_exprs(out + "["@, es, es.len() as int);
        },
        ExprKindModel::MapLit(ps) => {
            if ps.len() == 0 {
                lemma_ext_pairs(out + "[:"@, ps, ps.len() as int);
            } else {
                lemma_ext_pairs(out + "["@, ps, ps.len() as int);
            }
        },
        ExprKindModel::Closure(ps, b) => {
            let a = print::of_params(out + "|"@, ps, ps.len() as int);
            lemma_ext_params(out + "|"@, ps, ps.len() as int);
            if ps.len() == 0 {
                lemma_ext_expr(a + " | "@, *b.it);
            } else {
                lemma_ext_expr(a + "| "@, *b.it);
            }
        },
        ExprKindModel::Block(b) => {
            lemma_ext_block(out, *b.it);
        },
        ExprKindModel::If(c, yes, no) => {
            let w = print::ends_in_type_name(*c.it);
            let a = print::of_operand(out + "if "@, *c.it, w);
            lemma_ext_operand(out + "if "@, *c.it, w);
            lemma_ext_block(a + " "@, *yes.it);
            if let Some(b) = no {
                lemma_ext_block(print::of_block(a + " "@, *yes.it) + " else "@, *b.it);
            }
        },
    }
}

#[verifier::spinoff_prover]
proof fn lemma_ext_exprs(out: Seq<char>, es: Seq<ExprModel>, k: int)
    requires
        legible_exprs(es, k),
    ensures
        goes(out, print::of_exprs(out, es, k)),
    decreases es, k,
{
    reveal(legible_exprs);
    reveal(legible_expr);
    lemma_goes();
    if 0 < k <= es.len() {
        lemma_ext_exprs(out, es, k - 1);
        let a = print::of_exprs(out, es, k - 1);
        lemma_separated(a, k);
        lemma_ext_expr(print::separated(a, k), es[k - 1]);
    }
}

#[verifier::spinoff_prover]
proof fn lemma_ext_inits(out: Seq<char>, fs: Seq<(Seq<char>, ExprModel)>, k: int)
    requires
        legible_inits(fs, k),
    ensures
        goes(out, print::of_inits(out, fs, k)),
    decreases fs, k,
{
    reveal(legible_inits);
    reveal(legible_expr);
    lemma_goes();
    lemma_literals();
    if 0 < k <= fs.len() {
        assert(decreases_to!(fs => fs[k - 1]));
        assert(decreases_to!(fs[k - 1] => fs[k - 1].1));
        lemma_ext_inits(out, fs, k - 1);
        let a = print::of_inits(out, fs, k - 1);
        let b = print::separated(a, k);
        lemma_separated(a, k);
        lemma_word_text(b, fs[k - 1].0);
        lemma_ext_expr(b + fs[k - 1].0 + ": "@, fs[k - 1].1);
    }
}

#[verifier::spinoff_prover]
proof fn lemma_ext_pairs(out: Seq<char>, ps: Seq<(ExprModel, ExprModel)>, k: int)
    requires
        legible_pairs(ps, k),
    ensures
        goes(out, print::of_pairs(out, ps, k)),
    decreases ps, k,
{
    reveal(legible_pairs);
    reveal(legible_expr);
    lemma_goes();
    lemma_literals();
    if 0 < k <= ps.len() {
        assert(decreases_to!(ps => ps[k - 1]));
        assert(decreases_to!(ps[k - 1] => ps[k - 1].0));
        assert(decreases_to!(ps[k - 1] => ps[k - 1].1));
        lemma_ext_pairs(out, ps, k - 1);
        let a = print::of_pairs(out, ps, k - 1);
        let b = print::separated(a, k);
        lemma_separated(a, k);
        lemma_ext_expr(b, ps[k - 1].0);
        lemma_ext_expr(print::of_expr(b, ps[k - 1].0) + " => "@, ps[k - 1].1);
    }
}

#[verifier::spinoff_prover]
proof fn lemma_ext_block(out: Seq<char>, b: BlockModel)
    requires
        legible_block(b),
    ensures
        goes(out, print::of_block(out, b)),
        apart(out, print::of_block(out, b)),
    decreases b, 0int,
{
    reveal(legible_block);
    reveal(legible_stmts);
    reveal(legible_expr);
    lemma_goes();
    lemma_literals();
    lemma_heads();
    let a = print::of_stmts(out + "{\n"@, b.stmts, b.stmts.len() as int);
    lemma_ext_stmts(out + "{\n"@, b.stmts, b.stmts.len() as int);
    if let Some(t) = b.tail {
        lemma_ext_expr(a + "    "@, t);
    }
}

#[verifier::spinoff_prover]
proof fn lemma_ext_stmts(out: Seq<char>, ss: Seq<StmtModel>, k: int)
    requires
        legible_stmts(ss, k),
    ensures
        goes(out, print::of_stmts(out, ss, k)),
    decreases ss, k,
{
    reveal(legible_stmts);
    reveal(legible_stmt);
    lemma_goes();
    lemma_literals();
    if 0 < k <= ss.len() {
        lemma_ext_stmts(out, ss, k - 1);
        lemma_ext_stmt(print::of_stmts(out, ss, k - 1) + "    "@, ss[k - 1]);
    }
}

#[verifier::spinoff_prover]
#[verifier::rlimit(40)]
proof fn lemma_ext_stmt(out: Seq<char>, st: StmtModel)
    requires
        legible_stmt(st),
    ensures
        goes(out, print::of_stmt(out, st)),
    decreases st, 0int,
{
    reveal(legible_stmt);
    reveal(legible_expr);
    reveal(legible_block);
    lemma_goes();
    lemma_literals();
    match st.kind {
        StmtKindModel::Let { name, ty, mutable, init } => {
            let h = let_head(out, name, mutable);
            lemma_ext_let_head(out, name, mutable);
            if ty is Unknown {
                lemma_ext_expr(h + " = "@, init);
            } else {
                lemma_ext_type(h + ": "@, ty);
                lemma_ext_expr(print::of_type(h + ": "@, ty) + " = "@, init);
            }
        },
        StmtKindModel::Assign(p, v) => {
            lemma_ext_expr(out, p);
            lemma_ext_expr(print::of_expr(out, p) + " = "@, v);
        },
        StmtKindModel::Expr(e) => {
            lemma_ext_expr(out, e);
        },
        StmtKindModel::Return(Some(v)) => {
            lemma_ext_expr(out + "return"@ + " "@, v);
        },
        StmtKindModel::While(c, b) => {
            let w = print::ends_in_type_name(c);
            lemma_ext_operand(out + "while "@, c, w);
            lemma_ext_block(print::of_operand(out + "while "@, c, w) + " "@, *b.it);
        },
        _ => {},
    }
}

/// A `let`, up to its name.
spec fn let_head(out: Seq<char>, name: Seq<char>, mutable: bool) -> Seq<char> {
    out + "let "@ + (if mutable {
        "mut "@
    } else {
        ""@
    }) + name
}

proof fn lemma_ext_let_head(out: Seq<char>, name: Seq<char>, mutable: bool)
    requires
        word(name),
    ensures
        goes(out, let_head(out, name, mutable)),
{
    lemma_goes();
    lemma_literals();
    lemma_word_text(out, name);
}

proof fn lemma_ext_fields(out: Seq<char>, fs: Seq<(Seq<char>, TypeModel, Span)>, k: int)
    requires
        0 <= k <= fs.len(),
        forall|i: int| 0 <= i < fs.len() ==> word((#[trigger] fs[i]).0) && legible_type(fs[i].1),
    ensures
        goes(out, print::of_fields(out, fs, k)),
    decreases k,
{
    lemma_goes();
    lemma_literals();
    if 0 < k {
        let f = fs[k - 1];
        let a = print::of_fields(out, fs, k - 1);
        lemma_ext_fields(out, fs, k - 1);
        lemma_word_text(a + "    "@, f.0);
        lemma_ext_type(a + "    "@ + f.0 + ": "@, f.1);
    }
}

proof fn lemma_ext_decl(out: Seq<char>, d: DeclModel)
    requires
        legible_decl(d),
    ensures
        goes(out, print::of_decl(out, d)),
{
    lemma_goes();
    lemma_literals();
    match d {
        DeclModel::Fn(f) => {
            let a = out + "fn "@ + f.name + "("@;
            let n = f.params.len() as int;
            let b = print::of_params(a, f.params, n) + ")"@;
            lemma_word_text(out + "fn "@, f.name);
            lemma_ext_params(a, f.params, n);
            if f.ret is Nil {
                lemma_ext_block(b + " "@, f.body);
            } else {
                lemma_ext_type(b + " -> "@, f.ret);
                lemma_ext_block(print::of_type(b + " -> "@, f.ret) + " "@, f.body);
            }
        },
        DeclModel::Struct(s) => {
            lemma_word_text(out + "struct "@, s.name);
            lemma_ext_fields(out + "struct "@ + s.name + " {\n"@, s.fields, s.fields.len() as int);
        },
        DeclModel::Const(c) => {
            lemma_word_text(out + "const "@, c.name);
            let a = out + "const "@ + c.name + ": "@;
            lemma_ext_type(a, c.ty);
            lemma_ext_expr(print::of_type(a, c.ty) + " = "@, c.init);
        },
    }
}

proof fn lemma_ext_decls(ds: Seq<DeclModel>, k: int, n: int)
    requires
        0 <= k <= n <= ds.len(),
        forall|i: int| 0 <= i < ds.len() ==> legible_decl(#[trigger] ds[i]),
    ensures
        goes(print::of_decls(ds, k), print::of_decls(ds, n)),
    decreases n - k,
{
    lemma_goes();
    lemma_literals();
    if k < n {
        lemma_ext_decls(ds, k, n - 1);
        lemma_ext_decl(print::of_decls(ds, n - 1), ds[n - 1]);
    }
}

// --- reading tokens --------------------------------------------------------------------

/// The bytes of a text, each as a character, and the tokens that the lexer gives for them.
pub struct Scene {
    pub file: FileId,
    pub text: Seq<char>,
    pub toks: Seq<TokenModel>,
}

/// Characters as bytes.
pub open spec fn bytes(s: Seq<char>) -> Seq<u8> {
    Seq::new(s.len(), |i: int| s[i] as u8)
}

/// Bytes as characters.
pub open spec fn wide(b: Seq<u8>) -> Seq<char> {
    Seq::new(b.len(), |i: int| b[i] as char)
}

/// Where the bytes of a text end.
spec fn at(s: Seq<char>) -> int {
    encode_utf8(s).len() as int
}

/// The bytes of a text are those of its parts.
proof fn lemma_encode_cat(a: Seq<char>, b: Seq<char>)
    ensures
        encode_utf8(a + b) == encode_utf8(a) + encode_utf8(b),
        at(a + b) == at(a) + at(b),
    decreases a.len(),
{
    if a.len() == 0 {
        assert(a + b =~= b);
        assert(encode_utf8(a) + encode_utf8(b) =~= encode_utf8(b));
    } else {
        lemma_encode_cat(a.drop_first(), b);
        assert((a + b).drop_first() =~= a.drop_first() + b);
        assert((a + b)[0] == a[0]);
        assert(encode_utf8(a + b) =~= encode_utf8(a) + encode_utf8(b));
    }
}

/// Basic characters are a byte each.
proof fn lemma_encode_basic(w: Seq<char>)
    requires
        all_basic(w),
    ensures
        at(w) == w.len(),
        forall|i: int| 0 <= i < w.len() ==> encode_utf8(w)[i] as char == #[trigger] w[i],
{
    reveal(all_basic);
    assert(is_ascii_chars(w)) by {
        assert forall|i: int| 0 <= i < w.len() implies '\0' <= #[trigger] w[i] <= '\u{7f}' by {
            assert(basic(w[i]));
        }
    }
    is_ascii_chars_encode_utf8(w);
    assert forall|i: int| 0 <= i < w.len() implies encode_utf8(w)[i] as char == #[trigger] w[i] by {
        assert(basic(w[i]));
    }
}

/// Whether the lexer has the tokens from `p` on still to give at `q`, and has not complained.
#[verifier::opaque]
pub open spec fn sync(z: Scene, q: int, p: int) -> bool {
    let l = lex::lexed(z.file, bytes(z.text), q);
    &&& 0 <= q <= z.text.len()
    &&& 0 <= p <= z.toks.len()
    &&& z.toks.skip(p) == l.0
    &&& lex::lexed(z.file, bytes(z.text), 0).1 == l.1
}

/// Whether the bytes of a text start those that are read.
#[verifier::opaque]
spec fn begins(z: Scene, out: Seq<char>) -> bool {
    let c = encode_utf8(out);
    &&& c.len() <= z.text.len()
    &&& forall|i: int| 0 <= i < c.len() ==> #[trigger] z.text[i] == c[i] as char
}

/// Whether what stands at `q` makes no longer token of what ends there.
#[verifier::opaque]
spec fn clear(z: Scene, q: int) -> bool {
    &&& 0 <= q < z.text.len()
    &&& basic(z.text[q])
    &&& !lex::in_ident(z.text[q] as u8)
    &&& z.text[q] != '='
    &&& z.text[q] == '.' ==> q + 1 < z.text.len() && !lex::is_digit(z.text[q + 1] as u8)
}

/// One step of the lexer.
proof fn lemma_step(z: Scene, q: int, p: int)
    requires
        sync(z, q, p),
        q < z.text.len(),
        lex::step(z.file, bytes(z.text), q).diags.len() == 0,
        lex::step(z.file, bytes(z.text), q).tokens.len() <= 1,
    ensures
        ({
            let s = lex::step(z.file, bytes(z.text), q);
            &&& sync(z, s.next, p + s.tokens.len())
            &&& s.tokens.len() == 1 ==> p < z.toks.len() && z.toks[p] == s.tokens[0]
        }),
{
    reveal(sync);
    let b = bytes(z.text);
    let s = lex::step(z.file, b, q);
    lex::lemma_step_moves(z.file, b, q);
    let l = lex::lexed(z.file, b, q);
    let r = lex::lexed(z.file, b, s.next);
    assert(l.0 == s.tokens + r.0 && l.1 == s.diags + r.1);
    assert(s.diags + r.1 =~= r.1);
    if s.tokens.len() == 1 {
        assert(z.toks.skip(p)[0] == s.tokens[0]);
        assert(z.toks.skip(p + 1) =~= z.toks.skip(p).skip(1));
        assert((s.tokens + r.0).skip(1) =~= r.0);
    } else {
        assert(s.tokens + r.0 =~= r.0);
    }
}

/// A space or a line break.
proof fn lemma_space(z: Scene, q: int, p: int)
    requires
        sync(z, q, p),
        q < z.text.len(),
        z.text[q] == ' ' || z.text[q] == '\n',
    ensures
        sync(z, q + 1, p),
{
    reveal(sync);
    assert(bytes(z.text)[q] == z.text[q] as u8);
    lemma_step(z, q, p);
}

/// A mark of `n` characters.
proof fn lemma_mark(z: Scene, q: int, p: int, k: TokenKind, n: int)
    requires
        sync(z, q, p),
        q < z.text.len(),
        ({
            let c = z.text[q] as u8;
            let next = if q + 1 < z.text.len() {
                Some(z.text[q + 1] as u8)
            } else {
                None
            };
            &&& lex::punctuation(c, next) == Some((k, n))
            &&& !lex::is_space(c) && !lex::starts_ident(c) && !lex::is_digit(c) && c != 34
            &&& c == 47 ==> next != Some(47u8) && next != Some(42u8)
        }),
    ensures
        sync(z, q + n, p + 1),
        spelt(z.toks, p, k) == p + 1,
{
    reveal(sync);
    let b = bytes(z.text);
    assert(b[q] == z.text[q] as u8);
    if q + 1 < z.text.len() {
        assert(b[q + 1] == z.text[q + 1] as u8);
    }
    lemma_step(z, q, p);
}

/// What a text puts behind another.
proof fn lemma_put(z: Scene, out: Seq<char>, w: Seq<char>)
    requires
        begins(z, out + w),
        all_basic(w),
    ensures
        begins(z, out),
        at(out + w) == at(out) + w.len(),
        0 <= at(out),
        at(out) + w.len() <= z.text.len(),
        forall|i: int| 0 <= i < w.len() ==> z.text[at(out) + i] == #[trigger] w[i],
{
    reveal(begins);
    lemma_encode_cat(out, w);
    lemma_encode_basic(w);
    let c = encode_utf8(out);
    let d = encode_utf8(out + w);
    assert forall|i: int| 0 <= i < w.len() implies z.text[at(out) + i] == #[trigger] w[i] by {
        assert(z.text[at(out) + i] == d[at(out) + i] as char);
        assert(d[at(out) + i] == encode_utf8(w)[i]);
    }
    assert forall|i: int| 0 <= i < c.len() implies #[trigger] z.text[i] == c[i] as char by {
        assert(d[i] == c[i]);
    }
}

/// A text that another goes on with starts what that starts.
proof fn lemma_begins(z: Scene, a: Seq<char>, b: Seq<char>)
    requires
        begins(z, b),
        goes(a, b),
    ensures
        begins(z, a),
        0 <= at(a) <= at(b) <= z.text.len(),
{
    reveal(begins);
    reveal(goes);
    let rest = b.skip(a.len() as int);
    assert(a + rest =~= b);
    lemma_encode_cat(a, rest);
    let c = encode_utf8(a);
    let d = encode_utf8(b);
    assert forall|i: int| 0 <= i < c.len() implies #[trigger] z.text[i] == c[i] as char by {
        assert(d[i] == c[i]);
    }
}

/// What is appended next is no part of an operator.
proof fn lemma_next_char(z: Scene, out: Seq<char>, r: Seq<char>)
    requires
        begins(z, r),
        apart(out, r),
        goes(out, r),
    ensures
        0 <= at(out) < z.text.len(),
        z.text[at(out)] != '>',
        z.text[at(out)] != '=',
        basic(z.text[at(out)]),
{
    reveal(apart);
    let c = r[out.len() as int];
    let w = seq![c];
    lemma_goes();
    assert(goes(out + w, r)) by {
        reveal(goes);
    }
    lemma_begins(z, out + w, r);
    assert(all_basic(w)) by {
        reveal(all_basic);
    }
    lemma_put(z, out, w);
    assert(z.text[at(out) + 0] == w[0]);
}

proof fn lemma_ident_run(b: Seq<u8>, i: int, j: int)
    requires
        0 <= i <= j <= b.len(),
        forall|k: int| i <= k < j ==> lex::in_ident(#[trigger] b[k]),
        j == b.len() || !lex::in_ident(b[j]),
    ensures
        lex::ident_end(b, i) == j,
    decreases j - i,
{
    if i < j {
        assert(lex::in_ident(b[i]));
        lemma_ident_run(b, i + 1, j);
    }
}

/// A lexeme of letters: a name or a keyword.
proof fn lemma_letters(z: Scene, out: Seq<char>, w: Seq<char>, p: int)
    requires
        sync(z, at(out), p),
        begins(z, out + w),
        w.len() > 0,
        lex::starts_ident(w[0] as u8),
        forall|i: int| 0 <= i < w.len() ==> basic(#[trigger] w[i]) && lex::in_ident(w[i] as u8),
        at(out) + w.len() < z.text.len(),
        !lex::in_ident(z.text[at(out) + w.len()] as u8),
    ensures
        sync(z, at(out) + w.len(), p + 1),
        p < z.toks.len(),
        z.toks[p].kind == lex::keyword(w),
        z.toks[p].ident == w,
{
    let b = bytes(z.text);
    let q = at(out);
    let j = at(out) + w.len();
    assert(all_basic(w)) by {
        reveal(all_basic);
    }
    lemma_put(z, out, w);
    assert forall|k: int| q <= k < j implies lex::in_ident(#[trigger] b[k]) && b[k] as char == w[k - q] by {
        let c = w[k - q];
        assert(z.text[q + (k - q)] == c);
        assert(basic(c) && lex::in_ident(c as u8));
        assert(b[k] == c as u8);
    }
    assert(b[q] == w[0] as u8) by {
        assert(z.text[q + 0] == w[0]);
    }
    lemma_ident_run(b, q, j);
    assert(lex::ascii(b, q, j) =~= w);
    lemma_step(z, q, p);
}

proof fn lemma_word(z: Scene, out: Seq<char>, w: Seq<char>, p: int)
    requires
        sync(z, at(out), p),
        begins(z, out + w),
        word(w),
        at(out + w) < z.text.len(),
        !lex::in_ident(z.text[at(out + w)] as u8),
    ensures
        sync(z, at(out + w), p + 1),
        spelt_name(z.toks, p, w) == p + 1,
{
    reveal(sync);
    assert(all_basic(w)) by {
        reveal(all_basic);
    }
    lemma_put(z, out, w);
    lemma_letters(z, out, w, p);
}

/// Whether a text is letters.
spec fn letters(w: Seq<char>) -> bool {
    &&& w.len() > 0
    &&& lex::starts_ident(w[0] as u8)
    &&& forall|i: int| 0 <= i < w.len() ==> basic(#[trigger] w[i]) && lex::in_ident(w[i] as u8)
}

proof fn lemma_keyword(z: Scene, out: Seq<char>, w: Seq<char>, k: TokenKind, p: int)
    requires
        sync(z, at(out), p),
        begins(z, out + w),
        letters(w),
        lex::keyword(w) == k,
        at(out + w) < z.text.len(),
        !lex::in_ident(z.text[at(out + w)] as u8),
    ensures
        sync(z, at(out + w), p + 1),
        spelt(z.toks, p, k) == p + 1,
{
    reveal(sync);
    assert(all_basic(w)) by {
        reveal(all_basic);
    }
    lemma_put(z, out, w);
    lemma_letters(z, out, w, p);
}

/// The keywords.
#[verifier::spinoff_prover]
#[verifier::rlimit(40)]
proof fn lemma_keywords()
    ensures
        letters("fn"@) && lex::keyword("fn"@) == TokenKind::KwFn,
        letters("let"@) && lex::keyword("let"@) == TokenKind::KwLet,
        letters("mut"@) && lex::keyword("mut"@) == TokenKind::KwMut,
        letters("const"@) && lex::keyword("const"@) == TokenKind::KwConst,
        letters("return"@) && lex::keyword("return"@) == TokenKind::KwReturn,
        letters("if"@) && lex::keyword("if"@) == TokenKind::KwIf,
        letters("else"@) && lex::keyword("else"@) == TokenKind::KwElse,
        letters("while"@) && lex::keyword("while"@) == TokenKind::KwWhile,
        letters("break"@) && lex::keyword("break"@) == TokenKind::KwBreak,
        letters("continue"@) && lex::keyword("continue"@) == TokenKind::KwContinue,
        letters("struct"@) && lex::keyword("struct"@) == TokenKind::KwStruct,
        letters("true"@) && lex::keyword("true"@) == TokenKind::True,
        letters("false"@) && lex::keyword("false"@) == TokenKind::False,
        letters("nil"@) && lex::keyword("nil"@) == TokenKind::Nil,
{
    reveal_strlit("fn");
    reveal_strlit("let");
    reveal_strlit("mut");
    reveal_strlit("const");
    reveal_strlit("return");
    reveal_strlit("if");
    reveal_strlit("else");
    reveal_strlit("while");
    reveal_strlit("break");
    reveal_strlit("continue");
    reveal_strlit("struct");
    reveal_strlit("true");
    reveal_strlit("false");
    reveal_strlit("nil");
    reveal_strlit("for");
    reveal_strlit("in");
    reveal_strlit("as");
    assert("fn"@.len() == 2 && "fn"@[0] == 'f' && "fn"@[1] == 'n');
    assert("let"@.len() == 3 && "let"@[0] == 'l' && "let"@[1] == 'e' && "let"@[2] == 't');
    assert("mut"@.len() == 3 && "mut"@[0] == 'm' && "mut"@[1] == 'u' && "mut"@[2] == 't');
    assert("const"@.len() == 5 && "const"@[0] == 'c' && "const"@[1] == 'o' && "const"@[2] == 'n');
    assert("return"@.len() == 6 && "return"@[0] == 'r' && "return"@[1] == 'e' && "return"@[2] == 't');
    assert("if"@.len() == 2 && "if"@[0] == 'i' && "if"@[1] == 'f');
    assert("else"@.len() == 4 && "else"@[0] == 'e' && "else"@[1] == 'l' && "else"@[2] == 's');
    assert("while"@.len() == 5 && "while"@[0] == 'w' && "while"@[1] == 'h' && "while"@[2] == 'i');
    assert("break"@.len() == 5 && "break"@[0] == 'b' && "break"@[1] == 'r' && "break"@[2] == 'e');
    assert("continue"@.len() == 8 && "continue"@[0] == 'c' && "continue"@[1] == 'o' && "continue"@[2] == 'n');
    assert("struct"@.len() == 6 && "struct"@[0] == 's' && "struct"@[1] == 't' && "struct"@[2] == 'r');
    assert("true"@.len() == 4 && "true"@[0] == 't' && "true"@[1] == 'r' && "true"@[2] == 'u');
    assert("false"@.len() == 5 && "false"@[0] == 'f' && "false"@[1] == 'a' && "false"@[2] == 'l');
    assert("nil"@.len() == 3 && "nil"@[0] == 'n' && "nil"@[1] == 'i' && "nil"@[2] == 'l');
    assert("for"@.len() == 3 && "for"@[0] == 'f' && "for"@[1] == 'o' && "for"@[2] == 'r');
    assert("in"@.len() == 2 && "in"@[0] == 'i' && "in"@[1] == 'n');
    assert("as"@.len() == 2 && "as"@[0] == 'a' && "as"@[1] == 's');
}

/// The names of the built-in types.
#[verifier::spinoff_prover]
#[verifier::rlimit(40)]
proof fn lemma_type_words()
    ensures
        word("bool"@),
        word("i32"@),
        word("i64"@),
        word("f32"@),
        word("f64"@),
        word("str"@),
        word("Entity"@),
        word("Query"@),
        word("Res"@),
        word("ResMut"@),
        word("Array"@),
        word("Map"@),
{
    reveal_strlit("fn");
    reveal_strlit("let");
    reveal_strlit("mut");
    reveal_strlit("const");
    reveal_strlit("return");
    reveal_strlit("if");
    reveal_strlit("else");
    reveal_strlit("while");
    reveal_strlit("break");
    reveal_strlit("continue");
    reveal_strlit("struct");
    reveal_strlit("true");
    reveal_strlit("false");
    reveal_strlit("nil");
    reveal_strlit("for");
    reveal_strlit("in");
    reveal_strlit("as");
    reveal_strlit("bool");
    reveal_strlit("i32");
    reveal_strlit("i64");
    reveal_strlit("f32");
    reveal_strlit("f64");
    reveal_strlit("str");
    reveal_strlit("Entity");
    reveal_strlit("Query");
    reveal_strlit("Res");
    reveal_strlit("ResMut");
    reveal_strlit("Array");
    reveal_strlit("Map");
    assert("fn"@.len() == 2 && "fn"@[0] == 'f' && "fn"@[1] == 'n');
    assert("let"@.len() == 3 && "let"@[0] == 'l' && "let"@[1] == 'e' && "let"@[2] == 't');
    assert("mut"@.len() == 3 && "mut"@[0] == 'm' && "mut"@[1] == 'u' && "mut"@[2] == 't');
    assert("const"@.len() == 5 && "const"@[0] == 'c' && "const"@[1] == 'o' && "const"@[2] == 'n');
    assert("return"@.len() == 6 && "return"@[0] == 'r' && "return"@[1] == 'e' && "return"@[2] == 't');
    assert("if"@.len() == 2 && "if"@[0] == 'i' && "if"@[1] == 'f');
    assert("else"@.len() == 4 && "else"@[0] == 'e' && "else"@[1] == 'l' && "else"@[2] == 's');
    assert("while"@.len() == 5 && "while"@[0] == 'w' && "while"@[1] == 'h' && "while"@[2] == 'i');
    assert("break"@.len() == 5 && "break"@[0] == 'b' && "break"@[1] == 'r' && "break"@[2] == 'e');
    assert("continue"@.len() == 8 && "continue"@[0] == 'c' && "continue"@[1] == 'o' && "continue"@[2] == 'n');
    assert("struct"@.len() == 6 && "struct"@[0] == 's' && "struct"@[1] == 't' && "struct"@[2] == 'r');
    assert("true"@.len() == 4 && "true"@[0] == 't' && "true"@[1] == 'r' && "true"@[2] == 'u');
    assert("false"@.len() == 5 && "false"@[0] == 'f' && "false"@[1] == 'a' && "false"@[2] == 'l');
    assert("nil"@.len() == 3 && "nil"@[0] == 'n' && "nil"@[1] == 'i' && "nil"@[2] == 'l');
    assert("for"@.len() == 3 && "for"@[0] == 'f' && "for"@[1] == 'o' && "for"@[2] == 'r');
    assert("in"@.len() == 2 && "in"@[0] == 'i' && "in"@[1] == 'n');
    assert("as"@.len() == 2 && "as"@[0] == 'a' && "as"@[1] == 's');
    assert("bool"@.len() == 4 && "bool"@[0] == 'b' && "bool"@[1] == 'o' && "bool"@[2] == 'o');
    assert("i32"@.len() == 3 && "i32"@[0] == 'i' && "i32"@[1] == '3' && "i32"@[2] == '2');
    assert("i64"@.len() == 3 && "i64"@[0] == 'i' && "i64"@[1] == '6' && "i64"@[2] == '4');
    assert("f32"@.len() == 3 && "f32"@[0] == 'f' && "f32"@[1] == '3' && "f32"@[2] == '2');
    assert("f64"@.len() == 3 && "f64"@[0] == 'f' && "f64"@[1] == '6' && "f64"@[2] == '4');
    assert("str"@.len() == 3 && "str"@[0] == 's' && "str"@[1] == 't' && "str"@[2] == 'r');
    assert("Entity"@.len() == 6 && "Entity"@[0] == 'E' && "Entity"@[1] == 'n' && "Entity"@[2] == 't');
    assert("Query"@.len() == 5 && "Query"@[0] == 'Q' && "Query"@[1] == 'u' && "Query"@[2] == 'e');
    assert("Res"@.len() == 3 && "Res"@[0] == 'R' && "Res"@[1] == 'e' && "Res"@[2] == 's');
    assert("ResMut"@.len() == 6 && "ResMut"@[0] == 'R' && "ResMut"@[1] == 'e' && "ResMut"@[2] == 's');
    assert("Array"@.len() == 5 && "Array"@[0] == 'A' && "Array"@[1] == 'r' && "Array"@[2] == 'r');
    assert("Map"@.len() == 3 && "Map"@[0] == 'M' && "Map"@[1] == 'a' && "Map"@[2] == 'p');
}

// --- numbers and strings ---------------------------------------------------------------

/// The marks that stand by themselves whatever follows.
spec fn solo(c: char) -> Option<TokenKind> {
    if c == '(' {
        Some(TokenKind::LParen)
    } else if c == ')' {
        Some(TokenKind::RParen)
    } else if c == '{' {
        Some(TokenKind::LBrace)
    } else if c == '}' {
        Some(TokenKind::RBrace)
    } else if c == '[' {
        Some(TokenKind::LBracket)
    } else if c == ']' {
        Some(TokenKind::RBracket)
    } else if c == ',' {
        Some(TokenKind::Comma)
    } else if c == ';' {
        Some(TokenKind::Semicolon)
    } else if c == '.' {
        Some(TokenKind::Dot)
    } else {
        None
    }
}

proof fn lemma_solo(z: Scene, q: int, p: int)
    requires
        sync(z, q, p),
        q < z.text.len(),
        solo(z.text[q]) is Some,
    ensures
        sync(z, q + 1, p + 1),
        spelt(z.toks, p, solo(z.text[q])->0) == p + 1,
{
    lemma_mark(z, q, p, solo(z.text[q])->0, 1);
}

/// One of the marks behind a text.
proof fn lemma_put_solo(z: Scene, out: Seq<char>, w: Seq<char>, p: int)
    requires
        sync(z, at(out), p),
        begins(z, out + w),
        w.len() == 1,
        solo(w[0]) is Some,
    ensures
        sync(z, at(out + w), p + 1),
        spelt(z.toks, p, solo(w[0])->0) == p + 1,
        z.text[at(out)] == w[0],
        begins(z, out),
{
    assert(all_basic(w)) by {
        reveal(all_basic);
    }
    lemma_put(z, out, w);
    assert(z.text[at(out) + 0] == w[0]);
    lemma_solo(z, at(out), p);
}

/// What can stand behind a construct.
proof fn lemma_clear(z: Scene, q: int)
    requires
        0 <= q < z.text.len(),
        z.text[q] == ' ' || z.text[q] == '\n' || z.text[q] == ')' || z.text[q] == '(' || z.text[q] == ']' || z.text[q] == '['
            || z.text[q] == ',' || z.text[q] == ';' || z.text[q] == ':' || z.text[q] == '>' || z.text[q] == '|',
    ensures
        clear(z, q),
{
    reveal(clear);
}

proof fn lemma_digits_run(b: Seq<u8>, i: int, j: int)
    requires
        0 <= i <= j <= b.len(),
        forall|k: int| i <= k < j ==> lex::is_digit(#[trigger] b[k]),
        j == b.len() || !lex::in_digits(b[j]),
    ensures
        lex::digits_end(b, i) == j,
    decreases j - i,
{
    if i < j {
        assert(lex::is_digit(b[i]));
        lemma_digits_run(b, i + 1, j);
    }
}

proof fn lemma_digits_value(b: Seq<u8>, lo: int, s: Seq<char>, n: int)
    requires
        0 <= lo,
        0 <= n <= s.len(),
        lo + n <= b.len(),
        forall|i: int| 0 <= i < n ==> b[lo + i] == #[trigger] s[i] as u8 && basic(s[i]),
    ensures
        lex::digits_value(b, lo, lo + n) == decimals::number(s.take(n)),
    decreases n,
{
    if n > 0 {
        lemma_digits_value(b, lo, s, n - 1);
        let t = s.take(n);
        assert(t.drop_last() =~= s.take(n - 1));
        assert(t.last() == s[n - 1]);
        assert(b[lo + (n - 1)] == s[n - 1] as u8);
    }
}

proof fn lemma_digits_count(b: Seq<u8>, lo: int, hi: int)
    requires
        0 <= lo <= hi <= b.len(),
        forall|k: int| lo <= k < hi ==> lex::is_digit(#[trigger] b[k]),
    ensures
        lex::digits_count(b, lo, hi) == hi - lo,
    decreases hi - lo,
{
    if lo < hi {
        assert(lex::is_digit(b[hi - 1]));
        lemma_digits_count(b, lo, hi - 1);
    }
}

/// The digits in front of `hi` count from `lo` where nothing else does.
proof fn lemma_digits_count_skip(b: Seq<u8>, lo: int, hi: int)
    requires
        0 <= lo < hi <= b.len(),
        !lex::is_digit(b[lo]),
    ensures
        lex::digits_count(b, lo, hi) == lex::digits_count(b, lo + 1, hi),
    decreases hi - lo,
{
    reveal_with_fuel(lex::digits_count, 2);
    if lo + 1 < hi {
        lemma_digits_count_skip(b, lo, hi - 1);
    }
}

#[verifier::spinoff_prover]
proof fn lemma_write_int(z: Scene, out: Seq<char>, v: i64, p: int)
    requires
        sync(z, at(out), p),
        v >= 0,
        begins(z, out + text::dec_int(v as int)),
        clear(z, at(out + text::dec_int(v as int))),
    ensures
        sync(z, at(out + text::dec_int(v as int)), p + 1),
        spelt(z.toks, p, TokenKind::Int(v)) == p + 1,
{
    reveal(clear);
    let s = text::dec_int(v as int);
    assert(s == text::dec(v as nat));
    decimals::lemma_dec(v as nat);
    assert(all_basic(s)) by {
        reveal(all_basic);
        assert forall|i: int| 0 <= i < s.len() implies basic(#[trigger] s[i]) by {
            assert(decimals::digit(s[i]));
        }
    }
    lemma_put(z, out, s);
    let b = bytes(z.text);
    let q = at(out);
    let j = q + s.len();
    assert forall|k: int| q <= k < j implies lex::is_digit(#[trigger] b[k]) by {
        assert(z.text[q + (k - q)] == s[k - q]);
        assert(decimals::digit(s[k - q]));
    }
    assert(b[j] == z.text[j] as u8);
    lemma_digits_run(b, q, j);
    assert forall|i: int| 0 <= i < s.len() implies b[q + i] == #[trigger] s[i] as u8 && basic(s[i]) by {
        assert(z.text[q + i] == s[i]);
        assert(decimals::digit(s[i]));
    }
    lemma_digits_value(b, q, s, s.len() as int);
    assert(s.take(s.len() as int) =~= s);
    if j + 1 < z.text.len() {
        assert(b[j + 1] == z.text[j + 1] as u8);
    }
    assert(lex::is_digit(b[q]));
    assert(lex::fraction_end(b, j) == j);
    assert(!lex::suffix_at(b, j));
    assert(lex::number_kind(b, q) == TokenKind::Int(v));
    reveal(sync);
    lemma_step(z, q, p);
}

#[verifier::spinoff_prover]
proof fn lemma_write_float(z: Scene, out: Seq<char>, v: u64, p: int)
    requires
        sync(z, at(out), p),
        v <= crate::float::INF,
        begins(z, out + print::float_literal(v)),
        clear(z, at(out + print::float_literal(v))),
    ensures
        sync(z, at(out + print::float_literal(v)), p + 1),
        spelt(z.toks, p, TokenKind::Float(v)) == p + 1,
{
    reveal(clear);
    let s = print::float_literal(v);
    decimals::lemma_float_literal(v);
    let k = choose|k: int|
        #[trigger] decimals::fraction_at(s, k) && crate::float::of_decimal(
            decimals::number(s),
            (s.len() - k - 1) as nat,
        ) == v;
    assert(all_basic(s)) by {
        reveal(all_basic);
        assert forall|i: int| 0 <= i < s.len() implies basic(#[trigger] s[i]) by {
            if i != k {
                assert(decimals::digit(s[i]));
            }
        }
    }
    lemma_put(z, out, s);
    let b = bytes(z.text);
    let q = at(out);
    let d = q + k;
    let j = q + s.len();
    assert forall|i: int| 0 <= i < s.len() implies b[q + i] == #[trigger] s[i] as u8 && basic(s[i]) && (i != k
        ==> lex::is_digit(b[q + i])) by {
        assert(z.text[q + i] == s[i]);
        if i != k {
            assert(decimals::digit(s[i]));
        }
    }
    assert forall|i: int| q <= i < d implies lex::is_digit(#[trigger] b[i]) by {
        assert(b[q + (i - q)] == s[i - q] as u8);
    }
    assert forall|i: int| d + 1 <= i < j implies lex::is_digit(#[trigger] b[i]) by {
        assert(b[q + (i - q)] == s[i - q] as u8);
    }
    assert(b[d] == s[k] as u8);
    assert(b[j] == z.text[j] as u8);
    lemma_digits_run(b, q, d);
    lemma_digits_run(b, d + 1, j);
    lemma_digits_value(b, q, s, s.len() as int);
    assert(s.take(s.len() as int) =~= s);
    lemma_digits_count(b, d + 1, j);
    lemma_digits_count_skip(b, d, j);
    assert(lex::is_digit(b[q]) && lex::is_digit(b[d + 1]));
    assert(lex::fraction_end(b, d) == j);
    assert(!lex::suffix_at(b, j));
    assert(lex::number_kind(b, q) == TokenKind::Float(v));
    reveal(sync);
    lemma_step(z, q, p);
}

/// A byte that is neither a quote nor a backslash stands for itself.
proof fn lemma_raw_run(z: Scene, q: int, n: int)
    requires
        0 <= q,
        0 <= n,
        q + n <= z.text.len(),
        forall|i: int| 0 <= i < n ==> bytes(z.text)[q + i] != 34 && #[trigger] bytes(z.text)[q + i] != 92,
    ensures
        ({
            let b = bytes(z.text);
            let r = lex::string_body(z.file, b, q + n);
            lex::string_body(z.file, b, q) == (lex::StringBody { raw: b.subrange(q, q + n) + r.raw, ..r })
        }),
    decreases n,
{
    let b = bytes(z.text);
    let r = lex::string_body(z.file, b, q + n);
    if n > 0 {
        assert(b[q + 0] != 34 && b[q + 0] != 92);
        assert forall|i: int| 0 <= i < n - 1 implies b[q + 1 + i] != 34 && #[trigger] b[q + 1 + i] != 92 by {
            assert(b[q + (i + 1)] != 92);
        }
        lemma_raw_run(z, q + 1, n - 1);
        assert(seq![b[q]] + (b.subrange(q + 1, q + n) + r.raw) =~= b.subrange(q, q + n) + r.raw);
    } else {
        assert(b.subrange(q, q) + r.raw =~= r.raw);
    }
}

/// The bytes of a character that is not basic are neither quotes nor backslashes.
proof fn lemma_high_bytes(c: char)
    requires
        !basic(c),
    ensures
        forall|i: int| 0 <= i < encode_scalar(c as u32).len() ==> #[trigger] encode_scalar(c as u32)[i] >= 0x80,
{
    let u = c as u32;
    assert(is_scalar(u)) by {
        char_is_scalar(c);
    }
    assert(u >= 0x80);
    assert(u < 0x20_0000 ==> leading_byte_width_2(u) >= 0x80 && leading_byte_width_3(u) >= 0x80 && leading_byte_width_4(u)
        >= 0x80 && last_continuation_byte(u) >= 0x80 && second_last_continuation_byte(u) >= 0x80
        && third_last_continuation_byte(u) >= 0x80) by (bit_vector);
}

/// What the inside of a string literal gives from character `k` on.
#[verifier::spinoff_prover]
#[verifier::rlimit(40)]
proof fn lemma_write_chars(z: Scene, out: Seq<char>, s: Seq<char>, k: int)
    requires
        0 <= k <= s.len(),
        begins(z, print::escaped_text(out, s, s.len() as int) + "\""@),
    ensures
        ({
            let r = lex::string_body(z.file, bytes(z.text), at(print::escaped_text(out, s, k)));
            &&& r.end == at(print::escaped_text(out, s, s.len() as int))
            &&& r.raw == encode_utf8(s.skip(k))
            &&& r.diags.len() == 0
        }),
    decreases s.len() - k,
{
    let b = bytes(z.text);
    let n = s.len() as int;
    let all = print::escaped_text(out, s, n);
    let here = print::escaped_text(out, s, k);
    let q = at(here);
    lemma_literals();
    lemma_put(z, all, "\""@);
    reveal_strlit("\"");
    if k < n {
        lemma_write_chars(z, out, s, k + 1);
        let c = s[k];
        let w = print::escaped(c);
        lemma_goes();
        lemma_ext_escaped_on(out, s, k + 1, n);
        lemma_begins(z, here + w, all);
        assert(s.skip(k)[0] == c);
        assert(s.skip(k).drop_first() =~= s.skip(k + 1));
        let rest = lex::string_body(z.file, b, at(here + w));
        if basic(c) {
            lemma_one_char(z, here, c);
        } else {
            assert(w == seq![c]);
            lemma_high_bytes(c);
            lemma_encode_cat(here, w);
            let code = encode_scalar(c as u32);
            assert(encode_utf8(w) =~= code) by {
                assert(w.drop_first() =~= Seq::empty());
                assert(encode_utf8(Seq::<char>::empty()) =~= Seq::empty());
            }
            let d = encode_utf8(here + w);
            assert forall|i: int| 0 <= i < code.len() implies #[trigger] b[q + i] == code[i] by {
                reveal(begins);
                assert(z.text[q + i] == d[q + i] as char);
                assert(d[q + i] == code[i]);
            }
            assert(at(here + w) == q + code.len());
            assert(q + code.len() <= z.text.len()) by {
                reveal(begins);
            }
            assert forall|i: int| 0 <= i < code.len() implies b[q + i] != 34 && #[trigger] b[q + i] != 92 by {
                assert(b[q + i] == code[i]);
            }
            lemma_raw_run(z, q, code.len() as int);
            let part = b.subrange(q, q + code.len());
            assert forall|i: int| 0 <= i < code.len() implies part[i] == code[i] by {
                assert(b[q + i] == code[i]);
            }
            assert(part =~= code);
        }
    } else {
        assert(z.text[at(all) + 0] == "\""@[0]);
        assert(b[q] == 34);
        assert(s.skip(n) =~= Seq::empty());
        assert(encode_utf8(s.skip(n)) =~= Seq::empty());
    }
}

/// A basic character of a string literal is read back.
#[verifier::spinoff_prover]
proof fn lemma_one_char(z: Scene, here: Seq<char>, c: char)
    requires
        basic(c),
        begins(z, here + print::escaped(c)),
    ensures
        ({
            let b = bytes(z.text);
            let r = lex::string_body(z.file, b, at(here + print::escaped(c)));
            &&& at(here) <= at(here + print::escaped(c))
            &&& lex::string_body(z.file, b, at(here)) == (lex::StringBody {
                raw: encode_scalar(c as u32) + r.raw,
                ..r
            })
        }),
{
    let b = bytes(z.text);
    let w = print::escaped(c);
    let q = at(here);
    lemma_literals();
    assert(all_basic(w)) by {
        reveal(all_basic);
    }
    lemma_put(z, here, w);
    reveal_strlit("\\\\");
    reveal_strlit("\\\"");
    reveal_strlit("\\n");
    reveal_strlit("\\r");
    reveal_strlit("\\t");
    assert(w.len() >= 1 && z.text[q + 0] == w[0]);
    assert(b[q] == w[0] as u8);
    if w.len() == 2 {
        assert(z.text[q + 1] == w[1]);
        assert(b[q + 1] == w[1] as u8);
    }
    let one = seq![c];
    assert(all_basic(one)) by {
        reveal(all_basic);
    }
    lemma_encode_basic(one);
    assert(encode_utf8(one) =~= encode_scalar(c as u32)) by {
        assert(one.drop_first() =~= Seq::empty());
        assert(encode_utf8(Seq::<char>::empty()) =~= Seq::empty());
    }
    assert(encode_scalar(c as u32)[0] as char == one[0]);
    assert(encode_scalar(c as u32) =~= seq![c as u8]);
    if c == '\\' || c == '"' || c == '\n' || c == '\r' || c == '\t' {
        assert(w.len() == 2);
        assert(lex::escape(b[q + 1]) == Some(c as u8));
    } else {
        assert(w == seq![c]);
        assert(b[q] == c as u8);
    }
}

proof fn lemma_ext_escaped_on(out: Seq<char>, s: Seq<char>, k: int, n: int)
    requires
        0 <= k <= n <= s.len(),
    ensures
        goes(print::escaped_text(out, s, k), print::escaped_text(out, s, n)),
    decreases n - k,
{
    lemma_goes();
    if k < n {
        lemma_ext_escaped_on(out, s, k, n - 1);
    }
}

#[verifier::spinoff_prover]
proof fn lemma_write_lit(z: Scene, out: Seq<char>, l: LitModel, p: int)
    requires
        sync(z, at(out), p),
        legible_lit(l),
        begins(z, print::of_lit(out, l)),
        clear(z, at(print::of_lit(out, l))),
    ensures
        sync(z, at(print::of_lit(out, l)), p + 1),
        spelt_lit(z.toks, p, l) == p + 1,
{
    lemma_literals();
    match l {
        LitModel::Nil => {
            reveal(clear);
            lemma_keywords();
            lemma_keyword(z, out, "nil"@, TokenKind::Nil, p);
        },
        LitModel::Bool(true) => {
            reveal(clear);
            lemma_keywords();
            lemma_keyword(z, out, "true"@, TokenKind::True, p);
        },
        LitModel::Bool(false) => {
            reveal(clear);
            lemma_keywords();
            lemma_keyword(z, out, "false"@, TokenKind::False, p);
        },
        LitModel::Int(v) => {
            lemma_write_int(z, out, v, p);
        },
        LitModel::Float(v) => {
            lemma_write_float(z, out, v, p);
        },
        LitModel::Str(s) => {
            let n = s.len() as int;
            let a = out + "\""@;
            let e = print::escaped_text(a, s, n);
            lemma_write_chars(z, a, s, 0);
            lemma_put(z, e, "\""@);
            lemma_ext_escaped(a, s, n);
            lemma_begins(z, a, e);
            lemma_put(z, out, "\""@);
            reveal_strlit("\"");
            let q = at(out);
            let b = bytes(z.text);
            assert(z.text[q + 0] == "\""@[0]);
            assert(b[q] == 34);
            assert(s.skip(0) =~= s);
            encode_utf8_valid_utf8(s);
            encode_utf8_decode_utf8(s);
            assert(print::escaped_text(a, s, 0) == a);
            reveal(sync);
            lemma_step(z, q, p);
        },
    }
}

// --- types and parameters --------------------------------------------------------------

/// A keyword at the start of a piece of text.
proof fn lemma_lead(z: Scene, out: Seq<char>, w: Seq<char>, word: Seq<char>, k: TokenKind, p: int)
    requires
        sync(z, at(out), p),
        begins(z, out + w),
        all_basic(w),
        letters(word),
        lex::keyword(word) == k,
        word.len() < w.len(),
        w.take(word.len() as int) == word,
        !lex::in_ident(w[word.len() as int] as u8),
    ensures
        sync(z, at(out) + word.len(), p + 1),
        spelt(z.toks, p, k) == p + 1,
        k is Ident ==> spelt_name(z.toks, p, word) == p + 1,
        begins(z, out),
        at(out) + w.len() <= z.text.len(),
        at(out + w) == at(out) + w.len(),
        forall|i: int| 0 <= i < w.len() ==> z.text[at(out) + i] == #[trigger] w[i],
{
    lemma_put(z, out, w);
    assert(goes(out + word, out + w)) by {
        reveal(goes);
        assert forall|i: int| 0 <= i < (out + word).len() implies (out + word)[i] == #[trigger] (out + w)[i] by {
            if i >= out.len() {
                assert(word[i - out.len()] == w.take(word.len() as int)[i - out.len()]);
            }
        }
    }
    lemma_begins(z, out + word, out + w);
    assert(z.text[at(out) + word.len()] == w[word.len() as int]);
    reveal(sync);
    lemma_letters(z, out, word, p);
}

/// How pieces of text start.
#[verifier::spinoff_prover]
proof fn lemma_leads()
    ensures
        "fn("@.len() == 3 && "fn"@.len() == 2 && "fn("@.take(2) == "fn"@ && "fn("@[2] == '(',
        "fn "@.len() == 3 && "fn"@.len() == 2 && "fn "@.take(2) == "fn"@ && "fn "@[2] == ' ',
        "if "@.len() == 3 && "if"@.len() == 2 && "if "@.take(2) == "if"@ && "if "@[2] == ' ',
        "while "@.len() == 6 && "while"@.len() == 5 && "while "@.take(5) == "while"@ && "while "@[5] == ' ',
        "let "@.len() == 4 && "let"@.len() == 3 && "let "@.take(3) == "let"@ && "let "@[3] == ' ',
        "mut "@.len() == 4 && "mut"@.len() == 3 && "mut "@.take(3) == "mut"@ && "mut "@[3] == ' ',
        "struct "@.len() == 7 && "struct"@.len() == 6 && "struct "@.take(6) == "struct"@ && "struct "@[6] == ' ',
        "const "@.len() == 6 && "const"@.len() == 5 && "const "@.take(5) == "const"@ && "const "@[5] == ' ',
        "break;"@.len() == 6 && "break"@.len() == 5 && "break;"@.take(5) == "break"@ && "break;"@[5] == ';',
        "continue;"@.len() == 9 && "continue"@.len() == 8 && "continue;"@.take(8) == "continue"@ && "continue;"@[8] == ';',
        "Query<"@.len() == 6 && "Query"@.len() == 5 && "Query<"@.take(5) == "Query"@ && "Query<"@[5] == '<',
        "Res<"@.len() == 4 && "Res"@.len() == 3 && "Res<"@.take(3) == "Res"@ && "Res<"@[3] == '<',
        "ResMut<"@.len() == 7 && "ResMut"@.len() == 6 && "ResMut<"@.take(6) == "ResMut"@ && "ResMut<"@[6] == '<',
        "Array<"@.len() == 6 && "Array"@.len() == 5 && "Array<"@.take(5) == "Array"@ && "Array<"@[5] == '<',
        "Map<"@.len() == 4 && "Map"@.len() == 3 && "Map<"@.take(3) == "Map"@ && "Map<"@[3] == '<',
{
    reveal_strlit("fn(");
    reveal_strlit("fn ");
    reveal_strlit("if ");
    reveal_strlit("while ");
    reveal_strlit("let ");
    reveal_strlit("mut ");
    reveal_strlit("struct ");
    reveal_strlit("const ");
    reveal_strlit("break;");
    reveal_strlit("continue;");
    reveal_strlit("Query<");
    reveal_strlit("Res<");
    reveal_strlit("ResMut<");
    reveal_strlit("Array<");
    reveal_strlit("Map<");
    reveal_strlit("Array");
    reveal_strlit("Map");
    reveal_strlit("Query");
    reveal_strlit("Res");
    reveal_strlit("ResMut");
    reveal_strlit("break");
    reveal_strlit("const");
    reveal_strlit("continue");
    reveal_strlit("fn");
    reveal_strlit("if");
    reveal_strlit("let");
    reveal_strlit("mut");
    reveal_strlit("struct");
    reveal_strlit("while");
    assert("fn("@.take(2) =~= "fn"@);
    assert("fn "@.take(2) =~= "fn"@);
    assert("if "@.take(2) =~= "if"@);
    assert("while "@.take(5) =~= "while"@);
    assert("let "@.take(3) =~= "let"@);
    assert("mut "@.take(3) =~= "mut"@);
    assert("struct "@.take(6) =~= "struct"@);
    assert("const "@.take(5) =~= "const"@);
    assert("break;"@.take(5) =~= "break"@);
    assert("continue;"@.take(8) =~= "continue"@);
    assert("Query<"@.take(5) =~= "Query"@);
    assert("Res<"@.take(3) =~= "Res"@);
    assert("ResMut<"@.take(6) =~= "ResMut"@);
    assert("Array<"@.take(5) =~= "Array"@);
    assert("Map<"@.take(3) =~= "Map"@);
}

/// `Name<`
proof fn lemma_write_open(z: Scene, out: Seq<char>, w: Seq<char>, n: Seq<char>, next: Seq<char>, p: int)
    requires
        sync(z, at(out), p),
        begins(z, next),
        goes(out + w, next),
        apart(out + w, next),
        all_basic(w),
        super::word(n),
        w.len() == n.len() + 1,
        w.take(n.len() as int) == n,
        w[n.len() as int] == '<',
    ensures
        sync(z, at(out + w), p + 2),
        spelt(z.toks, spelt_name(z.toks, p, n), TokenKind::Lt) == p + 2,
{
    lemma_begins(z, out + w, next);
    lemma_lead(z, out, w, n, TokenKind::Ident, p);
    lemma_next_char(z, out + w, next);
    assert(z.text[at(out) + n.len()] == w[n.len() as int]);
    lemma_mark(z, at(out) + n.len(), p + 1, TokenKind::Lt, 1);
}

/// `>`
proof fn lemma_write_close(z: Scene, out: Seq<char>, p: int)
    requires
        sync(z, at(out), p),
        begins(z, out + ">"@),
        clear(z, at(out + ">"@)),
    ensures
        sync(z, at(out + ">"@), p + 1),
        spelt(z.toks, p, TokenKind::Gt) == p + 1,
{
    lemma_literals();
    reveal(clear);
    lemma_put(z, out, ">"@);
    reveal_strlit(">");
    assert(z.text[at(out) + 0] == ">"@[0]);
    lemma_mark(z, at(out), p, TokenKind::Gt, 1);
}

/// A `>` follows.
proof fn lemma_clear_close(z: Scene, out: Seq<char>)
    requires
        begins(z, out + ">"@),
    ensures
        clear(z, at(out)),
        begins(z, out),
{
    lemma_literals();
    lemma_put(z, out, ">"@);
    reveal_strlit(">");
    assert(z.text[at(out) + 0] == ">"@[0]);
    lemma_clear(z, at(out));
}

/// A comma and a space follow, or nothing does.
proof fn lemma_write_comma(z: Scene, out: Seq<char>, k: int, p: int)
    requires
        sync(z, at(out), p),
        begins(z, print::separated(out, k)),
    ensures
        spelt_comma(z.toks, p, k) >= 0,
        sync(z, at(print::separated(out, k)), spelt_comma(z.toks, p, k)),
{
    lemma_literals();
    reveal(sync);
    if k > 1 {
        lemma_put(z, out, ", "@);
        reveal_strlit(", ");
        assert(z.text[at(out) + 0] == ", "@[0] && z.text[at(out) + 1] == ", "@[1]);
        lemma_solo(z, at(out), p);
        lemma_space(z, at(out) + 1, p + 1);
    }
}

proof fn lemma_clear_comma(z: Scene, out: Seq<char>, k: int)
    requires
        begins(z, print::separated(out, k)),
        k > 1,
    ensures
        clear(z, at(out)),
        begins(z, out),
{
    lemma_literals();
    lemma_put(z, out, ", "@);
    reveal_strlit(", ");
    assert(z.text[at(out) + 0] == ", "@[0]);
    lemma_clear(z, at(out));
}

#[verifier::spinoff_prover]
#[verifier::rlimit(60)]
proof fn lemma_write_type(z: Scene, out: Seq<char>, t: TypeModel, p: int)
    requires
        sync(z, at(out), p),
        begins(z, print::of_type(out, t)),
        legible_type(t),
        clear(z, at(print::of_type(out, t))),
    ensures
        spelt_type(z.toks, p, t) >= 0,
        sync(z, at(print::of_type(out, t)), spelt_type(z.toks, p, t)),
    decreases t, 0int,
{
    lemma_literals();
    reveal(legible_type);
    reveal(legible_types);
    reveal(spelt_type);
    reveal(spelt_types);
    lemma_goes();
    let r = print::of_type(out, t);
    match t {
        TypeModel::Nil => {
            reveal(clear);
            lemma_keywords();
            lemma_keyword(z, out, "nil"@, TokenKind::Nil, p);
            reveal(sync);
        },
        TypeModel::Bool => {
            reveal(clear);
            lemma_type_words();
            lemma_word(z, out, "bool"@, p);
            reveal(sync);
        },
        TypeModel::I32 => {
            reveal(clear);
            lemma_type_words();
            lemma_word(z, out, "i32"@, p);
            reveal(sync);
        },
        TypeModel::I64 => {
            reveal(clear);
            lemma_type_words();
            lemma_word(z, out, "i64"@, p);
            reveal(sync);
        },
        TypeModel::F32 => {
            reveal(clear);
            lemma_type_words();
            lemma_word(z, out, "f32"@, p);
            reveal(sync);
        },
        TypeModel::F64 => {
            reveal(clear);
            lemma_type_words();
            lemma_word(z, out, "f64"@, p);
            reveal(sync);
        },
        TypeModel::Str => {
            reveal(clear);
            lemma_type_words();
            lemma_word(z, out, "str"@, p);
            reveal(sync);
        },
        TypeModel::Entity => {
            reveal(clear);
            lemma_type_words();
            lemma_word(z, out, "Entity"@, p);
            reveal(sync);
        },
        TypeModel::Query(x) => {
            let a = out + "Query<"@;
            let b = print::of_type(a, *x.it);
            lemma_leads();
            lemma_type_words();
            lemma_ext_type(a, *x.it);
            lemma_clear_close(z, b);
            lemma_write_open(z, out, "Query<"@, "Query"@, b, p);
            lemma_write_type(z, a, *x.it, p + 2);
            lemma_write_close(z, b, spelt_type(z.toks, p + 2, *x.it));
            reveal(sync);
        },
        TypeModel::Res(x) => {
            let a = out + "Res<"@;
            let b = print::of_type(a, *x.it);
            lemma_leads();
            lemma_type_words();
            lemma_ext_type(a, *x.it);
            lemma_clear_close(z, b);
            lemma_write_open(z, out, "Res<"@, "Res"@, b, p);
            lemma_write_type(z, a, *x.it, p + 2);
            lemma_write_close(z, b, spelt_type(z.toks, p + 2, *x.it));
            reveal(sync);
        },
        TypeModel::ResMut(x) => {
            let a = out + "ResMut<"@;
            let b = print::of_type(a, *x.it);
            lemma_leads();
            lemma_type_words();
            lemma_ext_type(a, *x.it);
            lemma_clear_close(z, b);
            lemma_write_open(z, out, "ResMut<"@, "ResMut"@, b, p);
            lemma_write_type(z, a, *x.it, p + 2);
            lemma_write_close(z, b, spelt_type(z.toks, p + 2, *x.it));
            reveal(sync);
        },
        TypeModel::Array(x) => {
            let a = out + "Array<"@;
            let b = print::of_type(a, *x.it);
            lemma_leads();
            lemma_type_words();
            lemma_ext_type(a, *x.it);
            lemma_clear_close(z, b);
            lemma_write_open(z, out, "Array<"@, "Array"@, b, p);
            lemma_write_type(z, a, *x.it, p + 2);
            lemma_write_close(z, b, spelt_type(z.toks, p + 2, *x.it));
            reveal(sync);
        },
        TypeModel::Dict(k, v) => {
            let a = out + "Map<"@;
            let b = print::of_type(a, *k.it);
            let c = b + ", "@;
            let d = print::of_type(c, *v.it);
            lemma_leads();
            lemma_type_words();
            lemma_literals();
            lemma_ext_type(a, *k.it);
            lemma_ext_type(c, *v.it);
            lemma_clear_close(z, d);
            lemma_begins(z, c, d);
            assert(c == print::separated(b, 2));
            lemma_clear_comma(z, b, 2);
            lemma_write_open(z, out, "Map<"@, "Map"@, b, p);
            lemma_write_type(z, a, *k.it, p + 2);
            let i = spelt_type(z.toks, p + 2, *k.it);
            lemma_write_comma(z, b, 2, i);
            lemma_write_type(z, c, *v.it, spelt_comma(z.toks, i, 2));
            lemma_write_close(z, d, spelt_type(z.toks, spelt_comma(z.toks, i, 2), *v.it));
            reveal(sync);
        },
        TypeModel::Fn(ps, x) => {
            let n = ps.len() as int;
            let a = out + "fn("@;
            let b = print::of_types(a, ps, n);
            let c = b + ") -> "@;
            lemma_leads();
            lemma_keywords();
            lemma_literals();
            lemma_ext_types(a, ps, n);
            lemma_ext_type(c, *x.it);
            lemma_begins(z, c, r);
            lemma_put(z, b, ") -> "@);
            reveal_strlit(") -> ");
            let q = at(b);
            assert(z.text[q + 0] == ')' && z.text[q + 1] == ' ' && z.text[q + 2] == '-' && z.text[q + 3] == '>' && z.text[q
                + 4] == ' ') by {
                assert(z.text[q + 0] == ") -> "@[0] && z.text[q + 1] == ") -> "@[1] && z.text[q + 2] == ") -> "@[2]);
                assert(z.text[q + 3] == ") -> "@[3] && z.text[q + 4] == ") -> "@[4]);
            }
            lemma_clear(z, q);
            lemma_begins(z, a, b);
            lemma_lead(z, out, "fn("@, "fn"@, TokenKind::KwFn, p);
            assert(z.text[at(out) + 2] == "fn("@[2]);
            lemma_solo(z, at(out) + 2, p + 1);
            lemma_write_types(z, a, ps, n, p + 2);
            let i = spelt_types(z.toks, p + 2, ps, n);
            lemma_solo(z, q, i);
            lemma_space(z, q + 1, i + 1);
            lemma_mark(z, q + 2, i + 1, TokenKind::Arrow, 2);
            lemma_space(z, q + 4, i + 2);
            lemma_write_type(z, c, *x.it, i + 2);
            reveal(sync);
        },
        TypeModel::Struct(n) => {
            reveal(clear);
            lemma_word(z, out, n, p);
            reveal(sync);
        },
        _ => {},
    }
}

#[verifier::spinoff_prover]
#[verifier::rlimit(40)]
proof fn lemma_write_types(z: Scene, out: Seq<char>, ts: Seq<TypeModel>, k: int, p: int)
    requires
        sync(z, at(out), p),
        begins(z, print::of_types(out, ts, k)),
        legible_types(ts, k),
        0 <= k <= ts.len(),
        k > 0 ==> clear(z, at(print::of_types(out, ts, k))),
    ensures
        spelt_types(z.toks, p, ts, k) >= 0,
        sync(z, at(print::of_types(out, ts, k)), spelt_types(z.toks, p, ts, k)),
    decreases ts, k,
{
    reveal(legible_types);
    reveal(legible_type);
    reveal(spelt_types);
    reveal(spelt_type);
    reveal(sync);
    lemma_goes();
    if k > 0 {
        let a = print::of_types(out, ts, k - 1);
        let b = print::separated(a, k);
        lemma_separated(a, k);
        lemma_ext_type(b, ts[k - 1]);
        lemma_begins(z, b, print::of_type(b, ts[k - 1]));
        if k > 1 {
            lemma_clear_comma(z, a, k);
        }
        lemma_begins(z, a, b);
        lemma_write_types(z, out, ts, k - 1, p);
        let i = spelt_types(z.toks, p, ts, k - 1);
        lemma_write_comma(z, a, k, i);
        let j = spelt_comma(z.toks, i, k);
        lemma_write_type(z, b, ts[k - 1], j);
    }
}

/// A colon and a space.
proof fn lemma_write_colon(z: Scene, out: Seq<char>, p: int)
    requires
        sync(z, at(out), p),
        begins(z, out + ": "@),
    ensures
        sync(z, at(out + ": "@), p + 1),
        spelt(z.toks, p, TokenKind::Colon) == p + 1,
{
    lemma_literals();
    lemma_put(z, out, ": "@);
    reveal_strlit(": ");
    assert(z.text[at(out) + 0] == ": "@[0] && z.text[at(out) + 1] == ": "@[1]);
    lemma_mark(z, at(out), p, TokenKind::Colon, 1);
    lemma_space(z, at(out) + 1, p + 1);
}

proof fn lemma_clear_colon(z: Scene, out: Seq<char>)
    requires
        begins(z, out + ": "@),
    ensures
        clear(z, at(out)),
        begins(z, out),
{
    lemma_literals();
    lemma_put(z, out, ": "@);
    reveal_strlit(": ");
    assert(z.text[at(out) + 0] == ": "@[0]);
    lemma_clear(z, at(out));
}

/// A name, and its annotation where it has one.
#[verifier::spinoff_prover]
proof fn lemma_write_named(z: Scene, out: Seq<char>, n: Seq<char>, t: TypeModel, p: int)
    requires
        sync(z, at(out), p),
        begins(z, noted(out + n, t)),
        word(n),
        legible_note(t),
        clear(z, at(noted(out + n, t))),
    ensures
        spelt_note(z.toks, spelt_name(z.toks, p, n), t) >= 0,
        sync(z, at(noted(out + n, t)), spelt_note(z.toks, spelt_name(z.toks, p, n), t)),
{
    lemma_literals();
    reveal(sync);
    if t is Unknown {
        reveal(clear);
        lemma_word(z, out, n, p);
    } else {
        let a = out + n;
        let b = a + ": "@;
        lemma_ext_type(b, t);
        lemma_begins(z, b, print::of_type(b, t));
        lemma_clear_colon(z, a);
        assert(clear(z, at(a)));
        reveal(clear);
        lemma_word_text(out, n);
        lemma_put(z, out, n);
        lemma_word(z, out, n, p);
        lemma_write_colon(z, a, p + 1);
        lemma_write_type(z, b, t, p + 2);
    }
}

/// A text, and an annotation where there is one.
spec fn noted(out: Seq<char>, t: TypeModel) -> Seq<char> {
    if t is Unknown {
        out
    } else {
        print::of_type(out + ": "@, t)
    }
}

proof fn lemma_ext_noted(out: Seq<char>, t: TypeModel)
    requires
        legible_note(t),
    ensures
        goes(out, noted(out, t)),
{
    lemma_goes();
    lemma_literals();
    if !(t is Unknown) {
        lemma_ext_type(out + ": "@, t);
    }
}

#[verifier::spinoff_prover]
#[verifier::rlimit(40)]
proof fn lemma_write_params(z: Scene, out: Seq<char>, ps: Seq<ParamModel>, k: int, p: int)
    requires
        sync(z, at(out), p),
        begins(z, print::of_params(out, ps, k)),
        legible_params(ps),
        0 <= k <= ps.len(),
        k > 0 ==> clear(z, at(print::of_params(out, ps, k))),
    ensures
        spelt_params(z.toks, p, ps, k) >= 0,
        sync(z, at(print::of_params(out, ps, k)), spelt_params(z.toks, p, ps, k)),
    decreases k,
{
    reveal(spelt_params);
    let x = ps[k - 1];
    reveal(sync);
    lemma_goes();
    if k > 0 {
        let a = print::of_params(out, ps, k - 1);
        let b = print::separated(a, k);
        lemma_separated(a, k);
        lemma_word_text(b, x.name);
        lemma_ext_noted(b + x.name, x.ty);
        assert(print::of_params(out, ps, k) == noted(b + x.name, x.ty));
        lemma_begins(z, b, noted(b + x.name, x.ty));
        if k > 1 {
            lemma_clear_comma(z, a, k);
        }
        lemma_begins(z, a, b);
        lemma_write_params(z, out, ps, k - 1, p);
        let i = spelt_params(z.toks, p, ps, k - 1);
        lemma_write_comma(z, a, k, i);
        let j = spelt_comma(z.toks, i, k);
        lemma_write_named(z, b, x.name, x.ty, j);
    }
}

// --- expressions -----------------------------------------------------------------------

/// Whether a character can stand behind a construct.
spec fn ender(c: char) -> bool {
    c == ' ' || c == '\n' || c == ')' || c == '(' || c == ']' || c == '[' || c == ',' || c == ';' || c == ':' || c == '>' || c == '|'
}

proof fn lemma_clear_put(z: Scene, out: Seq<char>, w: Seq<char>)
    requires
        begins(z, out + w),
        all_basic(w),
        w.len() > 0,
        ender(w[0]),
    ensures
        clear(z, at(out)),
        begins(z, out),
{
    lemma_put(z, out, w);
    assert(z.text[at(out) + 0] == w[0]);
    lemma_clear(z, at(out));
}

/// The marks and spaces between things.
proof fn lemma_marks()
    ensures
        "("@.len() == 1 && "("@[0] == '(' && solo('(') == Some(TokenKind::LParen),
        ")"@.len() == 1 && ")"@[0] == ')' && solo(')') == Some(TokenKind::RParen),
        "["@.len() == 1 && "["@[0] == '[' && solo('[') == Some(TokenKind::LBracket),
        "]"@.len() == 1 && "]"@[0] == ']' && solo(']') == Some(TokenKind::RBracket),
        "}"@.len() == 1 && "}"@[0] == '}' && solo('}') == Some(TokenKind::RBrace),
        ";"@.len() == 1 && ";"@[0] == ';' && solo(';') == Some(TokenKind::Semicolon),
        "."@.len() == 1 && "."@[0] == '.' && solo('.') == Some(TokenKind::Dot),
        " "@.len() == 1 && " "@[0] == ' ',
        "\n"@.len() == 1 && "\n"@[0] == '\n',
{
    reveal_strlit("(");
    reveal_strlit(")");
    reveal_strlit("[");
    reveal_strlit("]");
    reveal_strlit("}");
    reveal_strlit(";");
    reveal_strlit(".");
    reveal_strlit(" ");
    reveal_strlit("\n");
}

/// A space or a line break behind a text.
proof fn lemma_put_space(z: Scene, out: Seq<char>, w: Seq<char>, p: int)
    requires
        sync(z, at(out), p),
        begins(z, out + w),
        w.len() == 1,
        w[0] == ' ' || w[0] == '\n',
    ensures
        sync(z, at(out + w), p),
        z.text[at(out)] == w[0],
        begins(z, out),
{
    assert(all_basic(w)) by {
        reveal(all_basic);
    }
    lemma_put(z, out, w);
    assert(z.text[at(out) + 0] == w[0]);
    lemma_space(z, at(out), p);
}

/// An operator between spaces.
#[verifier::spinoff_prover]
#[verifier::rlimit(40)]
proof fn lemma_write_operator(z: Scene, out: Seq<char>, op: BinOp, p: int)
    requires
        sync(z, at(out), p),
        begins(z, out + " "@ + print::operator(op) + " "@),
    ensures
        sync(z, at(out + " "@ + print::operator(op) + " "@), p + 1),
        spelt(z.toks, p, operator_kind(op)) == p + 1,
        clear(z, at(out)),
        begins(z, out),
{
    lemma_literals();
    let w = print::operator(op);
    let a = out + " "@;
    let b = a + w;
    lemma_marks();
    lemma_put(z, b, " "@);
    lemma_put(z, a, w);
    lemma_clear_put(z, out, " "@);
    lemma_put_space(z, out, " "@, p);
    assert(z.text[at(b) + 0] == " "@[0]);
    reveal_strlit("+");
    reveal_strlit("-");
    reveal_strlit("*");
    reveal_strlit("/");
    reveal_strlit("%");
    reveal_strlit("==");
    reveal_strlit("!=");
    reveal_strlit("<");
    reveal_strlit("<=");
    reveal_strlit(">");
    reveal_strlit(">=");
    reveal_strlit("&&");
    reveal_strlit("||");
    assert(z.text[at(a) + 0] == w[0]);
    if w.len() == 2 {
        assert(z.text[at(a) + 1] == w[1]);
    }
    lemma_mark(z, at(a), p, operator_kind(op), w.len() as int);
    lemma_put_space(z, b, " "@, p + 1);
}

#[verifier::spinoff_prover]
proof fn lemma_write_operand(z: Scene, out: Seq<char>, e: ExprModel, wrap: bool, p: int)
    requires
        sync(z, at(out), p),
        begins(z, print::of_operand(out, e, wrap)),
        legible_expr(e),
        clear(z, at(print::of_operand(out, e, wrap))),
    ensures
        spelt_operand(z.toks, p, e, wrap) >= 0,
        sync(z, at(print::of_operand(out, e, wrap)), spelt_operand(z.toks, p, e, wrap)),
    decreases e, 2int,
{
    lemma_literals();
    reveal(spelt_operand);
    reveal(spelt_expr);
    if wrap {
        let a = out + "("@;
        let b = print::of_expr(a, e);
        lemma_marks();
        lemma_ext_expr(a, e);
        lemma_clear_put(z, b, ")"@);
        lemma_begins(z, a, b);
        lemma_put_solo(z, out, "("@, p);
        lemma_write_expr(z, a, e, p + 1);
        lemma_put_solo(z, b, ")"@, spelt_expr(z.toks, p + 1, e));
        reveal(sync);
    } else {
        lemma_write_expr(z, out, e, p);
    }
}

#[verifier::spinoff_prover]
#[verifier::rlimit(30)]
proof fn lemma_write_binary(z: Scene, out: Seq<char>, e: ExprModel, p: int)
    requires
        sync(z, at(out), p),
        begins(z, print::of_expr(out, e)),
        legible_expr(e),
        clear(z, at(print::of_expr(out, e))),
        e.kind is Binary,
    ensures
        spelt_expr(z.toks, p, e) >= 0,
        sync(z, at(print::of_expr(out, e)), spelt_expr(z.toks, p, e)),
    decreases e, 0int,
{
    reveal(legible_expr);
    reveal(spelt_expr);
    reveal(sync);
    lemma_goes();
    lemma_literals();
    lemma_marks();
    let r = print::of_expr(out, e);
    match e.kind {
        ExprKindModel::Binary(op, x, y) => {
            reveal(spelt_operand);
            let w = print::open_ended(*x.it);
            let a = out + "("@;
            let b = print::of_operand(a, *x.it, w);
            let c = b + " "@ + print::operator(op) + " "@;
            let d = print::of_expr(c, *y.it);
            lemma_ext_operand(a, *x.it, w);
            lemma_operator(op);
            lemma_ext_expr(c, *y.it);
            lemma_clear_put(z, d, ")"@);
            lemma_begins(z, c, d);
            lemma_begins(z, b, c);
            lemma_begins(z, a, b);
            lemma_begins(z, out, a);
            lemma_put_solo(z, out, "("@, p);
            lemma_begins(z, b + " "@, c);
            lemma_clear_put(z, b, " "@);
            lemma_write_operand(z, a, *x.it, w, p + 1);
            let i = spelt_operand(z.toks, p + 1, *x.it, w);
            lemma_write_operator(z, b, op, i);
            lemma_write_expr(z, c, *y.it, i + 1);
            lemma_put_solo(z, d, ")"@, spelt_expr(z.toks, i + 1, *y.it));
        },
        _ => {},
    }
}

#[verifier::spinoff_prover]
#[verifier::rlimit(30)]
proof fn lemma_write_unary(z: Scene, out: Seq<char>, e: ExprModel, p: int)
    requires
        sync(z, at(out), p),
        begins(z, print::of_expr(out, e)),
        legible_expr(e),
        clear(z, at(print::of_expr(out, e))),
        e.kind is Unary,
    ensures
        spelt_expr(z.toks, p, e) >= 0,
        sync(z, at(print::of_expr(out, e)), spelt_expr(z.toks, p, e)),
    decreases e, 0int,
{
    reveal(legible_expr);
    reveal(spelt_expr);
    reveal(sync);
    lemma_goes();
    lemma_literals();
    lemma_marks();
    let r = print::of_expr(out, e);
    match e.kind {
        ExprKindModel::Unary(op, x) => {
            let w = if op == UnOp::Neg {
                "-"@
            } else {
                "!"@
            };
            let k = if op == UnOp::Neg {
                TokenKind::Minus
            } else {
                TokenKind::Bang
            };
            let a = out + w;
            reveal_strlit("-");
            reveal_strlit("!");
            lemma_ext_expr(a, *x.it);
            lemma_begins(z, a, r);
            lemma_put(z, out, w);
            assert(z.text[at(out) + 0] == w[0]);
            lemma_next_char(z, a, r);
            lemma_mark(z, at(out), p, k, 1);
            lemma_write_expr(z, a, *x.it, p + 1);
        },
        _ => {},
    }
}

#[verifier::spinoff_prover]
#[verifier::rlimit(30)]
proof fn lemma_write_call(z: Scene, out: Seq<char>, e: ExprModel, p: int)
    requires
        sync(z, at(out), p),
        begins(z, print::of_expr(out, e)),
        legible_expr(e),
        clear(z, at(print::of_expr(out, e))),
        e.kind is Call,
    ensures
        spelt_expr(z.toks, p, e) >= 0,
        sync(z, at(print::of_expr(out, e)), spelt_expr(z.toks, p, e)),
    decreases e, 0int,
{
    reveal(legible_expr);
    reveal(spelt_expr);
    reveal(sync);
    lemma_goes();
    lemma_literals();
    lemma_marks();
    let r = print::of_expr(out, e);
    match e.kind {
        ExprKindModel::Call(c, args) => {
            reveal(spelt_operand);
            reveal(spelt_exprs);
            reveal(legible_exprs);
            let w = print::loose(*c.it);
            let n = args.len() as int;
            let a = print::of_operand(out, *c.it, w);
            let b = a + "("@;
            let d = print::of_exprs(b, args, n);
            lemma_ext_operand(out, *c.it, w);
            lemma_ext_exprs(b, args, n);
            lemma_clear_put(z, d, ")"@);
            lemma_begins(z, b, d);
            lemma_clear_put(z, a, "("@);
            lemma_write_operand(z, out, *c.it, w, p);
            let i = spelt_operand(z.toks, p, *c.it, w);
            lemma_put_solo(z, a, "("@, i);
            lemma_write_exprs(z, b, args, n, i + 1);
            lemma_put_solo(z, d, ")"@, spelt_exprs(z.toks, i + 1, args, n));
        },
        _ => {},
    }
}

#[verifier::spinoff_prover]
#[verifier::rlimit(30)]
proof fn lemma_write_field(z: Scene, out: Seq<char>, e: ExprModel, p: int)
    requires
        sync(z, at(out), p),
        begins(z, print::of_expr(out, e)),
        legible_expr(e),
        clear(z, at(print::of_expr(out, e))),
        e.kind is Field,
    ensures
        spelt_expr(z.toks, p, e) >= 0,
        sync(z, at(print::of_expr(out, e)), spelt_expr(z.toks, p, e)),
    decreases e, 0int,
{
    reveal(legible_expr);
    reveal(spelt_expr);
    reveal(sync);
    lemma_goes();
    lemma_literals();
    lemma_marks();
    let r = print::of_expr(out, e);
    match e.kind {
        ExprKindModel::Field(x, n) => {
            reveal(spelt_operand);
            let w = print::loose(*x.it);
            let a = print::of_operand(out, *x.it, w);
            let b = a + "."@;
            lemma_ext_operand(out, *x.it, w);
            lemma_word_text(b, n);
            lemma_put(z, b, n);
            lemma_put(z, a, "."@);
            assert(z.text[at(a) + 0] == "."@[0]);
            assert(z.text[at(b) + 0] == n[0]);
            assert(clear(z, at(a))) by {
                reveal(clear);
            }
            lemma_write_operand(z, out, *x.it, w, p);
            let i = spelt_operand(z.toks, p, *x.it, w);
            lemma_put_solo(z, a, "."@, i);
            assert(!lex::in_ident(z.text[at(r)] as u8) && at(r) < z.text.len()) by {
                reveal(clear);
            }
            lemma_word(z, b, n, i + 1);
        },
        _ => {},
    }
}

#[verifier::spinoff_prover]
#[verifier::rlimit(30)]
proof fn lemma_write_index(z: Scene, out: Seq<char>, e: ExprModel, p: int)
    requires
        sync(z, at(out), p),
        begins(z, print::of_expr(out, e)),
        legible_expr(e),
        clear(z, at(print::of_expr(out, e))),
        e.kind is Index,
    ensures
        spelt_expr(z.toks, p, e) >= 0,
        sync(z, at(print::of_expr(out, e)), spelt_expr(z.toks, p, e)),
    decreases e, 0int,
{
    reveal(legible_expr);
    reveal(spelt_expr);
    reveal(sync);
    lemma_goes();
    lemma_literals();
    lemma_marks();
    let r = print::of_expr(out, e);
    match e.kind {
        ExprKindModel::Index(x, y) => {
            reveal(spelt_operand);
            let w = print::loose(*x.it);
            let a = print::of_operand(out, *x.it, w);
            let b = a + "["@;
            let d = print::of_expr(b, *y.it);
            lemma_ext_operand(out, *x.it, w);
            lemma_ext_expr(b, *y.it);
            lemma_clear_put(z, d, "]"@);
            lemma_begins(z, b, d);
            lemma_clear_put(z, a, "["@);
            lemma_write_operand(z, out, *x.it, w, p);
            let i = spelt_operand(z.toks, p, *x.it, w);
            lemma_put_solo(z, a, "["@, i);
            lemma_write_expr(z, b, *y.it, i + 1);
            lemma_put_solo(z, d, "]"@, spelt_expr(z.toks, i + 1, *y.it));
        },
        _ => {},
    }
}

#[verifier::spinoff_prover]
#[verifier::rlimit(30)]
proof fn lemma_write_struct(z: Scene, out: Seq<char>, e: ExprModel, p: int)
    requires
        sync(z, at(out), p),
        begins(z, print::of_expr(out, e)),
        legible_expr(e),
        clear(z, at(print::of_expr(out, e))),
        e.kind is StructLit,
    ensures
        spelt_expr(z.toks, p, e) >= 0,
        sync(z, at(print::of_expr(out, e)), spelt_expr(z.toks, p, e)),
    decreases e, 0int,
{
    reveal(legible_expr);
    reveal(spelt_expr);
    reveal(sync);
    lemma_goes();
    lemma_literals();
    lemma_marks();
    let r = print::of_expr(out, e);
    match e.kind {
        ExprKindModel::StructLit(nm, fs) => {
            reveal(spelt_inits);
            reveal(legible_inits);
            let n = fs.len() as int;
            let a = out + nm;
            let b = a + " { "@;
            let d = print::of_inits(b, fs, n);
            lemma_word_text(out, nm);
            lemma_ext_inits(b, fs, n);
            lemma_put(z, d, " }"@);
            reveal_strlit(" }");
            reveal_strlit(" { ");
            assert(z.text[at(d) + 0] == ' ' && z.text[at(d) + 1] == '}') by {
                assert(z.text[at(d) + 0] == " }"@[0] && z.text[at(d) + 1] == " }"@[1]);
            }
            lemma_clear(z, at(d));
            lemma_begins(z, b, d);
            lemma_put(z, a, " { "@);
            let q = at(a);
            assert(z.text[q + 0] == ' ' && z.text[q + 1] == '{' && z.text[q + 2] == ' ') by {
                assert(z.text[q + 0] == " { "@[0] && z.text[q + 1] == " { "@[1] && z.text[q + 2] == " { "@[2]);
            }
            lemma_word(z, out, nm, p);
            lemma_space(z, q, p + 1);
            lemma_solo(z, q + 1, p + 1);
            lemma_space(z, q + 2, p + 2);
            lemma_write_inits(z, b, fs, n, p + 2);
            let i = spelt_inits(z.toks, p + 2, fs, n);
            lemma_space(z, at(d), i);
            lemma_solo(z, at(d) + 1, i);
        },
        _ => {},
    }
}

#[verifier::spinoff_prover]
#[verifier::rlimit(30)]
proof fn lemma_write_array(z: Scene, out: Seq<char>, e: ExprModel, p: int)
    requires
        sync(z, at(out), p),
        begins(z, print::of_expr(out, e)),
        legible_expr(e),
        clear(z, at(print::of_expr(out, e))),
        e.kind is ArrayLit,
    ensures
        spelt_expr(z.toks, p, e) >= 0,
        sync(z, at(print::of_expr(out, e)), spelt_expr(z.toks, p, e)),
    decreases e, 0int,
{
    reveal(legible_expr);
    reveal(spelt_expr);
    reveal(sync);
    lemma_goes();
    lemma_literals();
    lemma_marks();
    let r = print::of_expr(out, e);
    match e.kind {
        ExprKindModel::ArrayLit(es) => {
            reveal(spelt_exprs);
            reveal(legible_exprs);
            let n = es.len() as int;
            let b = out + "["@;
            let d = print::of_exprs(b, es, n);
            lemma_ext_exprs(b, es, n);
            lemma_clear_put(z, d, "]"@);
            lemma_begins(z, b, d);
            lemma_put_solo(z, out, "["@, p);
            lemma_write_exprs(z, b, es, n, p + 1);
            lemma_put_solo(z, d, "]"@, spelt_exprs(z.toks, p + 1, es, n));
        },
        _ => {},
    }
}

#[verifier::spinoff_prover]
#[verifier::rlimit(30)]
proof fn lemma_write_map(z: Scene, out: Seq<char>, e: ExprModel, p: int)
    requires
        sync(z, at(out), p),
        begins(z, print::of_expr(out, e)),
        legible_expr(e),
        clear(z, at(print::of_expr(out, e))),
        e.kind is MapLit,
    ensures
        spelt_expr(z.toks, p, e) >= 0,
        sync(z, at(print::of_expr(out, e)), spelt_expr(z.toks, p, e)),
    decreases e, 0int,
{
    reveal(legible_expr);
    reveal(spelt_expr);
    reveal(sync);
    lemma_goes();
    lemma_literals();
    lemma_marks();
    let r = print::of_expr(out, e);
    match e.kind {
        ExprKindModel::MapLit(ps) => {
            reveal(spelt_pairs);
            reveal(legible_pairs);
            let n = ps.len() as int;
            if n == 0 {
                let b = out + "[:"@;
                assert(print::of_pairs(b, ps, 0) == b);
                lemma_put(z, b, "]"@);
                lemma_put(z, out, "[:"@);
                reveal_strlit("[:");
                let q = at(out);
                assert(z.text[q + 0] == '[' && z.text[q + 1] == ':') by {
                    assert(z.text[q + 0] == "[:"@[0] && z.text[q + 1] == "[:"@[1]);
                }
                assert(z.text[at(b) + 0] == "]"@[0]);
                lemma_solo(z, q, p);
                lemma_mark(z, q + 1, p + 1, TokenKind::Colon, 1);
                lemma_put_solo(z, b, "]"@, p + 2);
            } else {
                let b = out + "["@;
                let d = print::of_pairs(b, ps, n);
                lemma_ext_pairs(b, ps, n);
                lemma_clear_put(z, d, "]"@);
                lemma_begins(z, b, d);
                lemma_put_solo(z, out, "["@, p);
                lemma_write_pairs(z, b, ps, n, p + 1);
                lemma_put_solo(z, d, "]"@, spelt_pairs(z.toks, p + 1, ps, n));
            }
        },
        _ => {},
    }
}

#[verifier::spinoff_prover]
#[verifier::rlimit(30)]
proof fn lemma_write_closure(z: Scene, out: Seq<char>, e: ExprModel, p: int)
    requires
        sync(z, at(out), p),
        begins(z, print::of_expr(out, e)),
        legible_expr(e),
        clear(z, at(print::of_expr(out, e))),
        e.kind is Closure,
    ensures
        spelt_expr(z.toks, p, e) >= 0,
        sync(z, at(print::of_expr(out, e)), spelt_expr(z.toks, p, e)),
    decreases e, 0int,
{
    reveal(legible_expr);
    reveal(spelt_expr);
    reveal(sync);
    lemma_goes();
    lemma_literals();
    lemma_marks();
    let r = print::of_expr(out, e);
    match e.kind {
        ExprKindModel::Closure(ps, y) => {
            let n = ps.len() as int;
            let a = out + "|"@;
            let b = print::of_params(a, ps, n);
            let w = if n == 0 {
                " | "@
            } else {
                "| "@
            };
            let c = b + w;
            reveal_strlit("|");
            reveal_strlit("| ");
            reveal_strlit(" | ");
            lemma_ext_params(a, ps, n);
            lemma_ext_expr(c, *y.it);
            lemma_begins(z, c, r);
            lemma_clear_put(z, b, w);
            lemma_put(z, b, w);
            lemma_begins(z, a, b);
            lemma_put(z, out, "|"@);
            let q = at(out);
            let m = at(b);
            assert(z.text[q + 0] == "|"@[0]);
            assert(z.text[m + 0] == w[0] && z.text[m + 1] == w[1]);
            if n == 0 {
                assert(b == a);
                assert(z.text[m + 2] == w[2]);
                lemma_mark(z, q, p, TokenKind::Pipe, 1);
                assert(spelt_params(z.toks, p + 1, ps, 0) == p + 1) by {
                    reveal(spelt_params);
                }
                lemma_space(z, m, p + 1);
                lemma_mark(z, m + 1, p + 1, TokenKind::Pipe, 1);
                lemma_space(z, m + 2, p + 2);
                lemma_write_expr(z, c, *y.it, p + 2);
            } else {
                lemma_params_first(z, a, ps);
                lemma_mark(z, q, p, TokenKind::Pipe, 1);
                lemma_write_params(z, a, ps, n, p + 1);
                let i = spelt_params(z.toks, p + 1, ps, n);
                lemma_mark(z, m, i, TokenKind::Pipe, 1);
                lemma_space(z, m + 1, i + 1);
                lemma_write_expr(z, c, *y.it, i + 1);
            }
        },
        _ => {},
    }
}

/// The parameters start with the name of the first.
proof fn lemma_params_first(z: Scene, out: Seq<char>, ps: Seq<ParamModel>)
    requires
        begins(z, print::of_params(out, ps, ps.len() as int)),
        legible_params(ps),
        ps.len() > 0,
    ensures
        at(out) < z.text.len(),
        lex::starts_ident(z.text[at(out)] as u8),
        basic(z.text[at(out)]),
{
    lemma_literals();
    let n = ps[0].name;
    let a = out + n;
    lemma_goes();
    lemma_word_text(out, n);
    lemma_ext_noted(a, ps[0].ty);
    lemma_ext_params_on(out, ps, 1, ps.len() as int);
    assert(print::of_params(out, ps, 0) == out);
    assert(print::of_params(out, ps, 1) == noted(a, ps[0].ty));
    lemma_begins(z, a, print::of_params(out, ps, ps.len() as int));
    lemma_word_text(out, n);
    lemma_put(z, out, n);
    assert(z.text[at(out) + 0] == n[0]);
}

proof fn lemma_ext_params_on(out: Seq<char>, ps: Seq<ParamModel>, k: int, n: int)
    requires
        legible_params(ps),
        0 <= k <= n <= ps.len(),
    ensures
        goes(print::of_params(out, ps, k), print::of_params(out, ps, n)),
    decreases n - k,
{
    lemma_goes();
    if k < n {
        lemma_ext_params_on(out, ps, k, n - 1);
        let a = print::of_params(out, ps, n - 1);
        let b = print::separated(a, n);
        let x = ps[n - 1];
        lemma_separated(a, n);
        lemma_word_text(b, x.name);
        lemma_ext_noted(b + x.name, x.ty);
        assert(print::of_params(out, ps, n) == noted(b + x.name, x.ty));
    }
}

#[verifier::spinoff_prover]
#[verifier::rlimit(30)]
proof fn lemma_write_if(z: Scene, out: Seq<char>, e: ExprModel, p: int)
    requires
        sync(z, at(out), p),
        begins(z, print::of_expr(out, e)),
        legible_expr(e),
        clear(z, at(print::of_expr(out, e))),
        e.kind is If,
    ensures
        spelt_expr(z.toks, p, e) >= 0,
        sync(z, at(print::of_expr(out, e)), spelt_expr(z.toks, p, e)),
    decreases e, 0int,
{
    reveal(legible_expr);
    reveal(spelt_expr);
    reveal(sync);
    lemma_goes();
    lemma_literals();
    lemma_marks();
    let r = print::of_expr(out, e);
    match e.kind {
        ExprKindModel::If(c, yes, no) => {
            reveal(spelt_operand);
            reveal(spelt_block);
            reveal(legible_block);
            lemma_leads();
            lemma_keywords();
            let w = print::ends_in_type_name(*c.it);
            let a = out + "if "@;
            let b = print::of_operand(a, *c.it, w);
            let d = b + " "@;
            let f = print::of_block(d, *yes.it);
            lemma_ext_operand(a, *c.it, w);
            lemma_ext_block(d, *yes.it);
            if let Some(x) = no {
                lemma_ext_block(f + " else "@, *x.it);
                lemma_begins(z, f + " else "@, r);
                lemma_begins(z, f, r);
            }
            lemma_begins(z, d, f);
            lemma_clear_put(z, b, " "@);
            lemma_begins(z, a, b);
            lemma_lead(z, out, "if "@, "if"@, TokenKind::KwIf, p);
            assert(z.text[at(out) + 2] == "if "@[2]);
            lemma_space(z, at(out) + 2, p + 1);
            lemma_write_operand(z, a, *c.it, w, p + 1);
            let i = spelt_operand(z.toks, p + 1, *c.it, w);
            lemma_put_space(z, b, " "@, i);
            lemma_write_block(z, d, *yes.it, i);
            if let Some(x) = no {
                let j = spelt_block(z.toks, i, *yes.it);
                lemma_write_else(z, f, j);
                lemma_write_block(z, f + " else "@, *x.it, j + 1);
            }
        },
        _ => {},
    }
}

/// `else` between spaces.
proof fn lemma_write_else(z: Scene, out: Seq<char>, p: int)
    requires
        sync(z, at(out), p),
        begins(z, out + " else "@),
    ensures
        sync(z, at(out + " else "@), p + 1),
        spelt(z.toks, p, TokenKind::KwElse) == p + 1,
{
    lemma_literals();
    lemma_marks();
    lemma_keywords();
    let a = out + " "@;
    reveal_strlit(" else ");
    reveal_strlit("else ");
    reveal_strlit("else");
    assert(out + " else "@ =~= a + "else "@);
    assert("else "@.take(4) =~= "else"@);
    lemma_put(z, a, "else "@);
    lemma_put_space(z, out, " "@, p);
    lemma_lead(z, a, "else "@, "else"@, TokenKind::KwElse, p);
    assert(z.text[at(a) + 4] == "else "@[4]);
    lemma_space(z, at(a) + 4, p + 1);
}

#[verifier::spinoff_prover]
proof fn lemma_write_expr(z: Scene, out: Seq<char>, e: ExprModel, p: int)
    requires
        sync(z, at(out), p),
        begins(z, print::of_expr(out, e)),
        legible_expr(e),
        clear(z, at(print::of_expr(out, e))),
    ensures
        spelt_expr(z.toks, p, e) >= 0,
        sync(z, at(print::of_expr(out, e)), spelt_expr(z.toks, p, e)),
    decreases e, 1int,
{
    match e.kind {
        ExprKindModel::Lit(l) => {
            reveal(legible_expr);
            reveal(spelt_expr);
            reveal(sync);
            lemma_write_lit(z, out, l, p);
        },
        ExprKindModel::Ident(n) => {
            reveal(legible_expr);
            reveal(spelt_expr);
            reveal(sync);
            reveal(clear);
            lemma_word(z, out, n, p);
        },
        ExprKindModel::Binary(..) => {
            lemma_write_binary(z, out, e, p);
        },
        ExprKindModel::Unary(..) => {
            lemma_write_unary(z, out, e, p);
        },
        ExprKindModel::Call(..) => {
            lemma_write_call(z, out, e, p);
        },
        ExprKindModel::Field(..) => {
            lemma_write_field(z, out, e, p);
        },
        ExprKindModel::Index(..) => {
            lemma_write_index(z, out, e, p);
        },
        ExprKindModel::StructLit(..) => {
            lemma_write_struct(z, out, e, p);
        },
        ExprKindModel::ArrayLit(..) => {
            lemma_write_array(z, out, e, p);
        },
        ExprKindModel::MapLit(..) => {
            lemma_write_map(z, out, e, p);
        },
        ExprKindModel::Closure(..) => {
            lemma_write_closure(z, out, e, p);
        },
        ExprKindModel::Block(b) => {
            reveal(legible_expr);
            reveal(legible_block);
            reveal(spelt_expr);
            reveal(spelt_block);
            lemma_write_block(z, out, *b.it, p);
        },
        ExprKindModel::If(..) => {
            lemma_write_if(z, out, e, p);
        },
    }
}

#[verifier::spinoff_prover]
#[verifier::rlimit(40)]
proof fn lemma_write_exprs(z: Scene, out: Seq<char>, es: Seq<ExprModel>, k: int, p: int)
    requires
        sync(z, at(out), p),
        begins(z, print::of_exprs(out, es, k)),
        legible_exprs(es, k),
        0 <= k <= es.len(),
        k > 0 ==> clear(z, at(print::of_exprs(out, es, k))),
    ensures
        spelt_exprs(z.toks, p, es, k) >= 0,
        sync(z, at(print::of_exprs(out, es, k)), spelt_exprs(z.toks, p, es, k)),
    decreases es, k,
{
    reveal(legible_exprs);
    reveal(legible_expr);
    reveal(spelt_exprs);
    reveal(spelt_expr);
    reveal(sync);
    lemma_goes();
    if k > 0 {
        let a = print::of_exprs(out, es, k - 1);
        let b = print::separated(a, k);
        lemma_separated(a, k);
        lemma_ext_expr(b, es[k - 1]);
        lemma_begins(z, b, print::of_expr(b, es[k - 1]));
        if k > 1 {
            lemma_clear_comma(z, a, k);
        }
        lemma_begins(z, a, b);
        lemma_write_exprs(z, out, es, k - 1, p);
        let i = spelt_exprs(z.toks, p, es, k - 1);
        lemma_write_comma(z, a, k, i);
        let j = spelt_comma(z.toks, i, k);
        lemma_write_expr(z, b, es[k - 1], j);
    }
}

#[verifier::spinoff_prover]
#[verifier::rlimit(40)]
proof fn lemma_write_inits(z: Scene, out: Seq<char>, fs: Seq<(Seq<char>, ExprModel)>, k: int, p: int)
    requires
        sync(z, at(out), p),
        begins(z, print::of_inits(out, fs, k)),
        legible_inits(fs, k),
        0 <= k <= fs.len(),
        k > 0 ==> clear(z, at(print::of_inits(out, fs, k))),
    ensures
        spelt_inits(z.toks, p, fs, k) >= 0,
        sync(z, at(print::of_inits(out, fs, k)), spelt_inits(z.toks, p, fs, k)),
    decreases fs, k,
{
    reveal(legible_inits);
    reveal(legible_expr);
    reveal(spelt_inits);
    reveal(spelt_expr);
    lemma_literals();
    reveal(sync);
    lemma_goes();
    if k > 0 {
        let a = print::of_inits(out, fs, k - 1);
        let b = print::separated(a, k);
        lemma_separated(a, k);
        let n = fs[k - 1].0;
        let y = fs[k - 1].1;
        assert(decreases_to!(fs => fs[k - 1]));
        assert(decreases_to!(fs[k - 1] => fs[k - 1].1));
        let c = b + n;
        let d = c + ": "@;
        lemma_word_text(b, n);
        lemma_ext_expr(d, y);
        lemma_begins(z, d, print::of_expr(d, y));
        lemma_clear_colon(z, c);
        lemma_begins(z, b, c);
        if k > 1 {
            lemma_clear_comma(z, a, k);
        }
        lemma_begins(z, a, b);
        lemma_write_inits(z, out, fs, k - 1, p);
        let i = spelt_inits(z.toks, p, fs, k - 1);
        lemma_write_comma(z, a, k, i);
        let j = spelt_comma(z.toks, i, k);
        assert(!lex::in_ident(z.text[at(c)] as u8) && at(c) < z.text.len()) by {
            reveal(clear);
        }
        lemma_word(z, b, n, j);
        lemma_write_colon(z, c, j + 1);
        lemma_write_expr(z, d, y, j + 2);
    }
}

#[verifier::spinoff_prover]
#[verifier::rlimit(40)]
proof fn lemma_write_pairs(z: Scene, out: Seq<char>, ps: Seq<(ExprModel, ExprModel)>, k: int, p: int)
    requires
        sync(z, at(out), p),
        begins(z, print::of_pairs(out, ps, k)),
        legible_pairs(ps, k),
        0 <= k <= ps.len(),
        k > 0 ==> clear(z, at(print::of_pairs(out, ps, k))),
    ensures
        spelt_pairs(z.toks, p, ps, k) >= 0,
        sync(z, at(print::of_pairs(out, ps, k)), spelt_pairs(z.toks, p, ps, k)),
    decreases ps, k,
{
    reveal(legible_pairs);
    reveal(legible_expr);
    reveal(spelt_pairs);
    reveal(spelt_expr);
    lemma_literals();
    reveal(sync);
    lemma_goes();
    if k > 0 {
        let a = print::of_pairs(out, ps, k - 1);
        let b = print::separated(a, k);
        lemma_separated(a, k);
        let x = ps[k - 1].0;
        let y = ps[k - 1].1;
        assert(decreases_to!(ps => ps[k - 1]));
        assert(decreases_to!(ps[k - 1] => ps[k - 1].0));
        assert(decreases_to!(ps[k - 1] => ps[k - 1].1));
        let c = print::of_expr(b, x);
        let d = c + " => "@;
        lemma_ext_expr(b, x);
        lemma_ext_expr(d, y);
        lemma_begins(z, d, print::of_expr(d, y));
        lemma_put(z, c, " => "@);
        reveal_strlit(" => ");
        let m = at(c);
        assert(z.text[m + 0] == ' ' && z.text[m + 1] == '=' && z.text[m + 2] == '>' && z.text[m + 3] == ' ') by {
            assert(z.text[m + 0] == " => "@[0] && z.text[m + 1] == " => "@[1] && z.text[m + 2] == " => "@[2]);
            assert(z.text[m + 3] == " => "@[3]);
        }
        lemma_clear(z, m);
        lemma_begins(z, b, c);
        if k > 1 {
            lemma_clear_comma(z, a, k);
        }
        lemma_begins(z, a, b);
        lemma_write_pairs(z, out, ps, k - 1, p);
        let i = spelt_pairs(z.toks, p, ps, k - 1);
        lemma_write_comma(z, a, k, i);
        let j = spelt_comma(z.toks, i, k);
        lemma_write_expr(z, b, x, j);
        let v = spelt_expr(z.toks, j, x);
        lemma_space(z, m, v);
        lemma_mark(z, m + 1, v, TokenKind::FatArrow, 2);
        lemma_space(z, m + 3, v + 1);
        lemma_write_expr(z, d, y, v + 1);
    }
}

// --- statements ------------------------------------------------------------------------

/// Four spaces.
proof fn lemma_indent(z: Scene, out: Seq<char>, p: int)
    requires
        sync(z, at(out), p),
        begins(z, out + "    "@),
    ensures
        sync(z, at(out + "    "@), p),
        begins(z, out),
{
    lemma_literals();
    lemma_put(z, out, "    "@);
    reveal_strlit("    ");
    let q = at(out);
    assert(z.text[q + 0] == "    "@[0] && z.text[q + 1] == "    "@[1] && z.text[q + 2] == "    "@[2] && z.text[q + 3]
        == "    "@[3]);
    lemma_space(z, q, p);
    lemma_space(z, q + 1, p);
    lemma_space(z, q + 2, p);
    lemma_space(z, q + 3, p);
}

#[verifier::spinoff_prover]
#[verifier::rlimit(40)]
proof fn lemma_write_block(z: Scene, out: Seq<char>, b: BlockModel, p: int)
    requires
        sync(z, at(out), p),
        begins(z, print::of_block(out, b)),
        legible_block(b),
    ensures
        spelt_block(z.toks, p, b) >= 0,
        sync(z, at(print::of_block(out, b)), spelt_block(z.toks, p, b)),
    decreases b, 0int,
{
    reveal(legible_block);
    reveal(legible_stmts);
    reveal(legible_expr);
    reveal(spelt_block);
    reveal(spelt_stmts);
    reveal(spelt_expr);
    reveal(sync);
    lemma_goes();
    lemma_literals();
    lemma_marks();
    let n = b.stmts.len() as int;
    let a = out + "{\n"@;
    let c = print::of_stmts(a, b.stmts, n);
    lemma_ext_stmts(a, b.stmts, n);
    if let Some(t) = b.tail {
        let d = c + "    "@;
        let f = print::of_expr(d, t);
        lemma_ext_expr(d, t);
        lemma_put(z, f + "\n"@, "}"@);
        lemma_clear_put(z, f, "\n"@);
        lemma_begins(z, d, f);
        lemma_put(z, c, "    "@);
    } else {
        lemma_put(z, c, "}"@);
    }
    lemma_begins(z, a, c);
    lemma_put(z, out, "{\n"@);
    reveal_strlit("{\n");
    let q = at(out);
    assert(z.text[q + 0] == "{\n"@[0] && z.text[q + 1] == "{\n"@[1]);
    lemma_solo(z, q, p);
    lemma_space(z, q + 1, p + 1);
    lemma_write_stmts(z, a, b.stmts, n, p + 1);
    let i = spelt_stmts(z.toks, p + 1, b.stmts, n);
    if let Some(t) = b.tail {
        let d = c + "    "@;
        let f = print::of_expr(d, t);
        lemma_indent(z, c, i);
        lemma_write_expr(z, d, t, i);
        let j = spelt_expr(z.toks, i, t);
        lemma_put_space(z, f, "\n"@, j);
        lemma_put_solo(z, f + "\n"@, "}"@, j);
    } else {
        lemma_put_solo(z, c, "}"@, i);
    }
}

#[verifier::spinoff_prover]
proof fn lemma_write_stmts(z: Scene, out: Seq<char>, ss: Seq<StmtModel>, k: int, p: int)
    requires
        sync(z, at(out), p),
        begins(z, print::of_stmts(out, ss, k)),
        legible_stmts(ss, k),
        0 <= k <= ss.len(),
    ensures
        spelt_stmts(z.toks, p, ss, k) >= 0,
        sync(z, at(print::of_stmts(out, ss, k)), spelt_stmts(z.toks, p, ss, k)),
    decreases ss, k,
{
    lemma_literals();
    reveal(legible_stmts);
    reveal(legible_stmt);
    reveal(spelt_stmts);
    reveal(spelt_stmt);
    reveal(sync);
    lemma_goes();
    lemma_marks();
    if k > 0 {
        let a = print::of_stmts(out, ss, k - 1);
        let b = a + "    "@;
        let c = print::of_stmt(b, ss[k - 1]);
        lemma_ext_stmt(b, ss[k - 1]);
        lemma_put(z, c, "\n"@);
        lemma_begins(z, b, c);
        lemma_put(z, a, "    "@);
        lemma_write_stmts(z, out, ss, k - 1, p);
        let i = spelt_stmts(z.toks, p, ss, k - 1);
        lemma_indent(z, a, i);
        lemma_write_stmt(z, b, ss[k - 1], i);
        lemma_put_space(z, c, "\n"@, spelt_stmt(z.toks, i, ss[k - 1]));
    }
}

/// ` = `
proof fn lemma_write_assign(z: Scene, out: Seq<char>, p: int)
    requires
        sync(z, at(out), p),
        begins(z, out + " = "@),
    ensures
        sync(z, at(out + " = "@), p + 1),
        spelt(z.toks, p, TokenKind::Assign) == p + 1,
{
    lemma_literals();
    lemma_put(z, out, " = "@);
    reveal_strlit(" = ");
    let q = at(out);
    assert(z.text[q + 0] == " = "@[0] && z.text[q + 1] == " = "@[1] && z.text[q + 2] == " = "@[2]);
    lemma_space(z, q, p);
    lemma_mark(z, q + 1, p, TokenKind::Assign, 1);
    lemma_space(z, q + 2, p + 1);
}

proof fn lemma_clear_assign(z: Scene, out: Seq<char>)
    requires
        begins(z, out + " = "@),
    ensures
        clear(z, at(out)),
        begins(z, out),
{
    lemma_literals();
    reveal_strlit(" = ");
    lemma_clear_put(z, out, " = "@);
}

/// ` = e;`
#[verifier::spinoff_prover]
proof fn lemma_write_init(z: Scene, out: Seq<char>, e: ExprModel, p: int)
    requires
        sync(z, at(out), p),
        begins(z, print::of_expr(out + " = "@, e) + ";"@),
        legible_expr(e),
    ensures
        ({
            let j = spelt(z.toks, spelt_expr(z.toks, spelt(z.toks, p, TokenKind::Assign), e), TokenKind::Semicolon);
            j >= 0 && sync(z, at(print::of_expr(out + " = "@, e) + ";"@), j)
        }),
        spelt(z.toks, p, TokenKind::Assign) == p + 1,
    decreases e, 2int,
{
    lemma_literals();
    reveal(sync);
    lemma_marks();
    let a = out + " = "@;
    let b = print::of_expr(a, e);
    lemma_ext_expr(a, e);
    lemma_clear_put(z, b, ";"@);
    lemma_begins(z, a, b);
    lemma_write_assign(z, out, p);
    lemma_write_expr(z, a, e, p + 1);
    lemma_put_solo(z, b, ";"@, spelt_expr(z.toks, p + 1, e));
}

/// A `let`, up to where its name starts.
#[verifier::spinoff_prover]
proof fn lemma_write_let(z: Scene, out: Seq<char>, mutable: bool, p: int)
    requires
        sync(z, at(out), p),
        begins(z, let_start(out, mutable)),
    ensures
        ({
            let a = spelt(z.toks, p, TokenKind::KwLet);
            let b = if mutable {
                spelt(z.toks, a, TokenKind::KwMut)
            } else {
                a
            };
            b >= 0 && sync(z, at(let_start(out, mutable)), b)
        }),
{
    lemma_literals();
    reveal(sync);
    lemma_leads();
    lemma_keywords();
    let a = out + "let "@;
    reveal_strlit("");
    lemma_put(
        z,
        a,
        if mutable {
            "mut "@
        } else {
            ""@
        },
    );
    lemma_lead(z, out, "let "@, "let"@, TokenKind::KwLet, p);
    assert(z.text[at(out) + 3] == "let "@[3]);
    lemma_space(z, at(out) + 3, p + 1);
    if mutable {
        lemma_lead(z, a, "mut "@, "mut"@, TokenKind::KwMut, p + 1);
        assert(z.text[at(a) + 3] == "mut "@[3]);
        lemma_space(z, at(a) + 3, p + 2);
    }
}

spec fn let_start(out: Seq<char>, mutable: bool) -> Seq<char> {
    out + "let "@ + (if mutable {
        "mut "@
    } else {
        ""@
    })
}

#[verifier::spinoff_prover]
#[verifier::rlimit(60)]
proof fn lemma_write_stmt(z: Scene, out: Seq<char>, st: StmtModel, p: int)
    requires
        sync(z, at(out), p),
        begins(z, print::of_stmt(out, st)),
        legible_stmt(st),
    ensures
        spelt_stmt(z.toks, p, st) >= 0,
        sync(z, at(print::of_stmt(out, st)), spelt_stmt(z.toks, p, st)),
    decreases st, 0int,
{
    reveal(legible_stmt);
    reveal(spelt_stmt);
    reveal(sync);
    lemma_goes();
    lemma_literals();
    lemma_marks();
    lemma_leads();
    let r = print::of_stmt(out, st);
    match st.kind {
        StmtKindModel::Let { name, ty, mutable, init } => {
            reveal(spelt_expr);
            reveal(legible_expr);
            let h = let_start(out, mutable);
            let a = h + name;
            let b = noted(a, ty);
            assert(r == print::of_expr(b + " = "@, init) + ";"@);
            lemma_ext_expr(b + " = "@, init);
            lemma_word_text(h, name);
            lemma_ext_noted(a, ty);
            lemma_put(z, print::of_expr(b + " = "@, init), ";"@);
            lemma_begins(z, b + " = "@, print::of_expr(b + " = "@, init));
            lemma_clear_assign(z, b);
            lemma_begins(z, h, b);
            lemma_write_let(z, out, mutable, p);
            let i = if mutable {
                p + 2
            } else {
                p + 1
            };
            lemma_write_named(z, h, name, ty, i);
            lemma_write_init(z, b, init, spelt_note(z.toks, spelt_name(z.toks, i, name), ty));
        },
        StmtKindModel::Assign(x, v) => {
            reveal(spelt_expr);
            reveal(legible_expr);
            let b = print::of_expr(out, x);
            lemma_ext_expr(out, x);
            lemma_ext_expr(b + " = "@, v);
            lemma_put(z, print::of_expr(b + " = "@, v), ";"@);
            lemma_begins(z, b + " = "@, print::of_expr(b + " = "@, v));
            lemma_clear_assign(z, b);
            lemma_write_expr(z, out, x, p);
            lemma_write_init(z, b, v, spelt_expr(z.toks, p, x));
        },
        StmtKindModel::Expr(e) => {
            reveal(spelt_expr);
            reveal(legible_expr);
            let b = print::of_expr(out, e);
            lemma_clear_put(z, b, ";"@);
            lemma_write_expr(z, out, e, p);
            lemma_put_solo(z, b, ";"@, spelt_expr(z.toks, p, e));
        },
        StmtKindModel::Return(Some(v)) => {
            reveal(spelt_expr);
            reveal(legible_expr);
            lemma_keywords();
            let a = out + "return"@;
            let b = a + " "@;
            let c = print::of_expr(b, v);
            lemma_ext_expr(b, v);
            lemma_clear_put(z, c, ";"@);
            lemma_begins(z, b, c);
            lemma_put(z, a, " "@);
            assert(z.text[at(a) + 0] == " "@[0]);
            lemma_put(z, out, "return"@);
            lemma_keyword(z, out, "return"@, TokenKind::KwReturn, p);
            lemma_put_space(z, a, " "@, p + 1);
            lemma_write_expr(z, b, v, p + 1);
            lemma_put_solo(z, c, ";"@, spelt_expr(z.toks, p + 1, v));
        },
        StmtKindModel::Return(None) => {
            lemma_keywords();
            let a = out + "return"@;
            lemma_put(z, a, ";"@);
            assert(z.text[at(a) + 0] == ";"@[0]);
            lemma_put(z, out, "return"@);
            lemma_keyword(z, out, "return"@, TokenKind::KwReturn, p);
            lemma_put_solo(z, a, ";"@, p + 1);
        },
        StmtKindModel::While(c, b) => {
            reveal(spelt_operand);
            reveal(spelt_block);
            reveal(legible_expr);
            reveal(legible_block);
            lemma_keywords();
            let w = print::ends_in_type_name(c);
            let a = out + "while "@;
            let d = print::of_operand(a, c, w);
            lemma_ext_operand(a, c, w);
            lemma_ext_block(d + " "@, *b.it);
            lemma_begins(z, d + " "@, r);
            lemma_clear_put(z, d, " "@);
            lemma_begins(z, a, d);
            lemma_lead(z, out, "while "@, "while"@, TokenKind::KwWhile, p);
            assert(z.text[at(out) + 5] == "while "@[5]);
            lemma_space(z, at(out) + 5, p + 1);
            assert(decreases_to!(st => c));
            lemma_write_operand(z, a, c, w, p + 1);
            let i = spelt_operand(z.toks, p + 1, c, w);
            lemma_put_space(z, d, " "@, i);
            lemma_write_block(z, d + " "@, *b.it, i);
        },
        StmtKindModel::Break => {
            lemma_keywords();
            lemma_lead(z, out, "break;"@, "break"@, TokenKind::KwBreak, p);
            assert(z.text[at(out) + 5] == "break;"@[5]);
            lemma_solo(z, at(out) + 5, p + 1);
        },
        StmtKindModel::Continue => {
            lemma_keywords();
            lemma_lead(z, out, "continue;"@, "continue"@, TokenKind::KwContinue, p);
            assert(z.text[at(out) + 8] == "continue;"@[8]);
            lemma_solo(z, at(out) + 8, p + 1);
        },
        _ => {},
    }
}

// --- declarations ----------------------------------------------------------------------

#[verifier::spinoff_prover]
#[verifier::rlimit(40)]
proof fn lemma_write_fields(z: Scene, out: Seq<char>, fs: Seq<(Seq<char>, TypeModel, Span)>, k: int, p: int)
    requires
        sync(z, at(out), p),
        begins(z, print::of_fields(out, fs, k)),
        0 <= k <= fs.len(),
        forall|i: int| 0 <= i < fs.len() ==> word((#[trigger] fs[i]).0) && legible_type(fs[i].1),
    ensures
        spelt_fields(z.toks, p, fs, k) >= 0,
        sync(z, at(print::of_fields(out, fs, k)), spelt_fields(z.toks, p, fs, k)),
    decreases k,
{
    reveal(spelt_fields);
    reveal(sync);
    lemma_goes();
    lemma_literals();
    if k > 0 {
        let f = fs[k - 1];
        let a = print::of_fields(out, fs, k - 1);
        let b = a + "    "@;
        let c = b + f.0;
        let d = c + ": "@;
        let g = print::of_type(d, f.1);
        lemma_word_text(b, f.0);
        lemma_ext_type(d, f.1);
        reveal_strlit(",\n");
        lemma_clear_put(z, g, ",\n"@);
        lemma_put(z, g, ",\n"@);
        assert(z.text[at(g) + 0] == ",\n"@[0] && z.text[at(g) + 1] == ",\n"@[1]);
        lemma_begins(z, d, g);
        lemma_clear_colon(z, c);
        lemma_begins(z, b, c);
        lemma_put(z, a, "    "@);
        lemma_write_fields(z, out, fs, k - 1, p);
        let i = spelt_fields(z.toks, p, fs, k - 1);
        lemma_indent(z, a, i);
        assert(!lex::in_ident(z.text[at(c)] as u8) && at(c) < z.text.len()) by {
            reveal(clear);
        }
        lemma_word(z, b, f.0, i);
        lemma_write_colon(z, c, i + 1);
        lemma_write_type(z, d, f.1, i + 2);
        let j = spelt_type(z.toks, i + 2, f.1);
        lemma_solo(z, at(g), j);
        lemma_space(z, at(g) + 1, j + 1);
    }
}

/// A keyword, a space and a name.
#[verifier::spinoff_prover]
proof fn lemma_write_titled(z: Scene, out: Seq<char>, w: Seq<char>, word: Seq<char>, k: TokenKind, n: Seq<char>, p: int)
    requires
        sync(z, at(out), p),
        begins(z, out + w + n),
        all_basic(w),
        letters(word),
        lex::keyword(word) == k,
        w.len() == word.len() + 1,
        w.take(word.len() as int) == word,
        w[word.len() as int] == ' ',
        super::word(n),
        clear(z, at(out + w + n)),
    ensures
        sync(z, at(out + w + n), p + 2),
        spelt_name(z.toks, spelt(z.toks, p, k), n) == p + 2,
{
    reveal(sync);
    lemma_word_text(out + w, n);
    lemma_put(z, out + w, n);
    lemma_lead(z, out, w, word, k, p);
    assert(z.text[at(out) + word.len()] == w[word.len() as int]);
    lemma_space(z, at(out) + word.len(), p + 1);
    reveal(clear);
    lemma_word(z, out + w, n, p + 1);
}

#[verifier::spinoff_prover]
#[verifier::rlimit(60)]
proof fn lemma_write_decl(z: Scene, out: Seq<char>, d: DeclModel, p: int)
    requires
        sync(z, at(out), p),
        begins(z, print::of_decl(out, d)),
        legible_decl(d),
    ensures
        spelt_decl(z.toks, p, d) >= 0,
        sync(z, at(print::of_decl(out, d)), spelt_decl(z.toks, p, d)),
{
    reveal(spelt_decl);
    reveal(sync);
    lemma_goes();
    lemma_literals();
    lemma_marks();
    lemma_leads();
    lemma_keywords();
    let r = print::of_decl(out, d);
    match d {
        DeclModel::Fn(f) => {
            let h = out + "fn "@ + f.name;
            let a = h + "("@;
            let n = f.params.len() as int;
            let b = print::of_params(a, f.params, n);
            let c = b + ")"@;
            let t = c + " -> "@;
            lemma_word_text(out + "fn "@, f.name);
            lemma_ext_params(a, f.params, n);
            let g = if f.ret is Nil {
                c
            } else {
                print::of_type(t, f.ret)
            };
            if !(f.ret is Nil) {
                lemma_ext_type(t, f.ret);
            }
            lemma_ext_block(g + " "@, f.body);
            lemma_begins(z, g + " "@, r);
            lemma_clear_put(z, g, " "@);
            lemma_begins(z, c, g);
            lemma_clear_put(z, b, ")"@);
            lemma_begins(z, a, b);
            lemma_clear_put(z, h, "("@);
            lemma_write_titled(z, out, "fn "@, "fn"@, TokenKind::KwFn, f.name, p);
            lemma_put_solo(z, h, "("@, p + 2);
            lemma_write_params(z, a, f.params, n, p + 3);
            let i = spelt_params(z.toks, p + 3, f.params, n);
            lemma_put_solo(z, b, ")"@, i);
            let j = if f.ret is Nil {
                i + 1
            } else {
                spelt_type(z.toks, i + 2, f.ret)
            };
            if !(f.ret is Nil) {
                lemma_begins(z, t, g);
                lemma_put(z, c, " -> "@);
                reveal_strlit(" -> ");
                let q = at(c);
                assert(z.text[q + 0] == ' ' && z.text[q + 1] == '-' && z.text[q + 2] == '>' && z.text[q + 3] == ' ') by {
                    assert(z.text[q + 0] == " -> "@[0] && z.text[q + 1] == " -> "@[1]);
                    assert(z.text[q + 2] == " -> "@[2] && z.text[q + 3] == " -> "@[3]);
                }
                lemma_space(z, q, i + 1);
                lemma_mark(z, q + 1, i + 1, TokenKind::Arrow, 2);
                lemma_space(z, q + 3, i + 2);
                lemma_write_type(z, t, f.ret, i + 2);
            }
            lemma_put_space(z, g, " "@, j);
            lemma_write_block(z, g + " "@, f.body, j);
        },
        DeclModel::Struct(s) => {
            let h = out + "struct "@ + s.name;
            let a = h + " {\n"@;
            let n = s.fields.len() as int;
            let b = print::of_fields(a, s.fields, n);
            lemma_word_text(out + "struct "@, s.name);
            lemma_ext_fields(a, s.fields, n);
            lemma_put(z, b, "}"@);
            lemma_begins(z, a, b);
            reveal_strlit(" {\n");
            lemma_clear_put(z, h, " {\n"@);
            lemma_put(z, h, " {\n"@);
            let q = at(h);
            assert(z.text[q + 0] == ' ' && z.text[q + 1] == '{' && z.text[q + 2] == '\n') by {
                assert(z.text[q + 0] == " {\n"@[0] && z.text[q + 1] == " {\n"@[1] && z.text[q + 2] == " {\n"@[2]);
            }
            lemma_write_titled(z, out, "struct "@, "struct"@, TokenKind::KwStruct, s.name, p);
            lemma_space(z, q, p + 2);
            lemma_solo(z, q + 1, p + 2);
            lemma_space(z, q + 2, p + 3);
            lemma_write_fields(z, a, s.fields, n, p + 3);
            lemma_put_solo(z, b, "}"@, spelt_fields(z.toks, p + 3, s.fields, n));
        },
        DeclModel::Const(c) => {
            let h = out + "const "@ + c.name;
            let a = h + ": "@;
            let b = print::of_type(a, c.ty);
            lemma_word_text(out + "const "@, c.name);
            lemma_ext_type(a, c.ty);
            lemma_ext_expr(b + " = "@, c.init);
            lemma_put(z, print::of_expr(b + " = "@, c.init), ";"@);
            lemma_begins(z, b + " = "@, print::of_expr(b + " = "@, c.init));
            lemma_clear_assign(z, b);
            lemma_begins(z, a, b);
            lemma_clear_colon(z, h);
            lemma_write_titled(z, out, "const "@, "const"@, TokenKind::KwConst, c.name, p);
            lemma_write_colon(z, h, p + 2);
            lemma_write_type(z, a, c.ty, p + 3);
            lemma_write_init(z, b, c.init, spelt_type(z.toks, p + 3, c.ty));
        },
    }
}

proof fn lemma_write_decls(z: Scene, ds: Seq<DeclModel>, k: int)
    requires
        sync(z, 0, 0),
        begins(z, print::of_decls(ds, k)),
        0 <= k <= ds.len(),
        forall|i: int| 0 <= i < ds.len() ==> legible_decl(#[trigger] ds[i]),
    ensures
        spelt_decls(z.toks, 0, ds, k) >= 0,
        sync(z, at(print::of_decls(ds, k)), spelt_decls(z.toks, 0, ds, k)),
    decreases k,
{
    lemma_literals();
    reveal(spelt_decls);
    lemma_marks();
    if k > 0 {
        let a = print::of_decls(ds, k - 1);
        let b = print::of_decl(a, ds[k - 1]);
        lemma_ext_decl(a, ds[k - 1]);
        lemma_put(z, b, "\n"@);
        lemma_begins(z, a, b);
        lemma_write_decls(z, ds, k - 1);
        let i = spelt_decls(z.toks, 0, ds, k - 1);
        lemma_write_decl(z, a, ds[k - 1], i);
        lemma_put_space(z, b, "\n"@, spelt_decl(z.toks, i, ds[k - 1]));
    }
}

/// The text of a module is read as the tokens that spell it, without a complaint.
pub proof fn lemma_write_module(file: FileId, m: ModuleModel)
    requires
        legible(m),
    ensures
        ({
            let l = lex::lexed(file, encode_utf8(print::printed(m)), 0);
            let j = spelt_decls(l.0, 0, m.decls, m.decls.len() as int);
            j >= 0 && crate::parse::kind_at(l.0, j) is Eof && l.1.len() == 0
        }),
{
    let t = print::printed(m);
    let b = encode_utf8(t);
    let n = m.decls.len() as int;
    let l = lex::lexed(file, b, 0);
    let z = Scene { file, text: wide(b), toks: l.0 };
    assert(bytes(z.text) =~= b);
    assert(begins(z, t)) by {
        reveal(begins);
    }
    assert(sync(z, 0, 0)) by {
        reveal(sync);
        assert(l.0.skip(0) =~= l.0);
    }
    lemma_write_decls(z, m.decls, n);
    let j = spelt_decls(l.0, 0, m.decls, n);
    reveal(sync);
    assert(l.0.skip(j).len() == 1 && l.0.skip(j)[0].kind is Eof) by {
        assert(l.0.skip(j) == lex::lexed(file, b, b.len() as int).0);
    }
}

} // verus!
