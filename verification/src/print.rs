//! Canonical printing of modules.
//!
//! The printed text is meant to be read again by the parser, so every construct is
//! printed in a form that parses to the same construct: binary operations stand in
//! parentheses, a float literal keeps its decimal point, an operand that would swallow what
//! follows it is parenthesized, and the bars of a closure without parameters stand apart.

use crate::ast;
use crate::ast::{
    BinOp, Block, BlockModel, ConstDecl, Decl, DeclModel, Expr, ExprKind, ExprKindModel, ExprModel, FnDecl,
    FnDeclModel, Lit, LitModel, Module, ModuleModel, Param, ParamModel, Stmt, StmtKind, StmtKindModel, StmtModel,
    StructDecl, Type, TypeModel, UnOp,
};
use crate::float;
use crate::source::Span;
use crate::text;
use crate::text::{chars_of, push_dec_int};
use vstd::prelude::*;
use vstd::string::*;

verus! {

// Each `of_*` function appends the text of one construct to `out`.

/// The text of an operator.
pub open spec fn operator(op: BinOp) -> Seq<char> {
    match op {
        BinOp::Add => "+"@,
        BinOp::Sub => "-"@,
        BinOp::Mul => "*"@,
        BinOp::Div => "/"@,
        BinOp::Mod => "%"@,
        BinOp::Eq => "=="@,
        BinOp::Ne => "!="@,
        BinOp::Lt => "<"@,
        BinOp::Le => "<="@,
        BinOp::Gt => ">"@,
        BinOp::Ge => ">="@,
        BinOp::And => "&&"@,
        BinOp::Or => "||"@,
    }
}

/// The text of a type.
pub open spec fn of_type(out: Seq<char>, t: TypeModel) -> Seq<char>
    decreases t, 0int,
{
    match t {
        TypeModel::Unknown => out + "_"@,
        TypeModel::Error => out + "<error>"@,
        TypeModel::Nil => out + "nil"@,
        TypeModel::Bool => out + "bool"@,
        TypeModel::I32 => out + "i32"@,
        TypeModel::I64 => out + "i64"@,
        TypeModel::F32 => out + "f32"@,
        TypeModel::F64 => out + "f64"@,
        TypeModel::Str => out + "str"@,
        TypeModel::Entity => out + "Entity"@,
        TypeModel::Query(x) => of_type(out + "Query<"@, *x.it) + ">"@,
        TypeModel::Res(x) => of_type(out + "Res<"@, *x.it) + ">"@,
        TypeModel::ResMut(x) => of_type(out + "ResMut<"@, *x.it) + ">"@,
        TypeModel::Array(x) => of_type(out + "Array<"@, *x.it) + ">"@,
        TypeModel::Dict(k, v) => of_type(of_type(out + "Map<"@, *k.it) + ", "@, *v.it) + ">"@,
        TypeModel::Fn(ps, r) => of_type(of_types(out + "fn("@, ps, ps.len() as int) + ") -> "@, *r.it),
        TypeModel::Struct(n) => out + n,
    }
}

/// The text of the first `k` types of a list.
pub open spec fn of_types(out: Seq<char>, ts: Seq<TypeModel>, k: int) -> Seq<char>
    decreases ts, k,
{
    if k <= 0 || k > ts.len() {
        out
    } else {
        of_type(separated(of_types(out, ts, k - 1), k), ts[k - 1])
    }
}

/// The separator in front of the `k`th element of a list.
pub open spec fn separated(out: Seq<char>, k: int) -> Seq<char> {
    if k > 1 {
        out + ", "@
    } else {
        out
    }
}

/// A character of a string literal.
pub open spec fn escaped(c: char) -> Seq<char> {
    if c == '\\' {
        "\\\\"@
    } else if c == '"' {
        "\\\""@
    } else if c == '\n' {
        "\\n"@
    } else if c == '\r' {
        "\\r"@
    } else if c == '\t' {
        "\\t"@
    } else {
        seq![c]
    }
}

/// The first `k` characters of a string literal.
pub open spec fn escaped_text(out: Seq<char>, s: Seq<char>, k: int) -> Seq<char>
    decreases k,
{
    if k <= 0 {
        out
    } else {
        escaped_text(out, s, k - 1) + escaped(s[k - 1])
    }
}

/// The text of a float literal: with a decimal point wherever the value is finite. Positive
/// infinity, which a literal can be too large for, is the power of ten behind the largest
/// float.
pub open spec fn float_literal(b: u64) -> Seq<char> {
    if b == float::INF {
        "1"@ + float::zeros(309) + ".0"@
    } else if float::magnitude(b) >= float::INF || float::shown(b).contains('.') {
        float::shown(b)
    } else {
        float::shown(b) + ".0"@
    }
}

/// The text of a literal.
pub open spec fn of_lit(out: Seq<char>, l: LitModel) -> Seq<char> {
    match l {
        LitModel::Nil => out + "nil"@,
        LitModel::Bool(true) => out + "true"@,
        LitModel::Bool(false) => out + "false"@,
        LitModel::Int(v) => out + text::dec_int(v as int),
        LitModel::Float(b) => out + float_literal(b),
        LitModel::Str(s) => escaped_text(out + "\""@, s, s.len() as int) + "\""@,
    }
}

/// The text of a parameter.
pub open spec fn of_param(out: Seq<char>, p: ParamModel) -> Seq<char> {
    if p.ty is Unknown {
        out + p.name
    } else {
        of_type(out + p.name + ": "@, p.ty)
    }
}

/// The text of the first `k` parameters.
pub open spec fn of_params(out: Seq<char>, ps: Seq<ParamModel>, k: int) -> Seq<char>
    decreases k,
{
    if k <= 0 {
        out
    } else {
        of_param(separated(of_params(out, ps, k - 1), k), ps[k - 1])
    }
}

/// Whether an operand would swallow an operator behind it: a closure, whose body reaches as
/// far as it can, or a prefix operator on one.
pub open spec fn open_ended(e: ExprModel) -> bool
    decreases e,
{
    match e.kind {
        ExprKindModel::Closure(..) => true,
        ExprKindModel::Unary(_, x) => open_ended(*x.it),
        _ => false,
    }
}

/// Whether an expression must be parenthesized in front of a call, a field or an index.
pub open spec fn loose(e: ExprModel) -> bool {
    e.kind is Unary || e.kind is Closure
}

/// Whether an expression ends in a name that an opening brace would make a struct literal.
pub open spec fn ends_in_type_name(e: ExprModel) -> bool
    decreases e,
{
    match e.kind {
        ExprKindModel::Ident(n) => crate::parse::type_like(n),
        ExprKindModel::Unary(_, x) => ends_in_type_name(*x.it),
        ExprKindModel::Closure(_, b) => ends_in_type_name(*b.it),
        _ => false,
    }
}

/// The text of an expression, in parentheses where `wrap` says so.
pub open spec fn of_operand(out: Seq<char>, e: ExprModel, wrap: bool) -> Seq<char>
    decreases e, 1int,
{
    if wrap {
        of_expr(out + "("@, e) + ")"@
    } else {
        of_expr(out, e)
    }
}

/// The text of an expression.
pub open spec fn of_expr(out: Seq<char>, e: ExprModel) -> Seq<char>
    decreases e, 0int,
{
    match e.kind {
        ExprKindModel::Lit(l) => of_lit(out, l),
        ExprKindModel::Ident(n) => out + n,
        ExprKindModel::Binary(op, l, r) => of_expr(
            of_operand(out + "("@, *l.it, open_ended(*l.it)) + " "@ + operator(op) + " "@,
            *r.it,
        ) + ")"@,
        ExprKindModel::Unary(op, x) => of_expr(
            out + (if op == UnOp::Neg {
                "-"@
            } else {
                "!"@
            }),
            *x.it,
        ),
        ExprKindModel::Call(c, args) => of_exprs(of_operand(out, *c.it, loose(*c.it)) + "("@, args, args.len() as int) + ")"@,
        ExprKindModel::Field(x, n) => of_operand(out, *x.it, loose(*x.it)) + "."@ + n,
        ExprKindModel::Index(x, i) => of_expr(of_operand(out, *x.it, loose(*x.it)) + "["@, *i.it) + "]"@,
        ExprKindModel::StructLit(n, fs) => of_inits(out + n + " { "@, fs, fs.len() as int) + " }"@,
        ExprKindModel::ArrayLit(es) => of_exprs(out + "["@, es, es.len() as int) + "]"@,
        ExprKindModel::MapLit(ps) => of_pairs(
            out + (if ps.len() == 0 {
                "[:"@
            } else {
                "["@
            }),
            ps,
            ps.len() as int,
        ) + "]"@,
        ExprKindModel::Closure(ps, body) => of_expr(
            of_params(out + "|"@, ps, ps.len() as int) + (if ps.len() == 0 {
                " | "@
            } else {
                "| "@
            }),
            *body.it,
        ),
        ExprKindModel::Block(b) => of_block(out, *b.it),
        ExprKindModel::If(c, t, el) => {
            let head = of_block(of_operand(out + "if "@, *c.it, ends_in_type_name(*c.it)) + " "@, *t.it);
            match el {
                Some(b) => of_block(head + " else "@, *b.it),
                None => head,
            }
        },
    }
}

/// The text of the first `k` expressions of a list.
pub open spec fn of_exprs(out: Seq<char>, es: Seq<ExprModel>, k: int) -> Seq<char>
    decreases es, k,
{
    if k <= 0 || k > es.len() {
        out
    } else {
        of_expr(separated(of_exprs(out, es, k - 1), k), es[k - 1])
    }
}

/// The text of the first `k` field initializers.
pub open spec fn of_inits(out: Seq<char>, fs: Seq<(Seq<char>, ExprModel)>, k: int) -> Seq<char>
    decreases fs, k,
{
    if k <= 0 || k > fs.len() {
        out
    } else {
        of_expr(separated(of_inits(out, fs, k - 1), k) + fs[k - 1].0 + ": "@, fs[k - 1].1)
    }
}

/// The text of the first `k` map entries.
pub open spec fn of_pairs(out: Seq<char>, ps: Seq<(ExprModel, ExprModel)>, k: int) -> Seq<char>
    decreases ps, k,
{
    if k <= 0 || k > ps.len() {
        out
    } else {
        of_expr(of_expr(separated(of_pairs(out, ps, k - 1), k), ps[k - 1].0) + " => "@, ps[k - 1].1)
    }
}

/// The text of a block.
pub open spec fn of_block(out: Seq<char>, b: BlockModel) -> Seq<char>
    decreases b, 0int,
{
    let body = of_stmts(out + "{\n"@, b.stmts, b.stmts.len() as int);
    match b.tail {
        Some(t) => of_expr(body + "    "@, t) + "\n"@ + "}"@,
        None => body + "}"@,
    }
}

/// The text of the first `k` statements.
pub open spec fn of_stmts(out: Seq<char>, ss: Seq<StmtModel>, k: int) -> Seq<char>
    decreases ss, k,
{
    if k <= 0 || k > ss.len() {
        out
    } else {
        of_stmt(of_stmts(out, ss, k - 1) + "    "@, ss[k - 1]) + "\n"@
    }
}

/// The text of a statement.
pub open spec fn of_stmt(out: Seq<char>, s: StmtModel) -> Seq<char>
    decreases s, 0int,
{
    match s.kind {
        StmtKindModel::Let { name, ty, mutable, init } => {
            let head = out + "let "@ + (if mutable {
                "mut "@
            } else {
                ""@
            }) + name;
            let typed = if ty is Unknown {
                head
            } else {
                of_type(head + ": "@, ty)
            };
            of_expr(typed + " = "@, init) + ";"@
        },
        StmtKindModel::Assign(p, v) => of_expr(of_expr(out, p) + " = "@, v) + ";"@,
        StmtKindModel::Expr(e) => of_expr(out, e) + ";"@,
        StmtKindModel::Return(Some(v)) => of_expr(out + "return"@ + " "@, v) + ";"@,
        StmtKindModel::Return(None) => out + "return"@ + ";"@,
        StmtKindModel::While(c, b) => of_block(of_operand(out + "while "@, c, ends_in_type_name(c)) + " "@, *b.it),
        StmtKindModel::If(c, t, el) => {
            let head = of_block(of_operand(out + "if "@, c, ends_in_type_name(c)) + " "@, *t.it);
            match el {
                Some(b) => of_block(head + " else "@, *b.it),
                None => head,
            }
        },
        StmtKindModel::Break => out + "break;"@,
        StmtKindModel::Continue => out + "continue;"@,
    }
}

/// The text of a function.
pub open spec fn of_fn(out: Seq<char>, f: FnDeclModel) -> Seq<char> {
    let head = of_params(out + "fn "@ + f.name + "("@, f.params, f.params.len() as int) + ")"@;
    of_block(
        (if f.ret is Nil {
            head
        } else {
            of_type(head + " -> "@, f.ret)
        }) + " "@,
        f.body,
    )
}

/// The text of the first `k` fields of a struct.
pub open spec fn of_fields(out: Seq<char>, fs: Seq<(Seq<char>, TypeModel, Span)>, k: int) -> Seq<char>
    decreases k,
{
    if k <= 0 {
        out
    } else {
        of_type(of_fields(out, fs, k - 1) + "    "@ + fs[k - 1].0 + ": "@, fs[k - 1].1) + ",\n"@
    }
}

/// The text of a declaration.
pub open spec fn of_decl(out: Seq<char>, d: DeclModel) -> Seq<char> {
    match d {
        DeclModel::Fn(f) => of_fn(out, f),
        DeclModel::Struct(s) => of_fields(out + "struct "@ + s.name + " {\n"@, s.fields, s.fields.len() as int) + "}"@,
        DeclModel::Const(c) => of_expr(of_type(out + "const "@ + c.name + ": "@, c.ty) + " = "@, c.init) + ";"@,
    }
}

/// The text of the first `k` declarations.
pub open spec fn of_decls(ds: Seq<DeclModel>, k: int) -> Seq<char>
    decreases k,
{
    if k <= 0 {
        Seq::empty()
    } else {
        of_decl(of_decls(ds, k - 1), ds[k - 1]) + "\n"@
    }
}

/// The canonical text of a module.
pub open spec fn printed(m: ModuleModel) -> Seq<char> {
    of_decls(m.decls, m.decls.len() as int)
}

/// Reprints `module` as canonical sli source, in a form that parses to a
/// structurally-equal AST.
pub fn print(module: &Module) -> (r: String)
    ensures
        r@ == printed(module@),
{
    let mut out = String::new();
    let mut i: usize = 0;
    assert(out@ =~= of_decls(module@.decls, 0));
    while i < module.decls.len()
        invariant
            i <= module.decls@.len(),
            out@ == of_decls(module@.decls, i as int),
        decreases module.decls.len() - i,
    {
        assert(module@.decls[i as int] == module.decls@[i as int]@);
        match &module.decls[i] {
            Decl::Fn(f) => print_fn(&mut out, f),
            Decl::Struct(s) => print_struct(&mut out, s),
            Decl::Const(c) => print_const(&mut out, c),
        }
        out.append("\n");
        i += 1;
    }
    out
}

fn print_fn(out: &mut String, f: &FnDecl)
    ensures
        final(out)@ == of_fn(old(out)@, f@),
{
    out.append("fn ");
    out.append(f.name.as_str());
    out.append("(");
    print_params(out, &f.params);
    out.append(")");
    if !matches!(f.ret, Type::Nil) {
        out.append(" -> ");
        print_type(out, &f.ret);
    }
    out.append(" ");
    print_block(out, &f.body);
}

fn print_struct(out: &mut String, s: &StructDecl)
    ensures
        final(out)@ == of_decl(old(out)@, ast::decl_model(Decl::Struct(*s))),
{
    out.append("struct ");
    out.append(s.name.as_str());
    out.append(" {\n");
    let ghost head = out@;
    let ghost m = ast::struct_fields_model(s.fields@);
    let mut i: usize = 0;
    while i < s.fields.len()
        invariant
            i <= s.fields@.len(),
            m == ast::struct_fields_model(s.fields@),
            out@ == of_fields(head, m, i as int),
        decreases s.fields.len() - i,
    {
        assert(m[i as int].0 == s.fields@[i as int].0@);
        out.append("    ");
        out.append(s.fields[i].0.as_str());
        out.append(": ");
        print_type(out, &s.fields[i].1);
        out.append(",\n");
        i += 1;
    }
    out.append("}");
}

fn print_const(out: &mut String, c: &ConstDecl)
    ensures
        final(out)@ == of_decl(old(out)@, ast::decl_model(Decl::Const(*c))),
{
    out.append("const ");
    out.append(c.name.as_str());
    out.append(": ");
    print_type(out, &c.ty);
    out.append(" = ");
    print_expr(out, &c.init);
    out.append(";");
}

fn print_params(out: &mut String, ps: &Vec<Param>)
    ensures
        final(out)@ == of_params(old(out)@, ast::params_model(ps@), ps@.len() as int),
{
    let ghost m = ast::params_model(ps@);
    let mut i: usize = 0;
    while i < ps.len()
        invariant
            i <= ps@.len(),
            m == ast::params_model(ps@),
            out@ == of_params(old(out)@, m, i as int),
        decreases ps.len() - i,
    {
        assert(m[i as int] == ps@[i as int]@);
        if i > 0 {
            out.append(", ");
        }
        out.append(ps[i].name.as_str());
        if !matches!(ps[i].ty, Type::Unknown) {
            out.append(": ");
            print_type(out, &ps[i].ty);
        }
        i += 1;
    }
}

fn print_block(out: &mut String, b: &Block)
    ensures
        final(out)@ == of_block(old(out)@, b@),
    decreases *b, 0int,
{
    let ghost ss = ast::stmts_model(b.stmts@);
    assert(b@.stmts == ss);
    out.append("{\n");
    let ghost head = out@;
    let mut i: usize = 0;
    while i < b.stmts.len()
        invariant
            i <= b.stmts@.len(),
            ss == ast::stmts_model(b.stmts@),
            out@ == of_stmts(head, ss, i as int),
        decreases b.stmts.len() - i,
    {
        assert(decreases_to!(b.stmts@ => b.stmts@[i as int]));
        assert(decreases_to!(b.stmts => b.stmts@));
        assert(ss[i as int] == b.stmts@[i as int]@);
        out.append("    ");
        print_stmt(out, &b.stmts[i]);
        out.append("\n");
        i += 1;
    }
    if let Some(t) = &b.tail {
        out.append("    ");
        print_expr(out, t);
        out.append("\n");
    }
    out.append("}");
}

fn print_else(out: &mut String, el: &Option<Box<Block>>)
    ensures
        final(out)@ == (match *el {
            Some(b) => of_block(old(out)@ + " else "@, ast::block_model(*b)),
            None => old(out)@,
        }),
    decreases *el, 0int,
{
    if let Some(b) = el {
        out.append(" else ");
        print_block(out, b);
    }
}

#[verifier::spinoff_prover]
fn print_stmt(out: &mut String, s: &Stmt)
    ensures
        final(out)@ == of_stmt(old(out)@, s@),
    decreases *s, 0int,
{
    let ghost k = ast::stmt_kind_model(s.kind);
    assert(s@.kind == k);
    match &s.kind {
        StmtKind::Let { name, ty, mutable, init } => {
            out.append("let ");
            if *mutable {
                out.append("mut ");
            } else {
                out.append("");
            }
            out.append(name.as_str());
            if !matches!(ty, Type::Unknown) {
                out.append(": ");
                print_type(out, ty);
            }
            out.append(" = ");
            print_expr(out, init);
            out.append(";");
        },
        StmtKind::Assign(p, v) => {
            print_expr(out, p);
            out.append(" = ");
            print_expr(out, v);
            out.append(";");
        },
        StmtKind::Expr(e) => {
            print_expr(out, e);
            out.append(";");
        },
        StmtKind::Return(v) => {
            out.append("return");
            if let Some(v) = v {
                out.append(" ");
                print_expr(out, v);
            }
            out.append(";");
        },
        StmtKind::While(c, b) => {
            out.append("while ");
            print_operand(out, c, type_name_at_end(c));
            out.append(" ");
            print_block(out, b);
        },
        StmtKind::If(c, t, e) => {
            out.append("if ");
            print_operand(out, c, type_name_at_end(c));
            out.append(" ");
            print_block(out, t);
            print_else(out, e);
        },
        StmtKind::Break => out.append("break;"),
        StmtKind::Continue => out.append("continue;"),
    }
}

fn is_open_ended(e: &Expr) -> (r: bool)
    ensures
        r == open_ended(e@),
    decreases *e,
{
    let ghost k = ast::expr_kind_model(e.kind);
    assert(e@.kind == k);
    match &e.kind {
        ExprKind::Closure(..) => true,
        ExprKind::Unary(_, x) => is_open_ended(x),
        _ => false,
    }
}

fn is_loose(e: &Expr) -> (r: bool)
    ensures
        r == loose(e@),
{
    let ghost k = ast::expr_kind_model(e.kind);
    assert(e@.kind == k);
    matches!(e.kind, ExprKind::Unary(..) | ExprKind::Closure(..))
}

fn type_name_at_end(e: &Expr) -> (r: bool)
    ensures
        r == ends_in_type_name(e@),
    decreases *e,
{
    let ghost k = ast::expr_kind_model(e.kind);
    assert(e@.kind == k);
    match &e.kind {
        ExprKind::Ident(n) => crate::parse::looks_like_type(n.as_str()),
        ExprKind::Unary(_, x) => type_name_at_end(x),
        ExprKind::Closure(_, b) => type_name_at_end(b),
        _ => false,
    }
}

fn print_operand(out: &mut String, e: &Expr, wrap: bool)
    ensures
        final(out)@ == of_operand(old(out)@, e@, wrap),
    decreases *e, 1int,
{
    if wrap {
        out.append("(");
    }
    print_expr(out, e);
    if wrap {
        out.append(")");
    }
}

fn print_exprs(out: &mut String, es: &Vec<Expr>)
    ensures
        final(out)@ == of_exprs(old(out)@, ast::exprs_model(es@), es@.len() as int),
    decreases es@, 0int,
{
    let ghost m = ast::exprs_model(es@);
    let mut i: usize = 0;
    while i < es.len()
        invariant
            i <= es@.len(),
            m == ast::exprs_model(es@),
            out@ == of_exprs(old(out)@, m, i as int),
        decreases es.len() - i,
    {
        assert(decreases_to!(es@ => es@[i as int]));
        assert(m[i as int] == es@[i as int]@);
        if i > 0 {
            out.append(", ");
        }
        print_expr(out, &es[i]);
        i += 1;
    }
}

fn print_inits(out: &mut String, fs: &Vec<(String, Expr)>)
    ensures
        final(out)@ == of_inits(old(out)@, ast::inits_model(fs@), fs@.len() as int),
    decreases fs@, 0int,
{
    let ghost m = ast::inits_model(fs@);
    let mut i: usize = 0;
    while i < fs.len()
        invariant
            i <= fs@.len(),
            m == ast::inits_model(fs@),
            out@ == of_inits(old(out)@, m, i as int),
        decreases fs.len() - i,
    {
        assert(decreases_to!(fs@ => fs@[i as int]));
        assert(decreases_to!(fs@[i as int] => fs@[i as int].1));
        assert(m[i as int] == (fs@[i as int].0@, fs@[i as int].1@));
        if i > 0 {
            out.append(", ");
        }
        out.append(fs[i].0.as_str());
        out.append(": ");
        print_expr(out, &fs[i].1);
        i += 1;
    }
}

fn print_pairs(out: &mut String, ps: &Vec<(Expr, Expr)>)
    ensures
        final(out)@ == of_pairs(old(out)@, ast::pairs_model(ps@), ps@.len() as int),
    decreases ps@, 0int,
{
    let ghost m = ast::pairs_model(ps@);
    let mut i: usize = 0;
    while i < ps.len()
        invariant
            i <= ps@.len(),
            m == ast::pairs_model(ps@),
            out@ == of_pairs(old(out)@, m, i as int),
        decreases ps.len() - i,
    {
        assert(decreases_to!(ps@ => ps@[i as int]));
        assert(decreases_to!(ps@[i as int] => ps@[i as int].0));
        assert(decreases_to!(ps@[i as int] => ps@[i as int].1));
        assert(m[i as int] == (ps@[i as int].0@, ps@[i as int].1@));
        if i > 0 {
            out.append(", ");
        }
        print_expr(out, &ps[i].0);
        out.append(" => ");
        print_expr(out, &ps[i].1);
        i += 1;
    }
}

fn binop_str(op: BinOp) -> (r: &'static str)
    ensures
        r@ == operator(op),
{
    match op {
        BinOp::Add => "+",
        BinOp::Sub => "-",
        BinOp::Mul => "*",
        BinOp::Div => "/",
        BinOp::Mod => "%",
        BinOp::Eq => "==",
        BinOp::Ne => "!=",
        BinOp::Lt => "<",
        BinOp::Le => "<=",
        BinOp::Gt => ">",
        BinOp::Ge => ">=",
        BinOp::And => "&&",
        BinOp::Or => "||",
    }
}

#[verifier::spinoff_prover]
#[verifier::rlimit(60)]
fn print_expr(out: &mut String, e: &Expr)
    ensures
        final(out)@ == of_expr(old(out)@, e@),
    decreases *e, 0int,
{
    let ghost k = ast::expr_kind_model(e.kind);
    assert(e@.kind == k);
    match &e.kind {
        ExprKind::Lit(l) => print_lit(out, l),
        ExprKind::Ident(n) => out.append(n.as_str()),
        ExprKind::Binary(op, l, r) => {
            out.append("(");
            print_operand(out, l, is_open_ended(l));
            out.append(" ");
            out.append(binop_str(*op));
            out.append(" ");
            print_expr(out, r);
            out.append(")");
        },
        ExprKind::Unary(op, x) => {
            if *op == UnOp::Neg {
                out.append("-");
            } else {
                out.append("!");
            }
            print_expr(out, x);
        },
        ExprKind::Call(c, args) => {
            print_operand(out, c, is_loose(c));
            out.append("(");
            assert(decreases_to!(*args => args@));
            print_exprs(out, args);
            out.append(")");
        },
        ExprKind::Field(x, n) => {
            print_operand(out, x, is_loose(x));
            out.append(".");
            out.append(n.as_str());
        },
        ExprKind::Index(x, i) => {
            print_operand(out, x, is_loose(x));
            out.append("[");
            print_expr(out, i);
            out.append("]");
        },
        ExprKind::StructLit(n, fs) => {
            out.append(n.as_str());
            out.append(" { ");
            assert(decreases_to!(*fs => fs@));
            print_inits(out, fs);
            out.append(" }");
        },
        ExprKind::ArrayLit(es) => {
            out.append("[");
            assert(decreases_to!(*es => es@));
            print_exprs(out, es);
            out.append("]");
        },
        ExprKind::MapLit(ps) => {
            if ps.len() == 0 {
                out.append("[:");
            } else {
                out.append("[");
            }
            assert(decreases_to!(*ps => ps@));
            assert(ast::pairs_model(ps@).len() == ps@.len());
            print_pairs(out, ps);
            out.append("]");
        },
        ExprKind::Closure(ps, body) => {
            out.append("|");
            print_params(out, ps);
            if ps.len() == 0 {
                out.append(" | ");
            } else {
                out.append("| ");
            }
            print_expr(out, body);
        },
        ExprKind::Block(b) => print_block(out, b),
        ExprKind::If(c, t, el) => {
            out.append("if ");
            print_operand(out, c, type_name_at_end(c));
            out.append(" ");
            print_block(out, t);
            print_else(out, el);
        },
    }
}

fn print_escaped(out: &mut String, s: &str)
    ensures
        final(out)@ == escaped_text(old(out)@, s@, s@.len() as int),
{
    let cs = chars_of(s);
    let mut i: usize = 0;
    while i < cs.len()
        invariant
            i <= cs@.len(),
            cs@ == s@,
            out@ == escaped_text(old(out)@, s@, i as int),
        decreases cs.len() - i,
    {
        let c: char = cs[i];
        if c == '\\' {
            out.append("\\\\");
        } else if c == '"' {
            out.append("\\\"");
        } else if c == '\n' {
            out.append("\\n");
        } else if c == '\r' {
            out.append("\\r");
        } else if c == '\t' {
            out.append("\\t");
        } else {
            let ghost before = out@;
            out.push(c);
            assert(out@ =~= before + seq![c]);
        }
        i += 1;
    }
}

fn has_point(s: &str) -> (r: bool)
    ensures
        r == s@.contains('.'),
{
    let cs = chars_of(s);
    let mut i: usize = 0;
    while i < cs.len()
        invariant
            i <= cs@.len(),
            cs@ == s@,
            forall|j: int| 0 <= j < i ==> cs@[j] != '.',
        decreases cs.len() - i,
    {
        if cs[i] == '.' {
            assert(s@[i as int] == '.');
            return true;
        }
        i += 1;
    }
    false
}

fn print_lit(out: &mut String, l: &Lit)
    ensures
        final(out)@ == of_lit(old(out)@, l@),
{
    match l {
        Lit::Nil => out.append("nil"),
        Lit::Bool(b) => {
            if *b {
                out.append("true");
            } else {
                out.append("false");
            }
        },
        Lit::Int(v) => push_dec_int(out, *v),
        Lit::Float(b) => {
            if *b == float::INF {
                out.append("1");
                float::push_zeros(out, 309);
                out.append(".0");
                assert(out@ =~= old(out)@ + float_literal(*b));
            } else {
                let t = float::show(*b);
                out.append(t.as_str());
                let m: u64 = if *b >= float::SIGN { *b - float::SIGN } else { *b };
                if m < float::INF && !has_point(t.as_str()) {
                    out.append(".0");
                    assert(out@ =~= old(out)@ + float_literal(*b));
                }
            }
        },
        Lit::Str(s) => {
            out.append("\"");
            print_escaped(out, s.as_str());
            out.append("\"");
        },
    }
}

pub(crate) fn print_type(out: &mut String, t: &Type)
    ensures
        final(out)@ == of_type(old(out)@, t@),
    decreases *t, 0int,
{
    match t {
        Type::Unknown => out.append("_"),
        Type::Error => out.append("<error>"),
        Type::Nil => out.append("nil"),
        Type::Bool => out.append("bool"),
        Type::I32 => out.append("i32"),
        Type::I64 => out.append("i64"),
        Type::F32 => out.append("f32"),
        Type::F64 => out.append("f64"),
        Type::Str => out.append("str"),
        Type::Entity => out.append("Entity"),
        Type::Query(x) => {
            out.append("Query<");
            print_type(out, x);
            out.append(">");
        },
        Type::Res(x) => {
            out.append("Res<");
            print_type(out, x);
            out.append(">");
        },
        Type::ResMut(x) => {
            out.append("ResMut<");
            print_type(out, x);
            out.append(">");
        },
        Type::Array(x) => {
            out.append("Array<");
            print_type(out, x);
            out.append(">");
        },
        Type::Dict(k, v) => {
            out.append("Map<");
            print_type(out, k);
            out.append(", ");
            print_type(out, v);
            out.append(">");
        },
        Type::Fn(ps, r) => {
            out.append("fn(");
            assert(decreases_to!(*ps => ps@));
            print_types(out, ps);
            out.append(") -> ");
            print_type(out, r);
        },
        Type::Struct(n) => out.append(n.as_str()),
    }
}

fn print_types(out: &mut String, ts: &Vec<Type>)
    ensures
        final(out)@ == of_types(old(out)@, ast::types_model(ts@), ts@.len() as int),
    decreases ts@, 0int,
{
    let ghost m = ast::types_model(ts@);
    let mut i: usize = 0;
    while i < ts.len()
        invariant
            i <= ts@.len(),
            m == ast::types_model(ts@),
            out@ == of_types(old(out)@, m, i as int),
        decreases ts.len() - i,
    {
        assert(decreases_to!(ts@ => ts@[i as int]));
        assert(m[i as int] == ts@[i as int]@);
        if i > 0 {
            out.append(", ");
        }
        print_type(out, &ts[i]);
        i += 1;
    }
}

} // verus!
