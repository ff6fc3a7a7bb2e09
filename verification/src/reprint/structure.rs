//! Printing shows the structure of a module and nothing else.

use super::{
    bare, bare_block, bare_decl, bare_expr, bare_exprs, bare_fields, bare_inits, bare_pairs, bare_params, bare_stmt,
    bare_stmts,
};
use crate::ast::{BlockModel, DeclModel, ExprKindModel, ExprModel, ModuleModel, ParamModel, StmtKindModel, StmtModel, TypeModel};
use crate::print;
use crate::source::Span;
use vstd::prelude::*;

verus! {

proof fn lemma_at_exprs(xs: Seq<ExprModel>, k: int, i: int)
    requires
        0 <= i < k <= xs.len(),
    ensures
        bare_exprs(xs, k).len() == k,
        bare_exprs(xs, k)[i] == bare_expr(xs[i]),
    decreases k,
{
    reveal(bare_exprs);
    reveal(bare_expr);
    lemma_len_exprs(xs, k - 1);
    if i < k - 1 {
        lemma_at_exprs(xs, k - 1, i);
    }
}

proof fn lemma_len_exprs(xs: Seq<ExprModel>, k: int)
    requires
        0 <= k <= xs.len(),
    ensures
        bare_exprs(xs, k).len() == k,
    decreases k,
{
    reveal(bare_exprs);
    reveal(bare_expr);
    if k > 0 {
        lemma_len_exprs(xs, k - 1);
    }
}

proof fn lemma_at_inits(xs: Seq<(Seq<char>, ExprModel)>, k: int, i: int)
    requires
        0 <= i < k <= xs.len(),
    ensures
        bare_inits(xs, k).len() == k,
        bare_inits(xs, k)[i] == (xs[i].0, bare_expr(xs[i].1)),
    decreases k,
{
    reveal(bare_inits);
    reveal(bare_expr);
    lemma_len_inits(xs, k - 1);
    if i < k - 1 {
        lemma_at_inits(xs, k - 1, i);
    }
}

proof fn lemma_len_inits(xs: Seq<(Seq<char>, ExprModel)>, k: int)
    requires
        0 <= k <= xs.len(),
    ensures
        bare_inits(xs, k).len() == k,
    decreases k,
{
    reveal(bare_inits);
    reveal(bare_expr);
    if k > 0 {
        lemma_len_inits(xs, k - 1);
    }
}

proof fn lemma_at_pairs(xs: Seq<(ExprModel, ExprModel)>, k: int, i: int)
    requires
        0 <= i < k <= xs.len(),
    ensures
        bare_pairs(xs, k).len() == k,
        bare_pairs(xs, k)[i] == (bare_expr(xs[i].0), bare_expr(xs[i].1)),
    decreases k,
{
    reveal(bare_pairs);
    reveal(bare_expr);
    lemma_len_pairs(xs, k - 1);
    if i < k - 1 {
        lemma_at_pairs(xs, k - 1, i);
    }
}

proof fn lemma_len_pairs(xs: Seq<(ExprModel, ExprModel)>, k: int)
    requires
        0 <= k <= xs.len(),
    ensures
        bare_pairs(xs, k).len() == k,
    decreases k,
{
    reveal(bare_pairs);
    reveal(bare_expr);
    if k > 0 {
        lemma_len_pairs(xs, k - 1);
    }
}

proof fn lemma_at_stmts(xs: Seq<StmtModel>, k: int, i: int)
    requires
        0 <= i < k <= xs.len(),
    ensures
        bare_stmts(xs, k).len() == k,
        bare_stmts(xs, k)[i] == bare_stmt(xs[i]),
    decreases k,
{
    reveal(bare_stmts);
    reveal(bare_stmt);
    lemma_len_stmts(xs, k - 1);
    if i < k - 1 {
        lemma_at_stmts(xs, k - 1, i);
    }
}

proof fn lemma_len_stmts(xs: Seq<StmtModel>, k: int)
    requires
        0 <= k <= xs.len(),
    ensures
        bare_stmts(xs, k).len() == k,
    decreases k,
{
    reveal(bare_stmts);
    reveal(bare_stmt);
    if k > 0 {
        lemma_len_stmts(xs, k - 1);
    }
}

proof fn lemma_same_params(out: Seq<char>, ps: Seq<ParamModel>, k: int)
    requires
        0 <= k <= ps.len(),
    ensures
        print::of_params(out, ps, k) == print::of_params(out, bare_params(ps), k),
    decreases k,
{
    if k > 0 {
        lemma_same_params(out, ps, k - 1);
    }
}

#[verifier::spinoff_prover]
proof fn lemma_same_operand(out: Seq<char>, e: ExprModel, wrap: bool)
    ensures
        print::of_operand(out, e, wrap) == print::of_operand(out, bare_expr(e), wrap),
    decreases e, 1int,
{
    if wrap {
        lemma_same_expr(out + "("@, e);
    } else {
        lemma_same_expr(out, e);
    }
}

/// What decides on parentheses is the same.
proof fn lemma_same_shape(e: ExprModel)
    ensures
        print::open_ended(e) == print::open_ended(bare_expr(e)),
        print::loose(e) == print::loose(bare_expr(e)),
        print::ends_in_type_name(e) == print::ends_in_type_name(bare_expr(e)),
    decreases e,
{
    reveal(bare_expr);
    reveal(bare_exprs);
    reveal(bare_inits);
    reveal(bare_pairs);
    reveal(bare_block);
    match e.kind {
        ExprKindModel::Unary(_, x) => {
            lemma_same_shape(*x.it);
        },
        ExprKindModel::Closure(_, b) => {
            lemma_same_shape(*b.it);
        },
        _ => {},
    }
}

#[verifier::spinoff_prover]
#[verifier::rlimit(60)]
proof fn lemma_same_expr(out: Seq<char>, e: ExprModel)
    ensures
        print::of_expr(out, e) == print::of_expr(out, bare_expr(e)),
    decreases e, 0int,
{
    reveal(bare_expr);
    reveal(bare_exprs);
    reveal(bare_inits);
    reveal(bare_pairs);
    reveal(bare_block);
    match e.kind {
        ExprKindModel::Binary(op, l, r) => {
            let w = print::open_ended(*l.it);
            lemma_same_shape(*l.it);
            lemma_same_operand(out + "("@, *l.it, w);
            lemma_same_expr(
                print::of_operand(out + "("@, *l.it, w) + " "@ + print::operator(op) + " "@,
                *r.it,
            );
        },
        ExprKindModel::Unary(op, x) => {
            if op == crate::ast::UnOp::Neg {
                lemma_same_expr(out + "-"@, *x.it);
            } else {
                lemma_same_expr(out + "!"@, *x.it);
            }
        },
        ExprKindModel::Call(c, args) => {
            let w = print::loose(*c.it);
            lemma_same_shape(*c.it);
            lemma_same_operand(out, *c.it, w);
            lemma_len_exprs(args, args.len() as int);
            lemma_same_exprs(print::of_operand(out, *c.it, w) + "("@, args, args.len() as int);
        },
        ExprKindModel::Field(x, n) => {
            lemma_same_shape(*x.it);
            lemma_same_operand(out, *x.it, print::loose(*x.it));
        },
        ExprKindModel::Index(x, i) => {
            let w = print::loose(*x.it);
            lemma_same_shape(*x.it);
            lemma_same_operand(out, *x.it, w);
            lemma_same_expr(print::of_operand(out, *x.it, w) + "["@, *i.it);
        },
        ExprKindModel::StructLit(n, fs) => {
            lemma_len_inits(fs, fs.len() as int);
            lemma_same_inits(out + n + " { "@, fs, fs.len() as int);
        },
        ExprKindModel::ArrayLit(es) => {
            lemma_len_exprs(es, es.len() as int);
            lemma_same_exprs(out + "["@, es, es.len() as int);
        },
        ExprKindModel::MapLit(ps) => {
            lemma_len_pairs(ps, ps.len() as int);
            if ps.len() == 0 {
                lemma_same_pairs(out + "[:"@, ps, 0);
            } else {
                lemma_same_pairs(out + "["@, ps, ps.len() as int);
            }
        },
        ExprKindModel::Closure(ps, b) => {
            let a = print::of_params(out + "|"@, ps, ps.len() as int);
            lemma_same_params(out + "|"@, ps, ps.len() as int);
            if ps.len() == 0 {
                lemma_same_expr(a + " | "@, *b.it);
            } else {
                lemma_same_expr(a + "| "@, *b.it);
            }
        },
        ExprKindModel::Block(b) => {
            lemma_same_block(out, *b.it);
        },
        ExprKindModel::If(c, yes, no) => {
            let w = print::ends_in_type_name(*c.it);
            let a = print::of_operand(out + "if "@, *c.it, w);
            lemma_same_shape(*c.it);
            lemma_same_operand(out + "if "@, *c.it, w);
            lemma_same_block(a + " "@, *yes.it);
            if let Some(b) = no {
                lemma_same_block(print::of_block(a + " "@, *yes.it) + " else "@, *b.it);
            }
        },
        _ => {},
    }
}

#[verifier::spinoff_prover]
proof fn lemma_same_exprs(out: Seq<char>, xs: Seq<ExprModel>, k: int)
    requires
        0 <= k <= xs.len(),
    ensures
        print::of_exprs(out, xs, k) == print::of_exprs(out, bare_exprs(xs, xs.len() as int), k),
    decreases xs, k,
{
    lemma_len_exprs(xs, xs.len() as int);
    if k > 0 {
        lemma_same_exprs(out, xs, k - 1);
        lemma_at_exprs(xs, xs.len() as int, k - 1);
        let a = print::of_exprs(out, xs, k - 1);
        lemma_same_expr(print::separated(a, k), xs[k - 1]);
    }
}

#[verifier::spinoff_prover]
proof fn lemma_same_inits(out: Seq<char>, xs: Seq<(Seq<char>, ExprModel)>, k: int)
    requires
        0 <= k <= xs.len(),
    ensures
        print::of_inits(out, xs, k) == print::of_inits(out, bare_inits(xs, xs.len() as int), k),
    decreases xs, k,
{
    lemma_len_inits(xs, xs.len() as int);
    if k > 0 {
        lemma_same_inits(out, xs, k - 1);
        lemma_at_inits(xs, xs.len() as int, k - 1);
        let a = print::of_inits(out, xs, k - 1);
        assert(decreases_to!(xs => xs[k - 1]));
        assert(decreases_to!(xs[k - 1] => xs[k - 1].1));
        lemma_same_expr(print::separated(a, k) + xs[k - 1].0 + ": "@, xs[k - 1].1);
    }
}

#[verifier::spinoff_prover]
proof fn lemma_same_pairs(out: Seq<char>, xs: Seq<(ExprModel, ExprModel)>, k: int)
    requires
        0 <= k <= xs.len(),
    ensures
        print::of_pairs(out, xs, k) == print::of_pairs(out, bare_pairs(xs, xs.len() as int), k),
    decreases xs, k,
{
    lemma_len_pairs(xs, xs.len() as int);
    if k > 0 {
        lemma_same_pairs(out, xs, k - 1);
        lemma_at_pairs(xs, xs.len() as int, k - 1);
        let a = print::of_pairs(out, xs, k - 1);
        assert(decreases_to!(xs => xs[k - 1]));
        assert(decreases_to!(xs[k - 1] => xs[k - 1].0));
        assert(decreases_to!(xs[k - 1] => xs[k - 1].1));
        let b = print::separated(a, k);
        lemma_same_expr(b, xs[k - 1].0);
        lemma_same_expr(print::of_expr(b, xs[k - 1].0) + " => "@, xs[k - 1].1);
    }
}

#[verifier::spinoff_prover]
proof fn lemma_same_stmts(out: Seq<char>, xs: Seq<StmtModel>, k: int)
    requires
        0 <= k <= xs.len(),
    ensures
        print::of_stmts(out, xs, k) == print::of_stmts(out, bare_stmts(xs, xs.len() as int), k),
    decreases xs, k,
{
    lemma_len_stmts(xs, xs.len() as int);
    if k > 0 {
        lemma_same_stmts(out, xs, k - 1);
        lemma_at_stmts(xs, xs.len() as int, k - 1);
        let a = print::of_stmts(out, xs, k - 1);
        lemma_same_stmt(a + "    "@, xs[k - 1]);
    }
}

#[verifier::spinoff_prover]
proof fn lemma_same_block(out: Seq<char>, b: BlockModel)
    ensures
        print::of_block(out, b) == print::of_block(out, bare_block(b)),
    decreases b, 0int,
{
    reveal(bare_block);
    let n = b.stmts.len() as int;
    let a = print::of_stmts(out + "{\n"@, b.stmts, n);
    lemma_len_stmts(b.stmts, n);
    lemma_same_stmts(out + "{\n"@, b.stmts, n);
    if let Some(t) = b.tail {
        lemma_same_expr(a + "    "@, t);
    }
}

#[verifier::spinoff_prover]
#[verifier::rlimit(40)]
proof fn lemma_same_stmt(out: Seq<char>, st: StmtModel)
    ensures
        print::of_stmt(out, st) == print::of_stmt(out, bare_stmt(st)),
    decreases st, 0int,
{
    reveal(bare_stmt);
    match st.kind {
        StmtKindModel::Let { name, ty, mutable, init } => {
            let head = out + "let "@ + (if mutable {
                "mut "@
            } else {
                ""@
            }) + name;
            let typed = if ty is Unknown {
                head
            } else {
                print::of_type(head + ": "@, ty)
            };
            lemma_same_expr(typed + " = "@, init);
        },
        StmtKindModel::Assign(p, v) => {
            lemma_same_expr(out, p);
            lemma_same_expr(print::of_expr(out, p) + " = "@, v);
        },
        StmtKindModel::Expr(e) => {
            lemma_same_expr(out, e);
        },
        StmtKindModel::Return(Some(v)) => {
            lemma_same_expr(out + "return"@ + " "@, v);
        },
        StmtKindModel::While(c, b) => {
            let w = print::ends_in_type_name(c);
            lemma_same_shape(c);
            assert(decreases_to!(st => c));
            lemma_same_operand(out + "while "@, c, w);
            lemma_same_block(print::of_operand(out + "while "@, c, w) + " "@, *b.it);
        },
        StmtKindModel::If(c, yes, no) => {
            let w = print::ends_in_type_name(c);
            let a = print::of_operand(out + "if "@, c, w);
            lemma_same_shape(c);
            assert(decreases_to!(st => c));
            lemma_same_operand(out + "if "@, c, w);
            lemma_same_block(a + " "@, *yes.it);
            if let Some(b) = no {
                lemma_same_block(print::of_block(a + " "@, *yes.it) + " else "@, *b.it);
            }
        },
        _ => {},
    }
}

proof fn lemma_same_fields(out: Seq<char>, fs: Seq<(Seq<char>, TypeModel, Span)>, k: int)
    requires
        0 <= k <= fs.len(),
    ensures
        print::of_fields(out, fs, k) == print::of_fields(out, bare_fields(fs), k),
    decreases k,
{
    if k > 0 {
        lemma_same_fields(out, fs, k - 1);
    }
}

proof fn lemma_same_decl(out: Seq<char>, d: DeclModel)
    ensures
        print::of_decl(out, d) == print::of_decl(out, bare_decl(d)),
{
    match d {
        DeclModel::Fn(f) => {
            let a = out + "fn "@ + f.name + "("@;
            let n = f.params.len() as int;
            lemma_same_params(a, f.params, n);
            let head = print::of_params(a, f.params, n) + ")"@;
            let typed = if f.ret is Nil {
                head
            } else {
                print::of_type(head + " -> "@, f.ret)
            };
            lemma_same_block(typed + " "@, f.body);
        },
        DeclModel::Struct(s) => {
            lemma_same_fields(out + "struct "@ + s.name + " {\n"@, s.fields, s.fields.len() as int);
        },
        DeclModel::Const(c) => {
            lemma_same_expr(print::of_type(out + "const "@ + c.name + ": "@, c.ty) + " = "@, c.init);
        },
    }
}

proof fn lemma_same_decls(a: Seq<DeclModel>, b: Seq<DeclModel>, k: int)
    requires
        0 <= k <= a.len(),
        k <= b.len(),
        forall|i: int| 0 <= i < k ==> bare_decl(#[trigger] a[i]) == bare_decl(b[i]),
    ensures
        print::of_decls(a, k) == print::of_decls(b, k),
    decreases k,
{
    if k > 0 {
        lemma_same_decls(a, b, k - 1);
        assert(bare_decl(a[k - 1]) == bare_decl(b[k - 1]));
        lemma_same_decl(print::of_decls(a, k - 1), a[k - 1]);
        lemma_same_decl(print::of_decls(a, k - 1), b[k - 1]);
    }
}

/// Modules of one structure print alike.
pub proof fn law_print_shows_structure(a: ModuleModel, b: ModuleModel)
    requires
        bare(a) == bare(b),
    ensures
        print::printed(a) == print::printed(b),
{
    let n = a.decls.len() as int;
    assert(bare(a).len() == n && bare(b).len() == b.decls.len());
    assert forall|i: int| 0 <= i < n implies bare_decl(#[trigger] a.decls[i]) == bare_decl(b.decls[i]) by {
        assert(bare(a)[i] == bare_decl(a.decls[i]));
        assert(bare(b)[i] == bare_decl(b.decls[i]));
    }
    lemma_same_decls(a.decls, b.decls, n);
}

} // verus!
