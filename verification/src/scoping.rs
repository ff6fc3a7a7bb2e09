//! Which names a program reads, and what follows from it: what closures capture, which
//! programs resolve, and which expressions may be watched.

use crate::ast::{BlockModel, DeclModel, ExprKindModel, ExprModel, ParamModel, StmtKindModel, StmtModel};
use crate::codegen;
use crate::diag;
use crate::diag::{DiagnosticModel, Severity};
use crate::resolve;
use crate::resolve::Sym;
use crate::watch_expr;
use vstd::prelude::*;

verus! {

// --- reading ------------------------------------------------------------------------------

/// Whether a parameter has a name.
pub open spec fn is_param(ps: Seq<ParamModel>, n: Seq<char>) -> bool {
    exists|i: int| 0 <= i < ps.len() && (#[trigger] ps[i]).name == n
}

/// Whether one of the first `k` statements is a `let` of a name.
pub open spec fn let_before(ss: Seq<StmtModel>, k: int, n: Seq<char>) -> bool {
    exists|i: int| 0 <= i < k && lets(#[trigger] ss[i], n)
}

/// Whether a statement is a `let` of a name.
pub open spec fn lets(s: StmtModel, n: Seq<char>) -> bool {
    s.kind is Let && s.kind->Let_name == n
}

/// Whether a name is read in an expression, as bound outside of it.
#[verifier::opaque]
pub open spec fn reads(e: ExprModel, n: Seq<char>) -> bool
    decreases e, 0int,
{
    match e.kind {
        ExprKindModel::Lit(_) => false,
        ExprKindModel::Ident(m) => m == n,
        ExprKindModel::Binary(_, x, y) => reads(*x.it, n) || reads(*y.it, n),
        ExprKindModel::Unary(_, x) => reads(*x.it, n),
        ExprKindModel::Call(c, args) => reads(*c.it, n) || reads_exprs(args, args.len() as int, n),
        ExprKindModel::Field(x, _) => reads(*x.it, n),
        ExprKindModel::Index(x, i) => reads(*x.it, n) || reads(*i.it, n),
        ExprKindModel::StructLit(_, fs) => reads_inits(fs, fs.len() as int, n),
        ExprKindModel::ArrayLit(es) => reads_exprs(es, es.len() as int, n),
        ExprKindModel::MapLit(ps) => reads_pairs(ps, ps.len() as int, n),
        ExprKindModel::Closure(ps, b) => !is_param(ps, n) && reads(*b.it, n),
        ExprKindModel::Block(b) => reads_block(*b.it, n),
        ExprKindModel::If(c, a, b) => reads(*c.it, n) || reads_block(*a.it, n) || match b {
            Some(z) => reads_block(*z.it, n),
            None => false,
        },
    }
}

/// The same of one of the first `k` expressions.
#[verifier::opaque]
pub open spec fn reads_exprs(es: Seq<ExprModel>, k: int, n: Seq<char>) -> bool
    decreases es, k,
{
    0 < k <= es.len() && (reads_exprs(es, k - 1, n) || reads(es[k - 1], n))
}

/// The same of one of the first `k` initializers.
#[verifier::opaque]
pub open spec fn reads_inits(fs: Seq<(Seq<char>, ExprModel)>, k: int, n: Seq<char>) -> bool
    decreases fs, k,
{
    0 < k <= fs.len() && (reads_inits(fs, k - 1, n) || reads(fs[k - 1].1, n))
}

/// The same of one of the first `k` entries.
#[verifier::opaque]
pub open spec fn reads_pairs(ps: Seq<(ExprModel, ExprModel)>, k: int, n: Seq<char>) -> bool
    decreases ps, k,
{
    0 < k <= ps.len() && (reads_pairs(ps, k - 1, n) || reads(ps[k - 1].0, n) || reads(ps[k - 1].1, n))
}

/// The same of a block.
#[verifier::opaque]
pub open spec fn reads_block(b: BlockModel, n: Seq<char>) -> bool
    decreases b, 0int,
{
    reads_stmts(b.stmts, b.stmts.len() as int, n) || match b.tail {
        Some(t) => !let_before(b.stmts, b.stmts.len() as int, n) && reads(t, n),
        None => false,
    }
}

/// The same of one of the first `k` statements.
#[verifier::opaque]
pub open spec fn reads_stmts(ss: Seq<StmtModel>, k: int, n: Seq<char>) -> bool
    decreases ss, k,
{
    0 < k <= ss.len() && (reads_stmts(ss, k - 1, n) || (!let_before(ss, k - 1, n) && reads_stmt(ss[k - 1], n)))
}

/// The same of a statement.
#[verifier::opaque]
pub open spec fn reads_stmt(s: StmtModel, n: Seq<char>) -> bool
    decreases s, 0int,
{
    match s.kind {
        StmtKindModel::Let { init, .. } => reads(init, n),
        StmtKindModel::Assign(x, y) => reads(x, n) || reads(y, n),
        StmtKindModel::Expr(e) => reads(e, n),
        StmtKindModel::Return(Some(e)) => reads(e, n),
        StmtKindModel::Return(None) => false,
        StmtKindModel::While(c, b) => reads(c, n) || reads_block(*b.it, n),
        StmtKindModel::If(c, a, b) => reads(c, n) || reads_block(*a.it, n) || match b {
            Some(z) => reads_block(*z.it, n),
            None => false,
        },
        StmtKindModel::Break | StmtKindModel::Continue => false,
    }
}

/// Whether an expression of one sort, or a statement of another, occurs in an expression.
#[verifier::opaque]
pub open spec fn occurs(e: ExprModel, p: spec_fn(ExprModel) -> bool, q: spec_fn(StmtModel) -> bool) -> bool
    decreases e, 0int,
{
    p(e) || match e.kind {
        ExprKindModel::Lit(_) => false,
        ExprKindModel::Ident(m) => false,
        ExprKindModel::Binary(_, x, y) => occurs(*x.it, p, q) || occurs(*y.it, p, q),
        ExprKindModel::Unary(_, x) => occurs(*x.it, p, q),
        ExprKindModel::Call(c, args) => occurs(*c.it, p, q) || occurs_exprs(args, args.len() as int, p, q),
        ExprKindModel::Field(x, _) => occurs(*x.it, p, q),
        ExprKindModel::Index(x, i) => occurs(*x.it, p, q) || occurs(*i.it, p, q),
        ExprKindModel::StructLit(_, fs) => occurs_inits(fs, fs.len() as int, p, q),
        ExprKindModel::ArrayLit(es) => occurs_exprs(es, es.len() as int, p, q),
        ExprKindModel::MapLit(ps) => occurs_pairs(ps, ps.len() as int, p, q),
        ExprKindModel::Closure(ps, b) => occurs(*b.it, p, q),
        ExprKindModel::Block(b) => occurs_block(*b.it, p, q),
        ExprKindModel::If(c, a, b) => occurs(*c.it, p, q) || occurs_block(*a.it, p, q) || match b {
            Some(z) => occurs_block(*z.it, p, q),
            None => false,
        },
    }
}

/// The same of one of the first `k` expressions.
#[verifier::opaque]
pub open spec fn occurs_exprs(es: Seq<ExprModel>, k: int, p: spec_fn(ExprModel) -> bool, q: spec_fn(StmtModel) -> bool) -> bool
    decreases es, k,
{
    0 < k <= es.len() && (occurs_exprs(es, k - 1, p, q) || occurs(es[k - 1], p, q))
}

/// The same of one of the first `k` initializers.
#[verifier::opaque]
pub open spec fn occurs_inits(fs: Seq<(Seq<char>, ExprModel)>, k: int, p: spec_fn(ExprModel) -> bool, q: spec_fn(StmtModel) -> bool) -> bool
    decreases fs, k,
{
    0 < k <= fs.len() && (occurs_inits(fs, k - 1, p, q) || occurs(fs[k - 1].1, p, q))
}

/// The same of one of the first `k` entries.
#[verifier::opaque]
pub open spec fn occurs_pairs(ps: Seq<(ExprModel, ExprModel)>, k: int, p: spec_fn(ExprModel) -> bool, q: spec_fn(StmtModel) -> bool) -> bool
    decreases ps, k,
{
    0 < k <= ps.len() && (occurs_pairs(ps, k - 1, p, q) || occurs(ps[k - 1].0, p, q) || occurs(ps[k - 1].1, p, q))
}

/// The same of a block.
#[verifier::opaque]
pub open spec fn occurs_block(b: BlockModel, p: spec_fn(ExprModel) -> bool, q: spec_fn(StmtModel) -> bool) -> bool
    decreases b, 0int,
{
    occurs_stmts(b.stmts, b.stmts.len() as int, p, q) || match b.tail {
        Some(t) => occurs(t, p, q),
        None => false,
    }
}

/// The same of one of the first `k` statements.
#[verifier::opaque]
pub open spec fn occurs_stmts(ss: Seq<StmtModel>, k: int, p: spec_fn(ExprModel) -> bool, q: spec_fn(StmtModel) -> bool) -> bool
    decreases ss, k,
{
    0 < k <= ss.len() && (occurs_stmts(ss, k - 1, p, q) || occurs_stmt(ss[k - 1], p, q))
}

/// The same of a statement.
#[verifier::opaque]
pub open spec fn occurs_stmt(s: StmtModel, p: spec_fn(ExprModel) -> bool, q: spec_fn(StmtModel) -> bool) -> bool
    decreases s, 0int,
{
    q(s) || match s.kind {
        StmtKindModel::Let { init, .. } => occurs(init, p, q),
        StmtKindModel::Assign(x, y) => occurs(x, p, q) || occurs(y, p, q),
        StmtKindModel::Expr(e) => occurs(e, p, q),
        StmtKindModel::Return(Some(e)) => occurs(e, p, q),
        StmtKindModel::Return(None) => false,
        StmtKindModel::While(c, b) => occurs(c, p, q) || occurs_block(*b.it, p, q),
        StmtKindModel::If(c, a, b) => occurs(c, p, q) || occurs_block(*a.it, p, q) || match b {
            Some(z) => occurs_block(*z.it, p, q),
            None => false,
        },
        StmtKindModel::Break | StmtKindModel::Continue => false,
    }
}

// --- what closures capture -----------------------------------------------------------------

proof fn lemma_noted(m: Seq<char>, bound: Seq<Seq<char>>, out: Seq<Seq<char>>, n: Seq<char>)
    ensures
        codegen::noted(m, bound, out).contains(n) <==> out.contains(n) || (!bound.contains(n) && m == n),
        out.no_duplicates() ==> codegen::noted(m, bound, out).no_duplicates(),
{
    if !bound.contains(m) && !out.contains(m) {
        lemma_pushed(out, m, n);
    }
}

proof fn lemma_captured_params(bound: Seq<Seq<char>>, ps: Seq<ParamModel>, k: int, n: Seq<char>)
    requires
        0 <= k <= ps.len(),
    ensures
        codegen::with_params(bound, ps, k).contains(n) <==> bound.contains(n) || is_param(ps.take(k), n),
    decreases k,
{
    if k > 0 {
        lemma_captured_params(bound, ps, k - 1, n);
        lemma_param_more(ps, k, n);
        lemma_pushed(codegen::with_params(bound, ps, k - 1), ps[k - 1].name, n);
    }
}

proof fn lemma_param_more(ps: Seq<ParamModel>, k: int, n: Seq<char>)
    requires
        0 < k <= ps.len(),
    ensures
        is_param(ps.take(k), n) <==> is_param(ps.take(k - 1), n) || ps[k - 1].name == n,
{
    let a = ps.take(k - 1);
    let b = ps.take(k);
    if is_param(a, n) {
        let i = choose|i: int| 0 <= i < a.len() && (#[trigger] a[i]).name == n;
        assert(b[i].name == n);
    }
    if is_param(b, n) {
        let i = choose|i: int| 0 <= i < b.len() && (#[trigger] b[i]).name == n;
        if i < k - 1 {
            assert(a[i].name == n);
        }
    }
    assert(b[k - 1] == ps[k - 1]);
}

proof fn lemma_pushed(s: Seq<Seq<char>>, m: Seq<char>, n: Seq<char>)
    ensures
        s.push(m).contains(n) <==> s.contains(n) || m == n,
{
    if s.contains(n) {
        let i = choose|i: int| 0 <= i < s.len() && s[i] == n;
        assert(s.push(m)[i] == n);
    }
    assert(s.push(m)[s.len() as int] == m);
}

proof fn lemma_let_more(ss: Seq<StmtModel>, k: int, n: Seq<char>)
    requires
        0 < k <= ss.len(),
    ensures
        let_before(ss, k, n) <==> let_before(ss, k - 1, n) || lets(ss[k - 1], n),
{
    if let_before(ss, k - 1, n) {
        let i = choose|i: int| 0 <= i < k - 1 && lets(#[trigger] ss[i], n);
        assert(0 <= i < k && lets(ss[i], n));
    }
}

proof fn lemma_bound_by(ss: Seq<StmtModel>, k: int, bound: Seq<Seq<char>>, n: Seq<char>)
    requires
        0 <= k <= ss.len(),
    ensures
        codegen::bound_by(ss, k, bound).contains(n) <==> bound.contains(n) || let_before(ss, k, n),
    decreases k,
{
    if k > 0 {
        lemma_bound_by(ss, k - 1, bound, n);
        lemma_let_more(ss, k, n);
        if let StmtKindModel::Let { name, .. } = ss[k - 1].kind {
            lemma_pushed(codegen::bound_by(ss, k - 1, bound), name, n);
        }
    }
}

proof fn lemma_fv_expr(e: ExprModel, bound: Seq<Seq<char>>, out: Seq<Seq<char>>, n: Seq<char>)
    ensures
        codegen::fv_expr(e, bound, out).contains(n) <==> out.contains(n) || (!bound.contains(n) && reads(e, n)),
        out.no_duplicates() ==> codegen::fv_expr(e, bound, out).no_duplicates(),
    decreases e, 0int,
{
    reveal(codegen::fv_expr);
    reveal(codegen::fv_exprs);
    reveal(codegen::fv_inits);
    reveal(codegen::fv_pairs);
    reveal(codegen::fv_block);
    reveal(reads);
    reveal(reads_exprs);
    reveal(reads_inits);
    reveal(reads_pairs);
    reveal(reads_block);
    match e.kind {
        ExprKindModel::Lit(_) => {},
        ExprKindModel::Ident(m) => {
            lemma_noted(m, bound, out, n);
        },
        ExprKindModel::Binary(_, x, y) => {
            lemma_fv_expr(*x.it, bound, out, n);
            lemma_fv_expr(*y.it, bound, codegen::fv_expr(*x.it, bound, out), n);
        },
        ExprKindModel::Unary(_, x) => {
            lemma_fv_expr(*x.it, bound, out, n);
        },
        ExprKindModel::Call(c, args) => {
            lemma_fv_expr(*c.it, bound, out, n);
            lemma_fv_exprs(args, args.len() as int, bound, codegen::fv_expr(*c.it, bound, out), n);
        },
        ExprKindModel::Field(x, _) => {
            lemma_fv_expr(*x.it, bound, out, n);
        },
        ExprKindModel::Index(x, i) => {
            lemma_fv_expr(*x.it, bound, out, n);
            lemma_fv_expr(*i.it, bound, codegen::fv_expr(*x.it, bound, out), n);
        },
        ExprKindModel::StructLit(m, fs) => {
            lemma_fv_inits(fs, fs.len() as int, bound, out, n);
        },
        ExprKindModel::ArrayLit(es) => {
            lemma_fv_exprs(es, es.len() as int, bound, out, n);
        },
        ExprKindModel::MapLit(ps) => {
            lemma_fv_pairs(ps, ps.len() as int, bound, out, n);
        },
        ExprKindModel::Closure(ps, b) => {
            lemma_captured_params(bound, ps, ps.len() as int, n);
            assert(ps.take(ps.len() as int) =~= ps);
            lemma_fv_expr(*b.it, codegen::with_params(bound, ps, ps.len() as int), out, n);
        },
        ExprKindModel::Block(b) => {
            lemma_fv_block(*b.it, bound, out, n);
        },
        ExprKindModel::If(c, a, b) => {
            lemma_fv_expr(*c.it, bound, out, n);
            let d1 = codegen::fv_expr(*c.it, bound, out);
            lemma_fv_block(*a.it, bound, d1, n);
            if let Some(z) = b {
                lemma_fv_block(*z.it, bound, codegen::fv_block(*a.it, bound, d1), n);
            }
        },
    }
}

proof fn lemma_fv_exprs(es: Seq<ExprModel>, k: int, bound: Seq<Seq<char>>, out: Seq<Seq<char>>, n: Seq<char>)
    ensures
        codegen::fv_exprs(es, k, bound, out).contains(n) <==> out.contains(n) || (!bound.contains(n) && reads_exprs(es, k, n)),
        out.no_duplicates() ==> codegen::fv_exprs(es, k, bound, out).no_duplicates(),
    decreases es, k,
{
    reveal(codegen::fv_exprs);
    reveal(codegen::fv_expr);
    reveal(reads_exprs);
    reveal(reads);
    if 0 < k <= es.len() {
        lemma_fv_exprs(es, k - 1, bound, out, n);
        lemma_fv_expr(es[k - 1], bound, codegen::fv_exprs(es, k - 1, bound, out), n);
    }
}

proof fn lemma_fv_inits(fs: Seq<(Seq<char>, ExprModel)>, k: int, bound: Seq<Seq<char>>, out: Seq<Seq<char>>, n: Seq<char>)
    ensures
        codegen::fv_inits(fs, k, bound, out).contains(n) <==> out.contains(n) || (!bound.contains(n) && reads_inits(fs, k, n)),
        out.no_duplicates() ==> codegen::fv_inits(fs, k, bound, out).no_duplicates(),
    decreases fs, k,
{
    reveal(codegen::fv_inits);
    reveal(codegen::fv_expr);
    reveal(reads_inits);
    reveal(reads);
    if 0 < k <= fs.len() {
        assert(decreases_to!(fs => fs[k - 1]));
        assert(decreases_to!(fs[k - 1] => fs[k - 1].1));
        lemma_fv_inits(fs, k - 1, bound, out, n);
        lemma_fv_expr(fs[k - 1].1, bound, codegen::fv_inits(fs, k - 1, bound, out), n);
    }
}

proof fn lemma_fv_pairs(ps: Seq<(ExprModel, ExprModel)>, k: int, bound: Seq<Seq<char>>, out: Seq<Seq<char>>, n: Seq<char>)
    ensures
        codegen::fv_pairs(ps, k, bound, out).contains(n) <==> out.contains(n) || (!bound.contains(n) && reads_pairs(ps, k, n)),
        out.no_duplicates() ==> codegen::fv_pairs(ps, k, bound, out).no_duplicates(),
    decreases ps, k,
{
    reveal(codegen::fv_pairs);
    reveal(codegen::fv_expr);
    reveal(reads_pairs);
    reveal(reads);
    if 0 < k <= ps.len() {
        assert(decreases_to!(ps => ps[k - 1]));
        assert(decreases_to!(ps[k - 1] => ps[k - 1].0));
        assert(decreases_to!(ps[k - 1] => ps[k - 1].1));
        lemma_fv_pairs(ps, k - 1, bound, out, n);
        lemma_fv_expr(ps[k - 1].0, bound, codegen::fv_pairs(ps, k - 1, bound, out), n);
        lemma_fv_expr(ps[k - 1].1, bound, codegen::fv_expr(ps[k - 1].0, bound, codegen::fv_pairs(ps, k - 1, bound, out)), n);
    }
}

proof fn lemma_fv_block(b: BlockModel, bound: Seq<Seq<char>>, out: Seq<Seq<char>>, n: Seq<char>)
    ensures
        codegen::fv_block(b, bound, out).contains(n) <==> out.contains(n) || (!bound.contains(n) && reads_block(b, n)),
        out.no_duplicates() ==> codegen::fv_block(b, bound, out).no_duplicates(),
    decreases b, 0int,
{
    reveal(codegen::fv_block);
    reveal(codegen::fv_stmts);
    reveal(codegen::fv_expr);
    reveal(reads_block);
    reveal(reads_stmts);
    reveal(reads);
    let k = b.stmts.len() as int;
    lemma_fv_stmts(b.stmts, k, bound, out, n);
    lemma_bound_by(b.stmts, k, bound, n);
    if let Some(t) = b.tail {
        lemma_fv_expr(t, codegen::bound_by(b.stmts, k, bound), codegen::fv_stmts(b.stmts, k, bound, out), n);
    }
}

proof fn lemma_fv_stmts(ss: Seq<StmtModel>, k: int, bound: Seq<Seq<char>>, out: Seq<Seq<char>>, n: Seq<char>)
    ensures
        codegen::fv_stmts(ss, k, bound, out).contains(n) <==> out.contains(n) || (!bound.contains(n) && reads_stmts(ss, k, n)),
        out.no_duplicates() ==> codegen::fv_stmts(ss, k, bound, out).no_duplicates(),
    decreases ss, k,
{
    reveal(codegen::fv_stmts);
    reveal(codegen::fv_stmt);
    reveal(reads_stmts);
    reveal(reads_stmt);
    if 0 < k <= ss.len() {
        lemma_fv_stmts(ss, k - 1, bound, out, n);
        lemma_bound_by(ss, k - 1, bound, n);
        lemma_fv_stmt(ss[k - 1], codegen::bound_by(ss, k - 1, bound), codegen::fv_stmts(ss, k - 1, bound, out), n);
    }
}

proof fn lemma_fv_stmt(s: StmtModel, bound: Seq<Seq<char>>, out: Seq<Seq<char>>, n: Seq<char>)
    ensures
        codegen::fv_stmt(s, bound, out).contains(n) <==> out.contains(n) || (!bound.contains(n) && reads_stmt(s, n)),
        out.no_duplicates() ==> codegen::fv_stmt(s, bound, out).no_duplicates(),
    decreases s, 0int,
{
    reveal(codegen::fv_stmt);
    reveal(codegen::fv_expr);
    reveal(codegen::fv_block);
    reveal(reads_stmt);
    reveal(reads);
    reveal(reads_block);
    match s.kind {
        StmtKindModel::Let { init, .. } => {
            lemma_fv_expr(init, bound, out, n);
        },
        StmtKindModel::Assign(p, v) => {
            lemma_fv_expr(p, bound, out, n);
            lemma_fv_expr(v, bound, codegen::fv_expr(p, bound, out), n);
        },
        StmtKindModel::Expr(e) => {
            lemma_fv_expr(e, bound, out, n);
        },
        StmtKindModel::Return(Some(e)) => {
            lemma_fv_expr(e, bound, out, n);
        },
        StmtKindModel::While(c, b) => {
            lemma_fv_expr(c, bound, out, n);
            lemma_fv_block(*b.it, bound, codegen::fv_expr(c, bound, out), n);
        },
        StmtKindModel::If(c, a, b) => {
            lemma_fv_expr(c, bound, out, n);
            let d1 = codegen::fv_expr(c, bound, out);
            lemma_fv_block(*a.it, bound, d1, n);
            if let Some(z) = b {
                lemma_fv_block(*z.it, bound, codegen::fv_block(*a.it, bound, d1), n);
            }
        },
        _ => {},
    }
}

/// A closure captures exactly the names that its body reads and that are not its parameters,
/// each once.
pub proof fn law_closures_capture_what_they_read(body: ExprModel, ps: Seq<ParamModel>, n: Seq<char>)
    ensures
        codegen::free_vars(body, ps).contains(n) <==> reads(body, n) && !is_param(ps, n),
        codegen::free_vars(body, ps).no_duplicates(),
{
    let none = Seq::<Seq<char>>::empty();
    lemma_captured_params(none, ps, ps.len() as int, n);
    assert(ps.take(ps.len() as int) =~= ps);
    lemma_fv_expr(body, codegen::with_params(none, ps, ps.len() as int), none, n);
}

// --- what resolves ---------------------------------------------------------------------------

/// The complaint about a name that nothing is bound to.
pub open spec fn no_name(n: Seq<char>) -> Seq<char> {
    "undefined name `"@ + n + "`"@
}

/// The complaint about a struct that is not declared.
pub open spec fn no_struct(n: Seq<char>) -> Seq<char> {
    "undefined struct `"@ + n + "`"@
}

/// Whether a diagnostic is an error with a message.
pub open spec fn tells(x: DiagnosticModel, m: Seq<char>) -> bool {
    x.severity == Severity::Error && x.message == m
}

/// Whether an error with a message is among some diagnostics.
pub open spec fn told(d: Seq<DiagnosticModel>, m: Seq<char>) -> bool {
    exists|i: int| 0 <= i < d.len() && tells(#[trigger] d[i], m)
}

/// Whether a struct is written down by name.
pub open spec fn makes(n: Seq<char>) -> spec_fn(ExprModel) -> bool {
    |e: ExprModel| e.kind is StructLit && e.kind->StructLit_0 == n
}

/// No statement.
pub open spec fn no_stmt() -> spec_fn(StmtModel) -> bool {
    |s: StmtModel| false
}

/// Whether a name is that of a declared struct.
pub open spec fn is_struct(g: Map<Seq<char>, Sym>, n: Seq<char>) -> bool {
    g.dom().contains(n) && g[n] == Sym::Struct
}

/// Whether all of the diagnostics from the `i`th on are complaints about names.
pub open spec fn about_names(d: Seq<DiagnosticModel>, i: int) -> bool {
    forall|j: int| i <= j < d.len() ==> about_a_name(#[trigger] d[j])
}

/// Whether a diagnostic is a complaint about some name.
pub open spec fn about_a_name(x: DiagnosticModel) -> bool {
    x.severity == Severity::Error && exists|n: Seq<char>| #[trigger] names(x.message, n)
}

/// Whether a message is a complaint about a name.
pub open spec fn names(m: Seq<char>, n: Seq<char>) -> bool {
    m == no_name(n) || m == no_struct(n)
}

proof fn lemma_told_apart(m: Seq<char>, n: Seq<char>)
    ensures
        no_name(m) == no_name(n) ==> m == n,
        no_struct(m) == no_struct(n) ==> m == n,
        no_name(m) != no_struct(n),
{
    reveal_strlit("undefined name `");
    reveal_strlit("undefined struct `");
    reveal_strlit("`");
    let a = "undefined name `"@;
    let b = "undefined struct `"@;
    if no_name(m) == no_name(n) {
        assert(no_name(m).len() == 16 + m.len() + 1);
        assert(no_name(m).subrange(16, (16 + m.len()) as int) =~= m);
        assert(no_name(n).subrange(16, (16 + n.len()) as int) =~= n);
    }
    if no_struct(m) == no_struct(n) {
        assert(no_struct(m).len() == 18 + m.len() + 1);
        assert(no_struct(m).subrange(18, (18 + m.len()) as int) =~= m);
        assert(no_struct(n).subrange(18, (18 + n.len()) as int) =~= n);
    }
    assert(no_name(m)[10] == a[10]);
    assert(no_struct(n)[10] == b[10]);
}

/// What one more complaint adds.
proof fn lemma_complaint(d: Seq<DiagnosticModel>, x: DiagnosticModel, m: Seq<char>, n: Seq<char>)
    requires
        x.severity == Severity::Error,
        x.message == no_name(m) || x.message == no_struct(m),
    ensures
        told(d.push(x), no_name(n)) <==> told(d, no_name(n)) || (x.message == no_name(m) && m == n),
        told(d.push(x), no_struct(n)) <==> told(d, no_struct(n)) || (x.message == no_struct(m) && m == n),
        grown(d, d.push(x)),
        no_name(m) != no_struct(m),
{
    reveal(grown);
    lemma_told_apart(m, n);
    lemma_told_apart(n, m);
    lemma_told_apart(m, m);
    let t = d.push(x);
    assert(t[d.len() as int] == x);
    assert forall|y: Seq<char>| told(d, y) implies told(t, y) by {
        let i = choose|i: int| 0 <= i < d.len() && tells(#[trigger] d[i], y);
        assert(tells(t[i], y));
    }
    assert(names(x.message, m));
    assert(about_a_name(x));
    assert(t.take(d.len() as int) =~= d);
}

/// Whether diagnostics go on with complaints about names.
#[verifier::opaque]
pub open spec fn grown(d: Seq<DiagnosticModel>, t: Seq<DiagnosticModel>) -> bool {
    &&& d.len() <= t.len()
    &&& t.take(d.len() as int) == d
    &&& about_names(t, d.len() as int)
}

proof fn lemma_grown_same(d: Seq<DiagnosticModel>)
    ensures
        grown(d, d),
{
    reveal(grown);
    assert(d.take(d.len() as int) =~= d);
}

proof fn lemma_grown_then(a: Seq<DiagnosticModel>, b: Seq<DiagnosticModel>, c: Seq<DiagnosticModel>)
    requires
        grown(a, b),
        grown(b, c),
    ensures
        grown(a, c),
{
    reveal(grown);
    assert(c.take(a.len() as int) =~= b.take(a.len() as int)) by {
        assert forall|i: int| 0 <= i < a.len() implies c[i] == b[i] by {
            assert(c.take(b.len() as int)[i] == b[i]);
        }
    }
    assert forall|j: int| a.len() <= j < c.len() implies about_a_name(#[trigger] c[j]) by {
        if j < b.len() {
            assert(c.take(b.len() as int)[j] == b[j]);
            assert(about_a_name(b[j]));
        }
    }
}

/// What is told once an expression was looked at.
spec fn looked_at(
    d: Seq<DiagnosticModel>,
    t: Seq<DiagnosticModel>,
    env: Seq<Seq<char>>,
    g: Map<Seq<char>, Sym>,
    n: Seq<char>,
    read: bool,
    made: bool,
) -> bool {
    &&& told(t, no_name(n)) <==> told(d, no_name(n)) || (read && !env.contains(n) && !g.dom().contains(n))
    &&& told(t, no_struct(n)) <==> told(d, no_struct(n)) || (made && !is_struct(g, n))
    &&& grown(d, t)
}

proof fn lemma_scope_params(env: Seq<Seq<char>>, ps: Seq<ParamModel>, k: int, n: Seq<char>)
    requires
        0 <= k <= ps.len(),
    ensures
        resolve::with_params(env, ps, k).contains(n) <==> env.contains(n) || is_param(ps.take(k), n),
    decreases k,
{
    if k > 0 {
        lemma_scope_params(env, ps, k - 1, n);
        lemma_param_more(ps, k, n);
        lemma_pushed(resolve::with_params(env, ps, k - 1), ps[k - 1].name, n);
    }
}

proof fn lemma_scope_lets(ss: Seq<StmtModel>, k: int, env: Seq<Seq<char>>, n: Seq<char>)
    requires
        0 <= k <= ss.len(),
    ensures
        resolve::bound(ss, k, env).contains(n) <==> env.contains(n) || let_before(ss, k, n),
    decreases k,
{
    if k > 0 {
        lemma_scope_lets(ss, k - 1, env, n);
        lemma_let_more(ss, k, n);
        if let StmtKindModel::Let { name, .. } = ss[k - 1].kind {
            lemma_pushed(resolve::bound(ss, k - 1, env), name, n);
        }
    }
}

proof fn lemma_grown_chain()
    ensures
        forall|a: Seq<DiagnosticModel>, b: Seq<DiagnosticModel>, c: Seq<DiagnosticModel>|
            #[trigger] grown(a, b) && #[trigger] grown(b, c) ==> grown(a, c),
{
    assert forall|a: Seq<DiagnosticModel>, b: Seq<DiagnosticModel>, c: Seq<DiagnosticModel>|
        #[trigger] grown(a, b) && #[trigger] grown(b, c) implies grown(a, c) by {
        lemma_grown_then(a, b, c);
    }
}

proof fn lemma_in_expr(e: ExprModel, env: Seq<Seq<char>>, g: Map<Seq<char>, Sym>, d: Seq<DiagnosticModel>, n: Seq<char>)
    ensures
        looked_at(d, resolve::in_expr(e, env, g, d), env, g, n, reads(e, n), occurs(e, makes(n), no_stmt())),
    decreases e, 0int,
{
    lemma_grown_same(d);
    lemma_grown_chain();
    reveal(reads);
    reveal(reads_exprs);
    reveal(reads_inits);
    reveal(reads_pairs);
    reveal(reads_block);
    reveal(occurs);
    reveal(occurs_exprs);
    reveal(occurs_inits);
    reveal(occurs_pairs);
    reveal(occurs_block);
    match e.kind {
        ExprKindModel::Lit(_) => {},
        ExprKindModel::Ident(m) => {
            if !env.contains(m) && !g.dom().contains(m) {
                lemma_complaint(d, diag::error_at(e.span, no_name(m)), m, n);
            }
        },
        ExprKindModel::Binary(_, x, y) => {
            lemma_in_expr(*x.it, env, g, d, n);
            lemma_in_expr(*y.it, env, g, resolve::in_expr(*x.it, env, g, d), n);
        },
        ExprKindModel::Unary(_, x) => {
            lemma_in_expr(*x.it, env, g, d, n);
        },
        ExprKindModel::Call(c, args) => {
            lemma_in_expr(*c.it, env, g, d, n);
            lemma_in_exprs(args, args.len() as int, env, g, resolve::in_expr(*c.it, env, g, d), n);
        },
        ExprKindModel::Field(x, _) => {
            lemma_in_expr(*x.it, env, g, d, n);
        },
        ExprKindModel::Index(x, i) => {
            lemma_in_expr(*x.it, env, g, d, n);
            lemma_in_expr(*i.it, env, g, resolve::in_expr(*x.it, env, g, d), n);
        },
        ExprKindModel::StructLit(m, fs) => {
            let d0 = if is_struct(g, m) {
                d
            } else {
                d.push(diag::error_at(e.span, no_struct(m)))
            };
            if !is_struct(g, m) {
                lemma_complaint(d, diag::error_at(e.span, no_struct(m)), m, n);
            }
            lemma_in_inits(fs, fs.len() as int, env, g, d0, n);
        },
        ExprKindModel::ArrayLit(es) => {
            lemma_in_exprs(es, es.len() as int, env, g, d, n);
        },
        ExprKindModel::MapLit(ps) => {
            lemma_in_pairs(ps, ps.len() as int, env, g, d, n);
        },
        ExprKindModel::Closure(ps, b) => {
            lemma_scope_params(env, ps, ps.len() as int, n);
            assert(ps.take(ps.len() as int) =~= ps);
            lemma_in_expr(*b.it, resolve::with_params(env, ps, ps.len() as int), g, d, n);
        },
        ExprKindModel::Block(b) => {
            lemma_in_block(*b.it, env, g, d, n);
        },
        ExprKindModel::If(c, a, b) => {
            lemma_in_expr(*c.it, env, g, d, n);
            let d1 = resolve::in_expr(*c.it, env, g, d);
            lemma_in_block(*a.it, env, g, d1, n);
            if let Some(z) = b {
                lemma_in_block(*z.it, env, g, resolve::in_block(*a.it, env, g, d1), n);
            }
        },
    }
}

proof fn lemma_in_exprs(es: Seq<ExprModel>, k: int, env: Seq<Seq<char>>, g: Map<Seq<char>, Sym>, d: Seq<DiagnosticModel>, n: Seq<char>)
    ensures
        looked_at(d, resolve::in_exprs(es, k, env, g, d), env, g, n, reads_exprs(es, k, n), occurs_exprs(es, k, makes(n), no_stmt())),
    decreases es, k,
{
    lemma_grown_same(d);
    lemma_grown_chain();
    reveal(reads_exprs);
    reveal(reads);
    reveal(occurs_exprs);
    reveal(occurs);
    if 0 < k <= es.len() {
        lemma_in_exprs(es, k - 1, env, g, d, n);
        lemma_in_expr(es[k - 1], env, g, resolve::in_exprs(es, k - 1, env, g, d), n);
    }
}

proof fn lemma_in_inits(fs: Seq<(Seq<char>, ExprModel)>, k: int, env: Seq<Seq<char>>, g: Map<Seq<char>, Sym>, d: Seq<DiagnosticModel>, n: Seq<char>)
    ensures
        looked_at(d, resolve::in_inits(fs, k, env, g, d), env, g, n, reads_inits(fs, k, n), occurs_inits(fs, k, makes(n), no_stmt())),
    decreases fs, k,
{
    lemma_grown_same(d);
    lemma_grown_chain();
    reveal(reads_inits);
    reveal(reads);
    reveal(occurs_inits);
    reveal(occurs);
    if 0 < k <= fs.len() {
        assert(decreases_to!(fs => fs[k - 1]));
        assert(decreases_to!(fs[k - 1] => fs[k - 1].1));
        lemma_in_inits(fs, k - 1, env, g, d, n);
        lemma_in_expr(fs[k - 1].1, env, g, resolve::in_inits(fs, k - 1, env, g, d), n);
    }
}

proof fn lemma_in_pairs(ps: Seq<(ExprModel, ExprModel)>, k: int, env: Seq<Seq<char>>, g: Map<Seq<char>, Sym>, d: Seq<DiagnosticModel>, n: Seq<char>)
    ensures
        looked_at(d, resolve::in_pairs(ps, k, env, g, d), env, g, n, reads_pairs(ps, k, n), occurs_pairs(ps, k, makes(n), no_stmt())),
    decreases ps, k,
{
    lemma_grown_same(d);
    lemma_grown_chain();
    reveal(reads_pairs);
    reveal(reads);
    reveal(occurs_pairs);
    reveal(occurs);
    if 0 < k <= ps.len() {
        assert(decreases_to!(ps => ps[k - 1]));
        assert(decreases_to!(ps[k - 1] => ps[k - 1].0));
        assert(decreases_to!(ps[k - 1] => ps[k - 1].1));
        lemma_in_pairs(ps, k - 1, env, g, d, n);
        lemma_in_expr(ps[k - 1].0, env, g, resolve::in_pairs(ps, k - 1, env, g, d), n);
        lemma_in_expr(ps[k - 1].1, env, g, resolve::in_expr(ps[k - 1].0, env, g, resolve::in_pairs(ps, k - 1, env, g, d)), n);
    }
}

proof fn lemma_in_block(b: BlockModel, env: Seq<Seq<char>>, g: Map<Seq<char>, Sym>, d: Seq<DiagnosticModel>, n: Seq<char>)
    ensures
        looked_at(d, resolve::in_block(b, env, g, d), env, g, n, reads_block(b, n), occurs_block(b, makes(n), no_stmt())),
    decreases b, 0int,
{
    lemma_grown_same(d);
    lemma_grown_chain();
    reveal(reads_block);
    reveal(reads_stmts);
    reveal(reads);
    reveal(occurs_block);
    reveal(occurs_stmts);
    reveal(occurs);
    let k = b.stmts.len() as int;
    lemma_in_stmts(b.stmts, k, env, g, d, n);
    lemma_scope_lets(b.stmts, k, env, n);
    if let Some(t) = b.tail {
        lemma_in_expr(t, resolve::bound(b.stmts, k, env), g, resolve::in_stmts(b.stmts, k, env, g, d), n);
    }
}

proof fn lemma_in_stmts(ss: Seq<StmtModel>, k: int, env: Seq<Seq<char>>, g: Map<Seq<char>, Sym>, d: Seq<DiagnosticModel>, n: Seq<char>)
    ensures
        looked_at(d, resolve::in_stmts(ss, k, env, g, d), env, g, n, reads_stmts(ss, k, n), occurs_stmts(ss, k, makes(n), no_stmt())),
    decreases ss, k,
{
    lemma_grown_same(d);
    lemma_grown_chain();
    reveal(reads_stmts);
    reveal(reads_stmt);
    reveal(occurs_stmts);
    reveal(occurs_stmt);
    if 0 < k <= ss.len() {
        lemma_in_stmts(ss, k - 1, env, g, d, n);
        lemma_scope_lets(ss, k - 1, env, n);
        lemma_in_stmt(ss[k - 1], resolve::bound(ss, k - 1, env), g, resolve::in_stmts(ss, k - 1, env, g, d), n);
    }
}

proof fn lemma_in_stmt(s: StmtModel, env: Seq<Seq<char>>, g: Map<Seq<char>, Sym>, d: Seq<DiagnosticModel>, n: Seq<char>)
    ensures
        looked_at(d, resolve::in_stmt(s, env, g, d), env, g, n, reads_stmt(s, n), occurs_stmt(s, makes(n), no_stmt())),
    decreases s, 0int,
{
    lemma_grown_same(d);
    lemma_grown_chain();
    reveal(reads_stmt);
    reveal(reads);
    reveal(reads_block);
    reveal(occurs_stmt);
    reveal(occurs);
    reveal(occurs_block);
    match s.kind {
        StmtKindModel::Let { init, .. } => {
            lemma_in_expr(init, env, g, d, n);
        },
        StmtKindModel::Assign(p, v) => {
            lemma_in_expr(p, env, g, d, n);
            lemma_in_expr(v, env, g, resolve::in_expr(p, env, g, d), n);
        },
        StmtKindModel::Expr(e) => {
            lemma_in_expr(e, env, g, d, n);
        },
        StmtKindModel::Return(Some(e)) => {
            lemma_in_expr(e, env, g, d, n);
        },
        StmtKindModel::While(c, b) => {
            lemma_in_expr(c, env, g, d, n);
            lemma_in_block(*b.it, env, g, resolve::in_expr(c, env, g, d), n);
        },
        StmtKindModel::If(c, a, b) => {
            lemma_in_expr(c, env, g, d, n);
            let d1 = resolve::in_expr(c, env, g, d);
            lemma_in_block(*a.it, env, g, d1, n);
            if let Some(z) = b {
                lemma_in_block(*z.it, env, g, resolve::in_block(*a.it, env, g, d1), n);
            }
        },
        _ => {},
    }
}

/// Whether a function of the first `k` declarations reads a name that it does not bind.
pub open spec fn read_in(ds: Seq<DeclModel>, k: int, n: Seq<char>) -> bool {
    exists|i: int| 0 <= i < k && fn_reads(#[trigger] ds[i], n)
}

/// Whether a declaration is a function that reads a name from outside.
pub open spec fn fn_reads(d: DeclModel, n: Seq<char>) -> bool {
    d is Fn && !is_param(d->Fn_0.params, n) && reads_block(d->Fn_0.body, n)
}

/// Whether a function of the first `k` declarations makes a struct.
pub open spec fn made_in(ds: Seq<DeclModel>, k: int, n: Seq<char>) -> bool {
    exists|i: int| 0 <= i < k && fn_makes(#[trigger] ds[i], n)
}

/// Whether a declaration is a function that makes a struct.
pub open spec fn fn_makes(d: DeclModel, n: Seq<char>) -> bool {
    d is Fn && occurs_block(d->Fn_0.body, makes(n), no_stmt())
}

proof fn lemma_in_decls(ds: Seq<DeclModel>, k: int, g: Map<Seq<char>, Sym>, d: Seq<DiagnosticModel>, n: Seq<char>)
    requires
        0 <= k <= ds.len(),
    ensures
        looked_at(d, resolve::in_decls(ds, k, g, d), Seq::empty(), g, n, read_in(ds, k, n), made_in(ds, k, n)),
    decreases k,
{
    lemma_grown_same(d);
    lemma_grown_chain();
    if k > 0 {
        lemma_in_decls(ds, k - 1, g, d, n);
        let before = resolve::in_decls(ds, k - 1, g, d);
        if read_in(ds, k - 1, n) {
            let i = choose|i: int| 0 <= i < k - 1 && fn_reads(#[trigger] ds[i], n);
            assert(0 <= i < k && fn_reads(ds[i], n));
        }
        if made_in(ds, k - 1, n) {
            let i = choose|i: int| 0 <= i < k - 1 && fn_makes(#[trigger] ds[i], n);
            assert(0 <= i < k && fn_makes(ds[i], n));
        }
        assert(read_in(ds, k, n) <==> read_in(ds, k - 1, n) || fn_reads(ds[k - 1], n));
        assert(made_in(ds, k, n) <==> made_in(ds, k - 1, n) || fn_makes(ds[k - 1], n));
        if let DeclModel::Fn(f) = ds[k - 1] {
            let none = Seq::<Seq<char>>::empty();
            lemma_scope_params(none, f.params, f.params.len() as int, n);
            assert(f.params.take(f.params.len() as int) =~= f.params);
            lemma_in_block(f.body, resolve::with_params(none, f.params, f.params.len() as int), g, before, n);
        }
    }
}

/// Whether a declaration is of a name.
pub open spec fn declares(d: DeclModel, n: Seq<char>) -> bool {
    match d {
        DeclModel::Fn(f) => f.name == n,
        DeclModel::Struct(s) => s.name == n,
        DeclModel::Const(c) => c.name == n,
    }
}

/// Whether one of the first `k` declarations is of a name.
pub open spec fn declared(ds: Seq<DeclModel>, k: int, n: Seq<char>) -> bool {
    exists|i: int| 0 <= i < k && declares(#[trigger] ds[i], n)
}

/// What a declaration makes of its name.
pub open spec fn sort_of(d: DeclModel) -> Sym {
    match d {
        DeclModel::Fn(_) => Sym::Fn,
        DeclModel::Struct(_) => Sym::Struct,
        DeclModel::Const(_) => Sym::Const,
    }
}

/// The symbols of a module are the names that are declared in it.
pub proof fn law_symbols_are_declared(ds: Seq<DeclModel>, k: int, n: Seq<char>)
    requires
        0 <= k <= ds.len(),
    ensures
        resolve::globals_of(ds, k).dom().contains(n) <==> declared(ds, k, n),
    decreases k,
{
    if k > 0 {
        law_symbols_are_declared(ds, k - 1, n);
        if declared(ds, k - 1, n) {
            let i = choose|i: int| 0 <= i < k - 1 && declares(#[trigger] ds[i], n);
            assert(0 <= i < k && declares(ds[i], n));
        }
        assert(declared(ds, k, n) <==> declared(ds, k - 1, n) || declares(ds[k - 1], n));
    }
}

/// A symbol is of the sort of its last declaration.
pub proof fn law_last_declarations_count(ds: Seq<DeclModel>, k: int, i: int, n: Seq<char>)
    requires
        0 <= i < k <= ds.len(),
        declares(ds[i], n),
        forall|j: int| i < j < k ==> !declares(#[trigger] ds[j], n),
    ensures
        resolve::globals_of(ds, k)[n] == sort_of(ds[i]),
    decreases k,
{
    if i < k - 1 {
        law_last_declarations_count(ds, k - 1, i, n);
        assert(!declares(ds[k - 1], n));
    }
}

/// A name is complained about exactly where a function reads it, binds it nowhere around and
/// nothing of that name is declared; a struct exactly where one is made and none of that name
/// is declared.
pub proof fn law_unknown_names_are_told(ds: Seq<DeclModel>, g: Map<Seq<char>, Sym>, n: Seq<char>)
    ensures
        told(resolve::in_decls(ds, ds.len() as int, g, Seq::empty()), no_name(n)) <==> read_in(ds, ds.len() as int, n)
            && !g.dom().contains(n),
        told(resolve::in_decls(ds, ds.len() as int, g, Seq::empty()), no_struct(n)) <==> made_in(ds, ds.len() as int, n)
            && !is_struct(g, n),
{
    lemma_in_decls(ds, ds.len() as int, g, Seq::empty(), n);
}

/// What was complained of before comes first.
pub(crate) proof fn lemma_quiet(ds: Seq<DeclModel>, g: Map<Seq<char>, Sym>, d: Seq<DiagnosticModel>, n: Seq<char>)
    ensures
        d.is_prefix_of(resolve::in_decls(ds, ds.len() as int, g, d)),
{
    lemma_in_decls(ds, ds.len() as int, g, d, n);
    reveal(grown);
    assert(resolve::in_decls(ds, ds.len() as int, g, d).take(d.len() as int) == d);
}

/// Whatever was complained of before, where nothing is added all names are known.
pub proof fn law_quiet_modules_are_closed(ds: Seq<DeclModel>, g: Map<Seq<char>, Sym>, d: Seq<DiagnosticModel>, n: Seq<char>)
    requires
        !diag::holds_error(d),
    ensures
        d.is_prefix_of(resolve::in_decls(ds, ds.len() as int, g, d)),
        !diag::holds_error(resolve::in_decls(ds, ds.len() as int, g, d)) ==> known(ds, g, n),
{
    let t = resolve::in_decls(ds, ds.len() as int, g, d);
    lemma_in_decls(ds, ds.len() as int, g, d, n);
    reveal(grown);
    if told(d, no_name(n)) {
        let i = choose|i: int| 0 <= i < d.len() && tells(#[trigger] d[i], no_name(n));
        assert(d[i].severity == Severity::Error);
    }
    if told(d, no_struct(n)) {
        let i = choose|i: int| 0 <= i < d.len() && tells(#[trigger] d[i], no_struct(n));
        assert(d[i].severity == Severity::Error);
    }
    if told(t, no_name(n)) {
        let i = choose|i: int| 0 <= i < t.len() && tells(#[trigger] t[i], no_name(n));
        assert(t[i].severity == Severity::Error);
    }
    if told(t, no_struct(n)) {
        let i = choose|i: int| 0 <= i < t.len() && tells(#[trigger] t[i], no_struct(n));
        assert(t[i].severity == Severity::Error);
    }
    assert(t.take(d.len() as int) == d);
}

/// Whether a name is declared where a function reads it, and a struct where one is made of it.
pub open spec fn known(ds: Seq<DeclModel>, g: Map<Seq<char>, Sym>, n: Seq<char>) -> bool {
    &&& read_in(ds, ds.len() as int, n) ==> g.dom().contains(n)
    &&& made_in(ds, ds.len() as int, n) ==> is_struct(g, n)
}

/// A module resolves without a complaint exactly where every name that its functions read is
/// declared, and every struct that they make.
pub proof fn law_closed_modules_resolve(ds: Seq<DeclModel>, g: Map<Seq<char>, Sym>)
    ensures
        resolve::in_decls(ds, ds.len() as int, g, Seq::empty()).len() == 0 <==> forall|n: Seq<char>| #[trigger] known(ds, g, n),
{
    let t = resolve::in_decls(ds, ds.len() as int, g, Seq::empty());
    if t.len() == 0 {
        assert forall|n: Seq<char>| #[trigger] known(ds, g, n) by {
            law_unknown_names_are_told(ds, g, n);
            assert(!told(t, no_name(n)));
            assert(!told(t, no_struct(n)));
        }
    } else {
        lemma_in_decls(ds, ds.len() as int, g, Seq::empty(), Seq::empty());
        reveal(grown);
        let m = t[0].message;
        assert(about_a_name(t[0]));
        let n = choose|n: Seq<char>| #[trigger] names(m, n);
        law_unknown_names_are_told(ds, g, n);
        assert(tells(t[0], m));
        assert(told(t, m));
        assert(!known(ds, g, n));
    }
}

// --- what may be watched ---------------------------------------------------------------------

/// Whether an expression does something: calls, or makes a closure.
pub open spec fn acts() -> spec_fn(ExprModel) -> bool {
    |e: ExprModel| e.kind is Call || e.kind is Closure
}

/// Whether a statement is neither a `let` nor an expression.
pub open spec fn commands() -> spec_fn(StmtModel) -> bool {
    |s: StmtModel| !(s.kind is Let || s.kind is Expr)
}

proof fn lemma_pure_expr(e: ExprModel)
    ensures
        watch_expr::impurity(e) is Some <==> occurs(e, acts(), commands()),
    decreases e, 0int,
{
    reveal(occurs);
    reveal(occurs_exprs);
    reveal(occurs_inits);
    reveal(occurs_pairs);
    reveal(occurs_block);
    match e.kind {
        ExprKindModel::Lit(_) => {},
        ExprKindModel::Ident(_) => {},
        ExprKindModel::Binary(_, x, y) => {
            lemma_pure_expr(*x.it);
            lemma_pure_expr(*y.it);
        },
        ExprKindModel::Unary(_, x) => {
            lemma_pure_expr(*x.it);
        },
        ExprKindModel::Call(_, _) => {},
        ExprKindModel::Field(x, _) => {
            lemma_pure_expr(*x.it);
        },
        ExprKindModel::Index(x, i) => {
            lemma_pure_expr(*x.it);
            lemma_pure_expr(*i.it);
        },
        ExprKindModel::StructLit(_, fs) => {
            lemma_pure_inits(fs, fs.len() as int);
        },
        ExprKindModel::ArrayLit(es) => {
            lemma_pure_exprs(es, es.len() as int);
        },
        ExprKindModel::MapLit(ps) => {
            lemma_pure_pairs(ps, ps.len() as int);
        },
        ExprKindModel::Closure(_, _) => {},
        ExprKindModel::Block(b) => {
            lemma_pure_block(*b.it);
        },
        ExprKindModel::If(c, a, b) => {
            lemma_pure_expr(*c.it);
            lemma_pure_block(*a.it);
            if let Some(z) = b {
                lemma_pure_block(*z.it);
            }
        },
    }
}

proof fn lemma_pure_exprs(es: Seq<ExprModel>, k: int)
    ensures
        watch_expr::impurity_of_exprs(es, k) is Some <==> occurs_exprs(es, k, acts(), commands()),
    decreases es, k,
{
    reveal(occurs_exprs);
    reveal(occurs);
    if 0 < k <= es.len() {
        lemma_pure_exprs(es, k - 1);
        lemma_pure_expr(es[k - 1]);
    }
}

proof fn lemma_pure_inits(fs: Seq<(Seq<char>, ExprModel)>, k: int)
    ensures
        watch_expr::impurity_of_inits(fs, k) is Some <==> occurs_inits(fs, k, acts(), commands()),
    decreases fs, k,
{
    reveal(occurs_inits);
    reveal(occurs);
    if 0 < k <= fs.len() {
        assert(decreases_to!(fs => fs[k - 1]));
        assert(decreases_to!(fs[k - 1] => fs[k - 1].1));
        lemma_pure_inits(fs, k - 1);
        lemma_pure_expr(fs[k - 1].1);
    }
}

proof fn lemma_pure_pairs(ps: Seq<(ExprModel, ExprModel)>, k: int)
    ensures
        watch_expr::impurity_of_pairs(ps, k) is Some <==> occurs_pairs(ps, k, acts(), commands()),
    decreases ps, k,
{
    reveal(occurs_pairs);
    reveal(occurs);
    if 0 < k <= ps.len() {
        assert(decreases_to!(ps => ps[k - 1]));
        assert(decreases_to!(ps[k - 1] => ps[k - 1].0));
        assert(decreases_to!(ps[k - 1] => ps[k - 1].1));
        lemma_pure_pairs(ps, k - 1);
        lemma_pure_expr(ps[k - 1].0);
        lemma_pure_expr(ps[k - 1].1);
    }
}

proof fn lemma_pure_block(b: BlockModel)
    ensures
        watch_expr::impurity_of_block(b) is Some <==> occurs_block(b, acts(), commands()),
    decreases b, 0int,
{
    reveal(occurs_block);
    reveal(occurs_stmts);
    reveal(occurs);
    let k = b.stmts.len() as int;
    lemma_pure_stmts(b.stmts, k);
    if let Some(t) = b.tail {
        lemma_pure_expr(t);
    }
}

proof fn lemma_pure_stmts(ss: Seq<StmtModel>, k: int)
    ensures
        watch_expr::impurity_of_stmts(ss, k) is Some <==> occurs_stmts(ss, k, acts(), commands()),
    decreases ss, k,
{
    reveal(occurs_stmts);
    reveal(occurs_stmt);
    if 0 < k <= ss.len() {
        lemma_pure_stmts(ss, k - 1);
            lemma_pure_stmt(ss[k - 1]);
    }
}

proof fn lemma_pure_stmt(s: StmtModel)
    ensures
        watch_expr::impurity_of_stmt(s) is Some <==> occurs_stmt(s, acts(), commands()),
    decreases s, 0int,
{
    reveal(occurs_stmt);
    reveal(occurs);
    reveal(occurs_block);
    match s.kind {
        StmtKindModel::Let { init, .. } => {
            lemma_pure_expr(init);
        },
        StmtKindModel::Assign(p, v) => {
            lemma_pure_expr(p);
            lemma_pure_expr(v);
        },
        StmtKindModel::Expr(e) => {
            lemma_pure_expr(e);
        },
        StmtKindModel::Return(Some(e)) => {
            lemma_pure_expr(e);
        },
        StmtKindModel::While(c, b) => {
            lemma_pure_expr(c);
            lemma_pure_block(*b.it);
        },
        StmtKindModel::If(c, a, b) => {
            lemma_pure_expr(c);
            lemma_pure_block(*a.it);
            if let Some(z) = b {
                lemma_pure_block(*z.it);
            }
        },
        _ => {},
    }
}

/// An expression may be watched exactly where nothing in it calls or makes a closure, and all
/// its statements are `let`s and expressions.
pub proof fn law_watched_expressions_do_nothing(e: ExprModel)
    ensures
        watch_expr::purity(e) is Ok <==> !occurs(e, acts(), commands()),
{
    lemma_pure_expr(e);
}

} // verus!
