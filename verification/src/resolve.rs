//! Name resolution.
//!
//! Walks the AST once, recording the kind each top-level name resolves to and
//! complaining about names that resolve to nothing. Scopes are nested
//! lexically; a `let` shadowing an outer name is permitted.

use crate::ast;
use crate::ast::{Block, BlockModel, Decl, DeclModel, Expr, ExprKind, ExprKindModel, ExprModel, Module, ParamModel, Stmt, StmtKind, StmtKindModel, StmtModel};
use crate::diag;
use crate::diag::{Diagnostic, DiagnosticModel, Diagnostics};
use crate::names::NameMap;
use crate::views;
use vstd::prelude::*;
use vstd::string::*;

verus! {

/// What a name resolves to in source.
#[derive(Clone, Copy, Debug, PartialEq, Eq, Structural)]
pub enum Sym {
    /// A local `let` binding or function parameter.
    Local,
    /// A top-level `fn` declaration.
    Fn,
    /// A top-level `struct` declaration.
    Struct,
    /// A top-level `const` declaration.
    Const,
}

impl View for Sym {
    type V = Sym;

    open spec fn view(&self) -> Sym {
        *self
    }
}

/// Name-resolution result for one module.
#[derive(Debug)]
pub struct Resolution {
    /// Top-level symbol table.
    pub globals: NameMap<Sym>,
}

impl Default for Resolution {
    /// No symbols.
    fn default() -> (r: Resolution)
        ensures
            r.globals@ == Map::<Seq<char>, Sym>::empty(),
    {
        Resolution { globals: NameMap::new() }
    }
}

impl Resolution {
    /// Looks up a top-level name.
    pub fn lookup(&self, name: &str) -> (r: Option<Sym>)
        ensures
            r == (if self.globals@.dom().contains(name@) {
                Some(self.globals@[name@])
            } else {
                None
            }),
    {
        match self.globals.get(name) {
            Some(s) => Some(*s),
            None => None,
        }
    }
}

/// The symbols of the first `k` declarations; a later declaration of a name wins.
pub open spec fn globals_of(decls: Seq<DeclModel>, k: int) -> Map<Seq<char>, Sym>
    decreases k,
{
    if k <= 0 {
        Map::empty()
    } else {
        let g = globals_of(decls, k - 1);
        match decls[k - 1] {
            DeclModel::Fn(f) => g.insert(f.name, Sym::Fn),
            DeclModel::Struct(s) => g.insert(s.name, Sym::Struct),
            DeclModel::Const(c) => g.insert(c.name, Sym::Const),
        }
    }
}

/// The names of the first `k` parameters, behind those in scope.
pub open spec fn with_params(env: Seq<Seq<char>>, ps: Seq<ParamModel>, k: int) -> Seq<Seq<char>>
    decreases k,
{
    if k <= 0 {
        env
    } else {
        with_params(env, ps, k - 1).push(ps[k - 1].name)
    }
}

/// The complaints about an expression, behind `d`, where the names of `env` are in scope.
pub open spec fn in_expr(e: ExprModel, env: Seq<Seq<char>>, g: Map<Seq<char>, Sym>, d: Seq<DiagnosticModel>) -> Seq<DiagnosticModel>
    decreases e, 0int,
{
    match e.kind {
        ExprKindModel::Lit(_) => d,
        ExprKindModel::Ident(n) => if env.contains(n) || g.dom().contains(n) {
            d
        } else {
            d.push(diag::error_at(e.span, "undefined name `"@ + n + "`"@))
        },
        ExprKindModel::Binary(_, l, r) => in_expr(*r.it, env, g, in_expr(*l.it, env, g, d)),
        ExprKindModel::Unary(_, x) => in_expr(*x.it, env, g, d),
        ExprKindModel::Call(c, args) => in_exprs(args, args.len() as int, env, g, in_expr(*c.it, env, g, d)),
        ExprKindModel::Field(x, _) => in_expr(*x.it, env, g, d),
        ExprKindModel::Index(x, i) => in_expr(*i.it, env, g, in_expr(*x.it, env, g, d)),
        ExprKindModel::StructLit(n, fs) => in_inits(
            fs,
            fs.len() as int,
            env,
            g,
            if g.dom().contains(n) && g[n] == Sym::Struct {
                d
            } else {
                d.push(diag::error_at(e.span, "undefined struct `"@ + n + "`"@))
            },
        ),
        ExprKindModel::ArrayLit(es) => in_exprs(es, es.len() as int, env, g, d),
        ExprKindModel::MapLit(ps) => in_pairs(ps, ps.len() as int, env, g, d),
        ExprKindModel::Closure(ps, body) => in_expr(*body.it, with_params(env, ps, ps.len() as int), g, d),
        ExprKindModel::Block(b) => in_block(*b.it, env, g, d),
        ExprKindModel::If(c, t, el) => {
            let d2 = in_block(*t.it, env, g, in_expr(*c.it, env, g, d));
            match el {
                Some(b) => in_block(*b.it, env, g, d2),
                None => d2,
            }
        },
    }
}

/// The complaints about the first `k` of a list of expressions.
pub open spec fn in_exprs(es: Seq<ExprModel>, k: int, env: Seq<Seq<char>>, g: Map<Seq<char>, Sym>, d: Seq<DiagnosticModel>) -> Seq<DiagnosticModel>
    decreases es, k,
{
    if k <= 0 || k > es.len() {
        d
    } else {
        in_expr(es[k - 1], env, g, in_exprs(es, k - 1, env, g, d))
    }
}

/// The complaints about the first `k` of a list of field initializers.
pub open spec fn in_inits(fs: Seq<(Seq<char>, ExprModel)>, k: int, env: Seq<Seq<char>>, g: Map<Seq<char>, Sym>, d: Seq<DiagnosticModel>) -> Seq<DiagnosticModel>
    decreases fs, k,
{
    if k <= 0 || k > fs.len() {
        d
    } else {
        in_expr(fs[k - 1].1, env, g, in_inits(fs, k - 1, env, g, d))
    }
}

/// The complaints about the first `k` of a list of map entries.
pub open spec fn in_pairs(ps: Seq<(ExprModel, ExprModel)>, k: int, env: Seq<Seq<char>>, g: Map<Seq<char>, Sym>, d: Seq<DiagnosticModel>) -> Seq<DiagnosticModel>
    decreases ps, k,
{
    if k <= 0 || k > ps.len() {
        d
    } else {
        in_expr(ps[k - 1].1, env, g, in_expr(ps[k - 1].0, env, g, in_pairs(ps, k - 1, env, g, d)))
    }
}

/// The complaints about a block. What it binds is out of scope behind it.
pub open spec fn in_block(b: BlockModel, env: Seq<Seq<char>>, g: Map<Seq<char>, Sym>, d: Seq<DiagnosticModel>) -> Seq<DiagnosticModel>
    decreases b, 0int,
{
    let n = b.stmts.len() as int;
    let d2 = in_stmts(b.stmts, n, env, g, d);
    match b.tail {
        Some(t) => in_expr(t, bound(b.stmts, n, env), g, d2),
        None => d2,
    }
}

/// The names in scope behind the first `k` statements.
pub open spec fn bound(ss: Seq<StmtModel>, k: int, env: Seq<Seq<char>>) -> Seq<Seq<char>>
    decreases k,
{
    if k <= 0 {
        env
    } else {
        match ss[k - 1].kind {
            StmtKindModel::Let { name, .. } => bound(ss, k - 1, env).push(name),
            _ => bound(ss, k - 1, env),
        }
    }
}

/// The complaints about the first `k` statements.
pub open spec fn in_stmts(ss: Seq<StmtModel>, k: int, env: Seq<Seq<char>>, g: Map<Seq<char>, Sym>, d: Seq<DiagnosticModel>) -> Seq<DiagnosticModel>
    decreases ss, k,
{
    if k <= 0 || k > ss.len() {
        d
    } else {
        in_stmt(ss[k - 1], bound(ss, k - 1, env), g, in_stmts(ss, k - 1, env, g, d))
    }
}

/// The complaints about a statement.
pub open spec fn in_stmt(s: StmtModel, env: Seq<Seq<char>>, g: Map<Seq<char>, Sym>, d: Seq<DiagnosticModel>) -> Seq<DiagnosticModel>
    decreases s, 0int,
{
    match s.kind {
        StmtKindModel::Let { init, .. } => in_expr(init, env, g, d),
        StmtKindModel::Assign(p, v) => in_expr(v, env, g, in_expr(p, env, g, d)),
        StmtKindModel::Expr(e) => in_expr(e, env, g, d),
        StmtKindModel::Return(Some(e)) => in_expr(e, env, g, d),
        StmtKindModel::Return(None) => d,
        StmtKindModel::While(c, b) => in_block(*b.it, env, g, in_expr(c, env, g, d)),
        StmtKindModel::If(c, t, el) => {
            let d2 = in_block(*t.it, env, g, in_expr(c, env, g, d));
            match el {
                Some(b) => in_block(*b.it, env, g, d2),
                None => d2,
            }
        },
        StmtKindModel::Break | StmtKindModel::Continue => d,
    }
}

/// The complaints about the functions among the first `k` declarations.
pub open spec fn in_decls(decls: Seq<DeclModel>, k: int, g: Map<Seq<char>, Sym>, d: Seq<DiagnosticModel>) -> Seq<DiagnosticModel>
    decreases k,
{
    if k <= 0 {
        d
    } else {
        let before = in_decls(decls, k - 1, g, d);
        match decls[k - 1] {
            DeclModel::Fn(f) => in_block(f.body, with_params(Seq::empty(), f.params, f.params.len() as int), g, before),
            _ => before,
        }
    }
}

/// Resolves the module, returning the global table and emitting any
/// undefined-name diagnostics found inside function bodies.
pub fn resolve(module: &Module, diags: &mut Diagnostics) -> (r: Resolution)
    ensures
        r.globals@ == globals_of(module@.decls, module@.decls.len() as int),
        final(diags)@ == in_decls(module@.decls, module@.decls.len() as int, r.globals@, old(diags)@),
{
    let mut res = Resolution { globals: NameMap::new() };
    let mut i: usize = 0;
    while i < module.decls.len()
        invariant
            i <= module.decls@.len(),
            res.globals@ == globals_of(module@.decls, i as int),
        decreases module.decls.len() - i,
    {
        assert(module@.decls[i as int] == module.decls@[i as int]@);
        match &module.decls[i] {
            Decl::Fn(f) => res.globals.insert(f.name.clone(), Sym::Fn),
            Decl::Struct(s) => res.globals.insert(s.name.clone(), Sym::Struct),
            Decl::Const(c) => res.globals.insert(c.name.clone(), Sym::Const),
        }
        i += 1;
    }
    let ghost d0 = diags@;
    let mut j: usize = 0;
    while j < module.decls.len()
        invariant
            j <= module.decls@.len(),
            diags@ == in_decls(module@.decls, j as int, res.globals@, d0),
        decreases module.decls.len() - j,
    {
        assert(module@.decls[j as int] == module.decls@[j as int]@);
        if let Decl::Fn(f) = &module.decls[j] {
            let mut env: Vec<String> = Vec::new();
            assert(views::views(env@) =~= Seq::<Seq<char>>::empty());
            add_params(&mut env, &f.params);
            walk_block_for_resolution(&f.body, &mut env, &res, diags);
        }
        j += 1;
    }
    res
}

fn add_params(env: &mut Vec<String>, ps: &Vec<ast::Param>)
    ensures
        views::views(final(env)@) == with_params(views::views(old(env)@), ast::params_model(ps@), ps@.len() as int),
        final(env)@.len() == old(env)@.len() + ps@.len(),
        final(env)@.take(old(env)@.len() as int) == old(env)@,
{
    let mut i: usize = 0;
    assert(env@.take(env@.len() as int) =~= env@);
    while i < ps.len()
        invariant
            i <= ps@.len(),
            views::views(env@) == with_params(views::views(old(env)@), ast::params_model(ps@), i as int),
            env@.len() == old(env)@.len() + i,
            env@.take(old(env)@.len() as int) == old(env)@,
        decreases ps.len() - i,
    {
        let name = ps[i].name.clone();
        proof {
            views::lemma_views_push(env@, name);
        }
        env.push(name);
        i += 1;
        assert(env@.take(old(env)@.len() as int) =~= old(env)@);
    }
}

fn in_scope(env: &Vec<String>, name: &String) -> (r: bool)
    ensures
        r == views::views(env@).contains(name@),
{
    let mut i: usize = env.len();
    let ghost v = views::views(env@);
    while i > 0
        invariant
            i <= env@.len(),
            v == views::views(env@),
            forall|j: int| i <= j < env@.len() ==> v[j] != name@,
        decreases i,
    {
        i -= 1;
        assert(v[i as int] == env@[i as int]@);
        if env[i] == *name {
            return true;
        }
    }
    assert(!v.contains(name@));
    false
}

fn walk_block_for_resolution(b: &Block, env: &mut Vec<String>, res: &Resolution, diags: &mut Diagnostics)
    ensures
        final(env)@ == old(env)@,
        final(diags)@ == in_block(b@, views::views(old(env)@), res.globals@, old(diags)@),
    decreases *b, 0int,
{
    let ghost m = b@;
    let ghost ss = ast::stmts_model(b.stmts@);
    let ghost env0 = views::views(env@);
    let ghost d0 = diags@;
    let depth: usize = env.len();
    assert(env@.take(depth as int) =~= env@);
    let mut i: usize = 0;
    while i < b.stmts.len()
        invariant
            i <= b.stmts@.len(),
            ss == ast::stmts_model(b.stmts@),
            depth <= env@.len(),
            env@.take(depth as int) == old(env)@,
            views::views(env@) == bound(ss, i as int, env0),
            diags@ == in_stmts(ss, i as int, env0, res.globals@, d0),
        decreases b.stmts.len() - i,
    {
        assert(decreases_to!(b.stmts@ => b.stmts@[i as int]));
        assert(decreases_to!(b.stmts => b.stmts@));
        assert(ss[i as int] == b.stmts@[i as int]@);
        walk_stmt(&b.stmts[i], env, res, diags);
        i += 1;
    }
    if let Some(t) = &b.tail {
        walk_expr(t, env, res, diags);
    }
    env.truncate(depth);
}

fn walk_stmt(s: &Stmt, env: &mut Vec<String>, res: &Resolution, diags: &mut Diagnostics)
    ensures
        final(diags)@ == in_stmt(s@, views::views(old(env)@), res.globals@, old(diags)@),
        old(env)@.len() <= final(env)@.len(),
        forall|k: int| 0 <= k <= old(env)@.len() ==> #[trigger] final(env)@.take(k) == old(env)@.take(k),
        views::views(final(env)@) == (match s@.kind {
            StmtKindModel::Let { name, .. } => views::views(old(env)@).push(name),
            _ => views::views(old(env)@),
        }),
    decreases *s, 0int,
{
    let ghost k = ast::stmt_kind_model(s.kind);
    assert(s@.kind == k);
    match &s.kind {
        StmtKind::Let { name, init, .. } => {
            walk_expr(init, env, res, diags);
            let n = name.clone();
            proof {
                views::lemma_views_push(env@, n);
            }
            env.push(n);
            assert forall|k: int| 0 <= k <= old(env)@.len() implies #[trigger] env@.take(k) == old(env)@.take(k) by {
                assert(env@.take(k) =~= old(env)@.take(k));
            }
        },
        StmtKind::Assign(p, v) => {
            walk_expr(p, env, res, diags);
            walk_expr(v, env, res, diags);
        },
        StmtKind::Expr(e) => walk_expr(e, env, res, diags),
        StmtKind::Return(v) => {
            if let Some(e) = v {
                walk_expr(e, env, res, diags);
            }
        },
        StmtKind::While(c, b) => {
            walk_expr(c, env, res, diags);
            walk_block_for_resolution(b, env, res, diags);
        },
        StmtKind::If(c, t, e) => {
            walk_expr(c, env, res, diags);
            walk_block_for_resolution(t, env, res, diags);
            if let Some(e) = e {
                walk_block_for_resolution(e, env, res, diags);
            }
        },
        StmtKind::Break | StmtKind::Continue => {},
    }
}

fn undefined(what: &str, name: &String) -> (r: String)
    ensures
        r@ == what@ + name@ + "`"@,
{
    let mut m = what.to_owned();
    m.append(name.as_str());
    m.append("`");
    m
}

fn walk_exprs(es: &Vec<Expr>, env: &mut Vec<String>, res: &Resolution, diags: &mut Diagnostics)
    ensures
        final(env)@ == old(env)@,
        final(diags)@ == in_exprs(ast::exprs_model(es@), es@.len() as int, views::views(old(env)@), res.globals@, old(diags)@),
    decreases es@, 0int,
{
    let ghost m = ast::exprs_model(es@);
    let mut i: usize = 0;
    while i < es.len()
        invariant
            i <= es@.len(),
            m == ast::exprs_model(es@),
            env@ == old(env)@,
            diags@ == in_exprs(m, i as int, views::views(old(env)@), res.globals@, old(diags)@),
        decreases es.len() - i,
    {
        assert(decreases_to!(es@ => es@[i as int]));
        assert(m[i as int] == es@[i as int]@);
        walk_expr(&es[i], env, res, diags);
        i += 1;
    }
}

#[verifier::spinoff_prover]
#[verifier::rlimit(60)]
fn walk_expr(e: &Expr, env: &mut Vec<String>, res: &Resolution, diags: &mut Diagnostics)
    ensures
        final(env)@ == old(env)@,
        final(diags)@ == in_expr(e@, views::views(old(env)@), res.globals@, old(diags)@),
    decreases *e, 0int,
{
    let ghost k = ast::expr_kind_model(e.kind);
    assert(e@.kind == k);
    let ghost env0 = views::views(env@);
    match &e.kind {
        ExprKind::Lit(_) => {},
        ExprKind::Ident(name) => {
            if !in_scope(env, name) && res.lookup(name.as_str()).is_none() {
                diags.emit(Diagnostic::error(e.span, undefined("undefined name `", name)));
            }
        },
        ExprKind::Binary(_, l, r) => {
            walk_expr(l, env, res, diags);
            walk_expr(r, env, res, diags);
        },
        ExprKind::Unary(_, x) => walk_expr(x, env, res, diags),
        ExprKind::Call(c, args) => {
            walk_expr(c, env, res, diags);
            assert(decreases_to!(*args => args@));
            walk_exprs(args, env, res, diags);
        },
        ExprKind::Field(x, _) => walk_expr(x, env, res, diags),
        ExprKind::Index(x, i) => {
            walk_expr(x, env, res, diags);
            walk_expr(i, env, res, diags);
        },
        ExprKind::StructLit(name, fs) => {
            if res.lookup(name.as_str()) != Some(Sym::Struct) {
                diags.emit(Diagnostic::error(e.span, undefined("undefined struct `", name)));
            }
            let ghost d0 = diags@;
            let ghost m = ast::inits_model(fs@);
            let mut i: usize = 0;
            while i < fs.len()
                invariant
                    i <= fs@.len(),
                    m == ast::inits_model(fs@),
                    e.kind == ExprKind::StructLit(*name, *fs),
                    env@ == old(env)@,
                    diags@ == in_inits(m, i as int, views::views(old(env)@), res.globals@, d0),
                decreases fs.len() - i,
            {
                assert(decreases_to!(fs@ => fs@[i as int]));
                assert(decreases_to!(*fs => fs@));
                assert(decreases_to!(e.kind => e.kind->StructLit_1));
                assert(decreases_to!(fs@[i as int] => fs@[i as int].1));
                assert(m[i as int] == (fs@[i as int].0@, fs@[i as int].1@));
                walk_expr(&fs[i].1, env, res, diags);
                i += 1;
            }
        },
        ExprKind::ArrayLit(es) => {
            assert(decreases_to!(*es => es@));
            walk_exprs(es, env, res, diags);
        },
        ExprKind::MapLit(ps) => {
            let ghost d0 = diags@;
            let ghost m = ast::pairs_model(ps@);
            let mut i: usize = 0;
            while i < ps.len()
                invariant
                    i <= ps@.len(),
                    m == ast::pairs_model(ps@),
                    e.kind == ExprKind::MapLit(*ps),
                    env@ == old(env)@,
                    diags@ == in_pairs(m, i as int, views::views(old(env)@), res.globals@, d0),
                decreases ps.len() - i,
            {
                assert(decreases_to!(ps@ => ps@[i as int]));
                assert(decreases_to!(*ps => ps@));
                assert(decreases_to!(e.kind => e.kind->MapLit_0));
                assert(decreases_to!(ps@[i as int] => ps@[i as int].0));
                assert(decreases_to!(ps@[i as int] => ps@[i as int].1));
                assert(m[i as int] == (ps@[i as int].0@, ps@[i as int].1@));
                walk_expr(&ps[i].0, env, res, diags);
                walk_expr(&ps[i].1, env, res, diags);
                i += 1;
            }
        },
        ExprKind::Closure(ps, body) => {
            let depth: usize = env.len();
            add_params(env, ps);
            walk_expr(body, env, res, diags);
            env.truncate(depth);
        },
        ExprKind::Block(b) => walk_block_for_resolution(b, env, res, diags),
        ExprKind::If(c, t, el) => {
            walk_expr(c, env, res, diags);
            walk_block_for_resolution(t, env, res, diags);
            if let Some(el) = el {
                walk_block_for_resolution(el, env, res, diags);
            }
        },
    }
}

} // verus!
