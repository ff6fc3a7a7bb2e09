//! Watch expressions: the purity check and the evaluator.
//!
//! A watch expression is parsed like any other sli expression but must reduce to
//! a value without side effects: no calls outside a list of pure builtins, no
//! closures, no statements but `let` and expressions.

use crate::ast;
use crate::ast::{Block, BlockModel, Decl, DeclModel, Expr, ExprKind, ExprKindModel, ExprModel, ModuleModel, Stmt, StmtKind, StmtKindModel, StmtModel};
use crate::compile;
use crate::compile::parse_source;
use crate::consteval;
use crate::consteval::{ConstEnv, ConstValue};
use crate::diag;
use crate::diag::Diagnostics;
use crate::source::{FileId, Source};
use crate::views;
use vstd::prelude::*;
use vstd::string::*;
use vstd::utf8::encode_utf8;

verus! {

/// Why a watch expression was rejected.
#[derive(Clone, Debug, PartialEq, Eq)]
pub enum WatchError {
    /// The source failed to parse.
    ParseFailed,
    /// The source parsed but the purity check rejected it.
    Impure {
        /// Human-readable reason.
        reason: String,
    },
    /// Evaluation failed at runtime.
    EvalFailed {
        /// Human-readable reason.
        reason: String,
    },
}

/// Model of a [`WatchError`].
pub enum WatchFault {
    ParseFailed,
    Impure(Seq<char>),
    EvalFailed(Seq<char>),
}

impl View for WatchError {
    type V = WatchFault;

    open spec fn view(&self) -> WatchFault {
        match *self {
            WatchError::ParseFailed => WatchFault::ParseFailed,
            WatchError::Impure { reason } => WatchFault::Impure(reason@),
            WatchError::EvalFailed { reason } => WatchFault::EvalFailed(reason@),
        }
    }
}

impl WatchFault {
    /// The text of the error.
    pub open spec fn text(self) -> Seq<char> {
        match self {
            WatchFault::ParseFailed => "watch expression failed to parse"@,
            WatchFault::Impure(reason) => "watch expression is impure: "@ + reason,
            WatchFault::EvalFailed(reason) => "watch evaluation failed: "@ + reason,
        }
    }
}

impl WatchError {
    /// The message that describes the error.
    pub fn message(&self) -> (r: String)
        ensures
            r@ == self@.text(),
    {
        match self {
            WatchError::ParseFailed => "watch expression failed to parse".to_owned(),
            WatchError::Impure { reason } => {
                let mut out = "watch expression is impure: ".to_owned();
                out.append(reason.as_str());
                out
            },
            WatchError::EvalFailed { reason } => {
                let mut out = "watch evaluation failed: ".to_owned();
                out.append(reason.as_str());
                out
            },
        }
    }
}

/// Pure builtins that watch expressions may call. There are none yet, so every
/// call is rejected.
pub const PURE_BUILTINS: [&'static str; 0] = [];

/// Whether a name is on the list of pure builtins.
pub open spec fn pure_builtin(name: Seq<char>) -> bool {
    exists|i: int| 0 <= i < PURE_BUILTINS@.len() && (#[trigger] PURE_BUILTINS@[i])@ == name
}

fn is_pure_builtin(name: &str) -> (r: bool)
    ensures
        r == pure_builtin(name@),
{
    let list = PURE_BUILTINS;
    let mut i: usize = 0;
    while i < list.len()
        invariant
            i <= list@.len(),
            list == PURE_BUILTINS,
            forall|j: int| 0 <= j < i ==> (#[trigger] PURE_BUILTINS@[j])@ != name@,
        decreases list.len() - i,
    {
        if list[i].eq(name) {
            return true;
        }
        i += 1;
    }
    false
}

/// What makes an expression impure.
#[derive(Clone, Copy, Debug, PartialEq, Eq, Structural)]
pub enum Impurity {
    /// A statement other than `let` or an expression.
    Statement,
    /// A closure.
    Closure,
    /// A call.
    Call,
}

impl Impurity {
    /// The reason in words.
    pub open spec fn text(self) -> Seq<char> {
        match self {
            Impurity::Statement => "statements other than `let`/expr are not allowed"@,
            Impurity::Closure => "closures are not allowed in watch expressions"@,
            Impurity::Call => "function calls (including FFI) are not allowed"@,
        }
    }

    /// The reason in words.
    pub fn message(self) -> (r: String)
        ensures
            r@ == self.text(),
    {
        match self {
            Impurity::Statement => "statements other than `let`/expr are not allowed".to_owned(),
            Impurity::Closure => "closures are not allowed in watch expressions".to_owned(),
            Impurity::Call => "function calls (including FFI) are not allowed".to_owned(),
        }
    }
}

/// The first of two impurities.
pub open spec fn first(a: Option<Impurity>, b: Option<Impurity>) -> Option<Impurity> {
    if a is Some {
        a
    } else {
        b
    }
}

/// The first impurity of an expression, in the order in which it is written.
pub open spec fn impurity(e: ExprModel) -> Option<Impurity>
    decreases e, 0int,
{
    match e.kind {
        ExprKindModel::Lit(_) | ExprKindModel::Ident(_) => None,
        ExprKindModel::Binary(_, l, r) => first(impurity(*l.it), impurity(*r.it)),
        ExprKindModel::Unary(_, x) => impurity(*x.it),
        ExprKindModel::Field(x, _) => impurity(*x.it),
        ExprKindModel::Index(x, i) => first(impurity(*x.it), impurity(*i.it)),
        ExprKindModel::Block(b) => impurity_of_block(*b.it),
        ExprKindModel::If(c, t, el) => first(
            impurity(*c.it),
            first(
                impurity_of_block(*t.it),
                match el {
                    Some(b) => impurity_of_block(*b.it),
                    None => None,
                },
            ),
        ),
        ExprKindModel::StructLit(_, fs) => impurity_of_inits(fs, fs.len() as int),
        ExprKindModel::ArrayLit(es) => impurity_of_exprs(es, es.len() as int),
        ExprKindModel::MapLit(ps) => impurity_of_pairs(ps, ps.len() as int),
        ExprKindModel::Closure(_, _) => Some(Impurity::Closure),
        ExprKindModel::Call(callee, _) => match callee.it.kind {
            ExprKindModel::Ident(name) if pure_builtin(name) => None,
            _ => Some(Impurity::Call),
        },
    }
}

/// The first impurity among the first `k` expressions.
pub open spec fn impurity_of_exprs(es: Seq<ExprModel>, k: int) -> Option<Impurity>
    decreases es, k,
{
    if k <= 0 || k > es.len() {
        None
    } else {
        first(impurity_of_exprs(es, k - 1), impurity(es[k - 1]))
    }
}

/// The first impurity among the first `k` field initializers.
pub open spec fn impurity_of_inits(fs: Seq<(Seq<char>, ExprModel)>, k: int) -> Option<Impurity>
    decreases fs, k,
{
    if k <= 0 || k > fs.len() {
        None
    } else {
        first(impurity_of_inits(fs, k - 1), impurity(fs[k - 1].1))
    }
}

/// The first impurity among the first `k` map entries.
pub open spec fn impurity_of_pairs(ps: Seq<(ExprModel, ExprModel)>, k: int) -> Option<Impurity>
    decreases ps, k,
{
    if k <= 0 || k > ps.len() {
        None
    } else {
        first(impurity_of_pairs(ps, k - 1), first(impurity(ps[k - 1].0), impurity(ps[k - 1].1)))
    }
}

/// The first impurity of a block.
pub open spec fn impurity_of_block(b: BlockModel) -> Option<Impurity>
    decreases b, 0int,
{
    first(
        impurity_of_stmts(b.stmts, b.stmts.len() as int),
        match b.tail {
            Some(t) => impurity(t),
            None => None,
        },
    )
}

/// The first impurity among the first `k` statements.
pub open spec fn impurity_of_stmts(ss: Seq<StmtModel>, k: int) -> Option<Impurity>
    decreases ss, k,
{
    if k <= 0 || k > ss.len() {
        None
    } else {
        first(impurity_of_stmts(ss, k - 1), impurity_of_stmt(ss[k - 1]))
    }
}

/// The first impurity of a statement.
pub open spec fn impurity_of_stmt(s: StmtModel) -> Option<Impurity>
    decreases s, 0int,
{
    match s.kind {
        StmtKindModel::Let { init, .. } => impurity(init),
        StmtKindModel::Expr(e) => impurity(e),
        _ => Some(Impurity::Statement),
    }
}

fn check_exprs(es: &Vec<Expr>) -> (r: Option<Impurity>)
    ensures
        r == impurity_of_exprs(ast::exprs_model(es@), es@.len() as int),
    decreases es@, 0int,
{
    let ghost m = ast::exprs_model(es@);
    let mut found: Option<Impurity> = None;
    let mut i: usize = 0;
    while i < es.len()
        invariant
            i <= es@.len(),
            m == ast::exprs_model(es@),
            found == impurity_of_exprs(m, i as int),
        decreases es.len() - i,
    {
        assert(decreases_to!(es@ => es@[i as int]));
        assert(m[i as int] == es@[i as int]@);
        if found.is_none() {
            found = check_expr(&es[i]);
        }
        i += 1;
    }
    found
}

fn check_block(b: &Block) -> (r: Option<Impurity>)
    ensures
        r == impurity_of_block(b@),
    decreases *b, 0int,
{
    let ghost ss = ast::stmts_model(b.stmts@);
    assert(b@.stmts == ss);
    let mut found: Option<Impurity> = None;
    let mut i: usize = 0;
    while i < b.stmts.len()
        invariant
            i <= b.stmts@.len(),
            ss == ast::stmts_model(b.stmts@),
            found == impurity_of_stmts(ss, i as int),
        decreases b.stmts.len() - i,
    {
        assert(decreases_to!(b.stmts@ => b.stmts@[i as int]));
        assert(decreases_to!(b.stmts => b.stmts@));
        assert(ss[i as int] == b.stmts@[i as int]@);
        if found.is_none() {
            found = check_stmt(&b.stmts[i]);
        }
        i += 1;
    }
    if found.is_none() {
        if let Some(t) = &b.tail {
            return check_expr(t);
        }
    }
    found
}

fn check_stmt(s: &Stmt) -> (r: Option<Impurity>)
    ensures
        r == impurity_of_stmt(s@),
    decreases *s, 0int,
{
    let ghost k = ast::stmt_kind_model(s.kind);
    assert(s@.kind == k);
    match &s.kind {
        StmtKind::Let { init, .. } => check_expr(init),
        StmtKind::Expr(e) => check_expr(e),
        _ => Some(Impurity::Statement),
    }
}

#[verifier::spinoff_prover]
#[verifier::rlimit(60)]
fn check_expr(e: &Expr) -> (r: Option<Impurity>)
    ensures
        r == impurity(e@),
    decreases *e, 0int,
{
    let ghost k = ast::expr_kind_model(e.kind);
    assert(e@.kind == k);
    match &e.kind {
        ExprKind::Lit(_) | ExprKind::Ident(_) => None,
        ExprKind::Binary(_, l, r) => {
            let found = check_expr(l);
            if found.is_some() {
                found
            } else {
                check_expr(r)
            }
        },
        ExprKind::Unary(_, x) => check_expr(x),
        ExprKind::Field(x, _) => check_expr(x),
        ExprKind::Index(x, i) => {
            let found = check_expr(x);
            if found.is_some() {
                found
            } else {
                check_expr(i)
            }
        },
        ExprKind::Block(b) => check_block(b),
        ExprKind::If(c, t, el) => {
            let found = check_expr(c);
            if found.is_some() {
                return found;
            }
            let found = check_block(t);
            if found.is_some() {
                return found;
            }
            match el {
                Some(b) => check_block(b),
                None => None,
            }
        },
        ExprKind::StructLit(name, fs) => {
            let ghost m = ast::inits_model(fs@);
            let mut found: Option<Impurity> = None;
            let mut i: usize = 0;
            while i < fs.len()
                invariant
                    i <= fs@.len(),
                    m == ast::inits_model(fs@),
                    e.kind == ExprKind::StructLit(*name, *fs),
                    found == impurity_of_inits(m, i as int),
                decreases fs.len() - i,
            {
                assert(decreases_to!(fs@ => fs@[i as int]));
                assert(decreases_to!(*fs => fs@));
                assert(decreases_to!(e.kind => e.kind->StructLit_1));
                assert(decreases_to!(fs@[i as int] => fs@[i as int].1));
                assert(m[i as int] == (fs@[i as int].0@, fs@[i as int].1@));
                if found.is_none() {
                    found = check_expr(&fs[i].1);
                }
                i += 1;
            }
            found
        },
        ExprKind::ArrayLit(es) => {
            assert(decreases_to!(*es => es@));
            check_exprs(es)
        },
        ExprKind::MapLit(ps) => {
            let ghost m = ast::pairs_model(ps@);
            let mut found: Option<Impurity> = None;
            let mut i: usize = 0;
            while i < ps.len()
                invariant
                    i <= ps@.len(),
                    m == ast::pairs_model(ps@),
                    e.kind == ExprKind::MapLit(*ps),
                    found == impurity_of_pairs(m, i as int),
                decreases ps.len() - i,
            {
                assert(decreases_to!(ps@ => ps@[i as int]));
                assert(decreases_to!(*ps => ps@));
                assert(decreases_to!(e.kind => e.kind->MapLit_0));
                assert(decreases_to!(ps@[i as int] => ps@[i as int].0));
                assert(decreases_to!(ps@[i as int] => ps@[i as int].1));
                assert(m[i as int] == (ps@[i as int].0@, ps@[i as int].1@));
                if found.is_none() {
                    found = check_expr(&ps[i].0);
                    if found.is_none() {
                        found = check_expr(&ps[i].1);
                    }
                }
                i += 1;
            }
            found
        },
        ExprKind::Closure(_, _) => Some(Impurity::Closure),
        ExprKind::Call(callee, _) => {
            let ghost c = ast::expr_kind_model(callee.kind);
            assert(callee@.kind == c);
            match &callee.kind {
                ExprKind::Ident(name) => if is_pure_builtin(name.as_str()) {
                    None
                } else {
                    Some(Impurity::Call)
                },
                _ => Some(Impurity::Call),
            }
        },
    }
}

/// What the purity check says of an expression.
pub open spec fn purity(e: ExprModel) -> Result<(), WatchFault> {
    match impurity(e) {
        Some(i) => Err(WatchFault::Impure(i.text())),
        None => Ok(()),
    }
}

/// Walks `expr`, rejecting any node that could observably change state.
pub fn verify_pure(expr: &Expr) -> (r: Result<(), WatchError>)
    ensures
        match r {
            Ok(()) => purity(expr@) is Ok,
            Err(e) => purity(expr@) == Err::<(), WatchFault>(e@),
        },
{
    match check_expr(expr) {
        Some(i) => Err(WatchError::Impure { reason: i.message() }),
        None => Ok(()),
    }
}

// --- finding the expression -----------------------------------------------------

/// The first expression statement from the `i`th on.
pub open spec fn expr_stmt(ss: Seq<StmtModel>, i: int) -> Option<ExprModel>
    decreases ss.len() - i,
{
    if i < 0 || i >= ss.len() {
        None
    } else {
        match ss[i].kind {
            StmtKindModel::Expr(e) => Some(e),
            _ => expr_stmt(ss, i + 1),
        }
    }
}

/// The expression that a module is watched by: of the first function that has
/// one, the tail or else the first expression statement.
pub open spec fn watched(ds: Seq<DeclModel>, i: int) -> Option<ExprModel>
    decreases ds.len() - i,
{
    if i < 0 || i >= ds.len() {
        None
    } else {
        match ds[i] {
            DeclModel::Fn(f) => match f.body.tail {
                Some(t) => Some(t),
                None => match expr_stmt(f.body.stmts, 0) {
                    Some(e) => Some(e),
                    None => watched(ds, i + 1),
                },
            },
            _ => watched(ds, i + 1),
        }
    }
}

/// The source of a function around an isolated expression.
pub open spec fn wrapped(source: Seq<char>) -> Seq<char> {
    "fn _w() { "@ + source + "; }"@
}

/// The expression of such a function: its first statement.
pub open spec fn isolated(m: ModuleModel) -> Option<ExprModel> {
    if m.decls.len() == 0 {
        None
    } else {
        match m.decls[0] {
            DeclModel::Fn(f) => if f.body.stmts.len() == 0 {
                None
            } else {
                match f.body.stmts[0].kind {
                    StmtKindModel::Expr(e) => Some(e),
                    _ => None,
                }
            },
            _ => None,
        }
    }
}

/// The expression that a source stands for, as a program or else as an isolated
/// expression.
pub open spec fn candidate(source: Seq<char>) -> Option<ExprModel> {
    let (m, d) = compile::parsed_source(FileId(0), encode_utf8(source));
    if diag::holds_error(d) || m.decls.len() == 0 {
        let (m2, d2) = compile::parsed_source(FileId(0), encode_utf8(wrapped(source)));
        if diag::holds_error(d2) {
            None
        } else {
            isolated(m2)
        }
    } else {
        watched(m.decls, 0)
    }
}

/// What becomes of a watch expression.
pub open spec fn validated(source: Seq<char>) -> Result<ExprModel, WatchFault> {
    match candidate(source) {
        None => Err(WatchFault::ParseFailed),
        Some(e) => match purity(e) {
            Ok(()) => Ok(e),
            Err(f) => Err(f),
        },
    }
}

fn take_expr_stmt(stmts: Vec<Stmt>) -> (r: Option<Expr>)
    ensures
        match r {
            Some(e) => expr_stmt(ast::stmts_model(stmts@), 0) == Some(e@),
            None => expr_stmt(ast::stmts_model(stmts@), 0) is None,
        },
{
    let ghost m = ast::stmts_model(stmts@);
    assert(m.len() == stmts@.len());
    let mut rest = stmts;
    let mut i: usize = 0;
    while i < rest.len()
        invariant
            i <= rest@.len(),
            rest@ == stmts@,
            m == ast::stmts_model(stmts@),
            m.len() == stmts@.len(),
            expr_stmt(m, i as int) == expr_stmt(m, 0),
        decreases rest.len() - i,
    {
        assert(m[i as int] == stmts@[i as int]@);
        let ghost k = ast::stmt_kind_model(stmts@[i as int].kind);
        assert(m[i as int].kind == k);
        let is_expr = match &rest[i].kind {
            StmtKind::Expr(_) => true,
            _ => false,
        };
        if is_expr {
            let s = rest.remove(i);
            assert(ast::stmt_kind_model(s.kind) == k);
            match s.kind {
                StmtKind::Expr(e) => {
                    return Some(e);
                },
                _ => {},
            }
            return None;
        }
        i += 1;
    }
    None
}

fn take_watched(decls: Vec<Decl>) -> (r: Option<Expr>)
    ensures
        match r {
            Some(e) => watched(views::views(decls@), 0) == Some(e@),
            None => watched(views::views(decls@), 0) is None,
        },
{
    let ghost m = views::views(decls@);
    let mut rest = decls;
    let ghost mut done: int = 0;
    assert(m.len() == decls@.len());
    assert(rest@ =~= decls@.skip(0));
    while rest.len() > 0
        invariant
            0 <= done <= decls@.len(),
            rest@ == decls@.skip(done),
            m == views::views(decls@),
            m.len() == decls@.len(),
            watched(m, done) == watched(m, 0),
        decreases rest.len(),
    {
        let d = rest.remove(0);
        assert(d == decls@[done]);
        assert(m[done] == decls@[done]@);
        match d {
            Decl::Fn(f) => {
                let body = f.body;
                match body.tail {
                    Some(t) => {
                        return Some(t);
                    },
                    None => match take_expr_stmt(body.stmts) {
                        Some(e) => {
                            return Some(e);
                        },
                        None => {},
                    },
                }
            },
            _ => {},
        }
        proof {
            done = done + 1;
            assert(rest@ =~= decls@.skip(done));
        }
    }
    None
}

fn take_isolated(module: ast::Module) -> (r: Option<Expr>)
    ensures
        match r {
            Some(e) => isolated(module@) == Some(e@),
            None => isolated(module@) is None,
        },
{
    let mut decls = module.decls;
    assert(module@.decls.len() == decls@.len());
    if decls.len() == 0 {
        return None;
    }
    assert(module@.decls[0] == decls@[0]@);
    match decls.remove(0) {
        Decl::Fn(f) => {
            let mut stmts = f.body.stmts;
            assert(f@.body.stmts == ast::stmts_model(stmts@));
            assert(ast::stmts_model(stmts@).len() == stmts@.len());
            if stmts.len() == 0 {
                return None;
            }
            assert(ast::stmts_model(stmts@)[0] == stmts@[0]@);
            let s = stmts.remove(0);
            let ghost k = ast::stmt_kind_model(s.kind);
            assert(s@.kind == k);
            match s.kind {
                StmtKind::Expr(e) => Some(e),
                _ => None,
            }
        },
        _ => None,
    }
}

/// The expression that a source stands for.
fn find_candidate(source: &str) -> (r: Option<Expr>)
    requires
        encode_utf8(source@).len() <= u32::MAX,
        encode_utf8(wrapped(source@)).len() <= u32::MAX,
    ensures
        match r {
            Some(e) => candidate(source@) == Some(e@),
            None => candidate(source@) is None,
        },
{
    let src = Source::new("<watch>".to_owned(), source.to_owned());
    let mut diags = Diagnostics::new();
    let module = parse_source(FileId(0), &src, &mut diags);
    assert(diags@ =~= compile::parsed_source(FileId(0), encode_utf8(source@)).1);
    assert(module@.decls.len() == module.decls@.len());
    if diags.has_errors() || module.decls.len() == 0 {
        let mut text = "fn _w() { ".to_owned();
        text.append(source);
        text.append("; }");
        assert(text@ == wrapped(source@));
        let src2 = Source::new("<watch>".to_owned(), text);
        let mut diags2 = Diagnostics::new();
        let module2 = parse_source(FileId(0), &src2, &mut diags2);
        assert(diags2@ =~= compile::parsed_source(FileId(0), encode_utf8(wrapped(source@))).1);
        if diags2.has_errors() {
            None
        } else {
            take_isolated(module2)
        }
    } else {
        assert(module@.decls =~= views::views(module.decls@));
        take_watched(module.decls)
    }
}

/// Parses `source` as a watch expression and checks its purity. Returns the
/// parsed expression on success.
pub fn validate(source: &str) -> (r: Result<Expr, WatchError>)
    requires
        encode_utf8(source@).len() <= u32::MAX,
        encode_utf8(wrapped(source@)).len() <= u32::MAX,
    ensures
        match r {
            Ok(e) => validated(source@) == Ok::<ExprModel, WatchFault>(e@),
            Err(f) => validated(source@) == Err::<ExprModel, WatchFault>(f@),
        },
{
    match find_candidate(source) {
        None => Err(WatchError::ParseFailed),
        Some(e) => match verify_pure(&e) {
            Ok(()) => Ok(e),
            Err(f) => Err(f),
        },
    }
}

/// Evaluates a validated expression against `env`.
pub fn evaluate(expr: &Expr, env: &ConstEnv) -> (r: Result<ConstValue, WatchError>)
    ensures
        match (r, consteval::value_of(expr@, env.bindings@)) {
            (Ok(v), Ok(m)) => v@ == m,
            (Err(e), Err(reason)) => e@ == WatchFault::EvalFailed(reason),
            _ => false,
        },
{
    match consteval::eval(expr, env) {
        Ok(v) => Ok(v),
        Err(reason) => Err(WatchError::EvalFailed { reason }),
    }
}

} // verus!
