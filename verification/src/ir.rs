//! Intermediate representation, and its three scalar passes.
//!
//! A function is one straight list of instructions on virtual registers, each of which is
//! written once. Branches come with the bytecode; here both arms of an `if` and the body
//! of a loop follow one another. Constant folding, common-subexpression elimination and
//! dead-code elimination run on this form. The same source gives the same instructions
//! on every machine.

use crate::ast;
use crate::ast::{
    BinOp, Block, BlockModel, Decl, DeclModel, Expr, ExprKind, ExprKindModel, ExprModel, FnDecl, FnDeclModel, Lit,
    LitModel, Module, ParamModel, Stmt, StmtKind, StmtKindModel, StmtModel, UnOp,
};
use crate::bignat::Order;
use crate::float;
use crate::text;
use crate::text::{push_dec, push_dec_int, str_debug};
use crate::typeck;
use crate::views;
use vstd::prelude::*;

verus! {

/// A virtual register.
#[derive(Clone, Copy, Debug, PartialEq, Eq, Hash, Structural)]
pub struct IrReg(pub u32);

/// A constant.
#[derive(Clone, Copy, Debug, PartialEq, Eq, Structural)]
pub enum IrConst {
    /// `nil`.
    Nil,
    /// Boolean.
    Bool(bool),
    /// Integer.
    Int(i64),
    /// Float, by its bits.
    Float(u64),
    /// A string, by its number.
    StrId(u32),
}

/// One instruction.
#[derive(Debug, PartialEq, Eq)]
pub enum IrInst {
    /// `dst = const`.
    Const(IrReg, IrConst),
    /// `dst = a OP b`.
    Binary(IrReg, BinOp, IrReg, IrReg),
    /// `dst = OP a`.
    Unary(IrReg, UnOp, IrReg),
    /// `dst = src`.
    Move(IrReg, IrReg),
    /// `dst = name(args)`.
    Call(IrReg, String, Vec<IrReg>),
    /// `return`, with or without a value.
    Return(Option<IrReg>),
    /// The value is not used further, but what produced it must stay.
    Eval(IrReg),
}

/// Model of an instruction.
#[verifier::ext_equal]
pub enum InstModel {
    Const(IrReg, IrConst),
    Binary(IrReg, BinOp, IrReg, IrReg),
    Unary(IrReg, UnOp, IrReg),
    Move(IrReg, IrReg),
    Call(IrReg, Seq<char>, Seq<IrReg>),
    Return(Option<IrReg>),
    Eval(IrReg),
}

impl View for IrInst {
    type V = InstModel;

    open spec fn view(&self) -> InstModel {
        match *self {
            IrInst::Const(d, c) => InstModel::Const(d, c),
            IrInst::Binary(d, op, a, b) => InstModel::Binary(d, op, a, b),
            IrInst::Unary(d, op, a) => InstModel::Unary(d, op, a),
            IrInst::Move(d, a) => InstModel::Move(d, a),
            IrInst::Call(d, n, args) => InstModel::Call(d, n@, args@),
            IrInst::Return(r) => InstModel::Return(r),
            IrInst::Eval(r) => InstModel::Eval(r),
        }
    }
}

impl InstModel {
    /// The register that an instruction writes.
    pub open spec fn dst(self) -> Option<IrReg> {
        match self {
            InstModel::Const(d, _) => Some(d),
            InstModel::Binary(d, _, _, _) => Some(d),
            InstModel::Unary(d, _, _) => Some(d),
            InstModel::Move(d, _) => Some(d),
            InstModel::Call(d, _, _) => Some(d),
            _ => None,
        }
    }

    /// Whether an instruction does nothing but write its register.
    pub open spec fn pure(self) -> bool {
        self is Const || self is Binary || self is Unary || self is Move
    }

    /// The registers that an instruction reads.
    pub open spec fn reads(self) -> Seq<IrReg> {
        match self {
            InstModel::Const(_, _) => Seq::empty(),
            InstModel::Binary(_, _, a, b) => seq![a, b],
            InstModel::Unary(_, _, a) => seq![a],
            InstModel::Move(_, a) => seq![a],
            InstModel::Call(_, _, args) => args,
            InstModel::Return(Some(r)) => seq![r],
            InstModel::Return(None) => Seq::empty(),
            InstModel::Eval(r) => seq![r],
        }
    }
}

fn same_regs(a: &Vec<IrReg>, b: &Vec<IrReg>) -> (r: bool)
    ensures
        r == (a@ == b@),
{
    if a.len() != b.len() {
        return false;
    }
    let mut i: usize = 0;
    while i < a.len()
        invariant
            i <= a@.len() == b@.len(),
            a@.take(i as int) == b@.take(i as int),
        decreases a.len() - i,
    {
        if a[i] != b[i] {
            return false;
        }
        i += 1;
        assert(a@.take(i as int) =~= b@.take(i as int));
    }
    assert(a@.take(i as int) =~= a@ && b@.take(i as int) =~= b@);
    true
}

fn copy_regs(a: &Vec<IrReg>) -> (r: Vec<IrReg>)
    ensures
        r@ == a@,
{
    let mut out: Vec<IrReg> = Vec::new();
    let mut i: usize = 0;
    while i < a.len()
        invariant
            i <= a@.len(),
            out@ == a@.take(i as int),
        decreases a.len() - i,
    {
        out.push(a[i]);
        i += 1;
        assert(out@ =~= a@.take(i as int));
    }
    assert(a@.take(i as int) =~= a@);
    out
}

impl Clone for IrInst {
    fn clone(&self) -> (r: IrInst)
        ensures
            r@ == self@,
    {
        match self {
            IrInst::Const(d, c) => IrInst::Const(*d, *c),
            IrInst::Binary(d, op, a, b) => IrInst::Binary(*d, *op, *a, *b),
            IrInst::Unary(d, op, a) => IrInst::Unary(*d, *op, *a),
            IrInst::Move(d, a) => IrInst::Move(*d, *a),
            IrInst::Call(d, n, args) => IrInst::Call(*d, n.clone(), copy_regs(args)),
            IrInst::Return(r) => IrInst::Return(*r),
            IrInst::Eval(r) => IrInst::Eval(*r),
        }
    }
}

impl IrInst {
    /// The register that this instruction writes.
    pub fn dst(&self) -> (r: Option<IrReg>)
        ensures
            r == self@.dst(),
    {
        match self {
            IrInst::Const(d, _) => Some(*d),
            IrInst::Binary(d, _, _, _) => Some(*d),
            IrInst::Unary(d, _, _) => Some(*d),
            IrInst::Move(d, _) => Some(*d),
            IrInst::Call(d, _, _) => Some(*d),
            _ => None,
        }
    }

    /// Whether this instruction does nothing but write its register. A call may do more.
    pub fn is_pure(&self) -> (r: bool)
        ensures
            r == self@.pure(),
    {
        matches!(self, IrInst::Const(_, _) | IrInst::Binary(_, _, _, _) | IrInst::Unary(_, _, _) | IrInst::Move(_, _))
    }

    /// Whether two instructions are the same.
    pub fn same(&self, other: &IrInst) -> (r: bool)
        ensures
            r == (self@ == other@),
    {
        match (self, other) {
            (IrInst::Const(d, c), IrInst::Const(e, k)) => *d == *e && *c == *k,
            (IrInst::Binary(d, op, a, b), IrInst::Binary(e, oq, x, y)) => *d == *e && *op == *oq && *a == *x && *b == *y,
            (IrInst::Unary(d, op, a), IrInst::Unary(e, oq, x)) => *d == *e && *op == *oq && *a == *x,
            (IrInst::Move(d, a), IrInst::Move(e, x)) => *d == *e && *a == *x,
            (IrInst::Call(d, n, args), IrInst::Call(e, k, xs)) => *d == *e && n.as_str().eq(k.as_str()) && same_regs(
                args,
                xs,
            ),
            (IrInst::Return(Some(a)), IrInst::Return(Some(b))) => *a == *b,
            (IrInst::Return(None), IrInst::Return(None)) => true,
            (IrInst::Eval(a), IrInst::Eval(b)) => *a == *b,
            _ => false,
        }
    }
}

/// One function.
#[derive(Clone, Debug, PartialEq, Eq)]
pub struct IrFn {
    /// Its name.
    pub name: String,
    /// The registers of its parameters.
    pub params: Vec<IrReg>,
    /// Its instructions.
    pub insts: Vec<IrInst>,
    /// The next register that is free.
    pub next_reg: u32,
}

/// Model of a function.
#[verifier::ext_equal]
pub struct FnModel {
    pub name: Seq<char>,
    pub params: Seq<IrReg>,
    pub insts: Seq<InstModel>,
    pub next_reg: u32,
}

impl View for IrFn {
    type V = FnModel;

    open spec fn view(&self) -> FnModel {
        FnModel {
            name: self.name@,
            params: self.params@,
            insts: views::views(self.insts@),
            next_reg: self.next_reg,
        }
    }
}

/// A lowered module.
#[derive(Clone, Debug, Default, PartialEq, Eq)]
pub struct IrModule {
    /// Functions in declaration order.
    pub functions: Vec<IrFn>,
}

impl View for IrModule {
    type V = Seq<FnModel>;

    open spec fn view(&self) -> Seq<FnModel> {
        views::views(self.functions@)
    }
}

// --- lowering -----------------------------------------------------------------------

/// Names and their registers; a later entry hides an earlier one.
pub type Names = Seq<(Seq<char>, IrReg)>;

/// A function while it is lowered.
#[verifier::ext_equal]
pub struct Low {
    pub insts: Seq<InstModel>,
    pub next: u32,
    pub names: Names,
}

impl Low {
    /// With another instruction.
    pub open spec fn emit(self, i: InstModel) -> Low {
        Low { insts: self.insts.push(i), ..self }
    }

    /// The next register.
    pub open spec fn reg(self) -> IrReg {
        IrReg(self.next)
    }

    /// With the next register taken.
    pub open spec fn taken(self) -> Low {
        Low { next: self.next.wrapping_add(1), ..self }
    }

    /// With a name.
    pub open spec fn bind(self, n: Seq<char>, r: IrReg) -> Low {
        Low { names: self.names.push((n, r)), ..self }
    }

    /// With a constant in a new register.
    pub open spec fn constant(self, c: IrConst) -> (Low, IrReg) {
        (self.taken().emit(InstModel::Const(self.reg(), c)), self.reg())
    }

    /// With only the first `k` names.
    pub open spec fn cut(self, k: int) -> Low {
        Low { names: self.names.take(k), ..self }
    }
}

/// Where a name was bound last.
pub open spec fn bound_at(names: Names, n: Seq<char>) -> Option<int>
    decreases names.len(),
{
    if names.len() == 0 {
        None
    } else if names.last().0 == n {
        Some(names.len() - 1)
    } else {
        bound_at(names.drop_last(), n)
    }
}

/// Names after an assignment.
pub open spec fn assigned(names: Names, n: Seq<char>, r: IrReg) -> Names {
    match bound_at(names, n) {
        Some(i) => names.update(i, (names[i].0, r)),
        None => names,
    }
}

/// The constant of a literal. Strings are not told apart here.
pub open spec fn lit_const(l: LitModel) -> IrConst {
    match l {
        LitModel::Nil => IrConst::Nil,
        LitModel::Bool(b) => IrConst::Bool(b),
        LitModel::Int(v) => IrConst::Int(v),
        LitModel::Float(b) => IrConst::Float(b),
        LitModel::Str(_) => IrConst::StrId(0),
    }
}

fn lit_of(l: &Lit) -> (r: IrConst)
    ensures
        r == lit_const(l@),
{
    match l {
        Lit::Nil => IrConst::Nil,
        Lit::Bool(v) => IrConst::Bool(*v),
        Lit::Int(v) => IrConst::Int(*v),
        Lit::Float(b) => IrConst::Float(*b),
        Lit::Str(_) => IrConst::StrId(0),
    }
}

/// The name of a callee.
pub open spec fn callee_name(e: ExprModel) -> Seq<char> {
    match e.kind {
        ExprKindModel::Ident(n) => n,
        _ => "<indirect>"@,
    }
}

/// An expression.
#[verifier::opaque]
pub open spec fn l_expr(e: ExprModel, s: Low) -> (Low, IrReg)
    decreases e, 0int,
{
    match e.kind {
        ExprKindModel::Lit(l) => s.constant(lit_const(typeck::literal_value(l, e.ty))),
        ExprKindModel::Ident(n) => match bound_at(s.names, n) {
            Some(i) => (s, s.names[i].1),
            None => s.constant(IrConst::Nil),
        },
        ExprKindModel::Binary(op, l, r) => {
            let (s1, a) = l_expr(*l.it, s);
            let (s2, b) = l_expr(*r.it, s1);
            (s2.taken().emit(InstModel::Binary(s2.reg(), op, a, b)), s2.reg())
        },
        ExprKindModel::Unary(op, x) => {
            let (s1, a) = l_expr(*x.it, s);
            (s1.taken().emit(InstModel::Unary(s1.reg(), op, a)), s1.reg())
        },
        ExprKindModel::Call(c, args) => {
            let (s1, regs) = l_exprs(args, args.len() as int, s);
            (s1.taken().emit(InstModel::Call(s1.reg(), callee_name(*c.it), regs)), s1.reg())
        },
        ExprKindModel::Field(x, _) => {
            let (s1, a) = l_expr(*x.it, s);
            (s1.taken().emit(InstModel::Move(s1.reg(), a)), s1.reg())
        },
        ExprKindModel::Index(x, _) => {
            let (s1, a) = l_expr(*x.it, s);
            (s1.taken().emit(InstModel::Move(s1.reg(), a)), s1.reg())
        },
        ExprKindModel::StructLit(_, fs) => l_inits(fs, fs.len() as int, s).constant(IrConst::Nil),
        ExprKindModel::ArrayLit(es) => l_exprs(es, es.len() as int, s).0.constant(IrConst::Nil),
        ExprKindModel::MapLit(ps) => l_pairs(ps, ps.len() as int, s).constant(IrConst::Nil),
        ExprKindModel::Closure(_, _) => s.constant(IrConst::Nil),
        ExprKindModel::Block(b) => match l_block(*b.it, s) {
            (s1, Some(r)) => (s1, r),
            (s1, None) => s1.constant(IrConst::Nil),
        },
        ExprKindModel::If(c, yes, no) => {
            let s1 = l_block(*yes.it, l_expr(*c.it, s).0).0;
            match no {
                Some(b) => l_block(*b.it, s1).0.constant(IrConst::Nil),
                None => s1.constant(IrConst::Nil),
            }
        },
    }
}

/// The first `k` expressions.
#[verifier::opaque]
pub open spec fn l_exprs(es: Seq<ExprModel>, k: int, s: Low) -> (Low, Seq<IrReg>)
    decreases es, k,
{
    if k <= 0 || k > es.len() {
        (s, Seq::empty())
    } else {
        let (s1, rs) = l_exprs(es, k - 1, s);
        let (s2, r) = l_expr(es[k - 1], s1);
        (s2, rs.push(r))
    }
}

/// The first `k` field initializers.
#[verifier::opaque]
pub open spec fn l_inits(fs: Seq<(Seq<char>, ExprModel)>, k: int, s: Low) -> Low
    decreases fs, k,
{
    if k <= 0 || k > fs.len() {
        s
    } else {
        l_expr(fs[k - 1].1, l_inits(fs, k - 1, s)).0
    }
}

/// The first `k` entries of a map.
#[verifier::opaque]
pub open spec fn l_pairs(ps: Seq<(ExprModel, ExprModel)>, k: int, s: Low) -> Low
    decreases ps, k,
{
    if k <= 0 || k > ps.len() {
        s
    } else {
        l_expr(ps[k - 1].1, l_expr(ps[k - 1].0, l_pairs(ps, k - 1, s)).0).0
    }
}

/// A block: its names are gone behind it.
#[verifier::opaque]
pub open spec fn l_block(b: BlockModel, s: Low) -> (Low, Option<IrReg>)
    decreases b, 0int,
{
    let s1 = l_stmts(b.stmts, b.stmts.len() as int, s);
    match b.tail {
        Some(e) => {
            let (s2, r) = l_expr(e, s1);
            (s2.cut(s.names.len() as int), Some(r))
        },
        None => (s1.cut(s.names.len() as int), None),
    }
}

/// The first `k` statements.
#[verifier::opaque]
pub open spec fn l_stmts(ss: Seq<StmtModel>, k: int, s: Low) -> Low
    decreases ss, k,
{
    if k <= 0 || k > ss.len() {
        s
    } else {
        l_stmt(ss[k - 1], l_stmts(ss, k - 1, s))
    }
}

/// One statement.
#[verifier::opaque]
pub open spec fn l_stmt(st: StmtModel, s: Low) -> Low
    decreases st, 0int,
{
    match st.kind {
        StmtKindModel::Let { name, ty, mutable, init } => {
            let (s1, r) = l_expr(init, s);
            s1.bind(name, r)
        },
        StmtKindModel::Assign(target, v) => {
            let (s1, r) = l_expr(v, s);
            match target.kind {
                ExprKindModel::Ident(n) => Low { names: assigned(s1.names, n, r), ..s1 },
                _ => s1.emit(InstModel::Eval(r)),
            }
        },
        StmtKindModel::Expr(e) => {
            let (s1, r) = l_expr(e, s);
            s1.emit(InstModel::Eval(r))
        },
        StmtKindModel::Return(None) => s.emit(InstModel::Return(None)),
        StmtKindModel::Return(Some(e)) => {
            let (s1, r) = l_expr(e, s);
            s1.emit(InstModel::Return(Some(r)))
        },
        StmtKindModel::While(_, body) => l_block(*body.it, s).0,
        StmtKindModel::If(c, yes, no) => {
            let s1 = l_block(*yes.it, l_expr(c, s).0).0;
            match no {
                Some(b) => l_block(*b.it, s1).0,
                None => s1,
            }
        },
        _ => s,
    }
}

/// The first `k` parameters, each in a new register.
pub open spec fn l_params(ps: Seq<ParamModel>, k: int) -> (Low, Seq<IrReg>)
    decreases k,
{
    if k <= 0 {
        (Low { insts: Seq::empty(), next: 0, names: Seq::empty() }, Seq::empty())
    } else {
        let (s, rs) = l_params(ps, k - 1);
        (s.taken().bind(ps[k - 1].name, s.reg()), rs.push(s.reg()))
    }
}

/// A function.
pub open spec fn l_fn(f: FnDeclModel) -> FnModel {
    let (s, params) = l_params(f.params, f.params.len() as int);
    let (s1, tail) = l_block(f.body, s);
    FnModel { name: f.name, params, insts: s1.insts.push(InstModel::Return(tail)), next_reg: s1.next }
}

/// The functions among the first `k` declarations.
pub open spec fn lowered(ds: Seq<DeclModel>, k: int) -> Seq<FnModel>
    decreases k,
{
    if k <= 0 {
        Seq::empty()
    } else {
        match ds[k - 1] {
            DeclModel::Fn(f) => lowered(ds, k - 1).push(l_fn(f)),
            _ => lowered(ds, k - 1),
        }
    }
}

/// Model of the names of a function while it is lowered.
pub open spec fn names_model(v: Seq<(String, IrReg)>) -> Names {
    Seq::new(v.len(), |i: int| (v[i].0@, v[i].1))
}

struct Lowering {
    insts: Vec<IrInst>,
    next: u32,
    names: Vec<(String, IrReg)>,
}

impl Lowering {
    spec fn low(&self) -> Low {
        Low { insts: views::views(self.insts@), next: self.next, names: names_model(self.names@) }
    }

    fn fresh(&mut self) -> (r: IrReg)
        ensures
            r == old(self).low().reg(),
            final(self).low() == old(self).low().taken(),
            final(self).names@ == old(self).names@,
    {
        let r = IrReg(self.next);
        self.next = self.next.wrapping_add(1);
        r
    }

    fn emit(&mut self, i: IrInst)
        ensures
            final(self).low() == old(self).low().emit(i@),
            final(self).names@ == old(self).names@,
    {
        proof {
            views::lemma_views_push(self.insts@, i);
        }
        self.insts.push(i);
    }

    fn constant(&mut self, c: IrConst) -> (r: IrReg)
        ensures
            (final(self).low(), r) == old(self).low().constant(c),
            final(self).names@.len() == old(self).names@.len(),
    {
        let r = self.fresh();
        self.emit(IrInst::Const(r, c));
        r
    }

    fn bind(&mut self, n: String, r: IrReg)
        ensures
            final(self).low() == old(self).low().bind(n@, r),
            final(self).names@.len() == old(self).names@.len() + 1,
    {
        let ghost before = self.names@;
        self.names.push((n, r));
        assert(names_model(self.names@) =~= names_model(before).push((n@, r)));
    }

    fn find(&self, n: &String) -> (r: Option<usize>)
        ensures
            match r {
                Some(i) => bound_at(self.low().names, n@) == Some(i as int) && i < self.names@.len(),
                None => bound_at(self.low().names, n@) is None,
            },
    {
        let ghost m = self.low().names;
        let mut i: usize = self.names.len();
        assert(m.take(i as int) =~= m);
        while i > 0
            invariant
                i <= self.names@.len(),
                m == self.low().names,
                bound_at(m, n@) == bound_at(m.take(i as int), n@),
            decreases i,
        {
            i -= 1;
            assert(m.take(i + 1).drop_last() =~= m.take(i as int));
            assert(m.take(i + 1).last() == (self.names@[i as int].0@, self.names@[i as int].1));
            if self.names[i].0 == *n {
                return Some(i);
            }
        }
        None
    }

    fn assign(&mut self, n: &String, r: IrReg)
        ensures
            final(self).low() == (Low { names: assigned(old(self).low().names, n@, r), ..old(self).low() }),
            final(self).names@.len() == old(self).names@.len(),
    {
        let ghost m = self.low().names;
        if let Some(i) = self.find(n) {
            self.names[i].1 = r;
            assert(names_model(self.names@) =~= m.update(i as int, (m[i as int].0, r)));
        }
    }

    fn cut(&mut self, k: usize)
        requires
            k <= old(self).names@.len(),
        ensures
            final(self).low() == old(self).low().cut(k as int),
            final(self).names@.len() == k,
    {
        let ghost m = self.low().names;
        self.names.truncate(k);
        assert(names_model(self.names@) =~= m.take(k as int));
    }

    #[verifier::spinoff_prover]
    #[verifier::rlimit(60)]
    fn lower_expr(&mut self, e: &Expr) -> (r: IrReg)
        ensures
            (final(self).low(), r) == l_expr(e@, old(self).low()),
            final(self).names@.len() == old(self).names@.len(),
        decreases *e, 0int,
    {
        proof {
            reveal(l_expr);
            reveal(l_exprs);
            reveal(l_inits);
            reveal(l_pairs);
            reveal(l_block);
        }
        let ghost k = ast::expr_kind_model(e.kind);
        assert(e@.kind == k);
        match &e.kind {
            ExprKind::Lit(l) => {
                let c = match typeck::as_float(l, &e.ty) {
                    Some(b) => IrConst::Float(b),
                    None => lit_of(l),
                };
                self.constant(c)
            },
            ExprKind::Ident(n) => match self.find(n) {
                Some(i) => self.names[i].1,
                None => self.constant(IrConst::Nil),
            },
            ExprKind::Binary(op, l, r) => {
                let a = self.lower_expr(l);
                let b = self.lower_expr(r);
                let dst = self.fresh();
                self.emit(IrInst::Binary(dst, *op, a, b));
                dst
            },
            ExprKind::Unary(op, x) => {
                let a = self.lower_expr(x);
                let dst = self.fresh();
                self.emit(IrInst::Unary(dst, *op, a));
                dst
            },
            ExprKind::Call(c, args) => {
                assert(decreases_to!(*args => args@));
                assert(ast::exprs_model(args@).len() == args@.len());
                let ghost ck = ast::expr_kind_model(c.kind);
                assert(c@.kind == ck);
                let name: String = match &c.kind {
                    ExprKind::Ident(n) => n.clone(),
                    _ => "<indirect>".to_owned(),
                };
                assert(name@ == callee_name(c@));
                let regs = self.lower_exprs(args);
                let dst = self.fresh();
                self.emit(IrInst::Call(dst, name, regs));
                dst
            },
            ExprKind::Field(x, _) => {
                let a = self.lower_expr(x);
                let dst = self.fresh();
                self.emit(IrInst::Move(dst, a));
                dst
            },
            ExprKind::Index(x, _) => {
                let a = self.lower_expr(x);
                let dst = self.fresh();
                self.emit(IrInst::Move(dst, a));
                dst
            },
            ExprKind::StructLit(_, fs) => {
                assert(decreases_to!(*fs => fs@));
                assert(ast::inits_model(fs@).len() == fs@.len());
                self.lower_inits(fs);
                self.constant(IrConst::Nil)
            },
            ExprKind::ArrayLit(es) => {
                assert(decreases_to!(*es => es@));
                assert(ast::exprs_model(es@).len() == es@.len());
                let _ = self.lower_exprs(es);
                self.constant(IrConst::Nil)
            },
            ExprKind::MapLit(ps) => {
                assert(decreases_to!(*ps => ps@));
                assert(ast::pairs_model(ps@).len() == ps@.len());
                self.lower_pairs(ps);
                self.constant(IrConst::Nil)
            },
            ExprKind::Closure(_, _) => self.constant(IrConst::Nil),
            ExprKind::Block(b) => match self.lower_block(b) {
                Some(r) => r,
                None => self.constant(IrConst::Nil),
            },
            ExprKind::If(c, yes, no) => {
                let _ = self.lower_expr(c);
                let _ = self.lower_block(yes);
                if let Some(b) = no {
                    let _ = self.lower_block(b);
                }
                self.constant(IrConst::Nil)
            },
        }
    }

    #[verifier::spinoff_prover]
    fn lower_exprs(&mut self, es: &Vec<Expr>) -> (r: Vec<IrReg>)
        ensures
            (final(self).low(), r@) == l_exprs(ast::exprs_model(es@), es@.len() as int, old(self).low()),
            final(self).names@.len() == old(self).names@.len(),
        decreases es@, 0int,
    {
        proof {
            reveal(l_exprs);
            reveal(l_expr);
        }
        let ghost m = ast::exprs_model(es@);
        let mut out: Vec<IrReg> = Vec::new();
        let mut i: usize = 0;
        while i < es.len()
            invariant
                i <= es@.len(),
                m == ast::exprs_model(es@),
                (self.low(), out@) == l_exprs(m, i as int, old(self).low()),
                self.names@.len() == old(self).names@.len(),
            decreases es.len() - i,
        {
            proof {
                reveal(l_exprs);
                reveal(l_expr);
            }
            assert(decreases_to!(es@ => es@[i as int]));
            assert(m[i as int] == es@[i as int]@);
            let r = self.lower_expr(&es[i]);
            out.push(r);
            i += 1;
        }
        out
    }

    #[verifier::spinoff_prover]
    fn lower_inits(&mut self, fs: &Vec<(String, Expr)>)
        ensures
            final(self).low() == l_inits(ast::inits_model(fs@), fs@.len() as int, old(self).low()),
            final(self).names@.len() == old(self).names@.len(),
        decreases fs@, 0int,
    {
        proof {
            reveal(l_inits);
            reveal(l_expr);
        }
        let ghost m = ast::inits_model(fs@);
        let mut i: usize = 0;
        while i < fs.len()
            invariant
                i <= fs@.len(),
                m == ast::inits_model(fs@),
                self.low() == l_inits(m, i as int, old(self).low()),
                self.names@.len() == old(self).names@.len(),
            decreases fs.len() - i,
        {
            proof {
                reveal(l_inits);
                reveal(l_expr);
            }
            assert(decreases_to!(fs@ => fs@[i as int]));
            assert(decreases_to!(fs@[i as int] => fs@[i as int].1));
            assert(m[i as int] == (fs@[i as int].0@, fs@[i as int].1@));
            let _ = self.lower_expr(&fs[i].1);
            i += 1;
        }
    }

    #[verifier::spinoff_prover]
    fn lower_pairs(&mut self, ps: &Vec<(Expr, Expr)>)
        ensures
            final(self).low() == l_pairs(ast::pairs_model(ps@), ps@.len() as int, old(self).low()),
            final(self).names@.len() == old(self).names@.len(),
        decreases ps@, 0int,
    {
        proof {
            reveal(l_pairs);
            reveal(l_expr);
        }
        let ghost m = ast::pairs_model(ps@);
        let mut i: usize = 0;
        while i < ps.len()
            invariant
                i <= ps@.len(),
                m == ast::pairs_model(ps@),
                self.low() == l_pairs(m, i as int, old(self).low()),
                self.names@.len() == old(self).names@.len(),
            decreases ps.len() - i,
        {
            proof {
                reveal(l_pairs);
                reveal(l_expr);
            }
            assert(decreases_to!(ps@ => ps@[i as int]));
            assert(decreases_to!(ps@[i as int] => ps@[i as int].0));
            assert(decreases_to!(ps@[i as int] => ps@[i as int].1));
            assert(m[i as int] == (ps@[i as int].0@, ps@[i as int].1@));
            let _ = self.lower_expr(&ps[i].0);
            let _ = self.lower_expr(&ps[i].1);
            i += 1;
        }
    }

    #[verifier::spinoff_prover]
    fn lower_block(&mut self, b: &Block) -> (r: Option<IrReg>)
        ensures
            (final(self).low(), r) == l_block(b@, old(self).low()),
            final(self).names@.len() == old(self).names@.len(),
        decreases *b, 0int,
    {
        proof {
            reveal(l_block);
            reveal(l_stmts);
            reveal(l_expr);
        }
        let ghost ss = ast::stmts_model(b.stmts@);
        let depth: usize = self.names.len();
        let mut i: usize = 0;
        while i < b.stmts.len()
            invariant
                i <= b.stmts@.len(),
                ss == ast::stmts_model(b.stmts@),
                depth <= self.names@.len(),
                self.low() == l_stmts(ss, i as int, old(self).low()),
            decreases b.stmts.len() - i,
        {
            proof {
                reveal(l_stmts);
                reveal(l_stmt);
            }
            assert(decreases_to!(b.stmts@ => b.stmts@[i as int]));
            assert(decreases_to!(b.stmts => b.stmts@));
            assert(ss[i as int] == b.stmts@[i as int]@);
            self.lower_stmt(&b.stmts[i]);
            i += 1;
        }
        let r = match &b.tail {
            Some(e) => Some(self.lower_expr(e)),
            None => None,
        };
        self.cut(depth);
        r
    }

    #[verifier::spinoff_prover]
    #[verifier::rlimit(60)]
    fn lower_stmt(&mut self, s: &Stmt)
        ensures
            final(self).low() == l_stmt(s@, old(self).low()),
            old(self).names@.len() <= final(self).names@.len(),
        decreases *s, 0int,
    {
        proof {
            reveal(l_stmt);
            reveal(l_expr);
            reveal(l_block);
        }
        let ghost k = ast::stmt_kind_model(s.kind);
        assert(s@.kind == k);
        match &s.kind {
            StmtKind::Let { name, init, .. } => {
                let r = self.lower_expr(init);
                self.bind(name.clone(), r);
            },
            StmtKind::Assign(target, v) => {
                let ghost tk = ast::expr_kind_model(target.kind);
                assert(target@.kind == tk);
                let r = self.lower_expr(v);
                match &target.kind {
                    ExprKind::Ident(n) => self.assign(n, r),
                    _ => self.emit(IrInst::Eval(r)),
                }
            },
            StmtKind::Expr(e) => {
                let r = self.lower_expr(e);
                self.emit(IrInst::Eval(r));
            },
            StmtKind::Return(v) => match v {
                None => self.emit(IrInst::Return(None)),
                Some(e) => {
                    let r = self.lower_expr(e);
                    self.emit(IrInst::Return(Some(r)));
                },
            },
            StmtKind::While(_, body) => {
                let _ = self.lower_block(body);
            },
            StmtKind::If(c, yes, no) => {
                let _ = self.lower_expr(c);
                let _ = self.lower_block(yes);
                if let Some(b) = no {
                    let _ = self.lower_block(b);
                }
            },
            StmtKind::Break | StmtKind::Continue => {},
        }
    }
}

fn lower_fn(f: &FnDecl) -> (r: IrFn)
    ensures
        r@ == l_fn(f@),
{
    let ghost pm = ast::params_model(f.params@);
    let mut lo = Lowering { insts: Vec::new(), next: 0, names: Vec::new() };
    let mut params: Vec<IrReg> = Vec::new();
    let mut i: usize = 0;
    assert(lo.low() =~= l_params(pm, 0).0);
    while i < f.params.len()
        invariant
            i <= f.params@.len(),
            pm == ast::params_model(f.params@),
            lo.low() == l_params(pm, i as int).0,
            params@ == l_params(pm, i as int).1,
        decreases f.params.len() - i,
    {
        assert(pm[i as int] == f.params@[i as int]@);
        let r = lo.fresh();
        params.push(r);
        lo.bind(f.params[i].name.clone(), r);
        i += 1;
    }
    let tail = lo.lower_block(&f.body);
    lo.emit(IrInst::Return(tail));
    IrFn { name: f.name.clone(), params, insts: lo.insts, next_reg: lo.next }
}

/// Lowers the functions of a typechecked module.
pub fn lower(module: &Module) -> (r: IrModule)
    ensures
        r@ == lowered(module@.decls, module@.decls.len() as int),
{
    let ghost m = module@.decls;
    let mut functions: Vec<IrFn> = Vec::new();
    let mut i: usize = 0;
    assert(views::views(functions@) =~= Seq::empty());
    while i < module.decls.len()
        invariant
            i <= module.decls@.len(),
            m == module@.decls,
            views::views(functions@) == lowered(m, i as int),
        decreases module.decls.len() - i,
    {
        assert(m[i as int] == module.decls@[i as int]@);
        if let Decl::Fn(f) = &module.decls[i] {
            let g = lower_fn(f);
            proof {
                views::lemma_views_push(functions@, g);
            }
            functions.push(g);
        }
        i += 1;
    }
    IrModule { functions }
}

// --- passes -------------------------------------------------------------------------

/// A binary operation on constants, where it has a result. Division by zero has none.
pub open spec fn fold_binop(op: BinOp, l: IrConst, r: IrConst) -> Option<IrConst> {
    match (l, r) {
        (IrConst::Int(a), IrConst::Int(b)) => fold_ints(op, a, b),
        (IrConst::Float(a), IrConst::Float(b)) => fold_floats(op, a, b),
        (IrConst::Bool(a), IrConst::Bool(b)) => match op {
            BinOp::And => Some(IrConst::Bool(a && b)),
            BinOp::Or => Some(IrConst::Bool(a || b)),
            BinOp::Eq => Some(IrConst::Bool(a == b)),
            BinOp::Ne => Some(IrConst::Bool(a != b)),
            _ => None,
        },
        _ => None,
    }
}

/// An operation on integers.
pub open spec fn fold_ints(op: BinOp, a: i64, b: i64) -> Option<IrConst> {
    match op {
        BinOp::Add => Some(IrConst::Int(a.wrapping_add(b))),
        BinOp::Sub => Some(IrConst::Int(a.wrapping_sub(b))),
        BinOp::Mul => Some(IrConst::Int(a.wrapping_mul(b))),
        BinOp::Div => match a.checked_div(b) {
            Some(v) => Some(IrConst::Int(v)),
            None => None,
        },
        BinOp::Mod => match a.checked_rem(b) {
            Some(v) => Some(IrConst::Int(v)),
            None => None,
        },
        BinOp::Eq => Some(IrConst::Bool(a == b)),
        BinOp::Ne => Some(IrConst::Bool(a != b)),
        BinOp::Lt => Some(IrConst::Bool(a < b)),
        BinOp::Le => Some(IrConst::Bool(a <= b)),
        BinOp::Gt => Some(IrConst::Bool(a > b)),
        BinOp::Ge => Some(IrConst::Bool(a >= b)),
        _ => None,
    }
}

/// An operation on floats.
pub open spec fn fold_floats(op: BinOp, a: u64, b: u64) -> Option<IrConst> {
    match op {
        BinOp::Add => Some(IrConst::Float(float::sum(a, b))),
        BinOp::Sub => Some(IrConst::Float(float::sum(a, float::negated(b)))),
        BinOp::Mul => Some(IrConst::Float(float::product(a, b))),
        BinOp::Div => Some(IrConst::Float(float::quotient(a, b))),
        BinOp::Eq => Some(IrConst::Bool(float::same(a, b))),
        BinOp::Ne => Some(IrConst::Bool(!float::same(a, b))),
        BinOp::Lt => Some(IrConst::Bool(float::less(a, b))),
        BinOp::Le => Some(IrConst::Bool(float::less(a, b) || float::same(a, b))),
        BinOp::Gt => Some(IrConst::Bool(float::less(b, a))),
        BinOp::Ge => Some(IrConst::Bool(float::less(b, a) || float::same(a, b))),
        _ => None,
    }
}

/// A unary operation on a constant, where it has a result.
pub open spec fn fold_unop(op: UnOp, x: IrConst) -> Option<IrConst> {
    match (op, x) {
        (UnOp::Neg, IrConst::Int(v)) => Some(IrConst::Int(0i64.wrapping_sub(v))),
        (UnOp::Neg, IrConst::Float(b)) => Some(IrConst::Float(float::negated(b))),
        (UnOp::Not, IrConst::Bool(v)) => Some(IrConst::Bool(!v)),
        _ => None,
    }
}

/// What is known of each register.
pub type Known = Seq<Option<IrConst>>;

/// The constant in a register, where one is known.
pub open spec fn known(t: Known, r: IrReg) -> Option<IrConst> {
    if r.0 < t.len() {
        t[r.0 as int]
    } else {
        None
    }
}

/// With a constant in a register.
pub open spec fn learned(t: Known, r: IrReg, c: IrConst) -> Known {
    if r.0 < t.len() {
        t.update(r.0 as int, Some(c))
    } else {
        t
    }
}

/// What the constants among the first `k` instructions say of `n` registers.
pub open spec fn constants_in(insts: Seq<InstModel>, k: int, n: int) -> Known
    decreases k,
{
    if k <= 0 {
        Seq::new(n as nat, |i: int| None)
    } else {
        match insts[k - 1] {
            InstModel::Const(r, c) => learned(constants_in(insts, k - 1, n), r, c),
            _ => constants_in(insts, k - 1, n),
        }
    }
}

/// The constant that an instruction computes, where its operands are known.
pub open spec fn computed(i: InstModel, t: Known) -> Option<IrConst> {
    match i {
        InstModel::Binary(_, op, a, b) => match (known(t, a), known(t, b)) {
            (Some(x), Some(y)) => fold_binop(op, x, y),
            _ => None,
        },
        InstModel::Unary(_, op, a) => match known(t, a) {
            Some(x) => fold_unop(op, x),
            None => None,
        },
        _ => None,
    }
}

/// The first `k` instructions after folding, and what is known then.
pub open spec fn folded(insts: Seq<InstModel>, k: int, n: int) -> (Seq<InstModel>, Known)
    decreases k,
{
    if k <= 0 {
        (Seq::empty(), constants_in(insts, insts.len() as int, n))
    } else {
        let (out, t) = folded(insts, k - 1, n);
        let i = insts[k - 1];
        match computed(i, t) {
            Some(c) => (out.push(InstModel::Const(i.dst()->0, c)), learned(t, i.dst()->0, c)),
            None => (out.push(i), t),
        }
    }
}

/// A function after constant folding.
pub open spec fn fold_of(f: FnModel) -> FnModel {
    FnModel { insts: folded(f.insts, f.insts.len() as int, f.next_reg as int).0, ..f }
}

/// What two instructions have in common that compute the same.
#[derive(Clone, Copy, Debug, PartialEq, Eq, Structural)]
pub enum InstKey {
    /// A constant.
    Const(IrConst),
    /// A binary operation.
    Binary(BinOp, IrReg, IrReg),
    /// A unary operation.
    Unary(UnOp, IrReg),
}

/// The key of an instruction.
pub open spec fn key_of(i: InstModel) -> Option<InstKey> {
    match i {
        InstModel::Const(_, c) => Some(InstKey::Const(c)),
        InstModel::Binary(_, op, a, b) => Some(InstKey::Binary(op, a, b)),
        InstModel::Unary(_, op, a) => Some(InstKey::Unary(op, a)),
        _ => None,
    }
}

/// The register that came first with a key, from the `i`-th on.
pub open spec fn first_with(seen: Seq<(InstKey, IrReg)>, k: InstKey, i: int) -> Option<IrReg>
    decreases seen.len() - i,
{
    if i < 0 || i >= seen.len() {
        None
    } else if seen[i].0 == k {
        Some(seen[i].1)
    } else {
        first_with(seen, k, i + 1)
    }
}

/// The keys that came first, and which register can stand for which, in the first `k`
/// instructions.
pub open spec fn repeats(insts: Seq<InstModel>, k: int) -> (Seq<(InstKey, IrReg)>, Seq<(IrReg, IrReg)>)
    decreases k,
{
    if k <= 0 {
        (Seq::empty(), Seq::empty())
    } else {
        let (seen, same) = repeats(insts, k - 1);
        match key_of(insts[k - 1]) {
            Some(key) => match first_with(seen, key, 0) {
                Some(prior) => (seen, same.push((insts[k - 1].dst()->0, prior))),
                None => (seen.push((key, insts[k - 1].dst()->0)), same),
            },
            None => (seen, same),
        }
    }
}

/// The register that stands for another, from the `i`-th pair on.
pub open spec fn stand_in(same: Seq<(IrReg, IrReg)>, r: IrReg, i: int) -> IrReg
    decreases same.len() - i,
{
    if i < 0 || i >= same.len() {
        r
    } else if same[i].0 == r {
        same[i].1
    } else {
        stand_in(same, r, i + 1)
    }
}

/// Registers with their stand-ins.
pub open spec fn stand_ins(same: Seq<(IrReg, IrReg)>, rs: Seq<IrReg>) -> Seq<IrReg> {
    Seq::new(rs.len(), |i: int| stand_in(same, rs[i], 0))
}

/// An instruction that reads the stand-ins.
pub open spec fn renamed(i: InstModel, same: Seq<(IrReg, IrReg)>) -> InstModel {
    match i {
        InstModel::Binary(d, op, a, b) => InstModel::Binary(d, op, stand_in(same, a, 0), stand_in(same, b, 0)),
        InstModel::Unary(d, op, a) => InstModel::Unary(d, op, stand_in(same, a, 0)),
        InstModel::Move(d, a) => InstModel::Move(d, stand_in(same, a, 0)),
        InstModel::Call(d, n, args) => InstModel::Call(d, n, stand_ins(same, args)),
        InstModel::Return(Some(a)) => InstModel::Return(Some(stand_in(same, a, 0))),
        InstModel::Eval(a) => InstModel::Eval(stand_in(same, a, 0)),
        _ => i,
    }
}

/// A function after common-subexpression elimination.
pub open spec fn cse_of(f: FnModel) -> FnModel {
    let same = repeats(f.insts, f.insts.len() as int).1;
    FnModel { insts: Seq::new(f.insts.len(), |i: int| renamed(f.insts[i], same)), ..f }
}

/// Whether a register is marked.
pub open spec fn marked(used: Seq<bool>, r: IrReg) -> bool {
    r.0 < used.len() && used[r.0 as int]
}

/// With the first `k` of some registers marked.
pub open spec fn mark_all(used: Seq<bool>, rs: Seq<IrReg>, k: int) -> Seq<bool>
    decreases k,
{
    if k <= 0 {
        used
    } else {
        let u = mark_all(used, rs, k - 1);
        if rs[k - 1].0 < u.len() {
            u.update(rs[k - 1].0 as int, true)
        } else {
            u
        }
    }
}

/// Whether an instruction stays, given which registers are read behind it.
pub open spec fn stays(i: InstModel, used: Seq<bool>) -> bool {
    !i.pure() || (i.dst() matches Some(d) ==> marked(used, d))
}

/// Which registers the instructions from the `k`-th on read, counting those only that stay;
/// parameters count as read.
pub open spec fn read_from(f: FnModel, k: int) -> Seq<bool>
    decreases f.insts.len() - k,
{
    if k < 0 || k >= f.insts.len() {
        mark_all(Seq::new(f.next_reg as nat, |i: int| false), f.params, f.params.len() as int)
    } else {
        let u = read_from(f, k + 1);
        if stays(f.insts[k], u) {
            mark_all(u, f.insts[k].reads(), f.insts[k].reads().len() as int)
        } else {
            u
        }
    }
}

/// The instructions among the first `k` that stay.
pub open spec fn kept(insts: Seq<InstModel>, k: int, used: Seq<bool>) -> Seq<InstModel>
    decreases k,
{
    if k <= 0 {
        Seq::empty()
    } else if stays(insts[k - 1], used) {
        kept(insts, k - 1, used).push(insts[k - 1])
    } else {
        kept(insts, k - 1, used)
    }
}

/// A function after dead-code elimination.
pub open spec fn dce_of(f: FnModel) -> FnModel {
    FnModel { insts: kept(f.insts, f.insts.len() as int, read_from(f, 0)), ..f }
}

/// One round of the three passes.
pub open spec fn round(f: FnModel) -> FnModel {
    dce_of(cse_of(fold_of(f)))
}

/// Rounds until one changes nothing, `n` at most.
pub open spec fn settled(f: FnModel, n: nat) -> FnModel
    decreases n,
{
    if n == 0 || round(f).insts == f.insts {
        if n == 0 {
            f
        } else {
            round(f)
        }
    } else {
        settled(round(f), (n - 1) as nat)
    }
}

fn float_bool(op: BinOp, o: Option<Order>) -> (r: bool)
    requires
        op == BinOp::Eq || op == BinOp::Ne || op == BinOp::Lt || op == BinOp::Le || op == BinOp::Gt || op == BinOp::Ge,
    ensures
        r == match op {
            BinOp::Eq => o == Some(Order::Same),
            BinOp::Ne => o != Some(Order::Same),
            BinOp::Lt => o == Some(Order::Less),
            BinOp::Le => o == Some(Order::Less) || o == Some(Order::Same),
            BinOp::Gt => o == Some(Order::Greater),
            _ => o == Some(Order::Greater) || o == Some(Order::Same),
        },
{
    match o {
        None => matches!(op, BinOp::Ne),
        Some(Order::Less) => matches!(op, BinOp::Ne | BinOp::Lt | BinOp::Le),
        Some(Order::Same) => matches!(op, BinOp::Eq | BinOp::Le | BinOp::Ge),
        Some(Order::Greater) => matches!(op, BinOp::Ne | BinOp::Gt | BinOp::Ge),
    }
}

fn do_ints(op: BinOp, a: i64, b: i64) -> (r: Option<IrConst>)
    ensures
        r == fold_ints(op, a, b),
{
    match op {
        BinOp::Add => Some(IrConst::Int(a.wrapping_add(b))),
        BinOp::Sub => Some(IrConst::Int(a.wrapping_sub(b))),
        BinOp::Mul => Some(IrConst::Int(a.wrapping_mul(b))),
        BinOp::Div => match a.checked_div(b) {
            Some(v) => Some(IrConst::Int(v)),
            None => None,
        },
        BinOp::Mod => match a.checked_rem(b) {
            Some(v) => Some(IrConst::Int(v)),
            None => None,
        },
        BinOp::Eq => Some(IrConst::Bool(a == b)),
        BinOp::Ne => Some(IrConst::Bool(a != b)),
        BinOp::Lt => Some(IrConst::Bool(a < b)),
        BinOp::Le => Some(IrConst::Bool(a <= b)),
        BinOp::Gt => Some(IrConst::Bool(a > b)),
        BinOp::Ge => Some(IrConst::Bool(a >= b)),
        BinOp::And | BinOp::Or => None,
    }
}

fn do_floats(op: BinOp, a: u64, b: u64) -> (r: Option<IrConst>)
    ensures
        r == fold_floats(op, a, b),
{
    match op {
        BinOp::Add => Some(IrConst::Float(float::plus(a, b))),
        BinOp::Sub => Some(IrConst::Float(float::minus(a, b))),
        BinOp::Mul => Some(IrConst::Float(float::times(a, b))),
        BinOp::Div => Some(IrConst::Float(float::over(a, b))),
        BinOp::Mod | BinOp::And | BinOp::Or => None,
        _ => Some(IrConst::Bool(float_bool(op, float::order(a, b)))),
    }
}

fn do_binop(op: BinOp, l: IrConst, r: IrConst) -> (c: Option<IrConst>)
    ensures
        c == fold_binop(op, l, r),
{
    match (l, r) {
        (IrConst::Int(a), IrConst::Int(b)) => do_ints(op, a, b),
        (IrConst::Float(a), IrConst::Float(b)) => do_floats(op, a, b),
        (IrConst::Bool(a), IrConst::Bool(b)) => match op {
            BinOp::And => Some(IrConst::Bool(a && b)),
            BinOp::Or => Some(IrConst::Bool(a || b)),
            BinOp::Eq => Some(IrConst::Bool(a == b)),
            BinOp::Ne => Some(IrConst::Bool(a != b)),
            _ => None,
        },
        _ => None,
    }
}

fn do_unop(op: UnOp, x: IrConst) -> (c: Option<IrConst>)
    ensures
        c == fold_unop(op, x),
{
    match (op, x) {
        (UnOp::Neg, IrConst::Int(v)) => Some(IrConst::Int(0i64.wrapping_sub(v))),
        (UnOp::Neg, IrConst::Float(b)) => Some(IrConst::Float(float::neg(b))),
        (UnOp::Not, IrConst::Bool(v)) => Some(IrConst::Bool(!v)),
        _ => None,
    }
}

fn recall(t: &Vec<Option<IrConst>>, r: IrReg) -> (c: Option<IrConst>)
    ensures
        c == known(t@, r),
{
    if (r.0 as usize) < t.len() {
        t[r.0 as usize]
    } else {
        None
    }
}

fn learn(t: &mut Vec<Option<IrConst>>, r: IrReg, c: IrConst)
    ensures
        final(t)@ == learned(old(t)@, r, c),
{
    if (r.0 as usize) < t.len() {
        t.set(r.0 as usize, Some(c));
    }
}

fn compute(i: &IrInst, t: &Vec<Option<IrConst>>) -> (c: Option<IrConst>)
    ensures
        c == computed(i@, t@),
{
    match i {
        IrInst::Binary(_, op, a, b) => match (recall(t, *a), recall(t, *b)) {
            (Some(x), Some(y)) => do_binop(*op, x, y),
            _ => None,
        },
        IrInst::Unary(_, op, a) => match recall(t, *a) {
            Some(x) => do_unop(*op, x),
            None => None,
        },
        _ => None,
    }
}

/// Constant folding: an operation on known constants becomes the constant it computes.
pub fn const_fold(f: &mut IrFn)
    ensures
        final(f)@ == fold_of(old(f)@),
{
    let ghost m = f@.insts;
    let n: usize = f.next_reg as usize;
    let mut t: Vec<Option<IrConst>> = Vec::new();
    while t.len() < n
        invariant
            t@.len() <= n,
            forall|i: int| 0 <= i < t@.len() ==> t@[i] == None::<IrConst>,
        decreases n - t.len(),
    {
        t.push(None);
    }
    let mut i: usize = 0;
    assert(t@ =~= constants_in(m, 0, n as int));
    while i < f.insts.len()
        invariant
            i <= f.insts@.len(),
            f@ == old(f)@,
            m == f@.insts,
            t@ == constants_in(m, i as int, n as int),
        decreases f.insts.len() - i,
    {
        assert(m[i as int] == f.insts@[i as int]@);
        if let IrInst::Const(r, c) = &f.insts[i] {
            learn(&mut t, *r, *c);
        }
        i += 1;
    }
    let count: usize = f.insts.len();
    let mut k: usize = 0;
    while k < count
        invariant
            k <= count == f.insts@.len() == m.len(),
            m == old(f)@.insts,
            f.name == old(f).name,
            f.params == old(f).params,
            f.next_reg == old(f).next_reg,
            n == f.next_reg,
            views::views(f.insts@.take(k as int)) == folded(m, k as int, n as int).0,
            t@ == folded(m, k as int, n as int).1,
            forall|j: int| k <= j < count ==> (#[trigger] f.insts@[j])@ == m[j],
        decreases count - k,
    {
        assert(f.insts@[k as int]@ == m[k as int]);
        let ghost before = f.insts@;
        if let Some(c) = compute(&f.insts[k], &t) {
            if let Some(d) = f.insts[k].dst() {
                learn(&mut t, d, c);
                f.insts.set(k, IrInst::Const(d, c));
            }
        }
        proof {
            let now = f.insts@[k as int];
            assert(f.insts@.take(k + 1) =~= before.take(k as int).push(now));
            views::lemma_views_push(before.take(k as int), now);
        }
        k += 1;
    }
    assert(f.insts@.take(k as int) =~= f.insts@);
}

fn key_at(i: &IrInst) -> (k: Option<InstKey>)
    ensures
        k == key_of(i@),
{
    match i {
        IrInst::Const(_, c) => Some(InstKey::Const(*c)),
        IrInst::Binary(_, op, a, b) => Some(InstKey::Binary(*op, *a, *b)),
        IrInst::Unary(_, op, a) => Some(InstKey::Unary(*op, *a)),
        _ => None,
    }
}

fn find_first(seen: &Vec<(InstKey, IrReg)>, k: InstKey) -> (r: Option<IrReg>)
    ensures
        r == first_with(seen@, k, 0),
{
    let mut i: usize = 0;
    while i < seen.len()
        invariant
            i <= seen@.len(),
            first_with(seen@, k, 0) == first_with(seen@, k, i as int),
        decreases seen.len() - i,
    {
        if seen[i].0 == k {
            return Some(seen[i].1);
        }
        i += 1;
    }
    None
}

fn find_stand_in(same: &Vec<(IrReg, IrReg)>, r: IrReg) -> (s: IrReg)
    ensures
        s == stand_in(same@, r, 0),
{
    let mut i: usize = 0;
    while i < same.len()
        invariant
            i <= same@.len(),
            stand_in(same@, r, 0) == stand_in(same@, r, i as int),
        decreases same.len() - i,
    {
        if same[i].0 == r {
            return same[i].1;
        }
        i += 1;
    }
    r
}

fn rename(i: &IrInst, same: &Vec<(IrReg, IrReg)>) -> (r: IrInst)
    ensures
        r@ == renamed(i@, same@),
{
    match i {
        IrInst::Binary(d, op, a, b) => IrInst::Binary(*d, *op, find_stand_in(same, *a), find_stand_in(same, *b)),
        IrInst::Unary(d, op, a) => IrInst::Unary(*d, *op, find_stand_in(same, *a)),
        IrInst::Move(d, a) => IrInst::Move(*d, find_stand_in(same, *a)),
        IrInst::Call(d, n, args) => {
            let mut out: Vec<IrReg> = Vec::new();
            let mut k: usize = 0;
            while k < args.len()
                invariant
                    k <= args@.len(),
                    out@.len() == k,
                    forall|j: int| 0 <= j < k ==> out@[j] == stand_in(same@, args@[j], 0),
                decreases args.len() - k,
            {
                out.push(find_stand_in(same, args[k]));
                k += 1;
            }
            assert(out@ =~= stand_ins(same@, args@));
            IrInst::Call(*d, n.clone(), out)
        },
        IrInst::Return(Some(a)) => IrInst::Return(Some(find_stand_in(same, *a))),
        IrInst::Return(None) => IrInst::Return(None),
        IrInst::Eval(a) => IrInst::Eval(find_stand_in(same, *a)),
        IrInst::Const(d, c) => IrInst::Const(*d, *c),
    }
}

/// Common-subexpression elimination: where an operation on the same registers, or the same
/// constant, was computed before, the first register is read in place of the later one.
pub fn cse(f: &mut IrFn)
    ensures
        final(f)@ == cse_of(old(f)@),
{
    let ghost m = f@.insts;
    let mut seen: Vec<(InstKey, IrReg)> = Vec::new();
    let mut same: Vec<(IrReg, IrReg)> = Vec::new();
    let mut i: usize = 0;
    while i < f.insts.len()
        invariant
            i <= f.insts@.len(),
            f@ == old(f)@,
            m == f@.insts,
            (seen@, same@) == repeats(m, i as int),
        decreases f.insts.len() - i,
    {
        assert(m[i as int] == f.insts@[i as int]@);
        if let Some(k) = key_at(&f.insts[i]) {
            if let Some(d) = f.insts[i].dst() {
                match find_first(&seen, k) {
                    Some(prior) => {
                        same.push((d, prior));
                    },
                    None => {
                        seen.push((k, d));
                    },
                }
            }
        }
        i += 1;
    }
    let mut out: Vec<IrInst> = Vec::new();
    let mut k: usize = 0;
    while k < f.insts.len()
        invariant
            k <= f.insts@.len(),
            f@ == old(f)@,
            m == f@.insts,
            same@ == repeats(m, m.len() as int).1,
            out@.len() == k,
            forall|j: int| 0 <= j < k ==> (#[trigger] out@[j])@ == renamed(m[j], same@),
        decreases f.insts.len() - k,
    {
        assert(m[k as int] == f.insts@[k as int]@);
        out.push(rename(&f.insts[k], &same));
        k += 1;
    }
    f.insts = out;
    assert(f@ =~= cse_of(old(f)@));
}

fn is_marked(used: &Vec<bool>, r: IrReg) -> (b: bool)
    ensures
        b == marked(used@, r),
{
    (r.0 as usize) < used.len() && used[r.0 as usize]
}

fn mark_one(used: &mut Vec<bool>, r: IrReg)
    ensures
        final(used)@ == if r.0 < old(used)@.len() {
            old(used)@.update(r.0 as int, true)
        } else {
            old(used)@
        },
{
    if (r.0 as usize) < used.len() {
        used.set(r.0 as usize, true);
    }
}

fn mark_list(used: &mut Vec<bool>, rs: &Vec<IrReg>)
    ensures
        final(used)@ == mark_all(old(used)@, rs@, rs@.len() as int),
{
    let mut i: usize = 0;
    while i < rs.len()
        invariant
            i <= rs@.len(),
            used@ == mark_all(old(used)@, rs@, i as int),
        decreases rs.len() - i,
    {
        mark_one(used, rs[i]);
        i += 1;
    }
}

fn mark_reads(used: &mut Vec<bool>, i: &IrInst)
    ensures
        final(used)@ == mark_all(old(used)@, i@.reads(), i@.reads().len() as int),
{
    proof {
        reveal_with_fuel(mark_all, 3);
    }
    match i {
        IrInst::Binary(_, _, a, b) => {
            mark_one(used, *a);
            mark_one(used, *b);
        },
        IrInst::Unary(_, _, a) => mark_one(used, *a),
        IrInst::Move(_, a) => mark_one(used, *a),
        IrInst::Call(_, _, args) => mark_list(used, args),
        IrInst::Return(Some(a)) => mark_one(used, *a),
        IrInst::Eval(a) => mark_one(used, *a),
        _ => {},
    }
}

fn does_stay(i: &IrInst, used: &Vec<bool>) -> (r: bool)
    ensures
        r == stays(i@, used@),
{
    if !i.is_pure() {
        return true;
    }
    match i.dst() {
        Some(d) => is_marked(used, d),
        None => true,
    }
}

/// Dead-code elimination: an instruction that only writes a register goes where nothing
/// that stays reads the register.
pub fn dce(f: &mut IrFn)
    ensures
        final(f)@ == dce_of(old(f)@),
{
    let ghost m = f@;
    let n: usize = f.next_reg as usize;
    let mut used: Vec<bool> = Vec::new();
    while used.len() < n
        invariant
            used@.len() <= n,
            forall|i: int| 0 <= i < used@.len() ==> !used@[i],
        decreases n - used.len(),
    {
        used.push(false);
    }
    assert(used@ =~= Seq::new(n as nat, |i: int| false));
    mark_list(&mut used, &f.params);
    let mut k: usize = f.insts.len();
    while k > 0
        invariant
            k <= f.insts@.len(),
            f@ == m,
            used@ == read_from(m, k as int),
        decreases k,
    {
        k -= 1;
        assert(m.insts[k as int] == f.insts@[k as int]@);
        if does_stay(&f.insts[k], &used) {
            mark_reads(&mut used, &f.insts[k]);
        }
    }
    let mut out: Vec<IrInst> = Vec::new();
    let mut i: usize = 0;
    assert(views::views(out@) =~= Seq::empty());
    while i < f.insts.len()
        invariant
            i <= f.insts@.len(),
            f@ == m,
            used@ == read_from(m, 0),
            views::views(out@) == kept(m.insts, i as int, used@),
        decreases f.insts.len() - i,
    {
        assert(m.insts[i as int] == f.insts@[i as int]@);
        if does_stay(&f.insts[i], &used) {
            let x = f.insts[i].clone();
            proof {
                views::lemma_views_push(out@, x);
            }
            out.push(x);
        }
        i += 1;
    }
    f.insts = out;
}

fn copy_insts(a: &Vec<IrInst>) -> (r: Vec<IrInst>)
    ensures
        views::views(r@) == views::views(a@),
{
    let mut out: Vec<IrInst> = Vec::new();
    let mut i: usize = 0;
    while i < a.len()
        invariant
            i <= a@.len(),
            out@.len() == i,
            forall|j: int| 0 <= j < i ==> (#[trigger] out@[j])@ == a@[j]@,
        decreases a.len() - i,
    {
        out.push(a[i].clone());
        i += 1;
    }
    assert(views::views(out@) =~= views::views(a@));
    out
}

fn same_insts(a: &Vec<IrInst>, b: &Vec<IrInst>) -> (r: bool)
    ensures
        r == (views::views(a@) == views::views(b@)),
{
    let ghost ma = views::views(a@);
    let ghost mb = views::views(b@);
    assert(ma.len() == a@.len() && mb.len() == b@.len());
    if a.len() != b.len() {
        return false;
    }
    let mut i: usize = 0;
    while i < a.len()
        invariant
            i <= a@.len() == b@.len(),
            ma == views::views(a@),
            mb == views::views(b@),
            forall|j: int| 0 <= j < i ==> ma[j] == mb[j],
        decreases a.len() - i,
    {
        assert(ma[i as int] == a@[i as int]@);
        assert(mb[i as int] == b@[i as int]@);
        if !a[i].same(&b[i]) {
            return false;
        }
        i += 1;
    }
    assert(ma =~= mb);
    true
}

fn optimise_fn(f: &mut IrFn)
    ensures
        final(f)@ == settled(old(f)@, u128::MAX as nat),
{
    let mut left: u128 = u128::MAX;
    while left > 0
        invariant
            settled(old(f)@, u128::MAX as nat) == settled(f@, left as nat),
        decreases left,
    {
        let before = copy_insts(&f.insts);
        let ghost m = f@;
        const_fold(f);
        cse(f);
        dce(f);
        if same_insts(&f.insts, &before) {
            return;
        }
        left -= 1;
    }
}

/// Runs the three passes on every function until a round changes nothing, within
/// 2^128 - 1 rounds.
pub fn optimise(module: &mut IrModule)
    ensures
        final(module)@ == Seq::new(old(module)@.len(), |i: int| settled(old(module)@[i], u128::MAX as nat)),
{
    let ghost m = module@;
    let n: usize = module.functions.len();
    let mut i: usize = 0;
    while i < n
        invariant
            i <= n == module.functions@.len() == m.len(),
            m == old(module)@,
            forall|j: int| 0 <= j < i ==> (#[trigger] module.functions@[j])@ == settled(m[j], u128::MAX as nat),
            forall|j: int| i <= j < n ==> (#[trigger] module.functions@[j])@ == m[j],
        decreases n - i,
    {
        assert(module.functions@[i as int]@ == m[i as int]);
        optimise_fn(&mut module.functions[i]);
        i += 1;
    }
    assert(module@ =~= Seq::new(m.len(), |i: int| settled(m[i], u128::MAX as nat)));
}

/// How many instructions the first `k` functions have.
pub open spec fn inst_count(m: Seq<FnModel>, k: int) -> nat
    decreases k,
{
    if k <= 0 {
        0
    } else {
        inst_count(m, k - 1) + m[k - 1].insts.len()
    }
}

/// How many instructions a module has, up to the largest number that can be counted.
pub fn count_insts(module: &IrModule) -> (r: usize)
    ensures
        inst_count(module@, module@.len() as int) <= usize::MAX ==> r == inst_count(module@, module@.len() as int),
        inst_count(module@, module@.len() as int) > usize::MAX ==> r == usize::MAX,
{
    let ghost m = module@;
    let mut n: usize = 0;
    let mut i: usize = 0;
    while i < module.functions.len()
        invariant
            i <= module.functions@.len(),
            m == module@,
            n == inst_count(m, i as int) || (n == usize::MAX && inst_count(m, i as int) > usize::MAX),
        decreases module.functions.len() - i,
    {
        assert(m[i as int] == module.functions@[i as int]@);
        let k: usize = module.functions[i].insts.len();
        assert(m[i as int].insts.len() == k);
        n = if k > usize::MAX - n { usize::MAX } else { n + k };
        i += 1;
    }
    n
}

// --- text ---------------------------------------------------------------------------

/// A register in words.
pub open spec fn reg_text(r: IrReg) -> Seq<char> {
    "IrReg("@ + text::dec(r.0 as nat) + ")"@
}

/// A constant in words.
pub open spec fn const_text(c: IrConst) -> Seq<char> {
    match c {
        IrConst::Nil => "Nil"@,
        IrConst::Bool(b) => "Bool("@ + crate::vm::value::bool_text(b) + ")"@,
        IrConst::Int(v) => "Int("@ + text::dec_int(v as int) + ")"@,
        IrConst::Float(b) => "Float("@ + text::dec(b as nat) + ")"@,
        IrConst::StrId(n) => "StrId("@ + text::dec(n as nat) + ")"@,
    }
}

/// An operator in words.
pub open spec fn binop_text(op: BinOp) -> Seq<char> {
    match op {
        BinOp::Add => "Add"@,
        BinOp::Sub => "Sub"@,
        BinOp::Mul => "Mul"@,
        BinOp::Div => "Div"@,
        BinOp::Mod => "Mod"@,
        BinOp::Eq => "Eq"@,
        BinOp::Ne => "Ne"@,
        BinOp::Lt => "Lt"@,
        BinOp::Le => "Le"@,
        BinOp::Gt => "Gt"@,
        BinOp::Ge => "Ge"@,
        BinOp::And => "And"@,
        BinOp::Or => "Or"@,
    }
}

/// An operator in words.
pub open spec fn unop_text(op: UnOp) -> Seq<char> {
    match op {
        UnOp::Neg => "Neg"@,
        UnOp::Not => "Not"@,
    }
}

/// The first `k` registers, with commas between.
pub open spec fn regs_text(rs: Seq<IrReg>, k: int) -> Seq<char>
    decreases k,
{
    if k <= 0 {
        Seq::empty()
    } else if k == 1 {
        reg_text(rs[0])
    } else {
        regs_text(rs, k - 1) + ", "@ + reg_text(rs[k - 1])
    }
}

/// An instruction in words.
pub open spec fn inst_text(i: InstModel) -> Seq<char> {
    match i {
        InstModel::Const(d, c) => "Const("@ + reg_text(d) + ", "@ + const_text(c) + ")"@,
        InstModel::Binary(d, op, a, b) => "Binary("@ + reg_text(d) + ", "@ + binop_text(op) + ", "@ + reg_text(a)
            + ", "@ + reg_text(b) + ")"@,
        InstModel::Unary(d, op, a) => "Unary("@ + reg_text(d) + ", "@ + unop_text(op) + ", "@ + reg_text(a) + ")"@,
        InstModel::Move(d, a) => "Move("@ + reg_text(d) + ", "@ + reg_text(a) + ")"@,
        InstModel::Call(d, n, args) => "Call("@ + reg_text(d) + ", "@ + text::debug_str(n) + ", ["@ + regs_text(
            args,
            args.len() as int,
        ) + "])"@,
        InstModel::Return(Some(r)) => "Return(Some("@ + reg_text(r) + "))"@,
        InstModel::Return(None) => "Return(None)"@,
        InstModel::Eval(r) => "Eval("@ + reg_text(r) + ")"@,
    }
}

/// A number in at least four places.
pub open spec fn four(n: nat) -> Seq<char> {
    if n < 10 {
        "000"@ + text::dec(n)
    } else if n < 100 {
        "00"@ + text::dec(n)
    } else if n < 1000 {
        "0"@ + text::dec(n)
    } else {
        text::dec(n)
    }
}

/// The first `k` instructions, one to a line.
pub open spec fn insts_text(is: Seq<InstModel>, k: int) -> Seq<char>
    decreases k,
{
    if k <= 0 {
        Seq::empty()
    } else {
        insts_text(is, k - 1) + "  "@ + four((k - 1) as nat) + ": "@ + inst_text(is[k - 1]) + "\n"@
    }
}

/// A function.
pub open spec fn fn_text(f: FnModel) -> Seq<char> {
    "fn "@ + f.name + "#"@ + text::dec(f.params.len()) + "\n"@ + insts_text(f.insts, f.insts.len() as int)
}

/// The first `k` functions.
pub open spec fn module_text(m: Seq<FnModel>, k: int) -> Seq<char>
    decreases k,
{
    if k <= 0 {
        Seq::empty()
    } else {
        module_text(m, k - 1) + fn_text(m[k - 1])
    }
}

fn push_reg(out: &mut String, r: IrReg)
    ensures
        final(out)@ == old(out)@ + reg_text(r),
{
    out.append("IrReg(");
    push_dec(out, r.0 as u64);
    out.append(")");
    assert(out@ =~= old(out)@ + reg_text(r));
}

fn push_const(out: &mut String, c: IrConst)
    ensures
        final(out)@ == old(out)@ + const_text(c),
{
    match c {
        IrConst::Nil => {
            out.append("Nil");
        },
        IrConst::Bool(b) => {
            out.append("Bool(");
            out.append(crate::vm::value::bool_str(b));
            out.append(")");
        },
        IrConst::Int(v) => {
            out.append("Int(");
            push_dec_int(out, v);
            out.append(")");
        },
        IrConst::Float(b) => {
            out.append("Float(");
            push_dec(out, b);
            out.append(")");
        },
        IrConst::StrId(n) => {
            out.append("StrId(");
            push_dec(out, n as u64);
            out.append(")");
        },
    }
    assert(out@ =~= old(out)@ + const_text(c));
}

fn binop_str(op: BinOp) -> (r: &'static str)
    ensures
        r@ == binop_text(op),
{
    match op {
        BinOp::Add => "Add",
        BinOp::Sub => "Sub",
        BinOp::Mul => "Mul",
        BinOp::Div => "Div",
        BinOp::Mod => "Mod",
        BinOp::Eq => "Eq",
        BinOp::Ne => "Ne",
        BinOp::Lt => "Lt",
        BinOp::Le => "Le",
        BinOp::Gt => "Gt",
        BinOp::Ge => "Ge",
        BinOp::And => "And",
        BinOp::Or => "Or",
    }
}

fn unop_str(op: UnOp) -> (r: &'static str)
    ensures
        r@ == unop_text(op),
{
    match op {
        UnOp::Neg => "Neg",
        UnOp::Not => "Not",
    }
}

fn push_regs(out: &mut String, rs: &Vec<IrReg>)
    ensures
        final(out)@ == old(out)@ + regs_text(rs@, rs@.len() as int),
{
    let mut i: usize = 0;
    assert(out@ =~= old(out)@ + regs_text(rs@, 0));
    while i < rs.len()
        invariant
            i <= rs@.len(),
            out@ == old(out)@ + regs_text(rs@, i as int),
        decreases rs.len() - i,
    {
        if i > 0 {
            out.append(", ");
        }
        push_reg(out, rs[i]);
        i += 1;
        assert(out@ =~= old(out)@ + regs_text(rs@, i as int));
    }
}

#[verifier::spinoff_prover]
fn push_inst(out: &mut String, i: &IrInst)
    ensures
        final(out)@ == old(out)@ + inst_text(i@),
{
    match i {
        IrInst::Const(d, c) => {
            out.append("Const(");
            push_reg(out, *d);
            out.append(", ");
            push_const(out, *c);
            out.append(")");
        },
        IrInst::Binary(d, op, a, b) => {
            out.append("Binary(");
            push_reg(out, *d);
            out.append(", ");
            out.append(binop_str(*op));
            out.append(", ");
            push_reg(out, *a);
            out.append(", ");
            push_reg(out, *b);
            out.append(")");
        },
        IrInst::Unary(d, op, a) => {
            out.append("Unary(");
            push_reg(out, *d);
            out.append(", ");
            out.append(unop_str(*op));
            out.append(", ");
            push_reg(out, *a);
            out.append(")");
        },
        IrInst::Move(d, a) => {
            out.append("Move(");
            push_reg(out, *d);
            out.append(", ");
            push_reg(out, *a);
            out.append(")");
        },
        IrInst::Call(d, n, args) => {
            out.append("Call(");
            push_reg(out, *d);
            out.append(", ");
            out.append(str_debug(n.as_str()).as_str());
            out.append(", [");
            push_regs(out, args);
            out.append("])");
        },
        IrInst::Return(Some(r)) => {
            out.append("Return(Some(");
            push_reg(out, *r);
            out.append("))");
        },
        IrInst::Return(None) => {
            out.append("Return(None)");
        },
        IrInst::Eval(r) => {
            out.append("Eval(");
            push_reg(out, *r);
            out.append(")");
        },
    }
    assert(out@ =~= old(out)@ + inst_text(i@));
}

fn push_four(out: &mut String, n: usize)
    ensures
        final(out)@ == old(out)@ + four(n as nat),
{
    if n < 10 {
        out.append("000");
    } else if n < 100 {
        out.append("00");
    } else if n < 1000 {
        out.append("0");
    }
    push_dec(out, n as u64);
    assert(out@ =~= old(out)@ + four(n as nat));
}

fn push_insts(out: &mut String, is: &Vec<IrInst>)
    ensures
        final(out)@ == old(out)@ + insts_text(views::views(is@), is@.len() as int),
{
    let ghost m = views::views(is@);
    let mut i: usize = 0;
    assert(out@ =~= old(out)@ + insts_text(m, 0));
    while i < is.len()
        invariant
            i <= is@.len(),
            m == views::views(is@),
            out@ == old(out)@ + insts_text(m, i as int),
        decreases is.len() - i,
    {
        assert(m[i as int] == is@[i as int]@);
        out.append("  ");
        push_four(out, i);
        out.append(": ");
        push_inst(out, &is[i]);
        out.append("\n");
        i += 1;
        assert(out@ =~= old(out)@ + insts_text(m, i as int));
    }
}

/// A module as text: one instruction to a line, under the name of its function.
pub fn serialise(module: &IrModule) -> (r: String)
    ensures
        r@ == module_text(module@, module@.len() as int),
{
    let ghost m = module@;
    let mut out = String::new();
    let mut i: usize = 0;
    assert(out@ =~= module_text(m, 0));
    while i < module.functions.len()
        invariant
            i <= module.functions@.len(),
            m == module@,
            out@ == module_text(m, i as int),
        decreases module.functions.len() - i,
    {
        assert(m[i as int] == module.functions@[i as int]@);
        let f = &module.functions[i];
        assert(views::views(f.insts@).len() == f.insts@.len());
        out.append("fn ");
        out.append(f.name.as_str());
        out.append("#");
        push_dec(&mut out, f.params.len() as u64);
        out.append("\n");
        push_insts(&mut out, &f.insts);
        i += 1;
        assert(out@ =~= module_text(m, i as int));
    }
    out
}

} // verus!
