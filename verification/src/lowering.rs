//! What lowered code does, told from the tree: which calls it makes with which values, in
//! which order, and what it returns. Registers and their numbers do not come into it.
//!
//! Lowered code is a straight line: it goes through both arms of an `if` and once through
//! the body of a loop, and it holds nil for what is made of several values.

use crate::ast::{BlockModel, ExprKindModel, ExprModel, FnDeclModel, LitModel, ParamModel, StmtKindModel, StmtModel};
use crate::ir;
use crate::ir::{InstModel, IrConst, IrReg, Low, Names};
use crate::passes;
use crate::passes::{room, run, tidy, Event, Term};
use crate::typeck;
use vstd::prelude::*;

verus! {

// --- the tree ----------------------------------------------------------------------------

/// The names with their values, latest last, and what was seen so far.
#[verifier::ext_equal]
pub struct Told {
    pub env: Seq<(Seq<char>, Term)>,
    pub trace: Seq<Event>,
}

/// Nil.
pub open spec fn nil() -> Term {
    Term::Const(IrConst::Nil)
}

/// The constant of a literal; texts are not told apart.
pub open spec fn const_of(l: LitModel) -> IrConst {
    match l {
        LitModel::Nil => IrConst::Nil,
        LitModel::Bool(b) => IrConst::Bool(b),
        LitModel::Int(v) => IrConst::Int(v),
        LitModel::Float(b) => IrConst::Float(b),
        LitModel::Str(_) => IrConst::StrId(0),
    }
}

/// The place of the latest of a name.
pub open spec fn latest(env: Seq<(Seq<char>, Term)>, n: Seq<char>) -> Option<int> {
    if exists|i: int| is_latest(env, n, i) {
        Some(choose|i: int| is_latest(env, n, i))
    } else {
        None
    }
}

/// Whether a place is that of the latest of a name.
pub open spec fn is_latest(env: Seq<(Seq<char>, Term)>, n: Seq<char>, i: int) -> bool {
    &&& 0 <= i < env.len()
    &&& env[i].0 == n
    &&& forall|j: int| i < j < env.len() ==> (#[trigger] env[j]).0 != n
}

impl Told {
    /// The value of a name; nil where it has none.
    pub open spec fn value(self, n: Seq<char>) -> Term {
        match latest(self.env, n) {
            Some(i) => self.env[i].1,
            None => nil(),
        }
    }

    /// With another name.
    pub open spec fn bound(self, n: Seq<char>, v: Term) -> Told {
        Told { env: self.env.push((n, v)), ..self }
    }

    /// With another value of a name, where it has one.
    pub open spec fn set(self, n: Seq<char>, v: Term) -> Told {
        match latest(self.env, n) {
            Some(i) => Told { env: self.env.update(i, (n, v)), ..self },
            None => self,
        }
    }

    /// With only the first `k` names.
    pub open spec fn cut(self, k: int) -> Told {
        Told { env: self.env.take(k), ..self }
    }

    /// With another event.
    pub open spec fn seen(self, e: Event) -> Told {
        Told { trace: self.trace.push(e), ..self }
    }
}

/// What an expression does, and its value.
#[verifier::opaque]
pub open spec fn v_expr(e: ExprModel, t: Told) -> (Told, Term)
    decreases e, 0int,
{
    match e.kind {
        ExprKindModel::Lit(l) => (t, Term::Const(const_of(typeck::literal_value(l, e.ty)))),
        ExprKindModel::Ident(n) => (t, t.value(n)),
        ExprKindModel::Binary(op, l, r) => {
            let (t1, a) = v_expr(*l.it, t);
            let (t2, b) = v_expr(*r.it, t1);
            (t2, passes::binary(op, a, b))
        },
        ExprKindModel::Unary(op, x) => {
            let (t1, a) = v_expr(*x.it, t);
            (t1, passes::unary(op, a))
        },
        ExprKindModel::Call(c, args) => {
            let (t1, vs) = v_exprs(args, args.len() as int, t);
            let n = match c.it.kind {
                ExprKindModel::Ident(n) => n,
                _ => "<indirect>"@,
            };
            (t1.seen(Event::Call(n, vs)), Term::Answer(t1.trace.len()))
        },
        ExprKindModel::Field(x, _) => v_expr(*x.it, t),
        ExprKindModel::Index(x, _) => v_expr(*x.it, t),
        ExprKindModel::StructLit(_, fs) => (v_inits(fs, fs.len() as int, t), nil()),
        ExprKindModel::ArrayLit(es) => (v_exprs(es, es.len() as int, t).0, nil()),
        ExprKindModel::MapLit(ps) => (v_pairs(ps, ps.len() as int, t), nil()),
        ExprKindModel::Closure(_, _) => (t, nil()),
        ExprKindModel::Block(b) => match v_block(*b.it, t) {
            (t1, Some(v)) => (t1, v),
            (t1, None) => (t1, nil()),
        },
        ExprKindModel::If(c, yes, no) => {
            let t1 = v_block(*yes.it, v_expr(*c.it, t).0).0;
            match no {
                Some(b) => (v_block(*b.it, t1).0, nil()),
                None => (t1, nil()),
            }
        },
    }
}

/// The first `k` expressions, from left to right.
#[verifier::opaque]
pub open spec fn v_exprs(es: Seq<ExprModel>, k: int, t: Told) -> (Told, Seq<Term>)
    decreases es, k,
{
    if k <= 0 || k > es.len() {
        (t, Seq::empty())
    } else {
        let (t1, vs) = v_exprs(es, k - 1, t);
        let (t2, v) = v_expr(es[k - 1], t1);
        (t2, vs.push(v))
    }
}

/// The first `k` initializers.
#[verifier::opaque]
pub open spec fn v_inits(fs: Seq<(Seq<char>, ExprModel)>, k: int, t: Told) -> Told
    decreases fs, k,
{
    if k <= 0 || k > fs.len() {
        t
    } else {
        v_expr(fs[k - 1].1, v_inits(fs, k - 1, t)).0
    }
}

/// The first `k` entries, each key before its value.
#[verifier::opaque]
pub open spec fn v_pairs(ps: Seq<(ExprModel, ExprModel)>, k: int, t: Told) -> Told
    decreases ps, k,
{
    if k <= 0 || k > ps.len() {
        t
    } else {
        v_expr(ps[k - 1].1, v_expr(ps[k - 1].0, v_pairs(ps, k - 1, t)).0).0
    }
}

/// A block, and its value where it has one. Its names are gone behind it.
#[verifier::opaque]
pub open spec fn v_block(b: BlockModel, t: Told) -> (Told, Option<Term>)
    decreases b, 0int,
{
    let t1 = v_stmts(b.stmts, b.stmts.len() as int, t);
    match b.tail {
        Some(e) => {
            let (t2, v) = v_expr(e, t1);
            (t2.cut(t.env.len() as int), Some(v))
        },
        None => (t1.cut(t.env.len() as int), None),
    }
}

/// The first `k` statements.
#[verifier::opaque]
pub open spec fn v_stmts(ss: Seq<StmtModel>, k: int, t: Told) -> Told
    decreases ss, k,
{
    if k <= 0 || k > ss.len() {
        t
    } else {
        v_stmt(ss[k - 1], v_stmts(ss, k - 1, t))
    }
}

/// A statement.
#[verifier::opaque]
pub open spec fn v_stmt(st: StmtModel, t: Told) -> Told
    decreases st, 0int,
{
    match st.kind {
        StmtKindModel::Let { name, ty, mutable, init } => {
            let (t1, v) = v_expr(init, t);
            t1.bound(name, v)
        },
        StmtKindModel::Assign(target, x) => {
            let (t1, v) = v_expr(x, t);
            match target.kind {
                ExprKindModel::Ident(n) => t1.set(n, v),
                _ => t1.seen(Event::Eval(v)),
            }
        },
        StmtKindModel::Expr(e) => {
            let (t1, v) = v_expr(e, t);
            t1.seen(Event::Eval(v))
        },
        StmtKindModel::Return(None) => t.seen(Event::Return(None)),
        StmtKindModel::Return(Some(e)) => {
            let (t1, v) = v_expr(e, t);
            t1.seen(Event::Return(Some(v)))
        },
        StmtKindModel::While(_, body) => v_block(*body.it, t).0,
        StmtKindModel::If(c, yes, no) => {
            let t1 = v_block(*yes.it, v_expr(c, t).0).0;
            match no {
                Some(b) => v_block(*b.it, t1).0,
                None => t1,
            }
        },
        _ => t,
    }
}

/// The names of parameters, each with what the caller hands over.
pub open spec fn handed(ps: Seq<ParamModel>) -> Told {
    Told { env: Seq::new(ps.len(), |i: int| (ps[i].name, Term::Param(IrReg(i as u32)))), trace: Seq::empty() }
}

/// What a function does: what its body does, and then it returns the value of its body.
pub open spec fn v_fn(f: FnDeclModel) -> Seq<Event> {
    let (t, v) = v_block(f.body, handed(f.params));
    t.trace.push(Event::Return(v))
}

// --- the code ----------------------------------------------------------------------------

/// Whether code that was lowered so far has done what is told, and the names have their
/// values.
spec fn agrees(ps: Seq<IrReg>, s: Low, t: Told) -> bool {
    &&& tidy(ps, s)
    &&& run(ps, s.insts).trace == t.trace
    &&& s.names.len() == t.env.len()
    &&& forall|i: int| 0 <= i < s.names.len() ==> holds(ps, s, #[trigger] s.names[i], t.env[i])
}

/// Whether a name stands for a register that holds a value.
spec fn holds(ps: Seq<IrReg>, s: Low, x: (Seq<char>, IrReg), y: (Seq<char>, Term)) -> bool {
    x.0 == y.0 && x.1.0 < s.next && run(ps, s.insts).get(x.1) == y.1
}

/// Whether the registers of the first code hold the same behind the second.
spec fn keeps(ps: Seq<IrReg>, s: Low, u: Low) -> bool {
    &&& s.next <= u.next
    &&& forall|r: IrReg| r.0 < s.next ==> #[trigger] run(ps, u.insts).get(r) == run(ps, s.insts).get(r)
}

proof fn lemma_keeps_then(ps: Seq<IrReg>, s: Low, m: Low, u: Low)
    requires
        keeps(ps, s, m),
        keeps(ps, m, u),
    ensures
        keeps(ps, s, u),
{
    assert forall|r: IrReg| r.0 < s.next implies #[trigger] run(ps, u.insts).get(r) == run(ps, s.insts).get(r) by {
        assert(run(ps, m.insts).get(r) == run(ps, s.insts).get(r));
    }
}

proof fn lemma_emitted(ps: Seq<IrReg>, s: Seq<InstModel>, i: InstModel)
    ensures
        run(ps, s.push(i)) == run(ps, s).step(i),
{
    assert(s.push(i).drop_last() =~= s);
}

/// One more value, in the next register.
proof fn lemma_value(ps: Seq<IrReg>, s: Low, t: Told, i: InstModel, v: Term)
    requires
        agrees(ps, s, t),
        tidy(ps, s.taken().emit(i)),
        s.next < s.taken().next,
        i.dst() == Some(s.reg()),
        !(i is Call),
        run(ps, s.insts).step(i) == run(ps, s.insts).put(s.reg(), v),
    ensures
        agrees(ps, s.taken().emit(i), t),
        keeps(ps, s, s.taken().emit(i)),
        run(ps, s.taken().emit(i).insts).get(s.reg()) == v,
{
    let u = s.taken().emit(i);
    lemma_emitted(ps, s.insts, i);
    assert forall|k: int| 0 <= k < u.names.len() implies holds(ps, u, #[trigger] u.names[k], t.env[k]) by {
        assert(holds(ps, s, s.names[k], t.env[k]));
    }
}

/// The answer to a call, in the next register.
proof fn lemma_answer(ps: Seq<IrReg>, s: Low, t: Told, n: Seq<char>, rs: Seq<IrReg>, vs: Seq<Term>)
    requires
        agrees(ps, s, t),
        tidy(ps, s.taken().emit(InstModel::Call(s.reg(), n, rs))),
        s.next < s.taken().next,
        rs.len() == vs.len(),
        forall|k: int| 0 <= k < rs.len() ==> run(ps, s.insts).get(#[trigger] rs[k]) == vs[k],
    ensures
        agrees(ps, s.taken().emit(InstModel::Call(s.reg(), n, rs)), t.seen(Event::Call(n, vs))),
        keeps(ps, s, s.taken().emit(InstModel::Call(s.reg(), n, rs))),
        run(ps, s.taken().emit(InstModel::Call(s.reg(), n, rs)).insts).get(s.reg()) == Term::Answer(t.trace.len()),
{
    let i = InstModel::Call(s.reg(), n, rs);
    let u = s.taken().emit(i);
    lemma_emitted(ps, s.insts, i);
    assert(run(ps, s.insts).all(rs) =~= vs);
    assert forall|k: int| 0 <= k < u.names.len() implies holds(ps, u, #[trigger] u.names[k], t.env[k]) by {
        assert(holds(ps, s, s.names[k], t.env[k]));
    }
}

/// One more event.
proof fn lemma_said(ps: Seq<IrReg>, s: Low, t: Told, i: InstModel, x: Event)
    requires
        agrees(ps, s, t),
        tidy(ps, s.emit(i)),
        run(ps, s.insts).step(i) == run(ps, s.insts).seen(x),
    ensures
        agrees(ps, s.emit(i), t.seen(x)),
        keeps(ps, s, s.emit(i)),
{
    let u = s.emit(i);
    lemma_emitted(ps, s.insts, i);
    assert forall|k: int| 0 <= k < u.names.len() implies holds(ps, u, #[trigger] u.names[k], t.env[k]) by {
        assert(holds(ps, s, s.names[k], t.env[k]));
    }
}

proof fn lemma_latest(names: Names, env: Seq<(Seq<char>, Term)>, n: Seq<char>)
    requires
        names.len() == env.len(),
        forall|i: int| 0 <= i < names.len() ==> (#[trigger] names[i]).0 == env[i].0,
    ensures
        ir::bound_at(names, n) == latest(env, n),
        latest(env, n) matches Some(i) ==> is_latest(env, n, i),
    decreases names.len(),
{
    if names.len() > 0 {
        let k = names.len() - 1;
        if names[k].0 == n {
            assert(is_latest(env, n, k));
            assert forall|i: int| is_latest(env, n, i) implies i == k by {
                if i < k {
                    assert(env[k].0 != n);
                }
            }
        } else {
            let m = names.drop_last();
            let x = env.drop_last();
            lemma_latest(m, x, n);
            assert(env[k].0 == names[k].0);
            assert forall|i: int| is_latest(env, n, i) <==> is_latest(x, n, i) by {
                if is_latest(env, n, i) {
                    assert(i < k);
                    assert forall|j: int| i < j < x.len() implies (#[trigger] x[j]).0 != n by {
                        assert(x[j] == env[j]);
                    }
                }
                if is_latest(x, n, i) {
                    assert forall|j: int| i < j < env.len() implies (#[trigger] env[j]).0 != n by {
                        if j < k {
                            assert(x[j] == env[j]);
                        }
                    }
                }
            }
            if exists|i: int| is_latest(env, n, i) {
                let i = choose|i: int| is_latest(env, n, i);
                assert(is_latest(x, n, i));
                let j = choose|j: int| is_latest(x, n, j);
                lemma_one_latest(env, n, i, j);
            }
        }
    } else {
        assert(!exists|i: int| is_latest(env, n, i));
    }
}

proof fn lemma_one_latest(env: Seq<(Seq<char>, Term)>, n: Seq<char>, i: int, j: int)
    requires
        is_latest(env, n, i),
        is_latest(env, n, j),
    ensures
        i == j,
{
    if i < j {
        assert(env[j].0 != n);
    } else if j < i {
        assert(env[i].0 != n);
    }
}

/// Whether an expression was lowered to what it does.
spec fn does(ps: Seq<IrReg>, s: Low, u: (Low, IrReg), t: (Told, Term)) -> bool {
    &&& agrees(ps, u.0, t.0)
    &&& keeps(ps, s, u.0)
    &&& u.1.0 < u.0.next
    &&& run(ps, u.0.insts).get(u.1) == t.1
}

/// Nil in the next register.
proof fn lemma_nil(ps: Seq<IrReg>, s: Low, m: Low, t: Told)
    requires
        agrees(ps, m, t),
        keeps(ps, s, m),
        room(ps, m.constant(IrConst::Nil).0),
    ensures
        does(ps, s, m.constant(IrConst::Nil), (t, nil())),
{
    let i = InstModel::Const(m.reg(), IrConst::Nil);
    passes::lemma_tidy_put(ps, m, i);
    lemma_value(ps, m, t, i, nil());
    lemma_keeps_then(ps, s, m, m.constant(IrConst::Nil).0);
}

proof fn lemma_keeps_self(ps: Seq<IrReg>, s: Low)
    ensures
        keeps(ps, s, s),
{
}

#[verifier::spinoff_prover]
#[verifier::rlimit(60)]
proof fn lemma_does_expr(e: ExprModel, s: Low, ps: Seq<IrReg>, t: Told)
    requires
        agrees(ps, s, t),
        room(ps, ir::l_expr(e, s).0),
    ensures
        does(ps, s, ir::l_expr(e, s), v_expr(e, t)),
    decreases e, 0int,
{
    reveal(ir::l_expr);
    reveal(ir::l_exprs);
    reveal(ir::l_inits);
    reveal(ir::l_pairs);
    reveal(ir::l_block);
    reveal(v_expr);
    reveal(v_exprs);
    reveal(v_inits);
    reveal(v_pairs);
    reveal(v_block);
    lemma_keeps_self(ps, s);
    match e.kind {
        ExprKindModel::Lit(l) => {
            let c = ir::lit_const(typeck::literal_value(l, e.ty));
            let i = InstModel::Const(s.reg(), c);
            passes::lemma_tidy_put(ps, s, i);
            lemma_value(ps, s, t, i, Term::Const(c));
        },
        ExprKindModel::Ident(n) => {
            assert forall|i: int| 0 <= i < s.names.len() implies (#[trigger] s.names[i]).0 == t.env[i].0 by {
                assert(holds(ps, s, s.names[i], t.env[i]));
            }
            lemma_latest(s.names, t.env, n);
            match ir::bound_at(s.names, n) {
                Some(i) => {
                    assert(holds(ps, s, s.names[i], t.env[i]));
                },
                None => {
                    lemma_nil(ps, s, s, t);
                },
            }
        },
        ExprKindModel::Binary(op, l, r) => {
            let (s1, a) = ir::l_expr(*l.it, s);
            let (s2, b) = ir::l_expr(*r.it, s1);
            let (t1, x) = v_expr(*l.it, t);
            let (t2, y) = v_expr(*r.it, t1);
            passes::lemma_far_expr(*r.it, s1);
            lemma_does_expr(*l.it, s, ps, t);
            lemma_does_expr(*r.it, s1, ps, t1);
            let i = InstModel::Binary(s2.reg(), op, a, b);
            assert(run(ps, s2.insts).get(a) == x);
            passes::lemma_tidy_put(ps, s2, i);
            lemma_value(ps, s2, t2, i, passes::binary(op, x, y));
            lemma_keeps_then(ps, s, s1, s2);
            lemma_keeps_then(ps, s, s2, s2.taken().emit(i));
        },
        ExprKindModel::Unary(op, x) => {
            let (s1, a) = ir::l_expr(*x.it, s);
            let (t1, v) = v_expr(*x.it, t);
            lemma_does_expr(*x.it, s, ps, t);
            let i = InstModel::Unary(s1.reg(), op, a);
            passes::lemma_tidy_put(ps, s1, i);
            lemma_value(ps, s1, t1, i, passes::unary(op, v));
            lemma_keeps_then(ps, s, s1, s1.taken().emit(i));
        },
        ExprKindModel::Call(c, args) => {
            let k = args.len() as int;
            let (s1, rs) = ir::l_exprs(args, k, s);
            let (t1, vs) = v_exprs(args, k, t);
            lemma_does_exprs(args, k, s, ps, t);
            let i = InstModel::Call(s1.reg(), ir::callee_name(*c.it), rs);
            passes::lemma_tidy_put(ps, s1, i);
            lemma_answer(ps, s1, t1, ir::callee_name(*c.it), rs, vs);
            lemma_keeps_then(ps, s, s1, s1.taken().emit(i));
        },
        ExprKindModel::Field(x, _) => {
            lemma_moved(*x.it, s, ps, t);
        },
        ExprKindModel::Index(x, _) => {
            lemma_moved(*x.it, s, ps, t);
        },
        ExprKindModel::StructLit(_, fs) => {
            let k = fs.len() as int;
            lemma_does_inits(fs, k, s, ps, t);
            lemma_nil(ps, s, ir::l_inits(fs, k, s), v_inits(fs, k, t));
        },
        ExprKindModel::ArrayLit(es) => {
            let k = es.len() as int;
            lemma_does_exprs(es, k, s, ps, t);
            lemma_nil(ps, s, ir::l_exprs(es, k, s).0, v_exprs(es, k, t).0);
        },
        ExprKindModel::MapLit(kvs) => {
            let k = kvs.len() as int;
            lemma_does_pairs(kvs, k, s, ps, t);
            lemma_nil(ps, s, ir::l_pairs(kvs, k, s), v_pairs(kvs, k, t));
        },
        ExprKindModel::Closure(_, _) => {
            lemma_nil(ps, s, s, t);
        },
        ExprKindModel::Block(b) => {
            let (s1, r) = ir::l_block(*b.it, s);
            lemma_does_block(*b.it, s, ps, t);
            if r is None {
                lemma_nil(ps, s, s1, v_block(*b.it, t).0);
            }
        },
        ExprKindModel::If(c, yes, no) => {
            let s1 = ir::l_expr(*c.it, s).0;
            let s2 = ir::l_block(*yes.it, s1).0;
            let t1 = v_expr(*c.it, t).0;
            let t2 = v_block(*yes.it, t1).0;
            passes::lemma_far_block(*yes.it, s1);
            if let Some(b) = no {
                passes::lemma_far_block(*b.it, s2);
            }
            lemma_does_expr(*c.it, s, ps, t);
            lemma_does_block(*yes.it, s1, ps, t1);
            lemma_keeps_then(ps, s, s1, s2);
            match no {
                Some(b) => {
                    let s3 = ir::l_block(*b.it, s2).0;
                    lemma_does_block(*b.it, s2, ps, t2);
                    lemma_keeps_then(ps, s, s2, s3);
                    lemma_nil(ps, s, s3, v_block(*b.it, t2).0);
                },
                None => {
                    lemma_nil(ps, s, s2, t2);
                },
            }
        },
    }
}

/// A value that is read off another.
#[verifier::spinoff_prover]
proof fn lemma_moved(x: ExprModel, s: Low, ps: Seq<IrReg>, t: Told)
    requires
        agrees(ps, s, t),
        ({
            let (s1, a) = ir::l_expr(x, s);
            room(ps, s1.taken().emit(InstModel::Move(s1.reg(), a)))
        }),
    ensures
        ({
            let (s1, a) = ir::l_expr(x, s);
            does(ps, s, (s1.taken().emit(InstModel::Move(s1.reg(), a)), s1.reg()), v_expr(x, t))
        }),
    decreases x, 1int,
{
    let (s1, a) = ir::l_expr(x, s);
    let (t1, v) = v_expr(x, t);
    lemma_does_expr(x, s, ps, t);
    let i = InstModel::Move(s1.reg(), a);
    passes::lemma_tidy_put(ps, s1, i);
    lemma_value(ps, s1, t1, i, v);
    lemma_keeps_then(ps, s, s1, s1.taken().emit(i));
}

#[verifier::spinoff_prover]
proof fn lemma_does_exprs(es: Seq<ExprModel>, k: int, s: Low, ps: Seq<IrReg>, t: Told)
    requires
        agrees(ps, s, t),
        room(ps, ir::l_exprs(es, k, s).0),
    ensures
        agrees(ps, ir::l_exprs(es, k, s).0, v_exprs(es, k, t).0),
        keeps(ps, s, ir::l_exprs(es, k, s).0),
        ir::l_exprs(es, k, s).1.len() == v_exprs(es, k, t).1.len(),
        ({
            let (u, rs) = ir::l_exprs(es, k, s);
            let vs = v_exprs(es, k, t).1;
            forall|i: int| 0 <= i < rs.len() ==> (#[trigger] rs[i]).0 < u.next && run(ps, u.insts).get(rs[i]) == vs[i]
        }),
    decreases es, k,
{
    reveal(ir::l_exprs);
    reveal(ir::l_expr);
    reveal(v_exprs);
    reveal(v_expr);
    lemma_keeps_self(ps, s);
    if 0 < k <= es.len() {
        let (s1, rs) = ir::l_exprs(es, k - 1, s);
        let (s2, r) = ir::l_expr(es[k - 1], s1);
        let (t1, vs) = v_exprs(es, k - 1, t);
        let (t2, v) = v_expr(es[k - 1], t1);
        passes::lemma_far_expr(es[k - 1], s1);
        lemma_does_exprs(es, k - 1, s, ps, t);
        lemma_does_expr(es[k - 1], s1, ps, t1);
        lemma_keeps_then(ps, s, s1, s2);
        let all = rs.push(r);
        let values = vs.push(v);
        assert forall|i: int| 0 <= i < all.len() implies (#[trigger] all[i]).0 < s2.next && run(ps, s2.insts).get(all[i])
            == values[i] by {
            if i < rs.len() {
                assert(rs[i].0 < s1.next);
                assert(run(ps, s2.insts).get(rs[i]) == run(ps, s1.insts).get(rs[i]));
            }
        }
    }
}

#[verifier::spinoff_prover]
proof fn lemma_does_inits(es: Seq<(Seq<char>, ExprModel)>, k: int, s: Low, ps: Seq<IrReg>, t: Told)
    requires
        agrees(ps, s, t),
        room(ps, ir::l_inits(es, k, s)),
    ensures
        agrees(ps, ir::l_inits(es, k, s), v_inits(es, k, t)),
        keeps(ps, s, ir::l_inits(es, k, s)),
    decreases es, k,
{
    reveal(ir::l_inits);
    reveal(ir::l_expr);
    reveal(v_inits);
    reveal(v_expr);
    lemma_keeps_self(ps, s);
    if 0 < k <= es.len() {
        let s1 = ir::l_inits(es, k - 1, s);
        assert(decreases_to!(es => es[k - 1]));
        assert(decreases_to!(es[k - 1] => es[k - 1].1));
        passes::lemma_far_expr(es[k - 1].1, s1);
        lemma_does_inits(es, k - 1, s, ps, t);
        lemma_does_expr(es[k - 1].1, s1, ps, v_inits(es, k - 1, t));
        lemma_keeps_then(ps, s, s1, ir::l_expr(es[k - 1].1, s1).0);
    }
}

#[verifier::spinoff_prover]
proof fn lemma_does_pairs(es: Seq<(ExprModel, ExprModel)>, k: int, s: Low, ps: Seq<IrReg>, t: Told)
    requires
        agrees(ps, s, t),
        room(ps, ir::l_pairs(es, k, s)),
    ensures
        agrees(ps, ir::l_pairs(es, k, s), v_pairs(es, k, t)),
        keeps(ps, s, ir::l_pairs(es, k, s)),
    decreases es, k,
{
    reveal(ir::l_pairs);
    reveal(ir::l_expr);
    reveal(v_pairs);
    reveal(v_expr);
    lemma_keeps_self(ps, s);
    if 0 < k <= es.len() {
        let s1 = ir::l_pairs(es, k - 1, s);
        assert(decreases_to!(es => es[k - 1]));
        assert(decreases_to!(es[k - 1] => es[k - 1].0));
        assert(decreases_to!(es[k - 1] => es[k - 1].1));
        let s2 = ir::l_expr(es[k - 1].0, s1).0;
        let t1 = v_pairs(es, k - 1, t);
        passes::lemma_far_expr(es[k - 1].0, s1);
        passes::lemma_far_expr(es[k - 1].1, s2);
        lemma_does_pairs(es, k - 1, s, ps, t);
        lemma_does_expr(es[k - 1].0, s1, ps, t1);
        lemma_does_expr(es[k - 1].1, s2, ps, v_expr(es[k - 1].0, t1).0);
        lemma_keeps_then(ps, s, s1, s2);
        lemma_keeps_then(ps, s, s2, ir::l_expr(es[k - 1].1, s2).0);
    }
}

/// Behind a block, only the names from before it are left.
proof fn lemma_cut(ps: Seq<IrReg>, s: Low, t: Told, k: int)
    requires
        agrees(ps, s, t),
        0 <= k <= s.names.len(),
    ensures
        agrees(ps, s.cut(k), t.cut(k)),
{
    let u = s.cut(k);
    assert forall|i: int| 0 <= i < u.names.len() implies holds(ps, u, #[trigger] u.names[i], t.cut(k).env[i]) by {
        assert(holds(ps, s, s.names[i], t.env[i]));
    }
    assert forall|i: int| 0 <= i < u.names.len() implies (#[trigger] u.names[i]).1.0 < u.next by {
        assert(s.names[i].1.0 < s.next);
    }
}

#[verifier::spinoff_prover]
proof fn lemma_does_block(b: BlockModel, s: Low, ps: Seq<IrReg>, t: Told)
    requires
        agrees(ps, s, t),
        room(ps, ir::l_block(b, s).0),
    ensures
        agrees(ps, ir::l_block(b, s).0, v_block(b, t).0),
        keeps(ps, s, ir::l_block(b, s).0),
        ir::l_block(b, s).1 is Some <==> v_block(b, t).1 is Some,
        ir::l_block(b, s).1 matches Some(r) ==> r.0 < ir::l_block(b, s).0.next && run(ps, ir::l_block(b, s).0.insts).get(r)
            == v_block(b, t).1->0,
    decreases b, 0int,
{
    reveal(ir::l_block);
    reveal(ir::l_stmts);
    reveal(ir::l_expr);
    reveal(v_block);
    reveal(v_stmts);
    reveal(v_expr);
    let n = b.stmts.len() as int;
    let k = s.names.len() as int;
    let s1 = ir::l_stmts(b.stmts, n, s);
    let t1 = v_stmts(b.stmts, n, t);
    passes::lemma_far_stmts(b.stmts, n, s);
    match b.tail {
        Some(e) => {
            let (s2, r) = ir::l_expr(e, s1);
            passes::lemma_far_expr(e, s1);
            lemma_does_stmts(b.stmts, n, s, ps, t);
            lemma_does_expr(e, s1, ps, t1);
            lemma_keeps_then(ps, s, s1, s2);
            lemma_cut(ps, s2, v_expr(e, t1).0, k);
        },
        None => {
            lemma_does_stmts(b.stmts, n, s, ps, t);
            lemma_cut(ps, s1, t1, k);
        },
    }
}

#[verifier::spinoff_prover]
proof fn lemma_does_stmts(ss: Seq<StmtModel>, k: int, s: Low, ps: Seq<IrReg>, t: Told)
    requires
        agrees(ps, s, t),
        room(ps, ir::l_stmts(ss, k, s)),
    ensures
        agrees(ps, ir::l_stmts(ss, k, s), v_stmts(ss, k, t)),
        keeps(ps, s, ir::l_stmts(ss, k, s)),
    decreases ss, k,
{
    reveal(ir::l_stmts);
    reveal(ir::l_stmt);
    reveal(v_stmts);
    reveal(v_stmt);
    lemma_keeps_self(ps, s);
    if 0 < k <= ss.len() {
        let s1 = ir::l_stmts(ss, k - 1, s);
        passes::lemma_far_stmt(ss[k - 1], s1);
        lemma_does_stmts(ss, k - 1, s, ps, t);
        lemma_does_stmt(ss[k - 1], s1, ps, v_stmts(ss, k - 1, t));
        lemma_keeps_then(ps, s, s1, ir::l_stmt(ss[k - 1], s1));
    }
}

/// A name gets another register, and with it another value.
proof fn lemma_set(ps: Seq<IrReg>, s: Low, t: Told, n: Seq<char>, r: IrReg, v: Term)
    requires
        agrees(ps, s, t),
        r.0 < s.next,
        run(ps, s.insts).get(r) == v,
    ensures
        agrees(ps, (Low { names: ir::assigned(s.names, n, r), ..s }), t.set(n, v)),
{
    assert forall|i: int| 0 <= i < s.names.len() implies (#[trigger] s.names[i]).0 == t.env[i].0 by {
        assert(holds(ps, s, s.names[i], t.env[i]));
    }
    lemma_latest(s.names, t.env, n);
    let u = Low { names: ir::assigned(s.names, n, r), ..s };
    let w = t.set(n, v);
    assert forall|i: int| 0 <= i < u.names.len() implies holds(ps, u, #[trigger] u.names[i], w.env[i]) by {
        assert(holds(ps, s, s.names[i], t.env[i]));
    }
    assert forall|i: int| 0 <= i < u.names.len() implies (#[trigger] u.names[i]).1.0 < u.next by {
        assert(s.names[i].1.0 < s.next);
    }
}

/// A new name.
proof fn lemma_bound(ps: Seq<IrReg>, s: Low, t: Told, n: Seq<char>, r: IrReg, v: Term)
    requires
        agrees(ps, s, t),
        r.0 < s.next,
        run(ps, s.insts).get(r) == v,
    ensures
        agrees(ps, s.bind(n, r), t.bound(n, v)),
{
    let u = s.bind(n, r);
    let w = t.bound(n, v);
    assert forall|i: int| 0 <= i < u.names.len() implies holds(ps, u, #[trigger] u.names[i], w.env[i]) by {
        if i < s.names.len() {
            assert(holds(ps, s, s.names[i], t.env[i]));
        }
    }
    assert forall|i: int| 0 <= i < u.names.len() implies (#[trigger] u.names[i]).1.0 < u.next by {
        if i < s.names.len() {
            assert(s.names[i].1.0 < s.next);
        }
    }
}

#[verifier::spinoff_prover]
#[verifier::rlimit(60)]
proof fn lemma_does_stmt(st: StmtModel, s: Low, ps: Seq<IrReg>, t: Told)
    requires
        agrees(ps, s, t),
        room(ps, ir::l_stmt(st, s)),
    ensures
        agrees(ps, ir::l_stmt(st, s), v_stmt(st, t)),
        keeps(ps, s, ir::l_stmt(st, s)),
    decreases st, 0int,
{
    reveal(ir::l_stmt);
    reveal(ir::l_expr);
    reveal(ir::l_block);
    reveal(v_stmt);
    reveal(v_expr);
    reveal(v_block);
    lemma_keeps_self(ps, s);
    match st.kind {
        StmtKindModel::Let { name, ty, mutable, init } => {
            let (s1, r) = ir::l_expr(init, s);
            let (t1, v) = v_expr(init, t);
            lemma_does_expr(init, s, ps, t);
            lemma_bound(ps, s1, t1, name, r, v);
        },
        StmtKindModel::Assign(target, x) => {
            let (s1, r) = ir::l_expr(x, s);
            let (t1, v) = v_expr(x, t);
            lemma_does_expr(x, s, ps, t);
            match target.kind {
                ExprKindModel::Ident(n) => {
                    lemma_set(ps, s1, t1, n, r, v);
                },
                _ => {
                    passes::lemma_tidy_say(ps, s1, InstModel::Eval(r));
                    lemma_said(ps, s1, t1, InstModel::Eval(r), Event::Eval(v));
                    lemma_keeps_then(ps, s, s1, s1.emit(InstModel::Eval(r)));
                },
            }
        },
        StmtKindModel::Expr(e) => {
            let (s1, r) = ir::l_expr(e, s);
            let (t1, v) = v_expr(e, t);
            lemma_does_expr(e, s, ps, t);
            passes::lemma_tidy_say(ps, s1, InstModel::Eval(r));
            lemma_said(ps, s1, t1, InstModel::Eval(r), Event::Eval(v));
            lemma_keeps_then(ps, s, s1, s1.emit(InstModel::Eval(r)));
        },
        StmtKindModel::Return(None) => {
            passes::lemma_tidy_say(ps, s, InstModel::Return(None));
            lemma_said(ps, s, t, InstModel::Return(None), Event::Return(None));
        },
        StmtKindModel::Return(Some(e)) => {
            let (s1, r) = ir::l_expr(e, s);
            let (t1, v) = v_expr(e, t);
            lemma_does_expr(e, s, ps, t);
            passes::lemma_tidy_say(ps, s1, InstModel::Return(Some(r)));
            lemma_said(ps, s1, t1, InstModel::Return(Some(r)), Event::Return(Some(v)));
            lemma_keeps_then(ps, s, s1, s1.emit(InstModel::Return(Some(r))));
        },
        StmtKindModel::While(_, body) => {
            lemma_does_block(*body.it, s, ps, t);
        },
        StmtKindModel::If(c, yes, no) => {
            let s1 = ir::l_expr(c, s).0;
            let s2 = ir::l_block(*yes.it, s1).0;
            let t1 = v_expr(c, t).0;
            passes::lemma_far_block(*yes.it, s1);
            if let Some(b) = no {
                passes::lemma_far_block(*b.it, s2);
            }
            lemma_does_expr(c, s, ps, t);
            lemma_does_block(*yes.it, s1, ps, t1);
            lemma_keeps_then(ps, s, s1, s2);
            if let Some(b) = no {
                lemma_does_block(*b.it, s2, ps, v_block(*yes.it, t1).0);
                lemma_keeps_then(ps, s, s2, ir::l_block(*b.it, s2).0);
            }
        },
        _ => {},
    }
}

proof fn lemma_handed(ps: Seq<ParamModel>, k: int)
    requires
        0 <= k <= ps.len() <= u32::MAX,
    ensures
        ({
            let (s, rs) = ir::l_params(ps, k);
            &&& s.insts.len() == 0
            &&& s.next == k
            &&& rs.len() == k
            &&& s.names.len() == k
            &&& forall|i: int| 0 <= i < k ==> #[trigger] rs[i] == IrReg(i as u32)
            &&& forall|i: int| 0 <= i < k ==> #[trigger] s.names[i] == (ps[i].name, IrReg(i as u32))
        }),
    decreases k,
{
    if k > 0 {
        lemma_handed(ps, k - 1);
    }
}

/// The code that a function is lowered to makes the calls that are in it, with the values and
/// in the order in which they are written, and returns what it returns.
pub proof fn law_lowering_keeps_meaning(f: FnDeclModel)
    requires
        f.params.len() + ir::l_fn(f).insts.len() <= u32::MAX,
    ensures
        passes::behaviour(ir::l_fn(f)) == v_fn(f),
{
    let n = f.params.len() as int;
    let (s, ps) = ir::l_params(f.params, n);
    let (s1, tail) = ir::l_block(f.body, s);
    let t = handed(f.params);
    lemma_handed(f.params, n);
    passes::lemma_params_tidy(f.params);
    assert(s.insts =~= Seq::empty());
    assert(run(ps, s.insts).trace =~= t.trace);
    assert forall|i: int| 0 <= i < s.names.len() implies holds(ps, s, #[trigger] s.names[i], t.env[i]) by {
        assert(ps[i] == IrReg(i as u32));
        assert(ps.contains(IrReg(i as u32)));
    }
    lemma_does_block(f.body, s, ps, t);
    lemma_emitted(ps, s1.insts, InstModel::Return(tail));
}

/// Optimised code does what the function says, too.
pub proof fn law_optimised_code_keeps_meaning(f: FnDeclModel, n: nat)
    requires
        f.params.len() + ir::l_fn(f).insts.len() <= u32::MAX,
    ensures
        passes::behaviour(ir::settled(ir::l_fn(f), n)) == v_fn(f),
{
    law_lowering_keeps_meaning(f);
    passes::law_lowered_code_keeps_behaviour(f, n);
}

} // verus!
