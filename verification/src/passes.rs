//! What the passes on the intermediate representation keep: what a function does.

use crate::ast::{
    BinOp, BlockModel, ExprKindModel, ExprModel, FnDeclModel, ParamModel, StmtKindModel, StmtModel, UnOp,
};
use crate::ir;
use crate::ir::{FnModel, InstKey, InstModel, IrConst, IrReg, Known, Low, Names};
use vstd::prelude::*;

verus! {

// --- what a function does --------------------------------------------------------------

/// A value, as far as it is known before a function runs.
#[verifier::ext_equal]
pub enum Term {
    /// A constant.
    Const(IrConst),
    /// What the caller put in a register.
    Param(IrReg),
    /// What the call at this place of the trace came back with.
    Answer(nat),
    /// What an operation makes of two values.
    Binary(BinOp, Box<Term>, Box<Term>),
    /// What an operation makes of a value.
    Unary(UnOp, Box<Term>),
}

/// What can be seen of a function from outside.
#[verifier::ext_equal]
pub enum Event {
    /// A call, with its arguments.
    Call(Seq<char>, Seq<Term>),
    /// A return.
    Return(Option<Term>),
    /// A value that a statement asked for.
    Eval(Term),
}

/// The registers, and what was seen so far.
#[verifier::ext_equal]
pub struct Run {
    pub regs: Map<IrReg, Term>,
    pub trace: Seq<Event>,
}

/// What a binary operation makes of two values: a constant where both are, and it has a
/// result.
pub open spec fn binary(op: BinOp, a: Term, b: Term) -> Term {
    match (a, b) {
        (Term::Const(x), Term::Const(y)) => match ir::fold_binop(op, x, y) {
            Some(c) => Term::Const(c),
            None => Term::Binary(op, Box::new(a), Box::new(b)),
        },
        _ => Term::Binary(op, Box::new(a), Box::new(b)),
    }
}

/// What a unary operation makes of a value.
pub open spec fn unary(op: UnOp, a: Term) -> Term {
    match a {
        Term::Const(x) => match ir::fold_unop(op, x) {
            Some(c) => Term::Const(c),
            None => Term::Unary(op, Box::new(a)),
        },
        _ => Term::Unary(op, Box::new(a)),
    }
}

impl Run {
    /// The value of a register; one that was never written holds `nil`.
    pub open spec fn get(self, r: IrReg) -> Term {
        if self.regs.dom().contains(r) {
            self.regs[r]
        } else {
            Term::Const(IrConst::Nil)
        }
    }

    /// With a value in a register.
    pub open spec fn put(self, r: IrReg, t: Term) -> Run {
        Run { regs: self.regs.insert(r, t), ..self }
    }

    /// With another event.
    pub open spec fn seen(self, e: Event) -> Run {
        Run { trace: self.trace.push(e), ..self }
    }

    /// The values of registers.
    pub open spec fn all(self, rs: Seq<IrReg>) -> Seq<Term> {
        Seq::new(rs.len(), |i: int| self.get(rs[i]))
    }

    /// After an instruction.
    pub open spec fn step(self, i: InstModel) -> Run {
        match i {
            InstModel::Const(d, c) => self.put(d, Term::Const(c)),
            InstModel::Binary(d, op, a, b) => self.put(d, binary(op, self.get(a), self.get(b))),
            InstModel::Unary(d, op, a) => self.put(d, unary(op, self.get(a))),
            InstModel::Move(d, a) => self.put(d, self.get(a)),
            InstModel::Call(d, n, args) => self.put(d, Term::Answer(self.trace.len())).seen(
                Event::Call(n, self.all(args)),
            ),
            InstModel::Return(Some(r)) => self.seen(Event::Return(Some(self.get(r)))),
            InstModel::Return(None) => self.seen(Event::Return(None)),
            InstModel::Eval(r) => self.seen(Event::Eval(self.get(r))),
        }
    }
}

/// A function of some parameters after some instructions.
pub open spec fn run(ps: Seq<IrReg>, s: Seq<InstModel>) -> Run
    decreases s.len(),
{
    if s.len() == 0 {
        Run { regs: Map::new(|r: IrReg| ps.contains(r), |r: IrReg| Term::Param(r)), trace: Seq::empty() }
    } else {
        run(ps, s.drop_last()).step(s.last())
    }
}

/// What a function does.
pub open spec fn behaviour(f: FnModel) -> Seq<Event> {
    run(f.params, f.insts).trace
}

/// The registers that are written: those of the parameters, and those of the instructions.
pub open spec fn written(ps: Seq<IrReg>, s: Seq<InstModel>) -> Set<IrReg>
    decreases s.len(),
{
    if s.len() == 0 {
        Set::new(|r: IrReg| ps.contains(r))
    } else {
        match s.last().dst() {
            Some(d) => written(ps, s.drop_last()).insert(d),
            None => written(ps, s.drop_last()),
        }
    }
}

/// Whether each register is among the first `n`, written once, and read only behind that.
pub open spec fn single(ps: Seq<IrReg>, s: Seq<InstModel>, n: u32) -> bool
    decreases s.len(),
{
    if s.len() == 0 {
        forall|i: int| 0 <= i < ps.len() ==> (#[trigger] ps[i]).0 < n
    } else {
        let w = written(ps, s.drop_last());
        &&& single(ps, s.drop_last(), n)
        &&& s.last().dst() matches Some(d) ==> !w.contains(d) && d.0 < n
        &&& forall|i: int| 0 <= i < s.last().reads().len() ==> w.contains(#[trigger] s.last().reads()[i])
    }
}

/// Whether a function writes each register once, before it is read.
pub open spec fn ssa(f: FnModel) -> bool {
    single(f.params, f.insts, f.next_reg)
}

// --- what single assignment gives ------------------------------------------------------

/// One more instruction.
proof fn lemma_next(s: Seq<InstModel>, k: int)
    requires
        0 <= k < s.len(),
    ensures
        s.take(k + 1).drop_last() == s.take(k),
        s.take(k + 1).last() == s[k],
{
    assert(s.take(k + 1).drop_last() =~= s.take(k));
}

proof fn lemma_all(s: Seq<InstModel>)
    ensures
        s.take(s.len() as int) == s,
{
    assert(s.take(s.len() as int) =~= s);
}

/// A prefix is of single assignment too.
proof fn lemma_single_take(ps: Seq<IrReg>, s: Seq<InstModel>, n: u32, k: int)
    requires
        single(ps, s, n),
        0 <= k <= s.len(),
    ensures
        single(ps, s.take(k), n),
    decreases s.len(),
{
    if k < s.len() {
        lemma_single_take(ps, s.drop_last(), n, k);
        assert(s.drop_last().take(k) =~= s.take(k));
    } else {
        lemma_all(s);
    }
}

/// What was written stays written.
proof fn lemma_written_take(ps: Seq<IrReg>, s: Seq<InstModel>, j: int, k: int)
    requires
        0 <= j <= k <= s.len(),
    ensures
        written(ps, s.take(j)).subset_of(written(ps, s.take(k))),
    decreases k - j,
{
    if j < k {
        lemma_written_take(ps, s, j, k - 1);
        lemma_next(s, k - 1);
    }
}

/// What the instruction at `k` writes was not written before and is after; what it reads was
/// written before.
proof fn lemma_at(ps: Seq<IrReg>, s: Seq<InstModel>, n: u32, k: int)
    requires
        single(ps, s, n),
        0 <= k < s.len(),
    ensures
        s[k].dst() matches Some(d) ==> !written(ps, s.take(k)).contains(d) && written(ps, s.take(k + 1)).contains(d)
            && d.0 < n,
        forall|i: int| 0 <= i < s[k].reads().len() ==> written(ps, s.take(k)).contains(#[trigger] s[k].reads()[i]),
{
    lemma_single_take(ps, s, n, k + 1);
    lemma_next(s, k);
}

/// No register is written twice.
proof fn lemma_once(ps: Seq<IrReg>, s: Seq<InstModel>, n: u32, j: int, k: int, r: IrReg)
    requires
        single(ps, s, n),
        0 <= j < s.len(),
        0 <= k < s.len(),
        s[j].dst() == Some(r),
        s[k].dst() == Some(r),
    ensures
        j == k,
{
    lemma_at(ps, s, n, j);
    lemma_at(ps, s, n, k);
    if j < k {
        lemma_written_take(ps, s, j + 1, k);
    } else if k < j {
        lemma_written_take(ps, s, k + 1, j);
    }
}

/// A parameter is written by no instruction.
proof fn lemma_params_apart(ps: Seq<IrReg>, s: Seq<InstModel>, n: u32, k: int, r: IrReg)
    requires
        single(ps, s, n),
        0 <= k < s.len(),
        s[k].dst() == Some(r),
    ensures
        !ps.contains(r),
{
    lemma_at(ps, s, n, k);
    lemma_written_take(ps, s, 0, k);
    assert(s.take(0) =~= Seq::empty());
}

/// A register that is written is one of the first `n`.
proof fn lemma_low(ps: Seq<IrReg>, s: Seq<InstModel>, n: u32, r: IrReg)
    requires
        single(ps, s, n),
        written(ps, s).contains(r),
    ensures
        r.0 < n,
    decreases s.len(),
{
    if s.len() > 0 {
        if s.last().dst() != Some(r) {
            lemma_low(ps, s.drop_last(), n, r);
        }
    } else {
        let i = choose|i: int| 0 <= i < ps.len() && ps[i] == r;
        assert(ps[i].0 < n);
    }
}

/// A register keeps its value once written.
proof fn lemma_stable(ps: Seq<IrReg>, s: Seq<InstModel>, n: u32, j: int, k: int, r: IrReg)
    requires
        single(ps, s, n),
        0 <= j <= k <= s.len(),
        written(ps, s.take(j)).contains(r),
    ensures
        run(ps, s.take(k)).get(r) == run(ps, s.take(j)).get(r),
    decreases k - j,
{
    if j < k {
        lemma_stable(ps, s, n, j, k - 1, r);
        lemma_next(s, k - 1);
        lemma_at(ps, s, n, k - 1);
        lemma_written_take(ps, s, j, k - 1);
    }
}

// --- constant folding ------------------------------------------------------------------

/// Whether a register holds a constant before instruction `k`, or is to get it.
spec fn told(ps: Seq<IrReg>, s: Seq<InstModel>, k: int, r: IrReg, c: IrConst) -> bool {
    if written(ps, s.take(k)).contains(r) {
        run(ps, s.take(k)).get(r) == Term::Const(c)
    } else {
        exists|j: int| k <= j < s.len() && #[trigger] s[j] == InstModel::Const(r, c)
    }
}

/// Whether what the table says before instruction `k` is so.
spec fn informed(ps: Seq<IrReg>, s: Seq<InstModel>, k: int, t: Known) -> bool {
    forall|r: IrReg| (#[trigger] ir::known(t, r)) is Some ==> told(ps, s, k, r, ir::known(t, r)->0)
}

/// Each constant in the table is that of an instruction.
proof fn lemma_constants(s: Seq<InstModel>, k: int, n: int, r: IrReg, c: IrConst)
    requires
        0 <= k <= s.len(),
        0 <= n,
        ir::known(ir::constants_in(s, k, n), r) == Some(c),
    ensures
        exists|j: int| 0 <= j < k && #[trigger] s[j] == InstModel::Const(r, c),
        ir::constants_in(s, k, n).len() == n,
    decreases k,
{
    lemma_constants_len(s, k, n);
    if k > 0 {
        match s[k - 1] {
            InstModel::Const(d, x) => {
                lemma_constants_len(s, k - 1, n);
                if d == r {
                    assert(s[k - 1] == InstModel::Const(r, c));
                } else {
                    lemma_constants(s, k - 1, n, r, c);
                }
            },
            _ => {
                lemma_constants(s, k - 1, n, r, c);
            },
        }
    }
}

proof fn lemma_constants_len(s: Seq<InstModel>, k: int, n: int)
    requires
        0 <= n,
    ensures
        ir::constants_in(s, k, n).len() == n,
    decreases k,
{
    if k > 0 {
        lemma_constants_len(s, k - 1, n);
    }
}

/// What folding makes of one instruction.
spec fn fold_at(i: InstModel, t: Known) -> InstModel {
    match ir::computed(i, t) {
        Some(c) => InstModel::Const(i.dst()->0, c),
        None => i,
    }
}

/// Folding keeps runs and writes.
#[verifier::spinoff_prover]
proof fn lemma_fold_run(ps: Seq<IrReg>, s: Seq<InstModel>, n: u32, k: int)
    requires
        single(ps, s, n),
        0 <= k <= s.len(),
    ensures
        informed(ps, s, k, ir::folded(s, k, n as int).1),
        run(ps, ir::folded(s, k, n as int).0) == run(ps, s.take(k)),
        written(ps, ir::folded(s, k, n as int).0) == written(ps, s.take(k)),
        single(ps, ir::folded(s, k, n as int).0, n),
    decreases k,
{
    if k == 0 {
        let t = ir::folded(s, 0, n as int).1;
        assert(s.take(0) =~= Seq::empty());
        assert(single(ps, s.take(0), n)) by {
            lemma_single_take(ps, s, n, 0);
        }
        assert forall|r: IrReg| (#[trigger] ir::known(t, r)) is Some implies told(ps, s, 0, r, ir::known(t, r)->0) by {
            let c = ir::known(t, r)->0;
            lemma_constants(s, s.len() as int, n as int, r, c);
            let j = choose|j: int| 0 <= j < s.len() && #[trigger] s[j] == InstModel::Const(r, c);
            lemma_params_apart(ps, s, n, j, r);
        }
    } else {
        lemma_fold_run(ps, s, n, k - 1);
        lemma_next(s, k - 1);
        lemma_at(ps, s, n, k - 1);
        let (out, t) = ir::folded(s, k - 1, n as int);
        let (out2, t2) = ir::folded(s, k, n as int);
        let i = s[k - 1];
        let m = run(ps, s.take(k - 1));
        let w = written(ps, s.take(k - 1));
        let x = fold_at(i, t);
        assert(out2 == out.push(x));
        assert(out2.drop_last() =~= out);
        assert(out2.last() == x);
        match i {
            InstModel::Binary(d, op, a, b) => {
                assert(w.contains(i.reads()[0]) && w.contains(i.reads()[1]));
            },
            InstModel::Unary(d, op, a) => {
                assert(w.contains(i.reads()[0]));
            },
            _ => {},
        }
        assert(m.step(x) == m.step(i));
        assert(x.dst() == i.dst());
        assert forall|q: int| 0 <= q < x.reads().len() implies w.contains(#[trigger] x.reads()[q]) by {
            assert(x.reads()[q] == i.reads()[q]);
        }
        assert forall|r: IrReg| (#[trigger] ir::known(t2, r)) is Some implies told(ps, s, k, r, ir::known(t2, r)->0) by {
            let c = ir::known(t2, r)->0;
            if ir::computed(i, t) is Some && i.dst() == Some(r) {
            } else {
                assert(ir::known(t, r) == Some(c));
                if w.contains(r) {
                    lemma_stable(ps, s, n, k - 1, k, r);
                } else {
                    let j = choose|j: int| k - 1 <= j < s.len() && #[trigger] s[j] == InstModel::Const(r, c);
                    if i.dst() == Some(r) {
                        lemma_once(ps, s, n, j, k - 1, r);
                    } else {
                        assert(j != k - 1);
                    }
                }
            }
        }
    }
}

// --- common subexpressions -------------------------------------------------------------

/// Whether an instruction before `k` has a key and writes its register.
spec fn firsts(s: Seq<InstModel>, k: int, e: (InstKey, IrReg)) -> bool {
    exists|j: int| 0 <= j < k && ir::key_of(#[trigger] s[j]) == Some(e.0) && s[j].dst() == Some(e.1)
}

/// Whether two instructions before `k` have one key, and the second writes the first
/// register and the first the second.
spec fn twins(s: Seq<InstModel>, k: int, p: (IrReg, IrReg)) -> bool {
    exists|i: int, j: int|
        0 <= i < j < k && ir::key_of(#[trigger] s[i]) is Some && ir::key_of(s[i]) == ir::key_of(#[trigger] s[j])
            && s[j].dst() == Some(p.0) && s[i].dst() == Some(p.1)
}

proof fn lemma_first_with(seen: Seq<(InstKey, IrReg)>, k: InstKey, i: int)
    requires
        0 <= i,
    ensures
        ir::first_with(seen, k, i) matches Some(r) ==> exists|q: int| i <= q < seen.len() && #[trigger] seen[q] == (k, r),
    decreases seen.len() - i,
{
    if i < seen.len() && seen[i].0 != k {
        lemma_first_with(seen, k, i + 1);
    } else if i < seen.len() {
        assert(seen[i] == (k, seen[i].1));
    }
}

proof fn lemma_repeats(s: Seq<InstModel>, k: int)
    requires
        0 <= k <= s.len(),
    ensures
        forall|q: int| 0 <= q < ir::repeats(s, k).0.len() ==> #[trigger] firsts(s, k, ir::repeats(s, k).0[q]),
        forall|q: int| 0 <= q < ir::repeats(s, k).1.len() ==> #[trigger] twins(s, k, ir::repeats(s, k).1[q]),
    decreases k,
{
    if k > 0 {
        lemma_repeats(s, k - 1);
        let (seen, same) = ir::repeats(s, k - 1);
        let (seen2, same2) = ir::repeats(s, k);
        let i = s[k - 1];
        assert forall|q: int| 0 <= q < seen2.len() implies #[trigger] firsts(s, k, seen2[q]) by {
            if q < seen.len() {
                assert(firsts(s, k - 1, seen[q]));
            } else {
                assert(ir::key_of(s[k - 1]) == Some(seen2[q].0));
            }
        }
        assert forall|q: int| 0 <= q < same2.len() implies #[trigger] twins(s, k, same2[q]) by {
            if q < same.len() {
                assert(twins(s, k - 1, same[q]));
                let (a, b) = choose|a: int, b: int|
                    0 <= a < b < k - 1 && ir::key_of(#[trigger] s[a]) is Some && ir::key_of(s[a]) == ir::key_of(
                        #[trigger] s[b],
                    ) && s[b].dst() == Some(same[q].0) && s[a].dst() == Some(same[q].1);
                assert(ir::key_of(s[a]) is Some && ir::key_of(s[a]) == ir::key_of(s[b]));
            } else {
                let key = ir::key_of(i)->0;
                lemma_first_with(seen, key, 0);
                let e = choose|e: int| 0 <= e < seen.len() && #[trigger] seen[e] == (key, same2[q].1);
                assert(firsts(s, k - 1, seen[e]));
                let a = choose|a: int| 0 <= a < k - 1 && ir::key_of(#[trigger] s[a]) == Some(key) && s[a].dst() == Some(
                    same2[q].1,
                );
                assert(ir::key_of(s[a]) is Some && ir::key_of(s[a]) == ir::key_of(s[k - 1]));
            }
        }
    }
}

/// A register either stands for itself or is the first of a pair.
proof fn lemma_stand_in(same: Seq<(IrReg, IrReg)>, r: IrReg, i: int)
    requires
        0 <= i,
    ensures
        ({
            let p = ir::stand_in(same, r, i);
            ||| exists|q: int| i <= q < same.len() && #[trigger] same[q] == (r, p)
            ||| p == r && forall|q: int| i <= q < same.len() ==> (#[trigger] same[q]).0 != r
        }),
    decreases same.len() - i,
{
    if i < same.len() && same[i].0 != r {
        lemma_stand_in(same, r, i + 1);
    } else if i < same.len() {
        assert(same[i] == (r, same[i].1));
    }
}

/// A stand-in has the value of what it stands for, and is written as early.
#[verifier::spinoff_prover]
proof fn lemma_stands(ps: Seq<IrReg>, s: Seq<InstModel>, n: u32, k: int, r: IrReg)
    requires
        single(ps, s, n),
        0 <= k <= s.len(),
        written(ps, s.take(k)).contains(r),
    ensures
        ({
            let p = ir::stand_in(ir::repeats(s, s.len() as int).1, r, 0);
            written(ps, s.take(k)).contains(p) && run(ps, s.take(k)).get(p) == run(ps, s.take(k)).get(r)
        }),
{
    let same = ir::repeats(s, s.len() as int).1;
    let p = ir::stand_in(same, r, 0);
    lemma_stand_in(same, r, 0);
    if p != r {
        let q = choose|q: int| 0 <= q < same.len() && #[trigger] same[q] == (r, p);
        lemma_repeats(s, s.len() as int);
        assert(twins(s, s.len() as int, same[q]));
        let (i, j) = choose|i: int, j: int|
            0 <= i < j < s.len() && ir::key_of(#[trigger] s[i]) is Some && ir::key_of(s[i]) == ir::key_of(
                #[trigger] s[j],
            ) && s[j].dst() == Some(r) && s[i].dst() == Some(p);
        lemma_at(ps, s, n, i);
        lemma_at(ps, s, n, j);
        // `r` is written, so its instruction is before
        if j >= k {
            lemma_written_take(ps, s, k, j);
        }
        lemma_written_take(ps, s, i + 1, k);
        lemma_stable(ps, s, n, i + 1, k, p);
        lemma_stable(ps, s, n, j + 1, k, r);
        lemma_next(s, i);
        lemma_next(s, j);
        match s[i] {
            InstModel::Binary(d, op, a, b) => {
                assert(written(ps, s.take(i)).contains(s[i].reads()[0]));
                assert(written(ps, s.take(i)).contains(s[i].reads()[1]));
                lemma_stable(ps, s, n, i, j, a);
                lemma_stable(ps, s, n, i, j, b);
            },
            InstModel::Unary(d, op, a) => {
                assert(written(ps, s.take(i)).contains(s[i].reads()[0]));
                lemma_stable(ps, s, n, i, j, a);
            },
            _ => {},
        }
    }
}

/// The instructions of a function that read the stand-ins.
spec fn rewritten(s: Seq<InstModel>) -> Seq<InstModel> {
    Seq::new(s.len(), |i: int| ir::renamed(s[i], ir::repeats(s, s.len() as int).1))
}

/// Stand-ins keep runs and writes.
#[verifier::spinoff_prover]
proof fn lemma_cse_run(ps: Seq<IrReg>, s: Seq<InstModel>, n: u32, k: int)
    requires
        single(ps, s, n),
        0 <= k <= s.len(),
    ensures
        run(ps, rewritten(s).take(k)) == run(ps, s.take(k)),
        written(ps, rewritten(s).take(k)) == written(ps, s.take(k)),
        single(ps, rewritten(s).take(k), n),
    decreases k,
{
    let z = rewritten(s);
    if k == 0 {
        assert(s.take(0) =~= Seq::empty() && z.take(0) =~= Seq::empty());
        lemma_single_take(ps, s, n, 0);
    } else {
        lemma_cse_run(ps, s, n, k - 1);
        lemma_next(s, k - 1);
        lemma_next(z, k - 1);
        lemma_at(ps, s, n, k - 1);
        let same = ir::repeats(s, s.len() as int).1;
        let i = s[k - 1];
        let x = ir::renamed(i, same);
        let m = run(ps, s.take(k - 1));
        let w = written(ps, s.take(k - 1));
        assert(x.reads().len() == i.reads().len());
        assert forall|q: int| 0 <= q < x.reads().len() implies w.contains(#[trigger] x.reads()[q]) && m.get(x.reads()[q])
            == m.get(i.reads()[q]) by {
            assert(x.reads()[q] == ir::stand_in(same, i.reads()[q], 0));
            lemma_stands(ps, s, n, k - 1, i.reads()[q]);
        }
        assert(m.step(x) == m.step(i)) by {
            match i {
                InstModel::Binary(d, op, a, b) => {
                    assert(m.get(x.reads()[0]) == m.get(i.reads()[0]));
                    assert(m.get(x.reads()[1]) == m.get(i.reads()[1]));
                },
                InstModel::Call(d, nm, args) => {
                    assert(m.all(x.reads()) =~= m.all(args)) by {
                        assert forall|q: int| 0 <= q < args.len() implies m.get(#[trigger] x.reads()[q]) == m.get(
                            args[q],
                        ) by {
                            assert(args[q] == i.reads()[q]);
                        }
                    }
                },
                InstModel::Const(_, _) => {},
                InstModel::Return(None) => {},
                _ => {
                    assert(m.get(x.reads()[0]) == m.get(i.reads()[0]));
                },
            }
        }
        assert(x.dst() == i.dst());
    }
}

// --- dead code -------------------------------------------------------------------------

proof fn lemma_mark_all(u: Seq<bool>, rs: Seq<IrReg>, k: int)
    requires
        0 <= k <= rs.len(),
    ensures
        ir::mark_all(u, rs, k).len() == u.len(),
        forall|r: IrReg| #[trigger]
            ir::marked(ir::mark_all(u, rs, k), r) <==> ir::marked(u, r) || (r.0 < u.len() && rs.take(k).contains(r)),
    decreases k,
{
    let v = ir::mark_all(u, rs, k);
    if k > 0 {
        lemma_mark_all(u, rs, k - 1);
        assert forall|r: IrReg| #[trigger] ir::marked(v, r) <==> ir::marked(u, r) || (r.0 < u.len() && rs.take(
            k,
        ).contains(r)) by {
            let a = rs.take(k - 1);
            let b = rs.take(k);
            assert(b =~= a.push(rs[k - 1]));
            assert(ir::marked(ir::mark_all(u, rs, k - 1), r) <==> ir::marked(u, r) || (r.0 < u.len() && a.contains(r)));
            if a.contains(r) {
                let q = choose|q: int| 0 <= q < a.len() && a[q] == r;
                assert(b[q] == r);
            }
            if r == rs[k - 1] {
                assert(b[k - 1] == r);
            }
            if b.contains(r) {
                let q = choose|q: int| 0 <= q < b.len() && b[q] == r;
                if q < k - 1 {
                    assert(a[q] == r);
                }
            }
        }
    } else {
        assert(rs.take(0) =~= Seq::empty());
    }
}

proof fn lemma_reads(f: FnModel, k: int)
    requires
        0 <= k <= f.insts.len(),
    ensures
        ir::read_from(f, k).len() == f.next_reg,
        k < f.insts.len() ==> forall|r: IrReg| #[trigger]
            ir::marked(ir::read_from(f, k), r) <==> ir::marked(ir::read_from(f, k + 1), r) || (r.0 < f.next_reg
                && ir::stays(f.insts[k], ir::read_from(f, k + 1)) && f.insts[k].reads().contains(r)),
        k == f.insts.len() ==> forall|r: IrReg| #[trigger]
            ir::marked(ir::read_from(f, k), r) <==> r.0 < f.next_reg && f.params.contains(r),
    decreases f.insts.len() - k,
{
    if k < f.insts.len() {
        lemma_reads(f, k + 1);
        let rs = f.insts[k].reads();
        lemma_mark_all(ir::read_from(f, k + 1), rs, rs.len() as int);
        assert(rs.take(rs.len() as int) =~= rs);
    } else {
        let u = Seq::new(f.next_reg as nat, |i: int| false);
        lemma_mark_all(u, f.params, f.params.len() as int);
        assert(f.params.take(f.params.len() as int) =~= f.params);
    }
}

/// What is marked later is marked in the end.
proof fn lemma_marks_grow(f: FnModel, k: int, r: IrReg)
    requires
        0 <= k <= f.insts.len(),
        ir::marked(ir::read_from(f, k), r),
    ensures
        ir::marked(ir::read_from(f, 0), r),
    decreases k,
{
    if k > 0 {
        lemma_reads(f, k - 1);
        lemma_marks_grow(f, k - 1, r);
    }
}

/// What an instruction writes is only read behind it.
proof fn lemma_marks_behind(f: FnModel, j: int, k: int, r: IrReg)
    requires
        ssa(f),
        0 <= k <= j < f.insts.len(),
        f.insts[j].dst() == Some(r),
        ir::marked(ir::read_from(f, k), r),
    ensures
        ir::marked(ir::read_from(f, j + 1), r),
    decreases j - k,
{
    lemma_reads(f, k);
    if f.insts[k].reads().contains(r) {
        let q = choose|q: int| 0 <= q < f.insts[k].reads().len() && f.insts[k].reads()[q] == r;
        lemma_at(f.params, f.insts, f.next_reg, k);
        lemma_at(f.params, f.insts, f.next_reg, j);
        lemma_written_take(f.params, f.insts, k, j);
        assert(written(f.params, f.insts.take(k)).contains(f.insts[k].reads()[q]));
        assert(false);
    }
    if k < j {
        lemma_marks_behind(f, j, k + 1, r);
    }
}

/// What an instruction reads that stays is marked.
proof fn lemma_stays(f: FnModel, k: int)
    requires
        ssa(f),
        0 <= k < f.insts.len(),
        ir::stays(f.insts[k], ir::read_from(f, 0)),
    ensures
        forall|q: int| 0 <= q < f.insts[k].reads().len() ==> ir::marked(
            ir::read_from(f, 0),
            #[trigger] f.insts[k].reads()[q],
        ),
{
    let i = f.insts[k];
    if i.pure() {
        lemma_marks_behind(f, k, 0, i.dst()->0);
    }
    assert(ir::stays(i, ir::read_from(f, k + 1)));
    assert forall|q: int| 0 <= q < i.reads().len() implies ir::marked(
        ir::read_from(f, 0),
        #[trigger] i.reads()[q],
    ) by {
        let r = i.reads()[q];
        assert(i.reads().contains(r));
        lemma_at(f.params, f.insts, f.next_reg, k);
        lemma_single_take(f.params, f.insts, f.next_reg, k);
        lemma_low(f.params, f.insts.take(k), f.next_reg, r);
        lemma_reads(f, k);
        lemma_marks_grow(f, k, r);
    }
}

/// Dropping what is not read keeps what is seen, and what is read.
#[verifier::spinoff_prover]
proof fn lemma_dce_run(f: FnModel, k: int)
    requires
        ssa(f),
        0 <= k <= f.insts.len(),
    ensures
        ({
            let u = ir::read_from(f, 0);
            let z = ir::kept(f.insts, k, u);
            let a = run(f.params, z);
            let b = run(f.params, f.insts.take(k));
            &&& a.trace == b.trace
            &&& forall|r: IrReg| ir::marked(u, r) ==> #[trigger] a.get(r) == b.get(r)
            &&& written(f.params, z).subset_of(written(f.params, f.insts.take(k)))
            &&& forall|r: IrReg|
                ir::marked(u, r) && written(f.params, f.insts.take(k)).contains(r) ==> #[trigger] written(
                    f.params,
                    z,
                ).contains(r)
            &&& single(f.params, z, f.next_reg)
        }),
    decreases k,
{
    let s = f.insts;
    let u = ir::read_from(f, 0);
    let z = ir::kept(s, k, u);
    if k == 0 {
        assert(s.take(0) =~= Seq::empty());
        lemma_single_take(f.params, s, f.next_reg, 0);
    } else {
        lemma_dce_run(f, k - 1);
        lemma_next(s, k - 1);
        lemma_at(f.params, s, f.next_reg, k - 1);
        let y = ir::kept(s, k - 1, u);
        let i = s[k - 1];
        let a = run(f.params, y);
        let b = run(f.params, s.take(k - 1));
        if ir::stays(i, u) {
            assert(z.drop_last() =~= y && z.last() == i);
            lemma_stays(f, k - 1);
            assert forall|q: int| 0 <= q < i.reads().len() implies a.get(#[trigger] i.reads()[q]) == b.get(i.reads()[q])
                && written(f.params, y).contains(i.reads()[q]) by {
                assert(ir::marked(u, i.reads()[q]));
            }
            match i {
                InstModel::Binary(d, op, p, q) => {
                    assert(a.get(i.reads()[0]) == b.get(i.reads()[0]));
                    assert(a.get(i.reads()[1]) == b.get(i.reads()[1]));
                },
                InstModel::Call(d, nm, args) => {
                    assert(a.all(args) =~= b.all(args)) by {
                        assert forall|q: int| 0 <= q < args.len() implies a.get(#[trigger] args[q]) == b.get(
                            args[q],
                        ) by {
                            assert(args[q] == i.reads()[q]);
                        }
                    }
                },
                InstModel::Const(_, _) => {},
                InstModel::Return(None) => {},
                _ => {
                    assert(a.get(i.reads()[0]) == b.get(i.reads()[0]));
                },
            }
            assert(single(f.params, z, f.next_reg));
        } else {
            assert(z == y);
        }
        let a2 = run(f.params, z);
        let b2 = run(f.params, s.take(k));
        assert(a2.trace == b2.trace);
        assert forall|r: IrReg| ir::marked(u, r) implies #[trigger] a2.get(r) == b2.get(r) by {
            assert(a.get(r) == b.get(r));
        }
        assert forall|r: IrReg|
            ir::marked(u, r) && written(f.params, s.take(k)).contains(r) implies #[trigger] written(
            f.params,
            z,
        ).contains(r) by {
            if i.dst() != Some(r) {
                assert(written(f.params, y).contains(r));
            }
        }
    }
}

// --- laws ------------------------------------------------------------------------------

/// Constant folding changes nothing of what a function does.
pub proof fn law_folding_keeps_behaviour(f: FnModel)
    requires
        ssa(f),
    ensures
        behaviour(ir::fold_of(f)) == behaviour(f),
        ssa(ir::fold_of(f)),
{
    lemma_fold_run(f.params, f.insts, f.next_reg, f.insts.len() as int);
    lemma_all(f.insts);
}

/// Neither does common-subexpression elimination.
pub proof fn law_sharing_keeps_behaviour(f: FnModel)
    requires
        ssa(f),
    ensures
        behaviour(ir::cse_of(f)) == behaviour(f),
        ssa(ir::cse_of(f)),
{
    lemma_cse_run(f.params, f.insts, f.next_reg, f.insts.len() as int);
    lemma_all(f.insts);
    lemma_all(rewritten(f.insts));
    assert(ir::cse_of(f).insts =~= rewritten(f.insts));
}

/// Nor dead-code elimination.
pub proof fn law_dropping_keeps_behaviour(f: FnModel)
    requires
        ssa(f),
    ensures
        behaviour(ir::dce_of(f)) == behaviour(f),
        ssa(ir::dce_of(f)),
{
    lemma_dce_run(f, f.insts.len() as int);
    lemma_all(f.insts);
}

/// However many rounds of the passes run, the function does the same.
pub proof fn law_optimising_keeps_behaviour(f: FnModel, n: nat)
    requires
        ssa(f),
    ensures
        behaviour(ir::settled(f, n)) == behaviour(f),
        ssa(ir::settled(f, n)),
    decreases n,
{
    if n > 0 {
        law_folding_keeps_behaviour(f);
        law_sharing_keeps_behaviour(ir::fold_of(f));
        law_dropping_keeps_behaviour(ir::cse_of(ir::fold_of(f)));
        if ir::round(f).insts != f.insts {
            law_optimising_keeps_behaviour(ir::round(f), (n - 1) as nat);
        }
    }
}

// --- rounds come to an end -------------------------------------------------------------

/// How much is left to do with instructions: one each, and one more for each operation.
pub open spec fn weight(s: Seq<InstModel>) -> nat
    decreases s.len(),
{
    if s.len() == 0 {
        0
    } else {
        weight(s.drop_last()) + if s.last() is Binary || s.last() is Unary {
            2nat
        } else {
            1
        }
    }
}

proof fn lemma_weight_bound(s: Seq<InstModel>)
    ensures
        weight(s) <= 2 * s.len(),
    decreases s.len(),
{
    if s.len() > 0 {
        lemma_weight_bound(s.drop_last());
    }
}

/// Folding weighs less where it changes anything.
proof fn lemma_fold_weight(s: Seq<InstModel>, n: int, k: int)
    requires
        0 <= k <= s.len(),
    ensures
        ir::folded(s, k, n).0 == s.take(k) || weight(ir::folded(s, k, n).0) < weight(s.take(k)),
        weight(ir::folded(s, k, n).0) <= weight(s.take(k)),
    decreases k,
{
    if k > 0 {
        lemma_fold_weight(s, n, k - 1);
        lemma_next(s, k - 1);
        let (out, t) = ir::folded(s, k - 1, n);
        let x = fold_at(s[k - 1], t);
        assert(ir::folded(s, k, n).0 == out.push(x));
        assert(out.push(x).drop_last() =~= out);
        if out == s.take(k - 1) && x == s[k - 1] {
            assert(out.push(x) =~= s.take(k));
        }
    } else {
        assert(s.take(0) =~= Seq::empty());
    }
}

/// Stand-ins weigh the same.
proof fn lemma_cse_weight(s: Seq<InstModel>, k: int)
    requires
        0 <= k <= s.len(),
    ensures
        weight(rewritten(s).take(k)) == weight(s.take(k)),
    decreases k,
{
    if k > 0 {
        lemma_cse_weight(s, k - 1);
        lemma_next(s, k - 1);
        lemma_next(rewritten(s), k - 1);
    } else {
        assert(rewritten(s).take(0) =~= s.take(0));
    }
}

/// Dropping weighs less where anything is dropped.
proof fn lemma_dce_weight(s: Seq<InstModel>, k: int, u: Seq<bool>)
    requires
        0 <= k <= s.len(),
    ensures
        weight(ir::kept(s, k, u)) <= weight(s.take(k)),
        (exists|j: int| 0 <= j < k && !ir::stays(#[trigger] s[j], u)) ==> weight(ir::kept(s, k, u)) < weight(s.take(k)),
        (forall|j: int| 0 <= j < k ==> ir::stays(#[trigger] s[j], u)) ==> ir::kept(s, k, u) == s.take(k),
    decreases k,
{
    if k > 0 {
        lemma_dce_weight(s, k - 1, u);
        lemma_next(s, k - 1);
        let y = ir::kept(s, k - 1, u);
        assert(y.push(s[k - 1]).drop_last() =~= y);
        if exists|j: int| 0 <= j < k && !ir::stays(#[trigger] s[j], u) {
            let j = choose|j: int| 0 <= j < k && !ir::stays(#[trigger] s[j], u);
            if j < k - 1 {
                assert(!ir::stays(s[j], u));
            }
        } else {
            assert(y.push(s[k - 1]) =~= s.take(k));
        }
    } else {
        assert(s.take(0) =~= Seq::empty());
    }
}

/// A register that has a stand-in is no stand-in.
proof fn lemma_apart(ps: Seq<IrReg>, s: Seq<InstModel>, n: u32, k: int)
    requires
        single(ps, s, n),
        0 <= k <= s.len(),
    ensures
        ({
            let (seen, same) = ir::repeats(s, k);
            &&& forall|p: int, q: int|
                0 <= p < same.len() && 0 <= q < seen.len() ==> (#[trigger] same[p]).0 != (#[trigger] seen[q]).1
            &&& forall|p: int, q: int|
                0 <= p < same.len() && 0 <= q < same.len() ==> (#[trigger] same[p]).0 != (#[trigger] same[q]).1
        }),
    decreases k,
{
    if k > 0 {
        lemma_apart(ps, s, n, k - 1);
        lemma_repeats(s, k - 1);
        let (seen, same) = ir::repeats(s, k - 1);
        if let Some(key) = ir::key_of(s[k - 1]) {
            let d = s[k - 1].dst()->0;
            assert forall|q: int| 0 <= q < seen.len() implies (#[trigger] seen[q]).1 != d by {
                assert(firsts(s, k - 1, seen[q]));
                let j = choose|j: int| 0 <= j < k - 1 && ir::key_of(#[trigger] s[j]) == Some(seen[q].0) && s[j].dst()
                    == Some(seen[q].1);
                if s[j].dst() == Some(d) {
                    lemma_once(ps, s, n, j, k - 1, d);
                }
            }
            assert forall|q: int| 0 <= q < same.len() implies (#[trigger] same[q]).1 != d && same[q].0 != d by {
                assert(twins(s, k - 1, same[q]));
                let (a, b) = choose|a: int, b: int|
                    0 <= a < b < k - 1 && ir::key_of(#[trigger] s[a]) is Some && ir::key_of(s[a]) == ir::key_of(
                        #[trigger] s[b],
                    ) && s[b].dst() == Some(same[q].0) && s[a].dst() == Some(same[q].1);
                if s[a].dst() == Some(d) {
                    lemma_once(ps, s, n, a, k - 1, d);
                }
                if s[b].dst() == Some(d) {
                    lemma_once(ps, s, n, b, k - 1, d);
                }
            }
            lemma_first_with(seen, key, 0);
        }
    }
}

/// Where an instruction reads a stand-in, what it stands for is dropped.
#[verifier::spinoff_prover]
proof fn lemma_shared_is_dropped(f: FnModel, k: int, r: IrReg)
    requires
        ssa(f),
        0 <= k < f.insts.len(),
        f.insts[k].reads().contains(r),
        ir::stand_in(ir::repeats(f.insts, f.insts.len() as int).1, r, 0) != r,
    ensures
        ({
            let g = ir::cse_of(f);
            exists|j: int| 0 <= j < g.insts.len() && !ir::stays(#[trigger] g.insts[j], ir::read_from(g, 0))
        }),
{
    let s = f.insts;
    let same = ir::repeats(s, s.len() as int).1;
    let p = ir::stand_in(same, r, 0);
    let g = ir::cse_of(f);
    lemma_stand_in(same, r, 0);
    let q = choose|q: int| 0 <= q < same.len() && #[trigger] same[q] == (r, p);
    lemma_repeats(s, s.len() as int);
    assert(twins(s, s.len() as int, same[q]));
    let (i, j) = choose|i: int, j: int|
        0 <= i < j < s.len() && ir::key_of(#[trigger] s[i]) is Some && ir::key_of(s[i]) == ir::key_of(#[trigger] s[j])
            && s[j].dst() == Some(r) && s[i].dst() == Some(p);
    lemma_apart(f.params, s, f.next_reg, s.len() as int);
    assert(g.insts[j] == ir::renamed(s[j], same));
    assert(g.insts[j].pure() && g.insts[j].dst() == Some(r));
    lemma_params_apart(f.params, s, f.next_reg, j, r);
    assert forall|x: int| 0 <= x < g.insts.len() implies !(#[trigger] g.insts[x]).reads().contains(r) by {
        let rs = g.insts[x].reads();
        if rs.contains(r) {
            let y = choose|y: int| 0 <= y < rs.len() && rs[y] == r;
            assert(g.insts[x] == ir::renamed(s[x], same));
            let o = s[x].reads()[y];
            assert(rs[y] == ir::stand_in(same, o, 0));
            lemma_stand_in(same, o, 0);
            if o == r && ir::stand_in(same, o, 0) == r {
                assert(same[q].0 == r);
                assert(false);
            } else {
                let z = choose|z: int| 0 <= z < same.len() && #[trigger] same[z] == (o, r);
                assert(same[q].0 != same[z].1);
            }
        }
    }
    lemma_never_marked(g, g.insts.len() as int, 0, r);
    assert(!ir::stays(g.insts[j], ir::read_from(g, 0)));
}

/// What nothing reads is not marked.
proof fn lemma_never_marked(f: FnModel, n: int, k: int, r: IrReg)
    requires
        n == f.insts.len(),
        0 <= k <= n,
        !f.params.contains(r),
        forall|x: int| 0 <= x < f.insts.len() ==> !(#[trigger] f.insts[x]).reads().contains(r),
    ensures
        !ir::marked(ir::read_from(f, k), r),
    decreases n - k,
{
    lemma_reads(f, k);
    if k < n {
        lemma_never_marked(f, n, k + 1, r);
    }
}

/// A round that changes a function makes it weigh less.
#[verifier::spinoff_prover]
proof fn lemma_round(f: FnModel)
    requires
        ssa(f),
        ir::round(f).insts != f.insts,
    ensures
        weight(ir::round(f).insts) < weight(f.insts),
{
    let a = ir::fold_of(f);
    let b = ir::cse_of(a);
    let c = ir::dce_of(b);
    let u = ir::read_from(b, 0);
    law_folding_keeps_behaviour(f);
    law_sharing_keeps_behaviour(a);
    lemma_fold_weight(f.insts, f.next_reg as int, f.insts.len() as int);
    lemma_all(f.insts);
    lemma_cse_weight(a.insts, a.insts.len() as int);
    lemma_all(a.insts);
    lemma_all(rewritten(a.insts));
    assert(b.insts =~= rewritten(a.insts));
    lemma_dce_weight(b.insts, b.insts.len() as int, u);
    lemma_all(b.insts);
    assert(c.insts == ir::kept(b.insts, b.insts.len() as int, u));
    if a.insts == f.insts && weight(c.insts) >= weight(f.insts) {
        assert(c.insts == b.insts);
        assert(b.insts != a.insts);
        let same = ir::repeats(a.insts, a.insts.len() as int).1;
        assert(exists|k: int| 0 <= k < a.insts.len() && #[trigger] b.insts[k] != a.insts[k]) by {
            if forall|k: int| 0 <= k < a.insts.len() ==> #[trigger] b.insts[k] == a.insts[k] {
                assert(b.insts =~= a.insts);
            }
        }
        let k = choose|k: int| 0 <= k < a.insts.len() && #[trigger] b.insts[k] != a.insts[k];
        lemma_moved(a.insts[k], same);
        let r = choose|r: IrReg| #[trigger] a.insts[k].reads().contains(r) && ir::stand_in(same, r, 0) != r;
        lemma_shared_is_dropped(a, k, r);
        assert(false);
    }
}

/// An instruction that stand-ins change reads a register with another stand-in.
proof fn lemma_moved(i: InstModel, same: Seq<(IrReg, IrReg)>)
    requires
        ir::renamed(i, same) != i,
    ensures
        exists|r: IrReg| #[trigger] i.reads().contains(r) && ir::stand_in(same, r, 0) != r,
{
    let rs = i.reads();
    if forall|r: IrReg| #[trigger] rs.contains(r) ==> ir::stand_in(same, r, 0) == r {
        assert forall|q: int| 0 <= q < rs.len() implies ir::stand_in(same, #[trigger] rs[q], 0) == rs[q] by {
            assert(rs.contains(rs[q]));
        }
        match i {
            InstModel::Binary(d, op, a, b) => {
                assert(rs[0] == a && rs[1] == b);
            },
            InstModel::Call(d, n, args) => {
                assert(ir::stand_ins(same, args) =~= args);
            },
            InstModel::Const(_, _) => {},
            InstModel::Return(None) => {},
            _ => {
                assert(ir::stand_in(same, rs[0], 0) == rs[0]);
            },
        }
    }
}

/// The passes reach a point where another round changes nothing, after no more rounds than
/// twice the number of instructions.
pub proof fn law_optimising_settles(f: FnModel, n: nat)
    requires
        ssa(f),
        2 * f.insts.len() < n,
    ensures
        ir::round(ir::settled(f, n)) == ir::settled(f, n),
{
    lemma_weight_bound(f.insts);
    lemma_settles(f, n);
}

proof fn lemma_settles(f: FnModel, n: nat)
    requires
        ssa(f),
        weight(f.insts) < n,
    ensures
        ir::round(ir::settled(f, n)) == ir::settled(f, n),
    decreases n,
{
    let g = ir::round(f);
    assert(g.name == f.name && g.params == f.params && g.next_reg == f.next_reg);
    if g.insts == f.insts {
        assert(g == f);
    } else {
        lemma_round(f);
        law_folding_keeps_behaviour(f);
        law_sharing_keeps_behaviour(ir::fold_of(f));
        law_dropping_keeps_behaviour(ir::cse_of(ir::fold_of(f)));
        lemma_settles(g, (n - 1) as nat);
    }
}

// --- a pass again ----------------------------------------------------------------------

/// The constant that instructions leave in a register, where the last of them to write a
/// constant there is one.
spec fn holder(s: Seq<InstModel>, r: IrReg) -> Option<IrConst>
    decreases s.len(),
{
    if s.len() == 0 {
        None
    } else {
        match s.last() {
            InstModel::Const(d, c) => if d == r {
                Some(c)
            } else {
                holder(s.drop_last(), r)
            },
            _ => holder(s.drop_last(), r),
        }
    }
}

proof fn lemma_table_holds(s: Seq<InstModel>, k: int, n: int, r: IrReg)
    requires
        0 <= k <= s.len(),
        r.0 < n,
    ensures
        ir::known(ir::constants_in(s, k, n), r) == holder(s.take(k), r),
    decreases k,
{
    lemma_constants_len(s, k, n);
    if k > 0 {
        lemma_constants_len(s, k - 1, n);
        lemma_table_holds(s, k - 1, n, r);
        lemma_next(s, k - 1);
    }
}

/// What nothing writes holds no constant.
proof fn lemma_holder_none(ps: Seq<IrReg>, s: Seq<InstModel>, r: IrReg)
    requires
        !written(ps, s).contains(r),
    ensures
        holder(s, r) is None,
    decreases s.len(),
{
    if s.len() > 0 {
        lemma_holder_none(ps, s.drop_last(), r);
    }
}

/// What is not written again stays.
proof fn lemma_holder_stays(s: Seq<InstModel>, k: int, r: IrReg)
    requires
        0 <= k <= s.len(),
        forall|j: int| k <= j < s.len() ==> (#[trigger] s[j]).dst() != Some(r),
    ensures
        holder(s, r) == holder(s.take(k), r),
    decreases s.len(),
{
    if k < s.len() {
        let t = s.drop_last();
        assert forall|j: int| k <= j < t.len() implies (#[trigger] t[j]).dst() != Some(r) by {
            assert(t[j] == s[j]);
        }
        lemma_holder_stays(t, k, r);
        assert(t.take(k) =~= s.take(k));
        assert(s.last() == s[s.len() - 1]);
    } else {
        lemma_all(s);
    }
}

/// No instruction from `k` on writes what was written before.
proof fn lemma_not_again(ps: Seq<IrReg>, s: Seq<InstModel>, n: u32, k: int, r: IrReg)
    requires
        single(ps, s, n),
        0 <= k <= s.len(),
        written(ps, s.take(k)).contains(r),
    ensures
        forall|j: int| k <= j < s.len() ==> (#[trigger] s[j]).dst() != Some(r),
{
    assert forall|j: int| k <= j < s.len() implies (#[trigger] s[j]).dst() != Some(r) by {
        lemma_at(ps, s, n, j);
        lemma_written_take(ps, s, k, j);
    }
}

/// Folding knows of a register what the instructions so far hold; of one that is not written
/// yet, what all of them do.
#[verifier::spinoff_prover]
proof fn lemma_folded_knows(ps: Seq<IrReg>, s: Seq<InstModel>, n: u32, k: int, r: IrReg)
    requires
        single(ps, s, n),
        0 <= k <= s.len(),
        r.0 < n,
    ensures
        ir::known(ir::folded(s, k, n as int).1, r) == if written(ps, s.take(k)).contains(r) {
            holder(ir::folded(s, k, n as int).0, r)
        } else {
            holder(s, r)
        },
        ir::folded(s, k, n as int).1.len() == n,
    decreases k,
{
    lemma_constants_len(s, s.len() as int, n as int);
    lemma_table_holds(s, s.len() as int, n as int, r);
    lemma_all(s);
    if k == 0 {
        assert(s.take(0) =~= Seq::empty());
        if written(ps, s.take(0)).contains(r) {
            lemma_single_take(ps, s, n, 0);
            lemma_not_again(ps, s, n, 0, r);
            lemma_holder_stays(s, 0, r);
        }
    } else {
        lemma_folded_knows(ps, s, n, k - 1, r);
        lemma_fold_run(ps, s, n, k - 1);
        lemma_next(s, k - 1);
        lemma_at(ps, s, n, k - 1);
        let (out, t) = ir::folded(s, k - 1, n as int);
        let x = fold_at(s[k - 1], t);
        let more = ir::folded(s, k, n as int).0;
        assert(more == out.push(x));
        assert(more.drop_last() =~= out);
        assert(more.last() == x);
        if s[k - 1].dst() == Some(r) && ir::computed(s[k - 1], t) is None {
            lemma_holder_none(ps, out, r);
            lemma_not_again(ps, s, n, k, r);
            lemma_holder_stays(s, k, r);
            lemma_holder_none(ps, s.take(k - 1), r);
            assert(s.take(k).drop_last() == s.take(k - 1));
        }
    }
}

/// Folding twice is folding once.
#[verifier::spinoff_prover]
proof fn lemma_fold_again(f: FnModel, k: int)
    requires
        ssa(f),
        0 <= k <= f.insts.len(),
    ensures
        ({
            let g = ir::fold_of(f).insts;
            ir::folded(g, k, f.next_reg as int) == (g.take(k), ir::constants_in(g, g.len() as int, f.next_reg as int))
        }),
    decreases k,
{
    let s = f.insts;
    let n = f.next_reg;
    let g = ir::fold_of(f).insts;
    let m = s.len() as int;
    lemma_fold_run(f.params, s, n, m);
    lemma_fold_prefix(s, n as int, k, m);
    if k == 0 {
        assert(g.take(0) =~= Seq::empty());
    } else {
        lemma_fold_again(f, k - 1);
        lemma_fold_prefix(s, n as int, k - 1, m);
        lemma_next(g, k - 1);
        lemma_at(f.params, s, n, k - 1);
        let (out, t) = ir::folded(s, k - 1, n as int);
        let i = s[k - 1];
        let x = g[k - 1];
        let all = ir::constants_in(g, g.len() as int, n as int);
        assert(ir::folded(s, k, n as int).0[k - 1] == g.take(k)[k - 1]);
        assert(x == fold_at(i, t)) by {
            assert(ir::folded(s, k, n as int).0 == out.push(fold_at(i, t)));
        }
        assert(out == g.take(k - 1));
        if ir::computed(i, t) is None {
            assert forall|q: int| 0 <= q < i.reads().len() implies ir::known(all, #[trigger] i.reads()[q]) == ir::known(
                t,
                i.reads()[q],
            ) by {
                let r = i.reads()[q];
                lemma_single_take(f.params, s, n, k - 1);
                lemma_low(f.params, s.take(k - 1), n, r);
                lemma_folded_knows(f.params, s, n, k - 1, r);
                lemma_table_holds(g, g.len() as int, n as int, r);
                lemma_all(g);
                lemma_fold_run(f.params, s, n, k - 1);
                assert(written(f.params, g.take(k - 1)).contains(r));
                lemma_all(s);
                lemma_not_again(f.params, g, n, k - 1, r);
                lemma_holder_stays(g, k - 1, r);
            }
            match i {
                InstModel::Binary(d, op, a, b) => {
                    assert(i.reads()[0] == a && i.reads()[1] == b);
                },
                InstModel::Unary(d, op, a) => {
                    assert(i.reads()[0] == a);
                },
                _ => {},
            }
            assert(ir::computed(x, all) is None);
        }
        assert(g.take(k - 1).push(x) =~= g.take(k));
    }
}

/// What folding made of the first instructions is a part of what it makes of all.
proof fn lemma_fold_prefix(s: Seq<InstModel>, n: int, k: int, m: int)
    requires
        0 <= k <= m <= s.len(),
    ensures
        ir::folded(s, k, n).0 == ir::folded(s, m, n).0.take(k),
        ir::folded(s, m, n).0.len() == m,
    decreases m,
{
    if m > 0 {
        lemma_fold_prefix(s, n, if k < m {
            k
        } else {
            m - 1
        }, m - 1);
        let a = ir::folded(s, m - 1, n).0;
        let b = ir::folded(s, m, n).0;
        if k < m {
            assert(b.take(k) =~= a.take(k));
        } else {
            lemma_all(b);
        }
    } else {
        assert(ir::folded(s, 0, n).0.take(0) =~= ir::folded(s, 0, n).0);
    }
}

/// Constant folding a second time changes nothing.
pub proof fn law_folding_is_idempotent(f: FnModel)
    requires
        ssa(f),
    ensures
        ir::fold_of(ir::fold_of(f)) == ir::fold_of(f),
{
    let g = ir::fold_of(f);
    lemma_fold_run(f.params, f.insts, f.next_reg, f.insts.len() as int);
    lemma_fold_prefix(f.insts, f.next_reg as int, f.insts.len() as int, f.insts.len() as int);
    lemma_fold_again(f, f.insts.len() as int);
    lemma_all(g.insts);
}

/// Whether some instructions can be all that is left: every one that does more than write
/// its register is among them, and with each of them those that write what it reads.
pub open spec fn closed(s: Seq<InstModel>, keep: Set<int>) -> bool {
    &&& forall|k: int| 0 <= k < s.len() && !(#[trigger] s[k]).pure() ==> keep.contains(k)
    &&& forall|k: int, j: int, q: int|
        #![trigger s[k].reads()[q], s[j]]
        0 <= k < s.len() && 0 <= j < s.len() && keep.contains(k) && 0 <= q < s[k].reads().len() && s[j].dst() == Some(
            s[k].reads()[q],
        ) ==> keep.contains(j)
}

/// The instructions that dead-code elimination keeps.
pub open spec fn kept_set(f: FnModel) -> Set<int> {
    Set::new(|k: int| 0 <= k < f.insts.len() && ir::stays(f.insts[k], ir::read_from(f, 0)))
}

/// An instruction stays in the end if and only if it stays by what is behind it.
proof fn lemma_stays_behind(f: FnModel, k: int)
    requires
        ssa(f),
        0 <= k < f.insts.len(),
    ensures
        ir::stays(f.insts[k], ir::read_from(f, 0)) == ir::stays(f.insts[k], ir::read_from(f, k + 1)),
{
    if f.insts[k].pure() {
        let d = f.insts[k].dst()->0;
        if ir::marked(ir::read_from(f, 0), d) {
            lemma_marks_behind(f, k, 0, d);
        }
        if ir::marked(ir::read_from(f, k + 1), d) {
            lemma_marks_grow(f, k + 1, d);
        }
    }
}

/// What is marked is a parameter, or read by an instruction that stays.
proof fn lemma_marked_is_read(f: FnModel, k: int, r: IrReg)
    requires
        0 <= k <= f.insts.len(),
        ir::marked(ir::read_from(f, k), r),
    ensures
        f.params.contains(r) || exists|j: int|
            k <= j < f.insts.len() && ir::stays(f.insts[j], ir::read_from(f, j + 1)) && #[trigger] f.insts[j].reads().contains(r),
    decreases f.insts.len() - k,
{
    lemma_reads(f, k);
    if k < f.insts.len() {
        if ir::marked(ir::read_from(f, k + 1), r) {
            lemma_marked_is_read(f, k + 1, r);
        } else {
            assert(f.insts[k].reads().contains(r));
        }
    }
}

proof fn lemma_least(f: FnModel, keep: Set<int>, k: int)
    requires
        ssa(f),
        closed(f.insts, keep),
        0 <= k <= f.insts.len(),
    ensures
        forall|j: int| k <= j < f.insts.len() && ir::stays(f.insts[j], ir::read_from(f, j + 1)) ==> #[trigger] keep.contains(j),
    decreases f.insts.len() - k,
{
    if k < f.insts.len() {
        lemma_least(f, keep, k + 1);
        let i = f.insts[k];
        if ir::stays(i, ir::read_from(f, k + 1)) && i.pure() {
            let d = i.dst()->0;
            lemma_marked_is_read(f, k + 1, d);
            lemma_params_apart(f.params, f.insts, f.next_reg, k, d);
            let j = choose|j: int|
                k + 1 <= j < f.insts.len() && ir::stays(f.insts[j], ir::read_from(f, j + 1)) && #[trigger] f.insts[j].reads().contains(
                    d,
                );
            assert(keep.contains(j));
            let rs = f.insts[j].reads();
            let q = choose|q: int| 0 <= q < rs.len() && rs[q] == d;
            assert(f.insts[j].reads()[q] == d && f.insts[k].dst() == Some(d));
        }
    }
}

/// Dead-code elimination keeps the least that can be kept: the instructions that it keeps
/// can be all that is left, and whatever can be all that is left holds them.
pub proof fn law_dropping_keeps_the_least(f: FnModel, keep: Set<int>)
    requires
        ssa(f),
        closed(f.insts, keep),
    ensures
        closed(f.insts, kept_set(f)),
        kept_set(f).subset_of(keep),
{
    let u = ir::read_from(f, 0);
    let own = kept_set(f);
    assert forall|k: int, j: int, q: int|
        #![trigger f.insts[k].reads()[q], f.insts[j]]
        0 <= k < f.insts.len() && 0 <= j < f.insts.len() && own.contains(k) && 0 <= q < f.insts[k].reads().len()
            && f.insts[j].dst() == Some(f.insts[k].reads()[q]) implies own.contains(j) by {
        lemma_stays(f, k);
        assert(ir::marked(u, f.insts[k].reads()[q]));
    }
    lemma_least(f, keep, 0);
    assert forall|k: int| own.contains(k) implies keep.contains(k) by {
        lemma_stays_behind(f, k);
    }
}

/// The marks of what is left are those of the whole.
proof fn lemma_same_marks(f: FnModel, k: int)
    requires
        ssa(f),
        0 <= k <= f.insts.len(),
    ensures
        ({
            let u = ir::read_from(f, 0);
            let g = ir::dce_of(f);
            let m = ir::kept(f.insts, k, u).len() as int;
            &&& m <= g.insts.len()
            &&& ir::read_from(g, m) == ir::read_from(f, k)
        }),
    decreases f.insts.len() - k,
{
    let u = ir::read_from(f, 0);
    let g = ir::dce_of(f);
    let n = f.insts.len() as int;
    let m = ir::kept(f.insts, k, u).len() as int;
    lemma_kept_prefix(f.insts, u, k, n);
    if k < n {
        lemma_same_marks(f, k + 1);
        lemma_stays_behind(f, k);
        lemma_kept_prefix(f.insts, u, k + 1, n);
        if ir::stays(f.insts[k], u) {
            assert(ir::kept(f.insts, k + 1, u)[m] == f.insts[k]);
            assert(g.insts[m] == f.insts[k]);
        }
    }
}

proof fn lemma_kept_prefix(s: Seq<InstModel>, u: Seq<bool>, k: int, n: int)
    requires
        0 <= k <= n <= s.len(),
    ensures
        ir::kept(s, k, u).len() <= ir::kept(s, n, u).len(),
        forall|i: int| 0 <= i < ir::kept(s, k, u).len() ==> #[trigger] ir::kept(s, k, u)[i] == ir::kept(s, n, u)[i],
        forall|i: int| 0 <= i < ir::kept(s, n, u).len() ==> ir::stays(#[trigger] ir::kept(s, n, u)[i], u),
    decreases n,
{
    if k < n {
        lemma_kept_prefix(s, u, k, n - 1);
    } else if n > 0 {
        lemma_kept_prefix(s, u, n - 1, n - 1);
    }
    if n > 0 {
        let a = ir::kept(s, n - 1, u);
        let b = ir::kept(s, n, u);
        assert forall|i: int| 0 <= i < b.len() implies ir::stays(#[trigger] b[i], u) by {
            if i < a.len() {
                assert(b[i] == a[i]);
            }
        }
    }
}

/// Dead-code elimination a second time changes nothing.
pub proof fn law_dropping_is_idempotent(f: FnModel)
    requires
        ssa(f),
    ensures
        ir::dce_of(ir::dce_of(f)) == ir::dce_of(f),
{
    let u = ir::read_from(f, 0);
    let g = ir::dce_of(f);
    lemma_same_marks(f, 0);
    lemma_kept_prefix(f.insts, u, f.insts.len() as int, f.insts.len() as int);
    assert(ir::read_from(g, 0) == u);
    lemma_dce_weight(g.insts, g.insts.len() as int, u);
    lemma_all(g.insts);
}

/// Where a round changes nothing, none of the passes does.
pub proof fn law_settled_code_is_fixed(f: FnModel)
    requires
        ssa(f),
        ir::round(f) == f,
    ensures
        ir::fold_of(f) == f,
        ir::cse_of(f) == f,
        ir::dce_of(f) == f,
{
    let a = ir::fold_of(f);
    let b = ir::cse_of(a);
    let u = ir::read_from(b, 0);
    lemma_fold_weight(f.insts, f.next_reg as int, f.insts.len() as int);
    lemma_all(f.insts);
    lemma_cse_weight(a.insts, a.insts.len() as int);
    lemma_all(a.insts);
    lemma_all(rewritten(a.insts));
    assert(b.insts =~= rewritten(a.insts));
    lemma_dce_weight(b.insts, b.insts.len() as int, u);
    lemma_all(b.insts);
    assert(a.insts == f.insts);
    assert(b.insts == f.insts);
    assert(a == f && b == f);
}

/// After optimising, no pass changes anything, nor does optimising again.
pub proof fn law_optimised_code_is_fixed(f: FnModel, n: nat, again: nat)
    requires
        ssa(f),
        2 * f.insts.len() < n,
    ensures
        ({
            let g = ir::settled(f, n);
            &&& ir::fold_of(g) == g
            &&& ir::cse_of(g) == g
            &&& ir::dce_of(g) == g
            &&& ir::settled(g, again) == g
        }),
{
    let g = ir::settled(f, n);
    law_optimising_settles(f, n);
    law_optimising_keeps_behaviour(f, n);
    law_settled_code_is_fixed(g);
}

/// What stays of an instruction that does more than write its register: all but which
/// registers it reads.
pub open spec fn outline(i: InstModel) -> InstModel {
    match i {
        InstModel::Call(d, n, args) => InstModel::Call(d, n, Seq::new(args.len(), |k: int| d)),
        InstModel::Return(Some(_)) => InstModel::Return(Some(IrReg(0))),
        InstModel::Eval(_) => InstModel::Eval(IrReg(0)),
        _ => i,
    }
}

/// The outlines of the instructions that do more than write their registers.
pub open spec fn effects(s: Seq<InstModel>) -> Seq<InstModel>
    decreases s.len(),
{
    if s.len() == 0 {
        Seq::empty()
    } else if s.last().pure() {
        effects(s.drop_last())
    } else {
        effects(s.drop_last()).push(outline(s.last()))
    }
}

proof fn lemma_fold_effects(s: Seq<InstModel>, n: int, k: int)
    requires
        0 <= k <= s.len(),
    ensures
        effects(ir::folded(s, k, n).0) == effects(s.take(k)),
    decreases k,
{
    if k > 0 {
        lemma_fold_effects(s, n, k - 1);
        lemma_next(s, k - 1);
        let (out, t) = ir::folded(s, k - 1, n);
        let x = fold_at(s[k - 1], t);
        assert(ir::folded(s, k, n).0 == out.push(x));
        assert(out.push(x).drop_last() =~= out);
        assert(out.push(x).last() == x);
    } else {
        assert(s.take(0) =~= Seq::empty());
    }
}

proof fn lemma_cse_effects(s: Seq<InstModel>, k: int)
    requires
        0 <= k <= s.len(),
    ensures
        effects(rewritten(s).take(k)) == effects(s.take(k)),
    decreases k,
{
    if k > 0 {
        lemma_cse_effects(s, k - 1);
        lemma_next(s, k - 1);
        lemma_next(rewritten(s), k - 1);
        let i = s[k - 1];
        let x = rewritten(s)[k - 1];
        if let InstModel::Call(d, n, args) = i {
            assert(outline(x)->Call_2 =~= outline(i)->Call_2);
        }
    } else {
        assert(rewritten(s).take(0) =~= s.take(0));
    }
}

proof fn lemma_dce_effects(s: Seq<InstModel>, k: int, u: Seq<bool>)
    requires
        0 <= k <= s.len(),
    ensures
        effects(ir::kept(s, k, u)) == effects(s.take(k)),
        ir::kept(s, k, u).len() <= k,
    decreases k,
{
    if k > 0 {
        lemma_dce_effects(s, k - 1, u);
        lemma_next(s, k - 1);
        let y = ir::kept(s, k - 1, u);
        assert(y.push(s[k - 1]).drop_last() =~= y);
        assert(y.push(s[k - 1]).last() == s[k - 1]);
    } else {
        assert(s.take(0) =~= Seq::empty());
    }
}

/// Optimising adds no instructions and leaves the calls, returns and kept values in order,
/// but for the registers that they read; the name, the parameters and the registers stay.
pub proof fn law_optimising_adds_nothing(f: FnModel, n: nat)
    ensures
        ({
            let g = ir::settled(f, n);
            &&& g.insts.len() <= f.insts.len()
            &&& effects(g.insts) == effects(f.insts)
            &&& g.name == f.name && g.params == f.params && g.next_reg == f.next_reg
        }),
    decreases n,
{
    if n > 0 {
        let a = ir::fold_of(f);
        let b = ir::cse_of(a);
        let g = ir::round(f);
        lemma_fold_effects(f.insts, f.next_reg as int, f.insts.len() as int);
        lemma_fold_prefix(f.insts, f.next_reg as int, f.insts.len() as int, f.insts.len() as int);
        lemma_all(f.insts);
        lemma_cse_effects(a.insts, a.insts.len() as int);
        lemma_all(a.insts);
        lemma_all(rewritten(a.insts));
        assert(b.insts =~= rewritten(a.insts));
        lemma_dce_effects(b.insts, b.insts.len() as int, ir::read_from(b, 0));
        lemma_all(b.insts);
        if g.insts != f.insts {
            law_optimising_adds_nothing(g, (n - 1) as nat);
        }
    }
}

// --- lowered code ----------------------------------------------------------------------

/// Whether a function while it is lowered is of single assignment, with just the first
/// registers written, names among them.
pub open spec fn tidy(ps: Seq<IrReg>, s: Low) -> bool {
    &&& single(ps, s.insts, s.next)
    &&& forall|r: IrReg| #[trigger] written(ps, s.insts).contains(r) <==> r.0 < s.next
    &&& forall|i: int| 0 <= i < s.names.len() ==> (#[trigger] s.names[i]).1.0 < s.next
    &&& s.next <= ps.len() + s.insts.len()
}

/// Whether there are registers for every instruction.
pub open spec fn room(ps: Seq<IrReg>, s: Low) -> bool {
    ps.len() + s.insts.len() <= u32::MAX
}

proof fn lemma_single_more(ps: Seq<IrReg>, s: Seq<InstModel>, n: u32, m: u32)
    requires
        single(ps, s, n),
        n <= m,
    ensures
        single(ps, s, m),
    decreases s.len(),
{
    if s.len() > 0 {
        lemma_single_more(ps, s.drop_last(), n, m);
    }
}

/// One more instruction that writes the next register.
pub(crate) proof fn lemma_tidy_put(ps: Seq<IrReg>, s: Low, i: InstModel)
    requires
        tidy(ps, s),
        room(ps, s.taken().emit(i)),
        i.dst() == Some(s.reg()),
        forall|q: int| 0 <= q < i.reads().len() ==> (#[trigger] i.reads()[q]).0 < s.next,
    ensures
        tidy(ps, s.taken().emit(i)),
        s.next < s.taken().next,
{
    let t = s.taken().emit(i);
    assert(t.next == s.next + 1);
    assert(t.insts.drop_last() =~= s.insts);
    lemma_single_more(ps, s.insts, s.next, t.next);
}

/// One more instruction that writes nothing.
pub(crate) proof fn lemma_tidy_say(ps: Seq<IrReg>, s: Low, i: InstModel)
    requires
        tidy(ps, s),
        i.dst() is None,
        forall|q: int| 0 <= q < i.reads().len() ==> (#[trigger] i.reads()[q]).0 < s.next,
    ensures
        tidy(ps, s.emit(i)),
{
    let t = s.emit(i);
    assert(t.insts.drop_last() =~= s.insts);
    assert(t.insts.last() == i);
    assert forall|q: int| 0 <= q < i.reads().len() implies written(ps, s.insts).contains(#[trigger] i.reads()[q]) by {
        assert(i.reads()[q].0 < s.next);
    }
    assert(single(ps, t.insts, t.next));
    assert(written(ps, t.insts) == written(ps, s.insts));
}

proof fn lemma_bound_name(names: Names, n: Seq<char>)
    ensures
        ir::bound_at(names, n) matches Some(i) ==> 0 <= i < names.len(),
    decreases names.len(),
{
    if names.len() > 0 && names.last().0 != n {
        lemma_bound_name(names.drop_last(), n);
    }
}

/// Whether a state has at least the instructions and names of another.
pub open spec fn further(s: Low, t: Low) -> bool {
    s.insts.len() <= t.insts.len() && s.names.len() <= t.names.len()
}

#[verifier::spinoff_prover]
pub(crate) proof fn lemma_far_expr(e: ExprModel, s: Low)
    ensures
        further(s, ir::l_expr(e, s).0),
        ir::l_expr(e, s).0.names.len() == s.names.len(),
    decreases e, 0int,
{
    reveal(ir::l_expr);
    reveal(ir::l_exprs);
    reveal(ir::l_inits);
    reveal(ir::l_pairs);
    reveal(ir::l_block);
    match e.kind {
        ExprKindModel::Binary(op, l, r) => {
            lemma_far_expr(*l.it, s);
            lemma_far_expr(*r.it, ir::l_expr(*l.it, s).0);
        },
        ExprKindModel::Unary(op, x) => {
            lemma_far_expr(*x.it, s);
        },
        ExprKindModel::Call(c, args) => {
            lemma_far_exprs(args, args.len() as int, s);
        },
        ExprKindModel::Field(x, _) => {
            lemma_far_expr(*x.it, s);
        },
        ExprKindModel::Index(x, _) => {
            lemma_far_expr(*x.it, s);
        },
        ExprKindModel::StructLit(_, fs) => {
            lemma_far_inits(fs, fs.len() as int, s);
        },
        ExprKindModel::ArrayLit(es) => {
            lemma_far_exprs(es, es.len() as int, s);
        },
        ExprKindModel::MapLit(ps) => {
            lemma_far_pairs(ps, ps.len() as int, s);
        },
        ExprKindModel::Block(b) => {
            lemma_far_block(*b.it, s);
        },
        ExprKindModel::If(c, yes, no) => {
            let s1 = ir::l_expr(*c.it, s).0;
            lemma_far_expr(*c.it, s);
            lemma_far_block(*yes.it, s1);
            if let Some(b) = no {
                lemma_far_block(*b.it, ir::l_block(*yes.it, s1).0);
            }
        },
        _ => {},
    }
}

#[verifier::spinoff_prover]
proof fn lemma_far_exprs(es: Seq<ExprModel>, k: int, s: Low)
    ensures
        further(s, ir::l_exprs(es, k, s).0),
        ir::l_exprs(es, k, s).0.names.len() == s.names.len(),
    decreases es, k,
{
    reveal(ir::l_exprs);
    reveal(ir::l_expr);
    if 0 < k <= es.len() {
        lemma_far_exprs(es, k - 1, s);
        let s1 = ir::l_exprs(es, k - 1, s).0;
        lemma_far_expr(es[k - 1], s1);
    }
}

#[verifier::spinoff_prover]
proof fn lemma_far_inits(es: Seq<(Seq<char>, ExprModel)>, k: int, s: Low)
    ensures
        further(s, ir::l_inits(es, k, s)),
        ir::l_inits(es, k, s).names.len() == s.names.len(),
    decreases es, k,
{
    reveal(ir::l_inits);
    reveal(ir::l_expr);
    if 0 < k <= es.len() {
        lemma_far_inits(es, k - 1, s);
        let s1 = ir::l_inits(es, k - 1, s);
        assert(decreases_to!(es => es[k - 1]));
        assert(decreases_to!(es[k - 1] => es[k - 1].1));
        lemma_far_expr(es[k - 1].1, s1);
    }
}

#[verifier::spinoff_prover]
proof fn lemma_far_pairs(es: Seq<(ExprModel, ExprModel)>, k: int, s: Low)
    ensures
        further(s, ir::l_pairs(es, k, s)),
        ir::l_pairs(es, k, s).names.len() == s.names.len(),
    decreases es, k,
{
    reveal(ir::l_pairs);
    reveal(ir::l_expr);
    if 0 < k <= es.len() {
        lemma_far_pairs(es, k - 1, s);
        let s1 = ir::l_pairs(es, k - 1, s);
        assert(decreases_to!(es => es[k - 1]));
        assert(decreases_to!(es[k - 1] => es[k - 1].0));
        assert(decreases_to!(es[k - 1] => es[k - 1].1));
        lemma_far_expr(es[k - 1].0, s1);
        lemma_far_expr(es[k - 1].1, ir::l_expr(es[k - 1].0, s1).0);
    }
}

#[verifier::spinoff_prover]
pub(crate) proof fn lemma_far_block(b: BlockModel, s: Low)
    ensures
        further(s, ir::l_block(b, s).0),
        ir::l_block(b, s).0.names.len() == s.names.len(),
    decreases b, 0int,
{
    reveal(ir::l_block);
    reveal(ir::l_stmts);
    reveal(ir::l_expr);
    let s1 = ir::l_stmts(b.stmts, b.stmts.len() as int, s);
    lemma_far_stmts(b.stmts, b.stmts.len() as int, s);
    if let Some(e) = b.tail {
        lemma_far_expr(e, s1);
    }
}

#[verifier::spinoff_prover]
pub(crate) proof fn lemma_far_stmts(ss: Seq<StmtModel>, k: int, s: Low)
    ensures
        further(s, ir::l_stmts(ss, k, s)),
    decreases ss, k,
{
    reveal(ir::l_stmts);
    reveal(ir::l_stmt);
    if 0 < k <= ss.len() {
        lemma_far_stmts(ss, k - 1, s);
        lemma_far_stmt(ss[k - 1], ir::l_stmts(ss, k - 1, s));
    }
}

#[verifier::spinoff_prover]
pub(crate) proof fn lemma_far_stmt(st: StmtModel, s: Low)
    ensures
        further(s, ir::l_stmt(st, s)),
    decreases st, 0int,
{
    reveal(ir::l_stmt);
    reveal(ir::l_expr);
    reveal(ir::l_block);
    match st.kind {
        StmtKindModel::Let { name, ty, mutable, init } => {
            lemma_far_expr(init, s);
        },
        StmtKindModel::Assign(target, v) => {
            lemma_far_expr(v, s);
            if let ExprKindModel::Ident(n) = target.kind {
                lemma_bound_name(ir::l_expr(v, s).0.names, n);
            }
        },
        StmtKindModel::Expr(e) => {
            lemma_far_expr(e, s);
        },
        StmtKindModel::Return(Some(e)) => {
            lemma_far_expr(e, s);
        },
        StmtKindModel::While(_, body) => {
            lemma_far_block(*body.it, s);
        },
        StmtKindModel::If(c, yes, no) => {
            let s1 = ir::l_expr(c, s).0;
            lemma_far_expr(c, s);
            lemma_far_block(*yes.it, s1);
            if let Some(b) = no {
                lemma_far_block(*b.it, ir::l_block(*yes.it, s1).0);
            }
        },
        _ => {},
    }
}

#[verifier::spinoff_prover]
#[verifier::rlimit(60)]
proof fn lemma_tidy_expr(e: ExprModel, s: Low, ps: Seq<IrReg>)
    requires
        tidy(ps, s),
        room(ps, ir::l_expr(e, s).0),
    ensures
        tidy(ps, ir::l_expr(e, s).0),
        ir::l_expr(e, s).1.0 < ir::l_expr(e, s).0.next,
        s.next <= ir::l_expr(e, s).0.next,
    decreases e, 0int,
{
    reveal(ir::l_expr);
    reveal(ir::l_exprs);
    reveal(ir::l_inits);
    reveal(ir::l_pairs);
    reveal(ir::l_block);
    match e.kind {
        ExprKindModel::Lit(l) => {
            lemma_tidy_put(ps, s, InstModel::Const(s.reg(), ir::lit_const(crate::typeck::literal_value(l, e.ty))));
        },
        ExprKindModel::Ident(n) => {
            lemma_bound_name(s.names, n);
            match ir::bound_at(s.names, n) {
                Some(i) => {
                    assert(s.names[i].1.0 < s.next);
                },
                None => {
                    lemma_tidy_put(ps, s, InstModel::Const(s.reg(), IrConst::Nil));
                },
            }
        },
        ExprKindModel::Binary(op, l, r) => {
            let (s1, a) = ir::l_expr(*l.it, s);
            let (s2, b) = ir::l_expr(*r.it, s1);
            lemma_far_expr(*r.it, s1);
            lemma_tidy_expr(*l.it, s, ps);
            lemma_tidy_expr(*r.it, s1, ps);
            lemma_tidy_put(ps, s2, InstModel::Binary(s2.reg(), op, a, b));
        },
        ExprKindModel::Unary(op, x) => {
            let (s1, a) = ir::l_expr(*x.it, s);
            lemma_tidy_expr(*x.it, s, ps);
            lemma_tidy_put(ps, s1, InstModel::Unary(s1.reg(), op, a));
        },
        ExprKindModel::Call(c, args) => {
            let (s1, rs) = ir::l_exprs(args, args.len() as int, s);
            lemma_tidy_exprs(args, args.len() as int, s, ps);
            lemma_tidy_put(ps, s1, InstModel::Call(s1.reg(), ir::callee_name(*c.it), rs));
        },
        ExprKindModel::Field(x, _) => {
            let (s1, a) = ir::l_expr(*x.it, s);
            lemma_tidy_expr(*x.it, s, ps);
            lemma_tidy_put(ps, s1, InstModel::Move(s1.reg(), a));
        },
        ExprKindModel::Index(x, _) => {
            let (s1, a) = ir::l_expr(*x.it, s);
            lemma_tidy_expr(*x.it, s, ps);
            lemma_tidy_put(ps, s1, InstModel::Move(s1.reg(), a));
        },
        ExprKindModel::StructLit(_, fs) => {
            let s1 = ir::l_inits(fs, fs.len() as int, s);
            lemma_tidy_inits(fs, fs.len() as int, s, ps);
            lemma_tidy_put(ps, s1, InstModel::Const(s1.reg(), IrConst::Nil));
        },
        ExprKindModel::ArrayLit(es) => {
            let s1 = ir::l_exprs(es, es.len() as int, s).0;
            lemma_tidy_exprs(es, es.len() as int, s, ps);
            lemma_tidy_put(ps, s1, InstModel::Const(s1.reg(), IrConst::Nil));
        },
        ExprKindModel::MapLit(kvs) => {
            let s1 = ir::l_pairs(kvs, kvs.len() as int, s);
            lemma_tidy_pairs(kvs, kvs.len() as int, s, ps);
            lemma_tidy_put(ps, s1, InstModel::Const(s1.reg(), IrConst::Nil));
        },
        ExprKindModel::Closure(_, _) => {
            lemma_tidy_put(ps, s, InstModel::Const(s.reg(), IrConst::Nil));
        },
        ExprKindModel::Block(b) => {
            let (s1, r) = ir::l_block(*b.it, s);
            lemma_tidy_block(*b.it, s, ps);
            if r is None {
                lemma_tidy_put(ps, s1, InstModel::Const(s1.reg(), IrConst::Nil));
            }
        },
        ExprKindModel::If(c, yes, no) => {
            let s1 = ir::l_expr(*c.it, s).0;
            let s2 = ir::l_block(*yes.it, s1).0;
            lemma_far_block(*yes.it, s1);
            match no {
                Some(b) => {
                    let s3 = ir::l_block(*b.it, s2).0;
                    lemma_far_block(*b.it, s2);
                    lemma_tidy_expr(*c.it, s, ps);
                    lemma_tidy_block(*yes.it, s1, ps);
                    lemma_tidy_block(*b.it, s2, ps);
                    lemma_tidy_put(ps, s3, InstModel::Const(s3.reg(), IrConst::Nil));
                },
                None => {
                    lemma_tidy_expr(*c.it, s, ps);
                    lemma_tidy_block(*yes.it, s1, ps);
                    lemma_tidy_put(ps, s2, InstModel::Const(s2.reg(), IrConst::Nil));
                },
            }
        },
    }
}

#[verifier::spinoff_prover]
proof fn lemma_tidy_exprs(es: Seq<ExprModel>, k: int, s: Low, ps: Seq<IrReg>)
    requires
        tidy(ps, s),
        room(ps, ir::l_exprs(es, k, s).0),
    ensures
        tidy(ps, ir::l_exprs(es, k, s).0),
        s.next <= ir::l_exprs(es, k, s).0.next,
        ({
            let (t, rs) = ir::l_exprs(es, k, s);
            forall|i: int| 0 <= i < rs.len() ==> (#[trigger] rs[i]).0 < t.next
        }),
    decreases es, k,
{
    reveal(ir::l_exprs);
    reveal(ir::l_expr);
    if 0 < k <= es.len() {
        let (s1, rs) = ir::l_exprs(es, k - 1, s);
        let (s2, r) = ir::l_expr(es[k - 1], s1);
        lemma_far_expr(es[k - 1], s1);
        lemma_tidy_exprs(es, k - 1, s, ps);
        lemma_tidy_expr(es[k - 1], s1, ps);
        assert forall|i: int| 0 <= i < rs.push(r).len() implies (#[trigger] rs.push(r)[i]).0 < s2.next by {
            if i < rs.len() {
                assert(rs[i].0 < s1.next);
            }
        }
    }
}

#[verifier::spinoff_prover]
proof fn lemma_tidy_inits(es: Seq<(Seq<char>, ExprModel)>, k: int, s: Low, ps: Seq<IrReg>)
    requires
        tidy(ps, s),
        room(ps, ir::l_inits(es, k, s)),
    ensures
        tidy(ps, ir::l_inits(es, k, s)),
        s.next <= ir::l_inits(es, k, s).next,
    decreases es, k,
{
    reveal(ir::l_inits);
    reveal(ir::l_expr);
    if 0 < k <= es.len() {
        let s1 = ir::l_inits(es, k - 1, s);
        assert(decreases_to!(es => es[k - 1]));
        assert(decreases_to!(es[k - 1] => es[k - 1].1));
        lemma_far_expr(es[k - 1].1, s1);
        lemma_tidy_inits(es, k - 1, s, ps);
        lemma_tidy_expr(es[k - 1].1, s1, ps);
    }
}

#[verifier::spinoff_prover]
proof fn lemma_tidy_pairs(es: Seq<(ExprModel, ExprModel)>, k: int, s: Low, ps: Seq<IrReg>)
    requires
        tidy(ps, s),
        room(ps, ir::l_pairs(es, k, s)),
    ensures
        tidy(ps, ir::l_pairs(es, k, s)),
        s.next <= ir::l_pairs(es, k, s).next,
    decreases es, k,
{
    reveal(ir::l_pairs);
    reveal(ir::l_expr);
    if 0 < k <= es.len() {
        let s1 = ir::l_pairs(es, k - 1, s);
        assert(decreases_to!(es => es[k - 1]));
        assert(decreases_to!(es[k - 1] => es[k - 1].0));
        assert(decreases_to!(es[k - 1] => es[k - 1].1));
        let s2 = ir::l_expr(es[k - 1].0, s1).0;
        lemma_far_expr(es[k - 1].0, s1);
        lemma_far_expr(es[k - 1].1, s2);
        lemma_tidy_pairs(es, k - 1, s, ps);
        lemma_tidy_expr(es[k - 1].0, s1, ps);
        lemma_tidy_expr(es[k - 1].1, s2, ps);
    }
}

#[verifier::spinoff_prover]
proof fn lemma_tidy_block(b: BlockModel, s: Low, ps: Seq<IrReg>)
    requires
        tidy(ps, s),
        room(ps, ir::l_block(b, s).0),
    ensures
        tidy(ps, ir::l_block(b, s).0),
        s.next <= ir::l_block(b, s).0.next,
        ir::l_block(b, s).1 matches Some(r) ==> r.0 < ir::l_block(b, s).0.next,
    decreases b, 0int,
{
    reveal(ir::l_block);
    reveal(ir::l_stmts);
    reveal(ir::l_expr);
    let n = b.stmts.len() as int;
    let s1 = ir::l_stmts(b.stmts, n, s);
    let t = ir::l_block(b, s).0;
    lemma_far_stmts(b.stmts, n, s);
    match b.tail {
        Some(e) => {
            let s2 = ir::l_expr(e, s1).0;
            lemma_far_expr(e, s1);
            lemma_tidy_stmts(b.stmts, n, s, ps);
            lemma_tidy_expr(e, s1, ps);
            assert forall|i: int| 0 <= i < t.names.len() implies (#[trigger] t.names[i]).1.0 < t.next by {
                assert(t.names[i] == s2.names[i]);
            }
        },
        None => {
            lemma_tidy_stmts(b.stmts, n, s, ps);
            assert forall|i: int| 0 <= i < t.names.len() implies (#[trigger] t.names[i]).1.0 < t.next by {
                assert(t.names[i] == s1.names[i]);
            }
        },
    }
}

#[verifier::spinoff_prover]
proof fn lemma_tidy_stmts(ss: Seq<StmtModel>, k: int, s: Low, ps: Seq<IrReg>)
    requires
        tidy(ps, s),
        room(ps, ir::l_stmts(ss, k, s)),
    ensures
        tidy(ps, ir::l_stmts(ss, k, s)),
        s.next <= ir::l_stmts(ss, k, s).next,
    decreases ss, k,
{
    reveal(ir::l_stmts);
    reveal(ir::l_stmt);
    if 0 < k <= ss.len() {
        let s1 = ir::l_stmts(ss, k - 1, s);
        lemma_far_stmt(ss[k - 1], s1);
        lemma_tidy_stmts(ss, k - 1, s, ps);
        lemma_tidy_stmt(ss[k - 1], s1, ps);
    }
}

#[verifier::spinoff_prover]
#[verifier::rlimit(60)]
proof fn lemma_tidy_stmt(st: StmtModel, s: Low, ps: Seq<IrReg>)
    requires
        tidy(ps, s),
        room(ps, ir::l_stmt(st, s)),
    ensures
        tidy(ps, ir::l_stmt(st, s)),
        s.next <= ir::l_stmt(st, s).next,
    decreases st, 0int,
{
    reveal(ir::l_stmt);
    reveal(ir::l_expr);
    reveal(ir::l_block);
    match st.kind {
        StmtKindModel::Let { name, ty, mutable, init } => {
            lemma_tidy_expr(init, s, ps);
        },
        StmtKindModel::Assign(target, v) => {
            let (s1, r) = ir::l_expr(v, s);
            lemma_tidy_expr(v, s, ps);
            match target.kind {
                ExprKindModel::Ident(n) => {
                    lemma_bound_name(s1.names, n);
                },
                _ => {
                    lemma_tidy_say(ps, s1, InstModel::Eval(r));
                },
            }
        },
        StmtKindModel::Expr(e) => {
            let (s1, r) = ir::l_expr(e, s);
            lemma_tidy_expr(e, s, ps);
            lemma_tidy_say(ps, s1, InstModel::Eval(r));
        },
        StmtKindModel::Return(None) => {
            lemma_tidy_say(ps, s, InstModel::Return(None));
        },
        StmtKindModel::Return(Some(e)) => {
            let (s1, r) = ir::l_expr(e, s);
            lemma_tidy_expr(e, s, ps);
            lemma_tidy_say(ps, s1, InstModel::Return(Some(r)));
        },
        StmtKindModel::While(_, body) => {
            lemma_tidy_block(*body.it, s, ps);
        },
        StmtKindModel::If(c, yes, no) => {
            let s1 = ir::l_expr(c, s).0;
            let s2 = ir::l_block(*yes.it, s1).0;
            lemma_far_block(*yes.it, s1);
            if let Some(b) = no {
                lemma_far_block(*b.it, s2);
            }
            lemma_tidy_expr(c, s, ps);
            lemma_tidy_block(*yes.it, s1, ps);
            if let Some(b) = no {
                lemma_tidy_block(*b.it, s2, ps);
            }
        },
        _ => {},
    }
}

/// The parameters have the first registers, in order.
proof fn lemma_params(ps: Seq<ParamModel>, k: int)
    requires
        0 <= k <= ps.len(),
        k <= u32::MAX,
    ensures
        ({
            let (s, rs) = ir::l_params(ps, k);
            &&& s.insts.len() == 0
            &&& s.next == k
            &&& rs.len() == k
            &&& forall|i: int| 0 <= i < k ==> #[trigger] rs[i] == IrReg(i as u32)
            &&& forall|i: int| 0 <= i < s.names.len() ==> (#[trigger] s.names[i]).1.0 < s.next
        }),
    decreases k,
{
    if k > 0 {
        lemma_params(ps, k - 1);
    }
}

/// With just its parameters, a function is tidy.
pub(crate) proof fn lemma_params_tidy(ps: Seq<ParamModel>)
    requires
        ps.len() <= u32::MAX,
    ensures
        tidy(ir::l_params(ps, ps.len() as int).1, ir::l_params(ps, ps.len() as int).0),
{
    let (s, rs) = ir::l_params(ps, ps.len() as int);
    lemma_params(ps, ps.len() as int);
    assert forall|r: IrReg| #[trigger] written(rs, s.insts).contains(r) <==> r.0 < s.next by {
        if r.0 < s.next {
            assert(rs[r.0 as int] == r);
        }
    }
}

/// Lowered code writes each register once, before it is read, as long as there are enough
/// of them.
pub proof fn law_lowered_code_is_ssa(f: FnDeclModel)
    requires
        f.params.len() + ir::l_fn(f).insts.len() <= u32::MAX,
    ensures
        ssa(ir::l_fn(f)),
{
    let n = f.params.len() as int;
    let (s, ps) = ir::l_params(f.params, n);
    let (s1, tail) = ir::l_block(f.body, s);
    lemma_params(f.params, n);
    lemma_params_tidy(f.params);
    lemma_tidy_block(f.body, s, ps);
    lemma_tidy_say(ps, s1, InstModel::Return(tail));
}

/// What comes of a function that is lowered and optimised does what the lowered one does.
pub proof fn law_lowered_code_keeps_behaviour(f: FnDeclModel, n: nat)
    requires
        f.params.len() + ir::l_fn(f).insts.len() <= u32::MAX,
    ensures
        behaviour(ir::settled(ir::l_fn(f), n)) == behaviour(ir::l_fn(f)),
{
    law_lowered_code_is_ssa(f);
    law_optimising_keeps_behaviour(ir::l_fn(f), n);
}

} // verus!
