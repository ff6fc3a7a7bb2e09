//! How calls bind what they hand over: arguments and captured values, by register and by name.

use crate::ast::{ExprKindModel, ExprModel, ParamModel};
use crate::bytecode;
use crate::bytecode::{ModuleModel, Opcode};
use crate::codegen;
use crate::codegen::{Cx, Gen};
use crate::emitted;
use crate::gc::heap::HeapModel;
use crate::gc::object::{GcHandle, ObjModel};
use crate::text;
use crate::verify;
use crate::vm::frame::FrameModel;
use crate::vm::step;
use crate::vm::step::{Effect, Trouble};
use crate::vm::value::ValueModel;
use vstd::prelude::*;

verus! {

/// A call of a function enters it with its arguments in the first registers, in order, and
/// nil in the others; the caller goes on behind the call.
pub proof fn law_calls_bind(m: ModuleModel, f: FrameModel, code: Seq<u8>, g: FrameModel, callee: FrameModel)
    requires
        step::called(m, f, code) == Effect::Enter(g, callee),
    ensures
        ({
            let n = code[f.pc + 4] as int;
            &&& callee.function_id == verify::word(code, f.pc + 2)
            &&& callee.pc == 0
            &&& callee.ret == Some(code[f.pc + 1])
            &&& callee.regs.len() == m.functions[callee.function_id as int].max_register
            &&& n <= callee.regs.len()
            &&& forall|j: int| 0 <= j < n ==> (#[trigger] callee.regs[j]) == f.regs[code[f.pc + 5 + j] as int]
            &&& forall|j: int| n <= j < callee.regs.len() ==> (#[trigger] callee.regs[j]) is Nil
            &&& g == f.to(f.pc + 5 + n)
        }),
{
    reveal(step::called);
}

/// A closure keeps the values of the registers that it lists, in order.
pub proof fn law_closures_keep(f: FrameModel, code: Seq<u8>, o: ObjModel)
    requires
        step::object_of(Opcode::ClosureMake, code, f.pc, f.regs) == Ok::<ObjModel, Trouble>(o),
    ensures
        o matches ObjModel::Closure(id, ups) && id == verify::word(code, f.pc + 2) && ups.len() == code[f.pc + 4] && forall|
            i: int,
        |
            0 <= i < ups.len() ==> (#[trigger] ups[i]) == f.regs[code[f.pc + 5 + i] as int],
{
    reveal(step::object_of);
}

/// A call of a closure enters its function with what it kept in the first registers and the
/// arguments behind that, and nil in the others.
pub proof fn law_closure_calls_bind(
    m: ModuleModel,
    f: FrameModel,
    code: Seq<u8>,
    heap: HeapModel,
    h: GcHandle,
    id: u16,
    ups: Seq<ValueModel>,
    g: FrameModel,
    callee: FrameModel,
)
    requires
        step::closure_called(m, f, code, heap) == Effect::Enter(g, callee),
        step::rd(f.regs, code[f.pc + 2]) == Ok::<ValueModel, Trouble>(ValueModel::Closure(h)),
        heap.at(h) == Some(ObjModel::Closure(id, ups)),
    ensures
        ({
            let n = code[f.pc + 3] as int;
            let k = ups.len() as int;
            &&& callee.function_id == id
            &&& callee.pc == 0
            &&& callee.ret == Some(code[f.pc + 1])
            &&& callee.regs.len() == m.functions[id as int].max_register
            &&& k + n <= callee.regs.len()
            &&& forall|i: int| 0 <= i < k ==> (#[trigger] callee.regs[i]) == ups[i]
            &&& forall|j: int| 0 <= j < n ==> callee.regs[k + j] == f.regs[(#[trigger] code[f.pc + 4 + j]) as int]
            &&& forall|i: int| k + n <= i < callee.regs.len() ==> (#[trigger] callee.regs[i]) is Nil
            &&& g == f.to(f.pc + 4 + n)
        }),
{
    reveal(step::closure_called);
}

// --- by name ----------------------------------------------------------------------------

proof fn lemma_names(ns: Seq<Seq<char>>, k: int, b: Gen)
    requires
        0 <= k <= ns.len(),
        b.next == 0,
        b.env.len() == 0,
        codegen::bind_names(ns, k, b).next <= 255,
    ensures
        codegen::bind_names(ns, k, b).next == k,
        codegen::bind_names(ns, k, b).env == Seq::new(k as nat, |i: int| (ns[i], i as u8)),
    decreases k,
{
    let t = codegen::bind_names(ns, k, b);
    if k > 0 {
        lemma_names(ns, k - 1, b);
    }
    assert(t.env =~= Seq::new(k as nat, |i: int| (ns[i], i as u8)));
}

proof fn lemma_more_params(ps: Seq<ParamModel>, k: int, b: Gen)
    requires
        0 <= k <= ps.len(),
        codegen::bind_params(ps, k, b).next <= 255,
    ensures
        codegen::bind_params(ps, k, b).next == b.next + k,
        codegen::bind_params(ps, k, b).env == b.env + Seq::new(k as nat, |i: int| (ps[i].name, (b.next + i) as u8)),
    decreases k,
{
    let t = codegen::bind_params(ps, k, b);
    if k > 0 {
        lemma_more_params(ps, k - 1, b);
    }
    assert(t.env =~= b.env + Seq::new(k as nat, |i: int| (ps[i].name, (b.next + i) as u8)));
}

/// The body of a closure starts with the captured names in the first registers and the
/// parameters behind them.
pub proof fn law_closure_registers(caps: Seq<Seq<char>>, ps: Seq<ParamModel>, s: Gen)
    requires
        codegen::closure_start(caps, ps, s).next <= 255,
    ensures
        ({
            let env = codegen::closure_start(caps, ps, s).env;
            &&& env.len() == caps.len() + ps.len()
            &&& codegen::closure_start(caps, ps, s).next == caps.len() + ps.len()
            &&& forall|i: int| 0 <= i < caps.len() ==> (#[trigger] env[i]) == (caps[i], i as u8)
            &&& forall|j: int| 0 <= j < ps.len() ==> (#[trigger] env[caps.len() + j]) == (ps[j].name, (caps.len() + j) as u8)
        }),
{
    let b = codegen::blank(s.consts, s.fns);
    let c = codegen::bind_names(caps, caps.len() as int, b);
    lemma_next(ps, ps.len() as int, c);
    lemma_names(caps, caps.len() as int, b);
    lemma_more_params(ps, ps.len() as int, c);
}

proof fn lemma_next(ps: Seq<ParamModel>, k: int, b: Gen)
    ensures
        codegen::bind_params(ps, k, b).next >= b.next,
    decreases k,
{
    if k > 0 {
        lemma_next(ps, k - 1, b);
    }
}

proof fn lemma_last_bound(env: Seq<(Seq<char>, u8)>, n: Seq<char>, i: int)
    requires
        0 <= i < env.len(),
        env[i].0 == n,
        forall|j: int| i < j < env.len() ==> (#[trigger] env[j]).0 != n,
    ensures
        codegen::bound_reg(env, n) == Some(env[i].1),
    decreases env.len(),
{
    if i < env.len() - 1 {
        assert(env[env.len() - 1] == env.last());
        let e = env.drop_last();
        assert forall|j: int| i < j < e.len() implies (#[trigger] e[j]).0 != n by {
            assert(e[j] == env[j]);
        }
        lemma_last_bound(e, n, i);
    }
}

proof fn lemma_captured(ns: Seq<Seq<char>>, k: int, env: Seq<(Seq<char>, u8)>)
    requires
        0 <= k <= ns.len(),
    ensures
        ({
            let (names, rs) = codegen::captured(ns, k, env);
            &&& names.len() == rs.len()
            &&& forall|i: int| 0 <= i < names.len() ==> codegen::bound_reg(env, #[trigger] names[i]) == Some(rs[i])
            &&& forall|i: int|
                0 <= i < names.len() ==> exists|j: int| 0 <= j < k && #[trigger] ns[j] == #[trigger] names[i]
            &&& forall|j: int|
                0 <= j < k && codegen::bound_reg(env, #[trigger] ns[j]) is Some ==> names.contains(ns[j])
        }),
    decreases k,
{
    if k > 0 {
        lemma_captured(ns, k - 1, env);
        let (before, _) = codegen::captured(ns, k - 1, env);
        let (names, rs) = codegen::captured(ns, k, env);
        assert forall|i: int| 0 <= i < names.len() implies exists|j: int| 0 <= j < k && #[trigger] ns[j] == #[trigger] names[i] by {
            if i < before.len() {
                assert(names[i] == before[i]);
                let j = choose|j: int| 0 <= j < k - 1 && #[trigger] ns[j] == before[i];
                assert(ns[j] == names[i]);
            } else {
                assert(ns[k - 1] == names[i]);
            }
        }
        assert forall|j: int| 0 <= j < k && codegen::bound_reg(env, #[trigger] ns[j]) is Some implies names.contains(ns[j]) by {
            if j < k - 1 {
                let i = choose|i: int| 0 <= i < before.len() && before[i] == ns[j];
                assert(names[i] == before[i]);
            } else {
                assert(names[names.len() - 1] == ns[j]);
            }
        }
    }
}

/// Whether one of the parameters from the `i`th on has a name.
pub open spec fn named_from(ps: Seq<ParamModel>, x: Seq<char>, i: int) -> bool {
    exists|k: int| i <= k < ps.len() && (#[trigger] ps[k]).name == x
}

/// Whether a name stands for a value: its register holds it.
pub open spec fn stands_for(env: Seq<(Seq<char>, u8)>, x: Seq<char>, regs: Seq<ValueModel>, v: ValueModel) -> bool {
    codegen::bound_reg(env, x) matches Some(r) && r < regs.len() && regs[r as int] == v
}

/// A closure call binds by name. `maker` runs `|ps| body`, compiled in the scope of `s`, and
/// the closure keeps `ups`; when it is called from `f`, in the scope that its body is compiled
/// in each parameter stands for its argument, and each name that the body took from around
/// the closure, and that is no parameter, stands for what the name stood for in `maker`.
pub proof fn law_closures_bind_by_name(
    body: ExprModel,
    ps: Seq<ParamModel>,
    s: Gen,
    maker: FrameModel,
    ups: Seq<ValueModel>,
    m: ModuleModel,
    f: FrameModel,
    code: Seq<u8>,
    heap: HeapModel,
    h: GcHandle,
    id: u16,
    g: FrameModel,
    callee: FrameModel,
)
    requires
        ({
            let ns = codegen::free_vars(body, ps);
            let (caps, rs) = codegen::captured(ns, ns.len() as int, s.env);
            &&& codegen::closure_start(caps, ps, s).next <= 255
            &&& ups.len() == rs.len()
            &&& forall|i: int| 0 <= i < ups.len() ==> (#[trigger] ups[i]) == maker.regs[rs[i] as int]
        }),
        step::closure_called(m, f, code, heap) == Effect::Enter(g, callee),
        step::rd(f.regs, code[f.pc + 2]) == Ok::<ValueModel, Trouble>(ValueModel::Closure(h)),
        heap.at(h) == Some(ObjModel::Closure(id, ups)),
        code[f.pc + 3] == ps.len(),
    ensures
        ({
            let ns = codegen::free_vars(body, ps);
            let (caps, rs) = codegen::captured(ns, ns.len() as int, s.env);
            let env = codegen::closure_start(caps, ps, s).env;
            &&& forall|j: int|
                #![trigger ps[j]]
                0 <= j < ps.len() && !named_from(ps, ps[j].name, j + 1) ==> stands_for(
                    env,
                    ps[j].name,
                    callee.regs,
                    f.regs[code[f.pc + 4 + j] as int],
                )
            &&& forall|x: Seq<char>|
                #![trigger ns.contains(x)]
                ns.contains(x) && codegen::bound_reg(s.env, x) is Some && !named_from(ps, x, 0) ==> stands_for(
                    env,
                    x,
                    callee.regs,
                    maker.regs[codegen::bound_reg(s.env, x)->0 as int],
                )
        }),
{
    let ns = codegen::free_vars(body, ps);
    let (caps, rs) = codegen::captured(ns, ns.len() as int, s.env);
    let env = codegen::closure_start(caps, ps, s).env;
    lemma_captured(ns, ns.len() as int, s.env);
    law_closure_registers(caps, ps, s);
    law_closure_calls_bind(m, f, code, heap, h, id, ups, g, callee);
    assert forall|j: int| #![trigger ps[j]] 0 <= j < ps.len() && !named_from(ps, ps[j].name, j + 1) implies stands_for(
        env,
        ps[j].name,
        callee.regs,
        f.regs[code[f.pc + 4 + j] as int],
    ) by {
        let at = caps.len() + j;
        assert(env[at] == (ps[j].name, at as u8));
        assert forall|i: int| at < i < env.len() implies (#[trigger] env[i]).0 != ps[j].name by {
            assert(env[caps.len() + (i - caps.len())] == (ps[i - caps.len()].name, i as u8));
        }
        lemma_last_bound(env, ps[j].name, at);
        assert(callee.regs[ups.len() + j] == f.regs[code[f.pc + 4 + j] as int]);
    }
    assert forall|x: Seq<char>|
        #![trigger ns.contains(x)]
        ns.contains(x) && codegen::bound_reg(s.env, x) is Some && !named_from(ps, x, 0) implies stands_for(
        env,
        x,
        callee.regs,
        maker.regs[codegen::bound_reg(s.env, x)->0 as int],
    ) by {
        let j = choose|j: int| 0 <= j < ns.len() && ns[j] == x;
        assert(caps.contains(ns[j]));
        let first = choose|i: int| 0 <= i < caps.len() && caps[i] == x;
        let i = last_of(caps, x, caps.len() as int);
        lemma_last_of(caps, x, caps.len() as int, first);
        assert(env[i] == (caps[i], i as u8));
        assert forall|k: int| i < k < env.len() implies (#[trigger] env[k]).0 != x by {
            if k < caps.len() {
                assert(env[k] == (caps[k], k as u8));
            } else {
                assert(env[caps.len() + (k - caps.len())] == (ps[k - caps.len()].name, k as u8));
            }
        }
        lemma_last_bound(env, x, i);
        assert(codegen::bound_reg(s.env, caps[i]) == Some(rs[i]));
        assert(callee.regs[i] == ups[i]);
    }
}

/// The last place of a name among the first `k`.
spec fn last_of(ns: Seq<Seq<char>>, x: Seq<char>, k: int) -> int
    decreases k,
{
    if k <= 0 {
        -1
    } else if ns[k - 1] == x {
        k - 1
    } else {
        last_of(ns, x, k - 1)
    }
}

proof fn lemma_last_of(ns: Seq<Seq<char>>, x: Seq<char>, k: int, i: int)
    requires
        0 <= i < k <= ns.len(),
        ns[i] == x,
    ensures
        0 <= last_of(ns, x, k) < k,
        ns[last_of(ns, x, k)] == x,
        forall|j: int| last_of(ns, x, k) < j < k ==> (#[trigger] ns[j]) != x,
    decreases k,
{
    if ns[k - 1] != x {
        lemma_last_of(ns, x, k - 1, i);
    }
}

/// A closure is compiled to one instruction that names the function of its body and lists the
/// registers of exactly those free names that are bound around it; the function is behind all
/// those that its body needed.
pub proof fn law_closures_are_made_of_their_body(e: ExprModel, s: Gen, cx: Cx, ps: Seq<ParamModel>, body: ExprModel)
    requires
        e.kind matches ExprKindModel::Closure(qs, b) && qs == ps && *b.it == body,
        cx.tops >= 0,
        ({
            let ns = codegen::free_vars(body, ps);
            let caps = codegen::captured(ns, ns.len() as int, s.env).0;
            &&& caps.len() <= 255
            &&& cx.tops + codegen::g_expr(body, codegen::closure_start(caps, ps, s), cx).0.fns.len() < 0x1_0000
        }),
    ensures
        ({
            let ns = codegen::free_vars(body, ps);
            let caps = codegen::captured(ns, ns.len() as int, s.env).0;
            let (t, r) = codegen::g_expr(body, codegen::closure_start(caps, ps, s), cx);
            let (u, q) = codegen::g_clos(e, s, cx);
            let at = s.code.len() as int;
            let id = verify::word(u.code, at + 2);
            &&& u.code.len() == at + 5 + caps.len()
            &&& u.code.take(at) == s.code
            &&& u.code[at] == bytecode::byte_of(Opcode::ClosureMake)
            &&& u.code[at + 1] == q
            &&& u.code[at + 4] == caps.len()
            &&& forall|i: int| 0 <= i < caps.len() ==> codegen::bound_reg(s.env, #[trigger] caps[i]) == Some(u.code[at + 5 + i])
            &&& forall|n: Seq<char>|
                #[trigger] caps.contains(n) <==> ns.contains(n) && codegen::bound_reg(s.env, n) is Some
            &&& u.fns.len() == t.fns.len() + 1
            &&& id == cx.tops + t.fns.len()
            &&& u.fns.take(t.fns.len() as int) == t.fns
            &&& u.fns[id - cx.tops].code.len() == t.code.len() + 2
            &&& u.fns[id - cx.tops].code.take(t.code.len() as int) == t.code
            &&& u.fns[id - cx.tops].code[t.code.len() as int] == bytecode::byte_of(Opcode::ReturnVal)
            &&& u.fns[id - cx.tops].code[t.code.len() + 1 as int] == r
        }),
{
    reveal(codegen::g_clos);
    let ns = codegen::free_vars(body, ps);
    let (caps, rs) = codegen::captured(ns, ns.len() as int, s.env);
    let (t, r) = codegen::g_expr(body, codegen::closure_start(caps, ps, s), cx);
    let (u, q) = codegen::g_clos(e, s, cx);
    let at = s.code.len() as int;
    let v = (cx.tops + t.fns.len()) % 0x1_0000;
    lemma_captured(ns, ns.len() as int, s.env);
    let name = "__closure_"@ + text::dec(((cx.tops + s.fns.len()) % 0x1_0000) as nat);
    let f = codegen::closure_fn(name, caps.len() + ps.len(), t, r, body.span, cx);
    let w = Gen { consts: t.consts, fns: t.fns.push(f), ..s };
    let head = w.taken().op(Opcode::ClosureMake, e.span, cx).byte(w.reg()).word(v);
    emitted::lemma_list(head, rs);
    let ins = seq![bytecode::byte_of(Opcode::ClosureMake), w.reg(), codegen::lo8(v), codegen::hi8(v), (rs.len() % 256) as u8];
    assert(u == head.list(rs));
    assert(u.code =~= s.code + ins + rs);
    assert(u.code[at] == ins[0]);
    assert(u.code[at + 1] == ins[1]);
    assert(u.code[at + 2] == ins[2]);
    assert(u.code[at + 3] == ins[3]);
    assert(u.code[at + 4] == ins[4]);
    assert(u.code.take(at) =~= s.code);
    emitted::lemma_word(u.code, at + 2, v);
    assert(u.fns == t.fns.push(f));
    assert(u.fns.take(t.fns.len() as int) =~= t.fns);
    assert(f.code =~= t.code + seq![bytecode::byte_of(Opcode::ReturnVal), r]);
    assert(f.code.take(t.code.len() as int) =~= t.code);
    assert forall|i: int| 0 <= i < caps.len() implies codegen::bound_reg(s.env, #[trigger] caps[i]) == Some(u.code[at + 5 + i]) by {
        assert(u.code[at + 5 + i] == rs[i]);
    }
    assert forall|n: Seq<char>| #[trigger] caps.contains(n) <==> ns.contains(n) && codegen::bound_reg(s.env, n) is Some by {
        if caps.contains(n) {
            let i = choose|i: int| 0 <= i < caps.len() && caps[i] == n;
            let j = choose|j: int| 0 <= j < ns.len() && #[trigger] ns[j] == caps[i];
            assert(ns[j] == n);
        }
        if ns.contains(n) && codegen::bound_reg(s.env, n) is Some {
            let j = choose|j: int| 0 <= j < ns.len() && ns[j] == n;
            assert(caps.contains(ns[j]));
        }
    }
}

} // verus!
