//! What is compiled does what the program means: running the code of a function on the
//! machine comes to what the evaluator of the tree says.

use crate::ast::{BlockModel, DeclModel, ExprKindModel, ExprModel, FnDeclModel, ParamModel, StmtKindModel, StmtModel};
use crate::binding;
use crate::bytecode;
use crate::bytecode::{ConstModel, FunctionModel, ModuleModel, Opcode};
use crate::codegen;
use crate::codegen::{Cx, Gen};
use crate::emitted;
use crate::emitted::{after, kept};
use crate::ffi::BindingModel;
use crate::gc::heap::HeapModel;
use crate::gc::object;
use crate::gc::object::ObjModel;
use crate::meaning;
use crate::running;
use crate::running::{Ends, Names, Program, World};
use crate::source::Span;
use crate::typeck;
use crate::verify;
use crate::vm::frame;
use crate::vm::frame::FrameModel;
use crate::vm::step;
use crate::vm::step::{Effect, MachineModel, StopModel, Trouble};
use crate::vm::value::ValueModel;
use vstd::prelude::*;

verus! {

// --- steps --------------------------------------------------------------------------

/// A module, the functions of the host, what the module was compiled by, and the program.
pub struct Rig<F> {
    pub m: ModuleModel,
    pub table: Seq<BindingModel<F>>,
    pub cx: Cx,
    pub p: Program,
}

/// The machine `n` steps later; `None` where it has stopped by then.
pub open spec fn steps<F>(g: Rig<F>, s: MachineModel, n: nat) -> Option<MachineModel>
    decreases n,
{
    if n == 0 {
        Some(s)
    } else {
        match step::step(g.m, g.table, s) {
            (t, None) => steps(g, t, (n - 1) as nat),
            _ => None,
        }
    }
}

proof fn lemma_steps_then<F>(g: Rig<F>, s: MachineModel, t: MachineModel, a: nat, b: nat)
    requires
        steps(g, s, a) == Some(t),
    ensures
        steps(g, s, a + b) == steps(g, t, b),
    decreases a,
{
    if a > 0 {
        let u = step::step(g.m, g.table, s).0;
        lemma_steps_then(g, u, t, (a - 1) as nat, b);
        assert((a + b - 1) as nat == (a - 1) as nat + b);
    }
}

/// A run of at least as many steps is where those steps lead, and goes on from there.
proof fn lemma_ran<F>(g: Rig<F>, s: MachineModel, t: MachineModel, a: nat, b: nat)
    requires
        steps(g, s, a) == Some(t),
    ensures
        step::ran(g.m, g.table, s, a + b) == step::ran(g.m, g.table, t, b),
    decreases a,
{
    if a > 0 {
        let u = step::step(g.m, g.table, s).0;
        lemma_ran(g, u, t, (a - 1) as nat, b);
        assert((a + b - 1) as nat == (a - 1) as nat + b);
    }
}

/// A machine with one frame on top of others.
pub open spec fn on(rest: Seq<FrameModel>, f: FrameModel, heap: HeapModel) -> MachineModel {
    MachineModel { frames: rest.push(f), heap }
}

/// Whether the instruction at the place of a frame is `op`, and whole.
spec fn stands<F>(g: Rig<F>, f: FrameModel, op: Opcode) -> bool {
    let code = g.m.functions[f.function_id as int].code;
    &&& f.function_id < g.m.functions.len()
    &&& 0 <= f.pc < code.len()
    &&& code[f.pc] == bytecode::byte_of(op)
    &&& f.pc + bytecode::len_of(op, code, f.pc) <= code.len()
}

/// The code of the function of a frame.
spec fn code_of<F>(g: Rig<F>, f: FrameModel) -> Seq<u8> {
    g.m.functions[f.function_id as int].code
}

proof fn lemma_opcode(op: Opcode)
    ensures
        bytecode::op_of(bytecode::byte_of(op)) == Some(op),
{
    bytecode::law_opcode_bytes(op, bytecode::byte_of(op));
}

proof fn lemma_step<F>(g: Rig<F>, rest: Seq<FrameModel>, f: FrameModel, heap: HeapModel, op: Opcode)
    requires
        stands(g, f, op),
    ensures
        step::frame_step(g.m, g.table, rest, f, heap) == step::applied(
            step::effect(op, g.m, g.table, f, code_of(g, f), heap),
            rest,
            f.ret,
            heap,
        ),
        step::step(g.m, g.table, on(rest, f, heap)) == step::frame_step(g.m, g.table, rest, f, heap),
{
    lemma_opcode(op);
    assert(rest.push(f).drop_last() =~= rest);
}

/// One step that leaves the frame running.
proof fn lemma_go<F>(g: Rig<F>, rest: Seq<FrameModel>, f: FrameModel, heap: HeapModel, op: Opcode, f2: FrameModel, h2: HeapModel)
    requires
        stands(g, f, op),
        step::effect(op, g.m, g.table, f, code_of(g, f), heap) == Effect::Go(f2, h2),
    ensures
        steps(g, on(rest, f, heap), 1) == Some(on(rest, f2, h2)),
{
    lemma_step(g, rest, f, heap, op);
    assert(steps(g, on(rest, f2, h2), 0) == Some(on(rest, f2, h2)));
}

// --- cells and registers ---------------------------------------------------------------

/// Which register holds which cell.
pub type Links = Map<int, int>;

/// Whether registers below `next` hold what their cells hold, no two the same cell.
spec fn linked(l: Links, regs: Seq<ValueModel>, cells: Seq<ValueModel>, next: int) -> bool {
    &&& forall|r: int|
        #[trigger] l.dom().contains(r) ==> 0 <= r < next && r < regs.len() && 0 <= l[r] < cells.len() && regs[r] == cells[l[r]]
    &&& forall|r: int, q: int| l.dom().contains(r) && l.dom().contains(q) && #[trigger] l[r] == #[trigger] l[q] ==> r == q
}

/// Whether names have registers that hold their cells.
spec fn matched(env: Seq<(Seq<char>, u8)>, names: Names, l: Links) -> bool {
    &&& env.len() == names.len()
    &&& forall|i: int|
        #![trigger env[i]]
        #![trigger names[i]]
        0 <= i < env.len() ==> env[i].0 == names[i].0 && l.dom().contains(env[i].1 as int) && l[env[i].1 as int] == names[i].1
}

/// Whether links stay, and the new ones are of registers from `lo` on, below `hi`.
spec fn extends(a: Links, b: Links, lo: int, hi: int) -> bool {
    &&& forall|r: int| #[trigger] a.dom().contains(r) ==> b.dom().contains(r) && b[r] == a[r]
    &&& forall|r: int| #[trigger] b.dom().contains(r) ==> a.dom().contains(r) || lo <= r < hi
}

proof fn lemma_name(env: Seq<(Seq<char>, u8)>, names: Names, l: Links, n: Seq<char>)
    requires
        matched(env, names, l),
    ensures
        match running::cell_of(names, n) {
            Some(c) => codegen::bound_reg(env, n) matches Some(r) && l.dom().contains(r as int) && l[r as int] == c,
            None => codegen::bound_reg(env, n) is None,
        },
    decreases env.len(),
{
    if env.len() > 0 {
        assert(env[env.len() - 1] == env.last());
        assert(names[names.len() - 1] == names.last());
        if env.last().0 != n {
            let e = env.drop_last();
            let m = names.drop_last();
            assert forall|i: int| #![trigger e[i]] #![trigger m[i]] 0 <= i < e.len() implies e[i].0 == m[i].0
                && l.dom().contains(e[i].1 as int) && l[e[i].1 as int] == m[i].1 by {
                assert(env[i] == e[i]);
                assert(names[i] == m[i]);
            }
            lemma_name(e, m, l, n);
        }
    }
}

proof fn lemma_matched_on(env: Seq<(Seq<char>, u8)>, names: Names, a: Links, b: Links, lo: int, hi: int)
    requires
        matched(env, names, a),
        extends(a, b, lo, hi),
    ensures
        matched(env, names, b),
{
    assert forall|i: int| #![trigger env[i]] #![trigger names[i]] 0 <= i < env.len() implies env[i].0 == names[i].0
        && b.dom().contains(env[i].1 as int) && b[env[i].1 as int] == names[i].1 by {
        assert(a.dom().contains(env[i].1 as int));
    }
}

proof fn lemma_extends_then(a: Links, b: Links, c: Links, lo: int, mid: int, hi: int)
    requires
        extends(a, b, lo, mid),
        extends(b, c, mid, hi),
        lo <= mid <= hi,
    ensures
        extends(a, c, lo, hi),
{
    assert forall|r: int| #[trigger] a.dom().contains(r) implies c.dom().contains(r) && c[r] == a[r] by {
        assert(b.dom().contains(r));
    }
    assert forall|r: int| #[trigger] c.dom().contains(r) implies a.dom().contains(r) || lo <= r < hi by {
        if b.dom().contains(r) {
        }
    }
}

/// A new value in a new register and a new cell.
proof fn lemma_link_new(l: Links, regs: Seq<ValueModel>, cells: Seq<ValueModel>, lo: int, next: int, r: int, v: ValueModel)
    requires
        linked(l, regs, cells, next),
        !l.dom().contains(r),
        0 <= lo <= r < regs.len(),
    ensures
        linked(l.insert(r, cells.len() as int), regs.update(r, v), cells.push(v), if next > r { next } else { r + 1 }),
        extends(l, l.insert(r, cells.len() as int), lo, r + 1),
{
    let k = l.insert(r, cells.len() as int);
    let rs = regs.update(r, v);
    let cs = cells.push(v);
    let top = if next > r { next } else { r + 1 };
    assert forall|q: int| #[trigger] k.dom().contains(q) implies 0 <= q < top && q < rs.len() && 0 <= k[q] < cs.len()
        && rs[q] == cs[k[q]] by {
        if q != r {
            assert(l.dom().contains(q));
            assert(k[q] == l[q]);
        }
    }
    assert forall|a: int, b: int| k.dom().contains(a) && k.dom().contains(b) && #[trigger] k[a] == #[trigger] k[b] implies a
        == b by {
        if a != r && b != r {
            assert(k[a] == l[a] && k[b] == l[b]);
            assert(l.dom().contains(a) && l.dom().contains(b));
        } else if a != r {
            assert(k[a] == l[a] && l.dom().contains(a));
            assert(l[a] < cells.len());
        } else if b != r {
            assert(k[b] == l[b] && l.dom().contains(b));
            assert(l[b] < cells.len());
        }
    }
}

/// Another value in a register and its cell.
proof fn lemma_link_set(l: Links, regs: Seq<ValueModel>, cells: Seq<ValueModel>, next: int, r: int, v: ValueModel)
    requires
        linked(l, regs, cells, next),
        l.dom().contains(r),
    ensures
        linked(l, regs.update(r, v), cells.update(l[r], v), next),
{
    let rs = regs.update(r, v);
    let cs = cells.update(l[r], v);
    assert forall|q: int| #[trigger] l.dom().contains(q) implies 0 <= q < next && q < rs.len() && 0 <= l[q] < cs.len()
        && rs[q] == cs[l[q]] by {
        if q != r && l[q] == l[r] {
            assert(q == r);
        }
    }
}

/// Fewer links, and more registers.
proof fn lemma_link_less(a: Links, b: Links, regs: Seq<ValueModel>, cells: Seq<ValueModel>, lo: int, hi: int, next: int)
    requires
        linked(b, regs, cells, hi),
        extends(a, b, lo, hi),
        forall|r: int| #[trigger] a.dom().contains(r) ==> r < next,
    ensures
        linked(a, regs, cells, next),
{
    assert forall|r: int| #[trigger] a.dom().contains(r) implies 0 <= r < next && r < regs.len() && 0 <= a[r] < cells.len()
        && regs[r] == cells[a[r]] by {
        assert(b.dom().contains(r) && b[r] == a[r]);
    }
    assert forall|r: int, q: int| a.dom().contains(r) && a.dom().contains(q) && #[trigger] a[r] == #[trigger] a[q] implies r
        == q by {
        assert(b.dom().contains(r) && b[r] == a[r]);
        assert(b.dom().contains(q) && b[q] == a[q]);
    }
}

// --- code ---------------------------------------------------------------------------------

/// Whether two codes have the same bytes from `lo` on, below `hi`.
spec fn same(c: Seq<u8>, d: Seq<u8>, lo: int, hi: int) -> bool {
    &&& hi <= c.len()
    &&& hi <= d.len()
    &&& forall|i: int| #![trigger c[i]] #![trigger d[i]] lo <= i < hi ==> c[i] == d[i]
}

/// Whether a frame runs the code that was emitted between `s` and `t`, and stands at its start.
spec fn ready<F>(g: Rig<F>, f: FrameModel, s: Gen, t: Gen) -> bool {
    &&& f.function_id < g.m.functions.len()
    &&& f.pc == s.code.len()
    &&& after(s, t)
    &&& same(code_of(g, f), t.code, s.code.len() as int, t.code.len() as int)
    &&& code_of(g, f).len() <= 0x7FFF
    &&& kept(t.consts, g.m.constants)
    &&& g.m.constants.len() <= 0x1_0000
    &&& t.next <= f.regs.len() <= 255
}

proof fn lemma_start<F>(g: Rig<F>, f: FrameModel, s: Gen, m: Gen, t: Gen)
    requires
        ready(g, f, s, t),
        after(s, m),
        after(m, t),
    ensures
        ready(g, f, s, m),
{
    assert(m.code =~= t.code.take(m.code.len() as int));
    assert forall|i: int| #![trigger m.code[i]] #![trigger code_of(g, f)[i]] s.code.len() <= i < m.code.len() implies code_of(
        g,
        f,
    )[i] == m.code[i] by {
        assert(m.code[i] == t.code[i]);
    }
    assert forall|i: int| 0 <= i < m.consts.len() implies (#[trigger] g.m.constants[i]) == m.consts[i] by {
        assert(t.consts[i] == m.consts[i]);
    }
}

/// The same frame further on.
spec fn moved(f: FrameModel, f2: FrameModel) -> bool {
    f2.function_id == f.function_id && f2.ret == f.ret && f2.regs.len() == f.regs.len()
}

proof fn lemma_rest<F>(g: Rig<F>, f: FrameModel, f2: FrameModel, s: Gen, m: Gen, t: Gen)
    requires
        ready(g, f, s, t),
        after(s, m),
        after(m, t),
        moved(f, f2),
        f2.pc == m.code.len(),
    ensures
        ready(g, f2, m, t),
{
}

// --- outcomes ---------------------------------------------------------------------------------

/// Where the machine is when something has run: the frame, the links and the number of steps.
pub struct Led {
    pub f: FrameModel,
    pub l: Links,
    pub n: nat,
}

/// Whether the steps lead where a return hands `v` to the frame below.
spec fn leaves<F>(g: Rig<F>, rest: Seq<FrameModel>, f: FrameModel, heap: HeapModel, o: Led, h: HeapModel, v: ValueModel) -> bool {
    &&& steps(g, on(rest, f, heap), o.n) == Some(on(rest, o.f, h))
    &&& step::frame_step(g.m, g.table, rest, o.f, h) == step::left(rest, f.ret, v, h)
}

/// Whether the steps lead to the end of the code, with everything in place.
spec fn arrives<F>(
    g: Rig<F>,
    rest: Seq<FrameModel>,
    f: FrameModel,
    heap: HeapModel,
    l: Links,
    s: Gen,
    t: Gen,
    o: Led,
    w: World,
) -> bool {
    &&& steps(g, on(rest, f, heap), o.n) == Some(on(rest, o.f, w.heap))
    &&& moved(f, o.f)
    &&& o.f.pc == t.code.len()
    &&& extends(l, o.l, s.next as int, t.next as int)
    &&& linked(o.l, o.f.regs, w.cells, t.next as int)
}

/// Whether an expression comes to what it means: where it has a value, its register holds it.
spec fn comes<F>(
    g: Rig<F>,
    rest: Seq<FrameModel>,
    f: FrameModel,
    heap: HeapModel,
    l: Links,
    s: Gen,
    t: Gen,
    r: Option<u8>,
    o: Led,
    e: Ends<Option<int>>,
) -> bool {
    match e {
        Ends::Here(w, v) => {
            &&& arrives(g, rest, f, heap, l, s, t, o, w)
            &&& v matches Some(c) ==> (r matches Some(q) && o.l.dom().contains(q as int) && o.l[q as int] == c)
            &&& r matches Some(q) ==> q < t.next && (v is None ==> s.next <= q)
        },
        Ends::Back(h, v) => leaves(g, rest, f, heap, o, h, v),
        Ends::Lost => true,
    }
}

/// The first part has run, and the second from there.
proof fn lemma_arrives_then<F>(
    g: Rig<F>,
    rest: Seq<FrameModel>,
    f: FrameModel,
    heap: HeapModel,
    l: Links,
    s: Gen,
    m: Gen,
    t: Gen,
    a: Led,
    w: World,
    b: Led,
    x: World,
)
    requires
        arrives(g, rest, f, heap, l, s, m, a, w),
        arrives(g, rest, a.f, w.heap, a.l, m, t, b, x),
        s.next <= m.next <= t.next,
    ensures
        arrives(g, rest, f, heap, l, s, t, Led { n: a.n + b.n, ..b }, x),
{
    lemma_steps_then(g, on(rest, f, heap), on(rest, a.f, w.heap), a.n, b.n);
    lemma_extends_then(l, a.l, b.l, s.next as int, m.next as int, t.next as int);
}

proof fn lemma_leaves_then<F>(
    g: Rig<F>,
    rest: Seq<FrameModel>,
    f: FrameModel,
    heap: HeapModel,
    f2: FrameModel,
    n: nat,
    h2: HeapModel,
    b: Led,
    h: HeapModel,
    v: ValueModel,
)
    requires
        steps(g, on(rest, f, heap), n) == Some(on(rest, f2, h2)),
        f2.ret == f.ret,
        leaves(g, rest, f2, h2, b, h, v),
    ensures
        leaves(g, rest, f, heap, Led { n: n + b.n, ..b }, h, v),
{
    lemma_steps_then(g, on(rest, f, heap), on(rest, f2, h2), n, b.n);
}

proof fn lemma_comes_then<F>(
    g: Rig<F>,
    rest: Seq<FrameModel>,
    f: FrameModel,
    heap: HeapModel,
    l: Links,
    s: Gen,
    m: Gen,
    t: Gen,
    r: Option<u8>,
    a: Led,
    w: World,
    b: Led,
    e: Ends<Option<int>>,
) -> (o: Led)
    requires
        arrives(g, rest, f, heap, l, s, m, a, w),
        comes(g, rest, a.f, w.heap, a.l, m, t, r, b, e),
        s.next <= m.next <= t.next,
    ensures
        comes(g, rest, f, heap, l, s, t, r, o, e),
        o.l == b.l,
        o.f == b.f,
{
    match e {
        Ends::Here(x, v) => {
            lemma_arrives_then(g, rest, f, heap, l, s, m, t, a, w, b, x);
        },
        Ends::Back(h, v) => {
            lemma_leaves_then(g, rest, f, heap, a.f, a.n, w.heap, b, h, v);
        },
        Ends::Lost => {},
    }
    Led { n: a.n + b.n, ..b }
}

/// One more instruction that puts a value in the new register.
proof fn lemma_put<F>(
    g: Rig<F>,
    rest: Seq<FrameModel>,
    f: FrameModel,
    heap: HeapModel,
    l: Links,
    s: Gen,
    m: Gen,
    t: Gen,
    a: Led,
    w: World,
    op: Opcode,
    r: int,
    v: ValueModel,
    h: HeapModel,
) -> (o: Led)
    requires
        arrives(g, rest, f, heap, l, s, m, a, w),
        ready(g, a.f, m, t),
        stands(g, a.f, op),
        step::effect(op, g.m, g.table, a.f, code_of(g, a.f), w.heap) == Effect::Go(
            a.f.with(r, v).to(t.code.len() as int),
            h,
        ),
        r == m.next,
        t.next == m.next + 1,
        s.next <= m.next,
    ensures
        arrives(g, rest, f, heap, l, s, t, o, World { cells: w.cells.push(v), heap: h }),
        o.l.dom().contains(r),
        o.l[r] == w.cells.len(),
        extends(a.l, o.l, m.next as int, t.next as int),
{
    let f2 = a.f.with(r, v).to(t.code.len() as int);
    lemma_go(g, rest, a.f, w.heap, op, f2, h);
    lemma_steps_then(g, on(rest, f, heap), on(rest, a.f, w.heap), a.n, 1);
    if a.l.dom().contains(r) {
        assert(0 <= a.l[r]);
    }
    lemma_link_new(a.l, a.f.regs, w.cells, m.next as int, m.next as int, r, v);
    lemma_extends_then(l, a.l, a.l.insert(r, w.cells.len() as int), s.next as int, m.next as int, t.next as int);
    Led { f: f2, l: a.l.insert(r, w.cells.len() as int), n: a.n + 1 }
}

/// Nothing has run yet.
proof fn lemma_here<F>(g: Rig<F>, rest: Seq<FrameModel>, f: FrameModel, w: World, l: Links, s: Gen) -> (o: Led)
    requires
        f.pc == s.code.len(),
        linked(l, f.regs, w.cells, s.next as int),
    ensures
        arrives(g, rest, f, w.heap, l, s, s, o, w),
        o.l == l,
        o.f == f,
{
    Led { f, l, n: 0 }
}

// --- single instructions -------------------------------------------------------------------

/// The bytes of an instruction that was emitted are where the frame stands.
proof fn lemma_ins<F>(g: Rig<F>, f: FrameModel, m: Gen, t: Gen, ins: Seq<u8>)
    requires
        ready(g, f, m, t),
        t.code == m.code + ins,
    ensures
        forall|i: int| 0 <= i < ins.len() ==> code_of(g, f)[f.pc + i] == #[trigger] ins[i],
        f.pc + ins.len() <= code_of(g, f).len(),
        t.code.len() == f.pc + ins.len(),
{
    assert forall|i: int| 0 <= i < ins.len() implies code_of(g, f)[f.pc + i] == #[trigger] ins[i] by {
        assert(t.code[f.pc + i] == ins[i]);
    }
}

/// Whether an opcode only computes a value for its first register.
spec fn computes(op: Opcode) -> bool {
    match op {
        Opcode::ConstNil | Opcode::ConstTrue | Opcode::ConstFalse | Opcode::ConstInt | Opcode::ConstFloat | Opcode::ConstStr
        | Opcode::Move | Opcode::Add | Opcode::Sub | Opcode::Mul | Opcode::Div | Opcode::Mod | Opcode::Neg | Opcode::Eq
        | Opcode::Ne | Opcode::Lt | Opcode::Le | Opcode::Gt | Opcode::Ge | Opcode::Not | Opcode::And | Opcode::Or
        | Opcode::ArrayGet | Opcode::MapGet | Opcode::StructGet => true,
        _ => false,
    }
}

/// An instruction that computes a value for the new register.
proof fn lemma_compute<F>(
    g: Rig<F>,
    rest: Seq<FrameModel>,
    f: FrameModel,
    heap: HeapModel,
    l: Links,
    s: Gen,
    m: Gen,
    t: Gen,
    a: Led,
    w: World,
    op: Opcode,
    ins: Seq<u8>,
    v: ValueModel,
) -> (o: Led)
    requires
        arrives(g, rest, f, heap, l, s, m, a, w),
        ready(g, a.f, m, t),
        t.code == m.code + ins,
        computes(op),
        ins.len() >= 2,
        ins[0] == bytecode::byte_of(op),
        ins[1] == m.reg(),
        bytecode::len_of(op, code_of(g, a.f), a.f.pc) == ins.len(),
        t.next == m.next + 1,
        s.next <= m.next,
        step::value_of(op, code_of(g, a.f), a.f.pc, a.f.regs, g.m.constants, w.heap) == Ok::<ValueModel, Trouble>(v),
    ensures
        comes(
            g,
            rest,
            f,
            heap,
            l,
            s,
            t,
            Some(m.reg()),
            o,
            Ends::Here(World { cells: w.cells.push(v), heap: w.heap }, Some(w.cells.len() as int)),
        ),
{
    lemma_ins(g, a.f, m, t, ins);
    assert(ins[0] == code_of(g, a.f)[a.f.pc + 0]);
    assert(ins[1] == code_of(g, a.f)[a.f.pc + 1]);
    lemma_put(g, rest, f, heap, l, s, m, t, a, w, op, m.next as int, v, w.heap)
}

/// Nil in a new register.
proof fn lemma_nil<F>(g: Rig<F>, rest: Seq<FrameModel>, f: FrameModel, heap: HeapModel, l: Links, s: Gen, m: Gen, t: Gen, a: Led, w: World) -> (o: Led)
    requires
        arrives(g, rest, f, heap, l, s, m, a, w),
        ready(g, a.f, m, t),
        t.code == m.code + seq![bytecode::byte_of(Opcode::ConstNil), m.reg()],
        t.next == m.next + 1,
        s.next <= m.next,
    ensures
        comes(g, rest, f, heap, l, s, t, Some(m.reg()), o, running::fresh(w, ValueModel::Nil)),
{
    reveal(step::value_of);
    lemma_compute(
        g,
        rest,
        f,
        heap,
        l,
        s,
        m,
        t,
        a,
        w,
        Opcode::ConstNil,
        seq![bytecode::byte_of(Opcode::ConstNil), m.reg()],
        ValueModel::Nil,
    )
}

/// A constant of the pool.
proof fn lemma_pooled<F>(
    g: Rig<F>,
    rest: Seq<FrameModel>,
    f: FrameModel,
    l: Links,
    s: Gen,
    t: Gen,
    a: Led,
    w: World,
    op: Opcode,
    c: ConstModel,
    v: ValueModel,
) -> (o: Led)
    requires
        arrives(g, rest, f, w.heap, l, s, s, a, w),
        ready(g, a.f, s, t),
        op == Opcode::ConstInt || op == Opcode::ConstFloat || op == Opcode::ConstStr,
        step::loaded(op, c) == Ok::<ValueModel, Trouble>(v),
        t.consts == bytecode::with_const(s.consts, c),
        t.next == s.next + 1,
        ({
            let k = bytecode::interned(s.consts, c) % 0x1_0000;
            t.code == s.code + seq![bytecode::byte_of(op), s.reg(), codegen::lo8(k), codegen::hi8(k)]
        }),
    ensures
        comes(g, rest, f, w.heap, l, s, t, Some(s.reg()), o, running::fresh(w, v)),
{
    bytecode::law_interning(s.consts, c);
    let i = bytecode::interned(s.consts, c);
    let k = i % 0x1_0000;
    assert(t.consts[i] == c);
    assert(g.m.constants[i] == t.consts[i]);
    assert(k == i);
    let ins = seq![bytecode::byte_of(op), s.reg(), codegen::lo8(k), codegen::hi8(k)];
    lemma_ins(g, a.f, s, t, ins);
    let code = code_of(g, a.f);
    assert(code[a.f.pc + 2] == ins[2]);
    assert(code[a.f.pc + 3] == ins[3]);
    emitted::lemma_word(code, a.f.pc + 2, k);
    reveal(step::value_of);
    lemma_compute(g, rest, f, w.heap, l, s, s, t, a, w, op, ins, v)
}

/// A literal.
proof fn lemma_lit<F>(g: Rig<F>, rest: Seq<FrameModel>, f: FrameModel, w: World, l: Links, e: ExprModel, s: Gen) -> (o: Led)
    requires
        e.kind is Lit,
        ready(g, f, s, codegen::g_expr(e, s, g.cx).0),
        linked(l, f.regs, w.cells, s.next as int),
    ensures
        comes(
            g,
            rest,
            f,
            w.heap,
            l,
            s,
            codegen::g_expr(e, s, g.cx).0,
            Some(codegen::g_expr(e, s, g.cx).1),
            o,
            running::fresh(w, running::literal(e.kind->Lit_0, e.ty)),
        ),
{
    reveal(codegen::g_expr);
    reveal(step::value_of);
    let a = lemma_here(g, rest, f, w, l, s);
    let x = typeck::literal_value(e.kind->Lit_0, e.ty);
    let t = codegen::g_lit(x, e.span, s, g.cx).0;
    let v = meaning::lit_value(x);
    assert(v == running::literal(e.kind->Lit_0, e.ty));
    match x {
        crate::ast::LitModel::Nil => {
            emitted::lemma_grow_nil(s, e.span, g.cx);
            lemma_nil(g, rest, f, w.heap, l, s, s, t, a, w)
        },
        crate::ast::LitModel::Bool(b) => {
            let op = if b {
                Opcode::ConstTrue
            } else {
                Opcode::ConstFalse
            };
            let ins = seq![bytecode::byte_of(op), s.reg()];
            assert(t.code =~= s.code + ins);
            lemma_compute(g, rest, f, w.heap, l, s, s, t, a, w, op, ins, v)
        },
        crate::ast::LitModel::Int(i) => {
            emitted::lemma_grow_pooled(s, Opcode::ConstInt, ConstModel::Int(i), e.span, g.cx);
            lemma_pooled(g, rest, f, l, s, t, a, w, Opcode::ConstInt, ConstModel::Int(i), v)
        },
        crate::ast::LitModel::Float(b) => {
            emitted::lemma_grow_pooled(s, Opcode::ConstFloat, ConstModel::Float(b), e.span, g.cx);
            lemma_pooled(g, rest, f, l, s, t, a, w, Opcode::ConstFloat, ConstModel::Float(b), v)
        },
        crate::ast::LitModel::Str(q) => {
            emitted::lemma_grow_pooled(s, Opcode::ConstStr, ConstModel::Str(q), e.span, g.cx);
            lemma_pooled(g, rest, f, l, s, t, a, w, Opcode::ConstStr, ConstModel::Str(q), v)
        },
    }
}

/// An instruction with one operand in a register.
proof fn lemma_one<F>(
    g: Rig<F>,
    rest: Seq<FrameModel>,
    f: FrameModel,
    heap: HeapModel,
    l: Links,
    s: Gen,
    m: Gen,
    t: Gen,
    a: Led,
    w: World,
    op: Opcode,
    x: u8,
    c: int,
    v: ValueModel,
) -> (o: Led)
    requires
        arrives(g, rest, f, heap, l, s, m, a, w),
        ready(g, a.f, m, t),
        op == Opcode::Neg || op == Opcode::Not,
        t.code == m.code + seq![bytecode::byte_of(op), m.reg(), x],
        t.next == m.next + 1,
        s.next <= m.next,
        a.l.dom().contains(x as int),
        a.l[x as int] == c,
        step::unary(op, w.heap, w.cells[c]) == Ok::<ValueModel, Trouble>(v),
    ensures
        comes(g, rest, f, heap, l, s, t, Some(m.reg()), o, running::fresh(w, v)),
{
    let ins = seq![bytecode::byte_of(op), m.reg(), x];
    lemma_ins(g, a.f, m, t, ins);
    assert(code_of(g, a.f)[a.f.pc + 2] == ins[2]);
    reveal(step::value_of);
    lemma_compute(g, rest, f, heap, l, s, m, t, a, w, op, ins, v)
}

/// Whether an opcode has two operands in registers.
spec fn two(op: Opcode) -> bool {
    computes(op) && !(op == Opcode::ConstNil || op == Opcode::ConstTrue || op == Opcode::ConstFalse || op
        == Opcode::ConstInt || op == Opcode::ConstFloat || op == Opcode::ConstStr || op == Opcode::Move || op == Opcode::Neg
        || op == Opcode::Not || op == Opcode::StructGet)
}

/// An instruction with two operands in registers.
proof fn lemma_two<F>(
    g: Rig<F>,
    rest: Seq<FrameModel>,
    f: FrameModel,
    heap: HeapModel,
    l: Links,
    s: Gen,
    m: Gen,
    t: Gen,
    a: Led,
    w: World,
    op: Opcode,
    x: u8,
    y: u8,
    v: ValueModel,
) -> (o: Led)
    requires
        arrives(g, rest, f, heap, l, s, m, a, w),
        ready(g, a.f, m, t),
        two(op),
        t.code == m.code + seq![bytecode::byte_of(op), m.reg(), x, y],
        t.next == m.next + 1,
        s.next <= m.next,
        a.l.dom().contains(x as int),
        a.l.dom().contains(y as int),
        step::binary(op, w.heap, w.cells[a.l[x as int]], w.cells[a.l[y as int]]) == Ok::<ValueModel, Trouble>(v),
    ensures
        comes(g, rest, f, heap, l, s, t, Some(m.reg()), o, running::fresh(w, v)),
{
    let ins = seq![bytecode::byte_of(op), m.reg(), x, y];
    lemma_ins(g, a.f, m, t, ins);
    assert(code_of(g, a.f)[a.f.pc + 2] == ins[2]);
    assert(code_of(g, a.f)[a.f.pc + 3] == ins[3]);
    reveal(step::value_of);
    lemma_compute(g, rest, f, heap, l, s, m, t, a, w, op, ins, v)
}

proof fn lemma_found(es: Seq<(Seq<char>, ValueModel)>, n: Seq<char>, i: int)
    requires
        0 <= i <= es.len(),
    ensures
        running::found(es.skip(i), n) == match step::entry_from(es, n, i) {
            Some(j) => es[j].1,
            None => ValueModel::Nil,
        },
    decreases es.len() - i,
{
    if i < es.len() {
        lemma_found(es, n, i + 1);
        assert(es.skip(i).skip(1) =~= es.skip(i + 1));
        assert(es.skip(i)[0] == es[i]);
    }
}

proof fn lemma_entry(es: Seq<(Seq<char>, ValueModel)>, n: Seq<char>)
    ensures
        step::entry(es, n) == running::found(es, n),
{
    lemma_found(es, n, 0);
    assert(es.skip(0) =~= es);
}

/// The field of a struct.
#[verifier::spinoff_prover]
#[verifier::rlimit(60)]
proof fn lemma_field<F>(
    g: Rig<F>,
    rest: Seq<FrameModel>,
    f: FrameModel,
    heap: HeapModel,
    l: Links,
    s: Gen,
    m: Gen,
    t: Gen,
    a: Led,
    w: World,
    x: u8,
    n: Seq<char>,
    v: ValueModel,
) -> (o: Led)
    requires
        arrives(g, rest, f, heap, l, s, m, a, w),
        ready(g, a.f, m, t),
        t.consts == bytecode::with_const(m.consts, ConstModel::Str(n)),
        ({
            let k = bytecode::interned(m.consts, ConstModel::Str(n)) % 0x1_0000;
            t.code == m.code + seq![bytecode::byte_of(Opcode::StructGet), m.reg(), x, codegen::lo8(k), codegen::hi8(k)]
        }),
        t.next == m.next + 1,
        s.next <= m.next,
        a.l.dom().contains(x as int),
        running::field_of(w.cells[a.l[x as int]], n, w.heap) == Some(v),
    ensures
        comes(g, rest, f, heap, l, s, t, Some(m.reg()), o, running::fresh(w, v)),
{
    let c = ConstModel::Str(n);
    bytecode::law_interning(m.consts, c);
    let i = bytecode::interned(m.consts, c);
    let k = i % 0x1_0000;
    assert(t.consts[i] == c);
    assert(g.m.constants[i] == t.consts[i]);
    let ins = seq![bytecode::byte_of(Opcode::StructGet), m.reg(), x, codegen::lo8(k), codegen::hi8(k)];
    lemma_ins(g, a.f, m, t, ins);
    let code = code_of(g, a.f);
    assert(code[a.f.pc + 2] == ins[2]);
    assert(code[a.f.pc + 3] == ins[3]);
    assert(code[a.f.pc + 4] == ins[4]);
    emitted::lemma_word(code, a.f.pc + 3, k);
    if let ValueModel::Struct(h) = w.cells[a.l[x as int]] {
        if let Some(ObjModel::Struct(es)) = w.heap.at(h) {
            lemma_entry(es, n);
        }
    }
    reveal(step::value_of);
    lemma_compute(g, rest, f, heap, l, s, m, t, a, w, Opcode::StructGet, ins, v)
}

/// What an index means is what its instruction gives.
proof fn lemma_picked(ty: crate::ast::TypeModel, x: ValueModel, i: ValueModel, heap: HeapModel, v: ValueModel)
    requires
        running::picked(ty, x, i, heap) == Some(v),
    ensures
        codegen::index_code(ty) matches Some(op) && two(op) && step::binary(op, heap, x, i) == Ok::<ValueModel, Trouble>(v),
{
    if let ValueModel::Dict(h) = x {
        if let Some(ObjModel::Dict(es)) = heap.at(h) {
            if let ValueModel::Str(n) = i {
                lemma_entry(es, n);
            }
        }
    }
}

/// The values that a list of registers names.
proof fn lemma_gather<F>(g: Rig<F>, fr: FrameModel, l: Links, w: World, next: int, p: int, rs: Seq<u8>, cs: Seq<int>)
    requires
        linked(l, fr.regs, w.cells, next),
        rs.len() == cs.len(),
        forall|i: int| #![trigger rs[i]] 0 <= i < rs.len() ==> l.dom().contains(rs[i] as int) && l[rs[i] as int] == cs[i],
        forall|i: int| 0 <= i < rs.len() ==> code_of(g, fr)[p + i] == #[trigger] rs[i],
    ensures
        step::gather(fr.regs, code_of(g, fr), p, rs.len() as int) == Ok::<Seq<ValueModel>, Trouble>(running::values(w, cs)),
{
    let code = code_of(g, fr);
    assert forall|i: int| p <= i < p + rs.len() implies (#[trigger] code[i]) < fr.regs.len() by {
        assert(code[p + (i - p)] == rs[i - p]);
        assert(l.dom().contains(rs[i - p] as int));
    }
    let vs = Seq::new(rs.len(), |i: int| fr.regs[code[p + i] as int]);
    assert forall|i: int| 0 <= i < rs.len() implies vs[i] == running::values(w, cs)[i] by {
        assert(code[p + i] == rs[i]);
        assert(l.dom().contains(rs[i] as int));
    }
    assert(vs =~= running::values(w, cs));
}

/// A new array.
proof fn lemma_array<F>(
    g: Rig<F>,
    rest: Seq<FrameModel>,
    f: FrameModel,
    heap: HeapModel,
    l: Links,
    s: Gen,
    m: Gen,
    t: Gen,
    a: Led,
    w: World,
    rs: Seq<u8>,
    cs: Seq<int>,
) -> (o: Led)
    requires
        arrives(g, rest, f, heap, l, s, m, a, w),
        ready(g, a.f, m, t),
        t.code == m.code + (seq![bytecode::byte_of(Opcode::ArrayNew), m.reg(), (rs.len() % 256) as u8] + rs),
        t.next == m.next + 1,
        s.next <= m.next,
        rs.len() == cs.len() <= 255,
        forall|i: int| #![trigger rs[i]] 0 <= i < rs.len() ==> a.l.dom().contains(rs[i] as int) && a.l[rs[i] as int] == cs[i],
        w.heap.young.has_room(),
    ensures
        comes(
            g,
            rest,
            f,
            heap,
            l,
            s,
            t,
            Some(m.reg()),
            o,
            running::fresh(
                World { heap: w.heap.with(ObjModel::Array(running::values(w, cs))), ..w },
                ValueModel::Array(w.heap.next()),
            ),
        ),
{
    let head = seq![bytecode::byte_of(Opcode::ArrayNew), m.reg(), (rs.len() % 256) as u8];
    let ins = head + rs;
    lemma_ins(g, a.f, m, t, ins);
    let code = code_of(g, a.f);
    assert(code[a.f.pc + 0] == ins[0]);
    assert(code[a.f.pc + 1] == ins[1]);
    assert(code[a.f.pc + 2] == ins[2]);
    assert forall|i: int| 0 <= i < rs.len() implies code[a.f.pc + 3 + i] == #[trigger] rs[i] by {
        assert(ins[3 + i] == rs[i]);
        assert(code[a.f.pc + (3 + i)] == ins[3 + i]);
    }
    lemma_gather(g, a.f, a.l, w, m.next as int, a.f.pc + 3, rs, cs);
    reveal(step::object_of);
    let v = ValueModel::Array(w.heap.next());
    let h = w.heap.with(ObjModel::Array(running::values(w, cs)));
    lemma_put(g, rest, f, heap, l, s, m, t, a, w, Opcode::ArrayNew, m.next as int, v, h)
}

// --- jumps --------------------------------------------------------------------------------

/// The distance of a jump that was patched to lead to the end.
proof fn lemma_patched(t: Gen, at: int)
    requires
        0 <= at,
        at + 2 <= t.code.len() <= 0x7FFF,
    ensures
        t.patch(at).code.len() == t.code.len(),
        verify::offset(t.patch(at).code, at) == t.code.len() - (at + 2),
        forall|i: int| 0 <= i < t.code.len() && i != at && i != at + 1 ==> (#[trigger] t.patch(at).code[i]) == t.code[i],
{
    let off = (t.code.len() - (at + 2)) % 0x1_0000;
    emitted::lemma_word(t.patch(at).code, at, off);
}

/// A jump forward or back.
proof fn lemma_jump<F>(
    g: Rig<F>,
    rest: Seq<FrameModel>,
    f: FrameModel,
    heap: HeapModel,
    l: Links,
    s: Gen,
    m: Gen,
    t: Gen,
    a: Led,
    w: World,
) -> (o: Led)
    requires
        arrives(g, rest, f, heap, l, s, m, a, w),
        a.f.function_id < g.m.functions.len(),
        m.code.len() + 3 <= code_of(g, a.f).len() <= 0x7FFF,
        code_of(g, a.f)[m.code.len() as int] == bytecode::byte_of(Opcode::Jmp),
        verify::offset(code_of(g, a.f), m.code.len() + 1 as int) == t.code.len() - (m.code.len() + 3),
        t.code.len() <= 0x7FFF,
        m.next <= t.next,
    ensures
        arrives(g, rest, f, heap, l, s, t, o, w),
        o.l == a.l,
{
    let f2 = a.f.to(t.code.len() as int);
    lemma_go(g, rest, a.f, w.heap, Opcode::Jmp, f2, w.heap);
    lemma_steps_then(g, on(rest, f, heap), on(rest, a.f, w.heap), a.n, 1);
    lemma_link_less(a.l, a.l, a.f.regs, w.cells, 0, m.next as int, t.next as int);
    Led { f: f2, l: a.l, n: a.n + 1 }
}

/// The conditional jump of an `if` or a `while`: not taken on true, taken on false.
proof fn lemma_unless<F>(
    g: Rig<F>,
    rest: Seq<FrameModel>,
    f: FrameModel,
    heap: HeapModel,
    l: Links,
    s: Gen,
    m: Gen,
    t: Gen,
    a: Led,
    w: World,
    r: u8,
    b: bool,
) -> (o: Led)
    requires
        arrives(g, rest, f, heap, l, s, m, a, w),
        a.f.function_id < g.m.functions.len(),
        m.code.len() + 4 <= code_of(g, a.f).len() <= 0x7FFF,
        code_of(g, a.f)[m.code.len() as int] == bytecode::byte_of(Opcode::JmpIfFalse),
        code_of(g, a.f)[m.code.len() + 1 as int] == r,
        a.l.dom().contains(r as int),
        w.cells[a.l[r as int]] == ValueModel::Bool(b),
        b ==> t.code.len() == m.code.len() + 4,
        !b ==> verify::offset(code_of(g, a.f), m.code.len() + 2 as int) == t.code.len() - (m.code.len() + 4),
        t.code.len() <= 0x7FFF,
        m.next <= t.next,
    ensures
        arrives(g, rest, f, heap, l, s, t, o, w),
        o.l == a.l,
{
    let f2 = a.f.to(t.code.len() as int);
    assert(a.f.regs[r as int] == ValueModel::Bool(b));
    lemma_go(g, rest, a.f, w.heap, Opcode::JmpIfFalse, f2, w.heap);
    lemma_steps_then(g, on(rest, f, heap), on(rest, a.f, w.heap), a.n, 1);
    lemma_link_less(a.l, a.l, a.f.regs, w.cells, 0, m.next as int, t.next as int);
    Led { f: f2, l: a.l, n: a.n + 1 }
}

/// A register that no cell is linked to gets another value.
proof fn lemma_link_other(l: Links, regs: Seq<ValueModel>, cells: Seq<ValueModel>, next: int, r: int, v: ValueModel)
    requires
        linked(l, regs, cells, next),
        !l.dom().contains(r),
        0 <= r < regs.len(),
    ensures
        linked(l, regs.update(r, v), cells, next),
{
    let rs = regs.update(r, v);
    assert forall|q: int| #[trigger] l.dom().contains(q) implies 0 <= q < next && q < rs.len() && 0 <= l[q] < cells.len()
        && rs[q] == cells[l[q]] by {
        assert(q != r);
    }
}

/// An instruction that writes to a register that no cell is linked to.
proof fn lemma_overwrite<F>(
    g: Rig<F>,
    rest: Seq<FrameModel>,
    f: FrameModel,
    heap: HeapModel,
    l: Links,
    s0: Gen,
    s: Gen,
    m: Gen,
    t: Gen,
    a: Led,
    w: World,
    op: Opcode,
    ins: Seq<u8>,
    d: u8,
    v: ValueModel,
    links: bool,
) -> (o: Led)
    requires
        arrives(g, rest, f, heap, l, s, m, a, w),
        ready(g, a.f, m, t),
        t.code == m.code + ins,
        op == Opcode::Move || op == Opcode::ConstNil,
        ins.len() == bytecode::len_of(op, code_of(g, a.f), a.f.pc),
        ins[0] == bytecode::byte_of(op),
        ins[1] == d,
        step::value_of(op, code_of(g, a.f), a.f.pc, a.f.regs, g.m.constants, w.heap) == Ok::<ValueModel, Trouble>(v),
        t.next == m.next,
        d == s0.next,
        s.next == s0.next + 1,
        s.next <= m.next,
        forall|r: int| #[trigger] l.dom().contains(r) ==> r < s0.next,
    ensures
        links ==> arrives(g, rest, f, heap, l, s0, t, o, World { cells: w.cells.push(v), ..w }) && o.l.dom().contains(d as int)
            && o.l[d as int] == w.cells.len(),
        !links ==> arrives(g, rest, f, heap, l, s0, t, o, w),
{
    lemma_ins(g, a.f, m, t, ins);
    assert(ins[0] == code_of(g, a.f)[a.f.pc + 0]);
    assert(ins[1] == code_of(g, a.f)[a.f.pc + 1]);
    let f2 = a.f.with(d as int, v).to(t.code.len() as int);
    lemma_go(g, rest, a.f, w.heap, op, f2, w.heap);
    lemma_steps_then(g, on(rest, f, heap), on(rest, a.f, w.heap), a.n, 1);
    assert(!a.l.dom().contains(d as int));
    if links {
        lemma_link_new(a.l, a.f.regs, w.cells, s0.next as int, m.next as int, d as int, v);
        let k = a.l.insert(d as int, w.cells.len() as int);
        assert(extends(l, k, s0.next as int, t.next as int)) by {
            assert forall|r: int| #[trigger] l.dom().contains(r) implies k.dom().contains(r) && k[r] == l[r] by {
                assert(a.l.dom().contains(r));
            }
            assert forall|r: int| #[trigger] k.dom().contains(r) implies l.dom().contains(r) || s0.next <= r < t.next by {
                if r != d {
                    assert(a.l.dom().contains(r));
                }
            }
        }
        Led { f: f2, l: k, n: a.n + 1 }
    } else {
        lemma_link_other(a.l, a.f.regs, w.cells, m.next as int, d as int, v);
        assert(extends(l, a.l, s0.next as int, t.next as int)) by {
            assert forall|r: int| #[trigger] a.l.dom().contains(r) implies l.dom().contains(r) || s0.next <= r < t.next by {}
        }
        Led { f: f2, l: a.l, n: a.n + 1 }
    }
}

/// The value of an arm goes to the register of the whole.
proof fn lemma_join<F>(
    g: Rig<F>,
    rest: Seq<FrameModel>,
    f: FrameModel,
    heap: HeapModel,
    l: Links,
    s0: Gen,
    s: Gen,
    m: Gen,
    a: Led,
    w: World,
    d: u8,
    tail: Option<u8>,
    v: Option<int>,
    span: crate::source::Span,
) -> (o: Led)
    requires
        comes(g, rest, f, heap, l, s, m, tail, a, Ends::Here(w, v)),
        ready(g, a.f, m, codegen::joined(m, Some(d), tail, span, g.cx)),
        d == s0.next,
        s.next == s0.next + 1,
        s.next <= m.next,
        forall|r: int| #[trigger] l.dom().contains(r) ==> r < s0.next,
    ensures
        comes(
            g,
            rest,
            f,
            heap,
            l,
            s0,
            codegen::joined(m, Some(d), tail, span, g.cx),
            Some(d),
            o,
            running::taken(Ends::Here(w, v)),
        ),
{
    let t = codegen::joined(m, Some(d), tail, span, g.cx);
    match tail {
        Some(x) => {
            assert(x != d) by {
                if v is Some {
                    assert(a.l.dom().contains(x as int));
                }
            }
            let ins = seq![bytecode::byte_of(Opcode::Move), d, x];
            assert(t.code =~= m.code + ins);
            lemma_ins(g, a.f, m, t, ins);
            assert(code_of(g, a.f)[a.f.pc + 2] == ins[2]);
            reveal(step::value_of);
            let y = a.f.regs[x as int];
            if let Some(c) = v {
                assert(y == w.cells[c]);
            }
            lemma_overwrite(g, rest, f, heap, l, s0, s, m, t, a, w, Opcode::Move, ins, d, y, v is Some)
        },
        None => {
            assert(extends(l, a.l, s0.next as int, t.next as int)) by {
                assert forall|r: int| #[trigger] a.l.dom().contains(r) implies l.dom().contains(r) || s0.next <= r < t.next by {}
            }
            a
        },
    }
}

// --- the code of an `if` -------------------------------------------------------------------

/// Where the parts of an `if` lie in the code.
spec fn laid<F>(
    g: Rig<F>,
    fid: u16,
    c: ExprModel,
    yes: BlockModel,
    no: Option<BlockModel>,
    out: Option<u8>,
    s1: Gen,
    r: u8,
) -> bool {
    let cx = g.cx;
    let code = g.m.functions[fid as int].code;
    let s2 = codegen::unless(s1, r, c.span, cx);
    let (s3, t) = codegen::g_block(yes, s2, cx);
    let j = codegen::joined(s3, out, t, yes.span, cx);
    let s4 = emitted::first_arm(c, yes, out, s1, r, cx);
    let fin = emitted::arms(c, yes, no, out, s1, r, cx);
    &&& s2.code.len() == s1.code.len() + 4
    &&& s2.next == s1.next
    &&& after(s2, s3)
    &&& after(s3, j)
    &&& j.next == s3.next
    &&& s4.code.len() == j.code.len() + 3
    &&& s4.next == j.next
    &&& s4.code.len() <= fin.code.len() <= code.len()
    &&& s4.next <= fin.next
    &&& code[s1.code.len() as int] == bytecode::byte_of(Opcode::JmpIfFalse)
    &&& code[s1.code.len() + 1 as int] == r
    &&& verify::offset(code, s1.code.len() + 2 as int) == s4.code.len() - s2.code.len()
    &&& same(code, s3.code, s2.code.len() as int, s3.code.len() as int)
    &&& same(code, j.code, s3.code.len() as int, j.code.len() as int)
    &&& code[j.code.len() as int] == bytecode::byte_of(Opcode::Jmp)
    &&& verify::offset(code, j.code.len() + 1 as int) == fin.code.len() - s4.code.len()
    &&& kept(s3.consts, g.m.constants)
    &&& kept(j.consts, g.m.constants)
    &&& match no {
        Some(b) => {
            let (s5, u) = codegen::g_block(b, s4, cx);
            let q = codegen::joined(s5, out, u, b.span, cx);
            &&& after(s4, s5)
            &&& after(s5, q)
            &&& q.next == s5.next
            &&& fin.next == q.next
            &&& fin.code.len() == q.code.len()
            &&& same(code, s5.code, s4.code.len() as int, s5.code.len() as int)
            &&& same(code, q.code, s5.code.len() as int, q.code.len() as int)
            &&& kept(s5.consts, g.m.constants)
            &&& kept(q.consts, g.m.constants)
        },
        None => {
            let q = codegen::no_else(s4, out, c.span, cx);
            &&& after(s4, q)
            &&& fin.next == q.next == s4.next
            &&& fin.code.len() == q.code.len()
            &&& same(code, q.code, s4.code.len() as int, q.code.len() as int)
            &&& kept(q.consts, g.m.constants)
        },
    }
}

proof fn lemma_after_bytes(s: Gen, t: Gen)
    requires
        after(s, t),
    ensures
        s.code.len() <= t.code.len(),
        forall|i: int| #![trigger t.code[i]] #![trigger s.code[i]] 0 <= i < s.code.len() ==> t.code[i] == s.code[i],
{
    assert forall|i: int| #![trigger t.code[i]] #![trigger s.code[i]] 0 <= i < s.code.len() implies t.code[i] == s.code[i] by {
        assert(t.code.take(s.code.len() as int)[i] == t.code[i]);
    }
}

proof fn lemma_kept_then(a: Seq<ConstModel>, b: Seq<ConstModel>, c: Seq<ConstModel>)
    requires
        kept(a, b),
        kept(b, c),
    ensures
        kept(a, c),
{
    assert forall|i: int| 0 <= i < a.len() implies (#[trigger] c[i]) == a[i] by {
        assert(b[i] == a[i]);
    }
}

#[verifier::spinoff_prover]
#[verifier::rlimit(60)]
proof fn lemma_laid<F>(
    g: Rig<F>,
    f: FrameModel,
    c: ExprModel,
    yes: BlockModel,
    no: Option<BlockModel>,
    out: Option<u8>,
    s1: Gen,
    r: u8,
)
    requires
        ready(g, f, s1, emitted::arms(c, yes, no, out, s1, r, g.cx)),
    ensures
        laid(g, f.function_id, c, yes, no, out, s1, r),
{
    let cx = g.cx;
    let code = code_of(g, f);
    let s2 = codegen::unless(s1, r, c.span, cx);
    emitted::lemma_grow_unless(s1, r, c.span, cx);
    emitted::lemma_grow_block(yes, s2, cx);
    let (s3, t) = codegen::g_block(yes, s2, cx);
    let j = codegen::joined(s3, out, t, yes.span, cx);
    emitted::lemma_grow_joined(s3, out, t, yes.span, cx);
    let k = emitted::jumped(j, yes.span, cx);
    emitted::lemma_grow_jumped(j, yes.span, cx);
    let at = s2.code.len() - 2;
    let s4 = emitted::first_arm(c, yes, out, s1, r, cx);
    assert(s4 == k.patch(at));
    let fin = emitted::arms(c, yes, no, out, s1, r, cx);
    lemma_after_bytes(s1, s2);
    lemma_after_bytes(s2, s3);
    lemma_after_bytes(s3, j);
    lemma_after_bytes(j, k);
    let back = s4.code.len() - 2;
    let q = match no {
        Some(b) => {
            emitted::lemma_grow_block(b, s4, cx);
            let (s5, u) = codegen::g_block(b, s4, cx);
            let q = codegen::joined(s5, out, u, b.span, cx);
            emitted::lemma_grow_joined(s5, out, u, b.span, cx);
            lemma_after_bytes(s4, s5);
            lemma_after_bytes(s5, q);
            emitted::lemma_after_trans(s4, s5, q);
            lemma_kept_then(s5.consts, q.consts, g.m.constants);
            q
        },
        None => {
            let q = codegen::no_else(s4, out, c.span, cx);
            emitted::lemma_grow_no_else(s4, out, c.span, cx);
            q
        },
    };
    lemma_after_bytes(s4, q);
    assert(fin == q.patch(back));
    assert(fin.code.len() == q.code.len());
    lemma_patched(k, at);
    lemma_patched(q, back);
    assert(s4.code.len() == k.code.len() == j.code.len() + 3);
    assert forall|i: int| 0 <= i < s4.code.len() - 2 implies fin.code[i] == #[trigger] s4.code[i] by {
        assert(fin.code[i] == q.code[i]);
    }
    assert(code[s1.code.len() as int] == fin.code[s1.code.len() as int]);
    assert(code[s1.code.len() + 1 as int] == fin.code[s1.code.len() + 1 as int]);
    assert(code[at] == fin.code[at] == s4.code[at]);
    assert(code[at + 1] == fin.code[at + 1] == s4.code[at + 1]);
    assert(s4.code[s1.code.len() as int] == k.code[s1.code.len() as int]);
    assert(s4.code[s1.code.len() + 1 as int] == k.code[s1.code.len() + 1 as int]);
    assert(s2.code[s1.code.len() as int] == bytecode::byte_of(Opcode::JmpIfFalse));
    assert(s2.code[s1.code.len() + 1 as int] == r);
    assert(verify::offset(code, at) == verify::offset(s4.code, at));
    assert(code[back] == fin.code[back]);
    assert(code[back + 1] == fin.code[back + 1]);
    assert(verify::offset(code, back) == verify::offset(fin.code, back));
    assert(code[j.code.len() as int] == fin.code[j.code.len() as int]);
    assert(k.code[j.code.len() as int] == bytecode::byte_of(Opcode::Jmp));
    assert(s4.code[j.code.len() as int] == k.code[j.code.len() as int]);
    assert(same(code, j.code, s2.code.len() as int, j.code.len() as int)) by {
        assert forall|i: int| #![trigger code[i]] #![trigger j.code[i]] s2.code.len() <= i < j.code.len() implies code[i]
            == j.code[i] by {
            assert(code[i] == fin.code[i]);
            assert(fin.code[i] == s4.code[i]);
            assert(s4.code[i] == k.code[i]);
            assert(k.code[i] == j.code[i]);
        }
    }
    assert(same(code, s3.code, s2.code.len() as int, s3.code.len() as int)) by {
        assert forall|i: int| #![trigger code[i]] #![trigger s3.code[i]] s2.code.len() <= i < s3.code.len() implies code[i]
            == s3.code[i] by {
            assert(j.code[i] == s3.code[i]);
        }
    }
    assert(same(code, q.code, s4.code.len() as int, q.code.len() as int)) by {
        assert forall|i: int| #![trigger code[i]] #![trigger q.code[i]] s4.code.len() <= i < q.code.len() implies code[i]
            == q.code[i] by {
            assert(code[i] == fin.code[i]);
        }
    }
    lemma_kept_then(s4.consts, q.consts, g.m.constants);
    lemma_kept_then(s3.consts, j.consts, g.m.constants);
    if let Some(b) = no {
        let (s5, u) = codegen::g_block(b, s4, cx);
        assert(same(code, s5.code, s4.code.len() as int, s5.code.len() as int)) by {
            assert forall|i: int| #![trigger code[i]] #![trigger s5.code[i]] s4.code.len() <= i < s5.code.len() implies code[i]
                == s5.code[i] by {
                assert(q.code[i] == s5.code[i]);
            }
        }
    }
}

// --- functions ----------------------------------------------------------------------------

/// Whether a function of the program stands in the module as compiled, and can be addressed.
pub open spec fn stands_in<F>(g: Rig<F>, n: Seq<char>, consts: Seq<ConstModel>, fns: Seq<FunctionModel>) -> bool {
    let (f, c, _) = codegen::g_fn(g.p[n], consts, fns, g.cx);
    &&& g.cx.index.dom().contains(n)
    &&& g.cx.index[n] < g.m.functions.len()
    &&& g.m.functions[g.cx.index[n] as int] == f
    &&& kept(c, g.m.constants)
    &&& f.code.len() <= 0x7FFF
    &&& emitted::registers(g.p[n], consts, fns, g.cx) <= 255
    &&& emitted::narrow_block(g.p[n].body)
}

/// Whether the functions of the program stand in the module.
pub open spec fn fits<F>(g: Rig<F>) -> bool {
    &&& g.m.constants.len() <= 0x1_0000
    &&& forall|n: Seq<char>|
        #[trigger] g.p.dom().contains(n) ==> exists|consts: Seq<ConstModel>, fns: Seq<FunctionModel>| stands_in(g, n, consts, fns)
}

/// Parameters are bound to the first registers.
proof fn lemma_params(ps: Seq<ParamModel>, k: int, b: Gen)
    requires
        0 <= k <= ps.len(),
        b.next == 0,
        b.env.len() == 0,
        codegen::bind_params(ps, k, b).next <= 255,
    ensures
        codegen::bind_params(ps, k, b).next == k,
        codegen::bind_params(ps, k, b).env == Seq::new(k as nat, |i: int| (ps[i].name, i as u8)),
        codegen::bind_params(ps, k, b).code == b.code,
    decreases k,
{
    let t = codegen::bind_params(ps, k, b);
    if k > 0 {
        lemma_params(ps, k - 1, b);
        let u = codegen::bind_params(ps, k - 1, b);
        assert(u.next == k - 1);
    }
    assert(t.env =~= Seq::new(k as nat, |i: int| (ps[i].name, i as u8)));
}

/// The links of a function that is entered: each argument in its register.
spec fn first_links(n: int) -> Links {
    Map::new(|r: int| 0 <= r < n, |r: int| r)
}

proof fn lemma_first_links(args: Seq<ValueModel>, regs: Seq<ValueModel>, n: int)
    requires
        args.len() == n <= regs.len(),
        forall|i: int| 0 <= i < n ==> regs[i] == args[i],
    ensures
        linked(first_links(n), regs, args, n),
{
    let l = first_links(n);
    assert forall|r: int| #[trigger] l.dom().contains(r) implies 0 <= r < n && r < regs.len() && 0 <= l[r] < args.len()
        && regs[r] == args[l[r]] by {}
}

/// The gen state at the start of the body of a function.
spec fn entry_gen(f: FnDeclModel, consts: Seq<ConstModel>, fns: Seq<FunctionModel>) -> Gen {
    codegen::bind_params(f.params, f.params.len() as int, codegen::blank(consts, fns))
}

/// The frame that enters a function is ready to run its body.
proof fn lemma_enter<F>(
    g: Rig<F>,
    n: Seq<char>,
    consts: Seq<ConstModel>,
    fns: Seq<FunctionModel>,
    args: Seq<ValueModel>,
    ret: Option<u8>,
)
    requires
        fits(g),
        stands_in(g, n, consts, fns),
        args.len() == g.p[n].params.len(),
    ensures
        ({
            let d = g.p[n];
            let id = g.cx.index[n];
            let fr = frame::entry_frame(id, g.m.functions[id as int].max_register as int, args, ret);
            let s = entry_gen(d, consts, fns);
            let t = codegen::g_block(d.body, s, g.cx).0;
            let l = first_links(args.len() as int);
            &&& args.len() <= g.m.functions[id as int].max_register
            &&& ready(g, fr, s, t)
            &&& linked(l, fr.regs, args, s.next as int)
            &&& matched(s.env, running::first_cells(d.params), l)
        }),
{
    let d = g.p[n];
    let id = g.cx.index[n];
    let fr = frame::entry_frame(id, g.m.functions[id as int].max_register as int, args, ret);
    let s = entry_gen(d, consts, fns);
    let (t, r) = codegen::g_block(d.body, s, g.cx);
    let k = d.params.len() as int;
    emitted::lemma_grow_block(d.body, s, g.cx);
    lemma_params(d.params, k, codegen::blank(consts, fns));
    let u = codegen::g_return(r, codegen::tail_span(d.body), t, g.cx);
    emitted::lemma_grow_return(r, codegen::tail_span(d.body), t, g.cx);
    lemma_after_bytes(t, u);
    assert(g.m.functions[id as int].code == u.code);
    assert(u.next == t.next);
    assert(g.m.functions[id as int].max_register == t.next);
    lemma_kept_then(t.consts, u.consts, g.m.constants);
    lemma_first_links(args, fr.regs, k);
    let l = first_links(k);
    let names = running::first_cells(d.params);
    assert forall|i: int| #![trigger s.env[i]] #![trigger names[i]] 0 <= i < s.env.len() implies s.env[i].0 == names[i].0
        && l.dom().contains(s.env[i].1 as int) && l[s.env[i].1 as int] == names[i].1 by {}
}

/// What a body came to is handed back.
proof fn lemma_hand_back<F>(
    g: Rig<F>,
    n: Seq<char>,
    consts: Seq<ConstModel>,
    fns: Seq<FunctionModel>,
    rest: Seq<FrameModel>,
    fr: FrameModel,
    heap: HeapModel,
    l: Links,
    o: Led,
    e: Ends<Option<int>>,
    h: HeapModel,
    v: ValueModel,
) -> (x: Led)
    requires
        stands_in(g, n, consts, fns),
        fr.function_id == g.cx.index[n],
        fr.regs.len() <= 255,
        ({
            let s = entry_gen(g.p[n], consts, fns);
            let (t, r) = codegen::g_block(g.p[n].body, s, g.cx);
            comes(g, rest, fr, heap, l, s, t, r, o, e) && t.next <= fr.regs.len()
        }),
        running::result_of(g.p[n].body, e) == Some((h, v)),
    ensures
        leaves(g, rest, fr, heap, x, h, v),
{
    reveal(codegen::g_block);
    let d = g.p[n];
    let s = entry_gen(d, consts, fns);
    let (t, r) = codegen::g_block(d.body, s, g.cx);
    let u = codegen::g_return(r, codegen::tail_span(d.body), t, g.cx);
    match e {
        Ends::Here(w, c) => {
            assert(g.m.functions[fr.function_id as int].code == u.code);
            match r {
                Some(q) => {
                    let ins = seq![bytecode::byte_of(Opcode::ReturnVal), q];
                    assert(u.code =~= t.code + ins);
                    assert(u.code[t.code.len() as int] == ins[0]);
                    assert(u.code[t.code.len() + 1 as int] == ins[1]);
                    assert(d.body.tail is Some);
                    assert(o.l.dom().contains(q as int));
                    lemma_step(g, rest, o.f, h, Opcode::ReturnVal);
                },
                None => {
                    let ins = seq![bytecode::byte_of(Opcode::ReturnNil)];
                    assert(u.code =~= t.code + ins);
                    assert(u.code[t.code.len() as int] == ins[0]);
                    assert(d.body.tail is None);
                    lemma_step(g, rest, o.f, h, Opcode::ReturnNil);
                },
            }
        },
        _ => {},
    }
    o
}

/// The call instruction enters the callee.
proof fn lemma_call_enters<F>(
    g: Rig<F>,
    rest: Seq<FrameModel>,
    fr: FrameModel,
    w: World,
    l: Links,
    m: Gen,
    t: Gen,
    id: u16,
    rs: Seq<u8>,
    cs: Seq<int>,
)
    requires
        ready(g, fr, m, t),
        linked(l, fr.regs, w.cells, m.next as int),
        t.code == m.code + (seq![
            bytecode::byte_of(Opcode::Call),
            m.reg(),
            codegen::lo8(id as int),
            codegen::hi8(id as int),
            (rs.len() % 256) as u8,
        ] + rs),
        rs.len() == cs.len() <= 255,
        forall|i: int| #![trigger rs[i]] 0 <= i < rs.len() ==> l.dom().contains(rs[i] as int) && l[rs[i] as int] == cs[i],
        id < g.m.functions.len(),
        rs.len() <= g.m.functions[id as int].max_register,
    ensures
        steps(g, on(rest, fr, w.heap), 1) == Some(
            on(
                rest.push(fr.to(t.code.len() as int)),
                frame::entry_frame(
                    id,
                    g.m.functions[id as int].max_register as int,
                    running::values(w, cs),
                    Some(m.reg()),
                ),
                w.heap,
            ),
        ),
{
    let head = seq![
        bytecode::byte_of(Opcode::Call),
        m.reg(),
        codegen::lo8(id as int),
        codegen::hi8(id as int),
        (rs.len() % 256) as u8,
    ];
    let ins = head + rs;
    lemma_ins(g, fr, m, t, ins);
    let code = code_of(g, fr);
    assert(code[fr.pc + 0] == ins[0]);
    assert(code[fr.pc + 1] == ins[1]);
    assert(code[fr.pc + 2] == ins[2]);
    assert(code[fr.pc + 3] == ins[3]);
    assert(code[fr.pc + 4] == ins[4]);
    emitted::lemma_word(code, fr.pc + 2, id as int);
    assert forall|i: int| 0 <= i < rs.len() implies code[fr.pc + 5 + i] == #[trigger] rs[i] by {
        assert(ins[5 + i] == rs[i]);
        assert(code[fr.pc + (5 + i)] == ins[5 + i]);
    }
    lemma_gather(g, fr, l, w, m.next as int, fr.pc + 5, rs, cs);
    reveal(step::called);
    lemma_step(g, rest, fr, w.heap, Opcode::Call);
    let callee = frame::entry_frame(
        id,
        g.m.functions[id as int].max_register as int,
        running::values(w, cs),
        Some(m.reg()),
    );
    let to = on(rest.push(fr.to(t.code.len() as int)), callee, w.heap);
    assert(steps(g, to, 0) == Some(to));
    assert(step::step(g.m, g.table, on(rest, fr, w.heap)) == (to, None::<StopModel>));
}

/// A call: the callee has run, and its result is in the new register.
proof fn lemma_call_returns<F>(
    g: Rig<F>,
    rest: Seq<FrameModel>,
    f: FrameModel,
    heap: HeapModel,
    l: Links,
    s: Gen,
    m: Gen,
    t: Gen,
    a: Led,
    w: World,
    callee: FrameModel,
    x: Led,
    h: HeapModel,
    v: ValueModel,
) -> (o: Led)
    requires
        arrives(g, rest, f, heap, l, s, m, a, w),
        ready(g, a.f, m, t),
        t.next == m.next + 1,
        s.next <= m.next,
        steps(g, on(rest, a.f, w.heap), 1) == Some(on(rest.push(a.f.to(t.code.len() as int)), callee, w.heap)),
        callee.ret == Some(m.reg()),
        leaves(g, rest.push(a.f.to(t.code.len() as int)), callee, w.heap, x, h, v),
    ensures
        comes(g, rest, f, heap, l, s, t, Some(m.reg()), o, running::fresh(World { heap: h, ..w }, v)),
{
    let below = rest.push(a.f.to(t.code.len() as int));
    let r = m.next as int;
    let f2 = a.f.to(t.code.len() as int).with(r, v);
    let end = on(rest, f2, h);
    lemma_steps_then(g, on(rest, f, heap), on(rest, a.f, w.heap), a.n, 1);
    lemma_steps_then(g, on(rest, f, heap), on(below, callee, w.heap), a.n + 1, x.n);
    assert(below.drop_last() =~= rest);
    assert(below.last() == a.f.to(t.code.len() as int));
    assert(below.push(x.f).drop_last() =~= below);
    assert(step::step(g.m, g.table, on(below, x.f, h)) == (end, None::<StopModel>));
    assert(steps(g, end, 0) == Some(end));
    assert(steps(g, on(below, x.f, h), 1) == Some(end));
    lemma_steps_then(g, on(rest, f, heap), on(below, x.f, h), a.n + 1 + x.n, 1);
    if a.l.dom().contains(r) {
        assert(0 <= a.l[r]);
    }
    lemma_link_new(a.l, a.f.regs, w.cells, m.next as int, m.next as int, r, v);
    lemma_extends_then(l, a.l, a.l.insert(r, w.cells.len() as int), s.next as int, m.next as int, t.next as int);
    Led { f: f2, l: a.l.insert(r, w.cells.len() as int), n: a.n + 1 + x.n + 1 }
}

proof fn lemma_put_entry(es: Seq<(Seq<char>, ValueModel)>, n: Seq<char>, v: ValueModel, i: int)
    requires
        0 <= i <= es.len(),
    ensures
        running::put(es.skip(i), n, v) == match step::entry_from(es, n, i) {
            Some(j) => es.update(j, (es[j].0, v)).skip(i),
            None => es.skip(i).push((n, v)),
        },
        step::entry_from(es, n, i) matches Some(j) ==> i <= j < es.len() && es[j].0 == n,
    decreases es.len() - i,
{
    let rest = es.skip(i);
    if i < es.len() {
        lemma_put_entry(es, n, v, i + 1);
        assert(rest.skip(1) =~= es.skip(i + 1));
        assert(rest[0] == es[i]);
        if es[i].0 == n {
            assert(seq![(n, v)] + rest.skip(1) =~= es.update(i, (es[i].0, v)).skip(i));
        } else {
            match step::entry_from(es, n, i + 1) {
                Some(j) => {
                    assert(seq![es[i]] + es.update(j, (es[j].0, v)).skip(i + 1) =~= es.update(j, (es[j].0, v)).skip(i));
                },
                None => {
                    assert(seq![es[i]] + es.skip(i + 1).push((n, v)) =~= rest.push((n, v)));
                },
            }
        }
    } else {
        assert(seq![(n, v)] =~= rest.push((n, v)));
    }
}

proof fn lemma_with_entry(es: Seq<(Seq<char>, ValueModel)>, n: Seq<char>, v: ValueModel)
    ensures
        step::with_entry(es, n, v) == running::put(es, n, v),
{
    lemma_put_entry(es, n, v, 0);
    assert(es.skip(0) =~= es);
    if let Some(j) = step::entry_from(es, n, 0) {
        assert(es.update(j, (es[j].0, v)).skip(0) =~= es.update(j, (es[j].0, v)));
    }
}

/// Another object in the place of the one just made.
proof fn lemma_made_again(heap: HeapModel, a: ObjModel, b: ObjModel, v: ValueModel)
    requires
        heap.wf(),
        heap.young.has_room(),
    ensures
        heap.with(a).at(heap.next()) == Some(a),
        step::stored(heap.with(a), heap.next(), b, v) == heap.with(b),
{
    let n = heap.young.next();
    let s = heap.young.with(a);
    assert(0 <= n < s.slots.len());
    assert(object::slot_of(heap.next()) == n);
    assert(s.replaced(n, b).slots =~= heap.young.with(b).slots);
}

/// Whether a register stands for a cell that holds a value.
spec fn field_at(l: Links, w: World, r: u8, v: ValueModel) -> bool {
    l.dom().contains(r as int) && w.cells[l[r as int]] == v
}

/// A store leaves the frame and its links as they are.
proof fn lemma_store<F>(
    g: Rig<F>,
    rest: Seq<FrameModel>,
    f: FrameModel,
    heap: HeapModel,
    l: Links,
    s: Gen,
    m: Gen,
    t: Gen,
    a: Led,
    w: World,
    op: Opcode,
    ins: Seq<u8>,
    h: HeapModel,
) -> (o: Led)
    requires
        arrives(g, rest, f, heap, l, s, m, a, w),
        ready(g, a.f, m, t),
        t.code == m.code + ins,
        op == Opcode::StructSet || op == Opcode::MapSet,
        ins.len() > 0,
        ins.len() == bytecode::len_of(op, code_of(g, a.f), a.f.pc),
        ins[0] == bytecode::byte_of(op),
        t.next == m.next,
        step::heap_after(op, code_of(g, a.f), a.f.pc, a.f.regs, g.m.constants, w.heap) == Ok::<HeapModel, Trouble>(h),
    ensures
        arrives(g, rest, f, heap, l, s, t, o, World { heap: h, ..w }),
        o.l == a.l,
{
    lemma_ins(g, a.f, m, t, ins);
    assert(code_of(g, a.f)[a.f.pc + 0] == ins[0]);
    let f2 = a.f.to(t.code.len() as int);
    lemma_go(g, rest, a.f, w.heap, op, f2, h);
    lemma_steps_then(g, on(rest, f, heap), on(rest, a.f, w.heap), a.n, 1);
    Led { f: f2, l: a.l, n: a.n + 1 }
}

/// A new struct or map with nothing in it yet.
proof fn lemma_bare<F>(
    g: Rig<F>,
    rest: Seq<FrameModel>,
    f: FrameModel,
    heap: HeapModel,
    l: Links,
    s: Gen,
    m: Gen,
    t: Gen,
    a: Led,
    w: World,
    op: Opcode,
) -> (o: Led)
    requires
        arrives(g, rest, f, heap, l, s, m, a, w),
        ready(g, a.f, m, t),
        op == Opcode::StructNew || op == Opcode::MapNew,
        t.code == m.code + seq![bytecode::byte_of(op), m.reg()],
        t.next == m.next + 1,
        s.next <= m.next,
        w.heap.young.has_room(),
    ensures
        ({
            let o0 = if op == Opcode::StructNew {
                ObjModel::Struct(Seq::empty())
            } else {
                ObjModel::Dict(Seq::empty())
            };
            arrives(
                g,
                rest,
                f,
                heap,
                l,
                s,
                t,
                o,
                World { cells: w.cells.push(step::value_for(op, w.heap.next())), heap: w.heap.with(o0) },
            )
        }),
        o.l.dom().contains(m.next as int),
        o.l[m.next as int] == w.cells.len(),
        extends(a.l, o.l, m.next as int, t.next as int),
{
    let ins = seq![bytecode::byte_of(op), m.reg()];
    lemma_ins(g, a.f, m, t, ins);
    let code = code_of(g, a.f);
    assert(code[a.f.pc + 0] == ins[0]);
    assert(code[a.f.pc + 1] == ins[1]);
    reveal(step::object_of);
    let v = step::value_for(op, w.heap.next());
    let h = w.heap.with(
        if op == Opcode::StructNew {
            ObjModel::Struct(Seq::empty())
        } else {
            ObjModel::Dict(Seq::empty())
        },
    );
    lemma_put(g, rest, f, heap, l, s, m, t, a, w, op, m.next as int, v, h)
}

/// The stores of the first `k` fields.
#[verifier::spinoff_prover]
#[verifier::rlimit(60)]
proof fn lemma_fields<F>(
    g: Rig<F>,
    rest: Seq<FrameModel>,
    f: FrameModel,
    heap: HeapModel,
    l: Links,
    s: Gen,
    m: Gen,
    a: Led,
    w: World,
    base: HeapModel,
    fs: Seq<(Seq<char>, ExprModel)>,
    rs: Seq<u8>,
    k: int,
    d: u8,
    span: Span,
    es: Seq<(Seq<char>, ValueModel)>,
) -> (o: Led)
    requires
        arrives(g, rest, f, heap, l, s, m, a, w),
        ready(g, a.f, m, codegen::put_fields(fs, rs, k, d, span, m, g.cx)),
        0 <= k <= es.len(),
        es.len() == fs.len() == rs.len(),
        forall|i: int| #![trigger rs[i]] 0 <= i < rs.len() ==> field_at(a.l, w, rs[i], es[i].1) && es[i].0 == fs[i].0,
        field_at(a.l, w, d, ValueModel::Struct(base.next())),
        base.wf(),
        base.young.has_room(),
        w.heap == base.with(ObjModel::Struct(Seq::empty())),
    ensures
        arrives(
            g,
            rest,
            f,
            heap,
            l,
            s,
            codegen::put_fields(fs, rs, k, d, span, m, g.cx),
            o,
            World { heap: base.with(ObjModel::Struct(running::put_all(es, k))), ..w },
        ),
        o.l == a.l,
    decreases k,
{
    let t = codegen::put_fields(fs, rs, k, d, span, m, g.cx);
    if k == 0 {
        a
    } else {
        let u = codegen::put_fields(fs, rs, k - 1, d, span, m, g.cx);
        emitted::lemma_grow_fields_put(fs, rs, k - 1, d, span, m, g.cx);
        let c = ConstModel::Str(fs[k - 1].0);
        let i = bytecode::interned(u.consts, c);
        let v = i % 0x1_0000;
        let ins = seq![bytecode::byte_of(Opcode::StructSet), d, codegen::lo8(v), codegen::hi8(v), rs[k - 1]];
        bytecode::law_interning(u.consts, c);
        assert(t.code =~= u.code + ins);
        emitted::lemma_after_plus(u, t, ins);
        lemma_start(g, a.f, m, u, t);
        let before = ObjModel::Struct(running::put_all(es, k - 1));
        let mid = base.with(before);
        let b = lemma_fields(g, rest, f, heap, l, s, m, a, w, base, fs, rs, k - 1, d, span, es);
        lemma_rest(g, a.f, b.f, m, u, t);
        lemma_ins(g, b.f, u, t, ins);
        let code = code_of(g, b.f);
        assert(code[b.f.pc + 1] == ins[1]);
        assert(code[b.f.pc + 2] == ins[2]);
        assert(code[b.f.pc + 3] == ins[3]);
        assert(code[b.f.pc + 4] == ins[4]);
        assert(t.consts[i] == c);
        assert(g.m.constants[i] == t.consts[i]);
        emitted::lemma_word(code, b.f.pc + 2, v);
        assert(field_at(a.l, w, rs[k - 1], es[k - 1].1));
        assert(b.f.regs[d as int] == ValueModel::Struct(base.next()));
        assert(b.f.regs[rs[k - 1] as int] == es[k - 1].1);
        lemma_with_entry(running::put_all(es, k - 1), es[k - 1].0, es[k - 1].1);
        lemma_made_again(base, before, ObjModel::Struct(running::put_all(es, k)), es[k - 1].1);
        reveal(step::heap_after);
        lemma_store(
            g,
            rest,
            f,
            heap,
            l,
            s,
            u,
            t,
            b,
            World { heap: mid, ..w },
            Opcode::StructSet,
            ins,
            base.with(ObjModel::Struct(running::put_all(es, k))),
        )
    }
}

/// The stores of the first `k` entries of a map.
#[verifier::spinoff_prover]
#[verifier::rlimit(60)]
proof fn lemma_entries<F>(
    g: Rig<F>,
    rest: Seq<FrameModel>,
    f: FrameModel,
    heap: HeapModel,
    l: Links,
    s: Gen,
    m: Gen,
    a: Led,
    w: World,
    base: HeapModel,
    rs: Seq<(u8, u8)>,
    k: int,
    d: u8,
    span: Span,
    es: Seq<(Seq<char>, ValueModel)>,
) -> (o: Led)
    requires
        arrives(g, rest, f, heap, l, s, m, a, w),
        ready(g, a.f, m, codegen::put_pairs(rs, k, d, span, m, g.cx)),
        0 <= k <= es.len(),
        es.len() == rs.len(),
        forall|i: int|
            #![trigger rs[i]]
            0 <= i < rs.len() ==> field_at(a.l, w, rs[i].0, ValueModel::Str(es[i].0)) && field_at(a.l, w, rs[i].1, es[i].1),
        field_at(a.l, w, d, ValueModel::Dict(base.next())),
        base.wf(),
        base.young.has_room(),
        w.heap == base.with(ObjModel::Dict(Seq::empty())),
    ensures
        arrives(
            g,
            rest,
            f,
            heap,
            l,
            s,
            codegen::put_pairs(rs, k, d, span, m, g.cx),
            o,
            World { heap: base.with(ObjModel::Dict(running::put_all(es, k))), ..w },
        ),
        o.l == a.l,
    decreases k,
{
    let t = codegen::put_pairs(rs, k, d, span, m, g.cx);
    if k == 0 {
        a
    } else {
        let u = codegen::put_pairs(rs, k - 1, d, span, m, g.cx);
        emitted::lemma_grow_pairs_put(rs, k - 1, d, span, m, g.cx);
        let ins = seq![bytecode::byte_of(Opcode::MapSet), d, rs[k - 1].0, rs[k - 1].1];
        assert(t.code =~= u.code + ins);
        emitted::lemma_after_plus(u, t, ins);
        lemma_start(g, a.f, m, u, t);
        let before = ObjModel::Dict(running::put_all(es, k - 1));
        let b = lemma_entries(g, rest, f, heap, l, s, m, a, w, base, rs, k - 1, d, span, es);
        lemma_rest(g, a.f, b.f, m, u, t);
        lemma_ins(g, b.f, u, t, ins);
        let code = code_of(g, b.f);
        assert(code[b.f.pc + 1] == ins[1]);
        assert(code[b.f.pc + 2] == ins[2]);
        assert(code[b.f.pc + 3] == ins[3]);
        let (p, q) = rs[k - 1];
        assert(field_at(a.l, w, p, ValueModel::Str(es[k - 1].0)));
        assert(field_at(a.l, w, q, es[k - 1].1));
        assert(b.f.regs[d as int] == ValueModel::Dict(base.next()));
        assert(b.f.regs[p as int] == ValueModel::Str(es[k - 1].0));
        assert(b.f.regs[q as int] == es[k - 1].1);
        lemma_with_entry(running::put_all(es, k - 1), es[k - 1].0, es[k - 1].1);
        lemma_made_again(base, before, ObjModel::Dict(running::put_all(es, k)), es[k - 1].1);
        reveal(step::heap_after);
        lemma_store(
            g,
            rest,
            f,
            heap,
            l,
            s,
            u,
            t,
            b,
            World { heap: base.with(before), ..w },
            Opcode::MapSet,
            ins,
            base.with(ObjModel::Dict(running::put_all(es, k))),
        )
    }
}

// --- the simulation -------------------------------------------------------------------------

/// Whether a frame is ready for code, in a world that its registers hold.
spec fn poised<F>(g: Rig<F>, f: FrameModel, w: World, l: Links, s: Gen, t: Gen, names: Names) -> bool {
    &&& fits(g)
    &&& ready(g, f, s, t)
    &&& linked(l, f.regs, w.cells, s.next as int)
    &&& matched(s.env, names, l)
}

/// After the first part, the frame is poised for the second.
proof fn lemma_poised<F>(
    g: Rig<F>,
    rest: Seq<FrameModel>,
    f: FrameModel,
    w: World,
    l: Links,
    s: Gen,
    m: Gen,
    t: Gen,
    names: Names,
    a: Led,
    x: World,
)
    requires
        poised(g, f, w, l, s, t, names),
        arrives(g, rest, f, w.heap, l, s, m, a, x),
        after(s, m),
        after(m, t),
        m.env == s.env,
    ensures
        poised(g, a.f, x, a.l, m, t, names),
{
    lemma_rest(g, f, a.f, s, m, t);
    lemma_matched_on(s.env, names, l, a.l, s.next as int, m.next as int);
}

proof fn lemma_poised_part<F>(g: Rig<F>, f: FrameModel, w: World, l: Links, s: Gen, m: Gen, t: Gen, names: Names)
    requires
        poised(g, f, w, l, s, t, names),
        after(s, m),
        after(m, t),
    ensures
        poised(g, f, w, l, s, m, names),
{
    lemma_start(g, f, s, m, t);
}

/// Whether expressions come to what they mean, each in its register.
spec fn all_come<F>(
    g: Rig<F>,
    rest: Seq<FrameModel>,
    f: FrameModel,
    heap: HeapModel,
    l: Links,
    s: Gen,
    t: Gen,
    rs: Seq<u8>,
    o: Led,
    e: Ends<Seq<int>>,
) -> bool {
    match e {
        Ends::Here(w, cs) => {
            &&& arrives(g, rest, f, heap, l, s, t, o, w)
            &&& rs.len() == cs.len()
            &&& forall|i: int| #![trigger rs[i]] 0 <= i < rs.len() ==> o.l.dom().contains(rs[i] as int) && o.l[rs[i] as int] == cs[i]
        },
        Ends::Back(h, v) => leaves(g, rest, f, heap, o, h, v),
        Ends::Lost => true,
    }
}

/// Whether statements come to what they mean, with the names in their registers.
spec fn go_on<F>(
    g: Rig<F>,
    rest: Seq<FrameModel>,
    f: FrameModel,
    heap: HeapModel,
    l: Links,
    s: Gen,
    t: Gen,
    o: Led,
    e: Ends<Names>,
) -> bool {
    match e {
        Ends::Here(w, names) => arrives(g, rest, f, heap, l, s, t, o, w) && matched(t.env, names, o.l),
        Ends::Back(h, v) => leaves(g, rest, f, heap, o, h, v),
        Ends::Lost => true,
    }
}

/// Whatever the value was, it is not looked at.
spec fn quiet(e: Ends<Option<int>>) -> Ends<Option<int>> {
    match e {
        Ends::Here(w, _) => Ends::Here(w, None),
        _ => e,
    }
}

#[verifier::spinoff_prover]
#[verifier::rlimit(60)]
proof fn sim_unary<F>(g: Rig<F>, rest: Seq<FrameModel>, f: FrameModel, w: World, l: Links, e: ExprModel, s: Gen, names: Names, fuel: nat) -> (o: Led)
    requires
        poised(g, f, w, l, s, codegen::g_expr(e, s, g.cx).0, names),
        emitted::narrow(e),
        e.kind is Unary || e.kind is Field,
    ensures
        comes(g, rest, f, w.heap, l, s, codegen::g_expr(e, s, g.cx).0, Some(codegen::g_expr(e, s, g.cx).1), o, running::x_expr(e, names, w, g.p, fuel)),
    decreases fuel, e, 0int,
{
    reveal(codegen::g_expr);
    reveal(running::x_expr);
    let t = codegen::g_expr(e, s, g.cx).0;
    let inner = match e.kind {
        ExprKindModel::Unary(_, x) => *x.it,
        ExprKindModel::Field(x, _) => *x.it,
        _ => e,
    };
    emitted::lemma_grow_expr(inner, s, g.cx);
    let (s1, r) = codegen::g_expr(inner, s, g.cx);
    match e.kind {
        ExprKindModel::Unary(op, x) => {
            let ins = seq![bytecode::byte_of(codegen::unop_code(op)), s1.reg(), r];
            assert(t.code =~= s1.code + ins);
            emitted::lemma_after_plus(s1, t, ins);
            lemma_poised_part(g, f, w, l, s, s1, t, names);
            let a = sim_expr(g, rest, f, w, l, inner, s, names, fuel);
            match running::x_expr(inner, names, w, g.p, fuel) {
                Ends::Here(w1, Some(c)) => {
                    lemma_poised(g, rest, f, w, l, s, s1, t, names, a, w1);
                    match meaning::turned(op, w1.cells[c]) {
                        Some(v) => {
                            meaning::law_machine_turns(op, w1.cells[c], w1.heap);
                            lemma_one(g, rest, f, w.heap, l, s, s1, t, a, w1, codegen::unop_code(op), r, c, v)
                        },
                        None => a,
                    }
                },
                _ => a,
            }
        },
        ExprKindModel::Field(x, n) => {
            let k = ConstModel::Str(n);
            let v = bytecode::interned(s1.consts, k) % 0x1_0000;
            bytecode::law_interning(s1.consts, k);
            let ins = seq![bytecode::byte_of(Opcode::StructGet), s1.reg(), r, codegen::lo8(v), codegen::hi8(v)];
            assert(t.code =~= s1.code + ins);
            emitted::lemma_after_plus(s1, t, ins);
            lemma_poised_part(g, f, w, l, s, s1, t, names);
            let a = sim_expr(g, rest, f, w, l, inner, s, names, fuel);
            match running::x_expr(inner, names, w, g.p, fuel) {
                Ends::Here(w1, Some(c)) => {
                    lemma_poised(g, rest, f, w, l, s, s1, t, names, a, w1);
                    match running::field_of(w1.cells[c], n, w1.heap) {
                        Some(y) => lemma_field(g, rest, f, w.heap, l, s, s1, t, a, w1, r, n, y),
                        None => a,
                    }
                },
                _ => a,
            }
        },
        _ => Led { f, l, n: 0 },
    }
}

#[verifier::spinoff_prover]
#[verifier::rlimit(60)]
proof fn sim_binary<F>(g: Rig<F>, rest: Seq<FrameModel>, f: FrameModel, w: World, l: Links, e: ExprModel, s: Gen, names: Names, fuel: nat) -> (o: Led)
    requires
        poised(g, f, w, l, s, codegen::g_expr(e, s, g.cx).0, names),
        emitted::narrow(e),
        e.kind is Binary || e.kind is Index,
    ensures
        comes(g, rest, f, w.heap, l, s, codegen::g_expr(e, s, g.cx).0, Some(codegen::g_expr(e, s, g.cx).1), o, running::x_expr(e, names, w, g.p, fuel)),
    decreases fuel, e, 0int,
{
    reveal(codegen::g_expr);
    reveal(running::x_expr);
    let (t, q) = codegen::g_expr(e, s, g.cx);
    emitted::lemma_grow_expr(e, s, g.cx);
    let (x, y) = match e.kind {
        ExprKindModel::Binary(_, x, y) => (*x.it, *y.it),
        ExprKindModel::Index(x, y) => (*x.it, *y.it),
        _ => (e, e),
    };
    emitted::lemma_grow_expr(x, s, g.cx);
    let (s1, r1) = codegen::g_expr(x, s, g.cx);
    emitted::lemma_grow_expr(y, s1, g.cx);
    let (s2, r2) = codegen::g_expr(y, s1, g.cx);
    let op = match e.kind {
        ExprKindModel::Binary(b, _, _) => Some(codegen::binop_code(b)),
        _ => codegen::index_code(x.ty),
    };
    if let Some(o) = op {
        let ins = seq![bytecode::byte_of(o), s2.reg(), r1, r2];
        assert(t.code =~= s2.code + ins);
        emitted::lemma_after_plus(s2, t, ins);
    } else {
        emitted::lemma_grow_nil(s2, e.span, g.cx);
    }
    emitted::lemma_after_trans(s1, s2, t);
    emitted::lemma_after_trans(s, s1, s2);
    lemma_poised_part(g, f, w, l, s, s1, t, names);
    let a = sim_expr(g, rest, f, w, l, x, s, names, fuel);
    match running::x_expr(x, names, w, g.p, fuel) {
        Ends::Here(w1, Some(c1)) => {
            lemma_poised(g, rest, f, w, l, s, s1, t, names, a, w1);
            lemma_poised_part(g, a.f, w1, a.l, s1, s2, t, names);
            let b = sim_expr(g, rest, a.f, w1, a.l, y, s1, names, fuel);
            let d = lemma_comes_then(g, rest, f, w.heap, l, s, s1, s2, Some(r2), a, w1, b, running::x_expr(y, names, w1, g.p, fuel));
            match running::x_expr(y, names, w1, g.p, fuel) {
                Ends::Here(w2, Some(c2)) => {
                    lemma_poised(g, rest, f, w, l, s, s2, t, names, d, w2);
                    assert(d.l.dom().contains(r1 as int) && d.l[r1 as int] == c1);
                    let v = match e.kind {
                        ExprKindModel::Binary(b, _, _) => meaning::operated(b, w2.cells[c1], w2.cells[c2]),
                        _ => running::picked(x.ty, w2.cells[c1], w2.cells[c2], w2.heap),
                    };
                    match v {
                        Some(z) => {
                            match e.kind {
                                ExprKindModel::Binary(b, _, _) => {
                                    meaning::law_machine_operators(b, w2.cells[c1], w2.cells[c2], w2.heap);
                                },
                                _ => {
                                    lemma_picked(x.ty, w2.cells[c1], w2.cells[c2], w2.heap, z);
                                },
                            }
                            lemma_two(g, rest, f, w.heap, l, s, s2, t, d, w2, op->0, r1, r2, z)
                        },
                        None => d,
                    }
                },
                _ => d,
            }
        },
        _ => a,
    }
}

#[verifier::spinoff_prover]
#[verifier::rlimit(60)]
proof fn sim_call<F>(g: Rig<F>, rest: Seq<FrameModel>, f: FrameModel, w: World, l: Links, e: ExprModel, s: Gen, names: Names, fuel: nat) -> (o: Led)
    requires
        poised(g, f, w, l, s, codegen::g_expr(e, s, g.cx).0, names),
        emitted::narrow(e),
        e.kind is Call,
    ensures
        comes(g, rest, f, w.heap, l, s, codegen::g_expr(e, s, g.cx).0, Some(codegen::g_expr(e, s, g.cx).1), o, running::x_expr(e, names, w, g.p, fuel)),
    decreases fuel, e, 0int,
{
    reveal(codegen::g_expr);
    reveal(running::x_expr);
    let (t, q) = codegen::g_expr(e, s, g.cx);
    let p = g.p;
    match e.kind {
        ExprKindModel::Call(c, args) => {
            match c.it.kind {
                ExprKindModel::Ident(n) => {
                    let (s1, rs) = codegen::g_exprs(args, args.len() as int, s, g.cx);
                    if p.dom().contains(n) && p[n].params.len() == args.len() && fuel > 0 {
                        let (consts, fns) = choose|consts: Seq<ConstModel>, fns: Seq<FunctionModel>| stands_in(g, n, consts, fns);
                        assert(stands_in(g, n, consts, fns));
                        let id = g.cx.index[n];
                        assert(codegen::direct(*c.it, g.cx) == Some(id));
                        emitted::lemma_grow_exprs(args, args.len() as int, s, g.cx);
                        emitted::lemma_grow_direct(id, rs, e.span, s1, g.cx);
                        assert(t == codegen::g_direct(id, rs, e.span, s1, g.cx).0);
                        emitted::lemma_list(
                            s1.taken().op(Opcode::Call, e.span, g.cx).byte(s1.reg()).word(id as int),
                            rs,
                        );
                        lemma_poised_part(g, f, w, l, s, s1, t, names);
                        let a = sim_exprs(g, rest, f, w, l, args, args.len() as int, s, names, fuel);
                        match running::x_exprs(args, args.len() as int, names, w, p, fuel) {
                            Ends::Here(w1, cs) => {
                                lemma_poised(g, rest, f, w, l, s, s1, t, names, a, w1);
                                lemma_count(args, args.len() as int, s, names, w, g, fuel);
                                let vs = running::values(w1, cs);
                                lemma_enter(g, n, consts, fns, vs, Some(s1.reg()));
                                lemma_call_enters(g, rest, a.f, w1, a.l, s1, t, id, rs, cs);
                                let callee = frame::entry_frame(
                                    id,
                                    g.m.functions[id as int].max_register as int,
                                    vs,
                                    Some(s1.reg()),
                                );
                                let below = rest.push(a.f.to(t.code.len() as int));
                                let start = entry_gen(p[n], consts, fns);
                                let inner = World { cells: vs, heap: w1.heap };
                                let k = first_links(vs.len() as int);
                                let b = sim_block(
                                    g,
                                    below,
                                    callee,
                                    inner,
                                    k,
                                    p[n].body,
                                    start,
                                    running::first_cells(p[n].params),
                                    (fuel - 1) as nat,
                                );
                                let out = running::x_block(
                                    p[n].body,
                                    running::first_cells(p[n].params),
                                    inner,
                                    p,
                                    (fuel - 1) as nat,
                                );
                                match running::result_of(p[n].body, out) {
                                    Some((h, v)) => {
                                        let x = lemma_hand_back(g, n, consts, fns, below, callee, w1.heap, k, b, out, h, v);
                                        lemma_call_returns(g, rest, f, w.heap, l, s, s1, t, a, w1, callee, x, h, v)
                                    },
                                    None => a,
                                }
                            },
                            _ => a,
                        }
                    } else {
                        emitted::lemma_grow_expr(e, s, g.cx);
                        emitted::lemma_grow_exprs(args, args.len() as int, s, g.cx);
                        match codegen::direct(*c.it, g.cx) {
                            Some(id) => {
                                emitted::lemma_grow_direct(id, rs, e.span, s1, g.cx);
                            },
                            None => match codegen::named_callee(*c.it, s1) {
                                Some(Some(r)) => {
                                    emitted::lemma_grow_indirect(r, rs, e.span, s1, g.cx);
                                },
                                _ => {
                                    emitted::lemma_grow_nil(s1, e.span, g.cx);
                                },
                            },
                        }
                        lemma_poised_part(g, f, w, l, s, s1, t, names);
                        sim_exprs(g, rest, f, w, l, args, args.len() as int, s, names, fuel)
                    }
                },
                _ => Led { f, l, n: 0 },
            }
        },
        _ => Led { f, l, n: 0 },
    }
}

/// Each expression has a cell.
proof fn lemma_count<F>(es: Seq<ExprModel>, k: int, s: Gen, names: Names, w: World, g: Rig<F>, fuel: nat)
    requires
        0 <= k <= es.len(),
    ensures
        running::x_exprs(es, k, names, w, g.p, fuel) matches Ends::Here(_, cs) ==> cs.len() == k,
    decreases k,
{
    reveal(running::x_exprs);
    if k > 0 {
        lemma_count(es, k - 1, s, names, w, g, fuel);
    }
}

#[verifier::spinoff_prover]
#[verifier::rlimit(60)]
proof fn sim_array<F>(g: Rig<F>, rest: Seq<FrameModel>, f: FrameModel, w: World, l: Links, e: ExprModel, s: Gen, names: Names, fuel: nat) -> (o: Led)
    requires
        poised(g, f, w, l, s, codegen::g_expr(e, s, g.cx).0, names),
        emitted::narrow(e),
        e.kind is ArrayLit,
    ensures
        comes(g, rest, f, w.heap, l, s, codegen::g_expr(e, s, g.cx).0, Some(codegen::g_expr(e, s, g.cx).1), o, running::x_expr(e, names, w, g.p, fuel)),
    decreases fuel, e, 0int,
{
    reveal(codegen::g_expr);
    reveal(running::x_expr);
    let (t, q) = codegen::g_expr(e, s, g.cx);
    match e.kind {
        ExprKindModel::ArrayLit(es) => {
            emitted::lemma_grow_exprs(es, es.len() as int, s, g.cx);
            let (s1, rs) = codegen::g_exprs(es, es.len() as int, s, g.cx);
            let head = s1.taken().op(Opcode::ArrayNew, e.span, g.cx).byte(s1.reg());
            emitted::lemma_list(head, rs);
            let ins = seq![bytecode::byte_of(Opcode::ArrayNew), s1.reg(), (rs.len() % 256) as u8] + rs;
            assert(t.code =~= s1.code + ins);
            emitted::lemma_after_plus(s1, t, ins);
            lemma_poised_part(g, f, w, l, s, s1, t, names);
            let a = sim_exprs(g, rest, f, w, l, es, es.len() as int, s, names, fuel);
            match running::x_exprs(es, es.len() as int, names, w, g.p, fuel) {
                Ends::Here(w1, cs) => {
                    lemma_poised(g, rest, f, w, l, s, s1, t, names, a, w1);
                    lemma_count(es, es.len() as int, s, names, w, g, fuel);
                    if w1.heap.young.has_room() {
                        lemma_array(g, rest, f, w.heap, l, s, s1, t, a, w1, rs, cs)
                    } else {
                        a
                    }
                },
                _ => a,
            }
        },
        _ => Led { f, l, n: 0 },
    }
}

/// Whether pairs of expressions come to what they mean, each in its registers.
spec fn pairs_come<F>(
    g: Rig<F>,
    rest: Seq<FrameModel>,
    f: FrameModel,
    heap: HeapModel,
    l: Links,
    s: Gen,
    t: Gen,
    rs: Seq<(u8, u8)>,
    o: Led,
    e: Ends<Seq<(int, int)>>,
) -> bool {
    match e {
        Ends::Here(w, cs) => {
            &&& arrives(g, rest, f, heap, l, s, t, o, w)
            &&& rs.len() == cs.len()
            &&& forall|i: int| #![trigger rs[i]] 0 <= i < rs.len() ==> stands_by(o.l, rs[i], cs[i])
        },
        Ends::Back(h, v) => leaves(g, rest, f, heap, o, h, v),
        Ends::Lost => true,
    }
}

/// Whether two registers stand for two cells.
spec fn stands_by(l: Links, r: (u8, u8), c: (int, int)) -> bool {
    &&& l.dom().contains(r.0 as int) && l[r.0 as int] == c.0
    &&& l.dom().contains(r.1 as int) && l[r.1 as int] == c.1
}

#[verifier::spinoff_prover]
#[verifier::rlimit(60)]
proof fn sim_struct<F>(g: Rig<F>, rest: Seq<FrameModel>, f: FrameModel, w: World, l: Links, e: ExprModel, s: Gen, names: Names, fuel: nat) -> (o: Led)
    requires
        poised(g, f, w, l, s, codegen::g_expr(e, s, g.cx).0, names),
        emitted::narrow(e),
        e.kind is StructLit,
    ensures
        comes(g, rest, f, w.heap, l, s, codegen::g_expr(e, s, g.cx).0, Some(codegen::g_expr(e, s, g.cx).1), o, running::x_expr(e, names, w, g.p, fuel)),
    decreases fuel, e, 0int,
{
    reveal(codegen::g_expr);
    reveal(running::x_expr);
    let (t, q) = codegen::g_expr(e, s, g.cx);
    match e.kind {
        ExprKindModel::StructLit(_, fs) => {
            let n = fs.len() as int;
            emitted::lemma_grow_inits(fs, n, s, g.cx);
            let (s1, rs) = codegen::g_inits(fs, n, s, g.cx);
            let s2 = s1.taken().op(Opcode::StructNew, e.span, g.cx).byte(s1.reg());
            let ins = seq![bytecode::byte_of(Opcode::StructNew), s1.reg()];
            assert(s2.code =~= s1.code + ins);
            emitted::lemma_after_plus(s1, s2, ins);
            emitted::lemma_grow_fields_put(fs, rs, n, s1.reg(), e.span, s2, g.cx);
            emitted::lemma_after_trans(s1, s2, t);
            lemma_poised_part(g, f, w, l, s, s1, t, names);
            let a = sim_inits(g, rest, f, w, l, fs, n, s, names, fuel);
            match running::x_inits(fs, n, names, w, g.p, fuel) {
                Ends::Here(w1, cs) => {
                    lemma_poised(g, rest, f, w, l, s, s1, t, names, a, w1);
                    if w1.heap.wf() && w1.heap.young.has_room() {
                        lemma_start(g, a.f, s1, s2, t);
                        let b = lemma_bare(g, rest, f, w.heap, l, s, s1, s2, a, w1, Opcode::StructNew);
                        lemma_rest(g, a.f, b.f, s1, s2, t);
                        let v = ValueModel::Struct(w1.heap.next());
                        let w2 = World {
                            cells: w1.cells.push(v),
                            heap: w1.heap.with(ObjModel::Struct(Seq::empty())),
                        };
                        let es = running::fields_in(w1, fs, cs);
                        assert forall|i: int| #![trigger rs[i]] 0 <= i < rs.len() implies field_at(b.l, w2, rs[i], es[i].1)
                            && es[i].0 == fs[i].0 by {
                            assert(a.l.dom().contains(rs[i] as int));
                        }
                        lemma_fields(g, rest, f, w.heap, l, s, s2, b, w2, w1.heap, fs, rs, n, s1.reg(), e.span, es)
                    } else {
                        a
                    }
                },
                _ => a,
            }
        },
        _ => Led { f, l, n: 0 },
    }
}

#[verifier::spinoff_prover]
#[verifier::rlimit(60)]
proof fn sim_map<F>(g: Rig<F>, rest: Seq<FrameModel>, f: FrameModel, w: World, l: Links, e: ExprModel, s: Gen, names: Names, fuel: nat) -> (o: Led)
    requires
        poised(g, f, w, l, s, codegen::g_expr(e, s, g.cx).0, names),
        emitted::narrow(e),
        e.kind is MapLit,
    ensures
        comes(g, rest, f, w.heap, l, s, codegen::g_expr(e, s, g.cx).0, Some(codegen::g_expr(e, s, g.cx).1), o, running::x_expr(e, names, w, g.p, fuel)),
    decreases fuel, e, 0int,
{
    reveal(codegen::g_expr);
    reveal(running::x_expr);
    let (t, q) = codegen::g_expr(e, s, g.cx);
    match e.kind {
        ExprKindModel::MapLit(ps) => {
            let n = ps.len() as int;
            emitted::lemma_grow_pairs(ps, n, s, g.cx);
            let (s1, rs) = codegen::g_pairs(ps, n, s, g.cx);
            let s2 = s1.taken().op(Opcode::MapNew, e.span, g.cx).byte(s1.reg());
            let ins = seq![bytecode::byte_of(Opcode::MapNew), s1.reg()];
            assert(s2.code =~= s1.code + ins);
            emitted::lemma_after_plus(s1, s2, ins);
            emitted::lemma_grow_pairs_put(rs, rs.len() as int, s1.reg(), e.span, s2, g.cx);
            emitted::lemma_after_trans(s1, s2, t);
            lemma_poised_part(g, f, w, l, s, s1, t, names);
            let a = sim_pairs(g, rest, f, w, l, ps, n, s, names, fuel);
            match running::x_pairs(ps, n, names, w, g.p, fuel) {
                Ends::Here(w1, cs) => {
                    lemma_poised(g, rest, f, w, l, s, s1, t, names, a, w1);
                    if running::text_keys(w1, cs) && w1.heap.wf() && w1.heap.young.has_room() {
                        lemma_start(g, a.f, s1, s2, t);
                        let b = lemma_bare(g, rest, f, w.heap, l, s, s1, s2, a, w1, Opcode::MapNew);
                        lemma_rest(g, a.f, b.f, s1, s2, t);
                        let v = ValueModel::Dict(w1.heap.next());
                        let w2 = World { cells: w1.cells.push(v), heap: w1.heap.with(ObjModel::Dict(Seq::empty())) };
                        let es = running::entries_in(w1, cs);
                        assert forall|i: int| #![trigger rs[i]] 0 <= i < rs.len() implies field_at(
                            b.l,
                            w2,
                            rs[i].0,
                            ValueModel::Str(es[i].0),
                        ) && field_at(b.l, w2, rs[i].1, es[i].1) by {
                            assert(stands_by(a.l, rs[i], cs[i]));
                            assert(w1.cells[cs[i].0] is Str);
                        }
                        lemma_entries(g, rest, f, w.heap, l, s, s2, b, w2, w1.heap, rs, rs.len() as int, s1.reg(), e.span, es)
                    } else {
                        a
                    }
                },
                _ => a,
            }
        },
        _ => Led { f, l, n: 0 },
    }
}

#[verifier::spinoff_prover]
#[verifier::rlimit(60)]
proof fn sim_inits<F>(g: Rig<F>, rest: Seq<FrameModel>, f: FrameModel, w: World, l: Links, fs: Seq<(Seq<char>, ExprModel)>, k: int, s: Gen, names: Names, fuel: nat) -> (o: Led)
    requires
        0 <= k <= fs.len(),
        poised(g, f, w, l, s, codegen::g_inits(fs, k, s, g.cx).0, names),
        emitted::narrow_inits(fs, k),
    ensures
        all_come(g, rest, f, w.heap, l, s, codegen::g_inits(fs, k, s, g.cx).0, codegen::g_inits(fs, k, s, g.cx).1, o, running::x_inits(fs, k, names, w, g.p, fuel)),
        codegen::g_inits(fs, k, s, g.cx).1.len() == k,
    decreases fuel, fs, k,
{
    reveal(running::x_inits);
    reveal(codegen::g_inits);
    if k == 0 {
        lemma_here(g, rest, f, w, l, s)
    } else {
        assert(decreases_to!(fs => fs[k - 1]));
        assert(decreases_to!(fs[k - 1] => fs[k - 1].1));
        let e = fs[k - 1].1;
        emitted::lemma_grow_inits(fs, k - 1, s, g.cx);
        let (s1, rs) = codegen::g_inits(fs, k - 1, s, g.cx);
        emitted::lemma_grow_expr(e, s1, g.cx);
        let (t, r) = codegen::g_expr(e, s1, g.cx);
        lemma_poised_part(g, f, w, l, s, s1, t, names);
        let a = sim_inits(g, rest, f, w, l, fs, k - 1, s, names, fuel);
        match running::x_inits(fs, k - 1, names, w, g.p, fuel) {
            Ends::Here(w1, cs) => {
                lemma_poised(g, rest, f, w, l, s, s1, t, names, a, w1);
                let b = sim_expr(g, rest, a.f, w1, a.l, e, s1, names, fuel);
                let x = running::x_expr(e, names, w1, g.p, fuel);
                let o = lemma_comes_then(g, rest, f, w.heap, l, s, s1, t, Some(r), a, w1, b, x);
                if let Ends::Here(w2, Some(c)) = x {
                    let all = rs.push(r);
                    let cells = cs.push(c);
                    assert forall|i: int| #![trigger all[i]] 0 <= i < all.len() implies o.l.dom().contains(all[i] as int)
                        && o.l[all[i] as int] == cells[i] by {
                        if i < rs.len() {
                            assert(all[i] == rs[i]);
                            assert(a.l.dom().contains(rs[i] as int));
                        }
                    }
                }
                o
            },
            _ => a,
        }
    }
}

#[verifier::spinoff_prover]
#[verifier::rlimit(60)]
proof fn sim_pairs<F>(g: Rig<F>, rest: Seq<FrameModel>, f: FrameModel, w: World, l: Links, ps: Seq<(ExprModel, ExprModel)>, k: int, s: Gen, names: Names, fuel: nat) -> (o: Led)
    requires
        0 <= k <= ps.len(),
        poised(g, f, w, l, s, codegen::g_pairs(ps, k, s, g.cx).0, names),
        emitted::narrow_pairs(ps, k),
    ensures
        pairs_come(g, rest, f, w.heap, l, s, codegen::g_pairs(ps, k, s, g.cx).0, codegen::g_pairs(ps, k, s, g.cx).1, o, running::x_pairs(ps, k, names, w, g.p, fuel)),
    decreases fuel, ps, k,
{
    reveal(running::x_pairs);
    reveal(codegen::g_pairs);
    if k == 0 {
        lemma_here(g, rest, f, w, l, s)
    } else {
        assert(decreases_to!(ps => ps[k - 1]));
        assert(decreases_to!(ps[k - 1] => ps[k - 1].0));
        assert(decreases_to!(ps[k - 1] => ps[k - 1].1));
        let (e, d) = ps[k - 1];
        emitted::lemma_grow_pairs(ps, k - 1, s, g.cx);
        let (s1, rs) = codegen::g_pairs(ps, k - 1, s, g.cx);
        emitted::lemma_grow_expr(e, s1, g.cx);
        let (s2, r) = codegen::g_expr(e, s1, g.cx);
        emitted::lemma_grow_expr(d, s2, g.cx);
        let (t, q) = codegen::g_expr(d, s2, g.cx);
        emitted::lemma_after_trans(s1, s2, t);
        emitted::lemma_after_trans(s, s1, s2);
        lemma_poised_part(g, f, w, l, s, s1, t, names);
        let a = sim_pairs(g, rest, f, w, l, ps, k - 1, s, names, fuel);
        match running::x_pairs(ps, k - 1, names, w, g.p, fuel) {
            Ends::Here(w1, cs) => {
                lemma_poised(g, rest, f, w, l, s, s1, t, names, a, w1);
                lemma_poised_part(g, a.f, w1, a.l, s1, s2, t, names);
                let b = sim_expr(g, rest, a.f, w1, a.l, e, s1, names, fuel);
                let x = running::x_expr(e, names, w1, g.p, fuel);
                let c = lemma_comes_then(g, rest, f, w.heap, l, s, s1, s2, Some(r), a, w1, b, x);
                match x {
                    Ends::Here(w2, Some(y)) => {
                        lemma_poised(g, rest, f, w, l, s, s2, t, names, c, w2);
                        let h = sim_expr(g, rest, c.f, w2, c.l, d, s2, names, fuel);
                        let z = running::x_expr(d, names, w2, g.p, fuel);
                        let o = lemma_comes_then(g, rest, f, w.heap, l, s, s2, t, Some(q), c, w2, h, z);
                        if let Ends::Here(w3, Some(v)) = z {
                            let all = rs.push((r, q));
                            let cells = cs.push((y, v));
                            assert forall|i: int| #![trigger all[i]] 0 <= i < all.len() implies stands_by(o.l, all[i], cells[i]) by {
                                if i < rs.len() {
                                    assert(all[i] == rs[i]);
                                    assert(stands_by(a.l, rs[i], cs[i]));
                                    assert(c.l.dom().contains(rs[i].0 as int) && c.l.dom().contains(rs[i].1 as int));
                                }
                            }
                        }
                        o
                    },
                    _ => c,
                }
            },
            _ => a,
        }
    }
}

/// The arm of an `if` that is taken where the condition holds.
#[verifier::spinoff_prover]
#[verifier::rlimit(60)]
proof fn sim_yes<F>(
    g: Rig<F>,
    rest: Seq<FrameModel>,
    f: FrameModel,
    heap: HeapModel,
    l: Links,
    s0: Gen,
    s: Gen,
    s1: Gen,
    r: u8,
    a: Led,
    w: World,
    c: ExprModel,
    yes: BlockModel,
    no: Option<BlockModel>,
    out: Option<u8>,
    names: Names,
    fuel: nat,
) -> (o: Led)
    requires
        arrives(g, rest, f, heap, l, s, s1, a, w),
        poised(g, a.f, w, a.l, s1, emitted::arms(c, yes, no, out, s1, r, g.cx), names),
        a.l.dom().contains(r as int),
        w.cells[a.l[r as int]] == ValueModel::Bool(true),
        emitted::narrow_block(yes),
        s.next <= s1.next,
        out matches Some(d) ==> d == s0.next && s.next == s0.next + 1,
        out is None ==> s0 == s,
        forall|q: int| #[trigger] l.dom().contains(q) ==> q < s0.next,
    ensures
        comes(
            g,
            rest,
            f,
            heap,
            l,
            s0,
            emitted::arms(c, yes, no, out, s1, r, g.cx),
            out,
            o,
            if out is Some {
                running::taken(running::x_block(yes, names, w, g.p, fuel))
            } else {
                quiet(running::x_block(yes, names, w, g.p, fuel))
            },
        ),
    decreases fuel, yes, 1int,
{
    let cx = g.cx;
    let fin = emitted::arms(c, yes, no, out, s1, r, cx);
    lemma_laid(g, a.f, c, yes, no, out, s1, r);
    let s2 = codegen::unless(s1, r, c.span, cx);
    emitted::lemma_grow_unless(s1, r, c.span, cx);
    let (s3, t) = codegen::g_block(yes, s2, cx);
    let j = codegen::joined(s3, out, t, yes.span, cx);
    let b = lemma_unless(g, rest, f, heap, l, s, s1, s2, a, w, r, true);
    assert(ready(g, b.f, s2, s3));
    assert(poised(g, b.f, w, b.l, s2, s3, names));
    let d = sim_block(g, rest, b.f, w, b.l, yes, s2, names, fuel);
    let xb = running::x_block(yes, names, w, g.p, fuel);
    let e = lemma_comes_then(g, rest, f, heap, l, s, s2, s3, t, b, w, d, xb);
    match xb {
        Ends::Here(w2, v) => {
            assert(ready(g, e.f, s3, j));
            match out {
                Some(dst) => {
                    let h = lemma_join(g, rest, f, heap, l, s0, s, s3, e, w2, dst, t, v, yes.span);
                    match running::taken(xb) {
                        Ends::Here(w3, v3) => {
                            lemma_jump(g, rest, f, heap, l, s0, j, fin, h, w3)
                        },
                        _ => h,
                    }
                },
                None => {
                    assert(j == s3);
                    lemma_jump(g, rest, f, heap, l, s0, j, fin, e, w2)
                },
            }
        },
        _ => e,
    }
}

/// The arm of an `if` that is taken where the condition does not hold.
#[verifier::spinoff_prover]
#[verifier::rlimit(60)]
proof fn sim_no<F>(
    g: Rig<F>,
    rest: Seq<FrameModel>,
    f: FrameModel,
    heap: HeapModel,
    l: Links,
    s0: Gen,
    s: Gen,
    s1: Gen,
    r: u8,
    a: Led,
    w: World,
    c: ExprModel,
    yes: BlockModel,
    no: BlockModel,
    out: Option<u8>,
    names: Names,
    fuel: nat,
) -> (o: Led)
    requires
        arrives(g, rest, f, heap, l, s, s1, a, w),
        poised(g, a.f, w, a.l, s1, emitted::arms(c, yes, Some(no), out, s1, r, g.cx), names),
        a.l.dom().contains(r as int),
        w.cells[a.l[r as int]] == ValueModel::Bool(false),
        emitted::narrow_block(no),
        s.next <= s1.next,
        out matches Some(d) ==> d == s0.next && s.next == s0.next + 1,
        out is None ==> s0 == s,
        forall|q: int| #[trigger] l.dom().contains(q) ==> q < s0.next,
    ensures
        comes(
            g,
            rest,
            f,
            heap,
            l,
            s0,
            emitted::arms(c, yes, Some(no), out, s1, r, g.cx),
            out,
            o,
            if out is Some {
                running::taken(running::x_block(no, names, w, g.p, fuel))
            } else {
                quiet(running::x_block(no, names, w, g.p, fuel))
            },
        ),
    decreases fuel, no, 1int,
{
    let cx = g.cx;
    let fin = emitted::arms(c, yes, Some(no), out, s1, r, cx);
    lemma_laid(g, a.f, c, yes, Some(no), out, s1, r);
    let s2 = codegen::unless(s1, r, c.span, cx);
    emitted::lemma_grow_unless(s1, r, c.span, cx);
    emitted::lemma_grow_block(yes, s2, cx);
    emitted::lemma_grow_first_arm(c, yes, out, s1, r, cx);
    let s4 = emitted::first_arm(c, yes, out, s1, r, cx);
    let (s5, u) = codegen::g_block(no, s4, cx);
    let q = codegen::joined(s5, out, u, no.span, cx);
    let b = lemma_unless(g, rest, f, heap, l, s, s1, s4, a, w, r, false);
    assert(ready(g, b.f, s4, s5));
    lemma_link_less(a.l, b.l, b.f.regs, w.cells, 0, s4.next as int, s4.next as int);
    assert(poised(g, b.f, w, b.l, s4, s5, names));
    let d = sim_block(g, rest, b.f, w, b.l, no, s4, names, fuel);
    let xb = running::x_block(no, names, w, g.p, fuel);
    let e = lemma_comes_then(g, rest, f, heap, l, s, s4, s5, u, b, w, d, xb);
    match xb {
        Ends::Here(w2, v) => {
            assert(ready(g, e.f, s5, q));
            match out {
                Some(dst) => lemma_join(g, rest, f, heap, l, s0, s, s5, e, w2, dst, u, v, no.span),
                None => e,
            }
        },
        _ => e,
    }
}

/// The missing arm of an `if`.
#[verifier::spinoff_prover]
#[verifier::rlimit(60)]
proof fn sim_neither<F>(
    g: Rig<F>,
    rest: Seq<FrameModel>,
    f: FrameModel,
    heap: HeapModel,
    l: Links,
    s0: Gen,
    s: Gen,
    s1: Gen,
    r: u8,
    a: Led,
    w: World,
    c: ExprModel,
    yes: BlockModel,
    out: Option<u8>,
    names: Names,
) -> (o: Led)
    requires
        arrives(g, rest, f, heap, l, s, s1, a, w),
        poised(g, a.f, w, a.l, s1, emitted::arms(c, yes, None, out, s1, r, g.cx), names),
        a.l.dom().contains(r as int),
        w.cells[a.l[r as int]] == ValueModel::Bool(false),
        s.next <= s1.next,
        out matches Some(d) ==> d == s0.next && s.next == s0.next + 1,
        out is None ==> s0 == s,
        forall|q: int| #[trigger] l.dom().contains(q) ==> q < s0.next,
    ensures
        comes(
            g,
            rest,
            f,
            heap,
            l,
            s0,
            emitted::arms(c, yes, None, out, s1, r, g.cx),
            out,
            o,
            if out is Some {
                running::fresh(w, ValueModel::Nil)
            } else {
                Ends::Here(w, None)
            },
        ),
{
    let cx = g.cx;
    lemma_laid(g, a.f, c, yes, None, out, s1, r);
    let s4 = emitted::first_arm(c, yes, out, s1, r, cx);
    let q = codegen::no_else(s4, out, c.span, cx);
    let b = lemma_unless(g, rest, f, heap, l, s, s1, s4, a, w, r, false);
    match out {
        Some(d) => {
            let ins = seq![bytecode::byte_of(Opcode::ConstNil), d];
            assert(q.code =~= s4.code + ins);
            assert(ready(g, b.f, s4, q));
            reveal(step::value_of);
            lemma_overwrite(g, rest, f, heap, l, s0, s, s4, q, b, w, Opcode::ConstNil, ins, d, ValueModel::Nil, true)
        },
        None => b,
    }
}

#[verifier::spinoff_prover]
#[verifier::rlimit(60)]
proof fn sim_if<F>(g: Rig<F>, rest: Seq<FrameModel>, f: FrameModel, w: World, l: Links, e: ExprModel, s: Gen, names: Names, fuel: nat) -> (o: Led)
    requires
        poised(g, f, w, l, s, codegen::g_expr(e, s, g.cx).0, names),
        emitted::narrow(e),
        e.kind is If,
    ensures
        comes(g, rest, f, w.heap, l, s, codegen::g_expr(e, s, g.cx).0, Some(codegen::g_expr(e, s, g.cx).1), o, running::x_expr(e, names, w, g.p, fuel)),
    decreases fuel, e, 0int,
{
    reveal(codegen::g_expr);
    reveal(running::x_expr);
    let cx = g.cx;
    let (t, q) = codegen::g_expr(e, s, cx);
    match e.kind {
        ExprKindModel::If(c, yes, no) => {
            let out = s.reg();
            let s0 = s.taken();
            emitted::lemma_grow_expr(*c.it, s0, cx);
            let (s1, r) = codegen::g_expr(*c.it, s0, cx);
            emitted::lemma_grow_block(*yes.it, codegen::unless(s1, r, c.it.span, cx), cx);
            let other = match no {
                Some(b) => {
                    emitted::lemma_grow_block(*b.it, emitted::first_arm(*c.it, *yes.it, Some(out), s1, r, cx), cx);
                    Some(*b.it)
                },
                None => None,
            };
            emitted::lemma_grow_arms(*c.it, *yes.it, other, Some(out), s1, r, cx);
            assert(t == emitted::arms(*c.it, *yes.it, other, Some(out), s1, r, cx));
            emitted::lemma_after_trans(s0, s1, t);
            assert(s.next + 1 == s0.next);
            lemma_link_less(l, l, f.regs, w.cells, 0, s.next as int, s0.next as int);
            assert(poised(g, f, w, l, s0, t, names));
            lemma_poised_part(g, f, w, l, s0, s1, t, names);
            let a = sim_expr(g, rest, f, w, l, *c.it, s0, names, fuel);
            match running::x_expr(*c.it, names, w, g.p, fuel) {
                Ends::Here(w1, Some(k)) => {
                    lemma_poised(g, rest, f, w, l, s0, s1, t, names, a, w1);
                    match w1.cells[k] {
                        ValueModel::Bool(true) => sim_yes(
                            g,
                            rest,
                            f,
                            w.heap,
                            l,
                            s,
                            s0,
                            s1,
                            r,
                            a,
                            w1,
                            *c.it,
                            *yes.it,
                            other,
                            Some(out),
                            names,
                            fuel,
                        ),
                        ValueModel::Bool(false) => match no {
                            Some(b) => sim_no(
                                g,
                                rest,
                                f,
                                w.heap,
                                l,
                                s,
                                s0,
                                s1,
                                r,
                                a,
                                w1,
                                *c.it,
                                *yes.it,
                                *b.it,
                                Some(out),
                                names,
                                fuel,
                            ),
                            None => sim_neither(
                                g,
                                rest,
                                f,
                                w.heap,
                                l,
                                s,
                                s0,
                                s1,
                                r,
                                a,
                                w1,
                                *c.it,
                                *yes.it,
                                Some(out),
                                names,
                            ),
                        },
                        _ => a,
                    }
                },
                _ => a,
            }
        },
        _ => Led { f, l, n: 0 },
    }
}

/// An expression comes to what it means.
#[verifier::spinoff_prover]
#[verifier::rlimit(60)]
proof fn sim_expr<F>(g: Rig<F>, rest: Seq<FrameModel>, f: FrameModel, w: World, l: Links, e: ExprModel, s: Gen, names: Names, fuel: nat) -> (o: Led)
    requires
        poised(g, f, w, l, s, codegen::g_expr(e, s, g.cx).0, names),
        emitted::narrow(e),
    ensures
        comes(g, rest, f, w.heap, l, s, codegen::g_expr(e, s, g.cx).0, Some(codegen::g_expr(e, s, g.cx).1), o, running::x_expr(e, names, w, g.p, fuel)),
    decreases fuel, e, 1int,
{
    match e.kind {
        ExprKindModel::Lit(_) => {
            reveal(running::x_expr);
            lemma_lit(g, rest, f, w, l, e, s)
        },
        ExprKindModel::Ident(n) => {
            reveal(running::x_expr);
            reveal(codegen::g_expr);
            lemma_name(s.env, names, l, n);
            lemma_here(g, rest, f, w, l, s)
        },
        ExprKindModel::Unary(..) | ExprKindModel::Field(..) => sim_unary(g, rest, f, w, l, e, s, names, fuel),
        ExprKindModel::Binary(..) | ExprKindModel::Index(..) => sim_binary(g, rest, f, w, l, e, s, names, fuel),
        ExprKindModel::Call(..) => sim_call(g, rest, f, w, l, e, s, names, fuel),
        ExprKindModel::ArrayLit(..) => sim_array(g, rest, f, w, l, e, s, names, fuel),
        ExprKindModel::StructLit(..) => sim_struct(g, rest, f, w, l, e, s, names, fuel),
        ExprKindModel::MapLit(..) => sim_map(g, rest, f, w, l, e, s, names, fuel),
        ExprKindModel::If(..) => sim_if(g, rest, f, w, l, e, s, names, fuel),
        ExprKindModel::Block(b) => {
            reveal(running::x_expr);
            reveal(codegen::g_expr);
            reveal(codegen::g_block);
            let (s1, r) = codegen::g_block(*b.it, s, g.cx);
            let t = codegen::g_expr(e, s, g.cx).0;
            emitted::lemma_grow_block(*b.it, s, g.cx);
            match r {
                None => {
                    emitted::lemma_grow_nil(s1, e.span, g.cx);
                    assert(codegen::g_block(*b.it, s, g.cx) == (s1, None::<u8>));
                    assert(t == s1.nil(e.span, g.cx).0);
                },
                Some(q) => {
                    emitted::lemma_after_self(s1);
                    assert(codegen::g_block(*b.it, s, g.cx) == (s1, Some(q)));
                    assert(t == s1);
                },
            }
            lemma_poised_part(g, f, w, l, s, s1, t, names);
            let a = sim_block(g, rest, f, w, l, *b.it, s, names, fuel);
            assert(r is None <==> b.it.tail is None) by {
                reveal(codegen::g_block);
            }
            match running::x_block(*b.it, names, w, g.p, fuel) {
                Ends::Here(w1, v) => {
                    if r is None {
                        lemma_poised(g, rest, f, w, l, s, s1, t, names, a, w1);
                        lemma_nil(g, rest, f, w.heap, l, s, s1, t, a, w1)
                    } else {
                        a
                    }
                },
                _ => a,
            }
        },
        _ => {
            reveal(running::x_expr);
            Led { f, l, n: 0 }
        },
    }
}

#[verifier::spinoff_prover]
#[verifier::rlimit(60)]
proof fn sim_exprs<F>(g: Rig<F>, rest: Seq<FrameModel>, f: FrameModel, w: World, l: Links, es: Seq<ExprModel>, k: int, s: Gen, names: Names, fuel: nat) -> (o: Led)
    requires
        0 <= k <= es.len(),
        poised(g, f, w, l, s, codegen::g_exprs(es, k, s, g.cx).0, names),
        emitted::narrow_exprs(es, k),
    ensures
        all_come(g, rest, f, w.heap, l, s, codegen::g_exprs(es, k, s, g.cx).0, codegen::g_exprs(es, k, s, g.cx).1, o, running::x_exprs(es, k, names, w, g.p, fuel)),
    decreases fuel, es, k,
{
    reveal(running::x_exprs);
    reveal(codegen::g_exprs);
    if k == 0 {
        lemma_here(g, rest, f, w, l, s)
    } else {
        emitted::lemma_grow_exprs(es, k - 1, s, g.cx);
        let (s1, rs) = codegen::g_exprs(es, k - 1, s, g.cx);
        emitted::lemma_grow_expr(es[k - 1], s1, g.cx);
        let (t, r) = codegen::g_expr(es[k - 1], s1, g.cx);
        lemma_poised_part(g, f, w, l, s, s1, t, names);
        let a = sim_exprs(g, rest, f, w, l, es, k - 1, s, names, fuel);
        match running::x_exprs(es, k - 1, names, w, g.p, fuel) {
            Ends::Here(w1, cs) => {
                lemma_poised(g, rest, f, w, l, s, s1, t, names, a, w1);
                let b = sim_expr(g, rest, a.f, w1, a.l, es[k - 1], s1, names, fuel);
                let x = running::x_expr(es[k - 1], names, w1, g.p, fuel);
                let o = lemma_comes_then(g, rest, f, w.heap, l, s, s1, t, Some(r), a, w1, b, x);
                if let Ends::Here(w2, Some(c)) = x {
                    let all = rs.push(r);
                    let cells = cs.push(c);
                    assert forall|i: int| #![trigger all[i]] 0 <= i < all.len() implies o.l.dom().contains(all[i] as int)
                        && o.l[all[i] as int] == cells[i] by {
                        if i < rs.len() {
                            assert(all[i] == rs[i]);
                            assert(a.l.dom().contains(rs[i] as int));
                        }
                    }
                }
                o
            },
            _ => a,
        }
    }
}

#[verifier::spinoff_prover]
#[verifier::rlimit(60)]
proof fn sim_block<F>(g: Rig<F>, rest: Seq<FrameModel>, f: FrameModel, w: World, l: Links, b: BlockModel, s: Gen, names: Names, fuel: nat) -> (o: Led)
    requires
        poised(g, f, w, l, s, codegen::g_block(b, s, g.cx).0, names),
        emitted::narrow_block(b),
    ensures
        comes(g, rest, f, w.heap, l, s, codegen::g_block(b, s, g.cx).0, codegen::g_block(b, s, g.cx).1, o, running::x_block(b, names, w, g.p, fuel)),
    decreases fuel, b, 0int,
{
    reveal(running::x_block);
    reveal(codegen::g_block);
    let n = b.stmts.len() as int;
    emitted::lemma_grow_stmts(b.stmts, n, s, g.cx);
    let s1 = codegen::g_stmts(b.stmts, n, s, g.cx);
    let t = codegen::g_block(b, s, g.cx).0;
    match b.tail {
        Some(e) => {
            emitted::lemma_grow_expr(e, s1, g.cx);
            let (s2, r) = codegen::g_expr(e, s1, g.cx);
            emitted::lemma_after_trans(s, s1, s2);
            assert(ready(g, f, s, s2));
            lemma_poised_part(g, f, w, l, s, s1, s2, names);
            let a = sim_stmts(g, rest, f, w, l, b.stmts, n, s, names, fuel);
            match running::x_stmts(b.stmts, n, names, w, g.p, fuel) {
                Ends::Here(w1, inner) => {
                    lemma_rest(g, f, a.f, s, s1, s2);
                    assert(poised(g, a.f, w1, a.l, s1, s2, inner));
                    let d = sim_expr(g, rest, a.f, w1, a.l, e, s1, inner, fuel);
                    lemma_comes_then(g, rest, f, w.heap, l, s, s1, s2, Some(r), a, w1, d, running::x_expr(e, inner, w1, g.p, fuel))
                },
                _ => a,
            }
        },
        None => {
            assert(ready(g, f, s, s1));
            sim_stmts(g, rest, f, w, l, b.stmts, n, s, names, fuel)
        },
    }
}

#[verifier::spinoff_prover]
#[verifier::rlimit(60)]
proof fn sim_stmts<F>(g: Rig<F>, rest: Seq<FrameModel>, f: FrameModel, w: World, l: Links, ss: Seq<StmtModel>, k: int, s: Gen, names: Names, fuel: nat) -> (o: Led)
    requires
        0 <= k <= ss.len(),
        poised(g, f, w, l, s, codegen::g_stmts(ss, k, s, g.cx), names),
        emitted::narrow_stmts(ss, k),
    ensures
        go_on(g, rest, f, w.heap, l, s, codegen::g_stmts(ss, k, s, g.cx), o, running::x_stmts(ss, k, names, w, g.p, fuel)),
    decreases fuel, ss, k,
{
    reveal(running::x_stmts);
    reveal(codegen::g_stmts);
    if k == 0 {
        lemma_here(g, rest, f, w, l, s)
    } else {
        emitted::lemma_grow_stmts(ss, k - 1, s, g.cx);
        let s1 = codegen::g_stmts(ss, k - 1, s, g.cx);
        emitted::lemma_grow_stmt(ss[k - 1], s1, g.cx);
        let t = codegen::g_stmt(ss[k - 1], s1, g.cx);
        lemma_poised_part(g, f, w, l, s, s1, t, names);
        let a = sim_stmts(g, rest, f, w, l, ss, k - 1, s, names, fuel);
        match running::x_stmts(ss, k - 1, names, w, g.p, fuel) {
            Ends::Here(w1, inner) => {
                lemma_rest(g, f, a.f, s, s1, t);
                assert(poised(g, a.f, w1, a.l, s1, t, inner));
                let d = sim_stmt(g, rest, a.f, w1, a.l, ss[k - 1], s1, inner, fuel);
                lemma_go_on_then(g, rest, f, w.heap, l, s, s1, t, a, w1, d, running::x_stmt(ss[k - 1], inner, w1, g.p, fuel))
            },
            _ => a,
        }
    }
}

proof fn lemma_go_on_then<F>(
    g: Rig<F>,
    rest: Seq<FrameModel>,
    f: FrameModel,
    heap: HeapModel,
    l: Links,
    s: Gen,
    m: Gen,
    t: Gen,
    a: Led,
    w: World,
    b: Led,
    e: Ends<Names>,
) -> (o: Led)
    requires
        arrives(g, rest, f, heap, l, s, m, a, w),
        go_on(g, rest, a.f, w.heap, a.l, m, t, b, e),
        s.next <= m.next <= t.next,
    ensures
        go_on(g, rest, f, heap, l, s, t, o, e),
{
    match e {
        Ends::Here(x, _) => {
            lemma_arrives_then(g, rest, f, heap, l, s, m, t, a, w, b, x);
        },
        Ends::Back(h, v) => {
            lemma_leaves_then(g, rest, f, heap, a.f, a.n, w.heap, b, h, v);
        },
        Ends::Lost => {},
    }
    Led { n: a.n + b.n, ..b }
}

/// Where the parts of a loop lie in the code.
#[verifier::spinoff_prover]
#[verifier::rlimit(60)]
proof fn lemma_loop_laid<F>(g: Rig<F>, f: FrameModel, st: StmtModel, c: ExprModel, b: BlockModel, s: Gen)
    requires
        st.kind matches StmtKindModel::While(x, y) && x == c && *y.it == b,
        ready(g, f, s, codegen::g_stmt(st, s, g.cx)),
    ensures
        ({
            let cx = g.cx;
            let code = code_of(g, f);
            let (s1, r) = codegen::g_expr(c, s, cx);
            let s2 = codegen::unless(s1, r, c.span, cx);
            let s3 = codegen::g_block(b, s2, cx).0;
            let fin = codegen::g_stmt(st, s, cx);
            &&& after(s, s1)
            &&& s1.env == s.env
            &&& same(code, s1.code, s.code.len() as int, s1.code.len() as int)
            &&& kept(s1.consts, g.m.constants)
            &&& s2.code.len() == s1.code.len() + 4
            &&& s2.next == s1.next
            &&& s2.env == s.env
            &&& after(s2, s3)
            &&& s3.env == s.env
            &&& fin.env == s.env
            &&& same(code, s3.code, s2.code.len() as int, s3.code.len() as int)
            &&& kept(s3.consts, g.m.constants)
            &&& fin.code.len() == s3.code.len() + 3
            &&& fin.next == s3.next
            &&& code[s1.code.len() as int] == bytecode::byte_of(Opcode::JmpIfFalse)
            &&& code[s1.code.len() + 1 as int] == r
            &&& verify::offset(code, s1.code.len() + 2 as int) == fin.code.len() - s2.code.len()
            &&& code[s3.code.len() as int] == bytecode::byte_of(Opcode::Jmp)
            &&& verify::offset(code, s3.code.len() + 1 as int) == s.code.len() - (s3.code.len() + 3)
        }),
{
    reveal(codegen::g_stmt);
    let cx = g.cx;
    let code = code_of(g, f);
    emitted::lemma_grow_expr(c, s, cx);
    let (s1, r) = codegen::g_expr(c, s, cx);
    let s2 = codegen::unless(s1, r, c.span, cx);
    emitted::lemma_grow_unless(s1, r, c.span, cx);
    emitted::lemma_grow_block(b, s2, cx);
    let s3 = codegen::g_block(b, s2, cx).0;
    let v = (s.code.len() - (s3.code.len() + 3)) % 0x1_0000;
    let s4 = s3.op(Opcode::Jmp, st.span, cx).word(v);
    let ins = seq![bytecode::byte_of(Opcode::Jmp), codegen::lo8(v), codegen::hi8(v)];
    assert(s4.code =~= s3.code + ins);
    emitted::lemma_after_plus(s3, s4, ins);
    let at = s2.code.len() - 2;
    let fin = codegen::g_stmt(st, s, cx);
    assert(fin == s4.patch(at));
    lemma_after_bytes(s, s1);
    lemma_after_bytes(s1, s2);
    lemma_after_bytes(s2, s3);
    lemma_after_bytes(s3, s4);
    lemma_patched(s4, at);
    lemma_kept_then(s1.consts, s3.consts, g.m.constants);
    assert(code[s1.code.len() as int] == fin.code[s1.code.len() as int]);
    assert(s2.code[s1.code.len() as int] == bytecode::byte_of(Opcode::JmpIfFalse));
    assert(code[s1.code.len() + 1 as int] == fin.code[s1.code.len() + 1 as int]);
    assert(s2.code[s1.code.len() + 1 as int] == r);
    assert(s4.code[s1.code.len() as int] == s2.code[s1.code.len() as int]) by {
        assert(s3.code[s1.code.len() as int] == s2.code[s1.code.len() as int]);
    }
    assert(s4.code[s1.code.len() + 1 as int] == s2.code[s1.code.len() + 1 as int]) by {
        assert(s3.code[s1.code.len() + 1 as int] == s2.code[s1.code.len() + 1 as int]);
    }
    assert(code[at] == fin.code[at]);
    assert(code[at + 1] == fin.code[at + 1]);
    assert(verify::offset(code, at) == verify::offset(fin.code, at));
    let k = s3.code.len() as int;
    assert(code[k] == fin.code[k] == s4.code[k] == ins[0]);
    assert(code[k + 1] == fin.code[k + 1] == s4.code[k + 1] == ins[1]);
    assert(code[k + 2] == fin.code[k + 2] == s4.code[k + 2] == ins[2]);
    emitted::lemma_word(code, k + 1, v);
    assert(v == s.code.len() - (s3.code.len() + 3) + 0x1_0000);
    assert forall|i: int| #![trigger code[i]] #![trigger s3.code[i]] s2.code.len() <= i < s3.code.len() implies code[i]
        == s3.code[i] by {
        assert(code[i] == fin.code[i]);
        assert(fin.code[i] == s4.code[i]);
    }
    assert forall|i: int| #![trigger code[i]] #![trigger s1.code[i]] s.code.len() <= i < s1.code.len() implies code[i]
        == s1.code[i] by {
        assert(code[i] == fin.code[i]);
        assert(fin.code[i] == s4.code[i]);
        assert(s4.code[i] == s3.code[i]);
        assert(s3.code[i] == s2.code[i]);
    }
}

#[verifier::spinoff_prover]
#[verifier::rlimit(60)]
proof fn sim_while<F>(g: Rig<F>, rest: Seq<FrameModel>, f: FrameModel, w: World, l: Links, st: StmtModel, s: Gen, names: Names, fuel: nat) -> (o: Led)
    requires
        poised(g, f, w, l, s, codegen::g_stmt(st, s, g.cx), names),
        emitted::narrow_stmt(st),
        st.kind is While,
    ensures
        go_on(g, rest, f, w.heap, l, s, codegen::g_stmt(st, s, g.cx), o, running::x_stmt(st, names, w, g.p, fuel)),
    decreases fuel, st, 0int,
{
    reveal(running::x_stmt);
    let fin = codegen::g_stmt(st, s, g.cx);
    match st.kind {
        StmtKindModel::While(c, b) => {
            lemma_loop_laid(g, f, st, c, *b.it, s);
            let (s1, r) = codegen::g_expr(c, s, g.cx);
            let s2 = codegen::unless(s1, r, c.span, g.cx);
            let s3 = codegen::g_block(*b.it, s2, g.cx).0;
            assert(poised(g, f, w, l, s, s1, names));
            let a = sim_expr(g, rest, f, w, l, c, s, names, fuel);
            match running::x_expr(c, names, w, g.p, fuel) {
                Ends::Here(w1, Some(q)) => {
                    match w1.cells[q] {
                        ValueModel::Bool(false) => {
                            let o = lemma_unless(g, rest, f, w.heap, l, s, s1, fin, a, w1, r, false);
                            lemma_matched_on(s.env, names, l, o.l, s.next as int, fin.next as int);
                            o
                        },
                        ValueModel::Bool(true) => {
                            let d = lemma_unless(g, rest, f, w.heap, l, s, s1, s2, a, w1, r, true);
                            lemma_matched_on(s.env, names, l, d.l, s.next as int, s2.next as int);
                            assert(ready(g, d.f, s2, s3));
                            assert(poised(g, d.f, w1, d.l, s2, s3, names));
                            let e = sim_block(g, rest, d.f, w1, d.l, *b.it, s2, names, fuel);
                            let xb = running::x_block(*b.it, names, w1, g.p, fuel);
                            let h = lemma_comes_then(
                                g,
                                rest,
                                f,
                                w.heap,
                                l,
                                s,
                                s2,
                                s3,
                                codegen::g_block(*b.it, s2, g.cx).1,
                                d,
                                w1,
                                e,
                                xb,
                            );
                            match xb {
                                Ends::Here(w2, _) => if fuel > 0 {
                                    let f2 = h.f.to(s.code.len() as int);
                                    lemma_go(g, rest, h.f, w2.heap, Opcode::Jmp, f2, w2.heap);
                                    lemma_steps_then(g, on(rest, f, w.heap), on(rest, h.f, w2.heap), h.n, 1);
                                    lemma_link_less(l, h.l, f2.regs, w2.cells, s.next as int, s3.next as int, s.next as int);
                                    assert(poised(g, f2, w2, l, s, fin, names));
                                    let y = sim_while(g, rest, f2, w2, l, st, s, names, (fuel - 1) as nat);
                                    let n = h.n + 1;
                                    match running::x_stmt(st, names, w2, g.p, (fuel - 1) as nat) {
                                        Ends::Here(w3, _) => {
                                            lemma_steps_then(g, on(rest, f, w.heap), on(rest, f2, w2.heap), n, y.n);
                                        },
                                        Ends::Back(x, v) => {
                                            lemma_leaves_then(g, rest, f, w.heap, f2, n, w2.heap, y, x, v);
                                        },
                                        Ends::Lost => {},
                                    }
                                    Led { n: n + y.n, ..y }
                                } else {
                                    h
                                },
                                _ => h,
                            }
                        },
                        _ => a,
                    }
                },
                _ => a,
            }
        },
        _ => Led { f, l, n: 0 },
    }
}

#[verifier::spinoff_prover]
#[verifier::rlimit(60)]
proof fn sim_choice<F>(g: Rig<F>, rest: Seq<FrameModel>, f: FrameModel, w: World, l: Links, st: StmtModel, s: Gen, names: Names, fuel: nat) -> (o: Led)
    requires
        poised(g, f, w, l, s, codegen::g_stmt(st, s, g.cx), names),
        emitted::narrow_stmt(st),
        st.kind is If,
    ensures
        go_on(g, rest, f, w.heap, l, s, codegen::g_stmt(st, s, g.cx), o, running::x_stmt(st, names, w, g.p, fuel)),
    decreases fuel, st, 0int,
{
    reveal(running::x_stmt);
    reveal(codegen::g_stmt);
    let cx = g.cx;
    let t = codegen::g_stmt(st, s, cx);
    match st.kind {
        StmtKindModel::If(c, yes, no) => {
            emitted::lemma_grow_expr(c, s, cx);
            let (s1, r) = codegen::g_expr(c, s, cx);
            emitted::lemma_grow_block(*yes.it, codegen::unless(s1, r, c.span, cx), cx);
            let other = match no {
                Some(b) => {
                    emitted::lemma_grow_block(*b.it, emitted::first_arm(c, *yes.it, None, s1, r, cx), cx);
                    Some(*b.it)
                },
                None => None,
            };
            emitted::lemma_grow_arms(c, *yes.it, other, None, s1, r, cx);
            assert(t == emitted::arms(c, *yes.it, other, None, s1, r, cx));
            lemma_poised_part(g, f, w, l, s, s1, t, names);
            let a = sim_expr(g, rest, f, w, l, c, s, names, fuel);
            match running::x_expr(c, names, w, g.p, fuel) {
                Ends::Here(w1, Some(k)) => {
                    lemma_poised(g, rest, f, w, l, s, s1, t, names, a, w1);
                    let o = match w1.cells[k] {
                        ValueModel::Bool(true) => sim_yes(
                            g,
                            rest,
                            f,
                            w.heap,
                            l,
                            s,
                            s,
                            s1,
                            r,
                            a,
                            w1,
                            c,
                            *yes.it,
                            other,
                            None,
                            names,
                            fuel,
                        ),
                        ValueModel::Bool(false) => match no {
                            Some(b) => sim_no(
                                g,
                                rest,
                                f,
                                w.heap,
                                l,
                                s,
                                s,
                                s1,
                                r,
                                a,
                                w1,
                                c,
                                *yes.it,
                                *b.it,
                                None,
                                names,
                                fuel,
                            ),
                            None => sim_neither(g, rest, f, w.heap, l, s, s, s1, r, a, w1, c, *yes.it, None, names),
                        },
                        _ => a,
                    };
                    if let Ends::Here(w2, _) = running::x_stmt(st, names, w, g.p, fuel) {
                        lemma_matched_on(s.env, names, l, o.l, s.next as int, t.next as int);
                    }
                    o
                },
                _ => a,
            }
        },
        _ => Led { f, l, n: 0 },
    }
}

/// A value goes to the register of a name.
proof fn lemma_assign<F>(
    g: Rig<F>,
    rest: Seq<FrameModel>,
    f: FrameModel,
    heap: HeapModel,
    l: Links,
    s: Gen,
    m: Gen,
    t: Gen,
    a: Led,
    w: World,
    d: u8,
    r: u8,
) -> (o: Led)
    requires
        arrives(g, rest, f, heap, l, s, m, a, w),
        ready(g, a.f, m, t),
        t.code == m.code + seq![bytecode::byte_of(Opcode::Move), d, r],
        t.next == m.next,
        a.l.dom().contains(d as int),
        a.l.dom().contains(r as int),
    ensures
        arrives(
            g,
            rest,
            f,
            heap,
            l,
            s,
            t,
            o,
            World { cells: w.cells.update(a.l[d as int], w.cells[a.l[r as int]]), ..w },
        ),
        o.l == a.l,
{
    let ins = seq![bytecode::byte_of(Opcode::Move), d, r];
    lemma_ins(g, a.f, m, t, ins);
    assert(code_of(g, a.f)[a.f.pc + 0] == ins[0]);
    assert(code_of(g, a.f)[a.f.pc + 1] == ins[1]);
    assert(code_of(g, a.f)[a.f.pc + 2] == ins[2]);
    reveal(step::value_of);
    let v = a.f.regs[r as int];
    let f2 = a.f.with(d as int, v).to(t.code.len() as int);
    lemma_go(g, rest, a.f, w.heap, Opcode::Move, f2, w.heap);
    lemma_steps_then(g, on(rest, f, heap), on(rest, a.f, w.heap), a.n, 1);
    lemma_link_set(a.l, a.f.regs, w.cells, m.next as int, d as int, v);
    Led { f: f2, l: a.l, n: a.n + 1 }
}

/// A statement comes to what it means.
#[verifier::spinoff_prover]
#[verifier::rlimit(60)]
proof fn sim_stmt<F>(g: Rig<F>, rest: Seq<FrameModel>, f: FrameModel, w: World, l: Links, st: StmtModel, s: Gen, names: Names, fuel: nat) -> (o: Led)
    requires
        poised(g, f, w, l, s, codegen::g_stmt(st, s, g.cx), names),
        emitted::narrow_stmt(st),
    ensures
        go_on(g, rest, f, w.heap, l, s, codegen::g_stmt(st, s, g.cx), o, running::x_stmt(st, names, w, g.p, fuel)),
    decreases fuel, st, 1int,
{
    let t = codegen::g_stmt(st, s, g.cx);
    match st.kind {
        StmtKindModel::While(..) => sim_while(g, rest, f, w, l, st, s, names, fuel),
        StmtKindModel::If(..) => sim_choice(g, rest, f, w, l, st, s, names, fuel),
        StmtKindModel::Let { name, ty, mutable, init } => {
            reveal(running::x_stmt);
            reveal(codegen::g_stmt);
            let (s1, r) = codegen::g_expr(init, s, g.cx);
            emitted::lemma_grow_expr(init, s, g.cx);
            assert(poised(g, f, w, l, s, s1, names));
            let a = sim_expr(g, rest, f, w, l, init, s, names, fuel);
            if let Ends::Here(w1, Some(c)) = running::x_expr(init, names, w, g.p, fuel) {
                lemma_matched_on(s.env, names, l, a.l, s.next as int, s1.next as int);
                let env = s1.env.push((name, r));
                let inner = names.push((name, c));
                assert forall|i: int| #![trigger env[i]] #![trigger inner[i]] 0 <= i < env.len() implies env[i].0 == inner[i].0
                    && a.l.dom().contains(env[i].1 as int) && a.l[env[i].1 as int] == inner[i].1 by {
                    if i < s.env.len() {
                        assert(env[i] == s.env[i]);
                        assert(inner[i] == names[i]);
                    }
                }
                assert(matched(t.env, inner, a.l));
            }
            a
        },
        StmtKindModel::Assign(p, v) => {
            reveal(running::x_stmt);
            reveal(codegen::g_stmt);
            let (s1, r) = codegen::g_expr(v, s, g.cx);
            emitted::lemma_grow_expr(v, s, g.cx);
            match p.kind {
                ExprKindModel::Ident(n) => {
                    lemma_name(s.env, names, l, n);
                    match codegen::bound_reg(s1.env, n) {
                        Some(d) => {
                            let ins = seq![bytecode::byte_of(Opcode::Move), d, r];
                            assert(t.code =~= s1.code + ins);
                            emitted::lemma_after_plus(s1, t, ins);
                            lemma_poised_part(g, f, w, l, s, s1, t, names);
                            let a = sim_expr(g, rest, f, w, l, v, s, names, fuel);
                            match running::x_expr(v, names, w, g.p, fuel) {
                                Ends::Here(w1, Some(c)) => {
                                    lemma_poised(g, rest, f, w, l, s, s1, t, names, a, w1);
                                    assert(a.l.dom().contains(d as int));
                                    lemma_assign(g, rest, f, w.heap, l, s, s1, t, a, w1, d, r)
                                },
                                _ => a,
                            }
                        },
                        None => {
                            emitted::lemma_after_self(s1);
                            lemma_poised_part(g, f, w, l, s, s1, t, names);
                            sim_expr(g, rest, f, w, l, v, s, names, fuel)
                        },
                    }
                },
                _ => {
                    emitted::lemma_after_self(s1);
                    lemma_poised_part(g, f, w, l, s, s1, t, names);
                    sim_expr(g, rest, f, w, l, v, s, names, fuel)
                },
            }
        },
        StmtKindModel::Expr(e) => {
            reveal(running::x_stmt);
            reveal(codegen::g_stmt);
            emitted::lemma_grow_expr(e, s, g.cx);
            let a = sim_expr(g, rest, f, w, l, e, s, names, fuel);
            if let Ends::Here(w1, _) = running::x_expr(e, names, w, g.p, fuel) {
                lemma_matched_on(s.env, names, l, a.l, s.next as int, t.next as int);
            }
            a
        },
        StmtKindModel::Return(None) => {
            reveal(running::x_stmt);
            reveal(codegen::g_stmt);
            let ins = seq![bytecode::byte_of(Opcode::ReturnNil)];
            assert(t.code =~= s.code + ins);
            lemma_ins(g, f, s, t, ins);
            assert(code_of(g, f)[f.pc + 0] == ins[0]);
            lemma_step(g, rest, f, w.heap, Opcode::ReturnNil);
            Led { f, l, n: 0 }
        },
        StmtKindModel::Return(Some(e)) => {
            reveal(running::x_stmt);
            reveal(codegen::g_stmt);
            emitted::lemma_grow_expr(e, s, g.cx);
            let (s1, r) = codegen::g_expr(e, s, g.cx);
            let ins = seq![bytecode::byte_of(Opcode::ReturnVal), r];
            assert(t.code =~= s1.code + ins);
            emitted::lemma_after_plus(s1, t, ins);
            lemma_poised_part(g, f, w, l, s, s1, t, names);
            let a = sim_expr(g, rest, f, w, l, e, s, names, fuel);
            if let Ends::Here(w1, Some(c)) = running::x_expr(e, names, w, g.p, fuel) {
                lemma_poised(g, rest, f, w, l, s, s1, t, names, a, w1);
                lemma_ins(g, a.f, s1, t, ins);
                assert(code_of(g, a.f)[a.f.pc + 0] == ins[0]);
                assert(code_of(g, a.f)[a.f.pc + 1] == ins[1]);
                lemma_step(g, rest, a.f, w1.heap, Opcode::ReturnVal);
            }
            a
        },
        _ => {
            reveal(running::x_stmt);
            Led { f, l, n: 0 }
        },
    }
}

// --- whole programs -------------------------------------------------------------------------

/// The functions among the first `k` declarations, by name; of two with one name the later
/// counts.
pub open spec fn program(ds: Seq<DeclModel>, k: int) -> Program
    decreases k,
{
    if k <= 0 {
        Map::empty()
    } else {
        match ds[k - 1] {
            DeclModel::Fn(f) => program(ds, k - 1).insert(f.name, f),
            _ => program(ds, k - 1),
        }
    }
}

/// A compiled module, with the program that it comes from.
pub open spec fn rig<F>(ds: Seq<DeclModel>, src: Seq<u8>, table: Seq<BindingModel<F>>) -> Rig<F> {
    Rig {
        m: codegen::compiled(ds, src),
        table,
        cx: emitted::context(ds, src),
        p: program(ds, ds.len() as int),
    }
}

proof fn lemma_program<F>(ds: Seq<DeclModel>, src: Seq<u8>, table: Seq<BindingModel<F>>, k: int, n: Seq<char>)
    requires
        emitted::addressable(ds, src),
        0 <= k <= ds.len(),
        program(ds, k).dom().contains(n),
    ensures
        codegen::fn_places(ds, k).dom().contains(n),
        ({
            let cx = emitted::context(ds, src);
            let m = codegen::compiled(ds, src);
            let f = program(ds, k)[n];
            let id = codegen::fn_places(ds, k)[n];
            exists|consts: Seq<ConstModel>, fns: Seq<FunctionModel>|
                ({
                    let (g, c, _) = #[trigger] codegen::g_fn(f, consts, fns, cx);
                    &&& id < m.functions.len()
                    &&& m.functions[id as int] == g
                    &&& kept(c, m.constants)
                    &&& g.code.len() <= 0x7FFF
                    &&& emitted::registers(f, consts, fns, cx) <= 255
                    &&& emitted::narrow_block(f.body)
                })
        }),
    decreases k,
{
    let cx = emitted::context(ds, src);
    let m = codegen::compiled(ds, src);
    let all = codegen::g_decls(ds, ds.len() as int, cx);
    match ds[k - 1] {
        DeclModel::Fn(f) if f.name == n => {
            let (tops, consts, fns) = codegen::g_decls(ds, k - 1, cx);
            let (g, c, _) = codegen::g_fn(f, consts, fns, cx);
            emitted::lemma_grow_decls(ds, k, ds.len() as int, cx);
            emitted::lemma_counts(ds, k - 1, ds.len() as int, cx);
            emitted::lemma_counts(ds, ds.len() as int, ds.len() as int, cx);
            let here = codegen::g_decls(ds, k, cx);
            let i = tops.len() as int;
            assert(here.0[i] == g);
            assert(all.0[i] == g);
            assert(m.functions[i] == g);
            assert(emitted::modest(ds, k - 1, cx));
            assert(codegen::fn_places(ds, k)[n] == i);
        },
        _ => {
            lemma_program(ds, src, table, k - 1, n);
        },
    }
}

proof fn lemma_rig<F>(ds: Seq<DeclModel>, src: Seq<u8>, table: Seq<BindingModel<F>>)
    requires
        emitted::addressable(ds, src),
    ensures
        fits(rig(ds, src, table)),
{
    let g = rig(ds, src, table);
    assert forall|n: Seq<char>| #[trigger] g.p.dom().contains(n) implies exists|
        consts: Seq<ConstModel>,
        fns: Seq<FunctionModel>,
    | stands_in(g, n, consts, fns) by {
        lemma_program(ds, src, table, ds.len() as int, n);
        let f = g.p[n];
        let id = g.cx.index[n];
        let (consts, fns) = choose|consts: Seq<ConstModel>, fns: Seq<FunctionModel>|
            ({
                let (d, c, _) = #[trigger] codegen::g_fn(f, consts, fns, g.cx);
                &&& id < g.m.functions.len()
                &&& g.m.functions[id as int] == d
                &&& kept(c, g.m.constants)
                &&& d.code.len() <= 0x7FFF
                &&& emitted::registers(f, consts, fns, g.cx) <= 255
                &&& emitted::narrow_block(f.body)
            });
        assert(stands_in(g, n, consts, fns));
    }
}

/// Compiling keeps the meaning: where a function of a program comes to a value on some
/// arguments, the machine that enters the compiled function with those arguments in its first
/// registers returns that value, with the heap then, after some number of steps and however
/// many more it may take.
pub proof fn law_compiling_keeps_meaning<F>(
    ds: Seq<DeclModel>,
    src: Seq<u8>,
    table: Seq<BindingModel<F>>,
    name: Seq<char>,
    args: Seq<ValueModel>,
    heap: HeapModel,
    fuel: nat,
    h: HeapModel,
    v: ValueModel,
) -> (n: nat)
    requires
        emitted::addressable(ds, src),
        program(ds, ds.len() as int).dom().contains(name),
        args.len() == program(ds, ds.len() as int)[name].params.len(),
        running::x_call(program(ds, ds.len() as int)[name], args, heap, program(ds, ds.len() as int), fuel) == Some((h, v)),
    ensures
        ({
            let m = codegen::compiled(ds, src);
            let id = codegen::fn_places(ds, ds.len() as int)[name];
            let start = MachineModel {
                frames: seq![frame::entry_frame(id, m.functions[id as int].max_register as int, args, None)],
                heap,
            };
            &&& id < m.functions.len()
            &&& args.len() <= m.functions[id as int].max_register
            &&& forall|k: nat| k >= n ==> #[trigger] step::ran(m, table, start, k) == (
                MachineModel { frames: Seq::empty(), heap: h },
                StopModel::Returned(v),
            )
        }),
{
    let g = rig(ds, src, table);
    lemma_rig(ds, src, table);
    let p = g.p;
    let (consts, fns) = choose|consts: Seq<ConstModel>, fns: Seq<FunctionModel>| stands_in(g, name, consts, fns);
    assert(stands_in(g, name, consts, fns));
    let id = g.cx.index[name];
    let fr = frame::entry_frame(id, g.m.functions[id as int].max_register as int, args, None);
    let rest = Seq::<FrameModel>::empty();
    lemma_enter(g, name, consts, fns, args, None);
    let l = first_links(args.len() as int);
    let w = World { cells: args, heap };
    let start = entry_gen(p[name], consts, fns);
    let names = running::first_cells(p[name].params);
    let b = sim_block(g, rest, fr, w, l, p[name].body, start, names, fuel);
    let out = running::x_block(p[name].body, names, w, p, fuel);
    let x = lemma_hand_back(g, name, consts, fns, rest, fr, heap, l, b, out, h, v);
    let s = on(rest, fr, heap);
    assert(s.frames =~= seq![fr]);
    let n = x.n + 1;
    assert forall|k: nat| k >= n implies #[trigger] step::ran(g.m, table, s, k) == (
        MachineModel { frames: Seq::empty(), heap: h },
        StopModel::Returned(v),
    ) by {
        let more = (k - x.n) as nat;
        lemma_ran(g, s, on(rest, x.f, h), x.n, more);
        assert(x.n + more == k);
        assert(rest.push(x.f).drop_last() =~= rest);
    }
    n
}


// --- closures --------------------------------------------------------------------------------

/// The names of a closure, what it captured first, each with its cell.
pub open spec fn closure_names(caps: Seq<Seq<char>>, ps: Seq<ParamModel>) -> Names {
    Seq::new(
        caps.len() + ps.len(),
        |i: int|
            (
                if i < caps.len() {
                    caps[i]
                } else {
                    ps[i - caps.len()].name
                },
                i,
            ),
    )
}

/// What a closure hands back, once its body came to its end.
pub open spec fn closure_result(e: Ends<Option<int>>) -> Option<(HeapModel, ValueModel)> {
    match e {
        Ends::Here(w, Some(c)) => Some((w.heap, w.cells[c])),
        Ends::Back(h, v) => Some((h, v)),
        _ => None,
    }
}

/// Whether a function of the module is what a closure was compiled to.
pub open spec fn closure_stands<F>(
    g: Rig<F>,
    id: u16,
    name: Seq<char>,
    caps: Seq<Seq<char>>,
    ps: Seq<ParamModel>,
    body: ExprModel,
    s: Gen,
) -> bool {
    let (t, r) = codegen::g_expr(body, codegen::closure_start(caps, ps, s), g.cx);
    &&& id < g.m.functions.len()
    &&& g.m.functions[id as int] == codegen::closure_fn(name, caps.len() + ps.len(), t, r, body.span, g.cx)
    &&& kept(t.consts, g.m.constants)
    &&& g.m.functions[id as int].code.len() <= 0x7FFF
    &&& t.next <= 255
    &&& emitted::narrow(body)
}

/// A closure that is entered with what it captured and its arguments hands back what its body
/// means where the captured names and the parameters have these values.
#[verifier::spinoff_prover]
#[verifier::rlimit(60)]
pub proof fn law_closure_bodies_keep_meaning<F>(
    g: Rig<F>,
    id: u16,
    name: Seq<char>,
    caps: Seq<Seq<char>>,
    ps: Seq<ParamModel>,
    body: ExprModel,
    s: Gen,
    rest: Seq<FrameModel>,
    vs: Seq<ValueModel>,
    ret: Option<u8>,
    heap: HeapModel,
    fuel: nat,
    h: HeapModel,
    v: ValueModel,
) -> (n: nat)
    requires
        fits(g),
        closure_stands(g, id, name, caps, ps, body, s),
        vs.len() == caps.len() + ps.len(),
        closure_result(running::x_expr(body, closure_names(caps, ps), World { cells: vs, heap }, g.p, fuel)) == Some((h, v)),
    ensures
        ({
            let start = on(rest, frame::entry_frame(id, g.m.functions[id as int].max_register as int, vs, ret), heap);
            steps(g, start, n) matches Some(m) && step::step(g.m, g.table, m) == step::left(rest, ret, v, h)
        }),
{
    let start = codegen::closure_start(caps, ps, s);
    let (t, r) = codegen::g_expr(body, start, g.cx);
    let fr = frame::entry_frame(id, g.m.functions[id as int].max_register as int, vs, ret);
    let k = vs.len() as int;
    let names = closure_names(caps, ps);
    let w = World { cells: vs, heap };
    let u = t.op(Opcode::ReturnVal, body.span, g.cx).byte(r);
    let ins = seq![bytecode::byte_of(Opcode::ReturnVal), r];
    emitted::lemma_grow_expr(body, start, g.cx);
    binding::law_closure_registers(caps, ps, s);
    lemma_closure_code(caps, ps, s);
    assert(u.code =~= t.code + ins);
    assert(g.m.functions[id as int].code == u.code);
    assert(g.m.functions[id as int].max_register == t.next);
    lemma_first_links(vs, fr.regs, k);
    let l = first_links(k);
    assert forall|i: int| #![trigger start.env[i]] #![trigger names[i]] 0 <= i < start.env.len() implies start.env[i].0
        == names[i].0 && l.dom().contains(start.env[i].1 as int) && l[start.env[i].1 as int] == names[i].1 by {
        if i >= caps.len() {
            let j = i - caps.len();
            assert(start.env[caps.len() + j] == (ps[j].name, (caps.len() + j) as u8));
        }
    }
    assert(poised(g, fr, w, l, start, t, names));
    let e = running::x_expr(body, names, w, g.p, fuel);
    let o = sim_expr(g, rest, fr, w, l, body, start, names, fuel);
    if let Ends::Here(x, c) = e {
        assert(u.code[t.code.len() as int] == ins[0]);
        assert(u.code[t.code.len() + 1 as int] == ins[1]);
        lemma_step(g, rest, o.f, h, Opcode::ReturnVal);
    }
    assert(rest.push(o.f).drop_last() =~= rest);
    o.n
}

proof fn lemma_closure_code(caps: Seq<Seq<char>>, ps: Seq<ParamModel>, s: Gen)
    ensures
        codegen::closure_start(caps, ps, s).code.len() == 0,
{
    let b = codegen::blank(s.consts, s.fns);
    lemma_names_code(caps, caps.len() as int, b);
    lemma_params_code(ps, ps.len() as int, codegen::bind_names(caps, caps.len() as int, b));
}

proof fn lemma_names_code(ns: Seq<Seq<char>>, k: int, b: Gen)
    ensures
        codegen::bind_names(ns, k, b).code == b.code,
    decreases k,
{
    if k > 0 {
        lemma_names_code(ns, k - 1, b);
    }
}

proof fn lemma_params_code(ps: Seq<ParamModel>, k: int, b: Gen)
    ensures
        codegen::bind_params(ps, k, b).code == b.code,
    decreases k,
{
    if k > 0 {
        lemma_params_code(ps, k - 1, b);
    }
}

} // verus!
