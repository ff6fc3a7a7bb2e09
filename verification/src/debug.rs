//! The in-process breakpoint table.
//!
//! A breakpoint is named by `(file_id, line)` and installed by writing the trap
//! opcode over the first instruction of that line; the line tables of the module
//! say where that is. Clearing a breakpoint writes the byte back.

use crate::bytecode;
use crate::bytecode::{FunctionBytecode, FunctionModel, Module, ModuleModel, Opcode};
use crate::text;
use crate::text::push_dec;
use crate::views;
use crate::vm::value::ValueModel;
use crate::vm::{CallFrame, Value};
use vstd::prelude::*;

verus! {

/// Stable id assigned to one breakpoint.
#[derive(Clone, Copy, Debug, Default, PartialEq, Eq, PartialOrd, Ord, Hash, Structural)]
pub struct BreakpointId(pub u32);

/// One installed breakpoint.
#[derive(Debug, PartialEq, Eq)]
pub struct Breakpoint {
    /// File id (as the compiler knows it).
    pub file_id: u32,
    /// 1-based line.
    pub line: u32,
    /// Optional condition expression.
    pub condition: Option<String>,
    /// Optional hit count: only fires every Nth time.
    pub hit_count: Option<u32>,
    /// Patched function id (resolved at install time).
    pub function_id: u16,
    /// Patched byte offset within that function.
    pub pc: usize,
    /// The byte that stood there before any breakpoint.
    pub original: u8,
    /// Times this breakpoint has been hit.
    pub hits: u32,
}

/// Model of a breakpoint.
#[verifier::ext_equal]
pub struct BreakpointModel {
    pub file_id: u32,
    pub line: u32,
    pub condition: Option<Seq<char>>,
    pub hit_count: Option<u32>,
    pub function_id: u16,
    pub pc: int,
    pub original: u8,
    pub hits: u32,
}

/// The text of an optional string.
pub open spec fn opt_text(o: Option<String>) -> Option<Seq<char>> {
    match o {
        Some(s) => Some(s@),
        None => None,
    }
}

impl View for Breakpoint {
    type V = BreakpointModel;

    open spec fn view(&self) -> BreakpointModel {
        BreakpointModel {
            file_id: self.file_id,
            line: self.line,
            condition: opt_text(self.condition),
            hit_count: self.hit_count,
            function_id: self.function_id,
            pc: self.pc as int,
            original: self.original,
            hits: self.hits,
        }
    }
}

impl Clone for Breakpoint {
    fn clone(&self) -> (r: Breakpoint)
        ensures
            r@ == self@,
    {
        let condition = match &self.condition {
            Some(s) => Some(s.clone()),
            None => None,
        };
        Breakpoint {
            file_id: self.file_id,
            line: self.line,
            condition,
            hit_count: self.hit_count,
            function_id: self.function_id,
            pc: self.pc,
            original: self.original,
            hits: self.hits,
        }
    }
}

/// Breakpoints by id, in increasing order.
pub type Installed = Seq<(BreakpointId, BreakpointModel)>;

/// Model of the table.
#[verifier::ext_equal]
pub struct TableModel {
    pub next: u32,
    pub points: Installed,
}

/// The breakpoints behind a list of entries.
pub open spec fn entries(v: Seq<(BreakpointId, Breakpoint)>) -> Installed {
    Seq::new(v.len(), |i: int| (v[i].0, v[i].1@))
}

/// Whether ids increase and all lie below `next`.
pub open spec fn ordered(points: Installed, next: u32) -> bool {
    &&& forall|i: int, j: int| 0 <= i < j < points.len() ==> (#[trigger] points[i]).0.0 < (#[trigger] points[j]).0.0
    &&& forall|i: int| 0 <= i < points.len() ==> (#[trigger] points[i]).0.0 < next
}

// --- where a line starts --------------------------------------------------------

/// The id of the function at place `i`.
pub open spec fn function_number(i: int) -> u16 {
    (i % 0x1_0000) as u16
}

/// The first breakpoint at `(function_id, pc)`, from the `k`th entry on.
pub open spec fn hit_place(points: Installed, function_id: u16, pc: int, k: int) -> Option<int>
    decreases points.len() - k,
{
    if k < 0 || k >= points.len() {
        None
    } else if points[k].1.function_id == function_id && points[k].1.pc == pc {
        Some(k)
    } else {
        hit_place(points, function_id, pc, k + 1)
    }
}

/// The byte at a place as it was before any breakpoint: where a trap stands, the byte
/// that the breakpoint there replaced.
pub open spec fn underlying(points: Installed, function_id: u16, pc: int, byte: u8) -> u8 {
    match hit_place(points, function_id, pc, 0) {
        Some(k) => if byte == trap() {
            points[k].1.original
        } else {
            byte
        },
        None => byte,
    }
}

/// The first instruction from `pc` on that belongs to `line`. A byte that names no
/// opcode is stepped over by itself.
pub open spec fn site_in(f: FunctionModel, function_id: u16, points: Installed, line: u32, pc: int) -> Option<int>
    decreases (if pc < f.code.len() {
        f.code.len() - pc
    } else {
        0
    }),
{
    if pc < 0 || pc >= f.code.len() {
        None
    } else {
        match bytecode::op_of(underlying(points, function_id, pc, f.code[pc])) {
            Some(op) => if pc < f.lines.len() && f.lines[pc] == line {
                Some(pc)
            } else {
                site_in(f, function_id, points, line, pc + bytecode::len_of(op, f.code, pc))
            },
            None => site_in(f, function_id, points, line, pc + 1),
        }
    }
}

/// The first instruction of `line`, in the functions from the `i`th on.
pub open spec fn site(fs: Seq<FunctionModel>, points: Installed, line: u32, i: int) -> Option<(int, int)>
    decreases fs.len() - i,
{
    if i < 0 || i >= fs.len() {
        None
    } else {
        match site_in(fs[i], function_number(i), points, line, 0) {
            Some(pc) => Some((i, pc)),
            None => site(fs, points, line, i + 1),
        }
    }
}

/// The functions with one code byte replaced.
pub open spec fn with_byte(fs: Seq<FunctionModel>, i: int, pc: int, byte: u8) -> Seq<FunctionModel> {
    fs.update(i, FunctionModel { code: fs[i].code.update(pc, byte), ..fs[i] })
}

/// The byte of the trap opcode.
pub open spec fn trap() -> u8 {
    0xFF
}

// --- what the table does --------------------------------------------------------

/// The outcome of installing a breakpoint: the table and the functions, if the
/// line has an instruction.
pub open spec fn set_at(t: TableModel, fs: Seq<FunctionModel>, file_id: u32, line: u32) -> Option<
    (TableModel, Seq<FunctionModel>),
> {
    match site(fs, t.points, line, 0) {
        None => None,
        Some((i, pc)) => Some(
            (
                TableModel {
                    next: (t.next + 1) as u32,
                    points: t.points.push(
                        (
                            BreakpointId(t.next),
                            BreakpointModel {
                                file_id,
                                line,
                                condition: None,
                                hit_count: None,
                                function_id: function_number(i),
                                pc,
                                original: underlying(t.points, function_number(i), pc, fs[i].code[pc]),
                                hits: 0,
                            },
                        ),
                    ),
                },
                with_byte(fs, i, pc, trap()),
            ),
        ),
    }
}

/// The place of an id in the table, from the `k`th entry on.
pub open spec fn place(points: Installed, id: BreakpointId, k: int) -> Option<int>
    decreases points.len() - k,
{
    if k < 0 || k >= points.len() {
        None
    } else if points[k].0 == id {
        Some(k)
    } else {
        place(points, id, k + 1)
    }
}

/// The functions once a breakpoint is gone, with these left: the byte under it is
/// written back, where its place still exists and no other breakpoint stands there.
pub open spec fn restored(fs: Seq<FunctionModel>, p: BreakpointModel, rest: Installed) -> Seq<FunctionModel> {
    if p.function_id < fs.len() && 0 <= p.pc < fs[p.function_id as int].code.len() && hit_place(
        rest,
        p.function_id,
        p.pc,
        0,
    ) is None {
        with_byte(fs, p.function_id as int, p.pc, p.original)
    } else {
        fs
    }
}

/// The functions, the breakpoints kept and the ids dropped, once the first `k`
/// breakpoints have been installed anew.
pub open spec fn rearmed(points: Installed, fs: Seq<FunctionModel>, k: int) -> (
    Seq<FunctionModel>,
    Installed,
    Seq<BreakpointId>,
)
    decreases k,
{
    if k <= 0 {
        (fs, Seq::empty(), Seq::empty())
    } else {
        let before = rearmed(points, fs, k - 1);
        let (id, p) = points[k - 1];
        match site(before.0, before.1, p.line, 0) {
            Some((i, pc)) => (
                with_byte(before.0, i, pc, trap()),
                before.1.push(
                    (
                        id,
                        BreakpointModel {
                            function_id: function_number(i),
                            pc,
                            original: underlying(before.1, function_number(i), pc, before.0[i].code[pc]),
                            ..p
                        },
                    ),
                ),
                before.2,
            ),
            None => (before.0, before.1, before.2.push(id)),
        }
    }
}

// --- laws -----------------------------------------------------------------------

proof fn lemma_site_in(f: FunctionModel, function_id: u16, points: Installed, line: u32, pc: int)
    ensures
        site_in(f, function_id, points, line, pc) matches Some(q) ==> pc <= q < f.code.len() && q < f.lines.len()
            && f.lines[q] == line,
    decreases (if pc < f.code.len() {
        f.code.len() - pc
    } else {
        0
    }),
{
    if 0 <= pc < f.code.len() {
        match bytecode::op_of(underlying(points, function_id, pc, f.code[pc])) {
            Some(op) => {
                lemma_site_in(f, function_id, points, line, pc + bytecode::len_of(op, f.code, pc));
            },
            None => {
                lemma_site_in(f, function_id, points, line, pc + 1);
            },
        }
    }
}

proof fn lemma_site(fs: Seq<FunctionModel>, points: Installed, line: u32, i: int)
    ensures
        site(fs, points, line, i) matches Some((j, pc)) ==> i <= j < fs.len() && 0 <= pc < fs[j].code.len() && pc
            < fs[j].lines.len() && fs[j].lines[pc] == line,
    decreases fs.len() - i,
{
    if 0 <= i < fs.len() {
        lemma_site_in(fs[i], function_number(i), points, line, 0);
        lemma_site(fs, points, line, i + 1);
    }
}

/// A breakpoint is installed on an instruction of its line, and nothing else in
/// the code changes.
pub proof fn law_set_traps_the_line(t: TableModel, fs: Seq<FunctionModel>, file_id: u32, line: u32)
    requires
        set_at(t, fs, file_id, line) is Some,
    ensures
        ({
            let after = set_at(t, fs, file_id, line)->0;
            let p = after.0.points.last().1;
            exists|i: int|
                {
                    &&& 0 <= i < fs.len()
                    &&& p.function_id == function_number(i)
                    &&& 0 <= p.pc < (#[trigger] fs[i]).code.len()
                    &&& p.pc < fs[i].lines.len()
                    &&& fs[i].lines[p.pc] == line
                    &&& p.original == underlying(t.points, p.function_id, p.pc, fs[i].code[p.pc])
                    &&& after.1 == with_byte(fs, i, p.pc, trap())
                }
        }),
{
    lemma_site(fs, t.points, line, 0);
    let (i, pc) = site(fs, t.points, line, 0)->0;
    assert(0 <= i < fs.len() && 0 <= pc < fs[i].code.len());
}

/// Whether a breakpoint stands at a place.
pub open spec fn stands(points: Installed, i: int, pc: int) -> bool {
    exists|k: int| 0 <= k < points.len() && (#[trigger] points[k]).1.function_id == i && points[k].1.pc == pc
}

/// Whether functions are those of `plain` with a trap at each breakpoint, and each
/// breakpoint remembers the byte of `plain`.
pub open spec fn laid(plain: Seq<FunctionModel>, fs: Seq<FunctionModel>, points: Installed) -> bool {
    &&& fs.len() == plain.len() <= 0x1_0000
    &&& forall|k: int|
        0 <= k < points.len() ==> {
            let p = (#[trigger] points[k]).1;
            &&& p.function_id < plain.len()
            &&& 0 <= p.pc < plain[p.function_id as int].code.len()
            &&& p.original == plain[p.function_id as int].code[p.pc]
        }
    &&& forall|i: int|
        0 <= i < fs.len() ==> {
            &&& (#[trigger] fs[i]).code.len() == plain[i].code.len()
            &&& fs[i] == (FunctionModel { code: fs[i].code, ..plain[i] })
        }
    &&& forall|i: int, pc: int|
        0 <= i < fs.len() && 0 <= pc < fs[i].code.len() ==> (#[trigger] fs[i].code[pc]) == if stands(points, i, pc) {
            trap()
        } else {
            plain[i].code[pc]
        }
}

proof fn lemma_hit(points: Installed, i: int, pc: int, k: int)
    requires
        0 <= i < 0x1_0000,
        0 <= k <= points.len(),
    ensures
        ({
            let r = hit_place(points, function_number(i), pc, k);
            &&& r matches Some(j) ==> k <= j < points.len() && points[j].1.function_id == i && points[j].1.pc == pc
            &&& r is None ==> forall|j: int|
                k <= j < points.len() ==> !((#[trigger] points[j]).1.function_id == i && points[j].1.pc == pc)
        }),
    decreases points.len() - k,
{
    if k < points.len() && !(points[k].1.function_id == i && points[k].1.pc == pc) {
        lemma_hit(points, i, pc, k + 1);
    }
}

/// Under traps that are laid, the byte of the plain code shows.
proof fn lemma_underlying(plain: Seq<FunctionModel>, fs: Seq<FunctionModel>, points: Installed, i: int, pc: int)
    requires
        laid(plain, fs, points),
        0 <= i < fs.len(),
        0 <= pc < fs[i].code.len(),
    ensures
        underlying(points, function_number(i), pc, fs[i].code[pc]) == plain[i].code[pc],
{
    lemma_hit(points, i, pc, 0);
    assert(fs[i].code[pc] == if stands(points, i, pc) {
        trap()
    } else {
        plain[i].code[pc]
    });
    if let Some(k) = hit_place(points, function_number(i), pc, 0) {
        assert(points[k].1.function_id == i);
    }
}

/// One more trap at a place.
proof fn lemma_lay(
    plain: Seq<FunctionModel>,
    fs: Seq<FunctionModel>,
    points: Installed,
    i: int,
    pc: int,
    e: (BreakpointId, BreakpointModel),
)
    requires
        laid(plain, fs, points),
        0 <= i < fs.len(),
        0 <= pc < fs[i].code.len(),
        e.1.function_id == function_number(i),
        e.1.pc == pc,
        e.1.original == underlying(points, function_number(i), pc, fs[i].code[pc]),
    ensures
        laid(plain, with_byte(fs, i, pc, trap()), points.push(e)),
{
    lemma_underlying(plain, fs, points, i, pc);
    let more = points.push(e);
    let gs = with_byte(fs, i, pc, trap());
    assert forall|a: int, b: int| 0 <= a < gs.len() && 0 <= b < gs[a].code.len() implies (#[trigger] gs[a].code[b])
        == if stands(more, a, b) {
        trap()
    } else {
        plain[a].code[b]
    } by {
        if a == i && b == pc {
            assert(more[points.len() as int] == e);
        } else {
            assert(gs[a].code[b] == fs[a].code[b]);
            if stands(points, a, b) {
                let k = choose|k: int|
                    0 <= k < points.len() && (#[trigger] points[k]).1.function_id == a && points[k].1.pc == b;
                assert(more[k] == points[k]);
            } else if stands(more, a, b) {
                let k = choose|k: int| 0 <= k < more.len() && (#[trigger] more[k]).1.function_id == a && more[k].1.pc == b;
                assert(k < points.len());
                assert(points[k] == more[k]);
            }
        }
    }
    assert forall|k: int| 0 <= k < more.len() implies {
        let p = (#[trigger] more[k]).1;
        &&& p.function_id < plain.len()
        &&& 0 <= p.pc < plain[p.function_id as int].code.len()
        &&& p.original == plain[p.function_id as int].code[p.pc]
    } by {
        if k < points.len() {
            assert(more[k] == points[k]);
        }
    }
}

/// Setting a breakpoint lays one trap more.
pub proof fn law_set_lays_a_trap(plain: Seq<FunctionModel>, t: TableModel, fs: Seq<FunctionModel>, file_id: u32, line: u32)
    requires
        laid(plain, fs, t.points),
        set_at(t, fs, file_id, line) is Some,
    ensures
        ({
            let after = set_at(t, fs, file_id, line)->0;
            laid(plain, after.1, after.0.points)
        }),
{
    let after = set_at(t, fs, file_id, line)->0;
    lemma_site(fs, t.points, line, 0);
    let (i, pc) = site(fs, t.points, line, 0)->0;
    lemma_lay(plain, fs, t.points, i, pc, after.0.points.last());
    assert(after.0.points =~= t.points.push(after.0.points.last()));
}

/// Clearing a breakpoint takes its trap away, unless another one stands at that place.
pub proof fn law_clear_takes_a_trap(plain: Seq<FunctionModel>, points: Installed, fs: Seq<FunctionModel>, k: int)
    requires
        laid(plain, fs, points),
        0 <= k < points.len(),
    ensures
        laid(plain, restored(fs, points[k].1, points.remove(k)), points.remove(k)),
{
    let p = points[k].1;
    let rest = points.remove(k);
    let gs = restored(fs, p, rest);
    lemma_hit(rest, p.function_id as int, p.pc, 0);
    assert(fs[p.function_id as int].code.len() == plain[p.function_id as int].code.len());
    assert forall|j: int| 0 <= j < rest.len() implies (#[trigger] rest[j]) == points[if j < k {
        j
    } else {
        j + 1
    }] by {}
    assert forall|a: int, b: int| 0 <= a < gs.len() && 0 <= b < gs[a].code.len() implies (#[trigger] gs[a].code[b])
        == if stands(rest, a, b) {
        trap()
    } else {
        plain[a].code[b]
    } by {
        assert(fs[a].code[b] == if stands(points, a, b) {
            trap()
        } else {
            plain[a].code[b]
        });
        if stands(rest, a, b) {
            let j = choose|j: int| 0 <= j < rest.len() && (#[trigger] rest[j]).1.function_id == a && rest[j].1.pc == b;
            assert(points[if j < k {
                j
            } else {
                j + 1
            }] == rest[j]);
            assert(stands(points, a, b));
        } else if stands(points, a, b) && !(a == p.function_id && b == p.pc) {
            let j = choose|j: int|
                0 <= j < points.len() && (#[trigger] points[j]).1.function_id == a && points[j].1.pc == b;
            assert(rest[if j < k {
                j
            } else {
                j - 1
            }] == points[j]);
        }
        if a == p.function_id && b == p.pc {
            if let Some(j) = hit_place(rest, p.function_id, p.pc, 0) {
                assert(rest[j].1.function_id == a);
            }
        }
    }
    assert forall|j: int| 0 <= j < rest.len() implies {
        let q = (#[trigger] rest[j]).1;
        &&& q.function_id < plain.len()
        &&& 0 <= q.pc < plain[q.function_id as int].code.len()
        &&& q.original == plain[q.function_id as int].code[q.pc]
    } by {
        assert(rest[j] == points[if j < k {
            j
        } else {
            j + 1
        }]);
    }
}

/// A request to the table.
pub enum Act {
    /// Set a breakpoint on a line of a file.
    Install(u32, u32),
    /// Clear a breakpoint.
    Remove(BreakpointId),
}

/// The table and the functions after a request.
pub open spec fn acted(t: TableModel, fs: Seq<FunctionModel>, a: Act) -> (TableModel, Seq<FunctionModel>) {
    match a {
        Act::Install(file_id, line) => match set_at(t, fs, file_id, line) {
            Some(after) => after,
            None => (t, fs),
        },
        Act::Remove(id) => match place(t.points, id, 0) {
            Some(k) => (
                TableModel { points: t.points.remove(k), ..t },
                restored(fs, t.points[k].1, t.points.remove(k)),
            ),
            None => (t, fs),
        },
    }
}

/// The table and the functions after the first `k` of some requests, from an empty table.
pub open spec fn after_acts(fs: Seq<FunctionModel>, acts: Seq<Act>, k: int) -> (TableModel, Seq<FunctionModel>)
    decreases k,
{
    if k <= 0 {
        (TableModel { next: 0, points: Seq::empty() }, fs)
    } else {
        let (t, gs) = after_acts(fs, acts, k - 1);
        acted(t, gs, acts[k - 1])
    }
}

proof fn lemma_place(points: Installed, id: BreakpointId, k: int)
    requires
        0 <= k,
    ensures
        place(points, id, k) matches Some(j) ==> k <= j < points.len() && points[j].0 == id,
    decreases points.len() - k,
{
    if k < points.len() && points[k].0 != id {
        lemma_place(points, id, k + 1);
    }
}

proof fn lemma_acts(fs: Seq<FunctionModel>, acts: Seq<Act>, k: int)
    requires
        fs.len() <= 0x1_0000,
    ensures
        laid(fs, after_acts(fs, acts, k).1, after_acts(fs, acts, k).0.points),
    decreases k,
{
    if k > 0 {
        lemma_acts(fs, acts, k - 1);
        let (t, gs) = after_acts(fs, acts, k - 1);
        match acts[k - 1] {
            Act::Install(file_id, line) => {
                if set_at(t, gs, file_id, line) is Some {
                    law_set_lays_a_trap(fs, t, gs, file_id, line);
                }
            },
            Act::Remove(id) => {
                lemma_place(t.points, id, 0);
                if let Some(j) = place(t.points, id, 0) {
                    law_clear_takes_a_trap(fs, t.points, gs, j);
                }
            },
        }
    }
}

/// However breakpoints were set and cleared, in whatever order, the code is as it was
/// once none is left; until then it differs by the traps alone.
pub proof fn law_clearing_all_restores_the_code(fs: Seq<FunctionModel>, acts: Seq<Act>)
    requires
        fs.len() <= 0x1_0000,
    ensures
        ({
            let (t, gs) = after_acts(fs, acts, acts.len() as int);
            &&& laid(fs, gs, t.points)
            &&& t.points.len() == 0 ==> gs == fs
        }),
{
    let (t, gs) = after_acts(fs, acts, acts.len() as int);
    lemma_acts(fs, acts, acts.len() as int);
    if t.points.len() == 0 {
        assert forall|i: int| 0 <= i < gs.len() implies gs[i] == fs[i] by {
            assert forall|pc: int| 0 <= pc < gs[i].code.len() implies gs[i].code[pc] == fs[i].code[pc] by {
                assert(!stands(t.points, i, pc));
            }
            assert(gs[i].code =~= fs[i].code);
        }
        assert(gs =~= fs);
    }
}

proof fn lemma_rearm_lays(points: Installed, fs: Seq<FunctionModel>, k: int)
    requires
        fs.len() <= 0x1_0000,
        0 <= k <= points.len(),
    ensures
        laid(fs, rearmed(points, fs, k).0, rearmed(points, fs, k).1),
    decreases k,
{
    if k > 0 {
        lemma_rearm_lays(points, fs, k - 1);
        let b = rearmed(points, fs, k - 1);
        let r = rearmed(points, fs, k);
        lemma_site(b.0, b.1, points[k - 1].1.line, 0);
        if let Some((i, pc)) = site(b.0, b.1, points[k - 1].1.line, 0) {
            lemma_lay(fs, b.0, b.1, i, pc, r.1.last());
            assert(r.1 =~= b.1.push(r.1.last()));
        }
    }
}

/// Re-arming lays the traps of the breakpoints that it keeps, and no others.
pub proof fn law_rearm_lays_traps(points: Installed, fs: Seq<FunctionModel>)
    requires
        fs.len() <= 0x1_0000,
    ensures
        ({
            let r = rearmed(points, fs, points.len() as int);
            laid(fs, r.0, r.1)
        }),
{
    lemma_rearm_lays(points, fs, points.len() as int);
}

/// Whether an id is among some breakpoints.
pub open spec fn holds_id(points: Installed, id: BreakpointId) -> bool {
    exists|i: int| 0 <= i < points.len() && (#[trigger] points[i]).0 == id
}

proof fn lemma_rearmed(points: Installed, next: u32, fs: Seq<FunctionModel>, k: int)
    requires
        ordered(points, next),
        0 <= k <= points.len(),
    ensures
        ({
            let r = rearmed(points, fs, k);
            &&& ordered(r.1, if k < points.len() { points[k].0.0 } else { next })
            &&& r.1.len() + r.2.len() == k
            &&& forall|j: int| 0 <= j < k ==> (holds_id(r.1, (#[trigger] points[j]).0) != r.2.contains(points[j].0))
            &&& forall|id: BreakpointId| #[trigger] holds_id(r.1, id) ==> holds_id(points.take(k), id)
            &&& forall|id: BreakpointId| #[trigger] r.2.contains(id) ==> holds_id(points.take(k), id)
        }),
    decreases k,
{
    if k > 0 {
        lemma_rearmed(points, next, fs, k - 1);
        let b = rearmed(points, fs, k - 1);
        let r = rearmed(points, fs, k);
        let last = points[k - 1].0;
        assert(forall|id: BreakpointId| holds_id(points.take(k - 1), id) ==> id.0 < last.0) by {
            assert forall|id: BreakpointId| holds_id(points.take(k - 1), id) implies id.0 < last.0 by {
                let i = choose|i: int| 0 <= i < k - 1 && (#[trigger] points.take(k - 1)[i]).0 == id;
                assert(points[i].0 == id);
            }
        }
        assert forall|id: BreakpointId| holds_id(points.take(k - 1), id) implies holds_id(points.take(k), id) by {
            let i = choose|i: int| 0 <= i < k - 1 && (#[trigger] points.take(k - 1)[i]).0 == id;
            assert(points.take(k)[i].0 == id);
        }
        assert(points.take(k)[k - 1].0 == last);
        if site(b.0, b.1, points[k - 1].1.line, 0) is Some {
            assert(r.1 =~= b.1.push(r.1.last()));
            assert(r.1[b.1.len() as int].0 == last);
            assert forall|id: BreakpointId| #[trigger] holds_id(r.1, id) implies holds_id(b.1, id) || id == last by {
                let i = choose|i: int| 0 <= i < r.1.len() && (#[trigger] r.1[i]).0 == id;
                if i < b.1.len() {
                    assert(b.1[i].0 == id);
                }
            }
            assert forall|id: BreakpointId| holds_id(b.1, id) implies #[trigger] holds_id(r.1, id) by {
                let i = choose|i: int| 0 <= i < b.1.len() && (#[trigger] b.1[i]).0 == id;
                assert(r.1[i].0 == id);
            }
        } else {
            assert(r.2 =~= b.2.push(last));
            assert(r.2[b.2.len() as int] == last);
            assert forall|id: BreakpointId| #[trigger] r.2.contains(id) implies b.2.contains(id) || id == last by {
                let i = choose|i: int| 0 <= i < r.2.len() && r.2[i] == id;
                if i < b.2.len() {
                    assert(b.2[i] == id);
                }
            }
            assert forall|id: BreakpointId| b.2.contains(id) implies #[trigger] r.2.contains(id) by {
                let i = choose|i: int| 0 <= i < b.2.len() && b.2[i] == id;
                assert(r.2[i] == id);
            }
        }
        assert forall|j: int| 0 <= j < k implies (holds_id(r.1, (#[trigger] points[j]).0) != r.2.contains(points[j].0)) by {
            if j < k - 1 {
                assert(points[j].0.0 < last.0);
            } else {
                assert(!holds_id(b.1, last));
                assert(!b.2.contains(last));
            }
        }
    }
}

/// Re-arming keeps or drops every breakpoint, never both, and the table stays in
/// order.
pub proof fn law_rearm_keeps_or_drops(points: Installed, next: u32, fs: Seq<FunctionModel>)
    requires
        ordered(points, next),
    ensures
        ({
            let r = rearmed(points, fs, points.len() as int);
            &&& ordered(r.1, next)
            &&& r.1.len() + r.2.len() == points.len()
            &&& forall|j: int| 0 <= j < points.len() ==> (holds_id(r.1, (#[trigger] points[j]).0) != r.2.contains(points[j].0))
        }),
{
    lemma_rearmed(points, next, fs, points.len() as int);
}

// --- the table ------------------------------------------------------------------

/// Breakpoint table and trap patcher.
#[derive(Debug)]
pub struct Debugger {
    next_id: u32,
    breakpoints: Vec<(BreakpointId, Breakpoint)>,
}

impl View for Debugger {
    type V = TableModel;

    closed spec fn view(&self) -> TableModel {
        TableModel { next: self.next_id, points: entries(self.breakpoints@) }
    }
}

impl Default for Debugger {
    /// An empty debugger.
    fn default() -> (r: Debugger)
        ensures
            r@ == (TableModel { next: 0, points: Seq::empty() }),
            r.wf(),
    {
        Debugger::new()
    }
}

/// The first breakpoint at a place.
fn find_at(points: &Vec<(BreakpointId, Breakpoint)>, function_id: u16, pc: usize) -> (r: Option<usize>)
    ensures
        match r {
            Some(k) => hit_place(entries(points@), function_id, pc as int, 0) == Some(k as int) && k < points@.len(),
            None => hit_place(entries(points@), function_id, pc as int, 0) is None,
        },
{
    let mut k: usize = 0;
    let ghost m = entries(points@);
    while k < points.len()
        invariant
            k <= points@.len(),
            m == entries(points@),
            hit_place(m, function_id, pc as int, k as int) == hit_place(m, function_id, pc as int, 0),
        decreases points.len() - k,
    {
        assert(m[k as int] == (points@[k as int].0, points@[k as int].1@));
        if points[k].1.function_id == function_id && points[k].1.pc == pc {
            return Some(k);
        }
        k += 1;
    }
    None
}

/// The byte under the breakpoints at a place.
fn byte_under(points: &Vec<(BreakpointId, Breakpoint)>, function_id: u16, pc: usize, byte: u8) -> (r: u8)
    ensures
        r == underlying(entries(points@), function_id, pc as int, byte),
{
    if byte != 0xFF {
        return byte;
    }
    match find_at(points, function_id, pc) {
        Some(k) => points[k].1.original,
        None => byte,
    }
}

fn find_in(f: &FunctionBytecode, function_id: u16, points: &Vec<(BreakpointId, Breakpoint)>, line: u32) -> (r: Option<
    usize,
>)
    ensures
        match r {
            Some(pc) => site_in(f@, function_id, entries(points@), line, 0) == Some(pc as int) && pc < f.code@.len(),
            None => site_in(f@, function_id, entries(points@), line, 0) is None,
        },
{
    let ghost m = entries(points@);
    let mut pc: usize = 0;
    let size: usize = f.code.len();
    while pc < size
        invariant
            m == entries(points@),
            size == f.code@.len(),
            site_in(f@, function_id, m, line, pc as int) == site_in(f@, function_id, m, line, 0),
        decreases size - pc,
    {
        match Opcode::from_u8(byte_under(points, function_id, pc, f.code[pc])) {
            Some(op) => {
                if pc < f.line_for_pc.len() && f.line_for_pc[pc] == line {
                    return Some(pc);
                }
                let step: usize = op.instr_len(f.code.as_slice(), pc);
                if step >= size - pc {
                    assert(site_in(f@, function_id, m, line, pc + step) is None);
                    return None;
                }
                pc += step;
            },
            None => {
                pc += 1;
            },
        }
    }
    None
}

fn find_site(module: &Module, points: &Vec<(BreakpointId, Breakpoint)>, line: u32) -> (r: Option<(usize, usize)>)
    ensures
        match r {
            Some((i, pc)) => site(module@.functions, entries(points@), line, 0) == Some((i as int, pc as int)) && i
                < module.functions@.len() && pc < module.functions@[i as int].code@.len(),
            None => site(module@.functions, entries(points@), line, 0) is None,
        },
{
    let ghost m = entries(points@);
    let mut i: usize = 0;
    while i < module.functions.len()
        invariant
            i <= module.functions@.len(),
            m == entries(points@),
            site(module@.functions, m, line, i as int) == site(module@.functions, m, line, 0),
        decreases module.functions.len() - i,
    {
        assert(module@.functions[i as int] == module.functions@[i as int]@);
        match find_in(&module.functions[i], (i % 0x1_0000) as u16, points, line) {
            Some(pc) => {
                return Some((i, pc));
            },
            None => {},
        }
        i += 1;
    }
    None
}

/// Writes one code byte.
fn write_byte(module: &mut Module, i: usize, pc: usize, byte: u8)
    requires
        i < old(module).functions@.len(),
        pc < old(module).functions@[i as int].code@.len(),
    ensures
        final(module)@ == (ModuleModel { functions: with_byte(old(module)@.functions, i as int, pc as int, byte), ..old(module)@ }),
{
    module.functions[i].code[pc] = byte;
    assert(views::views(module.functions@) =~= with_byte(old(module)@.functions, i as int, pc as int, byte));
}

impl Debugger {
    /// Whether the ids are in order and below the next one.
    pub open spec fn wf(&self) -> bool {
        ordered(self@.points, self@.next)
    }

    /// An empty debugger.
    pub fn new() -> (r: Debugger)
        ensures
            r@ == (TableModel { next: 0, points: Seq::empty() }),
            r.wf(),
    {
        let d = Debugger { next_id: 0, breakpoints: Vec::new() };
        assert(d@.points =~= Seq::empty());
        d
    }

    /// Installs a line breakpoint by patching the first instruction of the line
    /// with the trap opcode. Returns the new id, or an error if the line has no
    /// instruction.
    pub fn set_breakpoint(&mut self, module: &mut Module, file_id: u32, line: u32) -> (r: Result<BreakpointId, String>)
        requires
            old(self).wf(),
            old(self)@.next < u32::MAX,
        ensures
            final(self).wf(),
            match set_at(old(self)@, old(module)@.functions, file_id, line) {
                Some((table, fs)) => {
                    &&& r == Ok::<BreakpointId, String>(BreakpointId(old(self)@.next))
                    &&& final(self)@ == table
                    &&& final(module)@ == (ModuleModel { functions: fs, ..old(module)@ })
                },
                None => {
                    &&& r matches Err(e)
                    &&& e@ == "no opcode at line "@ + text::dec(line as nat)
                    &&& final(self)@ == old(self)@
                    &&& final(module)@ == old(module)@
                },
            },
    {
        match find_site(module, &self.breakpoints, line) {
            Some((i, pc)) => {
                assert(module@.functions[i as int] == module.functions@[i as int]@);
                let original: u8 = byte_under(
                    &self.breakpoints,
                    (i % 0x1_0000) as u16,
                    pc,
                    module.functions[i].code[pc],
                );
                write_byte(module, i, pc, 0xFF);
                let id = BreakpointId(self.next_id);
                self.next_id += 1;
                self.breakpoints.push(
                    (
                        id,
                        Breakpoint {
                            file_id,
                            line,
                            condition: None,
                            hit_count: None,
                            function_id: (i % 0x1_0000) as u16,
                            pc,
                            original,
                            hits: 0,
                        },
                    ),
                );
                proof {
                    let (table, _) = set_at(old(self)@, old(module)@.functions, file_id, line)->0;
                    assert(self@.points =~= table.points);
                }
                Ok(id)
            },
            None => {
                let mut e = "no opcode at line ".to_owned();
                push_dec(&mut e, line as u64);
                Err(e)
            },
        }
    }

    fn place_of(&self, id: BreakpointId) -> (r: Option<usize>)
        ensures
            match r {
                Some(k) => place(self@.points, id, 0) == Some(k as int) && k < self.breakpoints@.len(),
                None => place(self@.points, id, 0) is None,
            },
    {
        let mut k: usize = 0;
        while k < self.breakpoints.len()
            invariant
                k <= self.breakpoints@.len(),
                place(self@.points, id, k as int) == place(self@.points, id, 0),
            decreases self.breakpoints.len() - k,
        {
            assert(self@.points[k as int].0 == self.breakpoints@[k as int].0);
            if self.breakpoints[k].0 == id {
                return Some(k);
            }
            k += 1;
        }
        None
    }

    /// Removes a breakpoint, restoring the original opcode byte. Where another breakpoint
    /// stands at the same place, the trap stays until that one is cleared too.
    pub fn clear_breakpoint(&mut self, module: &mut Module, id: BreakpointId) -> (r: Result<(), String>)
        requires
            old(self).wf(),
        ensures
            final(self).wf(),
            match place(old(self)@.points, id, 0) {
                Some(k) => {
                    &&& r is Ok
                    &&& final(self)@ == (TableModel { points: old(self)@.points.remove(k), ..old(self)@ })
                    &&& final(module)@ == (ModuleModel {
                        functions: restored(
                            old(module)@.functions,
                            old(self)@.points[k].1,
                            old(self)@.points.remove(k),
                        ),
                        ..old(module)@
                    })
                },
                None => {
                    &&& r matches Err(e)
                    &&& e@ == "unknown breakpoint "@ + text::dec(id.0 as nat)
                    &&& final(self)@ == old(self)@
                    &&& final(module)@ == old(module)@
                },
            },
    {
        match self.place_of(id) {
            Some(k) => {
                let (_, p) = self.breakpoints.remove(k);
                assert(self@.points =~= old(self)@.points.remove(k as int));
                assert(p@ == old(self)@.points[k as int].1);
                let i: usize = p.function_id as usize;
                if i < module.functions.len() {
                    assert(module@.functions[i as int] == module.functions@[i as int]@);
                    if p.pc < module.functions[i].code.len() && find_at(&self.breakpoints, p.function_id, p.pc).is_none() {
                        write_byte(module, i, p.pc, p.original);
                    }
                }
                Ok(())
            },
            None => {
                let mut e = "unknown breakpoint ".to_owned();
                push_dec(&mut e, id.0 as u64);
                Err(e)
            },
        }
    }

    /// Borrows a breakpoint.
    pub fn breakpoint(&self, id: BreakpointId) -> (r: Option<&Breakpoint>)
        ensures
            match place(self@.points, id, 0) {
                Some(k) => r is Some && r->0@ == self@.points[k].1,
                None => r is None,
            },
    {
        match self.place_of(id) {
            Some(k) => Some(&self.breakpoints[k].1),
            None => None,
        }
    }

    /// Counts a hit of the first breakpoint at `(function_id, pc)`, and returns
    /// its id, if there is one.
    pub fn record_hit(&mut self, function_id: u16, pc: usize) -> (r: Option<BreakpointId>)
        requires
            old(self).wf(),
            hit_place(old(self)@.points, function_id, pc as int, 0) matches Some(k) ==> old(self)@.points[k].1.hits
                < u32::MAX,
        ensures
            final(self).wf(),
            match hit_place(old(self)@.points, function_id, pc as int, 0) {
                Some(k) => {
                    let (id, p) = old(self)@.points[k];
                    &&& r == Some(id)
                    &&& final(self)@ == (TableModel {
                        points: old(self)@.points.update(k, (id, BreakpointModel { hits: (p.hits + 1) as u32, ..p })),
                        ..old(self)@
                    })
                },
                None => r is None && final(self)@ == old(self)@,
            },
    {
        let mut k: usize = 0;
        while k < self.breakpoints.len()
            invariant
                k <= self.breakpoints@.len(),
                *self == *old(self),
                old(self).wf(),
                hit_place(self@.points, function_id, pc as int, k as int) == hit_place(
                    self@.points,
                    function_id,
                    pc as int,
                    0,
                ),
                hit_place(old(self)@.points, function_id, pc as int, 0) matches Some(j) ==> old(self)@.points[j].1.hits
                    < u32::MAX,
            decreases self.breakpoints.len() - k,
        {
            assert(self@.points[k as int] == (self.breakpoints@[k as int].0, self.breakpoints@[k as int].1@));
            if self.breakpoints[k].1.function_id == function_id && self.breakpoints[k].1.pc == pc {
                let id = self.breakpoints[k].0;
                self.breakpoints[k].1.hits += 1;
                proof {
                    let (_, p) = old(self)@.points[k as int];
                    assert(self@.points =~= old(self)@.points.update(
                        k as int,
                        (id, BreakpointModel { hits: (p.hits + 1) as u32, ..p }),
                    ));
                }
                return Some(id);
            }
            k += 1;
        }
        None
    }

    /// The installed breakpoints, by id.
    pub fn iter(&self) -> (r: Vec<(BreakpointId, &Breakpoint)>)
        ensures
            r@.len() == self@.points.len(),
            forall|i: int| 0 <= i < r@.len() ==> ((#[trigger] r@[i]).0, r@[i].1@) == self@.points[i],
    {
        let mut out: Vec<(BreakpointId, &Breakpoint)> = Vec::new();
        let mut k: usize = 0;
        while k < self.breakpoints.len()
            invariant
                k <= self.breakpoints@.len(),
                out@.len() == k,
                forall|i: int| 0 <= i < k ==> ((#[trigger] out@[i]).0, out@[i].1@) == self@.points[i],
            decreases self.breakpoints.len() - k,
        {
            out.push((self.breakpoints[k].0, &self.breakpoints[k].1));
            k += 1;
        }
        out
    }

    /// Number of installed breakpoints.
    pub fn len(&self) -> (r: usize)
        ensures
            r == self@.points.len(),
    {
        self.breakpoints.len()
    }

    /// Whether the table is empty.
    pub fn is_empty(&self) -> (r: bool)
        ensures
            r == (self@.points.len() == 0),
    {
        self.breakpoints.len() == 0
    }

    /// Re-arms every breakpoint in a module that took the place of the one they
    /// were installed in: each is looked up by its line again. The ids of those
    /// whose lines have no instruction any more are dropped from the table and
    /// returned.
    pub fn rearm(&mut self, module: &mut Module) -> (r: Vec<BreakpointId>)
        requires
            old(self).wf(),
        ensures
            final(self).wf(),
            ({
                let all = rearmed(old(self)@.points, old(module)@.functions, old(self)@.points.len() as int);
                &&& final(module)@ == (ModuleModel { functions: all.0, ..old(module)@ })
                &&& final(self)@ == (TableModel { points: all.1, ..old(self)@ })
                &&& r@ == all.2
            }),
    {
        let ghost before = self@.points;
        let ghost fs = module@.functions;
        let mut dropped: Vec<BreakpointId> = Vec::new();
        let mut kept: Vec<(BreakpointId, Breakpoint)> = Vec::new();
        let mut k: usize = 0;
        assert(entries(kept@) =~= Seq::empty());
        while k < self.breakpoints.len()
            invariant
                k <= self.breakpoints@.len(),
                *self == *old(self),
                before == self@.points,
                fs == old(module)@.functions,
                module@ == (ModuleModel { functions: rearmed(before, fs, k as int).0, ..old(module)@ }),
                entries(kept@) == rearmed(before, fs, k as int).1,
                dropped@ == rearmed(before, fs, k as int).2,
            decreases self.breakpoints.len() - k,
        {
            let id = self.breakpoints[k].0;
            let line: u32 = self.breakpoints[k].1.line;
            assert(before[k as int] == (id, self.breakpoints@[k as int].1@));
            let ghost was = entries(kept@);
            match find_site(module, &kept, line) {
                Some((i, pc)) => {
                    assert(module@.functions[i as int] == module.functions@[i as int]@);
                    let original: u8 = byte_under(&kept, (i % 0x1_0000) as u16, pc, module.functions[i].code[pc]);
                    write_byte(module, i, pc, 0xFF);
                    let mut p = self.breakpoints[k].1.clone();
                    p.function_id = (i % 0x1_0000) as u16;
                    p.pc = pc;
                    p.original = original;
                    kept.push((id, p));
                    assert(entries(kept@) =~= was.push((id, p@)));
                },
                None => {
                    dropped.push(id);
                },
            }
            k += 1;
        }
        self.breakpoints = kept;
        proof {
            lemma_rearmed(before, old(self)@.next, fs, before.len() as int);
        }
        dropped
    }
}

// --- paused frames --------------------------------------------------------------

/// Read-only view of a paused frame, for the commands that list and expand
/// locals.
pub struct PausedFrame<'a> {
    /// Top-of-stack frame the debugger paused on.
    pub frame: &'a CallFrame,
    /// Locals as `(name, register, current value)`; a register is named by its
    /// index.
    pub locals: Vec<(String, u8, Value)>,
}

/// The locals behind a list of entries.
pub open spec fn locals_model(v: Seq<(String, u8, Value)>) -> Seq<(Seq<char>, u8, ValueModel)> {
    Seq::new(v.len(), |i: int| (v[i].0@, v[i].1, v[i].2@))
}

/// The locals of a frame with the given registers.
pub open spec fn locals_of(regs: Seq<ValueModel>) -> Seq<(Seq<char>, u8, ValueModel)> {
    Seq::new(regs.len(), |i: int| ("r"@ + text::dec(i as nat), (i % 256) as u8, regs[i]))
}

impl<'a> PausedFrame<'a> {
    /// Constructs a snapshot from a live frame.
    pub fn new(frame: &'a CallFrame) -> (r: PausedFrame<'a>)
        ensures
            r.frame == frame,
            locals_model(r.locals@) == locals_of(frame@.regs),
    {
        let mut locals: Vec<(String, u8, Value)> = Vec::new();
        let mut i: usize = 0;
        while i < frame.registers.len()
            invariant
                i <= frame.registers@.len(),
                locals_model(locals@) =~= locals_of(frame@.regs).take(i as int),
            decreases frame.registers.len() - i,
        {
            let mut name = "r".to_owned();
            push_dec(&mut name, i as u64);
            let ghost was = locals@;
            let v = frame.registers[i].clone();
            locals.push((name, (i % 256) as u8, v));
            assert(locals_model(locals@) =~= locals_model(was).push(locals_of(frame@.regs)[i as int]));
            i += 1;
        }
        assert(locals_of(frame@.regs).take(i as int) =~= locals_of(frame@.regs));
        PausedFrame { frame, locals }
    }
}

} // verus!
