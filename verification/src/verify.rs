//! Bytecode verifier: what it accepts may be executed.
//!
//! Of every function it checks that
//!
//! 1. each instruction starts with a known opcode,
//! 2. none starts with `0xFF`, which is the debugger's,
//! 3. every register operand is below `max_register`,
//! 4. every constant index lies in the pool,
//! 5. every jump lands at the start of an instruction, or at the end of the code,
//! 6. every function index lies in the table,
//! 7. the code ends with a return, or with a jump back into the function.

use crate::bytecode;
use crate::bytecode::{FunctionBytecode, FunctionModel, Module, ModuleModel, Opcode};
use crate::text;
use crate::text::{push_dec, push_hex2};
use vstd::prelude::*;

verus! {

/// Why a module was refused.
#[derive(Clone, Debug, PartialEq, Eq)]
pub enum VerifyError {
    /// A byte that is no opcode.
    UnknownOpcode {
        /// The function.
        function: String,
        /// Where in its code.
        pc: usize,
        /// The byte.
        byte: u8,
    },
    /// The debugger's mark in code that is to be run.
    TrapInCode {
        /// The function.
        function: String,
        /// Where in its code.
        pc: usize,
    },
    /// A register that the function does not have.
    OutOfBoundsRegister {
        /// The function.
        function: String,
        /// The instruction.
        pc: usize,
        /// The register.
        reg: u8,
        /// How many the function has.
        max: u8,
    },
    /// A constant that the pool does not hold.
    OutOfBoundsConst {
        /// The function.
        function: String,
        /// The instruction.
        pc: usize,
        /// The index.
        idx: u16,
        /// The size of the pool.
        max: u16,
    },
    /// A function that the table does not hold.
    OutOfBoundsFunction {
        /// The function.
        function: String,
        /// The instruction.
        pc: usize,
        /// The index.
        id: u16,
        /// The size of the table.
        max: u16,
    },
    /// A jump out of the code, or into the middle of an instruction.
    BadJumpTarget {
        /// The function.
        function: String,
        /// The jump.
        pc: usize,
        /// Where it would land.
        target: i128,
    },
    /// An instruction whose operands run past the end of the code.
    Truncated {
        /// The function.
        function: String,
        /// The instruction.
        pc: usize,
    },
    /// Control would run off the end of the code.
    MissingReturn {
        /// The function.
        function: String,
    },
}

/// What is wrong with a function, without its name.
pub enum Fault {
    Unknown { pc: int, byte: u8 },
    Trap { pc: int },
    Register { pc: int, reg: u8, max: u8 },
    Constant { pc: int, idx: u16, max: u16 },
    Function { pc: int, id: u16, max: u16 },
    Jump { pc: int, target: int },
    Truncated { pc: int },
    Return,
}

impl VerifyError {
    /// What is wrong.
    pub open spec fn fault(&self) -> Fault {
        match *self {
            VerifyError::UnknownOpcode { function, pc, byte } => Fault::Unknown { pc: pc as int, byte },
            VerifyError::TrapInCode { function, pc } => Fault::Trap { pc: pc as int },
            VerifyError::OutOfBoundsRegister { function, pc, reg, max } => Fault::Register { pc: pc as int, reg, max },
            VerifyError::OutOfBoundsConst { function, pc, idx, max } => Fault::Constant { pc: pc as int, idx, max },
            VerifyError::OutOfBoundsFunction { function, pc, id, max } => Fault::Function { pc: pc as int, id, max },
            VerifyError::BadJumpTarget { function, pc, target } => Fault::Jump { pc: pc as int, target: target as int },
            VerifyError::Truncated { function, pc } => Fault::Truncated { pc: pc as int },
            VerifyError::MissingReturn { function } => Fault::Return,
        }
    }

    /// The name of the function it is about.
    pub open spec fn culprit(&self) -> Seq<char> {
        match *self {
            VerifyError::UnknownOpcode { function, .. } => function@,
            VerifyError::TrapInCode { function, .. } => function@,
            VerifyError::OutOfBoundsRegister { function, .. } => function@,
            VerifyError::OutOfBoundsConst { function, .. } => function@,
            VerifyError::OutOfBoundsFunction { function, .. } => function@,
            VerifyError::BadJumpTarget { function, .. } => function@,
            VerifyError::Truncated { function, .. } => function@,
            VerifyError::MissingReturn { function } => function@,
        }
    }
}

/// Where an error is, in words.
pub open spec fn place_text(function: Seq<char>, pc: int) -> Seq<char> {
    function + "@"@ + text::dec(pc as nat) + ": "@
}

/// An error in words.
pub open spec fn fault_text(function: Seq<char>, f: Fault) -> Seq<char> {
    match f {
        Fault::Unknown { pc, byte } => place_text(function, pc) + "unknown opcode 0x"@ + text::hex2(byte as nat),
        Fault::Trap { pc } => place_text(function, pc) + "TRAP reserved for debugger (ADR-035)"@,
        Fault::Register { pc, reg, max } => place_text(function, pc) + "register r"@ + text::dec(reg as nat)
            + " >= max r"@ + text::dec(max as nat),
        Fault::Constant { pc, idx, max } => place_text(function, pc) + "const idx "@ + text::dec(idx as nat)
            + " >= pool size "@ + text::dec(max as nat),
        Fault::Function { pc, id, max } => place_text(function, pc) + "function id "@ + text::dec(id as nat)
            + " >= table size "@ + text::dec(max as nat),
        Fault::Jump { pc, target } => place_text(function, pc) + "jump target "@ + text::dec_int(target)
            + " out of range"@,
        Fault::Truncated { pc } => place_text(function, pc) + "truncated instruction"@,
        Fault::Return => function + ": missing return"@,
    }
}

fn place(function: &String, pc: usize) -> (r: String)
    ensures
        r@ == place_text(function@, pc as int),
{
    let mut s = function.clone();
    s.append("@");
    push_dec(&mut s, pc as u64);
    s.append(": ");
    s
}

/// How far from the middle a number may lie and still be printed.
pub open spec fn printable(target: int) -> bool {
    i64::MIN <= target <= i64::MAX
}

impl VerifyError {
    /// The text of this error.
    pub fn message(&self) -> (r: String)
        requires
            self.fault() matches Fault::Jump { target, .. } ==> printable(target),
        ensures
            r@ == fault_text(self.culprit(), self.fault()),
    {
        match self {
            VerifyError::UnknownOpcode { function, pc, byte } => {
                let mut s = place(function, *pc);
                s.append("unknown opcode 0x");
                push_hex2(&mut s, *byte);
                s
            },
            VerifyError::TrapInCode { function, pc } => {
                let mut s = place(function, *pc);
                s.append("TRAP reserved for debugger (ADR-035)");
                s
            },
            VerifyError::OutOfBoundsRegister { function, pc, reg, max } => {
                let mut s = place(function, *pc);
                s.append("register r");
                push_dec(&mut s, *reg as u64);
                s.append(" >= max r");
                push_dec(&mut s, *max as u64);
                s
            },
            VerifyError::OutOfBoundsConst { function, pc, idx, max } => {
                let mut s = place(function, *pc);
                s.append("const idx ");
                push_dec(&mut s, *idx as u64);
                s.append(" >= pool size ");
                push_dec(&mut s, *max as u64);
                s
            },
            VerifyError::OutOfBoundsFunction { function, pc, id, max } => {
                let mut s = place(function, *pc);
                s.append("function id ");
                push_dec(&mut s, *id as u64);
                s.append(" >= table size ");
                push_dec(&mut s, *max as u64);
                s
            },
            VerifyError::BadJumpTarget { function, pc, target } => {
                let mut s = place(function, *pc);
                s.append("jump target ");
                text::push_dec_int(&mut s, *target as i64);
                s.append(" out of range");
                s
            },
            VerifyError::Truncated { function, pc } => {
                let mut s = place(function, *pc);
                s.append("truncated instruction");
                s
            },
            VerifyError::MissingReturn { function } => {
                let mut s = function.clone();
                s.append(": missing return");
                s
            },
        }
    }
}

// --- what is checked ------------------------------------------------------------------

/// The 16-bit number at `p`.
pub open spec fn word(code: Seq<u8>, p: int) -> u16 {
    (code[p] + 256 * code[p + 1]) as u16
}

/// The signed 16-bit number at `p`.
pub open spec fn offset(code: Seq<u8>, p: int) -> int {
    let v = code[p] + 256 * code[p + 1];
    if v >= 0x8000 {
        v - 0x1_0000
    } else {
        v
    }
}

/// An operand that the verifier checks.
#[derive(Clone, Copy, Debug, PartialEq, Eq, Structural)]
pub enum Operand {
    /// A register.
    Reg(u8),
    /// A constant.
    Pool(u16),
    /// A function.
    Func(u16),
    /// Where a jump lands.
    Target(i128),
}

/// `n` registers from `p` on.
pub open spec fn regs_at(code: Seq<u8>, p: int, n: int) -> Seq<Operand> {
    Seq::new(n as nat, |i: int| Operand::Reg(code[p + i]))
}

/// The operands of the instruction at `pc`, in the order in which they are checked.
#[verifier::opaque]
pub open spec fn operands(op: Opcode, code: Seq<u8>, pc: int) -> Seq<Operand> {
    match op {
        Opcode::Trap | Opcode::Nop | Opcode::ReturnNil => Seq::empty(),
        Opcode::ConstNil | Opcode::ConstTrue | Opcode::ConstFalse | Opcode::ReturnVal | Opcode::MapNew
        | Opcode::StructNew => regs_at(code, pc + 1, 1),
        Opcode::Move | Opcode::Not | Opcode::Neg | Opcode::ArrayLen => regs_at(code, pc + 1, 2),
        Opcode::ConstInt | Opcode::ConstFloat | Opcode::ConstStr => regs_at(code, pc + 1, 1).push(
            Operand::Pool(word(code, pc + 2)),
        ),
        Opcode::Jmp => seq![Operand::Target((pc + 3 + offset(code, pc + 1)) as i128)],
        Opcode::JmpIfFalse | Opcode::JmpIfTrue => regs_at(code, pc + 1, 1).push(
            Operand::Target((pc + 4 + offset(code, pc + 2)) as i128),
        ),
        Opcode::Call | Opcode::ClosureMake => regs_at(code, pc + 1, 1).push(Operand::Func(word(code, pc + 2)))
            + regs_at(code, pc + 5, code[pc + 4] as int),
        Opcode::FfiCall => regs_at(code, pc + 1, 1) + regs_at(code, pc + 5, code[pc + 4] as int),
        Opcode::ArrayNew => regs_at(code, pc + 1, 1) + regs_at(code, pc + 3, code[pc + 2] as int),
        Opcode::StructGet => regs_at(code, pc + 1, 2).push(Operand::Pool(word(code, pc + 3))),
        Opcode::StructSet => regs_at(code, pc + 1, 1).push(Operand::Pool(word(code, pc + 2))).push(
            Operand::Reg(code[pc + 4]),
        ),
        Opcode::CallClosure => regs_at(code, pc + 1, 2) + regs_at(code, pc + 4, code[pc + 3] as int),
        _ => regs_at(code, pc + 1, 3),
    }
}

/// What operands are checked against.
pub struct Limits {
    pub regs: u8,
    pub consts: nat,
    pub fns: nat,
    pub end: int,
}

/// The limits of a function in a module.
pub open spec fn limits(f: FunctionModel, m: ModuleModel) -> Limits {
    Limits {
        regs: f.max_register,
        consts: m.constants.len(),
        fns: m.functions.len(),
        end: f.code.len() as int,
    }
}

/// What is wrong with one operand.
pub open spec fn operand_fault(o: Operand, pc: int, l: Limits) -> Option<Fault> {
    match o {
        Operand::Reg(reg) => if reg >= l.regs {
            Some(Fault::Register { pc, reg, max: l.regs })
        } else {
            None
        },
        Operand::Pool(idx) => if idx >= l.consts {
            Some(Fault::Constant { pc, idx, max: l.consts as u16 })
        } else {
            None
        },
        Operand::Func(id) => if id >= l.fns {
            Some(Fault::Function { pc, id, max: l.fns as u16 })
        } else {
            None
        },
        Operand::Target(target) => if target < 0 || target > l.end {
            Some(Fault::Jump { pc, target: target as int })
        } else {
            None
        },
    }
}

/// What is wrong with the first bad operand from the `i`-th on.
pub open spec fn operands_fault(os: Seq<Operand>, i: int, pc: int, l: Limits) -> Option<Fault>
    decreases os.len() - i,
{
    if i < 0 || i >= os.len() {
        None
    } else {
        match operand_fault(os[i], pc, l) {
            Some(f) => Some(f),
            None => operands_fault(os, i + 1, pc, l),
        }
    }
}

/// What is wrong with the instruction at `pc` by itself.
pub open spec fn instruction_fault(code: Seq<u8>, pc: int, l: Limits) -> Option<Fault> {
    if code[pc] == 0xFF {
        Some(Fault::Trap { pc })
    } else {
        match bytecode::op_of(code[pc]) {
            None => Some(Fault::Unknown { pc, byte: code[pc] }),
            Some(op) => if pc + bytecode::len_of(op, code, pc) > code.len() {
                Some(Fault::Truncated { pc })
            } else {
                operands_fault(operands(op, code, pc), 0, pc, l)
            },
        }
    }
}

/// Where the instruction behind the one at `pc` starts, the end of the code at most.
pub open spec fn next_pc(code: Seq<u8>, pc: int) -> int {
    let next = match bytecode::op_of(code[pc]) {
        None => pc + 1,
        Some(op) => pc + bytecode::len_of(op, code, pc),
    };
    if next > code.len() {
        code.len() as int
    } else {
        next
    }
}

/// The first instruction from `pc` on that is wrong by itself.
pub open spec fn scan(code: Seq<u8>, pc: int, l: Limits) -> Option<Fault>
    decreases code.len() - pc,
{
    if pc < 0 || pc >= code.len() {
        None
    } else {
        match instruction_fault(code, pc, l) {
            Some(f) => Some(f),
            None => scan(code, next_pc(code, pc), l),
        }
    }
}

/// Whether `t` is where an instruction starts, or where the code ends, from `pc` on.
pub open spec fn starts(code: Seq<u8>, pc: int, t: int) -> bool
    decreases code.len() - pc,
{
    if t == pc {
        true
    } else if pc < 0 || pc >= code.len() {
        false
    } else {
        starts(code, next_pc(code, pc), t)
    }
}

/// Where the instruction at `pc` jumps to, if it does.
pub open spec fn jump_of(code: Seq<u8>, pc: int) -> Option<int> {
    match bytecode::op_of(code[pc]) {
        Some(Opcode::Jmp) => Some(pc + 3 + offset(code, pc + 1)),
        Some(Opcode::JmpIfFalse) | Some(Opcode::JmpIfTrue) => Some(pc + 4 + offset(code, pc + 2)),
        _ => None,
    }
}

/// The first jump from `pc` on that lands inside an instruction.
pub open spec fn jumps(code: Seq<u8>, pc: int) -> Option<Fault>
    decreases code.len() - pc,
{
    if pc < 0 || pc >= code.len() {
        None
    } else {
        match jump_of(code, pc) {
            Some(t) => if starts(code, 0, t) {
                jumps(code, next_pc(code, pc))
            } else {
                Some(Fault::Jump { pc, target: t })
            },
            None => jumps(code, next_pc(code, pc)),
        }
    }
}

/// Where the last instruction starts, from `pc` on.
pub open spec fn last_start(code: Seq<u8>, pc: int) -> int
    decreases code.len() - pc,
{
    if pc < 0 || pc >= code.len() || next_pc(code, pc) >= code.len() {
        pc
    } else {
        last_start(code, next_pc(code, pc))
    }
}

/// Whether control cannot run off the end behind the instruction at `pc`.
pub open spec fn closes(code: Seq<u8>, pc: int) -> bool {
    match bytecode::op_of(code[pc]) {
        Some(Opcode::ReturnNil) | Some(Opcode::ReturnVal) => true,
        Some(Opcode::Jmp) => pc + 3 + offset(code, pc + 1) < code.len(),
        _ => false,
    }
}

/// What is wrong with a function.
pub open spec fn function_fault(f: FunctionModel, m: ModuleModel) -> Option<Fault> {
    match scan(f.code, 0, limits(f, m)) {
        Some(x) => Some(x),
        None => match jumps(f.code, 0) {
            Some(x) => Some(x),
            None => if f.code.len() == 0 || !closes(f.code, last_start(f.code, 0)) {
                Some(Fault::Return)
            } else {
                None
            },
        },
    }
}

/// The first function from the `i`-th on that is wrong, and what is.
pub open spec fn module_fault(m: ModuleModel, i: int) -> Option<(Seq<char>, Fault)>
    decreases m.functions.len() - i,
{
    if i < 0 || i >= m.functions.len() {
        None
    } else {
        match function_fault(m.functions[i], m) {
            Some(x) => Some((m.functions[i].name, x)),
            None => module_fault(m, i + 1),
        }
    }
}

/// Whether nothing is wrong with a module.
pub open spec fn verified(m: ModuleModel) -> bool {
    forall|i: int| 0 <= i < m.functions.len() ==> function_fault(#[trigger] m.functions[i], m) is None
}

proof fn lemma_verified(m: ModuleModel, i: int)
    requires
        0 <= i,
        module_fault(m, i) is None,
    ensures
        forall|k: int| i <= k < m.functions.len() ==> function_fault(#[trigger] m.functions[k], m) is None,
    decreases m.functions.len() - i,
{
    if i < m.functions.len() {
        lemma_verified(m, i + 1);
        assert forall|k: int| i <= k < m.functions.len() implies function_fault(#[trigger] m.functions[k], m) is None by {
            if k > i {
                assert(i + 1 <= k);
            }
        }
    }
}

/// Of a function that the verifier accepts, every instruction is right by itself, and its
/// jumps land where an instruction starts or at the end of the code.
pub proof fn law_accepted_instructions(f: FunctionModel, m: ModuleModel, pc: int)
    requires
        function_fault(f, m) is None,
        starts(f.code, 0, pc),
        0 <= pc < f.code.len() <= usize::MAX,
    ensures
        instruction_fault(f.code, pc, limits(f, m)) is None,
        starts(f.code, 0, next_pc(f.code, pc)),
        next_pc(f.code, pc) <= f.code.len(),
        jump_of(f.code, pc) matches Some(t) ==> starts(f.code, 0, t) && 0 <= t <= f.code.len(),
{
    lemma_walk(f, m, 0, pc);
    lemma_starts_on(f.code, 0, pc);
    let l = limits(f, m);
    if let Some(t) = jump_of(f.code, pc) {
        lemma_jump_in_range(f.code, pc, l);
    }
}

proof fn lemma_walk(f: FunctionModel, m: ModuleModel, from: int, pc: int)
    requires
        scan(f.code, from, limits(f, m)) is None,
        jumps(f.code, from) is None,
        0 <= from,
        starts(f.code, from, pc),
        0 <= pc < f.code.len(),
    ensures
        instruction_fault(f.code, pc, limits(f, m)) is None,
        jump_of(f.code, pc) matches Some(t) ==> starts(f.code, 0, t),
    decreases f.code.len() - from,
{
    if from < f.code.len() && from != pc {
        lemma_walk(f, m, next_pc(f.code, from), pc);
    }
}

proof fn lemma_starts_on(code: Seq<u8>, from: int, pc: int)
    requires
        0 <= from,
        starts(code, from, pc),
        0 <= pc < code.len(),
    ensures
        starts(code, from, next_pc(code, pc)),
        pc >= from,
    decreases code.len() - from,
{
    if from != pc {
        lemma_starts_on(code, next_pc(code, from), pc);
    } else {
        let n = next_pc(code, pc);
        assert(starts(code, n, n));
        assert(n > pc);
        assert(starts(code, pc, n) == starts(code, n, n));
    }
}

/// An instruction without a fault has operands without a fault.
pub proof fn lemma_operand(os: Seq<Operand>, i: int, k: int, pc: int, l: Limits)
    requires
        0 <= i <= k < os.len(),
        operands_fault(os, i, pc, l) is None,
    ensures
        operand_fault(os[k], pc, l) is None,
    decreases k - i,
{
    if i < k {
        lemma_operand(os, i + 1, k, pc, l);
    }
}

proof fn lemma_jump_in_range(code: Seq<u8>, pc: int, l: Limits)
    requires
        instruction_fault(code, pc, l) is None,
        0 <= pc < code.len(),
        l.end == code.len(),
        jump_of(code, pc) is Some,
        code.len() < 0x1_0000_0000_0000_0000,
    ensures
        0 <= jump_of(code, pc)->0 <= code.len(),
{
    reveal(operands);
    let op = bytecode::op_of(code[pc])->0;
    let os = operands(op, code, pc);
    if op == Opcode::Jmp {
        lemma_operand(os, 0, 0, pc, l);
    } else {
        assert(os[1] == Operand::Target((pc + 4 + offset(code, pc + 2)) as i128));
        lemma_operand(os, 0, 1, pc, l);
    }
}

pub(crate) fn word_at(code: &Vec<u8>, p: usize) -> (r: u16)
    requires
        p + 1 < code@.len(),
    ensures
        r == word(code@, p as int),
{
    let size: usize = code.len();
    assert(p + 1 < size);
    code[p] as u16 + 256 * code[p + 1] as u16
}

pub(crate) fn offset_at(code: &Vec<u8>, p: usize) -> (r: i32)
    requires
        p + 1 < code@.len(),
    ensures
        r == offset(code@, p as int),
        -0x8000 <= r < 0x8000,
{
    let size: usize = code.len();
    assert(p + 1 < size);
    let v: i32 = code[p] as i32 + 256 * code[p + 1] as i32;
    if v >= 0x8000 {
        v - 0x1_0000
    } else {
        v
    }
}

fn push_regs(out: &mut Vec<Operand>, code: &Vec<u8>, p: usize, n: usize)
    requires
        p + n <= code@.len(),
    ensures
        final(out)@ == old(out)@ + regs_at(code@, p as int, n as int),
{
    let size: usize = code.len();
    let mut i: usize = 0;
    assert(out@ =~= old(out)@ + regs_at(code@, p as int, 0));
    while i < n
        invariant
            i <= n,
            p + n <= code@.len() == size,
            out@ == old(out)@ + regs_at(code@, p as int, i as int),
        decreases n - i,
    {
        out.push(Operand::Reg(code[p + i]));
        i += 1;
        assert(out@ =~= old(out)@ + regs_at(code@, p as int, i as int));
    }
}

#[verifier::spinoff_prover]
#[verifier::rlimit(60)]
fn operands_at(op: Opcode, code: &Vec<u8>, pc: usize) -> (r: Vec<Operand>)
    requires
        pc < code@.len(),
        pc + bytecode::len_of(op, code@, pc as int) <= code@.len(),
    ensures
        r@ == operands(op, code@, pc as int),
{
    proof {
        reveal(operands);
    }
    let size: usize = code.len();
    let mut out: Vec<Operand> = Vec::new();
    match op {
        Opcode::Trap | Opcode::Nop | Opcode::ReturnNil => {},
        Opcode::ConstNil | Opcode::ConstTrue | Opcode::ConstFalse | Opcode::ReturnVal | Opcode::MapNew
        | Opcode::StructNew => {
            push_regs(&mut out, code, pc + 1, 1);
        },
        Opcode::Move | Opcode::Not | Opcode::Neg | Opcode::ArrayLen => {
            push_regs(&mut out, code, pc + 1, 2);
        },
        Opcode::ConstInt | Opcode::ConstFloat | Opcode::ConstStr => {
            push_regs(&mut out, code, pc + 1, 1);
            out.push(Operand::Pool(word_at(code, pc + 2)));
        },
        Opcode::Jmp => {
            out.push(Operand::Target(pc as i128 + 3 + offset_at(code, pc + 1) as i128));
        },
        Opcode::JmpIfFalse | Opcode::JmpIfTrue => {
            push_regs(&mut out, code, pc + 1, 1);
            out.push(Operand::Target(pc as i128 + 4 + offset_at(code, pc + 2) as i128));
        },
        Opcode::Call | Opcode::ClosureMake => {
            push_regs(&mut out, code, pc + 1, 1);
            out.push(Operand::Func(word_at(code, pc + 2)));
            push_regs(&mut out, code, pc + 5, code[pc + 4] as usize);
        },
        Opcode::FfiCall => {
            push_regs(&mut out, code, pc + 1, 1);
            push_regs(&mut out, code, pc + 5, code[pc + 4] as usize);
        },
        Opcode::ArrayNew => {
            push_regs(&mut out, code, pc + 1, 1);
            push_regs(&mut out, code, pc + 3, code[pc + 2] as usize);
        },
        Opcode::StructGet => {
            push_regs(&mut out, code, pc + 1, 2);
            out.push(Operand::Pool(word_at(code, pc + 3)));
        },
        Opcode::StructSet => {
            push_regs(&mut out, code, pc + 1, 1);
            out.push(Operand::Pool(word_at(code, pc + 2)));
            out.push(Operand::Reg(code[pc + 4]));
        },
        Opcode::CallClosure => {
            push_regs(&mut out, code, pc + 1, 2);
            push_regs(&mut out, code, pc + 4, code[pc + 3] as usize);
        },
        _ => {
            push_regs(&mut out, code, pc + 1, 3);
        },
    }
    assert(out@ =~= operands(op, code@, pc as int));
    out
}

/// Whether `r` reports `f`, of the function `name`.
pub open spec fn reports(r: Result<(), VerifyError>, name: Seq<char>, f: Option<Fault>) -> bool {
    match r {
        Ok(_) => f is None,
        Err(e) => f == Some(e.fault()) && e.culprit() == name,
    }
}

fn check_operand(o: Operand, name: &String, pc: usize, l: Ghost<Limits>, regs: u8, consts: usize, fns: usize, end: usize) -> (r: Result<
    (),
    VerifyError,
>)
    requires
        l@ == (Limits { regs, consts: consts as nat, fns: fns as nat, end: end as int }),
    ensures
        reports(r, name@, operand_fault(o, pc as int, l@)),
{
    match o {
        Operand::Reg(reg) => {
            if reg >= regs {
                return Err(VerifyError::OutOfBoundsRegister { function: name.clone(), pc, reg, max: regs });
            }
        },
        Operand::Pool(idx) => {
            if idx as usize >= consts {
                return Err(VerifyError::OutOfBoundsConst { function: name.clone(), pc, idx, max: consts as u16 });
            }
        },
        Operand::Func(id) => {
            if id as usize >= fns {
                return Err(VerifyError::OutOfBoundsFunction { function: name.clone(), pc, id, max: fns as u16 });
            }
        },
        Operand::Target(target) => {
            if target < 0 || target > end as i128 {
                return Err(VerifyError::BadJumpTarget { function: name.clone(), pc, target });
            }
        },
    }
    Ok(())
}

fn check_instruction(f: &FunctionBytecode, pc: usize, l: Ghost<Limits>, consts: usize, fns: usize) -> (r: Result<
    usize,
    VerifyError,
>)
    requires
        pc < f.code@.len(),
        l@ == (Limits { regs: f.max_register, consts: consts as nat, fns: fns as nat, end: f.code@.len() as int }),
    ensures
        match r {
            Ok(n) => instruction_fault(f.code@, pc as int, l@) is None && n == next_pc(f.code@, pc as int) && n > pc,
            Err(e) => instruction_fault(f.code@, pc as int, l@) == Some(e.fault()) && e.culprit() == f.name@,
        },
{
    let byte: u8 = f.code[pc];
    if byte == 0xFF {
        return Err(VerifyError::TrapInCode { function: f.name.clone(), pc });
    }
    match Opcode::from_u8(byte) {
        None => Err(VerifyError::UnknownOpcode { function: f.name.clone(), pc, byte }),
        Some(op) => {
            let len: usize = op.instr_len(f.code.as_slice(), pc);
            if len > f.code.len() - pc {
                return Err(VerifyError::Truncated { function: f.name.clone(), pc });
            }
            let os = operands_at(op, &f.code, pc);
            let mut i: usize = 0;
            while i < os.len()
                invariant
                    i <= os@.len(),
                    os@ == operands(op, f.code@, pc as int),
                    l@ == (Limits { regs: f.max_register, consts: consts as nat, fns: fns as nat, end: f.code@.len() as int }),
                    f.code@[pc as int] != 0xFF,
                    bytecode::op_of(f.code@[pc as int]) == Some(op),
                    pc + bytecode::len_of(op, f.code@, pc as int) <= f.code@.len(),
                    operands_fault(os@, 0, pc as int, l@) == operands_fault(os@, i as int, pc as int, l@),
                decreases os.len() - i,
            {
                match check_operand(os[i], &f.name, pc, l, f.max_register, consts, fns, f.code.len()) {
                    Err(e) => {
                        return Err(e);
                    },
                    Ok(_) => {},
                }
                i += 1;
            }
            Ok(pc + len)
        },
    }
}

fn step_over(code: &Vec<u8>, pc: usize) -> (n: usize)
    requires
        pc < code@.len(),
    ensures
        n == next_pc(code@, pc as int),
        pc < n <= code@.len(),
{
    let size: usize = code.len();
    assert(pc < size);
    match Opcode::from_u8(code[pc]) {
        None => pc + 1,
        Some(op) => {
            let len: usize = op.instr_len(code.as_slice(), pc);
            if len > code.len() - pc {
                code.len()
            } else {
                pc + len
            }
        },
    }
}

/// Which offsets up to the end are starts.
pub open spec fn marks(b: Seq<bool>, code: Seq<u8>) -> bool {
    b.len() == code.len() + 1 && forall|t: int| 0 <= t <= code.len() ==> #[trigger] b[t] == starts(code, 0, t)
}

fn scan_code(f: &FunctionBytecode, l: Ghost<Limits>, consts: usize, fns: usize) -> (r: Result<Vec<bool>, VerifyError>)
    requires
        l@ == (Limits { regs: f.max_register, consts: consts as nat, fns: fns as nat, end: f.code@.len() as int }),
    ensures
        match r {
            Ok(b) => scan(f.code@, 0, l@) is None && marks(b@, f.code@),
            Err(e) => scan(f.code@, 0, l@) == Some(e.fault()) && e.culprit() == f.name@,
        },
{
    let ghost code = f.code@;
    let size: usize = f.code.len();
    let mut b: Vec<bool> = Vec::new();
    b.push(true);
    let mut pc: usize = 0;
    while pc < f.code.len()
        invariant
            code == f.code@,
            pc <= code.len() == size,
            b@.len() == pc + 1,
            l@ == (Limits { regs: f.max_register, consts: consts as nat, fns: fns as nat, end: code.len() as int }),
            scan(code, 0, l@) == scan(code, pc as int, l@),
            starts(code, 0, pc as int),
            forall|t: int| 0 <= t <= pc ==> #[trigger] b@[t] == starts(code, 0, t),
            forall|t: int| pc < t <= code.len() ==> #[trigger] starts(code, 0, t) == starts(code, pc as int, t),
        decreases code.len() - pc,
    {
        match check_instruction(f, pc, l, consts, fns) {
            Err(e) => {
                return Err(e);
            },
            Ok(next) => {
                let ghost n = next as int;
                assert forall|t: int| pc < t < n implies !starts(code, 0, t) by {
                    assert(starts(code, pc as int, t) == starts(code, n, t));
                    lemma_no_start_behind(code, n, t);
                }
                assert(starts(code, pc as int, n) == starts(code, n, n));
                let mut i: usize = pc + 1;
                while i < next
                    invariant
                        pc < i <= next <= code.len() == size,
                        n == next,
                        b@.len() == i,
                        forall|t: int| 0 <= t < i ==> #[trigger] b@[t] == starts(code, 0, t),
                        forall|t: int| pc < t < n ==> !starts(code, 0, t),
                    decreases next - i,
                {
                    b.push(false);
                    i += 1;
                }
                b.push(true);
                assert forall|t: int| n < t <= code.len() implies #[trigger] starts(code, 0, t) == starts(code, n, t) by {
                    assert(starts(code, pc as int, t) == starts(code, n, t));
                }
                pc = next;
            },
        }
    }
    Ok(b)
}

proof fn lemma_no_start_behind(code: Seq<u8>, pc: int, t: int)
    requires
        0 <= pc,
        t < pc,
    ensures
        !starts(code, pc, t),
    decreases code.len() - pc,
{
    if pc < code.len() {
        lemma_no_start_behind(code, next_pc(code, pc), t);
    }
}

fn jump_at(code: &Vec<u8>, pc: usize) -> (r: Option<i128>)
    requires
        pc < code@.len(),
        bytecode::op_of(code@[pc as int]) matches Some(op) ==> pc + bytecode::len_of(op, code@, pc as int) <= code@.len(),
    ensures
        r is Some <==> jump_of(code@, pc as int) is Some,
        r is Some ==> r->0 == jump_of(code@, pc as int)->0,
{
    let size: usize = code.len();
    match Opcode::from_u8(code[pc]) {
        Some(Opcode::Jmp) => Some(pc as i128 + 3 + offset_at(code, pc + 1) as i128),
        Some(Opcode::JmpIfFalse) | Some(Opcode::JmpIfTrue) => Some(pc as i128 + 4 + offset_at(code, pc + 2) as i128),
        _ => None,
    }
}

fn check_jumps(f: &FunctionBytecode, b: &Vec<bool>, l: Ghost<Limits>) -> (r: Result<(), VerifyError>)
    requires
        marks(b@, f.code@),
        scan(f.code@, 0, l@) is None,
    ensures
        reports(r, f.name@, jumps(f.code@, 0)),
{
    let ghost code = f.code@;
    let mut pc: usize = 0;
    while pc < f.code.len()
        invariant
            code == f.code@,
            pc <= code.len(),
            marks(b@, code),
            scan(code, pc as int, l@) is None,
            jumps(code, 0) == jumps(code, pc as int),
        decreases code.len() - pc,
    {
        assert(instruction_fault(code, pc as int, l@) is None);
        match jump_at(&f.code, pc) {
            Some(t) => {
                let ghost ti = t as int;
                if t < 0 || t > f.code.len() as i128 {
                    proof {
                        if t < 0 {
                            lemma_no_start_behind(code, 0, ti);
                        } else {
                            lemma_no_start_beyond(code, 0, ti);
                        }
                    }
                    return Err(VerifyError::BadJumpTarget { function: f.name.clone(), pc, target: t });
                }
                if !b[t as usize] {
                    return Err(VerifyError::BadJumpTarget { function: f.name.clone(), pc, target: t });
                }
            },
            None => {},
        }
        pc = step_over(&f.code, pc);
    }
    Ok(())
}

proof fn lemma_no_start_beyond(code: Seq<u8>, pc: int, t: int)
    requires
        0 <= pc <= code.len() < t,
    ensures
        !starts(code, pc, t),
    decreases code.len() - pc,
{
    if pc < code.len() {
        lemma_no_start_beyond(code, next_pc(code, pc), t);
    }
}

fn find_last(code: &Vec<u8>) -> (r: usize)
    requires
        code@.len() > 0,
    ensures
        r == last_start(code@, 0),
        r < code@.len(),
{
    let mut pc: usize = 0;
    loop
        invariant
            pc < code@.len(),
            last_start(code@, 0) == last_start(code@, pc as int),
        decreases code@.len() - pc,
    {
        let next: usize = step_over(code, pc);
        if next >= code.len() {
            return pc;
        }
        pc = next;
    }
}

proof fn lemma_last_is_whole(code: Seq<u8>, pc: int, l: Limits)
    requires
        0 <= pc < code.len(),
        scan(code, pc, l) is None,
    ensures
        instruction_fault(code, last_start(code, pc), l) is None,
    decreases code.len() - pc,
{
    if next_pc(code, pc) < code.len() {
        lemma_last_is_whole(code, next_pc(code, pc), l);
    }
}

fn ends_well(code: &Vec<u8>, l: Ghost<Limits>) -> (r: bool)
    requires
        scan(code@, 0, l@) is None,
    ensures
        r == (code@.len() > 0 && closes(code@, last_start(code@, 0))),
{
    if code.len() == 0 {
        return false;
    }
    let pc: usize = find_last(code);
    proof {
        lemma_last_is_whole(code@, 0, l@);
    }
    match Opcode::from_u8(code[pc]) {
        Some(Opcode::ReturnNil) | Some(Opcode::ReturnVal) => true,
        Some(Opcode::Jmp) => match jump_at(code, pc) {
            Some(t) => t < code.len() as i128,
            None => false,
        },
        _ => false,
    }
}

fn verify_function(f: &FunctionBytecode, module: &Module) -> (r: Result<(), VerifyError>)
    ensures
        reports(r, f.name@, function_fault(f@, module@)),
{
    let consts: usize = module.constants.len();
    let fns: usize = module.functions.len();
    let ghost l = limits(f@, module@);
    match scan_code(f, Ghost(l), consts, fns) {
        Err(e) => Err(e),
        Ok(b) => match check_jumps(f, &b, Ghost(l)) {
            Err(e) => Err(e),
            Ok(_) => {
                if ends_well(&f.code, Ghost(l)) {
                    Ok(())
                } else {
                    Err(VerifyError::MissingReturn { function: f.name.clone() })
                }
            },
        },
    }
}

/// Checks every function of `module`, and reports the first thing that is wrong.
pub fn verify(module: &Module) -> (r: Result<(), VerifyError>)
    ensures
        match r {
            Ok(_) => verified(module@),
            Err(e) => module_fault(module@, 0) == Some((e.culprit(), e.fault())),
        },
        r is Ok <==> module_fault(module@, 0) is None,
{
    let ghost m = module@;
    let mut i: usize = 0;
    while i < module.functions.len()
        invariant
            i <= module.functions@.len(),
            m == module@,
            module_fault(m, 0) == module_fault(m, i as int),
        decreases module.functions.len() - i,
    {
        assert(m.functions[i as int] == module.functions@[i as int]@);
        match verify_function(&module.functions[i], module) {
            Err(e) => {
                return Err(e);
            },
            Ok(_) => {},
        }
        i += 1;
    }
    proof {
        assert(module_fault(m, i as int) is None);
        lemma_verified(m, 0);
    }
    Ok(())
}

} // verus!
