//! Register bytecode: instructions, modules, and their byte form.
//!
//! One byte for the opcode, operands behind it, little-endian. A register is one byte, so
//! a frame has at most 256 of them. The byte `0xFF` is the debugger's breakpoint mark: it
//! is the opcode `Trap` and no other, code generation never emits it, and the verifier
//! accepts no code with it at the start of an instruction.

use crate::text::string_from_utf8;
use crate::views;
use crate::wire;
use crate::wire::{copy_range, push_all, push_le, read_le};
use vstd::prelude::*;
use vstd::utf8::*;

verus! {

/// One opcode.
#[derive(Clone, Copy, Debug, PartialEq, Eq, Structural)]
pub enum Opcode {
    /// Does nothing.
    Nop,
    /// `dst = nil`: `dst:u8`.
    ConstNil,
    /// `dst = true`: `dst:u8`.
    ConstTrue,
    /// `dst = false`: `dst:u8`.
    ConstFalse,
    /// `dst = const_pool[idx]`, an integer: `dst:u8 idx:u16le`.
    ConstInt,
    /// `dst = const_pool[idx]`, a float: `dst:u8 idx:u16le`.
    ConstFloat,
    /// `dst = const_pool[idx]`, a string: `dst:u8 idx:u16le`.
    ConstStr,
    /// `dst = src`: `dst:u8 src:u8`.
    Move,
    /// `dst = a + b`, on integers or floats.
    Add,
    /// `dst = a - b`.
    Sub,
    /// `dst = a * b`.
    Mul,
    /// `dst = a / b`.
    Div,
    /// `dst = a % b`.
    Mod,
    /// `dst = -a`.
    Neg,
    /// `dst = a == b`.
    Eq,
    /// `dst = a != b`.
    Ne,
    /// `dst = a < b`.
    Lt,
    /// `dst = a <= b`.
    Le,
    /// `dst = a > b`.
    Gt,
    /// `dst = a >= b`.
    Ge,
    /// `dst = !a`.
    Not,
    /// `dst = a && b`, both already computed.
    And,
    /// `dst = a || b`, both already computed.
    Or,
    /// Branch: `offset:i16le`, from the next instruction.
    Jmp,
    /// Branch where `cond` is false: `cond:u8 offset:i16le`.
    JmpIfFalse,
    /// Branch where `cond` is true: `cond:u8 offset:i16le`.
    JmpIfTrue,
    /// Call a function: `dst:u8 fn_idx:u16le n:u8 arg0:u8 .. argN-1:u8`.
    Call,
    /// Call a host function, laid out as `Call`.
    FfiCall,
    /// `return nil`.
    ReturnNil,
    /// `return src`: `src:u8`.
    ReturnVal,
    /// A new array of `n` registers: `dst:u8 n:u8 arg0:u8 .. argN-1:u8`.
    ArrayNew,
    /// `dst = arr[idx]`: `dst:u8 arr:u8 idx:u8`.
    ArrayGet,
    /// `arr[idx] = src`: `arr:u8 idx:u8 src:u8`.
    ArraySet,
    /// `dst = arr.len()`: `dst:u8 arr:u8`.
    ArrayLen,
    /// A new empty map: `dst:u8`.
    MapNew,
    /// `dst = map[key]`: `dst:u8 map:u8 key:u8`. A missing key yields nil.
    MapGet,
    /// `map[key] = src`: `map:u8 key:u8 src:u8`.
    MapSet,
    /// A new empty struct: `dst:u8`.
    StructNew,
    /// `dst = strct.<name>`: `dst:u8 strct:u8 name_ki:u16le`.
    StructGet,
    /// `strct.<name> = src`: `strct:u8 name_ki:u16le src:u8`.
    StructSet,
    /// A closure over `n` registers: `dst:u8 fn_idx:u16le n:u8 up0:u8 .. upN-1:u8`.
    ClosureMake,
    /// Call a closure: `dst:u8 cls:u8 n:u8 arg0:u8 .. argN-1:u8`.
    CallClosure,
    /// The debugger's breakpoint mark. Never emitted by the code generator.
    Trap,
}

/// The byte of an opcode.
#[verifier::opaque]
pub open spec fn byte_of(op: Opcode) -> u8 {
    match op {
        Opcode::Nop => 0x00,
        Opcode::ConstNil => 0x01,
        Opcode::ConstTrue => 0x02,
        Opcode::ConstFalse => 0x03,
        Opcode::ConstInt => 0x04,
        Opcode::ConstFloat => 0x05,
        Opcode::ConstStr => 0x06,
        Opcode::Move => 0x07,
        Opcode::Add => 0x10,
        Opcode::Sub => 0x11,
        Opcode::Mul => 0x12,
        Opcode::Div => 0x13,
        Opcode::Mod => 0x14,
        Opcode::Neg => 0x15,
        Opcode::Eq => 0x20,
        Opcode::Ne => 0x21,
        Opcode::Lt => 0x22,
        Opcode::Le => 0x23,
        Opcode::Gt => 0x24,
        Opcode::Ge => 0x25,
        Opcode::Not => 0x30,
        Opcode::And => 0x31,
        Opcode::Or => 0x32,
        Opcode::Jmp => 0x40,
        Opcode::JmpIfFalse => 0x41,
        Opcode::JmpIfTrue => 0x42,
        Opcode::Call => 0x50,
        Opcode::FfiCall => 0x51,
        Opcode::ReturnNil => 0x60,
        Opcode::ReturnVal => 0x61,
        Opcode::ArrayNew => 0x70,
        Opcode::ArrayGet => 0x71,
        Opcode::ArraySet => 0x72,
        Opcode::ArrayLen => 0x73,
        Opcode::MapNew => 0x74,
        Opcode::MapGet => 0x75,
        Opcode::MapSet => 0x76,
        Opcode::StructNew => 0x77,
        Opcode::StructGet => 0x78,
        Opcode::StructSet => 0x79,
        Opcode::ClosureMake => 0x7A,
        Opcode::CallClosure => 0x7B,
        Opcode::Trap => 0xFF,
    }
}

/// The opcode of a byte.
#[verifier::opaque]
pub open spec fn op_of(b: u8) -> Option<Opcode> {
    if b == 0x00 {
        Some(Opcode::Nop)
    } else if b == 0x01 {
        Some(Opcode::ConstNil)
    } else if b == 0x02 {
        Some(Opcode::ConstTrue)
    } else if b == 0x03 {
        Some(Opcode::ConstFalse)
    } else if b == 0x04 {
        Some(Opcode::ConstInt)
    } else if b == 0x05 {
        Some(Opcode::ConstFloat)
    } else if b == 0x06 {
        Some(Opcode::ConstStr)
    } else if b == 0x07 {
        Some(Opcode::Move)
    } else if b == 0x10 {
        Some(Opcode::Add)
    } else if b == 0x11 {
        Some(Opcode::Sub)
    } else if b == 0x12 {
        Some(Opcode::Mul)
    } else if b == 0x13 {
        Some(Opcode::Div)
    } else if b == 0x14 {
        Some(Opcode::Mod)
    } else if b == 0x15 {
        Some(Opcode::Neg)
    } else if b == 0x20 {
        Some(Opcode::Eq)
    } else if b == 0x21 {
        Some(Opcode::Ne)
    } else if b == 0x22 {
        Some(Opcode::Lt)
    } else if b == 0x23 {
        Some(Opcode::Le)
    } else if b == 0x24 {
        Some(Opcode::Gt)
    } else if b == 0x25 {
        Some(Opcode::Ge)
    } else if b == 0x30 {
        Some(Opcode::Not)
    } else if b == 0x31 {
        Some(Opcode::And)
    } else if b == 0x32 {
        Some(Opcode::Or)
    } else if b == 0x40 {
        Some(Opcode::Jmp)
    } else if b == 0x41 {
        Some(Opcode::JmpIfFalse)
    } else if b == 0x42 {
        Some(Opcode::JmpIfTrue)
    } else if b == 0x50 {
        Some(Opcode::Call)
    } else if b == 0x51 {
        Some(Opcode::FfiCall)
    } else if b == 0x60 {
        Some(Opcode::ReturnNil)
    } else if b == 0x61 {
        Some(Opcode::ReturnVal)
    } else if b == 0x70 {
        Some(Opcode::ArrayNew)
    } else if b == 0x71 {
        Some(Opcode::ArrayGet)
    } else if b == 0x72 {
        Some(Opcode::ArraySet)
    } else if b == 0x73 {
        Some(Opcode::ArrayLen)
    } else if b == 0x74 {
        Some(Opcode::MapNew)
    } else if b == 0x75 {
        Some(Opcode::MapGet)
    } else if b == 0x76 {
        Some(Opcode::MapSet)
    } else if b == 0x77 {
        Some(Opcode::StructNew)
    } else if b == 0x78 {
        Some(Opcode::StructGet)
    } else if b == 0x79 {
        Some(Opcode::StructSet)
    } else if b == 0x7A {
        Some(Opcode::ClosureMake)
    } else if b == 0x7B {
        Some(Opcode::CallClosure)
    } else if b == 0xFF {
        Some(Opcode::Trap)
    } else {
        None
    }
}

/// Bytes and opcodes name each other, and only `Trap` is `0xFF`.
pub proof fn law_opcode_bytes(op: Opcode, b: u8)
    ensures
        op_of(byte_of(op)) == Some(op),
        op_of(b) == Some(op) ==> byte_of(op) == b,
        byte_of(op) == 0xFF <==> op == Opcode::Trap,
{
    reveal(byte_of);
    reveal(op_of);
}

/// How many registers an instruction lists behind its fixed part, where it does.
pub open spec fn listed(code: Seq<u8>, at: int) -> int {
    if 0 <= at < code.len() {
        code[at] as int
    } else {
        0
    }
}

/// The length of an instruction at `pc`, operands included.
pub open spec fn len_of(op: Opcode, code: Seq<u8>, pc: int) -> int {
    match op {
        Opcode::Nop | Opcode::ReturnNil | Opcode::Trap => 1,
        Opcode::ConstNil | Opcode::ConstTrue | Opcode::ConstFalse | Opcode::ReturnVal | Opcode::MapNew
        | Opcode::StructNew => 2,
        Opcode::Move | Opcode::Not | Opcode::Neg | Opcode::Jmp | Opcode::ArrayLen => 3,
        Opcode::StructGet | Opcode::StructSet => 5,
        Opcode::Call | Opcode::FfiCall | Opcode::ClosureMake => 5 + listed(code, pc + 4),
        Opcode::ArrayNew => 3 + listed(code, pc + 2),
        Opcode::CallClosure => 4 + listed(code, pc + 3),
        _ => 4,
    }
}

fn listed_at(code: &[u8], pc: usize, k: usize) -> (r: usize)
    ensures
        r == listed(code@, pc + k),
        r <= 255,
{
    if pc < code.len() && k < code.len() - pc {
        code[pc + k] as usize
    } else {
        0
    }
}

impl Opcode {
    /// The opcode of a byte; `None` for a byte that names none.
    pub fn from_u8(b: u8) -> (r: Option<Opcode>)
        ensures
            r == op_of(b),
    {
        proof {
            reveal(op_of);
        }
        match b {
            0x00 => Some(Opcode::Nop),
            0x01 => Some(Opcode::ConstNil),
            0x02 => Some(Opcode::ConstTrue),
            0x03 => Some(Opcode::ConstFalse),
            0x04 => Some(Opcode::ConstInt),
            0x05 => Some(Opcode::ConstFloat),
            0x06 => Some(Opcode::ConstStr),
            0x07 => Some(Opcode::Move),
            0x10 => Some(Opcode::Add),
            0x11 => Some(Opcode::Sub),
            0x12 => Some(Opcode::Mul),
            0x13 => Some(Opcode::Div),
            0x14 => Some(Opcode::Mod),
            0x15 => Some(Opcode::Neg),
            0x20 => Some(Opcode::Eq),
            0x21 => Some(Opcode::Ne),
            0x22 => Some(Opcode::Lt),
            0x23 => Some(Opcode::Le),
            0x24 => Some(Opcode::Gt),
            0x25 => Some(Opcode::Ge),
            0x30 => Some(Opcode::Not),
            0x31 => Some(Opcode::And),
            0x32 => Some(Opcode::Or),
            0x40 => Some(Opcode::Jmp),
            0x41 => Some(Opcode::JmpIfFalse),
            0x42 => Some(Opcode::JmpIfTrue),
            0x50 => Some(Opcode::Call),
            0x51 => Some(Opcode::FfiCall),
            0x60 => Some(Opcode::ReturnNil),
            0x61 => Some(Opcode::ReturnVal),
            0x70 => Some(Opcode::ArrayNew),
            0x71 => Some(Opcode::ArrayGet),
            0x72 => Some(Opcode::ArraySet),
            0x73 => Some(Opcode::ArrayLen),
            0x74 => Some(Opcode::MapNew),
            0x75 => Some(Opcode::MapGet),
            0x76 => Some(Opcode::MapSet),
            0x77 => Some(Opcode::StructNew),
            0x78 => Some(Opcode::StructGet),
            0x79 => Some(Opcode::StructSet),
            0x7A => Some(Opcode::ClosureMake),
            0x7B => Some(Opcode::CallClosure),
            0xFF => Some(Opcode::Trap),
            _ => None,
        }
    }

    /// The byte of this opcode.
    pub fn to_u8(self) -> (r: u8)
        ensures
            r == byte_of(self),
    {
        proof {
            reveal(byte_of);
        }
        match self {
            Opcode::Nop => 0x00,
            Opcode::ConstNil => 0x01,
            Opcode::ConstTrue => 0x02,
            Opcode::ConstFalse => 0x03,
            Opcode::ConstInt => 0x04,
            Opcode::ConstFloat => 0x05,
            Opcode::ConstStr => 0x06,
            Opcode::Move => 0x07,
            Opcode::Add => 0x10,
            Opcode::Sub => 0x11,
            Opcode::Mul => 0x12,
            Opcode::Div => 0x13,
            Opcode::Mod => 0x14,
            Opcode::Neg => 0x15,
            Opcode::Eq => 0x20,
            Opcode::Ne => 0x21,
            Opcode::Lt => 0x22,
            Opcode::Le => 0x23,
            Opcode::Gt => 0x24,
            Opcode::Ge => 0x25,
            Opcode::Not => 0x30,
            Opcode::And => 0x31,
            Opcode::Or => 0x32,
            Opcode::Jmp => 0x40,
            Opcode::JmpIfFalse => 0x41,
            Opcode::JmpIfTrue => 0x42,
            Opcode::Call => 0x50,
            Opcode::FfiCall => 0x51,
            Opcode::ReturnNil => 0x60,
            Opcode::ReturnVal => 0x61,
            Opcode::ArrayNew => 0x70,
            Opcode::ArrayGet => 0x71,
            Opcode::ArraySet => 0x72,
            Opcode::ArrayLen => 0x73,
            Opcode::MapNew => 0x74,
            Opcode::MapGet => 0x75,
            Opcode::MapSet => 0x76,
            Opcode::StructNew => 0x77,
            Opcode::StructGet => 0x78,
            Opcode::StructSet => 0x79,
            Opcode::ClosureMake => 0x7A,
            Opcode::CallClosure => 0x7B,
            Opcode::Trap => 0xFF,
        }
    }

    /// The length of this instruction at `pc`, operands included. A count that lies
    /// behind the end of the code is taken for zero.
    pub fn instr_len(self, code: &[u8], pc: usize) -> (r: usize)
        ensures
            r == len_of(self, code@, pc as int),
            1 <= r <= 260,
    {
        match self {
            Opcode::Nop | Opcode::ReturnNil | Opcode::Trap => 1,
            Opcode::ConstNil | Opcode::ConstTrue | Opcode::ConstFalse | Opcode::ReturnVal | Opcode::MapNew
            | Opcode::StructNew => 2,
            Opcode::Move | Opcode::Not | Opcode::Neg | Opcode::Jmp | Opcode::ArrayLen => 3,
            Opcode::StructGet | Opcode::StructSet => 5,
            Opcode::Call | Opcode::FfiCall | Opcode::ClosureMake => 5 + listed_at(code, pc, 4),
            Opcode::ArrayNew => 3 + listed_at(code, pc, 2),
            Opcode::CallClosure => 4 + listed_at(code, pc, 3),
            _ => 4,
        }
    }
}

/// An entry of the constant pool. A float is its bit pattern.
#[derive(Clone, Debug, PartialEq, Eq)]
pub enum Const {
    /// 64-bit signed integer.
    Int(i64),
    /// 64-bit float, by its bits.
    Float(u64),
    /// Text.
    Str(String),
}

/// Model of a constant.
pub enum ConstModel {
    Int(i64),
    Float(u64),
    Str(Seq<char>),
}

impl View for Const {
    type V = ConstModel;

    open spec fn view(&self) -> ConstModel {
        match *self {
            Const::Int(v) => ConstModel::Int(v),
            Const::Float(b) => ConstModel::Float(b),
            Const::Str(s) => ConstModel::Str(s@),
        }
    }
}

impl Const {
    /// Whether two constants are the same.
    pub fn same(&self, other: &Const) -> (r: bool)
        ensures
            r == (self@ == other@),
    {
        match (self, other) {
            (Const::Int(a), Const::Int(b)) => *a == *b,
            (Const::Float(a), Const::Float(b)) => *a == *b,
            (Const::Str(a), Const::Str(b)) => a.as_str().eq(b.as_str()),
            _ => false,
        }
    }
}

/// The code of one function.
#[derive(Clone, Debug, PartialEq, Eq)]
pub struct FunctionBytecode {
    /// The name, by which callers and the debugger find it.
    pub name: String,
    /// Number of arguments; they arrive in the first registers.
    pub arity: u8,
    /// Number of registers.
    pub max_register: u8,
    /// Code bytes.
    pub code: Vec<u8>,
    /// Source line by code offset.
    pub line_for_pc: Vec<u32>,
}

/// Model of a function.
#[verifier::ext_equal]
pub struct FunctionModel {
    pub name: Seq<char>,
    pub arity: u8,
    pub max_register: u8,
    pub code: Seq<u8>,
    pub lines: Seq<u32>,
}

impl View for FunctionBytecode {
    type V = FunctionModel;

    open spec fn view(&self) -> FunctionModel {
        FunctionModel {
            name: self.name@,
            arity: self.arity,
            max_register: self.max_register,
            code: self.code@,
            lines: self.line_for_pc@,
        }
    }
}

fn same_bytes(a: &Vec<u8>, b: &Vec<u8>) -> (r: bool)
    ensures
        r == (a@ == b@),
{
    if a.len() != b.len() {
        return false;
    }
    let mut i: usize = 0;
    while i < a.len()
        invariant
            i <= a@.len() == b@.len(),
            a@.take(i as int) == b@.take(i as int),
        decreases a.len() - i,
    {
        if a[i] != b[i] {
            return false;
        }
        i += 1;
        assert(a@.take(i as int) =~= b@.take(i as int));
    }
    assert(a@.take(i as int) =~= a@ && b@.take(i as int) =~= b@);
    true
}

fn same_lines(a: &Vec<u32>, b: &Vec<u32>) -> (r: bool)
    ensures
        r == (a@ == b@),
{
    if a.len() != b.len() {
        return false;
    }
    let mut i: usize = 0;
    while i < a.len()
        invariant
            i <= a@.len() == b@.len(),
            a@.take(i as int) == b@.take(i as int),
        decreases a.len() - i,
    {
        if a[i] != b[i] {
            return false;
        }
        i += 1;
        assert(a@.take(i as int) =~= b@.take(i as int));
    }
    assert(a@.take(i as int) =~= a@ && b@.take(i as int) =~= b@);
    true
}

impl FunctionBytecode {
    /// Whether two functions are the same.
    pub fn same(&self, other: &FunctionBytecode) -> (r: bool)
        ensures
            r == (self@ == other@),
    {
        self.name == other.name && self.arity == other.arity && self.max_register == other.max_register && same_bytes(
            &self.code,
            &other.code,
        ) && same_lines(&self.line_for_pc, &other.line_for_pc)
    }
}

/// Model of the name index.
pub open spec fn index_model(v: Seq<(String, u16)>) -> Seq<(Seq<char>, u16)> {
    Seq::new(v.len(), |i: int| (v[i].0@, v[i].1))
}

/// One compiled module: constants, functions and the index of their names.
#[derive(Clone, Debug, Default, PartialEq, Eq)]
pub struct Module {
    /// Constant pool.
    pub constants: Vec<Const>,
    /// Functions in declaration order.
    pub functions: Vec<FunctionBytecode>,
    /// Names, each with its place in `functions`.
    pub function_index: Vec<(String, u16)>,
}

/// Model of a module.
#[verifier::ext_equal]
pub struct ModuleModel {
    pub constants: Seq<ConstModel>,
    pub functions: Seq<FunctionModel>,
    pub index: Seq<(Seq<char>, u16)>,
}

impl View for Module {
    type V = ModuleModel;

    open spec fn view(&self) -> ModuleModel {
        ModuleModel {
            constants: views::views(self.constants@),
            functions: views::views(self.functions@),
            index: index_model(self.function_index@),
        }
    }
}

/// What the first entry for `name` from `i` on says.
pub open spec fn id_from(index: Seq<(Seq<char>, u16)>, name: Seq<char>, i: int) -> Option<u16>
    decreases index.len() - i,
{
    if i < 0 || i >= index.len() {
        None
    } else if index[i].0 == name {
        Some(index[i].1)
    } else {
        id_from(index, name, i + 1)
    }
}

impl Module {
    /// Looks up a function by name: the first entry of the index counts.
    pub fn function_id(&self, name: &str) -> (r: Option<u16>)
        ensures
            r == id_from(self@.index, name@, 0),
    {
        let ghost m = self@.index;
        let mut i: usize = 0;
        while i < self.function_index.len()
            invariant
                i <= self.function_index@.len(),
                m == self@.index,
                id_from(m, name@, 0) == id_from(m, name@, i as int),
            decreases self.function_index.len() - i,
        {
            assert(m[i as int] == (self.function_index@[i as int].0@, self.function_index@[i as int].1));
            if self.function_index[i].0.as_str().eq(name) {
                return Some(self.function_index[i].1);
            }
            i += 1;
        }
        None
    }

    /// Borrows a function by its place.
    pub fn function(&self, id: u16) -> (r: Option<&FunctionBytecode>)
        ensures
            r is Some <==> id < self@.functions.len(),
            r is Some ==> r->0@ == self@.functions[id as int],
    {
        if (id as usize) < self.functions.len() {
            Some(&self.functions[id as usize])
        } else {
            None
        }
    }

    /// Whether two modules are the same.
    pub fn same(&self, other: &Module) -> (r: bool)
        ensures
            r == (self@ == other@),
    {
        let ghost a = self@;
        let ghost b = other@;
        if self.constants.len() != other.constants.len() || self.functions.len() != other.functions.len()
            || self.function_index.len() != other.function_index.len() {
            assert(a.constants.len() == self.constants@.len());
            assert(b.constants.len() == other.constants@.len());
            assert(a.functions.len() == self.functions@.len());
            assert(b.functions.len() == other.functions@.len());
            assert(a.index.len() == self.function_index@.len());
            assert(b.index.len() == other.function_index@.len());
            return false;
        }
        let mut i: usize = 0;
        while i < self.constants.len()
            invariant
                i <= self.constants@.len() == other.constants@.len(),
                a == self@,
                b == other@,
                forall|j: int| 0 <= j < i ==> a.constants[j] == b.constants[j],
            decreases self.constants.len() - i,
        {
            assert(a.constants[i as int] == self.constants@[i as int]@);
            assert(b.constants[i as int] == other.constants@[i as int]@);
            if !self.constants[i].same(&other.constants[i]) {
                return false;
            }
            i += 1;
        }
        let mut j: usize = 0;
        while j < self.functions.len()
            invariant
                j <= self.functions@.len() == other.functions@.len(),
                a == self@,
                b == other@,
                forall|k: int| 0 <= k < j ==> a.functions[k] == b.functions[k],
            decreases self.functions.len() - j,
        {
            assert(a.functions[j as int] == self.functions@[j as int]@);
            assert(b.functions[j as int] == other.functions@[j as int]@);
            if !self.functions[j].same(&other.functions[j]) {
                return false;
            }
            j += 1;
        }
        let mut k: usize = 0;
        while k < self.function_index.len()
            invariant
                k <= self.function_index@.len() == other.function_index@.len(),
                a == self@,
                b == other@,
                forall|l: int| 0 <= l < k ==> a.index[l] == b.index[l],
            decreases self.function_index.len() - k,
        {
            assert(a.index[k as int] == (self.function_index@[k as int].0@, self.function_index@[k as int].1));
            assert(b.index[k as int] == (other.function_index@[k as int].0@, other.function_index@[k as int].1));
            if self.function_index[k].0 != other.function_index[k].0 || self.function_index[k].1
                != other.function_index[k].1 {
                return false;
            }
            k += 1;
        }
        assert(a =~= b);
        true
    }
}

/// Collects the parts of a module while code is generated.
#[derive(Debug, Default)]
pub struct ModuleBuilder {
    module: Module,
}

/// The first place of a constant in a pool, from `i` on.
pub open spec fn place_of(pool: Seq<ConstModel>, c: ConstModel, i: int) -> Option<int>
    decreases pool.len() - i,
{
    if i < 0 || i >= pool.len() {
        None
    } else if pool[i] == c {
        Some(i)
    } else {
        place_of(pool, c, i + 1)
    }
}

/// The place of a constant once it has been interned in a pool.
pub open spec fn interned(pool: Seq<ConstModel>, c: ConstModel) -> int {
    match place_of(pool, c, 0) {
        Some(i) => i,
        None => pool.len() as int,
    }
}

/// The pool once a constant has been interned.
pub open spec fn with_const(pool: Seq<ConstModel>, c: ConstModel) -> Seq<ConstModel> {
    if place_of(pool, c, 0) is Some {
        pool
    } else {
        pool.push(c)
    }
}

/// Whether no constant stands twice in a pool.
pub open spec fn no_repeats(pool: Seq<ConstModel>) -> bool {
    forall|i: int, j: int| 0 <= i < j < pool.len() ==> pool[i] != pool[j]
}

proof fn lemma_place(pool: Seq<ConstModel>, c: ConstModel, i: int)
    requires
        0 <= i,
    ensures
        match place_of(pool, c, i) {
            Some(k) => i <= k < pool.len() && pool[k] == c,
            None => forall|k: int| i <= k < pool.len() ==> pool[k] != c,
        },
    decreases pool.len() - i,
{
    if i < pool.len() && pool[i] != c {
        lemma_place(pool, c, i + 1);
    }
}

/// Interning keeps a pool free of repeats, keeps every place, and puts the constant at the
/// place it returns.
pub proof fn law_interning(pool: Seq<ConstModel>, c: ConstModel)
    ensures
        no_repeats(pool) ==> no_repeats(with_const(pool, c)),
        pool.is_prefix_of(with_const(pool, c)),
        0 <= interned(pool, c) < with_const(pool, c).len(),
        with_const(pool, c)[interned(pool, c)] == c,
        with_const(with_const(pool, c), c) == with_const(pool, c),
        interned(with_const(pool, c), c) == interned(pool, c),
{
    lemma_place(pool, c, 0);
    let w = with_const(pool, c);
    lemma_place(w, c, 0);
    assert(w[interned(pool, c)] == c);
    lemma_same_place(pool, w, c, 0);
}

proof fn lemma_same_place(pool: Seq<ConstModel>, w: Seq<ConstModel>, c: ConstModel, i: int)
    requires
        0 <= i <= pool.len(),
        w == with_const(pool, c),
        place_of(pool, c, i) == place_of(pool, c, 0),
    ensures
        place_of(w, c, i) == Some(interned(pool, c)),
    decreases pool.len() - i,
{
    lemma_place(pool, c, i);
    if i < pool.len() && pool[i] != c {
        lemma_same_place(pool, w, c, i + 1);
    }
}

impl ModuleBuilder {
    /// The module so far.
    pub closed spec fn so_far(&self) -> ModuleModel {
        self.module@
    }

    /// An empty module.
    pub fn new() -> (r: ModuleBuilder)
        ensures
            r.so_far() == (ModuleModel { constants: Seq::empty(), functions: Seq::empty(), index: Seq::empty() }),
    {
        let r = ModuleBuilder {
            module: Module { constants: Vec::new(), functions: Vec::new(), function_index: Vec::new() },
        };
        assert(r.module@ =~= (ModuleModel {
            constants: Seq::empty(),
            functions: Seq::empty(),
            index: Seq::empty(),
        }));
        r
    }

    /// Interns a constant and returns the low 16 bits of its place in the pool. The same
    /// constant has the same place.
    pub fn intern(&mut self, c: Const) -> (r: u16)
        ensures
            r == interned(old(self).so_far().constants, c@) % 0x1_0000,
            final(self).so_far() == (ModuleModel {
                constants: with_const(old(self).so_far().constants, c@),
                ..old(self).so_far()
            }),
    {
        let ghost pool = self.module@.constants;
        let mut i: usize = 0;
        while i < self.module.constants.len()
            invariant
                i <= self.module.constants@.len(),
                *self == *old(self),
                pool == self.module@.constants,
                place_of(pool, c@, 0) == place_of(pool, c@, i as int),
            decreases self.module.constants.len() - i,
        {
            assert(pool[i as int] == self.module.constants@[i as int]@);
            if self.module.constants[i].same(&c) {
                return (i % 0x1_0000) as u16;
            }
            i += 1;
        }
        let idx: u16 = (self.module.constants.len() % 0x1_0000) as u16;
        proof {
            views::lemma_views_push(self.module.constants@, c);
        }
        self.module.constants.push(c);
        idx
    }

    /// Adds a function, enters its name in the index, and returns the low 16 bits of its
    /// place.
    pub fn push_function(&mut self, f: FunctionBytecode) -> (id: u16)
        ensures
            id == old(self).so_far().functions.len() % 0x1_0000,
            final(self).so_far() == (ModuleModel {
                functions: old(self).so_far().functions.push(f@),
                index: old(self).so_far().index.push((f@.name, id)),
                ..old(self).so_far()
            }),
    {
        let id: u16 = (self.module.functions.len() % 0x1_0000) as u16;
        let ghost was = self.module.function_index@;
        proof {
            views::lemma_views_push(self.module.functions@, f);
        }
        self.module.function_index.push((f.name.clone(), id));
        assert(index_model(self.module.function_index@) =~= index_model(was).push((f@.name, id)));
        self.module.functions.push(f);
        id
    }

    /// How many functions have been added.
    pub fn function_count(&self) -> (r: usize)
        ensures
            r == self.so_far().functions.len(),
    {
        self.module.functions.len()
    }

    /// The finished module.
    pub fn build(self) -> (r: Module)
        ensures
            r@ == self.so_far(),
    {
        self.module
    }
}

// --- byte form ----------------------------------------------------------------------

/// The bytes that a module starts with.
pub open spec fn magic() -> Seq<u8> {
    seq![0x45u8, 0x4E, 0x47, 0x4E, 0x53, 0x4C, 0x49, 0x31]
}

/// The version of the byte form.
pub const FORMAT_VERSION: u32 = 1;

/// A length in four bytes.
pub open spec fn len_bytes(n: nat) -> Seq<u8> {
    wire::le((n as u32) as nat, 4)
}

/// Text in UTF-8 behind its length.
pub open spec fn str_bytes(s: Seq<char>) -> Seq<u8> {
    len_bytes(encode_utf8(s).len()) + encode_utf8(s)
}

/// The bytes of a constant.
pub open spec fn const_bytes(c: ConstModel) -> Seq<u8> {
    match c {
        ConstModel::Int(v) => seq![0u8] + wire::le((v as u64) as nat, 8),
        ConstModel::Float(b) => seq![1u8] + wire::le(b as nat, 8),
        ConstModel::Str(s) => seq![2u8] + str_bytes(s),
    }
}

/// The bytes of the first `k` constants.
pub open spec fn consts_bytes(cs: Seq<ConstModel>, k: int) -> Seq<u8>
    decreases k,
{
    if k <= 0 {
        Seq::empty()
    } else {
        consts_bytes(cs, k - 1) + const_bytes(cs[k - 1])
    }
}

/// The bytes of the first `k` line numbers.
pub open spec fn lines_bytes(ls: Seq<u32>, k: int) -> Seq<u8>
    decreases k,
{
    if k <= 0 {
        Seq::empty()
    } else {
        lines_bytes(ls, k - 1) + wire::le(ls[k - 1] as nat, 4)
    }
}

/// The bytes of a function.
pub open spec fn fn_bytes(f: FunctionModel) -> Seq<u8> {
    str_bytes(f.name) + (seq![f.arity] + (seq![f.max_register] + (len_bytes(f.code.len()) + (f.code + (len_bytes(
        f.lines.len(),
    ) + lines_bytes(f.lines, f.lines.len() as int))))))
}

/// The bytes of the first `k` functions.
pub open spec fn fns_bytes(fs: Seq<FunctionModel>, k: int) -> Seq<u8>
    decreases k,
{
    if k <= 0 {
        Seq::empty()
    } else {
        fns_bytes(fs, k - 1) + fn_bytes(fs[k - 1])
    }
}

/// The bytes of a module.
pub open spec fn encoded(m: ModuleModel) -> Seq<u8> {
    magic() + (wire::le(FORMAT_VERSION as nat, 4) + (len_bytes(m.constants.len()) + (consts_bytes(
        m.constants,
        m.constants.len() as int,
    ) + (len_bytes(m.functions.len()) + fns_bytes(m.functions, m.functions.len() as int)))))
}

/// Why bytes are not a module.
#[derive(Clone, Copy, Debug, PartialEq, Eq, Structural)]
pub enum BytecodeError {
    /// The first bytes are not those of a module.
    BadMagic,
    /// A version of the byte form other than this one.
    UnsupportedVersion(u32),
    /// Text that is not UTF-8.
    BadUtf8,
    /// A constant of no known kind.
    UnknownConstTag(u8),
    /// The bytes end too early.
    Truncated,
}

/// The text of an error.
pub open spec fn error_text(e: BytecodeError) -> Seq<char> {
    match e {
        BytecodeError::BadMagic => "bad magic"@,
        BytecodeError::UnsupportedVersion(v) => "unsupported format version "@ + crate::text::dec(v as nat),
        BytecodeError::BadUtf8 => "invalid UTF-8 in string constant"@,
        BytecodeError::UnknownConstTag(t) => "unknown const-pool tag "@ + crate::text::dec(t as nat),
        BytecodeError::Truncated => "truncated bytecode"@,
    }
}

impl BytecodeError {
    /// The text of this error.
    pub fn message(&self) -> (r: String)
        ensures
            r@ == error_text(*self),
    {
        match self {
            BytecodeError::BadMagic => "bad magic".to_owned(),
            BytecodeError::UnsupportedVersion(v) => {
                let mut s = "unsupported format version ".to_owned();
                crate::text::push_dec(&mut s, *v as u64);
                s
            },
            BytecodeError::BadUtf8 => "invalid UTF-8 in string constant".to_owned(),
            BytecodeError::UnknownConstTag(t) => {
                let mut s = "unknown const-pool tag ".to_owned();
                crate::text::push_dec(&mut s, *t as u64);
                s
            },
            BytecodeError::Truncated => "truncated bytecode".to_owned(),
        }
    }
}

/// What a step of reading gives: a value and where the next one starts.
pub type Read<T> = Result<(T, int), BytecodeError>;

/// `n` bytes.
pub open spec fn take(b: Seq<u8>, p: int, n: int) -> Read<Seq<u8>> {
    if p + n > b.len() {
        Err(BytecodeError::Truncated)
    } else {
        Ok((b.subrange(p, p + n), p + n))
    }
}

/// A number in `n` bytes.
pub open spec fn number(b: Seq<u8>, p: int, n: int) -> Read<nat> {
    match take(b, p, n) {
        Err(e) => Err(e),
        Ok((x, q)) => Ok((wire::un_le(x), q)),
    }
}

/// Text behind its length.
pub open spec fn string(b: Seq<u8>, p: int) -> Read<Seq<char>> {
    match number(b, p, 4) {
        Err(e) => Err(e),
        Ok((n, q)) => match take(b, q, n as int) {
            Err(e) => Err(e),
            Ok((x, r)) => if valid_utf8(x) {
                Ok((decode_utf8(x), r))
            } else {
                Err(BytecodeError::BadUtf8)
            },
        },
    }
}

/// A constant.
pub open spec fn constant(b: Seq<u8>, p: int) -> Read<ConstModel> {
    match number(b, p, 1) {
        Err(e) => Err(e),
        Ok((tag, q)) => if tag == 0 {
            match number(b, q, 8) {
                Err(e) => Err(e),
                Ok((n, r)) => Ok((ConstModel::Int((n as u64) as i64), r)),
            }
        } else if tag == 1 {
            match number(b, q, 8) {
                Err(e) => Err(e),
                Ok((n, r)) => Ok((ConstModel::Float(n as u64), r)),
            }
        } else if tag == 2 {
            match string(b, q) {
                Err(e) => Err(e),
                Ok((s, r)) => Ok((ConstModel::Str(s), r)),
            }
        } else {
            Err(BytecodeError::UnknownConstTag(tag as u8))
        },
    }
}

/// `k` constants.
pub open spec fn constants(b: Seq<u8>, p: int, k: int) -> Read<Seq<ConstModel>>
    decreases k,
{
    if k <= 0 {
        Ok((Seq::empty(), p))
    } else {
        match constants(b, p, k - 1) {
            Err(e) => Err(e),
            Ok((cs, q)) => match constant(b, q) {
                Err(e) => Err(e),
                Ok((c, r)) => Ok((cs.push(c), r)),
            },
        }
    }
}

/// `k` line numbers.
pub open spec fn lines(b: Seq<u8>, p: int, k: int) -> Read<Seq<u32>>
    decreases k,
{
    if k <= 0 {
        Ok((Seq::empty(), p))
    } else {
        match lines(b, p, k - 1) {
            Err(e) => Err(e),
            Ok((ls, q)) => match number(b, q, 4) {
                Err(e) => Err(e),
                Ok((n, r)) => Ok((ls.push(n as u32), r)),
            },
        }
    }
}

/// The code and the lines of a function.
pub open spec fn body(b: Seq<u8>, p: int) -> Read<(Seq<u8>, Seq<u32>)> {
    match number(b, p, 4) {
        Err(e) => Err(e),
        Ok((n, q)) => match take(b, q, n as int) {
            Err(e) => Err(e),
            Ok((code, r)) => match number(b, r, 4) {
                Err(e) => Err(e),
                Ok((count, s)) => match lines(b, s, count as int) {
                    Err(e) => Err(e),
                    Ok((ls, t)) => Ok(((code, ls), t)),
                },
            },
        },
    }
}

/// A function.
pub open spec fn function(b: Seq<u8>, p: int) -> Read<FunctionModel> {
    match string(b, p) {
        Err(e) => Err(e),
        Ok((name, q)) => match number(b, q, 1) {
            Err(e) => Err(e),
            Ok((arity, r)) => match number(b, r, 1) {
                Err(e) => Err(e),
                Ok((regs, s)) => match body(b, s) {
                    Err(e) => Err(e),
                    Ok((cl, t)) => Ok(
                        (
                            FunctionModel {
                                name,
                                arity: arity as u8,
                                max_register: regs as u8,
                                code: cl.0,
                                lines: cl.1,
                            },
                            t,
                        ),
                    ),
                },
            },
        },
    }
}

/// `k` functions.
pub open spec fn functions(b: Seq<u8>, p: int, k: int) -> Read<Seq<FunctionModel>>
    decreases k,
{
    if k <= 0 {
        Ok((Seq::empty(), p))
    } else {
        match functions(b, p, k - 1) {
            Err(e) => Err(e),
            Ok((fs, q)) => match function(b, q) {
                Err(e) => Err(e),
                Ok((f, r)) => Ok((fs.push(f), r)),
            },
        }
    }
}

/// The index in which each function stands under its name.
pub open spec fn index_of(fs: Seq<FunctionModel>) -> Seq<(Seq<char>, u16)> {
    Seq::new(fs.len(), |i: int| (fs[i].name, (i % 0x1_0000) as u16))
}

/// What follows the version.
pub open spec fn contents(b: Seq<u8>, p: int) -> Result<ModuleModel, BytecodeError> {
    match number(b, p, 4) {
        Err(e) => Err(e),
        Ok((n, q)) => match constants(b, q, n as int) {
            Err(e) => Err(e),
            Ok((cs, r)) => match number(b, r, 4) {
                Err(e) => Err(e),
                Ok((k, s)) => match functions(b, s, k as int) {
                    Err(e) => Err(e),
                    Ok((fs, t)) => Ok(ModuleModel { constants: cs, functions: fs, index: index_of(fs) }),
                },
            },
        },
    }
}

/// The module that bytes stand for, or why they are none. Bytes behind the module are
/// passed over.
pub open spec fn decoded(b: Seq<u8>) -> Result<ModuleModel, BytecodeError> {
    match take(b, 0, 8) {
        Err(e) => Err(e),
        Ok((m, p)) => if m != magic() {
            Err(BytecodeError::BadMagic)
        } else {
            match number(b, p, 4) {
                Err(e) => Err(e),
                Ok((v, q)) => if v != FORMAT_VERSION {
                    Err(BytecodeError::UnsupportedVersion(v as u32))
                } else {
                    contents(b, q)
                },
            }
        },
    }
}

/// Whether every length of a module fits its four bytes, and the index holds each function
/// once, under its own name.
pub open spec fn encodable(m: ModuleModel) -> bool {
    &&& m.constants.len() < 0x1_0000_0000
    &&& m.functions.len() < 0x1_0000_0000
    &&& m.index == index_of(m.functions)
    &&& forall|i: int| 0 <= i < m.constants.len() ==> const_fits(#[trigger] m.constants[i])
    &&& forall|i: int| 0 <= i < m.functions.len() ==> fn_fits(#[trigger] m.functions[i])
}

/// Whether text fits.
pub open spec fn str_fits(s: Seq<char>) -> bool {
    encode_utf8(s).len() < 0x1_0000_0000
}

/// Whether a constant fits.
pub open spec fn const_fits(c: ConstModel) -> bool {
    c matches ConstModel::Str(s) ==> str_fits(s)
}

/// Whether a function fits.
pub open spec fn fn_fits(f: FunctionModel) -> bool {
    str_fits(f.name) && f.code.len() < 0x1_0000_0000 && f.lines.len() < 0x1_0000_0000
}

proof fn lemma_number(b: Seq<u8>, p: int, v: nat, k: nat)
    requires
        wire::at(b, p, wire::le(v, k)),
        v < wire::range(k),
    ensures
        number(b, p, k as int) == Ok::<(nat, int), BytecodeError>((v, p + k)),
{
    wire::lemma_le_len(v, k);
    wire::law_le_round_trip(v, k);
}

proof fn lemma_len(b: Seq<u8>, p: int, n: nat)
    requires
        wire::at(b, p, len_bytes(n)),
        n < 0x1_0000_0000,
    ensures
        number(b, p, 4) == Ok::<(nat, int), BytecodeError>((n, p + 4)),
        len_bytes(n).len() == 4,
{
    wire::lemma_ranges();
    wire::lemma_le_len(n, 4);
    lemma_number(b, p, n, 4);
}

proof fn lemma_byte(b: Seq<u8>, p: int, v: u8)
    requires
        wire::at(b, p, seq![v]),
    ensures
        number(b, p, 1) == Ok::<(nat, int), BytecodeError>((v as nat, p + 1)),
{
    wire::lemma_ranges();
    reveal_with_fuel(wire::le, 2);
    assert(wire::le(v as nat, 1) =~= seq![v]);
    lemma_number(b, p, v as nat, 1);
}

proof fn lemma_string(b: Seq<u8>, p: int, s: Seq<char>)
    requires
        wire::at(b, p, str_bytes(s)),
        str_fits(s),
    ensures
        string(b, p) == Ok::<(Seq<char>, int), BytecodeError>((s, p + str_bytes(s).len())),
{
    let e = encode_utf8(s);
    wire::lemma_at_split(b, p, len_bytes(e.len()), e);
    lemma_len(b, p, e.len());
    encode_utf8_valid_utf8(s);
    encode_utf8_decode_utf8(s);
}

proof fn lemma_constant(b: Seq<u8>, p: int, c: ConstModel)
    requires
        wire::at(b, p, const_bytes(c)),
        const_fits(c),
    ensures
        constant(b, p) == Ok::<(ConstModel, int), BytecodeError>((c, p + const_bytes(c).len())),
{
    wire::lemma_ranges();
    match c {
        ConstModel::Int(v) => {
            let w = v as u64;
            assert((v as u64) as i64 == v) by (bit_vector);
            wire::lemma_at_split(b, p, seq![0u8], wire::le(w as nat, 8));
            wire::lemma_le_len(w as nat, 8);
            lemma_byte(b, p, 0);
            lemma_number(b, p + 1, w as nat, 8);
        },
        ConstModel::Float(w) => {
            wire::lemma_at_split(b, p, seq![1u8], wire::le(w as nat, 8));
            wire::lemma_le_len(w as nat, 8);
            lemma_byte(b, p, 1);
            lemma_number(b, p + 1, w as nat, 8);
        },
        ConstModel::Str(s) => {
            wire::lemma_at_split(b, p, seq![2u8], str_bytes(s));
            lemma_byte(b, p, 2);
            lemma_string(b, p + 1, s);
        },
    }
}

proof fn lemma_constants(b: Seq<u8>, p: int, cs: Seq<ConstModel>, k: int)
    requires
        0 <= k <= cs.len(),
        wire::at(b, p, consts_bytes(cs, k)),
        forall|i: int| 0 <= i < cs.len() ==> const_fits(#[trigger] cs[i]),
    ensures
        constants(b, p, k) == Ok::<(Seq<ConstModel>, int), BytecodeError>((cs.take(k), p + consts_bytes(cs, k).len())),
    decreases k,
{
    if k > 0 {
        wire::lemma_at_split(b, p, consts_bytes(cs, k - 1), const_bytes(cs[k - 1]));
        lemma_constants(b, p, cs, k - 1);
        lemma_constant(b, p + consts_bytes(cs, k - 1).len(), cs[k - 1]);
        assert(cs.take(k) =~= cs.take(k - 1).push(cs[k - 1]));
    } else {
        assert(cs.take(k) =~= Seq::empty());
    }
}

proof fn lemma_lines(b: Seq<u8>, p: int, ls: Seq<u32>, k: int)
    requires
        0 <= k <= ls.len(),
        wire::at(b, p, lines_bytes(ls, k)),
    ensures
        lines(b, p, k) == Ok::<(Seq<u32>, int), BytecodeError>((ls.take(k), p + lines_bytes(ls, k).len())),
    decreases k,
{
    if k > 0 {
        wire::lemma_at_split(b, p, lines_bytes(ls, k - 1), wire::le(ls[k - 1] as nat, 4));
        lemma_lines(b, p, ls, k - 1);
        wire::lemma_ranges();
        wire::lemma_le_len(ls[k - 1] as nat, 4);
        lemma_number(b, p + lines_bytes(ls, k - 1).len(), ls[k - 1] as nat, 4);
        assert(ls.take(k) =~= ls.take(k - 1).push(ls[k - 1]));
    } else {
        assert(ls.take(k) =~= Seq::empty());
    }
}

proof fn lemma_function(b: Seq<u8>, p: int, f: FunctionModel)
    requires
        wire::at(b, p, fn_bytes(f)),
        fn_fits(f),
    ensures
        function(b, p) == Ok::<(FunctionModel, int), BytecodeError>((f, p + fn_bytes(f).len())),
{
    let n = f.lines.len() as int;
    let t6 = lines_bytes(f.lines, n);
    let t5 = len_bytes(f.lines.len()) + t6;
    let t4 = f.code + t5;
    let t3 = len_bytes(f.code.len()) + t4;
    let t2 = seq![f.max_register] + t3;
    let t1 = seq![f.arity] + t2;
    let q1 = p + str_bytes(f.name).len();
    wire::lemma_at_split(b, p, str_bytes(f.name), t1);
    wire::lemma_at_split(b, q1, seq![f.arity], t2);
    wire::lemma_at_split(b, q1 + 1, seq![f.max_register], t3);
    wire::lemma_at_split(b, q1 + 2, len_bytes(f.code.len()), t4);
    lemma_string(b, p, f.name);
    lemma_byte(b, q1, f.arity);
    lemma_byte(b, q1 + 1, f.max_register);
    lemma_len(b, q1 + 2, f.code.len());
    let q2 = q1 + 6;
    wire::lemma_at_split(b, q2, f.code, t5);
    let q3 = q2 + f.code.len();
    wire::lemma_at_split(b, q3, len_bytes(f.lines.len()), t6);
    lemma_len(b, q3, f.lines.len());
    lemma_lines(b, q3 + 4, f.lines, n);
    assert(f.lines.take(n) =~= f.lines);
    assert(body(b, q1 + 2) == Ok::<((Seq<u8>, Seq<u32>), int), BytecodeError>(((f.code, f.lines), q3 + 4 + t6.len())));
}

proof fn lemma_functions(b: Seq<u8>, p: int, fs: Seq<FunctionModel>, k: int)
    requires
        0 <= k <= fs.len(),
        wire::at(b, p, fns_bytes(fs, k)),
        forall|i: int| 0 <= i < fs.len() ==> fn_fits(#[trigger] fs[i]),
    ensures
        functions(b, p, k) == Ok::<(Seq<FunctionModel>, int), BytecodeError>((fs.take(k), p + fns_bytes(fs, k).len())),
    decreases k,
{
    if k > 0 {
        wire::lemma_at_split(b, p, fns_bytes(fs, k - 1), fn_bytes(fs[k - 1]));
        lemma_functions(b, p, fs, k - 1);
        lemma_function(b, p + fns_bytes(fs, k - 1).len(), fs[k - 1]);
        assert(fs.take(k) =~= fs.take(k - 1).push(fs[k - 1]));
    } else {
        assert(fs.take(k) =~= Seq::empty());
    }
}

/// How the bytes of a module are read: the tables start at 16 and at the second of the
/// places, behind their lengths, and the last ends with the bytes.
#[verifier::spinoff_prover]
#[verifier::rlimit(60)]
proof fn lemma_encoded(m: ModuleModel) -> (r: (int, int))
    requires
        encodable(m),
    ensures
        ({
            let b = encoded(m);
            let (p, q) = r;
            &&& 16 <= p && q == p + 4 && q <= b.len()
            &&& take(b, 0, 8) == Ok::<(Seq<u8>, int), BytecodeError>((magic(), 8))
            &&& number(b, 8, 4) == Ok::<(nat, int), BytecodeError>((FORMAT_VERSION as nat, 12))
            &&& number(b, 12, 4) == Ok::<(nat, int), BytecodeError>((m.constants.len(), 16))
            &&& constants(b, 16, m.constants.len() as int) == Ok::<(Seq<ConstModel>, int), BytecodeError>((m.constants, p))
            &&& number(b, p, 4) == Ok::<(nat, int), BytecodeError>((m.functions.len(), q))
            &&& functions(b, q, m.functions.len() as int) == Ok::<(Seq<FunctionModel>, int), BytecodeError>(
                (m.functions, b.len() as int),
            )
        }),
{
    let b = encoded(m);
    let nc = m.constants.len() as int;
    let nf = m.functions.len() as int;
    let t4 = fns_bytes(m.functions, nf);
    let t3 = len_bytes(m.functions.len()) + t4;
    let t2 = consts_bytes(m.constants, nc) + t3;
    let t1 = len_bytes(m.constants.len()) + t2;
    let t0 = wire::le(FORMAT_VERSION as nat, 4) + t1;
    assert(b.subrange(0, b.len() as int) =~= b);
    assert(wire::at(b, 0, magic() + t0));
    wire::lemma_at_split(b, 0, magic(), t0);
    wire::lemma_at_split(b, 8, wire::le(FORMAT_VERSION as nat, 4), t1);
    wire::lemma_ranges();
    wire::lemma_le_len(FORMAT_VERSION as nat, 4);
    lemma_number(b, 8, FORMAT_VERSION as nat, 4);
    wire::lemma_at_split(b, 12, len_bytes(m.constants.len()), t2);
    lemma_len(b, 12, m.constants.len());
    wire::lemma_at_split(b, 16, consts_bytes(m.constants, nc), t3);
    lemma_constants(b, 16, m.constants, nc);
    let q: int = 16 + consts_bytes(m.constants, nc).len() as int;
    wire::lemma_at_split(b, q, len_bytes(m.functions.len()), t4);
    lemma_len(b, q, m.functions.len());
    lemma_functions(b, q + 4, m.functions, nf);
    assert(m.constants.take(nc) =~= m.constants);
    assert(m.functions.take(nf) =~= m.functions);
    assert(b.len() == q + 4 + t4.len());
    (q, q + 4)
}

/// Decoding the bytes of a module gives the module back.
pub proof fn law_decode_encode(m: ModuleModel)
    requires
        encodable(m),
    ensures
        decoded(encoded(m)) == Ok::<ModuleModel, BytecodeError>(m),
{
    let _ = lemma_encoded(m);
}

// --- bytes that are cut off -----------------------------------------------------------

/// What reading gives where the bytes are cut at `n`: the same, or that they end too early.
spec fn cut_read<T>(r: Read<T>, s: Read<T>, n: int) -> bool {
    r matches Ok((x, q)) ==> if q <= n {
        s == r
    } else {
        s == Err::<(T, int), BytecodeError>(BytecodeError::Truncated)
    }
}

proof fn lemma_cut_take(b: Seq<u8>, n: int, p: int, k: int)
    requires
        0 <= p <= n <= b.len(),
        0 <= k,
    ensures
        cut_read(take(b, p, k), take(b.take(n), p, k), n),
        take(b, p, k) matches Ok((x, q)) ==> p <= q,
{
    if p + k <= n {
        assert(b.take(n).subrange(p, p + k) =~= b.subrange(p, p + k));
    }
}

proof fn lemma_cut_number(b: Seq<u8>, n: int, p: int, k: int)
    requires
        0 <= p <= n <= b.len(),
        0 <= k,
    ensures
        cut_read(number(b, p, k), number(b.take(n), p, k), n),
        number(b, p, k) matches Ok((x, q)) ==> p <= q,
{
    lemma_cut_take(b, n, p, k);
}

proof fn lemma_cut_string(b: Seq<u8>, n: int, p: int)
    requires
        0 <= p <= n <= b.len(),
    ensures
        cut_read(string(b, p), string(b.take(n), p), n),
        string(b, p) matches Ok((x, q)) ==> p <= q,
{
    lemma_cut_number(b, n, p, 4);
    if let Ok((k, q)) = number(b, p, 4) {
        if q <= n {
            lemma_cut_take(b, n, q, k as int);
        }
    }
}

proof fn lemma_cut_constant(b: Seq<u8>, n: int, p: int)
    requires
        0 <= p <= n <= b.len(),
    ensures
        cut_read(constant(b, p), constant(b.take(n), p), n),
        constant(b, p) matches Ok((x, q)) ==> p <= q,
{
    lemma_cut_number(b, n, p, 1);
    if let Ok((tag, q)) = number(b, p, 1) {
        if q <= n {
            lemma_cut_number(b, n, q, 8);
            lemma_cut_string(b, n, q);
        }
    }
}

proof fn lemma_cut_constants(b: Seq<u8>, n: int, p: int, k: int)
    requires
        0 <= p <= n <= b.len(),
    ensures
        cut_read(constants(b, p, k), constants(b.take(n), p, k), n),
        constants(b, p, k) matches Ok((x, q)) ==> p <= q,
    decreases k,
{
    if k > 0 {
        lemma_cut_constants(b, n, p, k - 1);
        if let Ok((cs, q)) = constants(b, p, k - 1) {
            if q <= n {
                lemma_cut_constant(b, n, q);
            }
        }
    }
}

proof fn lemma_lines_forward(b: Seq<u8>, p: int, k: int)
    ensures
        lines(b, p, k) matches Ok((x, q)) ==> p <= q,
    decreases k,
{
    if k > 0 {
        lemma_lines_forward(b, p, k - 1);
    }
}

proof fn lemma_function_forward(b: Seq<u8>, p: int)
    ensures
        function(b, p) matches Ok((x, q)) ==> p <= q,
{
    if let Ok((name, q)) = string(b, p) {
        lemma_body_forward(b, q + 2);
    }
}

proof fn lemma_body_forward(b: Seq<u8>, p: int)
    ensures
        body(b, p) matches Ok((x, q)) ==> p <= q,
{
    if let Ok((k, q)) = number(b, p, 4) {
        if let Ok((code, r)) = take(b, q, k as int) {
            if let Ok((count, s)) = number(b, r, 4) {
                lemma_lines_forward(b, s, count as int);
            }
        }
    }
}

proof fn lemma_cut_lines(b: Seq<u8>, n: int, p: int, k: int)
    requires
        0 <= p <= n <= b.len(),
    ensures
        cut_read(lines(b, p, k), lines(b.take(n), p, k), n),
        lines(b, p, k) matches Ok((x, q)) ==> p <= q,
    decreases k,
{
    if k > 0 {
        lemma_cut_lines(b, n, p, k - 1);
        if let Ok((ls, q)) = lines(b, p, k - 1) {
            if q <= n {
                lemma_cut_number(b, n, q, 4);
            }
        }
    }
}

proof fn lemma_cut_body(b: Seq<u8>, n: int, p: int)
    requires
        0 <= p <= n <= b.len(),
    ensures
        cut_read(body(b, p), body(b.take(n), p), n),
        body(b, p) matches Ok((x, q)) ==> p <= q,
{
    lemma_cut_number(b, n, p, 4);
    if let Ok((k, q)) = number(b, p, 4) {
        if let Ok((code, r)) = take(b, q, k as int) {
            if let Ok((count, s)) = number(b, r, 4) {
                lemma_lines_forward(b, s, count as int);
            }
        }
        if q <= n {
            lemma_cut_take(b, n, q, k as int);
            if let Ok((code, r)) = take(b, q, k as int) {
                if r <= n {
                    lemma_cut_number(b, n, r, 4);
                    if let Ok((count, s)) = number(b, r, 4) {
                        if s <= n {
                            lemma_cut_lines(b, n, s, count as int);
                        }
                    }
                }
            }
        }
    }
}

proof fn lemma_cut_function(b: Seq<u8>, n: int, p: int)
    requires
        0 <= p <= n <= b.len(),
    ensures
        cut_read(function(b, p), function(b.take(n), p), n),
        function(b, p) matches Ok((x, q)) ==> p <= q,
{
    lemma_cut_string(b, n, p);
    if let Ok((name, q)) = string(b, p) {
        lemma_body_forward(b, q + 2);
        if q <= n {
            lemma_cut_number(b, n, q, 1);
            if let Ok((arity, r)) = number(b, q, 1) {
                if r <= n {
                    lemma_cut_number(b, n, r, 1);
                    if let Ok((regs, s)) = number(b, r, 1) {
                        if s <= n {
                            lemma_cut_body(b, n, s);
                        }
                    }
                }
            }
        }
    }
}

proof fn lemma_cut_functions(b: Seq<u8>, n: int, p: int, k: int)
    requires
        0 <= p <= n <= b.len(),
    ensures
        cut_read(functions(b, p, k), functions(b.take(n), p, k), n),
        functions(b, p, k) matches Ok((x, q)) ==> p <= q,
    decreases k,
{
    if k > 0 {
        lemma_cut_functions(b, n, p, k - 1);
        if let Ok((fs, q)) = functions(b, p, k - 1) {
            lemma_function_forward(b, q);
            if q <= n {
                lemma_cut_function(b, n, q);
            }
        }
    }
}

/// Bytes of a module that are cut off anywhere are refused as such.
#[verifier::spinoff_prover]
#[verifier::rlimit(60)]
pub proof fn law_cut_modules_are_refused(m: ModuleModel, n: int)
    requires
        encodable(m),
        0 <= n < encoded(m).len(),
    ensures
        decoded(encoded(m).take(n)) == Err::<ModuleModel, BytecodeError>(BytecodeError::Truncated),
{
    let b = encoded(m);
    let c = b.take(n);
    let (p, q) = lemma_encoded(m);
    lemma_cut_take(b, n, 0, 8);
    if n >= 8 {
        lemma_cut_number(b, n, 8, 4);
        if n >= 12 {
            lemma_cut_number(b, n, 12, 4);
            if n >= 16 {
                lemma_cut_constants(b, n, 16, m.constants.len() as int);
                if n >= p {
                    lemma_cut_number(b, n, p, 4);
                    if n >= q {
                        lemma_cut_functions(b, n, q, m.functions.len() as int);
                    }
                }
            }
        }
    }
}

proof fn lemma_bad_magic(b: Seq<u8>)
    requires
        b.len() >= 8,
        b.take(8) != magic(),
    ensures
        decoded(b) == Err::<ModuleModel, BytecodeError>(BytecodeError::BadMagic),
{
    assert(b.subrange(0, 8) =~= b.take(8));
}

proof fn lemma_magic_first(m: ModuleModel)
    ensures
        encoded(m).len() >= 8,
        encoded(m).take(8) == magic(),
{
    assert(encoded(m).take(8) =~= magic());
}

/// Bytes that do not begin as a module does are no module, and so is a module of which one
/// of the first eight bytes is another.
pub proof fn law_other_beginnings_are_refused(m: ModuleModel, b: Seq<u8>, i: int, x: u8)
    requires
        0 <= i < 8,
        x != encoded(m)[i],
    ensures
        b.len() >= 8 && b.take(8) != magic() ==> decoded(b) == Err::<ModuleModel, BytecodeError>(BytecodeError::BadMagic),
        decoded(encoded(m).update(i, x)) == Err::<ModuleModel, BytecodeError>(BytecodeError::BadMagic),
{
    if b.len() >= 8 && b.take(8) != magic() {
        lemma_bad_magic(b);
    }
    let c = encoded(m).update(i, x);
    lemma_magic_first(m);
    assert(c.take(8)[i] == x);
    assert(encoded(m).take(8)[i] == encoded(m)[i]);
    lemma_bad_magic(c);
}

/// A module of another version of the format is refused by that version.
pub proof fn law_other_versions_are_told(m: ModuleModel, v: u32)
    requires
        v != FORMAT_VERSION,
    ensures
        decoded(encoded(m).take(8) + wire::le(v as nat, 4) + encoded(m).skip(12)) == Err::<ModuleModel, BytecodeError>(
            BytecodeError::UnsupportedVersion(v),
        ),
        encoded(m).subrange(8, 12) == wire::le(FORMAT_VERSION as nat, 4),
{
    wire::lemma_ranges();
    wire::law_le_round_trip(v as nat, 4);
    wire::lemma_le_len(v as nat, 4);
    wire::lemma_le_len(FORMAT_VERSION as nat, 4);
    let c = encoded(m).take(8) + wire::le(v as nat, 4) + encoded(m).skip(12);
    assert(encoded(m).subrange(8, 12) =~= wire::le(FORMAT_VERSION as nat, 4));
    assert(c.subrange(0, 8) =~= magic());
    assert(c.subrange(8, 12) =~= wire::le(v as nat, 4));
}

fn push_len(out: &mut Vec<u8>, n: usize)
    ensures
        final(out)@ == old(out)@ + len_bytes(n as nat),
{
    let v: u32 = #[verifier::truncate] (n as u32);
    push_le(out, v as u64, 4);
}

fn push_str(out: &mut Vec<u8>, s: &String)
    ensures
        final(out)@ == old(out)@ + str_bytes(s@),
{
    let b = s.as_str().as_bytes();
    push_len(out, b.len());
    push_all(out, b);
    assert(out@ =~= old(out)@ + str_bytes(s@));
}

fn push_const(out: &mut Vec<u8>, c: &Const)
    ensures
        final(out)@ == old(out)@ + const_bytes(c@),
{
    match c {
        Const::Int(v) => {
            out.push(0);
            let w: u64 = #[verifier::truncate] (*v as u64);
            push_le(out, w, 8);
        },
        Const::Float(b) => {
            out.push(1);
            push_le(out, *b, 8);
        },
        Const::Str(s) => {
            out.push(2);
            push_str(out, s);
        },
    }
    assert(out@ =~= old(out)@ + const_bytes(c@));
}

fn push_lines(out: &mut Vec<u8>, ls: &Vec<u32>)
    ensures
        final(out)@ == old(out)@ + lines_bytes(ls@, ls@.len() as int),
{
    let mut i: usize = 0;
    assert(out@ =~= old(out)@ + lines_bytes(ls@, 0));
    while i < ls.len()
        invariant
            i <= ls@.len(),
            out@ == old(out)@ + lines_bytes(ls@, i as int),
        decreases ls.len() - i,
    {
        push_le(out, ls[i] as u64, 4);
        i += 1;
        assert(out@ =~= old(out)@ + lines_bytes(ls@, i as int));
    }
}

fn push_fn(out: &mut Vec<u8>, f: &FunctionBytecode)
    ensures
        final(out)@ == old(out)@ + fn_bytes(f@),
{
    push_str(out, &f.name);
    out.push(f.arity);
    out.push(f.max_register);
    push_len(out, f.code.len());
    push_all(out, f.code.as_slice());
    push_len(out, f.line_for_pc.len());
    push_lines(out, &f.line_for_pc);
    assert(out@ =~= old(out)@ + fn_bytes(f@));
}

/// Writes `module` as bytes: the magic, the version, the constants behind their number,
/// the functions behind theirs.
pub fn encode(module: &Module) -> (r: Vec<u8>)
    ensures
        r@ == encoded(module@),
{
    let ghost m = module@;
    let mut buf: Vec<u8> = vec![0x45u8, 0x4E, 0x47, 0x4E, 0x53, 0x4C, 0x49, 0x31];
    assert(buf@ =~= magic());
    push_le(&mut buf, FORMAT_VERSION as u64, 4);
    push_len(&mut buf, module.constants.len());
    let ghost b0 = buf@;
    let mut i: usize = 0;
    assert(buf@ =~= b0 + consts_bytes(m.constants, 0));
    while i < module.constants.len()
        invariant
            i <= module.constants@.len(),
            m == module@,
            buf@ == b0 + consts_bytes(m.constants, i as int),
        decreases module.constants.len() - i,
    {
        assert(m.constants[i as int] == module.constants@[i as int]@);
        push_const(&mut buf, &module.constants[i]);
        i += 1;
        assert(buf@ =~= b0 + consts_bytes(m.constants, i as int));
    }
    push_len(&mut buf, module.functions.len());
    let ghost b1 = buf@;
    let mut j: usize = 0;
    assert(buf@ =~= b1 + fns_bytes(m.functions, 0));
    while j < module.functions.len()
        invariant
            j <= module.functions@.len(),
            m == module@,
            buf@ == b1 + fns_bytes(m.functions, j as int),
        decreases module.functions.len() - j,
    {
        assert(m.functions[j as int] == module.functions@[j as int]@);
        push_fn(&mut buf, &module.functions[j]);
        j += 1;
        assert(buf@ =~= b1 + fns_bytes(m.functions, j as int));
    }
    assert(buf@ =~= encoded(m));
    buf
}

fn read_number(b: &[u8], p: usize, n: usize) -> (r: Result<(u64, usize), BytecodeError>)
    requires
        p <= b@.len(),
        n <= 8,
    ensures
        match r {
            Ok((v, q)) => number(b@, p as int, n as int) == Ok::<(nat, int), BytecodeError>((v as nat, q as int)) && q
                == p + n && q <= b@.len() && v < wire::range(n as nat),
            Err(e) => number(b@, p as int, n as int) == Err::<(nat, int), BytecodeError>(e),
        },
{
    if n > b.len() - p {
        Err(BytecodeError::Truncated)
    } else {
        Ok((read_le(b, p, n), p + n))
    }
}

fn read_string(b: &[u8], p: usize) -> (r: Result<(String, usize), BytecodeError>)
    requires
        p <= b@.len(),
    ensures
        match r {
            Ok((s, q)) => string(b@, p as int) == Ok::<(Seq<char>, int), BytecodeError>((s@, q as int)) && q <= b@.len(),
            Err(e) => string(b@, p as int) == Err::<(Seq<char>, int), BytecodeError>(e),
        },
{
    match read_number(b, p, 4) {
        Err(e) => Err(e),
        Ok((n, q)) => {
            proof {
                wire::lemma_ranges();
            }
            if n > (b.len() - q) as u64 {
                return Err(BytecodeError::Truncated);
            }
            let part = copy_range(b, q, q + n as usize);
            match string_from_utf8(part) {
                Some(s) => Ok((s, q + n as usize)),
                None => Err(BytecodeError::BadUtf8),
            }
        },
    }
}

fn read_const(b: &[u8], p: usize) -> (r: Result<(Const, usize), BytecodeError>)
    requires
        p <= b@.len(),
    ensures
        match r {
            Ok((c, q)) => constant(b@, p as int) == Ok::<(ConstModel, int), BytecodeError>((c@, q as int)) && q
                <= b@.len(),
            Err(e) => constant(b@, p as int) == Err::<(ConstModel, int), BytecodeError>(e),
        },
{
    proof {
        wire::lemma_ranges();
    }
    match read_number(b, p, 1) {
        Err(e) => Err(e),
        Ok((tag, q)) => {
            if tag == 0 {
                match read_number(b, q, 8) {
                    Err(e) => Err(e),
                    Ok((n, r)) => Ok((Const::Int(#[verifier::truncate] (n as i64)), r)),
                }
            } else if tag == 1 {
                match read_number(b, q, 8) {
                    Err(e) => Err(e),
                    Ok((n, r)) => Ok((Const::Float(n), r)),
                }
            } else if tag == 2 {
                match read_string(b, q) {
                    Err(e) => Err(e),
                    Ok((s, r)) => Ok((Const::Str(s), r)),
                }
            } else {
                Err(BytecodeError::UnknownConstTag(tag as u8))
            }
        },
    }
}

proof fn lemma_constants_fail(b: Seq<u8>, p: int, i: int, k: int)
    requires
        0 <= i <= k,
        constants(b, p, i) is Err,
    ensures
        constants(b, p, k) == constants(b, p, i),
    decreases k - i,
{
    if i < k {
        lemma_constants_fail(b, p, i, k - 1);
    }
}

proof fn lemma_lines_fail(b: Seq<u8>, p: int, i: int, k: int)
    requires
        0 <= i <= k,
        lines(b, p, i) is Err,
    ensures
        lines(b, p, k) == lines(b, p, i),
    decreases k - i,
{
    if i < k {
        lemma_lines_fail(b, p, i, k - 1);
    }
}

proof fn lemma_functions_fail(b: Seq<u8>, p: int, i: int, k: int)
    requires
        0 <= i <= k,
        functions(b, p, i) is Err,
    ensures
        functions(b, p, k) == functions(b, p, i),
    decreases k - i,
{
    if i < k {
        lemma_functions_fail(b, p, i, k - 1);
    }
}

fn read_constants(b: &[u8], p: usize, k: u64) -> (r: Result<(Vec<Const>, usize), BytecodeError>)
    requires
        p <= b@.len(),
    ensures
        match r {
            Ok((cs, q)) => constants(b@, p as int, k as int) == Ok::<(Seq<ConstModel>, int), BytecodeError>(
                (views::views(cs@), q as int),
            ) && q <= b@.len(),
            Err(e) => constants(b@, p as int, k as int) == Err::<(Seq<ConstModel>, int), BytecodeError>(e),
        },
{
    let mut out: Vec<Const> = Vec::new();
    let mut q: usize = p;
    let mut i: u64 = 0;
    assert(views::views(out@) =~= Seq::empty());
    while i < k
        invariant
            i <= k,
            q <= b@.len(),
            constants(b@, p as int, i as int) == Ok::<(Seq<ConstModel>, int), BytecodeError>(
                (views::views(out@), q as int),
            ),
        decreases k - i,
    {
        match read_const(b, q) {
            Err(e) => {
                proof {
                    lemma_constants_fail(b@, p as int, i + 1, k as int);
                }
                return Err(e);
            },
            Ok((c, r)) => {
                proof {
                    views::lemma_views_push(out@, c);
                }
                out.push(c);
                q = r;
            },
        }
        i += 1;
    }
    Ok((out, q))
}

fn read_lines(b: &[u8], p: usize, k: u64) -> (r: Result<(Vec<u32>, usize), BytecodeError>)
    requires
        p <= b@.len(),
    ensures
        match r {
            Ok((ls, q)) => lines(b@, p as int, k as int) == Ok::<(Seq<u32>, int), BytecodeError>((ls@, q as int)) && q
                <= b@.len(),
            Err(e) => lines(b@, p as int, k as int) == Err::<(Seq<u32>, int), BytecodeError>(e),
        },
{
    let mut out: Vec<u32> = Vec::new();
    let mut q: usize = p;
    let mut i: u64 = 0;
    while i < k
        invariant
            i <= k,
            q <= b@.len(),
            lines(b@, p as int, i as int) == Ok::<(Seq<u32>, int), BytecodeError>((out@, q as int)),
        decreases k - i,
    {
        proof {
            wire::lemma_ranges();
        }
        match read_number(b, q, 4) {
            Err(e) => {
                proof {
                    lemma_lines_fail(b@, p as int, i + 1, k as int);
                }
                return Err(e);
            },
            Ok((n, r)) => {
                out.push(n as u32);
                q = r;
            },
        }
        i += 1;
    }
    Ok((out, q))
}

fn read_body(b: &[u8], p: usize) -> (r: Result<(Vec<u8>, Vec<u32>, usize), BytecodeError>)
    requires
        p <= b@.len(),
    ensures
        match r {
            Ok((c, ls, q)) => body(b@, p as int) == Ok::<((Seq<u8>, Seq<u32>), int), BytecodeError>(
                ((c@, ls@), q as int),
            ) && q <= b@.len(),
            Err(e) => body(b@, p as int) == Err::<((Seq<u8>, Seq<u32>), int), BytecodeError>(e),
        },
{
    match read_number(b, p, 4) {
        Err(e) => Err(e),
        Ok((n, q)) => {
            proof {
                wire::lemma_ranges();
            }
            if n > (b.len() - q) as u64 {
                return Err(BytecodeError::Truncated);
            }
            let r: usize = q + n as usize;
            let code = copy_range(b, q, r);
            match read_number(b, r, 4) {
                Err(e) => Err(e),
                Ok((count, s)) => match read_lines(b, s, count) {
                    Err(e) => Err(e),
                    Ok((ls, t)) => Ok((code, ls, t)),
                },
            }
        },
    }
}

fn read_function(b: &[u8], p: usize) -> (r: Result<(FunctionBytecode, usize), BytecodeError>)
    requires
        p <= b@.len(),
    ensures
        match r {
            Ok((f, q)) => function(b@, p as int) == Ok::<(FunctionModel, int), BytecodeError>((f@, q as int)) && q
                <= b@.len(),
            Err(e) => function(b@, p as int) == Err::<(FunctionModel, int), BytecodeError>(e),
        },
{
    proof {
        wire::lemma_ranges();
    }
    match read_string(b, p) {
        Err(e) => Err(e),
        Ok((name, q)) => match read_number(b, q, 1) {
            Err(e) => Err(e),
            Ok((arity, r)) => match read_number(b, r, 1) {
                Err(e) => Err(e),
                Ok((regs, s)) => match read_body(b, s) {
                    Err(e) => Err(e),
                    Ok((code, line_for_pc, t)) => Ok(
                        (
                            FunctionBytecode {
                                name,
                                arity: arity as u8,
                                max_register: regs as u8,
                                code,
                                line_for_pc,
                            },
                            t,
                        ),
                    ),
                },
            },
        },
    }
}

fn read_functions(b: &[u8], p: usize, k: u64) -> (r: Result<(Vec<FunctionBytecode>, Vec<(String, u16)>), BytecodeError>)
    requires
        p <= b@.len(),
    ensures
        match r {
            Ok((fs, index)) => {
                &&& functions(b@, p as int, k as int) matches Ok((m, q))
                &&& m == views::views(fs@)
                &&& index_model(index@) == index_of(m)
            },
            Err(e) => functions(b@, p as int, k as int) == Err::<(Seq<FunctionModel>, int), BytecodeError>(e),
        },
{
    let mut out: Vec<FunctionBytecode> = Vec::new();
    let mut index: Vec<(String, u16)> = Vec::new();
    let mut q: usize = p;
    let mut i: u64 = 0;
    assert(views::views(out@) =~= Seq::empty());
    while i < k
        invariant
            i <= k,
            q <= b@.len(),
            out@.len() == i,
            functions(b@, p as int, i as int) == Ok::<(Seq<FunctionModel>, int), BytecodeError>(
                (views::views(out@), q as int),
            ),
            index_model(index@) == index_of(views::views(out@)),
        decreases k - i,
    {
        match read_function(b, q) {
            Err(e) => {
                proof {
                    lemma_functions_fail(b@, p as int, i + 1, k as int);
                }
                return Err(e);
            },
            Ok((f, r)) => {
                let ghost was = index@;
                let ghost m = views::views(out@);
                proof {
                    views::lemma_views_push(out@, f);
                }
                index.push((f.name.clone(), (i % 0x1_0000) as u16));
                assert(index_model(index@) =~= index_model(was).push((f@.name, (i % 0x1_0000) as u16)));
                out.push(f);
                assert(index_of(m.push(f@)) =~= index_of(m).push((f@.name, (i % 0x1_0000) as u16)));
                q = r;
            },
        }
        i += 1;
    }
    Ok((out, index))
}

fn starts_with_magic(b: &[u8]) -> (r: bool)
    requires
        b@.len() >= 8,
    ensures
        r == (b@.subrange(0, 8) == magic()),
{
    let r: bool = b[0] == 0x45 && b[1] == 0x4E && b[2] == 0x47 && b[3] == 0x4E && b[4] == 0x53 && b[5] == 0x4C && b[6]
        == 0x49 && b[7] == 0x31;
    let ghost s = b@.subrange(0, 8);
    proof {
        if r {
            assert(s =~= magic());
        } else {
            assert(s[0] == b@[0] && s[1] == b@[1] && s[2] == b@[2] && s[3] == b@[3]);
            assert(s[4] == b@[4] && s[5] == b@[5] && s[6] == b@[6] && s[7] == b@[7]);
        }
    }
    r
}

/// Reads a module from the bytes that [`encode`] writes.
pub fn decode(bytes: &[u8]) -> (r: Result<Module, BytecodeError>)
    ensures
        match r {
            Ok(m) => decoded(bytes@) == Ok::<ModuleModel, BytecodeError>(m@),
            Err(e) => decoded(bytes@) == Err::<ModuleModel, BytecodeError>(e),
        },
{
    proof {
        wire::lemma_ranges();
    }
    if bytes.len() < 8 {
        return Err(BytecodeError::Truncated);
    }
    if !starts_with_magic(bytes) {
        return Err(BytecodeError::BadMagic);
    }
    match read_number(bytes, 8, 4) {
        Err(e) => Err(e),
        Ok((v, q)) => {
            if v != FORMAT_VERSION as u64 {
                return Err(BytecodeError::UnsupportedVersion(v as u32));
            }
            match read_number(bytes, q, 4) {
                Err(e) => Err(e),
                Ok((n, q2)) => match read_constants(bytes, q2, n) {
                    Err(e) => Err(e),
                    Ok((constants, r2)) => match read_number(bytes, r2, 4) {
                        Err(e) => Err(e),
                        Ok((k, s)) => match read_functions(bytes, s, k) {
                            Err(e) => Err(e),
                            Ok((functions, function_index)) => Ok(Module { constants, functions, function_index }),
                        },
                    },
                },
            }
        },
    }
}

/// Whether `module` comes back the same from its bytes.
pub fn roundtrip_eq(module: &Module) -> (r: bool)
    ensures
        r == (decoded(encoded(module@)) == Ok::<ModuleModel, BytecodeError>(module@)),
        encodable(module@) ==> r,
{
    proof {
        if encodable(module@) {
            law_decode_encode(module@);
        }
    }
    let bytes = encode(module);
    match decode(bytes.as_slice()) {
        Ok(m) => m.same(module),
        Err(_) => false,
    }
}

} // verus!
