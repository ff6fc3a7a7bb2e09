//! Runtime values.

use crate::float;
use crate::gc::GcHandle;
use crate::text;
use crate::text::{push_dec, push_dec_int, push_hex, str_debug};
use vstd::prelude::*;

verus! {

/// A runtime value. Arrays, maps, structs and closures live in the heap, behind a handle.
#[derive(Debug, Default, PartialEq, Eq)]
pub enum Value {
    /// `nil`.
    #[default]
    Nil,
    /// Boolean.
    Bool(bool),
    /// Signed 64-bit integer.
    Int(i64),
    /// 64-bit float, by its bits.
    Float(u64),
    /// Text.
    Str(String),
    /// An array in the heap.
    Array(GcHandle),
    /// A map from text to values in the heap.
    Dict(GcHandle),
    /// A struct in the heap.
    Struct(GcHandle),
    /// A closure in the heap.
    Closure(GcHandle),
    /// An entity, by its number.
    Entity(u64),
    /// Some other thing of the host, by its number.
    Handle(u64),
}

/// Model of a value.
pub enum ValueModel {
    Nil,
    Bool(bool),
    Int(i64),
    Float(u64),
    Str(Seq<char>),
    Array(GcHandle),
    Dict(GcHandle),
    Struct(GcHandle),
    Closure(GcHandle),
    Entity(u64),
    Handle(u64),
}

impl View for Value {
    type V = ValueModel;

    open spec fn view(&self) -> ValueModel {
        match *self {
            Value::Nil => ValueModel::Nil,
            Value::Bool(b) => ValueModel::Bool(b),
            Value::Int(v) => ValueModel::Int(v),
            Value::Float(v) => ValueModel::Float(v),
            Value::Str(s) => ValueModel::Str(s@),
            Value::Array(h) => ValueModel::Array(h),
            Value::Dict(h) => ValueModel::Dict(h),
            Value::Struct(h) => ValueModel::Struct(h),
            Value::Closure(h) => ValueModel::Closure(h),
            Value::Entity(e) => ValueModel::Entity(e),
            Value::Handle(h) => ValueModel::Handle(h),
        }
    }
}

impl Clone for Value {
    fn clone(&self) -> (r: Value)
        ensures
            r@ == self@,
    {
        match self {
            Value::Nil => Value::Nil,
            Value::Bool(b) => Value::Bool(*b),
            Value::Int(v) => Value::Int(*v),
            Value::Float(v) => Value::Float(*v),
            Value::Str(s) => Value::Str(s.clone()),
            Value::Array(h) => Value::Array(*h),
            Value::Dict(h) => Value::Dict(*h),
            Value::Struct(h) => Value::Struct(*h),
            Value::Closure(h) => Value::Closure(*h),
            Value::Entity(e) => Value::Entity(*e),
            Value::Handle(h) => Value::Handle(*h),
        }
    }
}

/// The heap object that a value stands for.
pub open spec fn handle_of(v: ValueModel) -> Option<GcHandle> {
    match v {
        ValueModel::Array(h) => Some(h),
        ValueModel::Dict(h) => Some(h),
        ValueModel::Struct(h) => Some(h),
        ValueModel::Closure(h) => Some(h),
        _ => None,
    }
}

/// A value with another handle in place of its own, where it has one.
pub open spec fn with_handle(v: ValueModel, h: GcHandle) -> ValueModel {
    match v {
        ValueModel::Array(_) => ValueModel::Array(h),
        ValueModel::Dict(_) => ValueModel::Dict(h),
        ValueModel::Struct(_) => ValueModel::Struct(h),
        ValueModel::Closure(_) => ValueModel::Closure(h),
        _ => v,
    }
}

impl Value {
    /// Whether this is `nil`.
    pub fn is_nil(&self) -> (r: bool)
        ensures
            r == (self@ is Nil),
    {
        matches!(self, Value::Nil)
    }

    /// Whether this is `true`; nothing else is taken for true.
    pub fn truthy(&self) -> (r: bool)
        ensures
            r == (self@ == ValueModel::Bool(true)),
    {
        matches!(self, Value::Bool(true))
    }

    /// The integer.
    pub fn as_int(&self) -> (r: i64)
        requires
            self@ is Int,
        ensures
            self@ == ValueModel::Int(r),
    {
        match self {
            Value::Int(v) => *v,
            _ => 0,
        }
    }

    /// The float, by its bits.
    pub fn as_float(&self) -> (r: u64)
        requires
            self@ is Float,
        ensures
            self@ == ValueModel::Float(r),
    {
        match self {
            Value::Float(v) => *v,
            _ => 0,
        }
    }

    /// The boolean.
    pub fn as_bool(&self) -> (r: bool)
        requires
            self@ is Bool,
        ensures
            self@ == ValueModel::Bool(r),
    {
        match self {
            Value::Bool(v) => *v,
            _ => false,
        }
    }

    /// Whether two values are the same: floats by their bits, heap objects by their handle.
    pub fn same(&self, other: &Value) -> (r: bool)
        ensures
            r == (self@ == other@),
    {
        match (self, other) {
            (Value::Nil, Value::Nil) => true,
            (Value::Bool(a), Value::Bool(b)) => *a == *b,
            (Value::Int(a), Value::Int(b)) => *a == *b,
            (Value::Float(a), Value::Float(b)) => *a == *b,
            (Value::Str(a), Value::Str(b)) => a.as_str().eq(b.as_str()),
            (Value::Array(a), Value::Array(b)) => *a == *b,
            (Value::Dict(a), Value::Dict(b)) => *a == *b,
            (Value::Struct(a), Value::Struct(b)) => *a == *b,
            (Value::Closure(a), Value::Closure(b)) => *a == *b,
            (Value::Entity(a), Value::Entity(b)) => *a == *b,
            (Value::Handle(a), Value::Handle(b)) => *a == *b,
            _ => false,
        }
    }

    /// The heap object that this value stands for.
    pub fn handle(&self) -> (r: Option<GcHandle>)
        ensures
            r == handle_of(self@),
    {
        match self {
            Value::Array(h) => Some(*h),
            Value::Dict(h) => Some(*h),
            Value::Struct(h) => Some(*h),
            Value::Closure(h) => Some(*h),
            _ => None,
        }
    }

    pub(crate) fn set_handle(&mut self, h: GcHandle)
        ensures
            final(self)@ == with_handle(old(self)@, h),
    {
        match self {
            Value::Array(_) => {
                *self = Value::Array(h);
            },
            Value::Dict(_) => {
                *self = Value::Dict(h);
            },
            Value::Struct(_) => {
                *self = Value::Struct(h);
            },
            Value::Closure(_) => {
                *self = Value::Closure(h);
            },
            _ => {},
        }
    }
}

/// `true` or `false`.
pub open spec fn bool_text(b: bool) -> Seq<char> {
    if b {
        "true"@
    } else {
        "false"@
    }
}

/// A handle in words.
pub open spec fn handle_text(kind: Seq<char>, h: GcHandle) -> Seq<char> {
    kind + "(GcHandle("@ + text::dec(h.0 as nat) + "))"@
}

/// A short text for a value. It does not look into the heap.
pub open spec fn summary_text(v: ValueModel) -> Seq<char> {
    match v {
        ValueModel::Nil => "nil"@,
        ValueModel::Bool(b) => bool_text(b),
        ValueModel::Int(i) => text::dec_int(i as int),
        ValueModel::Float(f) => float::shown(f),
        ValueModel::Str(s) => text::debug_str(s),
        ValueModel::Array(h) => handle_text("Array"@, h),
        ValueModel::Dict(h) => handle_text("Map"@, h),
        ValueModel::Struct(h) => handle_text("Struct"@, h),
        ValueModel::Closure(h) => handle_text("Closure"@, h),
        ValueModel::Entity(e) => "Entity("@ + text::dec(e as nat) + ")"@,
        ValueModel::Handle(h) => "Handle(0x"@ + text::hex(h as nat) + ")"@,
    }
}

/// A value with its kind, as error messages show it.
pub open spec fn value_text(v: ValueModel) -> Seq<char> {
    match v {
        ValueModel::Nil => "Nil"@,
        ValueModel::Bool(b) => "Bool("@ + bool_text(b) + ")"@,
        ValueModel::Int(i) => "Int("@ + text::dec_int(i as int) + ")"@,
        ValueModel::Float(f) => "Float("@ + float::pointed(f) + ")"@,
        ValueModel::Str(s) => "Str("@ + text::debug_str(s) + ")"@,
        ValueModel::Array(h) => handle_text("Array"@, h),
        ValueModel::Dict(h) => handle_text("Map"@, h),
        ValueModel::Struct(h) => handle_text("Struct"@, h),
        ValueModel::Closure(h) => handle_text("Closure"@, h),
        ValueModel::Entity(e) => "Entity("@ + text::dec(e as nat) + ")"@,
        ValueModel::Handle(h) => "Handle("@ + text::dec(h as nat) + ")"@,
    }
}

pub(crate) fn bool_str(b: bool) -> (r: &'static str)
    ensures
        r@ == bool_text(b),
{
    if b {
        "true"
    } else {
        "false"
    }
}

fn handle_string(kind: &str, h: GcHandle) -> (r: String)
    ensures
        r@ == handle_text(kind@, h),
{
    let mut s = kind.to_owned();
    s.append("(GcHandle(");
    push_dec(&mut s, h.0 as u64);
    s.append("))");
    s
}

fn wrapped(kind: &str, inner: &str) -> (r: String)
    ensures
        r@ == kind@ + inner@ + ")"@,
{
    let mut s = kind.to_owned();
    s.append(inner);
    s.append(")");
    s
}

fn dec_of(n: u64) -> (r: String)
    ensures
        r@ == text::dec(n as nat),
{
    let mut s = String::new();
    push_dec(&mut s, n);
    assert(s@ =~= text::dec(n as nat));
    s
}

fn dec_int_of(n: i64) -> (r: String)
    ensures
        r@ == text::dec_int(n as int),
{
    let mut s = String::new();
    push_dec_int(&mut s, n);
    assert(s@ =~= text::dec_int(n as int));
    s
}

/// A short text for a value, for a list of locals. It does not look into the heap.
pub fn summary(v: &Value) -> (r: String)
    ensures
        r@ == summary_text(v@),
{
    match v {
        Value::Nil => "nil".to_owned(),
        Value::Bool(b) => bool_str(*b).to_owned(),
        Value::Int(i) => dec_int_of(*i),
        Value::Float(f) => float::show(*f),
        Value::Str(s) => str_debug(s.as_str()),
        Value::Array(h) => handle_string("Array", *h),
        Value::Dict(h) => handle_string("Map", *h),
        Value::Struct(h) => handle_string("Struct", *h),
        Value::Closure(h) => handle_string("Closure", *h),
        Value::Entity(e) => wrapped("Entity(", dec_of(*e).as_str()),
        Value::Handle(h) => {
            let mut s = "Handle(0x".to_owned();
            push_hex(&mut s, *h);
            s.append(")");
            s
        },
    }
}

/// A value with its kind, as error messages show it.
pub fn describe(v: &Value) -> (r: String)
    ensures
        r@ == value_text(v@),
{
    match v {
        Value::Nil => "Nil".to_owned(),
        Value::Bool(b) => wrapped("Bool(", bool_str(*b)),
        Value::Int(i) => wrapped("Int(", dec_int_of(*i).as_str()),
        Value::Float(f) => wrapped("Float(", float::show_pointed(*f).as_str()),
        Value::Str(s) => wrapped("Str(", str_debug(s.as_str()).as_str()),
        Value::Array(h) => handle_string("Array", *h),
        Value::Dict(h) => handle_string("Map", *h),
        Value::Struct(h) => handle_string("Struct", *h),
        Value::Closure(h) => handle_string("Closure", *h),
        Value::Entity(e) => wrapped("Entity(", dec_of(*e).as_str()),
        Value::Handle(h) => wrapped("Handle(", dec_of(*h).as_str()),
    }
}

} // verus!
