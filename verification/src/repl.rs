//! Line evaluator for the interactive prompt.
//!
//! An input is tried as an expression, wrapped in a function and run; if that
//! fails, as a program. A program with an entry point named `_repl` is run; one
//! without is kept, so that later inputs can use what it declares. An input that
//! starts with a dot is a command: `.help`, `.bytecode <expr>`, `.type <expr>`,
//! `.history`, `.clear`, `.exit`.

use crate::ast;
use crate::ast::{Decl, DeclModel, Type, TypeModel};
use crate::bytecode;
use crate::bytecode::{Const, ConstModel, Module, ModuleModel};
use crate::compile;
use crate::compile::{Artefact, Compiled};
use crate::diag;
use crate::diag::{DiagnosticModel, Diagnostics};
use crate::ffi::BindingModel;
use crate::gc::heap;
use crate::resolve;
use crate::source::{FileId, Source};
use crate::text;
use crate::text::{chars_of, push_dec, push_dec_int, str_debug, string_of, trimmed};
use crate::typeck;
use crate::views;
use crate::vm::dispatch;
use crate::vm::machine;
use crate::vm::step;
use crate::vm::step::StopModel;
use crate::vm::value;
use crate::vm::value::{describe, ValueModel};
use crate::vm::{StopReason, Value, Vm};
use vstd::prelude::*;
use vstd::string::*;
use vstd::utf8::encode_utf8;

verus! {

/// Result of one evaluation.
#[derive(Clone, Debug)]
pub enum Reply {
    /// The input produced a value.
    Value(Value),
    /// The input produced nothing to show.
    Nil,
    /// A diagnostic-class error.
    Error(String),
    /// A built-in command response, already formatted for the screen.
    Builtin(String),
    /// The user typed `.exit`.
    Exit,
}

/// Model of a reply.
pub enum ReplyModel {
    Value(ValueModel),
    Nil,
    Error(Seq<char>),
    Builtin(Seq<char>),
    Exit,
}

impl View for Reply {
    type V = ReplyModel;

    open spec fn view(&self) -> ReplyModel {
        match *self {
            Reply::Value(v) => ReplyModel::Value(v@),
            Reply::Nil => ReplyModel::Nil,
            Reply::Error(e) => ReplyModel::Error(e@),
            Reply::Builtin(t) => ReplyModel::Builtin(t@),
            Reply::Exit => ReplyModel::Exit,
        }
    }
}

// --- texts ----------------------------------------------------------------------

/// What `.help` shows.
pub open spec fn help_text() -> Seq<char> {
    "sli REPL commands:\n  .help                Show this help\n  .bytecode <expr>     Show compiled bytecode of <expr>\n  .type <expr>         Show inferred type of <expr>\n  .history             Print input history\n  .clear               Clear input history\n  .exit                Leave the REPL\n\nAnything else is evaluated as an sli expression.\n"@
}

/// Texts with `sep` between two.
pub open spec fn joined(ts: Seq<Seq<char>>, sep: Seq<char>, k: int) -> Seq<char>
    decreases k,
{
    if k <= 0 {
        Seq::empty()
    } else if k == 1 {
        ts[0]
    } else {
        joined(ts, sep, k - 1) + sep + ts[k - 1]
    }
}

/// The messages of some diagnostics.
pub open spec fn messages(ds: Seq<DiagnosticModel>) -> Seq<Seq<char>> {
    Seq::new(ds.len(), |i: int| ds[i].message)
}

/// The messages of some diagnostics on one line.
pub open spec fn diag_text(ds: Seq<DiagnosticModel>) -> Seq<char> {
    joined(messages(ds), "; "@, ds.len() as int)
}

/// The values in a list.
pub open spec fn value_texts(vs: Seq<ValueModel>) -> Seq<Seq<char>> {
    Seq::new(vs.len(), |i: int| value::value_text(vs[i]))
}

/// A stop in words.
pub open spec fn stop_text(s: StopModel) -> Seq<char> {
    match s {
        StopModel::Returned(v) => "Returned("@ + value::value_text(v) + ")"@,
        StopModel::Trapped(f, pc) => "Trapped { function_id: "@ + text::dec(f as nat) + ", pc: "@ + text::dec(pc as nat)
            + " }"@,
        StopModel::Error(t) => "Error("@ + text::debug_str(step::trouble_text(t)) + ")"@,
        StopModel::OutOfSteps => "Error("@ + text::debug_str("step limit reached"@) + ")"@,
        StopModel::Ffi(index, args, dst) => "Ffi { index: "@ + text::dec(index as nat) + ", args: ["@ + joined(
            value_texts(args),
            ", "@,
            args.len() as int,
        ) + "], dst: "@ + text::dec(dst as nat) + " }"@,
    }
}

/// A type by the names of its variants, behind `out`.
pub open spec fn with_type(out: Seq<char>, t: TypeModel) -> Seq<char>
    decreases t, 0int,
{
    match t {
        TypeModel::Unknown => out + "Unknown"@,
        TypeModel::Error => out + "Error"@,
        TypeModel::Nil => out + "Nil"@,
        TypeModel::Bool => out + "Bool"@,
        TypeModel::I32 => out + "I32"@,
        TypeModel::I64 => out + "I64"@,
        TypeModel::F32 => out + "F32"@,
        TypeModel::F64 => out + "F64"@,
        TypeModel::Str => out + "Str"@,
        TypeModel::Entity => out + "Entity"@,
        TypeModel::Query(x) => with_type(out + "Query("@, *x.it) + ")"@,
        TypeModel::Res(x) => with_type(out + "Res("@, *x.it) + ")"@,
        TypeModel::ResMut(x) => with_type(out + "ResMut("@, *x.it) + ")"@,
        TypeModel::Array(x) => with_type(out + "Array("@, *x.it) + ")"@,
        TypeModel::Dict(k, v) => with_type(with_type(out + "Map("@, *k.it) + ", "@, *v.it) + ")"@,
        TypeModel::Fn(ps, r) => with_type(with_types(out + "Fn(["@, ps, ps.len() as int) + "], "@, *r.it) + ")"@,
        TypeModel::Struct(n) => out + "Struct("@ + text::debug_str(n) + ")"@,
    }
}

/// The first `k` of a list of types, behind `out`.
pub open spec fn with_types(out: Seq<char>, ts: Seq<TypeModel>, k: int) -> Seq<char>
    decreases ts, k,
{
    if k <= 0 || k > ts.len() {
        out
    } else {
        let before = with_types(out, ts, k - 1);
        with_type(
            if k > 1 {
                before + ", "@
            } else {
                before
            },
            ts[k - 1],
        )
    }
}

/// The bytes in a list.
pub open spec fn byte_texts(b: Seq<u8>) -> Seq<Seq<char>> {
    Seq::new(b.len(), |i: int| text::dec(b[i] as nat))
}

/// A constant in words.
pub open spec fn const_text(c: ConstModel) -> Seq<char> {
    match c {
        ConstModel::Int(n) => "Int("@ + text::dec_int(n as int) + ")"@,
        ConstModel::Float(b) => "Float("@ + text::dec(b as nat) + ")"@,
        ConstModel::Str(s) => "Str("@ + text::debug_str(s) + ")"@,
    }
}

/// The constants in a list.
pub open spec fn const_texts(cs: Seq<ConstModel>) -> Seq<Seq<char>> {
    Seq::new(cs.len(), |i: int| const_text(cs[i]))
}

/// What `.bytecode` shows of a module: the first function and the constants.
pub open spec fn bytecode_text(m: ModuleModel) -> Seq<char> {
    let f = m.functions[0];
    "code = ["@ + joined(byte_texts(f.code), ", "@, f.code.len() as int) + "]\nmax_register = "@ + text::dec(
        f.max_register as nat,
    ) + "\nconsts = ["@ + joined(const_texts(m.constants), ", "@, m.constants.len() as int) + "]"@
}

// --- evaluation -----------------------------------------------------------------

/// A function that returns an expression: an integer, or whatever it gives.
pub open spec fn wrapped(name: Seq<char>, expr: Seq<char>, integer: bool) -> Seq<char> {
    if integer {
        "fn "@ + name + "() -> i64 { return "@ + expr + "; }"@
    } else {
        "fn "@ + name + "() { ("@ + expr + ") }"@
    }
}

/// A program with what was declared before it.
pub open spec fn program(source: Seq<char>, declared: Seq<char>) -> Seq<char> {
    source + "\n"@ + declared
}

/// What a program compiles to.
pub open spec fn artefact(source: Seq<char>, declared: Seq<char>) -> Artefact {
    compile::built(FileId(0), encode_utf8(program(source, declared)))
}

/// The type of the expression that the first function of a program ends in, where the
/// program has no errors.
pub open spec fn inferred(source: Seq<char>, declared: Seq<char>) -> Option<TypeModel> {
    let (m, d0) = compile::parsed_source(FileId(0), encode_utf8(program(source, declared)));
    let n = m.decls.len() as int;
    let d1 = resolve::in_decls(m.decls, n, resolve::globals_of(m.decls, n), d0);
    let (typed, d2) = typeck::checked(m, d1);
    if diag::holds_error(d2) || typed.decls.len() == 0 {
        None
    } else {
        match typed.decls[0] {
            DeclModel::Fn(f) => match f.body.tail {
                Some(e) => Some(e.ty),
                None => None,
            },
            _ => None,
        }
    }
}

/// How a run of `_repl` ends, on a fresh machine.
pub open spec fn outcome(m: ModuleModel) -> StopModel {
    machine::call_from(
        m,
        Seq::<BindingModel<()>>::empty(),
        heap::empty_heap(heap::default_knobs()),
        "_repl"@,
        Seq::empty(),
    ).1
}

/// What the function `_repl` of a program gives, if it compiles and runs.
pub open spec fn run_of(source: Seq<char>, declared: Seq<char>) -> Option<ValueModel> {
    let a = artefact(source, declared);
    if diag::holds_error(a.diagnostics) {
        None
    } else {
        match outcome(a.bytecode) {
            StopModel::Returned(v) => Some(v),
            _ => None,
        }
    }
}

/// The value of an expression, if it compiles and runs.
pub open spec fn value_of(expr: Seq<char>, declared: Seq<char>) -> Option<ValueModel> {
    match run_of(wrapped("_repl"@, expr, true), declared) {
        Some(v) => Some(v),
        None => run_of(wrapped("_repl"@, expr, false), declared),
    }
}

/// The reply to a program, and what is declared behind it.
pub open spec fn program_reply(source: Seq<char>, declared: Seq<char>) -> (ReplyModel, Seq<char>) {
    let a = artefact(source, declared);
    if diag::holds_error(a.diagnostics) {
        (ReplyModel::Error(diag_text(a.diagnostics)), declared)
    } else if bytecode::id_from(a.bytecode.index, "_repl"@, 0) is None {
        (ReplyModel::Nil, program(source, declared))
    } else {
        match outcome(a.bytecode) {
            StopModel::Returned(v) => (ReplyModel::Value(v), declared),
            s => (ReplyModel::Error(stop_text(s)), declared),
        }
    }
}

/// The reply to an input that is no command, and what is declared behind it.
pub open spec fn input_reply(t: Seq<char>, declared: Seq<char>) -> (ReplyModel, Seq<char>) {
    match value_of(t, declared) {
        Some(v) => (ReplyModel::Value(v), declared),
        None => program_reply(t, declared),
    }
}

/// The type that `.type` shows.
pub open spec fn type_reply(rest: Seq<char>, declared: Seq<char>) -> ReplyModel {
    let a = artefact(wrapped("_t"@, rest, true), declared);
    if !diag::holds_error(a.diagnostics) {
        if a.types.functions.dom().contains("_t"@) {
            ReplyModel::Builtin(with_type("Some("@, a.types.functions["_t"@].ret) + ")"@)
        } else {
            ReplyModel::Builtin("None"@)
        }
    } else {
        match inferred(wrapped("_t"@, rest, false), declared) {
            Some(t) => ReplyModel::Builtin(with_type("Some("@, t) + ")"@),
            None => ReplyModel::Error(diag_text(a.diagnostics)),
        }
    }
}

/// The code that `.bytecode` shows.
pub open spec fn bytecode_reply(rest: Seq<char>, declared: Seq<char>) -> ReplyModel {
    let a = artefact(wrapped("_b"@, rest, true), declared);
    let b = artefact(wrapped("_b"@, rest, false), declared);
    if !diag::holds_error(a.diagnostics) && a.bytecode.functions.len() > 0 {
        ReplyModel::Builtin(bytecode_text(a.bytecode))
    } else if !diag::holds_error(b.diagnostics) && b.bytecode.functions.len() > 0 {
        ReplyModel::Builtin(bytecode_text(b.bytecode))
    } else {
        ReplyModel::Error(diag_text(a.diagnostics))
    }
}

/// The place of the first space from `i` on; the end, where there is none.
pub open spec fn space(s: Seq<char>, i: int) -> int
    decreases s.len() - i,
{
    if i < 0 || i >= s.len() {
        s.len() as int
    } else if s[i] == ' ' {
        i
    } else {
        space(s, i + 1)
    }
}

/// The name of a command.
pub open spec fn command_name(c: Seq<char>) -> Seq<char> {
    c.take(space(c, 0))
}

/// What follows the name of a command and one space.
pub open spec fn argument(c: Seq<char>) -> Seq<char> {
    if space(c, 0) < c.len() {
        c.skip(space(c, 0) + 1)
    } else {
        Seq::empty()
    }
}

/// Model of a session: the inputs so far, and what they declared.
#[verifier::ext_equal]
pub struct Session {
    pub history: Seq<Seq<char>>,
    pub declared: Seq<char>,
}

/// The session behind a command, and the reply to it.
pub open spec fn command(was: Session, c: Seq<char>) -> (Session, ReplyModel) {
    let name = command_name(c);
    if name == "help"@ {
        (was, ReplyModel::Builtin(help_text()))
    } else if name == "exit"@ || name == "quit"@ {
        (was, ReplyModel::Exit)
    } else if name == "history"@ {
        (was, ReplyModel::Builtin(joined(was.history, "\n"@, was.history.len() as int)))
    } else if name == "clear"@ {
        (Session { history: Seq::empty(), ..was }, ReplyModel::Builtin("history cleared"@))
    } else if name == "type"@ {
        (was, type_reply(argument(c), was.declared))
    } else if name == "bytecode"@ {
        (was, bytecode_reply(argument(c), was.declared))
    } else {
        (was, ReplyModel::Error("unknown command `."@ + name + "`"@))
    }
}

/// The session behind an input, and the reply to it.
pub open spec fn answer(was: Session, input: Seq<char>) -> (Session, ReplyModel) {
    let t = text::trim(input);
    if t.len() == 0 {
        (was, ReplyModel::Nil)
    } else if t[0] == '.' {
        command(was, t.skip(1))
    } else {
        let (reply, declared) = input_reply(t, was.declared);
        (Session { history: was.history.push(input), declared }, reply)
    }
}

/// Whether a program is small enough to be compiled.
pub open spec fn in_range(source: Seq<char>, declared: Seq<char>) -> bool {
    encode_utf8(program(source, declared)).len() <= u32::MAX
}

/// Whether both functions around an expression are small enough.
pub open spec fn both_in_range(name: Seq<char>, expr: Seq<char>, declared: Seq<char>) -> bool {
    in_range(wrapped(name, expr, true), declared) && in_range(wrapped(name, expr, false), declared)
}

/// Whether every program that an input can turn into is small enough.
pub open spec fn input_in_range(input: Seq<char>, declared: Seq<char>) -> bool {
    let t = text::trim(input);
    let rest = argument(t.skip(1));
    &&& in_range(t, declared)
    &&& both_in_range("_repl"@, t, declared)
    &&& both_in_range("_t"@, rest, declared)
    &&& both_in_range("_b"@, rest, declared)
}

fn joined_program(source: &str, declared: &str) -> (r: String)
    ensures
        r@ == program(source@, declared@),
{
    let mut out = source.to_owned();
    out.append("\n");
    out.append(declared);
    out
}

fn compile_text(source: &str, declared: &str) -> (r: Compiled)
    requires
        in_range(source@, declared@),
    ensures
        r@ == artefact(source@, declared@),
{
    let src = Source::new("<repl>".to_owned(), joined_program(source, declared));
    compile::build(FileId(0), &src)
}

fn wrap(name: &str, expr: &str, integer: bool) -> (r: String)
    ensures
        r@ == wrapped(name@, expr@, integer),
{
    let mut out = "fn ".to_owned();
    out.append(name);
    if integer {
        out.append("() -> i64 { return ");
        out.append(expr);
        out.append("; }");
    } else {
        out.append("() { (");
        out.append(expr);
        out.append(") }");
    }
    out
}

/// The type of the expression that the first function of a program ends in.
fn infer(source: &str, declared: &str) -> (r: Option<Type>)
    requires
        in_range(source@, declared@),
    ensures
        match r {
            Some(t) => inferred(source@, declared@) == Some(t@),
            None => inferred(source@, declared@) is None,
        },
{
    let src = Source::new("<repl>".to_owned(), joined_program(source, declared));
    let mut diags = Diagnostics::new();
    let mut module = compile::parse_source(FileId(0), &src, &mut diags);
    assert(diags@ =~= compile::parsed_source(FileId(0), src.bytes()).1);
    let _names = resolve::resolve(&module, &mut diags);
    let _types = typeck::check(&mut module, &mut diags);
    if diags.has_errors() || module.decls.len() == 0 {
        return None;
    }
    assert(module@.decls[0] == module.decls@[0]@);
    match &module.decls[0] {
        Decl::Fn(f) => match &f.body.tail {
            Some(e) => Some(e.ty.clone()),
            None => None,
        },
        _ => None,
    }
}

fn run_entry(module: Module) -> (r: StopReason)
    ensures
        dispatch::stop_agrees(r, outcome(module@)),
{
    let mut vm: Vm<()> = Vm::new(module);
    assert(vm.ffi@ =~= Seq::<BindingModel<()>>::empty());
    let args: Vec<Value> = Vec::new();
    assert(views::views(args@) =~= Seq::empty());
    vm.call("_repl", args)
}

fn diag_summary(diags: &Diagnostics) -> (r: String)
    ensures
        r@ == diag_text(diags@),
{
    let all = diags.all();
    let mut out = String::new();
    let mut i: usize = 0;
    assert(all@.len() == diags@.len());
    assert(out@ =~= joined(messages(diags@), "; "@, 0));
    while i < all.len()
        invariant
            i <= all@.len(),
            all@.len() == diags@.len(),
            views::views(all@) == diags@,
            out@ == joined(messages(diags@), "; "@, i as int),
        decreases all.len() - i,
    {
        assert(diags@[i as int] == all@[i as int]@);
        if i > 0 {
            out.append("; ");
        }
        out.append(all[i].message.as_str());
        i += 1;
        assert(out@ =~= joined(messages(diags@), "; "@, i as int));
    }
    out
}

fn show_values(vs: &Vec<Value>) -> (r: String)
    ensures
        r@ == joined(value_texts(views::views(vs@)), ", "@, vs@.len() as int),
{
    let ghost m = value_texts(views::views(vs@));
    let mut out = String::new();
    let mut i: usize = 0;
    assert(out@ =~= joined(m, ", "@, 0));
    while i < vs.len()
        invariant
            i <= vs@.len(),
            m == value_texts(views::views(vs@)),
            out@ == joined(m, ", "@, i as int),
        decreases vs.len() - i,
    {
        if i > 0 {
            out.append(", ");
        }
        out.append(describe(&vs[i]).as_str());
        i += 1;
        assert(out@ =~= joined(m, ", "@, i as int));
    }
    out
}

fn show_stop(s: &StopReason) -> (r: String)
    ensures
        forall|m: StopModel| dispatch::stop_agrees(*s, m) ==> r@ == #[trigger] stop_text(m),
{
    match s {
        StopReason::Returned(v) => {
            let mut out = "Returned(".to_owned();
            out.append(describe(v).as_str());
            out.append(")");
            out
        },
        StopReason::Trapped { function_id, pc } => {
            let mut out = "Trapped { function_id: ".to_owned();
            push_dec(&mut out, *function_id as u64);
            out.append(", pc: ");
            push_dec(&mut out, *pc as u64);
            out.append(" }");
            out
        },
        StopReason::Error(e) => {
            let mut out = "Error(".to_owned();
            out.append(str_debug(e.as_str()).as_str());
            out.append(")");
            out
        },
        StopReason::Ffi { index, args, dst } => {
            let mut out = "Ffi { index: ".to_owned();
            push_dec(&mut out, *index as u64);
            out.append(", args: [");
            out.append(show_values(args).as_str());
            out.append("], dst: ");
            push_dec(&mut out, *dst as u64);
            out.append(" }");
            assert(views::views(args@).len() == args@.len());
            out
        },
    }
}

fn show_type(out: &mut String, t: &Type)
    ensures
        final(out)@ == with_type(old(out)@, t@),
    decreases *t, 0int,
{
    match t {
        Type::Unknown => out.append("Unknown"),
        Type::Error => out.append("Error"),
        Type::Nil => out.append("Nil"),
        Type::Bool => out.append("Bool"),
        Type::I32 => out.append("I32"),
        Type::I64 => out.append("I64"),
        Type::F32 => out.append("F32"),
        Type::F64 => out.append("F64"),
        Type::Str => out.append("Str"),
        Type::Entity => out.append("Entity"),
        Type::Query(x) => {
            out.append("Query(");
            show_type(out, x);
            out.append(")");
        },
        Type::Res(x) => {
            out.append("Res(");
            show_type(out, x);
            out.append(")");
        },
        Type::ResMut(x) => {
            out.append("ResMut(");
            show_type(out, x);
            out.append(")");
        },
        Type::Array(x) => {
            out.append("Array(");
            show_type(out, x);
            out.append(")");
        },
        Type::Dict(k, v) => {
            out.append("Map(");
            show_type(out, k);
            out.append(", ");
            show_type(out, v);
            out.append(")");
        },
        Type::Fn(ps, r) => {
            out.append("Fn([");
            assert(decreases_to!(*ps => ps@));
            show_types(out, ps);
            out.append("], ");
            show_type(out, r);
            out.append(")");
        },
        Type::Struct(n) => {
            out.append("Struct(");
            out.append(str_debug(n.as_str()).as_str());
            out.append(")");
        },
    }
}

fn show_types(out: &mut String, ts: &Vec<Type>)
    ensures
        final(out)@ == with_types(old(out)@, ast::types_model(ts@), ts@.len() as int),
    decreases ts@, 0int,
{
    let ghost m = ast::types_model(ts@);
    let mut i: usize = 0;
    while i < ts.len()
        invariant
            i <= ts@.len(),
            m == ast::types_model(ts@),
            out@ == with_types(old(out)@, m, i as int),
        decreases ts.len() - i,
    {
        assert(decreases_to!(ts@ => ts@[i as int]));
        assert(m[i as int] == ts@[i as int]@);
        if i > 0 {
            out.append(", ");
        }
        show_type(out, &ts[i]);
        i += 1;
    }
}

fn show_bytes(b: &Vec<u8>) -> (r: String)
    ensures
        r@ == joined(byte_texts(b@), ", "@, b@.len() as int),
{
    let ghost m = byte_texts(b@);
    let mut out = String::new();
    let mut i: usize = 0;
    assert(out@ =~= joined(m, ", "@, 0));
    while i < b.len()
        invariant
            i <= b@.len(),
            m == byte_texts(b@),
            out@ == joined(m, ", "@, i as int),
        decreases b.len() - i,
    {
        if i > 0 {
            out.append(", ");
        }
        push_dec(&mut out, b[i] as u64);
        i += 1;
        assert(out@ =~= joined(m, ", "@, i as int));
    }
    out
}

fn show_const(c: &Const) -> (r: String)
    ensures
        r@ == const_text(c@),
{
    match c {
        Const::Int(n) => {
            let mut out = "Int(".to_owned();
            push_dec_int(&mut out, *n);
            out.append(")");
            out
        },
        Const::Float(b) => {
            let mut out = "Float(".to_owned();
            push_dec(&mut out, *b);
            out.append(")");
            out
        },
        Const::Str(s) => {
            let mut out = "Str(".to_owned();
            out.append(str_debug(s.as_str()).as_str());
            out.append(")");
            out
        },
    }
}

fn show_consts(cs: &Vec<Const>) -> (r: String)
    ensures
        r@ == joined(const_texts(views::views(cs@)), ", "@, cs@.len() as int),
{
    let ghost m = const_texts(views::views(cs@));
    let mut out = String::new();
    let mut i: usize = 0;
    assert(out@ =~= joined(m, ", "@, 0));
    while i < cs.len()
        invariant
            i <= cs@.len(),
            m == const_texts(views::views(cs@)),
            out@ == joined(m, ", "@, i as int),
        decreases cs.len() - i,
    {
        if i > 0 {
            out.append(", ");
        }
        out.append(show_const(&cs[i]).as_str());
        i += 1;
        assert(out@ =~= joined(m, ", "@, i as int));
    }
    out
}

fn join_lines(ts: &Vec<String>) -> (r: String)
    ensures
        r@ == joined(views::views(ts@), "\n"@, ts@.len() as int),
{
    let ghost m = views::views(ts@);
    let mut out = String::new();
    let mut i: usize = 0;
    assert(out@ =~= joined(m, "\n"@, 0));
    while i < ts.len()
        invariant
            i <= ts@.len(),
            m == views::views(ts@),
            out@ == joined(m, "\n"@, i as int),
        decreases ts.len() - i,
    {
        if i > 0 {
            out.append("\n");
        }
        out.append(ts[i].as_str());
        i += 1;
        assert(out@ =~= joined(m, "\n"@, i as int));
    }
    out
}

fn run_source(source: &str, declared: &str) -> (r: Option<Value>)
    requires
        in_range(source@, declared@),
    ensures
        match r {
            Some(v) => run_of(source@, declared@) == Some(v@),
            None => run_of(source@, declared@) is None,
        },
{
    let c = compile_text(source, declared);
    if c.diagnostics.has_errors() {
        return None;
    }
    match run_entry(c.bytecode) {
        StopReason::Returned(v) => Some(v),
        _ => None,
    }
}

fn run_expression(expr: &str, declared: &str) -> (r: Option<Value>)
    requires
        both_in_range("_repl"@, expr@, declared@),
    ensures
        match r {
            Some(v) => value_of(expr@, declared@) == Some(v@),
            None => value_of(expr@, declared@) is None,
        },
{
    match run_source(wrap("_repl", expr, true).as_str(), declared) {
        Some(v) => Some(v),
        None => run_source(wrap("_repl", expr, false).as_str(), declared),
    }
}

fn show_type_of(rest: &str, declared: &str) -> (r: Reply)
    requires
        both_in_range("_t"@, rest@, declared@),
    ensures
        r@ == type_reply(rest@, declared@),
{
    let c = compile_text(wrap("_t", rest, true).as_str(), declared);
    if c.diagnostics.has_errors() {
        return match infer(wrap("_t", rest, false).as_str(), declared) {
            Some(t) => {
                let mut out = "Some(".to_owned();
                show_type(&mut out, &t);
                out.append(")");
                Reply::Builtin(out)
            },
            None => Reply::Error(diag_summary(&c.diagnostics)),
        };
    }
    match c.types.functions.get("_t") {
        Some(sig) => {
            let mut out = "Some(".to_owned();
            show_type(&mut out, &sig.ret);
            out.append(")");
            Reply::Builtin(out)
        },
        None => Reply::Builtin("None".to_owned()),
    }
}

fn show_module(m: &Module) -> (r: String)
    requires
        m@.functions.len() > 0,
    ensures
        r@ == bytecode_text(m@),
{
    assert(m@.functions.len() == m.functions@.len());
    assert(m@.functions[0] == m.functions@[0]@);
    assert(m@.constants.len() == m.constants@.len());
    let mut out = "code = [".to_owned();
    out.append(show_bytes(&m.functions[0].code).as_str());
    out.append("]\nmax_register = ");
    push_dec(&mut out, m.functions[0].max_register as u64);
    out.append("\nconsts = [");
    out.append(show_consts(&m.constants).as_str());
    out.append("]");
    out
}

fn show_bytecode_of(rest: &str, declared: &str) -> (r: Reply)
    requires
        both_in_range("_b"@, rest@, declared@),
    ensures
        r@ == bytecode_reply(rest@, declared@),
{
    let a = compile_text(wrap("_b", rest, true).as_str(), declared);
    assert(a.bytecode@.functions.len() == a.bytecode.functions@.len());
    if !a.diagnostics.has_errors() && a.bytecode.functions.len() > 0 {
        return Reply::Builtin(show_module(&a.bytecode));
    }
    let b = compile_text(wrap("_b", rest, false).as_str(), declared);
    assert(b.bytecode@.functions.len() == b.bytecode.functions@.len());
    if !b.diagnostics.has_errors() && b.bytecode.functions.len() > 0 {
        return Reply::Builtin(show_module(&b.bytecode));
    }
    Reply::Error(diag_summary(&a.diagnostics))
}

/// One interactive session.
pub struct Repl {
    history: Vec<String>,
    declared: String,
}

impl View for Repl {
    type V = Session;

    closed spec fn view(&self) -> Session {
        Session { history: views::views(self.history@), declared: self.declared@ }
    }
}

impl Default for Repl {
    /// An empty session.
    fn default() -> (r: Repl)
        ensures
            r@ == (Session { history: Seq::empty(), declared: Seq::empty() }),
    {
        Repl::new()
    }
}

impl Repl {
    /// Constructs an empty session.
    pub fn new() -> (r: Repl)
        ensures
            r@ == (Session { history: Seq::empty(), declared: Seq::empty() }),
    {
        let r = Repl { history: Vec::new(), declared: String::new() };
        assert(r@.history =~= Seq::empty());
        r
    }

    /// Borrows the history buffer.
    pub fn history(&self) -> (r: &[String])
        ensures
            views::views(r@) == self@.history,
    {
        self.history.as_slice()
    }

    /// Evaluates one input.
    pub fn eval(&mut self, input: &str) -> (r: Reply)
        requires
            input_in_range(input@, old(self)@.declared),
        ensures
            (final(self)@, r@) == answer(old(self)@, input@),
    {
        let t = trimmed(&chars_of(input));
        if t.len() == 0 {
            return Reply::Nil;
        }
        if t[0] == '.' {
            let mut e: usize = 1;
            let ghost c = t@.skip(1);
            while e < t.len() && t[e] != ' '
                invariant
                    1 <= e <= t@.len(),
                    c == t@.skip(1),
                    space(c, e - 1) == space(c, 0),
                decreases t.len() - e,
            {
                assert(c[e - 1] == t@[e as int]);
                e += 1;
            }
            proof {
                if e < t@.len() {
                    assert(c[e - 1] == ' ');
                }
                assert(space(c, 0) == e - 1);
                assert(t@.subrange(1, e as int) =~= command_name(c));
            }
            let name = string_of(&t, 1, e);
            let rest = if e < t.len() {
                string_of(&t, e + 1, t.len())
            } else {
                String::new()
            };
            assert(rest@ =~= argument(c));
            return self.dot_command(name.as_str(), rest.as_str(), Ghost(c));
        }
        let ghost was = self.history@;
        let line = input.to_owned();
        self.history.push(line);
        proof {
            views::lemma_views_push(was, line);
        }
        let whole = string_of(&t, 0, t.len());
        assert(whole@ =~= t@);
        match run_expression(whole.as_str(), self.declared.as_str()) {
            Some(v) => Reply::Value(v),
            None => self.run_program(whole.as_str()),
        }
    }

    fn run_program(&mut self, source: &str) -> (r: Reply)
        requires
            in_range(source@, old(self)@.declared),
        ensures
            r@ == program_reply(source@, old(self)@.declared).0,
            final(self)@ == (Session { declared: program_reply(source@, old(self)@.declared).1, ..old(self)@ }),
    {
        let c = compile_text(source, self.declared.as_str());
        if c.diagnostics.has_errors() {
            return Reply::Error(diag_summary(&c.diagnostics));
        }
        if c.bytecode.function_id("_repl").is_none() {
            self.declared = joined_program(source, self.declared.as_str());
            return Reply::Nil;
        }
        let ghost m = outcome(c.bytecode@);
        let s = run_entry(c.bytecode);
        match s {
            StopReason::Returned(v) => Reply::Value(v),
            other => {
                let e = show_stop(&other);
                assert(e@ == stop_text(m));
                Reply::Error(e)
            },
        }
    }

    fn dot_command(&mut self, name: &str, rest: &str, c: Ghost<Seq<char>>) -> (r: Reply)
        requires
            name@ == command_name(c@),
            rest@ == argument(c@),
            both_in_range("_t"@, rest@, old(self)@.declared),
            both_in_range("_b"@, rest@, old(self)@.declared),
        ensures
            (final(self)@, r@) == command(old(self)@, c@),
    {
        if name.eq("help") {
            Reply::Builtin(
                "sli REPL commands:\n  .help                Show this help\n  .bytecode <expr>     Show compiled bytecode of <expr>\n  .type <expr>         Show inferred type of <expr>\n  .history             Print input history\n  .clear               Clear input history\n  .exit                Leave the REPL\n\nAnything else is evaluated as an sli expression.\n".to_owned(),
            )
        } else if name.eq("exit") || name.eq("quit") {
            Reply::Exit
        } else if name.eq("history") {
            Reply::Builtin(join_lines(&self.history))
        } else if name.eq("clear") {
            self.history = Vec::new();
            assert(self@.history =~= Seq::empty());
            Reply::Builtin("history cleared".to_owned())
        } else if name.eq("type") {
            show_type_of(rest, self.declared.as_str())
        } else if name.eq("bytecode") {
            show_bytecode_of(rest, self.declared.as_str())
        } else {
            let mut e = "unknown command `.".to_owned();
            e.append(name);
            e.append("`");
            Reply::Error(e)
        }
    }
}

// --- brackets -------------------------------------------------------------------

/// The openers less the closers from `i` on that do not stand inside a string.
pub open spec fn depth_from(s: Seq<char>, i: int, inside: bool, escaping: bool) -> int
    decreases s.len() - i,
{
    if i < 0 || i >= s.len() {
        0
    } else if inside {
        if escaping {
            depth_from(s, i + 1, true, false)
        } else if s[i] == '\\' {
            depth_from(s, i + 1, true, true)
        } else {
            depth_from(s, i + 1, s[i] != '"', false)
        }
    } else if s[i] == '{' || s[i] == '(' || s[i] == '[' {
        1 + depth_from(s, i + 1, false, false)
    } else if s[i] == '}' || s[i] == ')' || s[i] == ']' {
        -1 + depth_from(s, i + 1, false, false)
    } else {
        depth_from(s, i + 1, s[i] == '"', false)
    }
}

/// The number of unmatched openers of `input`: the prompt reads on while it is
/// positive.
pub fn unmatched_brackets(input: &str) -> (r: i32)
    requires
        input@.len() <= i32::MAX,
    ensures
        r == depth_from(input@, 0, false, false),
{
    let s = chars_of(input);
    let mut depth: i32 = 0;
    let mut inside = false;
    let mut escaping = false;
    let mut i: usize = 0;
    while i < s.len()
        invariant
            s@ == input@,
            i <= s@.len() <= i32::MAX,
            -(i as int) <= depth <= i,
            escaping ==> inside,
            depth + depth_from(s@, i as int, inside, escaping) == depth_from(s@, 0, false, false),
        decreases s.len() - i,
    {
        let c = s[i];
        if inside {
            if escaping {
                escaping = false;
            } else if c == '\\' {
                escaping = true;
            } else {
                inside = c != '"';
            }
        } else if c == '{' || c == '(' || c == '[' {
            depth += 1;
        } else if c == '}' || c == ')' || c == ']' {
            depth -= 1;
        } else {
            inside = c == '"';
        }
        i += 1;
    }
    depth
}

} // verus!
