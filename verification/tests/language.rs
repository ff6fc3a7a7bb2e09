//! Numbers, texts, constants, diagnostics and host calls.

use sliced_engine::compile::CompileError;
use sliced_engine::consteval::{eval_consts, ConstValue};
use sliced_engine::diag::{Diagnostic, Diagnostics};
use sliced_engine::ffi::CallTable;
use sliced_engine::float;
use sliced_engine::gc::{GcConfig, Heap, Obj};
use sliced_engine::lex::{lex, TokenKind};
use sliced_engine::parse::parse;
use sliced_engine::source::{FileId, Source, SourceMap, Span};
use sliced_engine::verify::verify;
use sliced_engine::vm::summary;
use sliced_engine::vm::value::describe;
use sliced_engine::watch_expr::{evaluate, validate, WatchError};
use sliced_engine::{Compiler, StopReason, Value, Vm};

const SAMPLES: [f64; 16] = [
    0.0, -0.0, 1.0, -1.5, 0.1, 0.3, 1e21, 1e-7, 123456789.125, 5e-324, 1.7976931348623157e308,
    2.2250738585072014e-308, 4.35, 1e15, 1e16, 9007199254740993.0,
];

#[test]
fn float_texts_are_shortest() {
    for x in SAMPLES {
        let v = Value::Float(x.to_bits());
        assert_eq!(summary(&v), format!("{x}"));
        assert_eq!(describe(&v), format!("Float({x:?})"));
    }
    assert_eq!(summary(&Value::Float(f64::INFINITY.to_bits())), "inf");
    assert_eq!(summary(&Value::Float(f64::NAN.to_bits())), "NaN");
}

#[test]
fn float_arithmetic_rounds_to_nearest() {
    for a in SAMPLES {
        for b in SAMPLES {
            let (x, y) = (a.to_bits(), b.to_bits());
            assert_eq!(float::plus(x, y), (a + b).to_bits(), "{a} + {b}");
            assert_eq!(float::minus(x, y), (a - b).to_bits(), "{a} - {b}");
            assert_eq!(float::times(x, y), (a * b).to_bits(), "{a} * {b}");
            if b != 0.0 {
                assert_eq!(float::over(x, y), (a / b).to_bits(), "{a} / {b}");
                assert_eq!(float::rem(x, y), (a % b).to_bits(), "{a} % {b}");
            }
        }
    }
}

#[test]
fn values_have_short_texts() {
    assert_eq!(summary(&Value::Str("a\"b\n".to_string())), "\"a\\\"b\\n\"");
    assert_eq!(describe(&Value::Str("x".to_string())), "Str(\"x\")");
    assert_eq!(summary(&Value::Nil), "nil");
    assert_eq!(summary(&Value::Handle(255)), "Handle(0xff)");
    assert_eq!(describe(&Value::Int(-3)), "Int(-3)");
}

fn compiled(text: &str) -> sliced_engine::Compiled {
    let mut sm = SourceMap::new();
    let id = sm.add(Source::new("t.sli".to_string(), text.to_string()));
    Compiler::new().compile(id, sm.get(id)).unwrap()
}

fn run(text: &str) -> StopReason {
    let c = compiled(text);
    assert!(!c.diagnostics.has_errors(), "{:?}", c.diagnostics.all());
    verify(&c.bytecode).unwrap();
    let mut vm: Vm<()> = Vm::new(c.bytecode);
    vm.call("main", vec![])
}

#[test]
fn runtime_errors_stop_the_machine() {
    assert_eq!(
        run("fn main() -> i64 { let z: i64 = 0; return 1 / z; }"),
        StopReason::Error("integer division by zero".to_string())
    );
    let mut vm: Vm<()> = Vm::new(compiled("fn f() -> nil { return; }").bytecode);
    assert_eq!(
        vm.call("g", vec![]),
        StopReason::Error("no function named `g`".to_string())
    );
    assert_eq!(vm.call("f", vec![]), StopReason::Returned(Value::Nil));
}

#[test]
fn shadowing_loops_and_logic_run() {
    assert_eq!(
        run("fn main() -> i64 { let mut i: i64 = 0; while i * i < 49 { i = i + 1; } return i; }"),
        StopReason::Returned(Value::Int(7))
    );
    assert_eq!(
        run("fn main() -> bool { let z: i64 = 0; return z == 0 && !(z > 1); }"),
        StopReason::Returned(Value::Bool(true))
    );
    assert_eq!(
        run("fn main() -> i64 { let x: i64 = 1; let x: i64 = x + 1; return x; }"),
        StopReason::Returned(Value::Int(2))
    );
}

#[test]
fn compiling_fills_the_side_tables() {
    let c = compiled("const N: i64 = 6 * 7;\nfn main() -> i64 { return N; }\n");
    assert_eq!(c.debug.functions[0].0, "main");
    assert_eq!(c.consts.bindings.get("N"), Some(&ConstValue::Int(42)));
    assert_eq!(c.ir.functions.len(), 1);
    assert!(c.types.functions.get("main").is_some());
}

#[test]
fn constants_that_cannot_be_evaluated_are_reported() {
    let mut diags = Diagnostics::new();
    let src = Source::new("c.sli".to_string(), "const A: i64 = 1 / 0;".to_string());
    let tokens = lex(FileId(0), &src, &mut diags);
    let module = parse(&tokens, &mut diags);
    let env = eval_consts(&module, &mut diags);
    assert!(diags.has_errors());
    assert!(env.bindings.get("A").is_none());
}

#[test]
fn watches_are_evaluated_or_say_why_not() {
    let env = compiled("const x: i64 = 4;").consts;
    let e = validate("x + 1").unwrap();
    assert_eq!(evaluate(&e, &env), Ok(ConstValue::Int(5)));
    let e = validate("y + 1").unwrap();
    assert!(matches!(evaluate(&e, &env), Err(WatchError::EvalFailed { .. })));
    assert_eq!(validate("1 +"), Err(WatchError::ParseFailed));
    assert_eq!(
        validate("f()").unwrap_err().message(),
        "watch expression is impure: function calls (including FFI) are not allowed"
    );
    assert_eq!(
        validate("|x| x").unwrap_err().message(),
        "watch expression is impure: closures are not allowed in watch expressions"
    );
    assert_eq!(
        validate("1 +").unwrap_err().message(),
        "watch expression failed to parse"
    );
}

#[test]
fn streams_end_with_an_end_token() {
    let mut diags = Diagnostics::new();
    let src = Source::new("l.sli".to_string(), "let x = 0x1F; // note".to_string());
    let tokens = lex(FileId(0), &src, &mut diags);
    assert!(diags.is_empty());
    assert_eq!(tokens.last().unwrap().kind, TokenKind::Eof);
    let src = Source::new("l.sli".to_string(), "\"open".to_string());
    lex(FileId(0), &src, &mut diags);
    assert_eq!(diags.all()[0].message, "unterminated string literal");
}

#[test]
fn diagnostics_are_rendered_with_their_place() {
    let mut sm = SourceMap::new();
    let id = sm.add(Source::new("d.sli".to_string(), "one\ntwo\n".to_string()));
    let text = Diagnostic::error(Span::new(id, 4, 7), "bad".to_string()).render(&sm);
    assert!(text.contains("d.sli:2:1"), "{text}");
    assert!(text.contains("bad"), "{text}");
}

#[test]
fn host_functions_are_called_and_resumed() {
    // ConstInt r0 k0; FfiCall r1 #0 (r0); ReturnVal r1
    use_host(Ok(Value::Int(9)), StopReason::Returned(Value::Int(9)));
    use_host(
        Err("no".to_string()),
        StopReason::Error("ffi error: no".to_string()),
    );
}

fn use_host(result: Result<Value, String>, expected: StopReason) {
    let module = sliced_engine::bytecode::Module {
        constants: vec![sliced_engine::bytecode::Const::Int(4)],
        functions: vec![sliced_engine::bytecode::FunctionBytecode {
            name: "main".to_string(),
            arity: 0,
            max_register: 2,
            code: vec![
                sliced_engine::Opcode::ConstInt.to_u8(), 0, 0, 0,
                sliced_engine::Opcode::FfiCall.to_u8(), 1, 0, 0, 1, 0,
                sliced_engine::Opcode::ReturnVal.to_u8(), 1,
            ],
            line_for_pc: vec![],
        }],
        function_index: vec![("main".to_string(), 0)],
    };
    let mut vm: Vm<u8> = Vm::new(module);
    vm.ffi = CallTable::new();
    vm.ffi.register("host".to_string(), Some(1), 7);
    match vm.call("main", vec![]) {
        StopReason::Ffi { index, args, dst } => {
            assert_eq!((index, dst), (0, 1));
            assert_eq!(args, vec![Value::Int(4)]);
            assert_eq!(vm.ffi.call(index, args.len()), Ok(&7));
            assert_eq!(vm.resume(dst, result), expected);
        }
        other => panic!("expected a host call, got {other:?}"),
    }
}

#[test]
fn promoted_objects_are_found_through_their_parents() {
    let mut heap = Heap::with_config(GcConfig {
        tick_budget_us: 250,
        collect_after_allocations: 8,
    });
    let child = heap.allocate(Obj::Array(vec![Value::Int(1)]));
    let parent = heap.allocate(Obj::Array(vec![Value::Array(child)]));
    let roots = [Value::Array(parent)];
    heap.minor_collect(&roots);
    let moved = heap.minor_collect(&roots);
    assert_eq!(moved.len(), 2);
    let new_parent = moved.iter().find(|m| m.0 == parent).unwrap().1;
    let new_child = moved.iter().find(|m| m.0 == child).unwrap().1;
    match heap.get(new_parent) {
        Some(Obj::Array(items)) => assert_eq!(items, &vec![Value::Array(new_child)]),
        other => panic!("expected the parent, got {other:?}"),
    }
}

#[test]
fn a_binding_of_a_name_shares_its_register() {
    assert_eq!(
        run("fn main() -> i64 { let mut a: i64 = 1; let b: i64 = a; a = 2; return b; }"),
        StopReason::Returned(Value::Int(2))
    );
    assert_eq!(
        run("fn main() -> i64 { let mut a: i64 = 1; let b: i64 = a + 0; a = 2; return a * 10 + b; }"),
        StopReason::Returned(Value::Int(21))
    );
}

#[test]
fn integers_are_ordered_as_their_nearest_floats() {
    let ordered = |a: &str, op: &str, b: &str| {
        run(&format!("fn main() -> bool {{ let a: i64 = {a}; let b: i64 = {b}; return a {op} b; }}"))
    };
    let (x, y, z) = ("9007199254740992", "9007199254740993", "9007199254740994");
    assert_eq!(ordered(x, "<", y), StopReason::Returned(Value::Bool(false)));
    assert_eq!(ordered(x, ">=", y), StopReason::Returned(Value::Bool(true)));
    assert_eq!(ordered(x, "==", y), StopReason::Returned(Value::Bool(false)));
    assert_eq!(ordered(x, "<", z), StopReason::Returned(Value::Bool(true)));
    assert_eq!(ordered("0 - 3", "<=", "2"), StopReason::Returned(Value::Bool(true)));
    assert_eq!(ordered("0 - 3", ">", "0 - 4"), StopReason::Returned(Value::Bool(true)));
}

#[test]
fn integer_literals_become_floats_where_floats_are_asked_for() {
    assert_eq!(
        run("fn half(x: f64) -> f64 { return x + 1; }\nfn main() -> f64 { return half(0.5); }"),
        StopReason::Returned(Value::Float(1.5f64.to_bits()))
    );
    assert_eq!(
        run("fn main() -> f64 { let x: f64 = 3; return x; }"),
        StopReason::Returned(Value::Float(3.0f64.to_bits()))
    );
}

fn refused(text: &str) -> (CompileError, usize) {
    let mut sm = SourceMap::new();
    let id = sm.add(Source::new("t.sli".to_string(), text.to_string()));
    match Compiler::new().compile(id, sm.get(id)) {
        Ok(_) => panic!("{text}: compiled"),
        Err((kind, diags)) => (kind, diags.all().len()),
    }
}

#[test]
fn sources_of_which_nothing_compiles_are_refused() {
    let (kind, count) = refused("fn");
    assert_eq!(kind, CompileError::UnexpectedEof);
    assert!(count > 0);
    let (kind, count) = refused("17 18");
    assert_eq!(kind, CompileError::HardErrors);
    assert!(count > 0);
    assert!(!compiled("").diagnostics.has_errors());
    let partly = compiled("fn f() -> i64 { return missing; }");
    assert!(partly.diagnostics.has_errors());
    assert_eq!(partly.bytecode.functions.len(), 1);
}
