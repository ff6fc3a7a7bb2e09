//! Host functions are found, checked and called.

use sliced_engine::ffi::CallTable;
use sliced_engine::gc::Heap;
use sliced_engine::vm::Value;
type Host = fn(&[Value], &mut Heap) -> Result<Value, String>;

fn echo(args: &[Value], _heap: &mut Heap) -> Result<Value, String> {
    args.first()
        .cloned()
        .ok_or_else(|| "expected one argument".into())
}

fn add(args: &[Value], _heap: &mut Heap) -> Result<Value, String> {
    match (args.first(), args.get(1)) {
        (Some(Value::Int(a)), Some(Value::Int(b))) => Ok(Value::Int(a + b)),
        _ => Err("expected (Int, Int)".into()),
    }
}

#[test]
fn registers_and_invokes() {
    let mut table: CallTable<Host> = CallTable::new();
    let id = table.register("echo".to_string(), Some(1), echo as Host);
    assert_eq!(table.id_of("echo"), Some(id));
    let mut heap = Heap::with_default_config();
    let out = table.call(id, 1).unwrap()(&[Value::Int(7)], &mut heap).unwrap();
    assert_eq!(out, Value::Int(7));
}

#[test]
fn arity_mismatch_is_rejected() {
    let mut table: CallTable<Host> = CallTable::new();
    let id = table.register("add".to_string(), Some(2), add as Host);
    let err = table.call(id, 1).unwrap_err();
    assert!(err.contains("expected 2 args"));
}

#[test]
fn roundtrips_every_primitive_value() {
    let mut table: CallTable<Host> = CallTable::new();
    let id = table.register("echo".to_string(), Some(1), echo as Host);
    let mut heap = Heap::with_default_config();
    let inputs = vec![
        Value::Nil,
        Value::Bool(true),
        Value::Bool(false),
        Value::Int(i64::MIN),
        Value::Int(0),
        Value::Int(i64::MAX),
        Value::Float(0.0f64.to_bits()),
        Value::Float((-0.0f64).to_bits()),
        Value::Float(f64::INFINITY.to_bits()),
        Value::Str("sliced engine".to_string()),
        Value::Entity(42),
        Value::Handle(0xDEAD_BEEF),
    ];
    for v in inputs {
        let out = table.call(id, 1).unwrap()(std::slice::from_ref(&v), &mut heap).unwrap();
        assert_eq!(out, v, "ffi did not round-trip {v:?}");
    }
}
