//! Hand-assembled programs for the aggregate opcodes.

use sliced_engine::bytecode::{Const, FunctionBytecode, Module, Opcode};
use sliced_engine::gc::{Heap, Obj};
use sliced_engine::vm::{dispatch, run, CallFrame, Value};
use sliced_engine::{ffi::CallTable, verify};

/// Assemble a one-function module from raw bytes. `max_register` should
/// be ≥ the highest register the bytecode touches.
fn module_with(code: Vec<u8>, max_register: u8, constants: Vec<Const>) -> Module {
    let f = FunctionBytecode {
        name: "main".to_string(),
        arity: 0,
        max_register,
        code,
        line_for_pc: vec![],
    };
    Module {
        constants,
        functions: vec![f],
        function_index: vec![("main".to_string(), 0)],
    }
}

fn run_main(module: Module) -> Value {
    verify::verify(&module).expect("verifier passed");
    let f = &module.functions[0];
    let frame = CallFrame::new(0, f.max_register, None);
    let mut stack = vec![frame];
    let mut heap = Heap::with_default_config();
    let ffi: CallTable<()> = CallTable::new();
    match run(&module, &mut stack, &mut heap, &ffi) {
        dispatch::StopReason::Returned(v) => v,
        other => panic!("expected Returned, got {other:?}"),
    }
}

#[test]
fn array_new_get_len_returns_length() {
    // Program:
    //   r0 = const_int 11
    //   r1 = const_int 22
    //   r2 = ArrayNew [r0, r1]
    //   r3 = ArrayLen r2
    //   return r3
    let mut code = Vec::new();
    code.push(Opcode::ConstInt.to_u8());
    code.push(0);
    code.extend_from_slice(&0u16.to_le_bytes()); // const #0
    code.push(Opcode::ConstInt.to_u8());
    code.push(1);
    code.extend_from_slice(&1u16.to_le_bytes()); // const #1
    code.push(Opcode::ArrayNew.to_u8());
    code.push(2);
    code.push(2);
    code.push(0);
    code.push(1);
    code.push(Opcode::ArrayLen.to_u8());
    code.push(3);
    code.push(2);
    code.push(Opcode::ReturnVal.to_u8());
    code.push(3);
    let module = module_with(code, 4, vec![Const::Int(11), Const::Int(22)]);
    assert_eq!(run_main(module), Value::Int(2));
}

#[test]
fn array_get_indexed_value() {
    // r0 = 100; r1 = 200; r2 = 300
    // r3 = ArrayNew [r0, r1, r2]
    // r4 = const_int 1
    // r5 = ArrayGet r3 r4
    // return r5  // 200
    let mut code = Vec::new();
    for (reg, kidx) in [(0u8, 0u16), (1, 1), (2, 2)] {
        code.push(Opcode::ConstInt.to_u8());
        code.push(reg);
        code.extend_from_slice(&kidx.to_le_bytes());
    }
    code.push(Opcode::ArrayNew.to_u8());
    code.push(3);
    code.push(3);
    code.push(0);
    code.push(1);
    code.push(2);
    code.push(Opcode::ConstInt.to_u8());
    code.push(4);
    code.extend_from_slice(&3u16.to_le_bytes()); // const #3 = 1
    code.push(Opcode::ArrayGet.to_u8());
    code.push(5);
    code.push(3);
    code.push(4);
    code.push(Opcode::ReturnVal.to_u8());
    code.push(5);
    let module = module_with(
        code,
        6,
        vec![Const::Int(100), Const::Int(200), Const::Int(300), Const::Int(1)],
    );
    assert_eq!(run_main(module), Value::Int(200));
}

#[test]
fn array_set_mutates() {
    // r0 = 1; r1 = 2; r2 = 3
    // r3 = ArrayNew [r0, r1, r2]
    // r4 = const_int 0 (index)
    // r5 = const_int 999 (new value)
    // ArraySet r3 r4 r5
    // r6 = ArrayGet r3 r4
    // return r6  // 999
    let mut code = Vec::new();
    for (reg, kidx) in [(0u8, 0u16), (1, 1), (2, 2)] {
        code.push(Opcode::ConstInt.to_u8());
        code.push(reg);
        code.extend_from_slice(&kidx.to_le_bytes());
    }
    code.push(Opcode::ArrayNew.to_u8());
    code.push(3);
    code.push(3);
    code.push(0);
    code.push(1);
    code.push(2);
    code.push(Opcode::ConstInt.to_u8());
    code.push(4);
    code.extend_from_slice(&3u16.to_le_bytes());
    code.push(Opcode::ConstInt.to_u8());
    code.push(5);
    code.extend_from_slice(&4u16.to_le_bytes());
    code.push(Opcode::ArraySet.to_u8());
    code.push(3);
    code.push(4);
    code.push(5);
    code.push(Opcode::ArrayGet.to_u8());
    code.push(6);
    code.push(3);
    code.push(4);
    code.push(Opcode::ReturnVal.to_u8());
    code.push(6);
    let module = module_with(
        code,
        7,
        vec![
            Const::Int(1),
            Const::Int(2),
            Const::Int(3),
            Const::Int(0),
            Const::Int(999),
        ],
    );
    assert_eq!(run_main(module), Value::Int(999));
}

#[test]
fn map_new_set_get_round_trip() {
    // r0 = MapNew
    // r1 = const_str "hello"
    // r2 = const_int 42
    // MapSet r0 r1 r2
    // r3 = MapGet r0 r1
    // return r3
    let code = vec![
        Opcode::MapNew.to_u8(), 0,
        Opcode::ConstStr.to_u8(), 1, 0x00, 0x00,
        Opcode::ConstInt.to_u8(), 2, 0x01, 0x00,
        Opcode::MapSet.to_u8(), 0, 1, 2,
        Opcode::MapGet.to_u8(), 3, 0, 1,
        Opcode::ReturnVal.to_u8(), 3,
    ];
    let module = module_with(
        code,
        4,
        vec![Const::Str("hello".to_string()), Const::Int(42)],
    );
    assert_eq!(run_main(module), Value::Int(42));
}

#[test]
fn map_get_missing_key_returns_nil() {
    // r0 = MapNew
    // r1 = const_str "missing"
    // r2 = MapGet r0 r1
    // return r2
    let code = vec![
        Opcode::MapNew.to_u8(), 0,
        Opcode::ConstStr.to_u8(), 1, 0x00, 0x00,
        Opcode::MapGet.to_u8(), 2, 0, 1,
        Opcode::ReturnVal.to_u8(), 2,
    ];
    let module = module_with(code, 3, vec![Const::Str("missing".to_string())]);
    assert_eq!(run_main(module), Value::Nil);
}

#[test]
fn struct_new_set_get_round_trip() {
    // r0 = StructNew
    // r1 = const_int 7
    // StructSet r0 "x"(const 0) r1
    // r2 = StructGet r0 "x"
    // return r2
    let code = vec![
        Opcode::StructNew.to_u8(), 0,
        Opcode::ConstInt.to_u8(), 1, 0x01, 0x00,
        Opcode::StructSet.to_u8(), 0, 0x00, 0x00, 1,
        Opcode::StructGet.to_u8(), 2, 0, 0x00, 0x00,
        Opcode::ReturnVal.to_u8(), 2,
    ];
    let module = module_with(
        code,
        3,
        vec![Const::Str("x".to_string()), Const::Int(7)],
    );
    assert_eq!(run_main(module), Value::Int(7));
}

#[test]
fn struct_get_missing_field_returns_nil() {
    // r0 = StructNew
    // r1 = StructGet r0 "x"
    // return r1
    let code = vec![
        Opcode::StructNew.to_u8(), 0,
        Opcode::StructGet.to_u8(), 1, 0, 0x00, 0x00,
        Opcode::ReturnVal.to_u8(), 1,
    ];
    let module = module_with(code, 2, vec![Const::Str("x".to_string())]);
    assert_eq!(run_main(module), Value::Nil);
}

#[test]
fn closure_make_returns_handle() {
    // Build a two-function module: f0 = main, f1 = the target the
    // closure refers to. main returns the closure handle; we check
    // it's a Value::Closure.
    let target = FunctionBytecode {
        name: "target".to_string(),
        arity: 1,
        max_register: 2,
        code: vec![
            Opcode::ConstInt.to_u8(),
            1,
            0,
            0, // r1 = const_int 0 (#0 = 0)
            Opcode::Add.to_u8(),
            1,
            0,
            1, // r1 = r0 + r1
            Opcode::ReturnVal.to_u8(),
            1,
        ],
        line_for_pc: vec![],
    };
    let main = FunctionBytecode {
        name: "main".to_string(),
        arity: 0,
        max_register: 2,
        code: vec![
            Opcode::ConstInt.to_u8(),
            0,
            1,
            0, // r0 = const_int 99 (#1 = 99)
            Opcode::ClosureMake.to_u8(),
            1, // dst = r1
            1,
            0, // fn_idx = 1
            1, // n = 1
            0, // upvalue[0] = r0
            Opcode::ReturnVal.to_u8(),
            1,
        ],
        line_for_pc: vec![],
    };
    let module = Module {
        constants: vec![Const::Int(0), Const::Int(99)],
        functions: vec![main, target],
        function_index: vec![("main".to_string(), 0), ("target".to_string(), 1)],
    };
    let v = run_main(module);
    assert!(matches!(v, Value::Closure(_)), "expected Closure, got {v:?}");
}

#[test]
fn call_closure_uses_captured_upvalues() {
    // f1(arg) returns upvalue + arg.
    // main: capture 100 as upvalue, call closure with arg=42, return 142.
    let target = FunctionBytecode {
        name: "target".to_string(),
        arity: 1,
        // r0 = upvalue (set by dispatcher before user args)
        // r1 = user arg
        // r2 = result
        max_register: 3,
        code: vec![
            Opcode::Add.to_u8(),
            2,
            0,
            1, // r2 = r0 + r1
            Opcode::ReturnVal.to_u8(),
            2,
        ],
        line_for_pc: vec![],
    };
    let main = FunctionBytecode {
        name: "main".to_string(),
        arity: 0,
        // r0 = upvalue, r1 = closure, r2 = user arg, r3 = result
        max_register: 4,
        code: vec![
            Opcode::ConstInt.to_u8(),
            0,
            0,
            0, // r0 = 100 (const #0)
            Opcode::ClosureMake.to_u8(),
            1, // dst = r1
            1,
            0, // fn_idx = 1
            1, // n = 1
            0, // upvalue[0] = r0
            Opcode::ConstInt.to_u8(),
            2,
            1,
            0, // r2 = 42 (const #1)
            Opcode::CallClosure.to_u8(),
            3, // dst = r3
            1, // cls = r1
            1, // n = 1
            2, // arg[0] = r2
            Opcode::ReturnVal.to_u8(),
            3,
        ],
        line_for_pc: vec![],
    };
    let module = Module {
        constants: vec![Const::Int(100), Const::Int(42)],
        functions: vec![main, target],
        function_index: vec![("main".to_string(), 0), ("target".to_string(), 1)],
    };
    assert_eq!(run_main(module), Value::Int(142));
}

#[test]
fn write_barrier_records_old_to_young_via_array_set() {
    // White-box test exercising the write-barrier path through ArraySet.
    // Programmatically promote an array to old gen, then use the dispatch
    // path's ArraySet to store a nursery handle into it, and verify the
    // remembered set was touched (via Heap::stats's promotion count
    // continuing to be zero — no allocations were promoted by ArraySet
    // alone — and via the existence of the new nursery object).
    let mut heap = Heap::with_default_config();
    let arr = heap.allocate(Obj::Array(vec![Value::Int(0)]));
    let roots = vec![Value::Array(arr)];
    // Two minor collects promote `arr` to old gen.
    heap.minor_collect(&roots);
    let remap = heap.minor_collect(&roots);
    assert_eq!(remap.len(), 1);
    let arr_old = remap[0].1;
    assert!(arr_old.is_old());

    // Allocate a fresh nursery object and store it into the old-gen array.
    let fresh = heap.allocate(Obj::Array(vec![Value::Int(123)]));
    // Direct heap mutation + barrier (the dispatcher's ArraySet
    // codepath would do the same two-step).
    if let Some(Obj::Array(vs)) = heap.get_mut(arr_old) {
        vs[0] = Value::Array(fresh);
    }
    heap.write_barrier(arr_old, fresh);

    // The next minor collection should preserve `fresh` because the
    // remembered set's scan of `arr_old` finds it.
    let remap2 = heap.minor_collect(&[Value::Array(arr_old)]);
    // `fresh` was reachable from `arr_old` via the remembered set;
    // it survived one minor collection; age becomes 1; not promoted yet.
    assert!(remap2.is_empty());
    assert!(heap.get(fresh).is_some(), "fresh survived via remembered set");

    // Second survival promotes.
    let remap3 = heap.minor_collect(&[Value::Array(arr_old)]);
    assert_eq!(remap3.len(), 1);
    assert_eq!(remap3[0].0, fresh);
    assert!(remap3[0].1.is_old());
}
