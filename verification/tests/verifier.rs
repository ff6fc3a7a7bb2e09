//! What the bytecode verifier refuses.

use sliced_engine::Opcode;
use sliced_engine::bytecode::{Const, FunctionBytecode, Module};
use sliced_engine::verify::{VerifyError, verify};

fn one_fn(name: &str, code: Vec<u8>, max_register: u8) -> Module {
    let function = FunctionBytecode {
        name: name.to_string(),
        arity: 0,
        max_register,
        code,
        line_for_pc: Vec::new(),
    };
    let function_index = vec![(name.to_string(), 0u16)];
    Module {
        constants: Vec::new(),
        functions: vec![function],
        function_index,
    }
}

#[test]
fn returns_ok_on_trivial_return() {
    let module = one_fn("ret_nil", vec![Opcode::ReturnNil.to_u8()], 1);
    verify(&module).expect("trivial return must verify");
}

#[test]
fn trap_in_code_is_rejected() {
    // ConstNil r0; TRAP; ReturnNil
    let code = vec![Opcode::ConstNil.to_u8(), 0, 0xFF, Opcode::ReturnNil.to_u8()];
    let module = one_fn("trap", code, 1);
    let err = verify(&module).unwrap_err();
    assert!(matches!(err, VerifyError::TrapInCode { .. }), "{err:?}");
}

#[test]
fn traps_are_told_in_these_words() {
    let code = vec![Opcode::ConstNil.to_u8(), 0, 0xFF, Opcode::ReturnNil.to_u8()];
    let err = verify(&one_fn("trap", code, 1)).unwrap_err();
    assert_eq!(err.message(), "trap@2: TRAP reserved for debugger (ADR-035)");
}

#[test]
fn unknown_opcode_is_rejected() {
    let code = vec![0xAA, Opcode::ReturnNil.to_u8()];
    let module = one_fn("bad_op", code, 1);
    let err = verify(&module).unwrap_err();
    assert!(matches!(err, VerifyError::UnknownOpcode { .. }), "{err:?}");
}

#[test]
fn oob_register_is_rejected() {
    // ConstNil r5 — but max_register is 2.
    let code = vec![Opcode::ConstNil.to_u8(), 5, Opcode::ReturnNil.to_u8()];
    let module = one_fn("oob_reg", code, 2);
    let err = verify(&module).unwrap_err();
    assert!(
        matches!(err, VerifyError::OutOfBoundsRegister { .. }),
        "{err:?}"
    );
}

#[test]
fn oob_const_is_rejected() {
    // ConstInt r0, const_idx 99 — empty const pool.
    let code = vec![Opcode::ConstInt.to_u8(), 0, 99, 0, Opcode::ReturnNil.to_u8()];
    let module = one_fn("oob_const", code, 1);
    let err = verify(&module).unwrap_err();
    assert!(
        matches!(err, VerifyError::OutOfBoundsConst { .. }),
        "{err:?}"
    );
}

#[test]
fn oob_function_is_rejected() {
    // Call r0, fn_idx 7, 0 args
    let code = vec![Opcode::Call.to_u8(), 0, 7, 0, 0, Opcode::ReturnNil.to_u8()];
    let module = one_fn("oob_fn", code, 1);
    let err = verify(&module).unwrap_err();
    assert!(
        matches!(err, VerifyError::OutOfBoundsFunction { .. }),
        "{err:?}"
    );
}

#[test]
fn missing_return_is_rejected() {
    let code = vec![Opcode::ConstNil.to_u8(), 0];
    let module = one_fn("no_ret", code, 1);
    let err = verify(&module).unwrap_err();
    assert!(matches!(err, VerifyError::MissingReturn { .. }), "{err:?}");
}

#[test]
fn truncated_instruction_is_rejected() {
    // ConstInt expects 3 more bytes after opcode but only has 1.
    let code = vec![Opcode::ConstInt.to_u8(), 0];
    let module = one_fn("trunc", code, 1);
    let err = verify(&module).unwrap_err();
    assert!(matches!(err, VerifyError::Truncated { .. }), "{err:?}");
}

#[test]
fn bad_jump_target_is_rejected() {
    // Jmp by 100 in a 4-byte function.
    let code = vec![Opcode::Jmp.to_u8(), 100, 0, Opcode::ReturnNil.to_u8()];
    let module = one_fn("bad_jump", code, 1);
    let err = verify(&module).unwrap_err();
    assert!(matches!(err, VerifyError::BadJumpTarget { .. }), "{err:?}");
}

#[test]
fn well_formed_const_lookup_passes() {
    let code = vec![Opcode::ConstInt.to_u8(), 0, 0, 0, Opcode::ReturnVal.to_u8(), 0];
    let module = Module {
        constants: vec![Const::Int(42)],
        functions: vec![FunctionBytecode {
            name: "ok".to_string(),
            arity: 0,
            max_register: 1,
            code,
            line_for_pc: Vec::new(),
        }],
        function_index: vec![("ok".to_string(), 0)],
    };
    verify(&module).expect("well-formed const fetch must verify");
}

#[test]
fn full_constant_tables_are_accepted() {
    let code = vec![Opcode::ConstInt.to_u8(), 0, 0xFF, 0xFF, Opcode::ReturnVal.to_u8(), 0];
    let mut module = one_fn("full", code, 1);
    module.constants = (0..65536).map(Const::Int).collect();
    verify(&module).expect("the last constant is within the table");
    module.constants.pop();
    let err = verify(&module).unwrap_err();
    assert!(matches!(err, VerifyError::OutOfBoundsConst { .. }), "{err:?}");
}
