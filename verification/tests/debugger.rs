//! Breakpoints, their table, and the frames they pause.

use sliced_engine::bytecode::{Const, FunctionBytecode, Module};
use sliced_engine::debug::{BreakpointId, Debugger, PausedFrame};
use sliced_engine::vm::CallFrame;
use sliced_engine::{Compiler, Opcode, Source, SourceMap, StopReason, Value, Vm};

const SOURCE: &str = "fn main() -> i64 {\n    let a: i64 = 2;\n    let b: i64 = 3;\n    return a * b;\n}\n";

fn compiled() -> Module {
    let mut sm = SourceMap::new();
    let id = sm.add(Source::new("main.sli".to_string(), SOURCE.to_string()));
    Compiler::new().compile(id, sm.get(id)).unwrap().bytecode
}

#[test]
fn a_breakpoint_stops_the_machine_on_its_line() {
    let mut module = compiled();
    let mut debugger = Debugger::new();
    let id = debugger.set_breakpoint(&mut module, 7, 4).unwrap();
    assert_eq!(id, BreakpointId(0));
    let point = debugger.breakpoint(id).unwrap();
    assert_eq!((point.file_id, point.line, point.hits), (7, 4, 0));
    let (function_id, pc) = (point.function_id, point.pc);
    assert_eq!(module.functions[0].line_for_pc[pc], 4);
    let mut vm: Vm<()> = Vm::new(module);
    assert_eq!(
        vm.call("main", vec![]),
        StopReason::Trapped { function_id, pc }
    );
    assert_eq!(debugger.record_hit(function_id, pc), Some(id));
    assert_eq!(debugger.breakpoint(id).unwrap().hits, 1);
    assert_eq!(debugger.record_hit(function_id, pc + 1), None);
}

#[test]
fn clearing_a_breakpoint_restores_the_code() {
    let before = compiled();
    let mut module = compiled();
    let mut debugger = Debugger::new();
    let first = debugger.set_breakpoint(&mut module, 0, 2).unwrap();
    let second = debugger.set_breakpoint(&mut module, 0, 4).unwrap();
    assert_eq!(debugger.len(), 2);
    assert_ne!(module.functions[0].code, before.functions[0].code);
    debugger.clear_breakpoint(&mut module, second).unwrap();
    debugger.clear_breakpoint(&mut module, first).unwrap();
    assert_eq!(module.functions[0].code, before.functions[0].code);
    assert!(debugger.is_empty());
}

#[test]
fn a_second_breakpoint_is_set_on_an_instruction() {
    // Both patched bytes are opcodes: the rest of the code still decodes once they
    // are written back.
    let before = compiled();
    let mut module = compiled();
    let mut debugger = Debugger::new();
    debugger.set_breakpoint(&mut module, 0, 2).unwrap();
    let second = debugger.set_breakpoint(&mut module, 0, 3).unwrap();
    let pc = debugger.breakpoint(second).unwrap().pc;
    let code = &before.functions[0].code;
    let mut at = 0;
    let mut starts = Vec::new();
    while at < code.len() {
        starts.push(at);
        at += Opcode::from_u8(code[at]).unwrap().instr_len(code, at);
    }
    assert!(starts.contains(&pc));
}

#[test]
fn lines_without_code_and_unknown_ids_are_refused() {
    let mut module = compiled();
    let mut debugger = Debugger::new();
    assert_eq!(
        debugger.set_breakpoint(&mut module, 0, 99),
        Err("no opcode at line 99".to_string())
    );
    assert_eq!(
        debugger.clear_breakpoint(&mut module, BreakpointId(5)),
        Err("unknown breakpoint 5".to_string())
    );
}

#[test]
fn rearming_keeps_the_lines_that_are_left() {
    let mut module = compiled();
    let mut debugger = Debugger::new();
    let kept = debugger.set_breakpoint(&mut module, 0, 2).unwrap();
    let lost = debugger.set_breakpoint(&mut module, 0, 4).unwrap();
    let mut fresh = Module {
        constants: vec![Const::Int(1)],
        functions: vec![FunctionBytecode {
            name: "main".to_string(),
            arity: 0,
            max_register: 1,
            code: vec![Opcode::ConstNil.to_u8(), 0, Opcode::ReturnNil.to_u8()],
            line_for_pc: vec![1, 1, 2],
        }],
        function_index: vec![("main".to_string(), 0)],
    };
    assert_eq!(debugger.rearm(&mut fresh), vec![lost]);
    assert_eq!(debugger.len(), 1);
    let point = debugger.breakpoint(kept).unwrap();
    assert_eq!((point.pc, point.original), (2, Opcode::ReturnNil.to_u8()));
    assert_eq!(fresh.functions[0].code[2], 0xFF);
    assert_eq!(debugger.iter()[0].0, kept);
}

#[test]
fn paused_frames_list_their_registers() {
    let mut frame = CallFrame::new(0, 2, None);
    frame.set_reg(1, Value::Int(9));
    let paused = PausedFrame::new(&frame);
    assert_eq!(
        paused.locals,
        vec![
            ("r0".to_string(), 0, Value::Nil),
            ("r1".to_string(), 1, Value::Int(9)),
        ]
    );
}

#[test]
fn two_breakpoints_on_a_line_are_cleared_in_either_order() {
    let before = compiled();
    for order in [[0u32, 1], [1, 0]] {
        let mut module = compiled();
        let mut debugger = Debugger::new();
        debugger.set_breakpoint(&mut module, 0, 3).unwrap();
        debugger.set_breakpoint(&mut module, 0, 3).unwrap();
        let pc = debugger.breakpoint(BreakpointId(0)).unwrap().pc;
        assert_eq!(debugger.breakpoint(BreakpointId(1)).unwrap().pc, pc);
        assert_eq!(module.functions[0].code[pc], 0xFF);
        debugger.clear_breakpoint(&mut module, BreakpointId(order[0])).unwrap();
        assert_eq!(module.functions[0].code[pc], 0xFF);
        debugger.clear_breakpoint(&mut module, BreakpointId(order[1])).unwrap();
        assert_eq!(module.functions[0].code, before.functions[0].code);
    }
}

#[test]
fn two_breakpoints_on_a_line_are_rearmed() {
    let before = compiled();
    let mut module = compiled();
    let mut debugger = Debugger::new();
    let first = debugger.set_breakpoint(&mut module, 0, 3).unwrap();
    let second = debugger.set_breakpoint(&mut module, 0, 3).unwrap();
    let mut fresh = compiled();
    assert!(debugger.rearm(&mut fresh).is_empty());
    assert_ne!(fresh.functions[0].code, before.functions[0].code);
    debugger.clear_breakpoint(&mut fresh, second).unwrap();
    debugger.clear_breakpoint(&mut fresh, first).unwrap();
    assert_eq!(fresh.functions[0].code, before.functions[0].code);
}

fn two_lines(code: Vec<u8>) -> Module {
    Module {
        constants: vec![],
        functions: vec![FunctionBytecode {
            name: "f".to_string(),
            arity: 0,
            max_register: 1,
            code,
            line_for_pc: vec![1, 2],
        }],
        function_index: vec![("f".to_string(), 0)],
    }
}

#[test]
fn a_breakpoint_set_before_a_swap_hides_no_byte_of_the_new_code() {
    let mut old = two_lines(vec![0x60, 0x00]);
    let mut debugger = Debugger::new();
    debugger.set_breakpoint(&mut old, 0, 2).unwrap();
    let mut new = two_lines(vec![0x00, 0x60]);
    let id = debugger.set_breakpoint(&mut new, 0, 2).unwrap();
    assert_eq!(debugger.breakpoint(id).unwrap().original, 0x60);
    assert_eq!(new.functions[0].code, vec![0x00, 0xFF]);
}
