//! The interactive prompt.

use sliced_engine::repl::{unmatched_brackets, Repl, Reply};
use sliced_engine::Value;

fn builtin(reply: Reply) -> String {
    match reply {
        Reply::Builtin(text) => text,
        other => panic!("expected a builtin reply, got {other:?}"),
    }
}

fn error(reply: Reply) -> String {
    match reply {
        Reply::Error(text) => text,
        other => panic!("expected an error, got {other:?}"),
    }
}

#[test]
fn expressions_are_evaluated() {
    let mut repl = Repl::new();
    assert!(matches!(repl.eval("1 + 2 * 3"), Reply::Value(Value::Int(7))));
    assert!(matches!(repl.eval("   "), Reply::Nil));
    assert_eq!(repl.history().to_vec(), vec!["1 + 2 * 3".to_string()]);
}

#[test]
fn programs_are_run_from_their_entry_point() {
    let mut repl = Repl::new();
    let reply = repl.eval("fn _repl() -> i64 { return 40 + 2; }");
    assert!(matches!(reply, Reply::Value(Value::Int(42))), "{reply:?}");
    assert!(matches!(repl.eval("fn other() -> i64 { return 1; }"), Reply::Nil));
}

#[test]
fn failures_are_reported() {
    let mut repl = Repl::new();
    assert!(matches!(repl.eval("missing + 1"), Reply::Error(_)));
    let text = error(repl.eval("fn _repl() -> i64 { return 1 / 0; }"));
    assert_eq!(text, "Error(\"integer division by zero\")");
    assert_eq!(error(repl.eval(".nope x")), "unknown command `.nope`");
}

#[test]
fn commands_show_types_code_and_history() {
    let mut repl = Repl::new();
    assert!(builtin(repl.eval(".help")).starts_with("sli REPL commands:\n  .help "));
    assert_eq!(builtin(repl.eval(".type 1 + 2")), "Some(I64)");
    let code = builtin(repl.eval(".bytecode 7"));
    assert!(code.starts_with("code = [4, 0, 0, 0, "), "{code}");
    assert!(code.ends_with("\nconsts = [Int(7)]"), "{code}");
    repl.eval("1");
    repl.eval("2");
    assert_eq!(builtin(repl.eval(".history")), "1\n2");
    assert_eq!(builtin(repl.eval(".clear")), "history cleared");
    assert_eq!(builtin(repl.eval(".history")), "");
    assert!(matches!(repl.eval(".exit"), Reply::Exit));
    assert!(matches!(repl.eval("  .quit"), Reply::Exit));
}

#[test]
fn brackets_are_counted_outside_strings() {
    assert_eq!(unmatched_brackets("fn f() {"), 1);
    assert_eq!(unmatched_brackets("([{"), 3);
    assert_eq!(unmatched_brackets("}"), -1);
    assert_eq!(unmatched_brackets("\"{ \\\" {\" ()"), 0);
}

#[test]
fn expressions_of_every_type_are_evaluated() {
    let mut repl = Repl::new();
    assert!(matches!(repl.eval("true"), Reply::Value(Value::Bool(true))));
    let reply = repl.eval("1.5");
    assert!(matches!(reply, Reply::Value(Value::Float(b)) if b == 1.5f64.to_bits()), "{reply:?}");
    let reply = repl.eval("\"h\u{e9}\"");
    assert!(matches!(&reply, Reply::Value(Value::Str(s)) if s == "h\u{e9}"), "{reply:?}");
    assert_eq!(builtin(repl.eval(".type 1.5")), "Some(F64)");
    assert_eq!(builtin(repl.eval(".type true")), "Some(Bool)");
}

#[test]
fn declarations_stay_for_later_inputs() {
    let mut repl = Repl::new();
    assert!(matches!(repl.eval("fn twice(n: i64) -> i64 { return n * 2; }"), Reply::Nil));
    let reply = repl.eval("twice(21)");
    assert!(matches!(reply, Reply::Value(Value::Int(42))), "{reply:?}");
    assert!(matches!(repl.eval("fn broken( {"), Reply::Error(_)));
    let reply = repl.eval("twice(4)");
    assert!(matches!(reply, Reply::Value(Value::Int(8))), "{reply:?}");
}
