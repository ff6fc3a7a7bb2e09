//! A changed source is swapped into a running machine.

use sliced_engine::reload::{apply, compile_to_vm, is_relevant, Event, WatchKind};
use sliced_engine::{StopReason, Value, Vm};

#[test]
fn modified_module_swaps_into_vm() {
    let path = "main.sli";
    let mut vm: Vm<()> =
        compile_to_vm(path, Ok("fn pick() -> i64 { return 1; }".to_string())).unwrap();
    assert_eq!(vm.call("pick", vec![]), StopReason::Returned(Value::Int(1)));

    assert!(is_relevant(WatchKind::Modified, path));
    let event = apply(
        path,
        Ok("fn pick() -> i64 { return 99; }".to_string()),
        &mut vm,
    );
    assert!(
        matches!(event, Event::ModuleReloaded { .. }),
        "expected ModuleReloaded, got {event:?}",
    );
    assert_eq!(
        vm.call("pick", vec![]),
        StopReason::Returned(Value::Int(99))
    );
}

#[test]
fn broken_module_leaves_the_old_one_running() {
    let mut vm: Vm<()> =
        compile_to_vm("main.sli", Ok("fn pick() -> i64 { return 1; }".to_string())).unwrap();
    let event = apply(
        "main.sli",
        Ok("fn pick() -> i64 { return missing; }".to_string()),
        &mut vm,
    );
    assert_eq!(
        event,
        Event::ModuleFailed {
            path: "main.sli".to_string(),
            message: "undefined name `missing`".to_string(),
        }
    );
    assert_eq!(vm.call("pick", vec![]), StopReason::Returned(Value::Int(1)));
}

#[test]
fn unreadable_source_is_reported() {
    let mut vm: Vm<()> =
        compile_to_vm("main.sli", Ok("fn pick() -> i64 { return 1; }".to_string())).unwrap();
    let event = apply("main.sli", Err("gone".to_string()), &mut vm);
    assert_eq!(
        event,
        Event::ModuleFailed {
            path: "main.sli".to_string(),
            message: "read failed: gone".to_string(),
        }
    );
    let failed: Result<Vm<()>, String> = compile_to_vm("main.sli", Err("gone".to_string()));
    assert_eq!(failed.err(), Some("read failed: gone".to_string()));
    let failed: Result<Vm<()>, String> =
        compile_to_vm("main.sli", Ok("fn pick() -> i64 { return missing; }".to_string()));
    assert_eq!(failed.err(), Some("compile errors".to_string()));
}

#[test]
fn only_script_sources_that_appear_or_change_count() {
    assert!(is_relevant(WatchKind::Created, "a/b.bp"));
    assert!(is_relevant(WatchKind::Modified, "a/b.SLI"));
    assert!(!is_relevant(WatchKind::Removed, "a/b.sli"));
    assert!(!is_relevant(WatchKind::Modified, "a/b.txt"));
}
