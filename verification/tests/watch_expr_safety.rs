//! Watch expressions that are pure, and those that are not.

use sliced_engine::watch_expr::{WatchError, validate};

#[test]
fn pure_expression_accepted() {
    assert!(validate("1 + 2").is_ok());
    assert!(validate("x + 1").is_ok());
    assert!(validate("a.b").is_ok());
    assert!(validate("(x > 0) && (y < 10)").is_ok());
}

#[test]
fn function_call_rejected() {
    let err = validate("foo(1)").unwrap_err();
    assert!(matches!(err, WatchError::Impure { .. }), "{err:?}");
}

#[test]
fn ffi_call_rejected() {
    // The validator treats any callsite as impure unless the callee is
    // in PURE_BUILTINS (which is empty).
    let err = validate("print(\"hi\")").unwrap_err();
    assert!(matches!(err, WatchError::Impure { .. }), "{err:?}");
}

#[test]
fn closure_rejected() {
    let err = validate("|x| x + 1").unwrap_err();
    assert!(matches!(err, WatchError::Impure { .. }), "{err:?}");
}

#[test]
fn assignment_inside_block_rejected() {
    let err = validate("{ x = 5; x }").unwrap_err();
    assert!(matches!(err, WatchError::Impure { .. }), "{err:?}");
}
