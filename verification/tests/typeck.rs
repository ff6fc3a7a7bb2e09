//! What the type checker accepts and refuses.

use sliced_engine::diag::Diagnostics;
use sliced_engine::source::{Source, SourceMap};
use sliced_engine::{Compiler, Module};

fn check(text: &str) -> Diagnostics {
    let mut sm = SourceMap::new();
    let id = sm.add(Source::new("test.sli".to_string(), text.to_string()));
    Compiler::new().compile(id, sm.get(id)).unwrap().diagnostics
}

fn check_module(text: &str) -> Module {
    let mut sm = SourceMap::new();
    let id = sm.add(Source::new("test.sli".to_string(), text.to_string()));
    let mut diags = Diagnostics::new();
    let tokens = sliced_engine::lex::lex(id, sm.get(id), &mut diags);
    let mut m = sliced_engine::parse::parse(&tokens, &mut diags);
    sliced_engine::typeck::check(&mut m, &mut diags);
    m
}

// --- positive cases ---------------------------------------------------------

#[test]
fn numeric_promotion_in_let_with_annotation() {
    let text = r#"
fn main() -> i32 {
    let x: i32 = 5;
    return x;
}
"#;
    let diags = check(text);
    assert!(!diags.has_errors(), "{:?}", diags.all());
}

#[test]
fn query_t_is_recognised() {
    let text = r#"
struct Position { x: f32, y: f32 }
fn s(q: Query<Position>) -> nil { return; }
"#;
    let diags = check(text);
    assert!(!diags.has_errors(), "{:?}", diags.all());
}

#[test]
fn res_and_resmut_and_entity_are_recognised() {
    let text = r#"
struct Score { v: i32 }
fn s(a: Res<Score>, b: ResMut<Score>, e: Entity) -> nil { return; }
"#;
    let diags = check(text);
    assert!(!diags.has_errors(), "{:?}", diags.all());
}

#[test]
fn struct_field_access_is_typed() {
    let text = r#"
struct V2 { x: f32, y: f32 }
fn d(a: V2) -> f32 { return a.x + a.y; }
"#;
    let m = check_module(text);
    // The return expression should now have type `f32`.
    if let sliced_engine::Decl::Fn(f) = &m.decls[1] {
        let tail_stmt = f
            .body
            .stmts
            .last()
            .expect("function body has at least one statement");
        if let sliced_engine::ast::StmtKind::Return(Some(e)) = &tail_stmt.kind {
            assert_eq!(e.ty, sliced_engine::Type::F32);
            return;
        }
    }
    panic!("did not find typed return expression");
}

// --- negative cases ---------------------------------------------------------

#[test]
fn type_mismatch_on_let() {
    let text = "fn m() -> nil { let x: i32 = true; return; }";
    let diags = check(text);
    assert!(diags.has_errors());
}

#[test]
fn undefined_name() {
    let text = "fn m() -> i64 { return missing + 1; }";
    let diags = check(text);
    assert!(diags.has_errors());
}

#[test]
fn unknown_struct_field() {
    let text = r#"
struct P { x: f32 }
fn m(p: P) -> f32 { return p.z; }
"#;
    let diags = check(text);
    assert!(diags.has_errors());
}

#[test]
fn missing_struct_field_in_literal() {
    let text = r#"
struct P { x: f32, y: f32 }
fn m() -> P { return P { x: 1.0 }; }
"#;
    let diags = check(text);
    assert!(diags.has_errors());
}

#[test]
fn arithmetic_on_mismatched_numeric_types() {
    let text = r#"
fn m() -> f32 {
    let a: i32 = 1;
    let b: f32 = 2.0;
    return a + b;
}
"#;
    let diags = check(text);
    assert!(diags.has_errors());
}

#[test]
fn arity_mismatch_on_call() {
    let text = r#"
fn add(a: i64, b: i64) -> i64 { return a + b; }
fn m() -> i64 { return add(1); }
"#;
    let diags = check(text);
    assert!(diags.has_errors());
}

#[test]
fn if_condition_must_be_bool() {
    let text = r#"
fn m() -> i64 {
    if 7 { return 1; } else { return 2; }
}
"#;
    let diags = check(text);
    assert!(diags.has_errors());
}

// --- literals take the type that their place asks for -------------------------

#[test]
fn literals_take_the_type_of_their_place() {
    for text in [
        "fn f() -> i32 { 1 }",
        "fn f() -> i32 { return -1; }",
        "fn f() -> i32 { 1 + 2 * 3 }",
        "fn f() -> i32 { let mut a: i32 = 1; a = 2; return a; }",
        "fn f(b: bool) -> i32 { if b { 1 } else { 2 } }",
        "fn f(x: f64) -> f64 { return x + 1; }",
        "fn f(x: i32) -> bool { return 1 < x; }",
        "fn f() -> i64 { let m: Map<i32, i64> = [1 => 2]; return m[1]; }",
    ] {
        let diags = check(text);
        assert!(!diags.has_errors(), "{text}: {:?}", diags.all());
    }
    for text in [
        "fn f() -> f32 { 1.5 }",
        "fn f(b: bool) -> f32 { if b { 1.5 } else { 2.5 } }",
        "fn f() -> f32 { let x: f32 = { 1.5 }; return x; }",
        "fn f() -> f32 { let mut x: f32 = 1.0; x = 1.5; return x; }",
        "fn f() -> i64 { let m: Map<f32, i64> = [1.5 => 2]; return m[1.5]; }",
        "fn f() -> Array<i64> { [] }",
        "fn f() -> Map<str, i64> { [:] }",
        "fn f() -> nil { let mut x: Array<i64> = [1]; x = []; return; }",
    ] {
        assert!(check(text).has_errors(), "{text}");
    }
    for text in [
        "fn f() -> f32 { return 1.5; }",
        "fn f() -> Array<i64> { return []; }",
        "fn f() -> Map<str, i64> { let m: Map<str, i64> = [:]; return m; }",
    ] {
        assert!(!check(text).has_errors(), "{text}");
    }
    for text in ["fn f() -> i32 { true }", "fn f() -> i32 { 1.5 }", "fn f(x: i32) -> i32 { return x + 1.5; }"] {
        assert!(check(text).has_errors(), "{text}");
    }
}
