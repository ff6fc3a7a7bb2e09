//! Printed modules, and what the compiler's stages keep.

use sliced_engine::diag::Diagnostics;
use sliced_engine::ir::{count_insts, lower, optimise, serialise};
use sliced_engine::lex::lex;
use sliced_engine::parse::{parse, print};
use sliced_engine::source::{Source, SourceMap};
use sliced_engine::verify::verify;
use sliced_engine::Compiler;

fn printed(text: &str) -> String {
    let mut sm = SourceMap::new();
    let id = sm.add(Source::new("t.sli".to_string(), text.to_string()));
    let mut diags = Diagnostics::new();
    let tokens = lex(id, sm.get(id), &mut diags);
    let module = parse(&tokens, &mut diags);
    assert!(diags.is_empty(), "{text}");
    print(&module)
}

const PROGRAM: &str = r#"
const LIMIT: f64 = 3f64;
struct Point { x: f64, y: Map<str, Array<i64>> }
fn apply(f: fn(i64, Res<Point>) -> bool, n) -> Query<Entity> {
    let mut total: i64 = 1_000 + 2 * -3;
    let k = | | total;
    let p = Point { x: 0.1, y: [:] };
    let m = ["a\tb" => 1, "\"\\" => 2];
    while total < 10 && !(Done) { total = total - 1; break; }
    if (Flag) { k(); } else if total == 2 { return; } else { p.x }
    (|x| x + 1)(2);
    -(-total) % 2;
    let s = (|a, b: i64| a)[0].y;
    return [1, 2.50, nil, true][total];
}
"#;

#[test]
fn printing_reaches_a_fixed_point() {
    let once = printed(PROGRAM);
    assert_eq!(printed(&once), once);
}

#[test]
fn modules_print_in_this_form() {
    assert_eq!(
        printed("fn f(a: i64, b) -> i64 { let k = | | a; if (T) { k() } else { -1.0 } }"),
        "fn f(a: i64, b) -> i64 {\n    let k = | | a;\n    if (T) {\n    k()\n} else {\n    -1.0\n}\n}\n"
    );
}

#[test]
fn floats_print_with_as_many_digits_as_they_need() {
    let cases = [
        ("0.1", "0.1"),
        ("100f64", "100.0"),
        ("0.000000123", "0.000000123"),
        ("123456789012345680.0", "123456789012345680.0"),
        ("0.30000000000000004", "0.30000000000000004"),
        ("0.300000000000000041", "0.30000000000000004"),
        ("9007199254740993.0", "9007199254740992.0"),
    ];
    for (text, shown) in cases {
        assert_eq!(printed(&format!("const C: f64 = {text};")), format!("const C: f64 = {shown};\n"));
    }
}

#[test]
fn compiled_code_is_verified() {
    let text = "fn g(n: i64) -> i64 { let mut t = 0; let f = |x| x + t; \
        while t < n { if t == 3 { t = f(t); } else { t = t + 1; } } [t, n][0] }\nfn main() { g(4); }";
    let mut sm = SourceMap::new();
    let id = sm.add(Source::new("t.sli".to_string(), text.to_string()));
    let compiled = Compiler::new().compile(id, sm.get(id)).unwrap();
    assert!(compiled.bytecode.functions.len() == 3);
    assert!(verify(&compiled.bytecode).is_ok());
}

#[test]
fn optimising_settles() {
    let text = "fn f(a: i64) -> i64 { let x = 2 + 3; let y = 2 + 3; let dead = x * a; g(x, y, a + x, a + x); y }";
    let mut sm = SourceMap::new();
    let id = sm.add(Source::new("t.sli".to_string(), text.to_string()));
    let mut diags = Diagnostics::new();
    let tokens = lex(id, sm.get(id), &mut diags);
    let mut ir = lower(&parse(&tokens, &mut diags));
    let before = count_insts(&ir);
    optimise(&mut ir);
    assert!(count_insts(&ir) < before);
    assert_eq!(
        serialise(&ir),
        "fn f#1\n  0000: Const(IrReg(3), Int(5))\n  0001: Binary(IrReg(8), Add, IrReg(0), IrReg(3))\n  \
         0002: Call(IrReg(10), \"g\", [IrReg(3), IrReg(3), IrReg(8), IrReg(8)])\n  0003: Eval(IrReg(10))\n  \
         0004: Return(Some(IrReg(3)))\n"
    );
    let once = serialise(&ir);
    optimise(&mut ir);
    assert_eq!(serialise(&ir), once);
}

#[test]
fn texts_outside_ascii_and_huge_floats_print_as_they_are_read() {
    let once = printed("fn f() { \"h\u{e9}llo \u{4e16}\u{1f600}\" }");
    assert!(once.contains("\"h\u{e9}llo \u{4e16}\u{1f600}\""), "{once}");
    assert_eq!(printed(&once), once);
    let huge = format!("1{}.0", "0".repeat(400));
    let once = printed(&format!("const C: f64 = {huge};"));
    assert_eq!(once, format!("const C: f64 = 1{}.0;\n", "0".repeat(309)));
    assert_eq!(printed(&once), once);
}
