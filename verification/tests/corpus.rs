//! A corpus of programs that parse, print, typecheck, compile and verify.

use blake3::Hasher;
use sliced_engine::bytecode::FunctionBytecode;
use sliced_engine::diag::Diagnostics;
use sliced_engine::lex::lex;
use sliced_engine::parse::parse;
use sliced_engine::print::print;
use sliced_engine::source::{Source, SourceMap};
use sliced_engine::verify::verify;
use sliced_engine::{Compiler, Opcode};

/// One named fixture program.
pub struct Fixture {
    pub name: &'static str,
    pub source: &'static str,
}

/// The full corpus, sorted by name.
pub fn corpus() -> Vec<Fixture> {
    let mut v: Vec<Fixture> = vec![
        Fixture {
            name: "01_arith_int",
            source: r#"
fn main() -> i64 {
    return 1 + 2 * 3 - 4 / 2 + 5 % 3;
}
"#,
        },
        Fixture {
            name: "02_arith_float",
            source: r#"
fn main() -> f64 {
    let x: f64 = 3.5;
    let y: f64 = 1.5;
    return x * y - 0.25;
}
"#,
        },
        Fixture {
            name: "03_let_shadowing",
            source: r#"
fn main() -> i64 {
    let x: i64 = 1;
    let x: i64 = x + 2;
    let x: i64 = x * 4;
    return x;
}
"#,
        },
        Fixture {
            name: "04_mut_binding",
            source: r#"
fn main() -> i64 {
    let mut sum: i64 = 0;
    sum = sum + 7;
    sum = sum + 11;
    return sum;
}
"#,
        },
        Fixture {
            name: "05_if_else",
            source: r#"
fn classify(n: i64) -> i64 {
    if n < 0 {
        return -1;
    } else {
        if n == 0 {
            return 0;
        } else {
            return 1;
        }
    }
}
"#,
        },
        Fixture {
            name: "06_while_loop",
            source: r#"
fn sum_to(n: i64) -> i64 {
    let mut i: i64 = 0;
    let mut acc: i64 = 0;
    while i < n {
        acc = acc + i;
        i = i + 1;
    }
    return acc;
}
"#,
        },
        Fixture {
            name: "07_recursive_fib",
            source: r#"
fn fib(n: i64) -> i64 {
    if n < 2 {
        return n;
    }
    return fib(n - 1) + fib(n - 2);
}
"#,
        },
        Fixture {
            name: "08_struct_decl_and_lit",
            source: r#"
struct Point {
    x: f32,
    y: f32,
}

fn make() -> Point {
    return Point { x: 1.0, y: 2.0 };
}
"#,
        },
        Fixture {
            name: "09_struct_field_access",
            source: r#"
struct Vec2 {
    x: f32,
    y: f32,
}

fn dot(a: Vec2, b: Vec2) -> f32 {
    return a.x * b.x + a.y * b.y;
}
"#,
        },
        Fixture {
            name: "10_nested_struct",
            source: r#"
struct Inner { v: i32 }
struct Outer { i: Inner, k: i32 }

fn pick(o: Outer) -> i32 {
    return o.i.v + o.k;
}
"#,
        },
        Fixture {
            name: "11_closure_simple",
            source: r#"
fn make_adder(k: i64) -> fn(i64) -> i64 {
    return |x: i64| x + k;
}
"#,
        },
        Fixture {
            name: "12_closure_arith",
            source: r#"
fn apply(f: fn(i64) -> i64, n: i64) -> i64 {
    return f(n) + f(n + 1);
}
"#,
        },
        Fixture {
            name: "13_logical_ops",
            source: r#"
fn xor(a: bool, b: bool) -> bool {
    return (a || b) && !(a && b);
}
"#,
        },
        Fixture {
            name: "14_const_decl",
            source: r#"
const TAU: f64 = 6.283185307179586;
const TWO: i64 = 2;

fn doubled(n: i64) -> i64 {
    return n * TWO;
}
"#,
        },
        Fixture {
            name: "15_ecs_query_sugar",
            source: r#"
struct Position { x: f32, y: f32 }
struct Velocity { x: f32, y: f32 }

fn movement(q: Query<Position>, dt: Res<f32>) -> nil {
    return;
}
"#,
        },
        Fixture {
            name: "16_ecs_resmut",
            source: r#"
struct Score { value: i32 }

fn award(s: ResMut<Score>, e: Entity) -> nil {
    return;
}
"#,
        },
        Fixture {
            name: "17_nested_block_value",
            source: r#"
fn pick(b: bool) -> i64 {
    let v: i64 = if b { 100 } else { 200 };
    return v;
}
"#,
        },
        Fixture {
            name: "18_comparison_chain",
            source: r#"
fn clip(x: i64, lo: i64, hi: i64) -> i64 {
    if x < lo {
        return lo;
    }
    if x > hi {
        return hi;
    }
    return x;
}
"#,
        },
        Fixture {
            name: "19_string_literal",
            source: r#"
fn greet() -> str {
    return "hello, sliced engine";
}
"#,
        },
        Fixture {
            name: "20_mixed_program",
            source: r#"
struct Counter { value: i64 }

const INCREMENT: i64 = 3;

fn step(c: Counter) -> Counter {
    return Counter { value: c.value + INCREMENT };
}

fn main() -> i64 {
    let mut c: Counter = Counter { value: 0 };
    let mut i: i64 = 0;
    while i < 5 {
        c = step(c);
        i = i + 1;
    }
    return c.value;
}
"#,
        },
        // Arrays, maps, structs and closures.
        Fixture {
            name: "21_array_literal",
            source: r#"
fn main() -> i64 {
    let xs: Array<i64> = [10, 20, 30];
    return xs[0] + xs[1] + xs[2];
}
"#,
        },
        Fixture {
            name: "22_array_indexing",
            source: r#"
fn at(xs: Array<i64>, i: i64) -> i64 {
    return xs[i];
}
"#,
        },
        Fixture {
            name: "23_map_literal",
            source: r#"
fn main() -> i64 {
    let m: Map<str, i64> = ["a" => 1, "b" => 2, "c" => 3];
    return m["a"] + m["b"] + m["c"];
}
"#,
        },
        Fixture {
            name: "24_closure_with_capture",
            source: r#"
fn make_adder(k: i64) -> fn(i64) -> i64 {
    let f = |x: i64| x + k;
    return f;
}
"#,
        },
    ];
    v.sort_by_key(|f| f.name);
    v
}

fn parse_text(name: &str, text: &str) -> sliced_engine::Module {
    let mut sm = SourceMap::new();
    let id = sm.add(Source::new(name.to_string(), text.to_string()));
    let mut diags = Diagnostics::new();
    let tokens = lex(id, sm.get(id), &mut diags);
    let module = parse(&tokens, &mut diags);
    assert!(
        !diags.has_errors(),
        "{name} produced parse errors: {:?}",
        diags.all().iter().map(|d| &d.message).collect::<Vec<_>>()
    );
    module
}

#[test]
fn roundtrip_corpus() {
    // Spans differ between original and printed sources (whitespace
    // changes) so structural AST equality won't hold. The robust
    // property is *idempotence* of `print`: `print(parse(print(parse(s))))
    // == print(parse(s))` — a second round-trip is a no-op.
    for fix in corpus() {
        let a = parse_text(fix.name, fix.source);
        let printed_once = print(&a);
        let b = parse_text(&format!("{}.print", fix.name), &printed_once);
        let printed_twice = print(&b);
        assert_eq!(
            printed_once, printed_twice,
            "round-trip diverged for {}\nfirst print:\n{printed_once}\nsecond print:\n{printed_twice}",
            fix.name
        );
    }
}

fn check(text: &str) -> Diagnostics {
    let mut sm = SourceMap::new();
    let id = sm.add(Source::new("test.sli".to_string(), text.to_string()));
    Compiler::new().compile(id, sm.get(id)).unwrap().diagnostics
}

#[test]
fn whole_corpus_clean_typecheck() {
    for fix in corpus() {
        let diags = check(fix.source);
        assert!(
            !diags.has_errors(),
            "{} produced errors: {:?}",
            fix.name,
            diags
                .all()
                .iter()
                .map(|d| (&d.message, d.span))
                .collect::<Vec<_>>(),
        );
    }
}

fn assert_no_trap_opcode(name: &str, f: &FunctionBytecode) {
    let code = &f.code;
    let mut pc = 0;
    while pc < code.len() {
        let byte = code[pc];
        assert_ne!(
            byte, 0xFF,
            "{} emitted TRAP opcode at byte offset {pc}\n  code: {code:?}",
            name
        );
        let op = Opcode::from_u8(byte)
            .unwrap_or_else(|| panic!("{name}@{pc}: unknown opcode 0x{byte:02x}"));
        pc += op.instr_len(code, pc);
    }
}

fn compile(name: &str, src: &str) -> sliced_engine::bytecode::Module {
    let mut sm = SourceMap::new();
    let id = sm.add(Source::new(name.to_string(), src.to_string()));
    let compiled = Compiler::new().compile(id, sm.get(id)).unwrap();
    compiled.bytecode
}

#[test]
fn corpus_emits_no_trap_opcode() {
    for fix in corpus() {
        let module = compile(fix.name, fix.source);
        for f in &module.functions {
            assert_no_trap_opcode(fix.name, f);
        }
        // Verifier is the architectural backstop — every program in
        // the corpus must verify.
        verify(&module).unwrap_or_else(|e| panic!("{} failed to verify: {}", fix.name, e.message()));
    }
}

#[test]
fn synthetic_corpus_emits_no_trap_opcode() {
    let templates = &[
        "fn f() -> i64 { return {LIT}; }",
        "fn f() -> i64 { let mut x: i64 = {LIT}; x = x + {LIT}; return x; }",
        "fn f() -> i64 { if {LIT} < {LIT} { return {LIT}; } else { return -{LIT}; } }",
        "fn f(a: i64, b: i64) -> i64 { return a * {LIT} + b - {LIT}; }",
        "fn f() -> i64 { let mut i: i64 = 0; let mut acc: i64 = 0; while i < {LIT} { acc = acc + i; i = i + 1; } return acc; }",
    ];
    let mut hasher = Hasher::new();
    hasher.update(b"sli-codegen-fuzz-v1");
    let mut state = hasher.finalize().as_bytes()[..16].to_vec();
    for n in 0..500u32 {
        let mut h = Hasher::new();
        h.update(&state);
        h.update(&n.to_le_bytes());
        let next = h.finalize().as_bytes()[..16].to_vec();
        state = next.clone();
        let tpl = templates[(next[0] as usize) % templates.len()];
        let mut filled = String::new();
        let mut lit_n = 1usize;
        let mut chars = tpl.chars().peekable();
        while let Some(c) = chars.next() {
            if c == '{' && chars.peek() == Some(&'L') {
                // Consume `LIT}`.
                for _ in 0..4 {
                    chars.next();
                }
                let lit = (next[lit_n % next.len()] as i32) - 128;
                lit_n += 1;
                filled.push_str(&lit.to_string());
            } else {
                filled.push(c);
            }
        }
        let module = compile(&format!("syn_{n}"), &filled);
        for f in &module.functions {
            assert_no_trap_opcode(&format!("syn_{n}"), f);
        }
        verify(&module).unwrap_or_else(|e| panic!("syn_{n} failed to verify: {}\nsrc: {filled}", e.message()));
    }
}
