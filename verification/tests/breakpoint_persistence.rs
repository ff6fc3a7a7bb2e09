//! The breakpoint file is read back as it was written.

use sliced_engine::breakpoints_toml;
use sliced_engine::breakpoints_toml::{read, Persisted};

#[test]
fn roundtrip_owned_toml_writer_and_reader() {
    let original = vec![
        Persisted {
            file: String::from("game/main.sli"),
            line: 12,
            condition: None,
            hit_count: None,
        },
        Persisted {
            file: String::from("game/util.sli"),
            line: 42,
            condition: Some("x > 0".into()),
            hit_count: Some(3),
        },
    ];
    let text = breakpoints_toml::write(&original);
    let back = read(&text);
    assert_eq!(back, original);
}

#[test]
fn comments_and_blank_lines_tolerated() {
    let text = r#"# user's notes
[[breakpoint]]
file = "main.sli"
line = 1

# another one
[[breakpoint]]
file = "util.sli"
line = 7
"#;
    let bps = read(text);
    assert_eq!(bps.len(), 2);
    assert_eq!(bps[0].line, 1);
    assert_eq!(bps[1].line, 7);
}

#[test]
fn strings_with_quotes_round_trip() {
    let bp = Persisted {
        file: String::from("a.sli"),
        line: 1,
        condition: Some(r#"name == "alice""#.into()),
        hit_count: None,
    };
    let text = breakpoints_toml::write(std::slice::from_ref(&bp));
    let back = read(&text);
    assert_eq!(back, vec![bp]);
}
