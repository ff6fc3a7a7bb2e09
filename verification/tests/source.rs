//! Positions in sources, and the kinds of source files.

use sliced_engine::ext::{classify, SourceKind};
use sliced_engine::source::{FileId, Source, Span};

#[test]
fn line_col_roundtrip() {
    let src = Source::new("test.sli".to_string(), "fn main() {\n    return 0;\n}\n".to_string());
    assert_eq!(src.line_col(0), (1, 1));
    assert_eq!(src.line_col(12), (2, 1));
    assert_eq!(src.line_col(16), (2, 5));
    assert_eq!(src.line_text(1), Some("fn main() {"));
    assert_eq!(src.line_text(2), Some("    return 0;"));
}

#[test]
fn span_join_same_file() {
    let f = FileId(0);
    let a = Span::new(f, 4, 7);
    let b = Span::new(f, 10, 12);
    assert_eq!(a.join(b), Span::new(f, 4, 12));
}

#[test]
fn classify_extensions() {
    assert_eq!(classify("game/main.sli"), Some(SourceKind::SliCanonical));
    assert_eq!(classify("game/main.SLI"), Some(SourceKind::SliCanonical));
    assert_eq!(classify("game/legacy.bp"), Some(SourceKind::SliBpAlias));
    assert_eq!(classify("game/legacy.BP"), Some(SourceKind::SliBpAlias));
    assert_eq!(classify("README.md"), None);
    assert_eq!(classify("no_extension"), None);
}

#[test]
fn lines_make_up_their_text() {
    for text in ["", "\n", "a", "a\n", "a\nb", "\n\nh\u{e9}\n"] {
        let src = Source::new("t.sli".to_string(), text.to_string());
        let mut lines = Vec::new();
        let mut n = 1;
        while let Some(line) = src.line_text(n) {
            lines.push(line);
            n += 1;
        }
        assert_eq!(lines.join("\n"), text);
    }
}
