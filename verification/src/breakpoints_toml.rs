//! Writer and key-line reader for `.engine/debug/breakpoints.toml`.
//!
//! The schema is a subset of TOML:
//!
//! ```toml
//! [[breakpoint]]
//! file = "game/main.sli"
//! line = 42
//! condition = "x > 0"   # optional
//! hit_count = 3         # optional
//! ```

use crate::text;
use crate::text::{chars_of, part, push_dec, string_of, trimmed};
use crate::views;
use vstd::prelude::*;

verus! {

/// One persisted breakpoint, source-keyed (the byte offset is recomputed on
/// reload).
#[derive(Clone, Debug, PartialEq, Eq)]
pub struct Persisted {
    /// Source-file path as the user wrote it on the command line.
    pub file: String,
    /// 1-based source line.
    pub line: u32,
    /// Optional side-effect-free condition expression.
    pub condition: Option<String>,
    /// Optional hit-count gate.
    pub hit_count: Option<u32>,
}

/// Model of a persisted breakpoint.
#[verifier::ext_equal]
pub struct PersistedModel {
    pub file: Seq<char>,
    pub line: u32,
    pub condition: Option<Seq<char>>,
    pub hit_count: Option<u32>,
}

impl View for Persisted {
    type V = PersistedModel;

    open spec fn view(&self) -> PersistedModel {
        PersistedModel {
            file: self.file@,
            line: self.line,
            condition: match self.condition {
                Some(s) => Some(s@),
                None => None,
            },
            hit_count: self.hit_count,
        }
    }
}

// --- what is written ------------------------------------------------------------

/// A character inside quotes.
pub open spec fn escape(c: char) -> Seq<char> {
    if c == '\\' {
        seq!['\\', '\\']
    } else if c == '"' {
        seq!['\\', '"']
    } else if c == '\n' {
        seq!['\\', 'n']
    } else {
        seq![c]
    }
}

/// A text inside quotes.
pub open spec fn escaped(s: Seq<char>) -> Seq<char>
    decreases s.len(),
{
    if s.len() == 0 {
        Seq::empty()
    } else {
        escape(s[0]) + escaped(s.skip(1))
    }
}

/// A text with its quotes.
pub open spec fn quoted(s: Seq<char>) -> Seq<char> {
    seq!['"'] + escaped(s) + seq!['"']
}

/// A key and its value, without the end of the line.
pub open spec fn pair(key: Seq<char>, value: Seq<char>) -> Seq<char> {
    key + seq![' ', '=', ' '] + value
}

/// The lines of one breakpoint.
pub open spec fn record(p: PersistedModel) -> Seq<Seq<char>> {
    let head = seq![
        "[[breakpoint]]"@,
        pair("file"@, quoted(p.file)),
        pair("line"@, text::dec(p.line as nat)),
    ];
    let middle = match p.condition {
        Some(c) => head.push(pair("condition"@, quoted(c))),
        None => head,
    };
    match p.hit_count {
        Some(h) => middle.push(pair("hit_count"@, text::dec(h as nat))),
        None => middle,
    }
}

/// The first `k` of some lines, each with its end.
pub open spec fn joined(lines: Seq<Seq<char>>, k: int) -> Seq<char>
    decreases k,
{
    if k <= 0 {
        Seq::empty()
    } else {
        joined(lines, k - 1) + lines[k - 1].push('\n')
    }
}

/// The first `k` breakpoints; a blank line stands between two.
pub open spec fn written(l: Seq<PersistedModel>, k: int) -> Seq<char>
    decreases k,
{
    if k <= 0 {
        Seq::empty()
    } else if k == 1 {
        joined(record(l[0]), record(l[0]).len() as int)
    } else {
        written(l, k - 1).push('\n') + joined(record(l[k - 1]), record(l[k - 1]).len() as int)
    }
}

// --- what is read ---------------------------------------------------------------

/// Where a comment starts that is not inside quotes; the end, where none does.
pub open spec fn comment_from(s: Seq<char>, i: int, inside: bool, escaping: bool) -> int
    decreases s.len() - i,
{
    if i < 0 || i >= s.len() {
        s.len() as int
    } else if inside {
        if escaping {
            comment_from(s, i + 1, true, false)
        } else if s[i] == '\\' {
            comment_from(s, i + 1, true, true)
        } else {
            comment_from(s, i + 1, s[i] != '"', false)
        }
    } else if s[i] == '#' {
        i
    } else {
        comment_from(s, i + 1, s[i] == '"', false)
    }
}

/// What a line says once its comment and the white space around it are gone.
pub open spec fn bare(raw: Seq<char>) -> Seq<char> {
    text::trim(raw.take(comment_from(raw, 0, false, false)))
}

/// The place of the first `c` from `i` on; the end, where there is none.
pub open spec fn find(s: Seq<char>, c: char, i: int) -> int
    decreases s.len() - i,
{
    if i < 0 || i >= s.len() {
        s.len() as int
    } else if s[i] == c {
        i
    } else {
        find(s, c, i + 1)
    }
}

/// The character that an escape stands for.
pub open spec fn unescape(c: char) -> char {
    if c == 'n' {
        '\n'
    } else {
        c
    }
}

/// A text whose escapes are taken out; a lone escape at the end is dropped.
pub open spec fn unescaped(s: Seq<char>) -> Seq<char>
    decreases s.len(),
{
    if s.len() == 0 {
        Seq::empty()
    } else if s[0] == '\\' {
        if s.len() == 1 {
            Seq::empty()
        } else {
            seq![unescape(s[1])] + unescaped(s.skip(2))
        }
    } else {
        seq![s[0]] + unescaped(s.skip(1))
    }
}

/// A value without the quotes at its ends, where it has them.
pub open spec fn unquoted(s: Seq<char>) -> Seq<char> {
    let a = if s.len() > 0 && s[0] == '"' {
        s.skip(1)
    } else {
        s
    };
    let b = if a.len() > 0 && a.last() == '"' {
        a.drop_last()
    } else {
        a
    };
    unescaped(b)
}

/// Whether all characters are decimal digits.
pub open spec fn all_digits(s: Seq<char>) -> bool {
    forall|i: int| 0 <= i < s.len() ==> '0' <= #[trigger] s[i] <= '9'
}

/// The number that decimal digits stand for.
pub open spec fn decimal(s: Seq<char>) -> nat
    decreases s.len(),
{
    if s.len() == 0 {
        0
    } else {
        decimal(s.drop_last()) * 10 + (s.last() as int - '0' as int) as nat
    }
}

/// The number that a value names: digits behind an optional `+`.
pub open spec fn number(s: Seq<char>) -> Option<u32> {
    let digits = if s.len() > 0 && s[0] == '+' {
        s.skip(1)
    } else {
        s
    };
    if digits.len() > 0 && all_digits(digits) && decimal(digits) <= u32::MAX {
        Some(decimal(digits) as u32)
    } else {
        None
    }
}

/// What has been read: the breakpoints that are complete, and the one at hand.
#[verifier::ext_equal]
pub struct Progress {
    pub done: Seq<PersistedModel>,
    pub current: Option<PersistedModel>,
}

/// A breakpoint before its keys are read.
pub open spec fn fresh() -> PersistedModel {
    PersistedModel { file: Seq::empty(), line: 0, condition: None, hit_count: None }
}

/// A breakpoint with one key set; a key or a number that is not known changes
/// nothing.
pub open spec fn keyed(p: PersistedModel, key: Seq<char>, value: Seq<char>) -> PersistedModel {
    if key == "file"@ {
        PersistedModel { file: unquoted(value), ..p }
    } else if key == "line"@ {
        match number(value) {
            Some(n) => PersistedModel { line: n, ..p },
            None => p,
        }
    } else if key == "condition"@ {
        PersistedModel { condition: Some(unquoted(value)), ..p }
    } else if key == "hit_count"@ {
        match number(value) {
            Some(n) => PersistedModel { hit_count: Some(n), ..p },
            None => p,
        }
    } else {
        p
    }
}

/// All breakpoints, the one at hand among them.
pub open spec fn flushed(st: Progress) -> Seq<PersistedModel> {
    match st.current {
        Some(p) => st.done.push(p),
        None => st.done,
    }
}

/// What one line does.
pub open spec fn line_step(st: Progress, raw: Seq<char>) -> Progress {
    let line = bare(raw);
    if line == "[[breakpoint]]"@ {
        Progress { done: flushed(st), current: Some(fresh()) }
    } else {
        let e = find(line, '=', 0);
        if e >= line.len() || st.current is None {
            st
        } else {
            Progress {
                current: Some(keyed(st.current->0, text::trim(line.take(e)), text::trim(line.skip(e + 1)))),
                ..st
            }
        }
    }
}

/// What the lines from `i` on do.
pub open spec fn reading(s: Seq<char>, i: int, st: Progress) -> Progress
    decreases (if i < s.len() {
        s.len() - i
    } else {
        0
    }),
{
    if i < 0 || i >= s.len() {
        st
    } else {
        proof {
            lemma_find(s, '\n', i);
        }
        reading(s, find(s, '\n', i) + 1, line_step(st, s.subrange(i, find(s, '\n', i))))
    }
}

/// The breakpoints that a file names.
pub open spec fn breakpoints_in(s: Seq<char>) -> Seq<PersistedModel> {
    flushed(reading(s, 0, Progress { done: Seq::empty(), current: None }))
}

pub proof fn lemma_find(s: Seq<char>, c: char, i: int)
    requires
        0 <= i,
    ensures
        i <= s.len() ==> i <= find(s, c, i) <= s.len(),
        find(s, c, i) < s.len() ==> s[find(s, c, i)] == c,
        forall|j: int| i <= j < find(s, c, i) && j < s.len() ==> s[j] != c,
    decreases s.len() - i,
{
    if i < s.len() {
        lemma_find(s, c, i + 1);
    }
}

// --- what is written is read back -----------------------------------------------

proof fn lemma_unescaped(s: Seq<char>)
    ensures
        unescaped(escaped(s)) == s,
    decreases s.len(),
{
    if s.len() > 0 {
        lemma_unescaped(s.skip(1));
        let e = escape(s[0]);
        let rest = escaped(s.skip(1));
        assert((e + rest).skip(e.len() as int) =~= rest);
        assert(unescaped(e + rest) == seq![s[0]] + unescaped(rest));
        assert(seq![s[0]] + s.skip(1) =~= s);
    } else {
        assert(unescaped(escaped(s)) =~= s);
    }
}

proof fn lemma_unquoted(s: Seq<char>)
    ensures
        unquoted(quoted(s)) == s,
{
    lemma_unescaped(s);
    let q = quoted(s);
    assert(q.skip(1) =~= escaped(s).push('"'));
    assert(q.skip(1).drop_last() =~= escaped(s));
}

proof fn lemma_escaped_chars(s: Seq<char>)
    ensures
        !escaped(s).contains('\n'),
    decreases s.len(),
{
    if s.len() > 0 {
        lemma_escaped_chars(s.skip(1));
        let e = escape(s[0]);
        let rest = escaped(s.skip(1));
        assert forall|i: int| 0 <= i < (e + rest).len() implies (e + rest)[i] != '\n' by {
            if i >= e.len() {
                assert(rest[i - e.len()] == (e + rest)[i]);
            }
        }
    }
}

/// No comment starts between quotes.
proof fn lemma_inside(x: Seq<char>, i: int, s: Seq<char>)
    requires
        0 <= i <= x.len(),
        x.skip(i) == escaped(s).push('"'),
    ensures
        comment_from(x, i, true, false) == x.len(),
    decreases s.len(),
{
    let t = x.skip(i);
    assert(t.len() == x.len() - i);
    assert(forall|j: int| 0 <= j < t.len() ==> #[trigger] t[j] == x[i + j]);
    if s.len() == 0 {
        assert(t[0] == x[i]);
        assert(comment_from(x, i + 1, false, false) == x.len());
    } else {
        let e = escape(s[0]);
        let rest = escaped(s.skip(1)).push('"');
        assert(t =~= e + rest);
        assert(t[0] == e[0]);
        assert(x.skip(i + e.len()) =~= rest) by {
            assert(forall|j: int| 0 <= j < rest.len() ==> #[trigger] rest[j] == t[e.len() + j]);
        }
        lemma_inside(x, i + e.len(), s.skip(1));
        if e.len() == 2 {
            assert(t[1] == e[1]);
            assert(comment_from(x, i + 1, true, true) == comment_from(x, i + 2, true, false));
        }
    }
}

/// What neither quotes nor starts a comment is stepped over.
proof fn lemma_plain(x: Seq<char>, i: int, j: int)
    requires
        0 <= i <= j <= x.len(),
        forall|k: int| i <= k < j ==> #[trigger] x[k] != '"' && x[k] != '#',
    ensures
        comment_from(x, i, false, false) == comment_from(x, j, false, false),
    decreases j - i,
{
    if i < j {
        lemma_plain(x, i + 1, j);
    }
}

/// Whether a text can stand as a key.
spec fn key_like(key: Seq<char>) -> bool {
    key.len() > 0 && forall|i: int|
        0 <= i < key.len() ==> !text::white(#[trigger] key[i]) && key[i] != '=' && key[i] != '"' && key[i] != '#'
            && key[i] != '\n' && key[i] != '['
}

proof fn lemma_find_is(s: Seq<char>, c: char, i: int, e: int)
    requires
        0 <= i <= e < s.len(),
        s[e] == c,
        forall|j: int| i <= j < e ==> s[j] != c,
    ensures
        find(s, c, i) == e,
    decreases e - i,
{
    if i < e {
        lemma_find_is(s, c, i + 1, e);
    }
}

/// What a written pair does.
proof fn lemma_pair(st: Progress, key: Seq<char>, value: Seq<char>)
    requires
        key_like(key),
        value.len() > 0,
        !text::white(value[0]),
        !text::white(value.last()),
        comment_from(pair(key, value), key.len() as int + 3, false, false) == pair(key, value).len(),
        st.current is Some,
    ensures
        line_step(st, pair(key, value)) == (Progress { current: Some(keyed(st.current->0, key, value)), ..st }),
{
    let x = pair(key, value);
    let n = key.len() as int;
    assert(forall|i: int| 0 <= i < n ==> #[trigger] x[i] == key[i]);
    assert(x[n] == ' ' && x[n + 1] == '=' && x[n + 2] == ' ');
    assert(forall|i: int| 0 <= i < value.len() ==> #[trigger] x[n + 3 + i] == value[i]);
    lemma_plain(x, 0, n + 3);
    assert(x.take(x.len() as int) =~= x);
    assert(x[0] == key[0]);
    assert(x.last() == value.last());
    text::lemma_trim_solid(x);
    assert(bare(x) == x);
    reveal_strlit("[[breakpoint]]");
    assert(x != "[[breakpoint]]"@) by {
        assert("[[breakpoint]]"@[0] == '[');
    }
    lemma_find_is(x, '=', 0, n + 1);
    let k = x.take(n + 1);
    assert(k[n] == ' ');
    assert(k[n - 1] == key[n - 1]);
    assert(text::lead(k, 0) == 0);
    assert(text::tail(k, n + 1) == text::tail(k, n));
    assert(text::tail(k, n) == n);
    assert(k.subrange(0, n) =~= key);
    let v = x.skip(n + 2);
    assert(v[0] == ' ');
    assert(v[1] == value[0]);
    assert(v.last() == value.last());
    assert(text::lead(v, 0) == text::lead(v, 1));
    assert(text::lead(v, 1) == 1);
    assert(text::tail(v, v.len() as int) == v.len());
    assert(v.subrange(1, v.len() as int) =~= value);
}

proof fn lemma_dec(n: nat)
    ensures
        text::dec(n).len() > 0,
        all_digits(text::dec(n)),
        decimal(text::dec(n)) == n,
    decreases n,
{
    if n >= 10 {
        lemma_dec(n / 10);
        assert(text::dec(n).drop_last() =~= text::dec(n / 10));
        assert forall|i: int| 0 <= i < text::dec(n).len() implies '0' <= #[trigger] text::dec(n)[i] <= '9' by {
            if i < text::dec(n / 10).len() {
                assert(text::dec(n)[i] == text::dec(n / 10)[i]);
            }
        }
    } else {
        let d = text::dec(n);
        assert(d.len() == 1);
        assert(d.drop_last() =~= Seq::empty());
        assert(decimal(d.drop_last()) == 0);
        assert(d.last() as int == 48 + n);
    }
}

proof fn lemma_text_pair(st: Progress, key: Seq<char>, s: Seq<char>)
    requires
        key_like(key),
        st.current is Some,
    ensures
        line_step(st, pair(key, quoted(s))) == (Progress { current: Some(keyed(st.current->0, key, quoted(s))), ..st }),
        !pair(key, quoted(s)).contains('\n'),
{
    let x = pair(key, quoted(s));
    let n = key.len() as int;
    assert(x[n + 3] == '"');
    assert(x.skip(n + 4) =~= escaped(s).push('"'));
    lemma_inside(x, n + 4, s);
    lemma_pair(st, key, quoted(s));
    lemma_escaped_chars(s);
    assert forall|i: int| 0 <= i < x.len() implies x[i] != '\n' by {
        if n + 4 <= i < x.len() - 1 {
            assert(escaped(s)[i - n - 4] == x[i]);
        } else if i < n {
            assert(x[i] == key[i]);
        }
    }
}

proof fn lemma_number_pair(st: Progress, key: Seq<char>, v: nat)
    requires
        key_like(key),
        st.current is Some,
    ensures
        line_step(st, pair(key, text::dec(v))) == (Progress {
            current: Some(keyed(st.current->0, key, text::dec(v))),
            ..st
        }),
        !pair(key, text::dec(v)).contains('\n'),
        v <= u32::MAX ==> number(text::dec(v)) == Some(v as u32),
{
    let x = pair(key, text::dec(v));
    let n = key.len() as int;
    lemma_dec(v);
    let d = text::dec(v);
    assert(forall|i: int| 0 <= i < d.len() ==> #[trigger] x[n + 3 + i] == d[i]);
    assert forall|k: int| n + 3 <= k < x.len() implies #[trigger] x[k] != '"' && x[k] != '#' && x[k] != '\n' by {
        assert(x[k] == d[k - n - 3]);
    }
    lemma_plain(x, n + 3, x.len() as int);
    lemma_pair(st, key, d);
    assert forall|i: int| 0 <= i < x.len() implies x[i] != '\n' by {
        if i < n {
            assert(x[i] == key[i]);
        }
    }
    assert(d[0] != '+');
}

proof fn lemma_keys()
    ensures
        key_like("file"@),
        key_like("line"@),
        key_like("condition"@),
        key_like("hit_count"@),
        "file"@ != "line"@,
        "file"@ != "condition"@,
        "file"@ != "hit_count"@,
        "line"@ != "condition"@,
        "line"@ != "hit_count"@,
        "condition"@ != "hit_count"@,
        !("[[breakpoint]]"@).contains('\n'),
{
    reveal_strlit("file");
    reveal_strlit("line");
    reveal_strlit("condition");
    reveal_strlit("hit_count");
    reveal_strlit("[[breakpoint]]");
    assert("file"@[0] == 'f');
    assert("line"@[0] == 'l');
    assert("condition"@[0] == 'c');
    assert("hit_count"@[0] == 'h');
}

proof fn lemma_header(st: Progress)
    ensures
        line_step(st, "[[breakpoint]]"@) == (Progress { done: flushed(st), current: Some(fresh()) }),
{
    let x = "[[breakpoint]]"@;
    reveal_strlit("[[breakpoint]]");
    assert(forall|k: int| 0 <= k < x.len() ==> #[trigger] x[k] != '"' && x[k] != '#');
    lemma_plain(x, 0, x.len() as int);
    assert(x.take(x.len() as int) =~= x);
    assert(x[0] == '[');
    assert(x.last() == ']');
    text::lemma_trim_solid(x);
}

/// What the first `k` of some lines do.
spec fn steps(lines: Seq<Seq<char>>, k: int, st: Progress) -> Progress
    decreases k,
{
    if k <= 0 {
        st
    } else {
        line_step(steps(lines, k - 1, st), lines[k - 1])
    }
}

/// Reading some lines that stand in a text at `i`.
proof fn lemma_reading(s: Seq<char>, i: int, lines: Seq<Seq<char>>, k: int, st: Progress)
    requires
        0 <= i,
        0 <= k <= lines.len(),
        i + joined(lines, k).len() <= s.len(),
        s.subrange(i, i + joined(lines, k).len()) == joined(lines, k),
        forall|j: int| 0 <= j < k ==> !(#[trigger] lines[j]).contains('\n'),
    ensures
        reading(s, i, st) == reading(s, i + joined(lines, k).len(), steps(lines, k, st)),
    decreases k,
{
    if k > 0 {
        let a = joined(lines, k - 1);
        let l = lines[k - 1];
        let w = joined(lines, k);
        let p = i + a.len();
        assert forall|j: int| 0 <= j < w.len() implies s[i + j] == w[j] by {
            assert(s.subrange(i, i + w.len())[j] == w[j]);
        }
        assert(s.subrange(i, p) =~= a) by {
            assert(forall|j: int| 0 <= j < a.len() ==> #[trigger] a[j] == w[j]);
        }
        lemma_reading(s, i, lines, k - 1, st);
        let e = p + l.len();
        assert forall|j: int| 0 <= j < l.len() implies s[p + j] == #[trigger] l[j] by {
            assert(w[a.len() + j] == l[j]);
            assert(s[i + (a.len() + j)] == w[a.len() + j]);
        }
        assert(s[e] == '\n') by {
            assert(w[(a.len() + l.len()) as int] == '\n');
            assert(s[i + (a.len() + l.len())] == w[(a.len() + l.len()) as int]);
        }
        assert forall|j: int| p <= j < e implies s[j] != '\n' by {
            assert(s[p + (j - p)] == l[j - p]);
            assert(l.contains(l[j - p]));
        }
        lemma_find_is(s, '\n', p, e);
        assert(s.subrange(p, e) =~= l);
    }
}

/// What the lines of a written breakpoint do.
proof fn lemma_record(p: PersistedModel, st: Progress)
    ensures
        steps(record(p), record(p).len() as int, st) == (Progress { done: flushed(st), current: Some(p) }),
        forall|j: int| 0 <= j < record(p).len() ==> !(#[trigger] record(p)[j]).contains('\n'),
{
    reveal_with_fuel(steps, 6);
    lemma_keys();
    lemma_header(st);
    let s1 = Progress { done: flushed(st), current: Some(fresh()) };
    lemma_text_pair(s1, "file"@, p.file);
    lemma_unquoted(p.file);
    let s2 = Progress { current: Some(PersistedModel { file: p.file, ..fresh() }), ..s1 };
    lemma_number_pair(s2, "line"@, p.line as nat);
    let s3 = Progress { current: Some(PersistedModel { file: p.file, line: p.line, ..fresh() }), ..s1 };
    let s4 = match p.condition {
        Some(c) => {
            lemma_text_pair(s3, "condition"@, c);
            lemma_unquoted(c);
            Progress { current: Some(PersistedModel { hit_count: None, ..p }), ..s1 }
        },
        None => s3,
    };
    match p.hit_count {
        Some(h) => {
            lemma_number_pair(s4, "hit_count"@, h as nat);
        },
        None => {},
    }
}

proof fn lemma_written(l: Seq<PersistedModel>, k: int, s: Seq<char>)
    requires
        0 <= k <= l.len(),
        written(l, k).len() <= s.len(),
        s.take(written(l, k).len() as int) == written(l, k),
    ensures
        ({
            let st = Progress { done: Seq::empty(), current: None };
            let after = Progress {
                done: if k == 0 { Seq::empty() } else { l.take(k - 1) },
                current: if k == 0 { None } else { Some(l[k - 1]) },
            };
            reading(s, 0, st) == reading(s, written(l, k).len() as int, after)
        }),
    decreases k,
{
    let st = Progress { done: Seq::empty(), current: None };
    if k > 0 {
        let before = written(l, k - 1);
        let w = written(l, k);
        let r = record(l[k - 1]);
        let text = joined(r, r.len() as int);
        let head = if k == 1 { before } else { before.push('\n') };
        assert(w =~= head + text);
        assert(forall|j: int| 0 <= j < w.len() ==> #[trigger] s[j] == w[j]) by {
            assert(forall|j: int| 0 <= j < w.len() ==> s.take(w.len() as int)[j] == w[j]);
        }
        assert(s.take(before.len() as int) =~= before) by {
            assert(forall|j: int| 0 <= j < before.len() ==> #[trigger] before[j] == w[j]);
        }
        lemma_written(l, k - 1, s);
        let at = Progress {
            done: if k == 1 { Seq::empty() } else { l.take(k - 2) },
            current: if k == 1 { None } else { Some(l[k - 2]) },
        };
        let h = head.len() as int;
        if k > 1 {
            let b = before.len() as int;
            assert(w[b] == head[b]);
            assert(s[b] == '\n');
            assert(find(s, '\n', b) == b);
            lemma_blank(at, s.subrange(b, b));
            assert(reading(s, b, at) == reading(s, b + 1, at));
        }
        assert(reading(s, 0, st) == reading(s, h, at));
        assert(s.subrange(h, h + text.len()) =~= text) by {
            assert(forall|j: int| 0 <= j < text.len() ==> #[trigger] text[j] == w[h + j]);
        }
        lemma_record(l[k - 1], at);
        lemma_reading(s, h, r, r.len() as int, at);
        assert(flushed(at) =~= l.take(k - 1)) by {
            if k > 1 {
                assert(l.take(k - 1) =~= l.take(k - 2).push(l[k - 2]));
            }
        }
    }
}

proof fn lemma_blank(st: Progress, s: Seq<char>)
    requires
        s.len() == 0,
    ensures
        line_step(st, s) == st,
{
    assert(s.take(0).len() == 0);
    reveal_strlit("[[breakpoint]]");
    assert(bare(s).len() == 0);
}

/// Reading what was written gives the breakpoints back.
pub proof fn law_read_of_write(l: Seq<PersistedModel>)
    ensures
        breakpoints_in(written(l, l.len() as int)) == l,
{
    let s = written(l, l.len() as int);
    assert(s.take(s.len() as int) =~= s);
    lemma_written(l, l.len() as int, s);
    if l.len() > 0 {
        assert(l.take(l.len() - 1).push(l.last()) =~= l);
    } else {
        assert(breakpoints_in(s) =~= l);
    }
}

// --- the writer and the reader --------------------------------------------------

/// Appends the quoted text.
fn push_quoted(out: &mut String, s: &String)
    ensures
        final(out)@ == old(out)@ + quoted(s@),
{
    let cs = chars_of(s.as_str());
    out.push('"');
    let ghost head = out@;
    let mut i: usize = 0;
    assert(s@.skip(0) =~= s@);
    while i < cs.len()
        invariant
            i <= cs@.len(),
            cs@ == s@,
            out@ + escaped(s@.skip(i as int)) == head + escaped(s@),
        decreases cs.len() - i,
    {
        let ghost was = out@;
        let c = cs[i];
        if c == '\\' {
            out.push('\\');
            out.push('\\');
        } else if c == '"' {
            out.push('\\');
            out.push('"');
        } else if c == '\n' {
            out.push('\\');
            out.push('n');
        } else {
            out.push(c);
        }
        proof {
            let rest = s@.skip(i as int);
            assert(rest[0] == c);
            assert(rest.skip(1) =~= s@.skip(i + 1));
            assert(out@ =~= was + escape(c));
            assert(out@ + escaped(rest.skip(1)) =~= was + escaped(rest));
        }
        i += 1;
    }
    assert(s@.skip(i as int).len() == 0);
    assert(out@ =~= head + escaped(s@));
    out.push('"');
    assert(out@ =~= old(out)@ + quoted(s@));
}

/// Appends the lines of one breakpoint.
fn push_record(out: &mut String, p: &Persisted)
    ensures
        final(out)@ == old(out)@ + joined(record(p@), record(p@).len() as int),
{
    proof {
        reveal_with_fuel(joined, 6);
        reveal_strlit("file = ");
        reveal_strlit("line = ");
        reveal_strlit("condition = ");
        reveal_strlit("hit_count = ");
        reveal_strlit("file");
        reveal_strlit("line");
        reveal_strlit("condition");
        reveal_strlit("hit_count");
        assert("file = "@ =~= "file"@ + seq![' ', '=', ' ']);
        assert("line = "@ =~= "line"@ + seq![' ', '=', ' ']);
        assert("condition = "@ =~= "condition"@ + seq![' ', '=', ' ']);
        assert("hit_count = "@ =~= "hit_count"@ + seq![' ', '=', ' ']);
    }
    let ghost l = record(p@);
    let ghost start = out@;
    out.append("[[breakpoint]]");
    out.push('\n');
    assert(out@ =~= start + joined(l, 1));
    out.append("file = ");
    push_quoted(out, &p.file);
    out.push('\n');
    assert(out@ =~= start + joined(l, 2));
    out.append("line = ");
    push_dec(out, p.line as u64);
    out.push('\n');
    assert(out@ =~= start + joined(l, 3));
    let ghost mut k: int = 3;
    match &p.condition {
        Some(c) => {
            out.append("condition = ");
            push_quoted(out, c);
            out.push('\n');
            proof {
                k = 4;
            }
            assert(out@ =~= start + joined(l, 4));
        },
        None => {},
    }
    match p.hit_count {
        Some(h) => {
            out.append("hit_count = ");
            push_dec(out, h as u64);
            out.push('\n');
            assert(out@ =~= start + joined(l, k + 1));
        },
        None => {},
    }
}

/// Renders `breakpoints`; the keys come in a fixed order.
pub fn write(breakpoints: &[Persisted]) -> (r: String)
    ensures
        r@ == written(views::views(breakpoints@), breakpoints@.len() as int),
{
    let ghost m = views::views(breakpoints@);
    let mut out = String::new();
    let mut i: usize = 0;
    assert(out@ =~= written(m, 0));
    while i < breakpoints.len()
        invariant
            i <= breakpoints@.len(),
            m == views::views(breakpoints@),
            out@ == written(m, i as int),
        decreases breakpoints.len() - i,
    {
        assert(m[i as int] == breakpoints@[i as int]@);
        if i > 0 {
            out.push('\n');
        }
        push_record(&mut out, &breakpoints[i]);
        i += 1;
        assert(out@ =~= written(m, i as int));
    }
    out
}

fn comment_place(s: &Vec<char>) -> (r: usize)
    ensures
        r == comment_from(s@, 0, false, false),
        r <= s@.len(),
{
    let mut inside = false;
    let mut escaping = false;
    let mut i: usize = 0;
    while i < s.len()
        invariant
            i <= s@.len(),
            comment_from(s@, i as int, inside, escaping) == comment_from(s@, 0, false, false),
            escaping ==> inside,
        decreases s.len() - i,
    {
        let c = s[i];
        if inside {
            if escaping {
                escaping = false;
            } else if c == '\\' {
                escaping = true;
            } else {
                inside = c != '"';
            }
        } else if c == '#' {
            return i;
        } else {
            inside = c == '"';
        }
        i += 1;
    }
    i
}

fn place_of(s: &Vec<char>, c: char, from: usize) -> (r: usize)
    requires
        from <= s@.len(),
    ensures
        r == find(s@, c, from as int),
        from <= r <= s@.len(),
{
    let mut i: usize = from;
    while i < s.len()
        invariant
            from <= i <= s@.len(),
            find(s@, c, i as int) == find(s@, c, from as int),
        decreases s.len() - i,
    {
        if s[i] == c {
            return i;
        }
        i += 1;
    }
    i
}

fn unquote(s: &Vec<char>) -> (r: String)
    ensures
        r@ == unquoted(s@),
{
    let mut from: usize = 0;
    let mut to: usize = s.len();
    if from < to && s[from] == '"' {
        from = 1;
    }
    if from < to && s[to - 1] == '"' {
        to = to - 1;
    }
    let ghost inner = s@.subrange(from as int, to as int);
    proof {
        let a = if s@.len() > 0 && s@[0] == '"' {
            s@.skip(1)
        } else {
            s@
        };
        assert(a =~= s@.skip(from as int));
        let b = if a.len() > 0 && a.last() == '"' {
            a.drop_last()
        } else {
            a
        };
        assert(b =~= inner);
        assert(unquoted(s@) == unescaped(inner));
    }
    let mut out = String::new();
    let mut i: usize = from;
    assert(inner.skip(0) =~= inner);
    assert(out@ + unescaped(inner) =~= unescaped(inner));
    while i < to
        invariant
            from <= i <= to <= s@.len(),
            inner == s@.subrange(from as int, to as int),
            unquoted(s@) == unescaped(inner),
            out@ + unescaped(inner.skip(i - from)) == unescaped(inner),
        decreases to - i,
    {
        let ghost rest = inner.skip(i - from);
        let ghost was = out@;
        let c = s[i];
        assert(rest[0] == c);
        if c == '\\' {
            if to - i == 1 {
                assert(rest.len() == 1);
                assert(out@ =~= unescaped(inner));
                return out;
            }
            let d = s[i + 1];
            assert(rest[1] == d);
            if d == 'n' {
                out.push('\n');
            } else {
                out.push(d);
            }
            i += 2;
            proof {
                assert(rest.skip(2) =~= inner.skip(i - from));
                assert(out@ + unescaped(rest.skip(2)) =~= was + unescaped(rest));
            }
        } else {
            out.push(c);
            i += 1;
            proof {
                assert(rest.skip(1) =~= inner.skip(i - from));
                assert(out@ + unescaped(rest.skip(1)) =~= was + unescaped(rest));
            }
        }
    }
    assert(inner.skip(i - from).len() == 0);
    assert(out@ =~= unescaped(inner));
    out
}

fn read_number(s: &Vec<char>) -> (r: Option<u32>)
    ensures
        r == number(s@),
{
    let mut i: usize = 0;
    if s.len() > 0 && s[0] == '+' {
        i = 1;
    }
    let ghost digits = s@.skip(i as int);
    let ghost from = i as int;
    proof {
        assert(s@.skip(0) =~= s@);
    }
    if i >= s.len() {
        return None;
    }
    let mut v: u64 = 0;
    assert(digits.take(0) =~= Seq::empty());
    while i < s.len()
        invariant
            0 <= from <= i <= s@.len(),
            from < s@.len(),
            digits == s@.skip(from),
            number(s@) == (if all_digits(digits) && decimal(digits) <= u32::MAX {
                Some(decimal(digits) as u32)
            } else {
                None
            }),
            all_digits(digits.take(i - from)),
            decimal(digits.take(i - from)) <= u32::MAX ==> v == decimal(digits.take(i - from)),
            decimal(digits.take(i - from)) > u32::MAX ==> v == 0x1_0000_0000,
        decreases s.len() - i,
    {
        let c = s[i];
        assert(digits[i - from] == c);
        if !('0' <= c && c <= '9') {
            return None;
        }
        let d: u64 = c as u64 - '0' as u64;
        proof {
            let t = digits.take(i - from);
            let t1 = digits.take(i - from + 1);
            assert(t1.drop_last() =~= t);
            assert(t1.last() == c);
            assert forall|j: int| 0 <= j < t1.len() implies '0' <= #[trigger] t1[j] <= '9' by {
                if j < t.len() {
                    assert(t1[j] == t[j]);
                }
            }
        }
        if v < 0x1_0000_0000 {
            v = v * 10 + d;
            if v > 0xFFFF_FFFF {
                v = 0x1_0000_0000;
            }
        }
        i += 1;
    }
    assert(digits.take(i - from) =~= digits);
    if v <= 0xFFFF_FFFF {
        Some(v as u32)
    } else {
        None
    }
}

/// The model of the breakpoint at hand.
spec fn at_hand(o: Option<Persisted>) -> Option<PersistedModel> {
    match o {
        Some(p) => Some(p@),
        None => None,
    }
}

/// Sets one key.
fn set_key(p: &mut Persisted, key: &String, value: &Vec<char>)
    ensures
        final(p)@ == keyed(old(p)@, key@, value@),
{
    if key.as_str().eq("file") {
        p.file = unquote(value);
    } else if key.as_str().eq("line") {
        if let Some(n) = read_number(value) {
            p.line = n;
        }
    } else if key.as_str().eq("condition") {
        p.condition = Some(unquote(value));
    } else if key.as_str().eq("hit_count") {
        if let Some(n) = read_number(value) {
            p.hit_count = Some(n);
        }
    }
}

/// Takes in one line.
fn take_line(out: Vec<Persisted>, current: Option<Persisted>, raw: &Vec<char>) -> (r: (Vec<Persisted>, Option<Persisted>))
    ensures
        (Progress { done: views::views(r.0@), current: at_hand(r.1) }) == line_step(
            Progress { done: views::views(out@), current: at_hand(current) },
            raw@,
        ),
{
    let mut out = out;
    let end: usize = comment_place(raw);
    let line = trimmed(&part(raw, 0, end));
    assert(raw@.subrange(0, end as int) =~= raw@.take(end as int));
    let whole = string_of(&line, 0, line.len());
    assert(whole@ =~= line@);
    if whole.as_str().eq("[[breakpoint]]") {
        let ghost was = out@;
        match current {
            Some(p) => {
                proof {
                    views::lemma_views_push(was, p);
                }
                out.push(p);
            },
            None => {},
        }
        let next = Persisted { file: String::new(), line: 0, condition: None, hit_count: None };
        assert(next.file@ =~= Seq::empty());
        return (out, Some(next));
    }
    let e: usize = place_of(&line, '=', 0);
    if e >= line.len() {
        return (out, current);
    }
    match current {
        Some(p) => {
            let mut p = p;
            let k = trimmed(&part(&line, 0, e));
            let key = string_of(&k, 0, k.len());
            let value = trimmed(&part(&line, e + 1, line.len()));
            proof {
                assert(line@.subrange(0, e as int) =~= line@.take(e as int));
                assert(line@.subrange(e + 1, line@.len() as int) =~= line@.skip(e + 1));
                assert(key@ =~= k@);
            }
            set_key(&mut p, &key, &value);
            (out, Some(p))
        },
        None => (out, None),
    }
}

/// Parses what [`write`] renders. Blank lines, comments and white space are
/// tolerated; any line outside the schema is ignored.
pub fn read(source: &str) -> (r: Vec<Persisted>)
    ensures
        views::views(r@) == breakpoints_in(source@),
{
    let s = chars_of(source);
    let ghost start = Progress { done: Seq::empty(), current: None };
    let mut out: Vec<Persisted> = Vec::new();
    let mut current: Option<Persisted> = None;
    let mut i: usize = 0;
    assert(views::views(out@) =~= Seq::empty());
    while i < s.len()
        invariant
            s@ == source@,
            reading(s@, i as int, Progress { done: views::views(out@), current: at_hand(current) }) == reading(
                s@,
                0,
                start,
            ),
        decreases s.len() - i,
    {
        let e: usize = place_of(&s, '\n', i);
        let raw = part(&s, i, e);
        let next = take_line(out, current, &raw);
        out = next.0;
        current = next.1;
        if e >= s.len() {
            i = s.len();
            assert(reading(s@, e + 1, Progress { done: views::views(out@), current: at_hand(current) }) == reading(
                s@,
                i as int,
                Progress { done: views::views(out@), current: at_hand(current) },
            ));
        } else {
            i = e + 1;
        }
    }
    match current {
        Some(p) => {
            proof {
                views::lemma_views_push(out@, p);
            }
            out.push(p);
        },
        None => {},
    }
    out
}

} // verus!
