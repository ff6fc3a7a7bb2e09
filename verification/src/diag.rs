//! Diagnostics: structured error reports with source rendering.
//!
//! The compiler accumulates [`Diagnostic`]s instead of bailing on the first
//! error; compilation returns both partial output and the full diagnostic
//! list, so that an editor can underline every problem in one pass.

use crate::source;
use crate::source::{Source, SourceMap, Span};
use crate::text;
use crate::text::push_dec;
use crate::views;
use vstd::prelude::*;
use vstd::string::*;

verus! {

/// Severity of a [`Diagnostic`].
#[derive(Clone, Copy, Debug, PartialEq, Eq, Structural)]
pub enum Severity {
    /// Compilation cannot continue past this diagnostic's stage.
    Error,
    /// Compilation continues; the diagnostic flags suspicious code.
    Warning,
    /// Informational note attached to another diagnostic.
    Note,
}

/// One diagnostic: severity, primary span, message, and optional notes.
#[derive(Clone, Debug, PartialEq, Eq)]
pub struct Diagnostic {
    /// Severity level.
    pub severity: Severity,
    /// Primary source location.
    pub span: Span,
    /// Short, single-line message describing the diagnostic.
    pub message: String,
    /// Optional sub-notes pointing at related spans.
    pub notes: Vec<(Span, String)>,
}

/// What a diagnostic says.
pub struct DiagnosticModel {
    pub severity: Severity,
    pub span: Span,
    pub message: Seq<char>,
    pub notes: Seq<(Span, Seq<char>)>,
}

/// What a list of notes says.
pub open spec fn notes_model(notes: Seq<(Span, String)>) -> Seq<(Span, Seq<char>)> {
    Seq::new(notes.len(), |i: int| (notes[i].0, notes[i].1@))
}

impl View for Diagnostic {
    type V = DiagnosticModel;

    open spec fn view(&self) -> DiagnosticModel {
        DiagnosticModel {
            severity: self.severity,
            span: self.span,
            message: self.message@,
            notes: notes_model(self.notes@),
        }
    }
}

/// An error without notes.
pub open spec fn error_at(span: Span, message: Seq<char>) -> DiagnosticModel {
    DiagnosticModel { severity: Severity::Error, span, message, notes: Seq::empty() }
}

/// The first words of a rendered diagnostic.
pub open spec fn severity_text(s: Severity) -> Seq<char> {
    match s {
        Severity::Error => "error"@,
        Severity::Warning => "warning"@,
        Severity::Note => "note"@,
    }
}

/// ` --> file:line:col` and a newline, for an offset into a source.
pub open spec fn location_text(src: Source, offset: u32) -> Seq<char> {
    "\n --> "@ + src.name@ + ":"@ + text::dec(source::newlines(src.bytes(), offset as int) + 1) + ":"@ + text::dec(
        (offset - source::line_start(src.bytes(), offset as int) + 1) as nat,
    ) + "\n"@
}

/// The rendered notes, one after the other.
pub open spec fn notes_text(files: Seq<Source>, notes: Seq<(Span, Seq<char>)>) -> Seq<char>
    decreases notes.len(),
{
    if notes.len() == 0 {
        Seq::empty()
    } else {
        let (s, m) = notes.last();
        notes_text(files, notes.drop_last()) + ("note: "@ + m + location_text(files[s.file.0 as int], s.lo))
    }
}

/// Whether `out` is the rendered text of a diagnostic: the severity and the message, the
/// location, the line of source that holds it, and the notes.
pub open spec fn is_rendering(files: Seq<Source>, d: DiagnosticModel, out: Seq<char>) -> bool {
    let src = files[d.span.file.0 as int];
    let line = source::newlines(src.bytes(), d.span.lo as int) + 1;
    exists|lo: int, hi: int| #[trigger] source::is_line(src.bytes(), line as int, lo, hi) && out == severity_text(d.severity)
        + ": "@ + d.message + location_text(src, d.span.lo) + ("  | "@ + vstd::utf8::decode_utf8(src.bytes().subrange(lo, hi))
        + "\n"@) + notes_text(files, d.notes)
}

/// Whether every span of a diagnostic points into a well-formed source of the map.
pub open spec fn spans_known(files: Seq<Source>, d: DiagnosticModel) -> bool {
    &&& d.span.file.0 < files.len()
    &&& d.span.lo < u32::MAX
    &&& files[d.span.file.0 as int].wf()
    &&& forall|i: int|
        0 <= i < d.notes.len() ==> (#[trigger] d.notes[i]).0.file.0 < files.len() && d.notes[i].0.lo < u32::MAX
            && files[d.notes[i].0.file.0 as int].wf()
}

fn push_location(out: &mut String, src: &Source, offset: u32)
    requires
        src.wf(),
        offset < u32::MAX,
    ensures
        final(out)@ == old(out)@ + location_text(*src, offset),
{
    let (line, col) = src.line_col(offset);
    out.append("\n --> ");
    out.append(src.name.as_str());
    out.append(":");
    push_dec(out, line as u64);
    out.append(":");
    push_dec(out, col as u64);
    out.append("\n");
    assert(out@ =~= old(out)@ + location_text(*src, offset));
}

impl Diagnostic {
    /// Constructs an error-level diagnostic.
    pub fn error(span: Span, message: String) -> (r: Diagnostic)
        ensures
            r@ == error_at(span, message@),
    {
        let r = Diagnostic { severity: Severity::Error, span, message, notes: Vec::new() };
        assert(notes_model(r.notes@) =~= Seq::empty());
        r
    }

    /// Constructs a warning-level diagnostic.
    pub fn warning(span: Span, message: String) -> (r: Diagnostic)
        ensures
            r@ == (DiagnosticModel { severity: Severity::Warning, span, message: message@, notes: Seq::empty() }),
    {
        let r = Diagnostic { severity: Severity::Warning, span, message, notes: Vec::new() };
        assert(notes_model(r.notes@) =~= Seq::empty());
        r
    }

    /// Adds a note pointing at `span`.
    pub fn with_note(self, span: Span, message: String) -> (r: Diagnostic)
        ensures
            r@ == (DiagnosticModel { notes: self@.notes.push((span, message@)), ..self@ }),
    {
        let mut notes = self.notes;
        let ghost before = notes@;
        notes.push((span, message));
        assert(notes_model(notes@) =~= notes_model(before).push((span, message@)));
        Diagnostic { severity: self.severity, span: self.span, message: self.message, notes }
    }

    /// Renders the diagnostic with one line of source context.
    pub fn render(&self, sm: &SourceMap) -> (r: String)
        requires
            spans_known(sm.files(), self@),
        ensures
            is_rendering(sm.files(), self@, r@),
    {
        let src = sm.get(self.span.file);
        let ghost b = src.bytes();
        let ghost files = sm.files();
        let (line, _) = src.line_col(self.span.lo);
        let mut out = String::new();
        match self.severity {
            Severity::Error => out.append("error"),
            Severity::Warning => out.append("warning"),
            Severity::Note => out.append("note"),
        }
        out.append(": ");
        out.append(self.message.as_str());
        push_location(&mut out, src, self.span.lo);
        let ghost head = severity_text(self.severity) + ": "@ + self.message@ + location_text(*src, self.span.lo);
        assert(out@ =~= head);
        let ghost mut lo: int = 0;
        let ghost mut hi: int = 0;
        proof {
            lemma_line_exists(b, self.span.lo as int);
        }
        if let Some(text) = src.line_text(line) {
            proof {
                let (l, h) = choose|l: int, h: int|
                    source::is_line(b, line as int, l, h) && text.spec_bytes() == b.subrange(l, h);
                lo = l;
                hi = h;
                vstd::utf8::encode_utf8_decode_utf8(text@);
            }
            out.append("  | ");
            out.append(text);
            out.append("\n");
        }
        let ghost head2 = head + ("  | "@ + vstd::utf8::decode_utf8(b.subrange(lo, hi)) + "\n"@);
        assert(out@ =~= head2);
        let mut i: usize = 0;
        assert(self@.notes.take(0) =~= Seq::empty());
        while i < self.notes.len()
            invariant
                i <= self.notes@.len(),
                files == sm.files(),
                spans_known(files, self@),
                out@ == head2 + notes_text(files, self@.notes.take(i as int)),
            decreases self.notes.len() - i,
        {
            let s: Span = self.notes[i].0;
            assert(self@.notes[i as int].0 == s);
            let s_src = sm.get(s.file);
            out.append("note: ");
            out.append(self.notes[i].1.as_str());
            push_location(&mut out, s_src, s.lo);
            i += 1;
            assert(self@.notes.take(i as int).drop_last() =~= self@.notes.take(i as int - 1));
            assert(out@ =~= head2 + notes_text(files, self@.notes.take(i as int)));
        }
        assert(self@.notes.take(i as int) =~= self@.notes);
        assert(source::is_line(b, line as int, lo, hi));
        out
    }
}

proof fn lemma_line_exists(b: Seq<u8>, k: int)
    requires
        0 <= k,
    ensures
        source::newlines(b, k) <= source::newlines(b, b.len() as int),
    decreases k,
{
    if k <= b.len() {
        lemma_newlines_le(b, k, b.len() as int);
    } else {
        lemma_line_exists(b, k - 1);
    }
}

proof fn lemma_newlines_le(b: Seq<u8>, i: int, j: int)
    requires
        i <= j,
    ensures
        source::newlines(b, i) <= source::newlines(b, j),
    decreases j - i,
{
    if i < j {
        lemma_newlines_le(b, i, j - 1);
    }
}

/// Sink for diagnostics produced during one compilation pass.
#[derive(Clone, Debug, PartialEq, Eq)]
pub struct Diagnostics {
    items: Vec<Diagnostic>,
}

impl View for Diagnostics {
    type V = Seq<DiagnosticModel>;

    closed spec fn view(&self) -> Seq<DiagnosticModel> {
        views::views(self.items@)
    }
}

/// Whether a list of diagnostics holds an error.
pub open spec fn holds_error(s: Seq<DiagnosticModel>) -> bool {
    exists|i: int| 0 <= i < s.len() && (#[trigger] s[i]).severity == Severity::Error
}

impl Diagnostics {
    /// An empty sink.
    pub fn new() -> (r: Diagnostics)
        ensures
            r@ == Seq::<DiagnosticModel>::empty(),
    {
        let r = Diagnostics { items: Vec::new() };
        assert(r@ =~= Seq::<DiagnosticModel>::empty());
        r
    }

    /// Records `diag`.
    pub fn emit(&mut self, diag: Diagnostic)
        ensures
            final(self)@ == old(self)@.push(diag@),
    {
        proof {
            views::lemma_views_push(self.items@, diag);
        }
        self.items.push(diag);
    }

    /// Borrows the accumulated diagnostics.
    pub fn all(&self) -> (r: &[Diagnostic])
        ensures
            views::views(r@) == self@,
    {
        self.items.as_slice()
    }

    /// Number of recorded diagnostics.
    pub fn len(&self) -> (r: usize)
        ensures
            r == self@.len(),
    {
        self.items.len()
    }

    /// Whether the sink is empty.
    pub fn is_empty(&self) -> (r: bool)
        ensures
            r == (self@.len() == 0),
    {
        self.items.len() == 0
    }

    /// `true` if any diagnostic is [`Severity::Error`].
    pub fn has_errors(&self) -> (r: bool)
        ensures
            r == holds_error(self@),
    {
        let mut i: usize = 0;
        while i < self.items.len()
            invariant
                i <= self.items@.len(),
                forall|j: int| 0 <= j < i ==> (#[trigger] self@[j]).severity != Severity::Error,
            decreases self.items.len() - i,
        {
            assert(self@[i as int] == self.items@[i as int]@);
            if self.items[i].severity == Severity::Error {
                return true;
            }
            i += 1;
        }
        false
    }

    /// Consumes the sink, returning the diagnostic vector.
    pub fn into_vec(self) -> (r: Vec<Diagnostic>)
        ensures
            views::views(r@) == self@,
    {
        self.items
    }

    /// Appends every diagnostic from `other` into `self`.
    pub fn extend(&mut self, other: Diagnostics)
        ensures
            final(self)@ == old(self)@ + other@,
    {
        let mut rest = other.items;
        proof {
            views::lemma_views_add(self.items@, rest@);
        }
        self.items.append(&mut rest);
    }
}

impl Default for Diagnostics {
    /// An empty sink.
    fn default() -> (r: Diagnostics)
        ensures
            r@ == Seq::<DiagnosticModel>::empty(),
    {
        Diagnostics::new()
    }
}

} // verus!
