//! Hand-written lexer for sli source text.
//!
//! Produces a flat token stream.
//!
//! Lexical structure:
//!
//! - Line comments start with `//`.
//! - Block comments `/* ... */` nest.
//! - String literals are double-quoted; supported escapes are
//!   `\n`, `\r`, `\t`, `\0`, `\\`, `\"`.
//! - Integer literals: decimal digits with optional `_` separators.
//! - Float literals: decimal digits with a `.` and decimal digits, or
//!   trailing `f32` / `f64` suffix.
//! - Identifiers and keywords share ASCII alphanumerics + `_`; keywords
//!   are resolved after lexing the lexeme.

use crate::bignat::BigNat;
use crate::diag;
use crate::diag::{Diagnostic, DiagnosticModel, Diagnostics};
use crate::float;
use crate::source;
use crate::source::{FileId, Source, Span};
use crate::text::string_from_utf8;
use crate::views;
use vstd::prelude::*;
use vstd::string::*;
use vstd::utf8::{decode_utf8, valid_utf8};

verus! {

/// One classified lexeme.
#[derive(Clone, Copy, Debug, PartialEq, Eq, Structural)]
pub enum TokenKind {
    // --- literals -----------------------------------------------------
    /// Integer literal — value already parsed; the span is the lexeme.
    Int(i64),
    /// Float literal — value already parsed, as its bit pattern.
    Float(u64),
    /// String literal; the decoded text lives on the [`Token`] itself.
    Str,
    /// Boolean literal `true`.
    True,
    /// Boolean literal `false`.
    False,
    /// `nil` literal.
    Nil,

    // --- identifiers / keywords --------------------------------------
    /// Identifier or unknown keyword. [`Token::ident`] holds its text.
    Ident,
    /// `fn` keyword.
    KwFn,
    /// `let` keyword.
    KwLet,
    /// `mut` keyword.
    KwMut,
    /// `const` keyword.
    KwConst,
    /// `return` keyword.
    KwReturn,
    /// `if` keyword.
    KwIf,
    /// `else` keyword.
    KwElse,
    /// `while` keyword.
    KwWhile,
    /// `for` keyword.
    KwFor,
    /// `in` keyword.
    KwIn,
    /// `break` keyword.
    KwBreak,
    /// `continue` keyword.
    KwContinue,
    /// `struct` keyword.
    KwStruct,
    /// `as` keyword.
    KwAs,

    // --- punctuation --------------------------------------------------
    /// `(`
    LParen,
    /// `)`
    RParen,
    /// `{`
    LBrace,
    /// `}`
    RBrace,
    /// `[`
    LBracket,
    /// `]`
    RBracket,
    /// `,`
    Comma,
    /// `;`
    Semicolon,
    /// `:`
    Colon,
    /// `::`
    ColonColon,
    /// `.`
    Dot,
    /// `->`
    Arrow,
    /// `=>`
    FatArrow,
    /// `|`  (used as closure parameter delimiter)
    Pipe,

    // --- operators ----------------------------------------------------
    /// `=`
    Assign,
    /// `+`
    Plus,
    /// `-`
    Minus,
    /// `*`
    Star,
    /// `/`
    Slash,
    /// `%`
    Percent,
    /// `==`
    EqEq,
    /// `!=`
    BangEq,
    /// `<`
    Lt,
    /// `<=`
    LtEq,
    /// `>`
    Gt,
    /// `>=`
    GtEq,
    /// `&&`
    AmpAmp,
    /// `||`
    PipePipe,
    /// `!`
    Bang,

    // --- meta ---------------------------------------------------------
    /// End of input.
    Eof,
    /// Malformed lexeme — diagnostic already emitted.
    Error,
}

/// One lexed token: kind, source span, and the decoded text of any
/// payload-carrying literal.
#[derive(Clone, Debug, PartialEq, Eq)]
pub struct Token {
    /// Classified lexeme.
    pub kind: TokenKind,
    /// Source span.
    pub span: Span,
    /// Decoded string-literal text (without quotes). Empty for non-strings.
    pub str_value: String,
    /// Raw identifier text — only populated for [`TokenKind::Ident`] and
    /// keyword tokens to keep token equality lightweight elsewhere.
    pub ident: String,
}

/// What a token holds.
pub struct TokenModel {
    pub kind: TokenKind,
    pub span: Span,
    pub str_value: Seq<char>,
    pub ident: Seq<char>,
}

impl View for Token {
    type V = TokenModel;

    open spec fn view(&self) -> TokenModel {
        TokenModel { kind: self.kind, span: self.span, str_value: self.str_value@, ident: self.ident@ }
    }
}

/// A token without text.
pub open spec fn plain(kind: TokenKind, span: Span) -> TokenModel {
    TokenModel { kind, span, str_value: Seq::empty(), ident: Seq::empty() }
}

impl Token {
    /// Constructs an `Eof` token at the very end of `file`.
    pub fn eof(file: FileId, at: u32) -> (r: Token)
        ensures
            r@ == plain(TokenKind::Eof, source::span_at(file, at as int, at as int)),
    {
        token(TokenKind::Eof, Span::point(file, at))
    }
}

fn token(kind: TokenKind, span: Span) -> (r: Token)
    ensures
        r@ == plain(kind, span),
{
    Token { kind, span, str_value: String::new(), ident: String::new() }
}

// --- the lexical grammar ----------------------------------------------------

pub open spec fn is_space(c: u8) -> bool {
    c == 32 || c == 9 || c == 10 || c == 13
}

pub open spec fn is_digit(c: u8) -> bool {
    48 <= c <= 57
}

pub open spec fn is_alpha(c: u8) -> bool {
    65 <= c <= 90 || 97 <= c <= 122
}

/// Whether a byte can start an identifier.
pub open spec fn starts_ident(c: u8) -> bool {
    c == 95 || is_alpha(c)
}

/// Whether a byte can stand inside an identifier.
pub open spec fn in_ident(c: u8) -> bool {
    c == 95 || is_alpha(c) || is_digit(c)
}

/// Whether a byte can stand inside a run of digits.
pub open spec fn in_digits(c: u8) -> bool {
    c == 95 || is_digit(c)
}

/// Where the run of identifier bytes from `i` on ends.
pub open spec fn ident_end(b: Seq<u8>, i: int) -> int
    decreases b.len() - i,
{
    if 0 <= i < b.len() && in_ident(b[i]) {
        ident_end(b, i + 1)
    } else {
        i
    }
}

/// Where the run of digits and separators from `i` on ends.
pub open spec fn digits_end(b: Seq<u8>, i: int) -> int
    decreases b.len() - i,
{
    if 0 <= i < b.len() && in_digits(b[i]) {
        digits_end(b, i + 1)
    } else {
        i
    }
}

/// Where the line that holds `i` ends: at its newline, or at the end of the text.
pub open spec fn line_end(b: Seq<u8>, i: int) -> int
    decreases b.len() - i,
{
    if 0 <= i < b.len() && b[i] != 10 {
        line_end(b, i + 1)
    } else {
        i
    }
}

/// Where the block comment that is open `depth` levels deep at `i` ends; `None` where it
/// is never closed.
pub open spec fn comment_end(b: Seq<u8>, i: int, depth: nat) -> Option<int>
    decreases b.len() - i,
{
    if depth == 0 {
        Some(i)
    } else if i < 0 || i + 1 >= b.len() {
        None
    } else if b[i] == 47 && b[i + 1] == 42 {
        comment_end(b, i + 2, depth + 1)
    } else if b[i] == 42 && b[i + 1] == 47 {
        comment_end(b, i + 2, (depth - 1) as nat)
    } else {
        comment_end(b, i + 1, depth)
    }
}

/// The text of a range of ASCII bytes.
pub open spec fn ascii(b: Seq<u8>, lo: int, hi: int) -> Seq<char> {
    Seq::new((hi - lo) as nat, |k: int| b[lo + k] as char)
}

/// The keyword or identifier kind of a lexeme.
pub open spec fn keyword(s: Seq<char>) -> TokenKind {
    if s == "fn"@ {
        TokenKind::KwFn
    } else if s == "let"@ {
        TokenKind::KwLet
    } else if s == "mut"@ {
        TokenKind::KwMut
    } else if s == "const"@ {
        TokenKind::KwConst
    } else if s == "return"@ {
        TokenKind::KwReturn
    } else if s == "if"@ {
        TokenKind::KwIf
    } else if s == "else"@ {
        TokenKind::KwElse
    } else if s == "while"@ {
        TokenKind::KwWhile
    } else if s == "for"@ {
        TokenKind::KwFor
    } else if s == "in"@ {
        TokenKind::KwIn
    } else if s == "break"@ {
        TokenKind::KwBreak
    } else if s == "continue"@ {
        TokenKind::KwContinue
    } else if s == "struct"@ {
        TokenKind::KwStruct
    } else if s == "as"@ {
        TokenKind::KwAs
    } else if s == "true"@ {
        TokenKind::True
    } else if s == "false"@ {
        TokenKind::False
    } else if s == "nil"@ {
        TokenKind::Nil
    } else {
        TokenKind::Ident
    }
}

/// The number written by the digits among the bytes from `lo` to `hi`.
pub open spec fn digits_value(b: Seq<u8>, lo: int, hi: int) -> nat
    decreases hi - lo,
{
    if hi <= lo {
        0
    } else if is_digit(b[hi - 1]) {
        10 * digits_value(b, lo, hi - 1) + (b[hi - 1] - 48) as nat
    } else {
        digits_value(b, lo, hi - 1)
    }
}

/// How many digits stand among the bytes from `lo` to `hi`.
pub open spec fn digits_count(b: Seq<u8>, lo: int, hi: int) -> nat
    decreases hi - lo,
{
    if hi <= lo {
        0
    } else if is_digit(b[hi - 1]) {
        digits_count(b, lo, hi - 1) + 1
    } else {
        digits_count(b, lo, hi - 1)
    }
}

/// Where the fraction of a number ends whose integer part ends at `i`; `i` where it has none.
pub open spec fn fraction_end(b: Seq<u8>, i: int) -> int {
    if i + 1 < b.len() && b[i] == 46 && is_digit(b[i + 1]) {
        digits_end(b, i + 1)
    } else {
        i
    }
}

/// Whether a float suffix, `f32` or `f64`, stands at `i`.
pub open spec fn suffix_at(b: Seq<u8>, i: int) -> bool {
    i + 2 < b.len() && b[i] == 102 && ((b[i + 1] == 51 && b[i + 2] == 50) || (b[i + 1] == 54 && b[i + 2] == 52))
}

/// Where the number at `i` ends.
pub open spec fn number_end(b: Seq<u8>, i: int) -> int {
    let f = fraction_end(b, digits_end(b, i));
    if suffix_at(b, f) {
        f + 3
    } else {
        f
    }
}

/// The kind of the number at `i`: a float where it has a fraction or a suffix, else an
/// integer, which is malformed where it does not fit `i64`.
pub open spec fn number_kind(b: Seq<u8>, i: int) -> TokenKind {
    let d = digits_end(b, i);
    let f = fraction_end(b, d);
    if f > d || suffix_at(b, f) {
        TokenKind::Float(float::of_decimal(digits_value(b, i, f), digits_count(b, d, f)))
    } else if digits_value(b, i, d) <= i64::MAX {
        TokenKind::Int(digits_value(b, i, d) as i64)
    } else {
        TokenKind::Error
    }
}

/// The byte that an escape stands for.
pub open spec fn escape(c: u8) -> Option<u8> {
    if c == 110 {
        Some(10)
    } else if c == 114 {
        Some(13)
    } else if c == 116 {
        Some(9)
    } else if c == 48 {
        Some(0)
    } else if c == 92 {
        Some(92)
    } else if c == 34 {
        Some(34)
    } else {
        None
    }
}

/// What the inside of a string literal gives: where it ends, the bytes of its decoded
/// text, and the complaints about unknown escapes.
pub struct StringBody {
    pub end: int,
    pub raw: Seq<u8>,
    pub diags: Seq<DiagnosticModel>,
}

/// The inside of a string literal from `i` on, up to its closing quote or the end of the text.
/// An unknown escape reads as a space.
pub open spec fn string_body(file: FileId, b: Seq<u8>, i: int) -> StringBody
    decreases b.len() - i,
{
    if i < 0 || i >= b.len() || b[i] == 34 {
        StringBody { end: i, raw: Seq::empty(), diags: Seq::empty() }
    } else if b[i] == 92 && i + 1 < b.len() {
        let rest = string_body(file, b, i + 2);
        match escape(b[i + 1]) {
            Some(c) => StringBody { raw: seq![c] + rest.raw, ..rest },
            None => StringBody {
                end: rest.end,
                raw: seq![32u8] + rest.raw,
                diags: seq![
                    diag::error_at(
                        source::span_at(file, i, i + 2),
                        "unknown escape \\"@ + seq![b[i + 1] as char],
                    ),
                ] + rest.diags,
            },
        }
    } else {
        let rest = string_body(file, b, i + 1);
        StringBody { raw: seq![b[i]] + rest.raw, ..rest }
    }
}

/// The text that bytes encode; empty where they are not UTF-8. In a source, which is UTF-8,
/// they are not only where an unknown escape cuts a character.
pub open spec fn text_of(raw: Seq<u8>) -> Seq<char> {
    if valid_utf8(raw) {
        decode_utf8(raw)
    } else {
        Seq::empty()
    }
}

/// The punctuation token that starts with `c`, and its length.
pub open spec fn punctuation(c: u8, next: Option<u8>) -> Option<(TokenKind, int)> {
    if c == 40 {
        Some((TokenKind::LParen, 1))
    } else if c == 41 {
        Some((TokenKind::RParen, 1))
    } else if c == 123 {
        Some((TokenKind::LBrace, 1))
    } else if c == 125 {
        Some((TokenKind::RBrace, 1))
    } else if c == 91 {
        Some((TokenKind::LBracket, 1))
    } else if c == 93 {
        Some((TokenKind::RBracket, 1))
    } else if c == 44 {
        Some((TokenKind::Comma, 1))
    } else if c == 59 {
        Some((TokenKind::Semicolon, 1))
    } else if c == 58 {
        if next == Some(58u8) {
            Some((TokenKind::ColonColon, 2))
        } else {
            Some((TokenKind::Colon, 1))
        }
    } else if c == 46 {
        Some((TokenKind::Dot, 1))
    } else if c == 43 {
        Some((TokenKind::Plus, 1))
    } else if c == 45 {
        if next == Some(62u8) {
            Some((TokenKind::Arrow, 2))
        } else {
            Some((TokenKind::Minus, 1))
        }
    } else if c == 42 {
        Some((TokenKind::Star, 1))
    } else if c == 47 {
        Some((TokenKind::Slash, 1))
    } else if c == 37 {
        Some((TokenKind::Percent, 1))
    } else if c == 61 {
        if next == Some(61u8) {
            Some((TokenKind::EqEq, 2))
        } else if next == Some(62u8) {
            Some((TokenKind::FatArrow, 2))
        } else {
            Some((TokenKind::Assign, 1))
        }
    } else if c == 33 {
        if next == Some(61u8) {
            Some((TokenKind::BangEq, 2))
        } else {
            Some((TokenKind::Bang, 1))
        }
    } else if c == 60 {
        if next == Some(61u8) {
            Some((TokenKind::LtEq, 2))
        } else {
            Some((TokenKind::Lt, 1))
        }
    } else if c == 62 {
        if next == Some(61u8) {
            Some((TokenKind::GtEq, 2))
        } else {
            Some((TokenKind::Gt, 1))
        }
    } else if c == 38 && next == Some(38u8) {
        Some((TokenKind::AmpAmp, 2))
    } else if c == 124 {
        if next == Some(124u8) {
            Some((TokenKind::PipePipe, 2))
        } else {
            Some((TokenKind::Pipe, 1))
        }
    } else {
        None
    }
}

/// What the lexer does at one position: the tokens and the complaints that it gives, and
/// where it goes on.
pub struct Step {
    pub tokens: Seq<TokenModel>,
    pub diags: Seq<DiagnosticModel>,
    pub next: int,
}

/// Nothing but a move to `next`.
pub open spec fn skip_to(next: int) -> Step {
    Step { tokens: Seq::empty(), diags: Seq::empty(), next }
}

/// One token, and a move to `next`.
pub open spec fn one_token(t: TokenModel, next: int) -> Step {
    Step { tokens: seq![t], diags: Seq::empty(), next }
}

/// An error token that swallows the rest of the text.
pub open spec fn unterminated(file: FileId, b: Seq<u8>, i: int, message: Seq<char>) -> Step {
    let span = source::span_at(file, i, b.len() as int);
    Step {
        tokens: seq![plain(TokenKind::Error, span)],
        diags: seq![diag::error_at(span, message)],
        next: b.len() as int,
    }
}

pub open spec fn number_step(file: FileId, b: Seq<u8>, i: int) -> Step {
    let end = number_end(b, i);
    let kind = number_kind(b, i);
    let span = source::span_at(file, i, end);
    Step {
        tokens: seq![plain(kind, span)],
        diags: if kind is Error {
            seq![diag::error_at(span, "integer literal out of range"@)]
        } else {
            Seq::empty()
        },
        next: end,
    }
}

pub open spec fn string_step(file: FileId, b: Seq<u8>, i: int) -> Step {
    let body = string_body(file, b, i + 1);
    if body.end >= b.len() {
        let rest = unterminated(file, b, i, "unterminated string literal"@);
        Step { diags: body.diags + rest.diags, ..rest }
    } else {
        Step {
            tokens: seq![
                TokenModel {
                    kind: if body.diags.len() == 0 {
                        TokenKind::Str
                    } else {
                        TokenKind::Error
                    },
                    span: source::span_at(file, i, body.end + 1),
                    str_value: text_of(body.raw),
                    ident: Seq::empty(),
                },
            ],
            diags: body.diags,
            next: body.end + 1,
        }
    }
}

pub open spec fn ident_step(file: FileId, b: Seq<u8>, i: int) -> Step {
    let end = ident_end(b, i);
    let name = ascii(b, i, end);
    one_token(
        TokenModel {
            kind: keyword(name),
            span: source::span_at(file, i, end),
            str_value: Seq::empty(),
            ident: name,
        },
        end,
    )
}

pub open spec fn punctuation_step(file: FileId, b: Seq<u8>, i: int) -> Step {
    let next = if i + 1 < b.len() {
        Some(b[i + 1])
    } else {
        None
    };
    match punctuation(b[i], next) {
        Some((kind, len)) => one_token(plain(kind, source::span_at(file, i, i + len)), i + len),
        None => Step {
            tokens: Seq::empty(),
            diags: seq![
                diag::error_at(
                    source::span_at(file, i, i + 1),
                    "unexpected character `"@ + seq![b[i] as char] + "`"@,
                ),
            ],
            next: i + 1,
        },
    }
}

/// What the lexer does at position `i`.
pub open spec fn step(file: FileId, b: Seq<u8>, i: int) -> Step {
    let c = b[i];
    if is_space(c) {
        skip_to(i + 1)
    } else if c == 47 && i + 1 < b.len() && b[i + 1] == 47 {
        skip_to(line_end(b, i))
    } else if c == 47 && i + 1 < b.len() && b[i + 1] == 42 {
        match comment_end(b, i + 2, 1) {
            Some(end) => skip_to(end),
            None => unterminated(file, b, i, "unterminated block comment"@),
        }
    } else if starts_ident(c) {
        ident_step(file, b, i)
    } else if is_digit(c) {
        number_step(file, b, i)
    } else if c == 34 {
        string_step(file, b, i)
    } else {
        punctuation_step(file, b, i)
    }
}

/// The tokens of the text from `i` on, and the complaints about it. An `Eof` token ends them.
pub open spec fn lexed(file: FileId, b: Seq<u8>, i: int) -> (Seq<TokenModel>, Seq<DiagnosticModel>)
    decreases b.len() - i,
{
    if i < 0 || i >= b.len() {
        (seq![plain(TokenKind::Eof, source::span_at(file, b.len() as int, b.len() as int))], Seq::empty())
    } else {
        proof {
            lemma_step_moves(file, b, i);
        }
        let s = step(file, b, i);
        let rest = lexed(file, b, s.next);
        (s.tokens + rest.0, s.diags + rest.1)
    }
}

proof fn lemma_ident_end(b: Seq<u8>, i: int)
    requires
        0 <= i <= b.len(),
    ensures
        i <= ident_end(b, i) <= b.len(),
        forall|k: int| i <= k < ident_end(b, i) ==> in_ident(#[trigger] b[k]),
        ident_end(b, i) < b.len() ==> !in_ident(b[ident_end(b, i)]),
    decreases b.len() - i,
{
    if i < b.len() && in_ident(b[i]) {
        lemma_ident_end(b, i + 1);
    }
}

proof fn lemma_digits_end(b: Seq<u8>, i: int)
    requires
        0 <= i <= b.len(),
    ensures
        i <= digits_end(b, i) <= b.len(),
    decreases b.len() - i,
{
    if i < b.len() && in_digits(b[i]) {
        lemma_digits_end(b, i + 1);
    }
}

proof fn lemma_line_end(b: Seq<u8>, i: int)
    requires
        0 <= i <= b.len(),
    ensures
        i <= line_end(b, i) <= b.len(),
    decreases b.len() - i,
{
    if i < b.len() && b[i] != 10 {
        lemma_line_end(b, i + 1);
    }
}

proof fn lemma_comment_end(b: Seq<u8>, i: int, depth: nat)
    requires
        0 <= i <= b.len(),
    ensures
        comment_end(b, i, depth) is Some ==> i <= comment_end(b, i, depth)->0 <= b.len(),
    decreases b.len() - i,
{
    if depth > 0 && i + 1 < b.len() {
        if b[i] == 47 && b[i + 1] == 42 {
            lemma_comment_end(b, i + 2, depth + 1);
        } else if b[i] == 42 && b[i + 1] == 47 {
            lemma_comment_end(b, i + 2, (depth - 1) as nat);
        } else {
            lemma_comment_end(b, i + 1, depth);
        }
    }
}

proof fn lemma_string_body(file: FileId, b: Seq<u8>, i: int)
    requires
        0 <= i <= b.len(),
    ensures
        i <= string_body(file, b, i).end <= b.len(),
        string_body(file, b, i).end < b.len() ==> b[string_body(file, b, i).end] == 34,
    decreases b.len() - i,
{
    if i < b.len() && b[i] != 34 {
        if b[i] == 92 && i + 1 < b.len() {
            lemma_string_body(file, b, i + 2);
        } else {
            lemma_string_body(file, b, i + 1);
        }
    }
}

proof fn lemma_number_end(b: Seq<u8>, i: int)
    requires
        0 <= i < b.len(),
        is_digit(b[i]),
    ensures
        i < digits_end(b, i) <= fraction_end(b, digits_end(b, i)) <= number_end(b, i) <= b.len(),
{
    lemma_digits_end(b, i + 1);
    let d = digits_end(b, i);
    assert(d == digits_end(b, i + 1));
    if d + 1 < b.len() {
        lemma_digits_end(b, d + 1);
    }
}

/// Every step of the lexer moves on, and stays inside the text.
pub proof fn lemma_step_moves(file: FileId, b: Seq<u8>, i: int)
    requires
        0 <= i < b.len(),
    ensures
        i < step(file, b, i).next <= b.len(),
{
    lemma_line_end(b, i);
    if b[i] == 47 && i + 1 < b.len() && b[i + 1] == 47 {
        lemma_line_end(b, i + 1);
    }
    if i + 2 <= b.len() {
        lemma_comment_end(b, i + 2, 1);
    }
    lemma_ident_end(b, i + 1);
    if is_digit(b[i]) {
        lemma_number_end(b, i);
    }
    lemma_string_body(file, b, i + 1);
}

// --- scanning -----------------------------------------------------------------

fn space(c: u8) -> (r: bool)
    ensures
        r == is_space(c),
{
    c == 32 || c == 9 || c == 10 || c == 13
}

fn digit(c: u8) -> (r: bool)
    ensures
        r == is_digit(c),
{
    48 <= c && c <= 57
}

fn ident_start(c: u8) -> (r: bool)
    ensures
        r == starts_ident(c),
{
    c == 95 || (65 <= c && c <= 90) || (97 <= c && c <= 122)
}

fn ident_part(c: u8) -> (r: bool)
    ensures
        r == in_ident(c),
{
    ident_start(c) || digit(c)
}

fn scan_ident(b: &[u8], i: usize) -> (r: usize)
    requires
        i <= b@.len(),
    ensures
        r == ident_end(b@, i as int),
        i <= r <= b@.len(),
{
    let mut j: usize = i;
    while j < b.len() && ident_part(b[j])
        invariant
            i <= j <= b@.len(),
            ident_end(b@, j as int) == ident_end(b@, i as int),
        ensures
            i <= j <= b@.len(),
            j == ident_end(b@, i as int),
        decreases b.len() - j,
    {
        j += 1;
    }
    j
}

fn scan_digits(b: &[u8], i: usize) -> (r: usize)
    requires
        i <= b@.len(),
    ensures
        r == digits_end(b@, i as int),
        i <= r <= b@.len(),
{
    let mut j: usize = i;
    while j < b.len() && (b[j] == 95 || digit(b[j]))
        invariant
            i <= j <= b@.len(),
            digits_end(b@, j as int) == digits_end(b@, i as int),
        ensures
            i <= j <= b@.len(),
            j == digits_end(b@, i as int),
        decreases b.len() - j,
    {
        j += 1;
    }
    j
}

fn scan_line(b: &[u8], i: usize) -> (r: usize)
    requires
        i <= b@.len(),
    ensures
        r == line_end(b@, i as int),
        i <= r <= b@.len(),
{
    let mut j: usize = i;
    while j < b.len() && b[j] != 10
        invariant
            i <= j <= b@.len(),
            line_end(b@, j as int) == line_end(b@, i as int),
        ensures
            i <= j <= b@.len(),
            j == line_end(b@, i as int),
        decreases b.len() - j,
    {
        j += 1;
    }
    j
}

fn scan_comment(b: &[u8], i: usize) -> (r: Option<usize>)
    requires
        i <= b@.len(),
    ensures
        r is Some <==> comment_end(b@, i as int, 1) is Some,
        r is Some ==> r->0 == comment_end(b@, i as int, 1)->0 && i <= r->0 <= b@.len(),
{
    let mut j: usize = i;
    let mut depth: usize = 1;
    while depth > 0 && b.len() - j > 1
        invariant
            i <= j <= b@.len(),
            depth <= j - i + 1,
            comment_end(b@, j as int, depth as nat) == comment_end(b@, i as int, 1),
        ensures
            i <= j <= b@.len(),
            depth > 0 ==> comment_end(b@, i as int, 1) is None,
            depth == 0 ==> comment_end(b@, i as int, 1) == Some(j as int),
        decreases b.len() - j,
    {
        if b[j] == 47 && b[j + 1] == 42 {
            depth += 1;
            j += 2;
        } else if b[j] == 42 && b[j + 1] == 47 {
            depth -= 1;
            j += 2;
        } else {
            j += 1;
        }
    }
    if depth == 0 {
        Some(j)
    } else {
        None
    }
}

fn ascii_string(b: &[u8], lo: usize, hi: usize) -> (r: String)
    requires
        lo <= hi <= b@.len(),
    ensures
        r@ == ascii(b@, lo as int, hi as int),
{
    let mut out = String::new();
    let mut i: usize = lo;
    assert(out@ =~= ascii(b@, lo as int, lo as int));
    while i < hi
        invariant
            lo <= i <= hi <= b@.len(),
            out@ == ascii(b@, lo as int, i as int),
        decreases hi - i,
    {
        out.push(b[i] as char);
        i += 1;
        assert(out@ =~= ascii(b@, lo as int, i as int));
    }
    out
}

fn keyword_kind(s: &str) -> (r: TokenKind)
    ensures
        r == keyword(s@),
{
    if s.eq("fn") {
        TokenKind::KwFn
    } else if s.eq("let") {
        TokenKind::KwLet
    } else if s.eq("mut") {
        TokenKind::KwMut
    } else if s.eq("const") {
        TokenKind::KwConst
    } else if s.eq("return") {
        TokenKind::KwReturn
    } else if s.eq("if") {
        TokenKind::KwIf
    } else if s.eq("else") {
        TokenKind::KwElse
    } else if s.eq("while") {
        TokenKind::KwWhile
    } else if s.eq("for") {
        TokenKind::KwFor
    } else if s.eq("in") {
        TokenKind::KwIn
    } else if s.eq("break") {
        TokenKind::KwBreak
    } else if s.eq("continue") {
        TokenKind::KwContinue
    } else if s.eq("struct") {
        TokenKind::KwStruct
    } else if s.eq("as") {
        TokenKind::KwAs
    } else if s.eq("true") {
        TokenKind::True
    } else if s.eq("false") {
        TokenKind::False
    } else if s.eq("nil") {
        TokenKind::Nil
    } else {
        TokenKind::Ident
    }
}

fn suffix(b: &[u8], i: usize) -> (r: bool)
    requires
        i <= b@.len(),
    ensures
        r == suffix_at(b@, i as int),
{
    b.len() - i > 2 && b[i] == 102 && ((b[i + 1] == 51 && b[i + 2] == 50) || (b[i + 1] == 54 && b[i + 2] == 52))
}

fn float_bits(b: &[u8], lo: usize, dot: usize, hi: usize) -> (r: u64)
    requires
        lo <= dot <= hi <= b@.len() <= u32::MAX,
    ensures
        r == float::of_decimal(digits_value(b@, lo as int, hi as int), digits_count(b@, dot as int, hi as int)),
{
    let mut value = BigNat::zero();
    let mut places: u32 = 0;
    let mut i: usize = lo;
    while i < hi
        invariant
            lo <= i <= hi <= b@.len() <= u32::MAX,
            lo <= dot <= hi,
            value@ == digits_value(b@, lo as int, i as int),
            i <= dot ==> places == 0,
            i > dot ==> places == digits_count(b@, dot as int, i as int),
            places <= i,
        decreases hi - i,
    {
        if digit(b[i]) {
            value = value.times_small(10).plus(&BigNat::from_u64((b[i] - 48) as u64));
            if i >= dot {
                places += 1;
            }
        }
        i += 1;
        assert(digits_count(b@, dot as int, dot as int) == 0);
    }
    float::decimal(&value, places)
}

fn int_value(b: &[u8], lo: usize, hi: usize) -> (r: Option<i64>)
    requires
        lo <= hi <= b@.len(),
    ensures
        r is Some <==> digits_value(b@, lo as int, hi as int) <= i64::MAX,
        r is Some ==> r->0 == digits_value(b@, lo as int, hi as int),
{
    let mut value: u64 = 0;
    let mut i: usize = lo;
    while i < hi
        invariant
            lo <= i <= hi <= b@.len(),
            value == digits_value(b@, lo as int, i as int),
            value <= i64::MAX,
        decreases hi - i,
    {
        if digit(b[i]) {
            let d: u64 = (b[i] - 48) as u64;
            if value > (0x7fff_ffff_ffff_ffff - d) / 10 {
                proof {
                    assert(digits_value(b@, lo as int, i + 1) > i64::MAX);
                    lemma_digits_value_mono(b@, lo as int, i + 1, hi as int);
                }
                return None;
            }
            value = value * 10 + d;
        }
        i += 1;
    }
    Some(value as i64)
}

proof fn lemma_digits_value_mono(b: Seq<u8>, lo: int, mid: int, hi: int)
    requires
        lo <= mid <= hi,
    ensures
        digits_value(b, lo, mid) <= digits_value(b, lo, hi),
    decreases hi - mid,
{
    if mid < hi {
        lemma_digits_value_mono(b, lo, mid, hi - 1);
    }
}

fn punctuation_kind(c: u8, next: Option<u8>) -> (r: Option<(TokenKind, usize)>)
    ensures
        r is Some <==> punctuation(c, next) is Some,
        r is Some ==> punctuation(c, next)->0 == (r.unwrap().0, r.unwrap().1 as int) && 1 <= r.unwrap().1 <= 2,
        r is Some && r.unwrap().1 == 2 ==> next is Some,
{
    let n: u8 = match next {
        Some(x) => x,
        None => 0,
    };
    match c {
        40 => Some((TokenKind::LParen, 1)),
        41 => Some((TokenKind::RParen, 1)),
        123 => Some((TokenKind::LBrace, 1)),
        125 => Some((TokenKind::RBrace, 1)),
        91 => Some((TokenKind::LBracket, 1)),
        93 => Some((TokenKind::RBracket, 1)),
        44 => Some((TokenKind::Comma, 1)),
        59 => Some((TokenKind::Semicolon, 1)),
        58 => if n == 58 { Some((TokenKind::ColonColon, 2)) } else { Some((TokenKind::Colon, 1)) },
        46 => Some((TokenKind::Dot, 1)),
        43 => Some((TokenKind::Plus, 1)),
        45 => if n == 62 { Some((TokenKind::Arrow, 2)) } else { Some((TokenKind::Minus, 1)) },
        42 => Some((TokenKind::Star, 1)),
        47 => Some((TokenKind::Slash, 1)),
        37 => Some((TokenKind::Percent, 1)),
        61 => if n == 61 {
            Some((TokenKind::EqEq, 2))
        } else if n == 62 {
            Some((TokenKind::FatArrow, 2))
        } else {
            Some((TokenKind::Assign, 1))
        },
        33 => if n == 61 { Some((TokenKind::BangEq, 2)) } else { Some((TokenKind::Bang, 1)) },
        60 => if n == 61 { Some((TokenKind::LtEq, 2)) } else { Some((TokenKind::Lt, 1)) },
        62 => if n == 61 { Some((TokenKind::GtEq, 2)) } else { Some((TokenKind::Gt, 1)) },
        38 => if n == 38 { Some((TokenKind::AmpAmp, 2)) } else { None },
        124 => if n == 124 { Some((TokenKind::PipePipe, 2)) } else { Some((TokenKind::Pipe, 1)) },
        _ => None,
    }
}

fn push_token(out: &mut Vec<Token>, t: Token)
    ensures
        views::views(final(out)@) == views::views(old(out)@).push(t@),
{
    proof {
        views::lemma_views_push(out@, t);
    }
    out.push(t);
}

fn fail_to_end(file: FileId, b: &[u8], i: usize, message: String, out: &mut Vec<Token>, diags: &mut Diagnostics) -> (next: usize)
    requires
        i <= b@.len() <= u32::MAX,
    ensures
        next == b@.len(),
        views::views(final(out)@) == views::views(old(out)@) + unterminated(file, b@, i as int, message@).tokens,
        final(diags)@ == old(diags)@ + unterminated(file, b@, i as int, message@).diags,
{
    let span = Span::new(file, i as u32, b.len() as u32);
    let ghost s = unterminated(file, b@, i as int, message@);
    diags.emit(Diagnostic::error(span, message));
    push_token(out, token(TokenKind::Error, span));
    assert(views::views(out@) =~= views::views(old(out)@) + s.tokens);
    assert(diags@ =~= old(diags)@ + s.diags);
    b.len()
}

fn lex_number(file: FileId, b: &[u8], i: usize, out: &mut Vec<Token>, diags: &mut Diagnostics) -> (next: usize)
    requires
        i < b@.len() <= u32::MAX,
        is_digit(b@[i as int]),
    ensures
        next == number_step(file, b@, i as int).next,
        views::views(final(out)@) == views::views(old(out)@) + number_step(file, b@, i as int).tokens,
        final(diags)@ == old(diags)@ + number_step(file, b@, i as int).diags,
{
    let ghost s = number_step(file, b@, i as int);
    proof {
        lemma_number_end(b@, i as int);
    }
    let d: usize = scan_digits(b, i);
    let f: usize = if b.len() - d > 1 && b[d] == 46 && digit(b[d + 1]) { scan_digits(b, d + 1) } else { d };
    let suffixed: bool = suffix(b, f);
    let end: usize = if suffixed { f + 3 } else { f };
    let span = Span::new(file, i as u32, end as u32);
    let kind: TokenKind = if f > d || suffixed {
        TokenKind::Float(float_bits(b, i, d, f))
    } else {
        match int_value(b, i, d) {
            Some(v) => TokenKind::Int(v),
            None => {
                diags.emit(Diagnostic::error(span, "integer literal out of range".to_owned()));
                TokenKind::Error
            },
        }
    };
    push_token(out, token(kind, span));
    assert(views::views(out@) =~= views::views(old(out)@) + s.tokens);
    assert(diags@ =~= old(diags)@ + s.diags);
    end
}

fn escaped(c: u8) -> (r: Option<u8>)
    ensures
        r == escape(c),
{
    match c {
        110 => Some(10),
        114 => Some(13),
        116 => Some(9),
        48 => Some(0),
        92 => Some(92),
        34 => Some(34),
        _ => None,
    }
}

fn lex_string(file: FileId, b: &[u8], i: usize, out: &mut Vec<Token>, diags: &mut Diagnostics) -> (next: usize)
    requires
        i < b@.len() <= u32::MAX,
    ensures
        next == string_step(file, b@, i as int).next,
        views::views(final(out)@) == views::views(old(out)@) + string_step(file, b@, i as int).tokens,
        final(diags)@ == old(diags)@ + string_step(file, b@, i as int).diags,
{
    let ghost whole = string_body(file, b@, i + 1);
    let ghost s = string_step(file, b@, i as int);
    let ghost before = diags@;
    let mut j: usize = i + 1;
    let mut raw: Vec<u8> = Vec::new();
    let mut ok: bool = true;
    proof {
        lemma_string_body(file, b@, i + 1);
        assert(raw@ + whole.raw =~= whole.raw);
        assert(diags@.skip(before.len() as int) + whole.diags =~= whole.diags);
    }
    while j < b.len() && b[j] != 34
        invariant
            i < j <= b@.len() <= u32::MAX,
            whole == string_body(file, b@, i + 1),
            string_body(file, b@, j as int).end == whole.end,
            raw@ + string_body(file, b@, j as int).raw == whole.raw,
            before.len() <= diags@.len(),
            diags@.take(before.len() as int) == before,
            diags@.skip(before.len() as int) + string_body(file, b@, j as int).diags == whole.diags,
            ok == (diags@.len() == before.len()),
        ensures
            j == whole.end,
            raw@ == whole.raw,
            diags@ == before + whole.diags,
            ok == (whole.diags.len() == 0),
        decreases b.len() - j,
    {
        let ghost rest = string_body(file, b@, j as int);
        if b[j] == 92 && b.len() - j > 1 {
            match escaped(b[j + 1]) {
                Some(c) => {
                    raw.push(c);
                },
                None => {
                    let mut message = "unknown escape \\".to_owned();
                    message.push(b[j + 1] as char);
                    assert(message@ =~= "unknown escape \\"@ + seq![b@[j + 1] as char]);
                    let ghost d0 = diags@;
                    diags.emit(Diagnostic::error(Span::new(file, j as u32, (j + 2) as u32), message));
                    assert(diags@.skip(before.len() as int) =~= d0.skip(before.len() as int).push(diags@.last()));
                    assert(diags@.take(before.len() as int) =~= before);
                    ok = false;
                    raw.push(32);
                },
            }
            j += 2;
        } else {
            raw.push(b[j]);
            j += 1;
        }
        assert(raw@ + string_body(file, b@, j as int).raw =~= whole.raw);
        assert(diags@.skip(before.len() as int) + string_body(file, b@, j as int).diags =~= whole.diags);
    }
    if j >= b.len() {
        let next = fail_to_end(file, b, i, "unterminated string literal".to_owned(), out, diags);
        assert(diags@ =~= old(diags)@ + s.diags);
        return next;
    }
    let text = match string_from_utf8(raw) {
        Some(t) => t,
        None => String::new(),
    };
    let kind: TokenKind = if ok { TokenKind::Str } else { TokenKind::Error };
    push_token(
        out,
        Token { kind, span: Span::new(file, i as u32, (j + 1) as u32), str_value: text, ident: String::new() },
    );
    assert(views::views(out@) =~= views::views(old(out)@) + s.tokens);
    j + 1
}

fn lex_ident(file: FileId, b: &[u8], i: usize, out: &mut Vec<Token>) -> (next: usize)
    requires
        i < b@.len() <= u32::MAX,
    ensures
        next == ident_step(file, b@, i as int).next,
        views::views(final(out)@) == views::views(old(out)@) + ident_step(file, b@, i as int).tokens,
{
    let ghost s = ident_step(file, b@, i as int);
    let end: usize = scan_ident(b, i);
    let name = ascii_string(b, i, end);
    let kind = keyword_kind(name.as_str());
    push_token(
        out,
        Token { kind, span: Span::new(file, i as u32, end as u32), str_value: String::new(), ident: name },
    );
    assert(views::views(out@) =~= views::views(old(out)@) + s.tokens);
    end
}

fn lex_punctuation(file: FileId, b: &[u8], i: usize, out: &mut Vec<Token>, diags: &mut Diagnostics) -> (next: usize)
    requires
        i < b@.len() <= u32::MAX,
    ensures
        next == punctuation_step(file, b@, i as int).next,
        views::views(final(out)@) == views::views(old(out)@) + punctuation_step(file, b@, i as int).tokens,
        final(diags)@ == old(diags)@ + punctuation_step(file, b@, i as int).diags,
{
    let ghost s = punctuation_step(file, b@, i as int);
    let next: Option<u8> = if b.len() - i > 1 { Some(b[i + 1]) } else { None };
    match punctuation_kind(b[i], next) {
        Some((kind, len)) => {
            push_token(out, token(kind, Span::new(file, i as u32, (i + len) as u32)));
            assert(views::views(out@) =~= views::views(old(out)@) + s.tokens);
            assert(diags@ =~= old(diags)@ + s.diags);
            i + len
        },
        None => {
            let mut message = "unexpected character `".to_owned();
            message.push(b[i] as char);
            message.append("`");
            assert(message@ =~= "unexpected character `"@ + seq![b@[i as int] as char] + "`"@);
            diags.emit(Diagnostic::error(Span::new(file, i as u32, (i + 1) as u32), message));
            assert(views::views(out@) =~= views::views(old(out)@) + s.tokens);
            assert(diags@ =~= old(diags)@ + s.diags);
            i + 1
        },
    }
}

fn lex_step(file: FileId, b: &[u8], i: usize, out: &mut Vec<Token>, diags: &mut Diagnostics) -> (next: usize)
    requires
        i < b@.len() <= u32::MAX,
    ensures
        next == step(file, b@, i as int).next,
        i < next <= b@.len(),
        views::views(final(out)@) == views::views(old(out)@) + step(file, b@, i as int).tokens,
        final(diags)@ == old(diags)@ + step(file, b@, i as int).diags,
{
    proof {
        lemma_step_moves(file, b@, i as int);
        assert(views::views(out@) =~= views::views(out@) + Seq::<TokenModel>::empty());
        assert(diags@ =~= diags@ + Seq::<DiagnosticModel>::empty());
    }
    let c: u8 = b[i];
    if space(c) {
        i + 1
    } else if c == 47 && b.len() - i > 1 && b[i + 1] == 47 {
        scan_line(b, i)
    } else if c == 47 && b.len() - i > 1 && b[i + 1] == 42 {
        match scan_comment(b, i + 2) {
            Some(end) => end,
            None => fail_to_end(file, b, i, "unterminated block comment".to_owned(), out, diags),
        }
    } else if ident_start(c) {
        lex_ident(file, b, i, out)
    } else if digit(c) {
        lex_number(file, b, i, out, diags)
    } else if c == 34 {
        lex_string(file, b, i, out, diags)
    } else {
        lex_punctuation(file, b, i, out, diags)
    }
}

/// Lexes `source` into a `Vec<Token>`, emitting diagnostics into `diags`.
pub fn lex(file: FileId, source: &Source, diags: &mut Diagnostics) -> (r: Vec<Token>)
    requires
        source.bytes().len() <= u32::MAX,
    ensures
        views::views(r@) == lexed(file, source.bytes(), 0).0,
        final(diags)@ == old(diags)@ + lexed(file, source.bytes(), 0).1,
{
    let b = source.text.as_str().as_bytes();
    let mut out: Vec<Token> = Vec::new();
    let mut i: usize = 0;
    let ghost all = lexed(file, b@, 0);
    proof {
        assert(views::views(out@) + all.0 =~= all.0);
    }
    while i < b.len()
        invariant
            i <= b@.len() <= u32::MAX,
            all == lexed(file, b@, 0),
            views::views(out@) + lexed(file, b@, i as int).0 == all.0,
            diags@ + lexed(file, b@, i as int).1 == old(diags)@ + all.1,
        decreases b.len() - i,
    {
        let ghost rest = lexed(file, b@, i as int);
        let ghost s = step(file, b@, i as int);
        let ghost o = views::views(out@);
        let ghost d = diags@;
        i = lex_step(file, b, i, &mut out, diags);
        proof {
            let after = lexed(file, b@, i as int);
            assert((o + s.tokens) + after.0 =~= o + (s.tokens + after.0));
            assert((d + s.diags) + after.1 =~= d + (s.diags + after.1));
        }
    }
    push_token(&mut out, Token::eof(file, b.len() as u32));
    proof {
        assert(views::views(out@) =~= all.0);
        assert(diags@ =~= old(diags)@ + all.1);
    }
    out
}

proof fn lemma_lexed_last(file: FileId, b: Seq<u8>, i: int)
    requires
        0 <= i <= b.len(),
    ensures
        lexed(file, b, i).0.len() >= 1,
        lexed(file, b, i).0.last() == plain(TokenKind::Eof, source::span_at(file, b.len() as int, b.len() as int)),
    decreases b.len() - i,
{
    if i < b.len() {
        lemma_step_moves(file, b, i);
        let s = step(file, b, i);
        lemma_lexed_last(file, b, s.next);
        let rest = lexed(file, b, s.next);
        assert((s.tokens + rest.0).last() == rest.0.last());
    }
}

/// Every token stream ends in an `Eof` token at the end of the text.
pub proof fn law_eof_ends_the_stream(file: FileId, b: Seq<u8>)
    ensures
        lexed(file, b, 0).0.len() >= 1,
        lexed(file, b, 0).0.last() == plain(TokenKind::Eof, source::span_at(file, b.len() as int, b.len() as int)),
{
    lemma_lexed_last(file, b, 0);
}

/// Whether a span lies inside the first `n` bytes of a file, at or after `lo`.
pub open spec fn span_within(s: Span, file: FileId, lo: int, n: int) -> bool {
    s.file == file && lo <= s.lo <= s.hi <= n
}

proof fn lemma_spans(file: FileId, b: Seq<u8>, i: int)
    requires
        0 <= i <= b.len() <= u32::MAX,
    ensures
        forall|k: int|
            0 <= k < lexed(file, b, i).0.len() ==> span_within((#[trigger] lexed(file, b, i).0[k]).span, file, i, b.len() as int),
        forall|k: int, l: int|
            0 <= k < l < lexed(file, b, i).0.len() ==> (#[trigger] lexed(file, b, i).0[k]).span.hi <= (
            #[trigger] lexed(file, b, i).0[l]).span.lo,
    decreases b.len() - i,
{
    if i < b.len() {
        lemma_step_moves(file, b, i);
        let s = step(file, b, i);
        let rest = lexed(file, b, s.next);
        lemma_spans(file, b, s.next);
        lemma_ident_end(b, i);
        lemma_string_body(file, b, i + 1);
        if is_digit(b[i]) {
            lemma_number_end(b, i);
        }
        assert(s.tokens.len() <= 1);
        assert(s.tokens.len() == 1 ==> span_within(s.tokens[0].span, file, i, b.len() as int) && s.tokens[0].span.hi <= s.next);
        let all = s.tokens + rest.0;
        assert forall|k: int| 0 <= k < all.len() implies span_within((#[trigger] all[k]).span, file, i, b.len() as int) by {
            if k >= s.tokens.len() {
                assert(all[k] == rest.0[k - s.tokens.len()]);
            }
        }
        assert forall|k: int, l: int| 0 <= k < l < all.len() implies (#[trigger] all[k]).span.hi <= (#[trigger] all[l]).span.lo by {
            assert(all[l] == rest.0[l - s.tokens.len()]);
            if k >= s.tokens.len() {
                assert(all[k] == rest.0[k - s.tokens.len()]);
            }
        }
    }
}

/// Token spans lie inside the text, in order, and do not overlap.
pub proof fn law_spans_in_order(file: FileId, b: Seq<u8>)
    requires
        b.len() <= u32::MAX,
    ensures
        forall|k: int|
            0 <= k < lexed(file, b, 0).0.len() ==> span_within((#[trigger] lexed(file, b, 0).0[k]).span, file, 0, b.len() as int),
        forall|k: int, l: int|
            0 <= k < l < lexed(file, b, 0).0.len() ==> (#[trigger] lexed(file, b, 0).0[k]).span.hi <= (
            #[trigger] lexed(file, b, 0).0[l]).span.lo,
{
    lemma_spans(file, b, 0);
}

} // verus!
