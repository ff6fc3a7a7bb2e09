//! Source-file extension routing.
//!
//! The sli language is the canonical name; `.sli` is its canonical file
//! extension. `.bp` is kept as a legacy alias. Both forms are accepted on
//! input; the canonical form is preferred on output.

use crate::text::chars_of;
use vstd::prelude::*;

verus! {

/// The on-disk role of a script file.
#[derive(Clone, Copy, Debug, PartialEq, Eq, Structural)]
pub enum SourceKind {
    /// Canonical `.sli` source.
    SliCanonical,
    /// Legacy `.bp` alias kept for one major version.
    SliBpAlias,
}

/// The extension of a kind of source.
pub open spec fn extension_of(kind: SourceKind) -> Seq<char> {
    match kind {
        SourceKind::SliCanonical => "sli"@,
        SourceKind::SliBpAlias => "bp"@,
    }
}

impl SourceKind {
    /// The file extension this kind matches, without the leading dot.
    pub fn extension(self) -> (r: &'static str)
        ensures
            r@ == extension_of(self),
    {
        match self {
            SourceKind::SliCanonical => "sli",
            SourceKind::SliBpAlias => "bp",
        }
    }
}

/// The ASCII lower case of a character.
pub open spec fn lower_char(c: char) -> char {
    if 'A' <= c <= 'Z' {
        (c as u32 + 32) as char
    } else {
        c
    }
}

/// The ASCII lower case of a text.
pub open spec fn lower(s: Seq<char>) -> Seq<char> {
    Seq::new(s.len(), |i: int| lower_char(s[i]))
}

/// Whether the text behind the last dot of a path is `ext`, whatever its case.
pub open spec fn has_extension(path: Seq<char>, ext: Seq<char>) -> bool {
    exists|dot: int|
        0 <= dot < path.len() && path[dot] == '.' && !path.skip(dot + 1).contains('.') && lower(
            #[trigger] path.skip(dot + 1),
        ) == ext
}

fn lower_exec(c: char) -> (r: char)
    ensures
        r == lower_char(c),
{
    if 'A' <= c && c <= 'Z' {
        ((c as u8) + 32) as char
    } else {
        c
    }
}

/// Classifies `path` by its file extension. Case-insensitive on the
/// extension; the rest of the path is opaque.
pub fn classify(path: &str) -> (r: Option<SourceKind>)
    ensures
        r == Some(SourceKind::SliCanonical) <==> has_extension(path@, extension_of(SourceKind::SliCanonical)),
        r == Some(SourceKind::SliBpAlias) <==> has_extension(path@, extension_of(SourceKind::SliBpAlias)),
{
    let chars = chars_of(path);
    let mut dot: usize = chars.len();
    while dot > 0 && chars[dot - 1] != '.'
        invariant
            dot <= chars@.len(),
            forall|j: int| dot <= j < chars@.len() ==> chars@[j] != '.',
        ensures
            dot <= chars@.len(),
            forall|j: int| dot <= j < chars@.len() ==> chars@[j] != '.',
            dot == 0 || chars@[dot as int - 1] == '.',
        decreases dot,
    {
        dot -= 1;
    }
    if dot == 0 {
        return None;
    }
    let mut ext = String::new();
    let mut i: usize = dot;
    let ghost tail = path@.skip(dot as int);
    while i < chars.len()
        invariant
            dot <= i <= chars@.len(),
            chars@ == path@,
            tail == path@.skip(dot as int),
            ext@ == lower(tail).take(i - dot),
        decreases chars.len() - i,
    {
        ext.push(lower_exec(chars[i]));
        i += 1;
        assert(ext@ =~= lower(tail).take(i - dot));
    }
    assert(ext@ =~= lower(tail));
    proof {
        reveal_strlit("sli");
        reveal_strlit("bp");
        assert(path@.skip(dot - 1 + 1) =~= tail);
        assert(!tail.contains('.'));
        assert forall|d: int|
            0 <= d < path@.len() && path@[d] == '.' && !path@.skip(d + 1).contains('.') implies #[trigger] path@.skip(d + 1) == tail by {
            if d < dot - 1 {
                assert(path@.skip(d + 1)[dot - 1 - (d + 1)] == '.');
            }
            assert(d == dot - 1);
        }
    }
    if ext.as_str().eq("sli") {
        Some(SourceKind::SliCanonical)
    } else if ext.as_str().eq("bp") {
        Some(SourceKind::SliBpAlias)
    } else {
        None
    }
}

} // verus!
