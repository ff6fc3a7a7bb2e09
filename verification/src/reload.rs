//! Hot reload: what a change of a source file does to a running machine.
//!
//! The host watches files and reads them; this module says which changes count,
//! recompiles, and swaps the machine's module. Running frames keep their function
//! id and see the new code on their next call.

use crate::bytecode::ModuleModel;
use crate::compile;
use crate::compile::Compiled;
use crate::diag;
use crate::diag::{DiagnosticModel, Diagnostics, Severity};
use crate::ext;
use crate::ext::{classify, SourceKind};
use crate::source::{FileId, Source};
use crate::views;
use crate::vm::Vm;
use vstd::prelude::*;
use vstd::string::*;
use vstd::utf8::encode_utf8;

verus! {

/// What happened to a watched file.
#[derive(Clone, Copy, Debug, PartialEq, Eq, Structural)]
pub enum WatchKind {
    /// It appeared.
    Created,
    /// Its contents changed.
    Modified,
    /// It is gone.
    Removed,
}

/// One reload notification.
#[derive(Clone, Debug, PartialEq)]
pub enum Event {
    /// `path` was modified and recompiled; the machine runs the new bytecode.
    ModuleReloaded {
        /// Source path.
        path: String,
    },
    /// `path` was modified but failed to recompile; the machine is unchanged.
    ModuleFailed {
        /// Source path.
        path: String,
        /// First compile-error message.
        message: String,
    },
}

/// Model of a notification.
pub enum EventModel {
    ModuleReloaded(Seq<char>),
    ModuleFailed(Seq<char>, Seq<char>),
}

impl View for Event {
    type V = EventModel;

    open spec fn view(&self) -> EventModel {
        match *self {
            Event::ModuleReloaded { path } => EventModel::ModuleReloaded(path@),
            Event::ModuleFailed { path, message } => EventModel::ModuleFailed(path@, message@),
        }
    }
}

/// Whether a change calls for a reload: a script source that appeared or changed.
pub open spec fn relevant(kind: WatchKind, path: Seq<char>) -> bool {
    &&& kind == WatchKind::Created || kind == WatchKind::Modified
    &&& {
        ||| ext::has_extension(path, ext::extension_of(SourceKind::SliCanonical))
        ||| ext::has_extension(path, ext::extension_of(SourceKind::SliBpAlias))
    }
}

/// Whether a change of `path` calls for a reload.
pub fn is_relevant(kind: WatchKind, path: &str) -> (r: bool)
    ensures
        r == relevant(kind, path@),
{
    match kind {
        WatchKind::Removed => false,
        WatchKind::Created | WatchKind::Modified => match classify(path) {
            Some(SourceKind::SliCanonical) => true,
            Some(SourceKind::SliBpAlias) => true,
            None => false,
        },
    }
}

/// The message of the first error from the `i`th diagnostic on.
pub open spec fn first_error(ds: Seq<DiagnosticModel>, i: int) -> Seq<char>
    decreases ds.len() - i,
{
    if i < 0 || i >= ds.len() {
        "compile errors"@
    } else if ds[i].severity == Severity::Error {
        ds[i].message
    } else {
        first_error(ds, i + 1)
    }
}

/// What was read of a file, or why it could not be read.
pub open spec fn contents(text: Result<String, String>) -> Result<Seq<char>, Seq<char>> {
    match text {
        Ok(t) => Ok(t@),
        Err(e) => Err(e@),
    }
}

/// The notification about a file, and the module that replaces the running one,
/// if any does.
pub open spec fn reloaded(path: Seq<char>, text: Result<Seq<char>, Seq<char>>) -> (EventModel, Option<ModuleModel>) {
    match text {
        Err(why) => (EventModel::ModuleFailed(path, "read failed: "@ + why), None),
        Ok(t) => {
            let a = compile::built(FileId(0), encode_utf8(t));
            if diag::holds_error(a.diagnostics) {
                (EventModel::ModuleFailed(path, first_error(a.diagnostics, 0)), None)
            } else {
                (EventModel::ModuleReloaded(path), Some(a.bytecode))
            }
        },
    }
}

/// Whether a text is small enough to be compiled.
pub open spec fn in_range(text: Result<String, String>) -> bool {
    text matches Ok(t) ==> encode_utf8(t@).len() <= u32::MAX
}

fn error_message(diags: &Diagnostics) -> (r: String)
    ensures
        r@ == first_error(diags@, 0),
{
    let all = diags.all();
    let mut i: usize = 0;
    assert(all@.len() == diags@.len());
    while i < all.len()
        invariant
            i <= all@.len() == diags@.len(),
            views::views(all@) == diags@,
            first_error(diags@, i as int) == first_error(diags@, 0),
        decreases all.len() - i,
    {
        assert(diags@[i as int] == all@[i as int]@);
        if all[i].severity == Severity::Error {
            return all[i].message.clone();
        }
        i += 1;
    }
    "compile errors".to_owned()
}

fn compile_text(path: &str, text: String) -> (r: Compiled)
    requires
        encode_utf8(text@).len() <= u32::MAX,
    ensures
        r@ == compile::built(FileId(0), encode_utf8(text@)),
{
    let src = Source::new(path.to_owned(), text);
    compile::build(FileId(0), &src)
}

fn read_failed(why: &String) -> (r: String)
    ensures
        r@ == "read failed: "@ + why@,
{
    let mut out = "read failed: ".to_owned();
    out.append(why.as_str());
    out
}

/// Recompiles a changed source and swaps it into `vm`. Anything but the module
/// stays as it is; so does the module, if the source has an error.
pub fn apply<F>(path: &str, text: Result<String, String>, vm: &mut Vm<F>) -> (r: Event)
    requires
        in_range(text),
    ensures
        r@ == reloaded(path@, contents(text)).0,
        final(vm).module@ == (match reloaded(path@, contents(text)).1 {
            Some(m) => m,
            None => old(vm).module@,
        }),
        final(vm).heap == old(vm).heap,
        final(vm).ffi == old(vm).ffi,
        final(vm).stack == old(vm).stack,
{
    match text {
        Err(why) => Event::ModuleFailed { path: path.to_owned(), message: read_failed(&why) },
        Ok(t) => {
            let c = compile_text(path, t);
            if c.diagnostics.has_errors() {
                Event::ModuleFailed { path: path.to_owned(), message: error_message(&c.diagnostics) }
            } else {
                vm.module = c.bytecode;
                Event::ModuleReloaded { path: path.to_owned() }
            }
        },
    }
}

/// Compiles what was read of `path` into a fresh machine.
pub fn compile_to_vm<F>(path: &str, text: Result<String, String>) -> (r: Result<Vm<F>, String>)
    requires
        in_range(text),
    ensures
        match (r, contents(text)) {
            (Err(e), Err(why)) => e@ == "read failed: "@ + why,
            (Err(e), Ok(t)) => e@ == "compile errors"@ && diag::holds_error(
                compile::built(FileId(0), encode_utf8(t)).diagnostics,
            ),
            (Ok(vm), Ok(t)) => {
                let a = compile::built(FileId(0), encode_utf8(t));
                &&& !diag::holds_error(a.diagnostics)
                &&& vm.module@ == a.bytecode
                &&& vm.heap@ == crate::gc::heap::empty_heap(crate::gc::heap::default_knobs())
                &&& vm.heap@.wf()
                &&& vm.ffi@.len() == 0
                &&& vm.stack@.len() == 0
            },
            _ => false,
        },
{
    match text {
        Err(why) => Err(read_failed(&why)),
        Ok(t) => {
            let c = compile_text(path, t);
            if c.diagnostics.has_errors() {
                Err("compile errors".to_owned())
            } else {
                Ok(Vm::new(c.bytecode))
            }
        },
    }
}

} // verus!
