//! The compiler driver: source in, bytecode and side tables out.

use crate::ast;
use crate::ast::{Decl, DeclModel, ModuleModel};
use crate::bytecode;
use crate::codegen;
use crate::consteval;
use crate::consteval::ConstEnv;
use crate::diag;
use crate::diag::{DiagnosticModel, Diagnostics};
use crate::ir;
use crate::ir::IrModule;
use crate::lex;
use crate::parse;
use crate::resolve;
use crate::source::{FileId, Source, Span};
use crate::typeck;
use crate::typeck::TypeTable;
use crate::views;
use vstd::prelude::*;

verus! {

/// Side table for the debugger: one entry per function declaration.
#[derive(Clone, Debug, PartialEq)]
pub struct DebugInfo {
    /// `(function name, declaration span)` pairs.
    pub functions: Vec<(String, Span)>,
}

impl View for DebugInfo {
    type V = Seq<(Seq<char>, Span)>;

    open spec fn view(&self) -> Seq<(Seq<char>, Span)> {
        Seq::new(self.functions@.len(), |i: int| (self.functions@[i].0@, self.functions@[i].1))
    }
}

impl Default for DebugInfo {
    /// No functions.
    fn default() -> (r: DebugInfo)
        ensures
            r@ == Seq::<(Seq<char>, Span)>::empty(),
    {
        let d = DebugInfo { functions: Vec::new() };
        assert(d@ =~= Seq::empty());
        d
    }
}

/// Hard compilation failure, as opposed to accumulated [`Diagnostics`]: the compiler could
/// not produce anything. Errors in a part of the source ride on the diagnostics of what was
/// compiled.
#[derive(Clone, Copy, Debug, PartialEq, Eq, Structural)]
pub enum CompileError {
    /// The source file ended before the parser saw a complete program.
    UnexpectedEof,
    /// One or more of the steps reported errors. The caller should surface the
    /// diagnostics for details.
    HardErrors,
}

impl CompileError {
    /// The text of the error.
    pub open spec fn text(self) -> Seq<char> {
        match self {
            CompileError::UnexpectedEof => "unexpected end of source"@,
            CompileError::HardErrors => "compilation failed; see diagnostics"@,
        }
    }

    /// The message that describes the error.
    pub fn message(&self) -> (r: String)
        ensures
            r@ == self.text(),
    {
        match *self {
            CompileError::UnexpectedEof => "unexpected end of source".to_owned(),
            CompileError::HardErrors => "compilation failed; see diagnostics".to_owned(),
        }
    }
}

/// Result of [`Compiler::compile`].
#[derive(Debug)]
pub struct Compiled {
    /// Optimised IR module.
    pub ir: IrModule,
    /// Executable bytecode module, input to the machine.
    pub bytecode: bytecode::Module,
    /// Symbol-keyed type information from the checker.
    pub types: TypeTable,
    /// Evaluated `const` bindings.
    pub consts: ConstEnv,
    /// Side table for debugger attachment.
    pub debug: DebugInfo,
    /// Accumulated diagnostics; empty on a clean build.
    pub diagnostics: Diagnostics,
}

/// Model of what a compilation yields.
pub struct Artefact {
    pub ir: Seq<ir::FnModel>,
    pub bytecode: bytecode::ModuleModel,
    pub types: typeck::Tables,
    pub consts: Map<Seq<char>, ast::LitModel>,
    pub debug: Seq<(Seq<char>, Span)>,
    pub diagnostics: Seq<DiagnosticModel>,
}

impl View for Compiled {
    type V = Artefact;

    open spec fn view(&self) -> Artefact {
        Artefact {
            ir: self.ir@,
            bytecode: self.bytecode@,
            types: self.types@,
            consts: self.consts.bindings@,
            debug: self.debug@,
            diagnostics: self.diagnostics@,
        }
    }
}

/// The module that a text parses to, and the complaints about its form.
pub open spec fn parsed_source(file: FileId, b: Seq<u8>) -> (ModuleModel, Seq<DiagnosticModel>) {
    let (tokens, early) = lex::lexed(file, b, 0);
    let (module, late) = parse::parsed(tokens);
    (module, early + late)
}

/// The functions among the first `k` declarations.
pub open spec fn debug_of(ds: Seq<DeclModel>, k: int) -> Seq<(Seq<char>, Span)>
    decreases k,
{
    if k <= 0 {
        Seq::empty()
    } else {
        match ds[k - 1] {
            DeclModel::Fn(f) => debug_of(ds, k - 1).push((f.name, f.span)),
            _ => debug_of(ds, k - 1),
        }
    }
}

/// What a text compiles to: it is parsed, its names are resolved, it is
/// typechecked, its constants are evaluated, and the typed module is lowered,
/// once to optimised IR and once to bytecode. Complaints come in that order.
pub open spec fn built(file: FileId, b: Seq<u8>) -> Artefact {
    let (m, d0) = parsed_source(file, b);
    let n = m.decls.len() as int;
    let d1 = resolve::in_decls(m.decls, n, resolve::globals_of(m.decls, n), d0);
    let (typed, d2) = typeck::checked(m, d1);
    let k = typed.decls.len() as int;
    let (consts, d3) = consteval::consts_of(typed.decls, k, d2);
    let low = ir::lowered(typed.decls, k);
    Artefact {
        ir: Seq::new(low.len(), |i: int| ir::settled(low[i], u128::MAX as nat)),
        bytecode: codegen::compiled(typed.decls, b),
        types: typeck::tables_of(m.decls, n),
        consts,
        debug: debug_of(typed.decls, k),
        diagnostics: d3,
    }
}

/// Why nothing of a text compiles, where nothing does: no declaration can be read, and there
/// are errors. The text ended too early where the last complaint stands at its end.
pub open spec fn hopeless(file: FileId, b: Seq<u8>) -> Option<CompileError> {
    let (m, d) = parsed_source(file, b);
    if m.decls.len() > 0 || !diag::holds_error(d) {
        None
    } else if d.last().span.lo == b.len() {
        Some(CompileError::UnexpectedEof)
    } else {
        Some(CompileError::HardErrors)
    }
}

/// Lexes and parses a source.
pub(crate) fn parse_source(file: FileId, source: &Source, diags: &mut Diagnostics) -> (r: ast::Module)
    requires
        source.wf(),
    ensures
        r@ == parsed_source(file, source.bytes()).0,
        final(diags)@ == old(diags)@ + parsed_source(file, source.bytes()).1,
{
    let tokens = lex::lex(file, source, diags);
    proof {
        lex::law_eof_ends_the_stream(file, source.bytes());
    }
    let m = parse::parse(tokens.as_slice(), diags);
    assert(diags@ =~= old(diags)@ + parsed_source(file, source.bytes()).1);
    m
}

fn debug_info(module: &ast::Module) -> (r: DebugInfo)
    ensures
        r@ == debug_of(module@.decls, module@.decls.len() as int),
{
    let ghost m = module@.decls;
    let mut d = DebugInfo { functions: Vec::new() };
    let mut i: usize = 0;
    assert(d@ =~= Seq::empty());
    while i < module.decls.len()
        invariant
            i <= module.decls@.len(),
            m == module@.decls,
            d@ == debug_of(m, i as int),
        decreases module.decls.len() - i,
    {
        assert(m[i as int] == module.decls@[i as int]@);
        let ghost was = d@;
        match &module.decls[i] {
            Decl::Fn(f) => {
                d.functions.push((f.name.clone(), f.span));
                assert(d@ =~= was.push((f.name@, f.span)));
            },
            _ => {},
        }
        i += 1;
    }
    d
}

/// The compiler driver, one-shot per source.
#[derive(Clone, Copy, Debug)]
pub struct Compiler;

impl Default for Compiler {
    /// A fresh compiler.
    fn default() -> (r: Compiler)
        ensures
            r == Compiler,
    {
        Compiler
    }
}

impl Compiler {
    /// Constructs a fresh compiler.
    pub fn new() -> (r: Compiler)
        ensures
            r == Compiler,
    {
        Compiler
    }

    /// Compiles `source` from `file` end to end. Errors in the source land in
    /// [`Compiled::diagnostics`]; what did parse is lowered all the same. If the source is so
    /// malformed that nothing compiles, the error comes back with the diagnostics.
    pub fn compile(&self, file: FileId, source: &Source) -> (r: Result<Compiled, (CompileError, Diagnostics)>)
        requires
            source.wf(),
        ensures
            match hopeless(file, source.bytes()) {
                None => r matches Ok(c) && c@ == built(file, source.bytes()),
                Some(e) => r matches Err((k, d)) && k == e && d@ == parsed_source(file, source.bytes()).1,
            },
    {
        let mut diags = Diagnostics::new();
        let module = parse_source(file, source, &mut diags);
        assert(diags@ =~= parsed_source(file, source.bytes()).1);
        if module.decls.len() == 0 && diags.has_errors() {
            assert(module@.decls.len() == 0);
            let all = diags.all();
            let n: usize = all.len();
            assert(views::views(all@) == diags@);
            assert(views::views(all@).len() == n);
            assert(n > 0);
            assert(diags@[n - 1] == all@[n - 1]@);
            let at: u32 = all[n - 1].span.lo;
            let kind = if at as usize == source.text.as_str().as_bytes().len() {
                CompileError::UnexpectedEof
            } else {
                CompileError::HardErrors
            };
            return Err((kind, diags));
        }
        Ok(lowered(module, source, diags, Ghost(file)))
    }
}

/// What a parsed source compiles to.
fn lowered(module: ast::Module, source: &Source, diags: Diagnostics, file: Ghost<FileId>) -> (r: Compiled)
    requires
        source.wf(),
        module@ == parsed_source(file@, source.bytes()).0,
        diags@ == parsed_source(file@, source.bytes()).1,
    ensures
        r@ == built(file@, source.bytes()),
{
    let mut module = module;
    let mut diags = diags;
    let _names = resolve::resolve(&module, &mut diags);
    let types = typeck::check(&mut module, &mut diags);
    let consts = consteval::eval_consts(&module, &mut diags);
    let debug = debug_info(&module);
    let mut ir = ir::lower(&module);
    ir::optimise(&mut ir);
    let bytecode = codegen::lower(&module, source);
    Compiled { ir, bytecode, types, consts, debug, diagnostics: diags }
}

/// What a source compiles to, whatever is left of it.
pub(crate) fn build(file: FileId, source: &Source) -> (r: Compiled)
    requires
        source.wf(),
    ensures
        r@ == built(file, source.bytes()),
{
    let mut diags = Diagnostics::new();
    let module = parse_source(file, source, &mut diags);
    assert(diags@ =~= parsed_source(file, source.bytes()).1);
    lowered(module, source, diags, Ghost(file))
}

} // verus!
