//! The sliced engine's script toolchain and splat-cloud asset pipeline.

pub mod asset;
pub mod ast;
pub mod bignat;
pub mod binding;
pub mod breakpoints_toml;
pub mod building;
pub mod bytecode;
pub mod codegen;
pub mod compile;
pub mod consteval;
pub mod debug;
pub mod debug_proto;
pub mod diag;
pub mod effects;
pub mod emitted;
pub mod ext;
pub mod faithful;
pub mod ffi;
pub mod float;
pub mod gc;
pub mod ir;
pub mod lex;
pub mod lexemes;
pub mod literals;
pub mod lowering;
pub mod meaning;
pub mod names;
pub mod parse;
pub mod passes;
pub mod print;
pub mod reload;
pub mod repl;
pub mod reprint;
pub mod resolve;
pub mod running;
pub mod scoping;
pub mod sessions;
pub mod source;
pub mod splat;
pub mod text;
pub mod typeck;
pub mod typing;
pub mod verify;
pub mod views;
pub mod vm;
pub mod watch_expr;
pub mod wire;

pub use ast::{Decl, Module, Type};
pub use bytecode::{Module as Bytecode, Opcode};
pub use compile::{CompileError, Compiled, Compiler, DebugInfo};
pub use debug::{Breakpoint, BreakpointId, Debugger};
pub use diag::{Diagnostic, Diagnostics, Severity};
pub use ext::{classify, SourceKind};
pub use ffi::{Binding, CallTable};
pub use gc::{GcConfig, GcHandle, GcStats, Heap};
pub use ir::IrModule;
pub use reload::Event as ReloadEvent;
pub use repl::Repl;
pub use source::{FileId, Source, SourceMap, Span};
pub use verify::{verify, VerifyError};
pub use vm::{StopReason, Value, Vm};
pub use watch_expr::{validate as validate_watch, WatchError};
