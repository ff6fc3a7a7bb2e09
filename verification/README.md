# sliced-engine

The scripting language *sli* and the splat-cloud formats of a game engine, as a verified
library: every function states what it computes, and Verus proves that it does.

- `lex`, `parse`, `print`, `resolve`, `typeck`, `consteval`: the front end. `reprint` proves
  that what is printed reads back.
- `ir`, `passes`: the intermediate representation, its three passes, and what they keep.
- `bytecode`, `codegen`, `emitted`, `verify`: the code format, the code generator, the
  verifier, and the proof that one accepts what the other emits.
- `vm`, `gc`, `ffi`: the machine, its generational heap, and calls into the host.
- `debug`, `debug_proto`, `breakpoints_toml`, `watch_expr`, `repl`, `reload`: the tools
  around it.
- `splat`: clouds, their file format, glTF attributes, and the depth sort.
- `float`, `bignat`, `text`, `wire`, `views`: arithmetic and text underneath. Floats are
  their bit patterns.

`app/` holds what touches files, the clock of a file watcher, host callbacks and hardware
floats. `tests/` runs the library.
