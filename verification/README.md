# sysy_compiler

A compiler for SysY, a small C-like teaching language, targeting RISC-V
assembly. Its logic is written in Verus and verified against contracts.

Layout of `src/`:

- `lexer.rs` — tokens, how each prints, the token a node of the lexer's
  parse tree reads as, and the token report of a file.
- `format.rs` — the pretty-printer over the formatter's parse tree, and the
  cleanup of blank lines between definitions.
- `check/` — semantic checking: the error kinds and their reports
  (`mod.rs`), the types and the stack of scopes (`scope.rs`), and the
  checker that walks a program's parse tree (`checker.rs`).
- `ir_gen.rs` — lowering of a program's parse tree (`CheckPair`) to the
  intermediate representation: expressions, short-circuit conditions,
  `if`/`while`/`break`/`continue`, definitions, functions and globals.
- `riscv_codegen/` — lowering of the intermediate representation to RISC-V:
  the instruction emitters, liveness, linear-scan and stack-only register
  allocation, and the lowering of each instruction.
- `register_strategy/`, `simple_asm.rs` — a small allocation interface and
  assembly buffer.
- `utils.rs`, `text.rs` — radix conversions (through `num-bigint`) and the
  decimal and text helpers the rest is built on.

Parse trees are plain data (`LexPair`, `ParseNode`, `CheckPair`), built by
whatever parser reads the source; each module states in its contracts what
it makes of them. Reading the source text into such trees, and the
command-line driver, are not part of this crate.
