# Buyan

Buyan is a small, statically typed, stack-oriented language inspired by
Forth. This crate is its compiler, written in Verus: every stage is verified
against a contract, though some contracts say less than the stage does
(the lowering of bodies with calls and lambdas, which words fail type
checking, and which module a resolution error comes from).

- `src/stages/parse`: lexer, recursive-descent parser (what it accepts,
  written back as tokens, is its input), target filtering, the standard
  library sources and the listing of the syntax tree.
- `src/stages/semantic`: the symbol table, name collection (no struct
  contains itself), resolution to the HIR and type checking of stack effects.
- `src/lints`: warnings only (empty words, unused imports).
- `src/stages/lower`: type layout, instantiation of generic words, and
  lowering to basic blocks (every branch lands in its word, every call on a
  word of the program).
- `src/stages/interpreter`: a step-by-step interpreter of the IR.
- `src/stages/codegen`: Z80 assembly for CP/M (every label the code refers
  to is defined).
- `app/`: the `buyan` command: reads files, prints diagnostics, runs the
  interpreter or prints the assembly.

Run a program with the interpreter, or print its Z80 CP/M assembly:

```sh
buyan --path hello.by
buyan --path hello.by --target z80-unknown-cpm > hello.asm
```
