# rcc

A small compiler from a subset of C to x86-64 assembly (AT&T syntax), with
its stages verified in Verus.

- `src/lexer.rs`: characters to tokens; `lex_from` states the tokens of a
  source.
- `src/ast.rs`: tokens to a syntax tree; `p_parse_from` and the `p_*` rules
  state the grammar.
- `src/semantic.rs`: symbol tables and the errors of a tree (`sem_run`).
- `src/codegen.rs`, `src/arch/`: the assembly of a tree (`g`, `g_items`),
  with the text of each instruction in `src/arch/x64.rs`.
- `src/symbol.rs`, `src/map.rs`, `src/string.rs`, `src/token.rs`,
  `src/text.rs`: tables, tokens and text helpers.
- `src/lib.rs`: the whole translation, `try_compile` and `compile`, stated
  by `compiled`.
- `app/main.rs`: the command line (`rcc --input` reads a line from standard
  input, `rcc FILE` reads a file) and the check for macOS.
