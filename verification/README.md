# Kairo

A small programming language: lexer, parser, type checker, lowering to a
high-level IR, and a tree-walking interpreter, with a loader for programs
made of several modules. The library is written in Verus, and Verus proves
each function in `src/` against its contract; the few calls into std that
need one (character classes, `{:?}` formatting, `String::push`) are stated
in `src/text.rs`.

Layout:

- `src/text.rs`, `src/span.rs`, `src/token.rs`: strings, source spans, tokens.
- `src/lexer.rs`: source text to tokens, exactly as `spec_lex_from` states.
- `src/ast.rs`, `src/grammar.rs`, `src/parser.rs`: the syntax tree, the
  grammar as relations over token ranges, and a parser that succeeds
  exactly on the token streams the grammar derives.
- `src/table.rs`, `src/typecheck.rs`: association lists and the static
  checker, which accepts exactly the programs `program_checks` describes.
- `src/hir.rs`, `src/lower.rs`: the lowered IR and the lowering, stated by
  `lowers_block`.
- `src/value.rs`, `src/semantics.rs`, `src/interpreter.rs`: run-time values,
  the meaning of a lowered program, and an interpreter that follows it.
- `src/loader.rs`: loading and linking modules read through a `ModuleSource`.
- `app/main.rs`: the `kairo run` / `kairo check` command line, reading files.
- `tests/`: tests run against the compiled library.
