# weftc

The kernel of the Weft toolchain, verified with Verus: lexer, parser,
typechecker passes, program index (`skeleton` / `graph` / `ctx`),
definition-level splicing, and structured diagnostics.

## Layout

- `src/` — the verified library.
  - `text`, `lines`, `sort`, `names` — strings, line/column positions,
    code-point ordering with a stable sort, sorted name sets.
  - `diag` — diagnostics and their JSON / human renderings.
  - `lexer` — source text to tokens; the result is `lex_spec` of the text.
  - `parser`, `parse_ops`, `parse_forms`, `parse_items` — recursive descent;
    every parse function's result (tree or error, and the cursor after it)
    is the grammar in `exprs` and `items` applied to the token stream.
  - `types`, `check`, `convert`, `exhaust` — the typechecker's types and
    substitution store, declaration collection, reading written types
    (`conv_rel` says what each denotes), inference, and match
    exhaustiveness; `type_display` relates the display of converted types
    to their written text.
  - `index`, `splice`, `report` — compiler-derived views, merging of
    definition patches, and what the command line prints.
  - `eval` — the integer-only parts of the test runner, its integer
    arithmetic, ranges and list positions among them.
- `tests/` — tests on concrete programs and values.
- `app/` — the command line: file I/O, the evaluator (it computes with
  floating point), and argument handling.
