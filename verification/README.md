# velari

The front end of the VelaRi programming language as a verified library:
every function below carries a contract that Verus proves.

- `lexer`: tokens with line, column and byte spans, and every lexical error,
  exactly as the specification `lex_spec` describes them.
- `grammar`: the syntax as spec functions: for a token sequence and a
  position, what each construct parses to, where it ends and which errors
  it reports, including recovery after a failed statement.
- `parser`: a recoverable recursive-descent parser with conventional
  precedence; `parse_program` returns exactly what `parse_spec` gives.
- `semantic`: scopes, type inference for collections, function signatures
  and return checks; `analyze` reports exactly the errors `analyze_spec`
  describes. A collection whose elements have conflicting types gets the
  element type `Unknown`, whatever their number and order.
- `ir`: lowering to a typed instruction list (`lower_spec`), and `listing`
  renders it as text; a negation lowers to `0 - x`. `numbering` proves that
  each lowered function defines every temporary before it is read and jumps
  only to labels it places, and that no temporary or label is defined twice
  in the whole program.
- `diagnostics`: rendering of errors with the offending source line.
- `driver`: the whole check of one source file.
- `format`: the source formatter; formatting is proved idempotent.
- `manifest`: validation of `vela.toml`; a `[desktop]` section marks a
  desktop project wherever it stands.
- `interpreter`: the run-time environment (scopes and declared functions).

`app/` holds the `velari` command: file and process handling, and the
evaluation of programs, which computes with floating-point numbers.
