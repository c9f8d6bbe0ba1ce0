# forth

A verified interpreter for a subset of Forth-79: integer arithmetic on a
stack of `i16`, stack words (`DUP DROP SWAP OVER ROT`), comparisons and
logic, output (`. EMIT CR ." ..."`), `IF ... ELSE ... THEN`, and user
definitions (`: name ... ;`), which may span several lines.

Layout of `src/`:

- `forth_79.rs` — the interpreter (`Forth79`), with the meaning of a line
  (`interpret_spec`) that `interpret_line` is proved against, and
  `can_interpret` / `try_interpret_line`, which decide whether a line can be
  run to its end.
- `tokens.rs` — splitting a line into tokens.
- `syntax.rs` — what tokens parse to (word expansion, nested `IF`s).
- `operation.rs` — the operations and what each does to the stack and the
  output.
- `dictionary.rs` — the defined words, and the computation that finds which
  words parse.
- `halting.rs` — why parsing ends, or never does.
- `stack.rs`, `text.rs`, `output_error.rs` — the stack, character helpers
  (decimal rendering and parsing of `i16`), and the error messages.
- `laws.rs` — properties spanning several operations or lines.

`app/` writes a line's output to any `std::io::Write` sink.
