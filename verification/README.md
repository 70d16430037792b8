# reil

A small compiler front end, verified with Verus: a tokenizer, a recursive
descent parser and a (so far empty) typer, with the text forms in which a run
writes its results.

- `src/scan.rs` — the lexical rules, each a function from a position in the
  source to the length it takes, proved against its statement.
- `src/compiler/tokenizer.rs` — token kinds and names, binding strengths, the
  ordered rule list and the state machine that turns rule matches into
  tokens; laws on the shape of every token list.
- `src/compiler/parser.rs` — the grammar as spec functions over token lists,
  and the parser proved to compute it; the indexing of points in graphs.
- `src/compiler/parse_laws.rs` — laws of the grammar: stops before a program
  only move positions, newlines and commas after a program that parses keep
  its tree, the shape of every result and message, and the token lists on
  which a parse never stops the program.
- `src/compiler/typer.rs`, `src/report.rs`, `src/driver.rs` — the typer, the
  token listing and the `{:#?}` form of trees, and one whole run.
- `src/tokenizer.rs` — a tokenizer into broad categories.
- `app/main.rs` — the command line: reads the source, writes
  `<target>.tokens`, `<target>.ast` and `<target>.typed`.
