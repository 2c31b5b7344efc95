# weggli_search

The decisions behind a semantic search over C and C++ sources, verified with
Verus.

- `src/syntax.rs`, `src/pattern.rs`: which query patterns are accepted, and how
  missing braces are added.
- `src/constraints.rs`: `var=regex` constraints on what a variable captures.
- `src/files.rs`: which files are searched.
- `src/report.rs`: which matches of a query are reported.
- `src/combine.rs`: how the matches of several queries are combined.
- `src/text.rs`, `src/table.rs`, `src/order.rs`: texts, name tables, and
  sequences with elements left out.
- `src/engine.rs`: what is taken on trust of `weggli`, `tree-sitter` and `regex`.
- `app/`: the command line program.
