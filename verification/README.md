# semble

A dependency graph of source files, with comment stripping, written in Verus.

- `src/filter.rs` — `strip_comments`: drops line and block comments (keeping
  doc comments), collapses blank runs and trims.
- `src/graph.rs` — `DependencyGraph`: files with their top-level symbols and
  raw imports, resolved dependencies, the reverse index, impact analysis,
  orphan files and unused symbols.
- `src/extract.rs` — symbols and imports read from a syntax tree, per language.
- `src/syntax.rs` — the syntax tree as plain values (pre-order nodes with kind,
  field, byte range, row and children) and UTF-8 slicing of node text.
- `src/parse.rs` — parsing with tree-sitter, whose trees are modelled as the
  pre-order list of their nodes, and collecting a tree into a `SyntaxTree`.
- `src/resolve.rs` — resolving a raw import to a file (Rust modules and
  `crate::` paths, `@/` aliases, relative paths, dotted modules, plain names).
- `src/paths.rs` — `std::path::Path` operations on text.
- `src/text.rs` — character-level text operations with their specifications.
- `src/order.rs` — a stable sort by (text, number) keys.
- `src/laws.rs` — properties that span several operations.
- `app/main.rs` — the command line (`deps`, `impact`) over a directory.
