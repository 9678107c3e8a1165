# drefs

A checker for cross-references in Python docstrings (MkDocs `[text][pkg.mod.Class]`,
Sphinx `` :class:`pkg.mod.Class` ``, and `[Symbol]` intra-doc links), written in Verus.

## Layout

- `src/` — the library. Its functions are verified, except the small wrappers marked
  `#[verifier::external_body]` that call `regex`, `flate2`, `tree_sitter` and a few
  functions of `std`: their contracts are trusted, not proved, and each says in its doc
  comment what it claims of the outside call.
  Modules:
  - `text`, `util` — character-level helpers, edit distance, relative imports
  - `patterns`, `extract` — the reference syntaxes and what is kept of their matches
  - `fast_scan` — line scanner for files without docstrings
  - `python_tree` — the tree that `tree_sitter` builds for a source, named as a plain
    value (`python_syntax`), and the trusted calls that read it node by node
  - `parse` — the breadth-first copy of that tree (proved equal to it) and what a module
    defines, imports and documents
  - `graph` — the symbol graph: resolution through re-exports, imports and base classes,
    suggestions, wildcard expansion
  - `inventory` — Sphinx `objects.inv` files
  - `config`, `discover`, `diagnostic` — configuration decisions, module paths, the
    diagnostics and their order
  - `lsp` — what the editor server decides (flagged references, go to definition)
- `app/` — the command line program and the editor server: file system, network,
  `pyproject.toml`, protocol.
- `tests/` — tests of the library.
