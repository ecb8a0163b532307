# sea_lsp

A language server for the Sea language, with its logic verified in Verus.

`src/` is the verified library:

- `text` — `str` operations over `Seq<char>`: lines, trimming, splitting on
  white space and commas, prefixes, `\r\n` normalisation.
- `analysis` — reading a document around the cursor: the identifier under or
  before the cursor, the enclosing call and argument index, the enclosing
  class, local variables and method parameters.
- `bindings` — name-to-type bindings with distinct names.
- `symbol_table` — classes by name and class names by file, with the laws
  relating adding a class and dropping a file.
- `syntax`, `sea_parser` — a parsed Sea file as plain values, copied from a
  tree-sitter tree.
- `indexer` — reading classes, fields and methods off the tree, and indexing
  files step by step (imports are handed back to the caller, who reads them).
- `features` — signature help, hover, go-to-definition and completion.
- `report` — a text listing of the table.
- `paths`, `workspace` — paths through `std::path`, the workspace-root search
  and the choice of source files.

`app/` holds the LSP server itself (tower-lsp, tokio), file-system access,
and the Sea grammar.
