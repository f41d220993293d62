# quire_code_rs

Deterministic source-code knowledge-graph extraction, verified with Verus.
Rust, TypeScript/TSX and Python sources are parsed with tree-sitter and turned
into canonical graph records: file, module, function and type nodes with
stable SHA-256 identities, and deduplicated `contains`, `imports`,
`references`, `calls`, `extends` and `implements_trait` edges carrying
confidence, reason and capped evidence. Calls resolve against what the
whole batch declares, at the receiver-typed, import-scoped or name-match
tier, and emit nothing when more than one callee survives; the calls
nothing resolved are counted.

## Layout

- `src/` — the verified library. Every function carries a `requires`/`ensures`
  contract checked by Verus; the `law_*` proof functions state properties that
  span several calls.
  - `naming`, `facts`, `lang`, `imports` — identities, the fact model, the
    per-language grammar tables and relative-import resolution.
  - `syntax`, `code_parse`, `walk`, `parse`, `declared` — reading a
    tree-sitter tree into an arena and walking it into facts, imports,
    comments, bindings, calls, type relations and the return-, field- and
    enclosing-type tables; `declared` defines, over the arena, what each of
    those is, and `walk::parse_tree` is proved to yield exactly that. The
    grammar's tree is named by `syntax::grammar_nodes` (its nodes in
    preorder, as tree-sitter reads them); `syntax_tree` is proved to build
    exactly the arena those nodes describe, so `parse_file` is tied to the
    file's content through that name.
  - `typeenv`, `resolve` — the per-file type environment and conservative,
    receiver-typed call resolution.
  - `edges`, `mentions`, `records`, `extract` — provenance folding, mention
    harvesting, canonical records and the batch entry point, which builds
    the batch's corpus and each file's type environment and resolves its
    calls and type relations.
  - `measurement`, `producer`, `tree_cli` — the graph-quality measurement
    vocabulary, the producer's command line and pins, and the tree
    extractor's command line.
  - `table`, `text`, `order` — verified text maps, sets and relations, and
    character-level helpers.
- `tests/` — tests run against the compiled library.
- `app/` — the executables: the graph-quality measurement producer and the
  tree extractor (`extract_tree`), with file and process I/O, JSON output and
  schema validation.
