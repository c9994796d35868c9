# glorp_syntax

Syntax trees for editors: documents are parsed layer by layer with tree-sitter, edited, and parsed
again. The code is verified with Verus; each function states what it does in its contract.

- `src/` is the verified library.
  - Engine: `session` (documents that are written), `snapshot` (documents that are read), `engine`,
    `layers`, `lookup`, and what they are made of: `edits`, `spans`, `mapping`, `planning`,
    `candidates`, `injection`, `injections_query`, `locals`, `text`.
  - Languages: `registry`, `loader`, `config`, `bundle`, `query_files`, `inherits`, `grammar_files`,
    `grammar_build`, `runtime_paths`.
  - Editors: `editor_syntax`, `partial_syntax`, `manager`, `highlight_cache`, `sealed_source`.
  - Structure: `queries`.
  - `rope`, `regexes`, `treesitter` and `layers` hold the calls into other crates. Their contracts
    are believed, not proved; all others are proved from them.
- `app/` reads directories and the environment, runs commands and loads shared libraries.
- `tests/` runs the library.

```rust
let grammar = Grammar::try_from(tree_sitter_rust::LANGUAGE)?;
let loader = SingleLanguageLoader::from_queries(Language::new(0), grammar, "", "", "")?;
let text = StringText::new("fn answer() -> i32 { 42 }\n");
let session = DocumentSession::new(loader.language(), &text, &loader, EngineConfig::default())?;
let node = session.snapshot().named_node_at(3, 9);
```
