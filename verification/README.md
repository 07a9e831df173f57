# pdxl

Semantic analysis core for Paradox scripting (PDXScript), verified with Verus.

## Layout

- `src/` — the verified library.
  - `node` — the flat node-pool syntax tree and its well-formedness check.
  - `kind`, `schema` — symbol kinds and the schema compiled from kind rows.
  - `model`, `table` — per-file facts and the first-writer-wins symbol table.
  - `extract` — definition, reference and call extraction from a tree.
  - `resolve` — merging files' facts and reporting unresolved references.
  - `context` — the structural clause context of a position.
  - `doc` — smart-doc (`#!`) references and anchors.
  - `order`, `text` — byte-string ordering and primitives.
  - `fingerprint`, `entry` — cache hashing, entry names and the versioned
    on-disk entry.
  - `ck3` — the Crusader Kings III conventions as data.
- `app/` — the serialisation glue (postcard over serde mirrors of the entry)
  and the path-typed entry-name helper.
- `tests/` — scenario tests run against the compiled library.
