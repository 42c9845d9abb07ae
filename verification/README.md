# semantic-facts-csharp

Semantic facts for C# sources, for the Basalt plugin host: symbol
declarations with scope-qualified names, call edges (with `this.`/`base.`
receivers resolved), I/O operations classified by C# ecosystem signals,
`using` imports and `await` boundaries.

- `src/` is the verified library (Verus). `wire` frames the capability request
  and the parser requests; `records` decodes the parser answers; `scopes`,
  `declarations`, `calls` and `source` derive the facts; `text` holds the
  character-level operations they share; `facts` defines the facts and their
  plain-value view. `derive_semantic_facts` in `lib.rs` ties them together.
- `app/` is the wasm plugin shell: metadata, the exported capability handle,
  the host calls, and the hand-off of the facts to the SDK's serializer.
- `tests/` runs the library on concrete inputs.
