# context_fabric

A library for text corpora in the Text-Fabric format: features stored as `.tf`
files, a corpus built from them (node types, slots, canonical order, sections,
text formats), navigation over its nodes, search templates, and the binary forms
of features and NumPy arrays. The library is written in Verus: each public
function carries a contract that the verifier proves.

## Layout

- `src/` — the verified library.
  - Feature files: `parser.rs` (reading `.tf` lines), `io.rs` (a feature file and
    its loading and writing), `explore.rs` (finding feature files), `value.rs`,
    `feature.rs`, `edge_tables.rs`, `storage.rs`.
  - The corpus: `corpus*.rs` (building, order, navigation, sections, text,
    descriptions, frequency lists, loading), `navigation.rs`, `api.rs`,
    `fabric.rs`.
  - Search: `query.rs` and `search_syntax.rs` (templates), `search.rs` (relations),
    `search_candidates.rs` (the candidates of an atom), `search_engine.rs` (the
    results of a template), `search_plan.rs` (summaries).
  - Binary data: `compiled.rs` (the block of a node feature), `npy.rs` (NumPy
    arrays).
  - Utilities: `strs.rs`, `sorting.rs`, `ranges.rs`, `paths.rs`, `utils.rs`,
    `escape.rs`, `freq.rs`, `text_formats.rs`, `format_templates.rs`, `cli.rs`,
    `downloader.rs`.
  - `laws.rs` — properties that relate several operations.
- `tests/` — tests on concrete values.
- `app/` — the file system, the environment, memory maps, JSON and YAML, and the
  error type with `std::error::Error`.
