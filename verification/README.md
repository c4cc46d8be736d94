# maknuuner

A search engine for the Maknuune lexicon of Palestinian Arabic, with its core
written in Verus and proved against its contracts.

- `src/` — the verified library:
  - `query/` — the query language: lexer, Pratt parser, matching rules,
    and laws on the grammar and on where a parse stops.
  - `lexicon/` — dataset entries, their corrections, parts of speech,
    CAPHI++ to IPA conversion, lemmas, and the builder that groups entries
    into lemmas and orders them; `Lexicon::from_entries` does the whole build.
  - `tf_idf.rs` — trigram counts per lemma and per trigram.
  - `sorting.rs` — stable ordering by a numeric key.
  - `normalized.rs`, `text.rs` — normalized and searchable strings.
  - `display.rs`, `title.rs`, `paths.rs`, `address.rs` — what pages show,
    the project layout, and where the server listens.
- `app/` — the web server, reading the TSV dataset, floating-point ranking,
  and the asset tasks (`maknuuner xtask assets|build|dist`).
- `tests/` — tests of the library.
