# silhouette

An incremental build tool for C projects, as a verified library plus a thin
command-line program.

- `src/` — the library, verified with Verus:
  - `text` — lines, trimming, splitting and character classes, each with its specification;
  - `config` — the `attribute value` configuration format and its defaults;
  - `file` — path-to-hash maps, the cache file format, SHA-256 content hashes;
  - `dep` — change detection, `#include` targets, sources that depend on changed headers;
  - `header_locater` — the compiler's list of header directories;
  - `compilation` — compiler and linker invocations, and what to recompile;
  - `lexer` — a small character-level tokenizer.
- `app/main.rs` — the `sil` program: file and process I/O around the library.
- `tests/` — tests of the library on concrete inputs.
