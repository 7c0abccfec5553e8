# hoshino

Multi-pattern string search whose results are UTF-16 ranges, so that a
JavaScript caller can slice its own string with them.

- `src/utf8_to_utf16/` turns UTF-8 byte offsets of a text into UTF-16
  code-unit offsets: `text` models texts by their UTF-8 and UTF-16 lengths,
  `analyze_source_file` records the multi-byte and non-narrow characters and
  the line starts of a text, `source_map` loads texts and answers offset
  queries through a cache, and `pos` holds the position types.
- `src/find.rs` runs an Aho-Corasick search (the `aho-corasick` crate) and
  converts what it finds; `src/find_laws.rs` proves that a reported range
  covers exactly an occurrence of the reported pattern, and that the ranges of
  a search for all matches come in order and leave no occurrence out.
- `app/` exposes the searches to Node.js through `napi`, keeps the set of
  patterns loaded with `loadPatterns`, and installs the allocator.
