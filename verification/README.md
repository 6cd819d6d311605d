# mystery_novel_agent

A library manager for mystery novels, with its rules verified by Verus.

- `src/` holds the library: the catalogue of books, sources, comments and covers; the repair of
  EPUB archives; the analysis and the import of books; the reading of book pages; the merging of
  volumes; the reader; the shelf page; the plans of a synchronisation; the settings, the libraries
  and the assistant. Each function states what it gives back or changes, and the public proof
  functions state what holds of several of them together.
- `app/` is the program around it: the command line, the database file, the network, the archives
  on disk and the commands of the desktop window. It asks the library what to do and does it.
- `tests/` runs the library on examples.

Calls into other crates stand behind small wrappers in `src/json.rs`, `src/markup.rs`,
`src/patterns.rs`, `src/encoding.rs`, `src/archive.rs`, `src/library.rs` and `src/utils.rs`, and
those into the standard library in `src/text.rs`. The doc comment of each says what is believed of the call without proof.
