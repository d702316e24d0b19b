# TuneCall

Search a collection of scanned fake-book PDFs by song title and open the
matching book at the right page; plus the offline indexer that builds each
book's song index from a transcribed table of contents.

The logic is a Verus-verified library (`src/`); `app/` is the thin program
around it (files, SQLite, pdfium, HTTP, the indexer's command line).

## Layout

- `src/text.rs`, `src/path.rs`, `src/order.rs` — characters, `Path`-style
  file names and stems, and the string order, with their specifications.
- `src/indexer/` — the indexer: the `<stem>.index` and `<stem>.corrections`
  sidecar parsers, the table-of-contents parser for OCR output, the repair of
  OCR'd page numbers, and the printed-page → scan-page resolution.
- `src/index.rs` — the master-index parser.
- `src/db.rs` — which index goes with which book, the book list, and search.
- `src/config.rs` — the per-book configuration table.
- `src/storage.rs` — where the app keeps its files.
- `src/setlist.rs`, `src/settings.rs`, `src/annotations.rs` — user data and the
  setlist editor.
- `src/viewer.rs` — the main window's decisions: page and song navigation,
  book labels and status lines.
- `src/sync.rs` — which published indexes to download.
- `tests/` — scenarios run against the library.
- `app/` — the indexer binary and the I/O modules of the viewer.
