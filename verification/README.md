# harness_book

The tooling around a bilingual Rust book and its teaching agent harness,
written in Verus:

- `turn`, `cli`: one deterministic offline turn with typed lifecycle events,
  the event lines the harness prints, and the `--doctor` toolchain report.
- `markdown`, `inline`, `blocks`, `parser`, `document`: the strict Markdown
  dialect of the book, parsed into blocks and inline content.
- `typst`, `assemble`, `config`, `summary`, `includes`, `assets`, `paths`:
  the Typst renderer: `book.toml`, `SUMMARY.md`, `{{#include}}` expansion,
  image publication and the checks on output directories.
- `gitmd`, `gitbook`: the GitBook-compatible Markdown mirror.
- `pack`, `manifest`, `archive`, `args`: reproducible chapter code packs:
  the manifest rules, the archive's file set, and the checks run when a pack
  is read back.

`src/` is the verified library; every public function states what it returns
in its `ensures`, over spec functions of the same module. `app/` holds the
command-line programs: file system, Git, ZIP and process work that hands plain
values to the library.
