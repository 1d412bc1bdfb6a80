# slbl — serde line by line

A guided walkthrough of every line of `serde_core` and `serde_derive`, kept
honest by its own tooling: annotations are keyed to `(file, line-range)` in
pinned, hash-checked copies of the crates, and the tools that check, migrate
and publish them are written in Verus and proved against their contracts.

## Layout

- `src/` — the library, verified by Verus. Every public function states in
  `ensures` what it returns, over spec functions of plain values.
  - `schema`, `load`, `store` — the annotation store: line ranges, loading
    and resolving the TOML files' contents against the pin.
  - `coverage`, `claims`, `refs`, `cycle`, `audit` — the coverage gate:
    every line of a claimed file claimed exactly once, references that
    resolve, an acyclic prerequisite graph, pins that agree.
  - `remap`, `plan`, `store_edit`, `bump`, `index`, `summary` — moving a
    pinned source to a new release: aligning each file's old and new lines,
    carrying every range across, and rewriting the store.
  - `vendor`, `harness`, `stats`, `wasm` — the pin file, tree hashes, the
    expansion harness's pins, the structural inventory and the browser
    modules' toolchain check.
  - `site`, `blocks`, `course_page`, `narrative_page`, `glossary_page`,
    `highlight`, `markdown`, `links`, `paths` — the content of the reader's
    pages, syntax highlighting, and the check of the site's internal links.
  - `text` — characters, lines, trimming, numbers, searching.
- `app/` — the command line: reading and writing files, downloads, the
  development server, and printing. It hands the library plain values.
- `tests/` — tests of the library on concrete values.

## Laws

Properties that hold of every input stand in `src/` as public proof
functions named `law_…`, each with a doc comment that states it in words:
for instance that a clean file is claimed once per line and the converse,
that remapping carries a tiling of the old file to a tiling of the new one,
that a range written to the store reads back as itself, and that every
highlighted line stands alone.

## Commands

```
slbl coverage [--json]                   verify the stores against the pinned sources
slbl bump [--source NAME] <version> ...  migrate a pinned source's store to a new release
slbl pin                                 rehash vendor/pin.toml and NOTICE.md
slbl stats [--dir PATH]                  structural inventory of a tree
slbl site [OUT]                          build the reader's pages
slbl dev [PORT]                          serve the built site locally
slbl wasm                                build the browser modules
```
