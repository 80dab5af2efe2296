# tsugiki

A structured translation assistant: a document is broken into three trees —
source (what was written), structure (what it means) and target (what you
write) — kept as CSVS tablets (UUID-to-UUID edges) and prose blobs.

## Layout

- `src/` — the library, verified with Verus. Every command works on a
  `store::Csvs` value (the files of the `csvs/` directory and its prose
  blobs, as text) and returns the lines to print and the files it changed;
  its contract states both exactly.
  - `text` — string operations (`lines`, `trim`, `split`, clipping) with
    their specifications.
  - `types`, `scan`, `resolve` — node ids, addresses, and the Fountain line
    scanner.
  - `store` — parsing tablets into ordered maps, roots, walks, UUID
    resolution, and updates of the store.
  - `mdtree`, `init` — the markdown tree the parser reads, and `init`:
    source tree, structure scaffold, tablets and prose blobs.
  - `ids` — UUIDs made by the `uuid` crate.
  - `next`, `annotate`, `write`, `link`, `show`, `render` — the commands.
  - `fountain` — the Fountain that `render` writes for a source or target
    tree, read back by the scanner block by block.
- `app/` — the command line: argument parsing, reading and writing the
  intent directory, printing.
- `tests/` — tests of the library.
