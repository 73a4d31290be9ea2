# rust_graph

Reads an HTML decision table (rows with `Id`, `Item`, `Azione` and `Next`
columns), builds the graph of its nodes, merges linked nodes of the same
type (label) and exports the result as a draw.io document; with it come a few
small text utilities and a number guessing game.

Layout:

- `src/` — the library, verified with Verus.
  - `text`, `words`: character-sequence specifications and verified text
    primitives (search, replace, trim, split, numerals, word tallies).
  - `table`, `links`, `sheet`: reading the table and the links of its
    "Next" cells.
  - `graph`, `building`, `compaction`: nodes and edges, the walk that grows a
    tree from a root, and the compaction scan.
  - `drawio`, `export`: the draw.io XML model and the export of a tree.
  - `shell`, `order`: the commands of the interactive shell.
  - `guess`, `ownership`, `recovery`: the guessing game and the string and
    record demos.
  - `bindings`: the calls into `xml-rs`, `substring`, `table-extract` and
    `rand`, each with the contract the proofs rely on.
- `tests/` — tests of the library on concrete values.
- `app/` — the command-line programs: prompt, files, spreadsheet and JSON
  output.

Collections: the word tally (`words::WordCounts`) keeps its words in a
`Vec` with no word twice, in place of a `HashMap<String, u32>`, and
`graph::retrieve_roots_from_table` collects link targets in a `Vec` in
place of a `BTreeMap<String, i32>` whose counts were never read.  Verus
specifies `HashMap` and `BTreeMap` well for integer keys; with `String` keys
the calls verify but let little be proved, so the library keeps plain
vectors whose contents its contracts state exactly.
