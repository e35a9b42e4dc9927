# dendrite-core

The core of a Markdown knowledge-base engine: it parses notes, gives each a
stable identifier, keeps their links and backlinks, builds the note hierarchy
of a semantic model (Dendron's dotted keys), and computes edit plans for
renames, moves, hierarchy renames, splits and audits.

The library in `src/` is verified with Verus. The contract of each public
function states what it returns or changes, over spec functions of notes,
links and edit plans. Where part of a result comes from outside the library
(the file system and content provider a caller supplies, the clock, random
identifiers, the YAML and Markdown parsers), the contract fixes what is
handed to the outside call and what the library does with any answer, and
names the answer itself. The laws of the library (undoing an undo,
line/offset round trips, stable identifiers, backlinks that agree with the
links after a relink, a closed hierarchy after indexing, an ASCII anchor
that is its own anchor, relative path components that lead back to their
target) are proof functions or clauses of those contracts.

- `src/` — the verified library
  - `text`, `paths`, `utils`, `line_map`: text, paths, slugs, positions
  - `markdown`, `parser`, `frontmatter`, `digest`: reading a note
  - `model`, `identity`, `store`: notes, identifiers, the note store
  - `semantic`: the semantic model (Dendron)
  - `mutation` and its submodules: edit plans and their inversion
  - `workspace` and its submodules: the workspace, indexing, queries,
    plans, the hierarchy tree and the engine
  - `vfs`, `cache`: the file-system interface and saved state
- `app/` — the host side: the machine's file system, the YAML configuration
  file, the bincode cache and serialisable copies of the library's values
- `tests/` — tests of the library
