# codegraph

A graph of a codebase: what it defines, what refers to what, and what a change
reaches. Source files are parsed with tree-sitter, references are bound to
definitions by a fixed cascade of rules, and every verdict can be explained by
a chain of facts that is checked against the stored rows.

The library in `src/` is written in Verus. Each function states what it returns
in its contract, and the laws that span functions stand as public proof
functions beside the code that they speak of.

- `canon`: canonical forms and hashes of small typed graphs
- `index`: parsing, extraction, qualified names, change detection, reference
  resolution, fingerprints, the bookkeeping of a run
- `graph`: call chains, dependencies, cycles, coupling, hubs, clones,
  explanations and their verification
- `facade`: verdicts on symbols and files, structural deltas
- `config`, `db`, `init`, `doctor`: settings, store addresses, scaffolding,
  diagnosis
- `order`, `ranks`, `gather`, `lookup`, `lines`, `text`: what the rest is
  built on

What is believed without proof is marked `external_body`,
`assume_specification` or `uninterp`: hashing, hexadecimal text, tree-sitter's
parse, and a few functions of `std` on text.

`app/` is the program around the library: the command line, files, git, the
SurrealDB store, JSON. It has no reader for planes files, so its diagnosis
reports an existing one as unreadable rather than as valid.
