# ltp_engine

A deterministic engine for H. William Dettmer's Logical Thinking Process: a
global causal graph of nodes, trees (topological views) with cause-effect
links, assumptions, long arrows (macro-edges), negative branch reservations,
a knowledge pool, and an undo/redo history of every change.

The engine checks topology (every tree stays a DAG), referential integrity and
unique IDs; it never judges meaning.

## Layout

- `src/` — the library, verified with Verus. The commands' logic lives here
  as functions from plain values to plain values, with contracts:
  - `node`, `tree`, `link`, `assumptions`, `path`, `macro_edge`,
    `macro_assume`, `nbr`, `trace` — the graph commands;
  - `validate` — DAG, integrity, orphan, EC and CLR checks;
  - `knowledge`, `status` — the knowledge pool and workspace health;
  - `history` — undo/redo entries: what is recorded, verified and restored;
  - `workspace` — counters (ID minting), paths, lock decisions, init;
  - `strutil`, `output`, `errors` — strings, the command answer parts, errors.
  The laws of the library are public proof functions named `law_*`; the other
  promises stand in the `ensures` of the functions they are about.
- `app/` — the `ltp` command line and the MCP server (`ltp mcp`, with its
  catalogue of tools): argument parsing, JSON files on disk, the workspace
  lock, the history stacks, and the JSON answers. It hands plain values to
  the library and takes plain values back. The CLR#5 check on MAG weights
  also stands here, as it works on floating-point weights.
- `tests/` — tests of the library on concrete values.
