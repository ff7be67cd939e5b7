# impulse_graph_tooling

Developer tooling for Impulse Graph snapshots (`.imps`) and query programs,
with its logic verified by Verus.

- `src/` — the verified library:
  - `text`, `strmap`, `sort`, `sexpr` — character, map, sorting and
    S-expression helpers;
  - `reader`, `printer`, `passes`, `implog`, `regalloc`, `compiler` — the
    query compiler for ImpScheme and ImpLog: reading, rewriting, register
    assignment (`R0`..`R63`), assembly text;
  - `opcodes`, `assembler`, `disassembler` — bytecode text and binary forms;
  - `snapshot`, `domain_index`, `attributes`, `csr` — building snapshot
    contents from a manifest's data files;
  - `validate`, `reorder`, `export`, `report` — checking, reordering,
    exporting and reporting on snapshots;
  - `generate`, `sampling` — synthetic graphs;
  - `tensors` — the tensors of `.safetensors` weight shards as property
    columns;
  - `crypto` — hex text, and Ed25519 signatures over a SHA-256 digest of the
    whole snapshot;
  - `cli` — the plain forms of the compiler and crypto subcommands.
- `app/` — the `impulse-graph` command line: argument parsing, files, the
  snapshot format's reader and writer, random draws and floating-point work,
  the graph engine's compiler for Cypher, CEL and ImpK scripts, the graph
  statistics, and the man pages.
- `tests/` — tests of the library.
