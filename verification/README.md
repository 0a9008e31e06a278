# binary2graph

Builds a function call graph from an ELF binary, draws it in the DOT language, and serves it to a
web page on which parts of the graph can be explored and the binary can be run under a tracer.

The library under `src/` is verified with Verus: each function states what it returns, and the
proofs are part of the source. The program under `app/` is ordinary Rust around it: arguments,
files, the web server, JSON, and the `ptrace` requests.

## Layout

- `image`, `decode`: what is read of an object file (crate `object`) and of machine code (crate
  `iced-x86`), as plain values.
- `binary`, `calls`: the functions, the stubs of the procedure linkage table, and the direct calls.
- `dynamic`, `detection`, `hardening`, `info`: the passport of a binary.
- `callgraph`, `report`, `analysis`: the graph (crate `petgraph`), the table of the functions, and
  the whole analysis.
- `server`, `adjacency`, `walk`, `neighborhood`, `search`, `overview`, `runs`: what the requests of
  the web page are answered with.
- `symbols`, `hits`, `trace`, `recording`, `session`: traced runs. `recording` says what many calls
  come to; `session` is a machine: each event of the traced processes leads to the next request.
- `text`, `order`, `bytes`, `tables`: text, sorting, words, and the keys of hash maps.

Functions named `lemma_...` that are public state what holds of the library as a whole.
