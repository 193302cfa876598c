# path_reduction

Reduces execution paths of a program, given as sequences of basic-block
identifiers, to a bounded form: repetitions of loops and nested recursive
calls are cut down to at most `k` rounds (or, in the simple mode, every loop
round that comes back to a block already seen in the same call is dropped).

Each function's control flow graph is turned into a regular expression by
state elimination on a generalised automaton (`convert`), and a path is then
parsed against these expressions (`re`, `path_reduction`). The functions
whose names start with `try_` test what the others ask of their inputs and
answer `None` (or `false`) where those would fail.

Layout:

- `src/re.rs` – regular expressions over blocks, the bounded parser and its
  parse values;
- `src/convert.rs`, `src/graph.rs` – automata over `petgraph` graphs and
  state elimination; `graph.rs` holds the contracts of the `petgraph` calls;
- `src/intern_cfg.rs` – the control flow graph of a function;
- `src/path_reduction.rs` – the reducer built from all functions' graphs;
- `src/language.rs`, `src/laws.rs`, `src/subseq.rs` – what holds of every
  run: automata keep their language under elimination, parses take a front
  part off the path, and reductions keep a subsequence of it;
- `app/lib.rs` – the environment-driven error policy, printing and the C
  entry points.
