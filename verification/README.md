# sqldb

A small SQL database, verified with Verus.

- `src/storage`: key/value engines (an in-memory one), the byte encodings of
  keys, and a multi-version store with snapshot isolation over any engine.
  `mvcc_laws.rs` states what the store promises across operations.
- `src/sql`: the lexer and parser (`parser/`, with the grammar as spec
  functions in `grammar.rs`), schemas and values, their byte encoding
  (`codec.rs`), exact decimal arithmetic (`number.rs`, `arith.rs`), the
  planner (`plan/`), the executors (`executor/`), and sessions that run a
  statement in a transaction (`engine/`).
- `tests/`: runs the library on concrete statements and values.
- `app/`: the programs around the library: a TCP server over a log file on
  disk, and an interactive client.
