# lib

A small Lisp system and a database prompt, verified with Verus.

- `src/` holds the verified library:
  - `object.rs`: references, objects and the primitive functions;
  - `arena.rs`: the arena of cells, with `make`, `get`, `set`, `nreverse` and `pairlis`;
  - `text.rs`: whitespace, string comparison, and reading and writing decimal numbers;
  - `sexp.rs`: the trees that cells of the arena stand for;
  - `reader.rs`: text to cells, against the grammar in `read_spec`;
  - `printer.rs`: cells to text;
  - `builtin.rs`: the primitives and their arithmetic;
  - `evaluator.rs`: environments, lookup, the special forms and application;
  - `gc.rs`: mark and sweep from the global environment;
  - `shell.rs`: what a line typed at the database prompt asks for;
  - `laws.rs`: properties that relate several operations;
  - `lib.rs`: `process`, which reads, evaluates and stores one line.
- `tests/` runs the library on concrete values.
- `app/` holds the two prompt loops: `main` runs the Lisp prompt, `main db` the
  database prompt.
