# lgcell2_core

A logic-cell circuit simulator whose core is proved correct with Verus.

A circuit is a grid of boolean cells joined by directed wires; a positive wire
passes its source's value, a negative wire inverts it, and a cell takes the OR
of what reaches it. Generators drive cells with bit patterns, testers check
them, and modules embed sub-circuits: in each tick a module runs its
sub-circuit for one tick from a fresh state holding the module's input values,
and its output cells take the values of the sub-circuit's output cells. The
simulator processes one cell at a time and can be paused between any two
cells.

Layout:

- `src/` — the verified library (Verus): positions and errors (`base`), the
  circuit model and its validation (`circuit`), the simulation engines
  (`simulation`), the circuit-description reader with sub-circuit resolution
  (`parser`, also reachable as `io::json`), the terminal view logic (`view`,
  `platform`) and the web-facing simulator (`wasm_api`).
- `tests/` — ordinary Rust tests run against the compiled library.
- `app/` — the command-line program: argument handling, file and terminal
  I/O, and JSON (de)serialisation with serde.
