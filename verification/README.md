# nanosat

A Conflict-Driven Clause Learning (CDCL) SAT solver with a DIMACS reader, written
in Verus: the library in `src/` is verified, the command line in `app/` is plain Rust.

## Layout

- `src/cnf.rs`, `src/types.rs`: literals, clauses, formulas, problems and trail entries.
- `src/logic.rs`, `src/analysis.rs`, `src/progress.rs`, `src/seqs.rs`: the
  mathematical model (partial assignments, trails, models, implication) and lemmas.
- `src/solver.rs`: the solver's operations (assignment, clause status, unit
  propagation, resolution, conflict analysis, backjumping), each with an exact contract.
- `src/run.rs`: the search as a sequence of steps on an abstract state.
- `src/search.rs`: the search loop, proved to end, to answer as `run.rs` describes,
  to return only models and to refute only unsatisfiable problems; it reports a
  conflict on which analysis cannot start, and one after which it learns a clause
  with no literal at the conflict level.
- `src/laws.rs`: laws that relate several operations.
- `src/cdcl.rs`: a second, simpler CDCL framework whose analysis steps do nothing yet.
- `src/dimacs.rs`, `src/instance.rs`, `src/text.rs`: the two DIMACS readers, as
  functions on the lines of the input.
- `src/cli.rs`: the command line's arguments, errors and output line.
- `app/`: argument parsing, file reading and printing.
