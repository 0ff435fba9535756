# compiler_core

The core data structures and algorithms of the compiler core of a PureScript
language implementation, written in Verus: each function states its behaviour in `requires` /
`ensures` over mathematical models, and Verus proves the code against it.

## Layout

- `src/files.rs` — the file table: paths, contents and stable file ids.
- `src/checking/` — the type checker's bookkeeping: constraint work queues
  and the wait lists of stuck constraints (`constraint`), functional
  dependencies and covering sets (`fd`), evidence variables and their
  resolution (`evidence`), where evidence is applied and abstracted
  (`placement`), fresh display names (`pretty_names`), unification variables
  (`state`), the checked syntax tree (`tree`) and the checked Core tables
  (`semantic`).
- `src/elaborating/` — the Core language that checked modules are elaborated
  into (`core_module`), evidence resolution into Core (`evidence`), the
  dependencies between top-level bindings (`dependencies`) and their
  grouping into strongly connected, dependency-ordered binding groups
  (`grouping`, over `petgraph` in `graph`).
- `src/corefn/` — the CoreFn output model, generated names, comments and
  number literals.
- `src/documenting/` — documentation comments of declarations.
- `src/text/` — character and string helpers and small association tables.
- `src/hashed.rs`, `src/indexed.rs` — the contracts of the `rustc_hash` and
  `indexmap` collections that the library uses.
- `app/` — what stays outside the verifier: JSON encoding of CoreFn with
  `serde`, parallel iteration with `rayon`, float parsing and the optional
  profiling report.
- `tests/` — tests of the library through its public interface.

## What is not here

The type checker's inference and constraint solving (`infer_*`, `check_*`,
`solve_constraints`, zonking), instance deriving, the pretty printers of
types and checked trees, the elaboration of checked expressions into Core,
CoreFn compilation, diagnostics conversion and the documentation walk over
syntax trees are not part of this crate. Each is built on parts of the
compiler that this crate does not have: the type representation, the
checker's context, unification and canonicalisation, and the crates for
syntax, parsing, lowering, indexing, name resolution and the query system.
The pieces of those components that stand on their own — the wait lists
and work queue of the solver, functional dependencies, evidence
bookkeeping, display names, binding dependencies and grouping, and the
CoreFn naming helpers — are here and verified.
