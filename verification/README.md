# fhe_dsl

A small compiler for arithmetic circuits meant for (mock) fully homomorphic evaluation, verified
with Verus.

Expressions are built in a `Context`: constants are folded as they are appended and equal
expressions are hash-consed (`a + b` and `b + a` get one index). Compiling walks the expression
graph from the outputs, depth first and in post order, and lowers what it reaches into SSA gates;
depending on the compilation mode, expressions left unused are dropped or refuse the compilation.
Circuits can then be measured (multiplicative and total depth), rewritten (reuse-driven
reassociation, tree-balancing reassociation) and evaluated by a plain modular back-end or by a
mock FHE back-end that tracks depth and noise.

## Layout

- `src/` — the verified library.
  - `op.rs`, `ir.rs`: operations, gates, circuits and what a gate computes.
  - `dsl/`: expressions, contexts, constant folding, compilation modes and compilation.
  - `backend/`: the plain and the mock FHE back-ends.
  - `passes/`: depth analysis, hash-consing, usage tracking and the two reassociation passes.
  - `arena.rs`, `thin.rs`, `bits.rs`, `prio.rs`: the contracts under which the library uses
    `la_arena`, `thin_vec`, `bit_set` and `prio_queue`.
- `tests/`: tests of the library.
- `app/`: the handle-based front end (`ContextHandle`, `ExprHandle` with `+`, `-`, `*`), the
  formatted error type and the enumerable categories.

Verus checks `src/`; the tests run against the compiled library with the outside crates linked.
