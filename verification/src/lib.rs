//! A small compiler for arithmetic circuits evaluated under (mock) fully homomorphic
//! encryption: a DSL that builds hash-consed, constant-folded expression graphs, the
//! lowering of those graphs into SSA gate circuits, optimisation passes on circuits and
//! evaluation back-ends.
pub mod op;
pub mod arena;
pub mod thin;
pub mod ir;
pub mod backend;
pub mod dsl;
pub mod passes;
pub mod bits;
pub mod prio;
