use vstd::prelude::*;

verus! {

/// Why a back-end refused to evaluate a circuit.
#[derive(Clone, Copy, Debug, PartialEq, Eq, Structural)]
pub enum BackendError {
    /// The circuit expects this many input values, and this many were given.
    InvalidInputLen(usize, usize),
    /// The noise budget, the noise that exceeded it, and the index of its gate.
    NoiseBudgetExceeded(usize, usize, usize),
}

} // verus!
