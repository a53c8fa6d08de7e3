//! Evaluation back-ends for circuits.
use vstd::prelude::*;

use thin_vec::ThinVec;

use crate::backend::error::BackendError;
use crate::ir::{Circuit, CircuitView, SupportedType};
use crate::op::BinOp;

pub mod error;
pub mod mock_fhe;
pub mod plain;
pub mod validation;

verus! {

/// What an evaluation gives: the elements, or why the back-end refused.
pub type BackendResult<T> = Result<T, BackendError>;

/// A way to evaluate circuits on elements of some kind.
///
/// Each operation may demand that its arguments fit its arithmetic: an implementation states
/// in `op_ok`, `encode_ok`, `eval_ok` and `eval_outputs_ok` on which arguments it can work.
pub trait Backend {
    type Elem;

    /// The state and operands on which `op` can be applied.
    spec fn op_ok(&self, op: BinOp, lhs: Self::Elem, rhs: Self::Elem) -> bool;

    /// The state in which a plain value can be turned into an element.
    spec fn encode_ok(&self, c: SupportedType) -> bool;

    /// The circuits and input values that `eval` can evaluate.
    spec fn eval_ok(&self, circuit: CircuitView, with: Seq<SupportedType>) -> bool;

    /// The circuits and input values that `eval_outputs` can evaluate.
    spec fn eval_outputs_ok(&self, circuit: CircuitView, with: Seq<SupportedType>) -> bool;

    fn add(&mut self, lhs: &Self::Elem, rhs: &Self::Elem) -> Self::Elem
        requires
            old(self).op_ok(BinOp::Add, *lhs, *rhs),
    ;

    fn sub(&mut self, lhs: &Self::Elem, rhs: &Self::Elem) -> Self::Elem
        requires
            old(self).op_ok(BinOp::Sub, *lhs, *rhs),
    ;

    fn mul(&mut self, lhs: &Self::Elem, rhs: &Self::Elem) -> Self::Elem
        requires
            old(self).op_ok(BinOp::Mul, *lhs, *rhs),
    ;

    fn input(&mut self, c: SupportedType) -> Self::Elem
        requires
            old(self).encode_ok(c),
    ;

    fn constant(&mut self, c: SupportedType) -> Self::Elem
        requires
            old(self).encode_ok(c),
    ;

    /// Evaluates every gate of the circuit, in order.
    fn eval(&mut self, circuit: &Circuit, with: &[SupportedType]) -> Result<ThinVec<Self::Elem>, BackendError>
        requires
            old(self).eval_ok(circuit@, with@),
    ;

    /// Evaluates the gates the outputs depend on, and returns the outputs' elements.
    fn eval_outputs(&mut self, circuit: &Circuit, with: &[SupportedType]) -> Result<
        ThinVec<Self::Elem>,
        BackendError,
    >
        requires
            old(self).eval_outputs_ok(circuit@, with@),
    ;
}

} // verus!
