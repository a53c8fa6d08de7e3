use vstd::prelude::*;

use crate::backend::error::BackendError;
use crate::ir::{Circuit, SupportedType};

verus! {

/// Checks that as many input values are given as the circuit has inputs.
pub(crate) fn validate_same_length(circuit: &Circuit, inputs: &[SupportedType]) -> (r: Result<
    (),
    BackendError,
>)
    ensures
        r == (if circuit@.inputs.len() == inputs@.len() {
            Ok::<(), BackendError>(())
        } else {
            Err(BackendError::InvalidInputLen(circuit@.inputs.len() as usize, inputs@.len() as usize))
        }),
{
    if circuit.inputs().len() != inputs.len() {
        let exp_len = circuit.inputs().len();
        let got_len = inputs.len();
        Err(BackendError::InvalidInputLen(exp_len, got_len))
    } else {
        Ok(())
    }
}

} // verus!
