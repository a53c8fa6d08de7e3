use vstd::prelude::*;

use crate::ir::{circuit_wf, Circuit};
use crate::passes::depth::{depth_analysis_of, depths_of_outputs, DepthAnalysis};

verus! {

/// The shape of a circuit: its numbers of inputs and outputs, and the depths of its outputs.
#[derive(Debug)]
pub struct CircuitStats {
    pub num_inputs: usize,
    pub num_outputs: usize,
    pub depth_analysis: DepthAnalysis,
}

/// Measures a circuit.
pub fn analyse(circuit: &Circuit) -> (stats: CircuitStats)
    requires
        circuit_wf(circuit@),
    ensures
        stats.num_inputs == circuit@.inputs.len(),
        stats.num_outputs == circuit@.outputs.len(),
        depths_of_outputs(circuit@, stats.depth_analysis.spec_mul(), stats.depth_analysis.spec_total()),
{
    let num_outputs = circuit.outputs().len();
    let depth_analysis = depth_analysis_of(circuit);
    let num_inputs = circuit.inputs().len();
    CircuitStats { num_inputs, num_outputs, depth_analysis }
}

} // verus!
