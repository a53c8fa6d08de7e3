use vstd::prelude::*;

use thin_vec::ThinVec;

use crate::arena::{gate_arena_get, gate_arena_items};
use crate::ir::{circuit_wf, gates_wf, Circuit, CircuitView, Gate, GateIdx};
use crate::op::BinOp;
use crate::thin::{depth_list_as_slice, depth_list_from_vec, depth_list_items};

verus! {

/// What a gate adds to the depth of the paths through it.
pub trait Counter {
    spec fn spec_count(gate: Gate) -> nat;

    /// A gate adds at most one.
    proof fn lemma_count_bound(gate: Gate)
        ensures
            Self::spec_count(gate) <= 1,
    ;

    fn count(gate: &Gate) -> (n: usize)
        ensures
            n == Self::spec_count(*gate),
    ;
}

/// Multiplicative depth: only multiplications count.
pub struct MulCounter;

impl Counter for MulCounter {
    open spec fn spec_count(gate: Gate) -> nat {
        if gate matches Gate::BinOp(BinOp::Mul, _, _) {
            1
        } else {
            0
        }
    }

    proof fn lemma_count_bound(gate: Gate) {
    }

    fn count(gate: &Gate) -> (n: usize) {
        if let Gate::BinOp(BinOp::Mul, _, _) = gate {
            1
        } else {
            0
        }
    }
}

/// Total depth: every gate counts.
pub struct TotalDepthCounter;

impl Counter for TotalDepthCounter {
    open spec fn spec_count(gate: Gate) -> nat {
        1
    }

    proof fn lemma_count_bound(gate: Gate) {
    }

    fn count(_gate: &Gate) -> (n: usize) {
        1
    }
}

/// The depth of gate `i`: its own count plus the larger depth of its operands.
pub open spec fn depth_of<C: Counter>(gates: Seq<Gate>, i: int) -> nat
    decreases i,
{
    if 0 <= i < gates.len() {
        match gates[i] {
            Gate::BinOp(_, lhs, rhs) => if lhs < i && rhs < i {
                let l = depth_of::<C>(gates, lhs as int);
                let r = depth_of::<C>(gates, rhs as int);
                (if l >= r {
                    l
                } else {
                    r
                }) + C::spec_count(gates[i])
            } else {
                C::spec_count(gates[i])
            },
            _ => C::spec_count(gates[i]),
        }
    } else {
        0
    }
}

/// An operation is deeper than each of its operands by its own count, and as deep as the deeper
/// of them plus its count; a gate that is no operation is as deep as its count.
pub proof fn lemma_depth_of_gate<C: Counter>(gates: Seq<Gate>, i: int)
    requires
        gates_wf(gates),
        0 <= i < gates.len(),
    ensures
        gates[i] matches Gate::BinOp(_, l, r) ==> {
            &&& depth_of::<C>(gates, l as int) + C::spec_count(gates[i]) <= depth_of::<C>(gates, i)
            &&& depth_of::<C>(gates, r as int) + C::spec_count(gates[i]) <= depth_of::<C>(gates, i)
            &&& (depth_of::<C>(gates, i) == depth_of::<C>(gates, l as int) + C::spec_count(gates[i]) || depth_of::<C>(
                gates,
                i,
            ) == depth_of::<C>(gates, r as int) + C::spec_count(gates[i]))
        },
        !(gates[i] is BinOp) ==> depth_of::<C>(gates, i) == C::spec_count(gates[i]),
{
}

/// A depth is at most the number of gates up to the one measured.
pub proof fn lemma_depth_bound<C: Counter>(gates: Seq<Gate>, i: int)
    requires
        0 <= i,
    ensures
        depth_of::<C>(gates, i) <= i + 1,
    decreases i,
{
    if 0 <= i < gates.len() {
        C::lemma_count_bound(gates[i]);
        match gates[i] {
            Gate::BinOp(_, lhs, rhs) => if lhs < i && rhs < i {
                lemma_depth_bound::<C>(gates, lhs as int);
                lemma_depth_bound::<C>(gates, rhs as int);
            },
            _ => {},
        }
    }
}

/// The multiplicative depth of a gate is below its total depth: a path counts each of its gates
/// in the total, and only its multiplications in the multiplicative depth.
pub proof fn lemma_mul_depth_below_total(gates: Seq<Gate>, i: int)
    requires
        gates_wf(gates),
        0 <= i < gates.len(),
    ensures
        depth_of::<MulCounter>(gates, i) + 1 <= depth_of::<TotalDepthCounter>(gates, i),
    decreases i,
{
    match gates[i] {
        Gate::BinOp(_, lhs, rhs) => if lhs < i && rhs < i {
            lemma_mul_depth_below_total(gates, lhs as int);
            lemma_mul_depth_below_total(gates, rhs as int);
        },
        _ => {},
    }
}

/// The depths of gate `of` counted by `C` and by `T`.
pub fn get_depth<C: Counter, T: Counter>(circuit: &Circuit, of: GateIdx) -> (d: (usize, usize))
    requires
        circuit_wf(circuit@),
        of < circuit@.gates.len(),
    ensures
        d.0 == depth_of::<C>(circuit@.gates, of as int),
        d.1 == depth_of::<T>(circuit@.gates, of as int),
    decreases of,
{
    proof {
        lemma_depth_bound::<C>(circuit@.gates, of as int);
        lemma_depth_bound::<T>(circuit@.gates, of as int);
    }
    let gate = gate_arena_get(circuit.gates(), of);
    let c_depth = C::count(&gate);
    let t_depth = T::count(&gate);
    match gate {
        Gate::BinOp(_, lhs, rhs) => {
            assert(lhs < of && rhs < of);
            let left_depth = get_depth::<C, T>(circuit, lhs);
            let right_depth = get_depth::<C, T>(circuit, rhs);
            let c_max = if left_depth.0 >= right_depth.0 {
                left_depth.0
            } else {
                right_depth.0
            };
            let t_max = if left_depth.1 >= right_depth.1 {
                left_depth.1
            } else {
                right_depth.1
            };
            (c_max + c_depth, t_max + t_depth)
        },
        _ => (c_depth, t_depth),
    }
}

/// `mul` and `total` hold the multiplicative and the total depth of each output of `c`.
pub open spec fn depths_of_outputs(c: CircuitView, mul: Seq<usize>, total: Seq<usize>) -> bool {
    &&& mul.len() == c.outputs.len()
    &&& total.len() == c.outputs.len()
    &&& forall|k: int|
        #![trigger mul[k]]
        #![trigger total[k]]
        0 <= k < c.outputs.len() ==> mul[k] == depth_of::<MulCounter>(c.gates, c.outputs[k] as int)
            && total[k] == depth_of::<TotalDepthCounter>(c.gates, c.outputs[k] as int)
}

/// The multiplicative and the total depth of each output of a circuit.
#[derive(Debug)]
pub struct DepthAnalysis {
    mul: ThinVec<usize>,
    total: ThinVec<usize>,
}

impl DepthAnalysis {
    /// The multiplicative depths, output by output.
    pub closed spec fn spec_mul(&self) -> Seq<usize> {
        depth_list_items(self.mul)
    }

    /// The total depths, output by output.
    pub closed spec fn spec_total(&self) -> Seq<usize> {
        depth_list_items(self.total)
    }

    pub fn mul(&self) -> (s: &[usize])
        ensures
            s@ == self.spec_mul(),
    {
        depth_list_as_slice(&self.mul)
    }

    pub fn total(&self) -> (s: &[usize])
        ensures
            s@ == self.spec_total(),
    {
        depth_list_as_slice(&self.total)
    }
}

/// The multiplicative and the total depth of each output of a circuit.
pub fn depth_analysis_of(circuit: &Circuit) -> (a: DepthAnalysis)
    requires
        circuit_wf(circuit@),
    ensures
        depths_of_outputs(circuit@, a.spec_mul(), a.spec_total()),
{
    let outputs = circuit.outputs();
    let mut mul_depths: Vec<usize> = Vec::new();
    let mut total_depths: Vec<usize> = Vec::new();
    let mut ix: usize = 0;
    while ix < outputs.len()
        invariant
            outputs@ == circuit@.outputs,
            circuit_wf(circuit@),
            ix <= outputs.len(),
            forall|k: int| 0 <= k < circuit@.outputs.len() ==> #[trigger] circuit@.outputs[k] < circuit@.gates.len(),
            mul_depths@.len() == ix,
            total_depths@.len() == ix,
            forall|k: int|
                0 <= k < ix ==> #[trigger] mul_depths@[k] == depth_of::<MulCounter>(circuit@.gates, outputs@[k] as int)
                    && total_depths@[k] == depth_of::<TotalDepthCounter>(circuit@.gates, outputs@[k] as int),
        decreases outputs.len() - ix,
    {
        let out = outputs[ix];
        assert(out == circuit@.outputs[ix as int]);
        let (mul_depth, total_depth) = get_depth::<MulCounter, TotalDepthCounter>(circuit, out);
        mul_depths.push(mul_depth);
        total_depths.push(total_depth);
        ix = ix + 1;
    }
    let a = DepthAnalysis { mul: depth_list_from_vec(mul_depths), total: depth_list_from_vec(total_depths) };
    assert(depths_of_outputs(circuit@, mul_depths@, total_depths@));
    a
}

} // verus!
