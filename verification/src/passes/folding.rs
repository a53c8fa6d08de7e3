use vstd::prelude::*;

use la_arena::Arena;

use crate::arena::{gate_arena_get, gate_arena_items, gate_arena_len};
use crate::ir::{apply_op, Gate, SupportedType};

verus! {

/// An operation on two constant gates becomes the constant it computes, modulo `q`; any other
/// gate stays as it is.
pub open spec fn spec_gate_fold(gate: Gate, gates: Seq<Gate>, q: SupportedType) -> Gate {
    match gate {
        Gate::BinOp(op, lhs, rhs) => match (gates[lhs as int], gates[rhs as int]) {
            (Gate::Const(a), Gate::Const(b)) => Gate::Const((apply_op(op, a as int, b as int) % (q as int)) as u64),
            _ => gate,
        },
        _ => gate,
    }
}

/// The operands of an operation are in the arena, and folding two constants neither divides
/// by zero nor leaves the `u64` range before the reduction.
pub open spec fn gate_fold_ok(gate: Gate, gates: Seq<Gate>, q: SupportedType) -> bool {
    match gate {
        Gate::BinOp(op, lhs, rhs) => {
            &&& lhs < gates.len()
            &&& rhs < gates.len()
            &&& match (gates[lhs as int], gates[rhs as int]) {
                (Gate::Const(a), Gate::Const(b)) => q > 0 && 0 <= apply_op(op, a as int, b as int) <= u64::MAX,
                _ => true,
            }
        },
        _ => true,
    }
}

/// Folds an operation on two constant gates.
pub fn fold(gate: Gate, arena: &Arena<Gate>, q: SupportedType) -> (folded: Gate)
    requires
        gate_fold_ok(gate, gate_arena_items(*arena), q),
    ensures
        folded == spec_gate_fold(gate, gate_arena_items(*arena), q),
{
    match gate {
        Gate::BinOp(bin_op, lhs_idx, rhs_idx) => {
            let lhs = gate_arena_get(arena, lhs_idx);
            let rhs = gate_arena_get(arena, rhs_idx);
            if let Gate::Const(lhs_value) = lhs {
                if let Gate::Const(rhs_value) = rhs {
                    let result = match bin_op {
                        crate::op::BinOp::Add => (lhs_value + rhs_value) % q,
                        crate::op::BinOp::Sub => (lhs_value - rhs_value) % q,
                        crate::op::BinOp::Mul => (lhs_value * rhs_value) % q,
                    };
                    return Gate::Const(result);
                }
            }
            gate
        },
        _ => gate,
    }
}

/// Whether folding `gate` can be done: its operands are in the arena and folding two constants
/// neither divides by zero nor leaves the `u64` range.
pub fn fold_fits(gate: Gate, arena: &Arena<Gate>, q: SupportedType) -> (b: bool)
    ensures
        b == gate_fold_ok(gate, gate_arena_items(*arena), q),
{
    match gate {
        Gate::BinOp(bin_op, lhs_idx, rhs_idx) => {
            let n = gate_arena_len(arena);
            if lhs_idx as usize >= n || rhs_idx as usize >= n {
                return false;
            }
            let lhs = gate_arena_get(arena, lhs_idx);
            let rhs = gate_arena_get(arena, rhs_idx);
            if let Gate::Const(a) = lhs {
                if let Gate::Const(b) = rhs {
                    if q == 0 {
                        return false;
                    }
                    return match bin_op {
                        crate::op::BinOp::Add => a <= u64::MAX - b,
                        crate::op::BinOp::Sub => a >= b,
                        crate::op::BinOp::Mul => {
                            if b == 0 {
                                true
                            } else {
                                let m = u64::MAX / b;
                                proof {
                                    let mm = m as int;
                                    let bb = b as int;
                                    let aa = a as int;
                                    assert(mm * bb <= u64::MAX && u64::MAX < (mm + 1) * bb) by (nonlinear_arith)
                                        requires
                                            bb > 0,
                                            mm == u64::MAX as int / bb,
                                    ;
                                    assert(aa <= mm ==> aa * bb <= mm * bb) by (nonlinear_arith)
                                        requires
                                            bb > 0,
                                    ;
                                    assert(aa > mm ==> aa * bb >= (mm + 1) * bb) by (nonlinear_arith)
                                        requires
                                            bb > 0,
                                    ;
                                }
                                a <= m
                            }
                        },
                    };
                }
            }
            true
        },
        _ => true,
    }
}

} // verus!
