//! Reuse-driven reassociation: an operation `(a op b) op c` or `a op (b op c)` of an
//! associative and commutative operation, whose inner operation has no other user, is
//! rewritten to reuse an operation computed elsewhere (`x = a op c` gives `x op b`), or to fold
//! two constants that the rewrite brings together.
use vstd::prelude::*;

use la_arena::Arena;
use std::collections::{HashMap, HashSet};
use thin_vec::ThinVec;

use crate::arena::{gate_arena_clone, gate_arena_get, gate_arena_items, gate_arena_len, gate_arena_set};
use crate::ir::{
    apply_op, circuit_wf, CircuitView, gate_hash, gate_value, gates_wf, hash_key, hash_key_of, lemma_hash_key_injective, spec_gate_hash, Circuit,
    Gate, GateIdx, SupportedType,
};
use crate::op::BinOp;
use crate::passes::folding::{fold, fold_fits, gate_fold_ok, spec_gate_fold};
use crate::passes::liveness::LivenessWRTUsage;
use crate::passes::sets::set_elements;
use crate::passes::{
    is_op_associative_and_commutative, kept_before, lemma_kept_before_drops, output_computes, output_kept, output_matched, strictly_increasing, lemma_rebuild_alive_len, lemma_rebuild_output_indices,
    lemma_rebuild_outputs, lemma_rebuild_outputs_in_order, moved_upto, new_reassociated_circuit_from, noted_output, rebuilt_circuit, rebuilt_len, usages_consistent,
    RebuildState,
};
use crate::thin::{idx_list_as_slice, idx_list_from_vec, idx_list_items};

verus! {

broadcast use vstd::std_specs::hash::group_hash_axioms;

/// The key under which a gate is found among the computed gates: that of its canonical form.
pub open spec fn gate_key(gate: Gate) -> u128 {
    hash_key(spec_gate_hash(gate))
}

/// The key of a gate; a tombstone has none.
fn key_of(gate: &Gate) -> (k: Option<u128>)
    ensures
        k == if *gate is Thombstone {
            None
        } else {
            Some(gate_key(*gate))
        },
{
    match gate {
        Gate::Thombstone => None,
        _ => Some(hash_key_of(&gate_hash(gate))),
    }
}

/// The operands of every operation are below `n`.
pub open spec fn operands_below(gates: Seq<Gate>, n: int) -> bool {
    forall|i: int|
        0 <= i < gates.len() ==> match #[trigger] gates[i] {
            Gate::BinOp(_, lhs, rhs) => lhs < n && rhs < n,
            _ => true,
        }
}

/// The state of the pass over a copy of the circuit's gates.
#[derive(Debug)]
pub struct ReassociationPass {
    q: SupportedType,
    gates: Arena<Gate>,
    dead: HashSet<GateIdx>,
    liveness_wrt_usage: LivenessWRTUsage,
    seen: HashMap<u128, GateIdx>,
    operation_gates: Vec<GateIdx>,
    constant_gates: HashSet<GateIdx>,
}

impl ReassociationPass {
    /// The number of gates.
    pub closed spec fn size(&self) -> nat {
        gate_arena_items(self.gates).len()
    }

    /// The gates as the pass has rewritten them.
    pub closed spec fn spec_gates(&self) -> Seq<Gate> {
        gate_arena_items(self.gates)
    }

    /// The gates known to be dead.
    pub closed spec fn spec_dead(&self) -> Set<GateIdx> {
        self.dead@
    }

    /// The constant gates.
    pub closed spec fn spec_constants(&self) -> Set<GateIdx> {
        self.constant_gates@
    }

    /// The computed gates, by key.
    pub closed spec fn spec_seen(&self) -> Map<u128, GateIdx> {
        self.seen@
    }

    /// The users of each gate.
    pub closed spec fn spec_users(&self) -> Seq<Set<GateIdx>> {
        self.liveness_wrt_usage.users()
    }

    /// The gates whose last use went away.
    pub closed spec fn spec_killing(&self) -> Set<GateIdx> {
        self.liveness_wrt_usage.killing()
    }

    /// The operations still looked at.
    pub closed spec fn spec_operations(&self) -> Seq<GateIdx> {
        self.operation_gates@
    }

    pub closed spec fn spec_q(&self) -> SupportedType {
        self.q
    }

    /// Every index the pass holds names a gate.
    pub closed spec fn ok(&self) -> bool {
        let n = gate_arena_items(self.gates).len();
        &&& n <= u32::MAX
        &&& operands_below(gate_arena_items(self.gates), n as int)
        &&& self.liveness_wrt_usage.wf()
        &&& self.liveness_wrt_usage.users().len() == n
        &&& forall|i: int, u: GateIdx|
            0 <= i < n && #[trigger] self.liveness_wrt_usage.users()[i].contains(u) ==> u < n
        &&& forall|u: GateIdx| #[trigger] self.liveness_wrt_usage.killing().contains(u) ==> u < n
        &&& forall|k: u128| #[trigger] self.seen@.contains_key(k) ==> self.seen@[k] < n
        &&& forall|j: int| 0 <= j < self.operation_gates@.len() ==> #[trigger] self.operation_gates@[j] < n
    }

    /// Learns the topology of a circuit: its operations, its constants, the users of each gate
    /// (an output counts as its own user, so that it stays alive) and the gates by key.
    pub fn new(circuit: &Circuit) -> (pass: Self)
        requires
            circuit_wf(circuit@),
        ensures
            pass.ok(),
            pass.spec_gates() == circuit@.gates,
            pass.spec_q() == circuit@.q,
            pass.spec_operations() == operations_upto(circuit@.gates, circuit@.gates.len() as int),
            pass.spec_constants() == constants_upto(circuit@.gates, circuit@.gates.len() as int),
            pass.spec_seen() == seen_upto(circuit@.gates, circuit@.gates.len() as int),
            pass.spec_dead() == Set::<GateIdx>::empty(),
            pass.spec_killing() == Set::<GateIdx>::empty(),
            pass.spec_users().len() == circuit@.gates.len(),
            forall|i: GateIdx, u: GateIdx|
                i < circuit@.gates.len() ==> (#[trigger] pass.spec_users()[i as int].contains(u) <==> topology_user(
                    circuit@,
                    i,
                    u,
                )),
            pass.live_ok(),
            pass.seen_ok(),
    {
        let q = circuit.q();
        let gates = gate_arena_clone(circuit.gates());
        let dead: HashSet<GateIdx> = HashSet::new();
        let (operation_gates, constant_gates, liveness_wrt_usage, seen) = learn_topology_of(circuit);
        let pass = Self { q, gates, dead, liveness_wrt_usage, seen, operation_gates, constant_gates };
        proof {
            let g = pass.spec_gates();
            assert(gates_wf(g));
            assert forall|v: GateIdx, x: GateIdx|
                v < g.len() && v as int != -1 && !pass.spec_killing().contains(v) && #[trigger] uses_operand(g[v as int], x)
                    implies pass.spec_users()[x as int].contains(v) by {
                assert(topology_user(circuit@, x, v));
                assert(x < g.len());
            }
            assert forall|v: GateIdx, x: GateIdx| v < g.len() && #[trigger] uses_operand(g[v as int], x) implies x < g.len()
                && !(g[x as int] is Thombstone) by {}
            lemma_seen_upto_keys(g, g.len() as int);
        }
        pass
    }

    /// The gates as the pass has rewritten them.
    pub fn gates(&self) -> (g: &Arena<Gate>)
        ensures
            gate_arena_items(*g) == self.spec_gates(),
    {
        &self.gates
    }
}

/// The indices of the operations among the first `k` gates, in order.
pub open spec fn operations_upto(gates: Seq<Gate>, k: int) -> Seq<GateIdx>
    decreases k,
{
    if k <= 0 {
        Seq::empty()
    } else if gates[k - 1] is BinOp {
        operations_upto(gates, k - 1).push((k - 1) as GateIdx)
    } else {
        operations_upto(gates, k - 1)
    }
}

/// The indices of the constants among the first `k` gates.
pub open spec fn constants_upto(gates: Seq<Gate>, k: int) -> Set<GateIdx> {
    Set::new(|i: GateIdx| i < k && gates[i as int] is Const)
}

/// The gates by key among the first `k` gates: each gate's key names it, a later gate with
/// the same key replacing an earlier one.
pub open spec fn seen_upto(gates: Seq<Gate>, k: int) -> Map<u128, GateIdx>
    decreases k,
{
    if k <= 0 {
        Map::empty()
    } else {
        with_key(seen_upto(gates, k - 1), gates[k - 1], (k - 1) as GateIdx)
    }
}

/// Gate `u` counts as a user of gate `i` of a circuit: it is an operation on `i`, or `i` is an
/// output and `u` is `i` itself.
pub open spec fn topology_user(c: CircuitView, i: GateIdx, u: GateIdx) -> bool {
    (u < c.gates.len() && uses_operand(c.gates[u as int], i)) || (u == i && c.outputs.contains(i))
}

/// Each gate found by key among the first `m` has that key.
proof fn lemma_seen_upto_keys(gates: Seq<Gate>, m: int)
    requires
        0 <= m <= gates.len(),
        gates.len() <= u32::MAX,
    ensures
        forall|k: u128|
            #[trigger] seen_upto(gates, m).contains_key(k) ==> seen_upto(gates, m)[k] < m && gate_key(
                gates[seen_upto(gates, m)[k] as int],
            ) == k,
    decreases m,
{
    if m > 0 {
        lemma_seen_upto_keys(gates, m - 1);
        let prev = seen_upto(gates, m - 1);
        let g = gates[m - 1];
        assert(seen_upto(gates, m) == with_key(prev, g, (m - 1) as GateIdx));
        assert forall|k: u128| #[trigger] seen_upto(gates, m).contains_key(k) implies seen_upto(
            gates,
            m,
        )[k] < m && gate_key(gates[seen_upto(gates, m)[k] as int]) == k by {
            if !(g is Thombstone) && k == gate_key(g) {
                assert(seen_upto(gates, m)[k] == (m - 1) as GateIdx);
            } else {
                assert(prev.contains_key(k));
                assert(seen_upto(gates, m)[k] == prev[k]);
            }
        }
    }
}

/// The operations, the constants, the users and the gates by key of a circuit.
fn learn_topology_of(circuit: &Circuit) -> (r: (Vec<GateIdx>, HashSet<GateIdx>, LivenessWRTUsage, HashMap<u128, GateIdx>))
    requires
        circuit_wf(circuit@),
    ensures
        ({
            let n = circuit@.gates.len();
            &&& r.0@ == operations_upto(circuit@.gates, n as int)
            &&& r.1@ == constants_upto(circuit@.gates, n as int)
            &&& r.3@ == seen_upto(circuit@.gates, n as int)
            &&& r.2.wf()
            &&& r.2.users().len() == n
            &&& forall|i: GateIdx, u: GateIdx|
                i < n ==> (#[trigger] r.2.users()[i as int].contains(u) <==> topology_user(circuit@, i, u))
            &&& r.2.killing() == Set::<GateIdx>::empty()
            &&& forall|i: int, u: GateIdx| 0 <= i < n && #[trigger] r.2.users()[i].contains(u) ==> u < n
            &&& forall|u: GateIdx| #[trigger] r.2.killing().contains(u) ==> u < n
            &&& forall|k: u128| #[trigger] r.3@.contains_key(k) ==> r.3@[k] < n
            &&& forall|j: int| 0 <= j < r.0@.len() ==> #[trigger] r.0@[j] < n
        }),
{
    let gates = circuit.gates();
    let ghost g = circuit@.gates;
    let mut operation_gates: Vec<GateIdx> = Vec::new();
    let mut constant_gates: HashSet<GateIdx> = HashSet::new();
    let len_gates = gate_arena_len(gates);
    let mut liveness_wrt_usage = LivenessWRTUsage::new(len_gates);
    let mut seen: HashMap<u128, GateIdx> = HashMap::new();
    let mut idx: usize = 0;
    proof {
        assert(constant_gates@ =~= constants_upto(g, 0));
        assert(seen@ =~= seen_upto(g, 0));
    }
    while idx < len_gates
        invariant
            circuit_wf(circuit@),
            g == circuit@.gates,
            gate_arena_items(*gates) == g,
            len_gates == g.len(),
            idx <= len_gates,
            operation_gates@ == operations_upto(g, idx as int),
            constant_gates@ == constants_upto(g, idx as int),
            seen@ == seen_upto(g, idx as int),
            liveness_wrt_usage.wf(),
            liveness_wrt_usage.users().len() == len_gates,
            liveness_wrt_usage.killing() == Set::<GateIdx>::empty(),
            forall|i: GateIdx, u: GateIdx|
                i < len_gates ==> (#[trigger] liveness_wrt_usage.users()[i as int].contains(u) <==> u < idx
                    && uses_operand(g[u as int], i)),
            forall|k: u128| #[trigger] seen@.contains_key(k) ==> seen@[k] < idx,
            forall|j: int| 0 <= j < operation_gates@.len() ==> #[trigger] operation_gates@[j] < idx,
        decreases len_gates - idx,
    {
        let gate_idx = idx as GateIdx;
        let gate = gate_arena_get(gates, gate_idx);
        let ghost before = liveness_wrt_usage;
        match gate {
            Gate::Const(_) => {
                constant_gates.insert(gate_idx);
            },
            Gate::BinOp(_, lhs_idx, rhs_idx) => {
                assert(lhs_idx < idx && rhs_idx < idx);
                operation_gates.push(gate_idx);
                liveness_wrt_usage.increment(lhs_idx, gate_idx);
                liveness_wrt_usage.increment(rhs_idx, gate_idx);
            },
            _ => {},
        }
        if let Some(k) = key_of(&gate) {
            seen.insert(k, gate_idx);
        }
        proof {
            assert(constant_gates@ =~= constants_upto(g, idx as int + 1));
            assert(seen@ =~= seen_upto(g, idx as int + 1));
            assert forall|i: GateIdx, u: GateIdx|
                i < len_gates implies (#[trigger] liveness_wrt_usage.users()[i as int].contains(u) <==> u < idx + 1
                    && uses_operand(g[u as int], i)) by {
                if u == gate_idx {
                } else {
                    assert(liveness_wrt_usage.users()[i as int].contains(u) == before.users()[i as int].contains(u));
                }
            }
        }
        idx = idx + 1;
    }
    let outputs = circuit.outputs();
    let mut j: usize = 0;
    while j < outputs.len()
        invariant
            circuit_wf(circuit@),
            g == circuit@.gates,
            outputs@ == circuit@.outputs,
            len_gates == circuit@.gates.len(),
            j <= outputs.len(),
            liveness_wrt_usage.wf(),
            liveness_wrt_usage.users().len() == len_gates,
            liveness_wrt_usage.killing() == Set::<GateIdx>::empty(),
            forall|i: GateIdx, u: GateIdx|
                i < len_gates ==> (#[trigger] liveness_wrt_usage.users()[i as int].contains(u) <==> (u < len_gates
                    && uses_operand(g[u as int], i)) || (u == i && outputs@.take(j as int).contains(i))),
        decreases outputs.len() - j,
    {
        let out_idx = outputs[j];
        assert(circuit@.outputs[j as int] < len_gates);
        let ghost before = liveness_wrt_usage;
        liveness_wrt_usage.increment(out_idx, out_idx);
        proof {
            assert(outputs@.take(j as int + 1) =~= outputs@.take(j as int).push(out_idx));
            assert forall|i: GateIdx, u: GateIdx|
                i < len_gates implies (#[trigger] liveness_wrt_usage.users()[i as int].contains(u) <==> (u < len_gates
                    && uses_operand(g[u as int], i)) || (u == i && outputs@.take(j as int + 1).contains(i))) by {
                if i != out_idx {
                    assert(liveness_wrt_usage.users()[i as int] == before.users()[i as int]);
                    if outputs@.take(j as int + 1).contains(i) {
                        let c = choose|c: int| 0 <= c < j + 1 && #[trigger] outputs@.take(j as int + 1)[c] == i;
                        assert(outputs@.take(j as int)[c] == i);
                    }
                } else {
                    assert(outputs@.take(j as int + 1)[j as int] == out_idx);
                }
            }
        }
        j = j + 1;
    }
    proof {
        assert(outputs@.take(outputs@.len() as int) =~= outputs@);
    }
    (operation_gates, constant_gates, liveness_wrt_usage, seen)
}

/// The shape `((a op b) op c)` (`is_lhs`) or `(a op (b op c))` found under an operation, with
/// the inner operation that a rewrite would replace.
#[derive(Debug, Clone, Copy)]
pub struct ReassociationCandidates {
    pub a: GateIdx,
    pub b: GateIdx,
    pub c: GateIdx,
    pub is_lhs: bool,
    pub instruction_to_reassociate: GateIdx,
}

/// The candidates under `lhs op rhs`: the left operand an operation of the same kind and the
/// right one an input or a constant, or the left one an input or a constant and the right one
/// an operation of the same kind.
pub open spec fn spec_candidates(gates: Seq<Gate>, op: BinOp, lhs_idx: GateIdx, rhs_idx: GateIdx) -> Option<
    ReassociationCandidates,
> {
    match gates[lhs_idx as int] {
        Gate::BinOp(child_op, a, b) => if child_op == op && (gates[rhs_idx as int] is Input || gates[rhs_idx as int] is Const) {
            Some(ReassociationCandidates { a, b, c: rhs_idx, is_lhs: true, instruction_to_reassociate: lhs_idx })
        } else {
            None
        },
        Gate::Input(_) | Gate::Const(_) => match gates[rhs_idx as int] {
            Gate::BinOp(child_op, b, c) => if child_op == op {
                Some(ReassociationCandidates { a: lhs_idx, b, c, is_lhs: false, instruction_to_reassociate: rhs_idx })
            } else {
                None
            },
            _ => None,
        },
        Gate::Thombstone => None,
    }
}

/// Finds the reassociation candidates under the operation `lhs op rhs`.
pub fn extract_reassociation_candidates(
    gates: &Arena<Gate>,
    current_instruction_bin_op: BinOp,
    lhs_idx: GateIdx,
    rhs_idx: GateIdx,
) -> (r: Option<ReassociationCandidates>)
    requires
        lhs_idx < gate_arena_items(*gates).len(),
        rhs_idx < gate_arena_items(*gates).len(),
    ensures
        r == spec_candidates(gate_arena_items(*gates), current_instruction_bin_op, lhs_idx, rhs_idx),
        operands_below(gate_arena_items(*gates), gate_arena_items(*gates).len() as int) ==> (r matches Some(c) ==> c.a
            < gate_arena_items(*gates).len() && c.b < gate_arena_items(*gates).len() && c.c < gate_arena_items(
            *gates,
        ).len() && c.instruction_to_reassociate < gate_arena_items(*gates).len()),
{
    let lhs_gate = gate_arena_get(gates, lhs_idx);
    let rhs_gate = gate_arena_get(gates, rhs_idx);
    match lhs_gate {
        Gate::BinOp(child_bin_op, a, b) => {
            if child_bin_op != current_instruction_bin_op {
                return None;
            }
            let c = match rhs_gate {
                Gate::Input(_) | Gate::Const(_) => rhs_idx,
                _ => return None,
            };
            Some(ReassociationCandidates { a, b, c, is_lhs: true, instruction_to_reassociate: lhs_idx })
        },
        Gate::Input(_) | Gate::Const(_) => {
            let (b, c) = match rhs_gate {
                Gate::BinOp(child_bin_op, b, c) => {
                    if child_bin_op != current_instruction_bin_op {
                        return None;
                    }
                    (b, c)
                },
                _ => return None,
            };
            Some(ReassociationCandidates { a: lhs_idx, b, c, is_lhs: false, instruction_to_reassociate: rhs_idx })
        },
        Gate::Thombstone => None,
    }
}

/// The usages a rewrite changes: the gates the rewritten operation no longer uses, and those it
/// uses now.
#[derive(Debug)]
pub struct UsageUpdate {
    pub to_severe_from_root: ThinVec<GateIdx>,
    pub to_connect_root: ThinVec<GateIdx>,
}

/// A rewrite of an operation.
#[derive(Debug)]
pub enum Reassociation {
    /// The operation reuses an operation computed elsewhere.
    Ternary { new_root: Gate, usage_update: UsageUpdate },
    /// Two constants come together and fold; the folded constant replaces the inner operation.
    Folding { new_root: Gate, folded_gate: Gate, replacing_index: GateIdx, usage_update: UsageUpdate },
}

/// The rewrite of an operation `op` whose inner operation is `instruction_to_rewrite`, trying
/// `new_ops.0 op new_ops.1` as the new inner operation, with `other` as the other operand:
/// reuse a gate computed for it before the inner operation, if one is and is not dead; else
/// fold, if both are constants.
pub open spec fn spec_form_a_gate(
    pass: ReassociationPass,
    bin_op_of_i: BinOp,
    instruction_to_rewrite: GateIdx,
    new_ops: (GateIdx, GateIdx),
    other: GateIdx,
    is_lhs: bool,
) -> Option<(Gate, Option<(Gate, GateIdx)>, Seq<GateIdx>, Seq<GateIdx>)> {
    let child = Gate::BinOp(bin_op_of_i, new_ops.0, new_ops.1);
    let key = gate_key(child);
    if pass.spec_seen().contains_key(key) && !pass.spec_dead().contains(pass.spec_seen()[key])
        && pass.spec_seen()[key] < instruction_to_rewrite {
        let found = pass.spec_seen()[key];
        let moved_in_child = if is_lhs {
            new_ops.1
        } else {
            new_ops.0
        };
        Some((Gate::BinOp(bin_op_of_i, found, other), None, seq![instruction_to_rewrite, moved_in_child], seq![found, other]))
    } else if pass.spec_constants().contains(new_ops.0) && pass.spec_constants().contains(new_ops.1)
        && pass.spec_gates()[new_ops.0 as int] is Const && pass.spec_gates()[new_ops.1 as int] is Const
        && gate_fold_ok(child, pass.spec_gates(), pass.spec_q()) {
        let severed = if is_lhs {
            new_ops.1
        } else {
            new_ops.0
        };
        Some(
            (
                Gate::BinOp(bin_op_of_i, instruction_to_rewrite, other),
                Some((spec_gate_fold(child, pass.spec_gates(), pass.spec_q()), instruction_to_rewrite)),
                seq![severed],
                seq![other],
            ),
        )
    } else {
        None
    }
}

/// A rewrite agrees with its description: the new operation, the folded gate and where it goes,
/// and the usages to cut and to add.
pub open spec fn describes(
    r: Reassociation,
    d: (Gate, Option<(Gate, GateIdx)>, Seq<GateIdx>, Seq<GateIdx>),
) -> bool {
    match r {
        Reassociation::Ternary { new_root, usage_update } => {
            &&& d.1 is None
            &&& new_root == d.0
            &&& idx_list_items(usage_update.to_severe_from_root) == d.2
            &&& idx_list_items(usage_update.to_connect_root) == d.3
        },
        Reassociation::Folding { new_root, folded_gate, replacing_index, usage_update } => {
            &&& d.1 == Some((folded_gate, replacing_index))
            &&& new_root == d.0
            &&& idx_list_items(usage_update.to_severe_from_root) == d.2
            &&& idx_list_items(usage_update.to_connect_root) == d.3
        },
    }
}

/// The operands of a gate are below `n`.
pub open spec fn gate_operands_below(g: Gate, n: int) -> bool {
    match g {
        Gate::BinOp(_, lhs, rhs) => lhs < n && rhs < n,
        _ => true,
    }
}

/// Every index a rewrite names is below `n`.
pub open spec fn rewrite_below(r: Reassociation, n: int) -> bool {
    match r {
        Reassociation::Ternary { new_root, usage_update } => {
            &&& gate_operands_below(new_root, n)
            &&& forall|k: int| 0 <= k < idx_list_items(usage_update.to_severe_from_root).len() ==> #[trigger] idx_list_items(usage_update.to_severe_from_root)[k] < n
            &&& forall|k: int| 0 <= k < idx_list_items(usage_update.to_connect_root).len() ==> #[trigger] idx_list_items(usage_update.to_connect_root)[k] < n
        },
        Reassociation::Folding { new_root, folded_gate, replacing_index, usage_update } => {
            &&& gate_operands_below(new_root, n)
            &&& gate_operands_below(folded_gate, n)
            &&& replacing_index < n
            &&& forall|k: int| 0 <= k < idx_list_items(usage_update.to_severe_from_root).len() ==> #[trigger] idx_list_items(usage_update.to_severe_from_root)[k] < n
            &&& forall|k: int| 0 <= k < idx_list_items(usage_update.to_connect_root).len() ==> #[trigger] idx_list_items(usage_update.to_connect_root)[k] < n
        },
    }
}

/// Whether a gate is a constant.
fn is_const_gate(gate: Gate) -> (b: bool)
    ensures
        b == gate is Const,
{
    match gate {
        Gate::Const(_) => true,
        _ => false,
    }
}

/// Tries `new_ops.0 op new_ops.1` as the new inner operation.
fn form_a_gate(
    bin_op_of_i: BinOp,
    instruction_to_rewrite: GateIdx,
    ops: ((GateIdx, GateIdx), GateIdx),
    is_lhs: bool,
    reassociation_pass: &ReassociationPass,
) -> (r: Option<Reassociation>)
    requires
        reassociation_pass.ok(),
        instruction_to_rewrite < reassociation_pass.size(),
        ops.0.0 < reassociation_pass.size(),
        ops.0.1 < reassociation_pass.size(),
        ops.1 < reassociation_pass.size(),
    ensures
        match spec_form_a_gate(*reassociation_pass, bin_op_of_i, instruction_to_rewrite, ops.0, ops.1, is_lhs) {
            Some(d) => r matches Some(re) && describes(re, d),
            None => r is None,
        },
        r matches Some(re) ==> rewrite_below(re, reassociation_pass.size() as int),
{
    let (new_ops, other) = ops;
    let new_reassociated_child = Gate::BinOp(bin_op_of_i, new_ops.0, new_ops.1);
    let key = hash_key_of(&gate_hash(&new_reassociated_child));
    match reassociation_pass.seen.get(&key) {
        Some(found) => {
            let new_reassoc_gate_idx = *found;
            // Only an operation that comes before may be reused: it dominates the rewritten one.
            if !reassociation_pass.dead.contains(&new_reassoc_gate_idx) && new_reassoc_gate_idx < instruction_to_rewrite {
                let new_root = Gate::BinOp(bin_op_of_i, new_reassoc_gate_idx, other);
                let moved_in_child = if is_lhs {
                    new_ops.1
                } else {
                    new_ops.0
                };
                let usage_update = UsageUpdate {
                    to_severe_from_root: idx_list_from_vec(vec![instruction_to_rewrite, moved_in_child]),
                    to_connect_root: idx_list_from_vec(vec![new_reassoc_gate_idx, other]),
                };
                proof {
                    assert(idx_list_items(usage_update.to_severe_from_root) =~= seq![instruction_to_rewrite, moved_in_child]);
                    assert(idx_list_items(usage_update.to_connect_root) =~= seq![new_reassoc_gate_idx, other]);
                }
                return Some(Reassociation::Ternary { new_root, usage_update });
            }
        },
        None => {},
    }
    // The operands fold when both are constants: listed as constants, and still constant gates
    // (a constant that died as an operand stays listed).
    if reassociation_pass.constant_gates.contains(&new_ops.0) && reassociation_pass.constant_gates.contains(&new_ops.1)
        && is_const_gate(gate_arena_get(&reassociation_pass.gates, new_ops.0))
        && is_const_gate(gate_arena_get(&reassociation_pass.gates, new_ops.1))
        && fold_fits(new_reassociated_child, &reassociation_pass.gates, reassociation_pass.q) {
        let folded_gate = fold(new_reassociated_child, &reassociation_pass.gates, reassociation_pass.q);
        let to_severe_from_root = if is_lhs {
            new_ops.1
        } else {
            new_ops.0
        };
        let usage_update = UsageUpdate {
            to_severe_from_root: idx_list_from_vec(vec![to_severe_from_root]),
            to_connect_root: idx_list_from_vec(vec![other]),
        };
        proof {
            assert(idx_list_items(usage_update.to_severe_from_root) =~= seq![to_severe_from_root]);
            assert(idx_list_items(usage_update.to_connect_root) =~= seq![other]);
        }
        let new_root = Gate::BinOp(bin_op_of_i, instruction_to_rewrite, other);
        let replacing_index = instruction_to_rewrite;
        return Some(Reassociation::Folding { new_root, folded_gate, replacing_index, usage_update });
    }
    None
}

/// Tries the rewrites of a candidate shape: for `((a op b) op c)` the inner operations
/// `a op c` (with `b` outside) then `b op c` (with `a` outside); for `(a op (b op c))` the inner
/// operations `a op c` (with `b` outside) then `a op b` (with `c` outside).
pub fn try_reassociate_candidates(
    reassociation_candidate: ReassociationCandidates,
    bin_op_of_i: BinOp,
    reassociation_pass: &mut ReassociationPass,
) -> (r: Option<Reassociation>)
    requires
        old(reassociation_pass).ok(),
        reassociation_candidate.a < old(reassociation_pass).size(),
        reassociation_candidate.b < old(reassociation_pass).size(),
        reassociation_candidate.c < old(reassociation_pass).size(),
        reassociation_candidate.instruction_to_reassociate < old(reassociation_pass).size(),
    ensures
        *final(reassociation_pass) == *old(reassociation_pass),
        r matches Some(re) ==> rewrite_below(re, old(reassociation_pass).size() as int),
        ({
            let ReassociationCandidates { a, b, c, is_lhs, instruction_to_reassociate: i } = reassociation_candidate;
            let second = if is_lhs {
                ((b, c), a)
            } else {
                ((a, b), c)
            };
            let first_try = spec_form_a_gate(*old(reassociation_pass), bin_op_of_i, i, (a, c), b, is_lhs);
            let second_try = spec_form_a_gate(*old(reassociation_pass), bin_op_of_i, i, second.0, second.1, is_lhs);
            match first_try {
                Some(d) => r matches Some(re) && describes(re, d),
                None => match second_try {
                    Some(d) => r matches Some(re) && describes(re, d),
                    None => r is None,
                },
            }
        }),
{
    let ReassociationCandidates { a, b, c, is_lhs, instruction_to_reassociate: instruction_to_rewrite } =
        reassociation_candidate;
    let left_right = (a, c);
    let (with_mid, other) = if is_lhs {
        ((b, c), a)
    } else {
        ((a, b), c)
    };
    let first = form_a_gate(bin_op_of_i, instruction_to_rewrite, (left_right, b), is_lhs, reassociation_pass);
    if first.is_some() {
        return first;
    }
    form_a_gate(bin_op_of_i, instruction_to_rewrite, (with_mid, other), is_lhs, reassociation_pass)
}

/// A set of indices below `n` that misses one of them has fewer than `n` elements.
proof fn lemma_partial_range_len(s: Set<int>, n: int, missing: int)
    requires
        0 <= missing < n,
        !s.contains(missing),
        forall|i: int| #[trigger] s.contains(i) ==> 0 <= i < n,
    ensures
        s.finite(),
        s.len() < n,
{
    let r = vstd::set_lib::set_int_range(0, n);
    vstd::set_lib::lemma_int_range(0, n);
    assert(s.insert(missing).subset_of(r));
    vstd::set_lib::lemma_len_subset(s.insert(missing), r);
    assert(s.subset_of(r));
    vstd::set_lib::lemma_set_subset_finite(r, s);
}

/// Gate `g` is an operation with `i` as an operand.
pub open spec fn uses_operand(g: Gate, i: GateIdx) -> bool {
    match g {
        Gate::BinOp(_, l, r) => l == i || r == i,
        _ => false,
    }
}

/// A use that a cascade started by `by` on `from` changes: `by` on `from`, or an expanded
/// operation `d` on one of its operands `i`.
pub open spec fn cascade_pair(gates: Seq<Gate>, from: GateIdx, by: GateIdx, e: Set<int>, i: GateIdx, d: GateIdx) -> bool {
    (i == from && d == by) || (e.contains(d as int) && uses_operand(gates[d as int], i))
}

/// A gate a cascade from `from` that expanded the operations `e` reaches.
pub open spec fn cascade_reaches(gates: Seq<Gate>, from: GateIdx, e: Set<int>, i: GateIdx) -> bool {
    i == from || exists|g: int| #[trigger] e.contains(g) && uses_operand(gates[g], i)
}

/// `by` no longer uses `from`; each operation `e` holds was left without users and no longer
/// uses its operands, and every operation the cascade reaches and leaves without users is in
/// `e`. A gate the cascade reaches and leaves without users joins the killing list.
pub open spec fn decrement_cascade(
    gates: Seq<Gate>,
    from: GateIdx,
    by: GateIdx,
    u0: Seq<Set<GateIdx>>,
    k0: Set<GateIdx>,
    u1: Seq<Set<GateIdx>>,
    k1: Set<GateIdx>,
    e: Set<int>,
) -> bool {
    &&& u1.len() == u0.len()
    &&& forall|i: GateIdx, d: GateIdx|
        i < u0.len() ==> (#[trigger] u1[i as int].contains(d) <==> u0[i as int].contains(d) && !cascade_pair(
            gates,
            from,
            by,
            e,
            i,
            d,
        ))
    &&& forall|g: int|
        #[trigger] e.contains(g) ==> 0 <= g < u0.len() && gates[g] is BinOp && u1[g].len() == 0 && cascade_reaches(
            gates,
            from,
            e,
            g as GateIdx,
        )
    &&& forall|i: GateIdx|
        i < u0.len() && cascade_reaches(gates, from, e, i) && #[trigger] u1[i as int].len() == 0 && gates[i as int] is BinOp
            ==> e.contains(i as int)
    &&& forall|i: GateIdx|
        #[trigger] k1.contains(i) <==> k0.contains(i) || (i < u0.len() && cascade_reaches(gates, from, e, i)
            && u1[i as int].len() == 0)
    &&& topological(gates) ==> forall|g: int| #[trigger] e.contains(g) ==> g <= from
}

/// `by` uses `from`; each operation `e` holds had at most one user before and uses its operands
/// again, and every operation the cascade reaches that had no users is in `e`. A gate the
/// cascade reaches that had no users leaves the killing list; the gates that leave it are
/// reached and had at most one user.
pub open spec fn increment_cascade(
    gates: Seq<Gate>,
    from: GateIdx,
    by: GateIdx,
    u0: Seq<Set<GateIdx>>,
    k0: Set<GateIdx>,
    u1: Seq<Set<GateIdx>>,
    k1: Set<GateIdx>,
    e: Set<int>,
) -> bool {
    &&& u1.len() == u0.len()
    &&& forall|i: GateIdx, d: GateIdx|
        i < u0.len() ==> (#[trigger] u1[i as int].contains(d) <==> u0[i as int].contains(d) || cascade_pair(
            gates,
            from,
            by,
            e,
            i,
            d,
        ))
    &&& forall|g: int|
        #[trigger] e.contains(g) ==> 0 <= g < u0.len() && gates[g] is BinOp && u0[g].len() <= 1 && cascade_reaches(
            gates,
            from,
            e,
            g as GateIdx,
        )
    &&& forall|i: GateIdx|
        i < u0.len() && cascade_reaches(gates, from, e, i) && #[trigger] u0[i as int].len() == 0 && gates[i as int] is BinOp
            ==> e.contains(i as int)
    &&& forall|i: GateIdx| #[trigger] k1.contains(i) ==> k0.contains(i)
    &&& forall|i: GateIdx|
        i < u0.len() && #[trigger] k0.contains(i) && !k1.contains(i) ==> cascade_reaches(gates, from, e, i)
            && u0[i as int].len() <= 1
    &&& forall|i: GateIdx|
        i < u0.len() && cascade_reaches(gates, from, e, i) && #[trigger] u0[i as int].len() == 0 ==> !k1.contains(i)
    &&& topological(gates) ==> forall|g: int| #[trigger] e.contains(g) ==> g <= from
}

/// A decrement of gate `g` that leaves `rem` users keeps the killing list as the gates on it
/// before, and the touched gates left without users.
proof fn lemma_killing_after_decrement(
    k0: Set<GateIdx>,
    kb: Set<GateIdx>,
    ka: Set<GateIdx>,
    ub: Seq<Set<GateIdx>>,
    ua: Seq<Set<GateIdx>>,
    tb: Set<GateIdx>,
    ta: Set<GateIdx>,
    n: nat,
    g: GateIdx,
    rem: nat,
)
    requires
        g < n,
        ub.len() == n,
        ua.len() == n,
        forall|i: int| 0 <= i < n && i != g ==> #[trigger] ua[i] == ub[i],
        ua[g as int].len() == rem,
        ub[g as int].len() == 0 ==> rem == 0,
        ka == if rem == 0 {
            kb.insert(g)
        } else {
            kb
        },
        ta == tb.insert(g),
        forall|i: GateIdx|
            #[trigger] kb.contains(i) <==> k0.contains(i) || (i < n && tb.contains(i) && ub[i as int].len() == 0),
    ensures
        forall|i: GateIdx|
            #[trigger] ka.contains(i) <==> k0.contains(i) || (i < n && ta.contains(i) && ua[i as int].len() == 0),
{
    assert forall|i: GateIdx|
        #[trigger] ka.contains(i) <==> k0.contains(i) || (i < n && ta.contains(i) && ua[i as int].len() == 0) by {
        if i != g {
            assert(kb.contains(i) <==> k0.contains(i) || (i < n && tb.contains(i) && ub[i as int].len() == 0));
            if i < n {
                assert(ua[i as int] == ub[i as int]);
            }
        } else {
            assert(kb.contains(i) <==> k0.contains(i) || (i < n && tb.contains(i) && ub[i as int].len() == 0));
        }
    }
}

/// A gate that is not on the killing list, and is not `w`, is counted among the users of each of
/// its operands.
pub open spec fn users_listed(gates: Seq<Gate>, users: Seq<Set<GateIdx>>, killing: Set<GateIdx>, w: int) -> bool {
    forall|v: GateIdx, x: GateIdx|
        v < gates.len() && v as int != w && !killing.contains(v) && #[trigger] uses_operand(gates[v as int], x)
            ==> users[x as int].contains(v)
}

/// A gate with a user is no tombstone.
pub open spec fn used_not_dead(gates: Seq<Gate>, users: Seq<Set<GateIdx>>) -> bool {
    forall|v: GateIdx, d: GateIdx|
        v < gates.len() && #[trigger] users[v as int].contains(d) ==> !(gates[v as int] is Thombstone)
}

/// A gate on the killing list has no users.
pub open spec fn killing_unused(users: Seq<Set<GateIdx>>, killing: Set<GateIdx>) -> bool {
    forall|v: GateIdx|
        #[trigger] killing.contains(v) ==> v < users.len() && forall|d: GateIdx| !#[trigger] users[v as int].contains(d)
}

/// The operands of an operation are no tombstones.
pub open spec fn operands_alive(gates: Seq<Gate>) -> bool {
    forall|v: GateIdx, x: GateIdx|
        v < gates.len() && #[trigger] uses_operand(gates[v as int], x) ==> x < gates.len() && !(gates[x as int] is Thombstone)
}

/// Every set of users is finite.
pub open spec fn users_finite(users: Seq<Set<GateIdx>>) -> bool {
    forall|v: int| 0 <= v < users.len() ==> #[trigger] users[v].finite()
}

/// A finite set with a member has a length above zero, and one without has length zero.
proof fn lemma_members_len(s: Set<GateIdx>)
    requires
        s.finite(),
    ensures
        (exists|d: GateIdx| s.contains(d)) <==> s.len() > 0,
{
    vstd::set_lib::lemma_set_empty_equivalency_len(s);
    if !(exists|d: GateIdx| s.contains(d)) {
        assert(s =~= Set::<GateIdx>::empty());
    }
}

/// A decrement cascade by `w` keeps the users of the gates other than `w` listed, the killing
/// list without users and the gates with users alive.
proof fn lemma_decrement_keeps_listing(
    gates: Seq<Gate>,
    from: GateIdx,
    w: GateIdx,
    u0: Seq<Set<GateIdx>>,
    k0: Set<GateIdx>,
    u1: Seq<Set<GateIdx>>,
    k1: Set<GateIdx>,
    e: Set<int>,
)
    requires
        decrement_cascade(gates, from, w, u0, k0, u1, k1, e),
        u0.len() == gates.len(),
        operands_below(gates, gates.len() as int),
        users_finite(u1),
        users_listed(gates, u0, k0, w as int),
        killing_unused(u0, k0),
        used_not_dead(gates, u0),
    ensures
        users_listed(gates, u1, k1, w as int),
        killing_unused(u1, k1),
        used_not_dead(gates, u1),
{
    assert forall|v: GateIdx, x: GateIdx|
        v < gates.len() && v as int != w as int && !k1.contains(v) && #[trigger] uses_operand(gates[v as int], x)
            implies u1[x as int].contains(v) by {
        assert(!k0.contains(v));
        assert(u0[x as int].contains(v));
        if e.contains(v as int) {
            lemma_members_len(u1[v as int]);
            assert(cascade_reaches(gates, from, e, v));
        }
        assert(x < u0.len()) by {
            assert(operands_below(gates, gates.len() as int));
            assert(match gates[v as int] {
                Gate::BinOp(_, lhs, rhs) => lhs < gates.len() && rhs < gates.len(),
                _ => true,
            });
        }
    }
    assert forall|v: GateIdx| #[trigger] k1.contains(v) implies v < u1.len() && forall|d: GateIdx|
        !#[trigger] u1[v as int].contains(d) by {
        if k0.contains(v) {
            assert forall|d: GateIdx| !#[trigger] u1[v as int].contains(d) by {
                assert(!u0[v as int].contains(d));
            }
        } else {
            lemma_members_len(u1[v as int]);
        }
    }
}

/// An increment cascade keeps the users of the gates other than `w` listed, the killing list
/// without users and the gates with users alive, from a gate that is alive.
proof fn lemma_increment_keeps_listing(
    gates: Seq<Gate>,
    from: GateIdx,
    w: GateIdx,
    u0: Seq<Set<GateIdx>>,
    k0: Set<GateIdx>,
    u1: Seq<Set<GateIdx>>,
    k1: Set<GateIdx>,
    e: Set<int>,
)
    requires
        increment_cascade(gates, from, w, u0, k0, u1, k1, e),
        u0.len() == gates.len(),
        from < gates.len(),
        users_finite(u0),
        users_listed(gates, u0, k0, w as int),
        killing_unused(u0, k0),
        used_not_dead(gates, u0),
        operands_alive(gates),
        !(gates[from as int] is Thombstone),
    ensures
        users_listed(gates, u1, k1, w as int),
        killing_unused(u1, k1),
        used_not_dead(gates, u1),
{
    assert forall|v: GateIdx, x: GateIdx|
        v < gates.len() && v as int != w as int && !k1.contains(v) && #[trigger] uses_operand(gates[v as int], x)
            implies u1[x as int].contains(v) by {
        assert(x < u0.len()) by {
            assert(operands_alive(gates));
        }
        if !k0.contains(v) {
            assert(u0[x as int].contains(v));
        } else {
            assert(cascade_reaches(gates, from, e, v) && u0[v as int].len() <= 1);
            lemma_members_len(u0[v as int]);
            assert(u0[v as int].len() == 0) by {
                if u0[v as int].len() > 0 {
                    let d = choose|d: GateIdx| u0[v as int].contains(d);
                    assert(killing_unused(u0, k0));
                    assert(!u0[v as int].contains(d));
                }
            }
            assert(e.contains(v as int));
            assert(cascade_pair(gates, from, w, e, x, v));
        }
    }
    assert forall|v: GateIdx| #[trigger] k1.contains(v) implies v < u1.len() && forall|d: GateIdx|
        !#[trigger] u1[v as int].contains(d) by {
        assert(k0.contains(v));
        lemma_members_len(u0[v as int]);
        assert(u0[v as int].len() == 0) by {
            if u0[v as int].len() > 0 {
                let d2 = choose|d2: GateIdx| u0[v as int].contains(d2);
                assert(!u0[v as int].contains(d2));
            }
        }
        assert forall|d: GateIdx| !#[trigger] u1[v as int].contains(d) by {
            assert(!u0[v as int].contains(d));
            if u1[v as int].contains(d) {
                assert(cascade_pair(gates, from, w, e, v, d));
                lemma_reaches_of_pair(gates, from, w, e, v, d);
            }
        }
    }
    assert forall|v: GateIdx, d: GateIdx| v < gates.len() && #[trigger] u1[v as int].contains(d) implies !(
    gates[v as int] is Thombstone) by {
        if !u0[v as int].contains(d) {
            assert(cascade_pair(gates, from, w, e, v, d));
            if !(v == from && d == w) {
                assert(uses_operand(gates[d as int], v));
                assert(d < gates.len());
            }
        }
    }
}

/// The users are listed for every gate but `w`, the killing list has no users, and a gate with
/// users is no tombstone.
pub open spec fn listing(gates: Seq<Gate>, users: Seq<Set<GateIdx>>, killing: Set<GateIdx>, w: int) -> bool {
    &&& users_listed(gates, users, killing, w)
    &&& killing_unused(users, killing)
    &&& used_not_dead(gates, users)
}

/// The gates a rewrite connects to, and the one it folds into, are no tombstones.
pub open spec fn rewrite_alive(gates: Seq<Gate>, r: Reassociation) -> bool {
    &&& forall|k: int|
        0 <= k < connected(r).len() ==> connected(r)[k] < gates.len() && !(gates[#[trigger] connected(r)[k] as int] is Thombstone)
    &&& (r matches Reassociation::Folding { replacing_index, .. } ==> replacing_index < gates.len() && !(
    gates[replacing_index as int] is Thombstone))
}

/// The new operation of a rewrite uses the gates it connects to, and for a folding the folded
/// gate, which it neither cuts nor connects.
pub open spec fn rewrite_shape(r: Reassociation) -> bool {
    match r {
        Reassociation::Ternary { new_root, .. } => new_root matches Gate::BinOp(_, x, y) && connected(r).contains(x)
            && connected(r).contains(y),
        Reassociation::Folding { new_root, replacing_index, .. } => {
            &&& new_root matches Gate::BinOp(_, x, y) && x == replacing_index && connected(r).contains(y)
            &&& !severed(r).contains(replacing_index)
            &&& !connected(r).contains(replacing_index)
        },
    }
}

/// Where a folding puts its constant: the index of its inner operation.
pub open spec fn folded_index(r: Reassociation) -> GateIdx {
    match r {
        Reassociation::Ternary { .. } => 0,
        Reassociation::Folding { replacing_index, .. } => replacing_index,
    }
}

/// Setting the new operation at `root`, on operands before it that are alive, keeps the users
/// listed for the other gates, the gates with users alive and the operands alive.
proof fn lemma_root_set_listing(
    before: Seq<Gate>,
    after: Seq<Gate>,
    users: Seq<Set<GateIdx>>,
    killing: Set<GateIdx>,
    new_root: Gate,
    root: GateIdx,
)
    requires
        root < before.len(),
        after == before.update(root as int, new_root),
        new_root matches Gate::BinOp(_, x, y) && x < before.len() && y < before.len() && !(before[x as int] is Thombstone)
            && !(before[y as int] is Thombstone) && x != root && y != root,
        listing(before, users, killing, root as int),
        operands_alive(before),
    ensures
        listing(after, users, killing, root as int),
        operands_alive(after),
{
    assert forall|v: GateIdx, x: GateIdx|
        v < after.len() && v as int != root as int && !killing.contains(v) && #[trigger] uses_operand(after[v as int], x)
            implies users[x as int].contains(v) by {
        assert(uses_operand(before[v as int], x));
    }
    assert forall|v: GateIdx, d: GateIdx| v < after.len() && #[trigger] users[v as int].contains(d) implies !(
    after[v as int] is Thombstone) by {
        if v != root {
            assert(!(before[v as int] is Thombstone));
        }
    }
    assert forall|v: GateIdx, x: GateIdx| v < after.len() && #[trigger] uses_operand(after[v as int], x) implies x
        < after.len() && !(after[x as int] is Thombstone) by {
        if v != root {
            assert(uses_operand(before[v as int], x));
        }
    }
}

/// A use a cascade changes reaches its gate.
proof fn lemma_reaches_of_pair(gates: Seq<Gate>, from: GateIdx, by: GateIdx, e: Set<int>, i: GateIdx, d: GateIdx)
    requires
        cascade_pair(gates, from, by, e, i, d),
    ensures
        cascade_reaches(gates, from, e, i),
{
    if i != from || d != by {
        assert(e.contains(d as int) && uses_operand(gates[d as int], i));
    }
}

/// Expanding one more operation keeps what a cascade reached and the uses it changed.
proof fn lemma_cascade_grow(gates: Seq<Gate>, from: GateIdx, by: GateIdx, e: Set<int>, x: int)
    ensures
        forall|i: GateIdx| #[trigger] cascade_reaches(gates, from, e, i) ==> cascade_reaches(gates, from, e.insert(x), i),
        forall|i: GateIdx, d: GateIdx|
            #[trigger] cascade_pair(gates, from, by, e, i, d) ==> cascade_pair(gates, from, by, e.insert(x), i, d),
{
    assert forall|i: GateIdx| #[trigger] cascade_reaches(gates, from, e, i) implies cascade_reaches(
        gates,
        from,
        e.insert(x),
        i,
    ) by {
        if i != from {
            let w = choose|w: int| #[trigger] e.contains(w) && uses_operand(gates[w], i);
            assert(e.insert(x).contains(w));
        }
    }
}

impl ReassociationPass {
    /// The fields other than the usages are as they were.
    pub closed spec fn same_but_usages(&self, other: &Self) -> bool {
        &&& self.q == other.q
        &&& self.gates == other.gates
        &&& self.dead == other.dead
        &&& self.seen == other.seen
        &&& self.operation_gates == other.operation_gates
        &&& self.constant_gates == other.constant_gates
    }

    /// The users of the pass agree with its gates: they are listed for every gate off the
    /// killing list, which has no users; a gate with users is no tombstone, nor is an operand;
    /// the dead gates are the tombstones, and no operation still looked at is dead.
    pub closed spec fn live_ok(&self) -> bool {
        &&& listing(self.spec_gates(), self.spec_users(), self.spec_killing(), -1)
        &&& operands_alive(self.spec_gates())
        &&& forall|v: GateIdx|
            v < self.size() ==> (#[trigger] self.dead@.contains(v) <==> self.spec_gates()[v as int] is Thombstone)
        &&& forall|j: int| 0 <= j < self.operation_gates@.len() ==> !self.dead@.contains(#[trigger] self.operation_gates@[j])
    }

    /// Every gate found by key and not dead has that key.
    pub closed spec fn seen_ok(&self) -> bool {
        forall|k: u128|
            #[trigger] self.seen@.contains_key(k) && !self.dead@.contains(self.seen@[k]) ==> self.seen@[k] < self.size()
                && gate_key(self.spec_gates()[self.seen@[k] as int]) == k
    }

    /// `dec` no longer uses `from`; a gate left without users no longer uses its operands,
    /// and so on down.
    #[verifier::spinoff_prover]
    fn propagated_decrement(&mut self, from: GateIdx, dec: GateIdx)
        requires
            old(self).ok(),
            from < old(self).size(),
        ensures
            final(self).ok(),
            final(self).same_but_usages(old(self)),
            exists|e: Set<int>|
                decrement_cascade(
                    old(self).spec_gates(),
                    from,
                    dec,
                    old(self).spec_users(),
                    old(self).spec_killing(),
                    final(self).spec_users(),
                    final(self).spec_killing(),
                    e,
                ),
    {
        let n = gate_arena_len(&self.gates);
        let mut expanded: Vec<bool> = Vec::new();
        let mut e: usize = 0;
        while e < n
            invariant
                e <= n,
                expanded@.len() == e,
                forall|i: int| 0 <= i < e ==> !#[trigger] expanded@[i],
            decreases n - e,
        {
            expanded.push(false);
            e = e + 1;
        }
        let ghost mut exp: Set<int> = Set::empty();
        let ghost mut done: Set<(GateIdx, GateIdx)> = Set::empty();
        let ghost mut touched: Set<GateIdx> = Set::empty();
        let mut num_expanded: usize = 0;
        let mut stack: Vec<(GateIdx, GateIdx)> = vec![(from, dec)];
        let ghost start = *self;
        let ghost g0 = start.spec_gates();
        let ghost u0 = start.spec_users();
        let ghost k0 = start.spec_killing();
        proof {
            assert forall|i: GateIdx, d: GateIdx| #[trigger] cascade_pair(g0, from, dec, exp, i, d) implies done.contains((i, d))
                || exists|k: int| 0 <= k < stack@.len() && stack@[k] == (i, d) by {
                assert(stack@[0] == (from, dec));
            }
        }
        while stack.len() > 0
            invariant
                self.ok(),
                self.same_but_usages(&start),
                start.ok(),
                g0 == start.spec_gates(),
                u0 == start.spec_users(),
                k0 == start.spec_killing(),
                from < n,
                n == self.size(),
                n == start.size(),
                expanded@.len() == n,
                forall|i: int| 0 <= i < n ==> (#[trigger] expanded@[i] <==> exp.contains(i)),
                forall|i: int| #[trigger] exp.contains(i) ==> 0 <= i < n,
                exp.finite(),
                num_expanded == exp.len(),
                num_expanded <= n,
                forall|k: int| 0 <= k < stack@.len() ==> #[trigger] stack@[k].0 < n,
                forall|k: int|
                    0 <= k < stack@.len() ==> cascade_pair(g0, from, dec, exp, #[trigger] stack@[k].0, stack@[k].1),
                forall|i: GateIdx, d: GateIdx|
                    i < n ==> (#[trigger] self.spec_users()[i as int].contains(d) <==> u0[i as int].contains(d)
                        && !done.contains((i, d))),
                forall|i: GateIdx, d: GateIdx| #[trigger] done.contains((i, d)) ==> cascade_pair(g0, from, dec, exp, i, d),
                forall|i: GateIdx, d: GateIdx| #[trigger] done.contains((i, d)) ==> touched.contains(i),
                forall|i: GateIdx, d: GateIdx|
                    #[trigger] cascade_pair(g0, from, dec, exp, i, d) ==> done.contains((i, d)) || exists|k: int|
                        0 <= k < stack@.len() && stack@[k] == (i, d),
                forall|g: int|
                    #[trigger] exp.contains(g) ==> g0[g] is BinOp && self.spec_users()[g].len() == 0 && cascade_reaches(
                        g0,
                        from,
                        exp,
                        g as GateIdx,
                    ),
                forall|i: GateIdx, d: GateIdx|
                    #[trigger] done.contains((i, d)) && self.spec_users()[i as int].len() == 0 && g0[i as int] is BinOp
                        ==> exp.contains(i as int),
                forall|i: GateIdx| #[trigger] touched.contains(i) ==> i < n && cascade_reaches(g0, from, exp, i),
                forall|i: GateIdx|
                    #[trigger] self.spec_killing().contains(i) <==> k0.contains(i) || (i < n && touched.contains(i)
                        && self.spec_users()[i as int].len() == 0),
                topological(g0) ==> forall|k: int| 0 <= k < stack@.len() ==> #[trigger] stack@[k].0 <= from,
                topological(g0) ==> forall|x: int| #[trigger] exp.contains(x) ==> x <= from,
            decreases stack@.len() + 2 * (n - num_expanded),
        {
            let ghost before = *self;
            let ghost stack_before = stack@;
            let ghost exp_before = exp;
            let ghost done_before = done;
            let ghost touched_before = touched;
            let (g, d) = stack.pop().unwrap();
            proof {
                assert(stack_before[stack_before.len() - 1] == (g, d));
                assert(stack@ =~= stack_before.drop_last());
                lemma_reaches_of_pair(g0, from, dec, exp, g, d);
                before.liveness_wrt_usage.lemma_users_finite();
            }
            let remaining = self.liveness_wrt_usage.decrement(g, d);
            proof {
                done = done.insert((g, d));
                touched = touched.insert(g);
                assert(self.spec_users()[g as int] == before.spec_users()[g as int].remove(d));
                if before.spec_users()[g as int].len() == 0 {
                    vstd::set_lib::lemma_set_empty_equivalency_len(before.spec_users()[g as int]);
                    assert(self.spec_users()[g as int] =~= Set::<GateIdx>::empty());
                }
            }
            proof {
                assert(before.spec_users()[g as int].len() == 0 ==> remaining == 0);
                lemma_killing_after_decrement(
                    k0,
                    before.spec_killing(),
                    self.spec_killing(),
                    before.spec_users(),
                    self.spec_users(),
                    touched_before,
                    touched,
                    n as nat,
                    g,
                    remaining as nat,
                );
            }
            let ghost stack_mid = stack@;
            if remaining == 0 && !expanded[g as usize] {
                let gate = gate_arena_get(&self.gates, g);
                if let Gate::BinOp(_, lhs, rhs) = gate {
                    proof {
                        lemma_partial_range_len(exp, n as int, g as int);
                    }
                    expanded.set(g as usize, true);
                    proof {
                        lemma_cascade_grow(g0, from, dec, exp, g as int);
                        exp = exp.insert(g as int);
                    }
                    num_expanded = num_expanded + 1;
                    proof {
                        if topological(g0) {
                            assert(gate_operands_below(g0[g as int], g as int));
                        }
                    }
                    stack.push((rhs, g));
                    stack.push((lhs, g));
                    proof {
                        assert(stack@[stack_mid.len() as int] == (rhs, g));
                        assert(stack@[stack_mid.len() as int + 1] == (lhs, g));
                    }
                }
            }
            proof {
                assert(forall|k: int| 0 <= k < stack_mid.len() ==> stack@[k] == #[trigger] stack_mid[k]);
                assert forall|i: GateIdx, d2: GateIdx| #[trigger] cascade_pair(g0, from, dec, exp, i, d2) implies done.contains(
                    (i, d2),
                ) || exists|k: int| 0 <= k < stack@.len() && stack@[k] == (i, d2) by {
                    if cascade_pair(g0, from, dec, exp_before, i, d2) {
                        if !done_before.contains((i, d2)) {
                            let k = choose|k: int| 0 <= k < stack_before.len() && stack_before[k] == (i, d2);
                            if k < stack_mid.len() {
                                assert(stack@[k] == (i, d2));
                            }
                        }
                    } else {
                        assert(exp.contains(d2 as int) && d2 == g);
                        if let Gate::BinOp(_, l, r) = g0[g as int] {
                            if i == r {
                                assert(stack@[stack_mid.len() as int] == (i, d2));
                            } else {
                                assert(stack@[stack_mid.len() as int + 1] == (i, d2));
                            }
                        }
                    }
                }
            }
        }
        proof {
            assert forall|i: GateIdx, d: GateIdx| #[trigger] cascade_pair(g0, from, dec, exp, i, d) implies done.contains((i, d)) by {}
            assert forall|i: GateIdx| i < n && #[trigger] cascade_reaches(g0, from, exp, i) implies touched.contains(i) by {
                if i != from {
                    let w = choose|w: int| #[trigger] exp.contains(w) && uses_operand(g0[w], i);
                    assert(cascade_pair(g0, from, dec, exp, i, w as GateIdx));
                } else {
                    assert(cascade_pair(g0, from, dec, exp, i, dec));
                }
            }
            let u1 = self.spec_users();
            let k1 = self.spec_killing();
            assert(u1.len() == u0.len());
            assert(forall|i: GateIdx, d: GateIdx|
                i < u0.len() ==> (#[trigger] u1[i as int].contains(d) <==> u0[i as int].contains(d) && !cascade_pair(
                    g0, from, dec, exp, i, d)));
            assert(forall|g: int|
                #[trigger] exp.contains(g) ==> 0 <= g < u0.len() && g0[g] is BinOp && u1[g].len() == 0 && cascade_reaches(
                    g0, from, exp, g as GateIdx));
            assert forall|i: GateIdx|
                i < u0.len() && cascade_reaches(g0, from, exp, i) && #[trigger] u1[i as int].len() == 0 && g0[i as int] is BinOp
                    implies exp.contains(i as int) by {
                if i != from {
                    let w = choose|w: int| #[trigger] exp.contains(w) && uses_operand(g0[w], i);
                    assert(cascade_pair(g0, from, dec, exp, i, w as GateIdx));
                    assert(done.contains((i, w as GateIdx)));
                } else {
                    assert(cascade_pair(g0, from, dec, exp, i, dec));
                    assert(done.contains((i, dec)));
                }
            }
            assert(forall|i: GateIdx|
                #[trigger] k1.contains(i) <==> k0.contains(i) || (i < u0.len() && cascade_reaches(g0, from, exp, i)
                    && u1[i as int].len() == 0));
            assert(decrement_cascade(g0, from, dec, u0, k0, u1, k1, exp));
        }
    }

    /// `incr` uses `from`; a gate that gets its first user uses its operands again, and so on
    /// down.
    #[verifier::spinoff_prover]
    fn propagated_increment(&mut self, from: GateIdx, incr: GateIdx)
        requires
            old(self).ok(),
            from < old(self).size(),
            incr < old(self).size(),
        ensures
            final(self).ok(),
            final(self).same_but_usages(old(self)),
            exists|e: Set<int>|
                increment_cascade(
                    old(self).spec_gates(),
                    from,
                    incr,
                    old(self).spec_users(),
                    old(self).spec_killing(),
                    final(self).spec_users(),
                    final(self).spec_killing(),
                    e,
                ),
    {
        let n = gate_arena_len(&self.gates);
        let mut expanded: Vec<bool> = Vec::new();
        let mut e: usize = 0;
        while e < n
            invariant
                e <= n,
                expanded@.len() == e,
                forall|i: int| 0 <= i < e ==> !#[trigger] expanded@[i],
            decreases n - e,
        {
            expanded.push(false);
            e = e + 1;
        }
        let ghost mut exp: Set<int> = Set::empty();
        let ghost mut done: Set<(GateIdx, GateIdx)> = Set::empty();
        let ghost mut touched: Set<GateIdx> = Set::empty();
        let mut num_expanded: usize = 0;
        let mut stack: Vec<(GateIdx, GateIdx)> = vec![(from, incr)];
        let ghost start = *self;
        let ghost g0 = start.spec_gates();
        let ghost u0 = start.spec_users();
        let ghost k0 = start.spec_killing();
        proof {
            assert forall|i: GateIdx, d: GateIdx| #[trigger] cascade_pair(g0, from, incr, exp, i, d) implies done.contains((i, d))
                || exists|k: int| 0 <= k < stack@.len() && stack@[k] == (i, d) by {
                assert(stack@[0] == (from, incr));
            }
        }
        while stack.len() > 0
            invariant
                self.ok(),
                self.same_but_usages(&start),
                start.ok(),
                g0 == start.spec_gates(),
                u0 == start.spec_users(),
                k0 == start.spec_killing(),
                from < n,
                n == self.size(),
                n == start.size(),
                expanded@.len() == n,
                forall|i: int| 0 <= i < n ==> (#[trigger] expanded@[i] <==> exp.contains(i)),
                forall|i: int| #[trigger] exp.contains(i) ==> 0 <= i < n,
                exp.finite(),
                num_expanded == exp.len(),
                num_expanded <= n,
                incr < n,
                forall|k: int| 0 <= k < stack@.len() ==> #[trigger] stack@[k].0 < n && stack@[k].1 < n,
                forall|k: int|
                    0 <= k < stack@.len() ==> cascade_pair(g0, from, incr, exp, #[trigger] stack@[k].0, stack@[k].1),
                forall|i: GateIdx, d: GateIdx|
                    i < n ==> (#[trigger] self.spec_users()[i as int].contains(d) <==> u0[i as int].contains(d)
                        || done.contains((i, d))),
                forall|i: GateIdx, d: GateIdx| #[trigger] done.contains((i, d)) ==> cascade_pair(g0, from, incr, exp, i, d),
                forall|i: GateIdx, d: GateIdx| #[trigger] done.contains((i, d)) ==> touched.contains(i),
                forall|i: GateIdx, d: GateIdx|
                    #[trigger] cascade_pair(g0, from, incr, exp, i, d) ==> done.contains((i, d)) || exists|k: int|
                        0 <= k < stack@.len() && stack@[k] == (i, d),
                forall|g: int|
                    #[trigger] exp.contains(g) ==> g0[g] is BinOp && u0[g].len() <= 1 && cascade_reaches(
                        g0,
                        from,
                        exp,
                        g as GateIdx,
                    ),
                forall|i: GateIdx|
                    #[trigger] touched.contains(i) && u0[i as int].len() == 0 && g0[i as int] is BinOp
                        ==> exp.contains(i as int),
                forall|i: GateIdx| #[trigger] touched.contains(i) ==> i < n && cascade_reaches(g0, from, exp, i),
                forall|i: GateIdx| #[trigger] self.spec_killing().contains(i) ==> k0.contains(i),
                forall|i: GateIdx|
                    i < n && #[trigger] k0.contains(i) && !self.spec_killing().contains(i) ==> touched.contains(i)
                        && u0[i as int].len() <= 1,
                forall|i: GateIdx|
                    i < n && #[trigger] touched.contains(i) && u0[i as int].len() == 0 ==> !self.spec_killing().contains(i),
                topological(g0) ==> forall|k: int| 0 <= k < stack@.len() ==> #[trigger] stack@[k].0 <= from,
                topological(g0) ==> forall|x: int| #[trigger] exp.contains(x) ==> x <= from,
            decreases stack@.len() + 2 * (n - num_expanded),
        {
            let ghost before = *self;
            let ghost stack_before = stack@;
            let ghost exp_before = exp;
            let ghost done_before = done;
            let ghost touched_before = touched;
            let (g, d) = stack.pop().unwrap();
            proof {
                assert(stack_before[stack_before.len() - 1] == (g, d));
                assert(stack@ =~= stack_before.drop_last());
                lemma_reaches_of_pair(g0, from, incr, exp, g, d);
                before.liveness_wrt_usage.lemma_users_finite();
            }
            proof {
                start.liveness_wrt_usage.lemma_users_finite();
                if !touched.contains(g) {
                    assert(before.spec_users()[g as int] =~= u0[g as int]);
                }
            }
            let remaining = self.liveness_wrt_usage.increment(g, d);
            proof {
                done = done.insert((g, d));
                touched = touched.insert(g);
                self.liveness_wrt_usage.lemma_users_finite();
                assert(self.spec_users()[g as int] == before.spec_users()[g as int].insert(d));
                assert(u0[g as int].subset_of(self.spec_users()[g as int]));
                vstd::set_lib::lemma_len_subset(u0[g as int], self.spec_users()[g as int]);
                if !touched_before.contains(g) && u0[g as int].len() == 0 {
                    vstd::set_lib::lemma_set_empty_equivalency_len(u0[g as int]);
                    assert(self.spec_users()[g as int] =~= Set::<GateIdx>::empty().insert(d));
                    assert(remaining == 1);
                }
                assert forall|i: GateIdx| #[trigger] self.spec_killing().contains(i) implies k0.contains(i) by {
                    if i != g {
                        assert(before.spec_killing().contains(i));
                    }
                }
            }
            let ghost stack_mid = stack@;
            if remaining == 1 && !expanded[g as usize] {
                let gate = gate_arena_get(&self.gates, g);
                if let Gate::BinOp(_, lhs, rhs) = gate {
                    proof {
                        lemma_partial_range_len(exp, n as int, g as int);
                    }
                    expanded.set(g as usize, true);
                    proof {
                        lemma_cascade_grow(g0, from, incr, exp, g as int);
                        exp = exp.insert(g as int);
                    }
                    num_expanded = num_expanded + 1;
                    proof {
                        if topological(g0) {
                            assert(gate_operands_below(g0[g as int], g as int));
                        }
                    }
                    stack.push((rhs, g));
                    stack.push((lhs, g));
                    proof {
                        assert(stack@[stack_mid.len() as int] == (rhs, g));
                        assert(stack@[stack_mid.len() as int + 1] == (lhs, g));
                    }
                }
            }
            proof {
                assert(forall|k: int| 0 <= k < stack_mid.len() ==> stack@[k] == #[trigger] stack_mid[k]);
                assert forall|i: GateIdx, d2: GateIdx| #[trigger] cascade_pair(g0, from, incr, exp, i, d2) implies done.contains(
                    (i, d2),
                ) || exists|k: int| 0 <= k < stack@.len() && stack@[k] == (i, d2) by {
                    if cascade_pair(g0, from, incr, exp_before, i, d2) {
                        if !done_before.contains((i, d2)) {
                            let k = choose|k: int| 0 <= k < stack_before.len() && stack_before[k] == (i, d2);
                            if k < stack_mid.len() {
                                assert(stack@[k] == (i, d2));
                            }
                        }
                    } else {
                        assert(exp.contains(d2 as int) && d2 == g);
                        if let Gate::BinOp(_, l, r) = g0[g as int] {
                            if i == r {
                                assert(stack@[stack_mid.len() as int] == (i, d2));
                            } else {
                                assert(stack@[stack_mid.len() as int + 1] == (i, d2));
                            }
                        }
                    }
                }
            }
        }
        proof {
            assert forall|i: GateIdx, d: GateIdx| #[trigger] cascade_pair(g0, from, incr, exp, i, d) implies done.contains((i, d)) by {}
            assert forall|i: GateIdx| i < n && #[trigger] cascade_reaches(g0, from, exp, i) implies touched.contains(i) by {
                if i != from {
                    let w = choose|w: int| #[trigger] exp.contains(w) && uses_operand(g0[w], i);
                    assert(cascade_pair(g0, from, incr, exp, i, w as GateIdx));
                } else {
                    assert(cascade_pair(g0, from, incr, exp, i, incr));
                }
            }
            let u1 = self.spec_users();
            let k1 = self.spec_killing();
            assert(forall|i: GateIdx, d: GateIdx|
                i < u0.len() ==> (#[trigger] u1[i as int].contains(d) <==> u0[i as int].contains(d) || cascade_pair(
                    g0, from, incr, exp, i, d)));
            assert(increment_cascade(g0, from, incr, u0, k0, u1, k1, exp));
        }
    }

}

/// The gates by key without that of `g`; a tombstone has none.
pub open spec fn without_key(m: Map<u128, GateIdx>, g: Gate) -> Map<u128, GateIdx> {
    if g is Thombstone {
        m
    } else {
        m.remove(gate_key(g))
    }
}

/// The gates by key with `g` found at `i`; a tombstone has no key.
pub open spec fn with_key(m: Map<u128, GateIdx>, g: Gate, i: GateIdx) -> Map<u128, GateIdx> {
    if g is Thombstone {
        m
    } else {
        m.insert(gate_key(g), i)
    }
}

/// The gates once a rewrite of the operation at `root` is applied: the new operation at
/// `root`, after the folded constant at its index for a folding.
pub open spec fn accepted_gates(gates: Seq<Gate>, r: Reassociation, root: GateIdx) -> Seq<Gate> {
    match r {
        Reassociation::Ternary { new_root, .. } => gates.update(root as int, new_root),
        Reassociation::Folding { new_root, folded_gate, replacing_index, .. } => gates.update(
            replacing_index as int,
            folded_gate,
        ).update(root as int, new_root),
    }
}

/// The gates by key once a rewrite of the operation `old_root` at `root` is applied: the keys
/// of the replaced gates go, those of the new ones come.
pub open spec fn accepted_seen(
    seen: Map<u128, GateIdx>,
    gates: Seq<Gate>,
    r: Reassociation,
    old_root: Gate,
    root: GateIdx,
) -> Map<u128, GateIdx> {
    match r {
        Reassociation::Ternary { new_root, .. } => with_key(without_key(seen, old_root), new_root, root),
        Reassociation::Folding { new_root, folded_gate, replacing_index, .. } => with_key(
            with_key(
                without_key(without_key(seen, old_root), gates[replacing_index as int]),
                folded_gate,
                replacing_index,
            ),
            new_root,
            root,
        ),
    }
}

/// The constants once a rewrite is applied: a folding adds the folded one.
pub open spec fn accepted_constants(constants: Set<GateIdx>, r: Reassociation) -> Set<GateIdx> {
    match r {
        Reassociation::Ternary { .. } => constants,
        Reassociation::Folding { replacing_index, .. } => constants.insert(replacing_index),
    }
}

/// The gates a rewritten operation no longer uses.
pub open spec fn severed(r: Reassociation) -> Seq<GateIdx> {
    match r {
        Reassociation::Ternary { usage_update, .. } => idx_list_items(usage_update.to_severe_from_root),
        Reassociation::Folding { usage_update, .. } => idx_list_items(usage_update.to_severe_from_root),
    }
}

/// The gates a rewritten operation uses anew.
pub open spec fn connected(r: Reassociation) -> Seq<GateIdx> {
    match r {
        Reassociation::Ternary { usage_update, .. } => idx_list_items(usage_update.to_connect_root),
        Reassociation::Folding { usage_update, .. } => idx_list_items(usage_update.to_connect_root),
    }
}

/// Every operation's operands come before it.
pub open spec fn topological(gates: Seq<Gate>) -> bool {
    forall|i: int| 0 <= i < gates.len() ==> #[trigger] gate_operands_below(gates[i], i)
}

/// A described rewrite of the operation at `root` names only gates before it, and folds into
/// a constant.
pub open spec fn description_under(d: (Gate, Option<(Gate, GateIdx)>, Seq<GateIdx>, Seq<GateIdx>), root: int) -> bool {
    &&& gate_operands_below(d.0, root)
    &&& (d.1 matches Some(f) ==> f.0 is Const && f.1 < root)
    &&& forall|k: int| 0 <= k < d.2.len() ==> #[trigger] d.2[k] < root
    &&& forall|k: int| 0 <= k < d.3.len() ==> #[trigger] d.3[k] < root
}

/// A rewrite of the operation at `root` names only gates before it, and folds into a constant.
pub open spec fn rewrite_under(r: Reassociation, root: int) -> bool {
    &&& forall|k: int| 0 <= k < severed(r).len() ==> #[trigger] severed(r)[k] < root
    &&& forall|k: int| 0 <= k < connected(r).len() ==> #[trigger] connected(r)[k] < root
    &&& match r {
        Reassociation::Ternary { new_root, .. } => gate_operands_below(new_root, root),
        Reassociation::Folding { new_root, folded_gate, replacing_index, .. } => {
            &&& gate_operands_below(new_root, root)
            &&& folded_gate is Const
            &&& replacing_index < root
        },
    }
}

/// A try on gates before `root`, with the inner operation before it, describes a rewrite under
/// `root`.
proof fn lemma_form_under(
    pass: ReassociationPass,
    op: BinOp,
    i: GateIdx,
    pair: (GateIdx, GateIdx),
    other: GateIdx,
    is_lhs: bool,
    root: int,
)
    requires
        i < root,
        pair.0 < root,
        pair.1 < root,
        other < root,
    ensures
        spec_form_a_gate(pass, op, i, pair, other, is_lhs) matches Some(d) ==> description_under(d, root),
{
    let d = spec_form_a_gate(pass, op, i, pair, other, is_lhs);
    if d is Some {
        let dd = d->0;
        assert(dd.2.len() <= 2 && dd.3.len() <= 2);
        assert forall|k: int| 0 <= k < dd.2.len() implies #[trigger] dd.2[k] < root by {}
        assert forall|k: int| 0 <= k < dd.3.len() implies #[trigger] dd.3[k] < root by {}
    }
}

/// A rewrite that agrees with a description under `root` is under `root`.
proof fn lemma_describes_under(r: Reassociation, d: (Gate, Option<(Gate, GateIdx)>, Seq<GateIdx>, Seq<GateIdx>), root: int)
    requires
        describes(r, d),
        description_under(d, root),
    ensures
        rewrite_under(r, root),
{
}

/// A decrement cascade started by another gate than its target leaves every gate that uses
/// itself using itself, over topologically ordered gates.
proof fn lemma_decrement_keeps_self_use(
    gates: Seq<Gate>,
    from: GateIdx,
    by: GateIdx,
    u0: Seq<Set<GateIdx>>,
    k0: Set<GateIdx>,
    u1: Seq<Set<GateIdx>>,
    k1: Set<GateIdx>,
    e: Set<int>,
)
    requires
        decrement_cascade(gates, from, by, u0, k0, u1, k1, e),
        topological(gates),
        u0.len() <= gates.len(),
        from != by,
    ensures
        forall|o: GateIdx| o < u0.len() && #[trigger] u0[o as int].contains(o) ==> u1[o as int].contains(o),
{
    assert forall|o: GateIdx| o < u0.len() && #[trigger] u0[o as int].contains(o) implies u1[o as int].contains(o) by {
        if e.contains(o as int) {
            assert(gate_operands_below(gates[o as int], o as int));
        }
        assert(!cascade_pair(gates, from, by, e, o, o));
    }
}

/// A described rewrite of the operation on the inner operation `i` connects only gates that
/// are alive, keeps its operands among them (and `i` for a folding), and cuts or connects no `i`
/// when it folds.
pub open spec fn description_alive(
    d: (Gate, Option<(Gate, GateIdx)>, Seq<GateIdx>, Seq<GateIdx>),
    gates: Seq<Gate>,
    i: GateIdx,
) -> bool {
    &&& forall|k: int| 0 <= k < d.3.len() ==> d.3[k] < gates.len() && !(gates[#[trigger] d.3[k] as int] is Thombstone)
    &&& match d.1 {
        None => d.0 matches Gate::BinOp(_, x, y) && d.3.contains(x) && d.3.contains(y),
        Some(f) => {
            &&& f.1 == i
            &&& i < gates.len() && !(gates[i as int] is Thombstone)
            &&& d.0 matches Gate::BinOp(_, x, y) && x == i && d.3.contains(y)
            &&& !d.2.contains(i)
            &&& !d.3.contains(i)
        },
    }
}

/// A try on alive gates other than the alive inner operation `i` describes a rewrite that
/// connects alive gates.
proof fn lemma_form_alive(
    pass: ReassociationPass,
    op: BinOp,
    i: GateIdx,
    pair: (GateIdx, GateIdx),
    other: GateIdx,
    is_lhs: bool,
)
    requires
        pass.live_ok(),
        pass.ok(),
        i < pass.size() && pair.0 < pass.size() && pair.1 < pass.size() && other < pass.size(),
        pair.0 != i && pair.1 != i && other != i,
        !(pass.spec_gates()[i as int] is Thombstone),
        !(pass.spec_gates()[other as int] is Thombstone),
    ensures
        spec_form_a_gate(pass, op, i, pair, other, is_lhs) matches Some(d) ==> description_alive(d, pass.spec_gates(), i),
{
    let d = spec_form_a_gate(pass, op, i, pair, other, is_lhs);
    if d is Some {
        let dd = d->0;
        let key = gate_key(Gate::BinOp(op, pair.0, pair.1));
        if dd.1 is None {
            let found = pass.spec_seen()[key];
            assert(found < pass.size());
            assert(!pass.spec_dead().contains(found));
            assert(!(pass.spec_gates()[found as int] is Thombstone));
            assert(dd.3 == seq![found, other]);
            assert(dd.3[0] == found && dd.3[1] == other);
        } else {
            assert(dd.3 == seq![other]);
            assert(dd.3[0] == other);
            assert(!dd.3.contains(i)) by {
                if dd.3.contains(i) {
                    let k = choose|k: int| 0 <= k < dd.3.len() && dd.3[k] == i;
                }
            }
            assert(!dd.2.contains(i)) by {
                if dd.2.contains(i) {
                    let k = choose|k: int| 0 <= k < dd.2.len() && dd.2[k] == i;
                }
            }
        }
    }
}

/// A rewrite that agrees with a description connecting alive gates is alive and well shaped.
proof fn lemma_describes_alive(r: Reassociation, d: (Gate, Option<(Gate, GateIdx)>, Seq<GateIdx>, Seq<GateIdx>), gates: Seq<Gate>, i: GateIdx)
    requires
        describes(r, d),
        description_alive(d, gates, i),
    ensures
        rewrite_alive(gates, r),
        rewrite_shape(r),
{
}

/// A rewrite that a try on the candidates of the operation at `root` describes is under
/// `root`, over topologically ordered gates.
proof fn lemma_candidate_rewrite_under(
    pass: ReassociationPass,
    root: GateIdx,
    op: BinOp,
    lhs: GateIdx,
    rhs: GateIdx,
    cand: ReassociationCandidates,
    r: Reassociation,
)
    requires
        pass.ok(),
        topological(pass.spec_gates()),
        root < pass.size(),
        pass.spec_gates()[root as int] == Gate::BinOp(op, lhs, rhs),
        spec_candidates(pass.spec_gates(), op, lhs, rhs) == Some(cand),
        ({
            let ReassociationCandidates { a, b, c, is_lhs, instruction_to_reassociate: i } = cand;
            let second = if is_lhs {
                ((b, c), a)
            } else {
                ((a, b), c)
            };
            let first_try = spec_form_a_gate(pass, op, i, (a, c), b, is_lhs);
            let second_try = spec_form_a_gate(pass, op, i, second.0, second.1, is_lhs);
            match first_try {
                Some(d) => describes(r, d),
                None => match second_try {
                    Some(d) => describes(r, d),
                    None => false,
                },
            }
        }),
    ensures
        rewrite_under(r, root as int),
        pass.live_ok() && !pass.spec_dead().contains(root) ==> rewrite_alive(pass.spec_gates(), r) && rewrite_shape(r),
{
    let g = pass.spec_gates();
    assert(gate_operands_below(g[root as int], root as int));
    assert(gate_operands_below(g[lhs as int], lhs as int));
    assert(gate_operands_below(g[rhs as int], rhs as int));
    let ReassociationCandidates { a, b, c, is_lhs, instruction_to_reassociate: i } = cand;
    assert(a < root && b < root && c < root && i < root);
    let second = if is_lhs {
        ((b, c), a)
    } else {
        ((a, b), c)
    };
    lemma_form_under(pass, op, i, (a, c), b, is_lhs, root as int);
    lemma_form_under(pass, op, i, second.0, second.1, is_lhs, root as int);
    match spec_form_a_gate(pass, op, i, (a, c), b, is_lhs) {
        Some(d) => lemma_describes_under(r, d, root as int),
        None => {
            let d = spec_form_a_gate(pass, op, i, second.0, second.1, is_lhs)->0;
            lemma_describes_under(r, d, root as int);
        },
    }
    if pass.live_ok() && !pass.spec_dead().contains(root) {
        assert(!(g[root as int] is Thombstone));
        assert(operands_alive(g));
        assert(uses_operand(g[root as int], lhs) && uses_operand(g[root as int], rhs));
        assert(!(g[i as int] is Thombstone));
        assert(uses_operand(g[i as int], if is_lhs { a } else { b }));
        assert(uses_operand(g[i as int], if is_lhs { b } else { c }));
        assert(a != i && b != i && c != i);
        assert(!(g[a as int] is Thombstone) && !(g[b as int] is Thombstone) && !(g[c as int] is Thombstone));
        lemma_form_alive(pass, op, i, (a, c), b, is_lhs);
        lemma_form_alive(pass, op, i, second.0, second.1, is_lhs);
        match spec_form_a_gate(pass, op, i, (a, c), b, is_lhs) {
            Some(d) => lemma_describes_alive(r, d, g, i),
            None => {
                let d = spec_form_a_gate(pass, op, i, second.0, second.1, is_lhs)->0;
                lemma_describes_alive(r, d, g, i);
            },
        }
    }
}

/// A reuse whose inner operation (the first gate it cuts) has no user but the rewritten
/// operation, and whose new operands come before that inner operation.
pub open spec fn drops_inner(users: Seq<Set<GateIdx>>, r: Reassociation, root: GateIdx) -> bool {
    &&& r is Ternary
    &&& severed(r).len() > 0
    &&& severed(r)[0] < users.len()
    &&& forall|d: GateIdx| #[trigger] users[severed(r)[0] as int].contains(d) ==> d == root
    &&& forall|j: int| 0 <= j < connected(r).len() ==> #[trigger] connected(r)[j] < severed(r)[0]
}

impl ReassociationPass {
    /// The number of operations the pass still looks at.
    pub closed spec fn num_operations(&self) -> nat {
        self.operation_gates@.len()
    }

    /// Applies a rewrite of the operation at `rewritten_root_op_gate_idx`, which was
    /// `rewritten_root_op_gate`: the gates, the gates by key and the usages follow it.
    #[verifier::spinoff_prover]
    fn accept_reassociation(
        &mut self,
        reassociation: Reassociation,
        rewritten_root_op_gate: Gate,
        rewritten_root_op_gate_idx: GateIdx,
    )
        requires
            old(self).ok(),
            rewrite_below(reassociation, old(self).size() as int),
            rewritten_root_op_gate_idx < old(self).size(),
        ensures
            final(self).ok(),
            final(self).size() == old(self).size(),
            final(self).q == old(self).q,
            final(self).operation_gates == old(self).operation_gates,
            final(self).spec_gates() == accepted_gates(old(self).spec_gates(), reassociation, rewritten_root_op_gate_idx),
            final(self).spec_seen() == accepted_seen(
                old(self).spec_seen(),
                old(self).spec_gates(),
                reassociation,
                rewritten_root_op_gate,
                rewritten_root_op_gate_idx,
            ),
            final(self).spec_constants() == accepted_constants(old(self).spec_constants(), reassociation),
            final(self).spec_dead() == old(self).spec_dead(),
            forall|j: int|
                0 <= j < connected(reassociation).len() ==> #[trigger] final(self).spec_users()[connected(
                    reassociation,
                )[j] as int].contains(rewritten_root_op_gate_idx),
            topological(old(self).spec_gates()) && rewrite_under(reassociation, rewritten_root_op_gate_idx as int) ==> {
                &&& forall|j: int|
                    0 <= j < severed(reassociation).len() && !connected(reassociation).contains(severed(reassociation)[j])
                        ==> !#[trigger] final(self).spec_users()[severed(reassociation)[j] as int].contains(
                        rewritten_root_op_gate_idx,
                    )
                &&& topological(final(self).spec_gates())
                &&& forall|o: GateIdx|
                    o < old(self).size() && #[trigger] old(self).spec_users()[o as int].contains(o)
                        ==> final(self).spec_users()[o as int].contains(o)
            },
            topological(old(self).spec_gates()) && rewrite_under(reassociation, rewritten_root_op_gate_idx as int)
                && old(self).live_ok() && !old(self).spec_dead().contains(rewritten_root_op_gate_idx) && rewrite_alive(
                old(self).spec_gates(),
                reassociation,
            ) && rewrite_shape(reassociation) ==> final(self).live_ok(),
            topological(old(self).spec_gates()) && rewrite_under(reassociation, rewritten_root_op_gate_idx as int)
                && drops_inner(old(self).spec_users(), reassociation, rewritten_root_op_gate_idx) ==> {
                &&& final(self).spec_killing().contains(severed(reassociation)[0])
                &&& forall|d: GateIdx| !#[trigger] final(self).spec_users()[severed(reassociation)[0] as int].contains(d)
            },
    {
        let ghost r0 = reassociation;
        let ghost cond = topological(old(self).spec_gates()) && rewrite_under(reassociation, rewritten_root_op_gate_idx as int);
        let ghost lc = cond && old(self).live_ok() && !old(self).spec_dead().contains(rewritten_root_op_gate_idx)
            && rewrite_alive(old(self).spec_gates(), r0) && rewrite_shape(r0);
        let ghost dx = cond && drops_inner(old(self).spec_users(), r0, rewritten_root_op_gate_idx);
        let ghost x: GateIdx = if severed(r0).len() > 0 { severed(r0)[0] } else { 0 };
        let root = rewritten_root_op_gate_idx;
        if let Some(k) = key_of(&rewritten_root_op_gate) {
            self.seen.remove(&k);
        }
        let (new_root, usage_update) = match reassociation {
            Reassociation::Ternary { new_root, usage_update } => (new_root, usage_update),
            Reassociation::Folding { new_root, folded_gate, replacing_index, usage_update } => {
                let discarded = gate_arena_get(&self.gates, replacing_index);
                if let Some(k) = key_of(&discarded) {
                    self.seen.remove(&k);
                }
                let ghost pre = *self;
                self.propagated_decrement(replacing_index, root);
                proof {
                    if cond {
                        let e = choose|e: Set<int>|
                            decrement_cascade(
                                pre.spec_gates(),
                                replacing_index,
                                root,
                                pre.spec_users(),
                                pre.spec_killing(),
                                self.spec_users(),
                                self.spec_killing(),
                                e,
                            );
                        lemma_decrement_keeps_self_use(
                            pre.spec_gates(),
                            replacing_index,
                            root,
                            pre.spec_users(),
                            pre.spec_killing(),
                            self.spec_users(),
                            self.spec_killing(),
                            e,
                        );
                        if lc {
                            self.liveness_wrt_usage.lemma_users_finite();
                            assert(users_listed(pre.spec_gates(), pre.spec_users(), pre.spec_killing(), root as int));
                            lemma_decrement_keeps_listing(
                                pre.spec_gates(),
                                replacing_index,
                                root,
                                pre.spec_users(),
                                pre.spec_killing(),
                                self.spec_users(),
                                self.spec_killing(),
                                e,
                            );
                        }
                    }
                }
                let ghost pre1 = *self;
                gate_arena_set(&mut self.gates, replacing_index, folded_gate);
                proof {
                    if lc {
                        let g1 = self.spec_gates();
                        assert(g1 == pre1.spec_gates().update(replacing_index as int, folded_gate));
                        assert(folded_gate is Const);
                        assert forall|v: GateIdx, x: GateIdx|
                            v < g1.len() && v as int != root as int && !self.spec_killing().contains(v)
                                && #[trigger] uses_operand(g1[v as int], x) implies self.spec_users()[x as int].contains(v) by {
                            assert(uses_operand(pre1.spec_gates()[v as int], x));
                        }
                        assert forall|v: GateIdx, d: GateIdx| v < g1.len() && #[trigger] self.spec_users()[v as int].contains(d)
                            implies !(g1[v as int] is Thombstone) by {
                            if v != replacing_index {
                                assert(!(pre1.spec_gates()[v as int] is Thombstone));
                            }
                        }
                        assert forall|v: GateIdx, x: GateIdx| v < g1.len() && #[trigger] uses_operand(g1[v as int], x)
                            implies x < g1.len() && !(g1[x as int] is Thombstone) by {
                            assert(uses_operand(pre1.spec_gates()[v as int], x));
                            assert(operands_alive(old(self).spec_gates()));
                        }
                    }
                }
                if let Some(k) = key_of(&folded_gate) {
                    self.seen.insert(k, replacing_index);
                }
                let ghost pre2 = *self;
                self.propagated_increment(replacing_index, root);
                proof {
                    let e = choose|e: Set<int>|
                        increment_cascade(
                            pre2.spec_gates(),
                            replacing_index,
                            root,
                            pre2.spec_users(),
                            pre2.spec_killing(),
                            self.spec_users(),
                            self.spec_killing(),
                            e,
                        );
                    assert forall|o: GateIdx| o < pre2.size() && #[trigger] pre2.spec_users()[o as int].contains(o) implies self.spec_users()[
                        o as int].contains(o) by {}
                    assert(cascade_pair(pre2.spec_gates(), replacing_index, root, e, replacing_index, root));
                    if lc {
                        pre2.liveness_wrt_usage.lemma_users_finite();
                        lemma_increment_keeps_listing(
                            pre2.spec_gates(),
                            replacing_index,
                            root,
                            pre2.spec_users(),
                            pre2.spec_killing(),
                            self.spec_users(),
                            self.spec_killing(),
                            e,
                        );
                    }
                }
                self.constant_gates.insert(replacing_index);
                (new_root, usage_update)
            },
        };
        let ghost gp = self.spec_gates();
        proof {
            if lc {
                if r0 is Ternary {
                    assert(users_listed(gp, self.spec_users(), self.spec_killing(), root as int));
                }
                assert(gp == old(self).spec_gates() || (r0 is Folding && gp == old(self).spec_gates().update(
                    folded_index(r0) as int,
                    r0->folded_gate,
                )));
                assert(new_root == (match r0 {
                    Reassociation::Ternary { new_root, .. } => new_root,
                    Reassociation::Folding { new_root, .. } => new_root,
                }));
                if let Gate::BinOp(_, x, y) = new_root {
                    assert(x < root && y < root);
                    if r0 is Ternary {
                        assert(connected(r0).contains(x) && connected(r0).contains(y));
                        let kx = choose|k: int| 0 <= k < connected(r0).len() && connected(r0)[k] == x;
                        let ky = choose|k: int| 0 <= k < connected(r0).len() && connected(r0)[k] == y;
                        assert(!(gp[connected(r0)[kx] as int] is Thombstone));
                        assert(!(gp[connected(r0)[ky] as int] is Thombstone));
                    } else {
                        let ky = choose|k: int| 0 <= k < connected(r0).len() && connected(r0)[k] == y;
                        assert(!(old(self).spec_gates()[connected(r0)[ky] as int] is Thombstone));
                        assert(y != folded_index(r0));
                    }
                }
            }
        }
        gate_arena_set(&mut self.gates, root, new_root);
        if let Some(k) = key_of(&new_root) {
            self.seen.insert(k, root);
        }
        let to_severe_from_root = idx_list_as_slice(&usage_update.to_severe_from_root);
        let n = gate_arena_len(&self.gates);
        let ghost mid = *self;
        proof {
            assert(self.spec_gates() == accepted_gates(old(self).spec_gates(), r0, root));
            if cond {
                assert forall|i: int| 0 <= i < self.spec_gates().len() implies #[trigger] gate_operands_below(
                    self.spec_gates()[i],
                    i,
                ) by {
                    assert(gate_operands_below(old(self).spec_gates()[i], i));
                }
            }
            assert(self.spec_seen() == accepted_seen(old(self).spec_seen(), old(self).spec_gates(), r0, rewritten_root_op_gate, root));
            if lc {
                lemma_root_set_listing(gp, self.spec_gates(), self.spec_users(), self.spec_killing(), new_root, root);
                assert forall|j: int| 0 <= j < connected(r0).len() implies !(self.spec_gates()[#[trigger] connected(r0)[j] as int] is Thombstone) by {
                    assert(connected(r0)[j] < root);
                    if r0 is Folding {
                        assert(connected(r0)[j] != folded_index(r0)) by {
                            if connected(r0)[j] == folded_index(r0) {
                                assert(connected(r0).contains(folded_index(r0)));
                            }
                        }
                    }
                }
            }
        }
        proof {
            assert(to_severe_from_root@ == severed(r0));
            if dx {
                assert(self.spec_users() == old(self).spec_users());
            }
        }
        let mut k: usize = 0;
        while k < to_severe_from_root.len()
            invariant
                self.ok(),
                self.same_but_usages(&mid),
                forall|j: int| 0 <= j < k ==> !#[trigger] self.spec_users()[to_severe_from_root@[j] as int].contains(root),
                cond ==> topological(self.spec_gates()),
                cond ==> forall|o: GateIdx|
                    o < n && #[trigger] old(self).spec_users()[o as int].contains(o) ==> self.spec_users()[o as int].contains(o),
                cond ==> rewrite_under(r0, root as int),
                lc ==> listing(self.spec_gates(), self.spec_users(), self.spec_killing(), root as int),
                lc ==> operands_alive(self.spec_gates()),
                lc ==> (r0 is Folding ==> self.spec_users()[folded_index(r0) as int].contains(root)),
                lc ==> cond && rewrite_shape(r0),
                to_severe_from_root@ == severed(r0),
                n == self.size(),
                root < n,
                k <= to_severe_from_root@.len(),
                forall|j: int| 0 <= j < to_severe_from_root@.len() ==> #[trigger] to_severe_from_root@[j] < n,
                self.q == old(self).q,
                self.operation_gates == old(self).operation_gates,
                dx ==> cond && drops_inner(old(self).spec_users(), r0, root) && x == severed(r0)[0],
                dx ==> x == to_severe_from_root@[0] && (k == 0 ==> self.spec_users() == old(self).spec_users()) && (k > 0
                    ==> self.spec_killing().contains(x) && forall|d: GateIdx| !#[trigger] self.spec_users()[x as int].contains(d)),
            decreases to_severe_from_root@.len() - k,
        {
            let ghost before = *self;
            let s = to_severe_from_root[k];
            self.propagated_decrement(s, root);
            proof {
                let e = choose|e: Set<int>|
                    decrement_cascade(
                        before.spec_gates(),
                        s,
                        root,
                        before.spec_users(),
                        before.spec_killing(),
                        self.spec_users(),
                        self.spec_killing(),
                        e,
                    );
                assert(cascade_pair(before.spec_gates(), s, root, e, s, root));
                if cond {
                    assert(s < root);
                    lemma_decrement_keeps_self_use(
                        before.spec_gates(),
                        s,
                        root,
                        before.spec_users(),
                        before.spec_killing(),
                        self.spec_users(),
                        self.spec_killing(),
                        e,
                    );
                }
                assert forall|j: int| 0 <= j < k + 1 implies !#[trigger] self.spec_users()[to_severe_from_root@[j] as int].contains(
                    root,
                ) by {
                    assert(to_severe_from_root@[j] < n);
                }
                if dx {
                    assert(x < n);
                    if k == 0 {
                        assert(s == x);
                        assert forall|d: GateIdx| !#[trigger] self.spec_users()[x as int].contains(d) by {
                            if self.spec_users()[x as int].contains(d) {
                                assert(before.spec_users()[x as int].contains(d));
                                assert(old(self).spec_users()[severed(r0)[0] as int].contains(d));
                                assert(d == root);
                            }
                        }
                        assert(self.spec_users()[x as int] =~= Set::<GateIdx>::empty());
                        assert(cascade_reaches(before.spec_gates(), s, e, x));
                    } else {
                        assert forall|d: GateIdx| !#[trigger] self.spec_users()[x as int].contains(d) by {
                            if self.spec_users()[x as int].contains(d) {
                                assert(before.spec_users()[x as int].contains(d));
                            }
                        }
                    }
                }
                if lc {
                    self.liveness_wrt_usage.lemma_users_finite();
                    lemma_decrement_keeps_listing(
                        before.spec_gates(),
                        s,
                        root,
                        before.spec_users(),
                        before.spec_killing(),
                        self.spec_users(),
                        self.spec_killing(),
                        e,
                    );
                    if r0 is Folding {
                        assert(to_severe_from_root@[k as int] == s);
                        assert(to_severe_from_root@.contains(s));
                        assert(s < root);
                        assert(s != folded_index(r0));
                        assert(!e.contains(root as int));
                        assert(!cascade_pair(before.spec_gates(), s, root, e, folded_index(r0), root));
                    }
                }
            }
            k = k + 1;
        }
        let to_connect_root = idx_list_as_slice(&usage_update.to_connect_root);
        proof {
            assert(to_connect_root@ == connected(r0));
        }
        let mut k: usize = 0;
        while k < to_connect_root.len()
            invariant
                self.ok(),
                self.same_but_usages(&mid),
                forall|j: int| 0 <= j < k ==> #[trigger] self.spec_users()[to_connect_root@[j] as int].contains(root),
                cond ==> topological(self.spec_gates()),
                cond ==> forall|o: GateIdx|
                    o < n && #[trigger] old(self).spec_users()[o as int].contains(o) ==> self.spec_users()[o as int].contains(o),
                to_severe_from_root@ == severed(r0),
                to_connect_root@ == connected(r0),
                cond ==> forall|j: int|
                    0 <= j < to_severe_from_root@.len() && !to_connect_root@.contains(to_severe_from_root@[j])
                        ==> !#[trigger] self.spec_users()[to_severe_from_root@[j] as int].contains(root),
                cond ==> rewrite_under(r0, root as int),
                lc ==> listing(self.spec_gates(), self.spec_users(), self.spec_killing(), root as int),
                lc ==> operands_alive(self.spec_gates()),
                lc ==> (r0 is Folding ==> self.spec_users()[folded_index(r0) as int].contains(root)),
                lc ==> cond && rewrite_shape(r0),
                lc ==> forall|j: int| 0 <= j < to_connect_root@.len() ==> !(self.spec_gates()[#[trigger] to_connect_root@[j] as int] is Thombstone),
                forall|j: int| 0 <= j < to_severe_from_root@.len() ==> #[trigger] to_severe_from_root@[j] < n,
                n == self.size(),
                root < n,
                k <= to_connect_root@.len(),
                forall|j: int| 0 <= j < to_connect_root@.len() ==> #[trigger] to_connect_root@[j] < n,
                self.q == old(self).q,
                self.operation_gates == old(self).operation_gates,
                dx ==> cond && drops_inner(old(self).spec_users(), r0, root) && x == severed(r0)[0],
                dx ==> x < n && (forall|j: int| 0 <= j < to_connect_root@.len() ==> #[trigger] to_connect_root@[j] < x)
                    && self.spec_killing().contains(x) && forall|d: GateIdx| !#[trigger] self.spec_users()[x as int].contains(d),
            decreases to_connect_root@.len() - k,
        {
            let ghost before = *self;
            let c = to_connect_root[k];
            // A gate that gets its first user again uses its operands again.
            self.propagated_increment(c, root);
            proof {
                let e = choose|e: Set<int>|
                    increment_cascade(
                        before.spec_gates(),
                        c,
                        root,
                        before.spec_users(),
                        before.spec_killing(),
                        self.spec_users(),
                        self.spec_killing(),
                        e,
                    );
                assert(cascade_pair(before.spec_gates(), c, root, e, c, root));
                assert forall|j: int| 0 <= j < k + 1 implies #[trigger] self.spec_users()[to_connect_root@[j] as int].contains(
                    root,
                ) by {
                    assert(to_connect_root@[j] < n);
                }
                assert(to_connect_root@.contains(c));
                if cond {
                    assert(c < root);
                    assert(!e.contains(root as int));
                    assert forall|j: int|
                        0 <= j < to_severe_from_root@.len() && !to_connect_root@.contains(to_severe_from_root@[j]) implies !#[trigger] self.spec_users()[to_severe_from_root@[j] as int].contains(root) by {
                        assert(to_severe_from_root@[j] != c);
                        assert(to_severe_from_root@[j] < n);
                        assert(!cascade_pair(before.spec_gates(), c, root, e, to_severe_from_root@[j], root));
                    }
                }
                assert forall|o: GateIdx| o < n && #[trigger] before.spec_users()[o as int].contains(o) implies self.spec_users()[
                    o as int].contains(o) by {}
                if dx {
                    assert(cond);
                    assert(c < x);
                    assert(topological(before.spec_gates()));
                    assert forall|d: GateIdx| !#[trigger] self.spec_users()[x as int].contains(d) by {
                        if self.spec_users()[x as int].contains(d) {
                            if e.contains(d as int) {
                                assert(d <= c);
                                assert(gate_operands_below(before.spec_gates()[d as int], d as int));
                                assert(uses_operand(before.spec_gates()[d as int], x));
                            }
                        }
                    }
                    if !self.spec_killing().contains(x) {
                        assert(cascade_reaches(before.spec_gates(), c, e, x));
                        let g = choose|g: int| #[trigger] e.contains(g) && uses_operand(before.spec_gates()[g], x);
                        assert(gate_operands_below(before.spec_gates()[g], g));
                    }
                }
                if lc {
                    before.liveness_wrt_usage.lemma_users_finite();
                    assert(!(before.spec_gates()[c as int] is Thombstone));
                    lemma_increment_keeps_listing(
                        before.spec_gates(),
                        c,
                        root,
                        before.spec_users(),
                        before.spec_killing(),
                        self.spec_users(),
                        self.spec_killing(),
                        e,
                    );
                    if r0 is Folding {
                        assert(before.spec_users()[folded_index(r0) as int].contains(root));
                    }
                }
            }
            k = k + 1;
        }
        proof {
            if lc {
                Self::lemma_accept_live(*old(self), *self, r0, root, mid);
            }
        }
    }

    /// A rewrite that keeps the users listed for every gate but its root, and connects the root
    /// to each operand of its new operation, keeps the pass consistent.
    proof fn lemma_accept_live(old: Self, new: Self, r: Reassociation, root: GateIdx, mid: Self)
        requires
            old.live_ok(),
            old.ok(),
            new.ok(),
            root < old.size(),
            !old.dead@.contains(root),
            rewrite_alive(old.spec_gates(), r),
            rewrite_shape(r),
            rewrite_under(r, root as int),
            new.spec_gates() == accepted_gates(old.spec_gates(), r, root),
            new.dead == old.dead,
            new.operation_gates == old.operation_gates,
            listing(new.spec_gates(), new.spec_users(), new.spec_killing(), root as int),
            operands_alive(new.spec_gates()),
            forall|j: int| 0 <= j < connected(r).len() ==> #[trigger] new.spec_users()[connected(r)[j] as int].contains(root),
            r is Folding ==> new.spec_users()[folded_index(r) as int].contains(root),
        ensures
            new.live_ok(),
    {
        let g0 = old.spec_gates();
        let g = new.spec_gates();
        assert forall|v: GateIdx, x: GateIdx|
            v < g.len() && v as int != -1 && !new.spec_killing().contains(v) && #[trigger] uses_operand(g[v as int], x)
                implies new.spec_users()[x as int].contains(v) by {
            if v == root {
                match r {
                    Reassociation::Ternary { new_root, .. } => {
                        let k = choose|k: int| 0 <= k < connected(r).len() && connected(r)[k] == x;
                        assert(new.spec_users()[connected(r)[k] as int].contains(root));
                    },
                    Reassociation::Folding { new_root, replacing_index, .. } => {
                        if x != replacing_index {
                            let k = choose|k: int| 0 <= k < connected(r).len() && connected(r)[k] == x;
                            assert(new.spec_users()[connected(r)[k] as int].contains(root));
                        }
                    },
                }
            }
        }
        assert forall|v: GateIdx| v < new.size() implies (#[trigger] new.dead@.contains(v) <==> g[v as int] is Thombstone) by {
            assert(old.dead@.contains(v) <==> g0[v as int] is Thombstone);
            if v == root {
                assert(!(g0[root as int] is Thombstone));
            }
            if r is Folding && v == folded_index(r) {
                assert(!(g0[v as int] is Thombstone));
            }
        }
    }

    /// A rewrite keeps every gate found by key with that key: the keys of the gates it
    /// replaces go, and the new gates are found under their own keys.
    proof fn lemma_accept_seen(old: Self, new: Self, r: Reassociation, old_root: Gate, root: GateIdx)
        requires
            old.seen_ok(),
            old.live_ok(),
            root < old.size(),
            !old.dead@.contains(root),
            old_root == old.spec_gates()[root as int],
            rewrite_alive(old.spec_gates(), r),
            rewrite_under(r, root as int),
            new.size() == old.size(),
            new.spec_gates() == accepted_gates(old.spec_gates(), r, root),
            new.spec_seen() == accepted_seen(old.spec_seen(), old.spec_gates(), r, old_root, root),
            new.spec_dead() == old.spec_dead(),
        ensures
            new.seen_ok(),
    {
        let g0 = old.spec_gates();
        let g = new.spec_gates();
        assert(!(g0[root as int] is Thombstone));
        assert forall|k: u128|
            #[trigger] new.seen@.contains_key(k) && !new.dead@.contains(new.seen@[k]) implies new.seen@[k] < new.size()
                && gate_key(g[new.seen@[k] as int]) == k by {
            let v = new.seen@[k];
            match r {
                Reassociation::Ternary { new_root, .. } => {
                    let m1 = without_key(old.seen@, old_root);
                    if !(new_root is Thombstone) && k == gate_key(new_root) {
                        assert(v == root);
                    } else {
                        assert(m1.contains_key(k) && v == m1[k]);
                        assert(old.seen@.contains_key(k) && old.seen@[k] == v);
                        assert(k != gate_key(old_root));
                        assert(gate_key(g0[v as int]) == k);
                        assert(v != root);
                    }
                },
                Reassociation::Folding { new_root, folded_gate, replacing_index, .. } => {
                    let ri = replacing_index;
                    assert(!(g0[ri as int] is Thombstone));
                    assert(ri < root);
                    let m1 = without_key(without_key(old.seen@, old_root), g0[ri as int]);
                    let m2 = with_key(m1, folded_gate, ri);
                    if !(new_root is Thombstone) && k == gate_key(new_root) {
                        assert(v == root);
                    } else if !(folded_gate is Thombstone) && k == gate_key(folded_gate) {
                        assert(v == ri);
                    } else {
                        assert(m1.contains_key(k) && v == m1[k]);
                        assert(old.seen@.contains_key(k) && old.seen@[k] == v);
                        assert(k != gate_key(old_root));
                        assert(k != gate_key(g0[ri as int]));
                        assert(gate_key(g0[v as int]) == k);
                        assert(v != root && v != ri);
                    }
                },
            }
        }
    }

    /// Killing gates keeps every gate found by key with that key: entries only go, and a gate
    /// that changes dies.
    proof fn lemma_kill_seen(&self, new: &Self)
        requires
            self.seen_ok(),
            self.kills_within(new),
        ensures
            new.seen_ok(),
    {
        assert forall|k: u128|
            #[trigger] new.seen@.contains_key(k) && !new.dead@.contains(new.seen@[k]) implies new.seen@[k] < new.size()
                && gate_key(new.spec_gates()[new.seen@[k] as int]) == k by {
            let v = new.seen@[k];
            assert(self.seen@.contains_key(k) && self.seen@[k] == v);
            assert(!self.dead@.contains(v));
            if new.spec_gates()[v as int] != self.spec_gates()[v as int] {
                assert(new.dead@.contains(v));
            }
        }
    }

    /// With nothing on the killing list, killing changes no gate.
    proof fn lemma_kill_nothing(&self, new: &Self)
        requires
            self.spec_killing() == Set::<GateIdx>::empty(),
            self.killed_unused(new),
        ensures
            new.spec_gates() == self.spec_gates(),
            new.spec_users() == self.spec_users(),
    {
        assert forall|i: int| 0 <= i < self.size() implies #[trigger] new.spec_gates()[i] == self.spec_gates()[i] by {
            if new.spec_gates()[i] != self.spec_gates()[i] {
                assert(self.killed_or_orphaned(i as GateIdx));
            }
        }
        assert(new.spec_gates() =~= self.spec_gates());
    }

    /// Killing gates keeps the value of every gate with a user.
    proof fn lemma_kill_keeps_values(&self, new: &Self, with: Seq<u64>, q: u64, j: int, d: GateIdx)
        requires
            self.ok(),
            self.live_ok(),
            self.kills_within(new),
            0 <= j < self.size(),
            self.spec_users()[j].contains(d),
        ensures
            gate_value(new.spec_gates(), with, q, j) == gate_value(self.spec_gates(), with, q, j),
        decreases j,
    {
        let jj = j as GateIdx;
        assert(jj as int == j);
        self.liveness_wrt_usage.lemma_users_finite();
        lemma_members_len(self.spec_users()[j]);
        assert(!self.spec_killing().contains(jj));
        assert(!self.killed_or_orphaned(jj));
        assert(new.spec_gates()[j] == self.spec_gates()[j]);
        if let Gate::BinOp(_, a, b) = self.spec_gates()[j] {
            assert(uses_operand(self.spec_gates()[jj as int], a));
            assert(uses_operand(self.spec_gates()[jj as int], b));
            if a < j {
                assert(self.spec_users()[a as int].contains(jj));
                self.lemma_kill_keeps_values(new, with, q, a as int, jj);
            }
            if b < j {
                assert(self.spec_users()[b as int].contains(jj));
                self.lemma_kill_keeps_values(new, with, q, b as int, jj);
            }
        }
    }

    /// Killing the gates left without users keeps the pass consistent: it turns only gates
    /// without users into tombstones, and marks them dead.
    proof fn lemma_killing_keeps_live(&self, new: &Self)
        requires
            self.ok(),
            new.ok(),
            self.live_ok(),
            self.killed_unused(new),
        ensures
            listing(new.spec_gates(), new.spec_users(), new.spec_killing(), -1),
            operands_alive(new.spec_gates()),
            forall|v: GateIdx| v < new.size() ==> (#[trigger] new.dead@.contains(v) <==> new.spec_gates()[v as int] is Thombstone),
    {
        let g0 = self.spec_gates();
        let g = new.spec_gates();
        let u = self.spec_users();
        self.liveness_wrt_usage.lemma_users_finite();
        assert forall|v: GateIdx, x: GateIdx|
            v < g.len() && v as int != -1 && !new.spec_killing().contains(v) && #[trigger] uses_operand(g[v as int], x)
                implies new.spec_users()[x as int].contains(v) by {
            assert(g[v as int] == g0[v as int]);
            assert(!self.dead@.contains(v));
            assert(!new.dead@.contains(v));
            assert(!self.spec_killing().contains(v));
            assert(uses_operand(g0[v as int], x));
        }
        assert forall|v: GateIdx, d: GateIdx| v < g.len() && #[trigger] new.spec_users()[v as int].contains(d) implies !(
        g[v as int] is Thombstone) by {
            assert(u[v as int].contains(d));
            assert(!(g0[v as int] is Thombstone));
            if g[v as int] != g0[v as int] {
                assert(self.killed_or_orphaned(v));
                if self.spec_killing().contains(v) {
                    assert(!u[v as int].contains(d));
                } else {
                    lemma_members_len(u[v as int]);
                }
            }
        }
        assert forall|v: GateIdx, x: GateIdx| v < g.len() && #[trigger] uses_operand(g[v as int], x) implies x < g.len()
            && !(g[x as int] is Thombstone) by {
            assert(g[v as int] == g0[v as int]);
            assert(!self.dead@.contains(v));
            assert(!new.dead@.contains(v));
            assert(!self.spec_killing().contains(v));
            assert(uses_operand(g0[v as int], x));
            assert(u[x as int].contains(v));
            assert(new.spec_users()[x as int].contains(v));
        }
        assert forall|v: GateIdx| v < new.size() implies (#[trigger] new.dead@.contains(v) <==> g[v as int] is Thombstone) by {
            assert(self.dead@.contains(v) <==> g0[v as int] is Thombstone);
        }
    }

    /// With no gate on the killing list, a consistent pass has usages consistent with its gates,
    /// as the rebuilding needs them.
    proof fn lemma_consistent_at_rest(&self)
        requires
            self.ok(),
            self.live_ok(),
            topological(self.spec_gates()),
            self.spec_killing() == Set::<GateIdx>::empty(),
        ensures
            usages_consistent(self.spec_gates(), self.spec_users(), rebuilt_len(self.spec_gates(), self.spec_users())),
    {
        let g = self.spec_gates();
        let u = self.spec_users();
        assert forall|i: int| 0 <= i < rebuilt_len(g, u) && !u[i].is_empty() implies match #[trigger] g[i] {
            Gate::Thombstone => false,
            Gate::BinOp(_, lhs, rhs) => lhs < i && rhs < i && u[lhs as int].contains(i as GateIdx) && u[rhs as int].contains(
                i as GateIdx,
            ),
            _ => true,
        } by {
            if !(exists|d: GateIdx| u[i].contains(d)) {
                assert(u[i] =~= Set::<GateIdx>::empty());
            }
            let d = choose|d: GateIdx| u[i].contains(d);
            assert(u[(i as GateIdx) as int].contains(d));
            assert(gate_operands_below(g[i], i));
            if let Gate::BinOp(_, l, r) = g[i] {
                assert(uses_operand(g[(i as GateIdx) as int], l));
                assert(uses_operand(g[(i as GateIdx) as int], r));
            }
        }
    }

    /// Killing gates keeps the operands of every operation before it: a gate it changes becomes
    /// a tombstone.
    proof fn lemma_killing_keeps_topological(&self, new: &Self)
        requires
            self.killed_unused(new),
            topological(self.spec_gates()),
        ensures
            topological(new.spec_gates()),
            new.spec_users() == self.spec_users(),
    {
        assert forall|i: int| 0 <= i < new.spec_gates().len() implies #[trigger] gate_operands_below(new.spec_gates()[i], i) by {
            assert(gate_operands_below(self.spec_gates()[i], i));
        }
    }

    /// Kills the gates left without users, then keeps only the live operations.
    fn prepare_for_next_round(&mut self)
        requires
            old(self).ok(),
        ensures
            final(self).ok(),
            final(self).size() == old(self).size(),
            final(self).q == old(self).q,
            final(self).num_operations() <= old(self).num_operations(),
            old(self).killed_unused(final(self)),
            final(self).spec_operations() == old(self).spec_operations().filter(
                |g: GateIdx| !final(self).spec_dead().contains(g) && !final(self).spec_constants().contains(g),
            ),
            old(self).live_ok() ==> final(self).live_ok(),
    {
        let ghost before = *self;
        self.kill_unused_gates();
        let ghost killed = *self;
        self.collect_survivors_in_operation_gates();
        proof {
            if before.live_ok() {
                before.lemma_killing_keeps_live(&killed);
                let keep = |g: GateIdx| !killed.dead@.contains(g) && !killed.constant_gates@.contains(g);
                assert forall|j: int| 0 <= j < self.operation_gates@.len() implies !self.dead@.contains(
                    #[trigger] self.operation_gates@[j],
                ) by {
                    assert(killed.operation_gates@.filter(keep).contains(self.operation_gates@[j]));
                    killed.operation_gates@.lemma_filter_contains_rev(keep, self.operation_gates@[j]);
                }
            }
        }
    }

    /// Keeps, in order, the operations that are neither dead nor folded into constants.
    fn collect_survivors_in_operation_gates(&mut self)
        requires
            old(self).ok(),
        ensures
            final(self).ok(),
            final(self).size() == old(self).size(),
            final(self).q == old(self).q,
            final(self).num_operations() <= old(self).num_operations(),
            final(self).operation_gates@ == old(self).operation_gates@.filter(
                |g: GateIdx| !old(self).dead@.contains(g) && !old(self).constant_gates@.contains(g),
            ),
            final(self).gates == old(self).gates,
            final(self).dead == old(self).dead,
            final(self).seen == old(self).seen,
            final(self).constant_gates == old(self).constant_gates,
            final(self).liveness_wrt_usage == old(self).liveness_wrt_usage,
    {
        let ghost ops = self.operation_gates@;
        let ghost keep = |g: GateIdx| !self.dead@.contains(g) && !self.constant_gates@.contains(g);
        let mut survivors: Vec<GateIdx> = Vec::new();
        let mut k: usize = 0;
        while k < self.operation_gates.len()
            invariant
                ops == self.operation_gates@,
                keep == (|g: GateIdx| !self.dead@.contains(g) && !self.constant_gates@.contains(g)),
                k <= ops.len(),
                survivors@ == ops.take(k as int).filter(keep),
            decreases ops.len() - k,
        {
            let op_gate_idx = self.operation_gates[k];
            proof {
                reveal(Seq::filter);
                assert(ops.take(k as int + 1).drop_last() =~= ops.take(k as int));
                assert(ops.take(k as int + 1).last() == op_gate_idx);
            }
            if !self.dead.contains(&op_gate_idx) && !self.constant_gates.contains(&op_gate_idx) {
                survivors.push(op_gate_idx);
            }
            k = k + 1;
        }
        proof {
            assert(ops.take(ops.len() as int) =~= ops);
            ops.lemma_filter_len(keep);
            assert forall|j: int| 0 <= j < survivors@.len() implies #[trigger] survivors@[j] < self.size() by {
                assert(ops.filter(keep).contains(survivors@[j]));
                ops.lemma_filter_contains_rev(keep, survivors@[j]);
            }
        }
        self.operation_gates = survivors;
    }

    /// On the killing list, or an operand without users of an operation on it.
    pub closed spec fn killed_or_orphaned(&self, i: GateIdx) -> bool {
        ||| self.spec_killing().contains(i)
        ||| (self.spec_users()[i as int].len() == 0 && exists|g: GateIdx|
            #[trigger] self.spec_killing().contains(g) && uses_operand(self.spec_gates()[g as int], i))
    }

    /// `new` differs from `self` only by gates killed: the dead gates stay dead; a gate that
    /// changes, or newly dies, becomes a dead tombstone, and is on the killing list or an operand
    /// without users of an operation on it; constants and gates by key only lose entries of
    /// gates that newly die.
    pub closed spec fn kills_within(&self, new: &Self) -> bool {
        let n = self.size();
        &&& new.size() == n
        &&& new.q == self.q
        &&& forall|i: GateIdx| #[trigger] self.dead@.contains(i) ==> new.dead@.contains(i)
        &&& forall|i: int|
            0 <= i < n && #[trigger] new.spec_gates()[i] != self.spec_gates()[i] ==> new.spec_gates()[i] is Thombstone
                && new.dead@.contains(i as GateIdx) && self.killed_or_orphaned(i as GateIdx)
        &&& forall|i: GateIdx|
            #[trigger] new.dead@.contains(i) && !self.dead@.contains(i) ==> i < n && new.spec_gates()[i as int] is Thombstone
                && self.killed_or_orphaned(i)
        &&& forall|i: GateIdx| #[trigger] new.constant_gates@.contains(i) ==> self.constant_gates@.contains(i)
        &&& forall|i: GateIdx|
            self.constant_gates@.contains(i) && !#[trigger] new.constant_gates@.contains(i) ==> new.dead@.contains(i)
                && !self.dead@.contains(i)
        &&& forall|k: u128|
            #[trigger] new.seen@.contains_key(k) ==> self.seen@.contains_key(k) && new.seen@[k] == self.seen@[k]
        &&& forall|k: u128|
            self.seen@.contains_key(k) && !#[trigger] new.seen@.contains_key(k) ==> exists|i: GateIdx|
                #[trigger] new.dead@.contains(i) && !self.dead@.contains(i) && !(self.spec_gates()[i as int] is Thombstone)
                    && gate_key(self.spec_gates()[i as int]) == k
    }

    /// What killing the gates left without users does: the usages stay and the killing list
    /// empties; each gate that was on it is dead; nothing else changes but as `kills_within`
    /// allows.
    pub closed spec fn killed_unused(&self, new: &Self) -> bool {
        &&& self.kills_within(new)
        &&& new.spec_users() == self.spec_users()
        &&& new.spec_killing() == Set::<GateIdx>::empty()
        &&& forall|i: GateIdx| #[trigger] self.spec_killing().contains(i) ==> new.dead@.contains(i)
    }

    /// Marks the gates left without users dead and turns them into tombstones, with the
    /// operands that only they used.
    #[verifier::spinoff_prover]
    fn kill_unused_gates(&mut self)
        requires
            old(self).ok(),
        ensures
            final(self).ok(),
            final(self).size() == old(self).size(),
            final(self).q == old(self).q,
            final(self).operation_gates == old(self).operation_gates,
            old(self).killed_unused(final(self)),
    {
        let to_kill_list = set_elements(self.liveness_wrt_usage.get_killing_list());
        let n = gate_arena_len(&self.gates);
        let ghost start = *self;
        proof {
            assert forall|j: int| 0 <= j < to_kill_list@.len() implies #[trigger] to_kill_list@[j] < n
                && start.spec_killing().contains(to_kill_list@[j]) by {
                assert(to_kill_list@.to_set().contains(to_kill_list@[j]));
            }
            assert(start.kills_within(self));
        }
        let mut k: usize = 0;
        while k < to_kill_list.len()
            invariant
                self.ok(),
                start.ok(),
                n == self.size(),
                n == start.size(),
                k <= to_kill_list@.len(),
                forall|j: int|
                    0 <= j < to_kill_list@.len() ==> #[trigger] to_kill_list@[j] < n && start.spec_killing().contains(
                        to_kill_list@[j],
                    ),
                self.q == old(self).q,
                self.operation_gates == old(self).operation_gates,
                self.liveness_wrt_usage == start.liveness_wrt_usage,
                start.kills_within(self),
                forall|j: int| 0 <= j < k ==> self.dead@.contains(#[trigger] to_kill_list@[j]),
            decreases to_kill_list@.len() - k,
        {
            let to_kill_idx = to_kill_list[k];
            let ghost before = *self;
            if !self.dead.contains(&to_kill_idx) {
                self.dead.insert(to_kill_idx);
                let to_kill = gate_arena_get(&self.gates, to_kill_idx);
                proof {
                    assert(to_kill == start.spec_gates()[to_kill_idx as int]);
                    assert(!start.dead@.contains(to_kill_idx));
                }
                match to_kill {
                    Gate::Const(_) => {
                        self.constant_gates.remove(&to_kill_idx);
                    },
                    Gate::BinOp(_, lhs, rhs) => {
                        if self.liveness_wrt_usage.num_usage(lhs) == 0 {
                            proof {
                                assert(uses_operand(start.spec_gates()[to_kill_idx as int], lhs));
                                assert(start.killed_or_orphaned(lhs));
                            }
                            gate_arena_set(&mut self.gates, lhs, Gate::Thombstone);
                            self.dead.insert(lhs);
                        }
                        if self.liveness_wrt_usage.num_usage(rhs) == 0 {
                            proof {
                                assert(uses_operand(start.spec_gates()[to_kill_idx as int], rhs));
                                assert(start.killed_or_orphaned(rhs));
                            }
                            gate_arena_set(&mut self.gates, rhs, Gate::Thombstone);
                            self.dead.insert(rhs);
                        }
                    },
                    _ => {},
                }
                if let Some(key) = key_of(&to_kill) {
                    self.seen.remove(&key);
                }
                gate_arena_set(&mut self.gates, to_kill_idx, Gate::Thombstone);
                proof {
                    assert(start.killed_or_orphaned(to_kill_idx));
                    assert forall|kk: u128|
                        start.seen@.contains_key(kk) && !#[trigger] self.seen@.contains_key(kk) implies exists|i: GateIdx|
                            #[trigger] self.dead@.contains(i) && !start.dead@.contains(i) && !(start.spec_gates()[i as int] is Thombstone)
                                && gate_key(start.spec_gates()[i as int]) == kk by {
                        if before.seen@.contains_key(kk) {
                            assert(self.dead@.contains(to_kill_idx));
                        } else {
                            let w = choose|i: GateIdx|
                                #[trigger] before.dead@.contains(i) && !start.dead@.contains(i) && !(start.spec_gates()[i as int] is Thombstone)
                                    && gate_key(start.spec_gates()[i as int]) == kk;
                            assert(self.dead@.contains(w));
                        }
                    }
                }
            }
            k = k + 1;
        }
        self.liveness_wrt_usage.clear();
        proof {
            assert forall|i: GateIdx| #[trigger] start.spec_killing().contains(i) implies self.dead@.contains(i) by {
                assert(to_kill_list@.to_set().contains(i));
                let j = choose|j: int| 0 <= j < to_kill_list@.len() && to_kill_list@[j] == i;
                assert(self.dead@.contains(to_kill_list@[j]));
            }
            assert(self.spec_users() == start.spec_users());
        }
    }
}

/// No gate is a constant.
pub open spec fn no_constants(gates: Seq<Gate>) -> bool {
    forall|i: int| 0 <= i < gates.len() ==> !(#[trigger] gates[i] is Const)
}

/// Among gates `g`, the last one with the key of `x op y` comes before `i`.
pub open spec fn reuse_available(g: Seq<Gate>, op: BinOp, i: GateIdx, x: GateIdx, y: GateIdx) -> bool {
    &&& seen_upto(g, g.len() as int).contains_key(gate_key(Gate::BinOp(op, x, y)))
    &&& seen_upto(g, g.len() as int)[gate_key(Gate::BinOp(op, x, y))] < i
}

/// Operation `root` of circuit `c` can reuse a gate as a rewriting starts: an associative and
/// commutative operation with a candidate shape whose inner operation has at most one user,
/// where a gate computing one of the two new inner operations is the last with its key and
/// comes before the inner operation.
pub open spec fn reusable_at(c: CircuitView, root: int) -> bool {
    &&& 0 <= root < c.gates.len()
    &&& match c.gates[root] {
        Gate::BinOp(op, l, r) => op.spec_associative() && op.spec_commutative() && match spec_candidates(c.gates, op, l, r) {
            Some(cand) => topology_users(c)[cand.instruction_to_reassociate as int].len() <= 1 && (reuse_available(
                c.gates,
                op,
                cand.instruction_to_reassociate,
                candidate_try(cand, true).0.0,
                candidate_try(cand, true).0.1,
            ) || reuse_available(
                c.gates,
                op,
                cand.instruction_to_reassociate,
                candidate_try(cand, false).0.0,
                candidate_try(cand, false).0.1,
            )),
            None => false,
        },
        _ => false,
    }
}

/// Every operation among the first `k` gates is among the operations listed up to `k`.
pub proof fn lemma_operations_upto_contains(gates: Seq<Gate>, k: int, i: int)
    requires
        0 <= i < k <= gates.len(),
        gates.len() <= u32::MAX,
        gates[i] is BinOp,
    ensures
        operations_upto(gates, k).contains(i as GateIdx),
    decreases k,
{
    if i == k - 1 {
        assert(operations_upto(gates, k).last() == i as GateIdx);
    } else {
        lemma_operations_upto_contains(gates, k - 1, i);
        let prev = operations_upto(gates, k - 1);
        let j = choose|j: int| 0 <= j < prev.len() && prev[j] == i as GateIdx;
        if gates[k - 1] is BinOp {
            assert(operations_upto(gates, k)[j] == i as GateIdx);
        }
    }
}

/// No associative and commutative operation has a candidate shape under it.
pub open spec fn no_candidates(gates: Seq<Gate>) -> bool {
    forall|i: int|
        0 <= i < gates.len() ==> match #[trigger] gates[i] {
            Gate::BinOp(op, l, r) => op.spec_associative() && op.spec_commutative() ==> spec_candidates(gates, op, l, r) is None,
            _ => true,
        }
}

/// The users of each gate of a circuit, as a rewriting starts: the operations on it, and
/// itself for an output.
pub open spec fn topology_users(c: CircuitView) -> Seq<Set<GateIdx>> {
    Seq::new(c.gates.len(), |i: int| Set::new(|u: GateIdx| topology_user(c, i as GateIdx, u)))
}

/// Rewrites the circuit, round after round, to reuse operations computed elsewhere and to fold
/// constants that reassociation brings together; the gates left without users are dropped.
/// A round that leaves as many operations to look at as before is the last one.
pub fn reuse_driven_reassociate(circuit: &Circuit) -> (c: Circuit)
    requires
        circuit_wf(circuit@),
    ensures
        c@.q == circuit@.q,
        c@.gates.len() <= circuit@.gates.len(),
        forall|j: int| 0 <= j < c@.inputs.len() ==> #[trigger] c@.inputs[j] < c@.gates.len() && c@.gates[c@.inputs[j] as int] is Input,
        forall|j: int| 0 <= j < c@.outputs.len() ==> #[trigger] c@.outputs[j] < c@.gates.len(),
        c@.outputs.len() == circuit@.outputs.to_set().len(),
        circuit_wf(c@),
        circuit@.q > 0 ==> forall|k: int| 0 <= k < c@.outputs.len() ==> #[trigger] output_matched(c@, k, circuit@),
        circuit@.q > 0 ==> forall|j: int| 0 <= j < circuit@.outputs.len() ==> #[trigger] output_kept(c@, circuit@, j),
        circuit@.q > 0 && strictly_increasing(circuit@.outputs) ==> c@.outputs.len() == circuit@.outputs.len() && forall|k: int|
            0 <= k < c@.outputs.len() ==> #[trigger] output_computes(c@, k, circuit@, k),
        no_candidates(circuit@.gates) ==> c@ == rebuilt_circuit(circuit@, circuit@.gates, topology_users(circuit@)),
        no_constants(circuit@.gates) && (exists|root: int| reusable_at(circuit@, root)) ==> c@.gates.len()
            < circuit@.gates.len(),
{
    let mut reassociation_pass = ReassociationPass::new(circuit);
    let ghost users0 = reassociation_pass.spec_users();
    let ghost start_pass = reassociation_pass;
    let ghost mut first = true;
    let ghost premise = no_constants(circuit@.gates) && exists|root: int| reusable_at(circuit@, root);
    let ghost root_r: int = choose|root: int| reusable_at(circuit@, root);
    let ghost pos_r: int = choose|j: int|
        0 <= j < start_pass.operation_gates@.len() && start_pass.operation_gates@[j] == root_r as GateIdx;
    proof {
        if premise {
            assert(reusable_at(circuit@, root_r));
            lemma_operations_upto_contains(circuit@.gates, circuit@.gates.len() as int, root_r);
            assert(start_pass.operation_gates@.contains(root_r as GateIdx));
        }
        if no_constants(circuit@.gates) {
            assert(start_pass.spec_constants() =~= Set::<GateIdx>::empty());
        }
    }
    proof {
        assert forall|j: int| 0 <= j < circuit@.outputs.len() implies #[trigger] reassociation_pass.spec_users()[circuit@.outputs[j] as int].contains(
            circuit@.outputs[j],
        ) by {
            assert(topology_user(circuit@, circuit@.outputs[j], circuit@.outputs[j]));
        }
        assert forall|i: int| 0 <= i < reassociation_pass.spec_gates().len() implies #[trigger] gate_operands_below(
            reassociation_pass.spec_gates()[i],
            i,
        ) by {
            assert(gates_wf(circuit@.gates));
        }
    }
    loop
        invariant
            reassociation_pass.ok(),
            reassociation_pass.size() == circuit@.gates.len(),
            reassociation_pass.q == circuit@.q,
            circuit_wf(circuit@),
            topological(reassociation_pass.spec_gates()),
            forall|j: int|
                0 <= j < circuit@.outputs.len() ==> #[trigger] reassociation_pass.spec_users()[circuit@.outputs[j] as int].contains(
                    circuit@.outputs[j],
                ),
            reassociation_pass.live_ok(),
            reassociation_pass.spec_killing() == Set::<GateIdx>::empty(),
            reassociation_pass.seen_ok(),
            circuit@.q > 0 ==> forall|j: int, with: Seq<u64>|
                0 <= j < circuit@.outputs.len() ==> #[trigger] gate_value(
                    reassociation_pass.spec_gates(),
                    with,
                    circuit@.q,
                    circuit@.outputs[j] as int,
                ) == gate_value(circuit@.gates, with, circuit@.q, circuit@.outputs[j] as int),
            no_candidates(circuit@.gates) ==> reassociation_pass.spec_gates() == circuit@.gates
                && reassociation_pass.spec_users() == users0,
            premise == (no_constants(circuit@.gates) && exists|root: int| reusable_at(circuit@, root)),
            premise ==> reusable_at(circuit@, root_r) && 0 <= pos_r < start_pass.operation_gates@.len()
                && start_pass.operation_gates@[pos_r] == root_r as GateIdx,
            start_pass.spec_gates() == circuit@.gates,
            start_pass.spec_seen() == seen_upto(circuit@.gates, circuit@.gates.len() as int),
            start_pass.spec_dead() == Set::<GateIdx>::empty(),
            start_pass.spec_killing() == Set::<GateIdx>::empty(),
            start_pass.spec_users() == users0,
            users0.len() == circuit@.gates.len(),
            forall|i: GateIdx, u: GateIdx|
                i < circuit@.gates.len() ==> (#[trigger] users0[i as int].contains(u) <==> topology_user(circuit@, i, u)),
            no_constants(circuit@.gates) ==> reassociation_pass.spec_constants() == Set::<GateIdx>::empty(),
            premise && !first ==> exists|d: GateIdx| d < circuit@.gates.len() && #[trigger] reassociation_pass.spec_dead().contains(d),
            first ==> reassociation_pass == start_pass,
        ensures
            !first,
        decreases reassociation_pass.num_operations(),
    {
        let mut reassociated = false;
        let count = reassociation_pass.operation_gates.len();
        let ghost ops = reassociation_pass.operation_gates;
        let mut idx: usize = 0;
        while idx < count
            invariant
                reassociation_pass.ok(),
                reassociation_pass.size() == circuit@.gates.len(),
                reassociation_pass.q == circuit@.q,
                reassociation_pass.operation_gates == ops,
                count == ops@.len(),
                idx <= count,
                circuit_wf(circuit@),
                topological(reassociation_pass.spec_gates()),
                forall|j: int|
                    0 <= j < circuit@.outputs.len() ==> #[trigger] reassociation_pass.spec_users()[circuit@.outputs[j] as int].contains(
                        circuit@.outputs[j],
                    ),
                reassociation_pass.live_ok(),
                reassociation_pass.seen_ok(),
                circuit@.q > 0 ==> forall|j: int, with: Seq<u64>|
                    0 <= j < circuit@.outputs.len() ==> #[trigger] gate_value(
                        reassociation_pass.spec_gates(),
                        with,
                        circuit@.q,
                        circuit@.outputs[j] as int,
                    ) == gate_value(circuit@.gates, with, circuit@.q, circuit@.outputs[j] as int),
                no_candidates(circuit@.gates) ==> reassociation_pass.spec_gates() == circuit@.gates
                    && reassociation_pass.spec_users() == users0 && reassociation_pass.spec_killing() == Set::<GateIdx>::empty()
                    && !reassociated,
                premise == (no_constants(circuit@.gates) && exists|root: int| reusable_at(circuit@, root)),
                premise ==> reusable_at(circuit@, root_r) && 0 <= pos_r < start_pass.operation_gates@.len()
                    && start_pass.operation_gates@[pos_r] == root_r as GateIdx,
                start_pass.spec_gates() == circuit@.gates,
                start_pass.spec_seen() == seen_upto(circuit@.gates, circuit@.gates.len() as int),
                start_pass.spec_dead() == Set::<GateIdx>::empty(),
                start_pass.spec_killing() == Set::<GateIdx>::empty(),
                start_pass.spec_users() == users0,
                users0.len() == circuit@.gates.len(),
                forall|i: GateIdx, u: GateIdx|
                    i < circuit@.gates.len() ==> (#[trigger] users0[i as int].contains(u) <==> topology_user(circuit@, i, u)),
                no_constants(circuit@.gates) ==> reassociation_pass.spec_constants() == Set::<GateIdx>::empty(),
                premise && !first ==> exists|d: GateIdx| d < circuit@.gates.len() && #[trigger] reassociation_pass.spec_dead().contains(d),
                first ==> ops == start_pass.operation_gates,
                first && !reassociated ==> reassociation_pass == start_pass,
                first && premise && idx > pos_r ==> reassociated,
                no_constants(circuit@.gates) && reassociated ==> exists|x: GateIdx|
                    x < circuit@.gates.len() && #[trigger] reassociation_pass.spec_killing().contains(x),
            decreases count - idx,
        {
            let ghost was = reassociated;
            let ghost at_r = first && premise && !was && idx as int == pos_r;
            let gate_idx = reassociation_pass.operation_gates[idx];
            let gate = gate_arena_get(&reassociation_pass.gates, gate_idx);
            proof {
                if at_r {
                    assert(gate_idx as int == root_r);
                    assert(gate == circuit@.gates[root_r]);
                }
            }
            if let Gate::BinOp(bin_op_of_i, lhs_idx, rhs_idx) = gate {
                if is_op_associative_and_commutative(bin_op_of_i) {
                    let candidates = extract_reassociation_candidates(
                        &reassociation_pass.gates,
                        bin_op_of_i,
                        lhs_idx,
                        rhs_idx,
                    );
                    proof {
                        if no_candidates(circuit@.gates) {
                            assert(reassociation_pass.spec_gates()[gate_idx as int] == gate);
                            assert(candidates is None);
                        }
                        if at_r {
                            assert(candidates is Some);
                            let cand = candidates->0;
                            let i = cand.instruction_to_reassociate;
                            assert(users0[i as int] =~= topology_users(circuit@)[i as int]);
                            assert(reassociation_pass.spec_users()[i as int].len() <= 1);
                        }
                    }
                    if let Some(reassociation_candidates) = candidates {
                        // The inner operation must have no other user; an operation that lost its
                        // last user this round stays as it is.
                        if reassociation_pass.liveness_wrt_usage.num_usage(
                            reassociation_candidates.instruction_to_reassociate,
                        ) <= 1 && !reassociation_pass.liveness_wrt_usage.get_killing_list().contains(&gate_idx) {
                            let ghost pass0 = reassociation_pass;
                            let reassociation = try_reassociate_candidates(
                                reassociation_candidates,
                                bin_op_of_i,
                                &mut reassociation_pass,
                            );
                            proof {
                                if at_r {
                                    let cand = reassociation_candidates;
                                    let i = cand.instruction_to_reassociate;
                                    let g = circuit@.gates;
                                    let second = if cand.is_lhs {
                                        ((cand.b, cand.c), cand.a)
                                    } else {
                                        ((cand.a, cand.b), cand.c)
                                    };
                                    assert(pass0 == start_pass);
                                    if reuse_available(g, bin_op_of_i, i, cand.a, cand.c) {
                                        assert(spec_form_a_gate(pass0, bin_op_of_i, i, (cand.a, cand.c), cand.b, cand.is_lhs) is Some);
                                    } else {
                                        assert(!pass0.spec_constants().contains(cand.a));
                                        assert(spec_form_a_gate(pass0, bin_op_of_i, i, (cand.a, cand.c), cand.b, cand.is_lhs) is None);
                                        assert(candidate_try(cand, false).0 == second.0);
                                        assert(spec_form_a_gate(pass0, bin_op_of_i, i, second.0, second.1, cand.is_lhs) is Some);
                                    }
                                    assert(reassociation is Some);
                                }
                            }
                            if let Some(reassociation) = reassociation {
                                proof {
                                    lemma_candidate_rewrite_under(
                                        pass0,
                                        gate_idx,
                                        bin_op_of_i,
                                        lhs_idx,
                                        rhs_idx,
                                        reassociation_candidates,
                                        reassociation,
                                    );
                                    assert(ops@[idx as int] == gate_idx);
                                    assert(!pass0.spec_dead().contains(gate_idx));
                                }
                                let ghost pass2 = reassociation_pass;
                                proof {
                                    if no_constants(circuit@.gates) {
                                        lemma_reuse_drops_inner(
                                            pass0,
                                            gate_idx,
                                            bin_op_of_i,
                                            lhs_idx,
                                            rhs_idx,
                                            reassociation_candidates,
                                            reassociation,
                                        );
                                    }
                                }
                                reassociation_pass.accept_reassociation(reassociation, gate, gate_idx);
                                proof {
                                    if no_constants(circuit@.gates) {
                                        let x = severed(reassociation)[0];
                                        assert(reassociation_pass.spec_killing().contains(x));
                                        assert(x < circuit@.gates.len());
                                        assert(reassociation_pass.spec_constants() == accepted_constants(
                                            pass2.spec_constants(),
                                            reassociation,
                                        ));
                                    }
                                    if premise && !first {
                                        let d = choose|d: GateIdx| d < circuit@.gates.len() && #[trigger] pass2.spec_dead().contains(d);
                                        assert(reassociation_pass.spec_dead().contains(d));
                                    }
                                    ReassociationPass::lemma_accept_seen(
                                        pass2,
                                        reassociation_pass,
                                        reassociation,
                                        gate,
                                        gate_idx,
                                    );
                                    if circuit@.q > 0 {
                                        assert forall|j: int, with: Seq<u64>|
                                            0 <= j < circuit@.outputs.len() implies #[trigger] gate_value(
                                                reassociation_pass.spec_gates(),
                                                with,
                                                circuit@.q,
                                                circuit@.outputs[j] as int,
                                            ) == gate_value(circuit@.gates, with, circuit@.q, circuit@.outputs[j] as int) by {
                                            assert(gate_value(pass2.spec_gates(), with, circuit@.q, circuit@.outputs[j] as int)
                                                == gate_value(circuit@.gates, with, circuit@.q, circuit@.outputs[j] as int));
                                            lemma_accept_keeps_outputs(
                                                pass2,
                                                reassociation_pass.spec_gates(),
                                                gate_idx,
                                                bin_op_of_i,
                                                lhs_idx,
                                                rhs_idx,
                                                reassociation_candidates,
                                                reassociation,
                                                with,
                                                circuit@.outputs[j],
                                            );
                                        }
                                    }
                                    assert forall|j: int| 0 <= j < circuit@.outputs.len() implies #[trigger] reassociation_pass.spec_users()[circuit@.outputs[j] as int].contains(
                                        circuit@.outputs[j],
                                    ) by {
                                        assert(circuit@.outputs[j] < circuit@.gates.len());
                                        assert(pass2.spec_users()[circuit@.outputs[j] as int].contains(circuit@.outputs[j]));
                                    }
                                }
                                reassociated = true;
                            }
                        }
                    }
                }
            }
            proof {
                if at_r {
                    assert(reassociated);
                }
            }
            idx = idx + 1;
        }
        let before = reassociation_pass.operation_gates.len();
        let ghost pass1 = reassociation_pass;
        reassociation_pass.prepare_for_next_round();
        proof {
            pass1.lemma_killing_keeps_topological(&reassociation_pass);
            pass1.lemma_kill_seen(&reassociation_pass);
            if premise {
                if first {
                    assert(reassociated);
                    let x = choose|x: GateIdx| x < circuit@.gates.len() && #[trigger] pass1.spec_killing().contains(x);
                    assert(reassociation_pass.spec_dead().contains(x));
                } else {
                    let d = choose|d: GateIdx| d < circuit@.gates.len() && #[trigger] pass1.spec_dead().contains(d);
                    assert(reassociation_pass.spec_dead().contains(d));
                }
            }
            if no_constants(circuit@.gates) {
                assert(reassociation_pass.spec_constants() =~= Set::<GateIdx>::empty());
            }
            first = false;
            if no_candidates(circuit@.gates) {
                pass1.lemma_kill_nothing(&reassociation_pass);
            }
            if circuit@.q > 0 {
                assert forall|j: int, with: Seq<u64>|
                    0 <= j < circuit@.outputs.len() implies #[trigger] gate_value(
                        reassociation_pass.spec_gates(),
                        with,
                        circuit@.q,
                        circuit@.outputs[j] as int,
                    ) == gate_value(circuit@.gates, with, circuit@.q, circuit@.outputs[j] as int) by {
                    let o = circuit@.outputs[j];
                    assert(gate_value(pass1.spec_gates(), with, circuit@.q, o as int) == gate_value(
                        circuit@.gates,
                        with,
                        circuit@.q,
                        o as int,
                    ));
                    assert(o < circuit@.gates.len());
                    pass1.lemma_kill_keeps_values(&reassociation_pass, with, circuit@.q, o as int, o);
                }
            }
        }
        if !reassociated || reassociation_pass.operation_gates.len() >= before {
            break;
        }
    }
    let n = gate_arena_len(&reassociation_pass.gates);
    let usages = reassociation_pass.liveness_wrt_usage.all_usages();
    proof {
        assert(usages@.len() == usages@.map_values(|s: HashSet<GateIdx>| s@).len());
        assert forall|i: int, u: GateIdx|
            0 <= i < usages@.len() && #[trigger] usages@[i]@.contains(u) implies u < n by {
            assert(usages@.map_values(|s: HashSet<GateIdx>| s@)[i] == usages@[i]@);
        }
    }
    proof {
        let uv = usages@.map_values(|s: HashSet<GateIdx>| s@);
        assert(uv == reassociation_pass.spec_users());
        reassociation_pass.lemma_consistent_at_rest();
    }
    let c = new_reassociated_circuit_from(circuit, reassociation_pass.gates, usages);
    proof {
        let uv = usages@.map_values(|s: HashSet<GateIdx>| s@);
        assert(uv == reassociation_pass.spec_users());
        let start = RebuildState {
            passed: reassociation_pass.spec_gates(),
            alive: Seq::empty(),
            inputs: Seq::empty(),
            outputs: Seq::empty(),
            pending: circuit@.outputs.to_set(),
        };
        lemma_rebuild_outputs(start, uv, n as int);
        assert(circuit@.outputs.to_set().intersect(moved_upto(uv, n as int)) =~= circuit@.outputs.to_set()) by {
            assert forall|o: GateIdx| #[trigger] circuit@.outputs.to_set().contains(o) implies moved_upto(uv, n as int).contains(o) by {
                let j = choose|j: int| 0 <= j < circuit@.outputs.len() && circuit@.outputs[j] == o;
                assert(uv[o as int].contains(o));
            }
        }
        lemma_rebuild_output_indices(start, uv, n as int);
        let passed = reassociation_pass.spec_gates();
        if premise {
            let d = choose|d: GateIdx| d < circuit@.gates.len() && #[trigger] reassociation_pass.spec_dead().contains(d);
            assert(passed[d as int] is Thombstone);
            assert(uv[d as int] =~= Set::<GateIdx>::empty()) by {
                assert forall|u: GateIdx| !uv[d as int].contains(u) by {
                    if uv[d as int].contains(u) {
                        assert(reassociation_pass.spec_users()[d as int].contains(u));
                    }
                }
            }
            lemma_kept_before_drops(uv, n as int, d as int);
            lemma_rebuild_alive_len(start, uv, n as int);
        }
        if no_candidates(circuit@.gates) {
            assert(uv =~= topology_users(circuit@)) by {
                assert forall|i: int| 0 <= i < uv.len() implies #[trigger] uv[i] =~= topology_users(circuit@)[i] by {
                    assert forall|u: GateIdx| uv[i].contains(u) <==> topology_users(circuit@)[i].contains(u) by {
                        assert(users0[(i as GateIdx) as int].contains(u) <==> topology_user(circuit@, i as GateIdx, u));
                    }
                }
            }
        }
        if circuit@.q > 0 {
            assert forall|k: int| 0 <= k < c@.outputs.len() implies #[trigger] output_matched(c@, k, circuit@) by {
                let x = c@.outputs[k];
                assert(noted_output(start, uv, n as int, x));
                let i = choose|i: int|
                    0 <= i < n && !uv[i].is_empty() && start.pending.contains(i as GateIdx) && x
                        == #[trigger] kept_before(uv, i) as GateIdx;
                lemma_rebuild_alive_len(start, uv, i);
                assert(circuit@.outputs.contains(i as GateIdx));
                let j = choose|j: int| 0 <= j < circuit@.outputs.len() && circuit@.outputs[j] == i as GateIdx;
                assert forall|with: Seq<u64>|
                    #[trigger] gate_value(c@.gates, with, c@.q, c@.outputs[k] as int) == gate_value(
                        circuit@.gates,
                        with,
                        circuit@.q,
                        circuit@.outputs[j] as int,
                    ) by {
                    assert(gate_value(c@.gates, with, c@.q, kept_before(uv, i)) == gate_value(passed, with, circuit@.q, i));
                    assert(gate_value(passed, with, circuit@.q, circuit@.outputs[j] as int) == gate_value(
                        circuit@.gates,
                        with,
                        circuit@.q,
                        circuit@.outputs[j] as int,
                    ));
                }
                assert(output_computes(c@, k, circuit@, j));
            }
            assert forall|j: int| 0 <= j < circuit@.outputs.len() implies #[trigger] output_kept(c@, circuit@, j) by {
                let o = circuit@.outputs[j];
                assert(uv[o as int].contains(o));
                assert(start.pending.contains((o as int) as GateIdx));
                assert(!uv[o as int].is_empty());
                assert(o < n);
                lemma_rebuild_alive_len(start, uv, o as int);
                assert(c@.outputs.contains(kept_before(uv, o as int) as GateIdx));
                let k = choose|k: int| 0 <= k < c@.outputs.len() && c@.outputs[k] == kept_before(uv, o as int) as GateIdx;
                assert forall|with: Seq<u64>|
                    #[trigger] gate_value(c@.gates, with, c@.q, c@.outputs[k] as int) == gate_value(
                        circuit@.gates,
                        with,
                        circuit@.q,
                        circuit@.outputs[j] as int,
                    ) by {
                    assert(gate_value(c@.gates, with, c@.q, kept_before(uv, o as int)) == gate_value(
                        passed,
                        with,
                        circuit@.q,
                        o as int,
                    ));
                    assert(gate_value(passed, with, circuit@.q, circuit@.outputs[j] as int) == gate_value(
                        circuit@.gates,
                        with,
                        circuit@.q,
                        circuit@.outputs[j] as int,
                    ));
                }
                assert(output_computes(c@, k, circuit@, j));
            }
            if strictly_increasing(circuit@.outputs) {
                let outs = circuit@.outputs;
                assert forall|t: int| 0 <= t < outs.len() implies #[trigger] outs[t] < n && !uv[outs[t] as int].is_empty() by {
                    assert(uv[outs[t] as int].contains(outs[t]));
                }
                lemma_rebuild_outputs_in_order(start, uv, outs, n as int, n as int);
                assert forall|k: int| 0 <= k < c@.outputs.len() implies #[trigger] output_computes(c@, k, circuit@, k) by {
                    let o = outs[k];
                    assert(c@.outputs[k] == kept_before(uv, o as int) as GateIdx);
                    lemma_rebuild_alive_len(start, uv, o as int);
                    assert forall|with: Seq<u64>|
                        #[trigger] gate_value(c@.gates, with, c@.q, c@.outputs[k] as int) == gate_value(
                            circuit@.gates,
                            with,
                            circuit@.q,
                            circuit@.outputs[k] as int,
                        ) by {
                        assert(!uv[o as int].is_empty());
                        assert(gate_value(c@.gates, with, c@.q, kept_before(uv, o as int)) == gate_value(
                            passed,
                            with,
                            circuit@.q,
                            o as int,
                        ));
                        assert(gate_value(passed, with, circuit@.q, circuit@.outputs[k] as int) == gate_value(
                            circuit@.gates,
                            with,
                            circuit@.q,
                            circuit@.outputs[k] as int,
                        ));
                    }
                }
            }
        }
    }
    c
}

/// Reducing an operand of `+` or `*` modulo `q` leaves the result modulo `q` as it was.
proof fn lemma_reduce_operand(op: BinOp, x: int, y: int, q: int)
    requires
        q > 0,
        op is Add || op is Mul,
    ensures
        apply_op(op, x % q, y) % q == apply_op(op, x, y) % q,
        apply_op(op, y, x % q) % q == apply_op(op, y, x) % q,
{
    match op {
        BinOp::Add => {
            vstd::arithmetic::div_mod::lemma_add_mod_noop_right(y, x, q);
            assert(x % q + y == y + x % q);
        },
        _ => {
            vstd::arithmetic::div_mod::lemma_mul_mod_noop_general(x, y, q);
            vstd::arithmetic::div_mod::lemma_mul_mod_noop_general(y, x, q);
        },
    }
}

/// With `+` or `*`, regrouping three operands in any order leaves the result modulo `q` as it
/// was.
proof fn lemma_regroup(op: BinOp, a: int, b: int, c: int, q: int)
    requires
        q > 0,
        op is Add || op is Mul,
    ensures
        apply_op(op, apply_op(op, a, b) % q, c) % q == apply_op(op, apply_op(op, a, c) % q, b) % q,
        apply_op(op, apply_op(op, a, b) % q, c) % q == apply_op(op, apply_op(op, b, c) % q, a) % q,
        apply_op(op, a, apply_op(op, b, c) % q) % q == apply_op(op, apply_op(op, a, b) % q, c) % q,
        apply_op(op, a, apply_op(op, b, c) % q) % q == apply_op(op, apply_op(op, a, c) % q, b) % q,
{
    lemma_reduce_operand(op, apply_op(op, a, b), c, q);
    lemma_reduce_operand(op, apply_op(op, a, c), b, q);
    lemma_reduce_operand(op, apply_op(op, b, c), a, q);
    lemma_reduce_operand(op, apply_op(op, b, c), a, q);
    if op is Mul {
        vstd::arithmetic::mul::lemma_mul_is_associative(a, b, c);
        vstd::arithmetic::mul::lemma_mul_is_associative(a, c, b);
        vstd::arithmetic::mul::lemma_mul_is_associative(b, c, a);
        vstd::arithmetic::mul::lemma_mul_is_commutative(b, c);
        vstd::arithmetic::mul::lemma_mul_is_commutative(a, b * c);
        vstd::arithmetic::mul::lemma_mul_is_commutative(a, c);
        vstd::arithmetic::mul::lemma_mul_is_commutative(a, b);
    }
}

/// What an operation `op` on gates `l` and `r` computes, from the values of the gates.
pub open spec fn op_value(gates: Seq<Gate>, with: Seq<u64>, q: u64, op: BinOp, l: GateIdx, r: GateIdx) -> int {
    apply_op(op, gate_value(gates, with, q, l as int), gate_value(gates, with, q, r as int)) % (q as int)
}

/// The two rewrites a candidate shape allows: its new inner operands and the operand left
/// outside, for the first try and for the second.
pub open spec fn candidate_try(c: ReassociationCandidates, first: bool) -> ((GateIdx, GateIdx), GateIdx) {
    if first {
        ((c.a, c.c), c.b)
    } else if c.is_lhs {
        ((c.b, c.c), c.a)
    } else {
        ((c.a, c.b), c.c)
    }
}

/// A reassociation that reuses a gate keeps the value of the rewritten operation: when `lhs op
/// rhs` (with `op` associative and commutative) has a candidate shape and a gate `found`
/// computes the new inner operation of one of its tries, `found op other` computes what
/// `lhs op rhs` computes.
pub proof fn lemma_reuse_keeps_value(
    gates: Seq<Gate>,
    with: Seq<u64>,
    q: u64,
    op: BinOp,
    lhs: GateIdx,
    rhs: GateIdx,
    first: bool,
    found: GateIdx,
)
    requires
        topological(gates),
        q > 0,
        op.spec_associative() && op.spec_commutative(),
        lhs < gates.len(),
        rhs < gates.len(),
        spec_candidates(gates, op, lhs, rhs) is Some,
        found < gates.len(),
        gate_key(gates[found as int]) == gate_key(
            Gate::BinOp(
                op,
                candidate_try(spec_candidates(gates, op, lhs, rhs)->0, first).0.0,
                candidate_try(spec_candidates(gates, op, lhs, rhs)->0, first).0.1,
            ),
        ),
    ensures
        op_value(gates, with, q, op, found, candidate_try(spec_candidates(gates, op, lhs, rhs)->0, first).1)
            == op_value(gates, with, q, op, lhs, rhs),
{
    let c = spec_candidates(gates, op, lhs, rhs)->0;
    let t = candidate_try(c, first);
    let (x, y) = t.0;
    let m = q as int;
    lemma_hash_key_injective(spec_gate_hash(gates[found as int]), spec_gate_hash(Gate::BinOp(op, x, y)));
    let gv = |i: GateIdx| gate_value(gates, with, q, i as int);
    assert(gates[found as int] matches Gate::BinOp(fop, _, _) && fop == op);
    if let Gate::BinOp(_, fl, fr) = gates[found as int] {
        assert(gate_operands_below(gates[found as int], found as int));
        assert(fl < found && fr < found);
        assert((fl == x && fr == y) || (fl == y && fr == x));
        if op is Mul {
            vstd::arithmetic::mul::lemma_mul_is_commutative(gv(x), gv(y));
        }
        assert(gv(found) == apply_op(op, gv(x), gv(y)) % m);
    }
    if c.is_lhs {
        if let Gate::BinOp(_, a, b) = gates[lhs as int] {
            assert(gate_operands_below(gates[lhs as int], lhs as int));
            assert(a < lhs && b < lhs);
            assert(gv(lhs) == apply_op(op, gv(a), gv(b)) % m);
            lemma_regroup(op, gv(a), gv(b), gv(rhs), m);
        }
    } else {
        if let Gate::BinOp(_, b, cc) = gates[rhs as int] {
            assert(gate_operands_below(gates[rhs as int], rhs as int));
            assert(b < rhs && cc < rhs);
            assert(gv(rhs) == apply_op(op, gv(b), gv(cc)) % m);
            lemma_regroup(op, gv(lhs), gv(b), gv(cc), m);
        }
    }
}

/// What a constant gate stands for, modulo `q`.
pub open spec fn const_value(g: Gate, q: u64) -> int {
    match g {
        Gate::Const(v) => (v as int) % (q as int),
        _ => 0,
    }
}

/// A reassociation that folds keeps the value of the rewritten operation: when the new inner
/// operands of a try are two constant gates, the folded constant `op` the operand left outside
/// computes what `lhs op rhs` computes.
pub proof fn lemma_fold_rewrite_keeps_value(
    gates: Seq<Gate>,
    with: Seq<u64>,
    q: u64,
    op: BinOp,
    lhs: GateIdx,
    rhs: GateIdx,
    first: bool,
)
    requires
        topological(gates),
        q > 0,
        op.spec_associative() && op.spec_commutative(),
        lhs < gates.len(),
        rhs < gates.len(),
        spec_candidates(gates, op, lhs, rhs) is Some,
        ({
            let t = candidate_try(spec_candidates(gates, op, lhs, rhs)->0, first);
            &&& gates[t.0.0 as int] is Const
            &&& gates[t.0.1 as int] is Const
            &&& gate_fold_ok(Gate::BinOp(op, t.0.0, t.0.1), gates, q)
        }),
    ensures
        ({
            let t = candidate_try(spec_candidates(gates, op, lhs, rhs)->0, first);
            apply_op(
                op,
                const_value(spec_gate_fold(Gate::BinOp(op, t.0.0, t.0.1), gates, q), q),
                gate_value(gates, with, q, t.1 as int),
            ) % (q as int) == op_value(gates, with, q, op, lhs, rhs)
        }),
{
    let c = spec_candidates(gates, op, lhs, rhs)->0;
    let t = candidate_try(c, first);
    let (x, y) = t.0;
    let m = q as int;
    let gv = |i: GateIdx| gate_value(gates, with, q, i as int);
    if let (Gate::Const(vx), Gate::Const(vy)) = (gates[x as int], gates[y as int]) {
        let r = apply_op(op, vx as int, vy as int);
        assert(0 <= r % m < m);
        assert(((r % m) as u64) as int == r % m);
        vstd::arithmetic::div_mod::lemma_mod_twice(r, m);
        assert(gv(x) == (vx as int) % m && gv(y) == (vy as int) % m);
        match op {
            BinOp::Add => vstd::arithmetic::div_mod::lemma_add_mod_noop(vx as int, vy as int, m),
            _ => vstd::arithmetic::div_mod::lemma_mul_mod_noop(vx as int, vy as int, m),
        }
        assert(const_value(spec_gate_fold(Gate::BinOp(op, x, y), gates, q), q) == apply_op(op, gv(x), gv(y)) % m);
    }
    if c.is_lhs {
        if let Gate::BinOp(_, a, b) = gates[lhs as int] {
            assert(gate_operands_below(gates[lhs as int], lhs as int));
            assert(a < lhs && b < lhs);
            lemma_regroup(op, gv(a), gv(b), gv(rhs), m);
        }
    } else {
        if let Gate::BinOp(_, b, cc) = gates[rhs as int] {
            assert(gate_operands_below(gates[rhs as int], rhs as int));
            assert(b < rhs && cc < rhs);
            lemma_regroup(op, gv(lhs), gv(b), gv(cc), m);
        }
    }
}


/// With no constants, the rewrite that a try on the candidates of a live operation describes
/// is a reuse that leaves its inner operation without users.
proof fn lemma_reuse_drops_inner(
    pass: ReassociationPass,
    root: GateIdx,
    op: BinOp,
    lhs: GateIdx,
    rhs: GateIdx,
    cand: ReassociationCandidates,
    r: Reassociation,
)
    requires
        pass.ok(),
        pass.live_ok(),
        topological(pass.spec_gates()),
        pass.spec_constants() == Set::<GateIdx>::empty(),
        root < pass.size(),
        !pass.spec_killing().contains(root),
        pass.spec_gates()[root as int] == Gate::BinOp(op, lhs, rhs),
        spec_candidates(pass.spec_gates(), op, lhs, rhs) == Some(cand),
        pass.spec_users()[cand.instruction_to_reassociate as int].len() <= 1,
        ({
            let ReassociationCandidates { a, b, c, is_lhs, instruction_to_reassociate: i } = cand;
            let second = if is_lhs {
                ((b, c), a)
            } else {
                ((a, b), c)
            };
            let first_try = spec_form_a_gate(pass, op, i, (a, c), b, is_lhs);
            let second_try = spec_form_a_gate(pass, op, i, second.0, second.1, is_lhs);
            match first_try {
                Some(d) => describes(r, d),
                None => match second_try {
                    Some(d) => describes(r, d),
                    None => false,
                },
            }
        }),
    ensures
        drops_inner(pass.spec_users(), r, root),
        severed(r)[0] == cand.instruction_to_reassociate,
{
    let g = pass.spec_gates();
    assert(gate_operands_below(g[root as int], root as int));
    assert(gate_operands_below(g[lhs as int], lhs as int));
    assert(gate_operands_below(g[rhs as int], rhs as int));
    let ReassociationCandidates { a, b, c, is_lhs, instruction_to_reassociate: i } = cand;
    let first = spec_form_a_gate(pass, op, i, (a, c), b, is_lhs) is Some;
    let t = candidate_try(cand, first);
    let d = spec_form_a_gate(pass, op, i, t.0, t.1, is_lhs)->0;
    assert(spec_form_a_gate(pass, op, i, t.0, t.1, is_lhs) is Some);
    assert(describes(r, d));
    assert(t.1 < i) by {
        if is_lhs {
            assert(g[lhs as int] == Gate::BinOp(op, a, b));
        } else {
            assert(g[rhs as int] == Gate::BinOp(op, b, c));
        }
    }
    assert(r is Ternary);
    let u = pass.spec_users();
    pass.liveness_wrt_usage.lemma_users_finite();
    assert(uses_operand(g[root as int], i));
    assert(u[i as int].contains(root));
    lemma_only_member(u[i as int], root);
}

/// Gate `j` depends on gate `ri` through operands, by a path that avoids gate `root`.
pub open spec fn depends_avoiding(gates: Seq<Gate>, ri: int, root: int, j: int) -> bool
    decreases j,
{
    if j < 0 || j >= gates.len() {
        false
    } else if j == ri {
        true
    } else if j == root {
        false
    } else {
        match gates[j] {
            Gate::BinOp(_, a, b) => (a < j && depends_avoiding(gates, ri, root, a as int)) || (b < j
                && depends_avoiding(gates, ri, root, b as int)),
            _ => false,
        }
    }
}

/// No gate depends on a gate below zero.
proof fn lemma_depends_on_none(gates: Seq<Gate>, root: int, j: int)
    ensures
        !depends_avoiding(gates, -1, root, j),
    decreases j,
{
    if 0 <= j < gates.len() && j != root {
        if let Gate::BinOp(_, a, b) = gates[j] {
            if a < j {
                lemma_depends_on_none(gates, root, a as int);
            }
            if b < j {
                lemma_depends_on_none(gates, root, b as int);
            }
        }
    }
}

/// A gate before `ri` does not depend on it.
proof fn lemma_depends_below(gates: Seq<Gate>, ri: int, root: int, j: int)
    requires
        j < ri,
    ensures
        !depends_avoiding(gates, ri, root, j),
    decreases j,
{
    if 0 <= j < gates.len() && j != root {
        if let Gate::BinOp(_, a, b) = gates[j] {
            if a < j {
                lemma_depends_below(gates, ri, root, a as int);
            }
            if b < j {
                lemma_depends_below(gates, ri, root, b as int);
            }
        }
    }
}

/// Gates that change only at `root` and `ri` keep the value of each gate that does not depend
/// on `ri` but through `root`, once `root` keeps its value (or below `root`).
proof fn lemma_values_kept(old: Seq<Gate>, new: Seq<Gate>, with: Seq<u64>, q: u64, ri: int, root: int, j: int)
    requires
        new.len() == old.len(),
        0 <= root < old.len(),
        forall|i: int| 0 <= i < old.len() && i != root && i != ri ==> #[trigger] new[i] == old[i],
        0 <= j < old.len(),
        !depends_avoiding(old, ri, root, j),
        j < root || gate_value(new, with, q, root) == gate_value(old, with, q, root),
    ensures
        gate_value(new, with, q, j) == gate_value(old, with, q, j),
    decreases j,
{
    if j != root {
        assert(new[j] == old[j]);
        if let Gate::BinOp(_, a, b) = old[j] {
            if a < j {
                lemma_values_kept(old, new, with, q, ri, root, a as int);
            }
            if b < j {
                lemma_values_kept(old, new, with, q, ri, root, b as int);
            }
        }
    }
}

/// A gate with a user that depends on `ri` by a path avoiding `root` is `ri` itself, when
/// `root` is the only user of `ri` and the users are listed.
proof fn lemma_live_not_dependent(
    gates: Seq<Gate>,
    users: Seq<Set<GateIdx>>,
    killing: Set<GateIdx>,
    ri: int,
    root: int,
    j: int,
    d: GateIdx,
)
    requires
        users_listed(gates, users, killing, -1),
        killing_unused(users, killing),
        0 <= ri < root < gates.len(),
        gates.len() <= u32::MAX,
        forall|u: GateIdx| #[trigger] users[ri].contains(u) ==> u == root,
        0 <= j < gates.len(),
        users[j].contains(d),
        depends_avoiding(gates, ri, root, j),
    ensures
        j == ri,
    decreases j,
{
    if j != ri {
        let jj = j as GateIdx;
        assert(jj as int == j);
        assert(!killing.contains(jj));
        if let Gate::BinOp(_, a, b) = gates[j] {
            let x = if a < j && depends_avoiding(gates, ri, root, a as int) {
                a
            } else {
                b
            };
            assert(uses_operand(gates[jj as int], x));
            assert(users[x as int].contains(jj));
            lemma_live_not_dependent(gates, users, killing, ri, root, x as int, jj);
            assert(users[ri].contains(jj));
        }
    }
}

/// A finite set of at most one member that holds `x` holds nothing else.
proof fn lemma_only_member(s: Set<GateIdx>, x: GateIdx)
    requires
        s.finite(),
        s.len() <= 1,
        s.contains(x),
    ensures
        forall|u: GateIdx| #[trigger] s.contains(u) ==> u == x,
{
    assert forall|u: GateIdx| #[trigger] s.contains(u) implies u == x by {
        if u != x {
            lemma_members_len(s.remove(x));
            assert(s.remove(x).contains(u));
        }
    }
}

/// Accepting the rewrite that a try on the candidates of a live operation describes keeps the
/// value of every output: a reused gate computes the new inner operation, a folded constant
/// its value, and the gates whose value changes have no user but the rewritten operation.
proof fn lemma_accept_keeps_outputs(
    pass: ReassociationPass,
    new_gates: Seq<Gate>,
    root: GateIdx,
    op: BinOp,
    lhs: GateIdx,
    rhs: GateIdx,
    cand: ReassociationCandidates,
    r: Reassociation,
    with: Seq<u64>,
    o: GateIdx,
)
    requires
        pass.ok(),
        pass.live_ok(),
        pass.seen_ok(),
        topological(pass.spec_gates()),
        pass.spec_q() > 0,
        root < pass.size(),
        !pass.spec_dead().contains(root),
        !pass.spec_killing().contains(root),
        pass.spec_gates()[root as int] == Gate::BinOp(op, lhs, rhs),
        op.spec_associative() && op.spec_commutative(),
        spec_candidates(pass.spec_gates(), op, lhs, rhs) == Some(cand),
        pass.spec_users()[cand.instruction_to_reassociate as int].len() <= 1,
        ({
            let ReassociationCandidates { a, b, c, is_lhs, instruction_to_reassociate: i } = cand;
            let second = if is_lhs {
                ((b, c), a)
            } else {
                ((a, b), c)
            };
            let first_try = spec_form_a_gate(pass, op, i, (a, c), b, is_lhs);
            let second_try = spec_form_a_gate(pass, op, i, second.0, second.1, is_lhs);
            match first_try {
                Some(d) => describes(r, d),
                None => match second_try {
                    Some(d) => describes(r, d),
                    None => false,
                },
            }
        }),
        new_gates == accepted_gates(pass.spec_gates(), r, root),
        o < pass.size(),
        pass.spec_users()[o as int].contains(o),
    ensures
        gate_value(new_gates, with, pass.spec_q(), o as int) == gate_value(pass.spec_gates(), with, pass.spec_q(), o as int),
{
    let g = pass.spec_gates();
    let q = pass.spec_q();
    let n = g.len();
    lemma_candidate_rewrite_under(pass, root, op, lhs, rhs, cand, r);
    assert(gate_operands_below(g[root as int], root as int));
    assert(gate_operands_below(g[lhs as int], lhs as int));
    assert(gate_operands_below(g[rhs as int], rhs as int));
    let ReassociationCandidates { a, b, c, is_lhs, instruction_to_reassociate: i } = cand;
    assert(a < root && b < root && c < root && i < root);
    let first = spec_form_a_gate(pass, op, i, (a, c), b, is_lhs) is Some;
    let t = candidate_try(cand, first);
    let d = spec_form_a_gate(pass, op, i, t.0, t.1, is_lhs)->0;
    assert(spec_form_a_gate(pass, op, i, t.0, t.1, is_lhs) is Some);
    assert(describes(r, d));
    assert(t.1 < i) by {
        if is_lhs {
            assert(g[lhs as int] == Gate::BinOp(op, a, b));
        } else {
            assert(g[rhs as int] == Gate::BinOp(op, b, c));
        }
    }
    let old_root_value = gate_value(g, with, q, root as int);
    assert(old_root_value == op_value(g, with, q, op, lhs, rhs));
    let key = gate_key(Gate::BinOp(op, t.0.0, t.0.1));
    if pass.spec_seen().contains_key(key) && !pass.spec_dead().contains(pass.spec_seen()[key])
        && pass.spec_seen()[key] < i {
        let found = pass.spec_seen()[key];
        assert(found < n && gate_key(g[found as int]) == key);
        assert(r is Ternary);
        lemma_reuse_keeps_value(g, with, q, op, lhs, rhs, first, found);
        lemma_depends_on_none(g, root as int, found as int);
        lemma_depends_on_none(g, root as int, t.1 as int);
        lemma_values_kept(g, new_gates, with, q, -1, root as int, found as int);
        lemma_values_kept(g, new_gates, with, q, -1, root as int, t.1 as int);
        assert(new_gates[root as int] == Gate::BinOp(op, found, t.1));
        assert(gate_value(new_gates, with, q, root as int) == old_root_value);
        lemma_depends_on_none(g, root as int, o as int);
        lemma_values_kept(g, new_gates, with, q, -1, root as int, o as int);
    } else {
        assert(r is Folding);
        let folded = spec_gate_fold(Gate::BinOp(op, t.0.0, t.0.1), g, q);
        assert(new_gates == g.update(i as int, folded).update(root as int, Gate::BinOp(op, i, t.1)));
        lemma_fold_rewrite_keeps_value(g, with, q, op, lhs, rhs, first);
        assert(folded is Const);
        assert(gate_value(new_gates, with, q, i as int) == const_value(folded, q));
        lemma_depends_below(g, i as int, root as int, t.1 as int);
        lemma_values_kept(g, new_gates, with, q, i as int, root as int, t.1 as int);
        assert(gate_value(new_gates, with, q, root as int) == old_root_value);
        let u = pass.spec_users();
        pass.liveness_wrt_usage.lemma_users_finite();
        assert(uses_operand(g[root as int], i));
        assert(u[i as int].contains(root));
        lemma_only_member(u[i as int], root);
        if depends_avoiding(g, i as int, root as int, o as int) {
            lemma_live_not_dependent(g, u, pass.spec_killing(), i as int, root as int, o as int, o);
            assert(u[i as int].contains(o));
        }
        lemma_values_kept(g, new_gates, with, q, i as int, root as int, o as int);
    }
}

} // verus!
