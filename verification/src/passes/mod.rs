//! Passes over circuits: measurements and algebraic rewrites, and the rebuilding of a circuit
//! from the gates a rewrite keeps alive.
use vstd::prelude::*;

use la_arena::Arena;
use std::collections::HashSet;

use crate::arena::{gate_arena_alloc, gate_arena_get, gate_arena_items, gate_arena_len, gate_arena_new, gate_arena_set};
use crate::ir::{circuit_wf, gate_value, gates_wf, Circuit, CircuitView, Gate, GateIdx};
use crate::op::BinOp;
use crate::passes::sets::set_elements;
use crate::thin::idx_list_from_vec;

pub mod interner;
pub mod folding;
pub mod depth;
pub mod analysis;
pub mod liveness;
pub mod sets;

verus! {

broadcast use vstd::std_specs::hash::group_hash_axioms;

/// Reassociation applies to operations that are both associative and commutative.
pub fn is_op_associative_and_commutative(bin_op_of_i: BinOp) -> (r: bool)
    ensures
        r == (bin_op_of_i.spec_associative() && bin_op_of_i.spec_commutative()),
{
    bin_op_of_i.is_associative() && bin_op_of_i.is_commutative()
}

/// An operation that used gate `from` uses gate `to` instead, in each operand that was `from`.
pub open spec fn retarget(gate: Gate, from: GateIdx, to: GateIdx) -> Gate {
    match gate {
        Gate::BinOp(op, lhs, rhs) => Gate::BinOp(
            op,
            if lhs == from {
                to
            } else {
                lhs
            },
            if rhs == from {
                to
            } else {
                rhs
            },
        ),
        _ => gate,
    }
}

/// The gates after each user of gate `from` is retargeted to `to`; an output, which counts
/// itself among its users, is not.
pub open spec fn propagated(gates: Seq<Gate>, users: Set<GateIdx>, from: GateIdx, to: GateIdx, is_an_output: bool) -> Seq<Gate> {
    Seq::new(
        gates.len(),
        |i: int|
            if i <= u32::MAX && users.contains(i as GateIdx) && !(is_an_output && i == from as int) {
                retarget(gates[i], from, to)
            } else {
                gates[i]
            },
    )
}

/// Retargets the users of gate `gate_idx` to `new_gate_idx`.
pub(crate) fn propagate_new_index_to_using_gates(
    gate_idx: GateIdx,
    new_gate_idx: GateIdx,
    associated_gates: &mut Arena<Gate>,
    usages: &HashSet<GateIdx>,
    is_an_output: bool,
)
    requires
        forall|u: GateIdx| #[trigger] usages@.contains(u) ==> u < gate_arena_items(*old(associated_gates)).len(),
    ensures
        gate_arena_items(*final(associated_gates)) == propagated(
            gate_arena_items(*old(associated_gates)),
            usages@,
            gate_idx,
            new_gate_idx,
            is_an_output,
        ),
{
    let ghost g0 = gate_arena_items(*associated_gates);
    let users = set_elements(usages);
    let mut k: usize = 0;
    while k < users.len()
        invariant
            users@.to_set() == usages@,
            users@.no_duplicates(),
            forall|u: GateIdx| #[trigger] usages@.contains(u) ==> u < g0.len(),
            k <= users@.len(),
            gate_arena_items(*associated_gates) == Seq::new(
                g0.len(),
                |i: int|
                    if i <= u32::MAX && users@.take(k as int).contains(i as GateIdx) && !(is_an_output && i
                        == gate_idx as int) {
                        retarget(g0[i], gate_idx, new_gate_idx)
                    } else {
                        g0[i]
                    },
            ),
        decreases users@.len() - k,
    {
        let user = users[k];
        let ghost before = gate_arena_items(*associated_gates);
        proof {
            assert(users@.to_set().contains(user));
            assert(!users@.take(k as int).contains(user)) by {
                if users@.take(k as int).contains(user) {
                    let c = choose|c: int| 0 <= c < k && #[trigger] users@.take(k as int)[c] == user;
                    assert(users@[c] == users@[k as int]);
                }
            }
            assert(before[user as int] == g0[user as int]);
        }
        if !(is_an_output && user == gate_idx) {
            let user_gate = gate_arena_get(associated_gates, user);
            match user_gate {
                Gate::BinOp(bin_op, lhs, rhs) => {
                    let new_lhs = if lhs == gate_idx {
                        new_gate_idx
                    } else {
                        lhs
                    };
                    let new_rhs = if rhs == gate_idx {
                        new_gate_idx
                    } else {
                        rhs
                    };
                    gate_arena_set(associated_gates, user, Gate::BinOp(bin_op, new_lhs, new_rhs));
                },
                _ => {},
            }
        }
        proof {
            assert(users@.take(k as int + 1) =~= users@.take(k as int).push(user));
            let after = gate_arena_items(*associated_gates);
            assert forall|i: int| 0 <= i < g0.len() implies #[trigger] after[i] == (if i <= u32::MAX && users@.take(
                k as int + 1,
            ).contains(i as GateIdx) && !(is_an_output && i == gate_idx as int) {
                retarget(g0[i], gate_idx, new_gate_idx)
            } else {
                g0[i]
            }) by {
                if i == user as int {
                    assert(users@.take(k as int + 1)[k as int] == user);
                } else if i <= u32::MAX {
                    assert(i as GateIdx != user);
                    if users@.take(k as int + 1).contains(i as GateIdx) {
                        let c = choose|c: int| 0 <= c < k + 1 && #[trigger] users@.take(k as int + 1)[c] == i as GateIdx;
                        assert(users@.take(k as int)[c] == i as GateIdx);
                    }
                    if users@.take(k as int).contains(i as GateIdx) {
                        let c = choose|c: int| 0 <= c < k && #[trigger] users@.take(k as int)[c] == i as GateIdx;
                        assert(users@.take(k as int + 1)[c] == i as GateIdx);
                    }
                }
            }
            assert(gate_arena_items(*associated_gates) =~= Seq::new(
                g0.len(),
                |i: int|
                    if i <= u32::MAX && users@.take(k as int + 1).contains(i as GateIdx) && !(is_an_output && i
                        == gate_idx as int) {
                        retarget(g0[i], gate_idx, new_gate_idx)
                    } else {
                        g0[i]
                    },
            ));
        }
        k = k + 1;
    }
    proof {
        assert(users@.take(users@.len() as int) =~= users@);
        assert(gate_arena_items(*associated_gates) =~= propagated(g0, usages@, gate_idx, new_gate_idx, is_an_output));
    }
}

/// Where the rebuilding of a circuit stands: the gates of the pass (with the users of moved
/// gates retargeted), the gates moved so far, the new input and output indices, and the old
/// output indices not met yet.
pub struct RebuildState {
    pub passed: Seq<Gate>,
    pub alive: Seq<Gate>,
    pub inputs: Seq<GateIdx>,
    pub outputs: Seq<GateIdx>,
    pub pending: Set<GateIdx>,
}

/// Moves gate `i` to the end of the alive gates; it is a new input if it is an input gate and a
/// new output if it is a pending old output. If its index changes, its users are retargeted.
pub open spec fn transfer_step(s: RebuildState, users: Set<GateIdx>, i: int) -> RebuildState {
    let gate = s.passed[i];
    let new_idx = s.alive.len() as GateIdx;
    let is_an_output = s.pending.contains(i as GateIdx);
    RebuildState {
        passed: if new_idx as int == i {
            s.passed
        } else {
            propagated(s.passed, users, i as GateIdx, new_idx, is_an_output)
        },
        alive: s.alive.push(gate),
        inputs: if gate is Input {
            s.inputs.push(new_idx)
        } else {
            s.inputs
        },
        outputs: if is_an_output {
            s.outputs.push(new_idx)
        } else {
            s.outputs
        },
        pending: s.pending.remove(i as GateIdx),
    }
}

/// The rebuilding after the first `k` gates: a gate that has users is moved, one that has none
/// is dropped.
pub open spec fn rebuild_upto(start: RebuildState, usages: Seq<Set<GateIdx>>, k: int) -> RebuildState
    decreases k,
{
    if k <= 0 {
        start
    } else {
        let s = rebuild_upto(start, usages, k - 1);
        if usages[k - 1].is_empty() {
            s
        } else {
            transfer_step(s, usages[k - 1], k - 1)
        }
    }
}

/// The rebuilding moves at most one gate per gate looked at.
pub proof fn lemma_rebuild_len(start: RebuildState, usages: Seq<Set<GateIdx>>, k: int)
    requires
        0 <= k,
    ensures
        rebuild_upto(start, usages, k).alive.len() <= start.alive.len() + k,
    decreases k,
{
    if k > 0 {
        lemma_rebuild_len(start, usages, k - 1);
    }
}

/// The new input indices name input gates among the moved ones, and the new output indices
/// name moved gates.
pub open spec fn rebuild_shape_ok(s: RebuildState) -> bool {
    &&& forall|j: int| 0 <= j < s.inputs.len() ==> #[trigger] s.inputs[j] < s.alive.len() && s.alive[s.inputs[j] as int] is Input
    &&& forall|j: int| 0 <= j < s.outputs.len() ==> #[trigger] s.outputs[j] < s.alive.len()
}

/// The rebuilding names only moved gates as inputs and outputs.
pub proof fn lemma_rebuild_shape(start: RebuildState, usages: Seq<Set<GateIdx>>, k: int)
    requires
        0 <= k,
        start.alive.len() + k <= u32::MAX,
        rebuild_shape_ok(start),
    ensures
        rebuild_shape_ok(rebuild_upto(start, usages, k)),
    decreases k,
{
    if k > 0 {
        lemma_rebuild_shape(start, usages, k - 1);
        lemma_rebuild_len(start, usages, k - 1);
        let s = rebuild_upto(start, usages, k - 1);
        if !usages[k - 1].is_empty() {
            let t = transfer_step(s, usages[k - 1], k - 1);
            assert forall|j: int| 0 <= j < t.inputs.len() implies #[trigger] t.inputs[j] < t.alive.len() && t.alive[t.inputs[j] as int] is Input by {
                if j < s.inputs.len() {
                    assert(t.inputs[j] == s.inputs[j]);
                    assert(t.alive[s.inputs[j] as int] == s.alive[s.inputs[j] as int]);
                }
            }
            assert forall|j: int| 0 <= j < t.outputs.len() implies #[trigger] t.outputs[j] < t.alive.len() by {
                if j < s.outputs.len() {
                    assert(t.outputs[j] == s.outputs[j]);
                }
            }
        }
    }
}

/// The gates among the first `k` that a rebuilding moves: those with users.
pub open spec fn moved_upto(usages: Seq<Set<GateIdx>>, k: int) -> Set<GateIdx> {
    Set::new(|i: GateIdx| i < k && !usages[i as int].is_empty())
}

/// A rebuilding notes each pending old output whose gate it moves, once, and no other.
pub proof fn lemma_rebuild_outputs(start: RebuildState, usages: Seq<Set<GateIdx>>, k: int)
    requires
        0 <= k <= u32::MAX,
        start.pending.finite(),
    ensures
        rebuild_upto(start, usages, k).pending == start.pending.difference(moved_upto(usages, k)),
        rebuild_upto(start, usages, k).outputs.len() == start.outputs.len() + start.pending.intersect(
            moved_upto(usages, k),
        ).len(),
    decreases k,
{
    if k == 0 {
        assert(start.pending.difference(moved_upto(usages, 0)) =~= start.pending);
        assert(start.pending.intersect(moved_upto(usages, 0)) =~= Set::<GateIdx>::empty());
    } else {
        lemma_rebuild_outputs(start, usages, k - 1);
        let s = rebuild_upto(start, usages, k - 1);
        let i = (k - 1) as GateIdx;
        let before = start.pending.intersect(moved_upto(usages, k - 1));
        if usages[k - 1].is_empty() {
            assert(moved_upto(usages, k) =~= moved_upto(usages, k - 1));
        } else {
            assert(moved_upto(usages, k) =~= moved_upto(usages, k - 1).insert(i));
            assert(start.pending.difference(moved_upto(usages, k)) =~= s.pending.remove(i));
            if start.pending.contains(i) {
                assert(start.pending.intersect(moved_upto(usages, k)) =~= before.insert(i));
                assert(!before.contains(i));
            } else {
                assert(start.pending.intersect(moved_upto(usages, k)) =~= before);
            }
        }
    }
}

/// The number of gates among the first `k` that have users: where a kept gate moves to.
pub open spec fn kept_before(usages: Seq<Set<GateIdx>>, k: int) -> int
    decreases k,
{
    if k <= 0 {
        0
    } else if usages[k - 1].is_empty() {
        kept_before(usages, k - 1)
    } else {
        kept_before(usages, k - 1) + 1
    }
}

/// A rebuilding from no gates has moved, after the first `k` gates, as many as have users.
pub proof fn lemma_rebuild_alive_len(start: RebuildState, usages: Seq<Set<GateIdx>>, k: int)
    requires
        0 <= k,
        start.alive.len() == 0,
    ensures
        rebuild_upto(start, usages, k).alive.len() == kept_before(usages, k),
        0 <= kept_before(usages, k) <= k,
    decreases k,
{
    if k > 0 {
        lemma_rebuild_alive_len(start, usages, k - 1);
    }
}

/// `x` is the new index of a gate among the first `k` that has users and is pending at the
/// start of a rebuilding.
pub open spec fn noted_output(start: RebuildState, usages: Seq<Set<GateIdx>>, k: int, x: GateIdx) -> bool {
    exists|i: int|
        0 <= i < k && !usages[i].is_empty() && start.pending.contains(i as GateIdx) && x == #[trigger] kept_before(
            usages,
            i,
        ) as GateIdx
}

/// A rebuilding from no gates and no outputs notes as outputs the new indices of the pending
/// gates it moves, and nothing else.
pub proof fn lemma_rebuild_output_indices(start: RebuildState, usages: Seq<Set<GateIdx>>, k: int)
    requires
        0 <= k <= u32::MAX,
        start.alive.len() == 0,
        start.outputs.len() == 0,
        start.pending.finite(),
    ensures
        forall|t: int|
            0 <= t < rebuild_upto(start, usages, k).outputs.len() ==> noted_output(
                start,
                usages,
                k,
                #[trigger] rebuild_upto(start, usages, k).outputs[t],
            ),
        forall|i: int|
            0 <= i < k && !usages[i].is_empty() && #[trigger] start.pending.contains(i as GateIdx) ==> rebuild_upto(
                start,
                usages,
                k,
            ).outputs.contains(kept_before(usages, i) as GateIdx),
    decreases k,
{
    if k > 0 {
        lemma_rebuild_output_indices(start, usages, k - 1);
        lemma_rebuild_alive_len(start, usages, k - 1);
        lemma_rebuild_outputs(start, usages, k - 1);
        let s = rebuild_upto(start, usages, k - 1);
        let e = rebuild_upto(start, usages, k);
        let last = (k - 1) as GateIdx;
        assert(last as int == k - 1);
        assert(!moved_upto(usages, k - 1).contains(last));
        assert(s.pending.contains(last) == start.pending.contains(last));
        assert forall|t: int| 0 <= t < s.outputs.len() implies noted_output(start, usages, k, #[trigger] s.outputs[t]) by {
            assert(noted_output(start, usages, k - 1, s.outputs[t]));
        }
        if !usages[k - 1].is_empty() {
            assert(e == transfer_step(s, usages[k - 1], k - 1));
            assert forall|t: int| 0 <= t < e.outputs.len() implies noted_output(start, usages, k, #[trigger] e.outputs[t]) by {
                if t < s.outputs.len() {
                    assert(e.outputs[t] == s.outputs[t]);
                } else {
                    assert(e.outputs[t] == kept_before(usages, k - 1) as GateIdx);
                }
            }
            assert forall|i: int|
                0 <= i < k && !usages[i].is_empty() && #[trigger] start.pending.contains(i as GateIdx) implies e.outputs.contains(
                kept_before(usages, i) as GateIdx,
            ) by {
                if i < k - 1 {
                    assert(s.outputs.contains(kept_before(usages, i) as GateIdx));
                    let t = choose|t: int| 0 <= t < s.outputs.len() && s.outputs[t] == kept_before(usages, i) as GateIdx;
                    assert(e.outputs[t] == s.outputs[t]);
                } else {
                    assert(e.outputs[s.outputs.len() as int] == kept_before(usages, k - 1) as GateIdx);
                }
            }
        } else {
            assert(e == s);
        }
    }
}

/// Fewer gates than `k` among the first `k` have users when one of them has none.
pub proof fn lemma_kept_before_drops(usages: Seq<Set<GateIdx>>, k: int, d: int)
    requires
        0 <= d < k,
        usages[d].is_empty(),
    ensures
        kept_before(usages, k) < k,
    decreases k,
{
    if k - 1 == d {
        lemma_kept_before_at_most(usages, k - 1);
    } else {
        lemma_kept_before_drops(usages, k - 1, d);
    }
}

/// At most `k` gates among the first `k` have users.
pub proof fn lemma_kept_before_at_most(usages: Seq<Set<GateIdx>>, k: int)
    requires
        0 <= k,
    ensures
        kept_before(usages, k) <= k,
    decreases k,
{
    if k > 0 {
        lemma_kept_before_at_most(usages, k - 1);
    }
}

/// Each index of `s` is below the next.
pub open spec fn strictly_increasing(s: Seq<GateIdx>) -> bool {
    forall|a: int, b: int| 0 <= a < b < s.len() ==> s[a] < s[b]
}

/// Where `s` splits at `k`: the entries before the split are below `k`, the others are not.
pub open spec fn splits_at(s: Seq<GateIdx>, k: int, c: int) -> bool {
    &&& 0 <= c <= s.len()
    &&& forall|t: int| 0 <= t < c ==> #[trigger] s[t] < k
    &&& forall|t: int| c <= t < s.len() ==> #[trigger] s[t] >= k
}

/// The number of entries of `s` below `k`, counted from the back while the last is not.
pub open spec fn count_below(s: Seq<GateIdx>, k: int) -> int
    decreases s.len(),
{
    if s.len() == 0 {
        0
    } else if s.last() < k {
        s.len() as int
    } else {
        count_below(s.drop_last(), k)
    }
}

/// An increasing sequence splits at `k` where the count of its entries below `k` says.
proof fn lemma_count_below_splits(s: Seq<GateIdx>, k: int)
    requires
        strictly_increasing(s),
    ensures
        splits_at(s, k, count_below(s, k)),
    decreases s.len(),
{
    if s.len() > 0 {
        if s.last() < k {
            assert forall|t: int| 0 <= t < s.len() implies #[trigger] s[t] < k by {
                if t < s.len() - 1 {
                    assert(s[t] < s[s.len() - 1]);
                }
            }
        } else {
            let d = s.drop_last();
            assert(strictly_increasing(d)) by {
                assert forall|a: int, b: int| 0 <= a < b < d.len() implies d[a] < d[b] by {
                    assert(d[a] == s[a] && d[b] == s[b]);
                }
            }
            lemma_count_below_splits(d, k);
            let c = count_below(d, k);
            assert forall|t: int| 0 <= t < c implies #[trigger] s[t] < k by {
                assert(d[t] == s[t]);
            }
            assert forall|t: int| c <= t < s.len() implies #[trigger] s[t] >= k by {
                if t < s.len() - 1 {
                    assert(d[t] == s[t]);
                }
            }
        }
    }
}

/// A sequence splits at `k` in one place only.
proof fn lemma_split_unique(s: Seq<GateIdx>, k: int, c1: int, c2: int)
    requires
        splits_at(s, k, c1),
        splits_at(s, k, c2),
    ensures
        c1 == c2,
{
    if c1 < c2 {
        assert(s[c1] < k);
    } else if c2 < c1 {
        assert(s[c2] < k);
    }
}

/// Rebuilding from no gates, with strictly increasing pending outputs that all have users,
/// notes the outputs below `k` in their order, at their new indices.
pub proof fn lemma_rebuild_outputs_in_order(
    start: RebuildState,
    usages: Seq<Set<GateIdx>>,
    outs: Seq<GateIdx>,
    n: int,
    k: int,
)
    requires
        0 <= k <= n <= u32::MAX,
        n <= usages.len(),
        start.alive.len() == 0,
        start.outputs.len() == 0,
        start.pending == outs.to_set(),
        strictly_increasing(outs),
        forall|t: int| 0 <= t < outs.len() ==> #[trigger] outs[t] < n && !usages[outs[t] as int].is_empty(),
    ensures
        rebuild_upto(start, usages, k).outputs == Seq::new(
            count_below(outs, k) as nat,
            |t: int| kept_before(usages, outs[t] as int) as GateIdx,
        ),
        k == n ==> count_below(outs, k) == outs.len(),
    decreases k,
{
    lemma_count_below_splits(outs, k);
    if k == n {
        assert(splits_at(outs, k, outs.len() as int));
        lemma_split_unique(outs, k, outs.len() as int, count_below(outs, k));
    }
    if k > 0 {
        lemma_rebuild_outputs_in_order(start, usages, outs, n, k - 1);
        lemma_count_below_splits(outs, k - 1);
        lemma_rebuild_outputs(start, usages, k - 1);
        lemma_rebuild_alive_len(start, usages, k - 1);
        let s = rebuild_upto(start, usages, k - 1);
        let c0 = count_below(outs, k - 1);
        let last = (k - 1) as GateIdx;
        assert(last as int == k - 1);
        assert(!moved_upto(usages, k - 1).contains(last));
        assert(s.pending.contains(last) == outs.contains(last));
        if outs.contains(last) {
            let t0 = choose|t: int| 0 <= t < outs.len() && outs[t] == last;
            assert(t0 == c0) by {
                if t0 < c0 {
                    assert(outs[t0] < k - 1);
                } else if t0 > c0 {
                    assert(outs[c0] >= k - 1);
                    assert(outs[c0] < outs[t0]);
                }
            }
            assert(splits_at(outs, k, c0 + 1)) by {
                assert forall|t: int| c0 + 1 <= t < outs.len() implies #[trigger] outs[t] >= k by {
                    assert(outs[c0] < outs[t]);
                }
            }
            lemma_split_unique(outs, k, c0 + 1, count_below(outs, k));
            assert(!usages[k - 1].is_empty());
            assert(rebuild_upto(start, usages, k) == transfer_step(s, usages[k - 1], k - 1));
            assert(rebuild_upto(start, usages, k).outputs =~= Seq::new(
                count_below(outs, k) as nat,
                |t: int| kept_before(usages, outs[t] as int) as GateIdx,
            ));
        } else {
            assert(splits_at(outs, k, c0)) by {
                assert forall|t: int| c0 <= t < outs.len() implies #[trigger] outs[t] >= k by {
                    assert(outs[t] >= k - 1);
                    assert(outs[t] != last);
                }
            }
            lemma_split_unique(outs, k, c0, count_below(outs, k));
            if !usages[k - 1].is_empty() {
                assert(rebuild_upto(start, usages, k) == transfer_step(s, usages[k - 1], k - 1));
            }
        }
    } else {
        assert(count_below(outs, 0) == 0) by {
            if count_below(outs, 0) > 0 {
                assert(outs[0] < 0);
            }
        }
    }
}

/// Output `k` of circuit `a` computes what output `j` of circuit `b` computes, whatever the
/// inputs.
pub open spec fn output_computes(a: CircuitView, k: int, b: CircuitView, j: int) -> bool {
    forall|with: Seq<u64>|
        #[trigger] gate_value(a.gates, with, a.q, a.outputs[k] as int) == gate_value(b.gates, with, b.q, b.outputs[j] as int)
}

/// Output `k` of circuit `a` computes what some output of circuit `b` computes.
pub open spec fn output_matched(a: CircuitView, k: int, b: CircuitView) -> bool {
    exists|j: int| 0 <= j < b.outputs.len() && #[trigger] output_computes(a, k, b, j)
}

/// Output `j` of circuit `b` is computed by some output of circuit `a`.
pub open spec fn output_kept(a: CircuitView, b: CircuitView, j: int) -> bool {
    exists|k: int| 0 <= k < a.outputs.len() && #[trigger] output_computes(a, k, b, j)
}

/// Gates that move keep their order: fewer gates with users come before an earlier gate, and
/// strictly fewer when that earlier gate has users itself.
pub proof fn lemma_kept_before_monotone(usages: Seq<Set<GateIdx>>, a: int, b: int)
    requires
        0 <= a <= b,
    ensures
        0 <= kept_before(usages, a) <= kept_before(usages, b),
        kept_before(usages, b) <= b,
        a < b && !usages[a].is_empty() ==> kept_before(usages, a) < kept_before(usages, b),
    decreases b,
{
    if b > 0 {
        if a < b {
            lemma_kept_before_monotone(usages, a, b - 1);
            if a < b - 1 {
                lemma_kept_before_monotone(usages, a + 1, b - 1);
                lemma_kept_before_monotone(usages, a, a + 1);
            }
        } else {
            lemma_kept_before_monotone(usages, b - 1, b - 1);
        }
    }
}

/// Position `p` of the rebuilt gates holds one of the first `k` gates, one with users.
pub open spec fn moved_from(usages: Seq<Set<GateIdx>>, k: int, p: int) -> bool {
    exists|j: int| 0 <= j < k && !usages[j].is_empty() && #[trigger] kept_before(usages, j) == p
}

/// Among the first `n` gates, each gate with users is no tombstone, and an operation with users
/// uses gates before it that count it among their users.
pub open spec fn usages_consistent(passed: Seq<Gate>, usages: Seq<Set<GateIdx>>, n: int) -> bool {
    forall|i: int|
        0 <= i < n && !usages[i].is_empty() ==> match #[trigger] passed[i] {
            Gate::Thombstone => false,
            Gate::BinOp(_, lhs, rhs) => lhs < i && rhs < i && usages[lhs as int].contains(i as GateIdx) && usages[
                rhs as int].contains(i as GateIdx),
            _ => true,
        }
}

/// A gate with its operands below `k` renumbered to where they move.
pub open spec fn renumbered(gate: Gate, usages: Seq<Set<GateIdx>>, k: int) -> Gate {
    match gate {
        Gate::BinOp(op, lhs, rhs) => Gate::BinOp(
            op,
            if lhs < k {
                kept_before(usages, lhs as int) as GateIdx
            } else {
                lhs
            },
            if rhs < k {
                kept_before(usages, rhs as int) as GateIdx
            } else {
                rhs
            },
        ),
        _ => gate,
    }
}

/// After the first `k` gates, a rebuilding of consistent gates has moved each gate with users
/// to the number of such gates before it, with its operands renumbered, and renumbered the
/// operands below `k` of each gate with users still to move.
pub proof fn lemma_rebuild_gates(start: RebuildState, usages: Seq<Set<GateIdx>>, n: int, k: int)
    requires
        0 <= k <= n,
        n <= usages.len(),
        n <= start.passed.len(),
        n <= u32::MAX,
        start.alive.len() == 0,
        usages_consistent(start.passed, usages, n),
    ensures
        ({
            let s = rebuild_upto(start, usages, k);
            &&& s.alive.len() == kept_before(usages, k)
            &&& s.passed.len() == start.passed.len()
            &&& forall|j: int|
                0 <= j < k && !usages[j].is_empty() ==> #[trigger] s.alive[kept_before(usages, j)] == renumbered(
                    start.passed[j],
                    usages,
                    j,
                )
            &&& forall|i: int|
                k <= i < n && !usages[i].is_empty() ==> #[trigger] s.passed[i] == renumbered(start.passed[i], usages, k)
            &&& forall|p: int| 0 <= p < s.alive.len() ==> #[trigger] moved_from(usages, k, p)
        }),
    decreases k,
{
    let p0 = start.passed;
    if k == 0 {
        assert forall|i: int| 0 <= i < n && !usages[i].is_empty() implies #[trigger] start.passed[i] == renumbered(
            p0[i],
            usages,
            0,
        ) by {
            assert(usages_consistent(p0, usages, n));
        }
    } else {
        lemma_rebuild_gates(start, usages, n, k - 1);
        let s = rebuild_upto(start, usages, k - 1);
        lemma_kept_before_monotone(usages, k - 1, k - 1);
        if usages[k - 1].is_empty() {
            assert forall|i: int| k <= i < n && !usages[i].is_empty() implies #[trigger] s.passed[i] == renumbered(
                p0[i],
                usages,
                k,
            ) by {
                assert(s.passed[i] == renumbered(p0[i], usages, k - 1));
                if let Gate::BinOp(_, l, r) = p0[i] {
                    assert(usages_consistent(p0, usages, n));
                    assert(l != k - 1 && r != k - 1);
                }
            }
            assert forall|p: int| 0 <= p < s.alive.len() implies #[trigger] moved_from(usages, k, p) by {
                assert(moved_from(usages, k - 1, p));
                let j = choose|j: int| 0 <= j < k - 1 && !usages[j].is_empty() && #[trigger] kept_before(usages, j) == p;
                assert(0 <= j < k && !usages[j].is_empty() && kept_before(usages, j) == p);
            }
        } else {
            let t = transfer_step(s, usages[k - 1], k - 1);
            let new_idx = s.alive.len() as GateIdx;
            assert(new_idx as int == kept_before(usages, k - 1));
            assert(usages_consistent(p0, usages, n));
            assert(s.passed[k - 1] == renumbered(p0[k - 1], usages, k - 1));
            if let Gate::BinOp(_, l, r) = p0[k - 1] {
                lemma_kept_before_monotone(usages, l as int, k - 1);
                lemma_kept_before_monotone(usages, r as int, k - 1);
            }
            assert forall|j: int| 0 <= j < k && !usages[j].is_empty() implies #[trigger] t.alive[kept_before(usages, j)]
                == renumbered(p0[j], usages, j) by {
                if j < k - 1 {
                    lemma_kept_before_monotone(usages, j, k - 1);
                    assert(t.alive[kept_before(usages, j)] == s.alive[kept_before(usages, j)]);
                } else {
                    if let Gate::BinOp(_, l, r) = p0[k - 1] {
                        assert(renumbered(p0[k - 1], usages, k - 1) == renumbered(p0[k - 1], usages, j));
                    }
                }
            }
            assert forall|i: int| k <= i < n && !usages[i].is_empty() implies #[trigger] t.passed[i] == renumbered(
                p0[i],
                usages,
                k,
            ) by {
                assert(s.passed[i] == renumbered(p0[i], usages, k - 1));
                if let Gate::BinOp(op, l, r) = p0[i] {
                    assert(l < i && r < i);
                    if l < k - 1 {
                        lemma_kept_before_monotone(usages, l as int, k - 1);
                    }
                    if r < k - 1 {
                        lemma_kept_before_monotone(usages, r as int, k - 1);
                    }
                    if new_idx as int != k - 1 {
                        if l == k - 1 || r == k - 1 {
                            assert(usages[k - 1].contains(i as GateIdx));
                        }
                    }
                }
            }
            assert forall|p: int| 0 <= p < t.alive.len() implies #[trigger] moved_from(usages, k, p) by {
                if p < s.alive.len() {
                    assert(moved_from(usages, k - 1, p));
                    let j = choose|j: int| 0 <= j < k - 1 && !usages[j].is_empty() && #[trigger] kept_before(usages, j) == p;
                    assert(0 <= j < k && !usages[j].is_empty() && kept_before(usages, j) == p);
                } else {
                    assert(kept_before(usages, k - 1) == p);
                }
            }
        }
    }
}

/// A moved gate computes what it computed before its move.
pub proof fn lemma_moved_value(
    alive: Seq<Gate>,
    passed: Seq<Gate>,
    usages: Seq<Set<GateIdx>>,
    n: int,
    with: Seq<u64>,
    q: u64,
    j: int,
)
    requires
        0 <= j < n,
        n <= u32::MAX,
        n <= passed.len(),
        !usages[j].is_empty(),
        usages_consistent(passed, usages, n),
        alive.len() == kept_before(usages, n),
        forall|i: int|
            0 <= i < n && !usages[i].is_empty() ==> #[trigger] alive[kept_before(usages, i)] == renumbered(
                passed[i],
                usages,
                i,
            ),
    ensures
        gate_value(alive, with, q, kept_before(usages, j)) == gate_value(passed, with, q, j),
    decreases j,
{
    lemma_kept_before_monotone(usages, j, n);
    assert(alive[kept_before(usages, j)] == renumbered(passed[j], usages, j));
    assert(0 <= kept_before(usages, j) < alive.len());
    if let Gate::BinOp(op, l, r) = passed[j] {
        assert(usages_consistent(passed, usages, n));
        lemma_kept_before_monotone(usages, l as int, j);
        lemma_kept_before_monotone(usages, r as int, j);
        lemma_moved_value(alive, passed, usages, n, with, q, l as int);
        lemma_moved_value(alive, passed, usages, n, with, q, r as int);
    }
}

/// A circuit rebuilt from consistent gates and usages is well formed and each moved gate
/// computes what it computed before.
pub proof fn lemma_rebuilt_circuit_sound(circuit: CircuitView, passed: Seq<Gate>, usages: Seq<Set<GateIdx>>)
    requires
        rebuilt_len(passed, usages) <= u32::MAX,
        usages_consistent(passed, usages, rebuilt_len(passed, usages)),
    ensures
        gates_wf(rebuilt_circuit(circuit, passed, usages).gates),
        rebuilt_circuit(circuit, passed, usages).gates.len() == kept_before(usages, rebuilt_len(passed, usages)),
        forall|j: int, with: Seq<u64>|
            0 <= j < rebuilt_len(passed, usages) && !usages[j].is_empty() ==> #[trigger] gate_value(
                rebuilt_circuit(circuit, passed, usages).gates,
                with,
                circuit.q,
                kept_before(usages, j),
            ) == gate_value(passed, with, circuit.q, j),
{
    let n = rebuilt_len(passed, usages);
    let start = RebuildState {
        passed,
        alive: Seq::empty(),
        inputs: Seq::empty(),
        outputs: Seq::empty(),
        pending: circuit.outputs.to_set(),
    };
    lemma_rebuild_gates(start, usages, n, n);
    let alive = rebuild_upto(start, usages, n).alive;
    assert(alive == rebuilt_circuit(circuit, passed, usages).gates);
    lemma_kept_before_monotone(usages, n, n);
    assert forall|p: int| 0 <= p < alive.len() implies match #[trigger] alive[p] {
        Gate::BinOp(_, lhs, rhs) => lhs < p && rhs < p,
        Gate::Thombstone => false,
        _ => true,
    } by {
        assert(moved_from(usages, n, p));
        let j = choose|j: int| 0 <= j < n && !usages[j].is_empty() && #[trigger] kept_before(usages, j) == p;
        assert(usages_consistent(passed, usages, n));
        if let Gate::BinOp(_, l, r) = passed[j] {
            lemma_kept_before_monotone(usages, l as int, j);
            lemma_kept_before_monotone(usages, r as int, j);
        }
    }
    assert forall|j: int, with: Seq<u64>|
        0 <= j < n && !usages[j].is_empty() implies #[trigger] gate_value(alive, with, circuit.q, kept_before(usages, j))
        == gate_value(passed, with, circuit.q, j) by {
        lemma_moved_value(alive, passed, usages, n, with, circuit.q, j);
    }
}

/// The number of gates a rebuilding looks at.
pub open spec fn rebuilt_len(passed: Seq<Gate>, usages: Seq<Set<GateIdx>>) -> int {
    if usages.len() < passed.len() {
        usages.len() as int
    } else {
        passed.len() as int
    }
}

/// The circuit rebuilt from the gates of a pass and their users: the gates that have users,
/// in order, with operands renumbered.
pub open spec fn rebuilt_circuit(circuit: CircuitView, passed: Seq<Gate>, usages: Seq<Set<GateIdx>>) -> CircuitView {
    let n = if usages.len() < passed.len() {
        usages.len() as int
    } else {
        passed.len() as int
    };
    let start = RebuildState {
        passed,
        alive: Seq::empty(),
        inputs: Seq::empty(),
        outputs: Seq::empty(),
        pending: circuit.outputs.to_set(),
    };
    let end = rebuild_upto(start, usages, n);
    CircuitView { q: circuit.q, gates: end.alive, inputs: end.inputs, outputs: end.outputs }
}

/// Moves gate `gate_idx` into the new arena, noting it as an input or an output there; gives
/// its new index and whether it is an output, unless its index stays the same.
pub(crate) fn transfer_gate_to_final_arena(
    gate_idx: GateIdx,
    old_gates: &Arena<Gate>,
    new_gates: &mut Arena<Gate>,
    inputs: &mut Vec<GateIdx>,
    outputs: &mut Vec<GateIdx>,
    old_outputs: &mut HashSet<GateIdx>,
) -> (moved: Option<(GateIdx, bool)>)
    requires
        gate_idx < gate_arena_items(*old_gates).len(),
        gate_arena_items(*old(new_gates)).len() < u32::MAX,
    ensures
        ({
            let s = transfer_step(
                RebuildState {
                    passed: gate_arena_items(*old_gates),
                    alive: gate_arena_items(*old(new_gates)),
                    inputs: old(inputs)@,
                    outputs: old(outputs)@,
                    pending: old(old_outputs)@,
                },
                Set::empty(),
                gate_idx as int,
            );
            &&& gate_arena_items(*final(new_gates)) == s.alive
            &&& final(inputs)@ == s.inputs
            &&& final(outputs)@ == s.outputs
            &&& final(old_outputs)@ == s.pending
        }),
        moved == if gate_arena_items(*old(new_gates)).len() == gate_idx {
            None
        } else {
            Some(
                (
                    gate_arena_items(*old(new_gates)).len() as GateIdx,
                    old(old_outputs)@.contains(gate_idx),
                ),
            )
        },
{
    let gate = gate_arena_get(old_gates, gate_idx);
    let new_gate_idx = gate_arena_alloc(new_gates, gate);
    if let Gate::Input(_) = gate {
        inputs.push(new_gate_idx);
    }
    let is_an_output = old_outputs.remove(&gate_idx);
    if is_an_output {
        outputs.push(new_gate_idx);
    }
    if new_gate_idx == gate_idx {
        return None;
    }
    Some((new_gate_idx, is_an_output))
}

/// Rebuilds a circuit from the gates a pass left and the users of each: the gates without
/// users are dropped, the others keep their order and are renumbered.
pub(crate) fn new_reassociated_circuit_from(
    circuit: &Circuit,
    passed_gates: Arena<Gate>,
    usages: &[HashSet<GateIdx>],
) -> (c: Circuit)
    requires
        usages@.len() <= u32::MAX,
        forall|i: int, u: GateIdx|
            0 <= i < usages@.len() && #[trigger] usages@[i]@.contains(u) ==> u < gate_arena_items(passed_gates).len(),
    ensures
        c@ == rebuilt_circuit(circuit@, gate_arena_items(passed_gates), usages@.map_values(|u: HashSet<GateIdx>| u@)),
        c@.q == circuit@.q,
        c@.gates.len() <= gate_arena_items(passed_gates).len(),
        c@.gates.len() <= usages@.len(),
        forall|j: int| 0 <= j < c@.inputs.len() ==> #[trigger] c@.inputs[j] < c@.gates.len() && c@.gates[c@.inputs[j] as int] is Input,
        forall|j: int| 0 <= j < c@.outputs.len() ==> #[trigger] c@.outputs[j] < c@.gates.len(),
        ({
            let views = usages@.map_values(|u: HashSet<GateIdx>| u@);
            let passed = gate_arena_items(passed_gates);
            usages_consistent(passed, views, rebuilt_len(passed, views)) ==> {
                &&& circuit_wf(c@)
                &&& forall|j: int, with: Seq<u64>|
                    0 <= j < rebuilt_len(passed, views) && !views[j].is_empty() ==> #[trigger] gate_value(
                        c@.gates,
                        with,
                        c@.q,
                        kept_before(views, j),
                    ) == gate_value(passed, with, circuit@.q, j)
            }
        }),
{
    let ghost views = usages@.map_values(|u: HashSet<GateIdx>| u@);
    let ghost n0 = gate_arena_items(passed_gates).len();
    let mut passed_gates = passed_gates;
    let mut inputs: Vec<GateIdx> = Vec::new();
    let circuit_outputs = circuit.outputs();
    let mut old_outputs: HashSet<GateIdx> = HashSet::new();
    let mut j: usize = 0;
    while j < circuit_outputs.len()
        invariant
            j <= circuit_outputs@.len(),
            old_outputs@ == circuit_outputs@.take(j as int).to_set(),
        decreases circuit_outputs@.len() - j,
    {
        old_outputs.insert(circuit_outputs[j]);
        proof {
            assert(circuit_outputs@.take(j as int + 1) =~= circuit_outputs@.take(j as int).push(circuit_outputs@[j as int]));
            circuit_outputs@.take(j as int).lemma_push_to_set_commute(circuit_outputs@[j as int]);
        }
        j = j + 1;
    }
    proof {
        assert(circuit_outputs@.take(circuit_outputs@.len() as int) =~= circuit_outputs@);
    }
    let mut outputs: Vec<GateIdx> = Vec::new();
    let mut alive_gates = gate_arena_new();
    let len = gate_arena_len(&passed_gates);
    let n = if usages.len() < len {
        usages.len()
    } else {
        len
    };
    let ghost start = RebuildState {
        passed: gate_arena_items(passed_gates),
        alive: Seq::empty(),
        inputs: Seq::empty(),
        outputs: Seq::empty(),
        pending: circuit@.outputs.to_set(),
    };
    let mut idx: usize = 0;
    while idx < n
        invariant
            n <= usages@.len(),
            n <= n0,
            usages@.len() <= u32::MAX,
            views == usages@.map_values(|u: HashSet<GateIdx>| u@),
            forall|i: int, u: GateIdx| 0 <= i < usages@.len() && #[trigger] usages@[i]@.contains(u) ==> u < n0,
            idx <= n,
            gate_arena_items(passed_gates).len() == n0,
            gate_arena_items(alive_gates).len() <= idx,
            ({
                let s = rebuild_upto(start, views, idx as int);
                &&& gate_arena_items(passed_gates) == s.passed
                &&& gate_arena_items(alive_gates) == s.alive
                &&& inputs@ == s.inputs
                &&& outputs@ == s.outputs
                &&& old_outputs@ == s.pending
            }),
        decreases n - idx,
    {
        let ghost s = rebuild_upto(start, views, idx as int);
        assert(views[idx as int] == usages@[idx as int]@);
        if !usages[idx].is_empty() {
            let gate_idx = idx as GateIdx;
            let moved = transfer_gate_to_final_arena(
                gate_idx,
                &passed_gates,
                &mut alive_gates,
                &mut inputs,
                &mut outputs,
                &mut old_outputs,
            );
            if let Some((new_gate_idx, is_an_output)) = moved {
                propagate_new_index_to_using_gates(
                    gate_idx,
                    new_gate_idx,
                    &mut passed_gates,
                    &usages[idx],
                    is_an_output,
                );
            }
        }
        idx = idx + 1;
    }
    proof {
        lemma_rebuild_len(start, views, n as int);
        lemma_rebuild_shape(start, views, n as int);
        if usages_consistent(start.passed, views, rebuilt_len(start.passed, views)) {
            lemma_rebuilt_circuit_sound(circuit@, start.passed, views);
        }
    }
    Circuit::with(circuit.q(), alive_gates, idx_list_from_vec(inputs), idx_list_from_vec(outputs))
}

} // verus!
pub mod reassociate;
pub mod rebalance;
