//! Tree-balancing reassociation: each root of a tree of operations of one kind (a gate used
//! by several, by an operation of another kind, or an output) has its tree flattened into its
//! operands, which are combined again two by two, those of lowest rank (fewest inputs below)
//! first; two constants that meet are folded.
use vstd::prelude::*;

use la_arena::Arena;
use prio_queue::PrioQueue;
use std::collections::{HashMap, HashSet};

use crate::arena::{gate_arena_alloc, gate_arena_get, gate_arena_items, gate_arena_len, gate_arena_new, gate_arena_with_capacity};
use crate::thin::idx_list_from_vec;
use crate::bits::{bit_set_contains, bit_set_insert, bit_set_items, bit_set_new, IndexSet};
use crate::ir::{circuit_wf, gates_wf, Circuit, CircuitView, Gate, GateIdx, SupportedType};
use crate::passes::reassociate::{lemma_operations_upto_contains, operations_upto, uses_operand};
use crate::op::BinOp;
use crate::passes::folding::{fold, fold_fits, gate_fold_ok, spec_gate_fold};
use crate::passes::{is_op_associative_and_commutative, new_reassociated_circuit_from};
use crate::passes::sets::set_elements;
use crate::prio::{
    rank_queue_items, rank_queue_len, rank_queue_lowest_first, rank_queue_new, rank_queue_pop, rank_queue_push,
    root_queue_highest_first, root_queue_is_empty, root_queue_items, root_queue_new, root_queue_pop, root_queue_push,
};

verus! {

broadcast use {vstd::std_specs::hash::group_hash_axioms, vstd::multiset::group_multiset_axioms};

/// The rank of a gate: the number of inputs at the leaves of the tree it unfolds to.
pub open spec fn tree_rank(gates: Seq<Gate>, i: int) -> int
    decreases i,
{
    if 0 <= i < gates.len() {
        match gates[i] {
            Gate::Input(_) => 1,
            Gate::BinOp(_, lhs, rhs) => if lhs < i && rhs < i {
                tree_rank(gates, lhs as int) + tree_rank(gates, rhs as int)
            } else {
                0
            },
            _ => 0,
        }
    } else {
        0
    }
}

/// The operands the tree under gate `i` combines, with their ranks: a gate that roots a tree
/// of its own, or is not an operation, is one operand; another operation gives the operands of
/// its two sides, left first.
pub open spec fn tree_operands(gates: Seq<Gate>, roots: Set<usize>, i: int) -> Seq<(GateIdx, isize)>
    decreases i,
{
    if 0 <= i < gates.len() {
        match gates[i] {
            Gate::BinOp(_, lhs, rhs) => if !roots.contains(i as usize) && lhs < i && rhs < i {
                tree_operands(gates, roots, lhs as int) + tree_operands(gates, roots, rhs as int)
            } else {
                seq![(i as GateIdx, tree_rank(gates, i) as isize)]
            },
            _ => seq![(i as GateIdx, tree_rank(gates, i) as isize)],
        }
    } else {
        Seq::empty()
    }
}

/// Ranks are not negative.
proof fn lemma_tree_rank_nonneg(gates: Seq<Gate>, i: int)
    ensures
        tree_rank(gates, i) >= 0,
    decreases i,
{
    if 0 <= i < gates.len() {
        if let Gate::BinOp(_, lhs, rhs) = gates[i] {
            if lhs < i && rhs < i {
                lemma_tree_rank_nonneg(gates, lhs as int);
                lemma_tree_rank_nonneg(gates, rhs as int);
            }
        }
    }
}

/// The ranks of the gates of a circuit fit in an `isize`.
pub open spec fn ranks_fit(gates: Seq<Gate>) -> bool {
    forall|i: int| 0 <= i < gates.len() ==> #[trigger] tree_rank(gates, i) <= isize::MAX
}

/// The total rank of queued items.
pub open spec fn rank_total(s: Seq<(GateIdx, isize)>) -> int
    decreases s.len(),
{
    if s.len() == 0 {
        0
    } else {
        rank_total(s.drop_last()) + s.last().1
    }
}

/// Taking an item out of a queue takes its rank out of the total.
proof fn lemma_rank_total_remove(s: Seq<(GateIdx, isize)>, j: int)
    requires
        0 <= j < s.len(),
    ensures
        rank_total(s) == rank_total(s.remove(j)) + s[j].1,
    decreases s.len(),
{
    if j < s.len() - 1 {
        lemma_rank_total_remove(s.drop_last(), j);
        assert(s.remove(j).drop_last() =~= s.drop_last().remove(j));
        assert(s.remove(j).last() == s.last());
    } else {
        assert(s.remove(j) =~= s.drop_last());
    }
}

/// With ranks that are not negative, each rank is at most the total.
proof fn lemma_rank_total_bound(s: Seq<(GateIdx, isize)>)
    requires
        forall|k: int| 0 <= k < s.len() ==> #[trigger] s[k].1 >= 0,
    ensures
        rank_total(s) >= 0,
        forall|k: int| 0 <= k < s.len() ==> #[trigger] s[k].1 <= rank_total(s),
    decreases s.len(),
{
    if s.len() > 0 {
        assert forall|k: int| 0 <= k < s.drop_last().len() implies #[trigger] s.drop_last()[k].1 >= 0 by {
            assert(s.drop_last()[k] == s[k]);
        }
        lemma_rank_total_bound(s.drop_last());
        assert forall|k: int| 0 <= k < s.len() implies #[trigger] s[k].1 <= rank_total(s) by {
            if k < s.len() - 1 {
                assert(s.drop_last()[k] == s[k]);
            }
        }
    }
}

/// A queue of operands as Verus follows it: a sequence of its items, with their total rank.
pub open spec fn mirrors(queue: PrioQueue<(GateIdx, isize)>, s: Seq<(GateIdx, isize)>) -> bool {
    &&& rank_queue_items(queue) == s.to_multiset()
    &&& rank_queue_lowest_first(queue)
    &&& forall|k: int| 0 <= k < s.len() ==> #[trigger] s[k].1 >= 0
}

/// The state of a rebalancing.
#[derive(Debug)]
struct RebalancePass {
    index: u64,
    old_to_new_gate_idx_map: HashMap<GateIdx, GateIdx>,
    outputs: HashSet<GateIdx>,
    q: SupportedType,
    ranks: Vec<isize>,
    rebalanced: Arena<Gate>,
    roots: IndexSet,
    usages: Vec<HashSet<GateIdx>>,
}

impl RebalancePass {
    /// The pass over the gates `gates`: the ranks it knows are their ranks, and every user it
    /// records names a rebalanced gate.
    spec fn ok(&self, gates: Seq<Gate>) -> bool {
        let n = gates.len();
        &&& gates_wf(gates)
        &&& ranks_fit(gates)
        &&& self.ranks@.len() == n
        &&& forall|i: int| 0 <= i < n ==> #[trigger] self.ranks@[i] == -1 || self.ranks@[i] == tree_rank(gates, i)
        &&& self.usages@.len() == n
        &&& forall|i: int, u: GateIdx|
            0 <= i < n && #[trigger] self.usages@[i]@.contains(u) ==> u < gate_arena_items(self.rebalanced).len()
        &&& self.index <= n + gate_arena_items(self.rebalanced).len()
        &&& self.index >= n
        &&& forall|k: GateIdx| #[trigger] self.old_to_new_gate_idx_map@.contains_key(k) ==> self.old_to_new_gate_idx_map@[k]
            < gate_arena_items(self.rebalanced).len()
        &&& gate_arena_items(self.rebalanced).len() <= isize::MAX
    }

    fn new(circuit: &Circuit, roots: IndexSet) -> (pass: Self)
        requires
            circuit_wf(circuit@),
            ranks_fit(circuit@.gates),
        ensures
            pass.ok(circuit@.gates),
    {
        let gates_len = gate_arena_len(circuit.gates());
        let index = gates_len as u64;
        let q = circuit.q();
        let mut ranks: Vec<isize> = Vec::new();
        let mut usages: Vec<HashSet<GateIdx>> = Vec::new();
        let mut i: usize = 0;
        while i < gates_len
            invariant
                i <= gates_len,
                ranks@.len() == i,
                usages@.len() == i,
                forall|j: int| 0 <= j < i ==> #[trigger] ranks@[j] == -1,
                forall|j: int| 0 <= j < i ==> (#[trigger] usages@[j])@ == Set::<GateIdx>::empty(),
            decreases gates_len - i,
        {
            ranks.push(-1);
            usages.push(HashSet::new());
            i = i + 1;
        }
        let rebalanced = gate_arena_with_capacity(gates_len);
        let old_to_new_gate_idx_map: HashMap<GateIdx, GateIdx> = HashMap::new();
        let circuit_outputs = circuit.outputs();
        let mut outputs: HashSet<GateIdx> = HashSet::new();
        let mut j: usize = 0;
        while j < circuit_outputs.len()
            invariant
                j <= circuit_outputs@.len(),
            decreases circuit_outputs@.len() - j,
        {
            outputs.insert(circuit_outputs[j]);
            j = j + 1;
        }
        Self { index, old_to_new_gate_idx_map, outputs, q, ranks, rebalanced, roots, usages }
    }

    fn is_rebalanced(&self, idx: usize) -> (b: bool)
        requires
            idx < self.ranks@.len(),
        ensures
            b == (self.ranks@[idx as int] >= 0),
    {
        self.ranks[idx] >= 0
    }

    fn record_mapping(&mut self, from_unbalanced: GateIdx, new_rebalanced: GateIdx)
        ensures
            final(self).old_to_new_gate_idx_map@ == old(self).old_to_new_gate_idx_map@.insert(
                from_unbalanced,
                new_rebalanced,
            ),
            final(self).index == old(self).index,
            final(self).ranks == old(self).ranks,
            final(self).rebalanced == old(self).rebalanced,
            final(self).usages == old(self).usages,
            final(self).roots == old(self).roots,
            final(self).outputs == old(self).outputs,
            final(self).q == old(self).q,
    {
        self.old_to_new_gate_idx_map.insert(from_unbalanced, new_rebalanced);
    }

    /// Rebalances the tree under the root `root_gate_idx`, unless that is done already.
    fn balance(&mut self, root_gate_idx: GateIdx, gates: &Arena<Gate>)
        requires
            old(self).ok(gate_arena_items(*gates)),
            root_gate_idx < gate_arena_items(*gates).len(),
            gate_arena_items(*gates)[root_gate_idx as int] is BinOp,
        ensures
            final(self).ok(gate_arena_items(*gates)),
            final(self).ranks@[root_gate_idx as int] == tree_rank(gate_arena_items(*gates), root_gate_idx as int),
            final(self).roots == old(self).roots,
            old(self).ranks@[root_gate_idx as int] < 0 ==> balanced_root(
                gate_arena_items(final(self).rebalanced),
                final(self).old_to_new_gate_idx_map@,
                final(self).indices_fit(),
                root_gate_idx,
                gate_arena_items(*gates)[root_gate_idx as int],
            ),
            forall|k: GateIdx| #[trigger] old(self).old_to_new_gate_idx_map@.contains_key(k) ==> final(self).old_to_new_gate_idx_map@.contains_key(k),
        decreases root_gate_idx, 0nat,
    {
        let ghost g = gate_arena_items(*gates);
        let idx = root_gate_idx as usize;
        if self.is_rebalanced(idx) {
            return;
        }
        let mut priority_queue = rank_queue_new();
        let (bin_op, lhs, rhs) = match gate_arena_get(gates, root_gate_idx) {
            Gate::BinOp(bin_op, lhs, rhs) => (bin_op, lhs, rhs),
            _ => {
                assert(false);
                return;
            },
        };
        proof {
            Seq::<(GateIdx, isize)>::empty().to_multiset_ensures();
            assert(Seq::<(GateIdx, isize)>::empty().to_multiset() =~= vstd::multiset::Multiset::empty());
            assert(lhs < root_gate_idx && rhs < root_gate_idx);
            assert(tree_rank(g, root_gate_idx as int) <= isize::MAX);
            lemma_tree_rank_nonneg(g, lhs as int);
            lemma_tree_rank_nonneg(g, rhs as int);
        }
        let ghost m0 = self.old_to_new_gate_idx_map@;
        let (left_rank, Ghost(s1)) = self.flatten(&mut priority_queue, Ghost(Seq::empty()), lhs, gates);
        let ghost m1 = self.old_to_new_gate_idx_map@;
        let (right_rank, Ghost(s2)) = self.flatten(&mut priority_queue, Ghost(s1), rhs, gates);
        let ghost m2 = self.old_to_new_gate_idx_map@;
        proof {
            lemma_tree_rank_nonneg(g, lhs as int);
            lemma_tree_rank_nonneg(g, rhs as int);
            assert(tree_rank(g, root_gate_idx as int) == left_rank + right_rank);
        }
        let rank = left_rank + right_rank;
        self.ranks.set(idx, rank);
        let ghost m2b = self.old_to_new_gate_idx_map@;
        assert(m2b == m2);
        // Only an associative and commutative operation may have its operands regrouped.
        let ghost mid = *self;
        let rebalanced_gate_idx = if is_op_associative_and_commutative(bin_op) {
            self.rebuild(&mut priority_queue, Ghost(s2), bin_op, gates)
        } else {
            self.keep_in_place(bin_op, lhs, rhs, left_rank == 0 && right_rank == 0, gates)
        };
        let ghost after = *self;
        let ghost m3 = self.old_to_new_gate_idx_map@;
        assert(forall|k: GateIdx| #[trigger] m2b.contains_key(k) ==> m3.contains_key(k));
        self.record_mapping(root_gate_idx, rebalanced_gate_idx);
        proof {
            assert forall|k: GateIdx| #[trigger] m0.contains_key(k) implies self.old_to_new_gate_idx_map@.contains_key(k) by {
                assert(m1.contains_key(k));
                assert(m2.contains_key(k));
                assert(m3.contains_key(k));
            }
        }
        if self.outputs.contains(&root_gate_idx) {
            let target = rebalanced_gate_idx as usize;
            if target < self.usages.len() {
                self.usages[target].insert(rebalanced_gate_idx);
            }
        }
        proof {
            assert(gate_arena_items(self.rebalanced) == gate_arena_items(after.rebalanced));
            assert(self.old_to_new_gate_idx_map@ == after.old_to_new_gate_idx_map@.insert(root_gate_idx, rebalanced_gate_idx));
            if !(bin_op.spec_associative() && bin_op.spec_commutative()) && self.indices_fit() {
                assert(mid.indices_fit());
                assert(lhs != root_gate_idx && rhs != root_gate_idx);
            }
        }
    }

    /// Pushes the operands of the tree under `gate_idx` into the queue (a root below is
    /// rebalanced first, and pushed as one operand); gives the rank of `gate_idx`.
    fn flatten(
        &mut self,
        priority_queue: &mut PrioQueue<(GateIdx, isize)>,
        Ghost(s): Ghost<Seq<(GateIdx, isize)>>,
        gate_idx: GateIdx,
        gates: &Arena<Gate>,
    ) -> (r: (isize, Ghost<Seq<(GateIdx, isize)>>))
        requires
            old(self).ok(gate_arena_items(*gates)),
            gate_idx < gate_arena_items(*gates).len(),
            mirrors(*old(priority_queue), s),
            rank_total(s) + tree_rank(gate_arena_items(*gates), gate_idx as int) <= isize::MAX,
            forall|k: int| 0 <= k < s.len() ==> #[trigger] s[k].0 < gate_arena_items(*gates).len() || old(self).old_to_new_gate_idx_map@.contains_key(s[k].0),
        ensures
            final(self).ok(gate_arena_items(*gates)),
            r.0 == tree_rank(gate_arena_items(*gates), gate_idx as int),
            mirrors(*final(priority_queue), r.1@),
            r.1@ == s + tree_operands(gate_arena_items(*gates), bit_set_items(old(self).roots), gate_idx as int),
            final(self).roots == old(self).roots,
            rank_total(r.1@) == rank_total(s) + r.0,
            r.1@.len() >= s.len() + 1,
            forall|k: int| 0 <= k < r.1@.len() ==> #[trigger] r.1@[k].0 < gate_arena_items(*gates).len() || final(self).old_to_new_gate_idx_map@.contains_key(r.1@[k].0),
            forall|k: GateIdx| #[trigger] old(self).old_to_new_gate_idx_map@.contains_key(k) ==> final(self).old_to_new_gate_idx_map@.contains_key(k),
        decreases gate_idx, 1nat,
    {
        let ghost g = gate_arena_items(*gates);
        let gate = gate_arena_get(gates, gate_idx);
        let idx = gate_idx as usize;
        proof {
            lemma_tree_rank_nonneg(g, gate_idx as int);
        }
        match gate {
            Gate::BinOp(_, lhs, rhs) => {
                if bit_set_contains(&self.roots, idx) {
                    self.balance(gate_idx, gates);
                    let rank = self.ranks[idx];
                    rank_queue_push(priority_queue, (gate_idx, rank));
                    proof {
                        s.to_multiset_ensures();
                        vstd::seq_lib::to_multiset_build(s, (gate_idx, rank));
                        assert(s.push((gate_idx, rank)).drop_last() =~= s);
                        assert forall|k: int| 0 <= k < s.push((gate_idx, rank)).len() implies #[trigger] s.push((gate_idx, rank))[k].1 >= 0 by {
                            if k < s.len() {
                                assert(s.push((gate_idx, rank))[k] == s[k]);
                            }
                        }
                        assert forall|k: int| 0 <= k < s.push((gate_idx, rank)).len() implies #[trigger] s.push((gate_idx, rank))[k].0 < g.len() || self.old_to_new_gate_idx_map@.contains_key(s.push((gate_idx, rank))[k].0) by {
                            if k < s.len() {
                                assert(s.push((gate_idx, rank))[k] == s[k]);
                            }
                        }
                        assert(s.push((gate_idx, rank)) =~= s + tree_operands(g, bit_set_items(old(self).roots), gate_idx as int));
                    }
                    (rank, Ghost(s.push((gate_idx, rank))))
                } else {
                    assert(lhs < gate_idx && rhs < gate_idx);
                    proof {
                        lemma_tree_rank_nonneg(g, lhs as int);
                        lemma_tree_rank_nonneg(g, rhs as int);
                    }
                    let (left_rank, Ghost(s1)) = self.flatten(priority_queue, Ghost(s), lhs, gates);
                    let (right_rank, Ghost(s2)) = self.flatten(priority_queue, Ghost(s1), rhs, gates);
                    let rank = left_rank + right_rank;
                    self.ranks.set(idx, rank);
                    proof {
                        assert(s2 =~= s + tree_operands(g, bit_set_items(old(self).roots), gate_idx as int));
                    }
                    (rank, Ghost(s2))
                }
            },
            _ => {
                let rank: isize = if let Gate::Input(_) = gate {
                    1
                } else {
                    0
                };
                self.ranks.set(idx, rank);
                rank_queue_push(priority_queue, (gate_idx, rank));
                proof {
                    vstd::seq_lib::to_multiset_build(s, (gate_idx, rank));
                    assert(s.push((gate_idx, rank)).drop_last() =~= s);
                    assert forall|k: int| 0 <= k < s.push((gate_idx, rank)).len() implies #[trigger] s.push((gate_idx, rank))[k].1 >= 0 by {
                        if k < s.len() {
                            assert(s.push((gate_idx, rank))[k] == s[k]);
                        }
                    }
                    assert forall|k: int| 0 <= k < s.push((gate_idx, rank)).len() implies #[trigger] s.push((gate_idx, rank))[k].0 < g.len() || self.old_to_new_gate_idx_map@.contains_key(s.push((gate_idx, rank))[k].0) by {
                        if k < s.len() {
                            assert(s.push((gate_idx, rank))[k] == s[k]);
                        }
                    }
                    assert(s.push((gate_idx, rank)) =~= s + tree_operands(g, bit_set_items(old(self).roots), gate_idx as int));
                }
                (rank, Ghost(s.push((gate_idx, rank))))
            },
        }
    }
    /// The rebalanced index of gate `gate_idx`: the one recorded, or that of a copy of the
    /// gate, made now.
    fn get_mapped_index_allocating(&mut self, gate_idx: GateIdx, gates: &Arena<Gate>) -> (r: GateIdx)
        requires
            old(self).ok(gate_arena_items(*gates)),
            gate_idx < gate_arena_items(*gates).len() || old(self).old_to_new_gate_idx_map@.contains_key(gate_idx),
        ensures
            final(self).ok(gate_arena_items(*gates)),
            final(self).index == old(self).index,
            final(self).ranks == old(self).ranks,
            final(self).roots == old(self).roots,
            gate_arena_items(final(self).rebalanced).len() <= gate_arena_items(old(self).rebalanced).len() + 1,
            gate_arena_items(old(self).rebalanced).len() <= gate_arena_items(final(self).rebalanced).len(),
            r < gate_arena_items(final(self).rebalanced).len() || old(self).old_to_new_gate_idx_map@.contains_key(gate_idx),
            forall|k: GateIdx| #[trigger] old(self).old_to_new_gate_idx_map@.contains_key(k) ==> final(self).old_to_new_gate_idx_map@.contains_key(k),
            forall|k: GateIdx|
                #[trigger] old(self).old_to_new_gate_idx_map@.contains_key(k) ==> final(self).old_to_new_gate_idx_map@[k]
                    == old(self).old_to_new_gate_idx_map@[k],
            final(self).old_to_new_gate_idx_map@.contains_key(gate_idx),
            final(self).old_to_new_gate_idx_map@[gate_idx] == r,
            forall|k: int|
                0 <= k < gate_arena_items(old(self).rebalanced).len() ==> #[trigger] gate_arena_items(final(self).rebalanced)[k]
                    == gate_arena_items(old(self).rebalanced)[k],
    {
        match self.old_to_new_gate_idx_map.get(&gate_idx) {
            Some(mapped) => *mapped,
            None => {
                let from_old = gate_arena_get(gates, gate_idx);
                self.alloc_with_mapped_idx(from_old, gate_idx)
            },
        }
    }

    /// Appends a gate to the rebalanced ones, recording it as the image of `to_be_mapped_to`.
    fn alloc_with_mapped_idx(&mut self, gate: Gate, to_be_mapped_to: GateIdx) -> (index: GateIdx)
        ensures
            index == gate_arena_items(old(self).rebalanced).len() as GateIdx,
            gate_arena_items(final(self).rebalanced) == gate_arena_items(old(self).rebalanced).push(gate),
            gate_arena_items(final(self).rebalanced).len() <= isize::MAX,
            final(self).old_to_new_gate_idx_map@ == old(self).old_to_new_gate_idx_map@.insert(to_be_mapped_to, index),
            final(self).index == old(self).index,
            final(self).ranks == old(self).ranks,
            final(self).usages == old(self).usages,
            final(self).roots == old(self).roots,
            final(self).outputs == old(self).outputs,
            final(self).q == old(self).q,
    {
        let index = gate_arena_alloc(&mut self.rebalanced, gate);
        self.record_mapping(to_be_mapped_to, index);
        index
    }

    /// The indices the pass hands out fit in a gate index, with room for the three a rebuilt
    /// operation may take.
    spec fn indices_fit(&self) -> bool {
        &&& gate_arena_items(self.rebalanced).len() + 3 <= u32::MAX
        &&& self.index + 1 <= u32::MAX
    }

    /// Rebuilds an operation that is not associative and commutative as it stands: `op` on the
    /// rebalanced operands `lhs` and `rhs`, in that order; folded when both sides hold no input
    /// (`constants_only`), and then without users for its operands.
    fn keep_in_place(&mut self, op: BinOp, lhs: GateIdx, rhs: GateIdx, constants_only: bool, gates: &Arena<Gate>) -> (r: GateIdx)
        requires
            old(self).ok(gate_arena_items(*gates)),
            lhs < gate_arena_items(*gates).len(),
            rhs < gate_arena_items(*gates).len(),
        ensures
            final(self).ok(gate_arena_items(*gates)),
            final(self).ranks == old(self).ranks,
            final(self).roots == old(self).roots,
            r < gate_arena_items(final(self).rebalanced).len(),
            final(self).old_to_new_gate_idx_map@.contains_key(lhs),
            final(self).old_to_new_gate_idx_map@.contains_key(rhs),
            final(self).index == old(self).index + 1,
            gate_arena_items(old(self).rebalanced).len() <= gate_arena_items(final(self).rebalanced).len(),
            old(self).indices_fit() ==> ({
                let g = Gate::BinOp(op, final(self).old_to_new_gate_idx_map@[lhs], final(self).old_to_new_gate_idx_map@[rhs]);
                let before = gate_arena_items(final(self).rebalanced).take(r as int);
                gate_arena_items(final(self).rebalanced)[r as int] == if constants_only && gate_fold_ok(g, before, final(self).q) {
                    spec_gate_fold(g, before, final(self).q)
                } else {
                    g
                }
            }),
            forall|k: GateIdx| #[trigger] old(self).old_to_new_gate_idx_map@.contains_key(k) ==> final(self).old_to_new_gate_idx_map@.contains_key(k),
    {
        let lhs_index = self.get_mapped_index_allocating(lhs, gates);
        let ghost map1 = self.old_to_new_gate_idx_map@;
        let rhs_index = self.get_mapped_index_allocating(rhs, gates);
        let ghost map2 = self.old_to_new_gate_idx_map@;
        proof {
            assert(map1.contains_key(lhs));
            assert(map2[lhs] == lhs_index);
            assert(self.index >= gate_arena_items(*gates).len());
        }
        let mut new_gate = Gate::BinOp(op, lhs_index, rhs_index);
        let ghost before = gate_arena_items(self.rebalanced);
        if constants_only && fold_fits(new_gate, &self.rebalanced, self.q) {
            new_gate = fold(new_gate, &self.rebalanced, self.q);
        }
        let distinct_index = self.get_distinct_index();
        let rebalanced_idx = self.alloc_with_mapped_idx(new_gate, distinct_index);
        proof {
            if old(self).indices_fit() {
                assert(rebalanced_idx as int == before.len());
                assert(gate_arena_items(self.rebalanced).take(rebalanced_idx as int) =~= before);
                assert(distinct_index as int >= gate_arena_items(*gates).len());
                assert(self.old_to_new_gate_idx_map@[lhs] == lhs_index);
                assert(self.old_to_new_gate_idx_map@[rhs] == rhs_index);
            }
        }
        let ghost built = gate_arena_items(self.rebalanced);
        if !constants_only {
            let li = lhs_index as usize;
            if li < self.usages.len() {
                self.usages[li].insert(rebalanced_idx);
            }
            let ri = rhs_index as usize;
            if ri < self.usages.len() {
                self.usages[ri].insert(rebalanced_idx);
            }
        }
        assert(gate_arena_items(self.rebalanced) == built);
        rebalanced_idx
    }

    /// A fresh index for an operation the rebuilding creates, past those of the circuit.
    fn get_distinct_index(&mut self) -> (d: GateIdx)
        requires
            old(self).index < u64::MAX,
        ensures
            d == old(self).index as GateIdx,
            final(self).index == old(self).index + 1,
            final(self).old_to_new_gate_idx_map == old(self).old_to_new_gate_idx_map,
            final(self).ranks == old(self).ranks,
            final(self).rebalanced == old(self).rebalanced,
            final(self).usages == old(self).usages,
            final(self).roots == old(self).roots,
            final(self).outputs == old(self).outputs,
            final(self).q == old(self).q,
    {
        let d = self.index;
        self.index = self.index + 1;
        d as GateIdx
    }

    /// Combines the queued operands two by two, the lowest ranks first, into new operations
    /// `op` (folding two constants); gives the rebalanced index of the last one.
    #[verifier::spinoff_prover]
    fn rebuild(
        &mut self,
        priority_queue: &mut PrioQueue<(GateIdx, isize)>,
        Ghost(s): Ghost<Seq<(GateIdx, isize)>>,
        op: BinOp,
        gates: &Arena<Gate>,
    ) -> (r: GateIdx)
        requires
            old(self).ok(gate_arena_items(*gates)),
            mirrors(*old(priority_queue), s),
            s.len() >= 2,
            rank_total(s) <= isize::MAX,
            forall|k: int| 0 <= k < s.len() ==> #[trigger] s[k].0 < gate_arena_items(*gates).len() || old(self).old_to_new_gate_idx_map@.contains_key(s[k].0),
        ensures
            final(self).ok(gate_arena_items(*gates)),
            final(self).ranks == old(self).ranks,
            final(self).roots == old(self).roots,
            r < gate_arena_items(final(self).rebalanced).len(),
            gate_arena_items(final(self).rebalanced).len() <= u32::MAX ==> rebuilt_root(
                gate_arena_items(final(self).rebalanced),
                r as int,
                op,
            ),
            gate_arena_items(old(self).rebalanced).len() <= gate_arena_items(final(self).rebalanced).len(),
            old(self).index <= final(self).index,
            forall|k: GateIdx| #[trigger] old(self).old_to_new_gate_idx_map@.contains_key(k) ==> final(self).old_to_new_gate_idx_map@.contains_key(k),
    {
        let ghost g = gate_arena_items(*gates);
        let ghost len0 = gate_arena_items(self.rebalanced).len();
        let ghost index0 = self.index;
        let ghost mut gs = s;
        let ghost mut last: GateIdx = 0;
        let ghost mut iterated = false;
        let ghost ranks0 = self.ranks;
        let ghost roots0 = self.roots;
        let ghost map0 = self.old_to_new_gate_idx_map@;
        while rank_queue_len(priority_queue) > 1
            invariant
                self.ok(g),
                g == gate_arena_items(*gates),
                self.ranks == ranks0,
                self.roots == roots0,
                forall|k: GateIdx| #[trigger] map0.contains_key(k) ==> self.old_to_new_gate_idx_map@.contains_key(k),
                mirrors(*priority_queue, gs),
                rank_total(gs) <= isize::MAX,
                gs.len() >= 1,
                !iterated ==> gs.len() >= 2,
                iterated ==> self.old_to_new_gate_idx_map@.contains_key(last),
                iterated ==> (gate_arena_items(self.rebalanced).len() <= u32::MAX ==> rebuilt_root(
                    gate_arena_items(self.rebalanced),
                    self.old_to_new_gate_idx_map@[last] as int,
                    op,
                )),
                len0 <= gate_arena_items(self.rebalanced).len(),
                index0 <= self.index,
                iterated && gs.len() == 1 ==> gs[0].0 == last,
                forall|k: int| 0 <= k < gs.len() ==> #[trigger] gs[k].0 < g.len() || self.old_to_new_gate_idx_map@.contains_key(gs[k].0),
            decreases gs.len(),
        {
            proof {
                gs.to_multiset_ensures();
                lemma_rank_total_bound(gs);
            }
            let popped_l = rank_queue_pop(priority_queue);
            let (lhs, lhs_rank) = match popped_l {
                Some(x) => x,
                None => {
                    assert(false);
                    (0, 0)
                },
            };
            let ghost jl = choose|j: int| 0 <= j < gs.len() && gs[j] == (lhs, lhs_rank);
            proof {
                vstd::seq_lib::to_multiset_contains(gs, (lhs, lhs_rank));
                assert(gs.contains((lhs, lhs_rank)));
                vstd::seq_lib::to_multiset_remove(gs, jl);
                lemma_rank_total_remove(gs, jl);
            }
            let ghost gs1 = gs.remove(jl);
            proof {
                assert forall|k: int| 0 <= k < gs1.len() implies #[trigger] gs1[k].1 >= 0 && (gs1[k].0 < g.len() || self.old_to_new_gate_idx_map@.contains_key(gs1[k].0)) by {
                    if k < jl {
                        assert(gs1[k] == gs[k]);
                    } else {
                        assert(gs1[k] == gs[k + 1]);
                    }
                }
                gs1.to_multiset_ensures();
                lemma_rank_total_bound(gs1);
            }
            let popped_r = rank_queue_pop(priority_queue);
            let (rhs, rhs_rank) = match popped_r {
                Some(x) => x,
                None => {
                    assert(false);
                    (0, 0)
                },
            };
            let ghost jr = choose|j: int| 0 <= j < gs1.len() && gs1[j] == (rhs, rhs_rank);
            proof {
                vstd::seq_lib::to_multiset_contains(gs1, (rhs, rhs_rank));
                assert(gs1.contains((rhs, rhs_rank)));
                vstd::seq_lib::to_multiset_remove(gs1, jr);
                lemma_rank_total_remove(gs1, jr);
            }
            let ghost gs2 = gs1.remove(jr);
            proof {
                assert forall|k: int| 0 <= k < gs2.len() implies #[trigger] gs2[k].1 >= 0 && (gs2[k].0 < g.len() || self.old_to_new_gate_idx_map@.contains_key(gs2[k].0)) by {
                    if k < jr {
                        assert(gs2[k] == gs1[k]);
                    } else {
                        assert(gs2[k] == gs1[k + 1]);
                    }
                }
                lemma_rank_total_bound(gs2);
            }
            let lhs_index = self.get_mapped_index_allocating(lhs, gates);
            let rhs_index = self.get_mapped_index_allocating(rhs, gates);
            let mut new_gate = Gate::BinOp(op, lhs_index, rhs_index);
            let rank: isize = if lhs_rank == 0 && rhs_rank == 0 {
                if fold_fits(new_gate, &self.rebalanced, self.q) {
                    new_gate = fold(new_gate, &self.rebalanced, self.q);
                }
                0
            } else {
                lhs_rank + rhs_rank
            };
            let distinct_index = self.get_distinct_index();
            let ghost before_alloc = gate_arena_items(self.rebalanced);
            proof {
                assert(new_gate is Const || (new_gate matches Gate::BinOp(o, x, y) && o == op && x < before_alloc.len()
                    && y < before_alloc.len()));
            }
            let rebalanced_idx = self.alloc_with_mapped_idx(new_gate, distinct_index);
            let ghost after_alloc = gate_arena_items(self.rebalanced);
            if rank != 0 {
                let l = lhs_index as usize;
                if l < self.usages.len() {
                    self.usages[l].insert(rebalanced_idx);
                }
                let r = rhs_index as usize;
                if r < self.usages.len() {
                    self.usages[r].insert(rebalanced_idx);
                }
            }
            rank_queue_push(priority_queue, (distinct_index, rank));
            proof {
                vstd::seq_lib::to_multiset_build(gs2, (distinct_index, rank));
                assert(gs2.push((distinct_index, rank)).drop_last() =~= gs2);
                let ngs = gs2.push((distinct_index, rank));
                assert forall|k: int| 0 <= k < ngs.len() implies #[trigger] ngs[k].1 >= 0 by {
                    if k < gs2.len() {
                        assert(ngs[k] == gs2[k]);
                    }
                }
                assert forall|k: int| 0 <= k < ngs.len() implies #[trigger] ngs[k].0 < g.len() || self.old_to_new_gate_idx_map@.contains_key(ngs[k].0) by {
                    if k < gs2.len() {
                        assert(ngs[k] == gs2[k]);
                    }
                }
                assert(gate_arena_items(self.rebalanced) == after_alloc);
                assert(self.old_to_new_gate_idx_map@[distinct_index] == rebalanced_idx);
                if after_alloc.len() <= u32::MAX {
                    assert(rebalanced_idx as int == before_alloc.len());
                    assert(rebuilt_root(after_alloc, rebalanced_idx as int, op));
                }
                gs = ngs;
                last = distinct_index;
                iterated = true;
            }
        }
        proof {
            gs.to_multiset_ensures();
        }
        let popped = rank_queue_pop(priority_queue);
        let root_gate_idx = match popped {
            Some(x) => x.0,
            None => {
                assert(false);
                0
            },
        };
        proof {
            assert(gs.len() == 1);
            vstd::seq_lib::to_multiset_contains(gs, popped.unwrap());
            assert(root_gate_idx == last);
        }
        match self.old_to_new_gate_idx_map.get(&root_gate_idx) {
            Some(mapped) => *mapped,
            None => {
                assert(false);
                0
            },
        }
    }
}

/// What a rebuilding of a tree of operations `op` ends with, at index `m`: an operation
/// `op` on two gates before it, or the constant two constants folded into.
pub open spec fn rebuilt_root(built: Seq<Gate>, m: int, op: BinOp) -> bool {
    ||| built[m] is Const
    ||| (built[m] matches Gate::BinOp(o, x, y) && o == op && x < m && y < m)
}

/// What the rebalancing of the root `root` (an operation `op` on `lhs` and `rhs`) built, as
/// the pass `p` records it: its image `m` is an operation `op` on two gates before it, or a
/// folded constant, when `op` is associative and commutative; else the operation `op` on the
/// images of `lhs` and `rhs`, in that order, or the constant it folds into (both while the
/// indices fit in a gate index).
pub open spec fn balanced_root(built: Seq<Gate>, map: Map<GateIdx, GateIdx>, fits: bool, root: GateIdx, gate: Gate) -> bool {
    match gate {
        Gate::BinOp(op, lhs, rhs) => {
            &&& map.contains_key(root)
            &&& map[root] < built.len()
            &&& op.spec_associative() && op.spec_commutative() ==> (built.len() <= u32::MAX ==> rebuilt_root(
                built,
                map[root] as int,
                op,
            ))
            &&& !(op.spec_associative() && op.spec_commutative()) ==> (fits ==> map.contains_key(lhs) && map.contains_key(rhs)
                && (built[map[root] as int] == Gate::BinOp(op, map[lhs], map[rhs]) || built[map[root] as int] is Const))
        },
        _ => false,
    }
}

/// A gate is an operation of another kind than `op`.
pub open spec fn other_kind(gate: Gate, op: BinOp) -> bool {
    match gate {
        Gate::BinOp(usage_op, _, _) => usage_op != op,
        _ => false,
    }
}

/// Whether an operation `op` at `gate_idx` roots a tree of its own: it has several users, or
/// its one user is an operation of another kind.
fn is_root(gate_idx: GateIdx, op: BinOp, usages: &[HashSet<GateIdx>], gates: &Arena<Gate>) -> (b: bool)
    requires
        gate_idx < usages@.len(),
        forall|i: int, u: GateIdx| 0 <= i < usages@.len() && #[trigger] usages@[i]@.contains(u) ==> u < gate_arena_items(*gates).len(),
        forall|i: int| 0 <= i < usages@.len() ==> (#[trigger] usages@[i])@.finite(),
    ensures
        b == (usages@[gate_idx as int]@.len() > 1 || (usages@[gate_idx as int]@.len() == 1 && exists|u: GateIdx|
            #[trigger] usages@[gate_idx as int]@.contains(u) && other_kind(gate_arena_items(*gates)[u as int], op))),
{
    let users = &usages[gate_idx as usize];
    if users.len() > 1 {
        return true;
    }
    let elements = set_elements(users);
    proof {
        elements@.unique_seq_to_set();
    }
    if elements.len() > 0 {
        let only_usage_idx = elements[0];
        proof {
            assert(elements@.to_set().contains(only_usage_idx));
        }
        match gate_arena_get(gates, only_usage_idx) {
            Gate::BinOp(usage_op, _, _) => {
                proof {
                    assert forall|u: GateIdx| #[trigger] users@.contains(u) implies u == only_usage_idx by {
                        if u != only_usage_idx {
                            assert(users@.contains(only_usage_idx));
                            assert(users@.remove(only_usage_idx).contains(u));
                            assert(users@.remove(only_usage_idx).len() == 0);
                        }
                    }
                }
                return op != usage_op;
            },
            _ => {
                proof {
                    assert forall|u: GateIdx| #[trigger] users@.contains(u) implies u == only_usage_idx by {
                        if u != only_usage_idx {
                            assert(users@.contains(only_usage_idx));
                            assert(users@.remove(only_usage_idx).contains(u));
                            assert(users@.remove(only_usage_idx).len() == 0);
                        }
                    }
                }
            },
        }
    }
    false
}

/// Whether the ranks of a circuit's gates fit in an `isize`, as `rebalance` needs.
pub fn rebalance_ranks_fit(circuit: &Circuit) -> (b: bool)
    requires
        circuit_wf(circuit@),
    ensures
        b == ranks_fit(circuit@.gates),
{
    let gates = circuit.gates();
    let ghost g = circuit@.gates;
    let n = gate_arena_len(gates);
    let mut ranks: Vec<u64> = Vec::new();
    let mut i: usize = 0;
    while i < n
        invariant
            circuit_wf(circuit@),
            g == circuit@.gates,
            gate_arena_items(*gates) == g,
            n == g.len(),
            i <= n,
            ranks@.len() == i,
            forall|j: int| 0 <= j < i ==> #[trigger] ranks@[j] == tree_rank(g, j),
            forall|j: int| 0 <= j < i ==> #[trigger] tree_rank(g, j) <= isize::MAX,
        decreases n - i,
    {
        let gate = gate_arena_get(gates, i as u32);
        let rank: u64 = match gate {
            Gate::Input(_) => 1,
            Gate::BinOp(_, lhs, rhs) => {
                assert(lhs < i && rhs < i);
                let l = ranks[lhs as usize];
                let r = ranks[rhs as usize];
                assert(tree_rank(g, lhs as int) <= isize::MAX);
                assert(tree_rank(g, rhs as int) <= isize::MAX);
                l + r
            },
            _ => 0,
        };
        assert(rank == tree_rank(g, i as int));
        if rank > isize::MAX as u64 {
            assert(tree_rank(g, i as int) > isize::MAX);
            return false;
        }
        ranks.push(rank);
        i = i + 1;
    }
    true
}

/// The gates a circuit uses as operands of gate `i`: the operations on it.
pub open spec fn operation_users(gates: Seq<Gate>, i: int) -> Set<GateIdx> {
    Set::new(|u: GateIdx| u < gates.len() && uses_operand(gates[u as int], i as GateIdx))
}

/// Gate `k` of a circuit roots a tree of its own: an operation with several users, or with one
/// user that is an operation of another kind, or an output, or an operation that is not
/// associative and commutative.
pub open spec fn is_tree_root(c: CircuitView, k: int) -> bool {
    match c.gates[k] {
        Gate::BinOp(op, _, _) => {
            ||| operation_users(c.gates, k).len() > 1
            ||| (operation_users(c.gates, k).len() == 1 && exists|u: GateIdx|
                #[trigger] operation_users(c.gates, k).contains(u) && other_kind(c.gates[u as int], op))
            ||| c.outputs.contains(k as GateIdx)
            ||| !(op.spec_associative() && op.spec_commutative())
        },
        _ => false,
    }
}

/// The operations listed up to `k` are operations among the first `k` gates.
proof fn lemma_operations_listed(gates: Seq<Gate>, k: int)
    requires
        0 <= k <= gates.len(),
        gates.len() <= u32::MAX,
    ensures
        forall|m: int|
            0 <= m < operations_upto(gates, k).len() ==> #[trigger] operations_upto(gates, k)[m] < k
                && gates[operations_upto(gates, k)[m] as int] is BinOp,
    decreases k,
{
    if k > 0 {
        lemma_operations_listed(gates, k - 1);
        let prev = operations_upto(gates, k - 1);
        assert forall|m: int| 0 <= m < operations_upto(gates, k).len() implies #[trigger] operations_upto(gates, k)[m] < k
            && gates[operations_upto(gates, k)[m] as int] is BinOp by {
            if m < prev.len() {
                assert(operations_upto(gates, k)[m] == prev[m]);
            }
        }
    }
}

/// The roots of the trees of a circuit, in a queue that gives the operations of highest
/// precedence first, and as a set.
pub fn tree_roots(circuit: &Circuit) -> (r: (PrioQueue<(GateIdx, usize)>, IndexSet))
    requires
        circuit_wf(circuit@),
    ensures
        root_queue_highest_first(r.0),
        forall|x: (GateIdx, usize)|
            #[trigger] root_queue_items(r.0).contains(x) ==> x.0 < circuit@.gates.len() && circuit@.gates[x.0 as int] is BinOp
                && is_tree_root(circuit@, x.0 as int),
        forall|k: usize| #[trigger] bit_set_items(r.1).contains(k) <==> k < circuit@.gates.len() && is_tree_root(circuit@, k as int),
{
    let gates = circuit.gates();
    let ghost g = circuit@.gates;
    let gates_len = gate_arena_len(gates);
    let mut usages: Vec<HashSet<GateIdx>> = Vec::new();
    let mut k: usize = 0;
    while k < gates_len
        invariant
            k <= gates_len,
            usages@.len() == k,
            forall|j: int| 0 <= j < k ==> (#[trigger] usages@[j])@ == Set::<GateIdx>::empty(),
        decreases gates_len - k,
    {
        usages.push(HashSet::new());
        k = k + 1;
    }
    let mut operation_gates: Vec<GateIdx> = Vec::new();
    let mut idx: usize = 0;
    while idx < gates_len
        invariant
            circuit_wf(circuit@),
            g == circuit@.gates,
            gate_arena_items(*gates) == g,
            gates_len == g.len(),
            idx <= gates_len,
            usages@.len() == gates_len,
            forall|i: int, u: GateIdx| 0 <= i < gates_len && #[trigger] usages@[i]@.contains(u) ==> u < gates_len,
            forall|i: int| 0 <= i < gates_len ==> (#[trigger] usages@[i])@.finite(),
            forall|j: int| 0 <= j < operation_gates@.len() ==> #[trigger] operation_gates@[j] < gates_len,
            forall|i: int|
                0 <= i < gates_len ==> #[trigger] usages@[i]@ == Set::new(
                    |u: GateIdx| u < idx && uses_operand(g[u as int], i as GateIdx),
                ),
            operation_gates@ == operations_upto(g, idx as int),
        decreases gates_len - idx,
    {
        let gate_idx = idx as GateIdx;
        if let Gate::BinOp(_, lhs_idx, rhs_idx) = gate_arena_get(gates, gate_idx) {
            assert(lhs_idx < idx && rhs_idx < idx);
            let ghost u0 = usages@;
            operation_gates.push(gate_idx);
            usages[lhs_idx as usize].insert(gate_idx);
            usages[rhs_idx as usize].insert(gate_idx);
            proof {
                assert forall|i: int| 0 <= i < gates_len implies #[trigger] usages@[i]@ == Set::new(
                    |u: GateIdx| u < idx + 1 && uses_operand(g[u as int], i as GateIdx),
                ) by {
                    assert(gate_idx as int == idx);
                    assert(usages@[i]@ =~= Set::new(|u: GateIdx| u < idx + 1 && uses_operand(g[u as int], i as GateIdx)));
                }
            }
        } else {
            proof {
                assert forall|i: int| 0 <= i < gates_len implies #[trigger] usages@[i]@ == Set::new(
                    |u: GateIdx| u < idx + 1 && uses_operand(g[u as int], i as GateIdx),
                ) by {
                    assert(usages@[i]@ =~= Set::new(|u: GateIdx| u < idx + 1 && uses_operand(g[u as int], i as GateIdx)));
                }
            }
        }
        idx = idx + 1;
    }
    proof {
        assert forall|i: int| 0 <= i < gates_len implies #[trigger] usages@[i]@ == operation_users(g, i) by {
            assert(usages@[i]@ =~= operation_users(g, i));
        }
    }
    let circuit_outputs = circuit.outputs();
    let mut roots_wrt_precedence = root_queue_new();
    let mut roots = bit_set_new();
    let mut j: usize = 0;
    while j < operation_gates.len()
        invariant
            circuit_wf(circuit@),
            g == circuit@.gates,
            gate_arena_items(*gates) == g,
            gates_len == g.len(),
            usages@.len() == gates_len,
            forall|i: int, u: GateIdx| 0 <= i < gates_len && #[trigger] usages@[i]@.contains(u) ==> u < gates_len,
            forall|i: int| 0 <= i < gates_len ==> (#[trigger] usages@[i])@.finite(),
            forall|m: int| 0 <= m < operation_gates@.len() ==> #[trigger] operation_gates@[m] < gates_len,
            j <= operation_gates@.len(),
            root_queue_highest_first(roots_wrt_precedence),
            forall|x: (GateIdx, usize)| #[trigger] root_queue_items(roots_wrt_precedence).contains(x) ==> x.0 < gates_len && g[x.0 as int] is BinOp
                && is_tree_root(circuit@, x.0 as int),
            forall|i: int| 0 <= i < gates_len ==> #[trigger] usages@[i]@ == operation_users(g, i),
            operation_gates@ == operations_upto(g, gates_len as int),
            circuit_outputs@ == circuit@.outputs,
            forall|k: usize|
                #[trigger] bit_set_items(roots).contains(k) <==> exists|m: int|
                    0 <= m < j && operation_gates@[m] as usize == k && is_tree_root(circuit@, k as int),
        decreases operation_gates@.len() - j,
    {
        let op_gate_idx = operation_gates[j];
        if let Gate::BinOp(op, _, _) = gate_arena_get(gates, op_gate_idx) {
            if is_root(op_gate_idx, op, usages.as_slice(), gates) || contains_index(circuit_outputs, op_gate_idx)
                || !is_op_associative_and_commutative(op) {
                let ghost before = root_queue_items(roots_wrt_precedence);
                let ghost bits0 = bit_set_items(roots);
                proof {
                    assert(is_tree_root(circuit@, op_gate_idx as int));
                }
                let precedence = op.precedence();
                root_queue_push(&mut roots_wrt_precedence, (op_gate_idx, precedence));
                proof {
                    assert forall|x: (GateIdx, usize)| #[trigger] root_queue_items(roots_wrt_precedence).contains(x) implies x.0 < gates_len && g[x.0 as int] is BinOp
                        && is_tree_root(circuit@, x.0 as int) by {
                        if x != (op_gate_idx, precedence) {
                            assert(before.contains(x));
                        }
                    }
                }
                bit_set_insert(&mut roots, op_gate_idx as usize);
                proof {
                    assert forall|k: usize|
                        #[trigger] bit_set_items(roots).contains(k) <==> exists|m: int|
                            0 <= m < j + 1 && operation_gates@[m] as usize == k && is_tree_root(circuit@, k as int) by {
                        if bit_set_items(roots).contains(k) && k != op_gate_idx as usize {
                            assert(bits0.contains(k));
                        }
                        if exists|m: int| 0 <= m < j + 1 && operation_gates@[m] as usize == k && is_tree_root(circuit@, k as int) {
                            let m = choose|m: int| 0 <= m < j + 1 && operation_gates@[m] as usize == k && is_tree_root(circuit@, k as int);
                            if m < j {
                                assert(bits0.contains(k));
                            }
                        }
                    }
                }
            } else {
                proof {
                    assert(!is_tree_root(circuit@, op_gate_idx as int));
                    assert forall|k: usize|
                        #[trigger] bit_set_items(roots).contains(k) <==> exists|m: int|
                            0 <= m < j + 1 && operation_gates@[m] as usize == k && is_tree_root(circuit@, k as int) by {
                        if exists|m: int| 0 <= m < j + 1 && operation_gates@[m] as usize == k && is_tree_root(circuit@, k as int) {
                            let m = choose|m: int| 0 <= m < j + 1 && operation_gates@[m] as usize == k && is_tree_root(circuit@, k as int);
                            if m == j {
                                assert(operation_gates@[m] == op_gate_idx);
                            }
                        }
                    }
                }
            }
        } else {
            proof {
                lemma_operations_listed(g, gates_len as int);
                assert(g[op_gate_idx as int] is BinOp);
            }
        }
        j = j + 1;
    }
    proof {
        lemma_operations_listed(g, gates_len as int);
        assert forall|k: usize|
            #[trigger] bit_set_items(roots).contains(k) <==> k < gates_len && is_tree_root(circuit@, k as int) by {
            if k < gates_len && is_tree_root(circuit@, k as int) {
                lemma_operations_upto_contains(g, gates_len as int, k as int);
                let m = choose|m: int| 0 <= m < operation_gates@.len() && operation_gates@[m] == k as GateIdx;
                assert(operation_gates@[m] as usize == k);
            }
        }
    }
    (roots_wrt_precedence, roots)
}

/// Rebalances each tree of operations of one kind, from the roots of the operations of highest
/// precedence down; the gates left without users are dropped. An operation on constants only
/// records no users for its operands, as it is meant to fold; when it cannot (a sum or product
/// past `u64`, a difference below zero), its operands are dropped while it is kept.
pub fn rebalance(circuit: &Circuit) -> (c: Circuit)
    requires
        circuit_wf(circuit@),
        ranks_fit(circuit@.gates),
    ensures
        c@.q == circuit@.q,
        c@.gates.len() <= circuit@.gates.len(),
        forall|j: int| 0 <= j < c@.inputs.len() ==> #[trigger] c@.inputs[j] < c@.gates.len() && c@.gates[c@.inputs[j] as int] is Input,
        forall|j: int| 0 <= j < c@.outputs.len() ==> #[trigger] c@.outputs[j] < c@.gates.len(),
{
    let gates = circuit.gates();
    let ghost g = circuit@.gates;
    let (mut roots_wrt_precedence, roots) = tree_roots(circuit);
    let mut rebalance_pass = RebalancePass::new(circuit, roots);
    while !root_queue_is_empty(&roots_wrt_precedence)
        invariant
            rebalance_pass.ok(g),
            g == gate_arena_items(*gates),
            root_queue_highest_first(roots_wrt_precedence),
            forall|x: (GateIdx, usize)| #[trigger] root_queue_items(roots_wrt_precedence).contains(x) ==> x.0 < g.len() && g[x.0 as int] is BinOp,
        decreases root_queue_items(roots_wrt_precedence).len(),
    {
        let ghost before = root_queue_items(roots_wrt_precedence);
        let popped = root_queue_pop(&mut roots_wrt_precedence);
        proof {
            assert forall|x: (GateIdx, usize)| #[trigger] root_queue_items(roots_wrt_precedence).contains(x) implies x.0 < g.len() && g[x.0 as int] is BinOp by {
                assert(before.contains(x));
            }
        }
        let root = match popped {
            Some(x) => x.0,
            None => {
                assert(false);
                0
            },
        };
        rebalance_pass.balance(root, gates);
    }
    // The outputs name gates of the circuit: the rebuilding looks for their images among the
    // rebalanced gates, each kept alive by counting itself among its users.
    let circuit_outputs = circuit.outputs();
    let mut rebalanced_outputs: Vec<GateIdx> = Vec::new();
    let mut j: usize = 0;
    while j < circuit_outputs.len()
        invariant
            rebalance_pass.ok(g),
            g == gate_arena_items(*gates),
            circuit_wf(circuit@),
            g == circuit@.gates,
            circuit_outputs@ == circuit@.outputs,
            j <= circuit_outputs@.len(),
        decreases circuit_outputs@.len() - j,
    {
        let o = circuit_outputs[j];
        let m = rebalance_pass.get_mapped_index_allocating(o, gates);
        let t = m as usize;
        if t < rebalance_pass.usages.len() {
            proof {
                assert(m < gate_arena_items(rebalance_pass.rebalanced).len());
            }
            rebalance_pass.usages[t].insert(m);
        }
        rebalanced_outputs.push(m);
        j = j + 1;
    }
    let shell = Circuit::with(
        circuit.q(),
        gate_arena_new(),
        idx_list_from_vec(Vec::new()),
        idx_list_from_vec(rebalanced_outputs),
    );
    new_reassociated_circuit_from(&shell, rebalance_pass.rebalanced, rebalance_pass.usages.as_slice())
}

/// Whether `x` is among `s`.
fn contains_index(s: &[GateIdx], x: GateIdx) -> (b: bool)
    ensures
        b == s@.contains(x),
{
    let mut i: usize = 0;
    while i < s.len()
        invariant
            i <= s@.len(),
            forall|j: int| 0 <= j < i ==> s@[j] != x,
        decreases s@.len() - i,
    {
        if s[i] == x {
            return true;
        }
        i = i + 1;
    }
    false
}

} // verus!
