use vstd::prelude::*;

use la_arena::Arena;
use std::collections::HashMap;
use thin_vec::ThinVec;

use crate::arena::{gate_arena_get, gate_arena_items};
use crate::backend::Backend;
use crate::backend::error::BackendError;
use crate::backend::plain::output_walk;
use crate::backend::validation::validate_same_length;
use crate::ir::{
    apply_op, circuit_wf, gate_kids, gate_value, gate_value_ok, gates_wf, lemma_gate_value_range,
    lemma_post_order_all_contains_roots, lemma_post_order_all_prefix, lemma_post_order_extends, post_order, post_order_all, Circuit,
    CircuitView, Gate, GateIdx, SupportedType,
};
use crate::op::BinOp;
use crate::thin::{element_list_from_vec, element_list_items};

verus! {

broadcast use vstd::std_specs::hash::group_hash_axioms;

/// Noise added to a value when it is encrypted.
pub const ENC_NOISE: usize = 1;

/// Noise an addition or a subtraction adds to the larger noise of its operands.
pub const ADD_COST: usize = 1;

/// Noise a multiplication adds to the sum of the noises of its operands.
pub const MUL_COST: usize = 5;

/// A mock ciphertext: its plaintext value, its multiplicative depth and its noise.
#[derive(Clone, Copy, Debug, Default, PartialEq, Eq, Structural)]
pub struct FHEElement {
    pub value: u64,
    pub depth: usize,
    pub noise: usize,
}

/// The multiplicative depth of gate `i`.
pub open spec fn mock_depth(gates: Seq<Gate>, i: int) -> int
    decreases i,
{
    if i < 0 || i >= gates.len() {
        0
    } else {
        match gates[i] {
            Gate::BinOp(op, lhs, rhs) => if lhs < i && rhs < i {
                let d = vstd::math::max(mock_depth(gates, lhs as int), mock_depth(gates, rhs as int));
                if op == BinOp::Mul {
                    d + 1
                } else {
                    d
                }
            } else {
                0
            },
            _ => 0,
        }
    }
}

/// The noise of the mock ciphertext of gate `i`: an input carries the encryption noise, a
/// constant none, an addition or subtraction adds `ADD_COST` to the larger operand noise and a
/// multiplication adds `MUL_COST` to the sum of the operand noises.
pub open spec fn mock_noise(gates: Seq<Gate>, i: int) -> int
    decreases i,
{
    if i < 0 || i >= gates.len() {
        0
    } else {
        match gates[i] {
            Gate::Input(_) => ENC_NOISE as int,
            Gate::BinOp(op, lhs, rhs) => if lhs < i && rhs < i {
                let nl = mock_noise(gates, lhs as int);
                let nr = mock_noise(gates, rhs as int);
                if op == BinOp::Mul {
                    nl + nr + MUL_COST
                } else {
                    vstd::math::max(nl, nr) + ADD_COST
                }
            } else {
                0
            },
            _ => 0,
        }
    }
}

/// The mock ciphertext of gate `i`.
pub open spec fn mock_elem(gates: Seq<Gate>, with: Seq<u64>, q: u64, i: int) -> FHEElement {
    FHEElement {
        value: gate_value(gates, with, q, i) as u64,
        depth: mock_depth(gates, i) as usize,
        noise: mock_noise(gates, i) as usize,
    }
}

/// Gate `i` can be evaluated without a panic: its value as for plain evaluation, and its noise
/// fits in a `usize`.
pub open spec fn mock_gate_ok(gates: Seq<Gate>, with: Seq<u64>, q: u64, i: int) -> bool {
    &&& gate_value_ok(gates, with, q, i)
    &&& mock_noise(gates, i) <= usize::MAX
}

/// Every gate visited in the order `walk` can be evaluated, up to the first gate whose noise
/// exceeds the budget (evaluation stops there).
pub open spec fn walk_ok(gates: Seq<Gate>, with: Seq<u64>, q: u64, budget: usize, walk: Seq<int>) -> bool {
    forall|p: int|
        0 <= p < walk.len() && (forall|p2: int| 0 <= p2 < p ==> mock_noise(gates, #[trigger] walk[p2]) <= budget)
            ==> mock_gate_ok(gates, with, q, #[trigger] walk[p])
}

/// The gates of a circuit in index order.
pub open spec fn index_walk(n: nat) -> Seq<int> {
    Seq::new(n, |i: int| i)
}

/// Evaluating the gates in the order `walk` stops at position `p` because of the noise: `p` is
/// the first position whose gate's noise exceeds the budget, and the error names that gate.
pub open spec fn noise_stop(gates: Seq<Gate>, budget: usize, walk: Seq<int>, from: int, e: BackendError) -> bool {
    exists|p: int|
        from <= p < walk.len() && mock_noise(gates, walk[p]) > budget && (forall|p2: int|
            from <= p2 < p ==> mock_noise(gates, #[trigger] walk[p2]) <= budget) && e
            == BackendError::NoiseBudgetExceeded(budget, mock_noise(gates, walk[p]) as usize, walk[p] as usize)
}

/// Evaluation does not depend on earlier evaluations: the stop of a walk names one error, so
/// the result of `eval` or `eval_outputs` is fixed by the budget, the circuit and the inputs,
/// whatever the backend evaluated before.
pub proof fn lemma_noise_stop_unique(gates: Seq<Gate>, budget: usize, walk: Seq<int>, from: int, e1: BackendError, e2: BackendError)
    requires
        noise_stop(gates, budget, walk, from, e1),
        noise_stop(gates, budget, walk, from, e2),
    ensures
        e1 == e2,
{
    let p1 = choose|p: int|
        from <= p < walk.len() && mock_noise(gates, walk[p]) > budget && (forall|p2: int|
            from <= p2 < p ==> mock_noise(gates, #[trigger] walk[p2]) <= budget) && e1
            == BackendError::NoiseBudgetExceeded(budget, mock_noise(gates, walk[p]) as usize, walk[p] as usize);
    let p2 = choose|p: int|
        from <= p < walk.len() && mock_noise(gates, walk[p]) > budget && (forall|p2: int|
            from <= p2 < p ==> mock_noise(gates, #[trigger] walk[p2]) <= budget) && e2
            == BackendError::NoiseBudgetExceeded(budget, mock_noise(gates, walk[p]) as usize, walk[p] as usize);
    if p1 < p2 {
        assert(mock_noise(gates, walk[p1]) <= budget);
    } else if p2 < p1 {
        assert(mock_noise(gates, walk[p2]) <= budget);
    }
}

/// `walk_ok` holds of every prefix of a walk of which it holds.
pub proof fn lemma_walk_ok_prefix(gates: Seq<Gate>, with: Seq<u64>, q: u64, budget: usize, w: Seq<int>, prefix: Seq<int>)
    requires
        walk_ok(gates, with, q, budget, w),
        prefix.len() <= w.len(),
        forall|p: int| 0 <= p < prefix.len() ==> #[trigger] prefix[p] == w[p],
    ensures
        walk_ok(gates, with, q, budget, prefix),
{
    assert forall|p: int|
        0 <= p < prefix.len() && (forall|p2: int| 0 <= p2 < p ==> mock_noise(gates, #[trigger] prefix[p2]) <= budget)
            implies mock_gate_ok(gates, with, q, #[trigger] prefix[p]) by {
        assert forall|p2: int| 0 <= p2 < p implies mock_noise(gates, #[trigger] w[p2]) <= budget by {
            assert(prefix[p2] == w[p2]);
        }
        assert(prefix[p] == w[p]);
    }
}

/// A stop found in a prefix of a walk is the stop of the walk, when the positions between the
/// two starting points are within the budget.
pub proof fn lemma_noise_stop_widen(
    gates: Seq<Gate>,
    budget: usize,
    small: Seq<int>,
    from: int,
    big: Seq<int>,
    from2: int,
    e: BackendError,
)
    requires
        noise_stop(gates, budget, small, from, e),
        small.len() <= big.len(),
        forall|p: int| 0 <= p < small.len() ==> #[trigger] small[p] == big[p],
        0 <= from2 <= from,
        forall|p: int| from2 <= p < from ==> mock_noise(gates, #[trigger] big[p]) <= budget,
    ensures
        noise_stop(gates, budget, big, from2, e),
{
    let p = choose|p: int|
        from <= p < small.len() && mock_noise(gates, small[p]) > budget && (forall|p2: int|
            from <= p2 < p ==> mock_noise(gates, #[trigger] small[p2]) <= budget) && e
            == BackendError::NoiseBudgetExceeded(budget, mock_noise(gates, small[p]) as usize, small[p] as usize);
    assert(big[p] == small[p]);
    assert forall|p2: int| from2 <= p2 < p implies mock_noise(gates, #[trigger] big[p2]) <= budget by {
        if p2 >= from {
            assert(small[p2] == big[p2]);
        }
    }
}

/// The walk from the `k`-th output is a prefix of the walk from all outputs.
pub proof fn lemma_output_segment(kids: spec_fn(int) -> Option<(int, int)>, roots: Seq<int>, k: int)
    requires
        0 <= k < roots.len(),
    ensures
        ({
            let seen = post_order_all(kids, Seq::empty(), roots.take(k));
            let next = post_order(kids, seen, roots[k]);
            let full = post_order_all(kids, Seq::empty(), roots);
            &&& next == post_order_all(kids, Seq::empty(), roots.take(k + 1))
            &&& next.len() <= full.len()
            &&& forall|p: int| 0 <= p < next.len() ==> #[trigger] next[p] == full[p]
            &&& seen.len() <= next.len()
            &&& forall|p: int| 0 <= p < seen.len() ==> #[trigger] seen[p] == next[p]
            &&& 0 <= roots[k] ==> next.contains(roots[k])
        }),
{
    let seen = post_order_all(kids, Seq::empty(), roots.take(k));
    assert(roots.take(k + 1).drop_last() =~= roots.take(k));
    assert(roots.take(k + 1).last() == roots[k]);
    assert(roots.take(roots.len() as int) =~= roots);
    lemma_post_order_all_prefix(kids, Seq::empty(), roots, k + 1, roots.len() as int);
    lemma_post_order_extends(kids, seen, roots[k]);
    let next = post_order(kids, seen, roots[k]);
    assert forall|p: int| 0 <= p < next.len() implies #[trigger] next[p] == post_order_all(kids, Seq::empty(), roots)[p] by {
        assert(post_order_all(kids, Seq::empty(), roots.take(roots.len() as int))[p]
            == post_order_all(kids, Seq::empty(), roots.take(k + 1))[p]);
    }
}

/// The noise of a gate is larger than the noises of its operands; depth never exceeds the index.
pub proof fn lemma_mock_depth_bound(gates: Seq<Gate>, i: int)
    requires
        0 <= i,
    ensures
        0 <= mock_depth(gates, i) <= i,
    decreases i,
{
    if 0 <= i < gates.len() {
        if let Gate::BinOp(op, lhs, rhs) = gates[i] {
            if lhs < i && rhs < i {
                lemma_mock_depth_bound(gates, lhs as int);
                lemma_mock_depth_bound(gates, rhs as int);
            }
        }
    }
}

pub proof fn lemma_mock_noise_nonneg(gates: Seq<Gate>, i: int)
    ensures
        0 <= mock_noise(gates, i),
    decreases i,
{
    if 0 <= i < gates.len() {
        if let Gate::BinOp(op, lhs, rhs) = gates[i] {
            if lhs < i && rhs < i {
                lemma_mock_noise_nonneg(gates, lhs as int);
                lemma_mock_noise_nonneg(gates, rhs as int);
            }
        }
    }
}

/// The largest noise seen so far during an evaluation, and where.
#[derive(Clone, Copy, Debug, Default, PartialEq, Eq, Structural)]
pub struct Noise {
    noise_budget: usize,
    max_so_far: usize,
    index: usize,
}

/// What Verus sees of a noise record.
pub struct NoiseView {
    pub noise_budget: usize,
    pub max_so_far: usize,
    pub index: usize,
}

impl View for Noise {
    type V = NoiseView;

    closed spec fn view(&self) -> NoiseView {
        NoiseView { noise_budget: self.noise_budget, max_so_far: self.max_so_far, index: self.index }
    }
}

impl Noise {
    pub fn new(noise_budget: usize) -> (n: Self)
        ensures
            n@ == (NoiseView { noise_budget, max_so_far: 0, index: 0 }),
    {
        Self { noise_budget, max_so_far: 0, index: 0 }
    }

    /// Records the noise of gate `index`; fails when it is a new maximum beyond the
    /// budget.
    pub fn update(&mut self, value: usize, index: usize) -> (r: Result<(), BackendError>)
        ensures
            final(self)@.noise_budget == old(self)@.noise_budget,
            r is Ok ==> final(self)@.max_so_far == vstd::math::max(old(self)@.max_so_far as int, value as int),
            r is Ok <==> (value < old(self)@.max_so_far || value <= old(self)@.noise_budget),
            value < old(self)@.max_so_far ==> r == Ok::<(), BackendError>(()) && final(self)@ == old(self)@,
            value >= old(self)@.max_so_far ==> {
                &&& final(self)@ == (NoiseView { max_so_far: value, index, ..old(self)@ })
                &&& r == if value <= old(self)@.noise_budget {
                    Ok::<(), BackendError>(())
                } else {
                    Err(BackendError::NoiseBudgetExceeded(old(self)@.noise_budget, value, index))
                }
            },
    {
        if value < self.max_so_far {
            return Ok(());
        }
        self.max_so_far = value;
        self.index = index;
        if self.max_so_far <= self.noise_budget {
            return Ok(());
        }
        Err(BackendError::NoiseBudgetExceeded(self.noise_budget, self.max_so_far, self.index))
    }
}

/// Evaluates circuits on mock ciphertexts that track depth and noise, and refuses to go on
/// once the noise exceeds a budget.
#[derive(Clone, Copy, Debug)]
pub struct MockFHEBackend {
    q: SupportedType,
    noise: Noise,
}

impl MockFHEBackend {
    pub fn new(noise_budget: usize) -> (b: Self)
        ensures
            b.spec_q() == 0,
            b.spec_budget() == noise_budget,
            b.spec_noise() == (NoiseView { noise_budget, max_so_far: 0, index: 0 }),
    {
        Self { q: 0, noise: Noise::new(noise_budget) }
    }

    /// The modulus of the circuit evaluated last (zero before any evaluation).
    pub closed spec fn spec_q(&self) -> SupportedType {
        self.q
    }

    /// The noise record: the budget, and the largest noise met so far with its gate.
    pub closed spec fn spec_noise(&self) -> NoiseView {
        self.noise@
    }

    /// The noise budget.
    pub closed spec fn spec_budget(&self) -> usize {
        self.noise.noise_budget
    }

    /// Post-order evaluation of gate `i` and of the gates it depends on, skipping gates whose
    /// elements are already known; stops at the first noise beyond the budget.
    #[verifier::rlimit(60)]
    fn visit(
        &mut self,
        gates: &Arena<Gate>,
        with: &[SupportedType],
        i: u32,
        memo: &mut HashMap<GateIdx, FHEElement>,
        Ghost(seen): Ghost<Seq<int>>,
    ) -> (r: (Result<(), BackendError>, Ghost<Seq<int>>))
        requires
            old(self).q > 0,
            old(self).noise.max_so_far <= old(self).noise.noise_budget,
            gates_wf(gate_arena_items(*gates)),
            i < gate_arena_items(*gates).len(),
            forall|p: int| 0 <= p < seen.len() ==> 0 <= #[trigger] seen[p] < gate_arena_items(*gates).len(),
            forall|p: int|
                0 <= p < seen.len() ==> mock_noise(gate_arena_items(*gates), #[trigger] seen[p])
                    <= old(self).noise.noise_budget,
            forall|k: u32| old(memo)@.contains_key(k) <==> seen.contains(k as int),
            forall|k: u32|
                #[trigger] old(memo)@.contains_key(k) ==> old(memo)@[k] == mock_elem(
                    gate_arena_items(*gates),
                    with@,
                    old(self).q,
                    k as int,
                ),
            walk_ok(
                gate_arena_items(*gates),
                with@,
                old(self).q,
                old(self).noise.noise_budget,
                post_order(gate_kids(gate_arena_items(*gates)), seen, i as int),
            ),
        ensures
            final(self).q == old(self).q,
            final(self).noise.noise_budget == old(self).noise.noise_budget,
            ({
                let s = post_order(gate_kids(gate_arena_items(*gates)), seen, i as int);
                match r.0 {
                    Ok(()) => {
                        &&& final(self).noise.max_so_far <= final(self).noise.noise_budget
                        &&& r.1@ == s
                        &&& forall|p: int| 0 <= p < s.len() ==> 0 <= #[trigger] s[p] < gate_arena_items(*gates).len()
                        &&& forall|p: int|
                            0 <= p < s.len() ==> mock_noise(gate_arena_items(*gates), #[trigger] s[p])
                                <= old(self).noise.noise_budget
                        &&& forall|k: u32| final(memo)@.contains_key(k) <==> s.contains(k as int)
                        &&& forall|k: u32|
                            #[trigger] final(memo)@.contains_key(k) ==> final(memo)@[k] == mock_elem(
                                gate_arena_items(*gates),
                                with@,
                                old(self).q,
                                k as int,
                            )
                    },
                    Err(e) => noise_stop(gate_arena_items(*gates), old(self).noise.noise_budget, s, seen.len() as int, e),
                }
            }),
        decreases i,
    {
        let ghost g = gate_arena_items(*gates);
        let ghost kids = gate_kids(g);
        let ghost q = self.q;
        let ghost budget = self.noise.noise_budget;
        let ghost s0 = post_order(kids, seen, i as int);
        if memo.contains_key(&i) {
            return (Ok(()), Ghost(seen));
        }
        let gate = gate_arena_get(gates, i);
        proof {
            lemma_post_order_extends(kids, seen, i as int);
            lemma_gate_value_range(g, with@, q, i as int);
            lemma_mock_depth_bound(g, i as int);
            lemma_mock_noise_nonneg(g, i as int);
        }
        let ghost pre: Seq<int>;
        let element = match gate {
            Gate::BinOp(op, lhs, rhs) => {
                assert(g[i as int] == gate);
                let ghost s1 = post_order(kids, seen, lhs as int);
                let ghost s2 = post_order(kids, s1, rhs as int);
                proof {
                    lemma_post_order_extends(kids, seen, lhs as int);
                    lemma_post_order_extends(kids, s1, rhs as int);
                    assert(s0 == s2.push(i as int));
                    assert forall|p: int| 0 <= p < s1.len() implies #[trigger] s1[p] == s0[p] by {}
                    assert forall|p: int| 0 <= p < s2.len() implies #[trigger] s2[p] == s0[p] by {}
                    lemma_walk_ok_prefix(g, with@, q, budget, s0, s1);
                    lemma_walk_ok_prefix(g, with@, q, budget, s0, s2);
                }
                let (res1, Ghost(t1)) = self.visit(gates, with, lhs, memo, Ghost(seen));
                if let Err(e) = res1 {
                    proof {
                        let p = choose|p: int|
                            seen.len() <= p < s1.len() && mock_noise(g, s1[p]) > budget && (forall|p2: int|
                                seen.len() <= p2 < p ==> mock_noise(g, #[trigger] s1[p2]) <= budget) && e
                                == BackendError::NoiseBudgetExceeded(budget, mock_noise(g, s1[p]) as usize, s1[p] as usize);
                        assert(s0[p] == s1[p]);
                        assert forall|p2: int| seen.len() <= p2 < p implies mock_noise(g, #[trigger] s0[p2]) <= budget by {
                            assert(s0[p2] == s1[p2]);
                        }
                    }
                    return (Err(e), Ghost(s0));
                }
                let (res2, Ghost(t2)) = self.visit(gates, with, rhs, memo, Ghost(t1));
                if let Err(e) = res2 {
                    proof {
                        let p = choose|p: int|
                            s1.len() <= p < s2.len() && mock_noise(g, s2[p]) > budget && (forall|p2: int|
                                s1.len() <= p2 < p ==> mock_noise(g, #[trigger] s2[p2]) <= budget) && e
                                == BackendError::NoiseBudgetExceeded(budget, mock_noise(g, s2[p]) as usize, s2[p] as usize);
                        assert(s0[p] == s2[p]);
                        assert forall|p2: int| seen.len() <= p2 < p implies mock_noise(g, #[trigger] s0[p2]) <= budget by {
                            assert(s0[p2] == s2[p2]);
                            if p2 < s1.len() {
                                assert(s1[p2] == s2[p2]);
                            }
                        }
                    }
                    return (Err(e), Ghost(s0));
                }
                proof {
                    assert(t2.contains(rhs as int));
                    assert(t1.contains(lhs as int));
                    let p = choose|p: int| 0 <= p < t1.len() && t1[p] == lhs as int;
                    assert(t2[p] == lhs as int);
                    assert(t2.contains(lhs as int));
                    lemma_gate_value_range(g, with@, q, lhs as int);
                    lemma_gate_value_range(g, with@, q, rhs as int);
                    lemma_mock_depth_bound(g, lhs as int);
                    lemma_mock_depth_bound(g, rhs as int);
                    lemma_mock_noise_nonneg(g, lhs as int);
                    lemma_mock_noise_nonneg(g, rhs as int);
                    assert forall|p2: int| 0 <= p2 < s2.len() implies mock_noise(g, #[trigger] s0[p2]) <= budget by {
                        assert(s0[p2] == s2[p2]);
                    }
                    assert(s0[s2.len() as int] == i);
                    assert(mock_gate_ok(g, with@, q, s0[s2.len() as int]));
                    pre = s2;
                }
                let a = *memo.get(&lhs).unwrap();
                let b = *memo.get(&rhs).unwrap();
                match op {
                    BinOp::Add => self.add(&a, &b),
                    BinOp::Sub => self.sub(&a, &b),
                    BinOp::Mul => self.mul(&a, &b),
                }
            },
            Gate::Input(index) => {
                proof {
                    assert(s0 == seen.push(i as int));
                    assert(s0[seen.len() as int] == i);
                    assert forall|p2: int| 0 <= p2 < seen.len() implies mock_noise(g, #[trigger] s0[p2]) <= budget by {
                        assert(s0[p2] == seen[p2]);
                    }
                    assert(mock_gate_ok(g, with@, q, s0[seen.len() as int]));
                    pre = seen;
                }
                self.input(with[index])
            },
            Gate::Const(value) => {
                proof {
                    assert(s0 == seen.push(i as int));
                    pre = seen;
                }
                self.constant(value)
            },
            Gate::Thombstone => {
                proof {
                    pre = seen;
                }
                assert(false);
                FHEElement { value: 0, depth: 0, noise: 0 }
            },
        };
        assert(element == mock_elem(g, with@, q, i as int));
        assert(s0 == pre.push(i as int));
        if let Err(e) = self.noise.update(element.noise, i as usize) {
            proof {
                assert(s0[pre.len() as int] == i);
                assert forall|p2: int| seen.len() <= p2 < pre.len() implies mock_noise(g, #[trigger] s0[p2]) <= budget by {
                    assert(s0[p2] == pre[p2]);
                }
            }
            return (Err(e), Ghost(s0));
        }
        memo.insert(i, element);
        proof {
            assert forall|k: u32| memo@.contains_key(k) <==> s0.contains(k as int) by {
                if s0.contains(k as int) && k != i {
                    let p = choose|p: int| 0 <= p < s0.len() && s0[p] == k as int;
                    assert(p < pre.len());
                    assert(pre[p] == k as int);
                }
                if pre.contains(k as int) {
                    let p = choose|p: int| 0 <= p < pre.len() && pre[p] == k as int;
                    assert(s0[p] == k as int);
                }
                if k == i {
                    assert(s0[pre.len() as int] == i);
                }
            }
            assert forall|p: int| 0 <= p < s0.len() implies mock_noise(g, #[trigger] s0[p]) <= budget by {
                if p < pre.len() {
                    assert(s0[p] == pre[p]);
                }
            }
        }
        (Ok(()), Ghost(s0))
    }
}

/// The larger of two counts.
fn max_usize(a: usize, b: usize) -> (m: usize)
    ensures
        m == vstd::math::max(a as int, b as int),
{
    if a >= b {
        a
    } else {
        b
    }
}

/// The mock ciphertexts of every gate of a circuit, in order.
pub open spec fn mock_eval_elements(c: CircuitView, with: Seq<u64>) -> Seq<FHEElement> {
    Seq::new(c.gates.len(), |i: int| mock_elem(c.gates, with, c.q, i))
}

/// The mock ciphertexts of the outputs of a circuit, in the order of the outputs.
pub open spec fn mock_output_elements(c: CircuitView, with: Seq<u64>) -> Seq<FHEElement> {
    c.outputs.map_values(|o: u32| mock_elem(c.gates, with, c.q, o as int))
}

/// Evaluating only the outputs gives, for each output, the mock ciphertext that evaluating every
/// gate gives at that output.
pub proof fn lemma_mock_outputs_agree_with_eval(c: CircuitView, with: Seq<u64>)
    requires
        circuit_wf(c),
    ensures
        mock_output_elements(c, with).len() == c.outputs.len(),
        forall|k: int|
            0 <= k < c.outputs.len() ==> #[trigger] mock_output_elements(c, with)[k] == mock_eval_elements(c, with)[c.outputs[k] as int],
{
}

/// The elements of the outputs, read from the elements computed so far.
fn collect_outputs(
    outputs: &[GateIdx],
    memo: &HashMap<GateIdx, FHEElement>,
    Ghost(g): Ghost<Seq<Gate>>,
    Ghost(with): Ghost<Seq<u64>>,
    Ghost(q): Ghost<u64>,
) -> (results: Vec<FHEElement>)
    requires
        forall|m: int| 0 <= m < outputs@.len() ==> memo@.contains_key(#[trigger] outputs@[m]),
        forall|j: u32| #[trigger] memo@.contains_key(j) ==> memo@[j] == mock_elem(g, with, q, j as int),
    ensures
        results@ == outputs@.map_values(|o: u32| mock_elem(g, with, q, o as int)),
{
    let mut results: Vec<FHEElement> = Vec::new();
    let mut m: usize = 0;
    while m < outputs.len()
        invariant
            m <= outputs.len(),
            results@.len() == m,
            forall|m: int| 0 <= m < outputs@.len() ==> memo@.contains_key(#[trigger] outputs@[m]),
            forall|j: u32| #[trigger] memo@.contains_key(j) ==> memo@[j] == mock_elem(g, with, q, j as int),
            forall|j: int| 0 <= j < m ==> #[trigger] results@[j] == mock_elem(g, with, q, outputs@[j] as int),
        decreases outputs.len() - m,
    {
        let out = outputs[m];
        assert(memo@.contains_key(outputs@[m as int]));
        let v = *memo.get(&out).unwrap();
        results.push(v);
        m = m + 1;
    }
    assert(results@ =~= outputs@.map_values(|o: u32| mock_elem(g, with, q, o as int)));
    results
}

impl MockFHEBackend {
    /// Evaluates the gates the outputs depend on, output after output, remembering each
    /// element in `memo`.
    #[verifier::rlimit(40)]
    fn walk_outputs(
        &mut self,
        gates: &Arena<Gate>,
        with: &[SupportedType],
        outputs: &[GateIdx],
        memo: &mut HashMap<GateIdx, FHEElement>,
    ) -> (r: Result<(), BackendError>)
        requires
            forall|j: u32| !old(memo)@.contains_key(j),
            old(self).noise.max_so_far <= old(self).noise.noise_budget,
            outputs@.len() > 0 ==> old(self).q > 0,
            gates_wf(gate_arena_items(*gates)),
            forall|k: int| 0 <= k < outputs@.len() ==> #[trigger] outputs@[k] < gate_arena_items(*gates).len(),
            walk_ok(
                gate_arena_items(*gates),
                with@,
                old(self).q,
                old(self).noise.noise_budget,
                post_order_all(gate_kids(gate_arena_items(*gates)), Seq::empty(), outputs@.map_values(|o: u32| o as int)),
            ),
        ensures
            final(self).q == old(self).q,
            final(self).noise.noise_budget == old(self).noise.noise_budget,
            ({
                let full = post_order_all(
                    gate_kids(gate_arena_items(*gates)),
                    Seq::empty(),
                    outputs@.map_values(|o: u32| o as int),
                );
                match r {
                    Ok(()) => {
                        &&& forall|p: int| 0 <= p < full.len() ==> mock_noise(gate_arena_items(*gates), #[trigger] full[p])
                            <= old(self).noise.noise_budget
                        &&& forall|j: u32| final(memo)@.contains_key(j) <==> full.contains(j as int)
                        &&& forall|j: u32|
                            #[trigger] final(memo)@.contains_key(j) ==> final(memo)@[j] == mock_elem(
                                gate_arena_items(*gates),
                                with@,
                                old(self).q,
                                j as int,
                            )
                    },
                    Err(e) => noise_stop(gate_arena_items(*gates), old(self).noise.noise_budget, full, 0, e),
                }
            }),
    {
        let ghost g = gate_arena_items(*gates);
        let ghost kids = gate_kids(g);
        let ghost q = self.q;
        let ghost budget = self.noise.noise_budget;
        let ghost roots = outputs@.map_values(|o: u32| o as int);
        let ghost full = post_order_all(kids, Seq::empty(), roots);
        let ghost mut seen: Seq<int> = Seq::empty();
        proof {
            assert(roots.take(0) =~= Seq::<int>::empty());
        }
        let mut k: usize = 0;
        while k < outputs.len()
            invariant
                g == gate_arena_items(*gates),
                kids == gate_kids(g),
                gates_wf(g),
                forall|k: int| 0 <= k < outputs@.len() ==> #[trigger] outputs@[k] < g.len(),
                roots == outputs@.map_values(|o: u32| o as int),
                full == post_order_all(kids, Seq::empty(), roots),
                outputs@.len() > 0 ==> q > 0,
                q == old(self).q,
                budget == old(self).noise.noise_budget,
                self.q == q,
                self.noise.noise_budget == budget,
                self.noise.max_so_far <= budget,
                k <= outputs.len(),
                seen == post_order_all(kids, Seq::empty(), roots.take(k as int)),
                walk_ok(g, with@, q, budget, full),
                forall|p: int| 0 <= p < seen.len() ==> 0 <= #[trigger] seen[p] < g.len(),
                forall|p: int| 0 <= p < seen.len() ==> mock_noise(g, #[trigger] seen[p]) <= budget,
                forall|j: u32| memo@.contains_key(j) <==> seen.contains(j as int),
                forall|j: u32| #[trigger] memo@.contains_key(j) ==> memo@[j] == mock_elem(g, with@, q, j as int),
            decreases outputs.len() - k,
        {
            let out = outputs[k];
            let ghost next = post_order(kids, seen, out as int);
            proof {
                lemma_output_segment(kids, roots, k as int);
                assert(roots[k as int] == out as int);
                lemma_walk_ok_prefix(g, with@, q, budget, full, next);
                assert forall|p2: int| 0 <= p2 < seen.len() implies mock_noise(g, #[trigger] next[p2]) <= budget by {
                    assert(next[p2] == seen[p2]);
                }
            }
            let (res, Ghost(after)) = self.visit(gates, with, out, memo, Ghost(seen));
            if let Err(e) = res {
                proof {
                    assert forall|p2: int| 0 <= p2 < seen.len() implies mock_noise(g, #[trigger] full[p2]) <= budget by {
                        assert(next[p2] == seen[p2]);
                        assert(full[p2] == next[p2]);
                    }
                    lemma_noise_stop_widen(g, budget, next, seen.len() as int, full, 0, e);
                }
                return Err(e);
            }
            proof {
                seen = after;
            }
            k = k + 1;
        }
        proof {
            assert(roots.take(roots.len() as int) =~= roots);
        }
        Ok(())
    }
}

impl Backend for MockFHEBackend {
    type Elem = FHEElement;

    open spec fn op_ok(&self, op: BinOp, lhs: FHEElement, rhs: FHEElement) -> bool {
        &&& self.spec_q() > 0
        &&& 0 <= apply_op(op, lhs.value as int, rhs.value as int) <= u64::MAX
        &&& op == BinOp::Mul ==> lhs.noise + rhs.noise + MUL_COST <= usize::MAX
        &&& op == BinOp::Mul ==> vstd::math::max(lhs.depth as int, rhs.depth as int) + 1 <= usize::MAX
        &&& op != BinOp::Mul ==> vstd::math::max(lhs.noise as int, rhs.noise as int) + ADD_COST <= usize::MAX
    }

    open spec fn encode_ok(&self, c: SupportedType) -> bool {
        self.spec_q() > 0
    }

    open spec fn eval_ok(&self, circuit: CircuitView, with: Seq<SupportedType>) -> bool {
        circuit.inputs.len() == with.len() ==> circuit_wf(circuit) && walk_ok(
            circuit.gates,
            with,
            circuit.q,
            self.spec_budget(),
            index_walk(circuit.gates.len()),
        )
    }

    open spec fn eval_outputs_ok(&self, circuit: CircuitView, with: Seq<SupportedType>) -> bool {
        circuit.inputs.len() == with.len() ==> circuit_wf(circuit) && walk_ok(
            circuit.gates,
            with,
            circuit.q,
            self.spec_budget(),
            output_walk(circuit),
        )
    }

    fn add(&mut self, lhs: &FHEElement, rhs: &FHEElement) -> (r: FHEElement)
        ensures
            *final(self) == *old(self),
            r == (FHEElement {
                value: ((lhs.value + rhs.value) % (old(self).spec_q() as int)) as u64,
                depth: vstd::math::max(lhs.depth as int, rhs.depth as int) as usize,
                noise: (vstd::math::max(lhs.noise as int, rhs.noise as int) + ADD_COST) as usize,
            }),
    {
        let mut element = self.constant(lhs.value + rhs.value);
        element.depth = max_usize(lhs.depth, rhs.depth);
        element.noise = max_usize(lhs.noise, rhs.noise) + ADD_COST;
        element
    }

    fn sub(&mut self, lhs: &FHEElement, rhs: &FHEElement) -> (r: FHEElement)
        ensures
            *final(self) == *old(self),
            r == (FHEElement {
                value: ((lhs.value - rhs.value) % (old(self).spec_q() as int)) as u64,
                depth: vstd::math::max(lhs.depth as int, rhs.depth as int) as usize,
                noise: (vstd::math::max(lhs.noise as int, rhs.noise as int) + ADD_COST) as usize,
            }),
    {
        let mut element = self.constant(lhs.value - rhs.value);
        element.depth = max_usize(lhs.depth, rhs.depth);
        element.noise = max_usize(lhs.noise, rhs.noise) + ADD_COST;
        element
    }

    /// A multiplication by a constant costs as much as one by a ciphertext: the DSL folds every
    /// operation on two constants, so no circuit multiplies two constants.
    fn mul(&mut self, lhs: &FHEElement, rhs: &FHEElement) -> (r: FHEElement)
        ensures
            *final(self) == *old(self),
            r == (FHEElement {
                value: ((lhs.value * rhs.value) % (old(self).spec_q() as int)) as u64,
                depth: (vstd::math::max(lhs.depth as int, rhs.depth as int) + 1) as usize,
                noise: (lhs.noise + rhs.noise + MUL_COST) as usize,
            }),
    {
        let mut element = self.constant(lhs.value * rhs.value);
        element.depth = max_usize(lhs.depth, rhs.depth) + 1;
        element.noise = lhs.noise + rhs.noise + MUL_COST;
        element
    }

    fn constant(&mut self, c: SupportedType) -> (r: FHEElement)
        ensures
            *final(self) == *old(self),
            r == (FHEElement { value: c % old(self).spec_q(), depth: 0, noise: 0 }),
    {
        FHEElement { value: c % self.q, depth: 0, noise: 0 }
    }

    /// Pseudo-encrypts a plain input value: it carries the encryption noise.
    fn input(&mut self, c: SupportedType) -> (r: FHEElement)
        ensures
            *final(self) == *old(self),
            r == (FHEElement { value: c % old(self).spec_q(), depth: 0, noise: ENC_NOISE }),
    {
        FHEElement { value: c % self.q, depth: 0, noise: ENC_NOISE }
    }

    /// Evaluates every gate in order and fails at the first gate whose noise exceeds the budget.
    fn eval(&mut self, circuit: &Circuit, with: &[SupportedType]) -> (r: Result<ThinVec<FHEElement>, BackendError>)
        ensures
            final(self).spec_budget() == old(self).spec_budget(),
            circuit@.inputs.len() != with@.len() ==> {
                &&& r == Err::<ThinVec<FHEElement>, BackendError>(
                    BackendError::InvalidInputLen(circuit@.inputs.len() as usize, with@.len() as usize),
                )
                &&& *final(self) == *old(self)
            },
            circuit@.inputs.len() == with@.len() ==> {
                &&& final(self).spec_q() == circuit@.q
                &&& match r {
                    Ok(elements) => {
                        &&& forall|i: int| 0 <= i < circuit@.gates.len() ==> mock_noise(circuit@.gates, i) <= old(self).spec_budget()
                        &&& element_list_items(elements) == mock_eval_elements(circuit@, with@)
                    },
                    Err(e) => noise_stop(circuit@.gates, old(self).spec_budget(), index_walk(circuit@.gates.len()), 0, e),
                }
            },
    {
        validate_same_length(circuit, with)?;
        self.q = circuit.q();
        // The noise restarts for each evaluation: the maximum and its index describe one circuit.
        self.noise = Noise::new(self.noise.noise_budget);
        let ghost budget = self.noise.noise_budget;
        let gates = circuit.gates();
        let ghost g = gate_arena_items(*gates);
        let ghost w = index_walk(g.len());
        let n = circuit.num_gates();
        let mut results: Vec<FHEElement> = Vec::new();
        let mut ix: usize = 0;
        while ix < n
            invariant
                circuit_wf(circuit@),
                g == circuit@.gates,
                gate_arena_items(*gates) == g,
                w == index_walk(g.len()),
                n == g.len(),
                self.q == circuit@.q,
                self.noise.noise_budget == budget,
                budget == old(self).noise.noise_budget,
                self.noise.max_so_far <= budget,
                ix <= n,
                results@.len() == ix,
                circuit@.inputs.len() == with@.len(),
                walk_ok(g, with@, circuit@.q, budget, w),
                forall|j: int| 0 <= j < ix ==> mock_noise(g, j) <= budget,
                forall|j: int| 0 <= j < ix ==> #[trigger] results@[j] == mock_elem(g, with@, circuit@.q, j),
            decreases n - ix,
        {
            let gate = gate_arena_get(gates, ix as u32);
            assert(gates_wf(g));
            assert(g[ix as int] == gate);
            assert forall|p2: int| 0 <= p2 < ix implies mock_noise(g, #[trigger] w[p2]) <= budget by {}
            assert(mock_gate_ok(g, with@, circuit@.q, w[ix as int]));
            proof {
                lemma_gate_value_range(g, with@, circuit@.q, ix as int);
                lemma_mock_depth_bound(g, ix as int);
                lemma_mock_noise_nonneg(g, ix as int);
            }
            let element = match gate {
                Gate::Thombstone => FHEElement { value: 0, depth: 0, noise: 0 },
                Gate::Input(index) => self.input(with[index]),
                Gate::Const(value) => self.constant(value),
                Gate::BinOp(op, lhs, rhs) => {
                    let a = results[lhs as usize];
                    let b = results[rhs as usize];
                    proof {
                        lemma_gate_value_range(g, with@, circuit@.q, lhs as int);
                        lemma_gate_value_range(g, with@, circuit@.q, rhs as int);
                        lemma_mock_depth_bound(g, lhs as int);
                        lemma_mock_depth_bound(g, rhs as int);
                        lemma_mock_noise_nonneg(g, lhs as int);
                        lemma_mock_noise_nonneg(g, rhs as int);
                    }
                    match op {
                        BinOp::Add => self.add(&a, &b),
                        BinOp::Sub => self.sub(&a, &b),
                        BinOp::Mul => self.mul(&a, &b),
                    }
                },
            };
            assert(element == mock_elem(g, with@, circuit@.q, ix as int));
            let updated = self.noise.update(element.noise, ix);
            if let Err(e) = updated {
                assert(w[ix as int] == ix);
                assert forall|p2: int| 0 <= p2 < ix implies mock_noise(g, #[trigger] w[p2]) <= budget by {}
                return Err(e);
            }
            results.push(element);
            ix = ix + 1;
        }
        assert(results@ =~= mock_eval_elements(circuit@, with@));
        Ok(element_list_from_vec(results))
    }

    /// Evaluates, by a post-order walk from each output in turn, only the gates the outputs
    /// depend on, and fails at the first visited gate whose noise exceeds the budget.
    fn eval_outputs(&mut self, circuit: &Circuit, with: &[SupportedType]) -> (r: Result<
        ThinVec<FHEElement>,
        BackendError,
    >)
        ensures
            final(self).spec_budget() == old(self).spec_budget(),
            circuit@.inputs.len() != with@.len() ==> {
                &&& r == Err::<ThinVec<FHEElement>, BackendError>(
                    BackendError::InvalidInputLen(circuit@.inputs.len() as usize, with@.len() as usize),
                )
                &&& *final(self) == *old(self)
            },
            circuit@.inputs.len() == with@.len() ==> {
                &&& final(self).spec_q() == circuit@.q
                &&& match r {
                    Ok(elements) => {
                        &&& forall|p: int| 0 <= p < output_walk(circuit@).len()
                            ==> mock_noise(circuit@.gates, #[trigger] output_walk(circuit@)[p]) <= old(self).spec_budget()
                        &&& element_list_items(elements) == mock_output_elements(circuit@, with@)
                    },
                    Err(e) => noise_stop(circuit@.gates, old(self).spec_budget(), output_walk(circuit@), 0, e),
                }
            },
    {
        validate_same_length(circuit, with)?;
        self.q = circuit.q();
        self.noise = Noise::new(self.noise.noise_budget);
        let ghost budget = self.noise.noise_budget;
        let gates = circuit.gates();
        let ghost g = gate_arena_items(*gates);
        let ghost kids = gate_kids(g);
        let outputs = circuit.outputs();
        let ghost roots = outputs@.map_values(|o: u32| o as int);
        let ghost full = output_walk(circuit@);
        let mut memo: HashMap<GateIdx, FHEElement> = HashMap::new();
        proof {
            assert(roots.take(roots.len() as int) =~= roots);
            if outputs@.len() > 0 {
                lemma_output_segment(kids, roots, 0);
                assert(roots.take(0) =~= Seq::<int>::empty());
                assert(post_order_all(kids, Seq::empty(), roots.take(0)) == Seq::<int>::empty());
                let next = post_order(kids, Seq::empty(), roots[0]);
                let p = choose|p: int| 0 <= p < next.len() && next[p] == roots[0];
                assert(full[p] == roots[0]);
                assert(mock_gate_ok(g, with@, circuit@.q, full[0]));
            }
        }
        self.walk_outputs(gates, with, outputs, &mut memo)?;
        proof {
            lemma_post_order_all_contains_roots(kids, Seq::empty(), roots);
            assert forall|m: int| 0 <= m < outputs@.len() implies memo@.contains_key(#[trigger] outputs@[m]) by {
                assert(roots[m] == outputs@[m] as int);
                assert(full.contains(roots[m]));
            }
        }
        let results = collect_outputs(outputs, &memo, Ghost(g), Ghost(with@), Ghost(circuit@.q));
        assert(results@ =~= mock_output_elements(circuit@, with@));
        Ok(element_list_from_vec(results))
    }
}

} // verus!
