use vstd::prelude::*;

use la_arena::Arena;
use std::collections::HashMap;
use thin_vec::ThinVec;

use crate::arena::{gate_arena_get, gate_arena_items};
use crate::backend::Backend;
use crate::backend::error::BackendError;
use crate::backend::validation::validate_same_length;
use crate::ir::{
    apply_op, circuit_wf, gate_kids, gate_value, gate_value_ok, gates_wf, lemma_gate_value_range,
    lemma_post_order_all_prefix, lemma_post_order_extends, post_order, post_order_all, Circuit,
    CircuitView, Gate, GateIdx, SupportedType,
};
use crate::op::BinOp;
use crate::thin::{value_list_from_vec, value_list_items};

verus! {

broadcast use vstd::std_specs::hash::group_hash_axioms;

/// Evaluates circuits on plain values modulo the circuit's `q`.
#[derive(Clone, Copy, Debug)]
pub struct PlainModQBackend {
    q: SupportedType,
}

/// The value of every gate of a circuit, in order.
pub open spec fn plain_eval_values(c: CircuitView, with: Seq<u64>) -> Seq<u64> {
    Seq::new(c.gates.len(), |i: int| gate_value(c.gates, with, c.q, i) as u64)
}

/// The gates that evaluating the outputs of a circuit visits, in visiting order.
pub open spec fn output_walk(c: CircuitView) -> Seq<int> {
    post_order_all(gate_kids(c.gates), Seq::empty(), c.outputs.map_values(|o: u32| o as int))
}

/// The value of each output of a circuit, in the order of the outputs.
pub open spec fn plain_output_values(c: CircuitView, with: Seq<u64>) -> Seq<u64> {
    c.outputs.map_values(|o: u32| gate_value(c.gates, with, c.q, o as int) as u64)
}

/// Evaluating only the outputs gives, for each output, what evaluating every gate gives at
/// that output.
pub proof fn lemma_plain_outputs_agree_with_eval(c: CircuitView, with: Seq<u64>)
    requires
        circuit_wf(c),
    ensures
        plain_output_values(c, with).len() == c.outputs.len(),
        forall|k: int|
            0 <= k < c.outputs.len() ==> #[trigger] plain_output_values(c, with)[k] == plain_eval_values(c, with)[c.outputs[k] as int],
{
}

impl Default for PlainModQBackend {
    /// A backend that has evaluated nothing yet.
    fn default() -> (b: Self)
        ensures
            b.spec_q() == 0,
    {
        Self::new()
    }
}

impl PlainModQBackend {
    pub fn new() -> (b: Self)
        ensures
            b.spec_q() == 0,
    {
        Self { q: 0 }
    }

    /// The modulus of the circuit evaluated last (zero before any evaluation).
    pub closed spec fn spec_q(&self) -> SupportedType {
        self.q
    }

    /// Post-order evaluation of gate `i` and of the gates it depends on, skipping gates whose
    /// values are already known.
    fn visit(
        &mut self,
        gates: &Arena<Gate>,
        with: &[SupportedType],
        i: u32,
        memo: &mut HashMap<GateIdx, SupportedType>,
        Ghost(seen): Ghost<Seq<int>>,
    ) -> (after: Ghost<Seq<int>>)
        requires
            old(self).spec_q() > 0,
            gates_wf(gate_arena_items(*gates)),
            i < gate_arena_items(*gates).len(),
            forall|p: int| 0 <= p < seen.len() ==> 0 <= #[trigger] seen[p] < gate_arena_items(*gates).len(),
            forall|k: u32| old(memo)@.contains_key(k) <==> seen.contains(k as int),
            forall|k: u32|
                #[trigger] old(memo)@.contains_key(k) ==> old(memo)@[k] == gate_value(
                    gate_arena_items(*gates),
                    with@,
                    old(self).spec_q(),
                    k as int,
                ) as u64,
            forall|k: int|
                #[trigger] post_order(gate_kids(gate_arena_items(*gates)), seen, i as int).contains(k)
                    ==> gate_value_ok(gate_arena_items(*gates), with@, old(self).spec_q(), k),
        ensures
            *final(self) == *old(self),
            after@ == post_order(gate_kids(gate_arena_items(*gates)), seen, i as int),
            forall|p: int| 0 <= p < after@.len() ==> 0 <= #[trigger] after@[p] < gate_arena_items(*gates).len(),
            forall|k: u32| final(memo)@.contains_key(k) <==> after@.contains(k as int),
            forall|k: u32|
                #[trigger] final(memo)@.contains_key(k) ==> final(memo)@[k] == gate_value(
                    gate_arena_items(*gates),
                    with@,
                    old(self).spec_q(),
                    k as int,
                ) as u64,
        decreases i,
    {
        let ghost g = gate_arena_items(*gates);
        let ghost kids = gate_kids(g);
        if memo.contains_key(&i) {
            return Ghost(seen);
        }
        let gate = gate_arena_get(gates, i);
        let ghost q = self.q;
        proof {
            lemma_post_order_extends(kids, seen, i as int);
            lemma_gate_value_range(g, with@, q, i as int);
        }
        let element = match gate {
            Gate::BinOp(op, lhs, rhs) => {
                assert(g[i as int] == gate);
                let ghost s0 = post_order(kids, seen, i as int);
                let ghost s1 = post_order(kids, seen, lhs as int);
                let ghost s2 = post_order(kids, s1, rhs as int);
                proof {
                    lemma_post_order_extends(kids, seen, lhs as int);
                    lemma_post_order_extends(kids, s1, rhs as int);
                    assert(s0 == s2.push(i as int));
                    assert forall|k: int| s1.contains(k) implies s0.contains(k) by {
                        let p = choose|p: int| 0 <= p < s1.len() && s1[p] == k;
                        assert(s0[p] == k);
                    }
                    assert forall|k: int| s2.contains(k) implies s0.contains(k) by {
                        let p = choose|p: int| 0 <= p < s2.len() && s2[p] == k;
                        assert(s0[p] == k);
                    }
                    assert(s0[s2.len() as int] == i);
                    assert(s0.contains(i as int));
                }
                let Ghost(t1) = self.visit(gates, with, lhs, memo, Ghost(seen));
                let Ghost(t2) = self.visit(gates, with, rhs, memo, Ghost(t1));
                proof {
                    assert(t2.contains(rhs as int));
                    assert(t1.contains(lhs as int));
                    let p = choose|p: int| 0 <= p < t1.len() && t1[p] == lhs as int;
                    assert(t2[p] == lhs as int);
                    assert(t2.contains(lhs as int));
                    lemma_gate_value_range(g, with@, q, lhs as int);
                    lemma_gate_value_range(g, with@, q, rhs as int);
                }
                let a = *memo.get(&lhs).unwrap();
                let b = *memo.get(&rhs).unwrap();
                let v = match op {
                    BinOp::Add => self.add(&a, &b),
                    BinOp::Sub => self.sub(&a, &b),
                    BinOp::Mul => self.mul(&a, &b),
                };
                memo.insert(i, v);
                proof {
                    assert forall|k: u32| memo@.contains_key(k) <==> s0.contains(k as int) by {
                        if s0.contains(k as int) && k != i {
                            let p = choose|p: int| 0 <= p < s0.len() && s0[p] == k as int;
                            assert(p < s2.len());
                            assert(s2[p] == k as int);
                        }
                        if s2.contains(k as int) {
                            let p = choose|p: int| 0 <= p < s2.len() && s2[p] == k as int;
                            assert(s0[p] == k as int);
                        }
                    }
                }
                return Ghost(s0);
            },
            Gate::Input(index) => self.input(with[index]),
            Gate::Const(value) => self.constant(value),
            Gate::Thombstone => {
                assert(false);
                0
            },
        };
        memo.insert(i, element);
        let ghost s0 = seen.push(i as int);
        proof {
            assert(post_order(kids, seen, i as int) == s0);
            assert forall|k: u32| memo@.contains_key(k) <==> s0.contains(k as int) by {
                if s0.contains(k as int) && k != i {
                    let p = choose|p: int| 0 <= p < s0.len() && s0[p] == k as int;
                    assert(seen[p] == k as int);
                }
                if seen.contains(k as int) {
                    let p = choose|p: int| 0 <= p < seen.len() && seen[p] == k as int;
                    assert(s0[p] == k as int);
                }
            }
            assert(s0[seen.len() as int] == i);
        }
        Ghost(s0)
    }
}

impl Backend for PlainModQBackend {
    type Elem = SupportedType;

    open spec fn op_ok(&self, op: BinOp, lhs: SupportedType, rhs: SupportedType) -> bool {
        &&& self.spec_q() > 0
        &&& 0 <= apply_op(op, lhs as int, rhs as int) <= u64::MAX
    }

    open spec fn encode_ok(&self, c: SupportedType) -> bool {
        self.spec_q() > 0
    }

    open spec fn eval_ok(&self, circuit: CircuitView, with: Seq<SupportedType>) -> bool {
        circuit.inputs.len() == with.len() ==> circuit_wf(circuit) && forall|i: int|
            0 <= i < circuit.gates.len() ==> gate_value_ok(circuit.gates, with, circuit.q, i)
    }

    open spec fn eval_outputs_ok(&self, circuit: CircuitView, with: Seq<SupportedType>) -> bool {
        circuit.inputs.len() == with.len() ==> circuit_wf(circuit) && forall|k: int|
            #[trigger] output_walk(circuit).contains(k) ==> gate_value_ok(circuit.gates, with, circuit.q, k)
    }

    fn add(&mut self, lhs: &SupportedType, rhs: &SupportedType) -> (r: SupportedType)
        ensures
            *final(self) == *old(self),
            r == (*lhs + *rhs) % (old(self).spec_q() as int),
    {
        self.constant(*lhs + *rhs)
    }

    fn sub(&mut self, lhs: &SupportedType, rhs: &SupportedType) -> (r: SupportedType)
        ensures
            *final(self) == *old(self),
            r == (*lhs - *rhs) % (old(self).spec_q() as int),
    {
        self.constant(*lhs - *rhs)
    }

    fn mul(&mut self, lhs: &SupportedType, rhs: &SupportedType) -> (r: SupportedType)
        ensures
            *final(self) == *old(self),
            r == (*lhs * *rhs) % (old(self).spec_q() as int),
    {
        self.constant(*lhs * *rhs)
    }

    fn input(&mut self, c: SupportedType) -> (r: SupportedType)
        ensures
            *final(self) == *old(self),
            r == c % old(self).spec_q(),
    {
        c % self.q
    }

    fn constant(&mut self, c: SupportedType) -> (r: SupportedType)
        ensures
            *final(self) == *old(self),
            r == c % old(self).spec_q(),
    {
        c % self.q
    }

    /// Evaluates every gate in order; the values come back in the order of the gates.
    fn eval(&mut self, circuit: &Circuit, with: &[SupportedType]) -> (r: Result<ThinVec<SupportedType>, BackendError>)
        ensures
            circuit@.inputs.len() != with@.len() ==> {
                &&& r == Err::<ThinVec<SupportedType>, BackendError>(
                    BackendError::InvalidInputLen(circuit@.inputs.len() as usize, with@.len() as usize),
                )
                &&& *final(self) == *old(self)
            },
            circuit@.inputs.len() == with@.len() ==> {
                &&& r matches Ok(values)
                &&& value_list_items(values) == plain_eval_values(circuit@, with@)
                &&& final(self).spec_q() == circuit@.q
            },
    {
        validate_same_length(circuit, with)?;
        self.q = circuit.q();
        let gates = circuit.gates();
        let ghost g = gate_arena_items(*gates);
        let n = circuit.num_gates();
        let mut results: Vec<SupportedType> = Vec::new();
        let mut ix: usize = 0;
        while ix < n
            invariant
                circuit_wf(circuit@),
                g == circuit@.gates,
                gate_arena_items(*gates) == g,
                n == g.len(),
                self.q == circuit@.q,
                ix <= n,
                results@.len() == ix,
                circuit@.inputs.len() == with@.len(),
                forall|i: int| 0 <= i < g.len() ==> gate_value_ok(g, with@, circuit@.q, i),
                forall|j: int| 0 <= j < ix ==> #[trigger] results@[j] == gate_value(g, with@, circuit@.q, j) as u64,
            decreases n - ix,
        {
            let gate = gate_arena_get(gates, ix as u32);
            assert(gates_wf(g));
            assert(g[ix as int] == gate);
            assert(gate_value_ok(g, with@, circuit@.q, ix as int));
            proof {
                lemma_gate_value_range(g, with@, circuit@.q, ix as int);
            }
            let element = match gate {
                Gate::Thombstone => 0,
                Gate::Input(index) => self.input(with[index]),
                Gate::Const(value) => self.constant(value),
                Gate::BinOp(op, lhs, rhs) => {
                    let a = results[lhs as usize];
                    let b = results[rhs as usize];
                    proof {
                        lemma_gate_value_range(g, with@, circuit@.q, lhs as int);
                        lemma_gate_value_range(g, with@, circuit@.q, rhs as int);
                    }
                    match op {
                        BinOp::Add => self.add(&a, &b),
                        BinOp::Sub => self.sub(&a, &b),
                        BinOp::Mul => self.mul(&a, &b),
                    }
                },
            };
            results.push(element);
            ix = ix + 1;
        }
        assert(results@ =~= plain_eval_values(circuit@, with@));
        Ok(value_list_from_vec(results))
    }

    /// Evaluates, by a post-order walk from each output in turn, only the gates the outputs
    /// depend on; the values of the outputs come back in the order of the outputs.
    fn eval_outputs(&mut self, circuit: &Circuit, with: &[SupportedType]) -> (r: Result<
        ThinVec<SupportedType>,
        BackendError,
    >)
        ensures
            circuit@.inputs.len() != with@.len() ==> {
                &&& r == Err::<ThinVec<SupportedType>, BackendError>(
                    BackendError::InvalidInputLen(circuit@.inputs.len() as usize, with@.len() as usize),
                )
                &&& *final(self) == *old(self)
            },
            circuit@.inputs.len() == with@.len() ==> {
                &&& r matches Ok(values)
                &&& value_list_items(values) == plain_output_values(circuit@, with@)
                &&& final(self).spec_q() == circuit@.q
            },
    {
        validate_same_length(circuit, with)?;
        self.q = circuit.q();
        let gates = circuit.gates();
        let ghost g = gate_arena_items(*gates);
        let ghost kids = gate_kids(g);
        let outputs = circuit.outputs();
        let ghost roots = outputs@.map_values(|o: u32| o as int);
        let mut memo: HashMap<GateIdx, SupportedType> = HashMap::new();
        let ghost mut seen: Seq<int> = Seq::empty();
        let mut k: usize = 0;
        while k < outputs.len()
            invariant
                circuit_wf(circuit@),
                g == circuit@.gates,
                gate_arena_items(*gates) == g,
                kids == gate_kids(g),
                outputs@ == circuit@.outputs,
                roots == outputs@.map_values(|o: u32| o as int),
                self.q == circuit@.q,
                k <= outputs.len(),
                circuit@.inputs.len() == with@.len(),
                seen == post_order_all(kids, Seq::empty(), roots.take(k as int)),
                forall|j: int| #[trigger] output_walk(circuit@).contains(j) ==> gate_value_ok(g, with@, circuit@.q, j),
                forall|p: int| 0 <= p < seen.len() ==> 0 <= #[trigger] seen[p] < g.len(),
                forall|j: u32| memo@.contains_key(j) <==> seen.contains(j as int),
                forall|j: u32| #[trigger] memo@.contains_key(j) ==> memo@[j] == gate_value(g, with@, circuit@.q, j as int) as u64,
            decreases outputs.len() - k,
        {
            let out = outputs[k];
            proof {
                assert(roots.take(k as int + 1).drop_last() =~= roots.take(k as int));
                assert(roots.take(k as int + 1).last() == out as int);
                assert(roots.take(roots.len() as int) =~= roots);
                lemma_post_order_all_prefix(kids, Seq::empty(), roots, k as int + 1, roots.len() as int);
                let next = post_order(kids, seen, out as int);
                assert(post_order_all(kids, Seq::empty(), roots.take(k as int + 1)) == next);
                assert(output_walk(circuit@) == post_order_all(kids, Seq::empty(), roots.take(roots.len() as int)));
                assert forall|j: int| #[trigger] next.contains(j) implies gate_value_ok(g, with@, circuit@.q, j) by {
                    let p = choose|p: int| 0 <= p < next.len() && next[p] == j;
                    assert(post_order_all(kids, Seq::empty(), roots.take(roots.len() as int))[p]
                        == post_order_all(kids, Seq::empty(), roots.take(k as int + 1))[p]);
                    assert(output_walk(circuit@)[p] == j);
                    assert(output_walk(circuit@).contains(j));
                }
                lemma_post_order_extends(kids, seen, out as int);
                assert(next.contains(out as int));
                assert(gate_value_ok(g, with@, circuit@.q, out as int));
            }
            let Ghost(after) = self.visit(gates, with, out, &mut memo, Ghost(seen));
            proof {
                seen = after;
            }
            k = k + 1;
        }
        assert(roots.take(roots.len() as int) =~= roots);
        let mut results: Vec<SupportedType> = Vec::new();
        let mut m: usize = 0;
        while m < outputs.len()
            invariant
                circuit_wf(circuit@),
                g == circuit@.gates,
                gate_arena_items(*gates) == g,
                outputs@ == circuit@.outputs,
                roots == outputs@.map_values(|o: u32| o as int),
                self.q == circuit@.q,
                m <= outputs.len(),
                results@.len() == m,
                seen == post_order_all(kids, Seq::empty(), roots),
                forall|j: u32| memo@.contains_key(j) <==> seen.contains(j as int),
                forall|j: u32| #[trigger] memo@.contains_key(j) ==> memo@[j] == gate_value(g, with@, circuit@.q, j as int) as u64,
                forall|j: int| 0 <= j < m ==> #[trigger] results@[j] == gate_value(g, with@, circuit@.q, outputs@[j] as int) as u64,
            decreases outputs.len() - m,
        {
            let out = outputs[m];
            proof {
                assert(roots.take(roots.len() as int) =~= roots);
                assert(roots.take(m as int + 1).drop_last() =~= roots.take(m as int));
                lemma_post_order_all_prefix(kids, Seq::empty(), roots, m as int + 1, roots.len() as int);
                let before = post_order_all(kids, Seq::empty(), roots.take(m as int));
                lemma_post_order_extends(kids, before, out as int);
                let p = choose|p: int| 0 <= p < post_order(kids, before, out as int).len() && post_order(kids, before, out as int)[p] == out as int;
                assert(seen[p] == out as int);
                assert(seen.contains(out as int));
                assert(memo@.contains_key(out));
            }
            let v = *memo.get(&out).unwrap();
            results.push(v);
            m = m + 1;
        }
        assert(results@ =~= plain_output_values(circuit@, with@));
        Ok(value_list_from_vec(results))
    }
}

} // verus!
