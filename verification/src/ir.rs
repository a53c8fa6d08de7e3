//! The intermediate representation: SSA gates and the circuits that hold them, together with
//! the meaning of a circuit (the value each gate computes modulo `q`).
use vstd::prelude::*;

use la_arena::Arena;
use thin_vec::ThinVec;

use crate::arena::{gate_arena_get, gate_arena_items, gate_arena_len};
use crate::op::BinOp;
use crate::thin::{idx_list_as_slice, idx_list_items};
use vstd::std_specs::convert::FromSpecImpl;

verus! {

/// The values circuits compute on.
pub type SupportedType = u64;

/// The raw index of a gate in its circuit's arena.
pub type GateIdx = u32;

/// SSA instruction style gates.
///
/// `BinOp::Sub` is preserved rather than canonicalised to an addition of a negation, which
/// would increase the multiplicative depth. A `Thombstone` marks a slot whose gate a pass has
/// removed; no circuit that the library hands out holds one.
#[derive(Clone, Copy, Debug)]
pub enum Gate {
    Input(usize),
    Const(SupportedType),
    BinOp(BinOp, GateIdx, GateIdx),
    Thombstone,
}

/// The canonical form of a gate: the operands of a commutative operation are ordered, so that
/// `a op b` and `b op a` have the same form; subtraction keeps its order.
#[derive(Clone, Copy, Debug, PartialEq, Eq, Structural, Hash)]
pub enum GateHash {
    Input(usize),
    Const(SupportedType),
    BinOp(BinOp, GateIdx, GateIdx),
}

/// The canonical form of a gate; a tombstone, which has none, is given that of `Input(0)`.
pub open spec fn spec_gate_hash(gate: Gate) -> GateHash {
    match gate {
        Gate::Input(index) => GateHash::Input(index),
        Gate::Const(v) => GateHash::Const(v),
        Gate::BinOp(op, lhs, rhs) => {
            if op == BinOp::Sub || lhs <= rhs {
                GateHash::BinOp(op, lhs, rhs)
            } else {
                GateHash::BinOp(op, rhs, lhs)
            }
        },
        Gate::Thombstone => GateHash::Input(0),
    }
}

/// Computes the canonical form of a gate.
pub fn gate_hash(gate: &Gate) -> (h: GateHash)
    ensures
        h == spec_gate_hash(*gate),
{
    match gate {
        Gate::Input(index) => GateHash::Input(*index),
        Gate::Const(v) => GateHash::Const(*v),
        Gate::BinOp(op, lhs, rhs) => {
            if *op == BinOp::Sub || *lhs <= *rhs {
                GateHash::BinOp(*op, *lhs, *rhs)
            } else {
                GateHash::BinOp(*op, *rhs, *lhs)
            }
        },
        Gate::Thombstone => GateHash::Input(0),
    }
}

/// Packs a tag and a 64-bit payload into one key.
pub open spec fn spec_pack(tag: u128, payload: u128) -> u128 {
    (tag << 64u128) | payload
}

/// Packs two 32-bit indices into one 64-bit payload.
pub open spec fn spec_pair(lo: u32, hi: u32) -> u128 {
    ((lo as u128) << 32u128) | (hi as u128)
}

pub fn pack(tag: u128, payload: u128) -> (k: u128)
    requires
        tag < 8,
        payload < 0x1_0000_0000_0000_0000,
    ensures
        k == spec_pack(tag, payload),
{
    (tag << 64u128) | payload
}

pub fn pair(lo: u32, hi: u32) -> (k: u128)
    ensures
        k == spec_pair(lo, hi),
        k < 0x1_0000_0000_0000_0000,
{
    let k = ((lo as u128) << 32u128) | (hi as u128);
    assert(((lo as u128) << 32u128) | (hi as u128) < 0x1_0000_0000_0000_0000) by (bit_vector);
    k
}

/// Distinct tags or payloads give distinct keys.
pub proof fn lemma_pack_injective(t1: u128, p1: u128, t2: u128, p2: u128)
    requires
        t1 < 8,
        t2 < 8,
        p1 < 0x1_0000_0000_0000_0000,
        p2 < 0x1_0000_0000_0000_0000,
        spec_pack(t1, p1) == spec_pack(t2, p2),
    ensures
        t1 == t2,
        p1 == p2,
{
    assert(t1 == t2 && p1 == p2) by (bit_vector)
        requires
            t1 < 8,
            t2 < 8,
            p1 < 0x1_0000_0000_0000_0000,
            p2 < 0x1_0000_0000_0000_0000,
            (t1 << 64u128) | p1 == (t2 << 64u128) | p2,
    ;
}

/// Distinct index pairs give distinct payloads.
pub proof fn lemma_pair_injective(a1: u32, b1: u32, a2: u32, b2: u32)
    requires
        spec_pair(a1, b1) == spec_pair(a2, b2),
    ensures
        a1 == a2,
        b1 == b2,
{
    let x1 = a1 as u128;
    let y1 = b1 as u128;
    let x2 = a2 as u128;
    let y2 = b2 as u128;
    assert(x1 == x2 && y1 == y2) by (bit_vector)
        requires
            x1 < 0x1_0000_0000,
            y1 < 0x1_0000_0000,
            x2 < 0x1_0000_0000,
            y2 < 0x1_0000_0000,
            (x1 << 32u128) | y1 == (x2 << 32u128) | y2,
    ;
}

/// The code of an operation within keys.
pub open spec fn op_code(op: BinOp) -> u128 {
    match op {
        BinOp::Add => 2,
        BinOp::Sub => 3,
        BinOp::Mul => 4,
    }
}

pub fn op_code_of(op: BinOp) -> (c: u128)
    ensures
        c == op_code(op),
{
    match op {
        BinOp::Add => 2,
        BinOp::Sub => 3,
        BinOp::Mul => 4,
    }
}

/// The key of a canonical form: equal keys exactly for equal canonical forms.
pub open spec fn hash_key(h: GateHash) -> u128 {
    match h {
        GateHash::Input(k) => spec_pack(0, k as u128),
        GateHash::Const(v) => spec_pack(1, v as u128),
        GateHash::BinOp(op, lhs, rhs) => spec_pack(op_code(op), spec_pair(lhs, rhs)),
    }
}

pub fn hash_key_of(h: &GateHash) -> (k: u128)
    ensures
        k == hash_key(*h),
{
    match h {
        GateHash::Input(k) => {
            assert((*k as u128) < 0x1_0000_0000_0000_0000) by {
                assert(usize::MAX <= u64::MAX);
            }
            pack(0, *k as u128)
        },
        GateHash::Const(v) => pack(1, *v as u128),
        GateHash::BinOp(op, lhs, rhs) => pack(op_code_of(*op), pair(*lhs, *rhs)),
    }
}

/// Keys of canonical forms are injective.
pub proof fn lemma_hash_key_injective(a: GateHash, b: GateHash)
    requires
        hash_key(a) == hash_key(b),
    ensures
        a == b,
{
    let (ta, pa) = match a {
        GateHash::Input(k) => (0u128, k as u128),
        GateHash::Const(v) => (1u128, v as u128),
        GateHash::BinOp(op, l, r) => (op_code(op), spec_pair(l, r)),
    };
    let (tb, pb) = match b {
        GateHash::Input(k) => (0u128, k as u128),
        GateHash::Const(v) => (1u128, v as u128),
        GateHash::BinOp(op, l, r) => (op_code(op), spec_pair(l, r)),
    };
    assert(usize::MAX <= u64::MAX);
    if let GateHash::BinOp(_, l, r) = a {
        let x = l as u128;
        let y = r as u128;
        assert(((x << 32u128) | y) < 0x1_0000_0000_0000_0000) by (bit_vector)
            requires x < 0x1_0000_0000, y < 0x1_0000_0000;
    }
    if let GateHash::BinOp(_, l, r) = b {
        let x = l as u128;
        let y = r as u128;
        assert(((x << 32u128) | y) < 0x1_0000_0000_0000_0000) by (bit_vector)
            requires x < 0x1_0000_0000, y < 0x1_0000_0000;
    }
    lemma_pack_injective(ta, pa, tb, pb);
    match (a, b) {
        (GateHash::BinOp(_, l1, r1), GateHash::BinOp(_, l2, r2)) => {
            lemma_pair_injective(l1, r1, l2, r2);
        },
        _ => {},
    }
}

/// Equality of gates: inputs and constants by their data, operations by canonical form (so the
/// operands of `+` and `*` may come in either order); a tombstone equals nothing.
pub open spec fn spec_gate_eq(a: Gate, b: Gate) -> bool {
    match (a, b) {
        (Gate::Input(x), Gate::Input(y)) => x == y,
        (Gate::Const(x), Gate::Const(y)) => x == y,
        (Gate::BinOp(_, _, _), Gate::BinOp(_, _, _)) => spec_gate_hash(a) == spec_gate_hash(b),
        _ => false,
    }
}

impl PartialEq for Gate {
    fn eq(&self, other: &Self) -> (r: bool) {
        match (self, other) {
            (Gate::Input(x), Gate::Input(y)) => *x == *y,
            (Gate::Const(x), Gate::Const(y)) => *x == *y,
            (Gate::BinOp(_, _, _), Gate::BinOp(_, _, _)) => gate_hash(self) == gate_hash(other),
            _ => false,
        }
    }
}

impl Eq for Gate {
}

/// The key a gate hashes by: that of its canonical form; a tombstone, which has none, has a key
/// of its own that no canonical form has.
pub open spec fn spec_gate_hash_key(gate: Gate) -> u128 {
    if gate is Thombstone {
        spec_pack(7, 0)
    } else {
        hash_key(spec_gate_hash(gate))
    }
}

/// Computes the key a gate hashes by.
pub fn gate_hash_key(gate: &Gate) -> (k: u128)
    ensures
        k == spec_gate_hash_key(*gate),
{
    match gate {
        Gate::Thombstone => pack(7, 0),
        _ => hash_key_of(&gate_hash(gate)),
    }
}

/// Gates equal by `==` hash by the same key.
pub proof fn lemma_equal_gates_hash_alike(a: Gate, b: Gate)
    requires
        spec_gate_eq(a, b),
    ensures
        spec_gate_hash_key(a) == spec_gate_hash_key(b),
{
}

/// `Hash::hash` of a `u128`: feeds the key to the hasher.
#[verifier::external_body]
pub(crate) fn hash_key_into<H: std::hash::Hasher>(key: u128, state: &mut H) {
    std::hash::Hash::hash(&key, state)
}

/// Gates hash by the key of their canonical form, as they compare.
impl std::hash::Hash for Gate {
    fn hash<H: std::hash::Hasher>(&self, state: &mut H) {
        hash_key_into(gate_hash_key(self), state)
    }
}

impl From<&Gate> for GateHash {
    fn from(gate: &Gate) -> (h: GateHash) {
        gate_hash(gate)
    }
}

impl FromSpecImpl<&Gate> for GateHash {
    open spec fn obeys_from_spec() -> bool {
        true
    }

    open spec fn from_spec(gate: &Gate) -> GateHash {
        spec_gate_hash(*gate)
    }
}

impl From<Gate> for GateHash {
    fn from(gate: Gate) -> (h: GateHash) {
        gate_hash(&gate)
    }
}

impl FromSpecImpl<Gate> for GateHash {
    open spec fn obeys_from_spec() -> bool {
        true
    }

    open spec fn from_spec(gate: Gate) -> GateHash {
        spec_gate_hash(gate)
    }
}

impl vstd::std_specs::cmp::PartialEqSpecImpl for Gate {
    open spec fn obeys_eq_spec() -> bool {
        true
    }

    open spec fn eq_spec(&self, other: &Gate) -> bool {
        spec_gate_eq(*self, *other)
    }
}

/// The result of an operation on two integers.
pub open spec fn apply_op(op: BinOp, a: int, b: int) -> int {
    match op {
        BinOp::Add => a + b,
        BinOp::Sub => a - b,
        BinOp::Mul => a * b,
    }
}

/// A well-formed sequence of gates is topologically ordered: each operation uses only gates
/// that come before it. It holds no tombstone and is indexable by `u32`.
pub open spec fn gates_wf(gates: Seq<Gate>) -> bool {
    &&& gates.len() <= u32::MAX
    &&& forall|i: int|
        0 <= i < gates.len() ==> match #[trigger] gates[i] {
            Gate::BinOp(_, lhs, rhs) => lhs < i && rhs < i,
            Gate::Thombstone => false,
            _ => true,
        }
}

/// The value gate `i` computes, modulo `q`, when the inputs take the values `with`.
pub open spec fn gate_value(gates: Seq<Gate>, with: Seq<u64>, q: u64, i: int) -> int
    decreases i,
{
    if i < 0 || i >= gates.len() {
        0
    } else {
        match gates[i] {
            Gate::Input(k) => if k < with.len() {
                (with[k as int] as int) % (q as int)
            } else {
                0
            },
            Gate::Const(v) => (v as int) % (q as int),
            Gate::BinOp(op, lhs, rhs) => if lhs < i && rhs < i {
                apply_op(op, gate_value(gates, with, q, lhs as int), gate_value(gates, with, q, rhs as int))
                    % (q as int)
            } else {
                0
            },
            Gate::Thombstone => 0,
        }
    }
}

/// Gate `i` can be evaluated with `u64` arithmetic without a panic: `q` is not zero, an input
/// refers to a given value, and the unreduced result of an operation fits in a `u64`
/// (a subtraction does not go below zero).
pub open spec fn gate_value_ok(gates: Seq<Gate>, with: Seq<u64>, q: u64, i: int) -> bool {
    &&& q > 0
    &&& match gates[i] {
        Gate::Input(k) => k < with.len(),
        Gate::Const(_) => true,
        Gate::BinOp(op, lhs, rhs) => {
            let r = apply_op(op, gate_value(gates, with, q, lhs as int), gate_value(gates, with, q, rhs as int));
            0 <= r <= u64::MAX
        },
        Gate::Thombstone => true,
    }
}


/// The operands of gate `i`, if it is an operation.
pub open spec fn gate_kids(gates: Seq<Gate>) -> spec_fn(int) -> Option<(int, int)> {
    |i: int|
        if 0 <= i < gates.len() {
            match gates[i] {
                Gate::BinOp(_, lhs, rhs) => Some((lhs as int, rhs as int)),
                _ => None,
            }
        } else {
            None
        }
}

/// The order in which a depth-first, post-order walk from node `i` first visits the nodes
/// of a DAG, given the nodes `seen` visited before: left operand, right operand, then the node
/// itself; a node already seen is not visited again. An operand that does not come before its
/// node is not followed.
pub open spec fn post_order(kids: spec_fn(int) -> Option<(int, int)>, seen: Seq<int>, i: int) -> Seq<int>
    decreases i,
{
    if i < 0 || seen.contains(i) {
        seen
    } else {
        match kids(i) {
            Some((lhs, rhs)) => if 0 <= lhs < i && 0 <= rhs < i {
                let s1 = post_order(kids, seen, lhs);
                let s2 = post_order(kids, s1, rhs);
                s2.push(i)
            } else {
                seen.push(i)
            },
            None => seen.push(i),
        }
    }
}

/// The post-order walk from each of `roots` in turn.
pub open spec fn post_order_all(kids: spec_fn(int) -> Option<(int, int)>, seen: Seq<int>, roots: Seq<int>) -> Seq<int>
    decreases roots.len(),
{
    if roots.len() == 0 {
        seen
    } else {
        post_order(kids, post_order_all(kids, seen, roots.drop_last()), roots.last())
    }
}

/// A walk only appends to what was seen before, and it visits its start node.
pub proof fn lemma_post_order_extends(kids: spec_fn(int) -> Option<(int, int)>, seen: Seq<int>, i: int)
    ensures
        post_order(kids, seen, i).len() >= seen.len(),
        forall|p: int| 0 <= p < seen.len() ==> post_order(kids, seen, i)[p] == seen[p],
        0 <= i ==> post_order(kids, seen, i).contains(i),
    decreases i,
{
    if i < 0 || seen.contains(i) {
    } else {
        match kids(i) {
            Some((lhs, rhs)) => if 0 <= lhs < i && 0 <= rhs < i {
                let s1 = post_order(kids, seen, lhs);
                lemma_post_order_extends(kids, seen, lhs);
                lemma_post_order_extends(kids, s1, rhs);
                let s2 = post_order(kids, s1, rhs);
                assert(s2.push(i)[s2.len() as int] == i);
            } else {
                assert(seen.push(i)[seen.len() as int] == i);
            },
            None => {
                assert(seen.push(i)[seen.len() as int] == i);
            },
        }
    }
}

/// Walking from the first `j` roots gives a prefix of walking from the first `k >= j`.
pub proof fn lemma_post_order_all_prefix(kids: spec_fn(int) -> Option<(int, int)>, seen: Seq<int>, roots: Seq<int>, j: int, k: int)
    requires
        0 <= j <= k <= roots.len(),
    ensures
        post_order_all(kids, seen, roots.take(j)).len() <= post_order_all(kids, seen, roots.take(k)).len(),
        forall|p: int|
            0 <= p < post_order_all(kids, seen, roots.take(j)).len() ==> post_order_all(kids, seen, roots.take(k))[p]
                == post_order_all(kids, seen, roots.take(j))[p],
    decreases k - j,
{
    if j < k {
        lemma_post_order_all_prefix(kids, seen, roots, j, k - 1);
        assert(roots.take(k).drop_last() =~= roots.take(k - 1));
        lemma_post_order_extends(kids, post_order_all(kids, seen, roots.take(k - 1)), roots[k - 1]);
    }
}

/// A walk from several roots visits each of them.
pub proof fn lemma_post_order_all_contains_roots(kids: spec_fn(int) -> Option<(int, int)>, seen: Seq<int>, roots: Seq<int>)
    ensures
        forall|k: int| 0 <= k < roots.len() && 0 <= roots[k] ==> #[trigger] post_order_all(kids, seen, roots).contains(roots[k]),
    decreases roots.len(),
{
    if roots.len() > 0 {
        let before = post_order_all(kids, seen, roots.drop_last());
        lemma_post_order_all_contains_roots(kids, seen, roots.drop_last());
        lemma_post_order_extends(kids, before, roots.last());
        let after = post_order_all(kids, seen, roots);
        assert forall|k: int| 0 <= k < roots.len() && 0 <= roots[k] implies #[trigger] after.contains(roots[k]) by {
            if k < roots.len() - 1 {
                assert(roots.drop_last()[k] == roots[k]);
                assert(before.contains(roots[k]));
                let p = choose|p: int| 0 <= p < before.len() && before[p] == roots[k];
                assert(after[p] == roots[k]);
            }
        }
    }
}

/// A walk from `i` visits only nodes from 0 to `i` that were not seen, each once.
pub proof fn lemma_post_order_fresh(kids: spec_fn(int) -> Option<(int, int)>, seen: Seq<int>, i: int)
    ensures
        forall|p: int|
            seen.len() <= p < post_order(kids, seen, i).len() ==> 0 <= #[trigger] post_order(kids, seen, i)[p] <= i
                && !seen.contains(post_order(kids, seen, i)[p]),
        seen.no_duplicates() ==> post_order(kids, seen, i).no_duplicates(),
    decreases i,
{
    lemma_post_order_extends(kids, seen, i);
    if i < 0 || seen.contains(i) {
    } else {
        match kids(i) {
            Some((lhs, rhs)) => if 0 <= lhs < i && 0 <= rhs < i {
                let s1 = post_order(kids, seen, lhs);
                let s2 = post_order(kids, s1, rhs);
                lemma_post_order_fresh(kids, seen, lhs);
                lemma_post_order_fresh(kids, s1, rhs);
                lemma_post_order_extends(kids, seen, lhs);
                lemma_post_order_extends(kids, s1, rhs);
                let s0 = s2.push(i);
                assert forall|p: int| seen.len() <= p < s0.len() implies 0 <= #[trigger] s0[p] <= i && !seen.contains(s0[p]) by {
                    if p < s1.len() {
                        assert(s0[p] == s1[p]);
                    } else if p < s2.len() {
                        assert(s0[p] == s2[p]);
                        if seen.contains(s2[p]) {
                            let q = choose|q: int| 0 <= q < seen.len() && seen[q] == s2[p];
                            assert(s1[q] == seen[q]);
                        }
                    }
                }
                assert(!s2.contains(i)) by {
                    if s2.contains(i) {
                        let q = choose|q: int| 0 <= q < s2.len() && s2[q] == i;
                        if q < seen.len() {
                            assert(s1[q] == seen[q]);
                            assert(s2[q] == s1[q]);
                            assert(seen.contains(i));
                        } else if q < s1.len() {
                            assert(s2[q] == s1[q]);
                            assert(s1[q] <= lhs);
                        } else {
                            assert(s2[q] <= rhs);
                        }
                    }
                }
                if seen.no_duplicates() {
                    assert(s0.no_duplicates()) by {
                        assert forall|a: int, b: int| 0 <= a < s0.len() && 0 <= b < s0.len() && a != b implies s0[a] != s0[b] by {
                            if a < s2.len() && b < s2.len() {
                                assert(s0[a] == s2[a] && s0[b] == s2[b]);
                            } else if a == s2.len() as int {
                                assert(s0[b] == s2[b]);
                                assert(s2.contains(s2[b]));
                            } else {
                                assert(s0[a] == s2[a]);
                                assert(s2.contains(s2[a]));
                            }
                        }
                    }
                }
            } else {
            },
            None => {},
        }
    }
}

/// A sequence without duplicates of integers in `[0, n)` is at most `n` long.
pub proof fn lemma_no_dup_range_len(s: Seq<int>, n: int)
    requires
        0 <= n,
        s.no_duplicates(),
        forall|p: int| 0 <= p < s.len() ==> 0 <= #[trigger] s[p] < n,
    ensures
        s.len() <= n,
{
    s.unique_seq_to_set();
    vstd::set_lib::lemma_int_range(0, n);
    assert(s.to_set().subset_of(vstd::set_lib::set_int_range(0, n)));
    vstd::set_lib::lemma_len_subset(s.to_set(), vstd::set_lib::set_int_range(0, n));
}

/// The position of `x` in a sequence that holds it once.
pub open spec fn position(w: Seq<int>, x: int) -> int {
    choose|p: int| 0 <= p < w.len() && w[p] == x
}

/// In a sequence without duplicates, the position of an element is where it stands.
pub proof fn lemma_position(w: Seq<int>, p: int)
    requires
        w.no_duplicates(),
        0 <= p < w.len(),
    ensures
        position(w, w[p]) == p,
{
    let x = w[p];
    assert(0 <= p < w.len() && w[p] == x);
    let c = position(w, x);
    assert(0 <= c < w.len() && w[c] == x);
}

/// The value of a gate is reduced modulo `q`.
pub proof fn lemma_gate_value_range(gates: Seq<Gate>, with: Seq<u64>, q: u64, i: int)
    requires
        q > 0,
    ensures
        0 <= gate_value(gates, with, q, i) < q,
{
}

/// What Verus sees of a circuit.
pub struct CircuitView {
    pub q: SupportedType,
    pub gates: Seq<Gate>,
    pub inputs: Seq<GateIdx>,
    pub outputs: Seq<GateIdx>,
}

/// A well-formed circuit: well-formed gates, and input and output indices that name gates.
pub open spec fn circuit_wf(c: CircuitView) -> bool {
    &&& gates_wf(c.gates)
    &&& forall|k: int| 0 <= k < c.inputs.len() ==> #[trigger] c.inputs[k] < c.gates.len()
    &&& forall|k: int| 0 <= k < c.outputs.len() ==> #[trigger] c.outputs[k] < c.gates.len()
}

/// An arithmetic circuit over `u64` values modulo `q`: a topologically ordered DAG of gates,
/// the list of its input gates and the list of its output gates.
#[derive(Debug)]
pub struct Circuit {
    q: SupportedType,
    gates: Arena<Gate>,
    inputs: ThinVec<GateIdx>,
    outputs: ThinVec<GateIdx>,
}

impl View for Circuit {
    type V = CircuitView;

    closed spec fn view(&self) -> CircuitView {
        CircuitView {
            q: self.q,
            gates: gate_arena_items(self.gates),
            inputs: idx_list_items(self.inputs),
            outputs: idx_list_items(self.outputs),
        }
    }
}

impl Circuit {
    /// Assembles a circuit from its parts.
    pub fn with(
        q: SupportedType,
        gates: Arena<Gate>,
        inputs: ThinVec<GateIdx>,
        outputs: ThinVec<GateIdx>,
    ) -> (c: Self)
        ensures
            c@ == (CircuitView {
                q,
                gates: gate_arena_items(gates),
                inputs: idx_list_items(inputs),
                outputs: idx_list_items(outputs),
            }),
    {
        Self { q, gates, inputs, outputs }
    }

    /// Whether the circuit is well formed: topologically ordered gates without tombstones, and
    /// input and output indices that name gates.
    pub fn is_well_formed(&self) -> (b: bool)
        ensures
            b == circuit_wf(self@),
    {
        let n = gate_arena_len(&self.gates);
        if n > 4294967295usize {
            return false;
        }
        let mut i: usize = 0;
        while i < n
            invariant
                n == self@.gates.len(),
                n <= u32::MAX,
                i <= n,
                forall|j: int|
                    0 <= j < i ==> match #[trigger] self@.gates[j] {
                        Gate::BinOp(_, lhs, rhs) => lhs < j && rhs < j,
                        Gate::Thombstone => false,
                        _ => true,
                    },
            decreases n - i,
        {
            let gate = gate_arena_get(&self.gates, i as u32);
            let ok = match gate {
                Gate::BinOp(_, lhs, rhs) => (lhs as usize) < i && (rhs as usize) < i,
                Gate::Thombstone => false,
                _ => true,
            };
            if !ok {
                return false;
            }
            i = i + 1;
        }
        let inputs = idx_list_as_slice(&self.inputs);
        let mut k: usize = 0;
        while k < inputs.len()
            invariant
                inputs@ == self@.inputs,
                n == self@.gates.len(),
                k <= inputs.len(),
                forall|j: int| 0 <= j < k ==> #[trigger] self@.inputs[j] < self@.gates.len(),
            decreases inputs.len() - k,
        {
            if inputs[k] as usize >= n {
                return false;
            }
            k = k + 1;
        }
        let outputs = idx_list_as_slice(&self.outputs);
        let mut k: usize = 0;
        while k < outputs.len()
            invariant
                outputs@ == self@.outputs,
                n == self@.gates.len(),
                k <= outputs.len(),
                forall|j: int| 0 <= j < k ==> #[trigger] self@.outputs[j] < self@.gates.len(),
            decreases outputs.len() - k,
        {
            if outputs[k] as usize >= n {
                return false;
            }
            k = k + 1;
        }
        true
    }

    pub fn q(&self) -> (q: SupportedType)
        ensures
            q == self@.q,
    {
        self.q
    }

    pub fn gates(&self) -> (g: &Arena<Gate>)
        ensures
            gate_arena_items(*g) == self@.gates,
    {
        &self.gates
    }

    pub fn num_gates(&self) -> (n: usize)
        ensures
            n == self@.gates.len(),
    {
        gate_arena_len(&self.gates)
    }

    pub fn inputs(&self) -> (s: &[GateIdx])
        ensures
            s@ == self@.inputs,
    {
        idx_list_as_slice(&self.inputs)
    }

    pub fn outputs(&self) -> (s: &[GateIdx])
        ensures
            s@ == self@.outputs,
    {
        idx_list_as_slice(&self.outputs)
    }
}

} // verus!
