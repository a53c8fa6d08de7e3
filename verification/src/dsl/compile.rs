use vstd::prelude::*;

use la_arena::Arena;
use std::collections::HashMap;
use thin_vec::ThinVec;

use crate::arena::{gate_arena_alloc, gate_arena_items, gate_arena_new};
use crate::bits::{bit_set_contains, bit_set_is_empty, bit_set_items, bit_set_remove};
use crate::dsl::compilation_mode::{flag_of, mode_flags, shares, CompilationMode, Strictness, StrictnessOn};
use crate::backend::plain::plain_output_values;
use crate::dsl::ctx::{exprs_wf, expr_value, Context, ContextView};
use crate::thin::{expr_list_from_vec, expr_list_items, idx_list_from_vec};
use crate::dsl::expr::{Expr, ExprIdx};
use crate::ir::{
    circuit_wf, gate_value, lemma_post_order_all_contains_roots, post_order_all, Circuit, CircuitView, gates_wf, lemma_no_dup_range_len, lemma_position, lemma_post_order_extends, lemma_post_order_fresh,
    position, post_order, Gate, GateIdx, SupportedType,
};

verus! {

broadcast use vstd::std_specs::hash::group_hash_axioms;

/// The operands of expression `i`, if it is an operation.
pub open spec fn expr_kids(items: Seq<Expr>) -> spec_fn(int) -> Option<(int, int)> {
    |i: int|
        if 0 <= i < items.len() {
            match items[i] {
                Expr::BinOp(_, lhs, rhs) => Some((lhs as int, rhs as int)),
                _ => None,
            }
        } else {
            None
        }
}

/// What expression `w[p]` is lowered to when the expressions are lowered in the order `w`:
/// an operation refers to the positions of its operands in `w`.
pub open spec fn lowered_gate(items: Seq<Expr>, w: Seq<int>, p: int) -> Gate {
    match items[w[p]] {
        Expr::Input(k) => Gate::Input(k),
        Expr::Const(v) => Gate::Const(v),
        Expr::BinOp(op, lhs, rhs) => Gate::BinOp(op, position(w, lhs as int) as u32, position(w, rhs as int) as u32),
    }
}

/// The gates of expressions lowered in the order `w`.
pub open spec fn lowered_gates(items: Seq<Expr>, w: Seq<int>) -> Seq<Gate> {
    Seq::new(w.len(), |p: int| lowered_gate(items, w, p))
}

/// The positions, among the first `n` of `w`, of the inputs.
pub open spec fn input_positions(items: Seq<Expr>, w: Seq<int>, n: int) -> Seq<GateIdx>
    decreases n,
{
    if n <= 0 {
        Seq::empty()
    } else if items[w[n - 1]] is Input {
        input_positions(items, w, n - 1).push((n - 1) as u32)
    } else {
        input_positions(items, w, n - 1)
    }
}

/// Every operation among the expressions of `w` has its operands in `w`.
pub open spec fn operands_lowered(items: Seq<Expr>, w: Seq<int>) -> bool {
    forall|p: int|
        0 <= p < w.len() ==> match #[trigger] items[w[p]] {
            Expr::BinOp(_, lhs, rhs) => w.contains(lhs as int) && w.contains(rhs as int) && position(w, lhs as int) < p
                && position(w, rhs as int) < p,
            _ => true,
        }
}

/// The input positions of a prefix do not depend on what follows it.
proof fn lemma_input_positions_prefix(items: Seq<Expr>, w: Seq<int>, w2: Seq<int>, n: int)
    requires
        0 <= n <= w.len(),
        n <= w2.len(),
        forall|p: int| 0 <= p < n ==> #[trigger] w[p] == w2[p],
    ensures
        input_positions(items, w, n) == input_positions(items, w2, n),
    decreases n,
{
    if n > 0 {
        lemma_input_positions_prefix(items, w, w2, n - 1);
    }
}

/// Appending a new expression to a lowering order keeps the positions of the others.
proof fn lemma_position_push(s: Seq<int>, i: int, x: int)
    requires
        s.push(i).no_duplicates(),
        s.contains(x),
    ensures
        position(s.push(i), x) == position(s, x),
        0 <= position(s, x) < s.len(),
        s[position(s, x)] == x,
{
    let c = choose|c: int| 0 <= c < s.len() && s[c] == x;
    assert(s.no_duplicates()) by {
        assert forall|a: int, b: int| 0 <= a < s.len() && 0 <= b < s.len() && a != b implies s[a] != s[b] by {
            assert(s.push(i)[a] == s[a] && s.push(i)[b] == s[b]);
        }
    }
    lemma_position(s, c);
    assert(s.push(i)[c] == x);
    lemma_position(s.push(i), c);
}


/// The category of an expression.
pub open spec fn category(e: Expr) -> StrictnessOn {
    match e {
        Expr::Input(_) => StrictnessOn::Input,
        Expr::Const(_) => StrictnessOn::Const,
        Expr::BinOp(_, _, _) => StrictnessOn::Op,
    }
}

/// The expressions of category `on` among the first `n` that the lowering order `seen` leaves
/// out, in index order.
pub open spec fn unused_of(items: Seq<Expr>, seen: Seq<int>, on: StrictnessOn, n: int) -> Seq<Expr>
    decreases n,
{
    if n <= 0 {
        Seq::empty()
    } else if !seen.contains(n - 1) && category(items[n - 1]) == on {
        unused_of(items, seen, on, n - 1).push(items[n - 1])
    } else {
        unused_of(items, seen, on, n - 1)
    }
}

/// The expressions of category `on` that the lowering order `seen` leaves out, in index order.
pub open spec fn unused_exprs(items: Seq<Expr>, seen: Seq<int>, on: StrictnessOn) -> Seq<Expr> {
    unused_of(items, seen, on, items.len() as int)
}

/// The mode is strict on category `on`, and the lowering leaves out some expression of it.
pub open spec fn refused_on(mode: CompilationMode, items: Seq<Expr>, seen: Seq<int>, on: StrictnessOn) -> bool {
    shares(mode_flags(mode), Strictness(flag_of(on))) && unused_exprs(items, seen, on).len() > 0
}

/// A compilation is refused when the mode is strict on a category of which the lowering
/// leaves out some expression.
pub open spec fn compile_refused(mode: CompilationMode, items: Seq<Expr>, seen: Seq<int>) -> bool {
    refused_on(mode, items, seen, StrictnessOn::Input) || refused_on(mode, items, seen, StrictnessOn::Const)
        || refused_on(mode, items, seen, StrictnessOn::Op)
}

/// The error lists every left-out expression, by category, in index order.
pub open spec fn unused_reported(e: CompilationError, items: Seq<Expr>, seen: Seq<int>) -> bool {
    &&& expr_list_items(e.unused_inputs) == unused_exprs(items, seen, StrictnessOn::Input)
    &&& expr_list_items(e.unused_constants) == unused_exprs(items, seen, StrictnessOn::Const)
    &&& expr_list_items(e.unused_operations) == unused_exprs(items, seen, StrictnessOn::Op)
}

/// No flag is shared with the empty strictness.
proof fn lemma_nothing_shares_zero()
    ensures
        forall|s: Strictness| !shares(Strictness(0), s),
{
    assert forall|s: Strictness| !shares(Strictness(0), s) by {
        let b = s.0;
        assert(0u8 & b == 0) by (bit_vector);
    }
}

/// A left-out expression is an index that the lowering order does not hold.
proof fn lemma_unused_nonempty(items: Seq<Expr>, seen: Seq<int>, on: StrictnessOn, n: int)
    requires
        forall|i: int| 0 <= i < n ==> seen.contains(i),
    ensures
        unused_of(items, seen, on, n).len() == 0,
    decreases n,
{
    if n > 0 {
        lemma_unused_nonempty(items, seen, on, n - 1);
        assert(seen.contains(n - 1));
    }
}

/// The order in which a compilation lowers the expressions: the post-order walk from each
/// output in turn.
pub open spec fn compile_order(items: Seq<Expr>, outputs: Seq<ExprIdx>) -> Seq<int> {
    post_order_all(expr_kids(items), Seq::empty(), outputs.map_values(|o: u32| o as int))
}

/// The circuit a compilation produces when it is not refused: the gates of the reached
/// expressions in lowering order, the positions of the inputs among them, and the position of
/// each output.
pub open spec fn compiled_circuit(ctx: ContextView, outputs: Seq<ExprIdx>) -> CircuitView {
    let order = compile_order(ctx.exprs, outputs);
    CircuitView {
        q: ctx.q,
        gates: lowered_gates(ctx.exprs, order),
        inputs: input_positions(ctx.exprs, order, order.len() as int),
        outputs: outputs.map_values(|o: u32| position(order, o as int) as u32),
    }
}

/// What compiling `outputs` in a context gives: the error that lists the unused expressions
/// exactly when the mode refuses them, otherwise the compiled circuit.
pub open spec fn compile_outcome(ctx: ContextView, outputs: Seq<ExprIdx>, r: CompilationResult) -> bool {
    let order = compile_order(ctx.exprs, outputs);
    &&& (r is Err <==> compile_refused(ctx.mode, ctx.exprs, order))
    &&& (r matches Err(e) ==> unused_reported(e, ctx.exprs, order))
    &&& (r matches Ok(c) ==> c@ == compiled_circuit(ctx, outputs) && circuit_wf(c@))
}

/// Each output gate of a compiled circuit computes, for every value of the inputs, the value
/// of its expression.
pub open spec fn outputs_agree(ctx: ContextView, outputs: Seq<ExprIdx>, c: CircuitView) -> bool {
    forall|with: Seq<u64>, k: int|
        0 <= k < outputs.len() ==> #[trigger] gate_value(c.gates, with, c.q, c.outputs[k] as int) == expr_value(
            ctx.exprs,
            with,
            ctx.q,
            outputs[k] as int,
        )
}

/// A compiled circuit, evaluated with plain arithmetic modulo `q`, gives at each output the value
/// of the expression compiled there.
pub proof fn lemma_compiled_circuit_evaluates_expressions(
    ctx: ContextView,
    outputs: Seq<ExprIdx>,
    c: CircuitView,
    with: Seq<u64>,
)
    requires
        c.outputs.len() == outputs.len(),
        outputs_agree(ctx, outputs, c),
    ensures
        forall|k: int|
            0 <= k < outputs.len() ==> #[trigger] plain_output_values(c, with)[k] == expr_value(
                ctx.exprs,
                with,
                ctx.q,
                outputs[k] as int,
            ) as u64,
{
    assert forall|k: int| 0 <= k < outputs.len() implies #[trigger] plain_output_values(c, with)[k] == expr_value(
        ctx.exprs,
        with,
        ctx.q,
        outputs[k] as int,
    ) as u64 by {
        assert(gate_value(c.gates, with, c.q, c.outputs[k] as int) == expr_value(ctx.exprs, with, ctx.q, outputs[k] as int));
    }
}

/// The input positions among the first `n` of an order are below `n`.
proof fn lemma_input_positions_below(items: Seq<Expr>, w: Seq<int>, n: int)
    requires
        0 <= n <= u32::MAX,
    ensures
        forall|k: int| 0 <= k < input_positions(items, w, n).len() ==> #[trigger] input_positions(items, w, n)[k] < n,
    decreases n,
{
    if n > 0 {
        lemma_input_positions_below(items, w, n - 1);
        let before = input_positions(items, w, n - 1);
        if items[w[n - 1]] is Input {
            assert forall|k: int| 0 <= k < before.push((n - 1) as u32).len() implies #[trigger] before.push(
                (n - 1) as u32,
            )[k] < n by {
                if k < before.len() {
                    assert(before.push((n - 1) as u32)[k] == before[k]);
                }
            }
        }
    }
}

/// The gates of expressions lowered in an order that lowers operands first compute the values
/// of the expressions.
proof fn lemma_lowered_values(items: Seq<Expr>, w: Seq<int>, with: Seq<u64>, q: u64, p: int)
    requires
        exprs_wf(items),
        w.len() <= u32::MAX,
        forall|j: int| 0 <= j < w.len() ==> 0 <= #[trigger] w[j] < items.len(),
        operands_lowered(items, w),
        0 <= p < w.len(),
    ensures
        gate_value(lowered_gates(items, w), with, q, p) == expr_value(items, with, q, w[p]),
    decreases p,
{
    let g = lowered_gates(items, w);
    assert(g[p] == lowered_gate(items, w, p));
    match items[w[p]] {
        Expr::BinOp(op, l, r) => {
            let pl = position(w, l as int);
            let pr = position(w, r as int);
            assert(w.contains(l as int) && w.contains(r as int) && pl < p && pr < p);
            assert(0 <= pl < w.len() && w[pl] == l as int);
            assert(0 <= pr < w.len() && w[pr] == r as int);
            lemma_lowered_values(items, w, with, q, pl);
            lemma_lowered_values(items, w, with, q, pr);
            assert(l < w[p] && r < w[p]);
        },
        _ => {},
    }
}

/// The gates of expressions lowered in an order that lowers operands first are well formed.
proof fn lemma_lowered_gates_wf(items: Seq<Expr>, w: Seq<int>)
    requires
        w.len() <= u32::MAX,
        operands_lowered(items, w),
    ensures
        gates_wf(lowered_gates(items, w)),
{
    let g = lowered_gates(items, w);
    assert forall|i: int| 0 <= i < g.len() implies match #[trigger] g[i] {
        Gate::BinOp(_, lhs, rhs) => lhs < i && rhs < i,
        Gate::Thombstone => false,
        _ => true,
    } by {
        assert(g[i] == lowered_gate(items, w, i));
        match items[w[i]] {
            Expr::BinOp(op, l, r) => {
                let pl = position(w, l as int);
                let pr = position(w, r as int);
                assert(w.contains(l as int) && w.contains(r as int) && pl < i && pr < i);
                assert(0 <= pl < w.len() && w[pl] == l as int);
                assert(0 <= pr < w.len() && w[pr] == r as int);
            },
            _ => {},
        }
    }
}

/// The expressions that no output of a compilation uses, by category.
#[derive(Debug)]
pub struct CompilationError {
    pub unused_inputs: ThinVec<Expr>,
    pub unused_constants: ThinVec<Expr>,
    pub unused_operations: ThinVec<Expr>,
}

/// A compiled circuit, or the expressions that the mode refuses to leave unused.
pub type CompilationResult = Result<Circuit, CompilationError>;

/// Lowers expressions into gates, in a post-order walk from the outputs.
struct CircuitCompiler {
    q: SupportedType,
    gates: Arena<Gate>,
    inputs: Vec<GateIdx>,
    outputs: Vec<GateIdx>,
    expr_idx_to_gate_idx: HashMap<ExprIdx, GateIdx>,
    lowered: Vec<ExprIdx>,
}

impl CircuitCompiler {
    /// The compiler holds the lowering of the expressions `seen`, in that order.
    spec fn state_ok(&self, items: Seq<Expr>, seen: Seq<int>) -> bool {
        &&& items.len() <= u32::MAX
        &&& seen.no_duplicates()
        &&& forall|p: int| 0 <= p < seen.len() ==> 0 <= #[trigger] seen[p] < items.len()
        &&& operands_lowered(items, seen)
        &&& gate_arena_items(self.gates) == lowered_gates(items, seen)
        &&& self.inputs@ == input_positions(items, seen, seen.len() as int)
        &&& forall|k: u32| self.expr_idx_to_gate_idx@.contains_key(k) <==> seen.contains(k as int)
        &&& forall|k: u32|
            #[trigger] self.expr_idx_to_gate_idx@.contains_key(k) ==> self.expr_idx_to_gate_idx@[k] == position(
                seen,
                k as int,
            )
        &&& self.lowered@ == seen.map_values(|x: int| x as u32)
    }

    fn with(q: SupportedType) -> (c: Self)
        ensures
            c.q == q,
            c.outputs@ == Seq::<GateIdx>::empty(),
            forall|items: Seq<Expr>| items.len() <= u32::MAX ==> #[trigger] c.state_ok(items, Seq::empty()),
    {
        let c = Self {
            q,
            gates: gate_arena_new(),
            inputs: Vec::new(),
            outputs: Vec::new(),
            expr_idx_to_gate_idx: HashMap::new(),
            lowered: Vec::new(),
        };
        assert forall|items: Seq<Expr>| items.len() <= u32::MAX implies #[trigger] c.state_ok(items, Seq::empty()) by {
            assert(lowered_gates(items, Seq::empty()) =~= Seq::<Gate>::empty());
            assert(Seq::<int>::empty().map_values(|x: int| x as u32) =~= Seq::<u32>::empty());
        }
        c
    }

    fn put_in_gates(&mut self, gate: Gate) -> (idx: GateIdx)
        requires
            gate_arena_items(old(self).gates).len() < u32::MAX,
        ensures
            idx == gate_arena_items(old(self).gates).len(),
            gate_arena_items(final(self).gates) == gate_arena_items(old(self).gates).push(gate),
            final(self).inputs == old(self).inputs,
            final(self).outputs == old(self).outputs,
            final(self).expr_idx_to_gate_idx == old(self).expr_idx_to_gate_idx,
            final(self).lowered == old(self).lowered,
            final(self).q == old(self).q,
    {
        gate_arena_alloc(&mut self.gates, gate)
    }

    fn mark_as_input(&mut self, gate_index: GateIdx)
        ensures
            final(self).inputs@ == old(self).inputs@.push(gate_index),
            final(self).gates == old(self).gates,
            final(self).outputs == old(self).outputs,
            final(self).expr_idx_to_gate_idx == old(self).expr_idx_to_gate_idx,
            final(self).lowered == old(self).lowered,
            final(self).q == old(self).q,
    {
        self.inputs.push(gate_index);
    }

    fn pair(&mut self, expr_index: ExprIdx, gate_index: GateIdx)
        ensures
            final(self).expr_idx_to_gate_idx@ == old(self).expr_idx_to_gate_idx@.insert(expr_index, gate_index),
            final(self).gates == old(self).gates,
            final(self).inputs == old(self).inputs,
            final(self).outputs == old(self).outputs,
            final(self).lowered == old(self).lowered,
            final(self).q == old(self).q,
    {
        self.expr_idx_to_gate_idx.insert(expr_index, gate_index);
    }

    fn is_lowered(&self, expr_index: &ExprIdx) -> (b: bool)
        ensures
            b == self.expr_idx_to_gate_idx@.contains_key(*expr_index),
    {
        self.expr_idx_to_gate_idx.contains_key(expr_index)
    }

    fn get_lowered(&self, expr_index: &ExprIdx) -> (g: Option<GateIdx>)
        ensures
            g == if self.expr_idx_to_gate_idx@.contains_key(*expr_index) {
                Some(self.expr_idx_to_gate_idx@[*expr_index])
            } else {
                None::<GateIdx>
            },
    {
        match self.expr_idx_to_gate_idx.get(expr_index) {
            Some(g) => Some(*g),
            None => None,
        }
    }

    /// Lowers expression `i` after the expressions it depends on, unless it is lowered already.
    #[verifier::rlimit(40)]
    fn lower(&mut self, ctx: &Context, i: ExprIdx, Ghost(seen): Ghost<Seq<int>>) -> (after: Ghost<Seq<int>>)
        requires
            ctx.wf(),
            i < ctx@.exprs.len(),
            old(self).state_ok(ctx@.exprs, seen),
        ensures
            after@ == post_order(expr_kids(ctx@.exprs), seen, i as int),
            final(self).state_ok(ctx@.exprs, after@),
            final(self).q == old(self).q,
            final(self).outputs == old(self).outputs,
        decreases i,
    {
        let ghost items = ctx@.exprs;
        let ghost kids = expr_kids(items);
        let ghost s0 = post_order(kids, seen, i as int);
        if self.is_lowered(&i) {
            return Ghost(seen);
        }
        let expr = ctx.get(i);
        proof {
            lemma_post_order_fresh(kids, seen, i as int);
            lemma_post_order_extends(kids, seen, i as int);
        }
        let ghost pre: Seq<int>;
        let (gate, is_input) = match expr {
            Expr::Input(index) => {
                proof {
                    pre = seen;
                }
                (Gate::Input(index), true)
            },
            Expr::Const(value) => {
                proof {
                    pre = seen;
                }
                (Gate::Const(value), false)
            },
            Expr::BinOp(bin_op, lhs, rhs) => {
                assert(items[i as int] == expr);
                let ghost s1 = post_order(kids, seen, lhs as int);
                let Ghost(t1) = self.lower(ctx, lhs, Ghost(seen));
                let Ghost(t2) = self.lower(ctx, rhs, Ghost(t1));
                proof {
                    pre = t2;
                    lemma_post_order_extends(kids, seen, lhs as int);
                    lemma_post_order_extends(kids, s1, rhs as int);
                    assert(s0 == t2.push(i as int));
                    let c = choose|c: int| 0 <= c < t1.len() && t1[c] == lhs as int;
                    assert(t2[c] == lhs as int);
                    assert(t2.contains(lhs as int));
                }
                let lhs_gate_idx = self.get_lowered(&lhs).unwrap();
                let rhs_gate_idx = self.get_lowered(&rhs).unwrap();
                (Gate::BinOp(bin_op, lhs_gate_idx, rhs_gate_idx), false)
            },
        };
        proof {
            assert(s0 == pre.push(i as int));
            assert(s0[pre.len() as int] == i);
            assert(forall|p: int| 0 <= p < pre.len() ==> #[trigger] s0[p] == pre[p]);
            lemma_no_dup_range_len(s0, items.len() as int);
        }
        let gate_idx = self.put_in_gates(gate);
        if is_input {
            self.mark_as_input(gate_idx);
        }
        self.pair(i, gate_idx);
        self.lowered.push(i);
        proof {
            let n = pre.len() as int;
            assert(s0.no_duplicates());
            lemma_position(s0, n);
            assert forall|x: int| pre.contains(x) implies position(s0, x) == position(pre, x) && 0 <= position(pre, x) < n
                && pre[position(pre, x)] == x by {
                lemma_position_push(pre, i as int, x);
            }
            assert(gate_arena_items(self.gates) =~= lowered_gates(items, s0)) by {
                assert forall|p: int| 0 <= p < s0.len() implies gate_arena_items(self.gates)[p] == lowered_gate(items, s0, p) by {
                    if p < n {
                        assert(s0[p] == pre[p]);
                        match items[pre[p]] {
                            Expr::BinOp(_, l, r) => {
                                assert(pre.contains(l as int) && pre.contains(r as int));
                            },
                            _ => {},
                        }
                    }
                }
            }
            assert(operands_lowered(items, s0)) by {
                assert forall|p: int| 0 <= p < s0.len() implies match #[trigger] items[s0[p]] {
                    Expr::BinOp(_, lhs, rhs) => s0.contains(lhs as int) && s0.contains(rhs as int) && position(s0, lhs as int) < p
                        && position(s0, rhs as int) < p,
                    _ => true,
                } by {
                    if p < n {
                        assert(s0[p] == pre[p]);
                        match items[pre[p]] {
                            Expr::BinOp(_, l, r) => {
                                assert(pre.contains(l as int) && pre.contains(r as int));
                                let cl = position(pre, l as int);
                                let cr = position(pre, r as int);
                                assert(s0[cl] == l as int);
                                assert(s0[cr] == r as int);
                            },
                            _ => {},
                        }
                    } else {
                        match expr {
                            Expr::BinOp(_, l, r) => {
                                let cl = position(pre, l as int);
                                let cr = position(pre, r as int);
                                assert(s0[cl] == l as int);
                                assert(s0[cr] == r as int);
                            },
                            _ => {},
                        }
                    }
                }
            }
            lemma_input_positions_prefix(items, pre, s0, n);
            assert(self.inputs@ == input_positions(items, s0, s0.len() as int));
            assert forall|k: u32| self.expr_idx_to_gate_idx@.contains_key(k) <==> s0.contains(k as int) by {
                if s0.contains(k as int) && k != i {
                    let c = choose|c: int| 0 <= c < s0.len() && s0[c] == k as int;
                    assert(pre[c] == k as int);
                }
                if pre.contains(k as int) {
                    let c = choose|c: int| 0 <= c < pre.len() && pre[c] == k as int;
                    assert(s0[c] == k as int);
                }
            }
            assert(self.lowered@ =~= s0.map_values(|x: int| x as u32));
        }
        Ghost(s0)
    }

    /// Gathers the expressions that no output reaches, by category, and refuses the
    /// compilation when the mode is strict on a category that has some.
    fn apply_mode(&self, ctx: &Context, Ghost(seen): Ghost<Seq<int>>) -> (r: Result<(), CompilationError>)
        requires
            ctx.wf(),
            self.state_ok(ctx@.exprs, seen),
        ensures
            r is Err <==> compile_refused(ctx@.mode, ctx@.exprs, seen),
            r matches Err(e) ==> unused_reported(e, ctx@.exprs, seen),
    {
        let ghost items = ctx@.exprs;
        let mode = ctx.mode();
        if let CompilationMode::Loose = mode {
            proof {
                lemma_nothing_shares_zero();
            }
            return Ok(());
        }
        let mut unused = ctx.create_set_of_all_indices();
        let len = ctx.len();
        let mut k: usize = 0;
        while k < self.lowered.len()
            invariant
                self.state_ok(items, seen),
                len == items.len(),
                k <= self.lowered@.len(),
                forall|x: usize|
                    #[trigger] bit_set_items(unused).contains(x) <==> (x < len && !seen.take(k as int).contains(
                        x as int,
                    )),
            decreases self.lowered@.len() - k,
        {
            let e = self.lowered[k];
            bit_set_remove(&mut unused, e as usize);
            proof {
                assert(seen.take(k as int + 1) =~= seen.take(k as int).push(seen[k as int]));
                assert(self.lowered@[k as int] == seen[k as int] as u32);
                assert(0 <= seen[k as int] < items.len());
                assert(e as usize as int == seen[k as int]);
                assert forall|x: usize|
                    #[trigger] bit_set_items(unused).contains(x) <==> (x < len && !seen.take(k as int + 1).contains(
                        x as int,
                    )) by {
                    if x as int == seen[k as int] {
                        assert(seen.take(k as int + 1)[k as int] == x as int);
                    }
                    if seen.take(k as int).contains(x as int) {
                        let c = choose|c: int| 0 <= c < k && #[trigger] seen.take(k as int)[c] == x as int;
                        assert(seen.take(k as int + 1)[c] == x as int);
                    }
                    if seen.take(k as int + 1).contains(x as int) && x as int != seen[k as int] {
                        let c = choose|c: int| 0 <= c < k + 1 && #[trigger] seen.take(k as int + 1)[c] == x as int;
                        assert(seen.take(k as int)[c] == x as int);
                    }
                }
            }
            k = k + 1;
        }
        proof {
            assert(seen.take(k as int) =~= seen);
        }
        if bit_set_is_empty(&unused) {
            proof {
                assert forall|i: int| 0 <= i < items.len() implies seen.contains(i) by {
                    assert(!bit_set_items(unused).contains(i as usize));
                }
                lemma_unused_nonempty(items, seen, StrictnessOn::Input, items.len() as int);
                lemma_unused_nonempty(items, seen, StrictnessOn::Const, items.len() as int);
                lemma_unused_nonempty(items, seen, StrictnessOn::Op, items.len() as int);
            }
            return Ok(());
        }
        let mut unused_inputs: Vec<Expr> = Vec::new();
        let mut unused_constants: Vec<Expr> = Vec::new();
        let mut unused_operations: Vec<Expr> = Vec::new();
        let mut i: usize = 0;
        while i < len
            invariant
                ctx.wf(),
                items == ctx@.exprs,
                len == items.len(),
                i <= len,
                forall|x: usize| #[trigger] bit_set_items(unused).contains(x) <==> (x < len && !seen.contains(x as int)),
                unused_inputs@ == unused_of(items, seen, StrictnessOn::Input, i as int),
                unused_constants@ == unused_of(items, seen, StrictnessOn::Const, i as int),
                unused_operations@ == unused_of(items, seen, StrictnessOn::Op, i as int),
            decreases len - i,
        {
            if bit_set_contains(&unused, i) {
                let expr = ctx.get(i as u32);
                match expr {
                    Expr::Input(_) => unused_inputs.push(expr),
                    Expr::Const(_) => unused_constants.push(expr),
                    Expr::BinOp(_, _, _) => unused_operations.push(expr),
                }
            }
            i = i + 1;
        }
        let strictness_mode = Strictness::from(&mode);
        let on_inputs = Strictness::from(StrictnessOn::Input);
        let on_constants = Strictness::from(StrictnessOn::Const);
        let on_operations = Strictness::from(StrictnessOn::Op);
        let refused = (&strictness_mode & &on_inputs && unused_inputs.len() > 0) || (&strictness_mode
            & &on_constants && unused_constants.len() > 0) || (&strictness_mode & &on_operations
            && unused_operations.len() > 0);
        if !refused {
            return Ok(());
        }
        Err(
            CompilationError {
                unused_inputs: expr_list_from_vec(unused_inputs),
                unused_constants: expr_list_from_vec(unused_constants),
                unused_operations: expr_list_from_vec(unused_operations),
            },
        )
    }
    /// Lowers the expressions that the outputs reach, in a post-order walk from each output
    /// in turn, applies the compilation mode, and assembles the circuit.
    #[verifier::rlimit(40)]
    fn build_from(self, ctx: &Context, outputs: &[ExprIdx]) -> (r: CompilationResult)
        requires
            ctx.wf(),
            outputs.len() > 0,
            forall|k: int| 0 <= k < outputs.len() ==> #[trigger] outputs[k] < ctx@.exprs.len(),
            self.state_ok(ctx@.exprs, Seq::empty()),
            self.q == ctx@.q,
        ensures
            compile_outcome(ctx@, outputs@, r),
            r matches Ok(c) ==> outputs_agree(ctx@, outputs@, c@),
    {
        let ghost items = ctx@.exprs;
        let ghost roots = outputs@.map_values(|o: u32| o as int);
        let ghost kids = expr_kids(items);
        let ghost mut seen: Seq<int> = Seq::empty();
        let mut compiler = self;
        let mut k: usize = 0;
        proof {
            assert(roots.take(0) =~= Seq::<int>::empty());
        }
        while k < outputs.len()
            invariant
                ctx.wf(),
                items == ctx@.exprs,
                kids == expr_kids(items),
                k <= outputs.len(),
                roots == outputs@.map_values(|o: u32| o as int),
                forall|j: int| 0 <= j < outputs.len() ==> #[trigger] outputs[j] < items.len(),
                seen == post_order_all(kids, Seq::empty(), roots.take(k as int)),
                compiler.state_ok(items, seen),
                compiler.q == ctx@.q,
            decreases outputs.len() - k,
        {
            let Ghost(after) = compiler.lower(ctx, outputs[k], Ghost(seen));
            proof {
                assert(roots.take(k as int + 1).drop_last() =~= roots.take(k as int));
                assert(roots.take(k as int + 1).last() == outputs[k as int] as int);
                seen = after;
            }
            k = k + 1;
        }
        proof {
            assert(roots.take(outputs.len() as int) =~= roots);
            lemma_post_order_all_contains_roots(kids, Seq::empty(), roots);
            assert(seen == compile_order(items, outputs@));
        }
        match compiler.apply_mode(ctx, Ghost(seen)) {
            Err(e) => {
                return Err(e);
            },
            Ok(()) => {},
        }
        let mut out: Vec<GateIdx> = Vec::new();
        let mut j: usize = 0;
        while j < outputs.len()
            invariant
                j <= outputs.len(),
                roots == outputs@.map_values(|o: u32| o as int),
                forall|m: int| 0 <= m < roots.len() && 0 <= roots[m] ==> #[trigger] seen.contains(roots[m]),
                compiler.state_ok(items, seen),
                out@ == outputs@.take(j as int).map_values(|o: u32| position(seen, o as int) as u32),
            decreases outputs.len() - j,
        {
            assert(seen.contains(roots[j as int]));
            let g = compiler.get_lowered(&outputs[j]).unwrap();
            out.push(g);
            proof {
                assert(outputs@.take(j as int + 1) =~= outputs@.take(j as int).push(outputs[j as int]));
            }
            j = j + 1;
        }
        proof {
            assert(outputs@.take(outputs.len() as int) =~= outputs@);
            lemma_no_dup_range_len(seen, items.len() as int);
            lemma_lowered_gates_wf(items, seen);
            lemma_input_positions_below(items, seen, seen.len() as int);
            assert forall|m: int| 0 <= m < out@.len() implies #[trigger] out@[m] < seen.len() by {
                assert(seen.contains(roots[m]));
                let c = choose|c: int| 0 <= c < seen.len() && seen[c] == roots[m];
            }
            assert forall|with: Seq<u64>, m: int| 0 <= m < outputs.len() implies #[trigger] gate_value(
                lowered_gates(items, seen),
                with,
                ctx@.q,
                out@[m] as int,
            ) == expr_value(items, with, ctx@.q, outputs@[m] as int) by {
                assert(seen.contains(roots[m]));
                let c = choose|c: int| 0 <= c < seen.len() && seen[c] == roots[m];
                assert(0 <= position(seen, roots[m]) < seen.len());
                lemma_lowered_values(items, seen, with, ctx@.q, position(seen, roots[m]));
            }
        }
        let CircuitCompiler { q, gates, inputs, .. } = compiler;
        let circuit = Circuit::with(q, gates, idx_list_from_vec(inputs), idx_list_from_vec(out));
        Ok(circuit)
    }
}

impl Context {
    /// Compiles the expression `output` into a circuit.
    pub fn compile(&self, output: ExprIdx) -> (r: CompilationResult)
        requires
            self.wf(),
            output < self@.exprs.len(),
        ensures
            compile_outcome(self@, seq![output], r),
            r matches Ok(c) ==> outputs_agree(self@, seq![output], c@),
    {
        let outputs = [output];
        proof {
            assert(outputs@ =~= seq![output]);
        }
        self.compile_many(&outputs)
    }

    /// Compiles the expressions `outputs` into one circuit, whose outputs are theirs in order.
    pub fn compile_many(&self, outputs: &[ExprIdx]) -> (r: CompilationResult)
        requires
            self.wf(),
            outputs.len() > 0,
            forall|k: int| 0 <= k < outputs.len() ==> #[trigger] outputs[k] < self@.exprs.len(),
        ensures
            compile_outcome(self@, outputs@, r),
            r matches Ok(c) ==> outputs_agree(self@, outputs@, c@),
    {
        let compiler = CircuitCompiler::with(self.q());
        proof {
            assert(compiler.state_ok(self@.exprs, Seq::empty()));
        }
        compiler.build_from(self, outputs)
    }
}

} // verus!
