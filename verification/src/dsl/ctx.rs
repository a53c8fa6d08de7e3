use vstd::prelude::*;

use la_arena::Arena;

use crate::arena::{expr_arena_get, expr_arena_items, expr_arena_len, expr_arena_new};
use crate::bits::{bit_set_insert, bit_set_items, bit_set_new, bit_set_remove, IndexSet};
use crate::thin::{edge_list_from_vec, edge_list_items};
use thin_vec::ThinVec;
use crate::dsl::compilation_mode::CompilationMode;
use crate::dsl::expr::{spec_expr_hash, Expr, ExprIdx};
use crate::dsl::folding::{fold, fold_ok, spec_fold};
use crate::ir::{apply_op, lemma_hash_key_injective, SupportedType};
use crate::op::BinOp;
use crate::passes::interner::{intern_index, interned, lemma_interned_keys_distinct, Internable, Interner};

verus! {

/// A well-formed expression graph: each operation uses only expressions that come before it,
/// and the graph is indexable by `u32`.
pub open spec fn exprs_wf(items: Seq<Expr>) -> bool {
    &&& items.len() <= u32::MAX
    &&& forall|i: int|
        0 <= i < items.len() ==> match #[trigger] items[i] {
            Expr::BinOp(_, lhs, rhs) => lhs < i && rhs < i,
            _ => true,
        }
}

/// The value expression `i` stands for, modulo `q`, when the inputs take the values `with`.
pub open spec fn expr_value(items: Seq<Expr>, with: Seq<u64>, q: u64, i: int) -> int
    decreases i,
{
    if i < 0 || i >= items.len() {
        0
    } else {
        match items[i] {
            Expr::Input(k) => if k < with.len() {
                (with[k as int] as int) % (q as int)
            } else {
                0
            },
            Expr::Const(v) => (v as int) % (q as int),
            Expr::BinOp(op, lhs, rhs) => if lhs < i && rhs < i {
                apply_op(op, expr_value(items, with, q, lhs as int), expr_value(items, with, q, rhs as int))
                    % (q as int)
            } else {
                0
            },
        }
    }
}

/// What Verus sees of a context.
pub struct ContextView {
    pub q: SupportedType,
    pub mode: CompilationMode,
    pub exprs: Seq<Expr>,
}

/// The expressions an appended expression is stored as: it is folded, then interned.
pub open spec fn appended(items: Seq<Expr>, q: SupportedType, expr: Expr) -> Seq<Expr> {
    let folded = spec_fold(expr, items, q);
    if exists|i: int| 0 <= i < items.len() && items[i].spec_key() == folded.spec_key() {
        items
    } else {
        items.push(folded)
    }
}

/// The index an appended expression gets.
pub open spec fn appended_index(items: Seq<Expr>, q: SupportedType, expr: Expr) -> int {
    intern_index(items, spec_fold(expr, items, q))
}

/// An expression that can be appended: its operands exist, folding it does not panic, and the
/// arena has room.
pub open spec fn append_ok(items: Seq<Expr>, q: SupportedType, expr: Expr) -> bool {
    &&& fold_ok(expr, items, q)
    &&& items.len() < u32::MAX
}

/// What an expression stands for, modulo `q`, with its operands looked up in `items`: an input
/// for its value, a constant for itself, an operation for the operation on its operands.
pub open spec fn value_in(items: Seq<Expr>, with: Seq<u64>, q: u64, e: Expr) -> int {
    match e {
        Expr::Input(k) => if k < with.len() {
            (with[k as int] as int) % (q as int)
        } else {
            0
        },
        Expr::Const(v) => (v as int) % (q as int),
        Expr::BinOp(op, lhs, rhs) => apply_op(op, expr_value(items, with, q, lhs as int), expr_value(items, with, q, rhs as int))
            % (q as int),
    }
}

/// Expression `e` is an operation with `x` as an operand.
pub open spec fn operand_of(e: Expr, x: usize) -> bool {
    match e {
        Expr::BinOp(_, lhs, rhs) => lhs as usize == x || rhs as usize == x,
        _ => false,
    }
}

/// One of the first `k` expressions is an operation on expression `x`.
pub open spec fn used_by_an_operation(items: Seq<Expr>, k: int, x: usize) -> bool {
    exists|j: int| 0 <= j < k && #[trigger] operand_of(items[j], x)
}

/// A stored expression stands for what it stands for among the expressions before it.
proof fn lemma_value_at(items: Seq<Expr>, with: Seq<u64>, q: u64, i: int)
    requires
        exprs_wf(items),
        0 <= i < items.len(),
    ensures
        expr_value(items, with, q, i) == value_in(items, with, q, items[i]),
{
}

/// Appending keeps what the expressions before stand for.
proof fn lemma_push_keeps_value(items: Seq<Expr>, x: Expr, with: Seq<u64>, q: u64, i: int)
    requires
        0 <= i < items.len(),
    ensures
        expr_value(items.push(x), with, q, i) == expr_value(items, with, q, i),
    decreases i,
{
    assert(items.push(x)[i] == items[i]);
    match items[i] {
        Expr::BinOp(_, lhs, rhs) => if lhs < i && rhs < i {
            lemma_push_keeps_value(items, x, with, q, lhs as int);
            lemma_push_keeps_value(items, x, with, q, rhs as int);
        },
        _ => {},
    }
}

/// Expressions with the same canonical form stand for the same value: `a + b` and `b + a`.
proof fn lemma_same_form_same_value(items: Seq<Expr>, with: Seq<u64>, q: u64, a: Expr, b: Expr)
    requires
        spec_expr_hash(a) == spec_expr_hash(b),
    ensures
        value_in(items, with, q, a) == value_in(items, with, q, b),
{
    if let (Expr::BinOp(op, l1, r1), Expr::BinOp(_, l2, r2)) = (a, b) {
        let x = expr_value(items, with, q, l1 as int);
        let y = expr_value(items, with, q, r1 as int);
        vstd::arithmetic::mul::lemma_mul_is_commutative(x, y);
    }
}

/// Folding keeps what an expression stands for.
proof fn lemma_fold_keeps_value(items: Seq<Expr>, with: Seq<u64>, q: u64, e: Expr)
    requires
        exprs_wf(items),
        fold_ok(e, items, q),
    ensures
        value_in(items, with, q, spec_fold(e, items, q)) == value_in(items, with, q, e),
{
    if let Expr::BinOp(op, lhs, rhs) = e {
        if let (Expr::Const(a), Expr::Const(b)) = (items[lhs as int], items[rhs as int]) {
            let m = q as int;
            lemma_value_at(items, with, q, lhs as int);
            lemma_value_at(items, with, q, rhs as int);
            let r = apply_op(op, a as int, b as int);
            assert(0 <= r % m < m);
            assert(((r % m) as u64) as int == r % m);
            vstd::arithmetic::div_mod::lemma_mod_twice(r, m);
            match op {
                BinOp::Add => vstd::arithmetic::div_mod::lemma_add_mod_noop(a as int, b as int, m),
                BinOp::Sub => vstd::arithmetic::div_mod::lemma_sub_mod_noop(a as int, b as int, m),
                BinOp::Mul => vstd::arithmetic::div_mod::lemma_mul_mod_noop(a as int, b as int, m),
            }
        }
    }
}

/// Appending an operation on two constants stores a constant: the one that the operation
/// computes on them, modulo `q`, is found at the index the append gives.
pub proof fn lemma_constant_operands_fold(items: Seq<Expr>, q: SupportedType, op: BinOp, lhs: ExprIdx, rhs: ExprIdx, a: u64, b: u64)
    requires
        append_ok(items, q, Expr::BinOp(op, lhs, rhs)),
        items[lhs as int] == Expr::Const(a),
        items[rhs as int] == Expr::Const(b),
    ensures
        appended(items, q, Expr::BinOp(op, lhs, rhs))[appended_index(items, q, Expr::BinOp(op, lhs, rhs))]
            == Expr::Const((apply_op(op, a as int, b as int) % (q as int)) as u64),
{
    let c = Expr::Const((apply_op(op, a as int, b as int) % (q as int)) as u64);
    let e = Expr::BinOp(op, lhs, rhs);
    assert(spec_fold(e, items, q) == c);
    if exists|i: int| 0 <= i < items.len() && items[i].spec_key() == c.spec_key() {
        let i = choose|i: int| 0 <= i < items.len() && items[i].spec_key() == c.spec_key();
        assert(intern_index(items, c) == i);
        lemma_hash_key_injective(spec_expr_hash(items[i]), spec_expr_hash(c));
        assert(items[i] == c);
    } else {
        assert(appended(items, q, e)[items.len() as int] == c);
    }
}

/// The index an appended expression gets stands for what the expression stands for: an input
/// for its value, a constant for itself, and an operation for the operation applied to what
/// its operands stand for, modulo `q`; whether it is folded, stored anew or found stored.
pub proof fn lemma_appended_value(items: Seq<Expr>, q: SupportedType, e: Expr, with: Seq<u64>)
    requires
        exprs_wf(items),
        append_ok(items, q, e),
    ensures
        expr_value(appended(items, q, e), with, q, appended_index(items, q, e)) == value_in(items, with, q, e),
{
    let folded = spec_fold(e, items, q);
    lemma_fold_keeps_value(items, with, q, e);
    if exists|i: int| 0 <= i < items.len() && items[i].spec_key() == folded.spec_key() {
        let i = choose|i: int| 0 <= i < items.len() && items[i].spec_key() == folded.spec_key();
        lemma_hash_key_injective(spec_expr_hash(items[i]), spec_expr_hash(folded));
        lemma_value_at(items, with, q, i);
        lemma_same_form_same_value(items, with, q, items[i], folded);
    } else {
        let n = items.len() as int;
        let pushed = items.push(folded);
        assert(pushed[n] == folded);
        if let Expr::BinOp(_, lhs, rhs) = folded {
            lemma_push_keeps_value(items, folded, with, q, lhs as int);
            lemma_push_keeps_value(items, folded, with, q, rhs as int);
        }
    }
}

/// Appending keeps what every expression stored before stands for.
pub proof fn lemma_append_keeps_values(items: Seq<Expr>, q: SupportedType, e: Expr, with: Seq<u64>)
    requires
        append_ok(items, q, e),
    ensures
        forall|i: int|
            0 <= i < items.len() ==> #[trigger] expr_value(appended(items, q, e), with, q, i) == expr_value(
                items,
                with,
                q,
                i,
            ),
{
    assert forall|i: int| 0 <= i < items.len() implies #[trigger] expr_value(appended(items, q, e), with, q, i)
        == expr_value(items, with, q, i) by {
        lemma_push_keeps_value(items, spec_fold(e, items, q), with, q, i);
    }
}

/// Appending an expression a second time stores nothing and gives the same index.
pub proof fn lemma_append_twice(items: Seq<Expr>, q: SupportedType, e: Expr)
    requires
        append_ok(items, q, e),
    ensures
        appended(appended(items, q, e), q, e) == appended(items, q, e),
        appended_index(appended(items, q, e), q, e) == appended_index(items, q, e),
{
    lemma_commuted_append(items, q, e, e);
}

/// Once `a` is appended, appending `b`, which folds to the same canonical form (`b + a` after
/// `a + b`), stores nothing and gives the index of `a`.
pub proof fn lemma_commuted_append(items: Seq<Expr>, q: SupportedType, a: Expr, b: Expr)
    requires
        append_ok(items, q, a),
        append_ok(items, q, b),
        spec_fold(a, items, q).spec_key() == spec_fold(b, items, q).spec_key(),
    ensures
        appended(appended(items, q, a), q, b) == appended(items, q, a),
        appended_index(appended(items, q, a), q, b) == appended_index(items, q, a),
{
    let fa = spec_fold(a, items, q);
    let items1 = appended(items, q, a);
    assert(spec_fold(b, items1, q) == spec_fold(b, items, q)) by {
        if let Expr::BinOp(_, lhs, rhs) = b {
            if items1 != items {
                assert(items1[lhs as int] == items[lhs as int]);
                assert(items1[rhs as int] == items[rhs as int]);
            }
        }
    }
    let fb = spec_fold(b, items1, q);
    if exists|i: int| 0 <= i < items.len() && items[i].spec_key() == fa.spec_key() {
    } else {
        let n = items.len() as int;
        assert(items1[n] == fa);
        assert(exists|i: int| 0 <= i < items1.len() && items1[i].spec_key() == fb.spec_key());
        let j = choose|i: int| 0 <= i < items1.len() && items1[i].spec_key() == fb.spec_key();
        if j < n {
            assert(items1[j] == items[j]);
        }
    }
}

/// Operations that commute: appending `b op a` after `a op b` gives the same index.
pub proof fn lemma_commuted_operation(items: Seq<Expr>, q: SupportedType, op: BinOp, lhs: ExprIdx, rhs: ExprIdx)
    requires
        op.spec_commutative(),
        append_ok(items, q, Expr::BinOp(op, lhs, rhs)),
    ensures
        appended(appended(items, q, Expr::BinOp(op, lhs, rhs)), q, Expr::BinOp(op, rhs, lhs)) == appended(
            items,
            q,
            Expr::BinOp(op, lhs, rhs),
        ),
        appended_index(appended(items, q, Expr::BinOp(op, lhs, rhs)), q, Expr::BinOp(op, rhs, lhs)) == appended_index(
            items,
            q,
            Expr::BinOp(op, lhs, rhs),
        ),
{
    let a = Expr::BinOp(op, lhs, rhs);
    let b = Expr::BinOp(op, rhs, lhs);
    if let (Expr::Const(x), Expr::Const(y)) = (items[lhs as int], items[rhs as int]) {
        vstd::arithmetic::mul::lemma_mul_is_commutative(x as int, y as int);
    }
    lemma_commuted_append(items, q, a, b);
}

/// The edges of the expression graph among the first `n` expressions, operand to operation, in
/// index order (left operand first).
pub open spec fn expr_edges(items: Seq<Expr>, n: int) -> Seq<(u32, u32)>
    decreases n,
{
    if n <= 0 {
        Seq::empty()
    } else {
        match items[n - 1] {
            Expr::BinOp(_, lhs, rhs) => expr_edges(items, n - 1).push((lhs, (n - 1) as u32)).push(
                (rhs, (n - 1) as u32),
            ),
            _ => expr_edges(items, n - 1),
        }
    }
}

/// Expressions registered for compilation: folded as they come and hash-consed, so that an
/// expression equal to an earlier one is not stored twice.
#[derive(Debug)]
pub struct Context {
    q: SupportedType,
    mode: CompilationMode,
    arena: Arena<Expr>,
    interner: Interner,
}

impl View for Context {
    type V = ContextView;

    closed spec fn view(&self) -> ContextView {
        ContextView { q: self.q, mode: self.mode, exprs: expr_arena_items(self.arena) }
    }
}

impl Context {
    /// A context is well-formed: its graph is topologically ordered and its interner indexes
    /// exactly its expressions. Every context the library hands out is.
    pub open spec fn wf(&self) -> bool {
        &&& exprs_wf(self@.exprs)
        &&& self.interner_ok()
    }

    /// A context never stores two expressions with the same canonical form.
    pub proof fn lemma_stored_once(&self)
        requires
            self.wf(),
        ensures
            forall|i: int, j: int|
                0 <= i < self@.exprs.len() && 0 <= j < self@.exprs.len() && spec_expr_hash(#[trigger] self@.exprs[i])
                    == spec_expr_hash(#[trigger] self@.exprs[j]) ==> i == j,
    {
        let items = self@.exprs;
        assert forall|i: int, j: int|
            0 <= i < items.len() && 0 <= j < items.len() && spec_expr_hash(#[trigger] items[i]) == spec_expr_hash(
                #[trigger] items[j],
            ) implies i == j by {
            assert(items[i].spec_key() == items[j].spec_key());
            lemma_interned_keys_distinct(self.interner.view(), items, i, j);
        }
    }

    /// The interner indexes exactly the stored expressions.
    pub closed spec fn interner_ok(self) -> bool {
        interned(self.interner.view(), expr_arena_items(self.arena))
    }

    pub fn new(q: SupportedType, mode: CompilationMode) -> (ctx: Self)
        ensures
            ctx.wf(),
            ctx@.q == q,
            ctx@.mode == mode,
            ctx@.exprs == Seq::<Expr>::empty(),
    {
        let arena = expr_arena_new();
        let interner = Interner::new();
        Self { q, mode, arena, interner }
    }

    pub fn q(&self) -> (q: SupportedType)
        ensures
            q == self@.q,
    {
        self.q
    }

    pub fn mode(&self) -> (m: CompilationMode)
        ensures
            m == self@.mode,
    {
        self.mode
    }

    pub fn len(&self) -> (n: usize)
        ensures
            n == self@.exprs.len(),
    {
        expr_arena_len(&self.arena)
    }

    /// The expression at index `ix`.
    pub fn get(&self, ix: ExprIdx) -> (e: Expr)
        requires
            ix < self@.exprs.len(),
        ensures
            e == self@.exprs[ix as int],
    {
        expr_arena_get(&self.arena, ix)
    }

    /// Folds `expr` and stores it, unless an equal expression is already stored; returns the
    /// index of the stored expression.
    pub fn append(&mut self, expr: Expr) -> (idx: ExprIdx)
        requires
            old(self).wf(),
            append_ok(old(self)@.exprs, old(self)@.q, expr),
        ensures
            final(self).wf(),
            final(self)@.q == old(self)@.q,
            final(self)@.mode == old(self)@.mode,
            final(self)@.exprs == appended(old(self)@.exprs, old(self)@.q, expr),
            idx == appended_index(old(self)@.exprs, old(self)@.q, expr),
            idx < final(self)@.exprs.len(),
            forall|with: Seq<u64>|
                #[trigger] expr_value(final(self)@.exprs, with, old(self)@.q, idx as int) == value_in(
                    old(self)@.exprs,
                    with,
                    old(self)@.q,
                    expr,
                ),
    {
        let ghost items = expr_arena_items(self.arena);
        let folded = fold(expr, &mut self.arena, self.q);
        let idx = self.interner.intern(folded, &mut self.arena);
        proof {
            let new_items = expr_arena_items(self.arena);
            if !(exists|i: int| 0 <= i < items.len() && items[i].spec_key() == folded.spec_key()) {
                assert(new_items == items.push(folded));
                assert forall|i: int| 0 <= i < new_items.len() implies match #[trigger] new_items[i] {
                    Expr::BinOp(_, lhs, rhs) => lhs < i && rhs < i,
                    _ => true,
                } by {
                    if i < items.len() {
                        assert(new_items[i] == items[i]);
                    }
                }
            } else {
                let c = choose|i: int| 0 <= i < items.len() && items[i].spec_key() == folded.spec_key();
                assert(idx == c);
            }
            assert forall|with: Seq<u64>| #[trigger] expr_value(expr_arena_items(self.arena), with, self.q, idx as int)
                == value_in(items, with, self.q, expr) by {
                lemma_appended_value(items, self.q, expr, with);
            }
        }
        idx
    }

    /// Registers the input with the given index.
    pub fn input(&mut self, index: usize) -> (idx: ExprIdx)
        requires
            old(self).wf(),
            old(self)@.exprs.len() < u32::MAX,
        ensures
            final(self).wf(),
            final(self)@.q == old(self)@.q,
            final(self)@.mode == old(self)@.mode,
            final(self)@.exprs == appended(old(self)@.exprs, old(self)@.q, Expr::Input(index)),
            idx == appended_index(old(self)@.exprs, old(self)@.q, Expr::Input(index)),
            idx < final(self)@.exprs.len(),
            forall|with: Seq<u64>|
                #[trigger] expr_value(final(self)@.exprs, with, old(self)@.q, idx as int) == value_in(
                    old(self)@.exprs,
                    with,
                    old(self)@.q,
                    Expr::Input(index),
                ),
    {
        self.append(Expr::Input(index))
    }

    /// Registers a constant.
    pub fn constant(&mut self, value: SupportedType) -> (idx: ExprIdx)
        requires
            old(self).wf(),
            old(self)@.exprs.len() < u32::MAX,
        ensures
            final(self).wf(),
            final(self)@.q == old(self)@.q,
            final(self)@.mode == old(self)@.mode,
            final(self)@.exprs == appended(old(self)@.exprs, old(self)@.q, Expr::Const(value)),
            idx == appended_index(old(self)@.exprs, old(self)@.q, Expr::Const(value)),
            idx < final(self)@.exprs.len(),
            forall|with: Seq<u64>|
                #[trigger] expr_value(final(self)@.exprs, with, old(self)@.q, idx as int) == value_in(
                    old(self)@.exprs,
                    with,
                    old(self)@.q,
                    Expr::Const(value),
                ),
    {
        self.append(Expr::Const(value))
    }

    /// Registers `lhs op rhs` (folded when both are constants).
    pub fn bin_op(&mut self, op: BinOp, lhs: ExprIdx, rhs: ExprIdx) -> (idx: ExprIdx)
        requires
            old(self).wf(),
            append_ok(old(self)@.exprs, old(self)@.q, Expr::BinOp(op, lhs, rhs)),
        ensures
            final(self).wf(),
            final(self)@.q == old(self)@.q,
            final(self)@.mode == old(self)@.mode,
            final(self)@.exprs == appended(old(self)@.exprs, old(self)@.q, Expr::BinOp(op, lhs, rhs)),
            idx == appended_index(old(self)@.exprs, old(self)@.q, Expr::BinOp(op, lhs, rhs)),
            (old(self)@.exprs[lhs as int], old(self)@.exprs[rhs as int]) matches (Expr::Const(a), Expr::Const(b))
                ==> final(self)@.exprs[idx as int] == Expr::Const(
                (apply_op(op, a as int, b as int) % (old(self)@.q as int)) as u64,
            ),
            forall|with: Seq<u64>|
                #[trigger] expr_value(final(self)@.exprs, with, old(self)@.q, idx as int) == apply_op(
                    op,
                    expr_value(old(self)@.exprs, with, old(self)@.q, lhs as int),
                    expr_value(old(self)@.exprs, with, old(self)@.q, rhs as int),
                ) % (old(self)@.q as int),
    {
        let ghost items = self@.exprs;
        let idx = self.append(Expr::BinOp(op, lhs, rhs));
        proof {
            if let (Expr::Const(a), Expr::Const(b)) = (items[lhs as int], items[rhs as int]) {
                lemma_constant_operands_fold(items, self@.q, op, lhs, rhs, a, b);
            }
        }
        idx
    }

    /// The edges of the expression graph, from each operand to the operation on it, and the
    /// expressions that no operation uses.
    pub fn into_edges_and_unused(&self) -> (r: (ThinVec<(u32, u32)>, IndexSet))
        requires
            self.wf(),
        ensures
            edge_list_items(r.0) == expr_edges(self@.exprs, self@.exprs.len() as int),
            forall|x: usize|
                #[trigger] bit_set_items(r.1).contains(x) <==> x < self@.exprs.len() && !used_by_an_operation(
                    self@.exprs,
                    self@.exprs.len() as int,
                    x,
                ),
    {
        let mut edges: Vec<(u32, u32)> = Vec::new();
        let mut unused = self.create_set_of_all_indices();
        let len = self.len();
        let ghost items = self@.exprs;
        let mut i: usize = 0;
        while i < len
            invariant
                self.wf(),
                items == self@.exprs,
                len == items.len(),
                i <= len,
                edges@ == expr_edges(items, i as int),
                forall|x: usize|
                    #[trigger] bit_set_items(unused).contains(x) <==> x < len && !used_by_an_operation(items, i as int, x),
            decreases len - i,
        {
            let expr_u32 = i as u32;
            let expr = self.get(expr_u32);
            match expr {
                Expr::BinOp(_, lhs, rhs) => {
                    bit_set_remove(&mut unused, lhs as usize);
                    bit_set_remove(&mut unused, rhs as usize);
                    edges.push((lhs, expr_u32));
                    edges.push((rhs, expr_u32));
                },
                _ => {},
            }
            proof {
                assert forall|x: usize|
                    #[trigger] bit_set_items(unused).contains(x) <==> x < len && !used_by_an_operation(items, i + 1, x) by {
                    if used_by_an_operation(items, i as int, x) {
                        let j = choose|j: int| 0 <= j < i && #[trigger] operand_of(items[j], x);
                        assert(0 <= j < i + 1 && operand_of(items[j], x));
                    }
                    if operand_of(items[i as int], x) {
                        assert(used_by_an_operation(items, i + 1, x));
                    } else if used_by_an_operation(items, i + 1, x) {
                        let j = choose|j: int| 0 <= j < i + 1 && #[trigger] operand_of(items[j], x);
                        assert(j != i);
                        assert(used_by_an_operation(items, i as int, x));
                    }
                }
            }
            i = i + 1;
        }
        (edge_list_from_vec(edges), unused)
    }

    /// The set of the indices of all expressions.
    pub(crate) fn create_set_of_all_indices(&self) -> (set: IndexSet)
        requires
            self.wf(),
        ensures
            forall|x: usize| #[trigger] bit_set_items(set).contains(x) <==> x < self@.exprs.len(),
    {
        let mut set = bit_set_new();
        let len = self.len();
        let mut i: usize = 0;
        while i < len
            invariant
                i <= len,
                len == self@.exprs.len(),
                len <= u32::MAX,
                forall|x: usize| #[trigger] bit_set_items(set).contains(x) <==> x < i,
            decreases len - i,
        {
            bit_set_insert(&mut set, i);
            i = i + 1;
        }
        set
    }
}

} // verus!
