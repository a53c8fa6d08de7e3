//! The index arena of `la_arena`, which holds the gates of a circuit and the expressions of a
//! DSL context. Verus sees an arena through the sequence of values it holds.
use vstd::prelude::*;

use la_arena::{Arena, Idx, RawIdx};

use crate::dsl::expr::Expr;
use crate::ir::Gate;

verus! {

#[verifier::external_type_specification]
#[verifier::external_body]
#[verifier::reject_recursive_types(T)]
pub struct ExArena<T>(Arena<T>);

/// The gates an arena holds, in allocation order: gate `i` stands at position `i`.
pub uninterp spec fn gate_arena_items(arena: Arena<Gate>) -> Seq<Gate>;

/// The expressions an arena holds, in allocation order.
pub uninterp spec fn expr_arena_items(arena: Arena<Expr>) -> Seq<Expr>;

/// `Arena::new`: an arena that holds nothing.
#[verifier::external_body]
pub(crate) fn gate_arena_new() -> (arena: Arena<Gate>)
    ensures
        gate_arena_items(arena) == Seq::<Gate>::empty(),
{
    Arena::new()
}

/// `Arena::with_capacity`: an arena that holds nothing, with room reserved.
#[verifier::external_body]
pub(crate) fn gate_arena_with_capacity(capacity: usize) -> (arena: Arena<Gate>)
    ensures
        gate_arena_items(arena) == Seq::<Gate>::empty(),
{
    Arena::with_capacity(capacity)
}

/// `Arena::len`: the number of gates held.
#[verifier::external_body]
pub(crate) fn gate_arena_len(arena: &Arena<Gate>) -> (n: usize)
    ensures
        n == gate_arena_items(*arena).len(),
{
    arena.len()
}

/// `Index<Idx<Gate>>` on an arena: gate `i` (its raw index is `i`).
#[verifier::external_body]
pub(crate) fn gate_arena_get(arena: &Arena<Gate>, i: u32) -> (gate: Gate)
    requires
        i < gate_arena_items(*arena).len(),
    ensures
        gate == gate_arena_items(*arena)[i as int],
{
    arena[Idx::from_raw(RawIdx::from_u32(i))]
}

/// `IndexMut<Idx<Gate>>` on an arena: overwrites gate `i`, nothing else changes.
#[verifier::external_body]
pub(crate) fn gate_arena_set(arena: &mut Arena<Gate>, i: u32, gate: Gate)
    requires
        i < gate_arena_items(*old(arena)).len(),
    ensures
        gate_arena_items(*final(arena)) == gate_arena_items(*old(arena)).update(i as int, gate),
{
    arena[Idx::from_raw(RawIdx::from_u32(i))] = gate;
}

/// `Arena::alloc`: appends a gate and returns its raw index, the former length cast to `u32`.
/// The arena's vector cannot grow past `isize::MAX` bytes (its push panics first), so its
/// length stays within `isize::MAX`.
#[verifier::external_body]
pub(crate) fn gate_arena_alloc(arena: &mut Arena<Gate>, gate: Gate) -> (i: u32)
    ensures
        i == gate_arena_items(*old(arena)).len() as u32,
        gate_arena_items(*final(arena)) == gate_arena_items(*old(arena)).push(gate),
        gate_arena_items(*final(arena)).len() <= isize::MAX,
{
    arena.alloc(gate).into_raw().into_u32()
}

/// `Clone` of an arena, which clones each (copyable) gate.
#[verifier::external_body]
pub(crate) fn gate_arena_clone(arena: &Arena<Gate>) -> (copy: Arena<Gate>)
    ensures
        gate_arena_items(copy) == gate_arena_items(*arena),
{
    arena.clone()
}

/// `Arena::new` for expressions.
#[verifier::external_body]
pub(crate) fn expr_arena_new() -> (arena: Arena<Expr>)
    ensures
        expr_arena_items(arena) == Seq::<Expr>::empty(),
{
    Arena::new()
}

/// `Arena::len` for expressions.
#[verifier::external_body]
pub(crate) fn expr_arena_len(arena: &Arena<Expr>) -> (n: usize)
    ensures
        n == expr_arena_items(*arena).len(),
{
    arena.len()
}

/// `Index<Idx<Expr>>` for expressions.
#[verifier::external_body]
pub(crate) fn expr_arena_get(arena: &Arena<Expr>, i: u32) -> (expr: Expr)
    requires
        i < expr_arena_items(*arena).len(),
    ensures
        expr == expr_arena_items(*arena)[i as int],
{
    arena[Idx::from_raw(RawIdx::from_u32(i))]
}

/// `Arena::alloc` for expressions.
#[verifier::external_body]
pub(crate) fn expr_arena_alloc(arena: &mut Arena<Expr>, expr: Expr) -> (i: u32)
    requires
        expr_arena_items(*old(arena)).len() < u32::MAX,
    ensures
        i == expr_arena_items(*old(arena)).len(),
        expr_arena_items(*final(arena)) == expr_arena_items(*old(arena)).push(expr),
{
    arena.alloc(expr).into_raw().into_u32()
}

} // verus!
