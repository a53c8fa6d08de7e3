use vstd::prelude::*;

use la_arena::Arena;

use crate::arena::{expr_arena_get, expr_arena_items};
use crate::dsl::expr::Expr;
use crate::ir::{apply_op, SupportedType};

verus! {

/// An operation on two constants becomes the constant it computes, modulo `q`; any other
/// expression stays as it is.
pub open spec fn spec_fold(expr: Expr, items: Seq<Expr>, q: SupportedType) -> Expr {
    match expr {
        Expr::BinOp(op, lhs, rhs) => match (items[lhs as int], items[rhs as int]) {
            (Expr::Const(a), Expr::Const(b)) => Expr::Const((apply_op(op, a as int, b as int) % (q as int)) as u64),
            _ => expr,
        },
        _ => expr,
    }
}

/// The operands of an operation are in the arena, and folding two constants neither divides
/// by zero nor leaves the `u64` range before the reduction.
pub open spec fn fold_ok(expr: Expr, items: Seq<Expr>, q: SupportedType) -> bool {
    match expr {
        Expr::BinOp(op, lhs, rhs) => {
            &&& lhs < items.len()
            &&& rhs < items.len()
            &&& match (items[lhs as int], items[rhs as int]) {
                (Expr::Const(a), Expr::Const(b)) => q > 0 && 0 <= apply_op(op, a as int, b as int) <= u64::MAX,
                _ => true,
            }
        },
        _ => true,
    }
}

/// Folds an operation on two constants.
pub fn fold(expr: Expr, arena: &mut Arena<Expr>, q: SupportedType) -> (folded: Expr)
    requires
        fold_ok(expr, expr_arena_items(*old(arena)), q),
    ensures
        folded == spec_fold(expr, expr_arena_items(*old(arena)), q),
        expr_arena_items(*final(arena)) == expr_arena_items(*old(arena)),
        (match expr {
            Expr::BinOp(op, l, r) => match (expr_arena_items(*old(arena))[l as int], expr_arena_items(*old(arena))[r as int]) {
                (Expr::Const(a), Expr::Const(b)) => folded == Expr::Const((apply_op(op, a as int, b as int) % (q as int)) as u64),
                _ => folded == expr,
            },
            _ => folded == expr,
        }),
{
    match expr {
        Expr::Input(_) | Expr::Const(_) => expr,
        Expr::BinOp(bin_op, lhs_idx, rhs_idx) => {
            let lhs = expr_arena_get(arena, lhs_idx);
            let rhs = expr_arena_get(arena, rhs_idx);
            if let Expr::Const(lhs_value) = lhs {
                if let Expr::Const(rhs_value) = rhs {
                    let result = match bin_op {
                        crate::op::BinOp::Add => (lhs_value + rhs_value) % q,
                        crate::op::BinOp::Sub => (lhs_value - rhs_value) % q,
                        crate::op::BinOp::Mul => (lhs_value * rhs_value) % q,
                    };
                    return Expr::Const(result);
                }
            }
            expr
        },
    }
}

} // verus!
