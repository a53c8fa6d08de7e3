use vstd::prelude::*;

use crate::ir::{hash_key, hash_key_into, hash_key_of, GateHash, SupportedType};
use crate::op::BinOp;
use crate::passes::interner::Internable;
use vstd::std_specs::convert::FromSpecImpl;

verus! {

/// The raw index of an expression in its context's arena.
pub type ExprIdx = u32;

/// A node of the expression graph of a context.
#[derive(Clone, Copy, Debug)]
pub enum Expr {
    Input(usize),
    Const(SupportedType),
    BinOp(BinOp, ExprIdx, ExprIdx),
}

/// The canonical form of an expression, shared with gates: the operands of `+` and `*` are
/// ordered, subtraction keeps its order.
pub type ExprHash = GateHash;

pub open spec fn spec_expr_hash(expr: Expr) -> ExprHash {
    match expr {
        Expr::Input(index) => GateHash::Input(index),
        Expr::Const(v) => GateHash::Const(v),
        Expr::BinOp(op, lhs, rhs) => {
            if op == BinOp::Sub || lhs <= rhs {
                GateHash::BinOp(op, lhs, rhs)
            } else {
                GateHash::BinOp(op, rhs, lhs)
            }
        },
    }
}

pub fn expr_hash(expr: &Expr) -> (h: ExprHash)
    ensures
        h == spec_expr_hash(*expr),
{
    match expr {
        Expr::Input(index) => GateHash::Input(*index),
        Expr::Const(v) => GateHash::Const(*v),
        Expr::BinOp(op, lhs, rhs) => {
            if *op == BinOp::Sub || *lhs <= *rhs {
                GateHash::BinOp(*op, *lhs, *rhs)
            } else {
                GateHash::BinOp(*op, *rhs, *lhs)
            }
        },
    }
}

/// Expressions are equal when their canonical forms are: `a + b` equals `b + a`.
impl PartialEq for Expr {
    fn eq(&self, other: &Self) -> (r: bool) {
        expr_hash(self) == expr_hash(other)
    }
}

impl vstd::std_specs::cmp::PartialEqSpecImpl for Expr {
    open spec fn obeys_eq_spec() -> bool {
        true
    }

    open spec fn eq_spec(&self, other: &Expr) -> bool {
        spec_expr_hash(*self) == spec_expr_hash(*other)
    }
}

impl Eq for Expr {
}

/// Expressions hash by the key of their canonical form, as they compare.
impl std::hash::Hash for Expr {
    fn hash<H: std::hash::Hasher>(&self, state: &mut H) {
        hash_key_into(hash_key_of(&expr_hash(self)), state)
    }
}

impl From<&Expr> for ExprHash {
    fn from(expr: &Expr) -> (h: ExprHash) {
        expr_hash(expr)
    }
}

impl FromSpecImpl<&Expr> for ExprHash {
    open spec fn obeys_from_spec() -> bool {
        true
    }

    open spec fn from_spec(expr: &Expr) -> ExprHash {
        spec_expr_hash(*expr)
    }
}

impl From<Expr> for ExprHash {
    fn from(expr: Expr) -> (h: ExprHash) {
        expr_hash(&expr)
    }
}

impl FromSpecImpl<Expr> for ExprHash {
    open spec fn obeys_from_spec() -> bool {
        true
    }

    open spec fn from_spec(expr: Expr) -> ExprHash {
        spec_expr_hash(expr)
    }
}

impl Internable for Expr {
    open spec fn spec_key(&self) -> u128 {
        hash_key(spec_expr_hash(*self))
    }

    fn intern_key(&self) -> (k: u128) {
        hash_key_of(&expr_hash(self))
    }
}

} // verus!
