use vstd::prelude::*;

verus! {

/// The binary operations a gate or an expression may apply.
#[derive(Clone, Copy, Debug, PartialEq, Eq, Structural, Hash, PartialOrd, Ord)]
pub enum BinOp {
    Add,
    Sub,
    Mul,
}

impl BinOp {
    /// Addition and multiplication associate; subtraction does not.
    pub open spec fn spec_associative(self) -> bool {
        self is Add || self is Mul
    }

    /// Addition and multiplication commute; subtraction does not.
    pub open spec fn spec_commutative(self) -> bool {
        self is Add || self is Mul
    }

    /// Multiplication binds tighter than addition and subtraction.
    pub open spec fn spec_precedence(self) -> usize {
        match self {
            BinOp::Add | BinOp::Sub => 0,
            BinOp::Mul => 1,
        }
    }

    pub fn is_associative(&self) -> (r: bool)
        ensures
            r == self.spec_associative(),
    {
        match self {
            BinOp::Add | BinOp::Mul => true,
            BinOp::Sub => false,
        }
    }

    pub fn is_commutative(&self) -> (r: bool)
        ensures
            r == self.spec_commutative(),
    {
        match self {
            BinOp::Add | BinOp::Mul => true,
            BinOp::Sub => false,
        }
    }

    pub fn precedence(&self) -> (r: usize)
        ensures
            r == self.spec_precedence(),
    {
        match self {
            BinOp::Add | BinOp::Sub => 0,
            BinOp::Mul => 1,
        }
    }
}

} // verus!
