//! The DSL: expressions built in a context, folded and hash-consed as they are appended, and
//! compiled into circuits.
use vstd::prelude::*;

use crate::dsl::compilation_mode::{flags_of_list, CompilationMode, Strictness, StrictnessOn};
use crate::dsl::ctx::Context;
use crate::dsl::expr::Expr;
use crate::ir::SupportedType;

pub mod expr;
pub mod compilation_mode;
pub mod folding;
pub mod ctx;
pub mod compile;

verus! {

/// A context strict on unused inputs and operations, but not on constants, which folding
/// leaves behind.
pub fn new_folding_strict_context(q: SupportedType) -> (ctx: Context)
    ensures
        ctx.wf(),
        ctx@.q == q,
        ctx@.mode == CompilationMode::Strict(Strictness(5)),
        ctx@.exprs == Seq::<Expr>::empty(),
{
    let on = [StrictnessOn::Input, StrictnessOn::Op];
    let strictness = Strictness::from(on.as_slice());
    proof {
        let l = on@;
        assert(l.drop_last().drop_last() =~= Seq::<StrictnessOn>::empty());
        assert(l.drop_last() =~= seq![StrictnessOn::Input]);
        reveal_with_fuel(flags_of_list, 3);
        assert(0u8 | 1u8 == 1u8) by (bit_vector);
        assert(1u8 | 4u8 == 5u8) by (bit_vector);
        assert(flags_of_list(l) == 5);
    }
    let mode = CompilationMode::with(strictness);
    Context::new(q, mode)
}

/// A context strict on all unused expressions.
pub fn new_strict_context(q: SupportedType) -> (ctx: Context)
    ensures
        ctx.wf(),
        ctx@.q == q,
        ctx@.mode == CompilationMode::StrictAll,
        ctx@.exprs == Seq::<Expr>::empty(),
{
    let mode = CompilationMode::StrictAll;
    Context::new(q, mode)
}

/// A context that drops unused expressions silently.
pub fn new_loose_context(q: SupportedType) -> (ctx: Context)
    ensures
        ctx.wf(),
        ctx@.q == q,
        ctx@.mode == CompilationMode::Loose,
        ctx@.exprs == Seq::<Expr>::empty(),
{
    let mode = CompilationMode::Loose;
    Context::new(q, mode)
}

} // verus!
