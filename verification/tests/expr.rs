use fhe_dsl::dsl::ctx::Context;
use fhe_dsl::dsl::compilation_mode::CompilationMode;
use fhe_dsl::dsl::expr::{expr_hash, Expr};
use fhe_dsl::ir::hash_key_of;
use fhe_dsl::op::BinOp;
use std::collections::HashSet;

fn test_ctx_handle() -> Context {
    Context::new(7, CompilationMode::StrictAll)
}

#[test]
fn test_var() {
    let mut ctx = test_ctx_handle();
    let value = 9;
    let var = ctx.input(value);
    assert_eq!(var, 0);
    assert_eq!(ctx.get(var), Expr::Input(value));
}

#[test]
fn test_constant() {
    let mut ctx = test_ctx_handle();
    let value = 9;
    let constant = ctx.constant(value);
    assert_eq!(constant, 0);
    assert_eq!(ctx.get(constant), Expr::Const(value));
}

#[test]
fn test_hash_consing_for_values() {
    let mut ctx = test_ctx_handle();
    let constant_value = 9;
    let constant = ctx.constant(constant_value);
    let expected_length_for_constant = ctx.len();
    assert_eq!(constant, 0);

    let same_constant = ctx.constant(constant_value);
    assert_eq!(same_constant, 0);
    assert_eq!(ctx.len(), expected_length_for_constant);

    let var_value = 8;
    let variable = ctx.input(var_value);
    let expected_length_for_var = ctx.len();
    assert_eq!(variable, 1);

    let same_var = ctx.input(var_value);
    assert_eq!(same_var, 1);
    assert_eq!(ctx.len(), expected_length_for_var);
}

#[test]
fn hash_same_data_same_hash_for_ac() {
    let mut hash_set = HashSet::new();
    for bin_op in [BinOp::Add, BinOp::Mul] {
        let expr = Expr::BinOp(bin_op, 0, 1);
        let expr_swapped = Expr::BinOp(bin_op, 1, 0);
        hash_set.insert(expr);
        assert!(hash_set.contains(&expr_swapped));
        assert_eq!(hash_key_of(&expr_hash(&expr)), hash_key_of(&expr_hash(&expr_swapped)));
    }
}

#[test]
fn hash_same_data_same_hash_for_non_ac() {
    let expr = Expr::BinOp(BinOp::Sub, 0, 1);
    let expr_swapped = Expr::BinOp(BinOp::Sub, 1, 0);
    let mut hash_set = HashSet::new();
    hash_set.insert(expr);
    assert!(!hash_set.contains(&expr_swapped));
}

#[test]
fn commuted_operation_is_hash_consed() {
    let mut ctx = test_ctx_handle();
    let a = ctx.input(0);
    let b = ctx.input(1);
    let ab = ctx.bin_op(BinOp::Add, a, b);
    let ba = ctx.bin_op(BinOp::Add, b, a);
    assert_eq!(ab, ba);
    let a_minus_b = ctx.bin_op(BinOp::Sub, a, b);
    let b_minus_a = ctx.bin_op(BinOp::Sub, b, a);
    assert_ne!(a_minus_b, b_minus_a);
    assert_eq!(5, ctx.len());
}

#[test]
fn operations_on_constants_fold_modulo_q() {
    let mut ctx = test_ctx_handle();
    let c1 = ctx.constant(5);
    let c2 = ctx.constant(4);
    let sum = ctx.bin_op(BinOp::Add, c1, c2);
    assert_eq!(Expr::Const(2), ctx.get(sum));
    let product = ctx.bin_op(BinOp::Mul, c1, c2);
    assert_eq!(Expr::Const(6), ctx.get(product));
    let difference = ctx.bin_op(BinOp::Sub, c1, c2);
    assert_eq!(Expr::Const(1), ctx.get(difference));
}

#[test]
fn appending_keeps_earlier_expressions() {
    let mut ctx = test_ctx_handle();
    let a = ctx.input(0);
    let c = ctx.constant(3);
    let before = (ctx.get(a), ctx.get(c));
    let sum = ctx.bin_op(BinOp::Add, a, c);
    let _product = ctx.bin_op(BinOp::Mul, sum, c);
    assert_eq!(before, (ctx.get(a), ctx.get(c)));
    assert_eq!(Expr::BinOp(BinOp::Add, a, c), ctx.get(sum));
}

#[test]
fn edges_and_unused_of_the_graph() {
    let mut ctx = test_ctx_handle();
    let a = ctx.input(0);
    let b = ctx.input(1);
    let sum = ctx.bin_op(BinOp::Add, a, b);
    let _product = ctx.bin_op(BinOp::Mul, sum, a);
    let (edges, unused) = ctx.into_edges_and_unused();
    assert_eq!(&[(0u32, 2u32), (1, 2), (2, 3), (0, 3)][..], edges.as_slice());
    // Only the product is the operand of no operation.
    assert!(!unused.contains(0) && !unused.contains(1) && !unused.contains(2));
    assert!(unused.contains(3));
    assert!(!unused.contains(4));
}
