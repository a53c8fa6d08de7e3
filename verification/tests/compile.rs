use fhe_dsl::backend::plain::PlainModQBackend;
use fhe_dsl::backend::Backend;
use fhe_dsl::dsl::compilation_mode::{CompilationMode, Strictness};
use fhe_dsl::dsl::compile::CompilationResult;
use fhe_dsl::dsl::ctx::Context;
use fhe_dsl::dsl::expr::ExprIdx;
use fhe_dsl::dsl::{new_folding_strict_context, new_loose_context, new_strict_context};
use fhe_dsl::ir::Gate;
use fhe_dsl::op::BinOp;
use la_arena::{Idx, RawIdx};

fn test_ctx_handle() -> Context {
    new_strict_context(7)
}

fn test_loose_ctx_handle() -> Context {
    new_loose_context(5)
}

fn test_folding_ctx_handle() -> Context {
    new_folding_strict_context(11)
}

fn into_gate_idx(idx: u32) -> Idx<Gate> {
    Idx::from_raw(RawIdx::from_u32(idx))
}

#[test]
fn test_single_addition_with_same_constants_loose_also_folds() {
    let mut ctx = test_loose_ctx_handle();
    let value = 9;
    let constant_1 = ctx.constant(value);
    let constant_2 = ctx.constant(value);
    let out = ctx.bin_op(BinOp::Add, constant_1, constant_2);

    let expected = value * 2 % ctx.q();
    let expected_length = 1;

    let circuit = ctx.compile(out).expect("to compile");

    assert_eq!(expected_length, circuit.gates().len());
    assert_eq!(0, circuit.inputs().len());
    assert_eq!(1, circuit.outputs().len());
    assert_eq!(Gate::Const(expected), circuit.gates()[into_gate_idx(0)]);
}

#[test]
fn test_single_addition_with_same_constants_strict_also_folds() {
    let mut ctx = test_ctx_handle();
    let value = 9;
    let constant_1 = ctx.constant(value);
    let constant_2 = ctx.constant(value);
    let out = ctx.bin_op(BinOp::Add, constant_1, constant_2);

    let error = ctx.compile(out).expect_err("to fail compilation due to orphan const");

    assert!(error.unused_inputs.is_empty());
    assert_eq!(1, error.unused_constants.len());
    assert!(error.unused_operations.is_empty());
}

#[test]
fn test_single_addition_with_same_constants_folding_strict_folds_leaves_orphan_behind() {
    let mut ctx = test_folding_ctx_handle();
    let value = 9;
    let constant_1 = ctx.constant(value);
    let constant_2 = ctx.constant(value);
    let out = ctx.bin_op(BinOp::Add, constant_1, constant_2);

    let expected = value * 2 % ctx.q();
    let expected_length = 1;

    let circuit = ctx.compile(out).expect("to compile");

    assert_eq!(expected_length, circuit.gates().len());
    assert_eq!(0, circuit.inputs().len());
    assert_eq!(1, circuit.outputs().len());
    assert_eq!(Gate::Const(expected), circuit.gates()[into_gate_idx(0)]);
}

#[test]
fn test_single_addition_with_constant_and_input_strict() {
    let mut ctx = test_ctx_handle();
    let value = 9;
    let index = 0;
    let constant = ctx.constant(value);
    let input = ctx.input(index);
    let out = ctx.bin_op(BinOp::Add, constant, input);

    let circuit = ctx.compile(out).expect("to compile");

    assert_eq!(3, circuit.gates().len());
    assert_eq!(1, circuit.inputs().len());
    assert_eq!(1, circuit.outputs().len());
    assert_eq!(Gate::Const(value), circuit.gates()[into_gate_idx(0)]);
    assert_eq!(Gate::Input(index), circuit.gates()[into_gate_idx(1)]);
    assert_eq!(Gate::BinOp(BinOp::Add, 0, 1), circuit.gates()[into_gate_idx(2)]);
}

#[test]
fn test_same_double_addition_and_multiplication_strict() {
    let mut ctx = test_ctx_handle();
    let index = 0;
    let value = 9;
    let input = ctx.input(index);
    let constant = ctx.constant(value);
    let addition = ctx.bin_op(BinOp::Add, input, constant);
    let out = ctx.bin_op(BinOp::Mul, addition, addition);

    let circuit = ctx.compile(out).expect("to compile");

    assert_eq!(4, circuit.gates().len());
    assert_eq!(1, circuit.inputs().len());
    assert_eq!(1, circuit.outputs().len());
    assert_eq!(Gate::Input(index), circuit.gates()[into_gate_idx(0)]);
    assert_eq!(Gate::Const(value), circuit.gates()[into_gate_idx(1)]);
    assert_eq!(Gate::BinOp(BinOp::Add, 0, 1), circuit.gates()[into_gate_idx(2)]);
    assert_eq!(Gate::BinOp(BinOp::Mul, 2, 2), circuit.gates()[into_gate_idx(3)]);
}

#[test]
fn test_large_number_of_constants_and_ops_with_them_yields_single_gate() {
    let mut ctx = test_folding_ctx_handle();
    let total = 100;
    let mut constants: Vec<ExprIdx> = Vec::with_capacity(total);
    for value in 1..=total {
        constants.push(ctx.constant(value as u64));
    }
    let mut additions: Vec<ExprIdx> = Vec::with_capacity(total - 1);
    for index in 1..total {
        let addition = ctx.bin_op(BinOp::Add, constants[index - 1], constants[index]);
        additions.push(addition);
    }
    let mut all_multiplied = additions[0];
    for addition in additions.iter().skip(1) {
        all_multiplied = ctx.bin_op(BinOp::Mul, all_multiplied, *addition);
    }

    let circuit = ctx.compile(all_multiplied).expect("to compile");

    assert_eq!(1, circuit.gates().len());
    assert_eq!(0, circuit.inputs().len());
    assert_eq!(1, circuit.outputs().len());
    assert_eq!(Gate::Const(0), circuit.gates()[into_gate_idx(0)]);
}

#[test]
fn test_different_double_addition_and_multiplication_strict() {
    let mut ctx = test_ctx_handle();
    let values = [1u64, 2, 3, 4];
    let input_1 = ctx.input(values[0] as usize);
    let constant_1 = ctx.constant(values[1]);
    let addition_1 = ctx.bin_op(BinOp::Add, input_1, constant_1);
    let input_2 = ctx.input(values[2] as usize);
    let constant_2 = ctx.constant(values[3]);
    let addition_2 = ctx.bin_op(BinOp::Add, input_2, constant_2);
    let out = ctx.bin_op(BinOp::Mul, addition_1, addition_2);

    let circuit = ctx.compile(out).expect("to compile");

    assert_eq!(7, circuit.gates().len());
    assert_eq!(2, circuit.inputs().len());
    assert_eq!(1, circuit.outputs().len());
    for (val_ix, const_idx) in [0u32, 1, 3, 4].iter().enumerate() {
        let expected = match val_ix % 2 {
            0 => Gate::Input(values[val_ix] as usize),
            _ => Gate::Const(values[val_ix]),
        };
        assert_eq!(expected, circuit.gates()[into_gate_idx(*const_idx)]);
    }
    assert_eq!(Gate::BinOp(BinOp::Add, 0, 1), circuit.gates()[into_gate_idx(2)]);
    assert_eq!(Gate::BinOp(BinOp::Add, 3, 4), circuit.gates()[into_gate_idx(5)]);
    assert_eq!(Gate::BinOp(BinOp::Mul, 2, 5), circuit.gates()[into_gate_idx(6)]);
}

fn moded_ctx(strict: bool) -> Context {
    if strict {
        test_ctx_handle()
    } else {
        test_loose_ctx_handle()
    }
}

fn unused_input(ctx: &mut Context) -> Vec<ExprIdx> {
    let _unused_input = ctx.input(0);
    let input = ctx.input(1);
    vec![ctx.bin_op(BinOp::Add, input, input)]
}

fn unused_constant(ctx: &mut Context) -> Vec<ExprIdx> {
    let _unused_constant = ctx.constant(0);
    let input = ctx.input(0);
    let constant = ctx.constant(1);
    vec![ctx.bin_op(BinOp::Add, input, constant)]
}

fn unused_operation(ctx: &mut Context) -> Vec<ExprIdx> {
    let input = ctx.input(1);
    let constant = ctx.constant(1);
    let _unused_add = ctx.bin_op(BinOp::Add, input, constant);
    vec![ctx.bin_op(BinOp::Mul, input, constant)]
}

fn unused_all(ctx: &mut Context) -> Vec<ExprIdx> {
    let _unused_input = ctx.input(0);
    let input = ctx.input(1);
    let _unused_constant = ctx.constant(0);
    let constant = ctx.constant(1);
    let _unused_add = ctx.bin_op(BinOp::Add, input, constant);
    vec![ctx.bin_op(BinOp::Mul, input, constant)]
}

fn compile_with(strict: bool, f: fn(&mut Context) -> Vec<ExprIdx>) -> CompilationResult {
    let mut ctx = moded_ctx(strict);
    let outs = f(&mut ctx);
    if outs.len() == 1 {
        ctx.compile(outs[0])
    } else {
        ctx.compile_many(outs.as_slice())
    }
}

fn check_mode(strict: bool, f: fn(&mut Context) -> Vec<ExprIdx>, errs: bool, counts: &[usize]) {
    let result = compile_with(strict, f);
    assert_eq!(errs, result.is_err());
    if let Err(error) = result {
        assert_eq!(counts[0], error.unused_inputs.len());
        assert_eq!(counts[1], error.unused_constants.len());
        assert_eq!(counts[2], error.unused_operations.len());
    }
}

#[test]
fn unused_input_do_not_compile_when_strict() {
    check_mode(true, unused_input, true, &[1, 0, 0]);
}

#[test]
fn unused_input_compiles_when_loose() {
    check_mode(false, unused_input, false, &[]);
}

#[test]
fn unused_constant_do_not_compile_when_strict() {
    check_mode(true, unused_constant, true, &[0, 1, 0]);
}

#[test]
fn unused_constant_compiles_when_loose() {
    check_mode(false, unused_constant, false, &[]);
}

#[test]
fn unused_operation_do_not_compile_when_strict() {
    check_mode(true, unused_operation, true, &[0, 0, 1]);
}

#[test]
fn unused_operation_compiles_when_loose() {
    check_mode(false, unused_operation, false, &[]);
}

#[test]
fn unused_all_do_not_compile_when_strict() {
    check_mode(true, unused_all, true, &[1, 1, 1]);
}

#[test]
fn unused_all_compiles_when_loose() {
    check_mode(false, unused_all, false, &[]);
}

#[test]
fn compile_many_keeps_the_order_of_the_outputs() {
    let mut ctx = test_ctx_handle();
    let a = ctx.input(0);
    let b = ctx.input(1);
    let sum = ctx.bin_op(BinOp::Add, a, b);
    let product = ctx.bin_op(BinOp::Mul, a, b);
    let circuit = ctx.compile_many(&[product, sum]).expect("to compile");
    assert_eq!(
        vec![Gate::Input(0), Gate::Input(1), Gate::BinOp(BinOp::Mul, 0, 1), Gate::BinOp(BinOp::Add, 0, 1)],
        circuit.gates().iter().map(|(_, g)| *g).collect::<Vec<Gate>>()
    );
    assert_eq!(&[0u32, 1][..], circuit.inputs());
    assert_eq!(&[2u32, 3][..], circuit.outputs());
    assert!(circuit.is_well_formed());
}

#[test]
fn strict_on_constants_only_refuses_only_unused_constants() {
    let mut ctx = Context::new(7, CompilationMode::with(Strictness(2)));
    let _unused_input = ctx.input(0);
    let input = ctx.input(1);
    let out = ctx.bin_op(BinOp::Add, input, input);
    assert!(ctx.compile(out).is_ok());

    let mut ctx = Context::new(7, CompilationMode::with(Strictness(2)));
    let _unused_constant = ctx.constant(3);
    let input = ctx.input(1);
    let out = ctx.bin_op(BinOp::Add, input, input);
    let error = ctx.compile(out).expect_err("to fail on the unused constant");
    assert_eq!(1, error.unused_constants.len());
}

#[test]
fn compiled_circuit_computes_the_expression() {
    let mut ctx = new_strict_context(7);
    let a = ctx.input(0);
    let b = ctx.input(1);
    let c = ctx.constant(3);
    let sum = ctx.bin_op(BinOp::Add, a, c);
    let out = ctx.bin_op(BinOp::Mul, sum, b);
    let circuit = ctx.compile(out).expect("to compile");
    let mut backend = PlainModQBackend::new();
    let values = backend.eval_outputs(&circuit, &[4, 5]).expect("should have evaluated");
    assert_eq!(&[(4 + 3) * 5 % 7][..], values.as_slice());
}
