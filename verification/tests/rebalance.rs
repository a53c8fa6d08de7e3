use fhe_dsl::backend::plain::PlainModQBackend;
use fhe_dsl::backend::Backend;
use fhe_dsl::ir::{Circuit, Gate};
use fhe_dsl::op::BinOp;
use fhe_dsl::passes::rebalance::{rebalance, rebalance_ranks_fit};
use la_arena::Arena;
use thin_vec::ThinVec;

fn check_rebalancing(
    gates: &[Gate],
    inputs: &[u32],
    outputs: &[u32],
    expected_gates: &[Gate],
    expected_inputs: &[u32],
    expected_outputs: &[u32],
) {
    let circuit = Circuit::with(
        11,
        Arena::from_iter(gates.iter().cloned()),
        ThinVec::from(inputs.to_vec()),
        ThinVec::from(outputs.to_vec()),
    );
    assert!(circuit.is_well_formed());
    assert!(rebalance_ranks_fit(&circuit));
    let new_circuit = rebalance(&circuit);
    let got: Vec<Gate> = new_circuit.gates().iter().map(|(_, g)| *g).collect();
    assert_eq!(expected_gates, got.as_slice());
    assert_eq!(expected_inputs, new_circuit.inputs());
    assert_eq!(expected_outputs, new_circuit.outputs());
}

#[test]
fn left_heavy_rewrite() {
    check_rebalancing(
        &[
            Gate::Input(0),
            Gate::Input(1),
            Gate::Input(2),
            Gate::Input(3),
            Gate::BinOp(BinOp::Add, 0, 1),
            Gate::BinOp(BinOp::Add, 4, 2),
            Gate::BinOp(BinOp::Add, 5, 3),
        ],
        &[0, 1, 2, 3],
        &[6],
        &[
            Gate::Input(0),
            Gate::Input(3),
            Gate::BinOp(BinOp::Add, 0, 1),
            Gate::Input(2),
            Gate::Input(1),
            Gate::BinOp(BinOp::Add, 3, 4),
            Gate::BinOp(BinOp::Add, 2, 5),
        ],
        &[0, 1, 3, 4],
        &[6],
    );
}

#[test]
fn folding_constants_rewrite() {
    check_rebalancing(
        &[Gate::Const(5), Gate::BinOp(BinOp::Add, 0, 0)],
        &[],
        &[1],
        &[Gate::Const(10)],
        &[],
        &[0],
    );
}

#[test]
fn right_heavy_scattered_constants_rewrite() {
    check_rebalancing(
        &[
            Gate::Input(0),
            Gate::Input(1),
            Gate::Input(2),
            Gate::Input(3),
            Gate::BinOp(BinOp::Add, 0, 1),
            Gate::BinOp(BinOp::Add, 2, 4),
            Gate::BinOp(BinOp::Add, 3, 5),
        ],
        &[0, 1, 2, 3],
        &[6],
        &[
            Gate::Input(3),
            Gate::Input(1),
            Gate::BinOp(BinOp::Add, 0, 1),
            Gate::Input(0),
            Gate::Input(2),
            Gate::BinOp(BinOp::Add, 3, 4),
            Gate::BinOp(BinOp::Add, 2, 5),
        ],
        &[0, 1, 3, 4],
        &[6],
    );
}

#[test]
fn left_heavy_scattered_constants_rewrite() {
    check_rebalancing(
        &[
            Gate::Input(0),
            Gate::Input(1),
            Gate::Input(2),
            Gate::Input(3),
            Gate::Const(5),
            Gate::BinOp(BinOp::Add, 0, 1),
            Gate::BinOp(BinOp::Add, 5, 4),
            Gate::BinOp(BinOp::Add, 6, 2),
            Gate::BinOp(BinOp::Add, 7, 3),
            Gate::BinOp(BinOp::Add, 8, 4),
        ],
        &[0, 1, 2, 3],
        &[9],
        &[
            Gate::Const(10),
            Gate::Input(1),
            Gate::BinOp(BinOp::Add, 0, 1),
            Gate::Input(2),
            Gate::BinOp(BinOp::Add, 3, 2),
            Gate::Input(0),
            Gate::Input(3),
            Gate::BinOp(BinOp::Add, 6, 5),
            Gate::BinOp(BinOp::Add, 7, 4),
        ],
        &[1, 3, 5, 6],
        &[8],
    );
}

#[test]
fn left_heavy_scattered_constants_rewrite_mul() {
    check_rebalancing(
        &[
            Gate::Input(0),
            Gate::Input(1),
            Gate::Input(2),
            Gate::Input(3),
            Gate::Const(5),
            Gate::BinOp(BinOp::Mul, 0, 1),
            Gate::BinOp(BinOp::Mul, 5, 4),
            Gate::BinOp(BinOp::Mul, 6, 2),
            Gate::BinOp(BinOp::Mul, 7, 3),
            Gate::BinOp(BinOp::Mul, 8, 4),
        ],
        &[0, 1, 2, 3],
        &[9],
        &[
            Gate::Const(3),
            Gate::Input(1),
            Gate::BinOp(BinOp::Mul, 0, 1),
            Gate::Input(2),
            Gate::BinOp(BinOp::Mul, 3, 2),
            Gate::Input(0),
            Gate::Input(3),
            Gate::BinOp(BinOp::Mul, 6, 5),
            Gate::BinOp(BinOp::Mul, 7, 4),
        ],
        &[1, 3, 5, 6],
        &[8],
    );
}

#[test]
fn left_heavy_scattered_constants_rewrite_add_mul() {
    check_rebalancing(
        &[
            Gate::Input(0),
            Gate::Input(1),
            Gate::Input(2),
            Gate::Input(3),
            Gate::Input(4),
            Gate::Const(5),
            Gate::BinOp(BinOp::Mul, 0, 5),
            Gate::BinOp(BinOp::Mul, 6, 1),
            Gate::BinOp(BinOp::Mul, 7, 5),
            Gate::BinOp(BinOp::Add, 8, 2),
            Gate::BinOp(BinOp::Add, 9, 3),
            Gate::BinOp(BinOp::Add, 10, 4),
        ],
        &[0, 1, 2, 3, 4],
        &[11],
        &[
            Gate::Const(3),
            Gate::Input(1),
            Gate::BinOp(BinOp::Mul, 0, 1),
            Gate::Input(0),
            Gate::BinOp(BinOp::Mul, 3, 2),
            Gate::Input(2),
            Gate::Input(3),
            Gate::BinOp(BinOp::Add, 5, 6),
            Gate::Input(4),
            Gate::BinOp(BinOp::Add, 8, 7),
            Gate::BinOp(BinOp::Add, 9, 4),
        ],
        &[1, 3, 5, 6, 8],
        &[10],
    );
}

#[test]
fn ranks_that_overflow_are_detected() {
    let mut gates = vec![Gate::Input(0)];
    for k in 0..64u32 {
        gates.push(Gate::BinOp(BinOp::Add, k, k));
    }
    let last = gates.len() as u32 - 1;
    let circuit = Circuit::with(11, Arena::from_iter(gates), ThinVec::from(vec![0u32]), ThinVec::from(vec![last]));
    assert!(circuit.is_well_formed());
    assert!(!rebalance_ranks_fit(&circuit));

    let small = Circuit::with(
        11,
        Arena::from_iter(vec![Gate::Input(0), Gate::BinOp(BinOp::Add, 0, 0)]),
        ThinVec::from(vec![0u32]),
        ThinVec::from(vec![1u32]),
    );
    assert!(rebalance_ranks_fit(&small));
}

#[test]
fn rebalanced_sum_keeps_its_value() {
    let circuit = Circuit::with(
        11,
        Arena::from_iter(vec![
            Gate::Input(0),
            Gate::Input(1),
            Gate::Input(2),
            Gate::Input(3),
            Gate::BinOp(BinOp::Add, 0, 1),
            Gate::BinOp(BinOp::Add, 4, 2),
            Gate::BinOp(BinOp::Add, 5, 3),
        ]),
        ThinVec::from(vec![0u32, 1, 2, 3]),
        ThinVec::from(vec![6u32]),
    );
    let rebalanced = rebalance(&circuit);
    assert!(rebalanced.is_well_formed());
    let mut backend = PlainModQBackend::new();
    let before = backend.eval_outputs(&circuit, &[1, 2, 3, 4]).expect("should have evaluated");
    let after = backend.eval_outputs(&rebalanced, &[1, 2, 3, 4]).expect("should have evaluated");
    assert_eq!(before.as_slice(), after.as_slice());
}

#[test]
fn rebalance_keeps_subtraction_in_place() {
    // Subtraction is neither associative nor commutative: (a - b) - c keeps its shape.
    check_rebalancing(
        &[
            Gate::Input(0),
            Gate::Input(1),
            Gate::Input(2),
            Gate::BinOp(BinOp::Sub, 0, 1),
            Gate::BinOp(BinOp::Sub, 3, 2),
        ],
        &[0, 1, 2],
        &[4],
        &[
            Gate::Input(0),
            Gate::Input(1),
            Gate::BinOp(BinOp::Sub, 0, 1),
            Gate::Input(2),
            Gate::BinOp(BinOp::Sub, 2, 3),
        ],
        &[0, 1, 3],
        &[4],
    );
}

#[test]
fn rebalanced_difference_keeps_its_value() {
    let circuit = Circuit::with(
        11,
        Arena::from_iter(vec![
            Gate::Input(0),
            Gate::Input(1),
            Gate::Input(2),
            Gate::BinOp(BinOp::Sub, 0, 1),
            Gate::BinOp(BinOp::Sub, 3, 2),
        ]),
        ThinVec::from(vec![0u32, 1, 2]),
        ThinVec::from(vec![4u32]),
    );
    let rebalanced = rebalance(&circuit);
    assert!(rebalanced.is_well_formed());
    let mut backend = PlainModQBackend::new();
    let before = backend.eval_outputs(&circuit, &[9, 2, 3]).expect("should have evaluated");
    let after = backend.eval_outputs(&rebalanced, &[9, 2, 3]).expect("should have evaluated");
    assert_eq!(before.as_slice(), after.as_slice());
}

#[test]
fn rebalance_keeps_an_output_whose_index_changes() {
    // The first input is unused, so the sum moves down one place; it stays an output.
    let circuit = Circuit::with(
        11,
        Arena::from_iter(vec![Gate::Input(0), Gate::Input(1), Gate::Input(2), Gate::BinOp(BinOp::Add, 1, 2)]),
        ThinVec::from(vec![0u32, 1, 2]),
        ThinVec::from(vec![3u32]),
    );
    let rebalanced = rebalance(&circuit);
    assert_eq!(3, rebalanced.num_gates());
    assert_eq!(&[2u32][..], rebalanced.outputs());
    assert!(rebalanced.is_well_formed());
}

#[test]
fn constant_difference_inside_a_sum_folds() {
    // (5 - 3) + 4 + x: the difference of constants folds, then meets the other constant.
    check_rebalancing(
        &[
            Gate::Const(5),
            Gate::Const(3),
            Gate::BinOp(BinOp::Sub, 0, 1),
            Gate::Const(4),
            Gate::BinOp(BinOp::Add, 2, 3),
            Gate::Input(0),
            Gate::BinOp(BinOp::Add, 4, 5),
        ],
        &[5],
        &[6],
        &[Gate::Const(6), Gate::Input(0), Gate::BinOp(BinOp::Add, 0, 1)],
        &[1],
        &[2],
    );
}
