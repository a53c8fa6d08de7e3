use fhe_dsl::backend::plain::PlainModQBackend;
use fhe_dsl::backend::Backend;
use fhe_dsl::ir::{Circuit, Gate};
use fhe_dsl::op::BinOp;
use fhe_dsl::passes::reassociate::{
    extract_reassociation_candidates, reuse_driven_reassociate, try_reassociate_candidates, Reassociation,
    ReassociationPass,
};
use la_arena::Arena;
use thin_vec::ThinVec;

fn circuit_of(gates: &[Gate], inputs: &[u32], outputs: &[u32]) -> Circuit {
    Circuit::with(
        11,
        Arena::from_iter(gates.iter().cloned()),
        ThinVec::from(inputs.to_vec()),
        ThinVec::from(outputs.to_vec()),
    )
}

#[test]
fn test_extract_reassociation_candidates_a_c() {
    let circuit = circuit_of(
        &[
            Gate::Input(0),
            Gate::Input(1),
            Gate::Input(2),
            Gate::BinOp(BinOp::Add, 0, 1),
            Gate::BinOp(BinOp::Add, 0, 2),
            Gate::BinOp(BinOp::Add, 4, 1),
        ],
        &[0, 1, 2],
        &[3, 5],
    );
    let mut reassociation_pass = ReassociationPass::new(&circuit);
    let reassociation_candidate = extract_reassociation_candidates(reassociation_pass.gates(), BinOp::Add, 4, 1)
        .expect("to have a reassociation candidate");

    assert!(reassociation_candidate.is_lhs);
    assert_eq!(0, reassociation_candidate.a);
    assert_eq!(2, reassociation_candidate.b);
    assert_eq!(1, reassociation_candidate.c);
    assert_eq!(4, reassociation_candidate.instruction_to_reassociate);

    let new_gate = Gate::BinOp(BinOp::Add, 3, 2);
    let reassociation = try_reassociate_candidates(reassociation_candidate, BinOp::Add, &mut reassociation_pass)
        .expect("to reassociate");
    match reassociation {
        Reassociation::Ternary { new_root, usage_update } => {
            assert_eq!(new_gate, new_root);
            assert_eq!(&[4u32, 1], usage_update.to_severe_from_root.as_slice());
            assert_eq!(&[3u32, 2], usage_update.to_connect_root.as_slice());
        },
        _ => panic!(),
    }
}

#[test]
fn test_extract_reassociation_candidates_c_a() {
    let circuit = circuit_of(
        &[
            Gate::Input(0),
            Gate::Input(1),
            Gate::Input(2),
            Gate::BinOp(BinOp::Add, 2, 1),
            Gate::BinOp(BinOp::Add, 2, 0),
            Gate::BinOp(BinOp::Add, 1, 4),
        ],
        &[0, 1, 2],
        &[3, 5],
    );
    let mut reassociation_pass = ReassociationPass::new(&circuit);
    let reassociation_candidate = extract_reassociation_candidates(reassociation_pass.gates(), BinOp::Add, 1, 4)
        .expect("to have a reassociation candidate");

    assert!(!reassociation_candidate.is_lhs);
    assert_eq!(1, reassociation_candidate.a);
    assert_eq!(2, reassociation_candidate.b);
    assert_eq!(0, reassociation_candidate.c);
    assert_eq!(4, reassociation_candidate.instruction_to_reassociate);

    let new_gate = Gate::BinOp(BinOp::Add, 3, 0);
    let reassociation = try_reassociate_candidates(reassociation_candidate, BinOp::Add, &mut reassociation_pass)
        .expect("to reassociate");
    match reassociation {
        Reassociation::Ternary { new_root, usage_update } => {
            assert_eq!(new_gate, new_root);
            assert_eq!(&[4u32, 1], usage_update.to_severe_from_root.as_slice());
            assert_eq!(&[3u32, 0], usage_update.to_connect_root.as_slice());
        },
        _ => panic!(),
    }
}

fn check_reassociation(gates: &[Gate], inputs: &[u32], outputs: &[u32], expected_gates: &[Gate], expected_outputs: &[u32]) {
    let circuit = circuit_of(gates, inputs, outputs);
    let new_circuit = reuse_driven_reassociate(&circuit);
    let got: Vec<Gate> = new_circuit.gates().iter().map(|(_, g)| *g).collect();
    assert_eq!(expected_gates, got.as_slice());
    assert_eq!(new_circuit.inputs(), circuit.inputs());
    assert_eq!(expected_outputs, new_circuit.outputs());
}

#[test]
fn left_right_rewrite() {
    check_reassociation(
        &[
            Gate::Input(0),
            Gate::Input(1),
            Gate::Input(2),
            Gate::BinOp(BinOp::Add, 0, 1),
            Gate::BinOp(BinOp::Add, 0, 2),
            Gate::BinOp(BinOp::Add, 4, 1),
        ],
        &[0, 1, 2],
        &[3, 5],
        &[
            Gate::Input(0),
            Gate::Input(1),
            Gate::Input(2),
            Gate::BinOp(BinOp::Add, 0, 1),
            Gate::BinOp(BinOp::Add, 3, 2),
        ],
        &[3, 4],
    );
}

#[test]
fn mid_right_rewrite() {
    check_reassociation(
        &[
            Gate::Input(0),
            Gate::Input(1),
            Gate::Input(2),
            Gate::BinOp(BinOp::Add, 0, 1),
            Gate::BinOp(BinOp::Add, 2, 0),
            Gate::BinOp(BinOp::Add, 4, 1),
        ],
        &[0, 1, 2],
        &[3, 5],
        &[
            Gate::Input(0),
            Gate::Input(1),
            Gate::Input(2),
            Gate::BinOp(BinOp::Add, 0, 1),
            Gate::BinOp(BinOp::Add, 3, 2),
        ],
        &[3, 4],
    );
}

#[test]
fn left_right_rewrite_swapped_order() {
    check_reassociation(
        &[
            Gate::Input(0),
            Gate::Input(1),
            Gate::Input(2),
            Gate::BinOp(BinOp::Add, 1, 2),
            Gate::BinOp(BinOp::Add, 2, 0),
            Gate::BinOp(BinOp::Add, 4, 1),
        ],
        &[0, 1, 2],
        &[3, 5],
        &[
            Gate::Input(0),
            Gate::Input(1),
            Gate::Input(2),
            Gate::BinOp(BinOp::Add, 1, 2),
            Gate::BinOp(BinOp::Add, 3, 0),
        ],
        &[3, 4],
    );
}

#[test]
fn left_right_rewrite_swapped_order_in_output() {
    check_reassociation(
        &[
            Gate::Input(0),
            Gate::Input(1),
            Gate::Input(2),
            Gate::BinOp(BinOp::Add, 2, 1),
            Gate::BinOp(BinOp::Add, 2, 0),
            Gate::BinOp(BinOp::Add, 1, 4),
        ],
        &[0, 1, 2],
        &[3, 5],
        &[
            Gate::Input(0),
            Gate::Input(1),
            Gate::Input(2),
            Gate::BinOp(BinOp::Add, 2, 1),
            Gate::BinOp(BinOp::Add, 3, 0),
        ],
        &[3, 4],
    );
}

#[test]
fn single_use_coming_after_is_eliminated_a_c() {
    check_reassociation(
        &[
            Gate::Input(0),
            Gate::Input(1),
            Gate::Input(2),
            Gate::BinOp(BinOp::Add, 0, 1),
            Gate::BinOp(BinOp::Add, 0, 2),
            Gate::BinOp(BinOp::Add, 4, 1),
        ],
        &[0, 1, 2],
        &[3, 5],
        &[
            Gate::Input(0),
            Gate::Input(1),
            Gate::Input(2),
            Gate::BinOp(BinOp::Add, 0, 1),
            Gate::BinOp(BinOp::Add, 3, 2),
        ],
        &[3, 4],
    );
}

#[test]
fn single_use_coming_after_is_eliminated_a_b() {
    check_reassociation(
        &[
            Gate::Input(0),
            Gate::Input(1),
            Gate::Input(2),
            Gate::BinOp(BinOp::Add, 0, 2),
            Gate::BinOp(BinOp::Add, 0, 1),
            Gate::BinOp(BinOp::Add, 4, 2),
        ],
        &[0, 1, 2],
        &[3, 5],
        &[
            Gate::Input(0),
            Gate::Input(1),
            Gate::Input(2),
            Gate::BinOp(BinOp::Add, 0, 2),
            Gate::BinOp(BinOp::Add, 3, 1),
        ],
        &[3, 4],
    );
}

#[test]
fn staying_the_same_if_no_candidates() {
    check_reassociation(
        &[
            Gate::Input(0),
            Gate::Input(1),
            Gate::Input(2),
            Gate::BinOp(BinOp::Add, 0, 2),
            Gate::BinOp(BinOp::Add, 1, 2),
        ],
        &[0, 1, 2],
        &[3, 4],
        &[
            Gate::Input(0),
            Gate::Input(1),
            Gate::Input(2),
            Gate::BinOp(BinOp::Add, 0, 2),
            Gate::BinOp(BinOp::Add, 1, 2),
        ],
        &[3, 4],
    );
}

#[test]
fn multiple_reassociations() {
    check_reassociation(
        &[
            Gate::Input(0),
            Gate::Input(1),
            Gate::Input(2),
            Gate::Input(3),
            Gate::BinOp(BinOp::Add, 0, 2),
            Gate::BinOp(BinOp::Add, 1, 3),
            Gate::BinOp(BinOp::Add, 0, 1),
            Gate::BinOp(BinOp::Add, 6, 2),
            Gate::BinOp(BinOp::Add, 7, 3),
        ],
        &[0, 1, 2, 3],
        &[4, 5, 8],
        &[
            Gate::Input(0),
            Gate::Input(1),
            Gate::Input(2),
            Gate::Input(3),
            Gate::BinOp(BinOp::Add, 0, 2),
            Gate::BinOp(BinOp::Add, 1, 3),
            Gate::BinOp(BinOp::Add, 4, 5),
        ],
        &[4, 5, 6],
    );
}

#[test]
fn multiple_reassociations_enables_constant_folding_1_round_for_folding() {
    check_reassociation(
        &[
            Gate::Input(0),
            Gate::Input(1),
            Gate::Const(2),
            Gate::Const(3),
            Gate::BinOp(BinOp::Add, 0, 1),
            Gate::BinOp(BinOp::Add, 0, 2),
            Gate::BinOp(BinOp::Add, 5, 3),
            Gate::BinOp(BinOp::Add, 6, 1),
        ],
        &[0, 1],
        &[4, 7],
        &[
            Gate::Input(0),
            Gate::Input(1),
            Gate::BinOp(BinOp::Add, 0, 1),
            Gate::Const(2 + 3),
            Gate::BinOp(BinOp::Add, 2, 3),
        ],
        &[2, 4],
    );
}

#[test]
fn multiple_reassociations_enables_constant_folding_3_folds_1_round() {
    check_reassociation(
        &[
            Gate::Input(0),
            Gate::Input(1),
            Gate::Const(2),
            Gate::Const(3),
            Gate::Const(4),
            Gate::BinOp(BinOp::Add, 0, 1),
            Gate::BinOp(BinOp::Add, 1, 3),
            Gate::BinOp(BinOp::Add, 6, 4),
            Gate::BinOp(BinOp::Add, 7, 0),
            Gate::BinOp(BinOp::Add, 8, 2),
        ],
        &[0, 1],
        &[5, 9],
        &[
            Gate::Input(0),
            Gate::Input(1),
            Gate::BinOp(BinOp::Add, 0, 1),
            Gate::Const(2 + 3 + 4),
            Gate::BinOp(BinOp::Add, 2, 3),
        ],
        &[2, 4],
    );
}

#[test]
fn reassociation_reuses_only_an_earlier_gate() {
    // (a + c) + b could reuse a + b, but that comes after it: only an expression that comes
    // before may be reused, so nothing is rewritten.
    let gates = [
        Gate::Input(0),
        Gate::Input(1),
        Gate::Input(2),
        Gate::BinOp(BinOp::Add, 0, 2),
        Gate::BinOp(BinOp::Add, 3, 1),
        Gate::BinOp(BinOp::Add, 0, 1),
    ];
    let circuit = circuit_of(&gates, &[0, 1, 2], &[4, 5]);
    assert!(circuit.is_well_formed());
    let new_circuit = reuse_driven_reassociate(&circuit);
    let got: Vec<Gate> = new_circuit.gates().iter().map(|(_, g)| *g).collect();
    assert_eq!(&gates[..], got.as_slice());
    assert_eq!(&[4u32, 5][..], new_circuit.outputs());
    assert!(new_circuit.is_well_formed());
}

#[test]
fn reassociation_keeps_q() {
    let circuit = circuit_of(&[Gate::Input(0), Gate::Const(3), Gate::BinOp(BinOp::Mul, 0, 1)], &[0], &[2]);
    let new_circuit = reuse_driven_reassociate(&circuit);
    assert_eq!(circuit.q(), new_circuit.q());
    assert_eq!(3, new_circuit.num_gates());
}

#[test]
fn reassociation_keeps_output_values() {
    let reuse = circuit_of(
        &[
            Gate::Input(0),
            Gate::Input(1),
            Gate::Input(2),
            Gate::BinOp(BinOp::Add, 0, 1),
            Gate::BinOp(BinOp::Add, 0, 2),
            Gate::BinOp(BinOp::Add, 4, 1),
        ],
        &[0, 1, 2],
        &[3, 5],
    );
    let folding = circuit_of(
        &[
            Gate::Input(0),
            Gate::Input(1),
            Gate::Const(2),
            Gate::Const(3),
            Gate::BinOp(BinOp::Mul, 0, 1),
            Gate::BinOp(BinOp::Mul, 0, 2),
            Gate::BinOp(BinOp::Mul, 5, 3),
            Gate::BinOp(BinOp::Mul, 6, 1),
        ],
        &[0, 1],
        &[4, 7],
    );
    for (circuit, with) in [(reuse, vec![3u64, 5, 9]), (folding, vec![4u64, 7])] {
        let rewritten = reuse_driven_reassociate(&circuit);
        assert!(rewritten.is_well_formed());
        assert!(rewritten.num_gates() < circuit.num_gates());
        let mut backend = PlainModQBackend::new();
        let before = backend.eval_outputs(&circuit, &with).expect("should have evaluated");
        let after = backend.eval_outputs(&rewritten, &with).expect("should have evaluated");
        assert_eq!(before.as_slice(), after.as_slice());
    }
}

#[test]
fn reassociation_keeps_the_operands_of_a_reused_gate() {
    // (a + (a + c)) + c reuses b = a + c for a + c: b loses its only user on the way and gets it
    // back, so it must use its operands again, which then stay alive.
    let circuit = circuit_of(
        &[
            Gate::Input(0),
            Gate::Input(1),
            Gate::BinOp(BinOp::Add, 0, 1),
            Gate::BinOp(BinOp::Add, 0, 2),
            Gate::BinOp(BinOp::Add, 3, 1),
        ],
        &[0, 1],
        &[4],
    );
    let rewritten = reuse_driven_reassociate(&circuit);
    let got: Vec<Gate> = rewritten.gates().iter().map(|(_, g)| *g).collect();
    assert_eq!(
        &[Gate::Input(0), Gate::Input(1), Gate::BinOp(BinOp::Add, 0, 1), Gate::BinOp(BinOp::Add, 2, 2)][..],
        got.as_slice()
    );
    assert_eq!(&[3u32][..], rewritten.outputs());
    assert!(rewritten.is_well_formed());
    let mut backend = PlainModQBackend::new();
    let before = backend.eval_outputs(&circuit, &[4, 9]).expect("should have evaluated");
    let after = backend.eval_outputs(&rewritten, &[4, 9]).expect("should have evaluated");
    assert_eq!(before.as_slice(), after.as_slice());
}

#[test]
fn reassociation_with_outputs_out_of_order_keeps_each_value() {
    // The outputs name the rewritten sum first: the rewritten circuit lists its outputs in gate
    // order, each computing what one of the original outputs computes.
    let circuit = circuit_of(
        &[
            Gate::Input(0),
            Gate::Input(1),
            Gate::Input(2),
            Gate::BinOp(BinOp::Add, 0, 1),
            Gate::BinOp(BinOp::Add, 0, 2),
            Gate::BinOp(BinOp::Add, 4, 1),
        ],
        &[0, 1, 2],
        &[5, 3],
    );
    let with = vec![3u64, 5, 9];
    let rewritten = reuse_driven_reassociate(&circuit);
    assert!(rewritten.is_well_formed());
    assert_eq!(2, rewritten.outputs().len());
    let mut backend = PlainModQBackend::new();
    let before = backend.eval_outputs(&circuit, &with).expect("should have evaluated");
    let after = backend.eval_outputs(&rewritten, &with).expect("should have evaluated");
    for value in after.iter() {
        assert!(before.contains(value));
    }
    for value in before.iter() {
        assert!(after.contains(value));
    }
}
