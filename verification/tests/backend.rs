use fhe_dsl::backend::error::BackendError;
use fhe_dsl::backend::mock_fhe::{FHEElement, MockFHEBackend, ADD_COST, ENC_NOISE, MUL_COST};
use fhe_dsl::backend::plain::PlainModQBackend;
use fhe_dsl::backend::Backend;
use fhe_dsl::ir::{Circuit, Gate};
use fhe_dsl::op::BinOp;
use la_arena::Arena;
use thin_vec::ThinVec;

fn circuit_of(q: u64, gates: Vec<Gate>, inputs: Vec<u32>, outputs: Vec<u32>) -> Circuit {
    Circuit::with(q, Arena::from_iter(gates), ThinVec::from(inputs), ThinVec::from(outputs))
}

fn mul_circuit() -> Circuit {
    circuit_of(
        11,
        vec![
            Gate::Input(0),
            Gate::Input(1),
            Gate::BinOp(BinOp::Mul, 0, 1),
            Gate::BinOp(BinOp::Mul, 2, 2),
            Gate::BinOp(BinOp::Mul, 3, 3),
            Gate::BinOp(BinOp::Mul, 2, 3),
        ],
        vec![0, 1],
        vec![3, 4, 5],
    )
}

fn add_sub_circuit() -> Circuit {
    circuit_of(
        11,
        vec![
            Gate::Input(0),
            Gate::Input(1),
            Gate::BinOp(BinOp::Add, 0, 1),
            Gate::BinOp(BinOp::Sub, 2, 2),
            Gate::BinOp(BinOp::Add, 3, 3),
            Gate::BinOp(BinOp::Sub, 2, 3),
        ],
        vec![0, 1],
        vec![3, 4, 5],
    )
}

#[test]
fn test_mock_fhe_in_noise_budget() {
    let circuit = mul_circuit();
    let noise_budget = 100;
    let mut plain_mod_q = MockFHEBackend::new(noise_budget);
    let error = plain_mod_q.eval(&circuit, &[1]).expect_err("should have failed");
    assert_eq!(BackendError::InvalidInputLen(2, 1), error);

    let results = plain_mod_q.eval(&circuit, &[1, 1]).expect("should have evaluated");

    let input_noise = ENC_NOISE;
    let single_mul_noise = 2 * input_noise + MUL_COST;
    let expected_elements = vec![
        FHEElement { value: 1, depth: 0, noise: input_noise },
        FHEElement { value: 1, depth: 0, noise: input_noise },
        FHEElement { value: 1, depth: 1, noise: single_mul_noise },
        FHEElement { value: 1, depth: 2, noise: 2 * single_mul_noise + MUL_COST },
        FHEElement { value: 1, depth: 3, noise: 2 * (2 * single_mul_noise + MUL_COST) + MUL_COST },
        FHEElement { value: 1, depth: 3, noise: single_mul_noise + (2 * single_mul_noise + MUL_COST) + MUL_COST },
    ];
    assert_eq!(expected_elements.as_slice(), results.as_slice());
}

#[test]
fn test_mock_fhe_noise_budget_exceeded() {
    let circuit = mul_circuit();
    let noise_budget = ENC_NOISE + MUL_COST;
    let mut plain_mod_q = MockFHEBackend::new(noise_budget);
    let error = plain_mod_q
        .eval(&circuit, &[1, 1])
        .expect_err("should have failed due to noise budget");
    let input_noise = ENC_NOISE;
    let single_mul_noise = 2 * input_noise + MUL_COST;
    assert_eq!(BackendError::NoiseBudgetExceeded(noise_budget, single_mul_noise, 2), error);
}

#[test]
fn test_mock_fhe_add_sub() {
    let circuit = add_sub_circuit();
    let noise_budget = ENC_NOISE + MUL_COST;
    let mut plain_mod_q = MockFHEBackend::new(noise_budget);
    let results = plain_mod_q.eval(&circuit, &[1, 1]).expect("should have evaluated");

    let input_noise = ENC_NOISE;
    let single_add_noise = input_noise + ADD_COST;
    let expected_elements = vec![
        FHEElement { value: 1, depth: 0, noise: input_noise },
        FHEElement { value: 1, depth: 0, noise: input_noise },
        FHEElement { value: 2, depth: 0, noise: single_add_noise },
        FHEElement { value: 0, depth: 0, noise: single_add_noise + ADD_COST },
        FHEElement { value: 0, depth: 0, noise: single_add_noise + 2 * ADD_COST },
        FHEElement { value: 2, depth: 0, noise: single_add_noise + 2 * ADD_COST },
    ];
    assert_eq!(expected_elements.as_slice(), results.as_slice());
}

#[test]
fn test_mock_fhe_add_sub_eval_outputs() {
    let circuit = add_sub_circuit();
    let noise_budget = ENC_NOISE + MUL_COST;
    let mut plain_mod_q = MockFHEBackend::new(noise_budget);
    let results = plain_mod_q.eval_outputs(&circuit, &[1, 1]).expect("should have evaluated");

    let input_noise = ENC_NOISE;
    let single_add_noise = input_noise + ADD_COST;
    let expected_elements = vec![
        FHEElement { value: 0, depth: 0, noise: single_add_noise + ADD_COST },
        FHEElement { value: 0, depth: 0, noise: single_add_noise + 2 * ADD_COST },
        FHEElement { value: 2, depth: 0, noise: single_add_noise + 2 * ADD_COST },
    ];
    assert_eq!(expected_elements.as_slice(), results.as_slice());
}

#[test]
fn test_mock_fhe_in_noise_budget_eval_outputs() {
    let circuit = mul_circuit();
    let noise_budget = 100;
    let mut plain_mod_q = MockFHEBackend::new(noise_budget);
    let results = plain_mod_q.eval_outputs(&circuit, &[1, 1]).expect("should have evaluated");

    let input_noise = ENC_NOISE;
    let single_mul_noise = 2 * input_noise + MUL_COST;
    let expected_elements = vec![
        FHEElement { value: 1, depth: 2, noise: 2 * single_mul_noise + MUL_COST },
        FHEElement { value: 1, depth: 3, noise: 2 * (2 * single_mul_noise + MUL_COST) + MUL_COST },
        FHEElement { value: 1, depth: 3, noise: single_mul_noise + (2 * single_mul_noise + MUL_COST) + MUL_COST },
    ];
    assert_eq!(expected_elements.as_slice(), results.as_slice());
}

#[test]
fn test_plain_mod_q() {
    let circuit = mul_circuit();
    let mut plain_mod_q = PlainModQBackend::new();
    let error = plain_mod_q.eval(&circuit, &[1]).expect_err("should have failed");
    assert_eq!(BackendError::InvalidInputLen(2, 1), error);

    let results = plain_mod_q.eval(&circuit, &[1, 1]).expect("should have evaluated");
    assert_eq!(&[1u64; 6][..], results.as_slice());
}

#[test]
fn plain_values_are_reduced_modulo_q() {
    // (3 * 4) + 2 = 14 = 3 mod 11; 3 - 4 would be negative, so only addition and product here.
    let circuit = circuit_of(
        11,
        vec![
            Gate::Input(0),
            Gate::Input(1),
            Gate::BinOp(BinOp::Mul, 0, 1),
            Gate::Const(2),
            Gate::BinOp(BinOp::Add, 2, 3),
        ],
        vec![0, 1],
        vec![4],
    );
    let mut backend = PlainModQBackend::new();
    let all = backend.eval(&circuit, &[3, 4]).expect("should have evaluated");
    assert_eq!(&[3u64, 4, 1, 2, 3][..], all.as_slice());
    let outputs = backend.eval_outputs(&circuit, &[3, 4]).expect("should have evaluated");
    assert_eq!(&[3u64][..], outputs.as_slice());
}

#[test]
fn eval_outputs_agrees_with_eval_at_the_outputs() {
    let circuit = mul_circuit();
    let mut backend = MockFHEBackend::new(100);
    let all = backend.eval(&circuit, &[1, 1]).expect("should have evaluated");
    let mut backend = MockFHEBackend::new(100);
    let outputs = backend.eval_outputs(&circuit, &[1, 1]).expect("should have evaluated");
    let picked: Vec<FHEElement> = circuit.outputs().iter().map(|o| all[*o as usize]).collect();
    assert_eq!(picked.as_slice(), outputs.as_slice());
}

#[test]
fn mock_input_count_mismatch_is_reported_by_eval_outputs() {
    let circuit = add_sub_circuit();
    let mut backend = MockFHEBackend::new(10);
    let error = backend.eval_outputs(&circuit, &[1, 2, 3]).expect_err("should have failed");
    assert_eq!(BackendError::InvalidInputLen(2, 3), error);
}

#[test]
fn malformed_circuits_are_recognised() {
    let forward = circuit_of(11, vec![Gate::BinOp(BinOp::Add, 1, 1), Gate::Input(0)], vec![1], vec![0]);
    assert!(!forward.is_well_formed());
    let bad_output = circuit_of(11, vec![Gate::Input(0)], vec![0], vec![3]);
    assert!(!bad_output.is_well_formed());
    assert!(mul_circuit().is_well_formed());
}
