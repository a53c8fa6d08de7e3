use fhe_dsl::ir::{Circuit, Gate};
use fhe_dsl::op::BinOp;
use fhe_dsl::passes::analysis::analyse;
use fhe_dsl::passes::depth::depth_analysis_of;
use la_arena::Arena;
use thin_vec::ThinVec;

fn circuit_of(gates: Vec<Gate>, inputs: Vec<u32>, outputs: Vec<u32>) -> Circuit {
    Circuit::with(11, Arena::from_iter(gates), ThinVec::from(inputs), ThinVec::from(outputs))
}

#[test]
fn mul_depth_is_one_less_total_depth() {
    let circuit = circuit_of(
        vec![
            Gate::Input(0),
            Gate::Input(1),
            Gate::BinOp(BinOp::Mul, 0, 1),
            Gate::BinOp(BinOp::Mul, 2, 2),
        ],
        vec![0, 1],
        vec![3],
    );
    let depth_analysis = depth_analysis_of(&circuit);
    assert_eq!(&[3usize][..], depth_analysis.total());
    assert_eq!(1, depth_analysis.mul().len());
    assert_eq!(2, depth_analysis.mul()[0]);
}

#[test]
fn multiple_output_circuit_mul_depth_is_one_less_total_depth() {
    let circuit = circuit_of(
        vec![
            Gate::Input(0),
            Gate::Input(1),
            Gate::BinOp(BinOp::Mul, 0, 1),
            Gate::BinOp(BinOp::Mul, 2, 2),
            Gate::BinOp(BinOp::Mul, 3, 3),
            Gate::BinOp(BinOp::Mul, 2, 3),
        ],
        vec![0, 1],
        vec![3, 4, 5],
    );
    let depth_analysis = depth_analysis_of(&circuit);
    assert_eq!(&[3usize, 4, 4][..], depth_analysis.total());
    assert_eq!(&[2usize, 3, 3][..], depth_analysis.mul());
}

#[test]
fn additions_do_not_count_in_the_multiplicative_depth() {
    let circuit = circuit_of(
        vec![
            Gate::Input(0),
            Gate::Const(4),
            Gate::BinOp(BinOp::Add, 0, 1),
            Gate::BinOp(BinOp::Mul, 2, 0),
            Gate::BinOp(BinOp::Sub, 3, 1),
        ],
        vec![0],
        vec![4, 2],
    );
    let depth_analysis = depth_analysis_of(&circuit);
    assert_eq!(&[1usize, 0][..], depth_analysis.mul());
    assert_eq!(&[4usize, 2][..], depth_analysis.total());
}

#[test]
fn analysis_counts_inputs_and_outputs() {
    let circuit = circuit_of(
        vec![Gate::Input(0), Gate::Input(1), Gate::BinOp(BinOp::Mul, 0, 1)],
        vec![0, 1],
        vec![2, 2],
    );
    let stats = analyse(&circuit);
    assert_eq!(2, stats.num_inputs);
    assert_eq!(2, stats.num_outputs);
    assert_eq!(&[1usize, 1][..], stats.depth_analysis.mul());
    assert_eq!(&[2usize, 2][..], stats.depth_analysis.total());
}
