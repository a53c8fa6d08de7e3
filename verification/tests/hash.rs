use fhe_dsl::ir::{gate_hash, hash_key_of, Gate};
use fhe_dsl::op::BinOp;
use std::collections::HashSet;

#[test]
fn same_data_same_hash_for_ac() {
    let mut hash_set = HashSet::new();
    for bin_op in [BinOp::Add, BinOp::Mul] {
        let gate = Gate::BinOp(bin_op, 0, 1);
        let gate_swapped = Gate::BinOp(bin_op, 1, 0);
        hash_set.insert(gate);
        assert!(hash_set.contains(&gate_swapped));
    }
}

#[test]
fn same_data_same_hash_for_non_ac() {
    let gate = Gate::BinOp(BinOp::Sub, 0, 1);
    let gate_swapped = Gate::BinOp(BinOp::Sub, 1, 0);
    let mut hash_set = HashSet::new();
    hash_set.insert(gate);
    assert!(!hash_set.contains(&gate_swapped));
}

#[test]
fn inputs_and_constants_have_distinct_keys() {
    let input = hash_key_of(&gate_hash(&Gate::Input(3)));
    let constant = hash_key_of(&gate_hash(&Gate::Const(3)));
    assert_ne!(input, constant);
    assert_eq!(input, hash_key_of(&gate_hash(&Gate::Input(3))));
}

#[test]
fn canonical_keys_agree_with_equality() {
    let gate = Gate::BinOp(BinOp::Mul, 4, 2);
    let swapped = Gate::BinOp(BinOp::Mul, 2, 4);
    assert_eq!(gate, swapped);
    assert_eq!(hash_key_of(&gate_hash(&gate)), hash_key_of(&gate_hash(&swapped)));
    let sub = Gate::BinOp(BinOp::Sub, 4, 2);
    let sub_swapped = Gate::BinOp(BinOp::Sub, 2, 4);
    assert_ne!(sub, sub_swapped);
    assert_ne!(hash_key_of(&gate_hash(&sub)), hash_key_of(&gate_hash(&sub_swapped)));
}
