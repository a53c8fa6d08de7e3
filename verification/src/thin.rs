//! The `ThinVec` of `thin_vec`, which holds the index lists of circuits and the results the
//! library hands back. Verus sees one through the sequence it holds.
use vstd::prelude::*;

use thin_vec::ThinVec;

use crate::backend::mock_fhe::FHEElement;
use crate::dsl::expr::Expr;

verus! {

#[verifier::external_type_specification]
#[verifier::external_body]
#[verifier::reject_recursive_types(T)]
pub struct ExThinVec<T>(ThinVec<T>);

/// The indices a list of indices holds, in order.
pub uninterp spec fn idx_list_items(list: ThinVec<u32>) -> Seq<u32>;

/// The plain values a list holds, in order.
pub uninterp spec fn value_list_items(list: ThinVec<u64>) -> Seq<u64>;

/// The mock ciphertexts a list holds, in order.
pub uninterp spec fn element_list_items(list: ThinVec<FHEElement>) -> Seq<FHEElement>;

/// The depths a list holds, in order.
pub uninterp spec fn depth_list_items(list: ThinVec<usize>) -> Seq<usize>;

/// The edges a list holds, in order.
pub uninterp spec fn edge_list_items(list: ThinVec<(u32, u32)>) -> Seq<(u32, u32)>;

/// The expressions a list holds, in order.
pub uninterp spec fn expr_list_items(list: ThinVec<Expr>) -> Seq<Expr>;

/// `ThinVec::from(Vec<u32>)`: the same indices in the same order.
#[verifier::external_body]
pub(crate) fn idx_list_from_vec(v: Vec<u32>) -> (list: ThinVec<u32>)
    ensures
        idx_list_items(list) == v@,
{
    ThinVec::from(v)
}

/// `ThinVec::as_slice` over indices.
#[verifier::external_body]
pub(crate) fn idx_list_as_slice(list: &ThinVec<u32>) -> (s: &[u32])
    ensures
        s@ == idx_list_items(*list),
{
    list.as_slice()
}

/// `ThinVec::from(Vec<u64>)`.
#[verifier::external_body]
pub(crate) fn value_list_from_vec(v: Vec<u64>) -> (list: ThinVec<u64>)
    ensures
        value_list_items(list) == v@,
{
    ThinVec::from(v)
}

/// `ThinVec::from(Vec<FHEElement>)`.
#[verifier::external_body]
pub(crate) fn element_list_from_vec(v: Vec<FHEElement>) -> (list: ThinVec<FHEElement>)
    ensures
        element_list_items(list) == v@,
{
    ThinVec::from(v)
}

/// `ThinVec::from(Vec<usize>)`.
#[verifier::external_body]
pub(crate) fn depth_list_from_vec(v: Vec<usize>) -> (list: ThinVec<usize>)
    ensures
        depth_list_items(list) == v@,
{
    ThinVec::from(v)
}

/// `ThinVec::as_slice` over depths.
#[verifier::external_body]
pub(crate) fn depth_list_as_slice(list: &ThinVec<usize>) -> (s: &[usize])
    ensures
        s@ == depth_list_items(*list),
{
    list.as_slice()
}

/// `ThinVec::from(Vec<(u32, u32)>)`.
#[verifier::external_body]
pub(crate) fn edge_list_from_vec(v: Vec<(u32, u32)>) -> (list: ThinVec<(u32, u32)>)
    ensures
        edge_list_items(list) == v@,
{
    ThinVec::from(v)
}

/// `ThinVec::from(Vec<Expr>)`.
#[verifier::external_body]
pub(crate) fn expr_list_from_vec(v: Vec<Expr>) -> (list: ThinVec<Expr>)
    ensures
        expr_list_items(list) == v@,
{
    ThinVec::from(v)
}

} // verus!
