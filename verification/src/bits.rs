//! The `BitSet` of `bit_set`, a set of small integers. Verus sees one through the set it holds.
use vstd::prelude::*;

use bit_set::BitSet;

verus! {

/// A `BitSet` (of `u32` blocks). Verus refuses to declare `BitSet` itself, whose parameter is
/// bounded by a trait of its crate, so the set is held here, hidden from Verus.
#[verifier::external_body]
#[derive(Debug)]
pub struct IndexSet {
    set: BitSet,
}

/// The integers a bit set holds.
pub uninterp spec fn bit_set_items(set: IndexSet) -> Set<usize>;

/// `BitSet::new`: an empty set.
#[verifier::external_body]
pub(crate) fn bit_set_new() -> (set: IndexSet)
    ensures
        bit_set_items(set) == Set::<usize>::empty(),
{
    IndexSet { set: BitSet::new() }
}

/// `BitSet::insert`: adds an integer (the set grows its bit vector to hold it); returns
/// whether it was absent.
#[verifier::external_body]
pub(crate) fn bit_set_insert(set: &mut IndexSet, value: usize) -> (was_absent: bool)
    requires
        value < u32::MAX,
    ensures
        bit_set_items(*final(set)) == bit_set_items(*old(set)).insert(value),
        was_absent == !bit_set_items(*old(set)).contains(value),
{
    set.set.insert(value)
}

/// `BitSet::remove`: removes an integer; returns whether it was present.
#[verifier::external_body]
pub(crate) fn bit_set_remove(set: &mut IndexSet, value: usize) -> (was_present: bool)
    ensures
        bit_set_items(*final(set)) == bit_set_items(*old(set)).remove(value),
        was_present == bit_set_items(*old(set)).contains(value),
{
    set.set.remove(value)
}

/// `BitSet::contains`.
#[verifier::external_body]
pub(crate) fn bit_set_contains(set: &IndexSet, value: usize) -> (present: bool)
    ensures
        present == bit_set_items(*set).contains(value),
{
    set.set.contains(value)
}

impl IndexSet {
    /// Whether the set holds `value`.
    pub fn contains(&self, value: usize) -> (b: bool)
        ensures
            b == bit_set_items(*self).contains(value),
    {
        bit_set_contains(self, value)
    }
}

/// `BitSet::is_empty`: whether no bit is set.
#[verifier::external_body]
pub(crate) fn bit_set_is_empty(set: &IndexSet) -> (empty: bool)
    ensures
        empty == (bit_set_items(*set) == Set::<usize>::empty()),
{
    set.set.is_empty()
}

} // verus!
