//! The binary-heap priority queue of `prio_queue`, which orders the operands of a rebalanced
//! operation and the roots a rebalancing visits. Verus sees a queue through the multiset of
//! items it holds, and through the priority it was made with.
use vstd::prelude::*;

use prio_queue::PrioQueue;
use vstd::multiset::Multiset;

verus! {

#[verifier::external_type_specification]
#[verifier::external_body]
#[verifier::reject_recursive_types(T)]
pub struct ExPrioQueue<T>(PrioQueue<T>);

/// The (gate, rank) items a queue of operands holds.
pub uninterp spec fn rank_queue_items(queue: PrioQueue<(u32, isize)>) -> Multiset<(u32, isize)>;

/// The queue was made to put the item of lowest rank first.
pub uninterp spec fn rank_queue_lowest_first(queue: PrioQueue<(u32, isize)>) -> bool;

/// The (gate, precedence) items a queue of roots holds.
pub uninterp spec fn root_queue_items(queue: PrioQueue<(u32, usize)>) -> Multiset<(u32, usize)>;

/// The queue was made to put the item of highest precedence first.
pub uninterp spec fn root_queue_highest_first(queue: PrioQueue<(u32, usize)>) -> bool;

/// The priority of a queue of operands: the lower rank first.
pub fn lower_rank_first(l: &(u32, isize), r: &(u32, isize)) -> (b: bool)
    ensures
        b == (l.1 < r.1),
{
    l.1 < r.1
}

/// The priority of a queue of roots: the higher precedence first.
pub fn higher_precedence_first(l: &(u32, usize), r: &(u32, usize)) -> (b: bool)
    ensures
        b == (l.1 > r.1),
{
    l.1 > r.1
}

/// `PrioQueue::new` with `lower_rank_first` as the priority: an empty queue.
#[verifier::external_body]
pub(crate) fn rank_queue_new() -> (queue: PrioQueue<(u32, isize)>)
    ensures
        rank_queue_items(queue) == Multiset::<(u32, isize)>::empty(),
        rank_queue_lowest_first(queue),
{
    PrioQueue::new(lower_rank_first)
}

/// `PrioQueue::push`: adds the item, keeping the priority the queue was made with.
#[verifier::external_body]
pub(crate) fn rank_queue_push(queue: &mut PrioQueue<(u32, isize)>, item: (u32, isize))
    ensures
        rank_queue_items(*final(queue)) == rank_queue_items(*old(queue)).insert(item),
        rank_queue_lowest_first(*final(queue)) == rank_queue_lowest_first(*old(queue)),
{
    queue.push(item)
}

/// `PrioQueue::pop`: takes out the top of the heap, an item of the lowest rank (which one
/// among items of equal rank is left open); nothing from an empty queue.
#[verifier::external_body]
pub(crate) fn rank_queue_pop(queue: &mut PrioQueue<(u32, isize)>) -> (top: Option<(u32, isize)>)
    requires
        rank_queue_lowest_first(*old(queue)),
    ensures
        rank_queue_lowest_first(*final(queue)),
        match top {
            None => rank_queue_items(*old(queue)).len() == 0 && rank_queue_items(*final(queue)) == rank_queue_items(
                *old(queue),
            ),
            Some(x) => {
                &&& rank_queue_items(*old(queue)).contains(x)
                &&& rank_queue_items(*final(queue)) == rank_queue_items(*old(queue)).remove(x)
                &&& forall|y: (u32, isize)| #[trigger] rank_queue_items(*old(queue)).contains(y) ==> x.1 <= y.1
            },
        },
{
    queue.pop()
}

/// The number of items (the length of the slice the queue dereferences to).
#[verifier::external_body]
pub(crate) fn rank_queue_len(queue: &PrioQueue<(u32, isize)>) -> (n: usize)
    ensures
        n == rank_queue_items(*queue).len(),
{
    queue.len()
}

/// `PrioQueue::new` with `higher_precedence_first` as the priority: an empty queue.
#[verifier::external_body]
pub(crate) fn root_queue_new() -> (queue: PrioQueue<(u32, usize)>)
    ensures
        root_queue_items(queue) == Multiset::<(u32, usize)>::empty(),
        root_queue_highest_first(queue),
{
    PrioQueue::new(higher_precedence_first)
}

/// `PrioQueue::push` on a queue of roots.
#[verifier::external_body]
pub(crate) fn root_queue_push(queue: &mut PrioQueue<(u32, usize)>, item: (u32, usize))
    ensures
        root_queue_items(*final(queue)) == root_queue_items(*old(queue)).insert(item),
        root_queue_highest_first(*final(queue)) == root_queue_highest_first(*old(queue)),
{
    queue.push(item)
}

/// `PrioQueue::pop` on a queue of roots: an item of the highest precedence (which one among
/// items of equal precedence is left open); nothing from an empty queue.
#[verifier::external_body]
pub(crate) fn root_queue_pop(queue: &mut PrioQueue<(u32, usize)>) -> (top: Option<(u32, usize)>)
    requires
        root_queue_highest_first(*old(queue)),
    ensures
        root_queue_highest_first(*final(queue)),
        match top {
            None => root_queue_items(*old(queue)).len() == 0 && root_queue_items(*final(queue)) == root_queue_items(
                *old(queue),
            ),
            Some(x) => {
                &&& root_queue_items(*old(queue)).contains(x)
                &&& root_queue_items(*final(queue)) == root_queue_items(*old(queue)).remove(x)
                &&& forall|y: (u32, usize)| #[trigger] root_queue_items(*old(queue)).contains(y) ==> x.1 >= y.1
            },
        },
{
    queue.pop()
}

/// Whether a queue of roots is empty (as the slice it dereferences to).
#[verifier::external_body]
pub(crate) fn root_queue_is_empty(queue: &PrioQueue<(u32, usize)>) -> (b: bool)
    ensures
        b == (root_queue_items(*queue).len() == 0),
{
    queue.is_empty()
}

} // verus!
