use vstd::prelude::*;

use std::collections::HashSet;

verus! {

broadcast use vstd::std_specs::hash::group_hash_axioms;

/// The elements of a set of gate indices, each once, in the set's iteration order.
pub fn set_elements(s: &HashSet<u32>) -> (v: Vec<u32>)
    ensures
        v@.to_set() == s@,
        v@.no_duplicates(),
{
    let mut v: Vec<u32> = Vec::new();
    for x in it: s.iter()
        invariant
            v@ == it.seq().take(it.index()).unref(),
            it.seq().unref().to_set() == s@,
            it.seq().unref().no_duplicates(),
            it.index() == it.seq().len() ==> v@ == it.seq().unref(),
    {
        v.push(*x);
        proof {
            assert(it.seq().take(it.index() + 1) =~= it.seq().take(it.index()).push(x));
            assert(it.seq().take(it.seq().len() as int).unref() =~= it.seq().unref());
        }
    }
    v
}

} // verus!
