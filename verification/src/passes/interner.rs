use vstd::prelude::*;

use la_arena::Arena;
use std::collections::HashMap;

use crate::arena::{expr_arena_alloc, expr_arena_items};
use crate::dsl::expr::{Expr, ExprIdx};

verus! {

broadcast use vstd::std_specs::hash::group_hash_axioms;

/// A node that can be hash-consed: equal nodes have equal keys, and unequal nodes unequal
/// keys.
pub trait Internable {
    spec fn spec_key(&self) -> u128;

    fn intern_key(&self) -> (k: u128)
        ensures
            k == self.spec_key(),
    ;
}

/// Given a node, if an equal node was interned before, gives its index instead of storing the
/// new one.
#[derive(Debug)]
pub struct Interner {
    map: HashMap<u128, ExprIdx>,
}

/// The map of an interner indexes exactly the expressions of the arena, by key: each
/// expression is found under its key at its own index (so no two expressions share a key).
pub open spec fn interned(map: Map<u128, ExprIdx>, items: Seq<Expr>) -> bool {
    &&& forall|i: int| 0 <= i < items.len() ==> #[trigger] map.contains_key(items[i].spec_key())
        && map[items[i].spec_key()] == i
    &&& forall|k: u128| #[trigger] map.contains_key(k) ==> map[k] < items.len() && items[map[k] as int].spec_key() == k
}

/// Indexed expressions with the same key are one expression.
pub proof fn lemma_interned_keys_distinct(map: Map<u128, ExprIdx>, items: Seq<Expr>, i: int, j: int)
    requires
        interned(map, items),
        0 <= i < items.len(),
        0 <= j < items.len(),
        items[i].spec_key() == items[j].spec_key(),
    ensures
        i == j,
{
    assert(map.contains_key(items[i].spec_key()));
    assert(map.contains_key(items[j].spec_key()));
}

/// The index at which interning `e` into `items` stores or finds it.
pub open spec fn intern_index(items: Seq<Expr>, e: Expr) -> int {
    if exists|i: int| 0 <= i < items.len() && items[i].spec_key() == e.spec_key() {
        choose|i: int| 0 <= i < items.len() && items[i].spec_key() == e.spec_key()
    } else {
        items.len() as int
    }
}

impl Interner {
    pub closed spec fn view(&self) -> Map<u128, ExprIdx> {
        self.map@
    }

    pub fn new() -> (i: Self)
        ensures
            i.view() == Map::<u128, ExprIdx>::empty(),
    {
        Self { map: HashMap::new() }
    }

    /// Finds `key` among the interned expressions, or stores it in `arena`; returns its index.
    pub fn intern(&mut self, key: Expr, arena: &mut Arena<Expr>) -> (idx: ExprIdx)
        requires
            interned(old(self).view(), expr_arena_items(*old(arena))),
            expr_arena_items(*old(arena)).len() < u32::MAX,
        ensures
            interned(final(self).view(), expr_arena_items(*final(arena))),
            idx == intern_index(expr_arena_items(*old(arena)), key),
            (exists|i: int|
                0 <= i < expr_arena_items(*old(arena)).len() && expr_arena_items(*old(arena))[i].spec_key()
                    == key.spec_key()) ==> expr_arena_items(*final(arena)) == expr_arena_items(*old(arena)),
            !(exists|i: int|
                0 <= i < expr_arena_items(*old(arena)).len() && expr_arena_items(*old(arena))[i].spec_key()
                    == key.spec_key()) ==> expr_arena_items(*final(arena)) == expr_arena_items(
                *old(arena),
            ).push(key),
    {
        let ghost items = expr_arena_items(*arena);
        let k = key.intern_key();
        if let Some(idx) = self.get(k) {
            proof {
                let i = idx as int;
                assert(items[i].spec_key() == k);
                let c = choose|j: int| 0 <= j < items.len() && items[j].spec_key() == key.spec_key();
                assert(self.map@[items[c].spec_key()] == c);
            }
            return idx;
        }
        let idx = expr_arena_alloc(arena, key);
        self.add(k, idx);
        proof {
            let new_items = expr_arena_items(*arena);
            assert(new_items == items.push(key));
            assert forall|i: int| 0 <= i < new_items.len() implies #[trigger] self.map@.contains_key(new_items[i].spec_key())
                && self.map@[new_items[i].spec_key()] == i by {
                if i < items.len() {
                    assert(new_items[i] == items[i]);
                    assert(old(self).map@.contains_key(items[i].spec_key()));
                }
            }
            assert forall|kk: u128| #[trigger] self.map@.contains_key(kk) implies self.map@[kk] < new_items.len()
                && new_items[self.map@[kk] as int].spec_key() == kk by {
                if kk != k {
                    assert(old(self).map@.contains_key(kk));
                }
            }
            assert(!(exists|i: int| 0 <= i < items.len() && items[i].spec_key() == key.spec_key())) by {
                if exists|i: int| 0 <= i < items.len() && items[i].spec_key() == key.spec_key() {
                    let i = choose|i: int| 0 <= i < items.len() && items[i].spec_key() == key.spec_key();
                    assert(old(self).map@.contains_key(items[i].spec_key()));
                }
            }
        }
        idx
    }

    fn add(&mut self, key: u128, value: ExprIdx)
        ensures
            final(self).map@ == old(self).map@.insert(key, value),
    {
        self.map.insert(key, value);
    }

    fn get(&self, key: u128) -> (r: Option<ExprIdx>)
        ensures
            r == if self.map@.contains_key(key) {
                Some(self.map@[key])
            } else {
                None::<ExprIdx>
            },
    {
        match self.map.get(&key) {
            Some(idx) => Some(*idx),
            None => None,
        }
    }
}

} // verus!
