use vstd::prelude::*;

use std::collections::HashSet;

use crate::ir::GateIdx;

verus! {

broadcast use vstd::std_specs::hash::group_hash_axioms;

/// For each gate, the set of gates that use it; and the gates whose last use went away.
#[derive(Debug)]
pub struct LivenessWRTUsage {
    used: Vec<HashSet<GateIdx>>,
    to_kill: HashSet<GateIdx>,
}

impl LivenessWRTUsage {
    /// The users of each gate.
    pub closed spec fn users(&self) -> Seq<Set<GateIdx>> {
        self.used@.map_values(|s: HashSet<GateIdx>| s@)
    }

    /// The gates whose last use went away since the last `clear`.
    pub closed spec fn killing(&self) -> Set<GateIdx> {
        self.to_kill@
    }

    /// Every set of users is finite.
    pub closed spec fn wf(&self) -> bool {
        forall|i: int| 0 <= i < self.used@.len() ==> #[trigger] self.used@[i]@.finite()
    }

    /// Every set of users of a well-formed liveness is finite.
    pub proof fn lemma_users_finite(&self)
        requires
            self.wf(),
        ensures
            forall|i: int| 0 <= i < self.users().len() ==> #[trigger] self.users()[i].finite(),
    {
    }

    /// No gate has a user yet.
    pub fn new(len_gates: usize) -> (l: Self)
        ensures
            l.wf(),
            l.users() == Seq::new(len_gates as nat, |i: int| Set::<GateIdx>::empty()),
            l.killing() == Set::<GateIdx>::empty(),
    {
        let mut used: Vec<HashSet<GateIdx>> = Vec::new();
        let mut i: usize = 0;
        while i < len_gates
            invariant
                i <= len_gates,
                used@.len() == i,
                forall|j: int| 0 <= j < i ==> (#[trigger] used@[j])@ == Set::<GateIdx>::empty(),
            decreases len_gates - i,
        {
            used.push(HashSet::new());
            i = i + 1;
        }
        let l = Self { used, to_kill: HashSet::new() };
        assert(l.users() =~= Seq::new(len_gates as nat, |i: int| Set::<GateIdx>::empty()));
        l
    }

    /// Forgets the killing list.
    pub fn clear(&mut self)
        ensures
            final(self).users() == old(self).users(),
            final(self).wf() == old(self).wf(),
            final(self).killing() == Set::<GateIdx>::empty(),
    {
        self.to_kill.clear();
    }

    /// The number of users of a gate.
    pub fn num_usage(&self, gate_idx: GateIdx) -> (n: usize)
        requires
            self.wf(),
            gate_idx < self.users().len(),
        ensures
            n == self.users()[gate_idx as int].len(),
    {
        self.used[gate_idx as usize].len()
    }

    /// The users of a gate.
    pub fn get_usages(&self, gate_idx: GateIdx) -> (s: &HashSet<GateIdx>)
        requires
            gate_idx < self.users().len(),
        ensures
            s@ == self.users()[gate_idx as int],
    {
        &self.used[gate_idx as usize]
    }

    /// The users of every gate.
    pub fn all_usages(&self) -> (s: &[HashSet<GateIdx>])
        ensures
            s@.map_values(|u: HashSet<GateIdx>| u@) == self.users(),
    {
        self.used.as_slice()
    }

    /// `rem` no longer uses `gate_idx`; a gate left without users goes on the killing list.
    /// Returns the number of users left.
    pub fn decrement(&mut self, gate_idx: GateIdx, rem: GateIdx) -> (n: usize)
        requires
            old(self).wf(),
            gate_idx < old(self).users().len(),
        ensures
            final(self).wf(),
            final(self).users() == old(self).users().update(
                gate_idx as int,
                old(self).users()[gate_idx as int].remove(rem),
            ),
            n == final(self).users()[gate_idx as int].len(),
            final(self).killing() == if n == 0 {
                old(self).killing().insert(gate_idx)
            } else {
                old(self).killing()
            },
    {
        let n = self.rem_usage_of(gate_idx, rem);
        if n == 0 {
            self.to_kill.insert(gate_idx);
        }
        n
    }

    /// `add` uses `gate_idx`; a gate that gets its first user leaves the killing list.
    /// Returns the number of users.
    pub fn increment(&mut self, gate_idx: GateIdx, add: GateIdx) -> (n: usize)
        requires
            old(self).wf(),
            gate_idx < old(self).users().len(),
        ensures
            final(self).wf(),
            final(self).users() == old(self).users().update(
                gate_idx as int,
                old(self).users()[gate_idx as int].insert(add),
            ),
            n == final(self).users()[gate_idx as int].len(),
            final(self).killing() == if n == 1 {
                old(self).killing().remove(gate_idx)
            } else {
                old(self).killing()
            },
    {
        let n = self.add_usage_of(gate_idx, add);
        if n == 1 {
            self.to_kill.remove(&gate_idx);
        }
        n
    }

    /// The gates whose last use went away since the last `clear`.
    pub fn get_killing_list(&self) -> (s: &HashSet<GateIdx>)
        ensures
            s@ == self.killing(),
    {
        &self.to_kill
    }

    fn rem_usage_of(&mut self, gate_idx: GateIdx, of: GateIdx) -> (n: usize)
        requires
            old(self).wf(),
            gate_idx < old(self).users().len(),
        ensures
            final(self).wf(),
            final(self).users() == old(self).users().update(
                gate_idx as int,
                old(self).users()[gate_idx as int].remove(of),
            ),
            n == final(self).users()[gate_idx as int].len(),
            final(self).killing() == old(self).killing(),
    {
        self.change_usage_of(gate_idx, of, false)
    }

    fn add_usage_of(&mut self, gate_idx: GateIdx, of: GateIdx) -> (n: usize)
        requires
            old(self).wf(),
            gate_idx < old(self).users().len(),
        ensures
            final(self).wf(),
            final(self).users() == old(self).users().update(
                gate_idx as int,
                old(self).users()[gate_idx as int].insert(of),
            ),
            n == final(self).users()[gate_idx as int].len(),
            final(self).killing() == old(self).killing(),
    {
        self.change_usage_of(gate_idx, of, true)
    }

    fn change_usage_of(&mut self, gate_idx: GateIdx, of: GateIdx, add: bool) -> (n: usize)
        requires
            old(self).wf(),
            gate_idx < old(self).users().len(),
        ensures
            final(self).wf(),
            final(self).users() == old(self).users().update(
                gate_idx as int,
                if add {
                    old(self).users()[gate_idx as int].insert(of)
                } else {
                    old(self).users()[gate_idx as int].remove(of)
                },
            ),
            n == final(self).users()[gate_idx as int].len(),
            final(self).killing() == old(self).killing(),
    {
        let ix = gate_idx as usize;
        let ghost before = self.used@;
        if add {
            self.used[ix].insert(of);
        } else {
            self.used[ix].remove(&of);
        }
        proof {
            assert(self.users() =~= old(self).users().update(
                gate_idx as int,
                if add {
                    old(self).users()[gate_idx as int].insert(of)
                } else {
                    old(self).users()[gate_idx as int].remove(of)
                },
            ));
        }
        self.used[ix].len()
    }
}

} // verus!
