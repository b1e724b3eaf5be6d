//! Dense-index identity mapping for raw machine identifiers.

use std::collections::HashMap;

use vstd::prelude::*;

verus! {

broadcast use
    vstd::std_specs::hash::group_hash_axioms,
    vstd::set::group_set_axioms,
    vstd::map::group_map_axioms,
;

/// Whether some raw identifier is mapped to index `i`.
pub open spec fn index_assigned(m: Map<u64, usize>, i: int) -> bool {
    exists|k: u64| #[trigger] m.dom().contains(k) && m[k] == i
}

/// The index that `resolve` returns for `raw_id` against mapping `m`: the
/// recorded index if the identifier was seen, the next sequential one
/// otherwise.
pub open spec fn resolve_spec(m: Map<u64, usize>, raw_id: u64) -> usize {
    if m.contains_key(raw_id) {
        m[raw_id]
    } else {
        m.dom().len() as usize
    }
}

/// The mapping after `resolve` ran for `raw_id`.
pub open spec fn map_step(m: Map<u64, usize>, raw_id: u64) -> Map<u64, usize> {
    if m.contains_key(raw_id) {
        m
    } else {
        m.insert(raw_id, m.dom().len() as usize)
    }
}

/// Assigns a dense, zero-based index to each distinct raw machine
/// identifier, in first-seen order. Never removes or reassigns an index.
pub struct IdentityMapper {
    ids: HashMap<u64, usize>,
    next_id: usize,
}

impl View for IdentityMapper {
    type V = Map<u64, usize>;

    closed spec fn view(&self) -> Map<u64, usize> {
        self.ids@
    }
}

impl IdentityMapper {
    /// The next index to assign, equal to the number of identifiers seen.
    pub closed spec fn spec_next(&self) -> int {
        self.next_id as int
    }

    /// Well-formedness: assigned indices are exactly `0 .. next`, each held
    /// by exactly one raw identifier.
    pub open spec fn wf(&self) -> bool {
        &&& self@.dom().finite()
        &&& self.spec_next() == self@.dom().len()
        &&& forall|k: u64| self@.contains_key(k) ==> (#[trigger] self@[k]) < self@.dom().len()
        &&& forall|k1: u64, k2: u64|
            #![trigger self@[k1], self@[k2]]
            self@.contains_key(k1) && self@.contains_key(k2) && self@[k1] == self@[k2] ==> k1 == k2
        &&& forall|i: int| 0 <= i < self.spec_next() ==> #[trigger] index_assigned(self@, i)
    }

    /// An empty mapping.
    pub fn new() -> (r: IdentityMapper)
        ensures
            r.wf(),
            r@ == Map::<u64, usize>::empty(),
            r.spec_next() == 0,
    {
        IdentityMapper { ids: HashMap::new(), next_id: 0 }
    }

    /// The number of distinct identifiers seen so far.
    pub fn count(&self) -> (r: usize)
        ensures
            r == self.spec_next(),
    {
        self.next_id
    }

    /// Returns the dense index of `raw_id`, assigning the next sequential
    /// index if the identifier has not been seen in this run.
    pub fn resolve(&mut self, raw_id: u64) -> (r: usize)
        requires
            old(self).wf(),
            old(self)@.dom().len() < usize::MAX,
        ensures
            final(self).wf(),
            r == resolve_spec(old(self)@, raw_id),
            final(self)@ == map_step(old(self)@, raw_id),
            final(self)@.contains_key(raw_id) && final(self)@[raw_id] == r,
            r < final(self).spec_next(),
            final(self).spec_next() == if old(self)@.contains_key(raw_id) {
                old(self).spec_next()
            } else {
                old(self).spec_next() + 1
            },
    {
        match self.ids.get(&raw_id) {
            Some(id) => *id,
            None => {
                let id = self.next_id;
                self.ids.insert(raw_id, id);
                self.next_id = self.next_id + 1;
                proof {
                    let m = old(self)@;
                    let m2 = self@;
                    assert(m2 == m.insert(raw_id, id));
                    assert(m2.dom() =~= m.dom().insert(raw_id));
                    assert(m2.dom().len() == m.dom().len() + 1);
                    assert forall|i: int| 0 <= i < self.spec_next() implies #[trigger]
                        index_assigned(m2, i) by {
                        if i < m.dom().len() {
                            assert(index_assigned(m, i));
                            let k = choose|k: u64| #[trigger] m.dom().contains(k) && m[k] == i;
                            assert(m.dom().contains(k) && m[k] == i);
                            assert(m2.dom().contains(k) && m2[k] == i);
                        } else {
                            assert(m2.dom().contains(raw_id) && m2[raw_id] == i);
                        }
                    }
                }
                id
            },
        }
    }
}

/// Law: resolving the same raw identifier a second time returns the same
/// index and leaves the mapping unchanged.
pub proof fn lemma_resolve_stable(m: Map<u64, usize>, raw_id: u64)
    ensures
        resolve_spec(map_step(m, raw_id), raw_id) == resolve_spec(m, raw_id),
        map_step(map_step(m, raw_id), raw_id) == map_step(m, raw_id),
{
}

} // verus!
