//! A key-value store from inputs to their square roots, counting its writes.
use vstd::prelude::*;
use vstd::hash_map::HashMapWithView;
use crate::math::floor_sqrt;

verus! {

broadcast use vstd::std_specs::hash::group_hash_axioms;

/// The memo that `sqrt_cached` reads and fills: a map from each input seen to
/// the root stored for it, and the number of writes made so far.
pub struct SqrtStore {
    entries: HashMapWithView<u32, u32>,
    writes: u64,
}

impl View for SqrtStore {
    type V = Map<u32, u32>;

    closed spec fn view(&self) -> Map<u32, u32> {
        self.entries@
    }
}

impl SqrtStore {
    /// How many writes the store has taken.
    pub closed spec fn write_count(&self) -> nat {
        self.writes as nat
    }

    /// Every stored value is the root of its key.
    pub open spec fn is_consistent(&self) -> bool {
        forall|k: u32| #[trigger] self@.contains_key(k) ==> self@[k] == floor_sqrt(k as nat)
    }

    /// An empty store that has taken no writes.
    pub fn new() -> (r: SqrtStore)
        ensures
            r@ == Map::<u32, u32>::empty(),
            r.write_count() == 0,
    {
        SqrtStore { entries: HashMapWithView::new(), writes: 0 }
    }

    /// The value stored under `key`, if any.
    pub fn get(&self, key: u32) -> (r: Option<u32>)
        ensures
            r == (if self@.contains_key(key) {
                Some(self@[key])
            } else {
                None
            }),
    {
        match self.entries.get(&key) {
            Some(v) => Some(*v),
            None => None,
        }
    }

    /// Stores `value` under `key`, replacing what was there, and counts the
    /// write.
    pub fn set(&mut self, key: u32, value: u32)
        requires
            old(self).write_count() < u64::MAX,
        ensures
            final(self)@ == old(self)@.insert(key, value),
            final(self).write_count() == old(self).write_count() + 1,
    {
        self.entries.insert(key, value);
        self.writes = self.writes + 1;
    }

    /// How many writes the store has taken.
    pub fn writes(&self) -> (r: u64)
        ensures
            r == self.write_count(),
    {
        self.writes
    }
}

} // verus!
