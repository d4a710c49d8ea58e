use vstd::prelude::*;

verus! {

/// A slab of values addressed by index. Removed slots are remembered and
/// handed out again by later inserts, so indices stay small and stable.
pub struct Arena<T> {
    slots: Vec<Option<T>>,
    free: Vec<usize>,
}

impl<T: Copy> Arena<T> {
    /// The slots: `Some` for an occupied index, `None` for a vacant one.
    pub closed spec fn view(&self) -> Seq<Option<T>> {
        self.slots@
    }

    /// The vacant slots that inserts will reuse, the next one last.
    pub closed spec fn free_slots(&self) -> Seq<usize> {
        self.free@
    }

    /// Every index on the free list is a distinct vacant slot.
    pub closed spec fn wf(&self) -> bool {
        &&& self.free@.no_duplicates()
        &&& forall|k: int|
            0 <= k < self.free@.len() ==> {
                &&& #[trigger] self.free@[k] < self.slots@.len()
                &&& self.slots@[self.free@[k] as int] is None
            }
    }

    /// An empty arena.
    pub fn new() -> (a: Self)
        ensures
            a.wf(),
            a@ == Seq::<Option<T>>::empty(),
            a.free_slots() == Seq::<usize>::empty(),
    {
        Arena { slots: Vec::new(), free: Vec::new() }
    }

    /// Stores `value` in a vacant slot, reusing a removed one if there is
    /// one and growing the arena otherwise, and returns its index.
    pub fn insert(&mut self, value: T) -> (idx: usize)
        requires
            old(self).wf(),
        ensures
            final(self).wf(),
            idx == (if old(self).free_slots().len() > 0 {
                old(self).free_slots().last()
            } else {
                old(self)@.len() as usize
            }),
            final(self).free_slots() == (if old(self).free_slots().len() > 0 {
                old(self).free_slots().drop_last()
            } else {
                old(self).free_slots()
            }),
            idx <= old(self)@.len(),
            idx < old(self)@.len() ==> old(self)@[idx as int] is None,
            idx == old(self)@.len() ==> final(self)@ == old(self)@.push(Some(value)),
            idx < old(self)@.len() ==> final(self)@ == old(self)@.update(idx as int, Some(value)),
    {
        match self.free.pop() {
            Some(idx) => {
                proof {
                    assert(old(self).free@[old(self).free@.len() - 1] == idx);
                    assert forall|k: int| 0 <= k < self.free@.len() implies self.free@[k] != idx by {
                        assert(old(self).free@[k] == self.free@[k]);
                    }
                }
                self.slots.set(idx, Some(value));
                proof {
                    assert forall|k: int| 0 <= k < self.free@.len() implies {
                        &&& #[trigger] self.free@[k] < self.slots@.len()
                        &&& self.slots@[self.free@[k] as int] is None
                    } by {
                        assert(old(self).free@[k] == self.free@[k]);
                    }
                    assert(self.free@.no_duplicates()) by {
                        assert forall|i: int, j: int|
                            0 <= i < self.free@.len() && 0 <= j < self.free@.len() && i != j
                            implies self.free@[i] != self.free@[j] by {
                            assert(old(self).free@[i] == self.free@[i]);
                            assert(old(self).free@[j] == self.free@[j]);
                        }
                    }
                }
                idx
            },
            None => {
                let idx = self.slots.len();
                self.slots.push(Some(value));
                proof {
                    assert forall|k: int| 0 <= k < self.free@.len() implies {
                        &&& #[trigger] self.free@[k] < self.slots@.len()
                        &&& self.slots@[self.free@[k] as int] is None
                    } by {
                        assert(old(self).slots@[old(self).free@[k] as int] == self.slots@[self.free@[k] as int]);
                    }
                }
                idx
            },
        }
    }

    /// The value at `idx`, if that slot is occupied.
    pub fn get(&self, idx: usize) -> (r: Option<&T>)
        ensures
            r == (if idx < self@.len() {
                match self@[idx as int] {
                    Some(v) => Some(&v),
                    None => None,
                }
            } else {
                None
            }),
    {
        if idx < self.slots.len() {
            match &self.slots[idx] {
                Some(v) => Some(v),
                None => None,
            }
        } else {
            None
        }
    }

    /// Replaces the value in an occupied slot.
    pub fn set(&mut self, idx: usize, value: T)
        requires
            old(self).wf(),
            idx < old(self)@.len(),
            old(self)@[idx as int] is Some,
        ensures
            final(self).wf(),
            final(self)@ == old(self)@.update(idx as int, Some(value)),
            final(self).free_slots() == old(self).free_slots(),
    {
        self.slots.set(idx, Some(value));
        proof {
            assert forall|k: int| 0 <= k < self.free@.len() implies {
                &&& #[trigger] self.free@[k] < self.slots@.len()
                &&& self.slots@[self.free@[k] as int] is None
            } by {
                assert(old(self).slots@[old(self).free@[k] as int] is None);
            }
        }
    }

    /// Empties the slot at `idx` and returns what it held; an index that is
    /// vacant or out of range leaves the arena as it is and gives `None`.
    pub fn remove(&mut self, idx: usize) -> (r: Option<T>)
        requires
            old(self).wf(),
        ensures
            final(self).wf(),
            r == (if idx < old(self)@.len() { old(self)@[idx as int] } else { None }),
            r is Some ==> final(self)@ == old(self)@.update(idx as int, None),
            r is Some ==> final(self).free_slots() == old(self).free_slots().push(idx),
            r is None ==> final(self)@ == old(self)@,
            r is None ==> final(self).free_slots() == old(self).free_slots(),
    {
        if idx < self.slots.len() {
            let cur = self.slots[idx];
            match cur {
                Some(v) => {
                    proof {
                        assert forall|k: int| 0 <= k < self.free@.len() implies self.free@[k] != idx by {}
                    }
                    self.slots.set(idx, None);
                    self.free.push(idx);
                    proof {
                        assert forall|k: int| 0 <= k < self.free@.len() implies {
                            &&& #[trigger] self.free@[k] < self.slots@.len()
                            &&& self.slots@[self.free@[k] as int] is None
                        } by {
                            if k < old(self).free@.len() {
                                assert(old(self).free@[k] == self.free@[k]);
                            }
                        }
                        assert(self.free@.no_duplicates()) by {
                            assert forall|i: int, j: int|
                                0 <= i < self.free@.len() && 0 <= j < self.free@.len() && i != j
                                implies self.free@[i] != self.free@[j] by {
                                if i < old(self).free@.len() {
                                    assert(old(self).free@[i] == self.free@[i]);
                                }
                                if j < old(self).free@.len() {
                                    assert(old(self).free@[j] == self.free@[j]);
                                }
                            }
                        }
                    }
                    Some(v)
                },
                None => None,
            }
        } else {
            None
        }
    }
}

} // verus!
