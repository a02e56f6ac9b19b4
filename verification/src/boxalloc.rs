//! A reusable-slot store for component-owned payloads.
//!
//! Frames can carry a payload (for example a shaped-text buffer) that the
//! layout engine itself never interprets. The store hands out stable indices;
//! freed slots go into a FIFO free list and are recycled before the backing
//! vector grows.

use vstd::prelude::*;

use std::collections::VecDeque;

verus! {

/// A slot store: `slots[i]` holds the payload at index `i`, or nothing when
/// slot `i` is free; free slot indices wait in `free_list` in the order they
/// were freed.
pub struct Allocator<T> {
    slots: Vec<Option<T>>,
    free_list: VecDeque<usize>,
}

impl<T> Allocator<T> {
    /// The slot contents, index by index.
    pub closed spec fn slots(&self) -> Seq<Option<T>> {
        self.slots@
    }

    /// The indices waiting to be recycled, oldest first.
    pub closed spec fn free_list(&self) -> Seq<usize> {
        self.free_list@
    }

    /// Every free-list entry names a distinct, in-range, empty slot.
    pub open spec fn wf(&self) -> bool {
        &&& forall|k: int|
            0 <= k < self.free_list().len() ==> (#[trigger] self.free_list()[k]) < self.slots().len()
                && self.slots()[self.free_list()[k] as int] is None
        &&& forall|k1: int, k2: int|
            0 <= k1 < k2 < self.free_list().len() ==> self.free_list()[k1] != self.free_list()[k2]
    }

    /// An empty store.
    pub fn new() -> (a: Allocator<T>)
        ensures
            a.wf(),
            a.slots() == Seq::<Option<T>>::empty(),
            a.free_list() == Seq::<usize>::empty(),
    {
        Allocator { slots: Vec::new(), free_list: VecDeque::new() }
    }

    /// Stores a payload and returns its index: the oldest free slot when one
    /// exists, otherwise a fresh slot at the end of the store.
    pub fn allocate(&mut self, data: T) -> (id: usize)
        requires
            old(self).wf(),
        ensures
            final(self).wf(),
            id < final(self).slots().len(),
            final(self).slots()[id as int] == Some(data),
            if old(self).free_list().len() > 0 {
                id == old(self).free_list()[0]
                    && final(self).slots() == old(self).slots().update(id as int, Some(data))
                    && final(self).free_list() == old(self).free_list().drop_first()
            } else {
                id == old(self).slots().len()
                    && final(self).slots() == old(self).slots().push(Some(data))
                    && final(self).free_list() == old(self).free_list()
            },
    {
        if let Some(recycled_id) = self.free_list.pop_front() {
            let slot = &mut self.slots[recycled_id];
            *slot = Some(data);
            recycled_id
        } else {
            let new_id = self.slots.len();
            self.slots.push(Some(data));
            new_id
        }
    }

    /// Frees the slot at `id`, making the index available for recycling.
    /// Reports whether the slot was occupied; freeing an already-free or
    /// out-of-range index changes nothing.
    pub fn dealloc(&mut self, id: usize) -> (freed: bool)
        requires
            old(self).wf(),
        ensures
            final(self).wf(),
            freed == (id < old(self).slots().len() && old(self).slots()[id as int] is Some),
            if freed {
                final(self).slots() == old(self).slots().update(id as int, None::<T>)
                    && final(self).free_list() == old(self).free_list().push(id)
            } else {
                final(self).slots() =~= old(self).slots() && final(self).free_list()
                    == old(self).free_list()
            },
    {
        if id < self.slots.len() {
            let slot = &mut self.slots[id];
            if slot.is_some() {
                *slot = None;
                self.free_list.push_back(id);
                assert forall|k: int|
                    0 <= k < self.free_list().len() implies (#[trigger] self.free_list()[k])
                    < self.slots().len() && self.slots()[self.free_list()[k] as int] is None by {
                    if k < self.free_list().len() - 1 {
                        assert(old(self).free_list()[k] == self.free_list()[k]);
                    }
                }
                true
            } else {
                false
            }
        } else {
            false
        }
    }

    /// The payload at `id`, or nothing for a free or out-of-range index.
    pub fn get(&self, id: usize) -> (r: Option<&T>)
        ensures
            match r {
                Some(data) => id < self.slots().len() && self.slots()[id as int] == Some(*data),
                None => id >= self.slots().len() || self.slots()[id as int] is None,
            },
    {
        if id < self.slots.len() {
            self.slots[id].as_ref()
        } else {
            None
        }
    }

    /// Mutable access to the payload at `id`, or nothing for a free or
    /// out-of-range index.
    pub fn get_mut(&mut self, id: usize) -> (r: Option<&mut T>)
        requires
            old(self).wf(),
        ensures
            final(self).wf(),
            final(self).free_list() == old(self).free_list(),
            r is Some <==> (id < old(self).slots().len() && old(self).slots()[id as int]
                is Some),
            r is Some ==> old(self).slots()[id as int] == Some(*r.unwrap())
                && final(self).slots() == old(self).slots().update(
                id as int,
                Some(*final(r.unwrap())),
            ),
            r is None ==> final(self).slots() =~= old(self).slots(),
    {
        if id < self.slots.len() {
            let slot = &mut self.slots[id];
            slot.as_mut()
        } else {
            None
        }
    }
}

} // verus!
