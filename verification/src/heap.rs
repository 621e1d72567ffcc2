//! A heap of slots: the backing storage, the free ranges of its address
//! space, and the allocations that are live.

use crate::live::{apart, covers, lemma_insert_live, lemma_remove_live, live_slots, tiles};
use crate::model::{span, RangeSetView};
use crate::pointer::Pointer;
use crate::range_set::RangeSet;
use vstd::prelude::*;

verus! {

/// `n` slots that hold 0.
pub open spec fn zeros(n: int) -> Seq<u64> {
    Seq::new(n as nat, |i: int| 0u64)
}

/// `storage` with the slots from `at` on overwritten by `data`.
pub open spec fn written(storage: Seq<u64>, at: int, data: Seq<u64>) -> Seq<u64> {
    Seq::new(
        storage.len(),
        |i: int|
            if at <= i < at + data.len() {
                data[i - at]
            } else {
                storage[i]
            },
    )
}

/// Whether resizing the allocation of `old_size` slots at `p` to `new_size`
/// slots moves it: it grows, and the slots behind it that it needs do not lie
/// in one free range.
pub open spec fn moves(space: RangeSetView, p: int, old_size: int, new_size: int) -> bool {
    new_size > old_size && !space.is_free(p + old_size, new_size - old_size)
}

/// Where the allocation of `old_size` slots at `p` starts once it has been
/// resized to `new_size` slots: where a request for `new_size` slots is
/// placed, if it moves; else at `p`.
pub open spec fn resized_at(space: RangeSetView, p: int, old_size: int, new_size: int) -> int {
    if moves(space, p, old_size, new_size) {
        space.mark_first(new_size).pointer
    } else {
        p
    }
}

/// The free ranges once the allocation of `old_size` slots at `p` has been
/// resized to `new_size` slots. Where it moves, the new place is taken and the
/// old one released. Where it grows in place, the slots behind it are taken
/// from the free range that holds them. Where it shrinks, its last slots are
/// released.
pub open spec fn resized_space(
    space: RangeSetView,
    p: int,
    old_size: int,
    new_size: int,
) -> RangeSetView {
    if moves(space, p, old_size, new_size) {
        space.mark_first(new_size).state.free(p, old_size)
    } else if new_size > old_size {
        space.mark_smaller(p + old_size, new_size - old_size)
    } else if new_size < old_size {
        space.free(p + new_size, old_size - new_size)
    } else {
        space
    }
}

/// The storage once the allocation of `old_size` slots at `p` has been
/// resized to `new_size` slots. Where it moves, the storage grows by zeroed
/// slots as the new place asks, and the old contents are copied there. In
/// each case the storage is cut to the address space that is left.
pub open spec fn resized_storage(
    storage: Seq<u64>,
    space: RangeSetView,
    p: int,
    old_size: int,
    new_size: int,
) -> Seq<u64> {
    let capacity = resized_space(space, p, old_size, new_size).capacity;
    if moves(space, p, old_size, new_size) {
        let placed = space.mark_first(new_size);
        written(
            storage + zeros(placed.extra),
            placed.pointer,
            storage.subrange(p, p + old_size),
        ).take(capacity)
    } else {
        storage.take(capacity)
    }
}

/// The live allocations once the one at `p` has been resized to `new_size`
/// slots and starts at `q`: resized to nothing, it is live no more.
pub open spec fn resized_live(live: Map<int, int>, p: int, q: int, new_size: int) -> Map<
    int,
    int,
> {
    if new_size == 0 {
        live.remove(p)
    } else {
        live.remove(p).insert(q, new_size)
    }
}

/// A heap of 64-bit slots.
///
/// The storage is as long as the address space of the free ranges. Every slot
/// of it lies either in a free range or in a live allocation, and in one only.
pub struct Heap {
    data: Vec<u64>,
    free: RangeSet,
    /// start of each live allocation -> its size
    live: Ghost<Map<int, int>>,
}

impl Heap {
    /// The slots of the backing storage.
    pub closed spec fn storage(&self) -> Seq<u64> {
        self.data@
    }

    /// The address space and its free ranges.
    pub closed spec fn space(&self) -> RangeSetView {
        self.free@
    }

    /// The live allocations: the start of each with its size.
    pub closed spec fn live(&self) -> Map<int, int> {
        self.live@
    }

    /// The invariant: the free ranges are well formed and none of them ends
    /// with the address space, the storage is as long as the address space,
    /// and the live allocations hold the slots that are not free.
    pub closed spec fn wf(&self) -> bool {
        &&& self.free.wf()
        &&& self.data@.len() == self.free@.capacity
        &&& !self.free@.has_tail()
        &&& tiles(self.live@, self.free@)
    }

    /// The live allocations and the free ranges tile the address space: each
    /// slot of the storage lies in a live allocation or in a free range and
    /// never in both, nothing lies outside, no two allocations overlap, and no
    /// two free ranges overlap or touch.
    pub proof fn lemma_coverage(&self)
        requires
            self.wf(),
        ensures
            self.storage().len() == self.space().capacity,
            self.space().valid(),
            !self.space().has_tail(),
            apart(self.live()),
            forall|s: int|
                0 <= s < self.space().capacity ==> (#[trigger] covers(self.live(), s)
                    <==> !self.space().is_free_slot(s)),
            forall|s: int| #[trigger] covers(self.live(), s) ==> 0 <= s < self.space().capacity,
            forall|s: int| #[trigger]
                self.space().is_free_slot(s) ==> 0 <= s < self.space().capacity,
    {
        self.free.lemma_valid();
        let space = self.free@;
        assert forall|s: int| #[trigger] covers(self.live@, s) implies 0 <= s
            < space.capacity by {
            assert(live_slots(self.live@).contains(s));
        }
        assert forall|s: int| #[trigger] space.is_free_slot(s) implies 0 <= s
            < space.capacity by {
            let a = choose|a: int| #[trigger]
                space.ranges.contains_key(a) && a <= s < a + space.ranges[a];
        }
        assert forall|s: int| 0 <= s < space.capacity implies (#[trigger] covers(self.live@, s)
            <==> !space.is_free_slot(s)) by {
            assert(live_slots(self.live@).contains(s) == space.allocated().contains(s));
        }
    }

    /// Allocating `n` slots and freeing them at once leaves the heap as it
    /// was: the free ranges, the storage and the live allocations are those
    /// from before.
    pub proof fn lemma_allocate_then_free(&self, n: int)
        requires
            self.wf(),
            0 < n,
        ensures
            !self.live().contains_key(self.space().mark_first(n).pointer),
            self.space().mark_first(n).state.free(self.space().mark_first(n).pointer, n)
                == self.space(),
            (self.storage() + zeros(self.space().mark_first(n).extra)).take(
                self.space().capacity,
            ) == self.storage(),
            self.live().insert(self.space().mark_first(n).pointer, n).remove(
                self.space().mark_first(n).pointer,
            ) == self.live(),
    {
        let placed = self.free@.mark_first(n);
        self.free.lemma_valid();
        self.free@.lemma_round_trip(n);
        self.free@.lemma_mark_first_allocated(n);
        lemma_insert_live(self.live@, placed.pointer, n);
        assert((self.data@ + zeros(placed.extra)).take(self.free@.capacity) =~= self.data@);
        assert(self.live@.insert(placed.pointer, n).remove(placed.pointer) =~= self.live@);
    }

    /// An empty heap.
    pub fn new() -> (heap: Heap)
        ensures
            heap.wf(),
            heap.storage() == Seq::<u64>::empty(),
            heap.space() == (RangeSetView { capacity: 0, ranges: Map::empty() }),
            heap.live() == Map::<int, int>::empty(),
    {
        let heap = Heap { data: Vec::new(), free: RangeSet::new(), live: Ghost(Map::empty()) };
        proof {
            assert(live_slots(heap.live@) =~= heap.free@.allocated());
        }
        heap
    }

    /// Allocates `slots` slots and returns the start of the allocation.
    ///
    /// The place is the best fit among the free ranges; where none is long
    /// enough, the storage grows at its end by `slots` slots, which hold 0.
    pub fn allocate(&mut self, slots: usize) -> (pointer: Pointer)
        requires
            old(self).wf(),
            slots > 0,
            old(self).space().capacity + slots <= usize::MAX,
        ensures
            final(self).wf(),
            pointer.0 == old(self).space().mark_first(slots as int).pointer,
            final(self).space() == old(self).space().mark_first(slots as int).state,
            final(self).storage() == old(self).storage() + zeros(
                old(self).space().mark_first(slots as int).extra,
            ),
            !old(self).live().contains_key(pointer.0 as int),
            final(self).live() == old(self).live().insert(pointer.0 as int, slots as int),
            final(self).space().capacity >= old(self).space().capacity,
            final(self).storage().len() == final(self).space().capacity,
            pointer.0 + slots <= final(self).storage().len(),
    {
        let ghost before = *self;
        proof {
            self.free.lemma_valid();
            self.free@.lemma_mark_first_allocated(slots as int);
        }
        let (pointer, extra_capacity) = self.free.mark_first(slots);
        let ghost placed = self.free;

        // increase the size of the storage if needed
        let mut added: usize = 0;
        while added < extra_capacity
            invariant
                added <= extra_capacity,
                before.data@.len() + extra_capacity <= usize::MAX,
                self.data@ == before.data@ + zeros(added as int),
                self.free == placed,
                self.live == before.live,
            decreases extra_capacity - added,
        {
            self.data.push(0);
            added = added + 1;
            assert(self.data@ =~= before.data@ + zeros(added as int));
        }
        proof {
            lemma_insert_live(before.live@, pointer.0 as int, slots as int);
        }
        self.live = Ghost(self.live@.insert(pointer.0 as int, slots as int));
        pointer
    }

    /// Releases the region of `slots` slots at `pointer` in the free ranges,
    /// and cuts the storage back by the slots that have left the address
    /// space.
    fn release(&mut self, pointer: Pointer, slots: usize)
        requires
            old(self).free.wf(),
            old(self).data@.len() == old(self).free@.capacity,
            old(self).free@.can_free(pointer.0 as int, slots as int),
            pointer.0 + slots <= old(self).free@.capacity,
        ensures
            final(self).free.wf(),
            final(self).free@ == old(self).free@.free(pointer.0 as int, slots as int),
            final(self).data@ == old(self).data@.take(final(self).free@.capacity),
            final(self).data@.len() == final(self).free@.capacity,
            final(self).live == old(self).live,
    {
        proof {
            self.free.lemma_valid();
            self.free@.lemma_free_allocated(pointer.0 as int, slots as int);
        }
        let unneeded_capacity = self.free.free(pointer, slots);
        self.data.truncate(self.data.len() - unneeded_capacity);
    }

    /// Frees the allocation of `slots` slots at `pointer`.
    ///
    /// `slots` is the size that the allocation has: the size it was allocated
    /// with, or the one it was last resized to. The storage is cut back where
    /// the freed region reaches its end.
    pub fn free(&mut self, pointer: Pointer, slots: usize)
        requires
            old(self).wf(),
            old(self).live().contains_pair(pointer.0 as int, slots as int),
        ensures
            final(self).wf(),
            final(self).space() == old(self).space().free(pointer.0 as int, slots as int),
            final(self).storage() == old(self).storage().take(final(self).space().capacity),
            final(self).live() == old(self).live().remove(pointer.0 as int),
    {
        proof {
            lemma_remove_live(self.live@, pointer.0 as int);
            self.free.lemma_valid();
            self.free@.lemma_allocated_can_free(pointer.0 as int, slots as int);
            self.free@.lemma_free_allocated(pointer.0 as int, slots as int);
        }
        self.release(pointer, slots);
        self.live = Ghost(self.live@.remove(pointer.0 as int));
    }

    /// Whether the region of `slots` slots at `pointer` lies in one free
    /// range. Used to tell whether an allocation can grow in place.
    fn is_free(&self, pointer: Pointer, slots: usize) -> (free: bool)
        requires
            self.free.wf(),
            pointer.0 + slots <= usize::MAX,
        ensures
            free == self.free@.is_free(pointer.0 as int, slots as int),
    {
        proof {
            self.free.lemma_valid();
        }
        // the nearest free range that starts at or before the pointer
        if let Some((p, free_range)) = self.free.last_at_most(pointer) {
            // it must reach as far as the region does
            let p_end = p.0 as usize + free_range;
            let pointer_end = pointer.0 as usize + slots;
            if p_end >= pointer_end {
                return true;
            }
            proof {
                assert forall|a: int| #[trigger]
                    self.free@.ranges.contains_key(a) && a <= pointer.0 implies !(pointer.0
                    + slots <= a + self.free@.ranges[a]) by {
                    if a < p.0 {
                        assert(a + self.free@.ranges[a] < p.0);
                    }
                }
            }
        }
        false
    }

    /// Resizes the allocation of `old_size` slots at `pointer` to `new_size`
    /// slots, and returns where it starts afterwards.
    ///
    /// An allocation that grows stays where it is if the slots behind it lie
    /// in one free range; else it moves to a new place, with its contents. One
    /// that shrinks stays, and its last slots are freed.
    pub fn realloc(&mut self, pointer: Pointer, old_size: usize, new_size: usize) -> (moved:
        Pointer)
        requires
            old(self).wf(),
            old(self).live().contains_pair(pointer.0 as int, old_size as int),
            new_size > old_size ==> old(self).space().capacity + new_size <= usize::MAX,
        ensures
            final(self).wf(),
            moved.0 == resized_at(
                old(self).space(),
                pointer.0 as int,
                old_size as int,
                new_size as int,
            ),
            final(self).space() == resized_space(
                old(self).space(),
                pointer.0 as int,
                old_size as int,
                new_size as int,
            ),
            final(self).storage() == resized_storage(
                old(self).storage(),
                old(self).space(),
                pointer.0 as int,
                old_size as int,
                new_size as int,
            ),
            final(self).live() == resized_live(
                old(self).live(),
                pointer.0 as int,
                moved.0 as int,
                new_size as int,
            ),
            moved.0 + new_size <= final(self).storage().len() || new_size == 0,
            forall|i: int|
                0 <= i < old_size && i < new_size ==> #[trigger] final(self).storage()[moved.0
                    + i] == old(self).storage()[pointer.0 + i],
    {
        let ghost before = *self;
        let ghost p = pointer.0 as int;
        proof {
            self.free.lemma_valid();
            lemma_remove_live(self.live@, p);
            self.free@.lemma_allocated_can_free(p, old_size as int);
        }
        if new_size > old_size {
            // try growing in place
            let tail = Pointer(pointer.0 + old_size as u64);
            let ghost k = new_size - old_size;
            if self.is_free(tail, new_size - old_size) {
                proof {
                    let a = choose|a: int| #[trigger]
                        self.free@.ranges.contains_key(a) && a <= tail.0 && tail.0 + k <= a
                            + self.free@.ranges[a];
                    if a < tail.0 {
                        assert(span(p, old_size as int).contains(tail.0 - 1));
                        assert(self.free@.allocated().contains(tail.0 - 1));
                        assert(self.free@.is_free_slot(tail.0 - 1));
                    }
                    self.free@.lemma_mark_smaller_allocated(tail.0 as int, k);
                    lemma_insert_live(self.live@.remove(p), p, new_size as int);
                }
                self.free.mark_smaller(tail, new_size - old_size);
                self.live = Ghost(self.live@.remove(p).insert(p, new_size as int));
                proof {
                    assert(live_slots(self.live@) =~= self.free@.allocated());
                    assert(self.data@ =~= before.data@.take(self.free@.capacity));
                }
                return pointer;
            }
            // move to a new, larger allocation and copy the data over

            let new_pointer = self.allocate(new_size);
            let ghost grown = *self;
            let ghost q = new_pointer.0 as int;
            proof {
                self.free.lemma_valid();
                lemma_remove_live(self.live@, q);
                self.free@.lemma_allocated_can_free(q, new_size as int);
                assert(self.live@.contains_key(p) && self.live@.contains_key(q));
                assert(self.data.len() == self.data@.len());
            }
            let mut slot: usize = 0;
            while slot < old_size
                invariant
                    slot <= old_size,
                    grown.data@.len() <= usize::MAX,
                    p + old_size <= grown.data@.len(),
                    q + new_size <= grown.data@.len(),
                    old_size < new_size,
                    p == pointer.0,
                    q == new_pointer.0,
                    p + old_size <= q || q + new_size <= p,
                    self.free == grown.free,
                    self.live == grown.live,
                    self.data@ == written(grown.data@, q, grown.data@.subrange(p, p + slot)),
                decreases old_size - slot,
            {
                let value = self.data[pointer.0 as usize + slot];
                self.data[new_pointer.0 as usize + slot] = value;
                slot = slot + 1;
                assert(self.data@ =~= written(grown.data@, q, grown.data@.subrange(p, p + slot)));
            }
            proof {
                assert(grown.data@.subrange(p, p + old_size) =~= before.data@.subrange(
                    p,
                    p + old_size,
                ));
            }
            // and free the old small allocation
            self.free(pointer, old_size);
            proof {
                assert(self.live@ =~= before.live@.remove(p).insert(q, new_size as int));
                lemma_remove_live(self.live@, q);
                assert(span(q, new_size as int).contains(q + new_size - 1));
                assert(self.free@.allocated().contains(q + new_size - 1));
            }
            return new_pointer;
        } else if old_size > new_size {
            // free the back half of the allocation
            proof {
                assert(span(p + new_size, old_size - new_size).subset_of(span(p, old_size as int)));
                self.free@.lemma_allocated_can_free(p + new_size, old_size - new_size);
                self.free@.lemma_free_allocated(p + new_size, old_size - new_size);
            }
            self.release(Pointer(pointer.0 + new_size as u64), old_size - new_size);
            if new_size == 0 {
                self.live = Ghost(self.live@.remove(p));
                proof {
                    assert(live_slots(self.live@) =~= self.free@.allocated());
                }
            } else {
                proof {
                    lemma_insert_live(self.live@.remove(p), p, new_size as int);
                }
                self.live = Ghost(self.live@.remove(p).insert(p, new_size as int));
                proof {
                    assert(live_slots(self.live@) =~= self.free@.allocated());
                    assert(span(p, new_size as int).contains(p + new_size - 1));
                    assert(self.free@.allocated().contains(p + new_size - 1));
                }
            }
            return pointer;
        }
        // they're equal, so do nothing

        proof {
            assert(self.live@ =~= before.live@.remove(p).insert(p, new_size as int));
            assert(self.data@ =~= before.data@.take(self.free@.capacity));
        }
        pointer
    }

    /// Reads the slot at `slot` slots behind `pointer`.
    pub fn read_slot(&self, pointer: Pointer, slot: usize) -> (value: u64)
        requires
            pointer.0 + slot < self.storage().len(),
        ensures
            value == self.storage()[pointer.0 + slot],
    {
        proof {
            assert(self.data.len() == self.data@.len());
        }
        self.data[pointer.0 as usize + slot]
    }

    /// The `slots` slots from `pointer` on.
    pub fn read(&self, pointer: Pointer, slots: usize) -> (data: &[u64])
        requires
            pointer.0 + slots <= self.storage().len(),
        ensures
            data@ == self.storage().subrange(pointer.0 as int, pointer.0 + slots),
    {
        proof {
            assert(self.data.len() == self.data@.len());
        }
        let start = pointer.0 as usize;
        &self.data[start..(start + slots)]
    }

    /// Overwrites the slots from `pointer` on with `item`, in place, and
    /// returns `pointer`.
    pub fn write(&mut self, pointer: Pointer, item: &mut [u64]) -> (written_at: Pointer)
        requires
            old(self).wf(),
            pointer.0 + old(item)@.len() <= old(self).storage().len(),
        ensures
            final(self).wf(),
            written_at == pointer,
            final(self).storage() == written(old(self).storage(), pointer.0 as int, old(item)@),
            final(self).space() == old(self).space(),
            final(self).live() == old(self).live(),
            final(item)@ == old(item)@,
    {
        let ghost before = *self;
        proof {
            assert(self.data.len() == self.data@.len());
        }
        let mut slot: usize = 0;
        while slot < item.len()
            invariant
                slot <= item@.len(),
                item@ == old(item)@,
                pointer.0 + item@.len() <= before.data@.len() <= usize::MAX,
                self.free == before.free,
                self.live == before.live,
                self.data@ == written(before.data@, pointer.0 as int, item@.take(slot as int)),
            decreases item@.len() - slot,
        {
            let value = item[slot];
            self.data[pointer.0 as usize + slot] = value;
            slot = slot + 1;
            assert(self.data@ =~= written(
                before.data@,
                pointer.0 as int,
                item@.take(slot as int),
            ));
        }
        proof {
            assert(item@.take(slot as int) =~= item@);
        }
        pointer
    }

    /// The number of slots of the backing storage.
    pub fn len(&self) -> (slots: usize)
        ensures
            slots == self.storage().len(),
    {
        self.data.len()
    }

    /// The free ranges of the heap.
    pub fn free_ranges(&self) -> (set: &RangeSet)
        requires
            self.wf(),
        ensures
            set.wf(),
            set@ == self.space(),
    {
        &self.free
    }
}

} // verus!
