//! The free ranges of an address space, indexed by address and by length.

use crate::model::RangeSetView;
use crate::ordered::{key_set, OrdMap, OrdSet};
use crate::pointer::Pointer;
use vstd::prelude::*;

verus! {

/// Keeps track of the unallocated ranges of slots of an address space.
///
/// When a region is released it is merged with the free ranges that touch it.
/// The free ranges are held twice: by start address, to find neighbours, and by
/// length, to find the best fit for a request.
#[derive(Debug)]
pub struct RangeSet {
    capacity: usize,
    /// start of a free range -> its length
    ranges: OrdMap<usize>,
    /// length -> the starts of the free ranges of that length;
    /// a length is present only with at least one start.
    free: OrdMap<OrdSet>,
}

impl View for RangeSet {
    type V = RangeSetView;

    closed spec fn view(&self) -> RangeSetView {
        RangeSetView { capacity: self.capacity as int, ranges: self.by_address() }
    }
}

impl RangeSet {
    /// The index by address: the start of each free range with its length.
    pub closed spec fn by_address(&self) -> Map<int, int> {
        Map::new(|a: int| self.ranges@.contains_key(a), |a: int| self.ranges@[a] as int)
    }

    /// The index by length: each length that a free range has, with the
    /// starts of the free ranges of that length.
    pub closed spec fn by_length(&self) -> Map<int, Set<int>> {
        Map::new(|l: int| self.free@.contains_key(l), |l: int| self.free@[l]@)
    }

    /// The two indices are in order and hold the same free ranges, no length
    /// stands without a start, and no range ends beyond what `usize` holds.
    pub closed spec fn mirrored(&self) -> bool {
        &&& self.ranges.wf()
        &&& self.free.wf()
        &&& forall|l: int| #[trigger]
            self.free@.contains_key(l) ==> self.free@[l].wf() && exists|a: int|
                self.free@[l]@.contains(a)
        &&& forall|a: int| #[trigger]
            self.ranges@.contains_key(a) ==> {
                &&& a + self.ranges@[a] <= usize::MAX
                &&& self.free@.contains_key(self.ranges@[a] as int)
                &&& self.free@[self.ranges@[a] as int]@.contains(a)
            }
        &&& forall|l: int, a: int|
            self.free@.contains_key(l) && #[trigger] self.free@[l]@.contains(a) ==> {
                &&& self.ranges@.contains_key(a)
                &&& self.ranges@[a] == l
            }
    }

    /// The indices mirror each other and the free ranges are apart from each
    /// other; they may reach beyond the address space.
    pub closed spec fn sound(&self) -> bool {
        &&& self.mirrored()
        &&& self@.sound()
    }

    /// The invariant: the indices mirror each other, and the free ranges are
    /// apart from each other and inside the address space.
    pub closed spec fn wf(&self) -> bool {
        &&& self.mirrored()
        &&& self@.valid()
    }

    /// A range set over an empty address space.
    pub fn new() -> (set: RangeSet)
        ensures
            set.wf(),
            set@ == (RangeSetView { capacity: 0, ranges: Map::empty() }),
    {
        let set = RangeSet { capacity: 0, ranges: OrdMap::new(), free: OrdMap::new() };
        assert(set@.ranges =~= Map::empty());
        set
    }

    /// A well-formed range set is sound, and its free ranges lie apart from
    /// each other inside the address space.
    pub proof fn lemma_valid(&self)
        requires
            self.wf(),
        ensures
            self.sound(),
            self@.valid(),
            self@.capacity <= usize::MAX,
    {
    }

    /// The index by address and the index by length hold the same free
    /// ranges, and no length stands in the index by length without a start.
    pub proof fn lemma_mirror(&self)
        requires
            self.sound(),
        ensures
            self@.ranges == self.by_address(),
            forall|a: int, l: int|
                self.by_address().contains_pair(a, l) <==> self.by_length().contains_key(l)
                    && #[trigger] self.by_length()[l].contains(a),
            forall|l: int| #[trigger]
                self.by_length().contains_key(l) ==> exists|a: int|
                    self.by_length()[l].contains(a),
    {
        assert forall|a: int, l: int|
            self.by_address().contains_pair(a, l) <==> self.by_length().contains_key(l)
                && #[trigger] self.by_length()[l].contains(a) by {
            if self.by_address().contains_pair(a, l) {
                assert(self.ranges@.contains_key(a));
            }
            if self.by_length().contains_key(l) && self.by_length()[l].contains(a) {
                assert(self.free@.contains_key(l) && self.free@[l]@.contains(a));
            }
        }
        assert forall|l: int| #[trigger] self.by_length().contains_key(l) implies exists|a: int|
            self.by_length()[l].contains(a) by {
            assert(self.free@.contains_key(l));
            let a = choose|a: int| self.free@[l]@.contains(a);
            assert(self.by_length()[l].contains(a));
        }
    }

    /// No two free ranges touch or overlap: between the end of one and the
    /// start of the next lies at least one slot that is not free.
    pub proof fn lemma_no_adjacency(&self)
        requires
            self.sound(),
        ensures
            forall|a: int, b: int|
                #[trigger] self@.ranges.contains_key(a) && #[trigger] self@.ranges.contains_key(b)
                    && a < b ==> a + self@.ranges[a] < b,
    {
    }

    /// The size of the address space, in slots.
    pub fn capacity(&self) -> (capacity: usize)
        ensures
            capacity == self@.capacity,
    {
        self.capacity
    }

    /// The free range with the highest start at or before `pointer`.
    pub fn last_at_most(&self, pointer: Pointer) -> (range: Option<(Pointer, usize)>)
        requires
            self.sound(),
        ensures
            match range {
                Some((start, size)) => {
                    &&& self@.ranges.contains_pair(start.0 as int, size as int)
                    &&& start.0 <= pointer.0
                    &&& forall|b: int| #[trigger]
                        self@.ranges.contains_key(b) && b <= pointer.0 ==> b <= start.0
                },
                None => forall|b: int| #[trigger] self@.ranges.contains_key(b) ==> pointer.0 < b,
            },
    {
        match self.ranges.last_at_most(pointer.0) {
            Some((start, size)) => Some((Pointer(start), *size)),
            None => None,
        }
    }

    /// Takes the free range that starts at `pointer` out of both indices and
    /// returns its length.
    fn mark(&mut self, pointer: Pointer) -> (size: usize)
        requires
            old(self).mirrored(),
            old(self)@.ranges.contains_key(pointer.0 as int),
        ensures
            final(self).mirrored(),
            final(self)@ == old(self)@.mark(pointer.0 as int),
            size == old(self)@.ranges[pointer.0 as int],
    {
        let ghost before = *self;
        let removed = self.ranges.remove(pointer.0);
        let size = removed.unwrap();
        let held = self.free.remove(size as u64);
        let mut bucket = held.unwrap();
        bucket.remove(pointer.0);
        if !bucket.is_empty() {
            self.free.insert(size as u64, bucket);
        }
        proof {
            assert forall|a: int| #[trigger] self.ranges@.contains_key(a) implies {
                &&& a + self.ranges@[a] <= usize::MAX
                &&& self.free@.contains_key(self.ranges@[a] as int)
                &&& self.free@[self.ranges@[a] as int]@.contains(a)
            } by {
                assert(before.ranges@.contains_key(a));
                let l = before.ranges@[a] as int;
                assert(before.free@[l]@.contains(a));
                if l == size {
                    assert(bucket@.contains(a));
                }
            }
            assert forall|l: int| #[trigger] self.free@.contains_key(l) implies self.free@[l].wf()
                && exists|a: int| self.free@[l]@.contains(a) by {
                if l == size {
                    if forall|a: int| !bucket@.contains(a) {
                        assert(bucket@ =~= Set::<int>::empty());
                    }
                    let a = choose|a: int| bucket@.contains(a);
                    assert(self.free@[l]@.contains(a));
                } else {
                    assert(before.free@.contains_key(l));
                    let a = choose|a: int| before.free@[l]@.contains(a);
                    assert(self.free@[l]@.contains(a));
                }
            }
            assert forall|l: int, a: int|
                self.free@.contains_key(l) && #[trigger] self.free@[l]@.contains(a) implies {
                &&& self.ranges@.contains_key(a)
                &&& self.ranges@[a] == l
            } by {
                assert(before.free@.contains_key(l));
                assert(before.free@[l]@.contains(a));
            }
            assert(self@.ranges =~= before@.mark(pointer.0 as int).ranges);
        }
        size
    }

    /// Puts the free range of `slots` slots at `pointer` into both indices.
    fn track(&mut self, pointer: Pointer, slots: usize)
        requires
            old(self).mirrored(),
            !old(self)@.ranges.contains_key(pointer.0 as int),
            pointer.0 + slots <= usize::MAX,
        ensures
            final(self).mirrored(),
            final(self)@ == (RangeSetView {
                capacity: old(self)@.capacity,
                ranges: old(self)@.ranges.insert(pointer.0 as int, slots as int),
            }),
    {
        let ghost before = *self;
        let held = self.free.remove(slots as u64);
        let mut bucket = match held {
            Some(bucket) => bucket,
            None => OrdSet::new(),
        };
        bucket.insert(pointer.0);
        self.free.insert(slots as u64, bucket);
        self.ranges.insert(pointer.0, slots);
        proof {
            assert forall|a: int| #[trigger] self.ranges@.contains_key(a) implies {
                &&& a + self.ranges@[a] <= usize::MAX
                &&& self.free@.contains_key(self.ranges@[a] as int)
                &&& self.free@[self.ranges@[a] as int]@.contains(a)
            } by {
                if a != pointer.0 {
                    assert(before.ranges@.contains_key(a));
                    let l = before.ranges@[a] as int;
                    assert(before.free@[l]@.contains(a));
                }
            }
            assert forall|l: int| #[trigger] self.free@.contains_key(l) implies self.free@[l].wf()
                && exists|a: int| self.free@[l]@.contains(a) by {
                if l == slots {
                    assert(self.free@[l]@.contains(pointer.0 as int));
                } else {
                    assert(before.free@.contains_key(l));
                    let a = choose|a: int| before.free@[l]@.contains(a);
                    assert(self.free@[l]@.contains(a));
                }
            }
            assert forall|l: int, a: int|
                self.free@.contains_key(l) && #[trigger] self.free@[l]@.contains(a) implies {
                &&& self.ranges@.contains_key(a)
                &&& self.ranges@[a] == l
            } by {
                if l == slots && a == pointer.0 {
                } else if l == slots {
                    assert(before.free@.contains_key(l));
                    assert(before.free@[l]@.contains(a));
                } else {
                    assert(before.free@.contains_key(l));
                    assert(before.free@[l]@.contains(a));
                }
            }
            assert(self@.ranges =~= before@.ranges.insert(pointer.0 as int, slots as int));
        }
    }

    /// Releases the region of `slots` slots at `pointer`, and returns the
    /// number of slots by which the address space has shrunk.
    ///
    /// The region is merged with the free range that ends where it starts and
    /// with the one that starts where it ends. Where the merged range reaches
    /// the end of the address space it is not kept: the address space is cut
    /// back to its start, and its length is returned. Elsewhere it becomes a
    /// free range and 0 is returned.
    ///
    /// The region must meet no free range. An empty region is taken at the end
    /// of the address space only, where it cuts off the free range that ends
    /// there. A region that lies inside the address space leaves the set well
    /// formed; one that reaches beyond it leaves the set sound, with the free
    /// ranges as the model says.
    pub fn free(&mut self, pointer: Pointer, slots: usize) -> (shrink: usize)
        requires
            old(self).wf(),
            old(self)@.can_free(pointer.0 as int, slots as int),
            pointer.0 + slots <= usize::MAX,
        ensures
            final(self).sound(),
            pointer.0 + slots <= old(self)@.capacity ==> final(self).wf(),
            final(self)@ == old(self)@.free(pointer.0 as int, slots as int),
            shrink == old(self)@.freed_tail(pointer.0 as int, slots as int),
    {
        let ghost start = self@;
        let ghost p = pointer.0 as int;
        let ghost n = slots as int;
        proof {
            start.lemma_free_sound(p, n);
        }
        let mut lo: u64 = pointer.0;
        let mut len: usize = slots;

        // start with the range before
        let before = match self.ranges.last_below(pointer.0) {
            Some((a, size)) => Some((a, *size)),
            None => None,
        };
        let ghost mut merged_left = false;
        if let Some((a, size)) = before {
            // if the free ranges are back to back, the old range is extended
            if a + size as u64 == pointer.0 {
                proof {
                    start.lemma_left_unique(a as int, p);
                    merged_left = true;
                }
                self.mark(Pointer(a));
                lo = a;
                len = size + slots;
            }
        }
        proof {
            if !merged_left {
                assert forall|x: int| !start.ends_at(x, p) by {
                    if start.ends_at(x, p) {
                        assert(start.ranges.contains_key(x));
                        match before {
                            Some((a, size)) => {
                                assert(start.ranges.contains_key(a as int));
                                if x < a {
                                    assert(x + start.ranges[x] < a);
                                }
                            },
                            None => {},
                        }
                    }
                }
                assert(self@.ranges =~= start.ranges.remove(lo as int));
            }
            assert(lo == start.merged_start(p));
            assert(lo + len == p + n);
            assert(self@.ranges == start.ranges.remove(lo as int));
        }
        let ghost middle = self@;

        // then the range after
        let after = match self.ranges.first_at_least(lo) {
            Some((b, size)) => Some((b, *size)),
            None => None,
        };
        let ghost mut merged_right = false;
        if let Some((b, size)) = after {
            if lo + len as u64 == b {
                proof {
                    merged_right = true;
                }
                self.mark(Pointer(b));
                len = len + size;
            }
        }
        proof {
            if !merged_right {
                if start.ranges.contains_key(p + n) {
                    assert(middle.ranges.contains_key(p + n));
                    match after {
                        Some((b, size)) => {
                            assert(middle.ranges.contains_key(b as int));
                            assert(start.ranges.contains_key(b as int));
                            assert(b < p + n);
                            if start.has_left(p) {
                                assert(start.ends_at(lo as int, p));
                                assert(lo + start.ranges[lo as int] < b);
                            }
                        },
                        None => {},
                    }
                    assert(false);
                }
                assert(self@.ranges =~= middle.ranges.remove(p + n));
            }
            assert(lo + len == start.merged_end(p, n));
            assert(self@.ranges == start.ranges.remove(lo as int).remove(p + n));
        }

        // a range at the tail is cut off the address space
        if lo as usize + len == self.capacity {
            self.capacity = self.capacity - len;
            return len;
        }
        // elsewhere it is kept as a free range

        self.track(Pointer(lo), len);
        0
    }

    /// Takes the first `slots` slots of the free range that starts at
    /// `pointer`, and releases what is left of the range behind them.
    ///
    /// `pointer` must be the start of a free range, and the range must hold
    /// `slots` slots at least.
    pub fn mark_smaller(&mut self, pointer: Pointer, slots: usize)
        requires
            old(self).wf(),
            old(self)@.ranges.contains_key(pointer.0 as int),
            slots <= old(self)@.ranges[pointer.0 as int],
        ensures
            final(self).wf(),
            final(self)@ == old(self)@.mark_smaller(pointer.0 as int, slots as int),
    {
        let ghost start = self@;
        // grab the full range
        let size = self.mark(pointer);
        if size == slots {
            return ;
        }
        // let go of the end
        proof {
            let p = pointer.0 as int;
            assert forall|a: int| #[trigger] self@.ranges.contains_key(a) implies a
                + self@.ranges[a] <= p + slots || p + size <= a by {
                assert(start.ranges.contains_key(a));
                if a < p {
                    assert(a + start.ranges[a] < p);
                } else {
                    assert(p + start.ranges[p] < a);
                }
            }
        }
        self.free(Pointer(pointer.0 + slots as u64), size - slots);
    }

    /// Finds a place for `slots` slots. Returns its start and the number of
    /// slots by which the address space has grown: the backing storage must
    /// grow by as much.
    ///
    /// The place is the best fit: the shortest free range that holds `slots`
    /// slots, and the lowest among those of that length; what is left of it is
    /// released again. Where no free range is long enough, the free range at
    /// the tail of the address space is taken whole, and the address space
    /// grows by what it lacks. Where there is none either, the address space
    /// grows by `slots`, and the place is its old end.
    pub fn mark_first(&mut self, slots: usize) -> (placed: (Pointer, usize))
        requires
            old(self).wf(),
            old(self)@.capacity + slots <= usize::MAX,
        ensures
            final(self).wf(),
            final(self)@ == old(self)@.mark_first(slots as int).state,
            placed.0.0 == old(self)@.mark_first(slots as int).pointer,
            placed.1 == old(self)@.mark_first(slots as int).extra,
    {
        let ghost start = self@;
        let ghost n = slots as int;
        // try filling the smallest earliest gap possible
        let fit = match self.free.first_at_least(slots as u64) {
            Some((_, bucket)) => bucket.first(),
            None => None,
        };
        if let Some(address) = fit {
            proof {
                let a = address as int;
                let l = start.ranges[a];
                assert(start.fits(a, n));
                assert forall|b: int| #[trigger] start.fits(b, n) implies start.before(a, b) by {
                    assert(self.ranges@.contains_key(b));
                    assert(self.free@[start.ranges[b]]@.contains(b));
                }
                start.lemma_best_fit_unique(a, n);
            }
            self.mark_smaller(Pointer(address), slots);
            return (Pointer(address), 0);
        }
        proof {
            assert forall|b: int| !start.fits(b, n) by {
                if start.fits(b, n) {
                    assert(self.ranges@.contains_key(b));
                    assert(self.free@.contains_key(start.ranges[b]));
                }
            }
        }

        // if the last range is a tail range, extend it
        let last = match self.ranges.last() {
            Some((tail, size)) => Some((tail, *size)),
            None => None,
        };
        if let Some((tail, size)) = last {
            proof {
                assert(self.ranges@.contains_key(tail as int));
                assert(start.ranges.contains_key(tail as int));
                assert(!start.fits(tail as int, n));
            }
            // this free range goes right up to the end
            if tail as usize + size == self.capacity {
                proof {
                    start.lemma_tail_unique(tail as int);
                }
                self.mark(Pointer(tail));
                let remaining = slots - size;
                self.capacity = self.capacity + remaining;
                return (Pointer(tail), remaining);
            }
        }
        proof {
            assert forall|a: int| !start.is_tail(a) by {
                if start.is_tail(a) {
                    assert(self.ranges@.contains_key(a));
                    match last {
                        Some((tail, size)) => {
                            assert(start.ranges.contains_key(tail as int));
                            if a < tail {
                                assert(a + start.ranges[a] < tail);
                            }
                        },
                        None => {
                            assert(self.ranges@.dom().contains(a));
                        },
                    }
                }
            }
        }

        let pointer = Pointer(self.capacity as u64);
        self.capacity = self.capacity + slots;
        (pointer, slots)
    }

    /// Adds `slots` free slots at the end of the address space: the new
    /// region is released, then counted in the capacity.
    pub fn add_free_capacity(&mut self, slots: usize)
        requires
            old(self).wf(),
            old(self)@.capacity + slots <= usize::MAX,
        ensures
            final(self).wf(),
            final(self)@ == old(self)@.add_free_capacity(slots as int),
    {
        let ghost start = self@;
        proof {
            start.lemma_free_sound(start.capacity, slots as int);
        }
        self.free(Pointer(self.capacity as u64), slots);
        self.capacity = self.capacity + slots;
    }

    /// A range set over an address space of `slots` free slots.
    pub fn new_with_free_capacity(slots: usize) -> (set: RangeSet)
        ensures
            set.wf(),
            set@.capacity == slots,
            set@.ranges == if slots == 0 {
                Map::<int, int>::empty()
            } else {
                Map::<int, int>::empty().insert(0, slots as int)
            },
    {
        let mut empty = RangeSet::new();
        empty.add_free_capacity(slots);
        proof {
            let start = RangeSetView { capacity: 0, ranges: Map::empty() };
            assert(!start.has_left(0));
            assert(empty@.ranges =~= if slots == 0 {
                Map::<int, int>::empty()
            } else {
                Map::<int, int>::empty().insert(0, slots as int)
            });
        }
        empty
    }

    /// The number of free ranges.
    pub fn len(&self) -> (count: usize)
        requires
            self.sound(),
        ensures
            count == self@.ranges.dom().len(),
    {
        proof {
            self.ranges.lemma_entries();
            assert(self@.ranges.dom() =~= self.ranges@.dom());
        }
        self.ranges.len()
    }

    /// The free ranges, each as start and length, from the lowest start to
    /// the highest.
    pub fn ranges(&self) -> (list: Vec<(Pointer, usize)>)
        requires
            self.sound(),
        ensures
            list@.len() == self@.ranges.dom().len(),
            forall|i: int|
                0 <= i < list@.len() ==> self@.ranges.contains_pair(
                    (#[trigger] list@[i]).0.0 as int,
                    list@[i].1 as int,
                ),
            forall|i: int, j: int| 0 <= i < j < list@.len() ==> list@[i].0.0 < list@[j].0.0,
            forall|a: int|
                self@.ranges.contains_key(a) ==> exists|i: int|
                    0 <= i < list@.len() && (#[trigger] list@[i]).0.0 == a,
    {
        proof {
            self.ranges.lemma_entries();
            assert(self@.ranges.dom() =~= self.ranges@.dom());
        }
        let n = self.ranges.len();
        let mut list: Vec<(Pointer, usize)> = Vec::new();
        let mut i: usize = 0;
        while i < n
            invariant
                i <= n,
                n == self.ranges.keys().len(),
                self.ranges.wf(),
                list@.len() == i,
                forall|j: int|
                    0 <= j < i ==> (#[trigger] list@[j]).0.0 == self.ranges.keys()[j] && list@[j].1
                        == self.ranges.values()[j],
            decreases n - i,
        {
            let (start, size) = self.ranges.entry(i);
            list.push((Pointer(start), *size));
            i = i + 1;
        }
        proof {
            assert forall|a: int| self@.ranges.contains_key(a) implies exists|i: int|
                0 <= i < list@.len() && (#[trigger] list@[i]).0.0 == a by {
                assert(key_set(self.ranges.keys()).contains(a));
                let j = choose|j: int|
                    0 <= j < self.ranges.keys().len() && #[trigger] self.ranges.keys()[j] == a;
                assert(list@[j].0.0 == a);
            }
        }
        list
    }

    /// The starts of the free ranges of `size` slots, from the lowest to the
    /// highest, as the index by length holds them.
    pub fn pointers_of_size(&self, size: usize) -> (list: Vec<Pointer>)
        requires
            self.sound(),
        ensures
            forall|i: int|
                0 <= i < list@.len() ==> self.by_length().contains_key(size as int)
                    && self.by_length()[size as int].contains((#[trigger] list@[i]).0 as int),
            forall|i: int, j: int| 0 <= i < j < list@.len() ==> list@[i].0 < list@[j].0,
            forall|a: int|
                self.by_length().contains_key(size as int) && self.by_length()[size as int].contains(
                    a,
                ) ==> exists|i: int| 0 <= i < list@.len() && (#[trigger] list@[i]).0 == a,
    {
        let mut list: Vec<Pointer> = Vec::new();
        if let Some(bucket) = self.free.get(size as u64) {
            proof {
                bucket.lemma_items();
            }
            let n = bucket.len();
            let mut i: usize = 0;
            while i < n
                invariant
                    i <= n,
                    n == bucket.items().len(),
                    bucket.wf(),
                    list@.len() == i,
                    forall|j: int| 0 <= j < i ==> (#[trigger] list@[j]).0 == bucket.items()[j],
                decreases n - i,
            {
                list.push(Pointer(bucket.at(i)));
                i = i + 1;
            }
            proof {
                assert forall|i: int| 0 <= i < list@.len() implies self.by_length()[size as int].contains(
                    (#[trigger] list@[i]).0 as int,
                ) by {
                    assert(bucket.items()[i] == list@[i].0);
                    assert(key_set(bucket.items()).contains(bucket.items()[i] as int));
                }
                assert forall|a: int|
                    self.by_length().contains_key(size as int)
                        && self.by_length()[size as int].contains(a) implies exists|i: int|
                    0 <= i < list@.len() && (#[trigger] list@[i]).0 == a by {
                    assert(key_set(bucket.items()).contains(a));
                    let j = choose|j: int|
                        0 <= j < bucket.items().len() && #[trigger] bucket.items()[j] == a;
                    assert(list@[j].0 == a);
                }
            }
        }
        list
    }

    /// The number of free slots: the lengths of the free ranges, summed.
    pub fn unused(&self) -> (total: usize)
        requires
            self.wf(),
        ensures
            self@.free_slots().finite(),
            total == self@.free_slots().len(),
            total <= self@.capacity,
    {
        let ghost space = self@;
        proof {
            self.ranges.lemma_entries();
            assert(space.ranges.dom() =~= self.ranges@.dom());
        }
        let n = self.ranges.len();
        let mut total: usize = 0;
        let mut i: usize = 0;
        let ghost mut edge: int = if n == 0 {
            space.capacity
        } else {
            self.ranges.keys()[0] as int
        };
        proof {
            space.lemma_free_below_finite(edge);
            assert forall|s: int| !space.free_below(edge).contains(s) by {
                if space.free_below(edge).contains(s) {
                    let k = choose|k: int| #[trigger]
                        space.ranges.contains_key(k) && k <= s < k + space.ranges[k];
                    assert(key_set(self.ranges.keys()).contains(k));
                    let j = choose|j: int|
                        0 <= j < self.ranges.keys().len() && #[trigger] self.ranges.keys()[j] == k;
                    if 0 < j {
                        assert(self.ranges.keys()[0] < self.ranges.keys()[j]);
                    }
                }
            }
            assert(space.free_below(edge) =~= Set::<int>::empty());
        }
        while i < n
            invariant
                i <= n,
                n == self.ranges.keys().len(),
                self.ranges.wf(),
                self.wf(),
                space == self@,
                space.ranges.dom() == self.ranges@.dom(),
                edge == if i < n {
                    self.ranges.keys()[i as int] as int
                } else {
                    space.capacity
                },
                0 <= edge <= space.capacity,
                total == space.free_below(edge).len(),
                total <= edge,
            decreases n - i,
        {
            let (start, size) = self.ranges.entry(i);
            proof {
                self.ranges.lemma_entries();
                let a = start as int;
                assert(self.ranges@.contains_key(self.ranges.keys()[i as int] as int));
                assert(space.ranges.contains_key(a));
                let next: int = if i + 1 < n {
                    self.ranges.keys()[i + 1] as int
                } else {
                    space.capacity
                };
                if i + 1 < n {
                    assert(self.ranges@.contains_key(self.ranges.keys()[i + 1] as int));
                    assert(space.ranges.contains_key(next));
                    assert(self.ranges.keys()[i as int] < self.ranges.keys()[i + 1]);
                }
                assert forall|k: int| #[trigger] space.ranges.contains_key(k) implies k <= a
                    || next <= k by {
                    assert(key_set(self.ranges.keys()).contains(k));
                    let j = choose|j: int|
                        0 <= j < self.ranges.keys().len() && #[trigger] self.ranges.keys()[j] == k;
                    if j < i {
                        assert(self.ranges.keys()[j] < self.ranges.keys()[i as int]);
                    } else if j > i + 1 {
                        assert(self.ranges.keys()[i + 1] < self.ranges.keys()[j]);
                    }
                }
                space.lemma_free_below_step(a, next);
                edge = next;
            }
            total = total + *size;
            i = i + 1;
        }
        proof {
            assert forall|s: int| space.is_free_slot(s) implies s < space.capacity by {
                let k = choose|k: int| #[trigger]
                    space.ranges.contains_key(k) && k <= s < k + space.ranges[k];
            }
            assert(space.free_below(space.capacity) =~= space.free_slots());
            space.lemma_free_below_finite(space.capacity);
        }
        total
    }
}

} // verus!
