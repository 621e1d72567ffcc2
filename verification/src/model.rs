//! The mathematical model of a range set: a capacity and a map from the start
//! of each free range to its length, with the operations on it as functions
//! from one such value to the next.

use vstd::prelude::*;
use vstd::set_lib::{lemma_int_range, lemma_len_subset, lemma_set_disjoint_lens, set_int_range};

verus! {

/// What a range set stands for: the size of its address space and its free
/// ranges, each as start and length.
pub struct RangeSetView {
    pub capacity: int,
    pub ranges: Map<int, int>,
}

/// Where a request was placed: the state after it, the start of the region
/// handed out, and the slots by which the address space grew.
pub struct Placement {
    pub state: RangeSetView,
    pub pointer: int,
    pub extra: int,
}

/// The slots of the region of `n` slots at `p`.
pub open spec fn span(p: int, n: int) -> Set<int> {
    Set::new(|s: int| p <= s < p + n)
}

impl RangeSetView {
    /// Each free range starts at or after 0 and holds at least one slot.
    pub open spec fn positive(self) -> bool {
        forall|a: int| #[trigger]
            self.ranges.contains_key(a) ==> 0 <= a && 0 < self.ranges[a]
    }

    /// No two free ranges overlap or touch: a range ends before the next one
    /// starts, with at least one slot between them.
    pub open spec fn separated(self) -> bool {
        forall|a: int, b: int|
            #[trigger] self.ranges.contains_key(a) && #[trigger] self.ranges.contains_key(b) && a
                < b ==> a + self.ranges[a] < b
    }

    /// Every free range ends at or before `limit`.
    pub open spec fn within(self, limit: int) -> bool {
        forall|a: int| #[trigger] self.ranges.contains_key(a) ==> a + self.ranges[a] <= limit
    }

    /// The free ranges are finitely many, not empty and apart from each other.
    pub open spec fn sound(self) -> bool {
        &&& 0 <= self.capacity
        &&& self.ranges.dom().finite()
        &&& self.positive()
        &&& self.separated()
    }

    /// The invariant of a range set: sound, and all free ranges lie inside
    /// the address space.
    pub open spec fn valid(self) -> bool {
        &&& self.sound()
        &&& self.within(self.capacity)
    }

    /// Whether slot `s` lies in a free range.
    pub open spec fn is_free_slot(self, s: int) -> bool {
        exists|a: int| #[trigger] self.ranges.contains_key(a) && a <= s < a + self.ranges[a]
    }

    /// The slots that lie in a free range.
    pub open spec fn free_slots(self) -> Set<int> {
        Set::new(|s: int| self.is_free_slot(s))
    }

    /// The slots before `edge` that lie in a free range.
    pub open spec fn free_below(self, edge: int) -> Set<int> {
        Set::new(|s: int| self.is_free_slot(s) && s < edge)
    }

    /// The slots of the address space that lie in no free range.
    pub open spec fn allocated(self) -> Set<int> {
        Set::new(|s: int| 0 <= s < self.capacity && !self.is_free_slot(s))
    }

    /// Whether the free range that starts at `a` ends where `p` starts.
    pub open spec fn ends_at(self, a: int, p: int) -> bool {
        self.ranges.contains_key(a) && a < p && a + self.ranges[a] == p
    }

    /// Whether a free range ends where `p` starts.
    pub open spec fn has_left(self, p: int) -> bool {
        exists|a: int| self.ends_at(a, p)
    }

    /// The start of the free range that ends where `p` starts.
    pub open spec fn left(self, p: int) -> int {
        choose|a: int| self.ends_at(a, p)
    }

    /// Whether the region of `n` slots at `p` may be released: it meets no
    /// free range, and it is empty only at the end of the address space.
    pub open spec fn can_free(self, p: int, n: int) -> bool {
        &&& 0 <= p
        &&& 0 <= n
        &&& n > 0 || p == self.capacity
        &&& forall|a: int| #[trigger]
            self.ranges.contains_key(a) ==> a + self.ranges[a] <= p || p + n <= a
    }

    /// Where the released region starts once the free range before it, if it
    /// touches, has been joined to it.
    pub open spec fn merged_start(self, p: int) -> int {
        if self.has_left(p) {
            self.left(p)
        } else {
            p
        }
    }

    /// Where the released region ends once the free range after it, if it
    /// touches, has been joined to it.
    pub open spec fn merged_end(self, p: int, n: int) -> int {
        if self.ranges.contains_key(p + n) {
            p + n + self.ranges[p + n]
        } else {
            p + n
        }
    }

    /// The slots by which the address space shrinks when the region of `n`
    /// slots at `p` is released: the length of the merged range where it
    /// reaches the end of the address space, else 0.
    pub open spec fn freed_tail(self, p: int, n: int) -> int {
        if self.merged_end(p, n) == self.capacity {
            self.merged_end(p, n) - self.merged_start(p)
        } else {
            0
        }
    }

    /// The state after the region of `n` slots at `p` has been released: the
    /// touching neighbours are taken out; the merged range is cut off the
    /// address space where it reaches its end, and becomes a free range
    /// elsewhere.
    pub open spec fn free(self, p: int, n: int) -> RangeSetView {
        let lo = self.merged_start(p);
        let hi = self.merged_end(p, n);
        let rest = self.ranges.remove(lo).remove(p + n);
        if hi == self.capacity {
            RangeSetView { capacity: self.capacity - (hi - lo), ranges: rest }
        } else {
            RangeSetView { capacity: self.capacity, ranges: rest.insert(lo, hi - lo) }
        }
    }

    /// The state after the address space has grown by `n` free slots at its
    /// end: the new region is released, then counted.
    pub open spec fn add_free_capacity(self, n: int) -> RangeSetView {
        let freed = self.free(self.capacity, n);
        RangeSetView { capacity: freed.capacity + n, ranges: freed.ranges }
    }

    /// The state after the free range that starts at `p` has been taken out.
    pub open spec fn mark(self, p: int) -> RangeSetView {
        RangeSetView { capacity: self.capacity, ranges: self.ranges.remove(p) }
    }

    /// The state after the first `n` slots of the free range that starts at
    /// `p` have been taken: the range leaves, and what is left of it behind
    /// the `n` slots is released again.
    pub open spec fn mark_smaller(self, p: int, n: int) -> RangeSetView {
        let size = self.ranges[p];
        if size == n {
            self.mark(p)
        } else {
            self.mark(p).free(p + n, size - n)
        }
    }

    /// Whether the region of `n` slots at `p` lies in one free range.
    pub open spec fn is_free(self, p: int, n: int) -> bool {
        exists|a: int| #[trigger]
            self.ranges.contains_key(a) && a <= p && p + n <= a + self.ranges[a]
    }

    /// Whether the free range that starts at `a` holds `n` slots or more.
    pub open spec fn fits(self, a: int, n: int) -> bool {
        self.ranges.contains_key(a) && self.ranges[a] >= n
    }

    /// Whether some free range holds `n` slots or more.
    pub open spec fn has_fit(self, n: int) -> bool {
        exists|a: int| self.fits(a, n)
    }

    /// Whether the free range at `a` is chosen before the one at `b`: it is
    /// shorter, or as long and not at a higher address.
    pub open spec fn before(self, a: int, b: int) -> bool {
        self.ranges[a] < self.ranges[b] || (self.ranges[a] == self.ranges[b] && a <= b)
    }

    /// Whether the free range at `a` is the best fit for `n` slots: the
    /// shortest that holds them, and among those of that length the lowest.
    pub open spec fn is_best_fit(self, a: int, n: int) -> bool {
        self.fits(a, n) && forall|b: int| #[trigger] self.fits(b, n) ==> self.before(a, b)
    }

    /// The start of the best fit for `n` slots.
    pub open spec fn best_fit(self, n: int) -> int {
        choose|a: int| self.is_best_fit(a, n)
    }

    /// Whether the free range that starts at `a` ends with the address space.
    pub open spec fn is_tail(self, a: int) -> bool {
        self.ranges.contains_key(a) && a + self.ranges[a] == self.capacity
    }

    /// Whether a free range ends with the address space.
    pub open spec fn has_tail(self) -> bool {
        exists|a: int| self.is_tail(a)
    }

    /// The start of the free range that ends with the address space.
    pub open spec fn tail(self) -> int {
        choose|a: int| self.is_tail(a)
    }

    /// Where a request for `n` slots is placed. In the best fit, where a free
    /// range holds them. Else in the tail range, with the address space grown
    /// by what the tail range lacks. Else behind the end of the address space,
    /// grown by `n`.
    pub open spec fn mark_first(self, n: int) -> Placement {
        if self.has_fit(n) {
            let a = self.best_fit(n);
            Placement { state: self.mark_smaller(a, n), pointer: a, extra: 0 }
        } else if self.has_tail() {
            let t = self.tail();
            let extra = n - self.ranges[t];
            Placement {
                state: RangeSetView {
                    capacity: self.capacity + extra,
                    ranges: self.ranges.remove(t),
                },
                pointer: t,
                extra,
            }
        } else {
            Placement {
                state: RangeSetView { capacity: self.capacity + n, ranges: self.ranges },
                pointer: self.capacity,
                extra: n,
            }
        }
    }

    /// At most one free range ends at a given slot.
    pub proof fn lemma_left_unique(self, a: int, p: int)
        requires
            self.separated(),
            self.ends_at(a, p),
        ensures
            self.has_left(p),
            self.left(p) == a,
    {
        let b = self.left(p);
        assert(self.ends_at(b, p));
        if a < b {
            assert(a + self.ranges[a] < b);
        }
        if b < a {
            assert(b + self.ranges[b] < a);
        }
    }

    /// At most one free range ends with the address space.
    pub proof fn lemma_tail_unique(self, a: int)
        requires
            self.separated(),
            self.positive(),
            self.is_tail(a),
        ensures
            self.has_tail(),
            self.tail() == a,
    {
        let b = self.tail();
        assert(self.is_tail(b));
        if a < b {
            assert(a + self.ranges[a] < b);
        }
        if b < a {
            assert(b + self.ranges[b] < a);
        }
    }

    /// There is one best fit at most.
    pub proof fn lemma_best_fit_unique(self, a: int, n: int)
        requires
            self.is_best_fit(a, n),
        ensures
            self.has_fit(n),
            self.best_fit(n) == a,
    {
        let b = self.best_fit(n);
        assert(self.is_best_fit(b, n));
        assert(self.fits(a, n) && self.fits(b, n));
        assert(self.before(a, b) && self.before(b, a));
    }

    /// Releasing a region that meets no free range leaves the free ranges
    /// apart from each other, and inside the address space where the region
    /// was inside it.
    pub proof fn lemma_free_sound(self, p: int, n: int)
        requires
            self.valid(),
            self.can_free(p, n),
        ensures
            self.free(p, n).sound(),
            self.free(p, n).within(
                if self.capacity <= p + n {
                    p + n
                } else {
                    self.capacity
                },
            ),
            p + n <= self.capacity ==> self.free(p, n).valid(),
            self.merged_start(p) <= p,
            p + n <= self.merged_end(p, n),
            0 <= self.merged_start(p),
    {
        let lo = self.merged_start(p);
        let hi = self.merged_end(p, n);
        let after = self.free(p, n);
        if self.has_left(p) {
            assert(self.ends_at(lo, p));
        }
        assert(lo <= p);
        assert(p + n <= hi);
        assert forall|a: int| #[trigger] after.ranges.contains_key(a) && a != lo implies {
            &&& self.ranges.contains_key(a)
            &&& after.ranges[a] == self.ranges[a]
            &&& a + self.ranges[a] < lo || hi < a
        } by {
            assert(self.ranges.contains_key(a));
            assert(a != p + n);
            if a + self.ranges[a] <= p {
                if self.has_left(p) {
                    if a < lo {
                        assert(a + self.ranges[a] < lo);
                    } else {
                        assert(lo + self.ranges[lo] < a);
                    }
                } else {
                    assert(!self.ends_at(a, p));
                }
            } else {
                assert(p + n <= a);
                if self.ranges.contains_key(p + n) {
                    assert(p + n + self.ranges[p + n] < a);
                }
            }
        }
        assert(after.ranges.dom().finite());
        assert(after.positive());
        assert(after.separated());
    }

    /// Among the free ranges that hold `n` slots there is a shortest.
    proof fn lemma_shortest_fit(self, n: int, bound: int) -> (a: int)
        requires
            exists|b: int| self.fits(b, n) && self.ranges[b] <= bound,
        ensures
            self.fits(a, n),
            forall|b: int| #[trigger] self.fits(b, n) ==> self.ranges[a] <= self.ranges[b],
        decreases bound - n,
    {
        if exists|b: int| self.fits(b, n) && self.ranges[b] <= bound - 1 {
            self.lemma_shortest_fit(n, bound - 1)
        } else {
            let a = choose|b: int| self.fits(b, n) && self.ranges[b] <= bound;
            assert forall|b: int| #[trigger] self.fits(b, n) implies self.ranges[a]
                <= self.ranges[b] by {
                if self.ranges[b] < self.ranges[a] {
                    assert(self.fits(b, n) && self.ranges[b] <= bound - 1);
                }
            }
            a
        }
    }

    /// Among the free ranges of length `l` there is a lowest.
    proof fn lemma_lowest_of_length(self, l: int, bound: int) -> (a: int)
        requires
            self.positive(),
            exists|b: int| self.ranges.contains_key(b) && self.ranges[b] == l && b <= bound,
        ensures
            self.ranges.contains_key(a),
            self.ranges[a] == l,
            forall|b: int| #[trigger] self.ranges.contains_key(b) && self.ranges[b] == l ==> a <= b,
        decreases bound,
    {
        if exists|b: int| self.ranges.contains_key(b) && self.ranges[b] == l && b <= bound - 1 {
            let b = choose|b: int|
                self.ranges.contains_key(b) && self.ranges[b] == l && b <= bound - 1;
            assert(0 <= b);
            self.lemma_lowest_of_length(l, bound - 1)
        } else {
            let a = choose|b: int| self.ranges.contains_key(b) && self.ranges[b] == l && b <= bound;
            assert forall|b: int| #[trigger]
                self.ranges.contains_key(b) && self.ranges[b] == l implies a <= b by {
                if b < a {
                    assert(self.ranges.contains_key(b) && self.ranges[b] == l && b <= bound - 1);
                }
            }
            a
        }
    }

    /// Where a free range holds `n` slots, there is a best fit.
    pub proof fn lemma_best_fit_exists(self, n: int)
        requires
            self.positive(),
            self.has_fit(n),
        ensures
            self.is_best_fit(self.best_fit(n), n),
    {
        let w = choose|b: int| self.fits(b, n);
        let shortest = self.lemma_shortest_fit(n, self.ranges[w]);
        let l = self.ranges[shortest];
        let a = self.lemma_lowest_of_length(l, shortest);
        assert(self.fits(a, n));
        assert forall|b: int| #[trigger] self.fits(b, n) implies self.before(a, b) by {
            assert(self.ranges[shortest] <= self.ranges[b]);
        }
        assert(self.is_best_fit(a, n));
    }

    /// Releasing an allocated region inside the address space frees its slots
    /// and no others, and never leaves a free range at the tail that was not
    /// there before.
    pub proof fn lemma_free_allocated(self, p: int, n: int)
        requires
            self.valid(),
            self.can_free(p, n),
            p + n <= self.capacity,
        ensures
            self.free(p, n).valid(),
            self.free(p, n).allocated() == self.allocated().difference(span(p, n)),
            self.free(p, n).capacity == self.capacity - self.freed_tail(p, n),
            0 <= self.freed_tail(p, n),
            !self.has_tail() ==> !self.free(p, n).has_tail(),
    {
        self.lemma_free_sound(p, n);
        let lo = self.merged_start(p);
        let hi = self.merged_end(p, n);
        let after = self.free(p, n);
        if self.has_left(p) {
            assert(self.ends_at(lo, p));
        }
        assert forall|s: int|
            after.allocated().contains(s) <==> self.allocated().contains(s) && !span(
                p,
                n,
            ).contains(s) by {
            if after.is_free_slot(s) {
                let a = choose|a: int|
                    #[trigger] after.ranges.contains_key(a) && a <= s < a + after.ranges[a];
                if a == lo {
                    if s < p {
                        assert(self.ranges.contains_key(lo));
                    } else if s >= p + n {
                        assert(self.ranges.contains_key(p + n));
                    }
                } else {
                    assert(self.ranges.contains_key(a));
                }
            }
            if self.is_free_slot(s) {
                let a = choose|a: int|
                    #[trigger] self.ranges.contains_key(a) && a <= s < a + self.ranges[a];
                if a == lo || a == p + n {
                    if hi != self.capacity {
                        assert(after.ranges.contains_key(lo));
                    }
                } else {
                    assert(after.ranges.contains_key(a));
                }
            }
            if span(p, n).contains(s) {
                if hi != self.capacity {
                    assert(after.ranges.contains_key(lo));
                }
            }
            if 0 <= s < self.capacity && !self.is_free_slot(s) && !span(p, n).contains(s) && hi
                == self.capacity && lo <= s {
                if s < p {
                    assert(self.ranges.contains_key(lo));
                } else {
                    assert(self.ranges.contains_key(p + n));
                }
            }
        }
        assert(after.allocated() =~= self.allocated().difference(span(p, n)));
        if !self.has_tail() {
            assert forall|a: int| !after.is_tail(a) by {
                if after.is_tail(a) {
                    if a == lo {
                    } else {
                        assert(self.ranges.contains_key(a));
                        if hi == self.capacity {
                            if self.has_left(p) {
                                if a < lo {
                                    assert(a + self.ranges[a] < lo);
                                }
                            } else {
                                assert(!self.ends_at(a, p));
                            }
                        } else {
                            assert(self.is_tail(a));
                        }
                    }
                }
            }
        }
    }

    /// Taking the first `n` slots of a free range allocates these slots and no
    /// others.
    pub proof fn lemma_mark_smaller_allocated(self, p: int, n: int)
        requires
            self.valid(),
            self.ranges.contains_key(p),
            0 <= n <= self.ranges[p],
        ensures
            self.mark_smaller(p, n).valid(),
            self.mark_smaller(p, n).allocated() == self.allocated().union(span(p, n)),
            self.allocated().disjoint(span(p, n)),
            p + n <= self.mark_smaller(p, n).capacity <= self.capacity,
            !self.has_tail() ==> !self.mark_smaller(p, n).has_tail() && self.mark_smaller(
                p,
                n,
            ).capacity == self.capacity,
    {
        let size = self.ranges[p];
        let marked = self.mark(p);
        assert(marked.valid());
        assert forall|s: int|
            marked.allocated().contains(s) <==> self.allocated().contains(s) || span(
                p,
                size,
            ).contains(s) by {
            if marked.is_free_slot(s) {
                let a = choose|a: int|
                    #[trigger] marked.ranges.contains_key(a) && a <= s < a + marked.ranges[a];
                assert(self.ranges.contains_key(a));
                if a < p {
                    assert(a + self.ranges[a] < p);
                } else {
                    assert(p + self.ranges[p] < a);
                }
            }
            if self.is_free_slot(s) {
                let a = choose|a: int|
                    #[trigger] self.ranges.contains_key(a) && a <= s < a + self.ranges[a];
                if a != p {
                    assert(marked.ranges.contains_key(a));
                }
            }
            if span(p, size).contains(s) {
                assert(self.ranges.contains_key(p));
            }
        }
        assert(marked.allocated() =~= self.allocated().union(span(p, size)));
        assert forall|s: int| !(self.allocated().contains(s) && span(p, size).contains(s)) by {
            if span(p, size).contains(s) {
                assert(self.ranges.contains_key(p));
                assert(self.is_free_slot(s));
            }
        }
        if !self.has_tail() {
            assert forall|a: int| !marked.is_tail(a) by {
                if marked.is_tail(a) {
                    assert(self.is_tail(a));
                }
            }
            assert(!self.is_tail(p));
        }
        if size != n {
            assert forall|a: int| #[trigger] marked.ranges.contains_key(a) implies a
                + marked.ranges[a] <= p + n || p + size <= a by {
                assert(self.ranges.contains_key(a));
                if a < p {
                    assert(a + self.ranges[a] < p);
                } else {
                    assert(p + self.ranges[p] < a);
                }
            }
            marked.lemma_free_allocated(p + n, size - n);
            marked.lemma_free_sound(p + n, size - n);
            let after = marked.free(p + n, size - n);
            assert(after.allocated() =~= self.allocated().union(span(p, n)));
            assert(!marked.ranges.contains_key(p + size)) by {
                if self.ranges.contains_key(p + size) {
                    assert(p + self.ranges[p] < p + size);
                }
            }
        } else {
            assert(self.mark_smaller(p, n).allocated() =~= self.allocated().union(span(p, n)));
        }
    }

    /// Placing a request allocates the slots of the place and no others.
    pub proof fn lemma_mark_first_allocated(self, n: int)
        requires
            self.valid(),
            0 <= n,
        ensures
            self.mark_first(n).state.valid(),
            self.mark_first(n).state.allocated() == self.allocated().union(
                span(self.mark_first(n).pointer, n),
            ),
            self.allocated().disjoint(span(self.mark_first(n).pointer, n)),
            0 <= self.mark_first(n).pointer,
            0 <= self.mark_first(n).extra <= n,
            self.mark_first(n).pointer + n <= self.mark_first(n).state.capacity,
            !self.has_tail() ==> !self.mark_first(n).state.has_tail() && self.mark_first(
                n,
            ).state.capacity == self.capacity + self.mark_first(n).extra,
    {
        let placed = self.mark_first(n);
        if self.has_fit(n) {
            self.lemma_best_fit_exists(n);
            let a = self.best_fit(n);
            assert(self.fits(a, n));
            self.lemma_mark_smaller_allocated(a, n);
        } else if self.has_tail() {
            let t = self.tail();
            assert(self.is_tail(t));
            assert(!self.fits(t, n));
            assert forall|s: int|
                placed.state.allocated().contains(s) <==> self.allocated().contains(s) || span(
                    t,
                    n,
                ).contains(s) by {
                if placed.state.is_free_slot(s) {
                    let a = choose|a: int|
                        #[trigger] placed.state.ranges.contains_key(a) && a <= s < a
                            + placed.state.ranges[a];
                    assert(self.ranges.contains_key(a));
                    if a < t {
                        assert(a + self.ranges[a] < t);
                    } else {
                        assert(t + self.ranges[t] < a);
                    }
                }
                if self.is_free_slot(s) {
                    let a = choose|a: int|
                        #[trigger] self.ranges.contains_key(a) && a <= s < a + self.ranges[a];
                    if a != t {
                        assert(placed.state.ranges.contains_key(a));
                    }
                }
                if t <= s < self.capacity {
                    assert(self.ranges.contains_key(t));
                }
            }
            assert(placed.state.allocated() =~= self.allocated().union(span(t, n)));
            assert forall|s: int| !(self.allocated().contains(s) && span(t, n).contains(s)) by {
                if t <= s < self.capacity {
                    assert(self.ranges.contains_key(t));
                    assert(self.is_free_slot(s));
                }
            }
        } else {
            assert forall|s: int|
                placed.state.allocated().contains(s) <==> self.allocated().contains(s) || span(
                    self.capacity,
                    n,
                ).contains(s) by {
                assert(placed.state.ranges == self.ranges);
                assert(placed.state.is_free_slot(s) == self.is_free_slot(s));
                if self.is_free_slot(s) {
                    let a = choose|a: int|
                        #[trigger] self.ranges.contains_key(a) && a <= s < a + self.ranges[a];
                    assert(a + self.ranges[a] <= self.capacity);
                }
            }
            assert(placed.state.allocated() =~= self.allocated().union(span(self.capacity, n)));
            assert forall|a: int| !placed.state.is_tail(a) by {
                if placed.state.is_tail(a) {
                    assert(self.is_tail(a));
                }
            }
        }
    }

    /// A region of slots that lie in no free range meets no free range, and
    /// lies inside the address space.
    pub proof fn lemma_allocated_can_free(self, p: int, n: int)
        requires
            self.valid(),
            0 <= p,
            0 < n,
            span(p, n).subset_of(self.allocated()),
        ensures
            self.can_free(p, n),
            p + n <= self.capacity,
    {
        assert(span(p, n).contains(p + n - 1));
        assert(self.allocated().contains(p + n - 1));
        assert forall|a: int| #[trigger] self.ranges.contains_key(a) implies a + self.ranges[a]
            <= p || p + n <= a by {
            if a + self.ranges[a] > p && p + n > a {
                let s = if a < p {
                    p
                } else {
                    a
                };
                assert(span(p, n).contains(s));
                assert(self.allocated().contains(s));
                assert(self.is_free_slot(s));
            }
        }
    }

    /// Placing a request and releasing the place at once gives back the
    /// slots that were allocated before, in an address space that is no
    /// larger. Where no free range ended with the address space, the state is
    /// the one before the request.
    pub proof fn lemma_round_trip(self, n: int)
        requires
            self.valid(),
            0 < n,
        ensures
            self.mark_first(n).state.can_free(self.mark_first(n).pointer, n),
            self.mark_first(n).state.free(self.mark_first(n).pointer, n).valid(),
            self.mark_first(n).state.free(self.mark_first(n).pointer, n).allocated()
                == self.allocated(),
            self.mark_first(n).state.free(self.mark_first(n).pointer, n).capacity
                <= self.capacity,
            !self.has_tail() ==> self.mark_first(n).state.free(self.mark_first(n).pointer, n)
                == self,
    {
        let placed = self.mark_first(n);
        let p = placed.pointer;
        let back = placed.state.free(p, n);
        self.lemma_mark_first_allocated(n);
        assert(span(p, n).subset_of(placed.state.allocated()));
        placed.state.lemma_allocated_can_free(p, n);
        placed.state.lemma_free_allocated(p, n);
        assert(back.allocated() =~= self.allocated());
        if self.has_fit(n) {
            self.lemma_best_fit_exists(n);
            self.lemma_mark_smaller_allocated(p, n);
        } else {
            // the place ends with the address space, so releasing it cuts it off
            assert(p + n == placed.state.capacity) by {
                if self.has_tail() {
                    assert(self.is_tail(self.tail()));
                }
            }
            assert(!placed.state.ranges.contains_key(p + n));
            placed.state.lemma_free_sound(p, n);
            if self.has_tail() {
                assert(self.is_tail(self.tail()));
            }
        }
        if !self.has_tail() {
            if self.has_fit(n) {
                let size = self.ranges[p];
                let marked = self.mark(p);
                assert(!self.is_tail(p));
                assert(!self.ranges.contains_key(p + size)) by {
                    if self.ranges.contains_key(p + size) {
                        assert(p + self.ranges[p] < p + size);
                    }
                }
                assert forall|x: int| !placed.state.ends_at(x, p) by {
                    if placed.state.ends_at(x, p) {
                        assert(x != p + n);
                        assert(self.ranges.contains_key(x));
                        assert(x + self.ranges[x] < p);
                    }
                }
                if size != n {
                    let rest = p + n;
                    assert forall|x: int| !marked.ends_at(x, rest) by {
                        if marked.ends_at(x, rest) {
                            assert(self.ranges.contains_key(x));
                            if x < p {
                                assert(x + self.ranges[x] < p);
                            } else {
                                assert(p + self.ranges[p] < x);
                            }
                        }
                    }
                    assert(!self.ranges.contains_key(p + n)) by {
                        if self.ranges.contains_key(p + n) {
                            assert(p + self.ranges[p] < p + n);
                        }
                    }
                    assert(placed.state.ranges =~= self.ranges.remove(p).insert(
                        p + n,
                        size - n,
                    ));
                }
                assert(back.ranges =~= self.ranges);
            } else {
                assert forall|x: int| !placed.state.ends_at(x, p) by {
                    if placed.state.ends_at(x, p) {
                        assert(self.is_tail(x));
                    }
                }
                assert(back.ranges =~= self.ranges);
            }
        }
    }

    /// Before slot `edge` lie at most `edge` free slots.
    pub proof fn lemma_free_below_finite(self, edge: int)
        requires
            self.positive(),
            0 <= edge,
        ensures
            self.free_below(edge).finite(),
            self.free_below(edge).len() <= edge,
    {
        assert forall|s: int| self.free_below(edge).contains(s) implies set_int_range(
            0,
            edge,
        ).contains(s) by {
            let a = choose|a: int| #[trigger]
                self.ranges.contains_key(a) && a <= s < a + self.ranges[a];
        }
        lemma_int_range(0, edge);
        lemma_len_subset(self.free_below(edge), set_int_range(0, edge));
    }

    /// From the start of a free range to an edge behind it with no free range
    /// between them, the free slots are those of the range.
    pub proof fn lemma_free_below_step(self, a: int, edge: int)
        requires
            self.sound(),
            self.ranges.contains_key(a),
            a + self.ranges[a] <= edge,
            forall|k: int| #[trigger] self.ranges.contains_key(k) ==> k <= a || edge <= k,
        ensures
            self.free_below(edge).len() == self.free_below(a).len() + self.ranges[a],
    {
        let size = self.ranges[a];
        let run = set_int_range(a, a + size);
        assert forall|s: int|
            self.free_below(edge).contains(s) <==> self.free_below(a).contains(s)
                || run.contains(s) by {
            if self.free_below(edge).contains(s) {
                let k = choose|k: int| #[trigger]
                    self.ranges.contains_key(k) && k <= s < k + self.ranges[k];
                if k < a {
                    assert(k + self.ranges[k] < a);
                }
            }
            if run.contains(s) {
                assert(self.ranges.contains_key(a));
            }
        }
        assert(self.free_below(edge) =~= self.free_below(a) + run);
        assert(self.free_below(a).disjoint(run));
        self.lemma_free_below_finite(a);
        lemma_int_range(a, a + size);
        lemma_set_disjoint_lens(self.free_below(a), run);
    }
}

} // verus!
