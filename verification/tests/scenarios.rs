use slot_heap::{Heap, Pointer, RangeSet};

fn ranges_of(set: &RangeSet) -> Vec<(u64, usize)> {
    set.ranges().into_iter().map(|(p, n)| (p.address(), n)).collect()
}

fn free_of(heap: &Heap) -> Vec<(u64, usize)> {
    ranges_of(heap.free_ranges())
}

#[test]
fn grows_in_place_into_freed_neighbour() {
    let mut heap = Heap::new();
    let first = heap.allocate(10);
    let second = heap.allocate(5);
    let third = heap.allocate(1);
    assert_eq!((first, second, third), (Pointer::new(0), Pointer::new(10), Pointer::new(15)));
    heap.free(second, 5);
    assert_eq!(free_of(&heap), vec![(10, 5)]);
    let grown = heap.realloc(first, 10, 15);
    assert_eq!(grown, first);
    assert_eq!(free_of(&heap), vec![]);
    assert_eq!(heap.len(), 16);
}

#[test]
fn grow_at_the_end_of_the_heap_moves() {
    // the second allocation is the last one: freeing it cuts the storage
    // back, so nothing free lies behind the first one
    let mut heap = Heap::new();
    let first = heap.allocate(10);
    let second = heap.allocate(5);
    heap.free(second, 5);
    assert_eq!(heap.len(), 10);
    assert_eq!(free_of(&heap), vec![]);
    let grown = heap.realloc(first, 10, 15);
    assert_eq!(grown, Pointer::new(10));
    assert_eq!(heap.len(), 25);
    assert_eq!(free_of(&heap), vec![(0, 10)]);
}

#[test]
fn neighbouring_frees_coalesce() {
    let mut heap = Heap::new();
    let p1 = heap.allocate(4);
    let p2 = heap.allocate(4);
    let p3 = heap.allocate(4);
    assert_eq!((p1.address(), p2.address(), p3.address()), (0, 4, 8));
    heap.free(p2, 4);
    assert_eq!(free_of(&heap), vec![(4, 4)]);
    heap.free(p1, 4);
    assert_eq!(free_of(&heap), vec![(0, 8)]);
    assert_eq!(heap.free_ranges().len(), 1);
    assert_eq!(heap.free_ranges().pointers_of_size(8), vec![p1]);
    assert_eq!(heap.free_ranges().pointers_of_size(4), vec![]);
    assert_eq!(heap.len(), 12);
}

#[test]
fn freeing_the_whole_heap_shrinks_it_to_nothing() {
    let mut heap = Heap::new();
    let all = heap.allocate(32);
    assert_eq!(all, Pointer::new(0));
    assert_eq!(heap.len(), 32);
    assert_eq!(heap.free_ranges().capacity(), 32);
    heap.free(all, 32);
    assert_eq!(heap.free_ranges().capacity(), 0);
    assert_eq!(heap.len(), 0);
    assert_eq!(free_of(&heap), vec![]);
}

#[test]
fn tail_free_merges_with_the_range_before_it() {
    let mut heap = Heap::new();
    let a = heap.allocate(3);
    let b = heap.allocate(4);
    let c = heap.allocate(5);
    heap.free(b, 4);
    assert_eq!(heap.len(), 12);
    // the freed tail takes the free range before it along
    heap.free(c, 5);
    assert_eq!(heap.len(), 3);
    assert_eq!(free_of(&heap), vec![]);
    heap.free(a, 3);
    assert_eq!(heap.len(), 0);
}

#[test]
fn free_between_two_free_ranges_merges_all_three() {
    let mut heap = Heap::new();
    let a = heap.allocate(2);
    let b = heap.allocate(3);
    let c = heap.allocate(4);
    let d = heap.allocate(1);
    heap.free(a, 2);
    heap.free(c, 4);
    assert_eq!(free_of(&heap), vec![(0, 2), (5, 4)]);
    heap.free(b, 3);
    assert_eq!(free_of(&heap), vec![(0, 9)]);
    assert_eq!(heap.free_ranges().unused(), 9);
    assert_eq!(d.address(), 9);
    assert_eq!(heap.len(), 10);
}

#[test]
fn best_fit_takes_the_shortest_range_that_fits() {
    let mut heap = Heap::new();
    let a = heap.allocate(8);
    let _b = heap.allocate(1);
    let c = heap.allocate(3);
    let _d = heap.allocate(1);
    let e = heap.allocate(5);
    let _f = heap.allocate(1);
    heap.free(a, 8);
    heap.free(c, 3);
    heap.free(e, 5);
    assert_eq!(free_of(&heap), vec![(0, 8), (9, 3), (13, 5)]);
    // 4 slots fit in the ranges of 8 and of 5: the shorter one is taken
    let g = heap.allocate(4);
    assert_eq!(g.address(), 13);
    assert_eq!(free_of(&heap), vec![(0, 8), (9, 3), (17, 1)]);
    assert_eq!(heap.len(), 19);
}

#[test]
fn best_fit_takes_the_lowest_of_equal_ranges() {
    let mut heap = Heap::new();
    let a = heap.allocate(4);
    let _b = heap.allocate(1);
    let c = heap.allocate(4);
    let _d = heap.allocate(1);
    heap.free(c, 4);
    heap.free(a, 4);
    assert_eq!(heap.free_ranges().pointers_of_size(4), vec![Pointer::new(0), Pointer::new(5)]);
    let e = heap.allocate(4);
    assert_eq!(e.address(), 0);
    let f = heap.allocate(4);
    assert_eq!(f.address(), 5);
    assert_eq!(free_of(&heap), vec![]);
}

#[test]
fn request_that_fits_nowhere_is_appended() {
    let mut heap = Heap::new();
    let a = heap.allocate(2);
    let _b = heap.allocate(2);
    heap.free(a, 2);
    let c = heap.allocate(3);
    assert_eq!(c.address(), 4);
    assert_eq!(heap.len(), 7);
    assert_eq!(free_of(&heap), vec![(0, 2)]);
}

#[test]
fn allocation_only_workload_never_shrinks() {
    let mut heap = Heap::new();
    let mut last = 0;
    let mut expected = 0;
    for size in [5usize, 1, 9, 2, 2, 17, 3] {
        let p = heap.allocate(size);
        assert_eq!(p.address() as usize, expected);
        expected += size;
        assert!(heap.free_ranges().capacity() >= last);
        assert_eq!(heap.len(), heap.free_ranges().capacity());
        last = heap.free_ranges().capacity();
    }
    assert_eq!(last, 39);
}

#[test]
fn new_slots_hold_zero() {
    let mut heap = Heap::new();
    let p = heap.allocate(6);
    assert_eq!(heap.read(p, 6), &[0, 0, 0, 0, 0, 0]);
    assert_eq!(heap.read_slot(p, 5), 0);
}

#[test]
fn alloc_then_free_restores_the_free_ranges() {
    let mut heap = Heap::new();
    let a = heap.allocate(6);
    let _b = heap.allocate(2);
    let c = heap.allocate(3);
    let _d = heap.allocate(1);
    heap.free(a, 6);
    heap.free(c, 3);
    let before = free_of(&heap);
    let length = heap.len();
    assert_eq!(before, vec![(0, 6), (8, 3)]);
    for size in [1usize, 2, 3, 5, 6, 7, 40] {
        let p = heap.allocate(size);
        heap.free(p, size);
        assert_eq!(free_of(&heap), before);
        assert_eq!(heap.len(), length);
    }
}

#[test]
fn write_then_read() {
    let mut heap = Heap::new();
    let a = heap.allocate(3);
    let b = heap.allocate(4);
    let mut item = [7u64, 8, 9, 10];
    let at = heap.write(b, &mut item);
    assert_eq!(at, b);
    assert_eq!(item, [7, 8, 9, 10]);
    assert_eq!(heap.read(b, 4), &[7, 8, 9, 10]);
    assert_eq!(heap.read(a, 3), &[0, 0, 0]);
    assert_eq!(heap.read_slot(b, 2), 9);
    assert_eq!(heap.read(Pointer::new(2), 3), &[0, 7, 8]);
    assert_eq!(heap.len(), 7);
}

#[test]
fn realloc_that_moves_copies_the_contents() {
    let mut heap = Heap::new();
    let a = heap.allocate(3);
    let b = heap.allocate(2);
    heap.write(a, &mut [1, 2, 3]);
    heap.write(b, &mut [4, 5]);
    // nothing free behind `a`: it moves behind `b`
    let moved = heap.realloc(a, 3, 5);
    assert_eq!(moved.address(), 5);
    assert_eq!(heap.len(), 10);
    assert_eq!(&heap.read(moved, 5)[..3], &[1, 2, 3]);
    assert_eq!(heap.read(b, 2), &[4, 5]);
    assert_eq!(free_of(&heap), vec![(0, 3)]);
}

#[test]
fn realloc_that_moves_into_a_gap() {
    let mut heap = Heap::new();
    let a = heap.allocate(6);
    let b = heap.allocate(2);
    let c = heap.allocate(1);
    heap.write(b, &mut [11, 12]);
    heap.free(a, 6);
    // behind `b` lies `c`, so `b` moves into the gap in front, which is
    // split: 3 slots are left at 3
    let moved = heap.realloc(b, 2, 3);
    assert_eq!(moved.address(), 0);
    assert_eq!(&heap.read(moved, 3)[..2], &[11, 12]);
    assert_eq!(free_of(&heap), vec![(3, 5)]);
    assert_eq!(c.address(), 8);
    assert_eq!(heap.len(), 9);
}

#[test]
fn realloc_grows_in_place_and_splits_the_range_behind() {
    let mut heap = Heap::new();
    let a = heap.allocate(2);
    let b = heap.allocate(6);
    let _c = heap.allocate(1);
    heap.write(a, &mut [21, 22]);
    heap.free(b, 6);
    let grown = heap.realloc(a, 2, 4);
    assert_eq!(grown, a);
    assert_eq!(heap.read(a, 2), &[21, 22]);
    assert_eq!(free_of(&heap), vec![(4, 4)]);
    assert_eq!(heap.free_ranges().pointers_of_size(6), vec![]);
    assert_eq!(heap.free_ranges().pointers_of_size(4), vec![Pointer::new(4)]);
}

#[test]
fn realloc_that_shrinks_frees_the_back() {
    let mut heap = Heap::new();
    let a = heap.allocate(8);
    let _b = heap.allocate(1);
    heap.write(a, &mut [1, 2, 3, 4, 5, 6, 7, 8]);
    let same = heap.realloc(a, 8, 3);
    assert_eq!(same, a);
    assert_eq!(heap.read(a, 3), &[1, 2, 3]);
    assert_eq!(free_of(&heap), vec![(3, 5)]);
    assert_eq!(heap.len(), 9);
}

#[test]
fn realloc_that_shrinks_at_the_end_cuts_the_storage() {
    let mut heap = Heap::new();
    let a = heap.allocate(8);
    let same = heap.realloc(a, 8, 3);
    assert_eq!(same, a);
    assert_eq!(heap.len(), 3);
    assert_eq!(free_of(&heap), vec![]);
    // resized to nothing, the allocation is gone
    let gone = heap.realloc(a, 3, 0);
    assert_eq!(gone, a);
    assert_eq!(heap.len(), 0);
}

#[test]
fn realloc_to_the_same_size_changes_nothing() {
    let mut heap = Heap::new();
    let a = heap.allocate(4);
    let b = heap.allocate(4);
    heap.free(a, 4);
    heap.write(b, &mut [1, 2, 3, 4]);
    let same = heap.realloc(b, 4, 4);
    assert_eq!(same, b);
    assert_eq!(heap.read(b, 4), &[1, 2, 3, 4]);
    assert_eq!(free_of(&heap), vec![(0, 4)]);
    assert_eq!(heap.len(), 8);
}

#[test]
fn pointers_order_by_address() {
    assert!(Pointer::new(3) < Pointer::new(4));
    assert!(Pointer::new(4) == Pointer::new(4));
    assert_eq!(Pointer::new(9).address(), 9);
    let mut list = vec![Pointer::new(5), Pointer::new(1), Pointer::new(3)];
    list.sort();
    assert_eq!(list, vec![Pointer::new(1), Pointer::new(3), Pointer::new(5)]);
}

#[test]
fn range_set_seeded_with_free_capacity() {
    let set = RangeSet::new_with_free_capacity(10);
    assert_eq!(set.capacity(), 10);
    assert_eq!(ranges_of(&set), vec![(0, 10)]);
    assert_eq!(set.unused(), 10);
    let empty = RangeSet::new_with_free_capacity(0);
    assert_eq!(empty.capacity(), 0);
    assert_eq!(ranges_of(&empty), vec![]);
    let fresh = RangeSet::new();
    assert_eq!(fresh.capacity(), 0);
    assert_eq!(fresh.len(), 0);
}

#[test]
fn added_capacity_extends_the_tail_range() {
    let mut set = RangeSet::new_with_free_capacity(4);
    set.add_free_capacity(6);
    assert_eq!(set.capacity(), 10);
    assert_eq!(ranges_of(&set), vec![(0, 10)]);
    assert_eq!(set.pointers_of_size(4), vec![]);
    assert_eq!(set.pointers_of_size(10), vec![Pointer::new(0)]);
}

#[test]
fn added_capacity_behind_an_allocation_is_a_range_of_its_own() {
    let mut set = RangeSet::new();
    assert_eq!(set.mark_first(3), (Pointer::new(0), 3));
    set.add_free_capacity(5);
    assert_eq!(set.capacity(), 8);
    assert_eq!(ranges_of(&set), vec![(3, 5)]);
}

#[test]
fn adding_no_capacity_cuts_the_tail_range_off() {
    let mut set = RangeSet::new();
    assert_eq!(set.mark_first(3), (Pointer::new(0), 3));
    set.add_free_capacity(5);
    set.add_free_capacity(0);
    assert_eq!(set.capacity(), 3);
    assert_eq!(ranges_of(&set), vec![]);
    set.add_free_capacity(0);
    assert_eq!(set.capacity(), 3);
}

#[test]
fn mark_first_extends_a_tail_range_that_is_too_short() {
    let mut set = RangeSet::new();
    assert_eq!(set.mark_first(2), (Pointer::new(0), 2));
    set.add_free_capacity(3);
    // the tail range holds 3 of the 7 slots: 4 are missing
    assert_eq!(set.mark_first(7), (Pointer::new(2), 4));
    assert_eq!(set.capacity(), 9);
    assert_eq!(ranges_of(&set), vec![]);
}

#[test]
fn mark_first_in_a_tail_range_drops_what_is_left_of_it() {
    let mut set = RangeSet::new_with_free_capacity(10);
    assert_eq!(set.mark_first(4), (Pointer::new(0), 0));
    // what was left of the tail range has left the address space
    assert_eq!(set.capacity(), 4);
    assert_eq!(ranges_of(&set), vec![]);
    // released at once, the place is cut off too
    assert_eq!(set.free(Pointer::new(0), 4), 4);
    assert_eq!(set.capacity(), 0);
}

#[test]
fn mark_smaller_splits_a_range() {
    let mut set = RangeSet::new();
    assert_eq!(set.mark_first(1), (Pointer::new(0), 1));
    set.add_free_capacity(8);
    assert_eq!(set.mark_first(1), (Pointer::new(1), 0));
    assert_eq!(set.capacity(), 2);
    set.add_free_capacity(6);
    assert_eq!(set.mark_first(1), (Pointer::new(2), 0));
    assert_eq!(set.capacity(), 3);
    // [0, 3) is taken; make [3, 9) free with a taken slot behind it
    assert_eq!(set.mark_first(7), (Pointer::new(3), 7));
    assert_eq!(set.free(Pointer::new(3), 6), 0);
    assert_eq!(ranges_of(&set), vec![(3, 6)]);
    set.mark_smaller(Pointer::new(3), 2);
    assert_eq!(ranges_of(&set), vec![(5, 4)]);
    assert_eq!(set.pointers_of_size(4), vec![Pointer::new(5)]);
    assert_eq!(set.pointers_of_size(6), vec![]);
    set.mark_smaller(Pointer::new(5), 4);
    assert_eq!(ranges_of(&set), vec![]);
    assert_eq!(set.capacity(), 10);
}

#[test]
fn free_returns_the_slots_cut_off() {
    let mut set = RangeSet::new();
    assert_eq!(set.mark_first(4), (Pointer::new(0), 4));
    assert_eq!(set.mark_first(4), (Pointer::new(4), 4));
    assert_eq!(set.mark_first(4), (Pointer::new(8), 4));
    assert_eq!(set.free(Pointer::new(4), 4), 0);
    assert_eq!(set.free(Pointer::new(0), 2), 0);
    assert_eq!(ranges_of(&set), vec![(0, 2), (4, 4)]);
    assert_eq!(set.last_at_most(Pointer::new(3)), Some((Pointer::new(0), 2)));
    assert_eq!(set.last_at_most(Pointer::new(4)), Some((Pointer::new(4), 4)));
    // the tail takes the free range before it along: 4 + 4 slots
    assert_eq!(set.free(Pointer::new(8), 4), 8);
    assert_eq!(set.capacity(), 4);
    assert_eq!(ranges_of(&set), vec![(0, 2)]);
    assert_eq!(set.free(Pointer::new(2), 2), 4);
    assert_eq!(set.capacity(), 0);
    assert_eq!(set.last_at_most(Pointer::new(9)), None);
}

#[test]
fn indices_mirror_each_other() {
    let mut heap = Heap::new();
    let mut held = Vec::new();
    for size in [3usize, 1, 3, 1, 5, 1, 3, 1, 5, 1] {
        held.push((heap.allocate(size), size));
    }
    for i in [0usize, 2, 4, 6, 8] {
        heap.free(held[i].0, held[i].1);
    }
    let set = heap.free_ranges();
    let ranges = ranges_of(set);
    assert_eq!(ranges, vec![(0, 3), (4, 3), (8, 5), (14, 3), (18, 5)]);
    // by length: each length with its starts, no other length
    assert_eq!(
        set.pointers_of_size(3),
        vec![Pointer::new(0), Pointer::new(4), Pointer::new(14)]
    );
    assert_eq!(set.pointers_of_size(5), vec![Pointer::new(8), Pointer::new(18)]);
    let mut by_length = 0;
    for size in 0..=24 {
        for p in set.pointers_of_size(size) {
            assert!(ranges.contains(&(p.address(), size)));
            by_length += 1;
        }
    }
    assert_eq!(by_length, ranges.len());
    // no two free ranges touch
    for pair in ranges.windows(2) {
        assert!(pair[0].0 as usize + pair[0].1 < pair[1].0 as usize);
    }
    // live and free slots make up the address space
    let live: usize = [1usize, 1, 1, 1, 1].iter().sum();
    assert_eq!(live + set.unused(), set.capacity());
    assert_eq!(set.capacity(), 24);
}
