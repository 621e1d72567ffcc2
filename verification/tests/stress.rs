use slot_heap::{Heap, Pointer};
use std::collections::BTreeMap;

fn random_alloc_size(rng: &mut attorand::Rng) -> usize {
    rng.next_byte() as usize + 1
}

fn report(heap: &Heap) {
    let free = heap.free_ranges();
    let unused = free.unused();
    let pct = (unused as f64 / free.capacity() as f64) * 100.0;
    println!("==== INFO ====");
    println!("heap size:       {} bytes", heap.len() * 8);
    println!("total slots:     {} slots", heap.len());
    println!("disjoint ranges: {} slots", free.len());
    println!("fragmentation:   {} / {} = {:.2}%", unused, free.capacity(), pct);
}

#[test]
pub fn stress_test_heap() {
    let mut heap = Heap::new();
    let mut pointers: BTreeMap<usize, (Pointer, usize)> = BTreeMap::new();
    let mut rng = attorand::Rng::new_default();

    for i in 0..100000 {
        let size = random_alloc_size(&mut rng);
        let pointer = heap.allocate(size);
        pointers.insert(i, (pointer, size));

        let index = rng.next_u64_max((pointers.len() - 1) as u64) as usize;
        if rng.next_bool() {
            let (index, (to_modify, old_size)) = pointers.iter().nth(index).unwrap();
            let index = *index;

            if rng.next_bool() {
                let new_size = random_alloc_size(&mut rng);
                let pointer = heap.realloc(*to_modify, *old_size, new_size);
                pointers.insert(index, (pointer, new_size));
            } else {
                heap.free(*to_modify, *old_size);
                pointers.remove(&index);
            }
        }
    }

    report(&heap);

    // every slot is live or free, and the storage is as long as the address space
    let live: usize = pointers.values().map(|(_, size)| *size).sum();
    let free = heap.free_ranges();
    assert_eq!(heap.len(), free.capacity());
    assert_eq!(live + free.unused(), free.capacity());
}

#[test]
pub fn stress_test_native() {
    let mut rng = attorand::Rng::new_default();
    let mut pointers = BTreeMap::new();

    for i in 0..100000 {
        let size = random_alloc_size(&mut rng);
        let pointer = vec![0; size];
        pointers.insert(i, (pointer, size));

        let index = rng.next_u64_max((pointers.len() - 1) as u64) as usize;
        if rng.next_bool() {
            let (index, _) = pointers.iter().nth(index).unwrap();
            let index = *index;

            if rng.next_bool() {
                let new_size = random_alloc_size(&mut rng);
                let pointer = vec![0; new_size];
                pointers.insert(index, (pointer, new_size));
            } else {
                pointers.remove(&index);
            }
        }
    }
}
