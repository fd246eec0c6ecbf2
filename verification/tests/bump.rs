use microfetch::bump::{BumpAllocator, DEFAULT_HEAP_SIZE};

#[test]
fn bump_new_is_empty() {
    let a: BumpAllocator<64> = BumpAllocator::new();
    assert_eq!(a.used(), 0);
    assert_eq!(a.capacity(), 64);
    assert_eq!(a.remaining(), 64);
}

#[test]
fn bump_default_heap_size() {
    let a: BumpAllocator<DEFAULT_HEAP_SIZE> = BumpAllocator::default();
    assert_eq!(a.capacity(), 32 * 1024);
    assert_eq!(a.used(), 0);
}

#[test]
fn bump_allocations_are_aligned_and_disjoint() {
    let mut a: BumpAllocator<64> = BumpAllocator::new();
    assert_eq!(a.allocate(10, 1), Some(0));
    assert_eq!(a.used(), 10);
    assert_eq!(a.allocate(4, 8), Some(16));
    assert_eq!(a.used(), 20);
    assert_eq!(a.allocate(1, 16), Some(32));
    assert_eq!(a.used(), 33);
    assert_eq!(a.remaining(), 31);
}

#[test]
fn bump_out_of_memory_keeps_state() {
    let mut a: BumpAllocator<64> = BumpAllocator::new();
    assert_eq!(a.allocate(60, 1), Some(0));
    assert_eq!(a.allocate(8, 8), None);
    assert_eq!(a.used(), 60);
    assert_eq!(a.allocate(4, 4), Some(60));
    assert_eq!(a.used(), 64);
    assert_eq!(a.remaining(), 0);
    assert_eq!(a.allocate(0, 1), Some(64));
}

#[test]
fn bump_dealloc_reclaims_nothing() {
    let mut a: BumpAllocator<64> = BumpAllocator::new();
    assert_eq!(a.allocate(8, 8), Some(0));
    a.dealloc(0, 8, 8);
    assert_eq!(a.used(), 8);
    assert_eq!(a.allocate(8, 8), Some(8));
}

#[test]
fn bump_sequence_of_calls_hands_out_disjoint_regions() {
    let mut a: BumpAllocator<64> = BumpAllocator::new();
    let reqs: [(usize, usize); 6] = [(3, 1), (8, 8), (5, 4), (40, 16), (1, 2), (7, 1)];
    let mut regions: Vec<(usize, usize)> = Vec::new();
    let mut used = a.used();
    for (size, align) in reqs {
        if let Some(start) = a.allocate(size, align) {
            assert_eq!(start % align, 0);
            assert!(used <= start && start + size <= 64);
            regions.push((start, start + size));
            a.dealloc(start, size, align);
        }
        assert!(a.used() >= used && a.used() <= a.capacity());
        used = a.used();
    }
    assert_eq!(regions, vec![(0, 3), (8, 16), (16, 21), (22, 23), (23, 30)]);
    for w in regions.windows(2) {
        assert!(w[0].1 <= w[1].0);
    }
}
