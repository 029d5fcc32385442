use sandbox_core::{page_round_up, Error, RegionAllocator, GUARD_SIZE, PAGE_SIZE};

#[test]
fn rounding_up_to_pages() {
    assert_eq!(PAGE_SIZE, 4096);
    assert_eq!(page_round_up(0), Some(0));
    assert_eq!(page_round_up(1), Some(4096));
    assert_eq!(page_round_up(4095), Some(4096));
    assert_eq!(page_round_up(4096), Some(4096));
    assert_eq!(page_round_up(4097), Some(8192));
    assert_eq!(page_round_up(3 * 4096 + 17), Some(4 * 4096));
}

#[test]
fn rounding_up_reports_overflow() {
    assert_eq!(page_round_up(usize::MAX), None);
    assert_eq!(page_round_up(usize::MAX - 4094), None);
    assert_eq!(page_round_up(usize::MAX - 4095), Some(usize::MAX - 4095));
}

#[test]
fn fresh_region_is_rounded_zeroed_and_guarded() {
    let mut allocator = RegionAllocator::new(1 << 20);
    assert_eq!(allocator.capacity(), 1 << 20);
    assert_eq!(allocator.mapped(), 0);
    let region = allocator.acquire(5000).unwrap();
    assert_eq!(region.base(), GUARD_SIZE);
    assert_eq!(region.size(), 8192);
    assert_eq!(region.generation(), 0);
    assert_eq!(region.memory().len(), 8192);
    assert!(region.memory().iter().all(|byte| *byte == 0));
    assert_eq!(allocator.mapped(), GUARD_SIZE + 8192 + GUARD_SIZE);
    assert_eq!(allocator.pooled(), 0);
}

#[test]
fn live_regions_never_overlap() {
    let mut allocator = RegionAllocator::new(1 << 22);
    let mut spans: Vec<(usize, usize)> = Vec::new();
    for request in [1usize, 4096, 4097, 12000, 1, 40000, 8192] {
        let region = allocator.acquire(request).unwrap();
        assert!(region.size() >= request);
        assert_eq!(region.size() % PAGE_SIZE, 0);
        spans.push((region.base() - GUARD_SIZE, region.base() + region.size() + GUARD_SIZE));
    }
    for a in 0..spans.len() {
        for b in 0..spans.len() {
            if a != b {
                assert!(spans[a].1 <= spans[b].0 || spans[b].1 <= spans[a].0);
            }
        }
    }
    assert_eq!(spans[1].0, spans[0].1);
}

#[test]
fn out_of_memory_is_reported_and_claims_nothing() {
    let mut allocator = RegionAllocator::new(3 * 4096);
    let first = allocator.acquire(1).unwrap();
    assert_eq!(allocator.mapped(), 3 * 4096);
    let second = allocator.acquire(1);
    assert!(matches!(second, Err(Error::OutOfMemory)));
    assert_eq!(allocator.mapped(), 3 * 4096);
    assert_eq!(allocator.pooled(), 0);
    allocator.release(first);
    assert_eq!(allocator.pooled(), 1);
    // Room for the guard areas alone is not room for a page.
    let mut small = RegionAllocator::new(3 * 4096 - 1);
    assert!(matches!(small.acquire(1), Err(Error::OutOfMemory)));
    assert_eq!(small.mapped(), 0);
    // A request that cannot even be rounded is refused as well.
    assert!(matches!(small.acquire(usize::MAX), Err(Error::OutOfMemory)));
}

#[test]
fn empty_allocator_has_room_for_an_empty_region_only_with_guards() {
    let mut allocator = RegionAllocator::new(2 * 4096);
    let region = allocator.acquire(0).unwrap();
    assert_eq!(region.size(), 0);
    assert_eq!(region.base(), 4096);
    assert!(matches!(allocator.acquire(0), Err(Error::OutOfMemory)));
}

#[test]
fn released_region_is_reused_with_its_bytes() {
    let mut allocator = RegionAllocator::new(1 << 20);
    let mut region = allocator.acquire(4096).unwrap();
    let base = region.base();
    assert!(region.write(7, 0xAB));
    allocator.release(region);
    let mapped = allocator.mapped();
    let again = allocator.acquire(100).unwrap();
    assert_eq!(again.base(), base);
    assert_eq!(again.size(), 4096);
    assert_eq!(again.generation(), 1);
    assert_eq!(again.read(7), Some(0xAB));
    assert_eq!(allocator.mapped(), mapped);
    assert_eq!(allocator.pooled(), 0);
}

#[test]
fn most_recently_released_region_of_the_size_goes_first() {
    let mut allocator = RegionAllocator::new(1 << 20);
    let a = allocator.acquire(4096).unwrap();
    let b = allocator.acquire(8192).unwrap();
    let c = allocator.acquire(4096).unwrap();
    let (base_a, base_b, base_c) = (a.base(), b.base(), c.base());
    allocator.release(a);
    allocator.release(c);
    allocator.release(b);
    assert_eq!(allocator.pooled(), 3);
    let first = allocator.acquire(4096).unwrap();
    assert_eq!(first.base(), base_c);
    let second = allocator.acquire(4096).unwrap();
    assert_eq!(second.base(), base_a);
    let third = allocator.acquire(8000).unwrap();
    assert_eq!(third.base(), base_b);
    assert_eq!(allocator.pooled(), 0);
}

#[test]
fn pooled_region_of_another_size_is_not_reused() {
    let mut allocator = RegionAllocator::new(1 << 20);
    let a = allocator.acquire(4096).unwrap();
    let end = allocator.mapped();
    allocator.release(a);
    let b = allocator.acquire(8192).unwrap();
    assert_eq!(b.base(), end + GUARD_SIZE);
    assert_eq!(b.generation(), 0);
    assert_eq!(allocator.pooled(), 1);
}

#[test]
fn region_reads_and_writes_only_committed_bytes() {
    let mut allocator = RegionAllocator::new(1 << 20);
    let mut region = allocator.acquire(1).unwrap();
    assert_eq!(region.read(0), Some(0));
    assert_eq!(region.read(4095), Some(0));
    assert_eq!(region.read(4096), None);
    assert_eq!(region.read(u64::MAX), None);
    assert!(region.write(4095, 9));
    assert!(!region.write(4096, 9));
    assert!(!region.write(4096 + 4096, 9));
    assert_eq!(region.read(4095), Some(9));
    let image = vec![1u8, 2, 3];
    region.load_image(&image);
    assert_eq!(region.read(0), Some(1));
    assert_eq!(region.read(2), Some(3));
    assert_eq!(region.read(3), Some(0));
    assert_eq!(region.read(4095), Some(0));
}
