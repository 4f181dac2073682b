use esp_alloc::{Block, RegionHeap, Reply, Request, MIN_BLOCK_SIZE, REGION_OVERHEAD};

fn region(bottom: usize, size: usize) -> RegionHeap {
    let mut heap = RegionHeap::empty();
    heap.init(bottom, size);
    heap
}

/// A region at 1000 whose free list is three blocks of 10, 30 and 20 bytes,
/// with ten bytes in use between each two.
fn seeded_10_30_20() -> RegionHeap {
    let mut heap = region(1000, 80);
    assert_eq!(heap.allocate(10, 1), Some(1000));
    assert_eq!(heap.allocate(10, 1), Some(1010));
    assert_eq!(heap.allocate(30, 1), Some(1020));
    assert_eq!(heap.allocate(10, 1), Some(1050));
    assert_eq!(heap.allocate(20, 1), Some(1060));
    assert_eq!(heap.free(), 0);
    heap.deallocate(1000, 10, 1);
    heap.deallocate(1020, 30, 1);
    heap.deallocate(1060, 20, 1);
    assert_eq!(
        heap.free_blocks(),
        vec![
            Block { addr: 1000, size: 10 },
            Block { addr: 1020, size: 30 },
            Block { addr: 1060, size: 20 },
        ]
    );
    heap
}

#[test]
fn empty_region_serves_nothing() {
    let mut heap = RegionHeap::empty();
    assert_eq!(heap.bottom(), 0);
    assert_eq!(heap.top(), 0);
    assert_eq!(heap.used(), 0);
    assert_eq!(heap.free(), 0);
    assert_eq!(heap.allocate(1, 1), None);
    assert_eq!(heap.allocate(0, 1), None);
    assert!(heap.free_blocks().is_empty());
}

#[test]
fn fresh_region_is_one_free_block() {
    let heap = region(4096, 1024);
    assert_eq!(heap.bottom(), 4096);
    assert_eq!(heap.top(), 5120);
    assert_eq!(heap.free_blocks(), vec![Block { addr: 4096, size: 1024 }]);
    assert_eq!(heap.free(), 1024 - REGION_OVERHEAD);
    assert_eq!(heap.used(), REGION_OVERHEAD);
    assert_eq!(REGION_OVERHEAD, 0);
}

#[test]
fn init_again_forgets_what_was_there() {
    let mut heap = region(100, 50);
    assert_eq!(heap.allocate(20, 1), Some(100));
    heap.init(500, 8);
    assert_eq!(heap.free_blocks(), vec![Block { addr: 500, size: 8 }]);
    assert_eq!(heap.used(), 0);
}

#[test]
fn region_may_end_at_the_last_address() {
    let mut heap = region(usize::MAX - 16, 16);
    assert_eq!(heap.top(), usize::MAX);
    assert_eq!(heap.allocate(16, 1), Some(usize::MAX - 16));
    assert_eq!(heap.allocate(1, 1), None);
    heap.deallocate(usize::MAX - 16, 16, 1);
    assert_eq!(heap.free(), 16);
}

#[test]
fn allocation_splits_the_block() {
    let mut heap = region(1000, 100);
    assert_eq!(heap.allocate(40, 1), Some(1000));
    assert_eq!(heap.free_blocks(), vec![Block { addr: 1040, size: 60 }]);
    assert_eq!(heap.free(), 60);
    assert_eq!(heap.used(), 40);
}

#[test]
fn exact_fit_consumes_the_block() {
    let mut heap = region(1000, 100);
    assert_eq!(heap.allocate(100, 1), Some(1000));
    assert!(heap.free_blocks().is_empty());
    assert_eq!(heap.free(), 0);
    assert_eq!(heap.used(), 100);
    assert_eq!(heap.allocate(1, 1), None);
}

#[test]
fn request_larger_than_region_fails_and_changes_nothing() {
    let mut heap = region(1000, 100);
    assert_eq!(heap.allocate(101, 1), None);
    assert_eq!(heap.allocate(usize::MAX, 1), None);
    assert_eq!(heap.free_blocks(), vec![Block { addr: 1000, size: 100 }]);
}

#[test]
fn zero_size_request_consumes_the_minimum() {
    assert_eq!(MIN_BLOCK_SIZE, 1);
    let mut heap = region(1000, 100);
    assert_eq!(heap.allocate(0, 1), Some(1000));
    assert_eq!(heap.free_blocks(), vec![Block { addr: 1001, size: 99 }]);
    assert_eq!(heap.used(), MIN_BLOCK_SIZE);
    heap.deallocate(1000, 0, 1);
    assert_eq!(heap.free_blocks(), vec![Block { addr: 1000, size: 100 }]);
}

#[test]
fn alignment_advances_the_start_and_keeps_the_front_free() {
    let mut heap = region(1001, 99);
    assert_eq!(heap.allocate(16, 8), Some(1008));
    assert_eq!(
        heap.free_blocks(),
        vec![Block { addr: 1001, size: 7 }, Block { addr: 1024, size: 76 }]
    );
    assert_eq!(heap.used(), 16);
}

#[test]
fn alignment_that_eats_the_block_rejects_it() {
    let mut heap = region(1001, 99);
    // The only multiple of 64 in the block is 1024; 80 bytes from there end at 1104.
    assert_eq!(heap.allocate(80, 64), None);
    assert_eq!(heap.allocate(76, 64), Some(1024));
    assert_eq!(heap.free_blocks(), vec![Block { addr: 1001, size: 23 }]);
}

#[test]
fn alignment_need_not_be_a_power_of_two() {
    let mut heap = region(1000, 100);
    assert_eq!(heap.allocate(10, 7), Some(1001));
    assert_eq!(
        heap.free_blocks(),
        vec![Block { addr: 1000, size: 1 }, Block { addr: 1011, size: 89 }]
    );
}

#[test]
fn misaligned_block_is_skipped_for_a_later_one() {
    let mut heap = region(1001, 63);
    // [1001, 1064): take everything, then free [1001, 1011) and [1032, 1064).
    assert_eq!(heap.allocate(63, 1), Some(1001));
    heap.deallocate(1001, 10, 1);
    heap.deallocate(1032, 32, 1);
    // The first block holds 10 bytes, but only 3 from its first multiple of 8.
    assert_eq!(heap.allocate(8, 8), Some(1032));
    assert_eq!(
        heap.free_blocks(),
        vec![Block { addr: 1001, size: 10 }, Block { addr: 1040, size: 24 }]
    );
}

#[test]
fn first_fit_takes_the_30_byte_block() {
    let mut heap = seeded_10_30_20();
    assert_eq!(heap.allocate(15, 1), Some(1020));
    assert_eq!(
        heap.free_blocks(),
        vec![
            Block { addr: 1000, size: 10 },
            Block { addr: 1035, size: 15 },
            Block { addr: 1060, size: 20 },
        ]
    );
}

#[test]
fn first_fit_prefers_the_lowest_block_that_fits() {
    let mut heap = seeded_10_30_20();
    assert_eq!(heap.allocate(10, 1), Some(1000));
    assert_eq!(heap.allocate(20, 1), Some(1020));
    assert_eq!(heap.allocate(20, 1), Some(1060));
    assert_eq!(heap.allocate(11, 1), None);
    assert_eq!(heap.allocate(10, 1), Some(1040));
    assert_eq!(heap.free(), 0);
}

#[test]
fn two_blocks_freed_in_order_merge_back() {
    let mut heap = region(2000, 64);
    let a = heap.allocate(16, 1).unwrap();
    let b = heap.allocate(16, 1).unwrap();
    assert_eq!((a, b), (2000, 2016));
    assert_eq!(heap.free(), 32);
    heap.deallocate(a, 16, 1);
    assert_eq!(
        heap.free_blocks(),
        vec![Block { addr: 2000, size: 16 }, Block { addr: 2032, size: 32 }]
    );
    heap.deallocate(b, 16, 1);
    assert_eq!(heap.free_blocks(), vec![Block { addr: 2000, size: 64 }]);
    assert_eq!(heap.free(), 64);
    assert_eq!(heap.used(), 0);
}

#[test]
fn two_blocks_freed_in_reverse_merge_back() {
    let mut heap = region(2000, 64);
    let a = heap.allocate(16, 1).unwrap();
    let b = heap.allocate(16, 1).unwrap();
    heap.deallocate(b, 16, 1);
    assert_eq!(heap.free_blocks(), vec![Block { addr: 2016, size: 48 }]);
    heap.deallocate(a, 16, 1);
    assert_eq!(heap.free_blocks(), vec![Block { addr: 2000, size: 64 }]);
    assert_eq!(heap.free(), 64);
    assert_eq!(heap.used(), 0);
}

#[test]
fn release_merges_with_the_block_before() {
    let mut heap = region(0, 30);
    assert_eq!(heap.allocate(30, 1), Some(0));
    heap.deallocate(0, 10, 1);
    heap.deallocate(10, 10, 1);
    assert_eq!(heap.free_blocks(), vec![Block { addr: 0, size: 20 }]);
}

#[test]
fn release_merges_with_the_block_behind() {
    let mut heap = region(0, 30);
    assert_eq!(heap.allocate(30, 1), Some(0));
    heap.deallocate(20, 10, 1);
    heap.deallocate(10, 10, 1);
    assert_eq!(heap.free_blocks(), vec![Block { addr: 10, size: 20 }]);
}

#[test]
fn release_merges_both_ways() {
    let mut heap = region(0, 30);
    assert_eq!(heap.allocate(30, 1), Some(0));
    heap.deallocate(0, 10, 1);
    heap.deallocate(20, 10, 1);
    assert_eq!(
        heap.free_blocks(),
        vec![Block { addr: 0, size: 10 }, Block { addr: 20, size: 10 }]
    );
    heap.deallocate(10, 10, 1);
    assert_eq!(heap.free_blocks(), vec![Block { addr: 0, size: 30 }]);
}

#[test]
fn release_between_blocks_that_it_does_not_touch() {
    let mut heap = region(0, 50);
    assert_eq!(heap.allocate(50, 1), Some(0));
    heap.deallocate(0, 10, 1);
    heap.deallocate(40, 10, 1);
    heap.deallocate(20, 10, 1);
    assert_eq!(
        heap.free_blocks(),
        vec![
            Block { addr: 0, size: 10 },
            Block { addr: 20, size: 10 },
            Block { addr: 40, size: 10 },
        ]
    );
    assert_eq!(heap.free(), 30);
    assert_eq!(heap.used(), 20);
}

#[test]
fn release_of_free_bytes_changes_nothing() {
    let mut heap = region(1000, 100);
    assert_eq!(heap.allocate(40, 1), Some(1000));
    heap.deallocate(1000, 40, 1);
    let before = heap.free_blocks();
    // A second release of the same allocation.
    heap.deallocate(1000, 40, 1);
    assert_eq!(heap.free_blocks(), before);
    // A span that is free in part.
    assert_eq!(heap.allocate(40, 1), Some(1000));
    heap.deallocate(1030, 20, 1);
    assert_eq!(heap.free_blocks(), vec![Block { addr: 1040, size: 60 }]);
    assert_eq!(heap.used(), 40);
}

#[test]
fn release_outside_the_region_changes_nothing() {
    let mut heap = region(1000, 100);
    assert_eq!(heap.allocate(100, 1), Some(1000));
    heap.deallocate(990, 20, 1);
    heap.deallocate(1090, 20, 1);
    heap.deallocate(1100, 1, 1);
    heap.deallocate(5000, 8, 8);
    heap.deallocate(usize::MAX, usize::MAX, 1);
    assert!(heap.free_blocks().is_empty());
    assert_eq!(heap.used(), 100);
}

#[test]
fn claims_includes_both_ends() {
    let heap = region(1000, 100);
    assert!(!heap.claims(999));
    assert!(heap.claims(1000));
    assert!(heap.claims(1050));
    assert!(heap.claims(1099));
    assert!(heap.claims(1100));
    assert!(!heap.claims(1101));
}

#[test]
fn deallocate_if_claimed_says_whether_it_claimed() {
    let mut heap = region(1000, 100);
    assert_eq!(heap.allocate(10, 1), Some(1000));
    assert!(!heap.deallocate_if_claimed(999, 10, 1));
    assert!(!heap.deallocate_if_claimed(1101, 10, 1));
    assert_eq!(heap.used(), 10);
    // The top is claimed, though no allocation can start there.
    assert!(heap.deallocate_if_claimed(1100, 10, 1));
    assert_eq!(heap.used(), 10);
    assert!(heap.deallocate_if_claimed(1000, 10, 1));
    assert_eq!(heap.used(), 0);
    assert_eq!(heap.free_blocks(), vec![Block { addr: 1000, size: 100 }]);
}

#[test]
fn serve_answers_each_request() {
    let mut heap = RegionHeap::empty();
    assert_eq!(heap.serve(Request::Free), Reply::Bytes(0));
    assert_eq!(heap.serve(Request::Init { bottom: 64, size: 64 }), Reply::Done);
    assert_eq!(heap.serve(Request::Free), Reply::Bytes(64));
    assert_eq!(heap.serve(Request::Used), Reply::Bytes(0));
    assert_eq!(
        heap.serve(Request::Allocate { size: 24, align: 16 }),
        Reply::Address(Some(64))
    );
    assert_eq!(
        heap.serve(Request::Allocate { size: 24, align: 16 }),
        Reply::Address(Some(96))
    );
    assert_eq!(
        heap.serve(Request::Allocate { size: 24, align: 16 }),
        Reply::Address(None)
    );
    assert_eq!(heap.serve(Request::Used), Reply::Bytes(48));
    assert_eq!(
        heap.serve(Request::DeallocateIfClaimed { addr: 200, size: 24, align: 16 }),
        Reply::Claimed(false)
    );
    assert_eq!(
        heap.serve(Request::DeallocateIfClaimed { addr: 96, size: 24, align: 16 }),
        Reply::Claimed(true)
    );
    assert_eq!(
        heap.serve(Request::Deallocate { addr: 64, size: 24, align: 16 }),
        Reply::Done
    );
    assert_eq!(heap.serve(Request::Free), Reply::Bytes(64));
    assert_eq!(heap.free_blocks(), vec![Block { addr: 64, size: 64 }]);
}

#[test]
fn reply_readers_pick_their_own_kind() {
    assert_eq!(Reply::Address(Some(7)).address(), Some(7));
    assert_eq!(Reply::Address(None).address(), None);
    assert_eq!(Reply::Bytes(7).address(), None);
    assert_eq!(Reply::Bytes(7).bytes(), 7);
    assert_eq!(Reply::Done.bytes(), 0);
    assert!(Reply::Claimed(true).claimed());
    assert!(!Reply::Claimed(false).claimed());
    assert!(!Reply::Done.claimed());
}

/// A step of a linear congruential generator.
fn next(seed: &mut u64) -> usize {
    *seed = seed.wrapping_mul(6364136223846793005).wrapping_add(1442695040888963407);
    (*seed >> 33) as usize
}

fn assert_partition(heap: &RegionHeap, live: &[(usize, usize)]) {
    let blocks = heap.free_blocks();
    for b in &blocks {
        assert!(b.size >= 1);
        assert!(heap.bottom() <= b.addr && b.addr + b.size <= heap.top());
    }
    for w in blocks.windows(2) {
        assert!(w[0].addr + w[0].size < w[1].addr);
    }
    let free: usize = blocks.iter().map(|b| b.size).sum();
    let used: usize = live.iter().map(|&(_, size)| size.max(1)).sum();
    assert_eq!(heap.free(), free);
    assert_eq!(heap.used(), used);
    assert_eq!(free + used, heap.top() - heap.bottom());
    for &(addr, size) in live {
        for b in &blocks {
            assert!(b.addr + b.size <= addr || addr + size.max(1) <= b.addr);
        }
    }
}

#[test]
fn random_traffic_keeps_the_free_list_a_partition() {
    let mut heap = region(0x1000, 4096);
    let mut live: Vec<(usize, usize, usize)> = Vec::new();
    let mut seed: u64 = 7;
    for _ in 0..4000 {
        if next(&mut seed) % 3 != 0 {
            let size = next(&mut seed) % 200;
            let align = 1 << (next(&mut seed) % 6);
            if let Some(addr) = heap.allocate(size, align) {
                assert_eq!(addr % align, 0);
                live.push((addr, size, align));
            }
        } else if !live.is_empty() {
            let (addr, size, align) = live.swap_remove(next(&mut seed) % live.len());
            heap.deallocate(addr, size, align);
        }
        let spans: Vec<(usize, usize)> = live.iter().map(|&(a, s, _)| (a, s)).collect();
        assert_partition(&heap, &spans);
    }
    while let Some((addr, size, align)) = live.pop() {
        heap.deallocate(addr, size, align);
    }
    assert_eq!(heap.free_blocks(), vec![Block { addr: 0x1000, size: 4096 }]);
}

#[test]
fn first_fit_is_the_lowest_address_that_can_hold_the_span() {
    let mut heap = seeded_10_30_20();
    // Free: [1000, 1010), [1020, 1050), [1060, 1080).  Multiples of 16 with 12
    // free bytes from them on: 1024 and 1040 would do, 1008 and 1072 would not.
    assert_eq!(heap.allocate(12, 16), Some(1024));
    assert_eq!(
        heap.free_blocks(),
        vec![
            Block { addr: 1000, size: 10 },
            Block { addr: 1020, size: 4 },
            Block { addr: 1036, size: 14 },
            Block { addr: 1060, size: 20 },
        ]
    );
}

#[test]
fn releases_in_either_order_give_the_same_list() {
    let mut one = region(0, 100);
    let mut two = region(0, 100);
    for heap in [&mut one, &mut two] {
        assert_eq!(heap.allocate(100, 1), Some(0));
        heap.deallocate(50, 5, 1);
    }
    one.deallocate(10, 20, 1);
    one.deallocate(30, 20, 1);
    two.deallocate(30, 20, 1);
    two.deallocate(10, 20, 1);
    assert_eq!(one.free_blocks(), two.free_blocks());
    assert_eq!(one.free_blocks(), vec![Block { addr: 10, size: 45 }]);
}

#[test]
fn allocation_and_release_restore_a_fragmented_list() {
    let mut heap = seeded_10_30_20();
    let before = heap.free_blocks();
    for (size, align) in [(0, 1), (1, 1), (10, 1), (11, 8), (20, 32), (30, 1), (7, 64)] {
        if let Some(addr) = heap.allocate(size, align) {
            assert_eq!(addr % align, 0);
            assert_ne!(heap.free_blocks(), before);
            heap.deallocate(addr, size, align);
        }
        assert_eq!(heap.free_blocks(), before);
        assert_eq!(heap.free(), 60);
        assert_eq!(heap.used(), 20);
    }
}

#[test]
fn total_bytes_adds_and_stops_at_the_maximum() {
    assert_eq!(Reply::total_bytes(Reply::Bytes(40), Reply::Bytes(2)), 42);
    assert_eq!(Reply::total_bytes(Reply::Bytes(0), Reply::Bytes(0)), 0);
    assert_eq!(Reply::total_bytes(Reply::Bytes(7), Reply::Done), 7);
    assert_eq!(Reply::total_bytes(Reply::Address(Some(9)), Reply::Bytes(5)), 5);
    assert_eq!(
        Reply::total_bytes(Reply::Bytes(usize::MAX - 1), Reply::Bytes(1)),
        usize::MAX
    );
    assert_eq!(
        Reply::total_bytes(Reply::Bytes(usize::MAX), Reply::Bytes(usize::MAX)),
        usize::MAX
    );
}
