use esp_alloc::{Block, RegionId, RegionPair, REGION_OVERHEAD};

fn pair(first: (usize, usize), second: (usize, usize)) -> RegionPair {
    let mut pair = RegionPair::empty();
    pair.init_region(RegionId::First, first.0, first.1);
    pair.init_region(RegionId::Second, second.0, second.1);
    pair
}

#[test]
fn empty_pair_counts_zero_and_serves_nothing() {
    let mut pair = RegionPair::empty();
    assert_eq!(pair.used(), 0);
    assert_eq!(pair.free(), 0);
    assert_eq!(pair.allocate(1, 1), None);
}

#[test]
fn free_after_init_of_first_region_is_its_size() {
    let mut pair = RegionPair::empty();
    pair.init_region(RegionId::First, 0x2000, 512);
    assert_eq!(pair.free(), 512 - REGION_OVERHEAD);
    assert_eq!(pair.used(), REGION_OVERHEAD);
    assert_eq!(pair.region(RegionId::First).bottom(), 0x2000);
    assert_eq!(pair.region(RegionId::First).top(), 0x2200);
    assert_eq!(pair.region(RegionId::Second).top(), 0);
}

#[test]
fn single_region_configuration_works_alone() {
    let mut pair = RegionPair::empty();
    pair.init_region(RegionId::First, 0x2000, 64);
    assert_eq!(pair.allocate(64, 1), Some(0x2000));
    assert_eq!(pair.allocate(1, 1), None);
    pair.deallocate(0x2000, 64, 1);
    assert_eq!(pair.free(), 64);
}

#[test]
fn counts_sum_over_both_regions() {
    let mut pair = pair((1000, 100), (5000, 50));
    assert_eq!(pair.free(), 150);
    assert_eq!(pair.used(), 0);
    assert_eq!(pair.allocate(30, 1), Some(1000));
    assert_eq!(pair.allocate(80, 1), None);
    assert_eq!(pair.allocate(40, 1), Some(1030));
    assert_eq!(pair.allocate(40, 1), Some(5000));
    assert_eq!(pair.used(), 110);
    assert_eq!(pair.free(), 40);
}

#[test]
fn first_region_is_preferred() {
    let mut pair = pair((5000, 100), (1000, 100));
    // The second region lies lower, and is still asked last.
    assert_eq!(pair.allocate(10, 1), Some(5000));
    assert_eq!(pair.allocate(10, 1), Some(5010));
}

#[test]
fn exhausted_first_region_falls_back_to_second() {
    let mut pair = pair((1000, 32), (8000, 64));
    assert_eq!(pair.allocate(32, 1), Some(1000));
    assert_eq!(pair.region(RegionId::First).free(), 0);
    for n in [1usize, 7, 16, 40] {
        let before = pair.region(RegionId::Second).free();
        assert!(before >= n);
        let addr = pair.allocate(n, 1).unwrap();
        assert!(8000 <= addr && addr < 8064);
        assert_eq!(pair.region(RegionId::Second).free(), before - n);
    }
    assert_eq!(pair.allocate(1, 1), None);
}

#[test]
fn fragmented_second_region_may_fail_with_enough_free_bytes() {
    let mut pair = pair((1000, 8), (8000, 12));
    assert_eq!(pair.allocate(8, 1), Some(1000));
    assert_eq!(pair.allocate(4, 1), Some(8000));
    assert_eq!(pair.allocate(4, 1), Some(8004));
    assert_eq!(pair.allocate(4, 1), Some(8008));
    pair.deallocate(8000, 4, 1);
    pair.deallocate(8008, 4, 1);
    assert_eq!(pair.region(RegionId::First).free(), 0);
    assert_eq!(pair.region(RegionId::Second).free(), 8);
    assert_eq!(pair.allocate(8, 1), None);
}

#[test]
fn bottom_of_first_region_routes_to_first() {
    let mut pair = pair((1000, 100), (5000, 100));
    assert_eq!(pair.owner(1000), RegionId::First);
    assert_eq!(pair.allocate(10, 1), Some(1000));
    pair.deallocate(1000, 10, 1);
    assert_eq!(pair.region(RegionId::First).free(), 100);
}

#[test]
fn top_of_first_region_routes_to_first() {
    let pair = pair((1000, 100), (5000, 100));
    assert_eq!(pair.owner(1100), RegionId::First);
    assert_eq!(pair.owner(1101), RegionId::Second);
    assert_eq!(pair.owner(999), RegionId::Second);
    assert_eq!(pair.owner(5000), RegionId::Second);
    // Neither region holds this address; the second gets it all the same.
    assert_eq!(pair.owner(9999), RegionId::Second);
}

#[test]
fn address_at_shared_boundary_is_taken_from_second_region() {
    // The second region starts where the first ends.
    let mut pair = pair((1000, 100), (1100, 100));
    assert_eq!(pair.allocate(100, 1), Some(1000));
    assert_eq!(pair.allocate(10, 1), Some(1100));
    assert_eq!(pair.owner(1100), RegionId::First);
    // The release goes to the first region, which has no such allocation.
    pair.deallocate(1100, 10, 1);
    assert_eq!(pair.region(RegionId::First).free(), 0);
    assert_eq!(pair.region(RegionId::Second).free(), 90);
    assert_eq!(
        pair.region(RegionId::Second).free_blocks(),
        vec![Block { addr: 1110, size: 90 }]
    );
}

#[test]
fn address_of_neither_region_goes_to_second_and_is_dropped() {
    let mut pair = pair((1000, 100), (5000, 100));
    assert_eq!(pair.allocate(100, 1), Some(1000));
    assert_eq!(pair.allocate(100, 1), Some(5000));
    pair.deallocate(9000, 10, 1);
    assert_eq!(pair.free(), 0);
    assert_eq!(pair.used(), 200);
}

#[test]
fn release_in_second_region_leaves_first_alone() {
    let mut pair = pair((1000, 64), (5000, 64));
    let mut taken = Vec::new();
    loop {
        let addr = pair.allocate(16, 1).unwrap();
        if addr >= 5000 {
            taken.push(addr);
            break;
        }
        taken.push(addr);
    }
    assert_eq!(taken, vec![1000, 1016, 1032, 1048, 5000]);
    let first_blocks = pair.region(RegionId::First).free_blocks();
    let first_free = pair.region(RegionId::First).free();
    let first_used = pair.region(RegionId::First).used();
    assert_eq!((first_free, first_used), (0, 64));
    pair.deallocate(5000, 16, 1);
    assert_eq!(pair.region(RegionId::First).free_blocks(), first_blocks);
    assert_eq!(pair.region(RegionId::First).free(), first_free);
    assert_eq!(pair.region(RegionId::First).used(), first_used);
    assert_eq!(
        pair.region(RegionId::Second).free_blocks(),
        vec![Block { addr: 5000, size: 64 }]
    );
}

#[test]
fn release_in_first_region_leaves_second_alone() {
    let mut pair = pair((1000, 64), (5000, 64));
    assert_eq!(pair.allocate(64, 1), Some(1000));
    assert_eq!(pair.allocate(16, 1), Some(5000));
    pair.deallocate(1000, 64, 1);
    assert_eq!(
        pair.region(RegionId::Second).free_blocks(),
        vec![Block { addr: 5016, size: 48 }]
    );
    assert_eq!(pair.region(RegionId::First).free(), 64);
}

#[test]
fn init_region_again_replaces_the_region() {
    let mut pair = pair((1000, 64), (5000, 64));
    assert_eq!(pair.allocate(64, 1), Some(1000));
    pair.init_region(RegionId::First, 2000, 32);
    assert_eq!(pair.free(), 96);
    assert_eq!(pair.allocate(8, 1), Some(2000));
}
