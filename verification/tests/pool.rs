use drone_core::heap::head::Head;
use drone_core::heap::{Pool, EMPTY};

fn bound(block_size: usize, length: usize, base: usize) -> Pool {
    let mut pool = Pool::new(block_size, length);
    pool.init(base);
    pool
}

#[test]
fn head_is_replaced_only_where_it_holds_the_expected_value() {
    let mut head = Head::new(0x100);
    assert_eq!(head.load(), 0x100);
    assert_eq!(head.compare_exchange(0x200, 0x300), Err(0x100));
    assert_eq!(head.load(), 0x100);
    assert_eq!(head.compare_exchange(0x100, 0x300), Ok(0x100));
    assert_eq!(head.load(), 0x300);
}

#[test]
fn unbound_pool_has_its_geometry_and_no_free_block() {
    let mut pool = Pool::new(32, 5);
    assert_eq!(pool.block_size(), 32);
    assert_eq!(pool.length(), 5);
    assert_eq!(pool.base(), 0);
    assert_eq!(pool.available(), 0);
    assert_eq!(pool.allocate(), None);
    assert!(!pool.is_live(0));
}

#[test]
fn bound_pool_covers_its_range() {
    let pool = bound(32, 5, 0x1000);
    assert_eq!(pool.base(), 0x1000);
    assert_eq!(pool.end(), 0x1000 + 32 * 5);
    assert!(!pool.contains(0x0fff));
    assert!(pool.contains(0x1000));
    assert!(pool.contains(0x1000 + 32 * 5 - 1));
    assert!(!pool.contains(0x1000 + 32 * 5));
}

#[test]
fn block_index_and_address_are_inverse() {
    let pool = bound(24, 7, 0x2000);
    for index in 0..7 {
        let address = pool.block_address(index);
        assert_eq!(address, 0x2000 + index * 24);
        assert!(pool.is_block(address));
        assert_eq!(pool.index_of(address), index);
    }
}

#[test]
fn only_block_starts_are_blocks() {
    let pool = bound(16, 4, 0x1000);
    assert!(pool.is_block(0x1000));
    assert!(pool.is_block(0x1030));
    assert!(!pool.is_block(0x1001));
    assert!(!pool.is_block(0x100f));
    assert!(!pool.is_block(0x1040));
    assert!(!pool.is_block(0x0ff0));
    assert!(!pool.is_block(EMPTY));
}

#[test]
fn blocks_are_handed_out_by_rising_address() {
    let mut pool = bound(16, 4, 0x1000);
    assert_eq!(pool.available(), 4);
    assert_eq!(pool.allocate(), Some(0x1000));
    assert_eq!(pool.allocate(), Some(0x1010));
    assert_eq!(pool.allocate(), Some(0x1020));
    assert_eq!(pool.allocate(), Some(0x1030));
    assert_eq!(pool.available(), 0);
}

#[test]
fn exhausted_pool_returns_none_and_stays_exhausted() {
    let mut pool = bound(16, 2, 0x1000);
    assert!(pool.allocate().is_some());
    assert!(pool.allocate().is_some());
    assert_eq!(pool.allocate(), None);
    assert_eq!(pool.allocate(), None);
    assert_eq!(pool.available(), 0);
}

#[test]
fn pool_without_blocks_is_always_exhausted() {
    let mut pool = bound(16, 0, 0x1000);
    assert_eq!(pool.available(), 0);
    assert_eq!(pool.allocate(), None);
    assert_eq!(pool.end(), 0x1000);
}

#[test]
fn block_given_back_is_the_next_handed_out() {
    let mut pool = bound(16, 4, 0x1000);
    let first = pool.allocate().unwrap();
    let second = pool.allocate().unwrap();
    pool.deallocate(first);
    assert_eq!(pool.available(), 3);
    assert_eq!(pool.allocate(), Some(first));
    pool.deallocate(second);
    pool.deallocate(first);
    assert_eq!(pool.allocate(), Some(first));
    assert_eq!(pool.allocate(), Some(second));
    assert_eq!(pool.allocate(), Some(0x1020));
}

#[test]
fn free_and_live_follow_allocation() {
    let mut pool = bound(16, 3, 0x1000);
    assert!(pool.is_free(0x1000));
    assert!(!pool.is_live(0x1000));
    let address = pool.allocate().unwrap();
    assert!(!pool.is_free(address));
    assert!(pool.is_live(address));
    assert!(pool.is_free(0x1010));
    assert!(!pool.is_live(0x1008));
    assert!(!pool.is_free(0x1008));
    pool.deallocate(address);
    assert!(pool.is_free(address));
    assert!(!pool.is_live(address));
}

#[test]
fn round_trips_leave_the_pool_as_it_was() {
    let mut pool = bound(8, 6, 0x4000);
    let held = [pool.allocate().unwrap(), pool.allocate().unwrap()];
    let available = pool.available();
    for _ in 0..1000 {
        let address = pool.allocate().unwrap();
        assert_eq!(address, 0x4010);
        pool.deallocate(address);
        assert_eq!(pool.available(), available);
    }
    assert_eq!(available, 4);
    assert_eq!(pool.allocate(), Some(0x4010));
    assert_eq!(pool.allocate(), Some(0x4018));
    assert_eq!(pool.allocate(), Some(0x4020));
    assert_eq!(pool.allocate(), Some(0x4028));
    assert_eq!(pool.allocate(), None);
    assert!(pool.is_live(held[0]) && pool.is_live(held[1]));
}

#[test]
fn round_trips_on_an_exhausted_pool_change_nothing() {
    let mut pool = bound(8, 1, 0x4000);
    let held = pool.allocate().unwrap();
    for _ in 0..10 {
        assert_eq!(pool.allocate(), None);
        assert_eq!(pool.available(), 0);
    }
    pool.deallocate(held);
    assert_eq!(pool.available(), 1);
}

#[test]
fn alignment_is_that_of_every_block() {
    let pool = bound(16, 4, 0x1000);
    assert!(pool.aligned_to(1));
    assert!(pool.aligned_to(8));
    assert!(pool.aligned_to(16));
    assert!(!pool.aligned_to(32));
    assert!(!pool.aligned_to(3));
    assert!(!pool.aligned_to(0));
}

#[test]
fn alignment_depends_on_the_base() {
    let pool = bound(16, 4, 0x1008);
    assert!(pool.aligned_to(8));
    assert!(!pool.aligned_to(16));
}

#[test]
fn single_block_is_as_aligned_as_its_base() {
    let pool = bound(24, 1, 0x1000);
    assert!(pool.aligned_to(0x1000));
    assert!(pool.aligned_to(64));
    assert!(!pool.aligned_to(0x2000));
    let two = bound(24, 2, 0x1000);
    assert!(two.aligned_to(8));
    assert!(!two.aligned_to(64));
}

#[test]
fn pool_without_blocks_is_aligned_to_all_but_zero() {
    let pool = bound(24, 0, 0x1001);
    assert!(pool.aligned_to(64));
    assert!(!pool.aligned_to(0));
}

#[test]
fn pool_may_end_at_the_top_of_the_address_space() {
    let base = usize::MAX - 64;
    let mut pool = bound(16, 4, base);
    assert_eq!(pool.end(), usize::MAX);
    assert_eq!(pool.allocate(), Some(base));
    assert_eq!(pool.block_address(3), usize::MAX - 16);
}
