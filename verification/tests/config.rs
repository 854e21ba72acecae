use drone_core::heap::{Allocator, ConfigError, HeapConfig, PoolConfig};

fn pool(block_size: usize, block_count: usize) -> PoolConfig {
    PoolConfig { block_size, block_count }
}

fn config(total_size: usize, pools: Vec<PoolConfig>) -> HeapConfig {
    HeapConfig { total_size, pools }
}

#[test]
fn heap_of_four_pools_is_valid() {
    let config = config(
        0x40000,
        vec![pool(0x4, 0x4000), pool(0x20, 0x800), pool(0x100, 0x100), pool(0x800, 0x20)],
    );
    assert_eq!(config.validate(), Ok(()));
}

#[test]
fn empty_heap_is_valid() {
    assert_eq!(config(0, vec![]).validate(), Ok(()));
}

#[test]
fn empty_heap_with_a_size_is_a_mismatch() {
    assert_eq!(config(8, vec![]).validate(), Err(ConfigError::SizeMismatch));
}

#[test]
fn pool_without_blocks_is_valid() {
    assert_eq!(config(64, vec![pool(8, 0), pool(16, 4)]).validate(), Ok(()));
}

#[test]
fn total_one_byte_short_is_a_mismatch() {
    let config = config(4 * 8 + 16 * 4 - 1, vec![pool(4, 8), pool(16, 4)]);
    assert_eq!(config.validate(), Err(ConfigError::SizeMismatch));
}

#[test]
fn total_one_byte_long_is_a_mismatch() {
    let config = config(4 * 8 + 16 * 4 + 1, vec![pool(4, 8), pool(16, 4)]);
    assert_eq!(config.validate(), Err(ConfigError::SizeMismatch));
}

#[test]
fn exact_total_is_valid() {
    assert_eq!(config(4 * 8 + 16 * 4, vec![pool(4, 8), pool(16, 4)]).validate(), Ok(()));
}

#[test]
fn descending_block_sizes_are_refused() {
    let config = config(96, vec![pool(16, 4), pool(4, 8)]);
    assert_eq!(config.validate(), Err(ConfigError::BlockSizeOrder));
}

#[test]
fn equal_block_sizes_are_refused() {
    let config = config(64, vec![pool(8, 4), pool(8, 4)]);
    assert_eq!(config.validate(), Err(ConfigError::BlockSizeOrder));
}

#[test]
fn zero_block_size_is_refused() {
    let config = config(64, vec![pool(0, 4), pool(16, 4)]);
    assert_eq!(config.validate(), Err(ConfigError::BlockSizeOrder));
}

#[test]
fn order_is_reported_before_size() {
    let config = config(1, vec![pool(16, 4), pool(4, 8)]);
    assert_eq!(config.validate(), Err(ConfigError::BlockSizeOrder));
}

#[test]
fn pool_larger_than_the_address_space_is_a_mismatch() {
    let config = config(usize::MAX, vec![pool(usize::MAX / 2, 3)]);
    assert_eq!(config.validate(), Err(ConfigError::SizeMismatch));
}

#[test]
fn pools_that_together_exceed_the_address_space_are_a_mismatch() {
    let half = usize::MAX / 2;
    let config = config(usize::MAX, vec![pool(half, 1), pool(half + 1, 1), pool(usize::MAX, 1)]);
    assert_eq!(config.validate(), Err(ConfigError::SizeMismatch));
}

#[test]
fn pools_that_fill_the_address_space_are_valid() {
    let half = usize::MAX / 2;
    let config = config(usize::MAX, vec![pool(half, 1), pool(half + 1, 1)]);
    assert_eq!(config.validate(), Ok(()));
}

#[test]
fn allocator_is_built_from_a_valid_configuration_only() {
    assert!(Allocator::new(&config(96, vec![pool(4, 8), pool(16, 4)])).is_ok());
    assert_eq!(
        Allocator::new(&config(95, vec![pool(4, 8), pool(16, 4)])).err(),
        Some(ConfigError::SizeMismatch)
    );
    assert_eq!(
        Allocator::new(&config(96, vec![pool(16, 4), pool(4, 8)])).err(),
        Some(ConfigError::BlockSizeOrder)
    );
}

#[test]
fn allocator_keeps_the_declared_geometry() {
    let declared = vec![pool(0x4, 0x40), pool(0x20, 0x8), pool(0x100, 0x4), pool(0x800, 0x2)];
    let total = 0x4 * 0x40 + 0x20 * 0x8 + 0x100 * 0x4 + 0x800 * 0x2;
    let allocator = Allocator::new(&config(total, declared.clone())).unwrap();
    assert_eq!(allocator.total_size(), total);
    assert_eq!(allocator.pool_count(), declared.len());
    let mut sum = 0;
    let mut previous = 0;
    for (index, pool) in declared.iter().enumerate() {
        assert_eq!(allocator.pool(index).block_size(), pool.block_size);
        assert_eq!(allocator.pool(index).length(), pool.block_count);
        assert!(allocator.pool(index).block_size() > previous);
        previous = allocator.pool(index).block_size();
        sum += allocator.pool(index).block_size() * allocator.pool(index).length();
    }
    assert_eq!(sum, allocator.total_size());
}
