//! Declared geometry of the heap: the region size and its pools.

use vstd::prelude::*;

verus! {

/// One pool of the heap: `block_count` blocks of `block_size` bytes each.
#[derive(Debug, Clone, Copy, PartialEq, Eq, Structural)]
pub struct PoolConfig {
    /// Bytes per block.
    pub block_size: usize,
    /// Number of blocks.
    pub block_count: usize,
}

/// The declared heap: a region of `total_size` bytes shared out among `pools`.
pub struct HeapConfig {
    /// Size of the whole region in bytes.
    pub total_size: usize,
    /// The pools, in the order in which they lie in the region.
    pub pools: Vec<PoolConfig>,
}

/// Why a [`HeapConfig`] was refused.
#[derive(Debug, Clone, Copy, PartialEq, Eq, Structural)]
pub enum ConfigError {
    /// A block size is zero, or not larger than the one before it.
    BlockSizeOrder,
    /// The pools do not add up to the declared region size.
    SizeMismatch,
}

/// Bytes taken by one pool.
pub open spec fn pool_bytes(pool: PoolConfig) -> int {
    pool.block_size * pool.block_count
}

/// Bytes taken by all of `pools` together.
pub open spec fn region_bytes(pools: Seq<PoolConfig>) -> int
    decreases pools.len(),
{
    if pools.len() == 0 {
        0
    } else {
        region_bytes(pools.drop_last()) + pool_bytes(pools.last())
    }
}

/// Every block size is positive and larger than all block sizes before it.
pub open spec fn strictly_ascending(pools: Seq<PoolConfig>) -> bool {
    &&& forall|i: int| 0 <= i < pools.len() ==> (#[trigger] pools[i]).block_size > 0
    &&& forall|i: int, j: int|
        0 <= i < j < pools.len() ==> (#[trigger] pools[i]).block_size < (
        #[trigger] pools[j]).block_size
}

/// The geometry that an allocator can be built from.
pub open spec fn valid_geometry(pools: Seq<PoolConfig>, total_size: int) -> bool {
    strictly_ascending(pools) && region_bytes(pools) == total_size
}

/// A pool takes no negative number of bytes.
pub proof fn lemma_pool_bytes_nonnegative(pool: PoolConfig)
    ensures
        0 <= pool_bytes(pool),
{
    assert(0 <= pool.block_size * pool.block_count) by (nonlinear_arith);
}

/// The bytes of the first `n` pools never exceed the bytes of all pools.
pub proof fn lemma_region_bytes_prefix(pools: Seq<PoolConfig>, n: int)
    requires
        0 <= n <= pools.len(),
    ensures
        0 <= region_bytes(pools.take(n)) <= region_bytes(pools),
    decreases pools.len() - n,
{
    if n == pools.len() {
        assert(pools.take(n) =~= pools);
        lemma_region_bytes_nonnegative(pools);
    } else {
        lemma_region_bytes_prefix(pools, n + 1);
        assert(pools.take(n + 1).drop_last() =~= pools.take(n));
        lemma_pool_bytes_nonnegative(pools.take(n + 1).last());
        lemma_region_bytes_nonnegative(pools.take(n));
    }
}

/// A region takes no negative number of bytes.
pub proof fn lemma_region_bytes_nonnegative(pools: Seq<PoolConfig>)
    ensures
        0 <= region_bytes(pools),
    decreases pools.len(),
{
    if pools.len() > 0 {
        lemma_region_bytes_nonnegative(pools.drop_last());
        lemma_pool_bytes_nonnegative(pools.last());
    }
}

impl HeapConfig {
    /// The configuration describes a region that its pools fill exactly, with
    /// block sizes that grow from pool to pool.
    pub open spec fn valid(&self) -> bool {
        valid_geometry(self.pools@, self.total_size as int)
    }

    /// The fault that [`HeapConfig::validate`] reports, if the configuration
    /// has one.
    pub open spec fn validate_error(&self) -> Option<ConfigError> {
        if !strictly_ascending(self.pools@) {
            Some(ConfigError::BlockSizeOrder)
        } else if region_bytes(self.pools@) != self.total_size {
            Some(ConfigError::SizeMismatch)
        } else {
            None
        }
    }

    /// Checks the configuration.
    ///
    /// The order of the block sizes is checked first, so a configuration with
    /// both faults reports [`ConfigError::BlockSizeOrder`].
    pub fn validate(&self) -> (res: Result<(), ConfigError>)
        ensures
            res is Ok <==> self.valid(),
            res == (match self.validate_error() {
                Some(error) => Err::<(), ConfigError>(error),
                None => Ok::<(), ConfigError>(()),
            }),
    {
        let n: usize = self.pools.len();
        let mut previous: usize = 0;
        let mut i: usize = 0;
        while i < n
            invariant
                n == self.pools.len(),
                i <= n,
                strictly_ascending(self.pools@.take(i as int)),
                i > 0 ==> previous == self.pools@[i - 1].block_size,
                i == 0 ==> previous == 0,
            decreases n - i,
        {
            let size: usize = self.pools[i].block_size;
            if size <= previous {
                proof {
                    if i > 0 {
                        assert(!(self.pools@[i - 1].block_size < self.pools@[i as int].block_size));
                    } else {
                        assert(!(self.pools@[0].block_size > 0));
                    }
                }
                return Err(ConfigError::BlockSizeOrder);
            }
            proof {
                let before = self.pools@.take(i as int);
                let after = self.pools@.take(i + 1);
                assert forall|a: int, b: int| 0 <= a < b < after.len() implies (#[trigger] after[a]).block_size
                    < (#[trigger] after[b]).block_size by {
                    if b < i {
                        assert(before[a].block_size < before[b].block_size);
                    } else if a < i - 1 {
                        assert(before[a].block_size < before[i - 1].block_size);
                    }
                }
                assert forall|a: int| 0 <= a < after.len() implies (#[trigger] after[a]).block_size
                    > 0 by {
                    if a < i {
                        assert(before[a].block_size > 0);
                    }
                }
            }
            previous = size;
            i += 1;
        }
        assert(self.pools@.take(n as int) =~= self.pools@);

        let mut sum: usize = 0;
        let mut k: usize = 0;
        while k < n
            invariant
                n == self.pools.len(),
                k <= n,
                strictly_ascending(self.pools@),
                sum == region_bytes(self.pools@.take(k as int)),
            decreases n - k,
        {
            let pool = self.pools[k];
            proof {
                assert(self.pools@.take(k + 1).drop_last() =~= self.pools@.take(k as int));
                assert(self.pools@.take(k + 1).last() == pool);
                lemma_region_bytes_prefix(self.pools@, k + 1);
                lemma_region_bytes_nonnegative(self.pools@.take(k as int));
                lemma_pool_bytes_nonnegative(pool);
            }
            let bytes = match pool.block_size.checked_mul(pool.block_count) {
                Some(bytes) => bytes,
                None => {
                    return Err(ConfigError::SizeMismatch);
                },
            };
            sum = match sum.checked_add(bytes) {
                Some(sum) => sum,
                None => {
                    return Err(ConfigError::SizeMismatch);
                },
            };
            k += 1;
        }
        assert(self.pools@.take(n as int) =~= self.pools@);
        if sum == self.total_size {
            Ok(())
        } else {
            Err(ConfigError::SizeMismatch)
        }
    }
}

} // verus!
