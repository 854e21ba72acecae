//! The allocator: pools laid out back to back, smallest blocks first.

use super::config::{
    lemma_pool_bytes_nonnegative, lemma_region_bytes_prefix, pool_bytes, region_bytes,
    strictly_ascending, valid_geometry, ConfigError, HeapConfig, PoolConfig,
};
use super::head::BlockAddress;
use super::pool::{Pool, PoolView};
use vstd::prelude::*;

verus! {

/// Why an allocation failed.
#[derive(Debug, Clone, Copy, PartialEq, Eq, Structural)]
pub enum AllocError {
    /// No pool that fits the request has a free block.
    OutOfMemory,
}

/// What is wrong with a block that a caller wants to give back.
#[derive(Debug, Clone, Copy, PartialEq, Eq, Structural)]
pub enum ContractViolation {
    /// The address is not where a block of the allocator starts.
    UnknownAddress,
    /// The block is free already.
    DoubleFree,
    /// The pool of the block could not have served the size and alignment
    /// named.
    LayoutMismatch,
}

/// What an [`Allocator`] is, mathematically: the region it manages and the
/// views of its pools, in the order in which they lie in the region.
pub struct AllocatorView {
    /// Address of the region; zero until the allocator is initialized.
    pub base: usize,
    /// Size of the region in bytes.
    pub total_size: usize,
    /// The pools, smallest blocks first.
    pub pools: Seq<PoolView>,
}

impl AllocatorView {
    /// The allocator has been bound to its region.
    pub open spec fn initialized(self) -> bool {
        self.base != 0
    }

    /// Block size and block count of each pool.
    pub open spec fn geometry(self) -> Seq<PoolConfig> {
        Seq::new(
            self.pools.len(),
            |i: int| PoolConfig { block_size: self.pools[i].block_size, block_count: self.pools[i].length },
        )
    }

    /// Distance from the start of the region to pool `index`: the bytes of
    /// all pools before it.
    pub open spec fn offset(self, index: int) -> int {
        region_bytes(self.geometry().take(index))
    }

    /// The pools are valid, their block sizes rise strictly, together they
    /// fill the region exactly, and once the allocator is initialized each
    /// pool starts where the one before it ends.
    pub open spec fn valid(self) -> bool {
        &&& forall|i: int| 0 <= i < self.pools.len() ==> (#[trigger] self.pools[i]).valid()
        &&& valid_geometry(self.geometry(), self.total_size as int)
        &&& self.initialized() ==> self.base + self.total_size <= usize::MAX
        &&& forall|i: int|
            0 <= i < self.pools.len() ==> (#[trigger] self.pools[i]).base == (if self.initialized() {
                self.base + self.offset(i)
            } else {
                0
            })
    }

    /// Pool `index` can serve a request: its blocks are large enough and
    /// suitably aligned, and one of them is free.
    pub open spec fn serves(self, index: int, size: usize, align: usize) -> bool {
        &&& self.pools[index].block_size >= size
        &&& self.pools[index].aligned_to(align)
        &&& self.pools[index].free.len() > 0
    }

    /// Pool `index` is the one that serves a request: the first that can.
    pub open spec fn is_serving_pool(self, index: int, size: usize, align: usize) -> bool {
        &&& 0 <= index < self.pools.len()
        &&& self.serves(index, size, align)
        &&& forall|before: int| 0 <= before < index ==> !self.serves(before, size, align)
    }

    /// The pool that serves a request, if any can.
    pub open spec fn serving_pool(self, size: usize, align: usize) -> Option<int> {
        if exists|index: int| self.is_serving_pool(index, size, align) {
            Some(choose|index: int| self.is_serving_pool(index, size, align))
        } else {
            None
        }
    }

    /// What an allocation returns: the first free block of the serving pool.
    pub open spec fn allocation(self, size: usize, align: usize) -> Result<usize, AllocError> {
        match self.serving_pool(size, align) {
            Some(index) => Ok(self.pools[index].free[0]),
            None => Err(AllocError::OutOfMemory),
        }
    }

    /// The allocator after an allocation: the serving pool has lost its
    /// first free block, and nothing else has changed.
    pub open spec fn after_allocate(self, size: usize, align: usize) -> AllocatorView {
        match self.serving_pool(size, align) {
            Some(index) => AllocatorView {
                pools: self.pools.update(index, self.pools[index].after_allocate()),
                ..self
            },
            None => self,
        }
    }

    /// Pool `index` is the one whose address range holds `address`.
    pub open spec fn is_owner(self, index: int, address: usize) -> bool {
        0 <= index < self.pools.len() && self.pools[index].contains(address)
    }

    /// The pool whose address range holds `address`, if there is one.
    pub open spec fn owner(self, address: usize) -> Option<int> {
        if exists|index: int| self.is_owner(index, address) {
            Some(choose|index: int| self.is_owner(index, address))
        } else {
            None
        }
    }

    /// `address` is a block of the allocator that is currently handed out.
    pub open spec fn is_live(self, address: usize) -> bool {
        exists|index: int|
            0 <= index < self.pools.len() && (#[trigger] self.pools[index]).is_live(address)
    }

    /// A request for `size` bytes at a multiple of `align` can have been
    /// served with the block at `address`: the blocks of the pool that owns
    /// the address are large enough and suitably aligned.
    pub open spec fn fits(self, address: usize, size: usize, align: usize) -> bool {
        self.owner(address) matches Some(index) && self.pools[index].block_size >= size
            && self.pools[index].aligned_to(align)
    }

    /// `address` is where a block of one of the pools starts.
    pub open spec fn is_block(self, address: usize) -> bool {
        exists|index: int|
            0 <= index < self.pools.len() && (#[trigger] self.pools[index]).is_block(address)
    }

    /// `address` is where a free block of one of the pools starts.
    pub open spec fn is_free(self, address: usize) -> bool {
        exists|index: int|
            0 <= index < self.pools.len() && (#[trigger] self.pools[index]).is_block(address)
                && self.pools[index].free.contains(address)
    }

    /// What is wrong with giving back `address` as a block allocated for
    /// `size` bytes at a multiple of `align`, if anything is.
    pub open spec fn violation(self, address: usize, size: usize, align: usize) -> Option<
        ContractViolation,
    > {
        if !self.initialized() || !self.is_block(address) {
            Some(ContractViolation::UnknownAddress)
        } else if self.is_free(address) {
            Some(ContractViolation::DoubleFree)
        } else if !self.fits(address, size, align) {
            Some(ContractViolation::LayoutMismatch)
        } else {
            None
        }
    }

    /// The allocator after `address` was given back: the pool that owns the
    /// address has it at the front of its free list, and nothing else has
    /// changed.
    pub open spec fn after_deallocate(self, address: usize) -> AllocatorView {
        match self.owner(address) {
            Some(index) => AllocatorView {
                pools: self.pools.update(index, self.pools[index].after_deallocate(address)),
                ..self
            },
            None => self,
        }
    }

    /// The allocator after it was bound to `base`: every pool is bound to its
    /// place in the region and every block is free.
    pub open spec fn after_init(self, base: usize) -> AllocatorView {
        AllocatorView {
            base,
            total_size: self.total_size,
            pools: Seq::new(
                self.pools.len(),
                |i: int| self.pools[i].after_init((base + self.offset(i)) as usize),
            ),
        }
    }

    /// Each pool starts as many bytes after the one before it as that one
    /// is long.
    pub proof fn lemma_offset_step(self, index: int)
        requires
            0 <= index < self.pools.len(),
        ensures
            0 <= self.offset(index),
            self.offset(index + 1) == self.offset(index) + self.pools[index].bytes(),
            self.offset(index + 1) <= region_bytes(self.geometry()),
    {
        let geometry = self.geometry();
        assert(geometry.take(index + 1).drop_last() =~= geometry.take(index));
        assert(geometry.take(index + 1).last() == geometry[index]);
        lemma_region_bytes_prefix(geometry, index);
        lemma_region_bytes_prefix(geometry, index + 1);
    }

    /// The pools lie in the region in index order and do not overlap: a pool
    /// ends no later than any pool after it starts.
    pub proof fn lemma_offsets_ordered(self, i: int, j: int)
        requires
            0 <= i < j < self.pools.len(),
        ensures
            self.offset(i) + self.pools[i].bytes() <= self.offset(j),
        decreases j - i,
    {
        self.lemma_offset_step(i);
        if i + 1 < j {
            self.lemma_offsets_ordered(i + 1, j);
            lemma_pool_bytes_nonnegative(self.geometry()[i + 1]);
        }
    }

    /// In an initialized allocator every pool lies inside the region, and the
    /// pools follow one another without overlap.
    pub proof fn lemma_pools_ordered(self, i: int, j: int)
        requires
            self.valid(),
            self.initialized(),
            0 <= i < j < self.pools.len(),
        ensures
            self.base <= self.pools[i].base,
            self.pools[i].end() <= self.pools[j].base,
            self.pools[j].end() <= self.base + self.total_size,
    {
        self.lemma_offsets_ordered(i, j);
        self.lemma_offset_step(i);
        self.lemma_offset_step(j);
    }

    /// Block size of pool `index`.
    pub open spec fn size_of(self, index: int) -> int {
        self.pools[index].block_size as int
    }

    /// Address at which pool `index` starts.
    pub open spec fn base_of(self, index: int) -> int {
        self.pools[index].base as int
    }

    /// First address past pool `index`.
    pub open spec fn end_of(self, index: int) -> int {
        self.pools[index].end()
    }

    /// The block sizes rise strictly with the index.
    pub proof fn lemma_sizes_sorted(self)
        requires
            self.valid(),
        ensures
            forall|i: int, j: int|
                0 <= i < j < self.pools.len() ==> #[trigger] self.size_of(i) < #[trigger] self.size_of(
                    j,
                ),
    {
        let geometry = self.geometry();
        assert forall|i: int, j: int| 0 <= i < j < self.pools.len() implies #[trigger] self.size_of(
            i,
        ) < #[trigger] self.size_of(j) by {
            assert(geometry[i].block_size < geometry[j].block_size);
        }
    }

    /// The address ranges of the pools rise with the index.
    pub proof fn lemma_ranges_sorted(self)
        requires
            self.valid(),
            self.initialized(),
        ensures
            forall|i: int| 0 <= i < self.pools.len() ==> #[trigger] self.base_of(i) <= self.end_of(i),
            forall|i: int, j: int|
                0 <= i <= j < self.pools.len() ==> #[trigger] self.base_of(i) <= #[trigger] self.base_of(
                    j,
                ),
            forall|i: int, j: int|
                0 <= i <= j < self.pools.len() ==> #[trigger] self.end_of(i) <= #[trigger] self.end_of(
                    j,
                ),
    {
        assert forall|i: int| 0 <= i < self.pools.len() implies #[trigger] self.base_of(i)
            <= self.end_of(i) by {
            lemma_pool_bytes_nonnegative(self.geometry()[i]);
        }
        assert forall|i: int, j: int| 0 <= i <= j < self.pools.len() implies #[trigger] self.base_of(
            i,
        ) <= #[trigger] self.base_of(j) by {
            if i < j {
                self.lemma_pools_ordered(i, j);
                assert(self.base_of(i) <= self.end_of(i));
            }
        }
        assert forall|i: int, j: int| 0 <= i <= j < self.pools.len() implies #[trigger] self.end_of(
            i,
        ) <= #[trigger] self.end_of(j) by {
            if i < j {
                self.lemma_pools_ordered(i, j);
                assert(self.base_of(j) <= self.end_of(j));
            }
        }
    }

    /// At most one pool holds a given address.
    pub proof fn lemma_owner_unique(self, index: int, address: usize)
        requires
            self.valid(),
            self.initialized(),
            self.is_owner(index, address),
        ensures
            self.owner(address) == Some(index),
    {
        let chosen = choose|k: int| self.is_owner(k, address);
        if chosen < index {
            self.lemma_pools_ordered(chosen, index);
        } else if index < chosen {
            self.lemma_pools_ordered(index, chosen);
        }
    }

    /// The first pool that can serve a request is the serving pool.
    pub proof fn lemma_serving_pool_unique(self, index: int, size: usize, align: usize)
        requires
            self.is_serving_pool(index, size, align),
        ensures
            self.serving_pool(size, align) == Some(index),
    {
        let chosen = choose|k: int| self.is_serving_pool(k, size, align);
        if chosen < index {
            assert(!self.serves(chosen, size, align));
        } else if index < chosen {
            assert(!self.serves(index, size, align));
        }
    }
}

/// An ordered collection of pools over one region of memory.
///
/// The pools are sorted by rising block size and lie in the region in that
/// order, each starting where the one before it ends. The geometry is fixed
/// when the allocator is built; [`Allocator::init`] binds it to an address,
/// once, before any block is allocated.
pub struct Allocator {
    pools: Vec<Pool>,
    base: usize,
    total_size: usize,
}

impl View for Allocator {
    type V = AllocatorView;

    closed spec fn view(&self) -> AllocatorView {
        AllocatorView {
            base: self.base,
            total_size: self.total_size,
            pools: Seq::new(self.pools@.len(), |i: int| self.pools@[i]@),
        }
    }
}

impl Allocator {
    /// Every pool is well formed and the view is valid.
    pub closed spec fn wf(&self) -> bool {
        &&& forall|i: int| 0 <= i < self.pools@.len() ==> (#[trigger] self.pools@[i]).wf()
        &&& self@.valid()
    }

    /// A well-formed allocator has a valid view.
    pub proof fn lemma_wf_valid(&self)
        requires
            self.wf(),
        ensures
            self@.valid(),
    {
    }

    /// Builds the allocator that `config` declares, not yet bound to memory.
    ///
    /// Fails, with the error of [`HeapConfig::validate`], exactly when the
    /// configuration is not valid.
    pub fn new(config: &HeapConfig) -> (res: Result<Allocator, ConfigError>)
        ensures
            res is Ok <==> config.valid(),
            res matches Err(error) ==> config.validate_error() == Some(error),
            res matches Ok(allocator) ==> {
                &&& allocator.wf()
                &&& !allocator@.initialized()
                &&& allocator@.total_size == config.total_size
                &&& allocator@.geometry() == config.pools@
                &&& forall|i: int|
                    0 <= i < allocator@.pools.len() ==> (#[trigger] allocator@.pools[i]).free.len()
                        == 0
            },
    {
        match config.validate() {
            Err(error) => {
                return Err(error);
            },
            Ok(_) => {},
        }
        let count: usize = config.pools.len();
        let mut pools: Vec<Pool> = Vec::new();
        let mut index: usize = 0;
        while index < count
            invariant
                count == config.pools.len(),
                config.valid(),
                index <= count,
                pools@.len() == index,
                forall|i: int|
                    0 <= i < index ==> {
                        &&& (#[trigger] pools@[i]).wf()
                        &&& pools@[i]@ == (PoolView {
                            block_size: config.pools@[i].block_size,
                            length: config.pools@[i].block_count,
                            base: 0,
                            free: Seq::empty(),
                        })
                    },
            decreases count - index,
        {
            let declared: PoolConfig = config.pools[index];
            proof {
                let prefix = config.pools@.take(index + 1);
                assert(prefix.drop_last() =~= config.pools@.take(index as int));
                assert(prefix.last() == declared);
                lemma_region_bytes_prefix(config.pools@, index as int);
                lemma_region_bytes_prefix(config.pools@, index + 1);
            }
            pools.push(Pool::new(declared.block_size, declared.block_count));
            index += 1;
        }
        let allocator = Allocator { pools, base: 0, total_size: config.total_size };
        proof {
            assert(allocator@.geometry() =~= config.pools@);
            assert forall|i: int| 0 <= i < allocator@.pools.len() implies (
            #[trigger] allocator@.pools[i]).valid() by {
                allocator.pools@[i].lemma_wf_valid();
            }
        }
        Ok(allocator)
    }

    /// Address of the region; zero until the allocator is initialized.
    pub fn base(&self) -> (base: usize)
        ensures
            base == self@.base,
    {
        self.base
    }

    /// Size of the region in bytes.
    pub fn total_size(&self) -> (size: usize)
        ensures
            size == self@.total_size,
    {
        self.total_size
    }

    /// Whether [`Allocator::init`] has been called.
    pub fn is_initialized(&self) -> (initialized: bool)
        ensures
            initialized == self@.initialized(),
    {
        self.base != 0
    }

    /// Number of pools.
    pub fn pool_count(&self) -> (count: usize)
        ensures
            count == self@.pools.len(),
    {
        self.pools.len()
    }

    /// Pool `index`.
    pub fn pool(&self, index: usize) -> (pool: &Pool)
        requires
            self.wf(),
            index < self@.pools.len(),
        ensures
            pool.wf(),
            pool@ == self@.pools[index as int],
    {
        &self.pools[index]
    }

    /// Binds the allocator to the region that starts at `base`.
    ///
    /// To be called once, before the first allocation. The region must be
    /// writable memory of at least [`Allocator::total_size`] bytes; that it
    /// fits the address space is all that can be asked for here.
    pub fn init(&mut self, base: usize)
        requires
            old(self).wf(),
            !old(self)@.initialized(),
            base != 0,
            base + old(self)@.total_size <= usize::MAX,
        ensures
            final(self).wf(),
            final(self)@ == old(self)@.after_init(base),
    {
        let ghost before = self@;
        let count: usize = self.pools.len();
        let mut index: usize = 0;
        let mut address: usize = base;
        while index < count
            invariant
                before == old(self)@,
                before.valid(),
                !before.initialized(),
                base != 0,
                base + before.total_size <= usize::MAX,
                self.base == old(self).base,
                self.total_size == old(self).total_size,
                self.pools@.len() == count,
                before.pools.len() == count,
                index <= count,
                address == base + before.offset(index as int),
                forall|i: int| 0 <= i < count ==> (#[trigger] self.pools@[i]).wf(),
                forall|i: int|
                    0 <= i < index ==> (#[trigger] self.pools@[i])@ == before.pools[i].after_init(
                        (base + before.offset(i)) as usize,
                    ),
                forall|i: int| index <= i < count ==> (#[trigger] self.pools@[i])@ == before.pools[i],
            decreases count - index,
        {
            proof {
                before.lemma_offset_step(index as int);
                assert(before.pools[index as int].valid());
                assert(before.pools[index as int].base == 0);
            }
            let bytes: usize = self.pools[index].block_size() * self.pools[index].length();
            self.pools[index].init(address);
            address = address + bytes;
            index += 1;
        }
        self.base = base;
        proof {
            let after = self@;
            assert(after.pools =~= before.after_init(base).pools);
            assert(after.geometry() =~= before.geometry());
            assert forall|i: int| 0 <= i < after.pools.len() implies (#[trigger] after.pools[i]).valid()
                && after.pools[i].base == after.base + after.offset(i) by {
                self.pools@[i].lemma_wf_valid();
                before.lemma_offset_step(i);
            }
        }
    }

    /// Index of the first pool whose blocks hold `size` bytes, or the number
    /// of pools if none does. Binary search over the block sizes.
    pub fn search_size(&self, size: usize) -> (index: usize)
        requires
            self.wf(),
        ensures
            index <= self@.pools.len(),
            forall|i: int| 0 <= i < index ==> (#[trigger] self@.pools[i]).block_size < size,
            forall|i: int|
                index <= i < self@.pools.len() ==> (#[trigger] self@.pools[i]).block_size >= size,
    {
        let ghost view = self@;
        proof {
            view.lemma_sizes_sorted();
        }
        let mut left: usize = 0;
        let mut right: usize = self.pools.len();
        while left < right
            invariant
                view == self@,
                left <= right <= view.pools.len(),
                view.pools.len() == self.pools@.len(),
                forall|i: int, j: int|
                    0 <= i < j < view.pools.len() ==> #[trigger] view.size_of(i) < #[trigger] view.size_of(
                        j,
                    ),
                forall|i: int| 0 <= i < left ==> #[trigger] view.size_of(i) < size,
                forall|i: int| right <= i < view.pools.len() ==> #[trigger] view.size_of(i) >= size,
            decreases right - left,
        {
            let middle: usize = left + (right - left) / 2;
            let block_size: usize = self.pools[middle].block_size();
            assert(block_size == view.size_of(middle as int));
            if block_size < size {
                left = middle + 1;
            } else {
                right = middle;
            }
        }
        proof {
            assert forall|i: int| 0 <= i < left implies (#[trigger] view.pools[i]).block_size
                < size by {
                assert(view.size_of(i) < size);
            }
            assert forall|i: int| left <= i < view.pools.len() implies (
            #[trigger] view.pools[i]).block_size >= size by {
                assert(view.size_of(i) >= size);
            }
        }
        left
    }

    /// Index of the pool whose address range holds `address`, if there is
    /// one. Binary search over the address ranges.
    pub fn search_address(&self, address: usize) -> (res: Option<usize>)
        requires
            self.wf(),
            self@.initialized(),
        ensures
            res matches Some(index) ==> self@.owner(address) == Some(index as int),
            res is None ==> self@.owner(address) is None,
    {
        let ghost view = self@;
        proof {
            view.lemma_ranges_sorted();
        }
        let mut left: usize = 0;
        let mut right: usize = self.pools.len();
        while left < right
            invariant
                view == self@,
                left <= right <= view.pools.len(),
                view.pools.len() == self.pools@.len(),
                forall|i: int| 0 <= i < self.pools@.len() ==> (#[trigger] self.pools@[i]).wf(),
                forall|i: int, j: int|
                    0 <= i <= j < view.pools.len() ==> #[trigger] view.end_of(i) <= #[trigger] view.end_of(
                        j,
                    ),
                forall|i: int| 0 <= i < left ==> #[trigger] view.end_of(i) <= address,
                forall|i: int| right <= i < view.pools.len() ==> #[trigger] view.end_of(i) > address,
            decreases right - left,
        {
            let middle: usize = left + (right - left) / 2;
            let end: usize = self.pools[middle].end();
            assert(end == view.end_of(middle as int));
            if end <= address {
                left = middle + 1;
            } else {
                right = middle;
            }
        }
        if left < self.pools.len() && self.pools[left].base() <= address {
            proof {
                assert(view.end_of(left as int) > address);
                view.lemma_owner_unique(left as int, address);
            }
            Some(left)
        } else {
            proof {
                assert forall|i: int| !view.is_owner(i, address) by {
                    if 0 <= i < view.pools.len() {
                        if i < left {
                            assert(view.end_of(i) <= address);
                        } else {
                            assert(view.base_of(left as int) <= view.base_of(i));
                        }
                    }
                }
            }
            None
        }
    }

    /// Allocates a block of at least `size` bytes at a multiple of `align`.
    ///
    /// The block comes from the first pool, in the order of block sizes, of
    /// which the blocks are large enough and suitably aligned and one is
    /// free: a request falls through to larger pools as long as the pools
    /// before them are exhausted. Where no pool can serve the request the
    /// call fails and changes nothing. No alignment of zero can be served,
    /// and nothing at all before [`Allocator::init`], when no block is free.
    pub fn allocate(&mut self, size: usize, align: usize) -> (res: Result<BlockAddress, AllocError>)
        requires
            old(self).wf(),
        ensures
            final(self).wf(),
            res == old(self)@.allocation(size, align),
            final(self)@ == old(self)@.after_allocate(size, align),
            res matches Ok(address) ==> {
                &&& align != 0 && address % align == 0
                &&& !old(self)@.is_live(address)
                &&& final(self)@.initialized()
                &&& final(self)@.is_live(address)
                &&& final(self)@.fits(address, size, align)
            },
            res is Err ==> final(self)@ == old(self)@,
    {
        let ghost before = self@;
        let count: usize = self.pools.len();
        let mut index: usize = self.search_size(size);
        while index < count
            invariant
                self.wf(),
                self@ == before,
                before == old(self)@,
                count == self.pools@.len(),
                index <= count,
                forall|i: int| 0 <= i < index ==> !before.serves(i, size, align),
                forall|i: int|
                    index <= i < count ==> (#[trigger] before.pools[i]).block_size >= size,
                before.valid(),
            decreases count - index,
        {
            if self.pools[index].aligned_to(align) {
                match self.pools[index].allocate() {
                    Some(address) => {
                        proof {
                            before.lemma_serving_pool_unique(index as int, size, align);
                            before.lemma_allocated_block(size, align);
                            assert(self@.pools =~= before.after_allocate(size, align).pools);
                        }
                        return Ok(address);
                    },
                    None => {
                        assert(self@.pools =~= before.pools);
                    },
                }
            }
            index += 1;
        }
        Err(AllocError::OutOfMemory)
    }

    /// Gives back the block at `address`, which was allocated for `size`
    /// bytes at a multiple of `align`.
    ///
    /// The pool is found from the address alone, so a block that a larger
    /// pool served goes back to that pool. The address must be a block that
    /// this allocator handed out and that was not given back since, and
    /// `size` and `align` must be such that its pool could have served them:
    /// the allocator keeps no record to check any of this against.
    #[allow(unused_variables)]
    pub fn deallocate(&mut self, address: BlockAddress, size: usize, align: usize)
        requires
            old(self).wf(),
            old(self)@.initialized(),
            old(self)@.is_live(address),
            old(self)@.fits(address, size, align),
        ensures
            final(self).wf(),
            final(self)@ == old(self)@.after_deallocate(address),
            !final(self)@.is_live(address),
    {
        let ghost before = self@;
        proof {
            before.lemma_deallocate(address);
            let holder = choose|i: int|
                0 <= i < before.pools.len() && (#[trigger] before.pools[i]).is_live(address);
            assert(before.pools[holder].valid());
            before.pools[holder].lemma_is_block(address);
            before.lemma_owner_unique(holder, address);
        }
        match self.search_address(address) {
            Some(index) => {
                self.pools[index].deallocate(address);
                proof {
                    let after = self@;
                    assert(after.pools =~= before.after_deallocate(address).pools);
                    assert(after.geometry() =~= before.geometry());
                    assert forall|i: int| 0 <= i < after.pools.len() implies (
                    #[trigger] after.pools[i]).valid() by {
                        self.pools@[i].lemma_wf_valid();
                    }
                }
            },
            None => {},
        }
    }

    /// Checks what can be checked of a block that a caller wants to give
    /// back: that `address` is a block of this allocator, that the block is
    /// not free, and that its pool could have served `size` and `align`.
    ///
    /// Returns what is wrong, or `None` where [`Allocator::deallocate`] may
    /// be called. To tell a free block from one that is handed out the free
    /// list of the pool is walked, which takes time in proportion to the
    /// number of free blocks.
    pub fn check_block(&self, address: usize, size: usize, align: usize) -> (res: Option<
        ContractViolation,
    >)
        requires
            self.wf(),
        ensures
            res == self@.violation(address, size, align),
            res is None ==> self@.initialized() && self@.is_live(address) && self@.fits(
                address,
                size,
                align,
            ),
    {
        if !self.is_initialized() {
            return Some(ContractViolation::UnknownAddress);
        }
        let index: usize = match self.search_address(address) {
            Some(index) => index,
            None => {
                proof {
                    if self@.is_block(address) {
                        self.lemma_block_has_owner(address);
                    }
                }
                return Some(ContractViolation::UnknownAddress);
            },
        };
        proof {
            self.lemma_only_owner_holds(index as int, address);
            self@.lemma_offset_step(index as int);
        }
        let pool: &Pool = &self.pools[index];
        assert(pool@ == self@.pools[index as int]);
        assert(pool@.initialized());
        if !pool.is_block(address) {
            return Some(ContractViolation::UnknownAddress);
        }
        if pool.is_free(address) {
            return Some(ContractViolation::DoubleFree);
        }
        if pool.block_size() < size || !pool.aligned_to(align) {
            return Some(ContractViolation::LayoutMismatch);
        }
        assert(self@.pools[index as int].is_live(address));
        None
    }

    /// Gives back the block at `address` if [`Allocator::check_block`] finds
    /// nothing wrong with it, and returns what is wrong otherwise. On an
    /// error nothing is changed.
    pub fn checked_deallocate(&mut self, address: usize, size: usize, align: usize) -> (res: Result<
        (),
        ContractViolation,
    >)
        requires
            old(self).wf(),
        ensures
            final(self).wf(),
            res == (match old(self)@.violation(address, size, align) {
                Some(violation) => Err::<(), ContractViolation>(violation),
                None => Ok::<(), ContractViolation>(()),
            }),
            res is Ok ==> final(self)@ == old(self)@.after_deallocate(address),
            res is Err ==> final(self)@ == old(self)@,
    {
        match self.check_block(address, size, align) {
            Some(violation) => Err(violation),
            None => {
                self.deallocate(address, size, align);
                Ok(())
            },
        }
    }

    /// A block address lies in the range of some pool.
    proof fn lemma_block_has_owner(&self, address: usize)
        requires
            self.wf(),
            self@.is_block(address),
        ensures
            self@.owner(address) is Some,
    {
        let view = self@;
        let holder = choose|i: int|
            0 <= i < view.pools.len() && (#[trigger] view.pools[i]).is_block(address);
        assert(view.pools[holder].valid());
        view.pools[holder].lemma_is_block(address);
        assert(view.is_owner(holder, address));
    }

    /// Only the pool that owns an address can have a block there.
    proof fn lemma_only_owner_holds(&self, index: int, address: usize)
        requires
            self.wf(),
            self@.initialized(),
            self@.owner(address) == Some(index),
        ensures
            0 <= index < self@.pools.len(),
            self@.is_block(address) <==> self@.pools[index].is_block(address),
            self@.is_free(address) <==> self@.pools[index].is_block(address)
                && self@.pools[index].free.contains(address),
    {
        let view = self@;
        assert(view.is_owner(index, address));
        assert forall|other: int|
            0 <= other < view.pools.len() && (#[trigger] view.pools[other]).is_block(
                address,
            ) implies other == index by {
            assert(view.pools[other].valid());
            view.pools[other].lemma_is_block(address);
            view.lemma_owner_unique(other, address);
        }
    }
}

} // verus!
