//! What holds of pools and allocators in every state they can reach.

use super::allocator::{AllocError, AllocatorView};
use super::config::{region_bytes, strictly_ascending};
use super::pool::PoolView;
use vstd::prelude::*;

verus! {

impl PoolView {
    /// One allocation, followed at once by the deallocation of the block it
    /// returned. Nothing is given back where the pool was exhausted.
    pub open spec fn after_round_trip(self) -> PoolView {
        match self.first_free() {
            Some(address) => self.after_allocate().after_deallocate(address),
            None => self.after_allocate(),
        }
    }

    /// `rounds` round trips in a row.
    pub open spec fn after_round_trips(self, rounds: nat) -> PoolView
        decreases rounds,
    {
        if rounds == 0 {
            self
        } else {
            self.after_round_trip().after_round_trips((rounds - 1) as nat)
        }
    }

    /// Taking a block leaves a valid pool, in which that block is live and
    /// every other block is what it was.
    pub proof fn lemma_allocate(self)
        requires
            self.valid(),
        ensures
            self.after_allocate().valid(),
            self.first_free() matches Some(address) ==> {
                &&& self.is_block(address)
                &&& !self.is_live(address)
                &&& self.after_allocate().is_live(address)
                &&& forall|other: usize|
                    other != address ==> (self.after_allocate().is_live(other) <==> self.is_live(
                        other,
                    ))
            },
            self.first_free() is None ==> self.after_allocate() == self,
    {
        if self.free.len() > 0 {
            let address = self.free[0];
            let rest = self.free.drop_first();
            assert(self.is_block(self.free[0]));
            assert forall|i: int| 0 <= i < rest.len() implies self.is_block(#[trigger] rest[i]) by {
                assert(self.is_block(self.free[i + 1]));
            }
            assert(!rest.contains(address)) by {
                if rest.contains(address) {
                    let i = choose|i: int| 0 <= i < rest.len() && rest[i] == address;
                    assert(self.free[i + 1] == self.free[0]);
                }
            }
            assert forall|other: usize| other != address implies (rest.contains(other)
                <==> self.free.contains(other)) by {
                if rest.contains(other) {
                    let i = choose|i: int| 0 <= i < rest.len() && rest[i] == other;
                    assert(self.free[i + 1] == other);
                }
                if self.free.contains(other) {
                    let i = choose|i: int| 0 <= i < self.free.len() && self.free[i] == other;
                    assert(rest[i - 1] == other);
                }
            }
        }
    }

    /// Giving a live block back leaves a valid pool, in which that block is
    /// free and every other block is what it was.
    pub proof fn lemma_deallocate(self, address: usize)
        requires
            self.valid(),
            self.is_live(address),
        ensures
            self.after_deallocate(address).valid(),
            self.after_deallocate(address).first_free() == Some(address),
            !self.after_deallocate(address).is_live(address),
            forall|other: usize|
                other != address ==> (self.after_deallocate(address).is_live(other)
                    <==> self.is_live(other)),
    {
        let after = self.after_deallocate(address).free;
        assert forall|i: int| 0 <= i < after.len() implies self.is_block(#[trigger] after[i]) by {
            if i > 0 {
                assert(self.is_block(self.free[i - 1]));
            }
        }
        assert forall|i: int, j: int| 0 <= i < j < after.len() implies after[i] != after[j] by {
            if i > 0 {
                assert(self.free[i - 1] != self.free[j - 1]);
            } else {
                assert(self.free.contains(self.free[j - 1]));
            }
        }
        assert(after[0] == address);
        assert forall|other: usize| other != address implies (after.contains(other)
            <==> self.free.contains(other)) by {
            if after.contains(other) {
                let i = choose|i: int| 0 <= i < after.len() && after[i] == other;
                assert(self.free[i - 1] == other);
            }
            if self.free.contains(other) {
                let i = choose|i: int| 0 <= i < self.free.len() && self.free[i] == other;
                assert(after[i + 1] == other);
            }
        }
    }

    /// Binding a pool to memory leaves a valid pool of which no block is
    /// live.
    pub proof fn lemma_init(self, base: usize)
        requires
            self.valid(),
            !self.initialized(),
            base != 0,
            base + self.bytes() <= usize::MAX,
        ensures
            self.after_init(base).valid(),
            self.after_init(base).free.len() == self.length,
            forall|address: usize| !self.after_init(base).is_live(address),
    {
        let after = self.after_init(base);
        assert forall|i: int| 0 <= i < after.free.len() implies after.is_block(
            #[trigger] after.free[i],
        ) && after.index_of(after.free[i]) == i by {
            after.lemma_block_address(i);
        }
        assert forall|i: int, j: int| 0 <= i < j < after.free.len() implies after.free[i]
            != after.free[j] by {
            after.lemma_block_address(i);
            after.lemma_block_address(j);
        }
        assert forall|address: usize| !after.is_live(address) by {
            if after.is_block(address) {
                after.lemma_is_block(address);
                let index = after.index_of(address);
                assert(after.free[index] == address);
            }
        }
    }

    /// An allocation followed at once by the deallocation of its block
    /// leaves the pool exactly as it was: the same free blocks in the same
    /// order, hence the same number of them.
    pub proof fn lemma_round_trip(self)
        requires
            self.valid(),
        ensures
            self.first_free() matches Some(address) ==> self.after_allocate().is_live(address),
            self.after_round_trip() == self,
    {
        self.lemma_allocate();
        if self.free.len() > 0 {
            assert(seq![self.free[0]] + self.free.drop_first() =~= self.free);
        }
    }

    /// Any number of round trips in a row leaves the pool exactly as it was.
    pub proof fn lemma_round_trips(self, rounds: nat)
        requires
            self.valid(),
        ensures
            self.after_round_trips(rounds) == self,
            self.after_round_trips(rounds).free.len() == self.free.len(),
        decreases rounds,
    {
        if rounds > 0 {
            self.lemma_round_trip();
            self.lemma_round_trips((rounds - 1) as nat);
        }
    }
}

impl AllocatorView {
    /// The pools of a valid allocator fill the region exactly, and their
    /// block sizes rise strictly from pool to pool.
    pub proof fn lemma_geometry(self)
        requires
            self.valid(),
        ensures
            region_bytes(self.geometry()) == self.total_size,
            strictly_ascending(self.geometry()),
            forall|i: int, j: int|
                0 <= i < j < self.pools.len() ==> (#[trigger] self.pools[i]).block_size < (
                #[trigger] self.pools[j]).block_size,
    {
        let geometry = self.geometry();
        assert forall|i: int, j: int| 0 <= i < j < self.pools.len() implies (
        #[trigger] self.pools[i]).block_size < (#[trigger] self.pools[j]).block_size by {
            assert(geometry[i].block_size < geometry[j].block_size);
        }
    }

    /// No operation changes the geometry: the block sizes, the block
    /// counts and the size of the region stay what they were built as.
    pub proof fn lemma_geometry_fixed(self, base: usize, size: usize, align: usize, address: usize)
        ensures
            self.after_init(base).geometry() == self.geometry(),
            self.after_init(base).total_size == self.total_size,
            self.after_allocate(size, align).geometry() == self.geometry(),
            self.after_allocate(size, align).total_size == self.total_size,
            self.after_deallocate(address).geometry() == self.geometry(),
            self.after_deallocate(address).total_size == self.total_size,
    {
        assert(self.after_init(base).geometry() =~= self.geometry());
        assert(self.after_allocate(size, align).geometry() =~= self.geometry());
        assert(self.after_deallocate(address).geometry() =~= self.geometry());
    }

    /// A pool with another view of the same geometry in place of pool
    /// `index` leaves a valid allocator valid.
    proof fn lemma_update_valid(self, index: int, pool: PoolView)
        requires
            self.valid(),
            0 <= index < self.pools.len(),
            pool.valid(),
            pool.block_size == self.pools[index].block_size,
            pool.length == self.pools[index].length,
            pool.base == self.pools[index].base,
        ensures
            (AllocatorView { pools: self.pools.update(index, pool), ..self }).valid(),
    {
        let after = AllocatorView { pools: self.pools.update(index, pool), ..self };
        assert(after.geometry() =~= self.geometry());
        assert forall|i: int| 0 <= i < after.pools.len() implies (#[trigger] after.pools[i]).valid()
            && after.pools[i].base == self.pools[i].base by {
            assert(self.pools[i].valid());
        }
    }

    /// A block of one pool is no block of any other, and its pool is the
    /// owner of its address.
    pub proof fn lemma_block_owner(self, index: int, address: usize)
        requires
            self.valid(),
            self.initialized(),
            0 <= index < self.pools.len(),
            self.pools[index].is_block(address),
        ensures
            self.owner(address) == Some(index),
            forall|other: int|
                0 <= other < self.pools.len() && other != index ==> !(
                #[trigger] self.pools[other]).is_block(address),
    {
        assert(self.pools[index].valid());
        self.pools[index].lemma_is_block(address);
        self.lemma_owner_unique(index, address);
        assert forall|other: int|
            0 <= other < self.pools.len() && other != index implies !(
        #[trigger] self.pools[other]).is_block(address) by {
            if self.pools[other].is_block(address) {
                assert(self.pools[other].valid());
                self.pools[other].lemma_is_block(address);
                self.lemma_owner_unique(other, address);
            }
        }
    }

    /// Binding an allocator to its region leaves a valid allocator of which
    /// every block is free: nothing is live.
    pub proof fn lemma_init(self, base: usize)
        requires
            self.valid(),
            !self.initialized(),
            base != 0,
            base + self.total_size <= usize::MAX,
        ensures
            self.after_init(base).valid(),
            self.after_init(base).initialized(),
            forall|i: int|
                0 <= i < self.pools.len() ==> (#[trigger] self.after_init(base).pools[i]).free.len()
                    == self.pools[i].length,
            forall|address: usize| !self.after_init(base).is_live(address),
    {
        let after = self.after_init(base);
        assert(after.geometry() =~= self.geometry());
        assert forall|i: int| 0 <= i < after.pools.len() implies (#[trigger] after.pools[i]).valid()
            && after.pools[i].base == after.base + after.offset(i) && after.pools[i].free.len()
            == self.pools[i].length && (forall|address: usize| !after.pools[i].is_live(address)) by {
            assert(self.pools[i].valid());
            self.lemma_offset_step(i);
            self.pools[i].lemma_init((base + self.offset(i)) as usize);
        }
    }

    /// A successful allocation hands out a block that was not live, from the
    /// first pool that can serve the request: large enough, at a multiple of
    /// the alignment, and inside the range of that pool and of no other. It
    /// changes the state of no other block. A failed allocation means that no
    /// pool could serve the request, and changes nothing.
    pub proof fn lemma_allocate(self, size: usize, align: usize)
        requires
            self.valid(),
            self.initialized(),
        ensures
            self.after_allocate(size, align).valid(),
            self.after_allocate(size, align).initialized(),
            self.allocation(size, align) matches Ok(address) ==> {
                &&& self.serving_pool(size, align) matches Some(index)
                &&& self.is_serving_pool(index, size, align)
                &&& self.owner(address) == Some(index)
                &&& self.pools[index].is_block(address)
                &&& self.pools[index].block_size >= size
                &&& align != 0
                &&& address % align == 0
                &&& !self.is_live(address)
                &&& self.after_allocate(size, align).is_live(address)
                &&& forall|other: usize|
                    other != address ==> (self.after_allocate(size, align).is_live(other)
                        <==> self.is_live(other))
            },
            self.allocation(size, align) matches Err(error) ==> {
                &&& error == AllocError::OutOfMemory
                &&& self.after_allocate(size, align) == self
                &&& forall|index: int|
                    0 <= index < self.pools.len() ==> !self.serves(index, size, align)
            },
    {
        let after = self.after_allocate(size, align);
        match self.serving_pool(size, align) {
            Some(index) => {
                let pool = self.pools[index];
                let address = pool.free[0];
                assert(pool.valid());
                pool.lemma_allocate();
                self.lemma_update_valid(index, pool.after_allocate());
                self.lemma_block_owner(index, address);
                pool.lemma_is_block(address);
                assert(pool.block_address(pool.index_of(address)) % (align as int) == 0);
                assert(after.pools[index].is_live(address));
                assert forall|other: usize| other != address implies (after.is_live(other)
                    <==> self.is_live(other)) by {
                    if after.is_live(other) {
                        let k = choose|k: int|
                            0 <= k < after.pools.len() && (#[trigger] after.pools[k]).is_live(other);
                        assert(self.pools[k].is_live(other));
                    }
                    if self.is_live(other) {
                        let k = choose|k: int|
                            0 <= k < self.pools.len() && (#[trigger] self.pools[k]).is_live(other);
                        assert(after.pools[k].is_live(other));
                    }
                }
                assert(!self.is_live(address)) by {
                    if self.is_live(address) {
                        let k = choose|k: int|
                            0 <= k < self.pools.len() && (#[trigger] self.pools[k]).is_live(address);
                        assert(k == index);
                    }
                }
            },
            None => {
                assert forall|index: int| 0 <= index < self.pools.len() implies !self.serves(
                    index,
                    size,
                    align,
                ) by {
                    if self.serves(index, size, align) {
                        self.lemma_some_pool_serves(index, size, align);
                    }
                }
            },
        }
    }

    /// Where some pool can serve a request, there is a first that can.
    proof fn lemma_some_pool_serves(self, index: int, size: usize, align: usize)
        requires
            0 <= index < self.pools.len(),
            self.serves(index, size, align),
        ensures
            exists|first: int| self.is_serving_pool(first, size, align),
        decreases index,
    {
        if exists|before: int| 0 <= before < index && self.serves(before, size, align) {
            let before = choose|before: int| 0 <= before < index && self.serves(before, size, align);
            self.lemma_some_pool_serves(before, size, align);
        } else {
            assert(self.is_serving_pool(index, size, align));
        }
    }

    /// Giving a live block back leaves a valid allocator in which that block
    /// is free, in the pool that owns its address, and every other block is
    /// what it was.
    pub proof fn lemma_deallocate(self, address: usize)
        requires
            self.valid(),
            self.initialized(),
            self.is_live(address),
        ensures
            self.after_deallocate(address).valid(),
            self.after_deallocate(address).initialized(),
            self.owner(address) matches Some(index) && self.pools[index].is_live(address)
                && self.after_deallocate(address).pools[index].first_free() == Some(address),
            !self.after_deallocate(address).is_live(address),
            forall|other: usize|
                other != address ==> (self.after_deallocate(address).is_live(other)
                    <==> self.is_live(other)),
    {
        let after = self.after_deallocate(address);
        let index = choose|k: int|
            0 <= k < self.pools.len() && (#[trigger] self.pools[k]).is_live(address);
        let pool = self.pools[index];
        assert(pool.valid());
        self.lemma_block_owner(index, address);
        pool.lemma_deallocate(address);
        self.lemma_update_valid(index, pool.after_deallocate(address));
        assert forall|other: usize| other != address implies (after.is_live(other)
            <==> self.is_live(other)) by {
            if after.is_live(other) {
                let k = choose|k: int|
                    0 <= k < after.pools.len() && (#[trigger] after.pools[k]).is_live(other);
                assert(self.pools[k].is_live(other));
            }
            if self.is_live(other) {
                let k = choose|k: int|
                    0 <= k < self.pools.len() && (#[trigger] self.pools[k]).is_live(other);
                assert(after.pools[k].is_live(other));
            }
        }
        assert(!after.is_live(address)) by {
            if after.is_live(address) {
                let k = choose|k: int|
                    0 <= k < after.pools.len() && (#[trigger] after.pools[k]).is_live(address);
                assert(k == index);
            }
        }
    }

    /// The blocks at `a` and `b` share no byte.
    pub open spec fn disjoint(self, a: usize, b: usize) -> bool {
        self.owner(a) matches Some(i) && self.owner(b) matches Some(j) && (a
            + self.pools[i].block_size <= b || b + self.pools[j].block_size <= a)
    }

    /// Two different live blocks share no byte, whichever pools they come
    /// from.
    pub proof fn lemma_live_blocks_disjoint(self, a: usize, b: usize)
        requires
            self.valid(),
            self.initialized(),
            self.is_live(a),
            self.is_live(b),
            a != b,
        ensures
            self.disjoint(a, b),
    {
        let i = choose|k: int| 0 <= k < self.pools.len() && (#[trigger] self.pools[k]).is_live(a);
        let j = choose|k: int| 0 <= k < self.pools.len() && (#[trigger] self.pools[k]).is_live(b);
        assert(self.pools[i].valid());
        assert(self.pools[j].valid());
        self.lemma_block_owner(i, a);
        self.lemma_block_owner(j, b);
        self.pools[i].lemma_is_block(a);
        self.pools[j].lemma_is_block(b);
        if i == j {
            self.pools[i].lemma_blocks_disjoint(a, b);
        } else if i < j {
            self.lemma_pools_ordered(i, j);
        } else {
            self.lemma_pools_ordered(j, i);
        }
    }

    /// Where the pools before `larger` cannot serve a request, because their
    /// blocks are too small, not aligned, or all handed out, and `larger`
    /// can, the request is served from `larger`: the block returned lies in
    /// its address range.
    pub proof fn lemma_cascade(self, larger: int, size: usize, align: usize)
        requires
            self.valid(),
            self.initialized(),
            0 <= larger < self.pools.len(),
            self.serves(larger, size, align),
            forall|before: int| 0 <= before < larger ==> !self.serves(before, size, align),
        ensures
            self.allocation(size, align) == Ok::<usize, AllocError>(self.pools[larger].free[0]),
            self.pools[larger].contains(self.pools[larger].free[0]),
            self.after_allocate(size, align).pools[larger].free == self.pools[larger].free.drop_first(),
    {
        self.lemma_serving_pool_unique(larger, size, align);
        assert(self.pools[larger].valid());
        self.pools[larger].lemma_is_block(self.pools[larger].free[0]);
    }

    /// A request that no pool can serve fails with `OutOfMemory` and changes
    /// nothing. That is so in particular for a size that exceeds every block
    /// size, and where every pool that fits is exhausted.
    pub proof fn lemma_exhaustion(self, size: usize, align: usize)
        requires
            forall|index: int|
                0 <= index < self.pools.len() ==> {
                    ||| (#[trigger] self.pools[index]).block_size < size
                    ||| !self.pools[index].aligned_to(align)
                    ||| self.pools[index].free.len() == 0
                },
        ensures
            self.allocation(size, align) == Err::<usize, AllocError>(AllocError::OutOfMemory),
            self.after_allocate(size, align) == self,
    {
        if exists|index: int| self.is_serving_pool(index, size, align) {
            let index = choose|index: int| self.is_serving_pool(index, size, align);
            assert(self.pools[index].block_size >= size);
        }
    }

    /// The address that an allocation returns leads back to the pool that
    /// served it: that pool is the owner of the address, and giving the
    /// address back puts the block on the free list of that pool and restores
    /// the allocator as it was before the allocation.
    pub proof fn lemma_deallocate_finds_pool(self, size: usize, align: usize)
        requires
            self.valid(),
            self.initialized(),
            self.allocation(size, align) is Ok,
        ensures
            ({
                let address = self.allocation(size, align)->Ok_0;
                let after = self.after_allocate(size, align);
                &&& after.owner(address) == self.serving_pool(size, align)
                &&& after.is_live(address)
                &&& after.fits(address, size, align)
                &&& after.after_deallocate(address) == self
            }),
    {
        let address = self.allocation(size, align)->Ok_0;
        let after = self.after_allocate(size, align);
        let index = self.serving_pool(size, align)->Some_0;
        let pool = self.pools[index];
        let taken = pool.after_allocate();
        self.lemma_allocate(size, align);
        assert(pool.valid());
        assert(after.pools[index] == taken);
        assert(after.owner(address) == Some(index)) by {
            pool.lemma_is_block(address);
            assert(taken.contains(address));
            after.lemma_owner_unique(index, address);
        }
        assert(taken.aligned_to(align)) by {
            pool.lemma_same_geometry(taken, align);
        }
        assert(after.after_deallocate(address) == self) by {
            pool.lemma_round_trip();
            assert(taken.after_deallocate(address) == pool);
            assert(after.pools.update(index, pool) =~= self.pools);
        }
    }
}

/// One call on an initialized allocator.
pub enum Call {
    /// A request for `size` bytes at a multiple of `align`.
    Allocate { size: usize, align: usize },
    /// The return of the block at `address`.
    Deallocate { address: usize },
}

impl AllocatorView {
    /// A caller may make `call` in this state: what it gives back is live.
    pub open spec fn permits(self, call: Call) -> bool {
        match call {
            Call::Allocate { .. } => true,
            Call::Deallocate { address } => self.is_live(address),
        }
    }

    /// The allocator after `call`.
    pub open spec fn after_call(self, call: Call) -> AllocatorView {
        match call {
            Call::Allocate { size, align } => self.after_allocate(size, align),
            Call::Deallocate { address } => self.after_deallocate(address),
        }
    }

    /// A caller may make `calls` one after the other, starting in this state.
    pub open spec fn permits_all(self, calls: Seq<Call>) -> bool
        decreases calls.len(),
    {
        calls.len() == 0 || (self.permits(calls[0]) && self.after_call(calls[0]).permits_all(
            calls.drop_first(),
        ))
    }

    /// The allocator after `calls`, made one after the other.
    pub open spec fn after_calls(self, calls: Seq<Call>) -> AllocatorView
        decreases calls.len(),
    {
        if calls.len() == 0 {
            self
        } else {
            self.after_call(calls[0]).after_calls(calls.drop_first())
        }
    }

    /// Whatever allocations and deallocations a caller makes, in whatever
    /// order: the allocator stays valid with the geometry it was built with,
    /// no pool ever has more free blocks than blocks, and no two blocks that
    /// are live at the same time share a byte.
    pub proof fn lemma_any_calls(self, calls: Seq<Call>)
        requires
            self.valid(),
            self.initialized(),
            self.permits_all(calls),
        ensures
            self.after_calls(calls).valid(),
            self.after_calls(calls).initialized(),
            self.after_calls(calls).geometry() == self.geometry(),
            self.after_calls(calls).total_size == self.total_size,
            forall|index: int|
                0 <= index < self.pools.len() ==> (#[trigger] self.after_calls(
                    calls,
                ).pools[index]).free.len() <= self.pools[index].length,
            forall|a: usize, b: usize|
                #![trigger self.after_calls(calls).is_live(a), self.after_calls(calls).is_live(b)]
                self.after_calls(calls).is_live(a) && self.after_calls(calls).is_live(b) && a != b
                    ==> self.after_calls(calls).disjoint(a, b),
        decreases calls.len(),
    {
        if calls.len() == 0 {
            self.lemma_reached();
        } else {
            let next = self.after_call(calls[0]);
            match calls[0] {
                Call::Allocate { size, align } => {
                    self.lemma_allocate(size, align);
                    self.lemma_geometry_fixed(0, size, align, 0);
                },
                Call::Deallocate { address } => {
                    self.lemma_deallocate(address);
                    self.lemma_geometry_fixed(0, 0, 0, address);
                },
            }
            next.lemma_any_calls(calls.drop_first());
            assert(next.pools.len() == self.pools.len());
            assert forall|index: int| 0 <= index < self.pools.len() implies (
            #[trigger] self.after_calls(calls).pools[index]).free.len()
                <= self.pools[index].length by {
                assert(next.geometry()[index] == self.geometry()[index]);
            }
        }
    }

    /// The blocks that callers hold after `calls`, where they held `held`
    /// before: each successful allocation adds the address it returned, each
    /// deallocation takes its address away.
    pub open spec fn held_after(self, held: Set<usize>, calls: Seq<Call>) -> Set<usize>
        decreases calls.len(),
    {
        if calls.len() == 0 {
            held
        } else {
            let next = match calls[0] {
                Call::Allocate { size, align } => match self.allocation(size, align) {
                    Ok(address) => held.insert(address),
                    Err(_) => held,
                },
                Call::Deallocate { address } => held.remove(address),
            };
            self.after_call(calls[0]).held_after(next, calls.drop_first())
        }
    }

    /// The blocks that callers hold are the live blocks, at every point of
    /// every run of calls: what an allocation returned and nobody gave back
    /// since is live, and nothing else is. With
    /// [`AllocatorView::lemma_any_calls`], no two blocks held at the same
    /// time share a byte.
    pub proof fn lemma_held_blocks(self, held: Set<usize>, calls: Seq<Call>)
        requires
            self.valid(),
            self.initialized(),
            self.permits_all(calls),
            forall|address: usize| held.contains(address) <==> self.is_live(address),
        ensures
            forall|address: usize|
                self.held_after(held, calls).contains(address) <==> self.after_calls(calls).is_live(
                    address,
                ),
        decreases calls.len(),
    {
        if calls.len() > 0 {
            let next = self.after_call(calls[0]);
            let held_next = match calls[0] {
                Call::Allocate { size, align } => match self.allocation(size, align) {
                    Ok(address) => held.insert(address),
                    Err(_) => held,
                },
                Call::Deallocate { address } => held.remove(address),
            };
            match calls[0] {
                Call::Allocate { size, align } => {
                    self.lemma_allocate(size, align);
                },
                Call::Deallocate { address } => {
                    self.lemma_deallocate(address);
                },
            }
            assert forall|address: usize| held_next.contains(address) <==> next.is_live(
                address,
            ) by {
                assert(held.contains(address) <==> self.is_live(address));
            }
            next.lemma_held_blocks(held_next, calls.drop_first());
            assert(self.held_after(held, calls) == next.held_after(held_next, calls.drop_first()));
            assert(self.after_calls(calls) == next.after_calls(calls.drop_first()));
        } else {
            assert(self.held_after(held, calls) == held);
            assert(self.after_calls(calls) == self);
        }
    }

    /// What a caller knows of the block that an allocation returned, before
    /// or after initialization: it is aligned as asked, it was not live and
    /// now is, and it may be given back with the size and alignment that it
    /// was asked for with.
    pub proof fn lemma_allocated_block(self, size: usize, align: usize)
        requires
            self.valid(),
        ensures
            self.after_allocate(size, align).valid(),
            self.allocation(size, align) matches Ok(address) ==> {
                &&& align != 0 && address % align == 0
                &&& !self.is_live(address)
                &&& self.after_allocate(size, align).initialized()
                &&& self.after_allocate(size, align).is_live(address)
                &&& self.after_allocate(size, align).fits(address, size, align)
            },
            self.allocation(size, align) is Err ==> self.after_allocate(size, align) == self,
    {
        if self.allocation(size, align) is Ok {
            let index = self.serving_pool(size, align)->Some_0;
            assert(self.is_serving_pool(index, size, align));
            assert(self.pools[index].valid());
            assert(self.pools[index].initialized());
            self.lemma_allocate(size, align);
            self.lemma_deallocate_finds_pool(size, align);
        }
    }

    /// From initialization on, through any run of allocations and
    /// deallocations: two different blocks that callers hold at the same
    /// time share no byte.
    pub proof fn lemma_held_blocks_disjoint(self, base: usize, calls: Seq<Call>, a: usize, b: usize)
        requires
            self.valid(),
            !self.initialized(),
            base != 0,
            base + self.total_size <= usize::MAX,
            self.after_init(base).permits_all(calls),
            self.after_init(base).held_after(Set::empty(), calls).contains(a),
            self.after_init(base).held_after(Set::empty(), calls).contains(b),
            a != b,
        ensures
            self.after_init(base).after_calls(calls).disjoint(a, b),
    {
        let start = self.after_init(base);
        self.lemma_init(base);
        start.lemma_held_blocks(Set::empty(), calls);
        start.lemma_any_calls(calls);
        let end = start.after_calls(calls);
        assert(end.is_live(a) && end.is_live(b));
    }

    /// What holds in every state that a valid, initialized allocator is in.
    proof fn lemma_reached(self)
        requires
            self.valid(),
            self.initialized(),
        ensures
            forall|index: int|
                0 <= index < self.pools.len() ==> (#[trigger] self.pools[index]).free.len()
                    <= self.pools[index].length,
            forall|a: usize, b: usize|
                #![trigger self.is_live(a), self.is_live(b)]
                self.is_live(a) && self.is_live(b) && a != b ==> self.disjoint(a, b),
    {
        assert forall|index: int| 0 <= index < self.pools.len() implies (
        #[trigger] self.pools[index]).free.len() <= self.pools[index].length by {
            self.pools[index].lemma_free_within_length();
        }
        assert forall|a: usize, b: usize|
            #![trigger self.is_live(a), self.is_live(b)]
            self.is_live(a) && self.is_live(b) && a != b implies self.disjoint(a, b) by {
            self.lemma_live_blocks_disjoint(a, b);
        }
    }
}

} // verus!
