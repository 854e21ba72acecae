//! A pool: equal-size blocks in one address range, with an intrusive free
//! list.

use super::head::{BlockAddress, Head, EMPTY};
use vstd::arithmetic::div_mod::*;
use vstd::arithmetic::mul::*;
use vstd::prelude::*;
use vstd::set_lib::{lemma_int_range, lemma_len_subset, set_int_range};

verus! {

/// What a [`Pool`] is, mathematically: its geometry and the list of its free
/// blocks, first to be handed out first.
pub struct PoolView {
    /// Bytes per block.
    pub block_size: usize,
    /// Number of blocks.
    pub length: usize,
    /// Address of the first block; zero until the pool is bound to memory.
    pub base: usize,
    /// Addresses of the free blocks, in the order in which they will be
    /// handed out.
    pub free: Seq<usize>,
}

impl PoolView {
    /// The pool has been bound to its place in memory.
    pub open spec fn initialized(self) -> bool {
        self.base != 0
    }

    /// Bytes covered by the pool.
    pub open spec fn bytes(self) -> int {
        self.block_size * self.length
    }

    /// First address past the pool.
    pub open spec fn end(self) -> int {
        self.base + self.bytes()
    }

    /// `address` lies in the address range of the pool.
    pub open spec fn contains(self, address: usize) -> bool {
        self.base <= address < self.end()
    }

    /// Address at which block `index` starts.
    pub open spec fn block_address(self, index: int) -> int {
        self.base + index * self.block_size
    }

    /// Index of the block that the byte at `address` belongs to.
    pub open spec fn index_of(self, address: usize) -> int {
        (address - self.base) / (self.block_size as int)
    }

    /// `address` is where one of the blocks of the pool starts.
    pub open spec fn is_block(self, address: usize) -> bool {
        &&& self.base <= address
        &&& self.index_of(address) < self.length
        &&& address == self.block_address(self.index_of(address))
    }

    /// `address` is a block of the pool that is currently handed out.
    pub open spec fn is_live(self, address: usize) -> bool {
        self.initialized() && self.is_block(address) && !self.free.contains(address)
    }

    /// Every block of the pool starts at a multiple of `align`.
    pub open spec fn aligned_to(self, align: usize) -> bool {
        &&& align != 0
        &&& forall|index: int|
            0 <= index < self.length ==> #[trigger] self.block_address(index) % (align as int) == 0
    }

    /// The free list of a pool of which no block is handed out: all blocks,
    /// by rising address.
    pub open spec fn all_blocks(self) -> Seq<usize> {
        Seq::new(self.length as nat, |index: int| self.block_address(index) as usize)
    }

    /// The geometry fits the address space and the free list names blocks of
    /// the pool, each at most once.
    pub open spec fn valid(self) -> bool {
        &&& self.block_size > 0
        &&& self.end() <= usize::MAX
        &&& !self.initialized() ==> self.free.len() == 0
        &&& forall|i: int| 0 <= i < self.free.len() ==> self.is_block(#[trigger] self.free[i])
        &&& self.free.no_duplicates()
    }

    /// The block that the next allocation hands out, if there is one.
    pub open spec fn first_free(self) -> Option<usize> {
        if self.free.len() == 0 {
            None
        } else {
            Some(self.free[0])
        }
    }

    /// The pool after one allocation.
    pub open spec fn after_allocate(self) -> PoolView {
        if self.free.len() == 0 {
            self
        } else {
            PoolView { free: self.free.drop_first(), ..self }
        }
    }

    /// The pool after `address` was given back.
    pub open spec fn after_deallocate(self, address: usize) -> PoolView {
        PoolView { free: seq![address] + self.free, ..self }
    }

    /// The pool after it was bound to `base`: every block is free.
    pub open spec fn after_init(self, base: usize) -> PoolView {
        let bound = PoolView { base, ..self };
        PoolView { free: bound.all_blocks(), ..bound }
    }

    /// Block `index` starts at a block address, and that address leads back
    /// to `index`.
    pub proof fn lemma_block_address(self, index: int)
        requires
            self.block_size > 0,
            self.end() <= usize::MAX,
            0 <= index < self.length,
        ensures
            self.base <= self.block_address(index),
            self.block_address(index) + self.block_size <= self.end(),
            self.index_of(self.block_address(index) as usize) == index,
            self.is_block(self.block_address(index) as usize),
    {
        let size = self.block_size as int;
        lemma_mul_nonnegative(index, size);
        lemma_mul_inequality(index + 1, self.length as int, size);
        lemma_mul_is_distributive_add_other_way(size, index, 1);
        lemma_mul_is_commutative(size, self.length as int);
        lemma_div_by_multiple(index, size);
    }

    /// A block address is the start of the block with the index computed
    /// from it, and the whole block lies in the pool.
    pub proof fn lemma_is_block(self, address: usize)
        requires
            self.block_size > 0,
            self.is_block(address),
        ensures
            0 <= self.index_of(address) < self.length,
            (address - self.base) % (self.block_size as int) == 0,
            address + self.block_size <= self.end(),
            self.contains(address),
    {
        let size = self.block_size as int;
        let index = self.index_of(address);
        lemma_div_pos_is_pos(address - self.base, size);
        lemma_mod_multiples_basic(index, size);
        lemma_mul_inequality(index + 1, self.length as int, size);
        lemma_mul_is_distributive_add_other_way(size, index, 1);
        lemma_mul_is_commutative(size, self.length as int);
    }

    /// An address in the pool at a whole number of blocks from its base is a
    /// block address.
    pub proof fn lemma_on_grid_is_block(self, address: usize)
        requires
            self.block_size > 0,
            self.contains(address),
            (address - self.base) % (self.block_size as int) == 0,
        ensures
            self.is_block(address),
    {
        let size = self.block_size as int;
        let offset = address - self.base;
        lemma_fundamental_div_mod(offset, size);
        lemma_div_pos_is_pos(offset, size);
        let index = offset / size;
        if index >= self.length {
            lemma_mul_inequality(self.length as int, index, size);
            lemma_mul_is_commutative(size, self.length as int);
            lemma_mul_is_commutative(size, index);
        }
        lemma_mul_is_commutative(size, index);
    }

    /// Two different blocks of a pool share no byte.
    pub proof fn lemma_blocks_disjoint(self, a: usize, b: usize)
        requires
            self.block_size > 0,
            self.is_block(a),
            self.is_block(b),
            a != b,
        ensures
            a + self.block_size <= b || b + self.block_size <= a,
    {
        let size = self.block_size as int;
        let i = self.index_of(a);
        let j = self.index_of(b);
        if i < j {
            lemma_mul_inequality(i + 1, j, size);
            lemma_mul_is_distributive_add_other_way(size, i, 1);
        } else if j < i {
            lemma_mul_inequality(j + 1, i, size);
            lemma_mul_is_distributive_add_other_way(size, j, 1);
        }
    }

    /// A pool has no more free blocks than blocks.
    pub proof fn lemma_free_within_length(self)
        requires
            self.valid(),
        ensures
            self.free.len() <= self.length,
    {
        let indices = Seq::new(self.free.len(), |i: int| self.index_of(self.free[i]));
        assert forall|i: int, j: int| 0 <= i < j < indices.len() implies indices[i]
            != indices[j] by {
            assert(self.is_block(self.free[i]));
            assert(self.is_block(self.free[j]));
        }
        indices.unique_seq_to_set();
        let range = set_int_range(0, self.length as int);
        lemma_int_range(0, self.length as int);
        assert forall|index: int| indices.to_set().contains(index) implies range.contains(
            index,
        ) by {
            let i = choose|i: int| 0 <= i < indices.len() && indices[i] == index;
            assert(self.is_block(self.free[i]));
            self.lemma_is_block(self.free[i]);
        }
        lemma_len_subset(indices.to_set(), range);
    }

    /// Alignment is a matter of geometry alone: two views of one geometry
    /// are aligned to the same values.
    pub proof fn lemma_same_geometry(self, other: PoolView, align: usize)
        requires
            self.block_size == other.block_size,
            self.length == other.length,
            self.base == other.base,
        ensures
            self.aligned_to(align) == other.aligned_to(align),
    {
        if self.aligned_to(align) {
            assert forall|index: int| 0 <= index < other.length implies #[trigger] other.block_address(
                index,
            ) % (align as int) == 0 by {
                assert(self.block_address(index) % (align as int) == 0);
            }
        }
        if other.aligned_to(align) {
            assert forall|index: int| 0 <= index < self.length implies #[trigger] self.block_address(
                index,
            ) % (align as int) == 0 by {
                assert(other.block_address(index) % (align as int) == 0);
            }
        }
    }

    /// Where the base and the block size are multiples of `align`, so is the
    /// address of every block.
    pub proof fn lemma_aligned_blocks(self, align: usize, index: int)
        requires
            align > 0,
            self.base % align == 0,
            self.block_size % align == 0,
            0 <= index,
        ensures
            self.block_address(index) % (align as int) == 0,
    {
        let a = align as int;
        let size = self.block_size as int;
        let offset = index * size;
        assert(offset % a == 0) by {
            lemma_mul_mod_noop_right(index, size, a);
            assert(index * (size % a) == 0) by (nonlinear_arith)
                requires
                    size % a == 0,
            ;
        }
        lemma_add_mod_noop(self.base as int, offset, a);
        lemma_small_mod(0, align as nat);
    }
}

/// A fixed-block-size arena with an intrusive free list.
///
/// The pool owns a contiguous range of addresses cut into `length` blocks of
/// `block_size` bytes. A block is either handed out, and then its contents
/// are the business of its holder, or free, and then its first machine word
/// holds the address of the next free block. Of the memory of each block the
/// pool keeps that first word and nothing else; which blocks are handed out
/// is recorded nowhere.
pub struct Pool {
    block_size: usize,
    length: usize,
    base: usize,
    head: Head,
    /// First machine word of each block, by block index.
    words: Vec<usize>,
    free: Ghost<Seq<usize>>,
}

impl View for Pool {
    type V = PoolView;

    closed spec fn view(&self) -> PoolView {
        PoolView {
            block_size: self.block_size,
            length: self.length,
            base: self.base,
            free: self.free@,
        }
    }
}

impl Pool {
    /// What the first word of the `i`-th free block has to hold: the address
    /// of the free block after it, or [`EMPTY`] at the end of the list.
    spec fn link_after(free: Seq<usize>, i: int) -> usize {
        if i + 1 < free.len() {
            free[i + 1]
        } else {
            EMPTY
        }
    }

    /// The first word of the `i`-th free block holds what it has to.
    spec fn linked(&self, i: int) -> bool {
        self.words@[self@.index_of(self.free@[i])] == Self::link_after(self.free@, i)
    }

    /// The head and the first words of the free blocks spell out the free
    /// list of the view.
    pub closed spec fn wf(&self) -> bool {
        &&& self@.valid()
        &&& self.words@.len() == self.length
        &&& self.head@ == (if self.free@.len() == 0 {
            EMPTY
        } else {
            self.free@[0]
        })
        &&& forall|i: int| 0 <= i < self.free@.len() ==> #[trigger] self.linked(i)
    }

    /// A well-formed pool has a valid view.
    pub proof fn lemma_wf_valid(&self)
        requires
            self.wf(),
        ensures
            self@.valid(),
    {
    }

    /// A pool of `length` blocks of `block_size` bytes that is not yet bound
    /// to memory. It has no free block until [`Pool::init`] is called.
    pub fn new(block_size: usize, length: usize) -> (pool: Pool)
        requires
            block_size > 0,
            block_size * length <= usize::MAX,
        ensures
            pool.wf(),
            pool@ == (PoolView { block_size, length, base: 0, free: Seq::empty() }),
    {
        let mut words: Vec<usize> = Vec::new();
        let mut index: usize = 0;
        while index < length
            invariant
                index <= length,
                words@.len() == index,
            decreases length - index,
        {
            words.push(EMPTY);
            index += 1;
        }
        Pool { block_size, length, base: 0, head: Head::new(EMPTY), words, free: Ghost(Seq::empty()) }
    }

    /// Bytes per block.
    pub fn block_size(&self) -> (size: usize)
        ensures
            size == self@.block_size,
    {
        self.block_size
    }

    /// Number of blocks.
    pub fn length(&self) -> (length: usize)
        ensures
            length == self@.length,
    {
        self.length
    }

    /// Address of the first block; zero until the pool is bound to memory.
    pub fn base(&self) -> (base: usize)
        ensures
            base == self@.base,
    {
        self.base
    }

    /// First address past the pool.
    pub fn end(&self) -> (end: usize)
        requires
            self.wf(),
        ensures
            end == self@.end(),
    {
        proof {
            lemma_mul_nonnegative(self.block_size as int, self.length as int);
        }
        self.base + self.block_size * self.length
    }

    /// Whether `address` lies in the address range of the pool.
    pub fn contains(&self, address: usize) -> (inside: bool)
        requires
            self.wf(),
        ensures
            inside == self@.contains(address),
    {
        self.base <= address && address < self.end()
    }

    /// Whether `address` is where a block of the pool starts.
    pub fn is_block(&self, address: usize) -> (on_grid: bool)
        requires
            self.wf(),
        ensures
            on_grid == self@.is_block(address),
    {
        if self.contains(address) && (address - self.base) % self.block_size == 0 {
            proof {
                self@.lemma_on_grid_is_block(address);
            }
            true
        } else {
            proof {
                if self@.is_block(address) {
                    self@.lemma_is_block(address);
                }
            }
            false
        }
    }

    /// Index of the block that starts at `address`.
    pub fn index_of(&self, address: BlockAddress) -> (index: usize)
        requires
            self.wf(),
            self@.is_block(address),
        ensures
            index == self@.index_of(address),
            index < self@.length,
    {
        (address - self.base) / self.block_size
    }

    /// Address at which block `index` starts.
    pub fn block_address(&self, index: usize) -> (address: BlockAddress)
        requires
            self.wf(),
            index < self@.length,
        ensures
            address == self@.block_address(index as int),
            self@.is_block(address),
    {
        proof {
            self@.lemma_block_address(index as int);
            lemma_mul_nonnegative(index as int, self.block_size as int);
        }
        self.base + index * self.block_size
    }

    /// Binds the pool to the memory at `base` and threads every block onto
    /// the free list, lowest address first.
    pub fn init(&mut self, base: usize)
        requires
            old(self).wf(),
            !old(self)@.initialized(),
            base != 0,
            base + old(self)@.bytes() <= usize::MAX,
        ensures
            final(self).wf(),
            final(self)@ == old(self)@.after_init(base),
    {
        self.base = base;
        let ghost bound = self@;
        let ghost blocks = bound.all_blocks();
        let mut index: usize = 0;
        let mut address: usize = base;
        while index < self.length
            invariant
                self.block_size == old(self).block_size,
                self.length == old(self).length,
                self.base == base,
                self.block_size > 0,
                self@ == bound,
                bound.end() <= usize::MAX,
                blocks == bound.all_blocks(),
                self.words@.len() == self.length,
                index <= self.length,
                address == bound.block_address(index as int),
                forall|i: int|
                    0 <= i < index ==> #[trigger] self.words@[i] == Self::link_after(blocks, i),
            decreases self.length - index,
        {
            proof {
                bound.lemma_block_address(index as int);
                if index + 1 < self.length {
                    bound.lemma_block_address(index + 1);
                }
                lemma_mul_is_distributive_add_other_way(self.block_size as int, index as int, 1);
            }
            let next: usize = address + self.block_size;
            let link: usize = if index + 1 < self.length {
                next
            } else {
                EMPTY
            };
            self.words[index] = link;
            address = next;
            index += 1;
        }
        let first: usize = if self.length > 0 {
            base
        } else {
            EMPTY
        };
        self.head = Head::new(first);
        self.free = Ghost(blocks);
        proof {
            assert forall|i: int| 0 <= i < blocks.len() implies self@.is_block(
                #[trigger] blocks[i],
            ) && self@.index_of(blocks[i]) == i by {
                bound.lemma_block_address(i);
            }
            assert forall|i: int, j: int| 0 <= i < j < blocks.len() implies blocks[i]
                != blocks[j] by {
                bound.lemma_block_address(i);
                bound.lemma_block_address(j);
            }
            assert forall|i: int| 0 <= i < self.free@.len() implies #[trigger] self.linked(i) by {
                assert(self@.index_of(blocks[i]) == i);
            }
            if self.length > 0 {
                bound.lemma_block_address(0);
            }
        }
    }

    /// Takes the first block off the free list.
    ///
    /// Returns the address of the block, or `None` when the pool is
    /// exhausted. The block is no longer on the free list afterwards, so no
    /// later call returns it before it is given back.
    ///
    /// The head of the list moves by a compare-and-exchange from the block
    /// observed to the block that its first word names. With exclusive access
    /// to the pool nothing can move the head between the load and the
    /// exchange, so the exchange succeeds at the first attempt.
    pub fn allocate(&mut self) -> (res: Option<BlockAddress>)
        requires
            old(self).wf(),
        ensures
            final(self).wf(),
            res == old(self)@.first_free(),
            final(self)@ == old(self)@.after_allocate(),
            res matches Some(address) ==> !old(self)@.is_live(address) && final(self)@.is_live(
                address,
            ),
    {
        proof {
            self@.lemma_allocate();
        }
        loop
            invariant
                self.wf(),
                *self == *old(self),
            decreases 0int,
        {
            let observed: usize = self.head.load();
            if observed == EMPTY {
                proof {
                    if self.free@.len() > 0 {
                        self@.lemma_is_block(self.free@[0]);
                    }
                }
                return None;
            }
            assert(self.linked(0));
            let index: usize = self.index_of(observed);
            let next: usize = self.words[index];
            match self.head.compare_exchange(observed, next) {
                Ok(_) => {
                    let ghost before = self.free@;
                    self.free = Ghost(before.drop_first());
                    proof {
                        assert forall|i: int| 0 <= i < self.free@.len() implies #[trigger] self.linked(
                            i,
                        ) by {
                            assert(old(self).linked(i + 1));
                        }
                        assert forall|i: int| 0 <= i < self.free@.len() implies self@.is_block(
                            #[trigger] self.free@[i],
                        ) by {
                            assert(old(self)@.is_block(before[i + 1]));
                        }
                    }
                    return Some(observed);
                },
                // The head was read under the same exclusive access, so it
                // still holds `observed`: a retry is never needed.
                Err(_) => {},
            }
        }
    }

    /// Puts the block at `address` back at the front of the free list.
    ///
    /// `address` must be a block of this pool that is handed out. The pool
    /// cannot check that: giving back an address that it did not hand out, or
    /// giving one back twice, would corrupt the free list.
    ///
    /// The first word of the block receives the head observed, then the head
    /// moves to the block by a compare-and-exchange, which succeeds at the
    /// first attempt for the reason given at [`Pool::allocate`].
    pub fn deallocate(&mut self, address: BlockAddress)
        requires
            old(self).wf(),
            old(self)@.is_live(address),
        ensures
            final(self).wf(),
            final(self)@ == old(self)@.after_deallocate(address),
            !final(self)@.is_live(address),
    {
        proof {
            self@.lemma_deallocate(address);
        }
        let index: usize = self.index_of(address);
        loop
            invariant
                self.wf(),
                self@.is_live(address),
                index == self@.index_of(address),
                index < self.length,
                *self == *old(self),
            decreases 0int,
        {
            let observed: usize = self.head.load();
            let ghost before = self.free@;
            self.words[index] = observed;
            match self.head.compare_exchange(observed, address) {
                Ok(_) => {
                    self.free = Ghost(seq![address] + before);
                    proof {
                        let after = self.free@;
                        assert forall|i: int| 0 <= i < after.len() implies self@.is_block(
                            #[trigger] after[i],
                        ) by {
                            if i > 0 {
                                assert(old(self)@.is_block(before[i - 1]));
                            }
                        }
                        assert forall|i: int, j: int| 0 <= i < j < after.len() implies after[i]
                            != after[j] by {
                            if i > 0 {
                                assert(before[i - 1] != before[j - 1]);
                            } else {
                                assert(before.contains(before[j - 1]));
                            }
                        }
                        assert forall|i: int| 0 <= i < after.len() implies #[trigger] self.linked(
                            i,
                        ) by {
                            if i > 0 {
                                assert(old(self).linked(i - 1));
                                assert(before.contains(before[i - 1]));
                                assert(old(self)@.is_block(before[i - 1]));
                                Self::lemma_index_injective(self@, address, before[i - 1]);
                            }
                        }
                    }
                    return ;
                },
                // As in `allocate`: the head still holds `observed`.
                Err(_) => {},
            }
        }
    }

    /// Number of free blocks, counted by walking the free list.
    pub fn available(&self) -> (count: usize)
        requires
            self.wf(),
        ensures
            count == self@.free.len(),
            count <= self@.length,
    {
        proof {
            self@.lemma_free_within_length();
        }
        let mut count: usize = 0;
        let mut cursor: usize = self.head.load();
        while cursor != EMPTY
            invariant
                self.wf(),
                self.free@.len() <= self.length,
                count <= self.free@.len(),
                cursor == (if count < self.free@.len() {
                    self.free@[count as int]
                } else {
                    EMPTY
                }),
            decreases self.free@.len() - count,
        {
            assert(self.linked(count as int));
            let index: usize = self.index_of(cursor);
            cursor = self.words[index];
            count += 1;
        }
        proof {
            if count < self.free@.len() {
                self@.lemma_is_block(self.free@[count as int]);
            }
        }
        count
    }

    /// Whether every block of the pool starts at a multiple of `align`.
    ///
    /// No pool is aligned to zero.
    pub fn aligned_to(&self, align: usize) -> (aligned: bool)
        requires
            self.wf(),
        ensures
            aligned == self@.aligned_to(align),
    {
        if align == 0 {
            return false;
        }
        if self.length == 0 {
            return true;
        }
        if self.base % align != 0 {
            assert(self@.block_address(0) == self.base);
            return false;
        }
        if self.length == 1 {
            assert forall|index: int| 0 <= index < self.length implies #[trigger] self@.block_address(
                index,
            ) % (align as int) == 0 by {
                assert(self@.block_address(0) == self.base);
            }
            return true;
        }
        if self.block_size % align != 0 {
            proof {
                assert(self@.block_address(1) == self.base + self.block_size);
                lemma_add_mod_noop(self.base as int, self.block_size as int, align as int);
                lemma_mod_twice(self.block_size as int, align as int);
            }
            return false;
        }
        assert forall|index: int| 0 <= index < self.length implies #[trigger] self@.block_address(
            index,
        ) % (align as int) == 0 by {
            self@.lemma_aligned_blocks(align, index);
        }
        true
    }

    /// Whether the block at `address` is on the free list, found by walking
    /// the list.
    pub fn is_free(&self, address: usize) -> (free: bool)
        requires
            self.wf(),
        ensures
            free == self@.free.contains(address),
    {
        proof {
            self@.lemma_free_within_length();
        }
        let mut seen: usize = 0;
        let mut cursor: usize = self.head.load();
        while cursor != EMPTY
            invariant
                self.wf(),
                self.free@.len() <= self.length,
                seen <= self.free@.len(),
                cursor == (if seen < self.free@.len() {
                    self.free@[seen as int]
                } else {
                    EMPTY
                }),
                forall|i: int| 0 <= i < seen ==> self.free@[i] != address,
            decreases self.free@.len() - seen,
        {
            if cursor == address {
                return true;
            }
            assert(self.linked(seen as int));
            let index: usize = self.index_of(cursor);
            cursor = self.words[index];
            seen += 1;
        }
        proof {
            if seen < self.free@.len() {
                self@.lemma_is_block(self.free@[seen as int]);
            }
        }
        false
    }

    /// Whether `address` is a block of the pool that is handed out: a block
    /// address of a bound pool that is not on the free list.
    pub fn is_live(&self, address: usize) -> (live: bool)
        requires
            self.wf(),
        ensures
            live == self@.is_live(address),
    {
        self.base != 0 && self.is_block(address) && !self.is_free(address)
    }

    /// Different blocks have different indices.
    proof fn lemma_index_injective(view: PoolView, a: usize, b: usize)
        requires
            view.is_block(a),
            view.is_block(b),
            a != b,
        ensures
            view.index_of(a) != view.index_of(b),
    {
    }
}

} // verus!
