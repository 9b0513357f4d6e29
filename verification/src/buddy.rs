//! The buddy system: a page allocator over power-of-two blocks.
//!
//! The heap is seen as a row of trees, each covering [`MAX_BLOCK_SIZE`] bytes.
//! A block of a class is a node of its tree; the two halves of a node are
//! buddies. One bit per node with children records whether exactly one of
//! the two children is currently handed out (or split further): the bit is
//! toggled whenever a child leaves or enters its free list, so a set bit
//! seen while freeing a child means that the other child is free and the two
//! can be joined. The smallest class has no bit of its own, but toggles the
//! bit of its parent like every other class.

pub mod geometry;
pub mod laws;
pub mod list;
pub mod state;

use vstd::prelude::*;
use crate::buddy::geometry::{
    bit_of,
    block_class,
    buddy_addr,
    class_bytes,
    class_nodes,
    has_buddy,
    is_block,
    lemma_block_page_aligned,
    lemma_flip_bit,
    lemma_pair_index_bound,
    lemma_pair_index_is_half_node,
    lemma_split_facts,
    lemma_zero_bit,
    node_index,
    pair_index,
    tree_count,
};
use crate::buddy::list::{FreeMemoryBlock, MemoryBlockList};
use crate::buddy::state::{
    BuddyState,
    class_rest,
    cut_down_to,
    fresh_state,
    lemma_allocate,
    lemma_deallocate,
    lemma_first_stocked,
    lemma_insert,
    lemma_merge,
    lemma_split,
    lemma_take,
    lemma_turn,
};
use crate::constants::{BITS_PER_TREE, MAX_BLOCK_SIZE, NUM_OF_BUDDY_SIZE, PAGE_SIZE};

verus! {

/// Block size that is managed by the buddy system.
#[derive(Copy, Clone, Debug, PartialEq, Eq, Structural)]
pub enum BlockSize {
    Byte4K,
    Byte8K,
    Byte16K,
    Byte32K,
    Byte64K,
    Byte128K,
    Byte256K,
    Byte512K,
    Byte1024K,
}

impl BlockSize {
    /// Position of the class, counted from the smallest.
    pub open spec fn spec_index(self) -> int {
        match self {
            Self::Byte4K => 0,
            Self::Byte8K => 1,
            Self::Byte16K => 2,
            Self::Byte32K => 3,
            Self::Byte64K => 4,
            Self::Byte128K => 5,
            Self::Byte256K => 6,
            Self::Byte512K => 7,
            Self::Byte1024K => 8,
        }
    }

    /// Bytes in a block of this class.
    pub open spec fn spec_bytes(self) -> int {
        class_bytes(self.spec_index())
    }

    /// The class one step smaller. The smallest class has none.
    pub fn smaller(self) -> (r: Self)
        requires
            self != Self::Byte4K,
        ensures
            r.spec_index() == self.spec_index() - 1,
    {
        match self {
            Self::Byte4K => BlockSize::Byte4K,
            Self::Byte8K => BlockSize::Byte4K,
            Self::Byte16K => BlockSize::Byte8K,
            Self::Byte32K => BlockSize::Byte16K,
            Self::Byte64K => BlockSize::Byte32K,
            Self::Byte128K => BlockSize::Byte64K,
            Self::Byte256K => BlockSize::Byte128K,
            Self::Byte512K => BlockSize::Byte256K,
            Self::Byte1024K => BlockSize::Byte512K,
        }
    }

    /// The class one step bigger. The biggest class has none.
    pub fn bigger(self) -> (r: Self)
        requires
            self != Self::Byte1024K,
        ensures
            r.spec_index() == self.spec_index() + 1,
    {
        match self {
            Self::Byte4K => BlockSize::Byte8K,
            Self::Byte8K => BlockSize::Byte16K,
            Self::Byte16K => BlockSize::Byte32K,
            Self::Byte32K => BlockSize::Byte64K,
            Self::Byte64K => BlockSize::Byte128K,
            Self::Byte128K => BlockSize::Byte256K,
            Self::Byte256K => BlockSize::Byte512K,
            Self::Byte512K => BlockSize::Byte1024K,
            Self::Byte1024K => BlockSize::Byte1024K,
        }
    }

    /// Base-two logarithm of the block size.
    pub fn log2(&self) -> (r: usize)
        ensures
            r == 12 + self.spec_index(),
            vstd::arithmetic::power2::pow2(r as nat) == self.spec_bytes(),
    {
        proof {
            vstd::arithmetic::power2::lemma2_to64();
        }
        match self {
            Self::Byte4K => 12,
            Self::Byte8K => 13,
            Self::Byte16K => 14,
            Self::Byte32K => 15,
            Self::Byte64K => 16,
            Self::Byte128K => 17,
            Self::Byte256K => 18,
            Self::Byte512K => 19,
            Self::Byte1024K => 20,
        }
    }

    /// Position of the class, counted from the smallest: `log2` less the
    /// logarithm of the smallest class.
    pub fn index(&self) -> (r: usize)
        ensures
            r == self.spec_index(),
            r < NUM_OF_BUDDY_SIZE,
    {
        self.log2() - Self::Byte4K.log2()
    }

    /// Bytes in a block of this class.
    pub fn bytes(&self) -> (r: usize)
        ensures
            r == self.spec_bytes(),
            r == class_bytes(self.spec_index()),
    {
        match self {
            Self::Byte4K => 0x1000,
            Self::Byte8K => 0x2000,
            Self::Byte16K => 0x4000,
            Self::Byte32K => 0x8000,
            Self::Byte64K => 0x10000,
            Self::Byte128K => 0x20000,
            Self::Byte256K => 0x40000,
            Self::Byte512K => 0x80000,
            Self::Byte1024K => 0x100000,
        }
    }

    /// Number of blocks of this class in one buddy tree, which is also the
    /// number of the first node of the class: one shifted left by the depth
    /// of the class below the biggest.
    pub fn nodes(&self) -> (r: usize)
        ensures
            r == class_nodes(self.spec_index()),
    {
        match self {
            Self::Byte4K => 256,
            Self::Byte8K => 128,
            Self::Byte16K => 64,
            Self::Byte32K => 32,
            Self::Byte64K => 16,
            Self::Byte128K => 8,
            Self::Byte256K => 4,
            Self::Byte512K => 2,
            Self::Byte1024K => 1,
        }
    }

    /// The class at position `index`.
    pub fn from_index(index: usize) -> (r: Self)
        requires
            index < NUM_OF_BUDDY_SIZE,
        ensures
            r.spec_index() == index,
    {
        if index == 0 {
            Self::Byte4K
        } else if index == 1 {
            Self::Byte8K
        } else if index == 2 {
            Self::Byte16K
        } else if index == 3 {
            Self::Byte32K
        } else if index == 4 {
            Self::Byte64K
        } else if index == 5 {
            Self::Byte128K
        } else if index == 6 {
            Self::Byte256K
        } else if index == 7 {
            Self::Byte512K
        } else {
            Self::Byte1024K
        }
    }
}

/// The split-state bitmap of the buddy system, with the geometry of the heap
/// it describes.
pub struct BuddyManager {
    /// Base address of entire memory blocks.
    pub base_addr: usize,
    /// Bytes under management: the whole pages of the heap.
    pub heap_size: usize,
    /// Buddy (two children of a node) state, one bit per node with children:
    /// - 0: both children unused, or both used
    /// - 1: exactly one child used
    pub buddy_state: Vec<u8>,
}

impl BuddyManager {
    /// The bitmap as a sequence of bits.
    pub open spec fn bits(&self) -> Seq<bool> {
        Seq::new(
            (self.buddy_state@.len() * 8) as nat,
            |i: int| bit_of(self.buddy_state@[i / 8], (i % 8) as u8),
        )
    }

    /// The heap is page-aligned, a whole number of pages long, ends inside
    /// the address space, and the bitmap has 256 bits for each of its trees.
    pub open spec fn wf(&self) -> bool {
        &&& self.base_addr % 4096 == 0
        &&& self.heap_size % 4096 == 0
        &&& self.base_addr + self.heap_size <= usize::MAX
        &&& self.buddy_state@.len() * 8 == tree_count(self.heap_size as int) * 256
    }

    /// Whether `block` is a block of this heap.
    pub open spec fn holds(&self, block: FreeMemoryBlock) -> bool {
        is_block(
            self.base_addr as int,
            self.heap_size as int,
            block.addr as int,
            block.size.spec_index(),
        )
    }

    /// Whether `block` has a buddy in this heap.
    pub open spec fn pairs(&self, block: FreeMemoryBlock) -> bool {
        has_buddy(
            self.base_addr as int,
            self.heap_size as int,
            block.addr as int,
            block.size.spec_index(),
        )
    }

    /// Position of the bit that `block` shares with its buddy.
    pub open spec fn bit_position(&self, block: FreeMemoryBlock) -> int {
        pair_index(self.base_addr as int, block.addr as int, block.size.spec_index())
    }

    /// A manager for the heap of `heap_size` bytes at `base_addr`, with every
    /// bit clear. Bytes after the last whole page are left out.
    pub fn new(base_addr: usize, heap_size: usize) -> (r: Self)
        requires
            base_addr % PAGE_SIZE == 0,
            base_addr + heap_size <= usize::MAX,
        ensures
            r.wf(),
            r.base_addr == base_addr,
            r.heap_size == heap_size - heap_size % 4096,
            forall|i: int| 0 <= i < r.bits().len() ==> !r.bits()[i],
    {
        let usable: usize = heap_size - heap_size % PAGE_SIZE;
        let full: usize = usable / MAX_BLOCK_SIZE;
        let trees: usize = if usable % MAX_BLOCK_SIZE == 0 {
            full
        } else {
            full + 1
        };
        let bytes: usize = trees * (BITS_PER_TREE / 8);
        let mut buddy_state: Vec<u8> = Vec::new();
        while buddy_state.len() < bytes
            invariant
                buddy_state@.len() <= bytes,
                forall|j: int| 0 <= j < buddy_state@.len() ==> buddy_state@[j] == 0u8,
            decreases bytes - buddy_state@.len(),
        {
            buddy_state.push(0u8);
        }
        let r = BuddyManager { base_addr, heap_size: usable, buddy_state };
        proof {
            assert forall|i: int| 0 <= i < r.bits().len() implies !r.bits()[i] by {
                lemma_zero_bit((i % 8) as u8);
            }
        }
        r
    }

    /// Reads the bit at `index`.
    pub fn get_state(&self, index: usize) -> (r: bool)
        requires
            index < self.bits().len(),
        ensures
            r == self.bits()[index as int],
    {
        let byte: u8 = self.buddy_state[index / 8];
        let shift: u8 = (index % 8) as u8;
        (byte >> shift) & 1 == 1
    }

    /// Toggles the bit at `index` and leaves every other bit as it was.
    pub fn flip_state(&mut self, index: usize)
        requires
            index < old(self).bits().len(),
        ensures
            final(self).bits() == old(self).bits().update(
                index as int,
                !old(self).bits()[index as int],
            ),
            final(self).base_addr == old(self).base_addr,
            final(self).heap_size == old(self).heap_size,
            final(self).buddy_state@.len() == old(self).buddy_state@.len(),
    {
        let byte: u8 = self.buddy_state[index / 8];
        let shift: u8 = (index % 8) as u8;
        self.buddy_state[index / 8] = byte ^ (1u8 << shift);
        proof {
            let want = old(self).bits().update(index as int, !old(self).bits()[index as int]);
            assert forall|i: int| 0 <= i < want.len() implies self.bits()[i] == want[i] by {
                if i / 8 == index / 8 {
                    lemma_flip_bit(byte, shift, (i % 8) as u8);
                }
            }
            assert(self.bits() =~= want);
        }
    }

    /// Number of the node that stands for `block`: the first node of its
    /// class plus the position of the block among the blocks of its class,
    /// within its tree, 512 numbers per tree.
    pub fn ptr_to_index(&self, block: &FreeMemoryBlock) -> (r: usize)
        requires
            self.wf(),
            self.holds(*block),
        ensures
            r == node_index(
                self.base_addr as int,
                block.addr as int,
                block.size.spec_index(),
            ),
    {
        let addr_offset: usize = block.addr - self.base_addr;
        let tree: usize = addr_offset / MAX_BLOCK_SIZE;
        let within: usize = addr_offset % MAX_BLOCK_SIZE;
        let bytes: usize = block.size.bytes();
        let buddy_index_start: usize = block.size.nodes();
        let buddy_index_offset: usize = within / bytes;
        assert(buddy_index_offset <= within) by (nonlinear_arith)
            requires
                buddy_index_offset == within / bytes,
                bytes >= 1,
        ;
        tree * 512 + buddy_index_start + buddy_index_offset
    }

    /// Whether `block` has a buddy: it is not of the biggest class and its
    /// parent lies inside the heap.
    pub fn has_buddy(&self, block: &FreeMemoryBlock) -> (r: bool)
        requires
            self.wf(),
            self.holds(*block),
        ensures
            r == self.pairs(*block),
    {
        if block.size.index() == NUM_OF_BUDDY_SIZE - 1 {
            return false;
        }
        let addr_offset: usize = block.addr - self.base_addr;
        let parent_bytes: usize = block.size.bigger().bytes();
        proof {
            vstd::arithmetic::div_mod::lemma_mod_decreases(
                addr_offset as nat,
                parent_bytes as nat,
            );
        }
        let parent_offset: usize = addr_offset - addr_offset % parent_bytes;
        self.heap_size - parent_offset >= parent_bytes
    }

    /// Toggles the bit that `block` shares with its buddy.
    pub fn flip_buddy_state(&mut self, block: &FreeMemoryBlock)
        requires
            old(self).wf(),
            old(self).pairs(*block),
        ensures
            final(self).wf(),
            final(self).base_addr == old(self).base_addr,
            final(self).heap_size == old(self).heap_size,
            final(self).bits() == old(self).bits().update(
                old(self).bit_position(*block),
                !old(self).bits()[old(self).bit_position(*block)],
            ),
    {
        let buddy_index: usize = self.ptr_to_index(block);
        let parent_buddy_index: usize = buddy_index / 2;
        proof {
            lemma_pair_index_is_half_node(
                self.base_addr as int,
                self.heap_size as int,
                block.addr as int,
                block.size.spec_index(),
            );
            lemma_pair_index_bound(
                self.base_addr as int,
                self.heap_size as int,
                block.addr as int,
                block.size.spec_index(),
            );
        }
        self.flip_state(parent_buddy_index);
    }

    /// Reads the bit that `block` shares with its buddy. While `block` is
    /// handed out, a set bit means that its buddy is free.
    pub fn is_mergeable(&self, block: &FreeMemoryBlock) -> (r: bool)
        requires
            self.wf(),
            self.pairs(*block),
        ensures
            r == self.bits()[self.bit_position(*block)],
    {
        let buddy_index: usize = self.ptr_to_index(block);
        let parent_buddy_index: usize = buddy_index / 2;
        proof {
            lemma_pair_index_is_half_node(
                self.base_addr as int,
                self.heap_size as int,
                block.addr as int,
                block.size.spec_index(),
            );
            lemma_pair_index_bound(
                self.base_addr as int,
                self.heap_size as int,
                block.addr as int,
                block.size.spec_index(),
            );
        }
        self.get_state(parent_buddy_index)
    }
}

/// The buddy system: nine free lists, one per class, and the bitmap.
pub struct BuddySystem {
    /// The free list of each class, smallest class first.
    pub lists: Vec<MemoryBlockList>,
    /// Geometry of the heap and state of the buddy pairs.
    pub manager: BuddyManager,
}

impl View for BuddySystem {
    type V = BuddyState;

    open spec fn view(&self) -> BuddyState {
        BuddyState {
            base: self.manager.base_addr as int,
            heap: self.manager.heap_size as int,
            lists: Seq::new(9, |k: int| self.lists@[k].blocks@),
            bits: self.manager.bits(),
        }
    }
}

impl BuddySystem {
    /// There are nine lists, and the list at position `k` is of class `k`.
    pub open spec fn lists_ok(&self) -> bool {
        &&& self.lists@.len() == 9
        &&& forall|k: int| 0 <= k < 9 ==> (#[trigger] self.lists@[k]).block_size.spec_index() == k
    }

    /// The buddy system is well formed: its lists are in place and its
    /// state is well formed.
    pub open spec fn wf(&self) -> bool {
        &&& self.lists_ok()
        &&& self@.wf()
    }

    /// Return all empty lists.
    pub fn new_empty(start_addr: usize, heap_size: usize) -> (r: Self)
        requires
            start_addr % PAGE_SIZE == 0,
            start_addr + heap_size <= usize::MAX,
        ensures
            r.wf(),
            r@.base == start_addr,
            r@.heap == heap_size - heap_size % 4096,
            forall|k: int| 0 <= k < 9 ==> (#[trigger] r@.lists[k]).len() == 0,
            forall|i: int| 0 <= i < r@.bits.len() ==> !r@.bits[i],
    {
        let manager = BuddyManager::new(start_addr, heap_size);
        let mut lists: Vec<MemoryBlockList> = Vec::new();
        let mut k: usize = 0;
        while k < NUM_OF_BUDDY_SIZE
            invariant
                k <= 9,
                lists@.len() == k,
                forall|j: int|
                    0 <= j < k ==> (#[trigger] lists@[j]).block_size.spec_index() == j
                        && lists@[j].blocks@.len() == 0,
            decreases 9 - k,
        {
            lists.push(MemoryBlockList::new_empty(BlockSize::from_index(k)));
            k += 1;
        }
        let r = BuddySystem { lists, manager };
        proof {
            assert forall|a: int, j: int| #[trigger] r@.pair_ok(a, j) by {
                if has_buddy(r@.base, r@.heap, a, j) {
                    lemma_pair_index_bound(r@.base, r@.heap, a, j);
                }
            }
        }
        r
    }

    /// A buddy system over the `heap_size` bytes at `start_addr`.
    ///
    /// The heap is cut greedily, from its start, into free blocks of the
    /// biggest classes that fit: first as many of the biggest class as
    /// there is room for, then of the next class, down to the smallest.
    /// Bytes after the last whole page are left out. The heap must start at
    /// a page boundary, hold a page at least and end inside the address
    /// space.
    pub fn new(start_addr: usize, heap_size: usize) -> (r: Self)
        requires
            start_addr % PAGE_SIZE == 0,
            start_addr + heap_size <= usize::MAX,
            heap_size >= PAGE_SIZE,
        ensures
            r.wf(),
            r@ == fresh_state(start_addr as int, heap_size - heap_size % 4096),
            r@.free_bytes() == heap_size - heap_size % 4096,
    {
        let mut new_lists = Self::new_empty(start_addr, heap_size);
        let usable: usize = heap_size - heap_size % PAGE_SIZE;
        let mut current_addr: usize = start_addr;
        let mut remain_size: usize = usable;
        let mut k: usize = NUM_OF_BUDDY_SIZE;
        while k > 0
            invariant
                k <= 9,
                new_lists.lists_ok(),
                cut_down_to(new_lists@, start_addr as int, usable as int, k as int),
                start_addr + usable <= usize::MAX,
                remain_size == class_rest(usable as int, k - 1),
                current_addr == start_addr + usable - remain_size,
            decreases k,
        {
            k -= 1;
            let ghost before = new_lists@;
            proof {
                lemma_turn(before, start_addr as int, usable as int, k as int);
            }
            let rest = new_lists.lists[k].initialize_greedily(current_addr, remain_size);
            proof {
                let after = before.with_row(
                    k as int,
                    current_addr as int,
                    remain_size as int / class_bytes(k as int),
                );
                assert(new_lists@.lists[k as int] =~= after.lists[k as int]);
                assert(new_lists@.lists =~= after.lists);
                assert(new_lists@ == after);
            }
            current_addr = rest.0;
            remain_size = rest.1;
        }
        proof {
            assert(new_lists@.lists =~= fresh_state(start_addr as int, usable as int).lists);
            assert(new_lists@.bits =~= fresh_state(start_addr as int, usable as int).bits);
        }
        new_lists
    }

    /// Takes the block appended last to the list of class `size`, if the
    /// list holds any, and records in the bitmap that it has left.
    pub fn take(&mut self, size: BlockSize) -> (r: Option<FreeMemoryBlock>)
        requires
            old(self).wf(),
        ensures
            final(self).wf(),
            old(self)@.lists[size.spec_index()].len() == 0 ==> r.is_none() && final(self)@ == old(
                self,
            )@,
            old(self)@.lists[size.spec_index()].len() > 0 ==> r.is_some() && r.unwrap().size
                == size && r.unwrap().addr == old(self)@.lists[size.spec_index()].last()
                && final(self)@ == old(self)@.pop(size.spec_index()).toggle(
                r.unwrap().addr as int,
                size.spec_index(),
            ) && final(self)@.is_taken(r.unwrap().addr as int, size.spec_index()),
    {
        let k: usize = size.index();
        match self.lists[k].pop() {
            None => {
                proof {
                    assert(self@.lists =~= old(self)@.lists);
                }
                None
            },
            Some(block) => {
                proof {
                    lemma_take(old(self)@, k as int, 0, 0);
                    assert(self@.lists =~= old(self)@.pop(k as int).lists);
                }
                if self.manager.has_buddy(&block) {
                    self.manager.flip_buddy_state(&block);
                }
                proof {
                    assert(self@.lists =~= old(self)@.pop(k as int).lists);
                    assert(self@ == old(self)@.pop(k as int).toggle(block.addr as int, k as int));
                }
                Some(block)
            },
        }
    }

    /// Splits `parent`, which is handed out, down to class `size`: at each
    /// class on the way the second half goes into its free list and the
    /// first half is split again. Returns the first part of class `size`.
    pub fn split_request(&mut self, parent: FreeMemoryBlock, size: BlockSize) -> (r:
        FreeMemoryBlock)
        requires
            old(self).wf(),
            old(self)@.is_taken(parent.addr as int, parent.size.spec_index()),
            size.spec_index() <= parent.size.spec_index(),
        ensures
            final(self).wf(),
            r.addr == parent.addr,
            r.size == size,
            final(self)@ == old(self)@.split_down(
                parent.addr as int,
                parent.size.spec_index(),
                size.spec_index(),
            ),
    {
        let target: usize = size.index();
        let mut k: usize = parent.size.index();
        let addr: usize = parent.addr;
        while k > target
            invariant
                self.wf(),
                target <= k < 9,
                target == size.spec_index(),
                self@.is_taken(addr as int, k as int),
                self@.split_down(addr as int, k as int, target as int) == old(self)@.split_down(
                    addr as int,
                    parent.size.spec_index(),
                    target as int,
                ),
            decreases k,
        {
            k -= 1;
            let half = BlockSize::from_index(k);
            let first = FreeMemoryBlock::new(addr, half);
            let ghost before = self@;
            proof {
                lemma_split_facts(before.base, before.heap, addr as int, k as int);
                lemma_split(before, addr as int, k as int, 0, 0);
            }
            self.manager.flip_buddy_state(&first);
            self.lists[k].blocks.push(addr + half.bytes());
            proof {
                let after = before.flip(addr as int, k as int).push(
                    k as int,
                    (addr + class_bytes(k as int)) as usize,
                );
                assert(self@.lists =~= after.lists);
                assert(self@ == after);
            }
        }
        FreeMemoryBlock::new(addr, size)
    }

    /// Allocates a block of class `size`.
    ///
    /// The block comes from the free list of the class or, if that is
    /// empty, from the first part of a block of the nearest bigger class
    /// that has a free block, which is split. Returns `None` if no class
    /// from `size` upwards has a free block.
    pub fn allocate_block(&mut self, size: BlockSize) -> (r: Option<usize>)
        requires
            old(self).wf(),
        ensures
            final(self).wf(),
            r == old(self)@.allocate_result(size.spec_index()),
            final(self)@ == old(self)@.after_allocate(size.spec_index()),
            r.is_none() <==> (forall|j: int|
                size.spec_index() <= j < 9 ==> old(self)@.lists[j].len() == 0),
            r.is_some() ==> final(self)@.is_taken(r.unwrap() as int, size.spec_index())
                && final(self)@.free_bytes() == old(self)@.free_bytes() - size.spec_bytes(),
    {
        let target: usize = size.index();
        let mut k: usize = target;
        while k < NUM_OF_BUDDY_SIZE && self.lists[k].is_empty()
            invariant
                self.wf(),
                self@ == old(self)@,
                target <= k <= 9,
                forall|j: int| target <= j < k ==> self@.lists[j].len() == 0,
            decreases 9 - k,
        {
            k += 1;
        }
        proof {
            lemma_first_stocked(self@, target as int);
            lemma_allocate(self@, target as int, 0, 0);
            let stocked = self@.first_stocked(target as int);
            if k < 9 {
                assert(self@.lists[k as int] == self.lists@[k as int].blocks@);
                assert(self@.lists[k as int].len() > 0);
            }
            if stocked < k {
                assert(self@.lists[stocked].len() == 0);
            }
            assert(stocked == k);
        }
        if k == NUM_OF_BUDDY_SIZE {
            return None;
        }
        let found = self.take(BlockSize::from_index(k));
        let block = self.split_request(found.unwrap(), size);
        Some(block.addr)
    }

    /// Frees the block of class `size` at `addr`.
    ///
    /// The block is joined with its buddy as long as the buddy is free too,
    /// one class up each time; what is left is put into the free list of
    /// its class, to be handed out first.
    pub fn deallocate_block(&mut self, addr: usize, size: BlockSize)
        requires
            old(self).wf(),
            old(self)@.is_taken(addr as int, size.spec_index()),
        ensures
            final(self).wf(),
            final(self)@ == old(self)@.after_deallocate(addr as int, size.spec_index()),
            final(self)@.free_bytes() == old(self)@.free_bytes() + size.spec_bytes(),
    {
        let mut block = FreeMemoryBlock::new(addr, size);
        proof {
            lemma_deallocate(self@, addr as int, size.spec_index(), 0, 0);
        }
        loop
            invariant_except_break
                self.wf(),
                self@.is_taken(block.addr as int, block.size.spec_index()),
                self@.after_deallocate(block.addr as int, block.size.spec_index()) == old(
                    self,
                )@.after_deallocate(addr as int, size.spec_index()),
            ensures
                self.lists_ok(),
                self@ == old(self)@.after_deallocate(addr as int, size.spec_index()),
            decreases 9 - block.size.spec_index(),
        {
            let k: usize = block.size.index();
            let ghost before = self@;
            proof {
                if has_buddy(before.base, before.heap, block.addr as int, k as int)
                    && before.bits[pair_index(before.base, block.addr as int, k as int)] {
                    lemma_merge(before, block.addr as int, k as int, 0, 0);
                } else {
                    lemma_insert(before, block.addr as int, k as int, 0, 0);
                }
            }
            let merged = self.lists[k].append(block, &mut self.manager);
            match merged {
                Some(parent) => {
                    proof {
                        let after = before.remove(
                            k as int,
                            buddy_addr(before.base, block.addr as int, k as int) as usize,
                        ).flip(block.addr as int, k as int);
                        assert(self@.lists =~= after.lists);
                        assert(self@ == after);
                    }
                    block = parent;
                },
                None => {
                    proof {
                        let after = before.toggle(block.addr as int, k as int).push(
                            k as int,
                            block.addr,
                        );
                        assert(self@.lists =~= after.lists);
                        assert(self@ == after);
                    }
                    break ;
                },
            }
        }
    }

    /// The class that serves a request of `size` bytes: the smallest class
    /// that is bigger than `size`. Requests of the size of the biggest class
    /// or more are turned down.
    pub fn get_memory_block_size(size: usize) -> (r: Option<BlockSize>)
        ensures
            r.is_none() <==> size >= MAX_BLOCK_SIZE,
            r.is_some() ==> r.unwrap().spec_index() == block_class(size as int),
    {
        if size < 0x1000 {
            Some(BlockSize::Byte4K)
        } else if size < 0x2000 {
            Some(BlockSize::Byte8K)
        } else if size < 0x4000 {
            Some(BlockSize::Byte16K)
        } else if size < 0x8000 {
            Some(BlockSize::Byte32K)
        } else if size < 0x10000 {
            Some(BlockSize::Byte64K)
        } else if size < 0x20000 {
            Some(BlockSize::Byte128K)
        } else if size < 0x40000 {
            Some(BlockSize::Byte256K)
        } else if size < 0x80000 {
            Some(BlockSize::Byte512K)
        } else if size < 0x100000 {
            Some(BlockSize::Byte1024K)
        } else {
            None
        }
    }

    /// Allocates a block for `size` bytes, aligned to `align`.
    ///
    /// Every block starts at a page boundary, so any alignment up to the
    /// page size is met. Returns `None`, and changes nothing, if `size` is
    /// that of the biggest class or more, if `align` is more than the page
    /// size, or if no block of the class or above is free.
    pub fn allocate(&mut self, size: usize, align: usize) -> (r: Option<usize>)
        requires
            old(self).wf(),
        ensures
            final(self).wf(),
            size >= MAX_BLOCK_SIZE || align > PAGE_SIZE ==> r.is_none() && final(self)@ == old(
                self,
            )@,
            size < MAX_BLOCK_SIZE && align <= PAGE_SIZE ==> r == old(self)@.allocate_result(
                block_class(size as int),
            ) && final(self)@ == old(self)@.after_allocate(block_class(size as int)),
            r.is_none() ==> final(self)@ == old(self)@,
            r.is_some() ==> ({
                let addr = r.unwrap() as int;
                let k = block_class(size as int);
                &&& final(self)@.is_taken(addr, k)
                &&& final(self)@.free_bytes() == old(self)@.free_bytes() - class_bytes(k)
                &&& old(self)@.base <= addr
                &&& addr + size < addr + class_bytes(k) <= old(self)@.base + old(self)@.heap
                &&& addr % 4096 == 0
            }),
    {
        if align > PAGE_SIZE {
            return None;
        }
        match Self::get_memory_block_size(size) {
            None => None,
            Some(corresponding_block_size) => {
                proof {
                    lemma_allocate(self@, corresponding_block_size.spec_index(), 0, 0);
                }
                let r = self.allocate_block(corresponding_block_size);
                proof {
                    if r.is_some() {
                        lemma_block_page_aligned(
                            self@.base,
                            self@.heap,
                            r.unwrap() as int,
                            corresponding_block_size.spec_index(),
                        );
                    }
                }
                r
            },
        }
    }

    /// Allocates one page: a block of the smallest class.
    pub fn page_allocate(&mut self) -> (r: Option<usize>)
        requires
            old(self).wf(),
        ensures
            final(self).wf(),
            r == old(self)@.allocate_result(0),
            final(self)@ == old(self)@.after_allocate(0),
            r.is_some() ==> final(self)@.is_taken(r.unwrap() as int, 0) && r.unwrap() % 4096 == 0
                && r.unwrap() + 4096 <= usize::MAX,
    {
        proof {
            lemma_allocate(self@, 0, 0, 0);
        }
        let r = self.allocate_block(BlockSize::Byte4K);
        proof {
            if r.is_some() {
                lemma_block_page_aligned(self@.base, self@.heap, r.unwrap() as int, 0);
            }
        }
        r
    }

    /// Frees the block at `ptr` that was allocated for `size` bytes.
    ///
    /// The block must be a block of the class that serves `size`, and
    /// handed out: freeing anything else is an error of the caller.
    pub fn deallocate(&mut self, ptr: usize, size: usize, align: usize)
        requires
            old(self).wf(),
            size < MAX_BLOCK_SIZE,
            align <= PAGE_SIZE,
            old(self)@.is_taken(ptr as int, block_class(size as int)),
        ensures
            final(self).wf(),
            final(self)@ == old(self)@.after_deallocate(ptr as int, block_class(size as int)),
            final(self)@.free_bytes() == old(self)@.free_bytes() + class_bytes(
                block_class(size as int),
            ),
    {
        let corresponding_block_size = Self::get_memory_block_size(size).unwrap();
        self.deallocate_block(ptr, corresponding_block_size);
    }
}

} // verus!
