//! Free lists of the buddy system.
//!
//! A list holds the start addresses of the free blocks of one class. The
//! block freed last is handed out first.

use vstd::prelude::*;
use crate::buddy::{BlockSize, BuddyManager};
use crate::buddy::geometry::{buddy_addr, is_first_half, lemma_buddy_facts, parent_addr};

verus! {

/// Whether `i` is the first position of `list` that holds `addr`.
pub open spec fn is_first_position(list: Seq<usize>, addr: usize, i: int) -> bool {
    &&& 0 <= i < list.len()
    &&& list[i] == addr
    &&& forall|j: int| 0 <= j < i ==> list[j] != addr
}

/// The first position of `list` that holds `addr`.
pub open spec fn first_position(list: Seq<usize>, addr: usize) -> int {
    choose|i: int| is_first_position(list, addr, i)
}

/// `list` without its first occurrence of `addr`, the others kept in order.
pub open spec fn without(list: Seq<usize>, addr: usize) -> Seq<usize> {
    list.remove(first_position(list, addr))
}

/// A first position is the first position.
pub proof fn lemma_first_position(list: Seq<usize>, addr: usize, i: int)
    requires
        is_first_position(list, addr, i),
    ensures
        first_position(list, addr) == i,
{
    let j = first_position(list, addr);
    assert(is_first_position(list, addr, j));
    if j < i {
        assert(list[j] != addr);
    } else if i < j {
        assert(list[i] != addr);
    }
}

/// A free block: where it starts and which class it belongs to.
#[derive(Copy, Clone, Debug)]
pub struct FreeMemoryBlock {
    /// Address of the first byte of the block.
    pub addr: usize,
    /// Memory block size.
    pub size: BlockSize,
}

impl FreeMemoryBlock {
    /// The block of class `size` that starts at `addr`.
    pub fn new(addr: usize, size: BlockSize) -> (r: Self)
        ensures
            r.addr == addr,
            r.size == size,
    {
        FreeMemoryBlock { addr, size }
    }

    /// Whether this block is the first half of its parent.
    pub fn is_first_half(&self, manager: &BuddyManager) -> (r: bool)
        requires
            manager.wf(),
            manager.pairs(*self),
        ensures
            r == is_first_half(manager.base_addr as int, self.addr as int, self.size.spec_index()),
    {
        let addr_offset: usize = self.addr - manager.base_addr;
        addr_offset % self.size.bigger().bytes() == 0
    }

    /// The other half of this block's parent.
    pub fn get_buddy(&self, manager: &BuddyManager) -> (r: Self)
        requires
            manager.wf(),
            manager.pairs(*self),
        ensures
            r.size == self.size,
            r.addr == buddy_addr(
                manager.base_addr as int,
                self.addr as int,
                self.size.spec_index(),
            ),
            manager.pairs(r),
            parent_addr(manager.base_addr as int, r.addr as int, r.size.spec_index())
                == parent_addr(
                manager.base_addr as int,
                self.addr as int,
                self.size.spec_index(),
            ),
    {
        proof {
            lemma_buddy_facts(
                manager.base_addr as int,
                manager.heap_size as int,
                self.addr as int,
                self.size.spec_index(),
            );
        }
        if self.is_first_half(manager) {
            FreeMemoryBlock { addr: self.addr + self.size.bytes(), size: self.size }
        } else {
            FreeMemoryBlock { addr: self.addr - self.size.bytes(), size: self.size }
        }
    }

    /// The parent of this block: the block of the next class that holds it.
    pub fn get_parent(&self, manager: &BuddyManager) -> (r: Self)
        requires
            manager.wf(),
            manager.pairs(*self),
        ensures
            r.size.spec_index() == self.size.spec_index() + 1,
            r.addr == parent_addr(
                manager.base_addr as int,
                self.addr as int,
                self.size.spec_index(),
            ),
            manager.holds(r),
    {
        proof {
            lemma_buddy_facts(
                manager.base_addr as int,
                manager.heap_size as int,
                self.addr as int,
                self.size.spec_index(),
            );
        }
        if self.is_first_half(manager) {
            FreeMemoryBlock { addr: self.addr, size: self.size.bigger() }
        } else {
            FreeMemoryBlock { addr: self.addr - self.size.bytes(), size: self.size.bigger() }
        }
    }

    /// Records in the bitmap that this block is being freed, and tries to
    /// join it with its buddy.
    ///
    /// A block without a buddy changes nothing and is not joined. Otherwise
    /// the bit of the pair is toggled; if it was set, the buddy is free, and
    /// the parent of the two is returned.
    pub fn try_merge(&self, manager: &mut BuddyManager) -> (r: Option<Self>)
        requires
            old(manager).wf(),
            old(manager).holds(*self),
        ensures
            final(manager).wf(),
            final(manager).base_addr == old(manager).base_addr,
            final(manager).heap_size == old(manager).heap_size,
            !old(manager).pairs(*self) ==> final(manager).bits() == old(manager).bits(),
            old(manager).pairs(*self) ==> final(manager).bits() == old(manager).bits().update(
                old(manager).bit_position(*self),
                !old(manager).bits()[old(manager).bit_position(*self)],
            ),
            r.is_some() == (old(manager).pairs(*self) && old(manager).bits()[old(
                manager,
            ).bit_position(*self)]),
            r.is_some() ==> r.unwrap().size.spec_index() == self.size.spec_index() + 1
                && r.unwrap().addr == parent_addr(
                old(manager).base_addr as int,
                self.addr as int,
                self.size.spec_index(),
            ) && old(manager).holds(r.unwrap()),
    {
        if !manager.has_buddy(self) {
            return None;
        }
        let mergeable: bool = manager.is_mergeable(self);
        manager.flip_buddy_state(self);
        if mergeable {
            Some(self.get_parent(manager))
        } else {
            None
        }
    }
}

/// The free blocks of one class, most recently freed last.
pub struct MemoryBlockList {
    /// Class of the blocks in this list.
    pub block_size: BlockSize,
    /// Start addresses of the free blocks.
    pub blocks: Vec<usize>,
}

impl MemoryBlockList {
    /// Return with empty head.
    pub fn new_empty(block_size: BlockSize) -> (r: Self)
        ensures
            r.block_size == block_size,
            r.blocks@ == Seq::<usize>::empty(),
    {
        MemoryBlockList { block_size, blocks: Vec::new() }
    }

    /// Appends as many blocks of this class as fit into the `remain_size`
    /// bytes at `current_addr`, lowest address first, and returns the
    /// address and the size of what is left over.
    pub fn initialize_greedily(&mut self, current_addr: usize, remain_size: usize) -> (r: (
        usize,
        usize,
    ))
        requires
            current_addr + remain_size <= usize::MAX,
        ensures
            final(self).block_size == old(self).block_size,
            r.1 == remain_size % (old(self).block_size.spec_bytes() as usize),
            r.0 == current_addr + remain_size - r.1,
            final(self).blocks@ == old(self).blocks@ + Seq::new(
                (remain_size as int / old(self).block_size.spec_bytes()) as nat,
                |i: int| (current_addr + i * old(self).block_size.spec_bytes()) as usize,
            ),
    {
        let bytes: usize = self.block_size.bytes();
        let mut current_addr: usize = current_addr;
        let mut remain_size: usize = remain_size;
        let ghost start = current_addr;
        let ghost total = remain_size;
        let ghost mut count: int = 0;
        while remain_size >= bytes
            invariant
                bytes == self.block_size.spec_bytes(),
                bytes > 0,
                self.block_size == old(self).block_size,
                0 <= count,
                current_addr == start + count * bytes,
                total == remain_size + count * bytes,
                start + total <= usize::MAX,
                self.blocks@ == old(self).blocks@ + Seq::new(
                    count as nat,
                    |i: int| (start + i * bytes) as usize,
                ),
            decreases remain_size,
        {
            self.blocks.push(current_addr);
            proof {
                assert((count + 1) * bytes == count * bytes + bytes) by (nonlinear_arith);
                assert(self.blocks@ =~= old(self).blocks@ + Seq::new(
                    (count + 1) as nat,
                    |i: int| (start + i * bytes) as usize,
                ));
                count = count + 1;
            }
            current_addr += bytes;
            remain_size -= bytes;
        }
        proof {
            vstd::arithmetic::div_mod::lemma_fundamental_div_mod_converse(
                total as int,
                bytes as int,
                count,
                remain_size as int,
            );
        }
        (current_addr, remain_size)
    }

    /// Takes the first occurrence of `addr` out of the list.
    pub fn remove(&mut self, addr: usize)
        requires
            old(self).blocks@.contains(addr),
        ensures
            final(self).block_size == old(self).block_size,
            final(self).blocks@ == without(old(self).blocks@, addr),
    {
        let mut i: usize = 0;
        while self.blocks[i] != addr
            invariant
                i < self.blocks.len(),
                self.blocks@ == old(self).blocks@,
                self.block_size == old(self).block_size,
                self.blocks@.contains(addr),
                forall|j: int| 0 <= j < i ==> self.blocks@[j] != addr,
            decreases self.blocks@.len() - i,
        {
            proof {
                let at = choose|at: int| 0 <= at < self.blocks@.len() && self.blocks@[at] == addr;
                assert(at >= i);
                assert(at != i);
            }
            i += 1;
        }
        proof {
            lemma_first_position(self.blocks@, addr, i as int);
        }
        self.blocks.remove(i);
    }

    /// Puts a freed block into the list, or joins it with its buddy.
    ///
    /// The bitmap is told of the freed block first. If that shows the buddy
    /// to be free, the buddy leaves this list and the parent of the two is
    /// returned, to be appended to the list of the next class. Otherwise
    /// the block becomes the new head of this list.
    pub fn append(&mut self, mem_block: FreeMemoryBlock, manager: &mut BuddyManager) -> (r: Option<
        FreeMemoryBlock,
    >)
        requires
            old(manager).wf(),
            old(manager).holds(mem_block),
            old(manager).pairs(mem_block) && old(manager).bits()[old(manager).bit_position(
                mem_block,
            )] ==> old(self).blocks@.contains(
                buddy_addr(
                    old(manager).base_addr as int,
                    mem_block.addr as int,
                    mem_block.size.spec_index(),
                ) as usize,
            ),
        ensures
            final(self).block_size == old(self).block_size,
            final(manager).wf(),
            final(manager).base_addr == old(manager).base_addr,
            final(manager).heap_size == old(manager).heap_size,
            !old(manager).pairs(mem_block) ==> final(manager).bits() == old(manager).bits(),
            old(manager).pairs(mem_block) ==> final(manager).bits() == old(manager).bits().update(
                old(manager).bit_position(mem_block),
                !old(manager).bits()[old(manager).bit_position(mem_block)],
            ),
            r.is_some() == (old(manager).pairs(mem_block) && old(manager).bits()[old(
                manager,
            ).bit_position(mem_block)]),
            r.is_some() ==> r.unwrap().size.spec_index() == mem_block.size.spec_index() + 1
                && r.unwrap().addr == parent_addr(
                old(manager).base_addr as int,
                mem_block.addr as int,
                mem_block.size.spec_index(),
            ) && old(manager).holds(r.unwrap()),
            r.is_some() ==> final(self).blocks@ == without(
                old(self).blocks@,
                buddy_addr(
                    old(manager).base_addr as int,
                    mem_block.addr as int,
                    mem_block.size.spec_index(),
                ) as usize,
            ),
            r.is_none() ==> final(self).blocks@ == old(self).blocks@.push(mem_block.addr),
    {
        let merge_result = mem_block.try_merge(manager);
        if merge_result.is_none() {
            self.blocks.push(mem_block.addr);
        } else {
            let buddy = mem_block.get_buddy(manager);
            self.remove(buddy.addr);
        }
        merge_result
    }

    /// Pop free memory block: the one appended last, if there is any.
    pub fn pop(&mut self) -> (r: Option<FreeMemoryBlock>)
        ensures
            final(self).block_size == old(self).block_size,
            old(self).blocks@.len() == 0 ==> r.is_none() && final(self).blocks@ == old(
                self,
            ).blocks@,
            old(self).blocks@.len() > 0 ==> r.is_some() && r.unwrap().addr == old(
                self,
            ).blocks@.last() && r.unwrap().size == old(self).block_size && final(self).blocks@
                == old(self).blocks@.drop_last(),
    {
        match self.blocks.pop() {
            Some(addr) => Some(FreeMemoryBlock { addr, size: self.block_size }),
            None => None,
        }
    }

    /// Whether the list holds no block.
    pub fn is_empty(&self) -> (r: bool)
        ensures
            r == (self.blocks@.len() == 0),
    {
        self.blocks.len() == 0
    }
}

} // verus!
