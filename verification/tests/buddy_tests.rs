use wild_screen_alloc::buddy::list::{FreeMemoryBlock, MemoryBlockList};
use wild_screen_alloc::buddy::{BlockSize, BuddyManager, BuddySystem};

const BASE: usize = 0x8020_0000;

fn list_of(buddy: &BuddySystem, size: BlockSize) -> Vec<usize> {
    buddy.lists[size.index()].blocks.clone()
}

fn all_bits_clear(buddy: &BuddySystem) -> bool {
    buddy.manager.buddy_state.iter().all(|byte| *byte == 0)
}

#[test]
fn block_size_steps() {
    assert_eq!(BlockSize::Byte8K.smaller(), BlockSize::Byte4K);
    assert_eq!(BlockSize::Byte1024K.smaller(), BlockSize::Byte512K);
    assert_eq!(BlockSize::Byte4K.bigger(), BlockSize::Byte8K);
    assert_eq!(BlockSize::Byte512K.bigger(), BlockSize::Byte1024K);
    assert_eq!(BlockSize::Byte4K.log2(), 12);
    assert_eq!(BlockSize::Byte1024K.log2(), 20);
    assert_eq!(BlockSize::Byte4K.index(), 0);
    assert_eq!(BlockSize::Byte64K.index(), 4);
    assert_eq!(BlockSize::Byte1024K.index(), 8);
    assert_eq!(BlockSize::Byte32K.bytes(), 32768);
    assert_eq!(BlockSize::Byte4K.nodes(), 256);
    assert_eq!(BlockSize::Byte1024K.nodes(), 1);
    for index in 0..9 {
        let size = BlockSize::from_index(index);
        assert_eq!(size.index(), index);
        assert_eq!(size.bytes(), 1usize << size.log2());
        assert_eq!(size.nodes(), 1usize << (8 - index));
    }
}

#[test]
fn memory_block_size_boundaries() {
    assert_eq!(BuddySystem::get_memory_block_size(0), Some(BlockSize::Byte4K));
    assert_eq!(BuddySystem::get_memory_block_size(4095), Some(BlockSize::Byte4K));
    assert_eq!(BuddySystem::get_memory_block_size(4096), Some(BlockSize::Byte8K));
    assert_eq!(BuddySystem::get_memory_block_size(8191), Some(BlockSize::Byte8K));
    assert_eq!(BuddySystem::get_memory_block_size(8192), Some(BlockSize::Byte16K));
    assert_eq!(BuddySystem::get_memory_block_size(0x7ffff), Some(BlockSize::Byte512K));
    assert_eq!(BuddySystem::get_memory_block_size(0x80000), Some(BlockSize::Byte1024K));
    assert_eq!(BuddySystem::get_memory_block_size(0xfffff), Some(BlockSize::Byte1024K));
    assert_eq!(BuddySystem::get_memory_block_size(0x100000), None);
    assert_eq!(BuddySystem::get_memory_block_size(usize::MAX), None);
}

#[test]
fn manager_starts_clear() {
    let manager = BuddyManager::new(BASE, 3 * 0x100000 + 5000);
    assert_eq!(manager.base_addr, BASE);
    assert_eq!(manager.heap_size, 3 * 0x100000 + 4096);
    assert_eq!(manager.buddy_state.len(), 4 * 32);
    assert!(manager.buddy_state.iter().all(|byte| *byte == 0));
    assert!(!manager.get_state(0));
    assert!(!manager.get_state(4 * 256 - 1));
}

#[test]
fn manager_flip_state_touches_one_bit() {
    let mut manager = BuddyManager::new(BASE, 0x100000);
    manager.flip_state(13);
    for index in 0..256 {
        assert_eq!(manager.get_state(index), index == 13);
    }
    assert_eq!(manager.buddy_state[1], 0b0010_0000);
    manager.flip_state(13);
    assert!(manager.buddy_state.iter().all(|byte| *byte == 0));
}

#[test]
fn manager_node_numbers() {
    let manager = BuddyManager::new(BASE, 2 * 0x100000);
    let top = FreeMemoryBlock::new(BASE, BlockSize::Byte1024K);
    assert_eq!(manager.ptr_to_index(&top), 1);
    let second_tree = FreeMemoryBlock::new(BASE + 0x100000, BlockSize::Byte1024K);
    assert_eq!(manager.ptr_to_index(&second_tree), 512 + 1);
    let half = FreeMemoryBlock::new(BASE + 0x80000, BlockSize::Byte512K);
    assert_eq!(manager.ptr_to_index(&half), 3);
    let page = FreeMemoryBlock::new(BASE + 5 * 4096, BlockSize::Byte4K);
    assert_eq!(manager.ptr_to_index(&page), 256 + 5);
    let page_far = FreeMemoryBlock::new(BASE + 0x100000 + 255 * 4096, BlockSize::Byte4K);
    assert_eq!(manager.ptr_to_index(&page_far), 512 + 256 + 255);
}

#[test]
fn manager_buddies_share_a_bit() {
    let mut manager = BuddyManager::new(BASE, 0x100000);
    let first = FreeMemoryBlock::new(BASE + 8 * 4096, BlockSize::Byte4K);
    let second = FreeMemoryBlock::new(BASE + 9 * 4096, BlockSize::Byte4K);
    let other = FreeMemoryBlock::new(BASE + 10 * 4096, BlockSize::Byte4K);
    assert!(manager.has_buddy(&first));
    assert!(!manager.is_mergeable(&first));
    manager.flip_buddy_state(&first);
    assert!(manager.is_mergeable(&first));
    assert!(manager.is_mergeable(&second));
    assert!(!manager.is_mergeable(&other));
    assert!(manager.get_state(128 + 4));
    manager.flip_buddy_state(&second);
    assert!(!manager.is_mergeable(&first));
}

#[test]
fn manager_has_buddy_only_inside_the_heap() {
    let manager = BuddyManager::new(BASE, 3 * 4096);
    assert!(manager.has_buddy(&FreeMemoryBlock::new(BASE, BlockSize::Byte4K)));
    assert!(manager.has_buddy(&FreeMemoryBlock::new(BASE + 4096, BlockSize::Byte4K)));
    assert!(!manager.has_buddy(&FreeMemoryBlock::new(BASE + 2 * 4096, BlockSize::Byte4K)));
    assert!(!manager.has_buddy(&FreeMemoryBlock::new(BASE, BlockSize::Byte8K)));
    let big = BuddyManager::new(BASE, 0x100000);
    assert!(!big.has_buddy(&FreeMemoryBlock::new(BASE, BlockSize::Byte1024K)));
}

#[test]
fn free_block_relatives() {
    let manager = BuddyManager::new(BASE, 0x100000);
    let first = FreeMemoryBlock::new(BASE + 0x4000, BlockSize::Byte8K);
    let second = FreeMemoryBlock::new(BASE + 0x6000, BlockSize::Byte8K);
    assert!(first.is_first_half(&manager));
    assert!(!second.is_first_half(&manager));
    assert_eq!(first.get_buddy(&manager).addr, BASE + 0x6000);
    assert_eq!(second.get_buddy(&manager).addr, BASE + 0x4000);
    assert_eq!(first.get_parent(&manager).addr, BASE + 0x4000);
    assert_eq!(second.get_parent(&manager).addr, BASE + 0x4000);
    assert_eq!(second.get_parent(&manager).size, BlockSize::Byte16K);
}

#[test]
fn try_merge_toggles_and_joins() {
    let mut manager = BuddyManager::new(BASE, 0x100000);
    let first = FreeMemoryBlock::new(BASE, BlockSize::Byte4K);
    let second = FreeMemoryBlock::new(BASE + 4096, BlockSize::Byte4K);
    assert!(first.try_merge(&mut manager).is_none());
    assert!(manager.is_mergeable(&second));
    let parent = second.try_merge(&mut manager).unwrap();
    assert_eq!(parent.addr, BASE);
    assert_eq!(parent.size, BlockSize::Byte8K);
    assert!(!manager.is_mergeable(&first));
    let top = FreeMemoryBlock::new(BASE, BlockSize::Byte1024K);
    assert!(top.try_merge(&mut manager).is_none());
    assert!(manager.buddy_state.iter().all(|byte| *byte == 0));
}

#[test]
fn list_initialize_greedily() {
    let mut list = MemoryBlockList::new_empty(BlockSize::Byte8K);
    let rest = list.initialize_greedily(BASE, 3 * 8192 + 100);
    assert_eq!(rest, (BASE + 3 * 8192, 100));
    assert_eq!(list.blocks, vec![BASE, BASE + 8192, BASE + 2 * 8192]);
    let mut small = MemoryBlockList::new_empty(BlockSize::Byte8K);
    assert_eq!(small.initialize_greedily(BASE, 8191), (BASE, 8191));
    assert!(small.is_empty());
}

#[test]
fn list_pop_is_last_in_first_out() {
    let mut list = MemoryBlockList::new_empty(BlockSize::Byte4K);
    assert!(list.pop().is_none());
    list.initialize_greedily(BASE, 2 * 4096);
    let head = list.pop().unwrap();
    assert_eq!(head.addr, BASE + 4096);
    assert_eq!(head.size, BlockSize::Byte4K);
    assert_eq!(list.pop().unwrap().addr, BASE);
    assert!(list.pop().is_none());
}

#[test]
fn list_remove_takes_first_occurrence() {
    let mut list = MemoryBlockList::new_empty(BlockSize::Byte4K);
    list.initialize_greedily(BASE, 3 * 4096);
    list.remove(BASE + 4096);
    assert_eq!(list.blocks, vec![BASE, BASE + 2 * 4096]);
}

#[test]
fn list_append_joins_with_free_buddy() {
    let mut manager = BuddyManager::new(BASE, 0x100000);
    let mut list = MemoryBlockList::new_empty(BlockSize::Byte4K);
    let first = FreeMemoryBlock::new(BASE, BlockSize::Byte4K);
    let second = FreeMemoryBlock::new(BASE + 4096, BlockSize::Byte4K);
    assert!(list.append(second, &mut manager).is_none());
    assert_eq!(list.blocks, vec![BASE + 4096]);
    let parent = list.append(first, &mut manager).unwrap();
    assert_eq!((parent.addr, parent.size), (BASE, BlockSize::Byte8K));
    assert!(list.is_empty());
}

#[test]
fn new_partitions_eight_pages_into_one_block() {
    let buddy = BuddySystem::new(BASE, 32768);
    for index in 0..9 {
        let size = BlockSize::from_index(index);
        if size == BlockSize::Byte32K {
            assert_eq!(list_of(&buddy, size), vec![BASE]);
        } else {
            assert!(list_of(&buddy, size).is_empty());
        }
    }
    assert_eq!(buddy.manager.heap_size, 32768);
    assert_eq!(buddy.manager.buddy_state.len(), 32);
    assert!(all_bits_clear(&buddy));
}

#[test]
fn new_partitions_greedily() {
    // 2 MiB + 64 KiB + 8 KiB + 4 KiB, and 100 bytes that fill no page
    let heap = 2 * 0x100000 + 0x10000 + 0x2000 + 0x1000 + 100;
    let buddy = BuddySystem::new(BASE, heap);
    assert_eq!(list_of(&buddy, BlockSize::Byte1024K), vec![BASE, BASE + 0x100000]);
    assert!(list_of(&buddy, BlockSize::Byte512K).is_empty());
    assert!(list_of(&buddy, BlockSize::Byte128K).is_empty());
    assert_eq!(list_of(&buddy, BlockSize::Byte64K), vec![BASE + 0x200000]);
    assert!(list_of(&buddy, BlockSize::Byte32K).is_empty());
    assert!(list_of(&buddy, BlockSize::Byte16K).is_empty());
    assert_eq!(list_of(&buddy, BlockSize::Byte8K), vec![BASE + 0x210000]);
    assert_eq!(list_of(&buddy, BlockSize::Byte4K), vec![BASE + 0x212000]);
    assert_eq!(buddy.manager.heap_size, heap - 100);
}

#[test]
fn new_empty_has_no_free_block() {
    let mut buddy = BuddySystem::new_empty(BASE, 0x100000);
    for index in 0..9 {
        assert!(buddy.lists[index].is_empty());
        assert_eq!(buddy.lists[index].block_size, BlockSize::from_index(index));
    }
    assert_eq!(buddy.allocate_block(BlockSize::Byte4K), None);
}

#[test]
fn allocate_splits_down_from_the_top() {
    let mut buddy = BuddySystem::new(BASE, 0x100000);
    assert_eq!(buddy.allocate_block(BlockSize::Byte4K), Some(BASE));
    for index in 0..8 {
        let size = BlockSize::from_index(index);
        assert_eq!(list_of(&buddy, size), vec![BASE + size.bytes()]);
    }
    assert!(list_of(&buddy, BlockSize::Byte1024K).is_empty());
    // one bit per class below the top: nodes 128, 64, 32, 16, 8, 4, 2, 1
    for index in 0..256 {
        let expected = [1, 2, 4, 8, 16, 32, 64, 128].contains(&index);
        assert_eq!(buddy.manager.get_state(index), expected);
    }
    assert_eq!(buddy.allocate_block(BlockSize::Byte4K), Some(BASE + 4096));
    assert!(!buddy.manager.get_state(128));
    assert_eq!(buddy.allocate_block(BlockSize::Byte8K), Some(BASE + 8192));
    assert_eq!(buddy.allocate_block(BlockSize::Byte4K), Some(BASE + 0x4000));
}

#[test]
fn allocate_returns_none_when_exhausted() {
    let mut buddy = BuddySystem::new(BASE, 2 * 4096);
    assert_eq!(buddy.allocate_block(BlockSize::Byte16K), None);
    assert_eq!(list_of(&buddy, BlockSize::Byte8K), vec![BASE]);
    assert_eq!(buddy.allocate_block(BlockSize::Byte4K), Some(BASE));
    assert_eq!(buddy.allocate_block(BlockSize::Byte4K), Some(BASE + 4096));
    assert_eq!(buddy.allocate_block(BlockSize::Byte4K), None);
    assert_eq!(buddy.page_allocate(), None);
}

#[test]
fn allocate_by_bytes_rejects_what_it_cannot_serve() {
    let mut buddy = BuddySystem::new(BASE, 2 * 0x100000);
    assert_eq!(buddy.allocate(0x100000, 8), None);
    assert_eq!(buddy.allocate(4096, 8192), None);
    assert_eq!(list_of(&buddy, BlockSize::Byte1024K), vec![BASE, BASE + 0x100000]);
    assert!(all_bits_clear(&buddy));
    assert_eq!(buddy.allocate(0xfffff, 4096), Some(BASE + 0x100000));
    assert_eq!(buddy.allocate(4096, 8), Some(BASE));
    assert_eq!(list_of(&buddy, BlockSize::Byte8K), vec![BASE + 0x2000]);
}

#[test]
fn deallocate_joins_buddies_up_to_the_root() {
    let mut buddy = BuddySystem::new(BASE, 0x100000);
    let first = buddy.allocate_block(BlockSize::Byte4K).unwrap();
    let second = buddy.allocate_block(BlockSize::Byte4K).unwrap();
    buddy.deallocate_block(first, BlockSize::Byte4K);
    assert_eq!(list_of(&buddy, BlockSize::Byte4K), vec![first]);
    assert!(buddy.manager.get_state(128));
    buddy.deallocate_block(second, BlockSize::Byte4K);
    for index in 0..8 {
        assert!(list_of(&buddy, BlockSize::from_index(index)).is_empty());
    }
    assert_eq!(list_of(&buddy, BlockSize::Byte1024K), vec![BASE]);
    assert!(all_bits_clear(&buddy));
}

#[test]
fn deallocate_never_joins_a_root_with_what_lies_beyond_the_heap() {
    let mut buddy = BuddySystem::new(BASE, 3 * 4096);
    assert_eq!(list_of(&buddy, BlockSize::Byte8K), vec![BASE]);
    assert_eq!(list_of(&buddy, BlockSize::Byte4K), vec![BASE + 0x2000]);
    let page = buddy.allocate_block(BlockSize::Byte4K).unwrap();
    assert_eq!(page, BASE + 0x2000);
    let pair = buddy.allocate_block(BlockSize::Byte8K).unwrap();
    buddy.deallocate_block(page, BlockSize::Byte4K);
    buddy.deallocate_block(pair, BlockSize::Byte8K);
    assert_eq!(list_of(&buddy, BlockSize::Byte8K), vec![BASE]);
    assert_eq!(list_of(&buddy, BlockSize::Byte4K), vec![BASE + 0x2000]);
    assert!(list_of(&buddy, BlockSize::Byte16K).is_empty());
    assert!(all_bits_clear(&buddy));
}

#[test]
fn round_trip_restores_lists_and_bitmap() {
    let mut buddy = BuddySystem::new(BASE, 3 * 0x100000 + 0x30000);
    let keep = buddy.allocate_block(BlockSize::Byte16K).unwrap();
    let lists: Vec<Vec<usize>> = buddy.lists.iter().map(|list| list.blocks.clone()).collect();
    let bits = buddy.manager.buddy_state.clone();
    for index in 0..9 {
        let size = BlockSize::from_index(index);
        let addr = buddy.allocate_block(size).unwrap();
        buddy.deallocate_block(addr, size);
        let now: Vec<Vec<usize>> = buddy.lists.iter().map(|list| list.blocks.clone()).collect();
        assert_eq!(now, lists);
        assert_eq!(buddy.manager.buddy_state, bits);
        assert_eq!(buddy.allocate_block(size), Some(addr));
        buddy.deallocate_block(addr, size);
    }
    buddy.deallocate_block(keep, BlockSize::Byte16K);
}

#[test]
fn allocating_and_freeing_every_block_of_a_class_restores_the_heap() {
    for index in 0..9 {
        let size = BlockSize::from_index(index);
        let heap = 2 * 0x100000;
        let mut buddy = BuddySystem::new(BASE, heap);
        let lists: Vec<Vec<usize>> = buddy.lists.iter().map(|list| list.blocks.clone()).collect();
        let mut taken = Vec::new();
        while let Some(addr) = buddy.allocate_block(size) {
            taken.push(addr);
        }
        assert_eq!(taken.len(), heap / size.bytes());
        for list in buddy.lists.iter() {
            assert!(list.is_empty());
        }
        while let Some(addr) = taken.pop() {
            buddy.deallocate_block(addr, size);
        }
        let now: Vec<Vec<usize>> = buddy.lists.iter().map(|list| list.blocks.clone()).collect();
        assert_eq!(now, lists);
        assert!(all_bits_clear(&buddy));
    }
}

#[test]
fn live_blocks_never_overlap() {
    let mut buddy = BuddySystem::new(BASE, 0x100000 + 0x6000);
    let sizes = [
        BlockSize::Byte4K,
        BlockSize::Byte64K,
        BlockSize::Byte8K,
        BlockSize::Byte4K,
        BlockSize::Byte512K,
        BlockSize::Byte16K,
        BlockSize::Byte4K,
        BlockSize::Byte256K,
    ];
    let mut live: Vec<(usize, usize)> = Vec::new();
    for round in 0..4 {
        for size in sizes.iter() {
            if let Some(addr) = buddy.allocate_block(*size) {
                assert!(addr >= BASE && addr + size.bytes() <= BASE + 0x100000 + 0x6000);
                assert_eq!((addr - BASE) % size.bytes(), 0);
                for (other, bytes) in live.iter() {
                    assert!(addr + size.bytes() <= *other || *other + *bytes <= addr);
                }
                live.push((addr, size.bytes()));
            }
        }
        let mut at = round;
        while at < live.len() {
            let (addr, bytes) = live.remove(at);
            let size = BuddySystem::get_memory_block_size(bytes / 2).unwrap();
            assert_eq!(size.bytes(), bytes);
            buddy.deallocate_block(addr, size);
            at += 2;
        }
    }
}

#[test]
fn free_bytes_follow_allocations() {
    let mut buddy = BuddySystem::new(BASE, 0x100000);
    let free = |buddy: &BuddySystem| -> usize {
        buddy.lists.iter().map(|list| list.blocks.len() * list.block_size.bytes()).sum()
    };
    assert_eq!(free(&buddy), 0x100000);
    let a = buddy.allocate(5000, 16).unwrap();
    assert_eq!(free(&buddy), 0x100000 - 8192);
    let b = buddy.allocate(100, 16).unwrap();
    assert_eq!(free(&buddy), 0x100000 - 8192 - 4096);
    buddy.deallocate(a, 5000, 16);
    assert_eq!(free(&buddy), 0x100000 - 4096);
    buddy.deallocate(b, 100, 16);
    assert_eq!(free(&buddy), 0x100000);
}

#[test]
fn freeing_in_allocation_order_restores_the_blocks() {
    let mut buddy = BuddySystem::new(BASE, 2 * 0x100000);
    let first = buddy.allocate_block(BlockSize::Byte1024K).unwrap();
    let second = buddy.allocate_block(BlockSize::Byte1024K).unwrap();
    assert_eq!((first, second), (BASE + 0x100000, BASE));
    buddy.deallocate_block(first, BlockSize::Byte1024K);
    buddy.deallocate_block(second, BlockSize::Byte1024K);
    // the same blocks are free again, the one freed last at the head
    assert_eq!(list_of(&buddy, BlockSize::Byte1024K), vec![BASE + 0x100000, BASE]);
    assert!(all_bits_clear(&buddy));

    let mut pages = Vec::new();
    while let Some(addr) = buddy.allocate_block(BlockSize::Byte4K) {
        pages.push(addr);
    }
    assert_eq!(pages.len(), 512);
    for addr in pages.iter() {
        buddy.deallocate_block(*addr, BlockSize::Byte4K);
    }
    let mut top = list_of(&buddy, BlockSize::Byte1024K);
    top.sort();
    assert_eq!(top, vec![BASE, BASE + 0x100000]);
    for index in 0..8 {
        assert!(list_of(&buddy, BlockSize::from_index(index)).is_empty());
    }
    assert!(all_bits_clear(&buddy));
}

#[test]
fn split_request_frees_the_second_halves() {
    let mut buddy = BuddySystem::new(BASE, 0x100000);
    let parent = buddy.take(BlockSize::Byte1024K).unwrap();
    assert_eq!((parent.addr, parent.size), (BASE, BlockSize::Byte1024K));
    let block = buddy.split_request(parent, BlockSize::Byte256K);
    assert_eq!((block.addr, block.size), (BASE, BlockSize::Byte256K));
    assert_eq!(list_of(&buddy, BlockSize::Byte512K), vec![BASE + 0x80000]);
    assert_eq!(list_of(&buddy, BlockSize::Byte256K), vec![BASE + 0x40000]);
    assert!(list_of(&buddy, BlockSize::Byte128K).is_empty());
    assert!(buddy.manager.get_state(1));
    assert!(buddy.manager.get_state(2));
    assert!(!buddy.manager.get_state(3));
    assert!(buddy.take(BlockSize::Byte1024K).is_none());
}
