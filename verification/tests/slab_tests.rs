use wild_screen_alloc::buddy::{BlockSize, BuddySystem};
use wild_screen_alloc::slab::list::{EmptyList, FullList, List, PartialList};
use wild_screen_alloc::slab::{Cache, FreeObject, ObjectSize, Slab, SlabKind};
use wild_screen_alloc::SlabAllocator;

const BASE: usize = 0x8020_0000;
const MIB: usize = 0x100000;

fn pages_of(cache: &Cache) -> usize {
    cache.full.0.len() + cache.partial.0.len() + cache.empty.0.len()
}

fn free_blocks(buddy: &BuddySystem, size: BlockSize) -> usize {
    buddy.lists[size.index()].blocks.len()
}

#[test]
fn object_size_tables() {
    let bytes = [64, 128, 256, 512, 1024, 2048, 4096];
    for index in 0..7 {
        let size = ObjectSize::from_index(index);
        assert_eq!(size.index(), index);
        assert_eq!(size.bytes(), bytes[index]);
        assert_eq!(size.capacity(), 4096 / bytes[index]);
    }
    assert_eq!(ObjectSize::from_index(0), ObjectSize::Byte64);
    assert_eq!(ObjectSize::from_index(6), ObjectSize::Byte4096);
}

#[test]
fn free_object_keeps_its_address() {
    assert_eq!(FreeObject::new(BASE + 64).addr(), BASE + 64);
}

#[test]
fn slab_new_lists_every_slot_lowest_first() {
    let mut slab = Slab::new(ObjectSize::Byte1024, BASE);
    assert_eq!(slab.kind, SlabKind::Empty);
    assert_eq!(slab.used_bytes, 0);
    assert_eq!(slab.page_addr, BASE);
    assert_eq!(slab.free_obj, vec![BASE + 3072, BASE + 2048, BASE + 1024, BASE]);
    assert_eq!(slab.free_count(), 4);
    assert_eq!(slab.pop().unwrap().addr(), BASE);
    assert_eq!(slab.pop().unwrap().addr(), BASE + 1024);
    assert_eq!(slab.used_bytes, 2048);
}

#[test]
fn slab_new_empty_has_no_slot() {
    let mut slab = Slab::new_empty(SlabKind::Full, ObjectSize::Byte64, BASE);
    assert_eq!(slab.kind, SlabKind::Full);
    assert_eq!(slab.used_bytes, 0);
    assert!(slab.free_obj.is_empty());
    assert!(slab.pop().is_none());
}

#[test]
fn slab_push_and_pop_count_used_bytes() {
    let mut slab = Slab::new(ObjectSize::Byte2048, BASE);
    let first = slab.pop().unwrap();
    let second = slab.pop().unwrap();
    assert_eq!((first.addr(), second.addr()), (BASE, BASE + 2048));
    assert_eq!(slab.used_bytes, 4096);
    assert!(slab.pop().is_none());
    assert_eq!(slab.used_bytes, 4096);
    slab.push(first);
    assert_eq!(slab.used_bytes, 2048);
    assert_eq!(slab.free_obj, vec![BASE]);
    slab.push(second);
    assert_eq!(slab.used_bytes, 0);
    assert_eq!(slab.pop().unwrap().addr(), BASE + 2048);
}

#[test]
fn slab_is_contain_covers_exactly_its_page() {
    let slab = Slab::new(ObjectSize::Byte64, BASE);
    assert!(slab.is_contain(BASE));
    assert!(slab.is_contain(BASE + 4095));
    assert!(!slab.is_contain(BASE + 4096));
    assert!(!slab.is_contain(BASE - 1));
}

#[test]
fn list_new_holds_one_fresh_slab() {
    let list = List::new(ObjectSize::Byte512, BASE);
    assert_eq!(list.len(), 1);
    assert_eq!(list.head_ptr(), Some(BASE));
    assert_eq!(list.slabs[0].free_obj.len(), 8);
    assert_eq!(List::new_empty().len(), 0);
    assert_eq!(List::new_empty().head_ptr(), None);
}

#[test]
fn list_is_last_in_first_out() {
    let mut list = List::new_empty();
    assert!(list.pop_slab().is_none());
    list.push_slab(Slab::new(ObjectSize::Byte64, BASE));
    list.push_slab(Slab::new(ObjectSize::Byte64, BASE + 4096));
    assert_eq!(list.head_ptr(), Some(BASE + 4096));
    assert_eq!(list.pop_slab().unwrap().page_addr, BASE + 4096);
    assert_eq!(list.pop_slab().unwrap().page_addr, BASE);
    assert!(list.pop_slab().is_none());
}

#[test]
fn list_finds_the_slab_of_an_object() {
    let mut list = List::new_empty();
    list.push_slab(Slab::new(ObjectSize::Byte64, BASE));
    list.push_slab(Slab::new(ObjectSize::Byte64, BASE + 8192));
    list.push_slab(Slab::new(ObjectSize::Byte64, BASE + 4096));
    assert_eq!(list.corresponding_position(BASE + 64), Some(0));
    assert_eq!(list.corresponding_slab_ptr(BASE + 64), Some(BASE));
    assert_eq!(list.corresponding_slab_ptr(BASE + 8192 + 4095), Some(BASE + 8192));
    assert_eq!(list.corresponding_slab_ptr(BASE + 3 * 4096), None);
    assert!(list.pop_corresponding_slab(BASE + 3 * 4096).is_none());
    assert_eq!(list.len(), 3);
    let taken = list.pop_corresponding_slab(BASE + 8192 + 128).unwrap();
    assert_eq!(taken.page_addr, BASE + 8192);
    assert_eq!(list.slabs[0].page_addr, BASE);
    assert_eq!(list.slabs[1].page_addr, BASE + 4096);
}

#[test]
fn kind_lists_forward_to_their_list() {
    let mut partial = PartialList::new_empty();
    assert_eq!(partial.head_ptr(), None);
    partial.push_slab(Slab::new(ObjectSize::Byte64, BASE));
    partial.push_slab(Slab::new(ObjectSize::Byte64, BASE + 4096));
    assert_eq!(partial.head_ptr(), Some(BASE + 4096));
    assert_eq!(partial.corresponding_slab_ptr(BASE + 100), Some(BASE));
    assert_eq!(partial.corresponding_slab_ptr(BASE + 8192), None);
    assert_eq!(partial.pop_corresponding_slab(BASE + 100).unwrap().page_addr, BASE);
    assert_eq!(partial.pop_slab().unwrap().page_addr, BASE + 4096);
    assert!(partial.pop_slab().is_none());

    let mut full = FullList::new_empty();
    full.push_slab(Slab::new(ObjectSize::Byte64, BASE));
    assert_eq!(full.corresponding_slab_ptr(BASE + 4095), Some(BASE));
    assert_eq!(full.corresponding_slab_ptr(BASE + 4096), None);
    assert_eq!(full.pop_corresponding_slab(BASE).unwrap().page_addr, BASE);
    assert!(full.pop_slab().is_none());

    let mut empty = EmptyList::new_empty();
    assert!(empty.pop_slab().is_none());
    empty.push_slab(Slab::new(ObjectSize::Byte64, BASE));
    assert_eq!(empty.pop_slab().unwrap().page_addr, BASE);
}

#[test]
fn empty_list_takes_its_pages_from_the_buddy_system() {
    let mut buddy = BuddySystem::new(BASE, 2 * 4096);
    let mut empty = EmptyList::new(ObjectSize::Byte256, &mut buddy);
    assert_eq!(empty.0.len(), 1);
    assert_eq!(empty.0.head_ptr(), Some(BASE));
    assert!(empty.append_new_node(ObjectSize::Byte256, &mut buddy));
    assert_eq!(empty.0.head_ptr(), Some(BASE + 4096));
    assert!(!empty.append_new_node(ObjectSize::Byte256, &mut buddy));
    assert_eq!(empty.0.len(), 2);
    let none = EmptyList::new(ObjectSize::Byte256, &mut buddy);
    assert_eq!(none.0.len(), 0);
}

#[test]
fn cache_starts_without_pages() {
    let cache = Cache::new(ObjectSize::Byte128);
    assert_eq!(cache.object_size, ObjectSize::Byte128);
    assert_eq!(pages_of(&cache), 0);
}

#[test]
fn cache_migrate_marks_and_files_the_slab() {
    let mut cache = Cache::new(ObjectSize::Byte64);
    cache.slab_migrate(Slab::new(ObjectSize::Byte64, BASE), SlabKind::Partial);
    cache.slab_migrate(Slab::new(ObjectSize::Byte64, BASE + 4096), SlabKind::Full);
    cache.slab_migrate(Slab::new(ObjectSize::Byte64, BASE + 8192), SlabKind::Empty);
    assert_eq!(cache.partial.0.slabs[0].kind, SlabKind::Partial);
    assert_eq!(cache.partial.head_ptr(), Some(BASE));
    assert_eq!(cache.full.0.slabs[0].kind, SlabKind::Full);
    assert_eq!(cache.full.0.head_ptr(), Some(BASE + 4096));
    assert_eq!(cache.empty.0.slabs[0].kind, SlabKind::Empty);
    assert_eq!(cache.empty.0.head_ptr(), Some(BASE + 8192));
}

#[test]
fn cache_occupancy_transitions() {
    let mut buddy = BuddySystem::new(BASE, MIB);
    let mut cache = Cache::new(ObjectSize::Byte512);
    let capacity = ObjectSize::Byte512.capacity();
    let mut objects = Vec::new();
    for count in 1..=capacity {
        let addr = cache.allocate(&mut buddy).unwrap();
        assert_eq!(addr, BASE + (count - 1) * 512);
        objects.push(addr);
        if count < capacity {
            assert_eq!(
                (cache.full.0.len(), cache.partial.0.len(), cache.empty.0.len()),
                (0, 1, 0)
            );
            assert_eq!(cache.partial.0.slabs[0].kind, SlabKind::Partial);
            assert_eq!(cache.partial.0.slabs[0].used_bytes, count * 512);
        }
    }
    assert_eq!((cache.full.0.len(), cache.partial.0.len(), cache.empty.0.len()), (1, 0, 0));
    assert_eq!(cache.full.0.slabs[0].kind, SlabKind::Full);
    assert_eq!(cache.full.0.slabs[0].used_bytes, 4096);
    assert_eq!(free_blocks(&buddy, BlockSize::Byte4K), 1);

    // the next allocation needs a new page
    let extra = cache.allocate(&mut buddy).unwrap();
    assert_eq!(extra, BASE + 4096);
    assert_eq!(free_blocks(&buddy, BlockSize::Byte4K), 0);
    assert_eq!((cache.full.0.len(), cache.partial.0.len(), cache.empty.0.len()), (1, 1, 0));
    cache.deallocate(extra);
    assert_eq!((cache.full.0.len(), cache.partial.0.len(), cache.empty.0.len()), (1, 0, 1));

    for (count, addr) in objects.iter().enumerate() {
        cache.deallocate(*addr);
        if count + 1 < capacity {
            assert_eq!(
                (cache.full.0.len(), cache.partial.0.len(), cache.empty.0.len()),
                (0, 1, 1)
            );
            assert_eq!(cache.partial.0.slabs[0].kind, SlabKind::Partial);
        }
    }
    assert_eq!((cache.full.0.len(), cache.partial.0.len(), cache.empty.0.len()), (0, 0, 2));
    assert_eq!(cache.empty.0.slabs[1].kind, SlabKind::Empty);
    assert_eq!(cache.empty.0.slabs[1].page_addr, BASE);
    assert_eq!(cache.empty.0.slabs[1].used_bytes, 0);
}

#[test]
fn cache_of_whole_pages_goes_from_empty_to_full() {
    let mut buddy = BuddySystem::new(BASE, MIB);
    let mut cache = Cache::new(ObjectSize::Byte4096);
    let first = cache.allocate(&mut buddy).unwrap();
    let second = cache.allocate(&mut buddy).unwrap();
    assert_eq!((first, second), (BASE, BASE + 4096));
    assert_eq!((cache.full.0.len(), cache.partial.0.len(), cache.empty.0.len()), (2, 0, 0));
    cache.deallocate(first);
    assert_eq!((cache.full.0.len(), cache.partial.0.len(), cache.empty.0.len()), (1, 0, 1));
    assert_eq!(cache.allocate(&mut buddy), Some(first));
}

#[test]
fn cache_reports_exhaustion() {
    let mut buddy = BuddySystem::new(BASE, 4096);
    let mut cache = Cache::new(ObjectSize::Byte2048);
    assert_eq!(cache.allocate(&mut buddy), Some(BASE));
    assert_eq!(cache.allocate(&mut buddy), Some(BASE + 2048));
    assert_eq!(cache.allocate(&mut buddy), None);
    assert_eq!((cache.full.0.len(), cache.partial.0.len(), cache.empty.0.len()), (1, 0, 0));
    cache.deallocate(BASE);
    assert_eq!(cache.allocate(&mut buddy), Some(BASE));
}

#[test]
fn slab_size_selection() {
    assert_eq!(SlabAllocator::get_slab_size(0, 1), Some(ObjectSize::Byte64));
    assert_eq!(SlabAllocator::get_slab_size(64, 8), Some(ObjectSize::Byte64));
    assert_eq!(SlabAllocator::get_slab_size(65, 8), Some(ObjectSize::Byte128));
    assert_eq!(SlabAllocator::get_slab_size(128, 8), Some(ObjectSize::Byte128));
    assert_eq!(SlabAllocator::get_slab_size(129, 8), Some(ObjectSize::Byte256));
    assert_eq!(SlabAllocator::get_slab_size(257, 8), Some(ObjectSize::Byte512));
    assert_eq!(SlabAllocator::get_slab_size(513, 8), Some(ObjectSize::Byte1024));
    assert_eq!(SlabAllocator::get_slab_size(1025, 8), Some(ObjectSize::Byte2048));
    assert_eq!(SlabAllocator::get_slab_size(2049, 8), Some(ObjectSize::Byte4096));
    assert_eq!(SlabAllocator::get_slab_size(4095, 8), Some(ObjectSize::Byte4096));
    assert_eq!(SlabAllocator::get_slab_size(4096, 8), None);
    // a bigger alignment promotes the request
    assert_eq!(SlabAllocator::get_slab_size(16, 128), Some(ObjectSize::Byte128));
    assert_eq!(SlabAllocator::get_slab_size(100, 1024), Some(ObjectSize::Byte1024));
    assert_eq!(SlabAllocator::get_slab_size(16, 4096), Some(ObjectSize::Byte4096));
    assert_eq!(SlabAllocator::get_slab_size(16, 8192), None);
}

#[test]
fn allocations_are_aligned_and_inside_the_heap() {
    let heap = MIB + 0x3000;
    let mut allocator = SlabAllocator::new(BASE, heap);
    let requests = [
        (1, 1),
        (16, 8),
        (64, 64),
        (65, 16),
        (100, 256),
        (300, 8),
        (1000, 512),
        (2000, 2048),
        (3000, 4096),
        (4095, 1),
        (4096, 4096),
        (10000, 16),
        (0x40000, 4096),
    ];
    for (size, align) in requests.iter() {
        let addr = allocator.allocate(*size, *align).unwrap();
        assert!(addr >= BASE && addr + size <= BASE + heap);
        assert_eq!(addr % align, 0);
        match SlabAllocator::get_slab_size(*size, *align) {
            Some(class) => assert_eq!(addr % class.bytes(), 0),
            None => assert_eq!(addr % 4096, 0),
        }
    }
}

#[test]
fn allocator_rejects_what_it_cannot_serve() {
    let mut allocator = SlabAllocator::new(BASE, 2 * MIB);
    assert_eq!(allocator.allocate(MIB, 8), None);
    assert_eq!(allocator.allocate(16, 8192), None);
    assert_eq!(allocator.allocate(8192, 8192), None);
    assert_eq!(free_blocks(&allocator.page_allocator, BlockSize::Byte1024K), 2);
    for cache in allocator.caches.iter() {
        assert_eq!(pages_of(cache), 0);
    }
    let mut tiny = SlabAllocator::new(BASE, 4096);
    assert_eq!(tiny.allocate(4096, 8), None);
    assert_eq!(tiny.allocate(64, 8), Some(BASE));
    assert_eq!(tiny.allocate(128, 8), None);
}

#[test]
fn freed_object_is_handed_out_again_first() {
    let mut allocator = SlabAllocator::new(BASE, 16 * 4096);
    let first = allocator.allocate(100, 8).unwrap();
    let second = allocator.allocate(100, 8).unwrap();
    assert_eq!(second, first + 128);
    allocator.deallocate(first, 100, 8);
    let third = allocator.allocate(100, 8).unwrap();
    assert_eq!(third, first);
}

#[test]
fn freed_block_is_handed_out_again_first() {
    let mut allocator = SlabAllocator::new(BASE, MIB);
    let first = allocator.allocate(5000, 8).unwrap();
    let second = allocator.allocate(5000, 8).unwrap();
    assert_ne!(first, second);
    allocator.deallocate(first, 5000, 8);
    assert_eq!(allocator.allocate(5000, 8), Some(first));
}

#[test]
fn draining_a_page_asks_for_exactly_one_more() {
    let mut allocator = SlabAllocator::new(BASE, 2 * MIB);
    // the cache gets its first page on first demand, and keeps it
    let first = allocator.allocate(64, 8).unwrap();
    allocator.deallocate(first, 64, 8);
    assert_eq!(pages_of(&allocator.caches[0]), 1);
    assert_eq!(allocator.caches[0].empty.0.len(), 1);
    let top_before = free_blocks(&allocator.page_allocator, BlockSize::Byte1024K);
    let pages_before = free_blocks(&allocator.page_allocator, BlockSize::Byte4K);
    assert_eq!((top_before, pages_before), (1, 1));

    let mut objects = Vec::new();
    for _ in 0..64 {
        objects.push(allocator.allocate(64, 8).unwrap());
    }
    assert_eq!(pages_of(&allocator.caches[0]), 1);
    assert_eq!(allocator.caches[0].full.0.len(), 1);
    assert_eq!(free_blocks(&allocator.page_allocator, BlockSize::Byte4K), pages_before);

    objects.push(allocator.allocate(64, 8).unwrap());
    assert_eq!(pages_of(&allocator.caches[0]), 2);
    assert_eq!(free_blocks(&allocator.page_allocator, BlockSize::Byte4K), pages_before - 1);

    for addr in objects.iter() {
        allocator.deallocate(*addr, 64, 8);
    }
    // both pages stay with the cache, and nothing more was asked for
    assert_eq!(pages_of(&allocator.caches[0]), 2);
    assert_eq!(allocator.caches[0].empty.0.len(), 2);
    assert_eq!(free_blocks(&allocator.page_allocator, BlockSize::Byte4K), pages_before - 1);
    assert_eq!(free_blocks(&allocator.page_allocator, BlockSize::Byte1024K), top_before);
}

#[test]
fn live_objects_never_overlap() {
    let mut allocator = SlabAllocator::new(BASE, MIB);
    let requests = [(24, 8), (100, 8), (64, 64), (3000, 8), (5000, 8), (700, 1024), (64, 8)];
    let mut live: Vec<(usize, usize, usize)> = Vec::new();
    for round in 0..40 {
        let (size, align) = requests[round % requests.len()];
        let addr = allocator.allocate(size, align).unwrap();
        for (other, bytes, _) in live.iter() {
            assert!(addr + size <= *other || *other + *bytes <= addr);
        }
        live.push((addr, size, align));
        if round % 3 == 2 {
            let (addr, size, align) = live.remove(round % live.len());
            allocator.deallocate(addr, size, align);
        }
    }
}

#[test]
fn allocator_round_trip_gives_back_the_state() {
    let mut allocator = SlabAllocator::new(BASE, MIB);
    let keep = allocator.allocate(200, 8).unwrap();
    let snapshot = |allocator: &SlabAllocator| -> (Vec<Vec<usize>>, Vec<u8>, Vec<Vec<Vec<usize>>>) {
        let lists = allocator.page_allocator.lists.iter().map(|l| l.blocks.clone()).collect();
        let bits = allocator.page_allocator.manager.buddy_state.clone();
        let caches = allocator
            .caches
            .iter()
            .map(|cache| {
                let mut slabs = Vec::new();
                for list in [&cache.full.0, &cache.partial.0, &cache.empty.0] {
                    for slab in list.slabs.iter() {
                        slabs.push(slab.free_obj.clone());
                    }
                }
                slabs
            })
            .collect();
        (lists, bits, caches)
    };
    let before = snapshot(&allocator);
    for (size, align) in [(200, 8), (4096, 8), (70000, 4096)] {
        let addr = allocator.allocate(size, align).unwrap();
        allocator.deallocate(addr, size, align);
        assert_eq!(snapshot(&allocator), before);
        assert_eq!(allocator.allocate(size, align), Some(addr));
        allocator.deallocate(addr, size, align);
    }
    // a cache that needs a page keeps it: the buddy system has a page less
    let pages = free_blocks(&allocator.page_allocator, BlockSize::Byte4K);
    let addr = allocator.allocate(64, 8).unwrap();
    allocator.deallocate(addr, 64, 8);
    assert_eq!(free_blocks(&allocator.page_allocator, BlockSize::Byte4K), pages - 1);
    assert_eq!(allocator.caches[0].empty.0.len(), 1);
    assert_eq!(allocator.caches[0].empty.0.slabs[0].free_obj.len(), 64);
    assert_eq!(allocator.allocate(64, 8), Some(addr));
    allocator.deallocate(keep, 200, 8);
}
