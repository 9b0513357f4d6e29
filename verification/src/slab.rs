//! The slab tier: pages of fixed-size objects.
//!
//! A slab is one page cut into slots of one object size. A cache owns the
//! slabs of one object size, sorted into three lists by how many of their
//! slots are handed out, and asks the buddy system for a page when it has
//! no free slot left. Pages that a cache has asked for stay with it.

pub mod laws;
pub mod list;
pub mod state;

use vstd::prelude::*;
use crate::buddy::BuddySystem;
use crate::buddy::geometry::block_class;
use crate::buddy::laws::lemma_allocations_apart;
use crate::buddy::state::{apart, fresh_state, lemma_allocate, lemma_deallocate};
use crate::constants::PAGE_SIZE;
use crate::slab::laws::lemma_page_fits;
use crate::slab::list::{EmptyList, FullList, PartialList};
use crate::slab::state::{
    AllocatorState,
    CacheState,
    SlabState,
    fresh_slab,
    is_alignment,
    lemma_aligned_to_smaller,
    lemma_allocate_pages,
    lemma_deallocate_keeps_pages,
    lemma_deallocate_pages,
    lemma_fresh_slab,
    lemma_owner_after_settle,
    lemma_owner_is_slab,
    lemma_settled,
    lemma_slot_aligned,
    lemma_used_slot_leaves_room,
    lemma_without_owner,
    lemma_without_source,
    slab_class,
};

verus! {

/// Bytes in an object of the class with index `k` (0 for 64 bytes, 6 for
/// 4096 bytes).
pub open spec fn object_bytes(k: int) -> int {
    if k <= 0 {
        64
    } else if k == 1 {
        128
    } else if k == 2 {
        256
    } else if k == 3 {
        512
    } else if k == 4 {
        1024
    } else if k == 5 {
        2048
    } else {
        4096
    }
}

/// Number of objects of the class with index `k` in one page.
pub open spec fn page_capacity(k: int) -> int {
    if k <= 0 {
        64
    } else if k == 1 {
        32
    } else if k == 2 {
        16
    } else if k == 3 {
        8
    } else if k == 4 {
        4
    } else if k == 5 {
        2
    } else {
        1
    }
}

/// An enum that indicate size of objects managed by the Slab cache.
#[derive(Copy, Clone, Debug, PartialEq, Eq, Structural)]
pub enum ObjectSize {
    Byte64,
    Byte128,
    Byte256,
    Byte512,
    Byte1024,
    Byte2048,
    Byte4096,
}

impl ObjectSize {
    /// Position of the class, counted from the smallest.
    pub open spec fn spec_index(self) -> int {
        match self {
            Self::Byte64 => 0,
            Self::Byte128 => 1,
            Self::Byte256 => 2,
            Self::Byte512 => 3,
            Self::Byte1024 => 4,
            Self::Byte2048 => 5,
            Self::Byte4096 => 6,
        }
    }

    /// Bytes in an object of this class.
    pub open spec fn spec_bytes(self) -> int {
        object_bytes(self.spec_index())
    }

    /// Number of objects of this class in one page.
    pub open spec fn spec_capacity(self) -> int {
        page_capacity(self.spec_index())
    }

    /// Position of the class, counted from the smallest.
    pub fn index(&self) -> (r: usize)
        ensures
            r == self.spec_index(),
            r < 7,
    {
        match self {
            Self::Byte64 => 0,
            Self::Byte128 => 1,
            Self::Byte256 => 2,
            Self::Byte512 => 3,
            Self::Byte1024 => 4,
            Self::Byte2048 => 5,
            Self::Byte4096 => 6,
        }
    }

    /// Bytes in an object of this class.
    pub fn bytes(&self) -> (r: usize)
        ensures
            r == self.spec_bytes(),
            64 <= r <= 4096,
    {
        match self {
            Self::Byte64 => 64,
            Self::Byte128 => 128,
            Self::Byte256 => 256,
            Self::Byte512 => 512,
            Self::Byte1024 => 1024,
            Self::Byte2048 => 2048,
            Self::Byte4096 => 4096,
        }
    }

    /// Number of objects of this class in one page.
    pub fn capacity(&self) -> (r: usize)
        ensures
            r == self.spec_capacity(),
            1 <= r <= 64,
            r * self.spec_bytes() == 4096,
    {
        match self {
            Self::Byte64 => 64,
            Self::Byte128 => 32,
            Self::Byte256 => 16,
            Self::Byte512 => 8,
            Self::Byte1024 => 4,
            Self::Byte2048 => 2,
            Self::Byte4096 => 1,
        }
    }

    /// The class at position `index`.
    pub fn from_index(index: usize) -> (r: Self)
        requires
            index < 7,
        ensures
            r.spec_index() == index,
    {
        if index == 0 {
            Self::Byte64
        } else if index == 1 {
            Self::Byte128
        } else if index == 2 {
            Self::Byte256
        } else if index == 3 {
            Self::Byte512
        } else if index == 4 {
            Self::Byte1024
        } else if index == 5 {
            Self::Byte2048
        } else {
            Self::Byte4096
        }
    }
}

/// A page holds a whole number of objects of each class.
pub proof fn lemma_capacity(size: ObjectSize)
    ensures
        size.spec_capacity() * size.spec_bytes() == 4096,
        64 <= size.spec_bytes() <= 4096,
        1 <= size.spec_capacity() <= 64,
{
}

/// Type of Slab
#[derive(Copy, Clone, Debug, PartialEq, Eq, Structural)]
pub enum SlabKind {
    /// All objects are allocated.
    Full,
    /// Some objects are allocated.
    Partial,
    /// No objects are allocated.
    Empty,
}

/// A slot that is not handed out.
#[derive(Copy, Clone, Debug)]
pub struct FreeObject {
    /// Address of the first byte of the slot.
    pub addr: usize,
}

impl FreeObject {
    /// The free slot at `addr`.
    pub fn new(addr: usize) -> (r: Self)
        ensures
            r.addr == addr,
    {
        FreeObject { addr }
    }

    /// Return address itself.
    pub fn addr(&self) -> (r: usize)
        ensures
            r == self.addr,
    {
        self.addr
    }
}

/// Slab (= 1 PAGE memory block)
pub struct Slab {
    /// Slab kind.
    pub kind: SlabKind,
    /// Managing object size.
    pub obj_size: ObjectSize,
    /// Used size (unit: byte).
    pub used_bytes: usize,
    /// Address of the page that holds the objects.
    pub page_addr: usize,
    /// Free slots; the last one is the head of the list.
    pub free_obj: Vec<usize>,
}

impl View for Slab {
    type V = SlabState;

    open spec fn view(&self) -> SlabState {
        SlabState {
            kind: self.kind,
            obj_size: self.obj_size,
            used_bytes: self.used_bytes as int,
            page: self.page_addr as int,
            free: self.free_obj@,
        }
    }
}

impl Slab {
    /// Return empty object Slab: one without any free slot, and without a
    /// used byte.
    pub fn new_empty(kind: SlabKind, obj_size: ObjectSize, page_addr: usize) -> (r: Self)
        ensures
            r@ == (SlabState {
                kind,
                obj_size,
                used_bytes: 0,
                page: page_addr as int,
                free: Seq::<usize>::empty(),
            }),
    {
        Slab { kind, obj_size, used_bytes: 0, page_addr, free_obj: Vec::new() }
    }

    /// Initialize free objects list and return new slab on the page at
    /// `page_addr`.
    pub fn new(object_size: ObjectSize, page_addr: usize) -> (r: Self)
        requires
            page_addr % PAGE_SIZE == 0,
            page_addr + PAGE_SIZE <= usize::MAX,
        ensures
            r@ == fresh_slab(object_size, page_addr as int),
            r@.wf(),
    {
        let num_of_object: usize = object_size.capacity();
        let bytes: usize = object_size.bytes();
        let mut new_slab = Self::new_empty(SlabKind::Empty, object_size, page_addr);
        let mut off: usize = num_of_object;
        while off > 0
            invariant
                off <= num_of_object,
                num_of_object == object_size.spec_capacity(),
                bytes == object_size.spec_bytes(),
                num_of_object * bytes == 4096,
                page_addr + 4096 <= usize::MAX,
                new_slab.kind == SlabKind::Empty,
                new_slab.obj_size == object_size,
                new_slab.used_bytes == 0,
                new_slab.page_addr == page_addr,
                new_slab.free_obj@ == Seq::new(
                    (num_of_object - off) as nat,
                    |i: int| (page_addr + (num_of_object - 1 - i) * bytes) as usize,
                ),
            decreases off,
        {
            off -= 1;
            assert(0 <= off * bytes && off * bytes + bytes <= num_of_object * bytes)
                by (nonlinear_arith)
                requires
                    0 <= off < num_of_object,
                    bytes > 0,
            ;
            new_slab.free_obj.push(page_addr + off * bytes);
            assert(new_slab.free_obj@ =~= Seq::new(
                (num_of_object - off) as nat,
                |i: int| (page_addr + (num_of_object - 1 - i) * bytes) as usize,
            ));
        }
        proof {
            lemma_fresh_slab(object_size, page_addr as int);
            assert(new_slab@.free =~= fresh_slab(object_size, page_addr as int).free);
        }
        new_slab
    }

    /// Push new free object: the slot at `obj` is given back to the slab
    /// and will be handed out first.
    pub fn push(&mut self, obj: FreeObject)
        requires
            old(self)@.wf(),
            old(self)@.is_used(obj.addr as int),
        ensures
            final(self)@ == old(self)@.pushed(obj.addr),
            final(self)@.wf(),
    {
        proof {
            lemma_used_slot_leaves_room(self@, obj.addr as int);
            let cap = self@.obj_size.spec_capacity();
            let n = self@.free.len() as int;
            let b = self@.obj_size.spec_bytes();
            lemma_capacity(self@.obj_size);
            assert((cap - n) * b == (cap - (n + 1)) * b + b) by (nonlinear_arith);
            assert(0 <= (cap - (n + 1)) * b) by (nonlinear_arith)
                requires
                    n < cap,
                    b > 0,
            ;
        }
        self.free_obj.push(obj.addr);
        self.used_bytes -= self.obj_size.bytes();
    }

    /// Pop free object: the free slot given back last is handed out.
    pub fn pop(&mut self) -> (r: Option<FreeObject>)
        requires
            old(self)@.wf(),
        ensures
            old(self)@.free.len() == 0 ==> r.is_none() && final(self)@ == old(self)@,
            old(self)@.free.len() > 0 ==> r.is_some() && r.unwrap().addr == old(self)@.free.last()
                && final(self)@ == old(self)@.popped(),
            final(self)@.wf(),
            r.is_some() ==> final(self)@.is_used(r.unwrap().addr as int),
    {
        proof {
            let cap = self@.obj_size.spec_capacity();
            let n = self@.free.len() as int;
            let b = self@.obj_size.spec_bytes();
            lemma_capacity(self@.obj_size);
            assert((cap - (n - 1)) * b == (cap - n) * b + b) by (nonlinear_arith);
            if n >= 1 {
                assert((cap - (n - 1)) * b <= cap * b) by (nonlinear_arith)
                    requires
                        n >= 1,
                        b > 0,
                ;
            }
        }
        match self.free_obj.pop() {
            Some(addr) => {
                self.used_bytes += self.obj_size.bytes();
                Some(FreeObject { addr })
            },
            None => None,
        }
    }

    /// Whether `obj_addr` lies in the page of this slab.
    pub fn is_contain(&self, obj_addr: usize) -> (r: bool)
        ensures
            r == self@.contains(obj_addr as int),
    {
        let slab_start: usize = self.page_addr;
        slab_start <= obj_addr && obj_addr - slab_start < PAGE_SIZE
    }

    /// Number of free slots.
    pub fn free_count(&self) -> (r: usize)
        ensures
            r == self@.free.len(),
    {
        self.free_obj.len()
    }
}

/// Cache that contains slab lists.
///
/// It has three lists to match `SlabKind`.
pub struct Cache {
    /// Size of object. (e.g. 64byte, 128byte)
    pub object_size: ObjectSize,
    /// All objects are allocated.
    pub full: FullList,
    /// Some objects are allocated.
    pub partial: PartialList,
    /// None of objects are allocated.
    pub empty: EmptyList,
}

impl View for Cache {
    type V = CacheState;

    open spec fn view(&self) -> CacheState {
        CacheState {
            obj_size: self.object_size,
            full: self.full@,
            partial: self.partial@,
            empty: self.empty@,
        }
    }
}

impl Cache {
    /// Create new slab cache, without any slab: the first page is asked for
    /// when the first object is.
    pub fn new(object_size: ObjectSize) -> (r: Self)
        ensures
            r@ == (CacheState {
                obj_size: object_size,
                full: Seq::<SlabState>::empty(),
                partial: Seq::<SlabState>::empty(),
                empty: Seq::<SlabState>::empty(),
            }),
            r@.wf(),
    {
        Cache {
            object_size,
            full: FullList::new_empty(),
            partial: PartialList::new_empty(),
            empty: EmptyList::new_empty(),
        }
    }

    /// Move `Slab` to corresponding list.
    pub fn slab_migrate(&mut self, slab: Slab, dst_kind: SlabKind)
        ensures
            final(self)@ == (match dst_kind {
                SlabKind::Full => CacheState {
                    full: old(self)@.full.push(slab@.with_kind(dst_kind)),
                    ..old(self)@
                },
                SlabKind::Partial => CacheState {
                    partial: old(self)@.partial.push(slab@.with_kind(dst_kind)),
                    ..old(self)@
                },
                SlabKind::Empty => CacheState {
                    empty: old(self)@.empty.push(slab@.with_kind(dst_kind)),
                    ..old(self)@
                },
            }),
    {
        let mut slab = slab;
        // change slab kind
        slab.kind = dst_kind;
        // append slab
        match dst_kind {
            SlabKind::Full => self.full.push_slab(slab),
            SlabKind::Partial => self.partial.push_slab(slab),
            SlabKind::Empty => self.empty.push_slab(slab),
        }
    }

    /// Puts `slab` into the list that matches its occupancy.
    fn settle(&mut self, slab: Slab)
        requires
            slab@.wf(),
        ensures
            final(self)@ == old(self)@.settle(slab@),
    {
        proof {
            lemma_capacity(slab@.obj_size);
        }
        let free: usize = slab.free_count();
        if free == slab.obj_size.capacity() {
            self.slab_migrate(slab, SlabKind::Empty);
        } else if free == 0 {
            self.slab_migrate(slab, SlabKind::Full);
        } else {
            self.slab_migrate(slab, SlabKind::Partial);
        }
    }

    /// Return object address according to the object size of the cache.
    ///
    /// The object comes from the head of the partial list. If that list is
    /// empty it comes from the head of the empty list, for which a page is
    /// asked of `page_allocator` if the empty list is empty too. The slab
    /// that served goes to the head of the partial list or, if that was its
    /// last free slot, of the full list. Returns `None`, and changes
    /// nothing, if a page was needed and was not to be had.
    pub fn allocate(&mut self, page_allocator: &mut BuddySystem) -> (r: Option<usize>)
        requires
            old(self)@.wf(),
            old(page_allocator).wf(),
            old(self)@.pages_in(old(page_allocator)@),
        ensures
            final(self)@.wf(),
            final(page_allocator).wf(),
            final(self)@.pages_in(final(page_allocator)@),
            forall|addr: int, k: int|
                old(page_allocator)@.is_taken(addr, k) ==> #[trigger] final(page_allocator)@.is_taken(addr, k),
            !old(self)@.needs_page() ==> final(page_allocator)@ == old(page_allocator)@ && r
                == old(self)@.allocate_result(None) && final(self)@ == old(self)@.after_allocate(
                None,
            ) && r.is_some(),
            old(self)@.needs_page() ==> final(page_allocator)@ == old(
                page_allocator,
            )@.after_allocate(0) && r == old(self)@.allocate_result(
                old(page_allocator)@.allocate_result(0),
            ) && final(self)@ == old(self)@.after_allocate(old(page_allocator)@.allocate_result(0))
                && r == old(page_allocator)@.allocate_result(0),
            r.is_some() ==> final(self)@.is_live(r.unwrap() as int),
    {
        let ghost before = self@;
        let ghost page: Option<usize> = if before.needs_page() {
            page_allocator@.allocate_result(0)
        } else {
            None
        };
        let ghost buddy = page_allocator@;
        proof {
            assert forall|addr: int, k: int| buddy.is_taken(addr, k) implies #[trigger] buddy.after_allocate(
                0,
            ).is_taken(addr, k) by {
                lemma_allocate(buddy, 0, addr, k);
            }
        }
        let mut slab = match self.partial.pop_slab() {
            Some(slab) => slab,
            None => {
                if self.empty.0.len() == 0 {
                    if !self.empty.append_new_node(self.object_size, page_allocator) {
                        assert(self@ == before);
                        return None;
                    }
                }
                self.empty.pop_slab().unwrap()
            },
        };
        proof {
            lemma_capacity(self.object_size);
            assert(before.source(page) == Some(slab@));
            assert(self@.full == before.without_source().full);
            assert(self@.partial =~= before.without_source().partial);
            assert(self@.empty =~= before.without_source().empty);
            assert(self@ == before.without_source());
            if !before.needs_page() {
                lemma_without_source(before);
            } else {
                lemma_fresh_slab(before.obj_size, page.unwrap() as int);
                if before.owns_page(page.unwrap() as int) {
                    let (l, i) = choose|l: int, i: int|
                        before.has_slab(l, i) && (#[trigger] before.slab_at(l, i)).page
                            == page.unwrap();
                    lemma_allocations_apart(
                        buddy,
                        0,
                        page.unwrap() as int,
                        0,
                    );
                    assert(false);
                }
            }
            if before.without_source().owns_page(slab@.page) {
                let (l, i) = choose|l: int, i: int|
                    before.without_source().has_slab(l, i) && (
                    #[trigger] before.without_source().slab_at(l, i)).page == slab@.page;
                assert(false);
            }
            assert(slab@.free.len() > 0);
        }
        let obj = slab.pop().unwrap();
        let ghost served = slab@;
        self.settle(slab);
        proof {
            assert(self@ == before.after_allocate(page));
            lemma_settled(before.without_source(), served);
            lemma_owner_after_settle(before.without_source(), served, obj.addr as int);
            assert forall|l: int, i: int| self@.has_slab(l, i) implies page_allocator@.is_taken(
                (#[trigger] self@.slab_at(l, i)).page,
                0,
            ) by {
                let p = self@.slab_at(l, i).page;
                assert(self@.owns_page(p));
                if p != served.page {
                    assert(before.without_source().owns_page(p));
                    let (l0, i0) = choose|l0: int, i0: int|
                        before.without_source().has_slab(l0, i0) && (
                        #[trigger] before.without_source().slab_at(l0, i0)).page == p;
                    assert(before.slab_at(l0, i0).page == p);
                } else if !before.needs_page() {
                    let (l0, i0) = choose|l0: int, i0: int|
                        before.has_slab(l0, i0) && (#[trigger] before.slab_at(l0, i0)).page == p;
                }
            }
            if page.is_some() && before.needs_page() {
                lemma_fresh_slab(before.obj_size, page.unwrap() as int);
                assert(0 * before.obj_size.spec_bytes() == 0);
                assert(fresh_slab(before.obj_size, page.unwrap() as int).free.last()
                    == page.unwrap());
            }
        }
        Some(obj.addr())
    }

    /// Free object according to the object size of the cache.
    ///
    /// The slab that owns the object takes it back and goes to the head of
    /// the partial list or, if that was its last used slot, of the empty
    /// list. The object must be one that the cache has handed out and not
    /// got back: freeing anything else is an error of the caller.
    pub fn deallocate(&mut self, ptr: usize)
        requires
            old(self)@.wf(),
            old(self)@.is_live(ptr as int),
        ensures
            final(self)@.wf(),
            final(self)@ == old(self)@.after_deallocate(ptr),
    {
        let ghost before = self@;
        let mut slab = match self.partial.pop_corresponding_slab(ptr) {
            Some(partial_slab) => partial_slab,
            None => self.full.pop_corresponding_slab(ptr).unwrap(),
        };
        proof {
            lemma_capacity(self.object_size);
            assert(before.owner(ptr as int) == Some(slab@));
            assert(self@ == before.without_owner(ptr as int));
            lemma_without_owner(before, ptr as int);
            if before.without_owner(ptr as int).owns_page(slab@.page) {
                let (l, i) = choose|l: int, i: int|
                    before.without_owner(ptr as int).has_slab(l, i) && (
                    #[trigger] before.without_owner(ptr as int).slab_at(l, i)).page == slab@.page;
                assert(false);
            }
        }
        slab.push(FreeObject::new(ptr));
        proof {
            lemma_settled(before.without_owner(ptr as int), slab@);
        }
        self.settle(slab);
    }
}

/// Slab allocator that provide global allocator: seven caches, for objects
/// of 64 to 4096 bytes, on top of one buddy system. Requests of a page or
/// more go to the buddy system.
pub struct SlabAllocator {
    /// The caches, smallest object class first.
    pub caches: Vec<Cache>,
    /// The buddy system that owns the heap.
    pub page_allocator: BuddySystem,
}

impl View for SlabAllocator {
    type V = AllocatorState;

    open spec fn view(&self) -> AllocatorState {
        AllocatorState {
            caches: Seq::new(self.caches@.len(), |c: int| self.caches@[c]@),
            buddy: self.page_allocator@,
        }
    }
}

impl SlabAllocator {
    /// The allocator is well formed: its state is, and so are the lists of
    /// its buddy system.
    pub open spec fn wf(&self) -> bool {
        &&& self@.wf()
        &&& self.page_allocator.lists_ok()
    }

    /// Return new `SlabAllocator` over the `heap_size` bytes at
    /// `start_addr`, which must be aligned 4096; the heap must hold a page
    /// at least and end inside the address space. Nothing is handed out,
    /// and no cache has a page yet.
    pub fn new(start_addr: usize, heap_size: usize) -> (r: Self)
        requires
            start_addr % PAGE_SIZE == 0,
            start_addr + heap_size <= usize::MAX,
            heap_size >= PAGE_SIZE,
        ensures
            r.wf(),
            r@.buddy == fresh_state(
                start_addr as int,
                heap_size - heap_size % 4096,
            ),
            forall|c: int| 0 <= c < 7 ==> (#[trigger] r@.caches[c]).full.len() == 0
                && r@.caches[c].partial.len() == 0 && r@.caches[c].empty.len() == 0,
    {
        let page_allocator = BuddySystem::new(start_addr, heap_size);
        let mut caches: Vec<Cache> = Vec::new();
        let mut c: usize = 0;
        while c < 7
            invariant
                c <= 7,
                caches@.len() == c,
                forall|j: int|
                    0 <= j < c ==> (#[trigger] caches@[j])@.obj_size.spec_index() == j
                        && caches@[j]@.full.len() == 0 && caches@[j]@.partial.len() == 0
                        && caches@[j]@.empty.len() == 0,
            decreases 7 - c,
        {
            caches.push(Cache::new(ObjectSize::from_index(c)));
            c += 1;
        }
        let r = SlabAllocator { caches, page_allocator };
        proof {
            assert forall|j: int| 0 <= j < 7 implies (#[trigger] r@.caches[j]).obj_size.spec_index()
                == j && r@.caches[j].wf() && r@.caches[j].pages_in(r@.buddy)
                && r@.caches[j].full.len() == 0 && r@.caches[j].partial.len() == 0
                && r@.caches[j].empty.len() == 0 by {
                assert(r@.caches[j] == r.caches@[j]@);
            }
        }
        r
    }

    /// Convert size and alignment of a request to the object class that
    /// serves it: the smallest that is at least `size` and at least
    /// `align`. Requests of a page or more, or aligned to more than a page,
    /// are not served from a cache.
    pub fn get_slab_size(size: usize, align: usize) -> (r: Option<ObjectSize>)
        ensures
            r.is_some() <==> AllocatorState::from_cache(size as int, align as int),
            r.is_some() ==> r.unwrap().spec_index() == slab_class(size as int, align as int)
                && r.unwrap().spec_bytes() >= size && r.unwrap().spec_bytes() >= align,
    {
        if size >= PAGE_SIZE || align > PAGE_SIZE {
            return None;
        }
        let most: usize = if size >= align {
            size
        } else {
            align
        };
        if most <= 64 {
            Some(ObjectSize::Byte64)
        } else if most <= 128 {
            Some(ObjectSize::Byte128)
        } else if most <= 256 {
            Some(ObjectSize::Byte256)
        } else if most <= 512 {
            Some(ObjectSize::Byte512)
        } else if most <= 1024 {
            Some(ObjectSize::Byte1024)
        } else if most <= 2048 {
            Some(ObjectSize::Byte2048)
        } else {
            Some(ObjectSize::Byte4096)
        }
    }

    /// Allocates a new object of `size` bytes aligned to `align`.
    ///
    /// Requests of less than a page are served by the cache of the
    /// smallest object class that is at least `size` and at least `align`;
    /// requests of a page or more by the buddy system. Returns `None`, and
    /// changes nothing, if `align` is more than the page size, if `size` is
    /// that of the biggest block or more, or if the memory is not to be
    /// had.
    pub fn allocate(&mut self, size: usize, align: usize) -> (r: Option<usize>)
        requires
            old(self).wf(),
        ensures
            final(self).wf(),
            r == old(self)@.allocate_result(size as int, align as int),
            final(self)@ == old(self)@.after_allocate(size as int, align as int),
            r.is_some() ==> final(self)@.is_live(r.unwrap() as int, size as int, align as int)
                && final(self)@.is_in_heap(r.unwrap() as int, size as int),
            r.is_some() && AllocatorState::from_cache(size as int, align as int) ==> r.unwrap()
                % (object_bytes(slab_class(size as int, align as int)) as usize) == 0,
            r.is_some() && AllocatorState::from_buddy(size as int, align as int) ==> r.unwrap()
                % 4096 == 0,
            r.is_some() && is_alignment(align as int) ==> r.unwrap() % align == 0,
    {
        let ghost before = self@;
        match Self::get_slab_size(size, align) {
            Some(object_size) => {
                let c: usize = object_size.index();
                proof {
                    assert(before.caches[c as int] == self.caches@[c as int]@);
                }
                let r = self.caches[c].allocate(&mut self.page_allocator);
                proof {
                    assert(self@.caches =~= before.after_allocate(
                        size as int,
                        align as int,
                    ).caches);
                    assert forall|j: int| 0 <= j < 7 implies (
                    #[trigger] self@.caches[j]).obj_size.spec_index() == j && self@.caches[j].wf()
                        && self@.caches[j].pages_in(self@.buddy) by {
                        assert(self@.caches[j] == self.caches@[j]@);
                        if j != c {
                            assert(self@.caches[j] == before.caches[j]);
                            assert(before.caches[j].pages_in(before.buddy));
                        }
                    }
                    if r.is_some() {
                        let cache = self@.caches[c as int];
                        let addr = r.unwrap() as int;
                        let own = cache.owner(addr).unwrap();
                        lemma_owner_is_slab(cache, addr);
                        lemma_slot_aligned(own, addr);
                        lemma_capacity(own.obj_size);
                        if is_alignment(align as int) {
                            lemma_aligned_to_smaller(addr, own.obj_size.spec_bytes(), align as int);
                        }
                        let old_cache = before.caches[c as int];
                        let page = before.page_for(c as int);
                        lemma_page_fits(old_cache, before.buddy);
                        assert forall|c1: int, c2: int, q: int|
                            0 <= c1 < 7 && 0 <= c2 < 7 && c1 != c2 implies !((
                        #[trigger] self@.caches[c1].owns_page(q)) && (
                        #[trigger] self@.caches[c2].owns_page(q))) by {
                            lemma_allocate_pages(old_cache, page, q);
                            assert(!(before.caches[c1].owns_page(q) && before.caches[c2].owns_page(
                                q,
                            )));
                            if self@.caches[c1].owns_page(q) && self@.caches[c2].owns_page(q) {
                                let other = if c1 == c {
                                    c2
                                } else {
                                    c1
                                };
                                assert(before.caches[other] == self@.caches[other]);
                                assert(before.caches[other].pages_in(before.buddy));
                                let (l, i) = choose|l: int, i: int|
                                    before.caches[other].has_slab(l, i) && (
                                    #[trigger] before.caches[other].slab_at(l, i)).page == q;
                                lemma_allocations_apart(
                                    before.buddy,
                                    0,
                                    q,
                                    0,
                                );
                            }
                        }
                    }
                }
                r
            },
            None => {
                let r = self.page_allocator.allocate(size, align);
                proof {
                    let k = block_class(size as int);
                    assert(self@.caches =~= before.caches);
                    if r.is_some() {
                        if is_alignment(align as int) {
                            lemma_aligned_to_smaller(r.unwrap() as int, 4096, align as int);
                        }
                        assert forall|j: int| 0 <= j < 7 implies (
                        #[trigger] self@.caches[j]).pages_in(self@.buddy) by {
                            assert forall|l: int, i: int|
                                self@.caches[j].has_slab(l, i) implies self@.buddy.is_taken(
                                (#[trigger] self@.caches[j].slab_at(l, i)).page,
                                0,
                            ) by {
                                lemma_allocate(
                                    before.buddy,
                                    k,
                                    self@.caches[j].slab_at(l, i).page,
                                    0,
                                );
                            }
                        }
                        assert forall|j: int, l: int, i: int|
                            0 <= j < 7 && self@.caches[j].has_slab(l, i) implies apart(
                            (#[trigger] self@.caches[j].slab_at(l, i)).page,
                            0,
                            r.unwrap() as int,
                            k,
                        ) by {
                            assert(before.caches[j].pages_in(before.buddy));
                            lemma_allocate(
                                before.buddy,
                                k,
                                self@.caches[j].slab_at(l, i).page,
                                0,
                            );
                        }
                    }
                }
                r
            },
        }
    }

    /// Deallocate(free) what was allocated at `ptr` for `size` bytes
    /// aligned to `align`.
    ///
    /// `ptr` must have come from `allocate` with the same size and
    /// alignment and not have been freed since: freeing anything else is an
    /// error of the caller.
    pub fn deallocate(&mut self, ptr: usize, size: usize, align: usize)
        requires
            old(self).wf(),
            old(self)@.is_live(ptr as int, size as int, align as int),
        ensures
            final(self).wf(),
            final(self)@ == old(self)@.after_deallocate(ptr, size as int, align as int),
    {
        let ghost before = self@;
        match Self::get_slab_size(size, align) {
            Some(object_size) => {
                let c: usize = object_size.index();
                proof {
                    assert(before.caches[c as int] == self.caches@[c as int]@);
                    lemma_deallocate_keeps_pages(before.caches[c as int], ptr, before.buddy);
                }
                self.caches[c].deallocate(ptr);
                proof {
                    assert(self@.caches =~= before.after_deallocate(
                        ptr,
                        size as int,
                        align as int,
                    ).caches);
                    assert forall|c1: int, c2: int, q: int|
                        0 <= c1 < 7 && 0 <= c2 < 7 && c1 != c2 implies !((
                    #[trigger] self@.caches[c1].owns_page(q)) && (
                    #[trigger] self@.caches[c2].owns_page(q))) by {
                        lemma_deallocate_pages(before.caches[c as int], ptr, q);
                        assert(!(before.caches[c1].owns_page(q) && before.caches[c2].owns_page(q)));
                    }
                    assert forall|j: int| 0 <= j < 7 implies (
                    #[trigger] self@.caches[j]).obj_size.spec_index() == j && self@.caches[j].wf()
                        && self@.caches[j].pages_in(self@.buddy) by {
                        assert(self@.caches[j] == self.caches@[j]@);
                        if j != c {
                            assert(self@.caches[j] == before.caches[j]);
                        }
                    }
                }
            },
            None => {
                self.page_allocator.deallocate(ptr, size, align);
                proof {
                    let k = block_class(size as int);
                    assert(self@.caches =~= before.caches);
                    assert forall|j: int| 0 <= j < 7 implies (#[trigger] self@.caches[j]).pages_in(
                        self@.buddy,
                    ) by {
                        assert(before.caches[j].pages_in(before.buddy));
                        assert forall|l: int, i: int|
                            self@.caches[j].has_slab(l, i) implies self@.buddy.is_taken(
                            (#[trigger] self@.caches[j].slab_at(l, i)).page,
                            0,
                        ) by {
                            lemma_deallocate(
                                before.buddy,
                                ptr as int,
                                k,
                                self@.caches[j].slab_at(l, i).page,
                                0,
                            );
                        }
                    }
                }
            },
        }
    }
}

} // verus!
