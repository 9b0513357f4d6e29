//! What holds of the caches and of the allocator over more than one step.

use vstd::prelude::*;
use crate::buddy::geometry::{block_class, class_bytes, lemma_block_page_aligned};
use crate::buddy::laws::{lemma_allocate_then_deallocate, lemma_allocations_apart};
use crate::buddy::state::{BuddyState, apart, lemma_allocate, lemma_deallocate};
use crate::slab::{SlabKind, lemma_capacity, object_bytes};
use crate::slab::list::{has_owner, is_owner_position, lemma_owner_position, owner_position};
use crate::slab::state::{
    AllocatorState,
    CacheState,
    SlabState,
    fresh_slab,
    lemma_allocate_pages,
    lemma_deallocate_pages,
    lemma_fresh_slab,
    lemma_last_owner,
    lemma_owner_after_settle,
    lemma_owner_is_slab,
    lemma_settled,
    lemma_slot_aligned,
    lemma_used_slot_leaves_room,
    lemma_without_owner,
    lemma_without_source,
    slab_class,
    slab_fits,
};

verus! {

/// Whether `page` may serve as the page that the page allocator gives to a
/// cache in state `s`: if the cache needs a page and gets one, the page is
/// aligned, inside the address space, and none that the cache stands on.
pub open spec fn page_fits(s: CacheState, page: Option<usize>) -> bool {
    s.needs_page() && page.is_some() ==> page.unwrap() % 4096 == 0 && page.unwrap() + 4096
        <= usize::MAX && !s.owns_page(page.unwrap() as int)
}

/// The page that the buddy system hands to a cache which stands on pages
/// that the buddy system has handed out is none of those.
pub proof fn lemma_page_fits(s: CacheState, buddy: BuddyState)
    requires
        s.wf(),
        buddy.wf(),
        s.pages_in(buddy),
    ensures
        page_fits(s, buddy.allocate_result(0)),
{
    let page = buddy.allocate_result(0);
    if page.is_some() {
        lemma_allocate(buddy, 0, 0, 0);
        lemma_block_page_aligned(buddy.base, buddy.heap, page.unwrap() as int, 0);
        if s.owns_page(page.unwrap() as int) {
            let (l, i) = choose|l: int, i: int|
                s.has_slab(l, i) && (#[trigger] s.slab_at(l, i)).page == page.unwrap();
            lemma_allocations_apart(buddy, 0, page.unwrap() as int, 0);
        }
    }
}

/// What an allocation does to the slab that serves it.
proof fn lemma_served(s: CacheState, page: Option<usize>)
    requires
        s.wf(),
        page_fits(s, page),
        s.source(page).is_some(),
    ensures
        ({
            let src = s.source(page).unwrap();
            let u = s.without_source();
            let addr = src.free.last();
            &&& u.wf()
            &&& src.wf()
            &&& src.obj_size == s.obj_size
            &&& src.kind == src.occupancy()
            &&& src.free.len() > 0
            &&& !u.owns_page(src.page)
            &&& src.popped().wf()
            &&& src.popped().is_used(addr as int)
            &&& src.popped().free.len() < s.obj_size.spec_capacity()
            &&& src.popped().with_kind(src.popped().occupancy()).pushed(addr).with_kind(src.kind)
                == src
            &&& s.needs_page() ==> u == s && src == fresh_slab(s.obj_size, page.unwrap() as int)
            &&& !s.needs_page() ==> u.settle(src) == s
        }),
{
    let src = s.source(page).unwrap();
    let u = s.without_source();
    let addr = src.free.last();
    lemma_capacity(s.obj_size);
    if s.needs_page() {
        lemma_fresh_slab(s.obj_size, page.unwrap() as int);
    } else {
        lemma_without_source(s);
        if s.partial.len() > 0 {
            assert(slab_fits(s.partial[s.partial.len() - 1], s.obj_size, SlabKind::Partial));
            assert(u.partial.push(src) =~= s.partial);
        } else {
            assert(slab_fits(s.empty[s.empty.len() - 1], s.obj_size, SlabKind::Empty));
            assert(u.empty.push(src) =~= s.empty);
        }
        if u.owns_page(src.page) {
            let (l, i) = choose|l: int, i: int|
                u.has_slab(l, i) && (#[trigger] u.slab_at(l, i)).page == src.page;
            assert(false);
        }
    }
    let cap = s.obj_size.spec_capacity();
    let n = src.free.len() as int;
    let b = s.obj_size.spec_bytes();
    assert((cap - (n - 1)) * b == (cap - n) * b + b) by (nonlinear_arith);
    let served = src.popped();
    assert(served.wf());
    assert(src.is_slot(src.free[n - 1] as int));
    assert forall|i: int| 0 <= i < served.free.len() implies served.free[i] != addr by {
        assert(src.free[i] != src.free[n - 1]);
    }
    assert(served.with_kind(served.occupancy()).pushed(addr).free =~= src.free);
}

/// Round trip in a cache: an allocation followed by freeing what it
/// returned gives back the cache as it was, except that a page which the
/// allocation had to ask for stays with the cache, as an empty slab at the
/// head of the empty list. The free slots of every other slab, and their
/// order, are unchanged, so the next allocation returns the same address.
pub proof fn lemma_cache_allocate_then_deallocate(s: CacheState, page: Option<usize>)
    requires
        s.wf(),
        page_fits(s, page),
        s.allocate_result(page).is_some(),
    ensures
        s.after_allocate(page).wf(),
        s.after_allocate(page).after_deallocate(s.allocate_result(page).unwrap()) == (if s.needs_page() {
            CacheState {
                empty: s.empty.push(fresh_slab(s.obj_size, page.unwrap() as int)),
                ..s
            }
        } else {
            s
        }),
{
    let src = s.source(page).unwrap();
    let u = s.without_source();
    let addr = src.free.last();
    let served = src.popped();
    lemma_served(s, page);
    lemma_settled(u, served);
    lemma_owner_after_settle(u, served, addr as int);
}

/// In a well-formed cache, a slab of the partial or the full list whose
/// page holds an address is the owner of that address.
pub proof fn lemma_unique_owner(s: CacheState, l: int, i: int, addr: int)
    requires
        s.wf(),
        s.has_slab(l, i),
        l < 2,
        s.slab_at(l, i).contains(addr),
    ensures
        s.owner(addr) == Some(s.slab_at(l, i)),
{
    assert forall|l2: int, i2: int|
        s.has_slab(l2, i2) && (#[trigger] s.slab_at(l2, i2)).contains(addr) implies l2 == l && i2
        == i by {
        assert(slab_fits(s.slab_at(l2, i2), s.obj_size, s.slab_at(l2, i2).kind));
        assert(slab_fits(s.slab_at(l, i), s.obj_size, s.slab_at(l, i).kind));
        if !(l2 == l && i2 == i) {
            assert(s.slab_at(l2, i2).page != s.slab_at(l, i).page);
        }
    }
    if l == 0 {
        if has_owner(s.partial, addr) {
            let j = choose|j: int| 0 <= j < s.partial.len() && (#[trigger] s.partial[j]).contains(
                addr,
            );
            assert(s.slab_at(1, j).contains(addr));
        }
        assert forall|j: int| i < j < s.full.len() implies !(#[trigger] s.full[j]).contains(
            addr,
        ) by {
            assert(s.slab_at(0, j) == s.full[j]);
        }
        assert(is_owner_position(s.full, addr, i));
        lemma_owner_position(s.full, addr, i);
    } else {
        assert forall|j: int| i < j < s.partial.len() implies !(
        #[trigger] s.partial[j]).contains(addr) by {
            assert(s.slab_at(1, j) == s.partial[j]);
        }
        assert(is_owner_position(s.partial, addr, i));
        lemma_owner_position(s.partial, addr, i);
    }
}

/// Where the owner of a live object stands.
proof fn lemma_owner_place(s: CacheState, addr: int) -> (place: (int, int))
    requires
        s.wf(),
        s.is_live(addr),
    ensures
        s.has_slab(place.0, place.1),
        place.0 < 2,
        s.slab_at(place.0, place.1) == s.owner(addr).unwrap(),
        s.slab_at(place.0, place.1).contains(addr),
        place.0 == 1 <==> has_owner(s.partial, addr),
        place.0 == 1 ==> place.1 == owner_position(s.partial, addr),
        place.0 == 0 ==> place.1 == owner_position(s.full, addr),
{
    lemma_without_owner(s, addr);
    if has_owner(s.partial, addr) {
        let w = choose|i: int| 0 <= i < s.partial.len() && (#[trigger] s.partial[i]).contains(addr);
        lemma_last_owner(s.partial, addr, w);
        (1, owner_position(s.partial, addr))
    } else {
        let w = choose|i: int| 0 <= i < s.full.len() && (#[trigger] s.full[i]).contains(addr);
        lemma_last_owner(s.full, addr, w);
        (0, owner_position(s.full, addr))
    }
}

/// Two slots of slabs of one cache that are not the same slot share no
/// byte.
proof fn lemma_slots_apart(a: SlabState, x: int, b: SlabState, y: int)
    requires
        a.wf(),
        b.wf(),
        a.obj_size == b.obj_size,
        a.is_slot(x),
        b.is_slot(y),
        x != y,
        a.page == b.page || a.page + 4096 <= b.page || b.page + 4096 <= a.page,
    ensures
        x + a.obj_size.spec_bytes() <= y || y + a.obj_size.spec_bytes() <= x,
{
    let size = a.obj_size.spec_bytes();
    lemma_capacity(a.obj_size);
    lemma_slot_aligned(a, x);
    lemma_slot_aligned(b, y);
    vstd::arithmetic::div_mod::lemma_fundamental_div_mod(x, size);
    vstd::arithmetic::div_mod::lemma_fundamental_div_mod(y, size);
    let qx = x / size;
    let qy = y / size;
    assert(x + size <= y || y + size <= x) by (nonlinear_arith)
        requires
            x == size * qx,
            y == size * qy,
            x != y,
            size > 0,
    ;
}

/// No two objects of a cache that are handed out at the same time share a
/// byte: the object that an allocation returns lies apart from every object
/// that is handed out already, and those stay handed out.
pub proof fn lemma_cache_allocations_apart(s: CacheState, page: Option<usize>, live: int)
    requires
        s.wf(),
        page_fits(s, page),
        s.is_live(live),
        s.allocate_result(page).is_some(),
    ensures
        ({
            let addr = s.allocate_result(page).unwrap() as int;
            let size = s.obj_size.spec_bytes();
            &&& live + size <= addr || addr + size <= live
            &&& s.after_allocate(page).is_live(live)
            &&& s.after_allocate(page).is_live(addr)
        }),
{
    let src = s.source(page).unwrap();
    let u = s.without_source();
    let addr = src.free.last();
    let served = src.popped();
    let t = s.after_allocate(page);
    lemma_served(s, page);
    lemma_settled(u, served);
    lemma_owner_after_settle(u, served, addr as int);
    let place = lemma_owner_place(s, live);
    let own = s.slab_at(place.0, place.1);
    assert(slab_fits(own, s.obj_size, own.kind));
    assert(s.owns_page(own.page));
    if own.page == src.page {
        // the live object is a slot of the slab that serves
        if s.needs_page() {
            assert(false);
        }
        let sl: int = if s.partial.len() > 0 {
            1
        } else {
            2
        };
        let si = s.len_at(sl) - 1;
        assert(s.slab_at(sl, si) == src);
        assert(place.0 == sl && place.1 == si);
        assert(own == src);
        assert(src.free[src.free.len() - 1] == addr);
        assert(live != addr);
        assert(served.is_used(live));
        lemma_owner_after_settle(u, served, live);
        lemma_slots_apart(src, live, src, addr as int);
    } else {
        assert(u.has_slab(place.0, place.1) && u.slab_at(place.0, place.1) == own) by {
            if !s.needs_page() {
                let sl: int = if s.partial.len() > 0 {
                    1
                } else {
                    2
                };
                let si = s.len_at(sl) - 1;
                assert(s.slab_at(sl, si) == src);
                assert(!(place.0 == sl && place.1 == si));
            }
        }
        assert(t.has_slab(place.0, place.1) && t.slab_at(place.0, place.1) == own);
        lemma_unique_owner(t, place.0, place.1, live);
        assert(src.is_slot(src.free[src.free.len() - 1] as int));
        assert(own.page % 4096 == 0 && src.page % 4096 == 0);
        lemma_slots_apart(own, live, src, addr as int);
    }
}

/// The slab after `n` of its free slots have been handed out.
pub open spec fn popped_times(slab: SlabState, n: nat) -> SlabState
    decreases n,
{
    if n == 0 {
        slab
    } else {
        popped_times(slab, (n - 1) as nat).popped()
    }
}

/// The cache after `n` allocations for which no page is given.
pub open spec fn allocated_times(s: CacheState, n: nat) -> CacheState
    decreases n,
{
    if n == 0 {
        s
    } else {
        allocated_times(s, (n - 1) as nat).after_allocate(None)
    }
}

/// A slab that hands out `n` of its free slots stays well formed and has
/// `n` free slots less.
pub proof fn lemma_popped_times(slab: SlabState, n: nat)
    requires
        slab.wf(),
        n <= slab.free.len(),
    ensures
        popped_times(slab, n).wf(),
        popped_times(slab, n).free.len() == slab.free.len() - n,
        popped_times(slab, n).obj_size == slab.obj_size,
        popped_times(slab, n).page == slab.page,
    decreases n,
{
    if n > 0 {
        lemma_popped_times(slab, (n - 1) as nat);
        let before = popped_times(slab, (n - 1) as nat);
        let cap = slab.obj_size.spec_capacity();
        let m = before.free.len() as int;
        let b = slab.obj_size.spec_bytes();
        assert((cap - (m - 1)) * b == (cap - m) * b + b) by (nonlinear_arith);
    }
}

/// What the cache looks like while its one empty slab is drained: after
/// `n` allocations the slab has handed out `n` slots and stands alone in
/// the partial list or, once none is left, at the head of the full list.
pub open spec fn drained(s: CacheState, n: nat) -> CacheState {
    let slab = popped_times(s.empty[0], n);
    if n == 0 {
        s
    } else if n < s.obj_size.spec_capacity() {
        CacheState {
            partial: seq![slab.with_kind(SlabKind::Partial)],
            empty: Seq::<SlabState>::empty(),
            ..s
        }
    } else {
        CacheState {
            full: s.full.push(slab.with_kind(SlabKind::Full)),
            partial: Seq::<SlabState>::empty(),
            empty: Seq::<SlabState>::empty(),
            ..s
        }
    }
}

/// Occupancy of a page: in a cache whose only slab with a free slot is one
/// empty slab, as many allocations as a page holds objects are served from
/// that slab, which is partial in between and full at the end; the cache
/// then needs a new page for the next allocation. Freeing the objects, last
/// one first, leads back through the same states to the empty slab.
pub proof fn lemma_page_occupancy(s: CacheState, n: nat)
    requires
        s.wf(),
        s.partial.len() == 0,
        s.empty.len() == 1,
        n <= s.obj_size.spec_capacity(),
    ensures
        allocated_times(s, n) == drained(s, n),
        allocated_times(s, n).wf(),
        allocated_times(s, n).needs_page() <==> n == s.obj_size.spec_capacity(),
        n > 0 ==> allocated_times(s, (n - 1) as nat).allocate_result(None).is_some()
            && allocated_times(s, n).after_deallocate(
            allocated_times(s, (n - 1) as nat).allocate_result(None).unwrap(),
        ) == allocated_times(s, (n - 1) as nat),
    decreases n,
{
    let cap = s.obj_size.spec_capacity();
    let e = s.empty[0];
    lemma_capacity(s.obj_size);
    assert(slab_fits(e, s.obj_size, SlabKind::Empty));
    if n > 0 {
        let m = (n - 1) as nat;
        lemma_page_occupancy(s, m);
        let before = allocated_times(s, m);
        lemma_popped_times(e, m);
        lemma_popped_times(e, n);
        let slab = popped_times(e, m);
        let src = before.source(None).unwrap();
        assert(src.popped().with_kind(src.popped().occupancy()) == popped_times(e, n).with_kind(
            popped_times(e, n).occupancy(),
        ));
        if m == 0 {
            assert(before.without_source().empty =~= Seq::<SlabState>::empty());
        } else {
            assert(before.without_source().partial =~= Seq::<SlabState>::empty());
        }
        let after = before.after_allocate(None);
        assert(after.partial =~= drained(s, n).partial);
        assert(after.empty =~= drained(s, n).empty);
        assert(after.full =~= drained(s, n).full);
        lemma_cache_allocate_then_deallocate(before, None);
    }
}

/// The object that an allocation returns is live afterwards, in a slab on
/// one of the cache's pages.
pub proof fn lemma_cache_allocate_live(s: CacheState, page: Option<usize>)
    requires
        s.wf(),
        page_fits(s, page),
        s.allocate_result(page).is_some(),
    ensures
        s.after_allocate(page).wf(),
        s.after_allocate(page).is_live(s.allocate_result(page).unwrap() as int),
{
    let src = s.source(page).unwrap();
    let u = s.without_source();
    lemma_served(s, page);
    lemma_settled(u, src.popped());
    lemma_owner_after_settle(u, src.popped(), src.free.last() as int);
}

/// A live object lies within a page of its cache, and takes no more than
/// the object size from its address on.
pub proof fn lemma_live_in_page(s: CacheState, addr: int) -> (page: int)
    requires
        s.wf(),
        s.is_live(addr),
    ensures
        s.owns_page(page),
        page % 4096 == 0,
        page <= addr,
        addr + s.obj_size.spec_bytes() <= page + 4096,
{
    let own = s.owner(addr).unwrap();
    lemma_owner_is_slab(s, addr);
    lemma_slot_aligned(own, addr);
    own.page
}

/// A page of a cache is handed out by the buddy system that the cache
/// takes its pages from.
pub proof fn lemma_owned_page_taken(s: CacheState, buddy: BuddyState, page: int)
    requires
        s.pages_in(buddy),
        s.owns_page(page),
    ensures
        buddy.is_taken(page, 0),
{
    let (l, i) = choose|l: int, i: int| s.has_slab(l, i) && (#[trigger] s.slab_at(l, i)).page == page;
    assert(buddy.is_taken(s.slab_at(l, i).page, 0));
}

/// Bytes that a request of `size` bytes aligned to `align` is given: those
/// of an object of the class that serves it, or of a block of that class.
pub open spec fn footprint(size: int, align: int) -> int {
    if AllocatorState::from_cache(size, align) {
        object_bytes(slab_class(size, align))
    } else {
        class_bytes(block_class(size))
    }
}

/// A request is given at least the bytes it asks for.
pub proof fn lemma_footprint(size: int, align: int)
    requires
        0 <= size,
        AllocatorState::from_cache(size, align) || AllocatorState::from_buddy(size, align),
    ensures
        size <= footprint(size, align),
{
}

/// Round trip in the allocator: an allocation followed by freeing what it
/// returned gives back the state before it, except that a page which a
/// cache had to ask for stays with that cache, as an empty slab: the buddy
/// system has 4096 free bytes less, and the cache one page of free slots
/// more. Either way the free bytes in all are unchanged, and the next
/// allocation of the same size and alignment returns the same address.
pub proof fn lemma_allocator_round_trip(s: AllocatorState, size: int, align: int)
    requires
        s.wf(),
        s.allocate_result(size, align).is_some(),
    ensures
        ({
            let addr = s.allocate_result(size, align).unwrap();
            let back = s.after_allocate(size, align).after_deallocate(addr, size, align);
            let c = slab_class(size, align);
            &&& back.free_bytes() == s.free_bytes()
            &&& if AllocatorState::from_cache(size, align) && s.caches[c].needs_page() {
                let page = s.buddy.allocate_result(0).unwrap();
                &&& back.buddy == s.buddy.after_allocate(0)
                &&& back.buddy.free_bytes() == s.buddy.free_bytes() - 4096
                &&& back.caches == s.caches.update(
                    c,
                    CacheState {
                        empty: s.caches[c].empty.push(fresh_slab(s.caches[c].obj_size, page as int)),
                        ..s.caches[c]
                    },
                )
                &&& fresh_slab(s.caches[c].obj_size, page as int).free.len()
                    * s.caches[c].obj_size.spec_bytes() == 4096
                &&& back.allocate_result(size, align) == Some(addr)
            } else {
                back == s
            }
        }),
{
    let addr = s.allocate_result(size, align).unwrap();
    let t = s.after_allocate(size, align);
    let back = t.after_deallocate(addr, size, align);
    if AllocatorState::from_cache(size, align) {
        let c = slab_class(size, align);
        let cache = s.caches[c];
        let page = s.page_for(c);
        lemma_page_fits(cache, s.buddy);
        lemma_cache_allocate_then_deallocate(cache, page);
        if cache.needs_page() {
            lemma_allocate(s.buddy, 0, 0, 0);
            lemma_fresh_slab(cache.obj_size, page.unwrap() as int);
            lemma_capacity(cache.obj_size);
            assert(back.caches =~= s.caches.update(
                c,
                CacheState {
                    empty: cache.empty.push(fresh_slab(cache.obj_size, page.unwrap() as int)),
                    ..cache
                },
            ));
            assert(0 * cache.obj_size.spec_bytes() == 0);
            let fresh = fresh_slab(cache.obj_size, page.unwrap() as int);
            assert(cache.empty.push(fresh).drop_last() =~= cache.empty);
            assert(back.caches[c].free_bytes() == cache.free_bytes() + 4096);
            assert(forall|j: int| 0 <= j < 7 && j != c ==> back.caches[j] == s.caches[j]);
        } else {
            assert(back.caches =~= s.caches);
        }
    } else {
        lemma_allocate_then_deallocate(s.buddy, block_class(size));
    }
}

/// What an allocation from a cache returns is live afterwards and lies on
/// a page of the cache: one that the cache stood on, or the one it was
/// given.
proof fn lemma_from_cache(s: AllocatorState, size: int, align: int) -> (home: int)
    requires
        s.wf(),
        AllocatorState::from_cache(size, align),
        s.allocate_result(size, align).is_some(),
    ensures
        ({
            let c = slab_class(size, align);
            let addr = s.allocate_result(size, align).unwrap() as int;
            let t = s.after_allocate(size, align);
            &&& t.is_live(addr, size, align)
            &&& home % 4096 == 0
            &&& home <= addr
            &&& addr + object_bytes(c) <= home + 4096
            &&& s.caches[c].owns_page(home) || (s.caches[c].needs_page() && Some(home as usize)
                == s.buddy.allocate_result(0) && home == s.buddy.allocate_result(0).unwrap())
            &&& forall|q: int|
                #[trigger] t.caches[c].owns_page(q) ==> s.caches[c].owns_page(q) || (
                s.caches[c].needs_page() && q == s.buddy.allocate_result(0).unwrap())
        }),
{
    let c = slab_class(size, align);
    let addr = s.allocate_result(size, align).unwrap() as int;
    let t = s.after_allocate(size, align);
    let cache = s.caches[c];
    let page = s.page_for(c);
    lemma_page_fits(cache, s.buddy);
    lemma_cache_allocate_live(cache, page);
    let home = lemma_live_in_page(t.caches[c], addr);
    lemma_allocate_pages(cache, page, home);
    assert forall|q: int| #[trigger] t.caches[c].owns_page(q) implies cache.owns_page(q) || (
    cache.needs_page() && q == s.buddy.allocate_result(0).unwrap()) by {
        lemma_allocate_pages(cache, page, q);
    }
    home
}

/// A block of the buddy system that lies off a cache's pages lies off the
/// page that holds an address of the cache.
proof fn lemma_off_owned_page(s: AllocatorState, c: int, page: int, addr: int, k: int)
    requires
        0 <= c < 7,
        s.caches[c].owns_page(page),
        s.off_pages(addr, k),
    ensures
        apart(page, 0, addr, k),
{
    let (l, i) = choose|l: int, i: int|
        s.caches[c].has_slab(l, i) && (#[trigger] s.caches[c].slab_at(l, i)).page == page;
    assert(apart(s.caches[c].slab_at(l, i).page, 0, addr, k));
}

/// An allocation from a cache, beside a live object of a cache.
proof fn lemma_apart_cache_cache(
    s: AllocatorState,
    size: int,
    align: int,
    live: int,
    live_size: int,
    live_align: int,
)
    requires
        s.wf(),
        AllocatorState::from_cache(size, align),
        AllocatorState::from_cache(live_size, live_align),
        s.is_live(live, live_size, live_align),
        s.allocate_result(size, align).is_some(),
    ensures
        ({
            let addr = s.allocate_result(size, align).unwrap() as int;
            let t = s.after_allocate(size, align);
            &&& live + footprint(live_size, live_align) <= addr || addr + footprint(size, align)
                <= live
            &&& t.is_live(live, live_size, live_align)
        }),
{
    let c = slab_class(size, align);
    let lc = slab_class(live_size, live_align);
    let cache = s.caches[c];
    let page = s.page_for(c);
    let t = s.after_allocate(size, align);
    if lc == c {
        lemma_page_fits(cache, s.buddy);
        lemma_cache_allocations_apart(cache, page, live);
    } else {
        let home = lemma_from_cache(s, size, align);
        assert(t.caches[lc] == s.caches[lc]);
        let live_home = lemma_live_in_page(s.caches[lc], live);
        if cache.owns_page(home) {
            assert(!(s.caches[c].owns_page(home) && s.caches[lc].owns_page(home)));
        } else {
            lemma_owned_page_taken(s.caches[lc], s.buddy, live_home);
            lemma_allocate(s.buddy, 0, live_home, 0);
        }
        assert(home != live_home);
    }
}

/// An allocation from a cache, beside a live block of the buddy system.
proof fn lemma_apart_cache_buddy(
    s: AllocatorState,
    size: int,
    align: int,
    live: int,
    live_size: int,
    live_align: int,
)
    requires
        s.wf(),
        AllocatorState::from_cache(size, align),
        AllocatorState::from_buddy(live_size, live_align),
        s.is_live(live, live_size, live_align),
        s.allocate_result(size, align).is_some(),
    ensures
        ({
            let addr = s.allocate_result(size, align).unwrap() as int;
            let t = s.after_allocate(size, align);
            &&& live + footprint(live_size, live_align) <= addr || addr + footprint(size, align)
                <= live
            &&& t.is_live(live, live_size, live_align)
        }),
{
    let c = slab_class(size, align);
    let k = block_class(live_size);
    let cache = s.caches[c];
    let t = s.after_allocate(size, align);
    let home = lemma_from_cache(s, size, align);
    if cache.needs_page() {
        lemma_allocate(s.buddy, 0, live, k);
    }
    if cache.owns_page(home) {
        lemma_off_owned_page(s, c, home, live, k);
    }
    assert(apart(home, 0, live, k));
    assert forall|c2: int, l: int, i: int|
        0 <= c2 < 7 && t.caches[c2].has_slab(l, i) implies apart(
        (#[trigger] t.caches[c2].slab_at(l, i)).page,
        0,
        live,
        k,
    ) by {
        let q = t.caches[c2].slab_at(l, i).page;
        if c2 == c {
            assert(t.caches[c].owns_page(q));
            if cache.owns_page(q) {
                lemma_off_owned_page(s, c, q, live, k);
            }
        } else {
            assert(t.caches[c2] == s.caches[c2]);
            assert(apart(s.caches[c2].slab_at(l, i).page, 0, live, k));
        }
    }
}

/// An allocation from the buddy system, beside anything live.
proof fn lemma_apart_buddy(
    s: AllocatorState,
    size: int,
    align: int,
    live: int,
    live_size: int,
    live_align: int,
)
    requires
        s.wf(),
        AllocatorState::from_buddy(size, align),
        s.is_live(live, live_size, live_align),
        s.allocate_result(size, align).is_some(),
    ensures
        ({
            let addr = s.allocate_result(size, align).unwrap() as int;
            let t = s.after_allocate(size, align);
            &&& live + footprint(live_size, live_align) <= addr || addr + footprint(size, align)
                <= live
            &&& t.is_live(live, live_size, live_align)
            &&& t.is_live(addr, size, align)
        }),
{
    let addr = s.allocate_result(size, align).unwrap() as int;
    let t = s.after_allocate(size, align);
    let k = block_class(size);
    lemma_allocate(s.buddy, k, 0, 0);
    assert forall|c2: int, l: int, i: int|
        0 <= c2 < 7 && t.caches[c2].has_slab(l, i) implies apart(
        (#[trigger] t.caches[c2].slab_at(l, i)).page,
        0,
        addr,
        k,
    ) by {
        assert(s.caches[c2].pages_in(s.buddy));
        lemma_allocate(s.buddy, k, s.caches[c2].slab_at(l, i).page, 0);
    }
    if AllocatorState::from_cache(live_size, live_align) {
        let lc = slab_class(live_size, live_align);
        let live_home = lemma_live_in_page(s.caches[lc], live);
        lemma_owned_page_taken(s.caches[lc], s.buddy, live_home);
        lemma_allocate(s.buddy, k, live_home, 0);
    } else {
        lemma_allocate(s.buddy, k, live, block_class(live_size));
    }
}

/// No two simultaneously live allocations share a byte: what an allocation
/// returns lies apart from everything that is handed out already, whichever
/// tier served either of them, and that stays handed out.
pub proof fn lemma_allocator_allocations_apart(
    s: AllocatorState,
    size: int,
    align: int,
    live: int,
    live_size: int,
    live_align: int,
)
    requires
        s.wf(),
        s.is_live(live, live_size, live_align),
        s.allocate_result(size, align).is_some(),
    ensures
        ({
            let addr = s.allocate_result(size, align).unwrap() as int;
            let t = s.after_allocate(size, align);
            &&& live + footprint(live_size, live_align) <= addr || addr + footprint(size, align)
                <= live
            &&& t.is_live(live, live_size, live_align)
            &&& t.is_live(addr, size, align)
        }),
{
    if AllocatorState::from_cache(size, align) {
        let home = lemma_from_cache(s, size, align);
        if AllocatorState::from_cache(live_size, live_align) {
            lemma_apart_cache_cache(s, size, align, live, live_size, live_align);
        } else {
            lemma_apart_cache_buddy(s, size, align, live, live_size, live_align);
        }
    } else {
        lemma_apart_buddy(s, size, align, live, live_size, live_align);
    }
}

/// Freeing an object of a cache leaves every other live object of the
/// cache live.
pub proof fn lemma_cache_deallocate_keeps_live(s: CacheState, freed: usize, live: int)
    requires
        s.wf(),
        s.is_live(freed as int),
        s.is_live(live),
        live != freed,
    ensures
        s.after_deallocate(freed).is_live(live),
{
    let u = s.without_owner(freed as int);
    let own = s.owner(freed as int).unwrap();
    let slab = own.pushed(freed);
    let t = u.settle(slab);
    lemma_without_owner(s, freed as int);
    lemma_capacity(s.obj_size);
    lemma_used_slot_leaves_room(own, freed as int);
    let cap = own.obj_size.spec_capacity();
    let n = own.free.len() as int;
    let b = own.obj_size.spec_bytes();
    assert((cap - n) * b == (cap - (n + 1)) * b + b) by (nonlinear_arith);
    assert(slab.wf());
    if u.owns_page(slab.page) {
        let (l, i) = choose|l: int, i: int|
            u.has_slab(l, i) && (#[trigger] u.slab_at(l, i)).page == slab.page;
        assert(false);
    }
    lemma_settled(u, slab);
    let from = lemma_owner_place(s, freed as int);
    let place = lemma_owner_place(s, live);
    let keeper = s.slab_at(place.0, place.1);
    if place == from {
        assert(slab.is_used(live));
        lemma_owner_after_settle(u, slab, live);
    } else {
        let j = if place.0 == from.0 && place.1 > from.1 {
            place.1 - 1
        } else {
            place.1
        };
        assert(u.has_slab(place.0, j) && u.slab_at(place.0, j) == keeper);
        assert(t.has_slab(place.0, j) && t.slab_at(place.0, j) == keeper);
        lemma_unique_owner(t, place.0, j, live);
    }
}

/// Freeing leaves everything else that is live in the allocator live.
pub proof fn lemma_allocator_deallocate_keeps_live(
    s: AllocatorState,
    freed: usize,
    freed_size: int,
    freed_align: int,
    live: int,
    live_size: int,
    live_align: int,
)
    requires
        s.wf(),
        s.is_live(freed as int, freed_size, freed_align),
        s.is_live(live, live_size, live_align),
        live + footprint(live_size, live_align) <= freed || freed + footprint(
            freed_size,
            freed_align,
        ) <= live,
    ensures
        s.after_deallocate(freed, freed_size, freed_align).is_live(live, live_size, live_align),
{
    let t = s.after_deallocate(freed, freed_size, freed_align);
    if AllocatorState::from_cache(freed_size, freed_align) {
        let c = slab_class(freed_size, freed_align);
        if AllocatorState::from_cache(live_size, live_align) {
            let lc = slab_class(live_size, live_align);
            if lc == c {
                lemma_cache_deallocate_keeps_live(s.caches[c], freed, live);
            } else {
                assert(t.caches[lc] == s.caches[lc]);
            }
        } else {
            let k = block_class(live_size);
            assert forall|c2: int, l: int, i: int|
                0 <= c2 < 7 && t.caches[c2].has_slab(l, i) implies apart(
                (#[trigger] t.caches[c2].slab_at(l, i)).page,
                0,
                live,
                k,
            ) by {
                let q = t.caches[c2].slab_at(l, i).page;
                if c2 == c {
                    assert(t.caches[c].owns_page(q));
                    lemma_deallocate_pages(s.caches[c], freed, q);
                    lemma_off_owned_page(s, c, q, live, k);
                } else {
                    assert(t.caches[c2] == s.caches[c2]);
                    assert(apart(s.caches[c2].slab_at(l, i).page, 0, live, k));
                }
            }
        }
    } else {
        let k = block_class(freed_size);
        if AllocatorState::from_buddy(live_size, live_align) {
            lemma_deallocate(s.buddy, freed as int, k, live, block_class(live_size));
        }
    }
}

} // verus!
