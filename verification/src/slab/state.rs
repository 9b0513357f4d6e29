//! The slab tier as mathematical states: of a slab, of a cache and of the
//! allocator, with what their steps preserve.

use vstd::prelude::*;
use crate::buddy::geometry::block_class;
use crate::buddy::state::{BuddyState, apart};
use crate::slab::{ObjectSize, SlabKind, lemma_capacity};
use crate::slab::list::{has_owner, is_owner_position, lemma_owner_position, owner_position};

verus! {

/// State of a slab.
pub struct SlabState {
    /// The list that the slab was last put into.
    pub kind: SlabKind,
    /// Class of the objects in the slab.
    pub obj_size: ObjectSize,
    /// Bytes of the slots that are handed out.
    pub used_bytes: int,
    /// Address of the page.
    pub page: int,
    /// The free slots; the last one is handed out first.
    pub free: Seq<usize>,
}

impl SlabState {
    /// Whether `addr` lies in the page of the slab.
    pub open spec fn contains(self, addr: int) -> bool {
        self.page <= addr < self.page + 4096
    }

    /// Whether `addr` is the start of a slot of the slab.
    pub open spec fn is_slot(self, addr: int) -> bool {
        &&& self.page <= addr
        &&& addr + self.obj_size.spec_bytes() <= self.page + 4096
        &&& (addr - self.page) % self.obj_size.spec_bytes() == 0
    }

    /// Whether the slot at `addr` is handed out.
    pub open spec fn is_used(self, addr: int) -> bool {
        self.is_slot(addr) && forall|i: int| 0 <= i < self.free.len() ==> self.free[i] != addr
    }

    /// The kind that the occupancy of the slab calls for.
    pub open spec fn occupancy(self) -> SlabKind {
        if self.free.len() == self.obj_size.spec_capacity() {
            SlabKind::Empty
        } else if self.free.len() == 0 {
            SlabKind::Full
        } else {
            SlabKind::Partial
        }
    }

    /// The page is aligned and inside the address space, every free entry
    /// is a slot and none occurs twice, and the used bytes are those of the
    /// slots that are not free.
    pub open spec fn wf(self) -> bool {
        &&& 0 <= self.page
        &&& self.page % 4096 == 0
        &&& self.page + 4096 <= usize::MAX
        &&& self.free.len() <= self.obj_size.spec_capacity()
        &&& self.used_bytes == (self.obj_size.spec_capacity() - self.free.len())
            * self.obj_size.spec_bytes()
        &&& forall|i: int| 0 <= i < self.free.len() ==> self.is_slot(#[trigger] self.free[i] as int)
        &&& forall|i: int, j: int|
            0 <= i < j < self.free.len() ==> #[trigger] self.free[i] != #[trigger] self.free[j]
    }

    /// The slab after its last free slot has been handed out.
    pub open spec fn popped(self) -> Self {
        SlabState {
            used_bytes: self.used_bytes + self.obj_size.spec_bytes(),
            free: self.free.drop_last(),
            ..self
        }
    }

    /// The slab after the slot at `addr` has been given back.
    pub open spec fn pushed(self, addr: usize) -> Self {
        SlabState {
            used_bytes: self.used_bytes - self.obj_size.spec_bytes(),
            free: self.free.push(addr),
            ..self
        }
    }

    /// The slab, marked as being of `kind`.
    pub open spec fn with_kind(self, kind: SlabKind) -> Self {
        SlabState { kind, ..self }
    }
}

/// A slab on a fresh page: every slot is free, the lowest is handed out
/// first, and the slab is marked empty.
pub open spec fn fresh_slab(obj_size: ObjectSize, page: int) -> SlabState {
    SlabState {
        kind: SlabKind::Empty,
        obj_size,
        used_bytes: 0,
        page,
        free: Seq::new(
            obj_size.spec_capacity() as nat,
            |i: int| (page + (obj_size.spec_capacity() - 1 - i) * obj_size.spec_bytes()) as usize,
        ),
    }
}

/// A slab with a slot that is handed out has fewer free slots than a page
/// holds objects.
pub proof fn lemma_used_slot_leaves_room(slab: SlabState, addr: int)
    requires
        slab.wf(),
        slab.is_used(addr),
    ensures
        slab.free.len() < slab.obj_size.spec_capacity(),
{
    let b = slab.obj_size.spec_bytes();
    let cap = slab.obj_size.spec_capacity();
    lemma_capacity(slab.obj_size);
    let places = Seq::new(slab.free.len(), |i: int| (slab.free[i] - slab.page) / b);
    let place = (addr - slab.page) / b;
    vstd::arithmetic::div_mod::lemma_fundamental_div_mod(addr - slab.page, b);
    assert(0 <= place < cap) by (nonlinear_arith)
        requires
            addr - slab.page == b * place,
            0 <= addr - slab.page,
            addr - slab.page + b <= cap * b,
            b > 0,
    ;
    assert forall|i: int| 0 <= i < places.len() implies 0 <= #[trigger] places[i] < cap
        && places[i] != place by {
        let off = slab.free[i] - slab.page;
        assert(slab.is_slot(slab.free[i] as int));
        vstd::arithmetic::div_mod::lemma_fundamental_div_mod(off, b);
        assert(0 <= places[i] < cap) by (nonlinear_arith)
            requires
                off == b * places[i],
                0 <= off,
                off + b <= cap * b,
                b > 0,
        ;
        assert(slab.free[i] != addr);
    }
    assert forall|i: int, j: int| 0 <= i < j < places.len() implies places[i] != places[j] by {
        assert(slab.is_slot(slab.free[i] as int));
        assert(slab.is_slot(slab.free[j] as int));
        vstd::arithmetic::div_mod::lemma_fundamental_div_mod(slab.free[i] - slab.page, b);
        vstd::arithmetic::div_mod::lemma_fundamental_div_mod(slab.free[j] - slab.page, b);
        assert(slab.free[i] != slab.free[j]);
    }
    assert(places.no_duplicates());
    places.unique_seq_to_set();
    let room = vstd::set_lib::set_int_range(0, cap).remove(place);
    vstd::set_lib::lemma_int_range(0, cap);
    assert(room.len() == cap - 1);
    assert forall|x: int| places.to_set().contains(x) implies room.contains(x) by {
        let i = choose|i: int| 0 <= i < places.len() && places[i] == x;
        assert(0 <= places[i] < cap);
    }
    vstd::set_lib::lemma_len_subset(places.to_set(), room);
}

/// A fresh slab is well formed and empty.
pub proof fn lemma_fresh_slab(obj_size: ObjectSize, page: int)
    requires
        0 <= page,
        page % 4096 == 0,
        page + 4096 <= usize::MAX,
    ensures
        fresh_slab(obj_size, page).wf(),
        fresh_slab(obj_size, page).occupancy() == SlabKind::Empty,
        fresh_slab(obj_size, page).free.len() == obj_size.spec_capacity(),
{
    let s = fresh_slab(obj_size, page);
    let cap = obj_size.spec_capacity();
    let b = obj_size.spec_bytes();
    lemma_capacity(obj_size);
    assert(0 * b == 0);
    assert forall|i: int| 0 <= i < s.free.len() implies s.is_slot(#[trigger] s.free[i] as int) by {
        let m = cap - 1 - i;
        assert(0 <= m * b && m * b + b <= cap * b) by (nonlinear_arith)
            requires
                0 <= m < cap,
                b > 0,
        ;
        vstd::arithmetic::div_mod::lemma_mod_multiples_basic(m, b);
    }
    assert forall|i: int, j: int| 0 <= i < j < s.free.len() implies #[trigger] s.free[i]
        != #[trigger] s.free[j] by {
        let m = cap - 1 - i;
        let n = cap - 1 - j;
        assert(0 <= n * b && n * b < m * b && m * b + b <= cap * b) by (nonlinear_arith)
            requires
                0 <= n < m < cap,
                b > 0,
        ;
    }
}

/// Whether `slab` may stand in the list of `kind` of a cache for objects of
/// `obj_size`: it is well formed, of that object size, marked as of that
/// kind, and occupied as the kind says.
pub open spec fn slab_fits(slab: SlabState, obj_size: ObjectSize, kind: SlabKind) -> bool {
    &&& slab.wf()
    &&& slab.obj_size == obj_size
    &&& slab.kind == kind
    &&& slab.occupancy() == kind
}

/// Bytes of the free slots of the slabs of `list`.
pub open spec fn free_slot_bytes(list: Seq<SlabState>) -> int
    decreases list.len(),
{
    if list.len() == 0 {
        0
    } else {
        free_slot_bytes(list.drop_last()) + list.last().free.len() * list.last().obj_size.spec_bytes()
    }
}

/// State of a cache.
pub struct CacheState {
    /// Class of the objects of the cache.
    pub obj_size: ObjectSize,
    /// The slabs without a free slot; the last one is the head.
    pub full: Seq<SlabState>,
    /// The slabs with free and used slots; the last one is the head.
    pub partial: Seq<SlabState>,
    /// The slabs without a used slot; the last one is the head.
    pub empty: Seq<SlabState>,
}

impl CacheState {
    /// Number of slabs in list `l`: 0 for the full list, 1 for the partial
    /// list, 2 for the empty list.
    pub open spec fn len_at(self, l: int) -> int {
        if l == 0 {
            self.full.len() as int
        } else if l == 1 {
            self.partial.len() as int
        } else {
            self.empty.len() as int
        }
    }

    /// Whether list `l` has a slab at position `i`.
    pub open spec fn has_slab(self, l: int, i: int) -> bool {
        0 <= l < 3 && 0 <= i < self.len_at(l)
    }

    /// The slab at position `i` of list `l`.
    pub open spec fn slab_at(self, l: int, i: int) -> SlabState {
        if l == 0 {
            self.full[i]
        } else if l == 1 {
            self.partial[i]
        } else {
            self.empty[i]
        }
    }

    /// No two slabs of the cache stand on the same page.
    pub open spec fn pages_apart(self) -> bool {
        forall|l1: int, i1: int, l2: int, i2: int|
            self.has_slab(l1, i1) && self.has_slab(l2, i2) && !(l1 == l2 && i1 == i2) ==> (
            #[trigger] self.slab_at(l1, i1)).page != (#[trigger] self.slab_at(l2, i2)).page
    }

    /// Whether a slab of the cache stands on `page`.
    pub open spec fn owns_page(self, page: int) -> bool {
        exists|l: int, i: int| self.has_slab(l, i) && (#[trigger] self.slab_at(l, i)).page == page
    }

    /// Every page of the cache is handed out by the buddy system in state
    /// `buddy`.
    pub open spec fn pages_in(self, buddy: BuddyState) -> bool {
        forall|l: int, i: int|
            self.has_slab(l, i) ==> buddy.is_taken((#[trigger] self.slab_at(l, i)).page, 0)
    }

    /// Every slab is in the list that matches its occupancy, and no two
    /// slabs stand on the same page.
    pub open spec fn wf(self) -> bool {
        &&& self.pages_apart()
        &&& forall|i: int|
            0 <= i < self.full.len() ==> slab_fits(
                #[trigger] self.full[i],
                self.obj_size,
                SlabKind::Full,
            )
        &&& forall|i: int|
            0 <= i < self.partial.len() ==> slab_fits(
                #[trigger] self.partial[i],
                self.obj_size,
                SlabKind::Partial,
            )
        &&& forall|i: int|
            0 <= i < self.empty.len() ==> slab_fits(
                #[trigger] self.empty[i],
                self.obj_size,
                SlabKind::Empty,
            )
    }

    /// Bytes of the free slots of the cache.
    pub open spec fn free_bytes(self) -> int {
        free_slot_bytes(self.full) + free_slot_bytes(self.partial) + free_slot_bytes(self.empty)
    }

    /// Whether the cache has no slab with a free slot, so that an
    /// allocation needs a new page.
    pub open spec fn needs_page(self) -> bool {
        self.partial.len() == 0 && self.empty.len() == 0
    }

    /// The slab that serves the next allocation: the head of the partial
    /// list; failing that, the head of the empty list; failing that, a
    /// fresh slab on `page`, if there is one.
    pub open spec fn source(self, page: Option<usize>) -> Option<SlabState> {
        if self.partial.len() > 0 {
            Some(self.partial.last())
        } else if self.empty.len() > 0 {
            Some(self.empty.last())
        } else {
            match page {
                Some(p) => Some(fresh_slab(self.obj_size, p as int)),
                None => None,
            }
        }
    }

    /// The cache without the slab that serves the next allocation.
    pub open spec fn without_source(self) -> Self {
        if self.partial.len() > 0 {
            CacheState { partial: self.partial.drop_last(), ..self }
        } else if self.empty.len() > 0 {
            CacheState { empty: self.empty.drop_last(), ..self }
        } else {
            self
        }
    }

    /// The cache with `slab` at the head of the list that matches its
    /// occupancy, and marked as of that kind.
    pub open spec fn settle(self, slab: SlabState) -> Self {
        match slab.occupancy() {
            SlabKind::Full => CacheState {
                full: self.full.push(slab.with_kind(SlabKind::Full)),
                ..self
            },
            SlabKind::Partial => CacheState {
                partial: self.partial.push(slab.with_kind(SlabKind::Partial)),
                ..self
            },
            SlabKind::Empty => CacheState {
                empty: self.empty.push(slab.with_kind(SlabKind::Empty)),
                ..self
            },
        }
    }

    /// What an allocation returns, `page` being what the page allocator
    /// gave if it was asked: the free slot that the serving slab got back
    /// last.
    pub open spec fn allocate_result(self, page: Option<usize>) -> Option<usize> {
        match self.source(page) {
            Some(slab) => Some(slab.free.last()),
            None => None,
        }
    }

    /// The cache after an allocation: the serving slab has handed out a
    /// slot and stands at the head of the list that matches what it has
    /// left.
    pub open spec fn after_allocate(self, page: Option<usize>) -> Self {
        match self.source(page) {
            Some(slab) => self.without_source().settle(slab.popped()),
            None => self,
        }
    }

    /// The slab that owns `addr`: the one nearest the head of the partial
    /// list whose page holds it; failing that, of the full list.
    pub open spec fn owner(self, addr: int) -> Option<SlabState> {
        if has_owner(self.partial, addr) {
            Some(self.partial[owner_position(self.partial, addr)])
        } else if has_owner(self.full, addr) {
            Some(self.full[owner_position(self.full, addr)])
        } else {
            None
        }
    }

    /// The cache without the slab that owns `addr`.
    pub open spec fn without_owner(self, addr: int) -> Self {
        if has_owner(self.partial, addr) {
            CacheState {
                partial: self.partial.remove(owner_position(self.partial, addr)),
                ..self
            }
        } else if has_owner(self.full, addr) {
            CacheState { full: self.full.remove(owner_position(self.full, addr)), ..self }
        } else {
            self
        }
    }

    /// Whether `addr` is an object of the cache that is handed out: a slot
    /// of the slab that owns it, and not free.
    pub open spec fn is_live(self, addr: int) -> bool {
        match self.owner(addr) {
            Some(slab) => slab.is_used(addr),
            None => false,
        }
    }

    /// The cache after the object at `addr` has been freed: the slab that
    /// owns it has taken the slot back and stands at the head of the list
    /// that matches what it has left.
    pub open spec fn after_deallocate(self, addr: usize) -> Self {
        self.without_owner(addr as int).settle(self.owner(addr as int).unwrap().pushed(addr))
    }
}

/// Two aligned pages that hold the same address are the same page.
pub proof fn lemma_same_page(first: int, second: int, addr: int)
    requires
        first % 4096 == 0,
        second % 4096 == 0,
        first <= addr < first + 4096,
        second <= addr < second + 4096,
    ensures
        first == second,
{
}

/// Taking out the slab that serves the next allocation leaves a well-formed
/// cache none of whose slabs stands on the page of that slab.
pub proof fn lemma_without_source(s: CacheState)
    requires
        s.wf(),
        !s.needs_page(),
    ensures
        s.without_source().wf(),
        s.source(None).unwrap().wf(),
        s.source(None).unwrap().obj_size == s.obj_size,
        s.source(None).unwrap().free.len() > 0,
        s.owns_page(s.source(None).unwrap().page),
        forall|l: int, i: int|
            s.without_source().has_slab(l, i) ==> s.has_slab(l, i) && (
            #[trigger] s.without_source().slab_at(l, i)) == s.slab_at(l, i) && s.slab_at(l, i).page
                != s.source(None).unwrap().page,
        forall|page: int|
            s.owns_page(page) <==> (#[trigger] s.without_source().owns_page(page) || page
                == s.source(None).unwrap().page),
{
    let t = s.without_source();
    let src = s.source(None).unwrap();
    lemma_capacity(s.obj_size);
    let sl: int = if s.partial.len() > 0 {
        1
    } else {
        2
    };
    let si = s.len_at(sl) - 1;
    assert(s.has_slab(sl, si));
    assert(s.slab_at(sl, si) == src);
    assert forall|l: int, i: int| t.has_slab(l, i) implies s.has_slab(l, i) && (
    #[trigger] t.slab_at(l, i)) == s.slab_at(l, i) && s.slab_at(l, i).page != src.page by {
        assert(t.slab_at(l, i) == s.slab_at(l, i));
        assert(!(l == sl && i == si));
    }
    assert(t.pages_apart()) by {
        assert forall|l1: int, i1: int, l2: int, i2: int|
            t.has_slab(l1, i1) && t.has_slab(l2, i2) && !(l1 == l2 && i1 == i2) implies (
        #[trigger] t.slab_at(l1, i1)).page != (#[trigger] t.slab_at(l2, i2)).page by {
            assert(t.slab_at(l1, i1) == s.slab_at(l1, i1));
            assert(t.slab_at(l2, i2) == s.slab_at(l2, i2));
        }
    }
    assert forall|i: int| 0 <= i < t.full.len() implies slab_fits(
        #[trigger] t.full[i],
        t.obj_size,
        SlabKind::Full,
    ) by {
        assert(t.full[i] == s.full[i]);
    }
    assert forall|i: int| 0 <= i < t.partial.len() implies slab_fits(
        #[trigger] t.partial[i],
        t.obj_size,
        SlabKind::Partial,
    ) by {
        assert(t.partial[i] == s.partial[i]);
    }
    assert forall|i: int| 0 <= i < t.empty.len() implies slab_fits(
        #[trigger] t.empty[i],
        t.obj_size,
        SlabKind::Empty,
    ) by {
        assert(t.empty[i] == s.empty[i]);
    }
    if sl == 1 {
        assert(slab_fits(s.partial[si], s.obj_size, SlabKind::Partial));
    } else {
        assert(slab_fits(s.empty[si], s.obj_size, SlabKind::Empty));
    }
    assert forall|page: int|
        s.owns_page(page) <==> (#[trigger] t.owns_page(page) || page == src.page) by {
        if s.owns_page(page) && page != src.page {
            let (l, i) = choose|l: int, i: int|
                s.has_slab(l, i) && (#[trigger] s.slab_at(l, i)).page == page;
            assert(t.has_slab(l, i) && t.slab_at(l, i) == s.slab_at(l, i));
        }
        if t.owns_page(page) {
            let (l, i) = choose|l: int, i: int|
                t.has_slab(l, i) && (#[trigger] t.slab_at(l, i)).page == page;
            assert(s.slab_at(l, i).page == page);
        }
    }
}

/// Taking out the slab that owns `addr` leaves a well-formed cache none of
/// whose slabs stands on the page of that slab.
pub proof fn lemma_without_owner(s: CacheState, addr: int)
    requires
        s.wf(),
        s.owner(addr).is_some(),
    ensures
        s.without_owner(addr).wf(),
        s.owner(addr).unwrap().wf(),
        s.owner(addr).unwrap().obj_size == s.obj_size,
        s.owner(addr).unwrap().contains(addr),
        s.owner(addr).unwrap().free.len() < s.obj_size.spec_capacity(),
        s.owns_page(s.owner(addr).unwrap().page),
        forall|l: int, i: int|
            s.without_owner(addr).has_slab(l, i) ==> (#[trigger] s.without_owner(addr).slab_at(
                l,
                i,
            )).page != s.owner(addr).unwrap().page && s.owns_page(
                s.without_owner(addr).slab_at(l, i).page,
            ),
        forall|page: int|
            s.owns_page(page) <==> (#[trigger] s.without_owner(addr).owns_page(page) || page
                == s.owner(addr).unwrap().page),
{
    let t = s.without_owner(addr);
    let own = s.owner(addr).unwrap();
    lemma_capacity(s.obj_size);
    let sl: int = if has_owner(s.partial, addr) {
        1
    } else {
        0
    };
    let list = if sl == 1 {
        s.partial
    } else {
        s.full
    };
    let w = choose|i: int| 0 <= i < list.len() && (#[trigger] list[i]).contains(addr);
    lemma_last_owner(list, addr, w);
    let si = owner_position(list, addr);
    assert(is_owner_position(list, addr, si));
    assert(s.has_slab(sl, si));
    assert(s.slab_at(sl, si) == own);
    if sl == 1 {
        assert(slab_fits(s.partial[si], s.obj_size, SlabKind::Partial));
    } else {
        assert(slab_fits(s.full[si], s.obj_size, SlabKind::Full));
    }
    assert forall|l: int, i: int| t.has_slab(l, i) implies ({
        let j = if l == sl && i >= si {
            i + 1
        } else {
            i
        };
        s.has_slab(l, j) && #[trigger] t.slab_at(l, i) == s.slab_at(l, j) && !(l == sl && j == si)
    }) by {}
    assert forall|l: int, i: int| t.has_slab(l, i) implies (#[trigger] t.slab_at(l, i)).page
        != own.page && s.owns_page(t.slab_at(l, i).page) by {
        let j = if l == sl && i >= si {
            i + 1
        } else {
            i
        };
        assert(t.slab_at(l, i) == s.slab_at(l, j));
    }
    assert(t.pages_apart()) by {
        assert forall|l1: int, i1: int, l2: int, i2: int|
            t.has_slab(l1, i1) && t.has_slab(l2, i2) && !(l1 == l2 && i1 == i2) implies (
        #[trigger] t.slab_at(l1, i1)).page != (#[trigger] t.slab_at(l2, i2)).page by {
            let j1 = if l1 == sl && i1 >= si {
                i1 + 1
            } else {
                i1
            };
            let j2 = if l2 == sl && i2 >= si {
                i2 + 1
            } else {
                i2
            };
            assert(t.slab_at(l1, i1) == s.slab_at(l1, j1));
            assert(t.slab_at(l2, i2) == s.slab_at(l2, j2));
        }
    }
    assert forall|i: int| 0 <= i < t.full.len() implies slab_fits(
        #[trigger] t.full[i],
        t.obj_size,
        SlabKind::Full,
    ) by {
        assert(t.slab_at(0, i) == t.full[i]);
        let j = if 0 == sl && i >= si {
            i + 1
        } else {
            i
        };
        assert(t.full[i] == s.full[j]);
    }
    assert forall|i: int| 0 <= i < t.partial.len() implies slab_fits(
        #[trigger] t.partial[i],
        t.obj_size,
        SlabKind::Partial,
    ) by {
        let j = if 1 == sl && i >= si {
            i + 1
        } else {
            i
        };
        assert(t.partial[i] == s.partial[j]);
    }
    assert forall|i: int| 0 <= i < t.empty.len() implies slab_fits(
        #[trigger] t.empty[i],
        t.obj_size,
        SlabKind::Empty,
    ) by {
        assert(t.empty[i] == s.empty[i]);
    }
    assert forall|page: int|
        s.owns_page(page) <==> (#[trigger] t.owns_page(page) || page == own.page) by {
        if s.owns_page(page) && page != own.page {
            let (l, i) = choose|l: int, i: int|
                s.has_slab(l, i) && (#[trigger] s.slab_at(l, i)).page == page;
            let j = if l == sl && i > si {
                i - 1
            } else {
                i
            };
            assert(t.has_slab(l, j) && t.slab_at(l, j) == s.slab_at(l, i));
        }
        if t.owns_page(page) {
            let (l, i) = choose|l: int, i: int|
                t.has_slab(l, i) && (#[trigger] t.slab_at(l, i)).page == page;
            assert(s.owns_page(t.slab_at(l, i).page));
        }
    }
}

/// A list with a slab that holds `addr` has one nearest its head.
pub proof fn lemma_last_owner(list: Seq<SlabState>, addr: int, i: int)
    requires
        0 <= i < list.len(),
        list[i].contains(addr),
    ensures
        is_owner_position(list, addr, owner_position(list, addr)),
    decreases list.len() - i,
{
    if exists|j: int| i < j < list.len() && (#[trigger] list[j]).contains(addr) {
        let j = choose|j: int| i < j < list.len() && (#[trigger] list[j]).contains(addr);
        lemma_last_owner(list, addr, j);
    } else {
        assert(is_owner_position(list, addr, i));
    }
}

/// Settling a well-formed slab of the cache's object size, on a page that
/// no slab of the cache stands on, keeps the cache well formed.
pub proof fn lemma_settled(s: CacheState, slab: SlabState)
    requires
        s.wf(),
        slab.wf(),
        slab.obj_size == s.obj_size,
        !s.owns_page(slab.page),
    ensures
        s.settle(slab).wf(),
        forall|page: int| s.settle(slab).owns_page(page) <==> (s.owns_page(page) || page == slab.page),
{
    let t = s.settle(slab);
    let dl: int = match slab.occupancy() {
        SlabKind::Full => 0,
        SlabKind::Partial => 1,
        SlabKind::Empty => 2,
    };
    let di = s.len_at(dl);
    assert(t.has_slab(dl, di));
    assert(t.slab_at(dl, di).page == slab.page);
    assert forall|l: int, i: int| t.has_slab(l, i) && !(l == dl && i == di) implies s.has_slab(
        l,
        i,
    ) && #[trigger] t.slab_at(l, i) == s.slab_at(l, i) by {}
    assert forall|l: int, i: int| s.has_slab(l, i) implies t.has_slab(l, i) && t.slab_at(l, i)
        == #[trigger] s.slab_at(l, i) by {}
    assert(t.pages_apart()) by {
        assert forall|l1: int, i1: int, l2: int, i2: int|
            t.has_slab(l1, i1) && t.has_slab(l2, i2) && !(l1 == l2 && i1 == i2) implies (
        #[trigger] t.slab_at(l1, i1)).page != (#[trigger] t.slab_at(l2, i2)).page by {
            if !(l1 == dl && i1 == di) {
                assert(t.slab_at(l1, i1) == s.slab_at(l1, i1));
            }
            if !(l2 == dl && i2 == di) {
                assert(t.slab_at(l2, i2) == s.slab_at(l2, i2));
            }
        }
    }
    assert forall|page: int| t.owns_page(page) <==> (s.owns_page(page) || page
        == slab.page) by {
        if t.owns_page(page) {
            let (l, i) = choose|l: int, i: int|
                t.has_slab(l, i) && (#[trigger] t.slab_at(l, i)).page == page;
            if !(l == dl && i == di) {
                assert(s.slab_at(l, i).page == page);
            }
        }
        if s.owns_page(page) {
            let (l, i) = choose|l: int, i: int|
                s.has_slab(l, i) && (#[trigger] s.slab_at(l, i)).page == page;
            assert(t.slab_at(l, i).page == page);
        }
    }
    assert forall|i: int| 0 <= i < t.full.len() implies slab_fits(
        #[trigger] t.full[i],
        t.obj_size,
        SlabKind::Full,
    ) by {
        if i < s.full.len() {
            assert(t.full[i] == s.full[i]);
        }
    }
    assert forall|i: int| 0 <= i < t.partial.len() implies slab_fits(
        #[trigger] t.partial[i],
        t.obj_size,
        SlabKind::Partial,
    ) by {
        if i < s.partial.len() {
            assert(t.partial[i] == s.partial[i]);
        }
    }
    assert forall|i: int| 0 <= i < t.empty.len() implies slab_fits(
        #[trigger] t.empty[i],
        t.obj_size,
        SlabKind::Empty,
    ) by {
        if i < s.empty.len() {
            assert(t.empty[i] == s.empty[i]);
        }
    }
}

/// A used slot of a slab that has just been settled is live.
pub proof fn lemma_owner_after_settle(s: CacheState, slab: SlabState, addr: int)
    requires
        s.wf(),
        slab.wf(),
        slab.obj_size == s.obj_size,
        !s.owns_page(slab.page),
        slab.is_used(addr),
    ensures
        s.settle(slab).is_live(addr),
        s.settle(slab).owner(addr) == Some(slab.with_kind(slab.occupancy())),
        s.settle(slab).without_owner(addr) == s,
{
    let t = s.settle(slab);
    lemma_capacity(slab.obj_size);
    lemma_used_slot_leaves_room(slab, addr);
    lemma_settled(s, slab);
    assert(slab.contains(addr));
    let dl: int = if slab.free.len() == 0 {
        0
    } else {
        1
    };
    let di = s.len_at(dl);
    assert(t.has_slab(dl, di));
    assert(t.slab_at(dl, di) == slab.with_kind(slab.occupancy()));
    assert forall|l: int, i: int|
        t.has_slab(l, i) && (#[trigger] t.slab_at(l, i)).contains(addr) implies l == dl && i
        == di by {
        assert(slab_fits(t.slab_at(l, i), t.obj_size, t.slab_at(l, i).kind));
        lemma_same_page(t.slab_at(l, i).page, slab.page, addr);
    }
    if dl == 0 {
        if has_owner(t.partial, addr) {
            let i = choose|i: int| 0 <= i < t.partial.len() && (#[trigger] t.partial[i]).contains(
                addr,
            );
            assert(t.slab_at(1, i).contains(addr));
        }
        assert forall|j: int| di < j < t.full.len() implies !(#[trigger] t.full[j]).contains(
            addr,
        ) by {}
        assert(t.full[di].contains(addr));
        assert(is_owner_position(t.full, addr, di));
        lemma_owner_position(t.full, addr, di);
        assert(t.full.remove(di) =~= s.full);
    } else {
        assert(t.partial[di].contains(addr));
        assert(is_owner_position(t.partial, addr, di));
        lemma_owner_position(t.partial, addr, di);
        assert(t.partial.remove(di) =~= s.partial);
    }
}

/// Freeing an object leaves the cache on the pages it stood on.
pub proof fn lemma_deallocate_keeps_pages(s: CacheState, addr: usize, buddy: BuddyState)
    requires
        s.wf(),
        s.is_live(addr as int),
        s.pages_in(buddy),
    ensures
        s.after_deallocate(addr).pages_in(buddy),
        s.after_deallocate(addr).wf(),
{
    let own = s.owner(addr as int).unwrap();
    let u = s.without_owner(addr as int);
    let t = s.after_deallocate(addr);
    lemma_without_owner(s, addr as int);
    lemma_capacity(s.obj_size);
    let slab = own.pushed(addr);
    let cap = own.obj_size.spec_capacity();
    let n = own.free.len() as int;
    let b = own.obj_size.spec_bytes();
    assert((cap - n) * b == (cap - (n + 1)) * b + b) by (nonlinear_arith);
    assert(slab.wf());
    if u.owns_page(slab.page) {
        let (l, i) = choose|l: int, i: int|
            u.has_slab(l, i) && (#[trigger] u.slab_at(l, i)).page == slab.page;
        assert(false);
    }
    lemma_settled(u, slab);
    assert forall|l: int, i: int| t.has_slab(l, i) implies buddy.is_taken(
        (#[trigger] t.slab_at(l, i)).page,
        0,
    ) by {
        let p = t.slab_at(l, i).page;
        assert(t.owns_page(p));
        if p != slab.page {
            assert(u.owns_page(p));
            let (l0, i0) = choose|l0: int, i0: int|
                u.has_slab(l0, i0) && (#[trigger] u.slab_at(l0, i0)).page == p;
            assert(s.owns_page(p));
        }
        assert(s.owns_page(p));
        let (l1, i1) = choose|l1: int, i1: int|
            s.has_slab(l1, i1) && (#[trigger] s.slab_at(l1, i1)).page == p;
    }
}

/// The pages of a cache after an allocation: those it stood on, and the
/// page it was given if it needed one.
pub proof fn lemma_allocate_pages(s: CacheState, page: Option<usize>, q: int)
    requires
        s.wf(),
        s.source(page).is_some(),
        s.needs_page() ==> page.unwrap() % 4096 == 0 && page.unwrap() + 4096 <= usize::MAX
            && !s.owns_page(page.unwrap() as int),
    ensures
        s.after_allocate(page).owns_page(q) <==> (s.owns_page(q) || (s.needs_page() && q
            == page.unwrap())),
{
    let src = s.source(page).unwrap();
    let u = s.without_source();
    lemma_capacity(s.obj_size);
    if s.needs_page() {
        lemma_fresh_slab(s.obj_size, page.unwrap() as int);
    } else {
        lemma_without_source(s);
        if u.owns_page(src.page) {
            let (l, i) = choose|l: int, i: int|
                u.has_slab(l, i) && (#[trigger] u.slab_at(l, i)).page == src.page;
            assert(false);
        }
    }
    let cap = s.obj_size.spec_capacity();
    let n = src.free.len() as int;
    let b = s.obj_size.spec_bytes();
    assert((cap - (n - 1)) * b == (cap - n) * b + b) by (nonlinear_arith);
    assert(src.popped().wf());
    lemma_settled(u, src.popped());
    let t = u.settle(src.popped());
    assert(s.after_allocate(page) == t);
    assert(t.owns_page(q) <==> (u.owns_page(q) || q == src.page));
    if !s.needs_page() {
        assert(s.owns_page(q) <==> (u.owns_page(q) || q == src.page));
    }
}

/// The pages of a cache after an object has been freed: those it stood on.
pub proof fn lemma_deallocate_pages(s: CacheState, addr: usize, q: int)
    requires
        s.wf(),
        s.is_live(addr as int),
    ensures
        s.after_deallocate(addr).owns_page(q) <==> s.owns_page(q),
{
    let own = s.owner(addr as int).unwrap();
    let u = s.without_owner(addr as int);
    lemma_without_owner(s, addr as int);
    lemma_capacity(s.obj_size);
    let slab = own.pushed(addr);
    let cap = own.obj_size.spec_capacity();
    let n = own.free.len() as int;
    let b = own.obj_size.spec_bytes();
    assert((cap - n) * b == (cap - (n + 1)) * b + b) by (nonlinear_arith);
    assert(slab.wf());
    if u.owns_page(slab.page) {
        let (l, i) = choose|l: int, i: int|
            u.has_slab(l, i) && (#[trigger] u.slab_at(l, i)).page == slab.page;
        assert(false);
    }
    lemma_settled(u, slab);
    let t = u.settle(slab);
    assert(s.after_deallocate(addr) == t);
    assert(t.owns_page(q) <==> (u.owns_page(q) || q == slab.page));
    assert(s.owns_page(q) <==> (u.owns_page(q) || q == own.page));
}

/// Every slot of a slab is aligned to the object size.
pub proof fn lemma_slot_aligned(slab: SlabState, addr: int)
    requires
        slab.wf(),
        slab.is_slot(addr),
    ensures
        addr % slab.obj_size.spec_bytes() == 0,
        slab.page <= addr,
        addr + slab.obj_size.spec_bytes() <= slab.page + 4096,
{
    let b = slab.obj_size.spec_bytes();
    let cap = slab.obj_size.spec_capacity();
    lemma_capacity(slab.obj_size);
    let off = addr - slab.page;
    vstd::arithmetic::div_mod::lemma_fundamental_div_mod(off, b);
    vstd::arithmetic::div_mod::lemma_fundamental_div_mod(slab.page, 4096);
    let q = off / b;
    let h = slab.page / 4096;
    assert(addr == (q + h * cap) * b + 0) by (nonlinear_arith)
        requires
            addr == slab.page + off,
            off == b * q,
            slab.page == 4096 * h,
            cap * b == 4096,
    ;
    vstd::arithmetic::div_mod::lemma_fundamental_div_mod_converse(addr, b, q + h * cap, 0);
}

/// Whether `align` is an alignment that the allocator serves: a power of
/// two up to the page size.
pub open spec fn is_alignment(align: int) -> bool {
    align == 1 || align == 2 || align == 4 || align == 8 || align == 16 || align == 32 || align
        == 64 || align == 128 || align == 256 || align == 512 || align == 1024 || align == 2048
        || align == 4096
}

/// An address that is aligned to a power of two is aligned to every
/// smaller power of two.
pub proof fn lemma_aligned_to_smaller(addr: int, big: int, align: int)
    requires
        0 <= addr,
        is_alignment(big),
        is_alignment(align),
        align <= big,
        addr % big == 0,
    ensures
        addr % align == 0,
{
    let m = big / align;
    assert(big % align == 0) by {
        if align == 1 {
            assert(big % 1 == 0);
        } else if align == 2 {
            assert(big % 2 == 0);
        } else if align == 4 {
            assert(big % 4 == 0);
        } else if align == 8 {
            assert(big % 8 == 0);
        } else if align == 16 {
            assert(big % 16 == 0);
        } else if align == 32 {
            assert(big % 32 == 0);
        } else if align == 64 {
            assert(big % 64 == 0);
        } else if align == 128 {
            assert(big % 128 == 0);
        } else if align == 256 {
            assert(big % 256 == 0);
        } else if align == 512 {
            assert(big % 512 == 0);
        } else if align == 1024 {
            assert(big % 1024 == 0);
        } else if align == 2048 {
            assert(big % 2048 == 0);
        } else {
            assert(big % 4096 == 0);
        }
    }
    vstd::arithmetic::div_mod::lemma_fundamental_div_mod(big, align);
    assert(big == align * m);
    vstd::arithmetic::div_mod::lemma_fundamental_div_mod(addr, big);
    let q = addr / big;
    assert(addr == (m * q) * align + 0) by (nonlinear_arith)
        requires
            addr == big * q,
            big == align * m,
    ;
    vstd::arithmetic::div_mod::lemma_fundamental_div_mod_converse(addr, align, m * q, 0);
}

/// Position of the object class that serves a request of `size` bytes
/// aligned to `align`: the smallest class that is at least `size` and at
/// least `align`, or 7 if there is none.
pub open spec fn slab_class(size: int, align: int) -> int {
    let most = if size >= align {
        size
    } else {
        align
    };
    if most <= 64 {
        0
    } else if most <= 128 {
        1
    } else if most <= 256 {
        2
    } else if most <= 512 {
        3
    } else if most <= 1024 {
        4
    } else if most <= 2048 {
        5
    } else if most <= 4096 {
        6
    } else {
        7
    }
}

/// State of the allocator: its seven caches and its buddy system.
pub struct AllocatorState {
    /// The caches, smallest object class first.
    pub caches: Seq<CacheState>,
    /// The buddy system that the caches take their pages from.
    pub buddy: BuddyState,
}

impl AllocatorState {
    /// There is one well-formed cache for each object class, on pages that
    /// the buddy system has handed out, and the buddy system is well
    /// formed.
    pub open spec fn wf(self) -> bool {
        &&& self.buddy.wf()
        &&& self.caches.len() == 7
        &&& forall|c: int|
            0 <= c < 7 ==> (#[trigger] self.caches[c]).obj_size.spec_index() == c
                && self.caches[c].wf() && self.caches[c].pages_in(self.buddy)
        &&& self.caches_apart()
    }

    /// No page belongs to two caches.
    pub open spec fn caches_apart(self) -> bool {
        forall|c1: int, c2: int, page: int|
            0 <= c1 < 7 && 0 <= c2 < 7 && c1 != c2 ==> !((#[trigger] self.caches[c1].owns_page(
                page,
            )) && (#[trigger] self.caches[c2].owns_page(page)))
    }

    /// Whether a request of `size` bytes aligned to `align` is served from
    /// a cache.
    pub open spec fn from_cache(size: int, align: int) -> bool {
        size < 4096 && align <= 4096
    }

    /// Whether a request of `size` bytes aligned to `align` is served from
    /// the buddy system.
    pub open spec fn from_buddy(size: int, align: int) -> bool {
        4096 <= size < 0x100000 && align <= 4096
    }

    /// The page that the buddy system gives to the cache of class `c`, if
    /// that cache needs one.
    pub open spec fn page_for(self, c: int) -> Option<usize> {
        if self.caches[c].needs_page() {
            self.buddy.allocate_result(0)
        } else {
            None
        }
    }

    /// What an allocation of `size` bytes aligned to `align` returns.
    pub open spec fn allocate_result(self, size: int, align: int) -> Option<usize> {
        if Self::from_cache(size, align) {
            let c = slab_class(size, align);
            self.caches[c].allocate_result(self.page_for(c))
        } else if Self::from_buddy(size, align) {
            self.buddy.allocate_result(block_class(size))
        } else {
            None
        }
    }

    /// The state after an allocation of `size` bytes aligned to `align`.
    pub open spec fn after_allocate(self, size: int, align: int) -> Self {
        if Self::from_cache(size, align) {
            let c = slab_class(size, align);
            AllocatorState {
                caches: self.caches.update(c, self.caches[c].after_allocate(self.page_for(c))),
                buddy: if self.caches[c].needs_page() {
                    self.buddy.after_allocate(0)
                } else {
                    self.buddy
                },
            }
        } else if Self::from_buddy(size, align) {
            AllocatorState { buddy: self.buddy.after_allocate(block_class(size)), ..self }
        } else {
            self
        }
    }

    /// Whether the block of class `k` at `addr` shares no byte with any
    /// page of a cache.
    pub open spec fn off_pages(self, addr: int, k: int) -> bool {
        forall|c: int, l: int, i: int|
            0 <= c < 7 && self.caches[c].has_slab(l, i) ==> apart(
                (#[trigger] self.caches[c].slab_at(l, i)).page,
                0,
                addr,
                k,
            )
    }

    /// Whether `addr` is handed out for a request of `size` bytes aligned
    /// to `align`, as far as the allocator can tell: an object of the cache
    /// that serves such requests which is not free, or a block of the buddy
    /// system of which no byte is free or part of a cache's page.
    pub open spec fn is_live(self, addr: int, size: int, align: int) -> bool {
        if Self::from_cache(size, align) {
            self.caches[slab_class(size, align)].is_live(addr)
        } else if Self::from_buddy(size, align) {
            self.buddy.is_taken(addr, block_class(size)) && self.off_pages(addr, block_class(size))
        } else {
            false
        }
    }

    /// The state after what was allocated at `addr` for `size` bytes
    /// aligned to `align` has been freed.
    pub open spec fn after_deallocate(self, addr: usize, size: int, align: int) -> Self {
        if Self::from_cache(size, align) {
            let c = slab_class(size, align);
            AllocatorState {
                caches: self.caches.update(c, self.caches[c].after_deallocate(addr)),
                ..self
            }
        } else {
            AllocatorState {
                buddy: self.buddy.after_deallocate(addr as int, block_class(size)),
                ..self
            }
        }
    }

    /// Bytes that are free in all: those of the free blocks of the buddy
    /// system and those of the free slots of the caches.
    pub open spec fn free_bytes(self) -> int {
        self.buddy.free_bytes() + self.caches[0].free_bytes() + self.caches[1].free_bytes()
            + self.caches[2].free_bytes() + self.caches[3].free_bytes()
            + self.caches[4].free_bytes() + self.caches[5].free_bytes()
            + self.caches[6].free_bytes()
    }

    /// Whether the `size` bytes at `addr` lie inside the heap.
    pub open spec fn is_in_heap(self, addr: int, size: int) -> bool {
        self.buddy.base <= addr && addr + size <= self.buddy.base + self.buddy.heap
    }
}

/// A live object is a used slot of a well-formed slab of the cache, which
/// stands on a page of the cache.
pub proof fn lemma_owner_is_slab(s: CacheState, addr: int)
    requires
        s.wf(),
        s.is_live(addr),
    ensures
        s.owner(addr).unwrap().wf(),
        s.owner(addr).unwrap().obj_size == s.obj_size,
        s.owner(addr).unwrap().is_used(addr),
        s.owns_page(s.owner(addr).unwrap().page),
{
    lemma_without_owner(s, addr);
}

} // verus!
