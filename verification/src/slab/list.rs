//! Lists of slabs.
//!
//! A list holds slabs of one kind. Its head, the slab put in last, is taken
//! out first.

use vstd::prelude::*;
use crate::buddy::BuddySystem;
use crate::slab::{ObjectSize, Slab};
use crate::slab::state::{SlabState, fresh_slab};

verus! {

/// Whether `i` is the position, nearest the head of `list`, of a slab whose
/// page holds `addr`.
pub open spec fn is_owner_position(list: Seq<SlabState>, addr: int, i: int) -> bool {
    &&& 0 <= i < list.len()
    &&& list[i].contains(addr)
    &&& forall|j: int| i < j < list.len() ==> !(#[trigger] list[j]).contains(addr)
}

/// Whether some slab of `list` holds `addr` in its page.
pub open spec fn has_owner(list: Seq<SlabState>, addr: int) -> bool {
    exists|i: int| 0 <= i < list.len() && (#[trigger] list[i]).contains(addr)
}

/// The position, nearest the head of `list`, of a slab whose page holds
/// `addr`.
pub open spec fn owner_position(list: Seq<SlabState>, addr: int) -> int {
    choose|i: int| is_owner_position(list, addr, i)
}

/// An owner position is the owner position.
pub proof fn lemma_owner_position(list: Seq<SlabState>, addr: int, i: int)
    requires
        is_owner_position(list, addr, i),
    ensures
        owner_position(list, addr) == i,
        has_owner(list, addr),
{
    let j = owner_position(list, addr);
    assert(is_owner_position(list, addr, j));
    if j < i {
        assert(!list[i].contains(addr));
    } else if i < j {
        assert(!list[j].contains(addr));
    }
}

/// Linked list of Slab
pub struct List {
    /// The slabs; the last one is the head of the list.
    pub slabs: Vec<Slab>,
}

impl View for List {
    type V = Seq<SlabState>;

    open spec fn view(&self) -> Seq<SlabState> {
        Seq::new(self.slabs@.len(), |i: int| self.slabs@[i]@)
    }
}

impl List {
    /// Return with initialize Slab: a list of one fresh slab on the page at
    /// `page_addr`.
    pub fn new(obj_size: ObjectSize, page_addr: usize) -> (r: Self)
        requires
            page_addr % 4096 == 0,
            page_addr + 4096 <= usize::MAX,
        ensures
            r@ == seq![fresh_slab(obj_size, page_addr as int)],
    {
        let mut slabs: Vec<Slab> = Vec::new();
        slabs.push(Slab::new(obj_size, page_addr));
        let r = List { slabs };
        assert(r@ =~= seq![fresh_slab(obj_size, page_addr as int)]);
        r
    }

    /// Return with empty list.
    pub fn new_empty() -> (r: Self)
        ensures
            r@ == Seq::<SlabState>::empty(),
    {
        let r = List { slabs: Vec::new() };
        assert(r@ =~= Seq::<SlabState>::empty());
        r
    }

    /// Number of slabs in the list.
    pub fn len(&self) -> (r: usize)
        ensures
            r == self@.len(),
    {
        self.slabs.len()
    }

    /// Puts `slab` at the head of the list.
    pub fn push_slab(&mut self, slab: Slab)
        ensures
            final(self)@ == old(self)@.push(slab@),
    {
        self.slabs.push(slab);
        assert(self@ =~= old(self)@.push(slab@));
    }

    /// Takes the head out of the list.
    pub fn pop_slab(&mut self) -> (r: Option<Slab>)
        ensures
            old(self)@.len() == 0 ==> r.is_none() && final(self)@ == old(self)@,
            old(self)@.len() > 0 ==> r.is_some() && r.unwrap()@ == old(self)@.last() && final(self)@ == old(self)@.drop_last(),
    {
        let r = self.slabs.pop();
        proof {
            if old(self)@.len() > 0 {
                assert(self@ =~= old(self)@.drop_last());
            } else {
                assert(self@ =~= old(self)@);
            }
        }
        r
    }

    /// Return the page address of list head.
    pub fn head_ptr(&self) -> (r: Option<usize>)
        ensures
            r.is_none() <==> self@.len() == 0,
            r.is_some() ==> r.unwrap() == self@.last().page,
    {
        let n: usize = self.slabs.len();
        if n == 0 {
            None
        } else {
            Some(self.slabs[n - 1].page_addr)
        }
    }

    /// Position of the slab, nearest the head, whose page holds `obj_addr`.
    pub fn corresponding_position(&self, obj_addr: usize) -> (r: Option<usize>)
        ensures
            r.is_some() <==> has_owner(self@, obj_addr as int),
            r.is_some() ==> r.unwrap() == owner_position(self@, obj_addr as int)
                && is_owner_position(self@, obj_addr as int, r.unwrap() as int),
    {
        let mut i: usize = self.slabs.len();
        while i > 0
            invariant
                i <= self.slabs@.len(),
                forall|j: int| i <= j < self@.len() ==> !(#[trigger] self@[j]).contains(
                    obj_addr as int,
                ),
            decreases i,
        {
            i -= 1;
            if self.slabs[i].is_contain(obj_addr) {
                proof {
                    assert(self@[i as int] == self.slabs@[i as int]@);
                    lemma_owner_position(self@, obj_addr as int, i as int);
                }
                return Some(i);
            }
            assert(self@[i as int] == self.slabs@[i as int]@);
        }
        None
    }

    /// Search slab that contains given object, and return the address of
    /// its page.
    pub fn corresponding_slab_ptr(&self, obj_addr: usize) -> (r: Option<usize>)
        ensures
            r.is_some() <==> has_owner(self@, obj_addr as int),
            r.is_some() ==> r.unwrap() == self@[owner_position(self@, obj_addr as int)].page,
    {
        match self.corresponding_position(obj_addr) {
            Some(i) => Some(self.slabs[i].page_addr),
            None => None,
        }
    }

    /// Takes the slab that contains given object out of the list, the
    /// others keeping their order.
    pub fn pop_corresponding_slab(&mut self, obj_addr: usize) -> (r: Option<Slab>)
        ensures
            r.is_some() <==> has_owner(old(self)@, obj_addr as int),
            r.is_none() ==> final(self)@ == old(self)@,
            r.is_some() ==> r.unwrap()@ == old(self)@[owner_position(old(self)@, obj_addr as int)]
                && final(self)@ == old(self)@.remove(owner_position(old(self)@, obj_addr as int))
                && is_owner_position(
                old(self)@,
                obj_addr as int,
                owner_position(old(self)@, obj_addr as int),
            ),
    {
        match self.corresponding_position(obj_addr) {
            Some(i) => {
                let slab = self.slabs.remove(i);
                assert(self@ =~= old(self)@.remove(i as int));
                Some(slab)
            },
            None => None,
        }
    }
}

/// The slabs none of whose objects are allocated.
pub struct EmptyList(pub List);

impl View for EmptyList {
    type V = Seq<SlabState>;

    open spec fn view(&self) -> Seq<SlabState> {
        self.0@
    }
}

impl EmptyList {
    /// A list with one fresh slab on a page from `page_allocator`, or an
    /// empty list if no page is to be had.
    pub fn new(obj_size: ObjectSize, page_allocator: &mut BuddySystem) -> (r: Self)
        requires
            old(page_allocator).wf(),
        ensures
            final(page_allocator).wf(),
            final(page_allocator)@ == old(page_allocator)@.after_allocate(0),
            match old(page_allocator)@.allocate_result(0) {
                Some(page) => r@ == seq![fresh_slab(obj_size, page as int)],
                None => r@ == Seq::<SlabState>::empty(),
            },
    {
        let mut list = Self::new_empty();
        list.append_new_node(obj_size, page_allocator);
        list
    }

    /// Return with empty list.
    pub fn new_empty() -> (r: Self)
        ensures
            r@ == Seq::<SlabState>::empty(),
    {
        EmptyList(List::new_empty())
    }

    /// Create new node and append to list: asks `page_allocator` for one
    /// page and puts a fresh slab on it at the head. Returns whether a page
    /// was to be had; if not, nothing changes.
    pub fn append_new_node(&mut self, obj_size: ObjectSize, page_allocator: &mut BuddySystem) -> (r:
        bool)
        requires
            old(page_allocator).wf(),
        ensures
            final(page_allocator).wf(),
            final(page_allocator)@ == old(page_allocator)@.after_allocate(0),
            r == old(page_allocator)@.allocate_result(0).is_some(),
            r ==> final(self)@ == old(self)@.push(
                fresh_slab(obj_size, old(page_allocator)@.allocate_result(0).unwrap() as int),
            ) && final(page_allocator)@.is_taken(
                old(page_allocator)@.allocate_result(0).unwrap() as int,
                0,
            ) && fresh_slab(
                obj_size,
                old(page_allocator)@.allocate_result(0).unwrap() as int,
            ).wf(),
            !r ==> final(self)@ == old(self)@,
    {
        match page_allocator.page_allocate() {
            Some(new_page_addr) => {
                let new_node = Slab::new(obj_size, new_page_addr);
                self.0.push_slab(new_node);
                true
            },
            None => false,
        }
    }

    /// Puts `slab` at the head of the list.
    pub fn push_slab(&mut self, slab: Slab)
        ensures
            final(self)@ == old(self)@.push(slab@),
    {
        self.0.push_slab(slab);
    }

    /// Takes the head out of the list.
    pub fn pop_slab(&mut self) -> (r: Option<Slab>)
        ensures
            old(self)@.len() == 0 ==> r.is_none() && final(self)@ == old(self)@,
            old(self)@.len() > 0 ==> r.is_some() && r.unwrap()@ == old(self)@.last() && final(self)@ == old(self)@.drop_last(),
    {
        self.0.pop_slab()
    }
}

/// The slabs some of whose objects are allocated.
pub struct PartialList(pub List);

impl View for PartialList {
    type V = Seq<SlabState>;

    open spec fn view(&self) -> Seq<SlabState> {
        self.0@
    }
}

impl PartialList {
    /// Return with empty list.
    pub fn new_empty() -> (r: Self)
        ensures
            r@ == Seq::<SlabState>::empty(),
    {
        PartialList(List::new_empty())
    }

    /// Puts `slab` at the head of the list.
    pub fn push_slab(&mut self, slab: Slab)
        ensures
            final(self)@ == old(self)@.push(slab@),
    {
        self.0.push_slab(slab);
    }

    /// Takes the head out of the list.
    pub fn pop_slab(&mut self) -> (r: Option<Slab>)
        ensures
            old(self)@.len() == 0 ==> r.is_none() && final(self)@ == old(self)@,
            old(self)@.len() > 0 ==> r.is_some() && r.unwrap()@ == old(self)@.last() && final(self)@ == old(self)@.drop_last(),
    {
        self.0.pop_slab()
    }

    /// Return the page address of list head.
    pub fn head_ptr(&self) -> (r: Option<usize>)
        ensures
            r.is_none() <==> self@.len() == 0,
            r.is_some() ==> r.unwrap() == self@.last().page,
    {
        self.0.head_ptr()
    }

    /// Search slab that contains given free object, and return the address
    /// of its page.
    pub fn corresponding_slab_ptr(&self, obj_addr: usize) -> (r: Option<usize>)
        ensures
            r.is_some() <==> has_owner(self@, obj_addr as int),
            r.is_some() ==> r.unwrap() == self@[owner_position(self@, obj_addr as int)].page,
    {
        self.0.corresponding_slab_ptr(obj_addr)
    }

    /// Takes the slab that contains given object out of the list.
    pub fn pop_corresponding_slab(&mut self, obj_addr: usize) -> (r: Option<Slab>)
        ensures
            r.is_some() <==> has_owner(old(self)@, obj_addr as int),
            r.is_none() ==> final(self)@ == old(self)@,
            r.is_some() ==> r.unwrap()@ == old(self)@[owner_position(old(self)@, obj_addr as int)]
                && final(self)@ == old(self)@.remove(owner_position(old(self)@, obj_addr as int))
                && is_owner_position(
                old(self)@,
                obj_addr as int,
                owner_position(old(self)@, obj_addr as int),
            ),
    {
        self.0.pop_corresponding_slab(obj_addr)
    }
}

/// The slabs all of whose objects are allocated.
pub struct FullList(pub List);

impl View for FullList {
    type V = Seq<SlabState>;

    open spec fn view(&self) -> Seq<SlabState> {
        self.0@
    }
}

impl FullList {
    /// Return with empty list.
    pub fn new_empty() -> (r: Self)
        ensures
            r@ == Seq::<SlabState>::empty(),
    {
        FullList(List::new_empty())
    }

    /// Puts `slab` at the head of the list.
    pub fn push_slab(&mut self, slab: Slab)
        ensures
            final(self)@ == old(self)@.push(slab@),
    {
        self.0.push_slab(slab);
    }

    /// Takes the head out of the list.
    pub fn pop_slab(&mut self) -> (r: Option<Slab>)
        ensures
            old(self)@.len() == 0 ==> r.is_none() && final(self)@ == old(self)@,
            old(self)@.len() > 0 ==> r.is_some() && r.unwrap()@ == old(self)@.last() && final(self)@ == old(self)@.drop_last(),
    {
        self.0.pop_slab()
    }

    /// Search slab that contains given free object, and return the address
    /// of its page.
    pub fn corresponding_slab_ptr(&self, obj_addr: usize) -> (r: Option<usize>)
        ensures
            r.is_some() <==> has_owner(self@, obj_addr as int),
            r.is_some() ==> r.unwrap() == self@[owner_position(self@, obj_addr as int)].page,
    {
        self.0.corresponding_slab_ptr(obj_addr)
    }

    /// Takes the slab that contains given object out of the list.
    pub fn pop_corresponding_slab(&mut self, obj_addr: usize) -> (r: Option<Slab>)
        ensures
            r.is_some() <==> has_owner(old(self)@, obj_addr as int),
            r.is_none() ==> final(self)@ == old(self)@,
            r.is_some() ==> r.unwrap()@ == old(self)@[owner_position(old(self)@, obj_addr as int)]
                && final(self)@ == old(self)@.remove(owner_position(old(self)@, obj_addr as int))
                && is_owner_position(
                old(self)@,
                obj_addr as int,
                owner_position(old(self)@, obj_addr as int),
            ),
    {
        self.0.pop_corresponding_slab(obj_addr)
    }
}

} // verus!
