//! What holds of the buddy system over more than one step.

use vstd::prelude::*;
use crate::buddy::geometry::{
    class_bytes,
    has_buddy,
    is_block,
    lemma_buddy_facts,
    lemma_pair_index_bound,
    lemma_pair_index_same,
    lemma_split_facts,
    pair_index,
    parent_addr,
};
use crate::buddy::list::{is_first_position, lemma_first_position};
use crate::buddy::state::{
    BuddyState,
    apart,
    lemma_allocate,
    lemma_deallocate,
    lemma_first_stocked,
    lemma_split,
    lemma_take,
};

verus! {

/// Freeing the first part of a block that was split down joins the parts
/// again: the outcome is that of freeing the block itself before the split.
pub proof fn lemma_join_back(s: BuddyState, addr: int, k: int, c: int)
    requires
        s.wf(),
        0 <= c <= k < 9,
        s.is_taken(addr, k),
    ensures
        s.split_down(addr, k, c).after_deallocate(addr, c) == s.after_deallocate(addr, k),
    decreases k - c,
{
    if k > c {
        let j = k - 1;
        let b = class_bytes(j);
        let second = (addr + b) as usize;
        let u = s.flip(addr, j).push(j, second);
        lemma_split_facts(s.base, s.heap, addr, j);
        lemma_pair_index_bound(s.base, s.heap, addr, j);
        lemma_split(s, addr, j, 0, 0);
        lemma_join_back(u, addr, j, c);
        assert(s.pair_ok(addr, j));
        if s.is_free(addr, j) {
            let m = choose|m: int| 0 <= m < s.lists[j].len() && #[trigger] s.lists[j][m] == addr;
            assert(apart(addr, k, s.lists[j][m] as int, j));
        }
        if s.is_free(addr + b, j) {
            let m = choose|m: int|
                0 <= m < s.lists[j].len() && #[trigger] s.lists[j][m] == addr + b;
            assert(apart(addr, k, s.lists[j][m] as int, j));
        }
        assert(!s.bits[pair_index(s.base, addr, j)]);
        assert(u.bits[pair_index(u.base, addr, j)]);
        let n = s.lists[j].len() as int;
        assert forall|i: int| 0 <= i < n implies u.lists[j][i] != second by {
            assert(u.lists[j][i] == s.lists[j][i]);
            assert(apart(addr, k, s.lists[j][i] as int, j));
        }
        assert(is_first_position(u.lists[j], second, n));
        lemma_first_position(u.lists[j], second, n);
        let v = u.remove(j, second).flip(addr, j);
        assert(v.lists[j] =~= s.lists[j]);
        assert(v.lists =~= s.lists);
        assert(v.bits =~= s.bits);
        assert(v == s);
        assert(u.after_deallocate(addr, j) == v.after_deallocate(addr, k));
    }
}

/// Round trip: an allocation followed by freeing what it returned gives
/// back the state before it, free lists and bitmap alike. The free bytes
/// are therefore unchanged, and the next allocation of the class returns
/// the same address.
pub proof fn lemma_allocate_then_deallocate(s: BuddyState, c: int)
    requires
        s.wf(),
        0 <= c < 9,
        s.allocate_result(c).is_some(),
    ensures
        s.after_allocate(c).after_deallocate(s.allocate_result(c).unwrap() as int, c) == s,
{
    lemma_first_stocked(s, c);
    let k = s.first_stocked(c);
    let n = s.lists[k].len() - 1;
    let f = s.lists[k][n] as int;
    let u = s.pop(k).toggle(f, k);
    lemma_take(s, k, 0, 0);
    lemma_join_back(u, f, k, c);
    assert(is_block(s.base, s.heap, f, k));
    if has_buddy(s.base, s.heap, f, k) {
        lemma_buddy_facts(s.base, s.heap, f, k);
        lemma_pair_index_bound(s.base, s.heap, f, k);
        let parent = parent_addr(s.base, f, k);
        lemma_pair_index_same(s.base, s.heap, parent, k, f);
        assert(s.pair_ok(parent, k));
        assert(s.lists[k][n] == f);
        assert(s.is_free(f, k));
        assert(s.bits[pair_index(s.base, f, k)]);
        assert(!u.bits[pair_index(u.base, f, k)]);
    }
    let v = u.toggle(f, k).push(k, f as usize);
    assert(v.lists[k] =~= s.lists[k]);
    assert(v.lists =~= s.lists);
    assert(v.bits =~= s.bits);
    assert(v == s);
}

/// No two blocks that are handed out at the same time share a byte: the
/// block that an allocation returns lies apart from every block that is
/// handed out already, and those stay handed out.
pub proof fn lemma_allocations_apart(s: BuddyState, c: int, addr: int, k: int)
    requires
        s.wf(),
        0 <= c < 9,
        s.is_taken(addr, k),
        s.allocate_result(c).is_some(),
    ensures
        apart(addr, k, s.allocate_result(c).unwrap() as int, c),
        s.after_allocate(c).is_taken(addr, k),
        s.after_allocate(c).is_taken(s.allocate_result(c).unwrap() as int, c),
{
    lemma_allocate(s, c, addr, k);
}

/// Freeing a block leaves every other block that is handed out as it was.
pub proof fn lemma_deallocate_keeps_others(s: BuddyState, freed: int, c: int, addr: int, k: int)
    requires
        s.wf(),
        s.is_taken(freed, c),
        s.is_taken(addr, k),
        apart(addr, k, freed, c),
    ensures
        s.after_deallocate(freed, c).is_taken(addr, k),
{
    lemma_deallocate(s, freed, c, addr, k);
}

/// The state after up to `n` allocations of class `c`, as long as one is to
/// be had, and after what they returned has been freed again, last one
/// first.
pub open spec fn unwound(s: BuddyState, c: int, n: nat) -> BuddyState
    decreases n,
{
    if n == 0 {
        s
    } else {
        match s.allocate_result(c) {
            Some(addr) => unwound(s.after_allocate(c), c, (n - 1) as nat).after_deallocate(
                addr as int,
                c,
            ),
            None => s,
        }
    }
}

/// Allocating blocks of one class, be it every block that is to be had,
/// and freeing them again, last one first, gives back the free lists and
/// the bitmap as they were.
pub proof fn lemma_unwound(s: BuddyState, c: int, n: nat)
    requires
        s.wf(),
        0 <= c < 9,
    ensures
        unwound(s, c, n) == s,
    decreases n,
{
    if n > 0 && s.allocate_result(c).is_some() {
        lemma_allocate(s, c, 0, 0);
        lemma_unwound(s.after_allocate(c), c, (n - 1) as nat);
        lemma_allocate_then_deallocate(s, c);
    }
}

} // verus!
