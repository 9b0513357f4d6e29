//! The buddy system as a mathematical state, and what its steps preserve.
//!
//! A state is the geometry of the heap, the nine free lists and the bitmap.
//! The buddy system's operations are stated as functions from state to
//! state, and the lemmas here show that each keeps the state well formed.

use vstd::prelude::*;
use crate::buddy::geometry::{
    buddy_addr,
    class_bytes,
    has_buddy,
    is_block,
    is_first_half,
    lemma_buddy_facts,
    lemma_class_doubles,
    lemma_pair_index_bound,
    lemma_pair_index_injective,
    lemma_pair_index_same,
    lemma_split_facts,
    pair_index,
    parent_addr,
    tree_count,
};
use crate::buddy::list::{first_position, is_first_position, without};

verus! {

/// The block of class `k1` at `a1` and the block of class `k2` at `a2` share
/// no byte.
pub open spec fn apart(a1: int, k1: int, a2: int, k2: int) -> bool {
    a1 + class_bytes(k1) <= a2 || a2 + class_bytes(k2) <= a1
}

/// State of a buddy system.
pub struct BuddyState {
    /// Address of the first byte of the heap.
    pub base: int,
    /// Bytes under management.
    pub heap: int,
    /// For each class, the start addresses of its free blocks; the last one
    /// is handed out first.
    pub lists: Seq<Seq<usize>>,
    /// The bitmap: one bit per pair of buddies.
    pub bits: Seq<bool>,
}

impl BuddyState {
    /// The heap is page-aligned, a whole number of pages long and ends
    /// inside the address space; there are nine lists, and 256 bits for each
    /// tree.
    pub open spec fn geometry(self) -> bool {
        &&& 0 <= self.base
        &&& 0 <= self.heap
        &&& self.base % 4096 == 0
        &&& self.heap % 4096 == 0
        &&& self.base + self.heap <= usize::MAX
        &&& self.lists.len() == 9
        &&& self.bits.len() == tree_count(self.heap) * 256
    }

    /// Every entry of a free list is a block of the list's class.
    pub open spec fn blocks_ok(self) -> bool {
        forall|k: int, m: int|
            0 <= k < 9 && 0 <= m < self.lists[k].len() ==> is_block(
                self.base,
                self.heap,
                #[trigger] self.lists[k][m] as int,
                k,
            )
    }

    /// No two free blocks share a byte. In particular no block is listed
    /// twice.
    pub open spec fn blocks_apart(self) -> bool {
        forall|k1: int, m1: int, k2: int, m2: int|
            0 <= k1 < 9 && 0 <= m1 < self.lists[k1].len() && 0 <= k2 < 9 && 0 <= m2
                < self.lists[k2].len() && !(k1 == k2 && m1 == m2) ==> apart(
                #[trigger] self.lists[k1][m1] as int,
                k1,
                #[trigger] self.lists[k2][m2] as int,
                k2,
            )
    }

    /// Whether the block of class `k` at `addr` is in its free list.
    pub open spec fn is_free(self, addr: int, k: int) -> bool {
        exists|m: int| 0 <= m < self.lists[k].len() && #[trigger] self.lists[k][m] == addr
    }

    /// For the pair whose first half is the block of class `k` at `addr`:
    /// the two are never both free, and the bit of the pair is set exactly
    /// when one of them is free.
    pub open spec fn pair_ok(self, addr: int, k: int) -> bool {
        has_buddy(self.base, self.heap, addr, k) && is_first_half(self.base, addr, k) ==> {
            let first = self.is_free(addr, k);
            let second = self.is_free(addr + class_bytes(k), k);
            &&& !(first && second)
            &&& self.bits[pair_index(self.base, addr, k)] == (first || second)
        }
    }

    /// Every pair of buddies agrees with its bit.
    pub open spec fn pairs_ok(self) -> bool {
        forall|addr: int, k: int| #[trigger] self.pair_ok(addr, k)
    }

    /// The state is well formed.
    pub open spec fn wf(self) -> bool {
        &&& self.geometry()
        &&& self.blocks_ok()
        &&& self.blocks_apart()
        &&& self.pairs_ok()
    }

    /// The block of class `k` at `addr` is a block of the heap of which no
    /// byte is free: it is handed out, alone or as part of other blocks.
    pub open spec fn is_taken(self, addr: int, k: int) -> bool {
        &&& is_block(self.base, self.heap, addr, k)
        &&& forall|j: int, m: int|
            0 <= j < 9 && 0 <= m < self.lists[j].len() ==> apart(
                addr,
                k,
                #[trigger] self.lists[j][m] as int,
                j,
            )
    }

    /// Sum of the sizes of the free blocks.
    pub open spec fn free_bytes(self) -> nat {
        self.lists[0].len() * 0x1000 + self.lists[1].len() * 0x2000 + self.lists[2].len() * 0x4000
            + self.lists[3].len() * 0x8000 + self.lists[4].len() * 0x10000 + self.lists[5].len()
            * 0x20000 + self.lists[6].len() * 0x40000 + self.lists[7].len() * 0x80000
            + self.lists[8].len() * 0x100000
    }

    /// The state with the bit of the block of class `k` at `addr` toggled.
    pub open spec fn flip(self, addr: int, k: int) -> Self {
        let i = pair_index(self.base, addr, k);
        BuddyState { bits: self.bits.update(i, !self.bits[i]), ..self }
    }

    /// The state after the block of class `k` at `addr` has left or entered
    /// its free list, as far as the bitmap goes: the bit of the block is
    /// toggled if the block has a buddy.
    pub open spec fn toggle(self, addr: int, k: int) -> Self {
        if has_buddy(self.base, self.heap, addr, k) {
            self.flip(addr, k)
        } else {
            self
        }
    }

    /// The state with `addr` put last in list `k`.
    pub open spec fn push(self, k: int, addr: usize) -> Self {
        BuddyState { lists: self.lists.update(k, self.lists[k].push(addr)), ..self }
    }

    /// The state without the last entry of list `k`.
    pub open spec fn pop(self, k: int) -> Self {
        BuddyState { lists: self.lists.update(k, self.lists[k].drop_last()), ..self }
    }

    /// The state without the first occurrence of `addr` in list `k`.
    pub open spec fn remove(self, k: int, addr: usize) -> Self {
        BuddyState { lists: self.lists.update(k, without(self.lists[k], addr)), ..self }
    }
}

/// What is free after a push: what was free, and the pushed block.
pub proof fn lemma_free_after_push(s: BuddyState, k: int, addr: usize, x: int, j: int)
    requires
        s.geometry(),
        0 <= k < 9,
        0 <= j < 9,
    ensures
        s.push(k, addr).is_free(x, j) == (s.is_free(x, j) || (j == k && x == addr)),
{
    let t = s.push(k, addr);
    if s.is_free(x, j) {
        let m = choose|m: int| 0 <= m < s.lists[j].len() && #[trigger] s.lists[j][m] == x;
        assert(t.lists[j][m] == x);
    }
    if j == k && x == addr {
        assert(t.lists[k][s.lists[k].len() as int] == x);
    }
    if t.is_free(x, j) {
        let m = choose|m: int| 0 <= m < t.lists[j].len() && #[trigger] t.lists[j][m] == x;
        if j == k && m == s.lists[k].len() {
        } else {
            assert(s.lists[j][m] == x);
        }
    }
}

/// What is free after a pop: what was free, but for the popped block.
pub proof fn lemma_free_after_pop(s: BuddyState, k: int, x: int, j: int)
    requires
        s.geometry(),
        s.blocks_apart(),
        0 <= k < 9,
        0 <= j < 9,
        s.lists[k].len() > 0,
    ensures
        s.pop(k).is_free(x, j) == (s.is_free(x, j) && !(j == k && x == s.lists[k].last())),
{
    let t = s.pop(k);
    let n = s.lists[k].len() - 1;
    if s.is_free(x, j) && !(j == k && x == s.lists[k].last()) {
        let m = choose|m: int| 0 <= m < s.lists[j].len() && #[trigger] s.lists[j][m] == x;
        assert(t.lists[j][m] == x);
    }
    if t.is_free(x, j) {
        let m = choose|m: int| 0 <= m < t.lists[j].len() && #[trigger] t.lists[j][m] == x;
        assert(s.lists[j][m] == x);
        if j == k {
            assert(apart(s.lists[k][m] as int, k, s.lists[k][n] as int, k));
        }
    }
}

/// What is free after a removal: what was free, but for the removed block.
pub proof fn lemma_free_after_remove(s: BuddyState, k: int, addr: usize, x: int, j: int)
    requires
        s.geometry(),
        s.blocks_apart(),
        0 <= k < 9,
        0 <= j < 9,
        s.is_free(addr as int, k),
    ensures
        s.remove(k, addr).is_free(x, j) == (s.is_free(x, j) && !(j == k && x == addr)),
        s.remove(k, addr).lists[k].len() == s.lists[k].len() - 1,
{
    let t = s.remove(k, addr);
    let w = choose|m: int| 0 <= m < s.lists[k].len() && #[trigger] s.lists[k][m] == addr;
    assert forall|i: int| 0 <= i < w implies s.lists[k][i] != addr by {
        assert(apart(s.lists[k][i] as int, k, s.lists[k][w] as int, k));
    }
    assert(is_first_position(s.lists[k], addr, w));
    let p = first_position(s.lists[k], addr);
    assert(is_first_position(s.lists[k], addr, p));
    if s.is_free(x, j) && !(j == k && x == addr) {
        let m = choose|m: int| 0 <= m < s.lists[j].len() && #[trigger] s.lists[j][m] == x;
        if j == k {
            if m < p {
                assert(t.lists[j][m] == x);
            } else {
                assert(t.lists[j][m - 1] == x);
            }
        } else {
            assert(t.lists[j][m] == x);
        }
    }
    if t.is_free(x, j) {
        let m = choose|m: int| 0 <= m < t.lists[j].len() && #[trigger] t.lists[j][m] == x;
        if j == k {
            if m < p {
                assert(s.lists[j][m] == x);
                assert(apart(s.lists[k][m] as int, k, s.lists[k][p] as int, k));
            } else {
                assert(s.lists[j][m + 1] == x);
                assert(apart(s.lists[k][m + 1] as int, k, s.lists[k][p] as int, k));
            }
        } else {
            assert(s.lists[j][m] == x);
        }
    }
}

/// The size of a class, as it counts in the sum of free bytes.
proof fn lemma_free_bytes_push(s: BuddyState, k: int, addr: usize)
    requires
        s.geometry(),
        0 <= k < 9,
    ensures
        s.push(k, addr).free_bytes() == s.free_bytes() + class_bytes(k),
{
}

proof fn lemma_free_bytes_shorter(s: BuddyState, t: BuddyState, k: int)
    requires
        s.geometry(),
        0 <= k < 9,
        t.lists.len() == 9,
        t.lists[k].len() == s.lists[k].len() - 1,
        forall|j: int| 0 <= j < 9 && j != k ==> t.lists[j] == s.lists[j],
    ensures
        t.free_bytes() == s.free_bytes() - class_bytes(k),
{
}

/// When one block enters or leaves its free list, and its bit, if it has
/// one, is toggled, every pair still agrees with its bit, provided that a
/// block which enters has no free buddy. Here for one pair: the one whose
/// first half is the block of class `j` at `a`.
pub proof fn lemma_pair_after_toggle(s: BuddyState, t: BuddyState, z: int, k: int, a: int, j: int)
    requires
        s.geometry(),
        t.base == s.base,
        t.heap == s.heap,
        is_block(s.base, s.heap, z, k),
        s.pair_ok(a, j),
        t.bits == (if has_buddy(s.base, s.heap, z, k) {
            s.bits.update(pair_index(s.base, z, k), !s.bits[pair_index(s.base, z, k)])
        } else {
            s.bits
        }),
        has_buddy(s.base, s.heap, a, j) ==> t.is_free(a, j) == (if j == k && a == z {
            !s.is_free(z, k)
        } else {
            s.is_free(a, j)
        }),
        has_buddy(s.base, s.heap, a, j) ==> t.is_free(a + class_bytes(j), j) == (if j == k && a
            + class_bytes(j) == z {
            !s.is_free(z, k)
        } else {
            s.is_free(a + class_bytes(j), j)
        }),
        !s.is_free(z, k) && has_buddy(s.base, s.heap, z, k) ==> !s.is_free(
            buddy_addr(s.base, z, k),
            k,
        ),
    ensures
        t.pair_ok(a, j),
{
    if has_buddy(s.base, s.heap, a, j) && is_first_half(s.base, a, j) {
        let b = class_bytes(j);
        lemma_buddy_facts(s.base, s.heap, a, j);
        lemma_pair_index_bound(s.base, s.heap, a, j);
        if j == k && (a == z || a + b == z) {
            lemma_buddy_facts(s.base, s.heap, z, k);
            lemma_pair_index_same(s.base, s.heap, a, k, z);
        } else if has_buddy(s.base, s.heap, z, k) {
            lemma_pair_index_bound(s.base, s.heap, z, k);
            if pair_index(s.base, a, j) == pair_index(s.base, z, k) {
                lemma_pair_index_injective(s.base, s.heap, a, j, z, k);
                lemma_buddy_facts(s.base, s.heap, z, k);
            }
        }
    }
}

/// Taking the last block of list `k`: the state stays well formed, the
/// block is then handed out, and whatever was handed out before still is,
/// apart from the block taken.
pub proof fn lemma_take(s: BuddyState, k: int, y: int, ky: int)
    requires
        s.wf(),
        0 <= k < 9,
        s.lists[k].len() > 0,
    ensures
        ({
            let f = s.lists[k].last() as int;
            let t = s.pop(k).toggle(f, k);
            &&& t.wf()
            &&& t.is_taken(f, k)
            &&& t.free_bytes() == s.free_bytes() - class_bytes(k)
            &&& s.is_taken(y, ky) ==> t.is_taken(y, ky) && apart(y, ky, f, k)
        }),
{
    let n = s.lists[k].len() - 1;
    let f = s.lists[k][n] as int;
    let t = s.pop(k).toggle(f, k);
    assert(is_block(s.base, s.heap, f, k));
    if has_buddy(s.base, s.heap, f, k) {
        lemma_pair_index_bound(s.base, s.heap, f, k);
        lemma_buddy_facts(s.base, s.heap, f, k);
    }
    assert forall|j: int, m: int| 0 <= j < 9 && 0 <= m < t.lists[j].len() implies t.lists[j][m]
        == s.lists[j][m] && !(j == k && m == n) by {}
    assert(t.blocks_ok());
    assert(t.blocks_apart());
    assert(t.is_taken(f, k));
    lemma_free_bytes_shorter(s, t, k);
    assert(s.is_free(f, k)) by {
        assert(s.lists[k][n] == f);
    }
    assert forall|a: int, j: int| #[trigger] t.pair_ok(a, j) by {
        assert(s.pair_ok(a, j));
        if 0 <= j < 9 {
            lemma_free_after_pop(s, k, a, j);
            lemma_free_after_pop(s, k, a + class_bytes(j), j);
        }
        lemma_pair_after_toggle(s, t, f, k, a, j);
    }
}

/// Splitting a block that is handed out into its halves, of which the first
/// stays handed out and the second becomes free.
pub proof fn lemma_split(s: BuddyState, addr: int, k: int, y: int, ky: int)
    requires
        s.wf(),
        0 <= k < 8,
        s.is_taken(addr, k + 1),
    ensures
        ({
            let t = s.flip(addr, k).push(k, (addr + class_bytes(k)) as usize);
            &&& t.wf()
            &&& t.is_taken(addr, k)
            &&& t.free_bytes() == s.free_bytes() + class_bytes(k)
            &&& s.is_taken(y, ky) && apart(y, ky, addr, k + 1) ==> t.is_taken(y, ky) && apart(
                y,
                ky,
                addr,
                k,
            )
        }),
{
    let b = class_bytes(k);
    let second = (addr + b) as usize;
    let u = s.flip(addr, k);
    let t = u.push(k, second);
    lemma_split_facts(s.base, s.heap, addr, k);
    lemma_pair_index_bound(s.base, s.heap, addr, k);
    lemma_free_bytes_push(u, k, second);
    assert forall|j: int, m: int| 0 <= j < 9 && 0 <= m < t.lists[j].len() implies (if j == k
        && m == s.lists[k].len() {
        t.lists[j][m] == second
    } else {
        t.lists[j][m] == s.lists[j][m]
    }) by {}
    assert(t.blocks_ok());
    assert(t.blocks_apart());
    assert(t.is_taken(addr, k));
    assert(!s.is_free(addr, k)) by {
        if s.is_free(addr, k) {
            let m = choose|m: int| 0 <= m < s.lists[k].len() && #[trigger] s.lists[k][m] == addr;
            assert(apart(addr, k + 1, s.lists[k][m] as int, k));
        }
    }
    assert(!s.is_free(addr + b, k)) by {
        if s.is_free(addr + b, k) {
            let m = choose|m: int|
                0 <= m < s.lists[k].len() && #[trigger] s.lists[k][m] == addr + b;
            assert(apart(addr, k + 1, s.lists[k][m] as int, k));
        }
    }
    lemma_buddy_facts(s.base, s.heap, addr + b, k);
    assert forall|a: int, j: int| #[trigger] t.pair_ok(a, j) by {
        assert(s.pair_ok(a, j));
        if 0 <= j < 9 {
            lemma_free_after_push(u, k, second, a, j);
            lemma_free_after_push(u, k, second, a + class_bytes(j), j);
            assert(u.is_free(a, j) == s.is_free(a, j));
            assert(u.is_free(a + class_bytes(j), j) == s.is_free(a + class_bytes(j), j));
        }
        lemma_pair_after_toggle(s, t, addr + b, k, a, j);
    }
}

/// Joining a block that is being freed with its free buddy: the buddy leaves
/// its list, and the parent of the two is then handed out as a whole.
pub proof fn lemma_merge(s: BuddyState, addr: int, k: int, y: int, ky: int)
    requires
        s.wf(),
        s.is_taken(addr, k),
        has_buddy(s.base, s.heap, addr, k),
        s.bits[pair_index(s.base, addr, k)],
    ensures
        ({
            let buddy = buddy_addr(s.base, addr, k);
            let parent = parent_addr(s.base, addr, k);
            let t = s.remove(k, buddy as usize).flip(addr, k);
            &&& s.is_free(buddy, k)
            &&& s.lists[k].contains(buddy as usize)
            &&& t.wf()
            &&& t.is_taken(parent, k + 1)
            &&& t.free_bytes() == s.free_bytes() - class_bytes(k)
            &&& s.is_taken(y, ky) && apart(y, ky, addr, k) ==> t.is_taken(y, ky) && apart(
                y,
                ky,
                parent,
                k + 1,
            )
        }),
{
    let b = class_bytes(k);
    let buddy = buddy_addr(s.base, addr, k);
    let parent = parent_addr(s.base, addr, k);
    lemma_buddy_facts(s.base, s.heap, addr, k);
    lemma_pair_index_bound(s.base, s.heap, addr, k);
    lemma_buddy_facts(s.base, s.heap, buddy, k);
    lemma_pair_index_same(s.base, s.heap, addr, k, buddy);
    assert(s.pair_ok(parent, k));
    if s.is_free(addr, k) {
        let m = choose|m: int| 0 <= m < s.lists[k].len() && #[trigger] s.lists[k][m] == addr;
        assert(apart(addr, k, s.lists[k][m] as int, k));
    }
    assert(s.is_free(buddy, k));
    let w = choose|m: int| 0 <= m < s.lists[k].len() && #[trigger] s.lists[k][m] == buddy;
    assert(s.lists[k][w] == buddy as usize);
    assert(s.lists[k].contains(buddy as usize));
    assert forall|i: int| 0 <= i < w implies s.lists[k][i] != buddy as usize by {
        assert(apart(s.lists[k][i] as int, k, s.lists[k][w] as int, k));
    }
    assert(is_first_position(s.lists[k], buddy as usize, w));
    let p = first_position(s.lists[k], buddy as usize);
    assert(is_first_position(s.lists[k], buddy as usize, p));
    let u = s.remove(k, buddy as usize);
    let t = u.flip(addr, k);
    assert(t.blocks_ok()) by {
        assert forall|j: int, m: int| 0 <= j < 9 && 0 <= m < t.lists[j].len() implies is_block(
            t.base,
            t.heap,
            #[trigger] t.lists[j][m] as int,
            j,
        ) by {
            let i = if j == k && m >= p {
                m + 1
            } else {
                m
            };
            assert(t.lists[j][m] == s.lists[j][i]);
        }
    }
    assert(t.blocks_apart()) by {
        assert forall|k1: int, m1: int, k2: int, m2: int|
            0 <= k1 < 9 && 0 <= m1 < t.lists[k1].len() && 0 <= k2 < 9 && 0 <= m2
                < t.lists[k2].len() && !(k1 == k2 && m1 == m2) implies apart(
            #[trigger] t.lists[k1][m1] as int,
            k1,
            #[trigger] t.lists[k2][m2] as int,
            k2,
        ) by {
            let i1 = if k1 == k && m1 >= p {
                m1 + 1
            } else {
                m1
            };
            let i2 = if k2 == k && m2 >= p {
                m2 + 1
            } else {
                m2
            };
            assert(t.lists[k1][m1] == s.lists[k1][i1]);
            assert(t.lists[k2][m2] == s.lists[k2][i2]);
        }
    }
    assert forall|j: int, m: int| 0 <= j < 9 && 0 <= m < t.lists[j].len() implies apart(
        parent,
        k + 1,
        #[trigger] t.lists[j][m] as int,
        j,
    ) && (s.is_taken(y, ky) ==> apart(y, ky, t.lists[j][m] as int, j)) by {
        let i = if j == k && m >= p {
            m + 1
        } else {
            m
        };
        assert(t.lists[j][m] == s.lists[j][i]);
        assert(apart(s.lists[j][i] as int, j, s.lists[k][p] as int, k));
        assert(apart(addr, k, s.lists[j][i] as int, j));
    }
    assert(t.is_taken(parent, k + 1));
    lemma_free_after_remove(s, k, buddy as usize, 0, 0);
    lemma_free_bytes_shorter(s, t, k);
    if s.is_taken(y, ky) && apart(y, ky, addr, k) {
        assert(apart(y, ky, s.lists[k][p] as int, k));
    }
    assert forall|a: int, j: int| #[trigger] t.pair_ok(a, j) by {
        assert(s.pair_ok(a, j));
        if 0 <= j < 9 {
            lemma_free_after_remove(s, k, buddy as usize, a, j);
            lemma_free_after_remove(s, k, buddy as usize, a + class_bytes(j), j);
            assert(t.is_free(a, j) == u.is_free(a, j));
            assert(t.is_free(a + class_bytes(j), j) == u.is_free(a + class_bytes(j), j));
        }
        lemma_pair_after_toggle(s, t, buddy, k, a, j);
    }
}

/// Putting a block that is being freed into its list, when it has no buddy
/// or its buddy is not free.
pub proof fn lemma_insert(s: BuddyState, addr: int, k: int, y: int, ky: int)
    requires
        s.wf(),
        s.is_taken(addr, k),
        !(has_buddy(s.base, s.heap, addr, k) && s.bits[pair_index(s.base, addr, k)]),
    ensures
        ({
            let t = s.toggle(addr, k).push(k, addr as usize);
            &&& t.wf()
            &&& t.free_bytes() == s.free_bytes() + class_bytes(k)
            &&& s.is_taken(y, ky) && apart(y, ky, addr, k) ==> t.is_taken(y, ky)
        }),
{
    let u = s.toggle(addr, k);
    let t = u.push(k, addr as usize);
    lemma_free_bytes_push(u, k, addr as usize);
    if has_buddy(s.base, s.heap, addr, k) {
        lemma_buddy_facts(s.base, s.heap, addr, k);
        lemma_pair_index_bound(s.base, s.heap, addr, k);
    }
    assert forall|j: int, m: int| 0 <= j < 9 && 0 <= m < t.lists[j].len() implies (if j == k
        && m == s.lists[k].len() {
        t.lists[j][m] == addr as usize
    } else {
        t.lists[j][m] == s.lists[j][m]
    }) by {}
    assert(t.blocks_ok());
    assert(t.blocks_apart());
    if s.is_free(addr, k) {
        let m = choose|m: int| 0 <= m < s.lists[k].len() && #[trigger] s.lists[k][m] == addr;
        assert(apart(addr, k, s.lists[k][m] as int, k));
    }
    if has_buddy(s.base, s.heap, addr, k) {
        let parent = parent_addr(s.base, addr, k);
        let buddy = buddy_addr(s.base, addr, k);
        lemma_pair_index_same(s.base, s.heap, parent, k, addr);
        assert(s.pair_ok(parent, k));
        assert(!s.is_free(buddy, k));
    }
    assert forall|a: int, j: int| #[trigger] t.pair_ok(a, j) by {
        assert(s.pair_ok(a, j));
        if 0 <= j < 9 {
            lemma_free_after_push(u, k, addr as usize, a, j);
            lemma_free_after_push(u, k, addr as usize, a + class_bytes(j), j);
            assert(u.is_free(a, j) == s.is_free(a, j));
            assert(u.is_free(a + class_bytes(j), j) == s.is_free(a + class_bytes(j), j));
        }
        lemma_pair_after_toggle(s, t, addr, k, a, j);
    }
}

impl BuddyState {
    /// The smallest class from `k` upwards whose free list is not empty, or
    /// 9 if all of them are empty.
    pub open spec fn first_stocked(self, k: int) -> int
        decreases 9 - k,
    {
        if k >= 9 {
            9
        } else if k >= 0 && self.lists[k].len() > 0 {
            k
        } else {
            self.first_stocked(k + 1)
        }
    }

    /// The state after the block of class `k` at `addr`, which is handed
    /// out, has been split down to class `c`: at each class in between the
    /// first half is split again, the second half becomes free, and the bit
    /// of the two is toggled.
    pub open spec fn split_down(self, addr: int, k: int, c: int) -> Self
        decreases k - c,
    {
        if k <= c {
            self
        } else {
            self.flip(addr, k - 1).push(k - 1, (addr + class_bytes(k - 1)) as usize).split_down(
                addr,
                k - 1,
                c,
            )
        }
    }

    /// What an allocation of class `c` returns: the last block of the first
    /// stocked list from `c` upwards, or nothing if there is none.
    pub open spec fn allocate_result(self, c: int) -> Option<usize> {
        let k = self.first_stocked(c);
        if k >= 9 {
            None
        } else {
            Some(self.lists[k].last())
        }
    }

    /// The state after an allocation of class `c`: the block found leaves
    /// its list and is split down to class `c`. Unchanged if nothing was
    /// found.
    pub open spec fn after_allocate(self, c: int) -> Self {
        let k = self.first_stocked(c);
        if k >= 9 {
            self
        } else {
            let f = self.lists[k].last() as int;
            self.pop(k).toggle(f, k).split_down(f, k, c)
        }
    }

    /// The state after the block of class `k` at `addr` has been freed:
    /// while the block has a buddy and the bit of the two is set, the buddy
    /// leaves its list, the bit is cleared and the parent is freed in place
    /// of the two; the block that is left is put last in its list, and its
    /// bit, if it has one, is set.
    pub open spec fn after_deallocate(self, addr: int, k: int) -> Self
        decreases 9 - k,
    {
        if has_buddy(self.base, self.heap, addr, k) && self.bits[pair_index(self.base, addr, k)] {
            self.remove(k, buddy_addr(self.base, addr, k) as usize).flip(addr, k).after_deallocate(
                parent_addr(self.base, addr, k),
                k + 1,
            )
        } else {
            self.toggle(addr, k).push(k, addr as usize)
        }
    }
}

/// `first_stocked` finds the first list that is not empty.
pub proof fn lemma_first_stocked(s: BuddyState, c: int)
    requires
        0 <= c <= 9,
    ensures
        c <= s.first_stocked(c) <= 9,
        s.first_stocked(c) < 9 ==> s.lists[s.first_stocked(c)].len() > 0,
        forall|j: int| c <= j < s.first_stocked(c) ==> s.lists[j].len() == 0,
    decreases 9 - c,
{
    if c < 9 && s.lists[c].len() == 0 {
        lemma_first_stocked(s, c + 1);
    }
}

/// Splitting down keeps the state well formed, leaves the first part of
/// class `c` handed out, frees all of the block but that part, and leaves
/// handed out whatever was handed out elsewhere.
pub proof fn lemma_split_down(s: BuddyState, addr: int, k: int, c: int, y: int, ky: int)
    requires
        s.wf(),
        0 <= c <= k < 9,
        s.is_taken(addr, k),
    ensures
        ({
            let t = s.split_down(addr, k, c);
            &&& t.wf()
            &&& t.base == s.base
            &&& t.heap == s.heap
            &&& t.is_taken(addr, c)
            &&& t.free_bytes() == s.free_bytes() + class_bytes(k) - class_bytes(c)
            &&& s.is_taken(y, ky) && apart(y, ky, addr, k) ==> t.is_taken(y, ky) && apart(
                y,
                ky,
                addr,
                c,
            )
        }),
    decreases k - c,
{
    if k > c {
        lemma_split(s, addr, k - 1, y, ky);
        lemma_class_doubles(k - 1);
        let u = s.flip(addr, k - 1).push(k - 1, (addr + class_bytes(k - 1)) as usize);
        lemma_split_down(u, addr, k - 1, c, y, ky);
    }
}

/// An allocation keeps the state well formed. If it finds a block, that
/// block is a block of the class asked for, inside the heap and aligned to
/// its size; it is handed out afterwards; the free bytes go down by its
/// size; and whatever was handed out before still is, and shares no byte
/// with it.
pub proof fn lemma_allocate(s: BuddyState, c: int, y: int, ky: int)
    requires
        s.wf(),
        0 <= c < 9,
    ensures
        s.after_allocate(c).wf(),
        s.after_allocate(c).base == s.base,
        s.after_allocate(c).heap == s.heap,
        s.allocate_result(c).is_none() ==> s.after_allocate(c) == s,
        s.allocate_result(c).is_none() <==> (forall|j: int| c <= j < 9 ==> s.lists[j].len() == 0),
        s.allocate_result(c).is_some() ==> ({
            let a = s.allocate_result(c).unwrap() as int;
            let t = s.after_allocate(c);
            &&& is_block(s.base, s.heap, a, c)
            &&& t.is_taken(a, c)
            &&& t.free_bytes() == s.free_bytes() - class_bytes(c)
            &&& s.is_taken(y, ky) ==> t.is_taken(y, ky) && apart(y, ky, a, c)
        }),
{
    lemma_first_stocked(s, c);
    let k = s.first_stocked(c);
    if k < 9 {
        let f = s.lists[k].last() as int;
        let u = s.pop(k).toggle(f, k);
        lemma_take(s, k, y, ky);
        lemma_split_down(u, f, k, c, y, ky);
        assert(s.after_allocate(c) == u.split_down(f, k, c));
        assert(s.allocate_result(c) == Some(s.lists[k].last()));
    }
}

/// Freeing a block that is handed out keeps the state well formed, raises
/// the free bytes by the size of the block, and leaves handed out whatever
/// was handed out elsewhere.
pub proof fn lemma_deallocate(s: BuddyState, addr: int, k: int, y: int, ky: int)
    requires
        s.wf(),
        s.is_taken(addr, k),
    ensures
        ({
            let t = s.after_deallocate(addr, k);
            &&& t.wf()
            &&& t.base == s.base
            &&& t.heap == s.heap
            &&& t.free_bytes() == s.free_bytes() + class_bytes(k)
            &&& s.is_taken(y, ky) && apart(y, ky, addr, k) ==> t.is_taken(y, ky)
        }),
    decreases 9 - k,
{
    if has_buddy(s.base, s.heap, addr, k) && s.bits[pair_index(s.base, addr, k)] {
        lemma_merge(s, addr, k, y, ky);
        lemma_class_doubles(k);
        let u = s.remove(k, buddy_addr(s.base, addr, k) as usize).flip(addr, k);
        lemma_deallocate(u, parent_addr(s.base, addr, k), k + 1, y, ky);
    } else {
        lemma_insert(s, addr, k, y, ky);
    }
}

/// Bytes of a heap of `heap` bytes that are left for class `k` and the
/// classes below it, once the bigger classes have taken all they can.
pub open spec fn class_rest(heap: int, k: int) -> int {
    if k >= 8 {
        heap
    } else {
        heap % class_bytes(k + 1)
    }
}

/// The free blocks of class `k` in a fresh heap: as many as fit into what
/// the bigger classes left, one after the other, lowest address first.
pub open spec fn fresh_list(base: int, heap: int, k: int) -> Seq<usize> {
    Seq::new(
        (class_rest(heap, k) / class_bytes(k)) as nat,
        |i: int| (base + heap - class_rest(heap, k) + i * class_bytes(k)) as usize,
    )
}

/// The state of a fresh heap: the heap is cut greedily into blocks of the
/// biggest classes that fit, from its start, and no bit is set.
pub open spec fn fresh_state(base: int, heap: int) -> BuddyState {
    BuddyState {
        base,
        heap,
        lists: Seq::new(9, |k: int| fresh_list(base, heap, k)),
        bits: Seq::new((tree_count(heap) * 256) as nat, |i: int| false),
    }
}

impl BuddyState {
    /// Every free block ends at or before `addr`.
    pub open spec fn below(self, addr: int) -> bool {
        forall|j: int, m: int|
            0 <= j < 9 && 0 <= m < self.lists[j].len() ==> (#[trigger] self.lists[j][m])
                + class_bytes(j) <= addr
    }

    /// The state with `n` more blocks of class `k` in a row from `addr`.
    pub open spec fn with_row(self, k: int, addr: int, n: int) -> Self {
        BuddyState {
            lists: self.lists.update(
                k,
                self.lists[k] + Seq::new(n as nat, |i: int| (addr + i * class_bytes(k)) as usize),
            ),
            ..self
        }
    }
}

/// A row of blocks without buddies, put behind every free block, keeps the
/// state well formed and adds its bytes to the free bytes.
pub proof fn lemma_with_row(s: BuddyState, k: int, addr: int, n: int)
    requires
        s.wf(),
        0 <= k < 9,
        0 <= n,
        s.below(addr),
        s.base <= addr,
        (addr - s.base) % class_bytes(k) == 0,
        addr - s.base + n * class_bytes(k) <= s.heap,
        k == 8 || (n <= 1 && (addr - s.base) % class_bytes(k + 1) == 0 && addr - s.base
            + class_bytes(k + 1) > s.heap),
    ensures
        s.with_row(k, addr, n).wf(),
        s.with_row(k, addr, n).below(addr + n * class_bytes(k)),
        s.with_row(k, addr, n).free_bytes() == s.free_bytes() + n * class_bytes(k),
    decreases n,
{
    let b = class_bytes(k);
    if n == 0 {
        assert(s.with_row(k, addr, n).lists =~= s.lists);
        assert(s.with_row(k, addr, n) == s);
    } else {
        let u = s.with_row(k, addr, n - 1);
        let x = addr + (n - 1) * b;
        assert(n * b == (n - 1) * b + b) by (nonlinear_arith);
        assert(0 <= (n - 1) * b) by (nonlinear_arith)
            requires
                n >= 1,
                b > 0,
        ;
        lemma_with_row(s, k, addr, n - 1);
        vstd::arithmetic::div_mod::lemma_mod_multiples_vanish(n - 1, addr - s.base, b);
        assert((n - 1) * b + (addr - s.base) == b * (n - 1) + (addr - s.base))
            by (nonlinear_arith);
        assert(is_block(s.base, s.heap, x, k));
        assert(u.is_taken(x, k));
        lemma_insert(u, x, k, 0, 0);
        let t = u.push(k, x as usize);
        assert(t.lists[k] =~= s.with_row(k, addr, n).lists[k]);
        assert(t.lists =~= s.with_row(k, addr, n).lists);
        assert(t == s.with_row(k, addr, n));
        assert(t.below(addr + n * b)) by {
            assert forall|j: int, m: int| 0 <= j < 9 && 0 <= m < t.lists[j].len() implies (
            #[trigger] t.lists[j][m]) + class_bytes(j) <= addr + n * b by {
                if j == k && m == u.lists[k].len() {
                } else {
                    assert(t.lists[j][m] == u.lists[j][m]);
                }
            }
        }
    }
}

/// What class `k` finds when its turn comes in a fresh heap: the bytes
/// before it are taken by whole blocks of the class above, its own blocks
/// have no buddy, and what it leaves is what the class below finds.
pub proof fn lemma_class_turn(heap: int, k: int)
    requires
        0 <= heap,
        0 <= k < 9,
    ensures
        ({
            let rest = class_rest(heap, k);
            let b = class_bytes(k);
            let n = rest / b;
            &&& 0 <= rest <= heap
            &&& 0 <= n
            &&& n * b == rest - rest % b
            &&& rest % b == class_rest(heap, k - 1)
            &&& (heap - rest) % b == 0
            &&& k == 8 || (n <= 1 && (heap - rest) % class_bytes(k + 1) == 0 && rest
                < class_bytes(k + 1))
        }),
{
    let rest = class_rest(heap, k);
    let b = class_bytes(k);
    let n = rest / b;
    vstd::arithmetic::div_mod::lemma_fundamental_div_mod(rest, b);
    assert(n * b == b * n) by (nonlinear_arith);
    if k < 8 {
        let p = class_bytes(k + 1);
        lemma_class_doubles(k);
        vstd::arithmetic::div_mod::lemma_fundamental_div_mod(heap, p);
        let q = heap / p;
        assert(heap - rest == p * q);
        assert(0 <= q) by (nonlinear_arith)
            requires
                0 <= heap,
                p > 0,
                q == heap / p,
        ;
        assert(p * q == q * p + 0 && p * q == (2 * q) * b + 0) by (nonlinear_arith)
            requires
                p == 2 * b,
        ;
        vstd::arithmetic::div_mod::lemma_fundamental_div_mod_converse(heap - rest, p, q, 0);
        vstd::arithmetic::div_mod::lemma_fundamental_div_mod_converse(heap - rest, b, 2 * q, 0);
        vstd::arithmetic::div_mod::lemma_mod_mod(heap, b, 2);
        assert(b * 2 == p);
        assert(n <= 1) by (nonlinear_arith)
            requires
                0 <= rest < 2 * b,
                b > 0,
                n == rest / b,
        ;
        assert(0 <= n) by (nonlinear_arith)
            requires
                0 <= rest,
                b > 0,
                n == rest / b,
        ;
    } else {
        assert(0 <= n) by (nonlinear_arith)
            requires
                0 <= rest,
                b > 0,
                n == rest / b,
        ;
    }
}

/// What holds between the turns of the classes while a fresh heap is cut
/// up: the classes from `k` upwards have had their turn.
pub open spec fn cut_down_to(s: BuddyState, base: int, heap: int, k: int) -> bool {
    &&& s.wf()
    &&& s.base == base
    &&& s.heap == heap
    &&& forall|i: int| 0 <= i < s.bits.len() ==> !s.bits[i]
    &&& s.below(base + heap - class_rest(heap, k - 1))
    &&& s.free_bytes() + class_rest(heap, k - 1) == heap
    &&& forall|j: int| 0 <= j < k ==> (#[trigger] s.lists[j]).len() == 0
    &&& forall|j: int| k <= j < 9 ==> #[trigger] s.lists[j] == fresh_list(base, heap, j)
}

/// The turn of class `k`: its blocks are put in a row behind those of the
/// bigger classes.
pub proof fn lemma_turn(s: BuddyState, base: int, heap: int, k: int)
    requires
        0 <= k < 9,
        cut_down_to(s, base, heap, k + 1),
    ensures
        ({
            let addr = base + heap - class_rest(heap, k);
            let n = class_rest(heap, k) / class_bytes(k);
            let t = s.with_row(k, addr, n);
            &&& cut_down_to(t, base, heap, k)
            &&& t.lists[k] == fresh_list(base, heap, k)
            &&& class_rest(heap, k - 1) == class_rest(heap, k) % class_bytes(k)
            &&& 0 <= class_rest(heap, k - 1) <= class_rest(heap, k) <= heap
        }),
{
    let addr = base + heap - class_rest(heap, k);
    let n = class_rest(heap, k) / class_bytes(k);
    let t = s.with_row(k, addr, n);
    lemma_class_turn(heap, k);
    lemma_with_row(s, k, addr, n);
    assert(t.lists[k] =~= fresh_list(base, heap, k));
    assert forall|j: int| k <= j < 9 implies #[trigger] t.lists[j] == fresh_list(base, heap, j) by {
        if j != k {
            assert(t.lists[j] == s.lists[j]);
        }
    }
    assert forall|j: int| 0 <= j < k implies (#[trigger] t.lists[j]).len() == 0 by {
        assert(t.lists[j] == s.lists[j]);
    }
}

} // verus!
