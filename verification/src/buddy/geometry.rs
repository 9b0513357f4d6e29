//! Geometry of the buddy system: classes, blocks, buddies and the places of
//! their bits.
//!
//! Everything here is stated over plain integers: the address of the heap,
//! its size, the address of a block and the position of its class.

use vstd::prelude::*;

verus! {

/// Bytes in a block of the class with index `k` (0 for 4 KiB, 8 for 1024 KiB).
pub open spec fn class_bytes(k: int) -> int {
    if k <= 0 {
        0x1000
    } else if k == 1 {
        0x2000
    } else if k == 2 {
        0x4000
    } else if k == 3 {
        0x8000
    } else if k == 4 {
        0x10000
    } else if k == 5 {
        0x20000
    } else if k == 6 {
        0x40000
    } else if k == 7 {
        0x80000
    } else {
        0x100000
    }
}

/// Number of blocks of class `k` in one buddy tree; also the index of the
/// first node of that class in the tree's numbering.
pub open spec fn class_nodes(k: int) -> int {
    if k <= 0 {
        256
    } else if k == 1 {
        128
    } else if k == 2 {
        64
    } else if k == 3 {
        32
    } else if k == 4 {
        16
    } else if k == 5 {
        8
    } else if k == 6 {
        4
    } else if k == 7 {
        2
    } else {
        1
    }
}

/// Whether `addr` starts a block of class `k` that lies inside the heap of
/// `heap` bytes at `base`: in range and aligned, relative to `base`, to its
/// own size.
pub open spec fn is_block(base: int, heap: int, addr: int, k: int) -> bool {
    &&& 0 <= k < 9
    &&& base <= addr
    &&& (addr - base) % class_bytes(k) == 0
    &&& addr - base + class_bytes(k) <= heap
}

/// Start of the block of class `k + 1` that holds the block of class `k` at
/// `addr`.
pub open spec fn parent_addr(base: int, addr: int, k: int) -> int {
    addr - (addr - base) % class_bytes(k + 1)
}

/// Whether the block of class `k` at `addr` is the first half of its parent.
pub open spec fn is_first_half(base: int, addr: int, k: int) -> bool {
    (addr - base) % class_bytes(k + 1) == 0
}

/// Start of the other half of the parent of the block of class `k` at `addr`.
pub open spec fn buddy_addr(base: int, addr: int, k: int) -> int {
    if is_first_half(base, addr, k) {
        addr + class_bytes(k)
    } else {
        addr - class_bytes(k)
    }
}

/// Whether the block of class `k` at `addr` has a buddy: it is a block, it
/// is not of the biggest class, and its parent lies inside the heap. Blocks
/// without a buddy are never joined and have no bit.
pub open spec fn has_buddy(base: int, heap: int, addr: int, k: int) -> bool {
    &&& is_block(base, heap, addr, k)
    &&& k < 8
    &&& parent_addr(base, addr, k) - base + class_bytes(k + 1) <= heap
}

/// Number of the node that stands for the block of class `k` at `addr`:
/// 512 numbers per tree, and within a tree the first node of a class plus
/// the position of the block among the blocks of its class.
pub open spec fn node_index(base: int, addr: int, k: int) -> int {
    ((addr - base) / 0x100000) * 512 + class_nodes(k) + ((addr - base) % 0x100000) / class_bytes(k)
}

/// Position of the bit shared by the block of class `k` at `addr` and its
/// buddy: the number of their parent node, 256 numbers per tree.
pub open spec fn pair_index(base: int, addr: int, k: int) -> int {
    ((addr - base) / 0x100000) * 256 + class_nodes(k + 1) + ((addr - base) % 0x100000)
        / class_bytes(k + 1)
}

/// The bit of a pair stands at half the node number of either child.
pub proof fn lemma_pair_index_is_half_node(base: int, heap: int, addr: int, k: int)
    requires
        has_buddy(base, heap, addr, k),
    ensures
        pair_index(base, addr, k) == node_index(base, addr, k) / 2,
{
    let w = (addr - base) % 0x100000;
    if k == 0 {
        assert((w / 0x1000) / 2 == w / 0x2000);
    } else if k == 1 {
        assert((w / 0x2000) / 2 == w / 0x4000);
    } else if k == 2 {
        assert((w / 0x4000) / 2 == w / 0x8000);
    } else if k == 3 {
        assert((w / 0x8000) / 2 == w / 0x10000);
    } else if k == 4 {
        assert((w / 0x10000) / 2 == w / 0x20000);
    } else if k == 5 {
        assert((w / 0x20000) / 2 == w / 0x40000);
    } else if k == 6 {
        assert((w / 0x40000) / 2 == w / 0x80000);
    } else {
        assert((w / 0x80000) / 2 == w / 0x100000);
    }
}

/// Number of buddy trees needed to cover `heap` bytes.
pub open spec fn tree_count(heap: int) -> int {
    (heap + 0xfffff) / 0x100000
}

/// The bit of a buddy pair lies inside the bitmap of its heap.
pub proof fn lemma_pair_index_bound(base: int, heap: int, addr: int, k: int)
    requires
        has_buddy(base, heap, addr, k),
    ensures
        0 <= pair_index(base, addr, k) < tree_count(heap) * 256,
{
}

/// Offset of the parent whose bit stands at position `index`, when the
/// children are of class `k`.
pub open spec fn pair_parent_offset(index: int, k: int) -> int {
    (index / 256) * 0x100000 + (index % 256 - class_nodes(k + 1)) * class_bytes(k + 1)
}

/// The position of a pair's bit gives back the class of the pair and the
/// place of its parent.
pub proof fn lemma_pair_index_decode(base: int, heap: int, addr: int, k: int)
    requires
        has_buddy(base, heap, addr, k),
    ensures
        class_nodes(k + 1) <= pair_index(base, addr, k) % 256 < 2 * class_nodes(k + 1),
        parent_addr(base, addr, k) - base == pair_parent_offset(pair_index(base, addr, k), k),
{
    let off = addr - base;
    let t = off / 0x100000;
    let w = off % 0x100000;
    let p = class_bytes(k + 1);
    let n = class_nodes(k + 1);
    assert(n * p == 0x100000);
    assert(off == t * 0x100000 + w);
    assert(t * 0x100000 == (t * n) * p) by (nonlinear_arith)
        requires
            n * p == 0x100000,
    ;
    vstd::arithmetic::div_mod::lemma_fundamental_div_mod(w, p);
    vstd::arithmetic::div_mod::lemma_mod_multiples_vanish(t * n, w, p);
    assert(off % p == w % p);
    assert(0 <= w / p < n) by (nonlinear_arith)
        requires
            0 <= w < n * p,
            p > 0,
    ;
    assert(pair_index(base, addr, k) == t * 256 + (n + w / p));
    assert(pair_index(base, addr, k) % 256 == n + w / p);
    assert(pair_index(base, addr, k) / 256 == t);
    assert((w / p) * p == p * (w / p)) by (nonlinear_arith);
    assert(pair_index(base, addr, k) % 256 - n == w / p);
}

/// Two blocks share a bit only if they are the same block or buddies.
pub proof fn lemma_pair_index_injective(base: int, heap: int, a1: int, k1: int, a2: int, k2: int)
    requires
        has_buddy(base, heap, a1, k1),
        has_buddy(base, heap, a2, k2),
        pair_index(base, a1, k1) == pair_index(base, a2, k2),
    ensures
        k1 == k2,
        parent_addr(base, a1, k1) == parent_addr(base, a2, k2),
{
    lemma_pair_index_decode(base, heap, a1, k1);
    lemma_pair_index_decode(base, heap, a2, k2);
}

/// What holds of a block with a buddy, its buddy and their parent.
pub open spec fn buddy_facts(base: int, heap: int, addr: int, k: int) -> bool {
    let parent = parent_addr(base, addr, k);
    let buddy = buddy_addr(base, addr, k);
    &&& class_bytes(k + 1) == 2 * class_bytes(k)
    &&& is_block(base, heap, parent, k + 1)
    &&& is_block(base, heap, parent, k)
    &&& is_block(base, heap, parent + class_bytes(k), k)
    &&& has_buddy(base, heap, buddy, k)
    &&& parent_addr(base, buddy, k) == parent
    &&& buddy_addr(base, buddy, k) == addr
    &&& is_first_half(base, addr, k) ==> addr == parent && buddy == parent + class_bytes(k)
    &&& !is_first_half(base, addr, k) ==> buddy == parent && addr == parent + class_bytes(k)
    &&& is_first_half(base, parent, k)
    &&& !is_first_half(base, parent + class_bytes(k), k)
}

/// Every class but the biggest is half the next.
pub proof fn lemma_class_doubles(k: int)
    requires
        0 <= k < 8,
    ensures
        class_bytes(k + 1) == 2 * class_bytes(k),
        class_nodes(k) == 2 * class_nodes(k + 1),
        class_bytes(k) >= 0x1000,
{
}

/// A multiple of `b` is, modulo `2 * b`, either 0 or `b`; rounded down to a
/// multiple of `2 * b` it is a multiple of both.
pub proof fn lemma_halves(off: int, b: int)
    requires
        0 <= off,
        b > 0,
        off % b == 0,
    ensures
        off % (2 * b) == 0 || off % (2 * b) == b,
        (off - off % (2 * b)) % (2 * b) == 0,
        (off - off % (2 * b)) % b == 0,
        (off - off % (2 * b) + b) % (2 * b) == b,
        (off - off % (2 * b) + b) % b == 0,
        off - off % (2 * b) >= 0,
{
    let q = off / b;
    vstd::arithmetic::div_mod::lemma_fundamental_div_mod(off, b);
    let h = q / 2;
    let r = q % 2;
    assert(off == h * (2 * b) + r * b) by (nonlinear_arith)
        requires
            off == b * q,
            q == 2 * h + r,
    ;
    assert(r * b == 0 || r * b == b) by (nonlinear_arith)
        requires
            r == 0 || r == 1,
    ;
    vstd::arithmetic::div_mod::lemma_fundamental_div_mod_converse(off, 2 * b, h, r * b);
    let po = off - off % (2 * b);
    assert(po == h * (2 * b));
    assert(po == (2 * h) * b + 0) by (nonlinear_arith)
        requires
            po == h * (2 * b),
    ;
    assert(po + b == (2 * h + 1) * b + 0) by (nonlinear_arith)
        requires
            po == h * (2 * b),
    ;
    assert(0 <= h) by (nonlinear_arith)
        requires
            0 <= off,
            b > 0,
            q == off / b,
            h == q / 2,
    ;
    vstd::arithmetic::div_mod::lemma_fundamental_div_mod_converse(po, 2 * b, h, 0);
    vstd::arithmetic::div_mod::lemma_fundamental_div_mod_converse(po, b, 2 * h, 0);
    vstd::arithmetic::div_mod::lemma_fundamental_div_mod_converse(po + b, 2 * b, h, b);
    vstd::arithmetic::div_mod::lemma_fundamental_div_mod_converse(po + b, b, 2 * h + 1, 0);
}

/// A block with a buddy is one half of its parent, and its buddy the other.
pub proof fn lemma_buddy_facts(base: int, heap: int, addr: int, k: int)
    requires
        has_buddy(base, heap, addr, k),
    ensures
        buddy_facts(base, heap, addr, k),
{
    lemma_class_doubles(k);
    lemma_halves(addr - base, class_bytes(k));
}

/// The two halves of a block are blocks of the class below, and buddies.
pub proof fn lemma_split_facts(base: int, heap: int, addr: int, k: int)
    requires
        is_block(base, heap, addr, k + 1),
        0 <= k,
    ensures
        has_buddy(base, heap, addr, k),
        has_buddy(base, heap, addr + class_bytes(k), k),
        is_first_half(base, addr, k),
        parent_addr(base, addr, k) == addr,
        parent_addr(base, addr + class_bytes(k), k) == addr,
        buddy_addr(base, addr, k) == addr + class_bytes(k),
        class_bytes(k + 1) == 2 * class_bytes(k),
        pair_index(base, addr + class_bytes(k), k) == pair_index(base, addr, k),
{
    lemma_class_doubles(k);
    let b = class_bytes(k);
    let off = addr - base;
    vstd::arithmetic::div_mod::lemma_fundamental_div_mod(off, 2 * b);
    let h = off / (2 * b);
    assert(off == (2 * h) * b + 0) by (nonlinear_arith)
        requires
            off == (2 * b) * h,
    ;
    assert(0 <= h) by (nonlinear_arith)
        requires
            0 <= off,
            b > 0,
            h == off / (2 * b),
    ;
    vstd::arithmetic::div_mod::lemma_fundamental_div_mod_converse(off, b, 2 * h, 0);
    lemma_halves(off, b);
    lemma_pair_index_same(base, heap, addr, k, addr + class_bytes(k));
}

/// Two blocks of one class with the same parent share their bit.
pub proof fn lemma_pair_index_same(base: int, heap: int, a1: int, k: int, a2: int)
    requires
        has_buddy(base, heap, a1, k),
        has_buddy(base, heap, a2, k),
        parent_addr(base, a1, k) == parent_addr(base, a2, k),
    ensures
        pair_index(base, a1, k) == pair_index(base, a2, k),
{
    lemma_pair_index_decode(base, heap, a1, k);
    lemma_pair_index_decode(base, heap, a2, k);
    let i1 = pair_index(base, a1, k);
    let i2 = pair_index(base, a2, k);
    let n = class_nodes(k + 1);
    let p = class_bytes(k + 1);
    assert(n * p == 0x100000);
    let q1 = i1 % 256 - n;
    let q2 = i2 % 256 - n;
    assert((i1 / 256) * 0x100000 + q1 * p == (i2 / 256) * 0x100000 + q2 * p);
    assert(0 <= q1 * p < 0x100000 && 0 <= q2 * p < 0x100000) by (nonlinear_arith)
        requires
            0 <= q1 < n,
            0 <= q2 < n,
            n * p == 0x100000,
            p > 0,
    ;
    assert(i1 / 256 == i2 / 256);
    assert(q1 == q2) by (nonlinear_arith)
        requires
            q1 * p == q2 * p,
            p > 0,
    ;
}

/// Bit `j` of `byte`.
pub open spec fn bit_of(byte: u8, j: u8) -> bool {
    (byte >> j) & 1 == 1
}

pub proof fn lemma_zero_bit(j: u8)
    by (bit_vector)
    requires
        j < 8,
    ensures
        !bit_of(0u8, j),
{
}

pub proof fn lemma_flip_bit(b: u8, j: u8, i: u8)
    by (bit_vector)
    requires
        j < 8,
        i < 8,
    ensures
        bit_of(b ^ (1u8 << j), i) == (if i == j {
            !bit_of(b, i)
        } else {
            bit_of(b, i)
        }),
{
}

/// Position of the class that serves a request of `size` bytes: the
/// smallest class that is bigger than `size`, or 9 if there is none.
pub open spec fn block_class(size: int) -> int {
    if size < 0x1000 {
        0
    } else if size < 0x2000 {
        1
    } else if size < 0x4000 {
        2
    } else if size < 0x8000 {
        3
    } else if size < 0x10000 {
        4
    } else if size < 0x20000 {
        5
    } else if size < 0x40000 {
        6
    } else if size < 0x80000 {
        7
    } else if size < 0x100000 {
        8
    } else {
        9
    }
}

/// Every block of a page-aligned heap starts at a page boundary.
pub proof fn lemma_block_page_aligned(base: int, heap: int, addr: int, k: int)
    requires
        is_block(base, heap, addr, k),
        0 <= base,
        base % 4096 == 0,
    ensures
        addr % 4096 == 0,
{
    let b = class_bytes(k);
    let off = addr - base;
    let m = b / 4096;
    assert(b == 4096 * m);
    vstd::arithmetic::div_mod::lemma_fundamental_div_mod(off, b);
    vstd::arithmetic::div_mod::lemma_fundamental_div_mod(base, 4096);
    let q = off / b;
    assert(addr == (m * q + base / 4096) * 4096 + 0) by (nonlinear_arith)
        requires
            addr == base + off,
            off == b * q,
            b == 4096 * m,
            base == 4096 * (base / 4096),
    ;
    vstd::arithmetic::div_mod::lemma_fundamental_div_mod_converse(
        addr,
        4096,
        m * q + base / 4096,
        0,
    );
}

} // verus!
