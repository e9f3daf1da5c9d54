//! The heap: a first-fit allocator over one byte region whose blocks
//! carry their headers, and whose free blocks carry their list links,
//! inside the region itself.

use crate::heap_model::{
    fits, is_merged, is_split, is_taken, lemma_apart, lemma_block, lemma_distinct,
    lemma_entry_of_free, lemma_first_fit_none, lemma_free, lemma_free_entry, lemma_index_of,
    lemma_initial_inv, lemma_live_after_free, lemma_nonempty, lemma_split, lemma_take, need_of,
    splits, HeapView, BFHEAD_SIZE, BHEAD_SIZE, ESENT, FREELIST, QLINKS_SIZE, SIZE_QUANT,
};
use crate::region::Region;
use vstd::prelude::*;

verus! {

/// The back link stored in the header at `a`.
pub open spec fn prevfree_at(m: &Region, a: int) -> int {
    m.word_at(a) as int
}

/// The block size stored in the header at `a`.
pub open spec fn bsize_at(m: &Region, a: int) -> int {
    m.word_at(a + 8) as int
}

/// The state stored in the header at `a`.
pub open spec fn allocated_at(m: &Region, a: int) -> bool {
    m.byte_at(a + 16) != 0
}

/// The forward link stored in the free header at `a`.
pub open spec fn flink_at(m: &Region, a: int) -> int {
    m.word_at(a + 24) as int
}

/// The backward link stored in the free header at `a`.
pub open spec fn blink_at(m: &Region, a: int) -> int {
    m.word_at(a + 32) as int
}

/// A block header in a region, named by its address.
pub struct BHead {
    pub addr: usize,
}

impl BHead {
    /// The header at `addr`.
    pub fn from_addr(addr: usize) -> (h: BHead)
        ensures
            h.addr == addr,
    {
        BHead { addr }
    }

    /// Address of the header.
    pub fn addr(&self) -> (a: usize)
        ensures
            a == self.addr,
    {
        self.addr
    }

    /// The header lies inside `m`.
    pub open spec fn inside(&self, m: &Region) -> bool {
        m.contains(self.addr as int, BHEAD_SIZE as int)
    }

    /// Writes the three fields of the header.
    pub fn init(&self, m: &mut Region, prevfree: usize, bsize: usize, allocated: bool)
        requires
            self.inside(old(m)),
        ensures
            final(m).same_except(old(m), self.addr as int, self.addr + 17),
            prevfree_at(final(m), self.addr as int) == prevfree,
            bsize_at(final(m), self.addr as int) == bsize,
            allocated_at(final(m), self.addr as int) == allocated,
    {
        self.set_prevfree(m, prevfree);
        self.set_bsize(m, bsize);
        self.set_allocated(m, allocated);
    }

    /// Whether the block is handed out.
    pub fn is_allocated(&self, m: &Region) -> (r: bool)
        requires
            self.inside(m),
        ensures
            r == allocated_at(m, self.addr as int),
    {
        m.read_byte(self.addr + 16) != 0
    }

    /// Records whether the block is handed out.
    pub fn set_allocated(&self, m: &mut Region, allocated: bool)
        requires
            self.inside(old(m)),
        ensures
            final(m).same_except(old(m), self.addr + 16, self.addr + 17),
            allocated_at(final(m), self.addr as int) == allocated,
    {
        m.write_byte(self.addr + 16, if allocated { 1 } else { 0 });
    }

    /// Distance back to the previous block if that block is free, else 0.
    pub fn prevfree(&self, m: &Region) -> (r: usize)
        requires
            self.inside(m),
        ensures
            r == prevfree_at(m, self.addr as int),
    {
        m.read_word(self.addr)
    }

    /// Records the back link.
    pub fn set_prevfree(&self, m: &mut Region, prevfree: usize)
        requires
            self.inside(old(m)),
        ensures
            final(m).same_except(old(m), self.addr as int, self.addr + 8),
            prevfree_at(final(m), self.addr as int) == prevfree,
    {
        m.write_word(self.addr, prevfree);
    }

    /// Length of the block in bytes, header included.
    pub fn bsize(&self, m: &Region) -> (r: usize)
        requires
            self.inside(m),
        ensures
            r == bsize_at(m, self.addr as int),
    {
        m.read_word(self.addr + 8)
    }

    /// Records the length of the block.
    pub fn set_bsize(&self, m: &mut Region, bsize: usize)
        requires
            self.inside(old(m)),
        ensures
            final(m).same_except(old(m), self.addr + 8, self.addr + 16),
            bsize_at(final(m), self.addr as int) == bsize,
    {
        m.write_word(self.addr + 8, bsize);
    }
}

/// The two links that chain a free block into the free list.
pub struct QLinks {
    pub flink: usize,
    pub blink: usize,
}

/// The header of a free block in a region, named by its address: a block
/// header followed by the links.
pub struct BFHead {
    pub addr: usize,
}

impl BFHead {
    /// The free header at `addr`.
    pub fn from_addr(addr: usize) -> (h: BFHead)
        ensures
            h.addr == addr,
    {
        BFHead { addr }
    }

    /// Address of the header.
    pub fn addr(&self) -> (a: usize)
        ensures
            a == self.addr,
    {
        self.addr
    }

    /// The header with its links lies inside `m`.
    pub open spec fn inside(&self, m: &Region) -> bool {
        m.contains(self.addr as int, BFHEAD_SIZE as int)
    }

    /// Writes a free header: back link, size, and both links.
    pub fn init(&self, m: &mut Region, prevfree: usize, bsize: usize, flink: &BFHead, blink: &BFHead)
        requires
            self.inside(old(m)),
        ensures
            final(m).same_except(old(m), self.addr as int, self.addr + 40),
            prevfree_at(final(m), self.addr as int) == prevfree,
            bsize_at(final(m), self.addr as int) == bsize,
            !allocated_at(final(m), self.addr as int),
            flink_at(final(m), self.addr as int) == flink.addr,
            blink_at(final(m), self.addr as int) == blink.addr,
    {
        BHead::from_addr(self.addr).init(m, prevfree, bsize, false);
        self.set_flink(m, flink);
        self.set_blink(m, blink);
    }

    /// Address of the next block in the free list.
    pub fn flink(&self, m: &Region) -> (r: usize)
        requires
            self.inside(m),
        ensures
            r == flink_at(m, self.addr as int),
    {
        m.read_word(self.addr + 24)
    }

    /// Address of the previous block in the free list.
    pub fn blink(&self, m: &Region) -> (r: usize)
        requires
            self.inside(m),
        ensures
            r == blink_at(m, self.addr as int),
    {
        m.read_word(self.addr + 32)
    }

    /// Points the backward link at `blink`.
    pub fn set_blink(&self, m: &mut Region, blink: &BFHead)
        requires
            self.inside(old(m)),
        ensures
            final(m).same_except(old(m), self.addr + 32, self.addr + 40),
            blink_at(final(m), self.addr as int) == blink.addr,
    {
        m.write_word(self.addr + 32, blink.addr);
    }

    /// Points the forward link at `flink`.
    pub fn set_flink(&self, m: &mut Region, flink: &BFHead)
        requires
            self.inside(old(m)),
        ensures
            final(m).same_except(old(m), self.addr + 24, self.addr + 32),
            flink_at(final(m), self.addr as int) == flink.addr,
    {
        m.write_word(self.addr + 24, flink.addr);
    }

    /// Distance back to the previous block if that block is free, else 0.
    pub fn prevfree(&self, m: &Region) -> (r: usize)
        requires
            self.inside(m),
        ensures
            r == prevfree_at(m, self.addr as int),
    {
        BHead::from_addr(self.addr).prevfree(m)
    }

    /// Records the back link.
    pub fn set_prevfree(&self, m: &mut Region, prevfree: usize)
        requires
            self.inside(old(m)),
        ensures
            final(m).same_except(old(m), self.addr as int, self.addr + 8),
            prevfree_at(final(m), self.addr as int) == prevfree,
    {
        BHead::from_addr(self.addr).set_prevfree(m, prevfree);
    }

    /// Length of the block in bytes, header included.
    pub fn bsize(&self, m: &Region) -> (r: usize)
        requires
            self.inside(m),
        ensures
            r == bsize_at(m, self.addr as int),
    {
        BHead::from_addr(self.addr).bsize(m)
    }

    /// Records the length of the block.
    pub fn set_bsize(&self, m: &mut Region, bsize: usize)
        requires
            self.inside(old(m)),
        ensures
            final(m).same_except(old(m), self.addr + 8, self.addr + 16),
            bsize_at(final(m), self.addr as int) == bsize,
    {
        BHead::from_addr(self.addr).set_bsize(m, bsize);
    }

    /// Records whether the block is handed out.
    pub fn set_allocated(&self, m: &mut Region, allocated: bool)
        requires
            self.inside(old(m)),
        ensures
            final(m).same_except(old(m), self.addr + 16, self.addr + 17),
            allocated_at(final(m), self.addr as int) == allocated,
    {
        BHead::from_addr(self.addr).set_allocated(m, allocated);
    }

    /// Whether the block is handed out.
    pub fn is_allocated(&self, m: &Region) -> (r: bool)
        requires
            self.inside(m),
        ensures
            r == allocated_at(m, self.addr as int),
    {
        BHead::from_addr(self.addr).is_allocated(m)
    }

    /// Whether both name the same header.
    pub fn eq(&self, target: &BFHead) -> (r: bool)
        ensures
            r == (self.addr == target.addr),
    {
        self.addr == target.addr
    }
}

/// The entry at position `k` of the ring: a block of the free list, or
/// the head of the ring before its first and behind its last block.
pub open spec fn node(fl: Seq<int>, k: int) -> int {
    if 0 <= k < fl.len() {
        fl[k]
    } else {
        FREELIST as int
    }
}

/// The back link that the block at index `i` must hold; `i` may be the
/// number of blocks, for the closing header.
pub open spec fn back_link(v: HeapView, i: int) -> int {
    if 0 < i <= v.blocks.len() && !v.blocks[i - 1].allocated {
        v.blocks[i - 1].size
    } else {
        0
    }
}

/// The header of block `i` in `m` says what the model says.
spec fn header_ok(m: &Region, v: HeapView, i: int) -> bool {
    &&& prevfree_at(m, v.blocks[i].addr) == back_link(v, i)
    &&& bsize_at(m, v.blocks[i].addr) == v.blocks[i].size
    &&& allocated_at(m, v.blocks[i].addr) == v.blocks[i].allocated
}

/// Every header in `m`, the closing one included, says what the model
/// says.
spec fn headers_ok(m: &Region, v: HeapView) -> bool {
    &&& forall|i: int| 0 <= i < v.blocks.len() ==> #[trigger] header_ok(m, v, i)
    &&& prevfree_at(m, v.end()) == back_link(v, v.blocks.len() as int)
    &&& bsize_at(m, v.end()) == ESENT
    &&& allocated_at(m, v.end())
}

/// The links of block `k` of the free list chain it to its neighbours.
spec fn link_ok(m: &Region, fl: Seq<int>, k: int) -> bool {
    &&& flink_at(m, fl[k]) == node(fl, k + 1)
    &&& blink_at(m, fl[k]) == node(fl, k - 1)
}

/// The head and the blocks of `fl` form a ring in list order.
spec fn links_ok(m: &Region, head: QLinks, fl: Seq<int>) -> bool {
    &&& head.flink == node(fl, 0)
    &&& head.blink == node(fl, fl.len() - 1)
    &&& forall|k: int| 0 <= k < fl.len() ==> #[trigger] link_ok(m, fl, k)
}

/// The free headers of `fl` lie inside `m` and do not overlap.
#[verifier::opaque]
spec fn nodes_apart(m: &Region, fl: Seq<int>) -> bool {
    &&& forall|k: int| 0 <= k < fl.len() ==> m.contains(#[trigger] fl[k], BFHEAD_SIZE as int)
    &&& forall|k: int, l: int|
        0 <= k < l < fl.len() ==> (#[trigger] fl[k]) + BFHEAD_SIZE <= (#[trigger] fl[l]) || fl[l]
            + BFHEAD_SIZE <= fl[k]
}

/// The forward link of ring entry `x`, which is a block or the head.
spec fn ring_flink(m: &Region, head: QLinks, x: int) -> int {
    if x == FREELIST {
        head.flink as int
    } else {
        flink_at(m, x)
    }
}

/// The backward link of ring entry `x`, which is a block or the head.
spec fn ring_blink(m: &Region, head: QLinks, x: int) -> int {
    if x == FREELIST {
        head.blink as int
    } else {
        blink_at(m, x)
    }
}

/// First byte of the link at offset `off` of ring entry `x`; the head has
/// no bytes in the pool.
spec fn span_lo(x: int, off: int) -> int {
    if x == FREELIST {
        0
    } else {
        x + off
    }
}

/// End of the link at offset `off` of ring entry `x`.
spec fn span_hi(x: int, off: int) -> int {
    if x == FREELIST {
        0
    } else {
        x + off + 8
    }
}

/// The free headers of a pool that meets its invariant lie inside it and
/// do not overlap.
proof fn lemma_nodes_apart(m: &Region, v: HeapView)
    requires
        v.inv(),
        m.wf(),
        m.base() == v.base,
        m.len() == v.size,
    ensures
        nodes_apart(m, v.free_list),
{
    reveal(nodes_apart);
    assert forall|k: int| 0 <= k < v.free_list.len() implies m.contains(
        #[trigger] v.free_list[k],
        BFHEAD_SIZE as int,
    ) by {
        lemma_free_entry(v, k);
    }
    assert forall|k: int, l: int| 0 <= k < l < v.free_list.len() implies (
    #[trigger] v.free_list[k]) + BFHEAD_SIZE <= (#[trigger] v.free_list[l]) || v.free_list[l]
        + BFHEAD_SIZE <= v.free_list[k] by {
        lemma_free_entry(v, k);
        lemma_free_entry(v, l);
        lemma_distinct(v, k, l);
        lemma_apart(v, v.index_of(v.free_list[k]), v.index_of(v.free_list[l]));
    }
}

/// The free headers of a pool stay apart when the allocated block `i`
/// joins them.
proof fn lemma_nodes_apart_push(m: &Region, v: HeapView, i: int)
    requires
        v.inv(),
        m.wf(),
        m.base() == v.base,
        m.len() == v.size,
        0 <= i < v.blocks.len(),
        v.blocks[i].allocated,
    ensures
        nodes_apart(m, v.free_list.push(v.blocks[i].addr)),
{
    lemma_nodes_apart(m, v);
    reveal(nodes_apart);
    let fl = v.free_list;
    let g = fl.push(v.blocks[i].addr);
    lemma_block(v, i);
    assert forall|k: int| 0 <= k < g.len() implies m.contains(
        #[trigger] g[k],
        BFHEAD_SIZE as int,
    ) by {
        if k < fl.len() {
            assert(m.contains(fl[k], BFHEAD_SIZE as int));
        }
    }
    assert forall|k: int, l: int| 0 <= k < l < g.len() implies (#[trigger] g[k]) + BFHEAD_SIZE <= (
    #[trigger] g[l]) || g[l] + BFHEAD_SIZE <= g[k] by {
        if l < fl.len() {
            assert(fl[k] + BFHEAD_SIZE <= fl[l] || fl[l] + BFHEAD_SIZE <= fl[k]);
        } else {
            lemma_free_entry(v, k);
            lemma_apart(v, v.index_of(fl[k]), i);
        }
    }
}

/// A byte in user hands lies in no block header, in no free block, and
/// before the closing header.
proof fn lemma_live_byte(v: HeapView, a: int, x: int)
    requires
        v.inv(),
        v.is_live_byte(a),
        0 <= x < v.blocks.len(),
    ensures
        !(v.blocks[x].addr <= a < v.blocks[x].addr + BHEAD_SIZE),
        !v.blocks[x].allocated ==> !(v.blocks[x].addr <= a < v.blocks[x].addr + v.blocks[x].size),
        a < v.end(),
        v.base + BHEAD_SIZE <= a,
        v.block_ok(v.blocks[x]),
{
    let j = choose|j: int|
        0 <= j < v.blocks.len() && (#[trigger] v.blocks[j]).allocated && v.blocks[j].addr
            + BHEAD_SIZE <= a < v.blocks[j].addr + v.blocks[j].size;
    lemma_block(v, j);
    lemma_block(v, x);
    if j != x {
        lemma_apart(v, j, x);
    }
}

/// A word in user hands overlaps no block header, no free block, and not
/// the closing header.
proof fn lemma_live_word(v: HeapView, a: int, x: int)
    requires
        v.inv(),
        v.is_live_word(a),
        0 <= x < v.blocks.len(),
    ensures
        a + 8 <= v.blocks[x].addr || v.blocks[x].addr + BHEAD_SIZE <= a,
        !v.blocks[x].allocated ==> a + 8 <= v.blocks[x].addr || v.blocks[x].addr
            + v.blocks[x].size <= a,
        a + 8 <= v.end(),
        v.base + BHEAD_SIZE <= a,
        v.block_ok(v.blocks[x]),
{
    let j = choose|j: int|
        0 <= j < v.blocks.len() && (#[trigger] v.blocks[j]).allocated && v.blocks[j].addr
            + BHEAD_SIZE <= a && a + 8 <= v.blocks[j].addr + v.blocks[j].size;
    lemma_block(v, j);
    lemma_block(v, x);
    if j != x {
        lemma_apart(v, j, x);
    }
}

/// Every entry of the ring `g` is the header address of a block.
#[verifier::opaque]
spec fn blocks_ring(v: HeapView, g: Seq<int>) -> bool {
    forall|k: int|
        0 <= k < g.len() ==> 0 <= v.index_of(#[trigger] g[k]) < v.blocks.len()
            && v.blocks[v.index_of(g[k])].addr == g[k]
}

/// The free list is a ring of blocks, also with block `i` at its end.
proof fn lemma_blocks_ring(v: HeapView, i: int)
    requires
        v.inv(),
        0 <= i < v.blocks.len(),
    ensures
        blocks_ring(v, v.free_list),
        blocks_ring(v, v.free_list.push(v.blocks[i].addr)),
{
    reveal(blocks_ring);
    let g = v.free_list.push(v.blocks[i].addr);
    assert forall|k: int| 0 <= k < g.len() implies 0 <= v.index_of(#[trigger] g[k])
        < v.blocks.len() && v.blocks[v.index_of(g[k])].addr == g[k] by {
        if k < v.free_list.len() {
            lemma_free_entry(v, k);
        } else {
            lemma_index_of(v, i);
        }
    }
    assert forall|k: int| 0 <= k < v.free_list.len() implies 0 <= v.index_of(
        #[trigger] v.free_list[k],
    ) < v.blocks.len() && v.blocks[v.index_of(v.free_list[k])].addr == v.free_list[k] by {
        lemma_free_entry(v, k);
    }
}

/// A ring of blocks without one of its entries is a ring of blocks.
proof fn lemma_blocks_ring_remove(v: HeapView, g: Seq<int>, k: int)
    requires
        blocks_ring(v, g),
        0 <= k < g.len(),
    ensures
        blocks_ring(v, g.remove(k)),
{
    reveal(blocks_ring);
    let h = g.remove(k);
    assert forall|l: int| 0 <= l < h.len() implies 0 <= v.index_of(#[trigger] h[l])
        < v.blocks.len() && v.blocks[v.index_of(h[l])].addr == h[l] by {
        let o = if l < k { l } else { l + 1 };
        assert(h[l] == g[o]);
    }
}

/// A write inside the block header of block `x`, or of the closing
/// header where `x` is the number of blocks, leaves a ring of block
/// addresses linked as it was.
proof fn lemma_links_kept(
    m1: &Region,
    m2: &Region,
    head: QLinks,
    v: HeapView,
    g: Seq<int>,
    x: int,
    lo: int,
    hi: int,
)
    requires
        v.tiled(),
        links_ok(m1, head, g),
        blocks_ring(v, g),
        0 <= x <= v.blocks.len(),
        m2.same_except(m1, lo, hi),
        x < v.blocks.len() ==> v.blocks[x].addr <= lo && hi <= v.blocks[x].addr + BHEAD_SIZE,
        x == v.blocks.len() ==> v.end() <= lo,
    ensures
        links_ok(m2, head, g),
{
    reveal(blocks_ring);
    assert forall|k: int| 0 <= k < g.len() implies #[trigger] link_ok(m2, g, k) by {
        assert(link_ok(m1, g, k));
        let y = v.index_of(g[k]);
        lemma_block(v, y);
        if x < v.blocks.len() && y != x {
            lemma_apart(v, y, x);
        }
    }
}

/// What a release may have written: the header and, where the block
/// joined the free list, the links of the block at `b`, up to `hi1`; a
/// link of each of the ring entries `t`, `p` and `nx`; and the back link
/// at `bn`.
spec fn release_frame(
    m: &Region,
    m0: &Region,
    b: int,
    hi1: int,
    t: int,
    p: int,
    nx: int,
    bn: int,
) -> bool {
    &&& m.base() == m0.base()
    &&& m.len() == m0.len()
    &&& forall|a: int|
        !(b + 8 <= a < hi1) && !(span_lo(t, 24) <= a < span_hi(t, 24)) && !(span_lo(p, 24) <= a
            < span_hi(p, 24)) && !(span_lo(nx, 32) <= a < span_hi(nx, 32)) && !(bn <= a < bn + 8)
            ==> #[trigger] m.byte_at(a) == m0.byte_at(a)
    &&& forall|a: int|
        (a + 8 <= b + 8 || hi1 <= a) && (t == FREELIST || a + 8 <= t + 24 || t + 32 <= a) && (p
            == FREELIST || a + 8 <= p + 24 || p + 32 <= a) && (nx == FREELIST || a + 8 <= nx + 32
            || nx + 40 <= a) && (a + 8 <= bn || bn + 8 <= a) ==> #[trigger] m.word_at(a)
            == m0.word_at(a)
}

/// The writes of the three steps of a release add up to its frame.
proof fn lemma_release_frame(
    m0: &Region,
    ma: &Region,
    mb: &Region,
    mc: &Region,
    m: &Region,
    b: int,
    hi1: int,
    t: int,
    p: int,
    nx: int,
    bn: int,
)
    requires
        b + 16 <= hi1,
        ma.same_outside(m0, b + 8, hi1, span_lo(t, 24), span_hi(t, 24)),
        mb.same_outside(ma, span_lo(p, 24), span_hi(p, 24), span_lo(nx, 32), span_hi(nx, 32)),
        mc.same_except(mb, b + 8, b + 16),
        m.same_except(mc, bn, bn + 8),
    ensures
        release_frame(m, m0, b, hi1, t, p, nx, bn),
{
    assert forall|a: int|
        !(b + 8 <= a < hi1) && !(span_lo(t, 24) <= a < span_hi(t, 24)) && !(span_lo(p, 24) <= a
            < span_hi(p, 24)) && !(span_lo(nx, 32) <= a < span_hi(nx, 32)) && !(bn <= a < bn + 8)
            implies #[trigger] m.byte_at(a) == m0.byte_at(a) by {
        assert(mc.byte_at(a) == mb.byte_at(a));
        assert(mb.byte_at(a) == ma.byte_at(a));
        assert(ma.byte_at(a) == m0.byte_at(a));
    }
    assert forall|a: int|
        (a + 8 <= b + 8 || hi1 <= a) && (t == FREELIST || a + 8 <= t + 24 || t + 32 <= a) && (p
            == FREELIST || a + 8 <= p + 24 || p + 32 <= a) && (nx == FREELIST || a + 8 <= nx + 32
            || nx + 40 <= a) && (a + 8 <= bn || bn + 8 <= a) implies #[trigger] m.word_at(a)
            == m0.word_at(a) by {
        assert(mc.word_at(a) == mb.word_at(a));
        assert(mb.word_at(a) == ma.word_at(a));
        assert(ma.word_at(a) == m0.word_at(a));
    }
}

/// The ring entry `t` is the head, or the block of index `tj`, which is
/// free or is block `i`.
spec fn ring_entry(v: HeapView, t: int, tj: int, i: int) -> bool {
    t == FREELIST || (0 <= tj < v.blocks.len() && v.blocks[tj].addr == t && (tj == i
        || !v.blocks[tj].allocated))
}

/// After the writes of a release the headers say what the model after
/// it says.
#[verifier::rlimit(100)]
proof fn lemma_release_headers(
    m0: &Region,
    m: &Region,
    v: HeapView,
    w: HeapView,
    i: int,
    hi1: int,
    t: int,
    tj: int,
    p: int,
    pj: int,
    nx: int,
    nj: int,
)
    requires
        v.inv(),
        headers_ok(m0, v),
        0 <= i < v.blocks.len(),
        v.blocks[i].allocated,
        is_merged(v, w, v.merge_start(i), v.merge_stop(i)),
        ring_entry(v, t, tj, i),
        ring_entry(v, p, pj, i),
        ring_entry(v, nx, nj, i),
        hi1 == w.blocks[v.merge_start(i)].addr + (if v.merge_start(i) == i { 40int } else { 17 }),
        release_frame(
            m,
            m0,
            w.blocks[v.merge_start(i)].addr,
            hi1,
            t,
            p,
            nx,
            w.blocks[v.merge_start(i)].addr + w.blocks[v.merge_start(i)].size,
        ),
        bsize_at(m, w.blocks[v.merge_start(i)].addr) == w.blocks[v.merge_start(i)].size,
        !allocated_at(m, w.blocks[v.merge_start(i)].addr),
        prevfree_at(
            m,
            w.blocks[v.merge_start(i)].addr + w.blocks[v.merge_start(i)].size,
        ) == w.blocks[v.merge_start(i)].size,
    ensures
        headers_ok(m, w),
{
    let n = v.blocks.len() as int;
    let start = v.merge_start(i);
    let stop = v.merge_stop(i);
    let d = stop - start - 1;
    lemma_block(v, start);
    lemma_block(v, stop - 1);
    lemma_block(v, i);
    if start < i {
        lemma_apart(v, start, i);
    }
    if stop < n {
        lemma_block(v, stop);
    }
    assert forall|j: int| 0 <= j < w.blocks.len() implies #[trigger] header_ok(m, w, j) by {
        let x = if j <= start { j } else { j + d };
        assert(header_ok(m0, v, x));
        lemma_block(v, x);
        if x != start {
            lemma_apart(v, x, start);
        }
        if x != i {
            lemma_apart(v, x, i);
        }
        if p != FREELIST && x != pj {
            lemma_apart(v, x, pj);
        }
        if nx != FREELIST && x != nj {
            lemma_apart(v, x, nj);
        }
        if t != FREELIST && x != tj {
            lemma_apart(v, x, tj);
        }
        if stop < n && x != stop {
            lemma_apart(v, x, stop);
        }
        if j != start {
            assert(w.blocks[j] == v.blocks[x]);
        }
        if j > 0 && j - 1 < start {
            assert(w.blocks[j - 1] == v.blocks[j - 1]);
        } else if j - 1 > start {
            assert(w.blocks[j - 1] == v.blocks[x - 1]);
        }
    }
    lemma_block(v, n - 1);
    if p != FREELIST {
        lemma_block(v, pj);
    }
    if nx != FREELIST {
        lemma_block(v, nj);
    }
    if t != FREELIST {
        lemma_block(v, tj);
    }
    if stop < n {
        assert(w.blocks[w.blocks.len() - 1] == v.blocks[n - 1]);
        if start < n - 1 {
            lemma_apart(v, start, n - 1);
        }
    }
    assert(prevfree_at(m, w.end()) == back_link(w, w.blocks.len() as int));
    assert(bsize_at(m, w.end()) == ESENT && allocated_at(m, w.end()));
}

/// The writes of a release leave what is in user hands after it as it
/// was.
#[verifier::rlimit(80)]
proof fn lemma_release_keeps(
    m0: &Region,
    m: &Region,
    v: HeapView,
    w: HeapView,
    i: int,
    hi1: int,
    t: int,
    tj: int,
    p: int,
    pj: int,
    nx: int,
    nj: int,
)
    requires
        v.inv(),
        0 <= i < v.blocks.len(),
        v.blocks[i].allocated,
        is_merged(v, w, v.merge_start(i), v.merge_stop(i)),
        ring_entry(v, t, tj, i),
        ring_entry(v, p, pj, i),
        ring_entry(v, nx, nj, i),
        hi1 == w.blocks[v.merge_start(i)].addr + (if v.merge_start(i) == i { 40int } else { 17 }),
        release_frame(
            m,
            m0,
            w.blocks[v.merge_start(i)].addr,
            hi1,
            t,
            p,
            nx,
            w.blocks[v.merge_start(i)].addr + w.blocks[v.merge_start(i)].size,
        ),
    ensures
        forall|a: int| w.is_live_byte(a) ==> #[trigger] m.byte_at(a) == m0.byte_at(a),
        forall|a: int| w.is_live_word(a) ==> #[trigger] m.word_at(a) == m0.word_at(a),
{
    let n = v.blocks.len() as int;
    let start = v.merge_start(i);
    let stop = v.merge_stop(i);
    lemma_block(v, start);
    lemma_block(v, stop - 1);
    lemma_block(v, i);
    assert forall|a: int| w.is_live_byte(a) implies #[trigger] m.byte_at(a) == m0.byte_at(a) by {
        lemma_live_after_free(v, w, i, a, 1);
        lemma_live_byte(v, a, start);
        if p != FREELIST {
            lemma_live_byte(v, a, pj);
        }
        if nx != FREELIST {
            lemma_live_byte(v, a, nj);
        }
        if t != FREELIST {
            lemma_live_byte(v, a, tj);
        }
        if stop < n {
            lemma_live_byte(v, a, stop);
        }
    }
    assert forall|a: int| w.is_live_word(a) implies #[trigger] m.word_at(a) == m0.word_at(a) by {
        lemma_live_after_free(v, w, i, a, 8);
        lemma_live_word(v, a, start);
        if p != FREELIST {
            lemma_live_word(v, a, pj);
        }
        if nx != FREELIST {
            lemma_live_word(v, a, nj);
        }
        if t != FREELIST {
            lemma_live_word(v, a, tj);
        }
        if stop < n {
            lemma_live_word(v, a, stop);
        }
    }
}

/// Writes inside the free block `i`, to a link of each of the free ring
/// entries `p` and `nx`, and to the back link behind block `i` leave what
/// is in user hands as it was.
proof fn lemma_alloc_keeps(
    m0: &Region,
    m: &Region,
    v: HeapView,
    i: int,
    hi1: int,
    p: int,
    pj: int,
    nx: int,
    nj: int,
)
    requires
        v.inv(),
        0 <= i < v.blocks.len(),
        !v.blocks[i].allocated,
        hi1 <= v.blocks[i].addr + v.blocks[i].size,
        ring_entry(v, p, pj, i),
        ring_entry(v, nx, nj, i),
        release_frame(
            m,
            m0,
            v.blocks[i].addr,
            hi1,
            FREELIST as int,
            p,
            nx,
            v.blocks[i].addr + v.blocks[i].size,
        ),
    ensures
        forall|a: int| v.is_live_byte(a) ==> #[trigger] m.byte_at(a) == m0.byte_at(a),
        forall|a: int| v.is_live_word(a) ==> #[trigger] m.word_at(a) == m0.word_at(a),
{
    let n = v.blocks.len() as int;
    lemma_block(v, i);
    assert forall|a: int| v.is_live_byte(a) implies #[trigger] m.byte_at(a) == m0.byte_at(a) by {
        lemma_live_byte(v, a, i);
        if p != FREELIST {
            lemma_live_byte(v, a, pj);
        }
        if nx != FREELIST {
            lemma_live_byte(v, a, nj);
        }
        if i + 1 < n {
            lemma_live_byte(v, a, i + 1);
        }
    }
    assert forall|a: int| v.is_live_word(a) implies #[trigger] m.word_at(a) == m0.word_at(a) by {
        lemma_live_word(v, a, i);
        if p != FREELIST {
            lemma_live_word(v, a, pj);
        }
        if nx != FREELIST {
            lemma_live_word(v, a, nj);
        }
        if i + 1 < n {
            lemma_live_word(v, a, i + 1);
        }
    }
}

/// After the writes that hand out block `i` whole the headers say what
/// the model after it says.
#[verifier::rlimit(50)]
proof fn lemma_take_headers(
    m0: &Region,
    m: &Region,
    v: HeapView,
    w: HeapView,
    i: int,
    k: int,
    p: int,
    pj: int,
    nx: int,
    nj: int,
)
    requires
        v.inv(),
        headers_ok(m0, v),
        0 <= i < v.blocks.len(),
        is_taken(v, w, i, k),
        ring_entry(v, p, pj, i),
        ring_entry(v, nx, nj, i),
        release_frame(
            m,
            m0,
            v.blocks[i].addr + 8,
            v.blocks[i].addr + 17,
            FREELIST as int,
            p,
            nx,
            v.blocks[i].addr + v.blocks[i].size,
        ),
        allocated_at(m, v.blocks[i].addr),
        prevfree_at(m, v.blocks[i].addr + v.blocks[i].size) == 0,
    ensures
        headers_ok(m, w),
{
    let n = v.blocks.len() as int;
    lemma_block(v, i);
    assert forall|j: int| 0 <= j < w.blocks.len() implies #[trigger] header_ok(m, w, j) by {
        assert(header_ok(m0, v, j));
        lemma_block(v, j);
        if p != FREELIST && j != pj {
            lemma_apart(v, j, pj);
        }
        if nx != FREELIST && j != nj {
            lemma_apart(v, j, nj);
        }
        if j != i {
            lemma_apart(v, j, i);
            assert(w.blocks[j] == v.blocks[j]);
        }
        if j > 0 && j - 1 != i {
            assert(w.blocks[j - 1] == v.blocks[j - 1]);
        }
        if i + 1 < n && j != i + 1 {
            lemma_apart(v, j, i + 1);
        }
    }
    lemma_block(v, n - 1);
    if p != FREELIST {
        lemma_block(v, pj);
    }
    if nx != FREELIST {
        lemma_block(v, nj);
    }
    if i + 1 < n {
        lemma_apart(v, i, n - 1);
        assert(w.blocks[n - 1] == v.blocks[n - 1]);
    }
    assert(prevfree_at(m, w.end()) == back_link(w, w.blocks.len() as int));
    assert(bsize_at(m, w.end()) == ESENT && allocated_at(m, w.end()));
}

/// What a split may have written: the size of the block at `b`, the
/// header at `ba`, and the back link at `bn`.
spec fn split_frame(m: &Region, m0: &Region, b: int, ba: int, bn: int) -> bool {
    &&& m.base() == m0.base()
    &&& m.len() == m0.len()
    &&& forall|a: int|
        !(b + 8 <= a < b + 16) && !(ba <= a < ba + 17) && !(bn <= a < bn + 8)
            ==> #[trigger] m.byte_at(a) == m0.byte_at(a)
    &&& forall|a: int|
        (a + 8 <= b + 8 || b + 16 <= a) && (a + 8 <= ba || ba + 17 <= a) && (a + 8 <= bn || bn + 8
            <= a) ==> #[trigger] m.word_at(a) == m0.word_at(a)
}

/// After the writes that split block `i` the headers and the links say
/// what the model after the split says.
#[verifier::rlimit(50)]
proof fn lemma_split_headers(
    m0: &Region,
    m: &Region,
    head: QLinks,
    v: HeapView,
    w: HeapView,
    i: int,
    need: int,
)
    requires
        v.inv(),
        headers_ok(m0, v),
        links_ok(m0, head, v.free_list),
        0 <= i < v.blocks.len(),
        !v.blocks[i].allocated,
        is_split(v, w, i, need),
        need >= BFHEAD_SIZE,
        splits(v.blocks[i].size, need),
        split_frame(
            m,
            m0,
            v.blocks[i].addr,
            w.blocks[i + 1].addr,
            v.blocks[i].addr + v.blocks[i].size,
        ),
        bsize_at(m, v.blocks[i].addr) == w.blocks[i].size,
        prevfree_at(m, w.blocks[i + 1].addr) == w.blocks[i].size,
        bsize_at(m, w.blocks[i + 1].addr) == need,
        allocated_at(m, w.blocks[i + 1].addr),
        prevfree_at(m, v.blocks[i].addr + v.blocks[i].size) == 0,
    ensures
        headers_ok(m, w),
        links_ok(m, head, w.free_list),
{
    let n = v.blocks.len() as int;
    lemma_block(v, i);
    assert forall|j: int| 0 <= j < w.blocks.len() implies #[trigger] header_ok(m, w, j) by {
        if j < i {
            assert(header_ok(m0, v, j));
            lemma_apart(v, j, i);
            assert(w.blocks[j] == v.blocks[j]);
            if j > 0 {
                assert(w.blocks[j - 1] == v.blocks[j - 1]);
            }
        } else if j == i {
            assert(header_ok(m0, v, i));
            if j > 0 {
                assert(w.blocks[j - 1] == v.blocks[j - 1]);
            }
        } else if j == i + 1 {
        } else {
            assert(header_ok(m0, v, j - 1));
            assert(w.blocks[j] == v.blocks[j - 1]);
            lemma_apart(v, i, j - 1);
            if j > i + 2 {
                assert(w.blocks[j - 1] == v.blocks[j - 2]);
                lemma_apart(v, i + 1, j - 1);
            }
        }
    }
    if i + 1 < n {
        assert(w.blocks[n] == v.blocks[n - 1]);
        lemma_block(v, n - 1);
        lemma_apart(v, i, n - 1);
    }
    assert(prevfree_at(m, w.end()) == back_link(w, w.blocks.len() as int));
    assert(bsize_at(m, w.end()) == ESENT && allocated_at(m, w.end()));
    assert forall|k: int| 0 <= k < w.free_list.len() implies #[trigger] link_ok(
        m,
        w.free_list,
        k,
    ) by {
        assert(link_ok(m0, v.free_list, k));
        lemma_free_entry(v, k);
        let j = v.index_of(v.free_list[k]);
        if j != i {
            lemma_apart(v, j, i);
        }
    }
}

/// What the header of one block says.
#[derive(Clone, Copy, Debug, PartialEq, Eq)]
pub struct BlockInfo {
    /// Address of the block header.
    pub addr: usize,
    /// Length of the block in bytes, header included.
    pub size: usize,
    /// Whether the block is handed out.
    pub allocated: bool,
    /// Size of the previous block if that block is free, else 0.
    pub prev_free: usize,
}

/// The heap.
pub struct FspAlloc {
    freelist: QLinks,
    pool: Region,
    model: Ghost<HeapView>,
}

impl FspAlloc {
    /// The blocks and the free list of the pool.
    pub closed spec fn view(&self) -> HeapView {
        self.model@
    }

    /// The bytes of the pool.
    pub closed spec fn mem(&self) -> &Region {
        &self.pool
    }

    /// The pool was initialised and its bytes say what its model says.
    pub closed spec fn wf(&self) -> bool {
        &&& self.pool.wf()
        &&& self.pool.base() == self.model@.base
        &&& self.pool.len() == self.model@.size
        &&& self.model@.inv()
        &&& headers_ok(&self.pool, self.model@)
        &&& links_ok(&self.pool, self.freelist, self.model@.free_list)
    }

    /// A heap without a pool: it owns no byte, has no block, and both
    /// links of the head of its ring are zero; the ring is closed by
    /// `init`, which must be called before anything else.
    pub fn new() -> (r: FspAlloc)
        ensures
            !r.wf(),
            r.ring_head().flink == 0,
            r.ring_head().blink == 0,
            r.mem().base() == 0,
            r.mem().len() == 0,
            r@.blocks.len() == 0,
            r@.free_list.len() == 0,
    {
        FspAlloc {
            freelist: QLinks { flink: 0, blink: 0 },
            pool: Region::empty(),
            model: Ghost(
                HeapView { base: 0, size: 0, blocks: Seq::empty(), free_list: Seq::empty() },
            ),
        }
    }

    /// Takes `[buf, buf + len)` as the pool, `len` rounded down to the
    /// allocation quantum: one free block over the pool, closed by a
    /// header that is allocated for good.
    #[verifier::rlimit(50)]
    pub fn init(&mut self, buf: usize, len: usize)
        requires
            buf % SIZE_QUANT == 0,
            buf + len <= usize::MAX,
            len >= BFHEAD_SIZE + BHEAD_SIZE,
        ensures
            final(self).wf(),
            final(self)@ == HeapView::initial(buf as int, len - len % SIZE_QUANT),
    {
        let len: usize = len - len % SIZE_QUANT;
        self.pool = Region::new(buf, len);
        self.freelist = QLinks { flink: FREELIST, blink: FREELIST };
        let b = BFHead::from_addr(buf);
        // No free block lies before the first one.
        b.set_prevfree(&mut self.pool, 0);
        // Chain the block into the ring, before the head.
        let head = BFHead::from_addr(FREELIST);
        let last = BFHead::from_addr(self.freelist.blink);
        b.set_flink(&mut self.pool, &head);
        b.set_blink(&mut self.pool, &last);
        self.freelist.blink = buf;
        self.freelist.flink = buf;
        let len: usize = len - BHEAD_SIZE;
        b.set_bsize(&mut self.pool, len);
        b.set_allocated(&mut self.pool, false);
        // The closing header stops merging at the end of the pool.
        let bn = BHead::from_addr(buf + len);
        bn.set_prevfree(&mut self.pool, len);
        bn.set_bsize(&mut self.pool, ESENT);
        bn.set_allocated(&mut self.pool, true);
        proof {
            let v = HeapView::initial(buf as int, len + BHEAD_SIZE);
            lemma_initial_inv(buf as int, len + BHEAD_SIZE);
            self.model@ = v;
            assert(header_ok(&self.pool, v, 0));
            assert(link_ok(&self.pool, v.free_list, 0));
            assert(v.free_list.len() == 1);
        }
    }

    /// Every byte and word in user hands in state `v` reads in `self` as
    /// it does in `before`.
    pub open spec fn keeps(&self, before: &FspAlloc, v: HeapView) -> bool {
        &&& forall|a: int|
            v.is_live_byte(a) ==> #[trigger] self.mem().byte_at(a) == before.mem().byte_at(a)
        &&& forall|a: int|
            v.is_live_word(a) ==> #[trigger] self.mem().word_at(a) == before.mem().word_at(a)
    }

    /// Points the forward link of ring entry `node` at `target`.
    fn set_flink_of(&mut self, node: usize, target: usize)
        requires
            node != FREELIST ==> old(self).pool.contains(node as int, BFHEAD_SIZE as int),
        ensures
            final(self).model == old(self).model,
            final(self).freelist.blink == old(self).freelist.blink,
            node != FREELIST ==> final(self).freelist.flink == old(self).freelist.flink,
            ring_flink(&final(self).pool, final(self).freelist, node as int) == target,
            final(self).pool.same_except(
                &old(self).pool,
                span_lo(node as int, 24),
                span_hi(node as int, 24),
            ),
    {
        if node == FREELIST {
            self.freelist.flink = target;
        } else {
            BFHead::from_addr(node).set_flink(&mut self.pool, &BFHead::from_addr(target));
        }
    }

    /// Points the backward link of ring entry `node` at `target`.
    fn set_blink_of(&mut self, node: usize, target: usize)
        requires
            node != FREELIST ==> old(self).pool.contains(node as int, BFHEAD_SIZE as int),
        ensures
            final(self).model == old(self).model,
            final(self).freelist.flink == old(self).freelist.flink,
            node != FREELIST ==> final(self).freelist.blink == old(self).freelist.blink,
            ring_blink(&final(self).pool, final(self).freelist, node as int) == target,
            final(self).pool.same_except(
                &old(self).pool,
                span_lo(node as int, 32),
                span_hi(node as int, 32),
            ),
    {
        if node == FREELIST {
            self.freelist.blink = target;
        } else {
            BFHead::from_addr(node).set_blink(&mut self.pool, &BFHead::from_addr(target));
        }
    }

    /// Takes block `b`, at position `k` of the ring `fl`, out of the ring.
    #[verifier::rlimit(50)]
    fn unlink(&mut self, b: usize, Ghost(fl): Ghost<Seq<int>>, Ghost(k): Ghost<int>)
        requires
            links_ok(&old(self).pool, old(self).freelist, fl),
            nodes_apart(&old(self).pool, fl),
            0 <= k < fl.len(),
            fl[k] == b,
        ensures
            final(self).model == old(self).model,
            links_ok(&final(self).pool, final(self).freelist, fl.remove(k)),
            final(self).pool.same_outside(
                &old(self).pool,
                span_lo(node(fl, k - 1), 24),
                span_hi(node(fl, k - 1), 24),
                span_lo(node(fl, k + 1), 32),
                span_hi(node(fl, k + 1), 32),
            ),
    {
        proof {
            reveal(nodes_apart);
        }
        assert(link_ok(&self.pool, fl, k));
        assert(self.pool.contains(fl[k], BFHEAD_SIZE as int));
        let p: usize = BFHead::from_addr(b).blink(&self.pool);
        let n: usize = BFHead::from_addr(b).flink(&self.pool);
        proof {
            if k > 0 {
                assert(self.pool.contains(fl[k - 1], BFHEAD_SIZE as int));
            }
            if k + 1 < fl.len() {
                assert(self.pool.contains(fl[k + 1], BFHEAD_SIZE as int));
            }
        }
        self.set_flink_of(p, n);
        self.set_blink_of(n, p);
        proof {
            let g = fl.remove(k);
            assert forall|j: int| 0 <= j < g.len() implies #[trigger] link_ok(&self.pool, g, j) by {
                let oj = if j < k { j } else { j + 1 };
                assert(link_ok(&old(self).pool, fl, oj));
                assert(self.pool.contains(fl[oj], BFHEAD_SIZE as int));
                if k > 0 {
                    assert(fl[k - 1] + BFHEAD_SIZE <= fl[oj] || fl[oj] + BFHEAD_SIZE <= fl[k - 1]
                        || oj == k - 1);
                }
                if k + 1 < fl.len() {
                    assert(fl[k + 1] + BFHEAD_SIZE <= fl[oj] || fl[oj] + BFHEAD_SIZE <= fl[k + 1]
                        || oj == k + 1);
                }
            }
        }
    }

    /// Puts block `b` at the end of the ring `fl`, before the head.
    #[verifier::rlimit(50)]
    fn push_back(&mut self, b: usize, Ghost(fl): Ghost<Seq<int>>)
        requires
            links_ok(&old(self).pool, old(self).freelist, fl),
            nodes_apart(&old(self).pool, fl.push(b as int)),
        ensures
            final(self).model == old(self).model,
            links_ok(&final(self).pool, final(self).freelist, fl.push(b as int)),
            final(self).pool.same_outside(
                &old(self).pool,
                b + 24,
                b + 40,
                span_lo(node(fl, fl.len() - 1), 24),
                span_hi(node(fl, fl.len() - 1), 24),
            ),
    {
        let ghost g = fl.push(b as int);
        proof {
            reveal(nodes_apart);
        }
        assert(g[fl.len() as int] == b);
        assert(self.pool.contains(g[fl.len() as int], BFHEAD_SIZE as int));
        let t: usize = self.freelist.blink;
        proof {
            if fl.len() > 0 {
                assert(g[fl.len() - 1] == fl[fl.len() - 1]);
                assert(self.pool.contains(g[fl.len() - 1], BFHEAD_SIZE as int));
            }
        }
        BFHead::from_addr(b).set_flink(&mut self.pool, &BFHead::from_addr(FREELIST));
        BFHead::from_addr(b).set_blink(&mut self.pool, &BFHead::from_addr(t));
        self.freelist.blink = b;
        self.set_flink_of(t, b);
        proof {
            assert forall|j: int| 0 <= j < g.len() implies #[trigger] link_ok(&self.pool, g, j) by {
                if j < fl.len() {
                    assert(link_ok(&old(self).pool, fl, j));
                    assert(g[j] == fl[j]);
                    assert(g[j] + BFHEAD_SIZE <= g[fl.len() as int] || g[fl.len() as int]
                        + BFHEAD_SIZE <= g[j]);
                    if j < fl.len() - 1 {
                        assert(g[j] + BFHEAD_SIZE <= g[fl.len() - 1] || g[fl.len() - 1]
                            + BFHEAD_SIZE <= g[j]);
                    }
                }
            }
        }
    }

    /// Gives the last `need` bytes of the free block at `b` to a new
    /// allocated block.
    #[verifier::rlimit(50)]
    fn split_block(&mut self, b: usize, bsize: usize, need: usize, Ghost(i): Ghost<int>)
        requires
            old(self).wf(),
            0 <= i < old(self)@.blocks.len(),
            old(self)@.blocks[i].addr == b,
            old(self)@.blocks[i].size == bsize,
            !old(self)@.blocks[i].allocated,
            need % 4 == 0,
            need >= BFHEAD_SIZE,
            splits(bsize as int, need as int),
        ensures
            final(self).wf(),
            final(self)@ == old(self)@.split(i, need as int),
            final(self).keeps(old(self), old(self)@),
    {
        let ghost v = self.model@;
        let ghost w = v.split(i, need as int);
        let ghost m0 = self.pool;
        proof {
            lemma_split(v, i, need as int);
            lemma_block(v, i);
        }
        let rest: usize = bsize - need;
        let ba: usize = b + rest;
        let bn: usize = ba + need;
        BFHead::from_addr(b).set_bsize(&mut self.pool, rest);
        BHead::from_addr(ba).init(&mut self.pool, rest, need, true);
        BHead::from_addr(bn).set_prevfree(&mut self.pool, 0);
        proof {
            self.model@ = w;
            let m = &self.pool;
            assert(split_frame(m, &m0, b as int, ba as int, bn as int));
            assert(release_frame(
                m,
                &m0,
                b as int,
                ba + 17,
                FREELIST as int,
                FREELIST as int,
                FREELIST as int,
                bn as int,
            ));
            lemma_split_headers(&m0, m, self.freelist, v, w, i, need as int);
            lemma_alloc_keeps(&m0, m, v, i, ba + 17, FREELIST as int, i, FREELIST as int, i);
        }
    }

    /// Hands out the free block at `b` whole.
    #[verifier::rlimit(50)]
    fn take_block(&mut self, b: usize, bsize: usize, Ghost(i): Ghost<int>, Ghost(k): Ghost<int>)
        requires
            old(self).wf(),
            0 <= i < old(self)@.blocks.len(),
            0 <= k < old(self)@.free_list.len(),
            old(self)@.free_list[k] == b,
            old(self)@.blocks[i].addr == b,
            old(self)@.blocks[i].size == bsize,
        ensures
            final(self).wf(),
            final(self)@ == old(self)@.take(i, k),
            final(self).keeps(old(self), old(self)@),
    {
        let ghost v = self.model@;
        let ghost w = v.take(i, k);
        let ghost n = v.blocks.len() as int;
        let ghost fl = v.free_list;
        let ghost g = fl.remove(k);
        let ghost p = node(fl, k - 1);
        let ghost nx = node(fl, k + 1);
        let ghost pj = if p == FREELIST { i } else { v.index_of(p) };
        let ghost nj = if nx == FREELIST { i } else { v.index_of(nx) };
        let ghost m0 = self.pool;
        proof {
            lemma_take(v, i, k);
            lemma_nodes_apart(&self.pool, v);
            lemma_block(v, i);
            if k > 0 {
                lemma_free_entry(v, k - 1);
            }
            if k + 1 < fl.len() {
                lemma_free_entry(v, k + 1);
            }
            lemma_blocks_ring(v, i);
            lemma_blocks_ring_remove(v, fl, k);
        }
        self.unlink(b, Ghost(fl), Ghost(k));
        let ghost mb = self.pool;
        BFHead::from_addr(b).set_allocated(&mut self.pool, true);
        let ghost mc = self.pool;
        let bn: usize = b + bsize;
        BHead::from_addr(bn).set_prevfree(&mut self.pool, 0);
        proof {
            self.model@ = w;
            let m = &self.pool;
            lemma_links_kept(&mb, &mc, self.freelist, v, g, i, b + 16, b + 17);
            lemma_links_kept(&mc, m, self.freelist, v, g, i + 1, bn as int, bn + 8);
            assert(release_frame(m, &m0, b + 8, b + 17, FREELIST as int, p, nx, bn as int)) by {
                assert forall|a: int|
                    !(b + 16 <= a < b + 17) && !(span_lo(p, 24) <= a < span_hi(p, 24)) && !(
                    span_lo(nx, 32) <= a < span_hi(nx, 32)) && !(bn <= a < bn + 8)
                        implies #[trigger] m.byte_at(a) == m0.byte_at(a) by {
                    assert(mc.byte_at(a) == mb.byte_at(a));
                }
                assert forall|a: int|
                    (a + 8 <= b + 16 || b + 17 <= a) && (p == FREELIST || a + 8 <= p + 24 || p + 32
                        <= a) && (nx == FREELIST || a + 8 <= nx + 32 || nx + 40 <= a) && (a + 8
                        <= bn || bn + 8 <= a) implies #[trigger] m.word_at(a) == m0.word_at(a) by {
                    assert(mc.word_at(a) == mb.word_at(a));
                }
            }
            lemma_take_headers(&m0, m, v, w, i, k, p, pj, nx, nj);
            assert(release_frame(m, &m0, b as int, b + 17, FREELIST as int, p, nx, bn as int));
            lemma_alloc_keeps(&m0, m, v, i, b + 17, p, pj, nx, nj);
        }
    }

    /// Allocates `size` bytes at a multiple of `align` from the first
    /// block of the free list that fits. Returns the user address, or
    /// zero, with the pool unchanged, if no block fits.
    #[verifier::rlimit(50)]
    pub fn allocate(&mut self, size: usize, align: usize) -> (r: usize)
        requires
            old(self).wf(),
        ensures
            final(self).wf(),
            r == old(self)@.alloc_addr(size as int, align as int),
            final(self)@ == old(self)@.after_alloc(size as int, align as int),
            final(self).keeps(old(self), old(self)@),
            r == 0 ==> *final(self) == *old(self),
            r != 0 ==> {
                &&& r % align == 0
                &&& final(self)@.is_live(r as int)
                &&& !old(self)@.is_live(r as int)
                &&& final(self)@.usable(r as int) >= size
                &&& old(self)@.base + BHEAD_SIZE <= r
                &&& r + final(self)@.usable(r as int) <= old(self)@.end()
            },
            forall|p: int| #[trigger]
                old(self)@.is_live(p) ==> final(self)@.is_live(p) && final(self)@.usable(p) == old(
                    self,
                )@.usable(p),
    {
        let ghost v = self.model@;
        proof {
            crate::heap_laws::lemma_alloc_live(v, size as int, align as int);
        }
        let ghost fl = v.free_list;
        let m: usize = if size < self.size_q() {
            self.size_q()
        } else {
            size
        };
        if align == 0 || m > usize::MAX - 27 {
            proof {
                assert forall|k: int| 0 <= k < fl.len() implies !fits(
                    v.block_at(#[trigger] fl[k]),
                    need_of(size as int),
                    align as int,
                ) by {
                    lemma_free_entry(v, k);
                }
                lemma_first_fit_none(v, need_of(size as int), align as int, 0);
            }
            return 0;
        }
        let rem: usize = m % SIZE_QUANT;
        let rounded: usize = if rem == 0 {
            m
        } else {
            m + (SIZE_QUANT - rem)
        };
        let need: usize = rounded + BHEAD_SIZE;
        assert(need == need_of(size as int));
        let mut b: usize = self.freelist.flink;
        let ghost mut k: int = 0;
        while b != FREELIST
            invariant
                *self == *old(self),
                self.wf(),
                v == self.model@,
                fl == v.free_list,
                0 <= k <= fl.len(),
                b == node(fl, k),
                align > 0,
                need == need_of(size as int),
                need % 4 == 0,
                need >= BFHEAD_SIZE,
                v.first_fit(need as int, align as int, 0) == v.first_fit(
                    need as int,
                    align as int,
                    k,
                ),
            decreases fl.len() - k,
        {
            let ghost i = v.index_of(b as int);
            proof {
                lemma_free_entry(v, k);
                assert(header_ok(&self.pool, v, i));
                assert(link_ok(&self.pool, fl, k));
            }
            let bsize: usize = BFHead::from_addr(b).bsize(&self.pool);
            if bsize >= need {
                if bsize - need > QLINKS_SIZE + BHEAD_SIZE {
                    let user: usize = b + (bsize - need) + BHEAD_SIZE;
                    if user % align == 0 {
                        proof {
                            crate::heap_laws::lemma_alloc_live(v, size as int, align as int);
                        }
                        self.split_block(b, bsize, need, Ghost(i));
                        return user;
                    }
                } else {
                    let user: usize = b + BHEAD_SIZE;
                    if user % align == 0 {
                        proof {
                            crate::heap_laws::lemma_alloc_live(v, size as int, align as int);
                        }
                        self.take_block(b, bsize, Ghost(i), Ghost(k));
                        return user;
                    }
                }
            }
            b = BFHead::from_addr(b).flink(&self.pool);
            proof {
                k = k + 1;
            }
        }
        proof {
            if k < fl.len() {
                lemma_free_entry(v, k);
            }
        }
        0
    }

    /// First step of a release: the block at `b0` joins a free left
    /// neighbour, else it joins the free list at its end. Returns the
    /// address and the size of the free block that results.
    #[verifier::rlimit(50)]
    fn join_prev(&mut self, b0: usize, size: usize, pf: usize, Ghost(i): Ghost<int>) -> (r: (
        usize,
        usize,
    ))
        requires
            old(self).wf(),
            0 <= i < old(self)@.blocks.len(),
            old(self)@.blocks[i].addr == b0,
            old(self)@.blocks[i].size == size,
            old(self)@.blocks[i].allocated,
            pf == back_link(old(self)@, i),
        ensures
            final(self).model == old(self).model,
            r.0 == old(self)@.blocks[old(self)@.merge_start(i)].addr,
            r.0 + r.1 == b0 + size,
            bsize_at(&final(self).pool, r.0 as int) == r.1,
            !allocated_at(&final(self).pool, r.0 as int),
            old(self)@.merge_start(i) == i - 1 ==> links_ok(
                &final(self).pool,
                final(self).freelist,
                old(self)@.free_list,
            ) && final(self).pool.same_except(&old(self).pool, r.0 + 8, r.0 + 17),
            old(self)@.merge_start(i) == i ==> links_ok(
                &final(self).pool,
                final(self).freelist,
                old(self)@.free_list.push(b0 as int),
            ) && final(self).pool.same_outside(
                &old(self).pool,
                r.0 + 8,
                r.0 + 40,
                span_lo(node(old(self)@.free_list, old(self)@.free_list.len() - 1), 24),
                span_hi(node(old(self)@.free_list, old(self)@.free_list.len() - 1), 24),
            ),
    {
        let ghost v = self.model@;
        let ghost fl = v.free_list;
        let ghost m0 = self.pool;
        proof {
            lemma_block(v, i);
            assert(header_ok(&self.pool, v, i));
            if i > 0 {
                lemma_block(v, i - 1);
                assert(header_ok(&self.pool, v, i - 1));
            }
        }
        if pf != 0 {
            // The previous block is free: the released block joins it.
            let b: usize = b0 - pf;
            let bsize: usize = BFHead::from_addr(b).bsize(&self.pool) + size;
            BFHead::from_addr(b).set_bsize(&mut self.pool, bsize);
            BFHead::from_addr(b).set_allocated(&mut self.pool, false);
            proof {
                lemma_blocks_ring(v, i);
                lemma_links_kept(&m0, &self.pool, self.freelist, v, fl, i - 1, b + 8, b + 17);
            }
            (b, bsize)
        } else {
            // The previous block is allocated: the released block joins
            // the free list on its own.
            let ghost g = fl.push(b0 as int);
            proof {
                lemma_nodes_apart_push(&self.pool, v, i);
            }
            self.push_back(b0, Ghost(fl));
            let ghost mp = self.pool;
            BFHead::from_addr(b0).set_bsize(&mut self.pool, size);
            BFHead::from_addr(b0).set_allocated(&mut self.pool, false);
            proof {
                lemma_blocks_ring(v, i);
                lemma_links_kept(&mp, &self.pool, self.freelist, v, g, i, b0 + 8, b0 + 17);
            }
            (b0, size)
        }
    }

    /// Second step of a release: a free block behind the free block at
    /// `b` leaves the free list and joins it. Returns the size of the
    /// free block that results.
    #[verifier::rlimit(50)]
    fn join_next(
        &mut self,
        b: usize,
        bsize: usize,
        Ghost(i): Ghost<int>,
        Ghost(g1): Ghost<Seq<int>>,
    ) -> (r: usize)
        requires
            old(self).model@.inv(),
            old(self).pool.wf(),
            old(self).pool.base() == old(self)@.base,
            old(self).pool.len() == old(self)@.size,
            0 <= i < old(self)@.blocks.len(),
            old(self)@.blocks[i].allocated,
            b == old(self)@.blocks[old(self)@.merge_start(i)].addr,
            b + bsize == old(self)@.blocks[i].addr + old(self)@.blocks[i].size,
            g1 == old(self)@.free_list || g1 == old(self)@.free_list.push(
                old(self)@.blocks[i].addr,
            ),
            links_ok(&old(self).pool, old(self).freelist, g1),
            i + 1 < old(self)@.blocks.len() ==> header_ok(&old(self).pool, old(self)@, i + 1),
            i + 1 == old(self)@.blocks.len() ==> allocated_at(&old(self).pool, old(self)@.end()),
        ensures
            final(self).model == old(self).model,
            b + r == old(self)@.blocks[old(self)@.merge_stop(i) - 1].addr + old(self)@.blocks[old(
                self,
            )@.merge_stop(i) - 1].size,
            old(self)@.merge_stop(i) == i + 1 ==> final(self).pool == old(self).pool
                && final(self).freelist == old(self).freelist,
            old(self)@.merge_stop(i) == i + 2 ==> {
                let kr = old(self)@.free_list.index_of(old(self)@.blocks[i + 1].addr);
                &&& 0 <= kr < old(self)@.free_list.len()
                &&& old(self)@.free_list[kr] == old(self)@.blocks[i + 1].addr
                &&& links_ok(&final(self).pool, final(self).freelist, g1.remove(kr))
                &&& bsize_at(&final(self).pool, b as int) == r
                &&& exists|mb: Region|
                    mb.same_outside(
                        &old(self).pool,
                        span_lo(node(g1, kr - 1), 24),
                        span_hi(node(g1, kr - 1), 24),
                        span_lo(node(g1, kr + 1), 32),
                        span_hi(node(g1, kr + 1), 32),
                    ) && #[trigger] final(self).pool.same_except(&mb, b + 8, b + 16)
            },
    {
        let ghost v = self.model@;
        let ghost n = v.blocks.len() as int;
        let ghost start = v.merge_start(i);
        let ghost m0 = self.pool;
        proof {
            lemma_block(v, i);
            lemma_block(v, start);
            if start < i {
                lemma_apart(v, start, i);
            }
            if i + 1 < n {
                lemma_block(v, i + 1);
            }
        }
        let bn: usize = b + bsize;
        if !BHead::from_addr(bn).is_allocated(&self.pool) {
            // The next block is free: it leaves the free list and joins
            // the released block.
            let ghost kr = lemma_entry_of_free(v, i + 1);
            let rsize: usize = BFHead::from_addr(bn).bsize(&self.pool);
            proof {
                if g1 == v.free_list {
                    lemma_nodes_apart(&self.pool, v);
                } else {
                    lemma_nodes_apart_push(&self.pool, v, i);
                }
                lemma_blocks_ring(v, i);
                lemma_blocks_ring_remove(v, g1, kr);
            }
            self.unlink(bn, Ghost(g1), Ghost(kr));
            let ghost mb = self.pool;
            BFHead::from_addr(b).set_bsize(&mut self.pool, bsize + rsize);
            proof {
                lemma_links_kept(
                    &mb,
                    &self.pool,
                    self.freelist,
                    v,
                    g1.remove(kr),
                    start,
                    b + 8,
                    b + 16,
                );
                assert(self.pool.same_except(&mb, b + 8, b + 16));
            }
            bsize + rsize
        } else {
            bsize
        }
    }

    /// Releases the block with user address `buf`: merges it with a free
    /// left neighbour, else puts it at the end of the free list; merges
    /// a free right neighbour into it; and records the size of the free
    /// block in the back link of the block behind it.
    #[verifier::rlimit(100)]
    pub fn dealloc(&mut self, buf: usize)
        requires
            old(self).wf(),
            old(self)@.is_live(buf as int),
        ensures
            final(self).wf(),
            final(self)@ == old(self)@.after_free(buf as int),
            final(self).keeps(old(self), final(self)@),
            !final(self)@.is_live(buf as int),
            forall|p: int| #[trigger]
                old(self)@.is_live(p) && p != buf ==> final(self)@.is_live(p) && final(self)@.usable(
                    p,
                ) == old(self)@.usable(p),
    {
        let ghost v = self.model@;
        proof {
            crate::heap_laws::lemma_free_live(v, buf as int);
        }
        let ghost w = v.after_free(buf as int);
        let ghost n = v.blocks.len() as int;
        let ghost fl = v.free_list;
        let ghost i = v.index_of(buf - BHEAD_SIZE);
        let ghost start = v.merge_start(i);
        let ghost stop = v.merge_stop(i);
        let ghost left = start == i - 1;
        let ghost right = stop == i + 2;
        let ghost m0 = self.pool;
        proof {
            lemma_free(v, buf as int);
            lemma_block(v, i);
            assert(header_ok(&self.pool, v, i));
            if i + 1 < n {
                lemma_block(v, i + 1);
                assert(header_ok(&self.pool, v, i + 1));
            }
        }
        let b0: usize = buf - BHEAD_SIZE;
        let size: usize = BFHead::from_addr(b0).bsize(&self.pool);
        let pf: usize = BFHead::from_addr(b0).prevfree(&self.pool);
        // The ring where the first step leaves it, and the entry whose
        // forward link that step writes.
        let ghost g1 = if left { fl } else { fl.push(b0 as int) };
        let ghost t = if left { FREELIST as int } else { node(fl, fl.len() - 1) };
        let ghost tj = if t == FREELIST { i } else { v.index_of(t) };
        let ghost hi1 = v.blocks[start].addr + (if left { 17int } else { 40 });
        let (b, size1) = self.join_prev(b0, size, pf, Ghost(i));
        let ghost ma = self.pool;
        proof {
            if t != FREELIST {
                lemma_free_entry(v, fl.len() - 1);
                if i + 1 < n && tj != i + 1 {
                    lemma_apart(v, tj, i + 1);
                }
            }
            lemma_block(v, start);
            if start < i {
                lemma_apart(v, start, i);
            }
            assert(ma.same_outside(&m0, b + 8, hi1, span_lo(t, 24), span_hi(t, 24)));
        }
        let bsize: usize = self.join_next(b, size1, Ghost(i), Ghost(g1));
        let ghost kr = if right { fl.index_of(v.blocks[i + 1].addr) } else { -1 };
        let ghost p = if right { node(g1, kr - 1) } else { FREELIST as int };
        let ghost nx = if right { node(g1, kr + 1) } else { FREELIST as int };
        let ghost pj = if p == FREELIST { i } else { v.index_of(p) };
        let ghost nj = if nx == FREELIST { i } else { v.index_of(nx) };
        let ghost g2 = if right { g1.remove(kr) } else { g1 };
        let ghost mc = self.pool;
        let ghost mb = if right {
            choose|mb: Region|
                mb.same_outside(
                    &ma,
                    span_lo(p, 24),
                    span_hi(p, 24),
                    span_lo(nx, 32),
                    span_hi(nx, 32),
                ) && #[trigger] mc.same_except(&mb, b + 8, b + 16)
        } else {
            ma
        };
        proof {
            if right && kr > 0 {
                lemma_free_entry(v, kr - 1);
            }
            if right && kr + 1 < fl.len() {
                lemma_free_entry(v, kr + 1);
            }
            lemma_index_of(v, i);
            if p != FREELIST && pj != start {
                lemma_apart(v, pj, start);
            }
            if nx != FREELIST && nj != start {
                lemma_apart(v, nj, start);
            }
            lemma_blocks_ring(v, i);
            if right {
                lemma_blocks_ring_remove(v, g1, kr);
            }
            lemma_block(v, stop - 1);
            if stop < n {
                lemma_block(v, stop);
            }
        }
        let bn: usize = b + bsize;
        BHead::from_addr(bn).set_prevfree(&mut self.pool, bsize);
        proof {
            self.model@ = w;
            let m = &self.pool;
            lemma_links_kept(&mc, m, self.freelist, v, g2, stop, bn as int, bn + 8);
            assert(w.free_list =~= g2);
            lemma_release_frame(&m0, &ma, &mb, &mc, m, b as int, hi1, t, p, nx, bn as int);
            lemma_release_headers(&m0, m, v, w, i, hi1, t, tj, p, pj, nx, nj);
            lemma_release_keeps(&m0, m, v, w, i, hi1, t, tj, p, pj, nx, nj);
        }
    }

    /// The links of the head of the free-list ring, which lives outside
    /// the pool.
    pub closed spec fn ring_head(&self) -> QLinks {
        self.freelist
    }

    /// In every state the header of each block says in the pool what the
    /// model says of the block: its size, whether it is handed out, and
    /// as back link the size of the block before it if that block is
    /// free, else zero.
    pub proof fn lemma_header(&self, i: int)
        requires
            self.wf(),
            0 <= i < self@.blocks.len(),
        ensures
            self.mem().contains(self@.blocks[i].addr, BHEAD_SIZE as int),
            bsize_at(self.mem(), self@.blocks[i].addr) == self@.blocks[i].size,
            allocated_at(self.mem(), self@.blocks[i].addr) == self@.blocks[i].allocated,
            prevfree_at(self.mem(), self@.blocks[i].addr) == back_link(self@, i),
    {
        assert(header_ok(&self.pool, self.model@, i));
        lemma_block(self.model@, i);
    }

    /// In every state the header that closes the pool is allocated, has
    /// the closing size, and has as back link the size of the last block
    /// if that block is free, else zero.
    pub proof fn lemma_closing_header(&self)
        requires
            self.wf(),
        ensures
            self.mem().contains(self@.end(), BHEAD_SIZE as int),
            bsize_at(self.mem(), self@.end()) == ESENT,
            allocated_at(self.mem(), self@.end()),
            prevfree_at(self.mem(), self@.end()) == back_link(self@, self@.blocks.len() as int),
    {
        lemma_nonempty(self.model@);
        lemma_block(self.model@, self.model@.blocks.len() - 1);
    }

    /// In every state the free blocks form a ring with the head in
    /// free-list order: each free block links forward to the next and
    /// backward to the previous block of the free list, the first and
    /// the last block to the head, and the head to them.
    pub proof fn lemma_ring(&self, k: int)
        requires
            self.wf(),
            0 <= k < self@.free_list.len(),
        ensures
            self.mem().contains(self@.free_list[k], BFHEAD_SIZE as int),
            flink_at(self.mem(), self@.free_list[k]) == node(self@.free_list, k + 1),
            blink_at(self.mem(), self@.free_list[k]) == node(self@.free_list, k - 1),
    {
        assert(link_ok(&self.pool, self.model@.free_list, k));
        lemma_free_entry(self.model@, k);
    }

    /// In every state the head of the ring links forward to the first and
    /// backward to the last block of the free list, and to itself where
    /// no block is free.
    pub proof fn lemma_ring_head(&self)
        requires
            self.wf(),
        ensures
            self.ring_head().flink == node(self@.free_list, 0),
            self.ring_head().blink == node(self@.free_list, self@.free_list.len() - 1),
            self@.free_list.len() == 0 ==> self.ring_head().flink == FREELIST
                && self.ring_head().blink == FREELIST,
    {
    }

    /// A pool that meets `wf` meets the invariant of its model.
    pub proof fn lemma_wf(&self)
        requires
            self.wf(),
        ensures
            self@.inv(),
            self.mem().wf(),
            self.mem().base() == self@.base,
            self.mem().len() == self@.size,
    {
    }

    /// Reads the word at `addr` in the user bytes of an allocated block.
    pub fn read_word(&self, addr: usize) -> (r: usize)
        requires
            self.wf(),
            self@.is_live_word(addr as int),
        ensures
            r == self.mem().word_at(addr as int),
    {
        proof {
            lemma_nonempty(self.model@);
            lemma_live_word(self.model@, addr as int, 0);
        }
        self.pool.read_word(addr)
    }

    /// Stores `val` at `addr` in the user bytes of an allocated block.
    /// The blocks and the free list stay as they are.
    pub fn write_word(&mut self, addr: usize, val: usize)
        requires
            old(self).wf(),
            old(self)@.is_live_word(addr as int),
        ensures
            final(self).wf(),
            final(self)@ == old(self)@,
            final(self).mem().same_except(old(self).mem(), addr as int, addr + 8),
            final(self).mem().word_at(addr as int) == val,
    {
        let ghost v = self.model@;
        let ghost m0 = self.pool;
        proof {
            lemma_nonempty(v);
            lemma_live_word(v, addr as int, 0);
        }
        self.pool.write_word(addr, val);
        proof {
            let m = &self.pool;
            assert forall|j: int| 0 <= j < v.blocks.len() implies #[trigger] header_ok(m, v, j) by {
                assert(header_ok(&m0, v, j));
                lemma_live_word(v, addr as int, j);
            }
            assert forall|k: int| 0 <= k < v.free_list.len() implies #[trigger] link_ok(
                m,
                v.free_list,
                k,
            ) by {
                assert(link_ok(&m0, v.free_list, k));
                lemma_free_entry(v, k);
                lemma_live_word(v, addr as int, v.index_of(v.free_list[k]));
            }
        }
    }

    /// Reads the word at `addr`, wherever in the pool it lies.
    pub fn mem_word(&self, addr: usize) -> (r: usize)
        requires
            self.mem().contains(addr as int, 8),
        ensures
            r == self.mem().word_at(addr as int),
    {
        self.pool.read_word(addr)
    }

    /// Walks the pool from its base, stepping by the size in each header,
    /// up to the closing header, and returns what each header says.
    #[verifier::rlimit(50)]
    pub fn walk(&self) -> (r: Vec<BlockInfo>)
        requires
            self.wf(),
        ensures
            r@.len() == self@.blocks.len(),
            forall|i: int|
                0 <= i < r@.len() ==> (#[trigger] r@[i]).addr == self@.blocks[i].addr && r@[i].size
                    == self@.blocks[i].size && r@[i].allocated == self@.blocks[i].allocated
                    && r@[i].prev_free == back_link(self@, i),
    {
        let ghost v = self.model@;
        let mut r: Vec<BlockInfo> = Vec::new();
        let mut addr: usize = self.pool.start();
        proof {
            lemma_nonempty(v);
            lemma_block(v, 0);
        }
        loop
            invariant
                self.wf(),
                v == self.model@,
                0 <= r@.len() <= v.blocks.len(),
                r@.len() < v.blocks.len() ==> addr == v.blocks[r@.len() as int].addr,
                r@.len() == v.blocks.len() ==> addr == v.end(),
                forall|i: int|
                    0 <= i < r@.len() ==> (#[trigger] r@[i]).addr == v.blocks[i].addr && r@[i].size
                        == v.blocks[i].size && r@[i].allocated == v.blocks[i].allocated
                        && r@[i].prev_free == back_link(v, i),
            ensures
                r@.len() == v.blocks.len(),
            decreases v.blocks.len() - r@.len(),
        {
            let ghost i = r@.len() as int;
            proof {
                lemma_nonempty(v);
                if i < v.blocks.len() {
                    lemma_block(v, i);
                    assert(header_ok(&self.pool, v, i));
                } else {
                    lemma_block(v, i - 1);
                }
            }
            let h = BHead::from_addr(addr);
            let size: usize = h.bsize(&self.pool);
            if size == ESENT {
                break ;
            }
            let info = BlockInfo {
                addr,
                size,
                allocated: h.is_allocated(&self.pool),
                prev_free: h.prevfree(&self.pool),
            };
            r.push(info);
            addr = addr + size;
        }
        r
    }

    /// Follows the free list from its head and returns the address and
    /// the size of each free block in list order.
    #[verifier::rlimit(50)]
    pub fn free_blocks(&self) -> (r: Vec<(usize, usize)>)
        requires
            self.wf(),
        ensures
            r@.len() == self@.free_list.len(),
            forall|k: int|
                0 <= k < r@.len() ==> (#[trigger] r@[k]).0 == self@.free_list[k] && r@[k].1
                    == self@.block_at(self@.free_list[k]).size,
    {
        let ghost v = self.model@;
        let ghost fl = v.free_list;
        let mut r: Vec<(usize, usize)> = Vec::new();
        let mut b: usize = self.freelist.flink;
        while b != FREELIST
            invariant
                self.wf(),
                v == self.model@,
                fl == v.free_list,
                0 <= r@.len() <= fl.len(),
                b == node(fl, r@.len() as int),
                forall|k: int|
                    0 <= k < r@.len() ==> (#[trigger] r@[k]).0 == fl[k] && r@[k].1 == v.block_at(
                        fl[k],
                    ).size,
            decreases fl.len() - r@.len(),
        {
            let ghost k = r@.len() as int;
            proof {
                lemma_free_entry(v, k);
                assert(header_ok(&self.pool, v, v.index_of(b as int)));
                assert(link_ok(&self.pool, fl, k));
            }
            let h = BFHead::from_addr(b);
            r.push((b, h.bsize(&self.pool)));
            b = h.flink(&self.pool);
        }
        proof {
            if r@.len() < fl.len() {
                lemma_free_entry(v, r@.len() as int);
            }
        }
        r
    }

    /// Size of the links of a free block.
    pub fn ql_size(&self) -> (r: usize)
        ensures
            r == QLINKS_SIZE,
    {
        QLINKS_SIZE
    }

    /// The least number of user bytes of a block: the allocation quantum
    /// or the size of the links, whichever is larger.
    pub fn size_q(&self) -> (r: usize)
        ensures
            r == QLINKS_SIZE,
    {
        let qls: usize = self.ql_size();
        if SIZE_QUANT > qls {
            SIZE_QUANT
        } else {
            qls
        }
    }
}

} // verus!
