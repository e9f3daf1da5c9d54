//! The mathematical model of the heap: the blocks that tile the pool in
//! address order, the free list in list order, and what allocation and
//! release do to them.

use vstd::prelude::*;

verus! {

/// Allocation quantum: every block size is a multiple of it.
pub const SIZE_QUANT: usize = 4;

/// Bytes taken by a block header: back link, size, state.
pub const BHEAD_SIZE: usize = 24;

/// Bytes taken by the two free-list links of a free block.
pub const QLINKS_SIZE: usize = 16;

/// Bytes taken by the header of a free block: block header and links.
pub const BFHEAD_SIZE: usize = 40;

/// Size recorded in the header that closes the pool.
pub const ESENT: usize = usize::MAX;

/// Address that stands for the head of the free-list ring, which lives
/// outside the pool.
pub const FREELIST: usize = usize::MAX;

/// One block of the pool.
pub struct Block {
    /// Address of the block header.
    pub addr: int,
    /// Length in bytes, header included.
    pub size: int,
    /// Whether the block is handed out.
    pub allocated: bool,
}

/// The state of a pool.
pub struct HeapView {
    /// First address of the pool.
    pub base: int,
    /// Length of the pool in bytes, closing header included.
    pub size: int,
    /// The blocks in address order, without the closing header.
    pub blocks: Seq<Block>,
    /// Header addresses of the free blocks in free-list order.
    pub free_list: Seq<int>,
}

/// `m` rounded up to the allocation quantum.
pub open spec fn round_up(m: int) -> int {
    if m % 4 == 0 {
        m
    } else {
        m + 4 - m % 4
    }
}

/// Block length needed to serve a request of `n` bytes.
pub open spec fn need_of(n: int) -> int {
    round_up(if n < QLINKS_SIZE as int { QLINKS_SIZE as int } else { n }) + BHEAD_SIZE
}

/// Whether a free block of length `size` is split to serve `need`.
pub open spec fn splits(size: int, need: int) -> bool {
    size - need > QLINKS_SIZE + BHEAD_SIZE
}

/// The user address that block `b` yields for `need`: in its tail when it
/// is split, else behind its own header.
pub open spec fn candidate(b: Block, need: int) -> int {
    if splits(b.size, need) {
        b.addr + b.size - need + BHEAD_SIZE
    } else {
        b.addr + BHEAD_SIZE
    }
}

/// Whether free block `b` can serve `need` at alignment `align`.
pub open spec fn fits(b: Block, need: int, align: int) -> bool {
    b.size >= need && align > 0 && candidate(b, need) % align == 0
}

impl HeapView {
    /// Address of the closing header.
    pub open spec fn end(self) -> int {
        self.base + self.size - BHEAD_SIZE
    }

    /// The state right after initialisation: one free block over the pool.
    pub open spec fn initial(base: int, size: int) -> HeapView {
        HeapView {
            base,
            size,
            blocks: seq![Block { addr: base, size: size - BHEAD_SIZE, allocated: false }],
            free_list: seq![base],
        }
    }

    /// Block `b` is large enough for a free header and lies inside the
    /// pool.
    pub open spec fn block_ok(self, b: Block) -> bool {
        &&& b.size >= BFHEAD_SIZE
        &&& self.base <= b.addr
        &&& b.addr + b.size <= self.end()
    }

    /// Stepping from the base by block sizes visits every block and ends
    /// at the closing header.
    #[verifier::opaque]
    pub open spec fn tiled(self) -> bool {
        &&& self.blocks.len() > 0
        &&& self.blocks[0].addr == self.base
        &&& self.blocks.last().addr + self.blocks.last().size == self.end()
        &&& forall|i: int| 0 <= i < self.blocks.len() ==> self.block_ok(#[trigger] self.blocks[i])
        &&& forall|i: int, j: int|
            0 <= i && j == i + 1 && j < self.blocks.len() ==> (#[trigger] self.blocks[i]).addr
                + self.blocks[i].size == (#[trigger] self.blocks[j]).addr
        &&& forall|i: int, j: int|
            0 <= i < j < self.blocks.len() ==> (#[trigger] self.blocks[i]).addr
                + self.blocks[i].size <= (#[trigger] self.blocks[j]).addr
    }

    /// Every block starts at, and has as its size, a multiple of the
    /// allocation quantum.
    #[verifier::opaque]
    pub open spec fn aligned(self) -> bool {
        forall|i: int|
            0 <= i < self.blocks.len() ==> (#[trigger] self.blocks[i]).addr % 4 == 0
                && self.blocks[i].size % 4 == 0
    }

    /// No two neighbours are both free.
    #[verifier::opaque]
    pub open spec fn coalesced(self) -> bool {
        forall|i: int, j: int|
            0 <= i && j == i + 1 && j < self.blocks.len() ==> (#[trigger] self.blocks[i]).allocated
                || (#[trigger] self.blocks[j]).allocated
    }

    /// A free block starts at `addr`.
    pub open spec fn is_free_block(self, addr: int) -> bool {
        exists|i: int|
            0 <= i < self.blocks.len() && (#[trigger] self.blocks[i]).addr == addr
                && !self.blocks[i].allocated
    }

    /// The free list holds each free block once and nothing else.
    #[verifier::opaque]
    pub open spec fn free_list_ok(self) -> bool {
        &&& forall|k: int, l: int|
            0 <= k < l < self.free_list.len() ==> #[trigger] self.free_list[k]
                != #[trigger] self.free_list[l]
        &&& forall|k: int|
            0 <= k < self.free_list.len() ==> self.is_free_block(#[trigger] self.free_list[k])
        &&& forall|i: int|
            0 <= i < self.blocks.len() && !(#[trigger] self.blocks[i]).allocated
                ==> self.free_list.contains(self.blocks[i].addr)
    }

    /// The invariant of a pool between operations.
    pub open spec fn inv(self) -> bool {
        &&& 0 <= self.base
        &&& self.base % 4 == 0
        &&& self.size % 4 == 0
        &&& self.base + self.size <= usize::MAX
        &&& self.tiled()
        &&& self.aligned()
        &&& self.coalesced()
        &&& self.free_list_ok()
    }

    /// Index of the block whose header is at `addr`.
    pub open spec fn index_of(self, addr: int) -> int {
        choose|i: int| 0 <= i < self.blocks.len() && (#[trigger] self.blocks[i]).addr == addr
    }

    /// The block whose header is at `addr`.
    pub open spec fn block_at(self, addr: int) -> Block {
        self.blocks[self.index_of(addr)]
    }

    /// `p` is the user address of an allocated block.
    pub open spec fn is_live(self, p: int) -> bool {
        exists|i: int|
            0 <= i < self.blocks.len() && (#[trigger] self.blocks[i]).addr == p - BHEAD_SIZE
                && self.blocks[i].allocated
    }

    /// Bytes usable behind the user address `p`.
    pub open spec fn usable(self, p: int) -> int {
        self.block_at(p - BHEAD_SIZE).size - BHEAD_SIZE
    }

    /// `a` lies in the user bytes of some allocated block.
    pub open spec fn is_live_byte(self, a: int) -> bool {
        exists|i: int|
            0 <= i < self.blocks.len() && (#[trigger] self.blocks[i]).allocated
                && self.blocks[i].addr + BHEAD_SIZE <= a < self.blocks[i].addr
                + self.blocks[i].size
    }

    /// The eight bytes from `a` lie in the user bytes of one allocated
    /// block.
    pub open spec fn is_live_word(self, a: int) -> bool {
        exists|i: int|
            0 <= i < self.blocks.len() && (#[trigger] self.blocks[i]).allocated
                && self.blocks[i].addr + BHEAD_SIZE <= a && a + 8 <= self.blocks[i].addr
                + self.blocks[i].size
    }

    /// Position in the free list, from `from` on, of the first block that
    /// fits; the length of the list if none does.
    pub open spec fn first_fit(self, need: int, align: int, from: int) -> int
        decreases self.free_list.len() - from,
    {
        if from < 0 || from >= self.free_list.len() {
            self.free_list.len() as int
        } else if fits(self.block_at(self.free_list[from]), need, align) {
            from
        } else {
            self.first_fit(need, align, from + 1)
        }
    }

    /// The address that `alloc(n, align)` returns: zero if no free block
    /// fits.
    pub open spec fn alloc_addr(self, n: int, align: int) -> int {
        let need = need_of(n);
        let k = self.first_fit(need, align, 0);
        if k >= self.free_list.len() {
            0
        } else {
            candidate(self.block_at(self.free_list[k]), need)
        }
    }

    /// The state that `alloc(n, align)` leaves.
    pub open spec fn after_alloc(self, n: int, align: int) -> HeapView {
        let need = need_of(n);
        let k = self.first_fit(need, align, 0);
        if k >= self.free_list.len() {
            self
        } else {
            let i = self.index_of(self.free_list[k]);
            let b = self.blocks[i];
            if splits(b.size, need) {
                self.split(i, need)
            } else {
                self.take(i, k)
            }
        }
    }

    /// Block `i` gives its last `need` bytes to a new allocated block.
    #[verifier::opaque]
    pub open spec fn split(self, i: int, need: int) -> HeapView {
        let b = self.blocks[i];
        let rest = Block { addr: b.addr, size: b.size - need, allocated: false };
        let user = Block { addr: b.addr + b.size - need, size: need, allocated: true };
        HeapView { blocks: self.blocks.update(i, rest).insert(i + 1, user), ..self }
    }

    /// Block `i`, at position `k` of the free list, is handed out whole.
    #[verifier::opaque]
    pub open spec fn take(self, i: int, k: int) -> HeapView {
        let b = self.blocks[i];
        HeapView {
            blocks: self.blocks.update(i, Block { allocated: true, ..b }),
            free_list: self.free_list.remove(k),
            ..self
        }
    }

    /// First index of the run of blocks that releasing block `i` merges.
    pub open spec fn merge_start(self, i: int) -> int {
        if i > 0 && !self.blocks[i - 1].allocated {
            i - 1
        } else {
            i
        }
    }

    /// Index behind the run of blocks that releasing block `i` merges.
    pub open spec fn merge_stop(self, i: int) -> int {
        if i + 1 < self.blocks.len() && !self.blocks[i + 1].allocated {
            i + 2
        } else {
            i + 1
        }
    }

    /// The free block that the blocks from `start` up to `stop` merge
    /// into.
    pub open spec fn merged(self, start: int, stop: int) -> Block {
        Block {
            addr: self.blocks[start].addr,
            size: self.blocks[stop - 1].addr + self.blocks[stop - 1].size
                - self.blocks[start].addr,
            allocated: false,
        }
    }

    /// The free list after releasing block `i`: a free right neighbour
    /// leaves it, and without a free left neighbour the block joins it
    /// at its end.
    pub open spec fn relist(self, i: int) -> Seq<int> {
        let unlinked = if self.merge_stop(i) == i + 2 {
            self.free_list.remove(self.free_list.index_of(self.blocks[i + 1].addr))
        } else {
            self.free_list
        };
        if self.merge_start(i) == i {
            unlinked.push(self.blocks[i].addr)
        } else {
            unlinked
        }
    }

    /// The state that releasing the user address `p` leaves: the block is
    /// merged with each free neighbour into one free block.
    #[verifier::opaque]
    pub open spec fn after_free(self, p: int) -> HeapView {
        let i = self.index_of(p - BHEAD_SIZE);
        let start = self.merge_start(i);
        let stop = self.merge_stop(i);
        HeapView {
            blocks: self.blocks.subrange(0, start).push(self.merged(start, stop))
                + self.blocks.subrange(stop, self.blocks.len() as int),
            free_list: self.relist(i),
            ..self
        }
    }
}

/// Block `i` of a tiled pool is well-formed; the next block, or the
/// closing header behind the last block, starts where it ends.
pub proof fn lemma_block(v: HeapView, i: int)
    requires
        v.tiled(),
        0 <= i < v.blocks.len(),
    ensures
        v.block_ok(v.blocks[i]),
        i == 0 ==> v.blocks[i].addr == v.base,
        i + 1 < v.blocks.len() ==> v.blocks[i].addr + v.blocks[i].size == v.blocks[i + 1].addr,
        i + 1 == v.blocks.len() ==> v.blocks[i].addr + v.blocks[i].size == v.end(),
{
    reveal(HeapView::tiled);
    if i + 1 < v.blocks.len() {
        assert(v.blocks[i].addr + v.blocks[i].size == v.blocks[i + 1].addr);
    }
}

/// Of two blocks of a tiled pool the one with the lower index ends
/// before the other starts.
pub proof fn lemma_ordered(v: HeapView, i: int, j: int)
    requires
        v.tiled(),
        0 <= i < j < v.blocks.len(),
    ensures
        v.blocks[i].addr + v.blocks[i].size <= v.blocks[j].addr,
        v.block_ok(v.blocks[i]),
        v.block_ok(v.blocks[j]),
{
    reveal(HeapView::tiled);
    assert(v.blocks[i].addr + v.blocks[i].size <= v.blocks[j].addr);
}

/// Two different blocks of a tiled pool do not overlap.
pub proof fn lemma_apart(v: HeapView, i: int, j: int)
    requires
        v.tiled(),
        0 <= i < v.blocks.len(),
        0 <= j < v.blocks.len(),
        i != j,
    ensures
        v.blocks[i].addr + v.blocks[i].size <= v.blocks[j].addr || v.blocks[j].addr
            + v.blocks[j].size <= v.blocks[i].addr,
        i < j <==> v.blocks[i].addr < v.blocks[j].addr,
        v.block_ok(v.blocks[i]),
        v.block_ok(v.blocks[j]),
{
    if i < j {
        lemma_ordered(v, i, j);
    } else {
        lemma_ordered(v, j, i);
    }
}

/// A pool is tiled by at least one block.
pub proof fn lemma_nonempty(v: HeapView)
    requires
        v.tiled(),
    ensures
        v.blocks.len() > 0,
{
    reveal(HeapView::tiled);
}

/// Block `i` of an aligned pool starts at, and has as its size, a
/// multiple of the allocation quantum.
pub proof fn lemma_aligned(v: HeapView, i: int)
    requires
        v.aligned(),
        0 <= i < v.blocks.len(),
    ensures
        v.blocks[i].addr % 4 == 0,
        v.blocks[i].size % 4 == 0,
{
    reveal(HeapView::aligned);
}

/// Of two neighbours in a coalesced pool one is allocated.
pub proof fn lemma_not_both_free(v: HeapView, i: int)
    requires
        v.coalesced(),
        0 <= i,
        i + 1 < v.blocks.len(),
    ensures
        v.blocks[i].allocated || v.blocks[i + 1].allocated,
{
    reveal(HeapView::coalesced);
    assert(v.blocks[i].allocated || v.blocks[i + 1].allocated);
}

/// In a tiled pool the header address determines the block.
pub proof fn lemma_index_of(v: HeapView, i: int)
    requires
        v.tiled(),
        0 <= i < v.blocks.len(),
    ensures
        v.index_of(v.blocks[i].addr) == i,
        v.block_at(v.blocks[i].addr) == v.blocks[i],
{
    let j = v.index_of(v.blocks[i].addr);
    assert(0 <= j < v.blocks.len() && v.blocks[j].addr == v.blocks[i].addr);
    if j != i {
        lemma_apart(v, i, j);
    }
}

/// Each entry of the free list is the header address of a free block.
pub proof fn lemma_free_entry(v: HeapView, k: int)
    requires
        v.inv(),
        0 <= k < v.free_list.len(),
    ensures
        0 <= v.index_of(v.free_list[k]) < v.blocks.len(),
        v.block_at(v.free_list[k]).addr == v.free_list[k],
        !v.block_at(v.free_list[k]).allocated,
        v.block_ok(v.block_at(v.free_list[k])),
{
    reveal(HeapView::free_list_ok);
    assert(v.is_free_block(v.free_list[k]));
    let i = choose|i: int|
        0 <= i < v.blocks.len() && (#[trigger] v.blocks[i]).addr == v.free_list[k]
            && !v.blocks[i].allocated;
    lemma_index_of(v, i);
    lemma_block(v, i);
}

/// A free block has exactly one entry in the free list.
pub proof fn lemma_entry_of_free(v: HeapView, i: int) -> (k: int)
    requires
        v.inv(),
        0 <= i < v.blocks.len(),
        !v.blocks[i].allocated,
    ensures
        0 <= k < v.free_list.len(),
        v.free_list[k] == v.blocks[i].addr,
        k == v.free_list.index_of(v.blocks[i].addr),
        forall|l: int| 0 <= l < v.free_list.len() && l != k ==> v.free_list[l] != v.blocks[i].addr,
{
    reveal(HeapView::free_list_ok);
    assert(v.free_list.contains(v.blocks[i].addr));
    let k = v.free_list.index_of(v.blocks[i].addr);
    k
}

/// No address occurs twice in the free list.
pub proof fn lemma_distinct(v: HeapView, k: int, l: int)
    requires
        v.free_list_ok(),
        0 <= k < v.free_list.len(),
        0 <= l < v.free_list.len(),
        k != l,
    ensures
        v.free_list[k] != v.free_list[l],
{
    reveal(HeapView::free_list_ok);
}

/// Where no block of the free list from `from` on fits, the search ends
/// behind the list.
pub proof fn lemma_first_fit_none(v: HeapView, need: int, align: int, from: int)
    requires
        0 <= from,
        forall|k: int|
            from <= k < v.free_list.len() ==> !fits(
                v.block_at(#[trigger] v.free_list[k]),
                need,
                align,
            ),
    ensures
        v.first_fit(need, align, from) == v.free_list.len(),
    decreases v.free_list.len() - from,
{
    if from < v.free_list.len() {
        assert(!fits(v.block_at(v.free_list[from]), need, align));
        lemma_first_fit_none(v, need, align, from + 1);
    }
}

/// The state after initialisation meets the invariant.
pub proof fn lemma_initial_inv(base: int, size: int)
    requires
        0 <= base,
        base % 4 == 0,
        size % 4 == 0,
        size >= BFHEAD_SIZE + BHEAD_SIZE,
        base + size <= usize::MAX,
    ensures
        HeapView::initial(base, size).inv(),
{
    reveal(HeapView::tiled);
    reveal(HeapView::aligned);
    reveal(HeapView::coalesced);
    reveal(HeapView::free_list_ok);
    let v = HeapView::initial(base, size);
    assert(v.blocks[0].addr == base);
    assert(v.free_list[0] == base);
    assert(v.is_free_block(base));
    assert(v.free_list.contains(base));
}

/// `w` is `v` with block `i` split: the blocks before it keep their
/// index, those behind it move up by one.
pub open spec fn is_split(v: HeapView, w: HeapView, i: int, need: int) -> bool {
    &&& w.base == v.base
    &&& w.size == v.size
    &&& w.free_list == v.free_list
    &&& w.blocks.len() == v.blocks.len() + 1
    &&& forall|j: int| 0 <= j < i ==> #[trigger] w.blocks[j] == v.blocks[j]
    &&& w.blocks[i] == (Block {
        addr: v.blocks[i].addr,
        size: v.blocks[i].size - need,
        allocated: false,
    })
    &&& w.blocks[i + 1] == (Block {
        addr: v.blocks[i].addr + v.blocks[i].size - need,
        size: need,
        allocated: true,
    })
    &&& forall|j: int| i + 1 < j < w.blocks.len() ==> #[trigger] w.blocks[j] == v.blocks[j - 1]
}

/// A split keeps the blocks tiling the pool.
#[verifier::rlimit(50)]
proof fn lemma_split_tiled(v: HeapView, w: HeapView, i: int, need: int)
    requires
        v.tiled(),
        is_split(v, w, i, need),
        0 <= i < v.blocks.len(),
        need % 4 == 0,
        need >= BFHEAD_SIZE,
        splits(v.blocks[i].size, need),
    ensures
        w.tiled(),
{
    reveal(HeapView::tiled);
    let n = v.blocks.len() as int;
    assert(v.block_ok(v.blocks[i]));
    assert(w.blocks[0].addr == w.base) by {
        if i > 0 {
            assert(w.blocks[0] == v.blocks[0]);
        }
    }
    assert(w.blocks.last().addr + w.blocks.last().size == w.end()) by {
        if i + 1 < n {
            assert(w.blocks[n] == v.blocks[n - 1]);
        }
    }
    assert forall|j: int| 0 <= j < w.blocks.len() implies w.block_ok(#[trigger] w.blocks[j]) by {
        if j < i {
            assert(v.block_ok(v.blocks[j]));
        } else if j > i + 1 {
            assert(v.block_ok(v.blocks[j - 1]));
        }
    }
    assert forall|j: int, l: int| 0 <= j < l < w.blocks.len() implies (#[trigger] w.blocks[j]).addr
        + w.blocks[j].size <= (#[trigger] w.blocks[l]).addr by {
        let oj = if j <= i { j } else { j - 1 };
        let ol = if l <= i { l } else { l - 1 };
        assert(v.block_ok(v.blocks[oj]));
        assert(v.block_ok(v.blocks[ol]));
        if oj < ol {
            assert(v.blocks[oj].addr + v.blocks[oj].size <= v.blocks[ol].addr);
        }
    }
    assert forall|j: int, l: int| 0 <= j && l == j + 1 && l < w.blocks.len() implies (
    #[trigger] w.blocks[j]).addr + w.blocks[j].size == (#[trigger] w.blocks[l]).addr by {
        if l < i {
            assert(v.blocks[j].addr + v.blocks[j].size == v.blocks[l].addr);
        } else if l == i {
            assert(v.blocks[j].addr + v.blocks[j].size == v.blocks[i].addr);
        } else if j == i + 1 {
            assert(v.blocks[i].addr + v.blocks[i].size == v.blocks[i + 1].addr);
        } else if j > i + 1 {
            assert(v.blocks[j - 1].addr + v.blocks[j - 1].size == v.blocks[l - 1].addr);
        }
    }
}

/// A split by a multiple of the allocation quantum keeps the blocks
/// aligned.
proof fn lemma_split_aligned(v: HeapView, w: HeapView, i: int, need: int)
    requires
        v.aligned(),
        is_split(v, w, i, need),
        0 <= i < v.blocks.len(),
        need % 4 == 0,
    ensures
        w.aligned(),
{
    reveal(HeapView::aligned);
    assert(v.blocks[i].addr % 4 == 0 && v.blocks[i].size % 4 == 0);
    assert forall|j: int| 0 <= j < w.blocks.len() implies (#[trigger] w.blocks[j]).addr % 4 == 0
        && w.blocks[j].size % 4 == 0 by {
        if j < i {
            assert(v.blocks[j].addr % 4 == 0);
        } else if j > i + 1 {
            assert(v.blocks[j - 1].addr % 4 == 0);
        }
    }
}

/// A split keeps neighbours from being both free, and the free list in
/// step with the blocks.
#[verifier::rlimit(50)]
proof fn lemma_split_lists(v: HeapView, w: HeapView, i: int, need: int)
    requires
        v.coalesced(),
        v.free_list_ok(),
        is_split(v, w, i, need),
        0 <= i < v.blocks.len(),
        !v.blocks[i].allocated,
    ensures
        w.coalesced(),
        w.free_list_ok(),
{
    reveal(HeapView::coalesced);
    reveal(HeapView::free_list_ok);
    assert forall|j: int, l: int| 0 <= j && l == j + 1 && l < w.blocks.len() implies (
    #[trigger] w.blocks[j]).allocated || (#[trigger] w.blocks[l]).allocated by {
        if l < i {
            assert(v.blocks[j].allocated || v.blocks[l].allocated);
        } else if l == i {
            assert(v.blocks[j].allocated || v.blocks[i].allocated);
        } else if j > i + 1 {
            assert(v.blocks[j - 1].allocated || v.blocks[l - 1].allocated);
        }
    }
    assert forall|k: int| 0 <= k < w.free_list.len() implies w.is_free_block(
        #[trigger] w.free_list[k],
    ) by {
        assert(v.is_free_block(v.free_list[k]));
        let j = choose|j: int|
            0 <= j < v.blocks.len() && (#[trigger] v.blocks[j]).addr == v.free_list[k]
                && !v.blocks[j].allocated;
        let nj = if j <= i { j } else { j + 1 };
        assert(w.blocks[nj].addr == v.free_list[k] && !w.blocks[nj].allocated);
    }
    assert forall|j: int| 0 <= j < w.blocks.len() && !(#[trigger] w.blocks[j]).allocated implies w.free_list.contains(
        w.blocks[j].addr,
    ) by {
        let oj = if j <= i { j } else { j - 1 };
        assert(!v.blocks[oj].allocated);
        assert(v.free_list.contains(v.blocks[oj].addr));
    }
}

/// Splitting a free block keeps the invariant.
pub proof fn lemma_split(v: HeapView, i: int, need: int)
    requires
        v.inv(),
        0 <= i < v.blocks.len(),
        !v.blocks[i].allocated,
        need % 4 == 0,
        need >= BFHEAD_SIZE,
        splits(v.blocks[i].size, need),
    ensures
        v.split(i, need).inv(),
        is_split(v, v.split(i, need), i, need),
{
    let w = v.split(i, need);
    assert(is_split(v, w, i, need)) by {
        reveal(HeapView::split);
    }
    lemma_split_tiled(v, w, i, need);
    lemma_split_aligned(v, w, i, need);
    lemma_split_lists(v, w, i, need);
}

/// `w` is `v` with block `i`, at position `k` of the free list, handed
/// out whole.
pub open spec fn is_taken(v: HeapView, w: HeapView, i: int, k: int) -> bool {
    &&& w.base == v.base
    &&& w.size == v.size
    &&& w.free_list == v.free_list.remove(k)
    &&& w.blocks.len() == v.blocks.len()
    &&& forall|j: int|
        0 <= j < w.blocks.len() && j != i ==> #[trigger] w.blocks[j] == v.blocks[j]
    &&& w.blocks[i] == (Block { allocated: true, ..v.blocks[i] })
}

/// Handing out a block keeps the blocks tiling the pool and neighbours
/// from being both free.
proof fn lemma_take_blocks(v: HeapView, w: HeapView, i: int, k: int)
    requires
        v.tiled(),
        v.aligned(),
        v.coalesced(),
        is_taken(v, w, i, k),
        0 <= i < v.blocks.len(),
    ensures
        w.tiled(),
        w.aligned(),
        w.coalesced(),
{
    assert(w.aligned()) by {
        reveal(HeapView::aligned);
        assert forall|j: int| 0 <= j < w.blocks.len() implies (#[trigger] w.blocks[j]).addr % 4
            == 0 && w.blocks[j].size % 4 == 0 by {
            assert(v.blocks[j].addr % 4 == 0);
        }
    }
    reveal(HeapView::tiled);
    reveal(HeapView::coalesced);
    assert forall|j: int| 0 <= j < w.blocks.len() implies w.block_ok(#[trigger] w.blocks[j]) by {
        assert(v.block_ok(v.blocks[j]));
    }
    assert forall|j: int, l: int| 0 <= j < l < w.blocks.len() implies (#[trigger] w.blocks[j]).addr
        + w.blocks[j].size <= (#[trigger] w.blocks[l]).addr by {
        assert(v.blocks[j].addr + v.blocks[j].size <= v.blocks[l].addr);
    }
    assert forall|j: int, l: int| 0 <= j && l == j + 1 && l < w.blocks.len() implies (
    #[trigger] w.blocks[j]).addr + w.blocks[j].size == (#[trigger] w.blocks[l]).addr by {
        assert(v.blocks[j].addr + v.blocks[j].size == v.blocks[l].addr);
    }
    assert(w.blocks[0].addr == v.blocks[0].addr);
    assert(w.blocks.last().addr == v.blocks.last().addr && w.blocks.last().size
        == v.blocks.last().size);
    assert forall|j: int, l: int| 0 <= j && l == j + 1 && l < w.blocks.len() implies (
    #[trigger] w.blocks[j]).allocated || (#[trigger] w.blocks[l]).allocated by {
        assert(v.blocks[j].allocated || v.blocks[l].allocated);
    }
}

/// Handing out a block keeps the free list in step with the blocks.
#[verifier::rlimit(50)]
proof fn lemma_take_list(v: HeapView, w: HeapView, i: int, k: int)
    requires
        v.inv(),
        is_taken(v, w, i, k),
        0 <= i < v.blocks.len(),
        0 <= k < v.free_list.len(),
        v.free_list[k] == v.blocks[i].addr,
    ensures
        w.free_list_ok(),
{
    reveal(HeapView::free_list_ok);
    assert forall|a: int, b: int| 0 <= a < b < w.free_list.len() implies #[trigger] w.free_list[a]
        != #[trigger] w.free_list[b] by {
        let oa = if a < k { a } else { a + 1 };
        let ob = if b < k { b } else { b + 1 };
        assert(v.free_list[oa] != v.free_list[ob]);
    }
    assert forall|a: int| 0 <= a < w.free_list.len() implies w.is_free_block(
        #[trigger] w.free_list[a],
    ) by {
        let oa = if a < k { a } else { a + 1 };
        assert(v.free_list[oa] != v.free_list[k]);
        assert(v.is_free_block(v.free_list[oa]));
        let j = choose|j: int|
            0 <= j < v.blocks.len() && (#[trigger] v.blocks[j]).addr == v.free_list[oa]
                && !v.blocks[j].allocated;
        assert(j != i);
        assert(w.blocks[j].addr == w.free_list[a] && !w.blocks[j].allocated);
    }
    assert forall|j: int| 0 <= j < w.blocks.len() && !(#[trigger] w.blocks[j]).allocated implies w.free_list.contains(
        w.blocks[j].addr,
    ) by {
        assert(j != i);
        assert(!v.blocks[j].allocated);
        assert(v.free_list.contains(v.blocks[j].addr));
        let o = choose|o: int| 0 <= o < v.free_list.len() && v.free_list[o] == v.blocks[j].addr;
        lemma_index_of(v, j);
        lemma_index_of(v, i);
        assert(o != k);
        let na = if o < k { o } else { o - 1 };
        assert(w.free_list[na] == v.blocks[j].addr);
    }
}

/// Handing out a free block whole keeps the invariant.
pub proof fn lemma_take(v: HeapView, i: int, k: int)
    requires
        v.inv(),
        0 <= i < v.blocks.len(),
        0 <= k < v.free_list.len(),
        v.free_list[k] == v.blocks[i].addr,
    ensures
        v.take(i, k).inv(),
        is_taken(v, v.take(i, k), i, k),
        !v.blocks[i].allocated,
{
    let w = v.take(i, k);
    assert(is_taken(v, w, i, k)) by {
        reveal(HeapView::take);
    }
    lemma_free_entry(v, k);
    lemma_index_of(v, i);
    lemma_take_blocks(v, w, i, k);
    lemma_take_list(v, w, i, k);
}

/// `w` is `v` with the blocks from `start` up to `stop` merged into one
/// free block: the blocks before the run keep their index, those behind
/// it move down.
pub open spec fn is_merged(v: HeapView, w: HeapView, start: int, stop: int) -> bool {
    &&& w.base == v.base
    &&& w.size == v.size
    &&& w.blocks.len() == v.blocks.len() - (stop - start) + 1
    &&& forall|j: int| 0 <= j < start ==> #[trigger] w.blocks[j] == v.blocks[j]
    &&& w.blocks[start] == v.merged(start, stop)
    &&& forall|j: int|
        start < j < w.blocks.len() ==> #[trigger] w.blocks[j] == v.blocks[j + (stop - start - 1)]
}

/// A merge keeps the blocks tiling the pool.
#[verifier::rlimit(50)]
proof fn lemma_merge_tiled(v: HeapView, w: HeapView, start: int, stop: int)
    requires
        v.tiled(),
        is_merged(v, w, start, stop),
        0 <= start < stop <= v.blocks.len(),
    ensures
        w.tiled(),
{
    let n = v.blocks.len() as int;
    let d = stop - start - 1;
    lemma_block(v, start);
    lemma_block(v, stop - 1);
    if start < stop - 1 {
        lemma_ordered(v, start, stop - 1);
    }
    reveal(HeapView::tiled);
    assert(w.block_ok(w.blocks[start]));
    assert(w.blocks[0].addr == w.base) by {
        if start > 0 {
            assert(w.blocks[0] == v.blocks[0]);
        }
    }
    assert(w.blocks.last().addr + w.blocks.last().size == w.end()) by {
        if stop < n {
            assert(w.blocks[n - d - 1] == v.blocks[n - 1]);
        }
    }
    assert forall|j: int| 0 <= j < w.blocks.len() implies w.block_ok(#[trigger] w.blocks[j]) by {
        if j < start {
            assert(v.block_ok(v.blocks[j]));
        } else if j > start {
            assert(v.block_ok(v.blocks[j + d]));
        }
    }
    assert forall|j: int, l: int| 0 <= j < l < w.blocks.len() implies (#[trigger] w.blocks[j]).addr
        + w.blocks[j].size <= (#[trigger] w.blocks[l]).addr by {
        // The run `start .. stop` of `v` stands for index `start` of `w`.
        let oj = if j < start { j } else { j + d };
        let ol = if l <= start { l } else { l + d };
        assert(v.blocks[oj].addr + v.blocks[oj].size <= v.blocks[ol].addr);
    }
    assert forall|j: int, l: int| 0 <= j && l == j + 1 && l < w.blocks.len() implies (
    #[trigger] w.blocks[j]).addr + w.blocks[j].size == (#[trigger] w.blocks[l]).addr by {
        let oj = if j < start { j } else { j + d };
        let ol = if l <= start { l } else { l + d };
        assert(v.blocks[oj].addr + v.blocks[oj].size == v.blocks[ol].addr);
    }
}

/// A merge keeps the blocks aligned.
proof fn lemma_merge_aligned(v: HeapView, w: HeapView, start: int, stop: int)
    requires
        v.aligned(),
        is_merged(v, w, start, stop),
        0 <= start < stop <= v.blocks.len(),
    ensures
        w.aligned(),
{
    reveal(HeapView::aligned);
    let d = stop - start - 1;
    assert(v.blocks[start].addr % 4 == 0);
    assert(v.blocks[stop - 1].addr % 4 == 0 && v.blocks[stop - 1].size % 4 == 0);
    assert forall|j: int| 0 <= j < w.blocks.len() implies (#[trigger] w.blocks[j]).addr % 4 == 0
        && w.blocks[j].size % 4 == 0 by {
        if j < start {
            assert(v.blocks[j].addr % 4 == 0);
        } else if j > start {
            assert(v.blocks[j + d].addr % 4 == 0);
        }
    }
}

/// A merge whose run is bounded by allocated blocks leaves no two free
/// neighbours.
proof fn lemma_merge_coalesced(v: HeapView, w: HeapView, start: int, stop: int)
    requires
        v.coalesced(),
        is_merged(v, w, start, stop),
        0 <= start < stop <= v.blocks.len(),
        start > 0 ==> v.blocks[start - 1].allocated,
        stop < v.blocks.len() ==> v.blocks[stop].allocated,
    ensures
        w.coalesced(),
{
    let d = stop - start - 1;
    reveal(HeapView::coalesced);
    assert forall|j: int, l: int| 0 <= j && l == j + 1 && l < w.blocks.len() implies (
    #[trigger] w.blocks[j]).allocated || (#[trigger] w.blocks[l]).allocated by {
        if l < start {
            assert(v.blocks[j].allocated || v.blocks[l].allocated);
        } else if l == start {
            assert(w.blocks[j] == v.blocks[start - 1]);
        } else if j == start {
            assert(w.blocks[l] == v.blocks[stop]);
        } else {
            assert(v.blocks[j + d].allocated || v.blocks[l + d].allocated);
        }
    }
}

/// Releasing block `i` keeps the free list in step with the blocks.
#[verifier::rlimit(50)]
proof fn lemma_merge_list(v: HeapView, w: HeapView, i: int)
    requires
        v.inv(),
        0 <= i < v.blocks.len(),
        v.blocks[i].allocated,
        is_merged(v, w, v.merge_start(i), v.merge_stop(i)),
        w.free_list == v.relist(i),
    ensures
        w.free_list_ok(),
{
    let n = v.blocks.len() as int;
    let fl = v.free_list;
    let start = v.merge_start(i);
    let stop = v.merge_stop(i);
    let d = stop - start - 1;
    let left = start == i - 1;
    let right = stop == i + 2;
    let kr = if right { lemma_entry_of_free(v, i + 1) } else { -1 };
    let unlinked = if right { fl.remove(kr) } else { fl };
    // The released block was not in the list.
    assert forall|o: int| 0 <= o < fl.len() implies fl[o] != v.blocks[i].addr by {
        lemma_free_entry(v, o);
        lemma_index_of(v, i);
    }
    reveal(HeapView::free_list_ok);
    assert forall|a: int, b: int| 0 <= a < b < w.free_list.len() implies #[trigger] w.free_list[a]
        != #[trigger] w.free_list[b] by {
        let oa = if right && a >= kr { a + 1 } else { a };
        let ob = if right && b >= kr { b + 1 } else { b };
        if b < unlinked.len() {
            assert(fl[oa] != fl[ob]);
        } else {
            assert(w.free_list[b] == v.blocks[i].addr);
            assert(w.free_list[a] == fl[oa]);
        }
    }
    assert forall|a: int| 0 <= a < w.free_list.len() implies w.is_free_block(
        #[trigger] w.free_list[a],
    ) by {
        if a < unlinked.len() {
            let oa = if right && a >= kr { a + 1 } else { a };
            assert(w.free_list[a] == fl[oa]);
            lemma_free_entry(v, oa);
            let x = v.index_of(fl[oa]);
            if right {
                assert(fl[oa] != fl[kr]);
            }
            assert(x != i && x != i + 1 || !right && x != i);
            if x < start {
                assert(w.blocks[x] == v.blocks[x]);
            } else if x == start {
                assert(w.blocks[start].addr == v.blocks[x].addr);
            } else {
                assert(w.blocks[x - d] == v.blocks[x]);
            }
        } else {
            assert(w.free_list[a] == v.blocks[i].addr);
            assert(w.blocks[start].addr == v.blocks[i].addr);
        }
    }
    assert forall|j: int| 0 <= j < w.blocks.len() && !(#[trigger] w.blocks[j]).allocated implies w.free_list.contains(
        w.blocks[j].addr,
    ) by {
        if j == start && !left {
            assert(w.free_list[unlinked.len() as int] == w.blocks[j].addr);
        } else {
            // The block that gives `w.blocks[j]` its address is free in `v`.
            let x = if j <= start { j } else { j + d };
            assert(w.blocks[j].addr == v.blocks[x].addr);
            assert(!v.blocks[x].allocated);
            let o = lemma_entry_of_free(v, x);
            if right {
                lemma_index_of(v, x);
                lemma_index_of(v, i + 1);
                assert(o != kr);
            }
            let na = if right && o > kr { o - 1 } else { o };
            assert(w.free_list[na] == v.blocks[x].addr);
        }
    }
}

/// Releasing an allocated block keeps the invariant.
pub proof fn lemma_free(v: HeapView, p: int)
    requires
        v.inv(),
        v.is_live(p),
    ensures
        v.after_free(p).inv(),
        0 <= v.index_of(p - BHEAD_SIZE) < v.blocks.len(),
        v.blocks[v.index_of(p - BHEAD_SIZE)].addr == p - BHEAD_SIZE,
        v.blocks[v.index_of(p - BHEAD_SIZE)].allocated,
        is_merged(
            v,
            v.after_free(p),
            v.merge_start(v.index_of(p - BHEAD_SIZE)),
            v.merge_stop(v.index_of(p - BHEAD_SIZE)),
        ),
        v.after_free(p).free_list == v.relist(v.index_of(p - BHEAD_SIZE)),
{
    let x = choose|x: int|
        0 <= x < v.blocks.len() && (#[trigger] v.blocks[x]).addr == p - BHEAD_SIZE
            && v.blocks[x].allocated;
    lemma_index_of(v, x);
    let i = v.index_of(p - BHEAD_SIZE);
    let w = v.after_free(p);
    let start = v.merge_start(i);
    let stop = v.merge_stop(i);
    assert(is_merged(v, w, start, stop) && w.free_list == v.relist(i)) by {
        reveal(HeapView::after_free);
    }
    lemma_merge_tiled(v, w, start, stop);
    lemma_merge_aligned(v, w, start, stop);
    if start > 0 && start == i - 1 {
        lemma_not_both_free(v, start - 1);
    }
    if stop < v.blocks.len() && stop == i + 2 {
        lemma_not_both_free(v, i + 1);
    }
    lemma_merge_coalesced(v, w, start, stop);
    lemma_merge_list(v, w, i);
}

/// What is in user hands after block `i` was released was in user hands
/// before, outside that block.
pub proof fn lemma_live_after_free(v: HeapView, w: HeapView, i: int, a: int, width: int)
    requires
        v.inv(),
        0 <= i < v.blocks.len(),
        v.blocks[i].allocated,
        is_merged(v, w, v.merge_start(i), v.merge_stop(i)),
        width == 1 && w.is_live_byte(a) || width == 8 && w.is_live_word(a),
    ensures
        width == 1 ==> v.is_live_byte(a),
        width == 8 ==> v.is_live_word(a),
        a + width <= v.blocks[i].addr || v.blocks[i].addr + v.blocks[i].size <= a,
{
    let start = v.merge_start(i);
    let d = v.merge_stop(i) - start - 1;
    let j = if width == 1 {
        choose|j: int|
            0 <= j < w.blocks.len() && (#[trigger] w.blocks[j]).allocated && w.blocks[j].addr
                + BHEAD_SIZE <= a < w.blocks[j].addr + w.blocks[j].size
    } else {
        choose|j: int|
            0 <= j < w.blocks.len() && (#[trigger] w.blocks[j]).allocated && w.blocks[j].addr
                + BHEAD_SIZE <= a && a + 8 <= w.blocks[j].addr + w.blocks[j].size
    };
    let x = if j < start { j } else { j + d };
    assert(w.blocks[j] == v.blocks[x]);
    assert(v.blocks[x].allocated);
    lemma_apart(v, x, i);
}

/// An allocation leaves the extent of the pool as it is.
pub proof fn lemma_alloc_extent(v: HeapView, n: int, align: int)
    ensures
        v.after_alloc(n, align).base == v.base,
        v.after_alloc(n, align).size == v.size,
{
    reveal(HeapView::split);
    reveal(HeapView::take);
}

/// A release leaves the extent of the pool as it is.
pub proof fn lemma_free_extent(v: HeapView, p: int)
    ensures
        v.after_free(p).base == v.base,
        v.after_free(p).size == v.size,
{
    reveal(HeapView::after_free);
}

} // verus!
