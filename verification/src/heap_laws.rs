//! What holds of every pool: allocated ranges never overlap, a release
//! leaves no two free neighbours, the blocks can be walked from the base
//! to the closing header, and releasing in reverse order what was
//! allocated from a fresh pool gives the fresh pool back.

use crate::heap_model::{
    fits, lemma_apart, lemma_block, lemma_free, lemma_free_entry, lemma_index_of, lemma_initial_inv,
    lemma_nonempty, lemma_not_both_free, lemma_split, lemma_take, need_of, splits, HeapView,
    BFHEAD_SIZE, BHEAD_SIZE, QLINKS_SIZE,
};
use vstd::prelude::*;

verus! {

/// The user bytes of two different live allocations do not overlap, and
/// the user bytes of a live allocation lie inside the pool, before the
/// closing header.
pub proof fn lemma_live_disjoint(v: HeapView, p: int, q: int)
    requires
        v.inv(),
        v.is_live(p),
        v.is_live(q),
    ensures
        v.usable(p) >= QLINKS_SIZE,
        v.base + BHEAD_SIZE <= p,
        p + v.usable(p) <= v.end(),
        p != q ==> p + v.usable(p) + BHEAD_SIZE <= q || q + v.usable(q) + BHEAD_SIZE <= p,
{
    let i = choose|i: int|
        0 <= i < v.blocks.len() && (#[trigger] v.blocks[i]).addr == p - BHEAD_SIZE
            && v.blocks[i].allocated;
    let j = choose|j: int|
        0 <= j < v.blocks.len() && (#[trigger] v.blocks[j]).addr == q - BHEAD_SIZE
            && v.blocks[j].allocated;
    lemma_index_of(v, i);
    lemma_index_of(v, j);
    lemma_block(v, i);
    lemma_block(v, j);
    if i != j {
        lemma_apart(v, i, j);
    }
}

/// A word inside the user bytes of a live allocation is in user hands.
pub proof fn lemma_live_word_in(v: HeapView, p: int, a: int)
    requires
        v.inv(),
        v.is_live(p),
        p <= a,
        a + 8 <= p + v.usable(p),
    ensures
        v.is_live_word(a),
        v.is_live_byte(a),
{
    let i = choose|i: int|
        0 <= i < v.blocks.len() && (#[trigger] v.blocks[i]).addr == p - BHEAD_SIZE
            && v.blocks[i].allocated;
    lemma_index_of(v, i);
}

/// What an allocation does to the live allocations: a failed one changes
/// nothing; a successful one adds the returned address, which was not
/// live, is a multiple of the alignment, and has room for the request;
/// every other allocation stays live with the same user bytes.
#[verifier::rlimit(50)]
pub proof fn lemma_alloc_live(v: HeapView, n: int, align: int)
    requires
        v.inv(),
        0 <= n,
    ensures
        v.after_alloc(n, align).inv(),
        v.alloc_addr(n, align) == 0 ==> v.after_alloc(n, align) == v,
        v.alloc_addr(n, align) != 0 ==> {
            let r = v.alloc_addr(n, align);
            let w = v.after_alloc(n, align);
            &&& align > 0
            &&& r % align == 0
            &&& w.is_live(r)
            &&& !v.is_live(r)
            &&& w.usable(r) >= n
            &&& v.base + BHEAD_SIZE <= r
            &&& r + w.usable(r) <= v.end()
        },
        forall|p: int| #[trigger]
            v.is_live(p) ==> v.after_alloc(n, align).is_live(p) && v.after_alloc(n, align).usable(
                p,
            ) == v.usable(p),
        forall|p: int| #[trigger]
            v.after_alloc(n, align).is_live(p) ==> p == v.alloc_addr(n, align) || v.is_live(p),
{
    let need = need_of(n);
    let k = v.first_fit(need, align, 0);
    lemma_first_fit(v, need, align, 0);
    let w = v.after_alloc(n, align);
    if k < v.free_list.len() {
        lemma_free_entry(v, k);
        let i = v.index_of(v.free_list[k]);
        let b = v.blocks[i];
        lemma_block(v, i);
        let r = v.alloc_addr(n, align);
        if splits(b.size, need) {
            lemma_split(v, i, need);
            assert(w.blocks[i + 1].addr == r - BHEAD_SIZE && w.blocks[i + 1].allocated);
            lemma_index_of(w, i + 1);
            assert(!v.is_live(r)) by {
                if v.is_live(r) {
                    let x = choose|x: int|
                        0 <= x < v.blocks.len() && (#[trigger] v.blocks[x]).addr == r
                            - BHEAD_SIZE && v.blocks[x].allocated;
                    lemma_apart(v, x, i);
                }
            }
            assert forall|p: int| #[trigger] v.is_live(p) implies w.is_live(p) && w.usable(p)
                == v.usable(p) by {
                let x = choose|x: int|
                    0 <= x < v.blocks.len() && (#[trigger] v.blocks[x]).addr == p - BHEAD_SIZE
                        && v.blocks[x].allocated;
                let y = if x < i { x } else { x + 1 };
                assert(w.blocks[y] == v.blocks[x]);
                lemma_index_of(v, x);
                lemma_index_of(w, y);
            }
            assert forall|p: int| #[trigger] w.is_live(p) implies p == r || v.is_live(p) by {
                let y = choose|y: int|
                    0 <= y < w.blocks.len() && (#[trigger] w.blocks[y]).addr == p - BHEAD_SIZE
                        && w.blocks[y].allocated;
                if y != i + 1 {
                    let x = if y < i { y } else { y - 1 };
                    assert(w.blocks[y] == v.blocks[x]);
                }
            }
        } else {
            lemma_take(v, i, k);
            assert(w.blocks[i].addr == r - BHEAD_SIZE && w.blocks[i].allocated);
            lemma_index_of(w, i);
            lemma_index_of(v, i);
            assert(!v.is_live(r)) by {
                if v.is_live(r) {
                    let x = choose|x: int|
                        0 <= x < v.blocks.len() && (#[trigger] v.blocks[x]).addr == r
                            - BHEAD_SIZE && v.blocks[x].allocated;
                    lemma_index_of(v, x);
                }
            }
            assert forall|p: int| #[trigger] v.is_live(p) implies w.is_live(p) && w.usable(p)
                == v.usable(p) by {
                let x = choose|x: int|
                    0 <= x < v.blocks.len() && (#[trigger] v.blocks[x]).addr == p - BHEAD_SIZE
                        && v.blocks[x].allocated;
                assert(w.blocks[x] == v.blocks[x]);
                lemma_index_of(v, x);
                lemma_index_of(w, x);
            }
            assert forall|p: int| #[trigger] w.is_live(p) implies p == r || v.is_live(p) by {
                let y = choose|y: int|
                    0 <= y < w.blocks.len() && (#[trigger] w.blocks[y]).addr == p - BHEAD_SIZE
                        && w.blocks[y].allocated;
                if y != i {
                    assert(w.blocks[y] == v.blocks[y]);
                }
            }
        }
    } else {
        assert(w == v);
        assert forall|p: int| #[trigger] v.is_live(p) implies w.is_live(p) && w.usable(p)
            == v.usable(p) by {}
    }
}

/// The first fit, where there is one, is a block of the free list that
/// fits, and no block before it fits.
pub proof fn lemma_first_fit(v: HeapView, need: int, align: int, from: int)
    requires
        0 <= from,
    ensures
        from <= v.first_fit(need, align, from) || v.first_fit(need, align, from)
            == v.free_list.len(),
        v.first_fit(need, align, from) <= v.free_list.len(),
        v.first_fit(need, align, from) < v.free_list.len() ==> fits(
            v.block_at(v.free_list[v.first_fit(need, align, from)]),
            need,
            align,
        ),
        forall|k: int|
            from <= k < v.first_fit(need, align, from) ==> !fits(
                v.block_at(#[trigger] v.free_list[k]),
                need,
                align,
            ),
    decreases v.free_list.len() - from,
{
    if from < v.free_list.len() && !fits(v.block_at(v.free_list[from]), need, align) {
        lemma_first_fit(v, need, align, from + 1);
    }
}

/// What a release does to the live allocations: the released address is
/// no longer live; every other allocation stays live with the same user
/// bytes; and nothing else becomes live.
pub proof fn lemma_free_live(v: HeapView, q: int)
    requires
        v.inv(),
        v.is_live(q),
    ensures
        v.after_free(q).inv(),
        !v.after_free(q).is_live(q),
        forall|p: int| #[trigger]
            v.is_live(p) && p != q ==> v.after_free(q).is_live(p) && v.after_free(q).usable(p)
                == v.usable(p),
        forall|p: int| #[trigger] v.after_free(q).is_live(p) ==> v.is_live(p) && p != q,
{
    lemma_free(v, q);
    let w = v.after_free(q);
    let i = v.index_of(q - BHEAD_SIZE);
    let start = v.merge_start(i);
    let d = v.merge_stop(i) - start - 1;
    lemma_index_of(v, i);
    assert forall|p: int| #[trigger] v.is_live(p) && p != q implies w.is_live(p) && w.usable(p)
        == v.usable(p) by {
        let x = choose|x: int|
            0 <= x < v.blocks.len() && (#[trigger] v.blocks[x]).addr == p - BHEAD_SIZE
                && v.blocks[x].allocated;
        let y = if x < start { x } else { x - d };
        assert(w.blocks[y] == v.blocks[x]);
        lemma_index_of(v, x);
        lemma_index_of(w, y);
    }
    assert forall|p: int| #[trigger] w.is_live(p) implies v.is_live(p) && p != q by {
        let y = choose|y: int|
            0 <= y < w.blocks.len() && (#[trigger] w.blocks[y]).addr == p - BHEAD_SIZE
                && w.blocks[y].allocated;
        let x = if y < start { y } else { y + d };
        assert(w.blocks[y] == v.blocks[x]);
        lemma_index_of(v, x);
    }
}

/// After any release no two neighbours in address order are both free.
pub proof fn lemma_free_coalesced(v: HeapView, q: int, i: int)
    requires
        v.inv(),
        v.is_live(q),
        0 <= i,
        i + 1 < v.after_free(q).blocks.len(),
    ensures
        v.after_free(q).blocks[i].allocated || v.after_free(q).blocks[i + 1].allocated,
{
    lemma_free(v, q);
    lemma_not_both_free(v.after_free(q), i);
}

/// In every state the blocks can be walked: the first block starts at the
/// base, each block ends where the next one starts, and the last block
/// ends at the closing header, so stepping from the base by block sizes
/// reaches the closing header in as many steps as there are blocks.
pub proof fn lemma_walk(v: HeapView, i: int)
    requires
        v.inv(),
        0 <= i < v.blocks.len(),
    ensures
        v.blocks[0].addr == v.base,
        v.blocks[i].size >= BFHEAD_SIZE,
        v.blocks[i].addr % 4 == 0,
        i + 1 < v.blocks.len() ==> v.blocks[i].addr + v.blocks[i].size == v.blocks[i + 1].addr,
        i + 1 == v.blocks.len() ==> v.blocks[i].addr + v.blocks[i].size == v.end(),
{
    lemma_block(v, 0);
    lemma_block(v, i);
    crate::heap_model::lemma_aligned(v, i);
}

/// The pool after the requests of `reqs`, each a size and an alignment,
/// were served in order.
pub open spec fn alloc_all(v: HeapView, reqs: Seq<(int, int)>) -> HeapView
    decreases reqs.len(),
{
    if reqs.len() == 0 {
        v
    } else {
        alloc_all(v, reqs.drop_last()).after_alloc(reqs.last().0, reqs.last().1)
    }
}

/// The addresses that the requests of `reqs` got, in order.
pub open spec fn alloc_addrs(v: HeapView, reqs: Seq<(int, int)>) -> Seq<int>
    decreases reqs.len(),
{
    if reqs.len() == 0 {
        Seq::empty()
    } else {
        alloc_addrs(v, reqs.drop_last()).push(
            alloc_all(v, reqs.drop_last()).alloc_addr(reqs.last().0, reqs.last().1),
        )
    }
}

/// The pool after the addresses of `addrs` were released, last one
/// first.
pub open spec fn free_reversed(v: HeapView, addrs: Seq<int>) -> HeapView
    decreases addrs.len(),
{
    if addrs.len() == 0 {
        v
    } else {
        free_reversed(v.after_free(addrs.last()), addrs.drop_last())
    }
}

/// The pool holds the allocations of `addrs` stacked below its end, the
/// latest one lowest, and before them one free block or none.
pub open spec fn stacked(v: HeapView, addrs: Seq<int>) -> bool {
    let m = addrs.len() as int;
    &&& v.inv()
    &&& v.blocks.len() == m + 1 || v.blocks.len() == m
    &&& v.blocks.len() == m + 1 ==> !v.blocks[0].allocated && v.free_list == seq![v.base]
    &&& v.blocks.len() == m ==> v.free_list == Seq::<int>::empty()
    &&& forall|j: int|
        v.blocks.len() - m <= j < v.blocks.len() ==> (#[trigger] v.blocks[j]).addr == addrs[v.blocks.len()
            - 1 - j] - BHEAD_SIZE && v.blocks[j].allocated
}

/// A successful allocation from a stacked pool leaves a stacked pool.
#[verifier::rlimit(50)]
proof fn lemma_stacked_alloc(v: HeapView, addrs: Seq<int>, n: int, align: int)
    requires
        stacked(v, addrs),
        0 <= n,
        v.alloc_addr(n, align) != 0,
    ensures
        stacked(v.after_alloc(n, align), addrs.push(v.alloc_addr(n, align))),
{
    let need = need_of(n);
    let m = addrs.len() as int;
    let k = v.first_fit(need, align, 0);
    lemma_first_fit(v, need, align, 0);
    let w = v.after_alloc(n, align);
    let r = v.alloc_addr(n, align);
    let ext = addrs.push(r);
    assert(k == 0 && v.free_list.len() == 1);
    lemma_free_entry(v, 0);
    lemma_block(v, 0);
    let i = v.index_of(v.free_list[0]);
    lemma_index_of(v, 0);
    assert(i == 0);
    if splits(v.blocks[0].size, need) {
        lemma_split(v, 0, need);
        assert forall|j: int| 1 <= j < w.blocks.len() implies (#[trigger] w.blocks[j]).addr
            == ext[w.blocks.len() - 1 - j] - BHEAD_SIZE && w.blocks[j].allocated by {
            if j > 1 {
                assert(w.blocks[j] == v.blocks[j - 1]);
            }
        }
    } else {
        lemma_take(v, 0, 0);
        assert(w.free_list =~= Seq::<int>::empty());
        assert forall|j: int| 0 <= j < w.blocks.len() implies (#[trigger] w.blocks[j]).addr
            == ext[w.blocks.len() - 1 - j] - BHEAD_SIZE && w.blocks[j].allocated by {
            if j > 0 {
                assert(w.blocks[j] == v.blocks[j]);
            }
        }
    }
}

/// Releasing the latest allocation of a stacked pool leaves a stacked
/// pool.
proof fn lemma_stacked_free(v: HeapView, addrs: Seq<int>)
    requires
        stacked(v, addrs),
        addrs.len() > 0,
    ensures
        v.is_live(addrs.last()),
        stacked(v.after_free(addrs.last()), addrs.drop_last()),
{
    let m = addrs.len() as int;
    let n = v.blocks.len() as int;
    let q = addrs.last();
    let x = n - m;
    assert(v.blocks[x].addr == q - BHEAD_SIZE && v.blocks[x].allocated);
    lemma_index_of(v, x);
    lemma_free(v, q);
    let w = v.after_free(q);
    let rest = addrs.drop_last();
    if x + 1 < n {
        assert(v.blocks[x + 1].allocated);
    }
    assert(v.merge_stop(x) == x + 1);
    if x == 1 {
        assert(v.merge_start(x) == 0);
        assert(w.free_list == v.free_list);
    } else {
        assert(v.merge_start(x) == 0);
        assert(w.free_list =~= seq![v.blocks[0].addr]);
        lemma_block(v, 0);
    }
    assert(w.blocks.len() == m);
    assert forall|j: int| 1 <= j < w.blocks.len() implies (#[trigger] w.blocks[j]).addr
        == rest[w.blocks.len() - 1 - j] - BHEAD_SIZE && w.blocks[j].allocated by {
        assert(w.blocks[j] == v.blocks[j + (n - m)]);
    }
}

/// A stacked pool without allocations is the fresh pool.
proof fn lemma_stacked_empty(v: HeapView)
    requires
        stacked(v, Seq::<int>::empty()),
    ensures
        v == HeapView::initial(v.base, v.size),
{
    lemma_nonempty(v);
    lemma_block(v, 0);
    assert(v.blocks =~= HeapView::initial(v.base, v.size).blocks);
}

/// Serving requests from a stacked pool, each with success, leaves a
/// stacked pool that holds their addresses too.
proof fn lemma_stacked_all(v: HeapView, reqs: Seq<(int, int)>)
    requires
        stacked(v, Seq::<int>::empty()),
        forall|t: int| 0 <= t < reqs.len() ==> 0 <= (#[trigger] reqs[t]).0,
        forall|t: int| 0 <= t < reqs.len() ==> #[trigger] alloc_addrs(v, reqs)[t] != 0,
    ensures
        stacked(alloc_all(v, reqs), alloc_addrs(v, reqs)),
        alloc_addrs(v, reqs).len() == reqs.len(),
        alloc_all(v, reqs).base == v.base,
        alloc_all(v, reqs).size == v.size,
    decreases reqs.len(),
{
    if reqs.len() > 0 {
        let head = reqs.drop_last();
        lemma_addrs_len(v, head);
        assert forall|t: int| 0 <= t < head.len() implies #[trigger] alloc_addrs(v, head)[t]
            != 0 by {
            assert(alloc_addrs(v, reqs)[t] == alloc_addrs(v, head)[t]);
        }
        assert forall|t: int| 0 <= t < head.len() implies 0 <= (#[trigger] head[t]).0 by {
            assert(head[t] == reqs[t]);
        }
        lemma_stacked_all(v, head);
        let u = alloc_all(v, head);
        assert(alloc_addrs(v, reqs)[reqs.len() - 1] == u.alloc_addr(reqs.last().0, reqs.last().1));
        assert(0 <= reqs[reqs.len() - 1].0);
        lemma_stacked_alloc(u, alloc_addrs(v, head), reqs.last().0, reqs.last().1);
        crate::heap_model::lemma_alloc_extent(u, reqs.last().0, reqs.last().1);
    }
}

/// Each request has one address.
proof fn lemma_addrs_len(v: HeapView, reqs: Seq<(int, int)>)
    ensures
        alloc_addrs(v, reqs).len() == reqs.len(),
    decreases reqs.len(),
{
    if reqs.len() > 0 {
        lemma_addrs_len(v, reqs.drop_last());
    }
}

/// Releasing all allocations of a stacked pool, latest first, gives the
/// fresh pool.
proof fn lemma_stacked_unwind(v: HeapView, addrs: Seq<int>)
    requires
        stacked(v, addrs),
    ensures
        free_reversed(v, addrs) == HeapView::initial(v.base, v.size),
    decreases addrs.len(),
{
    if addrs.len() == 0 {
        assert(addrs =~= Seq::<int>::empty());
        lemma_stacked_empty(v);
    } else {
        lemma_stacked_free(v, addrs);
        lemma_free(v, addrs.last());
        crate::heap_model::lemma_free_extent(v, addrs.last());
        lemma_stacked_unwind(v.after_free(addrs.last()), addrs.drop_last());
    }
}

/// Round trip: where every request of a sequence served from a fresh
/// pool succeeds, releasing the addresses in reverse order leaves the
/// pool as it was after initialisation, with one free block over the
/// whole pool.
pub proof fn lemma_round_trip(base: int, size: int, reqs: Seq<(int, int)>)
    requires
        0 <= base,
        base % 4 == 0,
        size % 4 == 0,
        size >= BFHEAD_SIZE + BHEAD_SIZE,
        base + size <= usize::MAX,
        forall|t: int| 0 <= t < reqs.len() ==> 0 <= (#[trigger] reqs[t]).0,
        forall|t: int|
            0 <= t < reqs.len() ==> #[trigger] alloc_addrs(HeapView::initial(base, size), reqs)[t]
                != 0,
    ensures
        free_reversed(
            alloc_all(HeapView::initial(base, size), reqs),
            alloc_addrs(HeapView::initial(base, size), reqs),
        ) == HeapView::initial(base, size),
{
    let v = HeapView::initial(base, size);
    lemma_initial_inv(base, size);
    assert(stacked(v, Seq::<int>::empty()));
    lemma_stacked_all(v, reqs);
    lemma_stacked_unwind(alloc_all(v, reqs), alloc_addrs(v, reqs));
}

/// Every user address is a multiple of the allocation quantum.
pub proof fn lemma_live_aligned(v: HeapView, p: int)
    requires
        v.inv(),
        v.is_live(p),
    ensures
        p % 4 == 0,
{
    let i = choose|i: int|
        0 <= i < v.blocks.len() && (#[trigger] v.blocks[i]).addr == p - BHEAD_SIZE
            && v.blocks[i].allocated;
    crate::heap_model::lemma_aligned(v, i);
}

} // verus!
