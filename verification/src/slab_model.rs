//! The mathematical model of the slab allocator: the caches with their
//! three lists of slabs, the slabs with their free objects, and where
//! each word that the allocator keeps lies in the heap.

use crate::heap_laws::{lemma_live_disjoint, lemma_live_word_in};
use crate::heap_model::HeapView;
use crate::region::Region;
use crate::slab_layout::{
    class_of, lemma_obj, lemma_obj_apart, obj_addr, slab_capacity, valid_class, valid_layout,
    MASTER_CLASS, PAGE_ALIGN, PAGE_SIZE,
};
use vstd::prelude::*;

verus! {

/// Word of a slab header: address of the next slab in its list, or zero.
pub const H_NEXT: usize = 0;

/// Word of a slab header: address of the previous slab in its list, or
/// zero.
pub const H_PREV: usize = 1;

/// Word of a slab header: address of the first free object, or zero.
pub const H_FREE_HEAD: usize = 2;

/// Word of a slab header: number of objects in use.
pub const H_INUSE: usize = 3;

/// Word of a slab header: number of free objects.
pub const H_FREE: usize = 4;

/// Word of a slab header: number of objects.
pub const H_CAPACITY: usize = 5;

/// Word of a slab header: size of an object.
pub const H_OBJ_SIZE: usize = 6;

/// Word of a slab header: address of the slab.
pub const H_START: usize = 7;

/// Word of a slab header: address behind the page of the slab.
pub const H_END: usize = 8;

/// Word of a slab header: address of the cache that owns the slab.
pub const H_CACHE: usize = 9;

/// Words of a slab header.
pub const H_WORDS: usize = 10;

/// Word of a cache record: head of the list of full slabs.
pub const C_FULL: usize = 0;

/// Word of a cache record: head of the list of partial slabs.
pub const C_PARTIAL: usize = 1;

/// Word of a cache record: head of the list of free slabs.
pub const C_FREE: usize = 2;

/// Word of a cache record: address of the next cache, or zero.
pub const C_NEXT: usize = 7;

/// Word of a cache record: size of an object.
pub const C_OBJ_SIZE: usize = 8;

/// Word of a cache record: number of objects in one slab.
pub const C_OBJ_NUM: usize = 9;

/// Word of a cache record: number of objects in all slabs.
pub const C_OBJ_TOTAL: usize = 10;

/// Word of a cache record: number of objects in use.
pub const C_OBJ_ACTIVE: usize = 11;

/// Word of a cache record: number of free objects.
pub const C_OBJ_FREE: usize = 12;

/// Words of a cache record.
pub const C_WORDS: usize = 13;

/// One slab.
pub struct SlabModel {
    /// Address of the cache that owns the slab.
    pub cache: int,
    /// Size of an object.
    pub obj_size: int,
    /// Indices of the free objects in free-list order.
    pub free: Seq<int>,
    /// Indices of the objects in use.
    pub used: Set<int>,
    /// The list of its cache that holds the slab: 0 the full, 1 the
    /// partial, 2 the free slabs; -1 while the slab is in no list.
    pub list: int,
}

/// One cache.
pub struct CacheModel {
    /// Size of an object.
    pub obj_size: int,
    /// The slabs without a free object, in list order.
    pub full: Seq<int>,
    /// The slabs with free objects and objects in use, in list order.
    pub partial: Seq<int>,
    /// The slabs without an object in use, in list order.
    pub free: Seq<int>,
    /// The slab of the master cache that holds the record of the cache.
    pub home_slab: int,
    /// The object of that slab that holds the record.
    pub home_obj: int,
}

/// The state of the slab allocator.
pub struct KmemView {
    /// The heap below the allocator.
    pub heap: HeapView,
    /// Address of the record of the master cache.
    pub master: int,
    /// Addresses of the records of the other caches, latest first.
    pub chain: Seq<int>,
    /// The caches by the address of their record.
    pub caches: Map<int, CacheModel>,
    /// The slabs by their address.
    pub slabs: Map<int, SlabModel>,
}

/// A word that the allocator keeps in the heap.
pub enum Loc {
    /// Word `f` of the header of the slab at `p`.
    Hdr { p: int, f: int },
    /// The back pointer of object `k` of the slab at `p`.
    Back { p: int, k: int },
    /// The free-list link of the free object `k` of the slab at `p`.
    Next { p: int, k: int },
    /// Word `f` of the cache record at `c`.
    Cache { c: int, f: int },
}

impl KmemView {
    /// Objects in the slab at `p`.
    pub open spec fn cap(self, p: int) -> int {
        slab_capacity(self.slabs[p].obj_size)
    }

    /// Address of object `k` of the slab at `p`.
    pub open spec fn obj(self, p: int, k: int) -> int {
        obj_addr(p, self.slabs[p].obj_size, k)
    }

    /// The allocator keeps the word `loc`.
    pub open spec fn valid(self, loc: Loc) -> bool {
        match loc {
            Loc::Hdr { p, f } => self.slabs.contains_key(p) && 0 <= f < H_WORDS,
            Loc::Back { p, k } => self.slabs.contains_key(p) && 0 <= k < self.cap(p),
            Loc::Next { p, k } => self.slabs.contains_key(p) && 0 <= k < self.cap(p)
                && self.slabs[p].free.contains(k),
            Loc::Cache { c, f } => self.caches.contains_key(c) && 0 <= f < C_WORDS,
        }
    }

    /// Address of the word `loc`.
    pub open spec fn addr(self, loc: Loc) -> int {
        match loc {
            Loc::Hdr { p, f } => p + 8 * f,
            Loc::Back { p, k } => self.obj(p, k),
            Loc::Next { p, k } => self.obj(p, k) + 8,
            Loc::Cache { c, f } => c + 8 * f,
        }
    }

    /// The slab in whose page the word `loc` lies.
    pub open spec fn page(self, loc: Loc) -> int {
        match loc {
            Loc::Hdr { p, f } => p,
            Loc::Back { p, k } => p,
            Loc::Next { p, k } => p,
            Loc::Cache { c, f } => self.caches[c].home_slab,
        }
    }

    /// The slab at `p` lies in a page of the heap and has a size class;
    /// its objects in use are objects of the slab and are not free.
    pub open spec fn slab_placed(self, p: int) -> bool {
        &&& self.heap.is_live(p)
        &&& self.heap.usable(p) >= PAGE_SIZE
        &&& valid_class(self.slabs[p].obj_size)
        &&& forall|k: int| #[trigger]
            self.slabs[p].used.contains(k) ==> 0 <= k < self.cap(p) && !self.slabs[p].free.contains(
                k,
            )
    }

    /// The record of the cache at `c` lies behind the back pointer of an
    /// object in use of a slab of the master cache.
    pub open spec fn cache_placed(self, c: int) -> bool {
        let hp = self.caches[c].home_slab;
        let hk = self.caches[c].home_obj;
        &&& self.slabs.contains_key(hp)
        &&& self.slabs[hp].obj_size == MASTER_CLASS
        &&& self.slabs[hp].cache == self.master
        &&& self.slabs[hp].used.contains(hk)
        &&& c == obj_addr(hp, MASTER_CLASS as int, hk) + 8
    }

    /// Every slab and every cache record has its place in the heap.
    #[verifier::opaque]
    pub open spec fn layout_wf(self) -> bool {
        &&& self.heap.inv()
        &&& forall|p: int| #[trigger] self.slabs.contains_key(p) ==> self.slab_placed(p)
        &&& forall|c: int| #[trigger] self.caches.contains_key(c) ==> self.cache_placed(c)
    }

    /// The user address `ptr` is that of object `k`, in use, of the slab
    /// at `p`, which is not a slab of the master cache.
    pub open spec fn is_object(self, ptr: int, p: int, k: int) -> bool {
        &&& self.slabs.contains_key(p)
        &&& self.slabs[p].cache != self.master
        &&& self.slabs[p].used.contains(k)
        &&& ptr == self.obj(p, k) + 8
    }

    /// The user address `ptr` was handed out and not yet given back.
    pub open spec fn is_live(self, ptr: int) -> bool {
        exists|p: int, k: int| #[trigger] self.is_object(ptr, p, k)
    }

    /// The eight bytes from `a` lie in the user bytes of the object with
    /// user address `ptr`.
    pub open spec fn in_object(self, ptr: int, p: int, k: int, a: int) -> bool {
        &&& self.is_object(ptr, p, k)
        &&& ptr <= a
        &&& a + 8 <= ptr - 8 + self.slabs[p].obj_size
    }

    /// The eight bytes from `a` lie in the user bytes of a live object.
    pub open spec fn is_user_word(self, a: int) -> bool {
        exists|ptr: int, p: int, k: int| #[trigger] self.in_object(ptr, p, k, a)
    }
}

/// Where a slab and a cache record lie.
pub proof fn lemma_placed(v: KmemView, p: int, c: int)
    requires
        v.layout_wf(),
    ensures
        v.heap.inv(),
        v.slabs.contains_key(p) ==> v.slab_placed(p) && 0 < p && p + PAGE_SIZE <= usize::MAX,
        v.caches.contains_key(c) ==> v.cache_placed(c) && v.slab_placed(v.caches[c].home_slab)
            && 0 < c && c + 8 * C_WORDS <= usize::MAX,
{
    reveal(KmemView::layout_wf);
    if v.slabs.contains_key(p) {
        lemma_live_disjoint(v.heap, p, p);
    }
    if v.caches.contains_key(c) {
        let hp = v.caches[c].home_slab;
        assert(v.slabs.contains_key(hp));
        lemma_live_disjoint(v.heap, hp, hp);
        lemma_obj(hp, MASTER_CLASS as int, v.caches[c].home_obj);
    }
}

/// A word that the allocator keeps lies in the page of its slab, which
/// is in user hands as far as the heap is concerned.
pub proof fn lemma_loc(v: KmemView, loc: Loc)
    requires
        v.layout_wf(),
        v.valid(loc),
    ensures
        v.heap.inv(),
        v.slabs.contains_key(v.page(loc)),
        v.slab_placed(v.page(loc)),
        0 <= place(v, loc).0 ==> place(v, loc).0 < v.cap(v.page(loc)),
        v.page(loc) <= v.addr(loc),
        v.addr(loc) + 8 <= v.page(loc) + PAGE_SIZE,
        v.heap.is_live_word(v.addr(loc)),
{
    let p = v.page(loc);
    match loc {
        Loc::Hdr { p, f } => {
            lemma_placed(v, p, 0);
        },
        Loc::Back { p, k } => {
            lemma_placed(v, p, 0);
            lemma_obj(p, v.slabs[p].obj_size, k);
        },
        Loc::Next { p, k } => {
            lemma_placed(v, p, 0);
            lemma_obj(p, v.slabs[p].obj_size, k);
        },
        Loc::Cache { c, f } => {
            lemma_placed(v, 0, c);
            let hp = v.caches[c].home_slab;
            lemma_obj(hp, MASTER_CLASS as int, v.caches[c].home_obj);
        },
    }
    lemma_live_word_in(v.heap, p, v.addr(loc));
}

/// Where a word lies inside its page: in the header, or in which part of
/// which object.
pub open spec fn place(v: KmemView, loc: Loc) -> (int, int) {
    match loc {
        Loc::Hdr { p, f } => (-1, f),
        Loc::Back { p, k } => (k, 0),
        Loc::Next { p, k } => (k, 1),
        Loc::Cache { c, f } => (v.caches[c].home_obj, f + 1),
    }
}

/// Two different words that the allocator keeps do not overlap.
#[verifier::rlimit(50)]
pub proof fn lemma_loc_apart(v: KmemView, l1: Loc, l2: Loc)
    requires
        v.layout_wf(),
        v.valid(l1),
        v.valid(l2),
        l1 != l2,
    ensures
        v.addr(l1) + 8 <= v.addr(l2) || v.addr(l2) + 8 <= v.addr(l1),
{
    lemma_loc(v, l1);
    lemma_loc(v, l2);
    let pa = v.page(l1);
    let pb = v.page(l2);
    if pa != pb {
        lemma_live_disjoint(v.heap, pa, pb);
    } else {
        let osz = v.slabs[pa].obj_size;
        let (k1, w1) = place(v, l1);
        let (k2, w2) = place(v, l2);
        if let Loc::Cache { c, f } = l1 {
            lemma_placed(v, 0, c);
        }
        if let Loc::Cache { c, f } = l2 {
            lemma_placed(v, 0, c);
        }
        if k1 >= 0 {
            lemma_obj(pa, osz, k1);
        }
        if k2 >= 0 {
            lemma_obj(pa, osz, k2);
        }
        if k1 >= 0 && k2 >= 0 {
            if k1 < k2 {
                lemma_obj_apart(pa, osz, k1, k2);
            } else if k2 < k1 {
                lemma_obj_apart(pa, osz, k2, k1);
            }
        }
    }
}

/// A word in the user bytes of a live object overlaps no word that the
/// allocator keeps, and is in user hands as far as the heap is
/// concerned.
pub proof fn lemma_user_word(v: KmemView, a: int, loc: Loc)
    requires
        v.layout_wf(),
        v.is_user_word(a),
    ensures
        v.heap.is_live_word(a),
        v.valid(loc) ==> v.addr(loc) + 8 <= a || a + 8 <= v.addr(loc),
{
    let (ptr, p, k) = choose|ptr: int, p: int, k: int| #[trigger] v.in_object(ptr, p, k, a);
    lemma_placed(v, p, 0);
    let osz = v.slabs[p].obj_size;
    lemma_obj(p, osz, k);
    lemma_live_word_in(v.heap, p, a);
    if v.valid(loc) {
        lemma_loc(v, loc);
        let q = v.page(loc);
        if p != q {
            lemma_live_disjoint(v.heap, p, q);
        } else {
            let (k2, w2) = place(v, loc);
            if let Loc::Cache { c, f } = loc {
                lemma_placed(v, 0, c);
            }
            if k2 >= 0 {
                lemma_obj(p, osz, k2);
                if k < k2 {
                    lemma_obj_apart(p, osz, k, k2);
                } else if k2 < k {
                    lemma_obj_apart(p, osz, k2, k);
                }
            }
        }
    }
}

/// The heap holds at every word that the allocator keeps the value that
/// `val` records for it.
#[verifier::opaque]
pub open spec fn mem_ok(m: &Region, v: KmemView, val: Map<Loc, int>) -> bool {
    forall|loc: Loc| #[trigger] v.valid(loc) ==> m.word_at(v.addr(loc)) == val[loc]
}

/// What the heap holds at a word that the allocator keeps.
pub proof fn lemma_mem_read(m: &Region, v: KmemView, val: Map<Loc, int>, loc: Loc)
    requires
        mem_ok(m, v, val),
        v.valid(loc),
    ensures
        m.word_at(v.addr(loc)) == val[loc],
{
    reveal(mem_ok);
}

/// Storing a word that the allocator keeps changes the record of that
/// word and of no other.
pub proof fn lemma_mem_write(
    m1: &Region,
    m2: &Region,
    v: KmemView,
    val: Map<Loc, int>,
    loc: Loc,
    x: int,
)
    requires
        mem_ok(m1, v, val),
        v.layout_wf(),
        v.valid(loc),
        m2.same_except(m1, v.addr(loc), v.addr(loc) + 8),
        m2.word_at(v.addr(loc)) == x,
    ensures
        mem_ok(m2, v, val.insert(loc, x)),
{
    reveal(mem_ok);
    assert forall|l: Loc| #[trigger] v.valid(l) implies m2.word_at(v.addr(l)) == val.insert(
        loc,
        x,
    )[l] by {
        if l != loc {
            lemma_loc_apart(v, l, loc);
        }
    }
}

/// A store into the user bytes of a live object changes no record.
pub proof fn lemma_mem_user(m1: &Region, m2: &Region, v: KmemView, val: Map<Loc, int>, a: int)
    requires
        mem_ok(m1, v, val),
        v.layout_wf(),
        v.is_user_word(a),
        m2.same_except(m1, a, a + 8),
    ensures
        mem_ok(m2, v, val),
{
    reveal(mem_ok);
    assert forall|l: Loc| #[trigger] v.valid(l) implies m2.word_at(v.addr(l)) == val[l] by {
        lemma_user_word(v, a, l);
    }
}

/// A change of the heap that leaves what is in user hands as it was
/// changes no record.
pub proof fn lemma_mem_keep(m1: &Region, m2: &Region, v: KmemView, val: Map<Loc, int>)
    requires
        mem_ok(m1, v, val),
        v.layout_wf(),
        forall|a: int| v.heap.is_live_word(a) ==> #[trigger] m2.word_at(a) == m1.word_at(a),
    ensures
        mem_ok(m2, v, val),
{
    reveal(mem_ok);
    assert forall|l: Loc| #[trigger] v.valid(l) implies m2.word_at(v.addr(l)) == val[l] by {
        lemma_loc(v, l);
    }
}

/// A model that keeps no word that `v` does not keep, each where `v`
/// keeps it, agrees with the heap on the records of `v`.
pub proof fn lemma_mem_sub(m: &Region, v: KmemView, w: KmemView, val: Map<Loc, int>)
    requires
        mem_ok(m, v, val),
        forall|loc: Loc| #[trigger] w.valid(loc) ==> v.valid(loc) && w.addr(loc) == v.addr(loc),
    ensures
        mem_ok(m, w, val),
{
    reveal(mem_ok);
}

/// The first entry of `l`, or zero.
pub open spec fn head(l: Seq<int>) -> int {
    if l.len() > 0 {
        l[0]
    } else {
        0
    }
}

/// Entry `t` of `l`, or zero outside `l`.
pub open spec fn at(l: Seq<int>, t: int) -> int {
    if 0 <= t < l.len() {
        l[t]
    } else {
        0
    }
}

impl CacheModel {
    /// List `id` of the cache: 0 the full, 1 the partial, 2 the free
    /// slabs.
    pub open spec fn list(self, id: int) -> Seq<int> {
        if id == 0 {
            self.full
        } else if id == 1 {
            self.partial
        } else {
            self.free
        }
    }

    /// The cache with `l` as its list `id`.
    pub open spec fn with_list(self, id: int, l: Seq<int>) -> CacheModel {
        if id == 0 {
            CacheModel { full: l, ..self }
        } else if id == 1 {
            CacheModel { partial: l, ..self }
        } else {
            CacheModel { free: l, ..self }
        }
    }

    /// Number of slabs of the cache.
    pub open spec fn slab_count(self) -> int {
        (self.full.len() + self.partial.len() + self.free.len()) as int
    }
}

impl SlabModel {
    /// The list in which the slab belongs: 0 with no free object, 2
    /// with no object in use, else 1.
    pub open spec fn state(self) -> int {
        if self.free.len() == 0 {
            0
        } else if self.used.len() == 0 {
            2
        } else {
            1
        }
    }
}

impl KmemView {
    /// Address of the `t`-th free object of the slab at `p`, or zero
    /// behind the last one.
    pub open spec fn free_obj(self, p: int, t: int) -> int {
        if 0 <= t < self.slabs[p].free.len() {
            self.obj(p, self.slabs[p].free[t])
        } else {
            0
        }
    }

    /// List `id` of the cache at `c`.
    pub open spec fn list(self, c: int, id: int) -> Seq<int> {
        self.caches[c].list(id)
    }

    /// The model with `sm` as the slab at `p`.
    pub open spec fn with_slab(self, p: int, sm: SlabModel) -> KmemView {
        KmemView { slabs: self.slabs.insert(p, sm), ..self }
    }

    /// The model with `l` as list `id` of the cache at `c`.
    pub open spec fn with_list(self, c: int, id: int, l: Seq<int>) -> KmemView {
        KmemView { caches: self.caches.insert(c, self.caches[c].with_list(id, l)), ..self }
    }

    /// The first free object of the slab at `p` is taken in use.
    pub open spec fn pop(self, p: int) -> KmemView {
        let sm = self.slabs[p];
        self.with_slab(
            p,
            SlabModel { free: sm.free.drop_first(), used: sm.used.insert(sm.free[0]), ..sm },
        )
    }

    /// Object `k` of the slab at `p` is given back and heads the free
    /// objects.
    pub open spec fn push(self, p: int, k: int) -> KmemView {
        let sm = self.slabs[p];
        self.with_slab(
            p,
            SlabModel { free: seq![k] + sm.free, used: sm.used.remove(k), ..sm },
        )
    }

    /// The model with the slab at `p` marked as held by list `id`.
    pub open spec fn mark(self, p: int, id: int) -> KmemView {
        self.with_slab(p, SlabModel { list: id, ..self.slabs[p] })
    }

    /// Entry `t` leaves list `id` of the cache at `c`.
    pub open spec fn list_remove(self, c: int, id: int, t: int) -> KmemView {
        self.with_list(c, id, self.list(c, id).remove(t)).mark(self.list(c, id)[t], -1)
    }

    /// The slab at `p` heads list `id` of the cache at `c`.
    pub open spec fn list_push(self, c: int, id: int, p: int) -> KmemView {
        self.with_list(c, id, seq![p] + self.list(c, id)).mark(p, id)
    }

    /// The slab at `p`, entry `t` of list `from` of the cache at `c`,
    /// moves to the head of list `to` of that cache.
    pub open spec fn moved(self, c: int, from: int, t: int, to: int) -> KmemView {
        self.list_remove(c, from, t).list_push(c, to, self.list(c, from)[t])
    }
}

/// The header and the objects of the slab at `p` say what the model
/// says: the counts, the free list through the free objects, and the
/// back pointer of every object.
#[verifier::opaque]
pub open spec fn slab_ok(v: KmemView, val: Map<Loc, int>, p: int) -> bool {
    let sm = v.slabs[p];
    let n = sm.free.len() as int;
    &&& sm.used.finite()
    &&& sm.used.len() + n == v.cap(p)
    &&& forall|t: int| 0 <= t < n ==> 0 <= #[trigger] sm.free[t] < v.cap(p)
    &&& forall|t: int, u: int| 0 <= t < u < n ==> #[trigger] sm.free[t] != #[trigger] sm.free[u]
    &&& val[Loc::Hdr { p, f: H_FREE_HEAD as int }] == v.free_obj(p, 0)
    &&& val[Loc::Hdr { p, f: H_INUSE as int }] == sm.used.len()
    &&& val[Loc::Hdr { p, f: H_FREE as int }] == n
    &&& val[Loc::Hdr { p, f: H_CAPACITY as int }] == v.cap(p)
    &&& val[Loc::Hdr { p, f: H_OBJ_SIZE as int }] == sm.obj_size
    &&& val[Loc::Hdr { p, f: H_START as int }] == p
    &&& val[Loc::Hdr { p, f: H_END as int }] == p + PAGE_SIZE
    &&& val[Loc::Hdr { p, f: H_CACHE as int }] == sm.cache
    &&& forall|k: int| 0 <= k < v.cap(p) ==> #[trigger] val[Loc::Back { p, k }] == p
    &&& forall|t: int|
        0 <= t < n ==> val[Loc::Next { p, k: #[trigger] sm.free[t] }] == v.free_obj(p, t + 1)
}

/// Every slab says what the model says.
#[verifier::opaque]
pub open spec fn slabs_ok(v: KmemView, val: Map<Loc, int>) -> bool {
    forall|p: int| #[trigger] v.slabs.contains_key(p) ==> slab_ok(v, val, p)
}

/// The slab at `p` and the words of `val` that describe it are the same
/// in both states.
pub open spec fn same_slab(
    v: KmemView,
    val: Map<Loc, int>,
    w: KmemView,
    wal: Map<Loc, int>,
    p: int,
) -> bool {
    &&& v.slabs[p].cache == w.slabs[p].cache
    &&& v.slabs[p].obj_size == w.slabs[p].obj_size
    &&& v.slabs[p].free == w.slabs[p].free
    &&& v.slabs[p].used == w.slabs[p].used
    &&& forall|f: int| 2 <= f < H_WORDS ==> #[trigger] wal[Loc::Hdr { p, f }] == val[Loc::Hdr { p, f }]
    &&& forall|k: int| #[trigger] wal[Loc::Back { p, k }] == val[Loc::Back { p, k }]
    &&& forall|k: int| #[trigger] wal[Loc::Next { p, k }] == val[Loc::Next { p, k }]
}

/// A slab that is the same in two states says in both what the model
/// says.
pub proof fn lemma_slab_frame(
    v: KmemView,
    val: Map<Loc, int>,
    w: KmemView,
    wal: Map<Loc, int>,
    p: int,
)
    requires
        slab_ok(v, val, p),
        same_slab(v, val, w, wal, p),
    ensures
        slab_ok(w, wal, p),
{
    reveal(slab_ok);
    let sm = v.slabs[p];
    assert forall|k: int| 0 <= k < w.cap(p) implies #[trigger] wal[Loc::Back { p, k }] == p by {
        assert(val[Loc::Back { p, k }] == p);
    }
    assert forall|t: int| 0 <= t < sm.free.len() implies wal[Loc::Next {
        p,
        k: #[trigger] sm.free[t],
    }] == w.free_obj(p, t + 1) by {
        assert(val[Loc::Next { p, k: sm.free[t] }] == v.free_obj(p, t + 1));
    }
    assert(wal[Loc::Hdr { p, f: H_FREE_HEAD as int }] == val[Loc::Hdr { p, f: H_FREE_HEAD as int }]);
    assert(wal[Loc::Hdr { p, f: H_INUSE as int }] == val[Loc::Hdr { p, f: H_INUSE as int }]);
    assert(wal[Loc::Hdr { p, f: H_FREE as int }] == val[Loc::Hdr { p, f: H_FREE as int }]);
    assert(wal[Loc::Hdr { p, f: H_CAPACITY as int }] == val[Loc::Hdr { p, f: H_CAPACITY as int }]);
    assert(wal[Loc::Hdr { p, f: H_OBJ_SIZE as int }] == val[Loc::Hdr { p, f: H_OBJ_SIZE as int }]);
    assert(wal[Loc::Hdr { p, f: H_START as int }] == val[Loc::Hdr { p, f: H_START as int }]);
    assert(wal[Loc::Hdr { p, f: H_END as int }] == val[Loc::Hdr { p, f: H_END as int }]);
    assert(wal[Loc::Hdr { p, f: H_CACHE as int }] == val[Loc::Hdr { p, f: H_CACHE as int }]);
}

/// What the header of a slab says.
pub proof fn lemma_slab_read(v: KmemView, val: Map<Loc, int>, p: int)
    requires
        slab_ok(v, val, p),
    ensures
        v.slabs[p].used.finite(),
        v.slabs[p].used.len() + v.slabs[p].free.len() == v.cap(p),
        v.slabs[p].free.len() > 0 ==> 0 <= v.slabs[p].free[0] < v.cap(p),
        val[Loc::Hdr { p, f: H_FREE_HEAD as int }] == v.free_obj(p, 0),
        val[Loc::Hdr { p, f: H_INUSE as int }] == v.slabs[p].used.len(),
        val[Loc::Hdr { p, f: H_FREE as int }] == v.slabs[p].free.len(),
        val[Loc::Hdr { p, f: H_CAPACITY as int }] == v.cap(p),
        val[Loc::Hdr { p, f: H_OBJ_SIZE as int }] == v.slabs[p].obj_size,
        val[Loc::Hdr { p, f: H_START as int }] == p,
        val[Loc::Hdr { p, f: H_END as int }] == p + PAGE_SIZE,
        val[Loc::Hdr { p, f: H_CACHE as int }] == v.slabs[p].cache,
        v.slabs[p].free.len() > 0 ==> val[Loc::Next { p, k: v.slabs[p].free[0] }] == v.free_obj(
            p,
            1,
        ),
        forall|k: int| 0 <= k < v.cap(p) ==> #[trigger] val[Loc::Back { p, k }] == p,
{
    reveal(slab_ok);
}

/// The records after the first free object of the slab at `p` was
/// taken in use: the header names the next free object and has the new
/// counts.
pub open spec fn pop_val(v: KmemView, val: Map<Loc, int>, p: int) -> Map<Loc, int> {
    val.insert(Loc::Hdr { p, f: H_FREE_HEAD as int }, v.free_obj(p, 1)).insert(
        Loc::Hdr { p, f: H_INUSE as int },
        v.slabs[p].used.len() as int + 1,
    ).insert(Loc::Hdr { p, f: H_FREE as int }, v.slabs[p].free.len() as int - 1)
}

/// Taking the first free object of a slab in use keeps the slab in step
/// with the model.
#[verifier::rlimit(50)]
pub proof fn lemma_pop(v: KmemView, val: Map<Loc, int>, p: int)
    requires
        slab_ok(v, val, p),
        v.slab_placed(p),
        v.slabs[p].free.len() > 0,
    ensures
        slab_ok(v.pop(p), pop_val(v, val, p), p),
        !v.slabs[p].used.contains(v.slabs[p].free[0]),
        !v.slabs[p].free.drop_first().contains(v.slabs[p].free[0]),
        forall|k: int|
            v.slabs[p].free.drop_first().contains(k) ==> #[trigger] v.slabs[p].free.contains(k),
{
    reveal(slab_ok);
    let w = v.pop(p);
    let sm = v.slabs[p];
    let wm = w.slabs[p];
    let k0 = sm.free[0];
    let wal = pop_val(v, val, p);
    assert(!sm.free.drop_first().contains(k0)) by {
        if sm.free.drop_first().contains(k0) {
            let t = choose|t: int|
                0 <= t < sm.free.drop_first().len() && sm.free.drop_first()[t] == k0;
            assert(sm.free[t + 1] == k0);
        }
    }
    assert forall|k: int| sm.free.drop_first().contains(k) implies #[trigger] sm.free.contains(
        k,
    ) by {
        let t = choose|t: int| 0 <= t < sm.free.drop_first().len() && sm.free.drop_first()[t] == k;
        assert(sm.free[t + 1] == k);
    }
    // The object was not in use: else more objects than the slab holds
    // would be free or in use.
    assert(!sm.used.contains(k0)) by {
        lemma_free_not_used(v, val, p, 0);
    }
    assert forall|t: int| 0 <= t < wm.free.len() implies 0 <= #[trigger] wm.free[t] < w.cap(p) by {
        assert(wm.free[t] == sm.free[t + 1]);
    }
    assert forall|t: int, u: int| 0 <= t < u < wm.free.len() implies #[trigger] wm.free[t]
        != #[trigger] wm.free[u] by {
        assert(wm.free[t] == sm.free[t + 1]);
        assert(wm.free[u] == sm.free[u + 1]);
    }
    assert forall|k: int| 0 <= k < w.cap(p) implies #[trigger] wal[Loc::Back { p, k }] == p by {
        assert(val[Loc::Back { p, k }] == p);
    }
    assert forall|t: int| 0 <= t < wm.free.len() implies wal[Loc::Next {
        p,
        k: #[trigger] wm.free[t],
    }] == w.free_obj(p, t + 1) by {
        assert(wm.free[t] == sm.free[t + 1]);
        assert(val[Loc::Next { p, k: sm.free[t + 1] }] == v.free_obj(p, t + 2));
        if t + 1 < wm.free.len() {
            assert(wm.free[t + 1] == sm.free[t + 2]);
        }
    }
    if wm.free.len() > 0 {
        assert(wm.free[0] == sm.free[1]);
    }
}

/// A free object of a slab is not in use.
pub proof fn lemma_free_not_used(v: KmemView, val: Map<Loc, int>, p: int, t: int)
    requires
        slab_ok(v, val, p),
        0 <= t < v.slabs[p].free.len(),
        v.slab_placed(p),
    ensures
        !v.slabs[p].used.contains(v.slabs[p].free[t]),
{
    assert(v.slabs[p].free.contains(v.slabs[p].free[t]));
}

/// Taking the first free object of a slab in use leaves every slab and
/// every cache record in its place; no new word is kept.
pub proof fn lemma_pop_layout(v: KmemView, val: Map<Loc, int>, p: int)
    requires
        v.layout_wf(),
        v.slabs.contains_key(p),
        slab_ok(v, val, p),
        v.slabs[p].free.len() > 0,
    ensures
        v.pop(p).layout_wf(),
        forall|loc: Loc| #[trigger]
            v.pop(p).valid(loc) ==> v.valid(loc) && v.pop(p).addr(loc) == v.addr(loc),
        v.valid(Loc::Next { p, k: v.slabs[p].free[0] }),
        v.valid(Loc::Back { p, k: v.slabs[p].free[0] }),
{
    let w = v.pop(p);
    lemma_placed(v, p, 0);
    lemma_pop(v, val, p);
    lemma_slab_read(v, val, p);
    assert(v.slabs[p].free.contains(v.slabs[p].free[0]));
    reveal(KmemView::layout_wf);
    assert forall|q: int| #[trigger] w.slabs.contains_key(q) implies w.slab_placed(q) by {
        assert(v.slabs.contains_key(q));
        assert(v.slab_placed(q));
    }
    assert forall|c: int| #[trigger] w.caches.contains_key(c) implies w.cache_placed(c) by {
        assert(v.cache_placed(c));
    }
}

/// The records after object `k` of the slab at `p` was given back: the
/// object links to the former first free object, and the header names
/// the object and has the new counts.
pub open spec fn push_val(v: KmemView, val: Map<Loc, int>, p: int, k: int) -> Map<Loc, int> {
    val.insert(Loc::Next { p, k }, v.free_obj(p, 0)).insert(
        Loc::Hdr { p, f: H_FREE_HEAD as int },
        v.obj(p, k),
    ).insert(Loc::Hdr { p, f: H_INUSE as int }, v.slabs[p].used.len() as int - 1).insert(
        Loc::Hdr { p, f: H_FREE as int },
        v.slabs[p].free.len() as int + 1,
    )
}

/// Giving an object in use back keeps the slab in step with the model.
#[verifier::rlimit(50)]
pub proof fn lemma_push(v: KmemView, val: Map<Loc, int>, p: int, k: int)
    requires
        slab_ok(v, val, p),
        v.slab_placed(p),
        v.slabs[p].used.contains(k),
    ensures
        slab_ok(v.push(p, k), push_val(v, val, p, k), p),
        v.slabs[p].used.len() >= 1,
{
    reveal(slab_ok);
    let w = v.push(p, k);
    let sm = v.slabs[p];
    let wm = w.slabs[p];
    let wal = push_val(v, val, p, k);
    assert forall|t: int| 0 <= t < wm.free.len() implies 0 <= #[trigger] wm.free[t] < w.cap(p) by {
        if t > 0 {
            assert(wm.free[t] == sm.free[t - 1]);
        }
    }
    assert forall|t: int, u: int| 0 <= t < u < wm.free.len() implies #[trigger] wm.free[t]
        != #[trigger] wm.free[u] by {
        assert(wm.free[u] == sm.free[u - 1]);
        assert(sm.free.contains(sm.free[u - 1]));
        if t > 0 {
            assert(wm.free[t] == sm.free[t - 1]);
        }
    }
    assert forall|j: int| 0 <= j < w.cap(p) implies #[trigger] wal[Loc::Back { p, k: j }] == p by {
        assert(val[Loc::Back { p, k: j }] == p);
    }
    assert forall|t: int| 0 <= t < wm.free.len() implies wal[Loc::Next {
        p,
        k: #[trigger] wm.free[t],
    }] == w.free_obj(p, t + 1) by {
        if t > 0 {
            assert(wm.free[t] == sm.free[t - 1]);
            assert(sm.free.contains(sm.free[t - 1]));
            assert(val[Loc::Next { p, k: sm.free[t - 1] }] == v.free_obj(p, t));
            if t + 1 < wm.free.len() {
                assert(wm.free[t + 1] == sm.free[t]);
            }
        } else if sm.free.len() > 0 {
            assert(wm.free[1] == sm.free[0]);
        }
    }
    assert(wm.free[0] == k);
}

/// Giving an object in use back leaves every slab and every cache record
/// in its place, provided that the object holds no cache record; the
/// words kept before are kept where they were.
pub proof fn lemma_push_layout(v: KmemView, val: Map<Loc, int>, p: int, k: int)
    requires
        v.layout_wf(),
        v.slabs.contains_key(p),
        slab_ok(v, val, p),
        v.slabs[p].used.contains(k),
        v.slabs[p].cache != v.master,
    ensures
        v.push(p, k).layout_wf(),
        forall|loc: Loc| #[trigger]
            v.valid(loc) ==> v.push(p, k).valid(loc) && v.push(p, k).addr(loc) == v.addr(loc),
        forall|loc: Loc| #[trigger]
            v.push(p, k).valid(loc) ==> v.valid(loc) || loc == (Loc::Next { p, k }),
        v.push(p, k).valid(Loc::Next { p, k }),
        0 <= k < v.cap(p),
{
    let w = v.push(p, k);
    let sm = v.slabs[p];
    lemma_placed(v, p, 0);
    reveal(KmemView::layout_wf);
    assert(w.slabs[p].free[0] == k);
    assert forall|j: int| sm.free.contains(j) implies #[trigger] w.slabs[p].free.contains(j) by {
        let t = choose|t: int| 0 <= t < sm.free.len() && sm.free[t] == j;
        assert(w.slabs[p].free[t + 1] == j);
    }
    assert forall|j: int| #[trigger] w.slabs[p].free.contains(j) implies sm.free.contains(j) || j
        == k by {
        let t = choose|t: int| 0 <= t < w.slabs[p].free.len() && w.slabs[p].free[t] == j;
        if t > 0 {
            assert(sm.free[t - 1] == j);
        }
    }
    assert forall|q: int| #[trigger] w.slabs.contains_key(q) implies w.slab_placed(q) by {
        assert(v.slabs.contains_key(q));
        assert(v.slab_placed(q));
    }
    assert forall|c: int| #[trigger] w.caches.contains_key(c) implies w.cache_placed(c) by {
        assert(v.cache_placed(c));
    }
}

/// The slabs of `l` are linked as list `id` of the cache at `c`: the
/// cache record names the first slab, and each slab names the next and
/// the previous one.
#[verifier::opaque]
pub open spec fn links_ok(l: Seq<int>, val: Map<Loc, int>, c: int, id: int) -> bool {
    &&& val[Loc::Cache { c, f: id }] == head(l)
    &&& forall|t: int|
        0 <= t < l.len() ==> {
            &&& #[trigger] l[t] != 0
            &&& val[Loc::Hdr { p: l[t], f: H_NEXT as int }] == at(l, t + 1)
            &&& val[Loc::Hdr { p: l[t], f: H_PREV as int }] == at(l, t - 1)
        }
    &&& forall|t: int, u: int| 0 <= t < u < l.len() ==> #[trigger] l[t] != #[trigger] l[u]
}

/// The slabs of `l` are slabs of the cache at `c`, marked as held by
/// its list `id`.
#[verifier::opaque]
pub open spec fn marks_ok(v: KmemView, l: Seq<int>, c: int, id: int) -> bool {
    forall|t: int|
        0 <= t < l.len() ==> {
            &&& v.slabs.contains_key(#[trigger] l[t])
            &&& v.slabs[l[t]].cache == c
            &&& v.slabs[l[t]].list == id
        }
}

/// List `id` of the cache at `c` is linked and marked as the model
/// says.
pub open spec fn list_ok(v: KmemView, val: Map<Loc, int>, c: int, id: int) -> bool {
    links_ok(v.list(c, id), val, c, id) && marks_ok(v, v.list(c, id), c, id)
}

/// Every list of every cache is linked as the model says.
#[verifier::opaque]
pub open spec fn lists_ok(v: KmemView, val: Map<Loc, int>) -> bool {
    forall|c: int, id: int|
        v.caches.contains_key(c) && 0 <= id <= 2 ==> #[trigger] list_ok(v, val, c, id)
}

/// What one list says.
pub proof fn lemma_list_read(v: KmemView, val: Map<Loc, int>, c: int, id: int, t: int)
    requires
        lists_ok(v, val),
        v.caches.contains_key(c),
        0 <= id <= 2,
    ensures
        list_ok(v, val, c, id),
        val[Loc::Cache { c, f: id }] == head(v.list(c, id)),
        0 <= t < v.list(c, id).len() ==> {
            let l = v.list(c, id);
            &&& v.slabs.contains_key(l[t])
            &&& l[t] != 0
            &&& v.slabs[l[t]].cache == c
            &&& v.slabs[l[t]].list == id
            &&& val[Loc::Hdr { p: l[t], f: H_NEXT as int }] == at(l, t + 1)
            &&& val[Loc::Hdr { p: l[t], f: H_PREV as int }] == at(l, t - 1)
            &&& forall|u: int| 0 <= u < l.len() && u != t ==> l[u] != l[t]
        },
{
    reveal(lists_ok);
    reveal(links_ok);
    reveal(marks_ok);
    assert(list_ok(v, val, c, id));
}

/// The links and the marks that the lists depend on are the same in
/// both states.
pub open spec fn same_links(v: KmemView, val: Map<Loc, int>, w: KmemView, wal: Map<Loc, int>) -> bool {
    &&& forall|c: int| #[trigger] w.caches.contains_key(c) ==> v.caches.contains_key(c)
    &&& forall|c: int, id: int|
        v.caches.contains_key(c) && 0 <= id <= 2 ==> #[trigger] w.list(c, id) == v.list(c, id)
    &&& forall|p: int| #[trigger]
        v.slabs.contains_key(p) && v.slabs[p].list >= 0 ==> w.slabs.contains_key(p)
            && w.slabs[p].cache == v.slabs[p].cache && w.slabs[p].list == v.slabs[p].list
    &&& forall|p: int|
        v.slabs.contains_key(p) && v.slabs[p].list >= 0 ==> #[trigger] wal[Loc::Hdr { p, f: 0 }]
            == val[Loc::Hdr { p, f: 0 }]
    &&& forall|p: int|
        v.slabs.contains_key(p) && v.slabs[p].list >= 0 ==> #[trigger] wal[Loc::Hdr { p, f: 1 }]
            == val[Loc::Hdr { p, f: 1 }]
    &&& forall|c: int, f: int|
        v.caches.contains_key(c) && 0 <= f <= 2 ==> #[trigger] wal[Loc::Cache { c, f }]
            == val[Loc::Cache { c, f }]
}

/// Lists whose links and marks are the same in two states are linked in
/// both as the model says.
#[verifier::rlimit(50)]
pub proof fn lemma_lists_frame(v: KmemView, val: Map<Loc, int>, w: KmemView, wal: Map<Loc, int>)
    requires
        lists_ok(v, val),
        same_links(v, val, w, wal),
    ensures
        lists_ok(w, wal),
{
    reveal(lists_ok);
    reveal(links_ok);
    reveal(marks_ok);
    assert forall|c: int, id: int| w.caches.contains_key(c) && 0 <= id <= 2 implies #[trigger] list_ok(
        w,
        wal,
        c,
        id,
    ) by {
        assert(v.caches.contains_key(c));
        assert(list_ok(v, val, c, id));
        let l = v.list(c, id);
        assert(w.list(c, id) == l);
        assert forall|t: int| 0 <= t < l.len() implies {
            &&& #[trigger] l[t] != 0
            &&& wal[Loc::Hdr { p: l[t], f: H_NEXT as int }] == at(l, t + 1)
            &&& wal[Loc::Hdr { p: l[t], f: H_PREV as int }] == at(l, t - 1)
        } by {
            assert(wal[Loc::Hdr { p: l[t], f: 0 }] == val[Loc::Hdr { p: l[t], f: 0 }]);
            assert(wal[Loc::Hdr { p: l[t], f: 1 }] == val[Loc::Hdr { p: l[t], f: 1 }]);
        }
        assert forall|t: int| 0 <= t < l.len() implies {
            &&& w.slabs.contains_key(#[trigger] l[t])
            &&& w.slabs[l[t]].cache == c
            &&& w.slabs[l[t]].list == id
        } by {
            assert(v.slabs.contains_key(l[t]));
        }
        assert(wal[Loc::Cache { c, f: id }] == val[Loc::Cache { c, f: id }]);
    }
}

/// The records after entry `t` left list `id` of the cache at `c`: the
/// slab before it, or the cache record where it was the first, names
/// the slab behind it, which names the slab before it.
pub open spec fn remove_val(v: KmemView, val: Map<Loc, int>, c: int, id: int, t: int) -> Map<
    Loc,
    int,
> {
    let l = v.list(c, id);
    let prev = at(l, t - 1);
    let next = at(l, t + 1);
    let val1 = if prev != 0 {
        val.insert(Loc::Hdr { p: prev, f: H_NEXT as int }, next)
    } else {
        val.insert(Loc::Cache { c, f: id }, next)
    };
    if next != 0 {
        val1.insert(Loc::Hdr { p: next, f: H_PREV as int }, prev)
    } else {
        val1
    }
}

/// The records after the slab at `p` became the first of list `id` of
/// the cache at `c`: the former first slab names it as the previous
/// one, it names the former first slab as the next one and no previous
/// one, and the cache record names it.
pub open spec fn push_front_val(v: KmemView, val: Map<Loc, int>, c: int, id: int, p: int) -> Map<
    Loc,
    int,
> {
    let first = head(v.list(c, id));
    let val1 = if first != 0 {
        val.insert(Loc::Hdr { p: first, f: H_PREV as int }, p)
    } else {
        val
    };
    val1.insert(Loc::Hdr { p, f: H_NEXT as int }, first).insert(
        Loc::Hdr { p, f: H_PREV as int },
        0,
    ).insert(Loc::Cache { c, f: id }, p)
}

/// `m` is `l` without its entry `t`.
pub open spec fn is_removed(l: Seq<int>, m: Seq<int>, t: int) -> bool {
    &&& 0 <= t < l.len()
    &&& m.len() == l.len() - 1
    &&& forall|u: int| 0 <= u < t ==> #[trigger] m[u] == l[u]
    &&& forall|u: int| t <= u < m.len() ==> #[trigger] m[u] == l[u + 1]
}

/// `wal` is `val` with the links around entry `t` of `l` closed.
pub open spec fn is_unlinked(
    l: Seq<int>,
    val: Map<Loc, int>,
    wal: Map<Loc, int>,
    c: int,
    id: int,
    t: int,
) -> bool {
    let prev = at(l, t - 1);
    let next = at(l, t + 1);
    &&& forall|q: int|
        q != prev ==> #[trigger] wal[Loc::Hdr { p: q, f: H_NEXT as int }] == val[Loc::Hdr {
            p: q,
            f: H_NEXT as int,
        }]
    &&& forall|q: int|
        q != next ==> #[trigger] wal[Loc::Hdr { p: q, f: H_PREV as int }] == val[Loc::Hdr {
            p: q,
            f: H_PREV as int,
        }]
    &&& prev != 0 ==> wal[Loc::Hdr { p: prev, f: H_NEXT as int }] == next
    &&& next != 0 ==> wal[Loc::Hdr { p: next, f: H_PREV as int }] == prev
    &&& wal[Loc::Cache { c, f: id }] == if prev != 0 {
        val[Loc::Cache { c, f: id }]
    } else {
        next
    }
}

/// Closing the links around an entry of a list links the rest.
#[verifier::rlimit(50)]
proof fn lemma_links_remove(
    l: Seq<int>,
    m: Seq<int>,
    val: Map<Loc, int>,
    wal: Map<Loc, int>,
    c: int,
    id: int,
    t: int,
)
    requires
        links_ok(l, val, c, id),
        is_removed(l, m, t),
        is_unlinked(l, val, wal, c, id, t),
    ensures
        links_ok(m, wal, c, id),
{
    reveal(links_ok);
    let p = l[t];
    assert forall|u: int| 0 <= u < m.len() implies {
        &&& #[trigger] m[u] != 0
        &&& wal[Loc::Hdr { p: m[u], f: H_NEXT as int }] == at(m, u + 1)
        &&& wal[Loc::Hdr { p: m[u], f: H_PREV as int }] == at(m, u - 1)
    } by {
        let o = if u < t { u } else { u + 1 };
        let q = l[o];
        assert(m[u] == q);
        assert(q != p);
        if t > 0 && o != t - 1 {
            assert(l[t - 1] != q);
        }
        if t + 1 < l.len() && o != t + 1 {
            assert(l[t + 1] != q);
        }
        if u + 1 < m.len() {
            assert(m[u + 1] == l[if u + 1 < t { u + 1 } else { u + 2 }]);
        }
        if u > 0 {
            assert(m[u - 1] == l[if u - 1 < t { u - 1 } else { u }]);
        }
    }
    assert forall|u: int, x: int| 0 <= u < x < m.len() implies #[trigger] m[u] != #[trigger] m[x] by {
        assert(m[u] == l[if u < t { u } else { u + 1 }]);
        assert(m[x] == l[if x < t { x } else { x + 1 }]);
    }
    if m.len() > 0 {
        assert(m[0] == l[if 0 < t { 0int } else { 1 }]);
    }
    if t > 0 {
        assert(l[t - 1] != 0);
        assert(l[0] != 0);
    }
}

/// Taking an entry out of a list keeps every list linked as the model
/// says.
#[verifier::rlimit(50)]
pub proof fn lemma_list_remove(v: KmemView, val: Map<Loc, int>, c: int, id: int, t: int)
    requires
        lists_ok(v, val),
        v.caches.contains_key(c),
        0 <= id <= 2,
        0 <= t < v.list(c, id).len(),
    ensures
        lists_ok(v.list_remove(c, id, t), remove_val(v, val, c, id, t)),
{
    let w = v.list_remove(c, id, t);
    let wal = remove_val(v, val, c, id, t);
    let l = v.list(c, id);
    let m = l.remove(t);
    lemma_list_read(v, val, c, id, t);
    lemma_list_read(v, val, c, id, t - 1);
    lemma_list_read(v, val, c, id, t + 1);
    assert(is_removed(l, m, t));
    assert(is_unlinked(l, val, wal, c, id, t));
    lemma_links_remove(l, m, val, wal, c, id, t);
    reveal(lists_ok);
    assert forall|c2: int, id2: int|
        w.caches.contains_key(c2) && 0 <= id2 <= 2 implies #[trigger] list_ok(w, wal, c2, id2) by {
        assert(v.caches.contains_key(c2));
        assert(list_ok(v, val, c2, id2));
        let l2 = v.list(c2, id2);
        if c2 == c && id2 == id {
            assert(w.list(c, id) == m);
            assert(marks_ok(w, m, c, id)) by {
                reveal(marks_ok);
                assert forall|u: int| 0 <= u < m.len() implies {
                    &&& w.slabs.contains_key(#[trigger] m[u])
                    &&& w.slabs[m[u]].cache == c
                    &&& w.slabs[m[u]].list == id
                } by {
                    let o = if u < t { u } else { u + 1 };
                    assert(m[u] == l[o]);
                    assert(v.slabs.contains_key(l[o]));
                }
            }
        } else {
            assert(w.list(c2, id2) == l2);
            lemma_links_other(v, val, wal, l2, c2, id2, c, id);
            assert(marks_ok(w, l2, c2, id2)) by {
                reveal(marks_ok);
                assert forall|u: int| 0 <= u < l2.len() implies {
                    &&& w.slabs.contains_key(#[trigger] l2[u])
                    &&& w.slabs[l2[u]].cache == c2
                    &&& w.slabs[l2[u]].list == id2
                } by {
                    assert(v.slabs.contains_key(l2[u]));
                }
            }
        }
    }
}

/// A list stays linked when the records change only in the links of
/// slabs of another list and in the head of that list.
proof fn lemma_links_other(
    v: KmemView,
    val: Map<Loc, int>,
    wal: Map<Loc, int>,
    l2: Seq<int>,
    c2: int,
    id2: int,
    c: int,
    id: int,
)
    requires
        links_ok(l2, val, c2, id2),
        marks_ok(v, l2, c2, id2),
        c2 != c || id2 != id,
        0 <= id2 <= 2,
        wal[Loc::Cache { c: c2, f: id2 }] == val[Loc::Cache { c: c2, f: id2 }],
        forall|q: int|
            v.slabs.contains_key(q) && !(v.slabs[q].cache == c && (v.slabs[q].list == id
                || v.slabs[q].list == -1)) ==> #[trigger] wal[Loc::Hdr { p: q, f: H_NEXT as int }]
                == val[Loc::Hdr { p: q, f: H_NEXT as int }],
        forall|q: int|
            v.slabs.contains_key(q) && !(v.slabs[q].cache == c && (v.slabs[q].list == id
                || v.slabs[q].list == -1)) ==> #[trigger] wal[Loc::Hdr { p: q, f: H_PREV as int }]
                == val[Loc::Hdr { p: q, f: H_PREV as int }],
    ensures
        links_ok(l2, wal, c2, id2),
{
    reveal(links_ok);
    reveal(marks_ok);
    assert forall|u: int| 0 <= u < l2.len() implies {
        &&& #[trigger] l2[u] != 0
        &&& wal[Loc::Hdr { p: l2[u], f: H_NEXT as int }] == at(l2, u + 1)
        &&& wal[Loc::Hdr { p: l2[u], f: H_PREV as int }] == at(l2, u - 1)
    } by {
        assert(v.slabs.contains_key(l2[u]));
    }
}

/// Putting a slab that no list holds at the head of a list keeps every
/// list linked as the model says.
#[verifier::rlimit(50)]
pub proof fn lemma_list_push(v: KmemView, val: Map<Loc, int>, c: int, id: int, p: int)
    requires
        lists_ok(v, val),
        v.caches.contains_key(c),
        0 <= id <= 2,
        v.slabs.contains_key(p),
        p != 0,
        v.slabs[p].cache == c,
        v.slabs[p].list == -1,
    ensures
        lists_ok(v.list_push(c, id, p), push_front_val(v, val, c, id, p)),
{
    let w = v.list_push(c, id, p);
    let wal = push_front_val(v, val, c, id, p);
    let l = v.list(c, id);
    let m = seq![p] + l;
    lemma_list_read(v, val, c, id, 0);
    assert(links_ok(m, wal, c, id)) by {
        reveal(links_ok);
        reveal(marks_ok);
        assert forall|u: int| 0 <= u < m.len() implies {
            &&& #[trigger] m[u] != 0
            &&& wal[Loc::Hdr { p: m[u], f: H_NEXT as int }] == at(m, u + 1)
            &&& wal[Loc::Hdr { p: m[u], f: H_PREV as int }] == at(m, u - 1)
        } by {
            if u > 0 {
                assert(m[u] == l[u - 1]);
                assert(v.slabs[l[u - 1]].list == id);
                if u > 1 {
                    assert(l[0] != l[u - 1]);
                    assert(m[u - 1] == l[u - 2]);
                }
                if u + 1 < m.len() {
                    assert(m[u + 1] == l[u]);
                }
            } else if l.len() > 0 {
                assert(m[1] == l[0]);
            }
        }
        assert forall|u: int, x: int| 0 <= u < x < m.len() implies #[trigger] m[u]
            != #[trigger] m[x] by {
            assert(m[x] == l[x - 1]);
            assert(v.slabs[l[x - 1]].list == id);
            if u > 0 {
                assert(m[u] == l[u - 1]);
            }
        }
    }
    reveal(lists_ok);
    assert forall|c2: int, id2: int|
        w.caches.contains_key(c2) && 0 <= id2 <= 2 implies #[trigger] list_ok(w, wal, c2, id2) by {
        assert(v.caches.contains_key(c2));
        assert(list_ok(v, val, c2, id2));
        let l2 = v.list(c2, id2);
        if c2 == c && id2 == id {
            assert(w.list(c, id) == m);
            assert(marks_ok(w, m, c, id)) by {
                reveal(marks_ok);
                assert forall|u: int| 0 <= u < m.len() implies {
                    &&& w.slabs.contains_key(#[trigger] m[u])
                    &&& w.slabs[m[u]].cache == c
                    &&& w.slabs[m[u]].list == id
                } by {
                    if u > 0 {
                        assert(m[u] == l[u - 1]);
                        assert(v.slabs.contains_key(l[u - 1]));
                    }
                }
            }
        } else {
            assert(w.list(c2, id2) == l2);
            if l.len() > 0 {
                assert(v.slabs[l[0]].cache == c && v.slabs[l[0]].list == id);
            }
            lemma_links_other(v, val, wal, l2, c2, id2, c, id);
            assert(marks_ok(w, l2, c2, id2)) by {
                reveal(marks_ok);
                assert forall|u: int| 0 <= u < l2.len() implies {
                    &&& w.slabs.contains_key(#[trigger] l2[u])
                    &&& w.slabs[l2[u]].cache == c2
                    &&& w.slabs[l2[u]].list == id2
                } by {
                    assert(v.slabs.contains_key(l2[u]));
                }
            }
        }
    }
}

/// Number of free objects of a slab, or of objects in use.
pub open spec fn measure(sm: SlabModel, free: bool) -> int {
    if free {
        sm.free.len() as int
    } else {
        sm.used.len() as int
    }
}

/// Free objects, or objects in use, in the slabs of `l`.
pub open spec fn sum(slabs: Map<int, SlabModel>, l: Seq<int>, free: bool) -> int
    decreases l.len(),
{
    if l.len() == 0 {
        0
    } else {
        sum(slabs, l.drop_last(), free) + measure(slabs[l.last()], free)
    }
}

/// The sum over a list depends on the slabs of the list only.
pub proof fn lemma_sum_frame(
    s1: Map<int, SlabModel>,
    s2: Map<int, SlabModel>,
    l: Seq<int>,
    free: bool,
)
    requires
        forall|t: int| 0 <= t < l.len() ==> measure(s2[#[trigger] l[t]], free) == measure(s1[l[t]], free),
    ensures
        sum(s2, l, free) == sum(s1, l, free),
    decreases l.len(),
{
    if l.len() > 0 {
        let h = l.drop_last();
        assert forall|t: int| 0 <= t < h.len() implies measure(s2[#[trigger] h[t]], free)
            == measure(s1[h[t]], free) by {
            assert(h[t] == l[t]);
        }
        lemma_sum_frame(s1, s2, h, free);
        assert(l.last() == l[l.len() - 1]);
    }
}

/// The sum over a list with a new first slab.
pub proof fn lemma_sum_push(slabs: Map<int, SlabModel>, l: Seq<int>, p: int, free: bool)
    ensures
        sum(slabs, seq![p] + l, free) == sum(slabs, l, free) + measure(slabs[p], free),
    decreases l.len(),
{
    let m = seq![p] + l;
    if l.len() == 0 {
        assert(m.drop_last() =~= Seq::<int>::empty());
        assert(m.last() == p);
        assert(sum(slabs, m.drop_last(), free) == 0);
    } else {
        assert(m.drop_last() =~= seq![p] + l.drop_last());
        assert(m.last() == l.last());
        lemma_sum_push(slabs, l.drop_last(), p, free);
    }
}

/// The sum over a list without one of its slabs.
pub proof fn lemma_sum_remove(slabs: Map<int, SlabModel>, l: Seq<int>, t: int, free: bool)
    requires
        0 <= t < l.len(),
    ensures
        sum(slabs, l.remove(t), free) == sum(slabs, l, free) - measure(slabs[l[t]], free),
    decreases l.len(),
{
    let m = l.remove(t);
    if t == l.len() - 1 {
        assert(m =~= l.drop_last());
    } else {
        assert(m.drop_last() =~= l.drop_last().remove(t));
        assert(m.last() == l.last());
        lemma_sum_remove(slabs, l.drop_last(), t, free);
        assert(l.drop_last()[t] == l[t]);
    }
}

/// The sum over a list of which one slab changed.
pub proof fn lemma_sum_update(
    slabs: Map<int, SlabModel>,
    l: Seq<int>,
    t: int,
    sm: SlabModel,
    free: bool,
)
    requires
        0 <= t < l.len(),
        forall|u: int| 0 <= u < l.len() && u != t ==> l[u] != l[t],
    ensures
        sum(slabs.insert(l[t], sm), l, free) == sum(slabs, l, free) - measure(slabs[l[t]], free)
            + measure(sm, free),
{
    let s2 = slabs.insert(l[t], sm);
    let m = l.remove(t);
    lemma_sum_remove(slabs, l, t, free);
    lemma_sum_remove(s2, l, t, free);
    assert forall|u: int| 0 <= u < m.len() implies measure(s2[#[trigger] m[u]], free) == measure(
        slabs[m[u]],
        free,
    ) by {
        assert(m[u] == l[if u < t { u } else { u + 1 }]);
    }
    lemma_sum_frame(slabs, s2, m, free);
}

impl KmemView {
    /// Free objects, or objects in use, in all slabs of the cache at
    /// `c`.
    pub open spec fn count(self, c: int, free: bool) -> int {
        sum(self.slabs, self.caches[c].full, free) + sum(self.slabs, self.caches[c].partial, free)
            + sum(self.slabs, self.caches[c].free, free)
    }
}

/// The record of the cache at `c` has the object size of the cache and
/// the numbers of its objects: all of them, those in use, and the free
/// ones.
#[verifier::opaque]
pub open spec fn count_ok(v: KmemView, val: Map<Loc, int>, c: int) -> bool {
    &&& valid_class(v.caches[c].obj_size)
    &&& val[Loc::Cache { c, f: C_OBJ_SIZE as int }] == v.caches[c].obj_size
    &&& val[Loc::Cache { c, f: C_OBJ_NUM as int }] == slab_capacity(v.caches[c].obj_size)
    &&& val[Loc::Cache { c, f: C_OBJ_TOTAL as int }] == v.count(c, true) + v.count(c, false)
    &&& val[Loc::Cache { c, f: C_OBJ_ACTIVE as int }] == v.count(c, false)
    &&& val[Loc::Cache { c, f: C_OBJ_FREE as int }] == v.count(c, true)
    &&& v.count(c, true) + v.count(c, false) <= usize::MAX
}

/// The record of every cache has the numbers of its objects.
#[verifier::opaque]
pub open spec fn counts_ok(v: KmemView, val: Map<Loc, int>) -> bool {
    forall|c: int| #[trigger] v.caches.contains_key(c) ==> count_ok(v, val, c)
}

/// The caches are the master cache and the caches of the chain, which
/// the records link from the master cache on.
#[verifier::opaque]
pub open spec fn chain_ok(v: KmemView, val: Map<Loc, int>) -> bool {
    &&& v.caches.contains_key(v.master)
    &&& v.caches[v.master].obj_size == MASTER_CLASS
    &&& v.master != 0
    &&& val[Loc::Cache { c: v.master, f: C_NEXT as int }] == head(v.chain)
    &&& forall|i: int|
        0 <= i < v.chain.len() ==> {
            &&& v.caches.contains_key(#[trigger] v.chain[i])
            &&& v.chain[i] != 0
            &&& v.chain[i] != v.master
            &&& val[Loc::Cache { c: v.chain[i], f: C_NEXT as int }] == at(v.chain, i + 1)
        }
    &&& forall|i: int, j: int|
        0 <= i < j < v.chain.len() ==> #[trigger] v.chain[i] != #[trigger] v.chain[j]
    &&& forall|c: int| #[trigger] v.caches.contains_key(c) ==> c == v.master || v.chain.contains(c)
}

/// Every slab belongs to a cache with its object size and is held by
/// the list of that cache that it is marked with.
#[verifier::opaque]
pub open spec fn listed(v: KmemView) -> bool {
    forall|p: int| #[trigger]
        v.slabs.contains_key(p) ==> {
            &&& p != 0
            &&& v.caches.contains_key(v.slabs[p].cache)
            &&& v.slabs[p].obj_size == v.caches[v.slabs[p].cache].obj_size
            &&& 0 <= v.slabs[p].list <= 2
            &&& v.list(v.slabs[p].cache, v.slabs[p].list).contains(p)
        }
}

/// Every slab is held by the list in which it belongs.
#[verifier::opaque]
pub open spec fn settled(v: KmemView) -> bool {
    forall|p: int| #[trigger] v.slabs.contains_key(p) ==> v.slabs[p].list == v.slabs[p].state()
}

/// The records say what the model says, and every slab is in a list of
/// its cache.
pub open spec fn inv(v: KmemView, val: Map<Loc, int>) -> bool {
    &&& slabs_ok(v, val)
    &&& lists_ok(v, val)
    &&& counts_ok(v, val)
    &&& chain_ok(v, val)
    &&& listed(v)
}

/// Where a slab is listed.
pub proof fn lemma_listed(v: KmemView, p: int) -> (t: int)
    requires
        listed(v),
        v.slabs.contains_key(p),
    ensures
        p != 0,
        v.caches.contains_key(v.slabs[p].cache),
        v.slabs[p].obj_size == v.caches[v.slabs[p].cache].obj_size,
        0 <= v.slabs[p].list <= 2,
        0 <= t < v.list(v.slabs[p].cache, v.slabs[p].list).len(),
        v.list(v.slabs[p].cache, v.slabs[p].list)[t] == p,
{
    reveal(listed);
    let l = v.list(v.slabs[p].cache, v.slabs[p].list);
    assert(l.contains(p));
    choose|t: int| 0 <= t < l.len() && l[t] == p
}

/// The number of objects of a cache when the slab at `p` changes: the
/// numbers of the cache of the slab change as the slab does, those of
/// the other caches stay.
#[verifier::rlimit(50)]
pub proof fn lemma_count_update(v: KmemView, val: Map<Loc, int>, p: int, sm: SlabModel, c: int, free: bool)
    requires
        lists_ok(v, val),
        listed(v),
        v.slabs.contains_key(p),
        v.caches.contains_key(c),
    ensures
        v.with_slab(p, sm).count(c, free) == v.count(c, free) + (if c == v.slabs[p].cache {
            measure(sm, free) - measure(v.slabs[p], free)
        } else {
            0
        }),
{
    let w = v.with_slab(p, sm);
    let t = lemma_listed(v, p);
    let pc = v.slabs[p].cache;
    let pl = v.slabs[p].list;
    assert forall|id: int| 0 <= id <= 2 implies sum(w.slabs, #[trigger] v.list(c, id), free) == sum(
        v.slabs,
        v.list(c, id),
        free,
    ) + (if c == pc && id == pl {
        measure(sm, free) - measure(v.slabs[p], free)
    } else {
        0
    }) by {
        let l = v.list(c, id);
        if c == pc && id == pl {
            lemma_list_read(v, val, c, id, t);
            lemma_sum_update(v.slabs, l, t, sm, free);
        } else {
            assert forall|u: int| 0 <= u < l.len() implies measure(w.slabs[#[trigger] l[u]], free)
                == measure(v.slabs[l[u]], free) by {
                lemma_list_read(v, val, c, id, u);
            }
            lemma_sum_frame(v.slabs, w.slabs, l, free);
        }
    }
    assert(v.list(c, 0) == v.caches[c].full);
    assert(v.list(c, 1) == v.caches[c].partial);
    assert(v.list(c, 2) == v.caches[c].free);
}

/// No sum of objects is negative.
pub proof fn lemma_sum_nonneg(slabs: Map<int, SlabModel>, l: Seq<int>, free: bool)
    ensures
        sum(slabs, l, free) >= 0,
    decreases l.len(),
{
    if l.len() > 0 {
        lemma_sum_nonneg(slabs, l.drop_last(), free);
    }
}

/// A cache has at least the objects of each of its slabs.
pub proof fn lemma_count_member(v: KmemView, val: Map<Loc, int>, p: int, free: bool)
    requires
        lists_ok(v, val),
        listed(v),
        v.slabs.contains_key(p),
    ensures
        v.caches.contains_key(v.slabs[p].cache),
        v.count(v.slabs[p].cache, free) >= measure(v.slabs[p], free),
{
    let c = v.slabs[p].cache;
    let t = lemma_listed(v, p);
    let none = SlabModel { free: Seq::empty(), used: Set::empty(), ..v.slabs[p] };
    lemma_count_update(v, val, p, none, c, free);
    let w = v.with_slab(p, none);
    lemma_sum_nonneg(w.slabs, w.caches[c].full, free);
    lemma_sum_nonneg(w.slabs, w.caches[c].partial, free);
    lemma_sum_nonneg(w.slabs, w.caches[c].free, free);
}

/// The chain stays as the records link it when neither it nor the links
/// change.
pub proof fn lemma_chain_frame(v: KmemView, val: Map<Loc, int>, w: KmemView, wal: Map<Loc, int>)
    requires
        chain_ok(v, val),
        w.chain == v.chain,
        w.master == v.master,
        forall|c: int| #[trigger] w.caches.contains_key(c) <==> v.caches.contains_key(c),
        w.caches[v.master].obj_size == v.caches[v.master].obj_size,
        forall|c: int|
            v.caches.contains_key(c) ==> #[trigger] wal[Loc::Cache { c, f: C_NEXT as int }]
                == val[Loc::Cache { c, f: C_NEXT as int }],
    ensures
        chain_ok(w, wal),
{
    reveal(chain_ok);
    assert forall|i: int| 0 <= i < w.chain.len() implies {
        &&& w.caches.contains_key(#[trigger] w.chain[i])
        &&& w.chain[i] != 0
        &&& w.chain[i] != w.master
        &&& wal[Loc::Cache { c: w.chain[i], f: C_NEXT as int }] == at(w.chain, i + 1)
    } by {
        assert(v.caches.contains_key(v.chain[i]));
    }
    assert forall|c: int| #[trigger] w.caches.contains_key(c) implies c == w.master
        || w.chain.contains(c) by {
        assert(v.caches.contains_key(c));
    }
}

/// The slabs that change only in what they hold, not in where they are
/// listed, stay listed.
pub proof fn lemma_listed_frame(v: KmemView, w: KmemView)
    requires
        listed(v),
        forall|p: int| #[trigger] w.slabs.contains_key(p) ==> v.slabs.contains_key(p),
        w.caches == v.caches,
        forall|p: int| #[trigger]
            v.slabs.contains_key(p) ==> w.slabs[p].cache == v.slabs[p].cache && w.slabs[p].list
                == v.slabs[p].list && w.slabs[p].obj_size == v.slabs[p].obj_size,
    ensures
        listed(w),
{
    reveal(listed);
    assert forall|p: int| #[trigger] w.slabs.contains_key(p) implies {
        &&& p != 0
        &&& w.caches.contains_key(w.slabs[p].cache)
        &&& w.slabs[p].obj_size == w.caches[w.slabs[p].cache].obj_size
        &&& 0 <= w.slabs[p].list <= 2
        &&& w.list(w.slabs[p].cache, w.slabs[p].list).contains(p)
    } by {
        assert(v.slabs.contains_key(p));
    }
}

/// The slab at `p` says what the model says when only other slabs and
/// words that do not describe a slab change.
pub proof fn lemma_slabs_update(
    v: KmemView,
    val: Map<Loc, int>,
    w: KmemView,
    wal: Map<Loc, int>,
    p: int,
)
    requires
        slabs_ok(v, val),
        w.slabs.contains_key(p) ==> slab_ok(w, wal, p),
        forall|q: int| #[trigger] w.slabs.contains_key(q) && q != p ==> v.slabs.contains_key(q),
        forall|q: int| #[trigger]
            v.slabs.contains_key(q) && q != p ==> same_slab(v, val, w, wal, q),
    ensures
        slabs_ok(w, wal),
{
    reveal(slabs_ok);
    assert forall|q: int| #[trigger] w.slabs.contains_key(q) implies slab_ok(w, wal, q) by {
        if q != p {
            assert(v.slabs.contains_key(q));
            assert(same_slab(v, val, w, wal, q));
            lemma_slab_frame(v, val, w, wal, q);
        }
    }
}

/// The records after the first free object of the slab at `p` was
/// taken in use and the cache of the slab counted it.
pub open spec fn take_val(v: KmemView, val: Map<Loc, int>, p: int) -> Map<Loc, int> {
    let c = v.slabs[p].cache;
    pop_val(v, val, p).insert(Loc::Cache { c, f: C_OBJ_FREE as int }, v.count(c, true) - 1).insert(
        Loc::Cache { c, f: C_OBJ_ACTIVE as int },
        v.count(c, false) + 1,
    )
}

/// The records after object `k` of the slab at `p` was given back and
/// the cache of the slab counted it.
pub open spec fn give_val(v: KmemView, val: Map<Loc, int>, p: int, k: int) -> Map<Loc, int> {
    let c = v.slabs[p].cache;
    push_val(v, val, p, k).insert(
        Loc::Cache { c, f: C_OBJ_FREE as int },
        v.count(c, true) + 1,
    ).insert(Loc::Cache { c, f: C_OBJ_ACTIVE as int }, v.count(c, false) - 1)
}

/// What the record of a cache says.
pub proof fn lemma_count_read(v: KmemView, val: Map<Loc, int>, c: int)
    requires
        counts_ok(v, val),
        v.caches.contains_key(c),
    ensures
        valid_class(v.caches[c].obj_size),
        val[Loc::Cache { c, f: C_OBJ_SIZE as int }] == v.caches[c].obj_size,
        val[Loc::Cache { c, f: C_OBJ_NUM as int }] == slab_capacity(v.caches[c].obj_size),
        val[Loc::Cache { c, f: C_OBJ_TOTAL as int }] == v.count(c, true) + v.count(c, false),
        val[Loc::Cache { c, f: C_OBJ_ACTIVE as int }] == v.count(c, false),
        val[Loc::Cache { c, f: C_OBJ_FREE as int }] == v.count(c, true),
        v.count(c, true) + v.count(c, false) <= usize::MAX,
        v.count(c, true) >= 0,
        v.count(c, false) >= 0,
{
    reveal(counts_ok);
    reveal(count_ok);
    lemma_sum_nonneg(v.slabs, v.caches[c].full, true);
    lemma_sum_nonneg(v.slabs, v.caches[c].partial, true);
    lemma_sum_nonneg(v.slabs, v.caches[c].free, true);
    lemma_sum_nonneg(v.slabs, v.caches[c].full, false);
    lemma_sum_nonneg(v.slabs, v.caches[c].partial, false);
    lemma_sum_nonneg(v.slabs, v.caches[c].free, false);
}

/// A change of what the slab at `p` holds, counted in the record of its
/// cache, keeps the records of all caches in step with the model.
#[verifier::rlimit(50)]
proof fn lemma_counts_slab(
    v: KmemView,
    val: Map<Loc, int>,
    p: int,
    sm: SlabModel,
    wal: Map<Loc, int>,
)
    requires
        lists_ok(v, val),
        listed(v),
        counts_ok(v, val),
        v.slabs.contains_key(p),
        measure(sm, true) + measure(sm, false) == measure(v.slabs[p], true) + measure(
            v.slabs[p],
            false,
        ),
        forall|c: int, f: int|
            v.caches.contains_key(c) && C_OBJ_SIZE <= f <= C_OBJ_TOTAL ==> #[trigger] wal[Loc::Cache {
                c,
                f,
            }] == val[Loc::Cache { c, f }],
        forall|c: int, f: int|
            v.caches.contains_key(c) && C_OBJ_ACTIVE <= f <= C_OBJ_FREE && c != v.slabs[p].cache
                ==> #[trigger] wal[Loc::Cache { c, f }] == val[Loc::Cache { c, f }],
        wal[Loc::Cache { c: v.slabs[p].cache, f: C_OBJ_FREE as int }] == v.count(
            v.slabs[p].cache,
            true,
        ) + measure(sm, true) - measure(v.slabs[p], true),
        wal[Loc::Cache { c: v.slabs[p].cache, f: C_OBJ_ACTIVE as int }] == v.count(
            v.slabs[p].cache,
            false,
        ) + measure(sm, false) - measure(v.slabs[p], false),
    ensures
        counts_ok(v.with_slab(p, sm), wal),
{
    let w = v.with_slab(p, sm);
    assert forall|c: int| #[trigger] w.caches.contains_key(c) implies count_ok(w, wal, c) by {
        lemma_count_read(v, val, c);
        lemma_count_update(v, val, p, sm, c, true);
        lemma_count_update(v, val, p, sm, c, false);
        assert(wal[Loc::Cache { c, f: C_OBJ_SIZE as int }] == val[Loc::Cache {
            c,
            f: C_OBJ_SIZE as int,
        }]);
        assert(wal[Loc::Cache { c, f: C_OBJ_NUM as int }] == val[Loc::Cache {
            c,
            f: C_OBJ_NUM as int,
        }]);
        assert(wal[Loc::Cache { c, f: C_OBJ_TOTAL as int }] == val[Loc::Cache {
            c,
            f: C_OBJ_TOTAL as int,
        }]);
        if c != v.slabs[p].cache {
            assert(wal[Loc::Cache { c, f: C_OBJ_ACTIVE as int }] == val[Loc::Cache {
                c,
                f: C_OBJ_ACTIVE as int,
            }]);
            assert(wal[Loc::Cache { c, f: C_OBJ_FREE as int }] == val[Loc::Cache {
                c,
                f: C_OBJ_FREE as int,
            }]);
        }
        reveal(count_ok);
    }
    reveal(counts_ok);
}

/// Taking the first free object of a slab in use, and counting it,
/// keeps the records in step with the model.
pub proof fn lemma_step_pop(v: KmemView, val: Map<Loc, int>, p: int)
    requires
        v.layout_wf(),
        inv(v, val),
        v.slabs.contains_key(p),
        v.slabs[p].free.len() > 0,
    ensures
        inv(v.pop(p), take_val(v, val, p)),
        v.caches.contains_key(v.slabs[p].cache),
        v.count(v.slabs[p].cache, true) >= 1,
        v.count(v.slabs[p].cache, false) + 1 <= usize::MAX,
{
    let w = v.pop(p);
    let wal = take_val(v, val, p);
    let c = v.slabs[p].cache;
    lemma_placed(v, p, 0);
    lemma_count_member(v, val, p, true);
    lemma_count_read(v, val, c);
    assert(slab_ok(v, val, p)) by {
        reveal(slabs_ok);
    }
    lemma_pop(v, val, p);
    lemma_slab_read(v, val, p);
    lemma_slab_frame(w, pop_val(v, val, p), w, wal, p);
    lemma_slabs_update(v, val, w, wal, p);
    lemma_lists_frame(v, val, w, wal);
    lemma_counts_slab(v, val, p, w.slabs[p], wal);
    lemma_chain_frame(v, val, w, wal);
    lemma_listed_frame(v, w);
}

/// Giving an object in use back, and counting it, keeps the records in
/// step with the model.
pub proof fn lemma_step_push(v: KmemView, val: Map<Loc, int>, p: int, k: int)
    requires
        v.layout_wf(),
        inv(v, val),
        v.slabs.contains_key(p),
        v.slabs[p].used.contains(k),
    ensures
        inv(v.push(p, k), give_val(v, val, p, k)),
        v.caches.contains_key(v.slabs[p].cache),
        v.count(v.slabs[p].cache, false) >= 1,
        v.count(v.slabs[p].cache, true) + 1 <= usize::MAX,
{
    let w = v.push(p, k);
    let wal = give_val(v, val, p, k);
    let c = v.slabs[p].cache;
    lemma_placed(v, p, 0);
    lemma_count_member(v, val, p, false);
    lemma_count_member(v, val, p, true);
    lemma_count_read(v, val, c);
    assert(slab_ok(v, val, p)) by {
        reveal(slabs_ok);
    }
    lemma_push(v, val, p, k);
    lemma_slab_read(v, val, p);
    lemma_slab_frame(w, push_val(v, val, p, k), w, wal, p);
    lemma_slabs_update(v, val, w, wal, p);
    lemma_lists_frame(v, val, w, wal);
    lemma_counts_slab(v, val, p, w.slabs[p], wal);
    lemma_chain_frame(v, val, w, wal);
    lemma_listed_frame(v, w);
}

/// The records after a slab moved from one list of its cache to the
/// head of another.
pub open spec fn move_val(v: KmemView, val: Map<Loc, int>, c: int, from: int, t: int, to: int) -> Map<
    Loc,
    int,
> {
    push_front_val(
        v.list_remove(c, from, t),
        remove_val(v, val, c, from, t),
        c,
        to,
        v.list(c, from)[t],
    )
}

/// A move of a slab between two lists of its cache changes no number of
/// objects of any cache.
#[verifier::rlimit(50)]
proof fn lemma_count_move(v: KmemView, c: int, from: int, t: int, to: int, c2: int, free: bool)
    requires
        v.caches.contains_key(c),
        v.caches.contains_key(c2),
        0 <= from <= 2,
        0 <= to <= 2,
        from != to,
        0 <= t < v.list(c, from).len(),
    ensures
        v.moved(c, from, t, to).count(c2, free) == v.count(c2, free),
{
    let w = v.moved(c, from, t, to);
    let p = v.list(c, from)[t];
    assert forall|q: int| measure(#[trigger] w.slabs[q], free) == measure(v.slabs[q], free) by {}
    assert forall|id: int| 0 <= id <= 2 implies sum(w.slabs, #[trigger] w.list(c2, id), free) == sum(
        v.slabs,
        v.list(c2, id),
        free,
    ) + (if c2 == c && id == from {
        -measure(v.slabs[p], free)
    } else if c2 == c && id == to {
        measure(v.slabs[p], free)
    } else {
        0
    }) by {
        let l = v.list(c2, id);
        let m = w.list(c2, id);
        lemma_sum_frame(v.slabs, w.slabs, m, free);
        if c2 == c && id == from {
            assert(m == l.remove(t));
            lemma_sum_remove(v.slabs, l, t, free);
        } else if c2 == c && id == to {
            assert(m == seq![p] + l);
            lemma_sum_push(v.slabs, l, p, free);
        } else {
            assert(m == l);
        }
    }
    assert(w.list(c2, 0) == w.caches[c2].full);
    assert(w.list(c2, 1) == w.caches[c2].partial);
    assert(w.list(c2, 2) == w.caches[c2].free);
    assert(v.list(c2, 0) == v.caches[c2].full);
    assert(v.list(c2, 1) == v.caches[c2].partial);
    assert(v.list(c2, 2) == v.caches[c2].free);
}

/// After a move of a slab between two lists of its cache every slab is
/// held by the list that it is marked with.
#[verifier::rlimit(50)]
proof fn lemma_listed_move(v: KmemView, val: Map<Loc, int>, c: int, from: int, t: int, to: int)
    requires
        listed(v),
        lists_ok(v, val),
        v.caches.contains_key(c),
        0 <= from <= 2,
        0 <= to <= 2,
        from != to,
        0 <= t < v.list(c, from).len(),
    ensures
        listed(v.moved(c, from, t, to)),
{
    let w = v.moved(c, from, t, to);
    let l = v.list(c, from);
    let p = l[t];
    lemma_list_read(v, val, c, from, t);
    assert forall|q: int| #[trigger] w.slabs.contains_key(q) implies {
        &&& q != 0
        &&& w.caches.contains_key(w.slabs[q].cache)
        &&& w.slabs[q].obj_size == w.caches[w.slabs[q].cache].obj_size
        &&& 0 <= w.slabs[q].list <= 2
        &&& w.list(w.slabs[q].cache, w.slabs[q].list).contains(q)
    } by {
        assert(v.slabs.contains_key(q));
        let u = lemma_listed(v, q);
        let qc = v.slabs[q].cache;
        let ql = v.slabs[q].list;
        if q == p {
            assert(w.list(c, to)[0] == p);
        } else if qc == c && ql == from {
            let m = w.list(c, from);
            assert(m == l.remove(t));
            assert(m[if u < t { u } else { u - 1 }] == q);
        } else if qc == c && ql == to {
            let m = w.list(c, to);
            assert(m == seq![p] + v.list(c, to));
            assert(m[u + 1] == q);
        } else {
            assert(w.list(qc, ql) == v.list(qc, ql));
            assert(w.list(qc, ql)[u] == q);
        }
    }
    reveal(listed);
}

/// A move of a slab from one list of its cache to the head of another
/// keeps the records in step with the model.
pub proof fn lemma_step_move(v: KmemView, val: Map<Loc, int>, c: int, from: int, t: int, to: int)
    requires
        inv(v, val),
        v.caches.contains_key(c),
        0 <= from <= 2,
        0 <= to <= 2,
        from != to,
        0 <= t < v.list(c, from).len(),
    ensures
        inv(v.moved(c, from, t, to), move_val(v, val, c, from, t, to)),
{
    let w = v.moved(c, from, t, to);
    let wal = move_val(v, val, c, from, t, to);
    let v1 = v.list_remove(c, from, t);
    let val1 = remove_val(v, val, c, from, t);
    let p = v.list(c, from)[t];
    lemma_list_read(v, val, c, from, t);
    lemma_list_remove(v, val, c, from, t);
    lemma_list_push(v1, val1, c, to, p);
    assert(slab_ok(v, val, p)) by {
        reveal(slabs_ok);
    }
    lemma_slab_frame(v, val, w, wal, p);
    lemma_slabs_update(v, val, w, wal, p);
    assert forall|c2: int| #[trigger] w.caches.contains_key(c2) implies count_ok(w, wal, c2) by {
        lemma_count_read(v, val, c2);
        lemma_count_move(v, c, from, t, to, c2, true);
        lemma_count_move(v, c, from, t, to, c2, false);
        reveal(count_ok);
    }
    reveal(counts_ok);
    lemma_chain_frame(v, val, w, wal);
    lemma_listed_move(v, val, c, from, t, to);
}

/// After a slab whose state changed moved to the list in which it
/// belongs, every slab is held by the list in which it belongs.
pub proof fn lemma_settled_move(v: KmemView, w: KmemView, p: int)
    requires
        settled(v),
        forall|q: int| #[trigger] w.slabs.contains_key(q) && q != p ==> v.slabs.contains_key(q),
        forall|q: int| #[trigger]
            w.slabs.contains_key(q) && q != p ==> w.slabs[q].list == v.slabs[q].list
                && w.slabs[q].free == v.slabs[q].free && w.slabs[q].used == v.slabs[q].used,
        w.slabs.contains_key(p) ==> w.slabs[p].list == w.slabs[p].state(),
    ensures
        settled(w),
{
    reveal(settled);
    assert forall|q: int| #[trigger] w.slabs.contains_key(q) implies w.slabs[q].list
        == w.slabs[q].state() by {
        if q != p {
            assert(v.slabs.contains_key(q));
        }
    }
}

/// A model that differs only in the lists and in the marks of the
/// slabs keeps the same words at the same places.
pub proof fn lemma_layout_same(v: KmemView, w: KmemView)
    requires
        v.layout_wf(),
        w.heap == v.heap,
        w.master == v.master,
        forall|p: int| #[trigger] w.slabs.contains_key(p) <==> v.slabs.contains_key(p),
        forall|p: int| #[trigger]
            v.slabs.contains_key(p) ==> w.slabs[p].cache == v.slabs[p].cache && w.slabs[p].obj_size
                == v.slabs[p].obj_size && w.slabs[p].free == v.slabs[p].free && w.slabs[p].used
                == v.slabs[p].used,
        forall|c: int| #[trigger] w.caches.contains_key(c) <==> v.caches.contains_key(c),
        forall|c: int| #[trigger]
            v.caches.contains_key(c) ==> w.caches[c].home_slab == v.caches[c].home_slab
                && w.caches[c].home_obj == v.caches[c].home_obj,
    ensures
        w.layout_wf(),
        forall|loc: Loc| #[trigger] w.valid(loc) ==> v.valid(loc) && w.addr(loc) == v.addr(loc),
{
    reveal(KmemView::layout_wf);
    assert forall|p: int| #[trigger] w.slabs.contains_key(p) implies w.slab_placed(p) by {
        assert(v.slabs.contains_key(p));
        assert(v.slab_placed(p));
    }
    assert forall|c: int| #[trigger] w.caches.contains_key(c) implies w.cache_placed(c) by {
        assert(v.caches.contains_key(c));
        assert(v.cache_placed(c));
        assert(v.slabs.contains_key(v.caches[c].home_slab));
    }
}

/// A model that keeps one word more agrees with the heap once that word
/// is recorded as the heap holds it.
pub proof fn lemma_mem_one(m: &Region, v: KmemView, w: KmemView, val: Map<Loc, int>, loc: Loc)
    requires
        mem_ok(m, v, val),
        !v.valid(loc),
        forall|l: Loc| #[trigger] v.valid(l) ==> w.valid(l) && w.addr(l) == v.addr(l),
        forall|l: Loc| #[trigger] w.valid(l) ==> v.valid(l) || l == loc,
    ensures
        mem_ok(m, w, val.insert(loc, m.word_at(w.addr(loc)) as int)),
{
    reveal(mem_ok);
}

impl KmemView {
    /// The slab of the cache at `c` from which the next object comes: the
    /// first partial slab, else the first free slab, else zero.
    pub open spec fn pick(self, c: int) -> int {
        if self.caches[c].partial.len() > 0 {
            self.caches[c].partial[0]
        } else {
            head(self.caches[c].free)
        }
    }

    /// The list that holds the slab from which the next object comes.
    pub open spec fn pick_list(self, c: int) -> int {
        if self.caches[c].partial.len() > 0 {
            1
        } else {
            2
        }
    }

    /// The user address of the next object of the cache at `c`.
    pub open spec fn take_addr(self, c: int) -> int {
        self.free_obj(self.pick(c), 0) + 8
    }

    /// The next object of the cache at `c` is taken in use: the first
    /// free object of the slab picked. A free slab moves to the head of
    /// the partial slabs on its first object in use, and a slab whose
    /// last free object is taken moves from the head of the partial to
    /// the head of the full slabs.
    pub open spec fn take(self, c: int) -> KmemView {
        let p = self.pick(c);
        let v1 = self.pop(p);
        let v2 = if self.pick_list(c) == 2 { v1.moved(c, 2, 0, 1) } else { v1 };
        if v1.slabs[p].free.len() == 0 {
            v2.moved(c, 1, 0, 0)
        } else {
            v2
        }
    }
}

/// The word `loc` belongs to the slab at `p`: to its header or to one of
/// its objects.
pub open spec fn of_slab(loc: Loc, p: int) -> bool {
    match loc {
        Loc::Hdr { p: q, f } => q == p,
        Loc::Back { p: q, k } => q == p,
        Loc::Next { p: q, k } => q == p,
        Loc::Cache { c, f } => false,
    }
}

/// The records `val`, with what the heap holds for each word of the
/// slab at `p`.
pub open spec fn adopt_slab(m: &Region, w: KmemView, val: Map<Loc, int>, p: int) -> Map<Loc, int> {
    Map::new(
        |loc: Loc| true,
        |loc: Loc|
            if of_slab(loc, p) {
                m.word_at(w.addr(loc)) as int
            } else {
                val[loc]
            },
    )
}

/// A slab with all objects free that no list holds.
pub open spec fn fresh_slab(c: int, osz: int) -> SlabModel {
    SlabModel {
        cache: c,
        obj_size: osz,
        free: Seq::new(slab_capacity(osz) as nat, |t: int| t),
        used: Set::empty(),
        list: -1,
    }
}

/// A new slab in a page of the heap has its place, and the words kept
/// before are kept where they were; the records agree with the heap
/// once the words of the new slab are recorded as the heap holds them.
pub proof fn lemma_add_slab(m: &Region, v: KmemView, val: Map<Loc, int>, p: int, c: int, osz: int)
    requires
        v.layout_wf(),
        mem_ok(m, v, val),
        !v.slabs.contains_key(p),
        v.heap.is_live(p),
        v.heap.usable(p) >= PAGE_SIZE,
        valid_class(osz),
    ensures
        v.with_slab(p, fresh_slab(c, osz)).layout_wf(),
        mem_ok(
            m,
            v.with_slab(p, fresh_slab(c, osz)),
            adopt_slab(m, v.with_slab(p, fresh_slab(c, osz)), val, p),
        ),
        forall|loc: Loc|
            !of_slab(loc, p) ==> #[trigger] adopt_slab(
                m,
                v.with_slab(p, fresh_slab(c, osz)),
                val,
                p,
            )[loc] == val[loc],
{
    let w = v.with_slab(p, fresh_slab(c, osz));
    reveal(KmemView::layout_wf);
    assert forall|q: int| #[trigger] w.slabs.contains_key(q) implies w.slab_placed(q) by {
        if q != p {
            assert(v.slabs.contains_key(q));
            assert(v.slab_placed(q));
        }
    }
    assert forall|x: int| #[trigger] w.caches.contains_key(x) implies w.cache_placed(x) by {
        assert(v.cache_placed(x));
    }
    reveal(mem_ok);
    assert forall|loc: Loc| #[trigger] w.valid(loc) implies m.word_at(w.addr(loc)) == adopt_slab(
        m,
        w,
        val,
        p,
    )[loc] by {
        if !of_slab(loc, p) {
            assert(v.valid(loc));
        }
    }
}

/// A heap in which every allocation that was live stays live, with the
/// same user bytes, leaves every slab and every cache record in its
/// place.
pub proof fn lemma_layout_heap(v: KmemView, h: HeapView)
    requires
        v.layout_wf(),
        h.inv(),
        forall|p: int| #[trigger]
            v.slabs.contains_key(p) ==> h.is_live(p) && h.usable(p) == v.heap.usable(p),
    ensures
        (KmemView { heap: h, ..v }).layout_wf(),
        forall|loc: Loc|
            (#[trigger] (KmemView { heap: h, ..v }).valid(loc)) == v.valid(loc) && (KmemView {
                heap: h,
                ..v
            }).addr(loc) == v.addr(loc),
{
    let w = KmemView { heap: h, ..v };
    reveal(KmemView::layout_wf);
    assert forall|q: int| #[trigger] w.slabs.contains_key(q) implies w.slab_placed(q) by {
        assert(v.slab_placed(q));
    }
    assert forall|x: int| #[trigger] w.caches.contains_key(x) implies w.cache_placed(x) by {
        assert(v.cache_placed(x));
    }
}

impl KmemView {
    /// Whether the cache at `c` can get a new slab: the heap has a page
    /// for it, and the record of the cache can count its objects.
    pub open spec fn can_grow(self, c: int) -> bool {
        &&& self.count(c, true) + self.count(c, false) + slab_capacity(self.caches[c].obj_size)
            <= usize::MAX
        &&& self.heap.alloc_addr(PAGE_SIZE as int, PAGE_ALIGN as int) != 0
    }

    /// The cache at `c` gets a new slab, if it can: a page of the heap,
    /// all of its objects free, at the head of the free slabs.
    pub open spec fn grow(self, c: int) -> KmemView {
        if self.can_grow(c) {
            let p = self.heap.alloc_addr(PAGE_SIZE as int, PAGE_ALIGN as int);
            (KmemView {
                heap: self.heap.after_alloc(PAGE_SIZE as int, PAGE_ALIGN as int),
                ..self
            }).with_slab(p, fresh_slab(c, self.caches[c].obj_size)).list_push(c, 2, p)
        } else {
            self
        }
    }
}

/// The records after the new slab at `p` joined the free slabs of the
/// cache at `c` and the cache counted its objects.
pub open spec fn grow_val(v: KmemView, w1: KmemView, val1: Map<Loc, int>, c: int, p: int) -> Map<
    Loc,
    int,
> {
    let cap = slab_capacity(v.caches[c].obj_size);
    push_front_val(w1, val1, c, 2, p).insert(
        Loc::Cache { c, f: C_OBJ_TOTAL as int },
        v.count(c, true) + v.count(c, false) + cap,
    ).insert(Loc::Cache { c, f: C_OBJ_FREE as int }, v.count(c, true) + cap)
}

/// The model `w1` is `v`, over some heap, with the new slab at `p` for
/// the cache at `c`, and `val1` differs from `val` in the words of that
/// slab only.
pub open spec fn is_grown(
    v: KmemView,
    val: Map<Loc, int>,
    w1: KmemView,
    val1: Map<Loc, int>,
    c: int,
    p: int,
) -> bool {
    &&& v.caches.contains_key(c)
    &&& !v.slabs.contains_key(p)
    &&& p != 0
    &&& w1 == (KmemView { heap: w1.heap, ..v }).with_slab(p, fresh_slab(c, v.caches[c].obj_size))
    &&& forall|loc: Loc| !of_slab(loc, p) ==> #[trigger] val1[loc] == val[loc]
}

/// A new slab that no list holds yet leaves the lists linked.
pub proof fn lemma_grow_lists(
    v: KmemView,
    val: Map<Loc, int>,
    w1: KmemView,
    val1: Map<Loc, int>,
    c: int,
    p: int,
)
    requires
        lists_ok(v, val),
        is_grown(v, val, w1, val1, c, p),
    ensures
        lists_ok(w1, val1),
{
    assert forall|q: int| v.slabs.contains_key(q) implies #[trigger] val1[Loc::Hdr { p: q, f: 0 }]
        == val[Loc::Hdr { p: q, f: 0 }] by {
        assert(!of_slab(Loc::Hdr { p: q, f: 0 }, p));
    }
    assert forall|q: int| v.slabs.contains_key(q) implies #[trigger] val1[Loc::Hdr { p: q, f: 1 }]
        == val[Loc::Hdr { p: q, f: 1 }] by {
        assert(!of_slab(Loc::Hdr { p: q, f: 1 }, p));
    }
    assert forall|x: int, f: int| v.caches.contains_key(x) && 0 <= f <= 2 implies #[trigger] val1[Loc::Cache {
        c: x,
        f,
    }] == val[Loc::Cache { c: x, f }] by {
        assert(!of_slab(Loc::Cache { c: x, f }, p));
    }
    lemma_lists_frame(v, val, w1, val1);
}

/// The numbers of objects of the caches after a new slab joined a list:
/// those of its cache grow by what the slab holds.
#[verifier::rlimit(50)]
proof fn lemma_count_grow(v: KmemView, w1: KmemView, c: int, p: int, id: int, c2: int, free: bool)
    requires
        v.caches.contains_key(c),
        v.caches.contains_key(c2),
        0 <= id <= 2,
        w1.caches == v.caches,
        w1.slabs.contains_key(p),
        forall|q: int| q != p ==> #[trigger] w1.slabs[q] == v.slabs[q],
        forall|x: int, i: int, t: int|
            v.caches.contains_key(x) && 0 <= i <= 2 && 0 <= t < v.list(x, i).len()
                ==> #[trigger] v.list(x, i)[t] != p,
    ensures
        w1.list_push(c, id, p).count(c2, free) == v.count(c2, free) + (if c2 == c {
            measure(w1.slabs[p], free)
        } else {
            0
        }),
{
    let w = w1.list_push(c, id, p);
    assert(measure(w.slabs[p], free) == measure(w1.slabs[p], free));
    assert forall|i: int| 0 <= i <= 2 implies sum(w.slabs, #[trigger] w.list(c2, i), free) == sum(
        v.slabs,
        v.list(c2, i),
        free,
    ) + (if c2 == c && i == id {
        measure(w1.slabs[p], free)
    } else {
        0
    }) by {
        let l = v.list(c2, i);
        assert forall|t: int| 0 <= t < l.len() implies measure(w.slabs[#[trigger] l[t]], free)
            == measure(v.slabs[l[t]], free) by {
            assert(v.list(c2, i)[t] != p);
        }
        lemma_sum_frame(v.slabs, w.slabs, l, free);
        if c2 == c && i == id {
            assert(w.list(c2, i) == seq![p] + l);
            lemma_sum_push(w.slabs, l, p, free);
        } else {
            assert(w.list(c2, i) == l);
        }
    }
    assert(w.list(c2, 0) == w.caches[c2].full);
    assert(w.list(c2, 1) == w.caches[c2].partial);
    assert(w.list(c2, 2) == w.caches[c2].free);
    assert(v.list(c2, 0) == v.caches[c2].full);
    assert(v.list(c2, 1) == v.caches[c2].partial);
    assert(v.list(c2, 2) == v.caches[c2].free);
}

/// After a new slab joined a list every slab is held by the list that
/// it is marked with.
proof fn lemma_listed_grow(v: KmemView, w1: KmemView, c: int, p: int, id: int)
    requires
        listed(v),
        v.caches.contains_key(c),
        0 <= id <= 2,
        p != 0,
        w1.caches == v.caches,
        w1.slabs.contains_key(p),
        w1.slabs[p].cache == c,
        w1.slabs[p].obj_size == v.caches[c].obj_size,
        forall|q: int| q != p ==> #[trigger] w1.slabs[q] == v.slabs[q],
        forall|q: int| #[trigger] w1.slabs.contains_key(q) ==> q == p || v.slabs.contains_key(q),
    ensures
        listed(w1.list_push(c, id, p)),
{
    let w = w1.list_push(c, id, p);
    assert forall|q: int| #[trigger] w.slabs.contains_key(q) implies {
        &&& q != 0
        &&& w.caches.contains_key(w.slabs[q].cache)
        &&& w.slabs[q].obj_size == w.caches[w.slabs[q].cache].obj_size
        &&& 0 <= w.slabs[q].list <= 2
        &&& w.list(w.slabs[q].cache, w.slabs[q].list).contains(q)
    } by {
        if q == p {
            assert(w.list(c, id)[0] == p);
        } else {
            assert(v.slabs.contains_key(q));
            let u = lemma_listed(v, q);
            let qc = v.slabs[q].cache;
            let ql = v.slabs[q].list;
            if qc == c && ql == id {
                assert(w.list(c, id) == seq![p] + v.list(c, id));
                assert(w.list(c, id)[u + 1] == q);
            } else {
                assert(w.list(qc, ql) == v.list(qc, ql));
                assert(w.list(qc, ql)[u] == q);
            }
        }
    }
    reveal(listed);
}

/// No list holds a slab that the model does not know.
pub proof fn lemma_unlisted(v: KmemView, val: Map<Loc, int>, p: int)
    requires
        lists_ok(v, val),
        !v.slabs.contains_key(p),
    ensures
        forall|x: int, i: int, t: int|
            v.caches.contains_key(x) && 0 <= i <= 2 && 0 <= t < v.list(x, i).len()
                ==> #[trigger] v.list(x, i)[t] != p,
{
    assert forall|x: int, i: int, t: int|
        v.caches.contains_key(x) && 0 <= i <= 2 && 0 <= t < v.list(x, i).len()
            implies #[trigger] v.list(x, i)[t] != p by {
        lemma_list_read(v, val, x, i, t);
    }
}

/// A new slab whose words are in step with the model, put at the head
/// of the free slabs of its cache and counted, keeps the records in
/// step with the model.
#[verifier::rlimit(50)]
pub proof fn lemma_step_grow(
    v: KmemView,
    val: Map<Loc, int>,
    w1: KmemView,
    val1: Map<Loc, int>,
    c: int,
    p: int,
)
    requires
        inv(v, val),
        settled(v),
        is_grown(v, val, w1, val1, c, p),
        slab_ok(w1, val1, p),
        v.count(c, true) + v.count(c, false) + slab_capacity(v.caches[c].obj_size) <= usize::MAX,
    ensures
        inv(w1.list_push(c, 2, p), grow_val(v, w1, val1, c, p)),
        settled(w1.list_push(c, 2, p)),
{
    let w = w1.list_push(c, 2, p);
    let wal = grow_val(v, w1, val1, c, p);
    let val2 = push_front_val(w1, val1, c, 2, p);
    let cap = slab_capacity(v.caches[c].obj_size);
    lemma_grow_lists(v, val, w1, val1, c, p);
    lemma_list_push(w1, val1, c, 2, p);
    lemma_lists_frame(w, val2, w, wal);
    lemma_list_read(w1, val1, c, 2, 0);
    lemma_slab_read(w1, val1, p);
    lemma_slab_frame(w1, val1, w, wal, p);
    assert forall|q: int| #[trigger] v.slabs.contains_key(q) && q != p implies same_slab(
        v,
        val,
        w,
        wal,
        q,
    ) by {
        assert forall|f: int| 2 <= f < H_WORDS implies #[trigger] wal[Loc::Hdr { p: q, f }]
            == val[Loc::Hdr { p: q, f }] by {
            assert(!of_slab(Loc::Hdr { p: q, f }, p));
        }
        assert forall|k: int| #[trigger] wal[Loc::Back { p: q, k }] == val[Loc::Back { p: q, k }] by {
            assert(!of_slab(Loc::Back { p: q, k }, p));
        }
        assert forall|k: int| #[trigger] wal[Loc::Next { p: q, k }] == val[Loc::Next { p: q, k }] by {
            assert(!of_slab(Loc::Next { p: q, k }, p));
        }
    }
    lemma_slabs_update(v, val, w, wal, p);
    lemma_unlisted(v, val, p);
    assert forall|c2: int| #[trigger] w.caches.contains_key(c2) implies count_ok(w, wal, c2) by {
        lemma_count_read(v, val, c2);
        lemma_count_grow(v, w1, c, p, 2, c2, true);
        lemma_count_grow(v, w1, c, p, 2, c2, false);
        assert forall|f: int| C_OBJ_SIZE <= f <= C_OBJ_FREE implies #[trigger] val1[Loc::Cache {
            c: c2,
            f,
        }] == val[Loc::Cache { c: c2, f }] by {
            assert(!of_slab(Loc::Cache { c: c2, f }, p));
        }
        assert(val1[Loc::Cache { c: c2, f: C_OBJ_SIZE as int }] == val[Loc::Cache {
            c: c2,
            f: C_OBJ_SIZE as int,
        }]);
        assert(val1[Loc::Cache { c: c2, f: C_OBJ_NUM as int }] == val[Loc::Cache {
            c: c2,
            f: C_OBJ_NUM as int,
        }]);
        assert(val1[Loc::Cache { c: c2, f: C_OBJ_TOTAL as int }] == val[Loc::Cache {
            c: c2,
            f: C_OBJ_TOTAL as int,
        }]);
        assert(val1[Loc::Cache { c: c2, f: C_OBJ_ACTIVE as int }] == val[Loc::Cache {
            c: c2,
            f: C_OBJ_ACTIVE as int,
        }]);
        assert(val1[Loc::Cache { c: c2, f: C_OBJ_FREE as int }] == val[Loc::Cache {
            c: c2,
            f: C_OBJ_FREE as int,
        }]);
        reveal(count_ok);
    }
    reveal(counts_ok);
    assert forall|x: int|
        v.caches.contains_key(x) implies #[trigger] wal[Loc::Cache { c: x, f: C_NEXT as int }]
        == val[Loc::Cache { c: x, f: C_NEXT as int }] by {
        assert(!of_slab(Loc::Cache { c: x, f: C_NEXT as int }, p));
    }
    lemma_chain_frame(v, val, w, wal);
    lemma_listed_grow(v, w1, c, p, 2);
    lemma_settled_move(v, w, p);
}

impl KmemView {
    /// The first free slab of the cache at `c` leaves the cache, and its
    /// page goes back to the heap.
    pub open spec fn shrink(self, c: int) -> KmemView {
        let q = self.list(c, 2)[0];
        let v1 = self.list_remove(c, 2, 0);
        KmemView { heap: self.heap.after_free(q), slabs: v1.slabs.remove(q), ..v1 }
    }

    /// The slab and the object of the user address `ptr`.
    pub open spec fn object_of(self, ptr: int) -> (int, int) {
        choose|p: int, k: int| #[trigger] self.is_object(ptr, p, k)
    }

    /// The cache at `c` with room for one more free slab: where it has a
    /// free slab, that slab leaves the cache.
    pub open spec fn spared(self, c: int) -> KmemView {
        if self.list(c, 2).len() > 0 {
            self.shrink(c)
        } else {
            self
        }
    }

    /// The state after the object with user address `ptr` was given
    /// back: it heads the free objects of its slab. A slab that was full
    /// moves to the head of the partial slabs, and a slab without an
    /// object in use moves from the partial to the head of the free
    /// slabs, before which the free slab that the cache has, if any,
    /// leaves the cache.
    pub open spec fn after_free(self, ptr: int) -> KmemView {
        let (p, k) = self.object_of(ptr);
        let c = self.slabs[p].cache;
        let v1 = self.push(p, k);
        let v2 = if self.slabs[p].free.len() == 0 {
            v1.moved(c, 0, v1.list(c, 0).index_of(p), 1)
        } else {
            v1
        };
        if v1.slabs[p].used.len() == 0 {
            v2.spared(c).moved(c, 1, v2.spared(c).list(c, 1).index_of(p), 2)
        } else {
            v2
        }
    }
}

/// The records after the first free slab of the cache at `c` left the
/// cache and the cache discounted its objects.
pub open spec fn shrink_val(v: KmemView, val: Map<Loc, int>, c: int) -> Map<Loc, int> {
    let q = v.list(c, 2)[0];
    remove_val(v, val, c, 2, 0).insert(
        Loc::Cache { c, f: C_OBJ_TOTAL as int },
        v.count(c, true) + v.count(c, false) - v.cap(q),
    ).insert(Loc::Cache { c, f: C_OBJ_FREE as int }, v.count(c, true) - v.slabs[q].free.len())
}

/// The numbers of objects of the caches after the first slab of a list
/// left the model: those of its cache fall by what the slab held.
#[verifier::rlimit(50)]
proof fn lemma_count_shrink(
    v: KmemView,
    val: Map<Loc, int>,
    w: KmemView,
    c: int,
    id: int,
    c2: int,
    free: bool,
)
    requires
        lists_ok(v, val),
        v.caches.contains_key(c),
        v.caches.contains_key(c2),
        0 <= id <= 2,
        v.list(c, id).len() > 0,
        w.caches == v.list_remove(c, id, 0).caches,
        forall|q: int| q != v.list(c, id)[0] ==> #[trigger] w.slabs[q] == v.slabs[q],
    ensures
        w.count(c2, free) == v.count(c2, free) - (if c2 == c {
            measure(v.slabs[v.list(c, id)[0]], free)
        } else {
            0
        }),
{
    let p = v.list(c, id)[0];
    lemma_list_read(v, val, c, id, 0);
    assert forall|i: int| 0 <= i <= 2 implies sum(w.slabs, #[trigger] w.list(c2, i), free) == sum(
        v.slabs,
        v.list(c2, i),
        free,
    ) - (if c2 == c && i == id {
        measure(v.slabs[p], free)
    } else {
        0
    }) by {
        let l = v.list(c2, i);
        let m = w.list(c2, i);
        if c2 == c && i == id {
            assert(m == l.remove(0));
            lemma_sum_remove(v.slabs, l, 0, free);
            assert forall|t: int| 0 <= t < m.len() implies measure(w.slabs[#[trigger] m[t]], free)
                == measure(v.slabs[m[t]], free) by {
                assert(m[t] == l[t + 1]);
                lemma_list_read(v, val, c, id, t + 1);
            }
            lemma_sum_frame(v.slabs, w.slabs, m, free);
        } else {
            assert(m == l);
            assert forall|t: int| 0 <= t < l.len() implies measure(w.slabs[#[trigger] l[t]], free)
                == measure(v.slabs[l[t]], free) by {
                lemma_list_read(v, val, c2, i, t);
            }
            lemma_sum_frame(v.slabs, w.slabs, l, free);
        }
    }
    assert(w.list(c2, 0) == w.caches[c2].full);
    assert(w.list(c2, 1) == w.caches[c2].partial);
    assert(w.list(c2, 2) == w.caches[c2].free);
    assert(v.list(c2, 0) == v.caches[c2].full);
    assert(v.list(c2, 1) == v.caches[c2].partial);
    assert(v.list(c2, 2) == v.caches[c2].free);
}

/// After the first slab of a list left the model every slab is held by
/// the list that it is marked with.
proof fn lemma_listed_shrink(v: KmemView, val: Map<Loc, int>, w: KmemView, c: int, id: int)
    requires
        listed(v),
        lists_ok(v, val),
        v.caches.contains_key(c),
        0 <= id <= 2,
        v.list(c, id).len() > 0,
        w.caches == v.list_remove(c, id, 0).caches,
        forall|q: int| q != v.list(c, id)[0] ==> #[trigger] w.slabs[q] == v.slabs[q],
        forall|q: int| #[trigger]
            w.slabs.contains_key(q) ==> v.slabs.contains_key(q) && q != v.list(c, id)[0],
    ensures
        listed(w),
{
    let l = v.list(c, id);
    let p = l[0];
    assert forall|q: int| #[trigger] w.slabs.contains_key(q) implies {
        &&& q != 0
        &&& w.caches.contains_key(w.slabs[q].cache)
        &&& w.slabs[q].obj_size == w.caches[w.slabs[q].cache].obj_size
        &&& 0 <= w.slabs[q].list <= 2
        &&& w.list(w.slabs[q].cache, w.slabs[q].list).contains(q)
    } by {
        assert(v.slabs.contains_key(q));
        let u = lemma_listed(v, q);
        let qc = v.slabs[q].cache;
        let ql = v.slabs[q].list;
        if qc == c && ql == id {
            assert(w.list(c, id) == l.remove(0));
            assert(w.list(c, id)[u - 1] == q);
        } else {
            assert(w.list(qc, ql) == v.list(qc, ql));
            assert(w.list(qc, ql)[u] == q);
        }
    }
    reveal(listed);
}

/// `w` is `v`, over some heap, without the first free slab of the cache
/// at `c`.
pub open spec fn is_shrunk(v: KmemView, w: KmemView, c: int) -> bool {
    let q = v.list(c, 2)[0];
    let v1 = v.list_remove(c, 2, 0);
    w == (KmemView { heap: w.heap, slabs: v1.slabs.remove(q), ..v1 })
}

/// Taking the first free slab of a cache out of the cache, and
/// discounting its objects, keeps the records in step with the model.
pub proof fn lemma_step_shrink(v: KmemView, val: Map<Loc, int>, w: KmemView, c: int)
    requires
        inv(v, val),
        v.caches.contains_key(c),
        v.list(c, 2).len() > 0,
        v.slabs[v.list(c, 2)[0]].used.len() == 0,
        is_shrunk(v, w, c),
    ensures
        inv(w, shrink_val(v, val, c)),
        v.count(c, true) >= v.slabs[v.list(c, 2)[0]].free.len(),
        v.slabs[v.list(c, 2)[0]].free.len() == v.cap(v.list(c, 2)[0]),
{
    let q = v.list(c, 2)[0];
    let v1 = v.list_remove(c, 2, 0);
    let val1 = remove_val(v, val, c, 2, 0);
    let wal = shrink_val(v, val, c);
    lemma_list_read(v, val, c, 2, 0);
    lemma_list_remove(v, val, c, 2, 0);
    lemma_lists_frame(v1, val1, w, wal);
    assert(slab_ok(v, val, q)) by {
        reveal(slabs_ok);
    }
    lemma_slab_read(v, val, q);
    lemma_count_member(v, val, q, true);
    lemma_slabs_update(v, val, w, wal, q);
    assert forall|c2: int| #[trigger] w.caches.contains_key(c2) implies count_ok(w, wal, c2) by {
        lemma_count_read(v, val, c2);
        lemma_count_shrink(v, val, w, c, 2, c2, true);
        lemma_count_shrink(v, val, w, c, 2, c2, false);
        reveal(count_ok);
    }
    reveal(counts_ok);
    lemma_chain_frame(v, val, w, wal);
    lemma_listed_shrink(v, val, w, c, 2);
}

/// A slab without an object in use can leave the model: every other
/// slab and every cache record stays in its place, and no new word is
/// kept.
pub proof fn lemma_del_slab(v: KmemView, q: int)
    requires
        v.layout_wf(),
        v.slabs.contains_key(q),
        v.slabs[q].used.len() == 0,
        v.slabs[q].used.finite(),
    ensures
        (KmemView { slabs: v.slabs.remove(q), ..v }).layout_wf(),
        forall|loc: Loc| #[trigger]
            (KmemView { slabs: v.slabs.remove(q), ..v }).valid(loc) ==> v.valid(loc) && (KmemView {
                slabs: v.slabs.remove(q),
                ..v
            }).addr(loc) == v.addr(loc),
{
    let w = KmemView { slabs: v.slabs.remove(q), ..v };
    reveal(KmemView::layout_wf);
    assert forall|p: int| #[trigger] w.slabs.contains_key(p) implies w.slab_placed(p) by {
        assert(v.slabs.contains_key(p));
        assert(v.slab_placed(p));
    }
    assert forall|x: int| #[trigger] w.caches.contains_key(x) implies w.cache_placed(x) by {
        assert(v.cache_placed(x));
        if v.caches[x].home_slab == q {
            assert(v.slabs[q].used.contains(v.caches[x].home_obj));
            assert(v.slabs[q].used.len() != 0);
        }
    }
}

/// A cache without slabs whose record lies in object `k` of the slab at
/// `p`.
pub open spec fn empty_cache(osz: int, p: int, k: int) -> CacheModel {
    CacheModel {
        obj_size: osz,
        full: Seq::empty(),
        partial: Seq::empty(),
        free: Seq::empty(),
        home_slab: p,
        home_obj: k,
    }
}

impl KmemView {
    /// The first cache of the chain, from entry `i` on, with objects of
    /// size `class`; zero if there is none.
    pub open spec fn find_from(self, class: int, i: int) -> int
        decreases self.chain.len() - i,
    {
        if i < 0 || i >= self.chain.len() {
            0
        } else if self.caches[self.chain[i]].obj_size == class {
            self.chain[i]
        } else {
            self.find_from(class, i + 1)
        }
    }

    /// The first cache of the chain with objects of size `class`; zero
    /// if there is none.
    pub open spec fn find(self, class: int) -> int {
        self.find_from(class, 0)
    }

    /// A new cache without slabs, with objects of size `class`, heads
    /// the chain; its record lies at `c`, in object `k` of the slab at
    /// `p`.
    pub open spec fn add_cache(self, c: int, class: int, p: int, k: int) -> KmemView {
        KmemView {
            caches: self.caches.insert(c, empty_cache(class, p, k)),
            chain: seq![c] + self.chain,
            ..self
        }
    }

    /// The master cache with a slab that has a free object: as it is, or
    /// with a new slab where it had none.
    pub open spec fn master_ready(self) -> KmemView {
        if self.pick(self.master) != 0 {
            self
        } else {
            self.grow(self.master)
        }
    }

    /// Address of the record of the cache that `create` makes; zero
    /// where the master cache has no object for it.
    pub open spec fn created(self, class: int) -> int {
        let v0 = self.master_ready();
        if v0.pick(v0.master) == 0 {
            0
        } else {
            v0.take_addr(v0.master)
        }
    }

    /// A cache with objects of size `class` is made: its record takes
    /// the next object of the master cache, which gets a new slab first
    /// where it has no free object; the cache heads the chain and gets
    /// its first slab, if the heap has a page for it.
    pub open spec fn create(self, class: int) -> KmemView {
        let v0 = self.master_ready();
        if v0.pick(v0.master) == 0 {
            v0
        } else {
            let p = v0.pick(v0.master);
            let k = v0.slabs[p].free[0];
            let c = v0.take_addr(v0.master);
            v0.take(v0.master).add_cache(c, class, p, k).grow(c)
        }
    }

    /// Whether `size` and `align` are the size and the alignment of a
    /// request that the allocator serves: the size has a class, and the
    /// two make a valid layout, whatever its alignment.
    pub open spec fn serves(size: int, align: int) -> bool {
        class_of(size) != 0 && valid_layout(size, align)
    }

    /// The cache that serves a request of `size` bytes: the cache of the
    /// chain with the class of the size, made first where there is none;
    /// zero where it cannot be made.
    pub open spec fn cache_for(self, size: int) -> int {
        if self.find(class_of(size)) != 0 {
            self.find(class_of(size))
        } else {
            self.created(class_of(size))
        }
    }

    /// The state in which the cache for `size` bytes exists, if it can.
    pub open spec fn with_cache_for(self, size: int) -> KmemView {
        if self.find(class_of(size)) != 0 {
            self
        } else {
            self.create(class_of(size))
        }
    }

    /// The state in which the cache at `c` has a slab with a free
    /// object, if it can.
    pub open spec fn ready(self, c: int) -> KmemView {
        if self.pick(c) != 0 {
            self
        } else {
            self.grow(c)
        }
    }

    /// The user address that a request of `size` bytes at alignment
    /// `align` gets: zero where the request is not served, or the heap
    /// has no page for a slab that is needed.
    pub open spec fn alloc_addr(self, size: int, align: int) -> int {
        let c = self.cache_for(size);
        if !Self::serves(size, align) || c == 0 {
            0
        } else {
            let v2 = self.with_cache_for(size).ready(c);
            if v2.pick(c) == 0 {
                0
            } else {
                v2.take_addr(c)
            }
        }
    }

    /// The state after a request of `size` bytes at alignment `align`.
    pub open spec fn after_alloc(self, size: int, align: int) -> KmemView {
        let c = self.cache_for(size);
        if !Self::serves(size, align) {
            self
        } else if c == 0 {
            self.with_cache_for(size)
        } else {
            let v2 = self.with_cache_for(size).ready(c);
            if v2.pick(c) == 0 {
                v2
            } else {
                v2.take(c)
            }
        }
    }

    /// The state right after the allocator was set up over the heap `h`:
    /// the master cache alone, with one slab, whose first object holds
    /// the record of the master cache.
    pub open spec fn initial(h: HeapView) -> KmemView {
        let p = h.alloc_addr(PAGE_SIZE as int, PAGE_ALIGN as int);
        let m = obj_addr(p, MASTER_CLASS as int, 0) + 8;
        (KmemView {
            heap: h.after_alloc(PAGE_SIZE as int, PAGE_ALIGN as int),
            master: m,
            chain: Seq::empty(),
            caches: Map::empty().insert(m, empty_cache(MASTER_CLASS as int, p, 0)),
            slabs: Map::empty(),
        }).with_slab(p, fresh_slab(m, MASTER_CLASS as int)).pop(p).list_push(m, 1, p)
    }
}

/// What the chain says.
pub proof fn lemma_chain_read(v: KmemView, val: Map<Loc, int>, i: int)
    requires
        chain_ok(v, val),
    ensures
        v.caches.contains_key(v.master),
        v.caches[v.master].obj_size == MASTER_CLASS,
        v.master != 0,
        val[Loc::Cache { c: v.master, f: C_NEXT as int }] == head(v.chain),
        0 <= i < v.chain.len() ==> {
            &&& v.caches.contains_key(v.chain[i])
            &&& v.chain[i] != 0
            &&& v.chain[i] != v.master
            &&& val[Loc::Cache { c: v.chain[i], f: C_NEXT as int }] == at(v.chain, i + 1)
        },
{
    reveal(chain_ok);
}

/// The word `loc` belongs to the cache record at `c`.
pub open spec fn of_cache(loc: Loc, c: int) -> bool {
    match loc {
        Loc::Cache { c: x, f } => x == c,
        _ => false,
    }
}

/// The records `val`, with what the heap holds for each word of the
/// cache record at `c`.
pub open spec fn adopt_cache(m: &Region, w: KmemView, val: Map<Loc, int>, c: int) -> Map<Loc, int> {
    Map::new(
        |loc: Loc| true,
        |loc: Loc|
            if of_cache(loc, c) {
                m.word_at(w.addr(loc)) as int
            } else {
                val[loc]
            },
    )
}

/// A new cache record in an object in use of a slab of the master cache
/// has its place, and the words kept before are kept where they were;
/// the records agree with the heap once the words of the new record are
/// recorded as the heap holds them.
pub proof fn lemma_add_cache(m: &Region, v: KmemView, val: Map<Loc, int>, c: int, cm: CacheModel)
    requires
        v.layout_wf(),
        mem_ok(m, v, val),
        !v.caches.contains_key(c),
        (KmemView { caches: v.caches.insert(c, cm), ..v }).cache_placed(c),
    ensures
        (KmemView { caches: v.caches.insert(c, cm), ..v }).layout_wf(),
        mem_ok(
            m,
            KmemView { caches: v.caches.insert(c, cm), ..v },
            adopt_cache(m, KmemView { caches: v.caches.insert(c, cm), ..v }, val, c),
        ),
        forall|loc: Loc|
            !of_cache(loc, c) ==> #[trigger] adopt_cache(
                m,
                KmemView { caches: v.caches.insert(c, cm), ..v },
                val,
                c,
            )[loc] == val[loc],
{
    let w = KmemView { caches: v.caches.insert(c, cm), ..v };
    reveal(KmemView::layout_wf);
    assert forall|q: int| #[trigger] w.slabs.contains_key(q) implies w.slab_placed(q) by {
        assert(v.slab_placed(q));
    }
    assert forall|x: int| #[trigger] w.caches.contains_key(x) implies w.cache_placed(x) by {
        if x != c {
            assert(v.cache_placed(x));
        }
    }
    reveal(mem_ok);
    assert forall|loc: Loc| #[trigger] w.valid(loc) implies m.word_at(w.addr(loc)) == adopt_cache(
        m,
        w,
        val,
        c,
    )[loc] by {
        if !of_cache(loc, c) {
            assert(v.valid(loc));
        }
    }
}

/// `wal` is `val` with the record of the new cache at `c` filled in and
/// the master cache linked to it.
pub open spec fn is_created(
    v: KmemView,
    val: Map<Loc, int>,
    wal: Map<Loc, int>,
    c: int,
    class: int,
) -> bool {
    &&& forall|loc: Loc|
        !of_cache(loc, c) && loc != (Loc::Cache { c: v.master, f: C_NEXT as int })
            ==> #[trigger] wal[loc] == val[loc]
    &&& wal[Loc::Cache { c, f: C_FULL as int }] == 0
    &&& wal[Loc::Cache { c, f: C_PARTIAL as int }] == 0
    &&& wal[Loc::Cache { c, f: C_FREE as int }] == 0
    &&& wal[Loc::Cache { c, f: C_NEXT as int }] == head(v.chain)
    &&& wal[Loc::Cache { c, f: C_OBJ_SIZE as int }] == class
    &&& wal[Loc::Cache { c, f: C_OBJ_NUM as int }] == slab_capacity(class)
    &&& wal[Loc::Cache { c, f: C_OBJ_TOTAL as int }] == 0
    &&& wal[Loc::Cache { c, f: C_OBJ_ACTIVE as int }] == 0
    &&& wal[Loc::Cache { c, f: C_OBJ_FREE as int }] == 0
    &&& wal[Loc::Cache { c: v.master, f: C_NEXT as int }] == c
}

/// The lists stay linked when a cache without slabs joins the model.
#[verifier::rlimit(50)]
proof fn lemma_create_lists(
    v: KmemView,
    val: Map<Loc, int>,
    wal: Map<Loc, int>,
    c: int,
    class: int,
    p: int,
    k: int,
)
    requires
        lists_ok(v, val),
        chain_ok(v, val),
        !v.caches.contains_key(c),
        is_created(v, val, wal, c, class),
    ensures
        lists_ok(v.add_cache(c, class, p, k), wal),
{
    let w = v.add_cache(c, class, p, k);
    lemma_chain_read(v, val, 0);
    reveal(lists_ok);
    assert forall|x: int, id: int| w.caches.contains_key(x) && 0 <= id <= 2 implies #[trigger] list_ok(
        w,
        wal,
        x,
        id,
    ) by {
        reveal(links_ok);
        reveal(marks_ok);
        if x != c {
            assert(v.caches.contains_key(x));
            assert(list_ok(v, val, x, id));
            let l = v.list(x, id);
            assert(w.list(x, id) == l);
            assert(wal[Loc::Cache { c: x, f: id }] == val[Loc::Cache { c: x, f: id }]);
            assert forall|t: int| 0 <= t < l.len() implies {
                &&& #[trigger] l[t] != 0
                &&& wal[Loc::Hdr { p: l[t], f: H_NEXT as int }] == at(l, t + 1)
                &&& wal[Loc::Hdr { p: l[t], f: H_PREV as int }] == at(l, t - 1)
            } by {
                assert(wal[Loc::Hdr { p: l[t], f: 0 }] == val[Loc::Hdr { p: l[t], f: 0 }]);
                assert(wal[Loc::Hdr { p: l[t], f: 1 }] == val[Loc::Hdr { p: l[t], f: 1 }]);
            }
        } else {
            assert(w.list(c, id) =~= Seq::<int>::empty());
        }
    }
}

/// The numbers of objects of the caches stay when a cache without slabs
/// joins the model.
#[verifier::rlimit(50)]
proof fn lemma_create_counts(
    v: KmemView,
    val: Map<Loc, int>,
    wal: Map<Loc, int>,
    c: int,
    class: int,
    p: int,
    k: int,
)
    requires
        counts_ok(v, val),
        chain_ok(v, val),
        !v.caches.contains_key(c),
        valid_class(class),
        is_created(v, val, wal, c, class),
    ensures
        counts_ok(v.add_cache(c, class, p, k), wal),
{
    let w = v.add_cache(c, class, p, k);
    lemma_chain_read(v, val, 0);
    assert forall|x: int| #[trigger] w.caches.contains_key(x) implies count_ok(w, wal, x) by {
        if x != c {
            lemma_count_read(v, val, x);
            assert(w.caches[x] == v.caches[x]);
            assert(w.count(x, true) == v.count(x, true));
            assert(w.count(x, false) == v.count(x, false));
            assert(wal[Loc::Cache { c: x, f: C_OBJ_SIZE as int }] == val[Loc::Cache {
                c: x,
                f: C_OBJ_SIZE as int,
            }]);
            assert(wal[Loc::Cache { c: x, f: C_OBJ_NUM as int }] == val[Loc::Cache {
                c: x,
                f: C_OBJ_NUM as int,
            }]);
            assert(wal[Loc::Cache { c: x, f: C_OBJ_TOTAL as int }] == val[Loc::Cache {
                c: x,
                f: C_OBJ_TOTAL as int,
            }]);
            assert(wal[Loc::Cache { c: x, f: C_OBJ_ACTIVE as int }] == val[Loc::Cache {
                c: x,
                f: C_OBJ_ACTIVE as int,
            }]);
            assert(wal[Loc::Cache { c: x, f: C_OBJ_FREE as int }] == val[Loc::Cache {
                c: x,
                f: C_OBJ_FREE as int,
            }]);
        } else {
            assert(w.caches[c].full =~= Seq::<int>::empty());
            assert(w.caches[c].partial =~= Seq::<int>::empty());
            assert(w.caches[c].free =~= Seq::<int>::empty());
        }
        reveal(count_ok);
    }
    reveal(counts_ok);
}

/// A new cache without slabs at the head of the chain, with its record
/// filled in, keeps the records in step with the model.
#[verifier::rlimit(50)]
pub proof fn lemma_step_create(
    v: KmemView,
    val: Map<Loc, int>,
    wal: Map<Loc, int>,
    c: int,
    class: int,
    p: int,
    k: int,
)
    requires
        inv(v, val),
        settled(v),
        !v.caches.contains_key(c),
        c != 0,
        valid_class(class),
        is_created(v, val, wal, c, class),
    ensures
        inv(v.add_cache(c, class, p, k), wal),
        settled(v.add_cache(c, class, p, k)),
{
    let w = v.add_cache(c, class, p, k);
    lemma_chain_read(v, val, 0);
    lemma_create_lists(v, val, wal, c, class, p, k);
    lemma_create_counts(v, val, wal, c, class, p, k);
    assert(!v.slabs.contains_key(0)) by {
        reveal(listed);
    }
    assert forall|q: int| #[trigger] v.slabs.contains_key(q) implies same_slab(v, val, w, wal, q) by {
        assert forall|f: int| 2 <= f < H_WORDS implies #[trigger] wal[Loc::Hdr { p: q, f }]
            == val[Loc::Hdr { p: q, f }] by {
            assert(!of_cache(Loc::Hdr { p: q, f }, c));
        }
        assert forall|j: int| #[trigger] wal[Loc::Back { p: q, k: j }] == val[Loc::Back { p: q, k: j }] by {
            assert(!of_cache(Loc::Back { p: q, k: j }, c));
        }
        assert forall|j: int| #[trigger] wal[Loc::Next { p: q, k: j }] == val[Loc::Next { p: q, k: j }] by {
            assert(!of_cache(Loc::Next { p: q, k: j }, c));
        }
    }
    lemma_slabs_update(v, val, w, wal, 0);
    assert(chain_ok(w, wal)) by {
        reveal(chain_ok);
        assert forall|i: int| 0 <= i < w.chain.len() implies {
            &&& w.caches.contains_key(#[trigger] w.chain[i])
            &&& w.chain[i] != 0
            &&& w.chain[i] != w.master
            &&& wal[Loc::Cache { c: w.chain[i], f: C_NEXT as int }] == at(w.chain, i + 1)
        } by {
            if i > 0 {
                assert(w.chain[i] == v.chain[i - 1]);
                assert(v.caches.contains_key(v.chain[i - 1]));
                if i + 1 < w.chain.len() {
                    assert(w.chain[i + 1] == v.chain[i]);
                }
            } else if v.chain.len() > 0 {
                assert(w.chain[1] == v.chain[0]);
            }
        }
        assert forall|i: int, j: int| 0 <= i < j < w.chain.len() implies #[trigger] w.chain[i]
            != #[trigger] w.chain[j] by {
            assert(w.chain[j] == v.chain[j - 1]);
            assert(v.caches.contains_key(v.chain[j - 1]));
            if i > 0 {
                assert(w.chain[i] == v.chain[i - 1]);
            }
        }
        assert forall|x: int| #[trigger] w.caches.contains_key(x) implies x == w.master
            || w.chain.contains(x) by {
            if x == c {
                assert(w.chain[0] == c);
            } else {
                assert(v.caches.contains_key(x));
                if x != v.master {
                    let i = choose|i: int| 0 <= i < v.chain.len() && v.chain[i] == x;
                    assert(w.chain[i + 1] == x);
                }
            }
        }
    }
    assert(listed(w)) by {
        reveal(listed);
        assert forall|q: int| #[trigger] w.slabs.contains_key(q) implies {
            &&& q != 0
            &&& w.caches.contains_key(w.slabs[q].cache)
            &&& w.slabs[q].obj_size == w.caches[w.slabs[q].cache].obj_size
            &&& 0 <= w.slabs[q].list <= 2
            &&& w.list(w.slabs[q].cache, w.slabs[q].list).contains(q)
        } by {
            assert(v.slabs.contains_key(q));
            assert(v.caches.contains_key(v.slabs[q].cache));
        }
    }
    lemma_settled_move(v, w, 0);
}

/// An object that is free holds no cache record.
pub proof fn lemma_no_cache_at(v: KmemView, p: int, k: int, x: int)
    requires
        v.layout_wf(),
        v.slabs.contains_key(p),
        0 <= k < v.cap(p),
        v.slabs[p].free.contains(k),
        v.caches.contains_key(x),
    ensures
        x != v.obj(p, k) + 8,
{
    lemma_placed(v, p, x);
    let hp = v.caches[x].home_slab;
    let hk = v.caches[x].home_obj;
    let l1 = Loc::Back { p, k };
    let l2 = Loc::Back { p: hp, k: hk };
    if l1 != l2 {
        lemma_loc_apart(v, l1, l2);
    }
}

/// `e` holds the master cache alone, at `m`, without a listed slab, and
/// the slab at `p` with the record of the master cache in its first
/// object; `val` has the record of the master cache filled in.
pub open spec fn is_initial(e: KmemView, val: Map<Loc, int>, p: int, m: int) -> bool {
    &&& e.master == m
    &&& m != 0
    &&& p != 0
    &&& e.chain == Seq::<int>::empty()
    &&& e.caches == Map::<int, CacheModel>::empty().insert(m, empty_cache(MASTER_CLASS as int, p, 0))
    &&& e.slabs == Map::<int, SlabModel>::empty().insert(
        p,
        SlabModel {
            free: fresh_slab(m, MASTER_CLASS as int).free.drop_first(),
            used: Set::<int>::empty().insert(0),
            ..fresh_slab(m, MASTER_CLASS as int)
        },
    )
    &&& slab_ok(e, val, p)
    &&& val[Loc::Cache { c: m, f: C_FULL as int }] == 0
    &&& val[Loc::Cache { c: m, f: C_PARTIAL as int }] == 0
    &&& val[Loc::Cache { c: m, f: C_FREE as int }] == 0
    &&& val[Loc::Cache { c: m, f: C_NEXT as int }] == 0
    &&& val[Loc::Cache { c: m, f: C_OBJ_SIZE as int }] == MASTER_CLASS
    &&& val[Loc::Cache { c: m, f: C_OBJ_NUM as int }] == 31
    &&& val[Loc::Cache { c: m, f: C_OBJ_TOTAL as int }] == 31
    &&& val[Loc::Cache { c: m, f: C_OBJ_ACTIVE as int }] == 1
    &&& val[Loc::Cache { c: m, f: C_OBJ_FREE as int }] == 30
}

/// The lists of the master cache are linked while no slab is listed.
pub proof fn lemma_init_lists(e: KmemView, val: Map<Loc, int>, p: int, m: int)
    requires
        is_initial(e, val, p, m),
    ensures
        lists_ok(e, val),
{
    reveal(lists_ok);
    reveal(links_ok);
    reveal(marks_ok);
    assert forall|x: int, id: int| e.caches.contains_key(x) && 0 <= id <= 2 implies #[trigger] list_ok(
        e,
        val,
        x,
        id,
    ) by {
        assert(x == m);
        assert(e.list(m, id) =~= Seq::<int>::empty());
    }
}

/// With its first slab at the head of the partial slabs the master
/// cache is set up: the records are in step with the model.
#[verifier::rlimit(50)]
pub proof fn lemma_init(e: KmemView, val: Map<Loc, int>, p: int, m: int)
    requires
        is_initial(e, val, p, m),
    ensures
        inv(e.list_push(m, 1, p), push_front_val(e, val, m, 1, p)),
        settled(e.list_push(m, 1, p)),
{
    let w = e.list_push(m, 1, p);
    let wal = push_front_val(e, val, m, 1, p);
    lemma_init_lists(e, val, p, m);
    lemma_list_push(e, val, m, 1, p);
    lemma_slab_read(e, val, p);
    lemma_slab_frame(e, val, w, wal, p);
    assert(slabs_ok(w, wal)) by {
        reveal(slabs_ok);
    }
    assert(w.caches[m].full =~= Seq::<int>::empty());
    assert(w.caches[m].free =~= Seq::<int>::empty());
    assert(w.caches[m].partial =~= seq![p] + Seq::<int>::empty());
    lemma_sum_push(w.slabs, Seq::<int>::empty(), p, true);
    lemma_sum_push(w.slabs, Seq::<int>::empty(), p, false);
    assert(counts_ok(w, wal)) by {
        reveal(counts_ok);
        reveal(count_ok);
        assert forall|x: int| #[trigger] w.caches.contains_key(x) implies count_ok(w, wal, x) by {
            assert(x == m);
        }
    }
    assert(chain_ok(w, wal)) by {
        reveal(chain_ok);
    }
    assert(listed(w)) by {
        reveal(listed);
        assert(w.list(m, 1)[0] == p);
    }
    assert(settled(w)) by {
        reveal(settled);
    }
}

/// A new slab for a cache changes no cache but in its list of free
/// slabs.
pub proof fn lemma_grow_keeps(v: KmemView, c: int, x: int)
    requires
        v.caches.contains_key(c),
        v.caches.contains_key(x),
    ensures
        v.grow(c).master == v.master,
        v.grow(c).chain == v.chain,
        v.grow(c).caches.contains_key(x),
        v.grow(c).caches[x].obj_size == v.caches[x].obj_size,
{
}

impl KmemView {
    /// The eight bytes from `a` lie in the user bytes of a live object
    /// other than the one with user address `gone`.
    pub open spec fn user_word_but(self, a: int, gone: Option<int>) -> bool {
        exists|ptr: int, p: int, k: int| #[trigger]
            self.in_object(ptr, p, k, a) && Some(ptr) != gone
    }
}

/// Every object that users hold in `v`, except the one with user
/// address `gone` if one is named, they hold in `w`, in a slab with the
/// same object size.
pub open spec fn users_kept(v: KmemView, w: KmemView, gone: Option<int>) -> bool {
    forall|ptr: int, p: int, k: int| #[trigger]
        v.is_object(ptr, p, k) && Some(ptr) != gone ==> w.is_object(ptr, p, k)
            && w.slabs[p].obj_size == v.slabs[p].obj_size
}

/// Users keep what they hold when an object is taken in use, when a
/// slab enters or leaves a list, and when the heap alone changes.
pub proof fn lemma_users_steps(v: KmemView, p: int, c: int, id: int, t: int, h: HeapView)
    ensures
        users_kept(v, v, None),
        v.slabs.contains_key(p) ==> users_kept(v, v.pop(p), None),
        users_kept(v, v.list_remove(c, id, t), None),
        users_kept(v, v.list_push(c, id, p), None),
        users_kept(v, KmemView { heap: h, ..v }, None),
{
}

/// Users keep what they hold when a slab or a cache joins the model.
pub proof fn lemma_users_new(v: KmemView, p: int, sm: SlabModel, c: int, class: int, k: int)
    ensures
        !v.slabs.contains_key(p) ==> users_kept(v, v.with_slab(p, sm), None),
        users_kept(v, v.add_cache(c, class, p, k), None),
{
}

/// Users keep what they hold when a slab without an object in use
/// leaves the model.
pub proof fn lemma_users_del(v: KmemView, q: int)
    requires
        v.slabs[q].used.finite(),
        v.slabs[q].used.len() == 0,
    ensures
        users_kept(v, KmemView { slabs: v.slabs.remove(q), ..v }, None),
{
    let w = KmemView { slabs: v.slabs.remove(q), ..v };
    assert forall|ptr: int, p: int, k: int| #[trigger]
        v.is_object(ptr, p, k) && Some(ptr) != None::<int> implies w.is_object(ptr, p, k)
        && w.slabs[p].obj_size == v.slabs[p].obj_size by {
        if p == q {
            assert(v.slabs[q].used.contains(k));
            assert(v.slabs[q].used.len() != 0);
        }
    }
}

/// An object that is given back is the only object that users lose.
pub proof fn lemma_users_push(v: KmemView, p: int, k: int)
    requires
        v.slabs.contains_key(p),
    ensures
        users_kept(v, v.push(p, k), Some(v.obj(p, k) + 8)),
{
}

/// No cache holds more than one slab without an object in use.
pub open spec fn thin(v: KmemView) -> bool {
    forall|c: int| #[trigger] v.caches.contains_key(c) ==> v.caches[c].free.len() <= 1
}

/// The slabs of a list hold, free and in use together, as many objects
/// as the list has slabs of the capacity of its cache.
pub proof fn lemma_sum_capacity(v: KmemView, val: Map<Loc, int>, c: int, id: int, n: int)
    requires
        slabs_ok(v, val),
        lists_ok(v, val),
        listed(v),
        v.caches.contains_key(c),
        0 <= id <= 2,
        0 <= n <= v.list(c, id).len(),
    ensures
        sum(v.slabs, v.list(c, id).take(n), true) + sum(v.slabs, v.list(c, id).take(n), false)
            == slab_capacity(v.caches[c].obj_size) * n,
    decreases n,
{
    let l = v.list(c, id);
    let cap = slab_capacity(v.caches[c].obj_size);
    if n > 0 {
        lemma_sum_capacity(v, val, c, id, n - 1);
        let p = l[n - 1];
        lemma_list_read(v, val, c, id, n - 1);
        let u = lemma_listed(v, p);
        assert(slab_ok(v, val, p)) by {
            reveal(slabs_ok);
        }
        lemma_slab_read(v, val, p);
        assert(l.take(n).drop_last() =~= l.take(n - 1));
        assert(l.take(n).last() == p);
        assert(cap * n == cap * (n - 1) + cap) by (nonlinear_arith);
    } else {
        assert(cap * 0 == 0);
    }
}

/// A cache holds, free and in use together, as many objects as it has
/// slabs of its capacity.
pub proof fn lemma_total(v: KmemView, val: Map<Loc, int>, c: int)
    requires
        slabs_ok(v, val),
        lists_ok(v, val),
        listed(v),
        v.caches.contains_key(c),
    ensures
        v.count(c, true) + v.count(c, false) == slab_capacity(v.caches[c].obj_size)
            * v.caches[c].slab_count(),
{
    let cap = slab_capacity(v.caches[c].obj_size);
    let cm = v.caches[c];
    lemma_sum_capacity(v, val, c, 0, cm.full.len() as int);
    lemma_sum_capacity(v, val, c, 1, cm.partial.len() as int);
    lemma_sum_capacity(v, val, c, 2, cm.free.len() as int);
    assert(cm.full.take(cm.full.len() as int) =~= cm.full);
    assert(cm.partial.take(cm.partial.len() as int) =~= cm.partial);
    assert(cm.free.take(cm.free.len() as int) =~= cm.free);
    assert(v.list(c, 0) == cm.full);
    assert(v.list(c, 1) == cm.partial);
    assert(v.list(c, 2) == cm.free);
    let a = cm.full.len() as int;
    let b = cm.partial.len() as int;
    let d = cm.free.len() as int;
    assert(cap * (a + b + d) == cap * a + cap * b + cap * d) by (nonlinear_arith);
}

/// The slab from which the next object of a cache comes is a slab of
/// the cache with a free object; taking the object leaves the slab with
/// that object in use, and the caches as they are.
pub proof fn lemma_picked(v: KmemView, val: Map<Loc, int>, c: int)
    requires
        inv(v, val),
        settled(v),
        v.caches.contains_key(c),
        v.pick(c) != 0,
    ensures
        v.slabs.contains_key(v.pick(c)),
        v.slabs[v.pick(c)].cache == c,
        v.slabs[v.pick(c)].obj_size == v.caches[c].obj_size,
        v.slabs[v.pick(c)].free.len() > 0,
        0 <= v.slabs[v.pick(c)].free[0] < v.cap(v.pick(c)),
        v.slabs[v.pick(c)].free.contains(v.slabs[v.pick(c)].free[0]),
        v.take(c).slabs.contains_key(v.pick(c)),
        v.take(c).slabs[v.pick(c)].cache == c,
        v.take(c).slabs[v.pick(c)].obj_size == v.caches[c].obj_size,
        v.take(c).slabs[v.pick(c)].used.contains(v.slabs[v.pick(c)].free[0]),
        forall|x: int| #[trigger] v.take(c).caches.contains_key(x) ==> v.caches.contains_key(x),
        v.take(c).master == v.master,
{
    let p = v.pick(c);
    let id = v.pick_list(c);
    lemma_list_read(v, val, c, id, 0);
    let t = lemma_listed(v, p);
    assert(v.slabs[p].list == v.slabs[p].state()) by {
        reveal(settled);
    }
    assert(slab_ok(v, val, p)) by {
        reveal(slabs_ok);
    }
    lemma_slab_read(v, val, p);
    assert(v.slabs[p].free.contains(v.slabs[p].free[0]));
}

/// `w` has the slabs of `v`, but for the slab at `p`, as `v` has them,
/// and maybe fewer.
pub open spec fn same_others(v: KmemView, w: KmemView, p: int) -> bool {
    forall|q: int| #[trigger]
        w.slabs.contains_key(q) && q != p ==> v.slabs.contains_key(q) && w.slabs[q].list
            == v.slabs[q].list && w.slabs[q].free == v.slabs[q].free && w.slabs[q].used
            == v.slabs[q].used
}

/// Giving an object back, moving the slab of the object between lists,
/// and letting another slab leave the cache change no other slab that
/// stays.
pub proof fn lemma_same_others(v: KmemView, p: int, k: int, c: int, from: int, t: int, to: int)
    requires
        v.slabs.contains_key(p),
    ensures
        same_others(v, v.push(p, k), p),
        v.list(c, from)[t] == p ==> same_others(v, v.moved(c, from, t, to), p),
        v.list(c, 2).len() > 0 && v.list(c, 2)[0] != p ==> same_others(v, v.spared(c), p),
        same_others(v, v, p),
{
}

/// Slabs that stay as they are through two steps stay as they are.
pub proof fn lemma_same_others_trans(v: KmemView, u: KmemView, w: KmemView, p: int)
    requires
        same_others(v, u, p),
        same_others(u, w, p),
    ensures
        same_others(v, w, p),
{
}

/// Every word in the user bytes of a live object of `v` reads in `m` as
/// it does in `m0`.
pub open spec fn user_same(v: KmemView, m0: &Region, m: &Region) -> bool {
    forall|a: int| v.is_user_word(a) ==> #[trigger] m.word_at(a) == m0.word_at(a)
}

/// From the state `v0` over the heap bytes `m0` to the state `v1` over
/// `m1` users keep their objects, except the one with user address
/// `gone` if one is named, and every word in the user bytes of an object
/// that they keep reads as before.
#[verifier::opaque]
pub open spec fn carried(
    v0: KmemView,
    m0: &Region,
    v1: KmemView,
    m1: &Region,
    gone: Option<int>,
) -> bool {
    &&& users_kept(v0, v1, gone)
    &&& forall|a: int| v0.user_word_but(a, gone) ==> #[trigger] m1.word_at(a) == m0.word_at(a)
}

/// What `carried` says.
pub proof fn lemma_carried(v0: KmemView, m0: &Region, v1: KmemView, m1: &Region, gone: Option<int>)
    requires
        carried(v0, m0, v1, m1, gone),
    ensures
        users_kept(v0, v1, gone),
        forall|a: int| v0.user_word_but(a, gone) ==> #[trigger] m1.word_at(a) == m0.word_at(a),
        gone is None ==> user_same(v0, m0, m1),
{
    reveal(carried);
    if gone is None {
        assert forall|a: int| v0.is_user_word(a) implies #[trigger] m1.word_at(a) == m0.word_at(
            a,
        ) by {
            let (ptr, p, k) = choose|ptr: int, p: int, k: int| #[trigger]
                v0.in_object(ptr, p, k, a);
            assert(v0.in_object(ptr, p, k, a) && Some(ptr) != gone);
        }
    }
}

/// Users keep what they hold where the heap bytes change only through
/// stores that leave the user words of a state `u` as they were, in
/// which users hold what they held before.
pub proof fn lemma_carried_intro(
    v0: KmemView,
    m0: &Region,
    u: KmemView,
    v1: KmemView,
    m1: &Region,
    gone: Option<int>,
)
    requires
        users_kept(v0, u, gone),
        users_kept(v0, v1, gone),
        user_same(u, m0, m1),
    ensures
        carried(v0, m0, v1, m1, gone),
{
    reveal(carried);
    assert forall|a: int| v0.user_word_but(a, gone) implies #[trigger] m1.word_at(a)
        == m0.word_at(a) by {
        let (ptr, p, k) = choose|ptr: int, p: int, k: int| #[trigger]
            v0.in_object(ptr, p, k, a) && Some(ptr) != gone;
        assert(v0.is_object(ptr, p, k));
        assert(u.in_object(ptr, p, k, a));
    }
}

/// Users keep through two steps what they keep through each.
pub proof fn lemma_carried_trans(
    v0: KmemView,
    m0: &Region,
    v1: KmemView,
    m1: &Region,
    v2: KmemView,
    m2: &Region,
    gone: Option<int>,
)
    requires
        carried(v0, m0, v1, m1, gone),
        carried(v1, m1, v2, m2, None),
    ensures
        carried(v0, m0, v2, m2, gone),
{
    reveal(carried);
    assert forall|ptr: int, p: int, k: int| #[trigger]
        v0.is_object(ptr, p, k) && Some(ptr) != gone implies v2.is_object(ptr, p, k)
        && v2.slabs[p].obj_size == v0.slabs[p].obj_size by {
        assert(v1.is_object(ptr, p, k));
    }
    assert forall|a: int| v0.user_word_but(a, gone) implies #[trigger] m2.word_at(a)
        == m0.word_at(a) by {
        let (ptr, p, k) = choose|ptr: int, p: int, k: int| #[trigger]
            v0.in_object(ptr, p, k, a) && Some(ptr) != gone;
        assert(v0.is_object(ptr, p, k));
        assert(v1.in_object(ptr, p, k, a) && Some(ptr) != None::<int>);
        assert(m1.word_at(a) == m0.word_at(a));
    }
}

/// A store into a word that the allocator keeps leaves every user word
/// as it was.
pub proof fn lemma_store_user(m1: &Region, m2: &Region, v: KmemView, loc: Loc)
    requires
        v.layout_wf(),
        v.valid(loc),
        m2.same_except(m1, v.addr(loc), v.addr(loc) + 8),
    ensures
        user_same(v, m1, m2),
{
    assert forall|a: int| v.is_user_word(a) implies #[trigger] m2.word_at(a) == m1.word_at(a) by {
        lemma_user_word(v, a, loc);
    }
}

/// A change of the heap that leaves what is in user hands, as far as the
/// heap is concerned, as it was leaves every user word as it was.
pub proof fn lemma_keep_user(m1: &Region, m2: &Region, v: KmemView)
    requires
        v.layout_wf(),
        forall|a: int| v.heap.is_live_word(a) ==> #[trigger] m2.word_at(a) == m1.word_at(a),
    ensures
        user_same(v, m1, m2),
{
    assert forall|a: int| v.is_user_word(a) implies #[trigger] m2.word_at(a) == m1.word_at(a) by {
        lemma_user_word(v, a, Loc::Hdr { p: 0, f: 0 });
    }
}

} // verus!
