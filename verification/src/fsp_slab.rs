//! The slab allocator: caches of equal-sized objects carved from pages
//! of the heap.

use crate::fsp_alloc::FspAlloc;
use crate::heap_laws::{lemma_alloc_live, lemma_free_live, lemma_live_aligned};
use crate::heap_model::HeapView;
use crate::slab_layout::{
    class_of, is_valid_layout, lemma_capacity, lemma_class_of, lemma_obj, lemma_obj_apart,
    obj_addr, size_class, slab_capacity, slab_space, valid_class, MASTER_CLASS, PAGE_ALIGN,
    PAGE_SIZE, PTR_SIZE, SLAB_HEAD,
};
use crate::slab_model::{
    adopt_cache, adopt_slab, at, carried, chain_ok, empty_cache, fresh_slab, give_val, grow_val,
    head, inv, is_created, is_grown, is_initial, lemma_add_cache, lemma_add_slab, lemma_carried,
    lemma_carried_intro, lemma_carried_trans, lemma_chain_read, lemma_count_read, lemma_del_slab,
    lemma_grow_lists, lemma_init, lemma_init_lists, lemma_keep_user, lemma_layout_heap,
    lemma_layout_same, lemma_list_read, lemma_list_remove, lemma_listed, lemma_loc, lemma_mem_keep,
    lemma_mem_one, lemma_mem_read, lemma_mem_sub, lemma_mem_user, lemma_mem_write,
    lemma_no_cache_at, lemma_picked, lemma_placed, lemma_pop, lemma_pop_layout, lemma_push,
    lemma_push_layout, lemma_same_others, lemma_same_others_trans, lemma_settled_move,
    lemma_slab_frame, lemma_slab_read, lemma_step_create, lemma_step_grow, lemma_step_move,
    lemma_step_pop, lemma_step_push, lemma_step_shrink, lemma_store_user, lemma_total,
    lemma_user_word, lemma_users_del, lemma_users_new, lemma_users_push, lemma_users_steps,
    lists_ok, mem_ok, of_slab, pop_val, push_front_val, push_val, remove_val, same_slab, settled,
    shrink_val, slab_ok, slabs_ok, take_val, thin, user_same, users_kept, C_FREE, C_FULL, C_NEXT,
    C_OBJ_ACTIVE, C_OBJ_FREE, C_OBJ_NUM, C_OBJ_SIZE, C_OBJ_TOTAL, C_PARTIAL, CacheModel, H_CACHE,
    H_CAPACITY, H_END, H_FREE, H_FREE_HEAD, H_INUSE, H_NEXT, H_OBJ_SIZE, H_PREV, H_START, KmemView,
    Loc, SlabModel,
};
use vstd::prelude::*;

verus! {

/// The slab allocator, with the heap below it.
pub struct KmemCache {
    heap: FspAlloc,
    master: usize,
    model: Ghost<KmemView>,
    val: Ghost<Map<Loc, int>>,
}

impl KmemCache {
    /// The caches, the slabs and the heap.
    pub closed spec fn view(&self) -> KmemView {
        self.model@
    }

    /// What the heap holds at each word that the allocator keeps.
    spec fn val(&self) -> Map<Loc, int> {
        self.val@
    }

    /// The heap below the allocator.
    pub closed spec fn heap(&self) -> &FspAlloc {
        &self.heap
    }

    /// The heap is sound, every slab and every cache record has its
    /// place in it, and the records are what the heap holds.
    spec fn base_ok(&self) -> bool {
        &&& self.heap.wf()
        &&& self.model@.heap == self.heap@
        &&& self.model@.master == self.master
        &&& self.model@.layout_wf()
        &&& mem_ok(self.heap.mem(), self.model@, self.val@)
    }

    /// Every word in the user bytes of a live object of `before` reads
    /// in `self` as it does in `before`.
    spec fn stored(&self, before: &KmemCache) -> bool {
        user_same(before@, before.heap.mem(), self.heap.mem())
    }

    /// From `before` to `self` users keep their objects, except the one
    /// with user address `gone` if one is named, and every word in the
    /// user bytes of an object that they keep reads as before.
    spec fn kept(&self, before: &KmemCache, gone: Option<int>) -> bool {
        carried(before@, before.heap.mem(), self@, self.heap.mem(), gone)
    }

    /// Users keep through two steps what they keep through each.
    proof fn lemma_kept_trans(&self, first: &KmemCache, then: &KmemCache, gone: Option<int>)
        requires
            then.kept(first, gone),
            self.kept(then, None),
        ensures
            self.kept(first, gone),
    {
        lemma_carried_trans(
            first@,
            first.heap.mem(),
            then@,
            then.heap.mem(),
            self@,
            self.heap.mem(),
            gone,
        );
    }

    /// What users keep: every word in the user bytes of an object that
    /// they hold before and after is a user word after, and reads as
    /// before.
    proof fn lemma_kept_use(&self, first: &KmemCache, gone: Option<int>)
        requires
            self.kept(first, gone),
        ensures
            users_kept(first@, self@, gone),
            forall|a: int| #[trigger]
                first@.user_word_but(a, gone) ==> self@.is_user_word(a) && self.heap.mem().word_at(
                    a,
                ) == first.heap.mem().word_at(a),
            gone is None ==> forall|a: int| #[trigger]
                first@.is_user_word(a) ==> self@.is_user_word(a) && self.heap.mem().word_at(a)
                    == first.heap.mem().word_at(a),
    {
        lemma_carried(first@, first.heap.mem(), self@, self.heap.mem(), gone);
        assert forall|a: int| #[trigger] first@.user_word_but(a, gone) implies self@.is_user_word(
            a,
        ) && self.heap.mem().word_at(a) == first.heap.mem().word_at(a) by {
            let (ptr, p, k) = choose|ptr: int, p: int, k: int| #[trigger]
                first@.in_object(ptr, p, k, a) && Some(ptr) != gone;
            assert(first@.is_object(ptr, p, k));
            assert(self@.in_object(ptr, p, k, a));
        }
        if gone is None {
            assert forall|a: int| #[trigger] first@.is_user_word(a) implies self@.is_user_word(a)
                && self.heap.mem().word_at(a) == first.heap.mem().word_at(a) by {
                let (ptr, p, k) = choose|ptr: int, p: int, k: int| #[trigger]
                    first@.in_object(ptr, p, k, a);
                assert(first@.in_object(ptr, p, k, a) && Some(ptr) != gone);
                assert(first@.user_word_but(a, gone));
            }
        }
    }

    /// Users keep what they hold where nothing changes.
    proof fn lemma_kept_same(&self, gone: Option<int>)
        ensures
            self.kept(self, gone),
    {
        lemma_carried_intro(self@, self.heap.mem(), self@, self@, self.heap.mem(), gone);
    }

    /// Users keep what they hold through stores that leave their words
    /// as they are, and a change of the model that keeps their objects.
    proof fn lemma_kept_stores(&self, first: &KmemCache, during: KmemView, gone: Option<int>)
        requires
            users_kept(first@, during, gone),
            users_kept(first@, self@, gone),
            user_same(during, first.heap.mem(), self.heap.mem()),
        ensures
            self.kept(first, gone),
    {
        lemma_carried_intro(first@, first.heap.mem(), during, self@, self.heap.mem(), gone);
    }

    /// Reads the word `loc`, which lies at `addr`.
    fn load(&self, addr: usize, Ghost(loc): Ghost<Loc>) -> (r: usize)
        requires
            self.base_ok(),
            self@.valid(loc),
            addr == self@.addr(loc),
        ensures
            r == self.val()[loc],
    {
        proof {
            lemma_loc(self.model@, loc);
            lemma_mem_read(self.heap.mem(), self.model@, self.val@, loc);
        }
        self.heap.read_word(addr)
    }

    /// Stores `x` in the word `loc`, which lies at `addr`.
    fn store(&mut self, addr: usize, x: usize, Ghost(loc): Ghost<Loc>)
        requires
            old(self).base_ok(),
            old(self)@.valid(loc),
            addr == old(self)@.addr(loc),
        ensures
            final(self).base_ok(),
            final(self)@ == old(self)@,
            final(self).val() == old(self).val().insert(loc, x as int),
            final(self).stored(old(self)),
    {
        proof {
            lemma_loc(self.model@, loc);
        }
        self.heap.write_word(addr, x);
        proof {
            lemma_store_user(old(self).heap.mem(), self.heap.mem(), self.model@, loc);
            lemma_mem_write(
                old(self).heap.mem(),
                self.heap.mem(),
                self.model@,
                self.val@,
                loc,
                x as int,
            );
            self.val@ = self.val@.insert(loc, x as int);
        }
    }

    /// Takes the first free object of the slab at `p` in use and returns
    /// its user address: the address behind its back pointer.
    fn slab_alloc(&mut self, p: usize) -> (r: usize)
        requires
            old(self).base_ok(),
            old(self)@.slabs.contains_key(p as int),
            slab_ok(old(self)@, old(self).val(), p as int),
            old(self)@.slabs[p as int].free.len() > 0,
        ensures
            final(self).base_ok(),
            final(self)@ == old(self)@.pop(p as int),
            final(self).val() == pop_val(old(self)@, old(self).val(), p as int),
            slab_ok(final(self)@, final(self).val(), p as int),
            r == old(self)@.free_obj(p as int, 0) + PTR_SIZE,
            r != 0,
            final(self).kept(old(self), None),
    {
        let ghost v = self.model@;
        let ghost k = v.slabs[p as int].free[0];
        proof {
            lemma_placed(v, p as int, 0);
            lemma_slab_read(v, self.val@, p as int);
            lemma_pop_layout(v, self.val@, p as int);
            lemma_pop(v, self.val@, p as int);
            lemma_obj(p as int, v.slabs[p as int].obj_size, k);
        }
        let head: usize = self.load(p + 8 * H_FREE_HEAD, Ghost(Loc::Hdr { p: p as int, f: 2 }));
        let next: usize = self.load(head + 8, Ghost(Loc::Next { p: p as int, k }));
        let inuse: usize = self.load(p + 8 * H_INUSE, Ghost(Loc::Hdr { p: p as int, f: 3 }));
        let free: usize = self.load(p + 8 * H_FREE, Ghost(Loc::Hdr { p: p as int, f: 4 }));
        self.store(p + 8 * H_FREE_HEAD, next, Ghost(Loc::Hdr { p: p as int, f: 2 }));
        self.store(p + 8 * H_INUSE, inuse + 1, Ghost(Loc::Hdr { p: p as int, f: 3 }));
        self.store(p + 8 * H_FREE, free - 1, Ghost(Loc::Hdr { p: p as int, f: 4 }));
        proof {
            lemma_mem_sub(self.heap.mem(), v, v.pop(p as int), self.val@);
            self.model@ = v.pop(p as int);
            lemma_users_steps(v, p as int, 0, 0, 0, v.heap);
            self.lemma_kept_stores(old(self), v, None);
        }
        head + PTR_SIZE
    }

    /// Gives object `k` of the slab at `p`, which lies at `o`, back: it
    /// heads the free objects of the slab.
    #[verifier::rlimit(50)]
    fn slab_dealloc(&mut self, p: usize, o: usize, Ghost(k): Ghost<int>)
        requires
            old(self).base_ok(),
            old(self)@.slabs.contains_key(p as int),
            slab_ok(old(self)@, old(self).val(), p as int),
            old(self)@.slabs[p as int].used.contains(k),
            old(self)@.slabs[p as int].cache != old(self)@.master,
            o == old(self)@.obj(p as int, k),
        ensures
            final(self).base_ok(),
            final(self)@ == old(self)@.push(p as int, k),
            final(self).val() == push_val(old(self)@, old(self).val(), p as int, k),
            final(self).kept(old(self), Some(o + PTR_SIZE)),
    {
        let ghost v = self.model@;
        let ghost w = v.push(p as int, k);
        let ghost val0 = self.val@;
        let ghost next = Loc::Next { p: p as int, k };
        proof {
            lemma_placed(v, p as int, 0);
            lemma_slab_read(v, self.val@, p as int);
            lemma_push_layout(v, self.val@, p as int, k);
            lemma_push(v, self.val@, p as int, k);
            lemma_obj(p as int, v.slabs[p as int].obj_size, k);
        }
        let first: usize = self.load(p + 8 * H_FREE_HEAD, Ghost(Loc::Hdr { p: p as int, f: 2 }));
        let inuse: usize = self.load(p + 8 * H_INUSE, Ghost(Loc::Hdr { p: p as int, f: 3 }));
        let free: usize = self.load(p + 8 * H_FREE, Ghost(Loc::Hdr { p: p as int, f: 4 }));
        proof {
            // The link of the object is a word of the allocator again.
            lemma_mem_one(self.heap.mem(), v, w, self.val@, next);
            self.val@ = self.val@.insert(next, self.heap.mem().word_at(w.addr(next)) as int);
            self.model@ = w;
        }
        self.store(o + 8, first, Ghost(next));
        self.store(p + 8 * H_FREE_HEAD, o, Ghost(Loc::Hdr { p: p as int, f: 2 }));
        self.store(p + 8 * H_INUSE, inuse - 1, Ghost(Loc::Hdr { p: p as int, f: 3 }));
        self.store(p + 8 * H_FREE, free + 1, Ghost(Loc::Hdr { p: p as int, f: 4 }));
        proof {
            assert(self.val@ =~= push_val(v, val0, p as int, k));
            lemma_users_push(v, p as int, k);
            self.lemma_kept_stores(old(self), w, Some(o + PTR_SIZE));
        }
    }

    /// Takes the slab at `p`, entry `t` of list `id` of the cache at `c`,
    /// out of that list.
    #[verifier::rlimit(50)]
    fn list_remove(&mut self, c: usize, id: usize, p: usize, Ghost(t): Ghost<int>)
        requires
            old(self).base_ok(),
            lists_ok(old(self)@, old(self).val()),
            old(self)@.caches.contains_key(c as int),
            id <= 2,
            0 <= t < old(self)@.list(c as int, id as int).len(),
            old(self)@.list(c as int, id as int)[t] == p,
        ensures
            final(self).base_ok(),
            final(self)@ == old(self)@.list_remove(c as int, id as int, t),
            final(self).val() == remove_val(old(self)@, old(self).val(), c as int, id as int, t),
            final(self).kept(old(self), None),
    {
        let ghost v = self.model@;
        let ghost w = v.list_remove(c as int, id as int, t);
        let ghost l = v.list(c as int, id as int);
        proof {
            lemma_list_read(v, self.val@, c as int, id as int, t);
            lemma_list_read(v, self.val@, c as int, id as int, t - 1);
            lemma_list_read(v, self.val@, c as int, id as int, t + 1);
            lemma_placed(v, p as int, c as int);
            lemma_placed(v, at(l, t - 1), 0);
            lemma_placed(v, at(l, t + 1), 0);
        }
        let prev: usize = self.load(p + 8 * H_PREV, Ghost(Loc::Hdr { p: p as int, f: 1 }));
        let next: usize = self.load(p + 8 * H_NEXT, Ghost(Loc::Hdr { p: p as int, f: 0 }));
        if prev != 0 {
            self.store(prev + 8 * H_NEXT, next, Ghost(Loc::Hdr { p: prev as int, f: 0 }));
        } else {
            self.store(c + 8 * id, next, Ghost(Loc::Cache { c: c as int, f: id as int }));
        }
        if next != 0 {
            self.store(next + 8 * H_PREV, prev, Ghost(Loc::Hdr { p: next as int, f: 1 }));
        }
        proof {
            lemma_layout_same(v, w);
            lemma_mem_sub(self.heap.mem(), v, w, self.val@);
            self.model@ = w;
            lemma_users_steps(v, p as int, c as int, id as int, t, v.heap);
            self.lemma_kept_stores(old(self), v, None);
        }
    }

    /// Puts the slab at `p`, which no list holds, at the head of list
    /// `id` of the cache at `c`.
    fn list_push(&mut self, c: usize, id: usize, p: usize)
        requires
            old(self).base_ok(),
            lists_ok(old(self)@, old(self).val()),
            old(self)@.caches.contains_key(c as int),
            id <= 2,
            old(self)@.slabs.contains_key(p as int),
        ensures
            final(self).base_ok(),
            final(self)@ == old(self)@.list_push(c as int, id as int, p as int),
            final(self).val() == push_front_val(
                old(self)@,
                old(self).val(),
                c as int,
                id as int,
                p as int,
            ),
            final(self).kept(old(self), None),
    {
        let ghost v = self.model@;
        let ghost w = v.list_push(c as int, id as int, p as int);
        let ghost l = v.list(c as int, id as int);
        proof {
            lemma_list_read(v, self.val@, c as int, id as int, 0);
            lemma_placed(v, p as int, c as int);
            lemma_placed(v, head(l), 0);
        }
        let first: usize = self.load(c + 8 * id, Ghost(Loc::Cache { c: c as int, f: id as int }));
        if first != 0 {
            self.store(first + 8 * H_PREV, p, Ghost(Loc::Hdr { p: first as int, f: 1 }));
        }
        self.store(p + 8 * H_NEXT, first, Ghost(Loc::Hdr { p: p as int, f: 0 }));
        self.store(p + 8 * H_PREV, 0, Ghost(Loc::Hdr { p: p as int, f: 1 }));
        self.store(c + 8 * id, p, Ghost(Loc::Cache { c: c as int, f: id as int }));
        proof {
            lemma_layout_same(v, w);
            lemma_mem_sub(self.heap.mem(), v, w, self.val@);
            self.model@ = w;
            lemma_users_steps(v, p as int, c as int, id as int, 0, v.heap);
            self.lemma_kept_stores(old(self), v, None);
        }
    }

    /// Moves the slab at `p`, entry `t` of list `from` of the cache at
    /// `c`, to the head of list `to` of that cache.
    fn kmem_put(&mut self, c: usize, from: usize, to: usize, p: usize, Ghost(t): Ghost<int>)
        requires
            old(self).base_ok(),
            inv(old(self)@, old(self).val()),
            old(self)@.caches.contains_key(c as int),
            from <= 2,
            to <= 2,
            from != to,
            0 <= t < old(self)@.list(c as int, from as int).len(),
            old(self)@.list(c as int, from as int)[t] == p,
        ensures
            final(self).base_ok(),
            inv(final(self)@, final(self).val()),
            final(self)@ == old(self)@.moved(c as int, from as int, t, to as int),
            final(self).kept(old(self), None),
    {
        proof {
            lemma_step_move(self.model@, self.val@, c as int, from as int, t, to as int);
            lemma_list_remove(self.model@, self.val@, c as int, from as int, t);
            lemma_list_read(self.model@, self.val@, c as int, from as int, t);
        }
        self.list_remove(c, from, p, Ghost(t));
        let ghost mid = *self;
        self.list_push(c, to, p);
        proof {
            self.lemma_kept_trans(old(self), &mid, None);
        }
    }

    /// Moves the first partial slab of the cache at `c`, which has no
    /// free object, to the head of the full slabs.
    fn kmem_put_partial_into_full(&mut self, c: usize)
        requires
            old(self).base_ok(),
            inv(old(self)@, old(self).val()),
            old(self)@.caches.contains_key(c as int),
            old(self)@.list(c as int, 1).len() > 0,
        ensures
            final(self).base_ok(),
            inv(final(self)@, final(self).val()),
            final(self)@ == old(self)@.moved(c as int, 1, 0, 0),
            final(self).kept(old(self), None),
    {
        proof {
            lemma_list_read(self.model@, self.val@, c as int, 1, 0);
            lemma_placed(self.model@, 0, c as int);
        }
        let p: usize = self.load(c + 8 * C_PARTIAL, Ghost(Loc::Cache { c: c as int, f: 1 }));
        self.kmem_put(c, 1, 0, p, Ghost(0));
    }

    /// Moves the first free slab of the cache at `c`, which has its
    /// first object in use, to the head of the partial slabs.
    fn kmem_put_free_into_partial(&mut self, c: usize)
        requires
            old(self).base_ok(),
            inv(old(self)@, old(self).val()),
            old(self)@.caches.contains_key(c as int),
            old(self)@.list(c as int, 2).len() > 0,
        ensures
            final(self).base_ok(),
            inv(final(self)@, final(self).val()),
            final(self)@ == old(self)@.moved(c as int, 2, 0, 1),
            final(self).kept(old(self), None),
    {
        proof {
            lemma_list_read(self.model@, self.val@, c as int, 2, 0);
            lemma_placed(self.model@, 0, c as int);
        }
        let p: usize = self.load(c + 8 * C_FREE, Ghost(Loc::Cache { c: c as int, f: 2 }));
        self.kmem_put(c, 2, 1, p, Ghost(0));
    }

    /// Moves the slab at `p`, a full slab of the cache at `c` until its
    /// first object was given back, to the head of the partial slabs.
    fn kmem_put_full_into_partial(&mut self, c: usize, p: usize)
        requires
            old(self).base_ok(),
            inv(old(self)@, old(self).val()),
            old(self)@.slabs.contains_key(p as int),
            old(self)@.slabs[p as int].cache == c,
            old(self)@.slabs[p as int].list == 0,
        ensures
            final(self).base_ok(),
            inv(final(self)@, final(self).val()),
            final(self)@ == old(self)@.moved(
                c as int,
                0,
                old(self)@.list(c as int, 0).index_of(p as int),
                1,
            ),
            final(self).kept(old(self), None),
    {
        let ghost t = self.model@.list(c as int, 0).index_of(p as int);
        proof {
            let u = lemma_listed(self.model@, p as int);
        }
        self.kmem_put(c, 0, 1, p, Ghost(t));
    }

    /// Moves the slab at `p`, a partial slab of the cache at `c` until
    /// its last object in use was given back, to the head of the free
    /// slabs. The free slab that the cache has, if any, goes back to the
    /// heap before.
    fn kmem_put_partial_into_free(&mut self, c: usize, p: usize)
        requires
            old(self).base_ok(),
            inv(old(self)@, old(self).val()),
            old(self)@.slabs.contains_key(p as int),
            old(self)@.slabs[p as int].cache == c,
            old(self)@.slabs[p as int].list == 1,
            old(self)@.list(c as int, 2).len() > 0 ==> old(self)@.slabs[old(self)@.list(
                c as int,
                2,
            )[0]].used.len() == 0,
        ensures
            final(self).base_ok(),
            inv(final(self)@, final(self).val()),
            final(self)@ == old(self)@.spared(c as int).moved(
                c as int,
                1,
                old(self)@.spared(c as int).list(c as int, 1).index_of(p as int),
                2,
            ),
            old(self)@.spared(c as int).list(c as int, 1)[old(self)@.spared(c as int).list(
                c as int,
                1,
            ).index_of(p as int)] == p,
            final(self).kept(old(self), None),
    {
        let ghost v = self.model@;
        let ghost ci = c as int;
        proof {
            let u = lemma_listed(v, p as int);
            lemma_list_read(v, self.val@, ci, 2, 0);
            lemma_placed(v, 0, ci);
        }
        let first: usize = self.load(c + 8 * C_FREE, Ghost(Loc::Cache { c: ci, f: 2 }));
        proof {
            self.lemma_kept_same(None);
        }
        if first != 0 {
            self.kmem_shrink(c);
        }
        let ghost mid = *self;
        let ghost v2 = self.model@;
        let ghost t = v2.list(ci, 1).index_of(p as int);
        proof {
            assert(v2 == v.spared(ci));
            assert(v2.slabs.contains_key(p as int));
            let u = lemma_listed(v2, p as int);
        }
        self.kmem_put(c, 1, 2, p, Ghost(t));
        proof {
            self.lemma_kept_trans(old(self), &mid, None);
        }
    }

    /// The heap is sound, and the caches, the lists and the slabs in it
    /// are what the model says, each slab in the list in which it
    /// belongs.
    pub closed spec fn wf(&self) -> bool {
        &&& self.base_ok()
        &&& inv(self.model@, self.val@)
        &&& settled(self.model@)
        &&& thin(self.model@)
    }

    /// Takes the next object of the cache at `c` in use and returns its
    /// user address; zero, with nothing changed, where no slab of the
    /// cache has a free object.
    #[verifier::rlimit(50)]
    fn kmem_search_slab(&mut self, c: usize) -> (r: usize)
        requires
            old(self).wf(),
            old(self)@.caches.contains_key(c as int),
        ensures
            final(self).wf(),
            r == 0 <==> old(self)@.pick(c as int) == 0,
            final(self).kept(old(self), None),
            old(self)@.pick(c as int) == 0 ==> r == 0 && final(self)@ == old(self)@,
            old(self)@.pick(c as int) != 0 ==> r == old(self)@.take_addr(c as int) && final(self)@
                == old(self)@.take(c as int),
    {
        let ghost v = self.model@;
        let ghost val0 = self.val@;
        proof {
            lemma_list_read(v, self.val@, c as int, 1, 0);
            lemma_list_read(v, self.val@, c as int, 2, 0);
            lemma_placed(v, 0, c as int);
        }
        let mut p: usize = self.load(c + 8 * C_PARTIAL, Ghost(Loc::Cache { c: c as int, f: 1 }));
        let mut from: usize = 1;
        if p == 0 {
            p = self.load(c + 8 * C_FREE, Ghost(Loc::Cache { c: c as int, f: 2 }));
            from = 2;
            if p == 0 {
                proof {
                    self.lemma_kept_same(None);
                }
                return 0;
            }
        }
        proof {
            assert(v.slabs[p as int].state() == from) by {
                reveal(settled);
            }
            assert(slab_ok(v, self.val@, p as int)) by {
                reveal(slabs_ok);
            }
            lemma_step_pop(v, self.val@, p as int);
            lemma_count_read(v, self.val@, c as int);
            lemma_placed(v, p as int, 0);
        }
        let r: usize = self.slab_alloc(p);
        let ghost mut last = *self;
        let nfree: usize = self.load(c + 8 * C_OBJ_FREE, Ghost(Loc::Cache { c: c as int, f: 12 }));
        let nused: usize = self.load(
            c + 8 * C_OBJ_ACTIVE,
            Ghost(Loc::Cache { c: c as int, f: 11 }),
        );
        self.store(c + 8 * C_OBJ_FREE, nfree - 1, Ghost(Loc::Cache { c: c as int, f: 12 }));
        self.store(c + 8 * C_OBJ_ACTIVE, nused + 1, Ghost(Loc::Cache { c: c as int, f: 11 }));
        let ghost v1 = self.model@;
        proof {
            lemma_users_steps(v1, 0, 0, 0, 0, v1.heap);
            self.lemma_kept_stores(&last, v1, None);
            self.lemma_kept_trans(old(self), &last, None);
            last = *self;
            assert(self.val@ == take_val(v, val0, p as int));
            assert(v1.slabs.contains_key(p as int));
            assert(slab_ok(v1, self.val@, p as int)) by {
                reveal(slabs_ok);
            }
            lemma_slab_read(v1, self.val@, p as int);
        }
        let left: usize = self.load(p + 8 * H_FREE, Ghost(Loc::Hdr { p: p as int, f: 4 }));
        if from == 2 {
            self.kmem_put_free_into_partial(c);
            proof {
                self.lemma_kept_trans(old(self), &last, None);
                last = *self;
            }
        }
        let ghost v2 = self.model@;
        if left == 0 {
            self.kmem_put_partial_into_full(c);
            proof {
                self.lemma_kept_trans(old(self), &last, None);
                last = *self;
            }
        }
        proof {
            lemma_settled_move(v, self.model@, p as int);
        }
        r
    }

    /// Makes the page at `p` a slab of the cache at `cache` with objects
    /// of size `osz`: writes the header, gives every object its back
    /// pointer, and chains all objects as free, in address order.
    #[verifier::rlimit(50)]
    fn slab_init(&mut self, p: usize, osz: usize, cache: usize)
        requires
            old(self).base_ok(),
            !old(self)@.slabs.contains_key(p as int),
            old(self)@.heap.is_live(p as int),
            old(self)@.heap.usable(p as int) >= PAGE_SIZE,
            valid_class(osz as int),
        ensures
            final(self).base_ok(),
            final(self)@ == old(self)@.with_slab(p as int, fresh_slab(cache as int, osz as int)),
            slab_ok(final(self)@, final(self).val(), p as int),
            final(self).val()[Loc::Hdr { p: p as int, f: H_NEXT as int }] == 0,
            final(self).val()[Loc::Hdr { p: p as int, f: H_PREV as int }] == 0,
            forall|loc: Loc|
                !of_slab(loc, p as int) ==> #[trigger] final(self).val()[loc] == old(self).val()[loc],
            final(self).kept(old(self), None),
    {
        let ghost v = self.model@;
        let ghost val0 = self.val@;
        let ghost m0 = *self.heap.mem();
        let ghost w = v.with_slab(p as int, fresh_slab(cache as int, osz as int));
        let ghost pi = p as int;
        proof {
            lemma_add_slab(self.heap.mem(), v, self.val@, pi, cache as int, osz as int);
            self.val@ = adopt_slab(self.heap.mem(), w, self.val@, pi);
            self.model@ = w;
            lemma_placed(w, pi, 0);
            lemma_capacity(osz as int);
        }
        let obj_num: usize = PAGE_SIZE / osz;
        let self_space: usize = (SLAB_HEAD + osz - 1) / osz * osz;
        let capacity: usize = obj_num - self_space / osz;
        self.store(p + 8 * H_INUSE, 0, Ghost(Loc::Hdr { p: pi, f: 3 }));
        self.store(p + 8 * H_START, p, Ghost(Loc::Hdr { p: pi, f: 7 }));
        self.store(p + 8 * H_END, p + PAGE_SIZE, Ghost(Loc::Hdr { p: pi, f: 8 }));
        self.store(p + 8 * H_CACHE, cache, Ghost(Loc::Hdr { p: pi, f: 9 }));
        self.store(p + 8 * H_NEXT, 0, Ghost(Loc::Hdr { p: pi, f: 0 }));
        self.store(p + 8 * H_PREV, 0, Ghost(Loc::Hdr { p: pi, f: 1 }));
        self.store(p + 8 * H_OBJ_SIZE, osz, Ghost(Loc::Hdr { p: pi, f: 6 }));
        self.store(p + 8 * H_CAPACITY, capacity, Ghost(Loc::Hdr { p: pi, f: 5 }));
        self.store(p + 8 * H_FREE, capacity, Ghost(Loc::Hdr { p: pi, f: 4 }));
        self.store(p + 8 * H_FREE_HEAD, p + self_space, Ghost(Loc::Hdr { p: pi, f: 2 }));
        let mut ptr: usize = p + self_space;
        let mut i: usize = 0;
        proof {
            lemma_obj(pi, osz as int, 0);
        }
        while i < capacity
            invariant
                self.base_ok(),
                self.model@ == w,
                user_same(w, &m0, self.heap.mem()),
                pi == p as int,
                w.slabs.contains_key(pi),
                w.slabs[pi] == fresh_slab(cache as int, osz as int),
                valid_class(osz as int),
                capacity == slab_capacity(osz as int),
                0 <= i <= capacity,
                i < capacity ==> ptr == obj_addr(pi, osz as int, i as int),
                pi + PAGE_SIZE <= usize::MAX,
                forall|loc: Loc| !of_slab(loc, pi) ==> #[trigger] self.val@[loc] == val0[loc],
                self.val@[Loc::Hdr { p: pi, f: 0 }] == 0,
                self.val@[Loc::Hdr { p: pi, f: 1 }] == 0,
                self.val@[Loc::Hdr { p: pi, f: 2 }] == obj_addr(pi, osz as int, 0),
                self.val@[Loc::Hdr { p: pi, f: 3 }] == 0,
                self.val@[Loc::Hdr { p: pi, f: 4 }] == capacity,
                self.val@[Loc::Hdr { p: pi, f: 5 }] == capacity,
                self.val@[Loc::Hdr { p: pi, f: 6 }] == osz,
                self.val@[Loc::Hdr { p: pi, f: 7 }] == pi,
                self.val@[Loc::Hdr { p: pi, f: 8 }] == pi + PAGE_SIZE,
                self.val@[Loc::Hdr { p: pi, f: 9 }] == cache,
                forall|j: int|
                    0 <= j < i ==> #[trigger] self.val@[Loc::Back { p: pi, k: j }] == pi,
                forall|j: int|
                    0 <= j < i ==> #[trigger] self.val@[Loc::Next { p: pi, k: j }] == (if j + 1
                        < capacity {
                        obj_addr(pi, osz as int, j + 1)
                    } else {
                        0
                    }),
            decreases capacity - i,
        {
            proof {
                lemma_obj(pi, osz as int, i as int);
                assert(w.slabs[pi].free[i as int] == i);
                assert(w.slabs[pi].free.contains(i as int));
            }
            self.store(ptr, p, Ghost(Loc::Back { p: pi, k: i as int }));
            let next: usize = if i + 1 < capacity {
                ptr + osz
            } else {
                0
            };
            self.store(ptr + 8, next, Ghost(Loc::Next { p: pi, k: i as int }));
            if i + 1 < capacity {
                ptr = ptr + osz;
            }
            i = i + 1;
            proof {
                if i < capacity {
                    assert(ptr == obj_addr(pi, osz as int, i as int));
                }
            }
        }
        proof {
            let sm = w.slabs[pi];
            reveal(slab_ok);
            assert forall|t: int| 0 <= t < sm.free.len() implies self.val@[Loc::Next {
                p: pi,
                k: #[trigger] sm.free[t],
            }] == w.free_obj(pi, t + 1) by {
                assert(sm.free[t] == t);
                if t + 1 < sm.free.len() {
                    assert(sm.free[t + 1] == t + 1);
                }
            }
            assert(sm.free[0] == 0);
            lemma_users_new(v, pi, fresh_slab(cache as int, osz as int), 0, 0, 0);
            self.lemma_kept_stores(old(self), w, None);
        }
    }

    /// Asks the heap for a page. Returns its address, or zero where the
    /// heap has none.
    fn page_alloc(&mut self) -> (p: usize)
        requires
            old(self).base_ok(),
        ensures
            final(self).base_ok(),
            final(self).val() == old(self).val(),
            p == old(self)@.heap.alloc_addr(PAGE_SIZE as int, PAGE_ALIGN as int),
            final(self)@ == (KmemView {
                heap: old(self)@.heap.after_alloc(PAGE_SIZE as int, PAGE_ALIGN as int),
                ..old(self)@
            }),
            p != 0 ==> final(self)@.heap.is_live(p as int) && final(self)@.heap.usable(p as int)
                >= PAGE_SIZE && !old(self)@.slabs.contains_key(p as int),
            p == 0 ==> final(self)@ == old(self)@,
            final(self).kept(old(self), None),
    {
        let ghost v = self.model@;
        let ghost hv = self.heap@;
        let ghost m0 = *self.heap.mem();
        proof {
            self.heap.lemma_wf();
            lemma_alloc_live(hv, PAGE_SIZE as int, PAGE_ALIGN as int);
        }
        let p: usize = self.heap.allocate(PAGE_SIZE, PAGE_ALIGN);
        proof {
            let v0 = KmemView { heap: self.heap@, ..v };
            // The slabs lie in the heap as before.
            assert forall|q: int| #[trigger] v.slabs.contains_key(q) implies self.heap@.is_live(q)
                && self.heap@.usable(q) == v.heap.usable(q) by {
                lemma_placed(v, q, 0);
            }
            lemma_layout_heap(v, self.heap@);
            lemma_mem_keep(&m0, self.heap.mem(), v, self.val@);
            lemma_mem_sub(self.heap.mem(), v, v0, self.val@);
            self.model@ = v0;
            if p != 0 {
                lemma_placed(v, p as int, 0);
            }
            lemma_keep_user(&m0, self.heap.mem(), v);
            lemma_users_steps(v, 0, 0, 0, 0, self.heap@);
            self.lemma_kept_stores(old(self), v, None);
        }
        p
    }

    /// Gives the cache at `c` a new slab, at the head of its free slabs:
    /// a page of the heap. Returns whether it did.
    #[verifier::rlimit(50)]
    fn kmem_grow(&mut self, c: usize) -> (ok: bool)
        requires
            old(self).wf(),
            old(self)@.caches.contains_key(c as int),
            old(self)@.pick(c as int) == 0,
        ensures
            final(self).wf(),
            ok == old(self)@.can_grow(c as int),
            final(self)@ == old(self)@.grow(c as int),
            final(self).kept(old(self), None),
    {
        let ghost v = self.model@;
        let ghost val0 = self.val@;
        let ghost ci = c as int;
        proof {
            lemma_count_read(v, self.val@, ci);
            lemma_placed(v, 0, ci);
            lemma_list_read(v, self.val@, ci, 1, 0);
            lemma_list_read(v, self.val@, ci, 2, 0);
            assert(v.caches[ci].free.len() == 0);
        }
        let osz: usize = self.load(c + 8 * C_OBJ_SIZE, Ghost(Loc::Cache { c: ci, f: 8 }));
        let cap: usize = self.load(c + 8 * C_OBJ_NUM, Ghost(Loc::Cache { c: ci, f: 9 }));
        let total: usize = self.load(c + 8 * C_OBJ_TOTAL, Ghost(Loc::Cache { c: ci, f: 10 }));
        let nfree: usize = self.load(c + 8 * C_OBJ_FREE, Ghost(Loc::Cache { c: ci, f: 12 }));
        if total > usize::MAX - cap {
            proof {
                self.lemma_kept_same(None);
            }
            return false;
        }
        let p: usize = self.page_alloc();
        if p == 0 {
            return false;
        }
        let ghost mut last = *self;
        self.slab_init(p, osz, c);
        let ghost w1 = self.model@;
        let ghost val1 = self.val@;
        proof {
            self.lemma_kept_trans(old(self), &last, None);
            last = *self;
            assert(is_grown(v, val0, w1, val1, ci, p as int));
            lemma_grow_lists(v, val0, w1, val1, ci, p as int);
            lemma_step_grow(v, val0, w1, val1, ci, p as int);
        }
        self.list_push(c, 2, p);
        proof {
            self.lemma_kept_trans(old(self), &last, None);
            last = *self;
        }
        self.store(c + 8 * C_OBJ_TOTAL, total + cap, Ghost(Loc::Cache { c: ci, f: 10 }));
        self.store(c + 8 * C_OBJ_FREE, nfree + cap, Ghost(Loc::Cache { c: ci, f: 12 }));
        proof {
            lemma_users_steps(last@, 0, 0, 0, 0, last@.heap);
            self.lemma_kept_stores(&last, last@, None);
            self.lemma_kept_trans(old(self), &last, None);
            assert(self.val@ == grow_val(v, w1, val1, ci, p as int));
            let w = self.model@;
            assert(w == w1.list_push(ci, 2, p as int));
            assert(v.caches[ci].free.len() == 0);
            assert forall|x: int| #[trigger] w.caches.contains_key(x) implies w.caches[x].free.len()
                <= 1 by {
                if x == ci {
                    assert(w.caches[ci].free == seq![p as int] + v.caches[ci].free);
                } else {
                    assert(w.caches[x] == v.caches[x]);
                }
            }
        }
        true
    }

    /// Gives the page at `q`, which is no slab any more, back to the
    /// heap.
    fn page_free(&mut self, q: usize)
        requires
            old(self).base_ok(),
            old(self)@.heap.is_live(q as int),
            !old(self)@.slabs.contains_key(q as int),
        ensures
            final(self).base_ok(),
            final(self).val() == old(self).val(),
            final(self)@ == (KmemView { heap: old(self)@.heap.after_free(q as int), ..old(self)@ }),
            final(self).kept(old(self), None),
    {
        let ghost v = self.model@;
        let ghost hv = self.heap@;
        let ghost m0 = *self.heap.mem();
        proof {
            self.heap.lemma_wf();
            lemma_free_live(hv, q as int);
        }
        self.heap.dealloc(q);
        proof {
            let v0 = KmemView { heap: self.heap@, ..v };
            assert forall|p: int| #[trigger] v.slabs.contains_key(p) implies self.heap@.is_live(p)
                && self.heap@.usable(p) == v.heap.usable(p) by {
                lemma_placed(v, p, 0);
            }
            lemma_layout_heap(v, self.heap@);
            lemma_mem_sub(&m0, v, v0, self.val@);
            lemma_mem_keep(&m0, self.heap.mem(), v0, self.val@);
            self.model@ = v0;
            lemma_keep_user(&m0, self.heap.mem(), v0);
            lemma_users_steps(v, 0, 0, 0, 0, self.heap@);
            self.lemma_kept_stores(old(self), v0, None);
        }
    }

    /// Takes the first free slab of the cache at `c` out of the cache and
    /// gives its page back to the heap.
    #[verifier::rlimit(50)]
    fn kmem_shrink(&mut self, c: usize)
        requires
            old(self).base_ok(),
            inv(old(self)@, old(self).val()),
            old(self)@.caches.contains_key(c as int),
            old(self)@.list(c as int, 2).len() > 0,
            old(self)@.slabs[old(self)@.list(c as int, 2)[0]].used.len() == 0,
        ensures
            final(self).base_ok(),
            inv(final(self)@, final(self).val()),
            final(self)@ == old(self)@.shrink(c as int),
            final(self).val() == shrink_val(old(self)@, old(self).val(), c as int),
            final(self).kept(old(self), None),
    {
        let ghost v = self.model@;
        let ghost val0 = self.val@;
        let ghost ci = c as int;
        let ghost qi = v.list(ci, 2)[0];
        proof {
            lemma_list_read(v, self.val@, ci, 2, 0);
            lemma_count_read(v, self.val@, ci);
            lemma_placed(v, qi, ci);
            assert(slab_ok(v, self.val@, qi)) by {
                reveal(slabs_ok);
            }
            lemma_slab_read(v, self.val@, qi);
            lemma_step_shrink(
                v,
                self.val@,
                KmemView { slabs: v.list_remove(ci, 2, 0).slabs.remove(qi), ..v.list_remove(ci, 2, 0) },
                ci,
            );
        }
        let q: usize = self.load(c + 8 * C_FREE, Ghost(Loc::Cache { c: ci, f: 2 }));
        let cap: usize = self.load(q + 8 * H_CAPACITY, Ghost(Loc::Hdr { p: qi, f: 5 }));
        let qfree: usize = self.load(q + 8 * H_FREE, Ghost(Loc::Hdr { p: qi, f: 4 }));
        let total: usize = self.load(c + 8 * C_OBJ_TOTAL, Ghost(Loc::Cache { c: ci, f: 10 }));
        let nfree: usize = self.load(c + 8 * C_OBJ_FREE, Ghost(Loc::Cache { c: ci, f: 12 }));
        self.list_remove(c, 2, q, Ghost(0));
        let ghost mut last = *self;
        self.store(c + 8 * C_OBJ_TOTAL, total - cap, Ghost(Loc::Cache { c: ci, f: 10 }));
        self.store(c + 8 * C_OBJ_FREE, nfree - qfree, Ghost(Loc::Cache { c: ci, f: 12 }));
        proof {
            let v1 = self.model@;
            let w = KmemView { slabs: v1.slabs.remove(qi), ..v1 };
            lemma_placed(v1, qi, 0);
            lemma_del_slab(v1, qi);
            lemma_mem_sub(self.heap.mem(), v1, w, self.val@);
            self.model@ = w;
            assert(self.val@ == shrink_val(v, val0, ci));
            lemma_users_steps(v1, 0, 0, 0, 0, v1.heap);
            lemma_users_del(v1, qi);
            self.lemma_kept_stores(&last, v1, None);
            self.lemma_kept_trans(old(self), &last, None);
            last = *self;
        }
        self.page_free(q);
        proof {
            self.lemma_kept_trans(old(self), &last, None);
            lemma_step_shrink(v, val0, self.model@, ci);
        }
    }

    /// Gives the object with user address `buf` back to its slab, which
    /// the back pointer before `buf` names. A slab that was full moves
    /// to the partial slabs of its cache; a slab that has no object in
    /// use any more moves to the free slabs, and the free slab that the
    /// cache had, if any, goes back to the heap before.
    #[verifier::rlimit(50)]
    pub fn kmem_dealloc(&mut self, buf: usize)
        requires
            old(self).wf(),
            old(self)@.is_live(buf as int),
        ensures
            final(self).wf(),
            final(self)@ == old(self)@.after_free(buf as int),
            users_kept(old(self)@, final(self)@, Some(buf as int)),
            forall|a: int| #[trigger]
                old(self)@.user_word_but(a, Some(buf as int)) ==> final(self)@.is_user_word(a)
                    && final(self).heap().mem().word_at(a) == old(self).heap().mem().word_at(a),
    {
        let ghost v = self.model@;
        let ghost val0 = self.val@;
        let ghost (pi, k) = v.object_of(buf as int);
        let ghost ci = v.slabs[pi].cache;
        proof {
            assert(v.is_object(buf as int, pi, k));
            lemma_placed(v, pi, 0);
            lemma_obj(pi, v.slabs[pi].obj_size, k);
            assert(slab_ok(v, self.val@, pi)) by {
                reveal(slabs_ok);
            }
            lemma_slab_read(v, self.val@, pi);
            lemma_step_push(v, self.val@, pi, k);
            lemma_count_read(v, self.val@, ci);
            lemma_placed(v, 0, ci);
            assert(v.slabs[pi].list == v.slabs[pi].state()) by {
                reveal(settled);
            }
        }
        let o: usize = buf - PTR_SIZE;
        let p: usize = self.load(o, Ghost(Loc::Back { p: pi, k }));
        let c: usize = self.load(p + 8 * H_CACHE, Ghost(Loc::Hdr { p: pi, f: 9 }));
        let before: usize = self.load(p + 8 * H_FREE, Ghost(Loc::Hdr { p: pi, f: 4 }));
        let ghost gone = Some(buf as int);
        self.slab_dealloc(p, o, Ghost(k));
        let ghost mut last = *self;
        let nfree: usize = self.load(c + 8 * C_OBJ_FREE, Ghost(Loc::Cache { c: ci, f: 12 }));
        let nused: usize = self.load(c + 8 * C_OBJ_ACTIVE, Ghost(Loc::Cache { c: ci, f: 11 }));
        self.store(c + 8 * C_OBJ_FREE, nfree + 1, Ghost(Loc::Cache { c: ci, f: 12 }));
        self.store(c + 8 * C_OBJ_ACTIVE, nused - 1, Ghost(Loc::Cache { c: ci, f: 11 }));
        let ghost v1 = self.model@;
        proof {
            lemma_users_steps(v1, 0, 0, 0, 0, v1.heap);
            self.lemma_kept_stores(&last, v1, None);
            self.lemma_kept_trans(old(self), &last, gone);
            last = *self;
            assert(self.val@ == give_val(v, val0, pi, k));
            assert(v1.slabs.contains_key(pi));
            assert(slab_ok(v1, self.val@, pi)) by {
                reveal(slabs_ok);
            }
            lemma_slab_read(v1, self.val@, pi);
        }
        let inuse: usize = self.load(p + 8 * H_INUSE, Ghost(Loc::Hdr { p: pi, f: 3 }));
        let ghost t1 = v1.list(ci, 0).index_of(pi);
        proof {
            lemma_same_others(v, pi, k, ci, 0, 0, 0);
            let u = lemma_listed(v1, pi);
            lemma_same_others(v1, pi, k, ci, 0, t1, 1);
        }
        if before == 0 {
            self.kmem_put_full_into_partial(c, p);
            proof {
                self.lemma_kept_trans(old(self), &last, gone);
                last = *self;
            }
        }
        let ghost v2 = self.model@;
        let ghost v3 = v2.spared(ci);
        let ghost t3 = v3.list(ci, 1).index_of(pi);
        proof {
            assert(v2.slabs.contains_key(pi) && v2.slabs[pi].cache == ci && v2.slabs[pi].list == 1);
            lemma_same_others_trans(v, v1, v2, pi);
            assert(v2.caches[ci].free == v.caches[ci].free);
        }
        if inuse == 0 {
            proof {
                // The free slab that the cache has is another slab, and has
                // no object in use.
                if v2.list(ci, 2).len() > 0 {
                    let q = v2.list(ci, 2)[0];
                    lemma_list_read(v2, self.val@, ci, 2, 0);
                    assert(v.slabs.contains_key(q));
                    assert(v.slabs[q].list == v.slabs[q].state()) by {
                        reveal(settled);
                    }
                }
                lemma_same_others(v2, pi, k, ci, 0, 0, 0);
                assert(v3.slabs.contains_key(pi) && v3.list(ci, 2).len() == 0);
            }
            self.kmem_put_partial_into_free(c, p);
            proof {
                self.lemma_kept_trans(old(self), &last, gone);
                last = *self;
                let w = self.model@;
                lemma_same_others(v3, pi, k, ci, 1, t3, 2);
                lemma_same_others_trans(v2, v3, w, pi);
                lemma_same_others_trans(v, v2, w, pi);
                assert(w.caches[ci].free == seq![pi] + v3.caches[ci].free);
                assert forall|x: int| #[trigger] w.caches.contains_key(x) implies w.caches[x].free.len()
                    <= 1 by {
                    if x != ci {
                        assert(w.caches[x].free == v.caches[x].free);
                    }
                }
            }
        }
        proof {
            lemma_settled_move(v, self.model@, pi);
            self.lemma_kept_use(old(self), gone);
        }
    }

    /// The cache of the chain with objects of size `size`, if there is
    /// one.
    #[verifier::rlimit(50)]
    fn main_search_kmem(&self, size: usize) -> (r: Option<usize>)
        requires
            self.wf(),
        ensures
            r == (if self@.find(size as int) != 0 {
                Some(self@.find(size as int) as usize)
            } else {
                None
            }),
            r is Some ==> r->0 == self@.find(size as int) && self@.caches.contains_key(
                r->0 as int,
            ) && self@.caches[r->0 as int].obj_size == size && r->0 != self@.master,
    {
        let ghost v = self.model@;
        proof {
            lemma_chain_read(v, self.val@, 0);
            lemma_placed(v, 0, v.master);
        }
        let mut ptr: usize = self.load(
            self.master + 8 * C_NEXT,
            Ghost(Loc::Cache { c: self.master as int, f: 7 }),
        );
        let ghost mut i: int = 0;
        while ptr != 0
            invariant
                self.wf(),
                v == self.model@,
                0 <= i <= v.chain.len(),
                ptr == at(v.chain, i),
                v.find(size as int) == v.find_from(size as int, i),
            decreases v.chain.len() - i,
        {
            proof {
                lemma_chain_read(v, self.val@, i);
                lemma_count_read(v, self.val@, ptr as int);
                lemma_placed(v, 0, ptr as int);
            }
            let osz: usize = self.load(
                ptr + 8 * C_OBJ_SIZE,
                Ghost(Loc::Cache { c: ptr as int, f: 8 }),
            );
            if osz == size {
                return Some(ptr);
            }
            ptr = self.load(ptr + 8 * C_NEXT, Ghost(Loc::Cache { c: ptr as int, f: 7 }));
            proof {
                i = i + 1;
            }
        }
        proof {
            lemma_chain_read(v, self.val@, i);
        }
        None
    }

    /// Objects in a slab with objects of size `osz`.
    fn capacity_of(osz: usize) -> (r: usize)
        requires
            valid_class(osz as int),
        ensures
            r == slab_capacity(osz as int),
    {
        proof {
            lemma_capacity(osz as int);
        }
        PAGE_SIZE / osz - (SLAB_HEAD + osz - 1) / osz * osz / osz
    }

    /// Fills in the record of a new cache at `c`, with objects of size
    /// `class` and no slab, and puts the cache at the head of the chain.
    #[verifier::rlimit(50)]
    fn init(&mut self, c: usize, class: usize, Ghost(p): Ghost<int>, Ghost(k): Ghost<int>)
        requires
            old(self).wf(),
            valid_class(class as int),
            c != 0,
            !old(self)@.caches.contains_key(c as int),
            old(self)@.add_cache(c as int, class as int, p, k).cache_placed(c as int),
        ensures
            final(self).wf(),
            final(self)@ == old(self)@.add_cache(c as int, class as int, p, k),
            final(self).kept(old(self), None),
    {
        let ghost v1 = self.model@;
        let ghost val1 = self.val@;
        let ghost ci = c as int;
        let ghost cm = empty_cache(class as int, p, k);
        let ghost w0 = KmemView { caches: v1.caches.insert(ci, cm), ..v1 };
        let ghost w = v1.add_cache(ci, class as int, p, k);
        let master: usize = self.master;
        proof {
            lemma_chain_read(v1, self.val@, 0);
            lemma_add_cache(self.heap.mem(), v1, self.val@, ci, cm);
            lemma_layout_same(w0, w);
            lemma_mem_sub(
                self.heap.mem(),
                w0,
                w,
                adopt_cache(self.heap.mem(), w0, self.val@, ci),
            );
            self.val@ = adopt_cache(self.heap.mem(), w0, self.val@, ci);
            self.model@ = w;
            lemma_placed(w, 0, ci);
            lemma_placed(w, 0, master as int);
        }
        let first: usize = self.load(master + 8 * C_NEXT, Ghost(Loc::Cache { c: master as int, f: 7 }));
        let cap: usize = Self::capacity_of(class);
        self.store(c + 8 * C_FULL, 0, Ghost(Loc::Cache { c: ci, f: 0 }));
        self.store(c + 8 * C_PARTIAL, 0, Ghost(Loc::Cache { c: ci, f: 1 }));
        self.store(c + 8 * C_FREE, 0, Ghost(Loc::Cache { c: ci, f: 2 }));
        self.store(c + 8 * C_NEXT, first, Ghost(Loc::Cache { c: ci, f: 7 }));
        self.store(c + 8 * C_OBJ_SIZE, class, Ghost(Loc::Cache { c: ci, f: 8 }));
        self.store(c + 8 * C_OBJ_NUM, cap, Ghost(Loc::Cache { c: ci, f: 9 }));
        self.store(c + 8 * C_OBJ_TOTAL, 0, Ghost(Loc::Cache { c: ci, f: 10 }));
        self.store(c + 8 * C_OBJ_ACTIVE, 0, Ghost(Loc::Cache { c: ci, f: 11 }));
        self.store(c + 8 * C_OBJ_FREE, 0, Ghost(Loc::Cache { c: ci, f: 12 }));
        self.store(master + 8 * C_NEXT, c, Ghost(Loc::Cache { c: master as int, f: 7 }));
        proof {
            assert(is_created(v1, val1, self.val@, ci, class as int));
            lemma_step_create(v1, val1, self.val@, ci, class as int, p, k);
            lemma_users_new(v1, p, v1.slabs[p], ci, class as int, k);
            self.lemma_kept_stores(old(self), w, None);
        }
    }

    /// Makes a cache with objects of size `class`: its record takes the
    /// next object of the master cache, which gets a new slab first where
    /// it has no free object; the cache heads the chain and gets its
    /// first slab, if the heap has a page for it. Returns the address of
    /// the record, or zero where the master cache has no object for it.
    #[verifier::rlimit(50)]
    fn create_kmem_cache(&mut self, class: usize) -> (c: usize)
        requires
            old(self).wf(),
            valid_class(class as int),
        ensures
            final(self).wf(),
            c == old(self)@.created(class as int),
            final(self)@ == old(self)@.create(class as int),
            final(self).kept(old(self), None),
            c != 0 ==> final(self)@.caches.contains_key(c as int) && c != final(self)@.master
                && final(self)@.caches[c as int].obj_size == class,
    {
        let ghost v = self.model@;
        let master: usize = self.master;
        proof {
            lemma_chain_read(v, self.val@, 0);
        }
        let ghost mut val0 = self.val@;
        let mut addr: usize = self.kmem_search_slab(master);
        let ghost mut last = *self;
        if addr == 0 {
            let grown: bool = self.kmem_grow(master);
            proof {
                self.lemma_kept_trans(old(self), &last, None);
                last = *self;
            }
            if !grown {
                return 0;
            }
            proof {
                self.lemma_grown(v, master as int);
                val0 = self.val@;
            }
            addr = self.kmem_search_slab(master);
            proof {
                self.lemma_kept_trans(old(self), &last, None);
                last = *self;
            }
        }
        let ghost v0 = v.master_ready();
        let ghost p = v0.pick(master as int);
        let ghost k = v0.slabs[p].free[0];
        let ghost v1 = self.model@;
        proof {
            lemma_chain_read(v1, self.val@, 0);
            // The object was free, so it holds no cache record yet, and
            // it is an object of a slab of the master cache.
            lemma_picked(v0, val0, master as int);
            assert forall|x: int| v1.caches.contains_key(x) implies x != addr by {
                assert(v0.caches.contains_key(x));
                lemma_no_cache_at(v0, p, k, x);
            }
            lemma_obj(p, MASTER_CLASS as int, k);
        }
        self.init(addr, class, Ghost(p), Ghost(k));
        proof {
            crate::slab_model::lemma_grow_keeps(self.model@, addr as int, addr as int);
            self.lemma_kept_trans(old(self), &last, None);
            last = *self;
        }
        self.kmem_grow(addr);
        proof {
            self.lemma_kept_trans(old(self), &last, None);
        }
        addr
    }

    /// After a cache got a new slab it has a slab with a free object.
    proof fn lemma_grown(&self, v: KmemView, c: int)
        requires
            self.wf(),
            v.caches.contains_key(c),
            v.can_grow(c),
            self@ == v.grow(c),
        ensures
            self@.pick(c) != 0,
    {
        lemma_list_read(self.model@, self.val@, c, 1, 0);
        lemma_list_read(self.model@, self.val@, c, 2, 0);
        assert(self.model@.list(c, 2)[0] == v.heap.alloc_addr(PAGE_SIZE as int, PAGE_ALIGN as int));
    }

    /// An allocator without a heap: no cache, no slab, no record of a
    /// master cache, over a heap that has no pool. `main_init` must be
    /// called before anything else.
    pub fn new() -> (r: KmemCache)
        ensures
            !r.wf(),
            !r.heap().wf(),
            r@.master == 0,
            r@.chain == Seq::<int>::empty(),
            r@.caches == Map::<int, CacheModel>::empty(),
            r@.slabs == Map::<int, SlabModel>::empty(),
    {
        let r = KmemCache {
            heap: FspAlloc::new(),
            master: 0,
            model: Ghost(
                KmemView {
                    heap: HeapView {
                        base: 0,
                        size: 0,
                        blocks: Seq::empty(),
                        free_list: Seq::empty(),
                    },
                    master: 0,
                    chain: Seq::empty(),
                    caches: Map::empty(),
                    slabs: Map::empty(),
                },
            ),
            val: Ghost(Map::empty()),
        };
        r
    }

    /// Sets the allocator up over `heap`: the first page of the heap
    /// becomes the first slab of the master cache, and the first object
    /// of that slab holds the record of the master cache. Returns
    /// whether the heap had a page; if not, the allocator stays unusable.
    #[verifier::rlimit(50)]
    pub fn main_init(&mut self, heap: FspAlloc) -> (ok: bool)
        requires
            heap.wf(),
        ensures
            ok == (heap@.alloc_addr(PAGE_SIZE as int, PAGE_ALIGN as int) != 0),
            ok ==> final(self).wf() && final(self)@ == KmemView::initial(heap@),
            !ok ==> !final(self).wf(),
    {
        let ghost h = heap@;
        self.heap = heap;
        self.master = 0;
        proof {
            self.heap.lemma_wf();
            let e0 = KmemView {
                heap: h,
                master: 0,
                chain: Seq::empty(),
                caches: Map::empty(),
                slabs: Map::empty(),
            };
            self.model@ = e0;
            assert(e0.layout_wf()) by {
                reveal(KmemView::layout_wf);
            }
            assert(mem_ok(self.heap.mem(), e0, self.val@)) by {
                reveal(mem_ok);
            }
        }
        let p: usize = self.page_alloc();
        if p == 0 {
            proof {
                assert(!chain_ok(self.model@, self.val@)) by {
                    reveal(chain_ok);
                }
            }
            return false;
        }
        proof {
            self.heap.lemma_wf();
            lemma_placed_page(self.model@.heap, p as int);
            lemma_obj(p as int, MASTER_CLASS as int, 0);
        }
        let m: usize = p + MASTER_CLASS + PTR_SIZE;
        self.master = m;
        proof {
            let e = self.model@;
            let e1 = KmemView { master: m as int, ..e };
            lemma_layout_same(e, KmemView { master: e.master, ..e1 });
            assert(e1.layout_wf()) by {
                reveal(KmemView::layout_wf);
            }
            assert(mem_ok(self.heap.mem(), e1, self.val@)) by {
                reveal(mem_ok);
            }
            self.model@ = e1;
        }
        self.slab_init(p, MASTER_CLASS, m);
        let r: usize = self.slab_alloc(p);
        let ghost e2 = self.model@;
        let ghost val2 = self.val@;
        let ghost cm = empty_cache(MASTER_CLASS as int, p as int, 0);
        let ghost e3 = KmemView { caches: e2.caches.insert(m as int, cm), ..e2 };
        proof {
            assert(fresh_slab(m as int, MASTER_CLASS as int).free[0] == 0);
            lemma_add_cache(self.heap.mem(), e2, self.val@, m as int, cm);
            self.val@ = adopt_cache(self.heap.mem(), e3, self.val@, m as int);
            self.model@ = e3;
            lemma_placed(e3, 0, m as int);
        }
        let ghost mi = m as int;
        self.store(m + 8 * C_FULL, 0, Ghost(Loc::Cache { c: mi, f: 0 }));
        self.store(m + 8 * C_PARTIAL, 0, Ghost(Loc::Cache { c: mi, f: 1 }));
        self.store(m + 8 * C_FREE, 0, Ghost(Loc::Cache { c: mi, f: 2 }));
        self.store(m + 8 * C_NEXT, 0, Ghost(Loc::Cache { c: mi, f: 7 }));
        self.store(m + 8 * C_OBJ_SIZE, MASTER_CLASS, Ghost(Loc::Cache { c: mi, f: 8 }));
        self.store(m + 8 * C_OBJ_NUM, 31, Ghost(Loc::Cache { c: mi, f: 9 }));
        self.store(m + 8 * C_OBJ_TOTAL, 31, Ghost(Loc::Cache { c: mi, f: 10 }));
        self.store(m + 8 * C_OBJ_ACTIVE, 1, Ghost(Loc::Cache { c: mi, f: 11 }));
        self.store(m + 8 * C_OBJ_FREE, 30, Ghost(Loc::Cache { c: mi, f: 12 }));
        proof {
            lemma_slab_frame(e2, val2, e3, self.val@, p as int);
            assert(e3.slabs =~= Map::<int, SlabModel>::empty().insert(
                p as int,
                SlabModel {
                    free: fresh_slab(mi, MASTER_CLASS as int).free.drop_first(),
                    used: Set::<int>::empty().insert(0),
                    ..fresh_slab(mi, MASTER_CLASS as int)
                },
            ));
            assert(is_initial(e3, self.val@, p as int, mi));
            lemma_init_lists(e3, self.val@, p as int, mi);
            lemma_init(e3, self.val@, p as int, mi);
        }
        self.list_push(m, 1, p);
        true
    }

    /// Allocates an object for a request of `size` bytes at alignment
    /// `align` from the cache of the class of the size, which is made
    /// first where it does not exist: the first free object of the first
    /// partial slab of the cache, else of its first free slab, for which
    /// the cache gets a new slab where it has none. Returns the user
    /// address, behind the back pointer of the object, which is a
    /// multiple of four whatever the alignment asked for; zero where the
    /// size has no class, size and alignment make no valid layout, or
    /// the heap has no page for a slab that is needed.
    #[verifier::rlimit(50)]
    pub fn kmem_alloc(&mut self, size: usize, align: usize) -> (r: usize)
        requires
            old(self).wf(),
        ensures
            final(self).wf(),
            r == old(self)@.alloc_addr(size as int, align as int),
            final(self)@ == old(self)@.after_alloc(size as int, align as int),
            users_kept(old(self)@, final(self)@, None),
            r != 0 ==> {
                let (p, k) = final(self)@.object_of(r as int);
                &&& final(self)@.is_live(r as int)
                &&& !old(self)@.is_live(r as int)
                &&& final(self).heap().mem().word_at(r - PTR_SIZE) == p
                &&& final(self)@.slabs[p].obj_size == class_of(size as int)
                &&& final(self)@.slabs[p].obj_size >= size + PTR_SIZE
                &&& r % 4 == 0
            },
            forall|a: int| #[trigger]
                old(self)@.is_user_word(a) ==> final(self)@.is_user_word(a)
                    && final(self).heap().mem().word_at(a) == old(self).heap().mem().word_at(a),
    {
        let ghost v = self.model@;
        let class: usize = size_class(size);
        proof {
            self.lemma_kept_same(None);
        }
        if class == 0 || !is_valid_layout(size, align) {
            proof {
                self.lemma_kept_use(old(self), None);
            }
            return 0;
        }
        proof {
            lemma_class_of(size as int);
        }
        let c: usize = match self.main_search_kmem(class) {
            Some(addr) => addr,
            None => self.create_kmem_cache(class),
        };
        let ghost mut last = *self;
        if c == 0 {
            proof {
                self.lemma_kept_use(old(self), None);
            }
            return 0;
        }
        let ghost v1 = self.model@;
        proof {
            lemma_chain_read(v1, self.val@, 0);
            lemma_count_read(v1, self.val@, c as int);
            self.lemma_kept_use(old(self), None);
        }
        let ghost mut val2 = self.val@;
        let mut r: usize = self.kmem_search_slab(c);
        proof {
            self.lemma_kept_trans(old(self), &last, None);
            last = *self;
        }
        if r == 0 {
            let grown: bool = self.kmem_grow(c);
            proof {
                self.lemma_kept_trans(old(self), &last, None);
                last = *self;
            }
            if !grown {
                proof {
                    self.lemma_kept_use(old(self), None);
                }
                return 0;
            }
            proof {
                self.lemma_grown(v1, c as int);
                val2 = self.val@;
                self.lemma_kept_use(old(self), None);
            }
            r = self.kmem_search_slab(c);
            proof {
                self.lemma_kept_trans(old(self), &last, None);
                last = *self;
            }
        }
        proof {
            self.lemma_taken(v1.ready(c as int), val2, c as int, r as int);
            self.lemma_back_pointer(r as int);
            self.lemma_kept_use(old(self), None);
        }
        r
    }

    /// The object that a cache of the chain hands out is live, is an
    /// object of the size of the cache, and lies at a multiple of four.
    #[verifier::rlimit(50)]
    proof fn lemma_taken(&self, v2: KmemView, val2: Map<Loc, int>, c: int, r: int)
        requires
            self.wf(),
            v2.layout_wf(),
            inv(v2, val2),
            settled(v2),
            v2.caches.contains_key(c),
            c != v2.master,
            v2.pick(c) != 0,
            self@ == v2.take(c),
            r == v2.take_addr(c),
        ensures
            self@.is_live(r),
            !v2.is_live(r),
            self@.slabs[self@.object_of(r).0].obj_size == v2.caches[c].obj_size,
            r % 4 == 0,
    {
        let w = self.model@;
        let p = v2.pick(c);
        let k = v2.slabs[p].free[0];
        lemma_picked(v2, val2, c);
        if v2.is_live(r) {
            // The object was free, and the address names one object.
            let (pz, kz) = v2.object_of(r);
            assert(v2.is_object(r, pz, kz));
            lemma_placed(v2, pz, 0);
            lemma_placed(v2, p, 0);
            let a = Loc::Back { p, k };
            let b = Loc::Back { p: pz, k: kz };
            if a != b {
                crate::slab_model::lemma_loc_apart(v2, a, b);
            }
        }
        assert(w.is_object(r, p, k));
        let (q, j) = w.object_of(r);
        assert(w.is_object(r, q, j));
        // The address names one object only.
        lemma_placed(w, p, 0);
        lemma_placed(w, q, 0);
        let l1 = Loc::Back { p, k };
        let l2 = Loc::Back { p: q, k: j };
        if l1 != l2 {
            crate::slab_model::lemma_loc_apart(w, l1, l2);
        }
        self.heap.lemma_wf();
        lemma_live_aligned(w.heap, p);
        lemma_obj(p, w.slabs[p].obj_size, k);
    }

    /// Address of the record of the master cache.
    pub fn master(&self) -> (r: usize)
        requires
            self.wf(),
        ensures
            r == self@.master,
    {
        self.master
    }

    /// Addresses of the records of the caches of the chain, in chain
    /// order.
    #[verifier::rlimit(50)]
    pub fn caches(&self) -> (r: Vec<usize>)
        requires
            self.wf(),
        ensures
            r@.len() == self@.chain.len(),
            forall|i: int| 0 <= i < r@.len() ==> #[trigger] r@[i] == self@.chain[i],
    {
        let ghost v = self.model@;
        proof {
            lemma_chain_read(v, self.val@, 0);
            lemma_placed(v, 0, v.master);
        }
        let mut r: Vec<usize> = Vec::new();
        let mut ptr: usize = self.load(
            self.master + 8 * C_NEXT,
            Ghost(Loc::Cache { c: self.master as int, f: 7 }),
        );
        while ptr != 0
            invariant
                self.wf(),
                v == self.model@,
                0 <= r@.len() <= v.chain.len(),
                ptr == at(v.chain, r@.len() as int),
                forall|i: int| 0 <= i < r@.len() ==> #[trigger] r@[i] == v.chain[i],
            decreases v.chain.len() - r@.len(),
        {
            proof {
                lemma_chain_read(v, self.val@, r@.len() as int);
                lemma_placed(v, 0, ptr as int);
            }
            r.push(ptr);
            ptr = self.load(ptr + 8 * C_NEXT, Ghost(Loc::Cache { c: ptr as int, f: 7 }));
        }
        proof {
            lemma_chain_read(v, self.val@, r@.len() as int);
        }
        r
    }

    /// What the record of the cache at `c` says: the object size, the
    /// number of objects in one slab, and the numbers of all objects, of
    /// the objects in use, and of the free objects.
    pub fn cache_info(&self, c: usize) -> (r: (usize, usize, usize, usize, usize))
        requires
            self.wf(),
            self@.caches.contains_key(c as int),
        ensures
            r.0 == self@.caches[c as int].obj_size,
            r.1 == slab_capacity(self@.caches[c as int].obj_size),
            r.2 == self@.count(c as int, true) + self@.count(c as int, false),
            r.3 == self@.count(c as int, false),
            r.4 == self@.count(c as int, true),
    {
        let ghost ci = c as int;
        proof {
            lemma_count_read(self.model@, self.val@, ci);
            lemma_placed(self.model@, 0, ci);
        }
        (
            self.load(c + 8 * C_OBJ_SIZE, Ghost(Loc::Cache { c: ci, f: 8 })),
            self.load(c + 8 * C_OBJ_NUM, Ghost(Loc::Cache { c: ci, f: 9 })),
            self.load(c + 8 * C_OBJ_TOTAL, Ghost(Loc::Cache { c: ci, f: 10 })),
            self.load(c + 8 * C_OBJ_ACTIVE, Ghost(Loc::Cache { c: ci, f: 11 })),
            self.load(c + 8 * C_OBJ_FREE, Ghost(Loc::Cache { c: ci, f: 12 })),
        )
    }

    /// Addresses of the slabs of list `id` of the cache at `c`, in list
    /// order: 0 names the full, 1 the partial, 2 the free slabs.
    #[verifier::rlimit(50)]
    pub fn slabs_of(&self, c: usize, id: usize) -> (r: Vec<usize>)
        requires
            self.wf(),
            self@.caches.contains_key(c as int),
            id <= 2,
        ensures
            r@.len() == self@.list(c as int, id as int).len(),
            forall|t: int| 0 <= t < r@.len() ==> #[trigger] r@[t] == self@.list(c as int, id as int)[t],
    {
        let ghost v = self.model@;
        let ghost l = v.list(c as int, id as int);
        proof {
            lemma_list_read(v, self.val@, c as int, id as int, 0);
            lemma_placed(v, 0, c as int);
        }
        let mut r: Vec<usize> = Vec::new();
        let mut ptr: usize = self.load(c + 8 * id, Ghost(Loc::Cache { c: c as int, f: id as int }));
        while ptr != 0
            invariant
                self.wf(),
                v == self.model@,
                l == v.list(c as int, id as int),
                v.caches.contains_key(c as int),
                id <= 2,
                0 <= r@.len() <= l.len(),
                ptr == at(l, r@.len() as int),
                forall|t: int| 0 <= t < r@.len() ==> #[trigger] r@[t] == l[t],
            decreases l.len() - r@.len(),
        {
            proof {
                lemma_list_read(v, self.val@, c as int, id as int, r@.len() as int);
                lemma_placed(v, ptr as int, 0);
            }
            r.push(ptr);
            ptr = self.load(ptr + 8 * H_NEXT, Ghost(Loc::Hdr { p: ptr as int, f: 0 }));
        }
        proof {
            lemma_list_read(v, self.val@, c as int, id as int, r@.len() as int);
        }
        r
    }

    /// What the header of the slab at `p` says: the cache of the slab,
    /// the object size, and the numbers of all objects, of the objects
    /// in use, and of the free objects.
    pub fn slab_info(&self, p: usize) -> (r: (usize, usize, usize, usize, usize))
        requires
            self.wf(),
            self@.slabs.contains_key(p as int),
        ensures
            r.0 == self@.slabs[p as int].cache,
            r.1 == self@.slabs[p as int].obj_size,
            r.2 == self@.cap(p as int),
            r.3 == self@.slabs[p as int].used.len(),
            r.4 == self@.slabs[p as int].free.len(),
            r.3 + r.4 == r.2,
    {
        let ghost pi = p as int;
        proof {
            assert(slab_ok(self.model@, self.val@, pi)) by {
                reveal(slabs_ok);
            }
            lemma_slab_read(self.model@, self.val@, pi);
            lemma_placed(self.model@, pi, 0);
        }
        (
            self.load(p + 8 * H_CACHE, Ghost(Loc::Hdr { p: pi, f: 9 })),
            self.load(p + 8 * H_OBJ_SIZE, Ghost(Loc::Hdr { p: pi, f: 6 })),
            self.load(p + 8 * H_CAPACITY, Ghost(Loc::Hdr { p: pi, f: 5 })),
            self.load(p + 8 * H_INUSE, Ghost(Loc::Hdr { p: pi, f: 3 })),
            self.load(p + 8 * H_FREE, Ghost(Loc::Hdr { p: pi, f: 4 })),
        )
    }

    /// The slab of the live object with user address `ptr`: what the
    /// back pointer before `ptr` says.
    pub fn slab_of(&self, ptr: usize) -> (r: usize)
        requires
            self.wf(),
            self@.is_live(ptr as int),
        ensures
            r == self@.object_of(ptr as int).0,
            r == self.heap().mem().word_at(ptr - PTR_SIZE),
            self@.slabs.contains_key(r as int),
            r < ptr < r + PAGE_SIZE,
    {
        let ghost v = self.model@;
        let ghost (pi, k) = v.object_of(ptr as int);
        proof {
            assert(v.is_object(ptr as int, pi, k));
            lemma_placed(v, pi, 0);
            lemma_obj(pi, v.slabs[pi].obj_size, k);
            assert(slab_ok(v, self.val@, pi)) by {
                reveal(slabs_ok);
            }
            lemma_slab_read(v, self.val@, pi);
            lemma_mem_read(self.heap.mem(), v, self.val@, Loc::Back { p: pi, k });
        }
        self.load(ptr - PTR_SIZE, Ghost(Loc::Back { p: pi, k }))
    }

    /// Reads the word at `addr` in the user bytes of a live object.
    pub fn read_word(&self, addr: usize) -> (r: usize)
        requires
            self.wf(),
            self@.is_user_word(addr as int),
        ensures
            r == self.heap().mem().word_at(addr as int),
    {
        proof {
            lemma_user_word(self.model@, addr as int, Loc::Hdr { p: 0, f: 0 });
        }
        self.heap.read_word(addr)
    }

    /// Stores `x` at `addr` in the user bytes of a live object. The
    /// caches, the slabs and the heap stay as they are.
    pub fn write_word(&mut self, addr: usize, x: usize)
        requires
            old(self).wf(),
            old(self)@.is_user_word(addr as int),
        ensures
            final(self).wf(),
            final(self)@ == old(self)@,
            final(self).heap().mem().word_at(addr as int) == x,
            final(self).heap().mem().same_except(old(self).heap().mem(), addr as int, addr + 8),
    {
        let ghost m0 = *self.heap.mem();
        proof {
            lemma_user_word(self.model@, addr as int, Loc::Hdr { p: 0, f: 0 });
        }
        self.heap.write_word(addr, x);
        proof {
            lemma_mem_user(&m0, self.heap.mem(), self.model@, self.val@, addr as int);
        }
    }

    /// Conservation: in every state the record of each cache counts the
    /// objects of its slabs, those in use and the free ones together
    /// being all objects; and each slab of a list of the cache has as
    /// many objects in use and free as it holds, and is in the list in
    /// which its counts place it: without a free object in the full,
    /// without an object in use in the free, else in the partial slabs.
    pub proof fn lemma_conservation(&self, c: int, id: int, t: int)
        requires
            self.wf(),
            self@.caches.contains_key(c),
            0 <= id <= 2,
            0 <= t < self@.list(c, id).len(),
        ensures
            self.heap().mem().word_at(c + 8 * C_OBJ_ACTIVE) == self@.count(c, false),
            self.heap().mem().word_at(c + 8 * C_OBJ_FREE) == self@.count(c, true),
            self.heap().mem().word_at(c + 8 * C_OBJ_TOTAL) == self@.count(c, false) + self@.count(
                c,
                true,
            ),
            self@.count(c, false) + self@.count(c, true) == slab_capacity(self@.caches[c].obj_size)
                * self@.caches[c].slab_count(),
            self@.caches[c].free.len() <= 1,
            forall|u: int|
                0 <= u < self@.list(c, id).len() && u != t ==> self@.list(c, id)[u] != self@.list(
                    c,
                    id,
                )[t],
            self@.slabs.contains_key(self@.list(c, id)[t]),
            self@.slabs[self@.list(c, id)[t]].cache == c,
            self@.slabs[self@.list(c, id)[t]].used.len() + self@.slabs[self@.list(
                c,
                id,
            )[t]].free.len() == slab_capacity(self@.caches[c].obj_size),
            self@.slabs[self@.list(c, id)[t]].state() == id,
            self.heap().mem().word_at(self@.list(c, id)[t] + 8 * H_INUSE) == self@.slabs[self@.list(
                c,
                id,
            )[t]].used.len(),
            self.heap().mem().word_at(self@.list(c, id)[t] + 8 * H_FREE) == self@.slabs[self@.list(
                c,
                id,
            )[t]].free.len(),
    {
        let v = self.model@;
        let p = v.list(c, id)[t];
        lemma_count_read(v, self.val@, c);
        lemma_total(v, self.val@, c);
        lemma_list_read(v, self.val@, c, id, t);
        assert(slab_ok(v, self.val@, p)) by {
            reveal(slabs_ok);
        }
        lemma_slab_read(v, self.val@, p);
        let u = lemma_listed(v, p);
        assert(v.slabs[p].list == v.slabs[p].state()) by {
            reveal(settled);
        }
        lemma_mem_read(self.heap.mem(), v, self.val@, Loc::Cache { c, f: C_OBJ_ACTIVE as int });
        lemma_mem_read(self.heap.mem(), v, self.val@, Loc::Cache { c, f: C_OBJ_FREE as int });
        lemma_mem_read(self.heap.mem(), v, self.val@, Loc::Cache { c, f: C_OBJ_TOTAL as int });
        lemma_mem_read(self.heap.mem(), v, self.val@, Loc::Hdr { p, f: H_INUSE as int });
        lemma_mem_read(self.heap.mem(), v, self.val@, Loc::Hdr { p, f: H_FREE as int });
    }

    /// In every state the header of each slab says in the heap what the
    /// model says of the slab: its cache, the object size, the numbers
    /// of objects, its extent, and the first free object.
    pub proof fn lemma_slab_header(&self, p: int)
        requires
            self.wf(),
            self@.slabs.contains_key(p),
        ensures
            self.heap().mem().word_at(p + 8 * H_CACHE) == self@.slabs[p].cache,
            self.heap().mem().word_at(p + 8 * H_OBJ_SIZE) == self@.slabs[p].obj_size,
            self.heap().mem().word_at(p + 8 * H_CAPACITY) == self@.cap(p),
            self.heap().mem().word_at(p + 8 * H_INUSE) == self@.slabs[p].used.len(),
            self.heap().mem().word_at(p + 8 * H_FREE) == self@.slabs[p].free.len(),
            self.heap().mem().word_at(p + 8 * H_START) == p,
            self.heap().mem().word_at(p + 8 * H_END) == p + PAGE_SIZE,
            self.heap().mem().word_at(p + 8 * H_FREE_HEAD) == self@.free_obj(p, 0),
            self@.slabs[p].used.len() + self@.slabs[p].free.len() == self@.cap(p),
            valid_class(self@.slabs[p].obj_size),
    {
        let v = self.model@;
        let m = self.heap.mem();
        assert(slab_ok(v, self.val@, p)) by {
            reveal(slabs_ok);
        }
        lemma_slab_read(v, self.val@, p);
        lemma_placed(v, p, 0);
        lemma_mem_read(m, v, self.val@, Loc::Hdr { p, f: H_CACHE as int });
        lemma_mem_read(m, v, self.val@, Loc::Hdr { p, f: H_OBJ_SIZE as int });
        lemma_mem_read(m, v, self.val@, Loc::Hdr { p, f: H_CAPACITY as int });
        lemma_mem_read(m, v, self.val@, Loc::Hdr { p, f: H_INUSE as int });
        lemma_mem_read(m, v, self.val@, Loc::Hdr { p, f: H_FREE as int });
        lemma_mem_read(m, v, self.val@, Loc::Hdr { p, f: H_START as int });
        lemma_mem_read(m, v, self.val@, Loc::Hdr { p, f: H_END as int });
        lemma_mem_read(m, v, self.val@, Loc::Hdr { p, f: H_FREE_HEAD as int });
    }

    /// In every state the record of each cache names the first slab of
    /// each of its lists, and each slab of a list names the next and the
    /// previous slab of the list.
    pub proof fn lemma_slab_links(&self, c: int, id: int, t: int)
        requires
            self.wf(),
            self@.caches.contains_key(c),
            0 <= id <= 2,
            0 <= t < self@.list(c, id).len(),
        ensures
            self.heap().mem().word_at(c + 8 * id) == self@.list(c, id)[0],
            self.heap().mem().word_at(self@.list(c, id)[t] + 8 * H_NEXT) == at(
                self@.list(c, id),
                t + 1,
            ),
            self.heap().mem().word_at(self@.list(c, id)[t] + 8 * H_PREV) == at(
                self@.list(c, id),
                t - 1,
            ),
    {
        let v = self.model@;
        let m = self.heap.mem();
        let p = v.list(c, id)[t];
        lemma_list_read(v, self.val@, c, id, t);
        lemma_mem_read(m, v, self.val@, Loc::Cache { c, f: id });
        lemma_mem_read(m, v, self.val@, Loc::Hdr { p, f: H_NEXT as int });
        lemma_mem_read(m, v, self.val@, Loc::Hdr { p, f: H_PREV as int });
    }

    /// In every state each free object of a slab holds, behind its back
    /// pointer, the address of the next free object of the slab, the
    /// last one zero; and every object of a slab, free or in use, holds
    /// in its first word the address of the slab.
    pub proof fn lemma_objects(&self, p: int, t: int, k: int)
        requires
            self.wf(),
            self@.slabs.contains_key(p),
            0 <= t < self@.slabs[p].free.len(),
            0 <= k < self@.cap(p),
        ensures
            self.heap().mem().word_at(self@.free_obj(p, t) + 8) == self@.free_obj(p, t + 1),
            self.heap().mem().word_at(self@.obj(p, k)) == p,
    {
        let v = self.model@;
        let m = self.heap.mem();
        assert(slab_ok(v, self.val@, p)) by {
            reveal(slabs_ok);
        }
        let j = v.slabs[p].free[t];
        assert(v.slabs[p].free.contains(j));
        assert(0 <= j < v.cap(p) && self.val@[Loc::Next { p, k: j }] == v.free_obj(p, t + 1)) by {
            reveal(slab_ok);
        }
        lemma_slab_read(v, self.val@, p);
        lemma_mem_read(m, v, self.val@, Loc::Next { p, k: j });
        lemma_mem_read(m, v, self.val@, Loc::Back { p, k });
    }

    /// In every state the records of the caches form a chain from the
    /// master cache on, in chain order, and each record has the object
    /// size of its cache.
    pub proof fn lemma_chain(&self, i: int)
        requires
            self.wf(),
            0 <= i < self@.chain.len(),
        ensures
            self@.caches.contains_key(self@.master),
            self@.caches[self@.master].obj_size == MASTER_CLASS,
            self.heap().mem().word_at(self@.master + 8 * C_NEXT) == self@.chain[0],
            self@.caches.contains_key(self@.chain[i]),
            self.heap().mem().word_at(self@.chain[i] + 8 * C_NEXT) == at(self@.chain, i + 1),
            self.heap().mem().word_at(self@.chain[i] + 8 * C_OBJ_SIZE) == self@.caches[self@.chain[i]].obj_size,
    {
        let v = self.model@;
        let m = self.heap.mem();
        lemma_chain_read(v, self.val@, i);
        lemma_count_read(v, self.val@, v.chain[i]);
        lemma_mem_read(m, v, self.val@, Loc::Cache { c: v.master, f: C_NEXT as int });
        lemma_mem_read(m, v, self.val@, Loc::Cache { c: v.chain[i], f: C_NEXT as int });
        lemma_mem_read(m, v, self.val@, Loc::Cache { c: v.chain[i], f: C_OBJ_SIZE as int });
    }

    /// Every slab is held by one list of its cache.
    pub proof fn lemma_slab_listed(&self, p: int)
        requires
            self.wf(),
            self@.slabs.contains_key(p),
        ensures
            self@.caches.contains_key(self@.slabs[p].cache),
            0 <= self@.slabs[p].state() <= 2,
            self@.list(self@.slabs[p].cache, self@.slabs[p].state()).contains(p),
            self@.heap.is_live(p),
            self@.heap.usable(p) >= PAGE_SIZE,
    {
        let v = self.model@;
        let t = lemma_listed(v, p);
        assert(v.slabs[p].list == v.slabs[p].state()) by {
            reveal(settled);
        }
        lemma_placed(v, p, 0);
    }

    /// The back pointer: the word before the user address of every live
    /// object holds the address of the slab of the object, whose page
    /// holds the object.
    pub proof fn lemma_back_pointer(&self, ptr: int)
        requires
            self.wf(),
            self@.is_live(ptr),
        ensures
            self.heap().mem().word_at(ptr - PTR_SIZE) == self@.object_of(ptr).0,
            self@.slabs.contains_key(self@.object_of(ptr).0),
            self@.object_of(ptr).0 < ptr - PTR_SIZE,
            ptr - PTR_SIZE + self@.slabs[self@.object_of(ptr).0].obj_size <= self@.object_of(ptr).0
                + PAGE_SIZE,
    {
        let v = self.model@;
        let (p, k) = v.object_of(ptr);
        assert(v.is_object(ptr, p, k));
        lemma_placed(v, p, 0);
        lemma_obj(p, v.slabs[p].obj_size, k);
        assert(slab_ok(v, self.val@, p)) by {
            reveal(slabs_ok);
        }
        lemma_slab_read(v, self.val@, p);
        lemma_mem_read(self.heap.mem(), v, self.val@, Loc::Back { p, k });
    }

    /// Where a live object lies: in a slab that fills a live page of
    /// the heap below, behind the padded header of the slab, at one of
    /// the places that the size class of the slab gives, and apart from
    /// every other live object. A user address belongs to one object
    /// only.
    pub proof fn lemma_object_place(&self, ptr: int, p: int, k: int, other: int, q: int, l: int)
        requires
            self.wf(),
            self@.is_object(ptr, p, k),
            self@.is_object(other, q, l),
        ensures
            self.heap().wf(),
            self@.heap == self.heap()@,
            self@.heap.inv(),
            self@.heap.is_live(p),
            self@.heap.usable(p) >= PAGE_SIZE,
            valid_class(self@.slabs[p].obj_size),
            0 <= k < self@.cap(p),
            ptr - PTR_SIZE == obj_addr(p, self@.slabs[p].obj_size, k),
            p + slab_space(self@.slabs[p].obj_size) <= ptr - PTR_SIZE,
            ptr - PTR_SIZE + self@.slabs[p].obj_size <= p + PAGE_SIZE,
            ptr == other ==> p == q && k == l,
            ptr != other ==> ptr - PTR_SIZE + self@.slabs[p].obj_size <= other - PTR_SIZE || other
                - PTR_SIZE + self@.slabs[q].obj_size <= ptr - PTR_SIZE,
    {
        let v = self.model@;
        lemma_placed(v, p, 0);
        lemma_placed(v, q, 0);
        lemma_obj(p, v.slabs[p].obj_size, k);
        lemma_obj(q, v.slabs[q].obj_size, l);
        if p == q {
            if k < l {
                lemma_obj_apart(p, v.slabs[p].obj_size, k, l);
            } else if l < k {
                lemma_obj_apart(p, v.slabs[p].obj_size, l, k);
            }
        } else {
            crate::heap_laws::lemma_live_disjoint(v.heap, p, q);
        }
    }

    /// Allocates from the heap below the allocator, past the caches.
    pub fn heap_allocate(&mut self, size: usize, align: usize) -> (r: usize)
        requires
            old(self).wf(),
        ensures
            final(self).wf(),
            r == old(self)@.heap.alloc_addr(size as int, align as int),
            final(self)@ == (KmemView {
                heap: old(self)@.heap.after_alloc(size as int, align as int),
                ..old(self)@
            }),
            forall|a: int| #[trigger]
                old(self)@.is_user_word(a) ==> final(self)@.is_user_word(a)
                    && final(self).heap().mem().word_at(a) == old(self).heap().mem().word_at(a),
    {
        let ghost v = self.model@;
        let ghost hv = self.heap@;
        let ghost m0 = *self.heap.mem();
        proof {
            self.heap.lemma_wf();
            lemma_alloc_live(hv, size as int, align as int);
        }
        let r: usize = self.heap.allocate(size, align);
        proof {
            let v0 = KmemView { heap: self.heap@, ..v };
            assert forall|q: int| #[trigger] v.slabs.contains_key(q) implies self.heap@.is_live(q)
                && self.heap@.usable(q) == v.heap.usable(q) by {
                lemma_placed(v, q, 0);
            }
            lemma_layout_heap(v, self.heap@);
            lemma_mem_keep(&m0, self.heap.mem(), v, self.val@);
            lemma_mem_sub(self.heap.mem(), v, v0, self.val@);
            self.model@ = v0;
            self.lemma_heap_only(v);
            lemma_keep_user(&m0, self.heap.mem(), v);
            lemma_users_steps(v, 0, 0, 0, 0, self.heap@);
            self.lemma_kept_stores(old(self), v, None);
            self.lemma_kept_use(old(self), None);
        }
        r
    }

    /// Releases an allocation of the heap below the allocator that is
    /// no slab.
    pub fn heap_dealloc(&mut self, buf: usize)
        requires
            old(self).wf(),
            old(self)@.heap.is_live(buf as int),
            !old(self)@.slabs.contains_key(buf as int),
        ensures
            final(self).wf(),
            final(self)@ == (KmemView { heap: old(self)@.heap.after_free(buf as int), ..old(self)@ }),
            forall|a: int| #[trigger]
                old(self)@.is_user_word(a) ==> final(self)@.is_user_word(a)
                    && final(self).heap().mem().word_at(a) == old(self).heap().mem().word_at(a),
    {
        let ghost v = self.model@;
        self.page_free(buf);
        proof {
            self.lemma_heap_only(v);
            self.lemma_kept_use(old(self), None);
        }
    }

    /// A change of the heap alone leaves the records in step with the
    /// model.
    proof fn lemma_heap_only(&self, v: KmemView)
        requires
            inv(v, self.val@),
            settled(v),
            self@ == (KmemView { heap: self@.heap, ..v }),
        ensures
            inv(self@, self.val@),
            settled(self@),
    {
        let w = self.model@;
        let val = self.val@;
        assert forall|q: int| #[trigger] v.slabs.contains_key(q) implies same_slab(v, val, w, val, q) by {}
        assert(!v.slabs.contains_key(0)) by {
            reveal(crate::slab_model::listed);
        }
        crate::slab_model::lemma_slabs_update(v, val, w, val, 0);
        crate::slab_model::lemma_lists_frame(v, val, w, val);
        assert(crate::slab_model::counts_ok(w, val)) by {
            reveal(crate::slab_model::counts_ok);
            reveal(crate::slab_model::count_ok);
            assert forall|c: int| #[trigger] w.caches.contains_key(c) implies crate::slab_model::count_ok(
                w,
                val,
                c,
            ) by {
                assert(crate::slab_model::count_ok(v, val, c));
                assert(w.count(c, true) == v.count(c, true));
                assert(w.count(c, false) == v.count(c, false));
            }
        }
        crate::slab_model::lemma_chain_frame(v, val, w, val);
        crate::slab_model::lemma_listed_frame(v, w);
        lemma_settled_move(v, w, 0);
    }

    /// The heap below the allocator.
    pub fn heap_ref(&self) -> (r: &FspAlloc)
        ensures
            r == self.heap(),
    {
        &self.heap
    }
}

/// A live allocation of the heap lies above address zero and below the
/// highest address.
pub proof fn lemma_placed_page(h: HeapView, p: int)
    requires
        h.inv(),
        h.is_live(p),
    ensures
        0 < p,
        p + h.usable(p) <= usize::MAX,
{
    crate::heap_laws::lemma_live_disjoint(h, p, p);
}

} // verus!
