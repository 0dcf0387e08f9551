//! A pool of reusable objects that hands out tokens for its entries.
use vstd::prelude::*;
use std::marker::PhantomData;
use crossbeam::queue::SegQueue;
use crate::bucket_vec::BucketVec;

verus! {

/// The queue of free entries, a `crossbeam::queue::SegQueue` of entry indices.
#[verifier::external_type_specification]
#[verifier::external_body]
#[verifier::reject_recursive_types(T)]
pub struct ExSegQueue<T>(SegQueue<T>);

/// The indices held by a queue of free entries, from the head (next to pop) to the tail.
pub uninterp spec fn seg_queue_items(q: SegQueue<u16>) -> Seq<u16>;

/// `SegQueue::new`: an empty queue.
#[verifier::external_body]
fn seg_queue_new() -> (q: SegQueue<u16>)
    ensures
        seg_queue_items(q) == Seq::<u16>::empty(),
{
    SegQueue::new()
}

/// `SegQueue::push`: appends `value` at the tail.
#[verifier::external_body]
fn seg_queue_push(q: &mut SegQueue<u16>, value: u16)
    ensures
        seg_queue_items(*final(q)) == seg_queue_items(*old(q)).push(value),
{
    q.push(value)
}

/// `SegQueue::pop`: removes and returns the head, or `None` when the queue is empty.
#[verifier::external_body]
fn seg_queue_pop(q: &mut SegQueue<u16>) -> (r: Option<u16>)
    ensures
        seg_queue_items(*old(q)).len() == 0 ==> r is None && seg_queue_items(*final(q)) == seg_queue_items(*old(q)),
        seg_queue_items(*old(q)).len() > 0 ==> r == Some(seg_queue_items(*old(q))[0])
            && seg_queue_items(*final(q)) == seg_queue_items(*old(q)).drop_first(),
{
    q.pop()
}

/// `SegQueue::len`: the number of queued indices.
#[verifier::external_body]
fn seg_queue_len(q: &SegQueue<u16>) -> (r: usize)
    ensures
        r == seg_queue_items(*q).len(),
{
    q.len()
}

/// The number of entries in each bucket of the pool (entries are allocated 64 at a time).
pub const OBJECT_POOL_BUCKET_ENTRY_COUNT: usize = 64;

/// The largest number of entries a pool can hold.
pub const OBJECT_POOL_MAX_ENTRIES: usize = 65535;

/// A pool of objects. Entries are created on demand by a constructor, handed out as
/// tokens, and put back on a free queue when the token is returned.
pub struct ObjectPool<T> {
    free: SegQueue<u16>,
    entries: BucketVec<Option<T>>,
    uid: u32,
}

/// An owned claim on one entry of a pool; it must be given back with `return_token`.
pub struct ObjectPoolToken<T> {
    pool_uid: u32,
    entry: u16,
    _phantom: PhantomData<T>,
}

impl<T> ObjectPoolToken<T> {
    /// The entry this token claims.
    pub closed spec fn spec_entry(&self) -> u16 {
        self.entry
    }

    /// The id of the pool that issued this token.
    pub closed spec fn spec_pool_uid(&self) -> u32 {
        self.pool_uid
    }

    /// The entry this token claims.
    pub fn entry(&self) -> (r: u16)
        ensures
            r == self.spec_entry(),
    {
        self.entry
    }

    /// The live object of the claimed entry.
    pub fn hydrate<'a>(&self, pool: &'a ObjectPool<T>) -> (r: &'a T)
        requires
            pool.wf(),
            self.spec_pool_uid() == pool.spec_uid(),
            (self.spec_entry() as int) < pool.spec_entries().len(),
            pool.spec_entries()[self.spec_entry() as int] is Some,
        ensures
            *r == pool.spec_entries()[self.spec_entry() as int]->0,
    {
        let slot = pool.entries.get(self.entry as usize);
        slot.as_ref().unwrap()
    }
}

impl<T> ObjectPoolToken<T> {
    /// The live object of the claimed entry, to change in place.
    pub fn hydrate_mut<'a>(&self, pool: &'a mut ObjectPool<T>) -> (r: &'a mut T)
        requires
            old(pool).wf(),
            self.spec_pool_uid() == old(pool).spec_uid(),
            (self.spec_entry() as int) < old(pool).spec_entries().len(),
            old(pool).spec_entries()[self.spec_entry() as int] is Some,
        ensures
            *r == old(pool).spec_entries()[self.spec_entry() as int]->0,
            final(pool).wf(),
            final(pool).spec_uid() == old(pool).spec_uid(),
            final(pool).spec_free() == old(pool).spec_free(),
            final(pool).spec_entries() == old(pool).spec_entries().update(self.spec_entry() as int, Some(*final(r))),
    {
        let ghost old_pool = *pool;
        let slot = pool.entries.get_mut(self.entry as usize);
        let ghost final_slot = *final(slot);
        let inner = slot.as_mut();
        let r = inner.unwrap();
        proof {
            assert(final_slot is Some);
            assert(after_borrow(pool.free) == old_pool.free);
            assert(after_borrow(pool.uid) == old_pool.uid);
            let fe = old_pool.entries@.update(self.entry as int, final_slot);
            assert forall|i: int| 0 <= i < fe.len() implies ((#[trigger] fe[i]) is None
                <==> seg_queue_items(old_pool.free).contains(i as u16)) by {
                if i != self.entry as int {
                    assert(fe[i] == old_pool.entries@[i]);
                }
            }
        }
        r
    }
}

impl<T> ObjectPool<T> {
    /// The entries: `Some` for an entry that is handed out, `None` for a free one.
    pub closed spec fn spec_entries(&self) -> Seq<Option<T>> {
        self.entries@
    }

    /// The free entries, in the order they will be handed out again.
    pub closed spec fn spec_free(&self) -> Seq<u16> {
        seg_queue_items(self.free)
    }

    /// The id of this pool.
    pub closed spec fn spec_uid(&self) -> u32 {
        self.uid
    }

    /// Consistency of the pool: the free queue holds each free entry exactly once, and an
    /// entry is free exactly when it holds no object.
    pub closed spec fn wf(&self) -> bool {
        let free = seg_queue_items(self.free);
        &&& self.entries.wf()
        &&& self.entries.spec_bucket_size() == OBJECT_POOL_BUCKET_ENTRY_COUNT
        &&& self.entries@.len() <= OBJECT_POOL_MAX_ENTRIES
        &&& free.no_duplicates()
        &&& (forall|k: int| 0 <= k < free.len() ==> (#[trigger] free[k] as int) < self.entries@.len())
        &&& (forall|i: int| 0 <= i < self.entries@.len() ==> ((#[trigger] self.entries@[i]) is None <==> free.contains(i as u16)))
    }

    /// The free entries are exactly the entries that hold no object.
    pub proof fn lemma_free_are_empty(&self, i: int)
        requires
            self.wf(),
            0 <= i < self.spec_entries().len(),
        ensures
            self.spec_entries()[i] is None <==> self.spec_free().contains(i as u16),
    {
    }

    /// An empty pool. Every pool is numbered 1.
    pub fn default() -> (r: Self)
        ensures
            r.wf(),
            r.spec_entries().len() == 0,
            r.spec_free().len() == 0,
            r.spec_uid() == 1,
    {
        ObjectPool { free: seg_queue_new(), entries: BucketVec::new(OBJECT_POOL_BUCKET_ENTRY_COUNT), uid: 1 }
    }

    /// The number of free entries.
    pub fn free_count(&self) -> (r: usize)
        requires
            self.wf(),
        ensures
            r == self.spec_free().len(),
    {
        seg_queue_len(&self.free)
    }

    /// The number of entries created so far.
    pub fn total_count(&self) -> (r: usize)
        requires
            self.wf(),
        ensures
            r == self.spec_entries().len(),
    {
        self.entries.len()
    }

    /// Whether every handed-out entry has been returned.
    pub fn all_returned(&self) -> (r: bool)
        requires
            self.wf(),
        ensures
            r == (self.spec_free().len() == self.spec_entries().len()),
    {
        self.entries.len() == seg_queue_len(&self.free)
    }

    /// Creates one more entry with `create_entry_fn(index)` and returns its index, or `None`
    /// when the pool is full.
    fn extend<F: Fn(usize) -> T>(&mut self, create_entry_fn: &F) -> (r: Option<u16>)
        requires
            old(self).wf(),
            forall|i: usize| create_entry_fn.requires((i,)),
        ensures
            final(self).wf(),
            final(self).spec_uid() == old(self).spec_uid(),
            final(self).spec_free() == old(self).spec_free(),
            old(self).spec_entries().len() == OBJECT_POOL_MAX_ENTRIES ==> r is None
                && final(self).spec_entries() == old(self).spec_entries(),
            old(self).spec_entries().len() < OBJECT_POOL_MAX_ENTRIES ==> r == Some(old(self).spec_entries().len() as u16)
                && final(self).spec_entries().len() == old(self).spec_entries().len() + 1
                && final(self).spec_entries().take(old(self).spec_entries().len() as int) == old(self).spec_entries()
                && final(self).spec_entries()[old(self).spec_entries().len() as int] is Some
                && call_ensures(*create_entry_fn, (old(self).spec_entries().len() as usize,),
                    final(self).spec_entries()[old(self).spec_entries().len() as int]->0),
    {
        let count = self.entries.len();
        if count == OBJECT_POOL_MAX_ENTRIES {
            return None;
        }
        let value = create_entry_fn(count);
        let ghost free = seg_queue_items(self.free);
        self.entries.push(Some(value));
        proof {
            assert(self.entries@.take(count as int) =~= old(self).entries@);
            assert forall|i: int| 0 <= i < self.entries@.len() implies ((#[trigger] self.entries@[i]) is None
                <==> free.contains(i as u16)) by {
                if i == count as int {
                    if free.contains(i as u16) {
                        let k = choose|k: int| 0 <= k < free.len() && free[k] == i as u16;
                        assert((free[k] as int) < old(self).entries@.len());
                    }
                }
            }
        }
        Some(count as u16)
    }

    /// Hands out an entry: the oldest free one, rebuilt with `create_entry_fn(index)`, or a
    /// new one when none is free.
    pub fn take_token<F: Fn(usize) -> T>(&mut self, create_entry_fn: F) -> (token: ObjectPoolToken<T>)
        requires
            old(self).wf(),
            old(self).spec_free().len() > 0 || old(self).spec_entries().len() < OBJECT_POOL_MAX_ENTRIES,
            forall|i: usize| create_entry_fn.requires((i,)),
        ensures
            final(self).wf(),
            final(self).spec_uid() == old(self).spec_uid(),
            token.spec_pool_uid() == old(self).spec_uid(),
            (token.spec_entry() as int) < final(self).spec_entries().len(),
            final(self).spec_entries()[token.spec_entry() as int] is Some,
            call_ensures(create_entry_fn, (token.spec_entry() as usize,),
                final(self).spec_entries()[token.spec_entry() as int]->0),
            old(self).spec_free().len() > 0 ==> token.spec_entry() == old(self).spec_free()[0]
                && final(self).spec_free() == old(self).spec_free().drop_first()
                && final(self).spec_entries().len() == old(self).spec_entries().len(),
            old(self).spec_free().len() == 0 ==> token.spec_entry() as int == old(self).spec_entries().len()
                && final(self).spec_free() == old(self).spec_free()
                && final(self).spec_entries().len() == old(self).spec_entries().len() + 1,
            forall|i: int| 0 <= i < old(self).spec_entries().len() && i != token.spec_entry() as int
                ==> final(self).spec_entries()[i] == old(self).spec_entries()[i],
    {
        let ghost free0 = seg_queue_items(self.free);
        let index = match seg_queue_pop(&mut self.free) {
            Some(i) => {
                let value = create_entry_fn(i as usize);
                let ghost entries0 = self.entries@;
                assert(free0[0] == i);
                assert((i as int) < self.entries@.len());
                self.entries.set(i as usize, Some(value));
                proof {
                    let free1 = seg_queue_items(self.free);
                    assert(free1 =~= free0.drop_first());
                    assert(free1.no_duplicates());
                    assert(!free1.contains(i)) by {
                        if free1.contains(i) {
                            let k = choose|k: int| 0 <= k < free1.len() && free1[k] == i;
                            assert(free0[k + 1] == free0[0]);
                        }
                    }
                    assert forall|j: int| 0 <= j < self.entries@.len() implies ((#[trigger] self.entries@[j]) is None
                        <==> free1.contains(j as u16)) by {
                        if j != i as int {
                            assert(self.entries@[j] == entries0[j]);
                            if free0.contains(j as u16) {
                                let k = choose|k: int| 0 <= k < free0.len() && free0[k] == j as u16;
                                assert(k != 0);
                                assert(free1[k - 1] == j as u16);
                            }
                            if free1.contains(j as u16) {
                                let k = choose|k: int| 0 <= k < free1.len() && free1[k] == j as u16;
                                assert(free0[k + 1] == j as u16);
                            }
                        }
                    }
                    assert forall|k: int| 0 <= k < free1.len() implies (#[trigger] free1[k] as int) < self.entries@.len() by {
                        assert(free1[k] == free0[k + 1]);
                    }
                }
                i
            },
            None => {
                let r = self.extend(&create_entry_fn);
                r.unwrap()
            },
        };
        ObjectPoolToken { pool_uid: self.uid, entry: index, _phantom: PhantomData }
    }

    /// Gives back a token: its entry's object is dropped and the entry joins the free queue.
    pub fn return_token(&mut self, token: ObjectPoolToken<T>)
        requires
            old(self).wf(),
            token.spec_pool_uid() == old(self).spec_uid(),
            (token.spec_entry() as int) < old(self).spec_entries().len(),
            old(self).spec_entries()[token.spec_entry() as int] is Some,
        ensures
            final(self).wf(),
            final(self).spec_uid() == old(self).spec_uid(),
            final(self).spec_entries() == old(self).spec_entries().update(token.spec_entry() as int, None),
            final(self).spec_free() == old(self).spec_free().push(token.spec_entry()),
    {
        let e = token.entry;
        let ghost free0 = seg_queue_items(self.free);
        let ghost entries0 = self.entries@;
        self.entries.set(e as usize, None);
        seg_queue_push(&mut self.free, e);
        proof {
            let free1 = seg_queue_items(self.free);
            assert(!free0.contains(e));
            assert forall|a: int, b: int| 0 <= a < b < free1.len() implies free1[a] != free1[b] by {
                if b == free0.len() {
                    assert(free0.contains(free1[a]));
                }
            }
            assert forall|k: int| 0 <= k < free1.len() implies (#[trigger] free1[k] as int) < self.entries@.len() by {
                if k < free0.len() {
                    assert(free1[k] == free0[k]);
                }
            }
            assert forall|j: int| 0 <= j < self.entries@.len() implies ((#[trigger] self.entries@[j]) is None
                <==> free1.contains(j as u16)) by {
                if j == e as int {
                    assert(free1[free0.len() as int] == e);
                } else {
                    assert(self.entries@[j] == entries0[j]);
                    if free0.contains(j as u16) {
                        let k = choose|k: int| 0 <= k < free0.len() && free0[k] == j as u16;
                        assert(free1[k] == j as u16);
                    }
                    if free1.contains(j as u16) {
                        let k = choose|k: int| 0 <= k < free1.len() && free1[k] == j as u16;
                        if k < free0.len() {
                            assert(free0[k] == j as u16);
                        } else {
                            assert(free1[k] == e);
                            assert((j as u16) as int == j);
                        }
                    }
                }
            }
        }
    }
}

} // verus!
