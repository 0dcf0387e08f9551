//! A growable array that stores its items in fixed-size buckets, so that items never move
//! once pushed.
use vstd::prelude::*;
use vstd::arithmetic::div_mod::{lemma_fundamental_div_mod, lemma_fundamental_div_mod_converse};

verus! {

/// A growable array whose items live in buckets of `bucket_size` items each.
pub struct BucketVec<T> {
    buckets: Vec<Vec<T>>,
    bucket_size: usize,
    len: usize,
}

/// The item at position `i` of buckets of size `bs`.
pub open spec fn bucket_item<T>(buckets: Seq<Vec<T>>, bs: nat, i: int) -> T {
    buckets[i / (bs as int)]@[i % (bs as int)]
}

proof fn lemma_split(i: int, bs: int, q: int, r: int)
    requires
        bs > 0,
        0 <= r < bs,
        i == q * bs + r,
    ensures
        i / bs == q,
        i % bs == r,
{
    lemma_fundamental_div_mod_converse(i, bs, q, r);
}

proof fn lemma_quotient_bounds(i: int, bs: int, k: int)
    requires
        bs > 0,
        i >= 0,
    ensures
        i < k * bs ==> i / bs < k,
        i >= k * bs ==> i / bs >= k,
        i / bs >= 0,
        i == (i / bs) * bs + i % bs,
        0 <= i % bs < bs,
{
    lemma_fundamental_div_mod(i, bs);
    let q = i / bs;
    let r = i % bs;
    assert(bs * q == q * bs) by (nonlinear_arith);
    assert(q >= 0) by (nonlinear_arith)
        requires i == q * bs + r, i >= 0, 0 <= r < bs, bs > 0;
    if i < k * bs {
        assert(q < k) by (nonlinear_arith)
            requires i == q * bs + r, i < k * bs, 0 <= r, bs > 0;
    }
    if i >= k * bs {
        assert(q >= k) by (nonlinear_arith)
            requires i == q * bs + r, i >= k * bs, r < bs, bs > 0;
    }
}

proof fn lemma_mul_step(a: int, b: int)
    ensures
        (a + 1) * b == a * b + b,
        (a - 1) * b == a * b - b,
{
    assert((a + 1) * b == a * b + b) by (nonlinear_arith);
    assert((a - 1) * b == a * b - b) by (nonlinear_arith);
}

impl<T> BucketVec<T> {
    /// The well-formedness of the buckets: every bucket but the last is full, the last one
    /// holds the rest, and there is no empty bucket.
    pub closed spec fn wf(&self) -> bool {
        let nb = self.buckets@.len();
        let bs = self.bucket_size as int;
        &&& (self.bucket_size == 0 ==> self.len == 0 && nb == 0)
        &&& (self.len == 0 <==> nb == 0)
        &&& (nb > 0 ==> (nb - 1) * bs < self.len <= nb * bs)
        &&& (forall|b: int| 0 <= b < nb - 1 ==> (#[trigger] self.buckets@[b])@.len() == bs)
        &&& (nb > 0 ==> self.buckets@[nb - 1]@.len() == self.len - (nb - 1) * bs)
    }

    /// The items, in order.
    pub closed spec fn view(&self) -> Seq<T> {
        Seq::new(self.len as nat, |i: int| bucket_item(self.buckets@, self.bucket_size as nat, i))
    }

    /// The size of each bucket.
    pub closed spec fn spec_bucket_size(&self) -> nat {
        self.bucket_size as nat
    }

    /// The number of buckets in use.
    pub closed spec fn spec_num_buckets(&self) -> nat {
        self.buckets@.len()
    }

    proof fn lemma_locate(&self, i: int)
        requires
            self.wf(),
            0 <= i < self.len,
        ensures
            0 <= i / (self.bucket_size as int) < self.buckets@.len(),
            0 <= i % (self.bucket_size as int) < self.buckets@[i / (self.bucket_size as int)]@.len(),
            i / (self.bucket_size as int) < self.buckets@.len() - 1 ==> self.buckets@[i / (self.bucket_size as int)]@.len() == self.bucket_size,
    {
        let bs = self.bucket_size as int;
        let nb = self.buckets@.len() as int;
        lemma_quotient_bounds(i, bs, nb);
        lemma_quotient_bounds(i, bs, nb - 1);
        let q = i / bs;
        let r = i % bs;
        if q < nb - 1 {
            assert(self.buckets@[q]@.len() == bs);
        } else {
            assert(q == nb - 1);
            assert(r < self.len - (nb - 1) * bs);
        }
    }

    /// The buckets in use are exactly as many as the items need: the item count divided by
    /// the bucket size, rounded up.
    pub proof fn lemma_num_buckets(&self)
        requires
            self.wf(),
            self.spec_bucket_size() > 0,
        ensures
            self.spec_num_buckets() == (self@.len() + self.spec_bucket_size() - 1) / (self.spec_bucket_size() as int),
    {
        let bs = self.bucket_size as int;
        let nb = self.buckets@.len() as int;
        let n = self.len as int;
        if nb == 0 {
            lemma_quotient_bounds(bs - 1, bs, 1);
        } else {
            lemma_mul_step(nb - 1, bs);
            lemma_quotient_bounds(n + bs - 1, bs, nb);
            lemma_quotient_bounds(n + bs - 1, bs, nb + 1);
            lemma_mul_step(nb, bs);
        }
    }

    /// An empty array with buckets of `bucket_size` items.
    pub fn new(bucket_size: usize) -> (r: Self)
        ensures
            r.wf(),
            r@ == Seq::<T>::empty(),
            r.spec_bucket_size() == bucket_size,
            r.spec_num_buckets() == 0,
    {
        BucketVec { buckets: Vec::new(), bucket_size, len: 0 }
    }

    /// The number of items.
    pub fn len(&self) -> (r: usize)
        requires
            self.wf(),
        ensures
            r == self@.len(),
    {
        self.len
    }

    /// The number of buckets in use.
    pub fn num_buckets(&self) -> (r: usize)
        requires
            self.wf(),
        ensures
            r == self.spec_num_buckets(),
    {
        self.buckets.len()
    }

    /// Appends `val` at the end, opening a new bucket when the last one is full.
    pub fn push(&mut self, val: T)
        requires
            old(self).wf(),
            old(self).spec_bucket_size() > 0,
            old(self)@.len() < usize::MAX,
        ensures
            final(self).wf(),
            final(self)@ == old(self)@.push(val),
            final(self).spec_bucket_size() == old(self).spec_bucket_size(),
            final(self).spec_num_buckets() == if old(self)@.len() % old(self).spec_bucket_size() == 0 {
                old(self).spec_num_buckets() + 1
            } else {
                old(self).spec_num_buckets()
            },
    {
        let ghost old_buckets = self.buckets@;
        let ghost bs = self.bucket_size as int;
        let ghost nb = self.buckets@.len() as int;
        let ghost n = self.len as int;
        let rel_idx = self.len % self.bucket_size;
        proof {
            lemma_quotient_bounds(n, bs, nb);
            lemma_quotient_bounds(n, bs, nb - 1);
            lemma_mul_step(nb - 1, bs);
            if rel_idx == 0 {
                // all buckets are full
                if nb > 0 {
                    let q = n / bs;
                    assert(n == q * bs);
                    if n < nb * bs {
                        assert(q < nb);
                        assert(q <= nb - 1);
                        assert(q * bs <= (nb - 1) * bs) by (nonlinear_arith)
                            requires q <= nb - 1, bs > 0;
                        assert(false);
                    }
                    assert(n == nb * bs);
                }
            } else {
                if nb == 0 {
                    assert(n == 0);
                }
                assert(nb > 0);
                if n == nb * bs {
                    lemma_split(n, bs, nb, 0);
                }
                assert(n < nb * bs);
            }
        }
        if rel_idx == 0 {
            let mut fresh: Vec<T> = Vec::new();
            fresh.push(val);
            self.buckets.push(fresh);
        } else {
            let last = self.buckets.len() - 1;
            let mut bucket = self.buckets.pop().unwrap();
            bucket.push(val);
            self.buckets.push(bucket);
            assert(last == nb - 1);
        }
        self.len = self.len + 1;
        proof {
            let nb2 = self.buckets@.len() as int;
            lemma_mul_step(nb2 - 1, bs);
            assert forall|b: int| 0 <= b < nb2 - 1 implies (#[trigger] self.buckets@[b])@.len() == bs by {
                if b < nb - 1 {
                    assert(self.buckets@[b] == old_buckets[b]);
                } else {
                    assert(rel_idx == 0 && b == nb - 1);
                    assert(self.buckets@[b] == old_buckets[b]);
                }
            }
            assert forall|i: int| 0 <= i < n + 1 implies bucket_item(self.buckets@, bs as nat, i)
                == old(self)@.push(val)[i] by {
                if i < n {
                    old(self).lemma_locate(i);
                    let q = i / bs;
                    assert(q < nb);
                    assert(self.buckets@[q]@[i % bs] == old_buckets[q]@[i % bs]);
                } else {
                    if rel_idx == 0 {
                        lemma_split(i, bs, nb, 0);
                    } else {
                        lemma_split(i, bs, nb - 1, n - (nb - 1) * bs);
                    }
                }
            }
            assert(self@ =~= old(self)@.push(val));
        }
    }

    /// The item at `index`.
    pub fn get(&self, index: usize) -> (r: &T)
        requires
            self.wf(),
            index < self@.len(),
        ensures
            *r == self@[index as int],
    {
        proof {
            self.lemma_locate(index as int);
        }
        let bucket_idx = index / self.bucket_size;
        let rel_idx = index % self.bucket_size;
        &self.buckets[bucket_idx][rel_idx]
    }

    /// The item at `index`, to change in place.
    pub fn get_mut(&mut self, index: usize) -> (r: &mut T)
        requires
            old(self).wf(),
            index < old(self)@.len(),
        ensures
            *r == old(self)@[index as int],
            final(self).wf(),
            final(self)@ == old(self)@.update(index as int, *final(r)),
            final(self).spec_bucket_size() == old(self).spec_bucket_size(),
            final(self).spec_num_buckets() == old(self).spec_num_buckets(),
    {
        proof {
            self.lemma_locate(index as int);
        }
        let bucket_idx = index / self.bucket_size;
        let rel_idx = index % self.bucket_size;
        let ghost old_self = *self;
        let bucket = &mut self.buckets[bucket_idx];
        let ghost final_bucket = *final(bucket);
        proof {
            assert(after_borrow(self.bucket_size) == old_self.bucket_size);
            assert(after_borrow(self.len) == old_self.len);
            assert(after_borrow(self.buckets)@ == old_self.buckets@.update(bucket_idx as int, final_bucket));
        }
        let item = &mut bucket[rel_idx];
        proof {
            let bs = old_self.bucket_size as int;
            let nb = old_self.buckets@.len();
            assert(final_bucket@ == old_self.buckets@[bucket_idx as int]@.update(rel_idx as int, *final(item)));
            let fb = old_self.buckets@.update(bucket_idx as int, final_bucket);
            assert forall|b: int| 0 <= b < nb - 1 implies (#[trigger] fb[b])@.len() == bs by {
                if b != bucket_idx as int {
                    assert(fb[b] == old_self.buckets@[b]);
                }
            }
            let nv = Seq::new(old_self.len as nat, |i: int| bucket_item(fb, bs as nat, i));
            assert(nv =~= old_self.view().update(index as int, *final(item))) by {
                assert forall|i: int| 0 <= i < old_self.len implies #[trigger] nv[i] == old_self.view().update(index as int, *final(item))[i] by {
                    old_self.lemma_locate(i);
                    lemma_quotient_bounds(i, bs, 0);
                    lemma_quotient_bounds(index as int, bs, 0);
                    if i != index as int && i / bs == bucket_idx as int {
                        assert(i % bs != rel_idx as int);
                    }
                }
            }
        }
        item
    }

    /// Replaces the item at `index` with `val`.
    pub fn set(&mut self, index: usize, val: T)
        requires
            old(self).wf(),
            index < old(self)@.len(),
        ensures
            final(self).wf(),
            final(self)@ == old(self)@.update(index as int, val),
            final(self).spec_bucket_size() == old(self).spec_bucket_size(),
            final(self).spec_num_buckets() == old(self).spec_num_buckets(),
    {
        let ghost old_buckets = self.buckets@;
        let ghost bs = self.bucket_size as int;
        proof {
            self.lemma_locate(index as int);
        }
        let bucket_idx = index / self.bucket_size;
        let rel_idx = index % self.bucket_size;
        let mut bucket: Vec<T> = Vec::new();
        std::mem::swap(&mut bucket, &mut self.buckets[bucket_idx]);
        bucket.set(rel_idx, val);
        self.buckets.set(bucket_idx, bucket);
        proof {
            assert forall|b: int| 0 <= b < self.buckets@.len() implies (#[trigger] self.buckets@[b])@.len()
                == old_buckets[b]@.len() by {}
            assert forall|i: int| 0 <= i < self.len implies bucket_item(self.buckets@, bs as nat, i)
                == old(self)@.update(index as int, val)[i] by {
                old(self).lemma_locate(i);
                if i != index as int {
                    lemma_fundamental_div_mod(i, bs);
                    lemma_fundamental_div_mod(index as int, bs);
                    if i / bs == (index as int) / bs {
                        assert(i % bs != (index as int) % bs);
                    }
                }
            }
            assert(self@ =~= old(self)@.update(index as int, val));
        }
    }

    /// Removes the last item.
    fn pop_last(&mut self)
        requires
            old(self).wf(),
            old(self)@.len() > 0,
        ensures
            final(self).wf(),
            final(self)@ == old(self)@.drop_last(),
            final(self).spec_bucket_size() == old(self).spec_bucket_size(),
    {
        let ghost old_buckets = self.buckets@;
        let ghost bs = self.bucket_size as int;
        let ghost nb = self.buckets@.len() as int;
        let ghost n = self.len as int;
        let mut bucket = self.buckets.pop().unwrap();
        let _ = bucket.pop();
        if bucket.len() > 0 {
            self.buckets.push(bucket);
        }
        self.len = self.len - 1;
        proof {
            lemma_mul_step(nb - 1, bs);
            lemma_mul_step(nb - 2, bs);
            assert(bs > 0);
            let nb2 = self.buckets@.len() as int;
            let last_len = old_buckets[nb - 1]@.len() as int;
            assert(last_len == n - (nb - 1) * bs);
            assert(last_len >= 1);
            if last_len == 1 {
                assert(nb2 == nb - 1);
                if nb2 > 0 {
                    assert(old_buckets[nb - 2]@.len() == bs);
                    assert(self.buckets@[nb2 - 1] == old_buckets[nb - 2]);
                    assert(n - 1 == nb2 * bs);
                    assert(nb2 * bs > 0) by (nonlinear_arith)
                        requires nb2 > 0, bs > 0;
                } else {
                    assert(n - 1 == 0);
                }
                if n - 1 == 0 {
                    assert((nb - 1) * bs <= 0);
                    assert(nb - 1 <= 0) by (nonlinear_arith)
                        requires (nb - 1) * bs <= 0, bs > 0;
                }
            } else {
                assert(nb2 == nb);
                assert(self.buckets@[nb - 1]@ == old_buckets[nb - 1]@.drop_last());
            }
            assert forall|b: int| 0 <= b < nb2 - 1 implies (#[trigger] self.buckets@[b])@.len() == bs by {
                assert(self.buckets@[b] == old_buckets[b]);
            }
            assert forall|i: int| 0 <= i < n - 1 implies bucket_item(self.buckets@, bs as nat, i)
                == old(self)@.drop_last()[i] by {
                old(self).lemma_locate(i);
                lemma_quotient_bounds(i, bs, nb - 1);
                let q = i / bs;
                if q == nb - 1 {
                    assert(last_len > 1);
                    assert(i % bs < last_len - 1);
                    assert(self.buckets@[q]@[i % bs] == old_buckets[q]@[i % bs]);
                } else {
                    assert(self.buckets@[q] == old_buckets[q]);
                }
            }
            assert(self@ =~= old(self)@.drop_last());
        }
    }
}

impl<T> std::ops::Index<usize> for BucketVec<T> {
    type Output = T;

    fn index(&self, index: usize) -> (r: &T)
        ensures
            *r == self@[index as int],
    {
        self.get(index)
    }
}

impl<T> vstd::std_specs::core::IndexSpecImpl<usize> for BucketVec<T> {
    open spec fn index_req(&self, index: &usize) -> bool {
        self.wf() && *index < self@.len()
    }
}

impl<T: Default> BucketVec<T> {
    /// Grows the array to `new_size` items, appending `T::default()` values, or shrinks it
    /// to its first `new_size` items.
    pub fn resize_with_default(&mut self, new_size: usize)
        requires
            old(self).wf(),
            new_size > old(self)@.len() ==> old(self).spec_bucket_size() > 0,
        ensures
            final(self).wf(),
            final(self)@.len() == new_size,
            final(self).spec_bucket_size() == old(self).spec_bucket_size(),
            new_size <= old(self)@.len() ==> final(self)@ == old(self)@.take(new_size as int),
            new_size > old(self)@.len() ==> final(self)@.take(old(self)@.len() as int) == old(self)@,
            forall|i: int| old(self)@.len() <= i < new_size ==> call_ensures(T::default, (), #[trigger] final(self)@[i]),
    {
        if new_size <= self.len {
            while self.len > new_size
                invariant
                    self.wf(),
                    new_size <= self@.len() <= old(self)@.len(),
                    self@ == old(self)@.take(self@.len() as int),
                    self.spec_bucket_size() == old(self).spec_bucket_size(),
                decreases self.len,
            {
                let ghost before = self@;
                self.pop_last();
                assert(self@ =~= old(self)@.take(self@.len() as int));
            }
        } else {
            while self.len < new_size
                invariant
                    self.wf(),
                    old(self)@.len() <= self@.len() <= new_size,
                    self@.take(old(self)@.len() as int) == old(self)@,
                    self.spec_bucket_size() == old(self).spec_bucket_size(),
                    self.spec_bucket_size() > 0,
                    forall|i: int| old(self)@.len() <= i < self@.len() ==> call_ensures(T::default, (), #[trigger] self@[i]),
                decreases new_size - self.len,
            {
                let ghost before = self@;
                let item = T::default();
                self.push(item);
                assert(self@.take(old(self)@.len() as int) =~= before.take(old(self)@.len() as int));
            }
        }
    }
}


/// Pushing the values `vals` one by one (`views` holds the items before each push and after
/// the last) leaves the earlier items followed by `vals`; from a new array, exactly `vals`,
/// so its length after `k` pushes is `k`.
pub proof fn lemma_pushes<T>(views: Seq<Seq<T>>, vals: Seq<T>)
    requires
        views.len() == vals.len() + 1,
        forall|i: int| 0 <= i < vals.len() ==> #[trigger] views[i + 1] == views[i].push(vals[i]),
    ensures
        views.last() == views[0] + vals,
        views.last().len() == views[0].len() + vals.len(),
    decreases vals.len(),
{
    if vals.len() > 0 {
        let k = vals.len() - 1;
        lemma_pushes(views.drop_last(), vals.drop_last());
        assert(views.drop_last().last() == views[k]);
        assert(views[k + 1] == views[k].push(vals[k]));
        assert(views[0] + vals =~= (views[0] + vals.drop_last()).push(vals[k]));
    } else {
        assert(views[0] + vals =~= views[0]);
    }
}

} // verus!
