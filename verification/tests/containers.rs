use engine_3l14::bucket_vec::BucketVec;
use engine_3l14::node_index::NodeIndex;
use engine_3l14::object_pool::ObjectPool;
use std::cell::Cell;
use std::rc::Rc;

#[test]
fn node_index_basic() {
    assert!(NodeIndex::none().is_none());
    assert!(NodeIndex::some(0).is_some());
    assert!(NodeIndex::some(1).is_some());
    assert!(NodeIndex::some(usize::MAX - 1).is_some());
}

#[test]
fn node_index_default_is_none() {
    let n: NodeIndex = Default::default();
    assert!(n.is_none());
    assert!(!n.is_some());
    assert_eq!(NodeIndex::none().0, usize::MAX);
}

#[test]
fn basic_creation() {
    let mut vec = BucketVec::new(2);
    assert_eq!(0, vec.len());
    assert_eq!(0, vec.num_buckets());

    vec.push(1024u32);
    assert_eq!(1, vec.len());
    assert_eq!(1, vec.num_buckets());
    assert_eq!(1024u32, vec[0]);

    vec.push(1337u32);
    assert_eq!(2, vec.len());
    assert_eq!(1, vec.num_buckets());
    assert_eq!(1024u32, vec[0]);
    assert_eq!(1337u32, vec[1]);

    vec.push(9001u32);
    assert_eq!(3, vec.len());
    assert_eq!(2, vec.num_buckets());
    assert_eq!(1024u32, vec[0]);
    assert_eq!(1337u32, vec[1]);
    assert_eq!(9001u32, vec[2]);

    *vec.get_mut(2) = 12345u32;
    assert_eq!(1024u32, vec[0]);
    assert_eq!(1337u32, vec[1]);
    assert_eq!(12345u32, vec[2]);
}

#[test]
fn resize() {
    let mut vec = BucketVec::<u32>::new(2);
    assert_eq!(0, vec.len());
    assert_eq!(0, vec.num_buckets());

    vec.resize_with_default(12);
    assert_eq!(12, vec.len());
    assert_eq!(6, vec.num_buckets());
}

#[test]
fn bucket_vec_resize_keeps_prefix_and_shrinks() {
    let mut vec = BucketVec::<u32>::new(3);
    vec.push(7);
    vec.push(8);
    vec.resize_with_default(5);
    assert_eq!(5, vec.len());
    assert_eq!(2, vec.num_buckets());
    assert_eq!(7, vec[0]);
    assert_eq!(8, vec[1]);
    assert_eq!(0, vec[2]);
    assert_eq!(0, vec[4]);

    vec.resize_with_default(1);
    assert_eq!(1, vec.len());
    assert_eq!(1, vec.num_buckets());
    assert_eq!(7, *vec.get(0));

    vec.push(9);
    assert_eq!(9, vec[1]);
}

#[test]
fn bucket_vec_buckets_fill_in_order() {
    let mut vec = BucketVec::new(4);
    for i in 0..9u64 {
        vec.push(i * 10);
        assert_eq!(((i + 1 + 3) / 4) as usize, vec.num_buckets());
    }
    for i in 0..9u64 {
        assert_eq!(i * 10, vec[i as usize]);
    }
}

struct TestEntry(pub usize, Rc<Cell<u32>>);
impl Drop for TestEntry {
    fn drop(&mut self) {
        self.1.set(self.1.get() + 1);
    }
}

#[test]
fn object_pool_test() {
    let drops = Rc::new(Cell::new(0u32));
    let make = |i: usize| TestEntry(i, drops.clone());

    let mut pool = ObjectPool::default();
    assert_eq!(pool.total_count(), 0);
    assert_eq!(pool.free_count(), 0);
    assert_eq!(drops.get(), 0);

    {
        let entry = pool.take_token(make);
        assert_eq!(entry.hydrate(&pool).0, 0);
        assert_eq!(pool.total_count(), 1);
        assert_eq!(pool.free_count(), 0);
        pool.return_token(entry);
    }

    assert_eq!(pool.total_count(), 1);
    assert_eq!(pool.free_count(), 1);
    assert_eq!(drops.get(), 1);

    {
        let entry = pool.take_token(make);
        assert_eq!(entry.hydrate(&pool).0, 0);
        {
            let entry2 = pool.take_token(make);
            assert_eq!(entry2.hydrate(&pool).0, 1);
            assert_eq!(pool.total_count(), 2);
            assert_eq!(pool.free_count(), 0);
            pool.return_token(entry2);
        }

        assert_eq!(pool.total_count(), 2);
        assert_eq!(pool.free_count(), 1);
        assert_eq!(drops.get(), 2);
        pool.return_token(entry);
    }

    assert_eq!(pool.total_count(), 2);
    assert_eq!(pool.free_count(), 2);
    assert_eq!(drops.get(), 3);

    {
        let t = pool.take_token(make);

        assert_eq!(pool.total_count(), 2);
        assert_eq!(pool.free_count(), 1);

        let hydr = t.hydrate(&pool);
        assert_eq!(hydr.0, 1);

        pool.return_token(t);
        assert_eq!(pool.total_count(), 2);
        assert_eq!(pool.free_count(), 2);
    }
    assert_eq!(drops.get(), 4);
    assert!(pool.all_returned());
}

#[test]
fn object_pool_reuses_free_entries_oldest_first() {
    let mut pool = ObjectPool::default();
    let a = pool.take_token(|i| i * 100);
    let b = pool.take_token(|i| i * 100);
    let c = pool.take_token(|i| i * 100);
    assert_eq!((a.entry(), b.entry(), c.entry()), (0, 1, 2));
    assert!(!pool.all_returned());
    pool.return_token(c);
    pool.return_token(a);
    let d = pool.take_token(|i| i + 1);
    assert_eq!(d.entry(), 2);
    assert_eq!(*d.hydrate(&pool), 3);
    let e = pool.take_token(|i| i + 1);
    assert_eq!(e.entry(), 0);
    let f = pool.take_token(|i| i + 1);
    assert_eq!(f.entry(), 3);
    assert_eq!(pool.total_count(), 4);
    assert_eq!(*b.hydrate(&pool), 100);
    for t in [b, d, e, f] {
        pool.return_token(t);
    }
    assert!(pool.all_returned());
}

#[test]
fn bucket_vec_set_and_get_mut() {
    let mut vec = BucketVec::new(3);
    for i in 0..7u32 {
        vec.push(i);
    }
    vec.set(4, 40);
    *vec.get_mut(6) += 100;
    assert_eq!(vec[4], 40);
    assert_eq!(vec[6], 106);
    assert_eq!(vec[5], 5);
    assert_eq!(vec.len(), 7);
    assert_eq!(vec.num_buckets(), 3);
}

#[test]
fn object_pool_hydrate_mut_changes_the_entry() {
    let mut pool: ObjectPool<Vec<u32>> = ObjectPool::default();
    let token = pool.take_token(|i| vec![i as u32]);
    token.hydrate_mut(&mut pool).push(7);
    assert_eq!(token.hydrate(&pool), &vec![0, 7]);
    pool.return_token(token);
    assert!(pool.all_returned());
}
