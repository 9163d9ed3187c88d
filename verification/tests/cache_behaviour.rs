//! The cache on concrete values: one test per law and per operation.

use lru::etna::{TrackedKey, TrackedVal};
use lru::{CacheKey, LruCache};
use std::sync::atomic::{AtomicUsize, Ordering};
use std::borrow::Borrow;
use std::collections::hash_map::DefaultHasher;
use std::hash::{Hash, Hasher};
use std::sync::Arc;

fn ids(c: &LruCache<u32, u32>) -> Vec<u32> {
    c.iter().into_iter().map(|(k, _)| *k).collect()
}

#[test]
fn put_then_peek_reads_back_the_value() {
    let mut c: LruCache<u32, u32> = LruCache::new(2);
    assert_eq!(c.put(1, 10), None);
    assert_eq!(c.peek(&1), Some(&10));
    assert_eq!(c.put(1, 11), Some(10));
    assert_eq!(c.peek(&1), Some(&11));
    assert_eq!(c.len(), 1);
}

#[test]
fn put_makes_the_entry_most_recent_and_evicts_the_least_recent() {
    let mut c: LruCache<u32, u32> = LruCache::new(2);
    c.put(1, 10);
    c.put(2, 20);
    assert_eq!(ids(&c), vec![2, 1]);
    c.put(1, 11);
    assert_eq!(ids(&c), vec![1, 2]);
    assert_eq!(c.put(3, 30), None);
    assert_eq!(ids(&c), vec![3, 1]);
    assert_eq!(c.peek(&2), None);
    assert_eq!(c.peek(&1), Some(&11));
    assert_eq!(c.len(), 2);
}

#[test]
fn peek_does_not_change_the_order() {
    let mut c: LruCache<u32, u32> = LruCache::new(3);
    c.put(1, 10);
    c.put(2, 20);
    assert_eq!(c.peek(&1), Some(&10));
    assert_eq!(ids(&c), vec![2, 1]);
}

#[test]
fn pop_removes_only_that_key() {
    let mut c: LruCache<u32, u32> = LruCache::new(3);
    c.put(1, 10);
    c.put(2, 20);
    c.put(3, 30);
    assert_eq!(c.pop(&2), Some(20));
    assert_eq!(c.pop(&2), None);
    assert_eq!(c.peek(&1), Some(&10));
    assert_eq!(c.peek(&3), Some(&30));
    assert_eq!(ids(&c), vec![3, 1]);
    assert_eq!(c.len(), 2);
}

#[test]
fn pop_lru_drains_least_recent_first() {
    let mut c: LruCache<u32, u32> = LruCache::new(3);
    c.put(1, 10);
    c.put(2, 20);
    c.put(3, 30);
    assert_eq!(c.pop_lru(), Some((1, 10)));
    assert_eq!(c.pop_lru(), Some((2, 20)));
    assert_eq!(c.pop_lru(), Some((3, 30)));
    assert_eq!(c.pop_lru(), None);
    assert!(c.is_empty());
}

#[test]
fn clear_empties_and_keeps_the_capacity() {
    let mut c: LruCache<u32, u32> = LruCache::new(3);
    c.put(1, 10);
    c.put(2, 20);
    c.clear();
    assert_eq!(c.len(), 0);
    assert_eq!(c.cap(), 3);
    assert_eq!(c.peek(&1), None);
}

#[test]
fn resize_keeps_the_most_recent_entries() {
    let mut c: LruCache<u32, u32> = LruCache::new(4);
    for k in 1..=4u32 {
        c.put(k, k * 10);
    }
    c.resize(2);
    assert_eq!(c.cap(), 2);
    assert_eq!(ids(&c), vec![4, 3]);
    c.resize(5);
    assert_eq!(c.cap(), 5);
    assert_eq!(ids(&c), vec![4, 3]);
}

#[test]
fn unbounded_cache_keeps_everything_and_clones() {
    let mut c: LruCache<u32, u32> = LruCache::unbounded();
    for k in 0..100u32 {
        c.put(k, k + 1);
    }
    assert_eq!(c.cap(), usize::MAX);
    assert_eq!(c.len(), 100);
    let d = c.clone();
    assert_eq!(d.len(), 100);
    assert_eq!(d.cap(), usize::MAX);
    assert_eq!(ids(&d), ids(&c));
    assert_eq!(d.peek(&42), Some(&43));
}

#[test]
fn tracked_key_is_named_by_its_id() {
    let counter = Arc::new(AtomicUsize::new(0));
    let k = TrackedKey::new(7, counter.clone());
    assert_eq!(k.id(), 7);
    drop(k);
    assert_eq!(counter.load(Ordering::SeqCst), 1);
}

#[test]
fn cache_drops_tracked_entries_it_lets_go() {
    let counter = Arc::new(AtomicUsize::new(0));
    let mut c: LruCache<TrackedKey, TrackedVal> = LruCache::new(2);
    c.put(TrackedKey::new(1, counter.clone()), TrackedVal::new(counter.clone()));
    c.put(TrackedKey::new(2, counter.clone()), TrackedVal::new(counter.clone()));
    assert_eq!(counter.load(Ordering::SeqCst), 0);
    // A new key in a full cache evicts key 1 and its value.
    c.put(TrackedKey::new(3, counter.clone()), TrackedVal::new(counter.clone()));
    assert_eq!(counter.load(Ordering::SeqCst), 2);
    // Putting an existing id keeps the old key, drops the new key, and
    // returns the old value.
    let old = c.put(TrackedKey::new(3, counter.clone()), TrackedVal::new(counter.clone()));
    assert_eq!(counter.load(Ordering::SeqCst), 3);
    drop(old);
    assert_eq!(counter.load(Ordering::SeqCst), 4);
    drop(c);
    assert_eq!(counter.load(Ordering::SeqCst), 8);
}

#[test]
fn tracked_keys_compare_by_id() {
    let a = Arc::new(AtomicUsize::new(0));
    let b = Arc::new(AtomicUsize::new(0));
    let k1 = TrackedKey::new(5, a.clone());
    let k2 = TrackedKey::new(5, b.clone());
    let k3 = TrackedKey::new(6, a.clone());
    assert!(k1 == k2);
    assert!(k1 != k3);
    let id: &u32 = k3.borrow();
    assert_eq!(*id, 6);
    let mut h1 = DefaultHasher::new();
    k1.hash(&mut h1);
    let mut h2 = DefaultHasher::new();
    5u32.hash(&mut h2);
    assert_eq!(h1.finish(), h2.finish());
}
