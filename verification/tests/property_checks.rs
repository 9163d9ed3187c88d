//! The properties on inputs that they discard or that repeat keys, and the
//! verdicts on observations that a broken cache would produce.

use lru::etna::{
    check_clear_resize_count, check_clone, check_drop_all_count, check_pop_drain,
    check_pop_drops_count, property_clear_resize_drops_all, property_clone_unbounded_no_panic,
    property_drop_impl_drops_all, property_pop_drops_key, property_pop_iter_consistent,
    unique_keys, PropertyResult,
};
use lru::etna::{
    clear_or_shrink, judge_clear_resize, judge_drop_all, judge_pop_drops, pop_each, tracked_cache,
    tracked_key_cache,
};
use lru::LruCache;
use std::sync::atomic::{AtomicUsize, Ordering};
use std::sync::Arc;

fn fail_text(r: PropertyResult) -> String {
    match r {
        PropertyResult::Fail(m) => m,
        other => panic!("expected a failure, got {:?}", other),
    }
}

#[test]
fn unique_keys_keeps_first_occurrences_in_order() {
    assert_eq!(unique_keys(&[3, 1, 3, 2, 1, 3]), vec![3, 1, 2]);
    assert_eq!(unique_keys(&[]), Vec::<u32>::new());
    assert_eq!(unique_keys(&[7, 7, 7]), vec![7]);
}

#[test]
fn properties_discard_inputs_without_keys() {
    assert_eq!(property_drop_impl_drops_all(vec![]), PropertyResult::Discard);
    assert_eq!(property_clear_resize_drops_all((vec![], true)), PropertyResult::Discard);
    assert_eq!(property_pop_drops_key(vec![]), PropertyResult::Discard);
}

#[test]
fn pop_iter_discards_fewer_than_two_distinct_keys() {
    assert_eq!(property_pop_iter_consistent((vec![], 0)), PropertyResult::Discard);
    assert_eq!(property_pop_iter_consistent((vec![5, 5, 5], 1)), PropertyResult::Discard);
}

#[test]
fn properties_pass_with_repeated_keys() {
    assert_eq!(property_pop_iter_consistent((vec![4, 4, 9, 4, 1], 200)), PropertyResult::Pass);
    assert_eq!(property_drop_impl_drops_all(vec![2, 2, 3]), PropertyResult::Pass);
    assert_eq!(property_clear_resize_drops_all((vec![2, 3, 2, 8], false)), PropertyResult::Pass);
    assert_eq!(property_pop_drops_key(vec![9, 9, 8]), PropertyResult::Pass);
    assert_eq!(property_clone_unbounded_no_panic(vec![(1, 2), (1, 3), (4, 5)]), PropertyResult::Pass);
}

#[test]
fn clear_resize_on_one_key_resizes_without_evicting() {
    assert_eq!(property_clear_resize_drops_all((vec![42], false)), PropertyResult::Pass);
}

#[test]
fn check_clone_reports_a_length_mismatch() {
    let mut a: LruCache<u32, u32> = LruCache::new(4);
    let b: LruCache<u32, u32> = LruCache::new(4);
    a.put(1, 10);
    let r = check_clone(&a, &b, &vec![(1, 10)]);
    assert_eq!(fail_text(r), "clone len mismatch: original=1, clone=0");
}

#[test]
fn check_clone_reports_the_first_diverging_key() {
    let mut a: LruCache<u32, u32> = LruCache::new(4);
    let mut b: LruCache<u32, u32> = LruCache::new(4);
    a.put(1, 10);
    a.put(2, 20);
    b.put(1, 10);
    b.put(2, 21);
    let r = check_clone(&a, &b, &vec![(1, 10), (2, 20), (3, 0)]);
    assert_eq!(fail_text(r), "clone diverges on key 2: orig=Some(20), clone=Some(21)");
    b.pop(&2);
    b.put(3, 30);
    let r = check_clone(&a, &b, &vec![(2, 20)]);
    assert_eq!(fail_text(r), "clone diverges on key 2: orig=Some(20), clone=None");
}

#[test]
fn check_clone_passes_on_equal_caches() {
    let mut a: LruCache<u32, u32> = LruCache::new(4);
    a.put(1, 10);
    let b = a.clone();
    assert_eq!(check_clone(&a, &b, &vec![(1, 10), (5, 0)]), PropertyResult::Pass);
}

#[test]
fn check_pop_drain_reports_each_violation() {
    let r = check_pop_drain(3, &vec![1, 2], Some(4), &vec![1, 2], &vec![1, 2]);
    assert_eq!(fail_text(r), "pop(3) returned Some(4), expected Some(3)");
    let r = check_pop_drain(3, &vec![1, 2], None, &vec![1, 2], &vec![1, 2]);
    assert_eq!(fail_text(r), "pop(3) returned None, expected Some(3)");
    let r = check_pop_drain(3, &vec![1, 2], Some(3), &vec![2, 3, 1], &vec![1, 2]);
    assert_eq!(fail_text(r), "popped key 3 still appears in iter() after pop: iter=[2, 3, 1]");
    let r = check_pop_drain(3, &vec![1, 2], Some(3), &vec![2, 1], &vec![3, 1, 2]);
    assert_eq!(fail_text(r), "popped key 3 reappeared during pop_lru drain: drained=[3, 1, 2]");
    let r = check_pop_drain(3, &vec![1, 2], Some(3), &vec![2, 1], &vec![1]);
    assert_eq!(fail_text(r), "drain after pop(3) yielded 1 keys, expected 2 (drained=[1])");
    let r = check_pop_drain(3, &vec![1, 2], Some(3), &vec![2, 1], &vec![2, 1]);
    assert_eq!(fail_text(r), "drain after pop(3) yielded [2, 1], expected [1, 2]");
    assert_eq!(check_pop_drain(3, &vec![1, 2], Some(3), &vec![2, 1], &vec![1, 2]), PropertyResult::Pass);
}

#[test]
fn drop_count_verdicts() {
    assert_eq!(check_drop_all_count(4, 8), PropertyResult::Pass);
    assert_eq!(
        fail_text(check_drop_all_count(4, 0)),
        "drop count after dropping cache of 4 entries: got 0, expected 8"
    );
    assert_eq!(check_clear_resize_count(true, 4, 4, 8), PropertyResult::Pass);
    assert_eq!(
        fail_text(check_clear_resize_count(true, 4, 4, 0)),
        "clear() on 4 entries: got 0 drops, expected 8"
    );
    assert_eq!(
        fail_text(check_clear_resize_count(false, 5, 4, 2)),
        "resize(1) on 5 entries: got 2 drops, expected 8"
    );
    assert_eq!(check_pop_drops_count(5, 5), PropertyResult::Pass);
    assert_eq!(
        fail_text(check_pop_drops_count(5, 0)),
        "pop on 5 entries dropped 0 keys, expected 5"
    );
}

#[test]
fn repeated_keys_give_the_outcome_of_their_deduplication() {
    let keys = vec![3u32, 3, 1, 3, 7];
    let unique = unique_keys(&keys);
    assert_eq!(unique_keys(&unique), unique);
    assert_eq!(property_drop_impl_drops_all(keys.clone()), property_drop_impl_drops_all(unique.clone()));
    assert_eq!(property_pop_drops_key(keys.clone()), property_pop_drops_key(unique.clone()));
    assert_eq!(
        property_clear_resize_drops_all((keys.clone(), false)),
        property_clear_resize_drops_all((unique.clone(), false))
    );
}

#[test]
fn tracked_caches_hold_the_ids_and_count_on_the_counter() {
    let counter = Arc::new(AtomicUsize::new(0));
    let ids = vec![4u32, 9, 2];
    let c = tracked_cache(&ids, &counter);
    assert_eq!(c.len(), 3);
    assert_eq!(c.cap(), 3);
    drop(c);
    assert_eq!(counter.load(Ordering::SeqCst), 6);
    let mut k = tracked_key_cache(&ids, &counter);
    assert_eq!(k.len(), 3);
    pop_each(&mut k, &ids);
    assert!(k.is_empty());
    assert_eq!(counter.load(Ordering::SeqCst), 9);
}

#[test]
fn clear_or_shrink_reports_the_evicted_entries() {
    let counter = Arc::new(AtomicUsize::new(0));
    let ids = vec![1u32, 2, 3, 4];
    let mut c = tracked_cache(&ids, &counter);
    assert_eq!(clear_or_shrink(&mut c, false), 3);
    assert_eq!(c.len(), 1);
    assert_eq!(counter.load(Ordering::SeqCst), 6);
    let mut c = tracked_cache(&ids, &counter);
    assert_eq!(clear_or_shrink(&mut c, true), 4);
    assert!(c.is_empty());
}

#[test]
fn judges_pass_on_the_cache_and_fail_on_a_foreign_count() {
    let counter = Arc::new(AtomicUsize::new(0));
    let ids = vec![5u32, 6];
    assert_eq!(judge_drop_all(tracked_cache(&ids, &counter), &counter), PropertyResult::Pass);
    let mut c = tracked_cache(&ids, &counter);
    assert_eq!(judge_clear_resize(&mut c, &counter, false), PropertyResult::Pass);
    let mut k = tracked_key_cache(&ids, &counter);
    assert_eq!(judge_pop_drops(&mut k, &ids, &counter), PropertyResult::Pass);
    // A counter that was already counting before the drop gives a failure.
    let busy = Arc::new(AtomicUsize::new(0));
    let c = tracked_cache(&ids, &busy);
    busy.store(10, Ordering::SeqCst);
    assert_eq!(
        fail_text(judge_drop_all(c, &busy)),
        "drop count after dropping cache of 2 entries: got 14, expected 4"
    );
}
