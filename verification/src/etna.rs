//! Property checks over the cache, one per defect that an LRU cache is known
//! to be prone to, and the drop-counting keys and values that the leak checks
//! need.
//!
//! The leak checks fill a cache with `TrackedKey` / `TrackedVal` entries that
//! share one counter; each destructor adds one to it, and the check compares
//! the final count with the number of entries the cache had to let go of.
use std::borrow::Borrow;
use std::hash::{Hash, Hasher};
use std::sync::Arc;
use std::sync::atomic::AtomicUsize;
use std::sync::atomic::Ordering;
use vstd::prelude::*;
use vstd::std_specs::cmp::PartialEqSpecImpl;

use crate::cache::{has_id, ids_of, law_lookup_at, lookup, resize_model, CacheKey, LruCache};
use crate::text::{
    debug_list, debug_option, decimal, push_debug_list, push_debug_option, push_decimal, push_text,
};

verus! {

/// The outcome of one property check.
#[derive(Debug, Clone, PartialEq, Eq)]
pub enum PropertyResult {
    Pass,
    Fail(String),
    Discard,
}

// ---------------------------------------------------------------------------
// Drop-tracking helpers.
// ---------------------------------------------------------------------------

/// Adds one to a shared drop counter.
///
/// Calls `AtomicUsize::fetch_add(1, SeqCst)`; nothing is claimed of the
/// counter's value, which other owners of the counter may change too.
#[verifier::external_body]
fn bump(counter: &Arc<AtomicUsize>)
    opens_invariants none
    no_unwind
{
    counter.fetch_add(1, Ordering::SeqCst);
}

/// Another handle on the same counter.
///
/// Calls `<Arc<AtomicUsize> as Clone>::clone`, which makes a new pointer to
/// the same allocation: the result is the same counter.
#[verifier::external_body]
fn share(counter: &Arc<AtomicUsize>) -> (r: Arc<AtomicUsize>)
    ensures
        r == *counter,
{
    counter.clone()
}

/// The number of drops counted so far.
fn read_count(counter: &Arc<AtomicUsize>) -> usize {
    counter.load(Ordering::SeqCst)
}

/// Sets the drop counter back to zero.
fn reset_count(counter: &Arc<AtomicUsize>) {
    counter.store(0, Ordering::SeqCst);
}

/// A drop-counting key, named by its `id`. Each drop adds one to the shared
/// counter.
pub struct TrackedKey {
    id: u32,
    counter: Arc<AtomicUsize>,
}

impl TrackedKey {
    /// The counter that this key's drop adds to.
    pub closed spec fn drop_counter(&self) -> Arc<AtomicUsize> {
        self.counter
    }

    pub fn new(id: u32, counter: Arc<AtomicUsize>) -> (r: Self)
        ensures
            r.key_id() == id,
            r.drop_counter() == counter,
    {
        TrackedKey { id, counter }
    }
}

impl CacheKey for TrackedKey {
    closed spec fn key_id(&self) -> u32 {
        self.id
    }

    fn id(&self) -> (r: u32) {
        self.id
    }
}

impl PartialEq for TrackedKey {
    /// Keys are equal when their ids are.
    fn eq(&self, other: &Self) -> (r: bool) {
        self.id == other.id
    }
}

impl PartialEqSpecImpl for TrackedKey {
    open spec fn obeys_eq_spec() -> bool {
        true
    }

    open spec fn eq_spec(&self, other: &Self) -> bool {
        self.key_id() == other.key_id()
    }
}

impl Eq for TrackedKey {}

/// `<u32 as Hash>::hash` feeds the number to the hasher; nothing is claimed
/// of the hasher's state afterwards.
pub assume_specification<H: Hasher>[ <u32 as Hash>::hash::<H> ](data: &u32, state: &mut H);

impl Hash for TrackedKey {
    /// Hashes the id alone, as equality compares the id alone.
    fn hash<H: Hasher>(&self, state: &mut H) {
        self.id.hash(state);
    }
}

impl Borrow<u32> for TrackedKey {
    /// The id, by which the key is found.
    fn borrow(&self) -> (r: &u32)
        ensures
            ({
                let id: &u32 = r;
                *id == self.key_id()
            }),
    {
        &self.id
    }
}

impl Drop for TrackedKey {
    fn drop(&mut self)
        opens_invariants none
        no_unwind
    {
        bump(&self.counter);
    }
}

/// A drop-counting value. Each drop adds one to the shared counter.
pub struct TrackedVal {
    counter: Arc<AtomicUsize>,
}

impl TrackedVal {
    /// The counter that this value's drop adds to.
    pub closed spec fn drop_counter(&self) -> Arc<AtomicUsize> {
        self.counter
    }

    pub fn new(counter: Arc<AtomicUsize>) -> (r: Self)
        ensures
            r.drop_counter() == counter,
    {
        TrackedVal { counter }
    }
}

impl Drop for TrackedVal {
    fn drop(&mut self)
        opens_invariants none
        no_unwind
    {
        bump(&self.counter);
    }
}

// ---------------------------------------------------------------------------
// Distinct keys.
// ---------------------------------------------------------------------------

/// The keys of `s` in the order of their first occurrence, each once.
pub open spec fn first_occurrences(s: Seq<u32>) -> Seq<u32>
    decreases s.len(),
{
    if s.len() == 0 {
        Seq::empty()
    } else {
        let d = first_occurrences(s.drop_last());
        if d.contains(s.last()) {
            d
        } else {
            d.push(s.last())
        }
    }
}

/// Deduplication keeps each key exactly once and loses none.
pub proof fn law_first_occurrences(s: Seq<u32>)
    ensures
        first_occurrences(s).no_duplicates(),
        forall|x: u32| first_occurrences(s).contains(x) <==> s.contains(x),
        first_occurrences(s).len() <= s.len(),
    decreases s.len(),
{
    if s.len() > 0 {
        let p = s.drop_last();
        law_first_occurrences(p);
        let d = first_occurrences(p);
        let x = s.last();
        assert forall|y: u32| s.contains(y) <==> (p.contains(y) || y == x) by {
            if s.contains(y) {
                let j = choose|j: int| 0 <= j < s.len() && s[j] == y;
                if j < p.len() {
                    assert(p[j] == y);
                }
            }
            if p.contains(y) {
                let j = choose|j: int| 0 <= j < p.len() && p[j] == y;
                assert(s[j] == y);
            }
            if y == x {
                assert(s[s.len() - 1] == y);
            }
        }
        if !d.contains(x) {
            let r = d.push(x);
            assert forall|a: int, b: int| 0 <= a < r.len() && 0 <= b < r.len() && a != b implies r[a]
                != r[b] by {
                if a == d.len() {
                    assert(d[b] == r[b]);
                } else if b == d.len() {
                    assert(d[a] == r[a]);
                }
            }
            assert forall|y: u32| r.contains(y) <==> (d.contains(y) || y == x) by {
                if d.contains(y) {
                    let j = choose|j: int| 0 <= j < d.len() && d[j] == y;
                    assert(r[j] == y);
                }
                if y == x {
                    assert(r[d.len() as int] == y);
                }
                if r.contains(y) {
                    let j = choose|j: int| 0 <= j < r.len() && r[j] == y;
                    if j < d.len() {
                        assert(d[j] == y);
                    }
                }
            }
        }
    }
}

/// A sequence without repeated keys is its own deduplication.
pub proof fn law_first_occurrences_of_distinct(s: Seq<u32>)
    requires
        s.no_duplicates(),
    ensures
        first_occurrences(s) == s,
    decreases s.len(),
{
    if s.len() > 0 {
        let p = s.drop_last();
        assert(p.no_duplicates());
        law_first_occurrences_of_distinct(p);
        assert(!p.contains(s.last())) by {
            if p.contains(s.last()) {
                let j = choose|j: int| 0 <= j < p.len() && p[j] == s.last();
                assert(s[j] == s[s.len() - 1]);
            }
        }
        assert(p.push(s.last()) =~= s);
    }
}

/// Deduplicating twice is deduplicating once. Every property reads its keys
/// through `unique_keys`, and its contract speaks of the keys only through
/// `first_occurrences`, so a property's contract on `keys` is its contract on
/// `unique_keys(keys)`: repeated keys never change what it promises.
pub proof fn law_first_occurrences_idempotent(s: Seq<u32>)
    ensures
        first_occurrences(first_occurrences(s)) == first_occurrences(s),
{
    law_first_occurrences(s);
    law_first_occurrences_of_distinct(first_occurrences(s));
}

/// Keys come out in the order of their first occurrence: deduplicating a
/// prefix of the keys gives a prefix of the deduplication of all of them.
pub proof fn law_first_occurrences_keep_order(s: Seq<u32>, k: int)
    requires
        0 <= k <= s.len(),
    ensures
        first_occurrences(s.take(k)).is_prefix_of(first_occurrences(s)),
    decreases s.len(),
{
    if k == s.len() {
        assert(s.take(k) =~= s);
    } else {
        let p = s.drop_last();
        law_first_occurrences_keep_order(p, k);
        assert(p.take(k) =~= s.take(k));
        let d = first_occurrences(p);
        let e = first_occurrences(s.take(k));
        assert(e.len() <= first_occurrences(s).len());
        assert(e =~= first_occurrences(s).subrange(0, e.len() as int)) by {
            assert forall|j: int| 0 <= j < e.len() implies e[j] == first_occurrences(s)[j] by {
                assert(e[j] == d[j]);
            }
        }
    }
}

/// Deduplicates `keys`, keeping the first occurrence of each in order.
pub fn unique_keys(keys: &[u32]) -> (r: Vec<u32>)
    ensures
        r@ == first_occurrences(keys@),
{
    let mut seen: Vec<u32> = Vec::with_capacity(keys.len());
    let mut i: usize = 0;
    while i < keys.len()
        invariant
            i <= keys@.len(),
            seen@ == first_occurrences(keys@.take(i as int)),
        decreases keys@.len() - i,
    {
        let k = keys[i];
        let mut found = false;
        let mut j: usize = 0;
        while j < seen.len()
            invariant
                j <= seen@.len(),
                found <==> exists|t: int| 0 <= t < j && seen@[t] == k,
            decreases seen@.len() - j,
        {
            if seen[j] == k {
                found = true;
            }
            j += 1;
        }
        assert(keys@.take(i + 1).drop_last() =~= keys@.take(i as int));
        if !found {
            seen.push(k);
        }
        i += 1;
    }
    assert(keys@.take(keys@.len() as int) =~= keys@);
    seen
}

// ---------------------------------------------------------------------------
// Failure messages.
// ---------------------------------------------------------------------------

/// A cache and its clone differ in length.
pub open spec fn clone_len_text(original: usize, clone: usize) -> Seq<char> {
    "clone len mismatch: original="@ + decimal(original as nat) + ", clone="@ + decimal(
        clone as nat,
    )
}

/// A cache and its clone disagree on a key.
pub open spec fn clone_divergence_text(key: u32, original: Option<u32>, clone: Option<u32>) -> Seq<char> {
    "clone diverges on key "@ + decimal(key as nat) + ": orig="@ + debug_option(original)
        + ", clone="@ + debug_option(clone)
}

/// `pop` gave back something other than the popped key's value.
pub open spec fn pop_result_text(key: u32, removed: Option<u32>) -> Seq<char> {
    "pop("@ + decimal(key as nat) + ") returned "@ + debug_option(removed) + ", expected Some("@
        + decimal(key as nat) + ")"@
}

/// `iter` still gives the popped key.
pub open spec fn popped_in_iter_text(key: u32, iter_keys: Seq<u32>) -> Seq<char> {
    "popped key "@ + decimal(key as nat) + " still appears in iter() after pop: iter="@
        + debug_list(iter_keys)
}

/// Draining with `pop_lru` gives the popped key.
pub open spec fn popped_in_drain_text(key: u32, drained: Seq<u32>) -> Seq<char> {
    "popped key "@ + decimal(key as nat) + " reappeared during pop_lru drain: drained="@
        + debug_list(drained)
}

/// Draining gave the wrong number of keys.
pub open spec fn drain_len_text(key: u32, got: usize, expected: usize, drained: Seq<u32>) -> Seq<char> {
    "drain after pop("@ + decimal(key as nat) + ") yielded "@ + decimal(got as nat)
        + " keys, expected "@ + decimal(expected as nat) + " (drained="@ + debug_list(drained)
        + ")"@
}

/// Draining gave the right number of keys, but not the remaining ones in
/// order of use.
pub open spec fn drain_order_text(key: u32, drained: Seq<u32>, remaining: Seq<u32>) -> Seq<char> {
    "drain after pop("@ + decimal(key as nat) + ") yielded "@ + debug_list(drained)
        + ", expected "@ + debug_list(remaining)
}

/// Dropping a cache ran the wrong number of destructors.
pub open spec fn drop_all_text(n: usize, observed: usize, expected: usize) -> Seq<char> {
    "drop count after dropping cache of "@ + decimal(n as nat) + " entries: got "@ + decimal(
        observed as nat,
    ) + ", expected "@ + decimal(expected as nat)
}

/// `clear` or `resize` ran the wrong number of destructors.
pub open spec fn clear_resize_text(op: Seq<char>, n: usize, observed: usize, expected: usize) -> Seq<char> {
    op + " on "@ + decimal(n as nat) + " entries: got "@ + decimal(observed as nat)
        + " drops, expected "@ + decimal(expected as nat)
}

/// Popping keys dropped the wrong number of them.
pub open spec fn pop_drops_text(n: usize, observed: usize, expected: usize) -> Seq<char> {
    "pop on "@ + decimal(n as nat) + " entries dropped "@ + decimal(observed as nat)
        + " keys, expected "@ + decimal(expected as nat)
}

fn clone_len_message(original: usize, clone: usize) -> (r: String)
    ensures
        r@ == clone_len_text(original, clone),
{
    let mut out = String::new();
    push_text(&mut out, "clone len mismatch: original=");
    push_decimal(&mut out, original as u128);
    push_text(&mut out, ", clone=");
    push_decimal(&mut out, clone as u128);
    out
}

fn clone_divergence_message(key: u32, original: Option<u32>, clone: Option<u32>) -> (r: String)
    ensures
        r@ == clone_divergence_text(key, original, clone),
{
    let mut out = String::new();
    push_text(&mut out, "clone diverges on key ");
    push_decimal(&mut out, key as u128);
    push_text(&mut out, ": orig=");
    push_debug_option(&mut out, original);
    push_text(&mut out, ", clone=");
    push_debug_option(&mut out, clone);
    out
}

fn pop_result_message(key: u32, removed: Option<u32>) -> (r: String)
    ensures
        r@ == pop_result_text(key, removed),
{
    let mut out = String::new();
    push_text(&mut out, "pop(");
    push_decimal(&mut out, key as u128);
    push_text(&mut out, ") returned ");
    push_debug_option(&mut out, removed);
    push_text(&mut out, ", expected Some(");
    push_decimal(&mut out, key as u128);
    push_text(&mut out, ")");
    out
}

fn popped_in_iter_message(key: u32, iter_keys: &Vec<u32>) -> (r: String)
    ensures
        r@ == popped_in_iter_text(key, iter_keys@),
{
    let mut out = String::new();
    push_text(&mut out, "popped key ");
    push_decimal(&mut out, key as u128);
    push_text(&mut out, " still appears in iter() after pop: iter=");
    push_debug_list(&mut out, iter_keys);
    out
}

fn popped_in_drain_message(key: u32, drained: &Vec<u32>) -> (r: String)
    ensures
        r@ == popped_in_drain_text(key, drained@),
{
    let mut out = String::new();
    push_text(&mut out, "popped key ");
    push_decimal(&mut out, key as u128);
    push_text(&mut out, " reappeared during pop_lru drain: drained=");
    push_debug_list(&mut out, drained);
    out
}

fn drain_len_message(key: u32, got: usize, expected: usize, drained: &Vec<u32>) -> (r: String)
    ensures
        r@ == drain_len_text(key, got, expected, drained@),
{
    let mut out = String::new();
    push_text(&mut out, "drain after pop(");
    push_decimal(&mut out, key as u128);
    push_text(&mut out, ") yielded ");
    push_decimal(&mut out, got as u128);
    push_text(&mut out, " keys, expected ");
    push_decimal(&mut out, expected as u128);
    push_text(&mut out, " (drained=");
    push_debug_list(&mut out, drained);
    push_text(&mut out, ")");
    out
}

fn drain_order_message(key: u32, drained: &Vec<u32>, remaining: &Vec<u32>) -> (r: String)
    ensures
        r@ == drain_order_text(key, drained@, remaining@),
{
    let mut out = String::new();
    push_text(&mut out, "drain after pop(");
    push_decimal(&mut out, key as u128);
    push_text(&mut out, ") yielded ");
    push_debug_list(&mut out, drained);
    push_text(&mut out, ", expected ");
    push_debug_list(&mut out, remaining);
    out
}

fn vec_eq(a: &Vec<u32>, b: &Vec<u32>) -> (r: bool)
    ensures
        r == (a@ == b@),
{
    if a.len() != b.len() {
        return false;
    }
    let mut i: usize = 0;
    while i < a.len()
        invariant
            a@.len() == b@.len(),
            i <= a@.len(),
            forall|j: int| 0 <= j < i ==> a@[j] == b@[j],
        decreases a@.len() - i,
    {
        if a[i] != b[i] {
            return false;
        }
        i += 1;
    }
    assert(a@ =~= b@);
    true
}

fn drop_all_message(n: usize, observed: usize, expected: usize) -> (r: String)
    ensures
        r@ == drop_all_text(n, observed, expected),
{
    let mut out = String::new();
    push_text(&mut out, "drop count after dropping cache of ");
    push_decimal(&mut out, n as u128);
    push_text(&mut out, " entries: got ");
    push_decimal(&mut out, observed as u128);
    push_text(&mut out, ", expected ");
    push_decimal(&mut out, expected as u128);
    out
}

fn clear_resize_message(op: &str, n: usize, observed: usize, expected: usize) -> (r: String)
    ensures
        r@ == clear_resize_text(op@, n, observed, expected),
{
    let mut out = String::new();
    push_text(&mut out, op);
    push_text(&mut out, " on ");
    push_decimal(&mut out, n as u128);
    push_text(&mut out, " entries: got ");
    push_decimal(&mut out, observed as u128);
    push_text(&mut out, " drops, expected ");
    push_decimal(&mut out, expected as u128);
    out
}

fn pop_drops_message(n: usize, observed: usize, expected: usize) -> (r: String)
    ensures
        r@ == pop_drops_text(n, observed, expected),
{
    let mut out = String::new();
    push_text(&mut out, "pop on ");
    push_decimal(&mut out, n as u128);
    push_text(&mut out, " entries dropped ");
    push_decimal(&mut out, observed as u128);
    push_text(&mut out, " keys, expected ");
    push_decimal(&mut out, expected as u128);
    out
}

// ---------------------------------------------------------------------------
// Verdicts: each compares what a check observed with what it expects.
// ---------------------------------------------------------------------------

/// Whether `r` is a failure whose message is `text`.
pub open spec fn fails_with(r: PropertyResult, text: Seq<char>) -> bool {
    match r {
        PropertyResult::Fail(m) => m@ == text,
        _ => false,
    }
}

/// Whether a cache and its clone give different answers for the key of the
/// `i`-th item.
pub open spec fn diverges_at(a: Seq<(u32, u32)>, b: Seq<(u32, u32)>, items: Seq<(u32, u32)>, i: int) -> bool {
    lookup(a, items[i].0) != lookup(b, items[i].0)
}

fn peek_copy(cache: &LruCache<u32, u32>, key: u32) -> (r: Option<u32>)
    requires
        cache.wf(),
    ensures
        r == lookup(cache@, key),
{
    match cache.peek(&key) {
        Some(v) => Some(*v),
        None => None,
    }
}

/// Compares a cache with its clone: they must have the same length and agree
/// on every key of `items`; the first disagreement is reported.
pub fn check_clone(original: &LruCache<u32, u32>, copy: &LruCache<u32, u32>, items: &Vec<(u32, u32)>) -> (r: PropertyResult)
    requires
        original.wf(),
        copy.wf(),
    ensures
        original@.len() != copy@.len() ==> fails_with(r, clone_len_text(original@.len() as usize, copy@.len() as usize)),
        original@.len() == copy@.len() ==> {
            &&& (forall|i: int| 0 <= i < items@.len() ==> !diverges_at(original@, copy@, items@, i)) ==> r == PropertyResult::Pass
            &&& forall|i: int| 0 <= i < items@.len() && diverges_at(original@, copy@, items@, i)
                && (forall|j: int| 0 <= j < i ==> !diverges_at(original@, copy@, items@, j)) ==> fails_with(
                    r,
                    clone_divergence_text(items@[i].0, lookup(original@, items@[i].0), lookup(copy@, items@[i].0)),
                )
        },
{
    if copy.len() != original.len() {
        return PropertyResult::Fail(clone_len_message(original.len(), copy.len()));
    }
    let mut i: usize = 0;
    while i < items.len()
        invariant
            original.wf(),
            copy.wf(),
            original@.len() == copy@.len(),
            i <= items@.len(),
            forall|j: int| 0 <= j < i ==> !diverges_at(original@, copy@, items@, j),
        decreases items@.len() - i,
    {
        let k = items[i].0;
        let a = peek_copy(original, k);
        let b = peek_copy(copy, k);
        let same = match (a, b) {
            (Some(x), Some(y)) => x == y,
            (None, None) => true,
            _ => false,
        };
        if !same {
            assert(diverges_at(original@, copy@, items@, i as int));
            assert forall|i2: int|
                0 <= i2 < items@.len() && diverges_at(original@, copy@, items@, i2) && (forall|j: int|
                    0 <= j < i2 ==> !diverges_at(original@, copy@, items@, j)) implies i2 == i by {
                if i2 > i {
                    assert(diverges_at(original@, copy@, items@, i as int));
                }
            }
            return PropertyResult::Fail(clone_divergence_message(k, a, b));
        }
        i += 1;
    }
    PropertyResult::Pass
}

fn vec_contains(v: &Vec<u32>, k: u32) -> (r: bool)
    ensures
        r == v@.contains(k),
{
    let mut i: usize = 0;
    while i < v.len()
        invariant
            i <= v@.len(),
            forall|j: int| 0 <= j < i ==> v@[j] != k,
        decreases v@.len() - i,
    {
        if v[i] == k {
            return true;
        }
        i += 1;
    }
    false
}

/// Judges a pop followed by a drain: `pop` must have returned the popped
/// key's value (the key itself here), the popped key must appear neither in
/// the keys that `iter` gave nor in those that draining with `pop_lru` gave,
/// and the drain must give exactly the `remaining` keys, least recently used
/// first: first their number, then their order. The first violated
/// condition is reported.
pub fn check_pop_drain(
    pop_key: u32,
    remaining: &Vec<u32>,
    removed: Option<u32>,
    iter_keys: &Vec<u32>,
    drained: &Vec<u32>,
) -> (r: PropertyResult)
    ensures
        removed != Some(pop_key) ==> fails_with(r, pop_result_text(pop_key, removed)),
        removed == Some(pop_key) && iter_keys@.contains(pop_key) ==> fails_with(
            r,
            popped_in_iter_text(pop_key, iter_keys@),
        ),
        removed == Some(pop_key) && !iter_keys@.contains(pop_key) && drained@.contains(pop_key)
            ==> fails_with(r, popped_in_drain_text(pop_key, drained@)),
        removed == Some(pop_key) && !iter_keys@.contains(pop_key) && !drained@.contains(pop_key)
            && drained@.len() != remaining@.len() ==> fails_with(
            r,
            drain_len_text(
                pop_key,
                drained@.len() as usize,
                remaining@.len() as usize,
                drained@,
            ),
        ),
        removed == Some(pop_key) && !iter_keys@.contains(pop_key) && !drained@.contains(pop_key)
            && drained@.len() == remaining@.len() && drained@ != remaining@ ==> fails_with(
            r,
            drain_order_text(pop_key, drained@, remaining@),
        ),
        removed == Some(pop_key) && !iter_keys@.contains(pop_key) && !drained@.contains(pop_key)
            && drained@ == remaining@ ==> r == PropertyResult::Pass,
{
    let removed_ok = match removed {
        Some(v) => v == pop_key,
        None => false,
    };
    if !removed_ok {
        return PropertyResult::Fail(pop_result_message(pop_key, removed));
    }
    if vec_contains(iter_keys, pop_key) {
        return PropertyResult::Fail(popped_in_iter_message(pop_key, iter_keys));
    }
    if vec_contains(drained, pop_key) {
        return PropertyResult::Fail(popped_in_drain_message(pop_key, drained));
    }
    if drained.len() != remaining.len() {
        return PropertyResult::Fail(
            drain_len_message(pop_key, drained.len(), remaining.len(), drained),
        );
    }
    if !vec_eq(drained, remaining) {
        return PropertyResult::Fail(drain_order_message(pop_key, drained, remaining));
    }
    PropertyResult::Pass
}

/// Judges the drop count after dropping a cache of `n` tracked entries: one
/// drop per key and one per value.
pub fn check_drop_all_count(n: usize, observed: usize) -> (r: PropertyResult)
    requires
        n <= usize::MAX / 2,
    ensures
        observed == 2 * n ==> r == PropertyResult::Pass,
        observed != 2 * n ==> fails_with(r, drop_all_text(n, observed, (2 * n) as usize)),
{
    let expected = 2 * n;
    if observed != expected {
        return PropertyResult::Fail(drop_all_message(n, observed, expected));
    }
    PropertyResult::Pass
}

/// The name of the operation that a clear-or-resize check ran.
pub open spec fn clear_resize_op(use_clear: bool) -> Seq<char> {
    if use_clear {
        "clear()"@
    } else {
        "resize(1)"@
    }
}

/// Judges the drop count after `clear` (when `use_clear`) or `resize(1)` on
/// a cache of `n` tracked entries, of which `evicted` had to leave.
pub fn check_clear_resize_count(use_clear: bool, n: usize, evicted: usize, observed: usize) -> (r: PropertyResult)
    requires
        evicted <= usize::MAX / 2,
    ensures
        observed == 2 * evicted ==> r == PropertyResult::Pass,
        observed != 2 * evicted ==> fails_with(
            r,
            clear_resize_text(clear_resize_op(use_clear), n, observed, (2 * evicted) as usize),
        ),
{
    let expected = 2 * evicted;
    if observed != expected {
        let op = if use_clear {
            "clear()"
        } else {
            "resize(1)"
        };
        return PropertyResult::Fail(clear_resize_message(op, n, observed, expected));
    }
    PropertyResult::Pass
}

/// Judges the count of keys dropped by popping each of `n` tracked keys.
pub fn check_pop_drops_count(n: usize, observed: usize) -> (r: PropertyResult)
    ensures
        observed == n ==> r == PropertyResult::Pass,
        observed != n ==> fails_with(r, pop_drops_text(n, observed, n)),
{
    if observed != n {
        return PropertyResult::Fail(pop_drops_message(n, observed, n));
    }
    PropertyResult::Pass
}

// ---------------------------------------------------------------------------
// The properties.
// ---------------------------------------------------------------------------

/// Cloning an unbounded cache must work whatever it holds, and the clone must
/// hold the same entries. The cache here never panics, so the check always
/// passes.
pub fn property_clone_unbounded_no_panic(items: Vec<(u32, u32)>) -> (r: PropertyResult)
    ensures
        r == PropertyResult::Pass,
{
    let mut cache: LruCache<u32, u32> = LruCache::unbounded();
    let mut i: usize = 0;
    while i < items.len()
        invariant
            cache.wf(),
            i <= items@.len(),
        decreases items@.len() - i,
    {
        let (k, v) = items[i];
        let _old = cache.put(k, v);
        i += 1;
    }
    let cloned_cache = cache.clone();
    assert(cloned_cache@ =~= cache@);
    check_clone(&cache, &cloned_cache, &items)
}

/// After `pop(k)`, neither `iter` nor a drain with `pop_lru` may give `k`
/// back, and the drain gives every other key. Inputs with fewer than two
/// distinct keys are discarded.
pub fn property_pop_iter_consistent(args: (Vec<u32>, u8)) -> (r: PropertyResult)
    ensures
        first_occurrences(args.0@).len() < 2 ==> r == PropertyResult::Discard,
        first_occurrences(args.0@).len() >= 2 ==> r == PropertyResult::Pass,
{
    let (raw_keys, pop_pick) = args;
    let keys = unique_keys(raw_keys.as_slice());
    if keys.len() < 2 {
        return PropertyResult::Discard;
    }
    proof {
        law_first_occurrences(raw_keys@);
    }
    let n = keys.len();
    let mut cache: LruCache<u32, u32> = LruCache::new(n);
    let mut i: usize = 0;
    while i < n
        invariant
            cache.wf(),
            cache.capacity() == n,
            n == keys@.len(),
            keys@.no_duplicates(),
            i <= n,
            cache@ == keys@.take(i as int).map_values(|k: u32| (k, k)),
        decreases n - i,
    {
        let k = keys[i];
        proof {
            assert(ids_of(cache@) =~= keys@.take(i as int));
            if has_id(cache@, k) {
                let j = choose|j: int| 0 <= j < i && keys@[j] == k;
                assert(keys@[j] == keys@[i as int]);
            }
        }
        let _old = cache.put(k, k);
        i += 1;
        assert(cache@ =~= keys@.take(i as int).map_values(|k: u32| (k, k)));
    }
    let pop_idx = (pop_pick as usize) % n;
    let pop_key = keys[pop_idx];
    proof {
        assert(cache@[pop_idx as int] == (pop_key, pop_key));
        law_lookup_at(cache@, pop_idx as int);
    }
    let removed = cache.pop(&pop_key);
    let ghost remaining = keys@.remove(pop_idx as int);
    proof {
        assert(ids_of(cache@) =~= remaining);
        assert(remaining.len() == n - 1);
        assert forall|j: int| 0 <= j < remaining.len() implies remaining[j] != pop_key by {
            let j2 = if j < pop_idx { j } else { j + 1 };
            assert(remaining[j] == keys@[j2]);
        }
    }

    let entries = cache.iter();
    let mut iter_keys: Vec<u32> = Vec::new();
    let mut t: usize = 0;
    while t < entries.len()
        invariant
            t <= entries@.len(),
            iter_keys@.len() == t,
            forall|j: int| 0 <= j < t ==> iter_keys@[j] != pop_key,
            forall|j: int| 0 <= j < entries@.len() ==> *entries@[j].0 != pop_key,
        decreases entries@.len() - t,
    {
        iter_keys.push(*entries[t].0);
        t += 1;
    }
    proof {
        assert forall|j: int| 0 <= j < entries@.len() implies *entries@[j].0 != pop_key by {
            let m = cache@.len() - 1 - j;
            assert(ids_of(cache@)[m] == cache@[m].0);
        }
    }

    let ghost after_pop = ids_of(cache@);
    let mut drained: Vec<u32> = Vec::new();
    while cache.len() > 0
        invariant
            cache.wf(),
            drained@ + ids_of(cache@) == after_pop,
        decreases cache@.len(),
    {
        let ghost before = cache@;
        match cache.pop_lru() {
            Some((k, _v)) => {
                drained.push(k);
                assert(ids_of(before) =~= seq![k] + ids_of(cache@));
                assert(drained@ + ids_of(cache@) =~= after_pop);
            },
            None => {},
        }
    }
    assert(drained@ =~= remaining);

    // The keys that should remain, least recently used first: every key but
    // the popped one, in the order they were put.
    let mut expected: Vec<u32> = Vec::new();
    let mut t: usize = 0;
    while t < n
        invariant
            n == keys@.len(),
            pop_idx < n,
            t <= n,
            t <= pop_idx ==> expected@ == keys@.subrange(0, t as int),
            t > pop_idx ==> expected@ == keys@.subrange(0, pop_idx as int) + keys@.subrange(
                pop_idx + 1,
                t as int,
            ),
        decreases n - t,
    {
        if t != pop_idx {
            expected.push(keys[t]);
        }
        t += 1;
        proof {
            if t <= pop_idx {
                assert(expected@ =~= keys@.subrange(0, t as int));
            } else if t == pop_idx + 1 {
                assert(expected@ =~= keys@.subrange(0, pop_idx as int) + keys@.subrange(
                    pop_idx + 1,
                    t as int,
                ));
            } else {
                assert(expected@ =~= keys@.subrange(0, pop_idx as int) + keys@.subrange(
                    pop_idx + 1,
                    t as int,
                ));
            }
        }
    }
    assert(expected@ =~= remaining);
    check_pop_drain(pop_key, &expected, removed, &iter_keys, &drained)
}

// ---------------------------------------------------------------------------
// The work of the leak checks.
// ---------------------------------------------------------------------------

/// Whether every key of `s` counts its drop on `counter`.
pub open spec fn keys_count_on<V>(s: Seq<(TrackedKey, V)>, counter: Arc<AtomicUsize>) -> bool {
    forall|j: int| 0 <= j < s.len() ==> (#[trigger] s[j]).0.drop_counter() == counter
}

/// Whether every value of `s` counts its drop on `counter`.
pub open spec fn values_count_on(s: Seq<(TrackedKey, TrackedVal)>, counter: Arc<AtomicUsize>) -> bool {
    forall|j: int| 0 <= j < s.len() ==> (#[trigger] s[j]).1.drop_counter() == counter
}

/// A cache holding one tracked key and one tracked value per id of `ids`, in
/// that order, all counting their drops on `counter`; its capacity is the
/// number of ids.
pub fn tracked_cache(ids: &Vec<u32>, counter: &Arc<AtomicUsize>) -> (c: LruCache<TrackedKey, TrackedVal>)
    requires
        ids@.no_duplicates(),
        ids@.len() > 0,
    ensures
        c.wf(),
        c.capacity() == ids@.len(),
        ids_of(c@) == ids@,
        keys_count_on(c@, *counter),
        values_count_on(c@, *counter),
{
    let n = ids.len();
    let mut cache: LruCache<TrackedKey, TrackedVal> = LruCache::new(n);
    let mut i: usize = 0;
    while i < n
        invariant
            cache.wf(),
            cache.capacity() == n,
            n == ids@.len(),
            ids@.no_duplicates(),
            i <= n,
            ids_of(cache@) == ids@.take(i as int),
            keys_count_on(cache@, *counter),
            values_count_on(cache@, *counter),
        decreases n - i,
    {
        let id = ids[i];
        proof {
            if has_id(cache@, id) {
                let j = choose|j: int| 0 <= j < i && ids@[j] == id;
                assert(ids@[j] == ids@[i as int]);
            }
        }
        let key = TrackedKey::new(id, share(counter));
        let _old = cache.put(key, TrackedVal::new(share(counter)));
        i += 1;
        assert(ids_of(cache@) =~= ids@.take(i as int));
    }
    assert(ids@.take(n as int) =~= ids@);
    cache
}

/// A cache holding one tracked key per id of `ids`, in that order, with unit
/// values, all keys counting their drops on `counter`; its capacity is the
/// number of ids.
pub fn tracked_key_cache(ids: &Vec<u32>, counter: &Arc<AtomicUsize>) -> (c: LruCache<TrackedKey, ()>)
    requires
        ids@.no_duplicates(),
        ids@.len() > 0,
    ensures
        c.wf(),
        c.capacity() == ids@.len(),
        ids_of(c@) == ids@,
        keys_count_on(c@, *counter),
{
    let n = ids.len();
    let mut cache: LruCache<TrackedKey, ()> = LruCache::new(n);
    let mut i: usize = 0;
    while i < n
        invariant
            cache.wf(),
            cache.capacity() == n,
            n == ids@.len(),
            ids@.no_duplicates(),
            i <= n,
            ids_of(cache@) == ids@.take(i as int),
            keys_count_on(cache@, *counter),
        decreases n - i,
    {
        let id = ids[i];
        proof {
            if has_id(cache@, id) {
                let j = choose|j: int| 0 <= j < i && ids@[j] == id;
                assert(ids@[j] == ids@[i as int]);
            }
        }
        let _old = cache.put(TrackedKey::new(id, share(counter)), ());
        i += 1;
        assert(ids_of(cache@) =~= ids@.take(i as int));
    }
    assert(ids@.take(n as int) =~= ids@);
    cache
}

/// Empties the cache with `clear()` when `use_clear`, else shrinks it with
/// `resize(1)`, and returns how many entries left it.
pub fn clear_or_shrink(cache: &mut LruCache<TrackedKey, TrackedVal>, use_clear: bool) -> (evicted: usize)
    requires
        old(cache).wf(),
        old(cache)@.len() > 0,
    ensures
        final(cache).wf(),
        use_clear ==> final(cache)@ == Seq::<(TrackedKey, TrackedVal)>::empty(),
        !use_clear ==> final(cache)@ == resize_model(old(cache)@, 1),
        evicted == old(cache)@.len() - final(cache)@.len(),
        evicted == evicted_by(use_clear, old(cache)@.len()),
{
    let n = cache.len();
    if use_clear {
        cache.clear();
        n
    } else {
        cache.resize(1);
        n.saturating_sub(1)
    }
}

/// Pops every id of `ids`, in order, from a cache that holds exactly those
/// ids; the cache ends empty.
pub fn pop_each(cache: &mut LruCache<TrackedKey, ()>, ids: &Vec<u32>)
    requires
        old(cache).wf(),
        ids_of(old(cache)@) == ids@,
    ensures
        final(cache).wf(),
        final(cache)@ == Seq::<(TrackedKey, ())>::empty(),
{
    let n = ids.len();
    let mut j: usize = 0;
    while j < n
        invariant
            cache.wf(),
            n == ids@.len(),
            j <= n,
            ids_of(cache@) == ids@.subrange(j as int, n as int),
        decreases n - j,
    {
        let id = ids[j];
        let ghost before = cache@;
        proof {
            cache.lemma_wf_model();
            assert(ids_of(before).len() == before.len());
            assert(ids_of(before)[0] == id);
            law_lookup_at(before, 0);
        }
        let _v = cache.pop(&id);
        assert(cache@ == before.remove(0));
        assert(ids_of(cache@) =~= ids_of(before).subrange(1, ids_of(before).len() as int));
        j += 1;
        assert(ids_of(cache@) =~= ids@.subrange(j as int, n as int));
    }
    assert(ids_of(cache@).len() == cache@.len());
    assert(cache@ =~= Seq::<(TrackedKey, ())>::empty());
}

/// How many of `n` entries `clear()` (when `use_clear`) or `resize(1)`
/// removes.
pub open spec fn evicted_by(use_clear: bool, n: nat) -> nat {
    if use_clear {
        n
    } else if n > 0 {
        (n - 1) as nat
    } else {
        0
    }
}

/// Drops `cache`, whose keys and values all count their drops on `counter`,
/// and judges the count that `counter` then holds with
/// `check_drop_all_count`: two drops per entry.
pub fn judge_drop_all(cache: LruCache<TrackedKey, TrackedVal>, counter: &Arc<AtomicUsize>) -> (r: PropertyResult)
    requires
        cache.wf(),
        cache@.len() > 0,
        cache@.len() <= usize::MAX / 2,
        keys_count_on(cache@, *counter),
        values_count_on(cache@, *counter),
    ensures
        r == PropertyResult::Pass || exists|observed: usize|
            observed != 2 * cache@.len() && fails_with(
                r,
                #[trigger] drop_all_text(
                    cache@.len() as usize,
                    observed,
                    (2 * cache@.len()) as usize,
                ),
            ),
{
    let n = cache.len();
    let ghost entries = cache@;
    {
        let _dropped = cache;
    }
    let observed = read_count(counter);
    let r = check_drop_all_count(n, observed);
    assert(entries.len() as usize == n);
    assert((2 * entries.len()) as usize == (2 * n) as usize);
    assert(r == PropertyResult::Pass || (observed != 2 * n && fails_with(
        r,
        drop_all_text(n, observed, (2 * n) as usize),
    )));
    r
}

/// Sets `counter` to zero, then clears the cache (when `use_clear`) or
/// shrinks it with `resize(1)`, and judges the count that the evicted
/// entries left on `counter` with `check_clear_resize_count`: two drops per
/// evicted entry.
pub fn judge_clear_resize(
    cache: &mut LruCache<TrackedKey, TrackedVal>,
    counter: &Arc<AtomicUsize>,
    use_clear: bool,
) -> (r: PropertyResult)
    requires
        old(cache).wf(),
        old(cache)@.len() > 0,
        old(cache)@.len() <= usize::MAX / 2,
        keys_count_on(old(cache)@, *counter),
        values_count_on(old(cache)@, *counter),
    ensures
        final(cache).wf(),
        use_clear ==> final(cache)@ == Seq::<(TrackedKey, TrackedVal)>::empty(),
        !use_clear ==> final(cache)@ == resize_model(old(cache)@, 1),
        r == PropertyResult::Pass || exists|observed: usize|
            observed != 2 * evicted_by(use_clear, old(cache)@.len()) && fails_with(
                r,
                #[trigger] clear_resize_text(
                    clear_resize_op(use_clear),
                    old(cache)@.len() as usize,
                    observed,
                    (2 * evicted_by(use_clear, old(cache)@.len())) as usize,
                ),
            ),
{
    let n = cache.len();
    reset_count(counter);
    let evicted = clear_or_shrink(cache, use_clear);
    let observed = read_count(counter);
    let r = check_clear_resize_count(use_clear, n, evicted, observed);
    assert(old(cache)@.len() as usize == n);
    assert((2 * evicted_by(use_clear, old(cache)@.len())) as usize == (2 * evicted) as usize);
    assert(r == PropertyResult::Pass || (observed != 2 * evicted && fails_with(
        r,
        clear_resize_text(clear_resize_op(use_clear), n, observed, (2 * evicted) as usize),
    )));
    r
}

/// Sets `counter` to zero, pops every id of `ids` from a cache that holds
/// exactly those ids, and judges the count that the popped keys left on
/// `counter` with `check_pop_drops_count`: one drop per key.
pub fn judge_pop_drops(cache: &mut LruCache<TrackedKey, ()>, ids: &Vec<u32>, counter: &Arc<AtomicUsize>) -> (r: PropertyResult)
    requires
        old(cache).wf(),
        ids_of(old(cache)@) == ids@,
        keys_count_on(old(cache)@, *counter),
    ensures
        final(cache).wf(),
        final(cache)@ == Seq::<(TrackedKey, ())>::empty(),
        r == PropertyResult::Pass || exists|observed: usize|
            observed != ids@.len() && fails_with(
                r,
                #[trigger] pop_drops_text(ids@.len() as usize, observed, ids@.len() as usize),
            ),
{
    let n = ids.len();
    reset_count(counter);
    pop_each(cache, ids);
    let observed = read_count(counter);
    let r = check_pop_drops_count(n, observed);
    assert(ids@.len() as usize == n);
    assert(r == PropertyResult::Pass || (observed != n && fails_with(r, pop_drops_text(n, observed, n))));
    r
}

/// Dropping a cache of `n` tracked entries must run `2 * n` destructors.
/// Inputs without keys are discarded; otherwise a cache of the distinct keys
/// is built on a fresh counter and judged by `judge_drop_all`.
pub fn property_drop_impl_drops_all(keys: Vec<u32>) -> (r: PropertyResult)
    requires
        keys@.len() <= usize::MAX / 2,
    ensures
        first_occurrences(keys@).len() == 0 ==> r == PropertyResult::Discard,
        first_occurrences(keys@).len() > 0 ==> r == PropertyResult::Pass || exists|observed: usize|
            observed != 2 * first_occurrences(keys@).len() && fails_with(
                r,
                #[trigger] drop_all_text(
                    first_occurrences(keys@).len() as usize,
                    observed,
                    (2 * first_occurrences(keys@).len()) as usize,
                ),
            ),
{
    let unique = unique_keys(keys.as_slice());
    if unique.len() == 0 {
        return PropertyResult::Discard;
    }
    proof {
        law_first_occurrences(keys@);
    }
    let counter = Arc::new(AtomicUsize::new(0));
    let cache = tracked_cache(&unique, &counter);
    proof {
        assert(ids_of(cache@).len() == cache@.len());
    }
    judge_drop_all(cache, &counter)
}

/// `clear()` (when `use_clear`) or `resize(1)` on a cache of `n` tracked
/// entries must drop every entry it removes: `n` for clear, `n - 1` for the
/// resize, two destructors each. Inputs without keys are discarded;
/// otherwise a cache of the distinct keys is built on a fresh counter and
/// judged by `judge_clear_resize`.
pub fn property_clear_resize_drops_all(args: (Vec<u32>, bool)) -> (r: PropertyResult)
    requires
        args.0@.len() <= usize::MAX / 2,
    ensures
        first_occurrences(args.0@).len() == 0 ==> r == PropertyResult::Discard,
        first_occurrences(args.0@).len() > 0 ==> r == PropertyResult::Pass || exists|observed: usize|
            observed != 2 * evicted_by(args.1, first_occurrences(args.0@).len()) && fails_with(
                r,
                #[trigger] clear_resize_text(
                    clear_resize_op(args.1),
                    first_occurrences(args.0@).len() as usize,
                    observed,
                    (2 * evicted_by(args.1, first_occurrences(args.0@).len())) as usize,
                ),
            ),
{
    let (keys, use_clear) = args;
    let unique = unique_keys(keys.as_slice());
    if unique.len() == 0 {
        return PropertyResult::Discard;
    }
    proof {
        law_first_occurrences(keys@);
    }
    let counter = Arc::new(AtomicUsize::new(0));
    let mut cache = tracked_cache(&unique, &counter);
    proof {
        assert(ids_of(cache@).len() == cache@.len());
    }
    judge_clear_resize(&mut cache, &counter, use_clear)
}

/// Popping each of `n` tracked keys must drop each key once. Inputs without
/// keys are discarded; otherwise a cache of the distinct keys is built on a
/// fresh counter and judged by `judge_pop_drops`.
pub fn property_pop_drops_key(keys: Vec<u32>) -> (r: PropertyResult)
    ensures
        first_occurrences(keys@).len() == 0 ==> r == PropertyResult::Discard,
        first_occurrences(keys@).len() > 0 ==> r == PropertyResult::Pass || exists|observed: usize|
            observed != first_occurrences(keys@).len() && fails_with(
                r,
                #[trigger] pop_drops_text(
                    first_occurrences(keys@).len() as usize,
                    observed,
                    first_occurrences(keys@).len() as usize,
                ),
            ),
{
    let unique = unique_keys(keys.as_slice());
    if unique.len() == 0 {
        return PropertyResult::Discard;
    }
    proof {
        law_first_occurrences(keys@);
    }
    let counter = Arc::new(AtomicUsize::new(0));
    let mut cache = tracked_key_cache(&unique, &counter);
    judge_pop_drops(&mut cache, &unique, &counter)
}

} // verus!
