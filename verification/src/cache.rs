//! A least-recently-used cache with a fixed capacity.
//!
//! The cache holds its entries in a vector ordered from the least recently
//! used (index 0) to the most recently used (the last index). Keys are named
//! by a `u32` id: two keys with the same id name the same entry.
use vstd::prelude::*;

verus! {

/// What the cache needs of a key: the `u32` id that names its entry.
pub trait CacheKey {
    spec fn key_id(&self) -> u32;

    fn id(&self) -> (r: u32)
        ensures
            r == self.key_id(),
    ;
}

impl CacheKey for u32 {
    open spec fn key_id(&self) -> u32 {
        *self
    }

    fn id(&self) -> (r: u32) {
        *self
    }
}

// ---------------------------------------------------------------------------
// The model: a sequence of entries, least recently used first.
// ---------------------------------------------------------------------------

/// The ids of the entries, in the order of the entries.
pub open spec fn ids_of<K: CacheKey, V>(s: Seq<(K, V)>) -> Seq<u32> {
    s.map_values(|e: (K, V)| e.0.key_id())
}

/// Whether some entry has the id `id`.
pub open spec fn has_id<K: CacheKey, V>(s: Seq<(K, V)>, id: u32) -> bool {
    ids_of(s).contains(id)
}

/// The position of the entry with id `id` (meaningful when `has_id`).
pub open spec fn slot_of<K: CacheKey, V>(s: Seq<(K, V)>, id: u32) -> int {
    ids_of(s).index_of(id)
}

/// The value stored under `id`, if any.
pub open spec fn lookup<K: CacheKey, V>(s: Seq<(K, V)>, id: u32) -> Option<V> {
    if has_id(s, id) {
        Some(s[slot_of(s, id)].1)
    } else {
        None
    }
}

/// A cache state is well formed when the capacity is positive, the entries
/// fit in it, and no two entries share an id.
pub open spec fn well_formed_model<K: CacheKey, V>(s: Seq<(K, V)>, cap: nat) -> bool {
    &&& cap > 0
    &&& s.len() <= cap
    &&& ids_of(s).no_duplicates()
}

/// `put(k, v)`: an existing entry keeps its key, takes the new value and
/// becomes the most recently used; a new key is appended as the most recently
/// used, after evicting the least recently used entry when the cache is full.
pub open spec fn put_model<K: CacheKey, V>(s: Seq<(K, V)>, cap: nat, k: K, v: V) -> Seq<(K, V)> {
    let id = k.key_id();
    if has_id(s, id) {
        let i = slot_of(s, id);
        s.remove(i).push((s[i].0, v))
    } else if s.len() >= cap {
        s.drop_first().push((k, v))
    } else {
        s.push((k, v))
    }
}

/// `pop(id)`: the entry with that id, if any, leaves the cache.
pub open spec fn pop_model<K: CacheKey, V>(s: Seq<(K, V)>, id: u32) -> Seq<(K, V)> {
    if has_id(s, id) {
        s.remove(slot_of(s, id))
    } else {
        s
    }
}

/// `resize(cap)`: the least recently used entries leave until `cap` remain.
pub open spec fn resize_model<K: CacheKey, V>(s: Seq<(K, V)>, cap: nat) -> Seq<(K, V)> {
    if s.len() > cap {
        s.subrange(s.len() - cap, s.len() as int)
    } else {
        s
    }
}

// ---------------------------------------------------------------------------
// Lemmas on the model.
// ---------------------------------------------------------------------------

proof fn lemma_slot<K: CacheKey, V>(s: Seq<(K, V)>, i: int)
    requires
        ids_of(s).no_duplicates(),
        0 <= i < s.len(),
    ensures
        has_id(s, s[i].0.key_id()),
        slot_of(s, s[i].0.key_id()) == i,
{
    let ids = ids_of(s);
    let id = s[i].0.key_id();
    assert(ids[i] == id);
    assert(ids.contains(id));
    let j = ids.index_of(id);
    assert(0 <= j < ids.len() && ids[j] == id);
}

proof fn lemma_ids_remove<K: CacheKey, V>(s: Seq<(K, V)>, i: int)
    requires
        0 <= i < s.len(),
    ensures
        ids_of(s.remove(i)) == ids_of(s).remove(i),
{
    assert(ids_of(s.remove(i)) =~= ids_of(s).remove(i));
}

proof fn lemma_ids_push<K: CacheKey, V>(s: Seq<(K, V)>, e: (K, V))
    ensures
        ids_of(s.push(e)) == ids_of(s).push(e.0.key_id()),
{
    assert(ids_of(s.push(e)) =~= ids_of(s).push(e.0.key_id()));
}

proof fn lemma_ids_subrange<K: CacheKey, V>(s: Seq<(K, V)>, a: int, b: int)
    requires
        0 <= a <= b <= s.len(),
    ensures
        ids_of(s.subrange(a, b)) == ids_of(s).subrange(a, b),
{
    assert(ids_of(s.subrange(a, b)) =~= ids_of(s).subrange(a, b));
}

proof fn lemma_no_dup_remove(s: Seq<u32>, i: int)
    requires
        s.no_duplicates(),
        0 <= i < s.len(),
    ensures
        s.remove(i).no_duplicates(),
        !s.remove(i).contains(s[i]),
        forall|x: u32| x != s[i] ==> (s.remove(i).contains(x) <==> s.contains(x)),
{
    let r = s.remove(i);
    assert forall|a: int, b: int| 0 <= a < r.len() && 0 <= b < r.len() && a != b implies r[a]
        != r[b] by {
        let a2 = if a < i { a } else { a + 1 };
        let b2 = if b < i { b } else { b + 1 };
        assert(r[a] == s[a2] && r[b] == s[b2]);
    }
    assert forall|j: int| 0 <= j < r.len() implies r[j] != s[i] by {
        let j2 = if j < i { j } else { j + 1 };
        assert(r[j] == s[j2]);
    }
    assert forall|x: u32| x != s[i] implies (r.contains(x) <==> s.contains(x)) by {
        if s.contains(x) {
            let j = choose|j: int| 0 <= j < s.len() && s[j] == x;
            let j2 = if j < i { j } else { j - 1 };
            assert(r[j2] == x);
        }
        if r.contains(x) {
            let j = choose|j: int| 0 <= j < r.len() && r[j] == x;
            let j2 = if j < i { j } else { j + 1 };
            assert(s[j2] == x);
        }
    }
}

proof fn lemma_no_dup_push(s: Seq<u32>, x: u32)
    requires
        s.no_duplicates(),
        !s.contains(x),
    ensures
        s.push(x).no_duplicates(),
        forall|y: u32| s.push(x).contains(y) <==> (s.contains(y) || y == x),
{
    let r = s.push(x);
    assert forall|a: int, b: int| 0 <= a < r.len() && 0 <= b < r.len() && a != b implies r[a]
        != r[b] by {
        if a == s.len() {
            assert(s[b] == r[b]);
        } else if b == s.len() {
            assert(s[a] == r[a]);
        }
    }
    assert forall|y: u32| r.contains(y) <==> (s.contains(y) || y == x) by {
        if s.contains(y) {
            let j = choose|j: int| 0 <= j < s.len() && s[j] == y;
            assert(r[j] == y);
        }
        if y == x {
            assert(r[s.len() as int] == y);
        }
        if r.contains(y) {
            let j = choose|j: int| 0 <= j < r.len() && r[j] == y;
            if j < s.len() {
                assert(s[j] == y);
            }
        }
    }
}

proof fn lemma_no_dup_subrange(s: Seq<u32>, a: int, b: int)
    requires
        s.no_duplicates(),
        0 <= a <= b <= s.len(),
    ensures
        s.subrange(a, b).no_duplicates(),
{
    let r = s.subrange(a, b);
    assert forall|x: int, y: int| 0 <= x < r.len() && 0 <= y < r.len() && x != y implies r[x]
        != r[y] by {
        assert(r[x] == s[a + x] && r[y] == s[a + y]);
    }
}

/// The model of `put` keeps the state well formed, stores the new value under
/// the key's id, and makes that entry the most recently used.
proof fn lemma_put_model<K: CacheKey, V>(s: Seq<(K, V)>, cap: nat, k: K, v: V)
    requires
        well_formed_model(s, cap),
    ensures
        well_formed_model(put_model(s, cap, k, v), cap),
        put_model(s, cap, k, v).len() > 0,
        put_model(s, cap, k, v).last().1 == v,
        ids_of(put_model(s, cap, k, v)).last() == k.key_id(),
        forall|x: u32|
            has_id(put_model(s, cap, k, v), x) <==> (x == k.key_id() || (has_id(s, x) && !(
            !has_id(s, k.key_id()) && s.len() >= cap && x == ids_of(s)[0]))),
{
    let id = k.key_id();
    let ids = ids_of(s);
    let r = put_model(s, cap, k, v);
    if has_id(s, id) {
        let i = slot_of(s, id);
        assert(0 <= i < s.len() && ids[i] == id);
        lemma_ids_remove(s, i);
        lemma_no_dup_remove(ids, i);
        lemma_ids_push(s.remove(i), (s[i].0, v));
        lemma_no_dup_push(ids.remove(i), id);
    } else if s.len() >= cap {
        assert(s.len() > 0);
        assert(s.drop_first() == s.remove(0));
        lemma_ids_remove(s, 0);
        lemma_no_dup_remove(ids, 0);
        lemma_ids_push(s.drop_first(), (k, v));
        lemma_no_dup_push(ids.remove(0), id);
    } else {
        lemma_ids_push(s, (k, v));
        lemma_no_dup_push(ids, id);
    }
}

/// The model of `pop` keeps the state well formed and removes exactly the
/// popped id.
proof fn lemma_pop_model<K: CacheKey, V>(s: Seq<(K, V)>, cap: nat, id: u32)
    requires
        well_formed_model(s, cap),
    ensures
        well_formed_model(pop_model(s, id), cap),
        !has_id(pop_model(s, id), id),
        pop_model(s, id).len() == if has_id(s, id) { s.len() - 1 } else { s.len() as int },
        forall|x: u32| x != id ==> (has_id(pop_model(s, id), x) <==> has_id(s, x)),
{
    if has_id(s, id) {
        let i = slot_of(s, id);
        lemma_ids_remove(s, i);
        lemma_no_dup_remove(ids_of(s), i);
    }
}

/// Entries other than the one at `i` keep their slot-relative values after
/// removing position `i`.
proof fn lemma_lookup_remove<K: CacheKey, V>(s: Seq<(K, V)>, i: int, x: u32)
    requires
        ids_of(s).no_duplicates(),
        0 <= i < s.len(),
        x != s[i].0.key_id(),
    ensures
        lookup(s.remove(i), x) == lookup(s, x),
{
    let r = s.remove(i);
    lemma_ids_remove(s, i);
    lemma_no_dup_remove(ids_of(s), i);
    assert(ids_of(s)[i] == s[i].0.key_id());
    if has_id(s, x) {
        let j = slot_of(s, x);
        assert(0 <= j < s.len() && ids_of(s)[j] == x);
        let j2 = if j < i { j } else { j - 1 };
        assert(r[j2] == s[j]);
        lemma_slot(r, j2);
    }
}

/// Appending an entry with a fresh id leaves lookups of other ids unchanged.
proof fn lemma_lookup_push<K: CacheKey, V>(s: Seq<(K, V)>, e: (K, V), x: u32)
    requires
        ids_of(s).no_duplicates(),
        !has_id(s, e.0.key_id()),
    ensures
        lookup(s.push(e), x) == if x == e.0.key_id() { Some(e.1) } else { lookup(s, x) },
{
    let r = s.push(e);
    lemma_ids_push(s, e);
    lemma_no_dup_push(ids_of(s), e.0.key_id());
    if x == e.0.key_id() {
        lemma_slot(r, s.len() as int);
    } else if has_id(s, x) {
        let j = slot_of(s, x);
        assert(0 <= j < s.len() && ids_of(s)[j] == x);
        assert(r[j] == s[j]);
        lemma_slot(r, j);
    }
}

/// Whether an entry is named by some id other than `id`.
pub open spec fn named_otherwise<K: CacheKey, V>(id: u32) -> spec_fn((K, V)) -> bool {
    |e: (K, V)| e.0.key_id() != id
}

proof fn lemma_ids_drop_last<K: CacheKey, V>(s: Seq<(K, V)>)
    requires
        s.len() > 0,
    ensures
        ids_of(s.drop_last()) == ids_of(s).drop_last(),
        ids_of(s).last() == s.last().0.key_id(),
{
    assert(ids_of(s.drop_last()) =~= ids_of(s).drop_last());
}

proof fn lemma_filter_keeps_all<K: CacheKey, V>(s: Seq<(K, V)>, id: u32)
    requires
        !has_id(s, id),
    ensures
        s.filter(named_otherwise::<K, V>(id)) == s,
    decreases s.len(),
{
    if s.len() > 0 {
        lemma_ids_drop_last(s);
        assert(ids_of(s)[s.len() - 1] == s.last().0.key_id());
        assert(!has_id(s.drop_last(), id)) by {
            if ids_of(s.drop_last()).contains(id) {
                let j = choose|j: int| 0 <= j < ids_of(s.drop_last()).len() && ids_of(s.drop_last())[j] == id;
                assert(ids_of(s)[j] == id);
            }
        }
        lemma_filter_keeps_all(s.drop_last(), id);
        let keep = named_otherwise::<K, V>(id);
        assert(s.last().0.key_id() != id) by {
            if s.last().0.key_id() == id {
                assert(ids_of(s)[s.len() - 1] == id);
            }
        }
        assert(keep(s.last()));
        assert(s.drop_last().push(s.last()) =~= s);
        s.drop_last().lemma_filter_push(s.last(), keep);
    }
}

proof fn lemma_filter_drops_one<K: CacheKey, V>(s: Seq<(K, V)>, i: int)
    requires
        ids_of(s).no_duplicates(),
        0 <= i < s.len(),
    ensures
        s.filter(named_otherwise::<K, V>(ids_of(s)[i])) == s.remove(i),
    decreases s.len(),
{
    let ids = ids_of(s);
    let id = ids[i];
    let n = s.len() as int;
    lemma_ids_drop_last(s);
    let t = s.drop_last();
    assert(ids_of(t).no_duplicates()) by {
        assert forall|a: int, b: int| 0 <= a < ids_of(t).len() && 0 <= b < ids_of(t).len() && a != b
            implies ids_of(t)[a] != ids_of(t)[b] by {
            assert(ids_of(t)[a] == ids[a] && ids_of(t)[b] == ids[b]);
        }
    }
    if i == n - 1 {
        assert(!has_id(t, id)) by {
            if ids_of(t).contains(id) {
                let j = choose|j: int| 0 <= j < ids_of(t).len() && ids_of(t)[j] == id;
                assert(ids[j] == id);
            }
        }
        lemma_filter_keeps_all(t, id);
        let keep = named_otherwise::<K, V>(id);
        assert(!keep(s.last()));
        assert(t.push(s.last()) =~= s);
        t.lemma_filter_push(s.last(), keep);
        assert(s.remove(i) =~= t);
    } else {
        assert(ids_of(t)[i] == id);
        lemma_filter_drops_one(t, i);
        assert(ids[n - 1] != id);
        let keep = named_otherwise::<K, V>(id);
        assert(keep(s.last()));
        assert(t.push(s.last()) =~= s);
        t.lemma_filter_push(s.last(), keep);
        assert(s.remove(i) =~= t.remove(i).push(s.last()));
    }
}

// ---------------------------------------------------------------------------
// Laws of the cache, stated over the model that the operations' contracts use.
// ---------------------------------------------------------------------------

/// Read after write: right after `put(k, v)`, the key's id maps to `v`, and
/// the entry is the most recently used one.
pub proof fn law_put_then_lookup<K: CacheKey, V>(s: Seq<(K, V)>, cap: nat, k: K, v: V)
    requires
        well_formed_model(s, cap),
    ensures
        lookup(put_model(s, cap, k, v), k.key_id()) == Some(v),
        ids_of(put_model(s, cap, k, v)).last() == k.key_id(),
        well_formed_model(put_model(s, cap, k, v), cap),
{
    lemma_put_model(s, cap, k, v);
    let r = put_model(s, cap, k, v);
    lemma_slot(r, r.len() - 1);
}

/// Where no id repeats, an entry's id looks up that entry's value.
pub proof fn law_lookup_at<K: CacheKey, V>(s: Seq<(K, V)>, i: int)
    requires
        ids_of(s).no_duplicates(),
        0 <= i < s.len(),
    ensures
        has_id(s, s[i].0.key_id()),
        slot_of(s, s[i].0.key_id()) == i,
        lookup(s, s[i].0.key_id()) == Some(s[i].1),
{
    lemma_slot(s, i);
}

/// Putting a key that is already present moves only that entry: it becomes
/// the most recently used, keeps its key and takes the new value, and every
/// other entry keeps its place relative to the rest. The length is unchanged.
pub proof fn law_put_existing_moves_only_that_entry<K: CacheKey, V>(s: Seq<(K, V)>, cap: nat, k: K, v: V)
    requires
        well_formed_model(s, cap),
        has_id(s, k.key_id()),
    ensures
        put_model(s, cap, k, v).len() == s.len(),
        ids_of(put_model(s, cap, k, v)).last() == k.key_id(),
        ids_of(put_model(s, cap, k, v)).drop_last() == ids_of(s).remove(slot_of(s, k.key_id())),
        put_model(s, cap, k, v).drop_last() == s.remove(slot_of(s, k.key_id())),
        put_model(s, cap, k, v).last() == (s[slot_of(s, k.key_id())].0, v),
{
    let id = k.key_id();
    let i = slot_of(s, id);
    let r = put_model(s, cap, k, v);
    assert(0 <= i < s.len() && ids_of(s)[i] == id);
    lemma_ids_remove(s, i);
    lemma_ids_push(s.remove(i), (s[i].0, v));
    assert(r.drop_last() =~= s.remove(i));
    assert(ids_of(r).drop_last() =~= ids_of(s).remove(i));
}

/// A new key in a cache with room is added as the most recently used entry,
/// and every entry already there stays where it was.
pub proof fn law_put_new_with_room_appends<K: CacheKey, V>(s: Seq<(K, V)>, cap: nat, k: K, v: V)
    requires
        well_formed_model(s, cap),
        !has_id(s, k.key_id()),
        s.len() < cap,
    ensures
        put_model(s, cap, k, v).len() == s.len() + 1,
        forall|j: int| 0 <= j < s.len() ==> put_model(s, cap, k, v)[j] == s[j],
        put_model(s, cap, k, v)[s.len() as int] == (k, v),
{
}

/// A new key in a full cache evicts exactly the least recently used entry
/// (the first); the others move up by one place in the same order, and the
/// new entry is the most recently used.
pub proof fn law_put_new_when_full_evicts_oldest<K: CacheKey, V>(s: Seq<(K, V)>, cap: nat, k: K, v: V)
    requires
        well_formed_model(s, cap),
        !has_id(s, k.key_id()),
        s.len() >= cap,
    ensures
        put_model(s, cap, k, v).len() == s.len(),
        forall|j: int| 0 <= j < s.len() - 1 ==> put_model(s, cap, k, v)[j] == s[j + 1],
        put_model(s, cap, k, v)[s.len() - 1] == (k, v),
{
}

/// A put leaves every other id's value as it was, except that a new key
/// arriving in a full cache evicts the least recently used entry.
pub proof fn law_put_keeps_others<K: CacheKey, V>(
    s: Seq<(K, V)>,
    cap: nat,
    k: K,
    v: V,
    x: u32,
)
    requires
        well_formed_model(s, cap),
        x != k.key_id(),
    ensures
        (!has_id(s, k.key_id()) && s.len() >= cap && x == ids_of(s)[0]) ==> lookup(
            put_model(s, cap, k, v),
            x,
        ) is None,
        !(!has_id(s, k.key_id()) && s.len() >= cap && x == ids_of(s)[0]) ==> lookup(
            put_model(s, cap, k, v),
            x,
        ) == lookup(s, x),
{
    let id = k.key_id();
    lemma_put_model(s, cap, k, v);
    if has_id(s, id) {
        let i = slot_of(s, id);
        assert(ids_of(s)[i] == id);
        lemma_lookup_remove(s, i, x);
        lemma_ids_remove(s, i);
        lemma_no_dup_remove(ids_of(s), i);
        lemma_lookup_push(s.remove(i), (s[i].0, v), x);
    } else if s.len() >= cap {
        assert(s.drop_first() == s.remove(0));
        lemma_ids_remove(s, 0);
        lemma_no_dup_remove(ids_of(s), 0);
        lemma_lookup_push(s.drop_first(), (k, v), x);
        if x != ids_of(s)[0] {
            lemma_lookup_remove(s, 0, x);
        }
    } else {
        lemma_lookup_push(s, (k, v), x);
    }
}

/// After `pop(id)` the id is absent, every other id keeps its value, and the
/// cache shrinks by one exactly when the id was present.
pub proof fn law_pop_removes_only_key<K: CacheKey, V>(s: Seq<(K, V)>, cap: nat, id: u32, x: u32)
    requires
        well_formed_model(s, cap),
    ensures
        lookup(pop_model(s, id), id) is None,
        x != id ==> lookup(pop_model(s, id), x) == lookup(s, x),
        pop_model(s, id).len() == if has_id(s, id) { s.len() - 1 } else { s.len() as int },
        well_formed_model(pop_model(s, id), cap),
{
    lemma_pop_model(s, cap, id);
    if has_id(s, id) && x != id {
        let i = slot_of(s, id);
        assert(ids_of(s)[i] == id);
        lemma_lookup_remove(s, i, x);
    }
}

/// Popping a key takes out that key's entry and nothing else: the remaining
/// entries are the old ones without it, in the same order of use.
pub proof fn law_pop_keeps_order<K: CacheKey, V>(s: Seq<(K, V)>, cap: nat, id: u32)
    requires
        well_formed_model(s, cap),
    ensures
        pop_model(s, id) == s.filter(named_otherwise::<K, V>(id)),
{
    if has_id(s, id) {
        let i = slot_of(s, id);
        assert(0 <= i < s.len() && ids_of(s)[i] == id);
        lemma_filter_drops_one(s, i);
    } else {
        lemma_filter_keeps_all(s, id);
    }
}

/// Unless it evicts, a put keeps every other entry, in the same order of use,
/// ahead of the entry it writes.
pub proof fn law_put_keeps_order_of_others<K: CacheKey, V>(s: Seq<(K, V)>, cap: nat, k: K, v: V)
    requires
        well_formed_model(s, cap),
        has_id(s, k.key_id()) || s.len() < cap,
    ensures
        put_model(s, cap, k, v).drop_last() == s.filter(named_otherwise::<K, V>(k.key_id())),
{
    let id = k.key_id();
    let r = put_model(s, cap, k, v);
    if has_id(s, id) {
        let i = slot_of(s, id);
        assert(0 <= i < s.len() && ids_of(s)[i] == id);
        lemma_filter_drops_one(s, i);
        assert(r.drop_last() =~= s.remove(i));
    } else {
        lemma_filter_keeps_all(s, id);
        assert(r.drop_last() =~= s);
    }
}

/// Resizing keeps the state well formed under the new capacity and keeps the
/// `min(len, cap)` most recently used entries, in order.
pub proof fn law_resize_keeps_most_recent<K: CacheKey, V>(s: Seq<(K, V)>, cap: nat, new_cap: nat)
    requires
        well_formed_model(s, cap),
        new_cap > 0,
    ensures
        well_formed_model(resize_model(s, new_cap), new_cap),
        resize_model(s, new_cap).len() == if s.len() > new_cap { new_cap } else { s.len() },
        resize_model(s, new_cap) =~= s.subrange(
            s.len() - resize_model(s, new_cap).len(),
            s.len() as int,
        ),
{
    if s.len() > new_cap {
        lemma_ids_subrange(s, s.len() - new_cap, s.len() as int);
        lemma_no_dup_subrange(ids_of(s), s.len() - new_cap, s.len() as int);
    }
}

// ---------------------------------------------------------------------------
// The cache.
// ---------------------------------------------------------------------------

/// A least-recently-used cache holding at most `cap()` entries.
pub struct LruCache<K, V> {
    entries: Vec<(K, V)>,
    limit: usize,
}

impl<K, V> View for LruCache<K, V> {
    type V = Seq<(K, V)>;

    /// The entries, least recently used first.
    closed spec fn view(&self) -> Seq<(K, V)> {
        self.entries@
    }
}

impl<K: CacheKey, V> LruCache<K, V> {
    /// The capacity of the cache.
    pub closed spec fn capacity(&self) -> nat {
        self.limit as nat
    }

    /// The cache's invariant.
    pub closed spec fn wf(&self) -> bool {
        well_formed_model(self.entries@, self.limit as nat)
    }

    /// What the invariant says of the model: a positive capacity that the
    /// entries fit in, and no id twice.
    pub proof fn lemma_wf_model(&self)
        requires
            self.wf(),
        ensures
            well_formed_model(self@, self.capacity()),
    {
    }

    /// An empty cache that holds at most `cap` entries.
    pub fn new(cap: usize) -> (r: Self)
        requires
            cap > 0,
        ensures
            r.wf(),
            r@ == Seq::<(K, V)>::empty(),
            r.capacity() == cap,
    {
        let r = LruCache { entries: Vec::new(), limit: cap };
        assert(ids_of(r.entries@) =~= Seq::<u32>::empty());
        r
    }

    /// An empty cache with no practical limit on its size.
    pub fn unbounded() -> (r: Self)
        ensures
            r.wf(),
            r@ == Seq::<(K, V)>::empty(),
            r.capacity() == usize::MAX,
    {
        Self::new(usize::MAX)
    }

    /// The number of entries.
    pub fn len(&self) -> (r: usize)
        ensures
            r == self@.len(),
    {
        self.entries.len()
    }

    /// Whether the cache holds no entry.
    pub fn is_empty(&self) -> (r: bool)
        ensures
            r <==> self@.len() == 0,
    {
        self.entries.len() == 0
    }

    /// The capacity.
    pub fn cap(&self) -> (r: usize)
        ensures
            r == self.capacity(),
    {
        self.limit
    }

    /// The position of the entry named `id`.
    fn find(&self, id: u32) -> (r: Option<usize>)
        requires
            self.wf(),
        ensures
            match r {
                Some(i) => {
                    &&& i < self@.len()
                    &&& has_id(self@, id)
                    &&& slot_of(self@, id) == i
                },
                None => !has_id(self@, id),
            },
    {
        let mut i: usize = 0;
        while i < self.entries.len()
            invariant
                self.wf(),
                i <= self.entries@.len(),
                forall|j: int| 0 <= j < i ==> ids_of(self.entries@)[j] != id,
            decreases self.entries@.len() - i,
        {
            if self.entries[i].0.id() == id {
                proof {
                    lemma_slot(self.entries@, i as int);
                }
                return Some(i);
            }
            i += 1;
        }
        None
    }

    /// The value stored under `key`, without changing the order of use.
    pub fn peek(&self, key: &u32) -> (r: Option<&V>)
        requires
            self.wf(),
        ensures
            match r {
                Some(v) => lookup(self@, *key) == Some(*v),
                None => lookup(self@, *key) is None,
            },
    {
        match self.find(*key) {
            Some(i) => Some(&self.entries[i].1),
            None => None,
        }
    }

    /// Stores `v` under `k` and makes the entry the most recently used.
    /// Returns the value that the key had, if any. A new key in a full cache
    /// evicts the least recently used entry.
    pub fn put(&mut self, k: K, v: V) -> (r: Option<V>)
        requires
            old(self).wf(),
        ensures
            final(self).wf(),
            final(self).capacity() == old(self).capacity(),
            final(self)@ == put_model(old(self)@, old(self).capacity(), k, v),
            r == lookup(old(self)@, k.key_id()),
    {
        proof {
            lemma_put_model(self.entries@, self.limit as nat, k, v);
        }
        let id = k.id();
        match self.find(id) {
            Some(i) => {
                let (old_k, old_v) = self.entries.remove(i);
                self.entries.push((old_k, v));
                Some(old_v)
            },
            None => {
                if self.entries.len() >= self.limit {
                    let _evicted = self.entries.remove(0);
                    assert(self.entries@ == old(self).entries@.drop_first());
                }
                self.entries.push((k, v));
                None
            },
        }
    }

    /// Removes the entry named `key` and returns its value.
    pub fn pop(&mut self, key: &u32) -> (r: Option<V>)
        requires
            old(self).wf(),
        ensures
            final(self).wf(),
            final(self).capacity() == old(self).capacity(),
            final(self)@ == pop_model(old(self)@, *key),
            r == lookup(old(self)@, *key),
    {
        proof {
            lemma_pop_model(self.entries@, self.limit as nat, *key);
        }
        match self.find(*key) {
            Some(i) => {
                let (_k, v) = self.entries.remove(i);
                Some(v)
            },
            None => None,
        }
    }

    /// Removes and returns the least recently used entry.
    pub fn pop_lru(&mut self) -> (r: Option<(K, V)>)
        requires
            old(self).wf(),
        ensures
            final(self).wf(),
            final(self).capacity() == old(self).capacity(),
            old(self)@.len() == 0 ==> r is None && final(self)@ == old(self)@,
            old(self)@.len() > 0 ==> r == Some(old(self)@[0]) && final(self)@
                == old(self)@.drop_first(),
    {
        if self.entries.len() == 0 {
            None
        } else {
            proof {
                lemma_ids_subrange(self.entries@, 1, self.entries@.len() as int);
                lemma_no_dup_subrange(ids_of(self.entries@), 1, self.entries@.len() as int);
            }
            let e = self.entries.remove(0);
            assert(self.entries@ == old(self).entries@.drop_first());
            Some(e)
        }
    }

    /// Removes every entry.
    pub fn clear(&mut self)
        requires
            old(self).wf(),
        ensures
            final(self).wf(),
            final(self).capacity() == old(self).capacity(),
            final(self)@ == Seq::<(K, V)>::empty(),
    {
        self.entries.clear();
        assert(ids_of(self.entries@) =~= Seq::<u32>::empty());
    }

    /// Sets the capacity to `cap`, evicting least recently used entries until
    /// at most `cap` remain.
    pub fn resize(&mut self, cap: usize)
        requires
            old(self).wf(),
            cap > 0,
        ensures
            final(self).wf(),
            final(self).capacity() == cap,
            final(self)@ == resize_model(old(self)@, cap as nat),
    {
        let ghost s0 = self.entries@;
        while self.entries.len() > cap
            invariant
                cap > 0,
                s0.len() >= self.entries@.len(),
                self.entries@ == s0.subrange(s0.len() - self.entries@.len(), s0.len() as int),
                well_formed_model(s0, self.limit as nat),
                self.entries@.len() > cap || self.entries@ == resize_model(s0, cap as nat),
            decreases self.entries@.len(),
        {
            let _evicted = self.entries.remove(0);
            assert(self.entries@ =~= s0.subrange(
                s0.len() - self.entries@.len(),
                s0.len() as int,
            ));
        }
        proof {
            law_resize_keeps_most_recent(s0, self.limit as nat, cap as nat);
        }
        self.limit = cap;
    }

    /// The entries, most recently used first.
    pub fn iter(&self) -> (r: Vec<(&K, &V)>)
        ensures
            r@.len() == self@.len(),
            forall|j: int|
                0 <= j < r@.len() ==> *r@[j].0 == self@[self@.len() - 1 - j].0 && *r@[j].1
                    == self@[self@.len() - 1 - j].1,
    {
        let mut r: Vec<(&K, &V)> = Vec::new();
        let n = self.entries.len();
        let mut i: usize = n;
        while i > 0
            invariant
                n == self.entries@.len(),
                i <= n,
                r@.len() == n - i,
                forall|j: int|
                    0 <= j < r@.len() ==> *r@[j].0 == self.entries@[n - 1 - j].0 && *r@[j].1
                        == self.entries@[n - 1 - j].1,
            decreases i,
        {
            i -= 1;
            let e = &self.entries[i];
            r.push((&e.0, &e.1));
        }
        r
    }
}

impl<K: CacheKey + Copy, V: Clone> Clone for LruCache<K, V> {
    /// A cache with the same capacity and the same keys in the same order,
    /// each value cloned.
    fn clone(&self) -> (r: Self)
        ensures
            r.capacity() == self.capacity(),
            r@.len() == self@.len(),
            ids_of(r@) == ids_of(self@),
            forall|j: int|
                0 <= j < self@.len() ==> r@[j].0 == self@[j].0 && cloned::<V>(
                    self@[j].1,
                    r@[j].1,
                ),
            self.wf() ==> r.wf(),
    {
        let mut entries: Vec<(K, V)> = Vec::new();
        let n = self.entries.len();
        let mut i: usize = 0;
        while i < n
            invariant
                n == self.entries@.len(),
                i <= n,
                entries@.len() == i,
                forall|j: int|
                    0 <= j < i ==> entries@[j].0 == self.entries@[j].0 && cloned::<V>(
                        self.entries@[j].1,
                        entries@[j].1,
                    ),
            decreases n - i,
        {
            let k = self.entries[i].0;
            let v = self.entries[i].1.clone();
            entries.push((k, v));
            i += 1;
        }
        let r = LruCache { entries, limit: self.limit };
        assert(ids_of(r@) =~= ids_of(self@));
        r
    }
}

} // verus!
