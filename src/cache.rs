//! A bounded least-recently-used store of encoded responses.

use vstd::prelude::*;
use lru::LruCache;
use std::collections::hash_map::RandomState;
use std::num::NonZeroUsize;

verus! {

#[verifier::external_type_specification]
#[verifier::external_body]
#[verifier::reject_recursive_types(K)]
#[verifier::reject_recursive_types(V)]
#[verifier::reject_recursive_types(S)]
pub struct ExLruCache<K, V, S>(LruCache<K, V, S>);

/// The cache structure behind `DnsCache`.
pub type Store = LruCache<String, Vec<u8>, RandomState>;

/// One stored entry: the signature and the response bytes.
pub type Entry = (Seq<char>, Seq<u8>);

/// The entries of an `LruCache`, most recently used first.
pub uninterp spec fn lru_entries(c: Store) -> Seq<Entry>;

/// The capacity that an `LruCache` was made with.
pub uninterp spec fn lru_capacity(c: Store) -> nat;

pub open spec fn has_key(es: Seq<Entry>, k: Seq<char>) -> bool {
    exists|i: int| 0 <= i < es.len() && (#[trigger] es[i]).0 == k
}

pub open spec fn key_index(es: Seq<Entry>, k: Seq<char>) -> int {
    choose|i: int| 0 <= i < es.len() && (#[trigger] es[i]).0 == k
}

pub open spec fn keys_distinct(es: Seq<Entry>) -> bool {
    forall|i: int, j: int| 0 <= i < es.len() && 0 <= j < es.len() && i != j ==> (#[trigger] es[i]).0 != (#[trigger] es[j]).0
}

/// The entries after a lookup of `k`: a hit moves the entry to the front.
pub open spec fn after_get(es: Seq<Entry>, k: Seq<char>) -> Seq<Entry> {
    if has_key(es, k) {
        let i = key_index(es, k);
        seq![es[i]] + es.remove(i)
    } else {
        es
    }
}

/// What a lookup of `k` returns.
pub open spec fn lookup(es: Seq<Entry>, k: Seq<char>) -> Option<Seq<u8>> {
    if has_key(es, k) {
        Some(es[key_index(es, k)].1)
    } else {
        None
    }
}

/// The entries after storing `v` under `k`: the entry goes to the front,
/// replacing the one with the same key, or else evicting the last entry when
/// the cache is full.
pub open spec fn after_put(es: Seq<Entry>, cap: nat, k: Seq<char>, v: Seq<u8>) -> Seq<Entry> {
    if has_key(es, k) {
        seq![(k, v)] + es.remove(key_index(es, k))
    } else if es.len() == cap {
        seq![(k, v)] + es.drop_last()
    } else {
        seq![(k, v)] + es
    }
}

/// Relies on LruCache::with_hasher: an empty cache of the given capacity.
#[verifier::external_body]
fn lru_new(cap: usize) -> (r: Store)
    requires
        cap > 0,
    ensures
        lru_entries(r) == Seq::<Entry>::empty(),
        lru_capacity(r) == cap,
{
    LruCache::with_hasher(NonZeroUsize::new(cap).unwrap(), RandomState::new())
}

/// Relies on LruCache::get: the value stored under the key, which becomes the
/// most recently used entry.
#[verifier::external_body]
fn lru_get(c: &mut Store, k: &str) -> (r: Option<Vec<u8>>)
    ensures
        lru_entries(*final(c)) == after_get(lru_entries(*old(c)), k@),
        lru_capacity(*final(c)) == lru_capacity(*old(c)),
        r matches Some(v) ==> lookup(lru_entries(*old(c)), k@) == Some(v@),
        r is None ==> lookup(lru_entries(*old(c)), k@) is None,
{
    c.get(k).cloned()
}

/// Relies on LruCache::put: the pair becomes the most recently used entry; a
/// key already present has its value replaced, and a new key in a full cache
/// evicts the least recently used entry.
#[verifier::external_body]
fn lru_put(c: &mut Store, k: String, v: Vec<u8>)
    ensures
        lru_entries(*final(c)) == after_put(lru_entries(*old(c)), lru_capacity(*old(c)), k@, v@),
        lru_capacity(*final(c)) == lru_capacity(*old(c)),
{
    c.put(k, v);
}

/// A cache of encoded responses keyed by query signature.
pub struct DnsCache {
    cache: Store,
}

impl DnsCache {
    /// The entries, most recently used first.
    pub closed spec fn entries(&self) -> Seq<Entry> {
        lru_entries(self.cache)
    }

    pub closed spec fn capacity(&self) -> nat {
        lru_capacity(self.cache)
    }

    pub open spec fn wf(&self) -> bool {
        &&& self.capacity() > 0
        &&& self.entries().len() <= self.capacity()
        &&& keys_distinct(self.entries())
    }

    /// An empty cache holding at most `capacity` responses.
    pub fn new(capacity: usize) -> (r: DnsCache)
        requires
            capacity > 0,
        ensures
            r.wf(),
            r.entries() == Seq::<Entry>::empty(),
            r.capacity() == capacity,
    {
        DnsCache { cache: lru_new(capacity) }
    }

    /// The response stored under `key`, if any; a hit makes it the most
    /// recently used entry.
    pub fn get(&mut self, key: &str) -> (r: Option<Vec<u8>>)
        requires
            old(self).wf(),
        ensures
            final(self).wf(),
            final(self).entries() == after_get(old(self).entries(), key@),
            final(self).capacity() == old(self).capacity(),
            r matches Some(v) ==> lookup(old(self).entries(), key@) == Some(v@),
            r is None ==> lookup(old(self).entries(), key@) is None,
    {
        let r = lru_get(&mut self.cache, key);
        proof {
            lemma_after_get_wf(old(self).entries(), key@);
        }
        r
    }

    /// Stores `value` under `key` as the most recently used entry, evicting the
    /// least recently used one when a new key finds the cache full.
    pub fn put(&mut self, key: String, value: Vec<u8>)
        requires
            old(self).wf(),
        ensures
            final(self).wf(),
            final(self).entries() == after_put(old(self).entries(), old(self).capacity(), key@, value@),
            final(self).capacity() == old(self).capacity(),
    {
        proof {
            lemma_after_put_wf(self.entries(), self.capacity(), key@, value@);
        }
        lru_put(&mut self.cache, key, value);
    }
}

proof fn lemma_after_get_wf(es: Seq<Entry>, k: Seq<char>)
    requires
        keys_distinct(es),
    ensures
        keys_distinct(after_get(es, k)),
        after_get(es, k).len() == es.len(),
{
    if has_key(es, k) {
        let i = key_index(es, k);
        let r = seq![es[i]] + es.remove(i);
        assert forall|a: int, b: int| 0 <= a < r.len() && 0 <= b < r.len() && a != b implies (#[trigger] r[a]).0
            != (#[trigger] r[b]).0 by {
            let ia = if a == 0 { i } else if a - 1 < i { a - 1 } else { a };
            let ib = if b == 0 { i } else if b - 1 < i { b - 1 } else { b };
            assert(r[a] == es[ia]);
            assert(r[b] == es[ib]);
        }
    }
}

proof fn lemma_after_put_wf(es: Seq<Entry>, cap: nat, k: Seq<char>, v: Seq<u8>)
    requires
        cap > 0,
        es.len() <= cap,
        keys_distinct(es),
    ensures
        keys_distinct(after_put(es, cap, k, v)),
        after_put(es, cap, k, v).len() <= cap,
{
    let r = after_put(es, cap, k, v);
    if has_key(es, k) {
        let i = key_index(es, k);
        assert forall|a: int, b: int| 0 <= a < r.len() && 0 <= b < r.len() && a != b implies (#[trigger] r[a]).0
            != (#[trigger] r[b]).0 by {
            let ia = if a == 0 { i } else if a - 1 < i { a - 1 } else { a };
            let ib = if b == 0 { i } else if b - 1 < i { b - 1 } else { b };
            assert(r[a].0 == es[ia].0);
            assert(r[b].0 == es[ib].0);
        }
    } else {
        let rest = if es.len() == cap { es.drop_last() } else { es };
        assert forall|a: int, b: int| 0 <= a < r.len() && 0 <= b < r.len() && a != b implies (#[trigger] r[a]).0
            != (#[trigger] r[b]).0 by {
            if a == 0 {
                assert(r[b] == rest[b - 1]);
                assert(es[b - 1].0 != k);
            } else if b == 0 {
                assert(r[a] == rest[a - 1]);
                assert(es[a - 1].0 != k);
            } else {
                assert(r[a] == es[a - 1]);
                assert(r[b] == es[b - 1]);
            }
        }
    }
}

/// The entries after storing each pair of `items` in turn.
pub open spec fn put_all(es: Seq<Entry>, cap: nat, items: Seq<Entry>) -> Seq<Entry>
    decreases items.len(),
{
    if items.len() == 0 {
        es
    } else {
        put_all(after_put(es, cap, items[0].0, items[0].1), cap, items.drop_first())
    }
}

/// None of the keys of `items` is in `es`, and they differ from each other.
pub open spec fn fresh_keys(es: Seq<Entry>, items: Seq<Entry>) -> bool {
    &&& forall|i: int| 0 <= i < items.len() ==> !has_key(es, #[trigger] items[i].0)
    &&& keys_distinct(items)
}

proof fn lemma_fresh_keys_step(es: Seq<Entry>, cap: nat, items: Seq<Entry>)
    requires
        items.len() > 0,
        fresh_keys(es, items),
        es.len() > 0 || es.len() < cap,
    ensures
        fresh_keys(
            seq![items[0]] + (if es.len() == cap { es.drop_last() } else { es }),
            items.drop_first(),
        ),
{
    let rest = if es.len() == cap { es.drop_last() } else { es };
    let next = seq![items[0]] + rest;
    let tail = items.drop_first();
    assert forall|i: int| 0 <= i < tail.len() implies !has_key(next, #[trigger] tail[i].0) by {
        assert(tail[i] == items[i + 1]);
        assert(items[0].0 != items[i + 1].0);
        if has_key(next, tail[i].0) {
            let j = choose|j: int| 0 <= j < next.len() && (#[trigger] next[j]).0 == tail[i].0;
            assert(next[j] == rest[j - 1]);
            assert(rest[j - 1] == es[j - 1]);
            assert(!has_key(es, items[i + 1].0));
        }
    }
    assert forall|a: int, b: int| 0 <= a < tail.len() && 0 <= b < tail.len() && a != b implies (#[trigger] tail[a]).0
        != (#[trigger] tail[b]).0 by {
        assert(tail[a] == items[a + 1]);
        assert(tail[b] == items[b + 1]);
    }
}

/// Storing new keys into a cache with room for them all puts them in front,
/// newest first, and evicts nothing.
proof fn lemma_put_all_with_room(es: Seq<Entry>, cap: nat, items: Seq<Entry>)
    requires
        fresh_keys(es, items),
        es.len() + items.len() <= cap,
    ensures
        put_all(es, cap, items) == items.reverse() + es,
    decreases items.len(),
{
    if items.len() == 0 {
        assert(items.reverse() + es =~= es);
    } else {
        assert(!has_key(es, items[0].0));
        let next = seq![items[0]] + es;
        lemma_fresh_keys_step(es, cap, items);
        lemma_put_all_with_room(next, cap, items.drop_first());
        assert(items.drop_first().reverse() + next =~= items.reverse() + es);
    }
}

/// Storing `n` new keys into a full cache, `n` at most its capacity, puts
/// them in front, newest first, and evicts the `n` least recently used entries.
proof fn lemma_put_all_full(es: Seq<Entry>, cap: nat, items: Seq<Entry>)
    requires
        fresh_keys(es, items),
        es.len() == cap,
        items.len() <= cap,
    ensures
        put_all(es, cap, items) == items.reverse() + es.subrange(0, cap - items.len()),
    decreases items.len(),
{
    if items.len() == 0 {
        assert(items.reverse() + es.subrange(0, cap as int) =~= es);
    } else {
        assert(!has_key(es, items[0].0));
        let next = seq![items[0]] + es.drop_last();
        lemma_fresh_keys_step(es, cap, items);
        lemma_put_all_full(next, cap, items.drop_first());
        assert(items.drop_first().reverse() + next.subrange(0, cap - items.drop_first().len()) =~= items.reverse()
            + es.subrange(0, cap - items.len()));
    }
}

/// In an empty cache, storing one more new key than the capacity evicts
/// exactly the least recently used one, the first stored: every other key stays.
pub proof fn lemma_overflow_evicts_least_recently_used(cap: nat, items: Seq<Entry>)
    requires
        cap > 0,
        items.len() == cap + 1,
        keys_distinct(items),
    ensures
        !has_key(put_all(Seq::<Entry>::empty(), cap, items), items[0].0),
        forall|i: int| 1 <= i < items.len() ==> has_key(put_all(Seq::<Entry>::empty(), cap, items), #[trigger] items[i].0),
        forall|i: int|
            1 <= i < items.len() ==> lookup(put_all(Seq::<Entry>::empty(), cap, items), #[trigger] items[i].0) == Some(
                items[i].1,
            ),
        put_all(Seq::<Entry>::empty(), cap, items).len() == cap,
{
    let empty = Seq::<Entry>::empty();
    let first = items.subrange(0, cap as int);
    let last = items.subrange(cap as int, cap as int + 1);
    assert forall|a: int, b: int| 0 <= a < first.len() && 0 <= b < first.len() && a != b implies (#[trigger] first[a]).0
        != (#[trigger] first[b]).0 by {
        assert(first[a] == items[a] && first[b] == items[b]);
    }
    lemma_put_all_with_room(empty, cap, first);
    lemma_put_all_split(empty, cap, first, last);
    assert(items =~= first + last);
    let full = first.reverse();
    assert(full + empty =~= full);
    assert(keys_distinct(full)) by {
        assert forall|a: int, b: int| 0 <= a < full.len() && 0 <= b < full.len() && a != b implies (#[trigger] full[a]).0
            != (#[trigger] full[b]).0 by {
            assert(full[a] == items[cap - 1 - a] && full[b] == items[cap - 1 - b]);
        }
    }
    assert forall|i: int| 0 <= i < last.len() implies !has_key(full, #[trigger] last[i].0) by {
        assert(last[i] == items[cap as int]);
        if has_key(full, last[i].0) {
            let j = choose|j: int| 0 <= j < full.len() && (#[trigger] full[j]).0 == last[i].0;
            assert(full[j] == items[cap - 1 - j]);
        }
    }
    lemma_put_all_full(full, cap, last);
    let r = put_all(empty, cap, items);
    assert(r == last.reverse() + full.subrange(0, cap - 1));
    assert(r.len() == cap);
    if has_key(r, items[0].0) {
        let j = choose|j: int| 0 <= j < r.len() && (#[trigger] r[j]).0 == items[0].0;
        if j == 0 {
            assert(r[0] == items[cap as int]);
        } else {
            assert(r[j] == full[j - 1]);
            assert(full[j - 1] == items[cap - j]);
        }
    }
    assert forall|j: int| 0 <= j < r.len() implies #[trigger] r[j] == items[cap - j] by {
        if j == 0 {
            assert(r[0] == items[cap as int]);
        } else {
            assert(r[j] == full[j - 1]);
            assert(full[j - 1] == items[cap - j]);
        }
    }
    assert(keys_distinct(r)) by {
        assert forall|a: int, b: int| 0 <= a < r.len() && 0 <= b < r.len() && a != b implies (#[trigger] r[a]).0
            != (#[trigger] r[b]).0 by {
            assert(r[a] == items[cap - a] && r[b] == items[cap - b]);
        }
    }
    assert forall|i: int| 1 <= i < items.len() implies has_key(r, #[trigger] items[i].0) && lookup(r, items[i].0) == Some(
        items[i].1,
    ) by {
        assert(r[cap - i] == items[i]);
        lemma_lookup_at(r, cap - i);
    }
}

proof fn lemma_put_all_split(es: Seq<Entry>, cap: nat, a: Seq<Entry>, b: Seq<Entry>)
    ensures
        put_all(es, cap, a + b) == put_all(put_all(es, cap, a), cap, b),
    decreases a.len(),
{
    if a.len() == 0 {
        assert(a + b =~= b);
    } else {
        assert((a + b).drop_first() =~= a.drop_first() + b);
        assert((a + b)[0] == a[0]);
        lemma_put_all_split(after_put(es, cap, a[0].0, a[0].1), cap, a.drop_first(), b);
    }
}

/// In a full cache, a key that was just looked up outlives every other entry:
/// as new keys are stored, it is the last of the old entries to be evicted.
pub proof fn lemma_visited_key_outlives_peers(es: Seq<Entry>, cap: nat, k: Seq<char>, items: Seq<Entry>)
    requires
        keys_distinct(es),
        es.len() == cap,
        has_key(es, k),
        fresh_keys(es, items),
        items.len() <= cap,
    ensures
        has_key(after_get(es, k), k),
        forall|i: int|
            0 <= i < es.len() && es[i].0 != k && has_key(put_all(after_get(es, k), cap, items), #[trigger] es[i].0)
                ==> has_key(put_all(after_get(es, k), cap, items), k),
{
    let g = after_get(es, k);
    let i0 = key_index(es, k);
    lemma_after_get_wf(es, k);
    assert(g[0] == es[i0]);
    assert forall|i: int| 0 <= i < items.len() implies !has_key(g, #[trigger] items[i].0) by {
        if has_key(g, items[i].0) {
            let j = choose|j: int| 0 <= j < g.len() && (#[trigger] g[j]).0 == items[i].0;
            let ij = if j == 0 { i0 } else if j - 1 < i0 { j - 1 } else { j };
            assert(g[j] == es[ij]);
        }
    }
    lemma_put_all_full(g, cap, items);
    let r = put_all(g, cap, items);
    assert(has_key(g, k)) by {
        assert(g[0].0 == k);
    }
    assert forall|i: int|
        0 <= i < es.len() && es[i].0 != k && has_key(r, #[trigger] es[i].0) implies has_key(r, k) by {
        let j = choose|j: int| 0 <= j < r.len() && (#[trigger] r[j]).0 == es[i].0;
        if j < items.len() {
            assert(r[j] == items.reverse()[j]);
            assert(!has_key(es, items[items.len() - 1 - j].0));
        } else {
            assert(r[j] == g[j - items.len()]);
            assert(j - items.len() < cap - items.len());
            assert(cap - items.len() > 0);
            assert(r[items.len() as int] == g[0]);
        }
    }
}

proof fn lemma_lookup_at(es: Seq<Entry>, i: int)
    requires
        keys_distinct(es),
        0 <= i < es.len(),
    ensures
        lookup(es, es[i].0) == Some(es[i].1),
{
    assert(has_key(es, es[i].0));
    let m = key_index(es, es[i].0);
    if m != i {
        assert(es[m].0 == es[i].0);
    }
}

/// The entry at position `i` is still there, unchanged, after `items` are
/// stored under other keys, as long as `i` plus their number stays below the
/// capacity.
pub proof fn lemma_entry_survives_stores(es: Seq<Entry>, cap: nat, i: int, items: Seq<Entry>)
    requires
        keys_distinct(es),
        es.len() <= cap,
        0 <= i < es.len(),
        i + items.len() < cap,
        forall|j: int| 0 <= j < items.len() ==> (#[trigger] items[j]).0 != es[i].0,
    ensures
        lookup(put_all(es, cap, items), es[i].0) == Some(es[i].1),
    decreases items.len(),
{
    if items.len() == 0 {
        lemma_lookup_at(es, i);
    } else {
        let x = items[0].0;
        let y = items[0].1;
        let next = after_put(es, cap, x, y);
        lemma_after_put_wf(es, cap, x, y);
        let ni: int = if has_key(es, x) {
            let m = key_index(es, x);
            assert(m != i);
            if i < m {
                assert(next[i + 1] == es.remove(m)[i]);
                i + 1
            } else {
                assert(next[i] == es.remove(m)[i - 1]);
                i
            }
        } else {
            assert(next[i + 1] == es[i]);
            i + 1
        };
        assert(next[ni] == es[i]);
        let rest = items.drop_first();
        assert forall|j: int| 0 <= j < rest.len() implies (#[trigger] rest[j]).0 != next[ni].0 by {
            assert(rest[j] == items[j + 1]);
        }
        lemma_entry_survives_stores(next, cap, ni, rest);
    }
}

/// A reply stored under `k` is what a lookup of `k` returns after fewer than
/// `cap` replies are stored under other keys.
pub proof fn lemma_stored_reply_outlives_other_stores(
    es: Seq<Entry>,
    cap: nat,
    k: Seq<char>,
    v: Seq<u8>,
    items: Seq<Entry>,
)
    requires
        keys_distinct(es),
        es.len() <= cap,
        cap > 0,
        items.len() < cap,
        forall|j: int| 0 <= j < items.len() ==> (#[trigger] items[j]).0 != k,
    ensures
        lookup(put_all(after_put(es, cap, k, v), cap, items), k) == Some(v),
{
    lemma_after_put_wf(es, cap, k, v);
    let s = after_put(es, cap, k, v);
    assert(s[0] == (k, v));
    lemma_entry_survives_stores(s, cap, 0, items);
}

} // verus!
