//! A bounded cache that forgets the least recently used entry.

use lru::LruCache;
use std::num::NonZeroUsize;
use vstd::prelude::*;

verus! {

/// `lru::LruCache`: a map that remembers in which order its entries were used.
#[verifier::external_type_specification]
#[verifier::external_body]
#[verifier::reject_recursive_types(K)]
#[verifier::reject_recursive_types(V)]
#[verifier::reject_recursive_types(S)]
pub struct ExLruCache<K, V, S>(LruCache<K, V, S>);

/// The hasher that `lru` takes where none is named.
#[verifier::external_type_specification]
#[verifier::external_body]
pub struct ExDefaultHasher(lru::DefaultHasher);

/// The entries of an index, the most recently used first.
pub uninterp spec fn lru_entries(index: LruCache<u128, usize>) -> Seq<(u128, usize)>;

/// How many entries an index holds at most.
pub uninterp spec fn lru_limit(index: LruCache<u128, usize>) -> nat;

/// Whether the entry of `key` stands at `i`.
pub open spec fn holds_at<K, T>(entries: Seq<(K, T)>, key: K, i: int) -> bool {
    0 <= i < entries.len() && entries[i].0 == key
}

/// Whether one of `entries` is that of `key`.
pub open spec fn has_key<K, T>(entries: Seq<(K, T)>, key: K) -> bool {
    exists|i: int| holds_at(entries, key, i)
}

/// The place of the entry of `key`, where there is one.
pub open spec fn place_of<K, T>(entries: Seq<(K, T)>, key: K) -> int {
    choose|i: int| holds_at(entries, key, i)
}

/// The value of `key`, where there is one.
pub open spec fn value_of<K, T>(entries: Seq<(K, T)>, key: K) -> Option<T> {
    if has_key(entries, key) {
        Some(entries[place_of(entries, key)].1)
    } else {
        None
    }
}

/// No two entries have the same key.
pub open spec fn distinct_keys<K, T>(entries: Seq<(K, T)>) -> bool {
    forall|i: int, j: int|
        0 <= i < j < entries.len() ==> (#[trigger] entries[i]).0 != (#[trigger] entries[j]).0
}

/// `entries` without the entry of `key`.
pub open spec fn without_key<K, T>(entries: Seq<(K, T)>, key: K) -> Seq<(K, T)> {
    if has_key(entries, key) {
        entries.remove(place_of(entries, key))
    } else {
        entries
    }
}

/// `entries` once `key` has been used: its entry comes first.
pub open spec fn touched<K, T>(entries: Seq<(K, T)>, key: K) -> Seq<(K, T)> {
    match value_of(entries, key) {
        Some(value) => seq![(key, value)] + without_key(entries, key),
        None => entries,
    }
}

/// `entries` once `value` has been stored under `key`, in a cache that holds
/// at most `limit` entries: a new entry displaces the last one of a full cache.
pub open spec fn stored<K, T>(
    entries: Seq<(K, T)>,
    limit: nat,
    key: K,
    value: T,
) -> Seq<(K, T)> {
    if !has_key(entries, key) && entries.len() == limit {
        seq![(key, value)] + entries.drop_last()
    } else {
        seq![(key, value)] + without_key(entries, key)
    }
}

/// `LruCache::new` makes an empty cache of the given capacity, and allocates
/// its table at once: a capacity whose table no address space holds is left
/// out, as is zero.
#[verifier::external_body]
fn lru_new(capacity: usize) -> (index: LruCache<u128, usize>)
    requires
        0 < capacity <= usize::MAX / 256,
    ensures
        lru_entries(index) == Seq::<(u128, usize)>::empty(),
        lru_limit(index) == capacity,
{
    LruCache::new(NonZeroUsize::new(capacity).expect("cache capacity is positive"))
}

/// `LruCache::get` returns the value of a key and moves its entry to the
/// front; for a key without an entry it changes nothing.
#[verifier::external_body]
fn lru_get(index: &mut LruCache<u128, usize>, key: u128) -> (slot: Option<usize>)
    ensures
        slot == value_of(lru_entries(*old(index)), key),
        lru_entries(*final(index)) == touched(lru_entries(*old(index)), key),
        lru_limit(*final(index)) == lru_limit(*old(index)),
{
    index.get(&key).copied()
}

/// `LruCache::push` stores a value under a key and moves its entry to the
/// front. It hands out the entry that had to go: the former one of the key,
/// or the last one of a full cache.
#[verifier::external_body]
fn lru_push(index: &mut LruCache<u128, usize>, key: u128, slot: usize) -> (gone: Option<
    (u128, usize),
>)
    ensures
        lru_entries(*final(index)) == stored(
            lru_entries(*old(index)),
            lru_limit(*old(index)),
            key,
            slot,
        ),
        lru_limit(*final(index)) == lru_limit(*old(index)),
        gone == (match value_of(lru_entries(*old(index)), key) {
            Some(former) => Some((key, former)),
            None => if lru_entries(*old(index)).len() == lru_limit(*old(index)) {
                Some(lru_entries(*old(index)).last())
            } else {
                None
            },
        }),
{
    index.push(key, slot)
}

/// `LruCache::pop` removes the entry of a key and returns its value; for a key
/// without an entry it changes nothing.
#[verifier::external_body]
fn lru_pop(index: &mut LruCache<u128, usize>, key: u128) -> (slot: Option<usize>)
    ensures
        slot == value_of(lru_entries(*old(index)), key),
        lru_entries(*final(index)) == without_key(lru_entries(*old(index)), key),
        lru_limit(*final(index)) == lru_limit(*old(index)),
{
    index.pop(&key)
}

/// A least-recently-used cache.
///
/// `capacity` is the maximum number of entries. Inserting a new entry at
/// capacity evicts the least recently used entry.
///
/// The keys and the order of use are kept by the index, which maps each key to
/// the slot of its value.
pub struct BoundedCache<V> {
    index: LruCache<u128, usize>,
    slots: Vec<Option<V>>,
}

impl<V> View for BoundedCache<V> {
    type V = Seq<(u128, V)>;

    /// The entries, the most recently used first.
    closed spec fn view(&self) -> Seq<(u128, V)> {
        lru_entries(self.index).map_values(
            |entry: (u128, usize)| (entry.0, self.slots@[entry.1 as int]->Some_0),
        )
    }
}

impl<V> BoundedCache<V> {
    /// The maximum number of entries.
    pub closed spec fn limit(&self) -> nat {
        lru_limit(self.index)
    }

    /// Each entry has a slot of its own that holds a value, no key occurs
    /// twice, and there are no more entries than the capacity.
    pub closed spec fn valid(&self) -> bool {
        let entries = lru_entries(self.index);
        &&& distinct_keys(entries)
        &&& 0 < self.limit()
        &&& entries.len() <= self.limit()
        &&& forall|i: int|
            0 <= i < entries.len() ==> (#[trigger] entries[i]).1 < self.slots@.len()
                && self.slots@[entries[i].1 as int] is Some
        &&& forall|i: int, j: int|
            0 <= i < j < entries.len() ==> (#[trigger] entries[i]).1 != (#[trigger] entries[j]).1
    }

    /// A valid cache never holds more entries than its capacity, and no key
    /// twice.
    pub proof fn bounded(&self)
        requires
            self.valid(),
        ensures
            0 < self.limit(),
            self@.len() <= self.limit(),
            distinct_keys(self@),
    {
    }

    /// Creates an empty cache that holds at most `capacity` entries.
    pub fn new(capacity: usize) -> (cache: Self)
        requires
            0 < capacity <= usize::MAX / 256,
        ensures
            cache.valid(),
            cache@ == Seq::<(u128, V)>::empty(),
            cache.limit() == capacity,
    {
        let cache = BoundedCache { index: lru_new(capacity), slots: Vec::new() };
        assert(cache@ =~= Seq::<(u128, V)>::empty());
        cache
    }

    /// The value of `key`, whose entry becomes the most recently used.
    ///
    /// Returns `None` without modifying the cache when `key` is absent.
    pub fn get(&mut self, key: &u128) -> (value: Option<V>) where V: Clone
        requires
            old(self).valid(),
        ensures
            final(self).valid(),
            final(self).limit() == old(self).limit(),
            final(self)@ == touched(old(self)@, *key),
            (match value {
                Some(copy) => has_key(old(self)@, *key) && cloned(
                    value_of(old(self)@, *key)->Some_0,
                    copy,
                ),
                None => !has_key(old(self)@, *key),
            }),
    {
        match self.get_mut(key) {
            Some(value) => Some(value.clone()),
            None => None,
        }
    }

    /// The value of `key`, to be changed in place; its entry becomes the most
    /// recently used.
    pub fn get_mut(&mut self, key: &u128) -> (value: Option<&mut V>)
        requires
            old(self).valid(),
        ensures
            final(self).valid(),
            final(self).limit() == old(self).limit(),
            (match value {
                Some(place) => has_key(old(self)@, *key) && *place == value_of(
                    old(self)@,
                    *key,
                )->Some_0 && final(self)@ == touched(old(self)@, *key).update(
                    0,
                    (*key, *final(place)),
                ),
                None => !has_key(old(self)@, *key) && final(self)@ == old(self)@,
            }),
    {
        let ghost before = lru_entries(self.index);
        let ghost shown = self@;
        proof {
            lemma_same_keys(before, shown, *key);
        }
        match lru_get(&mut self.index, *key) {
            Some(slot) => {
                proof {
                    lemma_touched(before, *key);
                    assert(self@ =~= touched(shown, *key));
                }
                self.slots[slot].as_mut()
            },
            None => None,
        }
    }

    /// A slot that no entry uses.
    fn free_slot(&mut self) -> (slot: usize)
        requires
            old(self).valid(),
        ensures
            final(self).valid(),
            final(self)@ == old(self)@,
            final(self).index == old(self).index,
            slot < final(self).slots@.len(),
            final(self).slots@[slot as int] is None,
    {
        let mut slot: usize = 0;
        while slot < self.slots.len()
            invariant
                slot <= self.slots@.len(),
                *self == *old(self),
                self.valid(),
            decreases self.slots@.len() - slot,
        {
            if self.slots[slot].is_none() {
                return slot;
            }
            slot += 1;
        }
        self.slots.push(None);
        assert(self@ =~= old(self)@);
        slot
    }

    /// Inserts an entry and returns the key whose entry it displaced, where
    /// that is another key.
    pub fn insert_evicting(&mut self, key: u128, value: V) -> (gone: Option<u128>)
        requires
            old(self).valid(),
        ensures
            final(self).valid(),
            final(self).limit() == old(self).limit(),
            final(self)@ == stored(old(self)@, old(self).limit(), key, value),
            gone == (if !has_key(old(self)@, key) && old(self)@.len() == old(self).limit() {
                Some(old(self)@.last().0)
            } else {
                None
            }),
    {
        let slot = self.free_slot();
        let ghost before = lru_entries(self.index);
        let ghost shown = self@;
        proof {
            lemma_same_keys(before, shown, key);
            lemma_stored(before, self.limit(), key, slot);
            lemma_stored(shown, self.limit(), key, value);
            assert(!has_key(before, key) ==> !holds_at(before, key, before.len() - 1));
        }
        self.slots.set(slot, Some(value));
        let displaced = lru_push(&mut self.index, key, slot);
        let gone = match displaced {
            Some((former, old_slot)) => {
                self.slots.set(old_slot, None);
                if former == key {
                    None
                } else {
                    Some(former)
                }
            },
            None => None,
        };
        assert(self@ =~= stored(shown, self.limit(), key, value));
        gone
    }

    /// Inserts an entry and marks it as most recently used.
    ///
    /// If `key` already exists, its value is replaced without changing the
    /// number of entries or evicting another entry. If `key` is new and the
    /// cache is at capacity, the least recently used entry is evicted first.
    pub fn insert(&mut self, key: u128, value: V)
        requires
            old(self).valid(),
        ensures
            final(self).valid(),
            final(self).limit() == old(self).limit(),
            final(self)@ == stored(old(self)@, old(self).limit(), key, value),
    {
        let _ = self.insert_evicting(key, value);
    }

    /// Returns the existing value, or inserts a newly created one and returns
    /// that.
    pub fn get_or_insert_with<F: FnOnce() -> V>(&mut self, key: u128, create: F) -> (value: V)
        where V: Clone
        requires
            old(self).valid(),
            create.requires(()),
        ensures
            final(self).valid(),
            final(self).limit() == old(self).limit(),
            has_key(old(self)@, key) ==> {
                &&& final(self)@ == touched(old(self)@, key)
                &&& cloned(value_of(old(self)@, key)->Some_0, value)
            },
            !has_key(old(self)@, key) ==> {
                &&& create.ensures((), value)
                &&& exists|copy: V| #[trigger]
                    cloned(value, copy) && final(self)@ == stored(
                        old(self)@,
                        old(self).limit(),
                        key,
                        copy,
                    )
            },
    {
        if let Some(value) = self.get(&key) {
            return value;
        }
        let value = create();
        let copy = value.clone();
        self.insert(key, copy);
        assert(cloned(value, copy));
        value
    }

    /// Removes `key` when present.
    ///
    /// This is a no-op when `key` does not exist.
    pub fn remove(&mut self, key: &u128)
        requires
            old(self).valid(),
        ensures
            final(self).valid(),
            final(self).limit() == old(self).limit(),
            final(self)@ == without_key(old(self)@, *key),
    {
        let ghost before = lru_entries(self.index);
        let ghost shown = self@;
        proof {
            lemma_same_keys(before, shown, *key);
        }
        if let Some(slot) = lru_pop(&mut self.index, *key) {
            self.slots.set(slot, None);
        }
        assert(self@ =~= without_key(shown, *key));
    }
}

/// Storing puts the entry first; what follows keeps its order.
proof fn lemma_stored<K, T>(entries: Seq<(K, T)>, limit: nat, key: K, value: T)
    requires
        distinct_keys(entries),
        0 < limit,
        entries.len() <= limit,
    ensures
        stored(entries, limit, key, value).len() <= limit,
        distinct_keys(stored(entries, limit, key, value)),
{
    let after = stored(entries, limit, key, value);
    if has_key(entries, key) {
        let i = place_of(entries, key);
        assert(holds_at(entries, key, i));
        assert forall|j: int| 0 < j < after.len() implies (#[trigger] after[j]).0 != key by {
            assert(after[j] == entries.remove(i)[j - 1]);
        }
    } else {
        assert forall|j: int| 0 < j < after.len() implies (#[trigger] after[j]).0 != key by {
            assert(after[j] == entries[j - 1]);
            assert(!holds_at(entries, key, j - 1));
        }
    }
}

/// Two lists with the same keys in the same places, none twice, have the entry
/// of a key in the same place.
proof fn lemma_same_keys<K, S, T>(left: Seq<(K, S)>, right: Seq<(K, T)>, key: K)
    requires
        left.len() == right.len(),
        distinct_keys(left),
        forall|i: int| 0 <= i < left.len() ==> (#[trigger] left[i]).0 == (#[trigger] right[i]).0,
    ensures
        distinct_keys(right),
        has_key(left, key) == has_key(right, key),
        has_key(left, key) ==> place_of(left, key) == place_of(right, key) && holds_at(
            left,
            key,
            place_of(left, key),
        ),
{
    assert forall|i: int, j: int| 0 <= i < j < right.len() implies (#[trigger] right[i]).0 != (
    #[trigger] right[j]).0 by {
        assert(left[i].0 == right[i].0);
        assert(left[j].0 == right[j].0);
    }
    if has_key(left, key) {
        let i = place_of(left, key);
        assert(holds_at(right, key, i));
    }
    if has_key(right, key) {
        let i = place_of(right, key);
        assert(holds_at(left, key, i));
    }
}

/// Using a key moves its entry to the front and keeps the others in order.
proof fn lemma_touched<K, T>(entries: Seq<(K, T)>, key: K)
    requires
        distinct_keys(entries),
        has_key(entries, key),
    ensures
        touched(entries, key).len() == entries.len(),
        distinct_keys(touched(entries, key)),
        forall|j: int|
            0 < j < entries.len() ==> #[trigger] touched(entries, key)[j] == (if j
                <= place_of(entries, key) {
                entries[j - 1]
            } else {
                entries[j]
            }),
        touched(entries, key)[0] == entries[place_of(entries, key)],
{
    let i = place_of(entries, key);
    assert(holds_at(entries, key, i));
    let after = touched(entries, key);
    assert(after.len() == entries.len());
    assert forall|j: int| 0 < j < entries.len() implies #[trigger] after[j] == (if j <= i {
        entries[j - 1]
    } else {
        entries[j]
    }) by {
        assert(after[j] == entries.remove(i)[j - 1]);
    }
}

/// A list without double keys has the entry of a key in one place only.
pub proof fn lemma_place<K, T>(entries: Seq<(K, T)>, key: K, i: int)
    requires
        distinct_keys(entries),
        holds_at(entries, key, i),
    ensures
        has_key(entries, key),
        place_of(entries, key) == i,
        value_of(entries, key) == Some(entries[i].1),
{
    let j = place_of(entries, key);
    assert(holds_at(entries, key, j));
}

/// Where the entry of another key stands once `key` has been removed.
proof fn lemma_without_key<K, T>(entries: Seq<(K, T)>, key: K)
    requires
        distinct_keys(entries),
    ensures
        distinct_keys(without_key(entries, key)),
        !has_key(without_key(entries, key), key),
        forall|other: K|
            other != key ==> #[trigger] value_of(without_key(entries, key), other) == value_of(
                entries,
                other,
            ),
        has_key(entries, key) ==> without_key(entries, key).len() == entries.len() - 1,
{
    let after = without_key(entries, key);
    if has_key(entries, key) {
        let i = place_of(entries, key);
        assert(holds_at(entries, key, i));
        if has_key(after, key) {
            let j = place_of(after, key);
            assert(holds_at(after, key, j));
            assert(after[j] == if j < i { entries[j] } else { entries[j + 1] });
        }
        assert forall|other: K| other != key implies #[trigger] value_of(after, other)
            == value_of(entries, other) by {
            if has_key(entries, other) {
                let j = place_of(entries, other);
                assert(holds_at(entries, other, j));
                lemma_place(after, other, if j < i { j } else { j - 1 });
            } else if has_key(after, other) {
                let j = place_of(after, other);
                assert(holds_at(after, other, j));
                assert(holds_at(entries, other, if j < i { j } else { j + 1 }));
            }
        }
    }
}

/// A removed key has no value any more; every other key keeps its value.
pub proof fn removal_is_local<K, T>(entries: Seq<(K, T)>, key: K, other: K)
    requires
        distinct_keys(entries),
    ensures
        value_of(without_key(entries, key), key) is None,
        other != key ==> value_of(without_key(entries, key), other) == value_of(entries, other),
{
    lemma_without_key(entries, key);
}

/// Looking a key up changes no value and no number of entries; it makes the
/// key the most recently used.
pub proof fn lookup_keeps_values<K, T>(entries: Seq<(K, T)>, key: K, other: K)
    requires
        distinct_keys(entries),
    ensures
        value_of(touched(entries, key), other) == value_of(entries, other),
        touched(entries, key).len() == entries.len(),
        has_key(entries, key) ==> touched(entries, key)[0].0 == key,
        distinct_keys(touched(entries, key)),
{
    if has_key(entries, key) {
        let rest = without_key(entries, key);
        let value = value_of(entries, key)->Some_0;
        lemma_without_key(entries, key);
        lemma_front(rest, key, value, other);
    }
}

/// Looking up in a list that starts with the entry of `key`.
proof fn lemma_front<K, T>(rest: Seq<(K, T)>, key: K, value: T, other: K)
    requires
        distinct_keys(rest),
        !has_key(rest, key),
    ensures
        distinct_keys(seq![(key, value)] + rest),
        value_of(seq![(key, value)] + rest, other) == (if other == key {
            Some(value)
        } else {
            value_of(rest, other)
        }),
{
    let all = seq![(key, value)] + rest;
    assert forall|j: int| 0 < j < all.len() implies (#[trigger] all[j]).0 != key by {
        assert(!holds_at(rest, key, j - 1));
    }
    assert(distinct_keys(all));
    if other == key {
        lemma_place(all, key, 0);
    } else if has_key(rest, other) {
        let j = place_of(rest, other);
        assert(holds_at(rest, other, j));
        lemma_place(all, other, j + 1);
    } else if has_key(all, other) {
        let j = place_of(all, other);
        assert(holds_at(all, other, j));
        assert(holds_at(rest, other, j - 1));
    }
}

/// A stored value is what a lookup gives back, and it is the most recently
/// used. Every other key keeps its value but one: where the key is new and the
/// cache is full, the least recently used one is gone.
pub proof fn store_is_read_back<K, T>(
    entries: Seq<(K, T)>,
    limit: nat,
    key: K,
    value: T,
    other: K,
)
    requires
        distinct_keys(entries),
        0 < limit,
        entries.len() <= limit,
    ensures
        value_of(stored(entries, limit, key, value), key) == Some(value),
        stored(entries, limit, key, value)[0] == (key, value),
        stored(entries, limit, key, value).len() == (if has_key(entries, key) || entries.len()
            == limit {
            entries.len()
        } else {
            entries.len() + 1
        }),
        other != key ==> value_of(stored(entries, limit, key, value), other) == (if !has_key(
            entries,
            key,
        ) && entries.len() == limit && entries.last().0 == other {
            None
        } else {
            value_of(entries, other)
        }),
{
    lemma_without_key(entries, key);
    if !has_key(entries, key) && entries.len() == limit {
        let last = entries.last().0;
        assert(holds_at(entries, last, entries.len() - 1));
        lemma_place(entries, last, entries.len() - 1);
        assert(without_key(entries, last) =~= entries.drop_last());
        lemma_without_key(entries, last);
        if has_key(entries.drop_last(), key) {
            let j = place_of(entries.drop_last(), key);
            assert(holds_at(entries, key, j));
        }
        lemma_front(entries.drop_last(), key, value, key);
        lemma_front(entries.drop_last(), key, value, other);
    } else {
        lemma_front(without_key(entries, key), key, value, key);
        lemma_front(without_key(entries, key), key, value, other);
    }
}

/// `entries` once all of `news` have been stored, one after the other.
pub open spec fn stored_all<K, T>(
    entries: Seq<(K, T)>,
    limit: nat,
    news: Seq<(K, T)>,
) -> Seq<(K, T)>
    decreases news.len(),
{
    if news.len() == 0 {
        entries
    } else {
        let before = stored_all(entries, limit, news.drop_last());
        stored(before, limit, news.last().0, news.last().1)
    }
}

/// Storing another key moves an entry back by at most one place.
proof fn lemma_moves_back<K, T>(entries: Seq<(K, T)>, limit: nat, new: (K, T), i: int)
    requires
        distinct_keys(entries),
        entries.len() <= limit,
        0 <= i < entries.len(),
        i + 1 < limit,
        entries[i].0 != new.0,
    ensures
        ({
            let after = stored(entries, limit, new.0, new.1);
            ||| i + 1 < after.len() && after[i + 1] == entries[i]
            ||| i < after.len() && after[i] == entries[i]
        }),
{
    let after = stored(entries, limit, new.0, new.1);
    if has_key(entries, new.0) {
        let j = place_of(entries, new.0);
        assert(holds_at(entries, new.0, j));
        if i < j {
            assert(after[i + 1] == entries[i]);
        } else {
            assert(after[i] == entries[i]);
        }
    } else if entries.len() == limit {
        assert(after[i + 1] == entries[i]);
    } else {
        assert(after[i + 1] == entries[i]);
    }
}

/// An entry that was just used outlives fewer stores of other keys than the
/// cache holds entries.
pub proof fn recently_used_survives<K, T>(
    entries: Seq<(K, T)>,
    limit: nat,
    key: K,
    news: Seq<(K, T)>,
)
    requires
        distinct_keys(entries),
        entries.len() <= limit,
        has_key(entries, key),
        news.len() < limit,
        forall|i: int| 0 <= i < news.len() ==> (#[trigger] news[i]).0 != key,
    ensures
        value_of(stored_all(touched(entries, key), limit, news), key) == value_of(entries, key),
{
    lemma_touched(entries, key);
    lookup_keeps_values(entries, key, key);
    lemma_survives(touched(entries, key), limit, key, news);
    let after = stored_all(touched(entries, key), limit, news);
    let i = choose|i: int| 0 <= i <= news.len() && i < after.len() && after[i] == touched(entries, key)[0];
    lemma_place(after, key, i);
}

proof fn lemma_survives<K, T>(entries: Seq<(K, T)>, limit: nat, key: K, news: Seq<(K, T)>)
    requires
        distinct_keys(entries),
        0 < entries.len() <= limit,
        entries[0].0 == key,
        news.len() < limit,
        forall|i: int| 0 <= i < news.len() ==> (#[trigger] news[i]).0 != key,
    ensures
        distinct_keys(stored_all(entries, limit, news)),
        stored_all(entries, limit, news).len() <= limit,
        exists|i: int|
            0 <= i <= news.len() && i < stored_all(entries, limit, news).len()
                && #[trigger] stored_all(entries, limit, news)[i] == entries[0],
    decreases news.len(),
{
    if news.len() > 0 {
        let before = stored_all(entries, limit, news.drop_last());
        lemma_survives(entries, limit, key, news.drop_last());
        let i = choose|i: int|
            0 <= i < news.len() && i < before.len() && #[trigger] before[i] == entries[0];
        lemma_stored(before, limit, news.last().0, news.last().1);
        lemma_moves_back(before, limit, news.last(), i);
        let after = stored_all(entries, limit, news);
        assert((i + 1 < after.len() && after[i + 1] == entries[0]) || (i < after.len() && after[i]
            == entries[0]));
    } else {
        assert(stored_all(entries, limit, news)[0] == entries[0]);
    }
}

/// Using, storing or removing one key leaves the others in the order in which they
/// were used: what was used more recently stays before what was not.
pub proof fn the_order_of_use_is_kept<K, T>(
    entries: Seq<(K, T)>,
    limit: nat,
    key: K,
    value: T,
    newer: K,
    older: K,
)
    requires
        distinct_keys(entries),
        0 < limit,
        entries.len() <= limit,
        newer != key,
        older != key,
        has_key(entries, newer),
        has_key(entries, older),
        place_of(entries, newer) < place_of(entries, older),
    ensures
        place_of(without_key(entries, key), newer) < place_of(without_key(entries, key), older),
        place_of(touched(entries, key), newer) < place_of(touched(entries, key), older),
        has_key(stored(entries, limit, key, value), older) ==> place_of(
            stored(entries, limit, key, value),
            newer,
        ) < place_of(stored(entries, limit, key, value), older),
{
    let i = place_of(entries, newer);
    let j = place_of(entries, older);
    assert(holds_at(entries, newer, i));
    assert(holds_at(entries, older, j));
    lemma_without_key(entries, key);
    let rest = without_key(entries, key);
    let at = place_of(entries, key);
    let (a, b) = if has_key(entries, key) {
        assert(holds_at(entries, key, at));
        (if i < at { i } else { i - 1 }, if j < at { j } else { j - 1 })
    } else {
        (i, j)
    };
    assert(holds_at(rest, newer, a));
    assert(holds_at(rest, older, b));
    lemma_place(rest, newer, a);
    lemma_place(rest, older, b);
    let front = seq![(key, value)] + rest;
    lemma_places_behind(rest, (key, value), newer, a);
    lemma_places_behind(rest, (key, value), older, b);
    if has_key(entries, key) {
        let kept = value_of(entries, key)->Some_0;
        lemma_places_behind(rest, (key, kept), newer, a);
        lemma_places_behind(rest, (key, kept), older, b);
    }
    if !has_key(entries, key) && entries.len() == limit {
        let shorter = entries.drop_last();
        let after = seq![(key, value)] + shorter;
        if has_key(after, older) {
            let k = place_of(after, older);
            assert(holds_at(after, older, k));
            assert(k > 0 && holds_at(shorter, older, k - 1));
            assert(entries[k - 1] == shorter[k - 1]);
            assert(k - 1 == j);
            assert(distinct_keys(shorter)) by {
                assert forall|x: int, y: int| 0 <= x < y < shorter.len() implies (
                #[trigger] shorter[x]).0 != (#[trigger] shorter[y]).0 by {
                    assert(entries[x].0 != entries[y].0);
                }
            }
            assert(!has_key(shorter, key)) by {
                if has_key(shorter, key) {
                    let x = place_of(shorter, key);
                    assert(holds_at(shorter, key, x));
                    assert(holds_at(entries, key, x));
                }
            }
            assert(holds_at(shorter, newer, i));
            lemma_places_behind(shorter, (key, value), newer, i);
            lemma_places_behind(shorter, (key, value), older, j);
        }
    }
}

/// An entry at the front moves the others back by one.
proof fn lemma_places_behind<K, T>(entries: Seq<(K, T)>, first: (K, T), key: K, i: int)
    requires
        distinct_keys(entries),
        !has_key(entries, first.0),
        holds_at(entries, key, i),
        key != first.0,
    ensures
        place_of(seq![first] + entries, key) == i + 1,
{
    let all = seq![first] + entries;
    assert(distinct_keys(all)) by {
        assert forall|x: int, y: int| 0 <= x < y < all.len() implies (#[trigger] all[x]).0 != (
        #[trigger] all[y]).0 by {
            assert(all[y] == entries[y - 1]);
            if x > 0 {
                assert(all[x] == entries[x - 1]);
            } else {
                if all[y].0 == first.0 {
                    assert(holds_at(entries, first.0, y - 1));
                }
            }
        }
    }
    assert(all[i + 1] == entries[i]);
    assert(holds_at(all, key, i + 1));
    lemma_place(all, key, i + 1);
}

} // verus!
