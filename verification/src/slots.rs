//! Slots for blob lists that have been read: a bounded number of them, each for
//! one row of one column of one connection.

use vstd::prelude::*;

use crate::cache::{
    distinct_keys, has_key, holds_at, lemma_place, place_of, stored, touched, value_of,
    BoundedCache,
};
use crate::text::same_text;

verus! {

/// Whose blobs a slot is for: the connection's own number, the column, and the
/// address of the row.
#[derive(Debug)]
pub struct BlobKey {
    pub namespace: u128,
    pub column: String,
    pub row_address: u64,
}

/// What a key holds.
pub open spec fn key_view(key: BlobKey) -> (u128, Seq<char>, u64) {
    (key.namespace, key.column@, key.row_address)
}

/// The key with this number.
pub open spec fn key_at(keys: Seq<Option<BlobKey>>, id: u128) -> (u128, Seq<char>, u64) {
    key_view(keys[id as int]->0)
}

/// Entries under the keys that their numbers stand for.
pub open spec fn under_keys<B>(entries: Seq<(u128, B)>, keys: Seq<Option<BlobKey>>) -> Seq<
    ((u128, Seq<char>, u64), B),
> {
    entries.map_values(|entry: (u128, B)| (key_at(keys, entry.0), entry.1))
}

/// A bounded number of slots; the one that was used least recently makes room
/// for a new one.
pub struct BlobSlots<B> {
    cache: BoundedCache<B>,
    keys: Vec<Option<BlobKey>>,
}

impl<B> View for BlobSlots<B> {
    type V = Seq<((u128, Seq<char>, u64), B)>;

    /// The slots, the most recently used first.
    closed spec fn view(&self) -> Seq<((u128, Seq<char>, u64), B)> {
        under_keys(self.cache@, self.keys@)
    }
}

impl<B> BlobSlots<B> {
    /// The maximum number of slots.
    pub closed spec fn limit(&self) -> nat {
        self.cache.limit()
    }

    /// Each slot has a key, no two the same, and only keys of slots are kept.
    pub closed spec fn valid(&self) -> bool {
        let entries = self.cache@;
        let keys = self.keys@;
        &&& self.cache.valid()
        &&& forall|i: int|
            0 <= i < entries.len() ==> (#[trigger] entries[i]).0 < keys.len()
                && keys[entries[i].0 as int] is Some
        &&& forall|id: int|
            0 <= id < keys.len() && (#[trigger] keys[id]) is Some ==> has_key(entries, id as u128)
        &&& forall|a: int, b: int|
            0 <= a < b < keys.len() && (#[trigger] keys[a]) is Some && (#[trigger] keys[b]) is Some
                ==> key_view(keys[a]->0) != key_view(keys[b]->0)
    }

    /// No slots, and room for `capacity`.
    pub fn new(capacity: usize) -> (slots: Self)
        requires
            0 < capacity <= usize::MAX / 256,
        ensures
            slots.valid(),
            slots@ == Seq::<((u128, Seq<char>, u64), B)>::empty(),
            slots.limit() == capacity,
    {
        let slots = BlobSlots { cache: BoundedCache::new(capacity), keys: Vec::new() };
        assert(slots@ =~= Seq::<((u128, Seq<char>, u64), B)>::empty());
        slots
    }

    /// Slots are bounded, and each is for another row.
    pub proof fn bounded(&self)
        requires
            self.valid(),
        ensures
            self@.len() <= self.limit(),
            distinct_keys(self@),
    {
        self.cache.bounded();
        lemma_keys_stay_distinct(self.cache@, self.keys@);
    }

    /// The number of a key.
    fn find(&self, namespace: u128, column: &str, row_address: u64) -> (found: Option<usize>)
        requires
            self.valid(),
        ensures
            (match found {
                Some(id) => {
                    &&& id < self.keys@.len()
                    &&& self.keys@[id as int] is Some
                    &&& key_view(self.keys@[id as int]->0) == (namespace, column@, row_address)
                },
                None => forall|id: int|
                    0 <= id < self.keys@.len() && (#[trigger] self.keys@[id]) is Some ==> key_view(
                        self.keys@[id]->0,
                    ) != (namespace, column@, row_address),
            }),
    {
        let mut i: usize = 0;
        while i < self.keys.len()
            invariant
                i <= self.keys@.len(),
                forall|id: int|
                    0 <= id < i && (#[trigger] self.keys@[id]) is Some ==> key_view(
                        self.keys@[id]->0,
                    ) != (namespace, column@, row_address),
            decreases self.keys@.len() - i,
        {
            if let Some(key) = &self.keys[i] {
                if key.namespace == namespace && key.row_address == row_address && same_text(
                    key.column.as_str(),
                    column,
                ) {
                    return Some(i);
                }
            }
            i += 1;
        }
        None
    }

    /// A number that stands for no key.
    fn free_number(&mut self) -> (id: usize)
        requires
            old(self).valid(),
        ensures
            final(self).valid(),
            final(self).cache == old(self).cache,
            final(self)@ == old(self)@,
            id < final(self).keys@.len(),
            final(self).keys@[id as int] is None,
            forall|k: int|
                0 <= k < final(self).keys@.len() && (#[trigger] final(self).keys@[k]) is Some ==> k
                    < old(self).keys@.len() && final(self).keys@[k] == old(self).keys@[k],
    {
        let mut i: usize = 0;
        while i < self.keys.len()
            invariant
                i <= self.keys@.len(),
                *self == *old(self),
                self.valid(),
            decreases self.keys@.len() - i,
        {
            if self.keys[i].is_none() {
                return i;
            }
            i += 1;
        }
        let ghost before = self.keys@;
        self.keys.push(None);
        assert(self@ =~= under_keys(self.cache@, before));
        i
    }

    /// The slot for a row of a column, which becomes the most recently used;
    /// one is made where there is none.
    pub fn slot<F: FnOnce() -> B>(
        &mut self,
        namespace: u128,
        column: &str,
        row_address: u64,
        create: F,
    ) -> (value: B) where B: Clone
        requires
            old(self).valid(),
            create.requires(()),
        ensures
            final(self).valid(),
            final(self).limit() == old(self).limit(),
            has_key(old(self)@, (namespace, column@, row_address)) ==> {
                &&& final(self)@ == touched(old(self)@, (namespace, column@, row_address))
                &&& cloned(value_of(old(self)@, (namespace, column@, row_address))->Some_0, value)
            },
            !has_key(old(self)@, (namespace, column@, row_address)) ==> {
                &&& create.ensures((), value)
                &&& exists|copy: B| #[trigger]
                    cloned(value, copy) && final(self)@ == stored(
                        old(self)@,
                        old(self).limit(),
                        (namespace, column@, row_address),
                        copy,
                    )
            },
    {
        let ghost key = (namespace, column@, row_address);
        let ghost shown = self@;
        proof {
            self.cache.bounded();
        }
        match self.find(namespace, column, row_address) {
            Some(id) => {
                let number: u128 = id as u128;
                let ghost entries = self.cache@;
                let ghost keys = self.keys@;
                proof {
                    assert(has_key(entries, number));
                    lemma_touched_under_keys(entries, keys, number);
                    assert(key_at(keys, number) == key);
                }
                match self.cache.get(&number) {
                    Some(value) => {
                        proof {
                            assert(self@ =~= touched(shown, key));
                            lemma_touched_members(entries, number);
                            assert forall|i: int| 0 <= i < self.cache@.len() implies (
                            #[trigger] self.cache@[i]).0 < keys.len()
                                && keys[self.cache@[i].0 as int] is Some by {
                                let e = self.cache@[i];
                                assert(has_key(entries, e.0)) by {
                                    assert(holds_at(self.cache@, e.0, i));
                                }
                                let j = place_of(entries, e.0);
                                assert(holds_at(entries, e.0, j));
                            }
                        }
                        value
                    },
                    None => {
                        assert(false);
                        create()
                    },
                }
            },
            None => {
                proof {
                    assert(!has_key(shown, key)) by {
                        if has_key(shown, key) {
                            let i = place_of(shown, key);
                            assert(holds_at(shown, key, i));
                            let e = self.cache@[i];
                            assert(key_view(self.keys@[e.0 as int]->0) == key);
                        }
                    }
                }
                let id: usize = self.free_number();
                let number: u128 = id as u128;
                let count: usize = self.keys.len();
                let ghost entries = self.cache@;
                let ghost keys = self.keys@;
                let ghost limit = self.cache.limit();
                proof {
                    assert(!has_key(entries, number)) by {
                        if has_key(entries, number) {
                            let i = place_of(entries, number);
                            assert(holds_at(entries, number, i));
                        }
                    }
                }
                let value = create();
                let copy = value.clone();
                assert(cloned(value, copy));
                let gone = self.cache.insert_evicting(number, copy);
                let ghost now = self.cache@;
                if let Some(old_number) = gone {
                    proof {
                        let last = entries.len() - 1;
                        assert(entries[last].0 == old_number);
                        assert(old_number < count);
                    }
                    self.keys.set(old_number as usize, None);
                }
                self.keys.set(
                    id,
                    Some(BlobKey { namespace, column: column.to_owned(), row_address }),
                );
                proof {
                    let after = self.keys@;
                    let rest = if gone is Some {
                        entries.drop_last()
                    } else {
                        entries
                    };
                    assert(now =~= seq![(number, copy)] + rest);
                    assert forall|i: int| 0 <= i < rest.len() implies (#[trigger] rest[i]).0
                        < after.len() && after[rest[i].0 as int] == keys[rest[i].0 as int]
                        && keys[rest[i].0 as int] is Some by {
                        assert(rest[i] == entries[i]);
                        if gone is Some {
                            let last = entries.len() - 1;
                            assert(entries[i].0 != entries[last].0);
                        }
                        assert(entries[i].0 != number) by {
                            if entries[i].0 == number {
                                assert(holds_at(entries, number, i));
                            }
                        }
                    }
                    let old_view = under_keys(entries, keys);
                    assert(shown =~= old_view);
                    assert(self@ =~= seq![(key, copy)] + under_keys(rest, keys));
                    if gone is Some {
                        assert(under_keys(rest, keys) =~= old_view.drop_last());
                    }
                    assert(self@ =~= stored(shown, limit, key, copy));
                    assert forall|i: int| 0 <= i < now.len() implies (#[trigger] now[i]).0
                        < after.len() && after[now[i].0 as int] is Some by {
                        if i > 0 {
                            assert(now[i] == rest[i - 1]);
                        }
                    }
                    assert forall|k: int|
                        0 <= k < after.len() && (#[trigger] after[k]) is Some implies has_key(
                        now,
                        k as u128,
                    ) by {
                        if k == id {
                            assert(holds_at(now, number, 0));
                        } else {
                            assert(keys[k] is Some);
                            assert(has_key(entries, k as u128));
                            let j = place_of(entries, k as u128);
                            assert(holds_at(entries, k as u128, j));
                            if gone is Some {
                                assert(j != entries.len() - 1);
                            }
                            assert(rest[j] == entries[j]);
                            assert(now[j + 1] == rest[j]);
                            assert(holds_at(now, k as u128, j + 1));
                        }
                    }
                    assert forall|a: int, b: int|
                        0 <= a < b < after.len() && (#[trigger] after[a]) is Some && (
                        #[trigger] after[b]) is Some implies key_view(after[a]->0) != key_view(
                        after[b]->0,
                    ) by {
                        if a != id {
                            assert(keys[a] is Some && keys[a] == after[a]);
                        }
                        if b != id {
                            assert(keys[b] is Some && keys[b] == after[b]);
                        }
                    }
                }
                value
            },
        }
    }
}

/// Different numbers stand for different keys, so that entries under keys are as
/// distinct as under numbers.
proof fn lemma_keys_stay_distinct<B>(entries: Seq<(u128, B)>, keys: Seq<Option<BlobKey>>)
    requires
        distinct_keys(entries),
        forall|i: int|
            0 <= i < entries.len() ==> (#[trigger] entries[i]).0 < keys.len()
                && keys[entries[i].0 as int] is Some,
        forall|a: int, b: int|
            0 <= a < b < keys.len() && (#[trigger] keys[a]) is Some && (#[trigger] keys[b]) is Some
                ==> key_view(keys[a]->0) != key_view(keys[b]->0),
    ensures
        distinct_keys(under_keys(entries, keys)),
{
    let shown = under_keys(entries, keys);
    assert forall|i: int, j: int| 0 <= i < j < shown.len() implies (#[trigger] shown[i]).0 != (
    #[trigger] shown[j]).0 by {
        let a = entries[i].0 as int;
        let b = entries[j].0 as int;
        assert(a != b);
        assert(keys[a] is Some && keys[b] is Some);
        if a < b {
            assert(key_view(keys[a]->0) != key_view(keys[b]->0));
        } else {
            assert(key_view(keys[b]->0) != key_view(keys[a]->0));
        }
    }
}

/// Using an entry under its number is using it under its key.
proof fn lemma_touched_under_keys<B>(
    entries: Seq<(u128, B)>,
    keys: Seq<Option<BlobKey>>,
    number: u128,
)
    requires
        distinct_keys(entries),
        has_key(entries, number),
        forall|i: int|
            0 <= i < entries.len() ==> (#[trigger] entries[i]).0 < keys.len()
                && keys[entries[i].0 as int] is Some,
        forall|a: int, b: int|
            0 <= a < b < keys.len() && (#[trigger] keys[a]) is Some && (#[trigger] keys[b]) is Some
                ==> key_view(keys[a]->0) != key_view(keys[b]->0),
    ensures
        has_key(under_keys(entries, keys), key_at(keys, number)),
        value_of(under_keys(entries, keys), key_at(keys, number)) == value_of(entries, number),
        under_keys(touched(entries, number), keys) == touched(
            under_keys(entries, keys),
            key_at(keys, number),
        ),
{
    let shown = under_keys(entries, keys);
    let key = key_at(keys, number);
    let i = place_of(entries, number);
    assert(holds_at(entries, number, i));
    lemma_keys_stay_distinct(entries, keys);
    assert(holds_at(shown, key, i));
    lemma_place(shown, key, i);
    assert(under_keys(touched(entries, number), keys) =~= touched(shown, key));
}

/// Using an entry keeps the keys that there are.
proof fn lemma_touched_members<B>(entries: Seq<(u128, B)>, number: u128)
    requires
        distinct_keys(entries),
        has_key(entries, number),
    ensures
        forall|key: u128| #[trigger]
            has_key(touched(entries, number), key) <==> has_key(entries, key),
{
    let after = touched(entries, number);
    let at = place_of(entries, number);
    assert(holds_at(entries, number, at));
    let rest = entries.remove(at);
    assert forall|key: u128| #[trigger] has_key(after, key) <==> has_key(entries, key) by {
        if has_key(after, key) {
            let i = place_of(after, key);
            assert(holds_at(after, key, i));
            if i > 0 {
                let j = i - 1;
                assert(after[i] == rest[j]);
                let k = if j < at {
                    j
                } else {
                    j + 1
                };
                assert(rest[j] == entries[k]);
                assert(holds_at(entries, key, k));
            }
        }
        if has_key(entries, key) {
            let k = place_of(entries, key);
            assert(holds_at(entries, key, k));
            if k == at {
                assert(holds_at(after, key, 0));
            } else {
                let j = if k < at {
                    k
                } else {
                    k - 1
                };
                assert(rest[j] == entries[k]);
                assert(after[j + 1] == rest[j]);
                assert(holds_at(after, key, j + 1));
            }
        }
    }
}

/// Slots are told apart by the connection, by the column and by the row.
pub proof fn keys_are_told_apart(one: BlobKey, other: BlobKey)
    ensures
        key_view(one) == key_view(other) <==> one.namespace == other.namespace && one.column@
            == other.column@ && one.row_address == other.row_address,
{
}

} // verus!
