//! Texts in order: maps keyed by names, and lists sorted by name.

use vstd::prelude::*;

use crate::text::{chars_of, same_text};

verus! {

/// Whether `left` comes before `right`, as texts are ordered: by the first
/// character in which they differ, and a text before what continues it.
pub open spec fn precedes(left: Seq<char>, right: Seq<char>) -> bool
    decreases left.len(),
{
    if right.len() == 0 {
        false
    } else if left.len() == 0 {
        true
    } else {
        left[0] < right[0] || (left[0] == right[0] && precedes(left.skip(1), right.skip(1)))
    }
}

/// No text comes before itself.
proof fn lemma_irreflexive(text: Seq<char>)
    ensures
        !precedes(text, text),
    decreases text.len(),
{
    if text.len() > 0 {
        lemma_irreflexive(text.skip(1));
    }
}

/// Of two different texts one comes before the other.
proof fn lemma_total(left: Seq<char>, right: Seq<char>)
    ensures
        left != right ==> precedes(left, right) || precedes(right, left),
    decreases left.len(),
{
    if left.len() > 0 && right.len() > 0 && left[0] == right[0] {
        lemma_total(left.skip(1), right.skip(1));
        if left.skip(1) == right.skip(1) {
            assert(left =~= seq![left[0]] + left.skip(1));
            assert(right =~= seq![right[0]] + right.skip(1));
        }
    } else if left.len() == 0 && right.len() == 0 {
        assert(left =~= right);
    }
}

/// The order of texts is transitive.
proof fn lemma_transitive(a: Seq<char>, b: Seq<char>, c: Seq<char>)
    requires
        precedes(a, b),
        precedes(b, c),
    ensures
        precedes(a, c),
    decreases a.len(),
{
    if a.len() > 0 && a[0] == b[0] && b[0] == c[0] {
        lemma_transitive(a.skip(1), b.skip(1), c.skip(1));
    }
}

/// The order of texts is a strict total order.
pub proof fn texts_are_ordered(a: Seq<char>, b: Seq<char>, c: Seq<char>)
    ensures
        !precedes(a, a),
        precedes(a, b) ==> !precedes(b, a),
        a != b ==> precedes(a, b) || precedes(b, a),
        precedes(a, b) && precedes(b, c) ==> precedes(a, c),
{
    lemma_irreflexive(a);
    lemma_total(a, b);
    if precedes(a, b) && precedes(b, a) {
        lemma_transitive(a, b, a);
    }
    if precedes(a, b) && precedes(b, c) {
        lemma_transitive(a, b, c);
    }
}

/// Whether `left` comes before `right`.
pub fn comes_before(left: &str, right: &str) -> (before: bool)
    ensures
        before == precedes(left@, right@),
{
    let a = chars_of(left);
    let b = chars_of(right);
    let mut i: usize = 0;
    assert(a@.skip(0) =~= a@);
    assert(b@.skip(0) =~= b@);
    while i < a.len() && i < b.len()
        invariant
            i <= a@.len(),
            i <= b@.len(),
            a@ == left@,
            b@ == right@,
            precedes(left@, right@) == precedes(a@.skip(i as int), b@.skip(i as int)),
        decreases a@.len() - i,
    {
        if a[i] < b[i] {
            return true;
        }
        if b[i] < a[i] {
            return false;
        }
        assert(a@.skip(i as int).skip(1) =~= a@.skip(i + 1));
        assert(b@.skip(i as int).skip(1) =~= b@.skip(i + 1));
        i += 1;
    }
    i < b.len()
}

/// The names in a list of named things.
pub open spec fn names<V>(entries: Seq<(String, V)>) -> Seq<Seq<char>> {
    entries.map_values(|entry: (String, V)| entry.0@)
}

/// Whether every name comes before those after it.
pub open spec fn increasing(keys: Seq<Seq<char>>) -> bool {
    forall|i: int, j: int| 0 <= i < j < keys.len() ==> precedes(#[trigger] keys[i], #[trigger] keys[j])
}

/// Whether no name comes before one ahead of it.
pub open spec fn sorted(keys: Seq<Seq<char>>) -> bool {
    forall|i: int, j: int|
        0 <= i < j < keys.len() ==> !precedes(#[trigger] keys[j], #[trigger] keys[i])
}

/// A map from names to values, walked in the order of the names.
#[derive(Debug)]
pub struct TextMap<V> {
    entries: Vec<(String, V)>,
}

impl<V> View for TextMap<V> {
    type V = Map<Seq<char>, V>;

    closed spec fn view(&self) -> Map<Seq<char>, V> {
        Map::new(
            |key: Seq<char>| names(self.entries@).contains(key),
            |key: Seq<char>| self.entries@[names(self.entries@).index_of(key)].1,
        )
    }
}

impl<V> TextMap<V> {
    /// The entries stand in the order of their names, no name twice.
    pub closed spec fn valid(&self) -> bool {
        increasing(names(self.entries@))
    }

    /// The entries in their order.
    pub closed spec fn listed(&self) -> Seq<(String, V)> {
        self.entries@
    }

    /// What is listed is what the map holds, in the order of the names.
    pub proof fn listing(&self)
        requires
            self.valid(),
        ensures
            increasing(names(self.listed())),
            forall|key: Seq<char>| #[trigger]
                self@.contains_key(key) <==> names(self.listed()).contains(key),
            forall|i: int|
                0 <= i < self.listed().len() ==> self@.contains_key(
                    (#[trigger] self.listed()[i]).0@,
                ) && self@[self.listed()[i].0@] == self.listed()[i].1,
    {
        let keys = names(self.entries@);
        assert forall|i: int| 0 <= i < self.listed().len() implies self@.contains_key(
            (#[trigger] self.listed()[i]).0@,
        ) && self@[self.listed()[i].0@] == self.listed()[i].1 by {
            assert(keys[i] == self.listed()[i].0@);
            assert(keys.contains(keys[i]));
            let k = keys.index_of(keys[i]);
            lemma_irreflexive(keys[i]);
            assert(k == i) by {
                assert(keys[k] == keys[i]);
                if k < i {
                    assert(precedes(keys[k], keys[i]));
                }
                if i < k {
                    assert(precedes(keys[i], keys[k]));
                }
            }
        }
    }

    /// A map that holds nothing.
    pub fn new() -> (map: Self)
        ensures
            map.valid(),
            map@ == Map::<Seq<char>, V>::empty(),
    {
        let map = TextMap { entries: Vec::new() };
        assert(map@ =~= Map::<Seq<char>, V>::empty());
        map
    }

    /// The entries, in the order of their names.
    pub fn entries(&self) -> (entries: &Vec<(String, V)>)
        requires
            self.valid(),
        ensures
            entries@ == self.listed(),
            increasing(names(entries@)),
    {
        &self.entries
    }

    /// The place of `key`, or the place where it would stand.
    fn place(&self, key: &str) -> (place: usize)
        requires
            self.valid(),
        ensures
            place <= self.entries@.len(),
            forall|i: int| 0 <= i < place ==> precedes(#[trigger] self.entries@[i].0@, key@),
            forall|i: int|
                place <= i < self.entries@.len() ==> !precedes(#[trigger] self.entries@[i].0@, key@),
    {
        let ghost keys = names(self.entries@);
        let mut i: usize = 0;
        while i < self.entries.len()
            invariant
                self.valid(),
                i <= self.entries@.len(),
                forall|j: int| 0 <= j < i ==> precedes(#[trigger] self.entries@[j].0@, key@),
            decreases self.entries@.len() - i,
        {
            if !comes_before(self.entries[i].0.as_str(), key) {
                assert forall|j: int| i <= j < self.entries@.len() implies !precedes(
                    #[trigger] self.entries@[j].0@,
                    key@,
                ) by {
                    let names = names(self.entries@);
                    assert(names[j] == self.entries@[j].0@ && names[i as int]
                        == self.entries@[i as int].0@);
                    if j > i && precedes(self.entries@[j].0@, key@) {
                        lemma_transitive(names[i as int], names[j], key@);
                    }
                }
                return i;
            }
            i += 1;
        }
        i
    }

    /// What the map holds under `key`.
    pub fn get(&self, key: &str) -> (value: Option<&V>)
        requires
            self.valid(),
        ensures
            (match value {
                Some(found) => self@.contains_key(key@) && *found == self@[key@],
                None => !self@.contains_key(key@),
            }),
    {
        let i: usize = self.place(key);
        proof {
            self.listing();
            lemma_irreflexive(key@);
        }
        let ghost keys = names(self.entries@);
        if i < self.entries.len() && same_text(self.entries[i].0.as_str(), key) {
            assert(self.listed()[i as int].0@ == key@);
            return Some(&self.entries[i].1);
        }
        assert(!keys.contains(key@)) by {
            if keys.contains(key@) {
                let k = keys.index_of(key@);
                assert(keys[k] == self.entries@[k].0@);
                if k < i {
                    assert(precedes(self.entries@[k].0@, key@));
                } else if k > i {
                    assert(keys[i as int] == self.entries@[i as int].0@);
                    assert(precedes(keys[i as int], keys[k]));
                }
            }
        }
        None
    }

    /// Puts `value` under `key`, in place of what stood there.
    pub fn insert(&mut self, key: String, value: V)
        requires
            old(self).valid(),
        ensures
            final(self).valid(),
            final(self)@ == old(self)@.insert(key@, value),
    {
        let i: usize = self.place(key.as_str());
        let ghost before = *self;
        let ghost keys = names(self.entries@);
        let ghost found = i < self.entries@.len() && self.entries@[i as int].0@ == key@;
        if i < self.entries.len() && same_text(self.entries[i].0.as_str(), key.as_str()) {
            self.entries.set(i, (key, value));
            assert(names(self.entries@) =~= keys);
        } else {
            self.entries.insert(i, (key, value));
            let ghost after = names(self.entries@);
            assert(after =~= keys.insert(i as int, key@));
            assert(increasing(after)) by {
                assert forall|a: int, b: int| 0 <= a < b < after.len() implies precedes(
                    #[trigger] after[a],
                    #[trigger] after[b],
                ) by {
                    let from = if a < i { a } else { a - 1 };
                    let to = if b < i { b } else { b - 1 };
                    if a != i {
                        assert(after[a] == keys[from] && keys[from] == before.entries@[from].0@);
                    }
                    if b != i {
                        assert(after[b] == keys[to] && keys[to] == before.entries@[to].0@);
                    }
                    if a == i {
                        assert(!precedes(before.entries@[to].0@, key@));
                        assert(keys[i as int] == before.entries@[i as int].0@);
                        if to > i {
                            assert(precedes(keys[i as int], keys[to]));
                        }
                        if keys[to] == key@ {
                            assert(to > i);
                        }
                        lemma_total(keys[to], key@);
                    } else if b == i {
                        assert(precedes(before.entries@[from].0@, key@));
                    } else {
                        assert(precedes(keys[from], keys[to]));
                    }
                }
            }
        }
        proof {
            before.listing();
            self.listing();
            let now = names(self.entries@);
            assert(now[i as int] == key@);
            assert(self.listed()[i as int].0@ == key@);
            assert(self@ =~= before@.insert(key@, value)) by {
                assert forall|k: Seq<char>| #[trigger] self@.contains_key(k) <==> before@.insert(
                    key@,
                    value,
                ).contains_key(k) by {
                    if keys.contains(k) {
                        let p = keys.index_of(k);
                        assert(keys[p] == k);
                        let q = if found || p < i { p } else { p + 1 };
                        assert(now[q] == k);
                    }
                    if now.contains(k) {
                        let q = now.index_of(k);
                        assert(now[q] == k);
                        if q != i {
                            let p = if found || q < i { q } else { q - 1 };
                            assert(keys[p] == k);
                        }
                    }
                }
                assert forall|k: Seq<char>| #[trigger] self@.contains_key(k) implies self@[k]
                    == before@.insert(key@, value)[k] by {
                    let q = now.index_of(k);
                    assert(now[q] == k);
                    assert(self.listed()[q].0@ == k);
                    if q != i {
                        let p = if found || q < i { q } else { q - 1 };
                        assert(before.listed()[p] == self.listed()[q]);
                        if k == key@ {
                            lemma_irreflexive(k);
                            assert(precedes(now[q], now[i as int]) || precedes(now[i as int], now[q]));
                        }
                    }
                }
            }
        }
    }
}

/// The map that a list of entries gives, where a later entry replaces an
/// earlier one of the same name.
pub open spec fn mapped<V>(entries: Seq<(String, V)>) -> Map<Seq<char>, V>
    decreases entries.len(),
{
    if entries.len() == 0 {
        Map::empty()
    } else {
        mapped(entries.drop_last()).insert(entries.last().0@, entries.last().1)
    }
}

/// Collects entries into a map.
pub fn collect_map<V>(entries: Vec<(String, V)>) -> (map: TextMap<V>)
    ensures
        map.valid(),
        map@ == mapped(entries@),
{
    let mut map: TextMap<V> = TextMap::new();
    let ghost all = entries@;
    for entry in it: entries
        invariant
            map.valid(),
            it.seq() == all,
            map@ == mapped(all.take(it.index())),
    {
        assert(all.take(it.index() + 1).drop_last() =~= all.take(it.index()));
        map.insert(entry.0, entry.1);
    }
    assert(all.take(all.len() as int) =~= all);
    map
}

/// Having `name` as its name.
pub open spec fn has_name<V>(name: Seq<char>) -> spec_fn((String, V)) -> bool {
    |entry: (String, V)| entry.0@ == name
}

/// The entries of one name, in the order in which they stand.
pub open spec fn named<V>(entries: Seq<(String, V)>, name: Seq<char>) -> Seq<(String, V)> {
    entries.filter(has_name(name))
}

/// Whether `list` is `entries` sorted by name, where entries of the same name
/// keep their order.
pub open spec fn is_sorting<V>(list: Seq<(String, V)>, entries: Seq<(String, V)>) -> bool {
    &&& sorted(names(list))
    &&& list.to_multiset() == entries.to_multiset()
    &&& forall|name: Seq<char>| #[trigger] named(list, name) == named(entries, name)
}

/// Where no entry has a name, that name has no entries.
proof fn lemma_none_named<V>(entries: Seq<(String, V)>, name: Seq<char>)
    requires
        forall|i: int| 0 <= i < entries.len() ==> (#[trigger] entries[i]).0@ != name,
    ensures
        named(entries, name) == Seq::<(String, V)>::empty(),
{
    let found = named(entries, name);
    if found.len() > 0 {
        entries.lemma_filter_pred(has_name(name), 0);
        entries.lemma_filter_contains_rev(has_name(name), found[0]);
    }
    assert(found =~= Seq::empty());
}

/// Putting an entry behind all those that it does not come before keeps the
/// order of the entries of each name.
proof fn lemma_named_after_insert<V>(
    list: Seq<(String, V)>,
    place: int,
    entry: (String, V),
    name: Seq<char>,
)
    requires
        0 <= place <= list.len(),
        forall|i: int| place <= i < list.len() ==> precedes(entry.0@, (#[trigger] list[i]).0@),
    ensures
        named(list.insert(place, entry), name) == named(list.push(entry), name),
{
    let pred = has_name::<V>(name);
    let front = list.take(place);
    let back = list.skip(place);
    let one = seq![entry];
    assert(list =~= front + back);
    assert(list.push(entry) =~= front + back + one);
    assert(list.insert(place, entry) =~= front + one + back);
    Seq::filter_distributes_over_add(front + back, one, pred);
    Seq::filter_distributes_over_add(front, back, pred);
    Seq::filter_distributes_over_add(front + one, back, pred);
    Seq::filter_distributes_over_add(front, one, pred);
    if entry.0@ == name {
        assert forall|i: int| 0 <= i < back.len() implies (#[trigger] back[i]).0@ != name by {
            assert(back[i] == list[place + i]);
            lemma_irreflexive(name);
        }
        lemma_none_named(back, name);
    } else {
        lemma_none_named(one, name);
    }
    assert(named(list.insert(place, entry), name) =~= named(list.push(entry), name));
}

/// Puts `entry` into a sorted list, behind the entries of its name.
fn insert_sorted<V>(list: &mut Vec<(String, V)>, entry: (String, V))
    requires
        sorted(names(old(list)@)),
    ensures
        is_sorting(final(list)@, old(list)@.push(entry)),
{
    let ghost before = list@;
    let ghost keys = names(before);
    let mut i: usize = list.len();
    while i > 0 && comes_before(entry.0.as_str(), list[i - 1].0.as_str())
        invariant
            i <= list@.len(),
            list@ == before,
            forall|j: int| i <= j < before.len() ==> precedes(entry.0@, (#[trigger] before[j]).0@),
        decreases i,
    {
        i -= 1;
    }
    list.insert(i, entry);
    proof {
        let after = names(list@);
        let place = i as int;
        assert(after =~= keys.insert(place, entry.0@));
        assert(sorted(after)) by {
            assert forall|a: int, b: int| 0 <= a < b < after.len() implies !precedes(
                #[trigger] after[b],
                #[trigger] after[a],
            ) by {
                let from = if a < place { a } else { a - 1 };
                let to = if b < place { b } else { b - 1 };
                if a != place {
                    assert(after[a] == keys[from] && keys[from] == before[from].0@);
                }
                if b != place {
                    assert(after[b] == keys[to] && keys[to] == before[to].0@);
                }
                if a == place {
                    texts_are_ordered(entry.0@, keys[to], entry.0@);
                } else if b == place {
                    let last = place - 1;
                    assert(keys[last] == before[last].0@);
                    texts_are_ordered(entry.0@, keys[from], keys[last]);
                    texts_are_ordered(keys[from], keys[last], keys[from]);
                    if from < last {
                        assert(!precedes(keys[last], keys[from]));
                    }
                } else {
                    assert(!precedes(keys[to], keys[from]));
                }
            }
        }
        assert forall|name: Seq<char>| #[trigger] named(list@, name) == named(
            before.push(entry),
            name,
        ) by {
            lemma_named_after_insert(before, place, entry, name);
        }
        broadcast use vstd::seq_lib::group_to_multiset_ensures;

        assert(list@.to_multiset() =~= before.push(entry).to_multiset());
    }
}

/// Sorts entries by name; entries of the same name keep their order.
pub fn sort_by_name<V>(entries: Vec<(String, V)>) -> (list: Vec<(String, V)>)
    ensures
        is_sorting(list@, entries@),
{
    let ghost all = entries@;
    let mut list: Vec<(String, V)> = Vec::new();
    assert(all.take(0) =~= list@);
    for entry in it: entries
        invariant
            it.seq() == all,
            is_sorting(list@, all.take(it.index())),
    {
        let ghost before = list@;
        let ghost n = it.index();
        insert_sorted(&mut list, entry);
        proof {
            let earlier = all.take(n);
            let now = all.take(n + 1);
            assert(now =~= earlier.push(entry));
            assert(before.push(entry) =~= before + seq![entry]);
            assert(now =~= earlier + seq![entry]);
            assert forall|name: Seq<char>| #[trigger] named(list@, name) == named(now, name) by {
                let pred = has_name::<V>(name);
                assert(named(before, name) == named(earlier, name));
                Seq::filter_distributes_over_add(before, seq![entry], pred);
                Seq::filter_distributes_over_add(earlier, seq![entry], pred);
            }
            broadcast use vstd::seq_lib::group_to_multiset_ensures;

            assert(list@.to_multiset() =~= now.to_multiset());
        }
    }
    assert(all.take(all.len() as int) =~= all);
    list
}

/// Whether two texts agree before `k`, and the first ends there or has the lower
/// character there.
pub open spec fn differ_at(left: Seq<char>, right: Seq<char>, k: int) -> bool {
    &&& 0 <= k <= left.len()
    &&& k < right.len()
    &&& left.take(k) == right.take(k)
    &&& k == left.len() || left[k] < right[k]
}

/// A text comes before another by the first character in which they differ, and
/// before all that continue it.
pub proof fn texts_are_ordered_by_the_first_difference(left: Seq<char>, right: Seq<char>)
    ensures
        precedes(left, right) <==> exists|k: int| #[trigger] differ_at(left, right, k),
    decreases left.len(),
{
    if left.len() > 0 && right.len() > 0 && left[0] == right[0] {
        let a = left.skip(1);
        let b = right.skip(1);
        texts_are_ordered_by_the_first_difference(a, b);
        if precedes(left, right) {
            let k = choose|k: int| #[trigger] differ_at(a, b, k);
            assert(left.take(k + 1) =~= seq![left[0]] + a.take(k));
            assert(right.take(k + 1) =~= seq![right[0]] + b.take(k));
            assert(differ_at(left, right, k + 1));
        }
        if exists|k: int| #[trigger] differ_at(left, right, k) {
            let k = choose|k: int| #[trigger] differ_at(left, right, k);
            assert(k > 0);
            assert(a.take(k - 1) =~= left.take(k).skip(1));
            assert(b.take(k - 1) =~= right.take(k).skip(1));
            assert(differ_at(a, b, k - 1));
        }
    } else {
        if precedes(left, right) {
            assert(left.take(0) =~= right.take(0));
            assert(differ_at(left, right, 0));
        }
        if exists|k: int| #[trigger] differ_at(left, right, k) {
            let k = choose|k: int| #[trigger] differ_at(left, right, k);
            if k > 0 {
                assert(left.take(k)[0] == left[0]);
                assert(right.take(k)[0] == right[0]);
            }
        }
    }
}

/// A map that is collected has the names of its entries and no others.
pub proof fn collected_names_are_those_of_the_entries<V>(entries: Seq<(String, V)>, name: Seq<char>)
    ensures
        mapped(entries).contains_key(name) <==> exists|i: int|
            0 <= i < entries.len() && (#[trigger] entries[i]).0@ == name,
    decreases entries.len(),
{
    if entries.len() > 0 {
        let before = entries.drop_last();
        collected_names_are_those_of_the_entries(before, name);
        if mapped(before).contains_key(name) {
            let i = choose|i: int| 0 <= i < before.len() && (#[trigger] before[i]).0@ == name;
            assert(entries[i].0@ == name);
        }
        if entries.last().0@ == name {
            assert(entries[entries.len() - 1].0@ == name);
        }
        if exists|i: int| 0 <= i < entries.len() && (#[trigger] entries[i]).0@ == name {
            let i = choose|i: int| 0 <= i < entries.len() && (#[trigger] entries[i]).0@ == name;
            if i < before.len() {
                assert(before[i].0@ == name);
            }
        }
    }
}

/// A map that is collected has under a name what the last entry of that name
/// has.
pub proof fn the_last_entry_of_a_name_is_kept<V>(entries: Seq<(String, V)>, i: int)
    requires
        0 <= i < entries.len(),
        forall|j: int| i < j < entries.len() ==> (#[trigger] entries[j]).0@ != entries[i].0@,
    ensures
        mapped(entries).contains_key(entries[i].0@),
        mapped(entries)[entries[i].0@] == entries[i].1,
    decreases entries.len(),
{
    if i < entries.len() - 1 {
        let before = entries.drop_last();
        assert forall|j: int| i < j < before.len() implies (#[trigger] before[j]).0@
            != before[i].0@ by {
            assert(before[j] == entries[j]);
        }
        the_last_entry_of_a_name_is_kept(before, i);
        assert(entries[entries.len() - 1].0@ != entries[i].0@);
    }
}

/// Sorting keeps every entry, as often as it is there, and puts each behind those
/// whose names come before its own; entries of one name keep their order.
pub proof fn sorting_orders_all_entries<V>(
    list: Seq<(String, V)>,
    entries: Seq<(String, V)>,
    entry: (String, V),
)
    requires
        is_sorting(list, entries),
    ensures
        list.len() == entries.len(),
        list.contains(entry) <==> entries.contains(entry),
        list.to_multiset() == entries.to_multiset(),
        list.filter(has_name(entry.0@)) == entries.filter(has_name(entry.0@)),
        forall|i: int, j: int|
            0 <= i < j < list.len() ==> (#[trigger] list[i]).0@ == (#[trigger] list[j]).0@
                || precedes(list[i].0@, list[j].0@),
{
    broadcast use vstd::seq_lib::group_to_multiset_ensures;

    assert(named(list, entry.0@) == named(entries, entry.0@));
    assert(list.to_multiset().len() == entries.to_multiset().len());
    assert(list.contains(entry) <==> list.to_multiset().count(entry) > 0);
    assert(entries.contains(entry) <==> entries.to_multiset().count(entry) > 0);
    assert forall|i: int, j: int| 0 <= i < j < list.len() implies (#[trigger] list[i]).0@ == (
    #[trigger] list[j]).0@ || precedes(list[i].0@, list[j].0@) by {
        assert(names(list)[i] == list[i].0@);
        assert(names(list)[j] == list[j].0@);
        lemma_total(list[i].0@, list[j].0@);
    }
}

} // verus!
