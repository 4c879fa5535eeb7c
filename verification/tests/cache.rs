use lance_inspector::cache::BoundedCache;

#[test]
fn evicts_the_least_recently_used_entry() {
    let mut cache = BoundedCache::new(2);
    cache.insert(1, "one");
    cache.insert(2, "two");
    assert_eq!(cache.get(&1), Some("one"));

    cache.insert(3, "three");

    assert_eq!(cache.get(&1), Some("one"));
    assert_eq!(cache.get(&2), None);
    assert_eq!(cache.get(&3), Some("three"));
}

#[test]
fn replaces_and_removes_entries() {
    let mut cache = BoundedCache::new(2);
    cache.insert(1, "old");
    cache.insert(2, "other");
    cache.insert(1, "new");
    assert_eq!(cache.get(&1), Some("new"));
    assert_eq!(cache.get(&2), Some("other"));

    cache.remove(&1);
    assert_eq!(cache.get(&1), None);
    cache.remove(&3);
    assert_eq!(cache.get(&2), Some("other"));
}

#[test]
fn reports_the_key_that_makes_room() {
    let mut cache = BoundedCache::new(2);
    assert_eq!(cache.insert_evicting(1, 'a'), None);
    assert_eq!(cache.insert_evicting(2, 'b'), None);
    assert_eq!(cache.insert_evicting(1, 'c'), None);
    assert_eq!(cache.insert_evicting(3, 'd'), Some(2));
    assert_eq!(cache.get(&1), Some('c'));
}

#[test]
fn creates_a_value_only_where_there_is_none() {
    let mut cache = BoundedCache::new(1);
    assert_eq!(cache.get_or_insert_with(7, || 10), 10);
    assert_eq!(cache.get_or_insert_with(7, || 20), 10);
    assert_eq!(cache.get_or_insert_with(8, || 30), 30);
    assert_eq!(cache.get(&7), None);
}

#[test]
fn changes_values_in_place() {
    let mut cache = BoundedCache::new(2);
    cache.insert(1, 5);
    if let Some(value) = cache.get_mut(&1) {
        *value += 1;
    }
    assert!(cache.get_mut(&2).is_none());
    assert_eq!(cache.get(&1), Some(6));
}

#[test]
fn keeps_what_is_used_while_others_come_and_go() {
    let mut cache = BoundedCache::new(3);
    cache.insert(0, "kept");
    for key in 1..20 {
        cache.insert(key, "passing");
        assert_eq!(cache.get(&0), Some("kept"));
    }
    assert_eq!(cache.get(&1), None);
    assert_eq!(cache.get(&19), Some("passing"));
    assert_eq!(cache.get(&18), Some("passing"));
    assert_eq!(cache.get(&17), None);
}
