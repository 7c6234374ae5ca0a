use hash_s2t::{default_hash, HashItem, HashS2T, DEFAULT_HASH2ST_SIZE};
use std::fmt::Debug;

fn expected_items<T>(h: &HashS2T<T>, expected: &[(&str, T)])
where
    T: PartialOrd + Clone + Debug,
{
    // values must exist
    let mut items: Vec<_> = h.iter().collect();
    items.sort_by(|HashItem { v: v1, .. }, HashItem { v: v2, .. }| v1.partial_cmp(v2).unwrap());
    assert_eq!(
        items
            .iter()
            .map(|HashItem { k, v }| (k.as_ref(), v.clone()))
            .collect::<Vec<_>>(),
        expected
    );
}

#[test]
fn insert() {
    let mut h = HashS2T::default();
    h.insert("a", 1);
    h.insert("b", 2);
    h.insert("c", 2);
    h.insert("c", 3);

    assert_eq!(h.capacity(), DEFAULT_HASH2ST_SIZE);

    // values must exist
    expected_items(&h, &[("a", 1), ("b", 2), ("c", 3)]);
}

#[test]
fn stress() {
    let mut h = HashS2T::default();
    for key_i in 0..5000 {
        let key = format!("key_{key_i}");
        let val = key_i + 42;
        h.insert(&key, val);
        // insert twice
        h.insert(&key, val);
        assert_eq!(*h.get(&key).unwrap(), val)
    }
}

#[test]
fn get() {
    let mut h = HashS2T::default();
    // works with no contents
    let _opt = h.get("gg");

    h.insert("a", 1);
    h.insert("R", 42);
    h.insert("c", 3);

    assert_eq!(h.get("R"), Some(&42));
    assert_eq!(h.get("Q"), None);
}

#[test]
fn stress_keeps_every_key() {
    let mut h = HashS2T::default();
    for key_i in 0..5000 {
        let key = format!("key_{key_i}");
        h.insert(&key, key_i + 42);
        h.insert(&key, key_i + 42);
    }
    for key_i in 0..5000 {
        let key = format!("key_{key_i}");
        assert_eq!(h.get(&key), Some(&(key_i + 42)));
    }
    assert_eq!(h.iter().count(), 5000);
    assert_eq!(h.capacity(), 256);
}

#[test]
fn scenario_three_keys_one_overwritten() {
    let mut h = HashS2T::default();
    h.insert("a", 1);
    h.insert("b", 2);
    h.insert("c", 2);
    h.insert("c", 3);
    assert_eq!(h.get("a"), Some(&1));
    assert_eq!(h.get("b"), Some(&2));
    assert_eq!(h.get("c"), Some(&3));
    assert_eq!(h.iter().count(), 3);
    assert_eq!(h.collisions(), 0);
}

#[test]
fn default_has_256_unallocated_buckets() {
    let h: HashS2T<u8> = HashS2T::default();
    assert_eq!(DEFAULT_HASH2ST_SIZE, 256);
    assert_eq!(h.capacity(), 256);
    assert_eq!(h.collisions(), 0);
    assert_eq!(h.iter().count(), 0);
}

#[test]
fn with_capacity_sets_the_number_of_buckets() {
    let h: HashS2T<u8> = HashS2T::with_capacity(7);
    assert_eq!(h.capacity(), 7);
    assert_eq!(h.collisions(), 0);
    let mut g: HashS2T<u8> = HashS2T::with_capacity(1);
    g.insert("x", 1);
    g.insert("y", 2);
    assert_eq!(g.capacity(), 1);
    assert_eq!(g.get("x"), Some(&1));
    assert_eq!(g.get("y"), Some(&2));
    assert_eq!(g.collisions(), 1);
}

#[test]
fn lookup_in_a_fresh_table_finds_nothing() {
    let h: HashS2T<i32> = HashS2T::default();
    assert_eq!(h.get("anything"), None);
    assert_eq!(h.get(""), None);
    assert!(h.get_item("anything").is_none());
    let small: HashS2T<i32> = HashS2T::with_capacity(3);
    assert_eq!(small.get("anything"), None);
}

#[test]
fn lookup_in_a_table_without_buckets_finds_nothing() {
    let mut h: HashS2T<i32> = HashS2T::with_capacity(0);
    assert_eq!(h.capacity(), 0);
    assert_eq!(h.get("anything"), None);
    assert!(h.get_item("anything").is_none());
    assert!(h.get_mut("anything").is_none());
    assert!(h.get_item_mut("anything").is_none());
    assert_eq!(h.iter().count(), 0);
    assert_eq!(h.into_iter().count(), 0);
}

#[test]
fn distinct_keys_in_either_order() {
    let mut h = HashS2T::with_capacity(8);
    h.insert("left", 10);
    h.insert("right", 20);
    assert_eq!(h.get("left"), Some(&10));
    assert_eq!(h.get("right"), Some(&20));

    let mut g = HashS2T::with_capacity(8);
    g.insert("right", 20);
    g.insert("left", 10);
    assert_eq!(g.get("left"), Some(&10));
    assert_eq!(g.get("right"), Some(&20));
}

#[test]
fn second_insert_overwrites_in_place() {
    let mut h = HashS2T::with_capacity(4);
    // "a", "e" and "i" all belong to bucket 1 of 4
    h.insert("a", 1);
    h.insert("e", 2);
    h.insert("i", 3);
    let before = h.iter().count();
    let collisions = h.collisions();
    h.insert("e", 20);
    assert_eq!(h.get("e"), Some(&20));
    assert_eq!(h.iter().count(), before);
    assert_eq!(h.collisions(), collisions);
    assert_eq!(h.iter().filter(|item| item.k == "e").count(), 1);
    let keys: Vec<&str> = h.iter().map(|item| item.k.as_ref()).collect();
    assert_eq!(keys, vec!["a", "e", "i"]);
}

#[test]
fn collisions_count_appends_to_an_allocated_chain() {
    let mut h = HashS2T::with_capacity(4);
    assert_eq!(default_hash("a", 4), 1);
    assert_eq!(default_hash("e", 4), 1);
    assert_eq!(default_hash("i", 4), 1);
    h.insert("a", 1);
    assert_eq!(h.collisions(), 0);
    h.insert("e", 2);
    assert_eq!(h.collisions(), 1);
    h.insert("i", 3);
    assert_eq!(h.collisions(), 2);
    // another bucket: no collision
    h.insert("b", 4);
    assert_eq!(h.collisions(), 2);
    // a key that is stored: no collision
    h.insert("a", 5);
    assert_eq!(h.collisions(), 2);
    assert_eq!(h.get("a"), Some(&5));
    assert_eq!(h.get("e"), Some(&2));
    assert_eq!(h.get("i"), Some(&3));
    assert_eq!(h.get("b"), Some(&4));
}

#[test]
fn anagrams_collide_and_stay_apart() {
    assert_eq!(default_hash("listen", 256), default_hash("silent", 256));
    assert_eq!(default_hash("listen", 7), default_hash("enlist", 7));
    let mut h = HashS2T::default();
    h.insert("listen", 1);
    h.insert("silent", 2);
    h.insert("enlist", 3);
    assert_eq!(h.collisions(), 2);
    assert_eq!(h.get("listen"), Some(&1));
    assert_eq!(h.get("silent"), Some(&2));
    assert_eq!(h.get("enlist"), Some(&3));
    assert_eq!(h.get("tinsel"), None);
}

#[test]
fn iteration_goes_by_bucket_then_by_insertion() {
    let mut h = HashS2T::with_capacity(4);
    h.insert("c", 30); // bucket 3
    h.insert("e", 50); // bucket 1
    h.insert("b", 20); // bucket 2
    h.insert("a", 10); // bucket 1, after "e"
    h.insert("d", 40); // bucket 0
    let seen: Vec<(&str, i32)> = h.iter().map(|item| (item.k.as_ref(), item.v)).collect();
    assert_eq!(seen, vec![("d", 40), ("e", 50), ("a", 10), ("b", 20), ("c", 30)]);
    // a fresh iterator starts over
    assert_eq!(h.iter().count(), 5);
    let owned: Vec<(String, i32)> =
        h.into_iter().map(|HashItem { k, v }| (k.into_owned(), v)).collect();
    assert_eq!(
        owned,
        vec![
            ("d".to_string(), 40),
            ("e".to_string(), 50),
            ("a".to_string(), 10),
            ("b".to_string(), 20),
            ("c".to_string(), 30),
        ]
    );
}

#[test]
fn get_mut_changes_the_value_in_place() {
    let mut h = HashS2T::with_capacity(4);
    h.insert("a", 1);
    h.insert("e", 2);
    if let Some(v) = h.get_mut("e") {
        *v += 40;
    }
    assert_eq!(h.get("e"), Some(&42));
    assert_eq!(h.get("a"), Some(&1));
    assert!(h.get_mut("i").is_none());
    assert_eq!(h.collisions(), 1);
    assert_eq!(h.iter().count(), 2);
}

#[test]
fn get_item_returns_key_and_value() {
    let mut h = HashS2T::default();
    h.insert("Woffo", 1);
    h.insert("Gato", 2);
    let item = h.get_item("Gato").unwrap();
    assert_eq!(item.k, "Gato");
    assert_eq!(item.v, 2);
    assert!(h.get_item("gato").is_none());
    let item = h.get_item_mut("Woffo").unwrap();
    assert_eq!(item.k, "Woffo");
    item.v = 11;
    assert_eq!(h.get("Woffo"), Some(&11));
    assert!(h.get_item_mut("woffo").is_none());
}

#[test]
fn keys_are_compared_exactly() {
    let mut h = HashS2T::with_capacity(1);
    h.insert("ab", 1);
    h.insert("ba", 2);
    h.insert("abc", 3);
    h.insert("", 4);
    h.insert("é", 5);
    h.insert("e\u{301}", 6);
    assert_eq!(h.get("ab"), Some(&1));
    assert_eq!(h.get("ba"), Some(&2));
    assert_eq!(h.get("abc"), Some(&3));
    assert_eq!(h.get(""), Some(&4));
    assert_eq!(h.get("é"), Some(&5));
    assert_eq!(h.get("e\u{301}"), Some(&6));
    assert_eq!(h.get("a"), None);
    assert_eq!(h.get("AB"), None);
    assert_eq!(h.iter().count(), 6);
    assert_eq!(h.collisions(), 5);
}

#[test]
fn values_of_any_type() {
    let mut h: HashS2T<Vec<String>> = HashS2T::with_capacity(2);
    h.insert("one", vec!["1".to_string()]);
    h.insert("two", vec!["2".to_string(), "2".to_string()]);
    h.get_mut("one").unwrap().push("uno".to_string());
    assert_eq!(h.get("one"), Some(&vec!["1".to_string(), "uno".to_string()]));
    assert_eq!(h.get("two").map(|v| v.len()), Some(2));
}

#[test]
fn for_loops_walk_the_table() {
    let mut h = HashS2T::with_capacity(4);
    h.insert("b", 2); // bucket 2
    h.insert("a", 1); // bucket 1
    h.insert("e", 5); // bucket 1, after "a"
    let mut seen = Vec::new();
    for HashItem { k, v } in &h {
        seen.push((k.to_string(), *v));
    }
    assert_eq!(
        seen,
        vec![("a".to_string(), 1), ("e".to_string(), 5), ("b".to_string(), 2)]
    );
    let mut owned = Vec::new();
    for HashItem { k, v } in h {
        owned.push((k.into_owned(), v));
    }
    assert_eq!(owned, seen);
}

#[test]
fn an_iterator_ends_and_stays_ended() {
    let mut h = HashS2T::with_capacity(2);
    h.insert("x", 1);
    let mut items = h.iter();
    assert!(items.next().is_some());
    assert!(items.next().is_none());
    assert!(items.next().is_none());
}

#[test]
fn iteration_yields_what_is_stored() {
    let mut h = HashS2T::with_capacity(5);
    let keys = ["one", "two", "three", "four", "five", "six", "neo", "owt"];
    let mut value = 0;
    for key in keys {
        value += 1;
        h.insert(key, value);
    }
    h.insert("two", 22);
    assert_eq!(h.iter().count(), keys.len());
    for item in h.iter() {
        assert_eq!(h.get(&item.k), Some(&item.v));
    }
    for key in keys {
        let value = *h.get(key).unwrap();
        assert_eq!(h.iter().filter(|item| item.k == key && item.v == value).count(), 1);
        assert_eq!(h.iter().filter(|item| item.k == key).count(), 1);
    }
    // every item sits in the bucket of its key: the buckets come in order
    let buckets: Vec<usize> = h.iter().map(|item| default_hash(&item.k, 5)).collect();
    let mut sorted = buckets.clone();
    sorted.sort();
    assert_eq!(buckets, sorted);
}

#[test]
fn collisions_are_the_items_beyond_the_first_of_each_bucket() {
    let mut h = HashS2T::with_capacity(3);
    // buckets: "a" 1, "b" 2, "c" 0, "d" 1, "e" 2, "f" 0, "g" 1
    for (n, key) in ["a", "b", "c", "d", "e", "f", "g"].into_iter().enumerate() {
        h.insert(key, n);
    }
    assert_eq!(h.iter().count(), 7);
    assert_eq!(h.collisions(), 7 - 3);
    h.insert("d", 100);
    assert_eq!(h.collisions(), 4);
}

#[test]
fn a_new_key_goes_to_the_end_of_its_chain() {
    let mut h = HashS2T::with_capacity(2);
    // "b", "d" and "f" belong to bucket 0 of 2, "a" and "c" to bucket 1
    h.insert("d", 4);
    h.insert("a", 1);
    h.insert("b", 2);
    let keys: Vec<&str> = h.iter().map(|item| item.k.as_ref()).collect();
    assert_eq!(keys, vec!["d", "b", "a"]);
    h.insert("f", 6);
    h.insert("c", 3);
    let keys: Vec<&str> = h.iter().map(|item| item.k.as_ref()).collect();
    assert_eq!(keys, vec!["d", "b", "f", "a", "c"]);
}

#[test]
fn capacity_never_changes() {
    let mut h = HashS2T::with_capacity(2);
    for n in 0..100 {
        h.insert(&format!("k{n}"), n);
        assert_eq!(h.capacity(), 2);
    }
    assert_eq!(h.iter().count(), 100);
    assert_eq!(h.collisions(), 98);
}

#[test]
fn an_item_hands_out_its_key_as_text() {
    let mut h = HashS2T::default();
    h.insert("Woffo", 1);
    let item = h.get_item("Woffo").unwrap();
    assert_eq!(item.key(), "Woffo");
    assert_eq!(item.k.as_ref(), "Woffo");
    let borrowed = HashItem { k: std::borrow::Cow::Borrowed("Gato"), v: 2 };
    assert_eq!(borrowed.key(), "Gato");
}
