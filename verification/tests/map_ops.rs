use lsm_map::map::LsmMap;
use lsm_map::map::Retain;

fn b(s: &str) -> Vec<u8> {
    s.as_bytes().to_vec()
}

#[test]
fn insert_get_remove_roundtrip() {
    let mut m = LsmMap::new();
    assert!(m.is_empty());
    assert_eq!(m.insert(&b("apple"), &b("1")), None);
    assert_eq!(m.insert(&b("pear"), &b("2")), None);
    assert!(!m.is_empty());
    assert_eq!(m.get(&b("apple")), Some(b("1")));
    assert_eq!(m.get(&b("pear")), Some(b("2")));
    assert_eq!(m.get(&b("plum")), None);
    assert!(m.contains_key(&b("apple")));
    assert!(!m.contains_key(&b("plum")));
    assert_eq!(m.remove(&b("apple")), Some(b("1")));
    assert_eq!(m.remove(&b("apple")), None);
    assert_eq!(m.get(&b("apple")), None);
}

#[test]
fn insert_returns_previous_value() {
    let mut m = LsmMap::new();
    assert_eq!(m.insert(&b("k"), &b("old")), None);
    assert_eq!(m.insert(&b("k"), &b("new")), Some(b("old")));
    assert_eq!(m.get(&b("k")), Some(b("new")));
    let keys = m.keys();
    assert_eq!(keys.len(), 1);
}

#[test]
fn get_key_value_and_remove_entry() {
    let mut m = LsmMap::new();
    m.insert(&b("k"), &b("v"));
    assert_eq!(m.get_key_value(&b("k")), Some((b("k"), b("v"))));
    assert_eq!(m.get_key_value(&b("x")), None);
    assert_eq!(m.remove_entry(&b("k")), Some((b("k"), b("v"))));
    assert_eq!(m.remove_entry(&b("k")), None);
}

#[test]
fn ascending_order_matches_reference_map() {
    // The contents determine the iteration order: inserting in any order,
    // the scan comes back bytewise-sorted, exactly like a reference
    // ordered map fed the same operations.
    let mut m = LsmMap::new();
    let mut reference = std::collections::BTreeMap::new();
    let ops: [(&str, &str); 7] = [
        ("delta", "4"),
        ("alpha", "1"),
        ("echo", "5"),
        ("bravo", "2"),
        ("alpha", "one"),
        ("charlie", "3"),
        ("bravo", "two"),
    ];
    for (k, v) in ops.iter() {
        m.insert(&b(k), &b(v));
        reference.insert(b(k), b(v));
    }
    m.remove(&b("charlie"));
    reference.remove(&b("charlie"));
    let keys = m.keys();
    let values = m.values();
    let expected: Vec<(Vec<u8>, Vec<u8>)> =
        reference.iter().map(|(k, v)| (k.clone(), v.clone())).collect();
    assert_eq!(keys.len(), expected.len());
    for (i, (k, v)) in expected.iter().enumerate() {
        assert_eq!(&keys[i], k);
        assert_eq!(&values[i], v);
    }
}

#[test]
fn first_last_and_pop() {
    let mut m = LsmMap::new();
    assert_eq!(m.first_key_value(), None);
    assert_eq!(m.last_key_value(), None);
    assert_eq!(m.pop_first(), None);
    assert_eq!(m.pop_last(), None);
    m.insert(&b("b"), &b("2"));
    m.insert(&b("a"), &b("1"));
    m.insert(&b("c"), &b("3"));
    assert_eq!(m.first_key_value(), Some((b("a"), b("1"))));
    assert_eq!(m.last_key_value(), Some((b("c"), b("3"))));
    assert_eq!(m.pop_first(), Some((b("a"), b("1"))));
    assert_eq!(m.pop_last(), Some((b("c"), b("3"))));
    assert_eq!(m.pop_first(), Some((b("b"), b("2"))));
    assert!(m.is_empty());
}

#[test]
fn first_and_last_entry() {
    let mut m = LsmMap::new();
    assert!(m.first_entry().is_none());
    assert!(m.last_entry().is_none());
    m.insert(&b("a"), &b("1"));
    m.insert(&b("z"), &b("26"));
    let first = m.first_entry().unwrap();
    assert_eq!(first.key(), b("a"));
    assert_eq!(first.get(), b("1"));
    first.close(&mut m.tree.db);
    let last = m.last_entry().unwrap();
    assert_eq!(last.remove_entry(&mut m.tree.db), (b("z"), b("26")));
    assert_eq!(m.get(&b("z")), None);
}

#[test]
fn retain_keeps_replaces_and_removes() {
    let mut m = LsmMap::new();
    m.insert(&b("keep"), &b("1"));
    m.insert(&b("redo"), &b("2"));
    m.insert(&b("toss"), &b("3"));
    m.retain(|k: &Vec<u8>, _v: &Vec<u8>| {
        if k == &b("keep") {
            Retain::Keep
        } else if k == &b("redo") {
            Retain::Replace(b("two"))
        } else {
            Retain::Remove
        }
    });
    assert_eq!(m.get(&b("keep")), Some(b("1")));
    assert_eq!(m.get(&b("redo")), Some(b("two")));
    assert_eq!(m.get(&b("toss")), None);
    assert_eq!(m.keys().len(), 2);
}

#[test]
fn append_moves_and_overwrites() {
    let mut m = LsmMap::new();
    m.insert(&b("a"), &b("mine"));
    m.insert(&b("b"), &b("mine"));
    let mut other = LsmMap::new();
    other.insert(&b("b"), &b("theirs"));
    other.insert(&b("c"), &b("theirs"));
    m.append(&mut other);
    assert!(other.is_empty());
    assert_eq!(m.get(&b("a")), Some(b("mine")));
    assert_eq!(m.get(&b("b")), Some(b("theirs")));
    assert_eq!(m.get(&b("c")), Some(b("theirs")));
    assert_eq!(m.keys().len(), 3);
}

#[test]
fn split_off_partitions_at_key() {
    let mut m = LsmMap::new();
    for k in ["a", "b", "c", "d"].iter() {
        m.insert(&b(k), &b(k));
    }
    let mut high = m.split_off(&b("c"));
    assert_eq!(m.keys(), vec![b("a"), b("b")]);
    assert_eq!(high.keys(), vec![b("c"), b("d")]);
    assert_eq!(high.get(&b("c")), Some(b("c")));
    assert_eq!(m.get(&b("c")), None);
}

#[test]
fn into_keys_and_into_values() {
    let mut m = LsmMap::new();
    m.insert(&b("b"), &b("2"));
    m.insert(&b("a"), &b("1"));
    let mut n = LsmMap::new();
    n.insert(&b("b"), &b("2"));
    n.insert(&b("a"), &b("1"));
    assert_eq!(m.into_keys(), vec![b("a"), b("b")]);
    assert_eq!(n.into_values(), vec![b("1"), b("2")]);
}

#[test]
fn entry_or_insert_idempotent() {
    // Inserting through the entry twice with the same key leaves the
    // second call returning the first inserted value, and exactly one row
    // for the key.
    let mut m = LsmMap::new();
    let en = m.entry(&b("k"));
    let first = en.or_insert(&mut m.tree.db, &b("v1"));
    assert_eq!(first, b("v1"));
    let en = m.entry(&b("k"));
    let second = en.or_insert(&mut m.tree.db, &b("v2"));
    assert_eq!(second, b("v1"));
    assert_eq!(m.get(&b("k")), Some(b("v1")));
    assert_eq!(m.keys(), vec![b("k")]);
}

#[test]
fn empty_keys_and_values_are_allowed() {
    let mut m = LsmMap::new();
    m.insert(&b(""), &b(""));
    assert_eq!(m.get(&b("")), Some(b("")));
    assert_eq!(m.first_key_value(), Some((b(""), b(""))));
    m.insert(&b("a"), &b(""));
    assert_eq!(m.first_key_value(), Some((b(""), b(""))));
    assert_eq!(m.last_key_value(), Some((b("a"), b(""))));
}
