use lsm_map::map::LsmMap;
use lsm_map::entry::Entry;

fn b(s: &str) -> Vec<u8> {
    s.as_bytes().to_vec()
}

#[test]
fn or_insert_inserts_only_when_vacant() {
    let mut m = LsmMap::new();
    let v = m.entry(&b("k")).or_insert(&mut m.tree.db, &b("v"));
    assert_eq!(v, b("v"));
    m.insert(&b("k"), &b("w"));
    let v = m.entry(&b("k")).or_insert(&mut m.tree.db, &b("other"));
    assert_eq!(v, b("w"));
    assert_eq!(m.get(&b("k")), Some(b("w")));
}

#[test]
fn or_insert_with_calls_the_function_once_needed() {
    let mut m = LsmMap::new();
    let v = m.entry(&b("k")).or_insert_with(&mut m.tree.db, || b("made"));
    assert_eq!(v, b("made"));
    assert_eq!(m.get(&b("k")), Some(b("made")));
    let v = m.entry(&b("k")).or_insert_with(&mut m.tree.db, || b("ignored"));
    assert_eq!(v, b("made"));
}

#[test]
fn or_insert_with_key_derives_from_the_key() {
    let mut m = LsmMap::new();
    let v = m.entry(&b("ab")).or_insert_with_key(&mut m.tree.db, |k: &Vec<u8>| {
        let mut doubled = k.clone();
        doubled.extend_from_slice(k);
        doubled
    });
    assert_eq!(v, b("abab"));
    assert_eq!(m.get(&b("ab")), Some(b("abab")));
}

#[test]
fn or_default_inserts_the_empty_string() {
    let mut m = LsmMap::new();
    let v = m.entry(&b("k")).or_default(&mut m.tree.db);
    assert_eq!(v, Vec::<u8>::new());
    assert_eq!(m.get(&b("k")), Some(Vec::new()));
}

#[test]
fn entry_key_on_both_variants() {
    let mut m = LsmMap::new();
    m.insert(&b("here"), &b("v"));
    let en = m.entry(&b("here"));
    assert_eq!(en.key(), b("here"));
    en.close(&mut m.tree.db);
    let en = m.entry(&b("gone"));
    assert_eq!(en.key(), b("gone"));
    en.close(&mut m.tree.db);
}

#[test]
fn and_modify_skips_vacant_and_rewrites_occupied() {
    let mut m = LsmMap::new();

    // Vacant: the function is not called, nothing is written.
    let en = m.entry(&b("k")).and_modify(&mut m.tree.db, |_v: &Vec<u8>| {
        panic!("must not be called on a vacant entry")
    });
    assert!(matches!(en, Entry::Vacant(_)));
    en.close(&mut m.tree.db);
    assert_eq!(m.get(&b("k")), None);

    // Occupied, no change: nothing is rewritten.
    m.insert(&b("k"), &b("v1"));
    let en = m.entry(&b("k")).and_modify(&mut m.tree.db, |_v: &Vec<u8>| None);
    en.close(&mut m.tree.db);
    assert_eq!(m.get(&b("k")), Some(b("v1")));

    // Occupied, changed: the new value is written under the same key.
    let en = m.entry(&b("k")).and_modify(&mut m.tree.db, |v: &Vec<u8>| {
        let mut grown = v.clone();
        grown.push(b'!');
        Some(grown)
    });
    en.close(&mut m.tree.db);
    assert_eq!(m.get(&b("k")), Some(b("v1!")));
}

#[test]
fn occupied_insert_returns_the_snapshot_value() {
    let mut m = LsmMap::new();
    m.insert(&b("k"), &b("old"));
    match m.entry(&b("k")) {
        Entry::Occupied(o) => {
            let previous = o.insert(&mut m.tree.db, &b("new"));
            assert_eq!(previous, b("old"));
            // The entry's own snapshot still shows the value from before
            // the write; the store already holds the new one.
            assert_eq!(o.get(), b("old"));
            o.close(&mut m.tree.db);
        },
        Entry::Vacant(_) => panic!("expected the key to be found"),
    }
    assert_eq!(m.get(&b("k")), Some(b("new")));
}

#[test]
fn occupied_remove_and_remove_entry() {
    let mut m = LsmMap::new();
    m.insert(&b("a"), &b("1"));
    m.insert(&b("b"), &b("2"));
    match m.entry(&b("a")) {
        Entry::Occupied(o) => assert_eq!(o.remove(&mut m.tree.db), b("1")),
        Entry::Vacant(_) => panic!("expected the key to be found"),
    }
    match m.entry(&b("b")) {
        Entry::Occupied(o) => {
            assert_eq!(o.remove_entry(&mut m.tree.db), (b("b"), b("2")));
        },
        Entry::Vacant(_) => panic!("expected the key to be found"),
    }
    assert!(m.is_empty());
}

#[test]
fn vacant_insert_returns_the_inserted_value() {
    let mut m = LsmMap::new();
    match m.entry(&b("k")) {
        Entry::Vacant(v) => {
            assert_eq!(v.key(), b("k"));
            let stored = v.insert(&mut m.tree.db, &b("v"));
            assert_eq!(stored, b("v"));
        },
        Entry::Occupied(_) => panic!("expected a miss"),
    }
    assert_eq!(m.get(&b("k")), Some(b("v")));
}
