use lsm_map::map::LsmMap;
use lsm_map::range::KeyBound;

fn b(s: &str) -> Vec<u8> {
    s.as_bytes().to_vec()
}

fn drain_forward(m: &mut LsmMap, lo: KeyBound, hi: KeyBound) -> Vec<(Vec<u8>, Vec<u8>)> {
    let mut rb = m.range(lo, hi);
    let mut out = Vec::new();
    while let Some(p) = rb.next(&mut m.tree.db) {
        out.push(p);
    }
    rb.close(&mut m.tree.db);
    out
}

fn drain_backward(m: &mut LsmMap, lo: KeyBound, hi: KeyBound) -> Vec<(Vec<u8>, Vec<u8>)> {
    let mut rb = m.range(lo, hi);
    let mut out = Vec::new();
    while let Some(p) = rb.next_back(&mut m.tree.db) {
        out.push(p);
    }
    rb.close(&mut m.tree.db);
    out
}

#[test]
fn concrete_scenario_three_rows() {
    // Rows 0x01 -> "a", 0x03 -> "c", 0x05 -> "e".
    let mut m = LsmMap::new();
    m.insert(&[0x01], b"a");
    m.insert(&[0x03], b"c");
    m.insert(&[0x05], b"e");

    // range [0x01, 0x05) ascending yields a, c.
    let fwd = drain_forward(
        &mut m,
        KeyBound::Included(vec![0x01]),
        KeyBound::Excluded(vec![0x05]),
    );
    let fwd_vals: Vec<Vec<u8>> = fwd.iter().map(|p| p.1.clone()).collect();
    assert_eq!(fwd_vals, vec![b("a"), b("c")]);

    // The same range drained backwards yields c, a.
    let bwd = drain_backward(
        &mut m,
        KeyBound::Included(vec![0x01]),
        KeyBound::Excluded(vec![0x05]),
    );
    let bwd_vals: Vec<Vec<u8>> = bwd.iter().map(|p| p.1.clone()).collect();
    assert_eq!(bwd_vals, vec![b("c"), b("a")]);

    // range [0x03, 0x05] yields c, e.
    let inc = drain_forward(
        &mut m,
        KeyBound::Included(vec![0x03]),
        KeyBound::Included(vec![0x05]),
    );
    let inc_vals: Vec<Vec<u8>> = inc.iter().map(|p| p.1.clone()).collect();
    assert_eq!(inc_vals, vec![b("c"), b("e")]);
}

#[test]
fn half_open_bounds_forward_and_backward() {
    // For bounds (Included(a), Excluded(b)) with a < b the yielded keys
    // are exactly { k : a <= k < b }, from either direction.
    let mut m = LsmMap::new();
    for k in ["1", "2", "3", "4", "5"].iter() {
        m.insert(&b(k), &b(k));
    }
    let fwd = drain_forward(&mut m, KeyBound::Included(b("2")), KeyBound::Excluded(b("5")));
    let fwd_keys: Vec<Vec<u8>> = fwd.iter().map(|p| p.0.clone()).collect();
    assert_eq!(fwd_keys, vec![b("2"), b("3"), b("4")]);
    let bwd = drain_backward(&mut m, KeyBound::Included(b("2")), KeyBound::Excluded(b("5")));
    let bwd_keys: Vec<Vec<u8>> = bwd.iter().map(|p| p.0.clone()).collect();
    assert_eq!(bwd_keys, vec![b("4"), b("3"), b("2")]);
}

#[test]
fn excluded_bound_exactness() {
    // (Excluded(k), Unbounded) never yields k when k exists, and behaves
    // as Included(k) when it does not.
    let mut m = LsmMap::new();
    for k in ["1", "3", "5"].iter() {
        m.insert(&b(k), &b(k));
    }
    let present = drain_forward(&mut m, KeyBound::Excluded(b("3")), KeyBound::Unbounded);
    let present_keys: Vec<Vec<u8>> = present.iter().map(|p| p.0.clone()).collect();
    assert_eq!(present_keys, vec![b("5")]);

    let absent_excluded = drain_forward(&mut m, KeyBound::Excluded(b("2")), KeyBound::Unbounded);
    let absent_included = drain_forward(&mut m, KeyBound::Included(b("2")), KeyBound::Unbounded);
    assert_eq!(absent_excluded, absent_included);
    let keys: Vec<Vec<u8>> = absent_excluded.iter().map(|p| p.0.clone()).collect();
    assert_eq!(keys, vec![b("3"), b("5")]);
}

#[test]
fn single_row_yields_once_from_either_end() {
    let mut m = LsmMap::new();
    m.insert(&b("k"), &b("v"));

    // Forward only.
    let mut rb = m.range(KeyBound::Unbounded, KeyBound::Unbounded);
    assert_eq!(rb.next(&mut m.tree.db), Some((b("k"), b("v"))));
    assert_eq!(rb.next(&mut m.tree.db), None);
    assert_eq!(rb.next_back(&mut m.tree.db), None);
    rb.close(&mut m.tree.db);

    // Backward only.
    let mut rb = m.range(KeyBound::Unbounded, KeyBound::Unbounded);
    assert_eq!(rb.next_back(&mut m.tree.db), Some((b("k"), b("v"))));
    assert_eq!(rb.next_back(&mut m.tree.db), None);
    assert_eq!(rb.next(&mut m.tree.db), None);
    rb.close(&mut m.tree.db);

    // Forward first, then backward.
    let mut rb = m.range(KeyBound::Unbounded, KeyBound::Unbounded);
    assert_eq!(rb.next(&mut m.tree.db), Some((b("k"), b("v"))));
    assert_eq!(rb.next_back(&mut m.tree.db), None);
    assert_eq!(rb.next(&mut m.tree.db), None);
    rb.close(&mut m.tree.db);

    // Backward first, then forward.
    let mut rb = m.range(KeyBound::Unbounded, KeyBound::Unbounded);
    assert_eq!(rb.next_back(&mut m.tree.db), Some((b("k"), b("v"))));
    assert_eq!(rb.next(&mut m.tree.db), None);
    assert_eq!(rb.next_back(&mut m.tree.db), None);
    rb.close(&mut m.tree.db);
}

#[test]
fn two_rows_interleaved_no_duplicate_no_omission() {
    let mut m = LsmMap::new();
    m.insert(&b("x"), &b("1"));
    m.insert(&b("y"), &b("2"));

    // next, next_back: each row exactly once.
    let mut rb = m.range(KeyBound::Unbounded, KeyBound::Unbounded);
    assert_eq!(rb.next(&mut m.tree.db), Some((b("x"), b("1"))));
    assert_eq!(rb.next_back(&mut m.tree.db), Some((b("y"), b("2"))));
    assert_eq!(rb.next(&mut m.tree.db), None);
    assert_eq!(rb.next_back(&mut m.tree.db), None);
    rb.close(&mut m.tree.db);

    // next_back, next: same rows, no duplicate.
    let mut rb = m.range(KeyBound::Unbounded, KeyBound::Unbounded);
    assert_eq!(rb.next_back(&mut m.tree.db), Some((b("y"), b("2"))));
    assert_eq!(rb.next(&mut m.tree.db), Some((b("x"), b("1"))));
    assert_eq!(rb.next_back(&mut m.tree.db), None);
    assert_eq!(rb.next(&mut m.tree.db), None);
    rb.close(&mut m.tree.db);
}

#[test]
fn range_is_empty_checks_start_side() {
    let mut m = LsmMap::new();
    let mut rb = m.range(KeyBound::Unbounded, KeyBound::Unbounded);
    assert!(rb.is_empty(&mut m.tree.db));
    rb.close(&mut m.tree.db);
    m.insert(&b("a"), &b("1"));
    let mut rb = m.range(KeyBound::Unbounded, KeyBound::Unbounded);
    assert!(!rb.is_empty(&mut m.tree.db));
    rb.close(&mut m.tree.db);
    // No key at or above "b": the start side cannot stand anywhere.
    let mut rb = m.range(KeyBound::Included(b("b")), KeyBound::Unbounded);
    assert!(rb.is_empty(&mut m.tree.db));
    rb.close(&mut m.tree.db);
}

#[test]
fn iter_walks_everything_both_ways() {
    let mut m = LsmMap::new();
    m.insert(&b("b"), &b("2"));
    m.insert(&b("a"), &b("1"));
    m.insert(&b("c"), &b("3"));
    let mut it = m.iter();
    assert_eq!(it.next(&mut m.tree.db), Some((b("a"), b("1"))));
    assert_eq!(it.next_back(&mut m.tree.db), Some((b("c"), b("3"))));
    assert_eq!(it.next(&mut m.tree.db), Some((b("b"), b("2"))));
    assert_eq!(it.next(&mut m.tree.db), None);
    it.close(&mut m.tree.db);
}

#[test]
fn excluded_key_past_the_end_gives_empty_range() {
    let mut m = LsmMap::new();
    m.insert(&b("a"), &b("1"));
    let fwd = drain_forward(&mut m, KeyBound::Excluded(b("z")), KeyBound::Unbounded);
    assert!(fwd.is_empty());
    let bwd = drain_backward(&mut m, KeyBound::Unbounded, KeyBound::Excluded(b("A")));
    assert!(bwd.is_empty());
}
