use lsm_map::Error;
use lsm_map::Tree;
use lsm_map::engine;
use lsm_map::engine::Db;
use lsm_map::engine::Open;
use lsm_map::engine::Options;
use lsm_map::engine::Seek;
use lsm_map::entry::Entry;
use lsm_map::map::LsmMap;
use lsm_map::order::cmp_bytes;
use lsm_map::order::copy_bytes;
use lsm_map::range::Bound;
use lsm_map::range::Direction;
use lsm_map::range::KeyBound;
use lsm_map::range::RangeBounds;

fn b(s: &str) -> Vec<u8> {
    s.as_bytes().to_vec()
}

fn filled_db() -> Db {
    let mut db = Db::open(Options::default());
    assert_eq!(db.insert(&b("b"), &b("2")), engine::Error::Okay);
    assert_eq!(db.insert(&b("d"), &b("4")), engine::Error::Okay);
    assert_eq!(db.insert(&b("f"), &b("6")), engine::Error::Okay);
    db
}

#[test]
fn cmp_bytes_is_bytewise_lexicographic() {
    assert_eq!(cmp_bytes(b"abc", b"abd"), -1);
    assert_eq!(cmp_bytes(b"abd", b"abc"), 1);
    assert_eq!(cmp_bytes(b"abc", b"abc"), 0);
    assert_eq!(cmp_bytes(b"ab", b"abc"), -1);
    assert_eq!(cmp_bytes(b"abc", b"ab"), 1);
    assert_eq!(cmp_bytes(b"", b""), 0);
    assert_eq!(cmp_bytes(b"", b"a"), -1);
    assert_eq!(cmp_bytes(&[0xff], &[0x00, 0x00]), 1);
}

#[test]
fn copy_bytes_copies() {
    let v = b("hello");
    let c = copy_bytes(&v);
    assert_eq!(c, v);
    assert_eq!(copy_bytes(&[]), Vec::<u8>::new());
}

#[test]
fn status_ok_maps_each_class() {
    assert_eq!(engine::Error::Okay.ok(), Ok(()));
    for st in [
        engine::Error::Error,
        engine::Error::Busy,
        engine::Error::Nomem,
        engine::Error::IoErr,
        engine::Error::Corrupt,
        engine::Error::Full,
        engine::Error::CantOpen,
        engine::Error::Protocol,
        engine::Error::Misuse,
        engine::Error::NoEnt,
    ] {
        assert_eq!(st.ok(), Err(st));
    }
}

#[test]
fn error_from_status_keeps_the_class() {
    assert_eq!(Error::from(engine::Error::Busy), Error::Busy);
    assert_eq!(Error::from(engine::Error::NoEnt), Error::NoEnt);
    assert_eq!(Error::from(engine::Error::Misuse), Error::Misuse);
}

#[test]
fn seek_modes_position_as_documented() {
    let mut db = filled_db();
    let mut c = db.csr_open().unwrap();

    c.seek(&b("d"), Seek::EQ);
    assert!(c.valid());
    assert_eq!(c.key().unwrap(), b("d"));
    c.seek(&b("c"), Seek::EQ);
    assert!(!c.valid());

    c.seek(&b("c"), Seek::GE);
    assert_eq!(c.key().unwrap(), b("d"));
    c.seek(&b("g"), Seek::GE);
    assert!(!c.valid());

    c.seek(&b("c"), Seek::LE);
    assert_eq!(c.key().unwrap(), b("b"));
    c.seek(&b("a"), Seek::LE);
    assert!(!c.valid());

    c.seek(&b("e"), Seek::LEFast);
    assert_eq!(c.key().unwrap(), b("d"));

    db.csr_close(c);
}

#[test]
fn cursor_walks_and_compares() {
    let mut db = filled_db();
    let mut c = db.csr_open().unwrap();
    c.first();
    assert_eq!(c.key().unwrap(), b("b"));
    assert_eq!(c.val().unwrap(), b("2"));
    assert_eq!(c.cmp(&b("c")).unwrap(), -1);
    assert_eq!(c.cmp(&b("b")).unwrap(), 0);
    assert_eq!(c.cmp(&b("a")).unwrap(), 1);
    c.next();
    assert_eq!(c.key().unwrap(), b("d"));
    c.prev();
    assert_eq!(c.key().unwrap(), b("b"));
    c.prev();
    assert!(!c.valid());
    assert_eq!(c.key(), Err(engine::Error::Misuse));
    assert_eq!(c.val(), Err(engine::Error::Misuse));
    assert_eq!(c.cmp(&b("b")), Err(engine::Error::Misuse));
    c.last();
    assert_eq!(c.key().unwrap(), b("f"));
    db.csr_close(c);
}

#[test]
fn cursor_snapshot_ignores_later_writes() {
    let mut db = filled_db();
    let mut c = db.csr_open().unwrap();
    assert_eq!(db.insert(&b("z"), &b("26")), engine::Error::Okay);
    c.last();
    assert_eq!(c.key().unwrap(), b("f"));
    db.csr_close(c);
    let mut c = db.csr_open().unwrap();
    c.last();
    assert_eq!(c.key().unwrap(), b("z"));
    db.csr_close(c);
}

#[test]
fn closed_handle_refuses_everything() {
    let mut db = filled_db();
    db.close();
    assert!(db.csr_open().is_err());
    assert_eq!(db.insert(&b("k"), &b("v")), engine::Error::Misuse);
    assert_eq!(db.delete(&b("b")), engine::Error::Misuse);
}

#[test]
fn read_only_handle_refuses_writes() {
    let opts = Options { mode: Open::ReadOnly, ..Options::default() };
    let mut db = Db::open(opts);
    assert_eq!(db.insert(&b("k"), &b("v")), engine::Error::Misuse);
    assert_eq!(db.delete(&b("k")), engine::Error::Misuse);
    // Reads still work: a cursor opens fine on the (empty) store.
    let c = db.csr_open().unwrap();
    db.csr_close(c);
}

#[test]
fn delete_of_absent_key_succeeds() {
    let mut db = filled_db();
    assert_eq!(db.delete(&b("nope")), engine::Error::Okay);
    assert_eq!(db.delete(&b("b")), engine::Error::Okay);
    let mut c = db.csr_open().unwrap();
    c.first();
    assert_eq!(c.key().unwrap(), b("d"));
    db.csr_close(c);
}

#[test]
fn no_leak_or_stale_state_after_handle_failure() {
    // Forcing a failure by closing the handle mid-operation must not leave
    // anything behind that disturbs a later, independent handle.
    let mut t = Tree::new(Options::default());
    t.db.insert(&b("a"), &b("1"));
    t.db.close();

    assert_eq!(t.entry(&b("a")).err(), Some(Error::Misuse));
    assert!(Bound::new_in(&mut t.db, KeyBound::Included(b("a")), Direction::Next).is_err());
    assert!(
        RangeBounds::new_in(&mut t.db, KeyBound::Included(b("a")), KeyBound::Unbounded).is_err()
    );
    // An unbounded side opens nothing, so building it still succeeds; the
    // first read then fails and yields nothing.
    let mut rb = RangeBounds::new_in(&mut t.db, KeyBound::Unbounded, KeyBound::Unbounded).unwrap();
    assert_eq!(rb.next(&mut t.db), None);
    rb.close(&mut t.db);

    // A fresh handle is completely unaffected.
    let mut m = LsmMap::new();
    m.insert(&b("a"), &b("fresh"));
    assert_eq!(m.get(&b("a")), Some(b("fresh")));
    assert_eq!(m.pop_first(), Some((b("a"), b("fresh"))));
}

#[test]
fn tree_entry_probes_one_key() {
    let mut t = Tree::new(Options::default());
    t.db.insert(&b("k"), &b("v"));
    match t.entry(&b("k")).unwrap() {
        Entry::Occupied(o) => {
            assert_eq!(o.key(), b("k"));
            assert_eq!(o.get(), b("v"));
            o.close(&mut t.db);
        },
        Entry::Vacant(_) => panic!("expected the key to be found"),
    }
    match t.entry(&b("x")).unwrap() {
        Entry::Vacant(v) => assert_eq!(v.into_key(), b("x")),
        Entry::Occupied(_) => panic!("expected a miss"),
    }
}

#[test]
fn bound_reads_and_writes_through_the_handle() {
    let mut t = Tree::new(Options::default());
    t.db.insert(&b("b"), &b("2"));
    t.db.insert(&b("d"), &b("4"));

    // An unbounded forward bound materializes at the first row.
    let mut bound = Bound::new_in(&mut t.db, KeyBound::Unbounded, Direction::Next).unwrap();
    assert!(!bound.is_bounded());
    assert_eq!(bound.key(&mut t.db).unwrap(), b("b"));
    assert!(bound.is_bounded());
    assert_eq!(bound.val(&mut t.db).unwrap(), b("2"));

    // replace overwrites the row under the cursor; insert writes an
    // explicit key; remove deletes the row under the cursor.
    bound.replace(&mut t.db, &b("two")).unwrap();
    bound.insert(&mut t.db, &b("c"), &b("3")).unwrap();
    bound.remove(&mut t.db).unwrap();

    let mut probe = t.db.csr_open().unwrap();
    probe.seek(&b("b"), Seek::EQ);
    assert!(!probe.valid());
    probe.seek(&b("c"), Seek::EQ);
    assert!(probe.valid());
    assert_eq!(probe.val().unwrap(), b("3"));
    t.db.csr_close(probe);
    match bound {
        Bound::Included(c) => t.db.csr_close(c),
        Bound::Unbounded(_) => {},
    }
}
