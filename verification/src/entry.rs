//! A view into a single key of the map, built from one cursor probe.
//!
//! `entry(key)` seeks one cursor exactly to the key.  When the key exists
//! the cursor stays open inside an [`OccupiedEntry`], giving read,
//! overwrite and removal without a second lookup; when it does not, the
//! cursor is closed at once and a [`VacantEntry`] carries just the key.
//! An occupied entry's reads come from its cursor's snapshot, so they show
//! the row as it stood when the entry was built; its terminal operations
//! release the cursor exactly once.

use vstd::prelude::*;

use crate::engine::Cursor;
use crate::engine::Db;
use crate::engine::Seek;
use crate::engine::has_key;
use crate::engine::lemma_key_at;
use crate::engine::value_of;
use crate::order::copy_bytes;
use crate::range::Bound;

verus! {

/// A view into a single entry in a map, which may either be vacant or
/// occupied.
pub enum Entry {
    Vacant(VacantEntry),
    Occupied(OccupiedEntry),
}

/// The key was absent: the entry remembers it for a later insert.
pub struct VacantEntry {
    pub key: Vec<u8>,
}

/// The key was present: the entry holds the cursor still positioned on it.
pub struct OccupiedEntry {
    pub bound: Bound,
}

impl OccupiedEntry {
    /// A well-formed occupied entry: a materialized, well-formed cursor
    /// standing on a row.
    pub open spec fn inv(self) -> bool {
        self.bound matches Bound::Included(c) && c.inv() && c.is_on()
    }

    /// The snapshot the entry's cursor was opened over.
    pub open spec fn snap(self) -> Seq<(Seq<u8>, Seq<u8>)> {
        match self.bound {
            Bound::Included(c) => c@,
            Bound::Unbounded(_) => Seq::empty(),
        }
    }

    /// The key under the entry's cursor.
    pub open spec fn key_view(self) -> Seq<u8> {
        match self.bound {
            Bound::Included(c) => c.cur_key(),
            Bound::Unbounded(_) => Seq::empty(),
        }
    }

    /// The value under the entry's cursor, as it stood when the entry was
    /// built.
    pub open spec fn val_view(self) -> Seq<u8> {
        match self.bound {
            Bound::Included(c) => c.cur_val(),
            Bound::Unbounded(_) => Seq::empty(),
        }
    }

    /// Gets a copy of the key in the entry.
    pub fn key(&self) -> (r: Vec<u8>)
        requires
            self.inv(),
        ensures
            r@ == self.key_view(),
    {
        match &self.bound {
            Bound::Included(c) => match c.key() {
                Ok(k) => k,
                Err(_) => {
                    proof {
                        assert(false);
                    }
                    Vec::new()
                },
            },
            Bound::Unbounded(_) => {
                proof {
                    assert(false);
                }
                Vec::new()
            },
        }
    }

    /// Gets a copy of the value in the entry, as it stood when the entry
    /// was built.
    pub fn get(&self) -> (r: Vec<u8>)
        requires
            self.inv(),
        ensures
            r@ == self.val_view(),
    {
        match &self.bound {
            Bound::Included(c) => match c.val() {
                Ok(v) => v,
                Err(_) => {
                    proof {
                        assert(false);
                    }
                    Vec::new()
                },
            },
            Bound::Unbounded(_) => {
                proof {
                    assert(false);
                }
                Vec::new()
            },
        }
    }

    /// Overwrites the value under the entry's key through the handle and
    /// returns the old value, copied out of the snapshot before the write.
    /// The cursor keeps its position and its snapshot.
    pub fn insert(&self, db: &mut Db, value: &[u8]) -> (r: Vec<u8>)
        requires
            self.inv(),
            old(db).inv(),
            old(db).is_open(),
            old(db).writable(),
        ensures
            final(db).inv(),
            final(db).is_open(),
            final(db).opts == old(db).opts,
            final(db).open_cursors() == old(db).open_cursors(),
            r@ == self.val_view(),
            forall|x: Seq<u8>| #[trigger] value_of(final(db)@, x) == (if x == self.key_view() {
                Some(value@)
            } else {
                value_of(old(db)@, x)
            }),
            has_key(final(db)@, self.key_view()),
            final(db)@.len() == old(db)@.len() + (if has_key(old(db)@, self.key_view()) {
                0int
            } else {
                1int
            }),
    {
        let old_value = self.get();
        let key = self.key();
        let st = db.insert(key.as_slice(), value);
        match st.ok() {
            Ok(()) => {},
            Err(_) => {
                proof {
                    assert(false);
                }
            },
        }
        old_value
    }

    /// Takes the value of the entry out of the map and returns it,
    /// releasing the cursor.
    pub fn remove(self, db: &mut Db) -> (r: Vec<u8>)
        requires
            self.inv(),
            old(db).inv(),
            old(db).is_open(),
            old(db).writable(),
            old(db).open_cursors() >= 1,
        ensures
            final(db).inv(),
            final(db).is_open(),
            final(db).opts == old(db).opts,
            final(db).open_cursors() == old(db).open_cursors() - 1,
            r@ == self.val_view(),
            forall|x: Seq<u8>| #[trigger] value_of(final(db)@, x) == (if x == self.key_view() {
                None
            } else {
                value_of(old(db)@, x)
            }),
            !has_key(final(db)@, self.key_view()),
            final(db)@.len() == old(db)@.len() - (if has_key(old(db)@, self.key_view()) {
                1int
            } else {
                0int
            }),
    {
        let (_, value) = self.remove_entry(db);
        value
    }

    /// Takes the key and the value out of the map and returns them,
    /// releasing the cursor.
    pub fn remove_entry(self, db: &mut Db) -> (r: (Vec<u8>, Vec<u8>))
        requires
            self.inv(),
            old(db).inv(),
            old(db).is_open(),
            old(db).writable(),
            old(db).open_cursors() >= 1,
        ensures
            final(db).inv(),
            final(db).is_open(),
            final(db).opts == old(db).opts,
            final(db).open_cursors() == old(db).open_cursors() - 1,
            r.0@ == self.key_view(),
            r.1@ == self.val_view(),
            forall|x: Seq<u8>| #[trigger] value_of(final(db)@, x) == (if x == self.key_view() {
                None
            } else {
                value_of(old(db)@, x)
            }),
            !has_key(final(db)@, self.key_view()),
            final(db)@.len() == old(db)@.len() - (if has_key(old(db)@, self.key_view()) {
                1int
            } else {
                0int
            }),
    {
        let key = self.key();
        let value = self.get();
        let st = db.delete(key.as_slice());
        match st.ok() {
            Ok(()) => {},
            Err(_) => {
                proof {
                    assert(false);
                }
            },
        }
        self.close(db);
        (key, value)
    }

    /// Releases the entry's cursor without touching the stored rows: the
    /// path taken when the entry is given up without a terminal operation.
    pub fn close(self, db: &mut Db)
        requires
            self.inv(),
            old(db).open_cursors() >= 1,
        ensures
            final(db)@ == old(db)@,
            final(db).inv() == old(db).inv(),
            final(db).is_open() == old(db).is_open(),
            final(db).opts == old(db).opts,
            final(db).open_cursors() == old(db).open_cursors() - 1,
    {
        match self.bound {
            Bound::Included(c) => db.csr_close(c),
            Bound::Unbounded(_) => {
                proof {
                    assert(false);
                }
            },
        }
    }
}

impl VacantEntry {
    /// Gets a copy of the key that would be used when inserting through
    /// this entry.
    pub fn key(&self) -> (r: Vec<u8>)
        ensures
            r@ == self.key@,
    {
        copy_bytes(self.key.as_slice())
    }

    /// Takes ownership of the key.
    pub fn into_key(self) -> (r: Vec<u8>)
        ensures
            r@ == self.key@,
    {
        self.key
    }

    /// Stores `value` under the entry's key and returns a copy of it.
    pub fn insert(self, db: &mut Db, value: &[u8]) -> (r: Vec<u8>)
        requires
            old(db).inv(),
            old(db).is_open(),
            old(db).writable(),
        ensures
            final(db).inv(),
            final(db).is_open(),
            final(db).opts == old(db).opts,
            final(db).open_cursors() == old(db).open_cursors(),
            r@ == value@,
            forall|x: Seq<u8>| #[trigger] value_of(final(db)@, x) == (if x == self.key@ {
                Some(value@)
            } else {
                value_of(old(db)@, x)
            }),
            has_key(final(db)@, self.key@),
            final(db)@.len() == old(db)@.len() + (if has_key(old(db)@, self.key@) {
                0int
            } else {
                1int
            }),
    {
        let st = db.insert(self.key.as_slice(), value);
        match st.ok() {
            Ok(()) => {},
            Err(_) => {
                proof {
                    assert(false);
                }
            },
        }
        copy_bytes(value)
    }
}

impl Entry {
    /// A well-formed entry.
    pub open spec fn inv(self) -> bool {
        match self {
            Entry::Vacant(_) => true,
            Entry::Occupied(o) => o.inv(),
        }
    }

    /// How many cursors the entry holds open: one when occupied.
    pub open spec fn cursors_held(self) -> nat {
        match self {
            Entry::Vacant(_) => 0nat,
            Entry::Occupied(_) => 1nat,
        }
    }

    /// The key the entry stands for.
    pub open spec fn key_view(self) -> Seq<u8> {
        match self {
            Entry::Vacant(v) => v.key@,
            Entry::Occupied(o) => o.key_view(),
        }
    }

    /// Probes `db` for `key` with a single exact seek: the occupied entry
    /// keeps its cursor open on the found row; on a miss the cursor is
    /// closed at once and only the key is kept.  Fails with `Misuse` on a
    /// closed handle, in which case nothing stays open.
    pub fn new_in(db: &mut Db, key: &[u8]) -> (r: Result<Entry, crate::Error>)
        requires
            old(db).inv(),
        ensures
            final(db).inv(),
            final(db)@ == old(db)@,
            final(db).is_open() == old(db).is_open(),
            final(db).opts == old(db).opts,
            r is Ok <==> old(db).is_open(),
            r matches Err(e) ==> e == crate::Error::Misuse && final(db).open_cursors() == old(
                db,
            ).open_cursors(),
            r matches Ok(en) ==> {
                &&& en.inv()
                &&& en.key_view() == key@
                &&& (en is Occupied <==> has_key(old(db)@, key@))
                &&& (en matches Entry::Occupied(o) ==> o.snap() == old(db)@ && value_of(
                    old(db)@,
                    key@,
                ) == Some(o.val_view()))
                &&& final(db).open_cursors() == old(db).open_cursors() + en.cursors_held()
            },
    {
        let mut cursor = match db.csr_open() {
            Ok(c) => c,
            Err(e) => {
                return Err(crate::Error::from(e));
            },
        };
        cursor.seek(key, Seek::EQ);
        if cursor.valid() {
            proof {
                let es = cursor@;
                let j = cursor.idx();
                assert(es[j].0 == key@);
                lemma_key_at(es, j);
            }
            Ok(Entry::Occupied(OccupiedEntry { bound: Bound::Included(cursor) }))
        } else {
            db.csr_close(cursor);
            Ok(Entry::Vacant(VacantEntry { key: copy_bytes(key) }))
        }
    }

    /// Gets a copy of this entry's key.
    pub fn key(&self) -> (r: Vec<u8>)
        requires
            self.inv(),
        ensures
            r@ == self.key_view(),
    {
        match self {
            Entry::Vacant(v) => v.key(),
            Entry::Occupied(o) => o.key(),
        }
    }

    /// Ensures a value is in the entry by inserting `default` when the
    /// entry is vacant, and returns the value now standing for the key: an
    /// occupied entry's stored value, or the inserted default.  Either way
    /// the entry's cursor, if any, is released.
    pub fn or_insert(self, db: &mut Db, default: &[u8]) -> (r: Vec<u8>)
        requires
            self.inv(),
            old(db).inv(),
            old(db).is_open(),
            old(db).writable(),
            old(db).open_cursors() >= self.cursors_held(),
        ensures
            final(db).inv(),
            final(db).is_open(),
            final(db).opts == old(db).opts,
            final(db).open_cursors() == old(db).open_cursors() - self.cursors_held(),
            self matches Entry::Occupied(o) ==> r@ == o.val_view() && final(db)@ == old(db)@,
            self matches Entry::Vacant(v) ==> {
                &&& r@ == default@
                &&& forall|x: Seq<u8>| #[trigger] value_of(final(db)@, x) == (if x == v.key@ {
                    Some(default@)
                } else {
                    value_of(old(db)@, x)
                })
            },
    {
        match self {
            Entry::Occupied(o) => {
                let value = o.get();
                o.close(db);
                value
            },
            Entry::Vacant(v) => v.insert(db, default),
        }
    }

    /// Ensures a value is in the entry by inserting, when the entry is
    /// vacant, whatever the given function produces; returns the value now
    /// standing for the key.  The function is called only on a vacant
    /// entry.
    pub fn or_insert_with<F: FnOnce() -> Vec<u8>>(self, db: &mut Db, default: F) -> (r: Vec<u8>)
        requires
            self.inv(),
            old(db).inv(),
            old(db).is_open(),
            old(db).writable(),
            old(db).open_cursors() >= self.cursors_held(),
            self is Vacant ==> call_requires(default, ()),
        ensures
            final(db).inv(),
            final(db).is_open(),
            final(db).opts == old(db).opts,
            final(db).open_cursors() == old(db).open_cursors() - self.cursors_held(),
            self matches Entry::Occupied(o) ==> r@ == o.val_view() && final(db)@ == old(db)@,
            self matches Entry::Vacant(v) ==> call_ensures(default, (), r) && (forall|x: Seq<u8>|
                #[trigger] value_of(final(db)@, x) == (if x == v.key@ {
                    Some(r@)
                } else {
                    value_of(old(db)@, x)
                })),
    {
        match self {
            Entry::Occupied(o) => {
                let value = o.get();
                o.close(db);
                value
            },
            Entry::Vacant(v) => {
                let value = default();
                let st = db.insert(v.key.as_slice(), value.as_slice());
                match st.ok() {
                    Ok(()) => {},
                    Err(_) => {
                        proof {
                            assert(false);
                        }
                    },
                }
                value
            },
        }
    }

    /// Like [`Entry::or_insert_with`], but the function receives the key
    /// the entry was built for, so the default can be derived from it.
    pub fn or_insert_with_key<F: FnOnce(&Vec<u8>) -> Vec<u8>>(self, db: &mut Db, default: F) -> (r:
        Vec<u8>)
        requires
            self.inv(),
            old(db).inv(),
            old(db).is_open(),
            old(db).writable(),
            old(db).open_cursors() >= self.cursors_held(),
            self matches Entry::Vacant(v) ==> call_requires(default, (&v.key,)),
        ensures
            final(db).inv(),
            final(db).is_open(),
            final(db).opts == old(db).opts,
            final(db).open_cursors() == old(db).open_cursors() - self.cursors_held(),
            self matches Entry::Occupied(o) ==> r@ == o.val_view() && final(db)@ == old(db)@,
            self matches Entry::Vacant(v) ==> call_ensures(default, (&v.key,), r) && (forall|
                x: Seq<u8>,
            |
                #[trigger] value_of(final(db)@, x) == (if x == v.key@ {
                    Some(r@)
                } else {
                    value_of(old(db)@, x)
                })),
    {
        match self {
            Entry::Occupied(o) => {
                let value = o.get();
                o.close(db);
                value
            },
            Entry::Vacant(v) => {
                let value = default(&v.key);
                let st = db.insert(v.key.as_slice(), value.as_slice());
                match st.ok() {
                    Ok(()) => {},
                    Err(_) => {
                        proof {
                            assert(false);
                        }
                    },
                }
                value
            },
        }
    }

    /// Ensures a value is in the entry by inserting the empty byte string
    /// when the entry is vacant, and returns the value now standing for
    /// the key.
    pub fn or_default(self, db: &mut Db) -> (r: Vec<u8>)
        requires
            self.inv(),
            old(db).inv(),
            old(db).is_open(),
            old(db).writable(),
            old(db).open_cursors() >= self.cursors_held(),
        ensures
            final(db).inv(),
            final(db).is_open(),
            final(db).opts == old(db).opts,
            final(db).open_cursors() == old(db).open_cursors() - self.cursors_held(),
            self matches Entry::Occupied(o) ==> r@ == o.val_view() && final(db)@ == old(db)@,
            self matches Entry::Vacant(v) ==> {
                &&& r@ == Seq::<u8>::empty()
                &&& forall|x: Seq<u8>| #[trigger] value_of(final(db)@, x) == (if x == v.key@ {
                    Some(Seq::<u8>::empty())
                } else {
                    value_of(old(db)@, x)
                })
            },
    {
        let empty: Vec<u8> = Vec::new();
        self.or_insert(db, empty.as_slice())
    }

    /// Applies the function to an occupied entry's value: `None` means no
    /// change was made and nothing is written; `Some` re-inserts the
    /// changed value under the same key.  A vacant entry passes through
    /// untouched, and so does the entry's own cursor, whose snapshot still
    /// shows the value from before the write.
    pub fn and_modify<F: FnOnce(&Vec<u8>) -> Option<Vec<u8>>>(self, db: &mut Db, modify: F) -> (r:
        Entry)
        requires
            self.inv(),
            old(db).inv(),
            self is Occupied ==> old(db).is_open() && old(db).writable(),
            self matches Entry::Occupied(o) ==> forall|v: &Vec<u8>|
                v@ == o.val_view() ==> call_requires(modify, (v,)),
        ensures
            final(db).inv(),
            final(db).is_open() == old(db).is_open(),
            final(db).opts == old(db).opts,
            final(db).open_cursors() == old(db).open_cursors(),
            r == self,
            r.inv(),
            self is Vacant ==> final(db)@ == old(db)@,
            self matches Entry::Occupied(o) ==> exists|dec: Option<Vec<u8>>|
                {
                    &&& #[trigger] call_ensures_modify::<F>(modify, o.val_view(), dec)
                    &&& (dec is None ==> final(db)@ == old(db)@)
                    &&& (dec matches Some(nv) ==> forall|x: Seq<u8>|
                        #[trigger] value_of(final(db)@, x) == (if x == o.key_view() {
                            Some(nv@)
                        } else {
                            value_of(old(db)@, x)
                        }))
                },
    {
        match self {
            Entry::Vacant(v) => Entry::Vacant(v),
            Entry::Occupied(o) => {
                let current = o.get();
                let decision = modify(&current);
                match decision {
                    Option::None => {
                        proof {
                            assert(call_ensures(modify, (&current,), Option::<Vec<u8>>::None));
                            assert(call_ensures_modify::<F>(modify, o.val_view(), Option::None));
                        }
                    },
                    Option::Some(nv) => {
                        let key = o.key();
                        let st = db.insert(key.as_slice(), nv.as_slice());
                        match st.ok() {
                            Ok(()) => {},
                            Err(_) => {
                                proof {
                                    assert(false);
                                }
                            },
                        }
                        proof {
                            assert(call_ensures_modify::<F>(modify, o.val_view(), Some(nv)));
                        }
                    },
                }
                Entry::Occupied(o)
            },
        }
    }

    /// Releases whatever the entry holds open; a vacant entry holds
    /// nothing.
    pub fn close(self, db: &mut Db)
        requires
            self.inv(),
            old(db).open_cursors() >= self.cursors_held(),
        ensures
            final(db)@ == old(db)@,
            final(db).inv() == old(db).inv(),
            final(db).is_open() == old(db).is_open(),
            final(db).opts == old(db).opts,
            final(db).open_cursors() == old(db).open_cursors() - self.cursors_held(),
    {
        match self {
            Entry::Vacant(_) => {},
            Entry::Occupied(o) => o.close(db),
        }
    }
}

/// The function passed to [`Entry::and_modify`] may return `dec` when
/// handed some copy of the entry's value `v`.
pub open spec fn call_ensures_modify<F: FnOnce(&Vec<u8>) -> Option<Vec<u8>>>(
    f: F,
    v: Seq<u8>,
    dec: Option<Vec<u8>>,
) -> bool {
    exists|arg: &Vec<u8>| arg@ == v && #[trigger] call_ensures(f, (arg,), dec)
}

} // verus!