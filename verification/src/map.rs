//! The ordered-map facade.
//!
//! [`LsmMap`] owns the database handle and composes the engine model, the
//! entry view and the range iterator into the familiar ordered-map surface:
//! point lookups and updates, first/last access, ranges, bulk operations.
//! Every read opens a short-lived cursor and closes it before returning, and
//! every contract says so: the handle's count of open cursors is stated
//! exactly, operation by operation.
//!
//! All operations require the facade to still be open; [`LsmMap::close`]
//! models teardown, after which the handle refuses everything.

use vstd::prelude::*;

use crate::Tree;
use crate::engine::Cursor;
use crate::engine::Db;
use crate::engine::Seek;
use crate::engine::has_key;
use crate::engine::lemma_key_at;
use crate::engine::value_of;
use crate::order::lex_lt;
use crate::order::lemma_lex_trichotomy;
use crate::entry::Entry;
use crate::entry::OccupiedEntry;
use crate::range::Bound;
use crate::range::Direction;
use crate::range::KeyBound;
use crate::range::RangeBounds;

verus! {

/// An ordered map from byte strings to byte strings, backed by the storage
/// engine's handle/cursor protocol.
pub struct LsmMap {
    pub tree: Tree,
}

impl LsmMap {
    /// A well-formed map: the handle's rows are strictly sorted.
    pub open spec fn inv(self) -> bool {
        self.tree.db.inv()
    }

    /// The stored rows, in ascending key order.
    pub open spec fn view(self) -> Seq<(Seq<u8>, Seq<u8>)> {
        self.tree.db@
    }

    /// The facade has not been torn down.
    pub open spec fn is_open(self) -> bool {
        self.tree.db.is_open()
    }

    /// The handle accepts writes.
    pub open spec fn writable(self) -> bool {
        self.tree.db.writable()
    }

    /// How many cursors are open against the handle.
    pub open spec fn open_cursors(self) -> nat {
        self.tree.db.open_cursors()
    }

    /// Opens a fresh, empty, writable map.
    pub fn new() -> (r: LsmMap)
        ensures
            r.inv(),
            r.view() == Seq::<(Seq<u8>, Seq<u8>)>::empty(),
            r.is_open(),
            r.writable(),
            r.open_cursors() == 0,
    {
        LsmMap { tree: Tree::new(Default::default()) }
    }

    /// Tears the facade down, releasing the handle: every later operation
    /// through it is invalid.
    pub fn close(&mut self)
        ensures
            final(self).view() == old(self).view(),
            final(self).inv() == old(self).inv(),
            !final(self).is_open(),
            final(self).open_cursors() == old(self).open_cursors(),
    {
        self.tree.db.close();
    }

    /// Returns a copy of the value corresponding to the key.
    pub fn get(&mut self, key: &[u8]) -> (r: Option<Vec<u8>>)
        requires
            old(self).inv(),
            old(self).is_open(),
        ensures
            final(self).inv(),
            final(self).view() == old(self).view(),
            final(self).is_open(),
            final(self).writable() == old(self).writable(),
            final(self).open_cursors() == old(self).open_cursors(),
            r is Some <==> has_key(old(self).view(), key@),
            r matches Some(v) ==> value_of(old(self).view(), key@) == Some(v@),
    {
        let en = match Entry::new_in(&mut self.tree.db, key) {
            Ok(en) => en,
            Err(_) => {
                proof {
                    assert(false);
                }
                return None;
            },
        };
        match en {
            Entry::Vacant(_) => None,
            Entry::Occupied(o) => {
                let value = o.get();
                o.close(&mut self.tree.db);
                Some(value)
            },
        }
    }

    /// Returns copies of the key-value pair corresponding to the key.
    pub fn get_key_value(&mut self, key: &[u8]) -> (r: Option<(Vec<u8>, Vec<u8>)>)
        requires
            old(self).inv(),
            old(self).is_open(),
        ensures
            final(self).inv(),
            final(self).view() == old(self).view(),
            final(self).is_open(),
            final(self).writable() == old(self).writable(),
            final(self).open_cursors() == old(self).open_cursors(),
            r is Some <==> has_key(old(self).view(), key@),
            r matches Some(p) ==> p.0@ == key@ && value_of(old(self).view(), key@) == Some(p.1@),
    {
        let en = match Entry::new_in(&mut self.tree.db, key) {
            Ok(en) => en,
            Err(_) => {
                proof {
                    assert(false);
                }
                return None;
            },
        };
        match en {
            Entry::Vacant(_) => None,
            Entry::Occupied(o) => {
                let k = o.key();
                let value = o.get();
                o.close(&mut self.tree.db);
                Some((k, value))
            },
        }
    }

    /// Returns whether the map contains a value for the key.
    pub fn contains_key(&mut self, key: &[u8]) -> (r: bool)
        requires
            old(self).inv(),
            old(self).is_open(),
        ensures
            final(self).inv(),
            final(self).view() == old(self).view(),
            final(self).is_open(),
            final(self).writable() == old(self).writable(),
            final(self).open_cursors() == old(self).open_cursors(),
            r == has_key(old(self).view(), key@),
    {
        let en = match Entry::new_in(&mut self.tree.db, key) {
            Ok(en) => en,
            Err(_) => {
                proof {
                    assert(false);
                }
                return false;
            },
        };
        match en {
            Entry::Vacant(_) => false,
            Entry::Occupied(o) => {
                o.close(&mut self.tree.db);
                true
            },
        }
    }

    /// Inserts a key-value pair into the map.  Returns the previous value
    /// under the key, if there was one.
    pub fn insert(&mut self, key: &[u8], value: &[u8]) -> (r: Option<Vec<u8>>)
        requires
            old(self).inv(),
            old(self).is_open(),
            old(self).writable(),
        ensures
            final(self).inv(),
            final(self).is_open(),
            final(self).writable(),
            final(self).open_cursors() == old(self).open_cursors(),
            r is Some <==> has_key(old(self).view(), key@),
            r matches Some(v) ==> value_of(old(self).view(), key@) == Some(v@),
            forall|x: Seq<u8>| #[trigger] value_of(final(self).view(), x) == (if x == key@ {
                Some(value@)
            } else {
                value_of(old(self).view(), x)
            }),
            has_key(final(self).view(), key@),
            final(self).view().len() == old(self).view().len() + (if has_key(
                old(self).view(),
                key@,
            ) {
                0int
            } else {
                1int
            }),
    {
        let en = match Entry::new_in(&mut self.tree.db, key) {
            Ok(en) => en,
            Err(_) => {
                proof {
                    assert(false);
                }
                return None;
            },
        };
        match en {
            Entry::Vacant(v) => {
                let _ = v.insert(&mut self.tree.db, value);
                None
            },
            Entry::Occupied(o) => {
                let previous = o.insert(&mut self.tree.db, value);
                o.close(&mut self.tree.db);
                Some(previous)
            },
        }
    }

    /// Removes a key from the map, returning its value if the key was
    /// present.
    pub fn remove(&mut self, key: &[u8]) -> (r: Option<Vec<u8>>)
        requires
            old(self).inv(),
            old(self).is_open(),
            old(self).writable(),
        ensures
            final(self).inv(),
            final(self).is_open(),
            final(self).writable(),
            final(self).open_cursors() == old(self).open_cursors(),
            r is Some <==> has_key(old(self).view(), key@),
            r matches Some(v) ==> value_of(old(self).view(), key@) == Some(v@),
            forall|x: Seq<u8>| #[trigger] value_of(final(self).view(), x) == (if x == key@ {
                None
            } else {
                value_of(old(self).view(), x)
            }),
            !has_key(final(self).view(), key@),
            final(self).view().len() == old(self).view().len() - (if has_key(
                old(self).view(),
                key@,
            ) {
                1int
            } else {
                0int
            }),
    {
        let en = match Entry::new_in(&mut self.tree.db, key) {
            Ok(en) => en,
            Err(_) => {
                proof {
                    assert(false);
                }
                return None;
            },
        };
        match en {
            Entry::Vacant(_) => None,
            Entry::Occupied(o) => Some(o.remove(&mut self.tree.db)),
        }
    }

    /// Removes a key from the map, returning the stored key and value if
    /// the key was present.
    pub fn remove_entry(&mut self, key: &[u8]) -> (r: Option<(Vec<u8>, Vec<u8>)>)
        requires
            old(self).inv(),
            old(self).is_open(),
            old(self).writable(),
        ensures
            final(self).inv(),
            final(self).is_open(),
            final(self).writable(),
            final(self).open_cursors() == old(self).open_cursors(),
            r is Some <==> has_key(old(self).view(), key@),
            r matches Some(p) ==> p.0@ == key@ && value_of(old(self).view(), key@) == Some(p.1@),
            forall|x: Seq<u8>| #[trigger] value_of(final(self).view(), x) == (if x == key@ {
                None
            } else {
                value_of(old(self).view(), x)
            }),
            !has_key(final(self).view(), key@),
            final(self).view().len() == old(self).view().len() - (if has_key(
                old(self).view(),
                key@,
            ) {
                1int
            } else {
                0int
            }),
    {
        let en = match Entry::new_in(&mut self.tree.db, key) {
            Ok(en) => en,
            Err(_) => {
                proof {
                    assert(false);
                }
                return None;
            },
        };
        match en {
            Entry::Vacant(_) => None,
            Entry::Occupied(o) => Some(o.remove_entry(&mut self.tree.db)),
        }
    }

    /// Gets the entry for the key, for in-place manipulation: a single
    /// probe that later insert, overwrite or removal reuses.
    pub fn entry(&mut self, key: &[u8]) -> (r: Entry)
        requires
            old(self).inv(),
            old(self).is_open(),
        ensures
            final(self).inv(),
            final(self).view() == old(self).view(),
            final(self).is_open(),
            final(self).writable() == old(self).writable(),
            r.inv(),
            r.key_view() == key@,
            (r is Occupied <==> has_key(old(self).view(), key@)),
            r matches Entry::Occupied(o) ==> o.snap() == old(self).view() && value_of(
                old(self).view(),
                key@,
            ) == Some(o.val_view()),
            final(self).open_cursors() == old(self).open_cursors() + r.cursors_held(),
    {
        match Entry::new_in(&mut self.tree.db, key) {
            Ok(en) => en,
            Err(_) => {
                proof {
                    assert(false);
                }
                Entry::Vacant(crate::entry::VacantEntry { key: crate::order::copy_bytes(key) })
            },
        }
    }

    /// Constructs a double-ended iterator over the rows whose keys lie
    /// between the two endpoints.
    pub fn range(&mut self, lo: KeyBound, hi: KeyBound) -> (r: RangeBounds)
        requires
            old(self).inv(),
            old(self).is_open(),
        ensures
            final(self).inv(),
            final(self).view() == old(self).view(),
            final(self).is_open(),
            final(self).writable() == old(self).writable(),
            r.inv(),
            r.snap@ == old(self).view(),
            crate::range::start_bound_for(r.start_bound, old(self).view(), lo),
            crate::range::end_bound_for(r.end_bound, old(self).view(), hi),
            final(self).open_cursors() == old(self).open_cursors() + r.cursors_held(),
    {
        match RangeBounds::new_in(&mut self.tree.db, lo, hi) {
            Ok(rb) => rb,
            Err(_) => {
                proof {
                    assert(false);
                }
                RangeBounds {
                    start_bound: Bound::Unbounded(Direction::Next),
                    end_bound: Bound::Unbounded(Direction::Prev),
                    snap: Ghost(old(self).view()),
                }
            },
        }
    }

    /// Returns whether the map contains no rows.
    pub fn is_empty(&mut self) -> (r: bool)
        requires
            old(self).inv(),
            old(self).is_open(),
        ensures
            final(self).inv(),
            final(self).view() == old(self).view(),
            final(self).is_open(),
            final(self).writable() == old(self).writable(),
            final(self).open_cursors() == old(self).open_cursors(),
            r == (old(self).view().len() == 0),
    {
        let mut rb = self.range(KeyBound::Unbounded, KeyBound::Unbounded);
        let empty = rb.is_empty(&mut self.tree.db);
        rb.close(&mut self.tree.db);
        empty
    }

    /// Returns copies of the first key-value pair in the map: the one with
    /// the minimum key.
    pub fn first_key_value(&mut self) -> (r: Option<(Vec<u8>, Vec<u8>)>)
        requires
            old(self).inv(),
            old(self).is_open(),
        ensures
            final(self).inv(),
            final(self).view() == old(self).view(),
            final(self).is_open(),
            final(self).writable() == old(self).writable(),
            final(self).open_cursors() == old(self).open_cursors(),
            r is Some <==> old(self).view().len() > 0,
            r matches Some(p) ==> p.0@ == old(self).view()[0].0 && p.1@ == old(self).view()[0].1,
    {
        match self.first_entry() {
            None => None,
            Some(o) => {
                let k = o.key();
                let v = o.get();
                o.close(&mut self.tree.db);
                Some((k, v))
            },
        }
    }

    /// Returns the first entry in the map for in-place manipulation, with
    /// its cursor held open on the minimum key.
    pub fn first_entry(&mut self) -> (r: Option<OccupiedEntry>)
        requires
            old(self).inv(),
            old(self).is_open(),
        ensures
            final(self).inv(),
            final(self).view() == old(self).view(),
            final(self).is_open(),
            final(self).writable() == old(self).writable(),
            r is Some <==> old(self).view().len() > 0,
            final(self).open_cursors() == old(self).open_cursors() + (if r is Some {
                1nat
            } else {
                0nat
            }),
            r matches Some(o) ==> {
                &&& o.inv()
                &&& o.snap() == old(self).view()
                &&& o.key_view() == old(self).view()[0].0
                &&& o.val_view() == old(self).view()[0].1
            },
    {
        let mut b = match Bound::new_in(&mut self.tree.db, KeyBound::Unbounded, Direction::Next) {
            Ok(b) => b,
            Err(_) => {
                proof {
                    assert(false);
                }
                return None;
            },
        };
        match b.materialize(&mut self.tree.db) {
            Ok(()) => {},
            Err(_) => {
                proof {
                    assert(false);
                }
                return None;
            },
        }
        proof {
            assert(vstd::std_specs::vec::spec_vec_len(&self.tree.db.rows)
                == self.tree.db.rows@.len());
        }
        match b {
            Bound::Included(c) => {
                if c.valid() {
                    Some(OccupiedEntry { bound: Bound::Included(c) })
                } else {
                    self.tree.db.csr_close(c);
                    None
                }
            },
            Bound::Unbounded(_) => {
                proof {
                    assert(false);
                }
                None
            },
        }
    }

    /// Removes and returns the first key-value pair: the one with the
    /// minimum key.
    pub fn pop_first(&mut self) -> (r: Option<(Vec<u8>, Vec<u8>)>)
        requires
            old(self).inv(),
            old(self).is_open(),
            old(self).writable(),
        ensures
            final(self).inv(),
            final(self).is_open(),
            final(self).writable(),
            final(self).open_cursors() == old(self).open_cursors(),
            r is Some <==> old(self).view().len() > 0,
            r is None ==> final(self).view() == old(self).view(),
            r matches Some(p) ==> {
                &&& p.0@ == old(self).view()[0].0
                &&& p.1@ == old(self).view()[0].1
                &&& final(self).view().len() == old(self).view().len() - 1
                &&& forall|x: Seq<u8>| #[trigger] value_of(final(self).view(), x) == (if x == old(self).view()[0].0 {
                    None
                } else {
                    value_of(old(self).view(), x)
                })
            },
    {
        match self.first_entry() {
            None => None,
            Some(o) => {
                proof {
                    lemma_key_at(old(self).view(), 0);
                }
                Some(o.remove_entry(&mut self.tree.db))
            },
        }
    }

    /// Returns copies of the last key-value pair in the map: the one with
    /// the maximum key.
    pub fn last_key_value(&mut self) -> (r: Option<(Vec<u8>, Vec<u8>)>)
        requires
            old(self).inv(),
            old(self).is_open(),
        ensures
            final(self).inv(),
            final(self).view() == old(self).view(),
            final(self).is_open(),
            final(self).writable() == old(self).writable(),
            final(self).open_cursors() == old(self).open_cursors(),
            r is Some <==> old(self).view().len() > 0,
            r matches Some(p) ==> p.0@ == old(self).view().last().0 && p.1@ == old(self).view().last().1,
    {
        match self.last_entry() {
            None => None,
            Some(o) => {
                let k = o.key();
                let v = o.get();
                o.close(&mut self.tree.db);
                Some((k, v))
            },
        }
    }

    /// Returns the last entry in the map for in-place manipulation, with
    /// its cursor held open on the maximum key.
    pub fn last_entry(&mut self) -> (r: Option<OccupiedEntry>)
        requires
            old(self).inv(),
            old(self).is_open(),
        ensures
            final(self).inv(),
            final(self).view() == old(self).view(),
            final(self).is_open(),
            final(self).writable() == old(self).writable(),
            r is Some <==> old(self).view().len() > 0,
            final(self).open_cursors() == old(self).open_cursors() + (if r is Some {
                1nat
            } else {
                0nat
            }),
            r matches Some(o) ==> {
                &&& o.inv()
                &&& o.snap() == old(self).view()
                &&& o.key_view() == old(self).view().last().0
                &&& o.val_view() == old(self).view().last().1
            },
    {
        let mut b = match Bound::new_in(&mut self.tree.db, KeyBound::Unbounded, Direction::Prev) {
            Ok(b) => b,
            Err(_) => {
                proof {
                    assert(false);
                }
                return None;
            },
        };
        match b.materialize(&mut self.tree.db) {
            Ok(()) => {},
            Err(_) => {
                proof {
                    assert(false);
                }
                return None;
            },
        }
        proof {
            assert(vstd::std_specs::vec::spec_vec_len(&self.tree.db.rows)
                == self.tree.db.rows@.len());
        }
        match b {
            Bound::Included(c) => {
                if c.valid() {
                    Some(OccupiedEntry { bound: Bound::Included(c) })
                } else {
                    self.tree.db.csr_close(c);
                    None
                }
            },
            Bound::Unbounded(_) => {
                proof {
                    assert(false);
                }
                None
            },
        }
    }

    /// Removes and returns the last key-value pair: the one with the
    /// maximum key.
    pub fn pop_last(&mut self) -> (r: Option<(Vec<u8>, Vec<u8>)>)
        requires
            old(self).inv(),
            old(self).is_open(),
            old(self).writable(),
        ensures
            final(self).inv(),
            final(self).is_open(),
            final(self).writable(),
            final(self).open_cursors() == old(self).open_cursors(),
            r is Some <==> old(self).view().len() > 0,
            r is None ==> final(self).view() == old(self).view(),
            r matches Some(p) ==> {
                &&& p.0@ == old(self).view().last().0
                &&& p.1@ == old(self).view().last().1
                &&& final(self).view().len() == old(self).view().len() - 1
                &&& forall|x: Seq<u8>| #[trigger] value_of(final(self).view(), x) == (if x == old(self).view().last().0 {
                    None
                } else {
                    value_of(old(self).view(), x)
                })
            },
    {
        match self.last_entry() {
            None => None,
            Some(o) => {
                proof {
                    lemma_key_at(old(self).view(), old(self).view().len() - 1);
                }
                Some(o.remove_entry(&mut self.tree.db))
            },
        }
    }

    /// Gets a lazy iterator over all rows, sorted by key.  Drive it with
    /// [`Iter::next`] and [`Iter::next_back`], handing each call the
    /// map's handle, and release it with [`Iter::close`].
    pub fn iter(&mut self) -> (r: Iter)
        requires
            old(self).inv(),
            old(self).is_open(),
        ensures
            final(self).inv(),
            final(self).view() == old(self).view(),
            final(self).is_open(),
            final(self).writable() == old(self).writable(),
            final(self).open_cursors() == old(self).open_cursors(),
            r.inv(),
            r.range.snap@ == old(self).view(),
            r.range.cursors_held() == 0,
            r.remaining() == old(self).view(),
    {
        let rb = self.range(KeyBound::Unbounded, KeyBound::Unbounded);
        proof {
            assert(rb.remaining() =~= rb.snap@);
        }
        Iter { range: rb }
    }

    /// Copies of all keys, in ascending order.
    pub fn keys(&mut self) -> (r: Vec<Vec<u8>>)
        requires
            old(self).inv(),
            old(self).is_open(),
        ensures
            final(self).inv(),
            final(self).view() == old(self).view(),
            final(self).is_open(),
            final(self).writable() == old(self).writable(),
            final(self).open_cursors() == old(self).open_cursors(),
            r@.len() == old(self).view().len(),
            forall|i: int| 0 <= i < r@.len() ==> (#[trigger] r@[i])@ == old(self).view()[i].0,
    {
        let mut c = match self.tree.db.csr_open() {
            Ok(c) => c,
            Err(_) => {
                proof {
                    assert(false);
                }
                return Vec::new();
            },
        };
        c.first();
        let mut out: Vec<Vec<u8>> = Vec::new();
        while c.valid()
            invariant
                c.inv(),
                !(c.pos is Unset),
                c@ == old(self).view(),
                self.tree.db@ == old(self).view(),
                self.tree.db.inv(),
                self.tree.db.is_open(),
                self.tree.db.opts == old(self).tree.db.opts,
                self.tree.db.open_cursors() == old(self).open_cursors() + 1,
                out@.len() == scan_pos(c),
                forall|t: int| 0 <= t < scan_pos(c) ==> (#[trigger] out@[t])@ == c@[t].0,
            decreases c@.len() - scan_pos(c),
        {
            let k = match c.key() {
                Ok(k) => k,
                Err(_) => {
                    proof {
                        assert(false);
                    }
                    Vec::new()
                },
            };
            out.push(k);
            let ghost before = c;
            c.next();
            proof {
                assert(vstd::std_specs::vec::spec_vec_len(&c.rows) == c.rows@.len());
                assert(scan_pos(c) == scan_pos(before) + 1);
            }
        }
        self.tree.db.csr_close(c);
        out
    }

    /// Copies of all values, in ascending order of their keys.
    pub fn values(&mut self) -> (r: Vec<Vec<u8>>)
        requires
            old(self).inv(),
            old(self).is_open(),
        ensures
            final(self).inv(),
            final(self).view() == old(self).view(),
            final(self).is_open(),
            final(self).writable() == old(self).writable(),
            final(self).open_cursors() == old(self).open_cursors(),
            r@.len() == old(self).view().len(),
            forall|i: int| 0 <= i < r@.len() ==> (#[trigger] r@[i])@ == old(self).view()[i].1,
    {
        let mut c = match self.tree.db.csr_open() {
            Ok(c) => c,
            Err(_) => {
                proof {
                    assert(false);
                }
                return Vec::new();
            },
        };
        c.first();
        let mut out: Vec<Vec<u8>> = Vec::new();
        while c.valid()
            invariant
                c.inv(),
                !(c.pos is Unset),
                c@ == old(self).view(),
                self.tree.db@ == old(self).view(),
                self.tree.db.inv(),
                self.tree.db.is_open(),
                self.tree.db.opts == old(self).tree.db.opts,
                self.tree.db.open_cursors() == old(self).open_cursors() + 1,
                out@.len() == scan_pos(c),
                forall|t: int| 0 <= t < scan_pos(c) ==> (#[trigger] out@[t])@ == c@[t].1,
            decreases c@.len() - scan_pos(c),
        {
            let v = match c.val() {
                Ok(v) => v,
                Err(_) => {
                    proof {
                        assert(false);
                    }
                    Vec::new()
                },
            };
            out.push(v);
            let ghost before = c;
            c.next();
            proof {
                assert(vstd::std_specs::vec::spec_vec_len(&c.rows) == c.rows@.len());
                assert(scan_pos(c) == scan_pos(before) + 1);
            }
        }
        self.tree.db.csr_close(c);
        out
    }

    /// Consumes the map, returning copies of all keys in ascending order.
    pub fn into_keys(self) -> (r: Vec<Vec<u8>>)
        requires
            self.inv(),
            self.is_open(),
        ensures
            r@.len() == self.view().len(),
            forall|i: int| 0 <= i < r@.len() ==> (#[trigger] r@[i])@ == self.view()[i].0,
    {
        let mut this = self;
        this.keys()
    }

    /// Consumes the map, returning copies of all values in ascending order
    /// of their keys.
    pub fn into_values(self) -> (r: Vec<Vec<u8>>)
        requires
            self.inv(),
            self.is_open(),
        ensures
            r@.len() == self.view().len(),
            forall|i: int| 0 <= i < r@.len() ==> (#[trigger] r@[i])@ == self.view()[i].1,
    {
        let mut this = self;
        this.values()
    }
}

impl LsmMap {
    /// Retains only the rows the given function accepts, visiting them in
    /// ascending key order: for each row it may keep the row, replace its
    /// value, or remove it.  The scan runs over a snapshot cursor, so the
    /// point writes it issues through the handle never disturb the scan's
    /// own position.
    pub fn retain<F: Fn(&Vec<u8>, &Vec<u8>) -> Retain>(&mut self, pred: F)
        requires
            old(self).inv(),
            old(self).is_open(),
            old(self).writable(),
            forall|ka: &Vec<u8>, va: &Vec<u8>| call_requires(pred, (ka, va)),
        ensures
            final(self).inv(),
            final(self).is_open(),
            final(self).writable(),
            final(self).open_cursors() == old(self).open_cursors(),
            forall|x: Seq<u8>|
                #[trigger] value_of(old(self).view(), x) matches Some(v) ==> exists|dec: Retain|
                    {
                        &&& #[trigger] pred_decides(pred, x, v, dec)
                        &&& value_of(final(self).view(), x) == retained_value(dec, v)
                    },
            forall|x: Seq<u8>|
                !has_key(old(self).view(), x) ==> #[trigger] value_of(final(self).view(), x)
                    is None,
    {
        let mut c = match self.tree.db.csr_open() {
            Ok(c) => c,
            Err(_) => {
                proof {
                    assert(false);
                }
                return ;
            },
        };
        c.first();
        let ghost snap = c@;
        let ghost mut decs = Seq::<Retain>::empty();
        while c.valid()
            invariant
                c.inv(),
                !(c.pos is Unset),
                c@ == snap,
                snap == old(self).view(),
                self.tree.db.inv(),
                self.tree.db.is_open(),
                self.tree.db.writable(),
                self.tree.db.opts == old(self).tree.db.opts,
                self.tree.db.open_cursors() == old(self).open_cursors() + 1,
                forall|ka: &Vec<u8>, va: &Vec<u8>| call_requires(pred, (ka, va)),
                decs.len() == scan_pos(c),
                forall|t: int|
                    0 <= t < decs.len() ==> pred_decides(
                        pred,
                        (#[trigger] snap[t]).0,
                        snap[t].1,
                        decs[t],
                    ),
                forall|t: int|
                    0 <= t < decs.len() ==> value_of(self.tree.db@, (#[trigger] snap[t]).0)
                        == retained_value(decs[t], snap[t].1),
                forall|x: Seq<u8>|
                    (forall|t: int| 0 <= t < scan_pos(c) ==> (#[trigger] snap[t]).0 != x)
                        ==> #[trigger] value_of(self.tree.db@, x) == value_of(snap, x),
            decreases c@.len() - scan_pos(c),
        {
            let ghost before = c;
            let ghost db0 = self.tree.db@;
            let ghost i = c.idx();
            let k = match c.key() {
                Ok(k) => k,
                Err(_) => {
                    proof {
                        assert(false);
                    }
                    Vec::new()
                },
            };
            let v = match c.val() {
                Ok(v) => v,
                Err(_) => {
                    proof {
                        assert(false);
                    }
                    Vec::new()
                },
            };
            let dec = pred(&k, &v);
            let ghost gdec = dec;
            proof {
                lemma_key_at(snap, i);
                assert(call_ensures(pred, (&k, &v), gdec));
                assert(pred_decides(pred, snap[i].0, snap[i].1, gdec));
                assert(value_of(db0, snap[i].0) == value_of(snap, snap[i].0));
            }
            match dec {
                Retain::Keep => {},
                Retain::Replace(nv) => {
                    let st = self.tree.db.insert(k.as_slice(), nv.as_slice());
                    match st.ok() {
                        Ok(()) => {},
                        Err(_) => {
                            proof {
                                assert(false);
                            }
                        },
                    }
                },
                Retain::Remove => {
                    let st = self.tree.db.delete(k.as_slice());
                    match st.ok() {
                        Ok(()) => {},
                        Err(_) => {
                            proof {
                                assert(false);
                            }
                        },
                    }
                },
            }
            proof {
                let db1 = self.tree.db@;
                decs = decs.push(gdec);
                assert(value_of(db1, snap[i].0) == retained_value(gdec, snap[i].1));
                assert forall|t: int| 0 <= t < i implies value_of(db1, (#[trigger] snap[t]).0)
                    == retained_value(decs[t], snap[t].1) by {
                    assert(snap[t].0 != snap[i].0);
                    assert(value_of(db1, snap[t].0) == value_of(db0, snap[t].0));
                }
                assert forall|x: Seq<u8>|
                    (forall|t: int| 0 <= t < i + 1 ==> (#[trigger] snap[t]).0 != x) implies #[trigger] value_of(
                    db1,
                    x,
                ) == value_of(snap, x) by {
                    assert(snap[i].0 != x);
                    assert(value_of(db1, x) == value_of(db0, x));
                }
            }
            c.next();
            proof {
                assert(vstd::std_specs::vec::spec_vec_len(&c.rows) == c.rows@.len());
                assert(scan_pos(c) == scan_pos(before) + 1);
            }
        }
        self.tree.db.csr_close(c);
        proof {
            assert forall|x: Seq<u8>| #[trigger] value_of(old(self).view(), x) is Some
                implies exists|dec: Retain|
                {
                    &&& #[trigger] pred_decides(pred, x, value_of(old(self).view(), x)->Some_0, dec)
                    &&& value_of(self.view(), x) == retained_value(
                        dec,
                        value_of(old(self).view(), x)->Some_0,
                    )
                } by {
                assert(snap == old(self).view());
                assert(has_key(snap, x));
                let i = crate::engine::key_index(snap, x);
                assert(0 <= i < snap.len() && snap[i].0 == x);
                lemma_key_at(snap, i);
                assert(decs.len() == snap.len());
                assert(value_of(snap, x) == Some(snap[i].1));
                assert(value_of(old(self).view(), x)->Some_0 == snap[i].1);
                assert(pred_decides(pred, snap[i].0, snap[i].1, decs[i]));
                assert(value_of(self.tree.db@, snap[i].0) == retained_value(decs[i], snap[i].1));
                assert(value_of(self.view(), x) == retained_value(decs[i], snap[i].1));
            }
        }
        proof {
            assert forall|x: Seq<u8>| !has_key(old(self).view(), x) implies #[trigger] value_of(
                self.tree.db@,
                x,
            ) is None by {
                assert forall|t: int| 0 <= t < snap.len() implies (#[trigger] snap[t]).0 != x by {}
                assert(value_of(self.tree.db@, x) == value_of(snap, x));
            }
        }
    }

    /// Moves every row of `other` into this map, leaving `other` empty.  A
    /// key present in both maps ends with the value it had in `other`.
    pub fn append(&mut self, other: &mut LsmMap)
        requires
            old(self).inv(),
            old(self).is_open(),
            old(self).writable(),
            old(other).inv(),
            old(other).is_open(),
            old(other).writable(),
        ensures
            final(self).inv(),
            final(self).is_open(),
            final(self).writable(),
            final(self).open_cursors() == old(self).open_cursors(),
            final(other).inv(),
            final(other).is_open(),
            final(other).writable(),
            final(other).open_cursors() == old(other).open_cursors(),
            final(other).view().len() == 0,
            forall|x: Seq<u8>| #[trigger] value_of(final(self).view(), x) == merged(
                old(self).view(),
                old(other).view(),
                x,
            ),
    {
        let mut go = true;
        while go
            invariant
                self.inv(),
                self.is_open(),
                self.writable(),
                self.open_cursors() == old(self).open_cursors(),
                other.inv(),
                other.is_open(),
                other.writable(),
                other.open_cursors() == old(other).open_cursors(),
                forall|x: Seq<u8>| #[trigger] merged(self.view(), other.view(), x) == merged(
                    old(self).view(),
                    old(other).view(),
                    x,
                ),
                !go ==> other.view().len() == 0,
            decreases other.view().len() + (if go {
                1int
            } else {
                0int
            }),
        {
            let ghost self0 = self.view();
            let ghost other0 = other.view();
            match other.pop_first() {
                None => {
                    go = false;
                },
                Some((k, v)) => {
                    proof {
                        lemma_key_at(other0, 0);
                    }
                    let _ = self.insert(k.as_slice(), v.as_slice());
                    proof {
                        assert forall|x: Seq<u8>| #[trigger] merged(self.view(), other.view(), x)
                            == merged(self0, other0, x) by {
                            if x == k@ {
                                assert(value_of(other0, x) == Some(v@));
                                assert(value_of(self.view(), x) == Some(v@));
                            }
                        }
                    }
                },
            }
        }
        proof {
            assert forall|x: Seq<u8>| #[trigger] value_of(self.view(), x) == merged(
                old(self).view(),
                old(other).view(),
                x,
            ) by {
                assert(!has_key(other.view(), x));
                assert(merged(self.view(), other.view(), x) == value_of(self.view(), x));
            }
        }
    }

    /// Splits the map in two at the given key: everything at or above the
    /// key moves to the returned fresh map, everything below it stays.
    pub fn split_off(&mut self, key: &[u8]) -> (r: LsmMap)
        requires
            old(self).inv(),
            old(self).is_open(),
            old(self).writable(),
        ensures
            final(self).inv(),
            final(self).is_open(),
            final(self).writable(),
            final(self).open_cursors() == old(self).open_cursors(),
            r.inv(),
            r.is_open(),
            r.writable(),
            r.open_cursors() == 0,
            forall|x: Seq<u8>| #[trigger] value_of(final(self).view(), x) == (if lex_lt(x, key@) {
                value_of(old(self).view(), x)
            } else {
                None
            }),
            forall|x: Seq<u8>| #[trigger] value_of(r.view(), x) == (if lex_lt(x, key@) {
                None
            } else {
                value_of(old(self).view(), x)
            }),
    {
        let mut out = LsmMap::new();
        let mut go = true;
        while go
            invariant
                self.inv(),
                self.is_open(),
                self.writable(),
                self.open_cursors() == old(self).open_cursors(),
                out.inv(),
                out.is_open(),
                out.writable(),
                out.open_cursors() == 0,
                forall|x: Seq<u8>|
                    lex_lt(x, key@) ==> #[trigger] value_of(self.view(), x) == value_of(
                        old(self).view(),
                        x,
                    ) && value_of(out.view(), x) is None,
                forall|x: Seq<u8>|
                    !lex_lt(x, key@) ==> #[trigger] merged(self.view(), out.view(), x) == value_of(
                        old(self).view(),
                        x,
                    ) && !(value_of(self.view(), x) is Some && value_of(out.view(), x) is Some),
                !go ==> forall|x: Seq<u8>|
                    !lex_lt(x, key@) ==> #[trigger] value_of(self.view(), x) is None,
            decreases self.view().len() + (if go {
                1int
            } else {
                0int
            }),
        {
            let ghost self0 = self.view();
            let ghost out0 = out.view();
            let mut c = match self.tree.db.csr_open() {
                Ok(c) => c,
                Err(_) => {
                    proof {
                        assert(false);
                    }
                    return out;
                },
            };
            c.seek(key, Seek::GE);
            if c.valid() {
                let ghost j = c.idx();
                let k = match c.key() {
                    Ok(k) => k,
                    Err(_) => {
                        proof {
                            assert(false);
                        }
                        Vec::new()
                    },
                };
                let v = match c.val() {
                    Ok(v) => v,
                    Err(_) => {
                        proof {
                            assert(false);
                        }
                        Vec::new()
                    },
                };
                self.tree.db.csr_close(c);
                proof {
                    lemma_key_at(self0, j);
                    lemma_lex_trichotomy(k@, key@);
                }
                let _ = self.remove(k.as_slice());
                let _ = out.insert(k.as_slice(), v.as_slice());
                proof {
                    assert(!lex_lt(k@, key@));
                    assert(value_of(self0, k@) == Some(v@));
                    assert forall|x: Seq<u8>| !lex_lt(x, key@) implies #[trigger] merged(
                        self.view(),
                        out.view(),
                        x,
                    ) == value_of(old(self).view(), x) && !(value_of(self.view(), x) is Some
                        && value_of(out.view(), x) is Some) by {
                        if x == k@ {
                            assert(merged(self0, out0, x) == value_of(old(self).view(), x));
                            assert(value_of(out0, x) is Some ==> value_of(self0, x) is None);
                        }
                    }
                }
            } else {
                self.tree.db.csr_close(c);
                go = false;
                proof {
                    assert forall|x: Seq<u8>| !lex_lt(x, key@) implies #[trigger] value_of(
                        self.view(),
                        x,
                    ) is None by {
                        if has_key(self.view(), x) {
                            let i = crate::engine::key_index(self.view(), x);
                            assert(0 <= i < self.view().len() && self.view()[i].0 == x);
                            assert(lex_lt(self.view()[i].0, key@));
                        }
                    }
                }
            }
        }
        proof {
            assert forall|x: Seq<u8>| #[trigger] value_of(out.view(), x) == (if lex_lt(x, key@) {
                None::<Seq<u8>>
            } else {
                value_of(old(self).view(), x)
            }) by {
                if !lex_lt(x, key@) {
                    assert(value_of(self.view(), x) is None);
                    assert(merged(self.view(), out.view(), x) == value_of(old(self).view(), x));
                }
            }
        }
        out
    }
}

/// What [`LsmMap::retain`] should do with one row: keep it as it is,
/// replace its value, or remove it.
pub enum Retain {
    Keep,
    Replace(Vec<u8>),
    Remove,
}

/// The value a row holds after a retain decision was applied to it.
pub open spec fn retained_value(dec: Retain, v: Seq<u8>) -> Option<Seq<u8>> {
    match dec {
        Retain::Keep => Some(v),
        Retain::Replace(nv) => Some(nv@),
        Retain::Remove => None,
    }
}

/// The retain function may decide `dec` when handed some copies of the key
/// `k` and the value `v`.
pub open spec fn pred_decides<F: Fn(&Vec<u8>, &Vec<u8>) -> Retain>(
    f: F,
    k: Seq<u8>,
    v: Seq<u8>,
    dec: Retain,
) -> bool {
    exists|ka: &Vec<u8>, va: &Vec<u8>|
        ka@ == k && va@ == v && #[trigger] call_ensures(f, (ka, va), dec)
}

/// Two row sets read as one map, the second overriding the first.
pub open spec fn merged(a: Seq<(Seq<u8>, Seq<u8>)>, b: Seq<(Seq<u8>, Seq<u8>)>, x: Seq<u8>) -> Option<
    Seq<u8>,
> {
    match value_of(b, x) {
        Some(v) => Some(v),
        None => value_of(a, x),
    }
}

/// Where a forward-only scan stands: the cursor's row index, or the row
/// count once the scan ran off the end.
pub open spec fn scan_pos(c: Cursor) -> int {
    if c.is_on() {
        c.idx()
    } else {
        c@.len() as int
    }
}

/// An iterator over all rows of a map: a whole-map [`RangeBounds`].
pub struct Iter {
    pub range: RangeBounds,
}

impl Iter {
    /// A well-formed iterator.
    pub open spec fn inv(self) -> bool {
        self.range.inv()
    }

    /// The rows not yet yielded from either side.
    pub open spec fn remaining(self) -> Seq<(Seq<u8>, Seq<u8>)> {
        self.range.remaining()
    }

    /// How many cursors the iterator holds open.
    pub open spec fn cursors_held(self) -> nat {
        self.range.cursors_held()
    }

    /// Yields the least not-yet-yielded row; `None` exactly when all rows
    /// are out.
    pub fn next(&mut self, db: &mut Db) -> (r: Option<(Vec<u8>, Vec<u8>)>)
        requires
            old(self).inv(),
            old(db).inv(),
            old(self).range.snap@ == old(db)@,
            old(db).is_open(),
        ensures
            final(db).inv(),
            final(db)@ == old(db)@,
            final(db).is_open(),
            final(db).opts == old(db).opts,
            final(self).inv(),
            final(self).range.snap == old(self).range.snap,
            final(db).open_cursors() as int == old(db).open_cursors()
                + final(self).cursors_held() - old(self).cursors_held(),
            old(self).remaining().len() == 0 ==> r is None && final(self).remaining() == old(self).remaining(),
            old(self).remaining().len() > 0 ==> (r matches Some(p) && p.0@ == old(self).remaining()[0].0 && p.1@ == old(self).remaining()[0].1 && final(self).remaining()
                == old(self).remaining().skip(1)),
    {
        self.range.next(db)
    }

    /// Yields the greatest not-yet-yielded row; `None` exactly when all
    /// rows are out.
    pub fn next_back(&mut self, db: &mut Db) -> (r: Option<(Vec<u8>, Vec<u8>)>)
        requires
            old(self).inv(),
            old(db).inv(),
            old(self).range.snap@ == old(db)@,
            old(db).is_open(),
        ensures
            final(db).inv(),
            final(db)@ == old(db)@,
            final(db).is_open(),
            final(db).opts == old(db).opts,
            final(self).inv(),
            final(self).range.snap == old(self).range.snap,
            final(db).open_cursors() as int == old(db).open_cursors()
                + final(self).cursors_held() - old(self).cursors_held(),
            old(self).remaining().len() == 0 ==> r is None && final(self).remaining() == old(self).remaining(),
            old(self).remaining().len() > 0 ==> (r matches Some(p) && p.0@ == old(self).remaining().last().0 && p.1@ == old(self).remaining().last().1 && final(self).remaining() == old(self).remaining().subrange(0, old(self).remaining().len() - 1)),
    {
        self.range.next_back(db)
    }

    /// Releases whatever the iterator holds open.
    pub fn close(self, db: &mut Db)
        requires
            old(db).open_cursors() >= self.cursors_held(),
        ensures
            final(db)@ == old(db)@,
            final(db).inv() == old(db).inv(),
            final(db).is_open() == old(db).is_open(),
            final(db).opts == old(db).opts,
            final(db).open_cursors() == old(db).open_cursors() - self.cursors_held(),
    {
        self.range.close(db);
    }
}

} // verus!