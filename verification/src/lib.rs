//! An ordered byte-string map layered on a cursor-based, log-structured-merge
//! storage engine.
//!
//! The engine itself — the handle/cursor protocol of [`engine`] — stores rows
//! sorted by bytewise key order.  On top of it this crate builds the
//! cursor-lifetime and range/entry layer: lazily materialized range
//! endpoints ([`range::Bound`]), double-ended range iteration
//! ([`range::RangeBounds`]), a single-probe insert-or-mutate entry view
//! ([`entry::Entry`]), and the ordered-map facade ([`map::LsmMap`]).  Every
//! operation states in its contract what it returns, how the stored rows
//! change, and how the handle's count of open cursors moves — so that no
//! path, including every failure path, leaks a cursor.

use vstd::prelude::*;

pub mod engine;
pub mod entry;
pub mod laws;
pub mod map;
pub mod order;
pub mod range;

verus! {

/// The library's error classes: the engine's failure statuses, without its
/// success status.
#[derive(Clone, Copy, PartialEq, Eq, Structural, Debug)]
pub enum Error {
    Error,
    Busy,
    Nomem,
    IoErr,
    Corrupt,
    Full,
    CantOpen,
    Protocol,
    Misuse,
    NoEnt,
}

/// The error class a raw engine status maps to.  A success status carries
/// no failure, so converting it is itself a protocol violation and maps to
/// `Misuse`; every failure status keeps its class.
pub open spec fn error_of_status(raw: engine::Error) -> Error {
    match raw {
        engine::Error::Okay => Error::Misuse,
        engine::Error::Error => Error::Error,
        engine::Error::Busy => Error::Busy,
        engine::Error::Nomem => Error::Nomem,
        engine::Error::IoErr => Error::IoErr,
        engine::Error::Corrupt => Error::Corrupt,
        engine::Error::Full => Error::Full,
        engine::Error::CantOpen => Error::CantOpen,
        engine::Error::Protocol => Error::Protocol,
        engine::Error::Misuse => Error::Misuse,
        engine::Error::NoEnt => Error::NoEnt,
    }
}

impl From<engine::Error> for Error {
    fn from(raw: engine::Error) -> Self {
        match raw {
            engine::Error::Okay => Error::Misuse,
            engine::Error::Error => Error::Error,
            engine::Error::Busy => Error::Busy,
            engine::Error::Nomem => Error::Nomem,
            engine::Error::IoErr => Error::IoErr,
            engine::Error::Corrupt => Error::Corrupt,
            engine::Error::Full => Error::Full,
            engine::Error::CantOpen => Error::CantOpen,
            engine::Error::Protocol => Error::Protocol,
            engine::Error::Misuse => Error::Misuse,
            engine::Error::NoEnt => Error::NoEnt,
        }
    }
}

impl vstd::std_specs::convert::FromSpecImpl<engine::Error> for Error {
    open spec fn obeys_from_spec() -> bool {
        true
    }

    open spec fn from_spec(raw: engine::Error) -> Self {
        error_of_status(raw)
    }
}

/// Owner of one database handle: everything above reaches the engine
/// through it, and it is released exactly once, at facade teardown.
pub struct Tree {
    pub db: engine::Db,
}

impl Tree {
    /// A well-formed tree: its handle's rows are strictly sorted.
    pub open spec fn inv(self) -> bool {
        self.db.inv()
    }

    /// Opens a fresh, empty database with the given options and takes
    /// ownership of its handle.
    pub fn new(opts: engine::Options) -> (r: Tree)
        ensures
            r.inv(),
            r.db@ == Seq::<(Seq<u8>, Seq<u8>)>::empty(),
            r.db.is_open(),
            r.db.opts == opts,
            r.db.open_cursors() == 0,
    {
        Tree { db: engine::Db::open(opts) }
    }

    /// A single-probe entry view of one key.  Fails with `Misuse` on a
    /// closed handle, in which case nothing stays open.
    pub fn entry(&mut self, key: &[u8]) -> (r: Result<entry::Entry, Error>)
        requires
            old(self).inv(),
        ensures
            final(self).inv(),
            final(self).db@ == old(self).db@,
            final(self).db.is_open() == old(self).db.is_open(),
            final(self).db.opts == old(self).db.opts,
            r is Ok <==> old(self).db.is_open(),
            r matches Err(e) ==> e == Error::Misuse && final(self).db.open_cursors() == old(
                self,
            ).db.open_cursors(),
            r matches Ok(en) ==> {
                &&& en.inv()
                &&& en.key_view() == key@
                &&& (en is Occupied <==> engine::has_key(old(self).db@, key@))
                &&& (en matches entry::Entry::Occupied(o) ==> o.snap() == old(self).db@
                    && engine::value_of(old(self).db@, key@) == Some(o.val_view()))
                &&& final(self).db.open_cursors() == old(self).db.open_cursors()
                    + en.cursors_held()
            },
    {
        entry::Entry::new_in(&mut self.db, key)
    }

    /// A double-ended range over the current rows.  Fails with `Misuse` on
    /// a closed handle; no cursor stays open on any failure path.
    pub fn range(&mut self, lo: range::KeyBound, hi: range::KeyBound) -> (r: Result<
        range::RangeBounds,
        Error,
    >)
        requires
            old(self).inv(),
        ensures
            final(self).inv(),
            final(self).db@ == old(self).db@,
            final(self).db.is_open() == old(self).db.is_open(),
            final(self).db.opts == old(self).db.opts,
            r is Ok <==> (old(self).db.is_open() || (lo is Unbounded && hi is Unbounded)),
            r matches Err(e) ==> e == Error::Misuse && final(self).db.open_cursors() == old(
                self,
            ).db.open_cursors(),
            r matches Ok(rb) ==> {
                &&& rb.inv()
                &&& rb.snap@ == old(self).db@
                &&& final(self).db.open_cursors() == old(self).db.open_cursors()
                    + rb.cursors_held()
                &&& range::start_bound_for(rb.start_bound, old(self).db@, lo)
                &&& range::end_bound_for(rb.end_bound, old(self).db@, hi)
            },
    {
        range::RangeBounds::new_in(&mut self.db, lo, hi)
    }
}

} // verus!
