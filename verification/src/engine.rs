//! Model of the log-structured-merge storage engine's handle/cursor protocol.
//!
//! The engine behind the public map is a black box reached through a small
//! handle/cursor protocol: open and close a database handle, open and close a
//! cursor bound to it, position a cursor (first, last, seek with a comparison
//! mode, step forwards or backwards), read the key and value under a
//! positioned cursor, and issue point inserts and deletes through the handle.
//! This module gives that protocol an exact, verified meaning: a database
//! holds a sequence of rows strictly sorted by bytewise key order, and a
//! cursor holds a snapshot of the rows it was opened over together with a
//! position in that snapshot.  Reads through a cursor see its snapshot, so a
//! write through the handle never disturbs a cursor that is already open —
//! the isolation that the cursor layer above relies on.
//!
//! The handle also tracks, as ghost state, how many cursors are open against
//! it.  Every operation of the layers above states in its contract how that
//! count moves; this is how "no cursor is leaked, on any path" is proved.

use vstd::prelude::*;

use crate::order::cmp_bytes;
use crate::order::lemma_lex_transitive;
use crate::order::lemma_lex_trichotomy;
use crate::order::lex_le;
use crate::order::lex_lt;

verus! {

// ---------------------------------------------------------------------------
// Protocol constants
// ---------------------------------------------------------------------------

/// File-lock levels of the engine's locking protocol.
#[derive(Clone, Copy, PartialEq, Eq, Structural, Debug)]
pub enum Lock {
    Unlock,
    Shared,
    Excl,
}

/// Access modes a database handle can be opened with.  A read-only handle
/// refuses point inserts and deletes.
#[derive(Clone, Copy, PartialEq, Eq, Structural, Debug)]
pub enum Open {
    ReadWrite,
    ReadOnly,
}

/// Mutex disciplines the engine can be asked to use for its own locking.
#[derive(Clone, Copy, PartialEq, Eq, Structural, Debug)]
pub enum Mutex {
    Global,
    Heap,
}

/// Configuration keys of the engine's tuning interface.
#[derive(Clone, Copy, PartialEq, Eq, Structural, Debug)]
pub enum Config {
    AutoFlush,
    PageSize,
    Safety,
    BlockSize,
    AutoWork,
    Mmap,
    UseLog,
    AutoMerge,
    MaxFreelist,
    MultipleProcesses,
    AutoCheckpoint,
    SetCompression,
    GetCompression,
    SetCompressionFactory,
    Readonly,
}

/// Durability levels for committed writes.
#[derive(Clone, Copy, PartialEq, Eq, Structural, Debug)]
pub enum Safety {
    Off,
    Normal,
    Full,
}

/// Page-compression schemes the engine knows about.
#[derive(Clone, Copy, PartialEq, Eq, Structural, Debug)]
pub enum Compression {
    Empty,
    Uncompressed,
    LZ4,
    Zstd,
}

/// Introspection queries of the engine's info interface.
#[derive(Clone, Copy, PartialEq, Eq, Structural, Debug)]
pub enum Info {
    NumWrite,
    NumRead,
    DbStructure,
    LogStructure,
    ArrayStructure,
    PageAsciiDump,
    PageHexDump,
    Freelist,
    ArrayPages,
    CheckpointSize,
    TreeSize,
    FreelistSize,
    CompressionId,
}

/// Comparison modes for a cursor seek: exactly-equal, smallest key at least
/// the probe, or largest key at most the probe.  `LEFast` is the engine's
/// approximate variant of `LE`; the model positions it exactly like `LE`.
#[derive(Clone, Copy, PartialEq, Eq, Structural, Debug)]
pub enum Seek {
    LEFast,
    LE,
    EQ,
    GE,
}

/// Status classes the engine reports.  `Okay` means success; everything else
/// is a failure class.
#[derive(Clone, Copy, PartialEq, Eq, Structural, Debug)]
pub enum Error {
    Okay,
    Error,
    Busy,
    Nomem,
    IoErr,
    Corrupt,
    Full,
    CantOpen,
    Protocol,
    Misuse,
    NoEnt,
}

impl Error {
    /// Turns a status into a `Result`, keeping the failure class.
    pub fn ok(self) -> (r: Result<(), Self>)
        ensures
            r is Ok <==> self == Error::Okay,
            r matches Err(e) ==> e == self,
    {
        match self {
            Error::Okay => Ok(()),
            _ => Err(self),
        }
    }
}

// ---------------------------------------------------------------------------
// Rows and their mathematical view
// ---------------------------------------------------------------------------

/// One stored pair.  The view of a row is the pair of its key and value byte
/// sequences; the view of a database or a cursor snapshot is the sequence of
/// row views, in storage order.
pub struct Row {
    pub key: Vec<u8>,
    pub val: Vec<u8>,
}

impl View for Row {
    type V = (Seq<u8>, Seq<u8>);

    open spec fn view(&self) -> (Seq<u8>, Seq<u8>) {
        (self.key@, self.val@)
    }
}

/// The rows are strictly ascending in bytewise key order; in particular no
/// key occurs twice.
pub open spec fn sorted(es: Seq<(Seq<u8>, Seq<u8>)>) -> bool {
    forall|i: int, j: int|
        0 <= i < j < es.len() ==> lex_lt(#[trigger] es[i].0, #[trigger] es[j].0)
}

/// Some row holds the key `k`.
pub open spec fn has_key(es: Seq<(Seq<u8>, Seq<u8>)>, k: Seq<u8>) -> bool {
    exists|i: int| 0 <= i < es.len() && es[i].0 == k
}

/// The index of the row holding `k` (meaningful only when `has_key` holds
/// and the rows are sorted, which makes it unique).
pub open spec fn key_index(es: Seq<(Seq<u8>, Seq<u8>)>, k: Seq<u8>) -> int {
    choose|i: int| 0 <= i < es.len() && es[i].0 == k
}

/// The value stored under `k`, if any: the rows read as a finite map.
pub open spec fn value_of(es: Seq<(Seq<u8>, Seq<u8>)>, k: Seq<u8>) -> Option<Seq<u8>> {
    if has_key(es, k) {
        Some(es[key_index(es, k)].1)
    } else {
        None
    }
}

/// In a sorted row sequence, the row at index `i` is the one and only row
/// holding its key, and `value_of` returns its value.
pub proof fn lemma_key_at(es: Seq<(Seq<u8>, Seq<u8>)>, i: int)
    requires
        sorted(es),
        0 <= i < es.len(),
    ensures
        has_key(es, es[i].0),
        key_index(es, es[i].0) == i,
        value_of(es, es[i].0) == Some(es[i].1),
        forall|j: int| 0 <= j < es.len() && j != i ==> es[j].0 != es[i].0,
{
    assert(has_key(es, es[i].0));
    assert forall|j: int| 0 <= j < es.len() && j != i implies es[j].0 != es[i].0 by {
        if j < i {
            lemma_lex_trichotomy(es[j].0, es[i].0);
        } else {
            lemma_lex_trichotomy(es[i].0, es[j].0);
        }
    }
    let w = key_index(es, es[i].0);
    assert(0 <= w < es.len() && es[w].0 == es[i].0);
}

// ---------------------------------------------------------------------------
// Cursors
// ---------------------------------------------------------------------------

/// Where a cursor stands in its snapshot: not yet positioned, on the row at
/// an index, or off either end of the data.
#[derive(Clone, Copy, PartialEq, Eq, Structural, Debug)]
pub enum CursorPos {
    Unset,
    On(usize),
    Off,
}

/// A cursor: a snapshot of the rows taken when it was opened, plus a
/// position within that snapshot.  All reads through the cursor see the
/// snapshot, never later writes through the handle.
pub struct Cursor {
    pub rows: Vec<Row>,
    pub pos: CursorPos,
}

impl View for Cursor {
    type V = Seq<(Seq<u8>, Seq<u8>)>;

    open spec fn view(&self) -> Seq<(Seq<u8>, Seq<u8>)> {
        self.rows@.map_values(|r: Row| r@)
    }
}

impl Cursor {
    /// A well-formed cursor: sorted snapshot, position inside it.
    pub open spec fn inv(self) -> bool {
        &&& sorted(self@)
        &&& (self.pos matches CursorPos::On(i) ==> (i as int) < self@.len())
    }

    /// The cursor references an existing row.
    pub open spec fn is_on(self) -> bool {
        self.pos is On
    }

    /// The index of the referenced row (meaningful only when `is_on`).
    pub open spec fn idx(self) -> int {
        match self.pos {
            CursorPos::On(i) => i as int,
            _ => -1,
        }
    }

    /// The key under the cursor (meaningful only when `is_on`).
    pub open spec fn cur_key(self) -> Seq<u8> {
        self@[self.idx()].0
    }

    /// The value under the cursor (meaningful only when `is_on`).
    pub open spec fn cur_val(self) -> Seq<u8> {
        self@[self.idx()].1
    }

    /// After a greatest-lower-bound-free seek for `GE k`: on the first row
    /// whose key is at least `k`, or off the end when every key is below `k`.
    pub open spec fn ge_positioned(self, k: Seq<u8>) -> bool {
        match self.pos {
            CursorPos::On(j) => {
                &&& (j as int) < self@.len()
                &&& lex_le(k, self@[j as int].0)
                &&& forall|i: int| 0 <= i < j as int ==> lex_lt(#[trigger] self@[i].0, k)
            },
            CursorPos::Off => forall|i: int|
                0 <= i < self@.len() ==> lex_lt(#[trigger] self@[i].0, k),
            CursorPos::Unset => false,
        }
    }

    /// After a seek for `LE k`: on the last row whose key is at most `k`,
    /// or off the end when every key is above `k`.
    pub open spec fn le_positioned(self, k: Seq<u8>) -> bool {
        match self.pos {
            CursorPos::On(j) => {
                &&& (j as int) < self@.len()
                &&& lex_le(self@[j as int].0, k)
                &&& forall|i: int| (j as int) < i < self@.len() ==> lex_lt(k, #[trigger] self@[i].0)
            },
            CursorPos::Off => forall|i: int|
                0 <= i < self@.len() ==> lex_lt(k, #[trigger] self@[i].0),
            CursorPos::Unset => false,
        }
    }

    /// After a seek for `EQ k`: on the row holding `k` exactly, or off the
    /// end when no row holds it.
    pub open spec fn eq_positioned(self, k: Seq<u8>) -> bool {
        match self.pos {
            CursorPos::On(j) => (j as int) < self@.len() && self@[j as int].0 == k,
            CursorPos::Off => !has_key(self@, k),
            CursorPos::Unset => false,
        }
    }

    /// Position on the first (least-keyed) row, or off the end of an empty
    /// snapshot.
    pub fn first(&mut self)
        requires
            old(self).inv(),
        ensures
            final(self).inv(),
            final(self)@ == old(self)@,
            final(self).pos == if old(self)@.len() > 0 {
                CursorPos::On(0)
            } else {
                CursorPos::Off
            },
    {
        if self.rows.len() > 0 {
            self.pos = CursorPos::On(0);
        } else {
            self.pos = CursorPos::Off;
        }
    }

    /// Position on the last (greatest-keyed) row, or off the end of an
    /// empty snapshot.
    pub fn last(&mut self)
        requires
            old(self).inv(),
        ensures
            final(self).inv(),
            final(self)@ == old(self)@,
            old(self)@.len() > 0 ==> final(self).pos == CursorPos::On(
                (old(self)@.len() - 1) as usize,
            ),
            old(self)@.len() == 0 ==> final(self).pos == CursorPos::Off,
    {
        let n = self.rows.len();
        if n > 0 {
            self.pos = CursorPos::On(n - 1);
        } else {
            self.pos = CursorPos::Off;
        }
    }

    /// Step to the next row in ascending key order; a cursor that is not on
    /// a row comes off the data.
    pub fn next(&mut self)
        requires
            old(self).inv(),
        ensures
            final(self).inv(),
            final(self)@ == old(self)@,
            final(self).pos == (match old(self).pos {
                CursorPos::On(i) => if (i as int) + 1 < old(self)@.len() {
                    CursorPos::On((i + 1) as usize)
                } else {
                    CursorPos::Off
                },
                _ => CursorPos::Off,
            }),
    {
        match self.pos {
            CursorPos::On(i) => {
                let n = self.rows.len();
                proof {
                    assert((i as int) < self@.len());
                    assert(self@.len() == self.rows@.len());
                }
                if i + 1 < n {
                    self.pos = CursorPos::On(i + 1);
                } else {
                    self.pos = CursorPos::Off;
                }
            },
            _ => {
                self.pos = CursorPos::Off;
            },
        }
    }

    /// Step to the previous row in ascending key order; a cursor that is
    /// not on a row comes off the data.
    pub fn prev(&mut self)
        requires
            old(self).inv(),
        ensures
            final(self).inv(),
            final(self)@ == old(self)@,
            final(self).pos == (match old(self).pos {
                CursorPos::On(i) => if i > 0 {
                    CursorPos::On((i - 1) as usize)
                } else {
                    CursorPos::Off
                },
                _ => CursorPos::Off,
            }),
    {
        match self.pos {
            CursorPos::On(i) => {
                if i > 0 {
                    self.pos = CursorPos::On(i - 1);
                } else {
                    self.pos = CursorPos::Off;
                }
            },
            _ => {
                self.pos = CursorPos::Off;
            },
        }
    }

    /// Whether the cursor references an existing row.
    pub fn valid(&self) -> (r: bool)
        ensures
            r == self.is_on(),
    {
        match self.pos {
            CursorPos::On(_) => true,
            _ => false,
        }
    }

    /// The key under the cursor, copied out.  Fails with `Misuse` when the
    /// cursor is not on a row.
    pub fn key(&self) -> (r: Result<Vec<u8>, Error>)
        requires
            self.inv(),
        ensures
            r is Ok <==> self.is_on(),
            r matches Ok(k) ==> k@ == self.cur_key(),
            r matches Err(e) ==> e == Error::Misuse,
    {
        match self.pos {
            CursorPos::On(i) => Ok(crate::order::copy_bytes(self.rows[i].key.as_slice())),
            _ => Err(Error::Misuse),
        }
    }

    /// The value under the cursor, copied out.  Fails with `Misuse` when
    /// the cursor is not on a row.
    pub fn val(&self) -> (r: Result<Vec<u8>, Error>)
        requires
            self.inv(),
        ensures
            r is Ok <==> self.is_on(),
            r matches Ok(v) ==> v@ == self.cur_val(),
            r matches Err(e) ==> e == Error::Misuse,
    {
        match self.pos {
            CursorPos::On(i) => Ok(crate::order::copy_bytes(self.rows[i].val.as_slice())),
            _ => Err(Error::Misuse),
        }
    }

    /// Three-way comparison of the key under the cursor against `k`:
    /// negative when the cursor's key comes first, zero on equality,
    /// positive when `k` comes first.  Fails with `Misuse` when the cursor
    /// is not on a row.
    pub fn cmp(&self, k: &[u8]) -> (r: Result<i8, Error>)
        requires
            self.inv(),
        ensures
            r is Ok <==> self.is_on(),
            r matches Ok(c) ==> {
                &&& -1 <= c <= 1
                &&& (c == -1 <==> lex_lt(self.cur_key(), k@))
                &&& (c == 0 <==> self.cur_key() == k@)
                &&& (c == 1 <==> lex_lt(k@, self.cur_key()))
            },
            r matches Err(e) ==> e == Error::Misuse,
    {
        match self.pos {
            CursorPos::On(i) => Ok(cmp_bytes(self.rows[i].key.as_slice(), k)),
            _ => Err(Error::Misuse),
        }
    }

    /// Position per the given comparison mode: on the row holding `k`
    /// exactly (`EQ`), on the smallest row at least `k` (`GE`), or on the
    /// largest row at most `k` (`LE`, `LEFast`); off the end when no row
    /// qualifies.
    pub fn seek(&mut self, k: &[u8], mode: Seek)
        requires
            old(self).inv(),
        ensures
            final(self).inv(),
            final(self)@ == old(self)@,
            mode == Seek::EQ ==> final(self).eq_positioned(k@),
            mode == Seek::GE ==> final(self).ge_positioned(k@),
            mode == Seek::LE || mode == Seek::LEFast ==> final(self).le_positioned(k@),
    {
        match mode {
            Seek::EQ => self.seek_eq(k),
            Seek::GE => self.seek_ge(k),
            _ => self.seek_le(k),
        }
    }

    fn seek_eq(&mut self, k: &[u8])
        requires
            old(self).inv(),
        ensures
            final(self).inv(),
            final(self)@ == old(self)@,
            final(self).eq_positioned(k@),
    {
        let n = self.rows.len();
        let mut i: usize = 0;
        while i < n
            invariant
                self.inv(),
                self.rows == old(self).rows,
                self@ == old(self)@,
                n == self@.len(),
                i <= n,
                forall|j: int| 0 <= j < i ==> (#[trigger] self@[j].0) != k@,
            decreases n - i,
        {
            proof {
                assert(self@[i as int] == (self.rows@[i as int].key@, self.rows@[i as int].val@));
            }
            let c = cmp_bytes(self.rows[i].key.as_slice(), k);
            if c == 0 {
                self.pos = CursorPos::On(i);
                return ;
            }
            i = i + 1;
        }
        self.pos = CursorPos::Off;
    }

    fn seek_ge(&mut self, k: &[u8])
        requires
            old(self).inv(),
        ensures
            final(self).inv(),
            final(self)@ == old(self)@,
            final(self).ge_positioned(k@),
    {
        let n = self.rows.len();
        let mut i: usize = 0;
        while i < n
            invariant
                self.inv(),
                self.rows == old(self).rows,
                self@ == old(self)@,
                n == self@.len(),
                i <= n,
                forall|j: int| 0 <= j < i ==> lex_lt(#[trigger] self@[j].0, k@),
            decreases n - i,
        {
            proof {
                assert(self@[i as int] == (self.rows@[i as int].key@, self.rows@[i as int].val@));
            }
            let c = cmp_bytes(self.rows[i].key.as_slice(), k);
            if c >= 0 {
                self.pos = CursorPos::On(i);
                return ;
            }
            i = i + 1;
        }
        self.pos = CursorPos::Off;
    }

    fn seek_le(&mut self, k: &[u8])
        requires
            old(self).inv(),
        ensures
            final(self).inv(),
            final(self)@ == old(self)@,
            final(self).le_positioned(k@),
    {
        let n = self.rows.len();
        let mut i: usize = n;
        while i > 0
            invariant
                self.inv(),
                self.rows == old(self).rows,
                self@ == old(self)@,
                n == self@.len(),
                i <= n,
                forall|j: int| i <= j < n ==> lex_lt(k@, #[trigger] self@[j].0),
            decreases i,
        {
            i = i - 1;
            proof {
                assert(self@[i as int] == (self.rows@[i as int].key@, self.rows@[i as int].val@));
            }
            let c = cmp_bytes(self.rows[i].key.as_slice(), k);
            if c <= 0 {
                self.pos = CursorPos::On(i);
                return ;
            }
        }
        self.pos = CursorPos::Off;
    }
}

// ---------------------------------------------------------------------------
// The database handle
// ---------------------------------------------------------------------------

/// Options a database handle is opened with.
pub struct Options {
    pub mode: Open,
    pub safety: Safety,
    pub compression: Compression,
    pub mutex: Mutex,
}

impl Default for Options {
    /// Read-write access, normal durability, no compression, the global
    /// mutex discipline.
    fn default() -> (r: Self)
        ensures
            r == (Options {
                mode: Open::ReadWrite,
                safety: Safety::Normal,
                compression: Compression::Uncompressed,
                mutex: Mutex::Global,
            }),
    {
        Options {
            mode: Open::ReadWrite,
            safety: Safety::Normal,
            compression: Compression::Uncompressed,
            mutex: Mutex::Global,
        }
    }
}

/// A database handle: the sorted rows, the options it was opened with,
/// whether it is still open, and — as ghost state — how many cursors are
/// currently open against it.
pub struct Db {
    pub rows: Vec<Row>,
    pub opts: Options,
    pub live: bool,
    pub cursors: Ghost<nat>,
}

impl View for Db {
    type V = Seq<(Seq<u8>, Seq<u8>)>;

    open spec fn view(&self) -> Seq<(Seq<u8>, Seq<u8>)> {
        self.rows@.map_values(|r: Row| r@)
    }
}

impl Db {
    /// A well-formed handle: rows strictly sorted by key.
    pub open spec fn inv(self) -> bool {
        sorted(self@)
    }

    /// The handle has not been closed.
    pub open spec fn is_open(self) -> bool {
        self.live
    }

    /// The handle accepts point inserts and deletes.
    pub open spec fn writable(self) -> bool {
        self.opts.mode == Open::ReadWrite
    }

    /// How many cursors are open against this handle.
    pub open spec fn open_cursors(self) -> nat {
        self.cursors@
    }

    /// Opens a fresh, empty database with the given options.
    pub fn open(opts: Options) -> (r: Db)
        ensures
            r.inv(),
            r@ == Seq::<(Seq<u8>, Seq<u8>)>::empty(),
            r.is_open(),
            r.opts == opts,
            r.open_cursors() == 0,
    {
        let r = Db { rows: Vec::new(), opts, live: true, cursors: Ghost(0nat) };
        proof {
            assert(r@ =~= Seq::<(Seq<u8>, Seq<u8>)>::empty());
        }
        r
    }

    /// Releases the handle.  Every later operation through it fails; open
    /// cursors keep their snapshots.
    pub fn close(&mut self)
        ensures
            final(self)@ == old(self)@,
            final(self).inv() == old(self).inv(),
            !final(self).is_open(),
            final(self).opts == old(self).opts,
            final(self).open_cursors() == old(self).open_cursors(),
    {
        self.live = false;
    }

    /// Opens a cursor against this handle: a snapshot of the current rows,
    /// not yet positioned.  Fails with `Misuse` on a closed handle, in
    /// which case nothing is opened.
    pub fn csr_open(&mut self) -> (r: Result<Cursor, Error>)
        requires
            old(self).inv(),
        ensures
            final(self).inv(),
            final(self)@ == old(self)@,
            final(self).is_open() == old(self).is_open(),
            final(self).opts == old(self).opts,
            r is Ok <==> old(self).is_open(),
            r matches Ok(c) ==> c.inv() && c@ == old(self)@ && c.pos == CursorPos::Unset,
            r matches Err(e) ==> e == Error::Misuse,
            final(self).open_cursors() == old(self).open_cursors() + (if old(self).is_open() {
                1nat
            } else {
                0nat
            }),
    {
        if !self.live {
            return Err(Error::Misuse);
        }
        let n = self.rows.len();
        let mut snap: Vec<Row> = Vec::new();
        let mut i: usize = 0;
        while i < n
            invariant
                n == self.rows@.len(),
                i <= n,
                snap@.len() == i,
                forall|j: int|
                    0 <= j < i ==> (#[trigger] snap@[j])@ == self.rows@[j]@,
            decreases n - i,
        {
            let row = Row {
                key: crate::order::copy_bytes(self.rows[i].key.as_slice()),
                val: crate::order::copy_bytes(self.rows[i].val.as_slice()),
            };
            snap.push(row);
            i = i + 1;
        }
        let c = Cursor { rows: snap, pos: CursorPos::Unset };
        proof {
            assert(c@ =~= self@);
            self.cursors@ = self.cursors@ + 1;
        }
        Ok(c)
    }

    /// Closes a cursor that was opened against this handle, releasing it.
    pub fn csr_close(&mut self, c: Cursor)
        requires
            old(self).open_cursors() >= 1,
        ensures
            final(self)@ == old(self)@,
            final(self).inv() == old(self).inv(),
            final(self).is_open() == old(self).is_open(),
            final(self).opts == old(self).opts,
            final(self).open_cursors() == old(self).open_cursors() - 1,
    {
        let _ = c;
        proof {
            self.cursors@ = (self.cursors@ - 1) as nat;
        }
    }

    /// The least index whose key is at least the probe, together with
    /// whether that key equals the probe exactly.
    fn find_at_least(&self, key: &[u8]) -> (r: (usize, bool))
        requires
            self.inv(),
        ensures
            r.0 <= self@.len(),
            forall|t: int| 0 <= t < r.0 ==> lex_lt(#[trigger] self@[t].0, key@),
            (r.0 as int) < self@.len() ==> lex_le(key@, self@[r.0 as int].0),
            r.1 <==> ((r.0 as int) < self@.len() && self@[r.0 as int].0 == key@),
    {
        let n = self.rows.len();
        let mut j: usize = 0;
        while j < n
            invariant
                self.inv(),
                n == self@.len(),
                j <= n,
                forall|t: int| 0 <= t < j ==> lex_lt(#[trigger] self@[t].0, key@),
            decreases n - j,
        {
            proof {
                assert(self@[j as int] == (self.rows@[j as int].key@, self.rows@[j as int].val@));
            }
            let c = cmp_bytes(self.rows[j].key.as_slice(), key);
            if c >= 0 {
                return (j, c == 0);
            }
            j = j + 1;
        }
        (n, false)
    }

    /// When the probe is absent, every key differs from it — not only the
    /// ones around the found position.
    proof fn lemma_absent(self, key: Seq<u8>, j: int)
        requires
            self.inv(),
            0 <= j <= self@.len(),
            forall|t: int| 0 <= t < j ==> lex_lt(#[trigger] self@[t].0, key),
            j < self@.len() ==> lex_le(key, self@[j].0),
            !(j < self@.len() && self@[j].0 == key),
        ensures
            !has_key(self@, key),
            forall|t: int| 0 <= t < j ==> #[trigger] self@[t].0 != key,
            forall|t: int| j <= t < self@.len() ==> lex_lt(key, #[trigger] self@[t].0),
    {
        let es = self@;
        assert forall|t: int| 0 <= t < j implies #[trigger] es[t].0 != key by {
            lemma_lex_trichotomy(es[t].0, key);
        }
        assert forall|t: int| j <= t < es.len() implies lex_lt(key, #[trigger] es[t].0) by {
            lemma_lex_trichotomy(key, es[j].0);
            if t > j {
                lemma_lex_transitive(key, es[j].0, es[t].0);
            }
        }
        if has_key(es, key) {
            let i = key_index(es, key);
            assert(0 <= i < es.len() && es[i].0 == key);
            lemma_lex_trichotomy(key, es[i].0);
        }
    }

    /// Point insert through the handle: stores `val` under `key`,
    /// overwriting any previous value for that key.  Fails with `Misuse` on
    /// a closed or read-only handle, leaving the rows unchanged.
    pub fn insert(&mut self, key: &[u8], val: &[u8]) -> (st: Error)
        requires
            old(self).inv(),
        ensures
            final(self).inv(),
            final(self).is_open() == old(self).is_open(),
            final(self).opts == old(self).opts,
            final(self).open_cursors() == old(self).open_cursors(),
            st == Error::Okay <==> old(self).is_open() && old(self).writable(),
            st != Error::Okay ==> st == Error::Misuse && final(self)@ == old(self)@,
            st == Error::Okay ==> {
                &&& forall|x: Seq<u8>| #[trigger] value_of(final(self)@, x) == (if x == key@ {
                    Some(val@)
                } else {
                    value_of(old(self)@, x)
                })
                &&& final(self)@.len() == old(self)@.len() + (if has_key(old(self)@, key@) {
                    0int
                } else {
                    1int
                })
                &&& has_key(final(self)@, key@)
            },
    {
        if !self.live {
            return Error::Misuse;
        }
        match self.opts.mode {
            Open::ReadOnly => {
                return Error::Misuse;
            },
            Open::ReadWrite => {},
        }
        let ghost olds = self@;
        let (j, eq) = self.find_at_least(key);
        let ghost ji = j as int;
        let row = Row { key: crate::order::copy_bytes(key), val: crate::order::copy_bytes(val) };
        if eq {
            let slot = vstd::std_specs::vec::vec_index_mut(&mut self.rows, j);
            *slot = row;
            proof {
                let news = self@;
                assert forall|t: int| 0 <= t < news.len() implies #[trigger] news[t] == (if t == ji {
                    (key@, val@)
                } else {
                    olds[t]
                }) by {
                    assert(news[t] == self.rows@[t]@);
                }
                assert(sorted(news)) by {
                    assert forall|a: int, b: int| 0 <= a < b < news.len() implies lex_lt(
                        #[trigger] news[a].0,
                        #[trigger] news[b].0,
                    ) by {
                        assert(news[a].0 == olds[a].0);
                        assert(news[b].0 == olds[b].0);
                    }
                }
                lemma_key_at(news, ji);
                assert forall|x: Seq<u8>| #[trigger] value_of(news, x) == (if x == key@ {
                    Some(val@)
                } else {
                    value_of(olds, x)
                }) by {
                    if x != key@ {
                        if has_key(olds, x) {
                            let i = key_index(olds, x);
                            assert(0 <= i < olds.len() && olds[i].0 == x);
                            lemma_key_at(olds, i);
                            assert(news[i] == olds[i]);
                            lemma_key_at(news, i);
                        } else {
                            if has_key(news, x) {
                                let i = key_index(news, x);
                                assert(0 <= i < news.len() && news[i].0 == x);
                                assert(olds[i].0 == x);
                            }
                        }
                    }
                }
            }
            Error::Okay
        } else {
            self.rows.insert(j, row);
            proof {
                old(self).rows@.insert_ensures(ji, row);
                let news = self@;
                assert(news.len() == olds.len() + 1);
                assert forall|t: int| 0 <= t < news.len() implies #[trigger] news[t] == (if t < ji {
                    olds[t]
                } else if t == ji {
                    (key@, val@)
                } else {
                    olds[t - 1]
                }) by {
                    assert(news[t] == self.rows@[t]@);
                    if t > ji {
                        assert(self.rows@[(t - 1) + 1] == old(self).rows@[t - 1]);
                    }
                }
                old(self).lemma_absent(key@, ji);
                assert(sorted(news)) by {
                    assert forall|a: int, b: int| 0 <= a < b < news.len() implies lex_lt(
                        #[trigger] news[a].0,
                        #[trigger] news[b].0,
                    ) by {
                        if b < ji {
                        } else if b == ji {
                            assert(lex_lt(olds[a].0, key@));
                        } else if a == ji {
                            assert(lex_lt(key@, olds[b - 1].0));
                        } else if a < ji {
                            assert(lex_lt(olds[a].0, olds[b - 1].0));
                        } else {
                            assert(lex_lt(olds[a - 1].0, olds[b - 1].0));
                        }
                    }
                }
                lemma_key_at(news, ji);
                assert forall|x: Seq<u8>| #[trigger] value_of(news, x) == (if x == key@ {
                    Some(val@)
                } else {
                    value_of(olds, x)
                }) by {
                    if x != key@ {
                        if has_key(olds, x) {
                            let i = key_index(olds, x);
                            assert(0 <= i < olds.len() && olds[i].0 == x);
                            lemma_key_at(olds, i);
                            let i2: int = if i < ji {
                                i
                            } else {
                                i + 1
                            };
                            assert(news[i2] == olds[i]);
                            lemma_key_at(news, i2);
                        } else {
                            if has_key(news, x) {
                                let i = key_index(news, x);
                                assert(0 <= i < news.len() && news[i].0 == x);
                                let i0: int = if i < ji {
                                    i
                                } else {
                                    i - 1
                                };
                                assert(olds[i0].0 == x);
                            }
                        }
                    }
                }
            }
            Error::Okay
        }
    }

    /// Point delete through the handle: removes the row holding `key`, if
    /// any.  Deleting an absent key succeeds and changes nothing.  Fails
    /// with `Misuse` on a closed or read-only handle, leaving the rows
    /// unchanged.
    pub fn delete(&mut self, key: &[u8]) -> (st: Error)
        requires
            old(self).inv(),
        ensures
            final(self).inv(),
            final(self).is_open() == old(self).is_open(),
            final(self).opts == old(self).opts,
            final(self).open_cursors() == old(self).open_cursors(),
            st == Error::Okay <==> old(self).is_open() && old(self).writable(),
            st != Error::Okay ==> st == Error::Misuse && final(self)@ == old(self)@,
            st == Error::Okay ==> {
                &&& forall|x: Seq<u8>| #[trigger] value_of(final(self)@, x) == (if x == key@ {
                    None
                } else {
                    value_of(old(self)@, x)
                })
                &&& final(self)@.len() == old(self)@.len() - (if has_key(old(self)@, key@) {
                    1int
                } else {
                    0int
                })
                &&& !has_key(final(self)@, key@)
            },
    {
        if !self.live {
            return Error::Misuse;
        }
        match self.opts.mode {
            Open::ReadOnly => {
                return Error::Misuse;
            },
            Open::ReadWrite => {},
        }
        let ghost olds = self@;
        let (j, eq) = self.find_at_least(key);
        let ghost ji = j as int;
        if !eq {
            proof {
                self.lemma_absent(key@, ji);
            }
            return Error::Okay;
        }
        let dropped = self.rows.remove(j);
        let _ = dropped;
        proof {
            old(self).rows@.remove_ensures(ji);
            let news = self@;
            assert(news.len() == olds.len() - 1);
            lemma_key_at(olds, ji);
            assert forall|t: int| 0 <= t < news.len() implies #[trigger] news[t] == (if t < ji {
                olds[t]
            } else {
                olds[t + 1]
            }) by {
                assert(news[t] == self.rows@[t]@);
            }
            assert(sorted(news)) by {
                assert forall|a: int, b: int| 0 <= a < b < news.len() implies lex_lt(
                    #[trigger] news[a].0,
                    #[trigger] news[b].0,
                ) by {
                    if b < ji {
                    } else if a < ji {
                        assert(lex_lt(olds[a].0, olds[b + 1].0));
                    } else {
                        assert(lex_lt(olds[a + 1].0, olds[b + 1].0));
                    }
                }
            }
            assert(!has_key(news, key@)) by {
                if has_key(news, key@) {
                    let i = key_index(news, key@);
                    assert(0 <= i < news.len() && news[i].0 == key@);
                    let i0: int = if i < ji {
                        i
                    } else {
                        i + 1
                    };
                    assert(olds[i0].0 == key@ && i0 != ji);
                }
            }
            assert forall|x: Seq<u8>| #[trigger] value_of(news, x) == (if x == key@ {
                None
            } else {
                value_of(olds, x)
            }) by {
                if x != key@ {
                    if has_key(olds, x) {
                        let i = key_index(olds, x);
                        assert(0 <= i < olds.len() && olds[i].0 == x);
                        lemma_key_at(olds, i);
                        let i2: int = if i < ji {
                            i
                        } else {
                            i - 1
                        };
                        assert(news[i2] == olds[i]);
                        lemma_key_at(news, i2);
                    } else {
                        if has_key(news, x) {
                            let i = key_index(news, x);
                            assert(0 <= i < news.len() && news[i].0 == x);
                            let i0: int = if i < ji {
                                i
                            } else {
                                i + 1
                            };
                            assert(olds[i0].0 == x);
                        }
                    }
                }
            }
        }
        Error::Okay
    }
}

} // verus!
