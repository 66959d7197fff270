//! Range endpoints and double-ended range iteration.
//!
//! A [`Bound`] is one side of a range query: either a cursor already
//! positioned at (or just past) the boundary key, or an unbounded marker
//! that defers opening a cursor until the side is first read.  A
//! [`RangeBounds`] pairs a forward start bound with a backward end bound and
//! yields the rows between them from either end, each step deciding
//! termination by comparing the two sides' keys.
//!
//! The meaning of an iterator state is its [`RangeBounds::remaining`]
//! sequence: the contiguous run of snapshot rows not yet yielded from either
//! side.  `next` pops its front, `next_back` pops its back, and both return
//! `None` exactly when it is empty — which is what makes draining from both
//! directions yield every row exactly once.

use vstd::prelude::*;

use crate::engine::Cursor;
use crate::engine::CursorPos;
use crate::engine::Db;
use crate::engine::Seek;
use crate::engine::has_key;
use crate::engine::sorted;
use crate::order::lex_le;
use crate::order::lex_lt;
use crate::order::lemma_lex_trichotomy;

verus! {

/// Which way a bound's cursor steps to skip past an excluded endpoint, and
/// which end of the data an unbounded side starts from.
#[derive(Clone, Copy, PartialEq, Eq, Structural, Debug)]
pub enum Direction {
    Next,
    Prev,
}

/// One endpoint of a requested range, as the caller states it.
pub enum KeyBound {
    Unbounded,
    Included(Vec<u8>),
    Excluded(Vec<u8>),
}

/// The cursor stands on the first row whose key is strictly above `k`, or
/// off the end when there is none: the position just past an excluded
/// forward endpoint.
pub open spec fn gt_positioned(c: Cursor, k: Seq<u8>) -> bool {
    match c.pos {
        CursorPos::On(j) => {
            &&& (j as int) < c@.len()
            &&& lex_lt(k, c@[j as int].0)
            &&& forall|i: int| 0 <= i < j as int ==> lex_le(#[trigger] c@[i].0, k)
        },
        CursorPos::Off => forall|i: int| 0 <= i < c@.len() ==> lex_le(#[trigger] c@[i].0, k),
        CursorPos::Unset => false,
    }
}

/// The cursor stands on the last row whose key is strictly below `k`, or
/// off the end when there is none: the position just past an excluded
/// backward endpoint.
pub open spec fn lt_positioned(c: Cursor, k: Seq<u8>) -> bool {
    match c.pos {
        CursorPos::On(j) => {
            &&& (j as int) < c@.len()
            &&& lex_lt(c@[j as int].0, k)
            &&& forall|i: int| (j as int) < i < c@.len() ==> lex_le(k, #[trigger] c@[i].0)
        },
        CursorPos::Off => forall|i: int| 0 <= i < c@.len() ==> lex_le(k, #[trigger] c@[i].0),
        CursorPos::Unset => false,
    }
}

/// In a sorted row sequence the bytewise order of two keys agrees with the
/// order of their indices.
pub proof fn lemma_idx_cmp(es: Seq<(Seq<u8>, Seq<u8>)>, i: int, j: int)
    requires
        sorted(es),
        0 <= i < es.len(),
        0 <= j < es.len(),
    ensures
        lex_lt(es[i].0, es[j].0) <==> i < j,
        (es[i].0 == es[j].0) <==> i == j,
{
    lemma_lex_trichotomy(es[i].0, es[j].0);
    if i < j {
        assert(lex_lt(es[i].0, es[j].0));
    }
    if j < i {
        assert(lex_lt(es[j].0, es[i].0));
    }
}

/// Skipping one step forwards off a cursor that `GE`-landed exactly on the
/// excluded key — and not moving otherwise — leaves the cursor past every
/// key at most that key.
proof fn lemma_gt_after_skip(before: Cursor, after: Cursor, k: Seq<u8>)
    requires
        before.inv(),
        before@.len() <= usize::MAX,
        before.ge_positioned(k),
        after.inv(),
        after@ == before@,
        before.is_on() && before.cur_key() == k ==> after.pos == (if before.idx() + 1
            < before@.len() {
            CursorPos::On((before.idx() + 1) as usize)
        } else {
            CursorPos::Off
        }),
        !(before.is_on() && before.cur_key() == k) ==> after == before,
    ensures
        gt_positioned(after, k),
{
    let es = before@;
    if before.is_on() && before.cur_key() == k {
        let j = before.idx();
        assert forall|i: int| 0 <= i < j + 1 implies lex_le(#[trigger] es[i].0, k) by {
            if i == j {
                assert(es[j].0 == k);
            }
        }
        if j + 1 < es.len() {
            assert(lex_lt(es[j].0, es[j + 1].0));
            assert(lex_lt(k, es[j + 1].0));
        }
    } else if before.is_on() {
        let j = before.idx();
        assert(lex_le(k, es[j].0) && es[j].0 != k);
        assert(lex_lt(k, es[j].0));
        assert forall|i: int| 0 <= i < j implies lex_le(#[trigger] es[i].0, k) by {
            assert(lex_lt(es[i].0, k));
        }
    } else {
        assert forall|i: int| 0 <= i < es.len() implies lex_le(#[trigger] es[i].0, k) by {
            assert(lex_lt(es[i].0, k));
        }
    }
}

/// The backward twin: skipping one step backwards off a cursor that
/// `LE`-landed exactly on the excluded key leaves it before every key at
/// least that key.
proof fn lemma_lt_after_skip(before: Cursor, after: Cursor, k: Seq<u8>)
    requires
        before.inv(),
        before@.len() <= usize::MAX,
        before.le_positioned(k),
        after.inv(),
        after@ == before@,
        before.is_on() && before.cur_key() == k ==> after.pos == (if before.idx() > 0 {
            CursorPos::On((before.idx() - 1) as usize)
        } else {
            CursorPos::Off
        }),
        !(before.is_on() && before.cur_key() == k) ==> after == before,
    ensures
        lt_positioned(after, k),
{
    let es = before@;
    if before.is_on() && before.cur_key() == k {
        let j = before.idx();
        assert forall|i: int| j - 1 < i < es.len() implies lex_le(k, #[trigger] es[i].0) by {
            if i == j {
                assert(es[j].0 == k);
            } else {
                assert(lex_lt(k, es[i].0));
            }
        }
        if j > 0 {
            assert(lex_lt(es[j - 1].0, es[j].0));
            assert(lex_lt(es[j - 1].0, k));
        }
    } else if before.is_on() {
        let j = before.idx();
        assert(lex_le(es[j].0, k) && es[j].0 != k);
        assert(lex_lt(es[j].0, k));
        assert forall|i: int| j < i < es.len() implies lex_le(k, #[trigger] es[i].0) by {
            assert(lex_lt(k, es[i].0));
        }
    } else {
        assert forall|i: int| 0 <= i < es.len() implies lex_le(k, #[trigger] es[i].0) by {
            assert(lex_lt(k, es[i].0));
        }
    }
}

/// One side of a range: a positioned cursor, or a deferred whole-side
/// marker that remembers which end of the data it stands for.
pub enum Bound {
    Included(Cursor),
    Unbounded(Direction),
}

impl Bound {
    /// A well-formed bound: a materialized cursor is well-formed and has
    /// been positioned (it is never a freshly opened, unpositioned cursor).
    pub open spec fn inv(self) -> bool {
        match self {
            Bound::Included(c) => c.inv() && !(c.pos is Unset),
            Bound::Unbounded(_) => true,
        }
    }

    /// How many cursors this bound holds open: one when materialized.
    pub open spec fn cursors_held(self) -> nat {
        match self {
            Bound::Included(_) => 1nat,
            Bound::Unbounded(_) => 0nat,
        }
    }

    /// Builds one side of a range over the current rows of `db`.
    ///
    /// An unbounded endpoint opens no cursor.  An included endpoint opens a
    /// cursor and seeks it to the boundary (`GE` forwards, `LE` backwards).
    /// An excluded endpoint seeks the same way and then, when the cursor
    /// landed exactly on the excluded key, steps once in the bound's own
    /// direction, so the excluded key itself is never observed.  On failure
    /// nothing stays open: the only fallible call is opening the cursor on
    /// a closed handle, and then no cursor exists to leak.
    pub fn new_in(db: &mut Db, bound: KeyBound, direction: Direction) -> (r: Result<
        Bound,
        crate::Error,
    >)
        requires
            old(db).inv(),
        ensures
            final(db).inv(),
            final(db)@ == old(db)@,
            final(db).is_open() == old(db).is_open(),
            final(db).opts == old(db).opts,
            r is Ok <==> (bound is Unbounded || old(db).is_open()),
            r matches Err(e) ==> e == crate::Error::Misuse,
            final(db).open_cursors() == old(db).open_cursors() + (match r {
                Ok(b) => b.cursors_held(),
                Err(_) => 0nat,
            }),
            r matches Ok(b) ==> {
                &&& b.inv()
                &&& (bound is Unbounded <==> b is Unbounded)
                &&& (b matches Bound::Unbounded(d) ==> d == direction)
                &&& (b matches Bound::Included(c) ==> {
                    &&& c@ == old(db)@
                    &&& (bound matches KeyBound::Included(k) ==> (if direction == Direction::Next {
                        c.ge_positioned(k@)
                    } else {
                        c.le_positioned(k@)
                    }))
                    &&& (bound matches KeyBound::Excluded(k) ==> (if direction == Direction::Next {
                        gt_positioned(c, k@)
                    } else {
                        lt_positioned(c, k@)
                    }))
                })
            },
    {
        match bound {
            KeyBound::Unbounded => Ok(Bound::Unbounded(direction)),
            KeyBound::Included(k) => {
                let mut cursor = match db.csr_open() {
                    Ok(c) => c,
                    Err(e) => {
                        return Err(crate::Error::from(e));
                    },
                };
                let mode = match direction {
                    Direction::Next => Seek::GE,
                    Direction::Prev => Seek::LE,
                };
                cursor.seek(k.as_slice(), mode);
                Ok(Bound::Included(cursor))
            },
            KeyBound::Excluded(k) => {
                let mut cursor = match db.csr_open() {
                    Ok(c) => c,
                    Err(e) => {
                        return Err(crate::Error::from(e));
                    },
                };
                let mode = match direction {
                    Direction::Next => Seek::GE,
                    Direction::Prev => Seek::LE,
                };
                cursor.seek(k.as_slice(), mode);
                let ghost after_seek = cursor;
                if cursor.valid() {
                    let c = match cursor.cmp(k.as_slice()) {
                        Ok(c) => c,
                        Err(_) => {
                            proof {
                                assert(false);
                            }
                            0
                        },
                    };
                    if c == 0 {
                        match direction {
                            Direction::Next => cursor.next(),
                            Direction::Prev => cursor.prev(),
                        }
                    }
                }
                proof {
                    assert(after_seek@.len() <= usize::MAX) by {
                        assert(vstd::std_specs::vec::spec_vec_len(&after_seek.rows)
                            == after_seek.rows@.len());
                    }
                    match direction {
                        Direction::Next => lemma_gt_after_skip(after_seek, cursor, k@),
                        Direction::Prev => lemma_lt_after_skip(after_seek, cursor, k@),
                    }
                }
                Ok(Bound::Included(cursor))
            },
        }
    }

    /// Whether this side already holds a materialized cursor.
    pub fn is_bounded(&self) -> (r: bool)
        ensures
            r == (self is Included),
    {
        match self {
            Bound::Included(_) => true,
            Bound::Unbounded(_) => false,
        }
    }

    /// The one-way step a bound may take when first read: an already
    /// materialized bound stays as it is; an unbounded one either stays (on
    /// failure) or becomes a cursor positioned at the absolute first or
    /// last row of `es`, per its direction.
    pub open spec fn steps_to(pre: Bound, post: Bound, es: Seq<(Seq<u8>, Seq<u8>)>) -> bool {
        match pre {
            Bound::Included(_) => post == pre,
            Bound::Unbounded(d) => post == pre || (post matches Bound::Included(c) && c@ == es
                && c.pos == (match d {
                Direction::Next => if es.len() > 0 {
                    CursorPos::On(0)
                } else {
                    CursorPos::Off
                },
                Direction::Prev => if es.len() > 0 {
                    CursorPos::On((es.len() - 1) as usize)
                } else {
                    CursorPos::Off
                },
            })),
        }
    }

    /// Forces the bound to hold a cursor, opening and positioning one at
    /// the absolute first or last row when the bound is still unbounded.
    /// The upgrade happens at most once: a materialized bound returns its
    /// cursor without touching the engine.  On failure the partially
    /// opened state is gone — nothing stays open.
    pub fn materialize(&mut self, db: &mut Db) -> (r: Result<(), crate::Error>)
        requires
            old(self).inv(),
            old(db).inv(),
        ensures
            final(db).inv(),
            final(db)@ == old(db)@,
            final(db).is_open() == old(db).is_open(),
            final(db).opts == old(db).opts,
            final(self).inv(),
            Bound::steps_to(*old(self), *final(self), old(db)@),
            final(db).open_cursors() as int == old(db).open_cursors()
                + final(self).cursors_held() - old(self).cursors_held(),
            r is Ok <==> (*old(self) is Included || old(db).is_open()),
            r is Ok <==> *final(self) is Included,
            r is Err ==> *final(self) == *old(self),
            r matches Err(e) ==> e == crate::Error::Misuse,
    {
        if self.is_bounded() {
            return Ok(());
        }
        let dir = match self {
            Bound::Unbounded(d) => *d,
            Bound::Included(_) => {
                proof {
                    assert(false);
                }
                Direction::Next
            },
        };
        match db.csr_open() {
            Err(e) => Err(crate::Error::from(e)),
            Ok(c) => {
                let mut c = c;
                match dir {
                    Direction::Next => c.first(),
                    Direction::Prev => c.last(),
                }
                *self = Bound::Included(c);
                Ok(())
            },
        }
    }

    /// The key under the bound's cursor, materializing it first.  Fails
    /// with `Misuse` when materialization fails or the cursor is off the
    /// data.
    pub fn key(&mut self, db: &mut Db) -> (r: Result<Vec<u8>, crate::Error>)
        requires
            old(self).inv(),
            old(db).inv(),
        ensures
            final(db).inv(),
            final(db)@ == old(db)@,
            final(db).is_open() == old(db).is_open(),
            final(db).opts == old(db).opts,
            final(self).inv(),
            Bound::steps_to(*old(self), *final(self), old(db)@),
            (*old(self) is Included || old(db).is_open()) ==> *final(self) is Included,
            final(db).open_cursors() as int == old(db).open_cursors()
                + final(self).cursors_held() - old(self).cursors_held(),
            r is Ok <==> (*final(self) matches Bound::Included(c) && c.is_on()),
            r matches Ok(kv) ==> (*final(self) matches Bound::Included(c) && kv@ == c.cur_key()),
            r matches Err(e) ==> e == crate::Error::Misuse,
    {
        match self.materialize(db) {
            Err(e) => Err(e),
            Ok(()) => match self {
                Bound::Included(c) => match c.key() {
                    Ok(k) => Ok(k),
                    Err(_) => Err(crate::Error::Misuse),
                },
                Bound::Unbounded(_) => {
                    proof {
                        assert(false);
                    }
                    Err(crate::Error::Misuse)
                },
            },
        }
    }

    /// The value under the bound's cursor, materializing it first.  Fails
    /// with `Misuse` when materialization fails or the cursor is off the
    /// data.
    pub fn val(&mut self, db: &mut Db) -> (r: Result<Vec<u8>, crate::Error>)
        requires
            old(self).inv(),
            old(db).inv(),
        ensures
            final(db).inv(),
            final(db)@ == old(db)@,
            final(db).is_open() == old(db).is_open(),
            final(db).opts == old(db).opts,
            final(self).inv(),
            Bound::steps_to(*old(self), *final(self), old(db)@),
            (*old(self) is Included || old(db).is_open()) ==> *final(self) is Included,
            final(db).open_cursors() as int == old(db).open_cursors()
                + final(self).cursors_held() - old(self).cursors_held(),
            r is Ok <==> (*final(self) matches Bound::Included(c) && c.is_on()),
            r matches Ok(v) ==> (*final(self) matches Bound::Included(c) && v@ == c.cur_val()),
            r matches Err(e) ==> e == crate::Error::Misuse,
    {
        match self.materialize(db) {
            Err(e) => Err(e),
            Ok(()) => match self {
                Bound::Included(c) => match c.val() {
                    Ok(v) => Ok(v),
                    Err(_) => Err(crate::Error::Misuse),
                },
                Bound::Unbounded(_) => {
                    proof {
                        assert(false);
                    }
                    Err(crate::Error::Misuse)
                },
            },
        }
    }

    /// Point insert through the owning handle, under an explicit key: a
    /// handle-level operation that does not reposition the cursor.
    pub fn insert(&self, db: &mut Db, key: &[u8], value: &[u8]) -> (r: Result<(), crate::Error>)
        requires
            old(db).inv(),
        ensures
            final(db).inv(),
            final(db).is_open() == old(db).is_open(),
            final(db).opts == old(db).opts,
            final(db).open_cursors() == old(db).open_cursors(),
            r is Ok <==> (old(db).is_open() && old(db).writable()),
            r matches Err(e) ==> e == crate::Error::Misuse && final(db)@ == old(db)@,
            r is Ok ==> {
                &&& forall|x: Seq<u8>| #[trigger] crate::engine::value_of(final(db)@, x) == (if x
                    == key@ {
                    Some(value@)
                } else {
                    crate::engine::value_of(old(db)@, x)
                })
                &&& has_key(final(db)@, key@)
            },
    {
        let st = db.insert(key, value);
        match st.ok() {
            Ok(()) => Ok(()),
            Err(e) => Err(crate::Error::from(e)),
        }
    }

    /// Point delete of the row under the bound's cursor, through the
    /// owning handle: reads the cursor's current key, then issues the
    /// delete.  The cursor itself is not repositioned.
    pub fn remove(&mut self, db: &mut Db) -> (r: Result<(), crate::Error>)
        requires
            old(self).inv(),
            old(db).inv(),
        ensures
            final(db).inv(),
            final(db).is_open() == old(db).is_open(),
            final(db).opts == old(db).opts,
            final(self).inv(),
            Bound::steps_to(*old(self), *final(self), old(db)@),
            final(db).open_cursors() as int == old(db).open_cursors()
                + final(self).cursors_held() - old(self).cursors_held(),
            r is Ok <==> ((*final(self) matches Bound::Included(c) && c.is_on())
                && old(db).is_open() && old(db).writable()),
            r matches Err(e) ==> e == crate::Error::Misuse && final(db)@ == old(db)@,
            r is Ok ==> (*final(self) matches Bound::Included(c) && {
                &&& forall|x: Seq<u8>| #[trigger] crate::engine::value_of(final(db)@, x) == (if x
                    == c.cur_key() {
                    None
                } else {
                    crate::engine::value_of(old(db)@, x)
                })
                &&& !has_key(final(db)@, c.cur_key())
            }),
    {
        let key = match self.key(db) {
            Ok(k) => k,
            Err(e) => {
                return Err(e);
            },
        };
        let st = db.delete(key.as_slice());
        match st.ok() {
            Ok(()) => Ok(()),
            Err(e) => Err(crate::Error::from(e)),
        }
    }

    /// Overwrites the value of the row under the bound's cursor: reads the
    /// cursor's current key, then issues a point insert with that same key.
    /// The cursor's own snapshot still shows the old value.
    pub fn replace(&mut self, db: &mut Db, value: &[u8]) -> (r: Result<(), crate::Error>)
        requires
            old(self).inv(),
            old(db).inv(),
        ensures
            final(db).inv(),
            final(db).is_open() == old(db).is_open(),
            final(db).opts == old(db).opts,
            final(self).inv(),
            Bound::steps_to(*old(self), *final(self), old(db)@),
            final(db).open_cursors() as int == old(db).open_cursors()
                + final(self).cursors_held() - old(self).cursors_held(),
            r is Ok <==> ((*final(self) matches Bound::Included(c) && c.is_on())
                && old(db).is_open() && old(db).writable()),
            r matches Err(e) ==> e == crate::Error::Misuse && final(db)@ == old(db)@,
            r is Ok ==> (*final(self) matches Bound::Included(c) && {
                &&& forall|x: Seq<u8>| #[trigger] crate::engine::value_of(final(db)@, x) == (if x
                    == c.cur_key() {
                    Some(value@)
                } else {
                    crate::engine::value_of(old(db)@, x)
                })
                &&& has_key(final(db)@, c.cur_key())
            }),
    {
        let key = match self.key(db) {
            Ok(k) => k,
            Err(e) => {
                return Err(e);
            },
        };
        let st = db.insert(key.as_slice(), value);
        match st.ok() {
            Ok(()) => Ok(()),
            Err(e) => Err(crate::Error::from(e)),
        }
    }
}

/// The start bound of a range stands where `lo` asks: deferred when
/// unbounded, at the first row at least `k` for `Included(k)`, at the first
/// row above `k` for `Excluded(k)`.
pub open spec fn start_bound_for(b: Bound, es: Seq<(Seq<u8>, Seq<u8>)>, lo: KeyBound) -> bool {
    match lo {
        KeyBound::Unbounded => b == Bound::Unbounded(Direction::Next),
        KeyBound::Included(k) => b matches Bound::Included(c) && c@ == es && c.ge_positioned(k@),
        KeyBound::Excluded(k) => b matches Bound::Included(c) && c@ == es && gt_positioned(c, k@),
    }
}

/// The end bound of a range stands where `hi` asks: deferred when
/// unbounded, at the last row at most `k` for `Included(k)`, at the last
/// row below `k` for `Excluded(k)`.
pub open spec fn end_bound_for(b: Bound, es: Seq<(Seq<u8>, Seq<u8>)>, hi: KeyBound) -> bool {
    match hi {
        KeyBound::Unbounded => b == Bound::Unbounded(Direction::Prev),
        KeyBound::Included(k) => b matches Bound::Included(c) && c@ == es && c.le_positioned(k@),
        KeyBound::Excluded(k) => b matches Bound::Included(c) && c@ == es && lt_positioned(c, k@),
    }
}

/// A double-ended lazy range: a forward start bound, a backward end bound,
/// and — as ghost state — the snapshot of the rows the range was built
/// over, which anchors both sides' cursors.
pub struct RangeBounds {
    pub start_bound: Bound,
    pub end_bound: Bound,
    pub snap: Ghost<Seq<(Seq<u8>, Seq<u8>)>>,
}

impl RangeBounds {
    /// A well-formed range: the snapshot is sorted, both bounds are
    /// well-formed, every materialized cursor holds exactly the snapshot,
    /// and a still-deferred side remembers the right direction.
    pub open spec fn inv(self) -> bool {
        &&& sorted(self.snap@)
        &&& self.snap@.len() <= usize::MAX
        &&& self.start_bound.inv()
        &&& self.end_bound.inv()
        &&& (self.start_bound matches Bound::Included(c) ==> c@ == self.snap@)
        &&& (self.end_bound matches Bound::Included(c) ==> c@ == self.snap@)
        &&& (self.start_bound matches Bound::Unbounded(d) ==> d == Direction::Next)
        &&& (self.end_bound matches Bound::Unbounded(d) ==> d == Direction::Prev)
    }

    /// How many cursors the range holds open.
    pub open spec fn cursors_held(self) -> nat {
        self.start_bound.cursors_held() + self.end_bound.cursors_held()
    }

    /// The snapshot index the next forward step reads: the start cursor's
    /// position; the start of the data while the side is deferred; one past
    /// the end once the forward side is exhausted.
    pub open spec fn start_idx(self) -> int {
        match self.start_bound {
            Bound::Unbounded(_) => 0,
            Bound::Included(c) => match c.pos {
                CursorPos::On(i) => i as int,
                _ => self.snap@.len() as int,
            },
        }
    }

    /// The snapshot index the next backward step reads: the end cursor's
    /// position; the last row while the side is deferred; before the start
    /// once the backward side is exhausted.
    pub open spec fn end_idx(self) -> int {
        match self.end_bound {
            Bound::Unbounded(_) => self.snap@.len() - 1,
            Bound::Included(c) => match c.pos {
                CursorPos::On(i) => i as int,
                _ => -1,
            },
        }
    }

    /// The rows not yet yielded from either side, in ascending order.
    pub open spec fn remaining(self) -> Seq<(Seq<u8>, Seq<u8>)> {
        if self.start_idx() <= self.end_idx() {
            self.snap@.subrange(self.start_idx(), self.end_idx() + 1)
        } else {
            Seq::empty()
        }
    }

    /// Builds a range over the current rows of `db` from the two endpoint
    /// requests: the start bound seeks forwards, the end bound backwards.
    /// On failure no cursor stays open: a side that had already
    /// materialized is closed before the error propagates.
    pub fn new_in(db: &mut Db, lo: KeyBound, hi: KeyBound) -> (r: Result<
        RangeBounds,
        crate::Error,
    >)
        requires
            old(db).inv(),
        ensures
            final(db).inv(),
            final(db)@ == old(db)@,
            final(db).is_open() == old(db).is_open(),
            final(db).opts == old(db).opts,
            r is Ok <==> (old(db).is_open() || (lo is Unbounded && hi is Unbounded)),
            r matches Err(e) ==> e == crate::Error::Misuse && final(db).open_cursors() == old(
                db,
            ).open_cursors(),
            r matches Ok(rb) ==> {
                &&& rb.inv()
                &&& rb.snap@ == old(db)@
                &&& final(db).open_cursors() == old(db).open_cursors() + rb.cursors_held()
                &&& start_bound_for(rb.start_bound, old(db)@, lo)
                &&& end_bound_for(rb.end_bound, old(db)@, hi)
            },
    {
        let start_bound = match Bound::new_in(db, lo, Direction::Next) {
            Ok(b) => b,
            Err(e) => {
                return Err(e);
            },
        };
        let end_bound = match Bound::new_in(db, hi, Direction::Prev) {
            Ok(b) => b,
            Err(e) => {
                match start_bound {
                    Bound::Included(c) => db.csr_close(c),
                    Bound::Unbounded(_) => {},
                }
                return Err(e);
            },
        };
        let ghost snap = db@;
        proof {
            assert(snap.len() <= usize::MAX) by {
                assert(vstd::std_specs::vec::spec_vec_len(&db.rows) == db.rows@.len());
            }
        }
        Ok(RangeBounds { start_bound, end_bound, snap: Ghost(snap) })
    }

    /// Whether the forward side has nothing to stand on: true exactly when
    /// the start bound cannot materialize a cursor referencing a row.  The
    /// end bound plays no part in this check.
    pub fn is_empty(&mut self, db: &mut Db) -> (r: bool)
        requires
            old(self).inv(),
            old(db).inv(),
            old(self).snap@ == old(db)@,
        ensures
            final(db).inv(),
            final(db)@ == old(db)@,
            final(db).is_open() == old(db).is_open(),
            final(db).opts == old(db).opts,
            final(self).inv(),
            final(self).snap == old(self).snap,
            final(self).end_bound == old(self).end_bound,
            final(db).open_cursors() as int == old(db).open_cursors()
                + final(self).cursors_held() - old(self).cursors_held(),
            Bound::steps_to(old(self).start_bound, final(self).start_bound, old(db)@),
            old(self).start_bound is Included || old(db).is_open() ==> final(self).start_bound
                is Included,
            old(self).start_bound is Included || old(db).is_open() ==> r == (final(self).start_idx()
                == final(self).snap@.len()),
            !(old(self).start_bound is Included || old(db).is_open()) ==> r && *final(self)
                == *old(self),
    {
        match self.start_bound.materialize(db) {
            Err(_) => true,
            Ok(()) => match &self.start_bound {
                Bound::Included(c) => !c.valid(),
                Bound::Unbounded(_) => {
                    proof {
                        assert(false);
                    }
                    true
                },
            },
        }
    }

    /// Yields the least not-yet-yielded row, advancing the forward side
    /// past it: the front of `remaining` comes off, and `None` comes back
    /// exactly when `remaining` is empty.  Materializes the start bound on
    /// first use; the end bound is only compared against, never moved.
    pub fn next(&mut self, db: &mut Db) -> (r: Option<(Vec<u8>, Vec<u8>)>)
        requires
            old(self).inv(),
            old(db).inv(),
            old(self).snap@ == old(db)@,
        ensures
            final(db).inv(),
            final(db)@ == old(db)@,
            final(db).is_open() == old(db).is_open(),
            final(db).opts == old(db).opts,
            final(self).inv(),
            final(self).snap == old(self).snap,
            final(self).end_bound == old(self).end_bound,
            final(db).open_cursors() as int == old(db).open_cursors()
                + final(self).cursors_held() - old(self).cursors_held(),
            final(self).cursors_held() >= old(self).cursors_held(),
            !(old(self).start_bound is Included || old(db).is_open()) ==> r is None && *final(self)
                == *old(self),
            (old(self).start_bound is Included || old(db).is_open()) ==> {
                &&& (old(self).remaining().len() == 0 ==> r is None && final(self).remaining()
                    == old(self).remaining())
                &&& (old(self).remaining().len() > 0 ==> (r matches Some(p) && p.0@ == old(self).remaining()[0].0
                    && p.1@ == old(self).remaining()[0].1 && final(self).remaining()
                    == old(self).remaining().skip(1)))
            },
    {
        match self.start_bound.materialize(db) {
            Err(_) => {
                return None;
            },
            Ok(()) => {},
        }
        let ghost es = self.snap@;
        let ghost ci = self.start_idx();
        let ghost ej = self.end_idx();
        match &self.start_bound {
            Bound::Included(c) => {
                if !c.valid() {
                    proof {
                        assert(self.remaining() == Seq::<(Seq<u8>, Seq<u8>)>::empty());
                    }
                    return None;
                }
                if self.end_bound.is_bounded() {
                    let ekey = match &self.end_bound {
                        Bound::Included(ec) => match ec.key() {
                            Ok(k) => k,
                            Err(_) => {
                                proof {
                                    assert(ej == -1);
                                    assert(self.remaining()
                                        == Seq::<(Seq<u8>, Seq<u8>)>::empty());
                                }
                                return None;
                            },
                        },
                        Bound::Unbounded(_) => {
                            proof {
                                assert(false);
                            }
                            return None;
                        },
                    };
                    let cr = match c.cmp(ekey.as_slice()) {
                        Ok(v) => v,
                        Err(_) => {
                            proof {
                                assert(false);
                            }
                            0
                        },
                    };
                    proof {
                        lemma_idx_cmp(es, ci, ej);
                    }
                    if cr > 0 {
                        proof {
                            assert(self.remaining() == Seq::<(Seq<u8>, Seq<u8>)>::empty());
                        }
                        return None;
                    }
                }
            },
            Bound::Unbounded(_) => {
                proof {
                    assert(false);
                }
                return None;
            },
        }
        proof {
            assert(ci <= ej);
            assert(self.remaining().len() > 0);
            assert(self.remaining()[0] == es[ci]);
        }
        let (key, val) = match &self.start_bound {
            Bound::Included(c) => {
                let key = match c.key() {
                    Ok(k) => k,
                    Err(_) => {
                        proof {
                            assert(false);
                        }
                        Vec::new()
                    },
                };
                let val = match c.val() {
                    Ok(v) => v,
                    Err(_) => {
                        proof {
                            assert(false);
                        }
                        Vec::new()
                    },
                };
                (key, val)
            },
            Bound::Unbounded(_) => {
                proof {
                    assert(false);
                }
                (Vec::new(), Vec::new())
            },
        };
        match &mut self.start_bound {
            Bound::Included(c) => c.next(),
            Bound::Unbounded(_) => {
                proof {
                    assert(false);
                }
            },
        }
        proof {
            assert(self.start_idx() == ci + 1);
            assert(self.end_idx() == ej);
            if ci + 1 <= ej {
                assert(self.remaining() =~= es.subrange(ci, ej + 1).skip(1));
            } else {
                assert(self.remaining() =~= es.subrange(ci, ej + 1).skip(1));
            }
        }
        Some((key, val))
    }

    /// Yields the greatest not-yet-yielded row, advancing the backward side
    /// past it: the back of `remaining` comes off, and `None` comes back
    /// exactly when `remaining` is empty.  Materializes the end bound on
    /// first use; the start bound is only compared against, never moved.
    pub fn next_back(&mut self, db: &mut Db) -> (r: Option<(Vec<u8>, Vec<u8>)>)
        requires
            old(self).inv(),
            old(db).inv(),
            old(self).snap@ == old(db)@,
        ensures
            final(db).inv(),
            final(db)@ == old(db)@,
            final(db).is_open() == old(db).is_open(),
            final(db).opts == old(db).opts,
            final(self).inv(),
            final(self).snap == old(self).snap,
            final(self).start_bound == old(self).start_bound,
            final(db).open_cursors() as int == old(db).open_cursors()
                + final(self).cursors_held() - old(self).cursors_held(),
            final(self).cursors_held() >= old(self).cursors_held(),
            !(old(self).end_bound is Included || old(db).is_open()) ==> r is None && *final(self)
                == *old(self),
            (old(self).end_bound is Included || old(db).is_open()) ==> {
                &&& (old(self).remaining().len() == 0 ==> r is None && final(self).remaining()
                    == old(self).remaining())
                &&& (old(self).remaining().len() > 0 ==> (r matches Some(p) && p.0@ == old(self).remaining().last().0
                    && p.1@ == old(self).remaining().last().1 && final(self).remaining() == old(
                    self,
                ).remaining().subrange(0, old(self).remaining().len() - 1)))
            },
    {
        match self.end_bound.materialize(db) {
            Err(_) => {
                return None;
            },
            Ok(()) => {},
        }
        let ghost es = self.snap@;
        let ghost ci = self.start_idx();
        let ghost ej = self.end_idx();
        match &self.end_bound {
            Bound::Included(ec) => {
                if !ec.valid() {
                    proof {
                        assert(self.remaining() == Seq::<(Seq<u8>, Seq<u8>)>::empty());
                    }
                    return None;
                }
                if self.start_bound.is_bounded() {
                    let skey = match &self.start_bound {
                        Bound::Included(sc) => match sc.key() {
                            Ok(k) => k,
                            Err(_) => {
                                proof {
                                    assert(ci == es.len());
                                    assert(self.remaining()
                                        == Seq::<(Seq<u8>, Seq<u8>)>::empty());
                                }
                                return None;
                            },
                        },
                        Bound::Unbounded(_) => {
                            proof {
                                assert(false);
                            }
                            return None;
                        },
                    };
                    let cr = match ec.cmp(skey.as_slice()) {
                        Ok(v) => v,
                        Err(_) => {
                            proof {
                                assert(false);
                            }
                            0
                        },
                    };
                    proof {
                        lemma_idx_cmp(es, ej, ci);
                    }
                    if cr < 0 {
                        proof {
                            assert(self.remaining() == Seq::<(Seq<u8>, Seq<u8>)>::empty());
                        }
                        return None;
                    }
                }
            },
            Bound::Unbounded(_) => {
                proof {
                    assert(false);
                }
                return None;
            },
        }
        proof {
            assert(ci <= ej);
            assert(self.remaining().len() > 0);
            assert(self.remaining().last() == es[ej]);
        }
        let (key, val) = match &self.end_bound {
            Bound::Included(ec) => {
                let key = match ec.key() {
                    Ok(k) => k,
                    Err(_) => {
                        proof {
                            assert(false);
                        }
                        Vec::new()
                    },
                };
                let val = match ec.val() {
                    Ok(v) => v,
                    Err(_) => {
                        proof {
                            assert(false);
                        }
                        Vec::new()
                    },
                };
                (key, val)
            },
            Bound::Unbounded(_) => {
                proof {
                    assert(false);
                }
                (Vec::new(), Vec::new())
            },
        };
        match &mut self.end_bound {
            Bound::Included(ec) => ec.prev(),
            Bound::Unbounded(_) => {
                proof {
                    assert(false);
                }
            },
        }
        proof {
            assert(self.start_idx() == ci);
            assert(self.end_idx() == ej - 1);
            assert(self.remaining() =~= es.subrange(ci, ej + 1).subrange(
                0,
                es.subrange(ci, ej + 1).len() - 1,
            ));
        }
        Some((key, val))
    }

    /// Releases whatever the range holds open: both sides' cursors, where
    /// they were materialized.  A still-deferred side has nothing to
    /// release.
    pub fn close(self, db: &mut Db)
        requires
            old(db).open_cursors() >= self.cursors_held(),
        ensures
            final(db)@ == old(db)@,
            final(db).inv() == old(db).inv(),
            final(db).is_open() == old(db).is_open(),
            final(db).opts == old(db).opts,
            final(db).open_cursors() == old(db).open_cursors() - self.cursors_held(),
    {
        let RangeBounds { start_bound, end_bound, snap } = self;
        let _ = snap;
        match start_bound {
            Bound::Included(c) => db.csr_close(c),
            Bound::Unbounded(_) => {},
        }
        match end_bound {
            Bound::Included(c) => db.csr_close(c),
            Bound::Unbounded(_) => {},
        }
    }
}

} // verus!
