//! The laws the map abides by, proved once and for all.
//!
//! Each proof function here states a property of the library as a whole —
//! across several operations — over the same spec functions the operations'
//! own contracts use.

use vstd::prelude::*;

use crate::engine::Cursor;
use crate::engine::CursorPos;
use crate::engine::has_key;
use crate::engine::key_index;
use crate::engine::lemma_key_at;
use crate::engine::sorted;
use crate::engine::value_of;
use crate::order::lex_le;
use crate::order::lex_lt;
use crate::order::lemma_lex_transitive;
use crate::order::lemma_lex_trichotomy;
use crate::range::RangeBounds;
use crate::range::Bound;
use crate::range::gt_positioned;
use crate::range::lt_positioned;

verus! {

/// Reading a sorted row sequence one key at a time loses nothing: the tail
/// after the first row is again sorted, and holds exactly the other keys.
proof fn lemma_value_of_tail(es: Seq<(Seq<u8>, Seq<u8>)>)
    requires
        sorted(es),
        es.len() > 0,
    ensures
        sorted(es.skip(1)),
        forall|k: Seq<u8>| #[trigger] value_of(es.skip(1), k) == (if k == es[0].0 {
            None
        } else {
            value_of(es, k)
        }),
{
    let tail = es.skip(1);
    assert(tail.len() == es.len() - 1);
    assert forall|t: int| 0 <= t < tail.len() implies #[trigger] tail[t] == es[t + 1] by {}
    assert forall|i: int, j: int| 0 <= i < j < tail.len() implies lex_lt(
        #[trigger] tail[i].0,
        #[trigger] tail[j].0,
    ) by {
        assert(lex_lt(es[i + 1].0, es[j + 1].0));
    }
    lemma_key_at(es, 0);
    assert forall|k: Seq<u8>| #[trigger] value_of(tail, k) == (if k == es[0].0 {
        None::<Seq<u8>>
    } else {
        value_of(es, k)
    }) by {
        if k == es[0].0 {
            if has_key(tail, k) {
                let t = key_index(tail, k);
                assert(0 <= t < tail.len() && tail[t].0 == k);
                assert(es[t + 1].0 == es[0].0);
            }
        } else {
            if has_key(es, k) {
                let i = key_index(es, k);
                assert(0 <= i < es.len() && es[i].0 == k);
                lemma_key_at(es, i);
                assert(i != 0);
                assert(tail[i - 1] == es[i]);
                lemma_key_at(tail, i - 1);
            } else {
                if has_key(tail, k) {
                    let t = key_index(tail, k);
                    assert(0 <= t < tail.len() && tail[t].0 == k);
                    assert(es[t + 1].0 == k);
                }
            }
        }
    }
}

/// Equivalence to an in-memory ordered map: two sorted row sequences that
/// store the same value under every key are the same sequence.  So the
/// ascending iteration order of this map is completely determined by its
/// contents — it must match, row for row, a reference ordered map built by
/// the same sequence of inserts and removes, which the point operations'
/// own contracts pin down key by key.
pub proof fn lemma_sorted_rows_determined(es1: Seq<(Seq<u8>, Seq<u8>)>, es2: Seq<(Seq<u8>, Seq<u8>)>)
    requires
        sorted(es1),
        sorted(es2),
        forall|k: Seq<u8>| #[trigger] value_of(es1, k) == value_of(es2, k),
    ensures
        es1 == es2,
    decreases es1.len(),
{
    if es1.len() == 0 {
        if es2.len() > 0 {
            lemma_key_at(es2, 0);
            assert(value_of(es1, es2[0].0) is None);
        }
        assert(es1 =~= es2);
    } else if es2.len() == 0 {
        lemma_key_at(es1, 0);
        assert(value_of(es2, es1[0].0) is None);
    } else {
        lemma_key_at(es1, 0);
        lemma_key_at(es2, 0);
        assert(value_of(es2, es1[0].0) == Some(es1[0].1));
        assert(value_of(es1, es2[0].0) == Some(es2[0].1));
        let i = key_index(es2, es1[0].0);
        assert(0 <= i < es2.len() && es2[i].0 == es1[0].0);
        let j = key_index(es1, es2[0].0);
        assert(0 <= j < es1.len() && es1[j].0 == es2[0].0);
        if i > 0 {
            assert(lex_lt(es2[0].0, es2[i].0));
            if j > 0 {
                assert(lex_lt(es1[0].0, es1[j].0));
                lemma_lex_transitive(es2[0].0, es2[i].0, es1[j].0);
                lemma_lex_trichotomy(es2[0].0, es1[j].0);
            } else {
                lemma_lex_trichotomy(es2[0].0, es2[i].0);
            }
        }
        assert(es1[0].0 == es2[0].0);
        assert(es1[0].1 == es2[0].1) by {
            assert(value_of(es1, es1[0].0) == Some(es1[0].1));
            assert(value_of(es2, es2[0].0) == Some(es2[0].1));
        }
        assert(es1[0] == es2[0]);
        lemma_value_of_tail(es1);
        lemma_value_of_tail(es2);
        assert forall|k: Seq<u8>| #[trigger] value_of(es1.skip(1), k) == value_of(
            es2.skip(1),
            k,
        ) by {
            assert(value_of(es1, k) == value_of(es2, k));
        }
        lemma_sorted_rows_determined(es1.skip(1), es2.skip(1));
        assert forall|t: int| 0 <= t < es1.len() implies es1[t] == es2[t] by {
            if t > 0 {
                assert(es1.skip(1)[t - 1] == es2.skip(1)[t - 1]);
            }
        }
        assert(es1 =~= es2);
    }
}

/// Range half-open semantics: a range built from `Included(a)` forwards and
/// `Excluded(b)` backwards holds, at construction, exactly the stored keys
/// `k` with `a <= k < b` — whichever direction it is then drained from.
pub proof fn lemma_range_half_open(rb: RangeBounds, a: Seq<u8>, b: Seq<u8>)
    requires
        rb.inv(),
        rb.start_bound matches Bound::Included(c) && c.ge_positioned(a),
        rb.end_bound matches Bound::Included(c) && lt_positioned(c, b),
    ensures
        forall|k: Seq<u8>| #[trigger] has_key(rb.remaining(), k) <==> (has_key(rb.snap@, k)
            && lex_le(a, k) && lex_lt(k, b)),
{
    let es = rb.snap@;
    let si = rb.start_idx();
    let ej = rb.end_idx();
    assert forall|k: Seq<u8>| #[trigger] has_key(rb.remaining(), k) <==> (has_key(es, k) && lex_le(
        a,
        k,
    ) && lex_lt(k, b)) by {
        if has_key(rb.remaining(), k) {
            let t = key_index(rb.remaining(), k);
            assert(0 <= t < rb.remaining().len() && rb.remaining()[t].0 == k);
            assert(si <= ej);
            let i = si + t;
            assert(es[i].0 == k);
            assert(has_key(es, k));
            assert(lex_le(a, k)) by {
                match rb.start_bound {
                    Bound::Included(c) => {
                        assert(c.pos matches CursorPos::On(u) && u as int == si);
                        assert(lex_le(a, es[si].0));
                        if i > si {
                            assert(lex_lt(es[si].0, es[i].0));
                            if a == es[si].0 {
                            } else {
                                lemma_lex_transitive(a, es[si].0, es[i].0);
                            }
                        }
                    },
                    Bound::Unbounded(_) => {
                        assert(false);
                    },
                }
            }
            assert(lex_lt(k, b)) by {
                match rb.end_bound {
                    Bound::Included(c) => {
                        assert(c.pos matches CursorPos::On(u) && u as int == ej);
                        assert(lex_lt(es[ej].0, b));
                        if i < ej {
                            assert(lex_lt(es[i].0, es[ej].0));
                            lemma_lex_transitive(es[i].0, es[ej].0, b);
                        }
                    },
                    Bound::Unbounded(_) => {
                        assert(false);
                    },
                }
            }
        }
        if has_key(es, k) && lex_le(a, k) && lex_lt(k, b) {
            let i = key_index(es, k);
            assert(0 <= i < es.len() && es[i].0 == k);
            assert(si <= i) by {
                match rb.start_bound {
                    Bound::Included(c) => {
                        match c.pos {
                            CursorPos::On(_) => {
                                if i < si {
                                    assert(lex_lt(es[i].0, a));
                                    lemma_lex_trichotomy(a, k);
                                    if lex_lt(a, k) {
                                        lemma_lex_transitive(es[i].0, a, k);
                                        lemma_lex_trichotomy(es[i].0, k);
                                    }
                                }
                            },
                            CursorPos::Off => {
                                assert(lex_lt(es[i].0, a));
                                lemma_lex_trichotomy(a, k);
                                if lex_lt(a, k) {
                                    lemma_lex_transitive(es[i].0, a, k);
                                    lemma_lex_trichotomy(es[i].0, k);
                                }
                            },
                            CursorPos::Unset => {
                                assert(false);
                            },
                        }
                    },
                    Bound::Unbounded(_) => {
                        assert(false);
                    },
                }
            }
            assert(i <= ej) by {
                match rb.end_bound {
                    Bound::Included(c) => {
                        match c.pos {
                            CursorPos::On(_) => {
                                if i > ej {
                                    assert(lex_le(b, es[i].0));
                                    if b == es[i].0 {
                                        lemma_lex_trichotomy(k, b);
                                    } else {
                                        lemma_lex_transitive(k, b, es[i].0);
                                        lemma_lex_trichotomy(k, es[i].0);
                                    }
                                }
                            },
                            CursorPos::Off => {
                                assert(lex_le(b, es[i].0));
                                if b == es[i].0 {
                                    lemma_lex_trichotomy(k, b);
                                } else {
                                    lemma_lex_transitive(k, b, es[i].0);
                                    lemma_lex_trichotomy(k, es[i].0);
                                }
                            },
                            CursorPos::Unset => {
                                assert(false);
                            },
                        }
                    },
                    Bound::Unbounded(_) => {
                        assert(false);
                    },
                }
            }
            assert(rb.remaining()[i - si].0 == k);
            assert(has_key(rb.remaining(), k));
        }
    }
}

/// Excluded-bound exactness, first half: a forward bound built from
/// `Excluded(k)` never stands on, or later reaches, a row holding `k`
/// itself.
pub proof fn lemma_excluded_never_yields(c: Cursor, k: Seq<u8>)
    requires
        c.inv(),
        gt_positioned(c, k),
    ensures
        c.pos matches CursorPos::On(j) ==> forall|i: int|
            j as int <= i < c@.len() ==> (#[trigger] c@[i].0) != k,
{
    let es = c@;
    match c.pos {
        CursorPos::On(j) => {
            assert forall|i: int| j as int <= i < es.len() implies (#[trigger] es[i].0) != k by {
                assert(lex_lt(k, es[j as int].0));
                if i > j as int {
                    assert(lex_lt(es[j as int].0, es[i].0));
                    lemma_lex_transitive(k, es[j as int].0, es[i].0);
                }
                lemma_lex_trichotomy(k, es[i].0);
            }
        },
        _ => {},
    }
}

/// Excluded-bound exactness, second half: when the excluded key is not
/// stored at all, the bound stands exactly where an `Included` bound for
/// the same key would.
pub proof fn lemma_excluded_like_included(c: Cursor, k: Seq<u8>)
    requires
        c.inv(),
        gt_positioned(c, k),
        !has_key(c@, k),
    ensures
        c.ge_positioned(k),
{
    let es = c@;
    match c.pos {
        CursorPos::On(j) => {
            assert forall|i: int| 0 <= i < j as int implies lex_lt(#[trigger] es[i].0, k) by {
                assert(lex_le(es[i].0, k));
                assert(es[i].0 != k);
            }
        },
        CursorPos::Off => {
            assert forall|i: int| 0 <= i < es.len() implies lex_lt(#[trigger] es[i].0, k) by {
                assert(lex_le(es[i].0, k));
                assert(es[i].0 != k);
            }
        },
        CursorPos::Unset => {
            assert(false);
        },
    }
}

/// Single-row range from both directions: when exactly one row remains, a
/// forward step and a backward step would yield that very row, and taking
/// it from either end leaves nothing behind for the other — so however
/// `next` and `next_back` calls are mixed, the row comes out exactly once.
pub proof fn lemma_single_row_either_end(rb: RangeBounds)
    requires
        rb.remaining().len() == 1,
    ensures
        rb.remaining()[0] == rb.remaining().last(),
        rb.remaining().skip(1) == rb.remaining().subrange(0, rb.remaining().len() - 1),
{
    assert(rb.remaining().skip(1) =~= rb.remaining().subrange(0, rb.remaining().len() - 1));
}

/// Entry idempotence: once an insert has put `v` under `k`, the map holds
/// `v` under `k` in exactly one row; a second insert-if-vacant probe finds
/// that row occupied, so it writes nothing and hands back the value the
/// first call put there.
pub proof fn lemma_or_insert_idempotent(
    es0: Seq<(Seq<u8>, Seq<u8>)>,
    es1: Seq<(Seq<u8>, Seq<u8>)>,
    k: Seq<u8>,
    v: Seq<u8>,
)
    requires
        sorted(es1),
        forall|x: Seq<u8>| #[trigger] value_of(es1, x) == (if x == k {
            Some(v)
        } else {
            value_of(es0, x)
        }),
    ensures
        has_key(es1, k),
        value_of(es1, k) == Some(v),
        forall|i: int, j: int|
            0 <= i < es1.len() && 0 <= j < es1.len() && (#[trigger] es1[i]).0 == k && (
            #[trigger] es1[j]).0 == k ==> i == j,
{
    assert(value_of(es1, k) == Some(v));
    assert(has_key(es1, k));
    assert forall|i: int, j: int|
        0 <= i < es1.len() && 0 <= j < es1.len() && (#[trigger] es1[i]).0 == k && (
        #[trigger] es1[j]).0 == k implies i == j by {
        lemma_key_at(es1, i);
    }
}

} // verus!