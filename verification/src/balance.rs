//! How many created timelines are active: each side's nearest ones, up to
//! the quota, so neither side has more than one active created timeline
//! over the other.

use vstd::prelude::*;
use crate::model::{Side, TimelineView};
use crate::rules::{lemma_row_unique, owned_upto, rank_upto, ranks_before, StateView};

verus! {

/// How many elements of `s` satisfy `f`.
pub open spec fn count_where(s: Seq<int>, f: spec_fn(int) -> bool) -> nat
    decreases s.len(),
{
    if s.len() == 0 {
        0
    } else {
        count_where(s.drop_last(), f) + if f(s.last()) {
            1nat
        } else {
            0nat
        }
    }
}

/// Rows of the first `n` timelines that `side` created, in order.
pub open spec fn owned_rows(timelines: Seq<TimelineView>, side: Side, n: nat) -> Seq<int>
    decreases n,
{
    if n == 0 {
        Seq::empty()
    } else {
        let earlier = owned_rows(timelines, side, (n - 1) as nat);
        if timelines[n - 1].owner == Some(side) {
            earlier.push(timelines[n - 1].row as int)
        } else {
            earlier
        }
    }
}

/// Number of rows in `rows` nearer to L0 than `row`.
pub open spec fn nearer_count(rows: Seq<int>, row: int) -> nat {
    count_where(rows, |y: int| ranks_before(y, row))
}

/// Number of rows in `rows` with fewer than `q` rows of `rows` nearer.
pub open spec fn among_nearest(rows: Seq<int>, q: nat) -> nat {
    count_where(rows, |x: int| nearer_count(rows, x) < q)
}

/// Number of the first `n` timelines created by `side` that are active.
pub open spec fn active_owned(s: StateView, side: Side, n: nat) -> nat
    decreases n,
{
    if n == 0 {
        0
    } else {
        active_owned(s, side, (n - 1) as nat) + if s.timelines[n - 1].owner == Some(side)
            && s.is_active(s.timelines[n - 1].row as int) {
            1nat
        } else {
            0nat
        }
    }
}

pub open spec fn min_nat(a: nat, b: nat) -> nat {
    if a <= b {
        a
    } else {
        b
    }
}

proof fn lemma_count_remove(s: Seq<int>, f: spec_fn(int) -> bool, m: int)
    requires
        0 <= m < s.len(),
    ensures
        count_where(s, f) == count_where(s.remove(m), f) + if f(s[m]) {
            1nat
        } else {
            0nat
        },
    decreases s.len(),
{
    if m == s.len() - 1 {
        assert(s.remove(m) =~= s.drop_last());
    } else {
        lemma_count_remove(s.drop_last(), f, m);
        assert(s.remove(m).drop_last() =~= s.drop_last().remove(m));
        assert(s.remove(m).last() == s.last());
    }
}

proof fn lemma_count_agree(s: Seq<int>, f: spec_fn(int) -> bool, g: spec_fn(int) -> bool)
    requires
        forall|i: int| 0 <= i < s.len() ==> f(s[i]) == g(s[i]),
    ensures
        count_where(s, f) == count_where(s, g),
    decreases s.len(),
{
    if s.len() > 0 {
        lemma_count_agree(s.drop_last(), f, g);
    }
}

proof fn lemma_count_all(s: Seq<int>, f: spec_fn(int) -> bool)
    requires
        forall|i: int| 0 <= i < s.len() ==> f(s[i]),
    ensures
        count_where(s, f) == s.len(),
    decreases s.len(),
{
    if s.len() > 0 {
        lemma_count_all(s.drop_last(), f);
    }
}

proof fn lemma_ranks_total(a: int, b: int)
    ensures
        !ranks_before(a, a),
        a != b ==> ranks_before(a, b) || ranks_before(b, a),
        !(ranks_before(a, b) && ranks_before(b, a)),
{
}

proof fn lemma_ranks_transitive(a: int, b: int, c: int)
    requires
        ranks_before(a, b),
        ranks_before(b, c),
    ensures
        ranks_before(a, c),
{
}

/// A non-empty list of distinct rows has a row farthest from L0.
proof fn lemma_farthest(s: Seq<int>) -> (m: int)
    requires
        s.len() > 0,
    ensures
        0 <= m < s.len(),
        forall|i: int| 0 <= i < s.len() ==> !ranks_before(s[m], #[trigger] s[i]),
    decreases s.len(),
{
    if s.len() == 1 {
        lemma_ranks_total(s[0], s[0]);
        0
    } else {
        let k = lemma_farthest(s.drop_last());
        let t = s.drop_last();
        if ranks_before(s[k], s.last()) {
            assert forall|i: int| 0 <= i < s.len() implies !ranks_before(s.last(), #[trigger] s[i]) by {
                lemma_ranks_total(s.last(), s.last());
                if i < s.len() - 1 {
                    assert(s[i] == t[i]);
                    if ranks_before(s.last(), s[i]) {
                        lemma_ranks_transitive(s[k], s.last(), s[i]);
                        assert(!ranks_before(t[k], t[i]));
                    }
                }
            }
            s.len() - 1
        } else {
            assert forall|i: int| 0 <= i < s.len() implies !ranks_before(s[k], #[trigger] s[i]) by {
                if i < s.len() - 1 {
                    assert(s[i] == t[i]);
                }
            }
            k
        }
    }
}

/// Among distinct rows, exactly the nearest `min(len, q)` have fewer than
/// `q` rows nearer than themselves.
proof fn lemma_among_nearest(s: Seq<int>, q: nat)
    requires
        forall|i: int, j: int| 0 <= i < j < s.len() ==> s[i] != s[j],
    ensures
        among_nearest(s, q) == min_nat(s.len(), q),
    decreases s.len(),
{
    if s.len() > 0 {
        let m = lemma_farthest(s);
        let top = s[m];
        let rest = s.remove(m);
        assert forall|i: int, j: int| 0 <= i < j < rest.len() implies rest[i] != rest[j] by {
            let a = if i < m {
                i
            } else {
                i + 1
            };
            let b = if j < m {
                j
            } else {
                j + 1
            };
            assert(rest[i] == s[a] && rest[j] == s[b]);
        }
        lemma_among_nearest(rest, q);
        // Every other row is nearer than the farthest one.
        let before_top = |y: int| ranks_before(y, top);
        lemma_count_remove(s, before_top, m);
        assert forall|i: int| 0 <= i < rest.len() implies before_top(rest[i]) by {
            let a = if i < m {
                i
            } else {
                i + 1
            };
            assert(rest[i] == s[a]);
            assert(a != m);
            lemma_ranks_total(s[a], top);
            assert(!ranks_before(top, s[a]));
        }
        lemma_count_all(rest, before_top);
        lemma_ranks_total(top, top);
        assert(nearer_count(s, top) == rest.len());
        // The farthest row is nearer than no other, so the others keep
        // their counts.
        let low_s = |x: int| nearer_count(s, x) < q;
        let low_rest = |x: int| nearer_count(rest, x) < q;
        assert forall|i: int| 0 <= i < rest.len() implies low_s(rest[i]) == low_rest(rest[i]) by {
            let x = rest[i];
            let a = if i < m {
                i
            } else {
                i + 1
            };
            assert(x == s[a]);
            lemma_count_remove(s, |y: int| ranks_before(y, x), m);
            assert(!ranks_before(top, x));
        }
        lemma_count_agree(rest, low_s, low_rest);
        lemma_count_remove(s, low_s, m);
        assert(rest.len() == s.len() - 1);
    }
}

proof fn lemma_owned_rows_count(timelines: Seq<TimelineView>, side: Side, n: nat)
    requires
        n <= timelines.len(),
    ensures
        owned_rows(timelines, side, n).len() == owned_upto(timelines, side, n),
    decreases n,
{
    if n > 0 {
        lemma_owned_rows_count(timelines, side, (n - 1) as nat);
    }
}

proof fn lemma_rank_is_nearer_count(timelines: Seq<TimelineView>, side: Side, row: int, n: nat)
    requires
        n <= timelines.len(),
    ensures
        rank_upto(timelines, side, row, n) == nearer_count(owned_rows(timelines, side, n), row),
    decreases n,
{
    if n > 0 {
        lemma_rank_is_nearer_count(timelines, side, row, (n - 1) as nat);
        let e = owned_rows(timelines, side, (n - 1) as nat);
        if timelines[n - 1].owner == Some(side) {
            assert(e.push(timelines[n - 1].row as int).drop_last() =~= e);
        }
    }
}

/// The rows a well-formed position's timelines hold are distinct.
proof fn lemma_owned_rows_distinct(s: StateView, side: Side, n: nat)
    requires
        s.wf(),
        n <= s.timelines.len(),
    ensures
        forall|i: int, j: int|
            0 <= i < j < owned_rows(s.timelines, side, n).len() ==> owned_rows(s.timelines, side, n)[i]
                < owned_rows(s.timelines, side, n)[j],
        forall|i: int|
            0 <= i < owned_rows(s.timelines, side, n).len() ==> owned_rows(s.timelines, side, n)[i]
                <= if n == 0 {
                0
            } else {
                s.timelines[n - 1].row as int
            },
    decreases n,
{
    if n > 0 {
        lemma_owned_rows_distinct(s, side, (n - 1) as nat);
        let e = owned_rows(s.timelines, side, (n - 1) as nat);
        let r = owned_rows(s.timelines, side, n);
        assert forall|i: int| 0 <= i < e.len() implies e[i] < s.timelines[n - 1].row as int by {
            assert(n >= 2);
            assert(s.timelines[n - 2].row < s.timelines[n - 1].row);
        }
        assert forall|i: int, j: int| 0 <= i < j < r.len() implies r[i] < r[j] by {
            if j < e.len() {
                assert(r[i] == e[i] && r[j] == e[j]);
            } else {
                assert(r[i] == e[i]);
            }
        }
        assert forall|i: int| 0 <= i < r.len() implies r[i] <= s.timelines[n - 1].row as int by {
            if i < e.len() {
                assert(r[i] == e[i]);
            }
        }
    }
}

/// The active timelines `side` created are those whose rows have fewer
/// than the quota of `side`'s rows nearer.
proof fn lemma_active_owned_is_among_nearest(s: StateView, side: Side, n: nat)
    requires
        s.wf(),
        n <= s.timelines.len(),
    ensures
        active_owned(s, side, n) == count_where(
            owned_rows(s.timelines, side, n),
            |x: int| nearer_count(owned_rows(s.timelines, side, s.timelines.len()), x) < s.quota(),
        ),
    decreases n,
{
    let all = owned_rows(s.timelines, side, s.timelines.len());
    let f = |x: int| nearer_count(all, x) < s.quota();
    if n > 0 {
        lemma_active_owned_is_among_nearest(s, side, (n - 1) as nat);
        let e = owned_rows(s.timelines, side, (n - 1) as nat);
        let t = s.timelines[n - 1];
        if t.owner == Some(side) {
            lemma_row_unique(s, n - 1);
            lemma_rank_is_nearer_count(s.timelines, side, t.row as int, s.timelines.len());
            assert(e.push(t.row as int).drop_last() =~= e);
        }
    }
}

/// Each side has as many active created timelines as it created, up to
/// the quota; so neither side has more than one active created timeline
/// over the other.
pub proof fn lemma_active_balance(s: StateView)
    requires
        s.wf(),
    ensures
        active_owned(s, Side::Attacker, s.timelines.len()) == min_nat(
            owned_upto(s.timelines, Side::Attacker, s.timelines.len()),
            s.quota(),
        ),
        active_owned(s, Side::Defender, s.timelines.len()) == min_nat(
            owned_upto(s.timelines, Side::Defender, s.timelines.len()),
            s.quota(),
        ),
        active_owned(s, Side::Attacker, s.timelines.len()) <= active_owned(
            s,
            Side::Defender,
            s.timelines.len(),
        ) + 1,
        active_owned(s, Side::Defender, s.timelines.len()) <= active_owned(
            s,
            Side::Attacker,
            s.timelines.len(),
        ) + 1,
{
    let n = s.timelines.len();
    lemma_side_balance(s, Side::Attacker);
    lemma_side_balance(s, Side::Defender);
}

proof fn lemma_side_balance(s: StateView, side: Side)
    requires
        s.wf(),
    ensures
        active_owned(s, side, s.timelines.len()) == min_nat(
            owned_upto(s.timelines, side, s.timelines.len()),
            s.quota(),
        ),
{
    let n = s.timelines.len();
    let all = owned_rows(s.timelines, side, n);
    lemma_active_owned_is_among_nearest(s, side, n);
    lemma_owned_rows_distinct(s, side, n);
    lemma_owned_rows_count(s.timelines, side, n);
    assert forall|i: int, j: int| 0 <= i < j < all.len() implies all[i] != all[j] by {
        assert(all[i] < all[j]);
    }
    lemma_among_nearest(all, s.quota());
}

} // verus!
