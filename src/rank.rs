//! Ranking of a frequency table: higher counts first, and among equal counts
//! the earlier entry first.
use vstd::prelude::*;
use vstd::relations::injective_on;
use vstd::set_lib::{lemma_int_range, lemma_map_size, lemma_subset_equality, set_int_range};
use crate::stats::table_view;

verus! {

/// Entry `i` of `t` ranks above entry `j`.
pub open spec fn ranks_above(t: Seq<(Seq<char>, nat)>, i: int, j: int) -> bool {
    t[i].1 > t[j].1 || (t[i].1 == t[j].1 && i < j)
}

/// Number of entries among the first `m` of `t` that rank above entry `i`.
pub open spec fn count_above(t: Seq<(Seq<char>, nat)>, i: int, m: int) -> nat
    decreases m,
{
    if m <= 0 {
        0
    } else {
        count_above(t, i, m - 1) + if ranks_above(t, m - 1, i) {
            1nat
        } else {
            0
        }
    }
}

/// Position of entry `i` in the ranking of `t`: the number of entries above it.
pub open spec fn rank_of(t: Seq<(Seq<char>, nat)>, i: int) -> nat {
    count_above(t, i, t.len() as int)
}

/// Counting over more entries never gives less, and never more than the entries counted.
pub proof fn lemma_count_above_monotone(t: Seq<(Seq<char>, nat)>, i: int, m1: int, m2: int)
    requires
        0 <= m1 <= m2,
    ensures
        count_above(t, i, m1) <= count_above(t, i, m2),
        count_above(t, i, m2) <= m2,
    decreases m2,
{
    if m2 > 0 {
        if m1 < m2 {
            lemma_count_above_monotone(t, i, m1, m2 - 1);
        } else {
            lemma_count_above_monotone(t, i, m1 - 1, m2 - 1);
        }
    }
}

/// An entry that ranks above another is counted above fewer entries.
pub proof fn lemma_count_above_order(t: Seq<(Seq<char>, nat)>, a: int, b: int, m: int)
    requires
        0 <= a < t.len(),
        0 <= b < t.len(),
        0 <= m <= t.len(),
        ranks_above(t, a, b),
    ensures
        count_above(t, b, m) >= count_above(t, a, m) + if a < m {
            1nat
        } else {
            0
        },
    decreases m,
{
    if m > 0 {
        lemma_count_above_order(t, a, b, m - 1);
    }
}

/// Different entries have different ranks.
pub proof fn lemma_rank_injective(t: Seq<(Seq<char>, nat)>, a: int, b: int)
    requires
        0 <= a < t.len(),
        0 <= b < t.len(),
        a != b,
    ensures
        rank_of(t, a) != rank_of(t, b),
{
    if ranks_above(t, a, b) {
        lemma_count_above_order(t, a, b, t.len() as int);
    } else {
        lemma_count_above_order(t, b, a, t.len() as int);
    }
}

/// An entry is never counted above itself.
pub proof fn lemma_count_above_bound(t: Seq<(Seq<char>, nat)>, i: int, m: int)
    requires
        0 <= m,
    ensures
        count_above(t, i, m) + (if 0 <= i < m {
            1nat
        } else {
            0
        }) <= m,
    decreases m,
{
    if m > 0 {
        lemma_count_above_bound(t, i, m - 1);
    }
}

/// Every position below the length of `t` is the rank of some entry: the
/// ranking orders all of `t`.
pub proof fn lemma_rank_onto(t: Seq<(Seq<char>, nat)>, k: int)
    requires
        0 <= k < t.len(),
    ensures
        exists|i: int| 0 <= i < t.len() && rank_of(t, i) == k,
{
    let n = t.len() as int;
    let x = set_int_range(0, n);
    let f = |i: int| rank_of(t, i) as int;
    let y = x.map(f);
    lemma_int_range(0, n);
    assert(injective_on(f, x)) by {
        assert forall|a: int, b: int|
            x.contains(a) && x.contains(b) && #[trigger] f(a) == #[trigger] f(b) implies a == b by {
            if a != b {
                lemma_rank_injective(t, a, b);
            }
        }
    }
    lemma_map_size(x, y, f);
    assert(y.subset_of(x)) by {
        assert forall|r: int| y.contains(r) implies x.contains(r) by {
            let i = choose|i: int| x.contains(i) && f(i) == r;
            lemma_count_above_bound(t, i, n);
        }
    }
    lemma_subset_equality(y, x);
    assert(x.contains(k));
    assert(y.contains(k));
    let i = choose|i: int| x.contains(i) && f(i) == k;
    assert(0 <= i < t.len() && rank_of(t, i) == k);
}

/// The rank of entry `i` of `t`, or `limit` where the rank is `limit` or more.
pub fn rank_position(t: &Vec<(String, usize)>, i: usize, limit: usize) -> (r: usize)
    requires
        i < t@.len(),
    ensures
        r as int == if rank_of(table_view(t@), i as int) < limit {
            rank_of(table_view(t@), i as int) as int
        } else {
            limit as int
        },
{
    let ghost v = table_view(t@);
    let n = t.len();
    if limit == 0 {
        return 0;
    }
    let mut count: usize = 0;
    let mut j: usize = 0;
    while j < n
        invariant
            n == t@.len(),
            v == table_view(t@),
            i < n,
            j <= n,
            0 < limit,
            count == count_above(v, i as int, j as int),
            count < limit,
        decreases n - j,
    {
        proof {
            lemma_count_above_monotone(v, i as int, j as int, j as int);
        }
        let above = t[j].1 > t[i].1 || (t[j].1 == t[i].1 && j < i);
        assert(above == ranks_above(v, j as int, i as int));
        if above {
            count = count + 1;
        }
        j = j + 1;
        if count == limit {
            proof {
                lemma_count_above_monotone(v, i as int, j as int, n as int);
            }
            return limit;
        }
    }
    count
}

} // verus!
