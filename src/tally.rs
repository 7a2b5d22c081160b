//! The frequency table of a sequence of words, as a mathematical object.
use vstd::prelude::*;

verus! {

/// Number of positions of `ws` that hold `w`.
pub open spec fn occurrences(ws: Seq<Seq<char>>, w: Seq<char>) -> nat
    decreases ws.len(),
{
    if ws.len() == 0 {
        0
    } else {
        occurrences(ws.drop_last(), w) + if ws.last() == w {
            1nat
        } else {
            0
        }
    }
}

/// The different words of `ws`, each once, in the order of their first appearance.
pub open spec fn distinct(ws: Seq<Seq<char>>) -> Seq<Seq<char>>
    decreases ws.len(),
{
    if ws.len() == 0 {
        Seq::empty()
    } else {
        let d = distinct(ws.drop_last());
        if d.contains(ws.last()) {
            d
        } else {
            d.push(ws.last())
        }
    }
}

/// Each different word of `ws` with its number of occurrences, in the order
/// of first appearance.
pub open spec fn tally(ws: Seq<Seq<char>>) -> Seq<(Seq<char>, nat)> {
    distinct(ws).map_values(|w: Seq<char>| (w, occurrences(ws, w)))
}

/// Sum of the counts of a table.
pub open spec fn sum_counts(t: Seq<(Seq<char>, nat)>) -> nat
    decreases t.len(),
{
    if t.len() == 0 {
        0
    } else {
        sum_counts(t.drop_last()) + t.last().1
    }
}

/// Whether index `i` is the first entry of `t` whose word is `w`.
pub open spec fn is_first_key(t: Seq<(Seq<char>, nat)>, w: Seq<char>, i: int) -> bool {
    0 <= i < t.len() && t[i].0 == w && forall|j: int| 0 <= j < i ==> t[j].0 != w
}

/// The count that `t` gives `w`: that of its first entry for `w`, or zero.
pub open spec fn count_in(t: Seq<(Seq<char>, nat)>, w: Seq<char>) -> nat {
    if exists|i: int| 0 <= i < t.len() && t[i].0 == w {
        t[choose|i: int| is_first_key(t, w, i)].1
    } else {
        0
    }
}

/// A word occurs in `ws` exactly when `distinct(ws)` lists it, and that list
/// repeats no word.
pub proof fn lemma_distinct(ws: Seq<Seq<char>>)
    ensures
        forall|w: Seq<char>| distinct(ws).contains(w) <==> ws.contains(w),
        distinct(ws).no_duplicates(),
    decreases ws.len(),
{
    if ws.len() > 0 {
        let p = ws.drop_last();
        let x = ws.last();
        lemma_distinct(p);
        assert forall|w: Seq<char>| distinct(ws).contains(w) <==> ws.contains(w) by {
            if p.contains(w) {
                let k = choose|k: int| 0 <= k < p.len() && p[k] == w;
                assert(ws[k] == w);
            }
            if ws.contains(w) && w != x {
                let k = choose|k: int| 0 <= k < ws.len() && ws[k] == w;
                assert(p[k] == w);
            }
            if distinct(p).contains(x) && w == x {
                assert(ws[ws.len() - 1] == w);
            }
            if !distinct(p).contains(x) && w == x {
                assert(distinct(ws)[distinct(ws).len() - 1] == w);
                assert(ws[ws.len() - 1] == w);
            }
            if !distinct(p).contains(x) && distinct(p).contains(w) {
                let k = choose|k: int| 0 <= k < distinct(p).len() && distinct(p)[k] == w;
                assert(distinct(ws)[k] == w);
            }
            if !distinct(p).contains(x) && distinct(ws).contains(w) && w != x {
                let k = choose|k: int| 0 <= k < distinct(ws).len() && distinct(ws)[k] == w;
                assert(distinct(p)[k] == w);
            }
        }
    }
}

/// A word occurs a positive number of times exactly when `ws` holds it, and
/// never more often than `ws` is long.
pub proof fn lemma_occurrences(ws: Seq<Seq<char>>, w: Seq<char>)
    ensures
        occurrences(ws, w) > 0 <==> ws.contains(w),
        occurrences(ws, w) <= ws.len(),
    decreases ws.len(),
{
    if ws.len() > 0 {
        let p = ws.drop_last();
        lemma_occurrences(p, w);
        if p.contains(w) {
            let k = choose|k: int| 0 <= k < p.len() && p[k] == w;
            assert(ws[k] == w);
        }
        if ws.contains(w) && ws.last() != w {
            let k = choose|k: int| 0 <= k < ws.len() && ws[k] == w;
            assert(p[k] == w);
        }
        if ws.last() == w {
            assert(ws[ws.len() - 1] == w);
        }
    }
}

/// One more word that the table already lists raises its entry by one.
pub proof fn lemma_tally_push_known(ws: Seq<Seq<char>>, x: Seq<char>, j: int)
    requires
        0 <= j < distinct(ws).len(),
        distinct(ws)[j] == x,
    ensures
        tally(ws.push(x)) == tally(ws).update(j, (x, tally(ws)[j].1 + 1)),
{
    let v = ws.push(x);
    assert(v.drop_last() =~= ws);
    lemma_distinct(ws);
    assert(distinct(ws).contains(x));
    assert(distinct(v) == distinct(ws));
    assert forall|w: Seq<char>| occurrences(v, w) == occurrences(ws, w) + if w == x {
        1nat
    } else {
        0
    } by {}
    assert(tally(v) =~= tally(ws).update(j, (x, tally(ws)[j].1 + 1)));
}

/// One more word that the table does not list adds an entry with count one.
pub proof fn lemma_tally_push_new(ws: Seq<Seq<char>>, x: Seq<char>)
    requires
        !distinct(ws).contains(x),
    ensures
        tally(ws.push(x)) == tally(ws).push((x, 1nat)),
{
    let v = ws.push(x);
    assert(v.drop_last() =~= ws);
    lemma_distinct(ws);
    lemma_occurrences(ws, x);
    assert(distinct(v) == distinct(ws).push(x));
    assert forall|w: Seq<char>| occurrences(v, w) == occurrences(ws, w) + if w == x {
        1nat
    } else {
        0
    } by {}
    assert(tally(v) =~= tally(ws).push((x, 1nat)));
}

/// Raising one count by one raises the sum by one.
pub proof fn lemma_sum_counts_raise(t: Seq<(Seq<char>, nat)>, j: int, x: Seq<char>)
    requires
        0 <= j < t.len(),
    ensures
        sum_counts(t.update(j, (x, t[j].1 + 1))) == sum_counts(t) + 1,
    decreases t.len(),
{
    let u = t.update(j, (x, t[j].1 + 1));
    if j < t.len() - 1 {
        assert(u.drop_last() =~= t.drop_last().update(j, (x, t[j].1 + 1)));
        lemma_sum_counts_raise(t.drop_last(), j, x);
    } else {
        assert(u.drop_last() =~= t.drop_last());
    }
}

/// The counts of the table of `ws` add up to the number of words in `ws`.
pub proof fn lemma_tally_sum(ws: Seq<Seq<char>>)
    ensures
        sum_counts(tally(ws)) == ws.len(),
    decreases ws.len(),
{
    if ws.len() == 0 {
        assert(tally(ws) =~= Seq::empty());
    } else {
        let p = ws.drop_last();
        let x = ws.last();
        lemma_tally_sum(p);
        assert(p.push(x) =~= ws);
        if distinct(p).contains(x) {
            let j = choose|j: int| 0 <= j < distinct(p).len() && distinct(p)[j] == x;
            lemma_tally_push_known(p, x, j);
            lemma_sum_counts_raise(tally(p), j, x);
        } else {
            lemma_tally_push_new(p, x);
            assert(tally(p).push((x, 1nat)).drop_last() =~= tally(p));
        }
    }
}

/// The table of `ws` lists each word once, with a positive count.
pub proof fn lemma_tally_entries(ws: Seq<Seq<char>>)
    ensures
        forall|i: int, j: int|
            0 <= i < j < tally(ws).len() ==> tally(ws)[i].0 != tally(ws)[j].0,
        forall|i: int| 0 <= i < tally(ws).len() ==> tally(ws)[i].1 > 0,
{
    lemma_distinct(ws);
    assert forall|i: int| 0 <= i < tally(ws).len() implies tally(ws)[i].1 > 0 by {
        let w = distinct(ws)[i];
        assert(distinct(ws).contains(w));
        lemma_occurrences(ws, w);
    }
}

/// The count that the table of `ws` gives any word is its number of occurrences in `ws`.
pub proof fn lemma_count_in_tally(ws: Seq<Seq<char>>, w: Seq<char>)
    ensures
        count_in(tally(ws), w) == occurrences(ws, w),
{
    let t = tally(ws);
    lemma_distinct(ws);
    lemma_occurrences(ws, w);
    if distinct(ws).contains(w) {
        let j = choose|j: int| 0 <= j < distinct(ws).len() && distinct(ws)[j] == w;
        assert(t[j].0 == w);
        assert(is_first_key(t, w, j));
        let i = choose|i: int| is_first_key(t, w, i);
        assert(i == j);
    } else {
        assert forall|i: int| 0 <= i < t.len() implies t[i].0 != w by {
            assert(distinct(ws)[i] == t[i].0);
        }
    }
}

} // verus!
