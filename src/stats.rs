//! Statistics of one text: counts of words, characters and lines, and the
//! case-insensitive frequency of each word.
use vstd::prelude::*;
use crate::tally::{
    count_in, distinct, lemma_count_in_tally, lemma_tally_entries, lemma_tally_push_known,
    lemma_tally_push_new, lemma_tally_sum, occurrences, sum_counts, tally,
};
use crate::rank::{lemma_rank_injective, rank_of, rank_position};
use crate::text::{chars_of, count_lines, line_total, words, words_of};

verus! {

/// The lower-case form of a word, as `str::to_lowercase` gives it.
pub uninterp spec fn lower_of(s: Seq<char>) -> Seq<char>;

/// Number of entries in the default frequency report.
pub const REPORT_SIZE: usize = 5;

/// Relies on `str::to_lowercase`: Unicode lower-casing, whose result depends
/// on the characters alone.
#[verifier::external_body]
fn lowercase(w: &Vec<char>) -> (r: String)
    ensures
        r@ == lower_of(w@),
{
    w.iter().collect::<String>().to_lowercase()
}

/// Each word of a sequence in lower case.
pub open spec fn lowered(ws: Seq<Seq<char>>) -> Seq<Seq<char>> {
    ws.map_values(|w: Seq<char>| lower_of(w))
}

/// The lower-cased words of a text, in order: the keys that its frequency table counts.
pub open spec fn lowered_words(s: Seq<char>) -> Seq<Seq<char>> {
    lowered(words(s))
}

/// A frequency table as words and counts.
pub open spec fn table_view(t: Seq<(String, usize)>) -> Seq<(Seq<char>, nat)> {
    t.map_values(|e: (String, usize)| (e.0@, e.1 as nat))
}

/// Word, character and line counts of a text, with the number of times each
/// lower-cased word occurs in it.
pub struct TextStats {
    pub word_count: usize,
    pub char_count: usize,
    pub line_count: usize,
    /// Each lower-cased word with its count, in order of first appearance.
    pub word_frequency: Vec<(String, usize)>,
}

impl TextStats {
    /// The frequency table as words and counts.
    pub open spec fn frequencies(&self) -> Seq<(Seq<char>, nat)> {
        table_view(self.word_frequency@)
    }

    /// Nothing has been counted yet.
    pub open spec fn is_empty(&self) -> bool {
        self.word_count == 0 && self.char_count == 0 && self.line_count == 0
            && self.word_frequency@.len() == 0
    }

    /// The statistics are those of the text `s`.
    pub open spec fn describes(&self, s: Seq<char>) -> bool {
        &&& self.word_count == words(s).len()
        &&& self.char_count == s.len()
        &&& self.line_count == line_total(s)
        &&& self.frequencies() == tally(lowered_words(s))
    }

    /// The table lists each word once, with a positive count, and the counts
    /// add up to the number of words.
    pub open spec fn wf(&self) -> bool {
        &&& forall|i: int, j: int|
            0 <= i < j < self.word_frequency@.len() ==> self.word_frequency@[i].0@
                != self.word_frequency@[j].0@
        &&& forall|i: int| 0 <= i < self.word_frequency@.len() ==> self.word_frequency@[i].1 > 0
        &&& sum_counts(self.frequencies()) == self.word_count
    }

    /// Statistics with all counts zero and an empty table.
    pub fn new() -> (r: TextStats)
        ensures
            r.is_empty(),
    {
        TextStats { word_count: 0, char_count: 0, line_count: 0, word_frequency: Vec::new() }
    }

    /// Replaces the statistics with those of `contents`.
    pub fn calculate(&mut self, contents: &str)
        ensures
            final(self).describes(contents@),
            final(self).wf(),
    {
        let cs = chars_of(contents);
        self.char_count = cs.len();
        self.line_count = count_lines(contents);
        let ws = words_of(contents);
        let ghost all = ws@.map_values(|w: Vec<char>| w@);
        let n = ws.len();
        let mut keys: Vec<String> = Vec::new();
        for k in 0..n
            invariant
                n == ws@.len(),
                all == ws@.map_values(|w: Vec<char>| w@),
                views(keys@) == lowered(all.take(k as int)),
        {
            let key = lowercase(&ws[k]);
            let ghost before = views(keys@);
            keys.push(key);
            assert(views(keys@) =~= before.push(lower_of(all[k as int])));
            assert(lowered(all.take(k + 1)) =~= lowered(all.take(k as int)).push(
                lower_of(all[k as int]),
            ));
        }
        assert(all.take(n as int) =~= all);
        self.word_frequency = tally_keys(&keys);
        self.word_count = n;
        proof {
            let lw = lowered_words(contents@);
            lemma_tally_sum(lw);
            lemma_tally_entries(lw);
            assert forall|i: int| 0 <= i < self.word_frequency@.len() implies self.word_frequency@[i].1
                > 0 by {
                assert(self.frequencies()[i].1 == self.word_frequency@[i].1);
            }
            assert forall|i: int, j: int| 0 <= i < j < self.word_frequency@.len() implies self.word_frequency@[i].0@
                != self.word_frequency@[j].0@ by {
                assert(self.frequencies()[i].0 == self.word_frequency@[i].0@);
                assert(self.frequencies()[j].0 == self.word_frequency@[j].0@);
            }
        }
    }

    /// The statistics of `contents`.
    pub fn from_text(contents: &str) -> (r: TextStats)
        ensures
            r.describes(contents@),
            r.wf(),
    {
        let mut r = TextStats::new();
        r.calculate(contents);
        r
    }

    /// How often `word` occurs, regardless of case; zero for a word the table does not list.
    pub fn frequency_of(&self, word: &str) -> (r: usize)
        ensures
            r == count_in(self.frequencies(), lower_of(word@)),
    {
        let cs = chars_of(word);
        let key = lowercase(&cs);
        self.count_of_key(&key)
    }

    /// The count of the first entry whose word is `key`, or zero where there is none.
    pub fn count_of_key(&self, key: &String) -> (r: usize)
        ensures
            r == count_in(self.frequencies(), key@),
    {
        match find_key(&self.word_frequency, key) {
            Some(j) => {
                let ghost t = self.frequencies();
                assert(crate::tally::is_first_key(t, key@, j as int));
                self.word_frequency[j].1
            },
            None => 0,
        }
    }

    /// The first `limit` entries of the table in ranked order: higher counts
    /// first, and among equal counts the entry that appears first in the table.
    /// Entry `i` of the table stands at position `rank_of(frequencies, i)`.
    pub fn ranked(&self, limit: usize) -> (r: Vec<(String, usize)>)
        ensures
            r@.len() == if limit < self.word_frequency@.len() {
                limit as int
            } else {
                self.word_frequency@.len() as int
            },
            forall|i: int|
                0 <= i < self.word_frequency@.len() && rank_of(self.frequencies(), i) < r@.len()
                    ==> r@[rank_of(self.frequencies(), i) as int] == self.word_frequency@[i],
    {
        let ghost v = self.frequencies();
        let n = self.word_frequency.len();
        let m = if limit < n {
            limit
        } else {
            n
        };
        let mut r: Vec<(String, usize)> = Vec::new();
        for k in 0..m
            invariant
                m <= n,
                n == self.word_frequency@.len(),
                r@.len() == k,
        {
            r.push((self.word_frequency[k].0.clone(), self.word_frequency[k].1));
        }
        for i in 0..n
            invariant
                m <= n,
                n == self.word_frequency@.len(),
                v == self.frequencies(),
                r@.len() == m,
                forall|i2: int|
                    0 <= i2 < i && rank_of(v, i2) < m ==> r@[rank_of(v, i2) as int]
                        == self.word_frequency@[i2],
        {
            let p = rank_position(&self.word_frequency, i, m);
            if p < m {
                let e = (self.word_frequency[i].0.clone(), self.word_frequency[i].1);
                r.set(p, e);
                proof {
                    assert forall|i2: int| 0 <= i2 < i && rank_of(v, i2) < m implies r@[rank_of(
                        v,
                        i2,
                    ) as int] == self.word_frequency@[i2] by {
                        lemma_rank_injective(v, i2, i as int);
                    }
                }
            }
        }
        r
    }

    /// The default report: the `REPORT_SIZE` highest-ranked entries.
    pub fn rank_report(&self) -> (r: Vec<(String, usize)>)
        ensures
            r@.len() == if REPORT_SIZE < self.word_frequency@.len() {
                REPORT_SIZE as int
            } else {
                self.word_frequency@.len() as int
            },
            forall|i: int|
                0 <= i < self.word_frequency@.len() && rank_of(self.frequencies(), i) < r@.len()
                    ==> r@[rank_of(self.frequencies(), i) as int] == self.word_frequency@[i],
    {
        self.ranked(REPORT_SIZE)
    }
}

/// Views of a list of strings.
pub open spec fn views(v: Seq<String>) -> Seq<Seq<char>> {
    v.map_values(|a: String| a@)
}

/// The frequency table of `keys`: each different key once, in the order of
/// its first appearance, with its number of occurrences.
pub fn tally_keys(keys: &Vec<String>) -> (r: Vec<(String, usize)>)
    ensures
        table_view(r@) == tally(views(keys@)),
{
    let ghost all = views(keys@);
    let n = keys.len();
    let mut t: Vec<(String, usize)> = Vec::new();
    let mut k: usize = 0;
    assert(table_view(t@) =~= tally(all.take(0)));
    while k < n
        invariant
            n == keys@.len(),
            all == views(keys@),
            k <= n,
            table_view(t@) == tally(all.take(k as int)),
        decreases n - k,
    {
        let key = keys[k].clone();
        let ghost done = all.take(k as int);
        assert(all.take(k + 1) =~= done.push(key@));
        proof {
            lemma_tally_sum(done);
        }
        match find_key(&t, &key) {
            Some(j) => {
                let c = t[j].1;
                proof {
                    assert(table_view(t@)[j as int].0 == key@);
                    assert(tally(done)[j as int].0 == distinct(done)[j as int]);
                    lemma_tally_push_known(done, key@, j as int);
                    crate::tally::lemma_occurrences(done, key@);
                }
                t.set(j, (key, c + 1));
                assert(table_view(t@) =~= tally(done.push(key@)));
            },
            None => {
                proof {
                    assert(!distinct(done).contains(key@)) by {
                        if distinct(done).contains(key@) {
                            let i = choose|i: int|
                                0 <= i < distinct(done).len() && distinct(done)[i] == key@;
                            assert(table_view(t@)[i].0 == key@);
                        }
                    }
                    lemma_tally_push_new(done, key@);
                }
                t.push((key, 1));
                assert(table_view(t@) =~= tally(done.push(key@)));
            },
        }
        k = k + 1;
    }
    assert(all.take(n as int) =~= all);
    t
}

/// The count that the statistics of a text give a word is the number of
/// times it occurs among the text's lower-cased words; zero for any other word.
pub proof fn lemma_frequency_of_text(stats: TextStats, s: Seq<char>, w: Seq<char>)
    requires
        stats.describes(s),
    ensures
        count_in(stats.frequencies(), w) == occurrences(lowered_words(s), w),
{
    lemma_count_in_tally(lowered_words(s), w);
}

/// Position of the first entry of `t` whose word is `key`.
fn find_key(t: &Vec<(String, usize)>, key: &String) -> (r: Option<usize>)
    ensures
        match r {
            Some(j) => j < t@.len() && t@[j as int].0@ == key@ && forall|i: int|
                0 <= i < j ==> t@[i].0@ != key@,
            None => forall|i: int| 0 <= i < t@.len() ==> t@[i].0@ != key@,
        },
{
    let mut i: usize = 0;
    while i < t.len()
        invariant
            i <= t@.len(),
            forall|k: int| 0 <= k < i ==> t@[k].0@ != key@,
        decreases t@.len() - i,
    {
        if t[i].0 == *key {
            return Some(i);
        }
        i = i + 1;
    }
    None
}

} // verus!
