//! Characters, whitespace-delimited words and lines of a text.
use vstd::prelude::*;

verus! {

/// The characters with Unicode's White_Space property.
pub open spec fn is_white_space(c: char) -> bool {
    let n = c as u32;
    (0x09 <= n <= 0x0d) || n == 0x20 || n == 0x85 || n == 0xa0 || n == 0x1680 || (0x2000 <= n
        <= 0x200a) || n == 0x2028 || n == 0x2029 || n == 0x202f || n == 0x205f || n == 0x3000
}

/// Whether `c` separates words.
pub fn is_whitespace_char(c: char) -> (r: bool)
    ensures
        r == is_white_space(c),
{
    let n = c as u32;
    (0x09 <= n && n <= 0x0d) || n == 0x20 || n == 0x85 || n == 0xa0 || n == 0x1680 || (0x2000 <= n
        && n <= 0x200a) || n == 0x2028 || n == 0x2029 || n == 0x202f || n == 0x205f || n == 0x3000
}

/// The characters of `s`, in order.
pub fn chars_of(s: &str) -> (r: Vec<char>)
    ensures
        r@ == s@,
{
    let mut r: Vec<char> = Vec::new();
    for c in it: s.chars()
        invariant
            it.seq() == s@,
            r@ == it.seq().take(it.index() as int),
    {
        r.push(c);
    }
    r
}

/// Length of the run of non-whitespace characters that starts `s`.
pub open spec fn run_len(s: Seq<char>) -> nat
    decreases s.len(),
{
    if s.len() == 0 || is_white_space(s[0]) {
        0
    } else {
        1 + run_len(s.drop_first())
    }
}

/// The words of `s`: its maximal runs of non-whitespace characters, in order.
pub open spec fn words(s: Seq<char>) -> Seq<Seq<char>>
    decreases s.len(),
{
    if s.len() == 0 {
        Seq::empty()
    } else if is_white_space(s[0]) {
        words(s.drop_first())
    } else {
        proof {
            lemma_run_len_bound(s);
        }
        seq![s.take(run_len(s) as int)] + words(s.skip(run_len(s) as int))
    }
}

/// Number of newline characters in `s`.
pub open spec fn newline_count(s: Seq<char>) -> nat
    decreases s.len(),
{
    if s.len() == 0 {
        0
    } else {
        newline_count(s.drop_last()) + if s.last() == '\n' {
            1nat
        } else {
            0
        }
    }
}

/// Number of lines of `s`: each newline ends one, and a non-empty tail
/// after the last newline is one more.
pub open spec fn line_total(s: Seq<char>) -> nat {
    newline_count(s) + if s.len() > 0 && s.last() != '\n' {
        1nat
    } else {
        0
    }
}

/// The leading run lies within `s`, holds no whitespace, and stops at whitespace or the end.
pub proof fn lemma_run_len_bound(s: Seq<char>)
    ensures
        run_len(s) <= s.len(),
        forall|k: int| 0 <= k < run_len(s) ==> !is_white_space(#[trigger] s[k]),
        run_len(s) < s.len() ==> is_white_space(s[run_len(s) as int]),
        s.len() > 0 && !is_white_space(s[0]) ==> run_len(s) >= 1,
    decreases s.len(),
{
    if s.len() > 0 && !is_white_space(s[0]) {
        lemma_run_len_bound(s.drop_first());
        assert forall|k: int| 0 <= k < run_len(s) implies !is_white_space(#[trigger] s[k]) by {
            if k > 0 {
                assert(s[k] == s.drop_first()[k - 1]);
            }
        }
    }
}

/// A non-empty sequence of non-whitespace characters.
pub open spec fn is_token(w: Seq<char>) -> bool {
    w.len() > 0 && forall|k: int| 0 <= k < w.len() ==> !is_white_space(#[trigger] w[k])
}

/// Every word is a token: non-empty and free of whitespace.
pub proof fn lemma_words_are_tokens(s: Seq<char>)
    ensures
        forall|i: int| 0 <= i < words(s).len() ==> is_token(#[trigger] words(s)[i]),
    decreases s.len(),
{
    if s.len() > 0 {
        if is_white_space(s[0]) {
            lemma_words_are_tokens(s.drop_first());
            assert(words(s) == words(s.drop_first()));
        } else {
            let n = run_len(s) as int;
            lemma_run_len_bound(s);
            lemma_words_are_tokens(s.skip(n));
            assert(words(s) == seq![s.take(n)] + words(s.skip(n)));
            assert forall|i: int| 0 <= i < words(s).len() implies is_token(#[trigger] words(s)[i]) by {
                if i > 0 {
                    assert(words(s)[i] == words(s.skip(n))[i - 1]);
                } else {
                    assert(words(s)[0] == s.take(n));
                    assert forall|k: int| 0 <= k < n implies !is_white_space(
                        #[trigger] s.take(n)[k],
                    ) by {
                        assert(s.take(n)[k] == s[k]);
                    }
                }
            }
        }
    }
}

/// The words of `s`, in order.
pub fn words_of(s: &str) -> (r: Vec<Vec<char>>)
    ensures
        r@.map_values(|w: Vec<char>| w@) == words(s@),
{
    let cs = chars_of(s);
    let n = cs.len();
    let mut r: Vec<Vec<char>> = Vec::new();
    let mut i: usize = 0;
    assert(cs@.skip(0) =~= cs@);
    assert(r@.map_values(|w: Vec<char>| w@) + words(cs@) =~= words(cs@));
    while i < n
        invariant
            n == cs@.len(),
            i <= n,
            words(cs@) == r@.map_values(|w: Vec<char>| w@) + words(cs@.skip(i as int)),
        decreases n - i,
    {
        let ghost rest = cs@.skip(i as int);
        if is_whitespace_char(cs[i]) {
            assert(rest.drop_first() =~= cs@.skip(i + 1));
            i = i + 1;
        } else {
            let start = i;
            let mut w: Vec<char> = Vec::new();
            while i < n && !is_whitespace_char(cs[i])
                invariant
                    n == cs@.len(),
                    start <= i <= n,
                    rest == cs@.skip(start as int),
                    w@ == cs@.subrange(start as int, i as int),
                    run_len(rest) == (i - start) + run_len(cs@.skip(i as int)),
                decreases n - i,
            {
                assert(cs@.skip(i as int).drop_first() =~= cs@.skip(i + 1));
                w.push(cs[i]);
                i = i + 1;
            }
            assert(run_len(cs@.skip(i as int)) == 0);
            assert(rest.take(run_len(rest) as int) =~= w@);
            assert(rest.skip(run_len(rest) as int) =~= cs@.skip(i as int));
            let ghost before = r@.map_values(|w: Vec<char>| w@);
            r.push(w);
            assert(r@.map_values(|w: Vec<char>| w@) =~= before.push(w@));
            assert(before + words(rest) =~= before.push(w@) + words(cs@.skip(i as int)));
        }
    }
    let ghost found = r@.map_values(|w: Vec<char>| w@);
    assert(cs@.skip(n as int) =~= Seq::<char>::empty());
    assert(found + Seq::<Seq<char>>::empty() =~= found);
    r
}

/// Number of lines of `s`.
pub fn count_lines(s: &str) -> (r: usize)
    ensures
        r == line_total(s@),
{
    let cs = chars_of(s);
    let n = cs.len();
    let mut count: usize = 0;
    let mut i: usize = 0;
    while i < n
        invariant
            n == cs@.len(),
            i <= n,
            count == newline_count(cs@.take(i as int)),
            count <= i,
            i > 0 && cs@[i - 1] != '\n' ==> count < i,
        decreases n - i,
    {
        assert(cs@.take(i + 1).drop_last() =~= cs@.take(i as int));
        if cs[i] == '\n' {
            count = count + 1;
        }
        i = i + 1;
    }
    assert(cs@.take(n as int) =~= cs@);
    if n > 0 && cs[n - 1] != '\n' {
        count = count + 1;
    }
    count
}

} // verus!
