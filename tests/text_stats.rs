use word_counter::stats::{tally_keys, TextStats, REPORT_SIZE};
use word_counter::text::{count_lines, is_whitespace_char, words_of};

fn stats(text: &str) -> TextStats {
    TextStats::from_text(text)
}

fn entry(word: &str, count: usize) -> (String, usize) {
    (word.to_string(), count)
}

#[test]
fn word_count_counts_whitespace_delimited_tokens() {
    let s = stats("  alpha\tbeta\n\ngamma  delta \r\n");
    assert_eq!(s.word_count, 4);
    let s = stats("one");
    assert_eq!(s.word_count, 1);
    let s = stats(" \t\n ");
    assert_eq!(s.word_count, 0);
}

#[test]
fn frequencies_sum_to_word_count() {
    let s = stats("To be, or not to be: that is the question. TO BE");
    let total: usize = s.word_frequency.iter().map(|e| e.1).sum();
    assert_eq!(total, s.word_count);
    assert_eq!(s.word_count, 12);
}

#[test]
fn empty_text_has_no_counts() {
    let s = stats("");
    assert_eq!(s.word_count, 0);
    assert_eq!(s.char_count, 0);
    assert_eq!(s.line_count, 0);
    assert!(s.word_frequency.is_empty());
}

#[test]
fn new_stats_are_empty() {
    let s = TextStats::new();
    assert_eq!(s.word_count, 0);
    assert_eq!(s.char_count, 0);
    assert_eq!(s.line_count, 0);
    assert!(s.word_frequency.is_empty());
}

#[test]
fn calculate_fills_fresh_stats() {
    let mut s = TextStats::new();
    s.calculate("a b\nc");
    assert_eq!(s.word_count, 3);
    assert_eq!(s.char_count, 5);
    assert_eq!(s.line_count, 2);
}

#[test]
fn calculate_replaces_earlier_stats() {
    let mut s = TextStats::from_text("x x x\ny");
    s.calculate("A a");
    assert_eq!(s.word_count, 2);
    assert_eq!(s.char_count, 3);
    assert_eq!(s.line_count, 1);
    assert_eq!(s.word_frequency, vec![entry("a", 2)]);
}

#[test]
fn frequency_ignores_case() {
    let s = stats("Hello hello HELLO");
    assert_eq!(s.frequency_of("hello"), 3);
    assert_eq!(s.frequency_of("HeLLo"), 3);
    assert_eq!(s.word_frequency, vec![entry("hello", 3)]);
}

#[test]
fn frequency_lowercases_beyond_ascii() {
    let s = stats("École école ÉCOLE");
    assert_eq!(s.frequency_of("ÉCOLE"), 3);
    assert_eq!(s.word_frequency, vec![entry("école", 3)]);
}

#[test]
fn unknown_word_has_frequency_zero() {
    let s = stats("a b c");
    assert_eq!(s.frequency_of("zzz"), 0);
    assert_eq!(s.frequency_of(""), 0);
}

#[test]
fn punctuation_stays_part_of_a_word() {
    let s = stats("hello, hello");
    assert_eq!(s.frequency_of("hello"), 1);
    assert_eq!(s.frequency_of("hello,"), 1);
}

#[test]
fn scenario_quick_brown_fox() {
    let s = stats("the quick brown fox the quick the");
    assert_eq!(s.word_count, 7);
    assert_eq!(s.frequency_of("the"), 3);
    assert_eq!(s.frequency_of("quick"), 2);
    assert_eq!(s.frequency_of("brown"), 1);
    assert_eq!(s.frequency_of("fox"), 1);
    let report = s.rank_report();
    assert_eq!(report[0], entry("the", 3));
    assert_eq!(
        report,
        vec![entry("the", 3), entry("quick", 2), entry("brown", 1), entry("fox", 1)]
    );
}

#[test]
fn table_keeps_order_of_first_appearance() {
    let s = stats("b a B c a b");
    assert_eq!(s.word_frequency, vec![entry("b", 3), entry("a", 2), entry("c", 1)]);
}

#[test]
fn report_is_truncated_to_report_size() {
    let s = stats("g f f e e e d d d d c c c c c b b b b b b a a a a a a a");
    let report = s.rank_report();
    assert_eq!(REPORT_SIZE, 5);
    assert_eq!(
        report,
        vec![entry("a", 7), entry("b", 6), entry("c", 5), entry("d", 4), entry("e", 3)]
    );
}

#[test]
fn equal_counts_rank_by_first_appearance() {
    let s = stats("zeta alpha mid zeta alpha mid");
    assert_eq!(
        s.ranked(10),
        vec![entry("zeta", 2), entry("alpha", 2), entry("mid", 2)]
    );
}

#[test]
fn ranked_with_limit_zero_is_empty() {
    let s = stats("x y z");
    assert!(s.ranked(0).is_empty());
    assert_eq!(s.ranked(2), vec![entry("x", 1), entry("y", 1)]);
}

#[test]
fn single_line_without_newline() {
    assert_eq!(stats("hello world").line_count, 1);
}

#[test]
fn trailing_newline_adds_no_line() {
    assert_eq!(stats("a\nb\nc\n").line_count, 3);
}

#[test]
fn line_count_edge_cases() {
    assert_eq!(count_lines("\n"), 1);
    assert_eq!(count_lines("a\r\nb"), 2);
    assert_eq!(count_lines("a\n\nb"), 3);
    assert_eq!(count_lines("a\rb"), 1);
    for text in ["", "x", "x\n", "\n\n", "a\r\n\r\n", "one\ntwo\nthree"] {
        assert_eq!(count_lines(text), text.lines().count());
    }
}

#[test]
fn char_count_counts_scalar_values() {
    let s = stats("héllo wörld ✓");
    assert_eq!(s.char_count, 13);
}

#[test]
fn unicode_whitespace_separates_words() {
    let s = stats("a\u{3000}b\u{00a0}c\u{2003}d\u{85}e");
    assert_eq!(s.word_count, 5);
}

#[test]
fn whitespace_class_matches_std() {
    for n in 0u32..=0x10ffff {
        if let Some(c) = char::from_u32(n) {
            assert_eq!(is_whitespace_char(c), c.is_whitespace(), "char {:x}", n);
        }
    }
}

#[test]
fn words_match_split_whitespace() {
    for text in ["", "  a  b ", "x\ty\nz", "\u{2028}p\u{2029}q", "single"] {
        let expected: Vec<Vec<char>> =
            text.split_whitespace().map(|w| w.chars().collect()).collect();
        assert_eq!(words_of(text), expected);
    }
}

#[test]
fn tally_keys_counts_in_order_of_first_appearance() {
    let keys: Vec<String> = ["b", "a", "b", "c", "b"].iter().map(|k| k.to_string()).collect();
    assert_eq!(tally_keys(&keys), vec![entry("b", 3), entry("a", 1), entry("c", 1)]);
    assert!(tally_keys(&Vec::new()).is_empty());
}

#[test]
fn count_of_key_is_exact_lookup() {
    let s = stats("Word word WORD other");
    assert_eq!(s.count_of_key(&"word".to_string()), 3);
    assert_eq!(s.count_of_key(&"Word".to_string()), 0);
    assert_eq!(s.count_of_key(&"other".to_string()), 1);
}
