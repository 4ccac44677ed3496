use algorithmik3::posting::MovieIndex;
use algorithmik3::text::{find_tab, prepare_word, split_words};

#[test]
fn prepare_word_lowercases() {
    assert_eq!(prepare_word("HeLLo"), "hello".to_string());
}

#[test]
fn prepare_word_strips_punctuation() {
    assert_eq!(prepare_word("car's,"), "cars".to_string());
    assert_eq!(prepare_word("a-b!c"), "abc".to_string());
}

#[test]
fn prepare_word_keeps_digits() {
    assert_eq!(prepare_word("R2-D2"), "r2d2".to_string());
}

#[test]
fn prepare_word_single_letter_survives() {
    assert_eq!(prepare_word("A"), "a".to_string());
}

#[test]
fn prepare_word_can_empty_out() {
    assert_eq!(prepare_word("--!!--"), "".to_string());
    assert_eq!(prepare_word(""), "".to_string());
}

#[test]
fn split_words_basic() {
    assert_eq!(
        split_words("racing cars  race\tfast"),
        vec![
            "racing".to_string(),
            "cars".to_string(),
            "race".to_string(),
            "fast".to_string()
        ]
    );
}

#[test]
fn split_words_surrounding_whitespace() {
    assert_eq!(split_words("  a b "), vec!["a".to_string(), "b".to_string()]);
    assert_eq!(split_words("   "), Vec::<String>::new());
    assert_eq!(split_words(""), Vec::<String>::new());
}

#[test]
fn find_tab_positions() {
    assert_eq!(find_tab("title\tdesc"), Some(5));
    assert_eq!(find_tab("\tdesc"), Some(0));
    assert_eq!(find_tab("a\tb\tc"), Some(1));
    assert_eq!(find_tab("no delimiter"), None);
}

#[test]
fn posting_counters_start_at_zero() {
    let p = MovieIndex::new(7);
    assert_eq!(p.movie_index, 7);
    assert_eq!(p.rank_title, 0);
    assert_eq!(p.rank_desc, 0);
}

#[test]
fn posting_counters_increment() {
    let mut p = MovieIndex::new(0);
    p.seen_in_title();
    p.seen_in_title();
    p.seen_in_description();
    assert_eq!(p.rank_title, 2);
    assert_eq!(p.rank_desc, 1);
}

#[test]
fn posting_counters_saturate_at_cap() {
    let mut p = MovieIndex::new(0);
    p.rank_title = 255;
    p.rank_desc = 255;
    p.seen_in_title();
    p.seen_in_description();
    assert_eq!(p.rank_title, 255);
    assert_eq!(p.rank_desc, 255);
}

#[test]
fn rank_weighs_title_tenfold() {
    let mut p = MovieIndex::new(0);
    p.rank_title = 3;
    p.rank_desc = 4;
    assert_eq!(p.rank(), 34);
}

#[test]
fn rank_saturates() {
    let mut p = MovieIndex::new(0);
    p.rank_title = 26;
    p.rank_desc = 0;
    assert_eq!(p.rank(), 255);
    p.rank_title = 255;
    p.rank_desc = 255;
    assert_eq!(p.rank(), 255);
}

#[test]
fn rank_monotone_in_title_hits() {
    let mut a = MovieIndex::new(0);
    a.rank_title = 5;
    a.rank_desc = 9;
    let mut b = MovieIndex::new(0);
    b.rank_title = 4;
    b.rank_desc = 9;
    assert!(a.rank() >= b.rank());
}

#[test]
fn combine_sums_counters() {
    let mut a = MovieIndex::new(3);
    a.rank_title = 1;
    a.rank_desc = 2;
    let mut b = MovieIndex::new(3);
    b.rank_title = 4;
    b.rank_desc = 8;
    let c = MovieIndex::combine(&a, &b);
    assert_eq!(c.movie_index, 3);
    assert_eq!(c.rank_title, 5);
    assert_eq!(c.rank_desc, 10);
}

#[test]
fn combine_saturates() {
    let mut a = MovieIndex::new(0);
    a.rank_title = 200;
    a.rank_desc = 130;
    let mut b = MovieIndex::new(0);
    b.rank_title = 100;
    b.rank_desc = 125;
    let c = MovieIndex::combine(&a, &b);
    assert_eq!(c.rank_title, 255);
    assert_eq!(c.rank_desc, 255);
}

#[test]
fn posting_equality_is_by_document() {
    let mut a = MovieIndex::new(5);
    a.rank_title = 1;
    let b = MovieIndex::new(5);
    let c = MovieIndex::new(6);
    assert!(a == b);
    assert!(a != c);
}

#[test]
fn posting_order_is_by_document() {
    let mut small = MovieIndex::new(1);
    small.rank_title = 200;
    let big = MovieIndex::new(2);
    assert!(small < big);
    assert!(!(big < small));
    let same = MovieIndex::new(1);
    assert_eq!(small.partial_cmp(&same), Some(std::cmp::Ordering::Equal));
}
