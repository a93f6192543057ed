use dirsearch::keywords::{get_page_keywords, get_query_keywords};
use dirsearch::other::vec_to_string;
use dirsearch::{Score, Source, StopWords};

#[test]
fn page_keywords_strip_and_split() {
    let stops = StopWords::new(Vec::new());
    // digits vanish and join the word; the blank splits; the dot vanishes
    let kws = get_page_keywords("ab1cd ef.", &stops);
    assert_eq!(kws, vec!["ABCD".to_string(), "EF".to_string()]);
}

#[test]
fn page_keywords_tab_joins_words() {
    let stops = StopWords::new(Vec::new());
    // a tab is neither alphabetic nor a kept separator, so it vanishes
    let kws = get_page_keywords("a\tb c", &stops);
    assert_eq!(kws, vec!["AB".to_string(), "C".to_string()]);
}

#[test]
fn page_keywords_newline_splits() {
    let stops = StopWords::new(Vec::new());
    let kws = get_page_keywords("cat\ndog", &stops);
    assert_eq!(kws, vec!["CAT".to_string(), "DOG".to_string()]);
}

#[test]
fn page_keywords_preserve_duplicates_in_order() {
    let stops = StopWords::new(Vec::new());
    let kws = get_page_keywords("cats chase cats", &stops);
    assert_eq!(kws.len(), 3);
    assert_eq!(kws[0], "CAT");
    assert_eq!(kws[2], "CAT");
}

#[test]
fn query_keywords_split_on_whitespace_only() {
    // the query pipeline does not strip punctuation
    let kws = get_query_keywords("  cats \t dogs  ");
    assert_eq!(kws, vec!["CAT".to_string(), "DOG".to_string()]);
}

#[test]
fn stemming_unifies_plural_and_singular() {
    assert_eq!(get_query_keywords("cats"), get_query_keywords("cat"));
}

#[test]
fn stop_word_membership() {
    let sw = StopWords::new(vec!["THE".to_string(), "OF".to_string()]);
    assert!(sw.is_stop_word(&"THE".to_string()));
    assert!(!sw.is_stop_word(&"CAT".to_string()));
}

#[test]
fn source_hash_is_deterministic_and_field_sensitive() {
    let a = Source::new("d".to_string(), "f.pdf".to_string(), 1);
    let b = Source::new("d".to_string(), "f.pdf".to_string(), 1);
    assert_eq!(a.get_hash(), b.get_hash());
    let other_page = Source::new("d".to_string(), "f.pdf".to_string(), 2);
    assert_ne!(a.get_hash(), other_page.get_hash());
    let shifted = Source::new("df".to_string(), ".pdf".to_string(), 1);
    assert_ne!(a.get_hash(), shifted.get_hash());
}

#[test]
fn score_addition_is_exact() {
    let half = Score::frac(1, 2);
    let third = Score::frac(1, 3);
    let sum = half.add(third).unwrap();
    // 1/2 + 1/3 = 5/6, in lowest terms
    assert_eq!(sum.num, 5);
    assert_eq!(sum.den, 6);
}

#[test]
fn score_addition_reduces() {
    let a = Score::frac(2, 2);
    let b = Score::frac(1, 1);
    let sum = a.add(b).unwrap();
    assert_eq!(sum.num, 2);
    assert_eq!(sum.den, 1);
}

#[test]
fn score_order_compares_cross_products() {
    let a = Score::frac(3, 4);
    let b = Score::frac(1, 4);
    assert!(b.le(&a));
    assert!(!a.le(&b));
    assert!(a.same(&Score::frac(6, 8)));
}

#[test]
fn vec_to_string_joins_with_indent() {
    assert_eq!(vec_to_string(&Vec::new()), "");
    assert_eq!(vec_to_string(&vec!["a".to_string()]), "a");
    assert_eq!(vec_to_string(&vec!["a".to_string(), "b".to_string()]), "a b\n\t");
    assert_eq!(
        vec_to_string(&vec!["a".to_string(), "b".to_string(), "c".to_string()]),
        "a b\n\t c\n\t"
    );
}

#[test]
fn score_addition_overflow_is_detected() {
    let huge = Score::frac(u64::MAX, 1);
    assert!(huge.add(Score::frac(u64::MAX, 1)).is_none());
}
