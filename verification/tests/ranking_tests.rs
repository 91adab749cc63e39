use backend::ranking::{relevance, terms};

#[test]
fn terms_split_lowercase_and_drop_short_and_stop_words() {
    assert_eq!(terms("The Rust compiler, and the RUST borrow-checker"), vec![
        "borrow".to_string(),
        "checker".to_string(),
        "compiler".to_string(),
        "rust".to_string(),
    ]);
}

#[test]
fn terms_are_distinct() {
    assert_eq!(terms("rust rust RUST Rust"), vec!["rust".to_string()]);
}

#[test]
fn french_stop_words_are_dropped() {
    assert_eq!(terms("avec dans pour cette comme mais plus données"), vec!["données".to_string()]);
}

#[test]
fn relevance_counts_shared_terms() {
    assert_eq!(relevance("sqlite memory store", "the memory of the sqlite database"), 2);
    assert_eq!(relevance("a b", "a b"), 0);
    assert_eq!(relevance("", "anything here"), 0);
}

#[test]
fn relevance_is_symmetric_on_examples() {
    let a = "parser tokens grammar";
    let b = "grammar for the parser";
    assert_eq!(relevance(a, b), relevance(b, a));
    assert_eq!(relevance(a, a), 3);
}

#[test]
fn terms_come_in_increasing_order() {
    assert_eq!(terms("zeta alpha middle"), vec![
        "alpha".to_string(),
        "middle".to_string(),
        "zeta".to_string(),
    ]);
    assert_eq!(terms("école zone abri"), vec![
        "abri".to_string(),
        "zone".to_string(),
        "école".to_string(),
    ]);
    assert_eq!(terms("abcd abc"), vec!["abc".to_string(), "abcd".to_string()]);
}
