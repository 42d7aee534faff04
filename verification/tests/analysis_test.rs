use nsearch::analysis::tokenizer::{analyze, split_words};
use nsearch::query::parser::parse;

#[test]
fn test_analyze_lowercases_and_splits() {
    assert_eq!(analyze("The QUICK brown fox!"), vec!["the", "quick", "brown", "fox"]);
}

#[test]
fn test_analyze_filters_empty() {
    assert_eq!(analyze("hello   world"), vec!["hello", "world"]);
}

#[test]
fn test_analyze_empty_string() {
    assert_eq!(analyze(""), Vec::<String>::new());
}

#[test]
fn test_analyze_drops_digits_and_punctuation() {
    assert_eq!(analyze("--Rust2021, C++ & go!!"), vec!["rust", "c", "go"]);
}

#[test]
fn test_analyze_only_separators() {
    assert_eq!(analyze("  42 -- !? "), Vec::<String>::new());
}

#[test]
fn test_analyze_keeps_non_ascii_letters() {
    assert_eq!(analyze("Crème BRÛLÉE, 3 fois"), vec!["crème", "brûlée", "fois"]);
}

#[test]
fn test_analyze_tokens_are_nonempty_and_alphabetic() {
    for token in analyze("a1b2c3 -- Déjà vu; x") {
        assert!(!token.is_empty());
        assert!(token.chars().all(|c| c.is_alphabetic()));
    }
}

#[test]
fn test_split_words_keeps_case() {
    assert_eq!(split_words("Hello, World"), vec!["Hello", "World"]);
}

#[test]
fn test_split_words_single_word() {
    assert_eq!(split_words("word"), vec!["word"]);
}

#[test]
fn test_parse_is_analysis() {
    assert_eq!(parse("Rust MEMORY safety"), vec!["rust", "memory", "safety"]);
    assert_eq!(parse("Rust MEMORY safety"), analyze("Rust MEMORY safety"));
}
