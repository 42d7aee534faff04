use nsearch::index::postings::{Index, Posting};
use nsearch::query::scorer::term_matches;

fn make_index(postings: Vec<(&str, Vec<(u32, u32)>)>, doc_lengths: Vec<(u32, u32)>) -> Index {
    let mut index = Index::new();
    for (term, docs) in postings {
        index.postings.insert(
            term.to_string(),
            docs.into_iter()
                .map(|(doc_id, term_freq)| Posting { doc_id, term_freq })
                .collect(),
        );
    }
    for (doc_id, length) in doc_lengths {
        index.doc_lengths.insert(doc_id, length);
    }
    index.num_docs = index.doc_lengths.len() as u32;
    index.total_tokens = index.doc_lengths.values().map(|&l| l as u64).sum();
    index
}

#[test]
fn test_term_matches_gives_statistics() {
    let index = make_index(
        vec![("rust", vec![(0, 1), (1, 5)])],
        vec![(0, 100), (1, 120), (2, 100)],
    );
    let matches = term_matches(1, &["rust".to_string()], &index);
    assert_eq!(matches.len(), 1);
    assert_eq!(matches[0].term_freq, 5);
    assert_eq!(matches[0].doc_length, 120);
    assert_eq!(matches[0].docs_containing_term, 2);
    assert_eq!(matches[0].num_docs, 3);
}

#[test]
fn test_term_matches_missing_term_skipped() {
    let index = make_index(vec![("rust", vec![(0, 3)])], vec![(0, 100), (1, 100)]);
    let matches = term_matches(0, &["rust".to_string(), "nonexistent".to_string()], &index);
    assert_eq!(matches.len(), 1);
    assert_eq!(matches[0].term_freq, 3);
}

#[test]
fn test_term_matches_document_without_term() {
    let index = make_index(vec![("rust", vec![(0, 3)])], vec![(0, 100), (1, 100)]);
    assert!(term_matches(1, &["rust".to_string()], &index).is_empty());
}

#[test]
fn test_term_matches_default_length_is_one() {
    let index = make_index(vec![("rust", vec![(9, 2)])], vec![]);
    let matches = term_matches(9, &["rust".to_string(), "rust".to_string()], &index);
    assert_eq!(matches.len(), 2);
    assert_eq!(matches[1].doc_length, 1);
    assert_eq!(matches[1].num_docs, 0);
}
