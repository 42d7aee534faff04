use nsearch::index::postings::{Index, Posting};
use nsearch::query::retrieval::retrieve;

fn make_index(postings: Vec<(&str, Vec<(u32, u32)>)>) -> Index {
    let mut index = Index::new();
    for (term, docs) in postings {
        index.postings.insert(
            term.to_string(),
            docs.into_iter()
                .map(|(doc_id, term_freq)| Posting { doc_id, term_freq })
                .collect(),
        );
    }
    index
}

#[test]
fn test_retrieve_returns_union_of_matching_docs() {
    let index = make_index(vec![
        ("rust", vec![(0, 2), (2, 1)]),
        ("async", vec![(0, 1), (3, 1)]),
    ]);

    let terms = vec!["rust".to_string(), "async".to_string()];
    let mut result = retrieve(&terms, &index);
    result.sort();

    assert_eq!(result, vec![0, 2, 3]);
}

#[test]
fn test_retrieve_no_terms_gives_nothing() {
    let index = make_index(vec![("rust", vec![(0, 2)])]);
    let terms: Vec<String> = vec![];
    assert!(retrieve(&terms, &index).is_empty());
}

#[test]
fn test_retrieve_unknown_term_gives_nothing() {
    let index = make_index(vec![("rust", vec![(0, 2)])]);
    let terms = vec!["python".to_string()];
    assert!(retrieve(&terms, &index).is_empty());
}

#[test]
fn test_retrieve_order_of_first_meeting() {
    let index = make_index(vec![
        ("rust", vec![(4, 1), (1, 1)]),
        ("async", vec![(1, 1), (7, 1)]),
    ]);
    let terms = vec!["async".to_string(), "rust".to_string(), "async".to_string()];
    assert_eq!(retrieve(&terms, &index), vec![1, 7, 4]);
}
