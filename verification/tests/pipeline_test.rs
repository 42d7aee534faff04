use nsearch::index::builder::{add_page, PageRecord};
use nsearch::index::postings::Index;
use nsearch::index::store::DocStore;
use nsearch::query::parser::parse;
use nsearch::query::retrieval::retrieve;
use nsearch::query::scorer::term_matches;

fn page(url: &str, title: &str, text: &str) -> PageRecord {
    PageRecord { url: url.to_string(), title: title.to_string(), text: text.to_string() }
}

#[test]
fn test_index_and_retrieve_pipeline() {
    let mut index = Index::new();
    let mut store = DocStore::new();
    assert!(add_page(&mut index, &mut store, page("https://a.com", "Rust Lang", "rust memory safety ownership borrow checker")));
    assert!(add_page(&mut index, &mut store, page("https://b.com", "Python Lang", "python dynamic typing garbage collection")));
    assert!(add_page(&mut index, &mut store, page("https://c.com", "Rust Async", "rust async await tokio futures")));

    let terms = parse("rust memory");
    let mut candidates = retrieve(&terms, &index);
    candidates.sort();
    assert_eq!(candidates, vec![0, 2]);
    assert!(candidates.iter().all(|id| store.inner[id].url != "https://b.com"));

    let first = term_matches(0, &terms, &index);
    assert_eq!(first.len(), 2);
    assert_eq!(first[0].term_freq, 1);
    assert_eq!(first[0].doc_length, 6);
    assert_eq!(first[0].docs_containing_term, 2);
    assert_eq!(first[1].docs_containing_term, 1);
    assert_eq!(first[1].num_docs, 3);

    let third = term_matches(2, &terms, &index);
    assert_eq!(third.len(), 1);
    assert_eq!(third[0].doc_length, 5);
}
