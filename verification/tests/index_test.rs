use nsearch::index::builder::{add_document, add_page, PageRecord};
use nsearch::index::postings::{Index, Posting, PostingLists};
use nsearch::index::store::DocStore;

fn page(url: &str, title: &str, text: &str) -> PageRecord {
    PageRecord { url: url.to_string(), title: title.to_string(), text: text.to_string() }
}

#[test]
fn test_add_page_indexes_terms() {
    let mut index = Index::new();
    let mut store = DocStore::new();
    assert!(add_page(&mut index, &mut store, page("https://a.com", "A", "rust async rust")));

    let rust = index.postings.get(&"rust".to_string()).unwrap();
    assert_eq!(rust.len(), 1);
    assert_eq!(rust[0].doc_id, 0);
    assert_eq!(rust[0].term_freq, 2);
    assert_eq!(index.postings.get(&"async".to_string()).unwrap()[0].term_freq, 1);
    assert_eq!(index.num_docs, 1);
    assert_eq!(index.doc_lengths[&0], 3);
    assert_eq!(store.inner[&0].url, "https://a.com");
    assert_eq!(store.inner[&0].title, "A");
}

#[test]
fn test_add_page_total_tokens_gives_average() {
    let mut index = Index::new();
    let mut store = DocStore::new();
    assert!(add_page(&mut index, &mut store, page("https://a.com", "A", "one two three")));
    assert!(add_page(&mut index, &mut store, page("https://b.com", "B", "one two three four five")));
    assert_eq!(index.num_docs, 2);
    assert_eq!(index.total_tokens, 8);
    assert_eq!(index.total_tokens as f64 / index.num_docs as f64, 4.0);
    assert_eq!(index.doc_lengths[&1], 5);
    assert_eq!(store.inner[&1].url, "https://b.com");
}

#[test]
fn test_postings_list_documents_in_order() {
    let mut index = Index::new();
    let mut store = DocStore::new();
    add_page(&mut index, &mut store, page("u0", "t0", "Rust memory safety"));
    add_page(&mut index, &mut store, page("u1", "t1", "python garbage collection"));
    add_page(&mut index, &mut store, page("u2", "t2", "rust RUST rust async"));
    let rust = index.postings.get(&"rust".to_string()).unwrap();
    let ids: Vec<(u32, u32)> = rust.iter().map(|p| (p.doc_id, p.term_freq)).collect();
    assert_eq!(ids, vec![(0, 1), (2, 3)]);
    assert!(!index.postings.contains_key(&"java".to_string()));
    assert!(index.postings.contains_key(&"python".to_string()));
}

#[test]
fn test_add_page_with_empty_text() {
    let mut index = Index::new();
    let mut store = DocStore::new();
    assert!(add_page(&mut index, &mut store, page("u", "t", "123 !!")));
    assert_eq!(index.num_docs, 1);
    assert_eq!(index.doc_lengths[&0], 0);
    assert_eq!(index.postings.len(), 0);
    assert_eq!(store.inner.len(), 1);
}

#[test]
fn test_add_document_refuses_when_full() {
    let mut index = Index::new();
    index.num_docs = u32::MAX;
    let tokens = vec!["a".to_string()];
    assert!(!add_document(&mut index, &tokens));
    assert_eq!(index.num_docs, u32::MAX);
    assert!(!index.postings.contains_key(&"a".to_string()));
}

#[test]
fn test_add_document_refuses_token_overflow() {
    let mut index = Index::new();
    index.total_tokens = u64::MAX - 1;
    let tokens = vec!["a".to_string(), "b".to_string()];
    assert!(!add_document(&mut index, &tokens));
    assert_eq!(index.num_docs, 0);
    assert_eq!(index.total_tokens, u64::MAX - 1);
}

#[test]
fn test_posting_lists_insert_replaces() {
    let mut lists = PostingLists::new();
    lists.insert("rust".to_string(), vec![Posting { doc_id: 0, term_freq: 1 }]);
    lists.insert("rust".to_string(), vec![Posting { doc_id: 3, term_freq: 2 }]);
    lists.push_posting("rust".to_string(), Posting { doc_id: 4, term_freq: 1 });
    lists.push_posting("go".to_string(), Posting { doc_id: 5, term_freq: 7 });
    assert_eq!(lists.len(), 2);
    let rust = lists.get(&"rust".to_string()).unwrap();
    assert_eq!(rust.len(), 2);
    assert_eq!(rust[0].doc_id, 3);
    assert_eq!(rust[1].doc_id, 4);
    assert_eq!(lists.get(&"go".to_string()).unwrap()[0].term_freq, 7);
    assert!(lists.get(&"c".to_string()).is_none());
}
