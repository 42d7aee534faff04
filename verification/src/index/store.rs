use crate::index::postings::DocId;
use std::collections::HashMap;
use vstd::prelude::*;

verus! {

/// What is kept of a document to show it in results.
pub struct DocMeta {
    pub url: String,
    pub title: String,
}

/// The documents of an index, by number.
pub struct DocStore {
    pub inner: HashMap<DocId, DocMeta>,
}

impl View for DocStore {
    type V = Map<DocId, (Seq<char>, Seq<char>)>;

    /// Each document's URL and title.
    open spec fn view(&self) -> Map<DocId, (Seq<char>, Seq<char>)> {
        self.inner@.map_values(|m: DocMeta| (m.url@, m.title@))
    }
}

impl DocStore {
    /// A store with no documents.
    pub fn new() -> (store: Self)
        ensures
            store@ == Map::<DocId, (Seq<char>, Seq<char>)>::empty(),
    {
        let store = DocStore { inner: HashMap::new() };
        assert(store@ =~= Map::<DocId, (Seq<char>, Seq<char>)>::empty());
        store
    }
}

} // verus!
