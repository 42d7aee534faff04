use std::collections::HashMap;
use crate::table::StringTable;
use vstd::prelude::*;

verus! {

/// A document's number in the index: documents are numbered 0, 1, 2, ...
/// in the order they are added.
pub type DocId = u32;

/// One document's entry in a term's posting list.
#[derive(Clone, Copy, Debug)]
pub struct Posting {
    pub doc_id: DocId,
    pub term_freq: u32,
}

/// The lists a map from terms to posting lists holds for `term`, the empty
/// list where it holds none.
pub open spec fn list_or_empty(m: Map<Seq<char>, Seq<Posting>>, term: Seq<char>) -> Seq<Posting> {
    if m.contains_key(term) {
        m[term]
    } else {
        Seq::empty()
    }
}

/// The map from each of `terms` to the list at the same position.
spec fn lists_map(terms: Seq<Seq<char>>, lists: Seq<Vec<Posting>>) -> Map<Seq<char>, Seq<Posting>> {
    Map::new(
        |t: Seq<char>| terms.contains(t),
        |t: Seq<char>| lists[choose|i: int| 0 <= i < terms.len() && terms[i] == t]@,
    )
}

proof fn lemma_lists_map_at(terms: Seq<Seq<char>>, lists: Seq<Vec<Posting>>, i: int)
    requires
        terms.no_duplicates(),
        0 <= i < terms.len(),
    ensures
        lists_map(terms, lists).contains_key(terms[i]),
        lists_map(terms, lists)[terms[i]] == lists[i]@,
{
    let t = terms[i];
    assert(terms.contains(t));
    let k = choose|k: int| 0 <= k < terms.len() && terms[k] == t;
    assert(k == i);
}

proof fn lemma_lists_map_update(
    terms: Seq<Seq<char>>,
    lists: Seq<Vec<Posting>>,
    i: int,
    list: Vec<Posting>,
)
    requires
        terms.no_duplicates(),
        terms.len() == lists.len(),
        0 <= i < terms.len(),
    ensures
        lists_map(terms, lists.update(i, list)) == lists_map(terms, lists).insert(terms[i], list@),
{
    let after = lists.update(i, list);
    assert forall|t: Seq<char>| #[trigger] lists_map(terms, after).contains_key(t) implies lists_map(
        terms,
        after,
    )[t] == lists_map(terms, lists).insert(terms[i], list@)[t] by {
        let k = choose|k: int| 0 <= k < terms.len() && terms[k] == t;
        lemma_lists_map_at(terms, after, k);
        lemma_lists_map_at(terms, lists, k);
    }
    assert(lists_map(terms, after) =~= lists_map(terms, lists).insert(terms[i], list@));
}

proof fn lemma_lists_map_push(
    terms: Seq<Seq<char>>,
    lists: Seq<Vec<Posting>>,
    t: Seq<char>,
    list: Vec<Posting>,
)
    requires
        terms.no_duplicates(),
        terms.len() == lists.len(),
        !terms.contains(t),
    ensures
        terms.push(t).no_duplicates(),
        lists_map(terms.push(t), lists.push(list)) == lists_map(terms, lists).insert(t, list@),
{
    let terms2 = terms.push(t);
    let lists2 = lists.push(list);
    assert forall|a: int, b: int| 0 <= a < b < terms2.len() implies terms2[a] != terms2[b] by {
        if b == terms.len() {
            assert(terms.contains(terms[a]));
        }
    }
    assert forall|u: Seq<char>| terms2.contains(u) <==> (terms.contains(u) || u == t) by {
        if terms.contains(u) {
            let k = choose|k: int| 0 <= k < terms.len() && terms[k] == u;
            assert(terms2[k] == u);
        }
        if terms2.contains(u) && u != t {
            let k = choose|k: int| 0 <= k < terms2.len() && terms2[k] == u;
            assert(terms[k] == u);
        }
        if u == t {
            assert(terms2[terms.len() as int] == u);
        }
    }
    assert forall|u: Seq<char>| #[trigger] lists_map(terms2, lists2).contains_key(u) implies lists_map(
        terms2,
        lists2,
    )[u] == lists_map(terms, lists).insert(t, list@)[u] by {
        let k = choose|k: int| 0 <= k < terms2.len() && terms2[k] == u;
        lemma_lists_map_at(terms2, lists2, k);
        if k < terms.len() {
            lemma_lists_map_at(terms, lists, k);
        }
    }
    assert(lists_map(terms2, lists2) =~= lists_map(terms, lists).insert(t, list@));
}

/// The posting lists of an index, by term: a map from a term to the
/// entries of the documents that contain it. Each term has one list.
pub struct PostingLists {
    terms: StringTable,
    lists: Vec<Vec<Posting>>,
}

impl PostingLists {
    /// Each term has one list.
    #[verifier::type_invariant]
    spec fn one_list_per_term(self) -> bool {
        &&& self.terms@.len() == self.lists@.len()
        &&& self.terms@.no_duplicates()
    }

    /// No term has a list.
    pub fn new() -> (lists: Self)
        ensures
            lists@ == Map::<Seq<char>, Seq<Posting>>::empty(),
    {
        let lists = PostingLists { terms: StringTable::new(), lists: Vec::new() };
        assert(lists_map(lists.terms@, lists.lists@) =~= Map::<Seq<char>, Seq<Posting>>::empty());
        lists
    }

    /// The posting list of `term`, if it has one.
    pub fn get(&self, term: &String) -> (list: Option<&Vec<Posting>>)
        ensures
            match list {
                Some(l) => self@.contains_key(term@) && l@ == self@[term@],
                None => !self@.contains_key(term@),
            },
    {
        proof {
            use_type_invariant(self);
        }
        match self.terms.find(term) {
            Some(i) => {
                proof {
                    lemma_lists_map_at(self.terms@, self.lists@, i as int);
                }
                Some(&self.lists[i])
            },
            None => None,
        }
    }

    /// Whether `term` has a posting list.
    pub fn contains_key(&self, term: &String) -> (b: bool)
        ensures
            b == self@.contains_key(term@),
    {
        proof {
            use_type_invariant(self);
        }
        match self.terms.find(term) {
            Some(i) => {
                proof {
                    lemma_lists_map_at(self.terms@, self.lists@, i as int);
                }
                true
            },
            None => false,
        }
    }

    /// The terms that have a list, in the order of their positions.
    pub closed spec fn terms(&self) -> Seq<Seq<char>> {
        self.terms@
    }

    /// How many terms have a list. Positions `0..len()` number these terms,
    /// each once.
    pub fn len(&self) -> (n: usize)
        ensures
            n == self.terms().len(),
            n == self@.len(),
            self.terms().no_duplicates(),
            self.terms().to_set() == self@.dom(),
    {
        proof {
            use_type_invariant(self);
            self.terms@.unique_seq_to_set();
            assert(self@.dom() =~= self.terms@.to_set());
        }
        self.terms.len()
    }

    /// The term at position `i` and its posting list.
    pub fn entry(&self, i: usize) -> (e: (&String, &Vec<Posting>))
        requires
            i < self.terms().len(),
        ensures
            e.0@ == self.terms()[i as int],
            self@.contains_key(e.0@),
            e.1@ == self@[e.0@],
    {
        proof {
            use_type_invariant(self);
            lemma_lists_map_at(self.terms@, self.lists@, i as int);
        }
        (self.terms.key(i), &self.lists[i])
    }

    /// Sets the posting list of `term`, replacing the one it had.
    pub fn insert(&mut self, term: String, list: Vec<Posting>)
        ensures
            final(self)@ == old(self)@.insert(term@, list@),
    {
        let mut this = PostingLists::new();
        std::mem::swap(&mut this, self);
        proof {
            use_type_invariant(&this);
        }
        let PostingLists { mut terms, mut lists } = this;
        let ghost old_terms = terms@;
        let ghost old_lists = lists@;
        match terms.find(&term) {
            Some(i) => {
                lists.set(i, list);
                proof {
                    lemma_lists_map_update(old_terms, old_lists, i as int, list);
                }
            },
            None => {
                let ghost t = term@;
                terms.push(term);
                lists.push(list);
                proof {
                    lemma_lists_map_push(old_terms, old_lists, t, list);
                }
            },
        }
        *self = PostingLists { terms, lists };
    }

    /// Appends one entry to the posting list of `term`, which gets a list
    /// first if it had none.
    pub fn push_posting(&mut self, term: String, posting: Posting)
        ensures
            final(self)@ == old(self)@.insert(term@, list_or_empty(old(self)@, term@).push(posting)),
    {
        let mut this = PostingLists::new();
        std::mem::swap(&mut this, self);
        proof {
            use_type_invariant(&this);
        }
        let PostingLists { mut terms, mut lists } = this;
        let ghost old_terms = terms@;
        let ghost old_lists = lists@;
        match terms.find(&term) {
            Some(i) => {
                proof {
                    lemma_lists_map_at(old_terms, old_lists, i as int);
                }
                lists[i].push(posting);
                proof {
                    lemma_lists_map_update(old_terms, old_lists, i as int, lists@[i as int]);
                    assert(lists@ == old_lists.update(i as int, lists@[i as int]));
                }
            },
            None => {
                let ghost t = term@;
                let mut list: Vec<Posting> = Vec::new();
                list.push(posting);
                proof {
                    lemma_lists_map_push(old_terms, old_lists, t, list);
                    assert(list@ =~= Seq::<Posting>::empty().push(posting));
                }
                terms.push(term);
                lists.push(list);
            },
        }
        *self = PostingLists { terms, lists };
    }
}

impl View for PostingLists {
    type V = Map<Seq<char>, Seq<Posting>>;

    closed spec fn view(&self) -> Map<Seq<char>, Seq<Posting>> {
        lists_map(self.terms@, self.lists@)
    }
}

/// The abstract state of an index: the posting list of each term, the
/// number of tokens of each document (kept modulo 2^32), how many
/// documents were added and how many tokens they had in all.
pub struct IndexView {
    pub postings: Map<Seq<char>, Seq<Posting>>,
    pub doc_lengths: Map<DocId, u32>,
    pub total_tokens: u64,
    pub num_docs: u32,
}

impl IndexView {
    /// The state of an index with no documents.
    pub open spec fn empty() -> IndexView {
        IndexView {
            postings: Map::empty(),
            doc_lengths: Map::empty(),
            total_tokens: 0,
            num_docs: 0,
        }
    }
}

/// An inverted index: for each term, the documents that contain it.
/// The average document length is `total_tokens / num_docs`.
pub struct Index {
    pub postings: PostingLists,
    pub doc_lengths: HashMap<DocId, u32>,
    pub total_tokens: u64,
    pub num_docs: u32,
}

impl View for Index {
    type V = IndexView;

    open spec fn view(&self) -> IndexView {
        IndexView {
            postings: self.postings@,
            doc_lengths: self.doc_lengths@,
            total_tokens: self.total_tokens,
            num_docs: self.num_docs,
        }
    }
}

impl Index {
    /// An index with no documents.
    pub fn new() -> (index: Self)
        ensures
            index@ == IndexView::empty(),
    {
        let index = Index {
            postings: PostingLists::new(),
            doc_lengths: HashMap::new(),
            total_tokens: 0,
            num_docs: 0,
        };
        assert(index.doc_lengths@ =~= Map::<DocId, u32>::empty());
        index
    }
}

impl Default for Index {
    fn default() -> (index: Self)
        ensures
            index@ == IndexView::empty(),
    {
        Self::new()
    }
}

} // verus!
