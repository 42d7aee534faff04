use crate::index::builder::{index_of, lemma_index_of, lemma_postings_of, occurrences, postings_of};
use crate::index::postings::{list_or_empty, DocId, Index, Posting};
use std::collections::HashSet;
use vstd::prelude::*;

verus! {

/// Whether one of the entries of `list` is for document `doc`.
pub open spec fn lists_doc(list: Seq<Posting>, doc: DocId) -> bool {
    exists|k: int| 0 <= k < list.len() && list[k].doc_id == doc
}

/// The documents that contain at least one of `terms`: those with an entry
/// in the posting list of one of them.
pub open spec fn matching_docs(lists: Map<Seq<char>, Seq<Posting>>, terms: Seq<Seq<char>>) -> Set<
    DocId,
> {
    Set::new(
        |doc: DocId|
            exists|i: int|
                0 <= i < terms.len() && lists.contains_key(#[trigger] terms[i]) && lists_doc(
                    lists[terms[i]],
                    doc,
                ),
    )
}

/// The document numbers of the entries of `list`, in order.
pub open spec fn doc_ids(list: Seq<Posting>) -> Seq<DocId> {
    list.map_values(|p: Posting| p.doc_id)
}

/// The documents listed for `terms`: the entries of each term's posting
/// list, term after term, each list in order, repeats included.
pub open spec fn listed_docs(lists: Map<Seq<char>, Seq<Posting>>, terms: Seq<Seq<char>>) -> Seq<DocId>
    decreases terms.len(),
{
    if terms.len() == 0 {
        Seq::empty()
    } else {
        listed_docs(lists, terms.drop_last()) + doc_ids(list_or_empty(lists, terms.last()))
    }
}

/// `s` without repeats: the first occurrence of each value, in order.
pub open spec fn first_occurrences(s: Seq<DocId>) -> Seq<DocId>
    decreases s.len(),
{
    if s.len() == 0 {
        Seq::empty()
    } else {
        let before = first_occurrences(s.drop_last());
        if before.contains(s.last()) {
            before
        } else {
            before.push(s.last())
        }
    }
}

/// The documents listed in the posting list of `term`, none if it has no list.
spec fn docs_of(lists: Map<Seq<char>, Seq<Posting>>, term: Seq<char>) -> Set<DocId> {
    Set::new(|doc: DocId| lists.contains_key(term) && lists_doc(lists[term], doc))
}

proof fn lemma_matching_step(lists: Map<Seq<char>, Seq<Posting>>, terms: Seq<Seq<char>>, i: int)
    requires
        0 <= i < terms.len(),
    ensures
        matching_docs(lists, terms.take(i + 1)) == matching_docs(lists, terms.take(i)).union(
            docs_of(lists, terms[i]),
        ),
{
    let next = terms.take(i + 1);
    let prev = terms.take(i);
    assert forall|d: DocId|
        matching_docs(lists, next).contains(d) <==> (matching_docs(lists, prev).contains(d)
            || docs_of(lists, terms[i]).contains(d)) by {
        if matching_docs(lists, next).contains(d) {
            let j = choose|j: int|
                0 <= j < next.len() && lists.contains_key(#[trigger] next[j]) && lists_doc(
                    lists[next[j]],
                    d,
                );
            if j < i {
                assert(prev[j] == next[j]);
            }
        }
        if matching_docs(lists, prev).contains(d) {
            let j = choose|j: int|
                0 <= j < prev.len() && lists.contains_key(#[trigger] prev[j]) && lists_doc(
                    lists[prev[j]],
                    d,
                );
            assert(next[j] == prev[j]);
        }
        if docs_of(lists, terms[i]).contains(d) {
            assert(next[i] == terms[i]);
        }
    }
    assert(matching_docs(lists, next) =~= matching_docs(lists, prev).union(
        docs_of(lists, terms[i]),
    ));
}

/// The candidate documents of a query: every document that contains at
/// least one of its terms, each once, in the order in which they are met
/// (terms in order, each term's list in order).
pub fn retrieve(terms: &[String], index: &Index) -> (docs: Vec<DocId>)
    ensures
        docs@ == first_occurrences(listed_docs(index.postings@, terms.deep_view())),
        docs@.no_duplicates(),
        docs@.to_set() == matching_docs(index.postings@, terms.deep_view()),
{
    broadcast use vstd::std_specs::hash::group_hash_axioms;

    let ghost lists = index.postings@;
    let ghost tv = terms.deep_view();
    let mut set: HashSet<DocId> = HashSet::new();
    let mut out: Vec<DocId> = Vec::new();
    let n = terms.len();
    for i in 0..n
        invariant
            n == terms@.len(),
            lists == index.postings@,
            tv == terms.deep_view(),
            out@.no_duplicates(),
            set@ == out@.to_set(),
            out@.to_set() == matching_docs(lists, tv.take(i as int)),
            out@ == first_occurrences(listed_docs(lists, tv.take(i as int))),
    {
        let ghost listed = listed_docs(lists, tv.take(i as int));
        proof {
            assert(tv.take(i + 1).drop_last() =~= tv.take(i as int));
        }
        let ghost prefix = matching_docs(lists, tv.take(i as int));
        assert(tv[i as int] == terms@[i as int]@);
        if let Some(list) = index.postings.get(&terms[i]) {
            let m = list.len();
            assert(listed + doc_ids(list@.take(0)) =~= listed);
            for k in 0..m
                invariant
                    m == list@.len(),
                    i < tv.len(),
                    lists.contains_key(tv[i as int]),
                    list@ == lists[tv[i as int]],
                    out@.no_duplicates(),
                    set@ == out@.to_set(),
                    forall|d: DocId|
                        #[trigger] out@.to_set().contains(d) <==> (prefix.contains(d)
                            || lists_doc(list@.take(k as int), d)),
                    out@ == first_occurrences(listed + doc_ids(list@.take(k as int))),
            {
                let ghost seen_before = listed + doc_ids(list@.take(k as int));
                proof {
                    assert(listed + doc_ids(list@.take(k + 1)) =~= seen_before.push(
                        list@[k as int].doc_id,
                    ));
                    assert(seen_before.push(list@[k as int].doc_id).drop_last() =~= seen_before);
                }
                let d = list[k].doc_id;
                let ghost before = out@;
                if set.insert(d) {
                    out.push(d);
                    proof {
                        before.lemma_push_to_set_commute(d);
                        assert forall|j: int, l: int|
                            0 <= j < l < out@.len() implies out@[j] != out@[l] by {
                            if l == before.len() {
                                assert(before.to_set().contains(before[j]));
                            }
                        }
                    }
                }
                proof {
                    let shorter = list@.take(k as int);
                    let longer = list@.take(k + 1);
                    assert forall|e: DocId| lists_doc(longer, e) <==> (lists_doc(shorter, e) || e == d) by {
                        if lists_doc(longer, e) && e != d {
                            let w = choose|w: int| 0 <= w < longer.len() && longer[w].doc_id == e;
                            assert(shorter[w].doc_id == e);
                        }
                        if lists_doc(shorter, e) {
                            let w = choose|w: int| 0 <= w < shorter.len() && shorter[w].doc_id == e;
                            assert(longer[w].doc_id == e);
                        }
                        if e == d {
                            assert(longer[k as int].doc_id == e);
                        }
                    }
                }
            }
            proof {
                assert(list@.take(m as int) =~= list@);
                assert(list_or_empty(lists, tv[i as int]) == list@);
                lemma_matching_step(lists, tv, i as int);
                assert(out@.to_set() =~= prefix.union(docs_of(lists, tv[i as int])));
            }
        } else {
            proof {
                lemma_matching_step(lists, tv, i as int);
                assert(docs_of(lists, tv[i as int]) =~= Set::<DocId>::empty());
                assert(listed + doc_ids(list_or_empty(lists, tv[i as int])) =~= listed);
                assert(prefix.union(docs_of(lists, tv[i as int])) =~= prefix);
            }
        }
    }
    assert(tv.take(n as int) =~= tv);
    out
}

/// The documents among `docs` that contain at least one of `terms`.
pub open spec fn docs_containing(docs: Seq<Seq<Seq<char>>>, terms: Seq<Seq<char>>) -> Set<DocId> {
    Set::new(
        |d: DocId|
            d < docs.len() && exists|i: int|
                0 <= i < terms.len() && occurrences(docs[d as int], #[trigger] terms[i]) > 0,
    )
}

/// Over an index built from `docs`, the candidates of a query are exactly
/// the documents that contain at least one of its terms.
pub proof fn lemma_candidates_are_containing_docs(docs: Seq<Seq<Seq<char>>>, terms: Seq<Seq<char>>)
    requires
        docs.len() <= u32::MAX,
    ensures
        matching_docs(index_of(docs).postings, terms) == docs_containing(docs, terms),
{
    let lists = index_of(docs).postings;
    lemma_index_of(docs);
    assert forall|d: DocId|
        matching_docs(lists, terms).contains(d) <==> docs_containing(docs, terms).contains(d) by {
        if matching_docs(lists, terms).contains(d) {
            let i = choose|i: int|
                0 <= i < terms.len() && lists.contains_key(#[trigger] terms[i]) && lists_doc(
                    lists[terms[i]],
                    d,
                );
            lemma_postings_of(docs, terms[i]);
            let k = choose|k: int| 0 <= k < lists[terms[i]].len() && lists[terms[i]][k].doc_id == d;
            assert(postings_of(docs, terms[i])[k].doc_id == d);
        }
        if docs_containing(docs, terms).contains(d) {
            let i = choose|i: int|
                0 <= i < terms.len() && occurrences(docs[d as int], #[trigger] terms[i]) > 0;
            lemma_postings_of(docs, terms[i]);
            assert(occurrences(docs[d as int], terms[i]) > 0);
            let k = choose|k: int|
                0 <= k < postings_of(docs, terms[i]).len() && postings_of(docs, terms[i])[k].doc_id
                    == d;
            assert(lists.contains_key(terms[i]));
            assert(lists_doc(lists[terms[i]], d));
        }
    }
    assert(matching_docs(lists, terms) =~= docs_containing(docs, terms));
}

} // verus!
