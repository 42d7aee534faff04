use crate::index::postings::{DocId, Index, Posting};
use crate::index::builder::{index_of, lemma_index_of, lemma_postings_of, occurrences, postings_of};
use crate::query::retrieval::{lists_doc, matching_docs};
use vstd::prelude::*;

verus! {

/// What a scoring function is given for one query term found in one
/// document: the term's count in the document, the document's length,
/// how many documents contain the term, and how many documents there are.
#[derive(Clone, Copy, Debug)]
pub struct TermMatch {
    pub term_freq: u32,
    pub doc_length: u32,
    pub docs_containing_term: usize,
    pub num_docs: u32,
}

/// The first entry of `list` for document `doc`, if any.
pub open spec fn first_entry(list: Seq<Posting>, doc: DocId) -> Option<Posting>
    decreases list.len(),
{
    if list.len() == 0 {
        None
    } else if list[0].doc_id == doc {
        Some(list[0])
    } else {
        first_entry(list.drop_first(), doc)
    }
}

/// The length recorded for `doc`, or 1 when none is.
pub open spec fn length_or_one(lengths: Map<DocId, u32>, doc: DocId) -> u32 {
    if lengths.contains_key(doc) {
        lengths[doc]
    } else {
        1
    }
}

/// What scoring is given for each of `terms`, in order, that has a posting
/// list with an entry for `doc`; the other terms contribute nothing.
pub open spec fn matches_of(
    lists: Map<Seq<char>, Seq<Posting>>,
    lengths: Map<DocId, u32>,
    num_docs: u32,
    doc: DocId,
    terms: Seq<Seq<char>>,
) -> Seq<TermMatch>
    decreases terms.len(),
{
    if terms.len() == 0 {
        Seq::empty()
    } else {
        let before = matches_of(lists, lengths, num_docs, doc, terms.drop_last());
        let t = terms.last();
        if lists.contains_key(t) {
            match first_entry(lists[t], doc) {
                Some(p) => before.push(
                    TermMatch {
                        term_freq: p.term_freq,
                        doc_length: length_or_one(lengths, doc),
                        docs_containing_term: lists[t].len() as usize,
                        num_docs: num_docs,
                    },
                ),
                None => before,
            }
        } else {
            before
        }
    }
}

/// The first entry of `list` for document `doc`, if any.
fn find_entry(list: &Vec<Posting>, doc: DocId) -> (entry: Option<Posting>)
    ensures
        entry == first_entry(list@, doc),
{
    let n = list.len();
    assert(list@.skip(0) =~= list@);
    for k in 0..n
        invariant
            n == list@.len(),
            first_entry(list@, doc) == first_entry(list@.skip(k as int), doc),
    {
        let ghost rest = list@.skip(k as int);
        assert(rest.drop_first() =~= list@.skip(k + 1));
        if list[k].doc_id == doc {
            return Some(list[k]);
        }
    }
    None
}

/// What scoring is given for document `doc` and the query terms: for each
/// term, in order, whose posting list has an entry for the document, that
/// entry's count, the document's length (1 when none is recorded), the
/// length of the term's list and the number of documents.
pub fn term_matches(doc: DocId, terms: &[String], index: &Index) -> (matches: Vec<TermMatch>)
    ensures
        matches@ == matches_of(
            index.postings@,
            index.doc_lengths@,
            index.num_docs,
            doc,
            terms.deep_view(),
        ),
{
    broadcast use vstd::std_specs::hash::group_hash_axioms;

    let ghost tv = terms.deep_view();
    let mut out: Vec<TermMatch> = Vec::new();
    let n = terms.len();
    assert(tv.take(0) =~= Seq::<Seq<char>>::empty());
    for i in 0..n
        invariant
            n == terms@.len(),
            tv == terms.deep_view(),
            out@ == matches_of(
                index.postings@,
                index.doc_lengths@,
                index.num_docs,
                doc,
                tv.take(i as int),
            ),
    {
        assert(tv.take(i + 1).drop_last() =~= tv.take(i as int));
        assert(tv[i as int] == terms@[i as int]@);
        if let Some(list) = index.postings.get(&terms[i]) {
            if let Some(entry) = find_entry(list, doc) {
                let doc_length = match index.doc_lengths.get(&doc) {
                    Some(l) => *l,
                    None => 1,
                };
                out.push(
                    TermMatch {
                        term_freq: entry.term_freq,
                        doc_length,
                        docs_containing_term: list.len(),
                        num_docs: index.num_docs,
                    },
                );
            }
        }
    }
    assert(tv.take(n as int) =~= tv);
    out
}

/// A list has an entry for a document exactly when it has a first one.
pub proof fn lemma_first_entry(list: Seq<Posting>, doc: DocId)
    ensures
        first_entry(list, doc) is Some <==> lists_doc(list, doc),
        first_entry(list, doc) matches Some(p) ==> p.doc_id == doc && list.contains(p),
    decreases list.len(),
{
    if list.len() > 0 {
        let rest = list.drop_first();
        lemma_first_entry(rest, doc);
        if lists_doc(list, doc) && list[0].doc_id != doc {
            let k = choose|k: int| 0 <= k < list.len() && list[k].doc_id == doc;
            assert(rest[k - 1].doc_id == doc);
        }
        if lists_doc(rest, doc) {
            let k = choose|k: int| 0 <= k < rest.len() && rest[k].doc_id == doc;
            assert(list[k + 1].doc_id == doc);
        }
        if first_entry(rest, doc) is Some && list[0].doc_id != doc {
            let p = first_entry(rest, doc)->0;
            let k = choose|k: int| 0 <= k < rest.len() && rest[k] == p;
            assert(list[k + 1] == p);
        }
        if list[0].doc_id == doc {
            assert(list.contains(list[0]));
        }
    }
}

/// Every candidate of a query has something to score: a document listed
/// for one of the terms gets at least one match.
pub proof fn lemma_candidate_has_matches(
    lists: Map<Seq<char>, Seq<Posting>>,
    lengths: Map<DocId, u32>,
    num_docs: u32,
    doc: DocId,
    terms: Seq<Seq<char>>,
)
    requires
        matching_docs(lists, terms).contains(doc),
    ensures
        matches_of(lists, lengths, num_docs, doc, terms).len() > 0,
    decreases terms.len(),
{
    let i = choose|i: int|
        0 <= i < terms.len() && lists.contains_key(#[trigger] terms[i]) && lists_doc(
            lists[terms[i]],
            doc,
        );
    let rest = terms.drop_last();
    if i == terms.len() - 1 {
        lemma_first_entry(lists[terms[i]], doc);
    } else {
        assert(rest[i] == terms[i]);
        assert(matching_docs(lists, rest).contains(doc));
        lemma_candidate_has_matches(lists, lengths, num_docs, doc, rest);
    }
}

/// What scoring should see for document `doc` of `docs` and the query
/// `terms`: for each term, in order, that occurs in the document, its count
/// there, the document's length (modulo 2^32), the number of documents
/// that contain the term and the number of documents.
pub open spec fn document_stats(docs: Seq<Seq<Seq<char>>>, doc: DocId, terms: Seq<Seq<char>>) -> Seq<
    TermMatch,
>
    decreases terms.len(),
{
    if terms.len() == 0 {
        Seq::empty()
    } else {
        let before = document_stats(docs, doc, terms.drop_last());
        let t = terms.last();
        let count = occurrences(docs[doc as int], t);
        if count > 0 {
            before.push(
                TermMatch {
                    term_freq: count as u32,
                    doc_length: docs[doc as int].len() as u32,
                    docs_containing_term: postings_of(docs, t).len() as usize,
                    num_docs: docs.len() as u32,
                },
            )
        } else {
            before
        }
    }
}

/// Over an index built from `docs`, what scoring is given for a document
/// is the true statistics of the query terms in it.
pub proof fn lemma_matches_are_document_stats(
    docs: Seq<Seq<Seq<char>>>,
    doc: DocId,
    terms: Seq<Seq<char>>,
)
    requires
        docs.len() <= u32::MAX,
        doc < docs.len(),
    ensures
        matches_of(
            index_of(docs).postings,
            index_of(docs).doc_lengths,
            index_of(docs).num_docs,
            doc,
            terms,
        ) == document_stats(docs, doc, terms),
    decreases terms.len(),
{
    let index = index_of(docs);
    lemma_index_of(docs);
    if terms.len() > 0 {
        let rest = terms.drop_last();
        lemma_matches_are_document_stats(docs, doc, rest);
        let t = terms.last();
        let list = postings_of(docs, t);
        lemma_postings_of(docs, t);
        lemma_first_entry(list, doc);
        assert(index.doc_lengths[doc as int as u32] == docs[doc as int].len() as u32);
        if occurrences(docs[doc as int], t) > 0 {
            let k = choose|k: int| 0 <= k < list.len() && list[k].doc_id == doc;
            assert(index.postings.contains_key(t));
            let p = first_entry(list, doc)->0;
            let m = choose|m: int| 0 <= m < list.len() && list[m] == p;
            assert(list[m].doc_id == doc);
        } else if index.postings.contains_key(t) {
            if lists_doc(list, doc) {
                let k = choose|k: int| 0 <= k < list.len() && list[k].doc_id == doc;
                assert(occurrences(docs[list[k].doc_id as int], t) > 0);
            }
        }
    }
}

} // verus!
