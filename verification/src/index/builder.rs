use crate::analysis::tokenizer::{analyze, tokens};
use crate::index::postings::{list_or_empty, DocId, Index, IndexView, Posting};
use crate::index::store::{DocMeta, DocStore};
use crate::table::StringTable;
use vstd::prelude::*;

verus! {

/// One crawled page, as the crawler wrote it.
pub struct PageRecord {
    pub url: String,
    pub title: String,
    pub text: String,
}

/// How many times `term` occurs among `toks`.
pub open spec fn occurrences(toks: Seq<Seq<char>>, term: Seq<char>) -> nat
    decreases toks.len(),
{
    if toks.len() == 0 {
        0
    } else {
        occurrences(toks.drop_last(), term) + if toks.last() == term {
            1nat
        } else {
            0nat
        }
    }
}

/// The posting lists after a document with tokens `toks` is added as
/// document `doc`: each term of the document gets one more entry, with the
/// number of times it occurs there; the other lists are unchanged.
pub open spec fn with_document(
    lists: Map<Seq<char>, Seq<Posting>>,
    doc: DocId,
    toks: Seq<Seq<char>>,
) -> Map<Seq<char>, Seq<Posting>> {
    Map::new(
        |t: Seq<char>| lists.contains_key(t) || occurrences(toks, t) > 0,
        |t: Seq<char>|
            if occurrences(toks, t) > 0 {
                list_or_empty(lists, t).push(
                    Posting { doc_id: doc, term_freq: occurrences(toks, t) as u32 },
                )
            } else {
                lists[t]
            },
    )
}

/// Whether a document with tokens `toks` can be added without a counter
/// leaving its range: the document number, the token total and every
/// term's count in the document.
pub open spec fn document_fits(index: IndexView, toks: Seq<Seq<char>>) -> bool {
    &&& index.num_docs < u32::MAX
    &&& index.total_tokens + toks.len() <= u64::MAX
    &&& forall|t: Seq<char>| #[trigger] occurrences(toks, t) <= u32::MAX
}

/// A term occurs at most as many times as there are tokens.
pub proof fn lemma_occurrences_bounded(toks: Seq<Seq<char>>, term: Seq<char>)
    ensures
        occurrences(toks, term) <= toks.len(),
    decreases toks.len(),
{
    if toks.len() > 0 {
        lemma_occurrences_bounded(toks.drop_last(), term);
    }
}

/// A document fits whenever the next number, the new token total and its
/// own number of tokens are in range.
pub proof fn lemma_document_fits(index: IndexView, toks: Seq<Seq<char>>)
    requires
        index.num_docs < u32::MAX,
        index.total_tokens + toks.len() <= u64::MAX,
        toks.len() <= u32::MAX,
    ensures
        document_fits(index, toks),
{
    assert forall|t: Seq<char>| #[trigger] occurrences(toks, t) <= u32::MAX by {
        lemma_occurrences_bounded(toks, t);
    }
}

/// The index after a document with tokens `toks` is added: it gets the
/// next number, its length (modulo 2^32) and its postings.
pub open spec fn with_added_document(index: IndexView, toks: Seq<Seq<char>>) -> IndexView {
    IndexView {
        postings: with_document(index.postings, index.num_docs, toks),
        doc_lengths: index.doc_lengths.insert(index.num_docs, toks.len() as u32),
        total_tokens: (index.total_tokens + toks.len()) as u64,
        num_docs: (index.num_docs + 1) as u32,
    }
}

/// Whether `term` is the term of one of `counts`.
spec fn counted(counts: Seq<(Seq<char>, u32)>, term: Seq<char>) -> bool {
    exists|k: int| 0 <= k < counts.len() && counts[k].0 == term
}

/// `counts` lists each term of `toks` once, with the number of times it
/// occurs.
spec fn counts_of(counts: Seq<(Seq<char>, u32)>, toks: Seq<Seq<char>>) -> bool {
    &&& forall|i: int, j: int| 0 <= i < j < counts.len() ==> counts[i].0 != counts[j].0
    &&& forall|k: int|
        0 <= k < counts.len() ==> counts[k].1 == occurrences(toks, #[trigger] counts[k].0)
            && counts[k].1 > 0
    &&& forall|t: Seq<char>| #[trigger] occurrences(toks, t) > 0 ==> counted(counts, t)
}

proof fn lemma_occurrences_step(s: Seq<Seq<char>>, i: int)
    requires
        0 <= i < s.len(),
    ensures
        forall|t: Seq<char>|
            #[trigger] occurrences(s.take(i + 1), t) == occurrences(s.take(i), t) + if s[i] == t {
                1nat
            } else {
                0nat
            },
{
    assert(s.take(i + 1).drop_last() =~= s.take(i));
}

proof fn lemma_occurrences_prefix(s: Seq<Seq<char>>, j: int)
    requires
        0 <= j <= s.len(),
    ensures
        forall|t: Seq<char>| #[trigger] occurrences(s.take(j), t) <= occurrences(s, t),
    decreases s.len() - j,
{
    if j < s.len() {
        lemma_occurrences_prefix(s, j + 1);
        lemma_occurrences_step(s, j);
        assert forall|t: Seq<char>| #[trigger] occurrences(s.take(j), t) <= occurrences(s, t) by {
            assert(occurrences(s.take(j + 1), t) <= occurrences(s, t));
        }
    } else {
        assert(s.take(j) =~= s);
    }
}

/// The terms of a document paired with their counts.
spec fn zip_counts(terms: Seq<Seq<char>>, freqs: Seq<u32>) -> Seq<(Seq<char>, u32)> {
    Seq::new(terms.len(), |k: int| (terms[k], freqs[k]))
}

/// Counts the terms of a document: each distinct token once, in order of
/// first occurrence, with the number of times it occurs; `None` when a term
/// occurs more than `u32::MAX` times.
fn term_frequencies(toks: &Vec<String>) -> (counts: Option<(StringTable, Vec<u32>)>)
    ensures
        match counts {
            Some((terms, freqs)) => {
                &&& terms@.len() == freqs@.len()
                &&& counts_of(zip_counts(terms@, freqs@), toks.deep_view())
            },
            None => exists|t: Seq<char>| #[trigger] occurrences(toks.deep_view(), t) > u32::MAX,
        },
{
    let ghost s = toks.deep_view();
    let mut terms = StringTable::new();
    let mut freqs: Vec<u32> = Vec::new();
    let n = toks.len();
    assert(s.take(0) =~= Seq::<Seq<char>>::empty());
    assert(zip_counts(terms@, freqs@) =~= Seq::<(Seq<char>, u32)>::empty());
    for i in 0..n
        invariant
            n == toks@.len(),
            s == toks.deep_view(),
            terms@.len() == freqs@.len(),
            counts_of(zip_counts(terms@, freqs@), s.take(i as int)),
    {
        proof {
            lemma_occurrences_step(s, i as int);
        }
        let ghost before = zip_counts(terms@, freqs@);
        let tok = &toks[i];
        assert(s[i as int] == tok@);
        match terms.find(tok) {
            Some(k) => {
                assert(before[k as int] == (tok@, freqs@[k as int]));
                if freqs[k] == u32::MAX {
                    proof {
                        lemma_occurrences_prefix(s, i + 1);
                        assert(before[k as int].1 == occurrences(s.take(i as int), before[k as int].0));
                        assert(occurrences(s.take(i + 1), tok@) == occurrences(s.take(i as int), tok@) + 1);
                        assert(occurrences(s.take(i + 1), tok@) <= occurrences(s, tok@));
                        assert(occurrences(s, tok@) > u32::MAX);
                    }
                    return None;
                }
                let next = freqs[k] + 1;
                freqs.set(k, next);
                proof {
                    let after = zip_counts(terms@, freqs@);
                    assert(after =~= before.update(k as int, (before[k as int].0, next)));
                    assert forall|t: Seq<char>| #[trigger]
                        occurrences(s.take(i + 1), t) > 0 implies counted(after, t) by {
                        if occurrences(s.take(i as int), t) > 0 {
                            let m = choose|m: int| 0 <= m < before.len() && before[m].0 == t;
                            assert(after[m].0 == t);
                        } else {
                            assert(after[k as int].0 == t);
                        }
                    }
                }
            },
            None => {
                proof {
                    assert forall|m: int| 0 <= m < before.len() implies before[m].0 != tok@ by {
                        assert(before[m].0 == terms@[m]);
                    }
                }
                terms.push(tok.clone());
                freqs.push(1);
                proof {
                    let after = zip_counts(terms@, freqs@);
                    assert(after =~= before.push((tok@, 1u32)));
                    assert forall|t: Seq<char>| #[trigger]
                        occurrences(s.take(i + 1), t) > 0 implies counted(after, t) by {
                        if occurrences(s.take(i as int), t) > 0 {
                            let m = choose|m: int| 0 <= m < before.len() && before[m].0 == t;
                            assert(after[m].0 == t);
                        } else {
                            assert(after[before.len() as int].0 == t);
                        }
                    }
                }
            },
        }
    }
    assert(s.take(n as int) =~= s);
    Some((terms, freqs))
}

/// Adds a document, given its tokens, as the next document of the index.
/// Returns whether it was added: it is not when a counter would leave its
/// range (see `document_fits`), and the index is then unchanged.
pub fn add_document(index: &mut Index, toks: &Vec<String>) -> (added: bool)
    ensures
        added == document_fits(old(index)@, toks.deep_view()),
        old(index).num_docs < u32::MAX && old(index).total_tokens + toks@.len() <= u64::MAX
            && toks@.len() <= u32::MAX ==> added,
        added ==> final(index)@ == with_added_document(old(index)@, toks.deep_view()),
        !added ==> final(index)@ == old(index)@,
{
    broadcast use vstd::std_specs::hash::group_hash_axioms;

    let ghost s = toks.deep_view();
    proof {
        if old(index).num_docs < u32::MAX && old(index).total_tokens + toks@.len() <= u64::MAX
            && toks@.len() <= u32::MAX {
            lemma_document_fits(old(index)@, s);
        }
    }
    if index.num_docs == u32::MAX {
        return false;
    }
    let len = toks.len();
    if index.total_tokens > u64::MAX - len as u64 {
        return false;
    }
    let (terms, freqs) = match term_frequencies(toks) {
        Some(c) => c,
        None => {
            return false;
        },
    };
    let ghost cv = zip_counts(terms@, freqs@);
    proof {
        assert forall|t: Seq<char>| #[trigger] occurrences(s, t) <= u32::MAX by {
            if occurrences(s, t) > 0 {
                let k = choose|k: int| 0 <= k < cv.len() && cv[k].0 == t;
                assert(cv[k].1 == occurrences(s, cv[k].0));
            }
        }
    }
    let doc_id = index.num_docs;
    let ghost old_lists = index.postings@;
    let n = terms.len();
    assert(cv.take(0) =~= Seq::<(Seq<char>, u32)>::empty());
    for j in 0..n
        invariant
            n == cv.len(),
            terms@.len() == freqs@.len(),
            cv == zip_counts(terms@, freqs@),
            counts_of(cv, s),
            doc_id == old(index).num_docs,
            index.num_docs == old(index).num_docs,
            index.total_tokens == old(index).total_tokens,
            index.doc_lengths@ == old(index).doc_lengths@,
            old_lists == old(index).postings@,
            forall|t: Seq<char>|
                #[trigger] index.postings@.contains_key(t) <==> (old_lists.contains_key(t)
                    || counted(cv.take(j as int), t)),
            forall|t: Seq<char>|
                #[trigger] index.postings@.contains_key(t) ==> index.postings@[t] == if counted(
                    cv.take(j as int),
                    t,
                ) {
                    list_or_empty(old_lists, t).push(
                        Posting { doc_id: doc_id, term_freq: occurrences(s, t) as u32 },
                    )
                } else {
                    old_lists[t]
                },
    {
        let term = terms.key(j).clone();
        let tf = freqs[j];
        let ghost before = index.postings@;
        let ghost tv = cv[j as int].0;
        assert(term@ == tv);
        proof {
            assert(cv.take(j + 1) =~= cv.take(j as int).push(cv[j as int]));
            let prefix = cv.take(j as int);
            assert(!counted(prefix, tv)) by {
                if counted(prefix, tv) {
                    let m = choose|m: int| 0 <= m < prefix.len() && prefix[m].0 == tv;
                    assert(cv[m].0 == cv[j as int].0);
                }
            }
            let longer = cv.take(j + 1);
            let shorter = cv.take(j as int);
            assert forall|t: Seq<char>| counted(longer, t) <==> (counted(shorter, t) || t == tv) by {
                if counted(longer, t) && t != tv {
                    let m = choose|m: int| 0 <= m < longer.len() && longer[m].0 == t;
                    assert(shorter[m].0 == t);
                }
                if counted(shorter, t) {
                    let m = choose|m: int| 0 <= m < shorter.len() && shorter[m].0 == t;
                    assert(longer[m].0 == t);
                }
                if t == tv {
                    assert(longer[j as int].0 == t);
                }
            }
            assert(tf == occurrences(s, cv[j as int].0));
            assert(list_or_empty(before, tv) == list_or_empty(old_lists, tv));
        }
        index.postings.push_posting(term, Posting { doc_id, term_freq: tf });
    }
    index.doc_lengths.insert(doc_id, len as u32);
    index.total_tokens = index.total_tokens + len as u64;
    index.num_docs = doc_id + 1;
    proof {
        assert(cv.take(n as int) =~= cv);
        let expected = with_added_document(old(index)@, s);
        assert forall|t: Seq<char>| #[trigger] counted(cv, t) <==> occurrences(s, t) > 0 by {
            if counted(cv, t) {
                let k = choose|k: int| 0 <= k < cv.len() && cv[k].0 == t;
                assert(cv[k].1 == occurrences(s, cv[k].0));
            }
        }
        assert(index.postings@ =~= expected.postings);
    }
    true
}

/// Adds a crawled page as the next document: its text is broken into
/// tokens, which are indexed, and its URL and title are stored under its
/// number. Returns whether it was added (see `add_document`); when it is
/// not, index and store are unchanged.
pub fn add_page(index: &mut Index, store: &mut DocStore, page: PageRecord) -> (added: bool)
    ensures
        added == document_fits(old(index)@, tokens(page.text@)),
        old(index).num_docs < u32::MAX && old(index).total_tokens + tokens(page.text@).len()
            <= u64::MAX && tokens(page.text@).len() <= u32::MAX ==> added,
        added ==> {
            &&& final(index)@ == with_added_document(old(index)@, tokens(page.text@))
            &&& final(store)@ == old(store)@.insert(old(index).num_docs, (page.url@, page.title@))
        },
        !added ==> final(index)@ == old(index)@ && final(store)@ == old(store)@,
{
    broadcast use vstd::std_specs::hash::group_hash_axioms;

    let toks = analyze(&page.text);
    let doc_id = index.num_docs;
    if add_document(index, &toks) {
        let ghost before = store@;
        let ghost url = page.url@;
        let ghost title = page.title@;
        store.inner.insert(doc_id, DocMeta { url: page.url, title: page.title });
        assert(store@ =~= before.insert(doc_id, (url, title)));
        true
    } else {
        false
    }
}

/// The index built by adding the documents with tokens `docs[0]`,
/// `docs[1]`, ... in order, to an empty index.
pub open spec fn index_of(docs: Seq<Seq<Seq<char>>>) -> IndexView
    decreases docs.len(),
{
    if docs.len() == 0 {
        IndexView::empty()
    } else {
        with_added_document(index_of(docs.drop_last()), docs.last())
    }
}

/// The number of tokens of all of `docs` together.
pub open spec fn total_length(docs: Seq<Seq<Seq<char>>>) -> nat
    decreases docs.len(),
{
    if docs.len() == 0 {
        0
    } else {
        total_length(docs.drop_last()) + docs.last().len()
    }
}

/// Adding one more document to the index of `docs` gives the index of
/// `docs` followed by it: indexing page after page, with `add_page`, from
/// an empty index builds `index_of` of their token lists.
pub proof fn lemma_index_of_push(docs: Seq<Seq<Seq<char>>>, doc: Seq<Seq<char>>)
    ensures
        index_of(docs.push(doc)) == with_added_document(index_of(docs), doc),
{
    assert(docs.push(doc).drop_last() =~= docs);
}

/// The posting list of `term` over `docs`: one entry per document that
/// contains the term, in document order, with the number of times it
/// occurs there.
pub open spec fn postings_of(docs: Seq<Seq<Seq<char>>>, term: Seq<char>) -> Seq<Posting>
    decreases docs.len(),
{
    if docs.len() == 0 {
        Seq::empty()
    } else {
        let before = postings_of(docs.drop_last(), term);
        let count = occurrences(docs.last(), term);
        if count > 0 {
            before.push(Posting { doc_id: (docs.len() - 1) as u32, term_freq: count as u32 })
        } else {
            before
        }
    }
}

/// Indexing documents one after another numbers them 0, 1, 2, ..., counts
/// their tokens in all (unless the count passes `u64::MAX`), keeps the
/// length (modulo 2^32) of each under its number, and gives each term
/// that occurs in some document, and only such a term, a posting list: the
/// documents that contain it, in order, each with its count.
pub proof fn lemma_index_of(docs: Seq<Seq<Seq<char>>>)
    requires
        docs.len() <= u32::MAX,
    ensures
        index_of(docs).num_docs == docs.len(),
        total_length(docs) <= u64::MAX ==> index_of(docs).total_tokens == total_length(docs),
        index_of(docs).doc_lengths.dom() == Set::new(|d: DocId| d < docs.len()),
        forall|i: int|
            0 <= i < docs.len() ==> #[trigger] index_of(docs).doc_lengths[i as u32] == docs[i].len()
                as u32,
        forall|t: Seq<char>|
            #[trigger] index_of(docs).postings.contains_key(t) <==> postings_of(docs, t).len() > 0,
        forall|t: Seq<char>|
            #[trigger] index_of(docs).postings.contains_key(t) ==> index_of(docs).postings[t]
                == postings_of(docs, t),
    decreases docs.len(),
{
    if docs.len() > 0 {
        let rest = docs.drop_last();
        lemma_index_of(rest);
        let before = index_of(rest);
        let after = index_of(docs);
        assert(after.doc_lengths.dom() =~= Set::new(|d: DocId| d < docs.len()));
        assert forall|i: int| 0 <= i < docs.len() implies #[trigger] after.doc_lengths[i as u32]
            == docs[i].len() as u32 by {
            if i < rest.len() {
                assert(rest[i] == docs[i]);
                assert(before.doc_lengths[i as u32] == rest[i].len() as u32);
            }
        }
        assert forall|t: Seq<char>|
            #[trigger] after.postings.contains_key(t) <==> postings_of(docs, t).len() > 0 by {
            if before.postings.contains_key(t) {
                assert(postings_of(rest, t).len() > 0);
            }
        }
        assert forall|t: Seq<char>| #[trigger] after.postings.contains_key(t) implies after.postings[t]
            == postings_of(docs, t) by {
            if !before.postings.contains_key(t) {
                assert(postings_of(rest, t).len() == 0);
                assert(list_or_empty(before.postings, t) =~= postings_of(rest, t));
            }
        }
    }
}

/// A document is in the posting list of a term exactly when the term occurs
/// in it; its entry carries the number of occurrences, and the entries are
/// in increasing document order.
pub proof fn lemma_postings_of(docs: Seq<Seq<Seq<char>>>, term: Seq<char>)
    requires
        docs.len() <= u32::MAX + 1,
    ensures
        forall|k: int|
            0 <= k < postings_of(docs, term).len() ==> {
                let p = #[trigger] postings_of(docs, term)[k];
                &&& p.doc_id < docs.len()
                &&& occurrences(docs[p.doc_id as int], term) > 0
                &&& p.term_freq == occurrences(docs[p.doc_id as int], term) as u32
            },
        forall|k: int, m: int|
            0 <= k < m < postings_of(docs, term).len() ==> #[trigger] postings_of(docs, term)[k].doc_id
                < #[trigger] postings_of(docs, term)[m].doc_id,
        forall|d: int|
            0 <= d < docs.len() && occurrences(#[trigger] docs[d], term) > 0 ==> exists|k: int|
                0 <= k < postings_of(docs, term).len() && postings_of(docs, term)[k].doc_id == d,
    decreases docs.len(),
{
    if docs.len() > 0 {
        let rest = docs.drop_last();
        lemma_postings_of(rest, term);
        let before = postings_of(rest, term);
        let after = postings_of(docs, term);
        assert forall|k: int| 0 <= k < after.len() implies {
            let p = #[trigger] after[k];
            &&& p.doc_id < docs.len()
            &&& occurrences(docs[p.doc_id as int], term) > 0
            &&& p.term_freq == occurrences(docs[p.doc_id as int], term) as u32
        } by {
            if k < before.len() {
                assert(after[k] == before[k]);
                assert(rest[before[k].doc_id as int] == docs[before[k].doc_id as int]);
            }
        }
        assert forall|k: int, m: int| 0 <= k < m < after.len() implies #[trigger] after[k].doc_id
            < #[trigger] after[m].doc_id by {
            if m < before.len() {
                assert(after[k] == before[k] && after[m] == before[m]);
            } else {
                assert(after[k] == before[k]);
            }
        }
        assert forall|d: int|
            0 <= d < docs.len() && occurrences(#[trigger] docs[d], term) > 0 implies exists|k: int|
            0 <= k < after.len() && after[k].doc_id == d by {
            if d < rest.len() {
                assert(rest[d] == docs[d]);
                let k = choose|k: int| 0 <= k < before.len() && before[k].doc_id == d;
                assert(after[k] == before[k]);
            } else {
                assert(after[before.len() as int].doc_id == d);
            }
        }
    }
}

} // verus!
