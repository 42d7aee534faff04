use vstd::prelude::*;

verus! {

/// What `str::to_lowercase` returns for a string (Unicode lowercase mapping,
/// including its context-dependent rules).
pub uninterp spec fn lowercase(text: Seq<char>) -> Seq<char>;

/// Whether `char::is_alphabetic` holds of a character (the Unicode
/// `Alphabetic` property).
pub uninterp spec fn alphabetic(c: char) -> bool;

/// Trusted: `str::to_lowercase`. Claims only that the result is the
/// string's lowercase mapping, named by `lowercase`.
#[verifier::external_body]
fn to_lowercase(text: &str) -> (lowered: String)
    ensures
        lowered@ == lowercase(text@),
{
    text.to_lowercase()
}

/// Trusted: `char::is_alphabetic`. Claims only that the answer is the
/// character's `Alphabetic` property, named by `alphabetic`.
#[verifier::external_body]
fn is_alphabetic(c: char) -> (b: bool)
    ensures
        b == alphabetic(c),
{
    c.is_alphabetic()
}

/// Trusted: `String::push`, which appends one character.
#[verifier::external_body]
fn push_char(s: &mut String, c: char)
    ensures
        final(s)@ == old(s)@.push(c),
{
    s.push(c)
}

/// The pieces that splitting `s` at every non-alphabetic character yields,
/// in order, empty pieces included (as `str::split` does): a string with
/// `k` separators gives `k + 1` pieces.
pub open spec fn split_pieces(s: Seq<char>) -> Seq<Seq<char>>
    decreases s.len(),
{
    if s.len() == 0 {
        seq![Seq::<char>::empty()]
    } else {
        let before = split_pieces(s.drop_last());
        let c = s.last();
        if alphabetic(c) {
            before.update(before.len() - 1, before.last().push(c))
        } else {
            before.push(Seq::<char>::empty())
        }
    }
}

/// The test that keeps a piece as a word: it is not empty.
pub open spec fn non_empty() -> spec_fn(Seq<char>) -> bool {
    |w: Seq<char>| w.len() > 0
}

/// The words of `s`: its maximal runs of alphabetic characters, in order.
pub open spec fn words(s: Seq<char>) -> Seq<Seq<char>> {
    split_pieces(s).filter(non_empty())
}

/// The tokens of a text: the words of its lowercase form.
pub open spec fn tokens(text: Seq<char>) -> Seq<Seq<char>> {
    words(lowercase(text))
}

/// Splitting always yields at least one piece, and every piece is made of
/// alphabetic characters only.
pub proof fn lemma_split_pieces(s: Seq<char>)
    ensures
        split_pieces(s).len() >= 1,
        split_pieces(s).len() <= s.len() + 1,
        forall|i: int, j: int|
            #![trigger split_pieces(s)[i][j]]
            0 <= i < split_pieces(s).len() && 0 <= j < split_pieces(s)[i].len() ==> alphabetic(
                split_pieces(s)[i][j],
            ),
    decreases s.len(),
{
    if s.len() > 0 {
        lemma_split_pieces(s.drop_last());
        let before = split_pieces(s.drop_last());
        let c = s.last();
        if alphabetic(c) {
            let after = split_pieces(s);
            assert forall|i: int, j: int|
                0 <= i < after.len() && 0 <= j < after[i].len() implies alphabetic(after[i][j]) by {
                if i == before.len() - 1 {
                    if j < before.last().len() {
                        assert(after[i][j] == before[i][j]);
                    }
                } else {
                    assert(after[i] == before[i]);
                }
            }
        } else {
            let after = split_pieces(s);
            assert forall|i: int, j: int|
                0 <= i < after.len() && 0 <= j < after[i].len() implies alphabetic(after[i][j]) by {
                assert(after[i] == before[i]);
            }
        }
    }
}

/// Every word is non-empty and made of alphabetic characters only.
pub proof fn lemma_words_are_alphabetic(s: Seq<char>)
    ensures
        forall|i: int|
            0 <= i < words(s).len() ==> #[trigger] words(s)[i].len() > 0,
        forall|i: int, j: int|
            0 <= i < words(s).len() && 0 <= j < words(s)[i].len() ==> alphabetic(
                #[trigger] words(s)[i][j],
            ),
{
    broadcast use vstd::seq_lib::group_filter_ensures;

    lemma_split_pieces(s);
    let pieces = split_pieces(s);
    let pred = non_empty();
    assert forall|i: int| 0 <= i < words(s).len() implies #[trigger] words(s)[i].len() > 0 by {
        assert(pred(pieces.filter(pred)[i]));
    }
    assert forall|i: int, j: int|
        0 <= i < words(s).len() && 0 <= j < words(s)[i].len() implies alphabetic(
        #[trigger] words(s)[i][j],
    ) by {
        let w = words(s)[i];
        assert(pieces.filter(pred)[i] == w);
        assert(pieces.filter(pred).contains(w));
        pieces.lemma_filter_contains_rev(pred, w);
        let k = choose|k: int| 0 <= k < pieces.len() && pieces[k] == w;
        assert(pieces[k][j] == w[j]);
    }
}

/// A run of alphabetic characters is not split: it is its own single piece.
pub proof fn lemma_split_run(run: Seq<char>)
    requires
        forall|i: int| 0 <= i < run.len() ==> alphabetic(#[trigger] run[i]),
    ensures
        split_pieces(run) == seq![run],
    decreases run.len(),
{
    if run.len() == 0 {
        assert(run =~= Seq::<char>::empty());
    } else {
        let rest = run.drop_last();
        lemma_split_run(rest);
        assert(rest.push(run.last()) =~= run);
        assert(seq![rest].update(0, rest.push(run.last())) =~= seq![run]);
    }
}

/// A non-alphabetic character separates: splitting `a`, then `c`, then `b`
/// gives the pieces of `a` followed by the pieces of `b`.
pub proof fn lemma_split_at_separator(a: Seq<char>, c: char, b: Seq<char>)
    requires
        !alphabetic(c),
    ensures
        split_pieces(a.push(c) + b) == split_pieces(a) + split_pieces(b),
    decreases b.len(),
{
    let whole = a.push(c) + b;
    if b.len() == 0 {
        assert(whole =~= a.push(c));
        assert(whole.drop_last() =~= a);
        assert(split_pieces(b) == seq![Seq::<char>::empty()]);
        assert(split_pieces(a).push(Seq::<char>::empty()) =~= split_pieces(a) + seq![
            Seq::<char>::empty(),
        ]);
    } else {
        let shorter = b.drop_last();
        let d = b.last();
        lemma_split_at_separator(a, c, shorter);
        lemma_split_pieces(shorter);
        lemma_split_pieces(a);
        assert(whole.drop_last() =~= a.push(c) + shorter);
        assert(whole.last() == d);
        let p = split_pieces(a);
        let q = split_pieces(shorter);
        if alphabetic(d) {
            assert((p + q).update((p + q).len() - 1, (p + q).last().push(d)) =~= p + q.update(
                q.len() - 1,
                q.last().push(d),
            ));
        } else {
            assert((p + q).push(Seq::<char>::empty()) =~= p + q.push(Seq::<char>::empty()));
        }
    }
}

/// A non-empty run of alphabetic characters is exactly one word.
pub proof fn lemma_words_of_run(run: Seq<char>)
    requires
        run.len() > 0,
        forall|i: int| 0 <= i < run.len() ==> alphabetic(#[trigger] run[i]),
    ensures
        words(run) == seq![run],
{
    lemma_split_run(run);
    let empty = Seq::<Seq<char>>::empty();
    empty.lemma_filter_push(run, non_empty());
    assert(empty.filter(non_empty()) =~= empty) by {
        reveal(Seq::filter);
    }
    assert(empty.push(run) =~= seq![run]);
}

/// A non-alphabetic character separates words: the words of `a`, then `c`,
/// then `b` are the words of `a` followed by the words of `b`. With
/// `lemma_words_of_run` and `words(empty) == empty` this fixes the words of
/// every text.
pub proof fn lemma_words_at_separator(a: Seq<char>, c: char, b: Seq<char>)
    requires
        !alphabetic(c),
    ensures
        words(a.push(c) + b) == words(a) + words(b),
{
    lemma_split_at_separator(a, c, b);
    Seq::filter_distributes_over_add(split_pieces(a), split_pieces(b), non_empty());
}

/// An empty text has no words.
pub proof fn lemma_words_empty()
    ensures
        words(Seq::<char>::empty()).len() == 0,
{
    let empty = Seq::<Seq<char>>::empty();
    assert(split_pieces(Seq::<char>::empty()) =~= empty.push(Seq::<char>::empty()));
    empty.lemma_filter_push(Seq::<char>::empty(), non_empty());
    assert(empty.filter(non_empty()) =~= empty) by {
        reveal(Seq::filter);
    }
}

/// Splits `s` into its words: the maximal runs of alphabetic characters,
/// in order of appearance.
pub fn split_words(s: &str) -> (words_out: Vec<String>)
    ensures
        words_out.deep_view() == words(s@),
{
    broadcast use vstd::seq_lib::group_filter_ensures;

    let mut out: Vec<String> = Vec::new();
    let mut cur: String = String::new();
    let ghost mut done: Seq<Seq<char>> = Seq::empty();
    let ghost pred = non_empty();
    for c in it: s.chars()
        invariant
            split_pieces(s@.take(it.index() as int)) == done.push(cur@),
            out.deep_view() == done.filter(pred),
            it.seq() == s@,
            pred == non_empty(),
    {
        let ghost prefix = s@.take(it.index() as int);
        assert(s@.take(it.index() + 1).drop_last() == prefix);
        if is_alphabetic(c) {
            push_char(&mut cur, c);
        } else {
            let ghost piece = cur@;
            proof {
                done.lemma_filter_push(piece, pred);
            }
            if !cur.as_str().is_empty() {
                let ghost before = out.deep_view();
                out.push(cur);
                assert(out.deep_view() =~= before.push(piece));
            }
            proof {
                done = done.push(piece);
            }
            cur = String::new();
        }
    }
    proof {
        assert(s@.take(s@.len() as int) == s@);
        done.lemma_filter_push(cur@, pred);
    }
    if !cur.as_str().is_empty() {
        out.push(cur);
    }
    out
}

/// Breaks a text into lowercase tokens: the text is lowercased, split at
/// every non-alphabetic character, and empty pieces are dropped.
pub fn analyze(text: &str) -> (toks: Vec<String>)
    ensures
        toks.deep_view() == tokens(text@),
        forall|i: int| 0 <= i < toks.len() ==> #[trigger] toks[i]@.len() > 0,
        forall|i: int, j: int|
            0 <= i < toks.len() && 0 <= j < toks[i]@.len() ==> alphabetic(#[trigger] toks[i]@[j]),
{
    let lowered = to_lowercase(text);
    let toks = split_words(lowered.as_str());
    proof {
        lemma_words_are_alphabetic(lowercase(text@));
        assert forall|i: int| 0 <= i < toks.len() implies #[trigger] toks[i]@.len() > 0 by {
            assert(toks.deep_view()[i] == toks[i]@);
        }
        assert forall|i: int, j: int|
            0 <= i < toks.len() && 0 <= j < toks[i]@.len() implies alphabetic(
            #[trigger] toks[i]@[j],
        ) by {
            assert(toks.deep_view()[i] == toks[i]@);
        }
    }
    toks
}

} // verus!
