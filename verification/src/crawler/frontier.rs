use crate::table::StringTable;
use std::collections::VecDeque;
use vstd::prelude::*;

verus! {

/// The abstract state of a frontier: the URLs waiting to be crawled, in
/// order, and every URL it has ever accepted.
pub struct FrontierView {
    pub queue: Seq<Seq<char>>,
    pub seen: Set<Seq<char>>,
}

impl FrontierView {
    /// The URLs that were accepted and have already been handed out.
    pub open spec fn handed_out(self) -> Set<Seq<char>> {
        self.seen.difference(self.queue.to_set())
    }

    /// The state after `url` is offered: it is queued and recorded unless it
    /// was accepted before.
    pub open spec fn pushed(self, url: Seq<char>) -> FrontierView {
        if self.seen.contains(url) {
            self
        } else {
            FrontierView { queue: self.queue.push(url), seen: self.seen.insert(url) }
        }
    }

    /// A waiting URL is waiting once, and every waiting URL was accepted.
    pub open spec fn valid(self) -> bool {
        &&& self.seen.finite()
        &&& self.queue.no_duplicates()
        &&& self.queue.to_set().subset_of(self.seen)
    }
}

/// The state after each of `urls`, in order, is offered.
pub open spec fn pushed_all(view: FrontierView, urls: Seq<Seq<char>>) -> FrontierView
    decreases urls.len(),
{
    if urls.len() == 0 {
        view
    } else {
        pushed_all(view, urls.drop_last()).pushed(urls.last())
    }
}

/// The distinct values of `urls`, each where it first occurs, in order.
pub open spec fn first_occurrences(urls: Seq<Seq<char>>) -> Seq<Seq<char>>
    decreases urls.len(),
{
    if urls.len() == 0 {
        Seq::empty()
    } else {
        let before = first_occurrences(urls.drop_last());
        if before.contains(urls.last()) {
            before
        } else {
            before.push(urls.last())
        }
    }
}

/// Offering URLs one after another to an empty frontier queues each
/// distinct URL once, in order of first occurrence, and accepts exactly the
/// URLs offered; popping then hands them out in that order.
pub proof fn lemma_pushes_from_empty(urls: Seq<Seq<char>>)
    ensures
        pushed_all(FrontierView { queue: Seq::empty(), seen: Set::empty() }, urls).queue
            == first_occurrences(urls),
        pushed_all(FrontierView { queue: Seq::empty(), seen: Set::empty() }, urls).seen
            == urls.to_set(),
        first_occurrences(urls).to_set() == urls.to_set(),
    decreases urls.len(),
{
    let empty = FrontierView { queue: Seq::<Seq<char>>::empty(), seen: Set::<Seq<char>>::empty() };
    if urls.len() == 0 {
        assert(urls.to_set() =~= Set::<Seq<char>>::empty());
        assert(first_occurrences(urls).to_set() =~= Set::<Seq<char>>::empty());
    } else {
        let rest = urls.drop_last();
        let last = urls.last();
        lemma_pushes_from_empty(rest);
        assert(urls =~= rest.push(last));
        rest.lemma_push_to_set_commute(last);
        let before = first_occurrences(rest);
        assert(before.to_set().contains(last) == before.contains(last));
        if !before.contains(last) {
            before.lemma_push_to_set_commute(last);
        } else {
            assert(rest.to_set().insert(last) =~= rest.to_set());
        }
    }
}

/// A value occurs among the first occurrences of `urls` exactly when it
/// occurs in `urls`, and no value occurs there twice.
pub proof fn lemma_first_occurrences(urls: Seq<Seq<char>>)
    ensures
        first_occurrences(urls).to_set() == urls.to_set(),
        first_occurrences(urls).no_duplicates(),
    decreases urls.len(),
{
    if urls.len() == 0 {
        assert(urls.to_set() =~= Set::<Seq<char>>::empty());
        assert(first_occurrences(urls).to_set() =~= Set::<Seq<char>>::empty());
    } else {
        let rest = urls.drop_last();
        let last = urls.last();
        lemma_first_occurrences(rest);
        assert(urls =~= rest.push(last));
        rest.lemma_push_to_set_commute(last);
        let before = first_occurrences(rest);
        assert(before.to_set().contains(last) == before.contains(last));
        if !before.contains(last) {
            before.lemma_push_to_set_commute(last);
            assert forall|i: int, j: int|
                0 <= i < j < before.push(last).len() implies before.push(last)[i] != before.push(
                last,
            )[j] by {
                if j == before.len() {
                    assert(before.contains(before[i]));
                }
            }
        } else {
            assert(rest.to_set().insert(last) =~= rest.to_set());
        }
    }
}

/// Offering URLs one after another to any valid frontier appends, at the
/// back of the queue and in order of first occurrence, each offered URL
/// that the frontier had not accepted before; the URLs already waiting keep
/// their places, and every offered URL is then accepted.
pub proof fn lemma_pushed_all(view: FrontierView, urls: Seq<Seq<char>>)
    requires
        view.valid(),
    ensures
        pushed_all(view, urls).queue == view.queue + first_occurrences(
            urls.filter(|u: Seq<char>| !view.seen.contains(u)),
        ),
        pushed_all(view, urls).seen == view.seen + urls.to_set(),
    decreases urls.len(),
{
    let fresh = |u: Seq<char>| !view.seen.contains(u);
    if urls.len() == 0 {
        assert(urls.filter(fresh) =~= urls) by {
            reveal(Seq::filter);
        }
        assert(urls.to_set() =~= Set::<Seq<char>>::empty());
        assert(view.queue + first_occurrences(urls.filter(fresh)) =~= view.queue);
        assert(view.seen + urls.to_set() =~= view.seen);
    } else {
        let rest = urls.drop_last();
        let u = urls.last();
        lemma_pushed_all(view, rest);
        assert(urls =~= rest.push(u));
        rest.lemma_filter_push(u, fresh);
        rest.lemma_push_to_set_commute(u);
        let mid = pushed_all(view, rest);
        let fr = rest.filter(fresh);
        lemma_first_occurrences(fr);
        let fo = first_occurrences(fr);
        if mid.seen.contains(u) {
            if fresh(u) {
                assert(rest.to_set().contains(u));
                let k = choose|k: int| 0 <= k < rest.len() && rest[k] == u;
                rest.lemma_filter_contains(fresh, k);
                assert(fr.to_set().contains(u));
                assert(fo.to_set().contains(u));
                assert(fr.push(u).drop_last() =~= fr);
            }
            assert(mid.seen.insert(u) =~= mid.seen);
            assert(view.seen + urls.to_set() =~= mid.seen);
        } else {
            assert(fresh(u));
            assert(!fr.to_set().contains(u)) by {
                if fr.contains(u) {
                    rest.lemma_filter_contains_rev(fresh, u);
                    assert(rest.to_set().contains(u));
                }
            }
            assert(!fo.contains(u)) by {
                if fo.contains(u) {
                    let k = choose|k: int| 0 <= k < fo.len() && fo[k] == u;
                    assert(fo.to_set().contains(u));
                }
            }
            assert(fr.push(u).drop_last() =~= fr);
            assert(first_occurrences(fr.push(u)) == fo.push(u));
            assert((view.queue + fo).push(u) =~= view.queue + fo.push(u));
            assert(view.seen + urls.to_set() =~= mid.seen.insert(u));
        }
    }
}

/// A first-in first-out queue of URLs that accepts every URL at most once
/// over its whole life.
pub struct Frontier {
    queue: VecDeque<String>,
    /// Every URL ever accepted, each once.
    seen: StringTable,
}

impl View for Frontier {
    type V = FrontierView;

    closed spec fn view(&self) -> FrontierView {
        FrontierView { queue: self.queue.deep_view(), seen: self.seen@.to_set() }
    }
}

impl Frontier {
    /// The state is always valid.
    #[verifier::type_invariant]
    spec fn valid_state(self) -> bool {
        self@.valid()
    }

    /// An empty frontier.
    pub fn new() -> (f: Self)
        ensures
            f@.valid(),
            f@.queue == Seq::<Seq<char>>::empty(),
            f@.seen == Set::<Seq<char>>::empty(),
    {
        let f = Frontier { queue: VecDeque::new(), seen: StringTable::new() };
        assert(f.queue.deep_view() =~= Seq::<Seq<char>>::empty());
        assert(f@.seen =~= Set::<Seq<char>>::empty());
        f
    }

    /// Whether the URL was ever accepted.
    fn has_seen(&self, url: &String) -> (b: bool)
        ensures
            b == self@.seen.contains(url@),
    {
        self.seen.find(url).is_some()
    }

    /// Queues the URL unless it was accepted before; a URL seen before
    /// leaves the frontier unchanged.
    pub fn push(&mut self, url: String)
        ensures
            final(self)@.valid(),
            final(self)@ == old(self)@.pushed(url@),
            old(self)@.seen.contains(url@) ==> final(self)@ == old(self)@,
            !old(self)@.seen.contains(url@) ==> final(self)@.queue == old(self)@.queue.push(url@)
                && final(self)@.seen == old(self)@.seen.insert(url@),
            final(self)@.handed_out() == old(self)@.handed_out(),
    {
        proof {
            use_type_invariant(&*self);
        }
        if !self.has_seen(&url) {
            let mut this = Frontier::new();
            std::mem::swap(&mut this, self);
            let Frontier { mut queue, mut seen } = this;
            let ghost old_seen = seen@;
            let ghost old_queue = queue.deep_view();
            let ghost u = url@;
            seen.push(url.clone());
            queue.push_back(url);
            proof {
                assert(queue.deep_view() =~= old_queue.push(u));
                assert(!old_queue.contains(u));
                old_seen.lemma_push_to_set_commute(u);
                old_queue.lemma_push_to_set_commute(u);
                let after = FrontierView { queue: queue.deep_view(), seen: seen@.to_set() };
                assert(after.handed_out() =~= old(self)@.handed_out());
            }
            *self = Frontier { queue, seen };
        }
    }

    /// Takes the URL that has waited longest, or `None` when nothing waits.
    /// A URL handed out is never handed out again.
    pub fn pop(&mut self) -> (url: Option<String>)
        ensures
            final(self)@.valid(),
            final(self)@.seen == old(self)@.seen,
            match url {
                Some(u) => {
                    &&& old(self)@.queue.len() > 0
                    &&& u@ == old(self)@.queue[0]
                    &&& old(self)@.seen.contains(u@)
                    &&& final(self)@.queue == old(self)@.queue.drop_first()
                    &&& !old(self)@.handed_out().contains(u@)
                    &&& final(self)@.handed_out() == old(self)@.handed_out().insert(u@)
                },
                None => {
                    &&& old(self)@.queue.len() == 0
                    &&& final(self)@ == old(self)@
                },
            },
    {
        proof {
            use_type_invariant(&*self);
        }
        let mut this = Frontier::new();
        std::mem::swap(&mut this, self);
        let Frontier { mut queue, seen } = this;
        let ghost old_queue = queue.deep_view();
        let url = queue.pop_front();
        proof {
            match &url {
                Some(u) => {
                    assert(queue.deep_view() =~= old_queue.drop_first());
                    assert(old_queue[0] == u@);
                    assert(old_queue.to_set().contains(u@));
                    assert(!queue.deep_view().contains(u@));
                    let rest = queue.deep_view();
                    assert forall|x: Seq<char>|
                        rest.to_set().contains(x) <==> old_queue.to_set().remove(u@).contains(x) by {
                        if rest.contains(x) {
                            let k = choose|k: int| 0 <= k < rest.len() && rest[k] == x;
                            assert(old_queue[k + 1] == x);
                        }
                        if old_queue.contains(x) && x != u@ {
                            let k = choose|k: int| 0 <= k < old_queue.len() && old_queue[k] == x;
                            assert(rest[k - 1] == x);
                        }
                    }
                    assert(rest.to_set() =~= old_queue.to_set().remove(u@));
                    let after = FrontierView { queue: queue.deep_view(), seen: seen@.to_set() };
                    assert(after.handed_out() =~= old(self)@.handed_out().insert(u@));
                },
                None => {
                    assert(queue.deep_view() =~= old_queue);
                },
            }
        }
        *self = Frontier { queue, seen };
        url
    }
}

impl Default for Frontier {
    fn default() -> (f: Self)
        ensures
            f@.valid(),
            f@.queue == Seq::<Seq<char>>::empty(),
            f@.seen == Set::<Seq<char>>::empty(),
    {
        Self::new()
    }
}

} // verus!
