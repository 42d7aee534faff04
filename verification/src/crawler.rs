pub mod fetcher;
pub mod frontier;

use fetcher::{parse_url, parsed_url};
use frontier::{pushed_all, Frontier, FrontierView};
use vstd::prelude::*;

verus! {

/// What the crawl loop does next.
pub enum CrawlStep {
    /// Fetch the page at this address (a URL that parsed).
    Fetch(String),
    /// A URL was taken but does not parse: it counts towards the limit and
    /// yields nothing.
    Skip,
    /// Nothing to start: the limit is reached or no URL waits.
    Idle,
}

/// The decisions of a crawl: which URL to take next, and which links to
/// queue. At most `limit` URLs are taken, and no URL is taken twice.
pub struct CrawlState {
    frontier: Frontier,
    started: usize,
    limit: usize,
}

impl CrawlState {
    /// The frontier's state.
    pub closed spec fn frontier(&self) -> FrontierView {
        self.frontier@
    }

    /// How many URLs were taken.
    pub closed spec fn started(&self) -> nat {
        self.started as nat
    }

    /// How many URLs may be taken in all.
    pub closed spec fn limit(&self) -> nat {
        self.limit as nat
    }

    /// The taken URLs are exactly those handed out by the frontier, so
    /// none was taken twice, and there are at most `limit` of them.
    #[verifier::type_invariant]
    spec fn counts_taken(self) -> bool {
        &&& self.started <= self.limit
        &&& self.frontier@.handed_out().finite()
        &&& self.frontier@.handed_out().len() == self.started
    }

    /// A crawl from `seed` that takes at most `limit` URLs.
    pub fn new(seed: String, limit: usize) -> (state: Self)
        ensures
            state.frontier().queue == seq![seed@],
            state.frontier().seen == set![seed@],
            state.started() == 0,
            state.limit() == limit,
            state.frontier().handed_out().len() == 0,
    {
        let mut frontier = Frontier::new();
        frontier.push(seed);
        proof {
            assert(frontier@.handed_out() =~= Set::<Seq<char>>::empty());
            assert(frontier@.queue =~= seq![seed@]);
            assert(frontier@.seen =~= set![seed@]);
        }
        CrawlState { frontier, started: 0, limit }
    }

    /// Decides what to do next. While fewer than `limit` URLs were taken
    /// and one waits, the next one is taken: it is fetched when it parses
    /// as a URL and skipped otherwise. Else nothing is started.
    pub fn next_step(&mut self) -> (step: CrawlStep)
        ensures
            final(self).limit() == old(self).limit(),
            final(self).started() <= final(self).limit(),
            final(self).frontier().handed_out().len() == final(self).started(),
            if old(self).started() < old(self).limit() && old(self).frontier().queue.len() > 0 {
                let url = old(self).frontier().queue[0];
                &&& final(self).started() == old(self).started() + 1
                &&& final(self).frontier().queue == old(self).frontier().queue.drop_first()
                &&& final(self).frontier().seen == old(self).frontier().seen
                &&& !old(self).frontier().handed_out().contains(url)
                &&& final(self).frontier().handed_out() == old(self).frontier().handed_out().insert(
                    url,
                )
                &&& match step {
                    CrawlStep::Fetch(address) => parsed_url(url) == Some(address@),
                    CrawlStep::Skip => parsed_url(url) is None,
                    CrawlStep::Idle => false,
                }
            } else {
                &&& step is Idle
                &&& final(self).started() == old(self).started()
                &&& final(self).frontier() == old(self).frontier()
            },
    {
        proof {
            use_type_invariant(&*self);
        }
        if self.started >= self.limit {
            return CrawlStep::Idle;
        }
        let empty = Frontier::new();
        proof {
            assert(empty@.handed_out() =~= Set::<Seq<char>>::empty());
        }
        let mut this = CrawlState { frontier: empty, started: 0, limit: 0 };
        std::mem::swap(&mut this, self);
        let CrawlState { mut frontier, started, limit } = this;
        let step = match frontier.pop() {
            None => {
                *self = CrawlState { frontier, started, limit };
                CrawlStep::Idle
            },
            Some(url) => {
                *self = CrawlState { frontier, started: started + 1, limit };
                match parse_url(url.as_str()) {
                    Some(address) => CrawlStep::Fetch(address),
                    None => CrawlStep::Skip,
                }
            },
        };
        proof {
            use_type_invariant(&*self);
        }
        step
    }

    /// Offers the links found on a fetched page, in order, to the frontier.
    pub fn add_links(&mut self, links: Vec<String>)
        ensures
            final(self).frontier() == pushed_all(old(self).frontier(), links.deep_view()),
            final(self).started() == old(self).started(),
            final(self).limit() == old(self).limit(),
            final(self).frontier().handed_out().len() == final(self).started(),
    {
        proof {
            use_type_invariant(&*self);
        }
        let empty = Frontier::new();
        proof {
            assert(empty@.handed_out() =~= Set::<Seq<char>>::empty());
        }
        let mut this = CrawlState { frontier: empty, started: 0, limit: 0 };
        std::mem::swap(&mut this, self);
        let CrawlState { mut frontier, started, limit } = this;
        let ghost lv = links.deep_view();
        let n = links.len();
        assert(lv.take(0) =~= Seq::<Seq<char>>::empty());
        for i in 0..n
            invariant
                n == links@.len(),
                lv == links.deep_view(),
                frontier@ == pushed_all(old(self).frontier(), lv.take(i as int)),
                frontier@.handed_out() == old(self).frontier().handed_out(),
        {
            assert(lv.take(i + 1).drop_last() =~= lv.take(i as int));
            assert(lv[i as int] == links@[i as int]@);
            frontier.push(links[i].clone());
        }
        assert(lv.take(n as int) =~= lv);
        *self = CrawlState { frontier, started, limit };
        proof {
            use_type_invariant(&*self);
        }
    }
}

} // verus!
