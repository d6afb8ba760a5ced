//! The crawl driver: which page is fetched next, and what a fetched page adds to the crawl.
//!
//! The driver fetches nothing itself. It hands out the URL of the next page, and is told what
//! came back; whoever runs it does the fetching in between.

use vstd::prelude::*;
use crate::config::CrawlConfig;
use crate::error::CrawlError;
use crate::extract::{
    extract, lemma_page_counts_accepted, page_counts, page_links, page_view, Element, ElementView,
};
use crate::frequency::{
    count_of, lemma_merged_grows, lemma_merged_valid, merged, valid_counts, Counts, WordFrequency,
};
use crate::link::{absolute_url, follows_from, host_of, in_scope, parse_url, url_host};
use crate::index::TextIndex;
use crate::text::{lemma_contains_push, no_capitals, opt_view, views};
use crate::words::{accepted, CommonWords};

verus! {

/// A page that is to be fetched: its URL, and how many links lead to it from the seed.
#[derive(Debug)]
pub struct Target {
    pub url: String,
    pub depth: u64,
}

/// A target as plain values.
#[verifier::ext_equal]
pub struct TargetView {
    pub url: Seq<char>,
    pub depth: nat,
}

impl Target {
    /// The target as plain values.
    pub open spec fn view(&self) -> TargetView {
        TargetView { url: self.url@, depth: self.depth as nat }
    }
}

/// The views of a list of targets.
pub open spec fn target_views(ts: Seq<Target>) -> Seq<TargetView> {
    Seq::new(ts.len(), |i: int| ts[i]@)
}

/// The view of a target that may be missing.
pub open spec fn opt_target(t: Option<Target>) -> Option<TargetView> {
    match t {
        Some(t) => Some(t@),
        None => None,
    }
}

/// The state of a crawl as plain values.
#[verifier::ext_equal]
pub struct CrawlView {
    /// How deep a page may lie and still have its links followed.
    pub max_depth: nat,
    /// Whether links to other sites are followed.
    pub follow_offsite: bool,
    /// The least length of a counted word.
    pub min_length: nat,
    /// The words that are too common to be counted.
    pub common: Set<Seq<char>>,
    /// The URLs that were handed out for fetching, in that order.
    pub visited: Seq<Seq<char>>,
    /// The pages still to look at; the last one comes next.
    pub pending: Seq<TargetView>,
    /// The page that was handed out and whose outcome is awaited.
    pub current: Option<TargetView>,
    /// The words counted so far.
    pub counts: Counts,
    /// Why the seed could not be fetched, where it could not.
    pub failure: Option<Seq<char>>,
}

/// The state in which a crawl from `seed` begins.
pub open spec fn start_view(
    seed: Seq<char>,
    max_depth: nat,
    follow_offsite: bool,
    min_length: nat,
    common: Set<Seq<char>>,
) -> CrawlView {
    CrawlView {
        max_depth,
        follow_offsite,
        min_length,
        common,
        visited: Seq::empty(),
        pending: seq![TargetView { url: seed, depth: 0 }],
        current: None,
        counts: Map::empty(),
        failure: None,
    }
}

/// The state after the next page to fetch was picked: pending pages whose URL was handed out
/// before are passed over, and the first other one becomes the current page and is marked as
/// visited. Without such a page nothing is current.
pub open spec fn next_view(v: CrawlView) -> CrawlView
    decreases v.pending.len(),
{
    if v.pending.len() == 0 {
        CrawlView { current: None, ..v }
    } else {
        let t = v.pending.last();
        let rest = v.pending.drop_last();
        if v.visited.contains(t.url) {
            next_view(CrawlView { pending: rest, ..v })
        } else {
            CrawlView { visited: v.visited.push(t.url), pending: rest, current: Some(t), ..v }
        }
    }
}

/// The links of a page that are followed, in the order in which they stand on the page, each
/// as a target at `depth`.
pub open spec fn scheduled(
    links: Seq<Seq<char>>,
    page: Seq<char>,
    follow_offsite: bool,
    depth: nat,
) -> Seq<TargetView>
    decreases links.len(),
{
    if links.len() == 0 {
        Seq::empty()
    } else {
        let rest = scheduled(links.drop_first(), page, follow_offsite, depth);
        if in_scope(follow_offsite, page, links[0]) {
            seq![TargetView { url: links[0], depth }] + rest
        } else {
            rest
        }
    }
}

/// The scope rule decides what is scheduled: every scheduled target is a link of the page that
/// is in scope, at the depth asked for, and every link of the page that is in scope is
/// scheduled. With `follow_offsite` every link is scheduled; without it, a link to another
/// host than the page's never is, nor a link without a host.
pub proof fn lemma_scheduled(
    links: Seq<Seq<char>>,
    page: Seq<char>,
    follow_offsite: bool,
    depth: nat,
)
    ensures
        forall|i: int|
            0 <= i < scheduled(links, page, follow_offsite, depth).len() ==> {
                let t = #[trigger] scheduled(links, page, follow_offsite, depth)[i];
                &&& t.depth == depth
                &&& links.contains(t.url)
                &&& in_scope(follow_offsite, page, t.url)
                &&& !follow_offsite ==> url_host(t.url) is Some && url_host(t.url) == url_host(page)
            },
        forall|k: int|
            0 <= k < links.len() && in_scope(follow_offsite, page, #[trigger] links[k])
                ==> scheduled(links, page, follow_offsite, depth).contains(
                TargetView { url: links[k], depth },
            ),
        follow_offsite ==> scheduled(links, page, follow_offsite, depth).len() == links.len(),
    decreases links.len(),
{
    if links.len() > 0 {
        let tail = links.drop_first();
        let rest = scheduled(tail, page, follow_offsite, depth);
        let all = scheduled(links, page, follow_offsite, depth);
        let first = TargetView { url: links[0], depth };
        lemma_scheduled(tail, page, follow_offsite, depth);
        let kept = in_scope(follow_offsite, page, links[0]);
        assert forall|i: int| 0 <= i < all.len() implies {
            let t = #[trigger] all[i];
            &&& t.depth == depth
            &&& links.contains(t.url)
            &&& in_scope(follow_offsite, page, t.url)
            &&& !follow_offsite ==> url_host(t.url) is Some && url_host(t.url) == url_host(page)
        } by {
            let t = all[i];
            if kept && i == 0 {
                assert(t == first);
                assert(links[0] == t.url);
            } else {
                let j = if kept {
                    i - 1
                } else {
                    i
                };
                assert(t == rest[j]);
                assert(tail.contains(t.url));
                let m = choose|m: int| 0 <= m < tail.len() && tail[m] == t.url;
                assert(links[m + 1] == t.url);
            }
        }
        assert forall|k: int|
            0 <= k < links.len() && in_scope(follow_offsite, page, #[trigger] links[k]) implies all.contains(
            TargetView { url: links[k], depth },
        ) by {
            if k == 0 {
                assert(all[0] == first);
            } else {
                assert(tail[k - 1] == links[k]);
                let want = TargetView { url: links[k], depth };
                assert(rest.contains(want));
                let m = choose|m: int| 0 <= m < rest.len() && rest[m] == want;
                if kept {
                    assert(all[m + 1] == want);
                } else {
                    assert(all[m] == want);
                }
            }
        }
    }
}

/// The state after the current page came back as `page`: its words are added to the counts,
/// and where the page is not deeper than `max_depth`, its links that are in scope are put on
/// top of the pending pages, the first link uppermost. Without a current page nothing changes.
pub open spec fn recorded_view(v: CrawlView, page: Seq<ElementView>) -> CrawlView {
    match v.current {
        None => v,
        Some(t) => CrawlView {
            pending: if t.depth <= v.max_depth {
                v.pending + scheduled(
                    page_links(page, t.url),
                    t.url,
                    v.follow_offsite,
                    t.depth + 1,
                ).reverse()
            } else {
                v.pending
            },
            current: None,
            counts: merged(v.counts, page_counts(page, v.min_length, v.common)),
            ..v
        },
    }
}

/// The state after the fetch of the current page failed for `reason`: the page adds nothing.
/// Where the page is the seed, which alone lies at depth 0, the crawl as a whole has failed.
pub open spec fn failed_view(v: CrawlView, reason: Seq<char>) -> CrawlView {
    CrawlView {
        current: None,
        failure: if v.current matches Some(t) && t.depth == 0 {
            Some(reason)
        } else {
            v.failure
        },
        ..v
    }
}

/// What holds of every state of a crawl: no URL was handed out twice, no page lies deeper than
/// one link below `max_depth`, the current page is marked as visited, the counts are valid, and
/// every counted word meets the token policy and is in lowercase.
pub open spec fn valid_view(v: CrawlView) -> bool {
    &&& v.visited.no_duplicates()
    &&& forall|i: int| 0 <= i < v.pending.len() ==> (#[trigger] v.pending[i]).depth <= v.max_depth + 1
    &&& v.current matches Some(t) ==> t.depth <= v.max_depth + 1 && v.visited.contains(t.url)
    &&& valid_counts(v.counts)
    &&& forall|w: Seq<char>| #[trigger]
        v.counts.dom().contains(w) ==> accepted(w, v.min_length, v.common) && no_capitals(w)
}

/// One crawl from a seed URL.
pub struct Crawl {
    max_depth: u32,
    follow_offsite: bool,
    min_length: usize,
    common: CommonWords,
    visited: TextIndex,
    pending: Vec<Target>,
    current: Option<Target>,
    counts: WordFrequency,
    failure: Option<String>,
}

impl Crawl {
    /// The state of the crawl as plain values.
    pub closed spec fn view(&self) -> CrawlView {
        CrawlView {
            max_depth: self.max_depth as nat,
            follow_offsite: self.follow_offsite,
            min_length: self.min_length as nat,
            common: self.common@,
            visited: self.visited@,
            pending: target_views(self.pending@),
            current: opt_target(self.current),
            counts: self.counts@,
            failure: opt_view(self.failure),
        }
    }

    /// The state is a valid one, and the table of counts is well formed.
    pub closed spec fn wf(&self) -> bool {
        &&& self.counts.wf()
        &&& self.visited.wf()
        &&& self.common.wf()
        &&& valid_view(self@)
    }

    /// A well-formed crawl is in a valid state.
    pub proof fn lemma_valid(&self)
        requires
            self.wf(),
        ensures
            valid_view(self@),
    {
    }

    /// Begins a crawl at `seed`, with `common` as the words that are not counted. The seed has
    /// to be an absolute URL.
    pub fn start(seed: &str, config: &CrawlConfig, common: CommonWords) -> (r: Result<
        Crawl,
        CrawlError,
    >)
        requires
            common.wf(),
        ensures
            match absolute_url(seed@) {
                Some(url) => r matches Ok(crawl) && crawl.wf() && crawl@ == start_view(
                    url,
                    config.max_depth as nat,
                    config.follow_offsite,
                    config.min_length as nat,
                    common@,
                ),
                None => r matches Err(CrawlError::InvalidUrl(text)) && text@ == seed@,
            },
    {
        match parse_url(seed) {
            Some(url) => {
                let mut pending: Vec<Target> = Vec::new();
                pending.push(Target { url, depth: 0 });
                let crawl = Crawl {
                    max_depth: config.max_depth,
                    follow_offsite: config.follow_offsite,
                    min_length: config.min_length,
                    common,
                    visited: TextIndex::new(),
                    pending,
                    current: None,
                    counts: WordFrequency::new(),
                    failure: None,
                };
                proof {
                    assert(crawl@.pending =~= seq![TargetView { url: url@, depth: 0 }]);
                    assert(crawl@.visited =~= Seq::<Seq<char>>::empty());
                }
                Ok(crawl)
            },
            None => Err(CrawlError::InvalidUrl(seed.to_owned())),
        }
    }

    /// Picks the page to fetch next and hands out its URL; `None` when the crawl is over.
    /// A URL that was handed out before is never handed out again.
    pub fn next_url(&mut self) -> (r: Option<String>)
        requires
            old(self).wf(),
        ensures
            final(self).wf(),
            final(self)@ == next_view(old(self)@),
            match r {
                Some(url) => {
                    &&& final(self)@.current matches Some(t) && t.url == url@
                    &&& !old(self)@.visited.contains(url@)
                    &&& final(self)@.visited == old(self)@.visited.push(url@)
                },
                None => {
                    &&& final(self)@.current is None
                    &&& final(self)@.pending.len() == 0
                    &&& final(self)@.visited == old(self)@.visited
                },
            },
    {
        let ghost start = self@;
        proof {
            lemma_next_view(start);
        }
        loop
            invariant
                self.wf(),
                start == old(self)@,
                next_view(self@) == next_view(start),
                match next_view(start).current {
                    Some(t) => !start.visited.contains(t.url) && next_view(start).visited
                        == start.visited.push(t.url),
                    None => next_view(start).visited == start.visited && next_view(
                        start,
                    ).pending.len() == 0,
                },
            decreases self.pending@.len(),
        {
            let ghost before = self@;
            match self.pending.pop() {
                None => {
                    self.current = None;
                    proof {
                        assert(before.pending.len() == 0);
                        assert(self@ =~= next_view(before));
                    }
                    return None;
                },
                Some(t) => {
                    proof {
                        assert(target_views(self.pending@) =~= before.pending.drop_last());
                        assert(before.pending[before.pending.len() - 1] == t@);
                    }
                    if !self.visited.contains(&t.url) {
                        let url = t.url.clone();
                        let ghost seen = self.visited@;
                        self.visited.push(t.url.clone());
                        self.current = Some(t);
                        proof {
                            self.visited.lemma_distinct();
                            assert(self.visited@[seen.len() as int] == url@);
                            assert(self@ =~= next_view(before));
                        }
                        return Some(url);
                    }
                    proof {
                        assert(self@ =~= CrawlView {
                            pending: before.pending.drop_last(),
                            ..before
                        });
                    }
                },
            }
        }
    }

    /// Takes in the page that came back for the current URL: counts its words, and schedules
    /// its links where the page is not too deep.
    pub fn record_page(&mut self, page: &Vec<Element>)
        requires
            old(self).wf(),
        ensures
            final(self).wf(),
            final(self)@ == recorded_view(old(self)@, page_view(page@)),
    {
        let ghost before = self@;
        let t = match self.current.take() {
            Some(t) => t,
            None => {
                assert(self@ =~= before);
                return ;
            },
        };
        let (table, mut links) = extract(page, t.url.as_str(), self.min_length, &self.common);
        self.counts.merge(&table);
        if t.depth <= self.max_depth as u64 {
            let here = host_of(t.url.as_str());
            let depth = t.depth + 1;
            let ghost all = views(links@);
            proof {
                assert(all.skip(all.len() as int) =~= Seq::<Seq<char>>::empty());
                assert(before.pending + Seq::<TargetView>::empty().reverse() =~= before.pending);
            }
            loop
                invariant_except_break
                    links@.len() <= all.len(),
                    views(links@) == all.take(links@.len() as int),
                invariant
                    opt_view(here) == url_host(t.url@),
                    self.counts.wf(),
                    self.visited@ == before.visited,
                    self.visited.wf(),
                    self.current is None,
                    self.max_depth == before.max_depth,
                    self.follow_offsite == before.follow_offsite,
                    self.min_length == before.min_length,
                    self.common@ == before.common,
                    self.common.wf(),
                    opt_view(self.failure) == before.failure,
                    self.counts@ == merged(before.counts, table@),
                    target_views(self.pending@) == before.pending + scheduled(
                        all.skip(links@.len() as int),
                        t.url@,
                        self.follow_offsite,
                        depth as nat,
                    ).reverse(),
                ensures
                    target_views(self.pending@) == before.pending + scheduled(
                        all,
                        t.url@,
                        self.follow_offsite,
                        depth as nat,
                    ).reverse(),
                decreases links@.len(),
            {
                let ghost k = links@.len() as int;
                let ghost done = scheduled(all.skip(k), t.url@, self.follow_offsite, depth as nat);
                let ghost stack = target_views(self.pending@);
                let ghost held = links@;
                match links.pop() {
                    None => {
                        assert(all.skip(0) =~= all);
                        break ;
                    },
                    Some(link) => {
                        proof {
                            assert(views(links@) =~= all.take(k - 1));
                            assert(views(held)[k - 1] == held[k - 1]@);
                            assert(link@ == all[k - 1]);
                            assert(all.skip(k - 1).drop_first() =~= all.skip(k));
                            assert(all.skip(k - 1)[0] == link@);
                        }
                        if follows_from(self.follow_offsite, &here, link.as_str()) {
                            let ghost item = TargetView { url: link@, depth: depth as nat };
                            self.pending.push(Target { url: link, depth });
                            proof {
                                assert(target_views(self.pending@) =~= stack.push(item));
                                assert((seq![item] + done).reverse() =~= done.reverse().push(item));
                                assert(stack.push(item) =~= before.pending + (seq![item]
                                    + done).reverse());
                            }
                        }
                    },
                }
            }
        }
        proof {
            assert(self@ =~= recorded_view(before, page_view(page@)));
            lemma_outcome_view(before, OutcomeView::Page(page_view(page@)));
        }
    }

    /// Notes that the fetch of the current URL failed for `reason`. The page adds nothing to
    /// the crawl, and the crawl goes on; only where the seed itself could not be fetched has the
    /// crawl as a whole failed.
    pub fn record_failure(&mut self, reason: String)
        requires
            old(self).wf(),
        ensures
            final(self).wf(),
            final(self)@ == failed_view(old(self)@, reason@),
    {
        let ghost before = self@;
        match self.current.take() {
            Some(t) => {
                if t.depth == 0 {
                    self.failure = Some(reason);
                }
            },
            None => {},
        }
        assert(self@ =~= failed_view(before, reason@));
    }

    /// The words counted so far.
    pub fn counts(&self) -> (table: &WordFrequency)
        requires
            self.wf(),
        ensures
            table.wf(),
            table@ == self@.counts,
    {
        &self.counts
    }

    /// The page that was handed out last and whose outcome is awaited.
    pub fn current(&self) -> (t: Option<&Target>)
        ensures
            match t {
                Some(t) => self@.current == Some(t@),
                None => self@.current is None,
            },
    {
        self.current.as_ref()
    }

    /// How many pages are waiting to be looked at.
    pub fn pending_len(&self) -> (n: usize)
        ensures
            n == self@.pending.len(),
    {
        self.pending.len()
    }

    /// How many URLs were handed out for fetching.
    pub fn visited_len(&self) -> (n: usize)
        ensures
            n == self@.visited.len(),
    {
        self.visited.len()
    }

    /// Whether `url` was handed out for fetching.
    pub fn has_visited(&self, url: &String) -> (r: bool)
        requires
            self.wf(),
        ensures
            r == self@.visited.contains(url@),
    {
        self.visited.contains(url)
    }

    /// Ends the crawl and hands over the counts, or the reason for which the seed could not be
    /// fetched.
    pub fn finish(self) -> (r: Result<WordFrequency, CrawlError>)
        requires
            self.wf(),
        ensures
            match self@.failure {
                Some(reason) => r matches Err(CrawlError::FetchError(text)) && text@ == reason,
                None => r matches Ok(table) && table.wf() && table@ == self@.counts,
            },
    {
        match self.failure {
            Some(reason) => Err(CrawlError::FetchError(reason)),
            None => Ok(self.counts),
        }
    }
}

/// What came back for a page that was asked for.
pub enum OutcomeView {
    /// The page, as its content elements.
    Page(Seq<ElementView>),
    /// Nothing: the fetch failed, for the reason given.
    Failure(Seq<char>),
}

/// The state after the outcome of the current fetch was taken in.
pub open spec fn outcome_view(v: CrawlView, outcome: OutcomeView) -> CrawlView {
    match outcome {
        OutcomeView::Page(page) => recorded_view(v, page),
        OutcomeView::Failure(reason) => failed_view(v, reason),
    }
}

/// The state of a crawl that began in `v` after its fetches came back with `outcomes`, one
/// after the other. Once no page is left to fetch the crawl is over, and further outcomes
/// change nothing.
pub open spec fn run_view(v: CrawlView, outcomes: Seq<OutcomeView>) -> CrawlView
    decreases outcomes.len(),
{
    if outcomes.len() == 0 {
        v
    } else {
        let picked = next_view(run_view(v, outcomes.drop_last()));
        if picked.current is None {
            picked
        } else {
            outcome_view(picked, outcomes.last())
        }
    }
}

/// Picking the next page keeps a valid state valid. It either marks one URL as visited that
/// was not visited before, and makes it current, or it leaves the visited URLs as they are,
/// and then no page is pending any more.
pub proof fn lemma_next_view(v: CrawlView)
    requires
        valid_view(v),
    ensures
        valid_view(next_view(v)),
        next_view(v).counts == v.counts,
        match next_view(v).current {
            Some(t) => !v.visited.contains(t.url) && next_view(v).visited == v.visited.push(t.url),
            None => next_view(v).visited == v.visited && next_view(v).pending.len() == 0,
        },
    decreases v.pending.len(),
{
    if v.pending.len() > 0 {
        let t = v.pending.last();
        let rest = v.pending.drop_last();
        if v.visited.contains(t.url) {
            lemma_next_view(CrawlView { pending: rest, ..v });
        } else {
            let seen = v.visited.push(t.url);
            assert(seen[v.visited.len() as int] == t.url);
            assert(seen.no_duplicates()) by {
                assert forall|i: int, j: int|
                    0 <= i < seen.len() && 0 <= j < seen.len() && i != j implies seen[i]
                    != seen[j] by {
                    if i < v.visited.len() && j < v.visited.len() {
                        assert(v.visited[i] != v.visited[j]);
                    } else if i < v.visited.len() {
                        assert(v.visited.contains(seen[i]));
                    } else {
                        assert(v.visited.contains(seen[j]));
                    }
                }
            }
        }
    }
}

/// Taking in an outcome keeps a valid state valid and leaves the visited URLs as they are.
pub proof fn lemma_outcome_view(v: CrawlView, outcome: OutcomeView)
    requires
        valid_view(v),
    ensures
        valid_view(outcome_view(v, outcome)),
        outcome_view(v, outcome).visited == v.visited,
        outcome_view(v, outcome).current is None,
{
    match outcome {
        OutcomeView::Failure(reason) => {},
        OutcomeView::Page(page) => {
            match v.current {
                None => {},
                Some(t) => {
                    let w = recorded_view(v, page);
                    lemma_page_counts_accepted(page, v.min_length, v.common);
                    lemma_merged_valid(v.counts, page_counts(page, v.min_length, v.common));
                    if t.depth <= v.max_depth {
                        let found = page_links(page, t.url);
                        let added = scheduled(found, t.url, v.follow_offsite, t.depth + 1);
                        lemma_scheduled(found, t.url, v.follow_offsite, t.depth + 1);
                        assert forall|i: int| 0 <= i < w.pending.len() implies (
                        #[trigger] w.pending[i]).depth <= w.max_depth + 1 by {
                            if i < v.pending.len() {
                                assert(w.pending[i] == v.pending[i]);
                            } else {
                                let j = i - v.pending.len();
                                assert(w.pending[i] == added.reverse()[j]);
                                assert(added.reverse()[j] == added[added.len() - 1 - j]);
                            }
                        }
                    }
                },
            }
        },
    }
}

/// Every state that a crawl passes through is valid: whatever comes back, no URL is handed
/// out twice, and no page is looked at that lies deeper than one link below `max_depth`.
pub proof fn lemma_run_valid(v: CrawlView, outcomes: Seq<OutcomeView>)
    requires
        valid_view(v),
    ensures
        valid_view(run_view(v, outcomes)),
        valid_view(next_view(run_view(v, outcomes))),
    decreases outcomes.len(),
{
    if outcomes.len() > 0 {
        lemma_run_valid(v, outcomes.drop_last());
        let picked = next_view(run_view(v, outcomes.drop_last()));
        if picked.current is Some {
            lemma_outcome_view(picked, outcomes.last());
        }
    }
    lemma_next_view(run_view(v, outcomes));
}

/// While a crawl goes on, each outcome belongs to one more visited URL: where a page is still
/// handed out after `outcomes`, the URLs visited by then are one more than there were at the
/// start and outcomes since.
pub proof fn lemma_run_visits(v: CrawlView, outcomes: Seq<OutcomeView>)
    requires
        valid_view(v),
    ensures
        next_view(run_view(v, outcomes)).current is Some ==> next_view(
            run_view(v, outcomes),
        ).visited.len() == v.visited.len() + outcomes.len() + 1,
    decreases outcomes.len(),
{
    lemma_run_valid(v, outcomes);
    lemma_next_view(run_view(v, outcomes));
    if outcomes.len() > 0 {
        let front = outcomes.drop_last();
        lemma_run_visits(v, front);
        lemma_run_valid(v, front);
        let picked = next_view(run_view(v, front));
        lemma_next_view(run_view(v, front));
        if picked.current is Some {
            lemma_outcome_view(picked, outcomes.last());
        } else {
            lemma_next_view(picked);
            assert(next_view(picked).current is None);
        }
    }
}

/// What is fixed at the start of a crawl stays fixed: whatever comes back, the depth limit, the
/// scope, the least word length and the common words are those the crawl began with.
pub proof fn lemma_run_keeps_settings(v: CrawlView, outcomes: Seq<OutcomeView>)
    ensures
        run_view(v, outcomes).max_depth == v.max_depth,
        run_view(v, outcomes).follow_offsite == v.follow_offsite,
        run_view(v, outcomes).min_length == v.min_length,
        run_view(v, outcomes).common == v.common,
    decreases outcomes.len(),
{
    if outcomes.len() > 0 {
        lemma_run_keeps_settings(v, outcomes.drop_last());
        lemma_next_keeps(run_view(v, outcomes.drop_last()));
    }
}

/// Picking the next page changes neither the settings nor the counts, hands out only a page
/// that was pending, and leaves pending only what was pending before.
pub proof fn lemma_next_keeps(v: CrawlView)
    ensures
        next_view(v).max_depth == v.max_depth,
        next_view(v).follow_offsite == v.follow_offsite,
        next_view(v).min_length == v.min_length,
        next_view(v).common == v.common,
        next_view(v).counts == v.counts,
        next_view(v).failure == v.failure,
        next_view(v).current matches Some(t) ==> v.pending.contains(t),
        next_view(v).pending.len() <= v.pending.len(),
        next_view(v).pending == v.pending.take(next_view(v).pending.len() as int),
        match next_view(v).current {
            Some(t) => next_view(v).visited == v.visited.push(t.url),
            None => next_view(v).visited == v.visited,
        },
    decreases v.pending.len(),
{
    if v.pending.len() > 0 {
        let t = v.pending.last();
        let rest = v.pending.drop_last();
        assert(v.pending[v.pending.len() - 1] == t);
        if v.visited.contains(t.url) {
            let w = CrawlView { pending: rest, ..v };
            lemma_next_keeps(w);
            let n = next_view(w).pending.len() as int;
            assert(rest.take(n) =~= v.pending.take(n));
            if next_view(w).current is Some {
                let u = next_view(w).current->0;
                let k = choose|k: int| 0 <= k < rest.len() && rest[k] == u;
                assert(v.pending[k] == u);
            }
        } else {
            assert(rest =~= v.pending.take(rest.len() as int));
        }
    } else {
        assert(v.pending =~= v.pending.take(0));
    }
}

/// Counts only grow: whatever comes back for the current page, no word is counted less often
/// afterwards than it was before.
pub proof fn lemma_counts_grow(v: CrawlView, outcome: OutcomeView, word: Seq<char>)
    requires
        valid_view(v),
    ensures
        count_of(outcome_view(v, outcome).counts, word) >= count_of(v.counts, word),
{
    match outcome {
        OutcomeView::Failure(reason) => {},
        OutcomeView::Page(page) => {
            lemma_merged_grows(v.counts, page_counts(page, v.min_length, v.common), word);
        },
    }
}

/// In a valid state the visited URLs are distinct, so there are no more of them than there
/// are URLs to visit: where all of them lie in a finite set, their number is at most the size
/// of that set.
pub proof fn lemma_visited_bounded(v: CrawlView, universe: Set<Seq<char>>)
    requires
        valid_view(v),
        universe.finite(),
        forall|url: Seq<char>| v.visited.contains(url) ==> universe.contains(url),
    ensures
        v.visited.len() <= universe.len(),
{
    v.visited.unique_seq_to_set();
    assert(v.visited.to_set().subset_of(universe)) by {
        assert forall|url: Seq<char>| v.visited.to_set().contains(url) implies universe.contains(
            url,
        ) by {
            assert(v.visited.contains(url));
        }
    }
    vstd::set_lib::lemma_len_subset(v.visited.to_set(), universe);
}

/// A crawl over finitely many URLs comes to an end, cycles or not and whatever `max_depth`
/// is: where every URL it asks for lies in a finite set, it is over once as many fetches have
/// come back as the set has URLs.
pub proof fn lemma_crawl_ends(
    v: CrawlView,
    outcomes: Seq<OutcomeView>,
    universe: Set<Seq<char>>,
)
    requires
        valid_view(v),
        universe.finite(),
        forall|url: Seq<char>|
            next_view(run_view(v, outcomes)).visited.contains(url) ==> universe.contains(
                url,
            ),
        outcomes.len() >= universe.len(),
    ensures
        next_view(run_view(v, outcomes)).current is None,
{
    lemma_run_valid(v, outcomes);
    lemma_run_visits(v, outcomes);
    lemma_visited_bounded(next_view(run_view(v, outcomes)), universe);
}

/// A page that lies deeper than `max_depth` has its words counted and its links left alone.
pub proof fn lemma_deep_page_adds_no_links(
    v: CrawlView,
    page: Seq<ElementView>,
)
    requires
        v.current matches Some(t) && t.depth > v.max_depth,
    ensures
        recorded_view(v, page).pending == v.pending,
        recorded_view(v, page).counts == merged(
            v.counts,
            page_counts(page, v.min_length, v.common),
        ),
{
}

/// A failed fetch adds nothing: the counts and the pending pages stay as they were, so the
/// pages that were scheduled beside the failed one are still fetched. Below the seed it does
/// not fail the crawl either.
pub proof fn lemma_failure_adds_nothing(v: CrawlView, reason: Seq<char>)
    ensures
        failed_view(v, reason).counts == v.counts,
        failed_view(v, reason).pending == v.pending,
        failed_view(v, reason).visited == v.visited,
        v.current matches Some(t) && t.depth > 0 ==> failed_view(v, reason).failure == v.failure,
{
}

/// The scope rule at work on a fetched page: each target that the page adds is a link of that
/// page which is in scope, one level below the page. While the crawl stays on site, each has
/// a host, and it is the host of the page: a link to another host is not among them, nor a
/// link without a host.
pub proof fn lemma_recorded_scope(
    v: CrawlView,
    page: Seq<ElementView>,
    i: int,
)
    requires
        v.current is Some,
        v.pending.len() <= i < recorded_view(v, page).pending.len(),
    ensures
        ({
            let t = v.current->0;
            let added = recorded_view(v, page).pending[i];
            &&& t.depth <= v.max_depth
            &&& added.depth == t.depth + 1
            &&& page_links(page, t.url).contains(added.url)
            &&& in_scope(v.follow_offsite, t.url, added.url)
            &&& !v.follow_offsite ==> url_host(added.url) is Some && url_host(added.url)
                == url_host(t.url)
        }),
{
    let t = v.current->0;
    let found = page_links(page, t.url);
    let added = scheduled(found, t.url, v.follow_offsite, t.depth + 1);
    lemma_scheduled(found, t.url, v.follow_offsite, t.depth + 1);
    let j = i - v.pending.len();
    assert(recorded_view(v, page).pending[i] == added.reverse()[j]);
    assert(added.reverse()[j] == added[added.len() - 1 - j]);
}

/// With `follow_offsite`, every link of a page that is not too deep is scheduled.
pub proof fn lemma_recorded_offsite(
    v: CrawlView,
    page: Seq<ElementView>,
    k: int,
)
    requires
        v.current matches Some(t) && t.depth <= v.max_depth,
        v.follow_offsite,
        0 <= k < page_links(page, v.current->0.url).len(),
    ensures
        recorded_view(v, page).pending.contains(
            TargetView { url: page_links(page, v.current->0.url)[k], depth: v.current->0.depth + 1 },
        ),
{
    let t = v.current->0;
    let found = page_links(page, t.url);
    let added = scheduled(found, t.url, v.follow_offsite, t.depth + 1);
    lemma_scheduled(found, t.url, v.follow_offsite, t.depth + 1);
    let want = TargetView { url: found[k], depth: t.depth + 1 };
    assert(added.contains(want));
    let m = choose|m: int| 0 <= m < added.len() && added[m] == want;
    let after = recorded_view(v, page).pending;
    let at = v.pending.len() + (added.len() - 1 - m);
    assert(after[at] == added.reverse()[added.len() - 1 - m]);
    assert(after[at] == want);
}

/// What a web serves: the page at each URL that can be fetched. A URL that is not in the map
/// cannot be fetched.
pub type Web = Map<Seq<char>, Seq<ElementView>>;

/// What comes back for a URL from a web: the page at it, or a failure.
pub open spec fn served(web: Web, url: Seq<char>) -> OutcomeView {
    if web.dom().contains(url) {
        OutcomeView::Page(web[url])
    } else {
        OutcomeView::Failure(Seq::empty())
    }
}

/// The state of a crawl that began in `v` after `n` fetches from `web`. Once no page is left to
/// fetch the crawl is over, and the state stays as it is.
pub open spec fn web_run(v: CrawlView, web: Web, n: nat) -> CrawlView
    decreases n,
{
    if n == 0 {
        v
    } else {
        let picked = next_view(web_run(v, web, (n - 1) as nat));
        match picked.current {
            None => picked,
            Some(t) => outcome_view(picked, served(web, t.url)),
        }
    }
}

/// Whether the page at `from` can be fetched and holds a link to `url` that is in scope.
pub open spec fn links_to(web: Web, follow_offsite: bool, from: Seq<char>, url: Seq<char>) -> bool {
    &&& web.dom().contains(from)
    &&& page_links(web[from], from).contains(url)
    &&& in_scope(follow_offsite, from, url)
}

/// Whether `url` is reached from `seed` by a path of `depth` links, each of them in scope and
/// found on a page that can be fetched and lies no deeper than `max_depth`.
pub open spec fn reached(
    web: Web,
    max_depth: nat,
    follow_offsite: bool,
    seed: Seq<char>,
    url: Seq<char>,
    depth: nat,
) -> bool
    decreases depth,
{
    if depth == 0 {
        url == seed
    } else {
        exists|from: Seq<char>|
            {
                &&& #[trigger] links_to(web, follow_offsite, from, url)
                &&& depth - 1 <= max_depth
                &&& reached(web, max_depth, follow_offsite, seed, from, (depth - 1) as nat)
            }
    }
}

/// Whether `url` is within reach of `seed`: it is the seed, or a path of in-scope links leads
/// to it from the seed, along which each page but `url` itself lies no deeper than `max_depth`.
/// Such a path has `max_depth + 1` links at most.
pub open spec fn within_reach(
    web: Web,
    max_depth: nat,
    follow_offsite: bool,
    seed: Seq<char>,
    url: Seq<char>,
) -> bool {
    exists|depth: nat| #[trigger] reached(web, max_depth, follow_offsite, seed, url, depth)
}

/// What holds of every state of a crawl from `seed` over `web`: each page that is pending or
/// current is reached from the seed at its depth, and each URL that was visited is within reach
/// of the seed.
pub open spec fn reach_view(v: CrawlView, web: Web, seed: Seq<char>) -> bool {
    &&& forall|i: int|
        0 <= i < v.pending.len() ==> reached(
            web,
            v.max_depth,
            v.follow_offsite,
            seed,
            (#[trigger] v.pending[i]).url,
            v.pending[i].depth,
        )
    &&& v.current matches Some(t) ==> reached(
        web,
        v.max_depth,
        v.follow_offsite,
        seed,
        t.url,
        t.depth,
    )
    &&& forall|url: Seq<char>| #[trigger]
        v.visited.contains(url) ==> within_reach(web, v.max_depth, v.follow_offsite, seed, url)
}

/// A path from the seed has `max_depth + 1` links at most.
pub proof fn lemma_reached_depth(
    web: Web,
    max_depth: nat,
    follow_offsite: bool,
    seed: Seq<char>,
    url: Seq<char>,
    depth: nat,
)
    requires
        reached(web, max_depth, follow_offsite, seed, url, depth),
    ensures
        depth <= max_depth + 1,
{
}

/// Picking the next page keeps every page and every visited URL within reach of the seed.
pub proof fn lemma_reach_next(v: CrawlView, web: Web, seed: Seq<char>)
    requires
        reach_view(v, web, seed),
    ensures
        reach_view(next_view(v), web, seed),
{
    let w = next_view(v);
    lemma_next_keeps(v);
    assert forall|i: int| 0 <= i < w.pending.len() implies reached(
        web,
        w.max_depth,
        w.follow_offsite,
        seed,
        (#[trigger] w.pending[i]).url,
        w.pending[i].depth,
    ) by {
        assert(w.pending[i] == v.pending[i]);
    }
    if w.current is Some {
        let t = w.current->0;
        let k = choose|k: int| 0 <= k < v.pending.len() && v.pending[k] == t;
        assert(reached(web, v.max_depth, v.follow_offsite, seed, v.pending[k].url, v.pending[k].depth));
        assert forall|url: Seq<char>| #[trigger] w.visited.contains(url) implies within_reach(
            web,
            w.max_depth,
            w.follow_offsite,
            seed,
            url,
        ) by {
            lemma_contains_push(v.visited, t.url, url);
            if url == t.url {
                assert(reached(web, v.max_depth, v.follow_offsite, seed, url, t.depth));
            }
        }
    }
}

/// Taking in what the web serves for the current page keeps every page and every visited URL
/// within reach of the seed: the links that the page adds are one link further from the seed
/// than the page itself.
pub proof fn lemma_reach_outcome(v: CrawlView, web: Web, seed: Seq<char>)
    requires
        reach_view(v, web, seed),
        v.current is Some,
    ensures
        reach_view(outcome_view(v, served(web, v.current->0.url)), web, seed),
{
    let t = v.current->0;
    let w = outcome_view(v, served(web, t.url));
    if web.dom().contains(t.url) {
        let page = web[t.url];
        assert forall|i: int| 0 <= i < w.pending.len() implies reached(
            web,
            w.max_depth,
            w.follow_offsite,
            seed,
            (#[trigger] w.pending[i]).url,
            w.pending[i].depth,
        ) by {
            if i < v.pending.len() {
                assert(w.pending[i] == v.pending[i]);
            } else {
                lemma_recorded_scope(v, page, i);
                assert(links_to(web, v.follow_offsite, t.url, w.pending[i].url));
            }
        }
    }
}

/// Every URL that a crawl over a web visits is within reach of its seed, whatever the web
/// holds, cycles or not.
pub proof fn lemma_visited_within_reach(
    seed: Seq<char>,
    max_depth: nat,
    follow_offsite: bool,
    min_length: nat,
    common: Set<Seq<char>>,
    web: Web,
    n: nat,
)
    ensures
        reach_view(
            web_run(start_view(seed, max_depth, follow_offsite, min_length, common), web, n),
            web,
            seed,
        ),
        web_run(
            start_view(seed, max_depth, follow_offsite, min_length, common),
            web,
            n,
        ).max_depth == max_depth,
        web_run(
            start_view(seed, max_depth, follow_offsite, min_length, common),
            web,
            n,
        ).follow_offsite == follow_offsite,
        valid_view(
            web_run(start_view(seed, max_depth, follow_offsite, min_length, common), web, n),
        ),
    decreases n,
{
    let start = start_view(seed, max_depth, follow_offsite, min_length, common);
    if n == 0 {
        assert(reached(web, max_depth, follow_offsite, seed, seed, 0));
    } else {
        lemma_visited_within_reach(
            seed,
            max_depth,
            follow_offsite,
            min_length,
            common,
            web,
            (n - 1) as nat,
        );
        let before = web_run(start, web, (n - 1) as nat);
        let picked = next_view(before);
        lemma_reach_next(before, web, seed);
        lemma_next_keeps(before);
        lemma_next_view(before);
        if picked.current is Some {
            lemma_reach_outcome(picked, web, seed);
            lemma_outcome_view(picked, served(web, picked.current->0.url));
        }
    }
}

/// A crawl visits each URL once at most, and only URLs within reach of its seed: it visits no
/// more URLs than a finite set holds that holds every URL within reach.
pub proof fn lemma_visited_at_most_reachable(
    seed: Seq<char>,
    max_depth: nat,
    follow_offsite: bool,
    min_length: nat,
    common: Set<Seq<char>>,
    web: Web,
    n: nat,
    reach: Set<Seq<char>>,
)
    requires
        reach.finite(),
        forall|url: Seq<char>| #[trigger]
            within_reach(web, max_depth, follow_offsite, seed, url) ==> reach.contains(url),
    ensures
        web_run(
            start_view(seed, max_depth, follow_offsite, min_length, common),
            web,
            n,
        ).visited.no_duplicates(),
        web_run(
            start_view(seed, max_depth, follow_offsite, min_length, common),
            web,
            n,
        ).visited.len() <= reach.len(),
{
    let v = web_run(start_view(seed, max_depth, follow_offsite, min_length, common), web, n);
    lemma_visited_within_reach(seed, max_depth, follow_offsite, min_length, common, web, n);
    lemma_visited_bounded(v, reach);
}

} // verus!
