//! The crawl coordinator: one state value holding the visited set, the
//! frontier, the in-flight counter and the immutable crawl configuration,
//! with the worker-loop decisions as verified operations on it. A worker
//! pool shares one `CrawlState` (behind a lock), performs the fetches
//! itself, and feeds every outcome back through these operations.

use crate::extract::anchor_hrefs;
use crate::extract::extract_links;
use crate::frontier::Frontier;
use crate::policy::allowed;
use crate::urls::host_of;
use crate::urls::normalize;
use crate::urls::normalized;
use crate::visited::VisitedSet;
use vstd::prelude::*;

verus! {

/// The seed URL did not resolve to an absolute URL with a host; the crawl
/// cannot start.
#[derive(Clone, Copy, Debug, PartialEq, Eq, Structural)]
pub enum ConfigError {
    BadSeed,
}

/// What an idle worker does next: take queued work, wait for in-flight work
/// to produce more, or shut down because the crawl is quiescent.
#[derive(Clone, Copy, Debug, PartialEq, Eq, Structural)]
pub enum WorkerAction {
    Work,
    Wait,
    Shutdown,
}

/// One link's effect on the crawl: a href that normalizes, passes the domain
/// policy and was never seen before is admitted to the visited set and the
/// frontier; every other href changes nothing.
pub open spec fn admit_step(
    v: Set<Seq<char>>,
    f: Seq<Seq<char>>,
    base: Seq<char>,
    href: Seq<char>,
    origin: Seq<char>,
    any_domain: bool,
) -> (Set<Seq<char>>, Seq<Seq<char>>) {
    match normalized(base, href) {
        Some(u) => if allowed(u, origin, any_domain) && !v.contains(u) {
            (v.insert(u), f.push(u))
        } else {
            (v, f)
        },
        None => (v, f),
    }
}

/// The effect of a page's hrefs on the crawl, applied in document order.
pub open spec fn admit_all(
    v: Set<Seq<char>>,
    f: Seq<Seq<char>>,
    base: Seq<char>,
    hrefs: Seq<Seq<char>>,
    origin: Seq<char>,
    any_domain: bool,
) -> (Set<Seq<char>>, Seq<Seq<char>>)
    decreases hrefs.len(),
{
    if hrefs.len() == 0 {
        (v, f)
    } else {
        let stepped = admit_step(v, f, base, hrefs[0], origin, any_domain);
        admit_all(stepped.0, stepped.1, base, hrefs.drop_first(), origin, any_domain)
    }
}

/// The shared state of one crawl. Well-formedness (`wf`): the frontier holds
/// no URL twice, holds only admitted URLs, and together with the in-flight
/// counter never exceeds the number of admissions.
pub struct CrawlState {
    visited: VisitedSet,
    frontier: Frontier,
    in_flight: usize,
    origin_host: String,
    any_domain: bool,
}

impl CrawlState {
    /// The URLs admitted so far (enqueued or fetched).
    pub closed spec fn visited_urls(&self) -> Set<Seq<char>> {
        self.visited@
    }

    /// The URLs awaiting fetch, oldest first.
    pub closed spec fn frontier_urls(&self) -> Seq<Seq<char>> {
        self.frontier@
    }

    /// How many URLs workers hold mid-fetch.
    pub closed spec fn in_flight_count(&self) -> nat {
        self.in_flight as nat
    }

    /// The seed's host, the basis of same-origin matching.
    pub closed spec fn origin(&self) -> Seq<char> {
        self.origin_host@
    }

    /// Whether the crawl accepts any domain.
    pub closed spec fn accepts_any_domain(&self) -> bool {
        self.any_domain
    }

    /// The invariant every operation preserves.
    pub closed spec fn wf(&self) -> bool {
        &&& forall|i: int, j: int|
            0 <= i < j < self.frontier@.len() ==> self.frontier@[i] != self.frontier@[j]
        &&& forall|i: int| 0 <= i < self.frontier@.len() ==> self.visited@.contains(self.frontier@[i])
        &&& self.in_flight + self.frontier@.len() <= self.visited.count()
    }

    /// Start a crawl: normalize the seed, record its host as the origin, and
    /// admit the seed as the first frontier entry. Fails exactly when the
    /// seed does not normalize, the one fatal configuration error.
    pub fn new(seed: &str, any_domain: bool) -> (r: Result<CrawlState, ConfigError>)
        ensures
            (r is Ok) == (normalized(seed@, seed@) is Some),
            r matches Ok(s) ==> {
                let u = normalized(seed@, seed@).unwrap();
                &&& s.wf()
                &&& s.visited_urls() == Set::<Seq<char>>::empty().insert(u)
                &&& s.frontier_urls() == Seq::<Seq<char>>::empty().push(u)
                &&& s.in_flight_count() == 0
                &&& crate::urls::host_in(u) == Some(s.origin())
                &&& s.accepts_any_domain() == any_domain
            },
    {
        match normalize(seed, seed) {
            Ok(u) => {
                let host = match host_of(u.as_str()) {
                    Some(h) => h,
                    None => {
                        proof {
                            assert(false);
                        }
                        unreached()
                    },
                };
                let mut visited = VisitedSet::new();
                let mut frontier = Frontier::new();
                let _ = visited.try_admit(&u);
                frontier.push(u);
                Ok(CrawlState { visited, frontier, in_flight: 0, origin_host: host, any_domain })
            },
            Err(_) => Err(ConfigError::BadSeed),
        }
    }

    /// What an idle worker must do: work when the frontier has an entry,
    /// wait while others still have work in flight, and shut down only at
    /// quiescence. A waiting worker never exits while work is in flight.
    pub fn decide(&self) -> (a: WorkerAction)
        ensures
            (a is Shutdown) == (self.frontier_urls().len() == 0 && self.in_flight_count() == 0),
            (a is Wait) == (self.frontier_urls().len() == 0 && self.in_flight_count() > 0),
            (a is Work) == (self.frontier_urls().len() > 0),
    {
        if self.frontier.len() > 0 {
            WorkerAction::Work
        } else if self.in_flight > 0 {
            WorkerAction::Wait
        } else {
            WorkerAction::Shutdown
        }
    }

    /// Whether no work is queued and none is in flight: the unique
    /// termination condition.
    pub fn is_quiescent(&self) -> (r: bool)
        ensures
            r == (self.frontier_urls().len() == 0 && self.in_flight_count() == 0),
    {
        self.frontier.len() == 0 && self.in_flight == 0
    }

    /// Take the oldest frontier entry and mark it in flight; on an empty
    /// frontier, report emptiness and change nothing.
    pub fn begin_fetch(&mut self) -> (r: Option<String>)
        requires
            old(self).wf(),
        ensures
            final(self).wf(),
            old(self).frontier_urls().len() == 0 ==> r is None && final(self).frontier_urls()
                == old(self).frontier_urls() && final(self).visited_urls() == old(
                self,
            ).visited_urls() && final(self).in_flight_count() == old(self).in_flight_count()
                && final(self).origin() == old(self).origin() && final(self).accepts_any_domain()
                == old(self).accepts_any_domain(),
            old(self).frontier_urls().len() > 0 ==> (r matches Some(u) && u@ == old(
                self,
            ).frontier_urls()[0] && final(self).frontier_urls() == old(
                self,
            ).frontier_urls().drop_first() && final(self).visited_urls() == old(
                self,
            ).visited_urls() && final(self).in_flight_count() == old(self).in_flight_count() + 1
                && final(self).origin() == old(self).origin() && final(self).accepts_any_domain()
                == old(self).accepts_any_domain()),
    {
        match self.frontier.pop() {
            Some(u) => {
                // the invariant bounds the counter by the admission count,
                // which the visited set holds in memory, so it fits in usize
                // and the increment cannot overflow
                let n = self.visited.len();
                assert(self.in_flight < n);
                self.in_flight += 1;
                Some(u)
            },
            None => None,
        }
    }

    /// Admit every eligible href of one fetched page: normalize against
    /// `base`, apply the domain policy, and admit what was never seen,
    /// in document order.
    pub fn admit_links(&mut self, base: &str, hrefs: &Vec<String>)
        requires
            old(self).wf(),
        ensures
            final(self).wf(),
            (final(self).visited_urls(), final(self).frontier_urls()) == admit_all(
                old(self).visited_urls(),
                old(self).frontier_urls(),
                base@,
                hrefs.deep_view(),
                old(self).origin(),
                old(self).accepts_any_domain(),
            ),
            final(self).in_flight_count() == old(self).in_flight_count(),
            final(self).origin() == old(self).origin(),
            final(self).accepts_any_domain() == old(self).accepts_any_domain(),
    {
        let ghost v0 = self.visited@;
        let ghost f0 = self.frontier@;
        let ghost all = hrefs.deep_view();
        proof {
            assert(all.skip(0) =~= all);
        }
        let mut i: usize = 0;
        while i < hrefs.len()
            invariant
                i <= all.len(),
                all == hrefs.deep_view(),
                self.wf(),
                self.in_flight == old(self).in_flight,
                self.origin_host == old(self).origin_host,
                self.any_domain == old(self).any_domain,
                admit_all(
                    self.visited@,
                    self.frontier@,
                    base@,
                    all.skip(i as int),
                    self.origin_host@,
                    self.any_domain,
                ) == admit_all(v0, f0, base@, all, self.origin_host@, self.any_domain),
            decreases all.len() - i,
        {
            let ghost v_pre = self.visited@;
            let ghost f_pre = self.frontier@;
            match normalize(base, &hrefs[i]) {
                Ok(u) => {
                    if crate::policy::allow(u.as_str(), &self.origin_host, self.any_domain) {
                        if self.visited.try_admit(&u) {
                            self.frontier.push(u);
                        } else {
                            proof {
                                assert(self.visited@ =~= v_pre);
                            }
                        }
                    }
                },
                Err(_) => {},
            }
            proof {
                assert((self.visited@, self.frontier@) == admit_step(
                    v_pre,
                    f_pre,
                    base@,
                    all[i as int],
                    self.origin_host@,
                    self.any_domain,
                ));
                assert(all.skip(i as int).drop_first() =~= all.skip(i as int + 1));
                assert(all.skip(i as int)[0] == all[i as int]);
            }
            i += 1;
        }
        proof {
            assert(all.skip(all.len() as int) =~= Seq::<Seq<char>>::empty());
        }
    }

    /// Finish one fetched page: admit its links and release the in-flight
    /// slot the worker took when it began the fetch.
    pub fn finish_fetch(&mut self, base: &str, body: &str)
        requires
            old(self).wf(),
            old(self).in_flight_count() > 0,
        ensures
            final(self).wf(),
            (final(self).visited_urls(), final(self).frontier_urls()) == admit_all(
                old(self).visited_urls(),
                old(self).frontier_urls(),
                base@,
                anchor_hrefs(body@),
                old(self).origin(),
                old(self).accepts_any_domain(),
            ),
            final(self).in_flight_count() == old(self).in_flight_count() - 1,
            final(self).origin() == old(self).origin(),
            final(self).accepts_any_domain() == old(self).accepts_any_domain(),
    {
        let links = extract_links(body);
        self.admit_links(base, &links);
        self.in_flight -= 1;
    }

    /// Release the in-flight slot of a fetch that failed; the URL is skipped
    /// and nothing else changes.
    pub fn abort_fetch(&mut self)
        requires
            old(self).wf(),
            old(self).in_flight_count() > 0,
        ensures
            final(self).wf(),
            final(self).visited_urls() == old(self).visited_urls(),
            final(self).frontier_urls() == old(self).frontier_urls(),
            final(self).in_flight_count() == old(self).in_flight_count() - 1,
            final(self).origin() == old(self).origin(),
            final(self).accepts_any_domain() == old(self).accepts_any_domain(),
    {
        self.in_flight -= 1;
    }

    /// How many URLs await fetching.
    pub fn frontier_len(&self) -> (n: usize)
        ensures
            n == self.frontier_urls().len(),
    {
        self.frontier.len()
    }

    /// How many URLs workers hold mid-fetch.
    pub fn in_flight(&self) -> (n: usize)
        ensures
            n == self.in_flight_count(),
    {
        self.in_flight
    }
}

/// The frontier of a well-formed crawl never holds the same URL twice, and
/// holds only URLs that were admitted to the visited set.
pub proof fn lemma_wf_frontier(s: &CrawlState)
    requires
        s.wf(),
    ensures
        forall|i: int, j: int|
            0 <= i < j < s.frontier_urls().len() ==> s.frontier_urls()[i] != s.frontier_urls()[j],
        forall|i: int| 0 <= i < s.frontier_urls().len() ==> s.visited_urls().contains(
            s.frontier_urls()[i],
        ),
{
}

/// Exactly-once admission: a successful admission of `url` puts it into the
/// visited set, and from then on every further admission of `url` reports
/// false and leaves the set as it was, whichever admissions of other URLs
/// came between (they only grow the set).
pub proof fn lemma_admission_exactly_once(v: Set<Seq<char>>, url: Seq<char>)
    ensures
        v.insert(url).contains(url),
        v.insert(url).insert(url) == v.insert(url),
{
    assert(v.insert(url).insert(url) =~= v.insert(url));
}

/// The quiescence measure of a crawl whose URLs stay inside a finite
/// universe `u`: both worker operations strictly decrease it, so a crawl of
/// a finite link graph reaches `frontier empty and nothing in flight`.
pub open spec fn crawl_measure(
    v: Set<Seq<char>>,
    f: Seq<Seq<char>>,
    in_flight: nat,
    u: Set<Seq<char>>,
) -> int {
    2 * (u.len() - v.len()) + 2 * f.len() + in_flight
}

/// Taking the head of a non-empty frontier into flight strictly decreases
/// the crawl measure.
pub proof fn lemma_begin_fetch_decreases(
    v: Set<Seq<char>>,
    f: Seq<Seq<char>>,
    in_flight: nat,
    u: Set<Seq<char>>,
)
    requires
        f.len() > 0,
    ensures
        crawl_measure(v, f.drop_first(), in_flight + 1, u) < crawl_measure(v, f, in_flight, u),
{
}

/// Whether every href of a page that normalizes against `base` lands inside
/// the universe `u`: the closure condition a finite link graph satisfies.
pub open spec fn urls_within(base: Seq<char>, hrefs: Seq<Seq<char>>, u: Set<Seq<char>>) -> bool {
    forall|k: int|
        0 <= k < hrefs.len() ==> (#[trigger] normalized(base, hrefs[k]) is Some ==> u.contains(
            normalized(base, hrefs[k]).unwrap(),
        ))
}

/// Admitting a page's links moves URLs of `u` from unvisited to the frontier
/// one for one: the visited set grows inside `u`, and the measure without
/// its in-flight summand is unchanged.
pub proof fn lemma_admit_all_preserves_potential(
    v: Set<Seq<char>>,
    f: Seq<Seq<char>>,
    base: Seq<char>,
    hrefs: Seq<Seq<char>>,
    origin: Seq<char>,
    any_domain: bool,
    u: Set<Seq<char>>,
)
    requires
        u.finite(),
        v.subset_of(u),
        urls_within(base, hrefs, u),
    ensures
        ({
            let (v2, f2) = admit_all(v, f, base, hrefs, origin, any_domain);
            &&& v2.subset_of(u)
            &&& v.subset_of(v2)
            &&& 2 * (u.len() - v2.len()) + 2 * f2.len() == 2 * (u.len() - v.len()) + 2 * f.len()
        }),
    decreases hrefs.len(),
{
    if hrefs.len() > 0 {
        let stepped = admit_step(v, f, base, hrefs[0], origin, any_domain);
        match normalized(base, hrefs[0]) {
            Some(x) => {
                if allowed(x, origin, any_domain) && !v.contains(x) {
                    vstd::set_lib::lemma_len_subset(v, u);
                    vstd::set::axiom_set_insert_len(v, x);
                }
            },
            None => {},
        }
        assert forall|k: int| 0 <= k < hrefs.drop_first().len() implies (#[trigger] normalized(
            base,
            hrefs.drop_first()[k],
        ) is Some ==> u.contains(normalized(base, hrefs.drop_first()[k]).unwrap())) by {
            assert(hrefs.drop_first()[k] == hrefs[k + 1]);
        }
        assert(urls_within(base, hrefs.drop_first(), u));
        lemma_admit_all_preserves_potential(
            stepped.0,
            stepped.1,
            base,
            hrefs.drop_first(),
            origin,
            any_domain,
            u,
        );
    }
}

/// Finishing one fetched page strictly decreases the crawl measure: each
/// admission trades an unvisited URL of `u` for a frontier entry, and the
/// worker's in-flight slot is released.
pub proof fn lemma_finish_fetch_decreases(
    v: Set<Seq<char>>,
    f: Seq<Seq<char>>,
    base: Seq<char>,
    hrefs: Seq<Seq<char>>,
    origin: Seq<char>,
    any_domain: bool,
    in_flight: nat,
    u: Set<Seq<char>>,
)
    requires
        u.finite(),
        v.subset_of(u),
        in_flight > 0,
        urls_within(base, hrefs, u),
    ensures
        ({
            let (v2, f2) = admit_all(v, f, base, hrefs, origin, any_domain);
            crawl_measure(v2, f2, (in_flight - 1) as nat, u) < crawl_measure(v, f, in_flight, u)
        }),
{
    lemma_admit_all_preserves_potential(v, f, base, hrefs, origin, any_domain, u);
}

/// One worker transition on the abstract crawl state of visited URLs,
/// frontier and in-flight count: either a worker takes the head of a
/// non-empty frontier into flight, or it finishes an in-flight page by
/// admitting that page's hrefs and releasing its slot. The hrefs are
/// arbitrary within `u`, so a failed fetch (no hrefs at all) is a
/// transition too: termination does not depend on fetches succeeding.
pub open spec fn crawl_step(
    pre: (Set<Seq<char>>, Seq<Seq<char>>, nat),
    post: (Set<Seq<char>>, Seq<Seq<char>>, nat),
    origin: Seq<char>,
    any_domain: bool,
    u: Set<Seq<char>>,
) -> bool {
    ||| (pre.1.len() > 0 && post == (pre.0, pre.1.drop_first(), (pre.2 + 1) as nat))
    ||| (pre.2 > 0 && exists|base: Seq<char>, hrefs: Seq<Seq<char>>|
        {
            &&& urls_within(base, hrefs, u)
            &&& post.0 == #[trigger] admit_all(pre.0, pre.1, base, hrefs, origin, any_domain).0
            &&& post.1 == admit_all(pre.0, pre.1, base, hrefs, origin, any_domain).1
            &&& post.2 == (pre.2 - 1) as nat
        })
}

/// Every worker transition keeps the visited set growing inside `u` and
/// strictly decreases the crawl measure, which never falls below zero.
pub proof fn lemma_crawl_step_decreases(
    pre: (Set<Seq<char>>, Seq<Seq<char>>, nat),
    post: (Set<Seq<char>>, Seq<Seq<char>>, nat),
    origin: Seq<char>,
    any_domain: bool,
    u: Set<Seq<char>>,
)
    requires
        u.finite(),
        pre.0.subset_of(u),
        crawl_step(pre, post, origin, any_domain, u),
    ensures
        post.0.subset_of(u),
        pre.0.subset_of(post.0),
        crawl_measure(post.0, post.1, post.2, u) < crawl_measure(pre.0, pre.1, pre.2, u),
        crawl_measure(post.0, post.1, post.2, u) >= 0,
{
    if pre.1.len() > 0 && post == (pre.0, pre.1.drop_first(), (pre.2 + 1) as nat) {
        vstd::set_lib::lemma_len_subset(pre.0, u);
    } else {
        let (base, hrefs) = choose|base: Seq<char>, hrefs: Seq<Seq<char>>|
            {
                &&& urls_within(base, hrefs, u)
                &&& post.0 == #[trigger] admit_all(pre.0, pre.1, base, hrefs, origin, any_domain).0
                &&& post.1 == admit_all(pre.0, pre.1, base, hrefs, origin, any_domain).1
                &&& post.2 == (pre.2 - 1) as nat
            };
        lemma_admit_all_preserves_potential(pre.0, pre.1, base, hrefs, origin, any_domain, u);
        vstd::set_lib::lemma_len_subset(post.0, u);
    }
}

/// Termination: a crawl of a link graph whose URLs stay inside a finite
/// universe `u` makes only finitely many worker transitions, whatever the
/// worker count and interleaving — no run of transitions is longer than the
/// measure of its first state.
pub proof fn lemma_crawl_run_terminates(
    run: Seq<(Set<Seq<char>>, Seq<Seq<char>>, nat)>,
    origin: Seq<char>,
    any_domain: bool,
    u: Set<Seq<char>>,
)
    requires
        u.finite(),
        run.len() > 0,
        run[0].0.subset_of(u),
        forall|i: int|
            0 <= i < run.len() - 1 ==> #[trigger] crawl_step(
                run[i],
                run[i + 1],
                origin,
                any_domain,
                u,
            ),
    ensures
        run.len() <= crawl_measure(run[0].0, run[0].1, run[0].2, u) + 1,
    decreases run.len(),
{
    if run.len() > 1 {
        assert(crawl_step(run[0int], run[0int + 1], origin, any_domain, u));
        lemma_crawl_step_decreases(run[0], run[1], origin, any_domain, u);
        let rest = run.drop_first();
        assert forall|i: int| 0 <= i < rest.len() - 1 implies #[trigger] crawl_step(
            rest[i],
            rest[i + 1],
            origin,
            any_domain,
            u,
        ) by {
            assert(rest[i] == run[i + 1] && rest[i + 1] == run[i + 2]);
        }
        lemma_crawl_run_terminates(rest, origin, any_domain, u);
    } else {
        vstd::set_lib::lemma_len_subset(run[0].0, u);
    }
}

/// Nothing eligible is lost: admitting a page's links never removes a
/// visited URL, and afterwards every href of the page that normalizes and
/// passes the domain policy stands in the visited set.
pub proof fn lemma_admit_all_complete(
    v: Set<Seq<char>>,
    f: Seq<Seq<char>>,
    base: Seq<char>,
    hrefs: Seq<Seq<char>>,
    origin: Seq<char>,
    any_domain: bool,
)
    ensures
        ({
            let (v2, f2) = admit_all(v, f, base, hrefs, origin, any_domain);
            &&& forall|s: Seq<char>| v.contains(s) ==> v2.contains(s)
            &&& forall|k: int|
                0 <= k < hrefs.len() ==> ((#[trigger] normalized(base, hrefs[k]) is Some
                    && allowed(normalized(base, hrefs[k]).unwrap(), origin, any_domain))
                    ==> v2.contains(normalized(base, hrefs[k]).unwrap()))
            &&& f2.len() >= f.len()
            &&& forall|i: int| 0 <= i < f.len() ==> f2[i] == f[i]
            &&& forall|s: Seq<char>| f.contains(s) ==> f2.contains(s)
            &&& forall|s: Seq<char>| v2.contains(s) && !v.contains(s) ==> f2.contains(s)
        }),
    decreases hrefs.len(),
{
    if hrefs.len() > 0 {
        let stepped = admit_step(v, f, base, hrefs[0], origin, any_domain);
        lemma_admit_all_complete(stepped.0, stepped.1, base, hrefs.drop_first(), origin, any_domain);
        let (v2, f2) = admit_all(v, f, base, hrefs, origin, any_domain);
        assert forall|s: Seq<char>| v.contains(s) implies v2.contains(s) by {
            assert(stepped.0.contains(s));
        }
        assert forall|k: int| 0 <= k < hrefs.len() implies ((#[trigger] normalized(
            base,
            hrefs[k],
        ) is Some && allowed(normalized(base, hrefs[k]).unwrap(), origin, any_domain))
            ==> v2.contains(normalized(base, hrefs[k]).unwrap())) by {
            let n = normalized(base, hrefs[k]);
            if n is Some && allowed(n.unwrap(), origin, any_domain) {
                if k == 0 {
                    assert(stepped.0.contains(n.unwrap()));
                } else {
                    assert(hrefs.drop_first()[k - 1] == hrefs[k]);
                }
            }
        }
        assert forall|s: Seq<char>| f.contains(s) implies f2.contains(s) by {
            let i = choose|i: int| 0 <= i < f.len() && f[i] == s;
            assert(stepped.1[i] == s);
            assert(f2[i] == s);
        }
        assert forall|s: Seq<char>| v2.contains(s) && !v.contains(s) implies f2.contains(s) by {
            if stepped.0.contains(s) {
                // `s` is the URL this very href admitted and pushed
                assert(stepped.1[f.len() as int] == s);
                assert(f2[f.len() as int] == s);
            }
        }
    }
}

/// The hrefs a link graph gives for one page; a page the graph does not map
/// yields no links.
pub open spec fn page_hrefs(pages: Map<Seq<char>, Seq<Seq<char>>>, x: Seq<char>) -> Seq<Seq<char>> {
    if pages.dom().contains(x) {
        pages[x]
    } else {
        Seq::empty()
    }
}

/// Whether `to` is an eligible link of page `from` in the graph `pages`: one
/// of the page's hrefs normalizes against `from` to `to`, and `to` passes
/// the domain policy.
pub open spec fn links_to(
    pages: Map<Seq<char>, Seq<Seq<char>>>,
    from: Seq<char>,
    to: Seq<char>,
    origin: Seq<char>,
    any_domain: bool,
) -> bool {
    exists|k: int|
        0 <= k < page_hrefs(pages, from).len() && #[trigger] normalized(
            from,
            page_hrefs(pages, from)[k],
        ) == Some(to) && allowed(to, origin, any_domain)
}

/// A chain of eligible links through the graph.
pub open spec fn link_path(
    pages: Map<Seq<char>, Seq<Seq<char>>>,
    path: Seq<Seq<char>>,
    origin: Seq<char>,
    any_domain: bool,
) -> bool {
    forall|i: int|
        0 <= i < path.len() - 1 ==> #[trigger] links_to(
            pages,
            path[i],
            path[i + 1],
            origin,
            any_domain,
        )
}

/// A crawl state is covered when every visited URL that is neither awaiting
/// fetch nor in flight has had all its eligible links visited: nothing
/// discovered was dropped.
pub open spec fn covered(
    v: Set<Seq<char>>,
    f: Seq<Seq<char>>,
    fl: Set<Seq<char>>,
    pages: Map<Seq<char>, Seq<Seq<char>>>,
    origin: Seq<char>,
    any_domain: bool,
) -> bool {
    forall|x: Seq<char>, y: Seq<char>|
        #[trigger] v.contains(x) && !f.contains(x) && !fl.contains(x) && #[trigger] links_to(
            pages,
            x,
            y,
            origin,
            any_domain,
        ) ==> v.contains(y)
}

/// One worker transition under a fixed link graph `pages`, with the set of
/// in-flight URLs tracked: a worker takes the head of a non-empty frontier
/// into flight, or finishes an in-flight page by admitting exactly that
/// page's hrefs.
pub open spec fn graph_step(
    pre: (Set<Seq<char>>, Seq<Seq<char>>, Set<Seq<char>>),
    post: (Set<Seq<char>>, Seq<Seq<char>>, Set<Seq<char>>),
    pages: Map<Seq<char>, Seq<Seq<char>>>,
    origin: Seq<char>,
    any_domain: bool,
) -> bool {
    ||| (pre.1.len() > 0 && post == (pre.0, pre.1.drop_first(), pre.2.insert(pre.1[0])))
    ||| (exists|x: Seq<char>|
        {
            &&& #[trigger] pre.2.contains(x)
            &&& post.0 == admit_all(pre.0, pre.1, x, page_hrefs(pages, x), origin, any_domain).0
            &&& post.1 == admit_all(pre.0, pre.1, x, page_hrefs(pages, x), origin, any_domain).1
            &&& post.2 == pre.2.remove(x)
        })
}

/// Worker transitions preserve coverage, and the visited set only grows.
pub proof fn lemma_graph_step_preserves_covered(
    pre: (Set<Seq<char>>, Seq<Seq<char>>, Set<Seq<char>>),
    post: (Set<Seq<char>>, Seq<Seq<char>>, Set<Seq<char>>),
    pages: Map<Seq<char>, Seq<Seq<char>>>,
    origin: Seq<char>,
    any_domain: bool,
)
    requires
        covered(pre.0, pre.1, pre.2, pages, origin, any_domain),
        graph_step(pre, post, pages, origin, any_domain),
    ensures
        covered(post.0, post.1, post.2, pages, origin, any_domain),
        forall|s: Seq<char>| pre.0.contains(s) ==> #[trigger] post.0.contains(s),
{
    if pre.1.len() > 0 && post == (pre.0, pre.1.drop_first(), pre.2.insert(pre.1[0])) {
        assert forall|x: Seq<char>, y: Seq<char>|
            #[trigger] post.0.contains(x) && !post.1.contains(x) && !post.2.contains(x)
                && #[trigger] links_to(pages, x, y, origin, any_domain) implies post.0.contains(
            y,
        ) by {
            if pre.1.contains(x) {
                let i = choose|i: int| 0 <= i < pre.1.len() && pre.1[i] == x;
                if i == 0 {
                    assert(post.2.contains(x));
                } else {
                    assert(pre.1.drop_first()[i - 1] == x);
                    assert(post.1.contains(x));
                }
            }
        }
    } else {
        let x0 = choose|x: Seq<char>|
            {
                &&& #[trigger] pre.2.contains(x)
                &&& post.0 == admit_all(pre.0, pre.1, x, page_hrefs(pages, x), origin, any_domain).0
                &&& post.1 == admit_all(pre.0, pre.1, x, page_hrefs(pages, x), origin, any_domain).1
                &&& post.2 == pre.2.remove(x)
            };
        let hrefs = page_hrefs(pages, x0);
        lemma_admit_all_complete(pre.0, pre.1, x0, hrefs, origin, any_domain);
        assert forall|x: Seq<char>, y: Seq<char>|
            #[trigger] post.0.contains(x) && !post.1.contains(x) && !post.2.contains(x)
                && #[trigger] links_to(pages, x, y, origin, any_domain) implies post.0.contains(
            y,
        ) by {
            if x == x0 {
                let k = choose|k: int|
                    0 <= k < hrefs.len() && #[trigger] normalized(x0, hrefs[k]) == Some(y)
                        && allowed(y, origin, any_domain);
                assert(post.0.contains(y));
            } else if pre.0.contains(x) {
                if pre.1.contains(x) {
                    assert(post.1.contains(x));
                } else {
                    assert(pre.0.contains(y));
                }
            } else {
                assert(post.1.contains(x));
            }
        }
    }
}

/// Coverage holds along any run of worker transitions, and nothing once
/// visited is forgotten.
pub proof fn lemma_run_preserves_covered(
    run: Seq<(Set<Seq<char>>, Seq<Seq<char>>, Set<Seq<char>>)>,
    pages: Map<Seq<char>, Seq<Seq<char>>>,
    origin: Seq<char>,
    any_domain: bool,
)
    requires
        run.len() > 0,
        covered(run[0].0, run[0].1, run[0].2, pages, origin, any_domain),
        forall|i: int|
            0 <= i < run.len() - 1 ==> #[trigger] graph_step(
                run[i],
                run[i + 1],
                pages,
                origin,
                any_domain,
            ),
    ensures
        covered(run.last().0, run.last().1, run.last().2, pages, origin, any_domain),
        forall|s: Seq<char>| run[0].0.contains(s) ==> #[trigger] run.last().0.contains(s),
    decreases run.len(),
{
    if run.len() > 1 {
        assert(graph_step(run[0int], run[0int + 1], pages, origin, any_domain));
        lemma_graph_step_preserves_covered(run[0], run[1], pages, origin, any_domain);
        let rest = run.drop_first();
        assert forall|i: int| 0 <= i < rest.len() - 1 implies #[trigger] graph_step(
            rest[i],
            rest[i + 1],
            pages,
            origin,
            any_domain,
        ) by {
            assert(rest[i] == run[i + 1] && rest[i + 1] == run[i + 2]);
        }
        lemma_run_preserves_covered(rest, pages, origin, any_domain);
        assert(rest.last() == run.last());
    }
}

/// A visited set that is covered with nothing queued and nothing in flight
/// is closed under eligible links: it holds the end of every chain of
/// eligible links that starts at a visited URL.
pub proof fn lemma_quiescent_closure(
    v: Set<Seq<char>>,
    pages: Map<Seq<char>, Seq<Seq<char>>>,
    origin: Seq<char>,
    any_domain: bool,
    path: Seq<Seq<char>>,
)
    requires
        covered(v, Seq::empty(), Set::empty(), pages, origin, any_domain),
        path.len() > 0,
        v.contains(path[0]),
        link_path(pages, path, origin, any_domain),
    ensures
        v.contains(path.last()),
    decreases path.len(),
{
    if path.len() > 1 {
        assert(links_to(pages, path[0int], path[0int + 1], origin, any_domain));
        assert(!Seq::<Seq<char>>::empty().contains(path[0int]));
        assert(v.contains(path[1]));
        let rest = path.drop_first();
        assert forall|i: int| 0 <= i < rest.len() - 1 implies #[trigger] links_to(
            pages,
            rest[i],
            rest[i + 1],
            origin,
            any_domain,
        ) by {
            assert(rest[i] == path[i + 1] && rest[i + 1] == path[i + 2]);
        }
        lemma_quiescent_closure(v, pages, origin, any_domain, rest);
        assert(rest.last() == path.last());
    }
}

/// Coverage of a whole crawl: a run of worker transitions that starts with
/// just the seed admitted and ends quiescent (empty frontier, nothing in
/// flight) has visited every URL that a chain of eligible links reaches from
/// the seed. Together with exactly-once admission and the decreasing crawl
/// measure: the crawl of a finite link graph terminates having fetched each
/// reachable, policy-eligible URL exactly once.
pub proof fn lemma_crawl_visits_reachable(
    run: Seq<(Set<Seq<char>>, Seq<Seq<char>>, Set<Seq<char>>)>,
    pages: Map<Seq<char>, Seq<Seq<char>>>,
    origin: Seq<char>,
    any_domain: bool,
    seed: Seq<char>,
    path: Seq<Seq<char>>,
)
    requires
        run.len() > 0,
        run[0] == (
            Set::<Seq<char>>::empty().insert(seed),
            Seq::<Seq<char>>::empty().push(seed),
            Set::<Seq<char>>::empty(),
        ),
        forall|i: int|
            0 <= i < run.len() - 1 ==> #[trigger] graph_step(
                run[i],
                run[i + 1],
                pages,
                origin,
                any_domain,
            ),
        run.last().1.len() == 0,
        run.last().2 == Set::<Seq<char>>::empty(),
        path.len() > 0,
        path[0] == seed,
        link_path(pages, path, origin, any_domain),
    ensures
        run.last().0.contains(path.last()),
{
    assert(run[0].1[0] == seed);
    assert(covered(run[0].0, run[0].1, run[0].2, pages, origin, any_domain)) by {
        let init = run[0int];
        assert forall|x: Seq<char>, y: Seq<char>|
            #[trigger] init.0.contains(x) && !init.1.contains(x) && !init.2.contains(x)
                && #[trigger] links_to(pages, x, y, origin, any_domain) implies init.0.contains(
            y,
        ) by {
            assert(init.1[0] == x);
        }
    }
    lemma_run_preserves_covered(run, pages, origin, any_domain);
    assert(run.last().1 =~= Seq::<Seq<char>>::empty());
    assert(run.last().0.contains(seed));
    lemma_quiescent_closure(run.last().0, pages, origin, any_domain, path);
}

} // verus!
