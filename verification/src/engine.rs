//! The crawl engine: a frontier traversal that discovers every URL
//! reachable from a seed.
//!
//! `Crawl` is the state of one traversal. A driver repeatedly claims
//! pending URLs — up to its concurrency bound at a time — fetches each
//! claimed page outside the engine, and reports each outcome back with
//! `complete` or `fail`; the traversal is over when nothing is pending and
//! nothing is in flight. `crawl_from_graph` is such a driver over a link
//! graph given as data, and its result is proved to be exactly the set of
//! URLs reachable from the seed.
use crate::store::Store;
use crate::graph::lemma_closed_covers_reachable;
use crate::graph::lemma_seed_reachable;
use crate::graph::lemma_step_reachable;
use crate::graph::reach_set;
use crate::graph::reachable;
use crate::graph::succ_of;
use crate::graph::LinkGraph;
use crate::urls::lemma_skip_to_set;
use crate::urls::lemma_url_set_singleton;
use crate::urls::lemma_take_push;
use crate::urls::lemma_to_set_push;
use crate::urls::lemma_url_seq_push;
use crate::urls::url_seq;
use crate::urls::url_set;
use vstd::prelude::*;

verus! {

/// Why a crawl request fails as a whole. Failures of non-seed fetches are
/// absorbed by the traversal and never surface here.
#[derive(Clone, Copy, Debug, PartialEq, Eq, Structural)]
pub enum CrawlError {
    /// The seed is not a well-formed URL; no crawl was started.
    InvalidSeed,
    /// The seed itself could not be fetched; nothing was stored.
    SeedUnreachable,
}

/// Whether a string is a syntactically well-formed URL, as the URL parser
/// this crate relies on decides it.
pub uninterp spec fn valid_url(s: Seq<char>) -> bool;

/// Relies on url::Url::parse (reqwest's re-export): whether a string parses
/// as a URL depends on its characters alone.
#[verifier::external_body]
fn parse_ok(s: &String) -> (r: bool)
    ensures
        r == valid_url(s@),
{
    reqwest::Url::parse(s.as_str()).is_ok()
}

/// Accepts a seed exactly when it is a well-formed URL; a malformed seed is
/// rejected with `CrawlError::InvalidSeed` before any crawl work starts.
pub fn validate_seed(seed: &String) -> (r: Result<(), CrawlError>)
    ensures
        r is Ok <==> valid_url(seed@),
        (match r {
            Ok(u) => u == (),
            Err(e) => e == CrawlError::InvalidSeed,
        }),
{
    if parse_ok(seed) {
        Ok(())
    } else {
        Err(CrawlError::InvalidSeed)
    }
}

/// The state of one crawl: the URLs discovered so far (the accumulating
/// result), the discovered URLs whose fetch has not yet been claimed, and
/// how many claimed fetches are still in flight.
pub struct Crawl {
    discovered: Vec<String>,
    pending: Vec<String>,
    in_flight: usize,
}

impl Crawl {
    /// Discovery never records a URL twice, and only discovered URLs wait
    /// for their fetch. Established by `new` and preserved by every method.
    pub closed spec fn wf(&self) -> bool {
        &&& url_seq(self.discovered@).no_duplicates()
        &&& url_seq(self.pending@).no_duplicates()
        &&& url_set(self.pending@).subset_of(url_set(self.discovered@))
    }

    /// The set of URLs discovered so far; the seed and every URL that some
    /// completed fetch linked to.
    pub closed spec fn discovered_urls(&self) -> Set<Seq<char>> {
        url_set(self.discovered@)
    }

    /// The set of discovered URLs not yet claimed for fetching.
    pub closed spec fn pending_urls(&self) -> Set<Seq<char>> {
        url_set(self.pending@)
    }

    /// How many claimed fetches have not reported back yet.
    pub closed spec fn in_flight(&self) -> nat {
        self.in_flight as nat
    }

    /// Starts a crawl at `seed`: the seed is discovered and pending, and
    /// nothing is in flight.
    pub fn new(seed: String) -> (c: Crawl)
        ensures
            c.wf(),
            c.discovered_urls() == Set::empty().insert(seed@),
            c.pending_urls() == Set::empty().insert(seed@),
            c.in_flight() == 0,
    {
        let mut discovered: Vec<String> = Vec::new();
        let mut pending: Vec<String> = Vec::new();
        discovered.push(seed.clone());
        pending.push(seed);
        proof {
            lemma_url_set_singleton(discovered@);
            lemma_url_set_singleton(pending@);
        }
        Crawl { discovered, pending, in_flight: 0 }
    }

    /// Whether `url` has already been discovered.
    fn knows(&self, url: &String) -> (r: bool)
        ensures
            r == self.discovered_urls().contains(url@),
    {
        let mut i: usize = 0;
        while i < self.discovered.len()
            invariant
                i <= self.discovered.len(),
                forall|j: int| 0 <= j < i ==> self.discovered@[j]@ != url@,
            decreases self.discovered.len() - i,
        {
            if self.discovered[i] == *url {
                proof {
                    assert(url_seq(self.discovered@)[i as int] == url@);
                }
                return true;
            }
            i = i + 1;
        }
        proof {
            assert forall|u: Seq<char>| url_seq(self.discovered@).contains(u) implies exists|
                j: int,
            | 0 <= j < self.discovered@.len() && self.discovered@[j]@ == u by {
                let j = choose|j: int|
                    0 <= j < url_seq(self.discovered@).len() && url_seq(self.discovered@)[j] == u;
                assert(self.discovered@[j]@ == u);
            }
        }
        false
    }

    /// Claims one pending URL for fetching. Returns `None`, changing
    /// nothing, exactly when nothing is pending; otherwise moves one URL
    /// out of the pending set and counts its fetch as in flight.
    pub fn claim(&mut self) -> (r: Option<String>)
        requires
            old(self).wf(),
            old(self).in_flight() < usize::MAX,
        ensures
            final (self).wf(),
            (match r {
                None => {
                    &&& final (self).discovered_urls() == old(self).discovered_urls()
                    &&& final (self).pending_urls() == old(self).pending_urls()
                    &&& final (self).in_flight() == old(self).in_flight()
                    &&& old(self).pending_urls() == Set::<Seq<char>>::empty()
                },
                Some(u) => {
                    &&& old(self).pending_urls().contains(u@)
                    &&& final (self).pending_urls() == old(self).pending_urls().remove(u@)
                    &&& final (self).discovered_urls() == old(self).discovered_urls()
                    &&& final (self).in_flight() == old(self).in_flight() + 1
                },
            }),
    {
        let ghost before = self.pending@;
        match self.pending.pop() {
            None => {
                proof {
                    assert(url_set(self.pending@) =~= Set::<Seq<char>>::empty());
                }
                None
            },
            Some(u) => {
                self.in_flight = self.in_flight + 1;
                proof {
                    assert(before.drop_last() =~= self.pending@);
                    assert(url_seq(self.pending@) =~= url_seq(before).drop_last());
                    assert(url_seq(before)[before.len() - 1] == u@);
                    assert forall|w: Seq<char>|
                        url_set(self.pending@).contains(w) <==> url_set(before).remove(u@).contains(
                            w,
                        ) by {
                        if url_seq(self.pending@).contains(w) {
                            let j = choose|j: int|
                                0 <= j < url_seq(self.pending@).len() && url_seq(self.pending@)[j]
                                    == w;
                            assert(url_seq(before)[j] == w);
                            assert(url_seq(before)[j] != url_seq(before)[before.len() - 1]);
                        }
                        if url_set(before).remove(u@).contains(w) {
                            let j = choose|j: int|
                                0 <= j < url_seq(before).len() && url_seq(before)[j] == w;
                            assert(j < before.len() - 1);
                            assert(url_seq(self.pending@)[j] == w);
                        }
                    }
                    assert(url_set(self.pending@) =~= url_set(before).remove(u@));
                }
                Some(u)
            },
        }
    }

    /// Reports a claimed fetch as succeeded, handing over the links its
    /// page holds. Every link not yet discovered becomes discovered and
    /// pending; the rest contribute nothing.
    pub fn complete(&mut self, links: &Vec<String>)
        requires
            old(self).wf(),
            old(self).in_flight() > 0,
        ensures
            final (self).wf(),
            final (self).in_flight() == old(self).in_flight() - 1,
            final (self).discovered_urls() == old(self).discovered_urls().union(
                url_set(links@),
            ),
            final (self).pending_urls() == old(self).pending_urls().union(
                url_set(links@).difference(old(self).discovered_urls()),
            ),
    {
        let ghost d0 = self.discovered_urls();
        let ghost p0 = self.pending_urls();
        let ghost lseq = url_seq(links@);
        let mut i: usize = 0;
        while i < links.len()
            invariant
                self.wf(),
                i <= links.len(),
                lseq == url_seq(links@),
                self.in_flight == old(self).in_flight,
                self.discovered_urls() == d0.union(lseq.take(i as int).to_set()),
                self.pending_urls() == p0.union(lseq.take(i as int).to_set().difference(d0)),
            decreases links.len() - i,
        {
            let link = &links[i];
            proof {
                assert(lseq[i as int] == link@);
                lemma_take_push(lseq, i as int);
                lemma_to_set_push(lseq.take(i as int), lseq[i as int]);
            }
            if !self.knows(link) {
                proof {
                    lemma_url_seq_push(self.discovered@, *link);
                    lemma_to_set_push(url_seq(self.discovered@), link@);
                    lemma_url_seq_push(self.pending@, *link);
                    lemma_to_set_push(url_seq(self.pending@), link@);
                }
                self.discovered.push(link.clone());
                self.pending.push(link.clone());
                proof {
                    assert(self.discovered_urls() =~= d0.union(
                        lseq.take(i as int + 1).to_set(),
                    ));
                    assert(self.pending_urls() =~= p0.union(
                        lseq.take(i as int + 1).to_set().difference(d0),
                    ));
                }
            } else {
                proof {
                    assert(self.discovered_urls() =~= d0.union(
                        lseq.take(i as int + 1).to_set(),
                    ));
                    assert(self.pending_urls() =~= p0.union(
                        lseq.take(i as int + 1).to_set().difference(d0),
                    ));
                }
            }
            i = i + 1;
        }
        proof {
            assert(lseq.take(links@.len() as int) =~= lseq);
        }
        self.in_flight = self.in_flight - 1;
    }

    /// Reports a claimed fetch as failed. The URL stays discovered — it was
    /// reached through a link — but contributes no links of its own.
    pub fn fail(&mut self)
        requires
            old(self).wf(),
            old(self).in_flight() > 0,
        ensures
            final (self).wf(),
            final (self).in_flight() == old(self).in_flight() - 1,
            final (self).discovered_urls() == old(self).discovered_urls(),
            final (self).pending_urls() == old(self).pending_urls(),
    {
        self.in_flight = self.in_flight - 1;
    }

    /// Whether the traversal is over: nothing pending, nothing in flight.
    pub fn is_done(&self) -> (r: bool)
        ensures
            r <==> (self.pending_urls() == Set::<Seq<char>>::empty() && self.in_flight() == 0),
    {
        let done = self.pending.len() == 0 && self.in_flight == 0;
        proof {
            if self.pending@.len() == 0 {
                assert(url_set(self.pending@) =~= Set::<Seq<char>>::empty());
            } else {
                assert(url_set(self.pending@).contains(url_seq(self.pending@)[0]));
            }
        }
        done
    }

    /// Hands out the result: the discovered URLs, each exactly once.
    pub fn into_result(self) -> (r: Vec<String>)
        requires
            self.wf(),
        ensures
            url_set(r@) == self.discovered_urls(),
            url_seq(r@).no_duplicates(),
    {
        self.discovered
    }
}

/// Crawls the link graph `g` from `seed`, keeping up to `concurrency`
/// claimed fetches in flight in each round, and returns every URL reachable
/// from the seed, the seed included, each exactly once.
///
/// A malformed seed is rejected with `InvalidSeed` and a seed whose own
/// fetch fails with `SeedUnreachable`; the failed fetch of any other URL
/// leaves that URL in the result as a terminal leaf. The result is exactly
/// the reachable set, so it depends neither on the concurrency bound nor on
/// the order links are followed.
#[verifier::loop_isolation(false)]
pub fn crawl_from_graph(seed: &String, concurrency: usize, g: &LinkGraph) -> (r: Result<
    Vec<String>,
    CrawlError,
>)
    requires
        concurrency >= 1,
    ensures
        (match r {
            Ok(urls) => {
                &&& valid_url(seed@)
                &&& g@.contains_key(seed@)
                &&& url_seq(urls@).no_duplicates()
                &&& url_set(urls@) == reach_set(g@, seed@)
                &&& url_set(urls@).contains(seed@)
            },
            Err(e) => (e == CrawlError::InvalidSeed && !valid_url(seed@)) || (
            e == CrawlError::SeedUnreachable && valid_url(seed@) && !g@.contains_key(seed@)),
        }),
{
    if let Err(e) = validate_seed(seed) {
        return Err(e);
    }
    if !g.has_page(seed) {
        return Err(CrawlError::SeedUnreachable);
    }
    let mut c = Crawl::new(seed.clone());
    let ghost mut processed: Set<Seq<char>> = Set::empty();
    // Discovery can never leave this finite pool, so strictly growing the
    // processed set bounds the rounds the traversal can make.
    let ghost uni: Set<Seq<char>> = g@.dom().union(g.link_targets()).insert(seed@);
    proof {
        lemma_seed_reachable(g@, seed@);
        g.lemma_finite();
    }
    while !c.is_done()
        invariant
            c.wf(),
            c.in_flight() == 0,
            c.discovered_urls().contains(seed@),
            c.pending_urls().subset_of(c.discovered_urls()),
            c.discovered_urls().subset_of(uni),
            processed.finite(),
            processed.subset_of(c.discovered_urls()),
            forall|u: Seq<char>| processed.contains(u) ==> !(#[trigger] c.pending_urls().contains(
                u,
            )),
            forall|u: Seq<char>| #[trigger]
                c.discovered_urls().contains(u) ==> processed.contains(u)
                    || c.pending_urls().contains(u),
            forall|u: Seq<char>| #[trigger]
                c.discovered_urls().contains(u) ==> reachable(g@, seed@, u),
            forall|u: Seq<char>, v: Seq<char>|
                processed.contains(u) && #[trigger] succ_of(g@, u).contains(v)
                    ==> c.discovered_urls().contains(v),
        decreases uni.len() - processed.len(),
    {
        let ghost processed_at_top = processed;
        let mut batch: Vec<String> = Vec::new();
        match c.claim() {
            None => {
                proof {
                    assert(false);
                }
            },
            Some(u) => {
                batch.push(u);
                proof {
                    lemma_url_seq_push(Seq::empty(), batch@[0]);
                    lemma_to_set_push(url_seq(Seq::empty()), batch@[0]@);
                    assert(url_seq(Seq::<String>::empty()) =~= Seq::<Seq<char>>::empty());
                    assert(url_set(batch@) =~= Set::empty().insert(batch@[0]@));
                }
            },
        }
        while batch.len() < concurrency
            invariant
                c.wf(),
                c.in_flight() == batch.len(),
                1 <= batch.len() <= concurrency,
                c.discovered_urls().contains(seed@),
                processed == processed_at_top,
                processed.finite(),
                processed.subset_of(c.discovered_urls()),
                c.pending_urls().subset_of(c.discovered_urls()),
                c.discovered_urls().subset_of(uni),
                url_set(batch@).subset_of(c.discovered_urls()),
                url_seq(batch@).no_duplicates(),
                forall|i: int|
                    0 <= i < batch@.len() ==> !(#[trigger] c.pending_urls().contains(
                        url_seq(batch@)[i],
                    )),
                forall|i: int| 0 <= i < batch@.len() ==> !processed.contains(url_seq(batch@)[i]),
                forall|u: Seq<char>| processed.contains(u) ==> !(
                #[trigger] c.pending_urls().contains(u)),
                forall|u: Seq<char>| #[trigger]
                    c.discovered_urls().contains(u) ==> processed.contains(u)
                        || c.pending_urls().contains(u) || url_set(batch@).contains(u),
                forall|u: Seq<char>| #[trigger]
                    c.discovered_urls().contains(u) ==> reachable(g@, seed@, u),
                forall|u: Seq<char>, v: Seq<char>|
                    processed.contains(u) && #[trigger] succ_of(g@, u).contains(v)
                        ==> c.discovered_urls().contains(v),
            decreases concurrency - batch.len(),
        {
            let ghost batch_before = batch@;
            match c.claim() {
                None => { break ; },
                Some(u) => {
                    batch.push(u);
                    proof {
                        lemma_url_seq_push(batch_before, batch@.last());
                        lemma_to_set_push(url_seq(batch_before), batch@.last()@);
                    }
                },
            }
        }
        proof {
            assert(url_seq(batch@).skip(0) =~= url_seq(batch@));
        }
        let ghost processed_at_start = processed;
        let mut j: usize = 0;
        while j < batch.len()
            invariant
                c.wf(),
                j <= batch.len(),
                c.in_flight() == batch.len() - j,
                1 <= batch.len(),
                c.discovered_urls().contains(seed@),
                processed.finite(),
                processed_at_start.subset_of(processed),
                j >= 1 ==> processed_at_start.len() < processed.len(),
                processed.subset_of(c.discovered_urls()),
                c.pending_urls().subset_of(c.discovered_urls()),
                c.discovered_urls().subset_of(uni),
                url_set(batch@).subset_of(c.discovered_urls()),
                url_seq(batch@).no_duplicates(),
                forall|i: int| j <= i < batch@.len() ==> !processed.contains(url_seq(batch@)[i]),
                forall|i: int|
                    j <= i < batch@.len() ==> !(#[trigger] c.pending_urls().contains(
                        url_seq(batch@)[i],
                    )),
                forall|u: Seq<char>| processed.contains(u) ==> !(
                #[trigger] c.pending_urls().contains(u)),
                forall|u: Seq<char>| #[trigger]
                    c.discovered_urls().contains(u) ==> processed.contains(u)
                        || c.pending_urls().contains(u) || url_seq(batch@).skip(
                        j as int,
                    ).to_set().contains(u),
                forall|u: Seq<char>| #[trigger]
                    c.discovered_urls().contains(u) ==> reachable(g@, seed@, u),
                forall|u: Seq<char>, v: Seq<char>|
                    processed.contains(u) && #[trigger] succ_of(g@, u).contains(v)
                        ==> c.discovered_urls().contains(v),
            decreases batch.len() - j,
        {
            let u = &batch[j];
            let ghost d_before = c.discovered_urls();
            proof {
                assert(url_seq(batch@)[j as int] == u@);
                assert(url_set(batch@).contains(u@));
                lemma_skip_to_set(url_seq(batch@), j as int);
            }
            match g.links_of(u) {
                Some(links) => {
                    proof {
                        assert(succ_of(g@, u@) == url_set(links@));
                        assert(url_set(links@).subset_of(uni));
                    }
                    c.complete(links);
                    proof {
                        assert forall|v: Seq<char>| #[trigger]
                            c.discovered_urls().contains(v) implies reachable(g@, seed@, v) by {
                            if !d_before.contains(v) {
                                lemma_step_reachable(g@, seed@, u@, v);
                            }
                        }
                    }
                },
                None => {
                    proof {
                        assert(succ_of(g@, u@) == Set::<Seq<char>>::empty());
                    }
                    c.fail();
                },
            }
            proof {
                broadcast use vstd::set::axiom_set_insert_len;

                let ghost processed_before = processed;
                processed = processed.insert(u@);
                assert(!processed_before.contains(u@));
                assert(processed.len() == processed_before.len() + 1);
                vstd::set_lib::lemma_len_subset(processed_at_start, processed_before);
            }
            j = j + 1;
        }
        proof {
            assert(url_seq(batch@).skip(batch@.len() as int) =~= Seq::<Seq<char>>::empty());
            assert forall|u: Seq<char>| #[trigger]
                c.discovered_urls().contains(u) implies processed.contains(u)
                || c.pending_urls().contains(u) by {
                assert(!url_seq(batch@).skip(batch@.len() as int).to_set().contains(u));
            }
            vstd::set_lib::lemma_len_subset(processed, uni);
            vstd::set_lib::lemma_len_subset(processed_at_top, processed);
        }
    }
    proof {
        assert forall|u: Seq<char>, v: Seq<char>|
            c.discovered_urls().contains(u) && #[trigger] succ_of(g@, u).contains(
                v,
            ) implies c.discovered_urls().contains(v) by {
            assert(!c.pending_urls().contains(u));
            assert(processed.contains(u));
        }
        lemma_closed_covers_reachable(g@, seed@, c.discovered_urls());
        assert(c.discovered_urls() =~= reach_set(g@, seed@));
    }
    let result = c.into_result();
    Ok(result)
}

/// One crawl operation as a client triggers it: crawls `g` from `seed` and,
/// exactly when the crawl succeeds, overwrites the store's entry for the
/// seed with the freshly discovered set. A failed crawl leaves the store
/// untouched.
pub fn crawl_into_store(
    store: &mut Store,
    seed: &String,
    concurrency: usize,
    g: &LinkGraph,
) -> (r: Result<(), CrawlError>)
    requires
        concurrency >= 1,
    ensures
        (match r {
            Ok(u) => {
                &&& u == ()
                &&& valid_url(seed@)
                &&& g@.contains_key(seed@)
                &&& final (store)@.contains_key(seed@)
                &&& final (store)@[seed@].to_set() == reach_set(g@, seed@)
                &&& final (store)@[seed@].no_duplicates()
                &&& final (store)@ == old(store)@.insert(seed@, final (store)@[seed@])
            },
            Err(e) => {
                &&& final (store)@ == old(store)@
                &&& ((e == CrawlError::InvalidSeed && !valid_url(seed@)) || (
                e == CrawlError::SeedUnreachable && valid_url(seed@) && !g@.contains_key(seed@)))
            },
        }),
{
    match crawl_from_graph(seed, concurrency, g) {
        Ok(urls) => {
            store.put(seed.clone(), urls);
            Ok(())
        },
        Err(e) => Err(e),
    }
}

} // verus!
