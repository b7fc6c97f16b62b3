//! The process-wide result store: a mapping from seed URL to the most
//! recently computed crawl result for that seed.
//!
//! A completed crawl overwrites any earlier result for the same seed; a seed
//! never crawled has no entry, which `get` and `count` report as `None`
//! rather than as an empty result. Entries are never individually removed.
//! Concurrency is the caller's concern: a process shares one `Store` behind
//! a reader-writer lock and hands exclusive access to `put`.
use crate::url_map::UrlMap;
use crate::urls::url_seq;
use vstd::prelude::*;

verus! {

/// The store of crawl results, viewed as a mathematical map from a seed
/// URL's characters to the sequence of URLs its last crawl discovered.
pub struct Store {
    results: UrlMap,
}

impl View for Store {
    type V = Map<Seq<char>, Seq<Seq<char>>>;

    closed spec fn view(&self) -> Map<Seq<char>, Seq<Seq<char>>> {
        self.results@
    }
}

impl Store {
    /// An empty store: nothing has been crawled.
    pub fn new() -> (s: Store)
        ensures
            s@ == Map::<Seq<char>, Seq<Seq<char>>>::empty(),
    {
        Store { results: UrlMap::new() }
    }

    /// Records `result` as the crawl result for `seed`, unconditionally
    /// replacing any earlier entry for that seed.
    pub fn put(&mut self, seed: String, result: Vec<String>)
        ensures
            final (self)@ == old(self)@.insert(seed@, url_seq(result@)),
    {
        self.results.put(seed, result);
    }

    /// The current result for `seed`: `None` exactly when no crawl for
    /// `seed` has ever completed.
    pub fn get<'a>(&'a self, seed: &String) -> (r: Option<&'a Vec<String>>)
        ensures
            (match r {
                Some(v) => self@.contains_key(seed@) && url_seq(v@) == self@[seed@],
                None => !self@.contains_key(seed@),
            }),
    {
        self.results.get(seed)
    }

    /// How many URLs the current result for `seed` holds: `None` exactly
    /// when no crawl for `seed` has ever completed.
    pub fn count(&self, seed: &String) -> (r: Option<usize>)
        ensures
            (match r {
                Some(n) => self@.contains_key(seed@) && n == self@[seed@].len(),
                None => !self@.contains_key(seed@),
            }),
    {
        match self.get(seed) {
            Some(v) => Some(v.len()),
            None => None,
        }
    }
}

/// Overwrite semantics of the store: after a result `a` for `seed` is
/// replaced by a result `b`, the store answers with `b` alone; `a` is fully
/// discarded, never merged.
pub proof fn lemma_put_overwrites(
    s: Map<Seq<char>, Seq<Seq<char>>>,
    seed: Seq<char>,
    a: Seq<Seq<char>>,
    b: Seq<Seq<char>>,
)
    ensures
        s.insert(seed, a).insert(seed, b).contains_key(seed),
        s.insert(seed, a).insert(seed, b)[seed] == b,
        s.insert(seed, a).insert(seed, b) == s.insert(seed, b),
{
    assert(s.insert(seed, a).insert(seed, b) =~= s.insert(seed, b));
}

} // verus!
