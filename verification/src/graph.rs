//! The link graph a crawl explores, and what "reachable" means on it.
//!
//! A `LinkGraph` records, for each URL whose fetch succeeds, the URLs its
//! page links to; a URL with no entry is one whose fetch fails. It stands
//! for the two collaborators of a crawl — the page fetcher and the link
//! extractor — with their outcomes given as data, so the traversal over it
//! can be verified for every graph.
use crate::url_map::UrlMap;
use crate::urls::url_seq;
use vstd::prelude::*;

verus! {

/// The URLs that following one link out of `u` can discover: the links of
/// `u`'s page when its fetch succeeds, none when it fails. A failing URL is
/// a terminal leaf — it is still discoverable, but contributes nothing.
pub open spec fn succ_of(g: Map<Seq<char>, Seq<Seq<char>>>, u: Seq<char>) -> Set<Seq<char>> {
    if g.contains_key(u) {
        g[u].to_set()
    } else {
        Set::empty()
    }
}

/// Whether `u` can be discovered from `seed` by following at most `n` links.
pub open spec fn in_steps(
    g: Map<Seq<char>, Seq<Seq<char>>>,
    seed: Seq<char>,
    u: Seq<char>,
    n: nat,
) -> bool
    decreases n,
{
    if n == 0 {
        u == seed
    } else {
        in_steps(g, seed, u, (n - 1) as nat) || (exists|v: Seq<char>|
            in_steps(g, seed, v, (n - 1) as nat) && succ_of(g, v).contains(u))
    }
}

/// Whether `u` is transitively reachable from `seed` by following links.
pub open spec fn reachable(g: Map<Seq<char>, Seq<Seq<char>>>, seed: Seq<char>, u: Seq<char>) -> bool {
    exists|n: nat| in_steps(g, seed, u, n)
}

/// Every URL transitively reachable from `seed`, the seed itself included.
pub open spec fn reach_set(g: Map<Seq<char>, Seq<Seq<char>>>, seed: Seq<char>) -> Set<Seq<char>> {
    Set::new(|u: Seq<char>| reachable(g, seed, u))
}

/// Whether `s` is closed under following links: one link out of a member
/// never leaves `s`.
pub open spec fn closed_under_links(g: Map<Seq<char>, Seq<Seq<char>>>, s: Set<Seq<char>>) -> bool {
    forall|u: Seq<char>, v: Seq<char>|
        s.contains(u) && #[trigger] succ_of(g, u).contains(v) ==> s.contains(v)
}

/// The seed reaches itself.
pub proof fn lemma_seed_reachable(g: Map<Seq<char>, Seq<Seq<char>>>, seed: Seq<char>)
    ensures
        reachable(g, seed, seed),
{
    assert(in_steps(g, seed, seed, 0));
}

/// One link out of a reachable URL reaches its target.
pub proof fn lemma_step_reachable(
    g: Map<Seq<char>, Seq<Seq<char>>>,
    seed: Seq<char>,
    u: Seq<char>,
    v: Seq<char>,
)
    requires
        reachable(g, seed, u),
        succ_of(g, u).contains(v),
    ensures
        reachable(g, seed, v),
{
    let n = choose|n: nat| in_steps(g, seed, u, n);
    assert(in_steps(g, seed, u, n) && succ_of(g, u).contains(v));
    assert(in_steps(g, seed, v, n + 1));
}

/// A set that holds the seed and is closed under links holds everything
/// discoverable in any number of steps.
proof fn lemma_in_steps_closed(
    g: Map<Seq<char>, Seq<Seq<char>>>,
    seed: Seq<char>,
    s: Set<Seq<char>>,
    u: Seq<char>,
    n: nat,
)
    requires
        s.contains(seed),
        closed_under_links(g, s),
        in_steps(g, seed, u, n),
    ensures
        s.contains(u),
    decreases n,
{
    if n > 0 {
        if in_steps(g, seed, u, (n - 1) as nat) {
            lemma_in_steps_closed(g, seed, s, u, (n - 1) as nat);
        } else {
            let v = choose|v: Seq<char>|
                in_steps(g, seed, v, (n - 1) as nat) && succ_of(g, v).contains(u);
            lemma_in_steps_closed(g, seed, s, v, (n - 1) as nat);
        }
    }
}

/// A set that holds the seed and is closed under links covers the whole
/// reachable set.
pub proof fn lemma_closed_covers_reachable(
    g: Map<Seq<char>, Seq<Seq<char>>>,
    seed: Seq<char>,
    s: Set<Seq<char>>,
)
    requires
        s.contains(seed),
        closed_under_links(g, s),
    ensures
        reach_set(g, seed).subset_of(s),
{
    assert forall|u: Seq<char>| reach_set(g, seed).contains(u) implies s.contains(u) by {
        let n = choose|n: nat| in_steps(g, seed, u, n);
        lemma_in_steps_closed(g, seed, s, u, n);
    }
}

/// Re-discovery is idempotent: any two traversals of one unchanged link
/// graph from one seed return the same result set. A completed traversal's
/// result holds the seed, is closed under links, and holds only reachable
/// URLs; any two sets with those three properties are equal — each is
/// exactly the reachable set.
pub proof fn lemma_traversal_deterministic(
    g: Map<Seq<char>, Seq<Seq<char>>>,
    seed: Seq<char>,
    s1: Set<Seq<char>>,
    s2: Set<Seq<char>>,
)
    requires
        s1.contains(seed),
        closed_under_links(g, s1),
        s1.subset_of(reach_set(g, seed)),
        s2.contains(seed),
        closed_under_links(g, s2),
        s2.subset_of(reach_set(g, seed)),
    ensures
        s1 == s2,
        s1 == reach_set(g, seed),
{
    lemma_closed_covers_reachable(g, seed, s1);
    lemma_closed_covers_reachable(g, seed, s2);
    assert(s1 =~= reach_set(g, seed));
    assert(s2 =~= reach_set(g, seed));
}

/// Partial-failure tolerance: a reachable URL whose fetch fails is still a
/// member of the reachable set — it was discovered through a link — but it
/// contributes no links of its own.
pub proof fn lemma_terminal_leaf(g: Map<Seq<char>, Seq<Seq<char>>>, seed: Seq<char>, u: Seq<char>)
    requires
        reachable(g, seed, u),
        !g.contains_key(u),
    ensures
        reach_set(g, seed).contains(u),
        succ_of(g, u) == Set::<Seq<char>>::empty(),
{
}

/// A link graph given as data: each entry is a URL whose fetch succeeds,
/// bound to the links its page holds. Fetching a URL absent from the graph
/// fails.
pub struct LinkGraph {
    pages: UrlMap,
}

impl View for LinkGraph {
    type V = Map<Seq<char>, Seq<Seq<char>>>;

    closed spec fn view(&self) -> Map<Seq<char>, Seq<Seq<char>>> {
        self.pages@
    }
}

impl LinkGraph {
    /// The graph with no fetchable page at all.
    pub fn new() -> (g: LinkGraph)
        ensures
            g@ == Map::<Seq<char>, Seq<Seq<char>>>::empty(),
    {
        LinkGraph { pages: UrlMap::new() }
    }

    /// Makes `url` fetchable with `links` as its page's links, replacing
    /// any earlier entry for `url`.
    pub fn add_page(&mut self, url: String, links: Vec<String>)
        ensures
            final (self)@ == old(self)@.insert(url@, url_seq(links@)),
    {
        self.pages.put(url, links);
    }

    /// The links of `url`'s page: `None` exactly when fetching `url` fails.
    pub fn links_of<'a>(&'a self, url: &String) -> (r: Option<&'a Vec<String>>)
        ensures
            (match r {
                Some(v) => self@.contains_key(url@) && url_seq(v@) == self@[url@],
                None => !self@.contains_key(url@),
            }),
    {
        self.pages.get(url)
    }

    /// Every URL some page of the graph links to.
    pub closed spec fn link_targets(&self) -> Set<Seq<char>> {
        self.pages.links_acc()
    }

    /// The graph is finite: finitely many fetchable pages, linking into a
    /// finite pool of targets.
    pub proof fn lemma_finite(&self)
        ensures
            self@.dom().finite(),
            self.link_targets().finite(),
            forall|k: Seq<char>| #[trigger]
                self@.contains_key(k) ==> self@[k].to_set().subset_of(self.link_targets()),
    {
        self.pages.lemma_finite();
    }

    /// Whether fetching `url` succeeds.
    pub fn has_page(&self, url: &String) -> (r: bool)
        ensures
            r == self@.contains_key(url@),
    {
        self.pages.contains_key(url)
    }
}

} // verus!
