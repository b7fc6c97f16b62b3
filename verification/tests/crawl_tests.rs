use crawler::engine::crawl_from_graph;
use crawler::engine::crawl_into_store;
use crawler::engine::validate_seed;
use crawler::engine::Crawl;
use crawler::engine::CrawlError;
use crawler::graph::LinkGraph;
use crawler::store::Store;

/// The reference link graph: the seed page links to two pages, those link
/// on to four more, and the four deepest URLs have no page of their own,
/// so fetching them fails.
fn scenario_graph(base: &str) -> LinkGraph {
    let mut g = LinkGraph::new();
    g.add_page(
        format!("{}/crawl", base),
        vec![format!("{}/crawl2", base), format!("{}/crawl3", base)],
    );
    g.add_page(
        format!("{}/crawl2", base),
        vec![format!("{}/crawl3", base), format!("{}/crawl4", base)],
    );
    g.add_page(
        format!("{}/crawl3", base),
        vec![format!("{}/crawl5", base), format!("{}/crawl6", base)],
    );
    g.add_page(
        format!("{}/crawl4", base),
        vec![format!("{}/crawl7", base), format!("{}/crawl8", base)],
    );
    g
}

fn expected_urls(base: &str) -> Vec<String> {
    let mut expected = vec![
        format!("{}/crawl", base),
        format!("{}/crawl2", base),
        format!("{}/crawl3", base),
        format!("{}/crawl4", base),
        format!("{}/crawl5", base),
        format!("{}/crawl6", base),
        format!("{}/crawl7", base),
        format!("{}/crawl8", base),
    ];
    expected.sort();
    expected
}

#[test]
fn crawl_list_count_test() {
    let base = "http://127.0.0.1:3030";
    let seed = format!("{}/crawl", base);
    let g = scenario_graph(base);
    let mut store = Store::new();

    // list and count before any crawl: the seed is not crawled
    assert!(store.get(&seed).is_none());
    assert!(store.count(&seed).is_none());

    // crawl succeeds and stores the result
    assert!(crawl_into_store(&mut store, &seed, 4, &g).is_ok());

    // list: the stored set is the eight reachable URLs
    let mut actual = store.get(&seed).expect("crawled seed must be stored").clone();
    actual.sort();
    assert_eq!(actual, expected_urls(base));

    // count: the stored set has eight members
    assert_eq!(store.count(&seed), Some(8));
}

#[test]
fn crawl_twice_gives_identical_sets() {
    let base = "http://example.com";
    let seed = format!("{}/crawl", base);
    let g = scenario_graph(base);
    let mut first = crawl_from_graph(&seed, 4, &g).expect("crawl must succeed");
    let mut second = crawl_from_graph(&seed, 4, &g).expect("crawl must succeed");
    first.sort();
    second.sort();
    assert_eq!(first, second);
}

#[test]
fn concurrency_does_not_change_the_result() {
    let base = "http://example.com";
    let seed = format!("{}/crawl", base);
    let g = scenario_graph(base);
    let mut narrow = crawl_from_graph(&seed, 1, &g).expect("crawl must succeed");
    let mut wide = crawl_from_graph(&seed, 64, &g).expect("crawl must succeed");
    narrow.sort();
    wide.sort();
    assert_eq!(narrow, wide);
}

#[test]
fn result_has_no_duplicates() {
    let base = "http://example.com";
    let seed = format!("{}/crawl", base);
    let g = scenario_graph(base);
    let mut urls = crawl_from_graph(&seed, 4, &g).expect("crawl must succeed");
    let total = urls.len();
    urls.sort();
    urls.dedup();
    assert_eq!(urls.len(), total);
}

#[test]
fn seed_is_in_its_own_result() {
    let base = "http://example.com";
    let seed = format!("{}/crawl", base);
    let g = scenario_graph(base);
    let urls = crawl_from_graph(&seed, 4, &g).expect("crawl must succeed");
    assert!(urls.contains(&seed));
}

#[test]
fn failed_fetch_still_appears_but_adds_nothing() {
    let seed = String::from("http://example.com/a");
    let leaf = String::from("http://example.com/b");
    let beyond = String::from("http://example.com/c");
    let mut g = LinkGraph::new();
    // the leaf's own page would link on, but its fetch fails
    g.add_page(seed.clone(), vec![leaf.clone()]);
    let mut urls = crawl_from_graph(&seed, 4, &g).expect("crawl must succeed");
    urls.sort();
    assert_eq!(urls, vec![seed.clone(), leaf.clone()]);
    assert!(!urls.contains(&beyond));
}

#[test]
fn seed_without_links_is_alone() {
    let seed = String::from("http://example.com/only");
    let mut g = LinkGraph::new();
    g.add_page(seed.clone(), Vec::new());
    let urls = crawl_from_graph(&seed, 4, &g).expect("crawl must succeed");
    assert_eq!(urls, vec![seed]);
}

#[test]
fn cycles_and_self_links_terminate() {
    let seed = String::from("http://example.com/x");
    let other = String::from("http://example.com/y");
    let mut g = LinkGraph::new();
    g.add_page(seed.clone(), vec![seed.clone(), other.clone()]);
    g.add_page(other.clone(), vec![seed.clone()]);
    let mut urls = crawl_from_graph(&seed, 4, &g).expect("crawl must succeed");
    urls.sort();
    assert_eq!(urls, vec![seed, other]);
}

#[test]
fn malformed_seed_is_rejected() {
    let seed = String::from("not a url");
    let g = LinkGraph::new();
    assert!(matches!(crawl_from_graph(&seed, 4, &g), Err(CrawlError::InvalidSeed)));
}

#[test]
fn unreachable_seed_is_rejected_and_stores_nothing() {
    let seed = String::from("http://example.com/nowhere");
    let g = LinkGraph::new();
    let mut store = Store::new();
    assert!(matches!(
        crawl_into_store(&mut store, &seed, 4, &g),
        Err(CrawlError::SeedUnreachable)
    ));
    assert!(store.get(&seed).is_none());
    assert!(store.count(&seed).is_none());
}

#[test]
fn validate_seed_accepts_urls_and_rejects_the_rest() {
    assert!(validate_seed(&String::from("http://example.com/crawl")).is_ok());
    assert!(matches!(
        validate_seed(&String::from("no scheme at all")),
        Err(CrawlError::InvalidSeed)
    ));
}

#[test]
fn engine_steps_mirror_one_round_trip() {
    let seed = String::from("http://example.com/root");
    let child = String::from("http://example.com/leaf");
    let mut c = Crawl::new(seed.clone());
    assert!(!c.is_done());
    let claimed = c.claim().expect("the seed is pending");
    assert_eq!(claimed, seed);
    c.complete(&vec![child.clone()]);
    let next = c.claim().expect("the discovered link is pending");
    assert_eq!(next, child);
    c.fail();
    assert!(c.is_done());
    let mut urls = c.into_result();
    urls.sort();
    assert_eq!(urls, vec![child, seed]);
}
