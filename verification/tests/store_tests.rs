use crawler::store::Store;

#[test]
fn put_overwrites_never_merges() {
    let seed = String::from("http://example.com/crawl");
    let a = vec![String::from("http://example.com/a")];
    let b = vec![
        String::from("http://example.com/b1"),
        String::from("http://example.com/b2"),
    ];
    let mut store = Store::new();
    store.put(seed.clone(), a.clone());
    store.put(seed.clone(), b.clone());
    assert_eq!(store.get(&seed), Some(&b));
    assert_eq!(store.count(&seed), Some(2));
    assert!(!store.get(&seed).unwrap().contains(&a[0]));
}

#[test]
fn uncrawled_seed_is_absent_not_empty() {
    let store = Store::new();
    let seed = String::from("http://example.com/never");
    assert_eq!(store.get(&seed), None);
    assert_eq!(store.count(&seed), None);
}

#[test]
fn entries_for_different_seeds_are_independent() {
    let s1 = String::from("http://one.example");
    let s2 = String::from("http://two.example");
    let r1 = vec![String::from("http://one.example/p")];
    let r2 = vec![
        String::from("http://two.example/p"),
        String::from("http://two.example/q"),
    ];
    let mut store = Store::new();
    store.put(s1.clone(), r1.clone());
    store.put(s2.clone(), r2.clone());
    assert_eq!(store.get(&s1), Some(&r1));
    assert_eq!(store.get(&s2), Some(&r2));
    assert_eq!(store.count(&s1), Some(1));
    assert_eq!(store.count(&s2), Some(2));
}

#[test]
fn an_empty_result_counts_as_crawled() {
    let seed = String::from("http://example.com/empty");
    let mut store = Store::new();
    store.put(seed.clone(), Vec::new());
    assert_eq!(store.get(&seed), Some(&Vec::new()));
    assert_eq!(store.count(&seed), Some(0));
}
