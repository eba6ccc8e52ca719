use composite_broker::tree::{parse_filter, parse_topic, FilterLevel, SubscriptionTree};

fn filter(s: &str) -> Vec<FilterLevel> {
    parse_filter(&s.as_bytes().to_vec()).expect("filter should parse")
}

fn topic(s: &str) -> Vec<Vec<u8>> {
    parse_topic(&s.as_bytes().to_vec()).expect("topic should parse")
}

#[test]
fn parse_filter_splits_levels() {
    let f = filter("a/+/c");
    assert_eq!(f.len(), 3);
    assert_eq!(f[0], FilterLevel::Concrete(b"a".to_vec()));
    assert_eq!(f[1], FilterLevel::SingleLevelWildcard);
    assert_eq!(f[2], FilterLevel::Concrete(b"c".to_vec()));
    let g = filter("a/#");
    assert_eq!(g.len(), 2);
    assert_eq!(g[1], FilterLevel::MultiLevelWildcard);
}

#[test]
fn parse_filter_rejects_bad_filters() {
    assert!(parse_filter(&b"".to_vec()).is_none());
    assert!(parse_filter(&b"a/#/b".to_vec()).is_none());
    assert!(parse_filter(&b"a/b+c".to_vec()).is_none());
    assert!(parse_filter(&b"a/b#".to_vec()).is_none());
}

#[test]
fn parse_topic_splits_segments() {
    let t = topic("a/b/c");
    assert_eq!(t, vec![b"a".to_vec(), b"b".to_vec(), b"c".to_vec()]);
    assert!(parse_topic(&b"".to_vec()).is_none());
    assert!(parse_topic(&b"a/+/c".to_vec()).is_none());
}

#[test]
fn single_level_wildcard_matches_one_segment() {
    let mut tree: SubscriptionTree<u32> = SubscriptionTree::new();
    tree.insert(&filter("a/+/c"), 7);
    assert_eq!(tree.matching_subscribers(&topic("a/b/c")), vec![7]);
    assert_eq!(tree.matching_subscribers(&topic("a/b/x")), Vec::<u32>::new());
}

#[test]
fn multi_level_wildcard_matches_trailing_segments() {
    let mut tree: SubscriptionTree<u32> = SubscriptionTree::new();
    tree.insert(&filter("a/#"), 9);
    assert_eq!(tree.matching_subscribers(&topic("a")), vec![9]);
    assert_eq!(tree.matching_subscribers(&topic("a/b")), vec![9]);
    assert_eq!(tree.matching_subscribers(&topic("a/b/c")), vec![9]);
    assert_eq!(tree.matching_subscribers(&topic("b")), Vec::<u32>::new());
}

#[test]
fn reserved_marker_is_kept_from_wildcards() {
    let mut tree: SubscriptionTree<u32> = SubscriptionTree::new();
    tree.insert(&filter("#"), 1);
    assert_eq!(tree.matching_subscribers(&topic("$SYS/stats")), Vec::<u32>::new());
    assert_eq!(tree.matching_subscribers(&topic("stats")), vec![1]);

    let mut tree2: SubscriptionTree<u32> = SubscriptionTree::new();
    tree2.insert(&filter("$SYS/#"), 2);
    assert_eq!(tree2.matching_subscribers(&topic("$SYS/stats")), vec![2]);

    let mut tree3: SubscriptionTree<u32> = SubscriptionTree::new();
    tree3.insert(&filter("+/stats"), 3);
    assert_eq!(tree3.matching_subscribers(&topic("$SYS/stats")), Vec::<u32>::new());
}

#[test]
fn exact_and_wildcard_subscribers_both_match() {
    let mut tree: SubscriptionTree<u32> = SubscriptionTree::new();
    let h1 = tree.insert(&filter("a/b"), 1);
    let h2 = tree.insert(&filter("a/+"), 2);
    let h3 = tree.insert(&filter("#"), 3);
    assert_ne!(h1, h2);
    assert_ne!(h2, h3);
    let got = tree.matching_subscribers(&topic("a/b"));
    assert_eq!(got.len(), 3);
    assert!(got.contains(&1));
    assert!(got.contains(&2));
    assert!(got.contains(&3));
}

#[test]
fn remove_by_handle_prunes_empty_nodes() {
    let mut tree: SubscriptionTree<u32> = SubscriptionTree::new();
    let h = tree.insert(&filter("a/b/c"), 5);
    assert!(!tree.is_empty());
    // a handle never issued removes nothing
    assert_eq!(tree.remove(&filter("a/b/c"), h + 1), None);
    assert_eq!(tree.remove(&filter("a/b/c"), h), Some(5));
    assert!(tree.is_empty());
    // removing along a path that is gone finds nothing
    assert_eq!(tree.remove(&filter("a/b/c"), h), None);
}

#[test]
fn remove_keeps_other_subscriptions() {
    let mut tree: SubscriptionTree<u32> = SubscriptionTree::new();
    let h1 = tree.insert(&filter("a/+"), 1);
    let h2 = tree.insert(&filter("a/#"), 2);
    assert_eq!(tree.remove(&filter("a/+"), h1), Some(1));
    assert!(!tree.is_empty());
    assert_eq!(tree.matching_subscribers(&topic("a/b")), vec![2]);
    assert_eq!(tree.remove(&filter("a/#"), h2), Some(2));
    assert!(tree.is_empty());
}
