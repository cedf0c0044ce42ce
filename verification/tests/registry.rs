use herdr_muster::registry::Registry;

#[test]
fn bind_unbind_lookup() {
    let mut r = Registry::default();
    r.bind("/a", "w1");
    assert_eq!(r.workspace_for("/a").map(String::as_str), Some("w1"));
    r.unbind("/a");
    assert!(r.workspace_for("/a").is_none());
}

#[test]
fn reconcile_drops_dead() {
    let mut r = Registry::default();
    r.bind("/a", "w1");
    r.bind("/b", "w2");
    let live: Vec<String> = ["w2".to_string()].into_iter().collect();
    assert!(r.reconcile(&live));
    assert!(r.workspace_for("/a").is_none());
    assert_eq!(r.workspace_for("/b").map(String::as_str), Some("w2"));
}

#[test]
fn reconcile_twice_reports_no_change() {
    let mut r = Registry::new();
    r.bind("/a", "w1");
    r.bind("/b", "w2");
    let live = vec!["w1".to_string(), "w2".to_string()];
    assert!(!r.reconcile(&live));
    assert_eq!(r.live_map().len(), 2);
    let live = vec!["w2".to_string()];
    assert!(r.reconcile(&live));
    assert!(!r.reconcile(&live));
}

#[test]
fn rebinding_replaces_and_keeps_others() {
    let mut r = Registry::new();
    r.bind("/a", "w1");
    r.bind("/b", "w2");
    r.bind("/a", "w3");
    assert_eq!(r.workspace_for("/a").map(String::as_str), Some("w3"));
    assert_eq!(r.workspace_for("/b").map(String::as_str), Some("w2"));
    assert_eq!(r.live_map().len(), 2);
    r.unbind("/zzz");
    assert_eq!(r.live_map().len(), 2);
}

#[test]
fn rebuilt_from_its_pairs_is_the_same() {
    let mut r = Registry::new();
    r.bind("/a", "w1");
    r.bind("/b", "w2");
    let again = Registry::from_pairs(&r.live_map());
    assert_eq!(again.workspace_for("/a").map(String::as_str), Some("w1"));
    assert_eq!(again.workspace_for("/b").map(String::as_str), Some("w2"));
    assert_eq!(again.live_map().len(), 2);
    let later_wins = Registry::from_pairs(&[
        ("/a".to_string(), "w1".to_string()),
        ("/a".to_string(), "w9".to_string()),
    ]);
    assert_eq!(later_wins.workspace_for("/a").map(String::as_str), Some("w9"));
}
