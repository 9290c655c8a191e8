use dsa_sim::narration::PendingExplain;

fn call(n: &str, k: &str, t: &str) -> (String, String, String) {
    (n.to_string(), k.to_string(), t.to_string())
}

#[test]
fn explain_key_narrated_once_per_run() {
    let mut p = PendingExplain::new();
    assert!(p.record("a".to_string(), "intro".to_string(), "hello".to_string()));
    assert!(!p.record("b".to_string(), "intro".to_string(), "again".to_string()));
    p.record_frame(vec![call("b", "step", "one"), call("c", "intro", "x"), call("c", "step", "y")]);
    let keys: Vec<&str> = p.queue.iter().map(|e| e.key.as_str()).collect();
    assert_eq!(keys, vec!["intro", "step"]);
    assert_eq!(p.queue[1].node_name, "b");
    assert_eq!(p.queue[1].text, "one");
}

#[test]
fn show_next_pops_front_for_live_node() {
    let mut p = PendingExplain::new();
    p.record_frame(vec![call("gone", "k1", "t1"), call("a", "k2", "t2"), call("a", "k3", "t3")]);
    let live = vec!["a".to_string()];
    assert!(p.show_next(true, &live).is_none());
    assert_eq!(p.queue.len(), 3);
    // the first entry's node no longer exists: it is dropped
    assert!(p.show_next(false, &live).is_none());
    assert_eq!(p.queue.len(), 2);
    let e = p.show_next(false, &live).unwrap();
    assert_eq!(e.key, "k2");
    assert_eq!(p.showing, Some("a".to_string()));
    assert!(!p.dismiss());
    assert_eq!(p.showing, None);
    let e = p.show_next(false, &live).unwrap();
    assert_eq!(e.text, "t3");
    assert!(p.dismiss());
}

#[test]
fn reset_starts_a_fresh_run() {
    let mut p = PendingExplain::new();
    p.record("a".to_string(), "k".to_string(), "t".to_string());
    p.showing = Some("a".to_string());
    p.reset();
    assert!(p.queue.is_empty());
    assert!(p.seen.is_empty());
    assert_eq!(p.showing, None);
    assert!(p.record("a".to_string(), "k".to_string(), "t".to_string()));
}
