use vega::{reconcile, Signature};

fn sig(app: &str, title: &str) -> Signature {
    Signature::new(String::from(app), String::from(title))
}

#[test]
fn reconcile_drops_vanished_and_appends_new() {
    let persisted = vec![sig("A", "a"), sig("B", "b"), sig("C", "c")];
    let live = vec![sig("B", "b"), sig("C", "c"), sig("D", "d")];
    let order = reconcile(&persisted, &live);
    // A vanished and is dropped, B and C keep their order, D is appended
    assert_eq!(order, vec![0, 1, 2]);
    let names: Vec<&str> = order.iter().map(|&i| live[i].app_name.as_str()).collect();
    assert_eq!(names, vec!["B", "C", "D"]);
}

#[test]
fn reconcile_keeps_persisted_order_over_discovery_order() {
    let persisted = vec![sig("C", "c"), sig("A", "a")];
    let live = vec![sig("A", "a"), sig("B", "b"), sig("C", "c")];
    let order = reconcile(&persisted, &live);
    assert_eq!(order, vec![2, 0, 1]);
}

#[test]
fn reconcile_is_a_bijection_onto_the_live_set() {
    let persisted = vec![sig("X", "1"), sig("Y", "2"), sig("Z", "3")];
    let live = vec![sig("Y", "2"), sig("Q", "q"), sig("X", "1"), sig("R", "r")];
    let order = reconcile(&persisted, &live);
    assert_eq!(order.len(), live.len());
    let mut seen = vec![false; live.len()];
    for &i in &order {
        assert!(i < live.len());
        assert!(!seen[i]);
        seen[i] = true;
    }
    assert!(seen.into_iter().all(|s| s));
}

#[test]
fn reconcile_duplicate_signatures_consume_in_discovery_order() {
    let persisted = vec![sig("X", "x")];
    let live = vec![sig("X", "x"), sig("X", "x")];
    let order = reconcile(&persisted, &live);
    assert_eq!(order, vec![0, 1]);
}

#[test]
fn reconcile_empty_persisted_keeps_discovery_order() {
    let persisted: Vec<Signature> = Vec::new();
    let live = vec![sig("A", "a"), sig("B", "b")];
    assert_eq!(reconcile(&persisted, &live), vec![0, 1]);
}

#[test]
fn reconcile_empty_live_is_empty() {
    let persisted = vec![sig("A", "a")];
    let live: Vec<Signature> = Vec::new();
    assert_eq!(reconcile(&persisted, &live), Vec::<usize>::new());
}

#[test]
fn reconcile_matches_on_both_name_and_title() {
    let persisted = vec![sig("A", "old title")];
    let live = vec![sig("A", "new title")];
    // the title changed, so the persisted entry does not match
    assert_eq!(reconcile(&persisted, &live), vec![0]);
}
