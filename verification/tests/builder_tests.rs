//! The build and finish phases: plugin dedup, the drain fixpoint, and the
//! service-start count.

use hearth::builder::RuntimeBuilder;

#[test]
fn plugins_are_added_once() {
    let mut b = RuntimeBuilder::new();
    assert!(b.add_plugin(7));
    assert!(!b.add_plugin(7));
    assert!(b.add_plugin(8));
}

#[test]
fn finish_drains_each_plugin_exactly_once() {
    let mut b = RuntimeBuilder::new();
    b.add_plugin(1);
    b.add_plugin(2);
    // The first hook adds a new plugin and re-adds a finished one, which
    // is dropped; every plugin is finished exactly once.
    let mut finished = Vec::new();
    let first = b.finish_next(vec![3, 2]).unwrap();
    finished.push(first);
    assert_eq!(first, 2);
    while let Some(p) = b.finish_next(vec![]) {
        assert!(!finished.contains(&p));
        finished.push(p);
    }
    finished.sort();
    assert_eq!(finished, vec![1, 2, 3]);
    assert_eq!(b.finish_next(vec![]), None);
}

#[test]
fn finished_plugins_never_come_back() {
    let mut b = RuntimeBuilder::new();
    b.add_plugin(5);
    assert_eq!(b.finish_next(vec![5]), Some(5));
    assert_eq!(b.finish_next(vec![]), None);
    assert!(!b.add_plugin(5));
}

#[test]
fn service_names_are_unique_and_counted() {
    let mut b = RuntimeBuilder::new();
    assert!(b.add_service("window".to_string()));
    assert!(!b.add_service("window".to_string()));
    assert!(b.add_service("terminal".to_string()));
    assert!(!b.service_started());
    assert!(b.service_started());
}
