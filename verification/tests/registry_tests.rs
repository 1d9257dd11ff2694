//! The service registry, including replacement and the dead-service probe.

use hearth::model::EntryKind;
use hearth::signal::Capability;
use hearth::registry::Registry;
use hearth::store::{ProcessEntry, ProcessStore};
use hearth::types::Flags;

fn insert_mock(store: &mut ProcessStore) -> usize {
    store.insert(ProcessEntry { open: false, kind: EntryKind::Local })
}

#[test]
fn create_registry() {
    let _reg = Registry::new();
}

#[test]
fn insert_then_get() {
    let mut store = ProcessStore::new();
    let mut reg = Registry::new();
    let handle = insert_mock(&mut store);
    let cap = Capability::new(handle, Flags::empty());
    assert!(reg.insert("test".to_string(), cap).is_none());
    reg.get(&mut store, "test").unwrap().free(&mut store);
}

#[test]
fn get_dead() {
    let mut store = ProcessStore::new();
    let mut reg = Registry::new();
    let handle = insert_mock(&mut store);
    let cap = Capability::new(handle, Flags::empty());
    assert!(reg.insert("test".to_string(), cap).is_none());
    store.kill(handle);

    if let Some(cap) = reg.get(&mut store, "test") {
        cap.free(&mut store);
        panic!("dead process was not removed from registry");
    }
}

#[test]
fn service_replacement() {
    let mut store = ProcessStore::new();
    let mut reg = Registry::new();
    let p1 = store.insert(ProcessEntry { open: true, kind: EntryKind::Local });
    let p2 = store.insert(ProcessEntry { open: true, kind: EntryKind::Local });
    let c1 = Capability::new(p1, Flags::all());
    let c2 = Capability::new(p2, Flags::all());

    assert!(reg.insert("svc".to_string(), c1).is_none());
    let displaced = reg.insert("svc".to_string(), c2);
    assert_eq!(displaced, Some(c1));
    displaced.unwrap().free(&mut store);

    let got = reg.get(&mut store, "svc").unwrap();
    assert_eq!(got.get_handle(), p2);
    assert_eq!(got.get_flags(), Flags::all());
    got.free(&mut store);
}

#[test]
fn remove_detaches_the_name() {
    let mut store = ProcessStore::new();
    let mut reg = Registry::new();
    let p = insert_mock(&mut store);
    let cap = Capability::new(p, Flags::empty());
    assert!(reg.insert("gone".to_string(), cap).is_none());
    let removed = reg.remove("gone").unwrap();
    assert_eq!(removed.get_handle(), p);
    removed.free(&mut store);
    assert!(reg.get(&mut store, "gone").is_none());
    assert!(reg.remove("gone").is_none());
}

#[test]
fn list_names() {
    let mut store = ProcessStore::new();
    let mut reg = Registry::new();
    let p = insert_mock(&mut store);
    reg.insert("one".to_string(), Capability::new(p, Flags::empty()));
    let names = reg.list();
    assert_eq!(names, vec!["one".to_string()]);
}
