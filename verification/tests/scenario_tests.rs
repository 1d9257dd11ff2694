//! End-to-end scenarios over one store: sends to the dead, cyclic links,
//! and links to the already dead.

use hearth::model::EntryKind;
use hearth::signal::{Capability, Message, Signal};
use hearth::store::{ProcessEntry, ProcessStore};
use hearth::types::Flags;

fn insert_mock(store: &mut ProcessStore) -> usize {
    store.insert(ProcessEntry { open: false, kind: EntryKind::Local })
}

fn insert_forward(store: &mut ProcessStore) -> usize {
    store.insert(ProcessEntry { open: true, kind: EntryKind::Local })
}

#[test]
fn send_to_dead() {
    let mut store = ProcessStore::new();
    let h = insert_forward(&mut store);
    let cap = Capability::new(h, Flags::all());
    let carried = cap.clone(&mut store);
    assert_eq!(store.ref_count(h), 2);

    store.kill(h);
    store.send(h, Message { data: vec![1, 2, 3], caps: vec![carried] });

    // No delivery beyond the kill itself; the carried capability was
    // freed, so the original reference stands alone again.
    assert_eq!(store.next_signal(h), Some(Signal::Kill));
    assert!(store.next_signal(h).is_none());
    assert!(store.contains(h));
    assert_eq!(store.ref_count(h), 1);
}

#[test]
fn cyclic_linking_deref() {
    // A mutual link leaves each entry holding the other, but removal is
    // driven by the outside references alone: once both are dropped, the
    // pair is collected even though the link cycle still stands.
    let mut store = ProcessStore::new();
    let a = insert_mock(&mut store);
    let b = insert_mock(&mut store);
    store.link(a, b);
    store.link(b, a);
    store.dec_ref(a);
    store.dec_ref(b);
    assert!(!store.contains(a));
    assert!(!store.contains(b));
}

#[test]
fn link_to_already_dead() {
    let mut store = ProcessStore::new();
    let s = insert_mock(&mut store);
    let o = insert_forward(&mut store);
    store.kill(s);
    assert_eq!(store.ref_count(s), 1);

    store.link(s, o);
    // The unlink arrived at once, carrying one fresh reference on the
    // subject; freeing the delivered signal releases it again.
    assert_eq!(store.ref_count(s), 2);
    let sig = store.next_signal(o).unwrap();
    assert_eq!(sig, Signal::Unlink { subject: s });
    sig.free(&mut store);
    assert_eq!(store.ref_count(s), 1);
}

#[test]
fn kill_notifies_every_linked_object_once() {
    let mut store = ProcessStore::new();
    let p = insert_mock(&mut store);
    let o1 = insert_forward(&mut store);
    let o2 = insert_forward(&mut store);
    store.link(p, o1);
    store.link(p, o2);
    store.kill(p);
    assert_eq!(store.next_signal(o1), Some(Signal::Unlink { subject: p }));
    assert!(store.next_signal(o1).is_none());
    assert_eq!(store.next_signal(o2), Some(Signal::Unlink { subject: p }));
    assert!(store.next_signal(o2).is_none());
}

#[test]
fn signal_clone_tracks_references() {
    let mut store = ProcessStore::new();
    let s = insert_forward(&mut store);
    let sig = Signal::Unlink { subject: s };
    store.inc_ref(s);
    assert_eq!(store.ref_count(s), 2);
    let copy = sig.clone(&mut store);
    assert_eq!(store.ref_count(s), 3);
    copy.free(&mut store);
    sig.free(&mut store);
    assert_eq!(store.ref_count(s), 1);
}
