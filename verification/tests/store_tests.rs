//! The process store: signalling, linking and reference counting.

use hearth::model::EntryKind;
use hearth::signal::{Capability, Message, Signal};
use hearth::store::{ProcessEntry, ProcessStore};
use hearth::types::Flags;

/// An empty store.
fn make_store() -> ProcessStore {
    ProcessStore::new()
}

/// An entry whose receiver is gone: signals sent to it are freed.
fn insert_mock(store: &mut ProcessStore) -> usize {
    store.insert(ProcessEntry { open: false, kind: EntryKind::Local })
}

/// An entry that receives signals into its mailbox.
fn insert_forward(store: &mut ProcessStore) -> usize {
    store.insert(ProcessEntry { open: true, kind: EntryKind::Local })
}

#[test]
fn create_store() {
    let _store = make_store();
}

#[test]
fn send() {
    let mut store = make_store();
    let handle = insert_forward(&mut store);

    let message = Message { data: b"Hello, world!".to_vec(), caps: vec![] };

    let copy = message.clone(&mut store);
    store.send(handle, copy);
    assert_eq!(store.next_signal(handle), Some(Signal::Message(message)));
}

#[test]
fn send_dead() {
    let mut store = make_store();
    let handle = insert_forward(&mut store);

    store.kill(handle);
    assert_eq!(store.next_signal(handle), Some(Signal::Kill));

    store.send(handle, Message { data: vec![], caps: vec![] });

    assert!(store.next_signal(handle).is_none());
}

#[test]
fn store_link() {
    let mut store = make_store();
    let subject = insert_mock(&mut store);
    let object = insert_forward(&mut store);
    store.link(subject, object);
    store.kill(subject);
    assert_eq!(store.next_signal(object), Some(Signal::Unlink { subject }));
}

#[test]
fn link_dead() {
    let mut store = make_store();
    let subject = insert_mock(&mut store);
    let object = insert_forward(&mut store);
    store.kill(subject);
    store.link(subject, object);
    assert_eq!(store.next_signal(object), Some(Signal::Unlink { subject }));
}

#[test]
fn ref_counting() {
    let mut store = make_store();
    let handle = insert_mock(&mut store);
    assert!(store.contains(handle));
    store.dec_ref(handle);
    assert!(!store.contains(handle));
}

#[test]
fn kill() {
    let mut store = make_store();
    let handle = insert_mock(&mut store);
    assert!(store.is_alive(handle));
    store.kill(handle);
    assert!(!store.is_alive(handle));
}

#[test]
fn double_kill() {
    let mut store = make_store();
    let handle = insert_mock(&mut store);
    store.kill(handle);
    store.kill(handle);
}

#[test]
fn link_object_holds_reference() {
    // A link holds a reference on its object, never on its subject: the
    // subject's last outside reference removes it at once and releases the
    // reference its link held on the object.
    let mut store = make_store();
    let subject = insert_mock(&mut store);
    let object = insert_mock(&mut store);
    store.link(subject, object);
    store.dec_ref(subject);
    assert!(!store.contains(subject));
    assert_eq!(store.ref_count(object), 1);
    store.dec_ref(object);
    assert!(!store.contains(object));
}

#[test]
fn link_subject_holds_reference() {
    // The link's reference on the object is the store's own: when the last
    // outside reference on the object goes, the object is removed and
    // purged from the subject's link list, and the subject follows at its
    // own last release.
    let mut store = make_store();
    let subject = insert_mock(&mut store);
    let object = insert_mock(&mut store);
    store.link(subject, object);
    store.dec_ref(object);
    assert!(!store.contains(object));
    store.dec_ref(subject);
    assert!(!store.contains(subject));
}

#[test]
fn no_double_linking() {
    let mut store = make_store();
    let subject = insert_mock(&mut store);
    let object = insert_forward(&mut store);
    store.link(subject, object);
    store.link(subject, object);
    store.kill(subject);
    assert_eq!(store.next_signal(object), Some(Signal::Unlink { subject }));
    assert!(store.next_signal(object).is_none());
}

#[test]
fn safe_message_drop() {
    let mut store = make_store();
    let handle = insert_mock(&mut store);

    let message = Message { data: vec![], caps: vec![Capability::new(handle, Flags::empty())] };

    store.send(handle, message);
    assert!(!store.contains(handle));
}

#[test]
fn capability_clone_and_free_track_the_count() {
    let mut store = make_store();
    let handle = insert_forward(&mut store);
    let cap = Capability::new(handle, Flags::all());
    assert_eq!(store.ref_count(handle), 1);
    let copy = cap.clone(&mut store);
    assert_eq!(store.ref_count(handle), 2);
    copy.free(&mut store);
    assert_eq!(store.ref_count(handle), 1);
    assert!(store.contains(handle));
    cap.free(&mut store);
    assert!(!store.contains(handle));
}

#[test]
fn send_without_permission_frees_the_message() {
    let mut store = make_store();
    let target = insert_forward(&mut store);
    let other = insert_forward(&mut store);
    let no_send = Capability::new(target, Flags::empty());
    let carried = Capability::new(other, Flags::empty()).clone(&mut store);
    assert_eq!(store.ref_count(other), 2);
    no_send.send(&mut store, Message { data: vec![7], caps: vec![carried] });
    // Rejected: nothing delivered, the carried reference released.
    assert!(store.next_signal(target).is_none());
    assert_eq!(store.ref_count(other), 1);
}
