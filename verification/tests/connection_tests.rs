//! Two connection endpoints over one wire: capability round trips, frame
//! delivery, and teardown.

use hearth::connection::Connection;
use hearth::model::EntryKind;
use hearth::signal::{Capability, Signal};
use hearth::store::{ProcessEntry, ProcessStore};
use hearth::types::Flags;
use hearth::wire::{decode, encode, Frame, WireCap};

fn insert_forward(store: &mut ProcessStore) -> usize {
    store.insert(ProcessEntry { open: true, kind: EntryKind::Local })
}

#[test]
fn round_trip_capability() {
    // Peer A exports its root; B imports it, then echoes it back inside a
    // message; the capability resolves at A to the very same handle.
    let mut store_a = ProcessStore::new();
    let mut conn_a = Connection::new();
    let mut store_b = ProcessStore::new();
    let mut conn_b = Connection::new();

    let root_a = insert_forward(&mut store_a);
    let root_cap = Capability::new(root_a, Flags::all());
    let offered = root_cap.clone(&mut store_a);
    let wire_root = conn_a.export_cap(&mut store_a, offered);
    assert_eq!(wire_root, WireCap::Export { id: 0, flags: Flags::all().0 });

    // B receives the root export and holds a proxy for it.
    let proxy_cap = conn_b
        .import_cap(&mut store_b, WireCap::Export { id: 0, flags: Flags::all().0 })
        .unwrap();
    assert!(store_b.contains(proxy_cap.get_handle()));

    // B echoes the capability back: it crosses in A's namespace.
    let echo = proxy_cap.clone(&mut store_b);
    let wire_back = conn_b.export_cap(&mut store_b, echo);
    assert_eq!(wire_back, WireCap::Import { id: 0, flags: Flags::all().0 });

    // A frame carries it over the wire byte-for-byte.
    let frame = Frame::Send { id: 0, data: vec![42], caps: vec![wire_back] };
    let bytes = encode(&frame);
    let arrived = decode(&bytes).unwrap();
    match arrived {
        Frame::Send { id, data, caps } => {
            assert!(conn_a.handle_send(&mut store_a, id, data, caps));
        }
        _ => panic!("wrong frame kind arrived"),
    }

    // The message reached the root with the round-tripped capability
    // resolved to the original handle and permissions.
    match store_a.next_signal(root_a) {
        Some(Signal::Message(m)) => {
            assert_eq!(m.data, vec![42]);
            assert_eq!(m.caps.len(), 1);
            assert_eq!(m.caps[0].get_handle(), root_a);
            assert_eq!(m.caps[0].get_flags(), Flags::all());
        }
        other => panic!("expected the echoed message, got {:?}", other),
    }
}

#[test]
fn same_export_keeps_its_identifier() {
    let mut store = ProcessStore::new();
    let mut conn = Connection::new();
    let p = insert_forward(&mut store);
    let cap = Capability::new(p, Flags::all());
    let dup1 = cap.clone(&mut store);
    let first = conn.export_cap(&mut store, dup1);
    let dup2 = cap.clone(&mut store);
    let second = conn.export_cap(&mut store, dup2);
    assert_eq!(first, WireCap::Export { id: 0, flags: Flags::all().0 });
    assert_eq!(second, WireCap::Export { id: 0, flags: Flags::all().0 });
}

#[test]
fn same_import_collapses_to_one_proxy() {
    let mut store = ProcessStore::new();
    let mut conn = Connection::new();
    let a = conn.import_cap(&mut store, WireCap::Export { id: 4, flags: 0 }).unwrap();
    let b = conn.import_cap(&mut store, WireCap::Export { id: 4, flags: 0 }).unwrap();
    assert_eq!(a.get_handle(), b.get_handle());
    assert_eq!(store.ref_count(a.get_handle()), 3);
}

#[test]
fn remote_revocation_on_disconnect() {
    // A exported a capability to B; B linked a local process to its proxy.
    // Dropping the stream closes both endpoints: A's export reference is
    // released, B's proxy is killed and the linked process hears of it.
    let mut store_a = ProcessStore::new();
    let mut conn_a = Connection::new();
    let mut store_b = ProcessStore::new();
    let mut conn_b = Connection::new();

    let p = insert_forward(&mut store_a);
    let cap = Capability::new(p, Flags::all());
    let dup = cap.clone(&mut store_a);
    conn_a.export_cap(&mut store_a, dup);
    assert_eq!(store_a.ref_count(p), 2);

    let proxy = conn_b
        .import_cap(&mut store_b, WireCap::Export { id: 0, flags: Flags::all().0 })
        .unwrap();
    let watcher = insert_forward(&mut store_b);
    store_b.link(proxy.get_handle(), watcher);
    proxy.free(&mut store_b);

    conn_a.close(&mut store_a);
    assert_eq!(store_a.ref_count(p), 1);

    conn_b.close(&mut store_b);
    assert_eq!(
        store_b.next_signal(watcher),
        Some(Signal::Unlink { subject: proxy.get_handle() })
    );
}

#[test]
fn kill_frame_respects_permissions() {
    let mut store = ProcessStore::new();
    let mut conn = Connection::new();
    let p = insert_forward(&mut store);
    let no_kill = Capability::new(p, Flags::empty());
    let dup = no_kill.clone(&mut store);
    conn.export_cap(&mut store, dup);
    assert!(!conn.handle_kill(&mut store, 0));
    assert!(store.is_alive(p));

    let q = insert_forward(&mut store);
    let with_kill = Capability::new(q, Flags::all());
    let dup_q = with_kill.clone(&mut store);
    conn.export_cap(&mut store, dup_q);
    assert!(conn.handle_kill(&mut store, 1));
    assert!(!store.is_alive(q));
}

#[test]
fn revoke_frame_releases_the_export() {
    let mut store = ProcessStore::new();
    let mut conn = Connection::new();
    let p = insert_forward(&mut store);
    let cap = Capability::new(p, Flags::all());
    let dup1 = cap.clone(&mut store);
    conn.export_cap(&mut store, dup1);
    let dup2 = cap.clone(&mut store);
    conn.export_cap(&mut store, dup2);
    assert_eq!(store.ref_count(p), 3);
    assert!(conn.handle_revoke(&mut store, 0));
    assert_eq!(store.ref_count(p), 1);
    assert!(!conn.handle_revoke(&mut store, 0));
}

#[test]
fn link_frame_links_two_exports() {
    let mut store = ProcessStore::new();
    let mut conn = Connection::new();
    let s = insert_forward(&mut store);
    let o = insert_forward(&mut store);
    let cs = Capability::new(s, Flags::all()).clone(&mut store);
    conn.export_cap(&mut store, cs);
    let co = Capability::new(o, Flags::all()).clone(&mut store);
    conn.export_cap(&mut store, co);
    assert!(conn.handle_link(&mut store, 0, 1));
    store.kill(s);
    assert_eq!(store.next_signal(o), Some(Signal::Unlink { subject: s }));
}

#[test]
fn unlink_frame_kills_the_proxy() {
    let mut store = ProcessStore::new();
    let mut conn = Connection::new();
    let proxy = conn.import_cap(&mut store, WireCap::Export { id: 2, flags: 0 }).unwrap();
    let watcher = insert_forward(&mut store);
    store.link(proxy.get_handle(), watcher);
    assert!(conn.handle_unlink(&mut store, 2));
    assert_eq!(
        store.next_signal(watcher),
        Some(Signal::Unlink { subject: proxy.get_handle() })
    );
}

#[test]
fn outbound_message_becomes_send_frame() {
    // Signals landing in a proxy's mailbox forward to the owning peer: a
    // message turns into a send frame under the remote identifier, its
    // capabilities encoded exactly as an export would encode them.
    let mut store = ProcessStore::new();
    let mut conn = Connection::new();
    let proxy = conn
        .import_cap(&mut store, WireCap::Export { id: 7, flags: Flags::all().0 })
        .unwrap();
    let p = proxy.get_handle();

    // A local capability rides along, and so does the proxy itself.
    let local = insert_forward(&mut store);
    let local_cap = Capability::new(local, Flags::all());
    let carried_local = local_cap.clone(&mut store);
    let carried_proxy = proxy.clone(&mut store);
    store.send(
        p,
        hearth::signal::Message { data: vec![9, 9], caps: vec![carried_local, carried_proxy] },
    );

    let sig = store.next_signal(p).expect("the proxy queued the message");
    let frame = conn.signal_to_frame(&mut store, p, sig);
    match frame {
        Some(Frame::Send { id, data, caps }) => {
            assert_eq!(id, 7);
            assert_eq!(data, vec![9, 9]);
            // The local capability was exported fresh; the proxy went back
            // in the peer's own namespace.
            assert_eq!(caps[0], WireCap::Export { id: 0, flags: Flags::all().0 });
            assert_eq!(caps[1], WireCap::Import { id: 7, flags: Flags::all().0 });
        }
        other => panic!("expected a send frame, got {:?}", other),
    }
}

#[test]
fn outbound_kill_becomes_kill_frame() {
    let mut store = ProcessStore::new();
    let mut conn = Connection::new();
    let proxy = conn
        .import_cap(&mut store, WireCap::Export { id: 3, flags: Flags::all().0 })
        .unwrap();
    let p = proxy.get_handle();
    store.kill(p);
    let sig = store.next_signal(p).expect("the kill was queued");
    assert_eq!(sig, Signal::Kill);
    let frame = conn.signal_to_frame(&mut store, p, sig);
    assert_eq!(frame, Some(Frame::Kill { id: 3 }));
}

#[test]
fn outbound_unlink_uses_export_identifier() {
    // A local process linked to a proxy dies: the unlink signal forwards
    // under the identifier the subject is exported with, and is swallowed
    // when the subject was never exported.
    let mut store = ProcessStore::new();
    let mut conn = Connection::new();
    let proxy = conn
        .import_cap(&mut store, WireCap::Export { id: 1, flags: Flags::all().0 })
        .unwrap();
    let p = proxy.get_handle();

    let subject = insert_forward(&mut store);
    let sub_cap = Capability::new(subject, Flags::all());
    let exported = sub_cap.clone(&mut store);
    let wire = conn.export_cap(&mut store, exported);
    assert_eq!(wire, WireCap::Export { id: 0, flags: Flags::all().0 });

    store.link(subject, p);
    store.kill(subject);
    let sig = store.next_signal(p).expect("the unlink was queued");
    assert_eq!(sig, Signal::Unlink { subject });
    let before = store.ref_count(subject);
    let frame = conn.signal_to_frame(&mut store, p, sig);
    assert_eq!(frame, Some(Frame::Unlink { subject: 0 }));
    // The signal's reference on the subject was released.
    assert_eq!(store.ref_count(subject), before - 1);
}

#[test]
fn revoke_emitted_when_import_goes_unused() {
    let mut store = ProcessStore::new();
    let mut conn = Connection::new();
    let proxy = conn
        .import_cap(&mut store, WireCap::Export { id: 5, flags: Flags::all().0 })
        .unwrap();
    let p = proxy.get_handle();

    // While a local capability still holds the proxy, nothing is owed.
    assert_eq!(conn.revoke_if_unused(&mut store, 5), None);
    proxy.free(&mut store);

    // The table's own reference is the last: the revoke goes out and the
    // proxy entry goes away.
    assert_eq!(conn.revoke_if_unused(&mut store, 5), Some(Frame::Revoke { id: 5 }));
    assert!(!store.contains(p));
    assert_eq!(conn.revoke_if_unused(&mut store, 5), None);
}

#[test]
fn unlink_emitted_for_dead_export() {
    let mut store = ProcessStore::new();
    let mut conn = Connection::new();
    let local = insert_forward(&mut store);
    let cap = Capability::new(local, Flags::all());
    let exported = cap.clone(&mut store);
    let wire = conn.export_cap(&mut store, exported);
    assert_eq!(wire, WireCap::Export { id: 0, flags: Flags::all().0 });

    assert_eq!(conn.unlink_for_export(&store, 0), None);
    store.kill(local);
    assert_eq!(conn.unlink_for_export(&store, 0), Some(Frame::Unlink { subject: 0 }));
    assert_eq!(conn.unlink_for_export(&store, 9), None);
}
