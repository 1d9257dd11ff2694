//! The assembled runtime, the factory and the peer provider.

use hearth::factory::{ProcessFactory, ProcessFactoryImpl};
use hearth::peer::PeerProviderImpl;
use hearth::rpc_types::{PeerInfo, ProcessInfo};
use hearth::runtime::{ResourceError, Runtime, RuntimeConfig};
use hearth::store::ProcessStore;
use hearth::types::{Flags, LocalProcessId, LumpId, PeerId};

fn info() -> ProcessInfo {
    ProcessInfo { source_lump: LumpId([0; 32]) }
}

#[test]
fn factory_assigns_dense_identifiers() {
    let mut store = ProcessStore::new();
    let mut factory = ProcessFactory::new();
    let (pid0, cap0) = factory.spawn(&mut store, info(), Flags::all());
    let (pid1, cap1) = factory.spawn(&mut store, info(), Flags::all());
    assert_eq!(pid0, LocalProcessId(0));
    assert_eq!(pid1, LocalProcessId(1));
    assert_ne!(cap0.get_handle(), cap1.get_handle());
    assert_eq!(factory.find_process(pid1), Some(cap1.get_handle()));
    assert_eq!(factory.find_process(LocalProcessId(2)), None);
}

#[test]
fn factory_impl_probes_liveness() {
    let mut store = ProcessStore::new();
    let mut factory = ProcessFactory::new();
    let (pid, cap) = factory.spawn(&mut store, info(), Flags::all());
    let served = ProcessFactoryImpl::new(factory);
    assert_eq!(served.is_alive(&store, pid), Some(true));
    store.kill(cap.get_handle());
    assert_eq!(served.is_alive(&store, pid), Some(false));
    assert_eq!(served.is_alive(&store, LocalProcessId(9)), None);
}

#[test]
fn spawn_service_registers_and_replaces() {
    let mut rt = Runtime::new(RuntimeConfig {});
    let (pid_a, cap_a, prev_a) = rt.spawn_service("svc".to_string(), info(), Flags::all());
    assert_eq!(pid_a, LocalProcessId(0));
    assert!(prev_a.is_none());

    let (pid_b, cap_b, prev_b) = rt.spawn_service("svc".to_string(), info(), Flags::all());
    assert_eq!(pid_b, LocalProcessId(1));
    let displaced = prev_b.unwrap();
    assert_eq!(displaced.get_handle(), cap_a.get_handle());
    displaced.free(&mut rt.store);

    let got = rt.registry.get(&mut rt.store, "svc").unwrap();
    assert_eq!(got.get_handle(), cap_b.get_handle());
    got.free(&mut rt.store);
}

#[test]
fn register_and_deregister_services() {
    let mut rt = Runtime::new(RuntimeConfig {});
    let (pid, cap, _) = rt.spawn_service("boot".to_string(), info(), Flags::all());

    assert_eq!(rt.register_service(pid, "echo".to_string()), Ok(()));
    let got = rt.registry.get(&mut rt.store, "echo").unwrap();
    assert_eq!(got.get_handle(), cap.get_handle());
    got.free(&mut rt.store);

    assert_eq!(
        rt.register_service(LocalProcessId(9), "ghost".to_string()),
        Err(ResourceError::Unavailable)
    );
    assert!(rt.registry.get(&mut rt.store, "ghost").is_none());

    assert_eq!(rt.deregister_service("echo"), Ok(()));
    assert!(rt.registry.get(&mut rt.store, "echo").is_none());
    assert_eq!(rt.deregister_service("echo"), Err(ResourceError::Unavailable));
}

#[test]
fn registry_teardown_frees_every_capability() {
    let mut rt = Runtime::new(RuntimeConfig {});
    let (_, cap, _) = rt.spawn_service("svc".to_string(), info(), Flags::all());
    let h = cap.get_handle();
    // spawner's capability + factory record + registry entry
    assert_eq!(rt.store.ref_count(h), 3);
    let mut registry = std::mem::replace(&mut rt.registry, hearth::registry::Registry::new());
    registry.free_all(&mut rt.store);
    assert_eq!(rt.store.ref_count(h), 2);
    assert!(registry.list().is_empty());
}

#[test]
fn peer_provider_hands_out_fresh_identifiers() {
    let mut peers = PeerProviderImpl::new();
    let a = peers.get_next_peer();
    let b = peers.get_next_peer();
    assert_eq!(a, PeerId(1));
    assert_eq!(b, PeerId(2));
    peers.add_peer(a, PeerInfo { nickname: Some("north".to_string()) });
    peers.add_peer(b, PeerInfo { nickname: None });
    assert!(peers.contains_peer(a));
    peers.remove_peer(a);
    assert!(!peers.contains_peer(a));
    assert!(peers.contains_peer(b));
}
