//! The assembled runtime: the substrate's components in one owned graph,
//! and the service-spawning step that plugin runners go through.

use vstd::prelude::*;

use crate::factory::{factory_valid, ProcessFactory};
use crate::lump::{lump_store_wf, LumpStore};
use crate::model::{
    ent, held, lemma_inc_frame, refs_of, spec_dec_ref, spec_inc, store_wf, valid,
};
use crate::registry::{
    find_name, lemma_find_name_counted, names_unique, reg_count, reg_valid, Registry,
};
use crate::rpc_types::ProcessInfo;
use crate::signal::Capability;
use crate::store::ProcessStore;
use crate::types::{Flags, LocalProcessId, FLAG_KILL, FLAG_LINK, FLAG_SEND};

verus! {

/// Why a control-plane request failed.
#[derive(Clone, Copy, Debug, PartialEq, Eq, Structural)]
pub enum ResourceError {
    /// The process or service asked about does not exist here.
    Unavailable,
}

/// Configuration for a runtime.
pub struct RuntimeConfig {}

/// One peer's substrate: the process store, the service registry, the
/// process factory and the lump store, owned together. Everything else —
/// plugins, executors, transports — lives around this and drives it.
pub struct Runtime {
    /// The configuration of this runtime.
    pub config: RuntimeConfig,
    /// This runtime's process store.
    pub store: ProcessStore,
    /// This runtime's service registry.
    pub registry: Registry,
    /// This runtime's process factory.
    pub factory: ProcessFactory,
    /// This runtime's lump store.
    pub lumps: LumpStore,
}

impl Runtime {
    /// A runtime with empty components.
    pub fn new(config: RuntimeConfig) -> (r: Runtime)
        ensures
            r.store@.len() == 0,
            store_wf(r.store@),
            r.registry@.len() == 0,
            names_unique(r.registry@),
            r.factory@.len() == 0,
            r.lumps@.len() == 0,
            lump_store_wf(r.lumps@),
    {
        Runtime {
            config,
            store: ProcessStore::new(),
            registry: Registry::new(),
            factory: ProcessFactory::new(),
            lumps: LumpStore::new(),
        }
    }

    /// Spawns a process and registers its capability as a named service:
    /// the compute step behind adding a service. Returns the new process's
    /// identifier, the spawner's capability, and the capability the name
    /// previously held — which the caller must free, the only way to
    /// observe the replacement.
    pub fn spawn_service(&mut self, name: String, info: ProcessInfo, flags: Flags) -> (r: (
        LocalProcessId,
        Capability,
        Option<Capability>,
    ))
        requires
            store_wf(old(self).store@),
            names_unique(old(self).registry@),
            old(self).factory@.len() < u32::MAX,
        ensures
            store_wf(final(self).store@),
            names_unique(final(self).registry@),
            r.0.0 == old(self).factory@.len(),
            r.1.flags == flags,
            valid(final(self).store@, r.1.handle),
            ent(final(self).store@, r.1.handle).alive,
            refs_of(final(self).store@, r.1.handle) == 3,
            final(self).factory@ == old(self).factory@.push((info, r.1.handle)),
            !valid(old(self).store@, r.1.handle),
            r.2 == find_name(old(self).registry@, name@),
            find_name(final(self).registry@, name@) matches Some(cap) && cap.handle == r.1.handle
                && cap.flags == flags,
            forall|n: Seq<char>|
                n != name@ ==> #[trigger] find_name(final(self).registry@, n) == find_name(
                    old(self).registry@,
                    n,
                ),
    {
        let (pid, cap) = self.factory.spawn(&mut self.store, info, flags);
        let service_cap = cap.clone(&mut self.store);
        let prev = self.registry.insert(name, service_cap);
        (pid, cap, prev)
    }

    /// Registers an already spawned process as a named service, with the
    /// full service grant; a capability the name previously held is freed.
    /// Fails, changing nothing, exactly when no process was spawned under
    /// the identifier.
    pub fn register_service(&mut self, pid: LocalProcessId, name: String) -> (r: Result<
        (),
        ResourceError,
    >)
        requires
            store_wf(old(self).store@),
            names_unique(old(self).registry@),
            factory_valid(old(self).factory@, old(self).store@),
            reg_valid(old(self).registry@, old(self).store@),
            forall|x: usize|
                valid(old(self).store@, x) ==> refs_of(old(self).store@, x) < usize::MAX,
            forall|x: usize|
                valid(old(self).store@, x) ==> refs_of(old(self).store@, x) >= held(
                    old(self).store@,
                    x,
                ) + #[trigger] reg_count(old(self).registry@, x),
        ensures
            store_wf(final(self).store@),
            names_unique(final(self).registry@),
            final(self).factory@ == old(self).factory@,
            (pid.0 as int) >= old(self).factory@.len() ==> r == Err::<(), ResourceError>(
                ResourceError::Unavailable,
            ) && final(self).registry@ == old(self).registry@ && final(self).store@ == old(self).store@,
            (pid.0 as int) < old(self).factory@.len() ==> r == Ok::<(), ResourceError>(())
                && (find_name(final(self).registry@, name@) matches Some(cap) && cap.handle == old(self).factory@[pid.0 as int].1 && cap.flags.0 == (FLAG_SEND | FLAG_KILL | FLAG_LINK))
                && (forall|n: Seq<char>|
                n != name@ ==> #[trigger] find_name(final(self).registry@, n) == find_name(
                    old(self).registry@,
                    n,
                )),
    {
        let handle = match self.factory.find_process(pid) {
            Some(h) => h,
            None => { return Err(ResourceError::Unavailable) },
        };
        proof {
            assert(valid(self.store@, old(self).factory@[pid.0 as int].1));
        }
        self.store.inc_ref(handle);
        proof {
            lemma_inc_frame(old(self).store@, handle);
        }
        let cap = Capability::new(handle, Flags::all());
        let prev = self.registry.insert(name, cap);
        match prev {
            Some(displaced) => {
                proof {
                    let m1 = self.store@;
                    let d = displaced.handle;
                    assert(find_name(old(self).registry@, name@) == Some(displaced));
                    lemma_find_name_counted(old(self).registry@, name@);
                    assert(reg_count(old(self).registry@, d) >= 1);
                    crate::registry::lemma_reg_count_valid(
                        old(self).registry@,
                        old(self).store@,
                        d,
                    );
                    assert(valid(old(self).store@, d));
                    assert(valid(m1, d));
                    assert(held(m1, d) == held(old(self).store@, d));
                    assert(refs_of(m1, d) >= refs_of(old(self).store@, d));
                    assert(refs_of(m1, d) > held(m1, d));
                }
                displaced.free(&mut self.store);
            },
            None => {},
        }
        Ok(())
    }

    /// Detaches a named service and frees the capability it held. Fails,
    /// changing nothing, exactly when the name is unknown.
    pub fn deregister_service(&mut self, name: &str) -> (r: Result<(), ResourceError>)
        requires
            store_wf(old(self).store@),
            names_unique(old(self).registry@),
            reg_valid(old(self).registry@, old(self).store@),
            forall|x: usize|
                valid(old(self).store@, x) ==> refs_of(old(self).store@, x) >= held(
                    old(self).store@,
                    x,
                ) + #[trigger] reg_count(old(self).registry@, x),
        ensures
            store_wf(final(self).store@),
            names_unique(final(self).registry@),
            final(self).factory@ == old(self).factory@,
            find_name(old(self).registry@, name@) is None ==> r == Err::<(), ResourceError>(
                ResourceError::Unavailable,
            ) && final(self).registry@ == old(self).registry@ && final(self).store@ == old(self).store@,
            find_name(old(self).registry@, name@) matches Some(c) ==> r == Ok::<(
            ), ResourceError>(()) && find_name(final(self).registry@, name@) is None && final(self).store@ == spec_dec_ref(old(self).store@, c.handle) && (forall|n: Seq<char>|
                n != name@ ==> #[trigger] find_name(final(self).registry@, n) == find_name(
                    old(self).registry@,
                    n,
                )),
    {
        match self.registry.remove(name) {
            Some(cap) => {
                proof {
                    assert(find_name(old(self).registry@, name@) == Some(cap));
                    lemma_find_name_counted(old(self).registry@, name@);
                    assert(reg_count(old(self).registry@, cap.handle) >= 1);
                    crate::registry::lemma_reg_count_valid(
                        old(self).registry@,
                        old(self).store@,
                        cap.handle,
                    );
                    assert(valid(old(self).store@, cap.handle));
                    assert(refs_of(old(self).store@, cap.handle) > held(
                        old(self).store@,
                        cap.handle,
                    ));
                }
                cap.free(&mut self.store);
                Ok(())
            },
            None => Err(ResourceError::Unavailable),
        }
    }
}

} // verus!
