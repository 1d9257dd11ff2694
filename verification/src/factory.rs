//! The process factory: dense local process identifiers, metadata, and the
//! first capability of every spawned process.

use vstd::prelude::*;

use crate::model::{
    ent, fresh_entry, refs_of, spec_inc, spec_insert, store_wf, valid, EntryKind, StoreM,
};
use crate::rpc_types::ProcessInfo;
use crate::signal::Capability;
use crate::store::{ProcessEntry, ProcessStore};
use crate::types::{Flags, LocalProcessId};

verus! {

/// One spawned process: its dense local identifier is its index in the
/// factory's records.
pub struct ProcessRecord {
    /// The metadata the process was spawned with.
    pub info: ProcessInfo,
    /// The store handle of the process; the factory owns one reference on
    /// it, so the handle stays valid for control-plane lookups.
    pub handle: usize,
}

/// Allocates dense local process identifiers and records each process with
/// its handle. Identifiers are a human-oriented alias: they never replace
/// handles for lifetime purposes.
pub struct ProcessFactory {
    records: Vec<ProcessRecord>,
}

impl View for ProcessFactory {
    type V = Seq<(ProcessInfo, usize)>;

    closed spec fn view(&self) -> Seq<(ProcessInfo, usize)> {
        Seq::new(self.records@.len(), |i: int| (self.records@[i].info, self.records@[i].handle))
    }
}

/// Every recorded handle points at an occupied slot of the store.
pub open spec fn factory_valid(f: Seq<(ProcessInfo, usize)>, m: StoreM) -> bool {
    forall|k: int| 0 <= k < f.len() ==> valid(m, (#[trigger] f[k]).1)
}

impl ProcessFactory {
    /// A factory with no processes; the next identifier is zero.
    pub fn new() -> (r: ProcessFactory)
        ensures
            r@.len() == 0,
    {
        ProcessFactory { records: Vec::new() }
    }

    /// How many processes have been spawned; also the next identifier.
    pub fn count(&self) -> (r: usize)
        ensures
            r == self@.len(),
    {
        self.records.len()
    }

    /// Spawns a process: a fresh store entry, the next dense identifier,
    /// and the process's first capability, handed to the spawner. The
    /// factory keeps one reference of its own so the record's handle stays
    /// valid.
    pub fn spawn(&mut self, store: &mut ProcessStore, info: ProcessInfo, flags: Flags) -> (r: (
        LocalProcessId,
        Capability,
    ))
        requires
            store_wf(old(store)@),
            old(self)@.len() < u32::MAX,
        ensures
            store_wf(final(store)@),
            r.0.0 == old(self)@.len(),
            final(self)@ == old(self)@.push((info, r.1.handle)),
            r.1.flags == flags,
            valid(final(store)@, r.1.handle),
            !valid(old(store)@, r.1.handle),
            ent(final(store)@, r.1.handle).alive,
            ent(final(store)@, r.1.handle).open,
            refs_of(final(store)@, r.1.handle) == 2,
            final(store)@ == spec_inc(
                spec_insert(old(store)@, true, EntryKind::Local),
                r.1.handle,
            ),
    {
        let pid = self.records.len() as u32;
        let handle = store.insert(ProcessEntry { open: true, kind: EntryKind::Local });
        proof {
            assert(ent(store@, handle) == fresh_entry(true, EntryKind::Local));
        }
        store.inc_ref(handle);
        self.records.push(ProcessRecord { info, handle });
        proof {
            assert(self@ =~= old(self)@.push((info, handle)));
        }
        (LocalProcessId(pid), Capability::new(handle, flags))
    }

    /// The handle recorded for a local process identifier, if one was
    /// spawned under it.
    pub fn find_process(&self, pid: LocalProcessId) -> (r: Option<usize>)
        ensures
            (pid.0 as int) < self@.len() ==> r == Some(self@[pid.0 as int].1),
            (pid.0 as int) >= self@.len() ==> r is None,
    {
        let i = pid.0 as usize;
        if i < self.records.len() {
            Some(self.records[i].handle)
        } else {
            None
        }
    }

    /// The metadata recorded for a local process identifier.
    pub fn info(&self, pid: LocalProcessId) -> (r: Option<ProcessInfo>)
        ensures
            (pid.0 as int) < self@.len() ==> r == Some(self@[pid.0 as int].0),
            (pid.0 as int) >= self@.len() ==> r is None,
    {
        let i = pid.0 as usize;
        if i < self.records.len() {
            Some(self.records[i].info)
        } else {
            None
        }
    }
}

/// The control-plane face of the factory, serving process lookups and
/// kills by local identifier.
pub struct ProcessFactoryImpl {
    /// The factory being served.
    pub factory: ProcessFactory,
}

impl ProcessFactoryImpl {
    /// Wraps a factory for serving.
    pub fn new(factory: ProcessFactory) -> (r: ProcessFactoryImpl)
        ensures
            r.factory@ == factory@,
    {
        ProcessFactoryImpl { factory }
    }

    /// Whether the process spawned under `pid` is still alive.
    pub fn is_alive(&self, store: &ProcessStore, pid: LocalProcessId) -> (r: Option<bool>)
        requires
            store_wf(store@),
            factory_valid(self.factory@, store@),
        ensures
            (pid.0 as int) < self.factory@.len() ==> r == Some(
                ent(store@, self.factory@[pid.0 as int].1).alive,
            ),
            (pid.0 as int) >= self.factory@.len() ==> r is None,
    {
        match self.factory.find_process(pid) {
            Some(h) => {
                proof {
                    assert(valid(store@, self.factory@[pid.0 as int].1));
                }
                Some(store.is_alive(h))
            },
            None => None,
        }
    }
}

} // verus!
