//! The guest-facing lump interface: a per-guest table of numbered handles
//! over the host's content-addressed store. Guests name lumps by small
//! integers; errors come back as typed results the host turns into traps.

use vstd::prelude::*;

use crate::lump::{find_lump, lump_store_wf, LumpStore};
use crate::types::LumpId;

verus! {

/// Why a guest call failed.
#[derive(Clone, Copy, Debug, PartialEq, Eq, Structural)]
pub enum AbiError {
    /// The handle does not name a loaded lump.
    BadHandle,
    /// The requested digest is not in the host store.
    UnknownLump,
}

/// A lump loaded into one guest's table.
pub struct LocalLump {
    /// The digest of the contents.
    pub id: LumpId,
    /// The contents themselves.
    pub data: Vec<u8>,
}

/// The per-guest handle table of the lump interface.
pub struct LumpAbi {
    handles: Vec<Option<LocalLump>>,
}

impl View for LumpAbi {
    type V = Seq<Option<(Seq<u8>, Seq<u8>)>>;

    closed spec fn view(&self) -> Seq<Option<(Seq<u8>, Seq<u8>)>> {
        Seq::new(
            self.handles@.len(),
            |i: int|
                match self.handles@[i] {
                    Some(l) => Some((l.id.0@, l.data@)),
                    None => None,
                },
        )
    }
}

/// Whether a guest handle names a loaded lump.
pub open spec fn abi_live(t: Seq<Option<(Seq<u8>, Seq<u8>)>>, h: u32) -> bool {
    (h as int) < t.len() && t[h as int] is Some
}

impl LumpAbi {
    /// An empty table.
    pub fn new() -> (r: LumpAbi)
        ensures
            r@.len() == 0,
    {
        LumpAbi { handles: Vec::new() }
    }

    /// Looks a digest up in the host store and, when present, loads it
    /// under a fresh guest handle; fails with the lump unknown otherwise.
    pub fn from_id(&mut self, store: &LumpStore, id: LumpId) -> (r: Result<u32, AbiError>)
        requires
            old(self)@.len() < u32::MAX,
        ensures
            match r {
                Ok(h) => find_lump(store@, id.0@) is Some && abi_live(final(self)@, h)
                    && final(self)@[h as int] == Some((id.0@, find_lump(store@, id.0@).unwrap()))
                    && !abi_live(old(self)@, h) && final(self)@.len() == (if (h as int) < old(self)@.len() {
                    old(self)@.len() as int
                } else {
                    old(self)@.len() + 1int
                }) && (forall|k: int|
                    0 <= k < old(self)@.len() && k != h as int ==> #[trigger] final(self)@[k]
                        == old(self)@[k]),
                Err(e) => e == AbiError::UnknownLump && find_lump(store@, id.0@) is None && final(self)@ == old(self)@,
            },
    {
        match store.get_lump(&id) {
            Some(data) => {
                let mut copy: Vec<u8> = Vec::new();
                let dn = data.len();
                let mut i: usize = 0;
                while i < dn
                    invariant
                        dn == data@.len(),
                        i <= dn,
                        copy@ == data@.take(i as int),
                    decreases dn - i,
                {
                    copy.push(data[i]);
                    i = i + 1;
                    proof {
                        assert(copy@ =~= data@.take(i as int));
                    }
                }
                proof {
                    assert(data@.take(dn as int) =~= data@);
                }
                Ok(self.put(LocalLump { id, data: copy }))
            },
            None => Err(AbiError::UnknownLump),
        }
    }

    /// Copies guest bytes into the host store and loads the result under a
    /// fresh guest handle; the handle's digest names those bytes in the
    /// store from now on.
    pub fn load(&mut self, store: &mut LumpStore, data: Vec<u8>) -> (h: u32)
        requires
            old(self)@.len() < u32::MAX,
            lump_store_wf(old(store)@),
            data@.len() <= u32::MAX,
        ensures
            lump_store_wf(final(store)@),
            find_lump(final(store)@, crate::lump::lump_digest(data@)) is Some,
            find_lump(old(store)@, crate::lump::lump_digest(data@)) is None ==> find_lump(
                final(store)@,
                crate::lump::lump_digest(data@),
            ) == Some(data@),
            forall|other: Seq<u8>|
                other != crate::lump::lump_digest(data@) ==> #[trigger] find_lump(
                    final(store)@,
                    other,
                ) == find_lump(old(store)@, other),
            abi_live(final(self)@, h),
            final(self)@[h as int] == Some((crate::lump::lump_digest(data@), data@)),
            !abi_live(old(self)@, h),
            final(self)@.len() == (if (h as int) < old(self)@.len() {
                    old(self)@.len() as int
                } else {
                    old(self)@.len() + 1int
                }),
            forall|k: int|
                0 <= k < old(self)@.len() && k != h as int ==> #[trigger] final(self)@[k] == old(self)@[k],
    {
        let mut copy: Vec<u8> = Vec::new();
        let dn = data.len();
        let mut i: usize = 0;
        while i < dn
            invariant
                dn == data@.len(),
                i <= dn,
                copy@ == data@.take(i as int),
            decreases dn - i,
        {
            copy.push(data[i]);
            i = i + 1;
            proof {
                assert(copy@ =~= data@.take(i as int));
            }
        }
        proof {
            assert(data@.take(dn as int) =~= data@);
        }
        let id = store.add_lump(copy);
        self.put(LocalLump { id, data })
    }

    /// The digest of a loaded lump.
    pub fn get_id(&self, handle: u32) -> (r: Result<LumpId, AbiError>)
        ensures
            match r {
                Ok(id) => abi_live(self@, handle) && id.0@ == self@[handle as int].unwrap().0,
                Err(e) => e == AbiError::BadHandle && !abi_live(self@, handle),
            },
    {
        let i = handle as usize;
        if i < self.handles.len() {
            match &self.handles[i] {
                Some(l) => Ok(l.id),
                None => Err(AbiError::BadHandle),
            }
        } else {
            Err(AbiError::BadHandle)
        }
    }

    /// The length of a loaded lump's contents.
    pub fn get_len(&self, handle: u32) -> (r: Result<u32, AbiError>)
        requires
            forall|k: int|
                0 <= k < self@.len() && (#[trigger] self@[k]) is Some ==> self@[k].unwrap().1.len()
                    <= u32::MAX,
        ensures
            match r {
                Ok(n) => abi_live(self@, handle) && n == self@[handle as int].unwrap().1.len(),
                Err(e) => e == AbiError::BadHandle && !abi_live(self@, handle),
            },
    {
        let i = handle as usize;
        if i < self.handles.len() {
            match &self.handles[i] {
                Some(l) => {
                    proof {
                        assert(self@[i as int] is Some);
                    }
                    Ok(l.data.len() as u32)
                },
                None => Err(AbiError::BadHandle),
            }
        } else {
            Err(AbiError::BadHandle)
        }
    }

    /// A copy of a loaded lump's contents, for the host to write into
    /// guest memory.
    pub fn get_data(&self, handle: u32) -> (r: Result<&Vec<u8>, AbiError>)
        ensures
            match r {
                Ok(d) => abi_live(self@, handle) && d@ == self@[handle as int].unwrap().1,
                Err(e) => e == AbiError::BadHandle && !abi_live(self@, handle),
            },
    {
        let i = handle as usize;
        if i < self.handles.len() {
            match &self.handles[i] {
                Some(l) => Ok(&l.data),
                None => Err(AbiError::BadHandle),
            }
        } else {
            Err(AbiError::BadHandle)
        }
    }

    /// Unloads a guest handle; the handle is invalid from now on.
    pub fn free(&mut self, handle: u32) -> (r: Result<(), AbiError>)
        ensures
            match r {
                Ok(()) => abi_live(old(self)@, handle) && !abi_live(final(self)@, handle) && (
                forall|k: int|
                    0 <= k < old(self)@.len() && k != handle as int ==> #[trigger] final(self)@[k] == old(self)@[k]),
                Err(e) => e == AbiError::BadHandle && !abi_live(old(self)@, handle) && final(self)@ == old(self)@,
            },
    {
        let i = handle as usize;
        if i < self.handles.len() && self.handles[i].is_some() {
            self.handles[i] = None;
            proof {
                assert(final(self)@ =~= old(self)@.update(i as int, None));
            }
            Ok(())
        } else {
            Err(AbiError::BadHandle)
        }
    }

    /// Stores a lump in the first vacant handle.
    fn put(&mut self, lump: LocalLump) -> (h: u32)
        requires
            old(self)@.len() < u32::MAX,
        ensures
            abi_live(final(self)@, h),
            final(self)@[h as int] == Some((lump.id.0@, lump.data@)),
            !abi_live(old(self)@, h),
            final(self)@.len() == (if (h as int) < old(self)@.len() {
                    old(self)@.len() as int
                } else {
                    old(self)@.len() + 1int
                }),
            forall|k: int|
                0 <= k < old(self)@.len() && k != h as int ==> #[trigger] final(self)@[k] == old(self)@[k],
    {
        let ghost t0 = self@;
        let n = self.handles.len();
        let mut i: usize = 0;
        while i < n && self.handles[i].is_some()
            invariant
                n == self.handles@.len(),
                i <= n,
                self@ == t0,
                forall|j: int| 0 <= j < i ==> (#[trigger] self@[j]) is Some,
            decreases n - i,
        {
            i = i + 1;
        }
        if i < n {
            self.handles[i] = Some(lump);
            proof {
                assert(self@ =~= t0.update(i as int, self@[i as int]));
            }
            i as u32
        } else {
            self.handles.push(Some(lump));
            proof {
                assert(self@.len() == t0.len() + 1);
                assert forall|k: int| 0 <= k < t0.len() implies #[trigger] self@[k] == t0[k] by {}
            }
            i as u32
        }
    }
}

} // verus!
