//! One endpoint of a cross-peer connection: the capability multiplexer.
//!
//! Each side keeps two tables. The export table maps identifiers it has
//! given the peer to local handles, with a per-export count of how many
//! references the peer has accumulated; the table owns that many counts on
//! the handle. The import table maps the peer's export identifiers to
//! local proxy entries inserted into the store; the table owns one count
//! per proxy. Sending a capability the endpoint itself imported encodes it
//! in the peer's namespace, so that a capability that crosses the wire and
//! comes back resolves to the very handle it started from.

use vstd::prelude::*;

use crate::model::{
    count_h, ent, held, lemma_held_split, refs_of, rinv, spec_dec_ref, spec_inc, spec_insert,
    spec_kill, spec_release, store_wf, valid, EntryKind, StoreM,
};
use crate::laws::{lemma_kill_props, lemma_reference_discipline};
use crate::model::{
    lemma_count_concat, lemma_count_first, lemma_count_index, lemma_count_occurs,
    lemma_count_singleton,
    lemma_inc_frame, lemma_insert_props,
};
use crate::release::lemma_release;
use crate::signal::{sig_handles, Capability, Message, MessageM, Signal, SignalM};
use crate::store::{ProcessEntry, ProcessStore};
use crate::types::{Flags, FLAG_KILL, FLAG_LINK};

verus! {

/// One export: the local handle offered to the peer, the permission mask
/// it was offered with, and how many references the peer holds on it.
#[derive(Clone, Copy, Debug, PartialEq, Eq, Structural)]
pub struct Export {
    pub handle: usize,
    pub flags: Flags,
    pub count: usize,
}

/// One endpoint of a connection.
pub struct Connection {
    /// This endpoint's exports, indexed by the identifier given the peer.
    pub exports: Vec<Option<Export>>,
    /// This endpoint's imports: the peer's export identifier maps to the
    /// local proxy handle standing in for the remote process.
    pub imports: Vec<Option<usize>>,
}

/// References the export table owns on `x`: the count of every export of
/// that handle.
pub open spec fn exp_count(s: Seq<Option<Export>>, x: usize) -> nat
    decreases s.len(),
{
    if s.len() == 0 {
        0
    } else {
        exp_count(s.drop_last(), x) + match s.last() {
            Some(e) => if e.handle == x {
                e.count as nat
            } else {
                0nat
            },
            None => 0nat,
        }
    }
}

/// References the import table owns on `x`: one per proxy entry.
pub open spec fn imp_count(s: Seq<Option<usize>>, x: usize) -> nat
    decreases s.len(),
{
    if s.len() == 0 {
        0
    } else {
        imp_count(s.drop_last(), x) + if s.last() == Some(x) {
            1nat
        } else {
            0nat
        }
    }
}

/// The first import slot whose proxy is `h`.
pub open spec fn find_import(s: Seq<Option<usize>>, h: usize) -> Option<int>
    decreases s.len(),
{
    if s.len() == 0 {
        None
    } else if s.first() == Some(h) {
        Some(0)
    } else {
        match find_import(s.drop_first(), h) {
            Some(j) => Some(j + 1),
            None => None,
        }
    }
}

/// The first export slot holding `h`.
pub open spec fn find_export(s: Seq<Option<Export>>, h: usize) -> Option<int>
    decreases s.len(),
{
    if s.len() == 0 {
        None
    } else if s.first() matches Some(e) && s.first().unwrap().handle == h {
        Some(0)
    } else {
        match find_export(s.drop_first(), h) {
            Some(j) => Some(j + 1),
            None => None,
        }
    }
}

/// Resolving a capability the peer sends back in this endpoint's own
/// namespace: the original handle, masked by the flags it was exported
/// with — the identity-preserving path.
pub open spec fn spec_resolve(s: Seq<Option<Export>>, id: int, flags: u32) -> Option<Capability> {
    if 0 <= id < s.len() && s[id] is Some {
        Some(
            Capability {
                handle: s[id].unwrap().handle,
                flags: Flags(flags & s[id].unwrap().flags.0),
            },
        )
    } else {
        None
    }
}

/// Whether a wire capability can resolve at this endpoint: one sent back
/// in this endpoint's own namespace needs a live export entry under its
/// identifier; one in the peer's namespace always resolves, making a fresh
/// proxy when none exists yet.
pub open spec fn resolvable(ex: Seq<Option<Export>>, wc: crate::wire::WireCap) -> bool {
    match wc {
        crate::wire::WireCap::Import { id, flags } => (id as int) < ex.len() && ex[id as int]
            is Some,
        crate::wire::WireCap::Export { .. } => true,
    }
}

/// What tearing the import table down does to the store: slot by slot,
/// each proxy is killed and the table's reference on it released.
pub open spec fn spec_close_imports(m: StoreM, im: Seq<Option<usize>>) -> StoreM
    decreases im.len(),
{
    if im.len() == 0 {
        m
    } else {
        match im.first() {
            Some(p) => spec_close_imports(spec_dec_ref(spec_kill(m, p), p), im.drop_first()),
            None => spec_close_imports(m, im.drop_first()),
        }
    }
}

/// The references the export table owns, flattened in table order: count
/// copies of each exported handle.
pub open spec fn exp_handles(s: Seq<Option<Export>>) -> Seq<usize>
    decreases s.len(),
{
    if s.len() == 0 {
        Seq::empty()
    } else {
        exp_handles(s.drop_last()) + match s.last() {
            Some(e) => Seq::new(e.count as nat, |i: int| e.handle),
            None => Seq::<usize>::empty(),
        }
    }
}

/// Structural soundness of the tables against a store: every export
/// handle and import proxy is occupied, every export count positive, and
/// no two import slots share a proxy.
pub open spec fn conn_wf(ex: Seq<Option<Export>>, im: Seq<Option<usize>>, m: StoreM) -> bool {
    &&& forall|k: int|
        0 <= k < ex.len() && ex[k] is Some ==> valid(m, (#[trigger] ex[k]).unwrap().handle)
            && ex[k].unwrap().count >= 1
    &&& forall|k: int|
        0 <= k < im.len() && im[k] is Some ==> valid(m, (#[trigger] im[k]).unwrap())
    &&& forall|j1: int, j2: int|
        0 <= j1 < j2 < im.len() && (#[trigger] im[j1]) is Some && (#[trigger] im[j2]) is Some
            ==> im[j1] != im[j2]
}

/// The connection's ownership claim: every handle is referenced at least
/// as often as the store's own holds plus what the two tables own.
pub open spec fn conn_owns(ex: Seq<Option<Export>>, im: Seq<Option<usize>>, m: StoreM) -> bool {
    forall|x: usize|
        valid(m, x) ==> refs_of(m, x) >= held(m, x) + exp_count(ex, x) + #[trigger] imp_count(
            im,
            x,
        )
}

/// The remote identifier a proxy entry forwards to.
pub open spec fn proxy_id(m: StoreM, p: usize) -> u32 {
    match ent(m, p).kind {
        EntryKind::Proxy { remote_id } => remote_id,
        EntryKind::Local => 0,
    }
}

/// How one encoded wire capability relates to the capability it left as:
/// it keeps the permission bits, and its identifier resolves in the table
/// that will see it again — the import table for one returned in the
/// peer's namespace, the export table, under the original handle, for one
/// exported.
pub open spec fn wire_cap_tracks(
    wc: crate::wire::WireCap,
    c: Capability,
    ex: Seq<Option<Export>>,
    im: Seq<Option<usize>>,
) -> bool {
    match wc {
        crate::wire::WireCap::Import { id, flags } => flags == c.flags.0 && (id as int) < im.len()
            && im[id as int] == Some(c.handle),
        crate::wire::WireCap::Export { id, flags } => flags == c.flags.0 && (id as int) < ex.len()
            && ex[id as int] is Some && ex[id as int].unwrap().handle == c.handle,
    }
}

impl Connection {
    /// A fresh endpoint with empty tables.
    pub fn new() -> (r: Connection)
        ensures
            r.exports@.len() == 0,
            r.imports@.len() == 0,
    {
        Connection { exports: Vec::new(), imports: Vec::new() }
    }

    /// Encodes a capability for the wire, consuming the caller's
    /// reference. A capability whose handle is one of this endpoint's
    /// import proxies goes back in the peer's namespace, so the peer
    /// resolves it to its original handle; any other capability is
    /// exported: an existing export of the same handle keeps its
    /// identifier and gains one count, a new handle gets the first free
    /// identifier with a count of one.
    pub fn export_cap(&mut self, store: &mut ProcessStore, cap: Capability) -> (r: crate::wire::WireCap)
        requires
            store_wf(old(store)@),
            valid(old(store)@, cap.handle),
            refs_of(old(store)@, cap.handle) > held(old(store)@, cap.handle),
            refs_of(old(store)@, cap.handle) < usize::MAX,
            old(self).exports@.len() < 0xffffffff,
            old(self).imports@.len() < 0xffffffff,
            forall|k: int|
                0 <= k < old(self).exports@.len() && old(self).exports@[k] is Some ==> (
                #[trigger] old(self).exports@[k]).unwrap().count < usize::MAX,
        ensures
            store_wf(final(store)@),
            final(self).imports@ == old(self).imports@,
            old(self).exports@.len() <= final(self).exports@.len() <= old(self).exports@.len()
                + 1,
            match find_import(old(self).imports@, cap.handle) {
                Some(j) => r == (crate::wire::WireCap::Import {
                    id: j as u32,
                    flags: cap.flags.0,
                }) && final(store)@ == spec_dec_ref(old(store)@, cap.handle) && final(self).exports@ == old(self).exports@,
                None => final(store)@ == old(store)@ && match find_export(
                    old(self).exports@,
                    cap.handle,
                ) {
                    Some(id) => r == (crate::wire::WireCap::Export {
                        id: id as u32,
                        flags: cap.flags.0,
                    }) && final(self).exports@ == old(self).exports@.update(
                        id,
                        Some(
                            Export {
                                count: (old(self).exports@[id].unwrap().count + 1) as usize,
                                ..old(self).exports@[id].unwrap()
                            },
                        ),
                    ),
                    None => exists|id: int|
                        0 <= id < final(self).exports@.len() && r == (crate::wire::WireCap::Export {
                            id: id as u32,
                            flags: cap.flags.0,
                        }) && #[trigger] final(self).exports@[id] == Some(
                            Export { handle: cap.handle, flags: cap.flags, count: 1usize },
                        ) && (forall|k: int|
                            0 <= k < old(self).exports@.len() && k != id
                                ==> #[trigger] final(self).exports@[k] == old(self).exports@[k])
                            && (id < old(self).exports@.len() ==> old(self).exports@[id] is None
                            && final(self).exports@.len() == old(self).exports@.len()) && (id
                            >= old(self).exports@.len() ==> id == old(self).exports@.len()
                            && final(self).exports@.len() == old(self).exports@.len() + 1),
                },
            },
    {
        let ghost i0 = self.imports@;
        let ghost e0 = self.exports@;
        // Is the handle one of this endpoint's proxies?
        let n = self.imports.len();
        let mut j: usize = 0;
        while j < n && !import_slot_is(&self.imports, j, cap.handle)
            invariant
                n == self.imports@.len(),
                j <= n,
                self.imports@ == i0,
                forall|k: int| 0 <= k < j ==> self.imports@[k] != Some(cap.handle),
            decreases n - j,
        {
            j = j + 1;
        }
        proof {
            lemma_find_import_index(i0, cap.handle, j as int);
        }
        if j < n {
            store.dec_ref(cap.handle);
            return crate::wire::WireCap::Import { id: j as u32, flags: cap.flags.0 };
        }
        // An existing export of the same handle keeps its identifier.
        let en = self.exports.len();
        let mut id: usize = 0;
        while id < en && !export_slot_is(&self.exports, id, cap.handle)
            invariant
                en == self.exports@.len(),
                id <= en,
                self.exports@ == e0,
                forall|k: int|
                    0 <= k < id ==> !((#[trigger] self.exports@[k]) is Some && self.exports@[k].unwrap().handle == cap.handle),
            decreases en - id,
        {
            id = id + 1;
        }
        proof {
            lemma_find_export_index(e0, cap.handle, id as int);
        }
        if id < en {
            let prior = match &self.exports[id] {
                Some(e) => *e,
                None => Export { handle: 0, flags: Flags(0), count: 0 },
            };
            self.exports[id] = Some(
                Export { handle: prior.handle, flags: prior.flags, count: prior.count + 1 },
            );
            proof {
                assert(self.exports@ =~= e0.update(
                    id as int,
                    Some(Export { count: (e0[id as int].unwrap().count + 1) as usize, ..e0[id as int].unwrap() }),
                ));
            }
            return crate::wire::WireCap::Export { id: id as u32, flags: cap.flags.0 };
        }
        // A fresh export in the first vacant slot.
        let mut slot: usize = 0;
        let sn = self.exports.len();
        while slot < sn && self.exports[slot].is_some()
            invariant
                sn == self.exports@.len(),
                slot <= sn,
                self.exports@ == e0,
                forall|k: int| 0 <= k < slot ==> (#[trigger] self.exports@[k]) is Some,
            decreases sn - slot,
        {
            slot = slot + 1;
        }
        let fresh = Export { handle: cap.handle, flags: cap.flags, count: 1 };
        if slot == sn {
            self.exports.push(Some(fresh));
            proof {
                assert(self.exports@ =~= e0.push(Some(fresh)));
                assert(self.exports@[sn as int] == Some(fresh));
            }
        } else {
            self.exports[slot] = Some(fresh);
            proof {
                assert(self.exports@ =~= e0.update(slot as int, Some(fresh)));
            }
        }
        crate::wire::WireCap::Export { id: slot as u32, flags: cap.flags.0 }
    }

    /// Resolves a capability arriving from the peer into a fresh owned
    /// capability. One the peer sends back in this endpoint's namespace
    /// resolves through the export table to the original handle, masked by
    /// the exported permissions — the round trip returns the capability
    /// that left. One in the peer's namespace resolves to the existing
    /// proxy for that identifier, or inserts a fresh proxy entry. An
    /// unknown identifier in this endpoint's namespace is a protocol
    /// violation and resolves to nothing.
    pub fn import_cap(&mut self, store: &mut ProcessStore, wc: crate::wire::WireCap) -> (r: Option<
        Capability,
    >)
        requires
            store_wf(old(store)@),
            conn_wf(old(self).exports@, old(self).imports@, old(store)@),
            forall|x: usize|
                valid(old(store)@, x) ==> refs_of(old(store)@, x) < usize::MAX - 1,
        ensures
            store_wf(final(store)@),
            final(self).exports@ == old(self).exports@,
            conn_wf(final(self).exports@, final(self).imports@, final(store)@),
            match wc {
                crate::wire::WireCap::Import { id, flags } => final(self).imports@ == old(self).imports@ && r == spec_resolve(old(self).exports@, id as int, flags) && (match r {
                    Some(cap) => final(store)@ == spec_inc(old(store)@, cap.handle),
                    None => final(store)@ == old(store)@,
                }),
                crate::wire::WireCap::Export { id, flags } => r is Some && {
                    let cap = r.unwrap();
                    &&& cap.flags.0 == flags
                    &&& final(self).imports@.len() > id as int
                    &&& final(self).imports@[id as int] == Some(cap.handle)
                    &&& if (id as int) < old(self).imports@.len() && old(self).imports@[id as int]
                        is Some {
                        cap.handle == old(self).imports@[id as int].unwrap() && final(store)@ == spec_inc(old(store)@, cap.handle) && final(self).imports@ == old(self).imports@
                    } else {
                        !valid(old(store)@, cap.handle) && valid(
                            spec_insert(old(store)@, true, EntryKind::Proxy { remote_id: id }),
                            cap.handle,
                        ) && valid(final(store)@, cap.handle)
                            && ent(final(store)@, cap.handle).kind == (EntryKind::Proxy {
                            remote_id: id,
                        }) && refs_of(final(store)@, cap.handle) == 2 && final(store)@ == spec_inc(
                            spec_insert(old(store)@, true, EntryKind::Proxy { remote_id: id }),
                            cap.handle,
                        ) && (forall|k: int|
                            0 <= k < old(self).imports@.len() && k != id as int
                                ==> #[trigger] final(self).imports@[k] == old(self).imports@[k])
                    }
                },
            },
    {
        let ghost i0 = self.imports@;
        match wc {
            crate::wire::WireCap::Import { id, flags } => {
                let idx = id as usize;
                if idx < self.exports.len() {
                    match &self.exports[idx] {
                        Some(e) => {
                            let handle = e.handle;
                            let masked = Flags(flags & e.flags.0);
                            proof {
                                assert(valid(store@, self.exports@[idx as int].unwrap().handle));
                            }
                            store.inc_ref(handle);
                            Some(Capability::new(handle, masked))
                        },
                        None => None,
                    }
                } else {
                    None
                }
            },
            crate::wire::WireCap::Export { id, flags } => {
                let idx = id as usize;
                let existing: Option<usize> = if idx < self.imports.len() {
                    match &self.imports[idx] {
                        Some(p) => Some(*p),
                        None => None,
                    }
                } else {
                    None
                };
                match existing {
                    Some(p) => {
                        proof {
                            assert(valid(store@, self.imports@[idx as int].unwrap()));
                        }
                        store.inc_ref(p);
                        proof {
                            assert forall|k: int|
                                0 <= k < self.imports@.len() && self.imports@[k] is Some implies
                                valid(store@, (#[trigger] self.imports@[k]).unwrap()) by {
                                assert(valid(old(store)@, self.imports@[k].unwrap()));
                            }
                        }
                        Some(Capability::new(p, Flags(flags)))
                    },
                    None => {
                        let p = store.insert(
                            ProcessEntry { open: true, kind: EntryKind::Proxy { remote_id: id } },
                        );
                        store.inc_ref(p);
                        let ghost mstage = store@;
                        while self.imports.len() <= idx
                            invariant
                                self.exports@ == old(self).exports@,
                                store@ == mstage,
                                self.imports@.len() >= i0.len(),
                                forall|k: int|
                                    0 <= k < i0.len() ==> #[trigger] self.imports@[k] == i0[k],
                                forall|k: int|
                                    i0.len() <= k < self.imports@.len()
                                        ==> #[trigger] self.imports@[k] is None,
                            decreases idx + 1 - self.imports.len(),
                        {
                            self.imports.push(None);
                        }
                        let ghost ipad = self.imports@;
                        self.imports[idx] = Some(p);
                        proof {
                            let m1 = store@;
                            assert(valid(m1, p));
                            assert(self.imports@ =~= ipad.update(idx as int, Some(p)));
                            assert(i0 == old(self).imports@);
                            assert forall|k: int|
                                0 <= k < self.imports@.len() && self.imports@[k] is Some implies
                                valid(m1, (#[trigger] self.imports@[k]).unwrap()) by {
                                if k != idx as int {
                                    assert(self.imports@[k] == ipad[k]);
                                    if k < i0.len() {
                                        assert(ipad[k] == i0[k]);
                                        assert(old(self).imports@[k] is Some);
                                        assert(valid(old(store)@, old(self).imports@[k].unwrap()));
                                    } else {
                                        assert(self.imports@[k] is None);
                                    }
                                }
                            }
                            assert forall|k: int|
                                0 <= k < self.exports@.len() && self.exports@[k] is Some implies
                                valid(m1, (#[trigger] self.exports@[k]).unwrap().handle)
                                && self.exports@[k].unwrap().count >= 1 by {
                                assert(old(self).exports@[k] is Some);
                                assert(valid(old(store)@, old(self).exports@[k].unwrap().handle));
                            }
                            assert forall|j1: int, j2: int|
                                0 <= j1 < j2 < self.imports@.len() && (#[trigger] self.imports@[j1]) is Some && (#[trigger] self.imports@[j2]) is Some implies self
                                .imports@[j1] != self.imports@[j2] by {
                                if j1 != idx as int && j2 != idx as int {
                                    if j1 < i0.len() && j2 < i0.len() {
                                        assert(i0[j1] != i0[j2] || i0[j1] is None);
                                    }
                                } else {
                                    let other = if j1 == idx as int {
                                        j2
                                    } else {
                                        j1
                                    };
                                    if other < i0.len() && i0[other] is Some {
                                        assert(valid(old(store)@, i0[other].unwrap()));
                                        assert(!valid(old(store)@, p));
                                    }
                                }
                            }
                        }
                        Some(Capability::new(p, Flags(flags)))
                    },
                }
            },
        }
    }
}

impl Connection {
    /// Handles a revoke frame: the peer holds no more references to this
    /// export, so the table's owned counts on the handle are released and
    /// the slot freed. An unknown identifier changes nothing.
    pub fn handle_revoke(&mut self, store: &mut ProcessStore, id: u32) -> (ok: bool)
        requires
            store_wf(old(store)@),
            conn_wf(old(self).exports@, old(self).imports@, old(store)@),
            conn_owns(old(self).exports@, old(self).imports@, old(store)@),
        ensures
            store_wf(final(store)@),
            final(self).imports@ == old(self).imports@,
            (id as int) < old(self).exports@.len() && old(self).exports@[id as int] is Some
                ==> ok && final(self).exports@ == old(self).exports@.update(id as int, None)
                && final(store)@ == spec_release(
                old(store)@,
                Seq::new(
                    old(self).exports@[id as int].unwrap().count as nat,
                    |i: int| old(self).exports@[id as int].unwrap().handle,
                ),
            ),
            !((id as int) < old(self).exports@.len() && old(self).exports@[id as int] is Some)
                ==> !ok && final(self).exports@ == old(self).exports@ && final(store)@ == old(
                store,
            )@,
    {
        let idx = id as usize;
        if idx >= self.exports.len() {
            return false;
        }
        let entry = match &self.exports[idx] {
            Some(e) => *e,
            None => { return false },
        };
        self.exports[idx] = None;
        proof {
            assert(self.exports@ =~= old(self).exports@.update(idx as int, None));
        }
        let mut pending: Vec<usize> = Vec::new();
        let mut c: usize = 0;
        let ghost rep = Seq::new(entry.count as nat, |i: int| entry.handle);
        while c < entry.count
            invariant
                c <= entry.count,
                store@ == old(store)@,
                pending@ =~= Seq::new(c as nat, |i: int| entry.handle),
            decreases entry.count - c,
        {
            pending.push(entry.handle);
            c = c + 1;
            proof {
                assert(pending@ =~= Seq::new(c as nat, |i: int| entry.handle));
            }
        }
        proof {
            assert(pending@ =~= rep);
            lemma_exp_count_slot(old(self).exports@, idx as int);
            assert forall|x: usize|
                valid(store@, x) implies refs_of(store@, x) >= held(store@, x)
                    + #[trigger] count_h(pending@, x) by {
                lemma_count_repeat(entry.count as nat, entry.handle, x);
                assert(refs_of(store@, x) >= held(store@, x) + exp_count(
                    old(self).exports@,
                    x,
                ) + imp_count(old(self).imports@, x));
            }
            assert forall|k: int| 0 <= k < pending@.len() implies valid(
                store@,
                #[trigger] pending@[k],
            ) by {
                assert(pending@[k] == entry.handle);
                assert(valid(old(store)@, old(self).exports@[idx as int].unwrap().handle));
            }
        }
        store.release_all(pending);
        true
    }

    /// Handles a kill frame: the peer asks to kill the referent of one of
    /// this endpoint's exports. The request takes effect only when the
    /// export carries the kill permission; the tables do not change.
    pub fn handle_kill(&mut self, store: &mut ProcessStore, id: u32) -> (ok: bool)
        requires
            store_wf(old(store)@),
            conn_wf(old(self).exports@, old(self).imports@, old(store)@),
            conn_owns(old(self).exports@, old(self).imports@, old(store)@),
            forall|x: usize|
                valid(old(store)@, x) ==> refs_of(old(store)@, x) + ent(
                    old(store)@,
                    x,
                ).linked.len() < usize::MAX,
        ensures
            store_wf(final(store)@),
            final(self).imports@ == old(self).imports@,
            final(self).exports@ == old(self).exports@,
            (id as int) < old(self).exports@.len() && old(self).exports@[id as int] is Some
                && old(self).exports@[id as int].unwrap().flags.0 & FLAG_KILL == FLAG_KILL ==> ok
                && final(store)@ == spec_kill(
                old(store)@,
                old(self).exports@[id as int].unwrap().handle,
            ),
            !((id as int) < old(self).exports@.len() && old(self).exports@[id as int] is Some
                && old(self).exports@[id as int].unwrap().flags.0 & FLAG_KILL == FLAG_KILL) ==> !ok
                && final(store)@ == old(store)@,
    {
        let idx = id as usize;
        if idx >= self.exports.len() {
            return false;
        }
        let entry = match &self.exports[idx] {
            Some(e) => *e,
            None => { return false },
        };
        if !entry.flags.has(FLAG_KILL) {
            return false;
        }
        proof {
            assert(valid(old(store)@, old(self).exports@[idx as int].unwrap().handle));
            lemma_exp_count_slot(old(self).exports@, idx as int);
            assert(refs_of(store@, entry.handle) >= held(store@, entry.handle) + exp_count(
                old(self).exports@,
                entry.handle,
            ) + imp_count(old(self).imports@, entry.handle));
        }
        store.kill(entry.handle);
        true
    }

    /// Handles a link frame: the peer asks that one of this endpoint's
    /// exports be linked to another. The subject export must carry the
    /// link permission.
    pub fn handle_link(&mut self, store: &mut ProcessStore, subject: u32, object: u32) -> (ok:
        bool)
        requires
            store_wf(old(store)@),
            conn_wf(old(self).exports@, old(self).imports@, old(store)@),
            conn_owns(old(self).exports@, old(self).imports@, old(store)@),
            forall|x: usize|
                valid(old(store)@, x) ==> refs_of(old(store)@, x) < usize::MAX,
        ensures
            store_wf(final(store)@),
            final(self).imports@ == old(self).imports@,
            final(self).exports@ == old(self).exports@,
            ({
                let s = subject as int;
                let o = object as int;
                if s < old(self).exports@.len() && old(self).exports@[s] is Some && o < old(
                    self,
                ).exports@.len() && old(self).exports@[o] is Some && old(
                    self,
                ).exports@[s].unwrap().flags.0 & FLAG_LINK == FLAG_LINK {
                    ok && final(store)@ == crate::model::spec_link(
                        old(store)@,
                        old(self).exports@[s].unwrap().handle,
                        old(self).exports@[o].unwrap().handle,
                    )
                } else {
                    !ok && final(store)@ == old(store)@
                }
            }),
    {
        let si = subject as usize;
        let oi = object as usize;
        if si >= self.exports.len() || oi >= self.exports.len() {
            return false;
        }
        let se = match &self.exports[si] {
            Some(e) => *e,
            None => { return false },
        };
        let oe = match &self.exports[oi] {
            Some(e) => *e,
            None => { return false },
        };
        if !se.flags.has(FLAG_LINK) {
            return false;
        }
        proof {
            assert(valid(old(store)@, old(self).exports@[si as int].unwrap().handle));
            assert(valid(old(store)@, old(self).exports@[oi as int].unwrap().handle));
        }
        store.link(se.handle, oe.handle);
        true
    }

    /// Handles an unlink frame: the process the peer exported under `id`
    /// has died, so the proxy standing in for it here is killed, which
    /// delivers unlink signals to everything linked to the proxy.
    pub fn handle_unlink(&mut self, store: &mut ProcessStore, id: u32) -> (ok: bool)
        requires
            store_wf(old(store)@),
            conn_wf(old(self).exports@, old(self).imports@, old(store)@),
            conn_owns(old(self).exports@, old(self).imports@, old(store)@),
            forall|x: usize|
                valid(old(store)@, x) ==> refs_of(old(store)@, x) + ent(
                    old(store)@,
                    x,
                ).linked.len() < usize::MAX,
        ensures
            store_wf(final(store)@),
            final(self).imports@ == old(self).imports@,
            final(self).exports@ == old(self).exports@,
            (id as int) < old(self).imports@.len() && old(self).imports@[id as int] is Some ==> ok
                && final(store)@ == spec_kill(
                old(store)@,
                old(self).imports@[id as int].unwrap(),
            ),
            !((id as int) < old(self).imports@.len() && old(self).imports@[id as int] is Some)
                ==> !ok && final(store)@ == old(store)@,
    {
        let idx = id as usize;
        if idx >= self.imports.len() {
            return false;
        }
        let p = match &self.imports[idx] {
            Some(p) => *p,
            None => { return false },
        };
        proof {
            assert(valid(old(store)@, old(self).imports@[idx as int].unwrap()));
            lemma_imp_count_slot(old(self).imports@, idx as int);
            assert(refs_of(store@, p) >= held(store@, p) + exp_count(old(self).exports@, p)
                + imp_count(old(self).imports@, p));
        }
        store.kill(p);
        true
    }

    /// Handles a send frame: the message is delivered to the entry this
    /// endpoint exported under `id`, each carried capability resolved into
    /// a fresh owned one first. An unknown identifier changes nothing;
    /// otherwise the store delivers the message to a live, receiving
    /// entry and frees it in every other case.
    pub fn handle_send(
        &mut self,
        store: &mut ProcessStore,
        id: u32,
        data: Vec<u8>,
        caps: Vec<crate::wire::WireCap>,
    ) -> (ok: bool)
        requires
            store_wf(old(store)@),
            conn_wf(old(self).exports@, old(self).imports@, old(store)@),
            caps@.len() <= 0x100000,
            forall|x: usize|
                valid(old(store)@, x) ==> refs_of(old(store)@, x) < usize::MAX - 0x100002,
        ensures
            store_wf(final(store)@),
            final(self).exports@ == old(self).exports@,
            !((id as int) < old(self).exports@.len() && old(self).exports@[id as int] is Some)
                ==> !ok && final(store)@ == old(store)@ && final(self).imports@ == old(
                self,
            ).imports@,
            (id as int) < old(self).exports@.len() && old(self).exports@[id as int] is Some
                && caps@.len() == 0 ==> ok && final(self).imports@ == old(self).imports@ && final(store)@ == crate::model::spec_send_sig(
                old(store)@,
                old(self).exports@[id as int].unwrap().handle,
                SignalM::Message(crate::signal::MessageM { data: data@, caps: Seq::empty() }),
            ),
            ok == ((id as int) < old(self).exports@.len() && old(self).exports@[id as int]
                is Some && (forall|k: int|
                0 <= k < caps@.len() ==> resolvable(old(self).exports@, #[trigger] caps@[k]))),
            ok && ent(old(store)@, old(self).exports@[id as int].unwrap().handle).alive && ent(
                old(store)@,
                old(self).exports@[id as int].unwrap().handle,
            ).open ==> valid(final(store)@, old(self).exports@[id as int].unwrap().handle) && ({
                let target = old(self).exports@[id as int].unwrap().handle;
                let mb = ent(final(store)@, target).mailbox;
                &&& mb.len() == ent(old(store)@, target).mailbox.len() + 1
                &&& mb.last() matches SignalM::Message(mm) && mm.data == data@ && mm.caps.len()
                    == caps@.len() && (forall|k: int|
                    0 <= k < caps@.len() ==> ((#[trigger] caps@[k]) matches crate::wire::WireCap::Import {
                        id: cid,
                        flags: f,
                    } ==> mm.caps[k] == spec_resolve(old(self).exports@, cid as int, f).unwrap()))
                    && (forall|k: int|
                    0 <= k < caps@.len() ==> ((#[trigger] caps@[k]) matches crate::wire::WireCap::Export {
                        id: cid,
                        flags: f,
                    } ==> mm.caps[k].flags.0 == f))
            }),
    {
        let idx = id as usize;
        if idx >= self.exports.len() {
            return false;
        }
        let target = match &self.exports[idx] {
            Some(e) => e.handle,
            None => { return false },
        };
        proof {
            assert(old(self).exports@[idx as int] is Some);
            assert(valid(store@, old(self).exports@[idx as int].unwrap().handle));
        }
        let mut owned: Vec<Capability> = Vec::new();
        let n = caps.len();
        let mut k: usize = 0;
        while k < n
            invariant
                n == caps@.len(),
                n <= 0x100000,
                k <= n,
                owned@.len() == k,
                store_wf(store@),
                conn_wf(self.exports@, self.imports@, store@),
                self.exports@ == old(self).exports@,
                old(self).exports@[idx as int] is Some,
                idx == id as usize,
                (idx as int) < old(self).exports@.len(),
                caps@.len() == 0 ==> self.imports@ == old(self).imports@ && store@ == old(store)@,
                target == old(self).exports@[idx as int].unwrap().handle,
                valid(store@, target),
                valid(old(store)@, target),
                ent(store@, target).alive == ent(old(store)@, target).alive,
                ent(store@, target).open == ent(old(store)@, target).open,
                ent(store@, target).mailbox == ent(old(store)@, target).mailbox,
                forall|kk: int|
                    0 <= kk < k ==> resolvable(old(self).exports@, #[trigger] caps@[kk]),
                forall|kk: int|
                    0 <= kk < k ==> ((#[trigger] caps@[kk]) matches crate::wire::WireCap::Import {
                        id: cid,
                        flags: f,
                    } ==> owned@[kk] == spec_resolve(
                        old(self).exports@,
                        cid as int,
                        f,
                    ).unwrap()),
                forall|kk: int|
                    0 <= kk < k ==> ((#[trigger] caps@[kk]) matches crate::wire::WireCap::Export {
                        id: cid,
                        flags: f,
                    } ==> owned@[kk].flags.0 == f),
                forall|x: usize|
                    valid(store@, x) ==> refs_of(store@, x) < usize::MAX - 0x100002 + k,
                forall|j: int| 0 <= j < k ==> valid(store@, (#[trigger] owned@[j]).handle),
                forall|x: usize|
                    valid(store@, x) ==> #[trigger] refs_of(store@, x) >= held(store@, x)
                        + count_h(owned@.map_values(|c: Capability| c.handle), x),
            decreases n - k,
        {
            let ghost mpre = store@;
            let ghost opre = owned@;
            proof {
                crate::store::lemma_store_len(store);
            }
            let wc = caps[k];
            let got = self.import_cap(store, wc);
            match got {
                Some(cap) => {
                    owned.push(cap);
                    proof {
                        let mnow = store@;
                        let hs_pre = opre.map_values(|c: Capability| c.handle);
                        let hs_now = owned@.map_values(|c: Capability| c.handle);
                        assert(owned@ =~= opre.push(cap));
                        assert(hs_now =~= hs_pre.push(cap.handle));
                        assert(hs_now.drop_last() =~= hs_pre);
                        let gid: u32 = match wc {
                            crate::wire::WireCap::Export { id, .. } => id,
                            crate::wire::WireCap::Import { id, .. } => id,
                        };
                        if valid(mpre, cap.handle) {
                            // An increment on an existing handle.
                            assert(mnow == spec_inc(mpre, cap.handle));
                            lemma_inc_frame(mpre, cap.handle);
                            assert forall|x: usize|
                                valid(mnow, x) implies refs_of(mnow, x) >= held(mnow, x)
                                    + #[trigger] count_h(hs_now, x) by {
                                lemma_count_first(hs_now, x);
                                assert(count_h(hs_now, x) == count_h(hs_pre, x) + if x
                                    == cap.handle {
                                    1nat
                                } else {
                                    0nat
                                });
                            }
                        } else {
                            // A fresh proxy entry plus its capability.
                            let base = spec_insert(
                                mpre,
                                true,
                                EntryKind::Proxy { remote_id: gid },
                            );
                            assert(mnow == spec_inc(base, cap.handle));
                            lemma_insert_props(mpre, true, EntryKind::Proxy { remote_id: gid });
                            lemma_inc_frame(base, cap.handle);
                            assert forall|x: usize|
                                valid(mnow, x) implies refs_of(mnow, x) >= held(mnow, x)
                                    + #[trigger] count_h(hs_now, x) by {
                                lemma_count_first(hs_now, x);
                                if x == cap.handle {
                                    assert(count_h(hs_pre, x) == 0) by {
                                        if count_h(hs_pre, x) >= 1 {
                                            lemma_count_occurs(hs_pre, x);
                                            let kk = choose|kk: int|
                                                0 <= kk < hs_pre.len() && hs_pre[kk] == x;
                                            assert(valid(mpre, opre[kk].handle));
                                        }
                                    }
                                    assert(held(mnow, x) == held(mpre, x));
                                    assert(held(mpre, x) == 0);
                                } else {
                                    assert(valid(mpre, x));
                                    assert(refs_of(mnow, x) == refs_of(mpre, x));
                                    assert(held(mnow, x) == held(mpre, x));
                                }
                            }
                            assert forall|x: usize|
                                valid(mnow, x) implies refs_of(mnow, x) < usize::MAX - 0x100002
                                    + (k + 1) by {
                                if x != cap.handle {
                                    assert(valid(mpre, x));
                                }
                            }
                        }
                        assert forall|jj: int| 0 <= jj < owned@.len() implies valid(
                            store@,
                            (#[trigger] owned@[jj]).handle,
                        ) by {
                            if jj < opre.len() {
                                assert(valid(mpre, opre[jj].handle));
                            }
                        }
                        // The target entry's state and the earlier
                        // resolutions are untouched by this resolution.
                        if valid(mpre, cap.handle) {
                            if cap.handle != target {
                                assert(ent(mnow, target) == ent(mpre, target));
                            } else {
                                assert(ent(mnow, target).alive == ent(mpre, target).alive);
                                assert(ent(mnow, target).open == ent(mpre, target).open);
                                assert(ent(mnow, target).mailbox == ent(mpre, target).mailbox);
                            }
                        } else {
                            assert(cap.handle != target);
                            assert(ent(mnow, target) == ent(mpre, target));
                        }
                        match wc {
                            crate::wire::WireCap::Import { id: cid, flags: f } => {
                                assert(resolvable(old(self).exports@, wc));
                                assert(owned@[k as int] == spec_resolve(
                                    old(self).exports@,
                                    cid as int,
                                    f,
                                ).unwrap());
                            },
                            crate::wire::WireCap::Export { id: cid, flags: f } => {
                                assert(owned@[k as int].flags.0 == f);
                            },
                        }
                        assert(caps@[k as int] == wc);
                    }
                },
                None => {
                    // A reference to an identifier this endpoint never
                    // exported: a protocol violation. Free what was
                    // resolved so far and drop the frame.
                    let ghost mnow = store@;
                    let msg = Message { data, caps: owned };
                    proof {
                        assert(msg@.caps == owned@);
                        assert forall|j: int|
                            0 <= j < sig_handles(SignalM::Message(msg@)).len() implies valid(
                            mnow,
                            #[trigger] sig_handles(SignalM::Message(msg@))[j],
                        ) by {
                            assert(sig_handles(SignalM::Message(msg@))[j] == owned@[j].handle);
                        }
                    }
                    proof {
                        assert(caps@[k as int] == wc);
                        assert(!resolvable(old(self).exports@, caps@[k as int]));
                    }
                    msg.free(store);
                    return false;
                },
            }
            k = k + 1;
        }
        let msg = Message { data, caps: owned };
        proof {
            assert(msg@.caps == owned@);
            assert forall|j: int|
                0 <= j < sig_handles(SignalM::Message(msg@)).len() implies valid(
                store@,
                #[trigger] sig_handles(SignalM::Message(msg@))[j],
            ) by {
                assert(sig_handles(SignalM::Message(msg@))[j] == owned@[j].handle);
            }
            if caps@.len() == 0 {
                assert(owned@ =~= Seq::<Capability>::empty());
                assert(msg@.caps =~= Seq::<Capability>::empty());
                assert(msg@ == (crate::signal::MessageM { data: msg@.data, caps: Seq::empty() }));
            }
        }
        let ghost msend = store@;
        let ghost mm = msg@;
        store.send(target, msg);
        proof {
            if ent(old(store)@, target).alive && ent(old(store)@, target).open {
                assert(ent(msend, target).alive && ent(msend, target).open);
                assert(final(store)@ == crate::model::spec_push_sig(
                    msend,
                    target,
                    SignalM::Message(mm),
                ));
                assert(ent(final(store)@, target).mailbox == ent(msend, target).mailbox.push(
                    SignalM::Message(mm),
                ));
                assert(ent(final(store)@, target).mailbox.last() == SignalM::Message(mm));
            }
        }
        true
    }

    /// Tears the connection down: every import proxy is killed, so
    /// anything linked to it receives its unlink signal, and every
    /// reference both tables own is released. No state is retained.
    pub fn close(&mut self, store: &mut ProcessStore)
        requires
            store_wf(old(store)@),
            conn_wf(old(self).exports@, old(self).imports@, old(store)@),
            conn_owns(old(self).exports@, old(self).imports@, old(store)@),
            forall|x: usize|
                valid(old(store)@, x) ==> refs_of(old(store)@, x) + ent(
                    old(store)@,
                    x,
                ).linked.len() < usize::MAX,
            forall|j: int, id: int|
                0 <= j < old(self).imports@.len() && 0 <= id < old(self).exports@.len() && (
                #[trigger] old(self).imports@[j]) is Some && (#[trigger] old(self).exports@[id])
                    is Some ==> old(self).exports@[id].unwrap().handle != old(
                    self,
                ).imports@[j].unwrap(),
        ensures
            final(self).exports@.len() == 0,
            final(self).imports@.len() == 0,
            store_wf(final(store)@),
            final(store)@ == spec_release(
                spec_close_imports(old(store)@, old(self).imports@),
                exp_handles(old(self).exports@),
            ),
            forall|j: int|
                0 <= j < old(self).imports@.len() && (#[trigger] old(self).imports@[j]) is Some
                    && valid(final(store)@, old(self).imports@[j].unwrap()) ==> !ent(
                    final(store)@,
                    old(self).imports@[j].unwrap(),
                ).alive,
    {
        let ghost iorig = self.imports@;
        let ghost morig = store@;
        proof {
            assert(iorig.skip(0) =~= iorig);
        }
        let n = self.imports.len();
        let mut j: usize = 0;
        while j < n
            invariant
                n == self.imports@.len(),
                j <= n,
                self.exports@ == old(self).exports@,
                store_wf(store@),
                conn_wf(self.exports@, self.imports@, store@),
                conn_owns(self.exports@, self.imports@, store@),
                forall|jj: int|
                    (j as int) <= jj < n && (#[trigger] self.imports@[jj]) is Some ==> refs_of(
                        store@,
                        self.imports@[jj].unwrap(),
                    ) + ent(store@, self.imports@[jj].unwrap()).linked.len() < usize::MAX,
                forall|jj: int, id: int|
                    0 <= jj < self.imports@.len() && 0 <= id < self.exports@.len() && (
                    #[trigger] self.imports@[jj]) is Some && (#[trigger] self.exports@[id])
                        is Some ==> self.exports@[id].unwrap().handle != self.imports@[jj].unwrap(),
                iorig == old(self).imports@,
                morig == old(store)@,
                iorig.len() == n,
                forall|j1: int, j2: int|
                    0 <= j1 < j2 < iorig.len() && (#[trigger] iorig[j1]) is Some && (
                    #[trigger] iorig[j2]) is Some ==> iorig[j1] != iorig[j2],
                forall|k: int|
                    (j as int) <= k < n ==> #[trigger] self.imports@[k] == iorig[k],
                spec_close_imports(morig, iorig) == spec_close_imports(
                    store@,
                    iorig.skip(j as int),
                ),
                forall|k: int|
                    0 <= k < j && (#[trigger] iorig[k]) is Some && valid(
                        store@,
                        iorig[k].unwrap(),
                    ) ==> !ent(store@, iorig[k].unwrap()).alive,
            decreases n - j,
        {
            proof {
                assert(self.imports@[j as int] == iorig[j as int]);
            }
            let slot = match &self.imports[j] {
                Some(p) => Some(*p),
                None => None,
            };
            match slot {
                Some(p) => {
                    let ghost m0 = store@;
                    let ghost i0 = self.imports@;
                    let ghost e0 = self.exports@;
                    proof {
                        assert(valid(m0, i0[j as int].unwrap()));
                        lemma_imp_count_slot(i0, j as int);
                        assert(refs_of(m0, p) >= held(m0, p) + exp_count(e0, p) + imp_count(
                            i0,
                            p,
                        ));
                    }
                    store.kill(p);
                    let ghost m1 = store@;
                    self.imports[j] = None;
                    let ghost i1 = self.imports@;
                    proof {
                        assert(i1 =~= i0.update(j as int, None));
                        lemma_imp_count_unique(i0, j as int);
                        assert forall|id: int|
                            0 <= id < e0.len() && (#[trigger] e0[id]) is Some implies e0[id].unwrap().handle != p by {
                            assert(i0[j as int] is Some);
                        }
                        lemma_exp_count_zero(e0, p);
                        assert(exp_count(e0, p) == 0);
                        assert(imp_count(i0, p) == 1);
                        lemma_imp_count_update_none(i0, j as int, p);
                        lemma_kill_props(m0, p, p, 1);
                        // Margins, validity and room survive the kill.
                        assert forall|x: usize|
                            valid(m1, x) implies refs_of(m1, x) >= held(m1, x) + exp_count(
                            e0,
                            x,
                        ) + #[trigger] imp_count(i1, x) by {
                            lemma_kill_props(m0, p, x, 1);
                            assert(valid(m0, x));
                            let cnt = exp_count(e0, x) + imp_count(i1, x);
                            if x == p {
                                assert(imp_count(i1, p) == 0);
                            } else {
                                lemma_imp_count_update_none(i0, j as int, x);
                                assert(imp_count(i1, x) == imp_count(i0, x));
                                if cnt >= 1 {
                                    lemma_kill_props(m0, p, x, cnt as int);
                                }
                            }
                        }
                        assert forall|k: int|
                            0 <= k < e0.len() && e0[k] is Some implies valid(
                            m1,
                            (#[trigger] e0[k]).unwrap().handle,
                        ) by {
                            let x = e0[k].unwrap().handle;
                            assert(valid(m0, x));
                            assert(i0[j as int] is Some);
                            assert(e0[k] is Some);
                            assert(x != p);
                            lemma_exp_count_slot(e0, k);
                            assert(refs_of(m0, x) >= held(m0, x) + exp_count(e0, x) + imp_count(
                                i0,
                                x,
                            ));
                            lemma_kill_props(m0, p, x, exp_count(e0, x) as int);
                        }
                        assert forall|k: int|
                            0 <= k < i1.len() && i1[k] is Some implies valid(
                            m1,
                            (#[trigger] i1[k]).unwrap(),
                        ) by {
                            let x = i1[k].unwrap();
                            assert(i0[k] == i1[k]);
                            assert(valid(m0, x));
                            assert(x != p);
                            lemma_imp_count_slot(i0, k);
                            lemma_imp_count_update_none(i0, j as int, x);
                            assert(refs_of(m0, x) >= held(m0, x) + exp_count(e0, x) + imp_count(
                                i0,
                                x,
                            ));
                            lemma_kill_props(m0, p, x, imp_count(i0, x) as int);
                        }
                        assert forall|jj: int|
                            (j as int) < jj < n && (#[trigger] i1[jj]) is Some implies refs_of(
                            m1,
                            i1[jj].unwrap(),
                        ) + ent(m1, i1[jj].unwrap()).linked.len() < usize::MAX by {
                            let x = i1[jj].unwrap();
                            assert(i0[jj] == i1[jj]);
                            assert(x != p);
                            lemma_imp_count_slot(i0, jj);
                            assert(refs_of(m0, x) >= held(m0, x) + exp_count(e0, x) + imp_count(
                                i0,
                                x,
                            ));
                            lemma_kill_props(m0, p, x, imp_count(i0, x) as int);
                        }
                        assert(refs_of(m1, p) > held(m1, p));
                    }
                    store.dec_ref(p);
                    proof {
                        let m2 = store@;
                        assert(m2 == spec_release(m1, seq![p]));
                        assert forall|y: usize|
                            valid(m1, y) implies refs_of(m1, y) >= held(m1, y) + #[trigger] count_h(
                            seq![p],
                            y,
                        ) by {
                            lemma_count_singleton(p, y);
                        }
                        assert forall|k: int| 0 <= k < seq![p].len() implies valid(
                            m1,
                            #[trigger] seq![p][k],
                        ) by {}
                        lemma_release(m1, seq![p]);
                        lemma_count_singleton(p, p);
                        assert forall|x: usize|
                            valid(m2, x) implies refs_of(m2, x) >= held(m2, x) + exp_count(
                            e0,
                            x,
                        ) + #[trigger] imp_count(i1, x) by {
                            lemma_count_singleton(p, x);
                            if x == p {
                                assert(imp_count(i1, p) == 0);
                                assert(exp_count(e0, p) == 0);
                            } else if exp_count(e0, x) + imp_count(i1, x) >= 1 {
                                assert(crate::model::ext(m1, seq![p], x) >= exp_count(e0, x)
                                    + imp_count(i1, x));
                            }
                        }
                        assert forall|k: int|
                            0 <= k < e0.len() && e0[k] is Some implies valid(
                            m2,
                            (#[trigger] e0[k]).unwrap().handle,
                        ) by {
                            let x = e0[k].unwrap().handle;
                            assert(i0[j as int] is Some);
                            assert(e0[k] is Some);
                            assert(x != p);
                            lemma_exp_count_slot(e0, k);
                            lemma_count_singleton(p, x);
                            assert(refs_of(m1, x) >= held(m1, x) + exp_count(e0, x) + imp_count(
                                i1,
                                x,
                            ));
                            assert(crate::model::ext(m1, seq![p], x) >= 1);
                        }
                        assert forall|k: int|
                            0 <= k < i1.len() && i1[k] is Some implies valid(
                            m2,
                            (#[trigger] i1[k]).unwrap(),
                        ) by {
                            let x = i1[k].unwrap();
                            assert(i0[k] == i1[k]);
                            assert(x != p);
                            lemma_imp_count_slot(i0, k);
                            lemma_imp_count_update_none(i0, j as int, x);
                            assert(imp_count(i1, x) == imp_count(i0, x));
                            lemma_count_singleton(p, x);
                            assert(refs_of(m1, x) >= held(m1, x) + exp_count(e0, x) + imp_count(
                                i1,
                                x,
                            ));
                            assert(crate::model::ext(m1, seq![p], x) >= 1);
                        }
                        assert forall|jj: int|
                            (j as int) < jj < n && (#[trigger] i1[jj]) is Some implies refs_of(
                            m2,
                            i1[jj].unwrap(),
                        ) + ent(m2, i1[jj].unwrap()).linked.len() < usize::MAX by {
                            let x = i1[jj].unwrap();
                            assert(i0[jj] == i1[jj]);
                            assert(x != p);
                            lemma_imp_count_slot(i0, jj);
                            lemma_imp_count_update_none(i0, j as int, x);
                            assert(imp_count(i1, x) == imp_count(i0, x));
                            lemma_count_singleton(p, x);
                            assert(refs_of(m1, x) >= held(m1, x) + exp_count(e0, x) + imp_count(
                                i1,
                                x,
                            ));
                            assert(crate::model::ext(m1, seq![p], x) >= 1);
                            assert(valid(m2, x));
                            assert(refs_of(m2, x) <= refs_of(m1, x));
                            assert(ent(m2, x).linked.len() <= ent(m1, x).linked.len());
                        }
                        // One teardown step consumed, and the prefix of
                        // killed proxies stays dead.
                        let orig = iorig;
                        assert(orig[j as int] == i0[j as int]);
                        assert(orig.len() == n);
                        assert(orig.skip(j as int).len() == n - j);
                        assert(orig.skip(j as int)[0] == orig[j as int]);
                        assert(orig.skip(j as int).first() == orig[j as int]);
                        assert(orig.skip(j as int).drop_first() =~= orig.skip(j + 1));
                        assert(m2 == spec_dec_ref(spec_kill(m0, p), p));
                        assert(spec_close_imports(m0, orig.skip(j as int)) == spec_close_imports(
                            m2,
                            orig.skip(j + 1),
                        ));
                        assert forall|k: int|
                            0 <= k < j + 1 && (#[trigger] orig[k]) is Some && valid(
                                m2,
                                orig[k].unwrap(),
                            ) implies !ent(m2, orig[k].unwrap()).alive by {
                            let q = orig[k].unwrap();
                            assert(valid(m1, q));
                            assert(ent(m2, q).alive == ent(m1, q).alive);
                            if k == j as int {
                                assert(q == p);
                                assert(!ent(m1, p).alive);
                            } else {
                                assert(orig[k] is Some && orig[j as int] is Some);
                                assert(q != p);
                                lemma_kill_props(m0, p, q, 1);
                                assert(valid(m0, q));
                                assert(ent(m1, q).alive == ent(m0, q).alive);
                            }
                        }
                    }
                },
                None => {
                    proof {
                        let orig = iorig;
                        assert(orig[j as int] == self.imports@[j as int]);
                        assert(orig[j as int] is None);
                        assert(orig.len() == n);
                        assert(orig.skip(j as int).len() == n - j);
                        assert(orig.skip(j as int)[0] == orig[j as int]);
                        assert(orig.skip(j as int).first() == orig[j as int]);
                        assert(orig.skip(j as int).drop_first() =~= orig.skip(j + 1));
                        assert(spec_close_imports(store@, orig.skip(j as int))
                            == spec_close_imports(store@, orig.skip(j + 1)));
                    }
                },
            }
            j = j + 1;
        }
        proof {
            assert(iorig.skip(n as int) =~= Seq::<Option<usize>>::empty());
            assert(spec_close_imports(morig, iorig) == store@);
        }
        let ghost ipre = self.imports@;
        self.imports.clear();
        // Release the counts the export table owns, in one batch.
        let ghost ex0 = self.exports@;
        let ghost mphase = store@;
        let ghost iend = self.imports@;
        let mut pending: Vec<usize> = Vec::new();
        proof {
            assert(iend.len() == 0);
            assert forall|x: usize|
                valid(store@, x) implies refs_of(store@, x) >= held(store@, x) + exp_count(
                ex0,
                x,
            ) + #[trigger] imp_count(iend, x) by {
                assert(refs_of(store@, x) >= held(store@, x) + exp_count(ex0, x) + imp_count(
                    ipre,
                    x,
                ));
            }
        }
        let en = self.exports.len();
        let mut id: usize = 0;
        proof {
            assert(ex0.take(0) =~= Seq::<Option<Export>>::empty());
            assert(pending@ =~= exp_handles(ex0.take(0)));
        }
        while id < en
            invariant
                en == self.exports@.len(),
                self.exports@ == ex0,
                id <= en,
                store@ == mphase,
                pending@ == exp_handles(ex0.take(id as int)),
                forall|x: usize|
                    #[trigger] count_h(pending@, x) == exp_count(ex0.take(id as int), x),
                forall|k: int| 0 <= k < pending@.len() ==> valid(store@, #[trigger] pending@[k]),
                conn_owns(ex0, iend, store@),
                conn_wf(ex0, iend, store@),
                store_wf(store@),
            decreases en - id,
        {
            let ghost ppre = pending@;
            let slot = match &self.exports[id] {
                Some(e) => Some(*e),
                None => None,
            };
            match slot {
                Some(e) => {
                    let mut c: usize = 0;
                    proof {
                        assert(valid(store@, ex0[id as int].unwrap().handle));
                    }
                    while c < e.count
                        invariant
                            c <= e.count,
                            store@ == mphase,
                            valid(store@, e.handle),
                            pending@ =~= ppre + Seq::new(c as nat, |i: int| e.handle),
                        decreases e.count - c,
                    {
                        pending.push(e.handle);
                        c = c + 1;
                        proof {
                            assert(pending@ =~= ppre + Seq::new(c as nat, |i: int| e.handle));
                        }
                    }
                },
                None => {},
            }
            id = id + 1;
            proof {
                lemma_exp_handles_take_step(ex0, id as int);
                match ex0[id - 1] {
                    Some(e) => {
                        assert(pending@ =~= exp_handles(ex0.take(id as int)));
                    },
                    None => {
                        assert(pending@ =~= ppre);
                        assert(pending@ =~= exp_handles(ex0.take(id as int)));
                    },
                }
                assert forall|x: usize| #[trigger] count_h(pending@, x) == exp_count(
                    ex0.take(id as int),
                    x,
                ) by {
                    lemma_exp_count_take_step(ex0, id as int, x);
                    match ex0[id - 1] {
                        Some(e) => {
                            let rep = Seq::new(e.count as nat, |i: int| e.handle);
                            lemma_count_concat(ppre, rep, x);
                            lemma_count_repeat(e.count as nat, e.handle, x);
                        },
                        None => {
                            assert(pending@ =~= ppre);
                        },
                    }
                }
                assert forall|k: int| 0 <= k < pending@.len() implies valid(
                    store@,
                    #[trigger] pending@[k],
                ) by {
                    if k >= ppre.len() {
                        match ex0[id - 1] {
                            Some(e) => {
                                assert(pending@[k] == e.handle);
                            },
                            None => {},
                        }
                    }
                }
            }
        }
        self.exports.clear();
        let ghost phandles = pending@;
        proof {
            assert(ex0.take(en as int) =~= ex0);
            assert(phandles == exp_handles(ex0));
            assert forall|x: usize|
                valid(store@, x) implies refs_of(store@, x) >= held(store@, x) + #[trigger] count_h(
                pending@,
                x,
            ) by {
                assert(refs_of(store@, x) >= held(store@, x) + exp_count(ex0, x) + imp_count(
                    iend,
                    x,
                ));
                assert(count_h(pending@, x) == exp_count(ex0, x));
            }
        }
        store.release_all(pending);
        proof {
            assert(final(store)@ == spec_release(mphase, phandles));
            assert(rinv(mphase, phandles)) by {
                assert forall|x: usize|
                    valid(mphase, x) implies refs_of(mphase, x) >= held(mphase, x)
                        + #[trigger] count_h(phandles, x) by {
                    assert(refs_of(mphase, x) >= held(mphase, x) + exp_count(ex0, x) + imp_count(
                        iend,
                        x,
                    ));
                    assert(count_h(phandles, x) == exp_count(ex0, x));
                }
            }
            lemma_release(mphase, phandles);
            // The killed proxies stay dead through the final release.
            assert forall|j: int|
                0 <= j < iorig.len() && (#[trigger] iorig[j]) is Some && valid(
                    final(store)@,
                    iorig[j].unwrap(),
                ) implies !ent(final(store)@, iorig[j].unwrap()).alive by {
                let q = iorig[j].unwrap();
                assert(valid(mphase, q));
                assert(!ent(mphase, q).alive);
                assert(ent(final(store)@, q).alive == ent(mphase, q).alive);
            }
            assert(iorig == old(self).imports@);
            assert(morig == old(store)@);
        }
    }

    /// Turns one signal drained from an import proxy's mailbox into the
    /// frame that forwards it to the peer owning the process, consuming
    /// the signal's references. A kill asks the peer to kill the remote
    /// process. An unlink is forwarded under the identifier the dead
    /// subject is exported with, or swallowed when the subject was never
    /// exported — either way the signal's reference on the subject is
    /// released. A message is forwarded to the remote process with each
    /// carried capability encoded for the wire as `export_cap` encodes it.
    pub fn signal_to_frame(&mut self, store: &mut ProcessStore, proxy: usize, sig: Signal) -> (r:
        Option<crate::wire::Frame>)
        requires
            store_wf(old(store)@),
            conn_wf(old(self).exports@, old(self).imports@, old(store)@),
            valid(old(store)@, proxy),
            ent(old(store)@, proxy).kind matches EntryKind::Proxy { .. },
            forall|x: usize|
                valid(old(store)@, x) ==> refs_of(old(store)@, x) >= held(old(store)@, x)
                    + exp_count(old(self).exports@, x) + imp_count(old(self).imports@, x)
                    + #[trigger] count_h(sig_handles(sig@), x),
            forall|k: int|
                0 <= k < sig_handles(sig@).len() ==> valid(
                    old(store)@,
                    #[trigger] sig_handles(sig@)[k],
                ),
            forall|x: usize| valid(old(store)@, x) ==> refs_of(old(store)@, x) < usize::MAX,
            old(self).exports@.len() + sig_handles(sig@).len() < 0xffffffff,
            old(self).imports@.len() < 0xffffffff,
            forall|k: int|
                0 <= k < old(self).exports@.len() && old(self).exports@[k] is Some ==> (
                #[trigger] old(self).exports@[k]).unwrap().count + sig_handles(sig@).len()
                    < usize::MAX,
        ensures
            store_wf(final(store)@),
            conn_wf(final(self).exports@, final(self).imports@, final(store)@),
            conn_owns(final(self).exports@, final(self).imports@, final(store)@),
            final(self).imports@ == old(self).imports@,
            sig@ is Kill ==> final(store)@ == old(store)@ && final(self).exports@ == old(
                self,
            ).exports@ && r == Some(crate::wire::Frame::Kill { id: proxy_id(old(store)@, proxy) }),
            sig@ matches SignalM::Unlink { subject } ==> final(store)@ == spec_dec_ref(
                old(store)@,
                subject,
            ) && final(self).exports@ == old(self).exports@ && r == (match find_export(
                old(self).exports@,
                subject,
            ) {
                Some(id) => Some(crate::wire::Frame::Unlink { subject: id as u32 }),
                None => None,
            }),
            sig@ matches SignalM::Message(msg) ==> final(store)@.len() >= old(store)@.len()
                && (r matches Some(f) && f@ matches crate::wire::FrameM::Send { id, data, caps }
                && id == proxy_id(old(store)@, proxy) && data == msg.data && caps.len()
                == msg.caps.len() && (forall|t: int|
                0 <= t < caps.len() ==> wire_cap_tracks(
                    #[trigger] caps[t],
                    msg.caps[t],
                    final(self).exports@,
                    final(self).imports@,
                ))),
    {
        let rid = match store.kind(proxy) {
            EntryKind::Proxy { remote_id } => remote_id,
            EntryKind::Local => 0,
        };
        match sig {
            Signal::Kill => {
                proof {
                    assert forall|x: usize| valid(store@, x) implies refs_of(store@, x) >= held(
                        store@,
                        x,
                    ) + exp_count(self.exports@, x) + #[trigger] imp_count(self.imports@, x) by {
                        assert(count_h(sig_handles(sig@), x) == 0);
                    }
                }
                Some(crate::wire::Frame::Kill { id: rid })
            },
            Signal::Unlink { subject } => {
                let ghost m0 = store@;
                let ghost e0 = self.exports@;
                let ghost i0 = self.imports@;
                proof {
                    assert(sig@ == (SignalM::Unlink { subject }));
                    assert(sig_handles(sig@) =~= seq![subject]);
                }
                let en = self.exports.len();
                let mut id: usize = 0;
                while id < en && !export_slot_is(&self.exports, id, subject)
                    invariant
                        en == self.exports@.len(),
                        id <= en,
                        self.exports@ == e0,
                        forall|k: int|
                            0 <= k < id ==> !((#[trigger] self.exports@[k]) is Some
                                && self.exports@[k].unwrap().handle == subject),
                    decreases en - id,
                {
                    id = id + 1;
                }
                proof {
                    lemma_find_export_index(e0, subject, id as int);
                }
                let out = if id < en {
                    Some(crate::wire::Frame::Unlink { subject: id as u32 })
                } else {
                    None
                };
                proof {
                    assert forall|x: usize| valid(m0, x) implies refs_of(m0, x) >= held(m0, x)
                        + exp_count(e0, x) + imp_count(i0, x) + #[trigger] count_h(
                        seq![subject],
                        x,
                    ) by {
                        lemma_count_singleton(subject, x);
                        assert(count_h(sig_handles(sig@), x) == count_h(seq![subject], x));
                    }
                    assert(count_h(seq![subject], subject) == 1) by {
                        lemma_count_singleton(subject, subject);
                    }
                    assert(valid(m0, subject)) by {
                        assert(sig_handles(sig@)[0] == subject);
                    }
                    assert(refs_of(m0, subject) > held(m0, subject));
                }
                store.dec_ref(subject);
                proof {
                    let m2 = store@;
                    assert(m2 == spec_dec_ref(m0, subject));
                    assert forall|x: usize| valid(m0, x) implies refs_of(m0, x) >= held(m0, x)
                        + #[trigger] count_h(seq![subject], x) by {
                        lemma_count_singleton(subject, x);
                    }
                    assert forall|k: int| 0 <= k < seq![subject].len() implies valid(
                        m0,
                        #[trigger] seq![subject][k],
                    ) by {}
                    lemma_release(m0, seq![subject]);
                    assert forall|x: usize| valid(m2, x) implies refs_of(m2, x) >= held(m2, x)
                        + exp_count(e0, x) + #[trigger] imp_count(i0, x) by {
                        lemma_count_singleton(subject, x);
                        if exp_count(e0, x) + imp_count(i0, x) >= 1 {
                            assert(crate::model::ext(m0, seq![subject], x) >= exp_count(e0, x)
                                + imp_count(i0, x));
                            assert(refs_of(m2, x) - held(m2, x) >= crate::model::ext(
                                m0,
                                seq![subject],
                                x,
                            ));
                        }
                    }
                    assert forall|k: int| 0 <= k < e0.len() && e0[k] is Some implies valid(
                        m2,
                        (#[trigger] e0[k]).unwrap().handle,
                    ) by {
                        let x = e0[k].unwrap().handle;
                        lemma_exp_count_slot(e0, k);
                        lemma_count_singleton(subject, x);
                        assert(crate::model::ext(m0, seq![subject], x) >= 1);
                    }
                    assert forall|k: int| 0 <= k < i0.len() && i0[k] is Some implies valid(
                        m2,
                        (#[trigger] i0[k]).unwrap(),
                    ) by {
                        let x = i0[k].unwrap();
                        lemma_imp_count_slot(i0, k);
                        lemma_count_singleton(subject, x);
                        assert(crate::model::ext(m0, seq![subject], x) >= 1);
                    }
                    if id < en {
                        assert(find_export(e0, subject) == Some(id as int));
                    } else {
                        assert(find_export(e0, subject) is None);
                    }
                }
                out
            },
            Signal::Message(Message { data, caps }) => {
                let ghost msgcaps = caps@;
                let ghost hseq = sig_handles(sig@);
                proof {
                    assert(sig@ == SignalM::Message(MessageM { data: data@, caps: msgcaps }));
                    assert(hseq == msgcaps.map_values(|cc: Capability| cc.handle));
                    assert(hseq.len() == msgcaps.len());
                    assert(hseq.skip(0) =~= hseq);
                }
                let ncaps = caps.len();
                let mut out: Vec<crate::wire::WireCap> = Vec::new();
                let mut i: usize = 0;
                while i < ncaps
                    invariant
                        ncaps == msgcaps.len(),
                        caps@ == msgcaps,
                        hseq == msgcaps.map_values(|cc: Capability| cc.handle),
                        hseq.len() == ncaps,
                        i <= ncaps,
                        out@.len() == i,
                        store_wf(store@),
                        conn_wf(self.exports@, self.imports@, store@),
                        self.imports@ == old(self).imports@,
                        store@.len() >= old(store)@.len(),
                        forall|x: usize|
                            valid(store@, x) ==> refs_of(store@, x) >= held(store@, x)
                                + exp_count(self.exports@, x) + imp_count(self.imports@, x)
                                + #[trigger] count_h(hseq.skip(i as int), x),
                        forall|k: int| i <= k < ncaps ==> valid(store@, #[trigger] hseq[k]),
                        forall|x: usize| valid(store@, x) ==> refs_of(store@, x) < usize::MAX,
                        self.exports@.len() + (ncaps - i) < 0xffffffff,
                        self.imports@.len() < 0xffffffff,
                        forall|k: int|
                            0 <= k < self.exports@.len() && self.exports@[k] is Some ==> (
                            #[trigger] self.exports@[k]).unwrap().count + (ncaps - i)
                                < usize::MAX,
                        forall|t: int|
                            0 <= t < i ==> wire_cap_tracks(
                                #[trigger] out@[t],
                                msgcaps[t],
                                self.exports@,
                                self.imports@,
                            ),
                    decreases ncaps - i,
                {
                    let c = caps[i];
                    let ghost m1 = store@;
                    let ghost e1 = self.exports@;
                    let ghost i1 = self.imports@;
                    let ghost hrem = hseq.skip(i as int);
                    proof {
                        assert(msgcaps.map_values(|cc: Capability| cc.handle)[i as int]
                            == msgcaps[i as int].handle);
                        assert(hseq[i as int] == c.handle);
                        assert(hrem[0] == hseq[i as int]);
                        lemma_count_index(hrem, 0);
                        assert(count_h(hrem, c.handle) >= 1);
                        assert(valid(m1, c.handle));
                        assert(refs_of(m1, c.handle) > held(m1, c.handle));
                    }
                    let wc = self.export_cap(store, c);
                    out.push(wc);
                    proof {
                        let m2 = store@;
                        let e2 = self.exports@;
                        let hrem2 = hseq.skip(i as int + 1);
                        assert(hrem.drop_first() =~= hrem2);
                        assert(hrem.first() == c.handle);
                        assert forall|x: usize| #[trigger] count_h(hrem, x) == count_h(hrem2, x)
                            + (if x == c.handle {
                            1nat
                        } else {
                            0nat
                        }) by {
                            lemma_count_first(hrem, x);
                        }
                        if find_import(i1, c.handle) is Some {
                            // The reference went home to the peer: it is
                            // released here, and the tables stand still.
                            assert(m2 == spec_dec_ref(m1, c.handle));
                            assert(e2 == e1);
                            assert forall|x: usize| valid(m1, x) implies refs_of(m1, x) >= held(
                                m1,
                                x,
                            ) + #[trigger] count_h(seq![c.handle], x) by {
                                lemma_count_singleton(c.handle, x);
                            }
                            assert forall|k: int| 0 <= k < seq![c.handle].len() implies valid(
                                m1,
                                #[trigger] seq![c.handle][k],
                            ) by {}
                            lemma_release(m1, seq![c.handle]);
                            assert forall|x: usize| valid(m2, x) implies refs_of(m2, x) >= held(
                                m2,
                                x,
                            ) + exp_count(e2, x) + imp_count(i1, x) + #[trigger] count_h(
                                hrem2,
                                x,
                            ) by {
                                lemma_count_singleton(c.handle, x);
                                lemma_count_first(hrem, x);
                                assert(refs_of(m1, x) >= held(m1, x) + exp_count(e1, x)
                                    + imp_count(i1, x) + count_h(hrem, x));
                                if exp_count(e1, x) + imp_count(i1, x) + count_h(hrem2, x) >= 1 {
                                    assert(crate::model::ext(m1, seq![c.handle], x) >= exp_count(
                                        e1,
                                        x,
                                    ) + imp_count(i1, x) + count_h(hrem2, x));
                                    assert(refs_of(m2, x) - held(m2, x) >= crate::model::ext(
                                        m1,
                                        seq![c.handle],
                                        x,
                                    ));
                                }
                            }
                            assert forall|k: int| 0 <= k < e2.len() && e2[k] is Some implies valid(
                                m2,
                                (#[trigger] e2[k]).unwrap().handle,
                            ) by {
                                let x = e2[k].unwrap().handle;
                                lemma_exp_count_slot(e1, k);
                                lemma_count_singleton(c.handle, x);
                                lemma_count_first(hrem, x);
                                assert(refs_of(m1, x) >= held(m1, x) + exp_count(e1, x)
                                    + imp_count(i1, x) + count_h(hrem, x));
                                assert(crate::model::ext(m1, seq![c.handle], x) >= 1);
                            }
                            assert forall|k: int| 0 <= k < i1.len() && i1[k] is Some implies valid(
                                m2,
                                (#[trigger] i1[k]).unwrap(),
                            ) by {
                                let x = i1[k].unwrap();
                                lemma_imp_count_slot(i1, k);
                                lemma_count_singleton(c.handle, x);
                                lemma_count_first(hrem, x);
                                assert(refs_of(m1, x) >= held(m1, x) + exp_count(e1, x)
                                    + imp_count(i1, x) + count_h(hrem, x));
                                assert(crate::model::ext(m1, seq![c.handle], x) >= 1);
                            }
                            assert forall|k: int| i + 1 <= k < ncaps implies valid(
                                m2,
                                #[trigger] hseq[k],
                            ) by {
                                let x = hseq[k];
                                assert(hrem2[k - (i + 1)] == hseq[k]);
                                lemma_count_index(hrem2, k - (i + 1));
                                lemma_count_singleton(c.handle, x);
                                lemma_count_first(hrem, x);
                                assert(refs_of(m1, x) >= held(m1, x) + exp_count(e1, x)
                                    + imp_count(i1, x) + count_h(hrem, x));
                                assert(crate::model::ext(m1, seq![c.handle], x) >= 1);
                            }
                            assert forall|x: usize| valid(m2, x) implies refs_of(m2, x)
                                < usize::MAX by {
                                assert(refs_of(m2, x) <= refs_of(m1, x));
                            }
                            lemma_find_import_hit(i1, c.handle);
                            let j = find_import(i1, c.handle).unwrap();
                            assert(wc == (crate::wire::WireCap::Import {
                                id: j as u32,
                                flags: c.flags.0,
                            }));
                            assert(j < 0xffffffff);
                            assert(wire_cap_tracks(wc, msgcaps[i as int], e2, i1));
                        } else {
                            assert(m2 == m1);
                            let ghost delta = (|x: usize|
                                if x == c.handle {
                                    1nat
                                } else {
                                    0nat
                                });
                            if find_export(e1, c.handle) is Some {
                                let id = find_export(e1, c.handle).unwrap();
                                lemma_find_export_hit(e1, c.handle);
                                assert(e2 == e1.update(
                                    id,
                                    Some(
                                        Export {
                                            count: (e1[id].unwrap().count + 1) as usize,
                                            ..e1[id].unwrap()
                                        },
                                    ),
                                ));
                                assert forall|x: usize| #[trigger] exp_count(e2, x) == exp_count(
                                    e1,
                                    x,
                                ) + delta(x) by {
                                    lemma_exp_count_update(e1, id, e2[id], x);
                                }
                                assert(e2[id].unwrap().handle == c.handle);
                                assert(wc == (crate::wire::WireCap::Export {
                                    id: id as u32,
                                    flags: c.flags.0,
                                }));
                                assert(id < 0xffffffff);
                                assert(wire_cap_tracks(wc, msgcaps[i as int], e2, i1));
                                assert forall|k: int|
                                    0 <= k < e1.len() && e1[k] is Some implies e2[k] is Some
                                    && e2[k].unwrap().handle == (
                                #[trigger] e1[k]).unwrap().handle && e2[k].unwrap().count <= e1[k].unwrap().count
                                    + 1 by {}
                            } else {
                                let id = choose|id: int|
                                    0 <= id < e2.len() && wc == (crate::wire::WireCap::Export {
                                        id: id as u32,
                                        flags: c.flags.0,
                                    }) && #[trigger] e2[id] == Some(
                                        Export { handle: c.handle, flags: c.flags, count: 1usize },
                                    ) && (forall|k: int|
                                        0 <= k < e1.len() && k != id ==> #[trigger] e2[k]
                                            == e1[k]) && (id < e1.len() ==> e1[id] is None
                                        && e2.len() == e1.len()) && (id >= e1.len() ==> id
                                        == e1.len() && e2.len() == e1.len() + 1);
                                let fresh = Export {
                                    handle: c.handle,
                                    flags: c.flags,
                                    count: 1usize,
                                };
                                assert forall|x: usize| #[trigger] exp_count(e2, x) == exp_count(
                                    e1,
                                    x,
                                ) + delta(x) by {
                                    if id < e1.len() {
                                        assert(e2 =~= e1.update(id, Some(fresh)));
                                        lemma_exp_count_update(e1, id, Some(fresh), x);
                                        assert(exp_slot(e1[id], x) == 0);
                                    } else {
                                        assert(e2 =~= e1.push(Some(fresh)));
                                        lemma_exp_count_push(e1, Some(fresh), x);
                                    }
                                }
                                assert(id < 0xffffffff);
                                assert(wire_cap_tracks(wc, msgcaps[i as int], e2, i1));
                                assert forall|k: int|
                                    0 <= k < e1.len() && e1[k] is Some implies e2[k] is Some
                                    && e2[k].unwrap().handle == (
                                #[trigger] e1[k]).unwrap().handle && e2[k].unwrap().count <= e1[k].unwrap().count
                                    + 1 by {}
                            }
                            // The tables absorbed the reference: the margin
                            // moves from the tail to the export count.
                            assert forall|x: usize| valid(m2, x) implies refs_of(m2, x) >= held(
                                m2,
                                x,
                            ) + exp_count(e2, x) + imp_count(i1, x) + #[trigger] count_h(
                                hrem2,
                                x,
                            ) by {
                                assert(count_h(hrem, x) == count_h(hrem2, x) + delta(x));
                                assert(exp_count(e2, x) == exp_count(e1, x) + delta(x));
                            }
                            assert forall|k: int| 0 <= k < e2.len() && e2[k] is Some implies valid(
                                m2,
                                (#[trigger] e2[k]).unwrap().handle,
                            ) && e2[k].unwrap().count >= 1 by {
                                if k < e1.len() && e1[k] is Some {
                                } else {
                                    assert(e2[k].unwrap().handle == c.handle);
                                }
                            }
                        }
                        // What was already encoded keeps tracking: slots
                        // only gain counts, never change hands.
                        assert forall|t: int| 0 <= t < i + 1 implies wire_cap_tracks(
                            #[trigger] out@[t],
                            msgcaps[t],
                            e2,
                            i1,
                        ) by {
                            if t < i {
                                assert(wire_cap_tracks(out@[t], msgcaps[t], e1, i1));
                                match out@[t] {
                                    crate::wire::WireCap::Export { id: tid, flags: tf } => {
                                        assert(e1[tid as int] is Some);
                                        assert(e2[tid as int] is Some && e2[tid as int].unwrap().handle
                                            == e1[tid as int].unwrap().handle);
                                    },
                                    crate::wire::WireCap::Import { .. } => {},
                                }
                            } else {
                                assert(out@[t] == wc);
                            }
                        }
                    }
                    i = i + 1;
                }
                proof {
                    assert(hseq.skip(ncaps as int) =~= Seq::<usize>::empty());
                    assert forall|x: usize| valid(store@, x) implies refs_of(store@, x) >= held(
                        store@,
                        x,
                    ) + exp_count(self.exports@, x) + #[trigger] imp_count(self.imports@, x) by {
                        assert(count_h(hseq.skip(ncaps as int), x) == 0);
                    }
                }
                Some(crate::wire::Frame::Send { id: rid, data, caps: out })
            },
        }
    }

    /// Emits the revoke owed to the peer for one import: when nothing on
    /// this side holds the proxy beyond the import table's own reference,
    /// the slot is dropped, the proxy entry goes away, and the peer is
    /// told its export is no longer referenced here.
    pub fn revoke_if_unused(&mut self, store: &mut ProcessStore, id: u32) -> (r: Option<
        crate::wire::Frame,
    >)
        requires
            store_wf(old(store)@),
            conn_wf(old(self).exports@, old(self).imports@, old(store)@),
            conn_owns(old(self).exports@, old(self).imports@, old(store)@),
        ensures
            store_wf(final(store)@),
            conn_wf(final(self).exports@, final(self).imports@, final(store)@),
            conn_owns(final(self).exports@, final(self).imports@, final(store)@),
            final(self).exports@ == old(self).exports@,
            ({
                let unused = (id as int) < old(self).imports@.len() && old(self).imports@[id as int]
                    is Some && refs_of(old(store)@, old(self).imports@[id as int].unwrap()) == 1;
                if unused {
                    r == Some(crate::wire::Frame::Revoke { id }) && final(self).imports@ == old(
                        self,
                    ).imports@.update(id as int, None) && final(store)@ == spec_dec_ref(
                        old(store)@,
                        old(self).imports@[id as int].unwrap(),
                    ) && !valid(final(store)@, old(self).imports@[id as int].unwrap())
                } else {
                    r is None && final(self).imports@ == old(self).imports@ && final(store)@
                        == old(store)@
                }
            }),
    {
        let idx = id as usize;
        if idx >= self.imports.len() {
            return None;
        }
        let p = match &self.imports[idx] {
            Some(p) => *p,
            None => { return None },
        };
        proof {
            assert(valid(old(store)@, old(self).imports@[idx as int].unwrap()));
        }
        if store.ref_count(p) != 1 {
            return None;
        }
        let ghost m0 = store@;
        let ghost e0 = self.exports@;
        let ghost i0 = self.imports@;
        self.imports[idx] = None;
        proof {
            assert(self.imports@ =~= i0.update(idx as int, None));
            lemma_imp_count_slot(i0, idx as int);
            assert(refs_of(m0, p) >= held(m0, p) + imp_count(i0, p));
            assert(imp_count(i0, p) >= 1);
            assert(held(m0, p) == 0);
            assert(refs_of(m0, p) > held(m0, p));
        }
        store.dec_ref(p);
        proof {
            let m2 = store@;
            assert(m2 == spec_dec_ref(m0, p));
            lemma_reference_discipline(m0, p);
            lemma_held_split(m0, p);
            assert(crate::model::linkheld(m0, p) == 0);
            assert(refs_of(m0, p) == 1 + crate::model::linkheld(m0, p));
            assert(!valid(m2, p));
            // The other table entries survive: the released reference was
            // the import's own, so every other claim keeps its margin.
            assert forall|x: usize| valid(m0, x) implies refs_of(m0, x) >= held(m0, x)
                + #[trigger] count_h(seq![p], x) by {
                lemma_count_singleton(p, x);
                lemma_imp_count_slot(i0, idx as int);
            }
            assert forall|k: int| 0 <= k < seq![p].len() implies valid(
                m0,
                #[trigger] seq![p][k],
            ) by {}
            lemma_release(m0, seq![p]);
            assert forall|x: usize| valid(m2, x) implies refs_of(m2, x) >= held(m2, x)
                + exp_count(e0, x) + #[trigger] imp_count(self.imports@, x) by {
                lemma_count_singleton(p, x);
                lemma_imp_count_update_none(i0, idx as int, x);
                assert(imp_count(self.imports@, x) <= imp_count(i0, x));
                if x != p {
                    if exp_count(e0, x) + imp_count(i0, x) >= 1 {
                        assert(crate::model::ext(m0, seq![p], x) >= exp_count(e0, x) + imp_count(
                            i0,
                            x,
                        ));
                        assert(refs_of(m2, x) - held(m2, x) >= crate::model::ext(
                            m0,
                            seq![p],
                            x,
                        ));
                    }
                }
            }
            assert forall|k: int| 0 <= k < e0.len() && e0[k] is Some implies valid(
                m2,
                (#[trigger] e0[k]).unwrap().handle,
            ) by {
                let x = e0[k].unwrap().handle;
                lemma_exp_count_slot(e0, k);
                lemma_count_singleton(p, x);
                if x == p {
                    lemma_imp_count_slot(i0, idx as int);
                    assert(refs_of(m0, p) >= held(m0, p) + exp_count(e0, p) + imp_count(i0, p));
                    assert(exp_count(e0, p) >= 1 && imp_count(i0, p) >= 1);
                    assert(false);
                }
                assert(refs_of(m0, x) >= held(m0, x) + exp_count(e0, x) + imp_count(i0, x));
                assert(crate::model::ext(m0, seq![p], x) >= 1);
            }
            assert forall|k: int|
                0 <= k < self.imports@.len() && self.imports@[k] is Some implies valid(
                m2,
                (#[trigger] self.imports@[k]).unwrap(),
            ) by {
                let x = self.imports@[k].unwrap();
                assert(k != idx as int);
                assert(i0[k] == self.imports@[k]);
                lemma_imp_count_slot(i0, k);
                lemma_count_singleton(p, x);
                if x == p {
                    lemma_imp_count_unique(i0, idx as int);
                    assert(imp_count(i0, p) >= 2);
                    assert(refs_of(m0, p) >= 2);
                }
                assert(x != p);
                assert(crate::model::ext(m0, seq![p], x) >= 1);
            }
        }
        Some(crate::wire::Frame::Revoke { id })
    }

    /// Emits the unlink owed to the peer for one export: when the exported
    /// local process has died, the peer's proxy must learn of it, under
    /// the identifier the subject was exported with. A decision only: the
    /// tables and the store do not change.
    pub fn unlink_for_export(&self, store: &ProcessStore, id: u32) -> (r: Option<
        crate::wire::Frame,
    >)
        requires
            store_wf(store@),
            conn_wf(self.exports@, self.imports@, store@),
        ensures
            r == (if (id as int) < self.exports@.len() && self.exports@[id as int] is Some && !ent(
                store@,
                self.exports@[id as int].unwrap().handle,
            ).alive {
                Some(crate::wire::Frame::Unlink { subject: id })
            } else {
                None
            }),
    {
        let idx = id as usize;
        if idx >= self.exports.len() {
            return None;
        }
        match &self.exports[idx] {
            Some(e) => {
                proof {
                    assert(valid(store@, self.exports@[idx as int].unwrap().handle));
                }
                if !store.is_alive(e.handle) {
                    Some(crate::wire::Frame::Unlink { subject: id })
                } else {
                    None
                }
            },
            None => None,
        }
    }
}

/// Whether import slot `j` holds exactly `h`.
fn import_slot_is(imports: &Vec<Option<usize>>, j: usize, h: usize) -> (r: bool)
    requires
        (j as int) < imports@.len(),
    ensures
        r == (imports@[j as int] == Some(h)),
{
    match &imports[j] {
        Some(p) => *p == h,
        None => false,
    }
}

/// Whether export slot `j` holds handle `h`.
fn export_slot_is(exports: &Vec<Option<Export>>, j: usize, h: usize) -> (r: bool)
    requires
        (j as int) < exports@.len(),
    ensures
        r == ((exports@[j as int]) is Some && exports@[j as int].unwrap().handle == h),
{
    match &exports[j] {
        Some(e) => e.handle == h,
        None => false,
    }
}

proof fn lemma_find_import_index(s: Seq<Option<usize>>, h: usize, j: int)
    requires
        0 <= j <= s.len(),
        forall|k: int| 0 <= k < j ==> s[k] != Some(h),
        j < s.len() ==> s[j] == Some(h),
    ensures
        j < s.len() ==> find_import(s, h) == Some(j),
        j == s.len() ==> find_import(s, h) is None,
    decreases s.len(),
{
    if s.len() > 0 {
        if s.first() == Some(h) {
        } else {
            assert(j >= 1);
            lemma_find_import_index(s.drop_first(), h, j - 1);
        }
    }
}

proof fn lemma_find_export_index(s: Seq<Option<Export>>, h: usize, j: int)
    requires
        0 <= j <= s.len(),
        forall|k: int|
            0 <= k < j ==> !((#[trigger] s[k]) is Some && s[k].unwrap().handle == h),
        j < s.len() ==> s[j] is Some && s[j].unwrap().handle == h,
    ensures
        j < s.len() ==> find_export(s, h) == Some(j),
        j == s.len() ==> find_export(s, h) is None,
    decreases s.len(),
{
    if s.len() > 0 {
        if s.first() is Some && s.first().unwrap().handle == h {
            assert(s[0] is Some && s[0].unwrap().handle == h);
        } else {
            assert(j >= 1);
            lemma_find_export_index(s.drop_first(), h, j - 1);
        }
    }
}

/// The whole echo chain at the table level. After a root exchange the
/// exporter's table holds the capability under `id` and the peer holds
/// proxy `p` under the same identifier; sending the proxy capability back
/// encodes it under `id` in the exporter's namespace — that is what
/// `export_cap` answers for a proxy — and the exporter resolves that
/// encoding, as `import_cap` does, to the very capability that left: same
/// handle, same permissions.
pub proof fn lemma_round_trip_chain(
    a_exports: Seq<Option<Export>>,
    b_imports: Seq<Option<usize>>,
    id: int,
    h: usize,
    f: Flags,
    p: usize,
)
    requires
        0 <= id < a_exports.len(),
        a_exports[id] is Some,
        a_exports[id].unwrap().handle == h,
        a_exports[id].unwrap().flags == f,
        0 <= id < b_imports.len(),
        b_imports[id] == Some(p),
        forall|j1: int, j2: int|
            0 <= j1 < j2 < b_imports.len() && (#[trigger] b_imports[j1]) is Some && (
            #[trigger] b_imports[j2]) is Some ==> b_imports[j1] != b_imports[j2],
    ensures
        find_import(b_imports, p) == Some(id),
        spec_resolve(a_exports, id, f.0) == Some(Capability { handle: h, flags: f }),
{
    lemma_reexport_uses_peer_id(b_imports, id, p);
    lemma_capability_roundtrip(a_exports, id, Capability { handle: h, flags: f });
}

/// Round-trip identity: a capability this endpoint exported under `id`
/// and received back in its own namespace resolves to the very
/// capability that was exported — same handle, same permissions.
pub proof fn lemma_capability_roundtrip(exports: Seq<Option<Export>>, id: int, orig: Capability)
    requires
        0 <= id < exports.len(),
        exports[id] is Some,
        exports[id].unwrap().handle == orig.handle,
        exports[id].unwrap().flags == orig.flags,
    ensures
        spec_resolve(exports, id, orig.flags.0) == Some(orig),
{
    let f = orig.flags.0;
    assert(f & f == f) by (bit_vector);
}

/// The peer-side half of the round trip: a capability whose handle is the
/// proxy this endpoint made for the peer's export `id` is encoded back in
/// the peer's namespace under that same `id`.
pub proof fn lemma_reexport_uses_peer_id(imports: Seq<Option<usize>>, id: int, p: usize)
    requires
        0 <= id < imports.len(),
        imports[id] == Some(p),
        forall|j1: int, j2: int|
            0 <= j1 < j2 < imports.len() && (#[trigger] imports[j1]) is Some && (
            #[trigger] imports[j2]) is Some ==> imports[j1] != imports[j2],
    ensures
        find_import(imports, p) == Some(id),
    decreases imports.len(),
{
    if imports.first() == Some(p) {
        if id != 0 {
            assert(imports[0] is Some && imports[id] is Some);
            assert(imports[0] != imports[id]);
        }
        assert(id == 0);
    } else {
        assert(id >= 1);
        let rest = imports.drop_first();
        assert forall|j1: int, j2: int|
            0 <= j1 < j2 < rest.len() && (#[trigger] rest[j1]) is Some && (#[trigger] rest[j2])
                is Some implies rest[j1] != rest[j2] by {
            assert(rest[j1] == imports[j1 + 1]);
            assert(rest[j2] == imports[j2 + 1]);
        }
        assert(rest[id - 1] == Some(p));
        lemma_reexport_uses_peer_id(rest, id - 1, p);
    }
}

/// A sequence of `n` copies of one handle counts `n` for it and nothing
/// else.
proof fn lemma_count_repeat(n: nat, h: usize, x: usize)
    ensures
        count_h(Seq::new(n, |i: int| h), x) == if x == h {
            n
        } else {
            0nat
        },
    decreases n,
{
    if n > 0 {
        assert(Seq::new(n, |i: int| h).drop_last() =~= Seq::new((n - 1) as nat, |i: int| h));
        lemma_count_repeat((n - 1) as nat, h, x);
    }
}

/// The export table owns at least one slot's worth of counts on that
/// slot's handle.
proof fn lemma_exp_count_slot(s: Seq<Option<Export>>, k: int)
    requires
        0 <= k < s.len(),
        s[k] is Some,
    ensures
        exp_count(s, s[k].unwrap().handle) >= s[k].unwrap().count,
    decreases s.len(),
{
    if k < s.len() - 1 {
        lemma_exp_count_slot(s.drop_last(), k);
    }
}

/// The import table owns at least one count on any slot's proxy.
proof fn lemma_imp_count_slot(s: Seq<Option<usize>>, k: int)
    requires
        0 <= k < s.len(),
        s[k] is Some,
    ensures
        imp_count(s, s[k].unwrap()) >= 1,
    decreases s.len(),
{
    if k < s.len() - 1 {
        lemma_imp_count_slot(s.drop_last(), k);
    }
}

/// A proxy held by no slot is owned zero times.
proof fn lemma_imp_count_absent(s: Seq<Option<usize>>, p: usize)
    requires
        forall|k: int| 0 <= k < s.len() ==> #[trigger] s[k] != Some(p),
    ensures
        imp_count(s, p) == 0,
    decreases s.len(),
{
    if s.len() > 0 {
        lemma_imp_count_absent(s.drop_last(), p);
    }
}

/// With distinct proxies, a present proxy is owned exactly once.
proof fn lemma_imp_count_unique(s: Seq<Option<usize>>, j: int)
    requires
        0 <= j < s.len(),
        s[j] is Some,
        forall|j1: int, j2: int|
            0 <= j1 < j2 < s.len() && (#[trigger] s[j1]) is Some && (#[trigger] s[j2]) is Some
                ==> s[j1] != s[j2],
    ensures
        imp_count(s, s[j].unwrap()) == 1,
    decreases s.len(),
{
    let p = s[j].unwrap();
    if j == s.len() - 1 {
        assert forall|k: int| 0 <= k < s.drop_last().len() implies #[trigger] s.drop_last()[k]
            != Some(p) by {
            assert(s[k] is Some ==> s[k] != s[j]);
        }
        lemma_imp_count_absent(s.drop_last(), p);
    } else {
        assert(s.last() != Some(p)) by {
            if s.last() == Some(p) {
                assert(s[j] is Some && s[s.len() - 1] is Some);
                assert(s[j] != s[s.len() - 1]);
            }
        }
        assert forall|j1: int, j2: int|
            0 <= j1 < j2 < s.drop_last().len() && (#[trigger] s.drop_last()[j1]) is Some && (
            #[trigger] s.drop_last()[j2]) is Some implies s.drop_last()[j1] != s.drop_last()[j2] by {
            assert(s[j1] == s.drop_last()[j1]);
            assert(s[j2] == s.drop_last()[j2]);
        }
        lemma_imp_count_unique(s.drop_last(), j);
    }
}

/// A handle exported by no slot is owned zero export counts.
proof fn lemma_exp_count_zero(s: Seq<Option<Export>>, p: usize)
    requires
        forall|id: int|
            0 <= id < s.len() && (#[trigger] s[id]) is Some ==> s[id].unwrap().handle != p,
    ensures
        exp_count(s, p) == 0,
    decreases s.len(),
{
    if s.len() > 0 {
        lemma_exp_count_zero(s.drop_last(), p);
    }
}

/// Clearing one slot removes exactly its contribution.
proof fn lemma_imp_count_update_none(s: Seq<Option<usize>>, j: int, x: usize)
    requires
        0 <= j < s.len(),
    ensures
        imp_count(s.update(j, None), x) == imp_count(s, x) - (if s[j] == Some(x) {
            1int
        } else {
            0int
        }),
    decreases s.len(),
{
    let s2 = s.update(j, None);
    if j == s.len() - 1 {
        assert(s2.drop_last() =~= s.drop_last());
    } else {
        assert(s2.drop_last() =~= s.drop_last().update(j, None));
        assert(s2.last() == s.last());
        lemma_imp_count_update_none(s.drop_last(), j, x);
    }
}

/// One more prefix slot appends exactly that slot's handles.
proof fn lemma_exp_handles_take_step(s: Seq<Option<Export>>, id: int)
    requires
        1 <= id <= s.len(),
    ensures
        exp_handles(s.take(id)) == exp_handles(s.take(id - 1)) + match s[id - 1] {
            Some(e) => Seq::new(e.count as nat, |i: int| e.handle),
            None => Seq::<usize>::empty(),
        },
{
    assert(s.take(id).drop_last() =~= s.take(id - 1));
    assert(s.take(id).last() == s[id - 1]);
}

/// One more prefix slot adds exactly that slot's contribution.
proof fn lemma_exp_count_take_step(s: Seq<Option<Export>>, id: int, x: usize)
    requires
        1 <= id <= s.len(),
    ensures
        exp_count(s.take(id), x) == exp_count(s.take(id - 1), x) + match s[id - 1] {
            Some(e) => if e.handle == x {
                e.count as nat
            } else {
                0nat
            },
            None => 0nat,
        },
{
    assert(s.take(id).drop_last() =~= s.take(id - 1));
    assert(s.take(id).last() == s[id - 1]);
}


/// The export-table contribution of one slot to the holds on `x`.
pub open spec fn exp_slot(v: Option<Export>, x: usize) -> nat {
    match v {
        Some(e) => if e.handle == x {
            e.count as nat
        } else {
            0nat
        },
        None => 0nat,
    }
}

proof fn lemma_exp_count_update(s: Seq<Option<Export>>, id: int, v: Option<Export>, x: usize)
    requires
        0 <= id < s.len(),
    ensures
        exp_count(s.update(id, v), x) == exp_count(s, x) - exp_slot(s[id], x) + exp_slot(v, x),
    decreases s.len(),
{
    if s.len() > 0 {
        if id == s.len() - 1 {
            assert(s.update(id, v).drop_last() =~= s.drop_last());
            assert(s.update(id, v).last() == v);
        } else {
            assert(s.update(id, v).drop_last() =~= s.drop_last().update(id, v));
            assert(s.update(id, v).last() == s.last());
            lemma_exp_count_update(s.drop_last(), id, v, x);
        }
    }
}

proof fn lemma_exp_count_push(s: Seq<Option<Export>>, v: Option<Export>, x: usize)
    ensures
        exp_count(s.push(v), x) == exp_count(s, x) + exp_slot(v, x),
{
    assert(s.push(v).drop_last() =~= s);
    assert(s.push(v).last() == v);
}

/// `find_export` answers with a slot that holds the handle.
proof fn lemma_find_export_hit(s: Seq<Option<Export>>, h: usize)
    requires
        find_export(s, h) is Some,
    ensures
        ({
            let j = find_export(s, h).unwrap();
            0 <= j < s.len() && s[j] is Some && s[j].unwrap().handle == h
        }),
    decreases s.len(),
{
    if s.len() > 0 && !(s.first() matches Some(e) && s.first().unwrap().handle == h) {
        lemma_find_export_hit(s.drop_first(), h);
        let j = find_export(s.drop_first(), h).unwrap();
        assert(s[j + 1] == s.drop_first()[j]);
    }
}

/// `find_import` answers with a slot that holds the proxy.
proof fn lemma_find_import_hit(s: Seq<Option<usize>>, h: usize)
    requires
        find_import(s, h) is Some,
    ensures
        ({
            let j = find_import(s, h).unwrap();
            0 <= j < s.len() && s[j] == Some(h)
        }),
    decreases s.len(),
{
    if s.len() > 0 && s.first() != Some(h) {
        lemma_find_import_hit(s.drop_first(), h);
        let j = find_import(s.drop_first(), h).unwrap();
        assert(s[j + 1] == s.drop_first()[j]);
    }
}

} // verus!
