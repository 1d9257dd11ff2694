//! The process store: ownership and signalling for every process entry on
//! one peer.
//!
//! Entries are kept in a slab of slots and named by integer handles. Each
//! entry carries an alive flag, a reference count, the set of handles it has
//! linked as subject, and a mailbox of delivered signals. A handle stays
//! valid while anything beyond the link structure still owns a reference on
//! it, dead or not; the release that leaves only link-held references
//! removes the slot, purges the handle from every other link list, and
//! releases every reference the entry itself still held, so that cyclic
//! link pairs are collected once their outside owners let go. Signals travel through the store so that the
//! alive check and the reference bookkeeping stay atomic with respect to
//! kills: a signal sent to a dead or non-receiving entry is freed, never
//! dropped with its references still held.

use vstd::prelude::*;

use crate::model::{
    sig_room, sig_targets_ok,
    count_h, ent, entry_holds, entry_ok, ext, first_free_from, fresh_entry, held, lemma_count_concat,
    lemma_count_contains, lemma_count_first, lemma_count_index, lemma_count_occurs,
    lemma_count_singleton, lemma_first_free, lemma_inc_many_props, lemma_inc_many_push, lemma_rinv_wf,
    lemma_held_lower, lemma_held_push, lemma_held_split, lemma_held_update, lemma_linkheld_prefix,
    lemma_linkheld_update, lemma_mb_first, lemma_mb_push, lemma_purge_props, linkheld,
    linkheld_upto, mb_handles, purge_slot, scrub, slot_links, spec_purge,
    nodup, owns_sig, refs_of, rinv, spec_clear_linked, spec_dec1, spec_dec_ref, spec_drain,
    spec_drain_step, spec_free_sig, spec_inc, spec_inc_many, spec_insert, spec_kill, spec_link,
    spec_push_linked, spec_push_sig, spec_release, spec_remove, spec_send_sig, spec_set_dead,
    store_wf, sum_refs, upd, valid, EntryKind, EntryM, StoreM,
};
use crate::release::{lemma_release, lemma_step_dec, lemma_step_remove};
use crate::signal::{sig_handles, Capability, Message, Signal, SignalM};
use crate::types::{FLAG_KILL, FLAG_SEND};

verus! {

/// What a caller hands the store at insertion: whether the entry receives
/// signals into a mailbox, and what kind of process it stands for.
#[derive(Clone, Copy, Debug, PartialEq, Eq, Structural)]
pub struct ProcessEntry {
    /// True when the entry receives signals; an entry whose receiver is
    /// gone rejects them and the store frees them instead.
    pub open: bool,
    /// The kind of process this entry stands for.
    pub kind: EntryKind,
}

struct Entry {
    open: bool,
    kind: EntryKind,
    alive: bool,
    refs: usize,
    linked: Vec<usize>,
    mailbox: Vec<Signal>,
}

impl View for Entry {
    type V = EntryM;

    closed spec fn view(&self) -> EntryM {
        EntryM {
            alive: self.alive,
            open: self.open,
            kind: self.kind,
            refs: self.refs as nat,
            linked: self.linked@,
            mailbox: self.mailbox.deep_view(),
        }
    }
}

/// The canonical process store.
pub struct ProcessStore {
    slots: Vec<Option<Entry>>,
}

impl View for ProcessStore {
    type V = StoreM;

    closed spec fn view(&self) -> StoreM {
        Seq::new(
            self.slots@.len(),
            |i: int|
                match self.slots@[i] {
                    Some(e) => Some(e@),
                    None => None,
                },
        )
    }
}

/// A store never outgrows the machine: its slot count fits an index.
pub proof fn lemma_store_len(s: &ProcessStore)
    ensures
        s@.len() <= usize::MAX,
{
    vstd::std_specs::vec::axiom_spec_len(&s.slots);
    assert(s@.len() == s.slots@.len());
}

impl ProcessStore {
    /// Creates a new, empty process store.
    pub fn new() -> (s: ProcessStore)
        ensures
            s@.len() == 0,
            store_wf(s@),
    {
        let s = ProcessStore { slots: Vec::new() };
        proof {
            assert forall|h: usize| !valid(s@, h) implies #[trigger] held(s@, h) == 0 by {}
        }
        s
    }

    /// True when `handle` names an occupied slot: inserted and not yet
    /// released by its last outside reference.
    pub fn contains(&self, handle: usize) -> (r: bool)
        ensures
            r == valid(self@, handle),
    {
        handle < self.slots.len() && self.slots[handle].is_some()
    }

    /// Whether the process at `handle` is alive.
    pub fn is_alive(&self, handle: usize) -> (r: bool)
        requires
            valid(self@, handle),
        ensures
            r == ent(self@, handle).alive,
    {
        match &self.slots[handle] {
            Some(e) => e.alive,
            None => false,
        }
    }

    /// The reference count of the entry at `handle`.
    pub fn ref_count(&self, handle: usize) -> (r: usize)
        requires
            valid(self@, handle),
        ensures
            r == refs_of(self@, handle),
    {
        match &self.slots[handle] {
            Some(e) => e.refs,
            None => 0,
        }
    }

    /// The kind of the entry at `handle`.
    pub fn kind(&self, handle: usize) -> (r: EntryKind)
        requires
            valid(self@, handle),
        ensures
            r == ent(self@, handle).kind,
    {
        match &self.slots[handle] {
            Some(e) => e.kind,
            None => EntryKind::Local,
        }
    }

    /// Inserts a process entry and returns an owning handle to it: the
    /// entry starts alive with a reference count of one, in the first
    /// vacant slot, a slot nothing else refers to.
    pub fn insert(&mut self, entry: ProcessEntry) -> (h: usize)
        requires
            store_wf(old(self)@),
        ensures
            final(self)@ == spec_insert(old(self)@, entry.open, entry.kind),
            store_wf(final(self)@),
            h == first_free_from(old(self)@, 0),
            valid(final(self)@, h),
            !valid(old(self)@, h),
            ent(final(self)@, h) == fresh_entry(entry.open, entry.kind),
            final(self)@.len() >= old(self)@.len(),
            forall|x: usize|
                x != h ==> ((valid(final(self)@, x) <==> valid(old(self)@, x)) && (valid(old(self)@, x)
                    ==> ent(final(self)@, x) == ent(old(self)@, x))),
            forall|x: usize| #[trigger] held(final(self)@, x) == held(old(self)@, x),
    {
        let ghost m0 = self@;
        let fresh = Entry {
            open: entry.open,
            kind: entry.kind,
            alive: true,
            refs: 1,
            linked: Vec::new(),
            mailbox: Vec::new(),
        };
        proof {
            assert(fresh.linked@ =~= Seq::<usize>::empty());
            assert(fresh.mailbox.deep_view() =~= Seq::<SignalM>::empty());
            assert(fresh@ == fresh_entry(entry.open, entry.kind));
        }
        let mut i: usize = 0;
        let n = self.slots.len();
        while i < n && self.slots[i].is_some()
            invariant
                n == self.slots.len(),
                i <= n,
                forall|j: int| 0 <= j < i ==> self.slots@[j] is Some,
                self@ == m0,
            decreases n - i,
        {
            i = i + 1;
        }
        proof {
            assert(forall|j: int| 0 <= j < i ==> m0[j] is Some);
            lemma_first_free(m0, i as int);
        }
        let h = i;
        if h == n {
            self.slots.push(Some(fresh));
            proof {
                assert(self@ =~= m0.push(Some(fresh_entry(entry.open, entry.kind))));
            }
        } else {
            self.slots[h] = Some(fresh);
            proof {
                assert(self@ =~= m0.update(h as int, Some(fresh_entry(entry.open, entry.kind))));
            }
        }
        proof {
            let m1 = self@;
            let fe = fresh_entry(entry.open, entry.kind);
            assert forall|x: usize| #[trigger] held(m1, x) == held(m0, x) by {
                assert(entry_holds(fe, x) == 0);
                if h == n {
                    lemma_held_push(m0, Some(fe), x);
                } else {
                    lemma_held_update(m0, h, Some(fe), x);
                }
            }
            assert forall|x: usize| #[trigger] valid(m1, x) implies entry_ok(ent(m1, x))
                && refs_of(m1, x) >= held(m1, x) by {
                if x == h {
                    assert(ent(m1, h) == fe);
                    assert(count_h(fe.linked, x) <= 1);
                    assert(held(m0, h) == 0);
                } else {
                    assert(valid(m0, x));
                    assert(ent(m1, x) == ent(m0, x));
                }
            }
            assert forall|x: usize| !valid(m1, x) implies #[trigger] held(m1, x) == 0 by {
                assert(!valid(m0, x));
            }
        }
        h
    }

    /// Increments the reference count of `handle`.
    pub fn inc_ref(&mut self, handle: usize)
        requires
            store_wf(old(self)@),
            valid(old(self)@, handle),
            refs_of(old(self)@, handle) < usize::MAX,
        ensures
            final(self)@ == spec_inc(old(self)@, handle),
            store_wf(final(self)@),
    {
        let ghost m0 = self@;
        match &mut self.slots[handle] {
            Some(e) => {
                e.refs = e.refs + 1;
            },
            None => {},
        }
        proof {
            let m1 = self@;
            assert(m1 =~= spec_inc(m0, handle));
            let e2 = ent(m1, handle);
            assert forall|x: usize| #[trigger] held(m1, x) == held(m0, x) by {
                lemma_held_update(m0, handle, Some(e2), x);
                assert(entry_holds(e2, x) == entry_holds(ent(m0, handle), x));
            }
            assert forall|x: usize| #[trigger] valid(m1, x) implies entry_ok(ent(m1, x))
                && refs_of(m1, x) >= held(m1, x) by {
                assert(valid(m0, x));
                if x != handle {
                    assert(ent(m1, x) == ent(m0, x));
                } else {
                    assert(ent(m1, x).linked == ent(m0, x).linked);
                    assert(ent(m1, x).alive == ent(m0, x).alive);
                }
            }
            assert forall|x: usize| !valid(m1, x) implies #[trigger] held(m1, x) == 0 by {
                assert(!valid(m0, x));
            }
        }
    }
    /// Decrements the reference count of `handle`, releasing one owned
    /// reference. The decrement that leaves only link-held references on
    /// the entry removes it, purges its handle from every link list, and
    /// releases, transitively, every reference its own link list and
    /// queued signals still held — so a cycle of links cannot keep
    /// otherwise unreferenced entries alive.
    pub fn dec_ref(&mut self, handle: usize)
        requires
            store_wf(old(self)@),
            valid(old(self)@, handle),
            refs_of(old(self)@, handle) > held(old(self)@, handle),
        ensures
            final(self)@ == spec_dec_ref(old(self)@, handle),
            store_wf(final(self)@),
    {
        let mut p: Vec<usize> = Vec::new();
        p.push(handle);
        proof {
            assert(p@ =~= seq![handle]);
            assert forall|x: usize| valid(self@, x) implies refs_of(self@, x) >= held(self@, x)
                + #[trigger] count_h(p@, x) by {
                lemma_count_singleton(handle, x);
            }
            assert forall|k: int| 0 <= k < p@.len() implies valid(self@, #[trigger] p@[k]) by {}
        }
        self.release_all(p);
    }

    /// Sends a signal through the store: delivered into the target's
    /// mailbox when the target is alive and receiving, freed otherwise —
    /// exactly one of the two happens to every signal that enters.
    pub fn send_signal(&mut self, target: usize, signal: Signal)
        requires
            store_wf(old(self)@),
            valid(old(self)@, target),
            owns_sig(old(self)@, signal@),
        ensures
            final(self)@ == spec_send_sig(old(self)@, target, signal@),
            store_wf(final(self)@),
    {
        let ghost m0 = self@;
        let deliver = match &self.slots[target] {
            Some(e) => e.alive && e.open,
            None => false,
        };
        if deliver {
            let ghost sm = signal@;
            match &mut self.slots[target] {
                Some(e) => {
                    e.mailbox.push(signal);
                },
                None => {},
            }
            proof {
                let e0 = ent(m0, target);
                assert(ent(self@, target).mailbox =~= e0.mailbox.push(sm));
                assert(self@ =~= spec_push_sig(m0, target, sm));
                let m1 = self@;
                let e1 = ent(m1, target);
                assert forall|x: usize| #[trigger] held(m1, x) == held(m0, x) + count_h(
                    sig_handles(sm),
                    x,
                ) by {
                    lemma_held_update(m0, target, Some(e1), x);
                    lemma_mb_push(e0.mailbox, sm);
                    lemma_count_concat(mb_handles(e0.mailbox), sig_handles(sm), x);
                }
                assert forall|x: usize| #[trigger] valid(m1, x) implies entry_ok(ent(m1, x))
                    && refs_of(m1, x) >= held(m1, x) by {
                    assert(valid(m0, x));
                    if x != target {
                        assert(ent(m1, x) == ent(m0, x));
                    } else {
                        assert(ent(m1, x).linked == e0.linked);
                        assert(ent(m1, x).alive == e0.alive);
                        assert(ent(m1, x).refs == e0.refs);
                    }
                    assert(refs_of(m0, x) >= held(m0, x) + count_h(sig_handles(sm), x));
                }
                assert forall|x: usize| !valid(m1, x) implies #[trigger] held(m1, x) == 0 by {
                    assert(!valid(m0, x));
                    if count_h(sig_handles(sm), x) >= 1 {
                        lemma_count_occurs(sig_handles(sm), x);
                        assert(valid(m0, x));
                    }
                }
            }
        } else {
            let hv = sig_handles_vec(&signal);
            proof {
                assert forall|k: int| 0 <= k < hv@.len() implies valid(
                    self@,
                    #[trigger] hv@[k],
                ) by {}
            }
            self.release_all(hv);
        }
    }

    /// Sends a message to the process at `handle`: delivered when the
    /// target is alive and receiving; freed, its carried capabilities
    /// released, otherwise.
    pub fn send(&mut self, handle: usize, message: Message)
        requires
            store_wf(old(self)@),
            valid(old(self)@, handle),
            owns_sig(old(self)@, SignalM::Message(message@)),
        ensures
            final(self)@ == spec_send_sig(old(self)@, handle, SignalM::Message(message@)),
            store_wf(final(self)@),
    {
        self.send_signal(handle, Signal::Message(message));
    }

    /// Takes the oldest signal out of the mailbox of `handle`, if any. The
    /// caller becomes the owner of every reference the signal carries.
    pub fn next_signal(&mut self, handle: usize) -> (r: Option<Signal>)
        requires
            store_wf(old(self)@),
            valid(old(self)@, handle),
        ensures
            ent(old(self)@, handle).mailbox.len() == 0 ==> r is None && final(self)@ == old(
                self,
            )@,
            ent(old(self)@, handle).mailbox.len() > 0 ==> r is Some && r.unwrap()@ == ent(
                old(self)@,
                handle,
            ).mailbox.first() && final(self)@ == upd(
                old(self)@,
                handle,
                EntryM {
                    mailbox: ent(old(self)@, handle).mailbox.drop_first(),
                    ..ent(old(self)@, handle)
                },
            ),
            store_wf(final(self)@),
            r is Some ==> owns_sig(final(self)@, r.unwrap()@),
    {
        let ghost m0 = self@;
        let ghost e0 = ent(m0, handle);
        let mut r: Option<Signal> = None;
        match &mut self.slots[handle] {
            Some(e) => {
                if e.mailbox.len() > 0 {
                    let s = e.mailbox.remove(0);
                    r = Some(s);
                }
            },
            None => {},
        }
        proof {
            if e0.mailbox.len() == 0 {
                assert(self@ =~= m0);
            } else {
                let sm = e0.mailbox.first();
                assert(r.unwrap()@ == sm);
                assert(ent(self@, handle).mailbox =~= e0.mailbox.drop_first());
                assert(self@ =~= upd(
                    m0,
                    handle,
                    EntryM { mailbox: e0.mailbox.drop_first(), ..e0 },
                ));
                let m1 = self@;
                let e1 = ent(m1, handle);
                assert forall|x: usize| #[trigger] held(m1, x) + count_h(sig_handles(sm), x)
                    == held(m0, x) by {
                    lemma_held_update(m0, handle, Some(e1), x);
                    lemma_mb_first(e0.mailbox);
                    lemma_count_concat(sig_handles(sm), mb_handles(e0.mailbox.drop_first()), x);
                }
                assert forall|x: usize| #[trigger] valid(m1, x) implies entry_ok(ent(m1, x))
                    && refs_of(m1, x) >= held(m1, x) by {
                    assert(valid(m0, x));
                    if x != handle {
                        assert(ent(m1, x) == ent(m0, x));
                    } else {
                        assert(ent(m1, x).linked == e0.linked);
                        assert(ent(m1, x).alive == e0.alive);
                        assert(ent(m1, x).refs == e0.refs);
                    }
                }
                assert forall|x: usize| !valid(m1, x) implies #[trigger] held(m1, x) == 0 by {
                    assert(!valid(m0, x));
                }
                assert forall|k: int| 0 <= k < sig_handles(sm).len() implies valid(
                    m1,
                    #[trigger] sig_handles(sm)[k],
                ) by {
                    let x = sig_handles(sm)[k];
                    lemma_count_index(sig_handles(sm), k);
                    lemma_mb_first(e0.mailbox);
                    lemma_count_concat(sig_handles(sm), mb_handles(e0.mailbox.drop_first()), x);
                    assert(count_h(mb_handles(e0.mailbox), x) >= 1);
                    assert(entry_holds(e0, x) >= 1);
                    lemma_held_lower(m0, handle, x);
                    assert(held(m0, x) >= 1);
                    assert(valid(m0, x));
                }
            }
        }
        r
    }

    /// Links `subject` to `object`: when the subject dies, the store sends
    /// an unlink signal to the object. A live subject records the object at
    /// most once, taking one reference on it; a dead subject sends the
    /// unlink signal immediately, the signal owning one fresh reference on
    /// the subject.
    pub fn link(&mut self, subject: usize, object: usize)
        requires
            store_wf(old(self)@),
            valid(old(self)@, subject),
            valid(old(self)@, object),
            refs_of(old(self)@, subject) < usize::MAX,
            refs_of(old(self)@, object) < usize::MAX,
        ensures
            final(self)@ == spec_link(old(self)@, subject, object),
            store_wf(final(self)@),
    {
        let ghost m0 = self@;
        let alive = self.is_alive(subject);
        if alive {
            let already = match &self.slots[subject] {
                Some(e) => vec_contains(&e.linked, object),
                None => false,
            };
            proof {
                lemma_count_contains(ent(m0, subject).linked, object);
            }
            if !already {
                self.inc_ref(object);
                let ghost ma = self@;
                proof {
                    assert forall|x: usize| #[trigger] held(ma, x) == held(m0, x) by {
                        lemma_held_update(m0, object, Some(ent(ma, object)), x);
                    }
                }
                match &mut self.slots[subject] {
                    Some(e) => {
                        e.linked.push(object);
                    },
                    None => {},
                }
                proof {
                    assert(ent(self@, subject).linked =~= ent(ma, subject).linked.push(object));
                    assert(ent(self@, subject).mailbox =~= ent(ma, subject).mailbox);
                    assert(self@ =~= spec_push_linked(ma, subject, object));
                    let m1 = self@;
                    let ea = ent(ma, subject);
                    let e1 = ent(m1, subject);
                    assert forall|x: usize| #[trigger] held(m1, x) == held(ma, x) + if x == object {
                        1int
                    } else {
                        0int
                    } by {
                        lemma_held_update(ma, subject, Some(e1), x);
                        assert(ea.linked.push(object).drop_last() =~= ea.linked);
                        assert(ea.linked.push(object).last() == object);
                        assert(count_h(e1.linked, x) == count_h(ea.linked, x) + if x == object {
                            1nat
                        } else {
                            0nat
                        });
                    }
                    assert forall|x: usize| #[trigger] valid(m1, x) implies entry_ok(ent(m1, x))
                        && refs_of(m1, x) >= held(m1, x) by {
                        assert(valid(ma, x));
                        if x == subject {
                            assert(ent(m1, x).alive == ea.alive);
                            assert(ent(m1, x).refs == ea.refs);
                            assert forall|y: usize| #[trigger] count_h(e1.linked, y) <= 1 by {
                                assert(ea.linked.push(object).drop_last() =~= ea.linked);
                                assert(count_h(ea.linked, y) <= 1);
                                if y == object {
                                    lemma_count_contains(ent(m0, subject).linked, y);
                                }
                            }
                        } else {
                            assert(ent(m1, x) == ent(ma, x));
                        }
                        if x == object {
                            assert(refs_of(ma, x) == refs_of(m0, x) + 1);
                        }
                    }
                    assert forall|x: usize| !valid(m1, x) implies #[trigger] held(m1, x) == 0 by {
                        assert(!valid(ma, x));
                    }
                }
            }
        } else {
            self.inc_ref(subject);
            proof {
                let ma = self@;
                assert forall|x: usize| valid(ma, x) implies refs_of(ma, x) >= held(ma, x)
                    + #[trigger] count_h(sig_handles(SignalM::Unlink { subject }), x) by {
                    lemma_count_singleton(subject, x);
                    lemma_held_update(m0, subject, Some(ent(ma, subject)), x);
                    assert(held(ma, x) == held(m0, x));
                }
                assert forall|k: int|
                    0 <= k < sig_handles(SignalM::Unlink { subject }).len() implies valid(
                    self@,
                    #[trigger] sig_handles(SignalM::Unlink { subject })[k],
                ) by {}
            }
            self.send_signal(object, Signal::Unlink { subject });
        }
    }

    /// Kills the process at `handle`: its alive flag falls once and for
    /// all, a kill signal is delivered to its own mailbox if it receives,
    /// and every linked object is sent exactly one unlink signal naming
    /// this subject. Killing an already dead process does nothing.
    pub fn kill(&mut self, handle: usize)
        requires
            store_wf(old(self)@),
            valid(old(self)@, handle),
            refs_of(old(self)@, handle) > held(old(self)@, handle),
            refs_of(old(self)@, handle) + ent(old(self)@, handle).linked.len() < usize::MAX,
        ensures
            final(self)@ == spec_kill(old(self)@, handle),
            store_wf(final(self)@),
    {
        let ghost m0 = self@;
        let h = handle;
        let alive = self.is_alive(h);
        if !alive {
            return ;
        }
        let ghost e0 = ent(m0, h);
        let mut taken: Vec<usize> = Vec::new();
        match &mut self.slots[h] {
            Some(e) => {
                e.alive = false;
                if e.open {
                    e.mailbox.push(Signal::Kill);
                }
                core::mem::swap(&mut taken, &mut e.linked);
            },
            None => {},
        }
        proof {
            let dead = spec_set_dead(m0, h);
            let told = if e0.open {
                spec_push_sig(dead, h, SignalM::Kill)
            } else {
                dead
            };
            let m3 = spec_clear_linked(told, h);
            assert(ent(dead, h) == EntryM { alive: false, ..e0 });
            if e0.open {
                assert(ent(told, h) == EntryM {
                    alive: false,
                    mailbox: e0.mailbox.push(SignalM::Kill),
                    ..e0
                });
                assert(ent(self@, h).mailbox =~= e0.mailbox.push(SignalM::Kill));
            } else {
                assert(ent(self@, h).mailbox =~= e0.mailbox);
            }
            assert(taken@ == e0.linked);
            assert(ent(self@, h).linked =~= Seq::<usize>::empty());
            assert(self@ =~= m3);
            assert(spec_kill(m0, h) == spec_drain(m3, h, e0.linked));
            // Holds after draining the link list: the kill signal, when
            // queued, owns nothing.
            let e3 = ent(m3, h);
            assert(m3 =~= upd(m0, h, e3));
            assert forall|x: usize| #[trigger] held(m3, x) + count_h(e0.linked, x) == held(
                m0,
                x,
            ) by {
                lemma_held_update(m0, h, Some(e3), x);
                if e0.open {
                    lemma_mb_push(e0.mailbox, SignalM::Kill);
                    lemma_count_concat(mb_handles(e0.mailbox), sig_handles(SignalM::Kill), x);
                    assert(count_h(sig_handles(SignalM::Kill), x) == 0);
                }
                assert(count_h(mb_handles(e3.mailbox), x) == count_h(mb_handles(e0.mailbox), x));
                assert(count_h(e3.linked, x) == 0);
            }
            assert(rinv(m3, taken@)) by {
                assert forall|x: usize| valid(m3, x) implies refs_of(m3, x) >= held(m3, x)
                    + #[trigger] count_h(taken@, x) by {
                    assert(refs_of(m0, x) >= held(m0, x));
                }
                assert forall|x: usize| #[trigger] valid(m3, x) implies entry_ok(ent(m3, x)) by {
                    assert(valid(m0, x));
                    if x == h {
                        assert forall|y: usize| #[trigger] count_h(ent(m3, h).linked, y) <= 1 by {}
                    } else {
                        assert(ent(m3, x) == ent(m0, x));
                    }
                }
                assert forall|x: usize| !valid(m3, x) implies #[trigger] held(m3, x) == 0 by {
                    assert(!valid(m0, x));
                    assert(held(m3, x) <= held(m0, x));
                }
                assert forall|k: int| 0 <= k < taken@.len() implies valid(
                    m3,
                    #[trigger] taken@[k],
                ) by {
                    let x = taken@[k];
                    lemma_count_index(e0.linked, k);
                    lemma_held_lower(m0, h, x);
                    assert(held(m0, x) >= entry_holds(e0, x));
                    assert(valid(m0, x));
                }
            };
            assert(taken@.skip(0) =~= taken@);
            assert(refs_of(m3, h) == refs_of(m0, h));
            assert(held(m3, h) + count_h(taken@, h) == held(m0, h));
            assert(refs_of(m3, h) >= held(m3, h) + count_h(taken@, h) + 1);
        }
        let n = taken.len();
        let mut i: usize = 0;
        while i < n
            invariant
                n == taken.len(),
                i <= n,
                valid(self@, h),
                !ent(self@, h).alive,
                ent(self@, h).linked.len() == 0,
                rinv(self@, taken@.skip(i as int)),
                refs_of(self@, h) >= held(self@, h) + count_h(taken@.skip(i as int), h) + 1,
                refs_of(self@, h) + (n - i) <= usize::MAX,
                spec_kill(m0, handle) == spec_drain(self@, h, taken@.skip(i as int)),
            decreases n - i,
        {
            let ghost mi = self@;
            let ghost p = taken@.skip(i as int);
            let o = taken[i];
            proof {
                lemma_rinv_wf(mi, p);
                assert(p[0] == taken@[i as int]);
                assert(valid(mi, o));
                lemma_count_index(p, 0);
            }
            self.inc_ref(h);
            let ghost ma = self@;
            proof {
                assert forall|x: usize| #[trigger] held(ma, x) == held(mi, x) by {
                    lemma_held_update(mi, h, Some(ent(ma, h)), x);
                }
                assert forall|x: usize| #[trigger] valid(ma, x) implies entry_ok(ent(ma, x))
                    && refs_of(ma, x) >= held(ma, x) + count_h(
                    sig_handles(SignalM::Unlink { subject: h }),
                    x,
                ) by {
                    assert(valid(mi, x));
                    lemma_count_singleton(h, x);
                    if x != h {
                        assert(ent(ma, x) == ent(mi, x));
                    } else {
                        assert(ent(ma, x).linked == ent(mi, x).linked);
                        assert(ent(ma, x).alive == ent(mi, x).alive);
                    }
                }
                assert forall|k: int|
                    0 <= k < sig_handles(SignalM::Unlink { subject: h }).len() implies valid(
                    ma,
                    #[trigger] sig_handles(SignalM::Unlink { subject: h })[k],
                ) by {}
            }
            self.send_signal(o, Signal::Unlink { subject: h });
            let ghost mb = self@;
            proof {
                // Whether delivered or freed, the margins survive: compute
                // both outcomes of the send.
                let sig = SignalM::Unlink { subject: h };
                if valid(ma, o) && ent(ma, o).alive && ent(ma, o).open {
                    assert(mb == spec_push_sig(ma, o, sig));
                    let eb = ent(mb, o);
                    assert forall|x: usize| #[trigger] held(mb, x) == held(ma, x) + count_h(
                        sig_handles(sig),
                        x,
                    ) by {
                        lemma_held_update(ma, o, Some(eb), x);
                        lemma_mb_push(ent(ma, o).mailbox, sig);
                        lemma_count_concat(mb_handles(ent(ma, o).mailbox), sig_handles(sig), x);
                    }
                } else {
                    assert(mb == spec_release(ma, sig_handles(sig)));
                    assert(sig_handles(sig) =~= seq![h]);
                    assert(seq![h].last() == h);
                    assert(seq![h].drop_last() =~= Seq::<usize>::empty());
                    assert(valid(ma, h));
                    assert(refs_of(ma, h) == refs_of(mi, h) + 1);
                    assert(refs_of(mi, h) >= held(mi, h) + 1);
                    lemma_held_split(mi, h);
                    assert(ent(ma, h).linked == ent(mi, h).linked);
                    assert(linkheld(ma, h) == linkheld(mi, h)) by {
                        lemma_linkheld_update(mi, h, Some(ent(ma, h)), h);
                    }
                    assert(refs_of(ma, h) > 1 + linkheld(ma, h));
                    assert(spec_release(spec_dec1(ma, h), Seq::<usize>::empty()) == spec_dec1(
                        ma,
                        h,
                    ));
                    assert(mb == spec_dec1(ma, h));
                    assert forall|x: usize| #[trigger] held(mb, x) == held(ma, x) by {
                        lemma_held_update(ma, h, Some(ent(mb, h)), x);
                    }
                }
                // Whichever way the send went, validity is untouched and
                // every margin beyond the store's holds is preserved.
                assert forall|x: usize| #[trigger] valid(mb, x) == valid(mi, x) by {}
                assert forall|x: usize| #[trigger] valid(mb, x) implies refs_of(mb, x) - held(
                    mb,
                    x,
                ) == refs_of(mi, x) - held(mi, x) by {
                    lemma_count_singleton(h, x);
                    assert(held(ma, x) == held(mi, x));
                    assert(refs_of(ma, x) == refs_of(mi, x) + if x == h {
                        1nat
                    } else {
                        0nat
                    });
                    if valid(ma, o) && ent(ma, o).alive && ent(ma, o).open {
                        assert(held(mb, x) == held(ma, x) + count_h(sig_handles(sig), x));
                        assert(refs_of(mb, x) == refs_of(ma, x));
                    } else {
                        assert(held(mb, x) == held(ma, x));
                        assert(refs_of(mb, x) == refs_of(ma, x) - if x == h {
                            1nat
                        } else {
                            0nat
                        });
                    }
                }
                // The decrement of the object may cascade; set up its
                // pending invariant and margins.
                assert forall|x: usize| valid(mb, x) implies refs_of(mb, x) >= held(mb, x)
                    + #[trigger] count_h(seq![o], x) by {
                    lemma_count_singleton(o, x);
                    lemma_count_first(p, x);
                    assert(refs_of(mi, x) >= held(mi, x) + count_h(p, x));
                    assert(count_h(p, x) == count_h(p.drop_first(), x) + if x == o {
                        1nat
                    } else {
                        0nat
                    });
                }
                lemma_count_singleton(o, o);
                assert(count_h(seq![o], o) == 1);
                assert(valid(mb, o));
                assert(refs_of(mb, o) > held(mb, o));
            }
            self.dec_ref(o);
            proof {
                let sig = SignalM::Unlink { subject: h };
                let mc = self@;
                assert(mc == spec_release(mb, seq![o]));
                assert(mc == spec_drain_step(mi, h, o));
                assert forall|x: usize| valid(mb, x) implies refs_of(mb, x) >= held(mb, x)
                    + #[trigger] count_h(seq![o], x) by {
                    lemma_count_singleton(o, x);
                    lemma_count_first(p, x);
                }
                assert forall|k: int| 0 <= k < seq![o].len() implies valid(
                    mb,
                    #[trigger] seq![o][k],
                ) by {}
                lemma_release(mb, seq![o]);
                // Tokens of the remaining tail keep their margins.
                assert forall|x: usize| valid(mb, x) && #[trigger] ext(mb, seq![o], x) >= 1
                    implies valid(mc, x) && refs_of(mc, x) - held(mc, x) >= ext(
                    mb,
                    seq![o],
                    x,
                ) by {}
                let p2 = p.drop_first();
                assert(p2 =~= taken@.skip(i + 1));
                assert forall|x: usize| valid(mc, x) implies refs_of(mc, x) >= held(mc, x)
                    + #[trigger] count_h(p2, x) by {
                    if count_h(p2, x) >= 1 {
                        lemma_count_singleton(o, x);
                        lemma_count_first(p, x);
                        assert(refs_of(mb, x) - held(mb, x) >= count_h(p, x));
                        assert(ext(mb, seq![o], x) >= count_h(p2, x));
                    }
                }
                assert forall|k: int| 0 <= k < p2.len() implies valid(mc, #[trigger] p2[k]) by {
                    let x = p2[k];
                    lemma_count_index(p2, k);
                    lemma_count_singleton(o, x);
                    lemma_count_first(p, x);
                    assert(refs_of(mb, x) - held(mb, x) >= count_h(p, x));
                    assert(ext(mb, seq![o], x) >= 1);
                }
                // The subject's own margin and room survive the cascade.
                assert(ext(mb, seq![o], h) >= count_h(p2, h) + 1) by {
                    lemma_count_singleton(o, h);
                    lemma_count_first(p, h);
                    assert(p.first() == o);
                    assert(valid(mb, h));
                    assert(refs_of(mb, h) - held(mb, h) == refs_of(mi, h) - held(mi, h));
                    assert(refs_of(mi, h) >= held(mi, h) + count_h(p, h) + 1);
                }
                assert(valid(mc, h));
                assert(refs_of(mc, h) >= held(mc, h) + count_h(p2, h) + 1);
                assert(!ent(mc, h).alive);
                assert(ent(mc, h).linked.len() == 0);
                assert(refs_of(mc, h) <= refs_of(mb, h));
                assert(refs_of(mb, h) <= refs_of(mi, h) + 1);
                // One drain step consumed.
                assert(p.first() == o);
                assert(spec_drain(mi, h, p) == spec_drain(mc, h, p2));
            }
            i = i + 1;
        }
        proof {
            assert(taken@.skip(n as int) =~= Seq::<usize>::empty());
            assert(spec_drain(self@, h, taken@.skip(n as int)) == self@);
            lemma_rinv_wf(self@, taken@.skip(n as int));
        }
    }

    /// Counts the references the link lists hold on `h`, over every slot.
    fn count_links(&self, h: usize) -> (r: usize)
        requires
            forall|x: usize| valid(self@, x) ==> refs_of(self@, x) >= #[trigger] held(self@, x),
            forall|x: usize| !valid(self@, x) ==> #[trigger] held(self@, x) == 0,
        ensures
            r == linkheld(self@, h),
    {
        proof {
            lemma_held_split(self@, h);
            if valid(self@, h) {
                assert(linkheld(self@, h) <= refs_of(self@, h));
            } else {
                assert(linkheld(self@, h) == 0);
            }
        }
        let n = self.slots.len();
        let mut c: usize = 0;
        let mut i: usize = 0;
        while i < n
            invariant
                n == self.slots.len(),
                n == self@.len(),
                i <= n,
                c == linkheld_upto(self@, h, i as int),
                linkheld(self@, h) <= usize::MAX,
                forall|x: usize| valid(self@, x) ==> refs_of(self@, x) >= #[trigger] held(
                    self@,
                    x,
                ),
                forall|x: usize| !valid(self@, x) ==> #[trigger] held(self@, x) == 0,
            decreases n - i,
        {
            let mut cnt: usize = 0;
            match &self.slots[i] {
                Some(e) => {
                    let m = e.linked.len();
                    let ghost l0 = e.linked@;
                    let mut k: usize = 0;
                    while k < m
                        invariant
                            m == l0.len(),
                            e.linked@ == l0,
                            k <= m,
                            cnt == count_h(l0.take(k as int), h),
                            cnt <= k,
                        decreases m - k,
                    {
                        let v = e.linked[k];
                        proof {
                            assert(l0.take(k as int + 1).drop_last() =~= l0.take(k as int));
                            assert(l0.take(k as int + 1).last() == l0[k as int]);
                        }
                        if v == h {
                            cnt = cnt + 1;
                        }
                        k = k + 1;
                    }
                    proof {
                        assert(l0.take(m as int) =~= l0);
                        assert(cnt == slot_links(self@[i as int], h));
                    }
                },
                None => {
                    proof {
                        assert(slot_links(self@[i as int], h) == 0);
                    }
                },
            }
            proof {
                assert(linkheld_upto(self@, h, i as int + 1) == linkheld_upto(self@, h, i as int)
                    + slot_links(self@[i as int], h));
                lemma_linkheld_prefix(self@, h, i as int + 1);
            }
            c = c + cnt;
            i = i + 1;
        }
        c
    }

    /// Drops every link on the departed handle `h` from every slot.
    fn purge_links(&mut self, h: usize)
        ensures
            final(self)@ == spec_purge(old(self)@, h),
    {
        let ghost m0 = self@;
        let n = self.slots.len();
        let mut i: usize = 0;
        while i < n
            invariant
                n == self.slots.len(),
                n == m0.len(),
                self@.len() == m0.len(),
                i <= n,
                forall|j: int| 0 <= j < i ==> self@[j] == purge_slot(m0[j], h),
                forall|j: int| i <= j < m0.len() ==> self@[j] == m0[j],
            decreases n - i,
        {
            let ghost mprev = self@;
            let mut slot: Option<Entry> = None;
            core::mem::swap(&mut slot, &mut self.slots[i]);
            let slot = match slot {
                Some(mut e) => {
                    let ghost l0 = e.linked@;
                    let mut kept: Vec<usize> = Vec::new();
                    let m = e.linked.len();
                    let mut k: usize = 0;
                    while k < m
                        invariant
                            m == l0.len(),
                            e.linked@ == l0,
                            k <= m,
                            kept@ == scrub(l0.take(k as int), h),
                        decreases m - k,
                    {
                        let v = e.linked[k];
                        proof {
                            assert(l0.take(k as int + 1).drop_last() =~= l0.take(k as int));
                            assert(l0.take(k as int + 1).last() == l0[k as int]);
                        }
                        if v != h {
                            kept.push(v);
                        }
                        k = k + 1;
                    }
                    proof {
                        assert(l0.take(m as int) =~= l0);
                    }
                    e.linked = kept;
                    Some(e)
                },
                None => None,
            };
            let mut slot = slot;
            core::mem::swap(&mut slot, &mut self.slots[i]);
            proof {
                assert(self@[i as int] == purge_slot(m0[i as int], h));
                assert forall|j: int| 0 <= j < m0.len() && j != i as int implies self@[j]
                    == mprev[j] by {}
                assert forall|j: int| 0 <= j < i as int + 1 implies self@[j] == purge_slot(
                    m0[j],
                    h,
                ) by {
                    if j < i as int {
                        assert(self@[j] == mprev[j]);
                    }
                }
            }
            i = i + 1;
        }
        proof {
            assert(self@ =~= spec_purge(m0, h));
        }
    }

    /// Pays off a list of owed reference releases, one per element,
    /// cascading through the removals they trigger: a release on a handle
    /// owned only by the link structure removes the slot and purges the
    /// handle from every link list.
    pub fn release_all(&mut self, pending: Vec<usize>)
        requires
            rinv(old(self)@, pending@),
        ensures
            final(self)@ == spec_release(old(self)@, pending@),
            store_wf(final(self)@),
    {
        let mut pending = pending;
        let ghost m0 = self@;
        let ghost p0 = pending@;
        while pending.len() > 0
            invariant
                rinv(self@, pending@),
                spec_release(m0, p0) == spec_release(self@, pending@),
            decreases sum_refs(self@),
        {
            let ghost m_pre = self@;
            let ghost p_pre = pending@;
            let h = pending.pop().unwrap();
            proof {
                assert(h == p_pre.last());
                assert(pending@ =~= p_pre.drop_last());
                assert(valid(m_pre, p_pre[p_pre.len() - 1]));
                assert(refs_of(m_pre, h) >= 1);
                lemma_rinv_wf(m_pre, p_pre);
            }
            let inl = self.count_links(h);
            let refs = match &self.slots[h] {
                Some(e) => e.refs,
                None => 0,
            };
            proof {
                assert(refs == refs_of(m_pre, h));
                lemma_held_split(m_pre, h);
                assert(count_h(p_pre, h) >= 1) by {
                    lemma_count_index(p_pre, p_pre.len() - 1);
                }
                assert(refs_of(m_pre, h) >= linkheld(m_pre, h) + 1);
            }
            if refs - 1 == inl {
                // Only the link lists still hold this handle: remove it,
                // purge it, and release what it held in turn.
                let mut slot: Option<Entry> = None;
                core::mem::swap(&mut slot, &mut self.slots[h]);
                proof {
                    assert(self@ =~= spec_remove(m_pre, h));
                }
                let entry = slot.unwrap();
                let ghost em = entry@;
                proof {
                    assert(em == ent(m_pre, h));
                }
                self.purge_links(h);
                proof {
                    assert(self@ == spec_purge(spec_remove(m_pre, h), h));
                }
                let lv = entry.linked;
                let llen = lv.len();
                let ghost pd = p_pre.drop_last();
                let mut k: usize = 0;
                while k < llen
                    invariant
                        llen == lv@.len(),
                        k <= llen,
                        pending@ == pd + scrub(lv@.take(k as int), h),
                    decreases llen - k,
                {
                    let v = lv[k];
                    proof {
                        assert(lv@.take(k as int + 1).drop_last() =~= lv@.take(k as int));
                        assert(lv@.take(k as int + 1).last() == lv@[k as int]);
                    }
                    if v != h {
                        pending.push(v);
                        proof {
                            assert(pending@ =~= pd + scrub(lv@.take(k as int + 1), h));
                        }
                    }
                    k = k + 1;
                }
                let mut mbv = mailbox_handles_vec(&entry.mailbox);
                pending.append(&mut mbv);
                proof {
                    assert(lv@.take(llen as int) =~= lv@);
                    assert(pending@ =~= pd + scrub(em.linked, h) + mb_handles(em.mailbox));
                    lemma_step_remove(m_pre, p_pre);
                }
            } else {
                proof {
                    assert(refs_of(m_pre, h) > 1 + linkheld(m_pre, h));
                }
                match &mut self.slots[h] {
                    Some(e) => {
                        e.refs = e.refs - 1;
                    },
                    None => {},
                }
                proof {
                    assert(ent(self@, h).mailbox =~= ent(m_pre, h).mailbox);
                    assert(self@ =~= spec_dec1(m_pre, h));
                    lemma_step_dec(m_pre, p_pre);
                }
            }
        }
        proof {
            assert(pending@ =~= Seq::<usize>::empty());
            assert(spec_release(self@, pending@) == self@);
            assert forall|x: usize| valid(self@, x) implies refs_of(self@, x) >= #[trigger] held(
                self@,
                x,
            ) by {
                assert(refs_of(self@, x) >= held(self@, x) + count_h(pending@, x));
            }
        }
    }
}

impl Capability {
    /// Duplicates this capability, taking one more reference on its target.
    pub fn clone(&self, store: &mut ProcessStore) -> (r: Capability)
        requires
            store_wf(old(store)@),
            valid(old(store)@, self.handle),
            refs_of(old(store)@, self.handle) < usize::MAX,
        ensures
            r == *self,
            final(store)@ == spec_inc(old(store)@, self.handle),
            store_wf(final(store)@),
    {
        store.inc_ref(self.handle);
        *self
    }

    /// Releases the reference this capability owns.
    pub fn free(self, store: &mut ProcessStore)
        requires
            store_wf(old(store)@),
            valid(old(store)@, self.handle),
            refs_of(old(store)@, self.handle) > held(old(store)@, self.handle),
        ensures
            final(store)@ == spec_dec_ref(old(store)@, self.handle),
            store_wf(final(store)@),
    {
        store.dec_ref(self.handle);
    }

    /// Sends a message through this capability. Without the send permission
    /// the message is rejected and freed; with it, the message goes through
    /// the store, which delivers or frees it by the target's state.
    pub fn send(&self, store: &mut ProcessStore, message: Message)
        requires
            store_wf(old(store)@),
            valid(old(store)@, self.handle),
            owns_sig(old(store)@, SignalM::Message(message@)),
        ensures
            self.flags.0 & FLAG_SEND == FLAG_SEND ==> final(store)@ == spec_send_sig(
                old(store)@,
                self.handle,
                SignalM::Message(message@),
            ),
            self.flags.0 & FLAG_SEND != FLAG_SEND ==> final(store)@ == spec_free_sig(
                old(store)@,
                SignalM::Message(message@),
            ),
            store_wf(final(store)@),
    {
        if self.flags.has(FLAG_SEND) {
            store.send(self.handle, message);
        } else {
            Signal::Message(message).free(store);
        }
    }

    /// Kills through this capability. Without the kill permission nothing
    /// happens.
    pub fn kill(&self, store: &mut ProcessStore)
        requires
            store_wf(old(store)@),
            valid(old(store)@, self.handle),
            self.flags.0 & FLAG_KILL == FLAG_KILL ==> refs_of(old(store)@, self.handle) > held(
                old(store)@,
                self.handle,
            ) && refs_of(old(store)@, self.handle) + ent(old(store)@, self.handle).linked.len()
                < usize::MAX,
        ensures
            self.flags.0 & FLAG_KILL == FLAG_KILL ==> final(store)@ == spec_kill(
                old(store)@,
                self.handle,
            ),
            self.flags.0 & FLAG_KILL != FLAG_KILL ==> final(store)@ == old(store)@,
            store_wf(final(store)@),
    {
        if self.flags.has(FLAG_KILL) {
            store.kill(self.handle);
        }
    }
}

impl Signal {
    /// Duplicates this signal, taking one fresh reference per handle it
    /// carries.
    pub fn clone(&self, store: &mut ProcessStore) -> (r: Signal)
        requires
            store_wf(old(store)@),
            sig_targets_ok(old(store)@, self@),
            sig_room(old(store)@, self@),
        ensures
            r@ == self@,
            final(store)@ == spec_inc_many(old(store)@, sig_handles(self@)),
            store_wf(final(store)@),
            owns_sig(final(store)@, self@),
    {
        let ghost m0 = store@;
        match self {
            Signal::Kill => {
                proof {
                    assert(sig_handles(self@).len() == 0);
                    assert(spec_inc_many(m0, sig_handles(self@)) == m0);
                    assert forall|x: usize|
                        valid(m0, x) implies refs_of(m0, x) >= held(m0, x) + #[trigger] count_h(
                        sig_handles(self@),
                        x,
                    ) by {}
                }
                Signal::Kill
            },
            Signal::Unlink { subject } => {
                let s = *subject;
                proof {
                    assert(sig_handles(self@) =~= seq![s]);
                    assert(sig_handles(self@)[0] == s);
                    assert(valid(m0, s));
                    lemma_count_singleton(s, s);
                    assert(refs_of(m0, s) + count_h(sig_handles(self@), s) <= usize::MAX);
                    assert(refs_of(m0, s) < usize::MAX);
                }
                store.inc_ref(s);
                proof {
                    let m1 = store@;
                    assert(seq![s].first() == s);
                    assert(seq![s].drop_first() =~= Seq::<usize>::empty());
                    assert(spec_inc_many(m0, seq![s]) == spec_inc_many(
                        spec_inc(m0, s),
                        seq![s].drop_first(),
                    ));
                    assert(spec_inc_many(spec_inc(m0, s), seq![s].drop_first()) == spec_inc(
                        m0,
                        s,
                    ));
                    assert forall|x: usize| #[trigger] held(m1, x) == held(m0, x) by {
                        lemma_held_update(m0, s, Some(ent(m1, s)), x);
                    }
                    assert forall|x: usize|
                        valid(m1, x) implies refs_of(m1, x) >= held(m1, x) + #[trigger] count_h(
                        sig_handles(self@),
                        x,
                    ) by {
                        lemma_count_singleton(s, x);
                        assert(valid(m0, x));
                    }
                }
                Signal::Unlink { subject: s }
            },
            Signal::Message(m) => Signal::Message(m.clone(store)),
        }
    }

    /// Frees this signal, releasing every reference it carries.
    pub fn free(self, store: &mut ProcessStore)
        requires
            store_wf(old(store)@),
            owns_sig(old(store)@, self@),
        ensures
            final(store)@ == spec_free_sig(old(store)@, self@),
            store_wf(final(store)@),
    {
        let hv = sig_handles_vec(&self);
        proof {
            assert forall|k: int| 0 <= k < hv@.len() implies valid(
                store@,
                #[trigger] hv@[k],
            ) by {}
        }
        store.release_all(hv);
    }
}

impl Message {
    /// Duplicates this message, cloning every carried capability.
    pub fn clone(&self, store: &mut ProcessStore) -> (r: Message)
        requires
            store_wf(old(store)@),
            sig_targets_ok(old(store)@, SignalM::Message(self@)),
            sig_room(old(store)@, SignalM::Message(self@)),
        ensures
            r@ == self@,
            final(store)@ == spec_inc_many(
                old(store)@,
                sig_handles(SignalM::Message(self@)),
            ),
            store_wf(final(store)@),
            owns_sig(final(store)@, SignalM::Message(self@)),
    {
        let ghost m0 = store@;
        let ghost hs = sig_handles(SignalM::Message(self@));
        let data = copy_bytes(&self.data);
        let mut caps: Vec<Capability> = Vec::new();
        let n = self.caps.len();
        let mut k: usize = 0;
        proof {
            assert(hs.take(0) =~= Seq::<usize>::empty());
            assert(caps@ =~= self.caps@.take(0));
            assert(spec_inc_many(m0, hs.take(0)) == m0);
        }
        while k < n
            invariant
                n == self.caps.len(),
                k <= n,
                hs == sig_handles(SignalM::Message(self@)),
                hs.len() == n,
                store_wf(m0),
                sig_targets_ok(m0, SignalM::Message(self@)),
                sig_room(m0, SignalM::Message(self@)),
                caps@ == self.caps@.take(k as int),
                store@ == spec_inc_many(m0, hs.take(k as int)),
                store_wf(store@),
            decreases n - k,
        {
            let ghost mc = store@;
            let ghost k0 = k as int;
            let c = self.caps[k];
            proof {
                assert(hs[k0] == c.handle);
                assert(valid(m0, c.handle));
                assert forall|j: int| 0 <= j < hs.take(k0).len() implies valid(
                    m0,
                    #[trigger] hs.take(k0)[j],
                ) by {
                    assert(hs.take(k0)[j] == hs[j]);
                }
                lemma_inc_many_props(m0, hs.take(k0));
                assert(valid(mc, c.handle));
                assert(hs =~= hs.take(k0) + hs.skip(k0));
                lemma_count_concat(hs.take(k0), hs.skip(k0), c.handle);
                assert(hs.skip(k0)[0] == c.handle);
                lemma_count_index(hs.skip(k0), 0);
                assert(refs_of(m0, c.handle) + count_h(hs, c.handle) <= usize::MAX);
                assert(refs_of(mc, c.handle) == refs_of(m0, c.handle) + count_h(
                    hs.take(k0),
                    c.handle,
                ));
                assert(refs_of(mc, c.handle) < usize::MAX);
            }
            store.inc_ref(c.handle);
            caps.push(c);
            k = k + 1;
            proof {
                assert(caps@ =~= self.caps@.take(k as int));
                assert(hs.take(k as int) =~= hs.take(k0).push(c.handle));
                lemma_inc_many_push(m0, hs.take(k0), c.handle);
                assert(store@ == spec_inc_many(m0, hs.take(k as int)));
            }
        }
        proof {
            assert(hs.take(n as int) =~= hs);
            assert(caps@ =~= self.caps@);
            assert forall|j: int| 0 <= j < hs.len() implies valid(m0, #[trigger] hs[j]) by {}
            lemma_inc_many_props(m0, hs);
            assert forall|x: usize|
                valid(store@, x) implies refs_of(store@, x) >= held(store@, x)
                    + #[trigger] count_h(hs, x) by {
                assert(valid(m0, x));
                assert(ent(store@, x) == (EntryM {
                    refs: (refs_of(m0, x) + count_h(hs, x)) as nat,
                    ..ent(m0, x)
                }));
                assert(held(store@, x) == held(m0, x));
            }
        }
        Message { data, caps }
    }

    /// Frees this message, releasing the reference of every carried
    /// capability.
    pub fn free(self, store: &mut ProcessStore)
        requires
            store_wf(old(store)@),
            owns_sig(old(store)@, SignalM::Message(self@)),
        ensures
            final(store)@ == spec_free_sig(old(store)@, SignalM::Message(self@)),
            store_wf(final(store)@),
    {
        Signal::Message(self).free(store);
    }
}

/// A byte-for-byte copy of a payload.
fn copy_bytes(v: &Vec<u8>) -> (r: Vec<u8>)
    ensures
        r@ == v@,
{
    let mut r: Vec<u8> = Vec::new();
    let n = v.len();
    let mut i: usize = 0;
    while i < n
        invariant
            n == v.len(),
            i <= n,
            r@ == v@.take(i as int),
        decreases n - i,
    {
        r.push(v[i]);
        i = i + 1;
        proof {
            assert(r@ =~= v@.take(i as int));
        }
    }
    proof {
        assert(v@.take(n as int) =~= v@);
    }
    r
}

/// The handles a signal owns references on, as a vector, in order.
fn sig_handles_vec(sig: &Signal) -> (v: Vec<usize>)
    ensures
        v@ == sig_handles(sig@),
{
    let mut v: Vec<usize> = Vec::new();
    match sig {
        Signal::Kill => {
            proof {
                assert(v@ =~= sig_handles(sig@));
            }
        },
        Signal::Unlink { subject } => {
            v.push(*subject);
            proof {
                assert(v@ =~= sig_handles(sig@));
            }
        },
        Signal::Message(m) => {
            let n = m.caps.len();
            let mut k: usize = 0;
            while k < n
                invariant
                    n == m.caps.len(),
                    k <= n,
                    v@ == m.caps@.take(k as int).map_values(|c: Capability| c.handle),
                decreases n - k,
            {
                v.push(m.caps[k].handle);
                k = k + 1;
                proof {
                    assert(m.caps@.take(k as int) =~= m.caps@.take(k - 1).push(m.caps@[k - 1]));
                    assert(m.caps@.take(k as int).map_values(|c: Capability| c.handle) =~= m.caps@
                        .take(k - 1)
                        .map_values(|c: Capability| c.handle)
                        .push(m.caps@[k - 1].handle));
                }
            }
            proof {
                assert(m.caps@.take(n as int) =~= m.caps@);
            }
        },
    }
    v
}

/// Every handle the queued signals of a mailbox own references on.
fn mailbox_handles_vec(mb: &Vec<Signal>) -> (v: Vec<usize>)
    ensures
        v@ == mb_handles(mb.deep_view()),
{
    let mut v: Vec<usize> = Vec::new();
    let n = mb.len();
    let mut j: usize = 0;
    proof {
        assert(mb.deep_view().take(0) =~= Seq::<SignalM>::empty());
    }
    while j < n
        invariant
            n == mb.len(),
            j <= n,
            v@ == mb_handles(mb.deep_view().take(j as int)),
        decreases n - j,
    {
        let mut sv = sig_handles_vec(&mb[j]);
        v.append(&mut sv);
        j = j + 1;
        proof {
            let dv = mb.deep_view();
            assert(dv[j - 1] == mb@[j - 1]@);
            assert(dv.take(j as int) =~= dv.take(j - 1).push(dv[j - 1]));
            lemma_mb_push(dv.take(j - 1), dv[j - 1]);
        }
    }
    proof {
        assert(mb.deep_view().take(n as int) =~= mb.deep_view());
    }
    v
}

/// Whether a vector of handles holds `x`.
fn vec_contains(v: &Vec<usize>, x: usize) -> (r: bool)
    ensures
        r == v@.contains(x),
{
    let n = v.len();
    let mut i: usize = 0;
    while i < n
        invariant
            n == v.len(),
            i <= n,
            forall|j: int| 0 <= j < i ==> v@[j] != x,
        decreases n - i,
    {
        if v[i] == x {
            return true;
        }
        i = i + 1;
    }
    false
}

} // verus!
