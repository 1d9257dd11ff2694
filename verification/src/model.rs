//! The mathematical model of the process store.
//!
//! A store is a sequence of slots, each vacant or holding an entry with an
//! alive flag, a reference count, a link list and a mailbox. The functions
//! here define what every store operation does to that state, and the lemmas
//! establish the conservation invariant the store maintains: an entry's
//! reference count is never below the number of references the store itself
//! holds on it through link lists and queued signals, and a slot is removed
//! at the release that leaves only link-held references on it.

use vstd::prelude::*;

use crate::signal::{sig_handles, SignalM};

verus! {

/// What kind of process an entry is.
#[derive(Clone, Copy, Debug, PartialEq, Eq, Structural)]
pub enum EntryKind {
    /// A process local to this peer.
    Local,
    /// A stand-in for a process owned by a remote peer: signals delivered to
    /// it are forwarded over the connection that made it, under the given
    /// identifier in the remote peer's namespace.
    Proxy { remote_id: u32 },
}

/// The mathematical value of one process entry.
pub ghost struct EntryM {
    pub alive: bool,
    pub open: bool,
    pub kind: EntryKind,
    pub refs: nat,
    pub linked: Seq<usize>,
    pub mailbox: Seq<SignalM>,
}

/// The mathematical value of a process store: one slot per handle.
pub type StoreM = Seq<Option<EntryM>>;

/// True when `h` is the handle of an occupied slot.
pub open spec fn valid(m: StoreM, h: usize) -> bool {
    h < m.len() && m[h as int] is Some
}

/// The entry at an occupied slot.
pub open spec fn ent(m: StoreM, h: usize) -> EntryM {
    m[h as int].unwrap()
}

/// The reference count of the entry at `h`.
pub open spec fn refs_of(m: StoreM, h: usize) -> nat {
    ent(m, h).refs
}

/// How many times `x` occurs in a sequence of handles.
pub open spec fn count_h(s: Seq<usize>, x: usize) -> nat
    decreases s.len(),
{
    if s.len() == 0 {
        0
    } else {
        count_h(s.drop_last(), x) + if s.last() == x {
            1nat
        } else {
            0nat
        }
    }
}

/// The handles that the signals of a mailbox own references on, in order.
pub open spec fn mb_handles(mb: Seq<SignalM>) -> Seq<usize>
    decreases mb.len(),
{
    if mb.len() == 0 {
        Seq::empty()
    } else {
        mb_handles(mb.drop_last()) + sig_handles(mb.last())
    }
}

/// How many references one entry holds on `x`: its link list plus the
/// signals queued in its mailbox.
pub open spec fn entry_holds(e: EntryM, x: usize) -> nat {
    count_h(e.linked, x) + count_h(mb_handles(e.mailbox), x)
}

/// The holds of one slot, zero for a vacant one.
pub open spec fn slot_holds(s: Option<EntryM>, x: usize) -> nat {
    match s {
        Some(e) => entry_holds(e, x),
        None => 0,
    }
}

/// The reference count of one slot, zero for a vacant one.
pub open spec fn slot_refs(s: Option<EntryM>) -> nat {
    match s {
        Some(e) => e.refs,
        None => 0,
    }
}

/// The references held on `x` by the first `n` slots.
pub open spec fn held_upto(m: StoreM, x: usize, n: int) -> nat
    decreases n,
{
    if n <= 0 {
        0
    } else {
        held_upto(m, x, n - 1) + slot_holds(m[n - 1], x)
    }
}

/// The references the store itself holds on `x`, over every slot.
pub open spec fn held(m: StoreM, x: usize) -> nat {
    held_upto(m, x, m.len() as int)
}

/// The sum of the reference counts of the first `n` slots.
pub open spec fn sum_upto(m: StoreM, n: int) -> nat
    decreases n,
{
    if n <= 0 {
        0
    } else {
        sum_upto(m, n - 1) + slot_refs(m[n - 1])
    }
}

/// The sum of every reference count in the store.
pub open spec fn sum_refs(m: StoreM) -> nat {
    sum_upto(m, m.len() as int)
}

/// A handle sequence with every occurrence of `x` removed.
pub open spec fn scrub(s: Seq<usize>, x: usize) -> Seq<usize>
    decreases s.len(),
{
    if s.len() == 0 {
        s
    } else if s.last() == x {
        scrub(s.drop_last(), x)
    } else {
        scrub(s.drop_last(), x).push(s.last())
    }
}

/// Scrubbing removes exactly the occurrences of the scrubbed handle, and
/// never lengthens the sequence.
pub proof fn lemma_scrub_count(s: Seq<usize>, x: usize, y: usize)
    ensures
        count_h(scrub(s, x), y) == if y == x {
            0nat
        } else {
            count_h(s, y)
        },
        scrub(s, x).len() <= s.len(),
    decreases s.len(),
{
    if s.len() > 0 {
        lemma_scrub_count(s.drop_last(), x, y);
        if s.last() != x {
            assert(scrub(s, x).drop_last() =~= scrub(s.drop_last(), x));
            assert(scrub(s, x).last() == s.last());
        }
    }
}

/// The link-list holds of one slot on `x`.
pub open spec fn slot_links(s: Option<EntryM>, x: usize) -> nat {
    match s {
        Some(e) => count_h(e.linked, x),
        None => 0,
    }
}

/// The mailbox holds of one slot on `x`.
pub open spec fn slot_mb(s: Option<EntryM>, x: usize) -> nat {
    match s {
        Some(e) => count_h(mb_handles(e.mailbox), x),
        None => 0,
    }
}

/// The link-list references held on `x` by the first `n` slots.
pub open spec fn linkheld_upto(m: StoreM, x: usize, n: int) -> nat
    decreases n,
{
    if n <= 0 {
        0
    } else {
        linkheld_upto(m, x, n - 1) + slot_links(m[n - 1], x)
    }
}

/// The references the link lists alone hold on `x`, over every slot.
pub open spec fn linkheld(m: StoreM, x: usize) -> nat {
    linkheld_upto(m, x, m.len() as int)
}

/// The mailbox references held on `x` by the first `n` slots.
pub open spec fn mbheld_upto(m: StoreM, x: usize, n: int) -> nat
    decreases n,
{
    if n <= 0 {
        0
    } else {
        mbheld_upto(m, x, n - 1) + slot_mb(m[n - 1], x)
    }
}

/// The references queued signals alone hold on `x`, over every slot.
pub open spec fn mbheld(m: StoreM, x: usize) -> nat {
    mbheld_upto(m, x, m.len() as int)
}

proof fn lemma_held_split_upto(m: StoreM, x: usize, n: int)
    ensures
        held_upto(m, x, n) == linkheld_upto(m, x, n) + mbheld_upto(m, x, n),
    decreases n,
{
    if n > 0 {
        lemma_held_split_upto(m, x, n - 1);
    }
}

/// The store's holds on `x` split into link-list and mailbox holds.
pub proof fn lemma_held_split(m: StoreM, x: usize)
    ensures
        held(m, x) == linkheld(m, x) + mbheld(m, x),
{
    lemma_held_split_upto(m, x, m.len() as int);
}

proof fn lemma_linkheld_upto_update(m: StoreM, h: usize, s: Option<EntryM>, x: usize, n: int)
    requires
        (h as int) < m.len(),
        n <= m.len(),
    ensures
        linkheld_upto(m.update(h as int, s), x, n) == if (h as int) < n {
            linkheld_upto(m, x, n) - slot_links(m[h as int], x) + slot_links(s, x)
        } else {
            linkheld_upto(m, x, n) as int
        },
    decreases n,
{
    if n > 0 {
        lemma_linkheld_upto_update(m, h, s, x, n - 1);
    }
}

/// How the link-list holds on `x` change when one slot changes.
pub proof fn lemma_linkheld_update(m: StoreM, h: usize, s: Option<EntryM>, x: usize)
    requires
        (h as int) < m.len(),
    ensures
        linkheld(m.update(h as int, s), x) == linkheld(m, x) - slot_links(m[h as int], x)
            + slot_links(s, x),
{
    lemma_linkheld_upto_update(m, h, s, x, m.len() as int);
}

proof fn lemma_mbheld_upto_update(m: StoreM, h: usize, s: Option<EntryM>, x: usize, n: int)
    requires
        (h as int) < m.len(),
        n <= m.len(),
    ensures
        mbheld_upto(m.update(h as int, s), x, n) == if (h as int) < n {
            mbheld_upto(m, x, n) - slot_mb(m[h as int], x) + slot_mb(s, x)
        } else {
            mbheld_upto(m, x, n) as int
        },
    decreases n,
{
    if n > 0 {
        lemma_mbheld_upto_update(m, h, s, x, n - 1);
    }
}

/// How the mailbox holds on `x` change when one slot changes.
pub proof fn lemma_mbheld_update(m: StoreM, h: usize, s: Option<EntryM>, x: usize)
    requires
        (h as int) < m.len(),
    ensures
        mbheld(m.update(h as int, s), x) == mbheld(m, x) - slot_mb(m[h as int], x) + slot_mb(
            s,
            x,
        ),
{
    lemma_mbheld_upto_update(m, h, s, x, m.len() as int);
}

proof fn lemma_mbheld_upto_lower(m: StoreM, i: usize, x: usize, n: int)
    requires
        (i as int) < n <= m.len(),
    ensures
        mbheld_upto(m, x, n) >= slot_mb(m[i as int], x),
    decreases n,
{
    if (i as int) < n - 1 {
        lemma_mbheld_upto_lower(m, i, x, n - 1);
    }
}

/// The mailbox holds on `x` are at least what any single slot's mailbox
/// holds on it.
pub proof fn lemma_mbheld_lower(m: StoreM, i: usize, x: usize)
    requires
        (i as int) < m.len(),
    ensures
        mbheld(m, x) >= slot_mb(m[i as int], x),
{
    lemma_mbheld_upto_lower(m, i, x, m.len() as int);
}

proof fn lemma_linkheld_upto_mono(m: StoreM, x: usize, n: int, n2: int)
    requires
        0 <= n <= n2,
    ensures
        linkheld_upto(m, x, n) <= linkheld_upto(m, x, n2),
    decreases n2 - n,
{
    if n < n2 {
        lemma_linkheld_upto_mono(m, x, n, n2 - 1);
    }
}

/// A prefix of the slots holds at most what the whole store holds through
/// link lists.
pub proof fn lemma_linkheld_prefix(m: StoreM, x: usize, n: int)
    requires
        0 <= n <= m.len(),
    ensures
        linkheld_upto(m, x, n) <= linkheld(m, x),
{
    lemma_linkheld_upto_mono(m, x, n, m.len() as int);
}

/// One slot with every link on `h` dropped.
pub open spec fn purge_slot(s: Option<EntryM>, h: usize) -> Option<EntryM> {
    match s {
        Some(e) => Some(EntryM { linked: scrub(e.linked, h), ..e }),
        None => None,
    }
}

/// Every link list purged of the departed handle `h`.
pub open spec fn spec_purge(m: StoreM, h: usize) -> StoreM {
    Seq::new(m.len(), |i: int| purge_slot(m[i], h))
}

proof fn lemma_purge_upto(m: StoreM, h: usize, x: usize, n: int)
    requires
        n <= m.len(),
    ensures
        linkheld_upto(spec_purge(m, h), x, n) == if x == h {
            0
        } else {
            linkheld_upto(m, x, n) as int
        },
        mbheld_upto(spec_purge(m, h), x, n) == mbheld_upto(m, x, n),
        held_upto(spec_purge(m, h), x, n) == if x == h {
            mbheld_upto(m, x, n) as int
        } else {
            held_upto(m, x, n) as int
        },
        sum_upto(spec_purge(m, h), n) == sum_upto(m, n),
    decreases n,
{
    if n > 0 {
        lemma_purge_upto(m, h, x, n - 1);
        match m[n - 1] {
            Some(e) => {
                lemma_scrub_count(e.linked, h, x);
            },
            None => {},
        }
        lemma_held_split_upto(m, x, n);
        lemma_held_split_upto(spec_purge(m, h), x, n);
    }
}

/// What the purge changes: link lists lose the departed handle and keep
/// everything else; counts, mailboxes and the other fields stay.
pub proof fn lemma_purge_props(m: StoreM, h: usize)
    ensures
        spec_purge(m, h).len() == m.len(),
        forall|x: usize| #[trigger] valid(spec_purge(m, h), x) == valid(m, x),
        forall|x: usize|
            valid(m, x) ==> #[trigger] ent(spec_purge(m, h), x) == (EntryM {
                linked: scrub(ent(m, x).linked, h),
                ..ent(m, x)
            }),
        forall|x: usize| x != h ==> #[trigger] held(spec_purge(m, h), x) == held(m, x),
        held(spec_purge(m, h), h) == mbheld(m, h),
        forall|x: usize| x != h ==> #[trigger] linkheld(spec_purge(m, h), x) == linkheld(m, x),
        linkheld(spec_purge(m, h), h) == 0,
        forall|x: usize| #[trigger] mbheld(spec_purge(m, h), x) == mbheld(m, x),
        sum_refs(spec_purge(m, h)) == sum_refs(m),
{
    assert forall|x: usize| x != h implies #[trigger] held(spec_purge(m, h), x) == held(m, x) by {
        lemma_purge_upto(m, h, x, m.len() as int);
    }
    assert forall|x: usize| x != h implies #[trigger] linkheld(spec_purge(m, h), x) == linkheld(
        m,
        x,
    ) by {
        lemma_purge_upto(m, h, x, m.len() as int);
    }
    assert forall|x: usize| #[trigger] mbheld(spec_purge(m, h), x) == mbheld(m, x) by {
        lemma_purge_upto(m, h, x, m.len() as int);
    }
    lemma_purge_upto(m, h, h, m.len() as int);
    lemma_purge_upto(m, h, 0, m.len() as int);
}

/// A handle sequence without repetitions.
pub open spec fn nodup(s: Seq<usize>) -> bool {
    forall|x: usize| #[trigger] count_h(s, x) <= 1
}

/// Local well-formedness of one entry: it is referenced at least once, its
/// link list has no duplicates, and a dead entry's link list has been
/// drained.
pub open spec fn entry_ok(e: EntryM) -> bool {
    &&& e.refs >= 1
    &&& nodup(e.linked)
    &&& !e.alive ==> e.linked.len() == 0
}

/// The store invariant together with a sequence of pending releases: each
/// entry is well formed and referenced at least as often as the store and
/// the pending releases account for, nothing refers to a vacant slot, and
/// every pending release names an occupied slot.
pub open spec fn rinv(m: StoreM, p: Seq<usize>) -> bool {
    &&& forall|h: usize| #[trigger] valid(m, h) ==> entry_ok(ent(m, h))
    &&& forall|h: usize|
        valid(m, h) ==> refs_of(m, h) >= held(m, h) + #[trigger] count_h(p, h)
    &&& forall|h: usize| !valid(m, h) ==> #[trigger] held(m, h) == 0
    &&& forall|k: int| 0 <= k < p.len() ==> valid(m, #[trigger] p[k])
}

/// The store invariant: every entry is well formed and holds at least as
/// many references as the store owes on it, and nothing refers to a vacant
/// slot.
pub open spec fn store_wf(m: StoreM) -> bool {
    &&& forall|h: usize| #[trigger] valid(m, h) ==> entry_ok(ent(m, h))
    &&& forall|h: usize| valid(m, h) ==> refs_of(m, h) >= #[trigger] held(m, h)
    &&& forall|h: usize| !valid(m, h) ==> #[trigger] held(m, h) == 0
}

/// A signal about to enter the store is well accounted: each handle it
/// names is occupied, and the references it owns are over and above what
/// the store already holds.
pub open spec fn owns_sig(m: StoreM, sig: SignalM) -> bool {
    &&& forall|k: int|
        0 <= k < sig_handles(sig).len() ==> valid(m, #[trigger] sig_handles(sig)[k])
    &&& forall|x: usize|
        valid(m, x) ==> refs_of(m, x) >= held(m, x) + #[trigger] count_h(sig_handles(sig), x)
}

/// The margin of `x`: how many references on it remain once the store's own
/// holds and the pending releases are paid.
pub open spec fn ext(m: StoreM, p: Seq<usize>, x: usize) -> int {
    refs_of(m, x) - held(m, x) - count_h(p, x)
}

// ---------------------------------------------------------------------------
// Transitions
// ---------------------------------------------------------------------------

/// Replaces the entry at `h`.
pub open spec fn upd(m: StoreM, h: usize, e: EntryM) -> StoreM {
    m.update(h as int, Some(e))
}

/// One more reference on `h`.
pub open spec fn spec_inc(m: StoreM, h: usize) -> StoreM {
    upd(m, h, EntryM { refs: ent(m, h).refs + 1, ..ent(m, h) })
}

/// One fewer reference on `h`, without removal.
pub open spec fn spec_dec1(m: StoreM, h: usize) -> StoreM {
    upd(m, h, EntryM { refs: (ent(m, h).refs - 1) as nat, ..ent(m, h) })
}

/// The slot at `h` vacated.
pub open spec fn spec_remove(m: StoreM, h: usize) -> StoreM {
    m.update(h as int, None)
}

/// A signal appended to the mailbox of `h`.
pub open spec fn spec_push_sig(m: StoreM, h: usize, sig: SignalM) -> StoreM {
    upd(m, h, EntryM { mailbox: ent(m, h).mailbox.push(sig), ..ent(m, h) })
}

/// The entry at `h` marked dead.
pub open spec fn spec_set_dead(m: StoreM, h: usize) -> StoreM {
    upd(m, h, EntryM { alive: false, ..ent(m, h) })
}

/// The link list of `h` drained.
pub open spec fn spec_clear_linked(m: StoreM, h: usize) -> StoreM {
    upd(m, h, EntryM { linked: Seq::empty(), ..ent(m, h) })
}

/// A handle appended to the link list of `h`.
pub open spec fn spec_push_linked(m: StoreM, h: usize, x: usize) -> StoreM {
    upd(m, h, EntryM { linked: ent(m, h).linked.push(x), ..ent(m, h) })
}

/// Releases every reference named in `p`, from the last to the first. A
/// release decrements its handle. A handle whose count falls to the number
/// of references the link lists still hold on it has no owner left outside
/// the link structure: its slot is removed, the departed handle is purged
/// from every surviving link list, and the references its own link list and
/// mailbox held are released in turn.
pub open spec fn spec_release(m: StoreM, p: Seq<usize>) -> StoreM
    decreases sum_refs(m), p.len() via check_spec_release
{
    if p.len() == 0 {
        m
    } else {
        let h = p.last();
        let rest = p.drop_last();
        if !valid(m, h) || ent(m, h).refs == 0 {
            spec_release(m, rest)
        } else if ent(m, h).refs > 1 + linkheld(m, h) {
            spec_release(spec_dec1(m, h), rest)
        } else {
            spec_release(
                spec_purge(spec_remove(m, h), h),
                rest + scrub(ent(m, h).linked, h) + mb_handles(ent(m, h).mailbox),
            )
        }
    }
}

#[via_fn]
proof fn check_spec_release(m: StoreM, p: Seq<usize>) {
    if p.len() > 0 {
        let h = p.last();
        if valid(m, h) && ent(m, h).refs > 0 {
            if ent(m, h).refs > 1 + linkheld(m, h) {
                lemma_sum_update(m, h, Some(EntryM { refs: (ent(m, h).refs - 1) as nat, ..ent(m, h) }));
            } else {
                lemma_sum_update(m, h, None);
                lemma_purge_props(spec_remove(m, h), h);
            }
        }
    }
}

/// A single reference on `h` released.
pub open spec fn spec_dec_ref(m: StoreM, h: usize) -> StoreM {
    spec_release(m, seq![h])
}

/// The references owned by a signal released: what freeing the signal does.
pub open spec fn spec_free_sig(m: StoreM, sig: SignalM) -> StoreM {
    spec_release(m, sig_handles(sig))
}

/// A signal sent through the store: delivered to the mailbox of a live,
/// receiving entry, freed in every other case.
pub open spec fn spec_send_sig(m: StoreM, t: usize, sig: SignalM) -> StoreM {
    if valid(m, t) && ent(m, t).alive && ent(m, t).open {
        spec_push_sig(m, t, sig)
    } else {
        spec_free_sig(m, sig)
    }
}

/// A link from a live subject records the object once, holding one
/// reference on it; a link from a dead subject sends the unlink signal at
/// once, the signal owning one fresh reference on the subject.
pub open spec fn spec_link(m: StoreM, subject: usize, object: usize) -> StoreM {
    if ent(m, subject).alive {
        if count_h(ent(m, subject).linked, object) >= 1 {
            m
        } else {
            spec_push_linked(spec_inc(m, object), subject, object)
        }
    } else {
        spec_send_sig(spec_inc(m, subject), object, SignalM::Unlink { subject })
    }
}

/// One step of draining a killed subject's link list: the unlink signal is
/// given a fresh reference on the subject and sent to the object, then the
/// reference the link list held on the object is released.
pub open spec fn spec_drain_step(m: StoreM, h: usize, o: usize) -> StoreM {
    spec_release(spec_send_sig(spec_inc(m, h), o, SignalM::Unlink { subject: h }), seq![o])
}

/// Draining a killed subject's link list, in order.
pub open spec fn spec_drain(m: StoreM, h: usize, objs: Seq<usize>) -> StoreM
    decreases objs.len(),
{
    if objs.len() == 0 {
        m
    } else {
        spec_drain(spec_drain_step(m, h, objs.first()), h, objs.drop_first())
    }
}

/// Killing a live entry: it is marked dead, a kill signal is delivered to
/// its own mailbox if it receives, and its link list is drained. Killing a
/// dead entry does nothing.
pub open spec fn spec_kill(m: StoreM, h: usize) -> StoreM {
    if !ent(m, h).alive {
        m
    } else {
        let dead = spec_set_dead(m, h);
        let told = if ent(m, h).open {
            spec_push_sig(dead, h, SignalM::Kill)
        } else {
            dead
        };
        spec_drain(spec_clear_linked(told, h), h, ent(m, h).linked)
    }
}

/// The first vacant slot at or after `i`, or the length if every slot from
/// `i` on is occupied.
pub open spec fn first_free_from(m: StoreM, i: int) -> int
    decreases m.len() - i,
{
    if i < 0 || i >= m.len() {
        m.len() as int
    } else if m[i] is None {
        i
    } else {
        first_free_from(m, i + 1)
    }
}

/// A fresh entry: alive, referenced once, with nothing linked or queued.
pub open spec fn fresh_entry(open: bool, kind: EntryKind) -> EntryM {
    EntryM { alive: true, open, kind, refs: 1, linked: Seq::empty(), mailbox: Seq::empty() }
}

/// Insertion: the new entry takes the first vacant slot, or a slot past the
/// end when there is none.
pub open spec fn spec_insert(m: StoreM, open: bool, kind: EntryKind) -> StoreM {
    let i = first_free_from(m, 0);
    if i == m.len() {
        m.push(Some(fresh_entry(open, kind)))
    } else {
        m.update(i, Some(fresh_entry(open, kind)))
    }
}

/// Taking one more reference on a further handle commutes with the ones
/// already taken.
pub proof fn lemma_inc_many_push(m: StoreM, s: Seq<usize>, x: usize)
    ensures
        spec_inc_many(m, s.push(x)) == spec_inc(spec_inc_many(m, s), x),
    decreases s.len(),
{
    if s.len() == 0 {
        assert(spec_inc_many(m, s) == m);
        assert(s.push(x).first() == x);
        assert(s.push(x).drop_first() =~= Seq::<usize>::empty());
        assert(spec_inc_many(m, s.push(x)) == spec_inc_many(
            spec_inc(m, x),
            s.push(x).drop_first(),
        ));
        assert(spec_inc_many(spec_inc(m, x), s.push(x).drop_first()) == spec_inc(m, x));
    } else {
        assert(s.push(x).first() == s.first());
        assert(s.push(x).drop_first() =~= s.drop_first().push(x));
        lemma_inc_many_push(spec_inc(m, s.first()), s.drop_first(), x);
        assert(spec_inc_many(m, s.push(x)) == spec_inc_many(
            spec_inc(m, s.first()),
            s.drop_first().push(x),
        ));
        assert(spec_inc_many(m, s) == spec_inc_many(spec_inc(m, s.first()), s.drop_first()));
    }
}

/// What taking one reference per listed handle does: the counts rise by
/// the occurrence counts and nothing else changes.
pub proof fn lemma_inc_many_props(m: StoreM, hs: Seq<usize>)
    requires
        forall|k: int| 0 <= k < hs.len() ==> valid(m, #[trigger] hs[k]),
    ensures
        spec_inc_many(m, hs).len() == m.len(),
        forall|x: usize| #[trigger] valid(spec_inc_many(m, hs), x) == valid(m, x),
        forall|x: usize| #[trigger] held(spec_inc_many(m, hs), x) == held(m, x),
        forall|x: usize|
            valid(m, x) ==> #[trigger] ent(spec_inc_many(m, hs), x) == (EntryM {
                refs: (refs_of(m, x) + count_h(hs, x)) as nat,
                ..ent(m, x)
            }),
    decreases hs.len(),
{
    if hs.len() == 0 {
        assert forall|x: usize| valid(m, x) implies #[trigger] ent(spec_inc_many(m, hs), x)
            == (EntryM { refs: (refs_of(m, x) + count_h(hs, x)) as nat, ..ent(m, x) }) by {
            assert(count_h(hs, x) == 0);
        }
    } else {
        let h = hs.first();
        let m1 = spec_inc(m, h);
        assert(valid(m, hs[0]));
        assert forall|k: int| 0 <= k < hs.drop_first().len() implies valid(
            m1,
            #[trigger] hs.drop_first()[k],
        ) by {
            assert(hs.drop_first()[k] == hs[k + 1]);
            assert(valid(m, hs[k + 1]));
        }
        lemma_inc_many_props(m1, hs.drop_first());
        assert forall|x: usize| #[trigger] held(spec_inc_many(m, hs), x) == held(m, x) by {
            lemma_held_update(m, h, Some(ent(m1, h)), x);
            assert(held(m1, x) == held(m, x));
        }
        assert forall|x: usize|
            valid(m, x) implies #[trigger] ent(spec_inc_many(m, hs), x) == (EntryM {
            refs: (refs_of(m, x) + count_h(hs, x)) as nat,
            ..ent(m, x)
        }) by {
            lemma_count_first(hs, x);
            assert(valid(m1, x));
            assert(ent(m1, x) == (EntryM {
                refs: (refs_of(m, x) + if x == h {
                    1nat
                } else {
                    0nat
                }) as nat,
                ..ent(m, x)
            }));
            assert(ent(spec_inc_many(m1, hs.drop_first()), x) == (EntryM {
                refs: (refs_of(m1, x) + count_h(hs.drop_first(), x)) as nat,
                ..ent(m1, x)
            }));
        }
    }
}

/// What one increment changes: the count at the handle and nothing else.
pub proof fn lemma_inc_frame(m: StoreM, h: usize)
    requires
        valid(m, h),
    ensures
        spec_inc(m, h).len() == m.len(),
        forall|x: usize| #[trigger] valid(spec_inc(m, h), x) == valid(m, x),
        forall|x: usize| #[trigger] held(spec_inc(m, h), x) == held(m, x),
        forall|x: usize|
            valid(m, x) && x != h ==> #[trigger] ent(spec_inc(m, h), x) == ent(m, x),
        ent(spec_inc(m, h), h) == (EntryM { refs: refs_of(m, h) + 1, ..ent(m, h) }),
{
    assert forall|x: usize| #[trigger] held(spec_inc(m, h), x) == held(m, x) by {
        lemma_held_update(m, h, Some(ent(spec_inc(m, h), h)), x);
        assert(entry_holds(ent(spec_inc(m, h), h), x) == entry_holds(ent(m, h), x));
    }
}

/// What an insertion changes: one previously vacant, unreferenced slot
/// becomes a fresh entry and nothing else moves.
pub proof fn lemma_insert_props(m: StoreM, open: bool, kind: EntryKind)
    requires
        store_wf(m),
        m.len() <= usize::MAX,
    ensures
        ({
            let h = first_free_from(m, 0);
            let r = spec_insert(m, open, kind);
            &&& 0 <= h <= m.len()
            &&& r.len() >= m.len()
            &&& !valid(m, h as usize)
            &&& valid(r, h as usize)
            &&& ent(r, h as usize) == fresh_entry(open, kind)
            &&& forall|x: usize|
                x != h ==> (#[trigger] valid(r, x) == valid(m, x)) && (valid(m, x) ==> ent(r, x)
                    == ent(m, x))
            &&& forall|x: usize| #[trigger] held(r, x) == held(m, x)
            &&& store_wf(r)
        }),
{
    let h = first_free_from(m, 0);
    let r = spec_insert(m, open, kind);
    let fe = fresh_entry(open, kind);
    lemma_first_free_bounds(m, 0);
    assert forall|x: usize| #[trigger] held(r, x) == held(m, x) by {
        assert(entry_holds(fe, x) == 0);
        if h == m.len() {
            lemma_held_push(m, Some(fe), x);
        } else {
            lemma_held_update(m, h as usize, Some(fe), x);
        }
    }
    assert forall|x: usize| #[trigger] valid(r, x) implies entry_ok(ent(r, x)) && refs_of(r, x)
        >= held(r, x) by {
        if x == h {
            assert(ent(r, x) == fe);
            assert(count_h(fe.linked, x) <= 1);
            assert(held(m, h as usize) == 0);
        } else {
            assert(valid(m, x));
            assert(ent(r, x) == ent(m, x));
        }
    }
    assert forall|x: usize| !valid(r, x) implies #[trigger] held(r, x) == 0 by {
        assert(!valid(m, x));
    }
}

proof fn lemma_first_free_bounds(m: StoreM, i: int)
    requires
        0 <= i <= m.len(),
    ensures
        i <= first_free_from(m, i) <= m.len(),
        first_free_from(m, i) < m.len() ==> m[first_free_from(m, i)] is None,
    decreases m.len() - i,
{
    if i < m.len() && !(m[i] is None) {
        lemma_first_free_bounds(m, i + 1);
    }
}

/// Every handle a signal names is occupied.
pub open spec fn sig_targets_ok(m: StoreM, sig: SignalM) -> bool {
    forall|k: int| 0 <= k < sig_handles(sig).len() ==> valid(m, #[trigger] sig_handles(sig)[k])
}

/// There is room to take one more reference per occurrence of each handle
/// in a signal.
pub open spec fn sig_room(m: StoreM, sig: SignalM) -> bool {
    forall|x: usize|
        valid(m, x) ==> refs_of(m, x) + #[trigger] count_h(sig_handles(sig), x) <= usize::MAX
}

// ---------------------------------------------------------------------------
// Counting lemmas
// ---------------------------------------------------------------------------

/// Occurrence counts add over concatenation.
pub proof fn lemma_count_concat(a: Seq<usize>, b: Seq<usize>, x: usize)
    ensures
        count_h(a + b, x) == count_h(a, x) + count_h(b, x),
    decreases b.len(),
{
    if b.len() == 0 {
        assert(a + b =~= a);
    } else {
        assert((a + b).drop_last() =~= a + b.drop_last());
        lemma_count_concat(a, b.drop_last(), x);
    }
}

/// An element at some index is counted at least once.
pub proof fn lemma_count_index(s: Seq<usize>, k: int)
    requires
        0 <= k < s.len(),
    ensures
        count_h(s, s[k]) >= 1,
    decreases s.len(),
{
    if k < s.len() - 1 {
        lemma_count_index(s.drop_last(), k);
    }
}

/// A handle counted at least once occurs at some index.
pub proof fn lemma_count_occurs(s: Seq<usize>, x: usize)
    requires
        count_h(s, x) >= 1,
    ensures
        exists|k: int| 0 <= k < s.len() && s[k] == x,
    decreases s.len(),
{
    if s.last() == x {
        assert(s[s.len() - 1] == x);
    } else {
        lemma_count_occurs(s.drop_last(), x);
        let k = choose|k: int| 0 <= k < s.drop_last().len() && s.drop_last()[k] == x;
        assert(s[k] == x);
    }
}

/// A singleton sequence counts its element once and nothing else.
pub proof fn lemma_count_singleton(h: usize, x: usize)
    ensures
        count_h(seq![h], x) == if x == h {
            1nat
        } else {
            0nat
        },
{
    let s = seq![h];
    assert(s.len() == 1);
    assert(s.last() == h);
    assert(s.drop_last() =~= Seq::<usize>::empty());
    assert(count_h(s.drop_last(), x) == 0);
}

/// Counting and membership agree.
pub proof fn lemma_count_contains(s: Seq<usize>, x: usize)
    ensures
        (count_h(s, x) >= 1) <==> s.contains(x),
    decreases s.len(),
{
    if s.len() > 0 {
        lemma_count_contains(s.drop_last(), x);
        if s.contains(x) {
            let k = choose|k: int| 0 <= k < s.len() && s[k] == x;
            if k < s.len() - 1 {
                assert(s.drop_last()[k] == x);
                assert(s.drop_last().contains(x));
            }
        }
        if count_h(s.drop_last(), x) >= 1 {
            let k = choose|k: int| 0 <= k < s.drop_last().len() && s.drop_last()[k] == x;
            assert(s[k] == x);
        }
    }
}

/// Appending a signal appends its handles.
pub proof fn lemma_mb_push(mb: Seq<SignalM>, s: SignalM)
    ensures
        mb_handles(mb.push(s)) == mb_handles(mb) + sig_handles(s),
{
    assert(mb.push(s).drop_last() =~= mb);
    assert(mb.push(s).last() == s);
}

/// The handles of a mailbox split at its first signal.
pub proof fn lemma_mb_first(mb: Seq<SignalM>)
    requires
        mb.len() > 0,
    ensures
        mb_handles(mb) == sig_handles(mb.first()) + mb_handles(mb.drop_first()),
    decreases mb.len(),
{
    if mb.len() == 1 {
        assert(mb.drop_last() =~= Seq::<SignalM>::empty());
        assert(mb.drop_first() =~= Seq::<SignalM>::empty());
        assert(mb.last() == mb.first());
        assert(mb_handles(mb) =~= sig_handles(mb.first()) + mb_handles(mb.drop_first()));
    } else {
        lemma_mb_first(mb.drop_last());
        assert(mb.drop_last().first() == mb.first());
        assert(mb.drop_first().drop_last() =~= mb.drop_last().drop_first());
        assert(mb.drop_first().last() == mb.last());
        assert(mb_handles(mb.drop_first()) == mb_handles(mb.drop_first().drop_last())
            + sig_handles(mb.last()));
        assert(sig_handles(mb.first()) + (mb_handles(mb.drop_last().drop_first()) + sig_handles(
            mb.last(),
        )) =~= (sig_handles(mb.first()) + mb_handles(mb.drop_last().drop_first())) + sig_handles(
            mb.last(),
        ));
    }
}

proof fn lemma_first_free_rec(m: StoreM, k: int, i: int)
    requires
        0 <= k <= i <= m.len(),
        forall|j: int| k <= j < i ==> m[j] is Some,
        i == m.len() || m[i] is None,
    ensures
        first_free_from(m, k) == i,
    decreases i - k,
{
    if k < i {
        lemma_first_free_rec(m, k + 1, i);
    }
}

/// The first vacant slot is the one an occupied prefix ends at.
pub proof fn lemma_first_free(m: StoreM, i: int)
    requires
        0 <= i <= m.len(),
        forall|j: int| 0 <= j < i ==> m[j] is Some,
        i == m.len() || m[i] is None,
    ensures
        first_free_from(m, 0) == i,
{
    lemma_first_free_rec(m, 0, i);
}

/// The invariant with pending releases implies the plain store invariant.
pub proof fn lemma_rinv_wf(m: StoreM, p: Seq<usize>)
    requires
        rinv(m, p),
    ensures
        store_wf(m),
{
    assert forall|h: usize| valid(m, h) implies refs_of(m, h) >= #[trigger] held(m, h) by {
        assert(refs_of(m, h) >= held(m, h) + count_h(p, h));
    }
}

/// Occurrence counts split at the first element.
pub proof fn lemma_count_first(s: Seq<usize>, x: usize)
    requires
        s.len() > 0,
    ensures
        count_h(s, x) == count_h(s.drop_first(), x) + if s.first() == x {
            1nat
        } else {
            0nat
        },
{
    assert(s =~= seq![s.first()] + s.drop_first());
    lemma_count_concat(seq![s.first()], s.drop_first(), x);
    lemma_count_singleton(s.first(), x);
}

/// One fresh reference taken on each handle of a sequence, in order.
pub open spec fn spec_inc_many(m: StoreM, hs: Seq<usize>) -> StoreM
    decreases hs.len(),
{
    if hs.len() == 0 {
        m
    } else {
        spec_inc_many(spec_inc(m, hs.first()), hs.drop_first())
    }
}

// ---------------------------------------------------------------------------
// Sum and held lemmas
// ---------------------------------------------------------------------------

proof fn lemma_sum_upto_update(m: StoreM, h: usize, s: Option<EntryM>, n: int)
    requires
        (h as int) < m.len(),
        n <= m.len(),
    ensures
        sum_upto(m.update(h as int, s), n) == if (h as int) < n {
            sum_upto(m, n) - slot_refs(m[h as int]) + slot_refs(s)
        } else {
            sum_upto(m, n) as int
        },
    decreases n,
{
    if n > 0 {
        lemma_sum_upto_update(m, h, s, n - 1);
    }
}

/// How the total of all reference counts changes when one slot changes.
pub proof fn lemma_sum_update(m: StoreM, h: usize, s: Option<EntryM>)
    requires
        (h as int) < m.len(),
    ensures
        sum_refs(m.update(h as int, s)) == sum_refs(m) - slot_refs(m[h as int]) + slot_refs(s),
{
    lemma_sum_upto_update(m, h, s, m.len() as int);
}

proof fn lemma_held_upto_update(m: StoreM, h: usize, s: Option<EntryM>, x: usize, n: int)
    requires
        (h as int) < m.len(),
        n <= m.len(),
    ensures
        held_upto(m.update(h as int, s), x, n) == if (h as int) < n {
            held_upto(m, x, n) - slot_holds(m[h as int], x) + slot_holds(s, x)
        } else {
            held_upto(m, x, n) as int
        },
    decreases n,
{
    if n > 0 {
        lemma_held_upto_update(m, h, s, x, n - 1);
    }
}

/// How the store's holds on `x` change when one slot changes.
pub proof fn lemma_held_update(m: StoreM, h: usize, s: Option<EntryM>, x: usize)
    requires
        (h as int) < m.len(),
    ensures
        held(m.update(h as int, s), x) == held(m, x) - slot_holds(m[h as int], x) + slot_holds(
            s,
            x,
        ),
{
    lemma_held_upto_update(m, h, s, x, m.len() as int);
}

proof fn lemma_held_upto_push(m: StoreM, s: Option<EntryM>, x: usize, n: int)
    requires
        n <= m.len(),
    ensures
        held_upto(m.push(s), x, n) == held_upto(m, x, n),
    decreases n,
{
    if n > 0 {
        lemma_held_upto_push(m, s, x, n - 1);
    }
}

/// How the store's holds on `x` change when a slot is appended.
pub proof fn lemma_held_push(m: StoreM, s: Option<EntryM>, x: usize)
    ensures
        held(m.push(s), x) == held(m, x) + slot_holds(s, x),
{
    lemma_held_upto_push(m, s, x, m.len() as int);
}

proof fn lemma_held_upto_lower(m: StoreM, i: usize, x: usize, n: int)
    requires
        (i as int) < n <= m.len(),
    ensures
        held_upto(m, x, n) >= slot_holds(m[i as int], x),
    decreases n,
{
    if (i as int) < n - 1 {
        lemma_held_upto_lower(m, i, x, n - 1);
    }
}

/// The store holds on `x` at least what any single slot holds on it.
pub proof fn lemma_held_lower(m: StoreM, i: usize, x: usize)
    requires
        (i as int) < m.len(),
    ensures
        held(m, x) >= slot_holds(m[i as int], x),
{
    lemma_held_upto_lower(m, i, x, m.len() as int);
}

} // verus!
