//! Proofs about releasing references.
//!
//! `spec_release` pays off a pending sequence of reference releases, with
//! the cascade that removal triggers: a handle owned only by the link
//! structure is removed and purged from every surviving link list. The
//! lemmas here show that releasing keeps the store invariant, that it only
//! ever lowers reference counts, removes slots and shrinks link lists —
//! every surviving entry keeps its alive flag, kind and mailbox — and that
//! a handle whose count exceeds the store's holds and the pending releases
//! by a margin keeps that margin: an externally owned reference is never
//! taken away.

use vstd::prelude::*;

use crate::model::{
    count_h, ent, entry_holds, entry_ok, ext, held, lemma_count_concat, lemma_count_index,
    lemma_held_lower, lemma_held_split, lemma_held_update, lemma_linkheld_update,
    lemma_mbheld_lower, lemma_mbheld_update, lemma_purge_props, lemma_scrub_count,
    lemma_sum_update, linkheld, mb_handles, mbheld, refs_of, rinv, scrub, spec_dec1, spec_purge,
    spec_release, spec_remove, store_wf, sum_refs, valid, EntryM, StoreM,
};

verus! {

/// One release step on a handle whose count stays positive: the count drops
/// by one and nothing else changes.
pub proof fn lemma_step_dec(m: StoreM, p: Seq<usize>)
    requires
        rinv(m, p),
        p.len() > 0,
        refs_of(m, p.last()) > 1 + linkheld(m, p.last()),
    ensures
        valid(m, p.last()),
        rinv(spec_dec1(m, p.last()), p.drop_last()),
        spec_release(m, p) == spec_release(spec_dec1(m, p.last()), p.drop_last()),
        sum_refs(spec_dec1(m, p.last())) == sum_refs(m) - 1,
        spec_dec1(m, p.last()).len() == m.len(),
        forall|x: usize| valid(spec_dec1(m, p.last()), x) <==> valid(m, x),
        forall|x: usize|
            #[trigger] valid(m, x) && x != p.last() ==> ent(spec_dec1(m, p.last()), x) == ent(
                m,
                x,
            ),
        ent(spec_dec1(m, p.last()), p.last()) == (EntryM {
            refs: (refs_of(m, p.last()) - 1) as nat,
            ..ent(m, p.last())
        }),
        forall|x: usize| #[trigger] held(spec_dec1(m, p.last()), x) == held(m, x),
        forall|x: usize| #[trigger] linkheld(spec_dec1(m, p.last()), x) == linkheld(m, x),
        forall|x: usize|
            valid(m, x) ==> ext(spec_dec1(m, p.last()), p.drop_last(), x) == #[trigger] ext(
                m,
                p,
                x,
            ),
{
    let h = p.last();
    let rest = p.drop_last();
    assert(valid(m, p[p.len() - 1]));
    let e = ent(m, h);
    let e2 = EntryM { refs: (e.refs - 1) as nat, ..e };
    let m2 = spec_dec1(m, h);
    lemma_sum_update(m, h, Some(e2));
    assert forall|x: usize| #[trigger] held(m2, x) == held(m, x) by {
        lemma_held_update(m, h, Some(e2), x);
        assert(entry_holds(e2, x) == entry_holds(e, x));
    }
    assert forall|x: usize| #[trigger] linkheld(m2, x) == linkheld(m, x) by {
        lemma_linkheld_update(m, h, Some(e2), x);
    }
    assert forall|x: usize| valid(m2, x) implies refs_of(m2, x) >= held(m2, x) + #[trigger] count_h(
        rest,
        x,
    ) by {
        assert(count_h(p, x) == count_h(rest, x) + if x == h {
            1nat
        } else {
            0nat
        });
        assert(refs_of(m, x) >= held(m, x) + count_h(p, x));
    }
    assert forall|x: usize| #[trigger] valid(m2, x) implies entry_ok(ent(m2, x)) by {
        assert(valid(m, x));
        if x == h {
            assert(ent(m2, x).linked == e.linked);
            assert(ent(m2, x).mailbox == e.mailbox);
            assert(ent(m2, x).alive == e.alive);
            assert(ent(m2, x).refs >= 1);
        } else {
            assert(ent(m2, x) == ent(m, x));
        }
    }
    assert forall|k: int| 0 <= k < rest.len() implies valid(m2, #[trigger] rest[k]) by {
        assert(rest[k] == p[k]);
        assert(valid(m, p[k]));
    }
    assert forall|x: usize| valid(m, x) implies ext(m2, rest, x) == #[trigger] ext(m, p, x) by {
        assert(count_h(p, x) == count_h(rest, x) + if x == h {
            1nat
        } else {
            0nat
        });
    }
}

/// One release step on a handle on which only link-held references remain:
/// the slot is vacated, the departed handle is purged from every surviving
/// link list, and the references its own link list and mailbox held become
/// pending in its place. No queued signal and no pending release still named
/// such a handle, so no dangling reference is left behind.
pub proof fn lemma_step_remove(m: StoreM, p: Seq<usize>)
    requires
        rinv(m, p),
        p.len() > 0,
        valid(m, p.last()),
        refs_of(m, p.last()) == 1 + linkheld(m, p.last()),
    ensures
        mbheld(m, p.last()) == 0,
        count_h(p.drop_last(), p.last()) == 0,
        ({
            let h = p.last();
            let m2 = spec_purge(spec_remove(m, h), h);
            let p2 = p.drop_last() + scrub(ent(m, h).linked, h) + mb_handles(ent(m, h).mailbox);
            &&& rinv(m2, p2)
            &&& spec_release(m, p) == spec_release(m2, p2)
            &&& sum_refs(m2) == sum_refs(m) - refs_of(m, h)
            &&& m2.len() == m.len()
            &&& forall|x: usize| #[trigger] valid(m2, x) <==> (valid(m, x) && x != h)
            &&& forall|x: usize|
                #[trigger] valid(m2, x) ==> ent(m2, x) == (EntryM {
                    linked: scrub(ent(m, x).linked, h),
                    ..ent(m, x)
                }) && ent(m2, x).linked.len() <= ent(m, x).linked.len()
            &&& forall|x: usize| valid(m, x) && x != h ==> ext(m2, p2, x) == #[trigger] ext(m, p, x)
        }),
{
    let h = p.last();
    let rest = p.drop_last();
    let e = ent(m, h);
    let mr = spec_remove(m, h);
    let m2 = spec_purge(mr, h);
    let p2 = rest + scrub(e.linked, h) + mb_handles(e.mailbox);
    assert(valid(m, p[p.len() - 1]));
    lemma_sum_update(m, h, None);
    lemma_purge_props(mr, h);
    lemma_held_split(m, h);
    // Only the pending release itself still owns a reference beyond the link
    // holds: no queued signal and no other pending release names the handle.
    assert(count_h(p, h) == count_h(rest, h) + 1);
    assert(refs_of(m, h) >= held(m, h) + count_h(p, h));
    assert(mbheld(m, h) == 0);
    assert(count_h(rest, h) == 0);
    lemma_mbheld_lower(m, h, h);
    assert(count_h(mb_handles(e.mailbox), h) == 0);
    assert forall|y: usize| #[trigger] count_h(scrub(e.linked, h), y) == if y == h {
        0nat
    } else {
        count_h(e.linked, y)
    } by {
        lemma_scrub_count(e.linked, h, y);
    }
    // Holds after removal and purge.
    assert forall|x: usize| x != h implies #[trigger] held(m2, x) == held(m, x) - entry_holds(
        e,
        x,
    ) by {
        lemma_held_update(m, h, None, x);
        lemma_held_lower(m, h, x);
    }
    assert(held(m2, h) == mbheld(mr, h));
    assert(held(m2, h) == 0) by {
        lemma_mbheld_update(m, h, None, h);
    }
    // The pending counts after extension.
    assert forall|x: usize| x != h implies #[trigger] count_h(p2, x) == count_h(rest, x)
        + entry_holds(e, x) by {
        lemma_count_concat(rest + scrub(e.linked, h), mb_handles(e.mailbox), x);
        lemma_count_concat(rest, scrub(e.linked, h), x);
    }
    assert(count_h(p2, h) == 0) by {
        lemma_count_concat(rest + scrub(e.linked, h), mb_handles(e.mailbox), h);
        lemma_count_concat(rest, scrub(e.linked, h), h);
    }
    // The invariant with the extended pending sequence.
    assert forall|x: usize| valid(m2, x) implies refs_of(m2, x) >= held(m2, x)
        + #[trigger] count_h(p2, x) by {
        assert(count_h(p, x) == count_h(rest, x) + if x == h {
            1nat
        } else {
            0nat
        });
        assert(refs_of(m, x) >= held(m, x) + count_h(p, x));
        lemma_held_lower(m, h, x);
    }
    assert forall|x: usize| #[trigger] valid(m2, x) implies entry_ok(ent(m2, x)) by {
        assert(valid(m, x));
        lemma_scrub_count(ent(m, x).linked, h, x);
        assert(ent(m2, x).refs == ent(m, x).refs);
        assert(ent(m2, x).alive == ent(m, x).alive);
        assert forall|y: usize| #[trigger] count_h(ent(m2, x).linked, y) <= 1 by {
            lemma_scrub_count(ent(m, x).linked, h, y);
            assert(count_h(ent(m, x).linked, y) <= 1);
        }
        if !ent(m, x).alive {
            assert(ent(m, x).linked.len() == 0);
            assert(ent(m2, x).linked.len() == 0);
        }
    }
    assert forall|x: usize| !valid(m2, x) implies #[trigger] held(m2, x) == 0 by {
        if x != h {
            assert(!valid(m, x));
            assert(held(m, x) == 0);
            lemma_held_lower(m, h, x);
        }
    }
    assert forall|k: int| 0 <= k < p2.len() implies valid(m2, #[trigger] p2[k]) by {
        let x = p2[k];
        if k < rest.len() {
            assert(p2[k] == p[k]);
            assert(valid(m, p[k]));
            if x == h {
                lemma_count_index(rest, k);
            }
        } else {
            if k < rest.len() + scrub(e.linked, h).len() {
                lemma_count_index(scrub(e.linked, h), k - rest.len());
                assert(count_h(scrub(e.linked, h), x) >= 1);
                lemma_scrub_count(e.linked, h, x);
                assert(x != h);
                assert(count_h(e.linked, x) >= 1);
            } else {
                lemma_count_index(
                    mb_handles(e.mailbox),
                    k - rest.len() - scrub(e.linked, h).len(),
                );
                assert(count_h(mb_handles(e.mailbox), x) >= 1);
                assert(x != h);
            }
            assert(entry_holds(e, x) >= 1);
            lemma_held_lower(m, h, x);
            assert(held(m, x) >= 1);
            assert(valid(m, x));
        }
    }
    assert forall|x: usize| #[trigger] valid(m2, x) implies ent(m2, x) == (EntryM {
        linked: scrub(ent(m, x).linked, h),
        ..ent(m, x)
    }) && ent(m2, x).linked.len() <= ent(m, x).linked.len() by {
        assert(valid(m, x) && x != h);
        assert(ent(mr, x) == ent(m, x));
        lemma_scrub_count(ent(m, x).linked, h, x);
    }
    // The two sides of the release equation coincide by definition.
    assert(!(ent(m, h).refs > 1 + linkheld(m, h)));
    assert(spec_release(m, p) == spec_release(m2, p2));
    assert forall|x: usize| valid(m, x) && x != h implies ext(m2, p2, x) == #[trigger] ext(
        m,
        p,
        x,
    ) by {
        assert(count_h(p, x) == count_h(rest, x) + if x == h {
            1nat
        } else {
            0nat
        });
    }
    assert(sum_refs(mr) == sum_refs(m) - refs_of(m, h));
}

/// Releasing pending references keeps the store invariant; a surviving
/// entry keeps its alive flag, kind and mailbox, its count never rises and
/// its link list never grows; and a handle with a positive margin beyond
/// the store's holds and the pending releases survives with that margin
/// intact.
pub proof fn lemma_release(m: StoreM, p: Seq<usize>)
    requires
        rinv(m, p),
    ensures
        spec_release(m, p).len() == m.len(),
        store_wf(spec_release(m, p)),
        forall|x: usize|
            #[trigger] valid(spec_release(m, p), x) ==> valid(m, x) && ent(spec_release(m, p), x).alive
                == ent(m, x).alive && ent(spec_release(m, p), x).open == ent(m, x).open && ent(
                spec_release(m, p),
                x,
            ).kind == ent(m, x).kind && ent(spec_release(m, p), x).mailbox == ent(m, x).mailbox
                && ent(spec_release(m, p), x).linked.len() <= ent(m, x).linked.len() && refs_of(
                spec_release(m, p),
                x,
            ) <= refs_of(m, x),
        forall|x: usize|
            valid(m, x) && #[trigger] ext(m, p, x) >= 1 ==> valid(spec_release(m, p), x)
                && refs_of(spec_release(m, p), x) - held(spec_release(m, p), x) >= ext(m, p, x),
    decreases sum_refs(m), p.len(),
{
    let r = spec_release(m, p);
    if p.len() == 0 {
        assert(r == m);
        assert forall|x: usize| valid(m, x) implies refs_of(m, x) >= #[trigger] held(m, x) by {
            assert(refs_of(m, x) >= held(m, x) + count_h(p, x));
        }
        assert forall|x: usize| valid(m, x) && #[trigger] ext(m, p, x) >= 1 implies valid(r, x)
            && refs_of(r, x) - held(r, x) >= ext(m, p, x) by {
            assert(count_h(p, x) == 0);
        }
    } else {
        let h = p.last();
        assert(valid(m, p[p.len() - 1]));
        assert(refs_of(m, h) >= 1);
        if refs_of(m, h) > 1 + linkheld(m, h) {
            let m2 = spec_dec1(m, h);
            let p2 = p.drop_last();
            lemma_step_dec(m, p);
            lemma_release(m2, p2);
            assert forall|x: usize| valid(m, x) && #[trigger] ext(m, p, x) >= 1 implies valid(r, x)
                && refs_of(r, x) - held(r, x) >= ext(m, p, x) by {
                assert(ext(m2, p2, x) == ext(m, p, x));
            }
        } else {
            // Only link-held references remain on the handle once the pending
            // one is paid: the release removes the slot.
            lemma_held_split(m, h);
            assert(refs_of(m, h) >= held(m, h) + count_h(p, h));
            assert(count_h(p, h) >= 1);
            assert(refs_of(m, h) == 1 + linkheld(m, h));
            let e = ent(m, h);
            let m2 = spec_purge(spec_remove(m, h), h);
            let p2 = p.drop_last() + scrub(e.linked, h) + mb_handles(e.mailbox);
            lemma_step_remove(m, p);
            lemma_release(m2, p2);
            assert forall|x: usize| #[trigger] valid(r, x) implies valid(m, x) && ent(r, x).alive
                == ent(m, x).alive && ent(r, x).open == ent(m, x).open && ent(r, x).kind == ent(
                m,
                x,
            ).kind && ent(r, x).mailbox == ent(m, x).mailbox && ent(r, x).linked.len() <= ent(
                m,
                x,
            ).linked.len() && refs_of(r, x) <= refs_of(m, x) by {
                assert(valid(m2, x));
                assert(ent(m2, x) == (EntryM { linked: scrub(ent(m, x).linked, h), ..ent(m, x) }));
            }
            assert forall|x: usize| valid(m, x) && #[trigger] ext(m, p, x) >= 1 implies valid(r, x)
                && refs_of(r, x) - held(r, x) >= ext(m, p, x) by {
                assert(count_h(p, x) == count_h(p.drop_last(), x) + if x == h {
                    1nat
                } else {
                    0nat
                });
                if x == h {
                    assert(ext(m, p, h) <= refs_of(m, h) - held(m, h) - 1);
                    assert(ext(m, p, h) <= 0);
                } else {
                    assert(ext(m2, p2, x) == ext(m, p, x));
                }
            }
        }
    }
}

} // verus!
