//! The store's governing laws, stated and proved over the transition
//! functions that the executable operations are specified by.

use vstd::prelude::*;

use crate::model::{
    count_h, ent, entry_holds, entry_ok, ext, held, lemma_count_first, lemma_count_singleton,
    lemma_held_split, lemma_held_update, lemma_linkheld_update, lemma_rinv_wf, linkheld,
    mb_handles, refs_of, rinv, scrub, spec_dec1, spec_dec_ref, spec_drain, spec_drain_step,
    spec_free_sig, spec_inc, spec_kill, spec_link, spec_purge, spec_push_sig, spec_release,
    spec_remove, spec_send_sig, store_wf, valid, EntryM, StoreM,
};
use crate::release::lemma_release;
use crate::signal::{sig_handles, SignalM};

verus! {

/// How many unlink signals naming `subject` a mailbox holds.
pub open spec fn unlink_count(mb: Seq<SignalM>, subject: usize) -> nat
    decreases mb.len(),
{
    if mb.len() == 0 {
        0
    } else {
        unlink_count(mb.drop_last(), subject) + if mb.last() == (SignalM::Unlink { subject }) {
            1nat
        } else {
            0nat
        }
    }
}

/// A handle is externally margined by `k` when its count exceeds the
/// store's holds and the given pending releases by at least `k`.
pub open spec fn margined(m: StoreM, p: Seq<usize>, x: usize, k: int) -> bool {
    valid(m, x) && refs_of(m, x) >= held(m, x) + count_h(p, x) + k
}

/// One drain step of a kill: what it does to the subject, to every
/// externally held handle, and to the object's mailbox.
#[verifier::rlimit(100)]
proof fn lemma_drain_step_props(m: StoreM, h: usize, objs: Seq<usize>, x: usize, marg: int)
    requires
        marg >= 1,
        rinv(m, objs),
        objs.len() > 0,
        valid(m, h),
        !ent(m, h).alive,
        ent(m, h).linked.len() == 0,
        refs_of(m, h) >= held(m, h) + count_h(objs, h) + 1,
    ensures
        rinv(spec_drain_step(m, h, objs.first()), objs.drop_first()),
        spec_drain(m, h, objs) == spec_drain(
            spec_drain_step(m, h, objs.first()),
            h,
            objs.drop_first(),
        ),
        spec_drain_step(m, h, objs.first()).len() == m.len(),
        valid(spec_drain_step(m, h, objs.first()), h),
        !ent(spec_drain_step(m, h, objs.first()), h).alive,
        ent(spec_drain_step(m, h, objs.first()), h).linked.len() == 0,
        refs_of(spec_drain_step(m, h, objs.first()), h) >= held(
            spec_drain_step(m, h, objs.first()),
            h,
        ) + count_h(objs.drop_first(), h) + 1,
        valid(spec_drain_step(m, h, objs.first()), x) ==> valid(m, x),
        valid(spec_drain_step(m, h, objs.first()), x) && x != h ==> ent(
            spec_drain_step(m, h, objs.first()),
            x,
        ).alive == ent(m, x).alive,
        margined(m, objs, x, marg) ==> margined(
            spec_drain_step(m, h, objs.first()),
            objs.drop_first(),
            x,
            marg,
        ) && (x != h ==> refs_of(spec_drain_step(m, h, objs.first()), x) <= refs_of(m, x)) && ent(
            spec_drain_step(m, h, objs.first()),
            x,
        ).alive == ent(m, x).alive && ent(
            spec_drain_step(m, h, objs.first()),
            x,
        ).open == ent(m, x).open && ent(spec_drain_step(m, h, objs.first()), x).kind == ent(
            m,
            x,
        ).kind && ent(spec_drain_step(m, h, objs.first()), x).linked.len() <= ent(
            m,
            x,
        ).linked.len() && ent(
            spec_drain_step(m, h, objs.first()),
            x,
        ).mailbox == (if x == objs.first() && x != h && ent(m, x).alive && ent(m, x).open {
            ent(m, x).mailbox.push(SignalM::Unlink { subject: h })
        } else {
            ent(m, x).mailbox
        }),
{
    let o = objs.first();
    let rest = objs.drop_first();
    let sig = SignalM::Unlink { subject: h };
    assert(valid(m, objs[0]));
    let ma = spec_inc(m, h);
    assert forall|x: usize| #[trigger] held(ma, x) == held(m, x) by {
        lemma_held_update(m, h, Some(ent(ma, h)), x);
    }
    assert forall|x: usize| #[trigger] valid(ma, x) == valid(m, x) by {}
    let mb = spec_send_sig(ma, o, sig);
    let delivered = valid(ma, o) && ent(ma, o).alive && ent(ma, o).open;
    if delivered {
        assert(mb == spec_push_sig(ma, o, sig));
        assert forall|x: usize| #[trigger] held(mb, x) == held(ma, x) + count_h(
            sig_handles(sig),
            x,
        ) by {
            lemma_held_update(ma, o, Some(ent(mb, o)), x);
            crate::model::lemma_mb_push(ent(ma, o).mailbox, sig);
            crate::model::lemma_count_concat(
                mb_handles(ent(ma, o).mailbox),
                sig_handles(sig),
                x,
            );
        }
    } else {
        assert(mb == spec_release(ma, sig_handles(sig)));
        assert(sig_handles(sig) =~= seq![h]);
        assert(seq![h].last() == h);
        assert(seq![h].drop_last() =~= Seq::<usize>::empty());
        assert(refs_of(ma, h) == refs_of(m, h) + 1);
        assert(refs_of(m, h) >= held(m, h) + 1);
        lemma_held_split(m, h);
        assert(ent(ma, h).linked == ent(m, h).linked);
        assert(linkheld(ma, h) == linkheld(m, h)) by {
            lemma_linkheld_update(m, h, Some(ent(ma, h)), h);
        }
        assert(refs_of(ma, h) > 1 + linkheld(ma, h));
        assert(spec_release(spec_dec1(ma, h), Seq::<usize>::empty()) == spec_dec1(ma, h));
        assert(mb == spec_dec1(ma, h));
        assert forall|x: usize| #[trigger] held(mb, x) == held(ma, x) by {
            lemma_held_update(ma, h, Some(ent(mb, h)), x);
        }
    }
    assert forall|x: usize| #[trigger] valid(mb, x) == valid(m, x) by {}
    assert forall|x: usize| #[trigger] valid(mb, x) implies refs_of(mb, x) - held(mb, x)
        == refs_of(m, x) - held(m, x) by {
        lemma_count_singleton(h, x);
        assert(refs_of(ma, x) == refs_of(m, x) + if x == h {
            1nat
        } else {
            0nat
        });
        if delivered {
            assert(refs_of(mb, x) == refs_of(ma, x));
        } else {
            assert(refs_of(mb, x) == refs_of(ma, x) - if x == h {
                1nat
            } else {
                0nat
            });
        }
    }
    // The release of the object's link token.
    assert forall|x: usize| valid(mb, x) implies refs_of(mb, x) >= held(mb, x)
        + #[trigger] count_h(seq![o], x) by {
        lemma_count_singleton(o, x);
        lemma_count_first(objs, x);
        assert(refs_of(m, x) >= held(m, x) + count_h(objs, x));
    }
    assert forall|k: int| 0 <= k < seq![o].len() implies valid(mb, #[trigger] seq![o][k]) by {}
    assert forall|x: usize| #[trigger] valid(mb, x) implies entry_ok(ent(mb, x)) by {
        assert(valid(m, x));
        if delivered && x == o {
            assert(ent(mb, x).linked == ent(ma, x).linked);
            assert(ent(mb, x).alive == ent(ma, x).alive);
            assert(ent(mb, x).refs == ent(ma, x).refs);
        }
        if x == h {
            assert(ent(mb, x).linked == ent(m, x).linked);
            assert(ent(mb, x).alive == ent(m, x).alive);
            assert(ent(mb, x).refs >= 1);
        }
    }
    assert forall|x: usize| !valid(mb, x) implies #[trigger] held(mb, x) == 0 by {
        assert(!valid(m, x));
        lemma_count_singleton(h, x);
        assert(held(m, x) == 0);
        assert(held(ma, x) == 0);
    }
    lemma_release(mb, seq![o]);
    let mc = spec_release(mb, seq![o]);
    assert(mc == spec_drain_step(m, h, o));
    // Margins carry over to the remaining tail.
    assert forall|x: usize| margined(m, objs, x, marg) implies #[trigger] margined(
        mc,
        rest,
        x,
        marg,
    )
        && (x != h ==> refs_of(mc, x) <= refs_of(m, x))
        && ent(mc, x).alive == ent(m, x).alive && ent(mc, x).open == ent(m, x).open && ent(
        mc,
        x,
    ).kind == ent(m, x).kind && ent(mc, x).linked.len() <= ent(m, x).linked.len() && ent(
        mc,
        x,
    ).mailbox == if x == o && x != h && ent(m, x).alive && ent(m, x).open {
        ent(m, x).mailbox.push(SignalM::Unlink { subject: h })
    } else {
        ent(m, x).mailbox
    } by {
        lemma_count_singleton(o, x);
        lemma_count_first(objs, x);
        assert(ext(mb, seq![o], x) >= count_h(rest, x) + marg);
        assert(valid(mc, x) && refs_of(mc, x) - held(mc, x) >= ext(mb, seq![o], x));
        assert(ent(mc, x).alive == ent(mb, x).alive && ent(mc, x).open == ent(mb, x).open && ent(
            mc,
            x,
        ).kind == ent(mb, x).kind && ent(mc, x).mailbox == ent(mb, x).mailbox && ent(
            mc,
            x,
        ).linked.len() <= ent(mb, x).linked.len());
        assert(ent(mb, x).linked == ent(m, x).linked);
        if delivered && x == o && x != h {
            assert(ent(mb, x).mailbox == ent(m, x).mailbox.push(sig));
        }
    }
    // The subject itself.
    assert(ext(mb, seq![o], h) >= count_h(rest, h) + 1) by {
        lemma_count_singleton(o, h);
        lemma_count_first(objs, h);
        assert(valid(mb, h));
        assert(refs_of(mb, h) - held(mb, h) == refs_of(m, h) - held(m, h));
    }
    assert(valid(mc, h) && refs_of(mc, h) - held(mc, h) >= ext(mb, seq![o], h));
    assert(ent(mc, h).alive == ent(mb, h).alive && ent(mc, h).mailbox == ent(mb, h).mailbox && ent(
        mc,
        h,
    ).linked.len() <= ent(mb, h).linked.len());
    assert(!ent(mb, h).alive && ent(mb, h).linked.len() == 0) by {
        if delivered {
            assert(o != h);
            assert(ent(mb, h) == ent(ma, h));
        }
    }
    assert(!ent(mc, h).alive);
    assert(ent(mc, h).linked.len() == 0);
    assert(refs_of(mc, h) >= held(mc, h) + count_h(rest, h) + 1);
    // The remaining tokens stay valid.
    assert forall|k: int| 0 <= k < rest.len() implies valid(mc, #[trigger] rest[k]) by {
        let x = rest[k];
        crate::model::lemma_count_index(rest, k);
        lemma_count_singleton(o, x);
        lemma_count_first(objs, x);
        assert(ext(mb, seq![o], x) >= 1);
    }
    assert forall|x: usize| valid(mc, x) implies refs_of(mc, x) >= held(mc, x)
        + #[trigger] count_h(rest, x) by {
        if count_h(rest, x) >= 1 {
            lemma_count_singleton(o, x);
            lemma_count_first(objs, x);
            assert(ext(mb, seq![o], x) >= count_h(rest, x));
        }
    }
    assert(rinv(mc, rest));
    assert(spec_drain(m, h, objs) == spec_drain(mc, h, rest));
    assert(mc.len() == m.len());
    assert(spec_drain_step(m, h, objs.first()) == mc);
    if margined(m, objs, x, marg) {
        assert(margined(mc, rest, x, marg));
    }
    if valid(mc, x) {
        assert(valid(mb, x));
        assert(valid(m, x));
        if x != h {
            assert(ent(mc, x).alive == ent(mb, x).alive);
            assert(ent(ma, x).alive == ent(m, x).alive);
            if delivered && x == o {
                assert(ent(mb, x).alive == ent(ma, x).alive);
            }
            assert(ent(mb, x).alive == ent(m, x).alive);
        }
    }
}

/// Draining a dead subject's taken link list: every externally held object
/// that is alive and receiving gets exactly one unlink signal per
/// occurrence, everything else about it stays put, and the subject stays
/// dead, drained and held.
#[verifier::rlimit(100)]
proof fn lemma_drain_props(m: StoreM, h: usize, objs: Seq<usize>, x: usize, marg: int)
    requires
        marg >= 1,
        rinv(m, objs),
        valid(m, h),
        !ent(m, h).alive,
        ent(m, h).linked.len() == 0,
        refs_of(m, h) >= held(m, h) + count_h(objs, h) + 1,
    ensures
        spec_drain(m, h, objs).len() == m.len(),
        store_wf(spec_drain(m, h, objs)),
        valid(spec_drain(m, h, objs), h),
        !ent(spec_drain(m, h, objs), h).alive,
        ent(spec_drain(m, h, objs), h).linked.len() == 0,
        refs_of(spec_drain(m, h, objs), h) > held(spec_drain(m, h, objs), h),
        valid(spec_drain(m, h, objs), x) ==> valid(m, x),
        valid(spec_drain(m, h, objs), x) && x != h ==> ent(spec_drain(m, h, objs), x).alive
            == ent(m, x).alive,
        margined(m, objs, x, marg) ==> valid(spec_drain(m, h, objs), x) && ent(
            spec_drain(m, h, objs),
            x,
        ).alive == ent(m, x).alive && ent(spec_drain(m, h, objs), x).open == ent(m, x).open
            && ent(spec_drain(m, h, objs), x).kind == ent(m, x).kind && ent(
            spec_drain(m, h, objs),
            x,
        ).linked.len() <= ent(m, x).linked.len() && refs_of(spec_drain(m, h, objs), x) >= held(
            spec_drain(m, h, objs),
            x,
        ) + marg && (x != h ==> refs_of(spec_drain(m, h, objs), x) <= refs_of(m, x)) && (x != h
            && ent(m, x).alive && ent(m, x).open ==> unlink_count(
            ent(spec_drain(m, h, objs), x).mailbox,
            h,
        ) == unlink_count(ent(m, x).mailbox, h) + count_h(objs, x)) && (x == h ==> ent(
            spec_drain(m, h, objs),
            x,
        ).mailbox == ent(m, x).mailbox),
    decreases objs.len(),
{
    let r = spec_drain(m, h, objs);
    if objs.len() == 0 {
        assert(r == m);
        lemma_rinv_wf(m, objs);
        if margined(m, objs, x, marg) {
            assert(valid(r, x));
            assert(refs_of(r, x) >= held(r, x) + marg);
        }
    } else {
        let o = objs.first();
        let rest = objs.drop_first();
        let mc = spec_drain_step(m, h, o);
        lemma_drain_step_props(m, h, objs, x, marg);
        lemma_drain_props(mc, h, rest, x, marg);
        assert(r == spec_drain(mc, h, rest));
        if valid(r, x) {
            assert(valid(mc, x));
            assert(valid(m, x));
            if x != h {
                assert(ent(r, x).alive == ent(mc, x).alive);
                assert(ent(mc, x).alive == ent(m, x).alive);
            }
        }
        if margined(m, objs, x, marg) {
            assert(margined(mc, rest, x, marg));
            lemma_count_first(objs, x);
            if x != h && ent(m, x).alive && ent(m, x).open {
                if x == o {
                    let pushed = ent(m, x).mailbox.push(SignalM::Unlink { subject: h });
                    assert(ent(mc, x).mailbox == pushed);
                    assert(pushed.drop_last() =~= ent(m, x).mailbox);
                    assert(unlink_count(pushed, h) == unlink_count(ent(m, x).mailbox, h) + 1);
                } else {
                    assert(ent(mc, x).mailbox == ent(m, x).mailbox);
                }
            }
        }
    }
}

/// Reference discipline: releasing a reference decrements the count by
/// exactly one, and the slot is removed exactly when the release leaves
/// only link-held references on it — removal is driven by the outside
/// owners letting go, not by the link structure, so link cycles cannot
/// keep a slot alive. Once the slot is gone no operation accepts the
/// handle again.
pub proof fn lemma_reference_discipline(m: StoreM, h: usize)
    requires
        store_wf(m),
        valid(m, h),
        refs_of(m, h) > held(m, h),
    ensures
        refs_of(m, h) >= 1 + linkheld(m, h),
        refs_of(m, h) > 1 + linkheld(m, h) ==> valid(spec_dec_ref(m, h), h) && refs_of(
            spec_dec_ref(m, h),
            h,
        ) == refs_of(m, h) - 1,
        refs_of(m, h) == 1 + linkheld(m, h) ==> !valid(spec_dec_ref(m, h), h),
        store_wf(spec_dec_ref(m, h)),
{
    assert(seq![h].last() == h);
    assert(seq![h].drop_last() =~= Seq::<usize>::empty());
    assert forall|x: usize| valid(m, x) implies refs_of(m, x) >= held(m, x) + #[trigger] count_h(
        seq![h],
        x,
    ) by {
        lemma_count_singleton(h, x);
    }
    assert forall|k: int| 0 <= k < seq![h].len() implies valid(m, #[trigger] seq![h][k]) by {}
    lemma_release(m, seq![h]);
    lemma_count_singleton(h, h);
    lemma_held_split(m, h);
    if refs_of(m, h) > 1 + linkheld(m, h) {
        assert(spec_dec_ref(m, h) == spec_release(spec_dec1(m, h), Seq::<usize>::empty()));
        assert(spec_dec_ref(m, h) == spec_dec1(m, h));
    } else {
        assert(refs_of(m, h) == 1 + linkheld(m, h));
        crate::release::lemma_step_remove(m, seq![h]);
        let m2 = spec_purge(spec_remove(m, h), h);
        let p2 = seq![h].drop_last() + scrub(ent(m, h).linked, h) + mb_handles(
            ent(m, h).mailbox,
        );
        lemma_release(m2, p2);
        assert(spec_dec_ref(m, h) == spec_release(m2, p2));
        assert(!valid(m2, h));
        assert forall|x: usize| #[trigger] valid(spec_release(m2, p2), x) implies valid(
            m2,
            x,
        ) by {}
    }
}

/// Kill is idempotent: killing a handle twice is the same as killing it
/// once, because the first kill leaves the entry dead and a kill of a dead
/// entry does nothing.
pub proof fn lemma_kill_idempotent(m: StoreM, h: usize)
    requires
        store_wf(m),
        valid(m, h),
        refs_of(m, h) > held(m, h),
    ensures
        spec_kill(spec_kill(m, h), h) == spec_kill(m, h),
        valid(spec_kill(m, h), h),
        !ent(spec_kill(m, h), h).alive,
{
    lemma_kill_props(m, h, h, 1);
}

/// What a kill does, via the drain lemma: the handle ends dead, drained
/// and still held; any externally held, alive, receiving handle `x` other
/// than the subject gets exactly one unlink signal per occurrence in the
/// subject's duplicate-free link list — none at all when it does not
/// occur there.
#[verifier::rlimit(100)]
pub proof fn lemma_kill_props(m: StoreM, h: usize, x: usize, marg: int)
    requires
        marg >= 1,
        store_wf(m),
        valid(m, h),
        refs_of(m, h) > held(m, h),
    ensures
        store_wf(spec_kill(m, h)),
        valid(spec_kill(m, h), h),
        !ent(spec_kill(m, h), h).alive,
        refs_of(spec_kill(m, h), h) > held(spec_kill(m, h), h),
        spec_kill(spec_kill(m, h), h) == spec_kill(m, h),
        valid(spec_kill(m, h), x) ==> valid(m, x),
        valid(spec_kill(m, h), x) && x != h ==> ent(spec_kill(m, h), x).alive == ent(m, x).alive,
        valid(m, x) && refs_of(m, x) >= held(m, x) + marg && x != h ==> valid(spec_kill(m, h), x)
            && ent(spec_kill(m, h), x).alive == ent(m, x).alive && ent(spec_kill(m, h), x).open
            == ent(m, x).open && ent(spec_kill(m, h), x).kind == ent(m, x).kind && ent(
            spec_kill(m, h),
            x,
        ).linked.len() <= ent(m, x).linked.len() && refs_of(spec_kill(m, h), x) >= held(
            spec_kill(m, h),
            x,
        ) + marg && refs_of(spec_kill(m, h), x) <= refs_of(m, x),
        ent(m, h).alive && valid(m, x) && refs_of(m, x) >= held(m, x) + marg && x != h && ent(
            m,
            x,
        ).alive && ent(m, x).open ==> valid(spec_kill(m, h), x) && unlink_count(
            ent(spec_kill(m, h), x).mailbox,
            h,
        ) == unlink_count(ent(m, x).mailbox, h) + count_h(ent(m, h).linked, x),
{
    let r = spec_kill(m, h);
    if !ent(m, h).alive {
        assert(r == m);
    } else {
        let e0 = ent(m, h);
        let dead = crate::model::spec_set_dead(m, h);
        let told = if e0.open {
            spec_push_sig(dead, h, SignalM::Kill)
        } else {
            dead
        };
        let m3 = crate::model::spec_clear_linked(told, h);
        let e3 = ent(m3, h);
        assert(m3 =~= crate::model::upd(m, h, e3));
        assert forall|y: usize| #[trigger] held(m3, y) + count_h(e0.linked, y) == held(m, y) by {
            lemma_held_update(m, h, Some(e3), y);
            if e0.open {
                crate::model::lemma_mb_push(e0.mailbox, SignalM::Kill);
                crate::model::lemma_count_concat(
                    mb_handles(e0.mailbox),
                    sig_handles(SignalM::Kill),
                    y,
                );
                assert(count_h(sig_handles(SignalM::Kill), y) == 0);
            }
            assert(count_h(mb_handles(e3.mailbox), y) == count_h(mb_handles(e0.mailbox), y));
            assert(count_h(e3.linked, y) == 0);
        }
        assert(rinv(m3, e0.linked)) by {
            assert forall|y: usize| valid(m3, y) implies refs_of(m3, y) >= held(m3, y)
                + #[trigger] count_h(e0.linked, y) by {
                assert(refs_of(m, y) >= held(m, y));
            }
            assert forall|y: usize| #[trigger] valid(m3, y) implies entry_ok(ent(m3, y)) by {
                assert(valid(m, y));
                if y == h {
                    assert forall|z: usize| #[trigger] count_h(ent(m3, h).linked, z) <= 1 by {}
                } else {
                    assert(ent(m3, y) == ent(m, y));
                }
            }
            assert forall|y: usize| !valid(m3, y) implies #[trigger] held(m3, y) == 0 by {
                assert(!valid(m, y));
                assert(held(m3, y) <= held(m, y));
            }
            assert forall|k: int| 0 <= k < e0.linked.len() implies valid(
                m3,
                #[trigger] e0.linked[k],
            ) by {
                let y = e0.linked[k];
                crate::model::lemma_count_index(e0.linked, k);
                crate::model::lemma_held_lower(m, h, y);
                assert(held(m, y) >= entry_holds(e0, y));
                assert(valid(m, y));
            }
        };
        assert(refs_of(m3, h) >= held(m3, h) + count_h(e0.linked, h) + 1);
        lemma_drain_props(m3, h, e0.linked, x, marg);
        assert(r == spec_drain(m3, h, e0.linked));
        if valid(r, x) {
            assert(valid(m3, x));
            assert(valid(m, x));
            if x != h {
                assert(ent(r, x).alive == ent(m3, x).alive);
                assert(ent(m3, x) == ent(m, x));
            }
        }
        if valid(m, x) && refs_of(m, x) >= held(m, x) + marg && x != h {
            assert(ent(m3, x) == ent(m, x));
            assert(margined(m3, e0.linked, x, marg));
        }
    }
}

/// A killed process unlinks each linked object exactly once: every alive,
/// receiving process in its duplicate-free link list receives one unlink
/// signal naming it as subject.
pub proof fn lemma_kill_delivers_unlink(m: StoreM, p: usize, o: usize)
    requires
        store_wf(m),
        valid(m, p),
        refs_of(m, p) > held(m, p),
        ent(m, p).alive,
        valid(m, o),
        refs_of(m, o) > held(m, o),
        o != p,
        ent(m, o).alive,
        ent(m, o).open,
        ent(m, p).linked.contains(o),
    ensures
        valid(spec_kill(m, p), o),
        unlink_count(ent(spec_kill(m, p), o).mailbox, p) == unlink_count(ent(m, o).mailbox, p)
            + 1,
{
    lemma_kill_props(m, p, o, 1);
    crate::model::lemma_count_contains(ent(m, p).linked, o);
    assert(entry_ok(ent(m, p)));
    assert(count_h(ent(m, p).linked, o) <= 1);
}

/// Linking the same pair twice records the link once: the second link is
/// the identity while the subject is alive.
pub proof fn lemma_link_idempotent(m: StoreM, a: usize, b: usize)
    requires
        valid(m, a),
        valid(m, b),
        ent(m, a).alive,
    ensures
        spec_link(spec_link(m, a, b), a, b) == spec_link(m, a, b),
{
    let m1 = spec_link(m, a, b);
    if count_h(ent(m, a).linked, b) >= 1 {
        assert(m1 == m);
    } else {
        let mi = spec_inc(m, b);
        assert(m1 == crate::model::spec_push_linked(mi, a, b));
        assert(mi.len() == m.len());
        assert(m1.len() == m.len());
        assert(m1[a as int] is Some);
        assert(valid(m1, a));
        assert(ent(m1, a).alive);
        assert(ent(m1, a).linked == ent(mi, a).linked.push(b));
        assert(ent(m1, a).linked.last() == b);
        assert(count_h(ent(m1, a).linked, b) >= 1);
    }
}

/// Linking twice and killing the subject delivers exactly one unlink to
/// the object: the duplicate link is dropped, and the drain sends one
/// signal per recorded object.
pub proof fn lemma_double_link_one_unlink(m: StoreM, a: usize, b: usize)
    requires
        store_wf(m),
        valid(m, a),
        valid(m, b),
        a != b,
        ent(m, a).alive,
        ent(m, b).alive,
        ent(m, b).open,
        refs_of(m, a) > held(m, a),
        refs_of(m, b) > held(m, b),
        refs_of(m, a) < usize::MAX,
        refs_of(m, b) < usize::MAX,
    ensures
        ({
            let after = spec_kill(spec_link(spec_link(m, a, b), a, b), a);
            unlink_count(ent(after, b).mailbox, a) == unlink_count(ent(m, b).mailbox, a)
                + count_h(ent(spec_link(m, a, b), a).linked, b)
        }),
        count_h(ent(spec_link(m, a, b), a).linked, b) == 1,
{
    lemma_link_idempotent(m, a, b);
    let m1 = spec_link(m, a, b);
    lemma_link_props(m, a, b);
    lemma_kill_props(m1, a, b, 1);
    assert(spec_kill(spec_link(spec_link(m, a, b), a, b), a) == spec_kill(m1, a));
    if count_h(ent(m, a).linked, b) >= 1 {
        assert(ent(m1, a) == ent(m, a));
        assert(count_h(ent(m1, a).linked, b) == 1) by {
            assert(entry_ok(ent(m, a)));
        }
    } else {
        assert(ent(m1, a).linked == ent(spec_inc(m, b), a).linked.push(b));
        assert(ent(m1, a).linked.drop_last() =~= ent(m, a).linked);
        assert(count_h(ent(m1, a).linked, b) == 1);
    }
}

/// What a link does when the subject is alive: the object gains one
/// reference and one place in the subject's link list if it was absent,
/// and the store invariant is kept either way.
pub proof fn lemma_link_props(m: StoreM, a: usize, b: usize)
    requires
        store_wf(m),
        valid(m, a),
        valid(m, b),
        ent(m, a).alive,
        refs_of(m, b) < usize::MAX,
    ensures
        store_wf(spec_link(m, a, b)),
        valid(spec_link(m, a, b), a),
        valid(spec_link(m, a, b), b),
        ent(spec_link(m, a, b), a).alive,
        ent(spec_link(m, a, b), b).alive == ent(m, b).alive,
        ent(spec_link(m, a, b), b).open == ent(m, b).open,
        count_h(ent(spec_link(m, a, b), a).linked, b) >= 1,
        a != b ==> ent(spec_link(m, a, b), b).mailbox == ent(m, b).mailbox,
        refs_of(m, a) > held(m, a) ==> refs_of(spec_link(m, a, b), a) > held(
            spec_link(m, a, b),
            a,
        ),
        refs_of(m, b) > held(m, b) ==> refs_of(spec_link(m, a, b), b) > held(
            spec_link(m, a, b),
            b,
        ),
    decreases 0int,
{
    let r = spec_link(m, a, b);
    if count_h(ent(m, a).linked, b) >= 1 {
        assert(r == m);
    } else {
        let mi = spec_inc(m, b);
        assert(r == crate::model::spec_push_linked(mi, a, b));
        let ea = ent(r, a);
        assert forall|x: usize| #[trigger] held(mi, x) == held(m, x) by {
            lemma_held_update(m, b, Some(ent(mi, b)), x);
        }
        assert forall|x: usize| #[trigger] held(r, x) == held(m, x) + if x == b {
            1int
        } else {
            0int
        } by {
            lemma_held_update(mi, a, Some(ea), x);
            assert(ent(mi, a).linked.push(b).drop_last() =~= ent(mi, a).linked);
            assert(count_h(ea.linked, x) == count_h(ent(m, a).linked, x) + if x == b {
                1nat
            } else {
                0nat
            });
        }
        assert forall|x: usize| #[trigger] valid(r, x) implies entry_ok(ent(r, x)) && refs_of(
            r,
            x,
        ) >= held(r, x) by {
            assert(valid(m, x));
            if x == a {
                assert(ea.alive == ent(m, a).alive);
                assert(ea.refs == ent(mi, a).refs);
                assert forall|y: usize| #[trigger] count_h(ea.linked, y) <= 1 by {
                    assert(ea.linked.drop_last() =~= ent(m, a).linked);
                    assert(count_h(ent(m, a).linked, y) <= 1);
                }
            } else {
                assert(ent(r, x) == ent(mi, x));
            }
            if x == b {
                assert(refs_of(mi, x) == refs_of(m, x) + 1);
            }
        }
        assert forall|x: usize| !valid(r, x) implies #[trigger] held(r, x) == 0 by {
            assert(!valid(m, x));
        }
        assert(ea.linked.last() == b);
        crate::model::lemma_count_index(ea.linked, ea.linked.len() - 1);
    }
}

/// Signal conservation: a signal sent through the store is either
/// delivered, appended whole to the target's mailbox, or freed, its
/// references released — exactly one of the two, decided by the target
/// being alive and receiving.
pub proof fn lemma_signal_conservation(m: StoreM, t: usize, sig: SignalM)
    requires
        valid(m, t),
    ensures
        ent(m, t).alive && ent(m, t).open ==> spec_send_sig(m, t, sig) == spec_push_sig(
            m,
            t,
            sig,
        ) && ent(spec_send_sig(m, t, sig), t).mailbox == ent(m, t).mailbox.push(sig),
        !(ent(m, t).alive && ent(m, t).open) ==> spec_send_sig(m, t, sig) == spec_free_sig(m, sig),
{
}

/// A dead handle with an outstanding reference is never removed: any
/// release that does not spend that reference leaves the handle in place,
/// dead or not.
pub proof fn lemma_dead_handle_not_removed(m: StoreM, p: Seq<usize>, x: usize)
    requires
        rinv(m, p),
        valid(m, x),
        refs_of(m, x) >= held(m, x) + count_h(p, x) + 1,
    ensures
        valid(spec_release(m, p), x),
        ent(spec_release(m, p), x).alive == ent(m, x).alive,
        refs_of(spec_release(m, p), x) >= held(spec_release(m, p), x) + 1,
{
    lemma_release(m, p);
    assert(ext(m, p, x) >= 1);
}

/// A fresh insertion never lands on a handle that anything still refers
/// to: a vacant slot is, by the store invariant, held by nothing.
pub proof fn lemma_fresh_slot_unreferenced(m: StoreM, x: usize)
    requires
        store_wf(m),
        !valid(m, x),
    ensures
        held(m, x) == 0,
{
}

} // verus!
