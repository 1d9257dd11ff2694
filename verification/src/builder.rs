//! The decisions of runtime building: which plugins are in, which are
//! finished, which services are declared, and when the runtime is live.
//!
//! Plugins are named by identifiers. The build phase adds each plugin at
//! most once — adding a duplicate is a no-op. The finish phase drains the
//! pending set one plugin at a time; a finish hook may add further
//! plugins, which join the pending set unless they were already seen, so
//! every plugin is finished exactly once and the phase ends exactly when
//! the set is drained. After that the runtime waits until every declared
//! service has reported in. The hooks themselves — closures, executors,
//! the waiting — run outside and drive these decisions.

use vstd::prelude::*;

use crate::registry::str_eq;

verus! {

/// Identifiers added through one finish hook, in order: each joins the
/// pending set unless it is pending or finished already.
pub open spec fn spec_enqueue(pending: Seq<u64>, seen: Seq<u64>, ids: Seq<u64>) -> Seq<u64>
    decreases ids.len(),
{
    if ids.len() == 0 {
        pending
    } else {
        let first = ids.first();
        let next = if pending.contains(first) || seen.contains(first) {
            pending
        } else {
            pending.push(first)
        };
        spec_enqueue(next, seen, ids.drop_first())
    }
}

/// The builder's books: no plugin is pending twice, none is finished
/// twice, and none is both.
pub open spec fn builder_wf(pending: Seq<u64>, finished: Seq<u64>) -> bool {
    &&& forall|i: int, j: int|
        #![trigger pending[i], pending[j]]
        0 <= i < j < pending.len() ==> pending[i] != pending[j]
    &&& forall|i: int, j: int|
        #![trigger finished[i], finished[j]]
        0 <= i < j < finished.len() ==> finished[i] != finished[j]
    &&& forall|i: int, j: int|
        #![trigger pending[i], finished[j]]
        0 <= i < pending.len() && 0 <= j < finished.len() ==> pending[i] != finished[j]
}

/// Builds a runtime: plugins in the build phase, the finish-phase
/// fixpoint, declared services, and the count of started ones.
pub struct RuntimeBuilder {
    pending: Vec<u64>,
    finished: Vec<u64>,
    services: Vec<String>,
    started: usize,
}

impl RuntimeBuilder {
    /// A builder with nothing loaded.
    pub fn new() -> (r: RuntimeBuilder)
        ensures
            r.pending_view().len() == 0,
            r.finished_view().len() == 0,
            r.services_view().len() == 0,
            r.started_count() == 0,
            builder_wf(r.pending_view(), r.finished_view()),
    {
        RuntimeBuilder { pending: Vec::new(), finished: Vec::new(), services: Vec::new(), started: 0 }
    }

    /// The plugins awaiting their finish hook, in order.
    pub closed spec fn pending_view(&self) -> Seq<u64> {
        self.pending@
    }

    /// The plugins whose finish hook has run, in order.
    pub closed spec fn finished_view(&self) -> Seq<u64> {
        self.finished@
    }

    /// The declared service names, in order.
    pub closed spec fn services_view(&self) -> Seq<Seq<char>> {
        Seq::new(self.services@.len(), |i: int| self.services@[i]@)
    }

    /// How many services have reported started.
    pub closed spec fn started_count(&self) -> nat {
        self.started as nat
    }

    /// Adds a plugin to the build: once per identifier, ever — adding one
    /// already pending or already finished is a no-op.
    pub fn add_plugin(&mut self, plugin_id: u64) -> (added: bool)
        requires
            builder_wf(old(self).pending_view(), old(self).finished_view()),
        ensures
            builder_wf(final(self).pending_view(), final(self).finished_view()),
            added == !(old(self).pending_view().contains(plugin_id) || old(self).finished_view().contains(plugin_id)),
            added ==> final(self).pending_view() == old(self).pending_view().push(plugin_id),
            !added ==> final(self).pending_view() == old(self).pending_view(),
            final(self).finished_view() == old(self).finished_view(),
            final(self).services_view() == old(self).services_view(),
            final(self).started_count() == old(self).started_count(),
    {
        if contains_u64(&self.pending, plugin_id) || contains_u64(&self.finished, plugin_id) {
            false
        } else {
            let ghost p0 = self.pending@;
            self.pending.push(plugin_id);
            proof {
                assert(self.pending@ =~= p0.push(plugin_id));
                assert forall|i: int, j: int|
                    #![trigger self.pending@[i], self.pending@[j]]
                    0 <= i < j < self.pending@.len() implies self.pending@[i]
                        != self.pending@[j] by {
                    if j == self.pending@.len() - 1 {
                        assert(self.pending@[i] == p0[i]);
                        assert(!p0.contains(plugin_id));
                        assert(p0.contains(p0[i])) by {
                            assert(p0[i] == p0[i]);
                        }
                    }
                }
                assert forall|i: int, j: int|
                    #![trigger self.pending@[i], self.finished@[j]]
                    0 <= i < self.pending@.len() && 0 <= j < self.finished@.len() implies self
                        .pending@[i] != self.finished@[j] by {
                    if i == self.pending@.len() - 1 {
                        assert(!self.finished@.contains(plugin_id));
                        assert(self.finished@.contains(self.finished@[j]));
                    }
                }
            }
            true
        }
    }

    /// Declares a service name: once per name; a duplicate declaration is
    /// refused.
    pub fn add_service(&mut self, name: String) -> (added: bool)
        ensures
            added == !old(self).services_view().contains(name@),
            added ==> final(self).services_view() == old(self).services_view().push(name@),
            !added ==> final(self).services_view() == old(self).services_view(),
            final(self).pending_view() == old(self).pending_view(),
            final(self).finished_view() == old(self).finished_view(),
            final(self).started_count() == old(self).started_count(),
    {
        let n = self.services.len();
        let mut i: usize = 0;
        while i < n
            invariant
                n == self.services@.len(),
                i <= n,
                forall|j: int| 0 <= j < i ==> self.services_view()[j] != name@,
            decreases n - i,
        {
            if str_eq(self.services[i].as_str(), name.as_str()) {
                proof {
                    assert(self.services_view()[i as int] == name@);
                    assert(self.services_view().contains(name@));
                }
                return false;
            }
            i = i + 1;
        }
        proof {
            if self.services_view().contains(name@) {
                let k = choose|k: int|
                    0 <= k < self.services_view().len() && self.services_view()[k] == name@;
            }
        }
        let ghost s0 = self.services_view();
        self.services.push(name);
        proof {
            assert(self.services_view() =~= s0.push(name@));
        }
        true
    }

    /// One step of the finish phase: takes the most recently added pending
    /// plugin, marks it finished, and enqueues whatever its hook added —
    /// each new identifier once, identifiers already seen not at all.
    /// Answers nothing exactly when the pending set is drained, which ends
    /// the phase.
    pub fn finish_next(&mut self, added_by_hook: Vec<u64>) -> (r: Option<u64>)
        requires
            builder_wf(old(self).pending_view(), old(self).finished_view()),
        ensures
            builder_wf(final(self).pending_view(), final(self).finished_view()),
            old(self).pending_view().len() == 0 ==> r is None && final(self).pending_view()
                == old(self).pending_view() && final(self).finished_view() == old(self).finished_view(),
            old(self).pending_view().len() > 0 ==> r == Some(old(self).pending_view().last())
                && final(self).finished_view() == old(self).finished_view().push(
                old(self).pending_view().last(),
            ) && final(self).pending_view() == spec_enqueue(
                old(self).pending_view().drop_last(),
                old(self).finished_view().push(old(self).pending_view().last()),
                added_by_hook@,
            ),
            forall|q: u64|
                final(self).finished_view().contains(q) ==> !final(self).pending_view().contains(q),
            final(self).services_view() == old(self).services_view(),
            final(self).started_count() == old(self).started_count(),
    {
        let popped = self.pending.pop();
        let plugin = match popped {
            Some(p) => p,
            None => {
                proof {
                    assert forall|q: u64|
                        final(self).finished_view().contains(q) implies !final(self).pending_view().contains(q) by {
                        if self.pending@.contains(q) {
                            let i = choose|i: int|
                                0 <= i < self.pending@.len() && self.pending@[i] == q;
                            let j = choose|j: int|
                                0 <= j < self.finished@.len() && self.finished@[j] == q;
                        }
                    }
                }
                return None;
            },
        };
        let ghost p1 = self.pending@;
        let ghost f0 = self.finished@;
        let ghost svc0 = self.services_view();
        let ghost st0 = self.started_count();
        self.finished.push(plugin);
        proof {
            assert(self.finished@ =~= f0.push(plugin));
            lemma_books_after_finish(p1, f0, plugin);
        }
        let n = added_by_hook.len();
        let mut i: usize = 0;
        proof {
            assert(added_by_hook@.skip(0) =~= added_by_hook@);
        }
        while i < n
            invariant
                n == added_by_hook@.len(),
                i <= n,
                self.finished@ == f0.push(plugin),
                builder_wf(self.pending@, self.finished@),
                spec_enqueue(p1, f0.push(plugin), added_by_hook@) == spec_enqueue(
                    self.pending@,
                    self.finished@,
                    added_by_hook@.skip(i as int),
                ),
                self.services_view() == svc0,
                self.started_count() == st0,
                svc0 == old(self).services_view(),
                st0 == old(self).started_count(),
            decreases n - i,
        {
            let ghost ppre = self.pending@;
            let id = added_by_hook[i];
            self.add_plugin(id);
            i = i + 1;
            proof {
                assert(added_by_hook@.skip(i - 1).first() == added_by_hook@[i - 1]);
                assert(added_by_hook@.skip(i - 1).drop_first() =~= added_by_hook@.skip(i as int));
                if ppre.contains(id) || self.finished@.contains(id) {
                    assert(self.pending@ == ppre);
                } else {
                    assert(self.pending@ == ppre.push(id));
                }
            }
        }
        proof {
            assert(added_by_hook@.skip(n as int) =~= Seq::<u64>::empty());
            assert(spec_enqueue(self.pending@, self.finished@, added_by_hook@.skip(n as int))
                == self.pending@);
            assert forall|q: u64|
                final(self).finished_view().contains(q) implies !final(self).pending_view().contains(q) by {
                if self.pending@.contains(q) {
                    let i = choose|i: int| 0 <= i < self.pending@.len() && self.pending@[i] == q;
                    let j = choose|j: int|
                        0 <= j < self.finished@.len() && self.finished@[j] == q;
                }
            }
        }
        Some(plugin)
    }

    /// One service has reported started; answers whether every declared
    /// service now has. The runtime goes live on the first true answer.
    pub fn service_started(&mut self) -> (all_started: bool)
        requires
            old(self).started_count() < old(self).services_view().len(),
        ensures
            final(self).started_count() == old(self).started_count() + 1,
            all_started == (final(self).started_count() == final(self).services_view().len()),
            final(self).pending_view() == old(self).pending_view(),
            final(self).finished_view() == old(self).finished_view(),
            final(self).services_view() == old(self).services_view(),
    {
        proof {
            vstd::std_specs::vec::axiom_spec_len(&self.services);
        }
        self.started = self.started + 1;
        self.started == self.services.len()
    }
}

/// After a pop, the popped plugin joins the finished books soundly: it was
/// pending, so it was not finished, and the rest stays disjoint.
proof fn lemma_books_after_finish(p1: Seq<u64>, f0: Seq<u64>, plugin: u64)
    requires
        builder_wf(p1.push(plugin), f0),
    ensures
        builder_wf(p1, f0.push(plugin)),
{
    let p = p1.push(plugin);
    assert forall|i: int, j: int|
        #![trigger p1[i], p1[j]]
        0 <= i < j < p1.len() implies p1[i] != p1[j] by {
        assert(p[i] == p1[i] && p[j] == p1[j]);
    }
    assert forall|i: int, j: int|
        #![trigger f0.push(plugin)[i], f0.push(plugin)[j]]
        0 <= i < j < f0.push(plugin).len() implies f0.push(plugin)[i] != f0.push(plugin)[j] by {
        if j == f0.len() {
            assert(f0.push(plugin)[i] == f0[i]);
            assert(p[p.len() - 1] == plugin);
            assert(p[p.len() - 1] != f0[i]);
        }
    }
    assert forall|i: int, j: int|
        #![trigger p1[i], f0.push(plugin)[j]]
        0 <= i < p1.len() && 0 <= j < f0.push(plugin).len() implies p1[i] != f0.push(
        plugin,
    )[j] by {
        assert(p[i] == p1[i]);
        if j == f0.len() {
            assert(p[p.len() - 1] == plugin);
        }
    }
}

/// Whether a vector of identifiers holds `x`.
fn contains_u64(v: &Vec<u64>, x: u64) -> (r: bool)
    ensures
        r == v@.contains(x),
{
    let n = v.len();
    let mut i: usize = 0;
    while i < n
        invariant
            n == v@.len(),
            i <= n,
            forall|j: int| 0 <= j < i ==> v@[j] != x,
        decreases n - i,
    {
        if v[i] == x {
            proof {
                assert(v@[i as int] == x);
            }
            return true;
        }
        i = i + 1;
    }
    proof {
        if v@.contains(x) {
            let k = choose|k: int| 0 <= k < v@.len() && v@[k] == x;
        }
    }
    false
}

} // verus!
