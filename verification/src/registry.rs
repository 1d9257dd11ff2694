//! The service registry: a map from service name to capability.
//!
//! The registry owns one reference per stored capability. Inserting a name
//! that is already taken hands the displaced capability back — the only
//! way to observe the prior value, so a leak is a call-site bug. Looking a
//! name up probes the process behind the capability and answers nothing
//! for a dead one; a live answer is a fresh clone that the caller owns.

use vstd::prelude::*;

use crate::model::{
    count_h, ent, held, refs_of, spec_inc, spec_release, store_wf, valid, StoreM,
};
use crate::signal::Capability;
use crate::store::ProcessStore;

verus! {

/// A name paired with the capability registered under it.
pub type ServiceEntry = (String, Capability);

/// The mathematical value of the registry: name-to-capability pairs in
/// insertion order.
pub type RegistryM = Seq<(Seq<char>, Capability)>;

/// The first capability registered under `name`, if any.
pub open spec fn find_name(s: RegistryM, name: Seq<char>) -> Option<Capability>
    decreases s.len(),
{
    if s.len() == 0 {
        None
    } else if s.first().0 == name {
        Some(s.first().1)
    } else {
        find_name(s.drop_first(), name)
    }
}

/// No two entries share a name.
pub open spec fn names_unique(s: RegistryM) -> bool {
    forall|i: int, j: int| 0 <= i < j < s.len() ==> (#[trigger] s[i]).0 != (#[trigger] s[j]).0
}

/// Every registered capability points at an occupied slot of the store.
pub open spec fn reg_valid(s: RegistryM, m: StoreM) -> bool {
    forall|k: int| 0 <= k < s.len() ==> valid(m, (#[trigger] s[k]).1.handle)
}

/// The handles of the registered capabilities, in order: what a teardown
/// releases.
pub open spec fn reg_handles(s: RegistryM) -> Seq<usize> {
    Seq::new(s.len(), |i: int| s[i].1.handle)
}

/// How many registered capabilities point at `x`.
pub open spec fn reg_count(s: RegistryM, x: usize) -> nat
    decreases s.len(),
{
    if s.len() == 0 {
        0
    } else {
        reg_count(s.drop_last(), x) + if s.last().1.handle == x {
            1nat
        } else {
            0nat
        }
    }
}

/// The map from service name to capability. The owner serializes access;
/// the contracts speak of the sequence of entries.
pub struct Registry {
    services: Vec<ServiceEntry>,
}

impl View for Registry {
    type V = RegistryM;

    closed spec fn view(&self) -> RegistryM {
        Seq::new(self.services@.len(), |i: int| (self.services@[i].0@, self.services@[i].1))
    }
}

/// Relies on str's equality: two string slices are equal exactly when
/// their character sequences are.
#[verifier::external_body]
pub(crate) fn str_eq(a: &str, b: &str) -> (r: bool)
    ensures
        r == (a@ == b@),
{
    a == b
}

impl Registry {
    /// Creates an empty registry.
    pub fn new() -> (r: Registry)
        ensures
            r@.len() == 0,
            names_unique(r@),
    {
        Registry { services: Vec::new() }
    }

    /// The registered names, in insertion order.
    pub fn list(&self) -> (r: Vec<String>)
        ensures
            r@.len() == self@.len(),
            forall|i: int| 0 <= i < r@.len() ==> r@[i]@ == self@[i].0,
    {
        let mut out: Vec<String> = Vec::new();
        let n = self.services.len();
        let mut i: usize = 0;
        while i < n
            invariant
                n == self.services.len(),
                i <= n,
                out@.len() == i,
                forall|j: int| 0 <= j < i ==> out@[j]@ == self@[j].0,
            decreases n - i,
        {
            out.push(self.services[i].0.clone());
            i = i + 1;
        }
        out
    }

    /// Registers `cap` under `name`, transferring the caller's reference
    /// into the registry. Returns the capability the name previously held,
    /// which the caller must free; the name now maps to `cap` and every
    /// other name is untouched.
    pub fn insert(&mut self, name: String, cap: Capability) -> (prev: Option<Capability>)
        requires
            names_unique(old(self)@),
        ensures
            names_unique(final(self)@),
            prev == find_name(old(self)@, name@),
            find_name(final(self)@, name@) == Some(cap),
            forall|n: Seq<char>|
                n != name@ ==> #[trigger] find_name(final(self)@, n) == find_name(old(self)@, n),
            reg_count(final(self)@, cap.handle) >= 1,
    {
        let ghost r0 = self@;
        let n = self.services.len();
        let mut i: usize = 0;
        while i < n && !str_eq(self.services[i].0.as_str(), name.as_str())
            invariant
                n == self.services.len(),
                i <= n,
                self@ == r0,
                forall|j: int| 0 <= j < i ==> r0[j].0 != name@,
            decreases n - i,
        {
            i = i + 1;
        }
        proof {
            lemma_find_name_index(r0, name@, i as int);
        }
        if i < n {
            let prev = self.services[i].1;
            let entry = &mut self.services[i];
            entry.1 = cap;
            proof {
                assert(self@ =~= r0.update(i as int, (name@, cap)));
                assert(r0[i as int].0 == name@);
                lemma_find_name_update(r0, name@, i as int, cap);
                lemma_reg_count_index(self@, i as int);
            }
            Some(prev)
        } else {
            self.services.push((name, cap));
            proof {
                assert(self@ =~= r0.push((name@, cap)));
                lemma_find_name_push(r0, name@, cap);
                lemma_reg_count_index(self@, self@.len() - 1);
            }
            None
        }
    }

    /// Looks a name up: nothing when the name is unknown or the process
    /// behind it has died; otherwise a fresh clone of the stored
    /// capability, whose reference the caller now owns.
    pub fn get(&self, store: &mut ProcessStore, name: &str) -> (r: Option<Capability>)
        requires
            store_wf(old(store)@),
            reg_valid(self@, old(store)@),
            forall|x: usize|
                valid(old(store)@, x) ==> refs_of(old(store)@, x) < usize::MAX,
        ensures
            find_name(self@, name@) is None ==> r is None && final(store)@ == old(store)@,
            find_name(self@, name@) matches Some(cap) ==> {
                if ent(old(store)@, cap.handle).alive {
                    r == Some(cap) && final(store)@ == spec_inc(old(store)@, cap.handle)
                } else {
                    r is None && final(store)@ == old(store)@
                }
            },
            store_wf(final(store)@),
    {
        let n = self.services.len();
        let mut i: usize = 0;
        while i < n
            invariant
                n == self.services.len(),
                i <= n,
                store@ == old(store)@,
                store_wf(store@),
                reg_valid(self@, store@),
                forall|x: usize| valid(store@, x) ==> refs_of(store@, x) < usize::MAX,
                forall|j: int| 0 <= j < i ==> self@[j].0 != name@,
            decreases n - i,
        {
            if str_eq(self.services[i].0.as_str(), name) {
                proof {
                    lemma_find_name_index(self@, name@, i as int);
                    assert(valid(old(store)@, self@[i as int].1.handle));
                }
                let cap = self.services[i].1;
                if store.is_alive(cap.get_handle()) {
                    let out = cap.clone(store);
                    return Some(out);
                } else {
                    return None;
                }
            }
            i = i + 1;
        }
        proof {
            lemma_find_name_index(self@, name@, n as int);
        }
        None
    }

    /// Detaches a name. The returned capability must be freed or kept by
    /// the caller; every other name is untouched.
    pub fn remove(&mut self, name: &str) -> (r: Option<Capability>)
        requires
            names_unique(old(self)@),
        ensures
            names_unique(final(self)@),
            r == find_name(old(self)@, name@),
            find_name(final(self)@, name@) is None,
            r is None ==> final(self)@ == old(self)@,
            forall|n: Seq<char>|
                n != name@ ==> #[trigger] find_name(final(self)@, n) == find_name(old(self)@, n),
    {
        let ghost r0 = self@;
        let n = self.services.len();
        let mut i: usize = 0;
        while i < n && !str_eq(self.services[i].0.as_str(), name)
            invariant
                n == self.services.len(),
                i <= n,
                self@ == r0,
                forall|j: int| 0 <= j < i ==> r0[j].0 != name@,
            decreases n - i,
        {
            i = i + 1;
        }
        proof {
            lemma_find_name_index(r0, name@, i as int);
        }
        if i < n {
            let entry = self.services.remove(i);
            proof {
                assert(self@ =~= r0.remove(i as int));
                assert(r0[i as int].0 == name@);
                lemma_find_name_remove(r0, name@, i as int);
            }
            Some(entry.1)
        } else {
            None
        }
    }

    /// Releases every remaining capability — one reference per stored
    /// entry, in order — and empties the registry: the tear-down path when
    /// a runtime goes away.
    pub fn free_all(&mut self, store: &mut ProcessStore)
        requires
            store_wf(old(store)@),
            reg_valid(old(self)@, old(store)@),
            forall|x: usize|
                valid(old(store)@, x) ==> refs_of(old(store)@, x) >= held(old(store)@, x)
                    + #[trigger] reg_count(old(self)@, x),
        ensures
            final(self)@.len() == 0,
            final(store)@ == spec_release(old(store)@, reg_handles(old(self)@)),
            store_wf(final(store)@),
    {
        let ghost r0 = self@;
        let mut handles: Vec<usize> = Vec::new();
        let n = self.services.len();
        let mut i: usize = 0;
        while i < n
            invariant
                n == self.services.len(),
                self@ == r0,
                i <= n,
                handles@.len() == i,
                forall|j: int| 0 <= j < i ==> handles@[j] == r0[j].1.handle,
            decreases n - i,
        {
            handles.push(self.services[i].1.get_handle());
            i = i + 1;
        }
        self.services.clear();
        proof {
            assert(handles@ =~= reg_handles(r0));
            lemma_reg_count_as_count(r0, handles@);
            assert forall|x: usize|
                valid(old(store)@, x) implies refs_of(old(store)@, x) >= held(old(store)@, x)
                    + #[trigger] count_h(handles@, x) by {
                assert(refs_of(old(store)@, x) >= held(old(store)@, x) + reg_count(r0, x));
            }
            assert forall|k: int| 0 <= k < handles@.len() implies valid(
                old(store)@,
                #[trigger] handles@[k],
            ) by {
                assert(valid(old(store)@, r0[k].1.handle));
            }
        }
        store.release_all(handles);
    }
}

proof fn lemma_find_name_index(s: RegistryM, name: Seq<char>, i: int)
    requires
        0 <= i <= s.len(),
        forall|j: int| 0 <= j < i ==> s[j].0 != name,
        i < s.len() ==> s[i].0 == name,
    ensures
        i < s.len() ==> find_name(s, name) == Some(s[i].1),
        i == s.len() ==> find_name(s, name) is None,
    decreases s.len(),
{
    if s.len() > 0 {
        if s.first().0 == name {
        } else {
            assert(i >= 1);
            lemma_find_name_index(s.drop_first(), name, i - 1);
        }
    }
}

proof fn lemma_find_name_update(s: RegistryM, name: Seq<char>, i: int, cap: Capability)
    requires
        0 <= i < s.len(),
        s[i].0 == name,
        forall|j: int| 0 <= j < i ==> s[j].0 != name,
    ensures
        find_name(s.update(i, (name, cap)), name) == Some(cap),
        forall|n: Seq<char>|
            n != name ==> #[trigger] find_name(s.update(i, (name, cap)), n) == find_name(s, n),
    decreases s.len(),
{
    let s2 = s.update(i, (name, cap));
    if i == 0 {
        assert(s2.first() == (name, cap));
        assert forall|n: Seq<char>|
            n != name implies #[trigger] find_name(s.update(i, (name, cap)), n) == find_name(
            s,
            n,
        ) by {
            assert(s2.drop_first() =~= s.drop_first());
            assert(s.first().0 == name);
            assert(find_name(s2, n) == find_name(s2.drop_first(), n));
            assert(find_name(s, n) == find_name(s.drop_first(), n));
        }
    } else {
        assert(s2.first() == s.first());
        assert(s2.drop_first() =~= s.drop_first().update(i - 1, (name, cap)));
        lemma_find_name_update(s.drop_first(), name, i - 1, cap);
        assert(find_name(s2, name) == Some(cap)) by {
            assert(s.first().0 != name);
            assert(find_name(s2, name) == find_name(s2.drop_first(), name));
            assert(find_name(s.drop_first().update(i - 1, (name, cap)), name) == Some(cap));
        }
        assert forall|n: Seq<char>|
            n != name implies #[trigger] find_name(s.update(i, (name, cap)), n) == find_name(
            s,
            n,
        ) by {
            if s.first().0 == n {
            } else {
                assert(find_name(s2, n) == find_name(s2.drop_first(), n));
                assert(find_name(s, n) == find_name(s.drop_first(), n));
                assert(find_name(s.drop_first().update(i - 1, (name, cap)), n) == find_name(
                    s.drop_first(),
                    n,
                ));
            }
        }
    }
}

proof fn lemma_find_name_push(s: RegistryM, name: Seq<char>, cap: Capability)
    requires
        forall|j: int| 0 <= j < s.len() ==> s[j].0 != name,
    ensures
        find_name(s.push((name, cap)), name) == Some(cap),
        forall|n: Seq<char>|
            n != name ==> #[trigger] find_name(s.push((name, cap)), n) == find_name(s, n),
    decreases s.len(),
{
    let s2 = s.push((name, cap));
    if s.len() == 0 {
        assert(s2.first() == (name, cap));
        assert forall|n: Seq<char>|
            n != name implies #[trigger] find_name(s.push((name, cap)), n) == find_name(
            s,
            n,
        ) by {
            assert(s2.drop_first() =~= Seq::<(Seq<char>, Capability)>::empty());
            assert(find_name(s2, n) == find_name(s2.drop_first(), n));
            assert(find_name(s2.drop_first(), n) is None);
            assert(find_name(s, n) is None);
        }
    } else {
        assert(s2.first() == s.first());
        assert(s2.drop_first() =~= s.drop_first().push((name, cap)));
        lemma_find_name_push(s.drop_first(), name, cap);
        assert(find_name(s2, name) == Some(cap)) by {
            assert(s[0].0 != name);
            assert(find_name(s2, name) == find_name(s2.drop_first(), name));
            assert(find_name(s.drop_first().push((name, cap)), name) == Some(cap));
        }
        assert forall|n: Seq<char>|
            n != name implies #[trigger] find_name(s.push((name, cap)), n) == find_name(
            s,
            n,
        ) by {
            if s.first().0 == n {
            } else {
                assert(find_name(s2, n) == find_name(s2.drop_first(), n));
                assert(find_name(s, n) == find_name(s.drop_first(), n));
                assert(find_name(s.drop_first().push((name, cap)), n) == find_name(
                    s.drop_first(),
                    n,
                ));
            }
        }
    }
}

proof fn lemma_find_name_remove(s: RegistryM, name: Seq<char>, i: int)
    requires
        0 <= i < s.len(),
        s[i].0 == name,
        forall|j: int| 0 <= j < s.len() && j != i ==> s[j].0 != name,
    ensures
        find_name(s.remove(i), name) is None,
        forall|n: Seq<char>|
            n != name ==> #[trigger] find_name(s.remove(i), n) == find_name(s, n),
    decreases s.len(),
{
    let s2 = s.remove(i);
    if i == 0 {
        assert(s2 =~= s.drop_first());
        lemma_find_name_absent(s.drop_first(), name);
        assert forall|n: Seq<char>|
            n != name implies #[trigger] find_name(s.remove(i), n) == find_name(s, n) by {
            assert(s.first().0 == name);
            assert(find_name(s, n) == find_name(s.drop_first(), n));
        }
    } else {
        assert(s2.first() == s.first());
        assert(s2.drop_first() =~= s.drop_first().remove(i - 1));
        lemma_find_name_remove(s.drop_first(), name, i - 1);
        assert(find_name(s2, name) is None) by {
            assert(s[0].0 != name);
            assert(find_name(s2, name) == find_name(s2.drop_first(), name));
            assert(find_name(s.drop_first().remove(i - 1), name) is None);
        }
        assert forall|n: Seq<char>|
            n != name implies #[trigger] find_name(s.remove(i), n) == find_name(s, n) by {
            if s.first().0 == n {
            } else {
                assert(find_name(s2, n) == find_name(s2.drop_first(), n));
                assert(find_name(s, n) == find_name(s.drop_first(), n));
                assert(find_name(s.drop_first().remove(i - 1), n) == find_name(
                    s.drop_first(),
                    n,
                ));
            }
        }
    }
}

proof fn lemma_find_name_absent(s: RegistryM, name: Seq<char>)
    requires
        forall|j: int| 0 <= j < s.len() ==> s[j].0 != name,
    ensures
        find_name(s, name) is None,
    decreases s.len(),
{
    if s.len() > 0 {
        lemma_find_name_absent(s.drop_first(), name);
    }
}

/// A name that resolves is backed by at least one owned reference on its
/// capability's handle.
pub proof fn lemma_find_name_counted(s: RegistryM, name: Seq<char>)
    requires
        find_name(s, name) is Some,
    ensures
        reg_count(s, find_name(s, name).unwrap().handle) >= 1,
    decreases s.len(),
{
    if s.first().0 == name {
        lemma_reg_count_index(s, 0);
    } else {
        lemma_find_name_counted(s.drop_first(), name);
        lemma_reg_count_prefix(s, name);
    }
}

/// A handle the registry owns counts on is occupied in any store the
/// registry is sound against.
pub proof fn lemma_reg_count_valid(s: RegistryM, m: StoreM, x: usize)
    requires
        reg_valid(s, m),
        reg_count(s, x) >= 1,
    ensures
        valid(m, x),
    decreases s.len(),
{
    if s.last().1.handle == x {
        assert(valid(m, s[s.len() - 1].1.handle));
    } else {
        assert forall|k: int|
            0 <= k < s.drop_last().len() implies valid(
            m,
            (#[trigger] s.drop_last()[k]).1.handle,
        ) by {
            assert(s.drop_last()[k] == s[k]);
            assert(valid(m, s[k].1.handle));
        }
        lemma_reg_count_valid(s.drop_last(), m, x);
    }
}

proof fn lemma_reg_count_prefix(s: RegistryM, name: Seq<char>)
    requires
        s.len() > 0,
    ensures
        forall|x: usize| #[trigger] reg_count(s.drop_first(), x) <= reg_count(s, x),
    decreases s.len(),
{
    if s.len() > 1 {
        lemma_reg_count_prefix(s.drop_last(), name);
        assert forall|x: usize| #[trigger] reg_count(s.drop_first(), x) <= reg_count(s, x) by {
            assert(s.drop_first().drop_last() =~= s.drop_last().drop_first());
            assert(s.drop_first().last() == s.last());
            assert(reg_count(s.drop_last().drop_first(), x) <= reg_count(s.drop_last(), x));
        }
    } else {
        assert forall|x: usize| #[trigger] reg_count(s.drop_first(), x) <= reg_count(s, x) by {
            assert(s.drop_first() =~= Seq::<(Seq<char>, Capability)>::empty());
        }
    }
}

proof fn lemma_reg_count_index(s: RegistryM, i: int)
    requires
        0 <= i < s.len(),
    ensures
        reg_count(s, s[i].1.handle) >= 1,
    decreases s.len(),
{
    if i < s.len() - 1 {
        lemma_reg_count_index(s.drop_last(), i);
    }
}

proof fn lemma_reg_count_as_count(s: RegistryM, handles: Seq<usize>)
    requires
        handles.len() == s.len(),
        forall|j: int| 0 <= j < s.len() ==> handles[j] == (#[trigger] s[j]).1.handle,
    ensures
        forall|x: usize| #[trigger] count_h(handles, x) == reg_count(s, x),
    decreases s.len(),
{
    if s.len() > 0 {
        assert forall|j: int|
            0 <= j < s.drop_last().len() implies handles.drop_last()[j] == (#[trigger] s.drop_last(
        )[j]).1.handle by {
            assert(handles[j] == s[j].1.handle);
        }
        lemma_reg_count_as_count(s.drop_last(), handles.drop_last());
        assert forall|x: usize| #[trigger] count_h(handles, x) == reg_count(s, x) by {
            assert(count_h(handles.drop_last(), x) == reg_count(s.drop_last(), x));
            assert(handles.last() == s[s.len() - 1].1.handle);
        }
    }
}

} // verus!
