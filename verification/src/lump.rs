//! The content-addressed lump store: immutable byte blobs named by the
//! 32-byte digest of their contents.

use vstd::prelude::*;

use crate::types::LumpId;

verus! {

/// The digest a lump's contents hash to. Two equal byte strings always
/// name the same lump, on every peer.
pub uninterp spec fn lump_digest(data: Seq<u8>) -> Seq<u8>;

/// Relies on blake3::hash: a 32-byte digest that depends on the input
/// bytes alone.
#[verifier::external_body]
fn hash_bytes(data: &Vec<u8>) -> (r: LumpId)
    ensures
        r.0@ == lump_digest(data@),
        r.0@.len() == 32,
{
    LumpId(*blake3::hash(data.as_slice()).as_bytes())
}

/// The mathematical value of the store: digest-to-contents pairs in
/// insertion order.
pub type LumpStoreM = Seq<(Seq<u8>, Seq<u8>)>;

/// The contents stored under a digest, if any.
pub open spec fn find_lump(s: LumpStoreM, id: Seq<u8>) -> Option<Seq<u8>>
    decreases s.len(),
{
    if s.len() == 0 {
        None
    } else if s.first().0 == id {
        Some(s.first().1)
    } else {
        find_lump(s.drop_first(), id)
    }
}

/// Every stored pair is a digest with its preimage, and no digest repeats.
pub open spec fn lump_store_wf(s: LumpStoreM) -> bool {
    &&& forall|k: int|
        0 <= k < s.len() ==> (#[trigger] s[k]).0 == lump_digest(s[k].1) && s[k].1.len()
            <= u32::MAX
    &&& forall|i: int, j: int| 0 <= i < j < s.len() ==> (#[trigger] s[i]).0 != (#[trigger] s[j]).0
}

/// A content-addressed store of immutable byte blobs.
pub struct LumpStore {
    lumps: Vec<(LumpId, Vec<u8>)>,
}

impl View for LumpStore {
    type V = LumpStoreM;

    closed spec fn view(&self) -> LumpStoreM {
        Seq::new(self.lumps@.len(), |i: int| (self.lumps@[i].0.0@, self.lumps@[i].1@))
    }
}

impl LumpStore {
    /// An empty store.
    pub fn new() -> (r: LumpStore)
        ensures
            r@.len() == 0,
            lump_store_wf(r@),
    {
        LumpStore { lumps: Vec::new() }
    }

    /// Adds a blob under the digest of its contents and returns that
    /// digest. A digest not yet present afterwards names exactly the given
    /// bytes; one already present keeps what it named — under content
    /// addressing the two can only differ through a digest collision.
    pub fn add_lump(&mut self, data: Vec<u8>) -> (id: LumpId)
        requires
            lump_store_wf(old(self)@),
            data@.len() <= u32::MAX,
        ensures
            lump_store_wf(final(self)@),
            id.0@ == lump_digest(data@),
            find_lump(old(self)@, id.0@) is None ==> find_lump(final(self)@, id.0@) == Some(
                data@,
            ),
            find_lump(old(self)@, id.0@) is Some ==> final(self)@ == old(self)@,
            find_lump(final(self)@, id.0@) is Some,
            forall|other: Seq<u8>|
                other != id.0@ ==> #[trigger] find_lump(final(self)@, other) == find_lump(
                    old(self)@,
                    other,
                ),
    {
        let ghost s0 = self@;
        let id = hash_bytes(&data);
        let n = self.lumps.len();
        let mut i: usize = 0;
        while i < n && !self.lumps[i].0.matches(&id)
            invariant
                n == self.lumps@.len(),
                i <= n,
                self@ == s0,
                forall|j: int| 0 <= j < i ==> self@[j].0 != id.0@,
            decreases n - i,
        {
            i = i + 1;
        }
        if i < n {
            proof {
                assert(self@[i as int].0 =~= id.0@);
                lemma_find_lump_index(s0, id.0@, i as int);
            }
            id
        } else {
            proof {
                lemma_find_lump_index(s0, id.0@, n as int);
            }
            self.lumps.push((id, data));
            proof {
                assert(self@ =~= s0.push((id.0@, data@)));
                lemma_find_lump_push(s0, id.0@, data@);
            }
            id
        }
    }

    /// The contents stored under a digest, if present.
    pub fn get_lump(&self, id: &LumpId) -> (r: Option<&Vec<u8>>)
        ensures
            match r {
                Some(data) => find_lump(self@, id.0@) == Some(data@),
                None => find_lump(self@, id.0@) is None,
            },
    {
        let n = self.lumps.len();
        let mut i: usize = 0;
        while i < n && !self.lumps[i].0.matches(id)
            invariant
                n == self.lumps@.len(),
                i <= n,
                forall|j: int| 0 <= j < i ==> self@[j].0 != id.0@,
            decreases n - i,
        {
            i = i + 1;
        }
        proof {
            if i < n {
                assert(self@[i as int].0 =~= id.0@);
            }
            lemma_find_lump_index(self@, id.0@, i as int);
        }
        if i < n {
            Some(&self.lumps[i].1)
        } else {
            None
        }
    }

    /// Whether a digest names a stored lump.
    pub fn contains_lump(&self, id: &LumpId) -> (r: bool)
        ensures
            r == (find_lump(self@, id.0@) is Some),
    {
        match self.get_lump(id) {
            Some(_) => true,
            None => false,
        }
    }
}

proof fn lemma_find_lump_index(s: LumpStoreM, id: Seq<u8>, i: int)
    requires
        0 <= i <= s.len(),
        forall|j: int| 0 <= j < i ==> s[j].0 != id,
        i < s.len() ==> s[i].0 == id,
    ensures
        i < s.len() ==> find_lump(s, id) == Some(s[i].1),
        i == s.len() ==> find_lump(s, id) is None,
    decreases s.len(),
{
    if s.len() > 0 {
        if s.first().0 == id {
        } else {
            assert(i >= 1);
            lemma_find_lump_index(s.drop_first(), id, i - 1);
        }
    }
}

proof fn lemma_find_lump_push(s: LumpStoreM, id: Seq<u8>, data: Seq<u8>)
    requires
        forall|j: int| 0 <= j < s.len() ==> s[j].0 != id,
    ensures
        find_lump(s.push((id, data)), id) == Some(data),
        forall|other: Seq<u8>|
            other != id ==> #[trigger] find_lump(s.push((id, data)), other) == find_lump(s, other),
    decreases s.len(),
{
    let s2 = s.push((id, data));
    if s.len() == 0 {
        assert(s2.first() == (id, data));
        assert forall|other: Seq<u8>|
            other != id implies #[trigger] find_lump(s2, other) == find_lump(s, other) by {
            assert(s2.drop_first() =~= Seq::<(Seq<u8>, Seq<u8>)>::empty());
            assert(find_lump(s2, other) == find_lump(s2.drop_first(), other));
            assert(find_lump(s2.drop_first(), other) is None);
            assert(find_lump(s, other) is None);
        }
    } else {
        assert(s2.first() == s.first());
        assert(s2.drop_first() =~= s.drop_first().push((id, data)));
        lemma_find_lump_push(s.drop_first(), id, data);
        assert(find_lump(s2, id) == Some(data)) by {
            assert(s[0].0 != id);
            assert(find_lump(s2, id) == find_lump(s2.drop_first(), id));
        }
        assert forall|other: Seq<u8>|
            other != id implies #[trigger] find_lump(s2, other) == find_lump(s, other) by {
            if s.first().0 == other {
            } else {
                assert(find_lump(s2, other) == find_lump(s2.drop_first(), other));
                assert(find_lump(s, other) == find_lump(s.drop_first(), other));
                assert(find_lump(s.drop_first().push((id, data)), other) == find_lump(
                    s.drop_first(),
                    other,
                ));
            }
        }
    }
}

} // verus!
