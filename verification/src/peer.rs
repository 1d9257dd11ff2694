//! The peer provider: the server's registry of connected peers.

use vstd::prelude::*;

use crate::rpc_types::PeerInfo;
use crate::types::PeerId;

verus! {

/// A peer list with every record of `id` dropped, order kept.
pub open spec fn drop_peer(s: Seq<PeerId>, id: PeerId) -> Seq<PeerId>
    decreases s.len(),
{
    if s.len() == 0 {
        s
    } else if s.last() == id {
        drop_peer(s.drop_last(), id)
    } else {
        drop_peer(s.drop_last(), id).push(s.last())
    }
}

/// Dropping one identifier keeps exactly the other identifiers.
pub proof fn lemma_drop_peer_contains(s: Seq<PeerId>, id: PeerId, p: PeerId)
    ensures
        p != id ==> (drop_peer(s, id).contains(p) <==> s.contains(p)),
        !drop_peer(s, id).contains(id),
    decreases s.len(),
{
    let r = drop_peer(s, id);
    if s.len() > 0 {
        let dl = s.drop_last();
        let rd = drop_peer(dl, id);
        lemma_drop_peer_contains(dl, id, p);
        lemma_drop_peer_contains(dl, id, id);
        assert(s.contains(s.last())) by {
            assert(s[s.len() - 1] == s.last());
        }
        assert forall|q: PeerId| #[trigger] s.contains(q) implies dl.contains(q) || q
            == s.last() by {
            let k = choose|k: int| 0 <= k < s.len() && s[k] == q;
            if k < s.len() - 1 {
                assert(dl[k] == q);
            }
        }
        assert forall|q: PeerId| #[trigger] dl.contains(q) implies s.contains(q) by {
            let k = choose|k: int| 0 <= k < dl.len() && dl[k] == q;
            assert(s[k] == q);
        }
        if s.last() == id {
            assert(r == rd);
        } else {
            assert(r == rd.push(s.last()));
            assert(r.contains(s.last())) by {
                assert(r[r.len() - 1] == s.last());
            }
            assert forall|q: PeerId| #[trigger] r.contains(q) implies rd.contains(q) || q
                == s.last() by {
                let k = choose|k: int| 0 <= k < r.len() && r[k] == q;
                if k < r.len() - 1 {
                    assert(rd[k] == q);
                }
            }
            assert forall|q: PeerId| #[trigger] rd.contains(q) implies r.contains(q) by {
                let k = choose|k: int| 0 <= k < rd.len() && rd[k] == q;
                assert(r[k] == q);
            }
        }
    }
}

/// Tracks the peers in the space and hands out fresh peer identifiers;
/// identifier zero belongs to the server itself, so handed-out ones start
/// after it.
pub struct PeerProviderImpl {
    next_peer: PeerId,
    peers: Vec<(PeerId, PeerInfo)>,
}

impl View for PeerProviderImpl {
    type V = Seq<PeerId>;

    closed spec fn view(&self) -> Seq<PeerId> {
        Seq::new(self.peers@.len(), |i: int| self.peers@[i].0)
    }
}

impl PeerProviderImpl {
    /// A provider with no peers; the first identifier handed out is one.
    pub fn new() -> (r: PeerProviderImpl)
        ensures
            r@.len() == 0,
            r.next_id() == 1,
    {
        PeerProviderImpl { next_peer: PeerId(1), peers: Vec::new() }
    }

    /// The identifier the next peer will get.
    pub closed spec fn next_id(&self) -> u32 {
        self.next_peer.0
    }

    /// Hands out the next peer identifier; identifiers never repeat.
    pub fn get_next_peer(&mut self) -> (r: PeerId)
        requires
            old(self).next_id() < u32::MAX,
        ensures
            r.0 == old(self).next_id(),
            final(self).next_id() == old(self).next_id() + 1,
            final(self)@ == old(self)@,
    {
        let id = self.next_peer;
        self.next_peer = PeerId(self.next_peer.0 + 1);
        id
    }

    /// Records a peer with its metadata.
    pub fn add_peer(&mut self, id: PeerId, info: PeerInfo)
        ensures
            final(self)@ == old(self)@.push(id),
            final(self).next_id() == old(self).next_id(),
    {
        self.peers.push((id, info));
        proof {
            assert(self@ =~= old(self)@.push(id));
        }
    }

    /// Forgets every record of a peer; every other peer is kept, in
    /// order.
    pub fn remove_peer(&mut self, id: PeerId)
        ensures
            final(self)@ == drop_peer(old(self)@, id),
            forall|k: int| 0 <= k < final(self)@.len() ==> #[trigger] final(self)@[k] != id,
            forall|p: PeerId|
                p != id ==> (#[trigger] final(self)@.contains(p) <==> old(self)@.contains(p)),
            final(self).next_id() == old(self).next_id(),
    {
        let ghost s0 = self@;
        let mut kept: Vec<(PeerId, PeerInfo)> = Vec::new();
        let n = self.peers.len();
        let mut i: usize = 0;
        proof {
            assert(s0.take(0) =~= Seq::<PeerId>::empty());
        }
        while i < n
            invariant
                n == self.peers@.len(),
                self@ == s0,
                i <= n,
                Seq::new(kept@.len(), |k: int| kept@[k].0) == drop_peer(s0.take(i as int), id),
            decreases n - i,
        {
            let ghost kpre = Seq::new(kept@.len(), |k: int| kept@[k].0);
            if self.peers[i].0.0 != id.0 {
                let entry = (self.peers[i].0, self.peers[i].1.clone());
                kept.push(entry);
            }
            i = i + 1;
            proof {
                assert(s0.take(i as int).drop_last() =~= s0.take(i - 1));
                assert(s0.take(i as int).last() == s0[i - 1]);
                if self.peers@[i - 1].0.0 != id.0 {
                    assert(s0[i - 1] != id);
                    assert(Seq::new(kept@.len(), |k: int| kept@[k].0) =~= kpre.push(s0[i - 1]));
                } else {
                    assert(s0[i - 1] == id);
                    assert(Seq::new(kept@.len(), |k: int| kept@[k].0) =~= kpre);
                }
            }
        }
        self.peers = kept;
        proof {
            assert(s0.take(n as int) =~= s0);
            assert(self@ =~= drop_peer(s0, id));
            assert forall|k: int| 0 <= k < self@.len() implies #[trigger] self@[k] != id by {
                lemma_drop_peer_contains(s0, id, id);
                if self@[k] == id {
                    assert(self@.contains(id));
                }
            }
            assert forall|p: PeerId|
                p != id implies (#[trigger] self@.contains(p) <==> s0.contains(p)) by {
                lemma_drop_peer_contains(s0, id, p);
            }
        }
    }

    /// Whether a peer is currently recorded.
    pub fn contains_peer(&self, id: PeerId) -> (r: bool)
        ensures
            r == self@.contains(id),
    {
        let n = self.peers.len();
        let mut i: usize = 0;
        while i < n
            invariant
                n == self.peers@.len(),
                i <= n,
                forall|k: int| 0 <= k < i ==> self@[k] != id,
            decreases n - i,
        {
            if self.peers[i].0.0 == id.0 {
                proof {
                    assert(self@[i as int] == id);
                }
                return true;
            }
            i = i + 1;
        }
        proof {
            if self@.contains(id) {
                let k = choose|k: int| 0 <= k < self@.len() && self@[k] == id;
            }
        }
        false
    }
}

} // verus!
