//! Identifier types shared by every component of the substrate.

use vstd::prelude::*;

verus! {

/// Permission bit granting the right to send messages through a capability.
pub const FLAG_SEND: u32 = 1;

/// Permission bit granting the right to kill through a capability.
pub const FLAG_KILL: u32 = 2;

/// Permission bit granting the right to link through a capability.
pub const FLAG_LINK: u32 = 4;

/// A set of permission bits carried by a capability.
#[derive(Clone, Copy, Debug, Hash, PartialEq, Eq, Structural)]
pub struct Flags(pub u32);

impl Flags {
    /// The empty permission set.
    pub fn empty() -> (r: Flags)
        ensures
            r.0 == 0,
    {
        Flags(0)
    }

    /// A permission set holding every bit defined here.
    pub fn all() -> (r: Flags)
        ensures
            r.0 == (FLAG_SEND | FLAG_KILL | FLAG_LINK),
    {
        Flags(FLAG_SEND | FLAG_KILL | FLAG_LINK)
    }

    /// True when every bit of `bits` is present in this set.
    pub fn has(&self, bits: u32) -> (r: bool)
        ensures
            r == (self.0 & bits == bits),
    {
        self.0 & bits == bits
    }

    /// The intersection of two permission sets.
    pub fn intersect(&self, other: Flags) -> (r: Flags)
        ensures
            r.0 == (self.0 & other.0),
    {
        Flags(self.0 & other.0)
    }
}

/// A global process identifier: the owning peer in the upper 32 bits, the
/// peer-local process identifier in the lower 32 bits.
#[derive(Clone, Copy, Debug, Hash, PartialEq, Eq, Structural)]
pub struct ProcessId(pub u64);

/// Identifier of one peer in the space.
#[derive(Clone, Copy, Debug, Hash, PartialEq, Eq, Structural)]
pub struct PeerId(pub u32);

/// Identifier of a process local to one peer.
#[derive(Clone, Copy, Debug, Hash, PartialEq, Eq, Structural)]
pub struct LocalProcessId(pub u32);

/// Process-local identifier for a loaded asset.
#[derive(Clone, Copy, Debug, Hash, PartialEq, Eq, Structural)]
pub struct AssetId(pub u32);

/// How a peer and a local process pack into one global identifier.
pub open spec fn pack_pid(peer: u32, pid: u32) -> u64 {
    ((peer as u64) << 32) | (pid as u64)
}

impl ProcessId {
    /// Splits a global identifier into its peer and its local process parts.
    pub fn split(self) -> (r: (PeerId, LocalProcessId))
        ensures
            r.0.0 == (self.0 >> 32) as u32,
            r.1.0 == self.0 as u32,
            self.0 == pack_pid((self.0 >> 32) as u32, self.0 as u32),
    {
        let peer = (self.0 >> 32) as u32;
        let pid = self.0 as u32;
        proof {
            let v = self.0;
            assert(v == (((v >> 32) as u32 as u64) << 32) | (v as u32 as u64)) by (bit_vector);
        }
        (PeerId(peer), LocalProcessId(pid))
    }

    /// Packs a peer and a local process into one global identifier.
    pub fn from_peer_process(peer: PeerId, pid: LocalProcessId) -> (r: Self)
        ensures
            r.0 == pack_pid(peer.0, pid.0),
    {
        Self(((peer.0 as u64) << 32) | (pid.0 as u64))
    }
}

/// Splitting a packed identifier returns the peer and the local process it
/// was packed from.
pub proof fn lemma_pid_pack_split(peer: u32, pid: u32)
    ensures
        (pack_pid(peer, pid) >> 32) as u32 == peer,
        pack_pid(peer, pid) as u32 == pid,
{
    assert(((((peer as u64) << 32) | (pid as u64)) >> 32) as u32 == peer) by (bit_vector);
    assert((((peer as u64) << 32) | (pid as u64)) as u32 == pid) by (bit_vector);
}

/// Identifier for a lump: the 32-byte digest of its contents.
#[derive(Clone, Copy, Debug, Hash, PartialEq, Eq)]
pub struct LumpId(pub [u8; 32]);

/// The lowercase hexadecimal digit for a value below sixteen.
pub open spec fn spec_hex_digit(n: u8) -> u8 {
    if n < 10 {
        (48 + n) as u8
    } else {
        (87 + n) as u8
    }
}

/// The lowercase hexadecimal rendering of a byte sequence, two digits per
/// byte, high digit first.
pub open spec fn spec_hex(s: Seq<u8>) -> Seq<u8>
    decreases s.len(),
{
    if s.len() == 0 {
        Seq::empty()
    } else {
        spec_hex(s.drop_last()).push(spec_hex_digit(s.last() / 16)).push(
            spec_hex_digit(s.last() % 16),
        )
    }
}

/// The hexadecimal digit of a value below sixteen, as an ASCII byte.
fn hex_digit(n: u8) -> (r: u8)
    requires
        n < 16,
    ensures
        r == spec_hex_digit(n),
{
    if n < 10 {
        48 + n
    } else {
        87 + n
    }
}

impl LumpId {
    /// The lowercase-hex rendering of this identifier, as ASCII bytes; lumps
    /// persisted on disk are files named this way.
    pub fn to_hex(&self) -> (r: Vec<u8>)
        ensures
            r@ == spec_hex(self.0@),
    {
        let mut out: Vec<u8> = Vec::new();
        let mut i: usize = 0;
        while i < 32
            invariant
                i <= 32,
                self.0@.len() == 32,
                out@ == spec_hex(self.0@.take(i as int)),
            decreases 32 - i,
        {
            let b = self.0[i];
            out.push(hex_digit(b / 16));
            out.push(hex_digit(b % 16));
            i = i + 1;
            proof {
                let pre = self.0@.take(i as int);
                assert(pre.drop_last() =~= self.0@.take(i - 1));
                assert(pre.last() == self.0@[i - 1]);
            }
        }
        proof {
            assert(self.0@.take(32) =~= self.0@);
        }
        out
    }

    /// True when two identifiers hold the same digest.
    pub fn matches(&self, other: &LumpId) -> (r: bool)
        ensures
            r == (self.0@ =~= other.0@),
    {
        let mut i: usize = 0;
        while i < 32
            invariant
                i <= 32,
                self.0@.len() == 32,
                other.0@.len() == 32,
                forall|j: int| 0 <= j < i ==> self.0@[j] == other.0@[j],
            decreases 32 - i,
        {
            if self.0[i] != other.0[i] {
                return false;
            }
            i = i + 1;
        }
        true
    }
}

} // verus!
