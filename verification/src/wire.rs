//! The wire form of connection frames.
//!
//! A frame is a 4-byte big-endian length covering the tag and the payload,
//! one tag byte, and the payload. A capability inside a send frame is one
//! discriminant byte — zero for a capability exported by the sender, one
//! for a capability the receiver itself exported — followed by a 4-byte
//! identifier and a 4-byte permission mask.

use vstd::prelude::*;

verus! {

/// A capability as it crosses the wire, in the sender's namespace.
#[derive(Clone, Copy, Debug, PartialEq, Eq, Structural)]
pub enum WireCap {
    /// A capability the sender exports: the receiver resolves or creates
    /// an import under this identifier.
    Export { id: u32, flags: u32 },
    /// A capability the receiver once exported: the receiver resolves it
    /// by its own export table, preserving identity.
    Import { id: u32, flags: u32 },
}

/// The mathematical value of a frame.
pub ghost enum FrameM {
    ExportRoot { id: u32 },
    Send { id: u32, data: Seq<u8>, caps: Seq<WireCap> },
    Revoke { id: u32 },
    Kill { id: u32 },
    Link { subject: u32, object: u32 },
    Unlink { subject: u32 },
}

/// A frame of the connection protocol.
#[derive(Debug, PartialEq, Eq)]
pub enum Frame {
    /// Offers the peer an initial capability under `id` in the sender's
    /// namespace: the sole bootstrap of authority.
    ExportRoot { id: u32 },
    /// Delivers a message to the entry the receiver exported as `id`.
    Send { id: u32, data: Vec<u8>, caps: Vec<WireCap> },
    /// The sender holds no more references to the receiver's export `id`.
    Revoke { id: u32 },
    /// Requests a kill of the referent of the receiver's export `id`.
    Kill { id: u32 },
    /// Requests a link between two of the receiver's exports.
    Link { subject: u32, object: u32 },
    /// Delivers an unlink for the subject the sender exported as `id`.
    Unlink { subject: u32 },
}

impl View for Frame {
    type V = FrameM;

    open spec fn view(&self) -> FrameM {
        match self {
            Frame::ExportRoot { id } => FrameM::ExportRoot { id: *id },
            Frame::Send { id, data, caps } => FrameM::Send {
                id: *id,
                data: data@,
                caps: caps@,
            },
            Frame::Revoke { id } => FrameM::Revoke { id: *id },
            Frame::Kill { id } => FrameM::Kill { id: *id },
            Frame::Link { subject, object } => FrameM::Link {
                subject: *subject,
                object: *object,
            },
            Frame::Unlink { subject } => FrameM::Unlink { subject: *subject },
        }
    }
}

/// The four big-endian bytes of a 32-bit value.
pub open spec fn be32(x: u32) -> Seq<u8> {
    seq![(x >> 24) as u8, (x >> 16) as u8, (x >> 8) as u8, x as u8]
}

/// The 32-bit value read from four big-endian bytes.
pub open spec fn from32(s: Seq<u8>) -> u32 {
    (((s[0] as u32) << 24) | ((s[1] as u32) << 16) | ((s[2] as u32) << 8) | (s[3] as u32)) as u32
}

/// Reading back the four bytes of a value gives the value.
pub proof fn lemma_be32_roundtrip(x: u32)
    ensures
        from32(be32(x)) == x,
{
    assert((((((x >> 24) as u8) as u32) << 24) | ((((x >> 16) as u8) as u32) << 16) | ((((x >> 8)
        as u8) as u32) << 8) | ((x as u8) as u32)) as u32 == x) by (bit_vector);
}

/// The nine wire bytes of one capability.
pub open spec fn enc_cap(c: WireCap) -> Seq<u8> {
    match c {
        WireCap::Export { id, flags } => seq![0u8] + be32(id) + be32(flags),
        WireCap::Import { id, flags } => seq![1u8] + be32(id) + be32(flags),
    }
}

/// The wire bytes of a capability list, in order.
pub open spec fn enc_caps(cs: Seq<WireCap>) -> Seq<u8>
    decreases cs.len(),
{
    if cs.len() == 0 {
        Seq::empty()
    } else {
        enc_caps(cs.drop_last()) + enc_cap(cs.last())
    }
}

/// The tag byte of a frame.
pub open spec fn frame_tag(f: FrameM) -> u8 {
    match f {
        FrameM::ExportRoot { .. } => 0,
        FrameM::Send { .. } => 1,
        FrameM::Revoke { .. } => 2,
        FrameM::Kill { .. } => 3,
        FrameM::Link { .. } => 4,
        FrameM::Unlink { .. } => 5,
    }
}

/// The payload bytes of a frame, after the tag.
pub open spec fn frame_payload(f: FrameM) -> Seq<u8> {
    match f {
        FrameM::ExportRoot { id } => be32(id),
        FrameM::Send { id, data, caps } => be32(id) + be32(data.len() as u32) + data + be32(
            caps.len() as u32,
        ) + enc_caps(caps),
        FrameM::Revoke { id } => be32(id),
        FrameM::Kill { id } => be32(id),
        FrameM::Link { subject, object } => be32(subject) + be32(object),
        FrameM::Unlink { subject } => be32(subject),
    }
}

/// Size bounds under which a frame fits its length prefix.
pub open spec fn frame_wf(f: FrameM) -> bool {
    match f {
        FrameM::Send { id, data, caps } => data.len() < 0x1000000 && caps.len() < 0x100000,
        _ => true,
    }
}

/// The full wire form: length, tag, payload.
pub open spec fn spec_encode(f: FrameM) -> Seq<u8> {
    be32((1 + frame_payload(f).len()) as u32) + seq![frame_tag(f)] + frame_payload(f)
}

/// One capability read back from nine wire bytes.
pub open spec fn dec_cap(s: Seq<u8>) -> Option<WireCap> {
    if s[0] == 0 {
        Some(WireCap::Export { id: from32(s.subrange(1, 5)), flags: from32(s.subrange(5, 9)) })
    } else if s[0] == 1 {
        Some(WireCap::Import { id: from32(s.subrange(1, 5)), flags: from32(s.subrange(5, 9)) })
    } else {
        None
    }
}

/// A capability list read back from `n` nine-byte groups.
pub open spec fn dec_caps(s: Seq<u8>, n: nat) -> Option<Seq<WireCap>>
    decreases n,
{
    if n == 0 {
        Some(Seq::empty())
    } else {
        match dec_caps(s, (n - 1) as nat) {
            Some(pre) => match dec_cap(s.subrange(9 * (n - 1), 9 * n as int)) {
                Some(c) => Some(pre.push(c)),
                None => None,
            },
            None => None,
        }
    }
}

/// What a well-formed byte string decodes to: the inverse of the encoding.
pub open spec fn spec_decode(b: Seq<u8>) -> Option<FrameM> {
    if b.len() < 5 {
        None
    } else if from32(b.subrange(0, 4)) != (b.len() - 4) as u32 || b.len() - 4 > 0x80000000int {
        None
    } else {
        let p = b.skip(5);
        let tag = b[4];
        if tag == 0 && p.len() == 4 {
            Some(FrameM::ExportRoot { id: from32(p) })
        } else if tag == 2 && p.len() == 4 {
            Some(FrameM::Revoke { id: from32(p) })
        } else if tag == 3 && p.len() == 4 {
            Some(FrameM::Kill { id: from32(p) })
        } else if tag == 5 && p.len() == 4 {
            Some(FrameM::Unlink { subject: from32(p) })
        } else if tag == 4 && p.len() == 8 {
            Some(FrameM::Link { subject: from32(p.subrange(0, 4)), object: from32(p.subrange(4, 8)) })
        } else if tag == 1 && p.len() >= 12 {
            let id = from32(p.subrange(0, 4));
            let dlen = from32(p.subrange(4, 8)) as int;
            if p.len() >= 12 + dlen {
                let data = p.subrange(8, 8 + dlen);
                let ncaps = from32(p.subrange(8 + dlen, 12 + dlen)) as int;
                if p.len() == 12 + dlen + 9 * ncaps {
                    match dec_caps(p.skip(12 + dlen), ncaps as nat) {
                        Some(caps) => Some(FrameM::Send { id, data, caps }),
                        None => None,
                    }
                } else {
                    None
                }
            } else {
                None
            }
        } else {
            None
        }
    }
}

/// The encoding of a capability list is nine bytes per capability.
pub proof fn lemma_enc_caps_len(cs: Seq<WireCap>)
    ensures
        enc_caps(cs).len() == 9 * cs.len(),
    decreases cs.len(),
{
    if cs.len() > 0 {
        lemma_enc_caps_len(cs.drop_last());
    }
}

/// One encoded capability decodes back to itself.
proof fn lemma_cap_roundtrip(c: WireCap)
    ensures
        dec_cap(enc_cap(c)) == Some(c),
{
    match c {
        WireCap::Export { id, flags } => {
            let s = enc_cap(c);
            assert(s[0] == 0);
            assert(s.subrange(1, 5) =~= be32(id));
            assert(s.subrange(5, 9) =~= be32(flags));
            lemma_be32_roundtrip(id);
            lemma_be32_roundtrip(flags);
        },
        WireCap::Import { id, flags } => {
            let s = enc_cap(c);
            assert(s[0] == 1);
            assert(s.subrange(1, 5) =~= be32(id));
            assert(s.subrange(5, 9) =~= be32(flags));
            lemma_be32_roundtrip(id);
            lemma_be32_roundtrip(flags);
        },
    }
}

/// The bytes of the `j`-th capability in an encoded list are that
/// capability's own nine bytes.
proof fn lemma_enc_caps_group(cs: Seq<WireCap>, j: int)
    requires
        0 <= j < cs.len(),
    ensures
        enc_caps(cs).subrange(9 * j, 9 * j + 9) =~= enc_cap(cs[j]),
    decreases cs.len(),
{
    lemma_enc_caps_len(cs);
    lemma_enc_caps_len(cs.drop_last());
    if j == cs.len() - 1 {
        assert(enc_caps(cs).subrange(9 * j, 9 * j + 9) =~= enc_cap(cs.last()));
    } else {
        lemma_enc_caps_group(cs.drop_last(), j);
        assert(enc_caps(cs).subrange(9 * j, 9 * j + 9) =~= enc_caps(cs.drop_last()).subrange(
            9 * j,
            9 * j + 9,
        ));
    }
}

/// Reading `k` groups out of an encoded capability list gives its first
/// `k` capabilities back.
proof fn lemma_caps_roundtrip(cs: Seq<WireCap>, k: nat)
    requires
        k <= cs.len(),
    ensures
        dec_caps(enc_caps(cs), k) == Some(cs.take(k as int)),
    decreases k,
{
    if k == 0 {
        assert(cs.take(0) =~= Seq::<WireCap>::empty());
    } else {
        lemma_caps_roundtrip(cs, (k - 1) as nat);
        lemma_enc_caps_group(cs, k - 1);
        lemma_cap_roundtrip(cs[k - 1]);
        assert(dec_cap(enc_caps(cs).subrange(9 * (k - 1), 9 * k as int)) == Some(cs[k - 1]));
        assert(cs.take((k - 1) as int).push(cs[k - 1]) =~= cs.take(k as int));
    }
}

/// The wire form is faithful: decoding what was encoded gives the frame
/// back, for every frame within the size bounds.
pub proof fn lemma_wire_roundtrip(f: FrameM)
    requires
        frame_wf(f),
    ensures
        spec_decode(spec_encode(f)) == Some(f),
{
    let pl = frame_payload(f);
    let b = spec_encode(f);
    if let FrameM::Send { id, data, caps } = f {
        lemma_enc_caps_len(caps);
    }
    assert(pl.len() < 0x7fffffff);
    let len32 = (1 + pl.len()) as u32;
    assert(b.len() == 5 + pl.len());
    assert(b.subrange(0, 4) =~= be32(len32));
    lemma_be32_roundtrip(len32);
    assert(b[4] == frame_tag(f));
    let p = b.skip(5);
    assert(p =~= pl);
    match f {
        FrameM::ExportRoot { id } => {
            assert(p =~= be32(id));
            lemma_be32_roundtrip(id);
        },
        FrameM::Revoke { id } => {
            assert(p =~= be32(id));
            lemma_be32_roundtrip(id);
        },
        FrameM::Kill { id } => {
            assert(p =~= be32(id));
            lemma_be32_roundtrip(id);
        },
        FrameM::Unlink { subject } => {
            assert(p =~= be32(subject));
            lemma_be32_roundtrip(subject);
        },
        FrameM::Link { subject, object } => {
            assert(p.subrange(0, 4) =~= be32(subject));
            assert(p.subrange(4, 8) =~= be32(object));
            lemma_be32_roundtrip(subject);
            lemma_be32_roundtrip(object);
        },
        FrameM::Send { id, data, caps } => {
            lemma_enc_caps_len(caps);
            let dl = data.len() as int;
            let cl = caps.len() as int;
            assert(p.len() == 12 + dl + 9 * cl);
            assert(p.subrange(0, 4) =~= be32(id));
            lemma_be32_roundtrip(id);
            assert(p.subrange(4, 8) =~= be32(data.len() as u32));
            lemma_be32_roundtrip(data.len() as u32);
            assert(p.subrange(8, 8 + dl) =~= data);
            assert(p.subrange(8 + dl, 12 + dl) =~= be32(caps.len() as u32));
            lemma_be32_roundtrip(caps.len() as u32);
            assert(p.skip(12 + dl) =~= enc_caps(caps));
            lemma_caps_roundtrip(caps, caps.len());
            assert(caps.take(cl) =~= caps);
        },
    }
}

/// Appends the four big-endian bytes of a value.
fn push_be32(out: &mut Vec<u8>, x: u32)
    ensures
        final(out)@ == old(out)@ + be32(x),
{
    out.push((x >> 24) as u8);
    out.push((x >> 16) as u8);
    out.push((x >> 8) as u8);
    out.push(x as u8);
    proof {
        assert(final(out)@ =~= old(out)@ + be32(x));
    }
}

/// Encodes one frame into its wire form.
pub fn encode(f: &Frame) -> (out: Vec<u8>)
    requires
        frame_wf(f@),
    ensures
        out@ == spec_encode(f@),
{
    let mut payload: Vec<u8> = Vec::new();
    match f {
        Frame::ExportRoot { id } => push_be32(&mut payload, *id),
        Frame::Revoke { id } => push_be32(&mut payload, *id),
        Frame::Kill { id } => push_be32(&mut payload, *id),
        Frame::Unlink { subject } => push_be32(&mut payload, *subject),
        Frame::Link { subject, object } => {
            push_be32(&mut payload, *subject);
            push_be32(&mut payload, *object);
        },
        Frame::Send { id, data, caps } => {
            push_be32(&mut payload, *id);
            push_be32(&mut payload, data.len() as u32);
            let mut i: usize = 0;
            let dn = data.len();
            while i < dn
                invariant
                    dn == data.len(),
                    i <= dn,
                    payload@ == be32(*id) + be32(dn as u32) + data@.take(i as int),
                decreases dn - i,
            {
                payload.push(data[i]);
                i = i + 1;
                proof {
                    assert(payload@ =~= be32(*id) + be32(dn as u32) + data@.take(i as int));
                }
            }
            proof {
                assert(data@.take(dn as int) =~= data@);
            }
            push_be32(&mut payload, caps.len() as u32);
            let cn = caps.len();
            let mut k: usize = 0;
            while k < cn
                invariant
                    cn == caps.len(),
                    k <= cn,
                    payload@ == be32(*id) + be32(data@.len() as u32) + data@ + be32(cn as u32)
                        + enc_caps(caps@.take(k as int)),
                decreases cn - k,
            {
                let ghost pre = payload@;
                match caps[k] {
                    WireCap::Export { id: cid, flags } => {
                        payload.push(0u8);
                        push_be32(&mut payload, cid);
                        push_be32(&mut payload, flags);
                    },
                    WireCap::Import { id: cid, flags } => {
                        payload.push(1u8);
                        push_be32(&mut payload, cid);
                        push_be32(&mut payload, flags);
                    },
                }
                k = k + 1;
                proof {
                    assert(payload@ =~= pre + enc_cap(caps@[k - 1]));
                    assert(caps@.take(k as int).drop_last() =~= caps@.take(k - 1));
                    assert(enc_caps(caps@.take(k as int)) =~= enc_caps(caps@.take(k - 1))
                        + enc_cap(caps@[k - 1]));
                    assert(payload@ =~= be32(*id) + be32(data@.len() as u32) + data@ + be32(
                        cn as u32,
                    ) + enc_caps(caps@.take(k as int)));
                }
            }
            proof {
                assert(caps@.take(cn as int) =~= caps@);
            }
        },
    }
    proof {
        assert(payload@ == frame_payload(f@));
        if let FrameM::Send { id, data, caps } = f@ {
            lemma_enc_caps_len(caps);
        }
        assert(payload@.len() < 0x80000000);
    }
    let mut out: Vec<u8> = Vec::new();
    push_be32(&mut out, (payload.len() + 1) as u32);
    match f {
        Frame::ExportRoot { .. } => out.push(0u8),
        Frame::Send { .. } => out.push(1u8),
        Frame::Revoke { .. } => out.push(2u8),
        Frame::Kill { .. } => out.push(3u8),
        Frame::Link { .. } => out.push(4u8),
        Frame::Unlink { .. } => out.push(5u8),
    }
    let mut p = payload;
    out.append(&mut p);
    proof {
        assert(out@ =~= spec_encode(f@));
    }
    out
}

/// Reads the 32-bit value at `at`.
fn read_be32(b: &Vec<u8>, at: usize) -> (r: u32)
    requires
        at + 4 <= b@.len(),
        b@.len() <= usize::MAX,
    ensures
        r == from32(b@.subrange(at as int, at + 4)),
{
    let r = ((b[at] as u32) << 24) | ((b[at + 1] as u32) << 16) | ((b[at + 2] as u32) << 8) | (b[at
        + 3] as u32);
    proof {
        let s = b@.subrange(at as int, at + 4);
        assert(s[0] == b@[at as int]);
        assert(s[1] == b@[at + 1]);
        assert(s[2] == b@[at + 2]);
        assert(s[3] == b@[at + 3]);
    }
    r
}

/// Decodes one complete frame; nothing for any byte string that is not
/// exactly the wire form of a frame.
pub fn decode(b: &Vec<u8>) -> (r: Option<Frame>)
    ensures
        match r {
            Some(f) => spec_decode(b@) == Some(f@),
            None => spec_decode(b@) is None,
        },
{
    let n = b.len();
    if n < 5 {
        return None;
    }
    let len = read_be32(b, 0);
    if len as usize != n - 4 || n - 4 > 0x80000000usize {
        proof {
            assert(b@.subrange(0, 4) =~= b@.subrange(0int, 4int));
        }
        return None;
    }
    let tag = b[4];
    let ghost p = b@.skip(5);
    proof {
        assert(p.len() == n - 5);
    }
    if tag == 0 && n == 9 {
        let id = read_be32(b, 5);
        proof {
            assert(b@.subrange(5int, 9int) =~= p);
        }
        Some(Frame::ExportRoot { id })
    } else if tag == 2 && n == 9 {
        let id = read_be32(b, 5);
        proof {
            assert(b@.subrange(5int, 9int) =~= p);
        }
        Some(Frame::Revoke { id })
    } else if tag == 3 && n == 9 {
        let id = read_be32(b, 5);
        proof {
            assert(b@.subrange(5int, 9int) =~= p);
        }
        Some(Frame::Kill { id })
    } else if tag == 5 && n == 9 {
        let id = read_be32(b, 5);
        proof {
            assert(b@.subrange(5int, 9int) =~= p);
        }
        Some(Frame::Unlink { subject: id })
    } else if tag == 4 && n == 13 {
        let subject = read_be32(b, 5);
        let object = read_be32(b, 9);
        proof {
            assert(b@.subrange(5int, 9int) =~= p.subrange(0, 4));
            assert(b@.subrange(9int, 13int) =~= p.subrange(4, 8));
        }
        Some(Frame::Link { subject, object })
    } else if tag == 1 && n >= 17 {
        let id = read_be32(b, 5);
        let dlen32 = read_be32(b, 9);
        proof {
            assert(b@.subrange(5int, 9int) =~= p.subrange(0, 4));
            assert(b@.subrange(9int, 13int) =~= p.subrange(4, 8));
        }
        let dlen = dlen32 as usize;
        if n - 17 < dlen {
            return None;
        }
        let mut data: Vec<u8> = Vec::new();
        let mut i: usize = 0;
        while i < dlen
            invariant
                dlen + 17 <= n,
                n == b@.len(),
                i <= dlen,
                data@ == b@.subrange(13, 13 + i as int),
            decreases dlen - i,
        {
            data.push(b[13 + i]);
            i = i + 1;
            proof {
                assert(data@ =~= b@.subrange(13, 13 + i as int));
            }
        }
        proof {
            assert(data@ =~= p.subrange(8, 8 + dlen as int));
        }
        let ncaps32 = read_be32(b, 13 + dlen);
        proof {
            assert(b@.subrange(13 + dlen, 17 + dlen) =~= p.subrange(
                8 + dlen as int,
                12 + dlen as int,
            ));
        }
        let ncaps = ncaps32 as usize;
        if (ncaps32 as u64) * 9 != ((n - 17 - dlen) as u64) {
            return None;
        }
        let ghost caps_bytes = p.skip(12 + dlen as int);
        let mut caps: Vec<WireCap> = Vec::new();
        let mut k: usize = 0;
        proof {
            assert(caps_bytes =~= b@.skip(17 + dlen as int));
        }
        while k < ncaps
            invariant
                n == b@.len(),
                n >= 17,
                17 + dlen + 9 * ncaps == n,
                p == b@.skip(5),
                p.len() == n - 5,
                b@[4] == 1,
                from32(b@.subrange(0, 4)) == (n - 4) as u32,
                n - 4 <= 0x80000000,
                from32(p.subrange(4, 8)) as int == dlen as int,
                from32(p.subrange(8 + dlen as int, 12 + dlen as int)) as int == ncaps as int,
                caps_bytes == b@.skip(17 + dlen as int),
                caps_bytes == p.skip(12 + dlen as int),
                k <= ncaps,
                dec_caps(caps_bytes, k as nat) == Some(caps@),
            decreases ncaps - k,
        {
            let base = 17 + dlen + 9 * k;
            let disc = b[base];
            if disc > 1 {
                proof {
                    assert(caps_bytes.subrange(9 * (k as int), 9 * (k + 1) as int)[0] == b@[base
                        as int]);
                    lemma_dec_caps_fail(caps_bytes, k as nat, ncaps as nat);
                    assert(p.len() == 12 + dlen + 9 * (ncaps as int));
                    assert(dec_caps(p.skip(12 + dlen as int), ncaps as nat) is None);
                    assert(spec_decode(b@) is None);
                }
                return None;
            }
            let cid = read_be32(b, base + 1);
            let cflags = read_be32(b, base + 5);
            let c = if disc == 0 {
                WireCap::Export { id: cid, flags: cflags }
            } else {
                WireCap::Import { id: cid, flags: cflags }
            };
            caps.push(c);
            k = k + 1;
            proof {
                let grp = caps_bytes.subrange(9 * (k - 1), 9 * (k as int));
                assert(grp[0] == b@[base as int]);
                assert(grp.subrange(1, 5) =~= b@.subrange(base + 1, base + 5));
                assert(grp.subrange(5, 9) =~= b@.subrange(base + 5, base + 9));
                assert(dec_cap(grp) == Some(c));
            }
        }
        proof {
            assert(p.len() == 12 + dlen + 9 * ncaps);
        }
        Some(Frame::Send { id, data, caps })
    } else {
        None
    }
}

/// Undecodable capability bytes stay undecodable under more groups.
proof fn lemma_dec_caps_fail(s: Seq<u8>, k: nat, n: nat)
    requires
        k < n,
        dec_cap(s.subrange(9 * k as int, 9 * (k + 1) as int)) is None,
    ensures
        dec_caps(s, n) is None,
    decreases n,
{
    if n - 1 > k {
        lemma_dec_caps_fail(s, k, (n - 1) as nat);
    }
}

} // verus!
