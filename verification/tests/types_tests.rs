//! Identifier types: packing, splitting, permission bits and hex naming.

use hearth::types::{Flags, LocalProcessId, LumpId, PeerId, ProcessId, FLAG_KILL, FLAG_SEND};

#[test]
fn pid_conversion() {
    let tests = &[(0, 0), (420, 69), (100000, 100000)];
    for (peer, pid) in tests.iter() {
        let peer = PeerId(*peer);
        let pid = LocalProcessId(*pid);
        assert_eq!((peer, pid), ProcessId::from_peer_process(peer, pid).split());
    }
}

#[test]
fn pid_packing_is_exact() {
    let packed = ProcessId::from_peer_process(PeerId(1), LocalProcessId(2));
    assert_eq!(packed.0, 0x1_0000_0002);
}

#[test]
fn flag_bits() {
    assert!(Flags::all().has(FLAG_SEND));
    assert!(Flags::all().has(FLAG_KILL));
    assert!(!Flags::empty().has(FLAG_SEND));
    assert_eq!(Flags::all().intersect(Flags(FLAG_KILL)), Flags(FLAG_KILL));
}

#[test]
fn lump_id_hex_is_lowercase_two_digits_per_byte() {
    let id = LumpId([0xab; 32]);
    assert_eq!(id.to_hex(), "ab".repeat(32).into_bytes());

    let mut raw = [0u8; 32];
    raw[0] = 0x01;
    raw[1] = 0x2f;
    raw[31] = 0xf0;
    let hex = LumpId(raw).to_hex();
    assert_eq!(&hex[0..4], b"012f");
    assert_eq!(&hex[62..64], b"f0");
    assert_eq!(hex.len(), 64);
}

#[test]
fn lump_id_matches_compares_contents() {
    let a = LumpId([7; 32]);
    let b = LumpId([7; 32]);
    let mut raw = [7; 32];
    raw[13] = 8;
    let c = LumpId(raw);
    assert!(a.matches(&b));
    assert!(!a.matches(&c));
}
