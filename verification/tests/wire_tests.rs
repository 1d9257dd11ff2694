//! The wire codec: every frame kind survives the round trip, and mangled
//! bytes decode to nothing.

use hearth::wire::{decode, encode, Frame, WireCap};

fn roundtrip(f: Frame) {
    let bytes = encode(&f);
    assert_eq!(decode(&bytes), Some(f));
}

#[test]
fn roundtrip_export_root() {
    roundtrip(Frame::ExportRoot { id: 0 });
    roundtrip(Frame::ExportRoot { id: 0xdeadbeef });
}

#[test]
fn roundtrip_revoke_kill_unlink() {
    roundtrip(Frame::Revoke { id: 12 });
    roundtrip(Frame::Kill { id: 0xffffffff });
    roundtrip(Frame::Unlink { subject: 7 });
}

#[test]
fn roundtrip_link() {
    roundtrip(Frame::Link { subject: 3, object: 4 });
}

#[test]
fn roundtrip_send() {
    roundtrip(Frame::Send { id: 9, data: vec![], caps: vec![] });
    roundtrip(Frame::Send {
        id: 1,
        data: vec![0, 1, 2, 254, 255],
        caps: vec![
            WireCap::Export { id: 5, flags: 7 },
            WireCap::Import { id: 0, flags: 1 },
        ],
    });
}

#[test]
fn send_layout_is_length_tag_payload() {
    let bytes = encode(&Frame::ExportRoot { id: 0x01020304 });
    // 4-byte big-endian length of tag plus payload, the tag, then the
    // payload.
    assert_eq!(bytes, vec![0, 0, 0, 5, 0, 1, 2, 3, 4]);
}

#[test]
fn decode_rejects_mangled_frames() {
    assert_eq!(decode(&vec![]), None);
    assert_eq!(decode(&vec![0, 0, 0, 5, 9, 1, 2, 3, 4]), None); // unknown tag
    assert_eq!(decode(&vec![0, 0, 0, 9, 0, 1, 2, 3, 4]), None); // bad length
    let mut bytes = encode(&Frame::Send {
        id: 2,
        data: vec![1],
        caps: vec![WireCap::Export { id: 1, flags: 0 }],
    });
    let n = bytes.len();
    bytes[n - 9] = 3; // capability discriminant out of range
    assert_eq!(decode(&bytes), None);
}
