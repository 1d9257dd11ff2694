//! The content-addressed lump store and the guest-facing handle table.

use hearth::abi::{AbiError, LumpAbi};
use hearth::lump::LumpStore;
use hearth::types::LumpId;

#[test]
fn lump_round_trip() {
    let mut store = LumpStore::new();
    let id = store.add_lump(vec![1, 2, 3]);
    assert_eq!(store.get_lump(&id), Some(&vec![1, 2, 3]));
    assert!(store.contains_lump(&id));
}

#[test]
fn same_contents_same_digest() {
    let mut store = LumpStore::new();
    let a = store.add_lump(vec![9, 9]);
    let b = store.add_lump(vec![9, 9]);
    assert!(a.matches(&b));
    let c = store.add_lump(vec![9]);
    assert!(!a.matches(&c));
}

#[test]
fn empty_lump_digest_is_the_published_one() {
    // The digest of the empty byte string under the store's hash, in the
    // on-disk file-name form.
    let mut store = LumpStore::new();
    let id = store.add_lump(vec![]);
    assert_eq!(
        String::from_utf8(id.to_hex()).unwrap(),
        "af1349b9f5f9a1a6a0404dea36dcc9499bcb25c9adc112b7cc9a93cae41f3262"
    );
}

#[test]
fn unknown_digest_is_absent() {
    let store = LumpStore::new();
    assert_eq!(store.get_lump(&LumpId([0; 32])), None);
}

#[test]
fn abi_load_and_read_back() {
    let mut store = LumpStore::new();
    let mut abi = LumpAbi::new();
    let h = abi.load(&mut store, vec![10, 20, 30]);
    assert_eq!(abi.get_len(h), Ok(3));
    assert_eq!(abi.get_data(h), Ok(&vec![10, 20, 30]));
    let id = abi.get_id(h).unwrap();
    assert_eq!(store.get_lump(&id), Some(&vec![10, 20, 30]));

    let h2 = abi.from_id(&store, id).unwrap();
    assert_eq!(abi.get_data(h2), Ok(&vec![10, 20, 30]));

    assert_eq!(abi.free(h), Ok(()));
    assert_eq!(abi.get_len(h), Err(AbiError::BadHandle));
    assert_eq!(abi.free(h), Err(AbiError::BadHandle));
}

#[test]
fn abi_from_id_fails_for_unknown_lump() {
    let store = LumpStore::new();
    let mut abi = LumpAbi::new();
    assert_eq!(abi.from_id(&store, LumpId([5; 32])), Err(AbiError::UnknownLump));
}

#[test]
fn abi_handles_are_reused_after_free() {
    let mut store = LumpStore::new();
    let mut abi = LumpAbi::new();
    let a = abi.load(&mut store, vec![1]);
    let b = abi.load(&mut store, vec![2]);
    assert_ne!(a, b);
    abi.free(a).unwrap();
    let c = abi.load(&mut store, vec![3]);
    assert_eq!(a, c);
    assert_eq!(abi.get_data(b), Ok(&vec![2]));
}
