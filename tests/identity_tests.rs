use libp2p_identity::Keypair;
use xchangefs::identity::{load_identity, load_or_generate_identity, IdentityError};

#[test]
fn generated_identity_round_trips() {
    let fresh = load_or_generate_identity(None).ok().unwrap();
    let written = fresh.to_write.clone().unwrap();
    let loaded = load_or_generate_identity(Some(written)).ok().unwrap();
    assert_eq!(loaded.identity.peer_id, fresh.identity.peer_id);
    assert!(loaded.to_write.is_none());
    let expected = fresh.identity.keypair.public().to_peer_id().to_bytes();
    assert_eq!(fresh.identity.peer_id, expected);
}

#[test]
fn fresh_identity_encoding_is_libp2p_keypair() {
    let fresh = load_or_generate_identity(None).ok().unwrap();
    let written = fresh.to_write.unwrap();
    let decoded = Keypair::from_protobuf_encoding(&written).unwrap();
    assert_eq!(decoded.public().to_peer_id().to_bytes(), fresh.identity.peer_id);
    let again = load_or_generate_identity(None).ok().unwrap();
    assert_ne!(again.identity.peer_id, fresh.identity.peer_id);
}

#[test]
fn truncated_identity_is_corrupt() {
    let k = Keypair::generate_ed25519();
    let mut bytes = k.to_protobuf_encoding().unwrap();
    bytes.truncate(bytes.len() / 2);
    assert_eq!(load_identity(&bytes).err(), Some(IdentityError::Corrupt));
    let r = load_or_generate_identity(Some(bytes));
    assert_eq!(r.err(), Some(IdentityError::Corrupt));
}

#[test]
fn garbage_identity_is_corrupt() {
    assert_eq!(load_identity(&vec![1, 2, 3]).err(), Some(IdentityError::Corrupt));
    assert_eq!(load_identity(&Vec::new()).err(), Some(IdentityError::Corrupt));
}
