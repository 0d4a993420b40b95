//! Identity persistence decisions: load the node's keypair from its stored
//! encoding, or generate one and hand back the encoding to store.
//!
//! The peer identifier is always derived from the encoded form of the
//! keypair, the form that is stored, so the identifier a node announces is
//! the one it will load again after a restart. Stored bytes that do not
//! decode are an error: a replacement is never generated for them. Without
//! a stored keypair a fresh one is always produced.

use vstd::prelude::*;
use libp2p_identity::Keypair;

verus! {

#[verifier::external_type_specification]
#[verifier::external_body]
pub struct ExKeypair(Keypair);

/// The peer identifier (its byte form) of the keypair whose protobuf
/// encoding is `encoding`, or `None` when `encoding` does not decode.
pub uninterp spec fn encoded_peer_id(encoding: Seq<u8>) -> Option<Seq<u8>>;

/// Relies on `Keypair::from_protobuf_encoding`, then `PublicKey::to_peer_id`
/// and `PeerId::to_bytes` on the decoded keypair: the keypair with its peer
/// identifier, or `None` when the bytes do not decode. Both depend on the
/// bytes alone.
#[verifier::external_body]
fn decode_keypair(encoding: &[u8]) -> (r: Option<(Keypair, Vec<u8>)>)
    ensures
        r is Some <==> encoded_peer_id(encoding@) is Some,
        r matches Some(p) ==> encoded_peer_id(encoding@) == Some(p.1@),
{
    match Keypair::from_protobuf_encoding(encoding) {
        Ok(k) => {
            let id = k.public().to_peer_id().to_bytes();
            Some((k, id))
        },
        Err(_) => None,
    }
}

/// Relies on `Keypair::generate_ed25519` (a fresh Ed25519 keypair from the
/// operating system's secure random source) and `Keypair::to_protobuf_encoding`:
/// the new keypair's protobuf encoding. An Ed25519 keypair always encodes, and
/// its encoding (secret and matching public half) always decodes again.
#[verifier::external_body]
fn generate_keypair_encoding() -> (r: Option<Vec<u8>>)
    ensures
        r is Some,
        r matches Some(b) ==> encoded_peer_id(b@) is Some,
{
    Keypair::generate_ed25519().to_protobuf_encoding().ok()
}

/// Why no identity is available.
#[derive(Debug, Clone, Copy, PartialEq, Eq, Structural)]
pub enum IdentityError {
    /// The stored keypair does not decode (truncated or corrupt file).
    Corrupt,
}

/// A node's keypair and the byte form of its peer identifier.
pub struct NodeIdentity {
    pub keypair: Keypair,
    pub peer_id: Vec<u8>,
}

/// The identity to run with, and the bytes to store first when the identity
/// is new.
pub struct IdentityOutcome {
    pub identity: NodeIdentity,
    pub to_write: Option<Vec<u8>>,
}

/// The peer identifier loading `stored` gives, or why it fails.
pub open spec fn load_spec(stored: Seq<u8>) -> Result<Seq<u8>, IdentityError> {
    match encoded_peer_id(stored) {
        Some(p) => Ok(p),
        None => Err(IdentityError::Corrupt),
    }
}

/// Loads an identity from its stored encoding.
pub fn load_identity(stored: &Vec<u8>) -> (r: Result<NodeIdentity, IdentityError>)
    ensures
        r is Ok <==> load_spec(stored@) is Ok,
        r matches Ok(id) ==> load_spec(stored@) == Ok::<Seq<u8>, IdentityError>(id.peer_id@),
        r matches Err(e) ==> load_spec(stored@) == Err::<Seq<u8>, IdentityError>(e),
{
    match decode_keypair(stored.as_slice()) {
        Some(p) => {
            let (keypair, peer_id) = p;
            Ok(NodeIdentity { keypair, peer_id })
        },
        None => Err(IdentityError::Corrupt),
    }
}

/// The node's identity given the stored encoding, if a stored one exists.
///
/// With stored bytes the identity is loaded from them, and nothing is to be
/// written; bytes that do not decode give `Corrupt`, never a new identity.
/// Without stored bytes a fresh keypair is generated, and the outcome holds
/// the encoding to store, which loads back to the same peer identifier.
pub fn load_or_generate_identity(stored: Option<Vec<u8>>) -> (r: Result<IdentityOutcome, IdentityError>)
    ensures
        stored matches Some(b) ==> (r is Ok <==> load_spec(b@) is Ok),
        stored matches Some(b) ==> (r matches Ok(o) ==> (o.to_write is None && load_spec(b@)
            == Ok::<Seq<u8>, IdentityError>(o.identity.peer_id@))),
        stored matches Some(b) ==> (r matches Err(e) ==> e == IdentityError::Corrupt),
        stored is None ==> r is Ok,
        stored is None ==> (r matches Ok(o) ==> (o.to_write matches Some(w) && load_spec(w@)
            == Ok::<Seq<u8>, IdentityError>(o.identity.peer_id@))),
{
    match stored {
        Some(b) => match load_identity(&b) {
            Ok(identity) => Ok(IdentityOutcome { identity, to_write: None }),
            Err(e) => Err(e),
        },
        None => match generate_keypair_encoding() {
            Some(bytes) => match load_identity(&bytes) {
                Ok(identity) => Ok(IdentityOutcome { identity, to_write: Some(bytes) }),
                Err(_) => vstd::pervasive::unreached(),
            },
            None => vstd::pervasive::unreached(),
        },
    }
}

} // verus!
