//! The bridge between the application's Ed25519 keys and libp2p identities.
use libp2p::identity::{ed25519, Keypair};
use vstd::prelude::*;
use vstd::string::StringExecFns;

verus! {

/// An application public key: the 32 bytes of an Ed25519 public key.
pub type PublicKeyBytes = Vec<u8>;

/// An application private key: the 32 bytes of an Ed25519 secret key.
pub type PrivateKeyBytes = Vec<u8>;

/// Whether libp2p accepts the bytes as an Ed25519 public key (32 bytes that
/// encode a curve point).
pub uninterp spec fn key_is_valid(public_key: Seq<u8>) -> bool;

/// The text of the error with which libp2p refuses the bytes as an Ed25519
/// public key.
pub uninterp spec fn key_decode_error(public_key: Seq<u8>) -> Seq<char>;

/// The error for bytes that are no public key: a fixed prefix, then the
/// decoder's own text.
pub open spec fn invalid_key_error(public_key: Seq<u8>) -> Seq<char> {
    "invalid public key: "@ + key_decode_error(public_key)
}

/// The error for a key pair that does not decode.
pub open spec fn invalid_keypair_text() -> Seq<char> {
    "invalid public/private keypair was given."@
}

/// What precedes the key in its peer id: the identity multihash header (code
/// 0, length 36) and the protobuf header of an Ed25519 key (type 1, 32 bytes).
pub open spec fn peer_id_header() -> Seq<u8> {
    seq![0x00u8, 0x24u8, 0x08u8, 0x01u8, 0x12u8, 0x20u8]
}

/// The libp2p peer id (in its byte encoding) that a public key derives, or
/// `None` where the bytes are no Ed25519 public key.
pub open spec fn peer_id_of(public_key: Seq<u8>) -> Option<Seq<u8>> {
    if key_is_valid(public_key) {
        Some(peer_id_header() + public_key)
    } else {
        None
    }
}

/// Two keys never derive the same identity.
pub proof fn peer_id_injective(a: Seq<u8>, b: Seq<u8>)
    requires
        peer_id_of(a) is Some,
        peer_id_of(a) == peer_id_of(b),
    ensures
        a == b,
{
    let h = peer_id_header();
    assert((h + a).subrange(6, (h + a).len() as int) =~= a);
    assert((h + b).subrange(6, (h + b).len() as int) =~= b);
}

/// Whether libp2p accepts the bytes as an Ed25519 key pair (secret key
/// followed by the public key that belongs to it).
pub uninterp spec fn keypair_decodes(bytes: Seq<u8>) -> bool;

#[verifier::external_type_specification]
#[verifier::external_body]
pub struct ExKeypair(libp2p::identity::Keypair);

#[verifier::external_type_specification]
#[verifier::external_body]
pub struct ExIdentityPublicKey(libp2p::identity::PublicKey);

/// Relies on libp2p's `ed25519::PublicKey::try_from_bytes`, which refuses
/// anything but 32 bytes that encode a curve point, and on
/// `identity::PublicKey::to_peer_id` with `PeerId::to_bytes`: the protobuf
/// encoding of the key (36 bytes) inlined in an identity multihash.
/// On failure it gives the `DecodingError`'s text.
#[verifier::external_body]
fn peer_id_bytes(public_key: &Vec<u8>) -> (r: Result<Vec<u8>, String>)
    ensures
        r is Ok <==> key_is_valid(public_key@),
        r matches Ok(id) ==> id@ == peer_id_header() + public_key@,
        r matches Err(e) ==> e@ == key_decode_error(public_key@),
        public_key@.len() != 32 ==> r is Err,
{
    ed25519::PublicKey::try_from_bytes(public_key.as_slice())
        .map(|k| libp2p::identity::PublicKey::from(k).to_peer_id().to_bytes())
        .map_err(|e| e.to_string())
}

/// Relies on libp2p's `ed25519::PublicKey::try_from_bytes`: it accepts the
/// same bytes as those from which a peer id is derived, and refuses the
/// others with the same `DecodingError`.
#[verifier::external_body]
fn decode_public_key(public_key: &Vec<u8>) -> (r: Result<libp2p::identity::PublicKey, String>)
    ensures
        r is Ok <==> key_is_valid(public_key@),
        r matches Err(e) ==> e@ == key_decode_error(public_key@),
{
    ed25519::PublicKey::try_from_bytes(public_key.as_slice())
        .map(libp2p::identity::PublicKey::from)
        .map_err(|e| e.to_string())
}

/// The error for bytes that are no public key.
fn invalid_key(detail: String) -> (r: String)
    ensures
        r@ == "invalid public key: "@ + detail@,
{
    proof {
        reveal_strlit("invalid public key: ");
    }
    String::from_str("invalid public key: ").concat(detail.as_str())
}

/// Relies on libp2p's `ed25519::Keypair::try_from_bytes`, which refuses
/// anything but 64 bytes, and whose second half is decoded as a public key
/// is (ed25519-dalek's `SigningKey::from_keypair_bytes`).
#[verifier::external_body]
fn decode_keypair(mut bytes: Vec<u8>) -> (r: Option<Keypair>)
    ensures
        r is Some <==> keypair_decodes(bytes@),
        bytes@.len() != 64 ==> r is None,
        r is Some ==> key_is_valid(bytes@.subrange(32, 64)),
{
    ed25519::Keypair::try_from_bytes(bytes.as_mut_slice()).ok().map(Keypair::from)
}

/// Derives the network identity (the encoded libp2p peer id) of a public key.
pub fn derive_identity(public_key: &PublicKeyBytes) -> (r: Result<Vec<u8>, String>)
    ensures
        r matches Ok(id) ==> peer_id_of(public_key@) == Some(id@),
        r is Err <==> peer_id_of(public_key@) is None,
        r matches Err(e) ==> e@ == invalid_key_error(public_key@),
        public_key@.len() != 32 ==> r is Err,
{
    match peer_id_bytes(public_key) {
        Ok(id) => Ok(id),
        Err(detail) => Err(invalid_key(detail)),
    }
}

/// Converts an application public key into a libp2p public key.
pub fn convert_public_key(public_key: &PublicKeyBytes) -> (r: Result<
    libp2p::identity::PublicKey,
    String,
>)
    ensures
        r is Ok <==> peer_id_of(public_key@) is Some,
        r matches Err(e) ==> e@ == invalid_key_error(public_key@),
{
    match decode_public_key(public_key) {
        Ok(k) => Ok(k),
        Err(detail) => Err(invalid_key(detail)),
    }
}

/// Converts an application key pair into a libp2p key pair: the secret key
/// bytes followed by the public key bytes must form an Ed25519 key pair.
pub fn convert_keypair(public_key: &PublicKeyBytes, private_key: &PrivateKeyBytes) -> (r: Result<
    Keypair,
    String,
>)
    ensures
        r is Ok <==> keypair_decodes(private_key@ + public_key@),
        private_key@.len() + public_key@.len() != 64 ==> r is Err,
        private_key@.len() == 32 && !key_is_valid(public_key@) ==> r is Err,
        r matches Err(e) ==> e@ == invalid_keypair_text(),
{
    proof {
        reveal_strlit("invalid public/private keypair was given.");
    }
    let mut bytes: Vec<u8> = private_key.clone();
    let mut i: usize = 0;
    while i < public_key.len()
        invariant
            i <= public_key@.len(),
            bytes@ == private_key@ + public_key@.subrange(0, i as int),
        decreases public_key@.len() - i,
    {
        bytes.push(public_key[i]);
        i = i + 1;
    }
    assert(public_key@.subrange(0, public_key@.len() as int) == public_key@);
    assert(private_key@.len() == 32 ==> bytes@.subrange(32, bytes@.len() as int) =~= public_key@);
    match decode_keypair(bytes) {
        Some(k) => Ok(k),
        None => Err(String::from_str("invalid public/private keypair was given.")),
    }
}

} // verus!
