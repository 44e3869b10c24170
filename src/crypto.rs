//! The cryptographic primitives the protocol relies on: SHA-256 digests,
//! truncated SipHash MACs and ECDSA over secp256k1.
use sha2::Digest;
use std::hash::{Hash, Hasher};
use vstd::prelude::*;

verus! {

/// The SHA-256 digest of `data`.
pub uninterp spec fn sha256_of(data: Seq<u8>) -> Seq<u8>;

/// The 4-byte SipHash MAC of a 32-byte digest, keyed for replica `id`.
pub uninterp spec fn sip_mac_of(id: u8, digest: Seq<u8>) -> Seq<u8>;

/// Whether 32 bytes form a valid secp256k1 secret key.
pub uninterp spec fn secret_key_valid(key: Seq<u8>) -> bool;

/// The compact (64-byte) ECDSA signature of a 32-byte digest under a
/// secret key, with the deterministic RFC 6979 nonce.
pub uninterp spec fn ecdsa_sign_of(key: Seq<u8>, digest: Seq<u8>) -> Seq<u8>;

/// Whether a compact signature over a digest verifies under a serialized
/// public key.
pub uninterp spec fn ecdsa_valid(public_key: Seq<u8>, digest: Seq<u8>, signature: Seq<u8>) -> bool;

/// Relies on sha2::Sha256::digest: the SHA-256 digest of the input.
#[verifier::external_body]
pub(crate) fn sha256(data: &[u8]) -> (r: [u8; 32])
    ensures
        r@ == sha256_of(data@),
{
    sha2::Sha256::digest(data).into()
}

/// Relies on siphasher::sip::SipHasher (SipHash-2-4) keyed with
/// `(u64::MAX, id)`, fed the digest through `Hash`; the MAC is the first
/// four little-endian bytes of the 64-bit result.
#[verifier::external_body]
pub(crate) fn sip_mac(id: u8, digest: &[u8; 32]) -> (r: [u8; 4])
    ensures
        r@ == sip_mac_of(id, digest@),
{
    let mut hasher = siphasher::sip::SipHasher::new_with_keys(u64::MAX, id as u64);
    digest.hash(&mut hasher);
    let bytes = hasher.finish().to_le_bytes();
    [bytes[0], bytes[1], bytes[2], bytes[3]]
}

/// Relies on secp256k1's SecretKey::from_slice (which fails on an invalid
/// key), SecretKey::sign_ecdsa (RFC 6979, deterministic) and
/// Signature::serialize_compact.
#[verifier::external_body]
pub(crate) fn ecdsa_sign(key: &[u8; 32], digest: &[u8; 32]) -> (r: Option<[u8; 64]>)
    ensures
        r is Some <==> secret_key_valid(key@),
        r matches Some(s) ==> s@ == ecdsa_sign_of(key@, digest@),
{
    match secp256k1::SecretKey::from_slice(key) {
        Ok(sk) => Some(sk.sign_ecdsa(secp256k1::Message::from_slice(digest).unwrap()).serialize_compact()),
        Err(_) => None,
    }
}

/// Relies on secp256k1's PublicKey::from_slice, Signature::from_compact and
/// Secp256k1::verify_ecdsa: true exactly when the key and the signature
/// parse and the signature verifies.
#[verifier::external_body]
pub(crate) fn ecdsa_verify(public_key: &[u8; 33], digest: &[u8; 32], signature: &[u8; 64]) -> (r: bool)
    ensures
        r == ecdsa_valid(public_key@, digest@, signature@),
{
    let (Ok(pk), Ok(sig)) = (
        secp256k1::PublicKey::from_slice(public_key),
        secp256k1::ecdsa::Signature::from_compact(signature),
    ) else {
        return false;
    };
    let message = secp256k1::Message::from_slice(digest).unwrap();
    secp256k1::SECP256K1.verify_ecdsa(&message, &sig, &pk).is_ok()
}

} // verus!
