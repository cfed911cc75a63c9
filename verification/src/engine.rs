//! The curve-arithmetic engine behind the signing and verification paths.
//!
//! The constant-time scalar and point arithmetic itself is out of scope
//! here: it is supplied by the `k256` crate, reached through the trusted
//! wrappers below. Everything around these calls is verified.

use vstd::prelude::*;

use crate::scalar::{be_val, half_order, in_scalar_range};

verus! {

/// The signature bytes (compact, r then s) that deterministic RFC 6979
/// signing produces for a digest, a secret key, and extra entropy. A
/// function of its arguments alone.
pub uninterp spec fn sig_of(digest: Seq<u8>, key: Seq<u8>, entropy: Seq<u8>) -> Seq<u8>;

/// Whether the engine accepts a compact signature for a digest under a
/// SEC1-encoded public key. A function of its arguments alone.
pub uninterp spec fn verify_ok(digest: Seq<u8>, sig: Seq<u8>, key: Seq<u8>) -> bool;

/// The compressed SEC1 encoding of the public key belonging to a secret
/// key.
pub uninterp spec fn public_key_of(key: Seq<u8>) -> Seq<u8>;

/// Whether a byte string is a SEC1 encoding of a valid curve point.
pub uninterp spec fn valid_public_key(key: Seq<u8>) -> bool;

/// Relies on `ecdsa::hazmat::sign_prehashed_rfc6979` over `k256::Secp256k1`:
/// deterministic RFC 6979 signing of a 32-byte prehash with optional added
/// entropy. The call never fails for an in-range key; the result is 64
/// compact bytes whose halves are nonzero scalars below the group order,
/// low-S normalized (the curve sets `NORMALIZE_S`), and it verifies under
/// the key's own public key.
#[verifier::external_body]
pub(crate) fn engine_sign(digest: &[u8; 32], key: &[u8; 32], entropy: &[u8]) -> (out: Vec<u8>)
    requires
        in_scalar_range(be_val(key@)),
    ensures
        out@ == sig_of(digest@, key@, entropy@),
        out@.len() == 64,
        in_scalar_range(be_val(out@.subrange(0, 32))),
        in_scalar_range(be_val(out@.subrange(32, 64))),
        be_val(out@.subrange(32, 64)) <= half_order(),
        verify_ok(digest@, out@, public_key_of(key@)),
{
    let sk = k256::ecdsa::SigningKey::from_slice(key).expect("key is a valid secret scalar");
    let (sig, _) = ecdsa::hazmat::sign_prehashed_rfc6979::<
        k256::Secp256k1,
        <k256::Secp256k1 as ecdsa::DigestAlgorithm>::Digest,
    >(sk.as_nonzero_scalar(), digest, entropy);
    sig.to_bytes().to_vec()
}

/// Relies on `k256::ecdsa::VerifyingKey::verify_prehash` (through
/// `ecdsa::hazmat::verify_prehashed`): whether the engine accepts the
/// 64-byte compact signature for the digest under the given valid public
/// key. Bytes that do not parse as a signature are never accepted.
#[verifier::external_body]
pub(crate) fn engine_verify(digest: &[u8; 32], sig: &[u8; 64], key: &[u8]) -> (ok: bool)
    requires
        valid_public_key(key@),
    ensures
        ok == verify_ok(digest@, sig@, key@),
{
    let vk = k256::ecdsa::VerifyingKey::from_sec1_bytes(key).expect("key is a valid point");
    match k256::ecdsa::Signature::from_slice(sig) {
        Ok(s) => ecdsa::signature::hazmat::PrehashVerifier::verify_prehash(
            &vk, digest, &s).is_ok(),
        Err(_) => false,
    }
}

/// Relies on `ecdsa::SigningKey::verifying_key` and
/// `VerifyingKey::to_sec1_bytes`: the compressed (33-byte) SEC1 encoding of
/// the public key derived from an in-range secret key, always a valid
/// point.
#[verifier::external_body]
pub(crate) fn engine_public_key(key: &[u8; 32]) -> (out: Vec<u8>)
    requires
        in_scalar_range(be_val(key@)),
    ensures
        out@ == public_key_of(key@),
        out@.len() == 33,
        valid_public_key(out@),
{
    let sk = k256::ecdsa::SigningKey::from_slice(key).expect("key is a valid secret scalar");
    sk.verifying_key().to_sec1_bytes().into_vec()
}

} // verus!
