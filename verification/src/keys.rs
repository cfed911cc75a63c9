//! The plain value types the signing and verification engines consume: a
//! 32-byte message digest, a secret key, and a SEC1-encoded public key.

use vstd::prelude::*;

use crate::engine::{engine_public_key, public_key_of, valid_public_key};
use crate::scalar::{Scalar, be_val, in_scalar_range, order_scalar};

verus! {

/// A 32-byte message digest, assumed to already be the output of a
/// cryptographic hash; no hashing happens in this crate.
#[derive(Clone, Copy)]
pub struct Message {
    digest: [u8; 32],
}

impl View for Message {
    type V = Seq<u8>;

    closed spec fn view(&self) -> Seq<u8> {
        self.digest@
    }
}

impl Message {
    /// Wraps a 32-byte digest.
    pub fn from_digest(digest: [u8; 32]) -> (r: Message)
        ensures
            r@ == digest@,
    {
        Message { digest }
    }

    /// The digest bytes.
    pub fn as_digest(&self) -> (r: &[u8; 32])
        ensures
            r@ == self@,
    {
        &self.digest
    }
}

/// A secret key: 32 big-endian bytes holding a nonzero scalar below the
/// group order.
#[derive(Clone, Copy)]
pub struct SecretKey {
    bytes: [u8; 32],
}

impl View for SecretKey {
    type V = Seq<u8>;

    closed spec fn view(&self) -> Seq<u8> {
        self.bytes@
    }
}

impl SecretKey {
    /// The key's validity invariant: its value is a nonzero in-range
    /// scalar.
    pub open spec fn wf(self) -> bool {
        in_scalar_range(be_val(self@))
    }

    /// Accepts 32 big-endian bytes as a secret key when they hold a
    /// nonzero scalar below the group order.
    pub fn from_byte_array(bytes: [u8; 32]) -> (res: Option<SecretKey>)
        ensures
            match res {
                Some(k) => k@ == bytes@ && k.wf(),
                None => !in_scalar_range(be_val(bytes@)),
            },
    {
        proof {
            assert(bytes@.subrange(0, 32) =~= bytes@);
        }
        let v = Scalar::from_be_bytes(bytes.as_slice(), 0);
        let n = order_scalar();
        if v.is_zero() || !v.lt(&n) {
            return None;
        }
        Some(SecretKey { bytes })
    }

    /// The key bytes.
    pub(crate) fn as_bytes(&self) -> (r: &[u8; 32])
        ensures
            r@ == self@,
    {
        &self.bytes
    }
}

/// A public key, held in compressed SEC1 form (33 bytes).
#[derive(Clone)]
pub struct PublicKey {
    bytes: Vec<u8>,
}

impl View for PublicKey {
    type V = Seq<u8>;

    closed spec fn view(&self) -> Seq<u8> {
        self.bytes@
    }
}

impl PublicKey {
    /// The key's validity invariant: the bytes encode a valid curve point.
    pub open spec fn wf(self) -> bool {
        valid_public_key(self@)
    }

    /// Derives the public key of a secret key.
    pub fn from_secret_key(sk: &SecretKey) -> (r: PublicKey)
        requires
            sk.wf(),
        ensures
            r@ == public_key_of(sk@),
            r.wf(),
    {
        PublicKey { bytes: engine_public_key(sk.as_bytes()) }
    }

    /// The SEC1 bytes.
    pub(crate) fn as_bytes(&self) -> (r: &[u8])
        ensures
            r@ == self@,
    {
        self.bytes.as_slice()
    }
}

} // verus!
