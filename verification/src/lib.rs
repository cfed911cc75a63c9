//! ECDSA signatures over the secp256k1 curve: an opaque signature value
//! type, strict-DER / lax-DER / 64-byte-compact codecs, low-S
//! canonicalization, deterministic (RFC 6979) signing with optional extra
//! entropy and r-grinding, and signature verification.

pub mod context;
pub mod der;
pub mod engine;
pub mod error;
pub mod hex;
pub mod keys;
pub mod laws;
pub mod scalar;
pub mod sig;

pub use context::{All, Secp256k1, SignOnly, Signing, Verification, VerifyOnly};
pub use error::Error;
pub use keys::{Message, PublicKey, SecretKey};
pub use scalar::Scalar;
pub use sig::{SerializedSignature, Signature};
