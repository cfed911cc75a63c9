//! Capability-typed contexts and the signing and verification engines:
//! deterministic RFC 6979 signing, signing with extra entropy, the
//! r-grinding search loop with its two stock policies, and signature
//! verification.

use vstd::prelude::*;

use core::marker::PhantomData;

use crate::der::der_of;
use crate::engine::{engine_sign, engine_verify, public_key_of, sig_of, verify_ok};
use crate::error::Error;
use crate::keys::{Message, PublicKey, SecretKey};
use crate::scalar::{
    Scalar, be_val, half_order, lemma_pow256_values, lemma_scalar_val_injective, pow256,
};
use crate::sig::{Signature, compact_of, lemma_compact_of};

verus! {

/// Marker of a context that can sign.
pub trait Signing {

}

/// Marker of a context that can verify.
pub trait Verification {

}

/// A context able to sign only.
pub struct SignOnly {}

/// A context able to verify only.
pub struct VerifyOnly {}

/// A context able to do both.
pub struct All {}

impl Signing for SignOnly {

}

impl Signing for All {

}

impl Verification for VerifyOnly {

}

impl Verification for All {

}

/// The secp256k1 engine context; its capability is carried by the type
/// parameter.
pub struct Secp256k1<C> {
    marker: PhantomData<C>,
}

impl Secp256k1<All> {
    /// A context with both capabilities.
    pub fn new() -> (r: Secp256k1<All>) {
        Secp256k1 { marker: PhantomData }
    }
}

impl Secp256k1<SignOnly> {
    /// A context that can only sign.
    pub fn signing_only() -> (r: Secp256k1<SignOnly>) {
        Secp256k1 { marker: PhantomData }
    }
}

impl Secp256k1<VerifyOnly> {
    /// A context that can only verify.
    pub fn verification_only() -> (r: Secp256k1<VerifyOnly>) {
        Secp256k1 { marker: PhantomData }
    }
}

/// What deterministic signing pins down: both components of `sig` read
/// back from the engine's signature bytes for this digest, key and
/// entropy.
pub open spec fn signed_with(
    sig: Signature,
    digest: Seq<u8>,
    key: Seq<u8>,
    entropy: Seq<u8>,
) -> bool {
    &&& sig.well_formed()
    &&& sig.r.val() == be_val(sig_of(digest, key, entropy).subrange(0, 32))
    &&& sig.s.val() == be_val(sig_of(digest, key, entropy).subrange(32, 64))
}

/// The extra-entropy buffer of grinding attempt `c`: the attempt counter
/// in little-endian in the first four bytes, zeroes after.
pub open spec fn grind_entropy(c: nat) -> Seq<u8> {
    Seq::new(
        32,
        |j: int|
            if j < 4 {
                ((c / pow256(j as nat)) % 256) as u8
            } else {
                0u8
            },
    )
}

/// The signature grinding attempt `i` produces: attempt 0 signs with no
/// extra entropy, attempt `i >= 1` with the entropy buffer of counter `i`.
pub open spec fn is_attempt(sig: Signature, digest: Seq<u8>, key: Seq<u8>, i: int) -> bool {
    if i == 0 {
        signed_with(sig, digest, key, Seq::empty())
    } else {
        signed_with(sig, digest, key, grind_entropy(i as nat))
    }
}

/// Two invocations of deterministic signing with the same digest, key and
/// entropy return the same signature.
pub proof fn lemma_sign_deterministic(
    a: Signature,
    b: Signature,
    digest: Seq<u8>,
    key: Seq<u8>,
    entropy: Seq<u8>,
)
    requires
        signed_with(a, digest, key, entropy),
        signed_with(b, digest, key, entropy),
    ensures
        a == b,
{
    lemma_scalar_val_injective(a.r, b.r);
    lemma_scalar_val_injective(a.s, b.s);
}

/// A policy of the grinding loop: an exact executable check of a spec
/// predicate over candidate signatures.
pub trait GrindCheck {
    /// The predicate the loop searches for.
    spec fn accepts(&self, sig: Signature) -> bool;

    /// Decides the predicate.
    fn check(&self, sig: &Signature) -> (r: bool)
        requires
            sig.well_formed(),
        ensures
            r == self.accepts(*sig),
    ;
}

/// Whether grinding attempt `i` yields a signature the policy accepts.
pub open spec fn attempt_accepted<P: GrindCheck>(
    p: P,
    digest: Seq<u8>,
    key: Seq<u8>,
    i: int,
) -> bool {
    exists|t: Signature| is_attempt(t, digest, key, i) && p.accepts(t)
}

/// What the grinding loop returns: the signature of the first attempt the
/// policy accepts, or that of the last possible attempt when none is
/// accepted before the 32-bit counter runs out.
pub open spec fn grind_result<P: GrindCheck>(
    p: P,
    sig: Signature,
    digest: Seq<u8>,
    key: Seq<u8>,
) -> bool {
    exists|i: int|
        #![auto]
        {
            &&& 0 <= i <= u32::MAX
            &&& is_attempt(sig, digest, key, i)
            &&& (p.accepts(sig) || i == u32::MAX)
            &&& (forall|j: int| 0 <= j < i ==> !attempt_accepted(p, digest, key, j))
        }
}

/// Accepts signatures whose DER encoding is at most `max_len` bytes.
#[derive(Clone, Copy)]
pub struct DerLengthCheck {
    pub max_len: usize,
}

impl GrindCheck for DerLengthCheck {
    open spec fn accepts(&self, sig: Signature) -> bool {
        der_of(sig.r.val(), sig.s.val()).len() <= self.max_len
    }

    fn check(&self, sig: &Signature) -> (r: bool) {
        let ser = sig.serialize_der();
        ser.len() <= self.max_len
    }
}

/// Accepts signatures whose r-value has its top bit clear, so that the
/// first byte of the compact encoding is below 0x80.
#[derive(Clone, Copy)]
pub struct LowRCheck {}

impl GrindCheck for LowRCheck {
    open spec fn accepts(&self, sig: Signature) -> bool {
        sig.r.val() < 0x8000000000000000000000000000000000000000000000000000000000000000nat
    }

    fn check(&self, sig: &Signature) -> (r: bool) {
        proof {
            lemma_pow256_values();
        }
        sig.r.d3 < 0x8000000000000000
    }
}

/// Builds the extra-entropy buffer of grinding attempt `c`.
fn grind_entropy_bytes(c: u32) -> (out: Vec<u8>)
    ensures
        out@ == grind_entropy(c as nat),
{
    let mut out: Vec<u8> = Vec::new();
    out.push((c % 256) as u8);
    out.push(((c / 256) % 256) as u8);
    out.push(((c / 65536) % 256) as u8);
    out.push(((c / 16777216) % 256) as u8);
    proof {
        reveal_with_fuel(pow256, 5);
        assert(out@[0] == grind_entropy(c as nat)[0]);
        assert(out@[1] == grind_entropy(c as nat)[1]);
        assert(out@[2] == grind_entropy(c as nat)[2]);
        assert(out@[3] == grind_entropy(c as nat)[3]);
        assert(out@.subrange(0, 4) =~= grind_entropy(c as nat).subrange(0, 4));
    }
    let mut i: usize = 4;
    while i < 32
        invariant
            4 <= i <= 32,
            out@.len() == i,
            out@.subrange(0, 4) == grind_entropy(c as nat).subrange(0, 4),
            forall|j: int| 4 <= j < i ==> out@[j] == 0,
        decreases 32 - i,
    {
        out.push(0);
        i = i + 1;
    }
    proof {
        assert forall|j: int| 0 <= j < 32 implies out@[j] == grind_entropy(c as nat)[j] by {
            if j < 4 {
                assert(out@[j] == out@.subrange(0, 4)[j]);
            }
        }
        assert(out@ =~= grind_entropy(c as nat));
    }
    out
}

/// One deterministic signing call, wrapped into a signature value.
fn sign_once(msg: &Message, sk: &SecretKey, entropy: &[u8]) -> (sig: Signature)
    requires
        sk.wf(),
    ensures
        signed_with(sig, msg@, sk@, entropy@),
        verify_ok(msg@, compact_of(sig), public_key_of(sk@)),
        sig.s.val() <= half_order(),
{
    let out = engine_sign(msg.as_digest(), sk.as_bytes(), entropy);
    let r = Scalar::from_be_bytes(out.as_slice(), 0);
    let s = Scalar::from_be_bytes(out.as_slice(), 32);
    let sig = Signature { r, s };
    proof {
        lemma_compact_of(sig, out@);
    }
    sig
}

/// No signature other than the attempt's own can witness acceptance of an
/// attempt, so a failed check rules the attempt out.
proof fn lemma_attempt_refused<P: GrindCheck>(
    p: P,
    sig: Signature,
    digest: Seq<u8>,
    key: Seq<u8>,
    i: int,
)
    requires
        is_attempt(sig, digest, key, i),
        !p.accepts(sig),
    ensures
        !attempt_accepted(p, digest, key, i),
{
    assert forall|t: Signature| is_attempt(t, digest, key, i) implies !p.accepts(t) by {
        lemma_scalar_val_injective(t.r, sig.r);
        lemma_scalar_val_injective(t.s, sig.s);
    }
}

/// The grinding loop: sign, test the policy, and retry with a counter in
/// the entropy until the policy accepts (or, in principle, until the
/// 32-bit counter is exhausted, in which case the last candidate is
/// returned).
fn sign_grind_with_check<P: GrindCheck>(msg: &Message, sk: &SecretKey, check: &P) -> (sig:
    Signature)
    requires
        sk.wf(),
    ensures
        sig.well_formed(),
        verify_ok(msg@, compact_of(sig), public_key_of(sk@)),
        grind_result(*check, sig, msg@, sk@),
{
    let e: Vec<u8> = Vec::new();
    proof {
        assert(e@ =~= Seq::<u8>::empty());
    }
    let mut sig = sign_once(msg, sk, e.as_slice());
    if check.check(&sig) {
        proof {
            assert(is_attempt(sig, msg@, sk@, 0));
        }
        return sig;
    }
    proof {
        lemma_attempt_refused(*check, sig, msg@, sk@, 0);
    }
    let mut i: u32 = 0;
    while i < 0xFFFFFFFF
        invariant
            sk.wf(),
            sig.well_formed(),
            is_attempt(sig, msg@, sk@, i as int),
            verify_ok(msg@, compact_of(sig), public_key_of(sk@)),
            forall|j: int| 0 <= j <= i ==> !attempt_accepted(*check, msg@, sk@, j),
        decreases 0xFFFFFFFFu32 - i,
    {
        i = i + 1;
        let entropy = grind_entropy_bytes(i);
        sig = sign_once(msg, sk, entropy.as_slice());
        if check.check(&sig) {
            proof {
                assert(is_attempt(sig, msg@, sk@, i as int));
            }
            return sig;
        }
        proof {
            lemma_attempt_refused(*check, sig, msg@, sk@, i as int);
        }
    }
    proof {
        assert(is_attempt(sig, msg@, sk@, u32::MAX as int));
    }
    sig
}

impl<C: Signing> Secp256k1<C> {
    /// Deterministic (RFC 6979) signature for `msg` under `sk`. Alias of
    /// [`Self::sign_ecdsa`], kept for backward compatibility.
    pub fn sign(&self, msg: &Message, sk: &SecretKey) -> (sig: Signature)
        requires
            sk.wf(),
        ensures
            signed_with(sig, msg@, sk@, Seq::<u8>::empty()),
            verify_ok(msg@, compact_of(sig), public_key_of(sk@)),
            sig.s.val() <= half_order(),
    {
        self.sign_ecdsa(msg, sk)
    }

    /// Deterministic (RFC 6979) signature for `msg` under `sk`. The same
    /// digest and key always give the same signature, and the signature
    /// verifies under the key's own public key.
    pub fn sign_ecdsa(&self, msg: &Message, sk: &SecretKey) -> (sig: Signature)
        requires
            sk.wf(),
        ensures
            signed_with(sig, msg@, sk@, Seq::<u8>::empty()),
            verify_ok(msg@, compact_of(sig), public_key_of(sk@)),
            sig.s.val() <= half_order(),
    {
        let e: Vec<u8> = Vec::new();
        proof {
            assert(e@ =~= Seq::<u8>::empty());
        }
        sign_once(msg, sk, e.as_slice())
    }

    /// Deterministic signature with 32 bytes of caller-supplied extra
    /// entropy folded into nonce derivation, for taking several distinct
    /// signatures over one digest and key.
    pub fn sign_ecdsa_with_noncedata(
        &self,
        msg: &Message,
        sk: &SecretKey,
        noncedata: &[u8; 32],
    ) -> (sig: Signature)
        requires
            sk.wf(),
        ensures
            signed_with(sig, msg@, sk@, noncedata@),
            verify_ok(msg@, compact_of(sig), public_key_of(sk@)),
            sig.s.val() <= half_order(),
    {
        sign_once(msg, sk, noncedata.as_slice())
    }

    /// Grinds for a signature whose DER encoding is at most
    /// `71 - bytes_to_grind` bytes. Alias of [`Self::sign_ecdsa_grind_r`],
    /// kept for backward compatibility.
    pub fn sign_grind_r(&self, msg: &Message, sk: &SecretKey, bytes_to_grind: usize) -> (sig:
        Signature)
        requires
            sk.wf(),
            bytes_to_grind <= 71,
        ensures
            sig.well_formed(),
            verify_ok(msg@, compact_of(sig), public_key_of(sk@)),
            grind_result(
                (DerLengthCheck { max_len: (71 - bytes_to_grind) as usize }),
                sig,
                msg@,
                sk@,
            ),
    {
        self.sign_ecdsa_grind_r(msg, sk, bytes_to_grind)
    }

    /// Grinds for a signature whose DER encoding is at most
    /// `71 - bytes_to_grind` bytes, re-signing with a counter in the extra
    /// entropy until one comes out. The expected number of signing calls is
    /// exponential in `bytes_to_grind`.
    pub fn sign_ecdsa_grind_r(&self, msg: &Message, sk: &SecretKey, bytes_to_grind: usize) -> (sig:
        Signature)
        requires
            sk.wf(),
            bytes_to_grind <= 71,
        ensures
            sig.well_formed(),
            verify_ok(msg@, compact_of(sig), public_key_of(sk@)),
            grind_result(
                (DerLengthCheck { max_len: (71 - bytes_to_grind) as usize }),
                sig,
                msg@,
                sk@,
            ),
    {
        let check = DerLengthCheck { max_len: 71 - bytes_to_grind };
        sign_grind_with_check(msg, sk, &check)
    }

    /// Grinds for a low-r signature: one whose compact encoding starts
    /// below 0x80, as the minimal-size convention wants. Alias of
    /// [`Self::sign_ecdsa_low_r`], kept for backward compatibility.
    pub fn sign_low_r(&self, msg: &Message, sk: &SecretKey) -> (sig: Signature)
        requires
            sk.wf(),
        ensures
            sig.well_formed(),
            verify_ok(msg@, compact_of(sig), public_key_of(sk@)),
            grind_result((LowRCheck {  }), sig, msg@, sk@),
    {
        let check = LowRCheck {  };
        sign_grind_with_check(msg, sk, &check)
    }

    /// Grinds for a low-r signature: one whose compact encoding starts
    /// below 0x80. On average this takes two signing calls.
    pub fn sign_ecdsa_low_r(&self, msg: &Message, sk: &SecretKey) -> (sig: Signature)
        requires
            sk.wf(),
        ensures
            sig.well_formed(),
            verify_ok(msg@, compact_of(sig), public_key_of(sk@)),
            grind_result((LowRCheck {  }), sig, msg@, sk@),
    {
        let check = LowRCheck {  };
        sign_grind_with_check(msg, sk, &check)
    }
}

impl<C: Verification> Secp256k1<C> {
    /// Checks `sig` against `msg` and `pk`. Alias of
    /// [`Self::verify_ecdsa`], kept for backward compatibility.
    pub fn verify(&self, msg: &Message, sig: &Signature, pk: &PublicKey) -> (res: Result<
        (),
        Error,
    >)
        requires
            sig.well_formed(),
            pk.wf(),
        ensures
            match res {
                Ok(_) => verify_ok(msg@, compact_of(*sig), pk@),
                Err(e) => e == Error::IncorrectSignature && !verify_ok(msg@, compact_of(*sig), pk@),
            },
    {
        self.verify_ecdsa(msg, sig, pk)
    }

    /// Checks that `sig` is a valid signature for `msg` under `pk`,
    /// exactly as the curve engine decides it. This is engine-specific and
    /// not a consensus oracle: other ECDSA implementations may treat
    /// edge-case encodings differently.
    pub fn verify_ecdsa(&self, msg: &Message, sig: &Signature, pk: &PublicKey) -> (res: Result<
        (),
        Error,
    >)
        requires
            sig.well_formed(),
            pk.wf(),
        ensures
            match res {
                Ok(_) => verify_ok(msg@, compact_of(*sig), pk@),
                Err(e) => e == Error::IncorrectSignature && !verify_ok(msg@, compact_of(*sig), pk@),
            },
    {
        let c = sig.serialize_compact();
        proof {
            lemma_compact_of(*sig, c@);
        }
        if engine_verify(msg.as_digest(), &c, pk.as_bytes()) {
            Ok(())
        } else {
            Err(Error::IncorrectSignature)
        }
    }
}

impl Signature {
    /// Checks this signature against `msg` and `pk` without an explicit
    /// context.
    pub fn verify(&self, msg: &Message, pk: &PublicKey) -> (res: Result<(), Error>)
        requires
            self.well_formed(),
            pk.wf(),
        ensures
            match res {
                Ok(_) => verify_ok(msg@, compact_of(*self), pk@),
                Err(e) => e == Error::IncorrectSignature && !verify_ok(
                    msg@,
                    compact_of(*self),
                    pk@,
                ),
            },
    {
        let secp = Secp256k1::verification_only();
        secp.verify_ecdsa(msg, self, pk)
    }
}

} // verus!
