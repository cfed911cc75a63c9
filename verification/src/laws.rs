//! The crate-level laws: round trips of the codecs, idempotence of
//! normalization, and the meaning of the low-r policy on serialized bytes.
//!
//! The lax parser accepting everything the strict parser accepts is
//! [`crate::der::lemma_strict_implies_lax`]; determinism of signing is
//! [`crate::context::lemma_sign_deterministic`]; that a fresh signature
//! verifies under its own public key is part of the `ensures` of the
//! signing functions themselves.

use vstd::prelude::*;

use crate::der::{der_of, lemma_der_int_props, lemma_strict_parse_der_of, strict_parse};
use crate::hex::{hex_of, lemma_hex_round_trip, text_parse};
use crate::scalar::{
    be_val, half_order, lemma_be_val_first_byte, lemma_scalar_val_injective, pow256,
};
use crate::sig::{Signature, is_compact_of, low_s};

verus! {

/// DER round trip: whatever signature the strict parser reads out of the
/// DER serialization of a well-formed signature is that signature itself.
/// With the contracts of `serialize_der` and `from_der`, this closes
/// `from_der(serialize_der(sig)) == Ok(sig)`.
pub proof fn lemma_der_round_trip(sig: Signature, parsed: Signature)
    requires
        sig.well_formed(),
        strict_parse(der_of(sig.r.val(), sig.s.val())) == Some((parsed.r.val(), parsed.s.val())),
    ensures
        parsed == sig,
{
    lemma_strict_parse_der_of(sig.r.val(), sig.s.val());
    lemma_scalar_val_injective(parsed.r, sig.r);
    lemma_scalar_val_injective(parsed.s, sig.s);
}

/// Compact round trip: a signature is determined by its two component
/// values, so whatever `from_compact` reads out of `serialize_compact`'s
/// bytes is the original signature.
pub proof fn lemma_compact_round_trip(sig: Signature, parsed: Signature)
    requires
        parsed.r.val() == sig.r.val(),
        parsed.s.val() == sig.s.val(),
    ensures
        parsed == sig,
{
    lemma_scalar_val_injective(parsed.r, sig.r);
    lemma_scalar_val_injective(parsed.s, sig.s);
}

/// Textual round trip: the lowercase hexadecimal of a well-formed
/// signature's DER encoding decodes and parses back to the same pair, so
/// `from_text(to_text(sig)) == Ok(sig)`.
pub proof fn lemma_text_round_trip(sig: Signature)
    requires
        sig.well_formed(),
    ensures
        text_parse(hex_of(der_of(sig.r.val(), sig.s.val()))) == Some(
            (sig.r.val(), sig.s.val()),
        ),
{
    let d = der_of(sig.r.val(), sig.s.val());
    lemma_der_int_props(sig.r.val());
    lemma_der_int_props(sig.s.val());
    assert(d.len() <= 72);
    lemma_hex_round_trip(d);
    lemma_strict_parse_der_of(sig.r.val(), sig.s.val());
}

/// Idempotent normalization: normalizing an already normalized signature
/// changes nothing, so `normalize_s` applied twice equals it applied once.
pub proof fn lemma_normalize_idempotent(once: Signature, twice: Signature)
    requires
        once.well_formed(),
        once.s.val() <= half_order(),
        twice.r == once.r,
        twice.s.val() == low_s(once.s.val()),
    ensures
        twice == once,
{
    lemma_scalar_val_injective(twice.s, once.s);
}

/// The low-r policy on the wire: a signature whose r-value has a clear top
/// bit serializes compactly with a first byte below 0x80.
pub proof fn lemma_low_r_first_byte(sig: Signature, out: Seq<u8>)
    requires
        is_compact_of(sig, out),
        sig.r.val() < 0x8000000000000000000000000000000000000000000000000000000000000000nat,
    ensures
        out[0] < 0x80,
{
    let h = out.subrange(0, 32);
    lemma_be_val_first_byte(h);
    proof_pow256_31();
    let p = pow256(31);
    assert(out[0] == h[0]);
    if h[0] >= 0x80 {
        vstd::arithmetic::div_mod::lemma_fundamental_div_mod(be_val(h) as int, p as int);
        assert(be_val(h) >= h[0] * p) by (nonlinear_arith)
            requires
                h[0] == be_val(h) as int / (p as int),
                be_val(h) as int == (be_val(h) as int / (p as int)) * (p as int) + (
                be_val(h) as int % (p as int)),
                be_val(h) as int % (p as int) >= 0,
                p >= 1,
        ;
        assert(h[0] * p >= 0x80 * p) by (nonlinear_arith)
            requires
                h[0] >= 0x80,
                p >= 1,
        ;
    }
}

proof fn proof_pow256_31()
    ensures
        pow256(31)
            == 0x100000000000000000000000000000000000000000000000000000000000000nat,
        pow256(31) >= 1,
{
    reveal_with_fuel(pow256, 33);
}

} // verus!
