//! The signature value type and its 64-byte compact codec, together with
//! low-S canonicalization.

use vstd::prelude::*;

use crate::der::{der_of, lax_int_exec, lax_parse, lemma_der_int_props,
    parse_lax_value, parse_strict_int, push_der_int, strict_parse};
use crate::error::Error;
use crate::hex::{from_hex_text, hex_of, text_parse, to_hex_text};
use crate::scalar::{
    Scalar, be_val, group_order, half_order, half_order_scalar, in_scalar_range, order_scalar,
    order_sub,
};

verus! {

/// An ECDSA signature: the pair (r, s), in internal form.
///
/// Every signature built by the codec or the signing engine is well formed:
/// both components are nonzero and below the group order. Equality is
/// equality of the internal representation, so a signature and its
/// opposite-s twin are distinct values until normalized.
#[derive(Clone, Copy, Debug, PartialEq, Eq, Hash, Structural)]
pub struct Signature {
    pub r: Scalar,
    pub s: Scalar,
}

/// The low-S representative of an s-value: fold anything above the half
/// order down by subtracting from the group order.
pub open spec fn low_s(v: nat) -> nat {
    if v > half_order() {
        (group_order() - v) as nat
    } else {
        v
    }
}

impl Signature {
    /// Both components are nonzero and below the group order.
    pub open spec fn well_formed(self) -> bool {
        in_scalar_range(self.r.val()) && in_scalar_range(self.s.val())
    }

    /// Whether a 64-byte string is an acceptable compact encoding.
    pub open spec fn compact_ok(data: Seq<u8>) -> bool {
        &&& data.len() == 64
        &&& in_scalar_range(be_val(data.subrange(0, 32)))
        &&& in_scalar_range(be_val(data.subrange(32, 64)))
    }

    /// Converts a 64-byte compact encoding (r then s, each 32 bytes
    /// big-endian) to a signature. Any other length, and any component that
    /// is zero or not below the group order, is rejected.
    pub fn from_compact(data: &[u8]) -> (res: Result<Signature, Error>)
        ensures
            match res {
                Ok(sig) => Self::compact_ok(data@) && sig.well_formed() && sig.r.val()
                    == be_val(data@.subrange(0, 32)) && sig.s.val() == be_val(
                    data@.subrange(32, 64),
                ),
                Err(e) => e == Error::InvalidSignature && !Self::compact_ok(data@),
            },
    {
        if data.len() != 64 {
            return Err(Error::InvalidSignature);
        }
        let n = order_scalar();
        let r = Scalar::from_be_bytes(data, 0);
        let s = Scalar::from_be_bytes(data, 32);
        if r.is_zero() || !r.lt(&n) || s.is_zero() || !s.lt(&n) {
            return Err(Error::InvalidSignature);
        }
        Ok(Signature { r, s })
    }

    /// Serializes the signature in compact form: r then s, each 32 bytes
    /// big-endian.
    pub fn serialize_compact(&self) -> (out: [u8; 64])
        ensures
            be_val(out@.subrange(0, 32)) == self.r.val(),
            be_val(out@.subrange(32, 64)) == self.s.val(),
    {
        let mut v: Vec<u8> = Vec::new();
        self.r.push_be_bytes(&mut v);
        let ghost v1 = v@;
        self.s.push_be_bytes(&mut v);
        proof {
            assert(v@.subrange(0, 32) =~= v1.subrange(0, 32));
        }
        let mut out = [0u8; 64];
        let mut i: usize = 0;
        while i < 64
            invariant
                i <= 64,
                v@.len() == 64,
                out@.len() == 64,
                forall|j: int| 0 <= j < i ==> out@[j] == v@[j],
            decreases 64 - i,
        {
            out[i] = v[i];
            i = i + 1;
        }
        proof {
            assert(out@ =~= v@);
            assert(out@.subrange(0, 32) =~= v@.subrange(0, 32));
            assert(out@.subrange(32, 64) =~= v@.subrange(32, 64));
        }
        out
    }

    /// Decides well-formedness, for callers outside the verified world
    /// that must guard a contract.
    pub fn check_well_formed(&self) -> (r: bool)
        ensures
            r == self.well_formed(),
    {
        let n = order_scalar();
        !self.r.is_zero() && self.r.lt(&n) && !self.s.is_zero() && self.s.lt(&n)
    }

    /// Normalizes the signature in place to its low-S form: if s lies in
    /// the upper half of the scalar range it is replaced by
    /// `group_order() - s`, which verifies the same messages; otherwise the
    /// signature is unchanged. r never changes, and the result's s-value is
    /// at most half the group order.
    pub fn normalize_s(&mut self)
        requires
            old(self).well_formed(),
        ensures
            final(self).well_formed(),
            final(self).r == old(self).r,
            final(self).s.val() == low_s(old(self).s.val()),
            final(self).s.val() <= half_order(),
    {
        let half = half_order_scalar();
        if half.lt(&self.s) {
            self.s = order_sub(&self.s);
        }
    }
}

/// A length-bounded byte buffer holding one DER-encoded signature. The
/// true length is the exact DER length, at most 72 bytes.
pub struct SerializedSignature {
    data: Vec<u8>,
}

impl View for SerializedSignature {
    type V = Seq<u8>;

    closed spec fn view(&self) -> Seq<u8> {
        self.data@
    }
}

impl SerializedSignature {
    /// The exact length of the held DER encoding.
    pub fn len(&self) -> (r: usize)
        ensures
            r == self@.len(),
    {
        self.data.len()
    }

    /// The buffer's fixed capacity: the longest DER encoding a signature
    /// can have.
    pub fn capacity(&self) -> (r: usize)
        ensures
            r == 72,
    {
        72
    }

    /// The held DER encoding.
    pub fn as_bytes(&self) -> (r: &[u8])
        ensures
            r@ == self@,
    {
        self.data.as_slice()
    }
}

impl Signature {
    /// Converts a DER-encoded byte slice to a signature. Exactly the
    /// minimal canonical encodings of well-formed signature pairs are
    /// accepted; `strict_parse` is the grammar.
    pub fn from_der(data: &[u8]) -> (res: Result<Signature, Error>)
        ensures
            match res {
                Ok(sig) => sig.well_formed() && strict_parse(data@) == Some(
                    (sig.r.val(), sig.s.val()),
                ),
                Err(e) => e == Error::InvalidSignature && strict_parse(data@) is None,
            },
    {
        let n = data.len();
        if n < 6 {
            return Err(Error::InvalidSignature);
        }
        if data[0] != 0x30 || data[1] >= 0x80 || data[1] as usize != n - 2 {
            return Err(Error::InvalidSignature);
        }
        if data[2] != 0x02 || data[3] >= 0x80 {
            return Err(Error::InvalidSignature);
        }
        let lr = data[3] as usize;
        if 6 + lr > n {
            return Err(Error::InvalidSignature);
        }
        if data[4 + lr] != 0x02 || data[4 + lr + 1] >= 0x80 {
            return Err(Error::InvalidSignature);
        }
        let ls = data[4 + lr + 1] as usize;
        if 6 + lr + ls != n {
            return Err(Error::InvalidSignature);
        }
        let r = match parse_strict_int(data, 4, lr) {
            Some(r) => r,
            None => {
                return Err(Error::InvalidSignature);
            },
        };
        let s = match parse_strict_int(data, 6 + lr, ls) {
            Some(s) => s,
            None => {
                return Err(Error::InvalidSignature);
            },
        };
        proof {
            assert(data@.subrange(6 + lr as int, 6 + lr + ls as int) =~= data@.subrange(
                6 + data@[3] as int, data@.len() as int));
        }
        Ok(Signature { r, s })
    }

    /// Converts a "lax DER"-encoded byte slice to a signature, tolerating
    /// known historical deviations from the DER grammar. Useful only for
    /// reading legacy chain data; nothing ever serializes to this form.
    pub fn from_der_lax(data: &[u8]) -> (res: Result<Signature, Error>)
        ensures
            match res {
                Ok(sig) => sig.well_formed() && lax_parse(data@) == Some(
                    (sig.r.val(), sig.s.val()),
                ),
                Err(e) => e == Error::InvalidSignature && lax_parse(data@) is None,
            },
    {
        let n = data.len();
        if n < 2 || data[0] != 0x30 {
            return Err(Error::InvalidSignature);
        }
        let p0: usize;
        if data[1] >= 0x80 {
            let skip = (data[1] - 0x80) as usize;
            if skip > n - 2 {
                return Err(Error::InvalidSignature);
            }
            p0 = 2 + skip;
        } else {
            p0 = 2;
        }
        let (rpos, rlen) = match lax_int_exec(data, p0) {
            Some(x) => x,
            None => {
                return Err(Error::InvalidSignature);
            },
        };
        let (spos, slen) = match lax_int_exec(data, rpos + rlen) {
            Some(x) => x,
            None => {
                return Err(Error::InvalidSignature);
            },
        };
        let r = match parse_lax_value(data, rpos, rlen) {
            Some(r) => r,
            None => {
                return Err(Error::InvalidSignature);
            },
        };
        let s = match parse_lax_value(data, spos, slen) {
            Some(s) => s,
            None => {
                return Err(Error::InvalidSignature);
            },
        };
        Ok(Signature { r, s })
    }

    /// Serializes the signature in minimal DER form.
    pub fn serialize_der(&self) -> (res: SerializedSignature)
        requires
            self.well_formed(),
        ensures
            res@ == der_of(self.r.val(), self.s.val()),
            res@.len() <= 72,
            res@.len() >= 8,
    {
        proof {
            lemma_der_int_props(self.r.val());
            lemma_der_int_props(self.s.val());
        }
        let mut body: Vec<u8> = Vec::new();
        push_der_int(&mut body, &self.r);
        let ghost b1 = body@;
        push_der_int(&mut body, &self.s);
        let mut data: Vec<u8> = Vec::new();
        data.push(0x30);
        data.push(body.len() as u8);
        let ghost hdr = data@;
        let mut i: usize = 0;
        while i < body.len()
            invariant
                i <= body@.len(),
                data@ == hdr + body@.subrange(0, i as int),
            decreases body@.len() - i,
        {
            proof {
                assert(hdr + body@.subrange(0, i as int + 1) =~= (hdr + body@.subrange(
                    0, i as int)).push(body@[i as int]));
            }
            data.push(body[i]);
            i = i + 1;
        }
        proof {
            assert(data@ == hdr + body@.subrange(0, body@.len() as int));
            assert(body@.subrange(0, body@.len() as int) =~= body@);
            assert(data@ =~= der_of(self.r.val(), self.s.val()));
        }
        SerializedSignature { data }
    }
}

impl Signature {
    /// Renders the signature as lowercase hexadecimal of its DER encoding.
    pub fn to_text(&self) -> (res: String)
        requires
            self.well_formed(),
        ensures
            res@ == hex_of(der_of(self.r.val(), self.s.val())),
    {
        let ser = self.serialize_der();
        to_hex_text(ser.as_bytes())
    }

    /// Parses hexadecimal text (either case, at most 144 digits) as a
    /// DER-encoded signature.
    pub fn from_text(s: &str) -> (res: Result<Signature, Error>)
        ensures
            match res {
                Ok(sig) => sig.well_formed() && text_parse(s@) == Some(
                    (sig.r.val(), sig.s.val()),
                ),
                Err(e) => e == Error::InvalidSignature && text_parse(s@) is None,
            },
    {
        let n = s.unicode_len();
        if n > 144 {
            return Err(Error::InvalidSignature);
        }
        let bytes = match from_hex_text(s) {
            Some(b) => b,
            None => {
                return Err(Error::InvalidSignature);
            },
        };
        Signature::from_der(bytes.as_slice())
    }
}

/// Whether `b` is the compact encoding of `sig`.
pub open spec fn is_compact_of(sig: Signature, b: Seq<u8>) -> bool {
    &&& b.len() == 64
    &&& be_val(b.subrange(0, 32)) == sig.r.val()
    &&& be_val(b.subrange(32, 64)) == sig.s.val()
}

/// The compact encoding of a signature, as a sequence: the unique 64-byte
/// string whose halves read back as r and s.
pub open spec fn compact_of(sig: Signature) -> Seq<u8> {
    choose|b: Seq<u8>| is_compact_of(sig, b)
}

/// Any byte string that encodes `sig` compactly is `compact_of(sig)`.
pub proof fn lemma_compact_of(sig: Signature, b: Seq<u8>)
    requires
        is_compact_of(sig, b),
    ensures
        compact_of(sig) == b,
{
    let c = compact_of(sig);
    assert(is_compact_of(sig, c)) by {
        assert(exists|x: Seq<u8>| is_compact_of(sig, x)) by {
            assert(is_compact_of(sig, b));
        }
    }
    crate::scalar::lemma_be_val_injective(c.subrange(0, 32), b.subrange(0, 32));
    crate::scalar::lemma_be_val_injective(c.subrange(32, 64), b.subrange(32, 64));
    assert(c =~= c.subrange(0, 32) + c.subrange(32, 64));
    assert(b =~= b.subrange(0, 32) + b.subrange(32, 64));
}

/// Folding an s-value to the lower half twice is the same as folding it
/// once.
pub proof fn lemma_low_s_idempotent(v: nat)
    requires
        in_scalar_range(v),
    ensures
        low_s(low_s(v)) == low_s(v),
{
}

} // verus!
