//! The DER signature grammar: the minimal encoding of a signature as a
//! SEQUENCE of two INTEGERs, its strict parser, and the relaxed historical
//! parser.

use vstd::prelude::*;

use crate::scalar::{
    Scalar, be_val, in_scalar_range, lemma_be_val_drop_leading_zero, lemma_be_val_lower_bound,
    lemma_be_val_snoc, lemma_pow256_le, lemma_pow256_values, order_scalar, pow256,
};

verus! {

/// The minimal big-endian encoding of a natural number: no leading zero
/// byte, and zero itself is one zero byte.
pub open spec fn min_bytes(v: nat) -> Seq<u8>
    decreases v,
{
    if v < 256 {
        seq![v as u8]
    } else {
        min_bytes(v / 256).push((v % 256) as u8)
    }
}

/// The content bytes of a DER INTEGER holding `v`: the minimal encoding,
/// with one zero byte of padding when the top bit would make it read as
/// negative.
pub open spec fn der_int(v: nat) -> Seq<u8> {
    if min_bytes(v)[0] >= 0x80 {
        seq![0u8] + min_bytes(v)
    } else {
        min_bytes(v)
    }
}

/// The strict DER encoding of the signature pair (r, s).
pub open spec fn der_of(rv: nat, sv: nat) -> Seq<u8> {
    seq![0x30u8, (der_int(rv).len() + der_int(sv).len() + 4) as u8]
        + seq![0x02u8, der_int(rv).len() as u8] + der_int(rv)
        + seq![0x02u8, der_int(sv).len() as u8] + der_int(sv)
}

/// Acceptable content bytes of a strict DER INTEGER carrying a scalar:
/// nonempty, positive, minimally padded, and in the scalar range.
pub open spec fn strict_int_ok(c: Seq<u8>) -> bool {
    &&& c.len() >= 1
    &&& c[0] < 0x80
    &&& (c[0] == 0 ==> c.len() >= 2 && c[1] >= 0x80)
    &&& in_scalar_range(be_val(c))
}

/// The strict DER parse of a byte string: the signature pair it encodes,
/// or nothing. The grammar is the minimal canonical encoding only, and a
/// component that is zero or not below the group order is refused.
pub open spec fn strict_parse(d: Seq<u8>) -> Option<(nat, nat)> {
    if d.len() < 6 {
        None
    } else if d[0] != 0x30 || d[1] >= 0x80 || d[1] != d.len() - 2 {
        None
    } else if d[2] != 0x02 || d[3] >= 0x80 {
        None
    } else if 6 + d[3] > d.len() {
        None
    } else if d[4 + d[3]] != 0x02 || d[4 + d[3] + 1] >= 0x80 {
        None
    } else if 6 + d[3] + d[4 + d[3] + 1] != d.len() {
        None
    } else {
        let rc = d.subrange(4, 4 + d[3]);
        let sc = d.subrange(6 + d[3], d.len() as int);
        if strict_int_ok(rc) && strict_int_ok(sc) {
            Some((be_val(rc), be_val(sc)))
        } else {
            None
        }
    }
}

/// The minimal encoding of a nonzero value is nonempty, has no leading
/// zero, and reads back as the value.
pub proof fn lemma_min_bytes_props(v: nat)
    requires
        v >= 1,
    ensures
        min_bytes(v).len() >= 1,
        min_bytes(v)[0] != 0,
        be_val(min_bytes(v)) == v,
    decreases v,
{
    reveal_with_fuel(be_val, 3);
    if v < 256 {
        assert(min_bytes(v) =~= seq![v as u8]);
        assert(min_bytes(v).drop_last() =~= Seq::<u8>::empty());
        assert(be_val(min_bytes(v).drop_last()) == 0);
    } else {
        let q = v / 256;
        let rem = v % 256;
        vstd::arithmetic::div_mod::lemma_fundamental_div_mod(v as int, 256);
        assert(q >= 1);
        lemma_min_bytes_props(q);
        lemma_be_val_snoc(min_bytes(q), (rem) as u8);
        assert(min_bytes(v) == min_bytes(q).push(rem as u8));
        assert(min_bytes(v)[0] == min_bytes(q)[0]);
    }
}

/// A nonempty byte string without a leading zero is the minimal encoding
/// of its own value.
pub proof fn lemma_min_bytes_unique(s: Seq<u8>)
    requires
        s.len() >= 1,
        s[0] != 0,
    ensures
        min_bytes(be_val(s)) == s,
    decreases s.len(),
{
    reveal_with_fuel(be_val, 3);
    if s.len() == 1 {
        assert(s.drop_last() =~= Seq::<u8>::empty());
        assert(be_val(s) == s[0]);
        assert(min_bytes(be_val(s)) =~= s);
    } else {
        let sp = s.drop_last();
        assert(sp[0] == s[0]);
        lemma_min_bytes_unique(sp);
        lemma_be_val_lower_bound(sp);
        lemma_pow256_le(0, (sp.len() - 1) as nat);
        assert(be_val(sp) >= 1);
        assert(be_val(s) == be_val(sp) * 256 + s.last());
        assert(be_val(s) >= 256) by (nonlinear_arith)
            requires
                be_val(s) == be_val(sp) * 256 + s.last(),
                be_val(sp) >= 1,
                s.last() >= 0,
        ;
        vstd::arithmetic::div_mod::lemma_fundamental_div_mod_converse(
            be_val(s) as int, 256, be_val(sp) as int, s.last() as int);
        assert(be_val(s) / 256 == be_val(sp) && be_val(s) % 256 == s.last());
        assert(min_bytes(be_val(s)) == min_bytes(be_val(sp)).push(s.last() as u8));
        assert(min_bytes(be_val(s)) =~= s);
    }
}

/// A value below `pow256(k)` has a minimal encoding of at most `k` bytes
/// (one byte for zero).
pub proof fn lemma_min_bytes_len(v: nat, k: nat)
    requires
        v < pow256(k),
        k >= 1,
    ensures
        min_bytes(v).len() <= k,
    decreases k,
{
    if v < 256 {
    } else {
        assert(k >= 2) by {
            lemma_pow256_values();
            if k == 1 {
                assert(pow256(1nat) == 256) by {
                    reveal_with_fuel(pow256, 2);
                }
            }
        }
        assert(v / 256 < pow256((k - 1) as nat)) by (nonlinear_arith)
            requires
                v < pow256(k),
                pow256(k) == 256 * pow256((k - 1) as nat),
                v >= 256,
        ;
        lemma_min_bytes_len(v / 256, (k - 1) as nat);
    }
}

/// Facts about the DER INTEGER content of an in-range scalar: it reads
/// back as the value, satisfies the strict content rules, and takes at
/// most 33 bytes.
pub proof fn lemma_der_int_props(v: nat)
    requires
        in_scalar_range(v),
    ensures
        der_int(v).len() >= 1,
        der_int(v).len() <= 33,
        be_val(der_int(v)) == v,
        strict_int_ok(der_int(v)),
{
    lemma_min_bytes_props(v);
    lemma_pow256_values();
    lemma_min_bytes_len(v, 32);
    let mb = min_bytes(v);
    if mb[0] >= 0x80 {
        let c = seq![0u8] + mb;
        assert(der_int(v) == c);
        assert(c[0] == 0 && c[1] == mb[0]);
        lemma_be_val_drop_leading_zero(c);
        assert(c.subrange(1, c.len() as int) =~= mb);
    }
}

/// Appends the DER INTEGER (tag, length, content) of an in-range scalar.
pub fn push_der_int(out: &mut Vec<u8>, x: &Scalar)
    requires
        in_scalar_range(x.val()),
    ensures
        final(out)@ == old(out)@ + seq![0x02u8, der_int(x.val()).len() as u8] + der_int(
            x.val(),
        ),
{
    let ghost v = x.val();
    let mut t: Vec<u8> = Vec::new();
    x.push_be_bytes(&mut t);
    proof {
        assert(t@.subrange(0, 32) =~= t@);
    }
    let mut fz: usize = 0;
    while fz < 32 && t[fz] == 0
        invariant
            fz <= 32,
            t@.len() == 32,
            be_val(t@) == v,
            forall|i: int| 0 <= i < fz ==> t@[i] == 0,
        decreases 32 - fz,
    {
        fz = fz + 1;
    }
    proof {
        crate::scalar::lemma_be_val_skip_zeros(t@, fz as int);
        if fz == 32 {
            assert(t@.subrange(32, 32) =~= Seq::<u8>::empty());
            assert(be_val(t@) == 0);
        }
        assert(fz < 32);
        lemma_min_bytes_unique(t@.subrange(fz as int, 32));
        assert(min_bytes(v) == t@.subrange(fz as int, 32));
    }
    let clen = 32 - fz;
    let pad = t[fz] >= 0x80;
    out.push(0x02);
    if pad {
        out.push((clen + 1) as u8);
        out.push(0x00);
    } else {
        out.push(clen as u8);
    }
    let ghost mid = out@;
    let mut i = fz;
    while i < 32
        invariant
            fz <= i <= 32,
            t@.len() == 32,
            out@ == mid + t@.subrange(fz as int, i as int),
        decreases 32 - i,
    {
        proof {
            assert(mid + t@.subrange(fz as int, i as int + 1) =~= (mid + t@.subrange(
                fz as int, i as int)).push(t@[i as int]));
        }
        out.push(t[i]);
        i = i + 1;
    }
    proof {
        let mb = min_bytes(v);
        let di = der_int(v);
        assert(out@ == mid + mb);
        if pad {
            assert(di == seq![0u8] + mb);
            assert(mid =~= old(out)@ + seq![0x02u8, (mb.len() + 1) as u8, 0u8]);
            assert(di.len() == mb.len() + 1);
            assert(out@ =~= old(out)@ + seq![0x02u8, di.len() as u8] + di);
        } else {
            assert(di == mb);
            assert(mid =~= old(out)@ + seq![0x02u8, mb.len() as u8]);
            assert(out@ =~= old(out)@ + seq![0x02u8, di.len() as u8] + di);
        }
    }
}

/// Parses the content bytes of one strict DER INTEGER into a scalar,
/// refusing anything the strict content rules refuse.
pub fn parse_strict_int(data: &[u8], start: usize, len: usize) -> (res: Option<Scalar>)
    requires
        start + len <= data@.len(),
    ensures
        match res {
            Some(sc) => strict_int_ok(data@.subrange(start as int, start + len)) && sc.val()
                == be_val(data@.subrange(start as int, start + len)),
            None => !strict_int_ok(data@.subrange(start as int, start + len)),
        },
{
    let n = data.len();
    let ghost c = data@.subrange(start as int, start + len);
    if len == 0 {
        return None;
    }
    let c0 = data[start];
    assert(c[0] == c0);
    if c0 >= 0x80 {
        return None;
    }
    let estart: usize;
    let elen: usize;
    if c0 == 0 {
        if len < 2 {
            return None;
        }
        if data[start + 1] < 0x80 {
            return None;
        }
        estart = start + 1;
        elen = len - 1;
    } else {
        estart = start;
        elen = len;
    }
    let ghost e = data@.subrange(estart as int, estart + elen);
    proof {
        lemma_pow256_values();
        assert(e[0] != 0);
        if c0 == 0 {
            lemma_be_val_drop_leading_zero(c);
            assert(c.subrange(1, c.len() as int) =~= e);
        }
        assert(be_val(e) == be_val(c));
        lemma_be_val_lower_bound(e);
    }
    if elen > 32 {
        proof {
            lemma_pow256_le(32, (elen - 1) as nat);
        }
        return None;
    }
    let mut buf: Vec<u8> = Vec::new();
    let mut j: usize = 0;
    while j < 32 - elen
        invariant
            j <= 32 - elen,
            elen <= 32,
            buf@.len() == j,
            forall|i: int| 0 <= i < j ==> buf@[i] == 0,
        decreases 32 - elen - j,
    {
        buf.push(0);
        j = j + 1;
    }
    let mut k: usize = 0;
    while k < elen
        invariant
            k <= elen,
            elen <= 32,
            n == data@.len(),
            estart + elen <= n,
            buf@.len() == 32 - elen + k,
            forall|i: int| 0 <= i < 32 - elen ==> buf@[i] == 0,
            forall|i: int| 0 <= i < k ==> #[trigger] buf@[32 - elen + i] == data@[estart + i],
        decreases elen - k,
    {
        buf.push(data[estart + k]);
        k = k + 1;
    }
    proof {
        assert(buf@.len() == 32);
        crate::scalar::lemma_be_val_skip_zeros(buf@, 32 - elen as int);
        assert forall|j: int| 0 <= j < elen implies buf@.subrange(32 - elen as int, 32)[j]
            == e[j] by {
            assert(buf@[32 - elen + j] == data@[estart + j]);
        }
        assert(buf@.subrange(32 - elen as int, 32) =~= e);
        assert(be_val(buf@) == be_val(e));
    }
    let sc = Scalar::from_be_bytes(buf.as_slice(), 0);
    proof {
        assert(buf@.subrange(0, 32) =~= buf@);
    }
    let ord = order_scalar();
    if sc.is_zero() || !sc.lt(&ord) {
        return None;
    }
    Some(sc)
}

/// How many zero bytes a byte string starts with.
pub open spec fn lead_zeros(s: Seq<u8>) -> int
    decreases s.len(),
{
    if s.len() == 0 || s[0] != 0 {
        0
    } else {
        1 + lead_zeros(s.subrange(1, s.len() as int))
    }
}

pub proof fn lemma_lead_zeros(s: Seq<u8>, k: int)
    requires
        0 <= k <= s.len(),
        forall|i: int| 0 <= i < k ==> s[i] == 0,
        k == s.len() || s[k] != 0,
    ensures
        lead_zeros(s) == k,
    decreases k,
{
    if k == 0 {
    } else {
        let t = s.subrange(1, s.len() as int);
        lemma_lead_zeros(t, k - 1);
    }
}

/// The relaxed parse of one INTEGER header at `pos`: the content position
/// and length, read with the historical tolerances (non-minimal lengths,
/// length bytes with leading zeros), or nothing when even those rules
/// fail.
pub open spec fn lax_int_at(d: Seq<u8>, pos: int) -> Option<(int, int)> {
    if !(0 <= pos && pos < d.len() && d[pos] == 0x02) {
        None
    } else if pos + 1 >= d.len() {
        None
    } else {
        let lb = d[pos + 1] as int;
        if lb < 0x80 {
            if lb > d.len() - (pos + 2) {
                None
            } else {
                Some((pos + 2, lb))
            }
        } else {
            let nb = lb - 0x80;
            if nb > d.len() - (pos + 2) {
                None
            } else {
                let z = lead_zeros(d.subrange(pos + 2, pos + 2 + nb));
                if nb - z >= 8 {
                    None
                } else {
                    let rlen = be_val(d.subrange(pos + 2 + z, pos + 2 + nb)) as int;
                    if rlen > d.len() - (pos + 2 + nb) {
                        None
                    } else {
                        Some((pos + 2 + nb, rlen))
                    }
                }
            }
        }
    }
}

/// The relaxed (lax) DER parse: tolerates the known historical deviations
/// (non-minimal lengths, padding, an ignored sequence length, trailing
/// bytes), but still refuses components that are zero or not below the
/// group order.
pub open spec fn lax_parse(d: Seq<u8>) -> Option<(nat, nat)> {
    if d.len() < 2 || d[0] != 0x30 {
        None
    } else if d[1] >= 0x80 && d[1] - 0x80 > d.len() - 2 {
        None
    } else {
        let p0: int = if d[1] >= 0x80 {
            2 + d[1] - 0x80
        } else {
            2
        };
        match lax_int_at(d, p0) {
            None => None,
            Some((rpos, rlen)) => match lax_int_at(d, rpos + rlen) {
                None => None,
                Some((spos, slen)) => {
                    let rc = d.subrange(rpos, rpos + rlen);
                    let sc = d.subrange(spos, spos + slen);
                    if in_scalar_range(be_val(rc)) && in_scalar_range(be_val(sc)) {
                        Some((be_val(rc), be_val(sc)))
                    } else {
                        None
                    }
                },
            },
        }
    }
}

/// The strict DER encoding of a well-formed pair parses back to the pair:
/// serialization and strict parsing round-trip.
pub proof fn lemma_strict_parse_der_of(rv: nat, sv: nat)
    requires
        in_scalar_range(rv),
        in_scalar_range(sv),
    ensures
        strict_parse(der_of(rv, sv)) == Some((rv, sv)),
{
    lemma_der_int_props(rv);
    lemma_der_int_props(sv);
    let ir = der_int(rv);
    let is = der_int(sv);
    let lr = ir.len() as int;
    let ls = is.len() as int;
    let d = der_of(rv, sv);
    assert(d.len() == 6 + lr + ls);
    assert(d[0] == 0x30 && d[1] == (lr + ls + 4) as u8 && d[2] == 0x02 && d[3] == lr as u8);
    assert(d[4 + lr] == 0x02 && d[4 + lr + 1] == ls as u8);
    assert(d.subrange(4, 4 + lr) =~= ir);
    assert(d.subrange(6 + lr, d.len() as int) =~= is);
}

/// Everything the strict parser accepts, the relaxed parser accepts too,
/// with the same resulting pair.
pub proof fn lemma_strict_implies_lax(d: Seq<u8>)
    requires
        strict_parse(d) is Some,
    ensures
        lax_parse(d) == strict_parse(d),
{
    let lr = d[3] as int;
    let ls = d[4 + lr + 1] as int;
    assert(lax_int_at(d, 2) == Some((4int, lr)));
    assert(lax_int_at(d, 4 + lr) == Some((6 + lr, ls)));
    assert(d.subrange(6 + lr, 6 + lr + ls) =~= d.subrange(6 + d[3] as int, d.len() as int));
}

/// Parses one INTEGER header with the relaxed rules.
pub(crate) fn lax_int_exec(data: &[u8], pos: usize) -> (res: Option<(usize, usize)>)
    ensures
        match res {
            Some((cpos, clen)) => lax_int_at(data@, pos as int) == Some(
                (cpos as int, clen as int),
            ) && cpos + clen <= data@.len(),
            None => lax_int_at(data@, pos as int) is None,
        },
{
    let n = data.len();
    if !(pos < n && data[pos] == 0x02) {
        return None;
    }
    if pos + 1 >= n {
        return None;
    }
    let lb = data[pos + 1];
    if lb < 0x80 {
        let clen = lb as usize;
        if clen > n - (pos + 2) {
            return None;
        }
        Some((pos + 2, clen))
    } else {
        let nb = (lb - 0x80) as usize;
        if nb > n - (pos + 2) {
            return None;
        }
        let ghost lenbytes = data@.subrange(pos + 2, pos + 2 + nb);
        let mut z: usize = 0;
        while z < nb && data[pos + 2 + z] == 0
            invariant
                z <= nb,
                pos + 2 + nb <= n,
                n == data@.len(),
                forall|i: int| 0 <= i < z ==> #[trigger] data@[pos + 2 + i] == 0,
            decreases nb - z,
        {
            z = z + 1;
        }
        proof {
            assert forall|i: int| 0 <= i < z implies lenbytes[i] == 0 by {
                assert(lenbytes[i] == data@[pos + 2 + i]);
            }
            if z < nb {
                assert(lenbytes[z as int] == data@[pos + 2 + z]);
            }
            lemma_lead_zeros(lenbytes, z as int);
        }
        if nb - z >= 8 {
            return None;
        }
        let mut rlen: u64 = 0;
        let mut i: usize = z;
        while i < nb
            invariant
                z <= i <= nb,
                pos + 2 + nb <= n,
                n == data@.len(),
                nb - z < 8,
                rlen == be_val(data@.subrange(pos + 2 + z, pos + 2 + i)),
                rlen < pow256((i - z) as nat),
            decreases nb - i,
        {
            proof {
                lemma_pow256_le((i - z) as nat, 7);
                lemma_pow256_values();
                reveal_with_fuel(pow256, 9);
                lemma_be_val_snoc(
                    data@.subrange(pos + 2 + z, pos + 2 + i),
                    data@[pos + 2 + i],
                );
                assert(data@.subrange(pos + 2 + z, pos + 2 + i + 1) =~= data@.subrange(
                    pos + 2 + z, pos + 2 + i).push(data@[pos + 2 + i]));
            }
            rlen = rlen * 256 + (data[pos + 2 + i] as u64);
            i = i + 1;
        }
        if rlen > (n - (pos + 2 + nb)) as u64 {
            return None;
        }
        Some((pos + 2 + nb, rlen as usize))
    }
}

/// Parses content bytes of a relaxed INTEGER into a scalar: any number of
/// leading zeros is allowed and the top bit carries no sign, but the value
/// must still be a nonzero scalar below the group order.
pub(crate) fn parse_lax_value(data: &[u8], start: usize, len: usize) -> (res: Option<Scalar>)
    requires
        start + len <= data@.len(),
    ensures
        match res {
            Some(sc) => in_scalar_range(be_val(data@.subrange(start as int, start + len)))
                && sc.val() == be_val(data@.subrange(start as int, start + len)),
            None => !in_scalar_range(be_val(data@.subrange(start as int, start + len))),
        },
{
    let n = data.len();
    let ghost c = data@.subrange(start as int, start + len);
    let mut z: usize = 0;
    while z < len && data[start + z] == 0
        invariant
            z <= len,
            start + len <= n,
            n == data@.len(),
            forall|i: int| 0 <= i < z ==> #[trigger] data@[start + i] == 0,
        decreases len - z,
    {
        z = z + 1;
    }
    let estart = start + z;
    let elen = len - z;
    let ghost e = data@.subrange(estart as int, estart + elen);
    proof {
        assert forall|i: int| 0 <= i < z implies c[i] == 0 by {
            assert(c[i] == data@[start + i]);
        }
        crate::scalar::lemma_be_val_skip_zeros(c, z as int);
        assert(c.subrange(z as int, c.len() as int) =~= e);
        assert(be_val(e) == be_val(c));
        lemma_pow256_values();
    }
    if elen == 0 {
        proof {
            assert(e =~= Seq::<u8>::empty());
        }
        return None;
    }
    proof {
        assert(e[0] == data@[estart as int]);
        lemma_be_val_lower_bound(e);
    }
    if elen > 32 {
        proof {
            lemma_pow256_le(32, (elen - 1) as nat);
        }
        return None;
    }
    let mut buf: Vec<u8> = Vec::new();
    let mut j: usize = 0;
    while j < 32 - elen
        invariant
            j <= 32 - elen,
            elen <= 32,
            buf@.len() == j,
            forall|i: int| 0 <= i < j ==> buf@[i] == 0,
        decreases 32 - elen - j,
    {
        buf.push(0);
        j = j + 1;
    }
    let mut k: usize = 0;
    while k < elen
        invariant
            k <= elen,
            elen <= 32,
            n == data@.len(),
            estart + elen <= n,
            buf@.len() == 32 - elen + k,
            forall|i: int| 0 <= i < 32 - elen ==> buf@[i] == 0,
            forall|i: int| 0 <= i < k ==> #[trigger] buf@[32 - elen + i] == data@[estart + i],
        decreases elen - k,
    {
        buf.push(data[estart + k]);
        k = k + 1;
    }
    proof {
        assert(buf@.len() == 32);
        crate::scalar::lemma_be_val_skip_zeros(buf@, 32 - elen as int);
        assert forall|i: int| 0 <= i < elen implies buf@.subrange(32 - elen as int, 32)[i]
            == e[i] by {
            assert(buf@[32 - elen + i] == data@[estart + i]);
        }
        assert(buf@.subrange(32 - elen as int, 32) =~= e);
        assert(be_val(buf@) == be_val(e));
    }
    let sc = Scalar::from_be_bytes(buf.as_slice(), 0);
    proof {
        assert(buf@.subrange(0, 32) =~= buf@);
    }
    let ord = order_scalar();
    if sc.is_zero() || !sc.lt(&ord) {
        return None;
    }
    Some(sc)
}

} // verus!
