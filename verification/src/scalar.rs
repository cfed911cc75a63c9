//! 256-bit scalars of the secp256k1 group, held as four 64-bit limbs, with
//! the arithmetic the signature codec and canonicalization need: big-endian
//! byte conversion, comparison, and subtraction from the group order.

use vstd::prelude::*;

verus! {

/// 256 raised to the power `n`.
pub open spec fn pow256(n: nat) -> nat
    decreases n,
{
    if n == 0 {
        1
    } else {
        256 * pow256((n - 1) as nat)
    }
}

/// The value of a byte string read as a big-endian natural number.
pub open spec fn be_val(s: Seq<u8>) -> nat
    decreases s.len(),
{
    if s.len() == 0 {
        0
    } else {
        (be_val(s.drop_last()) * 256 + s.last()) as nat
    }
}

/// The order of the secp256k1 scalar group.
pub open spec fn group_order() -> nat {
    0xFFFFFFFFFFFFFFFFFFFFFFFFFFFFFFFEBAAEDCE6AF48A03BBFD25E8CD0364141nat
}

/// The lower half of the scalar range: `(group_order() - 1) / 2`.
pub open spec fn half_order() -> nat {
    0x7FFFFFFFFFFFFFFFFFFFFFFFFFFFFFFF5D576E7357A4501DDFE92F46681B20A0nat
}

/// A scalar component of a signature must be nonzero and below the group
/// order.
pub open spec fn in_scalar_range(v: nat) -> bool {
    1 <= v < group_order()
}

/// A 256-bit scalar as four 64-bit limbs, most significant first.
#[derive(Clone, Copy, Debug, PartialEq, Eq, Hash, Structural)]
pub struct Scalar {
    pub d3: u64,
    pub d2: u64,
    pub d1: u64,
    pub d0: u64,
}

impl Scalar {
    /// The natural number this scalar holds.
    pub open spec fn val(self) -> nat {
        (self.d3 * pow256(24) + self.d2 * pow256(16) + self.d1 * pow256(8) + self.d0) as nat
    }
}

pub proof fn lemma_pow256_values()
    ensures
        pow256(8) == 0x10000000000000000nat,
        pow256(16) == 0x100000000000000000000000000000000nat,
        pow256(24) == 0x1000000000000000000000000000000000000000000000000nat,
        pow256(32) == 0x10000000000000000000000000000000000000000000000000000000000000000nat,
{
    reveal_with_fuel(pow256, 33);
}

pub proof fn lemma_pow256_pos(n: nat)
    ensures
        pow256(n) >= 1,
    decreases n,
{
    if n > 0 {
        lemma_pow256_pos((n - 1) as nat);
    }
}

pub proof fn lemma_pow256_le(a: nat, b: nat)
    requires
        a <= b,
    ensures
        pow256(a) <= pow256(b),
        pow256(a) >= 1,
    decreases b,
{
    lemma_pow256_pos(a);
    if a < b {
        lemma_pow256_le(a, (b - 1) as nat);
    }
}

/// Every scalar value lies below `pow256(32)`.
pub proof fn lemma_scalar_val_bound(s: Scalar)
    ensures
        s.val() < pow256(32),
{
    lemma_pow256_values();
}

/// Two scalars with the same value are the same scalar.
pub proof fn lemma_scalar_val_injective(a: Scalar, b: Scalar)
    requires
        a.val() == b.val(),
    ensures
        a == b,
{
    lemma_pow256_values();
    let m: nat = 0x10000000000000000;
    assert(a.val() == ((a.d3 * m + a.d2) * m + a.d1) * m + a.d0) by (nonlinear_arith)
        requires
            a.val() == a.d3 * pow256(24) + a.d2 * pow256(16) + a.d1 * pow256(8) + a.d0,
            pow256(8) == m,
            pow256(16) == m * m,
            pow256(24) == m * m * m,
    ;
    assert(b.val() == ((b.d3 * m + b.d2) * m + b.d1) * m + b.d0) by (nonlinear_arith)
        requires
            b.val() == b.d3 * pow256(24) + b.d2 * pow256(16) + b.d1 * pow256(8) + b.d0,
            pow256(8) == m,
            pow256(16) == m * m,
            pow256(24) == m * m * m,
    ;
    let qa1 = (a.d3 * m + a.d2) * m + a.d1;
    let qb1 = (b.d3 * m + b.d2) * m + b.d1;
    vstd::arithmetic::div_mod::lemma_fundamental_div_mod_converse(
        a.val() as int, m as int, qa1 as int, a.d0 as int);
    vstd::arithmetic::div_mod::lemma_fundamental_div_mod_converse(
        b.val() as int, m as int, qb1 as int, b.d0 as int);
    assert(a.d0 == b.d0 && qa1 == qb1);
    let qa2 = a.d3 * m + a.d2;
    let qb2 = b.d3 * m + b.d2;
    vstd::arithmetic::div_mod::lemma_fundamental_div_mod_converse(
        qa1 as int, m as int, qa2 as int, a.d1 as int);
    vstd::arithmetic::div_mod::lemma_fundamental_div_mod_converse(
        qb1 as int, m as int, qb2 as int, b.d1 as int);
    assert(a.d1 == b.d1 && qa2 == qb2);
    vstd::arithmetic::div_mod::lemma_fundamental_div_mod_converse(
        qa2 as int, m as int, a.d3 as int, a.d2 as int);
    vstd::arithmetic::div_mod::lemma_fundamental_div_mod_converse(
        qb2 as int, m as int, b.d3 as int, b.d2 as int);
    assert(a.d2 == b.d2 && a.d3 == b.d3);
}

/// The group order as a scalar.
pub fn order_scalar() -> (r: Scalar)
    ensures
        r.val() == group_order(),
{
    let r = Scalar {
        d3: 0xFFFFFFFFFFFFFFFF,
        d2: 0xFFFFFFFFFFFFFFFE,
        d1: 0xBAAEDCE6AF48A03B,
        d0: 0xBFD25E8CD0364141,
    };
    proof {
        lemma_pow256_values();
    }
    r
}

/// The half order as a scalar.
pub fn half_order_scalar() -> (r: Scalar)
    ensures
        r.val() == half_order(),
{
    let r = Scalar {
        d3: 0x7FFFFFFFFFFFFFFF,
        d2: 0xFFFFFFFFFFFFFFFF,
        d1: 0x5D576E7357A4501D,
        d0: 0xDFE92F46681B20A0,
    };
    proof {
        lemma_pow256_values();
    }
    r
}

impl Scalar {
    /// Numeric comparison, limb by limb from the most significant.
    pub fn lt(&self, other: &Scalar) -> (r: bool)
        ensures
            r == (self.val() < other.val()),
    {
        proof {
            lemma_pow256_values();
        }
        if self.d3 != other.d3 {
            self.d3 < other.d3
        } else if self.d2 != other.d2 {
            self.d2 < other.d2
        } else if self.d1 != other.d1 {
            self.d1 < other.d1
        } else {
            self.d0 < other.d0
        }
    }

    /// Whether the scalar is zero.
    pub fn is_zero(&self) -> (r: bool)
        ensures
            r == (self.val() == 0),
    {
        proof {
            lemma_pow256_values();
        }
        self.d3 == 0 && self.d2 == 0 && self.d1 == 0 && self.d0 == 0
    }
}

/// One limb of a borrowing subtraction: `x - y - borrow`, with the borrow
/// out.
fn sbb(x: u64, y: u64, borrow: u64) -> (r: (u64, u64))
    requires
        borrow <= 1,
    ensures
        r.1 <= 1,
        x + r.1 * 0x10000000000000000int == y + borrow + r.0,
{
    let rhs: u128 = y as u128 + borrow as u128;
    if x as u128 >= rhs {
        (((x as u128) - rhs) as u64, 0)
    } else {
        ((x as u128 + 0x10000000000000000 - rhs) as u64, 1)
    }
}

/// Summing a four-limb borrowing subtraction: if each limb satisfies its
/// borrow equation, the combined values satisfy `rv + sv == nv + b3*m^4`.
proof fn lemma_borrow_chain(
    m: int, rv: int, sv: int, nv: int,
    r3: int, r2: int, r1: int, r0: int,
    s3: int, s2: int, s1: int, s0: int,
    n3: int, n2: int, n1: int, n0: int,
    b0: int, b1: int, b2: int, b3: int,
)
    requires
        rv == r3 * (m * m * m) + r2 * (m * m) + r1 * m + r0,
        sv == s3 * (m * m * m) + s2 * (m * m) + s1 * m + s0,
        nv == n3 * (m * m * m) + n2 * (m * m) + n1 * m + n0,
        n0 + b0 * m == s0 + r0,
        n1 + b1 * m == s1 + b0 + r1,
        n2 + b2 * m == s2 + b1 + r2,
        n3 + b3 * m == s3 + b2 + r3,
    ensures
        rv + sv == nv + b3 * (m * m * m * m),
{
    let lo = r1 * m + r0;
    let slo = s1 * m + s0;
    let nlo = n1 * m + n0;
    assert(nlo + b1 * (m * m) == slo + lo) by (nonlinear_arith)
        requires
            lo == r1 * m + r0,
            slo == s1 * m + s0,
            nlo == n1 * m + n0,
            n0 + b0 * m == s0 + r0,
            n1 + b1 * m == s1 + b0 + r1,
    ;
    let hi = r3 * m + r2;
    let shi = s3 * m + s2;
    let nhi = n3 * m + n2;
    assert(nhi + b3 * (m * m) == shi + b1 + hi) by (nonlinear_arith)
        requires
            hi == r3 * m + r2,
            shi == s3 * m + s2,
            nhi == n3 * m + n2,
            n2 + b2 * m == s2 + b1 + r2,
            n3 + b3 * m == s3 + b2 + r3,
    ;
    assert(rv == hi * (m * m) + lo) by (nonlinear_arith)
        requires
            rv == r3 * (m * m * m) + r2 * (m * m) + r1 * m + r0,
            hi == r3 * m + r2,
            lo == r1 * m + r0,
    ;
    assert(sv == shi * (m * m) + slo) by (nonlinear_arith)
        requires
            sv == s3 * (m * m * m) + s2 * (m * m) + s1 * m + s0,
            shi == s3 * m + s2,
            slo == s1 * m + s0,
    ;
    assert(nv == nhi * (m * m) + nlo) by (nonlinear_arith)
        requires
            nv == n3 * (m * m * m) + n2 * (m * m) + n1 * m + n0,
            nhi == n3 * m + n2,
            nlo == n1 * m + n0,
    ;
    assert(nhi * (m * m) + b3 * (m * m * m * m) == shi * (m * m) + b1 * (m * m) + hi * (m
        * m)) by (nonlinear_arith)
        requires
            nhi + b3 * (m * m) == shi + b1 + hi,
    ;
    assert(rv + sv == nv + b3 * (m * m * m * m));
}

/// `group_order() - s`, for a nonzero in-range scalar.
pub fn order_sub(s: &Scalar) -> (r: Scalar)
    requires
        in_scalar_range(s.val()),
    ensures
        r.val() == group_order() - s.val(),
{
    let n = order_scalar();
    let (r0, b0) = sbb(n.d0, s.d0, 0);
    let (r1, b1) = sbb(n.d1, s.d1, b0);
    let (r2, b2) = sbb(n.d2, s.d2, b1);
    let (r3, b3) = sbb(n.d3, s.d3, b2);
    let r = Scalar { d3: r3, d2: r2, d1: r1, d0: r0 };
    proof {
        lemma_pow256_values();
        let m: int = 0x10000000000000000;
        lemma_borrow_chain(
            m, r.val() as int, s.val() as int, n.val() as int,
            r.d3 as int, r.d2 as int, r.d1 as int, r.d0 as int,
            s.d3 as int, s.d2 as int, s.d1 as int, s.d0 as int,
            n.d3 as int, n.d2 as int, n.d1 as int, n.d0 as int,
            b0 as int, b1 as int, b2 as int, b3 as int,
        );
        lemma_scalar_val_bound(r);
        assert(b3 == 0);
    }
    r
}

pub proof fn lemma_be_val_snoc(s: Seq<u8>, b: u8)
    ensures
        be_val(s.push(b)) == be_val(s) * 256 + b,
{
    assert(s.push(b).drop_last() =~= s);
}

/// Concatenation splits a big-endian value at a byte boundary.
pub proof fn lemma_be_val_append(a: Seq<u8>, b: Seq<u8>)
    ensures
        be_val(a + b) == be_val(a) * pow256(b.len()) + be_val(b),
    decreases b.len(),
{
    if b.len() == 0 {
        assert(a + b =~= a);
        assert(pow256(b.len()) == 1);
        assert(be_val(b) == 0);
    } else {
        let bp = b.drop_last();
        lemma_be_val_append(a, bp);
        assert((a + b).drop_last() =~= a + bp);
        assert(be_val(a + b) == (be_val(a) * pow256(bp.len()) + be_val(bp)) * 256 + b.last());
        assert((be_val(a) * pow256(bp.len())) * 256 == be_val(a) * pow256(b.len()))
            by (nonlinear_arith)
            requires
                pow256(b.len()) == 256 * pow256(bp.len()),
        ;
        assert(be_val(b) == be_val(bp) * 256 + b.last());
        assert(be_val(a + b) == be_val(a) * pow256(b.len()) + be_val(b));
    }
}

/// A big-endian value is bounded by `pow256` of its length.
pub proof fn lemma_be_val_bound(s: Seq<u8>)
    ensures
        be_val(s) < pow256(s.len()),
    decreases s.len(),
{
    if s.len() == 0 {
    } else {
        let sp = s.drop_last();
        lemma_be_val_bound(sp);
        assert(be_val(sp) * 256 <= (pow256(sp.len()) - 1) * 256) by (nonlinear_arith)
            requires
                be_val(sp) <= pow256(sp.len()) - 1,
        ;
    }
}

/// A leading zero byte does not change the value.
pub proof fn lemma_be_val_drop_leading_zero(s: Seq<u8>)
    requires
        s.len() >= 1,
        s[0] == 0,
    ensures
        be_val(s) == be_val(s.subrange(1, s.len() as int)),
{
    reveal_with_fuel(be_val, 3);
    let head = seq![s[0]];
    let rest = s.subrange(1, s.len() as int);
    assert(s =~= head + rest);
    lemma_be_val_append(head, rest);
    assert(head.drop_last() =~= Seq::<u8>::empty());
    assert(be_val(head.drop_last()) == 0);
    assert(be_val(head) == 0);
}

/// Leading zero bytes do not change the value.
pub proof fn lemma_be_val_skip_zeros(s: Seq<u8>, k: int)
    requires
        0 <= k <= s.len(),
        forall|i: int| 0 <= i < k ==> s[i] == 0,
    ensures
        be_val(s.subrange(k, s.len() as int)) == be_val(s),
    decreases k,
{
    if k > 0 {
        lemma_be_val_drop_leading_zero(s);
        let t = s.subrange(1, s.len() as int);
        lemma_be_val_skip_zeros(t, k - 1);
        assert(t.subrange(k - 1, t.len() as int) =~= s.subrange(k, s.len() as int));
    } else {
        assert(s.subrange(0, s.len() as int) =~= s);
    }
}

/// A byte string with a nonzero first byte has a value at least
/// `pow256(len - 1)`.
pub proof fn lemma_be_val_lower_bound(s: Seq<u8>)
    requires
        s.len() >= 1,
        s[0] != 0,
    ensures
        be_val(s) >= pow256((s.len() - 1) as nat),
{
    reveal_with_fuel(be_val, 3);
    let head = seq![s[0]];
    let rest = s.subrange(1, s.len() as int);
    assert(s =~= head + rest);
    lemma_be_val_append(head, rest);
    assert(head.drop_last() =~= Seq::<u8>::empty());
    assert(be_val(head.drop_last()) == 0);
    assert(be_val(head) == s[0]);
    assert(be_val(head) * pow256(rest.len()) >= pow256(rest.len())) by (nonlinear_arith)
        requires
            be_val(head) >= 1,
            pow256(rest.len()) >= 0,
    ;
}

/// Equal values of equal length mean equal bytes.
pub proof fn lemma_be_val_injective(a: Seq<u8>, b: Seq<u8>)
    requires
        a.len() == b.len(),
        be_val(a) == be_val(b),
    ensures
        a == b,
    decreases a.len(),
{
    if a.len() == 0 {
        assert(a =~= b);
    } else {
        let ap = a.drop_last();
        let bp = b.drop_last();
        vstd::arithmetic::div_mod::lemma_fundamental_div_mod_converse(
            be_val(a) as int, 256, be_val(ap) as int, a.last() as int);
        vstd::arithmetic::div_mod::lemma_fundamental_div_mod_converse(
            be_val(b) as int, 256, be_val(bp) as int, b.last() as int);
        assert(a.last() == b.last() && be_val(ap) == be_val(bp));
        lemma_be_val_injective(ap, bp);
        assert(a =~= ap.push(a.last()));
        assert(b =~= bp.push(b.last()));
    }
}

/// The first byte of a fixed-length big-endian string is the top digit of
/// its value.
pub proof fn lemma_be_val_first_byte(s: Seq<u8>)
    requires
        s.len() >= 1,
    ensures
        s[0] == be_val(s) / pow256((s.len() - 1) as nat),
{
    let head = seq![s[0]];
    let rest = s.subrange(1, s.len() as int);
    assert(s =~= head + rest);
    lemma_be_val_append(head, rest);
    reveal_with_fuel(be_val, 3);
    assert(head.drop_last() =~= Seq::<u8>::empty());
    assert(be_val(head) == s[0]);
    lemma_be_val_bound(rest);
    lemma_pow256_pos(rest.len());
    vstd::arithmetic::div_mod::lemma_fundamental_div_mod_converse(
        be_val(s) as int, pow256(rest.len()) as int, s[0] as int, be_val(rest) as int);
}

/// The value of eight big-endian bytes, written with place values.
pub proof fn lemma_be_val8(s: Seq<u8>)
    requires
        s.len() == 8,
    ensures
        be_val(s) == s[0] * 0x100000000000000int + s[1] * 0x1000000000000int
            + s[2] * 0x10000000000int + s[3] * 0x100000000int + s[4] * 0x1000000int
            + s[5] * 0x10000int + s[6] * 0x100int + s[7],
{
    let s7 = s.drop_last();
    let s6 = s7.drop_last();
    let s5 = s6.drop_last();
    let s4 = s5.drop_last();
    let s3 = s4.drop_last();
    let s2 = s3.drop_last();
    let s1 = s2.drop_last();
    let s0 = s1.drop_last();
    assert(s0 =~= Seq::<u8>::empty());
    assert(be_val(s) == be_val(s7) * 256 + s[7]);
    assert(be_val(s7) == be_val(s6) * 256 + s[6]);
    assert(be_val(s6) == be_val(s5) * 256 + s[5]);
    assert(be_val(s5) == be_val(s4) * 256 + s[4]);
    assert(be_val(s4) == be_val(s3) * 256 + s[3]);
    assert(be_val(s3) == be_val(s2) * 256 + s[2]);
    assert(be_val(s2) == be_val(s1) * 256 + s[1]);
    assert(be_val(s1) == be_val(s0) * 256 + s[0]);
}

/// Reads eight big-endian bytes as one limb.
fn be_limb(data: &[u8], start: usize) -> (r: u64)
    requires
        start + 8 <= data@.len(),
    ensures
        r == be_val(data@.subrange(start as int, start + 8)),
{
    let r = (data[start] as u64) * 0x100000000000000
        + (data[start + 1] as u64) * 0x1000000000000
        + (data[start + 2] as u64) * 0x10000000000
        + (data[start + 3] as u64) * 0x100000000
        + (data[start + 4] as u64) * 0x1000000
        + (data[start + 5] as u64) * 0x10000
        + (data[start + 6] as u64) * 0x100
        + (data[start + 7] as u64);
    proof {
        lemma_be_val8(data@.subrange(start as int, start + 8));
    }
    r
}

/// Appends one limb as eight big-endian bytes.
fn push_be_limb(out: &mut Vec<u8>, d: u64)
    ensures
        final(out)@.len() == old(out)@.len() + 8,
        final(out)@.subrange(0, old(out)@.len() as int) == old(out)@,
        be_val(final(out)@.subrange(old(out)@.len() as int, final(out)@.len() as int)) == d,
{
    let b0: u64 = (d >> 56) & 0xff;
    let b1: u64 = (d >> 48) & 0xff;
    let b2: u64 = (d >> 40) & 0xff;
    let b3: u64 = (d >> 32) & 0xff;
    let b4: u64 = (d >> 24) & 0xff;
    let b5: u64 = (d >> 16) & 0xff;
    let b6: u64 = (d >> 8) & 0xff;
    let b7: u64 = d & 0xff;
    proof {
        assert(b0 < 256 && b1 < 256 && b2 < 256 && b3 < 256 && b4 < 256 && b5 < 256
            && b6 < 256 && b7 < 256 && d == b0 * 0x100000000000000 + b1 * 0x1000000000000
            + b2 * 0x10000000000 + b3 * 0x100000000 + b4 * 0x1000000 + b5 * 0x10000
            + b6 * 0x100 + b7) by (bit_vector)
            requires
                b0 == (d >> 56) & 0xff,
                b1 == (d >> 48) & 0xff,
                b2 == (d >> 40) & 0xff,
                b3 == (d >> 32) & 0xff,
                b4 == (d >> 24) & 0xff,
                b5 == (d >> 16) & 0xff,
                b6 == (d >> 8) & 0xff,
                b7 == d & 0xff,
        ;
    }
    out.push(b0 as u8);
    out.push(b1 as u8);
    out.push(b2 as u8);
    out.push(b3 as u8);
    out.push(b4 as u8);
    out.push(b5 as u8);
    out.push(b6 as u8);
    out.push(b7 as u8);
    proof {
        let t = out@.subrange(old(out)@.len() as int, out@.len() as int);
        assert(t.len() == 8);
        lemma_be_val8(t);
        assert(t[0] == b0 as u8 && t[1] == b1 as u8 && t[2] == b2 as u8 && t[3] == b3 as u8
            && t[4] == b4 as u8 && t[5] == b5 as u8 && t[6] == b6 as u8 && t[7] == b7 as u8);
        assert(out@.subrange(0, old(out)@.len() as int) =~= old(out)@);
    }
}

impl Scalar {
    /// Reads a scalar from 32 big-endian bytes.
    pub fn from_be_bytes(data: &[u8], start: usize) -> (r: Scalar)
        requires
            start + 32 <= data@.len(),
        ensures
            r.val() == be_val(data@.subrange(start as int, start + 32)),
    {
        let n = data.len();
        let d3 = be_limb(data, start);
        let d2 = be_limb(data, start + 8);
        let d1 = be_limb(data, start + 16);
        let d0 = be_limb(data, start + 24);
        let r = Scalar { d3, d2, d1, d0 };
        proof {
            lemma_pow256_values();
            let s = data@.subrange(start as int, start + 32);
            let c3 = data@.subrange(start as int, start + 8);
            let c2 = data@.subrange(start + 8, start + 16);
            let c1 = data@.subrange(start + 16, start + 24);
            let c0 = data@.subrange(start + 24, start + 32);
            assert(s =~= ((c3 + c2) + c1) + c0);
            lemma_be_val_append((c3 + c2) + c1, c0);
            lemma_be_val_append(c3 + c2, c1);
            lemma_be_val_append(c3, c2);
            let m: int = 0x10000000000000000;
            assert(((d3 * m + d2) * m + d1) * m + d0 == d3 * (m * m * m) + d2 * (m * m) + d1
                * m + d0) by (nonlinear_arith);
        }
        r
    }

    /// Appends the scalar as 32 big-endian bytes.
    pub fn push_be_bytes(&self, out: &mut Vec<u8>)
        ensures
            final(out)@.len() == old(out)@.len() + 32,
            final(out)@.subrange(0, old(out)@.len() as int) == old(out)@,
            be_val(final(out)@.subrange(old(out)@.len() as int, final(out)@.len() as int))
                == self.val(),
    {
        let ghost base = out@.len() as int;
        push_be_limb(out, self.d3);
        let ghost v1 = out@;
        push_be_limb(out, self.d2);
        let ghost v2 = out@;
        push_be_limb(out, self.d1);
        let ghost v3 = out@;
        push_be_limb(out, self.d0);
        proof {
            lemma_pow256_values();
            let s = out@.subrange(base, base + 32);
            let c3 = out@.subrange(base, base + 8);
            let c2 = out@.subrange(base + 8, base + 16);
            let c1 = out@.subrange(base + 16, base + 24);
            let c0 = out@.subrange(base + 24, base + 32);
            assert(c3 =~= v1.subrange(base, base + 8));
            assert(c2 =~= v2.subrange(base + 8, base + 16));
            assert(c1 =~= v3.subrange(base + 16, base + 24));
            assert(be_val(c3) == self.d3 && be_val(c2) == self.d2 && be_val(c1) == self.d1
                && be_val(c0) == self.d0);
            assert(s =~= ((c3 + c2) + c1) + c0);
            lemma_be_val_append((c3 + c2) + c1, c0);
            lemma_be_val_append(c3 + c2, c1);
            lemma_be_val_append(c3, c2);
            let m: int = 0x10000000000000000;
            assert(((self.d3 * m + self.d2) * m + self.d1) * m + self.d0 == self.d3 * (m * m
                * m) + self.d2 * (m * m) + self.d1 * m + self.d0) by (nonlinear_arith);
            assert(out@.subrange(0, base) =~= old(out)@);
        }
    }
}

} // verus!
