//! The textual form of a signature: lowercase hexadecimal of the DER
//! encoding, no prefix and no separators; parsing accepts both cases.

use vstd::prelude::*;
use vstd::string::*;

use crate::der::strict_parse;

verus! {

/// The lowercase hexadecimal digit of a nibble.
pub open spec fn hex_char(n: nat) -> char {
    if n == 0 {
        '0'
    } else if n == 1 {
        '1'
    } else if n == 2 {
        '2'
    } else if n == 3 {
        '3'
    } else if n == 4 {
        '4'
    } else if n == 5 {
        '5'
    } else if n == 6 {
        '6'
    } else if n == 7 {
        '7'
    } else if n == 8 {
        '8'
    } else if n == 9 {
        '9'
    } else if n == 10 {
        'a'
    } else if n == 11 {
        'b'
    } else if n == 12 {
        'c'
    } else if n == 13 {
        'd'
    } else if n == 14 {
        'e'
    } else {
        'f'
    }
}

/// The lowercase hexadecimal text of a byte string.
pub open spec fn hex_of(b: Seq<u8>) -> Seq<char>
    decreases b.len(),
{
    if b.len() == 0 {
        Seq::empty()
    } else {
        hex_of(b.drop_last()) + seq![
            hex_char((b.last() / 16) as nat),
            hex_char((b.last() % 16) as nat),
        ]
    }
}

/// The value of one hexadecimal digit, either case, or -1.
pub open spec fn hex_val(c: char) -> int {
    if '0' as int <= c as int && c as int <= '9' as int {
        c as int - '0' as int
    } else if 'a' as int <= c as int && c as int <= 'f' as int {
        c as int - 'a' as int + 10
    } else if 'A' as int <= c as int && c as int <= 'F' as int {
        c as int - 'A' as int + 10
    } else {
        -1
    }
}

/// Decoding hexadecimal text: the byte string, or nothing when the length
/// is odd or a character is no hexadecimal digit.
pub open spec fn hex_decode(t: Seq<char>) -> Option<Seq<u8>>
    decreases t.len(),
{
    if t.len() % 2 != 0 {
        None
    } else if t.len() == 0 {
        Some(Seq::empty())
    } else {
        let hi = hex_val(t[t.len() - 2]);
        let lo = hex_val(t[t.len() - 1]);
        match hex_decode(t.subrange(0, t.len() - 2)) {
            None => None,
            Some(b) => if hi >= 0 && lo >= 0 {
                Some(b.push((hi * 16 + lo) as u8))
            } else {
                None
            },
        }
    }
}

/// What parsing a piece of text as a signature means: decode the
/// hexadecimal (at most 144 digits, the longest DER encoding), then parse
/// the bytes strictly.
pub open spec fn text_parse(t: Seq<char>) -> Option<(nat, nat)> {
    if t.len() > 144 {
        None
    } else {
        match hex_decode(t) {
            None => None,
            Some(b) => strict_parse(b),
        }
    }
}

/// Encoding then decoding hexadecimal gives the bytes back.
pub proof fn lemma_hex_round_trip(b: Seq<u8>)
    ensures
        hex_of(b).len() == 2 * b.len(),
        hex_decode(hex_of(b)) == Some(b),
    decreases b.len(),
{
    if b.len() == 0 {
    } else {
        let bp = b.drop_last();
        lemma_hex_round_trip(bp);
        let t = hex_of(b);
        let hi = (b.last() / 16) as nat;
        let lo = (b.last() % 16) as nat;
        assert(hi < 16 && lo < 16);
        assert(t[t.len() - 2] == hex_char(hi) && t[t.len() - 1] == hex_char(lo));
        assert(hex_val(hex_char(hi)) == hi);
        assert(hex_val(hex_char(lo)) == lo);
        assert(t.subrange(0, t.len() - 2) =~= hex_of(bp));
        assert(hi * 16 + lo == b.last());
        assert(bp.push(b.last()) =~= b);
    }
}

/// The lowercase digit of a nibble, as a one-character piece of text.
fn nibble_str(n: u8) -> (r: &'static str)
    requires
        n < 16,
    ensures
        r@.len() == 1,
        r@[0] == hex_char(n as nat),
{
    match n {
        0 => {
            proof { reveal_strlit("0"); }
            "0"
        },
        1 => {
            proof { reveal_strlit("1"); }
            "1"
        },
        2 => {
            proof { reveal_strlit("2"); }
            "2"
        },
        3 => {
            proof { reveal_strlit("3"); }
            "3"
        },
        4 => {
            proof { reveal_strlit("4"); }
            "4"
        },
        5 => {
            proof { reveal_strlit("5"); }
            "5"
        },
        6 => {
            proof { reveal_strlit("6"); }
            "6"
        },
        7 => {
            proof { reveal_strlit("7"); }
            "7"
        },
        8 => {
            proof { reveal_strlit("8"); }
            "8"
        },
        9 => {
            proof { reveal_strlit("9"); }
            "9"
        },
        10 => {
            proof { reveal_strlit("a"); }
            "a"
        },
        11 => {
            proof { reveal_strlit("b"); }
            "b"
        },
        12 => {
            proof { reveal_strlit("c"); }
            "c"
        },
        13 => {
            proof { reveal_strlit("d"); }
            "d"
        },
        14 => {
            proof { reveal_strlit("e"); }
            "e"
        },
        _ => {
            proof { reveal_strlit("f"); }
            "f"
        },
    }
}

/// Renders a byte slice as lowercase hexadecimal text.
pub(crate) fn to_hex_text(b: &[u8]) -> (res: String)
    ensures
        res@ == hex_of(b@),
{
    let n = b.len();
    let mut out = String::new();
    let mut i: usize = 0;
    while i < n
        invariant
            i <= n,
            n == b@.len(),
            out@ == hex_of(b@.subrange(0, i as int)),
        decreases n - i,
    {
        let x = b[i];
        let hi = x / 16;
        let lo = x % 16;
        out.append(nibble_str(hi));
        out.append(nibble_str(lo));
        proof {
            let p = b@.subrange(0, i as int + 1);
            assert(p.drop_last() =~= b@.subrange(0, i as int));
            assert(p.last() == b@[i as int]);
            assert(out@ =~= hex_of(p));
        }
        i = i + 1;
    }
    proof {
        assert(b@.subrange(0, n as int) =~= b@);
    }
    out
}

/// The value of one hexadecimal digit character, either case.
fn hex_digit(c: char) -> (r: Option<u8>)
    ensures
        match r {
            Some(v) => hex_val(c) == v && v < 16,
            None => hex_val(c) < 0,
        },
{
    let x = c as u32;
    if x >= 48 && x <= 57 {
        Some((x - 48) as u8)
    } else if x >= 97 && x <= 102 {
        Some((x - 87) as u8)
    } else if x >= 65 && x <= 70 {
        Some((x - 55) as u8)
    } else {
        None
    }
}

/// Decodes hexadecimal text into bytes.
pub(crate) fn from_hex_text(s: &str) -> (res: Option<Vec<u8>>)
    ensures
        match res {
            Some(b) => hex_decode(s@) == Some(b@),
            None => hex_decode(s@) is None,
        },
{
    let n = s.unicode_len();
    if n % 2 != 0 {
        return None;
    }
    let mut out: Vec<u8> = Vec::new();
    let mut i: usize = 0;
    while i < n
        invariant
            i <= n,
            i % 2 == 0,
            n % 2 == 0,
            n == s@.len(),
            hex_decode(s@.subrange(0, i as int)) == Some(out@),
        decreases n - i,
    {
        let c1 = s.get_char(i);
        let c2 = s.get_char(i + 1);
        let hi = match hex_digit(c1) {
            Some(v) => v,
            None => {
                proof {
                    lemma_hex_prefix_none(s@, i as int + 2);
                    assert(s@.subrange(0, n as int) =~= s@);
                }
                return None;
            },
        };
        let lo = match hex_digit(c2) {
            Some(v) => v,
            None => {
                proof {
                    lemma_hex_prefix_none(s@, i as int + 2);
                    assert(s@.subrange(0, n as int) =~= s@);
                }
                return None;
            },
        };
        out.push(hi * 16 + lo);
        proof {
            let p = s@.subrange(0, i as int + 2);
            assert(p.subrange(0, p.len() - 2) =~= s@.subrange(0, i as int));
            assert(p[p.len() - 2] == c1 && p[p.len() - 1] == c2);
        }
        i = i + 2;
    }
    proof {
        assert(s@.subrange(0, n as int) =~= s@);
    }
    Some(out)
}

/// If the digit pair ending at `k` is bad, every even-length extension of
/// the prefix fails to decode.
proof fn lemma_hex_prefix_none(t: Seq<char>, k: int)
    requires
        2 <= k <= t.len(),
        k % 2 == 0,
        hex_val(t[k - 2]) < 0 || hex_val(t[k - 1]) < 0,
    ensures
        forall|m: int| k <= m <= t.len() && m % 2 == 0 ==> hex_decode(t.subrange(0, m)) is None,
    decreases t.len(),
{
    assert forall|m: int| k <= m <= t.len() && m % 2 == 0 implies hex_decode(
        t.subrange(0, m),
    ) is None by {
        lemma_hex_bad_pair(t, k, m);
    }
}

/// A bad digit pair inside an even prefix makes the decode of that prefix
/// fail.
proof fn lemma_hex_bad_pair(t: Seq<char>, k: int, m: int)
    requires
        2 <= k <= m <= t.len(),
        k % 2 == 0,
        m % 2 == 0,
        hex_val(t[k - 2]) < 0 || hex_val(t[k - 1]) < 0,
    ensures
        hex_decode(t.subrange(0, m)) is None,
    decreases m,
{
    let p = t.subrange(0, m);
    if m == k {
        assert(p[p.len() - 2] == t[k - 2] && p[p.len() - 1] == t[k - 1]);
    } else {
        lemma_hex_bad_pair(t, k, m - 2);
        assert(p.subrange(0, p.len() - 2) =~= t.subrange(0, m - 2));
    }
}

} // verus!
