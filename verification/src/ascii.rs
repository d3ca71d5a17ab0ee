//! Byte-level text helpers: ASCII views of string literals, case folding for
//! command names, and decimal digit strings for the wire protocol.

use vstd::prelude::*;

verus! {

broadcast use vstd::seq::group_seq_axioms, vstd::string::is_ascii_spec_bytes;

/// The bytes of an ASCII character sequence, one byte per character.
pub open spec fn ascii_of(s: Seq<char>) -> Seq<u8> {
    s.map_values(|c: char| c as u8)
}

/// Uppercases one ASCII letter byte; leaves every other byte alone.
pub open spec fn upper_byte(b: u8) -> u8 {
    if 97 <= b <= 122 {
        (b - 32) as u8
    } else {
        b
    }
}

/// Uppercases the ASCII letters of a byte sequence.
pub open spec fn upper_bytes(s: Seq<u8>) -> Seq<u8> {
    s.map_values(|b: u8| upper_byte(b))
}

/// Whether two string slices hold the same characters.
pub fn str_eq(a: &str, b: &str) -> (r: bool)
    ensures
        r == (a@ == b@),
{
    let alen = a.unicode_len();
    let blen = b.unicode_len();
    if alen != blen {
        return false;
    }
    let mut i: usize = 0;
    while i < alen
        invariant
            i <= alen,
            alen == a@.len(),
            blen == b@.len(),
            alen == blen,
            forall|j: int| 0 <= j < i ==> a@[j] == b@[j],
        decreases alen - i,
    {
        if a.get_char(i) != b.get_char(i) {
            return false;
        }
        i += 1;
    }
    proof {
        assert(a@ =~= b@);
    }
    true
}

/// Whether a byte sequence equals the bytes of an ASCII pattern, such as a
/// command name.  For a non-ASCII pattern the answer is `false`.
pub fn bytes_eq_str(a: &[u8], pat: &str) -> (r: bool)
    ensures
        pat.is_ascii() ==> r == (a@ == ascii_of(pat@)),
        !pat.is_ascii() ==> r == false,
{
    if !pat.is_ascii() {
        return false;
    }
    let pb = pat.as_bytes();
    proof {
        assert(pb@ =~= ascii_of(pat@));
    }
    if a.len() != pb.len() {
        return false;
    }
    let n = a.len();
    let mut i: usize = 0;
    while i < n
        invariant
            i <= n,
            n == a@.len(),
            n == pb@.len(),
            pb@ == ascii_of(pat@),
            forall|j: int| 0 <= j < i ==> a@[j] == pb@[j],
        decreases n - i,
    {
        if a[i] != pb[i] {
            return false;
        }
        i += 1;
    }
    proof {
        assert(a@ =~= pb@);
    }
    true
}

/// Uppercases the ASCII letters of a byte vector, so that command names
/// compare case-insensitively.
pub fn to_upper_bytes(v: &[u8]) -> (r: Vec<u8>)
    ensures
        r@ == upper_bytes(v@),
{
    let n = v.len();
    let mut out: Vec<u8> = Vec::new();
    let mut i: usize = 0;
    while i < n
        invariant
            i <= n,
            n == v@.len(),
            out@ =~= upper_bytes(v@.subrange(0, i as int)),
        decreases n - i,
    {
        let b = v[i];
        if 97 <= b && b <= 122 {
            out.push(b - 32);
        } else {
            out.push(b);
        }
        proof {
            assert(v@.subrange(0, (i + 1) as int).drop_last() =~= v@.subrange(0, i as int));
            assert(out@ =~= upper_bytes(v@.subrange(0, (i + 1) as int)));
        }
        i += 1;
    }
    proof {
        assert(v@.subrange(0, n as int) =~= v@);
    }
    out
}

/// The canonical decimal digit string of a natural number: no sign and no
/// leading zero (`0` itself is the single byte `'0'`).
pub open spec fn dec_digits(n: nat) -> Seq<u8>
    decreases n,
{
    if n < 10 {
        seq![(48 + n) as u8]
    } else {
        dec_digits(n / 10).push((48 + n % 10) as u8)
    }
}

/// The canonical decimal digit string of an integer: a `-` sign when
/// negative, then the digits of the magnitude.
pub open spec fn int_digits(i: int) -> Seq<u8> {
    if i < 0 {
        seq![45u8] + dec_digits((-i) as nat)
    } else {
        dec_digits(i as nat)
    }
}

/// Appends the canonical decimal digits of `n` to `out`.
pub fn push_dec(n: u64, out: &mut Vec<u8>)
    ensures
        final(out)@ == old(out)@ + dec_digits(n as nat),
    decreases n,
{
    if n < 10 {
        out.push(48 + n as u8);
        proof {
            assert(out@ =~= old(out)@ + dec_digits(n as nat));
        }
    } else {
        push_dec(n / 10, out);
        out.push(48 + (n % 10) as u8);
        proof {
            assert(out@ =~= old(out)@ + dec_digits(n as nat));
        }
    }
}

/// Appends the canonical decimal digits of a signed integer to `out`.
pub fn push_dec_signed(i: i64, out: &mut Vec<u8>)
    ensures
        final(out)@ == old(out)@ + int_digits(i as int),
{
    if i < 0 {
        out.push(45);
        let mag: u64 = (-(i + 1)) as u64 + 1;
        assert(mag as nat == (-(i as int)) as nat);
        push_dec(mag, out);
        proof {
            assert(out@ =~= old(out)@ + int_digits(i as int));
        }
    } else {
        push_dec(i as u64, out);
    }
}

} // verus!
