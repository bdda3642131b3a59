//! Byte-level codecs for the numbers that appear in the object and index
//! formats: ASCII decimal (lengths, timestamps, modes), two-digit zero-padded
//! decimal (timezone offsets), big-endian 32- and 16-bit integers (index
//! header and entries), and the octal reading of a file mode.

use vstd::prelude::*;

verus! {

pub open spec fn is_digit(b: u8) -> bool {
    0x30 <= b <= 0x39
}

/// The ASCII decimal digits of `n`, most significant first, no leading zeros.
pub open spec fn dec_digits(n: nat) -> Seq<u8>
    decreases n,
{
    if n < 10 {
        seq![(0x30 + n) as u8]
    } else {
        dec_digits(n / 10).push((0x30 + n % 10) as u8)
    }
}

/// The value of a string of ASCII digits, most significant first.
pub open spec fn dec_value(s: Seq<u8>) -> int
    decreases s.len(),
{
    if s.len() == 0 {
        0
    } else {
        dec_value(s.drop_last()) * 10 + (s.last() - 0x30)
    }
}

pub proof fn lemma_dec_value_nonneg(s: Seq<u8>)
    requires
        forall|i: int| 0 <= i < s.len() ==> is_digit(#[trigger] s[i]),
    ensures
        dec_value(s) >= 0,
    decreases s.len(),
{
    if s.len() > 0 {
        lemma_dec_value_nonneg(s.drop_last());
        assert(dec_value(s.drop_last()) * 10 >= 0) by (nonlinear_arith)
            requires
                dec_value(s.drop_last()) >= 0,
        ;
    }
}

/// A canonical decimal string: nonempty, all digits, no leading zero.
pub open spec fn is_canonical_dec(s: Seq<u8>) -> bool {
    &&& s.len() > 0
    &&& forall|i: int| 0 <= i < s.len() ==> is_digit(#[trigger] s[i])
    &&& (s.len() == 1 || s[0] != 0x30)
}

/// What parsing a whole byte region as a decimal number yields.
pub open spec fn spec_parse_dec(s: Seq<u8>) -> Option<u64> {
    if is_canonical_dec(s) && dec_value(s) <= u64::MAX {
        Some(dec_value(s) as u64)
    } else {
        None
    }
}

pub proof fn lemma_dec_digits_value(n: nat)
    ensures
        is_canonical_dec(dec_digits(n)),
        dec_value(dec_digits(n)) == n,
        n >= 1 ==> dec_digits(n)[0] != 0x30,
    decreases n,
{
    if n < 10 {
        let s = dec_digits(n);
        assert(((0x30 + n) as u8) == 0x30 + n);
        assert(s =~= seq![(0x30 + n) as u8]);
        assert(s.drop_last() =~= Seq::<u8>::empty());
        assert(dec_value(s) == dec_value(Seq::<u8>::empty()) * 10 + (s.last() - 0x30));
    } else {
        lemma_dec_digits_value(n / 10);
        let p = dec_digits(n / 10);
        let s = dec_digits(n);
        assert(((0x30 + n % 10) as u8) == 0x30 + n % 10);
        assert(s == p.push((0x30 + n % 10) as u8));
        assert(s.drop_last() =~= p);
        assert(s.last() == (0x30 + n % 10) as u8);
        assert(dec_value(s) == dec_value(p) * 10 + n % 10);
        assert(n / 10 * 10 + n % 10 == n) by (nonlinear_arith)
            requires
                n >= 10,
        ;
        assert(forall|i: int| 0 <= i < s.len() ==> is_digit(#[trigger] s[i])) by {
            assert(forall|i: int| 0 <= i < p.len() ==> is_digit(#[trigger] p[i]));
        }
        assert(s[0] == p[0]);
    }
}

/// A longer digit string never has a smaller value: appending digits can only
/// grow the value.
pub proof fn lemma_dec_value_prefix_le(s: Seq<u8>, i: int)
    requires
        0 <= i <= s.len(),
        forall|j: int| 0 <= j < s.len() ==> is_digit(#[trigger] s[j]),
    ensures
        dec_value(s.take(i)) <= dec_value(s),
    decreases s.len() - i,
{
    if i < s.len() {
        lemma_dec_value_prefix_le(s, i + 1);
        let t = s.take(i + 1);
        assert(t.drop_last() =~= s.take(i));
        assert(forall|j: int| 0 <= j < s.take(i).len() ==> is_digit(#[trigger] s.take(i)[j]));
        lemma_dec_value_nonneg(s.take(i));
        assert(dec_value(t) == dec_value(s.take(i)) * 10 + (t.last() - 0x30));
        assert(dec_value(s.take(i)) * 10 >= dec_value(s.take(i))) by (nonlinear_arith)
            requires
                dec_value(s.take(i)) >= 0,
        ;
    } else {
        assert(s.take(i) =~= s);
    }
}

/// Formats `n` as ASCII decimal digits, most significant first.
pub fn u64_to_dec(n: u64) -> (r: Vec<u8>)
    ensures
        r@ == dec_digits(n as nat),
    decreases n,
{
    if n < 10 {
        let mut v: Vec<u8> = Vec::new();
        v.push(0x30 + n as u8);
        proof {
            assert(v@ =~= dec_digits(n as nat));
        }
        v
    } else {
        let mut v = u64_to_dec(n / 10);
        v.push(0x30 + (n % 10) as u8);
        v
    }
}

/// Parses a whole byte region as a canonical decimal number that fits in
/// `u64`, returning `None` on an empty region, a non-digit, a leading zero,
/// or overflow.
pub fn parse_dec(s: &[u8]) -> (r: Option<u64>)
    ensures
        r == spec_parse_dec(s@),
{
    if s.len() == 0 {
        return None;
    }
    if s.len() > 1 && s[0] == 0x30 {
        return None;
    }
    let mut acc: u64 = 0;
    let mut i: usize = 0;
    while i < s.len()
        invariant
            0 <= i <= s@.len(),
            forall|j: int| 0 <= j < i ==> is_digit(#[trigger] s@[j]),
            acc == dec_value(s@.take(i as int)),
            s@.len() > 1 ==> s@[0] != 0x30,
        decreases s@.len() - i,
    {
        let b = s[i];
        if b < 0x30 || b > 0x39 {
            return None;
        }
        let d: u64 = (b - 0x30) as u64;
        proof {
            assert(s@.take(i + 1).drop_last() =~= s@.take(i as int));
            assert(dec_value(s@.take(i + 1)) == acc * 10 + d);
        }
        if acc > (u64::MAX - d) / 10 {
            proof {
                assert(acc * 10 + d > u64::MAX) by (nonlinear_arith)
                    requires
                        acc > (u64::MAX - d) / 10,
                        d <= 9,
                ;
                if is_canonical_dec(s@) {
                    lemma_dec_value_prefix_le(s@, i + 1);
                }
            }
            return None;
        }
        proof {
            assert(acc * 10 + d <= u64::MAX) by (nonlinear_arith)
                requires
                    acc <= (u64::MAX - d) / 10,
                    d <= 9,
            ;
        }
        acc = acc * 10 + d;
        i = i + 1;
    }
    proof {
        assert(s@.take(i as int) =~= s@);
    }
    Some(acc)
}

/// The big-endian four-byte encoding of a 32-bit integer.
pub open spec fn be32(n: u32) -> Seq<u8> {
    seq![
        ((n >> 24) & 0xff) as u8,
        ((n >> 16) & 0xff) as u8,
        ((n >> 8) & 0xff) as u8,
        (n & 0xff) as u8,
    ]
}

/// The value of four big-endian bytes.
pub open spec fn be32_value(s: Seq<u8>) -> u32
    recommends
        s.len() == 4,
{
    (((s[0] as u32) << 24) | ((s[1] as u32) << 16) | ((s[2] as u32) << 8) | (s[3] as u32)) as u32
}

pub proof fn lemma_be32_value(n: u32)
    ensures
        be32_value(be32(n)) == n,
{
    let s = be32(n);
    assert((((((n >> 24) & 0xff) as u8) as u32) << 24) | (((((n >> 16) & 0xff) as u8) as u32)
        << 16) | (((((n >> 8) & 0xff) as u8) as u32) << 8) | (((n & 0xff) as u8) as u32) == n)
        by (bit_vector);
}

/// The big-endian two-byte encoding of a 16-bit integer.
pub open spec fn be16(n: u16) -> Seq<u8> {
    seq![((n >> 8) & 0xff) as u8, (n & 0xff) as u8]
}

pub open spec fn be16_value(s: Seq<u8>) -> u16
    recommends
        s.len() == 2,
{
    (((s[0] as u16) << 8) | (s[1] as u16)) as u16
}

pub proof fn lemma_be16_value(n: u16)
    ensures
        be16_value(be16(n)) == n,
{
    assert((((((n >> 8) & 0xff) as u8) as u16) << 8) | (((n & 0xff) as u8) as u16) == n)
        by (bit_vector);
}

pub fn u32_to_be(n: u32) -> (r: Vec<u8>)
    ensures
        r@ == be32(n),
{
    let mut v: Vec<u8> = Vec::new();
    v.push(((n >> 24) & 0xff) as u8);
    v.push(((n >> 16) & 0xff) as u8);
    v.push(((n >> 8) & 0xff) as u8);
    v.push((n & 0xff) as u8);
    proof {
        assert(v@ =~= be32(n));
    }
    v
}

pub fn u16_to_be(n: u16) -> (r: Vec<u8>)
    ensures
        r@ == be16(n),
{
    let mut v: Vec<u8> = Vec::new();
    v.push(((n >> 8) & 0xff) as u8);
    v.push((n & 0xff) as u8);
    proof {
        assert(v@ =~= be16(n));
    }
    v
}

/// Reads four big-endian bytes starting at `at`.
pub fn read_be32(s: &[u8], at: usize) -> (r: u32)
    requires
        at + 4 <= s@.len(),
    ensures
        r == be32_value(s@.subrange(at as int, at + 4)),
{
    let r = ((s[at] as u32) << 24) | ((s[at + 1] as u32) << 16) | ((s[at + 2] as u32) << 8) | (s[at
        + 3] as u32);
    proof {
        let t = s@.subrange(at as int, at + 4);
        assert(t[0] == s@[at as int] && t[1] == s@[at + 1] && t[2] == s@[at + 2] && t[3] == s@[at
            + 3]);
    }
    r
}

/// Reads two big-endian bytes starting at `at`.
pub fn read_be16(s: &[u8], at: usize) -> (r: u16)
    requires
        at + 2 <= s@.len(),
    ensures
        r == be16_value(s@.subrange(at as int, at + 2)),
{
    let r = ((s[at] as u16) << 8) | (s[at + 1] as u16);
    proof {
        let t = s@.subrange(at as int, at + 2);
        assert(t[0] == s@[at as int] && t[1] == s@[at + 1]);
    }
    r
}

/// The number whose decimal digits read as the octal digits of `n`:
/// the file mode `0o100644` becomes the number `100644`.
pub open spec fn oct_as_dec(n: nat) -> nat
    decreases n,
{
    if n < 8 {
        n
    } else {
        oct_as_dec(n / 8) * 10 + n % 8
    }
}

/// Rewrites a file mode into the decimal reading of its octal digits.
/// Tree entries store modes in that form.
pub fn as_octal(num: u32) -> (r: u32)
    requires
        oct_as_dec(num as nat) <= u32::MAX,
    ensures
        r == oct_as_dec(num as nat),
    decreases num,
{
    if num < 8 {
        num
    } else {
        proof {
            assert(oct_as_dec((num / 8) as nat) * 10 <= oct_as_dec(num as nat)) by (nonlinear_arith)
                requires
                    num >= 8,
                    oct_as_dec(num as nat) == oct_as_dec((num / 8) as nat) * 10 + num % 8,
            ;
        }
        let high = as_octal(num / 8);
        high * 10 + num % 8
    }
}

/// The two-digit zero-padded decimal encoding used by timezone offsets.
pub open spec fn two_dec(n: u8) -> Seq<u8>
    recommends
        n < 100,
{
    seq![(0x30 + n / 10) as u8, (0x30 + n % 10) as u8]
}

pub fn u8_to_two_dec(n: u8) -> (r: Vec<u8>)
    ensures
        r@ == two_dec(n),
{
    let mut v: Vec<u8> = Vec::new();
    v.push(0x30 + n / 10);
    v.push(0x30 + n % 10);
    proof {
        assert(v@ =~= two_dec(n));
    }
    v
}

} // verus!
