//! Byte-region reading and writing primitives shared by the object and index
//! codecs: delimiter scanning with a position cursor, and append helpers with
//! exact contracts over sequence concatenation.

use vstd::prelude::*;
use vstd::slice::{slice_subrange, slice_to_vec};

verus! {

pub const SPACE_BYTE: u8 = 0x20;

pub const NULL_BYTE: u8 = 0x00;

pub const NEWLINE_BYTE: u8 = 0x0a;

/// The index of the first occurrence of `b` in `s` at or after `from`.
pub open spec fn index_of_from(s: Seq<u8>, from: int, b: u8) -> Option<int>
    decreases s.len() - from,
    when 0 <= from
{
    if from < 0 || from >= s.len() {
        None
    } else if s[from] == b {
        Some(from)
    } else {
        index_of_from(s, from + 1, b)
    }
}

/// What `index_of_from` finds is the first occurrence.
pub proof fn lemma_index_of_from_spec(s: Seq<u8>, from: int, b: u8)
    requires
        0 <= from,
    ensures
        match index_of_from(s, from, b) {
            Some(j) => from <= j < s.len() && s[j] == b && (forall|k: int|
                from <= k < j ==> s[k] != b),
            None => forall|k: int| from <= k < s.len() ==> s[k] != b,
        },
    decreases s.len() - from,
{
    if from < s.len() && s[from] != b {
        lemma_index_of_from_spec(s, from + 1, b);
    }
}

/// Exhibiting the first occurrence determines `index_of_from`.
pub proof fn lemma_index_of_from_exact(s: Seq<u8>, from: int, b: u8, j: int)
    requires
        0 <= from <= j < s.len(),
        s[j] == b,
        forall|k: int| from <= k < j ==> s[k] != b,
    ensures
        index_of_from(s, from, b) == Some(j),
    decreases j - from,
{
    if from < j {
        lemma_index_of_from_exact(s, from + 1, b, j);
    }
}

/// A region with no occurrence of `b` leaves `index_of_from` empty.
pub proof fn lemma_index_of_from_none(s: Seq<u8>, from: int, b: u8)
    requires
        0 <= from,
        forall|k: int| from <= k < s.len() ==> s[k] != b,
    ensures
        index_of_from(s, from, b) is None,
    decreases s.len() - from,
{
    if from < s.len() {
        lemma_index_of_from_none(s, from + 1, b);
    }
}

/// Bytes of a region named by a `skip` equality, element by element.
pub proof fn lemma_skip_eq_index(s: Seq<u8>, pos: int, r: Seq<u8>)
    requires
        0 <= pos <= s.len(),
        s.skip(pos) == r,
    ensures
        forall|i: int| 0 <= i < r.len() ==> s[pos + i] == #[trigger] r[i],
{
    assert forall|i: int| 0 <= i < r.len() implies s[pos + i] == #[trigger] r[i] by {
        assert(s.skip(pos)[i] == s[pos + i]);
    }
}

/// Dropping a known prefix of a region named by a `skip` equality.
pub proof fn lemma_skip_concat(s: Seq<u8>, pos: int, x: Seq<u8>, y: Seq<u8>)
    requires
        0 <= pos <= s.len(),
        s.skip(pos) == x + y,
    ensures
        s.skip(pos + x.len()) == y,
{
    let xl = x.len() as int;
    assert(s.skip(pos).len() == xl + y.len());
    assert forall|i: int| 0 <= i < y.len() implies s.skip(pos + xl)[i] == y[i] by {
        assert(s.skip(pos + xl)[i] == s[pos + xl + i]);
        assert(s.skip(pos)[xl + i] == s[pos + (xl + i)]);
        assert((x + y)[xl + i] == y[i]);
    }
    assert(s.skip(pos + xl) =~= y);
}

/// What reading up to (and consuming) the next `b` yields: the bytes before
/// it, and the position just after it.
pub open spec fn spec_read_until(s: Seq<u8>, pos: int, b: u8) -> Option<(Seq<u8>, int)> {
    match index_of_from(s, pos, b) {
        Some(j) => Some((s.subrange(pos, j), j + 1)),
        None => None,
    }
}

/// Reads bytes up to the next `b`, consuming the delimiter; `None`, with the
/// position unchanged, if no `b` follows.
pub fn read_until(s: &[u8], pos: &mut usize, b: u8) -> (r: Option<Vec<u8>>)
    requires
        *old(pos) <= s@.len(),
    ensures
        match r {
            Some(v) => {
                &&& spec_read_until(s@, *old(pos) as int, b) == Some((v@, *final(pos) as int))
                &&& *old(pos) <= *final(pos) <= s@.len()
            },
            None => {
                &&& spec_read_until(s@, *old(pos) as int, b) is None
                &&& *final(pos) == *old(pos)
            },
        },
{
    let start = *pos;
    let mut i = start;
    while i < s.len()
        invariant
            *pos == *old(pos),
            start == *old(pos),
            start <= i <= s@.len(),
            forall|k: int| start <= k < i ==> s@[k] != b,
        decreases s@.len() - i,
    {
        if s[i] == b {
            proof {
                lemma_index_of_from_exact(s@, start as int, b, i as int);
            }
            let out = slice_to_vec(slice_subrange(s, start, i));
            *pos = i + 1;
            return Some(out);
        }
        i = i + 1;
    }
    proof {
        lemma_index_of_from_none(s@, start as int, b);
    }
    None
}

/// The rest of the region from `pos` on.
pub fn take_rest(s: &[u8], pos: usize) -> (r: Vec<u8>)
    requires
        pos <= s@.len(),
    ensures
        r@ == s@.skip(pos as int),
{
    let n = s.len();
    let out = slice_to_vec(slice_subrange(s, pos, n));
    proof {
        assert(s@.subrange(pos as int, s@.len() as int) =~= s@.skip(pos as int));
    }
    out
}

/// Whether `s` carries `prefix` at position `pos`.
pub fn region_has_at(s: &[u8], pos: usize, prefix: &[u8]) -> (r: bool)
    requires
        pos <= s@.len(),
    ensures
        r == (pos + prefix@.len() <= s@.len() && s@.subrange(
            pos as int,
            pos + prefix@.len(),
        ) == prefix@),
{
    let n = s.len();
    if prefix.len() > n - pos {
        return false;
    }
    let sub = slice_subrange(s, pos, pos + prefix.len());
    crate::hashing::bytes_eq(sub, prefix)
}

/// Appends a byte.
pub fn push_byte(out: &mut Vec<u8>, b: u8)
    ensures
        final(out)@ == old(out)@ + seq![b],
{
    out.push(b);
    proof {
        assert(final(out)@ =~= old(out)@ + seq![b]);
    }
}

/// Appends a whole byte region.
pub fn push_bytes(out: &mut Vec<u8>, s: &[u8])
    ensures
        final(out)@ == old(out)@ + s@,
{
    let mut v = slice_to_vec(s);
    out.append(&mut v);
}

/// Appends the decimal digits of `n`.
pub fn push_dec(out: &mut Vec<u8>, n: u64)
    ensures
        final(out)@ == old(out)@ + crate::numbers::dec_digits(n as nat),
{
    let v = crate::numbers::u64_to_dec(n);
    push_bytes(out, v.as_slice());
}

/// Lexicographic byte order, compared from position `i` on.
pub open spec fn bytes_le_from(a: Seq<u8>, b: Seq<u8>, i: int) -> bool
    decreases a.len() - i,
    when 0 <= i
{
    if i >= a.len() {
        true
    } else if i >= b.len() {
        false
    } else if a[i] < b[i] {
        true
    } else if a[i] > b[i] {
        false
    } else {
        bytes_le_from(a, b, i + 1)
    }
}

/// Lexicographic byte order: `a` is a prefix of `b`, or is smaller at the
/// first differing byte.
pub open spec fn bytes_le(a: Seq<u8>, b: Seq<u8>) -> bool {
    bytes_le_from(a, b, 0)
}

/// The order is total.
pub proof fn lemma_bytes_le_total(a: Seq<u8>, b: Seq<u8>, i: int)
    requires
        0 <= i,
    ensures
        bytes_le_from(a, b, i) || bytes_le_from(b, a, i),
    decreases a.len() - i,
{
    if i < a.len() && i < b.len() && a[i] == b[i] {
        lemma_bytes_le_total(a, b, i + 1);
    }
}

/// The order is transitive.
pub proof fn lemma_bytes_le_trans(a: Seq<u8>, b: Seq<u8>, c: Seq<u8>, i: int)
    requires
        0 <= i,
        bytes_le_from(a, b, i),
        bytes_le_from(b, c, i),
    ensures
        bytes_le_from(a, c, i),
    decreases a.len() - i,
{
    if i < a.len() {
        if i < b.len() && i < c.len() && a[i] == b[i] && b[i] == c[i] {
            lemma_bytes_le_trans(a, b, c, i + 1);
        }
    }
}

/// Compares two byte regions in lexicographic order.
pub fn bytes_le_exec(a: &[u8], b: &[u8]) -> (r: bool)
    ensures
        r == bytes_le(a@, b@),
{
    let mut i: usize = 0;
    loop
        invariant
            0 <= i <= a@.len(),
            i <= b@.len(),
            bytes_le(a@, b@) == bytes_le_from(a@, b@, i as int),
        decreases a@.len() - i,
    {
        if i >= a.len() {
            return true;
        }
        if i >= b.len() {
            return false;
        }
        if a[i] < b[i] {
            return true;
        }
        if a[i] > b[i] {
            return false;
        }
        i = i + 1;
    }
}

/// A run of zero bytes.
pub open spec fn zeros(n: nat) -> Seq<u8> {
    Seq::new(n, |i: int| 0u8)
}

/// Appends `n` zero bytes.
pub fn push_zeros(out: &mut Vec<u8>, n: usize)
    ensures
        final(out)@ == old(out)@ + zeros(n as nat),
{
    let mut i: usize = 0;
    while i < n
        invariant
            0 <= i <= n,
            out@ == old(out)@ + zeros(i as nat),
        decreases n - i,
    {
        out.push(0);
        proof {
            assert(out@ =~= old(out)@ + zeros((i + 1) as nat));
        }
        i = i + 1;
    }
}

} // verus!
