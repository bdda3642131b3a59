//! The 20-byte content hash: SHA-1 over encoded object bytes, with lowercase
//! hex conversion in both directions.

use sha1::{Digest, Sha1};
use vstd::prelude::*;
use vstd::slice::{slice_subrange, slice_to_vec};

use crate::error::GitError;

verus! {

pub const HASH_BYTE_LEN: usize = 20;

pub const HASH_STR_LEN: usize = 40;

/// What the SHA-1 digest of a byte sequence is. The algorithm fixes it from
/// the input bytes alone; its definition is not restated here.
pub uninterp spec fn sha1_of(data: Seq<u8>) -> Seq<u8>;

/// Relies on sha1::Sha1 (`update` then `finalize`): a deterministic 20-byte
/// SHA-1 digest of the input bytes.
#[verifier::external_body]
fn sha1_digest(data: &[u8]) -> (r: Vec<u8>)
    ensures
        r@ == sha1_of(data@),
        r@.len() == 20,
{
    let mut hasher = Sha1::new();
    hasher.update(data);
    hasher.finalize().to_vec()
}

/// The lowercase hex digit of a nibble.
pub open spec fn hex_byte(n: u8) -> u8
    recommends
        n < 16,
{
    if n < 10 {
        (0x30 + n) as u8
    } else {
        (0x57 + n) as u8
    }
}

/// The lowercase hex encoding of a byte sequence, two digits per byte.
pub open spec fn hex_of(s: Seq<u8>) -> Seq<u8>
    decreases s.len(),
{
    if s.len() == 0 {
        Seq::<u8>::empty()
    } else {
        seq![hex_byte(s[0] / 16), hex_byte(s[0] % 16)] + hex_of(s.skip(1))
    }
}

/// The value of one hex digit, accepting both cases.
pub open spec fn hex_val(b: u8) -> Option<u8> {
    if 0x30 <= b <= 0x39 {
        Some((b - 0x30) as u8)
    } else if 0x61 <= b <= 0x66 {
        Some((b - 0x57) as u8)
    } else if 0x41 <= b <= 0x46 {
        Some((b - 0x37) as u8)
    } else {
        None
    }
}

/// What decoding a hex string yields: the bytes, or nothing on odd length or
/// a non-hex digit.
pub open spec fn spec_hex_decode(s: Seq<u8>) -> Option<Seq<u8>>
    decreases s.len(),
{
    if s.len() == 0 {
        Some(Seq::<u8>::empty())
    } else if s.len() == 1 {
        None
    } else {
        match (hex_val(s[0]), hex_val(s[1]), spec_hex_decode(s.skip(2))) {
            (Some(h), Some(l), Some(rest)) => Some(seq![(h * 16 + l) as u8] + rest),
            _ => None,
        }
    }
}

pub proof fn lemma_hex_of_len(s: Seq<u8>)
    ensures
        hex_of(s).len() == 2 * s.len(),
    decreases s.len(),
{
    if s.len() > 0 {
        lemma_hex_of_len(s.skip(1));
    }
}

/// Every byte of a hex encoding is a lowercase hex digit.
pub proof fn lemma_hex_of_digits(s: Seq<u8>)
    ensures
        forall|i: int|
            0 <= i < hex_of(s).len() ==> (0x30 <= #[trigger] hex_of(s)[i] <= 0x39 || 0x61 <= hex_of(
                s,
            )[i] <= 0x66),
    decreases s.len(),
{
    if s.len() > 0 {
        lemma_hex_of_digits(s.skip(1));
        let h = hex_of(s);
        let pair = seq![hex_byte(s[0] / 16), hex_byte(s[0] % 16)];
        assert(h == pair + hex_of(s.skip(1)));
        assert forall|i: int|
            0 <= i < h.len() implies (0x30 <= #[trigger] h[i] <= 0x39 || 0x61 <= h[i]
            <= 0x66) by {
            if i < 2 {
                assert(h[i] == pair[i]);
            } else {
                assert(h[i] == hex_of(s.skip(1))[i - 2]);
            }
        }
    }
}

/// Decoding a hex encoding gives back the original bytes.
pub proof fn lemma_hex_round_trip(s: Seq<u8>)
    ensures
        spec_hex_decode(hex_of(s)) == Some(s),
    decreases s.len(),
{
    if s.len() == 0 {
        assert(hex_of(s).len() == 0);
    } else {
        lemma_hex_round_trip(s.skip(1));
        lemma_hex_of_len(s.skip(1));
        let h = hex_of(s);
        assert(h == seq![hex_byte(s[0] / 16), hex_byte(s[0] % 16)] + hex_of(s.skip(1)));
        assert(h.len() >= 2);
        assert(h[0] == hex_byte(s[0] / 16) && h[1] == hex_byte(s[0] % 16));
        assert(h.skip(2) =~= hex_of(s.skip(1)));
        assert(s[0] / 16 < 16 && s[0] % 16 < 16);
        assert(hex_val(hex_byte(s[0] / 16)) == Some((s[0] / 16) as u8));
        assert(hex_val(hex_byte(s[0] % 16)) == Some((s[0] % 16) as u8));
        let b0 = s[0];
        assert(b0 / 16 * 16 + b0 % 16 == b0) by (bit_vector);
        assert(seq![s[0]] + s.skip(1) =~= s);
    }
}

/// Encodes bytes as lowercase hex, two digits per byte.
pub fn hex_encode(s: &[u8]) -> (r: Vec<u8>)
    ensures
        r@ == hex_of(s@),
{
    let mut out: Vec<u8> = Vec::new();
    let mut i: usize = 0;
    proof {
        assert(s@.skip(0) =~= s@);
    }
    while i < s.len()
        invariant
            0 <= i <= s@.len(),
            hex_of(s@) == out@ + hex_of(s@.skip(i as int)),
        decreases s@.len() - i,
    {
        let b = s[i];
        let hi = b / 16;
        let lo = b % 16;
        let ghost prev = out@;
        if hi < 10 {
            out.push(0x30 + hi);
        } else {
            out.push(0x57 + hi);
        }
        if lo < 10 {
            out.push(0x30 + lo);
        } else {
            out.push(0x57 + lo);
        }
        proof {
            let rest = s@.skip(i as int);
            assert(rest[0] == s@[i as int]);
            assert(rest.skip(1) =~= s@.skip(i + 1));
            assert(hex_of(rest) == seq![hex_byte(s@[i as int] / 16), hex_byte(
                s@[i as int] % 16,
            )] + hex_of(s@.skip(i + 1)));
            assert(out@ =~= prev + seq![hex_byte(s@[i as int] / 16), hex_byte(s@[i as int] % 16)]);
            assert(out@ + hex_of(s@.skip(i + 1)) =~= hex_of(s@));
        }
        i = i + 1;
    }
    proof {
        assert(s@.skip(i as int) =~= Seq::<u8>::empty());
        assert(out@ + Seq::<u8>::empty() =~= out@);
    }
    out
}

/// Decodes a hex string, accepting both digit cases; `None` on odd length or
/// a non-hex digit.
pub fn hex_decode(s: &[u8]) -> (r: Option<Vec<u8>>)
    ensures
        r is Some <==> spec_hex_decode(s@) is Some,
        r is Some ==> Some(r.unwrap()@) == spec_hex_decode(s@),
{
    let mut out: Vec<u8> = Vec::new();
    let mut i: usize = 0;
    proof {
        assert(s@.skip(0) =~= s@);
    }
    while i < s.len()
        invariant
            0 <= i <= s@.len(),
            spec_hex_decode(s@) is Some <==> spec_hex_decode(s@.skip(i as int)) is Some,
            spec_hex_decode(s@) is Some ==> spec_hex_decode(s@) == Some(
                out@ + spec_hex_decode(s@.skip(i as int)).unwrap(),
            ),
        decreases s@.len() - i,
    {
        let ghost rest = s@.skip(i as int);
        proof {
            assert(rest[0] == s@[i as int]);
            if rest.len() >= 2 {
                assert(rest[1] == s@[i + 1]);
                assert(rest.skip(2) =~= s@.skip(i + 2));
            }
        }
        if i + 1 >= s.len() {
            // odd tail
            return None;
        }
        let a = s[i];
        let b = s[i + 1];
        let hi: u8;
        let lo: u8;
        if 0x30 <= a && a <= 0x39 {
            hi = a - 0x30;
        } else if 0x61 <= a && a <= 0x66 {
            hi = a - 0x57;
        } else if 0x41 <= a && a <= 0x46 {
            hi = a - 0x37;
        } else {
            return None;
        }
        if 0x30 <= b && b <= 0x39 {
            lo = b - 0x30;
        } else if 0x61 <= b && b <= 0x66 {
            lo = b - 0x57;
        } else if 0x41 <= b && b <= 0x46 {
            lo = b - 0x37;
        } else {
            return None;
        }
        let ghost prev = out@;
        out.push(hi * 16 + lo);
        proof {
            assert(spec_hex_decode(rest) is Some ==> spec_hex_decode(rest) == Some(
                seq![(hi * 16 + lo) as u8] + spec_hex_decode(s@.skip(i + 2)).unwrap(),
            ));
            assert(out@ =~= prev + seq![(hi * 16 + lo) as u8]);
            if spec_hex_decode(s@) is Some {
                assert(prev + (seq![(hi * 16 + lo) as u8] + spec_hex_decode(
                    s@.skip(i + 2),
                ).unwrap()) =~= out@ + spec_hex_decode(s@.skip(i + 2)).unwrap());
            }
        }
        i = i + 2;
    }
    proof {
        assert(s@.skip(i as int) =~= Seq::<u8>::empty());
        if spec_hex_decode(s@) is Some {
            assert(out@ + Seq::<u8>::empty() =~= out@);
        }
    }
    Some(out)
}

/// A 20-byte content hash with SHA-1 semantics, the key of the object store.
#[derive(Debug)]
pub struct Hash {
    bytes: Vec<u8>,
}

impl View for Hash {
    type V = Seq<u8>;

    closed spec fn view(&self) -> Seq<u8> {
        self.bytes@
    }
}

impl Clone for Hash {
    fn clone(&self) -> (r: Hash)
        ensures
            r@ == self@,
    {
        proof {
            use_type_invariant(self);
        }
        Hash { bytes: slice_to_vec(self.bytes.as_slice()) }
    }
}

impl PartialEq for Hash {
    fn eq(&self, other: &Hash) -> (r: bool) {
        bytes_eq(self.bytes.as_slice(), other.bytes.as_slice())
    }
}

impl vstd::std_specs::cmp::PartialEqSpecImpl for Hash {
    open spec fn obeys_eq_spec() -> bool {
        true
    }

    open spec fn eq_spec(&self, other: &Hash) -> bool {
        self@ == other@
    }
}

impl Eq for Hash {

}

impl Hash {
    #[verifier::type_invariant]
    pub open spec fn wf(self) -> bool {
        self@.len() == 20
    }

    /// The SHA-1 hash of the given bytes.
    pub fn compute(value: &[u8]) -> (r: Hash)
        ensures
            r@ == sha1_of(value@),
            r@.len() == 20,
    {
        Hash { bytes: sha1_digest(value) }
    }

    /// Wraps 20 raw bytes as a hash.
    pub fn from_vec(bytes: Vec<u8>) -> (r: Hash)
        requires
            bytes@.len() == 20,
        ensures
            r@ == bytes@,
    {
        Hash { bytes }
    }

    /// Reads a hash from 20 bytes of a slice starting at `at`.
    pub fn from_slice(s: &[u8], at: usize) -> (r: Hash)
        requires
            at + 20 <= s@.len(),
        ensures
            r@ == s@.subrange(at as int, at + 20),
    {
        let n = s.len();
        Hash { bytes: slice_to_vec(slice_subrange(s, at, at + 20)) }
    }

    /// The raw 20 bytes.
    pub fn as_bytes(&self) -> (r: &[u8])
        ensures
            r@ == self@,
    {
        self.bytes.as_slice()
    }

    pub fn len_is_20(&self) -> (r: usize)
        ensures
            r == self@.len(),
            r == 20,
    {
        proof {
            use_type_invariant(self);
        }
        self.bytes.len()
    }

    /// The lowercase hex digits of the hash, as 40 ASCII bytes.
    pub fn to_hex_bytes(&self) -> (r: Vec<u8>)
        ensures
            r@ == hex_of(self@),
            r@.len() == 40,
    {
        proof {
            use_type_invariant(self);
            lemma_hex_of_len(self@);
        }
        hex_encode(self.bytes.as_slice())
    }

    /// Parses a hash from hex digits given as bytes: exactly 40 hex
    /// characters, otherwise `InvalidArgument`.
    pub fn parse_hex_bytes(s: &[u8]) -> (r: Result<Hash, GitError>)
        ensures
            r is Ok <==> (s@.len() == 40 && spec_hex_decode(s@) is Some),
            r is Ok ==> Some(r.unwrap()@) == spec_hex_decode(s@),
    {
        if s.len() != 40 {
            return Err(GitError::InvalidArgument);
        }
        match hex_decode(s) {
            Some(bytes) => {
                proof {
                    lemma_hex_decode_len(s@);
                }
                Ok(Hash { bytes })
            },
            None => Err(GitError::InvalidArgument),
        }
    }
}

/// A decoded hex string has half as many bytes as digits.
pub proof fn lemma_hex_decode_len(s: Seq<u8>)
    requires
        spec_hex_decode(s) is Some,
    ensures
        spec_hex_decode(s).unwrap().len() == s.len() / 2,
    decreases s.len(),
{
    if s.len() >= 2 {
        lemma_hex_decode_len(s.skip(2));
    }
}

/// Compares two byte regions for equality.
pub fn bytes_eq(a: &[u8], b: &[u8]) -> (r: bool)
    ensures
        r == (a@ == b@),
{
    if a.len() != b.len() {
        return false;
    }
    let mut i: usize = 0;
    while i < a.len()
        invariant
            0 <= i <= a@.len(),
            a@.len() == b@.len(),
            forall|j: int| 0 <= j < i ==> a@[j] == b@[j],
        decreases a@.len() - i,
    {
        if a[i] != b[i] {
            return false;
        }
        i = i + 1;
    }
    proof {
        assert(a@ =~= b@);
    }
    true
}

} // verus!
