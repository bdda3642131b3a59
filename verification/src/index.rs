//! The staging index file: a `"DIRC"` magic, a version (always 2), an entry
//! count, the entries, opaque extension bytes carried through unchanged, and
//! a trailing 20-byte checksum over everything before it.

use vstd::prelude::*;
use vstd::slice::{slice_subrange, slice_to_vec};

use crate::bytesio::{bytes_le, push_bytes};
use crate::error::GitError;
use crate::hashing::sha1_of;
use crate::index_entry::{
    spec_decode_entry_at, spec_encode_entry, wf_entry, IndexEntry, IndexEntryV,
};
use crate::numbers::{be32, be32_value, lemma_be32_value, read_be32, u32_to_be};

verus! {

/// The index magic `"DIRC"` as a big-endian 32-bit value.
pub const INDEX_MAGIC: u32 = 0x44495243;

/// The only supported index version.
pub const INDEX_VERSION: u32 = 2;

/// An opaque extension record, carried through the codec unchanged and never
/// interpreted.
#[derive(Debug)]
pub struct ExtensionEntry {
    pub data: Vec<u8>,
}

pub ghost struct IndexV {
    pub version: u32,
    pub count: u32,
    pub entries: Seq<IndexEntryV>,
    pub ext: Seq<u8>,
}

/// The flattened bytes of the extension records.
pub open spec fn exts_concat(s: Seq<Seq<u8>>) -> Seq<u8>
    decreases s.len(),
{
    if s.len() == 0 {
        Seq::<u8>::empty()
    } else {
        s[0] + exts_concat(s.skip(1))
    }
}

/// The concatenation of the entries' encodings.
pub open spec fn spec_encode_index_entries(s: Seq<IndexEntryV>) -> Seq<u8>
    decreases s.len(),
{
    if s.len() == 0 {
        Seq::<u8>::empty()
    } else {
        spec_encode_entry(s[0]) + spec_encode_index_entries(s.skip(1))
    }
}

/// Everything before the checksum: magic, version, count, entries,
/// extensions.
pub open spec fn spec_encode_index_prefix(v: IndexV) -> Seq<u8> {
    be32(INDEX_MAGIC) + be32(v.version) + be32(v.count) + spec_encode_index_entries(v.entries)
        + v.ext
}

/// The whole encoded index: the prefix and the content hash of the prefix.
pub open spec fn spec_encode_index(v: IndexV) -> Seq<u8> {
    spec_encode_index_prefix(v) + sha1_of(spec_encode_index_prefix(v))
}

/// Structural validity: a supported version, a count that equals the number
/// of entries, and well-formed entries.
pub open spec fn wf_index(v: IndexV) -> bool {
    &&& v.version == INDEX_VERSION
    &&& v.count == v.entries.len()
    &&& forall|i: int| 0 <= i < v.entries.len() ==> wf_entry(#[trigger] v.entries[i])
}

/// Entries ordered by path, byte-lexicographically.
pub open spec fn entries_sorted(es: Seq<IndexEntryV>) -> bool {
    forall|i: int, j: int| 0 <= i < j < es.len() ==> bytes_le(#[trigger] es[i].path, #[trigger] es[j].path)
}

/// What decoding `n` entries from `pos` on yields.
pub open spec fn spec_decode_index_entries(s: Seq<u8>, pos: int, n: nat) -> Option<
    (Seq<IndexEntryV>, int),
>
    decreases n,
{
    if n == 0 {
        Some((Seq::<IndexEntryV>::empty(), pos))
    } else {
        match spec_decode_entry_at(s, pos) {
            Some((e, p)) => {
                match spec_decode_index_entries(s, p, (n - 1) as nat) {
                    Some((rest, q)) => Some((seq![e] + rest, q)),
                    None => None,
                }
            },
            None => None,
        }
    }
}

/// What decoding a whole index file yields: the index, and whether the
/// trailing checksum matches a recomputation over the re-encoded index.
pub open spec fn spec_decode_index(s: Seq<u8>) -> Option<(IndexV, bool)> {
    if s.len() >= 32 && be32_value(s.subrange(0, 4)) == INDEX_MAGIC && be32_value(
        s.subrange(4, 8),
    ) == INDEX_VERSION {
        let count = be32_value(s.subrange(8, 12));
        match spec_decode_index_entries(s, 12, count as nat) {
            Some((es, qend)) => {
                if qend <= s.len() - 20 {
                    let v = IndexV {
                        version: INDEX_VERSION,
                        count,
                        entries: es,
                        ext: s.subrange(qend, s.len() - 20),
                    };
                    let ok = s.subrange(s.len() - 20, s.len() as int) == sha1_of(
                        spec_encode_index_prefix(v),
                    );
                    Some((v, ok))
                } else {
                    None
                }
            },
            None => None,
        }
    } else {
        None
    }
}

/// The staging index: version, entry count, entries, and opaque extension
/// records.
#[derive(Debug)]
pub struct Index {
    pub version_number: u32,
    pub entries_number: u32,
    pub entries: Vec<IndexEntry>,
    pub extensions: Vec<ExtensionEntry>,
}

impl View for Index {
    type V = IndexV;

    open spec fn view(&self) -> IndexV {
        IndexV {
            version: self.version_number,
            count: self.entries_number,
            entries: Seq::new(self.entries@.len(), |i: int| self.entries@[i]@),
            ext: exts_concat(Seq::new(self.extensions@.len(), |i: int| self.extensions@[i].data@)),
        }
    }
}

impl Default for Index {
    /// An empty index of the supported version.
    fn default() -> (r: Index)
        ensures
            r@ == (IndexV {
                version: INDEX_VERSION,
                count: 0u32,
                entries: Seq::<IndexEntryV>::empty(),
                ext: Seq::<u8>::empty(),
            }),
    {
        let r = Index {
            version_number: INDEX_VERSION,
            entries_number: 0,
            entries: Vec::new(),
            extensions: Vec::new(),
        };
        proof {
            assert(Seq::new(r.entries@.len(), |i: int| r.entries@[i]@)
                =~= Seq::<IndexEntryV>::empty());
            assert(Seq::new(r.extensions@.len(), |i: int| r.extensions@[i].data@)
                =~= Seq::<Seq<u8>>::empty());
        }
        r
    }
}

impl Index {
    /// The staged entries.
    pub fn entries(&self) -> (r: &Vec<IndexEntry>)
        ensures
            self@.entries == Seq::new(r@.len(), |i: int| r@[i]@),
    {
        &self.entries
    }

    /// Encodes the index, recomputing the trailing checksum.
    pub fn as_bytes(&self) -> (r: Vec<u8>)
        ensures
            r@ == spec_encode_index(self@),
            sha1_of(spec_encode_index_prefix(self@)).len() == 20,
            r@.len() == spec_encode_index_prefix(self@).len() + 20,
    {
        let mut out: Vec<u8> = Vec::new();
        let mut piece = u32_to_be(INDEX_MAGIC);
        out.append(&mut piece);
        let mut piece = u32_to_be(self.version_number);
        out.append(&mut piece);
        let mut piece = u32_to_be(self.entries_number);
        out.append(&mut piece);
        let ghost evs = Seq::new(self.entries@.len(), |i: int| self.entries@[i]@);
        let ghost head = be32(INDEX_MAGIC) + be32(self@.version) + be32(self@.count);
        proof {
            assert(out@ =~= head);
            assert(evs.take(0) =~= Seq::<IndexEntryV>::empty());
            assert(head + Seq::<u8>::empty() =~= head);
        }
        let mut i: usize = 0;
        while i < self.entries.len()
            invariant
                0 <= i <= self.entries@.len(),
                evs == Seq::new(self.entries@.len(), |j: int| self.entries@[j]@),
                head == be32(INDEX_MAGIC) + be32(self@.version) + be32(self@.count),
                out@ == head + spec_encode_index_entries(evs.take(i as int)),
            decreases self.entries@.len() - i,
        {
            let mut piece = self.entries[i].as_bytes();
            out.append(&mut piece);
            proof {
                lemma_encode_index_entries_snoc(evs.take(i as int), evs[i as int]);
                assert(evs.take(i + 1) =~= evs.take(i as int).push(evs[i as int]));
                assert(out@ =~= head + spec_encode_index_entries(evs.take(i + 1)));
            }
            i = i + 1;
        }
        proof {
            assert(evs.take(evs.len() as int) =~= evs);
        }
        let ghost xvs = Seq::new(self.extensions@.len(), |i: int| self.extensions@[i].data@);
        let ghost head2 = head + spec_encode_index_entries(evs);
        proof {
            assert(xvs.take(0) =~= Seq::<Seq<u8>>::empty());
            assert(head2 + Seq::<u8>::empty() =~= head2);
        }
        let mut i: usize = 0;
        while i < self.extensions.len()
            invariant
                0 <= i <= self.extensions@.len(),
                xvs == Seq::new(self.extensions@.len(), |j: int| self.extensions@[j].data@),
                out@ == head2 + exts_concat(xvs.take(i as int)),
            decreases self.extensions@.len() - i,
        {
            push_bytes(&mut out, self.extensions[i].data.as_slice());
            proof {
                lemma_exts_concat_snoc(xvs.take(i as int), xvs[i as int]);
                assert(xvs.take(i + 1) =~= xvs.take(i as int).push(xvs[i as int]));
                assert(out@ =~= head2 + exts_concat(xvs.take(i + 1)));
            }
            i = i + 1;
        }
        proof {
            assert(xvs.take(xvs.len() as int) =~= xvs);
            assert(out@ =~= spec_encode_index_prefix(self@));
        }
        let checksum = crate::hashing::Hash::compute(out.as_slice());
        push_bytes(&mut out, checksum.as_bytes());
        out
    }

    /// Decodes an index file. A wrong magic or a malformed entry is a
    /// `FormatError`; a version other than 2 is `UnsupportedVersion`. The
    /// returned flag says whether the trailing checksum matched a fresh
    /// recomputation over the decoded index; a mismatch is reported, not
    /// fatal.
    pub fn from_bytes(bytes: &[u8]) -> (r: Result<(Index, bool), GitError>)
        ensures
            r is Ok <==> spec_decode_index(bytes@) is Some,
            r is Ok ==> {
                let (v, ok) = spec_decode_index(bytes@).unwrap();
                r.unwrap().0@ == v && r.unwrap().1 == ok
            },
            (bytes@.len() >= 32 && be32_value(bytes@.subrange(0, 4)) == INDEX_MAGIC && be32_value(
                bytes@.subrange(4, 8),
            ) != INDEX_VERSION) ==> r == Err::<(Index, bool), GitError>(
                GitError::UnsupportedVersion,
            ),
    {
        if bytes.len() < 32 {
            return Err(GitError::FormatError);
        }
        let magic = read_be32(bytes, 0);
        if magic != INDEX_MAGIC {
            return Err(GitError::FormatError);
        }
        let version = read_be32(bytes, 4);
        if version != INDEX_VERSION {
            return Err(GitError::UnsupportedVersion);
        }
        let count = read_be32(bytes, 8);
        let (entries, qend) = match parse_index_entries(bytes, 12, count) {
            Ok(p) => p,
            Err(e) => {
                return Err(e);
            },
        };
        if qend > bytes.len() - 20 {
            return Err(GitError::FormatError);
        }
        let ext = slice_to_vec(slice_subrange(bytes, qend, bytes.len() - 20));
        let mut extensions: Vec<ExtensionEntry> = Vec::new();
        let ghost extv = ext@;
        if ext.len() > 0 {
            extensions.push(ExtensionEntry { data: ext });
        }
        let index = Index {
            version_number: INDEX_VERSION,
            entries_number: count,
            entries,
            extensions,
        };
        proof {
            let xvs = Seq::new(index.extensions@.len(), |i: int| index.extensions@[i].data@);
            if extv.len() > 0 {
                assert(xvs =~= seq![extv]);
                assert(exts_concat(xvs) == extv + exts_concat(xvs.skip(1)));
                assert(xvs.skip(1) =~= Seq::<Seq<u8>>::empty());
                assert(extv + Seq::<u8>::empty() =~= extv);
            } else {
                assert(xvs =~= Seq::<Seq<u8>>::empty());
                assert(extv =~= Seq::<u8>::empty());
            }
            assert(index@ == spec_decode_index(bytes@).unwrap().0);
        }
        // recompute the checksum over the re-encoded index and compare
        let reencoded = index.as_bytes();
        let n = reencoded.len();
        let fresh = slice_subrange(reencoded.as_slice(), n - 20, n);
        let stored = slice_subrange(bytes, bytes.len() - 20, bytes.len());
        let ok = crate::hashing::bytes_eq(fresh, stored);
        proof {
            let prefix = spec_encode_index_prefix(index@);
            assert(reencoded@ == prefix + sha1_of(prefix));
            assert(reencoded@.subrange(n - 20, n as int) =~= sha1_of(prefix));
        }
        Ok((index, ok))
    }
}

/// Decodes `count` entries from `start` on.
fn parse_index_entries(bytes: &[u8], start: usize, count: u32) -> (r: Result<
    (Vec<IndexEntry>, usize),
    GitError,
>)
    requires
        start <= bytes@.len(),
    ensures
        r is Ok <==> spec_decode_index_entries(bytes@, start as int, count as nat) is Some,
        r is Ok ==> {
            let (es, q) = spec_decode_index_entries(bytes@, start as int, count as nat).unwrap();
            Seq::new(r.unwrap().0@.len(), |i: int| r.unwrap().0@[i]@) == es && r.unwrap().1 == q
                && q <= bytes@.len()
        },
{
    let mut entries: Vec<IndexEntry> = Vec::new();
    let mut pos = start;
    let mut i: u32 = 0;
    proof {
        assert(Seq::new(entries@.len(), |k: int| entries@[k]@) =~= Seq::<IndexEntryV>::empty());
    }
    while i < count
        invariant
            start <= pos <= bytes@.len(),
            0 <= i <= count,
            spec_decode_index_entries(bytes@, start as int, count as nat) is Some
                <==> spec_decode_index_entries(bytes@, pos as int, (count - i) as nat) is Some,
            spec_decode_index_entries(bytes@, start as int, count as nat) is Some ==> {
                let full = spec_decode_index_entries(bytes@, start as int, count as nat).unwrap();
                let rest = spec_decode_index_entries(bytes@, pos as int, (count - i) as nat).unwrap();
                full.0 == Seq::new(entries@.len(), |k: int| entries@[k]@) + rest.0 && full.1
                    == rest.1
            },
        decreases count - i,
    {
        let ghost pos0 = pos as int;
        let (entry, next) = match IndexEntry::from_bytes_at(bytes, pos) {
            Ok(p) => p,
            Err(e) => {
                return Err(e);
            },
        };
        let ghost prev = Seq::new(entries@.len(), |k: int| entries@[k]@);
        entries.push(entry);
        pos = next;
        i = i + 1;
        proof {
            let cur = Seq::new(entries@.len(), |k: int| entries@[k]@);
            assert(cur =~= prev.push(entry@));
            if spec_decode_index_entries(bytes@, start as int, count as nat) is Some {
                let rest0 = spec_decode_index_entries(bytes@, pos0, (count - i + 1) as nat).unwrap();
                let rest1 = spec_decode_index_entries(bytes@, pos as int, (count - i) as nat).unwrap();
                assert(rest0.0 == seq![entry@] + rest1.0);
                assert(prev + (seq![entry@] + rest1.0) =~= cur + rest1.0);
            }
        }
    }
    proof {
        assert(spec_decode_index_entries(bytes@, pos as int, 0) == Some(
            (Seq::<IndexEntryV>::empty(), pos as int),
        ));
        if spec_decode_index_entries(bytes@, start as int, count as nat) is Some {
            assert(Seq::new(entries@.len(), |k: int| entries@[k]@) + Seq::<IndexEntryV>::empty()
                =~= Seq::new(entries@.len(), |k: int| entries@[k]@));
        }
    }
    Ok((entries, pos))
}

pub proof fn lemma_encode_index_entries_snoc(s: Seq<IndexEntryV>, e: IndexEntryV)
    ensures
        spec_encode_index_entries(s.push(e)) == spec_encode_index_entries(s) + spec_encode_entry(e),
    decreases s.len(),
{
    if s.len() == 0 {
        assert(s.push(e)[0] == e);
        assert(s.push(e).skip(1) =~= Seq::<IndexEntryV>::empty());
        assert(spec_encode_index_entries(Seq::<IndexEntryV>::empty()) == Seq::<u8>::empty());
        assert(spec_encode_index_entries(s.push(e)) =~= spec_encode_entry(e));
        assert(spec_encode_index_entries(s) + spec_encode_entry(e) =~= spec_encode_entry(e));
    } else {
        lemma_encode_index_entries_snoc(s.skip(1), e);
        assert(s.push(e)[0] == s[0]);
        assert(s.push(e).skip(1) =~= s.skip(1).push(e));
        assert(spec_encode_entry(s[0]) + (spec_encode_index_entries(s.skip(1))
            + spec_encode_entry(e)) =~= (spec_encode_entry(s[0]) + spec_encode_index_entries(
            s.skip(1),
        )) + spec_encode_entry(e));
    }
}

pub proof fn lemma_exts_concat_snoc(s: Seq<Seq<u8>>, x: Seq<u8>)
    ensures
        exts_concat(s.push(x)) == exts_concat(s) + x,
    decreases s.len(),
{
    if s.len() == 0 {
        assert(s.push(x)[0] == x);
        assert(s.push(x).skip(1) =~= Seq::<Seq<u8>>::empty());
        assert(exts_concat(Seq::<Seq<u8>>::empty()) == Seq::<u8>::empty());
        assert(exts_concat(s.push(x)) =~= x);
        assert(exts_concat(s) + x =~= x);
    } else {
        lemma_exts_concat_snoc(s.skip(1), x);
        assert(s.push(x)[0] == s[0]);
        assert(s.push(x).skip(1) =~= s.skip(1).push(x));
        assert(s[0] + (exts_concat(s.skip(1)) + x) =~= (s[0] + exts_concat(s.skip(1))) + x);
    }
}

/// Decoding a canonically encoded entry region gives back the entries.
#[verifier::rlimit(100)]
pub proof fn lemma_index_entries_round_trip(
    s: Seq<u8>,
    pos: int,
    entries: Seq<IndexEntryV>,
    tail: Seq<u8>,
)
    requires
        0 <= pos <= s.len(),
        s.skip(pos) == spec_encode_index_entries(entries) + tail,
        forall|i: int| 0 <= i < entries.len() ==> wf_entry(#[trigger] entries[i]),
    ensures
        spec_decode_index_entries(s, pos, entries.len()) == Some(
            (entries, pos + spec_encode_index_entries(entries).len() as int),
        ),
        s.skip(pos + spec_encode_index_entries(entries).len() as int) == tail,
    decreases entries.len(),
{
    if entries.len() == 0 {
        assert(spec_encode_index_entries(entries) == Seq::<u8>::empty());
        assert(s.skip(pos) =~= tail);
        assert(entries =~= Seq::<IndexEntryV>::empty());
    } else {
        let e0 = entries[0];
        let enc0 = spec_encode_entry(e0);
        let rest_enc = spec_encode_index_entries(entries.skip(1));
        assert(spec_encode_index_entries(entries) == enc0 + rest_enc);
        assert(s.skip(pos) =~= enc0 + (rest_enc + tail));
        crate::index_entry::lemma_entry_round_trip(s, pos, e0, rest_enc + tail);
        let p = pos + crate::index_entry::spec_entry_len(e0.path.len()) as int;
        assert(enc0.len() == crate::index_entry::spec_entry_len(e0.path.len())) by {
            crate::index_entry::lemma_entry_enc_len(e0);
        }
        assert(forall|i: int|
            0 <= i < entries.skip(1).len() ==> wf_entry(#[trigger] entries.skip(1)[i]));
        lemma_index_entries_round_trip(s, p, entries.skip(1), tail);
        assert(seq![e0] + entries.skip(1) =~= entries);
    }
}

/// Round trip: decoding an encoded well-formed index reproduces the same
/// entries, version, count and extensions, and its checksum verifies. The
/// content hash of the prefix is 20 bytes, as the hash primitive guarantees.
#[verifier::rlimit(100)]
pub proof fn lemma_index_round_trip(v: IndexV)
    requires
        wf_index(v),
        sha1_of(spec_encode_index_prefix(v)).len() == 20,
    ensures
        spec_decode_index(spec_encode_index(v)) == Some((v, true)),
{
    let prefix = spec_encode_index_prefix(v);
    let digest = sha1_of(prefix);
    let enc = spec_encode_index(v);
    let entenc = spec_encode_index_entries(v.entries);
    assert(enc.len() == 12 + entenc.len() + v.ext.len() + 20);
    let h1 = be32(INDEX_MAGIC);
    let h2 = h1 + be32(v.version);
    let h3 = h2 + be32(v.count);
    assert(prefix == (h3 + entenc) + v.ext);
    assert(enc.subrange(0, 4) =~= be32(INDEX_MAGIC)) by {
        assert forall|i: int| 0 <= i < 4 implies enc.subrange(0, 4)[i] == be32(INDEX_MAGIC)[i] by {
            assert(enc.subrange(0, 4)[i] == enc[i]);
            assert(enc[i] == prefix[i]);
            assert(prefix[i] == (h3 + entenc)[i]);
            assert((h3 + entenc)[i] == h3[i]);
            assert(h3[i] == h2[i]);
            assert(h2[i] == h1[i]);
        }
    }
    assert(enc.subrange(4, 8) =~= be32(v.version)) by {
        assert forall|i: int| 0 <= i < 4 implies enc.subrange(4, 8)[i] == be32(v.version)[i] by {
            assert(enc.subrange(4, 8)[i] == enc[4 + i]);
            assert(enc[4 + i] == prefix[4 + i]);
            assert(prefix[4 + i] == (h3 + entenc)[4 + i]);
            assert((h3 + entenc)[4 + i] == h3[4 + i]);
            assert(h3[4 + i] == h2[4 + i]);
            assert(h2[4 + i] == be32(v.version)[i]);
        }
    }
    assert(enc.subrange(8, 12) =~= be32(v.count)) by {
        assert forall|i: int| 0 <= i < 4 implies enc.subrange(8, 12)[i] == be32(v.count)[i] by {
            assert(enc.subrange(8, 12)[i] == enc[8 + i]);
            assert(enc[8 + i] == prefix[8 + i]);
            assert(prefix[8 + i] == (h3 + entenc)[8 + i]);
            assert((h3 + entenc)[8 + i] == h3[8 + i]);
            assert(h3[8 + i] == be32(v.count)[i]);
        }
    }
    lemma_be32_value(INDEX_MAGIC);
    lemma_be32_value(v.version);
    lemma_be32_value(v.count);
    assert(enc.skip(12) =~= entenc + (v.ext + digest)) by {
        assert forall|i: int| 0 <= i < enc.skip(12).len() implies enc.skip(12)[i] == (entenc + (
        v.ext + digest))[i] by {
            assert(enc.skip(12)[i] == enc[12 + i]);
            if i < entenc.len() {
                assert(enc[12 + i] == prefix[12 + i]);
                assert(prefix[12 + i] == (h3 + entenc)[12 + i]);
                assert((h3 + entenc)[12 + i] == entenc[i]);
            } else if i < entenc.len() + v.ext.len() {
                assert(enc[12 + i] == prefix[12 + i]);
                assert(prefix[12 + i] == v.ext[i - entenc.len()]);
            } else {
                assert(enc[12 + i] == digest[12 + i - prefix.len()]);
            }
        }
    }
    lemma_index_entries_round_trip(enc, 12, v.entries, v.ext + digest);
    let qend = 12 + entenc.len() as int;
    assert(enc.subrange(qend, enc.len() - 20) =~= v.ext) by {
        assert forall|i: int| 0 <= i < v.ext.len() implies enc.subrange(
            qend,
            enc.len() - 20,
        )[i] == v.ext[i] by {
            assert(enc.subrange(qend, enc.len() - 20)[i] == enc[qend + i]);
            assert(enc[qend + i] == prefix[qend + i]);
            assert(prefix[qend + i] == v.ext[i]);
        }
    }
    assert(enc.subrange(enc.len() - 20, enc.len() as int) =~= digest) by {
        assert forall|i: int| 0 <= i < 20 implies enc.subrange(
            enc.len() - 20,
            enc.len() as int,
        )[i] == digest[i] by {
            assert(enc.subrange(enc.len() - 20, enc.len() as int)[i] == enc[enc.len() - 20 + i]);
            assert(enc[enc.len() - 20 + i] == digest[i]);
        }
    }
    let decoded = spec_decode_index(enc).unwrap().0;
    assert(decoded.version == v.version && decoded.count == v.count && decoded.entries == v.entries
        && decoded.ext == v.ext);
    assert(decoded == v);
}

/// Builds and mutates an index: entries are kept ordered by path.
#[derive(Debug)]
pub struct IndexBuilder {
    pub index: Index,
}

impl IndexBuilder {
    /// A builder over an empty index of the supported version.
    pub fn new() -> (r: IndexBuilder)
        ensures
            r.index@ == (IndexV {
                version: INDEX_VERSION,
                count: 0u32,
                entries: Seq::<IndexEntryV>::empty(),
                ext: Seq::<u8>::empty(),
            }),
    {
        IndexBuilder { index: Index::default() }
    }

    /// A builder over an existing index, to modify it.
    pub fn from_index(index: Index) -> (r: IndexBuilder)
        ensures
            r.index@ == index@,
    {
        IndexBuilder { index }
    }

    /// Overrides the version number to write.
    pub fn set_version(&mut self, version: u32)
        ensures
            final(self).index@ == (IndexV { version, ..old(self).index@ }),
    {
        self.index.version_number = version;
    }

    /// Appends an opaque extension record.
    pub fn add_extension_entry(&mut self, entry: ExtensionEntry)
        ensures
            final(self).index@ == (IndexV {
                ext: old(self).index@.ext + entry.data@,
                ..old(self).index@
            }),
    {
        let ghost olds = Seq::new(
            self.index.extensions@.len(),
            |i: int| self.index.extensions@[i].data@,
        );
        let ghost d = entry.data@;
        self.index.extensions.push(entry);
        proof {
            let news = Seq::new(
                self.index.extensions@.len(),
                |i: int| self.index.extensions@[i].data@,
            );
            assert(news =~= olds.push(d));
            lemma_exts_concat_snoc(olds, d);
            assert(Seq::new(self.index.entries@.len(), |i: int| self.index.entries@[i]@)
                =~= Seq::new(old(self).index.entries@.len(), |i: int| old(self).index.entries@[i]@));
        }
    }

    /// Inserts an entry at its ordered position by path; entries already in
    /// order stay in order.
    pub fn add_index_entry(&mut self, entry: IndexEntry)
        ensures
            exists|k: int|
                #![auto]
                0 <= k <= old(self).index@.entries.len() && final(self).index@.entries == old(
                    self,
                ).index@.entries.insert(k, entry@),
            final(self).index@.entries.len() == old(self).index@.entries.len() + 1,
            entries_sorted(old(self).index@.entries) ==> entries_sorted(
                final(self).index@.entries,
            ),
            final(self).index@.version == old(self).index@.version,
            final(self).index@.count == old(self).index@.count,
            final(self).index@.ext == old(self).index@.ext,
    {
        let ghost oldv = Seq::new(self.index.entries@.len(), |i: int| self.index.entries@[i]@);
        let n = self.index.entries.len();
        let mut p: usize = 0;
        loop
            invariant
                0 <= p <= n,
                n == self.index.entries@.len(),
                oldv == Seq::new(self.index.entries@.len(), |i: int| self.index.entries@[i]@),
                forall|i: int| 0 <= i < p ==> bytes_le((#[trigger] oldv[i]).path, entry@.path),
                self.index == old(self).index,
            ensures
                0 <= p <= n,
                forall|i: int| 0 <= i < p ==> bytes_le((#[trigger] oldv[i]).path, entry@.path),
                p < n ==> !bytes_le(oldv[p as int].path, entry@.path),
                self.index == old(self).index,
            decreases n - p,
        {
            if p >= n {
                break;
            }
            if !crate::bytesio::bytes_le_exec(self.index.entries[p].path(), entry.path()) {
                break;
            }
            p = p + 1;
        }
        let ghost e = entry@;
        proof {
            assert(oldv =~= old(self).index@.entries);
        }
        self.index.entries.insert(p, entry);
        proof {
            let newv = Seq::new(self.index.entries@.len(), |i: int| self.index.entries@[i]@);
            assert(newv =~= oldv.insert(p as int, e));
            assert(newv == self.index@.entries);
            assert((p as int) <= old(self).index@.entries.len() && self.index@.entries == old(
                self,
            ).index@.entries.insert(p as int, entry@));
            if entries_sorted(oldv) {
                if p < n {
                    crate::bytesio::lemma_bytes_le_total(oldv[p as int].path, e.path, 0);
                }
                assert forall|i: int, j: int|
                    0 <= i < j < newv.len() implies bytes_le(
                    (#[trigger] newv[i]).path,
                    (#[trigger] newv[j]).path,
                ) by {
                    let pi = p as int;
                    if i < pi && j < pi {
                        assert(newv[i] == oldv[i] && newv[j] == oldv[j]);
                    } else if i < pi && j == pi {
                        assert(newv[i] == oldv[i] && newv[j] == e);
                    } else if i < pi && j > pi {
                        assert(newv[i] == oldv[i] && newv[j] == oldv[j - 1]);
                    } else if i == pi {
                        assert(newv[i] == e && newv[j] == oldv[j - 1]);
                        assert(bytes_le(e.path, oldv[pi].path));
                        if j - 1 > pi {
                            assert(bytes_le(oldv[pi].path, oldv[j - 1].path));
                            crate::bytesio::lemma_bytes_le_trans(
                                e.path,
                                oldv[pi].path,
                                oldv[j - 1].path,
                                0,
                            );
                        }
                    } else {
                        assert(newv[i] == oldv[i - 1] && newv[j] == oldv[j - 1]);
                    }
                }
            }
        }
    }

    /// Removes and returns the first entry whose path is `path`, keeping the
    /// order of the rest.
    pub fn remove_index_entry_by_path(&mut self, path: &[u8]) -> (r: Option<IndexEntry>)
        ensures
            match r {
                Some(removed) => exists|k: int|
                    #![auto]
                    {
                        &&& 0 <= k < old(self).index@.entries.len()
                        &&& old(self).index@.entries[k].path == path@
                        &&& removed@ == old(self).index@.entries[k]
                        &&& final(self).index@.entries == old(self).index@.entries.remove(k)
                        &&& forall|j: int|
                            0 <= j < k ==> (#[trigger] old(self).index@.entries[j]).path != path@
                    },
                None => {
                    &&& final(self).index@ == old(self).index@
                    &&& forall|j: int|
                        0 <= j < old(self).index@.entries.len() ==> (#[trigger] old(
                            self,
                        ).index@.entries[j]).path != path@
                },
            },
            final(self).index@.version == old(self).index@.version,
            final(self).index@.count == old(self).index@.count,
            final(self).index@.ext == old(self).index@.ext,
    {
        let ghost oldv = Seq::new(self.index.entries@.len(), |i: int| self.index.entries@[i]@);
        let n = self.index.entries.len();
        let mut p: usize = 0;
        while p < n
            invariant
                0 <= p <= n,
                n == self.index.entries@.len(),
                oldv == Seq::new(self.index.entries@.len(), |i: int| self.index.entries@[i]@),
                forall|j: int| 0 <= j < p ==> (#[trigger] oldv[j]).path != path@,
                self.index == old(self).index,
            decreases n - p,
        {
            if crate::hashing::bytes_eq(self.index.entries[p].path(), path) {
                proof {
                    assert(oldv =~= old(self).index@.entries);
                }
                let removed = self.index.entries.remove(p);
                proof {
                    let newv = Seq::new(
                        self.index.entries@.len(),
                        |i: int| self.index.entries@[i]@,
                    );
                    assert(newv =~= oldv.remove(p as int));
                    assert((p as int) < old(self).index@.entries.len() && old(
                        self,
                    ).index@.entries[p as int].path == path@ && removed@ == old(
                        self,
                    ).index@.entries[p as int] && self.index@.entries == old(
                        self,
                    ).index@.entries.remove(p as int));
                }
                return Some(removed);
            }
            p = p + 1;
        }
        None
    }

    /// Finalizes the index, recording the entry count. Entries added
    /// through this builder already stand in path order, so their order is
    /// kept; the loaded file order of a decoded index is kept as well.
    pub fn build(self) -> (r: Index)
        requires
            self.index@.entries.len() <= u32::MAX,
        ensures
            r@ == (IndexV {
                count: self.index@.entries.len() as u32,
                ..self.index@
            }),
            entries_sorted(self.index@.entries) ==> entries_sorted(r@.entries),
    {
        let mut index = self.index;
        index.entries_number = index.entries.len() as u32;
        index
    }
}

} // verus!
