//! The content-addressed object store: objects are kept under their content
//! hash; the encoded bytes are hashed uncompressed, compressed on write, and
//! decompressed on read. The store value holds what the objects directory
//! holds; writing to disk is the caller's side of the bargain, driven by the
//! pending write this module hands out.

use std::io::{Read, Write};

use vstd::prelude::*;

use crate::error::GitError;
use crate::hashing::{hex_of, sha1_of};
use crate::object::{spec_decode_object, spec_encode_object, Object, ObjectV};

verus! {

/// What the zlib compression of a byte sequence is, at the default level.
/// Fixed by the algorithm and the input bytes alone.
pub uninterp spec fn deflate_of(data: Seq<u8>) -> Seq<u8>;

/// What zlib decompression of a byte sequence yields: the decompressed
/// bytes, or nothing on an invalid stream. A function of the input bytes
/// alone.
pub uninterp spec fn inflate_of(data: Seq<u8>) -> Option<Seq<u8>>;

/// Relies on flate2's `ZlibEncoder` at the default compression level: a
/// deterministic zlib stream whose decompression yields the input again.
/// Writing into a `Vec` sink cannot fail.
#[verifier::external_body]
fn zlib_compress(data: &[u8]) -> (r: Vec<u8>)
    ensures
        r@ == deflate_of(data@),
        inflate_of(r@) == Some(data@),
{
    let mut encoder = flate2::write::ZlibEncoder::new(Vec::new(), flate2::Compression::default());
    encoder.write_all(data).expect("writing to a vector sink cannot fail");
    encoder.finish().expect("finishing a vector sink cannot fail")
}

/// Relies on flate2's `ZlibDecoder`: decompression is a function of the
/// input bytes, failing exactly on invalid streams.
#[verifier::external_body]
fn zlib_decompress(data: &[u8]) -> (r: Result<Vec<u8>, GitError>)
    ensures
        r is Ok <==> inflate_of(data@) is Some,
        r is Ok ==> Some(r.unwrap()@) == inflate_of(data@),
{
    let mut buf = Vec::new();
    let mut decoder = flate2::bufread::ZlibDecoder::new(data);
    match decoder.read_to_end(&mut buf) {
        Ok(_) => Ok(buf),
        Err(_) => Err(GitError::Corrupt),
    }
}

/// Compresses bytes with zlib.
pub fn compress(bytes: &[u8]) -> (r: Vec<u8>)
    ensures
        r@ == deflate_of(bytes@),
        inflate_of(r@) == Some(bytes@),
{
    zlib_compress(bytes)
}

/// Decompresses a zlib stream; `Corrupt` on an invalid one.
pub fn decompress(bytes: &[u8]) -> (r: Result<Vec<u8>, GitError>)
    ensures
        r is Ok <==> inflate_of(bytes@) is Some,
        r is Ok ==> Some(r.unwrap()@) == inflate_of(bytes@),
{
    zlib_decompress(bytes)
}

impl Object {
    /// The compressed form of this object's encoding, as stored on disk.
    pub fn compress(&self) -> (r: Vec<u8>)
        ensures
            r@ == deflate_of(spec_encode_object(self@)),
            inflate_of(r@) == Some(spec_encode_object(self@)),
    {
        let bytes = self.as_bytes();
        zlib_compress(bytes.as_slice())
    }
}

/// A file the caller still has to write: the object directory name (the
/// first two hex digits of the hash), the file name (the other 38), and the
/// compressed object bytes.
#[derive(Debug)]
pub struct PendingWrite {
    pub dir: Vec<u8>,
    pub name: Vec<u8>,
    pub data: Vec<u8>,
}

/// Splits a hash's 40 hex digits into the object directory name and the file
/// name under it.
pub fn get_object_hash_and_filename(hash_hex: &[u8]) -> (r: (Vec<u8>, Vec<u8>))
    requires
        hash_hex@.len() >= 2,
    ensures
        r.0@ == hash_hex@.take(2),
        r.1@ == hash_hex@.skip(2),
{
    let n = hash_hex.len();
    let dir = vstd::slice::slice_to_vec(vstd::slice::slice_subrange(hash_hex, 0, 2));
    let name = vstd::slice::slice_to_vec(vstd::slice::slice_subrange(hash_hex, 2, n));
    proof {
        assert(hash_hex@.subrange(0, 2) =~= hash_hex@.take(2));
        assert(hash_hex@.subrange(2, hash_hex@.len() as int) =~= hash_hex@.skip(2));
    }
    (dir, name)
}

/// What a store holds: hash bytes mapped to encoded object bytes, first
/// match wins.
pub open spec fn store_lookup(s: Seq<(Seq<u8>, Seq<u8>)>, h: Seq<u8>) -> Option<Seq<u8>>
    decreases s.len(),
{
    if s.len() == 0 {
        None
    } else if s[0].0 == h {
        Some(s[0].1)
    } else {
        store_lookup(s.skip(1), h)
    }
}

/// What writing encoded bytes under a hash does to the store model: nothing
/// if the hash is already present, an append otherwise.
pub open spec fn spec_store_write(
    s: Seq<(Seq<u8>, Seq<u8>)>,
    h: Seq<u8>,
    data: Seq<u8>,
) -> Seq<(Seq<u8>, Seq<u8>)> {
    if store_lookup(s, h) is Some {
        s
    } else {
        s.push((h, data))
    }
}

/// The in-memory object store: each entry maps a content hash to the
/// object's uncompressed encoded bytes.
#[derive(Debug)]
pub struct ObjectStore {
    pub entries: Vec<(crate::hashing::Hash, Vec<u8>)>,
}

impl View for ObjectStore {
    type V = Seq<(Seq<u8>, Seq<u8>)>;

    open spec fn view(&self) -> Seq<(Seq<u8>, Seq<u8>)> {
        Seq::new(self.entries@.len(), |i: int| (self.entries@[i].0@, self.entries@[i].1@))
    }
}

impl ObjectStore {
    /// An empty store.
    pub fn new() -> (r: ObjectStore)
        ensures
            r@ == Seq::<(Seq<u8>, Seq<u8>)>::empty(),
    {
        let r = ObjectStore { entries: Vec::new() };
        proof {
            assert(r@ =~= Seq::<(Seq<u8>, Seq<u8>)>::empty());
        }
        r
    }

    /// Hands the store one object's raw encoded bytes, as loaded from disk;
    /// an already-present hash is left untouched.
    pub fn insert_loaded(&mut self, hash: crate::hashing::Hash, data: Vec<u8>)
        ensures
            final(self)@ == spec_store_write(old(self)@, hash@, data@),
    {
        if self.contains(&hash) {
            return;
        }
        let ghost oldv = self@;
        self.entries.push((hash, data));
        proof {
            assert(self@ =~= oldv.push((hash@, data@)));
        }
    }

    /// Whether an object with this hash is stored.
    pub fn contains(&self, hash: &crate::hashing::Hash) -> (r: bool)
        ensures
            r == (store_lookup(self@, hash@) is Some),
    {
        let mut i: usize = 0;
        proof {
            assert(self@.skip(0) =~= self@);
        }
        while i < self.entries.len()
            invariant
                0 <= i <= self.entries@.len(),
                self@.len() == self.entries@.len(),
                store_lookup(self@, hash@) == store_lookup(self@.skip(i as int), hash@),
            decreases self.entries@.len() - i,
        {
            let ghost rest = self@.skip(i as int);
            proof {
                assert(rest[0] == self@[i as int]);
                assert(rest.skip(1) =~= self@.skip(i + 1));
            }
            if crate::hashing::bytes_eq(self.entries[i].0.as_bytes(), hash.as_bytes()) {
                return true;
            }
            i = i + 1;
        }
        proof {
            assert(self@.skip(i as int) =~= Seq::<(Seq<u8>, Seq<u8>)>::empty());
        }
        false
    }

    /// The stored encoded bytes of an object, if present.
    pub fn get(&self, hash: &crate::hashing::Hash) -> (r: Option<&Vec<u8>>)
        ensures
            match r {
                Some(d) => store_lookup(self@, hash@) == Some(d@),
                None => store_lookup(self@, hash@) is None,
            },
    {
        let mut i: usize = 0;
        proof {
            assert(self@.skip(0) =~= self@);
        }
        while i < self.entries.len()
            invariant
                0 <= i <= self.entries@.len(),
                self@.len() == self.entries@.len(),
                store_lookup(self@, hash@) == store_lookup(self@.skip(i as int), hash@),
            decreases self.entries@.len() - i,
        {
            let ghost rest = self@.skip(i as int);
            proof {
                assert(rest[0] == self@[i as int]);
                assert(rest.skip(1) =~= self@.skip(i + 1));
            }
            if crate::hashing::bytes_eq(self.entries[i].0.as_bytes(), hash.as_bytes()) {
                return Some(&self.entries[i].1);
            }
            i = i + 1;
        }
        proof {
            assert(self@.skip(i as int) =~= Seq::<(Seq<u8>, Seq<u8>)>::empty());
        }
        None
    }

    /// Encodes and hashes an object, stores it under its hash if absent, and
    /// returns the hash, together with the file the caller must create when
    /// the object was new. An already-present hash leaves the store — and the
    /// disk — untouched: content-addressing makes the existing file
    /// identical.
    pub fn write(&mut self, obj: &Object) -> (r: (crate::hashing::Hash, Option<PendingWrite>))
        ensures
            r.0@ == sha1_of(spec_encode_object(obj@)),
            r.0@.len() == 20,
            final(self)@ == spec_store_write(
                old(self)@,
                sha1_of(spec_encode_object(obj@)),
                spec_encode_object(obj@),
            ),
            store_lookup(old(self)@, sha1_of(spec_encode_object(obj@))) is Some ==> r.1 is None,
            store_lookup(old(self)@, sha1_of(spec_encode_object(obj@))) is None ==> (r.1 is Some
                && {
                let p = r.1.unwrap();
                let enc = spec_encode_object(obj@);
                &&& p.dir@ == hex_of(sha1_of(enc)).take(2)
                &&& p.name@ == hex_of(sha1_of(enc)).skip(2)
                &&& p.data@ == deflate_of(enc)
                &&& inflate_of(p.data@) == Some(enc)
            }),
    {
        let bytes = obj.as_bytes();
        let hash = crate::hashing::Hash::compute(bytes.as_slice());
        if self.contains(&hash) {
            return (hash, None);
        }
        let compressed = zlib_compress(bytes.as_slice());
        let hx = hash.to_hex_bytes();
        let (dir, name) = get_object_hash_and_filename(hx.as_slice());
        let pending = PendingWrite { dir, name, data: compressed };
        let ghost oldv = self@;
        self.entries.push((hash.clone(), bytes));
        proof {
            assert(self@ =~= oldv.push((hash@, spec_encode_object(obj@))));
        }
        (hash, Some(pending))
    }

    /// Reads back the object stored under a hash: `NotFound` if absent, the
    /// codec's error if its bytes do not decode.
    pub fn read(&self, hash: &crate::hashing::Hash) -> (r: Result<Object, GitError>)
        ensures
            store_lookup(self@, hash@) is None ==> r == Err::<Object, GitError>(GitError::NotFound),
            store_lookup(self@, hash@) is Some ==> {
                let data = store_lookup(self@, hash@).unwrap();
                &&& (r is Ok <==> spec_decode_object(data) is Some)
                &&& (r is Ok ==> Some(r.unwrap()@) == spec_decode_object(data))
            },
    {
        let data = match self.get(hash) {
            Some(d) => d,
            None => {
                return Err(GitError::NotFound);
            },
        };
        Object::from_bytes(data.as_slice())
    }
}

/// A hash already stored keeps its bytes through any later write: writing
/// can only append entries for absent hashes.
pub proof fn lemma_store_write_preserves(
    s: Seq<(Seq<u8>, Seq<u8>)>,
    h: Seq<u8>,
    data: Seq<u8>,
    h2: Seq<u8>,
)
    requires
        store_lookup(s, h2) is Some,
    ensures
        store_lookup(spec_store_write(s, h, data), h2) == store_lookup(s, h2),
    decreases s.len(),
{
    if store_lookup(s, h) is None {
        lemma_store_lookup_push(s, h2, (h, data));
    }
}

/// Looking a hash up in a store with one more entry: the old entries win;
/// a fresh entry is found only if the hash was absent.
pub proof fn lemma_store_lookup_push(
    s: Seq<(Seq<u8>, Seq<u8>)>,
    h: Seq<u8>,
    e: (Seq<u8>, Seq<u8>),
)
    ensures
        store_lookup(s.push(e), h) == if store_lookup(s, h) is Some {
            store_lookup(s, h)
        } else if e.0 == h {
            Some(e.1)
        } else {
            None
        },
    decreases s.len(),
{
    if s.len() == 0 {
        assert(s.push(e)[0] == e);
        assert(s.push(e).skip(1) =~= Seq::<(Seq<u8>, Seq<u8>)>::empty());
        assert(store_lookup(Seq::<(Seq<u8>, Seq<u8>)>::empty(), h) is None);
        assert(store_lookup(s, h) is None);
    } else {
        lemma_store_lookup_push(s.skip(1), h, e);
        assert(s.push(e)[0] == s[0]);
        assert(s.push(e).skip(1) =~= s.skip(1).push(e));
    }
}

/// Content-addressing invariant: writing the same object twice never
/// produces a second entry and never changes what the first write stored;
/// after any write, the object's bytes are stored under its hash.
pub proof fn lemma_store_write_idempotent(s: Seq<(Seq<u8>, Seq<u8>)>, h: Seq<u8>, data: Seq<u8>)
    ensures
        store_lookup(spec_store_write(s, h, data), h) == Some(data) || store_lookup(s, h) is Some,
        spec_store_write(spec_store_write(s, h, data), h, data) == spec_store_write(s, h, data),
        store_lookup(s, h) is Some ==> store_lookup(spec_store_write(s, h, data), h)
            == store_lookup(s, h),
{
    lemma_store_lookup_push(s, h, (h, data));
}

/// Hash determinism: the content hash is a function of the encoded bytes
/// alone, so equal objects hash equally, in every call and every run.
pub proof fn lemma_hash_deterministic(o1: ObjectV, o2: ObjectV)
    requires
        o1 == o2,
    ensures
        sha1_of(spec_encode_object(o1)) == sha1_of(spec_encode_object(o2)),
{
}

} // verus!
