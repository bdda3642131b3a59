//! One staged file of the index: ten big-endian 32-bit metadata fields, the
//! 20-byte object hash, a 16-bit flags word whose low 12 bits carry the path
//! length (capped), the path, a terminating zero byte, and zero padding to
//! the next 8-byte boundary.

use vstd::prelude::*;
use vstd::slice::slice_to_vec;

use crate::bytesio::{push_byte, push_bytes, push_zeros, read_until, spec_read_until, zeros};
use crate::error::GitError;
use crate::numbers::{be16, be16_value, be32, be32_value, read_be16, read_be32, u16_to_be, u32_to_be};

verus! {

/// The merge stage of an index entry, stored in the two high bits of the
/// flags word.
#[derive(Debug, Clone, Copy, PartialEq, Eq, Structural)]
pub enum FileStage {
    /// Tracked and staged normally.
    Normal,
    /// The version from the current branch.
    Ours,
    /// The version from the branch being merged in.
    Theirs,
    /// The common ancestor version during a merge.
    Base,
}

impl FileStage {
    pub open spec fn spec_value(self) -> u16 {
        match self {
            FileStage::Normal => 0,
            FileStage::Ours => 1,
            FileStage::Theirs => 2,
            FileStage::Base => 3,
        }
    }

    pub fn value(&self) -> (r: u16)
        ensures
            r == self.spec_value(),
    {
        match self {
            FileStage::Normal => 0,
            FileStage::Ours => 1,
            FileStage::Theirs => 2,
            FileStage::Base => 3,
        }
    }

    /// The stage a two-bit value names.
    pub fn from_value(v: u16) -> (r: Result<FileStage, GitError>)
        ensures
            r is Ok <==> v < 4,
            r is Ok ==> r.unwrap().spec_value() == v,
    {
        match v {
            0 => Ok(FileStage::Normal),
            1 => Ok(FileStage::Ours),
            2 => Ok(FileStage::Theirs),
            3 => Ok(FileStage::Base),
            _ => Err(GitError::InvalidArgument),
        }
    }
}

/// The coarse comparator used to decide whether a working-tree file may have
/// changed without reading its content: size, modification time, device and
/// inode.
#[derive(Debug, Clone, Copy, PartialEq, Eq, Structural)]
pub struct IndexEntryCache {
    pub modification_time_sec: u32,
    pub modification_time_nsec: u32,
    pub device: u32,
    pub inode: u32,
    pub file_size: u32,
}

impl IndexEntryCache {
    /// Whether the recorded metadata matches, field for field.
    pub fn matches_loose(&self, other: &IndexEntryCache) -> (r: bool)
        ensures
            r == (*self == *other),
    {
        self.modification_time_sec == other.modification_time_sec
            && self.modification_time_nsec == other.modification_time_nsec && self.device
            == other.device && self.inode == other.inode && self.file_size == other.file_size
    }
}

pub ghost struct IndexEntryV {
    pub creation_time_sec: u32,
    pub creation_time_nsec: u32,
    pub modification_time_sec: u32,
    pub modification_time_nsec: u32,
    pub device: u32,
    pub inode: u32,
    pub mode: u32,
    pub uid: u32,
    pub gid: u32,
    pub file_size: u32,
    pub hash: Seq<u8>,
    pub flags: u16,
    pub path: Seq<u8>,
}

/// The encoded length of an entry with a path of `plen` bytes: 62 fixed
/// bytes, the path, one zero byte, padded up to a multiple of 8.
pub open spec fn spec_entry_len(plen: nat) -> nat {
    ((63 + plen + 7) / 8) * 8
}

/// The canonical encoding of one entry.
pub open spec fn spec_encode_entry(e: IndexEntryV) -> Seq<u8> {
    be32(e.creation_time_sec) + be32(e.creation_time_nsec) + be32(e.modification_time_sec) + be32(
        e.modification_time_nsec,
    ) + be32(e.device) + be32(e.inode) + be32(e.mode) + be32(e.uid) + be32(e.gid) + be32(
        e.file_size,
    ) + e.hash + be16(e.flags) + e.path + seq![0u8] + zeros(
        (spec_entry_len(e.path.len()) - (63 + e.path.len())) as nat,
    )
}

/// Structural validity of an entry: a 20-byte hash, a path free of zero
/// bytes and of a bounded length, and a flags word whose low 12 bits carry
/// the capped path length — or the truncation marker 0xFFF, in which case
/// the actual path length is trusted.
pub open spec fn wf_entry(e: IndexEntryV) -> bool {
    &&& e.hash.len() == 20
    &&& forall|i: int| 0 <= i < e.path.len() ==> e.path[i] != 0u8
    &&& e.path.len() <= 0xffffff
    &&& ((e.flags & 0xfff) == if e.path.len() <= 0xfff {
        e.path.len() as u16
    } else {
        0xfffu16
    } || (e.flags & 0xfff) == 0xfffu16)
}

/// What decoding one entry at `pos` yields: the entry and the position just
/// after its padding. Padding bytes must be zero.
pub open spec fn spec_decode_entry_at(s: Seq<u8>, pos: int) -> Option<(IndexEntryV, int)> {
    if 0 <= pos && pos + 62 <= s.len() {
        let flags = be16_value(s.subrange(pos + 60, pos + 62));
        match spec_read_until(s, pos + 62, 0u8) {
            Some((path, _)) => {
                let e = IndexEntryV {
                    creation_time_sec: be32_value(s.subrange(pos, pos + 4)),
                    creation_time_nsec: be32_value(s.subrange(pos + 4, pos + 8)),
                    modification_time_sec: be32_value(s.subrange(pos + 8, pos + 12)),
                    modification_time_nsec: be32_value(s.subrange(pos + 12, pos + 16)),
                    device: be32_value(s.subrange(pos + 16, pos + 20)),
                    inode: be32_value(s.subrange(pos + 20, pos + 24)),
                    mode: be32_value(s.subrange(pos + 24, pos + 28)),
                    uid: be32_value(s.subrange(pos + 28, pos + 32)),
                    gid: be32_value(s.subrange(pos + 32, pos + 36)),
                    file_size: be32_value(s.subrange(pos + 36, pos + 40)),
                    hash: s.subrange(pos + 40, pos + 60),
                    flags,
                    path,
                };
                let fl = flags & 0xfff;
                let el = spec_entry_len(path.len());
                if path.len() <= 0xffffff && (fl == if path.len() <= 0xfff {
                    path.len() as u16
                } else {
                    0xfffu16
                } || fl == 0xfffu16) && pos + el <= s.len() && (forall|k: int|
                    pos + 63 + path.len() <= k < pos + el ==> s[k] == 0u8) {
                    Some((e, pos + el))
                } else {
                    None
                }
            },
            None => None,
        }
    } else {
        None
    }
}

/// One staged file. The metadata fields and flags are kept consistent by
/// construction: the low 12 bits of the flags always carry the capped path
/// length.
#[derive(Debug)]
pub struct IndexEntry {
    creation_time_sec: u32,
    creation_time_nsec: u32,
    modification_time_sec: u32,
    modification_time_nsec: u32,
    device: u32,
    inode: u32,
    mode: u32,
    uid: u32,
    gid: u32,
    file_size: u32,
    object_hash: crate::hashing::Hash,
    flags: u16,
    path: Vec<u8>,
}

impl View for IndexEntry {
    type V = IndexEntryV;

    closed spec fn view(&self) -> IndexEntryV {
        IndexEntryV {
            creation_time_sec: self.creation_time_sec,
            creation_time_nsec: self.creation_time_nsec,
            modification_time_sec: self.modification_time_sec,
            modification_time_nsec: self.modification_time_nsec,
            device: self.device,
            inode: self.inode,
            mode: self.mode,
            uid: self.uid,
            gid: self.gid,
            file_size: self.file_size,
            hash: self.object_hash@,
            flags: self.flags,
            path: self.path@,
        }
    }
}

impl Clone for IndexEntry {
    fn clone(&self) -> (r: IndexEntry)
        ensures
            r@ == self@,
            r.wf(),
    {
        proof {
            use_type_invariant(self);
        }
        IndexEntry {
            creation_time_sec: self.creation_time_sec,
            creation_time_nsec: self.creation_time_nsec,
            modification_time_sec: self.modification_time_sec,
            modification_time_nsec: self.modification_time_nsec,
            device: self.device,
            inode: self.inode,
            mode: self.mode,
            uid: self.uid,
            gid: self.gid,
            file_size: self.file_size,
            object_hash: self.object_hash.clone(),
            flags: self.flags,
            path: slice_to_vec(self.path.as_slice()),
        }
    }
}

impl IndexEntry {
    #[verifier::type_invariant]
    pub open spec fn wf(self) -> bool {
        wf_entry(self@)
    }

    /// Builds an entry from its metadata, hash and path, setting the flags
    /// to the capped path length with a normal merge stage.
    pub fn new(
        creation_time_sec: u32,
        creation_time_nsec: u32,
        modification_time_sec: u32,
        modification_time_nsec: u32,
        device: u32,
        inode: u32,
        mode: u32,
        uid: u32,
        gid: u32,
        file_size: u32,
        object_hash: crate::hashing::Hash,
        path: Vec<u8>,
    ) -> (r: Result<IndexEntry, GitError>)
        ensures
            r is Ok <==> (path@.len() <= 0xffffff && (forall|i: int|
                0 <= i < path@.len() ==> path@[i] != 0u8)),
            r is Ok ==> r.unwrap()@ == (IndexEntryV {
                creation_time_sec,
                creation_time_nsec,
                modification_time_sec,
                modification_time_nsec,
                device,
                inode,
                mode,
                uid,
                gid,
                file_size,
                hash: object_hash@,
                flags: if path@.len() <= 0xfff {
                    path@.len() as u16
                } else {
                    0xfffu16
                },
                path: path@,
            }),
    {
        if path.len() > 0xffffff {
            return Err(GitError::InvalidArgument);
        }
        let mut i: usize = 0;
        while i < path.len()
            invariant
                0 <= i <= path@.len(),
                forall|j: int| 0 <= j < i ==> path@[j] != 0u8,
            decreases path@.len() - i,
        {
            if path[i] == 0 {
                return Err(GitError::InvalidArgument);
            }
            i = i + 1;
        }
        let flags: u16 = if path.len() <= 0xfff {
            path.len() as u16
        } else {
            0xfff
        };
        proof {
            use_type_invariant(&object_hash);
            let f = flags;
            assert(f <= 0xfff ==> f & 0xfff == f) by (bit_vector);
        }
        Ok(
            IndexEntry {
                creation_time_sec,
                creation_time_nsec,
                modification_time_sec,
                modification_time_nsec,
                device,
                inode,
                mode,
                uid,
                gid,
                file_size,
                object_hash,
                flags,
                path,
            },
        )
    }

    /// The hash of the blob this entry stages.
    pub fn object_hash(&self) -> (r: crate::hashing::Hash)
        ensures
            r@ == self@.hash,
    {
        self.object_hash.clone()
    }

    /// The entry's path, relative to the repository root.
    pub fn path(&self) -> (r: &[u8])
        ensures
            r@ == self@.path,
    {
        self.path.as_slice()
    }

    /// The file mode recorded for this entry.
    pub fn mode(&self) -> (r: u32)
        ensures
            r == self@.mode,
    {
        self.mode
    }

    /// The coarse comparator fields of this entry.
    pub fn cache(&self) -> (r: IndexEntryCache)
        ensures
            r == (IndexEntryCache {
                modification_time_sec: self@.modification_time_sec,
                modification_time_nsec: self@.modification_time_nsec,
                device: self@.device,
                inode: self@.inode,
                file_size: self@.file_size,
            }),
    {
        IndexEntryCache {
            modification_time_sec: self.modification_time_sec,
            modification_time_nsec: self.modification_time_nsec,
            device: self.device,
            inode: self.inode,
            file_size: self.file_size,
        }
    }

    /// The length in bytes of this entry's encoding.
    pub fn len(&self) -> (r: usize)
        ensures
            r == spec_entry_len(self@.path.len()),
    {
        proof {
            use_type_invariant(self);
        }
        let base = 63 + self.path.len();
        (base + 7) / 8 * 8
    }

    /// The length of the entry's path.
    pub fn path_len(&self) -> (r: usize)
        ensures
            r == self@.path.len(),
    {
        self.path.len()
    }

    /// The low 12 bits of the flags: the capped path length.
    pub fn flag_path_len(&self) -> (r: u16)
        ensures
            r == self@.flags & 0xfff,
    {
        self.flags & 0xfff
    }

    /// The assume-valid bit of the flags.
    pub fn is_assumed_valid(&self) -> (r: bool)
        ensures
            r == (self@.flags & 0x2000u16 != 0),
    {
        self.flags & 0x2000 != 0
    }

    /// Sets or clears the assume-valid bit, leaving the rest of the flags
    /// unchanged.
    pub fn set_assumed_valid(&mut self, value: bool)
        ensures
            final(self)@ == (IndexEntryV { flags: final(self)@.flags, ..old(self)@ }),
            final(self)@.flags & 0x2000u16 == if value {
                0x2000u16
            } else {
                0u16
            },
            final(self)@.flags & 0xdfffu16 == old(self)@.flags & 0xdfffu16,
    {
        proof {
            use_type_invariant(&*self);
        }
        let f = self.flags;
        if value {
            proof {
                assert((f | 0x2000) & 0x2000u16 == 0x2000u16) by (bit_vector);
                assert((f | 0x2000) & 0xdfffu16 == f & 0xdfffu16) by (bit_vector);
                assert((f | 0x2000) & 0xfffu16 == f & 0xfffu16) by (bit_vector);
            }
            self.flags = f | 0x2000;
        } else {
            proof {
                assert((f & 0xdfff) & 0x2000u16 == 0u16) by (bit_vector);
                assert((f & 0xdfff) & 0xdfffu16 == f & 0xdfffu16) by (bit_vector);
                assert((f & 0xdfff) & 0xfffu16 == f & 0xfffu16) by (bit_vector);
            }
            self.flags = f & 0xdfff;
        }
    }

    /// The merge stage held in the two high bits of the flags.
    pub fn get_stage(&self) -> (r: FileStage)
        ensures
            r.spec_value() == (self@.flags >> 14) & 3,
    {
        let v = (self.flags >> 14) & 3;
        proof {
            let f = self.flags;
            assert((f >> 14) & 3 < 4) by (bit_vector);
        }
        match FileStage::from_value(v) {
            Ok(s) => s,
            Err(_) => FileStage::Normal,
        }
    }

    /// Stores a merge stage in the two high bits of the flags, leaving the
    /// rest unchanged.
    pub fn set_stage(&mut self, stage: FileStage)
        ensures
            final(self)@ == (IndexEntryV { flags: final(self)@.flags, ..old(self)@ }),
            (final(self)@.flags >> 14) & 3 == stage.spec_value(),
            final(self)@.flags & 0x3fffu16 == old(self)@.flags & 0x3fffu16,
    {
        proof {
            use_type_invariant(&*self);
        }
        let f = self.flags;
        let v = stage.value();
        proof {
            assert(v < 4 ==> (((f & 0x3fff) | (v << 14)) >> 14) & 3 == v) by (bit_vector);
            assert(((f & 0x3fff) | (v << 14)) & 0x3fffu16 == f & 0x3fffu16) by (bit_vector);
            assert(((f & 0x3fff) | (v << 14)) & 0xfffu16 == f & 0xfffu16) by (bit_vector);
        }
        self.flags = (f & 0x3fff) | (v << 14);
    }

    /// Encodes this entry.
    pub fn as_bytes(&self) -> (r: Vec<u8>)
        ensures
            r@ == spec_encode_entry(self@),
            r@.len() == spec_entry_len(self@.path.len()),
    {
        proof {
            use_type_invariant(self);
        }
        let mut out: Vec<u8> = Vec::new();
        let mut piece = u32_to_be(self.creation_time_sec);
        out.append(&mut piece);
        let mut piece = u32_to_be(self.creation_time_nsec);
        out.append(&mut piece);
        let mut piece = u32_to_be(self.modification_time_sec);
        out.append(&mut piece);
        let mut piece = u32_to_be(self.modification_time_nsec);
        out.append(&mut piece);
        let mut piece = u32_to_be(self.device);
        out.append(&mut piece);
        let mut piece = u32_to_be(self.inode);
        out.append(&mut piece);
        let mut piece = u32_to_be(self.mode);
        out.append(&mut piece);
        let mut piece = u32_to_be(self.uid);
        out.append(&mut piece);
        let mut piece = u32_to_be(self.gid);
        out.append(&mut piece);
        let mut piece = u32_to_be(self.file_size);
        out.append(&mut piece);
        push_bytes(&mut out, self.object_hash.as_bytes());
        let mut piece = u16_to_be(self.flags);
        out.append(&mut piece);
        push_bytes(&mut out, self.path.as_slice());
        push_byte(&mut out, 0);
        let base = 63 + self.path.len();
        let target = (base + 7) / 8 * 8;
        push_zeros(&mut out, target - base);
        proof {
            assert(out@ =~= spec_encode_entry(self@));
        }
        out
    }

    /// Decodes one entry at `pos`, returning it with the position just after
    /// its padding. The flags' path length must agree with the path unless
    /// capped; padding bytes must be zero.
    pub fn from_bytes_at(bytes: &[u8], pos: usize) -> (r: Result<(IndexEntry, usize), GitError>)
        requires
            pos <= bytes@.len(),
        ensures
            r is Ok <==> spec_decode_entry_at(bytes@, pos as int) is Some,
            r is Ok ==> {
                let (e, p) = spec_decode_entry_at(bytes@, pos as int).unwrap();
                r.unwrap().0@ == e && r.unwrap().1 == p && p <= bytes@.len()
            },
    {
        if bytes.len() - pos < 62 {
            return Err(GitError::FormatError);
        }
        let creation_time_sec = read_be32(bytes, pos);
        let creation_time_nsec = read_be32(bytes, pos + 4);
        let modification_time_sec = read_be32(bytes, pos + 8);
        let modification_time_nsec = read_be32(bytes, pos + 12);
        let device = read_be32(bytes, pos + 16);
        let inode = read_be32(bytes, pos + 20);
        let mode = read_be32(bytes, pos + 24);
        let uid = read_be32(bytes, pos + 28);
        let gid = read_be32(bytes, pos + 32);
        let file_size = read_be32(bytes, pos + 36);
        let object_hash = crate::hashing::Hash::from_slice(bytes, pos + 40);
        let flags = read_be16(bytes, pos + 60);
        let mut cursor = pos + 62;
        let path = match read_until(bytes, &mut cursor, 0) {
            Some(p) => p,
            None => {
                return Err(GitError::FormatError);
            },
        };
        proof {
            crate::bytesio::lemma_index_of_from_spec(bytes@, pos + 62, 0u8);
        }
        if path.len() > 0xffffff {
            return Err(GitError::FormatError);
        }
        let fl = flags & 0xfff;
        let expected: u16 = if path.len() <= 0xfff {
            path.len() as u16
        } else {
            0xfff
        };
        // a capped flags word marks a truncated length: the actual path
        // length is trusted over it
        if fl != expected && fl != 0xfff {
            return Err(GitError::FormatError);
        }
        let base = 63 + path.len();
        let el = (base + 7) / 8 * 8;
        if el > bytes.len() - pos {
            return Err(GitError::FormatError);
        }
        // cursor stands at pos + 63 + path.len(); the padding must be zero
        let end = pos + el;
        proof {
            assert(63 + path@.len() <= el) by (nonlinear_arith)
                requires
                    el == ((63 + path@.len() + 7) / 8) * 8,
                    path@.len() >= 0,
            ;
        }
        if !all_zero(bytes, cursor, end) {
            return Err(GitError::FormatError);
        }
        let entry = IndexEntry {
            creation_time_sec,
            creation_time_nsec,
            modification_time_sec,
            modification_time_nsec,
            device,
            inode,
            mode,
            uid,
            gid,
            file_size,
            object_hash,
            flags,
            path,
        };
        Ok((entry, pos + el))
    }
}

/// Decoding a canonically encoded entry, placed anywhere, gives it back.
#[verifier::rlimit(100)]
pub proof fn lemma_entry_round_trip(s: Seq<u8>, pos: int, e: IndexEntryV, tail: Seq<u8>)
    requires
        0 <= pos <= s.len(),
        s.skip(pos) == spec_encode_entry(e) + tail,
        wf_entry(e),
    ensures
        spec_decode_entry_at(s, pos) == Some((e, pos + spec_entry_len(e.path.len()) as int)),
        s.skip(pos + spec_entry_len(e.path.len()) as int) == tail,
{
    let enc = spec_encode_entry(e);
    let pl = e.path.len() as int;
    let el = spec_entry_len(e.path.len()) as int;
    let padlen = el - 63 - pl;
    assert(63 + pl <= el < 63 + pl + 8) by (nonlinear_arith)
        requires
            el == ((63 + pl + 7) / 8) * 8,
            pl >= 0,
    ;
    let f1 = be32(e.creation_time_sec);
    let f2 = f1 + be32(e.creation_time_nsec);
    let f3 = f2 + be32(e.modification_time_sec);
    let f4 = f3 + be32(e.modification_time_nsec);
    let f5 = f4 + be32(e.device);
    let f6 = f5 + be32(e.inode);
    let f7 = f6 + be32(e.mode);
    let f8 = f7 + be32(e.uid);
    let f9 = f8 + be32(e.gid);
    let f10 = f9 + be32(e.file_size);
    let f11 = f10 + e.hash;
    let f12 = f11 + be16(e.flags);
    let f13 = f12 + e.path;
    let f14 = f13 + seq![0u8];
    assert(enc == f14 + zeros(padlen as nat));
    assert(enc.len() == el);
    crate::bytesio::lemma_skip_eq_index(s, pos, enc + tail);
    assert forall|i: int| 0 <= i < el implies s[pos + i] == enc[i] by {
        assert(s[pos + i] == (enc + tail)[i]);
    }
    assert(s.skip(pos).len() == s.len() - pos);
    assert(enc.len() + tail.len() == s.len() - pos);
    assert(pos + 62 <= s.len());
    assert(s.subrange(pos + 0, pos + 4) =~= be32(e.creation_time_sec)) by {
        assert forall|i: int| 0 <= i < 4 implies s.subrange(pos + 0, pos + 4)[i] == be32(e.creation_time_sec)[i] by {
            assert(s.subrange(pos + 0, pos + 4)[i] == s[pos + (0 + i)]);
            assert(s[pos + (0 + i)] == enc[0 + i]);
            assert(enc[0 + i] == f14[0 + i]);
            assert(f14[0 + i] == f13[0 + i]);
            assert(f13[0 + i] == f12[0 + i]);
            assert(f12[0 + i] == f11[0 + i]);
            assert(f11[0 + i] == f10[0 + i]);
            assert(f10[0 + i] == f9[0 + i]);
            assert(f9[0 + i] == f8[0 + i]);
            assert(f8[0 + i] == f7[0 + i]);
            assert(f7[0 + i] == f6[0 + i]);
            assert(f6[0 + i] == f5[0 + i]);
            assert(f5[0 + i] == f4[0 + i]);
            assert(f4[0 + i] == f3[0 + i]);
            assert(f3[0 + i] == f2[0 + i]);
            assert(f2[0 + i] == f1[0 + i]);
        }
    }
    assert(s.subrange(pos + 4, pos + 8) =~= be32(e.creation_time_nsec)) by {
        assert forall|i: int| 0 <= i < 4 implies s.subrange(pos + 4, pos + 8)[i] == be32(e.creation_time_nsec)[i] by {
            assert(s.subrange(pos + 4, pos + 8)[i] == s[pos + (4 + i)]);
            assert(s[pos + (4 + i)] == enc[4 + i]);
            assert(enc[4 + i] == f14[4 + i]);
            assert(f14[4 + i] == f13[4 + i]);
            assert(f13[4 + i] == f12[4 + i]);
            assert(f12[4 + i] == f11[4 + i]);
            assert(f11[4 + i] == f10[4 + i]);
            assert(f10[4 + i] == f9[4 + i]);
            assert(f9[4 + i] == f8[4 + i]);
            assert(f8[4 + i] == f7[4 + i]);
            assert(f7[4 + i] == f6[4 + i]);
            assert(f6[4 + i] == f5[4 + i]);
            assert(f5[4 + i] == f4[4 + i]);
            assert(f4[4 + i] == f3[4 + i]);
            assert(f3[4 + i] == f2[4 + i]);
            assert(f2[4 + i] == be32(e.creation_time_nsec)[i]);
        }
    }
    assert(s.subrange(pos + 8, pos + 12) =~= be32(e.modification_time_sec)) by {
        assert forall|i: int| 0 <= i < 4 implies s.subrange(pos + 8, pos + 12)[i] == be32(e.modification_time_sec)[i] by {
            assert(s.subrange(pos + 8, pos + 12)[i] == s[pos + (8 + i)]);
            assert(s[pos + (8 + i)] == enc[8 + i]);
            assert(enc[8 + i] == f14[8 + i]);
            assert(f14[8 + i] == f13[8 + i]);
            assert(f13[8 + i] == f12[8 + i]);
            assert(f12[8 + i] == f11[8 + i]);
            assert(f11[8 + i] == f10[8 + i]);
            assert(f10[8 + i] == f9[8 + i]);
            assert(f9[8 + i] == f8[8 + i]);
            assert(f8[8 + i] == f7[8 + i]);
            assert(f7[8 + i] == f6[8 + i]);
            assert(f6[8 + i] == f5[8 + i]);
            assert(f5[8 + i] == f4[8 + i]);
            assert(f4[8 + i] == f3[8 + i]);
            assert(f3[8 + i] == be32(e.modification_time_sec)[i]);
        }
    }
    assert(s.subrange(pos + 12, pos + 16) =~= be32(e.modification_time_nsec)) by {
        assert forall|i: int| 0 <= i < 4 implies s.subrange(pos + 12, pos + 16)[i] == be32(e.modification_time_nsec)[i] by {
            assert(s.subrange(pos + 12, pos + 16)[i] == s[pos + (12 + i)]);
            assert(s[pos + (12 + i)] == enc[12 + i]);
            assert(enc[12 + i] == f14[12 + i]);
            assert(f14[12 + i] == f13[12 + i]);
            assert(f13[12 + i] == f12[12 + i]);
            assert(f12[12 + i] == f11[12 + i]);
            assert(f11[12 + i] == f10[12 + i]);
            assert(f10[12 + i] == f9[12 + i]);
            assert(f9[12 + i] == f8[12 + i]);
            assert(f8[12 + i] == f7[12 + i]);
            assert(f7[12 + i] == f6[12 + i]);
            assert(f6[12 + i] == f5[12 + i]);
            assert(f5[12 + i] == f4[12 + i]);
            assert(f4[12 + i] == be32(e.modification_time_nsec)[i]);
        }
    }
    assert(s.subrange(pos + 16, pos + 20) =~= be32(e.device)) by {
        assert forall|i: int| 0 <= i < 4 implies s.subrange(pos + 16, pos + 20)[i] == be32(e.device)[i] by {
            assert(s.subrange(pos + 16, pos + 20)[i] == s[pos + (16 + i)]);
            assert(s[pos + (16 + i)] == enc[16 + i]);
            assert(enc[16 + i] == f14[16 + i]);
            assert(f14[16 + i] == f13[16 + i]);
            assert(f13[16 + i] == f12[16 + i]);
            assert(f12[16 + i] == f11[16 + i]);
            assert(f11[16 + i] == f10[16 + i]);
            assert(f10[16 + i] == f9[16 + i]);
            assert(f9[16 + i] == f8[16 + i]);
            assert(f8[16 + i] == f7[16 + i]);
            assert(f7[16 + i] == f6[16 + i]);
            assert(f6[16 + i] == f5[16 + i]);
            assert(f5[16 + i] == be32(e.device)[i]);
        }
    }
    assert(s.subrange(pos + 20, pos + 24) =~= be32(e.inode)) by {
        assert forall|i: int| 0 <= i < 4 implies s.subrange(pos + 20, pos + 24)[i] == be32(e.inode)[i] by {
            assert(s.subrange(pos + 20, pos + 24)[i] == s[pos + (20 + i)]);
            assert(s[pos + (20 + i)] == enc[20 + i]);
            assert(enc[20 + i] == f14[20 + i]);
            assert(f14[20 + i] == f13[20 + i]);
            assert(f13[20 + i] == f12[20 + i]);
            assert(f12[20 + i] == f11[20 + i]);
            assert(f11[20 + i] == f10[20 + i]);
            assert(f10[20 + i] == f9[20 + i]);
            assert(f9[20 + i] == f8[20 + i]);
            assert(f8[20 + i] == f7[20 + i]);
            assert(f7[20 + i] == f6[20 + i]);
            assert(f6[20 + i] == be32(e.inode)[i]);
        }
    }
    assert(s.subrange(pos + 24, pos + 28) =~= be32(e.mode)) by {
        assert forall|i: int| 0 <= i < 4 implies s.subrange(pos + 24, pos + 28)[i] == be32(e.mode)[i] by {
            assert(s.subrange(pos + 24, pos + 28)[i] == s[pos + (24 + i)]);
            assert(s[pos + (24 + i)] == enc[24 + i]);
            assert(enc[24 + i] == f14[24 + i]);
            assert(f14[24 + i] == f13[24 + i]);
            assert(f13[24 + i] == f12[24 + i]);
            assert(f12[24 + i] == f11[24 + i]);
            assert(f11[24 + i] == f10[24 + i]);
            assert(f10[24 + i] == f9[24 + i]);
            assert(f9[24 + i] == f8[24 + i]);
            assert(f8[24 + i] == f7[24 + i]);
            assert(f7[24 + i] == be32(e.mode)[i]);
        }
    }
    assert(s.subrange(pos + 28, pos + 32) =~= be32(e.uid)) by {
        assert forall|i: int| 0 <= i < 4 implies s.subrange(pos + 28, pos + 32)[i] == be32(e.uid)[i] by {
            assert(s.subrange(pos + 28, pos + 32)[i] == s[pos + (28 + i)]);
            assert(s[pos + (28 + i)] == enc[28 + i]);
            assert(enc[28 + i] == f14[28 + i]);
            assert(f14[28 + i] == f13[28 + i]);
            assert(f13[28 + i] == f12[28 + i]);
            assert(f12[28 + i] == f11[28 + i]);
            assert(f11[28 + i] == f10[28 + i]);
            assert(f10[28 + i] == f9[28 + i]);
            assert(f9[28 + i] == f8[28 + i]);
            assert(f8[28 + i] == be32(e.uid)[i]);
        }
    }
    assert(s.subrange(pos + 32, pos + 36) =~= be32(e.gid)) by {
        assert forall|i: int| 0 <= i < 4 implies s.subrange(pos + 32, pos + 36)[i] == be32(e.gid)[i] by {
            assert(s.subrange(pos + 32, pos + 36)[i] == s[pos + (32 + i)]);
            assert(s[pos + (32 + i)] == enc[32 + i]);
            assert(enc[32 + i] == f14[32 + i]);
            assert(f14[32 + i] == f13[32 + i]);
            assert(f13[32 + i] == f12[32 + i]);
            assert(f12[32 + i] == f11[32 + i]);
            assert(f11[32 + i] == f10[32 + i]);
            assert(f10[32 + i] == f9[32 + i]);
            assert(f9[32 + i] == be32(e.gid)[i]);
        }
    }
    assert(s.subrange(pos + 36, pos + 40) =~= be32(e.file_size)) by {
        assert forall|i: int| 0 <= i < 4 implies s.subrange(pos + 36, pos + 40)[i] == be32(e.file_size)[i] by {
            assert(s.subrange(pos + 36, pos + 40)[i] == s[pos + (36 + i)]);
            assert(s[pos + (36 + i)] == enc[36 + i]);
            assert(enc[36 + i] == f14[36 + i]);
            assert(f14[36 + i] == f13[36 + i]);
            assert(f13[36 + i] == f12[36 + i]);
            assert(f12[36 + i] == f11[36 + i]);
            assert(f11[36 + i] == f10[36 + i]);
            assert(f10[36 + i] == be32(e.file_size)[i]);
        }
    }
    crate::numbers::lemma_be32_value(e.creation_time_sec);
    crate::numbers::lemma_be32_value(e.creation_time_nsec);
    crate::numbers::lemma_be32_value(e.modification_time_sec);
    crate::numbers::lemma_be32_value(e.modification_time_nsec);
    crate::numbers::lemma_be32_value(e.device);
    crate::numbers::lemma_be32_value(e.inode);
    crate::numbers::lemma_be32_value(e.mode);
    crate::numbers::lemma_be32_value(e.uid);
    crate::numbers::lemma_be32_value(e.gid);
    crate::numbers::lemma_be32_value(e.file_size);
    crate::numbers::lemma_be16_value(e.flags);
    // the hash region
    assert(s.subrange(pos + 40, pos + 60) =~= e.hash) by {
        assert forall|i: int| 0 <= i < 20 implies s.subrange(pos + 40, pos + 60)[i] == e.hash[i] by {
            assert(s.subrange(pos + 40, pos + 60)[i] == s[pos + (40 + i)]);
            assert(s[pos + (40 + i)] == enc[40 + i]);
            assert(enc[40 + i] == f14[40 + i]);
            assert(f14[40 + i] == f13[40 + i]);
            assert(f13[40 + i] == f12[40 + i]);
            assert(f12[40 + i] == f11[40 + i]);
            assert(f11[40 + i] == e.hash[i]);
        }
    }
    // the flags region
    assert(s.subrange(pos + 60, pos + 62) =~= be16(e.flags)) by {
        assert forall|i: int| 0 <= i < 2 implies s.subrange(pos + 60, pos + 62)[i] == be16(
            e.flags,
        )[i] by {
            assert(s.subrange(pos + 60, pos + 62)[i] == s[pos + (60 + i)]);
            assert(s[pos + (60 + i)] == enc[60 + i]);
            assert(enc[60 + i] == f14[60 + i]);
            assert(f14[60 + i] == f13[60 + i]);
            assert(f13[60 + i] == f12[60 + i]);
            assert(f12[60 + i] == be16(e.flags)[i]);
        }
    }
    // the path and its terminator
    assert forall|k: int| pos + 62 <= k < pos + 62 + pl implies s[k] != 0u8 by {
        let i = k - pos - 62;
        assert(s[pos + (62 + i)] == enc[62 + i]);
        assert(enc[62 + i] == f14[62 + i]);
        assert(f14[62 + i] == f13[62 + i]);
        assert(f13[62 + i] == e.path[i]);
    }
    assert(s[pos + (62 + pl)] == 0u8) by {
        assert(s[pos + (62 + pl)] == enc[62 + pl]);
        assert(enc[62 + pl] == f14[62 + pl]);
        assert(f14[62 + pl] == 0u8);
    }
    crate::bytesio::lemma_index_of_from_exact(s, pos + 62, 0u8, pos + 62 + pl);
    assert(s.subrange(pos + 62, pos + 62 + pl) =~= e.path) by {
        assert forall|i: int| 0 <= i < pl implies s.subrange(pos + 62, pos + 62 + pl)[i]
            == e.path[i] by {
            assert(s.subrange(pos + 62, pos + 62 + pl)[i] == s[pos + (62 + i)]);
            assert(s[pos + (62 + i)] == enc[62 + i]);
            assert(enc[62 + i] == f14[62 + i]);
            assert(f14[62 + i] == f13[62 + i]);
            assert(f13[62 + i] == e.path[i]);
        }
    }
    // the padding
    assert forall|k: int| pos + 63 + pl <= k < pos + el implies s[k] == 0u8 by {
        let i = k - pos;
        assert(s[pos + i] == enc[i]);
        assert(enc[i] == zeros(padlen as nat)[i - (63 + pl)]);
    }
    crate::bytesio::lemma_skip_concat(s, pos, enc, tail);
}

/// The encoded length of an entry matches its path-derived length.
pub proof fn lemma_entry_enc_len(e: IndexEntryV)
    requires
        e.hash.len() == 20,
    ensures
        spec_encode_entry(e).len() == spec_entry_len(e.path.len()),
{
    let pl = e.path.len() as int;
    let el = spec_entry_len(e.path.len()) as int;
    assert(63 + pl <= el) by (nonlinear_arith)
        requires
            el == ((63 + pl + 7) / 8) * 8,
            pl >= 0,
    ;
}

/// Whether every byte of the region `[from, to)` is zero.
fn all_zero(bytes: &[u8], from: usize, to: usize) -> (r: bool)
    requires
        from <= to <= bytes@.len(),
    ensures
        r == (forall|j: int| from <= j < to ==> bytes@[j] == 0u8),
{
    let mut k = from;
    while k < to
        invariant
            from <= k <= to,
            to <= bytes@.len(),
            forall|j: int| from <= j < k ==> bytes@[j] == 0u8,
        decreases to - k,
    {
        if bytes[k] != 0 {
            return false;
        }
        k = k + 1;
    }
    true
}

} // verus!
