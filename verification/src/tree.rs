//! The tree codec: `"tree {entriesByteLength}\0"` followed by each entry as
//! `"{octalMode} {path}\0{20-byte hash}"`, concatenated with no separator.

use vstd::prelude::*;

use crate::bytesio::{push_byte, push_bytes, push_dec, read_until, spec_read_until, take_rest};
use crate::error::GitError;
use crate::hashing::bytes_eq;
use crate::numbers::{dec_digits, is_digit, lemma_dec_digits_value, parse_dec, spec_parse_dec};
use crate::object::{
    spec_encode_tree, spec_encode_tree_entries, spec_encode_tree_entry, tree_tag, wf_tree_entry,
    Object, ObjectV, TreeEntry, TreeEntryV,
};

verus! {

/// What decoding the entry region of a tree from position `pos` on yields.
/// Entries are read until the region is exhausted; each must parse
/// completely.
pub open spec fn spec_decode_entries_from(s: Seq<u8>, pos: int) -> Option<Seq<TreeEntryV>>
    decreases s.len() - pos,
    when 0 <= pos <= s.len()
{
    if pos == s.len() {
        Some(Seq::<TreeEntryV>::empty())
    } else {
        match spec_read_until(s, pos, 0x20u8) {
            Some((modeb, p1)) => {
                match spec_parse_dec(modeb) {
                    Some(m) => {
                        if m <= u32::MAX {
                            match spec_read_until(s, p1, 0u8) {
                                Some((path, p2)) => {
                                    if pos < p2 && p2 + 20 <= s.len() {
                                        let hash = s.subrange(p2, p2 + 20);
                                        match spec_decode_entries_from(s, p2 + 20) {
                                            Some(rest) => Some(
                                                seq![
                                                    TreeEntryV {
                                                        mode: m as u32,
                                                        path,
                                                        hash,
                                                    },
                                                ] + rest,
                                            ),
                                            None => None,
                                        }
                                    } else {
                                        None
                                    }
                                },
                                None => None,
                            }
                        } else {
                            None
                        }
                    },
                    None => None,
                }
            },
            None => None,
        }
    }
}

/// What decoding a tree yields: the header's declared length must equal the
/// length of the entry region.
pub open spec fn spec_decode_tree(s: Seq<u8>) -> Option<ObjectV> {
    match spec_read_until(s, 0, 0x20u8) {
        Some((tag, p1)) => {
            if tag == tree_tag() {
                match spec_read_until(s, p1, 0u8) {
                    Some((lenb, p2)) => {
                        match spec_parse_dec(lenb) {
                            Some(n) => {
                                if n == s.len() - p2 {
                                    match spec_decode_entries_from(s, p2) {
                                        Some(es) => Some(ObjectV::Tree { entries: es }),
                                        None => None,
                                    }
                                } else {
                                    None
                                }
                            },
                            None => None,
                        }
                    },
                    None => None,
                }
            } else {
                None
            }
        },
        None => None,
    }
}

/// Encodes one tree entry.
pub fn entry_as_bytes(e: &TreeEntry) -> (r: Vec<u8>)
    ensures
        r@ == spec_encode_tree_entry(e@),
{
    let mut out: Vec<u8> = Vec::new();
    push_dec(&mut out, e.mode as u64);
    push_byte(&mut out, 0x20);
    push_bytes(&mut out, e.path.as_slice());
    push_byte(&mut out, 0);
    push_bytes(&mut out, e.hash.as_bytes());
    proof {
        assert(out@ =~= spec_encode_tree_entry(e@));
    }
    out
}

/// Appending one entry to the region appends its encoding.
pub proof fn lemma_encode_entries_snoc(s: Seq<TreeEntryV>, e: TreeEntryV)
    ensures
        spec_encode_tree_entries(s.push(e)) == spec_encode_tree_entries(s)
            + spec_encode_tree_entry(e),
    decreases s.len(),
{
    if s.len() == 0 {
        assert(s.push(e)[0] == e);
        assert(s.push(e).skip(1) =~= Seq::<TreeEntryV>::empty());
        assert(spec_encode_tree_entries(Seq::<TreeEntryV>::empty()) == Seq::<u8>::empty());
        assert(spec_encode_tree_entries(s.push(e)) =~= spec_encode_tree_entry(e));
        assert(spec_encode_tree_entries(s) + spec_encode_tree_entry(e) =~= spec_encode_tree_entry(
            e,
        ));
    } else {
        lemma_encode_entries_snoc(s.skip(1), e);
        assert(s.push(e)[0] == s[0]);
        assert(s.push(e).skip(1) =~= s.skip(1).push(e));
        assert(spec_encode_tree_entry(s[0]) + (spec_encode_tree_entries(s.skip(1))
            + spec_encode_tree_entry(e)) =~= (spec_encode_tree_entry(s[0])
            + spec_encode_tree_entries(s.skip(1))) + spec_encode_tree_entry(e));
    }
}

/// Encodes the entry region of a tree.
pub fn entries_as_bytes(entries: &Vec<TreeEntry>) -> (r: Vec<u8>)
    ensures
        r@ == spec_encode_tree_entries(Seq::new(entries@.len(), |i: int| entries@[i]@)),
{
    let ghost evs = Seq::new(entries@.len(), |i: int| entries@[i]@);
    let mut out: Vec<u8> = Vec::new();
    let mut i: usize = 0;
    proof {
        assert(evs.take(0) =~= Seq::<TreeEntryV>::empty());
    }
    while i < entries.len()
        invariant
            0 <= i <= entries@.len(),
            evs == Seq::new(entries@.len(), |j: int| entries@[j]@),
            out@ == spec_encode_tree_entries(evs.take(i as int)),
        decreases entries@.len() - i,
    {
        let mut piece = entry_as_bytes(&entries[i]);
        out.append(&mut piece);
        proof {
            lemma_encode_entries_snoc(evs.take(i as int), evs[i as int]);
            assert(evs.take(i + 1) =~= evs.take(i as int).push(evs[i as int]));
        }
        i = i + 1;
    }
    proof {
        assert(evs.take(evs.len() as int) =~= evs);
    }
    out
}

/// Encodes a whole tree object with its header.
pub fn as_bytes(entries: &Vec<TreeEntry>) -> (r: Vec<u8>)
    ensures
        r@ == spec_encode_tree(Seq::new(entries@.len(), |i: int| entries@[i]@)),
{
    let body = entries_as_bytes(entries);
    let mut out: Vec<u8> = Vec::new();
    push_byte(&mut out, 0x74);
    push_byte(&mut out, 0x72);
    push_byte(&mut out, 0x65);
    push_byte(&mut out, 0x65);
    push_byte(&mut out, 0x20);
    push_dec(&mut out, body.len() as u64);
    push_byte(&mut out, 0);
    push_bytes(&mut out, body.as_slice());
    proof {
        assert(out@ =~= spec_encode_tree(Seq::new(entries@.len(), |i: int| entries@[i]@)));
    }
    out
}

/// Decodes a tree object, validating the header, the declared length, and
/// every entry.
pub fn from_bytes(bytes: &[u8]) -> (r: Result<Object, GitError>)
    ensures
        r is Ok <==> spec_decode_tree(bytes@) is Some,
        r is Ok ==> Some(r.unwrap()@) == spec_decode_tree(bytes@),
{
    let mut pos: usize = 0;
    let tag = match read_until(bytes, &mut pos, 0x20) {
        Some(t) => t,
        None => {
            return Err(GitError::FormatError);
        },
    };
    if !bytes_eq(tag.as_slice(), &[0x74u8, 0x72u8, 0x65u8, 0x65u8]) {
        proof {
            assert(seq![0x74u8, 0x72u8, 0x65u8, 0x65u8] =~= tree_tag());
        }
        return Err(GitError::FormatError);
    }
    proof {
        assert(seq![0x74u8, 0x72u8, 0x65u8, 0x65u8] =~= tree_tag());
    }
    let lenb = match read_until(bytes, &mut pos, 0) {
        Some(t) => t,
        None => {
            return Err(GitError::FormatError);
        },
    };
    let n = match parse_dec(lenb.as_slice()) {
        Some(n) => n,
        None => {
            return Err(GitError::FormatError);
        },
    };
    if n != (bytes.len() - pos) as u64 {
        return Err(GitError::FormatError);
    }
    match parse_entries(bytes, pos) {
        Ok(entries) => Ok(Object::Tree { entries }),
        Err(e) => Err(e),
    }
}

/// Decodes tree entries from `start` until the region is exhausted.
fn parse_entries(bytes: &[u8], start: usize) -> (r: Result<Vec<TreeEntry>, GitError>)
    requires
        start <= bytes@.len(),
    ensures
        r is Ok <==> spec_decode_entries_from(bytes@, start as int) is Some,
        r is Ok ==> spec_decode_entries_from(bytes@, start as int) == Some(
            Seq::new(r.unwrap()@.len(), |i: int| r.unwrap()@[i]@),
        ),
{
    let mut entries: Vec<TreeEntry> = Vec::new();
    let mut pos = start;
    proof {
        assert(Seq::new(entries@.len(), |i: int| entries@[i]@) =~= Seq::<TreeEntryV>::empty());
    }
    loop
        invariant
            start as int <= pos as int <= bytes@.len(),
            spec_decode_entries_from(bytes@, start as int) is Some <==> spec_decode_entries_from(
                bytes@,
                pos as int,
            ) is Some,
            spec_decode_entries_from(bytes@, start as int) is Some
                ==> spec_decode_entries_from(bytes@, start as int).unwrap() == Seq::new(
                entries@.len(),
                |i: int| entries@[i]@,
            ) + spec_decode_entries_from(bytes@, pos as int).unwrap(),
        ensures
            spec_decode_entries_from(bytes@, pos as int) == Some(Seq::<TreeEntryV>::empty()),
        decreases bytes@.len() - pos,
    {
        if pos == bytes.len() {
            proof {
                assert(spec_decode_entries_from(bytes@, pos as int) == Some(
                    Seq::<TreeEntryV>::empty(),
                ));
                if spec_decode_entries_from(bytes@, start as int) is Some {
                    assert(Seq::new(entries@.len(), |i: int| entries@[i]@)
                        + Seq::<TreeEntryV>::empty() =~= Seq::new(
                        entries@.len(),
                        |i: int| entries@[i]@,
                    ));
                }
            }
            break;
        }
        let ghost pos0 = pos as int;
        let modeb = match read_until(bytes, &mut pos, 0x20) {
            Some(t) => t,
            None => {
                return Err(GitError::FormatError);
            },
        };
        proof {
            crate::bytesio::lemma_index_of_from_spec(bytes@, pos0, 0x20u8);
        }
        let m = match parse_dec(modeb.as_slice()) {
            Some(m) => m,
            None => {
                return Err(GitError::FormatError);
            },
        };
        if m > u32::MAX as u64 {
            return Err(GitError::FormatError);
        }
        let ghost pos1 = pos as int;
        let path = match read_until(bytes, &mut pos, 0) {
            Some(t) => t,
            None => {
                return Err(GitError::FormatError);
            },
        };
        proof {
            crate::bytesio::lemma_index_of_from_spec(bytes@, pos1, 0u8);
        }
        if bytes.len() - pos < 20 {
            return Err(GitError::FormatError);
        }
        let hash = crate::hashing::Hash::from_slice(bytes, pos);
        pos = pos + 20;
        let entry = TreeEntry { mode: m as u32, path, hash };
        let ghost prev = Seq::new(entries@.len(), |i: int| entries@[i]@);
        entries.push(entry);
        proof {
            let evs = Seq::new(entries@.len(), |i: int| entries@[i]@);
            assert(evs =~= prev.push(entry@));
            assert(spec_decode_entries_from(bytes@, pos0) is Some
                ==> spec_decode_entries_from(bytes@, pos0).unwrap() == seq![entry@]
                + spec_decode_entries_from(bytes@, pos as int).unwrap());
            if spec_decode_entries_from(bytes@, start as int) is Some {
                assert(prev + (seq![entry@] + spec_decode_entries_from(
                    bytes@,
                    pos as int,
                ).unwrap()) =~= evs + spec_decode_entries_from(bytes@, pos as int).unwrap());
            }
        }
    }
    Ok(entries)
}

/// Renders a tree's entries for human reading, one line per entry.
pub fn display(entries: &Vec<TreeEntry>) -> (r: String)
    ensures
        r@ == crate::display::lossy_of(
            crate::display::spec_tree_lines(Seq::new(entries@.len(), |i: int| entries@[i]@)),
        ),
{
    let b = crate::display::tree_display_bytes(entries);
    crate::display::lossy_string(b.as_slice())
}

/// Decoding a canonically encoded entry region, placed anywhere after a
/// prefix, gives back the entries.
pub proof fn lemma_entries_round_trip(s: Seq<u8>, pos: int, entries: Seq<TreeEntryV>)
    requires
        0 <= pos <= s.len(),
        s.skip(pos) == spec_encode_tree_entries(entries),
        forall|i: int| 0 <= i < entries.len() ==> wf_tree_entry(#[trigger] entries[i]),
    ensures
        spec_decode_entries_from(s, pos) == Some(entries),
    decreases entries.len(),
{
    if entries.len() == 0 {
        assert(s.skip(pos).len() == 0);
        assert(pos == s.len());
        assert(spec_decode_entries_from(s, pos) == Some(Seq::<TreeEntryV>::empty()));
        assert(Seq::<TreeEntryV>::empty() =~= entries);
    } else {
        let e = entries[0];
        let dd = dec_digits(e.mode as nat);
        lemma_dec_digits_value(e.mode as nat);
        let enc0 = spec_encode_tree_entry(e);
        let rest_enc = spec_encode_tree_entries(entries.skip(1));
        assert(s.skip(pos) == enc0 + rest_enc);
        assert(enc0.len() == dd.len() + 1 + e.path.len() + 1 + 20);
        // positions inside s
        let sp_at = pos + dd.len();
        let nul_at = sp_at + 1 + e.path.len();
        let hash_at = nul_at + 1;
        let next = hash_at + 20;
        let dl = dd.len() as int;
        let pl = e.path.len() as int;
        let a1 = dd + seq![0x20u8];
        let a2 = a1 + e.path;
        let a3 = a2 + seq![0u8];
        assert(enc0 == a3 + e.hash);
        assert forall|i: int| 0 <= i < enc0.len() implies s[pos + i] == enc0[i] by {
            assert(s.skip(pos)[i] == s[pos + i]);
            assert((enc0 + rest_enc)[i] == enc0[i]);
        }
        assert forall|i: int| 0 <= i < dl implies s[pos + i] == dd[i] by {
            assert((a3 + e.hash)[i] == a3[i]);
            assert(a3[i] == a2[i]);
            assert(a2[i] == a1[i]);
            assert(a1[i] == dd[i]);
        }
        assert(s[sp_at] == 0x20) by {
            assert((a3 + e.hash)[dl] == a3[dl]);
            assert(a3[dl] == a2[dl]);
            assert(a2[dl] == a1[dl]);
            assert(a1[dl] == 0x20);
        }
        assert(forall|i: int| 0 <= i < dd.len() ==> is_digit(#[trigger] dd[i]));
        assert forall|k: int| pos <= k < sp_at implies s[k] != 0x20 by {
            let i = k - pos;
            assert(s[pos + i] == dd[i]);
            assert(is_digit(dd[i]));
        }
        crate::bytesio::lemma_index_of_from_exact(s, pos, 0x20, sp_at);
        assert(s.subrange(pos, sp_at) =~= dd);
        assert forall|i: int| 0 <= i < pl implies s[sp_at + 1 + i] == e.path[i] by {
            assert(s[pos + (dl + 1 + i)] == enc0[dl + 1 + i]);
            assert((a3 + e.hash)[dl + 1 + i] == a3[dl + 1 + i]);
            assert(a3[dl + 1 + i] == a2[dl + 1 + i]);
            assert(a2[dl + 1 + i] == e.path[i]);
        }
        assert(s[nul_at] == 0) by {
            assert(s[pos + (dl + 1 + pl)] == enc0[dl + 1 + pl]);
            assert((a3 + e.hash)[dl + 1 + pl] == a3[dl + 1 + pl]);
            assert(a3[dl + 1 + pl] == 0);
        }
        assert(wf_tree_entry(e));
        assert forall|k: int| sp_at + 1 <= k < nul_at implies s[k] != 0 by {
            let i = k - (sp_at + 1);
            assert(s[sp_at + 1 + i] == e.path[i]);
            assert(e.path[i] != 0);
        }
        crate::bytesio::lemma_index_of_from_exact(s, sp_at + 1, 0, nul_at);
        assert(s.subrange(sp_at + 1, nul_at) =~= e.path);
        assert forall|i: int| 0 <= i < 20 implies s[hash_at + i] == e.hash[i] by {
            assert(s[pos + (dl + 2 + pl + i)] == enc0[dl + 2 + pl + i]);
            assert((a3 + e.hash)[dl + 2 + pl + i] == e.hash[i]);
        }
        assert(s.subrange(hash_at, hash_at + 20) =~= e.hash);
        assert(s.skip(next).len() == rest_enc.len());
        assert forall|i: int| 0 <= i < s.skip(next).len() implies s.skip(next)[i] == rest_enc[i] by {
            assert(s.skip(next)[i] == s[next + i]);
            let j = enc0.len() + i;
            assert(s.skip(pos)[j] == s[pos + j]);
            assert((enc0 + rest_enc)[j] == rest_enc[i]);
        }
        assert(s.skip(next) =~= rest_enc);
        lemma_entries_round_trip(s, next, entries.skip(1));
        assert(spec_parse_dec(dd) == Some(e.mode as u64));
        assert(seq![
            TreeEntryV { mode: e.mode, path: e.path, hash: e.hash },
        ] + entries.skip(1) =~= entries);
        assert(TreeEntryV { mode: e.mode, path: e.path, hash: e.hash } == e);
    }
}

/// Decoding a canonical tree encoding gives back the tree.
pub proof fn lemma_tree_round_trip(entries: Seq<TreeEntryV>)
    requires
        forall|i: int| 0 <= i < entries.len() ==> wf_tree_entry(#[trigger] entries[i]),
        spec_encode_tree_entries(entries).len() <= u64::MAX,
    ensures
        spec_decode_tree(spec_encode_tree(entries)) == Some(ObjectV::Tree { entries }),
{
    let body = spec_encode_tree_entries(entries);
    let dd = dec_digits(body.len());
    let dl = dd.len() as int;
    lemma_dec_digits_value(body.len());
    let enc = spec_encode_tree(entries);
    assert(enc.len() == 4 + 1 + dl + 1 + body.len());
    assert(enc[0] == 0x74 && enc[1] == 0x72 && enc[2] == 0x65 && enc[3] == 0x65);
    assert(enc[4] == 0x20);
    assert(forall|i: int| 0 <= i < dl ==> enc[5 + i] == dd[i]);
    assert(forall|i: int| 0 <= i < dl ==> is_digit(#[trigger] dd[i]));
    assert(forall|k: int| 0 <= k < 4 ==> enc[k] != 0x20);
    crate::bytesio::lemma_index_of_from_exact(enc, 0, 0x20, 4);
    assert(enc.subrange(0, 4) =~= tree_tag());
    assert(enc[5 + dl] == 0);
    assert(forall|k: int| 5 <= k < 5 + dl ==> enc[k] != 0);
    crate::bytesio::lemma_index_of_from_exact(enc, 5, 0, 5 + dl);
    assert(enc.subrange(5, 5 + dl) =~= dd);
    let p2 = 5 + dl + 1;
    assert(enc.skip(p2) =~= body);
    lemma_entries_round_trip(enc, p2, entries);
}

} // verus!
