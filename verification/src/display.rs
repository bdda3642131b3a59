//! Human-readable renderings of objects and index entries. Everything is
//! first laid out as bytes with an exact specification, then turned into a
//! string at the very edge.

use vstd::prelude::*;

use crate::bytesio::{push_byte, push_bytes, push_dec};
use crate::hashing::hex_of;
use crate::numbers::{dec_digits, oct_as_dec};
use crate::object::{Object, ObjectV, TreeEntry, TreeEntryV};

verus! {

/// What turning bytes into replacement-lossy text yields. A function of the
/// bytes alone; its definition belongs to the standard library.
pub uninterp spec fn lossy_of(b: Seq<u8>) -> Seq<char>;

/// Relies on String::from_utf8_lossy: a deterministic conversion that keeps
/// valid UTF-8 intact and replaces invalid bytes.
#[verifier::external_body]
pub fn lossy_string(b: &[u8]) -> (r: String)
    ensures
        r@ == lossy_of(b@),
{
    String::from_utf8_lossy(b).into_owned()
}

/// The rendering of one tree entry: mode, hash and path, tab-separated.
pub open spec fn spec_tree_entry_line(e: TreeEntryV) -> Seq<u8> {
    dec_digits(e.mode as nat) + seq![0x09u8] + hex_of(e.hash) + seq![0x09u8] + e.path
}

/// The rendering of a tree: one line per entry, separated by newlines.
pub open spec fn spec_tree_lines(es: Seq<TreeEntryV>) -> Seq<u8>
    decreases es.len(),
{
    if es.len() == 0 {
        Seq::<u8>::empty()
    } else if es.len() == 1 {
        spec_tree_entry_line(es[0])
    } else {
        spec_tree_entry_line(es[0]) + seq![0x0au8] + spec_tree_lines(es.skip(1))
    }
}

/// Renders a tree's entries, one line per entry.
pub fn tree_display_bytes(entries: &Vec<TreeEntry>) -> (r: Vec<u8>)
    ensures
        r@ == spec_tree_lines(Seq::new(entries@.len(), |i: int| entries@[i]@)),
{
    let ghost evs = Seq::new(entries@.len(), |i: int| entries@[i]@);
    let mut out: Vec<u8> = Vec::new();
    let mut i: usize = 0;
    proof {
        assert(evs.skip(0) =~= evs);
        assert(Seq::<u8>::empty() + spec_tree_lines(evs) =~= spec_tree_lines(evs));
    }
    while i < entries.len()
        invariant
            0 <= i <= entries@.len(),
            evs == Seq::new(entries@.len(), |j: int| entries@[j]@),
            spec_tree_lines(evs) == out@ + spec_tree_lines(evs.skip(i as int)),
        decreases entries@.len() - i,
    {
        let ghost rest = evs.skip(i as int);
        proof {
            assert(rest[0] == evs[i as int]);
            assert(rest.skip(1) =~= evs.skip(i + 1));
        }
        let e = &entries[i];
        let ghost prev = out@;
        push_dec(&mut out, e.mode as u64);
        push_byte(&mut out, 0x09);
        let hx = e.hash.to_hex_bytes();
        push_bytes(&mut out, hx.as_slice());
        push_byte(&mut out, 0x09);
        push_bytes(&mut out, e.path.as_slice());
        proof {
            assert(out@ =~= prev + spec_tree_entry_line(evs[i as int]));
        }
        if i + 1 < entries.len() {
            push_byte(&mut out, 0x0a);
            proof {
                assert(rest.len() > 1);
                assert(spec_tree_lines(rest) == spec_tree_entry_line(rest[0]) + seq![0x0au8]
                    + spec_tree_lines(rest.skip(1)));
                assert(out@ =~= prev + (spec_tree_entry_line(evs[i as int]) + seq![0x0au8]));
                assert(out@ + spec_tree_lines(evs.skip(i + 1)) =~= spec_tree_lines(evs));
            }
        } else {
            proof {
                assert(rest.len() == 1);
                assert(spec_tree_lines(rest) == spec_tree_entry_line(rest[0]));
                assert(evs.skip(i + 1) =~= Seq::<TreeEntryV>::empty());
                assert(out@ + spec_tree_lines(evs.skip(i + 1)) =~= out@);
                assert(out@ =~= spec_tree_lines(evs));
            }
        }
        i = i + 1;
    }
    proof {
        if evs.len() == 0 {
            assert(out@ =~= spec_tree_lines(evs));
        }
    }
    out
}

/// What an object displays as: a blob shows its raw content; a tree its
/// entry lines; a commit its body text.
pub open spec fn spec_display_bytes(o: ObjectV) -> Seq<u8> {
    match o {
        ObjectV::Blob { data } => data,
        ObjectV::Tree { entries } => spec_tree_lines(entries),
        ObjectV::Commit { tree, parents, author, committer, message } =>
            crate::object::spec_encode_commit_body(tree, parents, author, committer, message),
    }
}

impl Object {
    /// Renders this object for human reading.
    pub fn display(&self) -> (r: String)
        ensures
            r@ == lossy_of(spec_display_bytes(self@)),
    {
        match self {
            Object::Blob { data } => lossy_string(data.as_slice()),
            Object::Tree { entries } => {
                let b = tree_display_bytes(entries);
                lossy_string(b.as_slice())
            },
            Object::Commit { tree, parents, author, committer, message } => {
                let b = crate::commit::commit_body_bytes(
                    tree,
                    parents,
                    author,
                    committer,
                    message.as_slice(),
                );
                lossy_string(b.as_slice())
            },
        }
    }
}

/// The rendering of one index entry: octal mode, hex hash, merge stage, and
/// path. A mode too large to reread in octal is shown in decimal.
pub open spec fn spec_entry_line(e: crate::index_entry::IndexEntryV) -> Seq<u8> {
    (if e.mode < 0x1000000 {
        dec_digits(oct_as_dec(e.mode as nat))
    } else {
        dec_digits(e.mode as nat)
    }) + seq![0x20u8] + hex_of(e.hash) + seq![0x20u8] + dec_digits(
        (((e.flags >> 14) & 3) as u16) as nat,
    ) + seq![0x09u8] + e.path
}

/// Renders one index entry as its listing line.
pub fn entry_line_bytes(e: &crate::index_entry::IndexEntry) -> (r: Vec<u8>)
    ensures
        r@ == spec_entry_line(e@),
{
    let mut out: Vec<u8> = Vec::new();
    let mode = e.mode();
    if mode < 0x1000000 {
        proof {
            reveal_with_fuel(vstd::arithmetic::power::pow, 9);
            assert(vstd::arithmetic::power::pow(8, 8) == 0x1000000);
            assert(vstd::arithmetic::power::pow(10, 8) == 100000000);
            crate::tree_builder::lemma_oct_as_dec_bound(mode as nat, 8);
        }
        let oct = crate::numbers::as_octal(mode);
        push_dec(&mut out, oct as u64);
    } else {
        push_dec(&mut out, mode as u64);
    }
    push_byte(&mut out, 0x20);
    let h = e.object_hash();
    let hx = h.to_hex_bytes();
    push_bytes(&mut out, hx.as_slice());
    push_byte(&mut out, 0x20);
    let stage = e.get_stage();
    push_dec(&mut out, stage.value() as u64);
    push_byte(&mut out, 0x09);
    push_bytes(&mut out, e.path());
    proof {
        assert(out@ =~= spec_entry_line(e@));
    }
    out
}

} // verus!
