//! The command cores: staging, committing, listing and status, as functions
//! from plain values to plain values. Reading and writing files around them
//! is the caller's part.

use vstd::prelude::*;
use vstd::slice::slice_to_vec;

use crate::bytesio::{push_byte, push_bytes};
use crate::display::{lossy_of, lossy_string};
use crate::error::GitError;
use crate::hashing::hex_of;
use crate::index::Index;
use crate::object::{CommitUser, Object, TreeEntry};
use crate::status::{
    commit_paths_unique, commit_views, index_paths_unique, index_views, out_views,
    plan_satisfied, work_paths_unique, work_views, CommitFile, FileData, FileWithStatus,
    FileWithStatusV, IndexFile, StageStatus, StatusV,
};
use crate::store::{store_lookup, ObjectStore, PendingWrite};
use crate::tree_builder::{store_extends, TreeBuilder};

verus! {

/// The acknowledgement `checkout` prints: the reference HEAD now stands at.
pub fn checkout(reference: &[u8]) -> (r: String)
    ensures
        r@ == lossy_of(seq![0x48u8, 0x45u8, 0x41u8, 0x44u8, 0x20u8, 0x69u8, 0x73u8, 0x20u8, 0x6eu8, 0x6fu8, 0x77u8, 0x20u8, 0x61u8, 0x74u8, 0x20u8] + reference@),
{
    let mut out: Vec<u8> = Vec::new();
    push_bytes(&mut out, &[0x48u8, 0x45u8, 0x41u8, 0x44u8, 0x20u8, 0x69u8, 0x73u8, 0x20u8, 0x6eu8, 0x6fu8, 0x77u8, 0x20u8, 0x61u8, 0x74u8, 0x20u8]);
    push_bytes(&mut out, reference);
    proof {
        assert(out@ =~= seq![0x48u8, 0x45u8, 0x41u8, 0x44u8, 0x20u8, 0x69u8, 0x73u8, 0x20u8, 0x6eu8, 0x6fu8, 0x77u8, 0x20u8, 0x61u8, 0x74u8, 0x20u8] + reference@);
    }
    lossy_string(out.as_slice())
}

/// The acknowledgement `reset` prints for a commit reset.
pub fn reset_to_commit(hard: bool, commit_hash: &crate::hashing::Hash) -> (r: String)
    ensures
        r@ == lossy_of(seq![0x72u8, 0x65u8, 0x73u8, 0x65u8, 0x74u8, 0x20u8, 0x74u8, 0x6fu8, 0x20u8, 0x63u8, 0x6fu8, 0x6du8, 0x6du8, 0x69u8, 0x74u8, 0x20u8] + hex_of(commit_hash@)),
{
    let mut out: Vec<u8> = Vec::new();
    push_bytes(&mut out, &[0x72u8, 0x65u8, 0x73u8, 0x65u8, 0x74u8, 0x20u8, 0x74u8, 0x6fu8, 0x20u8, 0x63u8, 0x6fu8, 0x6du8, 0x6du8, 0x69u8, 0x74u8, 0x20u8]);
    let hx = commit_hash.to_hex_bytes();
    push_bytes(&mut out, hx.as_slice());
    proof {
        assert(out@ =~= seq![0x72u8, 0x65u8, 0x73u8, 0x65u8, 0x74u8, 0x20u8, 0x74u8, 0x6fu8, 0x20u8, 0x63u8, 0x6fu8, 0x6du8, 0x6du8, 0x69u8, 0x74u8, 0x20u8] + hex_of(commit_hash@));
    }
    lossy_string(out.as_slice())
}

/// The listing of the index entries, one line per entry; with `debug`, every
/// entry's line is followed by a blank line.
pub open spec fn spec_ls_lines(es: Seq<crate::index_entry::IndexEntryV>, debug: bool) -> Seq<u8>
    decreases es.len(),
{
    if es.len() == 0 {
        Seq::<u8>::empty()
    } else {
        crate::display::spec_entry_line(es[0]) + (if debug {
            seq![0x0au8, 0x0au8]
        } else {
            seq![0x0au8]
        }) + spec_ls_lines(es.skip(1), debug)
    }
}

/// Lists the staged files, one line per entry.
pub fn ls_files(index: &Index, debug: bool) -> (r: String)
    ensures
        r@ == lossy_of(spec_ls_lines(index@.entries, debug)),
{
    let ghost es = index@.entries;
    let mut out: Vec<u8> = Vec::new();
    let mut i: usize = 0;
    proof {
        assert(es.skip(0) =~= es);
        assert(Seq::<u8>::empty() + spec_ls_lines(es, debug) =~= spec_ls_lines(es, debug));
    }
    while i < index.entries.len()
        invariant
            0 <= i <= index.entries@.len(),
            es == index@.entries,
            spec_ls_lines(es, debug) == out@ + spec_ls_lines(es.skip(i as int), debug),
        decreases index.entries@.len() - i,
    {
        let ghost rest = es.skip(i as int);
        proof {
            assert(rest[0] == es[i as int]);
            assert(rest.skip(1) =~= es.skip(i + 1));
        }
        let ghost prev = out@;
        let line = crate::display::entry_line_bytes(&index.entries[i]);
        push_bytes(&mut out, line.as_slice());
        push_byte(&mut out, 0x0a);
        if debug {
            push_byte(&mut out, 0x0a);
            proof {
                assert(out@ =~= prev + (crate::display::spec_entry_line(es[i as int]) + seq![
                    0x0au8,
                    0x0au8,
                ]));
            }
        } else {
            proof {
                assert(out@ =~= prev + (crate::display::spec_entry_line(es[i as int]) + seq![
                    0x0au8,
                ]));
            }
        }
        proof {
            assert(out@ + spec_ls_lines(es.skip(i + 1), debug) =~= spec_ls_lines(es, debug));
        }
        i = i + 1;
    }
    proof {
        assert(es.skip(i as int) =~= Seq::<crate::index_entry::IndexEntryV>::empty());
        assert(out@ + Seq::<u8>::empty() =~= out@);
    }
    lossy_string(out.as_slice())
}

/// The record one index entry contributes to reconciliation.
pub open spec fn spec_index_record(e: crate::index_entry::IndexEntryV) -> crate::status::IndexFileV {
    crate::status::IndexFileV {
        path: e.path,
        hash: e.hash,
        cache: crate::index_entry::IndexEntryCache {
            modification_time_sec: e.modification_time_sec,
            modification_time_nsec: e.modification_time_nsec,
            device: e.device,
            inode: e.inode,
            file_size: e.file_size,
        },
    }
}

/// Whether the accumulated records already hold a path.
pub open spec fn has_index_record(acc: Seq<crate::status::IndexFileV>, p: Seq<u8>) -> bool {
    exists|j: int| 0 <= j < acc.len() && (#[trigger] acc[j]).path == p
}

/// The reconciliation records of the entries, one per path, first entry
/// winning a duplicated path.
pub open spec fn spec_index_data(
    es: Seq<crate::index_entry::IndexEntryV>,
    acc: Seq<crate::status::IndexFileV>,
) -> Seq<crate::status::IndexFileV>
    decreases es.len(),
{
    if es.len() == 0 {
        acc
    } else if has_index_record(acc, es[0].path) {
        spec_index_data(es.skip(1), acc)
    } else {
        spec_index_data(es.skip(1), acc.push(spec_index_record(es[0])))
    }
}

/// Whether the accumulated commit records already hold this path.
pub open spec fn has_commit_record(acc: Seq<crate::status::CommitFileV>, p: Seq<u8>) -> bool {
    exists|j: int| 0 <= j < acc.len() && (#[trigger] acc[j]).path == p
}

/// The reconciliation records of a flattened tree, one per path, the first
/// occurrence winning a duplicated path.
pub open spec fn spec_commit_data(
    flat: Seq<crate::object::TreeEntryV>,
    acc: Seq<crate::status::CommitFileV>,
) -> Seq<crate::status::CommitFileV>
    decreases flat.len(),
{
    if flat.len() == 0 {
        acc
    } else if has_commit_record(acc, flat[0].path) {
        spec_commit_data(flat.skip(1), acc)
    } else {
        spec_commit_data(
            flat.skip(1),
            acc.push(
                crate::status::CommitFileV { path: flat[0].path, hash: flat[0].hash },
            ),
        )
    }
}

/// The reconciliation inputs the index provides: path, staged hash and
/// cached metadata of each entry, first entry winning a duplicated path.
pub fn read_index_data(index: &Index) -> (r: Vec<IndexFile>)
    ensures
        index_paths_unique(index_views(r@)),
        index_views(r@) == spec_index_data(
            index@.entries,
            Seq::<crate::status::IndexFileV>::empty(),
        ),
{
    let ghost es = index@.entries;
    let mut out: Vec<IndexFile> = Vec::new();
    let mut i: usize = 0;
    proof {
        assert(es.skip(0) =~= es);
        assert(index_views(out@) =~= Seq::<crate::status::IndexFileV>::empty());
    }
    while i < index.entries.len()
        invariant
            0 <= i <= index.entries@.len(),
            es == index@.entries,
            es.len() == index.entries@.len(),
            index_paths_unique(index_views(out@)),
            spec_index_data(es, Seq::<crate::status::IndexFileV>::empty()) == spec_index_data(
                es.skip(i as int),
                index_views(out@),
            ),
        decreases index.entries@.len() - i,
    {
        let ghost rest = es.skip(i as int);
        proof {
            assert(rest[0] == es[i as int]);
            assert(rest.skip(1) =~= es.skip(i + 1));
        }
        let e = &index.entries[i];
        let mut seen = false;
        let mut j: usize = 0;
        let n = out.len();
        loop
            invariant_except_break
                !seen,
            invariant
                0 <= j <= n,
                n == out@.len(),
                forall|j2: int|
                    0 <= j2 < j ==> (#[trigger] index_views(out@)[j2]).path != e@.path,
            ensures
                seen ==> exists|j2: int|
                    0 <= j2 < out@.len() && (#[trigger] index_views(out@)[j2]).path == e@.path,
                !seen ==> forall|j2: int|
                    0 <= j2 < out@.len() ==> (#[trigger] index_views(out@)[j2]).path != e@.path,
            decreases n - j,
        {
            if j >= n {
                break;
            }
            if crate::hashing::bytes_eq(out[j].path.as_slice(), e.path()) {
                seen = true;
                proof {
                    assert(index_views(out@)[j as int].path == e@.path);
                }
                break;
            }
            j = j + 1;
        }
        proof {
            assert(seen == has_index_record(index_views(out@), es[i as int].path));
        }
        if !seen {
            let ghost prev = index_views(out@);
            let item = IndexFile {
                path: slice_to_vec(e.path()),
                hash: e.object_hash(),
                cache: e.cache(),
            };
            let ghost iv = item@;
            out.push(item);
            proof {
                assert(index_views(out@) =~= prev.push(iv));
                assert(iv == spec_index_record(es[i as int]));
                assert forall|a: int, b: int|
                    0 <= a < b < index_views(out@).len() implies (#[trigger] index_views(
                    out@,
                )[a]).path != (#[trigger] index_views(out@)[b]).path by {
                    if b < prev.len() {
                        assert(index_views(out@)[a] == prev[a] && index_views(out@)[b] == prev[b]);
                    } else {
                        assert(index_views(out@)[b] == iv);
                        assert(index_views(out@)[a] == prev[a]);
                    }
                }
            }
        }
        i = i + 1;
    }
    out
}

/// The path of a tree entry under a prefix.
pub open spec fn spec_full_path(prefix: Seq<u8>, p: Seq<u8>) -> Seq<u8> {
    if prefix.len() > 0 {
        prefix + seq![0x2fu8] + p
    } else {
        p
    }
}

/// What flattening tree entries through the store yields: an entry whose
/// hash resolves to a stored tree contributes that subtree's flattening,
/// under its path; anything else is one file. Nothing, when the depth
/// exceeds `fuel`.
pub open spec fn spec_flatten(
    stv: Seq<(Seq<u8>, Seq<u8>)>,
    entries: Seq<crate::object::TreeEntryV>,
    prefix: Seq<u8>,
    fuel: nat,
) -> Option<Seq<crate::object::TreeEntryV>>
    decreases fuel, entries.len(),
{
    if entries.len() == 0 {
        Some(Seq::<crate::object::TreeEntryV>::empty())
    } else {
        let e = entries[0];
        let full = spec_full_path(prefix, e.path);
        let head = match store_lookup(stv, e.hash) {
            Some(data) => {
                match crate::object::spec_decode_object(data) {
                    Some(crate::object::ObjectV::Tree { entries: sub }) => {
                        if fuel == 0 {
                            None
                        } else {
                            spec_flatten(stv, sub, full, (fuel - 1) as nat)
                        }
                    },
                    _ => Some(
                        seq![crate::object::TreeEntryV { mode: e.mode, path: full, hash: e.hash }],
                    ),
                }
            },
            None => Some(
                seq![crate::object::TreeEntryV { mode: e.mode, path: full, hash: e.hash }],
            ),
        };
        let rest = spec_flatten(stv, entries.skip(1), prefix, fuel);
        match (head, rest) {
            (Some(a), Some(b)) => Some(a + b),
            _ => None,
        }
    }
}

/// Flattens a tree's entries recursively through the store, as
/// `spec_flatten` lays out. `fuel` bounds the depth, against malformed
/// cyclic data.
pub fn get_all_tree_entries(
    store: &ObjectStore,
    entries: &Vec<TreeEntry>,
    prefix: &[u8],
    fuel: usize,
) -> (r: Result<Vec<TreeEntry>, GitError>)
    ensures
        r is Ok <==> spec_flatten(
            store@,
            Seq::new(entries@.len(), |i: int| entries@[i]@),
            prefix@,
            fuel as nat,
        ) is Some,
        r is Ok ==> Some(Seq::new(r.unwrap()@.len(), |i: int| r.unwrap()@[i]@)) == spec_flatten(
            store@,
            Seq::new(entries@.len(), |i: int| entries@[i]@),
            prefix@,
            fuel as nat,
        ),
    decreases fuel,
{
    let ghost evs = Seq::new(entries@.len(), |i: int| entries@[i]@);
    let mut out: Vec<TreeEntry> = Vec::new();
    let mut i: usize = 0;
    proof {
        assert(evs.skip(0) =~= evs);
    }
    while i < entries.len()
        invariant
            0 <= i <= entries@.len(),
            evs == Seq::new(entries@.len(), |k: int| entries@[k]@),
            spec_flatten(store@, evs, prefix@, fuel as nat) is Some <==> spec_flatten(
                store@,
                evs.skip(i as int),
                prefix@,
                fuel as nat,
            ) is Some,
            spec_flatten(store@, evs, prefix@, fuel as nat) is Some ==> spec_flatten(
                store@,
                evs,
                prefix@,
                fuel as nat,
            ) == Some(
                Seq::new(out@.len(), |k: int| out@[k]@) + spec_flatten(
                    store@,
                    evs.skip(i as int),
                    prefix@,
                    fuel as nat,
                ).unwrap(),
            ),
        decreases entries@.len() - i,
    {
        let ghost restv = evs.skip(i as int);
        proof {
            assert(restv[0] == evs[i as int]);
            assert(restv.skip(1) =~= evs.skip(i + 1));
        }
        let e = &entries[i];
        let mut full: Vec<u8> = Vec::new();
        if prefix.len() > 0 {
            push_bytes(&mut full, prefix);
            push_byte(&mut full, 0x2f);
        }
        push_bytes(&mut full, e.path.as_slice());
        proof {
            assert(full@ == spec_full_path(prefix@, evs[i as int].path));
        }
        let ghost oldout = Seq::new(out@.len(), |k: int| out@[k]@);
        let ghost mut headv = Seq::<crate::object::TreeEntryV>::empty();
        let mut was_tree = false;
        match store.get(&e.hash) {
            Some(data) => {
                match Object::from_bytes(data.as_slice()) {
                    Ok(Object::Tree { entries: sub }) => {
                        if fuel == 0 {
                            return Err(GitError::FormatError);
                        }
                        match get_all_tree_entries(store, &sub, full.as_slice(), fuel - 1) {
                            Ok(mut flat) => {
                                let ghost flatv = Seq::new(flat@.len(), |k: int| flat@[k]@);
                                out.append(&mut flat);
                                proof {
                                    headv = flatv;
                                    assert(Seq::new(out@.len(), |k: int| out@[k]@) =~= oldout
                                        + headv);
                                }
                            },
                            Err(err) => {
                                return Err(err);
                            },
                        }
                        was_tree = true;
                    },
                    _ => {},
                }
            },
            None => {},
        }
        if !was_tree {
            let ghost leaf = crate::object::TreeEntryV {
                mode: evs[i as int].mode,
                path: full@,
                hash: evs[i as int].hash,
            };
            out.push(TreeEntry { mode: e.mode, path: full, hash: e.hash.clone() });
            proof {
                headv = seq![leaf];
                assert(Seq::new(out@.len(), |k: int| out@[k]@) =~= oldout.push(leaf));
                assert(oldout.push(leaf) =~= oldout + headv);
            }
        }
        proof {
            if spec_flatten(store@, evs, prefix@, fuel as nat) is Some {
                let tail = spec_flatten(store@, evs.skip(i + 1), prefix@, fuel as nat);
                assert(spec_flatten(store@, restv, prefix@, fuel as nat).unwrap() == headv
                    + tail.unwrap());
                assert(oldout + (headv + tail.unwrap()) =~= (oldout + headv) + tail.unwrap());
            }
        }
        i = i + 1;
    }
    proof {
        assert(evs.skip(i as int) =~= Seq::<crate::object::TreeEntryV>::empty());
        if spec_flatten(store@, evs, prefix@, fuel as nat) is Some {
            assert(Seq::new(out@.len(), |k: int| out@[k]@) + Seq::<
                crate::object::TreeEntryV,
            >::empty() =~= Seq::new(out@.len(), |k: int| out@[k]@));
        }
    }
    Ok(out)
}

/// The reconciliation inputs the last commit provides: every file the
/// commit's tree reaches, with its hash; nothing exactly when no commit
/// hash was given.
pub fn read_commit_data(store: &ObjectStore, last_commit: Option<&crate::hashing::Hash>) -> (r:
    Result<Option<Vec<CommitFile>>, GitError>)
    ensures
        r is Ok && r.unwrap() is Some ==> commit_paths_unique(
            commit_views(r.unwrap().unwrap()@),
        ),
        last_commit is None ==> r is Ok && r.unwrap() is None,
        r is Ok && r.unwrap() is None ==> last_commit is None,
        r is Ok && r.unwrap() is Some ==> (exists|th: Seq<u8>, tes: Seq<crate::object::TreeEntryV>|
            #![auto]
            {
                &&& store_lookup(store@, last_commit.unwrap()@) is Some
                &&& (match crate::object::spec_decode_object(
                    store_lookup(store@, last_commit.unwrap()@).unwrap(),
                ) {
                    Some(crate::object::ObjectV::Commit { tree, .. }) => tree == th,
                    _ => false,
                })
                &&& store_lookup(store@, th) is Some
                &&& crate::object::spec_decode_object(store_lookup(store@, th).unwrap()) == Some(
                    crate::object::ObjectV::Tree { entries: tes },
                )
                &&& spec_flatten(store@, tes, Seq::<u8>::empty(), store@.len() as nat) is Some
                &&& commit_views(r.unwrap().unwrap()@) == spec_commit_data(
                    spec_flatten(store@, tes, Seq::<u8>::empty(), store@.len() as nat).unwrap(),
                    Seq::<crate::status::CommitFileV>::empty(),
                )
            }),
{
    let h = match last_commit {
        Some(h) => h,
        None => {
            return Ok(None);
        },
    };
    let commit_obj = match store.read(h) {
        Ok(o) => o,
        Err(e) => {
            return Err(e);
        },
    };
    let tree_hash = match commit_obj {
        Object::Commit { tree, .. } => tree,
        _ => {
            return Err(GitError::FormatError);
        },
    };
    let tree_obj = match store.read(&tree_hash) {
        Ok(o) => o,
        Err(e) => {
            return Err(e);
        },
    };
    let entries = match tree_obj {
        Object::Tree { entries } => entries,
        _ => {
            return Err(GitError::FormatError);
        },
    };
    let empty_prefix: &[u8] = &[];
    let flat = match get_all_tree_entries(store, &entries, empty_prefix, store.entries.len()) {
        Ok(f) => f,
        Err(e) => {
            return Err(e);
        },
    };
    let ghost tes = Seq::new(entries@.len(), |k: int| entries@[k]@);
    let ghost flatv = Seq::new(flat@.len(), |k: int| flat@[k]@);
    proof {
        assert(empty_prefix@ =~= Seq::<u8>::empty());
        assert(store@.len() == store.entries@.len());
        assert(Some(flatv) == spec_flatten(store@, tes, Seq::<u8>::empty(), store@.len() as nat));
        assert(flatv.skip(0) =~= flatv);
    }
    let mut out: Vec<CommitFile> = Vec::new();
    let mut i: usize = 0;
    proof {
        assert(commit_views(out@) =~= Seq::<crate::status::CommitFileV>::empty());
    }
    while i < flat.len()
        invariant
            0 <= i <= flat@.len(),
            flatv == Seq::new(flat@.len(), |k: int| flat@[k]@),
            commit_paths_unique(commit_views(out@)),
            spec_commit_data(flatv, Seq::<crate::status::CommitFileV>::empty())
                == spec_commit_data(flatv.skip(i as int), commit_views(out@)),
        decreases flat@.len() - i,
    {
        let ghost rest = flatv.skip(i as int);
        proof {
            assert(rest[0] == flatv[i as int]);
            assert(rest.skip(1) =~= flatv.skip(i + 1));
        }
        let e = &flat[i];
        let mut seen = false;
        let mut j: usize = 0;
        let n = out.len();
        loop
            invariant_except_break
                !seen,
            invariant
                0 <= j <= n,
                n == out@.len(),
                forall|j2: int|
                    0 <= j2 < j ==> (#[trigger] commit_views(out@)[j2]).path != e@.path,
            ensures
                seen ==> exists|j2: int|
                    0 <= j2 < out@.len() && (#[trigger] commit_views(out@)[j2]).path == e@.path,
                !seen ==> forall|j2: int|
                    0 <= j2 < out@.len() ==> (#[trigger] commit_views(out@)[j2]).path != e@.path,
            decreases n - j,
        {
            if j >= n {
                break;
            }
            if crate::hashing::bytes_eq(out[j].path.as_slice(), e.path.as_slice()) {
                seen = true;
                proof {
                    assert(commit_views(out@)[j as int].path == e@.path);
                }
                break;
            }
            j = j + 1;
        }
        proof {
            assert(seen == has_commit_record(commit_views(out@), flatv[i as int].path));
        }
        if !seen {
            let ghost prev = commit_views(out@);
            let item = CommitFile { path: slice_to_vec(e.path.as_slice()), hash: e.hash.clone() };
            let ghost iv = item@;
            out.push(item);
            proof {
                assert(commit_views(out@) =~= prev.push(iv));
                assert(iv == (crate::status::CommitFileV {
                    path: flatv[i as int].path,
                    hash: flatv[i as int].hash,
                }));
                assert forall|a: int, b: int|
                    0 <= a < b < commit_views(out@).len() implies (#[trigger] commit_views(
                    out@,
                )[a]).path != (#[trigger] commit_views(out@)[b]).path by {
                    if b < prev.len() {
                        assert(commit_views(out@)[a] == prev[a] && commit_views(out@)[b]
                            == prev[b]);
                    } else {
                        assert(commit_views(out@)[b] == iv);
                        assert(commit_views(out@)[a] == prev[a]);
                    }
                }
            }
        }
        i = i + 1;
    }
    proof {
        assert(flatv.skip(flat@.len() as int) =~= Seq::<crate::object::TreeEntryV>::empty());
        assert(commit_views(out@) == spec_commit_data(
            flatv,
            Seq::<crate::status::CommitFileV>::empty(),
        ));
    }
    Ok(Some(out))
}

/// A builder holding exactly these staged entries: some chain of builders
/// starts empty, routes each entry in turn under its mode, path and hash,
/// and ends in this builder.
pub open spec fn spec_staged_chain(
    es: Seq<crate::index_entry::IndexEntryV>,
    chain: Seq<crate::tree_builder::TreeBuilder>,
    tb: crate::tree_builder::TreeBuilder,
) -> bool {
    &&& chain.len() == es.len() + 1
    &&& chain[0].entries@.len() == 0
    &&& chain[0].subtrees@.len() == 0
    &&& forall|i: int|
        0 <= i < es.len() ==> crate::tree_builder::spec_routed(
            chain[i],
            chain[i + 1],
            (#[trigger] es[i]).mode,
            es[i].path,
            es[i].hash,
        )
    &&& chain.last() == tb
}

/// Builds a tree from the whole index, writes it and a commit object over
/// it, and returns the commit's hash with the files still to be created.
/// Succeeds exactly when every index mode rereads in octal; the store then
/// holds, under the returned hash, a commit over a stored tree with the
/// given parent, author, committer and message.
pub fn commit(
    store: &mut ObjectStore,
    index: &Index,
    parent: Option<crate::hashing::Hash>,
    author: CommitUser,
    committer: CommitUser,
    message: &[u8],
) -> (r: Result<(crate::hashing::Hash, Vec<PendingWrite>), GitError>)
    ensures
        store_extends(final(store)@, old(store)@),
        r is Ok <==> (forall|j: int|
            0 <= j < index@.entries.len() ==> (#[trigger] index@.entries[j]).mode < 0x1000000),
        r is Ok ==> store_lookup(final(store)@, r.unwrap().0@) is Some,
        r is Ok ==> (exists|th: Seq<u8>|
            #![trigger store_lookup(final(store)@, th)]
            {
                &&& store_lookup(final(store)@, th) is Some
                &&& (exists|tb: crate::tree_builder::TreeBuilder, chain: Seq<
                    crate::tree_builder::TreeBuilder,
                >|
                    #![auto]
                    spec_staged_chain(index@.entries, chain, tb)
                        && crate::tree_builder::builder_hashed(tb, th))
                &&& r.unwrap().0@ == crate::hashing::sha1_of(
                    crate::object::spec_encode_object(
                        crate::object::ObjectV::Commit {
                            tree: th,
                            parents: match parent {
                                Some(p) => seq![p@],
                                None => Seq::<Seq<u8>>::empty(),
                            },
                            author: author@,
                            committer: committer@,
                            message: message@,
                        },
                    ),
                )
            }),
{
    let mut builder = TreeBuilder::new();
    let ghost mut chainw: Seq<crate::tree_builder::TreeBuilder> = seq![builder];
    let mut i: usize = 0;
    while i < index.entries.len()
        invariant
            0 <= i <= index.entries@.len(),
            forall|j: int|
                0 <= j < i ==> (#[trigger] index@.entries[j]).mode < 0x1000000,
            chainw.len() == i + 1,
            chainw[0].entries@.len() == 0 && chainw[0].subtrees@.len() == 0,
            forall|i2: int|
                0 <= i2 < i ==> crate::tree_builder::spec_routed(
                    chainw[i2],
                    chainw[i2 + 1],
                    (#[trigger] index@.entries[i2]).mode,
                    index@.entries[i2].path,
                    index@.entries[i2].hash,
                ),
            chainw.last() == builder,
        decreases index.entries@.len() - i,
    {
        let e = &index.entries[i];
        let mode = e.mode();
        if mode >= 0x1000000 {
            proof {
                assert(index@.entries[i as int].mode >= 0x1000000);
            }
            return Err(GitError::InvalidArgument);
        }
        proof {
            reveal_with_fuel(vstd::arithmetic::power::pow, 9);
            assert(vstd::arithmetic::power::pow(8, 8) == 0x1000000);
            assert(vstd::arithmetic::power::pow(10, 8) == 100000000);
            crate::tree_builder::lemma_oct_as_dec_bound(mode as nat, 8);
        }
        let h = e.object_hash();
        let ghost pre = builder;
        builder.add_object(mode, e.path(), h, false);
        proof {
            assert(crate::tree_builder::spec_routed(
                pre,
                builder,
                index@.entries[i as int].mode,
                index@.entries[i as int].path,
                index@.entries[i as int].hash,
            ));
            chainw = chainw.push(builder);
            assert(chainw[i as int] == pre && chainw[i as int + 1] == builder);
            assert forall|i2: int|
                0 <= i2 < i + 1 implies crate::tree_builder::spec_routed(
                chainw[i2],
                chainw[i2 + 1],
                (#[trigger] index@.entries[i2]).mode,
                index@.entries[i2].path,
                index@.entries[i2].hash,
            ) by {
                if i2 < i {
                    assert(chainw[i2] == chainw.drop_last()[i2]
                        && chainw[i2 + 1] == chainw.drop_last()[i2 + 1]);
                }
            }
        }
        i = i + 1;
    }
    let mut pending: Vec<PendingWrite> = Vec::new();
    let tree_hash = builder.build_and_write(store, &mut pending);
    let mut parents: Vec<crate::hashing::Hash> = Vec::new();
    match parent {
        Some(p) => {
            parents.push(p);
        },
        None => {},
    }
    let commit_obj = Object::Commit {
        tree: tree_hash,
        parents,
        author,
        committer,
        message: slice_to_vec(message),
    };
    let ghost mid = store@;
    let (hash, pw) = store.write(&commit_obj);
    match pw {
        Some(p) => {
            pending.push(p);
        },
        None => {},
    }
    proof {
        crate::store::lemma_store_write_idempotent(
            mid,
            crate::hashing::sha1_of(crate::object::spec_encode_object(commit_obj@)),
            crate::object::spec_encode_object(commit_obj@),
        );
        assert forall|h2: Seq<u8>|
            store_lookup(mid, h2) is Some implies #[trigger] store_lookup(store@, h2)
            == store_lookup(mid, h2) by {
            crate::store::lemma_store_write_preserves(
                mid,
                crate::hashing::sha1_of(crate::object::spec_encode_object(commit_obj@)),
                crate::object::spec_encode_object(commit_obj@),
                h2,
            );
        }
        crate::tree_builder::lemma_store_extends_trans(store@, mid, old(store)@);
        // the tree the commit points to is stored, carries the staged
        // entries, and the returned hash is the commit's over it
        assert(store_lookup(store@, tree_hash@) is Some);
        assert(spec_staged_chain(index@.entries, chainw, builder));
        assert(crate::tree_builder::builder_hashed(builder, tree_hash@));
        assert(Seq::new(parents@.len(), |k: int| parents@[k]@) =~= (match parent {
            Some(p) => seq![p@],
            None => Seq::<Seq<u8>>::empty(),
        }));
        assert(commit_obj@ == (crate::object::ObjectV::Commit {
            tree: tree_hash@,
            parents: match parent {
                Some(p) => seq![p@],
                None => Seq::<Seq<u8>>::empty(),
            },
            author: author@,
            committer: committer@,
            message: message@,
        }));
    }
    Ok((hash, pending))
}

/// The line a classified path contributes to its bucket.
pub open spec fn spec_status_line(o: FileWithStatusV) -> Seq<u8> {
    match o.status {
        StatusV::New => seq![0x09u8, 0x6eu8, 0x65u8, 0x77u8, 0x20u8, 0x66u8, 0x69u8, 0x6cu8, 0x65u8, 0x3au8, 0x09u8] + o.path + seq![0x0au8],
        StatusV::Moved { previous } => seq![0x09u8, 0x6du8, 0x6fu8, 0x76u8, 0x65u8, 0x64u8, 0x3au8, 0x09u8] + previous + seq![0x20u8, 0x2du8, 0x3eu8, 0x20u8] + o.path + seq![0x0au8],
        StatusV::Deleted => seq![0x09u8, 0x64u8, 0x65u8, 0x6cu8, 0x65u8, 0x74u8, 0x65u8, 0x64u8, 0x3au8, 0x09u8] + o.path + seq![0x0au8],
        StatusV::Modified => seq![0x09u8, 0x6du8, 0x6fu8, 0x64u8, 0x69u8, 0x66u8, 0x69u8, 0x65u8, 0x64u8, 0x3au8, 0x09u8] + o.path + seq![0x0au8],
        StatusV::Unchanged => Seq::<u8>::empty(),
    }
}

/// The three buckets of the status report: staged, not staged, untracked.
/// Unchanged paths are dropped; an untracked path is listed bare.
pub open spec fn spec_buckets(s: Seq<FileWithStatusV>) -> (Seq<u8>, Seq<u8>, Seq<u8>)
    decreases s.len(),
{
    if s.len() == 0 {
        (Seq::<u8>::empty(), Seq::<u8>::empty(), Seq::<u8>::empty())
    } else {
        let r = spec_buckets(s.skip(1));
        if s[0].status == StatusV::Unchanged {
            r
        } else if s[0].stage_status == StageStatus::Untracked {
            (r.0, r.1, seq![0x09u8] + s[0].path + seq![0x0au8] + r.2)
        } else if s[0].stage_status == StageStatus::Commit {
            (spec_status_line(s[0]) + r.0, r.1, r.2)
        } else {
            (r.0, spec_status_line(s[0]) + r.1, r.2)
        }
    }
}

/// The whole status report.
pub open spec fn spec_format_status(
    s: Seq<FileWithStatusV>,
    no_commits: bool,
    branch: Seq<u8>,
) -> Seq<u8> {
    let header = seq![0x4fu8, 0x6eu8, 0x20u8, 0x62u8, 0x72u8, 0x61u8, 0x6eu8, 0x63u8, 0x68u8, 0x20u8] + branch + seq![0x0au8] + (if no_commits {
        seq![0x0au8, 0x4eu8, 0x6fu8, 0x20u8, 0x63u8, 0x6fu8, 0x6du8, 0x6du8, 0x69u8, 0x74u8, 0x73u8, 0x20u8, 0x79u8, 0x65u8, 0x74u8, 0x0au8]
    } else {
        Seq::<u8>::empty()
    });
    let b = spec_buckets(s);
    if b.0.len() == 0 && b.1.len() == 0 && b.2.len() == 0 {
        header + seq![0x0au8, 0x54u8, 0x68u8, 0x65u8, 0x72u8, 0x65u8, 0x20u8, 0x69u8, 0x73u8, 0x20u8, 0x6eu8, 0x6fu8, 0x74u8, 0x68u8, 0x69u8, 0x6eu8, 0x67u8, 0x20u8, 0x74u8, 0x6fu8, 0x20u8, 0x63u8, 0x6fu8, 0x6du8, 0x6du8, 0x69u8, 0x74u8, 0x2cu8, 0x20u8, 0x61u8, 0x6cu8, 0x6cu8, 0x20u8, 0x63u8, 0x6cu8, 0x65u8, 0x61u8, 0x6eu8, 0x21u8, 0x0au8]
    } else {
        header + (if b.0.len() > 0 {
            seq![0x0au8, 0x43u8, 0x68u8, 0x61u8, 0x6eu8, 0x67u8, 0x65u8, 0x73u8, 0x20u8, 0x73u8, 0x74u8, 0x61u8, 0x67u8, 0x65u8, 0x64u8, 0x20u8, 0x66u8, 0x6fu8, 0x72u8, 0x20u8, 0x63u8, 0x6fu8, 0x6du8, 0x6du8, 0x69u8, 0x74u8, 0x3au8, 0x0au8] + b.0
        } else {
            Seq::<u8>::empty()
        }) + (if b.1.len() > 0 {
            seq![0x0au8, 0x4eu8, 0x6fu8, 0x74u8, 0x20u8, 0x73u8, 0x74u8, 0x61u8, 0x67u8, 0x65u8, 0x64u8, 0x20u8, 0x66u8, 0x6fu8, 0x72u8, 0x20u8, 0x63u8, 0x6fu8, 0x6du8, 0x6du8, 0x69u8, 0x74u8, 0x3au8, 0x0au8] + b.1
        } else {
            Seq::<u8>::empty()
        }) + (if b.2.len() > 0 {
            seq![0x0au8, 0x55u8, 0x6eu8, 0x74u8, 0x72u8, 0x61u8, 0x63u8, 0x6bu8, 0x65u8, 0x64u8, 0x20u8, 0x66u8, 0x69u8, 0x6cu8, 0x65u8, 0x73u8, 0x3au8, 0x0au8] + b.2
        } else {
            Seq::<u8>::empty()
        })
    }
}

/// Renders the classified paths as the status report: the branch line, then
/// the staged, unstaged and untracked buckets, each under its heading, or a
/// clean message when nothing changed.
pub fn format_status(statuses: &Vec<FileWithStatus>, no_commits: bool, branch_name: &[u8]) -> (r:
    String)
    ensures
        r@ == lossy_of(spec_format_status(out_views(statuses@), no_commits, branch_name@)),
{
    let ghost sv = out_views(statuses@);
    let mut commit_b: Vec<u8> = Vec::new();
    let mut notcommit_b: Vec<u8> = Vec::new();
    let mut untracked_b: Vec<u8> = Vec::new();
    let n = statuses.len();
    let mut i: usize = n;
    proof {
        assert(sv.skip(n as int) =~= Seq::<FileWithStatusV>::empty());
    }
    while i > 0
        invariant
            0 <= i <= n,
            n == statuses@.len(),
            sv == out_views(statuses@),
            commit_b@ == spec_buckets(sv.skip(i as int)).0,
            notcommit_b@ == spec_buckets(sv.skip(i as int)).1,
            untracked_b@ == spec_buckets(sv.skip(i as int)).2,
        decreases i,
    {
        i = i - 1;
        let ghost rest = sv.skip(i as int);
        proof {
            assert(rest[0] == sv[i as int]);
            assert(rest.skip(1) =~= sv.skip(i + 1));
        }
        let o = &statuses[i];
        let skip_it = match &o.status {
            crate::status::Status::Unchanged => true,
            _ => false,
        };
        if !skip_it {
            if o.stage_status == StageStatus::Untracked {
                let mut piece: Vec<u8> = Vec::new();
                push_byte(&mut piece, 0x09);
                push_bytes(&mut piece, o.path.as_slice());
                push_byte(&mut piece, 0x0a);
                let ghost prevu = untracked_b@;
                let mut tail = untracked_b;
                piece.append(&mut tail);
                untracked_b = piece;
                proof {
                    assert(untracked_b@ =~= (seq![0x09u8] + sv[i as int].path + seq![0x0au8])
                        + prevu);
                }
            } else {
                let mut piece: Vec<u8> = Vec::new();
                match &o.status {
                    crate::status::Status::New => {
                        push_bytes(&mut piece, &[0x09u8, 0x6eu8, 0x65u8, 0x77u8, 0x20u8, 0x66u8, 0x69u8, 0x6cu8, 0x65u8, 0x3au8, 0x09u8]);
                        push_bytes(&mut piece, o.path.as_slice());
                        push_byte(&mut piece, 0x0a);
                    },
                    crate::status::Status::Moved { previous } => {
                        push_bytes(&mut piece, &[0x09u8, 0x6du8, 0x6fu8, 0x76u8, 0x65u8, 0x64u8, 0x3au8, 0x09u8]);
                        push_bytes(&mut piece, previous.as_slice());
                        push_bytes(&mut piece, &[0x20u8, 0x2du8, 0x3eu8, 0x20u8]);
                        push_bytes(&mut piece, o.path.as_slice());
                        push_byte(&mut piece, 0x0a);
                    },
                    crate::status::Status::Deleted => {
                        push_bytes(&mut piece, &[0x09u8, 0x64u8, 0x65u8, 0x6cu8, 0x65u8, 0x74u8, 0x65u8, 0x64u8, 0x3au8, 0x09u8]);
                        push_bytes(&mut piece, o.path.as_slice());
                        push_byte(&mut piece, 0x0a);
                    },
                    crate::status::Status::Modified => {
                        push_bytes(&mut piece, &[0x09u8, 0x6du8, 0x6fu8, 0x64u8, 0x69u8, 0x66u8, 0x69u8, 0x65u8, 0x64u8, 0x3au8, 0x09u8]);
                        push_bytes(&mut piece, o.path.as_slice());
                        push_byte(&mut piece, 0x0a);
                    },
                    crate::status::Status::Unchanged => {},
                }
                proof {
                    assert(piece@ =~= spec_status_line(sv[i as int]));
                }
                if o.stage_status == StageStatus::Commit {
                    let ghost prevc = commit_b@;
                    let mut tail = commit_b;
                    piece.append(&mut tail);
                    commit_b = piece;
                    proof {
                        assert(commit_b@ =~= spec_status_line(sv[i as int]) + prevc);
                    }
                } else {
                    let ghost prevn = notcommit_b@;
                    let mut tail = notcommit_b;
                    piece.append(&mut tail);
                    notcommit_b = piece;
                    proof {
                        assert(notcommit_b@ =~= spec_status_line(sv[i as int]) + prevn);
                    }
                }
            }
        }
    }
    proof {
        assert(sv.skip(0) =~= sv);
    }
    let mut out: Vec<u8> = Vec::new();
    push_bytes(&mut out, &[0x4fu8, 0x6eu8, 0x20u8, 0x62u8, 0x72u8, 0x61u8, 0x6eu8, 0x63u8, 0x68u8, 0x20u8]);
    push_bytes(&mut out, branch_name);
    push_byte(&mut out, 0x0a);
    if no_commits {
        push_bytes(&mut out, &[0x0au8, 0x4eu8, 0x6fu8, 0x20u8, 0x63u8, 0x6fu8, 0x6du8, 0x6du8, 0x69u8, 0x74u8, 0x73u8, 0x20u8, 0x79u8, 0x65u8, 0x74u8, 0x0au8]);
    }
    let ghost header = seq![0x4fu8, 0x6eu8, 0x20u8, 0x62u8, 0x72u8, 0x61u8, 0x6eu8, 0x63u8, 0x68u8, 0x20u8] + branch_name@ + seq![0x0au8] + (if no_commits {
        seq![0x0au8, 0x4eu8, 0x6fu8, 0x20u8, 0x63u8, 0x6fu8, 0x6du8, 0x6du8, 0x69u8, 0x74u8, 0x73u8, 0x20u8, 0x79u8, 0x65u8, 0x74u8, 0x0au8]
    } else {
        Seq::<u8>::empty()
    });
    proof {
        assert(out@ =~= header);
    }
    if commit_b.len() == 0 && notcommit_b.len() == 0 && untracked_b.len() == 0 {
        push_bytes(&mut out, &[0x0au8, 0x54u8, 0x68u8, 0x65u8, 0x72u8, 0x65u8, 0x20u8, 0x69u8, 0x73u8, 0x20u8, 0x6eu8, 0x6fu8, 0x74u8, 0x68u8, 0x69u8, 0x6eu8, 0x67u8, 0x20u8, 0x74u8, 0x6fu8, 0x20u8, 0x63u8, 0x6fu8, 0x6du8, 0x6du8, 0x69u8, 0x74u8, 0x2cu8, 0x20u8, 0x61u8, 0x6cu8, 0x6cu8, 0x20u8, 0x63u8, 0x6cu8, 0x65u8, 0x61u8, 0x6eu8, 0x21u8, 0x0au8]);
        proof {
            assert(out@ =~= spec_format_status(sv, no_commits, branch_name@));
        }
        return lossy_string(out.as_slice());
    }
    if commit_b.len() > 0 {
        push_bytes(&mut out, &[0x0au8, 0x43u8, 0x68u8, 0x61u8, 0x6eu8, 0x67u8, 0x65u8, 0x73u8, 0x20u8, 0x73u8, 0x74u8, 0x61u8, 0x67u8, 0x65u8, 0x64u8, 0x20u8, 0x66u8, 0x6fu8, 0x72u8, 0x20u8, 0x63u8, 0x6fu8, 0x6du8, 0x6du8, 0x69u8, 0x74u8, 0x3au8, 0x0au8]);
        push_bytes(&mut out, commit_b.as_slice());
    }
    if notcommit_b.len() > 0 {
        push_bytes(&mut out, &[0x0au8, 0x4eu8, 0x6fu8, 0x74u8, 0x20u8, 0x73u8, 0x74u8, 0x61u8, 0x67u8, 0x65u8, 0x64u8, 0x20u8, 0x66u8, 0x6fu8, 0x72u8, 0x20u8, 0x63u8, 0x6fu8, 0x6du8, 0x6du8, 0x69u8, 0x74u8, 0x3au8, 0x0au8]);
        push_bytes(&mut out, notcommit_b.as_slice());
    }
    if untracked_b.len() > 0 {
        push_bytes(&mut out, &[0x0au8, 0x55u8, 0x6eu8, 0x74u8, 0x72u8, 0x61u8, 0x63u8, 0x6bu8, 0x65u8, 0x64u8, 0x20u8, 0x66u8, 0x69u8, 0x6cu8, 0x65u8, 0x73u8, 0x3au8, 0x0au8]);
        push_bytes(&mut out, untracked_b.as_slice());
    }
    proof {
        assert(out@ =~= spec_format_status(sv, no_commits, branch_name@));
    }
    lossy_string(out.as_slice())
}

/// The status command's core: classifies every path of the three inputs —
/// as `reconciled` promises — and renders the report of that
/// classification.
pub fn status(
    commit_data: &Vec<CommitFile>,
    no_commits: bool,
    index_data: &Vec<IndexFile>,
    working: &Vec<FileData>,
    branch_name: &[u8],
) -> (r: String)
    requires
        commit_paths_unique(commit_views(commit_data@)),
        index_paths_unique(index_views(index_data@)),
        work_paths_unique(work_views(working@)),
        plan_satisfied(commit_views(commit_data@), index_views(index_data@), work_views(working@)),
    ensures
        exists|sts: Seq<FileWithStatusV>|
            {
                &&& #[trigger] crate::status::reconciled(
                    commit_views(commit_data@),
                    index_views(index_data@),
                    work_views(working@),
                    sts,
                )
                &&& r@ == lossy_of(spec_format_status(sts, no_commits, branch_name@))
            },
{
    let statuses = crate::status::determine_statuses(commit_data, index_data, working);
    let r = format_status(&statuses, no_commits, branch_name);
    proof {
        assert(crate::status::reconciled(
            commit_views(commit_data@),
            index_views(index_data@),
            work_views(working@),
            out_views(statuses@),
        ));
    }
    r
}

} // verus!
