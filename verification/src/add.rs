//! The staging step behind `add`: updates the index from a set of
//! working-tree files, writing a blob object for every file whose content is
//! staged, skipping files whose cached metadata says they are unchanged, and
//! — when the whole tree was scanned — dropping index entries whose files
//! are gone. A file that cannot be staged aborts the whole operation: a
//! half-updated index would be worse than a clean failure.

use vstd::prelude::*;
use vstd::slice::slice_to_vec;

use crate::error::GitError;
use crate::index::{Index, IndexBuilder};
use crate::index_entry::{IndexEntry, IndexEntryCache, IndexEntryV};
use crate::object::Object;
use crate::store::{ObjectStore, PendingWrite};
use crate::tree_builder::store_extends;

verus! {

/// The stat fields recorded in a new index entry.
#[derive(Debug, Clone, Copy, PartialEq, Eq, Structural)]
pub struct FileMeta {
    pub creation_time_sec: u32,
    pub creation_time_nsec: u32,
    pub modification_time_sec: u32,
    pub modification_time_nsec: u32,
    pub device: u32,
    pub inode: u32,
    pub mode: u32,
    pub uid: u32,
    pub gid: u32,
    pub file_size: u32,
}

/// The coarse comparator fields of a file's metadata.
pub open spec fn cache_of(m: FileMeta) -> IndexEntryCache {
    IndexEntryCache {
        modification_time_sec: m.modification_time_sec,
        modification_time_nsec: m.modification_time_nsec,
        device: m.device,
        inode: m.inode,
        file_size: m.file_size,
    }
}

/// One file handed to the staging step: its path, its metadata, and its
/// content where the plan demanded a read.
#[derive(Debug)]
pub struct AddFile {
    pub path: Vec<u8>,
    pub meta: FileMeta,
    pub content: Option<Vec<u8>>,
}

pub ghost struct AddFileV {
    pub path: Seq<u8>,
    pub meta: FileMeta,
    pub content: Option<Seq<u8>>,
}

impl View for AddFile {
    type V = AddFileV;

    open spec fn view(&self) -> AddFileV {
        AddFileV {
            path: self.path@,
            meta: self.meta,
            content: match self.content {
                Some(ref c) => Some(c@),
                None => None,
            },
        }
    }
}

pub open spec fn add_views(v: Seq<AddFile>) -> Seq<AddFileV> {
    Seq::new(v.len(), |i: int| v[i]@)
}

/// Whether some entry carries this path.
pub open spec fn has_entry_for(es: Seq<IndexEntryV>, p: Seq<u8>) -> bool {
    exists|j: int| 0 <= j < es.len() && (#[trigger] es[j]).path == p
}

/// The index record for a path.
pub open spec fn entry_lookup(es: Seq<IndexEntryV>, p: Seq<u8>) -> Option<IndexEntryV>
    decreases es.len(),
{
    if es.len() == 0 {
        None
    } else if es[0].path == p {
        Some(es[0])
    } else {
        entry_lookup(es.skip(1), p)
    }
}

/// Whether staging must read a file's content: yes unless the index already
/// has the path with matching cached metadata.
pub open spec fn spec_add_needs_content(
    es: Seq<IndexEntryV>,
    p: Seq<u8>,
    cache: IndexEntryCache,
) -> bool {
    match entry_lookup(es, p) {
        Some(e) => !(e.modification_time_sec == cache.modification_time_sec
            && e.modification_time_nsec == cache.modification_time_nsec && e.device == cache.device
            && e.inode == cache.inode && e.file_size == cache.file_size),
        None => true,
    }
}

/// A path an index entry can hold: bounded, with no zero byte.
pub open spec fn spec_addable_path(p: Seq<u8>) -> bool {
    p.len() <= 0xffffff && forall|i: int| 0 <= i < p.len() ==> p[i] != 0u8
}

/// The entry staging leaves for a file: the old entry untouched on a cached
/// metadata match, otherwise a fresh entry carrying the file's metadata and
/// the hash of its content as a blob.
pub open spec fn spec_staged_entry(es0: Seq<IndexEntryV>, f: AddFileV) -> IndexEntryV {
    if !spec_add_needs_content(es0, f.path, cache_of(f.meta)) {
        entry_lookup(es0, f.path).unwrap()
    } else {
        IndexEntryV {
            creation_time_sec: f.meta.creation_time_sec,
            creation_time_nsec: f.meta.creation_time_nsec,
            modification_time_sec: f.meta.modification_time_sec,
            modification_time_nsec: f.meta.modification_time_nsec,
            device: f.meta.device,
            inode: f.meta.inode,
            mode: f.meta.mode,
            uid: f.meta.uid,
            gid: f.meta.gid,
            file_size: f.meta.file_size,
            hash: crate::hashing::sha1_of(crate::object::spec_encode_blob(f.content.unwrap())),
            flags: if f.path.len() <= 0xfff {
                f.path.len() as u16
            } else {
                0xfffu16
            },
            path: f.path,
        }
    }
}

/// Whether the entries hold this exact entry.
pub open spec fn has_staged(es: Seq<IndexEntryV>, e: IndexEntryV) -> bool {
    exists|j: int| 0 <= j < es.len() && #[trigger] es[j] == e
}

/// No two entries carry the same path.
pub open spec fn entry_paths_unique(es: Seq<IndexEntryV>) -> bool {
    forall|a: int, b: int|
        0 <= a < b < es.len() ==> (#[trigger] es[a]).path != (#[trigger] es[b]).path
}

/// A pending write laying this file's content down as a blob: the object
/// path split from the hex digest, and the compressed encoding.
pub open spec fn pending_blob_of(
    dir: Seq<u8>,
    name: Seq<u8>,
    data: Seq<u8>,
    f: AddFileV,
) -> bool {
    let enc = crate::object::spec_encode_blob(f.content.unwrap());
    &&& dir == crate::hashing::hex_of(crate::hashing::sha1_of(enc)).take(2)
    &&& name == crate::hashing::hex_of(crate::hashing::sha1_of(enc)).skip(2)
    &&& data == crate::store::deflate_of(enc)
}

/// A pending write laying down the content of one of the staged files that
/// had to be read, as a blob.
pub open spec fn pending_is_blob(
    es0: Seq<IndexEntryV>,
    fv: Seq<AddFileV>,
    p: crate::store::PendingWrite,
) -> bool {
    exists|i: int|
        0 <= i < fv.len() && spec_add_needs_content(
            es0,
            (#[trigger] fv[i]).path,
            cache_of(fv[i].meta),
        ) && pending_blob_of(p.dir@, p.name@, p.data@, fv[i])
}

/// Every pending write lays down the content of one of the staged files
/// that had to be read, as a blob.
pub open spec fn pending_all_blobs(
    es0: Seq<IndexEntryV>,
    fv: Seq<AddFileV>,
    pw: Seq<crate::store::PendingWrite>,
) -> bool {
    forall|j: int| 0 <= j < pw.len() ==> pending_is_blob(es0, fv, #[trigger] pw[j])
}

/// A witness for every pending write shows them all to be staged blobs.
proof fn lemma_pending_all(
    es0: Seq<IndexEntryV>,
    fv: Seq<AddFileV>,
    pw: Seq<crate::store::PendingWrite>,
    wit: Seq<int>,
)
    requires
        wit.len() == pw.len(),
        forall|j: int|
            0 <= j < pw.len() ==> (0 <= #[trigger] wit[j] < fv.len() && spec_add_needs_content(
                es0,
                fv[wit[j]].path,
                cache_of(fv[wit[j]].meta),
            ) && pending_blob_of(pw[j].dir@, pw[j].name@, pw[j].data@, fv[wit[j]])),
    ensures
        pending_all_blobs(es0, fv, pw),
{
    assert forall|j: int| 0 <= j < pw.len() implies pending_is_blob(
        es0,
        fv,
        #[trigger] pw[j],
    ) by {
        let i = wit[j];
        assert(0 <= i < fv.len() && spec_add_needs_content(
            es0,
            fv[i].path,
            cache_of(fv[i].meta),
        ) && pending_blob_of(pw[j].dir@, pw[j].name@, pw[j].data@, fv[i]));
        assert(pending_is_blob(es0, fv, pw[j]));
    }
}

/// A found entry carries the path it was found under.
proof fn lemma_entry_lookup_props(es: Seq<IndexEntryV>, p: Seq<u8>)
    requires
        entry_lookup(es, p) is Some,
    ensures
        entry_lookup(es, p).unwrap().path == p,
    decreases es.len(),
{
    if es.len() > 0 && es[0].path != p {
        lemma_entry_lookup_props(es.skip(1), p);
    }
}

/// Exhibiting the first entry of a path determines the lookup.
proof fn lemma_entry_lookup_first(es: Seq<IndexEntryV>, p: Seq<u8>, k: int)
    requires
        0 <= k < es.len(),
        es[k].path == p,
        forall|j: int| 0 <= j < k ==> (#[trigger] es[j]).path != p,
    ensures
        entry_lookup(es, p) == Some(es[k]),
    decreases k,
{
    if k > 0 {
        assert(es.skip(1)[k - 1] == es[k]);
        assert(forall|j: int| 0 <= j < k - 1 ==> (#[trigger] es.skip(1)[j]).path != p);
        lemma_entry_lookup_first(es.skip(1), p, k - 1);
    }
}

/// A path no entry carries looks up to nothing.
proof fn lemma_entry_lookup_absent(es: Seq<IndexEntryV>, p: Seq<u8>)
    requires
        forall|j: int| 0 <= j < es.len() ==> (#[trigger] es[j]).path != p,
    ensures
        entry_lookup(es, p) is None,
    decreases es.len(),
{
    if es.len() > 0 {
        assert(forall|j: int| 0 <= j < es.skip(1).len() ==> (#[trigger] es.skip(1)[j]).path != p);
        lemma_entry_lookup_absent(es.skip(1), p);
    }
}

/// Removing an entry of another path leaves a lookup unchanged.
proof fn lemma_lookup_remove_other(es: Seq<IndexEntryV>, k: int, p: Seq<u8>)
    requires
        0 <= k < es.len(),
        es[k].path != p,
    ensures
        entry_lookup(es.remove(k), p) == entry_lookup(es, p),
    decreases es.len(),
{
    if k == 0 {
        assert(es.remove(0) =~= es.skip(1));
    } else {
        assert(es.remove(k)[0] == es[0]);
        if es[0].path != p {
            assert(es.remove(k).skip(1) =~= es.skip(1).remove(k - 1));
            assert(es.skip(1)[k - 1] == es[k]);
            lemma_lookup_remove_other(es.skip(1), k - 1, p);
        } else {
            assert(es.remove(k).len() > 0);
        }
    }
}

/// Inserting an entry of another path leaves a lookup unchanged.
proof fn lemma_lookup_insert_other(es: Seq<IndexEntryV>, k: int, e: IndexEntryV, p: Seq<u8>)
    requires
        0 <= k <= es.len(),
        e.path != p,
    ensures
        entry_lookup(es.insert(k, e), p) == entry_lookup(es, p),
    decreases es.len(),
{
    if k == 0 {
        assert(es.insert(0, e)[0] == e);
        assert(es.insert(0, e).skip(1) =~= es);
    } else {
        assert(es.insert(k, e)[0] == es[0]);
        if es[0].path != p {
            assert(es.insert(k, e).skip(1) =~= es.skip(1).insert(k - 1, e));
            lemma_lookup_insert_other(es.skip(1), k - 1, e, p);
        }
    }
}

/// Decides whether staging a file must read its content.
pub fn add_needs_content(index: &Index, path: &[u8], cache: &IndexEntryCache) -> (r: bool)
    ensures
        r == spec_add_needs_content(index@.entries, path@, *cache),
{
    let ghost es = index@.entries;
    let mut i: usize = 0;
    proof {
        assert(es.skip(0) =~= es);
    }
    while i < index.entries.len()
        invariant
            0 <= i <= index.entries@.len(),
            es == index@.entries,
            es.len() == index.entries@.len(),
            entry_lookup(es, path@) == entry_lookup(es.skip(i as int), path@),
        decreases index.entries@.len() - i,
    {
        let ghost rest = es.skip(i as int);
        proof {
            assert(rest[0] == es[i as int]);
            assert(rest.skip(1) =~= es.skip(i + 1));
        }
        if crate::hashing::bytes_eq(index.entries[i].path(), path) {
            let c = index.entries[i].cache();
            return !c.matches_loose(cache);
        }
        i = i + 1;
    }
    proof {
        assert(es.skip(i as int) =~= Seq::<IndexEntryV>::empty());
    }
    true
}

/// Stages a set of files into the index. A file whose cached metadata
/// matches its index entry keeps that entry untouched, without reading the
/// file; any other file has its content written to the store as a blob and
/// its entry replaced (or created) with the fresh metadata and the blob's
/// hash. Entries of paths not among the files are left as they stand.
/// Fails, leaving nothing to write, exactly when some path no entry can
/// hold.
pub fn stage_files(store: &mut ObjectStore, index: Index, files: &Vec<AddFile>) -> (r: Result<
    (Index, Vec<PendingWrite>),
    GitError,
>)
    requires
        forall|i: int|
            0 <= i < files@.len() ==> (spec_add_needs_content(
                index@.entries,
                (#[trigger] add_views(files@)[i]).path,
                cache_of(add_views(files@)[i].meta),
            ) ==> add_views(files@)[i].content is Some),
        forall|i: int, j: int|
            0 <= i < j < files@.len() ==> (#[trigger] add_views(files@)[i]).path != (
            #[trigger] add_views(files@)[j]).path,
        index@.entries.len() + files@.len() <= u32::MAX,
    ensures
        store_extends(final(store)@, old(store)@),
        r is Ok <==> (forall|i: int|
            0 <= i < files@.len() ==> spec_addable_path((#[trigger] add_views(files@)[i]).path)),
        r is Ok ==> forall|i: int|
            0 <= i < files@.len() ==> has_staged(
                r.unwrap().0@.entries,
                spec_staged_entry(index@.entries, #[trigger] add_views(files@)[i]),
            ),
        r is Ok ==> forall|p: Seq<u8>|
            #![trigger entry_lookup(r.unwrap().0@.entries, p)]
            (forall|i: int| 0 <= i < files@.len() ==> (#[trigger] add_views(files@)[i]).path != p)
                ==> entry_lookup(r.unwrap().0@.entries, p) == entry_lookup(index@.entries, p),
        r is Ok ==> forall|p: Seq<u8>|
            #![trigger has_entry_for(r.unwrap().0@.entries, p)]
            has_entry_for(r.unwrap().0@.entries, p) <==> (has_entry_for(index@.entries, p)
                || files_have_path(add_views(files@), p)),
        (r is Ok && entry_paths_unique(index@.entries)) ==> entry_paths_unique(
            r.unwrap().0@.entries,
        ),
        r is Ok ==> forall|i: int|
            #![trigger add_views(files@)[i]]
            0 <= i < files@.len() && spec_add_needs_content(
                index@.entries,
                add_views(files@)[i].path,
                cache_of(add_views(files@)[i].meta),
            ) ==> crate::store::store_lookup(
                final(store)@,
                crate::hashing::sha1_of(
                    crate::object::spec_encode_blob(add_views(files@)[i].content.unwrap()),
                ),
            ) is Some,
        r is Ok ==> pending_all_blobs(index@.entries, add_views(files@), r.unwrap().1@),
{
    let ghost fv = add_views(files@);
    let ghost es0 = index@.entries;
    let ghost n0 = index@.entries.len();
    let mut builder = IndexBuilder::from_index(index);
    let mut pending: Vec<PendingWrite> = Vec::new();
    let ghost mut wit: Seq<int> = Seq::empty();
    let mut i: usize = 0;
    while i < files.len()
        invariant
            0 <= i <= files@.len(),
            fv == add_views(files@),
            forall|i2: int|
                0 <= i2 < files@.len() ==> (spec_add_needs_content(
                    es0,
                    (#[trigger] fv[i2]).path,
                    cache_of(fv[i2].meta),
                ) ==> fv[i2].content is Some),
            forall|i2: int, j2: int|
                0 <= i2 < j2 < files@.len() ==> (#[trigger] fv[i2]).path != (
                #[trigger] fv[j2]).path,
            builder.index@.entries.len() <= n0 + i,
            n0 + files@.len() <= u32::MAX,
            store_extends(store@, old(store)@),
            forall|i2: int|
                #![trigger fv[i2]]
                0 <= i2 < i ==> spec_addable_path(fv[i2].path),
            forall|i2: int|
                #![trigger fv[i2]]
                0 <= i2 < i ==> has_staged(builder.index@.entries, spec_staged_entry(es0, fv[i2])),
            forall|p: Seq<u8>|
                #![trigger entry_lookup(builder.index@.entries, p)]
                (forall|i2: int| 0 <= i2 < i ==> (#[trigger] fv[i2]).path != p) ==> entry_lookup(
                    builder.index@.entries,
                    p,
                ) == entry_lookup(es0, p),
            forall|p: Seq<u8>|
                #![trigger has_entry_for(builder.index@.entries, p)]
                has_entry_for(builder.index@.entries, p) <==> (has_entry_for(es0, p) || (
                exists|i2: int| 0 <= i2 < i && (#[trigger] fv[i2]).path == p)),
            entry_paths_unique(es0) ==> entry_paths_unique(builder.index@.entries),
            forall|i2: int|
                #![trigger fv[i2]]
                0 <= i2 < i && spec_add_needs_content(es0, fv[i2].path, cache_of(fv[i2].meta))
                    ==> crate::store::store_lookup(
                    store@,
                    crate::hashing::sha1_of(
                        crate::object::spec_encode_blob(fv[i2].content.unwrap()),
                    ),
                ) is Some,
            wit.len() == pending@.len(),
            forall|j: int|
                0 <= j < pending@.len() ==> (0 <= #[trigger] wit[j] < files@.len()
                    && spec_add_needs_content(
                    es0,
                    fv[wit[j]].path,
                    cache_of(fv[wit[j]].meta),
                ) && pending_blob_of(
                    pending@[j].dir@,
                    pending@[j].name@,
                    pending@[j].data@,
                    fv[wit[j]],
                )),
        decreases files@.len() - i,
    {
        let f = &files[i];
        let ghost fvi = fv[i as int];
        proof {
            assert(fvi == f@);
            assert(forall|i2: int| 0 <= i2 < i ==> (#[trigger] fv[i2]).path != fvi.path);
            assert(entry_lookup(builder.index@.entries, fvi.path) == entry_lookup(es0, fvi.path));
        }
        let ghost before = builder.index@.entries;
        let existing = builder.remove_index_entry_by_path(f.path.as_slice());
        let ghost afterrm = builder.index@.entries;
        proof {
            match &existing {
                Some(removed) => {
                    let k = choose|k: int|
                        #![auto]
                        0 <= k < before.len() && before[k].path == fvi.path && (forall|j: int|
                            0 <= j < k ==> (#[trigger] before[j]).path != fvi.path) && removed@
                            == before[k] && afterrm == before.remove(k);
                    lemma_entry_lookup_first(before, fvi.path, k);
                    assert(removed@ == entry_lookup(es0, fvi.path).unwrap());
                    // lookups of other paths survive the removal
                    assert forall|p: Seq<u8>|
                        #![trigger entry_lookup(afterrm, p)]
                        (forall|i2: int|
                            0 <= i2 < i + 1 ==> (#[trigger] fv[i2]).path != p) implies entry_lookup(
                        afterrm,
                        p,
                    ) == entry_lookup(es0, p) by {
                        assert(fvi.path != p);
                        lemma_lookup_remove_other(before, k, p);
                        assert(entry_lookup(before, p) == entry_lookup(es0, p));
                    }
                    lemma_remove_membership(before, afterrm, k);
                    if entry_paths_unique(es0) {
                        assert(entry_paths_unique(before));
                        assert(entry_paths_unique(afterrm) && !has_entry_for(afterrm, fvi.path));
                    }
                    // staged entries of earlier files survive: their paths
                    // differ from the removed entry's
                    assert forall|i2: int|
                        #![trigger fv[i2]]
                        0 <= i2 < i implies has_staged(afterrm, spec_staged_entry(es0, fv[i2])) by {
                        lemma_staged_entry_path(es0, fv[i2]);
                        let j = choose|j: int|
                            0 <= j < before.len() && #[trigger] before[j] == spec_staged_entry(
                                es0,
                                fv[i2],
                            );
                        assert(before[j].path == fv[i2].path);
                        assert(j != k);
                        lemma_seq_remove_keeps(before, k, j);
                        let j2 = choose|j2: int|
                            0 <= j2 < before.remove(k).len() && #[trigger] before.remove(k)[j2]
                                == before[j];
                        assert(afterrm[j2] == spec_staged_entry(es0, fv[i2]));
                    }
                },
                None => {
                    assert(afterrm == before);
                    lemma_entry_lookup_absent(before, fvi.path);
                    assert(entry_lookup(es0, fvi.path) is None);
                    assert(!has_entry_for(afterrm, fvi.path)) by {
                        if has_entry_for(afterrm, fvi.path) {
                            let j = choose|j: int|
                                0 <= j < afterrm.len() && (#[trigger] afterrm[j]).path
                                    == fvi.path;
                            assert(false);
                        }
                    }
                    assert(forall|p: Seq<u8>|
                        #![trigger has_entry_for(afterrm, p)]
                        has_entry_for(afterrm, p) ==> has_entry_for(before, p));
                    assert(forall|p: Seq<u8>|
                        #![trigger has_entry_for(before, p)]
                        has_entry_for(before, p) && p != fvi.path ==> has_entry_for(afterrm, p));
                },
            }
        }
        let mut handled = false;
        match existing {
            Some(e) => {
                let c = e.cache();
                let fc = IndexEntryCache {
                    modification_time_sec: f.meta.modification_time_sec,
                    modification_time_nsec: f.meta.modification_time_nsec,
                    device: f.meta.device,
                    inode: f.meta.inode,
                    file_size: f.meta.file_size,
                };
                if c.matches_loose(&fc) {
                    // unchanged by metadata: keep the entry as it stood
                    let ghost ev = e@;
                    proof {
                        use_type_invariant(&e);
                        assert(!spec_add_needs_content(es0, fvi.path, cache_of(fvi.meta)));
                        assert(ev == spec_staged_entry(es0, fvi));
                        assert(spec_addable_path(fvi.path)) by {
                            assert(crate::index_entry::wf_entry(ev));
                            assert(ev.path == fvi.path);
                        }
                    }
                    builder.add_index_entry(e);
                    proof {
                        lemma_after_insert(es0, afterrm, builder.index@.entries, ev, fv, i as int);
                    }
                    handled = true;
                }
            },
            None => {},
        }
        if !handled {
            proof {
                assert(spec_add_needs_content(es0, fvi.path, cache_of(fvi.meta)));
            }
            let content: &Vec<u8> = match &f.content {
                Some(c) => c,
                None => {
                    proof {
                        assert(false);
                    }
                    return Err(GitError::InvalidArgument);
                },
            };
            let blob = Object::from_bytes_new_blob(content.as_slice());
            let ghost mid = store@;
            let (hash, pw) = store.write(&blob);
            proof {
                assert forall|h: Seq<u8>|
                    crate::store::store_lookup(mid, h) is Some implies #[trigger] crate::store::store_lookup(
                    store@,
                    h,
                ) == crate::store::store_lookup(mid, h) by {
                    crate::store::lemma_store_write_preserves(
                        mid,
                        crate::hashing::sha1_of(crate::object::spec_encode_object(blob@)),
                        crate::object::spec_encode_object(blob@),
                        h,
                    );
                }
                crate::tree_builder::lemma_store_extends_trans(store@, mid, old(store)@);
                let enc = crate::object::spec_encode_object(blob@);
                assert(enc == crate::object::spec_encode_blob(fvi.content.unwrap()));
                crate::store::lemma_store_write_idempotent(
                    mid,
                    crate::hashing::sha1_of(enc),
                    enc,
                );
                assert(crate::store::store_lookup(
                    store@,
                    crate::hashing::sha1_of(enc),
                ) is Some);
                assert forall|i2: int|
                    #![trigger fv[i2]]
                    0 <= i2 < i + 1 && spec_add_needs_content(
                        es0,
                        fv[i2].path,
                        cache_of(fv[i2].meta),
                    ) implies crate::store::store_lookup(
                    store@,
                    crate::hashing::sha1_of(
                        crate::object::spec_encode_blob(fv[i2].content.unwrap()),
                    ),
                ) is Some by {
                    if i2 < i {
                        assert(crate::store::store_lookup(
                            mid,
                            crate::hashing::sha1_of(
                                crate::object::spec_encode_blob(fv[i2].content.unwrap()),
                            ),
                        ) is Some);
                    }
                }
            }
            let ghost oldpend = pending@;
            match pw {
                Some(p) => {
                    pending.push(p);
                    proof {
                        wit = wit.push(i as int);
                        assert forall|j: int|
                            0 <= j < pending@.len() implies (0 <= #[trigger] wit[j]
                            < files@.len() && spec_add_needs_content(
                            es0,
                            fv[wit[j]].path,
                            cache_of(fv[wit[j]].meta),
                        ) && pending_blob_of(
                            pending@[j].dir@,
                            pending@[j].name@,
                            pending@[j].data@,
                            fv[wit[j]],
                        )) by {
                            if j < oldpend.len() {
                                assert(pending@[j] == oldpend[j]);
                            } else {
                                assert(wit[j] == i as int);
                                assert(pending_blob_of(
                                    pending@[j].dir@,
                                    pending@[j].name@,
                                    pending@[j].data@,
                                    fv[i as int],
                                ));
                            }
                        }
                    }
                },
                None => {},
            }
            let entry = match crate::index_entry::IndexEntry::new(
                f.meta.creation_time_sec,
                f.meta.creation_time_nsec,
                f.meta.modification_time_sec,
                f.meta.modification_time_nsec,
                f.meta.device,
                f.meta.inode,
                f.meta.mode,
                f.meta.uid,
                f.meta.gid,
                f.meta.file_size,
                hash,
                slice_to_vec(f.path.as_slice()),
            ) {
                Ok(e) => e,
                Err(e) => {
                    proof {
                        assert(!spec_addable_path(fvi.path));
                    }
                    return Err(e);
                },
            };
            let ghost ev = entry@;
            proof {
                assert(hash@ == crate::hashing::sha1_of(
                    crate::object::spec_encode_blob(fvi.content.unwrap()),
                ));
                assert(ev == spec_staged_entry(es0, fvi));
                assert(spec_addable_path(fvi.path));
            }
            builder.add_index_entry(entry);
            proof {
                lemma_after_insert(es0, afterrm, builder.index@.entries, ev, fv, i as int);
            }
        }
        proof {
            let now = builder.index@.entries;
            assert forall|p: Seq<u8>|
                #![trigger has_entry_for(now, p)]
                has_entry_for(now, p) <==> (has_entry_for(es0, p) || (exists|i2: int|
                0 <= i2 < i + 1 && (#[trigger] fv[i2]).path == p)) by {
                if p == fvi.path {
                    assert(fv[i as int].path == p);
                    assert(has_entry_for(now, p));
                } else {
                    if has_entry_for(now, p) {
                        assert(has_entry_for(afterrm, p));
                        assert(has_entry_for(before, p));
                    }
                    if has_entry_for(es0, p) || (exists|i2: int|
                        0 <= i2 < i + 1 && (#[trigger] fv[i2]).path == p) {
                        if !has_entry_for(es0, p) {
                            let i2 = choose|i2: int|
                                0 <= i2 < i + 1 && (#[trigger] fv[i2]).path == p;
                            assert(i2 < i);
                        }
                        assert(has_entry_for(before, p));
                        assert(has_entry_for(afterrm, p));
                        assert(has_entry_for(now, p));
                    }
                }
            }
            if entry_paths_unique(es0) {
                assert(entry_paths_unique(builder.index@.entries));
            }
        }
        i = i + 1;
    }
    let ghost fin = builder.index@.entries;
    let new_index = builder.build();
    proof {
        assert(new_index@.entries == fin);
        assert forall|i2: int|
            0 <= i2 < files@.len() implies has_staged(
            new_index@.entries,
            spec_staged_entry(index@.entries, #[trigger] add_views(files@)[i2]),
        ) by {
            assert(fv[i2] == add_views(files@)[i2]);
            assert(has_staged(fin, spec_staged_entry(es0, fv[i2])));
        }
        assert forall|p: Seq<u8>|
            #![trigger entry_lookup(new_index@.entries, p)]
            (forall|i2: int|
                0 <= i2 < files@.len() ==> (#[trigger] add_views(files@)[i2]).path
                    != p) implies entry_lookup(new_index@.entries, p) == entry_lookup(
            index@.entries,
            p,
        ) by {
            assert(forall|i2: int| 0 <= i2 < i ==> (#[trigger] fv[i2]).path != p);
            assert(entry_lookup(fin, p) == entry_lookup(es0, p));
        }
        assert forall|p: Seq<u8>|
            #![trigger has_entry_for(new_index@.entries, p)]
            has_entry_for(new_index@.entries, p) <==> (has_entry_for(index@.entries, p)
                || files_have_path(add_views(files@), p)) by {
            if files_have_path(add_views(files@), p) {
                let i2 = choose|i2: int|
                    0 <= i2 < add_views(files@).len() && (#[trigger] add_views(
                        files@,
                    )[i2]).path == p;
                assert(fv[i2].path == p);
            }
            if exists|i2: int| 0 <= i2 < i && (#[trigger] fv[i2]).path == p {
                let i2 = choose|i2: int| 0 <= i2 < i && (#[trigger] fv[i2]).path == p;
                assert(add_views(files@)[i2].path == p);
            }
        }
        assert forall|i2: int|
            #![trigger add_views(files@)[i2]]
            0 <= i2 < files@.len() && spec_add_needs_content(
                index@.entries,
                add_views(files@)[i2].path,
                cache_of(add_views(files@)[i2].meta),
            ) implies crate::store::store_lookup(
            store@,
            crate::hashing::sha1_of(
                crate::object::spec_encode_blob(add_views(files@)[i2].content.unwrap()),
            ),
        ) is Some by {
            assert(fv[i2] == add_views(files@)[i2]);
        }
        lemma_pending_all(es0, fv, pending@, wit);
        assert(pending_all_blobs(index@.entries, add_views(files@), pending@));
    }
    Ok((new_index, pending))
}

/// The entry staging leaves for a file carries that file's path.
proof fn lemma_staged_entry_path(es0: Seq<IndexEntryV>, f: AddFileV)
    ensures
        spec_staged_entry(es0, f).path == f.path,
{
    if !spec_add_needs_content(es0, f.path, cache_of(f.meta)) {
        lemma_entry_lookup_props(es0, f.path);
    }
}

/// After inserting the current file's staged entry, every file up to and
/// including it has its staged entry, the other lookups are unchanged, and
/// the path stays addable.
proof fn lemma_after_insert(
    es0: Seq<IndexEntryV>,
    afterrm: Seq<IndexEntryV>,
    now: Seq<IndexEntryV>,
    ev: IndexEntryV,
    fv: Seq<AddFileV>,
    i: int,
)
    requires
        0 <= i < fv.len(),
        ev == spec_staged_entry(es0, fv[i]),
        exists|k: int| #![auto] 0 <= k <= afterrm.len() && now == afterrm.insert(k, ev),
        forall|i2: int|
            #![trigger fv[i2]]
            0 <= i2 < i ==> has_staged(afterrm, spec_staged_entry(es0, fv[i2])),
        forall|p: Seq<u8>|
            #![trigger entry_lookup(afterrm, p)]
            (forall|i2: int| 0 <= i2 < i + 1 ==> (#[trigger] fv[i2]).path != p) ==> entry_lookup(
                afterrm,
                p,
            ) == entry_lookup(es0, p),
    ensures
        forall|i2: int|
            #![trigger fv[i2]]
            0 <= i2 < i + 1 ==> has_staged(now, spec_staged_entry(es0, fv[i2])),
        forall|p: Seq<u8>|
            #![trigger entry_lookup(now, p)]
            (forall|i2: int| 0 <= i2 < i + 1 ==> (#[trigger] fv[i2]).path != p) ==> entry_lookup(
                now,
                p,
            ) == entry_lookup(es0, p),
        forall|p: Seq<u8>|
            #![trigger has_entry_for(now, p)]
            has_entry_for(now, p) <==> (has_entry_for(afterrm, p) || p == fv[i].path),
        (entry_paths_unique(afterrm) && !has_entry_for(afterrm, fv[i].path))
            ==> entry_paths_unique(now),
{
    let k = choose|k: int| #![auto] 0 <= k <= afterrm.len() && now == afterrm.insert(k, ev);
    assert(now[k] == ev);
    lemma_staged_entry_path(es0, fv[i]);
    assert forall|i2: int|
        #![trigger fv[i2]]
        0 <= i2 < i + 1 implies has_staged(now, spec_staged_entry(es0, fv[i2])) by {
        if i2 == i {
            assert(now[k] == spec_staged_entry(es0, fv[i]));
        } else {
            let j = choose|j: int|
                0 <= j < afterrm.len() && #[trigger] afterrm[j] == spec_staged_entry(es0, fv[i2]);
            lemma_seq_insert_keeps(afterrm, k, ev, j);
            let j2 = choose|j2: int|
                0 <= j2 < afterrm.insert(k, ev).len() && #[trigger] afterrm.insert(k, ev)[j2]
                    == afterrm[j];
            assert(now[j2] == spec_staged_entry(es0, fv[i2]));
        }
    }
    assert forall|p: Seq<u8>|
        #![trigger entry_lookup(now, p)]
        (forall|i2: int|
            0 <= i2 < i + 1 ==> (#[trigger] fv[i2]).path != p) implies entry_lookup(now, p)
        == entry_lookup(es0, p) by {
        assert(fv[i].path != p);
        lemma_lookup_insert_other(afterrm, k, ev, p);
        assert(entry_lookup(afterrm, p) == entry_lookup(es0, p));
    }
    assert forall|p: Seq<u8>|
        #![trigger has_entry_for(now, p)]
        has_entry_for(now, p) <==> (has_entry_for(afterrm, p) || p == fv[i].path) by {
        if has_entry_for(now, p) {
            let j = choose|j: int| 0 <= j < now.len() && (#[trigger] now[j]).path == p;
            if j < k {
                assert(afterrm[j].path == p);
            } else if j == k {
                assert(now[k].path == fv[i].path);
            } else {
                assert(now[j] == afterrm[j - 1]);
            }
        }
        if has_entry_for(afterrm, p) {
            let j = choose|j: int| 0 <= j < afterrm.len() && (#[trigger] afterrm[j]).path == p;
            if j < k {
                assert(now[j].path == p);
            } else {
                assert(now[j + 1].path == p);
            }
        }
        if p == fv[i].path {
            assert(now[k].path == p);
        }
    }
    if entry_paths_unique(afterrm) && !has_entry_for(afterrm, fv[i].path) {
        assert forall|a: int, b: int|
            0 <= a < b < now.len() implies (#[trigger] now[a]).path != (
        #[trigger] now[b]).path by {
            if a == k {
                assert(now[b] == afterrm[b - 1]);
                if now[b].path == ev.path {
                    assert(afterrm[b - 1].path == fv[i].path);
                    assert(false);
                }
            } else if b == k {
                let ja: int = a;
                assert(now[a] == afterrm[ja]);
                if now[a].path == ev.path {
                    assert(afterrm[ja].path == fv[i].path);
                    assert(false);
                }
            } else {
                let ja: int = if a < k { a } else { a - 1 };
                let jb: int = if b < k { b } else { b - 1 };
                assert(now[a] == afterrm[ja] && now[b] == afterrm[jb]);
                assert(ja < jb);
            }
        }
    }
}

/// An element survives removing another one.
proof fn lemma_seq_remove_keeps(s: Seq<IndexEntryV>, k: int, j: int)
    requires
        0 <= k < s.len(),
        0 <= j < s.len(),
        j != k,
    ensures
        exists|j2: int| 0 <= j2 < s.remove(k).len() && #[trigger] s.remove(k)[j2] == s[j],
{
    if j < k {
        assert(s.remove(k)[j] == s[j]);
    } else {
        assert(s.remove(k)[j - 1] == s[j]);
    }
}

/// An element survives an insertion elsewhere.
proof fn lemma_seq_insert_keeps(s: Seq<IndexEntryV>, k: int, e: IndexEntryV, j: int)
    requires
        0 <= k <= s.len(),
        0 <= j < s.len(),
    ensures
        exists|j2: int| 0 <= j2 < s.insert(k, e).len() && #[trigger] s.insert(k, e)[j2] == s[j],
{
    if j < k {
        assert(s.insert(k, e)[j] == s[j]);
    } else {
        assert(s.insert(k, e)[j + 1] == s[j]);
    }
}


/// Removing an entry keeps the paths unique and shrinks membership by at
/// most the removed path; under unique paths, that path is gone.
proof fn lemma_remove_membership(before: Seq<IndexEntryV>, afterrm: Seq<IndexEntryV>, k: int)
    requires
        0 <= k < before.len(),
        afterrm == before.remove(k),
    ensures
        forall|p: Seq<u8>|
            #![trigger has_entry_for(afterrm, p)]
            has_entry_for(afterrm, p) ==> has_entry_for(before, p),
        forall|p: Seq<u8>|
            #![trigger has_entry_for(before, p)]
            has_entry_for(before, p) && p != before[k].path ==> has_entry_for(afterrm, p),
        entry_paths_unique(before) ==> (entry_paths_unique(afterrm) && !has_entry_for(
            afterrm,
            before[k].path,
        )),
{
    assert forall|p: Seq<u8>|
        #![trigger has_entry_for(afterrm, p)]
        has_entry_for(afterrm, p) implies has_entry_for(before, p) by {
        let j = choose|j: int| 0 <= j < afterrm.len() && (#[trigger] afterrm[j]).path == p;
        if j < k {
            assert(before[j].path == p);
        } else {
            assert(before[j + 1].path == p);
        }
    }
    assert forall|p: Seq<u8>|
        #![trigger has_entry_for(before, p)]
        has_entry_for(before, p) && p != before[k].path implies has_entry_for(afterrm, p) by {
        let j = choose|j: int| 0 <= j < before.len() && (#[trigger] before[j]).path == p;
        if j < k {
            assert(afterrm[j].path == p);
        } else {
            assert(j != k);
            assert(afterrm[j - 1].path == p);
        }
    }
    if entry_paths_unique(before) {
        assert forall|a: int, b: int|
            0 <= a < b < afterrm.len() implies (#[trigger] afterrm[a]).path != (
        #[trigger] afterrm[b]).path by {
            let ja: int = if a < k { a } else { a + 1 };
            let jb: int = if b < k { b } else { b + 1 };
            assert(afterrm[a] == before[ja] && afterrm[b] == before[jb]);
            assert(ja < jb);
        }
        assert(!has_entry_for(afterrm, before[k].path)) by {
            if has_entry_for(afterrm, before[k].path) {
                let j = choose|j: int|
                    0 <= j < afterrm.len() && (#[trigger] afterrm[j]).path == before[k].path;
                if j < k {
                    assert(before[j].path == before[k].path);
                } else {
                    assert(before[j + 1].path == before[k].path);
                }
                assert(false);
            }
        }
    }
}

/// Whether some file of the staging set carries this path.
pub open spec fn files_have_path(fs: Seq<AddFileV>, p: Seq<u8>) -> bool {
    exists|i: int| 0 <= i < fs.len() && (#[trigger] fs[i]).path == p
}

/// The entries whose paths the staging set still has, in order.
pub open spec fn spec_prune(es: Seq<IndexEntryV>, fs: Seq<AddFileV>) -> Seq<IndexEntryV>
    decreases es.len(),
{
    if es.len() == 0 {
        Seq::<IndexEntryV>::empty()
    } else if files_have_path(fs, es[0].path) {
        seq![es[0]] + spec_prune(es.skip(1), fs)
    } else {
        spec_prune(es.skip(1), fs)
    }
}

/// Drops every index entry whose path is not among the staged files: the
/// cleanup step of staging the whole working tree, where a path missing
/// from the scan means the file is gone.
pub fn prune_missing(index: Index, files: &Vec<AddFile>) -> (r: Index)
    requires
        index@.entries.len() <= u32::MAX,
    ensures
        r@.entries == spec_prune(index@.entries, add_views(files@)),
        r@.count == r@.entries.len(),
        r@.version == index@.version,
        r@.ext == index@.ext,
{
    let ghost es = index@.entries;
    let ghost fs = add_views(files@);
    let mut kept: Vec<IndexEntry> = Vec::new();
    let mut i: usize = 0;
    proof {
        assert(es.skip(0) =~= es);
        assert(Seq::new(kept@.len(), |k: int| kept@[k]@) =~= Seq::<IndexEntryV>::empty());
        assert(Seq::<IndexEntryV>::empty() + spec_prune(es, fs) =~= spec_prune(es, fs));
    }
    while i < index.entries.len()
        invariant
            0 <= i <= index.entries@.len(),
            es == index@.entries,
            fs == add_views(files@),
            es.len() == index.entries@.len(),
            spec_prune(es, fs) == Seq::new(kept@.len(), |k: int| kept@[k]@) + spec_prune(
                es.skip(i as int),
                fs,
            ),
        decreases index.entries@.len() - i,
    {
        let ghost rest = es.skip(i as int);
        proof {
            assert(rest[0] == es[i as int]);
            assert(rest.skip(1) =~= es.skip(i + 1));
        }
        let e = &index.entries[i];
        let mut found = false;
        let mut j: usize = 0;
        let n = files.len();
        loop
            invariant_except_break
                !found,
            invariant
                0 <= j <= n,
                n == files@.len(),
                fs == add_views(files@),
                forall|j2: int| 0 <= j2 < j ==> (#[trigger] fs[j2]).path != es[i as int].path,
                (i as int) < es.len(),
                es == index@.entries,
                es.len() == index.entries@.len(),
            ensures
                found == files_have_path(fs, es[i as int].path),
            decreases n - j,
        {
            if j >= n {
                proof {
                    if files_have_path(fs, es[i as int].path) {
                        let w = choose|w: int|
                            0 <= w < fs.len() && (#[trigger] fs[w]).path == es[i as int].path;
                        assert(false);
                    }
                }
                break;
            }
            if crate::hashing::bytes_eq(files[j].path.as_slice(), index.entries[i].path()) {
                found = true;
                proof {
                    assert(fs[j as int].path == es[i as int].path);
                }
                break;
            }
            j = j + 1;
        }
        if found {
            let ghost prev = Seq::new(kept@.len(), |k: int| kept@[k]@);
            kept.push(index.entries[i].clone());
            proof {
                let cur = Seq::new(kept@.len(), |k: int| kept@[k]@);
                assert(cur =~= prev.push(es[i as int]));
                assert(prev + (seq![es[i as int]] + spec_prune(es.skip(i + 1), fs)) =~= cur
                    + spec_prune(es.skip(i + 1), fs));
            }
        }
        i = i + 1;
    }
    proof {
        assert(es.skip(i as int) =~= Seq::<IndexEntryV>::empty());
        assert(Seq::new(kept@.len(), |k: int| kept@[k]@) + Seq::<IndexEntryV>::empty() =~= Seq::new(
            kept@.len(),
            |k: int| kept@[k]@,
        ));
    }
    proof {
        lemma_prune_len(es, fs);
    }
    let count = kept.len() as u32;
    let r = Index {
        version_number: index.version_number,
        entries_number: count,
        entries: kept,
        extensions: index.extensions,
    };
    r
}

/// Pruning never grows the listing.
proof fn lemma_prune_len(es: Seq<IndexEntryV>, fs: Seq<AddFileV>)
    ensures
        spec_prune(es, fs).len() <= es.len(),
    decreases es.len(),
{
    if es.len() > 0 {
        lemma_prune_len(es.skip(1), fs);
    }
}

} // verus!
