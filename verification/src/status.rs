//! The three-way status reconciler: compares the last commit's files, the
//! index, and the working tree, and classifies every path as new, modified,
//! deleted, moved or unchanged, and as staged, unstaged or untracked. Move
//! detection pairs a deleted path with a new path by exact content-hash
//! equality. Content hashes are consumed as inputs: which files must be
//! hashed at all is decided by `needs_content_hash`, so a file whose cached
//! metadata matches the index and whose hash already matches the commit is
//! never read.

use vstd::prelude::*;
use vstd::slice::slice_to_vec;

use crate::index_entry::IndexEntryCache;

verus! {

/// How a path changed relative to the last commit.
#[derive(Debug)]
pub enum Status {
    New,
    Modified,
    Deleted,
    Moved { previous: Vec<u8> },
    Unchanged,
}

pub ghost enum StatusV {
    New,
    Modified,
    Deleted,
    Moved { previous: Seq<u8> },
    Unchanged,
}

impl View for Status {
    type V = StatusV;

    open spec fn view(&self) -> StatusV {
        match self {
            Status::New => StatusV::New,
            Status::Modified => StatusV::Modified,
            Status::Deleted => StatusV::Deleted,
            Status::Moved { previous } => StatusV::Moved { previous: previous@ },
            Status::Unchanged => StatusV::Unchanged,
        }
    }
}

/// Whether a file's current content is what the index stages.
#[derive(Debug, Clone, Copy, PartialEq, Eq, Structural)]
pub enum StageStatus {
    /// Staged: the index holds the file's current content.
    Commit,
    /// Tracked, but the index holds other content.
    NotCommit,
    /// Not in the index at all.
    Untracked,
}

/// One classified path.
#[derive(Debug)]
pub struct FileWithStatus {
    pub path: Vec<u8>,
    pub status: Status,
    pub stage_status: StageStatus,
}

pub ghost struct FileWithStatusV {
    pub path: Seq<u8>,
    pub status: StatusV,
    pub stage_status: StageStatus,
}

impl View for FileWithStatus {
    type V = FileWithStatusV;

    open spec fn view(&self) -> FileWithStatusV {
        FileWithStatusV { path: self.path@, status: self.status@, stage_status: self.stage_status }
    }
}

/// One file of the last commit: a path and its blob hash.
#[derive(Debug)]
pub struct CommitFile {
    pub path: Vec<u8>,
    pub hash: crate::hashing::Hash,
}

pub ghost struct CommitFileV {
    pub path: Seq<u8>,
    pub hash: Seq<u8>,
}

impl View for CommitFile {
    type V = CommitFileV;

    open spec fn view(&self) -> CommitFileV {
        CommitFileV { path: self.path@, hash: self.hash@ }
    }
}

/// One file of the index: a path, its staged blob hash, and the cached
/// metadata recorded when it was staged.
#[derive(Debug)]
pub struct IndexFile {
    pub path: Vec<u8>,
    pub hash: crate::hashing::Hash,
    pub cache: IndexEntryCache,
}

pub ghost struct IndexFileV {
    pub path: Seq<u8>,
    pub hash: Seq<u8>,
    pub cache: IndexEntryCache,
}

impl View for IndexFile {
    type V = IndexFileV;

    open spec fn view(&self) -> IndexFileV {
        IndexFileV { path: self.path@, hash: self.hash@, cache: self.cache }
    }
}

/// One working-tree file: its path, its current metadata, and its content
/// hash where the plan demanded one.
#[derive(Debug)]
pub struct FileData {
    pub path: Vec<u8>,
    pub cache: IndexEntryCache,
    pub content_hash: Option<crate::hashing::Hash>,
}

pub ghost struct FileDataV {
    pub path: Seq<u8>,
    pub cache: IndexEntryCache,
    pub content_hash: Option<Seq<u8>>,
}

impl View for FileData {
    type V = FileDataV;

    open spec fn view(&self) -> FileDataV {
        FileDataV {
            path: self.path@,
            cache: self.cache,
            content_hash: match self.content_hash {
                Some(h) => Some(h@),
                None => None,
            },
        }
    }
}

pub open spec fn commit_views(v: Seq<CommitFile>) -> Seq<CommitFileV> {
    Seq::new(v.len(), |i: int| v[i]@)
}

pub open spec fn index_views(v: Seq<IndexFile>) -> Seq<IndexFileV> {
    Seq::new(v.len(), |i: int| v[i]@)
}

pub open spec fn work_views(v: Seq<FileData>) -> Seq<FileDataV> {
    Seq::new(v.len(), |i: int| v[i]@)
}

pub open spec fn out_views(v: Seq<FileWithStatus>) -> Seq<FileWithStatusV> {
    Seq::new(v.len(), |i: int| v[i]@)
}

/// The hash the last commit records for a path.
pub open spec fn commit_lookup(cd: Seq<CommitFileV>, p: Seq<u8>) -> Option<Seq<u8>>
    decreases cd.len(),
{
    if cd.len() == 0 {
        None
    } else if cd[0].path == p {
        Some(cd[0].hash)
    } else {
        commit_lookup(cd.skip(1), p)
    }
}

/// The index record for a path.
pub open spec fn index_lookup(id: Seq<IndexFileV>, p: Seq<u8>) -> Option<IndexFileV>
    decreases id.len(),
{
    if id.len() == 0 {
        None
    } else if id[0].path == p {
        Some(id[0])
    } else {
        index_lookup(id.skip(1), p)
    }
}

/// Whether the working tree has a file at this path.
pub open spec fn work_has(wv: Seq<FileDataV>, p: Seq<u8>) -> bool {
    exists|i: int| 0 <= i < wv.len() && (#[trigger] wv[i]).path == p
}

/// Whether a working-tree file's content must be hashed for the reconciler
/// to classify it: only when the index knows the path but its cached
/// metadata differs, or when the index does not know the path and the
/// commit does. A cache-matching file never needs its content: its stored
/// index hash stands in for the content everywhere, move detection
/// included.
pub open spec fn spec_needs_hash(
    cd: Seq<CommitFileV>,
    id: Seq<IndexFileV>,
    p: Seq<u8>,
    cache: IndexEntryCache,
) -> bool {
    match index_lookup(id, p) {
        Some(ie) => ie.cache != cache,
        None => commit_lookup(cd, p) is Some,
    }
}

/// A file identical by cached metadata is never content-hashed.
pub proof fn lemma_cache_match_never_hashed(
    cd: Seq<CommitFileV>,
    id: Seq<IndexFileV>,
    p: Seq<u8>,
    cache: IndexEntryCache,
)
    requires
        index_lookup(id, p) is Some,
        index_lookup(id, p).unwrap().cache == cache,
    ensures
        !spec_needs_hash(cd, id, p, cache),
{
}

/// The stage of a working-tree file: staged as-is when the cached metadata
/// or the content hash matches the index, unstaged when the content
/// differs, untracked when the index does not know the path.
pub open spec fn spec_stage_of(id: Seq<IndexFileV>, f: FileDataV) -> StageStatus {
    match index_lookup(id, f.path) {
        Some(ie) => {
            if ie.cache == f.cache {
                StageStatus::Commit
            } else if f.content_hash == Some(ie.hash) {
                StageStatus::Commit
            } else {
                StageStatus::NotCommit
            }
        },
        None => StageStatus::Untracked,
    }
}

/// The status of a working-tree file against the commit, where it can be
/// decided on the spot: `None` defers a tracked file whose path the commit
/// does not know, until move detection has seen every deleted path.
pub open spec fn spec_status_of(
    cd: Seq<CommitFileV>,
    id: Seq<IndexFileV>,
    f: FileDataV,
) -> Option<StatusV> {
    let stage = spec_stage_of(id, f);
    match commit_lookup(cd, f.path) {
        Some(ch) => Some(
            {
                if stage == StageStatus::Commit {
                    // the index holds the file's current content, so its
                    // stored hash decides, with no read of the file
                    if index_lookup(id, f.path).unwrap().hash == ch {
                        StatusV::Unchanged
                    } else {
                        StatusV::Modified
                    }
                } else if f.content_hash == Some(ch) {
                    StatusV::Unchanged
                } else {
                    StatusV::Modified
                }
            },
        ),
        None => if stage == StageStatus::Untracked {
            Some(StatusV::New)
        } else {
            None
        },
    }
}

/// The content hash a deferred file is keyed by for move detection: the
/// index's stored hash when the cached metadata matched (the index holds
/// the current content), the freshly computed hash otherwise.
pub open spec fn spec_move_key(id: Seq<IndexFileV>, f: FileDataV) -> Seq<u8> {
    match index_lookup(id, f.path) {
        Some(ie) => {
            if ie.cache == f.cache {
                ie.hash
            } else {
                f.content_hash.unwrap()
            }
        },
        None => f.content_hash.unwrap(),
    }
}

/// A tracked working-tree file whose path the commit does not know: its
/// classification waits for move detection.
pub open spec fn spec_deferred(cd: Seq<CommitFileV>, id: Seq<IndexFileV>, f: FileDataV) -> bool {
    commit_lookup(cd, f.path) is None && spec_stage_of(id, f) != StageStatus::Untracked
}

/// Paths unique within each input.
pub open spec fn commit_paths_unique(cd: Seq<CommitFileV>) -> bool {
    forall|i: int, j: int|
        0 <= i < j < cd.len() ==> (#[trigger] cd[i]).path != (#[trigger] cd[j]).path
}

pub open spec fn index_paths_unique(id: Seq<IndexFileV>) -> bool {
    forall|i: int, j: int|
        0 <= i < j < id.len() ==> (#[trigger] id[i]).path != (#[trigger] id[j]).path
}

pub open spec fn work_paths_unique(wv: Seq<FileDataV>) -> bool {
    forall|i: int, j: int|
        0 <= i < j < wv.len() ==> (#[trigger] wv[i]).path != (#[trigger] wv[j]).path
}

/// Whether every working-tree file carries the content hash the plan
/// demands.
pub open spec fn plan_satisfied(
    cd: Seq<CommitFileV>,
    id: Seq<IndexFileV>,
    wv: Seq<FileDataV>,
) -> bool {
    forall|i: int|
        0 <= i < wv.len() ==> (spec_needs_hash(cd, id, (#[trigger] wv[i]).path, wv[i].cache)
            ==> wv[i].content_hash is Some)
}

/// Decides whether a working-tree file's content must be hashed before
/// reconciliation, from its path and cached metadata alone.
pub fn needs_content_hash(
    commit_data: &Vec<CommitFile>,
    index_data: &Vec<IndexFile>,
    path: &[u8],
    cache: &IndexEntryCache,
) -> (r: bool)
    ensures
        r == spec_needs_hash(commit_views(commit_data@), index_views(index_data@), path@, *cache),
{
    let ie = find_index_file(index_data, path);
    match ie {
        Some(i) => !index_data[i].cache.matches_loose(cache),
        None => find_commit_file(commit_data, path).is_some(),
    }
}

/// Finds the index record for a path.
fn find_index_file(index_data: &Vec<IndexFile>, path: &[u8]) -> (r: Option<usize>)
    ensures
        match r {
            Some(i) => i < index_data@.len() && index_lookup(index_views(index_data@), path@)
                == Some(index_data@[i as int]@) && index_data@[i as int]@.path == path@,
            None => index_lookup(index_views(index_data@), path@) is None,
        },
{
    let ghost idv = index_views(index_data@);
    let mut i: usize = 0;
    proof {
        assert(idv.skip(0) =~= idv);
    }
    while i < index_data.len()
        invariant
            0 <= i <= index_data@.len(),
            idv == index_views(index_data@),
            index_lookup(idv, path@) == index_lookup(idv.skip(i as int), path@),
        decreases index_data@.len() - i,
    {
        let ghost rest = idv.skip(i as int);
        proof {
            assert(rest[0] == idv[i as int]);
            assert(rest.skip(1) =~= idv.skip(i + 1));
        }
        if crate::hashing::bytes_eq(index_data[i].path.as_slice(), path) {
            return Some(i);
        }
        i = i + 1;
    }
    proof {
        assert(idv.skip(i as int) =~= Seq::<IndexFileV>::empty());
    }
    None
}

/// Finds the commit record for a path.
fn find_commit_file(commit_data: &Vec<CommitFile>, path: &[u8]) -> (r: Option<usize>)
    ensures
        match r {
            Some(i) => i < commit_data@.len() && commit_lookup(commit_views(commit_data@), path@)
                == Some(commit_data@[i as int]@.hash) && commit_data@[i as int]@.path == path@,
            None => commit_lookup(commit_views(commit_data@), path@) is None,
        },
{
    let ghost cdv = commit_views(commit_data@);
    let mut i: usize = 0;
    proof {
        assert(cdv.skip(0) =~= cdv);
    }
    while i < commit_data.len()
        invariant
            0 <= i <= commit_data@.len(),
            cdv == commit_views(commit_data@),
            commit_lookup(cdv, path@) == commit_lookup(cdv.skip(i as int), path@),
        decreases commit_data@.len() - i,
    {
        let ghost rest = cdv.skip(i as int);
        proof {
            assert(rest[0] == cdv[i as int]);
            assert(rest.skip(1) =~= cdv.skip(i + 1));
        }
        if crate::hashing::bytes_eq(commit_data[i].path.as_slice(), path) {
            return Some(i);
        }
        i = i + 1;
    }
    proof {
        assert(cdv.skip(i as int) =~= Seq::<CommitFileV>::empty());
    }
    None
}

/// A deferred candidate for move detection: a tracked working-tree file
/// whose path the commit does not know, keyed by its content hash.
#[derive(Debug)]
pub struct MovedCand {
    pub hash: crate::hashing::Hash,
    pub path: Vec<u8>,
    pub stage: StageStatus,
}

pub ghost struct MovedCandV {
    pub hash: Seq<u8>,
    pub path: Seq<u8>,
    pub stage: StageStatus,
}

impl View for MovedCand {
    type V = MovedCandV;

    open spec fn view(&self) -> MovedCandV {
        MovedCandV { hash: self.hash@, path: self.path@, stage: self.stage }
    }
}

/// The classification a working-tree file gets on the spot.
pub open spec fn spot_output(
    cd: Seq<CommitFileV>,
    id: Seq<IndexFileV>,
    f: FileDataV,
) -> FileWithStatusV {
    FileWithStatusV {
        path: f.path,
        status: spec_status_of(cd, id, f).unwrap(),
        stage_status: spec_stage_of(id, f),
    }
}

/// An output that settles a deferred file: new under its own stage, or the
/// new name of a move.
pub open spec fn settles_deferred(o: FileWithStatusV, id: Seq<IndexFileV>, f: FileDataV) -> bool {
    o.path == f.path && ((o.status == StatusV::New && o.stage_status == spec_stage_of(id, f))
        || o.status is Moved)
}

/// An output that accounts for a vanished path `q`: deleted under the given
/// stage, or the previous name of a move under the same stage.
pub open spec fn accounts_vanished(o: FileWithStatusV, q: Seq<u8>, stage: StageStatus) -> bool {
    (o.path == q && o.status == StatusV::Deleted && o.stage_status == stage) || (o.status == (
    StatusV::Moved { previous: q }) && o.stage_status == stage)
}

/// The views of the move candidates.
pub open spec fn cand_views(v: Seq<MovedCand>) -> Seq<MovedCandV> {
    Seq::new(v.len(), |i: int| v[i]@)
}

/// The hash the inputs record for a vanished path: its index entry's hash,
/// or failing that its committed hash.
pub open spec fn spec_vanished_hash(
    cd: Seq<CommitFileV>,
    id: Seq<IndexFileV>,
    q: Seq<u8>,
) -> Option<Seq<u8>> {
    match index_lookup(id, q) {
        Some(ie) => Some(ie.hash),
        None => commit_lookup(cd, q),
    }
}

/// The vanished path an output accounts for, if any: a deleted path, or the
/// previous name of a move.
pub open spec fn accounts_path(o: FileWithStatusV) -> Option<Seq<u8>> {
    match o.status {
        StatusV::Deleted => Some(o.path),
        StatusV::Moved { previous } => Some(previous),
        _ => None,
    }
}

/// A moved output stands on real inputs: its previous name is a vanished
/// path (gone from the working tree, known to the index or the commit), its
/// stage is unstaged for an index path and staged otherwise, and the
/// vanished path's recorded hash equals the move key of the working-tree
/// file at the output's path, which is deferred.
pub open spec fn moved_output_ok(
    cd: Seq<CommitFileV>,
    id: Seq<IndexFileV>,
    wv: Seq<FileDataV>,
    o: FileWithStatusV,
) -> bool {
    match o.status {
        StatusV::Moved { previous } => {
            &&& !work_has(wv, previous)
            &&& (index_lookup(id, previous) is Some || commit_lookup(cd, previous) is Some)
            &&& o.stage_status == (if index_lookup(id, previous) is Some {
                StageStatus::NotCommit
            } else {
                StageStatus::Commit
            })
            &&& forall|i: int|
                0 <= i < wv.len() && (#[trigger] wv[i]).path == o.path ==> (spec_deferred(
                    cd,
                    id,
                    wv[i],
                ) && spec_vanished_hash(cd, id, previous) == Some(spec_move_key(id, wv[i])))
        },
        _ => true,
    }
}

/// Every moved output stands on real inputs.
pub open spec fn moved_outputs_ok(
    cd: Seq<CommitFileV>,
    id: Seq<IndexFileV>,
    wv: Seq<FileDataV>,
    outv: Seq<FileWithStatusV>,
) -> bool {
    forall|j: int| 0 <= j < outv.len() ==> moved_output_ok(cd, id, wv, #[trigger] outv[j])
}

/// No two outputs name the same path.
pub open spec fn out_paths_distinct(outv: Seq<FileWithStatusV>) -> bool {
    forall|j1: int, j2: int|
        0 <= j1 < j2 < outv.len() ==> (#[trigger] outv[j1]).path != (#[trigger] outv[j2]).path
}

/// No two outputs account for the same vanished path.
pub open spec fn vanished_paths_distinct(outv: Seq<FileWithStatusV>) -> bool {
    forall|j1: int, j2: int|
        0 <= j1 < j2 < outv.len() && (#[trigger] accounts_path(outv[j1])) is Some ==> accounts_path(
            outv[j1],
        ) != #[trigger] accounts_path(outv[j2])
}

/// Whether some working-tree file carries this path without being deferred.
pub open spec fn nondeferred_path(
    cd: Seq<CommitFileV>,
    id: Seq<IndexFileV>,
    wv: Seq<FileDataV>,
    p: Seq<u8>,
) -> bool {
    nondeferred_path_before(cd, id, wv, p, wv.len() as int)
}

/// ... among the first `n` working-tree files.
pub open spec fn nondeferred_path_before(
    cd: Seq<CommitFileV>,
    id: Seq<IndexFileV>,
    wv: Seq<FileDataV>,
    p: Seq<u8>,
    n: int,
) -> bool {
    exists|i: int|
        0 <= i < n && i < wv.len() && (#[trigger] wv[i]).path == p && !spec_deferred(cd, id, wv[i])
}

/// An output drawn from the inputs: a working path, or a vanished path
/// reported deleted.
pub open spec fn output_from_inputs(
    cd: Seq<CommitFileV>,
    id: Seq<IndexFileV>,
    wv: Seq<FileDataV>,
    o: FileWithStatusV,
) -> bool {
    ||| work_has(wv, o.path)
    ||| (o.status == StatusV::Deleted && !work_has(wv, o.path) && (index_lookup(id, o.path) is Some
        || commit_lookup(cd, o.path) is Some))
}

/// The classification shapes an output can have mid-reconciliation: an
/// on-the-spot classification of a non-deferred working path, the new name
/// of a move, or a deleted vanished path.
pub open spec fn output_shape(
    cd: Seq<CommitFileV>,
    id: Seq<IndexFileV>,
    wv: Seq<FileDataV>,
    o: FileWithStatusV,
) -> bool {
    ||| nondeferred_path(cd, id, wv, o.path)
    ||| o.status is Moved
    ||| (o.status == StatusV::Deleted && !work_has(wv, o.path) && (index_lookup(id, o.path) is Some
        || commit_lookup(cd, o.path) is Some))
}

/// Whether the outputs hold this exact classification.
pub open spec fn has_spot(outv: Seq<FileWithStatusV>, o: FileWithStatusV) -> bool {
    exists|j: int| 0 <= j < outv.len() && #[trigger] outv[j] == o
}

/// Whether some output settles this deferred file.
pub open spec fn has_settling(outv: Seq<FileWithStatusV>, id: Seq<IndexFileV>, f: FileDataV) -> bool {
    exists|j: int| 0 <= j < outv.len() && settles_deferred(#[trigger] outv[j], id, f)
}

/// Whether some output accounts for this vanished path under this stage.
pub open spec fn has_vanished_account(
    outv: Seq<FileWithStatusV>,
    q: Seq<u8>,
    stage: StageStatus,
) -> bool {
    exists|j: int| 0 <= j < outv.len() && accounts_vanished(#[trigger] outv[j], q, stage)
}

/// Whether a candidate with these fields exists.
pub open spec fn cand_for(cv: Seq<MovedCandV>, p: Seq<u8>, stage: StageStatus, key: Seq<u8>) -> bool {
    exists|c: int|
        0 <= c < cv.len() && (#[trigger] cv[c]).path == p && cv[c].stage == stage && cv[c].hash
            == key
}

/// ... an unconsumed one.
pub open spec fn unused_cand_for(
    cv: Seq<MovedCandV>,
    used: Seq<bool>,
    p: Seq<u8>,
    stage: StageStatus,
    key: Seq<u8>,
) -> bool {
    exists|c: int|
        0 <= c < cv.len() && !used[c] && (#[trigger] cv[c]).path == p && cv[c].stage == stage
            && cv[c].hash == key
}

/// Whether this path belongs to one of the first `n` working-tree files,
/// deferred, with this stage and move key.
pub open spec fn deferred_file_before(
    cd: Seq<CommitFileV>,
    id: Seq<IndexFileV>,
    wv: Seq<FileDataV>,
    p: Seq<u8>,
    stage: StageStatus,
    key: Seq<u8>,
    n: int,
) -> bool {
    exists|i: int|
        0 <= i < n && i < wv.len() && (#[trigger] wv[i]).path == p && spec_deferred(cd, id, wv[i])
            && stage == spec_stage_of(id, wv[i]) && key == spec_move_key(id, wv[i])
}

/// The candidates stand in one-to-one correspondence with the deferred
/// working-tree files, carrying their stage and move key.
pub open spec fn cands_match(
    cd: Seq<CommitFileV>,
    id: Seq<IndexFileV>,
    wv: Seq<FileDataV>,
    cv: Seq<MovedCandV>,
) -> bool {
    &&& forall|i: int|
        #![trigger wv[i]]
        0 <= i < wv.len() && spec_deferred(cd, id, wv[i]) ==> cand_for(
            cv,
            wv[i].path,
            spec_stage_of(id, wv[i]),
            spec_move_key(id, wv[i]),
        )
    &&& forall|c: int|
        0 <= c < cv.len() ==> deferred_file_before(
            cd,
            id,
            wv,
            (#[trigger] cv[c]).path,
            cv[c].stage,
            cv[c].hash,
            wv.len() as int,
        )
    &&& forall|c1: int, c2: int|
        0 <= c1 < c2 < cv.len() ==> (#[trigger] cv[c1]).path != (#[trigger] cv[c2]).path
}

/// Every deferred file is settled by an output, or its candidate is still
/// unconsumed.
pub open spec fn deferred_pending(
    cd: Seq<CommitFileV>,
    id: Seq<IndexFileV>,
    wv: Seq<FileDataV>,
    outv: Seq<FileWithStatusV>,
    cv: Seq<MovedCandV>,
    used: Seq<bool>,
) -> bool {
    forall|i: int|
        #![trigger wv[i]]
        0 <= i < wv.len() && spec_deferred(cd, id, wv[i]) ==> (has_settling(outv, id, wv[i])
            || unused_cand_for(
            cv,
            used,
            wv[i].path,
            spec_stage_of(id, wv[i]),
            spec_move_key(id, wv[i]),
        ))
}

/// A deleted output has spent every candidate sharing its vanished hash:
/// content that matched a vanished path was paired off before anything was
/// reported deleted.
pub open spec fn deleted_spends_cands(
    cd: Seq<CommitFileV>,
    id: Seq<IndexFileV>,
    outv: Seq<FileWithStatusV>,
    cv: Seq<MovedCandV>,
    used: Seq<bool>,
) -> bool {
    forall|j: int, c: int|
        0 <= j < outv.len() && 0 <= c < cv.len() && (#[trigger] outv[j]).status == StatusV::Deleted
            && Some((#[trigger] cv[c]).hash) == spec_vanished_hash(cd, id, outv[j].path)
            ==> used[c]
}

/// Every moved output stands on a consumed candidate with its path.
pub open spec fn moved_from_cands(
    outv: Seq<FileWithStatusV>,
    cv: Seq<MovedCandV>,
    used: Seq<bool>,
) -> bool {
    forall|j: int|
        0 <= j < outv.len() && (#[trigger] outv[j]).status is Moved ==> (exists|c: int|
            0 <= c < cv.len() && used[c] && (#[trigger] cv[c]).path == outv[j].path)
}

/// One output listing extends the other.
pub open spec fn out_prefix_of(a: Seq<FileWithStatusV>, b: Seq<FileWithStatusV>) -> bool {
    a.len() <= b.len() && forall|j: int| 0 <= j < a.len() ==> a[j] == #[trigger] b[j]
}

/// Everything reconciliation promises of its output, over the three inputs:
/// every working path classified (on the spot, or as new or moved), every
/// vanished path accounted once as deleted or as a move's previous name, no
/// path reported twice, nothing invented, and no same-content delete-plus-new
/// pair in place of a move.
pub open spec fn reconciled(
    cd: Seq<CommitFileV>,
    id: Seq<IndexFileV>,
    wv: Seq<FileDataV>,
    outv: Seq<FileWithStatusV>,
) -> bool {
    &&& forall|i: int|
        #![trigger wv[i]]
        0 <= i < wv.len() && !spec_deferred(cd, id, wv[i]) ==> has_spot(
            outv,
            spot_output(cd, id, wv[i]),
        )
    &&& forall|i: int|
        #![trigger wv[i]]
        0 <= i < wv.len() && spec_deferred(cd, id, wv[i]) ==> has_settling(outv, id, wv[i])
    &&& forall|k: int|
        0 <= k < id.len() && !work_has(wv, (#[trigger] id[k]).path) ==> has_vanished_account(
            outv,
            id[k].path,
            StageStatus::NotCommit,
        )
    &&& forall|m: int|
        0 <= m < cd.len() && !work_has(wv, (#[trigger] cd[m]).path) && index_lookup(
            id,
            cd[m].path,
        ) is None ==> has_vanished_account(outv, cd[m].path, StageStatus::Commit)
    &&& out_paths_distinct(outv)
    &&& vanished_paths_distinct(outv)
    &&& forall|j: int| 0 <= j < outv.len() ==> output_from_inputs(cd, id, wv, #[trigger] outv[j])
    &&& moved_outputs_ok(cd, id, wv, outv)
    &&& forall|j1: int, j2: int, i: int|
        0 <= j1 < outv.len() && 0 <= j2 < outv.len() && 0 <= i < wv.len() && (
        #[trigger] outv[j1]).status == StatusV::Deleted && (#[trigger] outv[j2]).status
            == StatusV::New && outv[j2].path == (#[trigger] wv[i]).path && spec_deferred(
            cd,
            id,
            wv[i],
        ) ==> spec_vanished_hash(cd, id, outv[j1].path) != Some(spec_move_key(id, wv[i]))
}

/// With unique paths, a record's own path looks up that record.
pub proof fn lemma_index_lookup_self(id: Seq<IndexFileV>, k: int)
    requires
        index_paths_unique(id),
        0 <= k < id.len(),
    ensures
        index_lookup(id, id[k].path) == Some(id[k]),
    decreases k,
{
    if k > 0 {
        assert(id[0].path != id[k].path);
        assert(id.skip(1)[k - 1] == id[k]);
        assert(index_paths_unique(id.skip(1))) by {
            assert(forall|a: int, b: int|
                0 <= a < b < id.skip(1).len() ==> (#[trigger] id.skip(1)[a]).path != (
                #[trigger] id.skip(1)[b]).path);
        }
        lemma_index_lookup_self(id.skip(1), k - 1);
    }
}

/// With unique paths, a commit record's own path looks up its hash.
pub proof fn lemma_commit_lookup_self(cd: Seq<CommitFileV>, m: int)
    requires
        commit_paths_unique(cd),
        0 <= m < cd.len(),
    ensures
        commit_lookup(cd, cd[m].path) == Some(cd[m].hash),
    decreases m,
{
    if m > 0 {
        assert(cd[0].path != cd[m].path);
        assert(cd.skip(1)[m - 1] == cd[m]);
        assert(commit_paths_unique(cd.skip(1))) by {
            assert(forall|a: int, b: int|
                0 <= a < b < cd.skip(1).len() ==> (#[trigger] cd.skip(1)[a]).path != (
                #[trigger] cd.skip(1)[b]).path);
        }
        lemma_commit_lookup_self(cd.skip(1), m - 1);
    }
}

/// Pushing an output whose move (if any) stands on the inputs keeps the
/// moved outputs sound.
proof fn lemma_moved_ok_push(
    cd: Seq<CommitFileV>,
    id: Seq<IndexFileV>,
    wv: Seq<FileDataV>,
    a: Seq<FileWithStatusV>,
    b: Seq<FileWithStatusV>,
    o: FileWithStatusV,
)
    requires
        moved_outputs_ok(cd, id, wv, a),
        b == a.push(o),
        moved_output_ok(cd, id, wv, o),
    ensures
        moved_outputs_ok(cd, id, wv, b),
{
    assert forall|j: int| 0 <= j < b.len() implies moved_output_ok(cd, id, wv, #[trigger] b[j]) by {
        if j < a.len() {
            assert(b[j] == a[j]);
        } else {
            assert(b[j] == o);
        }
    }
}

/// Extending the outputs keeps every classification already present.
pub proof fn lemma_prefix_keeps_spot(
    a: Seq<FileWithStatusV>,
    b: Seq<FileWithStatusV>,
    o: FileWithStatusV,
)
    requires
        out_prefix_of(a, b),
        has_spot(a, o),
    ensures
        has_spot(b, o),
{
    let j = choose|j: int| 0 <= j < a.len() && #[trigger] a[j] == o;
    assert(b[j] == o);
}

/// Extending the outputs keeps every settlement already present.
pub proof fn lemma_prefix_keeps_settling(
    a: Seq<FileWithStatusV>,
    b: Seq<FileWithStatusV>,
    id: Seq<IndexFileV>,
    f: FileDataV,
)
    requires
        out_prefix_of(a, b),
        has_settling(a, id, f),
    ensures
        has_settling(b, id, f),
{
    let j = choose|j: int| 0 <= j < a.len() && settles_deferred(#[trigger] a[j], id, f);
    assert(settles_deferred(b[j], id, f));
}

/// Extending the outputs keeps every vanished-path account already present.
pub proof fn lemma_prefix_keeps_vanished(
    a: Seq<FileWithStatusV>,
    b: Seq<FileWithStatusV>,
    q: Seq<u8>,
    stage: StageStatus,
)
    requires
        out_prefix_of(a, b),
        has_vanished_account(a, q, stage),
    ensures
        has_vanished_account(b, q, stage),
{
    let j = choose|j: int| 0 <= j < a.len() && accounts_vanished(#[trigger] a[j], q, stage);
    assert(accounts_vanished(b[j], q, stage));
}


/// The first pass: classifies every working-tree file on the spot where its
/// status is decidable, defers tracked-but-uncommitted files as move
/// candidates, and marks which index and commit paths the working tree
/// still has.
fn pass_working(
    commit_data: &Vec<CommitFile>,
    index_data: &Vec<IndexFile>,
    working: &Vec<FileData>,
) -> (r: (Vec<FileWithStatus>, Vec<MovedCand>, Vec<bool>, Vec<bool>, Vec<bool>))
    requires
        commit_paths_unique(commit_views(commit_data@)),
        index_paths_unique(index_views(index_data@)),
        work_paths_unique(work_views(working@)),
        plan_satisfied(commit_views(commit_data@), index_views(index_data@), work_views(working@)),
    ensures
        ({
            let cdv = commit_views(commit_data@);
            let idv = index_views(index_data@);
            let wv = work_views(working@);
            let outv = out_views(r.0@);
            let cv = cand_views(r.1@);
            &&& r.2@.len() == cv.len()
            &&& forall|c: int| 0 <= c < r.2@.len() ==> !(#[trigger] r.2@[c])
            &&& r.3@.len() == idv.len()
            &&& forall|k: int|
                0 <= k < idv.len() ==> ((#[trigger] r.3@[k]) <==> work_has(wv, idv[k].path))
            &&& r.4@.len() == cdv.len()
            &&& forall|m: int|
                0 <= m < cdv.len() ==> ((#[trigger] r.4@[m]) <==> work_has(wv, cdv[m].path))
            &&& forall|i: int|
                #![trigger wv[i]]
                0 <= i < wv.len() && !spec_deferred(cdv, idv, wv[i]) ==> has_spot(
                    outv,
                    spot_output(cdv, idv, wv[i]),
                )
            &&& cands_match(cdv, idv, wv, cv)
            &&& forall|j: int|
                0 <= j < outv.len() ==> nondeferred_path(cdv, idv, wv, (#[trigger] outv[j]).path)
            &&& forall|j: int| 0 <= j < outv.len() ==> accounts_path(#[trigger] outv[j]) is None
            &&& out_paths_distinct(outv)
        }),
{
    let ghost cdv = commit_views(commit_data@);
    let ghost idv = index_views(index_data@);
    let ghost wv = work_views(working@);
    let mut out: Vec<FileWithStatus> = Vec::new();
    let mut cands: Vec<MovedCand> = Vec::new();
    let mut cand_used: Vec<bool> = Vec::new();
    let mut index_used: Vec<bool> = Vec::new();
    let mut commit_used: Vec<bool> = Vec::new();
    let mut t: usize = 0;
    while t < index_data.len()
        invariant
            index_used@.len() == t,
            0 <= t <= index_data@.len(),
            forall|k: int| 0 <= k < t ==> !(#[trigger] index_used@[k]),
        decreases index_data@.len() - t,
    {
        index_used.push(false);
        t = t + 1;
    }
    let mut t: usize = 0;
    while t < commit_data.len()
        invariant
            commit_used@.len() == t,
            0 <= t <= commit_data@.len(),
            forall|k: int| 0 <= k < t ==> !(#[trigger] commit_used@[k]),
        decreases commit_data@.len() - t,
    {
        commit_used.push(false);
        t = t + 1;
    }
    let mut i: usize = 0;
    while i < working.len()
        invariant
            0 <= i <= working@.len(),
            cdv == commit_views(commit_data@),
            idv == index_views(index_data@),
            wv == work_views(working@),
            commit_paths_unique(cdv),
            index_paths_unique(idv),
            work_paths_unique(wv),
            plan_satisfied(cdv, idv, wv),
            index_used@.len() == idv.len(),
            commit_used@.len() == cdv.len(),
            cands@.len() == cand_used@.len(),
            forall|c: int| 0 <= c < cand_used@.len() ==> !(#[trigger] cand_used@[c]),
            // classification so far
            forall|i2: int|
                #![trigger wv[i2]]
                0 <= i2 < i && !spec_deferred(cdv, idv, wv[i2]) ==> has_spot(
                    out_views(out@),
                    spot_output(cdv, idv, wv[i2]),
                ),
            forall|i2: int|
                #![trigger wv[i2]]
                0 <= i2 < i && spec_deferred(cdv, idv, wv[i2]) ==> cand_for(
                    cand_views(cands@),
                    wv[i2].path,
                    spec_stage_of(idv, wv[i2]),
                    spec_move_key(idv, wv[i2]),
                ),
            // every output names an earlier, non-deferred working file
            forall|j: int|
                0 <= j < out_views(out@).len() ==> nondeferred_path_before(
                    cdv,
                    idv,
                    wv,
                    (#[trigger] out_views(out@)[j]).path,
                    i as int,
                ),
            forall|j: int|
                0 <= j < out_views(out@).len() ==> accounts_path(
                    #[trigger] out_views(out@)[j],
                ) is None,
            out_paths_distinct(out_views(out@)),
            // every candidate names an earlier, deferred working file
            forall|c: int|
                0 <= c < cand_views(cands@).len() ==> deferred_file_before(
                    cdv,
                    idv,
                    wv,
                    (#[trigger] cand_views(cands@)[c]).path,
                    cand_views(cands@)[c].stage,
                    cand_views(cands@)[c].hash,
                    i as int,
                ),
            forall|c1: int, c2: int|
                0 <= c1 < c2 < cand_views(cands@).len() ==> (#[trigger] cand_views(
                    cands@,
                )[c1]).path != (#[trigger] cand_views(cands@)[c2]).path,
            // the used marks mirror which paths the working tree has seen
            forall|k: int|
                0 <= k < idv.len() ==> ((#[trigger] index_used@[k]) <==> exists|i2: int|
                    0 <= i2 < i && (#[trigger] wv[i2]).path == idv[k].path),
            forall|m: int|
                0 <= m < cdv.len() ==> ((#[trigger] commit_used@[m]) <==> exists|i2: int|
                    0 <= i2 < i && (#[trigger] wv[i2]).path == cdv[m].path),
        decreases working@.len() - i,
    {
        let f = &working[i];
        let ghost fv = wv[i as int];
        proof {
            assert(fv == f@);
        }
        let ie_pos = find_index_file(index_data, f.path.as_slice());
        if let Some(k) = ie_pos {
            let ghost oldu = index_used@;
            index_used[k] = true;
            proof {
                assert(index_used@ =~= oldu.update(k as int, true));
                assert forall|k2: int| 0 <= k2 < idv.len() implies ((#[trigger] index_used@[k2])
                    <==> exists|i2: int|
                    0 <= i2 < i + 1 && (#[trigger] wv[i2]).path == idv[k2].path) by {
                    if k2 == k {
                        assert(wv[i as int].path == idv[k as int].path);
                    } else {
                        if index_used@[k2] {
                            let i2 = choose|i2: int|
                                0 <= i2 < i && (#[trigger] wv[i2]).path == idv[k2].path;
                            assert(0 <= i2 < i + 1 && wv[i2].path == idv[k2].path);
                        } else {
                            if exists|i2: int|
                                0 <= i2 < i + 1 && (#[trigger] wv[i2]).path == idv[k2].path {
                                let i2 = choose|i2: int|
                                    0 <= i2 < i + 1 && (#[trigger] wv[i2]).path == idv[k2].path;
                                if i2 == i {
                                    assert(idv[k2].path == idv[k as int].path);
                                    assert(false);
                                }
                            }
                        }
                    }
                }
            }
        } else {
            proof {
                assert forall|k2: int| 0 <= k2 < idv.len() implies ((#[trigger] index_used@[k2])
                    <==> exists|i2: int|
                    0 <= i2 < i + 1 && (#[trigger] wv[i2]).path == idv[k2].path) by {
                    if index_used@[k2] {
                        let i2 = choose|i2: int|
                            0 <= i2 < i && (#[trigger] wv[i2]).path == idv[k2].path;
                        assert(0 <= i2 < i + 1 && wv[i2].path == idv[k2].path);
                    } else {
                        if exists|i2: int|
                            0 <= i2 < i + 1 && (#[trigger] wv[i2]).path == idv[k2].path {
                            let i2 = choose|i2: int|
                                0 <= i2 < i + 1 && (#[trigger] wv[i2]).path == idv[k2].path;
                            if i2 == i {
                                assert(index_lookup(idv, wv[i as int].path) is None);
                                lemma_index_lookup_some(idv, k2);
                                assert(false);
                            }
                        }
                    }
                }
            }
        }
        let ce_pos = find_commit_file(commit_data, f.path.as_slice());
        if let Some(m) = ce_pos {
            let ghost oldu = commit_used@;
            commit_used[m] = true;
            proof {
                assert(commit_used@ =~= oldu.update(m as int, true));
                assert forall|m2: int| 0 <= m2 < cdv.len() implies ((#[trigger] commit_used@[m2])
                    <==> exists|i2: int|
                    0 <= i2 < i + 1 && (#[trigger] wv[i2]).path == cdv[m2].path) by {
                    if m2 == m {
                        assert(wv[i as int].path == cdv[m as int].path);
                    } else {
                        if commit_used@[m2] {
                            let i2 = choose|i2: int|
                                0 <= i2 < i && (#[trigger] wv[i2]).path == cdv[m2].path;
                            assert(0 <= i2 < i + 1 && wv[i2].path == cdv[m2].path);
                        } else {
                            if exists|i2: int|
                                0 <= i2 < i + 1 && (#[trigger] wv[i2]).path == cdv[m2].path {
                                let i2 = choose|i2: int|
                                    0 <= i2 < i + 1 && (#[trigger] wv[i2]).path == cdv[m2].path;
                                if i2 == i {
                                    assert(cdv[m2].path == cdv[m as int].path);
                                    assert(false);
                                }
                            }
                        }
                    }
                }
            }
        } else {
            proof {
                assert forall|m2: int| 0 <= m2 < cdv.len() implies ((#[trigger] commit_used@[m2])
                    <==> exists|i2: int|
                    0 <= i2 < i + 1 && (#[trigger] wv[i2]).path == cdv[m2].path) by {
                    if commit_used@[m2] {
                        let i2 = choose|i2: int|
                            0 <= i2 < i && (#[trigger] wv[i2]).path == cdv[m2].path;
                        assert(0 <= i2 < i + 1 && wv[i2].path == cdv[m2].path);
                    } else {
                        if exists|i2: int|
                            0 <= i2 < i + 1 && (#[trigger] wv[i2]).path == cdv[m2].path {
                            let i2 = choose|i2: int|
                                0 <= i2 < i + 1 && (#[trigger] wv[i2]).path == cdv[m2].path;
                            if i2 == i {
                                assert(commit_lookup(cdv, wv[i as int].path) is None);
                                lemma_commit_lookup_some(cdv, m2);
                                assert(false);
                            }
                        }
                    }
                }
            }
        }
        // the stage of this file
        let cache_matched: bool = match ie_pos {
            Some(k) => index_data[k].cache.matches_loose(&f.cache),
            None => false,
        };
        let stage: StageStatus = match ie_pos {
            Some(k) => {
                if cache_matched {
                    StageStatus::Commit
                } else {
                    match &f.content_hash {
                        Some(h) => {
                            if crate::hashing::bytes_eq(h.as_bytes(), index_data[k].hash.as_bytes())
                                {
                                StageStatus::Commit
                            } else {
                                StageStatus::NotCommit
                            }
                        },
                        None => {
                            proof {
                                assert(spec_needs_hash(cdv, idv, fv.path, fv.cache));
                                assert(false);
                            }
                            StageStatus::NotCommit
                        },
                    }
                }
            },
            None => StageStatus::Untracked,
        };
        proof {
            assert(stage == spec_stage_of(idv, fv));
        }
        // the status, or a deferred move candidate
        match ce_pos {
            Some(m) => {
                let mut unchanged = false;
                if stage == StageStatus::Commit {
                    // the index holds this file's current content: its
                    // stored hash decides, without reading the file
                    if let Some(k) = ie_pos {
                        if crate::hashing::bytes_eq(
                            index_data[k].hash.as_bytes(),
                            commit_data[m].hash.as_bytes(),
                        ) {
                            unchanged = true;
                        }
                    }
                } else {
                    match &f.content_hash {
                        Some(h) => {
                            if crate::hashing::bytes_eq(h.as_bytes(), commit_data[m].hash.as_bytes())
                                {
                                unchanged = true;
                            }
                        },
                        None => {
                            proof {
                                assert(spec_needs_hash(cdv, idv, fv.path, fv.cache));
                                assert(false);
                            }
                        },
                    }
                }
                let status = if unchanged {
                    Status::Unchanged
                } else {
                    Status::Modified
                };
                let ghost oldout = out_views(out@);
                out.push(
                    FileWithStatus {
                        path: slice_to_vec(f.path.as_slice()),
                        status,
                        stage_status: stage,
                    },
                );
                proof {
                    pass_working_push_facts(cdv, idv, wv, oldout, out_views(out@), fv, i as int);
                    assert(out_views(out@) =~= oldout.push(
                        FileWithStatusV { path: fv.path, status: status@, stage_status: stage },
                    ));
                    assert(out_views(out@)[oldout.len() as int] == spot_output(cdv, idv, fv));
                    assert(has_spot(out_views(out@), spot_output(cdv, idv, fv)));
                }
            },
            None => {
                if stage == StageStatus::Untracked {
                    let ghost oldout = out_views(out@);
                    out.push(
                        FileWithStatus {
                            path: slice_to_vec(f.path.as_slice()),
                            status: Status::New,
                            stage_status: stage,
                        },
                    );
                    proof {
                        pass_working_push_facts(
                            cdv,
                            idv,
                            wv,
                            oldout,
                            out_views(out@),
                            fv,
                            i as int,
                        );
                        assert(out_views(out@) =~= oldout.push(
                            FileWithStatusV {
                                path: fv.path,
                                status: StatusV::New,
                                stage_status: stage,
                            },
                        ));
                        assert(out_views(out@)[oldout.len() as int] == spot_output(cdv, idv, fv));
                        assert(has_spot(out_views(out@), spot_output(cdv, idv, fv)));
                    }
                } else {
                    // deferred: remember for move detection, keyed by the
                    // stored index hash when the metadata matched, by the
                    // computed content hash otherwise
                    let h = if cache_matched {
                        match ie_pos {
                            Some(k) => index_data[k].hash.clone(),
                            None => {
                                proof {
                                    assert(false);
                                }
                                crate::hashing::Hash::compute(&[])
                            },
                        }
                    } else {
                        match &f.content_hash {
                            Some(h) => h.clone(),
                            None => {
                                proof {
                                    assert(spec_needs_hash(cdv, idv, fv.path, fv.cache));
                                    assert(false);
                                }
                                crate::hashing::Hash::compute(&[])
                            },
                        }
                    };
                    proof {
                        assert(h@ == spec_move_key(idv, fv));
                    }
                    let ghost oldc = cand_views(cands@);
                    cands.push(
                        MovedCand { hash: h, path: slice_to_vec(f.path.as_slice()), stage },
                    );
                    cand_used.push(false);
                    proof {
                        let cv = cand_views(cands@);
                        assert(cv =~= oldc.push(
                            MovedCandV { hash: h@, path: fv.path, stage },
                        ));
                        assert(cv[oldc.len() as int].path == fv.path);
                        assert(cand_for(
                            cv,
                            fv.path,
                            spec_stage_of(idv, fv),
                            spec_move_key(idv, fv),
                        ));
                        assert(forall|c: int| 0 <= c < oldc.len() ==> cv[c] == #[trigger] oldc[c]);
                        // earlier deferred files keep their candidates
                        assert forall|i2: int|
                            #![trigger wv[i2]]
                            0 <= i2 < i + 1 && spec_deferred(cdv, idv, wv[i2]) implies cand_for(
                            cv,
                            wv[i2].path,
                            spec_stage_of(idv, wv[i2]),
                            spec_move_key(idv, wv[i2]),
                        ) by {
                            if i2 < i {
                                let c = choose|c: int|
                                    0 <= c < oldc.len() && (#[trigger] oldc[c]).path == wv[i2].path
                                        && oldc[c].stage == spec_stage_of(idv, wv[i2])
                                        && oldc[c].hash == spec_move_key(idv, wv[i2]);
                                assert(cv[c].path == wv[i2].path);
                            }
                        }
                        // the new candidate names this deferred file
                        assert(deferred_file_before(
                            cdv,
                            idv,
                            wv,
                            fv.path,
                            stage,
                            h@,
                            i + 1,
                        ));
                        // candidate paths stay distinct: an earlier one with
                        // this path would name an earlier file of this path
                        assert forall|c1: int, c2: int|
                            0 <= c1 < c2 < cv.len() implies (#[trigger] cv[c1]).path != (
                        #[trigger] cv[c2]).path by {
                            if c2 == oldc.len() {
                                if cv[c1].path == fv.path {
                                    assert(deferred_file_before(
                                        cdv,
                                        idv,
                                        wv,
                                        oldc[c1].path,
                                        oldc[c1].stage,
                                        oldc[c1].hash,
                                        i as int,
                                    ));
                                    let i2 = choose|i2: int|
                                        0 <= i2 < i && i2 < wv.len() && (#[trigger] wv[i2]).path
                                            == oldc[c1].path && spec_deferred(cdv, idv, wv[i2])
                                            && oldc[c1].stage == spec_stage_of(idv, wv[i2])
                                            && oldc[c1].hash == spec_move_key(idv, wv[i2]);
                                    assert(wv[i2].path == wv[i as int].path);
                                    assert(false);
                                }
                            }
                        }
                    }
                }
            },
        }
        i = i + 1;
    }
    proof {
        assert forall|j: int|
            0 <= j < out_views(out@).len() implies nondeferred_path(
            cdv,
            idv,
            wv,
            (#[trigger] out_views(out@)[j]).path,
        ) by {
            assert(nondeferred_path_before(
                cdv,
                idv,
                wv,
                out_views(out@)[j].path,
                i as int,
            ));
        }
        assert forall|c: int|
            0 <= c < cand_views(cands@).len() implies deferred_file_before(
            cdv,
            idv,
            wv,
            (#[trigger] cand_views(cands@)[c]).path,
            cand_views(cands@)[c].stage,
            cand_views(cands@)[c].hash,
            wv.len() as int,
        ) by {
            assert(deferred_file_before(
                cdv,
                idv,
                wv,
                cand_views(cands@)[c].path,
                cand_views(cands@)[c].stage,
                cand_views(cands@)[c].hash,
                i as int,
            ));
        }
        assert forall|k: int| 0 <= k < idv.len() implies ((#[trigger] index_used@[k]) <==> work_has(
            wv,
            idv[k].path,
        )) by {}
        assert forall|m: int| 0 <= m < cdv.len() implies ((#[trigger] commit_used@[m])
            <==> work_has(wv, cdv[m].path)) by {}
    }
    (out, cands, cand_used, index_used, commit_used)
}

/// The bookkeeping shared by the two spot-classification pushes: the output
/// grows by one entry for the current, non-deferred working file, keeping
/// path distinctness, source tracking, and the classifications already
/// present.
proof fn pass_working_push_facts(
    cdv: Seq<CommitFileV>,
    idv: Seq<IndexFileV>,
    wv: Seq<FileDataV>,
    oldout: Seq<FileWithStatusV>,
    newout: Seq<FileWithStatusV>,
    fv: FileDataV,
    i: int,
)
    requires
        work_paths_unique(wv),
        0 <= i < wv.len(),
        fv == wv[i],
        newout.len() == oldout.len() + 1,
        forall|j: int| 0 <= j < oldout.len() ==> newout[j] == #[trigger] oldout[j],
        newout.last().path == fv.path,
        !spec_deferred(cdv, idv, fv),
        accounts_path(newout.last()) is None,
        forall|j: int|
            0 <= j < oldout.len() ==> nondeferred_path_before(
                cdv,
                idv,
                wv,
                (#[trigger] oldout[j]).path,
                i,
            ),
        forall|j: int| 0 <= j < oldout.len() ==> accounts_path(#[trigger] oldout[j]) is None,
        out_paths_distinct(oldout),
        forall|i2: int|
            #![trigger wv[i2]]
            0 <= i2 < i && !spec_deferred(cdv, idv, wv[i2]) ==> has_spot(
                oldout,
                spot_output(cdv, idv, wv[i2]),
            ),
    ensures
        forall|j: int|
            0 <= j < newout.len() ==> nondeferred_path_before(
                cdv,
                idv,
                wv,
                (#[trigger] newout[j]).path,
                i + 1,
            ),
        forall|j: int| 0 <= j < newout.len() ==> accounts_path(#[trigger] newout[j]) is None,
        out_paths_distinct(newout),
        forall|i2: int|
            #![trigger wv[i2]]
            0 <= i2 < i && !spec_deferred(cdv, idv, wv[i2]) ==> has_spot(
                newout,
                spot_output(cdv, idv, wv[i2]),
            ),
{
    assert forall|j: int|
        0 <= j < newout.len() implies nondeferred_path_before(
        cdv,
        idv,
        wv,
        (#[trigger] newout[j]).path,
        i + 1,
    ) by {
        if j < oldout.len() {
            assert(nondeferred_path_before(cdv, idv, wv, oldout[j].path, i));
            let i2 = choose|i2: int|
                0 <= i2 < i && i2 < wv.len() && (#[trigger] wv[i2]).path == oldout[j].path
                    && !spec_deferred(cdv, idv, wv[i2]);
            assert(0 <= i2 < i + 1 && wv[i2].path == newout[j].path);
        } else {
            assert(newout[j] == newout.last());
            assert(wv[i].path == newout[j].path);
        }
    }
    assert forall|j1: int, j2: int|
        0 <= j1 < j2 < newout.len() implies (#[trigger] newout[j1]).path != (
    #[trigger] newout[j2]).path by {
        if j2 == oldout.len() {
            if newout[j1].path == fv.path {
                assert(nondeferred_path_before(cdv, idv, wv, oldout[j1].path, i));
                let i2 = choose|i2: int|
                    0 <= i2 < i && i2 < wv.len() && (#[trigger] wv[i2]).path == oldout[j1].path
                        && !spec_deferred(cdv, idv, wv[i2]);
                assert(wv[i2].path == wv[i].path);
                assert(false);
            }
        } else {
            assert(newout[j1] == oldout[j1] && newout[j2] == oldout[j2]);
        }
    }
    assert forall|i2: int|
        #![trigger wv[i2]]
        0 <= i2 < i && !spec_deferred(cdv, idv, wv[i2]) implies has_spot(
        newout,
        spot_output(cdv, idv, wv[i2]),
    ) by {
        assert(out_prefix_of(oldout, newout));
        lemma_prefix_keeps_spot(oldout, newout, spot_output(cdv, idv, wv[i2]));
    }
}


/// The bookkeeping of emitting a moved output: consuming candidate `c` and
/// appending `Moved { previous: q }` under the candidate's path keeps path
/// distinctness, the pending-candidates invariant, the spent-candidates
/// invariant, and the moved-outputs invariant.
proof fn pass_vanished_moved_facts(
    cdv: Seq<CommitFileV>,
    idv: Seq<IndexFileV>,
    wv: Seq<FileDataV>,
    oldout: Seq<FileWithStatusV>,
    newout: Seq<FileWithStatusV>,
    cv: Seq<MovedCandV>,
    oldused: Seq<bool>,
    newused: Seq<bool>,
    c: int,
    q: Seq<u8>,
    stage: StageStatus,
)
    requires
        work_paths_unique(wv),
        cands_match(cdv, idv, wv, cv),
        0 <= c < cv.len(),
        oldused.len() == cv.len(),
        !oldused[c],
        newused == oldused.update(c, true),
        newout == oldout.push(
            FileWithStatusV {
                path: cv[c].path,
                status: StatusV::Moved { previous: q },
                stage_status: stage,
            },
        ),
        deferred_pending(cdv, idv, wv, oldout, cv, oldused),
        deleted_spends_cands(cdv, idv, oldout, cv, oldused),
        moved_from_cands(oldout, cv, oldused),
        out_paths_distinct(oldout),
        forall|j: int|
            0 <= j < oldout.len() ==> (nondeferred_path(cdv, idv, wv, (#[trigger] oldout[j]).path)
                || oldout[j].status is Moved || (oldout[j].status == StatusV::Deleted && !work_has(
                wv,
                oldout[j].path,
            ))),
    ensures
        out_prefix_of(oldout, newout),
        out_paths_distinct(newout),
        deferred_pending(cdv, idv, wv, newout, cv, newused),
        deleted_spends_cands(cdv, idv, newout, cv, newused),
        moved_from_cands(newout, cv, newused),
{
    let o = newout.last();
    assert(deferred_file_before(cdv, idv, wv, cv[c].path, cv[c].stage, cv[c].hash, wv.len() as int));
    let ic = choose|ic: int|
        0 <= ic < wv.len() && (#[trigger] wv[ic]).path == cv[c].path && spec_deferred(
            cdv,
            idv,
            wv[ic],
        ) && cv[c].stage == spec_stage_of(idv, wv[ic]) && cv[c].hash == spec_move_key(idv, wv[ic]);
    assert(work_has(wv, cv[c].path));
    assert forall|j1: int, j2: int|
        0 <= j1 < j2 < newout.len() implies (#[trigger] newout[j1]).path != (
    #[trigger] newout[j2]).path by {
        if j2 == oldout.len() {
            if newout[j1].path == cv[c].path {
                if nondeferred_path(cdv, idv, wv, oldout[j1].path) {
                    let i2 = choose|i2: int|
                        0 <= i2 < wv.len() && (#[trigger] wv[i2]).path == oldout[j1].path
                            && !spec_deferred(cdv, idv, wv[i2]);
                    assert(wv[i2].path == wv[ic].path);
                    assert(false);
                } else if oldout[j1].status is Moved {
                    let c2 = choose|c2: int|
                        0 <= c2 < cv.len() && oldused[c2] && (#[trigger] cv[c2]).path
                            == oldout[j1].path;
                    assert(c2 != c);
                    assert(false);
                } else {
                    assert(!work_has(wv, oldout[j1].path));
                    assert(false);
                }
            }
        } else {
            assert(newout[j1] == oldout[j1] && newout[j2] == oldout[j2]);
        }
    }
    assert forall|i2: int|
        #![trigger wv[i2]]
        0 <= i2 < wv.len() && spec_deferred(cdv, idv, wv[i2]) implies (has_settling(
        newout,
        idv,
        wv[i2],
    ) || unused_cand_for(
        cv,
        newused,
        wv[i2].path,
        spec_stage_of(idv, wv[i2]),
        spec_move_key(idv, wv[i2]),
    )) by {
        if has_settling(oldout, idv, wv[i2]) {
            assert(out_prefix_of(oldout, newout));
            lemma_prefix_keeps_settling(oldout, newout, idv, wv[i2]);
        } else {
            let c2 = choose|c2: int|
                0 <= c2 < cv.len() && !oldused[c2] && (#[trigger] cv[c2]).path == wv[i2].path
                    && cv[c2].stage == spec_stage_of(idv, wv[i2]) && cv[c2].hash == spec_move_key(
                    idv,
                    wv[i2],
                );
            if c2 == c {
                assert(o.path == wv[i2].path);
                assert(settles_deferred(o, idv, wv[i2]));
                assert(settles_deferred(newout[oldout.len() as int], idv, wv[i2]));
            } else {
                assert(!newused[c2]);
            }
        }
    }
    assert forall|j: int, c2: int|
        0 <= j < newout.len() && 0 <= c2 < cv.len() && (#[trigger] newout[j]).status
            == StatusV::Deleted && Some((#[trigger] cv[c2]).hash) == spec_vanished_hash(
            cdv,
            idv,
            newout[j].path,
        ) implies newused[c2] by {
        if j < oldout.len() {
            assert(oldused[c2]);
        }
    }
    assert forall|j: int|
        0 <= j < newout.len() && (#[trigger] newout[j]).status is Moved implies (exists|c2: int|
        0 <= c2 < cv.len() && newused[c2] && (#[trigger] cv[c2]).path == newout[j].path) by {
        if j < oldout.len() {
            let c2 = choose|c2: int|
                0 <= c2 < cv.len() && oldused[c2] && (#[trigger] cv[c2]).path == oldout[j].path;
            assert(newused[c2] && cv[c2].path == newout[j].path);
        } else {
            assert(newused[c] && cv[c].path == newout[j].path);
        }
    }
}

/// The bookkeeping of emitting a deleted output for the vanished path `q`,
/// once every candidate sharing its recorded hash has been consumed.
proof fn pass_vanished_deleted_facts(
    cdv: Seq<CommitFileV>,
    idv: Seq<IndexFileV>,
    wv: Seq<FileDataV>,
    oldout: Seq<FileWithStatusV>,
    newout: Seq<FileWithStatusV>,
    cv: Seq<MovedCandV>,
    used: Seq<bool>,
    q: Seq<u8>,
    qhash: Seq<u8>,
    stage: StageStatus,
)
    requires
        work_paths_unique(wv),
        cands_match(cdv, idv, wv, cv),
        used.len() == cv.len(),
        newout == oldout.push(
            FileWithStatusV { path: q, status: StatusV::Deleted, stage_status: stage },
        ),
        !work_has(wv, q),
        spec_vanished_hash(cdv, idv, q) == Some(qhash),
        forall|c: int| 0 <= c < cv.len() && (#[trigger] cv[c]).hash == qhash ==> used[c],
        deferred_pending(cdv, idv, wv, oldout, cv, used),
        deleted_spends_cands(cdv, idv, oldout, cv, used),
        moved_from_cands(oldout, cv, used),
        out_paths_distinct(oldout),
        forall|j: int|
            0 <= j < oldout.len() ==> (nondeferred_path(cdv, idv, wv, (#[trigger] oldout[j]).path)
                || oldout[j].status is Moved || (oldout[j].status == StatusV::Deleted && !work_has(
                wv,
                oldout[j].path,
            ))),
        forall|j: int|
            0 <= j < oldout.len() && (#[trigger] oldout[j]).status == StatusV::Deleted
                ==> oldout[j].path != q,
    ensures
        out_prefix_of(oldout, newout),
        out_paths_distinct(newout),
        deferred_pending(cdv, idv, wv, newout, cv, used),
        deleted_spends_cands(cdv, idv, newout, cv, used),
        moved_from_cands(newout, cv, used),
{
    assert forall|j1: int, j2: int|
        0 <= j1 < j2 < newout.len() implies (#[trigger] newout[j1]).path != (
    #[trigger] newout[j2]).path by {
        if j2 == oldout.len() {
            if newout[j1].path == q {
                if nondeferred_path(cdv, idv, wv, oldout[j1].path) {
                    let i2 = choose|i2: int|
                        0 <= i2 < wv.len() && (#[trigger] wv[i2]).path == oldout[j1].path
                            && !spec_deferred(cdv, idv, wv[i2]);
                    assert(work_has(wv, q));
                    assert(false);
                } else if oldout[j1].status is Moved {
                    let c2 = choose|c2: int|
                        0 <= c2 < cv.len() && used[c2] && (#[trigger] cv[c2]).path
                            == oldout[j1].path;
                    assert(deferred_file_before(
                        cdv,
                        idv,
                        wv,
                        cv[c2].path,
                        cv[c2].stage,
                        cv[c2].hash,
                        wv.len() as int,
                    ));
                    let i2 = choose|i2: int|
                        0 <= i2 < wv.len() && (#[trigger] wv[i2]).path == cv[c2].path
                            && spec_deferred(cdv, idv, wv[i2]) && cv[c2].stage == spec_stage_of(
                            idv,
                            wv[i2],
                        ) && cv[c2].hash == spec_move_key(idv, wv[i2]);
                    assert(work_has(wv, q));
                    assert(false);
                } else {
                    assert(oldout[j1].status == StatusV::Deleted);
                    assert(false);
                }
            }
        } else {
            assert(newout[j1] == oldout[j1] && newout[j2] == oldout[j2]);
        }
    }
    assert forall|i2: int|
        #![trigger wv[i2]]
        0 <= i2 < wv.len() && spec_deferred(cdv, idv, wv[i2]) implies (has_settling(
        newout,
        idv,
        wv[i2],
    ) || unused_cand_for(
        cv,
        used,
        wv[i2].path,
        spec_stage_of(idv, wv[i2]),
        spec_move_key(idv, wv[i2]),
    )) by {
        if has_settling(oldout, idv, wv[i2]) {
            assert(out_prefix_of(oldout, newout));
            lemma_prefix_keeps_settling(oldout, newout, idv, wv[i2]);
        }
    }
    assert forall|j: int, c2: int|
        0 <= j < newout.len() && 0 <= c2 < cv.len() && (#[trigger] newout[j]).status
            == StatusV::Deleted && Some((#[trigger] cv[c2]).hash) == spec_vanished_hash(
            cdv,
            idv,
            newout[j].path,
        ) implies used[c2] by {
        if j == oldout.len() {
            assert(cv[c2].hash == qhash);
        }
    }
    assert forall|j: int|
        0 <= j < newout.len() && (#[trigger] newout[j]).status is Moved implies (exists|c2: int|
        0 <= c2 < cv.len() && used[c2] && (#[trigger] cv[c2]).path == newout[j].path) by {
        if j < oldout.len() {
            let c2 = choose|c2: int|
                0 <= c2 < cv.len() && used[c2] && (#[trigger] cv[c2]).path == oldout[j].path;
            assert(used[c2] && cv[c2].path == newout[j].path);
        }
    }
}


/// The second pass: every index path the working tree no longer has is the
/// previous name of a move — when an unconsumed candidate carries the same
/// content hash — or a deletion, both unstaged; its commit record, if any,
/// is marked as accounted for.
fn pass_index_only(
    commit_data: &Vec<CommitFile>,
    index_data: &Vec<IndexFile>,
    working: &Vec<FileData>,
    out: Vec<FileWithStatus>,
    cands: &Vec<MovedCand>,
    cand_used: Vec<bool>,
    index_used: &Vec<bool>,
    commit_used: Vec<bool>,
) -> (r: (Vec<FileWithStatus>, Vec<bool>, Vec<bool>))
    requires
        ({
            let cdv = commit_views(commit_data@);
            let idv = index_views(index_data@);
            let wv = work_views(working@);
            let outv = out_views(out@);
            let cv = cand_views(cands@);
            &&& commit_paths_unique(cdv)
            &&& index_paths_unique(idv)
            &&& work_paths_unique(wv)
            &&& cand_used@.len() == cv.len()
            &&& forall|c: int| 0 <= c < cand_used@.len() ==> !(#[trigger] cand_used@[c])
            &&& index_used@.len() == idv.len()
            &&& forall|k: int|
                0 <= k < idv.len() ==> ((#[trigger] index_used@[k]) <==> work_has(wv, idv[k].path))
            &&& commit_used@.len() == cdv.len()
            &&& forall|m: int|
                0 <= m < cdv.len() ==> ((#[trigger] commit_used@[m]) <==> work_has(
                    wv,
                    cdv[m].path,
                ))
            &&& cands_match(cdv, idv, wv, cv)
            &&& forall|j: int|
                0 <= j < outv.len() ==> nondeferred_path(cdv, idv, wv, (#[trigger] outv[j]).path)
            &&& forall|j: int| 0 <= j < outv.len() ==> accounts_path(#[trigger] outv[j]) is None
            &&& out_paths_distinct(outv)
        }),
    ensures
        ({
            let cdv = commit_views(commit_data@);
            let idv = index_views(index_data@);
            let wv = work_views(working@);
            let outv = out_views(r.0@);
            let used = r.1@;
            let cu = r.2@;
            let cv = cand_views(cands@);
            &&& out_prefix_of(out_views(out@), outv)
            &&& used.len() == cv.len()
            &&& cu.len() == cdv.len()
            &&& forall|m: int|
                0 <= m < cdv.len() ==> ((#[trigger] cu[m]) <==> (work_has(wv, cdv[m].path) || (
                exists|k: int|
                    0 <= k < idv.len() && !index_used@[k] && (#[trigger] idv[k]).path
                        == cdv[m].path)))
            &&& forall|k: int|
                0 <= k < idv.len() && !(#[trigger] index_used@[k]) ==> has_vanished_account(
                    outv,
                    idv[k].path,
                    StageStatus::NotCommit,
                )
            &&& deferred_pending(cdv, idv, wv, outv, cv, used)
            &&& deleted_spends_cands(cdv, idv, outv, cv, used)
            &&& moved_from_cands(outv, cv, used)
            &&& out_paths_distinct(outv)
            &&& vanished_paths_distinct(outv)
            &&& moved_outputs_ok(cdv, idv, wv, outv)
            &&& forall|j: int|
                0 <= j < outv.len() ==> (nondeferred_path(cdv, idv, wv, (#[trigger] outv[j]).path)
                    || outv[j].status is Moved || (outv[j].status == StatusV::Deleted && !work_has(
                    wv,
                    outv[j].path,
                ) && index_lookup(idv, outv[j].path) is Some))
            &&& forall|j: int|
                0 <= j < outv.len() && (#[trigger] accounts_path(outv[j])) is Some ==> (!work_has(
                    wv,
                    accounts_path(outv[j]).unwrap(),
                ) && index_lookup(idv, accounts_path(outv[j]).unwrap()) is Some)
        }),
{
    let ghost cdv = commit_views(commit_data@);
    let ghost idv = index_views(index_data@);
    let ghost wv = work_views(working@);
    let ghost cv = cand_views(cands@);
    let ghost outv0 = out_views(out@);
    let mut out = out;
    let mut cand_used = cand_used;
    let mut commit_used = commit_used;
    proof {
        // nothing so far is a move: every account is still open
        assert forall|j: int|
            0 <= j < out_views(out@).len() implies moved_output_ok(
            cdv,
            idv,
            wv,
            #[trigger] out_views(out@)[j],
        ) by {
            if out_views(out@)[j].status is Moved {
                assert(accounts_path(out_views(out@)[j]) is Some);
                assert(false);
            }
        }
    }
    let mut k: usize = 0;
    while k < index_data.len()
        invariant
            0 <= k <= index_data@.len(),
            cdv == commit_views(commit_data@),
            idv == index_views(index_data@),
            wv == work_views(working@),
            cv == cand_views(cands@),
            commit_paths_unique(cdv),
            index_paths_unique(idv),
            work_paths_unique(wv),
            cands_match(cdv, idv, wv, cv),
            index_used@.len() == idv.len(),
            forall|k2: int|
                0 <= k2 < idv.len() ==> ((#[trigger] index_used@[k2]) <==> work_has(
                    wv,
                    idv[k2].path,
                )),
            cand_used@.len() == cv.len(),
            commit_used@.len() == cdv.len(),
            out_prefix_of(outv0, out_views(out@)),
            forall|m: int|
                0 <= m < cdv.len() ==> ((#[trigger] commit_used@[m]) <==> (work_has(
                    wv,
                    cdv[m].path,
                ) || (exists|k2: int|
                    0 <= k2 < k && !index_used@[k2] && (#[trigger] idv[k2]).path
                        == cdv[m].path))),
            forall|k2: int|
                0 <= k2 < k && !(#[trigger] index_used@[k2]) ==> has_vanished_account(
                    out_views(out@),
                    idv[k2].path,
                    StageStatus::NotCommit,
                ),
            deferred_pending(cdv, idv, wv, out_views(out@), cv, cand_used@),
            deleted_spends_cands(cdv, idv, out_views(out@), cv, cand_used@),
            moved_from_cands(out_views(out@), cv, cand_used@),
            out_paths_distinct(out_views(out@)),
            vanished_paths_distinct(out_views(out@)),
            moved_outputs_ok(cdv, idv, wv, out_views(out@)),
            forall|j: int|
                0 <= j < out_views(out@).len() ==> (nondeferred_path(
                    cdv,
                    idv,
                    wv,
                    (#[trigger] out_views(out@)[j]).path,
                ) || out_views(out@)[j].status is Moved || (out_views(out@)[j].status
                    == StatusV::Deleted && !work_has(wv, out_views(out@)[j].path) && index_lookup(
                    idv,
                    out_views(out@)[j].path,
                ) is Some)),
            forall|j: int|
                0 <= j < out_views(out@).len() && (#[trigger] accounts_path(
                    out_views(out@)[j],
                )) is Some ==> (exists|k2: int|
                    0 <= k2 < k && !index_used@[k2] && accounts_path(out_views(out@)[j]) == Some(
                        (#[trigger] idv[k2]).path,
                    )),
        decreases index_data@.len() - k,
    {
        if !index_used[k] {
            let q = &index_data[k];
            proof {
                assert(!work_has(wv, idv[k as int].path));
            }
            // the commit no longer needs to account for this path
            match find_commit_file(commit_data, q.path.as_slice()) {
                Some(m) => {
                    let ghost oldu = commit_used@;
                    commit_used[m] = true;
                    proof {
                        assert(commit_used@ =~= oldu.update(m as int, true));
                        assert forall|m2: int|
                            0 <= m2 < cdv.len() implies ((#[trigger] commit_used@[m2]) <==> (
                        work_has(wv, cdv[m2].path) || (exists|k2: int|
                            0 <= k2 < k + 1 && !index_used@[k2] && (#[trigger] idv[k2]).path
                                == cdv[m2].path))) by {
                            if m2 == m {
                                assert(!index_used@[k as int] && idv[k as int].path
                                    == cdv[m as int].path);
                            } else {
                                if oldu[m2] {
                                } else {
                                    if exists|k2: int|
                                        0 <= k2 < k + 1 && !index_used@[k2] && (
                                        #[trigger] idv[k2]).path == cdv[m2].path {
                                        let k2 = choose|k2: int|
                                            0 <= k2 < k + 1 && !index_used@[k2] && (
                                            #[trigger] idv[k2]).path == cdv[m2].path;
                                        if k2 == k {
                                            assert(cdv[m2].path == cdv[m as int].path);
                                            assert(false);
                                        }
                                    }
                                }
                            }
                        }
                    }
                },
                None => {
                    proof {
                        assert forall|m2: int|
                            0 <= m2 < cdv.len() implies ((#[trigger] commit_used@[m2]) <==> (
                        work_has(wv, cdv[m2].path) || (exists|k2: int|
                            0 <= k2 < k + 1 && !index_used@[k2] && (#[trigger] idv[k2]).path
                                == cdv[m2].path))) by {
                            if !commit_used@[m2] {
                                if exists|k2: int|
                                    0 <= k2 < k + 1 && !index_used@[k2] && (#[trigger] idv[k2]).path
                                        == cdv[m2].path {
                                    let k2 = choose|k2: int|
                                        0 <= k2 < k + 1 && !index_used@[k2] && (
                                        #[trigger] idv[k2]).path == cdv[m2].path;
                                    if k2 == k {
                                        lemma_commit_lookup_some(cdv, m2);
                                        assert(false);
                                    }
                                }
                            }
                        }
                    }
                },
            }
            // does an unconsumed candidate carry the same content?
            let mut cc: usize = 0;
            let mut found_c: Option<usize> = None;
            loop
                invariant_except_break
                    found_c is None,
                invariant
                    0 <= cc <= cv.len(),
                    cv == cand_views(cands@),
                    cand_used@.len() == cv.len(),
                    (k as int) < index_data@.len(),
                    idv == index_views(index_data@),
                    forall|c: int|
                        0 <= c < cc && (#[trigger] cv[c]).hash == idv[k as int].hash
                            ==> cand_used@[c],
                ensures
                    cv == cand_views(cands@),
                    match found_c {
                        Some(c) => (c as int) < cv.len() && !cand_used@[c as int]
                            && cv[c as int].hash == idv[k as int].hash,
                        None => forall|c: int|
                            0 <= c < cv.len() && (#[trigger] cv[c]).hash == idv[k as int].hash
                                ==> cand_used@[c],
                    },
                decreases cv.len() - cc,
            {
                if cc >= cands.len() {
                    break;
                }
                if !cand_used[cc] && crate::hashing::bytes_eq(
                    cands[cc].hash.as_bytes(),
                    index_data[k].hash.as_bytes(),
                ) {
                    found_c = Some(cc);
                    break;
                }
                cc = cc + 1;
            }
            let ghost oldout = out_views(out@);
            let ghost oldcu = cand_used@;
            match found_c {
                Some(c) => {
                    cand_used[c] = true;
                    out.push(
                        FileWithStatus {
                            path: slice_to_vec(cands[c].path.as_slice()),
                            status: Status::Moved { previous: slice_to_vec(q.path.as_slice()) },
                            stage_status: StageStatus::NotCommit,
                        },
                    );
                    proof {
                        assert(cand_used@ =~= oldcu.update(c as int, true));
                        let o = FileWithStatusV {
                            path: cv[c as int].path,
                            status: StatusV::Moved { previous: idv[k as int].path },
                            stage_status: StageStatus::NotCommit,
                        };
                        assert(out_views(out@) =~= oldout.push(o));
                        pass_vanished_moved_facts(
                            cdv,
                            idv,
                            wv,
                            oldout,
                            out_views(out@),
                            cv,
                            oldcu,
                            cand_used@,
                            c as int,
                            idv[k as int].path,
                            StageStatus::NotCommit,
                        );
                        assert(accounts_vanished(
                            out_views(out@)[oldout.len() as int],
                            idv[k as int].path,
                            StageStatus::NotCommit,
                        ));
                        assert(has_vanished_account(
                            out_views(out@),
                            idv[k as int].path,
                            StageStatus::NotCommit,
                        ));
                        lemma_index_lookup_self(idv, k as int);
                        // the moved output stands on the inputs
                        assert forall|i: int|
                            0 <= i < wv.len() && (#[trigger] wv[i]).path == o.path implies (
                        spec_deferred(cdv, idv, wv[i]) && spec_vanished_hash(
                            cdv,
                            idv,
                            idv[k as int].path,
                        ) == Some(spec_move_key(idv, wv[i]))) by {
                            assert(deferred_file_before(
                                cdv,
                                idv,
                                wv,
                                cv[c as int].path,
                                cv[c as int].stage,
                                cv[c as int].hash,
                                wv.len() as int,
                            ));
                            let i3 = choose|i3: int|
                                0 <= i3 < wv.len() && (#[trigger] wv[i3]).path == cv[c as int].path
                                    && spec_deferred(cdv, idv, wv[i3]) && cv[c as int].stage
                                    == spec_stage_of(idv, wv[i3]) && cv[c as int].hash
                                    == spec_move_key(idv, wv[i3]);
                            if i != i3 {
                                assert(wv[i].path == wv[i3].path);
                                assert(false);
                            }
                        }
                        assert(moved_output_ok(cdv, idv, wv, o));
                        lemma_moved_ok_push(cdv, idv, wv, oldout, out_views(out@), o);
                        assert forall|j: int|
                            0 <= j < out_views(out@).len() implies (nondeferred_path(
                            cdv,
                            idv,
                            wv,
                            (#[trigger] out_views(out@)[j]).path,
                        ) || out_views(out@)[j].status is Moved || (out_views(out@)[j].status
                            == StatusV::Deleted && !work_has(wv, out_views(out@)[j].path)
                            && index_lookup(idv, out_views(out@)[j].path) is Some)) by {
                            if j < oldout.len() {
                                assert(out_views(out@)[j] == oldout[j]);
                            } else {
                                assert(out_views(out@)[j].status is Moved);
                            }
                        }
                        // the freshly accounted path is this index entry's
                        assert forall|j: int|
                            0 <= j < out_views(out@).len() && (#[trigger] accounts_path(
                                out_views(out@)[j],
                            )) is Some implies (exists|k2: int|
                            0 <= k2 < k + 1 && !index_used@[k2] && accounts_path(
                                out_views(out@)[j],
                            ) == Some((#[trigger] idv[k2]).path)) by {
                            if j < oldout.len() {
                                let k2 = choose|k2: int|
                                    0 <= k2 < k && !index_used@[k2] && accounts_path(oldout[j])
                                        == Some((#[trigger] idv[k2]).path);
                                assert(accounts_path(out_views(out@)[j]) == Some(idv[k2].path));
                            } else {
                                assert(accounts_path(out_views(out@)[j]) == Some(
                                    idv[k as int].path,
                                ));
                            }
                        }
                    }
                },
                None => {
                    out.push(
                        FileWithStatus {
                            path: slice_to_vec(q.path.as_slice()),
                            status: Status::Deleted,
                            stage_status: StageStatus::NotCommit,
                        },
                    );
                    proof {
                        let o = FileWithStatusV {
                            path: idv[k as int].path,
                            status: StatusV::Deleted,
                            stage_status: StageStatus::NotCommit,
                        };
                        assert(out_views(out@) =~= oldout.push(o));
                        lemma_index_lookup_self(idv, k as int);
                        assert forall|j: int|
                            0 <= j < oldout.len() && (#[trigger] oldout[j]).status
                                == StatusV::Deleted implies oldout[j].path != idv[k as int].path by {
                            assert(accounts_path(oldout[j]) == Some(oldout[j].path));
                            let k2 = choose|k2: int|
                                0 <= k2 < k && !index_used@[k2] && accounts_path(oldout[j]) == Some(
                                    (#[trigger] idv[k2]).path,
                                );
                            if oldout[j].path == idv[k as int].path {
                                assert(idv[k2].path == idv[k as int].path);
                                assert(false);
                            }
                        }
                        pass_vanished_deleted_facts(
                            cdv,
                            idv,
                            wv,
                            oldout,
                            out_views(out@),
                            cv,
                            cand_used@,
                            idv[k as int].path,
                            idv[k as int].hash,
                            StageStatus::NotCommit,
                        );
                        assert(accounts_vanished(
                            out_views(out@)[oldout.len() as int],
                            idv[k as int].path,
                            StageStatus::NotCommit,
                        ));
                        assert(has_vanished_account(
                            out_views(out@),
                            idv[k as int].path,
                            StageStatus::NotCommit,
                        ));
                        assert(moved_output_ok(cdv, idv, wv, o));
                        lemma_moved_ok_push(cdv, idv, wv, oldout, out_views(out@), o);
                        assert forall|j: int|
                            0 <= j < out_views(out@).len() implies (nondeferred_path(
                            cdv,
                            idv,
                            wv,
                            (#[trigger] out_views(out@)[j]).path,
                        ) || out_views(out@)[j].status is Moved || (out_views(out@)[j].status
                            == StatusV::Deleted && !work_has(wv, out_views(out@)[j].path)
                            && index_lookup(idv, out_views(out@)[j].path) is Some)) by {
                            if j < oldout.len() {
                                assert(out_views(out@)[j] == oldout[j]);
                            }
                        }
                        assert forall|j: int|
                            0 <= j < out_views(out@).len() && (#[trigger] accounts_path(
                                out_views(out@)[j],
                            )) is Some implies (exists|k2: int|
                            0 <= k2 < k + 1 && !index_used@[k2] && accounts_path(
                                out_views(out@)[j],
                            ) == Some((#[trigger] idv[k2]).path)) by {
                            if j < oldout.len() {
                                let k2 = choose|k2: int|
                                    0 <= k2 < k && !index_used@[k2] && accounts_path(oldout[j])
                                        == Some((#[trigger] idv[k2]).path);
                                assert(accounts_path(out_views(out@)[j]) == Some(idv[k2].path));
                            } else {
                                assert(accounts_path(out_views(out@)[j]) == Some(
                                    idv[k as int].path,
                                ));
                            }
                        }
                    }
                },
            }
            proof {
                // the vanished paths stay pairwise distinct: the new account
                // names entry `k`, the old ones name earlier entries
                assert forall|j1: int, j2: int|
                    0 <= j1 < j2 < out_views(out@).len() && (#[trigger] accounts_path(
                        out_views(out@)[j1],
                    )) is Some implies accounts_path(out_views(out@)[j1]) != #[trigger] accounts_path(
                    out_views(out@)[j2],
                ) by {
                    if j2 == oldout.len() {
                        if accounts_path(out_views(out@)[j1]) == accounts_path(
                            out_views(out@)[j2],
                        ) {
                            let k2 = choose|k2: int|
                                0 <= k2 < k && !index_used@[k2] && accounts_path(oldout[j1])
                                    == Some((#[trigger] idv[k2]).path);
                            assert(idv[k2].path == idv[k as int].path);
                            assert(false);
                        }
                    } else {
                        assert(out_views(out@)[j1] == oldout[j1] && out_views(out@)[j2]
                            == oldout[j2]);
                    }
                }
                // earlier vanished accounts persist
                assert forall|k2: int|
                    0 <= k2 < k + 1 && !(#[trigger] index_used@[k2]) implies has_vanished_account(
                    out_views(out@),
                    idv[k2].path,
                    StageStatus::NotCommit,
                ) by {
                    if k2 < k {
                        lemma_prefix_keeps_vanished(
                            oldout,
                            out_views(out@),
                            idv[k2].path,
                            StageStatus::NotCommit,
                        );
                    }
                }
            }
        } else {
            proof {
                assert forall|k2: int|
                    0 <= k2 < k + 1 && !(#[trigger] index_used@[k2]) implies has_vanished_account(
                    out_views(out@),
                    idv[k2].path,
                    StageStatus::NotCommit,
                ) by {
                    assert(k2 < k || index_used@[k2]);
                }
                assert forall|m2: int|
                    0 <= m2 < cdv.len() implies ((#[trigger] commit_used@[m2]) <==> (work_has(
                    wv,
                    cdv[m2].path,
                ) || (exists|k2: int|
                    0 <= k2 < k + 1 && !index_used@[k2] && (#[trigger] idv[k2]).path
                        == cdv[m2].path))) by {
                    if !commit_used@[m2] {
                        if exists|k2: int|
                            0 <= k2 < k + 1 && !index_used@[k2] && (#[trigger] idv[k2]).path
                                == cdv[m2].path {
                            let k2 = choose|k2: int|
                                0 <= k2 < k + 1 && !index_used@[k2] && (#[trigger] idv[k2]).path
                                    == cdv[m2].path;
                            assert(k2 < k || index_used@[k2]);
                        }
                    }
                }
            }
        }
        k = k + 1;
    }
    proof {
        assert forall|j: int|
            0 <= j < out_views(out@).len() && (#[trigger] accounts_path(
                out_views(out@)[j],
            )) is Some implies (!work_has(wv, accounts_path(out_views(out@)[j]).unwrap())
            && index_lookup(idv, accounts_path(out_views(out@)[j]).unwrap()) is Some) by {
            let k2 = choose|k2: int|
                0 <= k2 < k && !index_used@[k2] && accounts_path(out_views(out@)[j]) == Some(
                    (#[trigger] idv[k2]).path,
                );
            lemma_index_lookup_some(idv, k2);
        }
    }
    (out, cand_used, commit_used)
}


/// A found index path has a record.
proof fn lemma_index_lookup_exists(id: Seq<IndexFileV>, p: Seq<u8>)
    requires
        index_lookup(id, p) is Some,
    ensures
        exists|k: int| 0 <= k < id.len() && (#[trigger] id[k]).path == p,
    decreases id.len(),
{
    if id.len() > 0 {
        if id[0].path == p {
            assert(id[0].path == p);
        } else {
            lemma_index_lookup_exists(id.skip(1), p);
            let k = choose|k: int| 0 <= k < id.skip(1).len() && (#[trigger] id.skip(1)[k]).path == p;
            assert(id[k + 1].path == p);
        }
    }
}

/// The third pass: every commit path absent from both the working tree and
/// the index is the previous name of a move or a deletion, both already
/// staged.
fn pass_commit_only(
    commit_data: &Vec<CommitFile>,
    index_data: &Vec<IndexFile>,
    working: &Vec<FileData>,
    out: Vec<FileWithStatus>,
    cands: &Vec<MovedCand>,
    cand_used: Vec<bool>,
    index_used: &Vec<bool>,
    commit_used: &Vec<bool>,
) -> (r: (Vec<FileWithStatus>, Vec<bool>))
    requires
        ({
            let cdv = commit_views(commit_data@);
            let idv = index_views(index_data@);
            let wv = work_views(working@);
            let outv = out_views(out@);
            let cv = cand_views(cands@);
            &&& commit_paths_unique(cdv)
            &&& index_paths_unique(idv)
            &&& work_paths_unique(wv)
            &&& cand_used@.len() == cv.len()
            &&& index_used@.len() == idv.len()
            &&& forall|k: int|
                0 <= k < idv.len() ==> ((#[trigger] index_used@[k]) <==> work_has(wv, idv[k].path))
            &&& commit_used@.len() == cdv.len()
            &&& forall|m: int|
                0 <= m < cdv.len() ==> ((#[trigger] commit_used@[m]) <==> (work_has(
                    wv,
                    cdv[m].path,
                ) || (exists|k: int|
                    0 <= k < idv.len() && !index_used@[k] && (#[trigger] idv[k]).path
                        == cdv[m].path)))
            &&& cands_match(cdv, idv, wv, cv)
            &&& deferred_pending(cdv, idv, wv, outv, cv, cand_used@)
            &&& deleted_spends_cands(cdv, idv, outv, cv, cand_used@)
            &&& moved_from_cands(outv, cv, cand_used@)
            &&& out_paths_distinct(outv)
            &&& vanished_paths_distinct(outv)
            &&& moved_outputs_ok(cdv, idv, wv, outv)
            &&& forall|j: int|
                0 <= j < outv.len() ==> (nondeferred_path(cdv, idv, wv, (#[trigger] outv[j]).path)
                    || outv[j].status is Moved || (outv[j].status == StatusV::Deleted && !work_has(
                    wv,
                    outv[j].path,
                ) && index_lookup(idv, outv[j].path) is Some))
            &&& forall|j: int|
                0 <= j < outv.len() && (#[trigger] accounts_path(outv[j])) is Some ==> (!work_has(
                    wv,
                    accounts_path(outv[j]).unwrap(),
                ) && index_lookup(idv, accounts_path(outv[j]).unwrap()) is Some)
        }),
    ensures
        ({
            let cdv = commit_views(commit_data@);
            let idv = index_views(index_data@);
            let wv = work_views(working@);
            let outv = out_views(r.0@);
            let used = r.1@;
            let cv = cand_views(cands@);
            &&& out_prefix_of(out_views(out@), outv)
            &&& used.len() == cv.len()
            &&& forall|m: int|
                0 <= m < cdv.len() && !work_has(wv, (#[trigger] cdv[m]).path) && index_lookup(
                    idv,
                    cdv[m].path,
                ) is None ==> has_vanished_account(outv, cdv[m].path, StageStatus::Commit)
            &&& deferred_pending(cdv, idv, wv, outv, cv, used)
            &&& deleted_spends_cands(cdv, idv, outv, cv, used)
            &&& moved_from_cands(outv, cv, used)
            &&& out_paths_distinct(outv)
            &&& vanished_paths_distinct(outv)
            &&& moved_outputs_ok(cdv, idv, wv, outv)
            &&& forall|j: int|
                0 <= j < outv.len() ==> (nondeferred_path(cdv, idv, wv, (#[trigger] outv[j]).path)
                    || outv[j].status is Moved || (outv[j].status == StatusV::Deleted && !work_has(
                    wv,
                    outv[j].path,
                ) && (index_lookup(idv, outv[j].path) is Some || commit_lookup(
                    cdv,
                    outv[j].path,
                ) is Some)))
        }),
{
    let ghost cdv = commit_views(commit_data@);
    let ghost idv = index_views(index_data@);
    let ghost wv = work_views(working@);
    let ghost cv = cand_views(cands@);
    let ghost outv0 = out_views(out@);
    let mut out = out;
    let mut cand_used = cand_used;
    let mut m: usize = 0;
    while m < commit_data.len()
        invariant
            0 <= m <= commit_data@.len(),
            cdv == commit_views(commit_data@),
            idv == index_views(index_data@),
            wv == work_views(working@),
            cv == cand_views(cands@),
            commit_paths_unique(cdv),
            index_paths_unique(idv),
            work_paths_unique(wv),
            cands_match(cdv, idv, wv, cv),
            index_used@.len() == idv.len(),
            forall|k: int|
                0 <= k < idv.len() ==> ((#[trigger] index_used@[k]) <==> work_has(
                    wv,
                    idv[k].path,
                )),
            commit_used@.len() == cdv.len(),
            forall|m2: int|
                0 <= m2 < cdv.len() ==> ((#[trigger] commit_used@[m2]) <==> (work_has(
                    wv,
                    cdv[m2].path,
                ) || (exists|k: int|
                    0 <= k < idv.len() && !index_used@[k] && (#[trigger] idv[k]).path
                        == cdv[m2].path))),
            cand_used@.len() == cv.len(),
            out_prefix_of(outv0, out_views(out@)),
            forall|m2: int|
                0 <= m2 < m && !(#[trigger] commit_used@[m2]) ==> has_vanished_account(
                    out_views(out@),
                    cdv[m2].path,
                    StageStatus::Commit,
                ),
            deferred_pending(cdv, idv, wv, out_views(out@), cv, cand_used@),
            deleted_spends_cands(cdv, idv, out_views(out@), cv, cand_used@),
            moved_from_cands(out_views(out@), cv, cand_used@),
            out_paths_distinct(out_views(out@)),
            vanished_paths_distinct(out_views(out@)),
            moved_outputs_ok(cdv, idv, wv, out_views(out@)),
            forall|j: int|
                0 <= j < out_views(out@).len() ==> (nondeferred_path(
                    cdv,
                    idv,
                    wv,
                    (#[trigger] out_views(out@)[j]).path,
                ) || out_views(out@)[j].status is Moved || (out_views(out@)[j].status
                    == StatusV::Deleted && !work_has(wv, out_views(out@)[j].path) && (index_lookup(
                    idv,
                    out_views(out@)[j].path,
                ) is Some || commit_lookup(cdv, out_views(out@)[j].path) is Some))),
            forall|j: int|
                0 <= j < out_views(out@).len() && (#[trigger] accounts_path(
                    out_views(out@)[j],
                )) is Some ==> ((!work_has(wv, accounts_path(out_views(out@)[j]).unwrap())
                    && index_lookup(
                    idv,
                    accounts_path(out_views(out@)[j]).unwrap(),
                ) is Some) || (exists|m2: int|
                    0 <= m2 < m && !commit_used@[m2] && accounts_path(out_views(out@)[j]) == Some(
                        (#[trigger] cdv[m2]).path,
                    ))),
        decreases commit_data@.len() - m,
    {
        if !commit_used[m] {
            let q = &commit_data[m];
            proof {
                assert(!work_has(wv, cdv[m as int].path));
                if index_lookup(idv, cdv[m as int].path) is Some {
                    lemma_index_lookup_exists(idv, cdv[m as int].path);
                    let k = choose|k: int|
                        0 <= k < idv.len() && (#[trigger] idv[k]).path == cdv[m as int].path;
                    assert(index_used@[k] <==> work_has(wv, idv[k].path));
                    assert(false);
                }
                assert(index_lookup(idv, cdv[m as int].path) is None);
                lemma_commit_lookup_self(cdv, m as int);
            }
            let mut cc: usize = 0;
            let mut found_c: Option<usize> = None;
            loop
                invariant_except_break
                    found_c is None,
                invariant
                    0 <= cc <= cv.len(),
                    cv == cand_views(cands@),
                    cand_used@.len() == cv.len(),
                    (m as int) < commit_data@.len(),
                    cdv == commit_views(commit_data@),
                    forall|c: int|
                        0 <= c < cc && (#[trigger] cv[c]).hash == cdv[m as int].hash
                            ==> cand_used@[c],
                ensures
                    cv == cand_views(cands@),
                    match found_c {
                        Some(c) => (c as int) < cv.len() && !cand_used@[c as int]
                            && cv[c as int].hash == cdv[m as int].hash,
                        None => forall|c: int|
                            0 <= c < cv.len() && (#[trigger] cv[c]).hash == cdv[m as int].hash
                                ==> cand_used@[c],
                    },
                decreases cv.len() - cc,
            {
                if cc >= cands.len() {
                    break;
                }
                if !cand_used[cc] && crate::hashing::bytes_eq(
                    cands[cc].hash.as_bytes(),
                    commit_data[m].hash.as_bytes(),
                ) {
                    found_c = Some(cc);
                    break;
                }
                cc = cc + 1;
            }
            let ghost oldout = out_views(out@);
            let ghost oldcu = cand_used@;
            match found_c {
                Some(c) => {
                    cand_used[c] = true;
                    out.push(
                        FileWithStatus {
                            path: slice_to_vec(cands[c].path.as_slice()),
                            status: Status::Moved { previous: slice_to_vec(q.path.as_slice()) },
                            stage_status: StageStatus::Commit,
                        },
                    );
                    proof {
                        assert(cand_used@ =~= oldcu.update(c as int, true));
                        let o = FileWithStatusV {
                            path: cv[c as int].path,
                            status: StatusV::Moved { previous: cdv[m as int].path },
                            stage_status: StageStatus::Commit,
                        };
                        assert(out_views(out@) =~= oldout.push(o));
                        pass_vanished_moved_facts(
                            cdv,
                            idv,
                            wv,
                            oldout,
                            out_views(out@),
                            cv,
                            oldcu,
                            cand_used@,
                            c as int,
                            cdv[m as int].path,
                            StageStatus::Commit,
                        );
                        assert(accounts_vanished(
                            out_views(out@)[oldout.len() as int],
                            cdv[m as int].path,
                            StageStatus::Commit,
                        ));
                        assert(has_vanished_account(
                            out_views(out@),
                            cdv[m as int].path,
                            StageStatus::Commit,
                        ));
                        // the moved output stands on the inputs
                        assert forall|i: int|
                            0 <= i < wv.len() && (#[trigger] wv[i]).path == o.path implies (
                        spec_deferred(cdv, idv, wv[i]) && spec_vanished_hash(
                            cdv,
                            idv,
                            cdv[m as int].path,
                        ) == Some(spec_move_key(idv, wv[i]))) by {
                            assert(deferred_file_before(
                                cdv,
                                idv,
                                wv,
                                cv[c as int].path,
                                cv[c as int].stage,
                                cv[c as int].hash,
                                wv.len() as int,
                            ));
                            let i3 = choose|i3: int|
                                0 <= i3 < wv.len() && (#[trigger] wv[i3]).path == cv[c as int].path
                                    && spec_deferred(cdv, idv, wv[i3]) && cv[c as int].stage
                                    == spec_stage_of(idv, wv[i3]) && cv[c as int].hash
                                    == spec_move_key(idv, wv[i3]);
                            if i != i3 {
                                assert(wv[i].path == wv[i3].path);
                                assert(false);
                            }
                        }
                        assert(moved_output_ok(cdv, idv, wv, o));
                        lemma_moved_ok_push(cdv, idv, wv, oldout, out_views(out@), o);
                        assert forall|j: int|
                            0 <= j < out_views(out@).len() implies (nondeferred_path(
                            cdv,
                            idv,
                            wv,
                            (#[trigger] out_views(out@)[j]).path,
                        ) || out_views(out@)[j].status is Moved || (out_views(out@)[j].status
                            == StatusV::Deleted && !work_has(wv, out_views(out@)[j].path) && (
                        index_lookup(idv, out_views(out@)[j].path) is Some || commit_lookup(
                            cdv,
                            out_views(out@)[j].path,
                        ) is Some))) by {
                            if j < oldout.len() {
                                assert(out_views(out@)[j] == oldout[j]);
                            } else {
                                assert(out_views(out@)[j].status is Moved);
                            }
                        }
                        assert forall|j: int|
                            0 <= j < out_views(out@).len() && (#[trigger] accounts_path(
                                out_views(out@)[j],
                            )) is Some implies ((!work_has(
                            wv,
                            accounts_path(out_views(out@)[j]).unwrap(),
                        ) && index_lookup(
                            idv,
                            accounts_path(out_views(out@)[j]).unwrap(),
                        ) is Some) || (exists|m2: int|
                            0 <= m2 < m + 1 && !commit_used@[m2] && accounts_path(
                                out_views(out@)[j],
                            ) == Some((#[trigger] cdv[m2]).path))) by {
                            if j < oldout.len() {
                                assert(out_views(out@)[j] == oldout[j]);
                            } else {
                                assert(accounts_path(out_views(out@)[j]) == Some(
                                    cdv[m as int].path,
                                ));
                            }
                        }
                    }
                },
                None => {
                    out.push(
                        FileWithStatus {
                            path: slice_to_vec(q.path.as_slice()),
                            status: Status::Deleted,
                            stage_status: StageStatus::Commit,
                        },
                    );
                    proof {
                        let o = FileWithStatusV {
                            path: cdv[m as int].path,
                            status: StatusV::Deleted,
                            stage_status: StageStatus::Commit,
                        };
                        assert(out_views(out@) =~= oldout.push(o));
                        assert forall|j: int|
                            0 <= j < oldout.len() && (#[trigger] oldout[j]).status
                                == StatusV::Deleted implies oldout[j].path
                            != cdv[m as int].path by {
                            assert(accounts_path(oldout[j]) == Some(oldout[j].path));
                            if oldout[j].path == cdv[m as int].path {
                                if index_lookup(idv, accounts_path(oldout[j]).unwrap()) is Some {
                                    assert(false);
                                } else {
                                    let m2 = choose|m2: int|
                                        0 <= m2 < m && !commit_used@[m2] && accounts_path(
                                            oldout[j],
                                        ) == Some((#[trigger] cdv[m2]).path);
                                    assert(cdv[m2].path == cdv[m as int].path);
                                    assert(false);
                                }
                            }
                        }
                        pass_vanished_deleted_facts(
                            cdv,
                            idv,
                            wv,
                            oldout,
                            out_views(out@),
                            cv,
                            cand_used@,
                            cdv[m as int].path,
                            cdv[m as int].hash,
                            StageStatus::Commit,
                        );
                        assert(accounts_vanished(
                            out_views(out@)[oldout.len() as int],
                            cdv[m as int].path,
                            StageStatus::Commit,
                        ));
                        assert(has_vanished_account(
                            out_views(out@),
                            cdv[m as int].path,
                            StageStatus::Commit,
                        ));
                        assert(moved_output_ok(cdv, idv, wv, o));
                        lemma_moved_ok_push(cdv, idv, wv, oldout, out_views(out@), o);
                        assert forall|j: int|
                            0 <= j < out_views(out@).len() implies (nondeferred_path(
                            cdv,
                            idv,
                            wv,
                            (#[trigger] out_views(out@)[j]).path,
                        ) || out_views(out@)[j].status is Moved || (out_views(out@)[j].status
                            == StatusV::Deleted && !work_has(wv, out_views(out@)[j].path) && (
                        index_lookup(idv, out_views(out@)[j].path) is Some || commit_lookup(
                            cdv,
                            out_views(out@)[j].path,
                        ) is Some))) by {
                            if j < oldout.len() {
                                assert(out_views(out@)[j] == oldout[j]);
                            }
                        }
                        assert forall|j: int|
                            0 <= j < out_views(out@).len() && (#[trigger] accounts_path(
                                out_views(out@)[j],
                            )) is Some implies ((!work_has(
                            wv,
                            accounts_path(out_views(out@)[j]).unwrap(),
                        ) && index_lookup(
                            idv,
                            accounts_path(out_views(out@)[j]).unwrap(),
                        ) is Some) || (exists|m2: int|
                            0 <= m2 < m + 1 && !commit_used@[m2] && accounts_path(
                                out_views(out@)[j],
                            ) == Some((#[trigger] cdv[m2]).path))) by {
                            if j < oldout.len() {
                                assert(out_views(out@)[j] == oldout[j]);
                            } else {
                                assert(accounts_path(out_views(out@)[j]) == Some(
                                    cdv[m as int].path,
                                ));
                            }
                        }
                    }
                },
            }
            proof {
                // the vanished paths stay pairwise distinct
                assert forall|j1: int, j2: int|
                    0 <= j1 < j2 < out_views(out@).len() && (#[trigger] accounts_path(
                        out_views(out@)[j1],
                    )) is Some implies accounts_path(out_views(out@)[j1])
                    != #[trigger] accounts_path(out_views(out@)[j2]) by {
                    if j2 == oldout.len() {
                        if accounts_path(out_views(out@)[j1]) == accounts_path(
                            out_views(out@)[j2],
                        ) {
                            assert(accounts_path(oldout[j1]) == Some(cdv[m as int].path));
                            if index_lookup(idv, accounts_path(oldout[j1]).unwrap()) is Some {
                                assert(false);
                            } else {
                                let m2 = choose|m2: int|
                                    0 <= m2 < m && !commit_used@[m2] && accounts_path(oldout[j1])
                                        == Some((#[trigger] cdv[m2]).path);
                                assert(cdv[m2].path == cdv[m as int].path);
                                assert(false);
                            }
                        }
                    } else {
                        assert(out_views(out@)[j1] == oldout[j1] && out_views(out@)[j2]
                            == oldout[j2]);
                    }
                }
                // earlier vanished accounts persist
                assert forall|m2: int|
                    0 <= m2 < m + 1 && !(#[trigger] commit_used@[m2]) implies has_vanished_account(
                    out_views(out@),
                    cdv[m2].path,
                    StageStatus::Commit,
                ) by {
                    if m2 < m {
                        lemma_prefix_keeps_vanished(
                            oldout,
                            out_views(out@),
                            cdv[m2].path,
                            StageStatus::Commit,
                        );
                    }
                }
            }
        } else {
            proof {
                assert forall|m2: int|
                    0 <= m2 < m + 1 && !(#[trigger] commit_used@[m2]) implies has_vanished_account(
                    out_views(out@),
                    cdv[m2].path,
                    StageStatus::Commit,
                ) by {
                    assert(m2 < m || commit_used@[m2]);
                }
            }
        }
        m = m + 1;
    }
    proof {
        assert forall|m2: int|
            0 <= m2 < cdv.len() && !work_has(wv, (#[trigger] cdv[m2]).path) && index_lookup(
                idv,
                cdv[m2].path,
            ) is None implies has_vanished_account(
            out_views(out@),
            cdv[m2].path,
            StageStatus::Commit,
        ) by {
            if commit_used@[m2] {
                let k = choose|k: int|
                    0 <= k < idv.len() && !index_used@[k] && (#[trigger] idv[k]).path
                        == cdv[m2].path;
                lemma_index_lookup_some(idv, k);
                assert(false);
            }
        }
    }
    (out, cand_used)
}


/// The last pass: a deferred file whose content matched no vanished path is
/// genuinely new, under the stage its candidate recorded.
fn pass_new(
    commit_data: &Vec<CommitFile>,
    index_data: &Vec<IndexFile>,
    working: &Vec<FileData>,
    out: Vec<FileWithStatus>,
    cands: &Vec<MovedCand>,
    cand_used: &Vec<bool>,
) -> (r: Vec<FileWithStatus>)
    requires
        ({
            let cdv = commit_views(commit_data@);
            let idv = index_views(index_data@);
            let wv = work_views(working@);
            let outv = out_views(out@);
            let cv = cand_views(cands@);
            &&& commit_paths_unique(cdv)
            &&& index_paths_unique(idv)
            &&& work_paths_unique(wv)
            &&& cand_used@.len() == cv.len()
            &&& cands_match(cdv, idv, wv, cv)
            &&& deferred_pending(cdv, idv, wv, outv, cv, cand_used@)
            &&& deleted_spends_cands(cdv, idv, outv, cv, cand_used@)
            &&& moved_from_cands(outv, cv, cand_used@)
            &&& out_paths_distinct(outv)
            &&& vanished_paths_distinct(outv)
            &&& moved_outputs_ok(cdv, idv, wv, outv)
            &&& forall|j: int|
                0 <= j < outv.len() ==> (nondeferred_path(cdv, idv, wv, (#[trigger] outv[j]).path)
                    || outv[j].status is Moved || (outv[j].status == StatusV::Deleted && !work_has(
                    wv,
                    outv[j].path,
                ) && (index_lookup(idv, outv[j].path) is Some || commit_lookup(
                    cdv,
                    outv[j].path,
                ) is Some)))
        }),
    ensures
        ({
            let cdv = commit_views(commit_data@);
            let idv = index_views(index_data@);
            let wv = work_views(working@);
            let outv = out_views(r@);
            let cv = cand_views(cands@);
            &&& out_prefix_of(out_views(out@), outv)
            &&& forall|i: int|
                #![trigger wv[i]]
                0 <= i < wv.len() && spec_deferred(cdv, idv, wv[i]) ==> has_settling(
                    outv,
                    idv,
                    wv[i],
                )
            &&& deleted_spends_cands(cdv, idv, outv, cv, cand_used@)
            &&& moved_from_cands(outv, cv, cand_used@)
            &&& out_paths_distinct(outv)
            &&& vanished_paths_distinct(outv)
            &&& moved_outputs_ok(cdv, idv, wv, outv)
            &&& forall|j: int|
                0 <= j < outv.len() ==> (nondeferred_path(cdv, idv, wv, (#[trigger] outv[j]).path)
                    || outv[j].status is Moved || (outv[j].status == StatusV::Deleted && !work_has(
                    wv,
                    outv[j].path,
                ) && (index_lookup(idv, outv[j].path) is Some || commit_lookup(
                    cdv,
                    outv[j].path,
                ) is Some)) || (outv[j].status == StatusV::New && exists|c: int|
                    0 <= c < cv.len() && !cand_used@[c] && (#[trigger] cv[c]).path
                        == outv[j].path))
        }),
{
    let ghost cdv = commit_views(commit_data@);
    let ghost idv = index_views(index_data@);
    let ghost wv = work_views(working@);
    let ghost cv = cand_views(cands@);
    let ghost outv0 = out_views(out@);
    let mut out = out;
    let mut c: usize = 0;
    while c < cands.len()
        invariant
            0 <= c <= cands@.len(),
            cdv == commit_views(commit_data@),
            idv == index_views(index_data@),
            wv == work_views(working@),
            cv == cand_views(cands@),
            commit_paths_unique(cdv),
            index_paths_unique(idv),
            work_paths_unique(wv),
            cands_match(cdv, idv, wv, cv),
            cand_used@.len() == cv.len(),
            out_prefix_of(outv0, out_views(out@)),
            forall|i: int|
                #![trigger wv[i]]
                0 <= i < wv.len() && spec_deferred(cdv, idv, wv[i]) ==> (has_settling(
                    out_views(out@),
                    idv,
                    wv[i],
                ) || (exists|c2: int|
                    c <= c2 < cv.len() && !cand_used@[c2] && (#[trigger] cv[c2]).path == wv[i].path
                        && cv[c2].stage == spec_stage_of(idv, wv[i]) && cv[c2].hash
                        == spec_move_key(idv, wv[i]))),
            deleted_spends_cands(cdv, idv, out_views(out@), cv, cand_used@),
            moved_from_cands(out_views(out@), cv, cand_used@),
            out_paths_distinct(out_views(out@)),
            vanished_paths_distinct(out_views(out@)),
            moved_outputs_ok(cdv, idv, wv, out_views(out@)),
            forall|j: int|
                0 <= j < out_views(out@).len() ==> (nondeferred_path(
                    cdv,
                    idv,
                    wv,
                    (#[trigger] out_views(out@)[j]).path,
                ) || out_views(out@)[j].status is Moved || (out_views(out@)[j].status
                    == StatusV::Deleted && !work_has(wv, out_views(out@)[j].path) && (index_lookup(
                    idv,
                    out_views(out@)[j].path,
                ) is Some || commit_lookup(cdv, out_views(out@)[j].path) is Some)) || (out_views(
                    out@,
                )[j].status == StatusV::New && exists|c2: int|
                    0 <= c2 < c && !cand_used@[c2] && (#[trigger] cv[c2]).path == out_views(
                        out@,
                    )[j].path)),
        decreases cands@.len() - c,
    {
        let ghost oldout = out_views(out@);
        if !cand_used[c] {
            out.push(
                FileWithStatus {
                    path: slice_to_vec(cands[c].path.as_slice()),
                    status: Status::New,
                    stage_status: cands[c].stage,
                },
            );
            proof {
                let o = FileWithStatusV {
                    path: cv[c as int].path,
                    status: StatusV::New,
                    stage_status: cv[c as int].stage,
                };
                assert(out_views(out@) =~= oldout.push(o));
                assert(moved_output_ok(cdv, idv, wv, o));
                lemma_moved_ok_push(cdv, idv, wv, oldout, out_views(out@), o);
                assert(deferred_file_before(
                    cdv,
                    idv,
                    wv,
                    cv[c as int].path,
                    cv[c as int].stage,
                    cv[c as int].hash,
                    wv.len() as int,
                ));
                let ic = choose|ic: int|
                    0 <= ic < wv.len() && (#[trigger] wv[ic]).path == cv[c as int].path
                        && spec_deferred(cdv, idv, wv[ic]) && cv[c as int].stage == spec_stage_of(
                        idv,
                        wv[ic],
                    ) && cv[c as int].hash == spec_move_key(idv, wv[ic]);
                assert(work_has(wv, cv[c as int].path));
                // the fresh output clashes with no earlier path
                assert forall|j1: int, j2: int|
                    0 <= j1 < j2 < out_views(out@).len() implies (#[trigger] out_views(
                    out@,
                )[j1]).path != (#[trigger] out_views(out@)[j2]).path by {
                    if j2 == oldout.len() {
                        if out_views(out@)[j1].path == cv[c as int].path {
                            if nondeferred_path(cdv, idv, wv, oldout[j1].path) {
                                let i2 = choose|i2: int|
                                    0 <= i2 < wv.len() && (#[trigger] wv[i2]).path
                                        == oldout[j1].path && !spec_deferred(cdv, idv, wv[i2]);
                                assert(wv[i2].path == wv[ic].path);
                                assert(false);
                            } else if oldout[j1].status is Moved {
                                let c2 = choose|c2: int|
                                    0 <= c2 < cv.len() && cand_used@[c2] && (
                                    #[trigger] cv[c2]).path == oldout[j1].path;
                                assert(c2 != c);
                                assert(false);
                            } else if oldout[j1].status == StatusV::Deleted {
                                assert(!work_has(wv, oldout[j1].path));
                                assert(false);
                            } else {
                                let c2 = choose|c2: int|
                                    0 <= c2 < c && !cand_used@[c2] && (#[trigger] cv[c2]).path
                                        == oldout[j1].path;
                                assert(c2 != c);
                                assert(false);
                            }
                        }
                    } else {
                        assert(out_views(out@)[j1] == oldout[j1] && out_views(out@)[j2]
                            == oldout[j2]);
                    }
                }
                // the settled set grows by the files of this candidate
                assert forall|i2: int|
                    #![trigger wv[i2]]
                    0 <= i2 < wv.len() && spec_deferred(cdv, idv, wv[i2]) implies (has_settling(
                    out_views(out@),
                    idv,
                    wv[i2],
                ) || (exists|c2: int|
                    c + 1 <= c2 < cv.len() && !cand_used@[c2] && (#[trigger] cv[c2]).path
                        == wv[i2].path && cv[c2].stage == spec_stage_of(idv, wv[i2])
                        && cv[c2].hash == spec_move_key(idv, wv[i2]))) by {
                    if has_settling(oldout, idv, wv[i2]) {
                        assert(out_prefix_of(oldout, out_views(out@)));
                        lemma_prefix_keeps_settling(oldout, out_views(out@), idv, wv[i2]);
                    } else {
                        let c2 = choose|c2: int|
                            c <= c2 < cv.len() && !cand_used@[c2] && (#[trigger] cv[c2]).path
                                == wv[i2].path && cv[c2].stage == spec_stage_of(idv, wv[i2])
                                && cv[c2].hash == spec_move_key(idv, wv[i2]);
                        if c2 == c {
                            assert(o.path == wv[i2].path);
                            assert(o.stage_status == spec_stage_of(idv, wv[i2]));
                            assert(settles_deferred(o, idv, wv[i2]));
                            assert(settles_deferred(
                                out_views(out@)[oldout.len() as int],
                                idv,
                                wv[i2],
                            ));
                        }
                    }
                }
                // vanished accounts are untouched: the new output accounts
                // for nothing
                assert forall|j1: int, j2: int|
                    0 <= j1 < j2 < out_views(out@).len() && (#[trigger] accounts_path(
                        out_views(out@)[j1],
                    )) is Some implies accounts_path(out_views(out@)[j1])
                    != #[trigger] accounts_path(out_views(out@)[j2]) by {
                    if j2 == oldout.len() {
                        assert(accounts_path(out_views(out@)[j2]) is None);
                    } else {
                        assert(out_views(out@)[j1] == oldout[j1] && out_views(out@)[j2]
                            == oldout[j2]);
                    }
                }
                // the other invariants see only appended entries
                assert forall|j: int, c2: int|
                    0 <= j < out_views(out@).len() && 0 <= c2 < cv.len() && (#[trigger] out_views(
                        out@,
                    )[j]).status == StatusV::Deleted && Some((#[trigger] cv[c2]).hash)
                        == spec_vanished_hash(cdv, idv, out_views(out@)[j].path) implies cand_used@[c2] by {
                    if j < oldout.len() {
                        assert(out_views(out@)[j] == oldout[j]);
                    }
                }
                assert forall|j: int|
                    0 <= j < out_views(out@).len() && (#[trigger] out_views(out@)[j]).status
                        is Moved implies (exists|c2: int|
                    0 <= c2 < cv.len() && cand_used@[c2] && (#[trigger] cv[c2]).path == out_views(
                        out@,
                    )[j].path) by {
                    if j < oldout.len() {
                        assert(out_views(out@)[j] == oldout[j]);
                        let c2 = choose|c2: int|
                            0 <= c2 < cv.len() && cand_used@[c2] && (#[trigger] cv[c2]).path
                                == oldout[j].path;
                        assert(cand_used@[c2] && cv[c2].path == out_views(out@)[j].path);
                    }
                }
                assert forall|j: int|
                    0 <= j < out_views(out@).len() implies (nondeferred_path(
                    cdv,
                    idv,
                    wv,
                    (#[trigger] out_views(out@)[j]).path,
                ) || out_views(out@)[j].status is Moved || (out_views(out@)[j].status
                    == StatusV::Deleted && !work_has(wv, out_views(out@)[j].path) && (index_lookup(
                    idv,
                    out_views(out@)[j].path,
                ) is Some || commit_lookup(cdv, out_views(out@)[j].path) is Some)) || (out_views(
                    out@,
                )[j].status == StatusV::New && exists|c2: int|
                    0 <= c2 < c + 1 && !cand_used@[c2] && (#[trigger] cv[c2]).path == out_views(
                        out@,
                    )[j].path)) by {
                    if j < oldout.len() {
                        assert(out_views(out@)[j] == oldout[j]);
                    } else {
                        assert(out_views(out@)[j].status == StatusV::New);
                        assert(!cand_used@[c as int] && cv[c as int].path == out_views(
                            out@,
                        )[j].path);
                    }
                }
            }
        } else {
            proof {
                assert forall|i2: int|
                    #![trigger wv[i2]]
                    0 <= i2 < wv.len() && spec_deferred(cdv, idv, wv[i2]) implies (has_settling(
                    out_views(out@),
                    idv,
                    wv[i2],
                ) || (exists|c2: int|
                    c + 1 <= c2 < cv.len() && !cand_used@[c2] && (#[trigger] cv[c2]).path
                        == wv[i2].path && cv[c2].stage == spec_stage_of(idv, wv[i2])
                        && cv[c2].hash == spec_move_key(idv, wv[i2]))) by {
                    if !has_settling(out_views(out@), idv, wv[i2]) {
                        let c2 = choose|c2: int|
                            c <= c2 < cv.len() && !cand_used@[c2] && (#[trigger] cv[c2]).path
                                == wv[i2].path && cv[c2].stage == spec_stage_of(idv, wv[i2])
                                && cv[c2].hash == spec_move_key(idv, wv[i2]);
                        assert(c2 != c);
                    }
                }
            }
        }
        c = c + 1;
    }
    out
}

/// Classifies every path of the three inputs, as `reconciled` states: every
/// working-tree path on the spot or as new-or-moved, every vanished path
/// exactly once as deleted or as a move's previous name, no path twice,
/// nothing invented, and never a same-content delete beside a new file.
pub fn determine_statuses(
    commit_data: &Vec<CommitFile>,
    index_data: &Vec<IndexFile>,
    working: &Vec<FileData>,
) -> (r: Vec<FileWithStatus>)
    requires
        commit_paths_unique(commit_views(commit_data@)),
        index_paths_unique(index_views(index_data@)),
        work_paths_unique(work_views(working@)),
        plan_satisfied(commit_views(commit_data@), index_views(index_data@), work_views(working@)),
    ensures
        reconciled(
            commit_views(commit_data@),
            index_views(index_data@),
            work_views(working@),
            out_views(r@),
        ),
{
    let ghost cdv = commit_views(commit_data@);
    let ghost idv = index_views(index_data@);
    let ghost wv = work_views(working@);
    let (out1, cands, cand_used1, index_used, commit_used1) = pass_working(
        commit_data,
        index_data,
        working,
    );
    let ghost outv1 = out_views(out1@);
    let ghost cv = cand_views(cands@);
    let (out2, cand_used2, commit_used2) = pass_index_only(
        commit_data,
        index_data,
        working,
        out1,
        &cands,
        cand_used1,
        &index_used,
        commit_used1,
    );
    let ghost outv2 = out_views(out2@);
    let (out3, cand_used3) = pass_commit_only(
        commit_data,
        index_data,
        working,
        out2,
        &cands,
        cand_used2,
        &index_used,
        &commit_used2,
    );
    let ghost outv3 = out_views(out3@);
    let out4 = pass_new(commit_data, index_data, working, out3, &cands, &cand_used3);
    let ghost outv = out_views(out4@);
    proof {
        assert(out_prefix_of(outv1, outv)) by {
            assert(forall|j: int| 0 <= j < outv1.len() ==> outv1[j] == #[trigger] outv2[j]);
            assert(forall|j: int| 0 <= j < outv2.len() ==> outv2[j] == #[trigger] outv3[j]);
            assert(forall|j: int| 0 <= j < outv3.len() ==> outv3[j] == #[trigger] outv[j]);
            assert forall|j: int| 0 <= j < outv1.len() implies outv1[j] == #[trigger] outv[j] by {
                assert(outv1[j] == outv2[j]);
                assert(outv2[j] == outv3[j]);
            }
        }
        assert(out_prefix_of(outv2, outv)) by {
            assert forall|j: int| 0 <= j < outv2.len() implies outv2[j] == #[trigger] outv[j] by {
                assert(outv2[j] == outv3[j]);
            }
        }
        assert(out_prefix_of(outv3, outv));
        // every non-deferred working file keeps its spot classification
        assert forall|i: int|
            #![trigger wv[i]]
            0 <= i < wv.len() && !spec_deferred(cdv, idv, wv[i]) implies has_spot(
            outv,
            spot_output(cdv, idv, wv[i]),
        ) by {
            lemma_prefix_keeps_spot(outv1, outv, spot_output(cdv, idv, wv[i]));
        }
        // every vanished index path keeps its account
        assert forall|k: int|
            0 <= k < idv.len() && !work_has(wv, (#[trigger] idv[k]).path) implies has_vanished_account(
            outv,
            idv[k].path,
            StageStatus::NotCommit,
        ) by {
            assert(!index_used@[k]);
            lemma_prefix_keeps_vanished(outv2, outv, idv[k].path, StageStatus::NotCommit);
        }
        // every vanished commit-only path keeps its account
        assert forall|m: int|
            0 <= m < cdv.len() && !work_has(wv, (#[trigger] cdv[m]).path) && index_lookup(
                idv,
                cdv[m].path,
            ) is None implies has_vanished_account(outv, cdv[m].path, StageStatus::Commit) by {
            lemma_prefix_keeps_vanished(outv3, outv, cdv[m].path, StageStatus::Commit);
        }
        // every output is drawn from the inputs
        assert forall|j: int|
            0 <= j < outv.len() implies output_from_inputs(cdv, idv, wv, #[trigger] outv[j]) by {
            if nondeferred_path(cdv, idv, wv, outv[j].path) {
                let i2 = choose|i2: int|
                    0 <= i2 < wv.len() && (#[trigger] wv[i2]).path == outv[j].path
                        && !spec_deferred(cdv, idv, wv[i2]);
                assert(work_has(wv, outv[j].path));
            } else if outv[j].status is Moved {
                let c2 = choose|c2: int|
                    0 <= c2 < cv.len() && cand_used3@[c2] && (#[trigger] cv[c2]).path
                        == outv[j].path;
                assert(deferred_file_before(
                    cdv,
                    idv,
                    wv,
                    cv[c2].path,
                    cv[c2].stage,
                    cv[c2].hash,
                    wv.len() as int,
                ));
                let i2 = choose|i2: int|
                    0 <= i2 < wv.len() && (#[trigger] wv[i2]).path == cv[c2].path && spec_deferred(
                        cdv,
                        idv,
                        wv[i2],
                    ) && cv[c2].stage == spec_stage_of(idv, wv[i2]) && cv[c2].hash
                        == spec_move_key(idv, wv[i2]);
                assert(work_has(wv, outv[j].path));
            } else if outv[j].status == StatusV::New {
                let c2 = choose|c2: int|
                    0 <= c2 < cv.len() && !cand_used3@[c2] && (#[trigger] cv[c2]).path
                        == outv[j].path;
                assert(deferred_file_before(
                    cdv,
                    idv,
                    wv,
                    cv[c2].path,
                    cv[c2].stage,
                    cv[c2].hash,
                    wv.len() as int,
                ));
                let i2 = choose|i2: int|
                    0 <= i2 < wv.len() && (#[trigger] wv[i2]).path == cv[c2].path && spec_deferred(
                        cdv,
                        idv,
                        wv[i2],
                    ) && cv[c2].stage == spec_stage_of(idv, wv[i2]) && cv[c2].hash
                        == spec_move_key(idv, wv[i2]);
                assert(work_has(wv, outv[j].path));
            }
        }
        // a deleted path never stands beside a new file of the same content
        assert forall|j1: int, j2: int, i: int|
            0 <= j1 < outv.len() && 0 <= j2 < outv.len() && 0 <= i < wv.len() && (
            #[trigger] outv[j1]).status == StatusV::Deleted && (#[trigger] outv[j2]).status
                == StatusV::New && outv[j2].path == (#[trigger] wv[i]).path && spec_deferred(
                cdv,
                idv,
                wv[i],
            ) implies spec_vanished_hash(cdv, idv, outv[j1].path) != Some(
            spec_move_key(idv, wv[i]),
        ) by {
            if nondeferred_path(cdv, idv, wv, outv[j2].path) {
                let i2 = choose|i2: int|
                    0 <= i2 < wv.len() && (#[trigger] wv[i2]).path == outv[j2].path
                        && !spec_deferred(cdv, idv, wv[i2]);
                assert(wv[i2].path == wv[i].path);
                assert(false);
            }
            let c2 = choose|c2: int|
                0 <= c2 < cv.len() && !cand_used3@[c2] && (#[trigger] cv[c2]).path
                    == outv[j2].path;
            assert(deferred_file_before(
                cdv,
                idv,
                wv,
                cv[c2].path,
                cv[c2].stage,
                cv[c2].hash,
                wv.len() as int,
            ));
            let i3 = choose|i3: int|
                0 <= i3 < wv.len() && (#[trigger] wv[i3]).path == cv[c2].path && spec_deferred(
                    cdv,
                    idv,
                    wv[i3],
                ) && cv[c2].stage == spec_stage_of(idv, wv[i3]) && cv[c2].hash == spec_move_key(
                    idv,
                    wv[i3],
                );
            assert(wv[i3].path == wv[i].path);
            assert(i3 == i);
            assert(cv[c2].hash == spec_move_key(idv, wv[i]));
            if spec_vanished_hash(cdv, idv, outv[j1].path) == Some(spec_move_key(idv, wv[i])) {
                assert(Some(cv[c2].hash) == spec_vanished_hash(cdv, idv, outv[j1].path));
                assert(cand_used3@[c2]);
                assert(false);
            }
        }
    }
    out4
}


/// A commit record's own path looks itself up.
pub proof fn lemma_commit_lookup_some(cd: Seq<CommitFileV>, m: int)
    requires
        0 <= m < cd.len(),
    ensures
        commit_lookup(cd, cd[m].path) is Some,
    decreases m,
{
    if cd[0].path != cd[m].path {
        assert(m > 0);
        assert(cd.skip(1)[m - 1] == cd[m]);
        lemma_commit_lookup_some(cd.skip(1), m - 1);
    }
}

/// An index record's own path looks itself up.
pub proof fn lemma_index_lookup_some(id: Seq<IndexFileV>, k: int)
    requires
        0 <= k < id.len(),
    ensures
        index_lookup(id, id[k].path) is Some,
    decreases k,
{
    if id[0].path != id[k].path {
        assert(k > 0);
        assert(id.skip(1)[k - 1] == id[k]);
        lemma_index_lookup_some(id.skip(1), k - 1);
    }
}


} // verus!
