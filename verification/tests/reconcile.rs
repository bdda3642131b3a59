//! Status reconciliation tests: the staging scenarios, move detection, the
//! hashing plan, and the report text.

use minigit::add::{stage_files, AddFile, FileMeta};
use minigit::index::Index;
use minigit::index_entry::IndexEntryCache;
use minigit::object::Object;
use minigit::status::{
    determine_statuses, needs_content_hash, CommitFile, FileData, IndexFile, StageStatus, Status,
};
use minigit::store::ObjectStore;

fn blob_hash(content: &[u8]) -> minigit::hashing::Hash {
    let blob = Object::Blob { data: content.to_vec() };
    blob.hash()
}

fn meta(n: u32) -> FileMeta {
    FileMeta {
        creation_time_sec: n,
        creation_time_nsec: 0,
        modification_time_sec: n,
        modification_time_nsec: 1,
        device: 2,
        inode: n + 10,
        mode: 0o100644,
        uid: 0,
        gid: 0,
        file_size: 4,
    }
}

fn cache_of(m: &FileMeta) -> IndexEntryCache {
    IndexEntryCache {
        modification_time_sec: m.modification_time_sec,
        modification_time_nsec: m.modification_time_nsec,
        device: m.device,
        inode: m.inode,
        file_size: m.file_size,
    }
}

fn other_cache() -> IndexEntryCache {
    IndexEntryCache {
        modification_time_sec: 999,
        modification_time_nsec: 999,
        device: 9,
        inode: 99,
        file_size: 8,
    }
}

/// Stages `a.txt` into an empty repository and checks the index and report.
#[test]
fn scenario_add_single_new_file() {
    let mut store = ObjectStore::new();
    let index = Index::default();
    let m = meta(1);
    let files = vec![AddFile {
        path: b"a.txt".to_vec(),
        meta: m,
        content: Some(b"hi!\n".to_vec()),
    }];
    let (index, pending) = stage_files(&mut store, index, &files).unwrap();
    assert_eq!(index.entries.len(), 1);
    assert_eq!(index.entries[0].path(), b"a.txt");
    assert_eq!(
        index.entries[0].object_hash().as_bytes(),
        blob_hash(b"hi!\n").as_bytes()
    );
    assert_eq!(pending.len(), 1);
    // the staged blob is persisted in the store under its content hash
    match store.read(&blob_hash(b"hi!\n")).unwrap() {
        Object::Blob { data } => assert_eq!(data, b"hi!\n".to_vec()),
        other => panic!("expected the staged blob, got {:?}", other),
    }

    // status: staged new file
    let commit_data: Vec<CommitFile> = vec![];
    let index_data = minigit::commands::read_index_data(&index);
    let working = vec![FileData {
        path: b"a.txt".to_vec(),
        cache: cache_of(&m),
        content_hash: Some(blob_hash(b"hi!\n")),
    }];
    let out = determine_statuses(&commit_data, &index_data, &working);
    assert_eq!(out.len(), 1);
    assert_eq!(out[0].path, b"a.txt".to_vec());
    assert!(matches!(out[0].status, Status::New));
    assert_eq!(out[0].stage_status, StageStatus::Commit);

    let report = minigit::commands::status(&commit_data, true, &index_data, &working, b"main");
    assert!(report.contains("On branch main"));
    assert!(report.contains("No commits yet"));
    assert!(report.contains("Changes staged for commit:"));
    assert!(report.contains("\tnew file:\ta.txt\n"));
}

/// Edits a committed file without re-adding it: modified, not staged.
#[test]
fn scenario_edit_without_add() {
    let h_old = blob_hash(b"old");
    let commit_data = vec![CommitFile { path: b"a.txt".to_vec(), hash: h_old.clone() }];
    let m = meta(1);
    let index_data = vec![IndexFile {
        path: b"a.txt".to_vec(),
        hash: h_old.clone(),
        cache: cache_of(&m),
    }];
    // the file on disk changed: metadata and content differ
    let working = vec![FileData {
        path: b"a.txt".to_vec(),
        cache: other_cache(),
        content_hash: Some(blob_hash(b"new")),
    }];
    let out = determine_statuses(&commit_data, &index_data, &working);
    assert_eq!(out.len(), 1);
    assert!(matches!(out[0].status, Status::Modified));
    assert_eq!(out[0].stage_status, StageStatus::NotCommit);

    let report = minigit::commands::status(&commit_data, false, &index_data, &working, b"main");
    assert!(report.contains("Not staged for commit:"));
    assert!(report.contains("\tmodified:\ta.txt\n"));
}

/// Deletes a committed file from disk, leaving the index untouched.
#[test]
fn scenario_delete_from_disk() {
    let h = blob_hash(b"data");
    let commit_data = vec![CommitFile { path: b"a.txt".to_vec(), hash: h.clone() }];
    let m = meta(1);
    let index_data = vec![IndexFile {
        path: b"a.txt".to_vec(),
        hash: h.clone(),
        cache: cache_of(&m),
    }];
    let working: Vec<FileData> = vec![];
    let out = determine_statuses(&commit_data, &index_data, &working);
    assert_eq!(out.len(), 1);
    assert_eq!(out[0].path, b"a.txt".to_vec());
    assert!(matches!(out[0].status, Status::Deleted));
    assert_eq!(out[0].stage_status, StageStatus::NotCommit);
}

/// Renames a committed file and stages the new name: a move, not a
/// delete-plus-new pair.
#[test]
fn scenario_move_detection() {
    let h = blob_hash(b"same content");
    let commit_data = vec![CommitFile { path: b"a.txt".to_vec(), hash: h.clone() }];
    let m = meta(1);
    // after `add .`: the index holds only b.txt with the same content hash
    let index_data = vec![IndexFile {
        path: b"b.txt".to_vec(),
        hash: h.clone(),
        cache: cache_of(&m),
    }];
    // the metadata matches, so b.txt is never read: the move is detected
    // from the index's stored hash alone
    let working = vec![FileData {
        path: b"b.txt".to_vec(),
        cache: cache_of(&m),
        content_hash: None,
    }];
    let out = determine_statuses(&commit_data, &index_data, &working);
    assert_eq!(out.len(), 1);
    match &out[0].status {
        Status::Moved { previous } => assert_eq!(previous, &b"a.txt".to_vec()),
        other => panic!("expected a move, got {:?}", other),
    }
    assert_eq!(out[0].path, b"b.txt".to_vec());
    assert_eq!(out[0].stage_status, StageStatus::Commit);

    let report = minigit::commands::status(&commit_data, false, &index_data, &working, b"main");
    assert!(report.contains("\tmoved:\ta.txt -> b.txt\n"));
}

/// An unchanged committed file: classified unchanged, filtered from the
/// report, and never content-hashed.
#[test]
fn scenario_unchanged_never_hashed() {
    let h = blob_hash(b"stable");
    let m = meta(1);
    let commit_data = vec![CommitFile { path: b"a.txt".to_vec(), hash: h.clone() }];
    let index_data = vec![IndexFile {
        path: b"a.txt".to_vec(),
        hash: h.clone(),
        cache: cache_of(&m),
    }];
    // the plan says this file need not be read at all
    assert!(!needs_content_hash(&commit_data, &index_data, b"a.txt", &cache_of(&m)));
    let working = vec![FileData {
        path: b"a.txt".to_vec(),
        cache: cache_of(&m),
        content_hash: None,
    }];
    let out = determine_statuses(&commit_data, &index_data, &working);
    assert_eq!(out.len(), 1);
    assert!(matches!(out[0].status, Status::Unchanged));
    let report = minigit::commands::status(&commit_data, false, &index_data, &working, b"main");
    assert!(report.contains("There is nothing to commit, all clean!"));
}

/// A cache-matching file is never read, committed or not: move detection
/// keys it by the index's stored hash instead.
#[test]
fn plan_skips_cache_matching_files() {
    let h = blob_hash(b"fresh");
    let m = meta(1);
    let commit_data: Vec<CommitFile> = vec![];
    let index_data = vec![IndexFile {
        path: b"a.txt".to_vec(),
        hash: h.clone(),
        cache: cache_of(&m),
    }];
    assert!(!needs_content_hash(&commit_data, &index_data, b"a.txt", &cache_of(&m)));
    // only a metadata change forces a read
    assert!(needs_content_hash(&commit_data, &index_data, b"a.txt", &other_cache()));
}

/// An untracked file not in the commit is never hashed.
#[test]
fn plan_skips_untracked_uncommitted() {
    let commit_data: Vec<CommitFile> = vec![];
    let index_data: Vec<IndexFile> = vec![];
    assert!(!needs_content_hash(&commit_data, &index_data, b"new.txt", &other_cache()));
}

/// Every input path appears in exactly one classification.
#[test]
fn every_path_classified_once() {
    let h1 = blob_hash(b"one");
    let h2 = blob_hash(b"two");
    let h3 = blob_hash(b"three");
    let m = meta(1);
    let commit_data = vec![
        CommitFile { path: b"kept.txt".to_vec(), hash: h1.clone() },
        CommitFile { path: b"gone.txt".to_vec(), hash: h2.clone() },
    ];
    let index_data = vec![
        IndexFile { path: b"kept.txt".to_vec(), hash: h1.clone(), cache: cache_of(&m) },
        IndexFile { path: b"staged.txt".to_vec(), hash: h3.clone(), cache: cache_of(&m) },
    ];
    let working = vec![
        FileData { path: b"kept.txt".to_vec(), cache: cache_of(&m), content_hash: None },
        FileData {
            path: b"untracked.txt".to_vec(),
            cache: other_cache(),
            content_hash: None,
        },
    ];
    let out = determine_statuses(&commit_data, &index_data, &working);
    // kept.txt unchanged; untracked.txt new; staged.txt deleted (not on
    // disk); gone.txt deleted from the commit
    let mut paths: Vec<Vec<u8>> = out.iter().map(|o| o.path.clone()).collect();
    paths.sort();
    let mut expected = vec![
        b"gone.txt".to_vec(),
        b"kept.txt".to_vec(),
        b"staged.txt".to_vec(),
        b"untracked.txt".to_vec(),
    ];
    expected.sort();
    assert_eq!(paths, expected);
}

/// Re-staging an unchanged file leaves its entry; a changed file gets a new
/// entry and a new blob.
#[test]
fn stage_files_updates_entries() {
    let mut store = ObjectStore::new();
    let m1 = meta(1);
    let files = vec![AddFile {
        path: b"a.txt".to_vec(),
        meta: m1,
        content: Some(b"v1".to_vec()),
    }];
    let (index, _) = stage_files(&mut store, Index::default(), &files).unwrap();
    let h1 = index.entries[0].object_hash();

    // unchanged metadata: no content given, entry kept
    let again = vec![AddFile { path: b"a.txt".to_vec(), meta: m1, content: None }];
    let (index, pending) = stage_files(&mut store, index, &again).unwrap();
    assert_eq!(index.entries.len(), 1);
    assert_eq!(index.entries[0].object_hash().as_bytes(), h1.as_bytes());
    assert_eq!(pending.len(), 0);

    // changed metadata and content: the entry is replaced
    let m2 = meta(2);
    let changed = vec![AddFile {
        path: b"a.txt".to_vec(),
        meta: m2,
        content: Some(b"v2".to_vec()),
    }];
    let (index, pending) = stage_files(&mut store, index, &changed).unwrap();
    assert_eq!(index.entries.len(), 1);
    assert_eq!(
        index.entries[0].object_hash().as_bytes(),
        blob_hash(b"v2").as_bytes()
    );
    assert_eq!(pending.len(), 1);
}

/// The full cycle: stage, commit, read the commit data back, and reconcile
/// an unchanged tree to a clean report.
#[test]
fn scenario_commit_and_clean_status() {
    let mut store = ObjectStore::new();
    let m = meta(1);
    let files = vec![
        AddFile { path: b"a.txt".to_vec(), meta: m, content: Some(b"A".to_vec()) },
        AddFile {
            path: b"src/main.rs".to_vec(),
            meta: meta(2),
            content: Some(b"fn main() {}".to_vec()),
        },
    ];
    let (index, _) = stage_files(&mut store, Index::default(), &files).unwrap();

    let author = minigit::object::CommitUser {
        kind: minigit::object::CommitUserKind::Author,
        identifier: b"Ada <ada@example.com>".to_vec(),
        timestamp: 100,
        timezone: minigit::object::TimezoneOffset::utc(),
    };
    let committer = minigit::object::CommitUser {
        kind: minigit::object::CommitUserKind::Committer,
        identifier: b"Ada <ada@example.com>".to_vec(),
        timestamp: 100,
        timezone: minigit::object::TimezoneOffset::utc(),
    };
    let (commit_hash, _pending) =
        minigit::commands::commit(&mut store, &index, None, author, committer, b"first").unwrap();

    let commit_data = minigit::commands::read_commit_data(&store, Some(&commit_hash))
        .unwrap()
        .unwrap();
    assert_eq!(commit_data.len(), 2);

    let index_data = minigit::commands::read_index_data(&index);
    let working = vec![
        FileData { path: b"a.txt".to_vec(), cache: cache_of(&m), content_hash: None },
        FileData {
            path: b"src/main.rs".to_vec(),
            cache: cache_of(&meta(2)),
            content_hash: None,
        },
    ];
    let report = minigit::commands::status(&commit_data, false, &index_data, &working, b"main");
    assert!(report.contains("There is nothing to commit, all clean!"));
}

/// Move detection pairs exactly one new path per deleted path: identical
/// content never shows up as a delete beside a new file.
#[test]
fn move_never_split_into_delete_and_new() {
    let h = blob_hash(b"shared");
    let m = meta(1);
    // two deleted committed files share the hash of one staged new file
    let commit_data = vec![
        CommitFile { path: b"a.txt".to_vec(), hash: h.clone() },
        CommitFile { path: b"b.txt".to_vec(), hash: h.clone() },
    ];
    let index_data = vec![IndexFile {
        path: b"c.txt".to_vec(),
        hash: h.clone(),
        cache: cache_of(&m),
    }];
    let working = vec![FileData {
        path: b"c.txt".to_vec(),
        cache: cache_of(&m),
        content_hash: Some(h.clone()),
    }];
    let out = determine_statuses(&commit_data, &index_data, &working);
    // one move pairs up; the other committed path is a plain delete; and no
    // output is ever New while a same-content delete exists
    let moved = out
        .iter()
        .filter(|o| matches!(o.status, Status::Moved { .. }))
        .count();
    let deleted = out.iter().filter(|o| matches!(o.status, Status::Deleted)).count();
    let new = out.iter().filter(|o| matches!(o.status, Status::New)).count();
    assert_eq!(moved, 1);
    assert_eq!(deleted, 1);
    assert_eq!(new, 0);
}

/// Two new files sharing one deleted path's content: one becomes the move,
/// the other stays new.
#[test]
fn one_move_per_deleted_path() {
    let h = blob_hash(b"shared");
    let m = meta(1);
    let commit_data = vec![CommitFile { path: b"old.txt".to_vec(), hash: h.clone() }];
    let index_data = vec![
        IndexFile { path: b"n1.txt".to_vec(), hash: h.clone(), cache: cache_of(&m) },
        IndexFile { path: b"n2.txt".to_vec(), hash: h.clone(), cache: cache_of(&m) },
    ];
    let working = vec![
        FileData { path: b"n1.txt".to_vec(), cache: cache_of(&m), content_hash: Some(h.clone()) },
        FileData { path: b"n2.txt".to_vec(), cache: cache_of(&m), content_hash: Some(h.clone()) },
    ];
    let out = determine_statuses(&commit_data, &index_data, &working);
    let moved = out
        .iter()
        .filter(|o| matches!(o.status, Status::Moved { .. }))
        .count();
    let deleted = out.iter().filter(|o| matches!(o.status, Status::Deleted)).count();
    let new = out.iter().filter(|o| matches!(o.status, Status::New)).count();
    assert_eq!(moved, 1);
    assert_eq!(deleted, 0);
    assert_eq!(new, 1);
}


/// Staging the whole tree prunes entries whose files are gone.
#[test]
fn stage_whole_tree_prunes_missing() {
    let mut store = ObjectStore::new();
    let files = vec![
        AddFile { path: b"keep.txt".to_vec(), meta: meta(1), content: Some(b"k".to_vec()) },
        AddFile { path: b"gone.txt".to_vec(), meta: meta(2), content: Some(b"g".to_vec()) },
    ];
    let (index, _) = stage_files(&mut store, Index::default(), &files).unwrap();
    assert_eq!(index.entries.len(), 2);

    // the next whole-tree scan no longer sees gone.txt
    let rescan = vec![AddFile { path: b"keep.txt".to_vec(), meta: meta(1), content: None }];
    let (index, _) = stage_files(&mut store, index, &rescan).unwrap();
    let index = minigit::add::prune_missing(index, &rescan);
    assert_eq!(index.entries.len(), 1);
    assert_eq!(index.entries[0].path(), b"keep.txt");
    assert_eq!(index.entries_number, 1);
}

/// Staging the same path twice never duplicates its index entry.
#[test]
fn stage_twice_keeps_single_entry() {
    let mut store = ObjectStore::new();
    let index = Index::default();
    let m = meta(1);
    let files = vec![AddFile {
        path: b"a.txt".to_vec(),
        meta: m,
        content: Some(b"one".to_vec()),
    }];
    let (index, _) = stage_files(&mut store, index, &files).unwrap();
    // same path again, new content and metadata
    let m2 = meta(2);
    let files2 = vec![AddFile {
        path: b"a.txt".to_vec(),
        meta: m2,
        content: Some(b"two".to_vec()),
    }];
    let (index, _) = stage_files(&mut store, index, &files2).unwrap();
    assert_eq!(index.entries.len(), 1);
    assert_eq!(index.entries[0].path(), b"a.txt");
    assert_eq!(
        index.entries[0].object_hash().as_bytes(),
        blob_hash(b"two").as_bytes()
    );
}
