//! Index codec and builder tests: entry encoding, the whole-file round trip
//! with its checksum, version and corruption handling.

use minigit::index::{Index, IndexBuilder};
use minigit::index_entry::{FileStage, IndexEntry};

fn hash_n(n: u8) -> minigit::hashing::Hash {
    minigit::hashing::Hash::from_vec(vec![n; 20])
}

fn entry(path: &str, h: u8) -> IndexEntry {
    IndexEntry::new(1, 2, 3, 4, 5, 6, 0o100644, 7, 8, 9, hash_n(h), path.as_bytes().to_vec())
        .unwrap()
}

#[test]
fn test_entry_round_trip() {
    let e = entry("src/main.rs", 0xab);
    let bytes = e.as_bytes();
    assert_eq!(bytes.len() % 8, 0);
    let (back, consumed) = IndexEntry::from_bytes_at(&bytes, 0).unwrap();
    assert_eq!(consumed, bytes.len());
    assert_eq!(back.path(), b"src/main.rs");
    assert_eq!(back.object_hash().as_bytes(), hash_n(0xab).as_bytes());
    assert_eq!(back.mode(), 0o100644);
    assert_eq!(back.cache(), e.cache());
}

#[test]
fn test_entry_rejects_nul_path() {
    let r = IndexEntry::new(0, 0, 0, 0, 0, 0, 0, 0, 0, 0, hash_n(1), b"a\0b".to_vec());
    assert!(r.is_err());
}

#[test]
fn test_entry_flags_path_len() {
    let e = entry("abc", 1);
    assert_eq!(e.flag_path_len(), 3);
    assert_eq!(e.path_len(), 3);
}

#[test]
fn test_entry_stage_and_assume_valid() {
    let mut e = entry("a.txt", 1);
    assert!(matches!(e.get_stage(), FileStage::Normal));
    e.set_stage(FileStage::Theirs);
    assert!(matches!(e.get_stage(), FileStage::Theirs));
    assert_eq!(e.flag_path_len(), 5);
    assert!(!e.is_assumed_valid());
    e.set_assumed_valid(true);
    assert!(e.is_assumed_valid());
    e.set_assumed_valid(false);
    assert!(!e.is_assumed_valid());
    assert!(matches!(e.get_stage(), FileStage::Theirs));
}

#[test]
fn test_index_round_trip() {
    let mut b = IndexBuilder::new();
    b.add_index_entry(entry("b.txt", 2));
    b.add_index_entry(entry("a.txt", 1));
    let index = b.build();
    assert_eq!(index.entries_number, 2);
    // the builder keeps entries ordered by path
    assert_eq!(index.entries[0].path(), b"a.txt");
    assert_eq!(index.entries[1].path(), b"b.txt");

    let bytes = index.as_bytes();
    let (back, checksum_ok) = Index::from_bytes(&bytes).unwrap();
    assert!(checksum_ok);
    assert_eq!(back.entries_number, 2);
    assert_eq!(back.entries.len(), 2);
    assert_eq!(back.entries[0].path(), b"a.txt");
    assert_eq!(back.entries[1].path(), b"b.txt");
    assert_eq!(back.entries[0].object_hash().as_bytes(), hash_n(1).as_bytes());

    // the re-encoding reproduces the same bytes, checksum included
    assert_eq!(back.as_bytes(), bytes);
}

#[test]
fn test_index_corrupted_checksum_is_reported_not_fatal() {
    let mut b = IndexBuilder::new();
    b.add_index_entry(entry("a.txt", 1));
    let index = b.build();
    let mut bytes = index.as_bytes();
    let last = bytes.len() - 1;
    bytes[last] ^= 0xff;
    let (back, checksum_ok) = Index::from_bytes(&bytes).unwrap();
    assert!(!checksum_ok);
    assert_eq!(back.entries.len(), 1);
    assert_eq!(back.entries[0].path(), b"a.txt");
}

#[test]
fn test_index_unsupported_version() {
    let mut b = IndexBuilder::new();
    b.set_version(3);
    let index = b.build();
    let bytes = index.as_bytes();
    let r = Index::from_bytes(&bytes);
    assert!(matches!(r, Err(minigit::error::GitError::UnsupportedVersion)));
}

#[test]
fn test_index_bad_magic() {
    let index = Index::default();
    let mut bytes = index.as_bytes();
    bytes[0] = b'X';
    assert!(matches!(
        Index::from_bytes(&bytes),
        Err(minigit::error::GitError::FormatError)
    ));
}

#[test]
fn test_index_builder_remove() {
    let mut b = IndexBuilder::new();
    b.add_index_entry(entry("a.txt", 1));
    b.add_index_entry(entry("b.txt", 2));
    let removed = b.remove_index_entry_by_path(b"a.txt");
    assert!(removed.is_some());
    assert_eq!(removed.unwrap().path(), b"a.txt");
    assert!(b.remove_index_entry_by_path(b"missing").is_none());
    let index = b.build();
    assert_eq!(index.entries_number, 1);
    assert_eq!(index.entries[0].path(), b"b.txt");
}

#[test]
fn test_index_extensions_pass_through() {
    let mut b = IndexBuilder::new();
    b.add_index_entry(entry("a.txt", 1));
    b.add_extension_entry(minigit::index::ExtensionEntry { data: b"EXTSDATA".to_vec() });
    let index = b.build();
    let bytes = index.as_bytes();
    let (back, checksum_ok) = Index::from_bytes(&bytes).unwrap();
    assert!(checksum_ok);
    assert_eq!(back.extensions.len(), 1);
    assert_eq!(back.extensions[0].data, b"EXTSDATA".to_vec());
    assert_eq!(back.as_bytes(), bytes);
}

#[test]
fn test_index_empty_round_trip() {
    let index = Index::default();
    let bytes = index.as_bytes();
    // magic + version + count + checksum
    assert_eq!(bytes.len(), 32);
    assert_eq!(&bytes[0..4], b"DIRC");
    let (back, checksum_ok) = Index::from_bytes(&bytes).unwrap();
    assert!(checksum_ok);
    assert_eq!(back.entries.len(), 0);
}

#[test]
fn test_ls_files_listing() {
    let mut b = IndexBuilder::new();
    b.add_index_entry(entry("a.txt", 0x11));
    let index = b.build();
    let text = minigit::commands::ls_files(&index, false);
    assert_eq!(
        text,
        "100644 1111111111111111111111111111111111111111 0\ta.txt\n"
    );
}

#[test]
fn test_entry_truncation_marker_trusted() {
    // a flags word of 0xFFF marks a truncated length: the actual path is
    // trusted over it
    let e = entry("short.txt", 3);
    let mut bytes = e.as_bytes();
    // overwrite the low 12 bits of the flags word (offset 60, big-endian)
    bytes[60] = 0x0f;
    bytes[61] = 0xff;
    let (back, consumed) = IndexEntry::from_bytes_at(&bytes, 0).unwrap();
    assert_eq!(consumed, bytes.len());
    assert_eq!(back.path(), b"short.txt");
    assert_eq!(back.flag_path_len(), 0xfff);
    assert_eq!(back.path_len(), 9);
}
