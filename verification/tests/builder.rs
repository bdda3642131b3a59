//! Tree builder tests: routing paths into nested builders, and writing the
//! built trees bottom-up through the object store.

use minigit::numbers::as_octal;
use minigit::object::Object;
use minigit::store::ObjectStore;
use minigit::tree_builder::TreeBuilder;

const TEST_MODE_FILE: u32 = 0o100644;
const TEST_MODE_EXECUTABLE: u32 = 0o100755;
const TEST_HASH_1: [u8; 20] = [
    0x12, 0x34, 0x56, 0x78, 0x9a, 0xbc, 0xde, 0xf0, 0x12, 0x34, 0x56, 0x78, 0x9a, 0xbc, 0xde,
    0xf0, 0x12, 0x34, 0x56, 0x78,
];
const TEST_HASH_2: [u8; 20] = [
    0xab, 0xcd, 0xef, 0x12, 0x34, 0x56, 0x78, 0x9a, 0xbc, 0xde, 0xf0, 0x12, 0x34, 0x56, 0x78,
    0x9a, 0xbc, 0xde, 0xf0, 0x12,
];
const TEST_HASH_3: [u8; 20] = [
    0xff, 0xee, 0xdd, 0xcc, 0xbb, 0xaa, 0x99, 0x88, 0x77, 0x66, 0x55, 0x44, 0x33, 0x22, 0x11,
    0x00, 0xff, 0xee, 0xdd, 0xcc,
];

fn create_hash(bytes: [u8; 20]) -> minigit::hashing::Hash {
    minigit::hashing::Hash::from_vec(bytes.to_vec())
}

fn subtree<'a>(b: &'a TreeBuilder, key: &str) -> Option<&'a TreeBuilder> {
    for (k, t) in b.subtrees.iter() {
        if k.as_slice() == key.as_bytes() {
            return Some(t);
        }
    }
    None
}

fn assert_entry_exists(
    entries: &[minigit::object::TreeEntry],
    expected_path: &str,
    expected_mode: u32,
    expected_hash: &minigit::hashing::Hash,
) {
    let expected_mode_octal = as_octal(expected_mode);
    let found = entries.iter().any(|entry| {
        entry.path.as_slice() == expected_path.as_bytes() && entry.mode == expected_mode_octal
            && entry.hash.as_bytes() == expected_hash.as_bytes()
    });
    assert!(
        found,
        "Expected entry not found: path={}, mode={}",
        expected_path, expected_mode_octal
    );
}

#[test]
fn test_new_tree_builder() {
    let builder = TreeBuilder::new();
    assert_eq!(builder.entries.len(), 0);
    assert_eq!(builder.subtrees.len(), 0);
}

#[test]
fn test_add_single_file() {
    let mut builder = TreeBuilder::new();
    let hash = create_hash(TEST_HASH_1);

    builder.add_object(TEST_MODE_FILE, b"file1.txt", hash.clone(), false);

    assert_eq!(builder.entries.len(), 1);
    assert_eq!(builder.entries[0].mode, as_octal(TEST_MODE_FILE));
    assert_eq!(builder.entries[0].path, b"file1.txt".to_vec());
    assert_eq!(builder.entries[0].hash.as_bytes(), hash.as_bytes());
    assert_eq!(builder.subtrees.len(), 0);
}

#[test]
fn test_add_multiple_root_files() {
    let mut builder = TreeBuilder::new();
    builder.add_object(TEST_MODE_FILE, b"file1.txt", create_hash(TEST_HASH_1), false);
    builder.add_object(TEST_MODE_EXECUTABLE, b"file2.txt", create_hash(TEST_HASH_2), false);
    assert_eq!(builder.entries.len(), 2);
    assert_eq!(builder.subtrees.len(), 0);
}

#[test]
fn test_add_directory_ignored() {
    let mut builder = TreeBuilder::new();
    builder.add_object(TEST_MODE_FILE, b"src", create_hash(TEST_HASH_1), true);
    assert_eq!(builder.entries.len(), 0);
    assert_eq!(builder.subtrees.len(), 0);
}

#[test]
fn test_add_file_with_subdirectory() {
    let mut builder = TreeBuilder::new();
    let hash = create_hash(TEST_HASH_1);

    builder.add_object(TEST_MODE_FILE, b"src/main.rs", hash.clone(), false);

    assert_eq!(builder.entries.len(), 0);
    assert_eq!(builder.subtrees.len(), 1);
    let src = subtree(&builder, "src").expect("src subtree missing");
    assert_eq!(src.entries.len(), 1);
    assert_eq!(src.entries[0].path, b"main.rs".to_vec());
    assert_eq!(src.entries[0].hash.as_bytes(), hash.as_bytes());
}

#[test]
fn test_add_multiple_files_same_directory() {
    let mut builder = TreeBuilder::new();
    builder.add_object(TEST_MODE_FILE, b"src/main.rs", create_hash(TEST_HASH_1), false);
    builder.add_object(TEST_MODE_FILE, b"src/lib.rs", create_hash(TEST_HASH_2), false);

    assert_eq!(builder.subtrees.len(), 1);
    let src = subtree(&builder, "src").expect("src subtree missing");
    assert_eq!(src.entries.len(), 2);
    let paths: Vec<&[u8]> = src.entries.iter().map(|e| e.path.as_slice()).collect();
    assert!(paths.contains(&b"main.rs".as_slice()));
    assert!(paths.contains(&b"lib.rs".as_slice()));
}

#[test]
fn test_add_files_different_directories() {
    let mut builder = TreeBuilder::new();
    builder.add_object(TEST_MODE_FILE, b"src/main.rs", create_hash(TEST_HASH_1), false);
    builder.add_object(TEST_MODE_FILE, b"tests/test.rs", create_hash(TEST_HASH_2), false);

    assert_eq!(builder.subtrees.len(), 2);
    assert!(subtree(&builder, "src").is_some());
    assert!(subtree(&builder, "tests").is_some());
}

#[test]
fn test_nested_directories() {
    let mut builder = TreeBuilder::new();
    let hash = create_hash(TEST_HASH_1);

    builder.add_object(TEST_MODE_FILE, b"src/utils/helper.rs", hash.clone(), false);

    assert_eq!(builder.entries.len(), 0);
    assert_eq!(builder.subtrees.len(), 1);
    let src = subtree(&builder, "src").expect("src subtree missing");
    assert_eq!(src.entries.len(), 0);
    assert_eq!(src.subtrees.len(), 1);
    let utils = subtree(src, "utils").expect("utils subtree missing");
    assert_eq!(utils.entries.len(), 1);
    assert_eq!(utils.entries[0].path, b"helper.rs".to_vec());
    assert_eq!(utils.entries[0].hash.as_bytes(), hash.as_bytes());
}

#[test]
fn test_mixed_root_and_subdirectory_files() {
    let mut builder = TreeBuilder::new();
    builder.add_object(TEST_MODE_FILE, b"README.md", create_hash(TEST_HASH_1), false);
    builder.add_object(TEST_MODE_FILE, b"src/main.rs", create_hash(TEST_HASH_2), false);
    builder.add_object(TEST_MODE_FILE, b"tests/test.rs", create_hash(TEST_HASH_3), false);

    assert_eq!(builder.entries.len(), 1);
    assert_eq!(builder.entries[0].path, b"README.md".to_vec());
    assert_eq!(builder.subtrees.len(), 2);
    assert!(subtree(&builder, "src").is_some());
    assert!(subtree(&builder, "tests").is_some());
}

#[test]
fn test_build_empty_tree() {
    let builder = TreeBuilder::new();
    let mut store = ObjectStore::new();
    let mut pending = Vec::new();
    let hash = builder.build_and_write(&mut store, &mut pending);
    match store.read(&hash).expect("root tree must be stored") {
        Object::Tree { entries } => assert_eq!(entries.len(), 0),
        _ => panic!("Expected Tree object"),
    }
}

#[test]
fn test_build_root_files_only() {
    let mut builder = TreeBuilder::new();
    builder.add_object(TEST_MODE_FILE, b"file1.txt", create_hash(TEST_HASH_1), false);
    builder.add_object(TEST_MODE_FILE, b"file2.txt", create_hash(TEST_HASH_2), false);
    let mut store = ObjectStore::new();
    let mut pending = Vec::new();
    let hash = builder.build_and_write(&mut store, &mut pending);
    match store.read(&hash).expect("root tree must be stored") {
        Object::Tree { entries } => {
            assert_eq!(entries.len(), 2);
            assert_entry_exists(&entries, "file1.txt", TEST_MODE_FILE, &create_hash(TEST_HASH_1));
            assert_entry_exists(&entries, "file2.txt", TEST_MODE_FILE, &create_hash(TEST_HASH_2));
        },
        _ => panic!("Expected Tree object"),
    }
}

#[test]
fn test_build_with_subtrees() {
    let mut builder = TreeBuilder::new();
    builder.add_object(TEST_MODE_FILE, b"README.md", create_hash(TEST_HASH_1), false);
    builder.add_object(TEST_MODE_FILE, b"src/main.rs", create_hash(TEST_HASH_2), false);
    let mut store = ObjectStore::new();
    let mut pending = Vec::new();
    let hash = builder.build_and_write(&mut store, &mut pending);
    match store.read(&hash).expect("root tree must be stored") {
        Object::Tree { entries } => {
            assert_eq!(entries.len(), 2);
            let src_entry = entries
                .iter()
                .find(|e| e.path.as_slice() == b"src")
                .expect("src directory entry not found");
            match store.read(&src_entry.hash).expect("subtree must be stored") {
                Object::Tree { entries: sub } => {
                    assert_eq!(sub.len(), 1);
                    assert_eq!(sub[0].path, b"main.rs".to_vec());
                },
                _ => panic!("Expected Tree object"),
            }
        },
        _ => panic!("Expected Tree object"),
    }
}

#[test]
fn test_build_nested_structure() {
    let mut builder = TreeBuilder::new();
    builder.add_object(TEST_MODE_FILE, b"src/utils/helper.rs", create_hash(TEST_HASH_1), false);
    builder.add_object(TEST_MODE_FILE, b"src/main.rs", create_hash(TEST_HASH_2), false);
    let mut store = ObjectStore::new();
    let mut pending = Vec::new();
    let root = builder.build_and_write(&mut store, &mut pending);
    // flatten everything back and look for the deep path
    match store.read(&root).unwrap() {
        Object::Tree { entries } => {
            let flat =
                minigit::commands::get_all_tree_entries(&store, &entries, b"", 64).unwrap();
            let helper = flat
                .iter()
                .find(|e| e.path.as_slice() == b"src/utils/helper.rs")
                .expect("nested path must flatten back");
            assert_eq!(helper.hash.as_bytes(), create_hash(TEST_HASH_1).as_bytes());
        },
        _ => panic!("Expected Tree object"),
    }
}

#[test]
fn test_single_component_vs_multiple_components() {
    let mut builder = TreeBuilder::new();
    builder.add_object(TEST_MODE_FILE, b"root.txt", create_hash(TEST_HASH_1), false);
    builder.add_object(TEST_MODE_FILE, b"dir/file.txt", create_hash(TEST_HASH_2), false);

    assert_eq!(builder.entries.len(), 1);
    assert_eq!(builder.entries[0].path, b"root.txt".to_vec());
    assert_eq!(builder.subtrees.len(), 1);
    assert!(subtree(&builder, "dir").is_some());
}

#[test]
fn test_tree_builder_flatten_recovers_pairs() {
    // a set of (path, hash) pairs survives build-and-write and flattening
    let pairs: Vec<(&str, [u8; 20])> = vec![
        ("a.txt", TEST_HASH_1),
        ("src/main.rs", TEST_HASH_2),
        ("src/utils/helper.rs", TEST_HASH_3),
    ];
    let mut builder = TreeBuilder::new();
    for (p, h) in &pairs {
        builder.add_object(TEST_MODE_FILE, p.as_bytes(), create_hash(*h), false);
    }
    let mut store = ObjectStore::new();
    let mut pending = Vec::new();
    let root = builder.build_and_write(&mut store, &mut pending);
    match store.read(&root).unwrap() {
        Object::Tree { entries } => {
            let flat =
                minigit::commands::get_all_tree_entries(&store, &entries, b"", 64).unwrap();
            assert_eq!(flat.len(), pairs.len());
            for (p, h) in &pairs {
                let e = flat
                    .iter()
                    .find(|e| e.path.as_slice() == p.as_bytes())
                    .expect("pair lost");
                assert_eq!(e.hash.as_bytes(), &h[..]);
            }
        },
        _ => panic!("Expected Tree object"),
    }
}

#[test]
fn test_build_writes_every_subtree_once() {
    let mut builder = TreeBuilder::new();
    builder.add_object(TEST_MODE_FILE, b"src/a.txt", create_hash(TEST_HASH_1), false);
    builder.add_object(TEST_MODE_FILE, b"src/b.txt", create_hash(TEST_HASH_2), false);
    let mut store = ObjectStore::new();
    let mut pending = Vec::new();
    let _root = builder.build_and_write(&mut store, &mut pending);
    // one object per tree level: the root and `src`
    assert_eq!(store.entries.len(), 2);
    assert_eq!(pending.len(), 2);
}
