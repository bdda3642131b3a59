//! Object codec tests: blob, tree and commit encodings, their decoders, and
//! the round trips between them.

use minigit::commit::{as_bytes, from_bytes};
use minigit::object::{CommitUser, CommitUserKind, Object, TimezoneOffset, TreeEntry};

const TEST_TREE_HASH: &str = "980a72fb0cd5a4985c44cba8a407e79db7e83e32";
const TEST_PARENT_HASH: &str = "0c9d7797a0643d9f4c6b5b0ab25daa28818e7d7f";
const TEST_AUTHOR_NAME: &str = "John Doe";
const TEST_AUTHOR_EMAIL: &str = "john@example.com";
const TEST_COMMITTER_NAME: &str = "Jane Smith";
const TEST_COMMITTER_EMAIL: &str = "jane@example.com";
const TEST_TIMESTAMP_AUTHOR: u64 = 1640995200;
const TEST_TIMESTAMP_COMMITTER: u64 = 1640995260;
const TEST_TIMEZONE_OFFSET_STR: &str = "-0500";
const TEST_TIMEZONE_UTC_STR: &str = "+0100";
const TEST_MESSAGE: &str = "Initial commit";
const TEST_MESSAGE_MULTILINE: &str = "Test commit message";
const TEST_MESSAGE_TIMEZONE: &str = "Test timezones";

fn create_test_hash(value: &str) -> minigit::hashing::Hash {
    minigit::hashing::Hash::parse_hex_bytes(value.as_bytes()).unwrap()
}

fn tz(offset_hours: i8) -> TimezoneOffset {
    TimezoneOffset {
        negative: offset_hours < 0,
        hours: offset_hours.unsigned_abs(),
        minutes: 0,
    }
}

fn create_test_user(
    kind: CommitUserKind,
    name: &str,
    email: &str,
    timestamp_secs: u64,
    offset_hours: i8,
) -> CommitUser {
    CommitUser {
        kind,
        identifier: format!("{} <{}>", name, email).into_bytes(),
        timestamp: timestamp_secs,
        timezone: tz(offset_hours),
    }
}

#[test]
fn test_commit_user_kind_from_str() {
    assert!(matches!(
        minigit::object::CommitUserKind::parse_label(b"author"),
        Ok(CommitUserKind::Author)
    ));
    assert!(matches!(
        minigit::object::CommitUserKind::parse_label(b"committer"),
        Ok(CommitUserKind::Committer)
    ));
    assert!(minigit::object::CommitUserKind::parse_label(b"invalid").is_err());
}

#[test]
fn test_commit_user_kind_display() {
    assert_eq!(CommitUserKind::Author.label(), "author");
    assert_eq!(CommitUserKind::Committer.label(), "committer");
}

#[test]
fn test_as_bytes_with_parent() {
    let tree_hash = create_test_hash(TEST_TREE_HASH);
    let parent_hash = create_test_hash(TEST_PARENT_HASH);
    let author = create_test_user(
        CommitUserKind::Author,
        TEST_AUTHOR_NAME,
        TEST_AUTHOR_EMAIL,
        TEST_TIMESTAMP_AUTHOR,
        -5,
    );
    let committer = create_test_user(
        CommitUserKind::Committer,
        TEST_COMMITTER_NAME,
        TEST_COMMITTER_EMAIL,
        TEST_TIMESTAMP_COMMITTER,
        -5,
    );

    let bytes = as_bytes(
        &tree_hash,
        &vec![parent_hash],
        &author,
        &committer,
        TEST_MESSAGE.as_bytes(),
    );
    let text = String::from_utf8(bytes).unwrap();
    let commit_str: String = text.split('\0').skip(1).collect();
    let mut commit_lines = commit_str.lines();

    assert_eq!(
        commit_lines.next().unwrap(),
        &format!("tree {}", TEST_TREE_HASH)
    );
    assert_eq!(
        commit_lines.next().unwrap(),
        &format!("parent {}", TEST_PARENT_HASH)
    );
    assert_eq!(
        commit_lines.next().unwrap(),
        &format!(
            "author {} <{}> {} {}",
            TEST_AUTHOR_NAME, TEST_AUTHOR_EMAIL, TEST_TIMESTAMP_AUTHOR, TEST_TIMEZONE_OFFSET_STR
        )
    );
    assert_eq!(
        commit_lines.next().unwrap(),
        &format!(
            "committer {} <{}> {} {}",
            TEST_COMMITTER_NAME,
            TEST_COMMITTER_EMAIL,
            TEST_TIMESTAMP_COMMITTER,
            TEST_TIMEZONE_OFFSET_STR
        )
    );
    commit_lines.next();
    assert_eq!(commit_lines.next().unwrap(), TEST_MESSAGE);
}

#[test]
fn test_as_bytes_without_parent() {
    let tree_hash = create_test_hash(TEST_TREE_HASH);
    let author = create_test_user(
        CommitUserKind::Author,
        TEST_AUTHOR_NAME,
        TEST_AUTHOR_EMAIL,
        TEST_TIMESTAMP_AUTHOR,
        1,
    );
    let committer = create_test_user(
        CommitUserKind::Committer,
        TEST_COMMITTER_NAME,
        TEST_COMMITTER_EMAIL,
        TEST_TIMESTAMP_COMMITTER,
        1,
    );

    let bytes = as_bytes(&tree_hash, &vec![], &author, &committer, TEST_MESSAGE.as_bytes());
    let text = String::from_utf8(bytes).unwrap();
    let commit_str: String = text.split('\0').skip(1).collect();
    let mut commit_lines = commit_str.lines();

    assert_eq!(
        commit_lines.next().unwrap(),
        &format!("tree {}", TEST_TREE_HASH)
    );
    assert_eq!(
        commit_lines.next().unwrap(),
        &format!(
            "author {} <{}> {} {}",
            TEST_AUTHOR_NAME, TEST_AUTHOR_EMAIL, TEST_TIMESTAMP_AUTHOR, TEST_TIMEZONE_UTC_STR
        )
    );
    assert_eq!(
        commit_lines.next().unwrap(),
        &format!(
            "committer {} <{}> {} {}",
            TEST_COMMITTER_NAME,
            TEST_COMMITTER_EMAIL,
            TEST_TIMESTAMP_COMMITTER,
            TEST_TIMEZONE_UTC_STR
        )
    );
    commit_lines.next();
    assert_eq!(commit_lines.next().unwrap(), TEST_MESSAGE);
}

#[test]
fn test_from_bytes_with_parent() {
    let data = format!(
        "tree {}\nparent {}\nauthor {} <{}> {} {}\ncommitter {} <{}> {} {}\n\n{}",
        TEST_TREE_HASH,
        TEST_PARENT_HASH,
        TEST_AUTHOR_NAME,
        TEST_AUTHOR_EMAIL,
        TEST_TIMESTAMP_AUTHOR,
        TEST_TIMEZONE_OFFSET_STR,
        TEST_COMMITTER_NAME,
        TEST_COMMITTER_EMAIL,
        TEST_TIMESTAMP_COMMITTER,
        TEST_TIMEZONE_OFFSET_STR,
        TEST_MESSAGE
    );
    let commit_data = format!("commit {}\0{}", data.len(), data);

    let result = from_bytes(commit_data.as_bytes());

    if let Object::Commit { tree, parents, author, committer, message } = result.unwrap() {
        assert_eq!(hex(&tree), TEST_TREE_HASH);
        assert_eq!(hex(&parents[0]), TEST_PARENT_HASH);
        assert_eq!(
            author.identifier,
            format!("{} <{}>", TEST_AUTHOR_NAME, TEST_AUTHOR_EMAIL).into_bytes()
        );
        assert_eq!(
            committer.identifier,
            format!("{} <{}>", TEST_COMMITTER_NAME, TEST_COMMITTER_EMAIL).into_bytes()
        );
        assert_eq!(message, TEST_MESSAGE.as_bytes().to_vec());
    } else {
        panic!("Expected Commit object");
    }
}

fn hex(h: &minigit::hashing::Hash) -> String {
    String::from_utf8(h.to_hex_bytes()).unwrap()
}

#[test]
fn test_from_bytes_without_parent() {
    let data = format!(
        "tree {}\nauthor {} <{}> {} {}\ncommitter {} <{}> {} {}\n\n{}",
        TEST_TREE_HASH,
        TEST_AUTHOR_NAME,
        TEST_AUTHOR_EMAIL,
        TEST_TIMESTAMP_AUTHOR,
        TEST_TIMEZONE_UTC_STR,
        TEST_COMMITTER_NAME,
        TEST_COMMITTER_EMAIL,
        TEST_TIMESTAMP_COMMITTER,
        TEST_TIMEZONE_UTC_STR,
        TEST_MESSAGE
    );
    let commit_data = format!("commit {}\0{}", data.len(), data);

    let result = from_bytes(commit_data.as_bytes());

    if let Object::Commit { tree, parents, author, committer, message } = result.unwrap() {
        assert_eq!(hex(&tree), TEST_TREE_HASH);
        assert!(parents.is_empty());
        assert_eq!(
            author.identifier,
            format!("{} <{}>", TEST_AUTHOR_NAME, TEST_AUTHOR_EMAIL).into_bytes()
        );
        assert_eq!(
            committer.identifier,
            format!("{} <{}>", TEST_COMMITTER_NAME, TEST_COMMITTER_EMAIL).into_bytes()
        );
        assert_eq!(message, TEST_MESSAGE.as_bytes().to_vec());
    } else {
        panic!("Expected Commit object");
    }
}

#[test]
fn test_round_trip_with_parent() {
    let tree_hash = create_test_hash(TEST_TREE_HASH);
    let parent_hash = create_test_hash(TEST_PARENT_HASH);
    let author = create_test_user(
        CommitUserKind::Author,
        TEST_AUTHOR_NAME,
        TEST_AUTHOR_EMAIL,
        TEST_TIMESTAMP_AUTHOR,
        -5,
    );
    let committer = create_test_user(
        CommitUserKind::Committer,
        TEST_COMMITTER_NAME,
        TEST_COMMITTER_EMAIL,
        TEST_TIMESTAMP_COMMITTER,
        -5,
    );

    let bytes = as_bytes(
        &tree_hash,
        &vec![parent_hash],
        &author,
        &committer,
        TEST_MESSAGE_MULTILINE.as_bytes(),
    );
    let parsed = from_bytes(&bytes).unwrap();

    if let Object::Commit { tree, parents, author: pa, committer: pc, message } = parsed {
        assert_eq!(hex(&tree), TEST_TREE_HASH);
        assert_eq!(hex(&parents[0]), TEST_PARENT_HASH);
        assert_eq!(
            pa.identifier,
            format!("{} <{}>", TEST_AUTHOR_NAME, TEST_AUTHOR_EMAIL).into_bytes()
        );
        assert_eq!(
            pc.identifier,
            format!("{} <{}>", TEST_COMMITTER_NAME, TEST_COMMITTER_EMAIL).into_bytes()
        );
        assert_eq!(message, TEST_MESSAGE_MULTILINE.as_bytes().to_vec());
    } else {
        panic!("Expected Commit object");
    }
}

#[test]
fn test_round_trip_without_parent() {
    let tree_hash = create_test_hash(TEST_TREE_HASH);
    let author = create_test_user(
        CommitUserKind::Author,
        TEST_AUTHOR_NAME,
        TEST_AUTHOR_EMAIL,
        TEST_TIMESTAMP_AUTHOR,
        1,
    );
    let committer = create_test_user(
        CommitUserKind::Committer,
        TEST_COMMITTER_NAME,
        TEST_COMMITTER_EMAIL,
        TEST_TIMESTAMP_COMMITTER,
        1,
    );

    let bytes = as_bytes(&tree_hash, &vec![], &author, &committer, TEST_MESSAGE.as_bytes());
    let parsed = from_bytes(&bytes).unwrap();

    if let Object::Commit { tree, parents, author: pa, committer: pc, message } = parsed {
        assert_eq!(hex(&tree), TEST_TREE_HASH);
        assert!(parents.is_empty());
        assert_eq!(
            pa.identifier,
            format!("{} <{}>", TEST_AUTHOR_NAME, TEST_AUTHOR_EMAIL).into_bytes()
        );
        assert_eq!(
            pc.identifier,
            format!("{} <{}>", TEST_COMMITTER_NAME, TEST_COMMITTER_EMAIL).into_bytes()
        );
        assert_eq!(message, TEST_MESSAGE.as_bytes().to_vec());
    } else {
        panic!("Expected Commit object");
    }
}

#[test]
fn test_from_bytes_malformed_missing_tree() {
    let commit_data = format!(
        "author {} <{}> {} {}\ncommitter {} <{}> {} {}\n\nTest",
        TEST_AUTHOR_NAME,
        TEST_AUTHOR_EMAIL,
        TEST_TIMESTAMP_AUTHOR,
        TEST_TIMEZONE_UTC_STR,
        TEST_COMMITTER_NAME,
        TEST_COMMITTER_EMAIL,
        TEST_TIMESTAMP_COMMITTER,
        TEST_TIMEZONE_UTC_STR
    );
    assert!(matches!(
        from_bytes(commit_data.as_bytes()),
        Err(minigit::error::GitError::FormatError)
    ));
}

#[test]
fn test_from_bytes_malformed_invalid_tree() {
    let commit_data = format!(
        "notree {}\nauthor {} <{}> {} {}\ncommitter {} <{}> {} {}\n\nTest",
        TEST_TREE_HASH,
        TEST_AUTHOR_NAME,
        TEST_AUTHOR_EMAIL,
        TEST_TIMESTAMP_AUTHOR,
        TEST_TIMEZONE_UTC_STR,
        TEST_COMMITTER_NAME,
        TEST_COMMITTER_EMAIL,
        TEST_TIMESTAMP_COMMITTER,
        TEST_TIMEZONE_OFFSET_STR
    );
    assert!(matches!(
        from_bytes(commit_data.as_bytes()),
        Err(minigit::error::GitError::FormatError)
    ));
}

#[test]
fn test_from_bytes_malformed_invalid_timestamp() {
    let commit_data = format!(
        "tree {}\nauthor {} <{}> notanumber {}\ncommitter {} <{}> {} {}\n\nTest",
        TEST_TREE_HASH,
        TEST_AUTHOR_NAME,
        TEST_AUTHOR_EMAIL,
        TEST_TIMEZONE_UTC_STR,
        TEST_COMMITTER_NAME,
        TEST_COMMITTER_EMAIL,
        TEST_TIMESTAMP_COMMITTER,
        TEST_TIMEZONE_UTC_STR
    );
    assert!(matches!(
        from_bytes(commit_data.as_bytes()),
        Err(minigit::error::GitError::FormatError)
    ));
}

#[test]
fn test_from_bytes_malformed_invalid_timezone() {
    let commit_data = format!(
        "tree {}\nauthor {} <{}> {} invalid\ncommitter {} <{}> {} {}\n\nTest",
        TEST_TREE_HASH,
        TEST_AUTHOR_NAME,
        TEST_AUTHOR_EMAIL,
        TEST_TIMESTAMP_AUTHOR,
        TEST_COMMITTER_NAME,
        TEST_COMMITTER_EMAIL,
        TEST_TIMESTAMP_COMMITTER,
        TEST_TIMEZONE_UTC_STR
    );
    assert!(matches!(
        from_bytes(commit_data.as_bytes()),
        Err(minigit::error::GitError::FormatError)
    ));
}

#[test]
fn test_from_bytes_empty_message() {
    let commit_data = format!(
        "commit 58\0tree {}\nauthor {} <{}> {} {}\ncommitter {} <{}> {} {}\n\n",
        TEST_TREE_HASH,
        TEST_AUTHOR_NAME,
        TEST_AUTHOR_EMAIL,
        TEST_TIMESTAMP_AUTHOR,
        TEST_TIMEZONE_UTC_STR,
        TEST_COMMITTER_NAME,
        TEST_COMMITTER_EMAIL,
        TEST_TIMESTAMP_COMMITTER,
        TEST_TIMEZONE_UTC_STR
    );
    let result = from_bytes(commit_data.as_bytes());
    if let Object::Commit { message, .. } = result.unwrap() {
        assert_eq!(message, b"".to_vec());
    } else {
        panic!("Expected Commit object");
    }
}

#[test]
fn test_from_bytes_multiline_message() {
    let og_message = "This is a multiline\ncommit message\nwith multiple lines!";
    let commit_data = format!(
        "commit 60\0tree {}\nauthor {} <{}> {} {}\ncommitter {} <{}> {} {}\n\n{}",
        TEST_TREE_HASH,
        TEST_AUTHOR_NAME,
        TEST_AUTHOR_EMAIL,
        TEST_TIMESTAMP_AUTHOR,
        TEST_TIMEZONE_UTC_STR,
        TEST_COMMITTER_NAME,
        TEST_COMMITTER_EMAIL,
        TEST_TIMESTAMP_COMMITTER,
        TEST_TIMEZONE_UTC_STR,
        og_message,
    );
    let result = from_bytes(commit_data.as_bytes());
    if let Object::Commit { message, .. } = result.unwrap() {
        assert_eq!(message, og_message.as_bytes().to_vec());
    } else {
        panic!("Expected Commit object");
    }
}

#[test]
fn test_different_timezones() {
    let tree_hash = create_test_hash(TEST_TREE_HASH);
    let author = create_test_user(
        CommitUserKind::Author,
        TEST_AUTHOR_NAME,
        TEST_AUTHOR_EMAIL,
        TEST_TIMESTAMP_AUTHOR,
        5,
    );
    let committer = create_test_user(
        CommitUserKind::Committer,
        TEST_COMMITTER_NAME,
        TEST_COMMITTER_EMAIL,
        TEST_TIMESTAMP_COMMITTER,
        -8,
    );

    let bytes = as_bytes(
        &tree_hash,
        &vec![],
        &author,
        &committer,
        TEST_MESSAGE_TIMEZONE.as_bytes(),
    );
    let parsed = from_bytes(&bytes).unwrap();

    if let Object::Commit { author: pa, committer: pc, .. } = parsed {
        assert_eq!(pa.timezone.hours, 5);
        assert!(!pa.timezone.negative);
        assert_eq!(pc.timezone.hours, 8);
        assert!(pc.timezone.negative);
    } else {
        panic!("Expected Commit object");
    }
}

#[test]
pub fn test_multiple_parent() {
    let tree_hash = create_test_hash(TEST_TREE_HASH);
    let parents_num = 10;
    let mut parent_hashes = Vec::new();
    for _ in 0..parents_num {
        parent_hashes.push(create_test_hash(TEST_PARENT_HASH));
    }
    let author = create_test_user(
        CommitUserKind::Author,
        TEST_AUTHOR_NAME,
        TEST_AUTHOR_EMAIL,
        TEST_TIMESTAMP_AUTHOR,
        -5,
    );
    let committer = create_test_user(
        CommitUserKind::Committer,
        TEST_COMMITTER_NAME,
        TEST_COMMITTER_EMAIL,
        TEST_TIMESTAMP_COMMITTER,
        -5,
    );

    let bytes = as_bytes(
        &tree_hash,
        &parent_hashes,
        &author,
        &committer,
        TEST_MESSAGE.as_bytes(),
    );
    let parsed = from_bytes(&bytes).unwrap();

    if let Object::Commit { parents, .. } = parsed {
        assert!(parents.len() == parents_num);
        for p in parents.iter() {
            assert_eq!(hex(p), TEST_PARENT_HASH);
        }
    } else {
        panic!("expected commit object")
    }
}

// --- blob and object dispatch ---

#[test]
fn test_blob_round_trip() {
    for data in [b"".to_vec(), b"hello world".to_vec(), vec![0u8, 1, 2, 255]] {
        let blob = Object::Blob { data: data.clone() };
        let bytes = blob.as_bytes();
        match Object::from_bytes(&bytes).unwrap() {
            Object::Blob { data: back } => assert_eq!(back, data),
            _ => panic!("expected blob"),
        }
    }
}

#[test]
fn test_blob_encoding_exact() {
    let bytes = minigit::blob::as_bytes(b"abcd");
    assert_eq!(bytes, b"blob 4\0abcd".to_vec());
}

#[test]
fn test_blob_length_mismatch() {
    assert!(matches!(
        minigit::blob::from_bytes(b"blob 5\0abcd"),
        Err(minigit::error::GitError::FormatError)
    ));
    assert!(matches!(
        minigit::blob::from_bytes(b"blob 3\0abcd"),
        Err(minigit::error::GitError::FormatError)
    ));
}

#[test]
fn test_object_unknown_type() {
    let r = Object::from_bytes(b"weird 0\0");
    assert!(matches!(r, Err(minigit::error::GitError::UnknownType)));
}

fn entry(mode: u32, path: &str, hash_hex: &str) -> TreeEntry {
    TreeEntry {
        mode,
        path: path.as_bytes().to_vec(),
        hash: minigit::hashing::Hash::parse_hex_bytes(hash_hex.as_bytes()).unwrap(),
    }
}

const TEST_HASH_1: &str = "99ad2293829e9638b4dfeeb7bc405a4d140e84e3";
const TEST_HASH_2: &str = "3e9713cc8320cc020e39b53566b2a34022608edc";
const TEST_HASH_3: &str = "99800b85d3383e3a2fb45eb7d0066a4879a9dad0";

fn create_test_entries() -> Vec<TreeEntry> {
    vec![
        entry(100644, "file1.txt", TEST_HASH_1),
        entry(100755, "script.sh", TEST_HASH_2),
        entry(40755, "subdir", TEST_HASH_3),
    ]
}

#[test]
fn test_as_bytes_empty_tree() {
    let entries: Vec<TreeEntry> = vec![];
    let result = minigit::tree::as_bytes(&entries);
    assert_eq!(b"tree 0\0".to_vec(), result);
}

#[test]
fn test_as_bytes_single_entry() {
    let entries = vec![entry(100644, "file1.txt", TEST_HASH_1)];
    let result = minigit::tree::as_bytes(&entries);
    assert!(result.starts_with(b"tree "));
    let text = String::from_utf8_lossy(&result);
    assert!(text.contains("100644 file1.txt"));
    let hash_bytes = minigit::hashing::Hash::parse_hex_bytes(TEST_HASH_1.as_bytes()).unwrap();
    let mut found = false;
    for window in result.windows(20) {
        if window == hash_bytes.as_bytes() {
            found = true;
        }
    }
    assert!(found);
}

#[test]
fn test_as_bytes_multiple_entries() {
    let entries = create_test_entries();
    let result = minigit::tree::as_bytes(&entries);
    assert!(result.starts_with(b"tree "));
    let text = String::from_utf8_lossy(&result);
    assert!(text.contains("100644 file1.txt"));
    assert!(text.contains("100755 script.sh"));
    assert!(text.contains("40755 subdir"));
}

#[test]
fn test_from_bytes_empty_tree() {
    match minigit::tree::from_bytes(b"tree 0\0").unwrap() {
        Object::Tree { entries } => assert_eq!(0, entries.len()),
        _ => panic!("Expected Tree object"),
    }
}

#[test]
fn test_from_bytes_single_entry() {
    let entries = vec![entry(100644, "file1.txt", TEST_HASH_1)];
    let bytes = minigit::tree::as_bytes(&entries);
    match minigit::tree::from_bytes(&bytes).unwrap() {
        Object::Tree { entries: parsed } => {
            assert_eq!(1, parsed.len());
            assert_eq!(100644, parsed[0].mode);
            assert_eq!(b"file1.txt".to_vec(), parsed[0].path);
            assert_eq!(hex(&entries[0].hash), hex(&parsed[0].hash));
        },
        _ => panic!("Expected Tree object"),
    }
}

#[test]
fn test_from_bytes_multiple_entries() {
    let entries = create_test_entries();
    let bytes = minigit::tree::as_bytes(&entries);
    match minigit::tree::from_bytes(&bytes).unwrap() {
        Object::Tree { entries: parsed } => {
            assert_eq!(3, parsed.len());
            assert_eq!(100644, parsed[0].mode);
            assert_eq!(b"file1.txt".to_vec(), parsed[0].path);
            assert_eq!(hex(&entries[0].hash), hex(&parsed[0].hash));
            assert_eq!(100755, parsed[1].mode);
            assert_eq!(b"script.sh".to_vec(), parsed[1].path);
            assert_eq!(hex(&entries[1].hash), hex(&parsed[1].hash));
            assert_eq!(40755, parsed[2].mode);
            assert_eq!(b"subdir".to_vec(), parsed[2].path);
            assert_eq!(hex(&entries[2].hash), hex(&parsed[2].hash));
        },
        _ => panic!("Expected Tree object"),
    }
}

#[test]
fn test_roundtrip_consistency() {
    let original = create_test_entries();
    let bytes = minigit::tree::as_bytes(&original);
    match minigit::tree::from_bytes(&bytes).unwrap() {
        Object::Tree { entries: parsed } => {
            assert_eq!(original.len(), parsed.len());
            for (o, p) in original.iter().zip(parsed.iter()) {
                assert_eq!(o.mode, p.mode);
                assert_eq!(o.path, p.path);
                assert_eq!(o.hash.as_bytes(), p.hash.as_bytes());
            }
        },
        _ => panic!("Expected Tree object"),
    }
}

#[test]
fn test_from_bytes_invalid_object_type() {
    assert!(matches!(
        minigit::tree::from_bytes(b"blob 0\0"),
        Err(minigit::error::GitError::FormatError)
    ));
}

#[test]
fn test_from_bytes_missing_space_after_type() {
    assert!(matches!(
        minigit::tree::from_bytes(b"tree0\0"),
        Err(minigit::error::GitError::FormatError)
    ));
}

#[test]
fn test_from_bytes_missing_null_after_length() {
    assert!(matches!(
        minigit::tree::from_bytes(b"tree 0 "),
        Err(minigit::error::GitError::FormatError)
    ));
}

#[test]
fn test_from_bytes_invalid_length() {
    assert!(matches!(
        minigit::tree::from_bytes(b"tree abc\0"),
        Err(minigit::error::GitError::FormatError)
    ));
}

#[test]
fn test_from_bytes_length_mismatch() {
    let mut input = b"tree 100\0100644 file.txt\0".to_vec();
    input.extend(
        minigit::hashing::Hash::parse_hex_bytes(b"1111111111111111111111111111111111111111")
            .unwrap()
            .as_bytes(),
    );
    assert!(matches!(
        minigit::tree::from_bytes(&input),
        Err(minigit::error::GitError::FormatError)
    ));
}

#[test]
fn test_from_bytes_missing_space_after_mode() {
    assert!(matches!(
        minigit::tree::from_bytes(b"tree 15\0100644filename\0"),
        Err(minigit::error::GitError::FormatError)
    ));
}

#[test]
fn test_from_bytes_missing_null_after_path() {
    assert!(matches!(
        minigit::tree::from_bytes(b"tree 15\0100644 filename "),
        Err(minigit::error::GitError::FormatError)
    ));
}

#[test]
fn test_from_bytes_incomplete_hash() {
    assert!(matches!(
        minigit::tree::from_bytes(b"tree 20\0100644 file\0short_hash"),
        Err(minigit::error::GitError::FormatError)
    ));
}

#[test]
fn test_from_bytes_invalid_mode() {
    let mut input = Vec::new();
    input.extend_from_slice(b"tree 32\0invalid file\0");
    input.extend_from_slice(TEST_HASH_1.as_bytes());
    assert!(matches!(
        minigit::tree::from_bytes(&input),
        Err(minigit::error::GitError::FormatError)
    ));
}

#[test]
fn test_special_characters_in_filename() {
    let entries = vec![entry(100644, "file-with.special_chars", TEST_HASH_1)];
    let bytes = minigit::tree::as_bytes(&entries);
    match minigit::tree::from_bytes(&bytes).unwrap() {
        Object::Tree { entries: parsed } => {
            assert_eq!(b"file-with.special_chars".to_vec(), parsed[0].path);
        },
        _ => panic!("Expected Tree object"),
    }
}

#[test]
fn test_zero_mode() {
    let entries = vec![entry(0, "zero_mode_file", TEST_HASH_1)];
    let bytes = minigit::tree::as_bytes(&entries);
    match minigit::tree::from_bytes(&bytes).unwrap() {
        Object::Tree { entries: parsed } => {
            assert_eq!(0, parsed[0].mode);
            assert_eq!(b"zero_mode_file".to_vec(), parsed[0].path);
        },
        _ => panic!("Expected Tree object"),
    }
}

#[test]
fn test_commit_round_trip_via_object() {
    let author = create_test_user(CommitUserKind::Author, "A B C", "a@b.c", 7, 0);
    let committer = create_test_user(CommitUserKind::Committer, "D", "d@e.f", 9, -11);
    let obj = Object::Commit {
        tree: create_test_hash(TEST_TREE_HASH),
        parents: vec![],
        author,
        committer,
        message: b"zero-parent commit".to_vec(),
    };
    let bytes = obj.as_bytes();
    match Object::from_bytes(&bytes).unwrap() {
        Object::Commit { message, parents, .. } => {
            assert_eq!(message, b"zero-parent commit".to_vec());
            assert!(parents.is_empty());
        },
        _ => panic!("expected commit"),
    }
}
