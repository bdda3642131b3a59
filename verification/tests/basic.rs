//! Hashing, number codecs, the object store, path utilities, and the small
//! command helpers.

use minigit::object::Object;
use minigit::store::ObjectStore;

#[test]
pub fn test_hashing() {
    let data = b"this is binary data";
    let data_hash = minigit::hashing::Hash::compute(data);
    let data2 = b"this is binary data";
    let data2_hash = minigit::hashing::Hash::compute(data2);
    assert_eq!(data_hash, data2_hash);
    let data3 = b"This is binary data";
    let data3_hash = minigit::hashing::Hash::compute(data3);
    assert_ne!(data_hash, data3_hash);
}

#[test]
pub fn test_no_change() {
    let hash_bytes: [u8; 20] = [
        1, 2, 3, 4, 5, 6, 7, 8, 9, 10, 11, 12, 13, 14, 15, 16, 17, 18, 19, 20,
    ];
    let hash = minigit::hashing::Hash::from_vec(hash_bytes.to_vec());
    let hash_bytes_changed = hash.as_bytes();
    assert_eq!(&hash_bytes[..], hash_bytes_changed);
}

#[test]
fn test_sha1_known_digest() {
    // the published SHA-1 digest of "abc"
    let h = minigit::hashing::Hash::compute(b"abc");
    assert_eq!(
        String::from_utf8(h.to_hex_bytes()).unwrap(),
        "a9993e364706816aba3e25717850c26c9cd0d89d"
    );
}

#[test]
fn test_hash_parse_and_hex() {
    let s = "0123456789abcdef0123456789abcdef01234567";
    let h = minigit::hashing::Hash::parse_hex_bytes(s.as_bytes()).unwrap();
    assert_eq!(String::from_utf8(h.to_hex_bytes()).unwrap(), s);
    // uppercase digits are accepted and rendered lowercase
    let h2 = minigit::hashing::Hash::parse_hex_bytes(s.to_uppercase().as_bytes()).unwrap();
    assert_eq!(h.as_bytes(), h2.as_bytes());
    assert!(minigit::hashing::Hash::parse_hex_bytes(b"0123").is_err());
    assert!(minigit::hashing::Hash::parse_hex_bytes(b"zz23456789abcdef0123456789abcdef01234567").is_err());
}

#[test]
fn test_hash_determinism_across_objects() {
    let a = Object::Blob { data: b"same".to_vec() };
    let b = Object::Blob { data: b"same".to_vec() };
    assert_eq!(a.hash().as_bytes(), b.hash().as_bytes());
    assert_eq!(a.as_bytes(), b.as_bytes());
}

#[test]
fn test_parse_dec() {
    assert_eq!(minigit::numbers::parse_dec(b"0"), Some(0));
    assert_eq!(minigit::numbers::parse_dec(b"42"), Some(42));
    assert_eq!(minigit::numbers::parse_dec(b"18446744073709551615"), Some(u64::MAX));
    assert_eq!(minigit::numbers::parse_dec(b"18446744073709551616"), None);
    assert_eq!(minigit::numbers::parse_dec(b""), None);
    assert_eq!(minigit::numbers::parse_dec(b"007"), None);
    assert_eq!(minigit::numbers::parse_dec(b"1a"), None);
}

#[test]
fn test_u64_to_dec() {
    assert_eq!(minigit::numbers::u64_to_dec(0), b"0".to_vec());
    assert_eq!(minigit::numbers::u64_to_dec(100644), b"100644".to_vec());
}

#[test]
fn test_as_octal() {
    assert_eq!(minigit::numbers::as_octal(0o100644), 100644);
    assert_eq!(minigit::numbers::as_octal(0o40000), 40000);
    assert_eq!(minigit::numbers::as_octal(0), 0);
    assert_eq!(minigit::numbers::as_octal(7), 7);
}

#[test]
fn test_store_content_addressing() {
    let mut store = ObjectStore::new();
    let obj = Object::Blob { data: b"stored once".to_vec() };
    let (h1, p1) = store.write(&obj);
    assert!(p1.is_some());
    assert_eq!(store.entries.len(), 1);

    // writing the same object twice never produces a second file and never
    // touches the first write
    let obj2 = Object::Blob { data: b"stored once".to_vec() };
    let (h2, p2) = store.write(&obj2);
    assert_eq!(h1.as_bytes(), h2.as_bytes());
    assert!(p2.is_none());
    assert_eq!(store.entries.len(), 1);

    match store.read(&h1).unwrap() {
        Object::Blob { data } => assert_eq!(data, b"stored once".to_vec()),
        _ => panic!("expected blob"),
    }
}

#[test]
fn test_store_read_missing() {
    let store = ObjectStore::new();
    let h = minigit::hashing::Hash::from_vec(vec![7u8; 20]);
    assert!(matches!(store.read(&h), Err(minigit::error::GitError::NotFound)));
}

#[test]
fn test_pending_write_layout() {
    let mut store = ObjectStore::new();
    let obj = Object::Blob { data: b"xyz".to_vec() };
    let (h, p) = store.write(&obj);
    let p = p.unwrap();
    let hex = h.to_hex_bytes();
    assert_eq!(p.dir, hex[0..2].to_vec());
    assert_eq!(p.name, hex[2..40].to_vec());
    // the stored file decompresses back to the encoded object
    let raw = minigit::store::decompress(&p.data).unwrap();
    assert_eq!(raw, obj.as_bytes());
}

#[test]
fn test_compress_decompress_round_trip() {
    let data = b"squeeze me please, repeatedly, repeatedly, repeatedly";
    let packed = minigit::store::compress(data);
    let unpacked = minigit::store::decompress(&packed).unwrap();
    assert_eq!(unpacked, data.to_vec());
}

#[test]
fn test_decompress_garbage_is_corrupt() {
    let r = minigit::store::decompress(b"this is not a zlib stream");
    assert!(matches!(r, Err(minigit::error::GitError::Corrupt)));
}

#[test]
fn test_strip_root() {
    let (root, rest) = minigit::paths::strip_root(b"dir/subdir/file.txt");
    assert_eq!(root.unwrap(), b"dir".to_vec());
    assert_eq!(rest, b"subdir/file.txt".to_vec());

    let (root, rest) = minigit::paths::strip_root(b"file.txt");
    assert_eq!(root.unwrap(), b"file.txt".to_vec());
    assert_eq!(rest, b"".to_vec());

    let (root, _) = minigit::paths::strip_root(b"");
    assert!(root.is_none());
}

#[test]
fn test_relative_path() {
    assert_eq!(
        minigit::paths::relative_path(b"/home/user/repo/a.txt", b"/home/user/repo"),
        Some(b"a.txt".to_vec())
    );
    assert_eq!(minigit::paths::relative_path(b"/other/a.txt", b"/home"), None);
    assert_eq!(minigit::paths::relative_path(b"x", b""), Some(b"x".to_vec()));
    assert_eq!(minigit::paths::relative_path(b"x", b"x"), Some(b"".to_vec()));
}

#[test]
fn test_clean_path() {
    assert_eq!(minigit::paths::clean_path(b"./a/b", false), b"a/b".to_vec());
    assert_eq!(minigit::paths::clean_path(b"/a/b", false), b"a/b".to_vec());
    assert_eq!(minigit::paths::clean_path(b"/a/b", true), b"/a/b".to_vec());
    assert_eq!(minigit::paths::clean_path(b"a/b", false), b"a/b".to_vec());
}

#[test]
fn test_gitignore_filter() {
    let mut g = minigit::paths::Gitignore::new();
    g.add_file(b"target".to_vec());
    g.add_file(b"./notes.txt".to_vec());
    assert!(g.contains(b"target"));
    assert!(g.contains(b"notes.txt"));
    assert!(!g.contains(b"src"));
    let paths = vec![
        b"target".to_vec(),
        b"src".to_vec(),
        b".hidden".to_vec(),
        b".gitignore".to_vec(),
        b"notes.txt".to_vec(),
    ];
    let kept = minigit::paths::not_in_gitignore(&g, paths);
    assert_eq!(kept, vec![b"src".to_vec(), b".gitignore".to_vec()]);
}

#[test]
fn test_constants_layout() {
    assert_eq!(minigit::constants::Constants::repository_path(), ".git");
    assert_eq!(minigit::constants::Constants::objects_path(), ".git/objects");
    assert_eq!(minigit::constants::Constants::refs_path(), ".git/refs");
    assert_eq!(minigit::constants::Constants::heads_path(), ".git/refs/heads");
    assert_eq!(minigit::constants::Constants::head_path(), ".git/HEAD");
    assert_eq!(minigit::constants::Constants::index_path(), ".git/index");
    assert_eq!(minigit::constants::Constants::default_head_content(), "ref: refs/heads/main");
}

#[test]
fn test_branch_name_from_head() {
    let name = minigit::constants::get_current_branch_name(b"ref: refs/heads/main\n").unwrap();
    assert_eq!(name, b"main".to_vec());
    let path = minigit::constants::get_current_branch_path(b"ref: refs/heads/main\n").unwrap();
    assert_eq!(path, b"refs/heads/main".to_vec());
    assert!(minigit::constants::get_current_branch_name(b"no header").is_err());
}

#[test]
fn test_checkout_message() {
    assert_eq!(minigit::commands::checkout(b"abc123"), "HEAD is now at abc123");
}

#[test]
fn test_reset_message() {
    let h = minigit::hashing::Hash::from_vec(vec![0x11u8; 20]);
    assert_eq!(
        minigit::commands::reset_to_commit(false, &h),
        "reset to commit 1111111111111111111111111111111111111111"
    );
}

#[test]
fn test_object_display() {
    let blob = Object::Blob { data: b"plain text".to_vec() };
    assert_eq!(blob.display(), "plain text");
}

#[test]
fn test_get_object_hash_and_filename() {
    let (dir, name) = minigit::store::get_object_hash_and_filename(
        b"0123456789abcdef0123456789abcdef01234567",
    );
    assert_eq!(dir, b"01".to_vec());
    assert_eq!(name, b"23456789abcdef0123456789abcdef01234567".to_vec());
}

#[test]
fn test_lossy_string_utf8() {
    assert_eq!(minigit::display::lossy_string("héllo".as_bytes()), "héllo");
    assert_eq!(minigit::display::lossy_string(&[0x61, 0xff, 0x62]), "a\u{fffd}b");
}

#[test]
fn test_timezone_offset_parse() {
    let t = minigit::commit::parse_tz(b"-0530").unwrap();
    assert!(t.negative);
    assert_eq!(t.hours, 5);
    assert_eq!(t.minutes, 30);
    assert!(minigit::commit::parse_tz(b"0530").is_none());
    assert!(minigit::commit::parse_tz(b"+2500").is_none());
}
