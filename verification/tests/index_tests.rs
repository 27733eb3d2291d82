use sha1::Digest;

use rgit::index::{Index, IndexEntry, IndexError};

fn entry(path: &str, mtime: u64, mode: u32, fill: u8) -> IndexEntry {
    IndexEntry { mtime, mode, sha1: [fill; 20], path: path.to_string() }
}

fn paths(idx: &Index) -> Vec<String> {
    idx.entries().iter().map(|e| e.path.clone()).collect()
}

#[test]
fn new_index_is_empty() {
    let idx = Index::new();
    assert_eq!(idx.len(), 0);
    assert!(idx.entries().is_empty());
}

#[test]
fn default_index_is_empty() {
    assert_eq!(Index::default().len(), 0);
}

#[test]
fn entries_stay_in_path_order() {
    let mut idx = Index::new();
    idx.insert(entry("src/main.rs", 1, 100644, 1));
    idx.insert(entry("README.md", 2, 100644, 2));
    idx.insert(entry("src-extra", 3, 100755, 3));
    idx.insert(entry("Cargo.toml", 4, 100644, 4));
    assert_eq!(paths(&idx), vec!["Cargo.toml", "README.md", "src-extra", "src/main.rs"]);
}

#[test]
fn insert_replaces_same_path() {
    let mut idx = Index::new();
    idx.insert(entry("a", 1, 100644, 1));
    idx.insert(entry("b", 1, 100644, 1));
    idx.insert(entry("a", 9, 100755, 7));
    assert_eq!(idx.len(), 2);
    let a = &idx.entries()[0];
    assert_eq!((a.mtime, a.mode, a.sha1), (9, 100755, [7u8; 20]));
}

#[test]
fn remove_takes_entry_out() {
    let mut idx = Index::new();
    idx.insert(entry("a", 1, 100644, 1));
    idx.insert(entry("b", 2, 100644, 2));
    let r = idx.remove("a").unwrap();
    assert_eq!((r.path.as_str(), r.mtime), ("a", 1));
    assert_eq!(paths(&idx), vec!["b"]);
    assert!(idx.remove("a").is_none());
    assert!(idx.remove("zzz").is_none());
    assert_eq!(idx.len(), 1);
}

#[test]
fn add_stamps_entry() {
    let mut idx = Index::new();
    idx.add("dir/file.txt", 100644, [5u8; 20]);
    idx.add("dir/file.txt", 100755, [6u8; 20]);
    assert_eq!(idx.len(), 1);
    let e = &idx.entries()[0];
    assert_eq!(e.path, "dir/file.txt");
    assert_eq!(e.mode, 100755);
    assert_eq!(e.sha1, [6u8; 20]);
    assert!(e.mtime > 1_600_000_000_000_000_000);
}

#[test]
fn add_at_stamps_nanoseconds() {
    let mut idx = Index::new();
    idx.add_at("f", 100644, [1u8; 20], 1_700_000_000, 123);
    assert_eq!(idx.entries()[0].mtime, 1_700_000_000_000_000_123);
    idx.add_at("f", 100755, [2u8; 20], 0, 999_999_999);
    assert_eq!(idx.len(), 1);
    assert_eq!((idx.entries()[0].mtime, idx.entries()[0].mode), (999_999_999, 100755));
    idx.add_at("g", 100644, [3u8; 20], u64::MAX, 0);
    assert_eq!(idx.entries()[1].mtime, 18446744072709551616u64);
}

#[test]
fn save_writes_documented_format() {
    let mut idx = Index::new();
    idx.insert(entry("a", 5, 100644, 0));
    let data = idx.save();
    let mut body: Vec<u8> = Vec::new();
    body.extend_from_slice(b"DIRC");
    body.extend_from_slice(&[0, 0, 0, 1]);
    body.extend_from_slice(&[0, 0, 0, 1]);
    body.extend_from_slice(&5u64.to_be_bytes());
    body.extend_from_slice(&100644u32.to_be_bytes());
    body.extend_from_slice(&[0u8; 20]);
    body.extend_from_slice(b"a\0");
    let checksum = sha1::Sha1::digest(&body);
    body.extend_from_slice(&checksum);
    assert_eq!(data, body);
}

#[test]
fn save_then_load_gives_same_entries() {
    let mut idx = Index::new();
    idx.insert(entry("zeta/file", 123456789, 100755, 9));
    idx.insert(entry("alpha", u64::MAX, 100644, 1));
    idx.insert(entry("mid", 0, 0, 255));
    let data = idx.save();
    let back = Index::load(&data).unwrap();
    assert_eq!(back.len(), 3);
    for (x, y) in idx.entries().iter().zip(back.entries().iter()) {
        assert_eq!((&x.path, x.mtime, x.mode, x.sha1), (&y.path, y.mtime, y.mode, y.sha1));
    }
}

#[test]
fn load_empty_index() {
    let data = Index::new().save();
    assert_eq!(data.len(), 32);
    assert_eq!(Index::load(&data).unwrap().len(), 0);
}

#[test]
fn load_later_entry_wins() {
    let mut data: Vec<u8> = Vec::new();
    data.extend_from_slice(b"DIRC");
    data.extend_from_slice(&[0, 0, 0, 1, 0, 0, 0, 2]);
    for mtime in [1u64, 2u64] {
        data.extend_from_slice(&mtime.to_be_bytes());
        data.extend_from_slice(&100644u32.to_be_bytes());
        data.extend_from_slice(&[0u8; 20]);
        data.extend_from_slice(b"same\0");
    }
    let idx = Index::load(&data).unwrap();
    assert_eq!(idx.len(), 1);
    assert_eq!(idx.entries()[0].mtime, 2);
}

#[test]
fn load_too_short() {
    assert_eq!(Index::load(b"DIRC\0\0\0\x01").err(), Some(IndexError::TooShort));
}

#[test]
fn load_bad_signature() {
    assert_eq!(
        Index::load(b"DIRX\0\0\0\x01\0\0\0\0").err(),
        Some(IndexError::BadSignature)
    );
}

#[test]
fn load_unsupported_version() {
    assert_eq!(
        Index::load(b"DIRC\0\0\0\x02\0\0\0\0").err(),
        Some(IndexError::UnsupportedVersion { version: 2 })
    );
}

#[test]
fn load_truncated_entry() {
    let mut data = b"DIRC\0\0\0\x01\0\0\0\x01".to_vec();
    data.extend_from_slice(&[0u8; 10]);
    assert_eq!(Index::load(&data).err(), Some(IndexError::Truncated));
}

#[test]
fn load_path_without_nul() {
    let mut data = b"DIRC\0\0\0\x01\0\0\0\x01".to_vec();
    data.extend_from_slice(&[0u8; 32]);
    data.extend_from_slice(b"path");
    assert_eq!(Index::load(&data).err(), Some(IndexError::MissingPathEnd));
}

#[test]
fn load_path_not_utf8() {
    let mut data = b"DIRC\0\0\0\x01\0\0\0\x01".to_vec();
    data.extend_from_slice(&[0u8; 32]);
    data.extend_from_slice(b"\xff\xfe\0");
    assert_eq!(Index::load(&data).err(), Some(IndexError::PathNotUtf8));
}
