use std::io::Write;

use rgit::codec::{hex_encode, hex_to_bytes};
use rgit::index::{Index, IndexEntry};
use rgit::storage::{cat_file, read_object, store_generic_object, ObjectError};
use rgit::tree::{flatten_tree, parse_tree, write_tree_from_index};

const HELLO: &str = "ce013625030ba8dba906f756967f9e9ca394464a";
const EMPTY: &str = "e69de29bb2d1d6434b8b29ae775ad8c2e48c5391";

fn entry(path: &str, mode: u32, hash: &str) -> IndexEntry {
    let mut sha1 = [0u8; 20];
    sha1.copy_from_slice(&hex_to_bytes(hash).unwrap());
    IndexEntry { mtime: 1, mode, sha1, path: path.to_string() }
}

fn sample_index() -> Index {
    let mut idx = Index::new();
    idx.insert(entry("dir/b.txt", 100644, EMPTY));
    idx.insert(entry("a.txt", 100644, HELLO));
    idx.insert(entry("dir-x", 100755, EMPTY));
    idx
}

fn deflate(raw: &[u8]) -> Vec<u8> {
    let mut e = flate2::write::ZlibEncoder::new(Vec::new(), flate2::Compression::default());
    e.write_all(raw).unwrap();
    e.finish().unwrap()
}

#[test]
fn write_tree_known_hashes() {
    let w = write_tree_from_index(&sample_index());
    assert_eq!(w.hash, "e29adef520f166358bc0599fa1079fac86d74af9");
    assert_eq!(w.objects.len(), 2);
    assert_eq!(w.objects[0].hash, "ec5e386905ff2d36e291086a1207f2585aaa8920");
    assert_eq!(w.objects[1].hash, w.hash);
}

#[test]
fn write_tree_sorts_directories_with_slash() {
    let w = write_tree_from_index(&sample_index());
    let content = cat_file(&w.objects[1].data).unwrap();
    let mut expected: Vec<u8> = Vec::new();
    expected.extend_from_slice(b"100644 a.txt\0");
    expected.extend_from_slice(&hex_to_bytes(HELLO).unwrap());
    expected.extend_from_slice(b"100755 dir-x\0");
    expected.extend_from_slice(&hex_to_bytes(EMPTY).unwrap());
    expected.extend_from_slice(b"40000 dir\0");
    expected.extend_from_slice(&hex_to_bytes("ec5e386905ff2d36e291086a1207f2585aaa8920").unwrap());
    assert_eq!(content, expected);
}

#[test]
fn write_tree_empty_index() {
    let w = write_tree_from_index(&Index::new());
    assert_eq!(w.hash, "4b825dc642cb6eb9a060e54bf8d69288fbee4904");
    assert_eq!(w.objects.len(), 1);
}

#[test]
fn write_tree_nested_directories() {
    let mut idx = Index::new();
    idx.insert(entry("a/b/c.txt", 100644, HELLO));
    let w = write_tree_from_index(&idx);
    assert_eq!(w.objects.len(), 3);
    let names: Vec<(String, Vec<u8>)> = w
        .objects
        .iter()
        .map(|o| {
            let (t, c) = read_object(&o.data).unwrap();
            (t, c)
        })
        .collect();
    assert!(names.iter().all(|(t, _)| t == "tree"));
    let leaf = flatten_tree("a/b", &w.objects[0].data).unwrap();
    assert_eq!(leaf.len(), 1);
    assert_eq!((leaf[0].path.as_str(), leaf[0].hash.as_str(), leaf[0].is_tree), ("a/b/c.txt", HELLO, false));
    let mid = flatten_tree("a", &w.objects[1].data).unwrap();
    assert_eq!((mid[0].path.as_str(), mid[0].is_tree), ("a/b", true));
    assert_eq!(mid[0].hash, w.objects[0].hash);
    let root = flatten_tree("", &w.objects[2].data).unwrap();
    assert_eq!((root[0].path.as_str(), root[0].is_tree), ("a", true));
    assert_eq!(root[0].hash, w.objects[1].hash);
}

#[test]
fn written_tree_reads_back() {
    let w = write_tree_from_index(&sample_index());
    let root = flatten_tree("", &w.objects[1].data).unwrap();
    let got: Vec<(String, String, bool)> =
        root.into_iter().map(|f| (f.path, f.hash, f.is_tree)).collect();
    assert_eq!(
        got,
        vec![
            ("a.txt".to_string(), HELLO.to_string(), false),
            ("dir-x".to_string(), EMPTY.to_string(), false),
            ("dir".to_string(), "ec5e386905ff2d36e291086a1207f2585aaa8920".to_string(), true),
        ]
    );
    let sub = flatten_tree("dir", &w.objects[0].data).unwrap();
    assert_eq!(sub.len(), 1);
    assert_eq!((sub[0].path.as_str(), sub[0].hash.as_str()), ("dir/b.txt", EMPTY));
}

#[test]
fn parse_tree_prefixes_paths() {
    let mut c: Vec<u8> = b"100644 x y\0".to_vec();
    c.extend_from_slice(&[0xabu8; 20]);
    let items = parse_tree("top/level", &c).unwrap();
    assert_eq!(items.len(), 1);
    assert_eq!(items[0].path, "top/level/x y");
    assert_eq!(items[0].hash, hex_encode(&[0xabu8; 20]));
    assert!(!items[0].is_tree);
}

#[test]
fn parse_tree_errors() {
    assert_eq!(parse_tree("", b"100644 a").err(), Some(ObjectError::TreeEntryMissingNul));
    assert_eq!(parse_tree("", b"100644 \xff\0").err(), Some(ObjectError::TreeEntryNotUtf8));
    assert_eq!(parse_tree("", b"100644a\0").err(), Some(ObjectError::TreeEntryWithoutSpace));
    let mut short: Vec<u8> = b"100644 a\0".to_vec();
    short.extend_from_slice(&[1u8; 19]);
    assert_eq!(parse_tree("", &short).err(), Some(ObjectError::TreeHashTruncated));
    assert!(parse_tree("", b"").unwrap().is_empty());
}

#[test]
fn flatten_tree_wrong_type() {
    let o = store_generic_object("blob", b"");
    assert_eq!(flatten_tree("", &o.data).err(), Some(ObjectError::WrongType));
    assert_eq!(flatten_tree("", b"xx").err(), Some(ObjectError::Decompress));
    assert_eq!(
        flatten_tree("", &deflate(b"tree 3\0bad")).err(),
        Some(ObjectError::TreeEntryMissingNul)
    );
}

fn walk(
    store: &std::collections::BTreeMap<String, Vec<u8>>,
    hash: &str,
    prefix: &str,
    out: &mut Vec<(String, String)>,
) {
    let items = flatten_tree(prefix, &store[hash]).unwrap();
    for it in items {
        if it.is_tree {
            walk(store, &it.hash, &it.path, out);
        } else {
            out.push((it.path, it.hash));
        }
    }
}

#[test]
fn written_trees_list_every_staged_file() {
    let mut idx = Index::new();
    idx.insert(entry("README.md", 100644, HELLO));
    idx.insert(entry("src/main.rs", 100644, EMPTY));
    idx.insert(entry("src/lib/mod.rs", 100755, HELLO));
    idx.insert(entry("src/lib/util/x", 100644, EMPTY));
    idx.insert(entry("src-old/a", 100644, HELLO));
    idx.insert(entry("docs/guide/intro.md", 100644, EMPTY));
    let w = write_tree_from_index(&idx);
    let store: std::collections::BTreeMap<String, Vec<u8>> =
        w.objects.iter().map(|o| (o.hash.clone(), o.data.clone())).collect();
    let mut listed: Vec<(String, String)> = Vec::new();
    walk(&store, &w.hash, "", &mut listed);
    listed.sort();
    let mut staged: Vec<(String, String)> = idx
        .entries()
        .iter()
        .map(|e| (e.path.clone(), hex_encode(&e.sha1)))
        .collect();
    staged.sort();
    assert_eq!(listed, staged);
    assert_eq!(w.objects.len(), 7);
}

#[test]
fn tree_name_ignores_times() {
    let mut a = Index::new();
    let mut b = Index::new();
    for (p, m) in [("x/1", 5u64), ("y", 6u64)] {
        let mut e = entry(p, 100644, HELLO);
        e.mtime = m;
        a.insert(e);
        let mut f = entry(p, 100644, HELLO);
        f.mtime = m * 1000 + 7;
        b.insert(f);
    }
    assert_eq!(write_tree_from_index(&a).hash, write_tree_from_index(&b).hash);
}

#[test]
fn subtree_name_ignores_other_entries() {
    let mut a = Index::new();
    a.insert(entry("dir/x", 100644, HELLO));
    a.insert(entry("other/y", 100644, HELLO));
    let mut b = Index::new();
    b.insert(entry("dir/x", 100644, HELLO));
    b.insert(entry("other/a/very/long/path/z", 100755, EMPTY));
    b.insert(entry("zzz", 100644, EMPTY));
    let sub_of = |w: &rgit::tree::TreeWrite| {
        let root = flatten_tree("", &w.objects.last().unwrap().data).unwrap();
        root.into_iter().find(|f| f.path == "dir").unwrap().hash
    };
    let wa = write_tree_from_index(&a);
    let wb = write_tree_from_index(&b);
    assert_ne!(wa.hash, wb.hash);
    assert_eq!(sub_of(&wa), sub_of(&wb));
}

#[test]
fn root_tree_name_has_forty_hex_digits() {
    let w = write_tree_from_index(&sample_index());
    assert_eq!(w.hash.len(), 40);
    assert!(w.hash.chars().all(|c| c.is_ascii_digit() || ('a'..='f').contains(&c)));
}
