use std::io::Write;

use rgit::storage::{cat_file, hash_object, read_object, store_generic_object, ObjectError};

fn deflate(raw: &[u8]) -> Vec<u8> {
    let mut e = flate2::write::ZlibEncoder::new(Vec::new(), flate2::Compression::default());
    e.write_all(raw).unwrap();
    e.finish().unwrap()
}

#[test]
fn empty_blob_has_known_name() {
    let o = hash_object(b"");
    assert_eq!(o.hash, "e69de29bb2d1d6434b8b29ae775ad8c2e48c5391");
}

#[test]
fn blob_has_known_name() {
    let o = hash_object(b"hello\n");
    assert_eq!(o.hash, "ce013625030ba8dba906f756967f9e9ca394464a");
}

#[test]
fn empty_tree_has_known_name() {
    let o = store_generic_object("tree", b"");
    assert_eq!(o.hash, "4b825dc642cb6eb9a060e54bf8d69288fbee4904");
}

#[test]
fn stored_object_is_compressed_frame() {
    let o = hash_object(b"hello\n");
    assert_ne!(o.data, b"blob 6\0hello\n".to_vec());
    let mut d = flate2::read::ZlibDecoder::new(o.data.as_slice());
    let mut out = Vec::new();
    std::io::Read::read_to_end(&mut d, &mut out).unwrap();
    assert_eq!(out, b"blob 6\0hello\n".to_vec());
}

#[test]
fn read_object_gives_back_type_and_content() {
    let o = store_generic_object("commit", b"some\0binary\ncontent");
    let (t, c) = read_object(&o.data).unwrap();
    assert_eq!(t, "commit");
    assert_eq!(c, b"some\0binary\ncontent".to_vec());
}

#[test]
fn read_object_not_zlib() {
    assert_eq!(read_object(b"plain bytes"), Err(ObjectError::Decompress));
}

#[test]
fn read_object_without_nul() {
    assert_eq!(read_object(&deflate(b"blob 3abc")), Err(ObjectError::MissingHeaderEnd));
}

#[test]
fn read_object_header_not_utf8() {
    assert_eq!(read_object(&deflate(b"\xff 1\0a")), Err(ObjectError::HeaderNotUtf8));
    assert_eq!(read_object(&deflate(b"\xff\0a")), Err(ObjectError::HeaderNotUtf8));
}

#[test]
fn read_object_header_without_space() {
    assert_eq!(read_object(&deflate(b"blob\0abc")), Err(ObjectError::HeaderWithoutSpace));
}

#[test]
fn read_object_takes_type_up_to_first_space() {
    let (t, c) = read_object(&deflate(b"odd type 9\0xyz")).unwrap();
    assert_eq!(t, "odd");
    assert_eq!(c, b"xyz".to_vec());
}

#[test]
fn cat_file_prints_content() {
    let o = hash_object(b"line one\nline two\n");
    assert_eq!(cat_file(&o.data).unwrap(), b"line one\nline two\n".to_vec());
    assert_eq!(cat_file(&deflate(b"\xff\xfe\0rest")).unwrap(), b"rest".to_vec());
}

#[test]
fn cat_file_errors() {
    assert_eq!(cat_file(b"not zlib at all"), Err(ObjectError::Decompress));
    assert_eq!(cat_file(&deflate(b"no header end")), Err(ObjectError::MissingHeaderEnd));
}
