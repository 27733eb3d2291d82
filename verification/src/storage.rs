//! Objects as they are kept on disk: `"<type> <size>\0<content>"`, named by
//! the SHA-1 of those bytes in lowercase hex and stored zlib-compressed.

use vstd::prelude::*;
use vstd::utf8::*;
use crate::codec::{
    ascii_bytes, decimal, decimal_bytes, find_byte, find_from, hex_encode, hex_lower,
    is_first_at, lemma_ascii_valid_utf8, lemma_decimal_digits, lemma_first_unique,
    lemma_split_at_ascii, slice_copy, str_bytes, string_of_utf8, utf8_string,
};
use crate::digest::{sha1, sha1_digest, zlib_compress, zlib_decompress, zlib_deflated, zlib_inflated};

verus! {

/// The header that precedes an object's content.
pub open spec fn object_header(kind: Seq<u8>, len: nat) -> Seq<u8> {
    kind + seq![32u8] + decimal(len) + seq![0u8]
}

/// An object's bytes before compression: header, then content.
pub open spec fn object_bytes(kind: Seq<u8>, content: Seq<u8>) -> Seq<u8> {
    object_header(kind, content.len()) + content
}

/// An object's name: the lowercase hex of the SHA-1 of its bytes.
pub open spec fn object_name(kind: Seq<u8>, content: Seq<u8>) -> Seq<char> {
    hex_lower(sha1(object_bytes(kind, content)))
}

/// A type name that reads back unchanged from a header: UTF-8 with no
/// space and no NUL byte.
pub open spec fn plain_kind(kind: Seq<u8>) -> bool {
    &&& valid_utf8(kind)
    &&& forall|i: int| 0 <= i < kind.len() ==> #[trigger] kind[i] != 32 && kind[i] != 0
}

/// Why stored bytes are not an object.
#[derive(Debug, Clone, Copy, PartialEq, Eq)]
pub enum ObjectError {
    /// The zlib stream could not be read.
    Decompress,
    /// No NUL byte ends the header.
    MissingHeaderEnd,
    /// The header is not UTF-8.
    HeaderNotUtf8,
    /// The header holds no space between type and size.
    HeaderWithoutSpace,
    /// The object is not of the type that was asked for.
    WrongType,
    /// A commit's content is not UTF-8.
    ContentNotUtf8,
    /// A tree entry has no NUL after its mode and name.
    TreeEntryMissingNul,
    /// A tree entry's mode and name are not UTF-8.
    TreeEntryNotUtf8,
    /// A tree entry's mode and name hold no space.
    TreeEntryWithoutSpace,
    /// A tree entry's 20-byte hash is cut short.
    TreeHashTruncated,
    /// A commit holds no blank line between headers and message.
    CommitWithoutMessage,
    /// An author or committer line has fewer than three space-separated parts.
    BadIdentity,
    /// The timestamp of an author or committer line is not a number.
    BadTimestamp,
    /// A commit names no tree.
    CommitWithoutTree,
}

/// How the bytes of an object come apart: the type (the header up to its
/// first space) and the content (all that follows the first NUL).
pub open spec fn parse_object(raw: Seq<u8>) -> Result<(Seq<u8>, Seq<u8>), ObjectError> {
    match find_from(raw, 0, 0) {
        None => Err(ObjectError::MissingHeaderEnd),
        Some(n) => if !valid_utf8(raw.take(n)) {
            Err(ObjectError::HeaderNotUtf8)
        } else {
            match find_from(raw.take(n), 32, 0) {
                None => Err(ObjectError::HeaderWithoutSpace),
                Some(sp) => Ok((raw.take(sp), raw.skip(n + 1))),
            }
        },
    }
}

/// What reading stored bytes gives: the decompressed object taken apart.
pub open spec fn read_object_result(stored: Seq<u8>) -> Result<(Seq<u8>, Seq<u8>), ObjectError> {
    match zlib_inflated(stored) {
        None => Err(ObjectError::Decompress),
        Some(raw) => parse_object(raw),
    }
}

/// An object ready to be written: its name and its compressed bytes.
#[derive(Debug)]
pub struct StoredObject {
    pub hash: String,
    pub data: Vec<u8>,
}

/// Frames an object, names it and compresses it.
pub fn store_generic_object(obj_type: &str, content: &[u8]) -> (res: StoredObject)
    ensures
        res.hash@ == object_name(encode_utf8(obj_type@), content@),
        res.data@ == zlib_deflated(object_bytes(encode_utf8(obj_type@), content@)),
        sha1(object_bytes(encode_utf8(obj_type@), content@)).len() == 20,
        plain_kind(encode_utf8(obj_type@)) ==> read_object_result(res.data@) == Ok::<(Seq<u8>, Seq<u8>), ObjectError>(
            (encode_utf8(obj_type@), content@),
        ),
{
    let mut raw = str_bytes(obj_type);
    raw.push(32u8);
    let len = decimal_bytes(content.len() as u64);
    raw.extend_from_slice(len.as_slice());
    raw.push(0u8);
    raw.extend_from_slice(content);
    assert(raw@ =~= object_bytes(encode_utf8(obj_type@), content@));
    let digest = sha1_digest(raw.as_slice());
    let hash = hex_encode(&digest);
    let data = zlib_compress(raw.as_slice());
    proof {
        if plain_kind(encode_utf8(obj_type@)) {
            lemma_parse_object_bytes(encode_utf8(obj_type@), content@);
        }
    }
    StoredObject { hash, data }
}

/// Names and compresses the contents of a file as a blob.
pub fn hash_object(content: &[u8]) -> (res: StoredObject)
    ensures
        res.hash@ == object_name(seq![98u8, 108u8, 111u8, 98u8], content@),
        res.data@ == zlib_deflated(object_bytes(seq![98u8, 108u8, 111u8, 98u8], content@)),
        read_object_result(res.data@) == Ok::<(Seq<u8>, Seq<u8>), ObjectError>(
            (seq![98u8, 108u8, 111u8, 98u8], content@),
        ),
{
    let blob = "blob";
    proof {
        reveal_strlit("blob");
        lemma_ascii_valid_utf8(seq![98u8, 108u8, 111u8, 98u8]);
        assert(blob@ =~= seq!['b', 'l', 'o', 'b']);
        assert(seq![98u8, 108u8, 111u8, 98u8].map_values(|x: u8| x as char) =~= blob@);
    }
    store_generic_object(blob, content)
}

/// An object's bytes parse back into the type and content they were made of.
pub proof fn lemma_parse_object_bytes(kind: Seq<u8>, content: Seq<u8>)
    requires
        plain_kind(kind),
    ensures
        parse_object(object_bytes(kind, content)) == Ok::<(Seq<u8>, Seq<u8>), ObjectError>((kind, content)),
{
    let raw = object_bytes(kind, content);
    let d = decimal(content.len());
    lemma_decimal_digits(content.len());
    let n: int = (kind.len() + 1 + d.len()) as int;
    assert(raw[n] == 0u8);
    assert forall|j: int| 0 <= j < n implies raw[j] != 0u8 by {
        if j < kind.len() {
            assert(raw[j] == kind[j]);
        } else if j > kind.len() {
            assert(raw[j] == d[j - kind.len() - 1]);
        }
    }
    assert(is_first_at(raw, 0, 0, n));
    assert(find_from(raw, 0, 0) == Some(n)) by {
        let k = choose|k: int| is_first_at(raw, 0, 0, k);
        lemma_first_unique(raw, 0, 0, n, k);
    }
    let header = raw.take(n);
    let tail = header.skip(kind.len() as int);
    assert(ascii_bytes(tail)) by {
        assert forall|j: int| 0 <= j < tail.len() implies #[trigger] tail[j] < 128 by {
            if j > 0 {
                assert(tail[j] == d[j - 1]);
            }
        }
    }
    lemma_ascii_valid_utf8(tail);
    assert(header =~= kind + tail);
    vstd::utf8::valid_utf8_concat(kind, tail);
    let k0 = kind.len() as int;
    assert(header[k0] == 32u8);
    assert(is_first_at(header, 32, 0, k0));
    assert(find_from(header, 32, 0) == Some(k0)) by {
        let k = choose|k: int| is_first_at(header, 32, 0, k);
        lemma_first_unique(header, 32, 0, k0, k);
    }
    assert(raw.take(k0) =~= kind);
    assert(raw.skip(n + 1) =~= content);
}

/// Decompresses stored bytes and takes the object apart into its type and
/// its content.
pub fn read_object(stored: &[u8]) -> (res: Result<(String, Vec<u8>), ObjectError>)
    ensures
        match res {
            Ok((t, c)) => read_object_result(stored@) == Ok::<(Seq<u8>, Seq<u8>), ObjectError>(
                (encode_utf8(t@), c@),
            ),
            Err(e) => read_object_result(stored@) == Err::<(Seq<u8>, Seq<u8>), ObjectError>(e),
        },
        forall|kind: Seq<u8>, content: Seq<u8>|
            plain_kind(kind) && #[trigger] zlib_deflated(object_bytes(kind, content)) == stored@
                ==> (res matches Ok((t, c)) && encode_utf8(t@) == kind && c@ == content),
{
    let raw = match zlib_decompress(stored) {
        Some(r) => r,
        None => return Err(ObjectError::Decompress),
    };
    proof {
        assert forall|kind: Seq<u8>, content: Seq<u8>|
            plain_kind(kind) && #[trigger] zlib_deflated(object_bytes(kind, content)) == stored@
            implies parse_object(raw@) == Ok::<(Seq<u8>, Seq<u8>), ObjectError>((kind, content)) by {
            lemma_parse_object_bytes(kind, content);
        }
    }
    let n = match find_byte(raw.as_slice(), 0, 0) {
        Some(n) => n,
        None => return Err(ObjectError::MissingHeaderEnd),
    };
    assert(is_first_at(raw@, 0, 0, n as int));
    let header = slice_copy(raw.as_slice(), 0, n);
    assert(header@ =~= raw@.take(n as int));
    let sp = match find_byte(header.as_slice(), 32, 0) {
        Some(sp) => sp,
        None => {
            if utf8_string(header).is_none() {
                return Err(ObjectError::HeaderNotUtf8);
            }
            return Err(ObjectError::HeaderWithoutSpace);
        },
    };
    if utf8_string(slice_copy(header.as_slice(), 0, n)).is_none() {
        assert(header@.subrange(0, n as int) =~= header@);
        return Err(ObjectError::HeaderNotUtf8);
    }
    assert(header@.subrange(0, n as int) =~= header@);
    proof {
        lemma_split_at_ascii(header@, sp as int);
    }
    let kind = slice_copy(header.as_slice(), 0, sp);
    assert(kind@ =~= header@.take(sp as int));
    assert(kind@ =~= raw@.take(sp as int));
    let t = string_of_utf8(kind);
    let raw_len = raw.len();
    assert(n < raw_len);
    let content = slice_copy(raw.as_slice(), n + 1, raw_len);
    assert(content@ =~= raw@.skip(n + 1));
    Ok((t, content))
}

/// What printing a stored object shows: everything after the first NUL of
/// the decompressed bytes.
pub open spec fn cat_file_result(stored: Seq<u8>) -> Result<Seq<u8>, ObjectError> {
    match zlib_inflated(stored) {
        None => Err(ObjectError::Decompress),
        Some(raw) => match find_from(raw, 0, 0) {
            None => Err(ObjectError::MissingHeaderEnd),
            Some(n) => Ok(raw.skip(n + 1)),
        },
    }
}

/// The content of a stored object, as `cat-file -p` prints it: the
/// decompressed bytes after the header's closing NUL.
pub fn cat_file(stored: &[u8]) -> (res: Result<Vec<u8>, ObjectError>)
    ensures
        match res {
            Ok(c) => cat_file_result(stored@) == Ok::<Seq<u8>, ObjectError>(c@),
            Err(e) => cat_file_result(stored@) == Err::<Seq<u8>, ObjectError>(e),
        },
        forall|kind: Seq<u8>, content: Seq<u8>|
            plain_kind(kind) && #[trigger] zlib_deflated(object_bytes(kind, content)) == stored@
                ==> (res matches Ok(c) && c@ == content),
{
    let raw = match zlib_decompress(stored) {
        Some(r) => r,
        None => return Err(ObjectError::Decompress),
    };
    proof {
        assert forall|kind: Seq<u8>, content: Seq<u8>|
            plain_kind(kind) && #[trigger] zlib_deflated(object_bytes(kind, content)) == stored@
            implies cat_file_result(stored@) == Ok::<Seq<u8>, ObjectError>(content) by {
            lemma_parse_object_bytes(kind, content);
        }
    }
    let n = match find_byte(raw.as_slice(), 0, 0) {
        Some(n) => n,
        None => return Err(ObjectError::MissingHeaderEnd),
    };
    let raw_len = raw.len();
    let content = slice_copy(raw.as_slice(), n + 1, raw_len);
    assert(content@ =~= raw@.skip(n + 1));
    Ok(content)
}

} // verus!
