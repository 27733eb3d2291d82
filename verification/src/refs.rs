//! References: where a ref lives, what its file holds, and what writing one
//! puts there. A ref file holds either a 40-digit hash or `ref: <name>`.

use vstd::prelude::*;
use vstd::utf8::*;
use crate::codec::{
    all_hex_digits, ascii_bytes, has_prefix, hex_digit_value, lemma_ascii_valid_utf8,
    lemma_split_after_ascii, starts_with_bytes, str_bytes, str_trim, string_of_utf8,
    trim_chars, slice_copy, is_whitespace_char, trim_start_chars, trim_end_chars,
    lemma_decode_framed, lemma_encode_concat,
};

verus! {

/// `ref: `, which opens a symbolic ref.
pub open spec fn symbolic_prefix() -> Seq<u8> {
    seq![114u8, 101u8, 102u8, 58u8, 32u8]
}

/// `refs/`, which opens a ref name.
pub open spec fn refs_prefix() -> Seq<u8> {
    seq![114u8, 101u8, 102u8, 115u8, 47u8]
}

/// `.rgit/`, the repository directory.
pub open spec fn repo_dir() -> Seq<u8> {
    seq![46u8, 114u8, 103u8, 105u8, 116u8, 47u8]
}

/// A full object hash: exactly 40 hex digits, either case.
pub open spec fn valid_hash(b: Seq<u8>) -> bool {
    b.len() == 40 && all_hex_digits(b)
}

/// Why a ref cannot be written.
#[derive(Debug, Clone, Copy, PartialEq, Eq)]
pub enum RefError {
    /// The value is not 40 hex digits.
    InvalidHash,
}

/// Whether a byte is an ASCII hex digit.
fn is_hex_digit(c: u8) -> (res: bool)
    ensures
        res == (hex_digit_value(c) is Some),
{
    (48 <= c && c <= 57) || (97 <= c && c <= 102) || (65 <= c && c <= 70)
}

/// Accepts exactly the 40-digit hex hashes.
pub fn validate_hash(hash: &str) -> (res: Result<(), RefError>)
    ensures
        res is Ok <==> valid_hash(encode_utf8(hash@)),
        res is Err ==> res == Err::<(), RefError>(RefError::InvalidHash),
{
    let b = hash.as_bytes();
    if b.len() != 40 {
        return Err(RefError::InvalidHash);
    }
    let mut i: usize = 0;
    while i < b.len()
        invariant
            b@ == encode_utf8(hash@),
            i <= b@.len(),
            forall|j: int| 0 <= j < i ==> (#[trigger] hex_digit_value(b@[j])) is Some,
        decreases b.len() - i,
    {
        if !is_hex_digit(b[i]) {
            assert(hex_digit_value(b@[i as int]) is None);
            assert(!all_hex_digits(b@));
            return Err(RefError::InvalidHash);
        }
        i = i + 1;
    }
    Ok(())
}

/// The text that the bytes `prefix + body + suffix` spell, where prefix and
/// suffix are ASCII and body is valid UTF-8.
fn framed_string(prefix: &[u8], body: &[u8], suffix: &[u8]) -> (res: String)
    requires
        ascii_bytes(prefix@),
        ascii_bytes(suffix@),
        valid_utf8(body@),
    ensures
        encode_utf8(res@) == prefix@ + body@ + suffix@,
{
    let mut v: Vec<u8> = Vec::new();
    v.extend_from_slice(prefix);
    v.extend_from_slice(body);
    v.extend_from_slice(suffix);
    proof {
        lemma_ascii_valid_utf8(prefix@);
        lemma_ascii_valid_utf8(suffix@);
        valid_utf8_concat(prefix@, body@);
        valid_utf8_concat(prefix@ + body@, suffix@);
        assert(v@ =~= prefix@ + body@ + suffix@);
    }
    string_of_utf8(v)
}

/// The file that holds a ref: under `.rgit/`, unless the name is an
/// absolute path, which then stands for itself.
pub fn ref_path(refname: &str) -> (res: String)
    ensures
        encode_utf8(res@) == if has_prefix(encode_utf8(refname@), seq![47u8]) {
            encode_utf8(refname@)
        } else {
            repo_dir() + encode_utf8(refname@)
        },
{
    let b = refname.as_bytes();
    proof {
        encode_utf8_valid_utf8(refname@);
    }
    let slash: [u8; 1] = [47u8];
    if starts_with_bytes(b, &slash) {
        assert(slash@ =~= seq![47u8]);
        let e: [u8; 0] = [];
        let r = framed_string(&e, b, &e);
        assert(e@ + b@ + e@ =~= b@);
        r
    } else {
        assert(slash@ =~= seq![47u8]);
        let dir: [u8; 6] = [46u8, 114u8, 103u8, 105u8, 116u8, 47u8];
        let e: [u8; 0] = [];
        assert(dir@ =~= repo_dir());
        let r = framed_string(&dir, b, &e);
        assert(dir@ + b@ + e@ =~= repo_dir() + b@);
        r
    }
}

/// What a ref file holds once trimmed: the name after `ref: ` if it is
/// symbolic.
pub open spec fn symbolic_target(content: Seq<u8>) -> Option<Seq<u8>> {
    if has_prefix(content, symbolic_prefix()) {
        Some(content.skip(5))
    } else {
        None
    }
}

/// What a ref file says.
#[derive(Debug)]
pub enum RefValue {
    /// `ref: <name>`: follow the named ref.
    Symbolic(String),
    /// Anything else: the value itself, taken as a commit hash.
    Direct(String),
}

/// The trimmed content and, if it is symbolic, the name it points to.
fn split_ref(raw: &str) -> (res: (String, Option<String>))
    ensures
        encode_utf8(res.0@) == encode_utf8(trim_chars(raw@)),
        match res.1 {
            Some(t) => symbolic_target(encode_utf8(trim_chars(raw@))) == Some(encode_utf8(t@)),
            None => symbolic_target(encode_utf8(trim_chars(raw@))) is None,
        },
{
    let trimmed = str_trim(raw);
    let b = str_bytes(trimmed);
    proof {
        encode_utf8_valid_utf8(trimmed@);
    }
    let copy = slice_copy(b.as_slice(), 0, b.len());
    assert(copy@ =~= b@);
    let whole = string_of_utf8(copy);
    let p: [u8; 5] = [114u8, 101u8, 102u8, 58u8, 32u8];
    assert(p@ =~= symbolic_prefix());
    if starts_with_bytes(b.as_slice(), &p) {
        proof {
            assert(b@[4] == b@.take(5)[4]);
            lemma_split_after_ascii(b@, 5);
        }
        let rest = slice_copy(b.as_slice(), 5, b.len());
        assert(rest@ =~= b@.skip(5));
        (whole, Some(string_of_utf8(rest)))
    } else {
        (whole, None)
    }
}

/// Reads a ref file's content: symbolic if, once trimmed, it starts with
/// `ref: `, else the trimmed content itself.
pub fn parse_ref(raw: &str) -> (res: RefValue)
    ensures
        match res {
            RefValue::Symbolic(t) => symbolic_target(encode_utf8(trim_chars(raw@))) == Some(
                encode_utf8(t@),
            ),
            RefValue::Direct(v) => symbolic_target(encode_utf8(trim_chars(raw@))) is None
                && encode_utf8(v@) == encode_utf8(trim_chars(raw@)),
        },
{
    let (whole, target) = split_ref(raw);
    match target {
        Some(t) => RefValue::Symbolic(t),
        None => RefValue::Direct(whole),
    }
}

/// The ref that HEAD's content names, or `None` for a detached HEAD.
pub fn head_ref(raw: &str) -> (res: Option<String>)
    ensures
        match res {
            Some(t) => symbolic_target(encode_utf8(trim_chars(raw@))) == Some(encode_utf8(t@)),
            None => symbolic_target(encode_utf8(trim_chars(raw@))) is None,
        },
{
    split_ref(raw).1
}

/// Where a ref update writes, and what.
#[derive(Debug)]
pub struct RefUpdate {
    pub path: String,
    pub content: String,
}

/// Points a ref at a hash: the file is the ref's path and the content the
/// hash and a newline. Anything but a 40-digit hex hash is refused.
pub fn update_ref(refname: &str, hash: &str) -> (res: Result<RefUpdate, RefError>)
    ensures
        res is Ok <==> valid_hash(encode_utf8(hash@)),
        res is Err ==> res matches Err(RefError::InvalidHash),
        res matches Ok(u) ==> {
            &&& encode_utf8(u.content@) == encode_utf8(hash@) + seq![10u8]
            &&& encode_utf8(u.path@) == if has_prefix(encode_utf8(refname@), seq![47u8]) {
                encode_utf8(refname@)
            } else {
                repo_dir() + encode_utf8(refname@)
            }
        },
{
    validate_hash(hash)?;
    let path = ref_path(refname);
    let e: [u8; 0] = [];
    let nl: [u8; 1] = [10u8];
    proof {
        encode_utf8_valid_utf8(hash@);
    }
    let content = framed_string(&e, hash.as_bytes(), &nl);
    assert(e@ + encode_utf8(hash@) + nl@ =~= encode_utf8(hash@) + seq![10u8]);
    Ok(RefUpdate { path, content })
}

/// What HEAD holds after pointing it at `target`: `ref: <target>` for a
/// name under `refs/`, else the target itself, which must then be a
/// 40-digit hex hash; a newline ends it.
pub fn set_head(target: &str) -> (res: Result<String, RefError>)
    ensures
        has_prefix(encode_utf8(target@), refs_prefix()) ==> (res matches Ok(c) && encode_utf8(c@)
            == symbolic_prefix() + encode_utf8(target@) + seq![10u8]),
        !has_prefix(encode_utf8(target@), refs_prefix()) ==> (res is Ok <==> valid_hash(
            encode_utf8(target@),
        )),
        !has_prefix(encode_utf8(target@), refs_prefix()) ==> (res matches Ok(c) ==> encode_utf8(
            c@,
        ) == encode_utf8(target@) + seq![10u8]),
        res is Err ==> res matches Err(RefError::InvalidHash),
{
    let b = target.as_bytes();
    let refs: [u8; 5] = [114u8, 101u8, 102u8, 115u8, 47u8];
    assert(refs@ =~= refs_prefix());
    proof {
        encode_utf8_valid_utf8(target@);
    }
    let nl: [u8; 1] = [10u8];
    if starts_with_bytes(b, &refs) {
        let p: [u8; 5] = [114u8, 101u8, 102u8, 58u8, 32u8];
        assert(p@ =~= symbolic_prefix());
        let c = framed_string(&p, b, &nl);
        assert(nl@ =~= seq![10u8]);
        Ok(c)
    } else {
        validate_hash(target)?;
        let e: [u8; 0] = [];
        let c = framed_string(&e, b, &nl);
        assert(e@ + b@ + nl@ =~= b@ + seq![10u8]);
        Ok(c)
    }
}


/// What `set_head` writes for a ref name reads back, through `head_ref`,
/// as that name, provided the name does not end in white space (which
/// trimming would take off).
pub proof fn lemma_set_head_then_head_ref(content: Seq<char>, target: Seq<char>)
    requires
        has_prefix(encode_utf8(target), refs_prefix()),
        target.len() > 0 ==> !is_whitespace_char(target.last()),
        encode_utf8(content) == symbolic_prefix() + encode_utf8(target) + seq![10u8],
    ensures
        symbolic_target(encode_utf8(trim_chars(content))) == Some(encode_utf8(target)),
{
    let p = symbolic_prefix();
    let t = encode_utf8(target);
    encode_utf8_valid_utf8(target);
    encode_utf8_decode_utf8(target);
    assert(t[0] == t.take(5)[0]);
    lemma_decode_framed(content, p, t, seq![10u8]);
    let pc = p.map_values(|v: u8| v as char);
    assert(content == pc + target + seq!['\n']);
    assert(target.len() > 0) by {
        if target.len() == 0 {
            assert(encode_utf8(target) =~= Seq::<u8>::empty());
        }
    }
    assert(content[0] == 'r');
    assert(trim_start_chars(content) == content);
    assert(content.drop_last() =~= pc + target);
    assert(content.last() == '\n');
    assert((pc + target).last() == target.last());
    assert(trim_end_chars(content.drop_last()) == content.drop_last());
    assert(trim_chars(content) == pc + target);
    lemma_encode_concat(pc, target);
    crate::codec::lemma_ascii_valid_utf8(p);
    let e = encode_utf8(pc + target);
    assert(e == p + t);
    assert(e.take(5) =~= p);
    assert(e.skip(5) =~= t);
}

/// What `update_ref` (or `set_head` with a hash) writes reads back, through
/// `parse_ref`, as that hash, not as a symbolic ref.
pub proof fn lemma_update_ref_then_parse_ref(content: Seq<char>, hash: Seq<u8>)
    requires
        valid_hash(hash),
        encode_utf8(content) == hash + seq![10u8],
    ensures
        symbolic_target(encode_utf8(trim_chars(content))) is None,
        encode_utf8(trim_chars(content)) == hash,
{
    assert(ascii_bytes(hash)) by {
        assert forall|i: int| 0 <= i < hash.len() implies #[trigger] hash[i] < 128 by {
            assert(hex_digit_value(hash[i]) is Some);
        }
    }
    lemma_ascii_valid_utf8(hash);
    lemma_decode_framed(content, hash, Seq::empty(), seq![10u8]);
    let hc = hash.map_values(|v: u8| v as char);
    decode_utf8_encode_utf8(Seq::<u8>::empty());
    assert(encode_utf8(Seq::<char>::empty()) =~= Seq::<u8>::empty());
    encode_utf8_decode_utf8(Seq::<char>::empty());
    assert(content =~= hc + seq!['\n']);
    assert(hex_digit_value(hash[0]) is Some);
    assert(trim_start_chars(content) == content);
    assert(content.drop_last() =~= hc);
    assert(hex_digit_value(hash[39]) is Some);
    assert(trim_end_chars(content.drop_last()) == content.drop_last());
    assert(trim_chars(content) == hc);
    assert(encode_utf8(hc) == hash);
    if has_prefix(hash, symbolic_prefix()) {
        assert(hash.take(5)[0] == hash[0]);
    }
}

/// Following HEAD to the hash: after `set_head` pointed HEAD at the ref
/// `target` (writing `head`) and `update_ref` pointed `target` at `hash`
/// (writing `content` into the file of `target`), HEAD reads as the ref
/// `target`, and the file of `target` reads as the hash itself, not as
/// another ref; provided the name does not end in white space.
pub proof fn lemma_head_resolves_to_hash(
    head: Seq<char>,
    target: Seq<char>,
    content: Seq<char>,
    hash: Seq<u8>,
)
    requires
        has_prefix(encode_utf8(target), refs_prefix()),
        target.len() > 0 ==> !is_whitespace_char(target.last()),
        encode_utf8(head) == symbolic_prefix() + encode_utf8(target) + seq![10u8],
        valid_hash(hash),
        encode_utf8(content) == hash + seq![10u8],
    ensures
        symbolic_target(encode_utf8(trim_chars(head))) == Some(encode_utf8(target)),
        symbolic_target(encode_utf8(trim_chars(content))) is None,
        encode_utf8(trim_chars(content)) == hash,
{
    lemma_set_head_then_head_ref(head, target);
    lemma_update_ref_then_parse_ref(content, hash);
}

} // verus!
