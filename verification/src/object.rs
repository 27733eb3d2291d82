//! Commit objects: their text, how it is read back, and how commits are
//! made.

use vstd::prelude::*;
use vstd::utf8::*;
use crate::codec::{
    find_byte, find_from, has_prefix, is_first_at, lemma_ascii_bounded_piece,
    lemma_first_unique, lemma_split_after_ascii, parse_i64,
    parse_i64_spec, rfind_before, rfind_byte, slice_copy, starts_with_bytes, str_bytes,
    string_of_utf8, utf8_string,
};
use crate::clock::unix_now;
use crate::codec::{ascii_bytes, decimal, decimal_bytes, lemma_ascii_valid_utf8, lemma_decimal_digits};
use crate::digest::zlib_deflated;
use crate::storage::{object_bytes, object_name, read_object, read_object_result, store_generic_object, ObjectError, StoredObject};

verus! {

/// A line without the carriage return that ended it.
pub open spec fn strip_cr(l: Seq<u8>) -> Seq<u8> {
    if l.len() > 0 && l.last() == 13u8 {
        l.drop_last()
    } else {
        l
    }
}

/// The lines of a text as `str::lines` yields them: split at `\n`, a `\r`
/// just before a `\n` dropped, no empty line after a final `\n`.
#[verifier::opaque]
pub open spec fn text_lines(h: Seq<u8>) -> Seq<Seq<u8>>
    decreases h.len(),
{
    if h.len() == 0 {
        Seq::empty()
    } else {
        match find_from(h, 10, 0) {
            None => seq![h],
            Some(i) => if 0 <= i < h.len() {
                seq![strip_cr(h.take(i))] + text_lines(h.skip(i + 1))
            } else {
                Seq::empty()
            },
        }
    }
}

/// The header fields of a commit, as bytes.
pub struct CommitFields {
    pub tree: Seq<u8>,
    pub parents: Seq<Seq<u8>>,
    pub author: Seq<u8>,
    pub author_time: i64,
    pub committer: Seq<u8>,
    pub committer_time: i64,
}

/// The fields before any header line is read.
pub open spec fn empty_fields() -> CommitFields {
    CommitFields {
        tree: Seq::empty(),
        parents: Seq::empty(),
        author: Seq::empty(),
        author_time: 0,
        committer: Seq::empty(),
        committer_time: 0,
    }
}

/// `tree `
pub open spec fn tree_key() -> Seq<u8> {
    seq![116u8, 114u8, 101u8, 101u8, 32u8]
}

/// `parent `
pub open spec fn parent_key() -> Seq<u8> {
    seq![112u8, 97u8, 114u8, 101u8, 110u8, 116u8, 32u8]
}

/// `author `
pub open spec fn author_key() -> Seq<u8> {
    seq![97u8, 117u8, 116u8, 104u8, 111u8, 114u8, 32u8]
}

/// `committer `
pub open spec fn committer_key() -> Seq<u8> {
    seq![99u8, 111u8, 109u8, 109u8, 105u8, 116u8, 116u8, 101u8, 114u8, 32u8]
}

/// An identity `Name <email> <timestamp> <timezone>`, split from the right
/// at its last two spaces: the part before them and the timestamp.
pub open spec fn identity_spec(v: Seq<u8>) -> Result<(Seq<u8>, i64), ObjectError> {
    match rfind_before(v, 32, v.len() as int) {
        None => Err(ObjectError::BadIdentity),
        Some(a) => match rfind_before(v, 32, a) {
            None => Err(ObjectError::BadIdentity),
            Some(b) => match parse_i64_spec(v.subrange(b + 1, a)) {
                None => Err(ObjectError::BadTimestamp),
                Some(ts) => Ok((v.take(b), ts)),
            },
        },
    }
}

/// What one header line does to the fields: `tree` and the identities
/// replace, `parent` appends, other lines change nothing.
#[verifier::opaque]
pub open spec fn apply_header_line(f: CommitFields, l: Seq<u8>) -> Result<CommitFields, ObjectError> {
    if has_prefix(l, tree_key()) {
        Ok(
            CommitFields {
                tree: l.skip(5),
                parents: f.parents,
                author: f.author,
                author_time: f.author_time,
                committer: f.committer,
                committer_time: f.committer_time,
            },
        )
    } else if has_prefix(l, parent_key()) {
        Ok(
            CommitFields {
                tree: f.tree,
                parents: f.parents.push(l.skip(7)),
                author: f.author,
                author_time: f.author_time,
                committer: f.committer,
                committer_time: f.committer_time,
            },
        )
    } else if has_prefix(l, author_key()) {
        match identity_spec(l.skip(7)) {
            Ok((n, t)) => Ok(
                CommitFields {
                    tree: f.tree,
                    parents: f.parents,
                    author: n,
                    author_time: t,
                    committer: f.committer,
                    committer_time: f.committer_time,
                },
            ),
            Err(e) => Err(e),
        }
    } else if has_prefix(l, committer_key()) {
        match identity_spec(l.skip(10)) {
            Ok((n, t)) => Ok(
                CommitFields {
                    tree: f.tree,
                    parents: f.parents,
                    author: f.author,
                    author_time: f.author_time,
                    committer: n,
                    committer_time: t,
                },
            ),
            Err(e) => Err(e),
        }
    } else {
        Ok(f)
    }
}

/// The header lines applied in order; the first bad identity stops it.
#[verifier::opaque]
pub open spec fn apply_header_lines(f: CommitFields, ls: Seq<Seq<u8>>) -> Result<CommitFields, ObjectError>
    decreases ls.len(),
{
    if ls.len() == 0 {
        Ok(f)
    } else {
        match apply_header_line(f, ls[0]) {
            Ok(g) => apply_header_lines(g, ls.drop_first()),
            Err(e) => Err(e),
        }
    }
}

/// Two newlines follow each other at `j`.
pub open spec fn blank_at(t: Seq<u8>, j: int) -> bool {
    t[j] == 10u8 && t[j + 1] == 10u8
}

/// `i` is the first place where two newlines follow each other.
pub open spec fn is_first_blank(t: Seq<u8>, i: int) -> bool {
    &&& 0 <= i && i + 1 < t.len()
    &&& blank_at(t, i)
    &&& forall|j: int| 0 <= j < i ==> !#[trigger] blank_at(t, j)
}

/// The first place where two newlines follow each other.
pub open spec fn find_blank(t: Seq<u8>) -> Option<int> {
    if exists|i: int| is_first_blank(t, i) {
        Some(choose|i: int| is_first_blank(t, i))
    } else {
        None
    }
}

/// A commit's text taken apart: the header fields, read from the lines
/// before the first blank line, and the message, all that follows it.
pub open spec fn parse_commit_spec(text: Seq<u8>) -> Result<(CommitFields, Seq<u8>), ObjectError> {
    match find_blank(text) {
        None => Err(ObjectError::CommitWithoutMessage),
        Some(p) => match apply_header_lines(empty_fields(), text_lines(text.take(p))) {
            Err(e) => Err(e),
            Ok(f) => if f.tree.len() == 0 {
                Err(ObjectError::CommitWithoutTree)
            } else {
                Ok((f, text.skip(p + 2)))
            },
        },
    }
}

/// A parsed commit.
#[derive(Debug)]
pub struct CommitObject {
    pub hash: String,
    pub tree: String,
    pub parents: Vec<String>,
    pub author: String,
    pub author_time: i64,
    pub committer: String,
    pub committer_time: i64,
    pub message: String,
}

/// The UTF-8 bytes of each text.
pub open spec fn strings_bytes(v: Seq<String>) -> Seq<Seq<u8>> {
    v.map_values(|s: String| encode_utf8(s@))
}

/// A commit object holds the given hash, fields and message.
pub open spec fn commit_holds(c: CommitObject, hash: Seq<u8>, f: CommitFields, message: Seq<u8>) -> bool {
    &&& encode_utf8(c.hash@) == hash
    &&& encode_utf8(c.tree@) == f.tree
    &&& strings_bytes(c.parents@) == f.parents
    &&& encode_utf8(c.author@) == f.author
    &&& c.author_time == f.author_time
    &&& encode_utf8(c.committer@) == f.committer
    &&& c.committer_time == f.committer_time
    &&& encode_utf8(c.message@) == message
}

/// The header fields as the parser holds them.
struct FieldState {
    tree: String,
    parents: Vec<String>,
    author: String,
    author_time: i64,
    committer: String,
    committer_time: i64,
}

impl FieldState {
    spec fn fields(&self) -> CommitFields {
        CommitFields {
            tree: encode_utf8(self.tree@),
            parents: strings_bytes(self.parents@),
            author: encode_utf8(self.author@),
            author_time: self.author_time,
            committer: encode_utf8(self.committer@),
            committer_time: self.committer_time,
        }
    }
}

/// Finds the first place where two newlines follow each other.
fn find_blank_line(t: &[u8]) -> (res: Option<usize>)
    ensures
        match res {
            Some(i) => find_blank(t@) == Some(i as int),
            None => find_blank(t@) is None,
        },
{
    let n = t.len();
    let mut i: usize = 0;
    while i < n && n - i > 1
        invariant
            n == t@.len(),
            i <= n,
            forall|j: int| 0 <= j < i ==> !#[trigger] blank_at(t@, j),
        decreases n - i,
    {
        if t[i] == 10u8 && t[i + 1] == 10u8 {
            assert(is_first_blank(t@, i as int));
            proof {
                let q = choose|q: int| is_first_blank(t@, q);
                if q < i {
                } else if q > i {
                }
            }
            return Some(i);
        }
        i = i + 1;
    }
    assert forall|q: int| !is_first_blank(t@, q) by {
        if is_first_blank(t@, q) {
            assert(q < i || q + 1 >= n);
        }
    }
    None
}

/// Splits an identity at its last two spaces: the part before them and the
/// timestamp.
fn parse_identity(v: &[u8]) -> (res: Result<(usize, i64), ObjectError>)
    ensures
        match res {
            Ok((b, ts)) => b <= v@.len() && identity_spec(v@) == Ok::<(Seq<u8>, i64), ObjectError>(
                (v@.take(b as int), ts),
            ) && v@[b as int] == 32u8,
            Err(e) => identity_spec(v@) == Err::<(Seq<u8>, i64), ObjectError>(e),
        },
{
    let a = match rfind_byte(v, 32, v.len()) {
        Some(a) => a,
        None => return Err(ObjectError::BadIdentity),
    };
    assert(crate::codec::is_last_before(v@, 32, v@.len() as int, a as int));
    let b = match rfind_byte(v, 32, a) {
        Some(b) => b,
        None => return Err(ObjectError::BadIdentity),
    };
    assert(crate::codec::is_last_before(v@, 32, a as int, b as int));
    let digits = slice_copy(v, b + 1, a);
    match parse_i64(digits.as_slice()) {
        None => Err(ObjectError::BadTimestamp),
        Some(ts) => Ok((b, ts)),
    }
}

/// The text of bytes `lo..hi` of `t`, which must be a piece of valid UTF-8
/// next to ASCII bytes.
fn piece_string(t: &[u8], lo: usize, hi: usize) -> (res: String)
    requires
        valid_utf8(t@),
        lo <= hi <= t@.len(),
        lo > 0 ==> t@[lo - 1] < 128,
        hi < t@.len() ==> t@[hi as int] < 128,
    ensures
        encode_utf8(res@) == t@.subrange(lo as int, hi as int),
{
    proof {
        lemma_ascii_bounded_piece(t@, lo as int, hi as int);
    }
    string_of_utf8(slice_copy(t, lo, hi))
}

/// Applies one header line to the fields.
fn apply_line(state: &mut FieldState, line: &[u8]) -> (res: Result<(), ObjectError>)
    requires
        valid_utf8(line@),
    ensures
        match res {
            Ok(()) => apply_header_line(old(state).fields(), line@) == Ok::<CommitFields, ObjectError>(
                final(state).fields(),
            ),
            Err(e) => apply_header_line(old(state).fields(), line@) == Err::<CommitFields, ObjectError>(e),
        },
{
    let ghost f = state.fields();
    reveal(apply_header_line);
    let tree_k: [u8; 5] = [116u8, 114u8, 101u8, 101u8, 32u8];
    let parent_k: [u8; 7] = [112u8, 97u8, 114u8, 101u8, 110u8, 116u8, 32u8];
    let author_k: [u8; 7] = [97u8, 117u8, 116u8, 104u8, 111u8, 114u8, 32u8];
    let committer_k: [u8; 10] = [99u8, 111u8, 109u8, 109u8, 105u8, 116u8, 116u8, 101u8, 114u8, 32u8];
    assert(tree_k@ =~= tree_key());
    assert(parent_k@ =~= parent_key());
    assert(author_k@ =~= author_key());
    assert(committer_k@ =~= committer_key());
    let n = line.len();
    if starts_with_bytes(line, &tree_k) {
        assert(line@[4] == line@.take(5)[4]);
        state.tree = piece_string(line, 5, n);
        assert(line@.subrange(5, n as int) =~= line@.skip(5));
        Ok(())
    } else if starts_with_bytes(line, &parent_k) {
        assert(line@[6] == line@.take(7)[6]);
        let p = piece_string(line, 7, n);
        assert(line@.subrange(7, n as int) =~= line@.skip(7));
        state.parents.push(p);
        assert(strings_bytes(state.parents@) =~= f.parents.push(line@.skip(7)));
        Ok(())
    } else if starts_with_bytes(line, &author_k) || starts_with_bytes(line, &committer_k) {
        let is_author = starts_with_bytes(line, &author_k);
        let start: usize = if is_author { 7 } else { 10 };
        assert(line@[start - 1] == line@.take(start as int)[start - 1]);
        let v = slice_copy(line, start, n);
        assert(v@ =~= line@.skip(start as int));
        proof {
            lemma_split_after_ascii(line@, start as int);
        }
        let (b, ts) = match parse_identity(v.as_slice()) {
            Ok(r) => r,
            Err(e) => return Err(e),
        };
        let name = piece_string(v.as_slice(), 0, b);
        assert(v@.subrange(0, b as int) =~= v@.take(b as int));
        if is_author {
            state.author = name;
            state.author_time = ts;
        } else {
            state.committer = name;
            state.committer_time = ts;
        }
        Ok(())
    } else {
        Ok(())
    }
}

/// Takes a commit's text apart.
pub fn parse_commit(hash: &str, text: &str) -> (res: Result<CommitObject, ObjectError>)
    ensures
        match res {
            Ok(c) => parse_commit_spec(encode_utf8(text@)) matches Ok((f, m)) && commit_holds(
                c,
                encode_utf8(hash@),
                f,
                m,
            ),
            Err(e) => parse_commit_spec(encode_utf8(text@)) == Err::<(CommitFields, Seq<u8>), ObjectError>(e),
        },
{
    let t = text.as_bytes();
    let ghost tv = t@;
    proof {
        encode_utf8_valid_utf8(text@);
    }
    let p = match find_blank_line(t) {
        Some(p) => p,
        None => return Err(ObjectError::CommitWithoutMessage),
    };
    assert(is_first_blank(tv, p as int));
    let ghost h = tv.take(p as int);
    let mut state = FieldState {
        tree: String::new(),
        parents: Vec::new(),
        author: String::new(),
        author_time: 0,
        committer: String::new(),
        committer_time: 0,
    };
    assert(state.fields().tree =~= Seq::<u8>::empty());
    assert(state.fields().parents =~= Seq::<Seq<u8>>::empty());
    assert(state.fields() == empty_fields());
    let mut pos: usize = 0;
    assert(h.skip(0) =~= h);
    while pos < p
        invariant
            tv == t@,
            tv == encode_utf8(text@),
            valid_utf8(tv),
            is_first_blank(tv, p as int),
            h == tv.take(p as int),
            pos <= p,
            pos < p && pos > 0 ==> tv[pos - 1] == 10u8,
            apply_header_lines(empty_fields(), text_lines(h)) == apply_header_lines(
                state.fields(),
                text_lines(h.skip(pos as int)),
            ),
        decreases p - pos,
    {
        let (line, next) = next_line(t, pos, p);
        let ghost f = state.fields();
        let ghost rest = text_lines(h.skip(next as int));
        proof {
            lemma_apply_cons(f, line@, rest);
        }
        match apply_line(&mut state, line.as_slice()) {
            Ok(()) => {},
            Err(e) => {
                assert(parse_commit_spec(tv) == Err::<(CommitFields, Seq<u8>), ObjectError>(e));
                return Err(e);
            },
        }
        pos = next;
    }
    assert(h.skip(p as int) =~= Seq::<u8>::empty());
    proof {
        reveal(text_lines);
        reveal(apply_header_lines);
    }
    if state.tree.as_str().is_empty() {
        return Err(ObjectError::CommitWithoutTree);
    }
    proof {
        assert(tv[p as int] == 10u8);
        assert(tv[p + 1] == 10u8);
    }
    let tl = t.len();
    assert(p + 1 < tl);
    let message = piece_string(t, p + 2, tl);
    assert(tv.subrange(p + 2, tv.len() as int) =~= tv.skip(p + 2));
    let hash_s = str_to_string(hash);
    Ok(
        CommitObject {
            hash: hash_s,
            tree: state.tree,
            parents: state.parents,
            author: state.author,
            author_time: state.author_time,
            committer: state.committer,
            committer_time: state.committer_time,
            message,
        },
    )
}

/// Applying a run of lines that starts with `line`.
proof fn lemma_apply_cons(f: CommitFields, line: Seq<u8>, rest: Seq<Seq<u8>>)
    ensures
        apply_header_lines(f, seq![line] + rest) == match apply_header_line(f, line) {
            Ok(g) => apply_header_lines(g, rest),
            Err(e) => Err::<CommitFields, ObjectError>(e),
        },
{
    reveal(apply_header_lines);
    assert((seq![line] + rest)[0] == line);
    assert((seq![line] + rest).drop_first() =~= rest);
}

/// The header line that starts at `pos`, and where the next one starts.
fn next_line(t: &[u8], pos: usize, p: usize) -> (res: (Vec<u8>, usize))
    requires
        valid_utf8(t@),
        pos < p < t@.len(),
        t@[p as int] == 10u8,
        pos > 0 ==> t@[pos - 1] == 10u8,
    ensures
        valid_utf8(res.0@),
        pos < res.1 <= p,
        res.1 < p ==> t@[res.1 - 1] == 10u8,
        text_lines(t@.take(p as int).skip(pos as int)) == seq![res.0@] + text_lines(
            t@.take(p as int).skip(res.1 as int),
        ),
{
    let ghost tv = t@;
    proof {
        crate::codec::lemma_first_exists(tv, 10, pos as int, p as int);
    }
    let e = match find_byte(t, 10, pos) {
        Some(e) => e,
        None => p,
    };
    assert(is_first_at(tv, 10, pos as int, e as int));
    let last_line = e == p;
    let mut hi = e;
    if !last_line && hi > pos && t[hi - 1] == 13u8 {
        hi = hi - 1;
    }
    proof {
        lemma_ascii_bounded_piece(tv, pos as int, hi as int);
    }
    let line = slice_copy(t, pos, hi);
    proof {
        lemma_next_line(tv, p as int, pos as int, e as int, hi as int, line@);
    }
    let next = if last_line { p } else { e + 1 };
    (line, next)
}

/// One step through the header lines: the line from `pos` (ending at the
/// first newline `e`, or at the header's end `p`) comes first, then the
/// lines from just after it.
proof fn lemma_next_line(tv: Seq<u8>, p: int, pos: int, e: int, hi: int, line: Seq<u8>)
    requires
        0 <= pos < p < tv.len(),
        tv[p] == 10u8,
        pos <= e <= p,
        is_first_at(tv, 10, pos, e),
        e == p ==> hi == p,
        e < p ==> (if e > pos && tv[e - 1] == 13u8 { hi == e - 1 } else { hi == e }),
        line == tv.subrange(pos, hi),
    ensures
        text_lines(tv.take(p).skip(pos)) == seq![line] + text_lines(tv.take(p).skip(
            if e == p { p } else { e + 1 },
        )),
{
    reveal(text_lines);
    let h = tv.take(p);
    let r = h.skip(pos);
    if e == p {
        assert(find_from(r, 10, 0) is None) by {
            if exists|k: int| is_first_at(r, 10, 0, k) {
                let k = choose|k: int| is_first_at(r, 10, 0, k);
                assert(r[k] == tv[pos + k]);
            }
        }
        assert(line =~= r);
        assert(text_lines(r) =~= seq![r]);
        assert(h.skip(p) =~= Seq::<u8>::empty());
        assert(seq![line] + text_lines(h.skip(p)) =~= seq![line]);
    } else {
        let i = e - pos;
        assert(is_first_at(r, 10, 0, i)) by {
            assert forall|j: int| 0 <= j < i implies r[j] != 10u8 by {
                assert(r[j] == tv[pos + j]);
            }
        }
        assert(find_from(r, 10, 0) == Some(i)) by {
            let k = choose|k: int| is_first_at(r, 10, 0, k);
            lemma_first_unique(r, 10, 0, i, k);
        }
        assert(line =~= strip_cr(r.take(i)));
        assert(r.skip(i + 1) =~= h.skip(e + 1));
    }
}

/// `commit`, the type of commit objects.
pub open spec fn commit_kind() -> Seq<u8> {
    seq![99u8, 111u8, 109u8, 109u8, 105u8, 116u8]
}

/// What reading a stored commit gives: the object must be of type
/// `commit` and its content UTF-8.
pub open spec fn read_commit_spec(stored: Seq<u8>) -> Result<(CommitFields, Seq<u8>), ObjectError> {
    match read_object_result(stored) {
        Err(e) => Err(e),
        Ok((t, c)) => if t != commit_kind() {
            Err(ObjectError::WrongType)
        } else if !valid_utf8(c) {
            Err(ObjectError::ContentNotUtf8)
        } else {
            parse_commit_spec(c)
        },
    }
}

/// `commit` reads back unchanged from a header.
proof fn lemma_commit_kind_plain()
    ensures
        crate::storage::plain_kind(commit_kind()),
{
    lemma_ascii_valid_utf8(commit_kind());
}

/// Reads a stored commit object, which `hash` names. Where the stored bytes
/// are a compressed commit object with UTF-8 text, the result is what that
/// text parses into.
pub fn read_commit(hash: &str, stored: &[u8]) -> (res: Result<CommitObject, ObjectError>)
    ensures
        match res {
            Ok(c) => read_commit_spec(stored@) matches Ok((f, m)) && commit_holds(
                c,
                encode_utf8(hash@),
                f,
                m,
            ),
            Err(e) => read_commit_spec(stored@) == Err::<(CommitFields, Seq<u8>), ObjectError>(e),
        },
        forall|text: Seq<u8>|
            valid_utf8(text) && #[trigger] zlib_deflated(object_bytes(commit_kind(), text)) == stored@
                ==> read_commit_spec(stored@) == parse_commit_spec(text),
{
    let read = read_object(stored);
    proof {
        lemma_commit_kind_plain();
        assert forall|text: Seq<u8>|
            valid_utf8(text) && #[trigger] zlib_deflated(object_bytes(commit_kind(), text)) == stored@
            implies read_commit_spec(stored@) == parse_commit_spec(text) by {
            assert(read_object_result(stored@) == Ok::<(Seq<u8>, Seq<u8>), ObjectError>((commit_kind(), text)));
        }
    }
    let (t, content) = match read {
        Ok(r) => r,
        Err(e) => return Err(e),
    };
    let tb = str_bytes(t.as_str());
    let ck: [u8; 6] = [99u8, 111u8, 109u8, 109u8, 105u8, 116u8];
    assert(ck@ =~= commit_kind());
    if !crate::codec::bytes_eq(tb.as_slice(), &ck) {
        return Err(ObjectError::WrongType);
    }
    let text = match utf8_string(content) {
        Some(s) => s,
        None => return Err(ObjectError::ContentNotUtf8),
    };
    parse_commit(hash, text.as_str())
}

/// The lines that name the parents, in order.
pub open spec fn parent_lines(ps: Seq<Seq<u8>>) -> Seq<u8>
    decreases ps.len(),
{
    if ps.len() == 0 {
        Seq::empty()
    } else {
        parent_lines(ps.drop_last()) + parent_key() + ps.last() + seq![10u8]
    }
}

/// ` +0800\n`, the fixed time zone that ends an identity line.
pub open spec fn zone_suffix() -> Seq<u8> {
    seq![32u8, 43u8, 48u8, 56u8, 48u8, 48u8, 10u8]
}

/// An author or committer line.
pub open spec fn identity_line(key: Seq<u8>, who: Seq<u8>, now: nat) -> Seq<u8> {
    key + who + seq![32u8] + decimal(now) + zone_suffix()
}

/// The text of a commit made at `now`: tree, parents, author and committer
/// (both `author`), a blank line and the message.
pub open spec fn commit_text(tree: Seq<u8>, parents: Seq<Seq<u8>>, author: Seq<u8>, message: Seq<u8>, now: nat) -> Seq<u8> {
    tree_key() + tree + seq![10u8] + parent_lines(parents) + identity_line(author_key(), author, now)
        + identity_line(committer_key(), author, now) + seq![10u8] + message
}

/// Appends ASCII bytes to valid UTF-8.
fn append_ascii(v: &mut Vec<u8>, a: &[u8])
    requires
        valid_utf8(old(v)@),
        ascii_bytes(a@),
    ensures
        valid_utf8(final(v)@),
        final(v)@ == old(v)@ + a@,
{
    proof {
        lemma_ascii_valid_utf8(a@);
        valid_utf8_concat(old(v)@, a@);
    }
    v.extend_from_slice(a);
    assert(v@ =~= old(v)@ + a@);
}

/// Appends the UTF-8 bytes of a text to valid UTF-8.
fn append_text(v: &mut Vec<u8>, s: &str)
    requires
        valid_utf8(old(v)@),
    ensures
        valid_utf8(final(v)@),
        final(v)@ == old(v)@ + encode_utf8(s@),
{
    proof {
        encode_utf8_valid_utf8(s@);
        valid_utf8_concat(old(v)@, encode_utf8(s@));
    }
    v.extend_from_slice(s.as_bytes());
    assert(v@ =~= old(v)@ + encode_utf8(s@));
}

/// Appends an author or committer line.
fn append_identity(v: &mut Vec<u8>, key: &[u8], who: &str, now: u64)
    requires
        valid_utf8(old(v)@),
        ascii_bytes(key@),
    ensures
        valid_utf8(final(v)@),
        final(v)@ == old(v)@ + identity_line(key@, encode_utf8(who@), now as nat),
{
    append_ascii(v, key);
    append_text(v, who);
    let sp: [u8; 1] = [32u8];
    append_ascii(v, &sp);
    let d = decimal_bytes(now);
    proof {
        lemma_decimal_digits(now as nat);
    }
    append_ascii(v, d.as_slice());
    let zone: [u8; 7] = [32u8, 43u8, 48u8, 56u8, 48u8, 48u8, 10u8];
    append_ascii(v, &zone);
    assert(final(v)@ =~= old(v)@ + identity_line(key@, encode_utf8(who@), now as nat));
}

/// The text of a commit made at `now`.
pub fn commit_content(tree: &str, parents: &[String], author: &str, message: &str, now: u64) -> (res: String)
    ensures
        encode_utf8(res@) == commit_text(
            encode_utf8(tree@),
            strings_bytes(parents@),
            encode_utf8(author@),
            encode_utf8(message@),
            now as nat,
        ),
{
    let mut v: Vec<u8> = Vec::new();
    proof {
        lemma_ascii_valid_utf8(v@);
    }
    let tree_k: [u8; 5] = [116u8, 114u8, 101u8, 101u8, 32u8];
    let parent_k: [u8; 7] = [112u8, 97u8, 114u8, 101u8, 110u8, 116u8, 32u8];
    let author_k: [u8; 7] = [97u8, 117u8, 116u8, 104u8, 111u8, 114u8, 32u8];
    let committer_k: [u8; 10] = [99u8, 111u8, 109u8, 109u8, 105u8, 116u8, 116u8, 101u8, 114u8, 32u8];
    let nl: [u8; 1] = [10u8];
    append_ascii(&mut v, &tree_k);
    append_text(&mut v, tree);
    append_ascii(&mut v, &nl);
    let ghost head = v@;
    let ghost ps = strings_bytes(parents@);
    let mut i: usize = 0;
    assert(ps.take(0) =~= Seq::<Seq<u8>>::empty());
    assert(v@ =~= head + parent_lines(ps.take(0)));
    while i < parents.len()
        invariant
            i <= parents@.len(),
            ps == strings_bytes(parents@),
            valid_utf8(v@),
            v@ == head + parent_lines(ps.take(i as int)),
            parent_k@ == parent_key(),
            nl@ == seq![10u8],
        decreases parents.len() - i,
    {
        append_ascii(&mut v, &parent_k);
        append_text(&mut v, parents[i].as_str());
        append_ascii(&mut v, &nl);
        assert(ps.take(i + 1).drop_last() =~= ps.take(i as int));
        assert(ps[i as int] == encode_utf8(parents@[i as int]@));
        i = i + 1;
        assert(v@ =~= head + parent_lines(ps.take(i as int)));
    }
    assert(ps.take(i as int) =~= ps);
    append_identity(&mut v, &author_k, author, now);
    append_identity(&mut v, &committer_k, author, now);
    append_ascii(&mut v, &nl);
    append_text(&mut v, message);
    assert(tree_k@ =~= tree_key());
    assert(author_k@ =~= author_key());
    assert(committer_k@ =~= committer_key());
    assert(v@ =~= commit_text(
        encode_utf8(tree@),
        ps,
        encode_utf8(author@),
        encode_utf8(message@),
        now as nat,
    ));
    string_of_utf8(v)
}

/// `stored` is the commit object with these fields made at `now`.
pub open spec fn commit_made_at(
    stored: StoredObject,
    tree: Seq<char>,
    parents: Seq<String>,
    author: Seq<char>,
    message: Seq<char>,
    now: u64,
) -> bool {
    let text = commit_text(
        encode_utf8(tree),
        strings_bytes(parents),
        encode_utf8(author),
        encode_utf8(message),
        now as nat,
    );
    &&& stored.hash@ == object_name(commit_kind(), text)
    &&& stored.data@ == zlib_deflated(object_bytes(commit_kind(), text))
}

/// The stored commit reads back, through `read_commit`, as the fields it
/// was made of, whenever they can be read back: the tree is not empty, no
/// field but the message holds a newline, the tree and the parents do not
/// end in a carriage return, and the time fits in an `i64`.
pub open spec fn commit_reads_back(
    stored: StoredObject,
    tree: Seq<u8>,
    parents: Seq<Seq<u8>>,
    author: Seq<u8>,
    message: Seq<u8>,
    now: u64,
) -> bool {
    (tree.len() > 0 && line_field(tree) && (forall|i: int| 0 <= i < parents.len() ==> line_field(#[trigger] parents[i]))
        && (forall|i: int| 0 <= i < author.len() ==> #[trigger] author[i] != 10u8) && now <= 0x7fff_ffff_ffff_ffff)
        ==> read_commit_spec(stored.data@) == Ok::<(CommitFields, Seq<u8>), ObjectError>(
        (
            CommitFields {
                tree,
                parents,
                author,
                author_time: now as i64,
                committer: author,
                committer_time: now as i64,
            },
            message,
        ),
    )
}

/// Makes a commit object stamped with the current time, in whole seconds
/// since the epoch; it reads back as the commit it was made of.
pub fn commit_tree(tree_hash: &str, parent_hashes: &[String], author: &str, message: &str) -> (res: StoredObject)
    ensures
        exists|now: u64|
            #[trigger] commit_made_at(res, tree_hash@, parent_hashes@, author@, message@, now)
                && commit_reads_back(
                res,
                encode_utf8(tree_hash@),
                strings_bytes(parent_hashes@),
                encode_utf8(author@),
                encode_utf8(message@),
                now,
            ),
{
    let (secs, _) = unix_now();
    commit_tree_at(tree_hash, parent_hashes, author, message, secs)
}

/// Makes the commit object that `commit_tree` makes when the clock reads
/// `now` whole seconds since the epoch: author and committer lines carry
/// `now`, and the object reads back as the commit it was made of.
pub fn commit_tree_at(tree_hash: &str, parent_hashes: &[String], author: &str, message: &str, now: u64) -> (res: StoredObject)
    ensures
        commit_made_at(res, tree_hash@, parent_hashes@, author@, message@, now),
        commit_reads_back(
            res,
            encode_utf8(tree_hash@),
            strings_bytes(parent_hashes@),
            encode_utf8(author@),
            encode_utf8(message@),
            now,
        ),
{
    let content = commit_content(tree_hash, parent_hashes, author, message, now);
    let kind = "commit";
    proof {
        reveal_strlit("commit");
        lemma_ascii_valid_utf8(commit_kind());
        assert(commit_kind().map_values(|x: u8| x as char) =~= kind@);
        lemma_commit_kind_plain();
        encode_utf8_valid_utf8(content@);
    }
    let res = store_generic_object(kind, content.as_str().as_bytes());
    let ghost tree = encode_utf8(tree_hash@);
    let ghost parents = strings_bytes(parent_hashes@);
    let ghost who = encode_utf8(author@);
    let ghost msg = encode_utf8(message@);
    assert(commit_made_at(res, tree_hash@, parent_hashes@, author@, message@, now));
    proof {
        let text = commit_text(tree, parents, who, msg, now as nat);
        assert(read_object_result(res.data@) == Ok::<(Seq<u8>, Seq<u8>), ObjectError>((commit_kind(), text)));
        assert(read_commit_spec(res.data@) == parse_commit_spec(text));
        if tree.len() > 0 && line_field(tree) && (forall|i: int| 0 <= i < parents.len() ==> line_field(#[trigger] parents[i]))
            && (forall|i: int| 0 <= i < who.len() ==> #[trigger] who[i] != 10u8) && now <= 0x7fff_ffff_ffff_ffff {
            lemma_commit_text_parses(tree, parents, who, msg, now as nat);
        }
    }
    assert(commit_reads_back(res, tree, parents, who, msg, now));
    res
}

/// One step through the lines of a text from byte `pos`.
pub proof fn lemma_text_lines_step(h: Seq<u8>, pos: int)
    requires
        0 <= pos < h.len(),
    ensures
        match find_from(h, 10, pos) {
            Some(e) => pos <= e < h.len() && text_lines(h.skip(pos)) == seq![strip_cr(h.subrange(pos, e))]
                + text_lines(h.skip(e + 1)),
            None => text_lines(h.skip(pos)) == seq![h.skip(pos)],
        },
{
    reveal(text_lines);
    let r = h.skip(pos);
    crate::codec::lemma_find_shift(h, 10, pos);
    match find_from(h, 10, pos) {
        Some(e) => {
            assert(is_first_at(h, 10, pos, e));
            assert(r.take(e - pos) =~= h.subrange(pos, e));
            assert(r.skip(e - pos + 1) =~= h.skip(e + 1));
        },
        None => {},
    }
}

/// No lines in an empty text.
pub proof fn lemma_text_lines_empty(h: Seq<u8>)
    requires
        h.len() == 0,
    ensures
        text_lines(h) == Seq::<Seq<u8>>::empty(),
{
    reveal(text_lines);
}

/// Each line followed by a newline, one after another.
pub open spec fn newline_ended(ls: Seq<Seq<u8>>) -> Seq<u8> {
    ls.map_values(|l: Seq<u8>| l + seq![10u8]).flatten()
}

/// Splitting a text without carriage returns into lines cuts it at its
/// newlines and nowhere else: no line holds a newline, and the lines, each
/// followed by a newline, give back the text, with a newline added at the
/// end where it had none.
pub proof fn lemma_text_lines_split(h: Seq<u8>)
    requires
        forall|i: int| 0 <= i < h.len() ==> #[trigger] h[i] != 13u8,
    ensures
        forall|k: int, j: int|
            0 <= k < text_lines(h).len() && 0 <= j < text_lines(h)[k].len() ==> #[trigger] text_lines(h)[k][j] != 10u8,
        newline_ended(text_lines(h)) == (if h.len() > 0 && h.last() != 10u8 {
            h.push(10u8)
        } else {
            h
        }),
    decreases h.len(),
{
    if h.len() == 0 {
        lemma_text_lines_empty(h);
        assert(newline_ended(text_lines(h)) =~= Seq::<u8>::empty());
    } else {
        lemma_text_lines_step(h, 0);
        assert(h.skip(0) =~= h);
        let f = |l: Seq<u8>| l + seq![10u8];
        match find_from(h, 10, 0) {
            None => {
                assert(text_lines(h) == seq![h]);
                if exists|i: int| is_first_at(h, 10, 0, i) {
                }
                assert forall|j: int| 0 <= j < h.len() implies h[j] != 10u8 by {
                    if h[j] == 10u8 {
                        crate::codec::lemma_first_exists(h, 10, 0, j);
                    }
                }
                assert(seq![h].map_values(f) =~= seq![h + seq![10u8]]);
                assert(seq![h + seq![10u8]].flatten() =~= h + seq![10u8]) by {
                    let x = seq![h + seq![10u8]];
                    assert(x.drop_first() =~= Seq::<Seq<u8>>::empty());
                    assert(x.drop_first().flatten() == Seq::<u8>::empty());
                    assert(x.flatten() == x.first() + x.drop_first().flatten());
                    assert(x.first() == h + seq![10u8]);
                }
                assert(h + seq![10u8] =~= h.push(10u8));
            },
            Some(e) => {
                let line = strip_cr(h.subrange(0, e));
                let r = h.skip(e + 1);
                assert(is_first_at(h, 10, 0, e)) by {
                    let c = choose|c: int| is_first_at(h, 10, 0, c);
                }
                assert(line =~= h.take(e)) by {
                    if e > 0 {
                        assert(h.subrange(0, e).last() == h[e - 1]);
                    }
                }
                assert forall|i: int| 0 <= i < r.len() implies #[trigger] r[i] != 13u8 by {
                    assert(r[i] == h[e + 1 + i]);
                }
                lemma_text_lines_split(r);
                let rest = text_lines(r);
                assert(text_lines(h) == seq![line] + rest);
                assert((seq![line] + rest).map_values(f) =~= seq![f(line)] + rest.map_values(f));
                let m = seq![f(line)] + rest.map_values(f);
                assert(m.first() == f(line));
                assert(m.drop_first() =~= rest.map_values(f));
                assert(newline_ended(text_lines(h)) == f(line) + newline_ended(rest));
                assert forall|k: int, j: int|
                    0 <= k < text_lines(h).len() && 0 <= j < text_lines(h)[k].len() implies #[trigger] text_lines(h)[k][j] != 10u8 by {
                    if k == 0 {
                        assert(text_lines(h)[0] == line);
                        assert(line[j] == h[j]);
                    } else {
                        assert(text_lines(h)[k] == rest[k - 1]);
                    }
                }
                if r.len() > 0 {
                    assert(h.last() == r.last());
                    if r.last() != 10u8 {
                        assert(f(line) + r.push(10u8) =~= h.push(10u8));
                    } else {
                        assert(f(line) + r =~= h);
                    }
                } else {
                    assert(h.last() == 10u8);
                    assert(f(line) + r =~= h);
                }
            },
        }
    }
}

/// A field that stays on its line: no newline, and no carriage return at
/// its end that the line reader would take for part of a line ending.
pub open spec fn line_field(x: Seq<u8>) -> bool {
    &&& forall|i: int| 0 <= i < x.len() ==> #[trigger] x[i] != 10u8
    &&& (x.len() > 0 ==> x.last() != 13u8)
}

/// ` +0800`
pub open spec fn zone_text() -> Seq<u8> {
    seq![32u8, 43u8, 48u8, 56u8, 48u8, 48u8]
}

/// What follows `author ` or `committer `: the identity, the time and the
/// zone.
pub open spec fn identity_body(who: Seq<u8>, now: nat) -> Seq<u8> {
    who + seq![32u8] + decimal(now) + zone_text()
}

/// The header lines of a commit text, without their newlines.
pub open spec fn header_lines(tree: Seq<u8>, parents: Seq<Seq<u8>>, author: Seq<u8>, now: nat) -> Seq<Seq<u8>> {
    seq![tree_key() + tree] + parents.map_values(|p: Seq<u8>| parent_key() + p) + seq![
        author_key() + identity_body(author, now),
        committer_key() + identity_body(author, now),
    ]
}

/// Lines, each ended by a newline.
pub open spec fn ended_lines(ls: Seq<Seq<u8>>) -> Seq<u8>
    decreases ls.len(),
{
    if ls.len() == 0 {
        Seq::empty()
    } else {
        ls[0] + seq![10u8] + ended_lines(ls.drop_first())
    }
}

/// Lines joined by newlines.
pub open spec fn joined_lines(ls: Seq<Seq<u8>>) -> Seq<u8>
    decreases ls.len(),
{
    if ls.len() <= 1 {
        if ls.len() == 1 {
            ls[0]
        } else {
            Seq::empty()
        }
    } else {
        ls[0] + seq![10u8] + joined_lines(ls.drop_first())
    }
}

proof fn lemma_ended_single(l: Seq<u8>)
    ensures
        ended_lines(seq![l]) == l + seq![10u8],
{
    assert(seq![l].drop_first() =~= Seq::<Seq<u8>>::empty());
    assert(ended_lines(Seq::<Seq<u8>>::empty()) == Seq::<u8>::empty());
    assert(l + seq![10u8] + Seq::<u8>::empty() =~= l + seq![10u8]);
}

proof fn lemma_ended_concat(a: Seq<Seq<u8>>, b: Seq<Seq<u8>>)
    ensures
        ended_lines(a + b) == ended_lines(a) + ended_lines(b),
    decreases a.len(),
{
    if a.len() == 0 {
        assert(a + b =~= b);
    } else {
        assert((a + b).drop_first() =~= a.drop_first() + b);
        lemma_ended_concat(a.drop_first(), b);
        assert((a + b)[0] == a[0]);
    }
}

proof fn lemma_parent_lines_ended(ps: Seq<Seq<u8>>)
    ensures
        parent_lines(ps) == ended_lines(ps.map_values(|p: Seq<u8>| parent_key() + p)),
    decreases ps.len(),
{
    let f = |p: Seq<u8>| parent_key() + p;
    if ps.len() == 0 {
        assert(ps.map_values(f) =~= Seq::<Seq<u8>>::empty());
    } else {
        let q = ps.drop_last();
        lemma_parent_lines_ended(q);
        assert(ps.map_values(f) =~= q.map_values(f) + seq![parent_key() + ps.last()]);
        lemma_ended_concat(q.map_values(f), seq![parent_key() + ps.last()]);
        lemma_ended_single(parent_key() + ps.last());
    }
}

proof fn lemma_joined_ended(ls: Seq<Seq<u8>>)
    requires
        ls.len() > 0,
    ensures
        ended_lines(ls) == joined_lines(ls) + seq![10u8],
    decreases ls.len(),
{
    if ls.len() == 1 {
        assert(ls =~= seq![ls[0]]);
        lemma_ended_single(ls[0]);
    } else {
        lemma_joined_ended(ls.drop_first());
        assert(ended_lines(ls) =~= joined_lines(ls) + seq![10u8]);
    }
}

/// The line a plain line-reader sees: nonempty, without newlines, not
/// ending in a carriage return.
pub open spec fn reader_line(l: Seq<u8>) -> bool {
    &&& l.len() > 0
    &&& line_field(l)
}

proof fn lemma_lines_of_joined(ls: Seq<Seq<u8>>)
    requires
        forall|i: int| 0 <= i < ls.len() ==> reader_line(#[trigger] ls[i]),
    ensures
        text_lines(joined_lines(ls)) == ls,
        ls.len() > 0 ==> joined_lines(ls).len() > 0 && joined_lines(ls).last() != 10u8,
        ls.len() > 0 ==> joined_lines(ls)[0] == ls[0][0],
        forall|j: int| 0 <= j < joined_lines(ls).len() - 1 ==> !#[trigger] blank_at(joined_lines(ls), j),
    decreases ls.len(),
{
    reveal(text_lines);
    let h = joined_lines(ls);
    if ls.len() == 0 {
    } else if ls.len() == 1 {
        let l = ls[0];
        assert(reader_line(l));
        assert(find_from(h, 10, 0) is None) by {
            if exists|k: int| is_first_at(h, 10, 0, k) {
                let k = choose|k: int| is_first_at(h, 10, 0, k);
                assert(l[k] != 10u8);
            }
        }
        assert forall|j: int| 0 <= j < h.len() - 1 implies !#[trigger] blank_at(h, j) by {
            assert(l[j] != 10u8);
        }
    } else {
        let l = ls[0];
        let rest = ls.drop_first();
        assert(reader_line(l));
        assert forall|i: int| 0 <= i < rest.len() implies reader_line(#[trigger] rest[i]) by {
            assert(rest[i] == ls[i + 1]);
        }
        lemma_lines_of_joined(rest);
        let jr = joined_lines(rest);
        let n = l.len() as int;
        assert(h =~= l + seq![10u8] + jr);
        assert(is_first_at(h, 10, 0, n)) by {
            assert forall|j: int| 0 <= j < n implies h[j] != 10u8 by {
                assert(h[j] == l[j]);
            }
        }
        assert(find_from(h, 10, 0) == Some(n)) by {
            let k = choose|k: int| is_first_at(h, 10, 0, k);
            crate::codec::lemma_first_unique(h, 10, 0, n, k);
        }
        assert(h.take(n) =~= l);
        assert(h.skip(n + 1) =~= jr);
        assert(strip_cr(l) == l);
        assert(seq![l] + rest =~= ls);
        assert(rest[0] == ls[1]);
        assert(reader_line(ls[1]));
        assert forall|j: int| 0 <= j < h.len() - 1 implies !#[trigger] blank_at(h, j) by {
            if j < n {
                assert(h[j] == l[j]);
            } else if j == n {
                assert(h[n + 1] == jr[0]);
                assert(jr[0] == ls[1][0]);
            } else {
                assert(h[j] == jr[j - n - 1]);
                assert(h[j + 1] == jr[j - n]);
                assert(!blank_at(jr, j - n - 1));
            }
        }
        assert(h.last() == jr.last());
        assert(h[0] == l[0]);
    }
}

/// `l` does not start with `k` when their first bytes differ.
proof fn lemma_not_prefix(l: Seq<u8>, k: Seq<u8>)
    requires
        l.len() > 0,
        k.len() > 0,
        l[0] != k[0],
    ensures
        !has_prefix(l, k),
{
    if has_prefix(l, k) {
        assert(l.take(k.len() as int)[0] == l[0]);
    }
}

/// `k + x` starts with `k`, and `x` follows it.
proof fn lemma_prefix_of(k: Seq<u8>, x: Seq<u8>)
    ensures
        has_prefix(k + x, k),
        (k + x).skip(k.len() as int) == x,
{
    assert((k + x).take(k.len() as int) =~= k);
    assert((k + x).skip(k.len() as int) =~= x);
}

/// An identity written with a time reads back as that identity and time.
proof fn lemma_identity_body(who: Seq<u8>, now: nat)
    requires
        now <= 0x7fff_ffff_ffff_ffff,
    ensures
        identity_spec(identity_body(who, now)) == Ok::<(Seq<u8>, i64), ObjectError>((who, now as i64)),
{
    let d = decimal(now);
    crate::codec::lemma_decimal_value(now);
    crate::codec::lemma_parse_decimal(now);
    let v = identity_body(who, now);
    let w = who.len() as int;
    let a = w + 1 + d.len();
    assert(v[a] == 32u8);
    assert(crate::codec::is_last_before(v, 32, v.len() as int, a)) by {
        assert forall|j: int| a < j < v.len() implies v[j] != 32u8 by {
            assert(v[j] == zone_text()[j - a]);
        }
    }
    assert(rfind_before(v, 32, v.len() as int) == Some(a)) by {
        let q = choose|q: int| crate::codec::is_last_before(v, 32, v.len() as int, q);
        if q < a {
        } else if q > a {
        }
    }
    assert(v[w] == 32u8);
    assert(crate::codec::is_last_before(v, 32, a, w)) by {
        assert forall|j: int| w < j < a implies v[j] != 32u8 by {
            assert(v[j] == d[j - w - 1]);
        }
    }
    assert(rfind_before(v, 32, a) == Some(w)) by {
        let q = choose|q: int| crate::codec::is_last_before(v, 32, a, q);
        if q < w {
        } else if q > w {
        }
    }
    assert(v.subrange(w + 1, a) =~= d);
    assert(v.take(w) =~= who);
}

/// The fields after the tree line and the parent lines.
proof fn lemma_apply_parents(f: CommitFields, ps: Seq<Seq<u8>>, rest: Seq<Seq<u8>>)
    ensures
        apply_header_lines(f, ps.map_values(|p: Seq<u8>| parent_key() + p) + rest) == apply_header_lines(
            CommitFields {
                tree: f.tree,
                parents: f.parents + ps,
                author: f.author,
                author_time: f.author_time,
                committer: f.committer,
                committer_time: f.committer_time,
            },
            rest,
        ),
    decreases ps.len(),
{
    let m = ps.map_values(|p: Seq<u8>| parent_key() + p);
    if ps.len() == 0 {
        assert(m + rest =~= rest);
        assert(f.parents + ps =~= f.parents);
    } else {
        let l = parent_key() + ps[0];
        let g = CommitFields {
            tree: f.tree,
            parents: f.parents.push(ps[0]),
            author: f.author,
            author_time: f.author_time,
            committer: f.committer,
            committer_time: f.committer_time,
        };
        assert(apply_header_line(f, l) == Ok::<CommitFields, ObjectError>(g)) by {
            reveal(apply_header_line);
            lemma_not_prefix(l, tree_key());
            lemma_prefix_of(parent_key(), ps[0]);
        }
        let tail = ps.drop_first().map_values(|p: Seq<u8>| parent_key() + p) + rest;
        assert(m + rest =~= seq![l] + tail);
        lemma_apply_cons(f, l, tail);
        lemma_apply_parents(g, ps.drop_first(), rest);
        assert(g.parents + ps.drop_first() =~= f.parents + ps);
    }
}

/// A commit's text is its header lines joined by newlines, a blank line
/// and the message.
#[verifier::rlimit(40)]
proof fn lemma_commit_text_shape(tree: Seq<u8>, parents: Seq<Seq<u8>>, author: Seq<u8>, message: Seq<u8>, now: nat)
    ensures
        commit_text(tree, parents, author, message, now) == joined_lines(header_lines(tree, parents, author, now))
            + seq![10u8, 10u8] + message,
{
    let ls = header_lines(tree, parents, author, now);
    let pm = parents.map_values(|p: Seq<u8>| parent_key() + p);
    let ib = identity_body(author, now);
    let al = author_key() + ib;
    let cl = committer_key() + ib;
    let tl = tree_key() + tree;
    let nl = seq![10u8];
    lemma_parent_lines_ended(parents);
    lemma_ended_concat(seq![tl], pm + seq![al, cl]);
    lemma_ended_concat(pm, seq![al, cl]);
    assert(seq![tl] + (pm + seq![al, cl]) =~= ls);
    lemma_ended_single(tl);
    lemma_ended_single(cl);
    assert(seq![al, cl].drop_first() =~= seq![cl]);
    assert(ended_lines(seq![al, cl]) == al + nl + ended_lines(seq![cl]));
    let a_line = identity_line(author_key(), author, now);
    let c_line = identity_line(committer_key(), author, now);
    assert(a_line =~= al + nl);
    assert(c_line =~= cl + nl);
    let pl = parent_lines(parents);
    assert(ended_lines(ls) == (tl + nl) + (pl + ((al + nl) + (cl + nl))));
    let text = commit_text(tree, parents, author, message, now);
    assert(text == tree_key() + tree + nl + pl + a_line + c_line + nl + message);
    assert(text =~= ended_lines(ls) + nl + message);
    lemma_joined_ended(ls);
    assert(text =~= joined_lines(ls) + seq![10u8, 10u8] + message);
}

/// The header lines of a commit are plain lines when its fields are.
proof fn lemma_header_lines_plain(tree: Seq<u8>, parents: Seq<Seq<u8>>, author: Seq<u8>, now: nat)
    requires
        line_field(tree),
        forall|i: int| 0 <= i < parents.len() ==> line_field(#[trigger] parents[i]),
        forall|i: int| 0 <= i < author.len() ==> #[trigger] author[i] != 10u8,
    ensures
        forall|i: int|
            0 <= i < header_lines(tree, parents, author, now).len() ==> reader_line(
                #[trigger] header_lines(tree, parents, author, now)[i],
            ),
{
    let ls = header_lines(tree, parents, author, now);
    let ib = identity_body(author, now);
    let al = author_key() + ib;
    let cl = committer_key() + ib;
    let tl = tree_key() + tree;
    crate::codec::lemma_decimal_digits(now);
    assert(ib.len() > 0 && ib.last() == 48u8);
    assert forall|i: int| 0 <= i < ib.len() implies #[trigger] ib[i] != 10u8 by {
        if i < author.len() {
            assert(ib[i] == author[i]);
        } else if i > author.len() && i < author.len() + 1 + decimal(now).len() {
            assert(ib[i] == decimal(now)[i - author.len() - 1]);
        } else if i >= author.len() + 1 + decimal(now).len() {
            assert(ib[i] == zone_text()[i - author.len() - 1 - decimal(now).len()]);
        }
    }
    assert forall|i: int| 0 <= i < ls.len() implies reader_line(#[trigger] ls[i]) by {
        if i == 0 {
            assert(ls[0] == tl);
            assert forall|k: int| 0 <= k < tl.len() implies #[trigger] tl[k] != 10u8 by {
                if k >= 5 {
                    assert(tl[k] == tree[k - 5]);
                }
            }
        } else if i <= parents.len() {
            let p = parents[i - 1];
            assert(line_field(p));
            assert(ls[i] == parent_key() + p);
            let pl = parent_key() + p;
            assert forall|k: int| 0 <= k < pl.len() implies #[trigger] pl[k] != 10u8 by {
                if k >= 7 {
                    assert(pl[k] == p[k - 7]);
                }
            }
        } else if i == parents.len() + 1 {
            assert(ls[i] == al);
            assert forall|k: int| 0 <= k < al.len() implies #[trigger] al[k] != 10u8 by {
                if k >= 7 {
                    assert(al[k] == ib[k - 7]);
                }
            }
        } else {
            assert(ls[i] == cl);
            assert forall|k: int| 0 <= k < cl.len() implies #[trigger] cl[k] != 10u8 by {
                if k >= 10 {
                    assert(cl[k] == ib[k - 10]);
                }
            }
        }
    }
}

/// Text that is plain lines joined, then a blank line, has its first blank
/// line right after those lines.
proof fn lemma_blank_after_joined(ls: Seq<Seq<u8>>, message: Seq<u8>)
    requires
        ls.len() > 0,
        forall|i: int| 0 <= i < ls.len() ==> reader_line(#[trigger] ls[i]),
    ensures
        find_blank(joined_lines(ls) + seq![10u8, 10u8] + message) == Some(joined_lines(ls).len() as int),
{
    lemma_lines_of_joined(ls);
    let j = joined_lines(ls);
    let text = j + seq![10u8, 10u8] + message;
    let p = j.len() as int;
    assert(blank_at(text, p));
    assert(is_first_blank(text, p)) by {
        assert forall|q: int| 0 <= q < p implies !#[trigger] blank_at(text, q) by {
            if q < p - 1 {
                assert(!blank_at(j, q));
                assert(text[q] == j[q]);
                assert(text[q + 1] == j[q + 1]);
            } else {
                assert(text[q] == j.last());
            }
        }
    }
    let q = choose|q: int| is_first_blank(text, q);
    if q < p {
        assert(!blank_at(text, q));
    } else if q > p {
        assert(!blank_at(text, p));
    }
}

/// No lines change nothing.
proof fn lemma_apply_nil(f: CommitFields)
    ensures
        apply_header_lines(f, Seq::empty()) == Ok::<CommitFields, ObjectError>(f),
{
    reveal(apply_header_lines);
}

/// A `tree` line sets the tree.
proof fn lemma_apply_tree_line(f: CommitFields, tree: Seq<u8>)
    ensures
        apply_header_line(f, tree_key() + tree) == Ok::<CommitFields, ObjectError>(
            CommitFields {
                tree,
                parents: f.parents,
                author: f.author,
                author_time: f.author_time,
                committer: f.committer,
                committer_time: f.committer_time,
            },
        ),
{
    reveal(apply_header_line);
    lemma_prefix_of(tree_key(), tree);
}

/// An `author` line sets the author and its time.
proof fn lemma_apply_author_line(f: CommitFields, who: Seq<u8>, now: nat)
    requires
        now <= 0x7fff_ffff_ffff_ffff,
    ensures
        apply_header_line(f, author_key() + identity_body(who, now)) == Ok::<CommitFields, ObjectError>(
            CommitFields {
                tree: f.tree,
                parents: f.parents,
                author: who,
                author_time: now as i64,
                committer: f.committer,
                committer_time: f.committer_time,
            },
        ),
{
    let ib = identity_body(who, now);
    let l = author_key() + ib;
    assert(has_prefix(l, author_key()) && l.skip(7) == ib) by {
        lemma_prefix_of(author_key(), ib);
    }
    assert(!has_prefix(l, tree_key()) && !has_prefix(l, parent_key())) by {
        lemma_not_prefix(l, tree_key());
        lemma_not_prefix(l, parent_key());
    }
    assert(identity_spec(l.skip(7)) == Ok::<(Seq<u8>, i64), ObjectError>((who, now as i64))) by {
        lemma_identity_body(who, now);
    }
    reveal(apply_header_line);
}

/// A `committer` line sets the committer and its time.
#[verifier::rlimit(60)]
proof fn lemma_apply_committer_line(f: CommitFields, who: Seq<u8>, now: nat)
    requires
        now <= 0x7fff_ffff_ffff_ffff,
    ensures
        apply_header_line(f, committer_key() + identity_body(who, now)) == Ok::<CommitFields, ObjectError>(
            CommitFields {
                tree: f.tree,
                parents: f.parents,
                author: f.author,
                author_time: f.author_time,
                committer: who,
                committer_time: now as i64,
            },
        ),
{
    let ib = identity_body(who, now);
    let l = committer_key() + ib;
    assert(has_prefix(l, committer_key()) && l.skip(10) == ib) by {
        lemma_prefix_of(committer_key(), ib);
    }
    assert(!has_prefix(l, tree_key()) && !has_prefix(l, parent_key()) && !has_prefix(l, author_key())) by {
        lemma_not_prefix(l, tree_key());
        lemma_not_prefix(l, parent_key());
        lemma_not_prefix(l, author_key());
    }
    assert(identity_spec(l.skip(10)) == Ok::<(Seq<u8>, i64), ObjectError>((who, now as i64))) by {
        lemma_identity_body(who, now);
    }
    reveal(apply_header_line);
}

/// Reading a commit's header lines gives its fields.
proof fn lemma_apply_commit_header(tree: Seq<u8>, parents: Seq<Seq<u8>>, author: Seq<u8>, now: nat)
    requires
        now <= 0x7fff_ffff_ffff_ffff,
    ensures
        apply_header_lines(empty_fields(), header_lines(tree, parents, author, now)) == Ok::<CommitFields, ObjectError>(
            CommitFields {
                tree,
                parents,
                author,
                author_time: now as i64,
                committer: author,
                committer_time: now as i64,
            },
        ),
{
    let ls = header_lines(tree, parents, author, now);
    let pm = parents.map_values(|p: Seq<u8>| parent_key() + p);
    let ib = identity_body(author, now);
    let al = author_key() + ib;
    let cl = committer_key() + ib;
    let tl = tree_key() + tree;
    let f0 = empty_fields();
    let f1 = CommitFields {
        tree,
        parents: Seq::empty(),
        author: Seq::empty(),
        author_time: 0,
        committer: Seq::empty(),
        committer_time: 0,
    };
    let f2 = CommitFields {
        tree,
        parents,
        author: Seq::empty(),
        author_time: 0,
        committer: Seq::empty(),
        committer_time: 0,
    };
    let f3 = CommitFields {
        tree,
        parents,
        author,
        author_time: now as i64,
        committer: Seq::empty(),
        committer_time: 0,
    };
    let f4 = CommitFields {
        tree,
        parents,
        author,
        author_time: now as i64,
        committer: author,
        committer_time: now as i64,
    };
    lemma_apply_tree_line(f0, tree);
    assert(seq![tl] + (pm + seq![al, cl]) =~= ls);
    lemma_apply_cons(f0, tl, pm + seq![al, cl]);
    lemma_apply_parents(f1, parents, seq![al, cl]);
    assert(Seq::<Seq<u8>>::empty() + parents =~= parents);
    lemma_apply_author_line(f2, author, now);
    assert(seq![al] + seq![cl] =~= seq![al, cl]);
    lemma_apply_cons(f2, al, seq![cl]);
    lemma_apply_committer_line(f3, author, now);
    assert(seq![cl] + Seq::<Seq<u8>>::empty() =~= seq![cl]);
    lemma_apply_cons(f3, cl, Seq::empty());
    lemma_apply_nil(f4);
}

/// A commit's text, as `commit_content` writes it, parses back into the
/// tree, the parents, the author (as author and committer), the time and
/// the message it was made of, provided the tree is not empty, no field but
/// the message holds a newline, the tree and the parents do not end in a
/// carriage return, and the time fits in an `i64`.
pub proof fn lemma_commit_text_parses(
    tree: Seq<u8>,
    parents: Seq<Seq<u8>>,
    author: Seq<u8>,
    message: Seq<u8>,
    now: nat,
)
    requires
        tree.len() > 0,
        line_field(tree),
        forall|i: int| 0 <= i < parents.len() ==> line_field(#[trigger] parents[i]),
        forall|i: int| 0 <= i < author.len() ==> #[trigger] author[i] != 10u8,
        now <= 0x7fff_ffff_ffff_ffff,
    ensures
        parse_commit_spec(commit_text(tree, parents, author, message, now)) == Ok::<(CommitFields, Seq<u8>), ObjectError>(
            (
                CommitFields {
                    tree,
                    parents,
                    author,
                    author_time: now as i64,
                    committer: author,
                    committer_time: now as i64,
                },
                message,
            ),
        ),
{
    let ls = header_lines(tree, parents, author, now);
    let j = joined_lines(ls);
    let text = commit_text(tree, parents, author, message, now);
    lemma_commit_text_shape(tree, parents, author, message, now);
    lemma_header_lines_plain(tree, parents, author, now);
    lemma_lines_of_joined(ls);
    lemma_blank_after_joined(ls, message);
    let p = j.len() as int;
    assert(text.take(p) =~= j);
    assert(text.skip(p + 2) =~= message);
    lemma_apply_commit_header(tree, parents, author, now);
}

/// An owned copy of a text.
fn str_to_string(s: &str) -> (res: String)
    ensures
        res@ == s@,
{
    s.to_owned()
}

} // verus!
