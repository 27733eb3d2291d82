//! Tree objects: a directory level as entries `"<mode> <name>\0"` followed
//! by a 20-byte object hash, sorted by name with directories sorted as if
//! their names ended in `/`.

use vstd::prelude::*;
use vstd::utf8::*;
use crate::codec::{
    bytes_eq, bytes_lt, decimal, decimal_bytes, find_byte, find_from, has_prefix, hex_encode,
    hex_lower, hex_to_bytes, is_first_at, lemma_first_unique, lemma_hex_roundtrip,
    lemma_split_at_ascii, lex_lt, slice_copy, starts_with_bytes, string_of_utf8,
};
use crate::codec::{lemma_lex_irreflexive, lemma_lex_total, lemma_lex_transitive};
use crate::digest::{sha1, zlib_deflated};
use crate::index::{entry_key, EntryView, Index, IndexEntry};
use crate::storage::{
    object_bytes, read_object, read_object_result, store_generic_object, ObjectError, StoredObject,
};

verus! {

/// One entry of a tree: mode text, name and the 20-byte hash it points to.
pub struct TreeItem {
    pub mode: Seq<u8>,
    pub name: Seq<u8>,
    pub hash: Seq<u8>,
}

/// `40000`, the mode of a subdirectory.
pub open spec fn dir_mode() -> Seq<u8> {
    seq![52u8, 48u8, 48u8, 48u8, 48u8]
}

/// The entries of a tree's content from byte `off` on.
pub open spec fn parse_tree_from(c: Seq<u8>, off: int) -> Result<Seq<TreeItem>, ObjectError>
    decreases c.len() - off,
{
    if off < 0 || off >= c.len() {
        Ok(Seq::empty())
    } else {
        match find_from(c, 0, off) {
            None => Err(ObjectError::TreeEntryMissingNul),
            Some(z) => {
                let header = c.subrange(off, z);
                if !valid_utf8(header) {
                    Err(ObjectError::TreeEntryNotUtf8)
                } else {
                    match find_from(header, 32, 0) {
                        None => Err(ObjectError::TreeEntryWithoutSpace),
                        Some(sp) => if z + 21 > c.len() {
                            Err(ObjectError::TreeHashTruncated)
                        } else if z < off {
                            Ok(Seq::empty())
                        } else {
                            match parse_tree_from(c, z + 21) {
                                Ok(rest) => Ok(
                                    seq![
                                        TreeItem {
                                            mode: header.take(sp),
                                            name: header.skip(sp + 1),
                                            hash: c.subrange(z + 1, z + 21),
                                        },
                                    ] + rest,
                                ),
                                Err(e) => Err(e),
                            }
                        },
                    }
                }
            },
        }
    }
}

/// A path below `prefix`: the name itself at the top, else `prefix/name`.
pub open spec fn join_path(prefix: Seq<u8>, name: Seq<u8>) -> Seq<u8> {
    if prefix.len() == 0 {
        name
    } else {
        prefix + seq![47u8] + name
    }
}

/// An entry of a tree as the listing of a whole tree needs it.
#[derive(Debug)]
pub struct FlatItem {
    /// The entry's path from the repository root.
    pub path: String,
    /// The hash it points to, in lowercase hex.
    pub hash: String,
    /// Whether it is a subdirectory, to be listed in turn.
    pub is_tree: bool,
}

/// A listed entry stands for the tree entry found below `prefix`.
pub open spec fn flat_item_for(f: FlatItem, prefix: Seq<u8>, t: TreeItem) -> bool {
    &&& encode_utf8(f.path@) == join_path(prefix, t.name)
    &&& f.hash@ == hex_lower(t.hash)
    &&& f.is_tree == (t.mode == dir_mode())
}

/// The listed entries stand for the tree entries, one for one.
pub open spec fn flat_items_for(fs: Seq<FlatItem>, prefix: Seq<u8>, ts: Seq<TreeItem>) -> bool {
    &&& fs.len() == ts.len()
    &&& forall|i: int| 0 <= i < fs.len() ==> flat_item_for(#[trigger] fs[i], prefix, ts[i])
}

/// `acc` followed by what `r` holds, or the fault of `r`.
pub open spec fn prepend_items(acc: Seq<TreeItem>, r: Result<Seq<TreeItem>, ObjectError>) -> Result<Seq<TreeItem>, ObjectError> {
    match r {
        Ok(rest) => Ok(acc + rest),
        Err(e) => Err(e),
    }
}

/// Reads the entries of a tree's content, each named by its path below
/// `prefix`.
pub fn parse_tree(prefix: &str, content: &[u8]) -> (res: Result<Vec<FlatItem>, ObjectError>)
    ensures
        match res {
            Ok(v) => parse_tree_from(content@, 0) matches Ok(ts) && flat_items_for(
                v@,
                encode_utf8(prefix@),
                ts,
            ),
            Err(e) => parse_tree_from(content@, 0) == Err::<Seq<TreeItem>, ObjectError>(e),
        },
{
    let c = content;
    let n = c.len();
    let pb = prefix.as_bytes();
    proof {
        encode_utf8_valid_utf8(prefix@);
    }
    let mut out: Vec<FlatItem> = Vec::new();
    let ghost mut acc: Seq<TreeItem> = Seq::empty();
    let mut off: usize = 0;
    assert(prepend_items(acc, parse_tree_from(c@, 0)) == parse_tree_from(c@, 0)) by {
        if let Ok(rest) = parse_tree_from(c@, 0) {
            assert(acc + rest =~= rest);
        }
    }
    while off < n
        invariant
            c@ == content@,
            pb@ == encode_utf8(prefix@),
            n == c@.len(),
            off <= n,
            pb@ == encode_utf8(prefix@),
            valid_utf8(pb@),
            parse_tree_from(c@, 0) == prepend_items(acc, parse_tree_from(c@, off as int)),
            flat_items_for(out@, pb@, acc),
        decreases n - off,
    {
        let z = match find_byte(c, 0, off) {
            Some(z) => z,
            None => {
                assert(parse_tree_from(c@, off as int) == Err::<Seq<TreeItem>, ObjectError>(ObjectError::TreeEntryMissingNul));
                return Err(ObjectError::TreeEntryMissingNul);
            },
        };
        assert(is_first_at(c@, 0, off as int, z as int));
        let header = slice_copy(c, off, z);
        let hs = match crate::codec::utf8_string(slice_copy(c, off, z)) {
            Some(s) => s,
            None => return Err(ObjectError::TreeEntryNotUtf8),
        };
        let sp = match find_byte(header.as_slice(), 32, 0) {
            Some(sp) => sp,
            None => return Err(ObjectError::TreeEntryWithoutSpace),
        };
        assert(is_first_at(header@, 32, 0, sp as int));
        if n - z < 21 {
            return Err(ObjectError::TreeHashTruncated);
        }
        let hl = header.len();
        proof {
            lemma_split_at_ascii(header@, sp as int);
            crate::codec::lemma_split_after_ascii(header@, sp + 1);
        }
        let mode = slice_copy(header.as_slice(), 0, sp);
        let name = slice_copy(header.as_slice(), sp + 1, hl);
        assert(name@ =~= header@.skip(sp + 1));
        let hash = slice_copy(c, z + 1, z + 21);
        let ghost item = TreeItem { mode: header@.take(sp as int), name: header@.skip(sp + 1), hash: hash@ };
        let is_tree = bytes_eq(mode.as_slice(), &[52u8, 48u8, 48u8, 48u8, 48u8]);
        let mut pv: Vec<u8> = Vec::new();
        pv.extend_from_slice(pb);
        if pv.len() > 0 {
            pv.push(47u8);
        }
        pv.extend_from_slice(name.as_slice());
        proof {
            crate::codec::lemma_ascii_valid_utf8(seq![47u8]);
            valid_utf8_concat(pb@, seq![47u8]);
            if pb@.len() > 0 {
                valid_utf8_concat(pb@ + seq![47u8], name@);
                assert(pv@ =~= pb@ + seq![47u8] + name@);
            } else {
                assert(pv@ =~= name@);
            }
        }
        let path = string_of_utf8(pv);
        let hex = hex_encode(hash.as_slice());
        out.push(FlatItem { path, hash: hex, is_tree });
        proof {
            assert(mode@ =~= header@.take(sp as int));
            assert([52u8, 48u8, 48u8, 48u8, 48u8]@ =~= dir_mode());
            let r = parse_tree_from(c@, z + 21);
            if let Ok(rest) = r {
                assert(acc + (seq![item] + rest) =~= acc.push(item) + rest);
            }
            acc = acc.push(item);
        }
        off = z + 21;
    }
    assert(parse_tree_from(c@, off as int) == Ok::<Seq<TreeItem>, ObjectError>(Seq::empty()));
    assert(acc + Seq::<TreeItem>::empty() =~= acc);
    Ok(out)
}


/// `tree`, the type of tree objects.
pub open spec fn tree_kind() -> Seq<u8> {
    seq![116u8, 114u8, 101u8, 101u8]
}

/// What one level of a stored tree reads as: the object must be of type
/// `tree`, and its content is taken apart into entries.
pub open spec fn tree_level(stored: Seq<u8>) -> Result<Seq<TreeItem>, ObjectError> {
    match read_object_result(stored) {
        Err(e) => Err(e),
        Ok((t, c)) => if t != tree_kind() {
            Err(ObjectError::WrongType)
        } else {
            parse_tree_from(c, 0)
        },
    }
}

/// Reads one stored tree object and lists its entries by their paths below
/// `prefix`; the entries that are subdirectories are to be listed in turn
/// from their own stored trees.
pub fn flatten_tree(prefix: &str, stored: &[u8]) -> (res: Result<Vec<FlatItem>, ObjectError>)
    ensures
        match res {
            Ok(v) => tree_level(stored@) matches Ok(ts) && flat_items_for(
                v@,
                encode_utf8(prefix@),
                ts,
            ),
            Err(e) => tree_level(stored@) == Err::<Seq<TreeItem>, ObjectError>(e),
        },
{
    let (t, content) = match read_object(stored) {
        Ok(r) => r,
        Err(e) => return Err(e),
    };
    let tb = crate::codec::str_bytes(t.as_str());
    let tk: [u8; 4] = [116u8, 114u8, 101u8, 101u8];
    assert(tk@ =~= tree_kind());
    if !bytes_eq(tb.as_slice(), &tk) {
        return Err(ObjectError::WrongType);
    }
    parse_tree(prefix, content.as_slice())
}

/// A path relative to `prefix`: the path itself at the top, else what
/// follows `prefix/`, if it starts so.
pub open spec fn rel_path(path: Seq<u8>, prefix: Seq<u8>) -> Option<Seq<u8>> {
    if prefix.len() == 0 {
        Some(path)
    } else if has_prefix(path, prefix + seq![47u8]) {
        Some(path.skip(prefix.len() + 1int))
    } else {
        None
    }
}

/// The files directly under `prefix`, in index order: mode in decimal,
/// name, blob hash.
pub open spec fn file_items(s: Seq<EntryView>, prefix: Seq<u8>) -> Seq<TreeItem>
    decreases s.len(),
{
    if s.len() == 0 {
        Seq::empty()
    } else {
        let rest = file_items(s.drop_last(), prefix);
        match rel_path(entry_key(s.last()), prefix) {
            Some(r) => if find_from(r, 47, 0) is None {
                rest.push(TreeItem { mode: decimal(s.last().mode as nat), name: r, hash: s.last().sha1 })
            } else {
                rest
            },
            None => rest,
        }
    }
}

/// The names of the subdirectories directly under `prefix`, each once, in
/// the order they first occur in the index.
pub open spec fn dir_names(s: Seq<EntryView>, prefix: Seq<u8>) -> Seq<Seq<u8>>
    decreases s.len(),
{
    if s.len() == 0 {
        Seq::empty()
    } else {
        let rest = dir_names(s.drop_last(), prefix);
        match rel_path(entry_key(s.last()), prefix) {
            Some(r) => match find_from(r, 47, 0) {
                Some(k) => if rest.contains(r.take(k)) {
                    rest
                } else {
                    rest.push(r.take(k))
                },
                None => rest,
            },
            None => rest,
        }
    }
}

/// The name a tree entry is sorted by: a subdirectory's name ends in `/`.
pub open spec fn sort_key(it: TreeItem) -> Seq<u8> {
    if it.mode == dir_mode() {
        it.name.push(47u8)
    } else {
        it.name
    }
}

/// Where a stable sort puts `x` among `t`: before the first entry whose key
/// is greater, after all the rest.
pub open spec fn insert_pos(t: Seq<TreeItem>, x: TreeItem) -> int
    decreases t.len(),
{
    if t.len() == 0 {
        0
    } else if lex_lt(sort_key(x), sort_key(t[0])) {
        0
    } else {
        1 + insert_pos(t.drop_first(), x)
    }
}

/// Tree entries sorted by key, entries with equal keys kept in their order
/// (insertion sort, which is stable).
pub open spec fn sort_items(s: Seq<TreeItem>) -> Seq<TreeItem>
    decreases s.len(),
{
    if s.len() == 0 {
        s
    } else {
        let t = sort_items(s.drop_last());
        t.insert(insert_pos(t, s.last()), s.last())
    }
}

/// One tree entry as stored: mode, space, name, NUL, 20-byte hash.
pub open spec fn item_bytes(it: TreeItem) -> Seq<u8> {
    it.mode + seq![32u8] + it.name + seq![0u8] + it.hash
}

/// Tree entries as stored, one after another.
pub open spec fn items_bytes(its: Seq<TreeItem>) -> Seq<u8>
    decreases its.len(),
{
    if its.len() == 0 {
        Seq::empty()
    } else {
        items_bytes(its.drop_last()) + item_bytes(its.last())
    }
}

/// What is left of `bound` above the length of `prefix`; it shrinks as the
/// trees nest.
pub open spec fn depth_left(prefix: Seq<u8>, bound: nat) -> nat {
    if prefix.len() < bound {
        (bound - prefix.len()) as nat
    } else {
        0
    }
}

/// The subdirectory entries under `prefix` for the given names, each
/// pointing to the digest of its own tree.
pub open spec fn dir_items(s: Seq<EntryView>, prefix: Seq<u8>, bound: nat, names: Seq<Seq<u8>>) -> Seq<TreeItem>
    decreases depth_left(prefix, bound), 0nat, names.len(),
{
    if names.len() == 0 {
        Seq::empty()
    } else {
        let q = join_path(prefix, names.last());
        let h = if q.len() > prefix.len() && prefix.len() < bound {
            tree_digest(s, q, bound)
        } else {
            Seq::empty()
        };
        dir_items(s, prefix, bound, names.drop_last()).push(
            TreeItem { mode: dir_mode(), name: names.last(), hash: h },
        )
    }
}

/// The content of the tree for `prefix`: its files and subdirectories,
/// sorted.
pub open spec fn tree_content(s: Seq<EntryView>, prefix: Seq<u8>, bound: nat) -> Seq<u8>
    decreases depth_left(prefix, bound), 1nat, 0nat,
{
    items_bytes(sort_items(file_items(s, prefix) + dir_items(s, prefix, bound, dir_names(s, prefix))))
}

/// The digest that names the tree for `prefix`.
pub open spec fn tree_digest(s: Seq<EntryView>, prefix: Seq<u8>, bound: nat) -> Seq<u8>
    decreases depth_left(prefix, bound), 2nat, 0nat,
{
    sha1(object_bytes(tree_kind(), tree_content(s, prefix, bound)))
}

/// A stored object as plain values: its name and its compressed bytes.
pub open spec fn stored_view(o: StoredObject) -> (Seq<char>, Seq<u8>) {
    (o.hash@, o.data@)
}

/// The objects written for the subdirectories with the given names.
pub open spec fn dir_objects(s: Seq<EntryView>, prefix: Seq<u8>, bound: nat, names: Seq<Seq<u8>>) -> Seq<(Seq<char>, Seq<u8>)>
    decreases depth_left(prefix, bound), 0nat, names.len(),
{
    if names.len() == 0 {
        Seq::empty()
    } else {
        let q = join_path(prefix, names.last());
        let sub = if q.len() > prefix.len() && prefix.len() < bound {
            tree_objects(s, q, bound)
        } else {
            Seq::empty()
        };
        dir_objects(s, prefix, bound, names.drop_last()) + sub
    }
}

/// The objects written for the tree at `prefix`: those of each
/// subdirectory in turn, then its own.
pub open spec fn tree_objects(s: Seq<EntryView>, prefix: Seq<u8>, bound: nat) -> Seq<(Seq<char>, Seq<u8>)>
    decreases depth_left(prefix, bound), 1nat, 0nat,
{
    dir_objects(s, prefix, bound, dir_names(s, prefix)) + seq![
        (
            hex_lower(tree_digest(s, prefix, bound)),
            zlib_deflated(object_bytes(tree_kind(), tree_content(s, prefix, bound))),
        ),
    ]
}

/// The entries of the tree for `prefix`: its files and subdirectories,
/// sorted.
pub open spec fn level_items(s: Seq<EntryView>, prefix: Seq<u8>, bound: nat) -> Seq<TreeItem> {
    sort_items(file_items(s, prefix) + dir_items(s, prefix, bound, dir_names(s, prefix)))
}

/// A stored tree reads back, through `flatten_tree`, as exactly the entries
/// it was encoded from.
pub open spec fn tree_reads_back(o: (Seq<char>, Seq<u8>)) -> bool {
    tree_level(o.1) matches Ok(its) && o.1 == zlib_deflated(object_bytes(tree_kind(), items_bytes(its)))
}

/// The tree written for `prefix` reads back as its sorted entries, and so
/// do, in turn, the trees written for its subdirectories.
pub open spec fn levels_read_back(s: Seq<EntryView>, prefix: Seq<u8>, bound: nat) -> bool
    decreases depth_left(prefix, bound), 1nat, 0nat,
{
    &&& tree_level(tree_objects(s, prefix, bound).last().1) == Ok::<Seq<TreeItem>, ObjectError>(level_items(s, prefix, bound))
    &&& dirs_read_back(s, prefix, bound, dir_names(s, prefix))
}

/// The trees written for the subdirectories `names` of `prefix` read back
/// as their sorted entries, and so on down.
pub open spec fn dirs_read_back(s: Seq<EntryView>, prefix: Seq<u8>, bound: nat, names: Seq<Seq<u8>>) -> bool
    decreases depth_left(prefix, bound), 0nat, names.len(),
{
    if names.len() == 0 {
        true
    } else {
        let q = join_path(prefix, names.last());
        &&& dirs_read_back(s, prefix, bound, names.drop_last())
        &&& (if q.len() > prefix.len() && prefix.len() < bound {
            levels_read_back(s, q, bound)
        } else {
            true
        })
    }
}

/// The longest path in the index, in bytes.
pub open spec fn max_key_len(s: Seq<EntryView>) -> nat
    decreases s.len(),
{
    if s.len() == 0 {
        0
    } else {
        let m = max_key_len(s.drop_last());
        if entry_key(s.last()).len() > m {
            entry_key(s.last()).len()
        } else {
            m
        }
    }
}


/// A tree entry being built.
struct Item {
    mode: Vec<u8>,
    name: Vec<u8>,
    hash: Vec<u8>,
}

impl View for Item {
    type V = TreeItem;

    closed spec fn view(&self) -> TreeItem {
        TreeItem { mode: self.mode@, name: self.name@, hash: self.hash@ }
    }
}

/// The views of built entries.
spec fn items_view(v: Seq<Item>) -> Seq<TreeItem> {
    v.map_values(|it: Item| it@)
}

/// The views of byte vectors.
spec fn names_view(v: Seq<Vec<u8>>) -> Seq<Seq<u8>> {
    v.map_values(|n: Vec<u8>| n@)
}

/// Where the part of `key` relative to `prefix` starts, if it lies below it.
fn rel_start(key: &[u8], prefix: &[u8]) -> (res: Option<usize>)
    ensures
        match res {
            Some(st) => st <= key@.len() && rel_path(key@, prefix@) == Some(key@.skip(st as int))
                && (st == 0 || key@[st - 1] == 47u8),
            None => rel_path(key@, prefix@) is None,
        },
{
    let n = prefix.len();
    if n == 0 {
        assert(key@.skip(0) =~= key@);
        return Some(0);
    }
    if key.len() > n && starts_with_bytes(key, prefix) && key[n] == 47u8 {
        assert(key@.take(n + 1) =~= prefix@ + seq![47u8]);
        Some(n + 1)
    } else {
        assert(!has_prefix(key@, prefix@ + seq![47u8])) by {
            if has_prefix(key@, prefix@ + seq![47u8]) {
                assert(key@.take(n as int) =~= prefix@) by {
                    assert forall|j: int| 0 <= j < n implies key@[j] == prefix@[j] by {
                        assert(key@.take(n + 1)[j] == (prefix@ + seq![47u8])[j]);
                    }
                }
                assert(key@.take(n + 1)[n as int] == (prefix@ + seq![47u8])[n as int]);
            }
        }
        None
    }
}

/// Whether `names` holds `name`.
fn contains_name(names: &Vec<Vec<u8>>, name: &Vec<u8>) -> (res: bool)
    ensures
        res == names_view(names@).contains(name@),
{
    let mut i: usize = 0;
    while i < names.len()
        invariant
            i <= names@.len(),
            forall|j: int| 0 <= j < i ==> names@[j]@ != name@,
        decreases names.len() - i,
    {
        if bytes_eq(names[i].as_slice(), name.as_slice()) {
            assert(names_view(names@)[i as int] == name@);
            return true;
        }
        i = i + 1;
    }
    assert forall|j: int| 0 <= j < names_view(names@).len() implies names_view(names@)[j] != name@ by {
        assert(names_view(names@)[j] == names@[j]@);
    }
    false
}

/// No path in the index holds a NUL byte.
pub open spec fn no_nul_paths(s: Seq<EntryView>) -> bool {
    forall|i: int, j: int| 0 <= i < s.len() && 0 <= j < entry_key(s[i]).len() ==> #[trigger] entry_key(s[i])[j] != 0u8
}

/// A name that reads back as written: UTF-8 without a NUL byte.
pub open spec fn plain_name(n: Seq<u8>) -> bool {
    &&& valid_utf8(n)
    &&& forall|i: int| 0 <= i < n.len() ==> #[trigger] n[i] != 0u8
}

/// A piece of a path without NUL bytes, cut where UTF-8 allows it, has no
/// NUL byte and is UTF-8.
proof fn lemma_path_piece(key: Seq<u8>, lo: int, hi: int)
    requires
        valid_utf8(key),
        0 <= lo <= hi <= key.len(),
        lo > 0 ==> key[lo - 1] < 128,
        hi < key.len() ==> key[hi] < 128,
        forall|j: int| 0 <= j < key.len() ==> #[trigger] key[j] != 0u8,
    ensures
        plain_name(key.subrange(lo, hi)),
{
    let t = key.skip(lo);
    if lo > 0 {
        crate::codec::lemma_split_after_ascii(key, lo);
    } else {
        assert(t =~= key);
    }
    if hi - lo < t.len() {
        assert(t[hi - lo] == key[hi]);
    }
    lemma_split_at_ascii(t, hi - lo);
    assert(t.take(hi - lo) =~= key.subrange(lo, hi));
    assert forall|j: int| 0 <= j < hi - lo implies #[trigger] key.subrange(lo, hi)[j] != 0u8 by {
        assert(key.subrange(lo, hi)[j] == key[lo + j]);
    }
}

/// A file's mode in decimal reads back as written.
proof fn lemma_decimal_mode(n: nat)
    ensures
        valid_utf8(decimal(n)),
        forall|i: int| 0 <= i < decimal(n).len() ==> #[trigger] decimal(n)[i] != 32u8 && decimal(n)[i] != 0u8,
{
    crate::codec::lemma_decimal_digits(n);
    let d = decimal(n);
    assert(crate::codec::ascii_bytes(d)) by {
        assert forall|i: int| 0 <= i < d.len() implies #[trigger] d[i] < 128 by {
            assert(48 <= d[i] <= 57);
        }
    }
    crate::codec::lemma_ascii_valid_utf8(d);
    assert forall|i: int| 0 <= i < d.len() implies #[trigger] d[i] != 32u8 && d[i] != 0u8 by {
        assert(48 <= d[i] <= 57);
    }
}

/// The files and the subdirectory names directly under `prefix`.
fn collect_level(entries: &Vec<IndexEntry>, prefix: &Vec<u8>) -> (res: (Vec<Item>, Vec<Vec<u8>>))
    ensures
        items_view(res.0@) == file_items(entries@.map_values(|e: IndexEntry| e@), prefix@),
        names_view(res.1@) == dir_names(entries@.map_values(|e: IndexEntry| e@), prefix@),
        no_nul_paths(entries@.map_values(|e: IndexEntry| e@)) ==> forall|m: int|
            0 <= m < res.0@.len() ==> storable_item(#[trigger] items_view(res.0@)[m]),
        no_nul_paths(entries@.map_values(|e: IndexEntry| e@)) ==> forall|m: int|
            0 <= m < res.1@.len() ==> plain_name(#[trigger] names_view(res.1@)[m]),
{
    let ghost s = entries@.map_values(|e: IndexEntry| e@);
    let mut files: Vec<Item> = Vec::new();
    let mut dirs: Vec<Vec<u8>> = Vec::new();
    let mut i: usize = 0;
    assert(s.take(0) =~= Seq::<EntryView>::empty());
    assert(items_view(files@) =~= Seq::<TreeItem>::empty());
    assert(names_view(dirs@) =~= Seq::<Seq<u8>>::empty());
    while i < entries.len()
        invariant
            s == entries@.map_values(|e: IndexEntry| e@),
            i <= entries@.len(),
            items_view(files@) == file_items(s.take(i as int), prefix@),
            names_view(dirs@) == dir_names(s.take(i as int), prefix@),
            no_nul_paths(s) ==> forall|m: int| 0 <= m < files@.len() ==> storable_item(#[trigger] items_view(files@)[m]),
            no_nul_paths(s) ==> forall|m: int| 0 <= m < dirs@.len() ==> plain_name(#[trigger] names_view(dirs@)[m]),
        decreases entries.len() - i,
    {
        let e = &entries[i];
        assert(s[i as int] == e@);
        proof {
            encode_utf8_valid_utf8(e.path@);
        }
        assert(s.take(i + 1).drop_last() =~= s.take(i as int));
        assert(s.take(i + 1).last() == e@);
        let key = e.path.as_str().as_bytes();
        let klen = key.len();
        match rel_start(key, prefix.as_slice()) {
            None => {},
            Some(st) => {
                proof {
                    crate::codec::lemma_find_shift(key@, 47, st as int);
                }
                match find_byte(key, 47, st) {
                    None => {
                        let mode = decimal_bytes(e.mode as u64);
                        let name = slice_copy(key, st, klen);
                        let hash = slice_copy(&e.sha1, 0, 20);
                        assert(name@ =~= key@.skip(st as int));
                        assert(hash@ =~= e.sha1@);
                        let ghost before = files@;
                        files.push(Item { mode, name, hash });
                        assert(items_view(files@) =~= file_items(s.take(i + 1), prefix@));
                        proof {
                            if no_nul_paths(s) {
                                assert forall|j: int| 0 <= j < key@.len() implies #[trigger] key@[j] != 0u8 by {
                                    assert(entry_key(s[i as int])[j] != 0u8);
                                }
                                lemma_path_piece(key@, st as int, klen as int);
                                assert(key@.subrange(st as int, klen as int) =~= name@);
                                lemma_decimal_mode(e.mode as nat);
                                assert forall|m: int| 0 <= m < files@.len() implies storable_item(
                                    #[trigger] items_view(files@)[m],
                                ) by {
                                    if m < before.len() {
                                        assert(items_view(files@)[m] == items_view(before)[m]);
                                    }
                                }
                            }
                        }
                    },
                    Some(k) => {
                        assert(is_first_at(key@, 47, st as int, k as int));
                        let name = slice_copy(key, st, k);
                        assert(name@ =~= key@.skip(st as int).take(k - st));
                        proof {
                            if no_nul_paths(s) {
                                assert forall|j: int| 0 <= j < key@.len() implies #[trigger] key@[j] != 0u8 by {
                                    assert(entry_key(s[i as int])[j] != 0u8);
                                }
                                lemma_path_piece(key@, st as int, k as int);
                                assert(key@.subrange(st as int, k as int) =~= name@);
                            }
                        }
                        if !contains_name(&dirs, &name) {
                            let ghost before = dirs@;
                            dirs.push(name);
                            assert(names_view(dirs@) =~= dir_names(s.take(i + 1), prefix@));
                            proof {
                                if no_nul_paths(s) {
                                    assert forall|m: int| 0 <= m < dirs@.len() implies plain_name(
                                        #[trigger] names_view(dirs@)[m],
                                    ) by {
                                        if m < before.len() {
                                            assert(names_view(dirs@)[m] == names_view(before)[m]);
                                        }
                                    }
                                }
                            }
                        }
                    },
                }
            },
        }
        i = i + 1;
    }
    assert(s.take(entries@.len() as int) =~= s);
    (files, dirs)
}


/// The key an entry is sorted by.
fn item_sort_key(it: &Item) -> (res: Vec<u8>)
    ensures
        res@ == sort_key(it@),
{
    let mut k: Vec<u8> = Vec::new();
    k.extend_from_slice(it.name.as_slice());
    let dm: [u8; 5] = [52u8, 48u8, 48u8, 48u8, 48u8];
    assert(dm@ =~= dir_mode());
    if bytes_eq(it.mode.as_slice(), &dm) {
        k.push(47u8);
    }
    assert(k@ =~= sort_key(it@));
    k
}

/// The place before the first greater key is where a stable sort puts `x`.
proof fn lemma_insert_pos(t: Seq<TreeItem>, x: TreeItem, j: int)
    requires
        0 <= j <= t.len(),
        forall|k: int| 0 <= k < j ==> !lex_lt(sort_key(x), sort_key(#[trigger] t[k])),
        j < t.len() ==> lex_lt(sort_key(x), sort_key(t[j])),
    ensures
        insert_pos(t, x) == j,
    decreases j,
{
    if t.len() > 0 && j > 0 {
        assert(!lex_lt(sort_key(x), sort_key(t[0])));
        assert forall|k: int| 0 <= k < j - 1 implies !lex_lt(sort_key(x), sort_key(#[trigger] t.drop_first()[k])) by {
            assert(t.drop_first()[k] == t[k + 1]);
        }
        if j < t.len() {
            assert(t.drop_first()[j - 1] == t[j]);
        }
        lemma_insert_pos(t.drop_first(), x, j - 1);
    }
}

/// A stable sort puts an entry somewhere from the front to the end.
pub proof fn lemma_insert_pos_range(t: Seq<TreeItem>, x: TreeItem)
    ensures
        0 <= insert_pos(t, x) <= t.len(),
    decreases t.len(),
{
    if t.len() > 0 && !lex_lt(sort_key(x), sort_key(t[0])) {
        lemma_insert_pos_range(t.drop_first(), x);
    }
}

/// Sorting keeps the number of entries, and every sorted entry is one of
/// the entries given.
pub proof fn lemma_sort_items_from(v: Seq<TreeItem>)
    ensures
        sort_items(v).len() == v.len(),
        forall|i: int| 0 <= i < v.len() ==> v.contains(#[trigger] sort_items(v)[i]),
    decreases v.len(),
{
    if v.len() > 0 {
        let w = v.drop_last();
        let t = sort_items(w);
        lemma_sort_items_from(w);
        let pos = insert_pos(t, v.last());
        lemma_insert_pos_range(t, v.last());
        let u = t.insert(pos, v.last());
        assert(sort_items(v) == u);
        assert forall|i: int| 0 <= i < v.len() implies v.contains(#[trigger] sort_items(v)[i]) by {
            if i < pos {
                assert(u[i] == t[i]);
                assert(w.contains(t[i]));
                let j = choose|j: int| 0 <= j < w.len() && w[j] == t[i];
                assert(v[j] == w[j]);
            } else if i == pos {
                assert(u[i] == v[v.len() - 1]);
            } else {
                assert(u[i] == t[i - 1]);
                assert(w.contains(t[i - 1]));
                let j = choose|j: int| 0 <= j < w.len() && w[j] == t[i - 1];
                assert(v[j] == w[j]);
            }
        }
    }
}

/// Where a stable sort puts `x`: after every entry whose key is not greater,
/// before the first whose key is.
proof fn lemma_insert_pos_bounds(t: Seq<TreeItem>, x: TreeItem)
    ensures
        0 <= insert_pos(t, x) <= t.len(),
        forall|k: int| 0 <= k < insert_pos(t, x) ==> !lex_lt(sort_key(x), sort_key(#[trigger] t[k])),
        insert_pos(t, x) < t.len() ==> lex_lt(sort_key(x), sort_key(t[insert_pos(t, x)])),
    decreases t.len(),
{
    if t.len() > 0 && !lex_lt(sort_key(x), sort_key(t[0])) {
        let u = t.drop_first();
        lemma_insert_pos_bounds(u, x);
        assert forall|k: int| 0 <= k < insert_pos(t, x) implies !lex_lt(sort_key(x), sort_key(#[trigger] t[k])) by {
            if k > 0 {
                assert(t[k] == u[k - 1]);
            }
        }
        if insert_pos(t, x) < t.len() {
            assert(t[insert_pos(t, x)] == u[insert_pos(u, x)]);
        }
    }
}

/// Sorting leaves no entry whose key is smaller than an earlier one's.
proof fn lemma_sort_items_ordered(v: Seq<TreeItem>)
    ensures
        forall|i: int, j: int|
            0 <= i < j < sort_items(v).len() ==> !lex_lt(sort_key(#[trigger] sort_items(v)[j]), sort_key(#[trigger] sort_items(v)[i])),
    decreases v.len(),
{
    if v.len() > 0 {
        let w = v.drop_last();
        let t = sort_items(w);
        let x = v.last();
        lemma_sort_items_ordered(w);
        lemma_insert_pos_bounds(t, x);
        let pos = insert_pos(t, x);
        let u = t.insert(pos, x);
        assert(sort_items(v) == u);
        assert forall|i: int, j: int| 0 <= i < j < u.len() implies !lex_lt(sort_key(#[trigger] u[j]), sort_key(#[trigger] u[i])) by {
            if j < pos {
                assert(u[i] == t[i] && u[j] == t[j]);
            } else if j == pos {
                assert(u[i] == t[i]);
            } else if i == pos {
                assert(u[j] == t[j - 1]);
                assert(lex_lt(sort_key(x), sort_key(t[pos])));
                if pos < j - 1 {
                    assert(!lex_lt(sort_key(t[j - 1]), sort_key(t[pos])));
                    lemma_lex_total(sort_key(t[j - 1]), sort_key(t[pos]));
                    if sort_key(t[j - 1]) != sort_key(t[pos]) {
                        lemma_lex_transitive(sort_key(x), sort_key(t[pos]), sort_key(t[j - 1]));
                    }
                }
                if lex_lt(sort_key(t[j - 1]), sort_key(x)) {
                    lemma_lex_transitive(sort_key(x), sort_key(t[j - 1]), sort_key(x));
                    lemma_lex_irreflexive(sort_key(x));
                }
            } else if i < pos {
                assert(u[i] == t[i] && u[j] == t[j - 1]);
            } else {
                assert(u[i] == t[i - 1] && u[j] == t[j - 1]);
            }
        }
    }
}

/// The name a tree entry is ordered by in a stored tree: its name, and for
/// a subdirectory (mode `40000`) its name followed by `/`.
pub open spec fn ordering_name(it: TreeItem) -> Seq<u8> {
    if it.mode == seq![52u8, 48u8, 48u8, 48u8, 48u8] {
        it.name + seq![47u8]
    } else {
        it.name
    }
}

/// The entries of every tree written for an index are in order of their
/// names, a subdirectory's name taken with a trailing `/`: no entry's name
/// sorts before an earlier entry's.
pub proof fn lemma_level_items_ordered(s: Seq<EntryView>, prefix: Seq<u8>, bound: nat)
    ensures
        forall|i: int, j: int|
            0 <= i < j < level_items(s, prefix, bound).len() ==> !lex_lt(
                ordering_name(#[trigger] level_items(s, prefix, bound)[j]),
                ordering_name(#[trigger] level_items(s, prefix, bound)[i]),
            ),
{
    let v = file_items(s, prefix) + dir_items(s, prefix, bound, dir_names(s, prefix));
    lemma_sort_items_ordered(v);
    let l = level_items(s, prefix, bound);
    assert forall|it: TreeItem| #[trigger] ordering_name(it) == sort_key(it) by {
        assert(dir_mode() == seq![52u8, 48u8, 48u8, 48u8, 48u8]);
        assert(it.name.push(47u8) =~= it.name + seq![47u8]);
    }
    assert forall|i: int, j: int| 0 <= i < j < l.len() implies !lex_lt(
        ordering_name(#[trigger] l[j]),
        ordering_name(#[trigger] l[i]),
    ) by {
        assert(ordering_name(l[j]) == sort_key(l[j]));
        assert(ordering_name(l[i]) == sort_key(l[i]));
    }
}

/// The first place whose key is greater than `kx`, or the end.
fn first_greater(sorted: &Vec<Item>, kx: &Vec<u8>) -> (res: usize)
    ensures
        res <= sorted@.len(),
        forall|q: int| 0 <= q < res ==> !lex_lt(kx@, sort_key(#[trigger] items_view(sorted@)[q])),
        res < sorted@.len() ==> lex_lt(kx@, sort_key(items_view(sorted@)[res as int])),
{
    let ghost t = items_view(sorted@);
    let mut j: usize = 0;
    while j < sorted.len()
        invariant
            t == items_view(sorted@),
            j <= sorted@.len(),
            forall|q: int| 0 <= q < j ==> !lex_lt(kx@, sort_key(#[trigger] t[q])),
        decreases sorted.len() - j,
    {
        let kj = item_sort_key(&sorted[j]);
        assert(t[j as int] == sorted@[j as int]@);
        if bytes_lt(kx.as_slice(), kj.as_slice()) {
            return j;
        }
        j = j + 1;
    }
    j
}

/// Sorts entries by key, keeping entries with equal keys in their order.
fn sort_tree_items(items: Vec<Item>) -> (res: Vec<Item>)
    ensures
        items_view(res@) == sort_items(items_view(items@)),
{
    let ghost orig = items_view(items@);
    let mut rest = items;
    let mut sorted: Vec<Item> = Vec::new();
    let ghost mut k: int = 0;
    assert(orig.take(0) =~= Seq::<TreeItem>::empty());
    assert(items_view(sorted@) =~= sort_items(orig.take(0)));
    assert(items_view(rest@) =~= orig.skip(0));
    while rest.len() > 0
        invariant
            0 <= k <= orig.len(),
            items_view(rest@) == orig.skip(k),
            items_view(sorted@) == sort_items(orig.take(k)),
        decreases rest.len(),
    {
        assert(items_view(rest@).len() == rest@.len());
        assert(orig.skip(k).len() == orig.len() - k);
        assert(k < orig.len());
        assert(items_view(rest@)[0] == rest@[0]@);
        assert(orig.skip(k)[0] == orig[k]);
        let x = rest.remove(0);
        let ghost t = items_view(sorted@);
        assert(x@ == orig[k]);
        let kx = item_sort_key(&x);
        let j = first_greater(&sorted, &kx);
        proof {
            lemma_insert_pos(t, x@, j as int);
        }
        sorted.insert(j, x);
        proof {
            assert(orig.take(k + 1).drop_last() =~= orig.take(k));
            assert(orig.take(k + 1).last() == orig[k]);
            assert(items_view(sorted@) =~= t.insert(j as int, orig[k]));
            assert(orig.skip(k).drop_first() =~= orig.skip(k + 1));
            assert(items_view(rest@) =~= orig.skip(k + 1));
            k = k + 1;
        }
    }
    assert(orig.take(k) =~= orig);
    sorted
}

/// Tree entries as stored.
fn encode_items(items: &Vec<Item>) -> (res: Vec<u8>)
    ensures
        res@ == items_bytes(items_view(items@)),
{
    let ghost v = items_view(items@);
    let mut out: Vec<u8> = Vec::new();
    let mut i: usize = 0;
    assert(v.take(0) =~= Seq::<TreeItem>::empty());
    while i < items.len()
        invariant
            v == items_view(items@),
            i <= items@.len(),
            out@ == items_bytes(v.take(i as int)),
        decreases items.len() - i,
    {
        let it = &items[i];
        assert(v[i as int] == it@);
        out.extend_from_slice(it.mode.as_slice());
        out.push(32u8);
        out.extend_from_slice(it.name.as_slice());
        out.push(0u8);
        out.extend_from_slice(it.hash.as_slice());
        assert(v.take(i + 1).drop_last() =~= v.take(i as int));
        i = i + 1;
        assert(out@ =~= items_bytes(v.take(i as int)));
    }
    assert(v.take(i as int) =~= v);
    out
}


/// No path in the index starts with `/`.
pub open spec fn no_rooted_paths(s: Seq<EntryView>) -> bool {
    forall|i: int| 0 <= i < s.len() ==> !has_prefix(#[trigger] entry_key(s[i]), seq![47u8])
}

/// Entry `i` lies below `prefix` inside the subdirectory `name`.
pub open spec fn dir_source(s: Seq<EntryView>, prefix: Seq<u8>, i: int, name: Seq<u8>) -> bool {
    &&& 0 <= i < s.len()
    &&& rel_path(entry_key(s[i]), prefix) matches Some(r)
    &&& find_from(r, 47, 0) matches Some(k)
    &&& r.take(k) == name
}

/// Some entry lies below `prefix` inside the subdirectory `name`.
pub open spec fn dir_sourced(s: Seq<EntryView>, prefix: Seq<u8>, name: Seq<u8>) -> bool {
    exists|i: int| #[trigger] dir_source(s, prefix, i, name)
}

/// Each subdirectory name comes from an entry below it.
pub proof fn lemma_dir_names_sourced(s: Seq<EntryView>, prefix: Seq<u8>)
    ensures
        forall|j: int|
            0 <= j < dir_names(s, prefix).len() ==> dir_sourced(s, prefix, #[trigger] dir_names(s, prefix)[j]),
    decreases s.len(),
{
    if s.len() > 0 {
        let t = s.drop_last();
        lemma_dir_names_sourced(t, prefix);
        assert(s.drop_last() == t);
        assert forall|j: int| 0 <= j < dir_names(s, prefix).len() implies dir_sourced(
            s,
            prefix,
            #[trigger] dir_names(s, prefix)[j],
        ) by {
            let names = dir_names(s, prefix);
            let tn = dir_names(t, prefix);
            if j < tn.len() {
                assert(names[j] == tn[j]);
                let i = choose|i: int| dir_source(t, prefix, i, tn[j]);
                assert(s[i] == t[i]);
                assert(dir_source(s, prefix, i, names[j]));
            } else {
                let e = s.last();
                assert(e == s[s.len() - 1]);
                match rel_path(entry_key(e), prefix) {
                    Some(r) => match find_from(r, 47, 0) {
                        Some(k) => {
                            if tn.contains(r.take(k)) {
                                assert(names == tn);
                            } else {
                                assert(names == tn.push(r.take(k)));
                                assert(names[j] == r.take(k));
                            }
                            assert(dir_source(s, prefix, s.len() - 1, names[j]));
                        },
                        None => {
                            assert(names == tn);
                        },
                    },
                    None => {
                        assert(names == tn);
                    },
                }
            }
        }
    } else {
        assert(dir_names(s, prefix).len() == 0);
    }
}

/// The path of a subdirectory is longer than its parent's and shorter than
/// the path of any entry inside it.
pub proof fn lemma_source_lengths(s: Seq<EntryView>, prefix: Seq<u8>, i: int, name: Seq<u8>)
    requires
        dir_source(s, prefix, i, name),
        no_rooted_paths(s),
    ensures
        join_path(prefix, name).len() > prefix.len(),
        join_path(prefix, name).len() < entry_key(s[i]).len(),
{
    let key = entry_key(s[i]);
    let r = rel_path(key, prefix)->Some_0;
    let k = find_from(r, 47, 0)->Some_0;
    assert(is_first_at(r, 47, 0, k));
    if prefix.len() == 0 {
        assert(!has_prefix(key, seq![47u8]));
        if k == 0 {
            assert(key.take(1) =~= seq![47u8]);
        }
    }
}

/// Every path is at most as long as the longest.
pub proof fn lemma_max_key_len(s: Seq<EntryView>, i: int)
    requires
        0 <= i < s.len(),
    ensures
        entry_key(s[i]).len() <= max_key_len(s),
    decreases s.len(),
{
    if i < s.len() - 1 {
        lemma_max_key_len(s.drop_last(), i);
    }
}

/// The stored objects as plain values.
pub open spec fn objects_view(v: Seq<StoredObject>) -> Seq<(Seq<char>, Seq<u8>)> {
    v.map_values(|o: StoredObject| stored_view(o))
}

/// The path of subdirectory `name` below `prefix`.
fn join_bytes(prefix: &Vec<u8>, name: &Vec<u8>) -> (res: Vec<u8>)
    ensures
        res@ == join_path(prefix@, name@),
{
    let mut v: Vec<u8> = Vec::new();
    v.extend_from_slice(prefix.as_slice());
    if prefix.len() > 0 {
        v.push(47u8);
    }
    v.extend_from_slice(name.as_slice());
    assert(v@ =~= join_path(prefix@, name@));
    v
}

/// Writes the tree for `prefix`: first the trees of its subdirectories,
/// then its own; gives back its name.
fn write_tree_at_prefix(index: &Index, prefix: &Vec<u8>, Ghost(bound): Ghost<nat>, objects: &mut Vec<StoredObject>) -> (res: String)
    requires
        no_rooted_paths(index@),
        bound == max_key_len(index@) + 1,
        prefix@.len() < bound,
    ensures
        res@ == hex_lower(tree_digest(index@, prefix@, bound)),
        tree_digest(index@, prefix@, bound).len() == 20,
        objects_view(final(objects)@) == objects_view(old(objects)@) + tree_objects(index@, prefix@, bound),
        no_nul_paths(index@) ==> tree_level(tree_objects(index@, prefix@, bound).last().1) == Ok::<
            Seq<TreeItem>,
            ObjectError,
        >(level_items(index@, prefix@, bound)),
        no_nul_paths(index@) ==> forall|k: int|
            0 <= k < tree_objects(index@, prefix@, bound).len() ==> tree_reads_back(
                #[trigger] tree_objects(index@, prefix@, bound)[k],
            ),
        no_nul_paths(index@) ==> levels_read_back(index@, prefix@, bound),
    decreases depth_left(prefix@, bound),
{
    let ghost s = index@;
    let ghost p = prefix@;
    let entries = index.entries();
    let (files, dirs) = collect_level(entries, prefix);
    let ghost names = names_view(dirs@);
    proof {
        lemma_dir_names_sourced(s, p);
    }
    let mut items = files;
    let ghost start = objects_view(objects@);
    let mut j: usize = 0;
    assert(names.take(0) =~= Seq::<Seq<u8>>::empty());
    assert(items_view(items@) =~= file_items(s, p) + dir_items(s, p, bound, names.take(0)));
    assert(objects_view(objects@) =~= start + dir_objects(s, p, bound, names.take(0)));
    while j < dirs.len()
        invariant
            s == index@,
            p == prefix@,
            names == names_view(dirs@),
            names == dir_names(s, p),
            no_rooted_paths(s),
            bound == max_key_len(s) + 1,
            p.len() < bound,
            j <= dirs@.len(),
            forall|m: int| 0 <= m < names.len() ==> dir_sourced(s, p, #[trigger] names[m]),
            items_view(items@) == file_items(s, p) + dir_items(s, p, bound, names.take(j as int)),
            objects_view(objects@) == start + dir_objects(s, p, bound, names.take(j as int)),
            no_nul_paths(s) ==> forall|m: int| 0 <= m < items@.len() ==> storable_item(#[trigger] items_view(items@)[m]),
            no_nul_paths(s) ==> forall|m: int| 0 <= m < names.len() ==> plain_name(#[trigger] names[m]),
            no_nul_paths(s) ==> forall|k: int|
                0 <= k < dir_objects(s, p, bound, names.take(j as int)).len() ==> tree_reads_back(
                    #[trigger] dir_objects(s, p, bound, names.take(j as int))[k],
                ),
            no_nul_paths(s) ==> dirs_read_back(s, p, bound, names.take(j as int)),
        decreases dirs.len() - j,
    {
        let name = &dirs[j];
        assert(names[j as int] == name@);
        let q = join_bytes(prefix, name);
        proof {
            let i = choose|i: int| dir_source(s, p, i, names[j as int]);
            lemma_source_lengths(s, p, i, name@);
            lemma_max_key_len(s, i);
        }
        let ghost before = objects_view(objects@);
        let sub = write_tree_at_prefix(index, &q, Ghost(bound), objects);
        let digest = match hex_to_bytes(sub.as_str()) {
            Ok(v) => v,
            Err(_) => {
                proof {
                    lemma_hex_roundtrip(tree_digest(s, q@, bound));
                }
                Vec::new()
            },
        };
        proof {
            lemma_hex_roundtrip(tree_digest(s, q@, bound));
        }
        let dm: Vec<u8> = vec![52u8, 48u8, 48u8, 48u8, 48u8];
        let nm = slice_copy(name.as_slice(), 0, name.len());
        assert(nm@ =~= name@);
        assert(dm@ =~= dir_mode());
        let ghost prev_items = items@;
        let it = Item { mode: dm, name: nm, hash: digest };
        assert(it@ == TreeItem { mode: dir_mode(), name: name@, hash: digest@ });
        items.push(it);
        assert(items@ =~= prev_items.push(it));
        assert(items_view(items@) =~= items_view(prev_items).push(it@));
        proof {
            let tk = names.take(j + 1);
            let prev = dir_objects(s, p, bound, names.take(j as int));
            let sub_objects = tree_objects(s, q@, bound);
            assert(tk.drop_last() =~= names.take(j as int));
            assert(tk.last() == name@);
            assert(q@ == join_path(p, tk.last()));
            assert(digest@ == tree_digest(s, q@, bound));
            assert(dir_items(s, p, bound, tk) == dir_items(s, p, bound, names.take(j as int)).push(
                TreeItem { mode: dir_mode(), name: name@, hash: tree_digest(s, q@, bound) },
            ));
            assert(items_view(items@) =~= file_items(s, p) + dir_items(s, p, bound, tk));
            assert(dir_objects(s, p, bound, tk) == prev + sub_objects);
            assert(objects_view(objects@) =~= start + dir_objects(s, p, bound, tk));
            if no_nul_paths(s) {
                crate::codec::lemma_ascii_valid_utf8(dir_mode());
                assert(plain_name(names[j as int]));
                assert(storable_item(it@));
                assert forall|m: int| 0 <= m < items@.len() implies storable_item(#[trigger] items_view(items@)[m]) by {
                    if m < prev_items.len() {
                        assert(items_view(items@)[m] == items_view(prev_items)[m]);
                    }
                }
                assert forall|k: int| 0 <= k < dir_objects(s, p, bound, tk).len() implies tree_reads_back(
                    #[trigger] dir_objects(s, p, bound, tk)[k],
                ) by {
                    if k < prev.len() {
                        assert(dir_objects(s, p, bound, tk)[k] == prev[k]);
                    } else {
                        assert(dir_objects(s, p, bound, tk)[k] == sub_objects[k - prev.len()]);
                    }
                }
                assert(levels_read_back(s, q@, bound));
                assert(dirs_read_back(s, p, bound, tk));
            }
        }
        j = j + 1;
    }
    assert(names.take(j as int) =~= names);
    let sorted = sort_tree_items(items);
    let content = encode_items(&sorted);
    let kind = "tree";
    proof {
        reveal_strlit("tree");
        crate::codec::lemma_ascii_valid_utf8(tree_kind());
        assert(tree_kind().map_values(|x: u8| x as char) =~= kind@);
    }
    let obj = store_generic_object(kind, content.as_slice());
    let hash = obj.hash.clone();
    let ghost mid = objects_view(objects@);
    objects.push(obj);
    assert(objects_view(objects@) =~= mid + seq![stored_view(obj)]);
    proof {
        let own = level_items(s, p, bound);
        let all = tree_objects(s, p, bound);
        let subs = dir_objects(s, p, bound, names);
        assert(items_view(sorted@) == own);
        assert(all == subs + seq![stored_view(obj)]);
        assert(all.last() == stored_view(obj));
        if no_nul_paths(s) {
            assert(crate::storage::plain_kind(tree_kind()));
            assert(read_object_result(obj.data@) == Ok::<(Seq<u8>, Seq<u8>), ObjectError>((tree_kind(), content@)));
            let unsorted = items_view(items@);
            lemma_sort_items_from(unsorted);
            assert forall|i: int| 0 <= i < own.len() implies storable_item(#[trigger] own[i]) by {
                assert(unsorted.contains(own[i]));
                let m = choose|m: int| 0 <= m < unsorted.len() && unsorted[m] == own[i];
                assert(storable_item(items_view(items@)[m]));
            }
            lemma_tree_content_parses(own);
            assert(tree_level(obj.data@) == Ok::<Seq<TreeItem>, ObjectError>(own));
            assert(tree_reads_back(stored_view(obj)));
            assert forall|k: int| 0 <= k < all.len() implies tree_reads_back(#[trigger] all[k]) by {
                if k < subs.len() {
                    assert(all[k] == subs[k]);
                }
            }
            assert(all.last().1 == obj.data@);
            assert(levels_read_back(s, p, bound));
        }
    }
    hash
}

/// The trees written for an index.
#[derive(Debug)]
pub struct TreeWrite {
    /// The name of the root tree.
    pub hash: String,
    /// Every tree object, each subdirectory's before its parent's.
    pub objects: Vec<StoredObject>,
}

/// Builds the tree objects for the staged files: one per directory, the
/// root last. No staged path may start with `/`. Where no staged path holds
/// a NUL byte, every tree written reads back as the entries it encodes, the
/// root as the sorted files and subdirectories of the top level, and the
/// tree of each subdirectory as those of that subdirectory.
pub fn write_tree_from_index(index: &Index) -> (res: TreeWrite)
    requires
        no_rooted_paths(index@),
    ensures
        res.hash@ == hex_lower(tree_digest(index@, Seq::empty(), max_key_len(index@) + 1)),
        res.hash@.len() == 40,
        objects_view(res.objects@) == tree_objects(index@, Seq::empty(), max_key_len(index@) + 1),
        res.objects@.len() > 0,
        no_nul_paths(index@) ==> tree_level(res.objects@.last().data@) == Ok::<Seq<TreeItem>, ObjectError>(
            level_items(index@, Seq::empty(), max_key_len(index@) + 1),
        ),
        no_nul_paths(index@) ==> forall|k: int|
            0 <= k < res.objects@.len() ==> tree_reads_back(#[trigger] stored_view(res.objects@[k])),
        no_nul_paths(index@) ==> levels_read_back(index@, Seq::empty(), max_key_len(index@) + 1),
{
    let mut objects: Vec<StoredObject> = Vec::new();
    let prefix: Vec<u8> = Vec::new();
    assert(prefix@ =~= Seq::<u8>::empty());
    let hash = write_tree_at_prefix(index, &prefix, Ghost((max_key_len(index@) + 1) as nat), &mut objects);
    let ghost all = tree_objects(index@, Seq::empty(), max_key_len(index@) + 1);
    assert(objects_view(objects@) =~= Seq::empty() + all);
    proof {
        assert(all.len() > 0);
        assert(objects_view(objects@).len() == objects@.len());
        assert(stored_view(objects@.last()) == all.last());
        assert forall|k: int| 0 <= k < objects@.len() implies #[trigger] stored_view(objects@[k]) == all[k] by {
            assert(objects_view(objects@)[k] == stored_view(objects@[k]));
        }
    }
    TreeWrite { hash, objects }
}


/// A tree entry that reads back as written: UTF-8 mode without space or
/// NUL, UTF-8 name without NUL, and a 20-byte hash.
pub open spec fn storable_item(it: TreeItem) -> bool {
    &&& valid_utf8(it.mode)
    &&& valid_utf8(it.name)
    &&& forall|i: int| 0 <= i < it.mode.len() ==> #[trigger] it.mode[i] != 32u8 && it.mode[i] != 0u8
    &&& forall|i: int| 0 <= i < it.name.len() ==> #[trigger] it.name[i] != 0u8
    &&& it.hash.len() == 20
}

proof fn lemma_items_bytes_front(its: Seq<TreeItem>)
    requires
        its.len() > 0,
    ensures
        items_bytes(its) == item_bytes(its[0]) + items_bytes(its.drop_first()),
    decreases its.len(),
{
    if its.len() > 1 {
        lemma_items_bytes_front(its.drop_last());
        assert(its.drop_last().drop_first() =~= its.drop_first().drop_last());
        assert(its.drop_last()[0] == its[0]);
        assert(its.drop_first().last() == its.last());
    } else {
        assert(its.drop_last() =~= Seq::<TreeItem>::empty());
        assert(its.drop_first() =~= Seq::<TreeItem>::empty());
    }
}

proof fn lemma_parse_written_items(data: Seq<u8>, off: int, its: Seq<TreeItem>)
    requires
        0 <= off <= data.len(),
        data.skip(off) == items_bytes(its),
        forall|i: int| 0 <= i < its.len() ==> storable_item(#[trigger] its[i]),
    ensures
        parse_tree_from(data, off) == Ok::<Seq<TreeItem>, ObjectError>(its),
    decreases its.len(),
{
    if its.len() == 0 {
        assert(data.skip(off).len() == 0);
        assert(its =~= Seq::<TreeItem>::empty());
    } else {
        let it = its[0];
        let rest = its.drop_first();
        assert(storable_item(it));
        lemma_items_bytes_front(its);
        let b = item_bytes(it);
        let m = it.mode.len() as int;
        let n = it.name.len() as int;
        let z = off + m + 1 + n;
        assert(items_bytes(its).len() == data.len() - off);
        assert(b.len() <= items_bytes(its).len());
        assert forall|j: int| 0 <= j < b.len() implies data[off + j] == #[trigger] b[j] by {
            assert(data.skip(off)[j] == data[off + j]);
            assert(items_bytes(its)[j] == b[j]);
        }
        assert(data[z] == 0u8) by {
            assert(b[m + 1 + n] == 0u8);
        }
        assert(is_first_at(data, 0, off, z)) by {
            assert forall|j: int| off <= j < z implies data[j] != 0u8 by {
                let k = j - off;
                assert(data[off + k] == b[k]);
                if k < m {
                    assert(b[k] == it.mode[k]);
                    assert(it.mode[k] != 0u8);
                } else if k == m {
                    assert(b[k] == 32u8);
                } else {
                    assert(b[k] == it.name[k - m - 1]);
                    assert(it.name[k - m - 1] != 0u8);
                }
            }
        }
        assert(find_from(data, 0, off) == Some(z)) by {
            let q = choose|q: int| is_first_at(data, 0, off, q);
            lemma_first_unique(data, 0, off, z, q);
        }
        let header = data.subrange(off, z);
        assert(header =~= it.mode + seq![32u8] + it.name) by {
            assert forall|j: int| 0 <= j < z - off implies header[j] == (it.mode + seq![32u8] + it.name)[j] by {
                assert(header[j] == b[j]);
            }
        }
        crate::codec::lemma_ascii_valid_utf8(seq![32u8]);
        valid_utf8_concat(it.mode, seq![32u8]);
        valid_utf8_concat(it.mode + seq![32u8], it.name);
        assert(header[m] == 32u8);
        assert(is_first_at(header, 32, 0, m)) by {
            assert forall|j: int| 0 <= j < m implies header[j] != 32u8 by {
                assert(header[j] == it.mode[j]);
            }
        }
        assert(find_from(header, 32, 0) == Some(m)) by {
            let q = choose|q: int| is_first_at(header, 32, 0, q);
            lemma_first_unique(header, 32, 0, m, q);
        }
        assert(header.take(m) =~= it.mode);
        assert(header.skip(m + 1) =~= it.name);
        assert(data.subrange(z + 1, z + 21) =~= it.hash) by {
            assert forall|j: int| 0 <= j < 20 implies data.subrange(z + 1, z + 21)[j] == it.hash[j] by {
                assert(b[m + 2 + n + j] == it.hash[j]);
            }
        }
        assert(data.skip(z + 21) =~= items_bytes(rest)) by {
            assert forall|j: int| 0 <= j < items_bytes(rest).len() implies data.skip(z + 21)[j] == items_bytes(rest)[j] by {
                assert(data.skip(off)[b.len() + j] == items_bytes(its)[b.len() + j]);
            }
        }
        assert forall|i: int| 0 <= i < rest.len() implies storable_item(#[trigger] rest[i]) by {
            assert(rest[i] == its[i + 1]);
        }
        lemma_parse_written_items(data, z + 21, rest);
        assert(seq![TreeItem { mode: it.mode, name: it.name, hash: it.hash }] + rest =~= its);
    }
}

/// A tree's content, as `write_tree_from_index` encodes its entries, reads
/// back, through `parse_tree`, as the same entries in the same order.
pub proof fn lemma_tree_content_parses(its: Seq<TreeItem>)
    requires
        forall|i: int| 0 <= i < its.len() ==> storable_item(#[trigger] its[i]),
    ensures
        parse_tree_from(items_bytes(its), 0) == Ok::<Seq<TreeItem>, ObjectError>(its),
{
    assert(items_bytes(its).skip(0) =~= items_bytes(its));
    lemma_parse_written_items(items_bytes(its), 0, its);
}

} // verus!
