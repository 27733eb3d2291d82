//! The staging index: one entry per path, kept in path order, and its
//! binary file format (`DIRC`, version 1).

use vstd::prelude::*;
use vstd::utf8::*;
use crate::clock::{epoch_nanos, nanos_since_epoch, unix_now};
use crate::codec::{
    be_bytes, be_value, bytes_eq, bytes_lt, find_byte, find_from, is_first_at,
    lemma_be_roundtrip, lemma_first_unique, lemma_lex_irreflexive, lemma_lex_total,
    lemma_lex_transitive, lex_lt, pow256, push_be, read_be, slice_copy, utf8_string,
};
use crate::digest::{sha1, sha1_digest};

verus! {

/// One staged file.
#[derive(Debug, Clone)]
pub struct IndexEntry {
    /// Modification time, in nanoseconds since the Unix epoch.
    pub mtime: u64,
    /// File mode, such as 100644 or 100755.
    pub mode: u32,
    /// SHA-1 of the blob that holds the file's contents.
    pub sha1: [u8; 20],
    /// Path relative to the repository root.
    pub path: String,
}

/// What an index entry holds, as plain values.
pub struct EntryView {
    pub mtime: u64,
    pub mode: u32,
    pub sha1: Seq<u8>,
    pub path: Seq<char>,
}

impl View for IndexEntry {
    type V = EntryView;

    open spec fn view(&self) -> EntryView {
        EntryView { mtime: self.mtime, mode: self.mode, sha1: self.sha1@, path: self.path@ }
    }
}

/// The key an entry is ordered and found by: the UTF-8 bytes of its path.
pub open spec fn entry_key(e: EntryView) -> Seq<u8> {
    encode_utf8(e.path)
}

/// Entries in strictly increasing path order (so no path occurs twice).
pub open spec fn sorted_by_path(s: Seq<EntryView>) -> bool {
    forall|i: int, j: int| 0 <= i < j < s.len() ==> lex_lt(entry_key(s[i]), entry_key(s[j]))
}

/// Entries by path.
pub open spec fn entry_map(s: Seq<EntryView>) -> Map<Seq<u8>, EntryView> {
    Map::new(
        |k: Seq<u8>| exists|i: int| 0 <= i < s.len() && entry_key(s[i]) == k,
        |k: Seq<u8>| s[choose|i: int| 0 <= i < s.len() && entry_key(s[i]) == k],
    )
}

/// In a sorted sequence an entry is what the map holds for its path.
pub proof fn lemma_entry_map_at(s: Seq<EntryView>, i: int)
    requires
        sorted_by_path(s),
        0 <= i < s.len(),
    ensures
        entry_map(s).contains_key(entry_key(s[i])),
        entry_map(s)[entry_key(s[i])] == s[i],
{
    let k = entry_key(s[i]);
    assert(0 <= i < s.len() && entry_key(s[i]) == k);
    let j = choose|j: int| 0 <= j < s.len() && entry_key(s[j]) == k;
    if j < i {
        lemma_lex_irreflexive(k);
    } else if i < j {
        lemma_lex_irreflexive(k);
    }
}

/// The staging index.
#[derive(Debug)]
pub struct Index {
    entries: Vec<IndexEntry>,
}

impl View for Index {
    type V = Seq<EntryView>;

    closed spec fn view(&self) -> Seq<EntryView> {
        self.entries@.map_values(|e: IndexEntry| e@)
    }
}

impl Index {
    #[verifier::type_invariant]
    closed spec fn inv(self) -> bool {
        sorted_by_path(self@)
    }

    /// An empty index.
    pub fn new() -> (res: Self)
        ensures
            res@ == Seq::<EntryView>::empty(),
    {
        let res = Index { entries: Vec::new() };
        assert(res@ =~= Seq::<EntryView>::empty());
        res
    }

    /// The entries, in path order.
    pub fn entries(&self) -> (res: &Vec<IndexEntry>)
        ensures
            res@.map_values(|e: IndexEntry| e@) == self@,
            sorted_by_path(self@),
    {
        proof {
            use_type_invariant(self);
        }
        &self.entries
    }

    /// The number of entries.
    pub fn len(&self) -> (res: usize)
        ensures
            res == self@.len(),
    {
        self.entries.len()
    }

    /// The first position whose path does not come before `key`.
    fn lower_bound(&self, key: &[u8]) -> (res: usize)
        ensures
            res <= self@.len(),
            forall|j: int| 0 <= j < res ==> lex_lt(entry_key(#[trigger] self@[j]), key@),
            res < self@.len() ==> !lex_lt(entry_key(self@[res as int]), key@),
    {
        let mut i: usize = 0;
        while i < self.entries.len()
            invariant
                i <= self@.len(),
                self@.len() == self.entries@.len(),
                forall|j: int| 0 <= j < i ==> lex_lt(entry_key(#[trigger] self@[j]), key@),
            decreases self.entries.len() - i,
        {
            let p = self.entries[i].path.as_str().as_bytes();
            assert(self@[i as int] == self.entries@[i as int]@);
            if !bytes_lt(p, key) {
                return i;
            }
            i = i + 1;
        }
        i
    }

    /// Adds an entry, or replaces the one with the same path.
    pub fn insert(&mut self, entry: IndexEntry)
        ensures
            sorted_by_path(final(self)@),
            entry_map(final(self)@) == entry_map(old(self)@).insert(entry_key(entry@), entry@),
    {
        proof {
            use_type_invariant(&*self);
        }
        let ghost s = self@;
        let ghost e = entry@;
        let ghost k = entry_key(e);
        let key = entry.path.as_str().as_bytes();
        let i = self.lower_bound(key);
        let mut entries: Vec<IndexEntry> = Vec::new();
        std::mem::swap(&mut entries, &mut self.entries);
        assert(entries@.map_values(|x: IndexEntry| x@) == s);
        if i < entries.len() && bytes_eq(entries[i].path.as_str().as_bytes(), key) {
            entries.remove(i);
            entries.insert(i, entry);
            let ghost t = entries@.map_values(|x: IndexEntry| x@);
            proof {
                assert(t =~= s.update(i as int, e));
                lemma_map_update(s, i as int, e);
            }
        } else {
            entries.insert(i, entry);
            let ghost t = entries@.map_values(|x: IndexEntry| x@);
            proof {
                assert(t =~= s.insert(i as int, e));
                lemma_map_insert(s, i as int, e);
            }
        }
        self.entries = entries;
    }

    /// Takes out the entry with the given path, if there is one.
    pub fn remove(&mut self, path: &str) -> (res: Option<IndexEntry>)
        ensures
            sorted_by_path(final(self)@),
            entry_map(final(self)@) == entry_map(old(self)@).remove(encode_utf8(path@)),
            res is Some <==> entry_map(old(self)@).contains_key(encode_utf8(path@)),
            res matches Some(e) ==> e@ == entry_map(old(self)@)[encode_utf8(path@)],
    {
        proof {
            use_type_invariant(&*self);
        }
        let ghost s = self@;
        let key = path.as_bytes();
        let i = self.lower_bound(key);
        if i < self.entries.len() && bytes_eq(self.entries[i].path.as_str().as_bytes(), key) {
            let mut entries: Vec<IndexEntry> = Vec::new();
            std::mem::swap(&mut entries, &mut self.entries);
            assert(entries@.map_values(|x: IndexEntry| x@) == s);
            let removed = entries.remove(i);
            proof {
                assert(entries@.map_values(|x: IndexEntry| x@) =~= s.remove(i as int));
                lemma_map_remove(s, i as int);
                lemma_entry_map_at(s, i as int);
            }
            self.entries = entries;
            Some(removed)
        } else {
            proof {
                lemma_absent(s, key@, i as int);
                assert(entry_map(s).remove(key@) =~= entry_map(s));
            }
            None
        }
    }
}

impl Default for Index {
    /// An empty index.
    fn default() -> (res: Self)
        ensures
            res@ == Seq::<EntryView>::empty(),
    {
        Index::new()
    }
}

impl Index {
    /// Stages a file: adds an entry for `path`, or replaces the one there,
    /// stamped with the current time in nanoseconds since the epoch.
    pub fn add(&mut self, path: &str, mode: u32, sha1: [u8; 20])
        ensures
            sorted_by_path(final(self)@),
            exists|secs: u64, nanos: u32|
                nanos < 1_000_000_000 && entry_map(final(self)@) == entry_map(old(self)@).insert(
                    encode_utf8(path@),
                    EntryView { mtime: nanos_since_epoch(secs, nanos), mode, sha1: sha1@, path: path@ },
                ),
    {
        let (secs, nanos) = unix_now();
        self.add_at(path, mode, sha1, secs, nanos);
    }

    /// Stages a file as `add` does, for a clock that read `secs` whole
    /// seconds and `nanos` nanoseconds since the epoch: the entry's time is
    /// that reading in nanoseconds, kept to 64 bits.
    pub fn add_at(&mut self, path: &str, mode: u32, sha1: [u8; 20], secs: u64, nanos: u32)
        ensures
            sorted_by_path(final(self)@),
            entry_map(final(self)@) == entry_map(old(self)@).insert(
                encode_utf8(path@),
                EntryView { mtime: nanos_since_epoch(secs, nanos), mode, sha1: sha1@, path: path@ },
            ),
    {
        let mtime = epoch_nanos(secs, nanos);
        let entry = IndexEntry { mtime, mode, sha1, path: path.to_owned() };
        self.insert(entry);
    }
}

/// The index file's signature, `DIRC`.
pub open spec fn index_signature() -> Seq<u8> {
    seq![68u8, 73u8, 82u8, 67u8]
}

/// One entry on disk: mtime (8 bytes) and mode (4 bytes) big-endian, the
/// 20-byte SHA-1, the path and a NUL.
pub open spec fn entry_bytes(e: EntryView) -> Seq<u8> {
    be_bytes(e.mtime as nat, 8) + be_bytes(e.mode as nat, 4) + e.sha1 + entry_key(e) + seq![0u8]
}

/// Entries on disk, one after another.
pub open spec fn entries_bytes(s: Seq<EntryView>) -> Seq<u8>
    decreases s.len(),
{
    if s.len() == 0 {
        Seq::empty()
    } else {
        entries_bytes(s.drop_last()) + entry_bytes(s.last())
    }
}

/// The index file before its checksum: signature, version 1 and the entry
/// count (its low 32 bits), big-endian, then the entries.
pub open spec fn index_body(s: Seq<EntryView>) -> Seq<u8> {
    index_signature() + be_bytes(1, 4) + be_bytes(s.len(), 4) + entries_bytes(s)
}

/// The index file: body, then the SHA-1 of the body.
pub open spec fn index_file(s: Seq<EntryView>) -> Seq<u8> {
    index_body(s) + sha1(index_body(s))
}

/// Why bytes are not an index file.
#[derive(Debug, Clone, Copy, PartialEq, Eq)]
pub enum IndexError {
    /// Fewer than 12 bytes.
    TooShort,
    /// The file does not start with `DIRC`.
    BadSignature,
    /// A version other than 1.
    UnsupportedVersion { version: u32 },
    /// An entry's fixed-size fields run past the end of the data.
    Truncated,
    /// An entry's path has no NUL after it.
    MissingPathEnd,
    /// An entry's path is not UTF-8.
    PathNotUtf8,
}

/// The entry whose fields start at `off` and whose path ends at `z`.
pub open spec fn parsed_entry(data: Seq<u8>, off: int, z: int) -> EntryView {
    EntryView {
        mtime: be_value(data.subrange(off, off + 8)) as u64,
        mode: be_value(data.subrange(off + 8, off + 12)) as u32,
        sha1: data.subrange(off + 12, off + 32),
        path: decode_utf8(data.subrange(off + 32, z)),
    }
}

/// Reads `count` entries from `off` on, in file order.
pub open spec fn parse_entries(data: Seq<u8>, off: int, count: nat) -> Result<Seq<EntryView>, IndexError>
    decreases count,
{
    if count == 0 {
        Ok(Seq::empty())
    } else if off + 32 > data.len() {
        Err(IndexError::Truncated)
    } else {
        match find_from(data, 0, off + 32) {
            None => Err(IndexError::MissingPathEnd),
            Some(z) => if !valid_utf8(data.subrange(off + 32, z)) {
                Err(IndexError::PathNotUtf8)
            } else {
                match parse_entries(data, z + 1, (count - 1) as nat) {
                    Ok(rest) => Ok(seq![parsed_entry(data, off, z)] + rest),
                    Err(e) => Err(e),
                }
            },
        }
    }
}

/// Reads an index file: the entries in file order. Data after the last
/// entry, the checksum among it, is not read.
pub open spec fn parse_index(data: Seq<u8>) -> Result<Seq<EntryView>, IndexError> {
    if data.len() < 12 {
        Err(IndexError::TooShort)
    } else if data.take(4) != index_signature() {
        Err(IndexError::BadSignature)
    } else if be_value(data.subrange(4, 8)) != 1 {
        Err(IndexError::UnsupportedVersion { version: be_value(data.subrange(4, 8)) as u32 })
    } else {
        parse_entries(data, 12, be_value(data.subrange(8, 12)))
    }
}

/// Entries by path when they are added one after another: a later entry for
/// a path replaces an earlier one.
pub open spec fn map_of_entries(es: Seq<EntryView>) -> Map<Seq<u8>, EntryView>
    decreases es.len(),
{
    if es.len() == 0 {
        Map::empty()
    } else {
        map_of_entries(es.drop_last()).insert(entry_key(es.last()), es.last())
    }
}

/// `acc` followed by what `r` holds, or the fault of `r`.
pub open spec fn prepend_entries(acc: Seq<EntryView>, r: Result<Seq<EntryView>, IndexError>) -> Result<Seq<EntryView>, IndexError> {
    match r {
        Ok(rest) => Ok(acc + rest),
        Err(e) => Err(e),
    }
}

/// Copies the 20 bytes at `off`.
fn read_digest(data: &[u8], off: usize) -> (res: [u8; 20])
    requires
        off + 20 <= data@.len(),
    ensures
        res@ == data@.subrange(off as int, off + 20),
{
    let mut out = [0u8; 20];
    let mut j: usize = 0;
    let total = data.len();
    while j < 20
        invariant
            off + 20 <= data@.len(),
            data@.len() == total,
            j <= 20,
            out@.len() == 20,
            forall|k: int| 0 <= k < j ==> out@[k] == data@[off + k],
        decreases 20 - j,
    {
        out[j] = data[off + j];
        j = j + 1;
    }
    assert(out@ =~= data@.subrange(off as int, off + 20));
    out
}

impl Index {
    /// The index file's bytes: entries in path order, then the checksum.
    pub fn save(&self) -> (res: Vec<u8>)
        ensures
            res@ == index_file(self@),
    {
        let ghost s = self@;
        let mut out: Vec<u8> = Vec::new();
        out.push(68u8);
        out.push(73u8);
        out.push(82u8);
        out.push(67u8);
        push_be(&mut out, 1, 4);
        push_be(&mut out, self.entries.len() as u64, 4);
        let ghost head = out@;
        assert(s.take(0) =~= Seq::<EntryView>::empty());
        assert(out@ =~= head + entries_bytes(s.take(0)));
        let mut i: usize = 0;
        while i < self.entries.len()
            invariant
                s == self@,
                s.len() == self.entries@.len(),
                i <= s.len(),
                out@ == head + entries_bytes(s.take(i as int)),
                head == index_signature() + be_bytes(1, 4) + be_bytes(s.len(), 4),
            decreases self.entries.len() - i,
        {
            let e = &self.entries[i];
            assert(s[i as int] == e@);
            let ghost before = out@;
            push_be(&mut out, e.mtime, 8);
            push_be(&mut out, e.mode as u64, 4);
            out.extend_from_slice(&e.sha1);
            out.extend_from_slice(e.path.as_str().as_bytes());
            out.push(0u8);
            assert(s.take(i + 1).drop_last() =~= s.take(i as int));
            assert(out@ =~= before + entry_bytes(e@));
            i = i + 1;
        }
        assert(s.take(s.len() as int) =~= s);
        let digest = sha1_digest(out.as_slice());
        let ghost body = out@;
        out.extend_from_slice(&digest);
        assert(out@ =~= body + sha1(body));
        out
    }

    /// Reads an index file. Entries are added in file order, so a later
    /// entry for a path replaces an earlier one.
    pub fn load(data: &[u8]) -> (res: Result<Index, IndexError>)
        ensures
            match res {
                Ok(idx) => parse_index(data@) matches Ok(es) && entry_map(idx@) == map_of_entries(es)
                    && sorted_by_path(idx@),
                Err(e) => parse_index(data@) == Err::<Seq<EntryView>, IndexError>(e),
            },
    {
        let total = data.len();
        if total < 12 {
            return Err(IndexError::TooShort);
        }
        if !(data[0] == 68u8 && data[1] == 73u8 && data[2] == 82u8 && data[3] == 67u8) {
            assert(data@.take(4) != index_signature()) by {
                if data@.take(4) == index_signature() {
                    assert(data@.take(4)[0] == data@[0]);
                    assert(data@.take(4)[1] == data@[1]);
                    assert(data@.take(4)[2] == data@[2]);
                    assert(data@.take(4)[3] == data@[3]);
                }
            }
            return Err(IndexError::BadSignature);
        }
        assert(data@.take(4) =~= index_signature());
        let version = read_be(data, 4, 4);
        if version != 1 {
            proof {
                crate::codec::lemma_be_value_bound(data@.subrange(4, 8));
                reveal_with_fuel(pow256, 5);
            }
            return Err(IndexError::UnsupportedVersion { version: version as u32 });
        }
        let count = read_be(data, 8, 4);
        let mut index = Index::new();
        let mut off: usize = 12;
        let mut i: u64 = 0;
        let ghost mut acc: Seq<EntryView> = Seq::empty();
        assert(prepend_entries(acc, parse_entries(data@, 12, count as nat)) == parse_entries(data@, 12, count as nat)) by {
            match parse_entries(data@, 12, count as nat) {
                Ok(rest) => {
                    assert(acc + rest =~= rest);
                },
                Err(_) => {},
            }
        }
        while i < count
            invariant
                data@.len() == total,
                off <= total,
                i <= count,
                sorted_by_path(index@),
                entry_map(index@) == map_of_entries(acc),
                parse_index(data@) == prepend_entries(acc, parse_entries(data@, off as int, (count - i) as nat)),
            decreases count - i,
        {
            if total - off < 32 {
                return Err(IndexError::Truncated);
            }
            let mtime = read_be(data, off, 8);
            let mode = read_be(data, off + 8, 4);
            let sha1 = read_digest(data, off + 12);
            let z = match find_byte(data, 0, off + 32) {
                Some(z) => z,
                None => return Err(IndexError::MissingPathEnd),
            };
            assert(is_first_at(data@, 0, off + 32, z as int));
            let p = slice_copy(data, off + 32, z);
            let path = match utf8_string(p) {
                Some(path) => path,
                None => return Err(IndexError::PathNotUtf8),
            };
            proof {
                crate::codec::lemma_be_value_bound(data@.subrange(off + 8, off + 12));
                reveal_with_fuel(pow256, 5);
                vstd::utf8::encode_utf8_decode_utf8(path@);
                vstd::utf8::decode_utf8_encode_utf8(data@.subrange(off + 32, z as int));
            }
            let entry = IndexEntry { mtime, mode: mode as u32, sha1, path };
            let ghost ev = entry@;
            assert(ev == parsed_entry(data@, off as int, z as int));
            index.insert(entry);
            proof {
                let r = parse_entries(data@, z + 1, (count - i - 1) as nat);
                match r {
                    Ok(rest) => {
                        assert(acc + (seq![ev] + rest) =~= acc.push(ev) + rest);
                    },
                    Err(_) => {},
                }
                assert(acc.push(ev).drop_last() =~= acc);
                acc = acc.push(ev);
            }
            off = z + 1;
            i = i + 1;
        }
        assert(parse_entries(data@, off as int, 0) == Ok::<Seq<EntryView>, IndexError>(Seq::empty()));
        assert(acc + Seq::<EntryView>::empty() =~= acc);
        proof {
            use_type_invariant(&index);
        }
        Ok(index)
    }
}

/// An entry that can be written and read back: a 20-byte digest and a path
/// without NUL bytes.
pub open spec fn storable_entry(e: EntryView) -> bool {
    &&& e.sha1.len() == 20
    &&& forall|j: int| 0 <= j < entry_key(e).len() ==> #[trigger] entry_key(e)[j] != 0
}

/// Entries on disk, the first one first.
proof fn lemma_entries_bytes_front(s: Seq<EntryView>)
    requires
        s.len() > 0,
    ensures
        entries_bytes(s) == entry_bytes(s[0]) + entries_bytes(s.drop_first()),
    decreases s.len(),
{
    if s.len() > 1 {
        lemma_entries_bytes_front(s.drop_last());
        assert(s.drop_last().drop_first() =~= s.drop_first().drop_last());
        assert(s.drop_last()[0] == s[0]);
        assert(s.drop_first().last() == s.last());
    } else {
        assert(s.drop_last() =~= Seq::<EntryView>::empty());
        assert(s.drop_first() =~= Seq::<EntryView>::empty());
    }
}

/// Entries written at `off` read back as themselves.
proof fn lemma_parse_written_entries(data: Seq<u8>, off: int, s: Seq<EntryView>)
    requires
        0 <= off,
        off + entries_bytes(s).len() <= data.len(),
        data.subrange(off, off + entries_bytes(s).len()) == entries_bytes(s),
        forall|i: int| 0 <= i < s.len() ==> storable_entry(#[trigger] s[i]),
    ensures
        parse_entries(data, off, s.len()) == Ok::<Seq<EntryView>, IndexError>(s),
    decreases s.len(),
{
    if s.len() == 0 {
        assert(s =~= Seq::<EntryView>::empty());
    } else {
        let e = s[0];
        let rest = s.drop_first();
        assert(storable_entry(e));
        lemma_entries_bytes_front(s);
        let b0 = entry_bytes(e);
        let eb = entries_bytes(s);
        let key = entry_key(e);
        let m8 = be_bytes(e.mtime as nat, 8);
        let m4 = be_bytes(e.mode as nat, 4);
        reveal_with_fuel(pow256, 9);
        lemma_be_roundtrip(e.mtime as nat, 8);
        lemma_be_roundtrip(e.mode as nat, 4);
        assert(b0.len() == 33 + key.len());
        assert forall|j: int| 0 <= j < b0.len() implies data[off + j] == #[trigger] b0[j] by {
            assert(data.subrange(off, off + eb.len())[j] == eb[j]);
        }
        let z = off + 32 + key.len();
        assert(data[z] == 0u8) by {
            assert(b0[32 + key.len() as int] == 0u8);
        }
        assert forall|j: int| off + 32 <= j < z implies data[j] != 0u8 by {
            assert(b0[j - off] == key[j - off - 32]);
        }
        let from = off + 32;
        assert(is_first_at(data, 0, from, z));
        assert(find_from(data, 0, from) == Some(z)) by {
            let k = choose|k: int| is_first_at(data, 0, from, k);
            lemma_first_unique(data, 0, from, z, k);
        }
        assert(data.subrange(off + 32, z) =~= key) by {
            assert forall|j: int| 0 <= j < key.len() implies data.subrange(off + 32, z)[j] == key[j] by {
                assert(b0[32 + j] == key[j]);
            }
        }
        vstd::utf8::encode_utf8_valid_utf8(e.path);
        vstd::utf8::encode_utf8_decode_utf8(e.path);
        assert(data.subrange(off, off + 8) =~= m8) by {
            assert forall|j: int| 0 <= j < 8 implies data.subrange(off, off + 8)[j] == m8[j] by {
                assert(b0[j] == m8[j]);
            }
        }
        assert(data.subrange(off + 8, off + 12) =~= m4) by {
            assert forall|j: int| 0 <= j < 4 implies data.subrange(off + 8, off + 12)[j] == m4[j] by {
                assert(b0[8 + j] == m4[j]);
            }
        }
        assert(data.subrange(off + 12, off + 32) =~= e.sha1) by {
            assert forall|j: int| 0 <= j < 20 implies data.subrange(off + 12, off + 32)[j] == e.sha1[j] by {
                assert(b0[12 + j] == e.sha1[j]);
            }
        }
        assert(parsed_entry(data, off, z) == e);
        let off2 = z + 1;
        let eb2 = entries_bytes(rest);
        assert(data.subrange(off2, off2 + eb2.len()) =~= eb2) by {
            assert forall|j: int| 0 <= j < eb2.len() implies data.subrange(off2, off2 + eb2.len())[j] == eb2[j] by {
                assert(data.subrange(off, off + eb.len())[b0.len() + j] == eb[b0.len() + j]);
            }
        }
        assert forall|i: int| 0 <= i < rest.len() implies storable_entry(#[trigger] rest[i]) by {
            assert(rest[i] == s[i + 1]);
        }
        lemma_parse_written_entries(data, off2, rest);
        assert(seq![e] + rest =~= s);
    }
}

/// A sorted run of entries maps each path to its own entry.
pub proof fn lemma_map_of_sorted(s: Seq<EntryView>)
    requires
        sorted_by_path(s),
    ensures
        map_of_entries(s) == entry_map(s),
    decreases s.len(),
{
    if s.len() == 0 {
        assert(entry_map(s) =~= Map::<Seq<u8>, EntryView>::empty());
    } else {
        let p = s.drop_last();
        assert(sorted_by_path(p));
        lemma_map_of_sorted(p);
        let n = p.len() as int;
        assert(p.insert(n, s.last()) =~= s);
        lemma_map_insert(p, n, s.last());
    }
}

/// Saving an index and loading the saved bytes gives back its entries, in
/// the same order and with the same paths, provided there are fewer than
/// 2^32 of them and no path holds a NUL byte.
pub proof fn lemma_save_then_load(s: Seq<EntryView>)
    requires
        sorted_by_path(s),
        s.len() < pow256(4),
        forall|i: int| 0 <= i < s.len() ==> storable_entry(#[trigger] s[i]),
    ensures
        parse_index(index_file(s)) == Ok::<Seq<EntryView>, IndexError>(s),
        map_of_entries(s) == entry_map(s),
{
    reveal_with_fuel(pow256, 5);
    lemma_be_roundtrip(1, 4);
    lemma_be_roundtrip(s.len() as nat, 4);
    let data = index_file(s);
    let eb = entries_bytes(s);
    let b1 = be_bytes(1, 4);
    let bn = be_bytes(s.len() as nat, 4);
    assert(data.take(4) =~= index_signature());
    assert(data.subrange(4, 8) =~= b1);
    assert(data.subrange(8, 12) =~= bn);
    assert(data.subrange(12, 12 + eb.len() as int) =~= eb);
    lemma_parse_written_entries(data, 12, s);
    lemma_map_of_sorted(s);
}

/// Replacing an entry by one with the same path replaces the map's value.
proof fn lemma_map_update(s: Seq<EntryView>, i: int, e: EntryView)
    requires
        sorted_by_path(s),
        0 <= i < s.len(),
        entry_key(s[i]) == entry_key(e),
    ensures
        sorted_by_path(s.update(i, e)),
        entry_map(s.update(i, e)) == entry_map(s).insert(entry_key(e), e),
{
    let t = s.update(i, e);
    let k = entry_key(e);
    assert forall|a: int, b: int| 0 <= a < b < t.len() implies lex_lt(
        entry_key(t[a]),
        entry_key(t[b]),
    ) by {
        assert(entry_key(t[a]) == entry_key(s[a]));
        assert(entry_key(t[b]) == entry_key(s[b]));
    }
    let m = entry_map(s).insert(k, e);
    assert forall|q: Seq<u8>| entry_map(t).contains_key(q) <==> m.contains_key(q) by {
        if entry_map(t).contains_key(q) {
            let j = choose|j: int| 0 <= j < t.len() && entry_key(t[j]) == q;
            assert(entry_key(s[j]) == q);
        }
        if m.contains_key(q) && q != k {
            let j = choose|j: int| 0 <= j < s.len() && entry_key(s[j]) == q;
            assert(entry_key(t[j]) == q);
        }
        if q == k {
            assert(entry_key(t[i]) == q);
        }
    }
    assert forall|q: Seq<u8>| #[trigger] m.contains_key(q) implies entry_map(t)[q] == m[q] by {
        if q == k {
            lemma_entry_map_at(t, i);
        } else {
            let j = choose|j: int| 0 <= j < s.len() && entry_key(s[j]) == q;
            lemma_entry_map_at(s, j);
            lemma_entry_map_at(t, j);
        }
    }
    assert(sorted_by_path(t));
    assert(entry_map(t).dom() =~= m.dom());
    assert(entry_map(t) =~= m);
}

/// Inserting an entry at the place its path sorts to adds it to the map.
proof fn lemma_map_insert(s: Seq<EntryView>, i: int, e: EntryView)
    requires
        sorted_by_path(s),
        0 <= i <= s.len(),
        forall|j: int| 0 <= j < i ==> lex_lt(entry_key(#[trigger] s[j]), entry_key(e)),
        i < s.len() ==> !lex_lt(entry_key(s[i]), entry_key(e)),
        i < s.len() ==> entry_key(s[i]) != entry_key(e),
    ensures
        sorted_by_path(s.insert(i, e)),
        entry_map(s.insert(i, e)) == entry_map(s).insert(entry_key(e), e),
{
    let t = s.insert(i, e);
    let k = entry_key(e);
    if i < s.len() {
        lemma_lex_total(entry_key(s[i]), k);
    }
    assert forall|j: int| i <= j < s.len() implies lex_lt(k, entry_key(#[trigger] s[j])) by {
        if j > i {
            lemma_lex_transitive(k, entry_key(s[i]), entry_key(s[j]));
        }
    }
    assert forall|a: int, b: int| 0 <= a < b < t.len() implies lex_lt(
        entry_key(t[a]),
        entry_key(t[b]),
    ) by {
        if b < i {
        } else if a < i && b == i {
        } else if a < i {
            assert(t[b] == s[b - 1]);
            lemma_lex_transitive(entry_key(s[a]), k, entry_key(s[b - 1]));
        } else if a == i {
            assert(t[b] == s[b - 1]);
        } else {
            assert(t[a] == s[a - 1]);
            assert(t[b] == s[b - 1]);
        }
    }
    let m = entry_map(s).insert(k, e);
    assert forall|q: Seq<u8>| entry_map(t).contains_key(q) <==> m.contains_key(q) by {
        if entry_map(t).contains_key(q) && q != k {
            let j = choose|j: int| 0 <= j < t.len() && entry_key(t[j]) == q;
            if j < i {
                assert(entry_key(s[j]) == q);
            } else {
                assert(entry_key(s[j - 1]) == q);
            }
        }
        if m.contains_key(q) && q != k {
            let j = choose|j: int| 0 <= j < s.len() && entry_key(s[j]) == q;
            if j < i {
                assert(entry_key(t[j]) == q);
            } else {
                assert(entry_key(t[j + 1]) == q);
            }
        }
        if q == k {
            assert(entry_key(t[i]) == q);
        }
    }
    assert forall|q: Seq<u8>| #[trigger] m.contains_key(q) implies entry_map(t)[q] == m[q] by {
        if q == k {
            lemma_entry_map_at(t, i);
        } else {
            let j = choose|j: int| 0 <= j < s.len() && entry_key(s[j]) == q;
            lemma_entry_map_at(s, j);
            if j < i {
                lemma_entry_map_at(t, j);
            } else {
                lemma_entry_map_at(t, j + 1);
            }
        }
    }
    assert(sorted_by_path(t));
    assert(entry_map(t).dom() =~= m.dom());
    assert(entry_map(t) =~= m);
}

/// Taking out an entry takes its path out of the map.
proof fn lemma_map_remove(s: Seq<EntryView>, i: int)
    requires
        sorted_by_path(s),
        0 <= i < s.len(),
    ensures
        sorted_by_path(s.remove(i)),
        entry_map(s.remove(i)) == entry_map(s).remove(entry_key(s[i])),
{
    let t = s.remove(i);
    let k = entry_key(s[i]);
    assert forall|a: int, b: int| 0 <= a < b < t.len() implies lex_lt(
        entry_key(t[a]),
        entry_key(t[b]),
    ) by {
        if b < i {
        } else if a < i {
            assert(t[b] == s[b + 1]);
        } else {
            assert(t[a] == s[a + 1]);
            assert(t[b] == s[b + 1]);
        }
    }
    let m = entry_map(s).remove(k);
    assert forall|q: Seq<u8>| entry_map(t).contains_key(q) <==> m.contains_key(q) by {
        if entry_map(t).contains_key(q) {
            let j = choose|j: int| 0 <= j < t.len() && entry_key(t[j]) == q;
            if j < i {
                assert(entry_key(s[j]) == q);
                lemma_lex_irreflexive(k);
            } else {
                assert(entry_key(s[j + 1]) == q);
                lemma_lex_irreflexive(k);
            }
        }
        if m.contains_key(q) {
            let j = choose|j: int| 0 <= j < s.len() && entry_key(s[j]) == q;
            if j < i {
                assert(entry_key(t[j]) == q);
            } else if j > i {
                assert(entry_key(t[j - 1]) == q);
            }
        }
    }
    assert forall|q: Seq<u8>| #[trigger] m.contains_key(q) implies entry_map(t)[q] == m[q] by {
        let j = choose|j: int| 0 <= j < s.len() && entry_key(s[j]) == q;
        lemma_entry_map_at(s, j);
        if j < i {
            lemma_entry_map_at(t, j);
        } else if j > i {
            lemma_entry_map_at(t, j - 1);
        }
    }
    assert(entry_map(t).dom() =~= m.dom());
    assert(entry_map(t) =~= m);
}

/// A path that sorts between the entries before `i` and the one at `i`,
/// without being that one, is not in the map.
proof fn lemma_absent(s: Seq<EntryView>, k: Seq<u8>, i: int)
    requires
        sorted_by_path(s),
        0 <= i <= s.len(),
        forall|j: int| 0 <= j < i ==> lex_lt(entry_key(#[trigger] s[j]), k),
        i < s.len() ==> !lex_lt(entry_key(s[i]), k),
        i < s.len() ==> entry_key(s[i]) != k,
    ensures
        !entry_map(s).contains_key(k),
{
    if i < s.len() {
        lemma_lex_total(entry_key(s[i]), k);
    }
    assert forall|j: int| 0 <= j < s.len() implies entry_key(#[trigger] s[j]) != k by {
        if j < i {
            lemma_lex_irreflexive(k);
        } else if j > i {
            lemma_lex_transitive(k, entry_key(s[i]), entry_key(s[j]));
            lemma_lex_irreflexive(k);
        }
    }
}

} // verus!
