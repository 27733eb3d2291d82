//! What the name of a written tree depends on: the paths, modes and blobs
//! staged below its directory, in order, and nothing else; not the
//! modification times, and not the entries elsewhere in the index.

use vstd::prelude::*;
use crate::codec::{decimal, find_from, is_first_at};
use crate::index::{entry_key, EntryView};
use crate::listing::{lemma_join_rel, lemma_rel_join, slash_free};
use crate::tree::{
    depth_left, dir_items, dir_mode, dir_names, dir_source, file_items, join_path, lemma_dir_names_sourced,
    lemma_max_key_len, max_key_len, rel_path, tree_digest, TreeItem,
};

verus! {

/// A staged entry as a tree sees it: path, mode and blob.
pub type Staged = (Seq<u8>, u32, Seq<u8>);

/// The entries staged below `prefix`, in index order, as trees see them.
pub open spec fn staged_below(s: Seq<EntryView>, prefix: Seq<u8>) -> Seq<Staged>
    decreases s.len(),
{
    if s.len() == 0 {
        Seq::empty()
    } else {
        let r = staged_below(s.drop_last(), prefix);
        if rel_path(entry_key(s.last()), prefix) is Some {
            r.push((entry_key(s.last()), s.last().mode, s.last().sha1))
        } else {
            r
        }
    }
}

/// Of entries seen as trees see them, those below `prefix`.
pub open spec fn kept_below(u: Seq<Staged>, prefix: Seq<u8>) -> Seq<Staged>
    decreases u.len(),
{
    if u.len() == 0 {
        Seq::empty()
    } else {
        let r = kept_below(u.drop_last(), prefix);
        if rel_path(u.last().0, prefix) is Some {
            r.push(u.last())
        } else {
            r
        }
    }
}

/// The file entries directly under `prefix`, from entries seen as trees see
/// them.
pub open spec fn files_of(u: Seq<Staged>, prefix: Seq<u8>) -> Seq<TreeItem>
    decreases u.len(),
{
    if u.len() == 0 {
        Seq::empty()
    } else {
        let rest = files_of(u.drop_last(), prefix);
        match rel_path(u.last().0, prefix) {
            Some(r) => if find_from(r, 47, 0) is None {
                rest.push(TreeItem { mode: decimal(u.last().1 as nat), name: r, hash: u.last().2 })
            } else {
                rest
            },
            None => rest,
        }
    }
}

/// The subdirectory names directly under `prefix`, from entries seen as
/// trees see them.
pub open spec fn dirs_of(u: Seq<Staged>, prefix: Seq<u8>) -> Seq<Seq<u8>>
    decreases u.len(),
{
    if u.len() == 0 {
        Seq::empty()
    } else {
        let rest = dirs_of(u.drop_last(), prefix);
        match rel_path(u.last().0, prefix) {
            Some(r) => match find_from(r, 47, 0) {
                Some(k) => if rest.contains(r.take(k)) {
                    rest
                } else {
                    rest.push(r.take(k))
                },
                None => rest,
            },
            None => rest,
        }
    }
}

/// Every path staged below `prefix` is shorter than `bound`.
pub open spec fn keys_below_shorter(s: Seq<EntryView>, prefix: Seq<u8>, bound: nat) -> bool {
    forall|i: int|
        0 <= i < s.len() && rel_path(#[trigger] entry_key(s[i]), prefix) is Some ==> entry_key(s[i]).len() < bound
}

/// A level's files and subdirectory names depend only on the entries below
/// it, as trees see them.
proof fn lemma_level_from_staged(s: Seq<EntryView>, p: Seq<u8>)
    ensures
        file_items(s, p) == files_of(staged_below(s, p), p),
        dir_names(s, p) == dirs_of(staged_below(s, p), p),
    decreases s.len(),
{
    if s.len() > 0 {
        lemma_level_from_staged(s.drop_last(), p);
        let r = staged_below(s.drop_last(), p);
        if rel_path(entry_key(s.last()), p) is Some {
            let u = r.push((entry_key(s.last()), s.last().mode, s.last().sha1));
            assert(u.drop_last() =~= r);
        }
    }
}

/// The entries below a subdirectory are those below it among the entries
/// below its parent.
proof fn lemma_staged_below_sub(s: Seq<EntryView>, p: Seq<u8>, q: Seq<u8>)
    requires
        forall|key: Seq<u8>| #[trigger] rel_path(key, q) is Some ==> rel_path(key, p) is Some,
    ensures
        staged_below(s, q) == kept_below(staged_below(s, p), q),
    decreases s.len(),
{
    if s.len() > 0 {
        lemma_staged_below_sub(s.drop_last(), p, q);
        let r = staged_below(s.drop_last(), p);
        let key = entry_key(s.last());
        if rel_path(key, p) is Some {
            let u = r.push((key, s.last().mode, s.last().sha1));
            assert(u.drop_last() =~= r);
        } else {
            assert(rel_path(key, q) is None);
        }
    }
}

/// A subdirectory entry of a level: its mode, name and hash.
proof fn lemma_dir_item_at(s: Seq<EntryView>, p: Seq<u8>, bound: nat, names: Seq<Seq<u8>>, m: int)
    requires
        0 <= m < names.len(),
    ensures
        dir_items(s, p, bound, names).len() == names.len(),
        dir_items(s, p, bound, names)[m] == (TreeItem {
            mode: dir_mode(),
            name: names[m],
            hash: if join_path(p, names[m]).len() > p.len() && p.len() < bound {
                tree_digest(s, join_path(p, names[m]), bound)
            } else {
                Seq::empty()
            },
        }),
    decreases names.len(),
{
    let w = names.drop_last();
    if m < names.len() - 1 {
        lemma_dir_item_at(s, p, bound, w, m);
        assert(w[m] == names[m]);
    } else if w.len() > 0 {
        lemma_dir_item_at(s, p, bound, w, 0);
    } else {
        assert(dir_items(s, p, bound, w).len() == 0);
    }
}

/// A subdirectory name of a level comes from an entry below the level whose
/// path runs on past the subdirectory's path.
proof fn lemma_sub_shorter(s: Seq<EntryView>, p: Seq<u8>, i: int, n: Seq<u8>)
    requires
        dir_source(s, p, i, n),
    ensures
        slash_free(n),
        (rel_path(entry_key(s[i]), p) is Some),
        join_path(p, n).len() > p.len() ==> join_path(p, n).len() < entry_key(s[i]).len(),
{
    let key = entry_key(s[i]);
    let r = rel_path(key, p)->Some_0;
    let k = find_from(r, 47, 0)->Some_0;
    assert(is_first_at(r, 47, 0, k));
    assert forall|j: int| 0 <= j < n.len() implies #[trigger] n[j] != 47u8 by {
        assert(n[j] == r[j]);
    }
    lemma_join_rel(key, p);
}

/// The trees for `prefix` in two indexes have the same name when the two
/// stage the same paths, modes and blobs below `prefix`, in the same order;
/// their times and their other entries do not matter.
pub proof fn lemma_tree_digest_from_staged(s1: Seq<EntryView>, s2: Seq<EntryView>, p: Seq<u8>, b1: nat, b2: nat)
    requires
        staged_below(s1, p) == staged_below(s2, p),
        keys_below_shorter(s1, p, b1),
        keys_below_shorter(s2, p, b2),
        p.len() < b1,
        p.len() < b2,
    ensures
        tree_digest(s1, p, b1) == tree_digest(s2, p, b2),
    decreases depth_left(p, b1),
{
    lemma_level_from_staged(s1, p);
    lemma_level_from_staged(s2, p);
    let names = dir_names(s1, p);
    assert(dir_names(s2, p) == names);
    lemma_dir_names_sourced(s1, p);
    lemma_dir_names_sourced(s2, p);
    let d1 = dir_items(s1, p, b1, names);
    let d2 = dir_items(s2, p, b2, names);
    if names.len() > 0 {
        lemma_dir_item_at(s1, p, b1, names, 0);
        lemma_dir_item_at(s2, p, b2, names, 0);
    }
    assert forall|m: int| 0 <= m < names.len() implies #[trigger] d1[m] == d2[m] by {
        lemma_dir_item_at(s1, p, b1, names, m);
        lemma_dir_item_at(s2, p, b2, names, m);
        let n = names[m];
        let q = join_path(p, n);
        if q.len() > p.len() {
            assert(crate::tree::dir_sourced(s1, p, names[m]));
            assert(crate::tree::dir_sourced(s2, p, dir_names(s2, p)[m]));
            let i1 = choose|i: int| #[trigger] dir_source(s1, p, i, n);
            let i2 = choose|i: int| #[trigger] dir_source(s2, p, i, n);
            lemma_sub_shorter(s1, p, i1, n);
            lemma_sub_shorter(s2, p, i2, n);
            assert(entry_key(s1[i1]).len() < b1);
            assert(entry_key(s2[i2]).len() < b2);
            assert forall|key: Seq<u8>| #[trigger] rel_path(key, q) is Some implies rel_path(key, p) is Some by {
                lemma_rel_join(key, p, n);
            }
            lemma_staged_below_sub(s1, p, q);
            lemma_staged_below_sub(s2, p, q);
            assert forall|i: int| 0 <= i < s1.len() && rel_path(#[trigger] entry_key(s1[i]), q) is Some implies entry_key(
                s1[i],
            ).len() < b1 by {
                lemma_rel_join(entry_key(s1[i]), p, n);
            }
            assert forall|i: int| 0 <= i < s2.len() && rel_path(#[trigger] entry_key(s2[i]), q) is Some implies entry_key(
                s2[i],
            ).len() < b2 by {
                lemma_rel_join(entry_key(s2[i]), p, n);
            }
            lemma_tree_digest_from_staged(s1, s2, q, b1, b2);
        }
    }
    assert(d1 =~= d2);
    assert(file_items(s1, p) == file_items(s2, p));
}

/// The name `write_tree_from_index` gives an index's root tree depends only
/// on the paths, modes and blobs it stages, in order: two indexes that
/// differ only in their modification times get the same root tree.
pub proof fn lemma_root_tree_ignores_times(s1: Seq<EntryView>, s2: Seq<EntryView>)
    requires
        staged_below(s1, Seq::empty()) == staged_below(s2, Seq::empty()),
    ensures
        tree_digest(s1, Seq::empty(), max_key_len(s1) + 1) == tree_digest(s2, Seq::empty(), max_key_len(s2) + 1),
{
    lemma_tree_digest_below_prefix(s1, s2, Seq::empty());
}

/// The tree the index writer makes for `prefix` is named by the paths,
/// modes and blobs staged below `prefix` alone: two indexes that stage the
/// same ones there, in the same order, get the same tree for `prefix`,
/// whatever their times and their other entries.
pub proof fn lemma_tree_digest_below_prefix(s1: Seq<EntryView>, s2: Seq<EntryView>, p: Seq<u8>)
    requires
        staged_below(s1, p) == staged_below(s2, p),
        p.len() < max_key_len(s1) + 1,
        p.len() < max_key_len(s2) + 1,
    ensures
        tree_digest(s1, p, max_key_len(s1) + 1) == tree_digest(s2, p, max_key_len(s2) + 1),
{
    assert forall|i: int| 0 <= i < s1.len() && rel_path(#[trigger] entry_key(s1[i]), p) is Some implies entry_key(s1[i]).len()
        < max_key_len(s1) + 1 by {
        lemma_max_key_len(s1, i);
    }
    assert forall|i: int| 0 <= i < s2.len() && rel_path(#[trigger] entry_key(s2[i]), p) is Some implies entry_key(s2[i]).len()
        < max_key_len(s2) + 1 by {
        lemma_max_key_len(s2, i);
    }
    lemma_tree_digest_from_staged(s1, s2, p, max_key_len(s1) + 1, max_key_len(s2) + 1);
}

} // verus!
