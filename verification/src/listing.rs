//! What the trees written for an index list when they are read from the
//! root, each subdirectory through the tree written for it: every staged
//! file, under its path, with its staged blob, and nothing else.

use vstd::prelude::*;
use crate::codec::{decimal, find_from, has_prefix, is_first_at, lemma_decimal_value, lemma_first_unique};
use crate::index::{entry_key, EntryView};
use crate::tree::{
    depth_left, dir_items, dir_mode, dir_names, dir_source, file_items, join_path, lemma_dir_names_sourced,
    lemma_max_key_len, lemma_sort_items_from, lemma_source_lengths, level_items, max_key_len,
    no_rooted_paths, rel_path, sort_items, tree_digest, insert_pos, tree_objects, dir_objects, TreeItem,
    flat_items_for, FlatItem,
};
use vstd::utf8::encode_utf8;

verus! {

/// No staged file has the mode of a subdirectory, 40000, which a reader of
/// the tree would take for one.
pub open spec fn no_dir_modes(s: Seq<EntryView>) -> bool {
    forall|i: int| 0 <= i < s.len() ==> (#[trigger] s[i]).mode != 40000
}

/// The tree written for `prefix` lists the file `path` with blob `hash`,
/// reading each subdirectory through the tree written for it.
pub open spec fn tree_lists(s: Seq<EntryView>, prefix: Seq<u8>, bound: nat, path: Seq<u8>, hash: Seq<u8>) -> bool
    decreases depth_left(prefix, bound), 1nat, 0nat,
{
    items_list(s, prefix, bound, level_items(s, prefix, bound), path, hash)
}

/// One of the entries `its` of the tree for `prefix` lists the file.
pub open spec fn items_list(
    s: Seq<EntryView>,
    prefix: Seq<u8>,
    bound: nat,
    its: Seq<TreeItem>,
    path: Seq<u8>,
    hash: Seq<u8>,
) -> bool
    decreases depth_left(prefix, bound), 0nat, its.len(),
{
    if its.len() == 0 {
        false
    } else {
        items_list(s, prefix, bound, its.drop_last(), path, hash) || item_lists(s, prefix, bound, its.last(), path, hash)
    }
}

/// The entry `it` of the tree for `prefix` lists the file: a file entry by
/// its own path and blob, a subdirectory entry through its tree.
pub open spec fn item_lists(s: Seq<EntryView>, prefix: Seq<u8>, bound: nat, it: TreeItem, path: Seq<u8>, hash: Seq<u8>) -> bool
    decreases depth_left(prefix, bound), 0nat, 0nat,
{
    if it.mode == dir_mode() {
        let q = join_path(prefix, it.name);
        if q.len() > prefix.len() && prefix.len() < bound {
            tree_lists(s, q, bound, path, hash)
        } else {
            false
        }
    } else {
        path == join_path(prefix, it.name) && hash == it.hash
    }
}

/// Entries list a file exactly when one of them does.
proof fn lemma_items_list_exists(
    s: Seq<EntryView>,
    p: Seq<u8>,
    bound: nat,
    its: Seq<TreeItem>,
    path: Seq<u8>,
    hash: Seq<u8>,
)
    ensures
        items_list(s, p, bound, its, path, hash) <==> exists|j: int|
            0 <= j < its.len() && #[trigger] item_lists(s, p, bound, its[j], path, hash),
    decreases its.len(),
{
    if its.len() > 0 {
        let w = its.drop_last();
        lemma_items_list_exists(s, p, bound, w, path, hash);
        if items_list(s, p, bound, its, path, hash) {
            if items_list(s, p, bound, w, path, hash) {
                let j = choose|j: int| 0 <= j < w.len() && #[trigger] item_lists(s, p, bound, w[j], path, hash);
                assert(its[j] == w[j]);
            } else {
                assert(item_lists(s, p, bound, its[its.len() - 1], path, hash));
            }
        }
        if exists|j: int| 0 <= j < its.len() && #[trigger] item_lists(s, p, bound, its[j], path, hash) {
            let j = choose|j: int| 0 <= j < its.len() && #[trigger] item_lists(s, p, bound, its[j], path, hash);
            if j < its.len() - 1 {
                assert(w[j] == its[j]);
                assert(item_lists(s, p, bound, w[j], path, hash));
            }
        }
    }
}

/// Sorting loses no entry.
proof fn lemma_sort_items_covers(v: Seq<TreeItem>)
    ensures
        forall|j: int| 0 <= j < v.len() ==> sort_items(v).contains(#[trigger] v[j]),
    decreases v.len(),
{
    if v.len() > 0 {
        let w = v.drop_last();
        let t = sort_items(w);
        lemma_sort_items_covers(w);
        lemma_sort_items_from(w);
        let pos = insert_pos(t, v.last());
        crate::tree::lemma_insert_pos_range(t, v.last());
        let u = t.insert(pos, v.last());
        assert(sort_items(v) == u);
        assert forall|j: int| 0 <= j < v.len() implies sort_items(v).contains(#[trigger] v[j]) by {
            if j < v.len() - 1 {
                assert(v[j] == w[j]);
                assert(t.contains(w[j]));
                let k = choose|k: int| 0 <= k < t.len() && t[k] == w[j];
                if k < pos {
                    assert(u[k] == t[k]);
                } else {
                    assert(u[k + 1] == t[k]);
                }
            } else {
                assert(u[pos] == v.last());
            }
        }
    }
}

/// The path a file entry stands for, and its entry in the tree for
/// `prefix`, if it lies directly there.
pub open spec fn file_entry_item(e: EntryView, prefix: Seq<u8>) -> TreeItem {
    TreeItem { mode: decimal(e.mode as nat), name: rel_path(entry_key(e), prefix)->Some_0, hash: e.sha1 }
}

/// Entry `i` lies directly under `prefix`, not in a subdirectory of it.
pub open spec fn directly_under(s: Seq<EntryView>, prefix: Seq<u8>, i: int) -> bool {
    &&& 0 <= i < s.len()
    &&& rel_path(entry_key(s[i]), prefix) matches Some(r)
    &&& find_from(r, 47, 0) is None
}

/// `it` is the file entry of some file directly under `prefix`.
pub open spec fn file_item_sourced(s: Seq<EntryView>, prefix: Seq<u8>, it: TreeItem) -> bool {
    exists|i: int| #[trigger] directly_under(s, prefix, i) && it == file_entry_item(s[i], prefix)
}

/// The file entries of a level are those of the files directly under it.
proof fn lemma_file_items_char(s: Seq<EntryView>, p: Seq<u8>)
    ensures
        forall|j: int| 0 <= j < file_items(s, p).len() ==> file_item_sourced(s, p, #[trigger] file_items(s, p)[j]),
        forall|i: int| #[trigger] directly_under(s, p, i) ==> file_items(s, p).contains(file_entry_item(s[i], p)),
    decreases s.len(),
{
    if s.len() > 0 {
        let w = s.drop_last();
        let n = s.len() - 1;
        lemma_file_items_char(w, p);
        let fw = file_items(w, p);
        let fs = file_items(s, p);
        assert forall|i: int| #[trigger] directly_under(w, p, i) implies directly_under(s, p, i) by {
            assert(w[i] == s[i]);
        }
        assert forall|j: int| 0 <= j < fs.len() implies file_item_sourced(s, p, #[trigger] fs[j]) by {
            if j < fw.len() {
                assert(fs[j] == fw[j]);
                assert(file_item_sourced(w, p, fw[j]));
                let i = choose|i: int| #[trigger] directly_under(w, p, i) && fw[j] == file_entry_item(w[i], p);
                assert(w[i] == s[i]);
                assert(directly_under(s, p, i));
            } else {
                assert(s.last() == s[n]);
                assert(directly_under(s, p, n));
            }
        }
        assert forall|i: int| #[trigger] directly_under(s, p, i) implies fs.contains(file_entry_item(s[i], p)) by {
            if i < n {
                assert(w[i] == s[i]);
                assert(directly_under(w, p, i));
                assert(fw.contains(file_entry_item(w[i], p)));
                let j = choose|j: int| 0 <= j < fw.len() && fw[j] == file_entry_item(w[i], p);
                assert(fs[j] == fw[j]);
            } else {
                assert(s.last() == s[n]);
                assert(fs[fs.len() - 1] == file_entry_item(s[i], p));
            }
        }
    }
}

/// The subdirectory entries of a level, one per name, in order.
proof fn lemma_dir_items_char(s: Seq<EntryView>, p: Seq<u8>, bound: nat, names: Seq<Seq<u8>>)
    ensures
        dir_items(s, p, bound, names).len() == names.len(),
        forall|m: int| 0 <= m < names.len() ==> (#[trigger] dir_items(s, p, bound, names)[m]).mode == dir_mode()
            && dir_items(s, p, bound, names)[m].name == names[m],
    decreases names.len(),
{
    if names.len() > 0 {
        let w = names.drop_last();
        lemma_dir_items_char(s, p, bound, w);
        assert forall|m: int| 0 <= m < names.len() implies (#[trigger] dir_items(s, p, bound, names)[m]).mode == dir_mode()
            && dir_items(s, p, bound, names)[m].name == names[m] by {
            if m < w.len() {
                assert(dir_items(s, p, bound, names)[m] == dir_items(s, p, bound, w)[m]);
                assert(w[m] == names[m]);
            }
        }
    }
}

/// Every subdirectory that holds an entry is among the names of its level.
proof fn lemma_dir_names_cover(s: Seq<EntryView>, p: Seq<u8>, i: int, name: Seq<u8>)
    requires
        dir_source(s, p, i, name),
    ensures
        dir_names(s, p).contains(name),
    decreases s.len(),
{
    let w = s.drop_last();
    if i < s.len() - 1 {
        assert(w[i] == s[i]);
        assert(dir_source(w, p, i, name));
        lemma_dir_names_cover(w, p, i, name);
        let dn = dir_names(w, p);
        let j = choose|j: int| 0 <= j < dn.len() && dn[j] == name;
        if dir_names(s, p) != dn {
            assert(dir_names(s, p)[j] == dn[j]);
        }
    } else {
        assert(s.last() == s[i]);
        let dn = dir_names(w, p);
        if !dn.contains(name) {
            assert(dir_names(s, p) == dn.push(name));
            assert(dir_names(s, p)[dn.len() as int] == name);
        }
    }
}

/// `decimal` tells numbers apart; 40000 is written as the subdirectory mode.
proof fn lemma_decimal_mode_not_dir(n: nat)
    requires
        n != 40000,
    ensures
        decimal(n) != dir_mode(),
{
    lemma_decimal_value(n);
    lemma_decimal_value(40000);
    reveal_with_fuel(decimal, 6);
    assert(decimal(40000) == dir_mode());
}

/// No `/` in a name.
pub open spec fn slash_free(n: Seq<u8>) -> bool {
    forall|j: int| 0 <= j < n.len() ==> #[trigger] n[j] != 47u8
}

/// A path below `prefix` is `prefix`, a `/` and the part below it.
pub proof fn lemma_join_rel(key: Seq<u8>, p: Seq<u8>)
    requires
        rel_path(key, p) is Some,
    ensures
        join_path(p, rel_path(key, p)->Some_0) == key,
{
    if p.len() > 0 {
        let r = rel_path(key, p)->Some_0;
        assert(key.take(p.len() + 1int) == p + seq![47u8]);
        assert(p + seq![47u8] + r =~= key);
    }
}

/// A path lies below the subdirectory `n` of `prefix` exactly when it lies
/// below `prefix` and the part below it starts with `n` and a `/`.
pub proof fn lemma_rel_join(key: Seq<u8>, p: Seq<u8>, n: Seq<u8>)
    requires
        slash_free(n),
        join_path(p, n).len() > p.len(),
    ensures
        rel_path(key, join_path(p, n)) is Some <==> (rel_path(key, p) matches Some(r) && has_prefix(r, n + seq![47u8])),
        rel_path(key, p) matches Some(r) ==> (has_prefix(r, n + seq![47u8]) <==> (find_from(r, 47, 0) == Some(n.len() as int)
            && r.take(n.len() as int) == n)),
{
    let q = join_path(p, n);
    let ns = n + seq![47u8];
    if p.len() == 0 {
        assert(q == n);
        assert(q + seq![47u8] == ns);
    } else {
        let ps = p + seq![47u8];
        assert(q + seq![47u8] =~= ps + ns);
        if has_prefix(key, ps + ns) {
            assert(key.take(ps.len() as int) =~= (ps + ns).take(ps.len() as int));
            assert((ps + ns).take(ps.len() as int) =~= ps);
            let r = key.skip(ps.len() as int);
            assert(r.take(ns.len() as int) =~= ns) by {
                assert forall|j: int| 0 <= j < ns.len() implies r.take(ns.len() as int)[j] == ns[j] by {
                    assert(key.take((ps + ns).len() as int)[ps.len() + j] == (ps + ns)[ps.len() + j]);
                }
            }
        }
        if has_prefix(key, ps) && has_prefix(key.skip(ps.len() as int), ns) {
            let r = key.skip(ps.len() as int);
            assert(key.take((ps + ns).len() as int) =~= ps + ns) by {
                assert forall|j: int| 0 <= j < (ps + ns).len() implies key.take((ps + ns).len() as int)[j] == (ps + ns)[j] by {
                    if j < ps.len() {
                        assert(key.take(ps.len() as int)[j] == ps[j]);
                    } else {
                        assert(r.take(ns.len() as int)[j - ps.len()] == ns[j - ps.len()]);
                    }
                }
            }
        }
    }
    if rel_path(key, p) is Some {
        let r = rel_path(key, p)->Some_0;
        let k = n.len() as int;
        if has_prefix(r, ns) {
            assert(r[k] == r.take(ns.len() as int)[k]);
            assert(is_first_at(r, 47, 0, k)) by {
                assert forall|j: int| 0 <= j < k implies r[j] != 47u8 by {
                    assert(r[j] == r.take(ns.len() as int)[j]);
                    assert(ns[j] == n[j]);
                }
            }
            assert(find_from(r, 47, 0) == Some(k)) by {
                let c = choose|c: int| is_first_at(r, 47, 0, c);
                lemma_first_unique(r, 47, 0, k, c);
            }
            assert(r.take(k) =~= n) by {
                assert forall|j: int| 0 <= j < k implies r.take(k)[j] == n[j] by {
                    assert(r.take(ns.len() as int)[j] == ns[j]);
                }
            }
        }
        if find_from(r, 47, 0) == Some(k) && r.take(k) == n {
            let c = choose|c: int| is_first_at(r, 47, 0, c);
            assert(is_first_at(r, 47, 0, k));
            assert(r.take(ns.len() as int) =~= ns) by {
                assert forall|j: int| 0 <= j < ns.len() implies r.take(ns.len() as int)[j] == ns[j] by {
                    if j < k {
                        assert(r.take(k)[j] == n[j]);
                    }
                }
            }
        }
    }
}

/// Entry `i` lies below `prefix`.
pub open spec fn below(s: Seq<EntryView>, prefix: Seq<u8>, i: int) -> bool {
    &&& 0 <= i < s.len()
    &&& rel_path(entry_key(s[i]), prefix) is Some
}

/// The first component of a path below a level holds no `/`.
proof fn lemma_source_slash_free(s: Seq<EntryView>, p: Seq<u8>, i: int, name: Seq<u8>)
    requires
        dir_source(s, p, i, name),
    ensures
        slash_free(name),
{
    let r = rel_path(entry_key(s[i]), p)->Some_0;
    let k = find_from(r, 47, 0)->Some_0;
    assert(is_first_at(r, 47, 0, k));
    assert forall|j: int| 0 <= j < name.len() implies #[trigger] name[j] != 47u8 by {
        assert(name[j] == r[j]);
    }
}

/// The tree for `prefix` lists exactly the staged files below `prefix`.
proof fn lemma_tree_lists_at(s: Seq<EntryView>, p: Seq<u8>, bound: nat, path: Seq<u8>, hash: Seq<u8>)
    requires
        no_rooted_paths(s),
        no_dir_modes(s),
        bound == max_key_len(s) + 1,
        p.len() < bound,
    ensures
        tree_lists(s, p, bound, path, hash) <==> exists|i: int|
            #[trigger] below(s, p, i) && entry_key(s[i]) == path && s[i].sha1 == hash,
    decreases depth_left(p, bound),
{
    let files = file_items(s, p);
    let names = dir_names(s, p);
    let dirs = dir_items(s, p, bound, names);
    let v = files + dirs;
    let sorted = sort_items(v);
    assert(level_items(s, p, bound) == sorted);
    lemma_items_list_exists(s, p, bound, sorted, path, hash);
    lemma_sort_items_from(v);
    lemma_sort_items_covers(v);
    lemma_file_items_char(s, p);
    lemma_dir_items_char(s, p, bound, names);
    lemma_dir_names_sourced(s, p);
    if tree_lists(s, p, bound, path, hash) {
        let j = choose|j: int| 0 <= j < sorted.len() && #[trigger] item_lists(s, p, bound, sorted[j], path, hash);
        assert(v.contains(sorted[j]));
        let jv = choose|jv: int| 0 <= jv < v.len() && v[jv] == sorted[j];
        if jv < files.len() {
            assert(v[jv] == files[jv]);
            assert(file_item_sourced(s, p, files[jv]));
            let i = choose|i: int| #[trigger] directly_under(s, p, i) && files[jv] == file_entry_item(s[i], p);
            assert(s[i].mode != 40000);
            lemma_decimal_mode_not_dir(s[i].mode as nat);
            lemma_join_rel(entry_key(s[i]), p);
            assert(below(s, p, i));
        } else {
            let m = jv - files.len();
            assert(v[jv] == dirs[m]);
            let name = names[m];
            let q = join_path(p, name);
            assert(crate::tree::dir_sourced(s, p, names[m]));
            let i0 = choose|i0: int| #[trigger] dir_source(s, p, i0, name);
            lemma_source_lengths(s, p, i0, name);
            lemma_max_key_len(s, i0);
            lemma_source_slash_free(s, p, i0, name);
            assert(tree_lists(s, q, bound, path, hash));
            lemma_tree_lists_at(s, q, bound, path, hash);
            let i = choose|i: int| #[trigger] below(s, q, i) && entry_key(s[i]) == path && s[i].sha1 == hash;
            lemma_rel_join(entry_key(s[i]), p, name);
            assert(below(s, p, i));
        }
    }
    if exists|i: int| #[trigger] below(s, p, i) && entry_key(s[i]) == path && s[i].sha1 == hash {
        let i = choose|i: int| #[trigger] below(s, p, i) && entry_key(s[i]) == path && s[i].sha1 == hash;
        let key = entry_key(s[i]);
        let r = rel_path(key, p)->Some_0;
        if find_from(r, 47, 0) is None {
            assert(directly_under(s, p, i));
            assert(files.contains(file_entry_item(s[i], p)));
            let j = choose|j: int| 0 <= j < files.len() && files[j] == file_entry_item(s[i], p);
            assert(v[j] == files[j]);
            assert(s[i].mode != 40000);
            lemma_decimal_mode_not_dir(s[i].mode as nat);
            lemma_join_rel(key, p);
            assert(item_lists(s, p, bound, v[j], path, hash));
            assert(sorted.contains(v[j]));
            let js = choose|js: int| 0 <= js < sorted.len() && sorted[js] == v[j];
            assert(item_lists(s, p, bound, sorted[js], path, hash));
        } else {
            let k = find_from(r, 47, 0)->Some_0;
            let name = r.take(k);
            assert(dir_source(s, p, i, name));
            lemma_dir_names_cover(s, p, i, name);
            let m = choose|m: int| 0 <= m < names.len() && names[m] == name;
            lemma_source_lengths(s, p, i, name);
            lemma_max_key_len(s, i);
            lemma_source_slash_free(s, p, i, name);
            let q = join_path(p, name);
            assert(is_first_at(r, 47, 0, k));
            lemma_rel_join(key, p, name);
            assert(below(s, q, i));
            lemma_tree_lists_at(s, q, bound, path, hash);
            assert(tree_lists(s, q, bound, path, hash));
            let jv = files.len() + m;
            assert(v[jv] == dirs[m]);
            assert(item_lists(s, p, bound, v[jv], path, hash));
            assert(sorted.contains(v[jv]));
            let js = choose|js: int| 0 <= js < sorted.len() && sorted[js] == v[jv];
            assert(item_lists(s, p, bound, sorted[js], path, hash));
        }
    }
}

/// The trees written for an index, read from the root with each
/// subdirectory read through the tree written for it, list exactly the
/// staged files, each under its path with its staged blob, provided no
/// staged path starts with `/` and no staged file has the subdirectory mode
/// 40000.
pub proof fn lemma_written_trees_list_index(s: Seq<EntryView>, path: Seq<u8>, hash: Seq<u8>)
    requires
        no_rooted_paths(s),
        no_dir_modes(s),
    ensures
        tree_lists(s, Seq::empty(), max_key_len(s) + 1, path, hash) <==> exists|i: int|
            0 <= i < s.len() && #[trigger] entry_key(s[i]) == path && s[i].sha1 == hash,
{
    let e = Seq::<u8>::empty();
    lemma_tree_lists_at(s, e, max_key_len(s) + 1, path, hash);
    if exists|i: int| 0 <= i < s.len() && #[trigger] entry_key(s[i]) == path && s[i].sha1 == hash {
        let i = choose|i: int| 0 <= i < s.len() && #[trigger] entry_key(s[i]) == path && s[i].sha1 == hash;
        assert(below(s, e, i));
    }
    if exists|i: int| #[trigger] below(s, e, i) && entry_key(s[i]) == path && s[i].sha1 == hash {
        let i = choose|i: int| #[trigger] below(s, e, i) && entry_key(s[i]) == path && s[i].sha1 == hash;
        assert(entry_key(s[i]) == path);
    }
}

/// The objects written for the subdirectories `names` of `prefix` hold the
/// tree of each of them, last among its own objects.
proof fn lemma_dir_objects_hold(s: Seq<EntryView>, p: Seq<u8>, bound: nat, names: Seq<Seq<u8>>, m: int)
    requires
        0 <= m < names.len(),
        join_path(p, names[m]).len() > p.len(),
        p.len() < bound,
    ensures
        dir_objects(s, p, bound, names).contains(tree_objects(s, join_path(p, names[m]), bound).last()),
    decreases names.len(),
{
    let w = names.drop_last();
    let q = join_path(p, names.last());
    if m < names.len() - 1 {
        assert(w[m] == names[m]);
        lemma_dir_objects_hold(s, p, bound, w, m);
        let d = dir_objects(s, p, bound, w);
        let k = choose|k: int| 0 <= k < d.len() && d[k] == tree_objects(s, join_path(p, names[m]), bound).last();
        assert(dir_objects(s, p, bound, names)[k] == d[k]);
    } else {
        let sub = tree_objects(s, q, bound);
        let d = dir_objects(s, p, bound, w);
        assert(dir_objects(s, p, bound, names) == d + sub);
        assert(sub.len() > 0);
        assert((d + sub)[d.len() + sub.len() - 1] == sub.last());
    }
}

/// Every subdirectory entry of the tree written for `prefix` names, by its
/// hash, a tree written along with it: the tree for that subdirectory,
/// which is last among the objects written for the subdirectory.
pub proof fn lemma_subtrees_written(s: Seq<EntryView>, p: Seq<u8>, bound: nat, m: int)
    requires
        0 <= m < dir_names(s, p).len(),
        join_path(p, dir_names(s, p)[m]).len() > p.len(),
        p.len() < bound,
    ensures
        tree_objects(s, p, bound).contains(tree_objects(s, join_path(p, dir_names(s, p)[m]), bound).last()),
        dir_items(s, p, bound, dir_names(s, p))[m].hash == tree_digest(s, join_path(p, dir_names(s, p)[m]), bound),
        tree_objects(s, join_path(p, dir_names(s, p)[m]), bound).last().0 == crate::codec::hex_lower(
            tree_digest(s, join_path(p, dir_names(s, p)[m]), bound),
        ),
{
    let names = dir_names(s, p);
    lemma_dir_objects_hold(s, p, bound, names, m);
    let d = dir_objects(s, p, bound, names);
    let k = choose|k: int| 0 <= k < d.len() && d[k] == tree_objects(s, join_path(p, names[m]), bound).last();
    assert(tree_objects(s, p, bound)[k] == d[k]);
    lemma_dir_items_hash(s, p, bound, names, m);
}

/// The hash of a subdirectory entry is the digest of its tree.
proof fn lemma_dir_items_hash(s: Seq<EntryView>, p: Seq<u8>, bound: nat, names: Seq<Seq<u8>>, m: int)
    requires
        0 <= m < names.len(),
        join_path(p, names[m]).len() > p.len(),
        p.len() < bound,
    ensures
        dir_items(s, p, bound, names)[m].hash == tree_digest(s, join_path(p, names[m]), bound),
    decreases names.len(),
{
    lemma_dir_items_char(s, p, bound, names.drop_last());
    if m < names.len() - 1 {
        assert(names.drop_last()[m] == names[m]);
        lemma_dir_items_hash(s, p, bound, names.drop_last(), m);
        assert(dir_items(s, p, bound, names)[m] == dir_items(s, p, bound, names.drop_last())[m]);
    }
}

/// A path below a subdirectory `a` of `prefix` is the path below `prefix`
/// of `a` and what follows it: descending from `prefix/a` lists the same
/// paths as descending from `a` with `prefix` put in front.
pub proof fn lemma_join_path_nested(prefix: Seq<u8>, a: Seq<u8>, b: Seq<u8>)
    requires
        a.len() > 0,
    ensures
        join_path(join_path(prefix, a), b) == join_path(prefix, join_path(a, b)),
{
    if prefix.len() > 0 {
        assert(prefix + seq![47u8] + a + seq![47u8] + b =~= prefix + seq![47u8] + (a + seq![47u8] + b));
    }
}

/// Listing one stored tree under `prefix` gives the entries it gives at
/// the top, each path with `prefix` and a `/` put in front, with the same
/// hashes and the same kinds.
pub proof fn lemma_flatten_under_prefix(top: Seq<FlatItem>, under: Seq<FlatItem>, prefix: Seq<u8>, ts: Seq<TreeItem>)
    requires
        flat_items_for(top, Seq::empty(), ts),
        flat_items_for(under, prefix, ts),
    ensures
        under.len() == top.len(),
        forall|i: int| 0 <= i < under.len() ==> encode_utf8((#[trigger] under[i]).path@) == join_path(prefix, encode_utf8(top[i].path@))
            && under[i].hash@ == top[i].hash@ && under[i].is_tree == top[i].is_tree,
{
    assert forall|i: int| 0 <= i < under.len() implies encode_utf8((#[trigger] under[i]).path@) == join_path(prefix, encode_utf8(top[i].path@))
        && under[i].hash@ == top[i].hash@ && under[i].is_tree == top[i].is_tree by {
        assert(crate::tree::flat_item_for(under[i], prefix, ts[i]));
        assert(crate::tree::flat_item_for(top[i], Seq::empty(), ts[i]));
    }
}

} // verus!
