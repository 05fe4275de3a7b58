//! What holds of the operations of a tree together.
use vstd::prelude::*;

use crate::frag::FragView;
use crate::layout;
use crate::pages;
use crate::pages::FragsView;
use crate::splits;
use crate::tree;
use crate::tree::Tree;

verus! {

/// A value that was stored is found under its key, and what was under the other
/// keys is found as before.
pub proof fn law_get_after_set(before: Tree, after: Tree, key: Seq<u8>, value: Seq<u8>, k: Seq<u8>)
    requires
        after@ == before@.insert(key, value),
    ensures
        tree::entry(after@, key) == Some(value),
        k != key ==> tree::entry(after@, k) == tree::entry(before@, k),
{
}

/// Nothing is found under a key that was taken out, and what was under the
/// other keys is found as before.
pub proof fn law_get_after_del(before: Tree, after: Tree, key: Seq<u8>, k: Seq<u8>)
    requires
        after@ == before@.remove(key),
    ensures
        tree::entry(after@, key) is None,
        k != key ==> tree::entry(after@, k) == tree::entry(before@, k),
{
}

/// Of two values stored under one key the last stays.
pub proof fn law_last_set_stays(
    before: Tree,
    between: Tree,
    after: Tree,
    key: Seq<u8>,
    v: Seq<u8>,
    w: Seq<u8>,
)
    requires
        between@ == before@.insert(key, v),
        after@ == between@.insert(key, w),
    ensures
        after@ == before@.insert(key, w),
{
    assert(after@ =~= before@.insert(key, w));
}

/// It does not matter which of two different keys is set first.
pub proof fn law_sets_commute(
    before: Tree,
    first: Tree,
    second: Tree,
    k: Seq<u8>,
    v: Seq<u8>,
    l: Seq<u8>,
    w: Seq<u8>,
)
    requires
        k != l,
        first@ == before@.insert(k, v).insert(l, w),
        second@ == before@.insert(l, w).insert(k, v),
    ensures
        first@ == second@,
{
    assert(first@ =~= second@);
}

/// Taking out a record that was not there before it was stored gives back the
/// records that were there.
pub proof fn law_del_undoes_set(
    before: Tree,
    between: Tree,
    after: Tree,
    key: Seq<u8>,
    value: Seq<u8>,
)
    requires
        tree::entry(before@, key) is None,
        between@ == before@.insert(key, value),
        after@ == between@.remove(key),
    ensures
        after@ == before@,
{
    assert(after@ =~= before@);
}

/// Taking a record out again changes nothing.
pub proof fn law_del_twice(before: Tree, between: Tree, after: Tree, key: Seq<u8>)
    requires
        between@ == before@.remove(key),
        after@ == between@.remove(key),
    ensures
        tree::entry(between@, key) is None,
        after@ == between@,
{
    assert(after@ =~= between@);
}

/// Of two attempts to replace one value by two others, at most one succeeds,
/// unless the first puts the same value back.
pub proof fn law_cas_succeeds_once(
    before: Tree,
    between: Tree,
    key: Seq<u8>,
    expected: Option<Seq<u8>>,
    new: Seq<u8>,
)
    requires
        expected == tree::entry(before@, key),
        between@ == before@.insert(key, new),
        expected != Some(new),
    ensures
        expected != tree::entry(between@, key),
{
}

/// A path stays usable, whatever is done to the tree after it was taken.
pub proof fn law_paths_stay(before: Tree, after: Tree, path: Seq<FragsView>)
    requires
        before.remembers(path),
        splits::connected(path),
        after.table().extends(before.table()),
    ensures
        after.remembers(path),
        splits::notable(after.table(), path),
{
    assert forall|y: int| 0 <= y < path.len() implies after.table().holds(#[trigger] path[y]) by {
        pages::lemma_extends_holds(after.table(), before.table(), path[y]);
    }
    splits::law_connected_is_notable(after.table(), path);
}

/// A path to a leaf stays one, whatever is done to the tree after it was taken.
/// If each of its pages had a pointer to the next, then every record can be
/// offered to the leaf through it.
pub proof fn law_found_leaf_stays(
    before: Tree,
    after: Tree,
    path: Seq<FragsView>,
    key: Seq<u8>,
    value: Seq<u8>,
)
    requires
        before.finds(path, key),
        after.table().extends(before.table()),
    ensures
        after.finds(path, key),
        splits::connected(path) ==> after.takes_through(path, key, value),
{
    assert forall|y: int| 0 <= y < path.len() implies after.table().holds(#[trigger] path[y]) by {
        pages::lemma_extends_holds(after.table(), before.table(), path[y]);
    }
    if splits::connected(path) {
        let frag = FragView::Put(key, value);
        let new = tree::path_after(path, frag);
        assert forall|y: int, z: int| 0 <= y && z == y + 1 && z < new.len() implies layout::lists(
            (#[trigger] new[y]).node,
            (#[trigger] new[z]).node.id,
        ) by {
            assert(new[y] == path[y]);
            assert(new[z].node.id == path[z].node.id);
        }
        splits::law_connected_is_notable(after.table_after(path, frag), new);
    }
}

/// Of all changes to a leaf that are tried through one path, at most the first
/// goes in: after it the leaf is never again as it was on the path.
pub proof fn law_one_change_per_path(
    before: Tree,
    after: Tree,
    path: Seq<FragsView>,
    key: Seq<u8>,
    frag: FragView,
)
    requires
        before.finds(path, key),
        after.table().extends(before.table_after(path, frag)),
    ensures
        !after.table().current(path.last()),
{
    let pid = path.last().node.id;
    assert(before.table().holds(path[path.len() - 1]));
    let log = before.table_after(path, frag).pages[pid as int].log;
    assert(log.is_prefix_of(after.table().pages[pid as int].log));
}

} // verus!
