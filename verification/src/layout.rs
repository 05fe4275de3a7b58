//! How the pages of a tree are linked: the levels, what each page on a level
//! is responsible for, and what the splits of pages keep.
use vstd::prelude::*;

use crate::bound::BoundView;
use crate::data;
use crate::data::DataView;
use crate::frag::{FragView, ParentSplitView};
use crate::key;
use crate::key::PageID;
use crate::node;
use crate::node::NodeView;

verus! {

/// The pages of a tree: level by level from the top, each level from left to
/// right, and the content of each page.
#[verifier::ext_equal]
pub struct Layout {
    pub levels: Seq<Seq<PageID>>,
    pub nodes: Map<PageID, NodeView>,
}

/// The page holds `value` under `key`.
pub open spec fn holds_record(node: NodeView, key: Seq<u8>, value: Seq<u8>) -> bool {
    node.data is Leaf && node.data->Leaf_0.contains((key, value))
}

/// The page has a pointer to `pid`.
pub open spec fn lists(node: NodeView, pid: PageID) -> bool {
    &&& node.data is Index
    &&& exists|t: int|
        0 <= t < node.data->Index_0.len() && (#[trigger] node.data->Index_0[t]).1 == pid
}

/// Some page holds `value` under `key`.
pub open spec fn stored(nodes: Map<PageID, NodeView>, key: Seq<u8>, value: Seq<u8>) -> bool {
    exists|pid: PageID| #[trigger]
        nodes.contains_key(pid) && holds_record(nodes[pid], key, value)
}

/// Some page has a pointer to `pid`.
pub open spec fn listed(nodes: Map<PageID, NodeView>, pid: PageID) -> bool {
    exists|above: PageID| #[trigger] nodes.contains_key(above) && lists(nodes[above], pid)
}

/// The records in the pages.
pub open spec fn contents(nodes: Map<PageID, NodeView>) -> Map<Seq<u8>, Seq<u8>> {
    Map::new(
        |key: Seq<u8>| exists|value: Seq<u8>| stored(nodes, key, value),
        |key: Seq<u8>| choose|value: Seq<u8>| stored(nodes, key, value),
    )
}

/// The entries of a page are sorted, and all in its range.
pub open spec fn entries_ok(node: NodeView) -> bool {
    &&& node.data.sorted()
    &&& forall|t: int|
        0 <= t < node.data.len() ==> node.covers(#[trigger] node.data.key_at(t))
}

impl Layout {
    /// There is a page at place `i` of level `d`.
    pub open spec fn slot(self, d: int, i: int) -> bool {
        0 <= d < self.levels.len() && 0 <= i < self.levels[d].len()
    }

    /// The page at place `i` of level `d`.
    pub open spec fn pid(self, d: int, i: int) -> PageID {
        self.levels[d][i]
    }

    /// The content of the page at place `i` of level `d`.
    pub open spec fn node(self, d: int, i: int) -> NodeView {
        self.nodes[self.pid(d, i)]
    }

    /// The least key of the page at place `i` of level `d`.
    pub open spec fn lo(self, d: int, i: int) -> Seq<u8> {
        self.node(d, i).lo->Inc_0
    }

    /// The pointer leads to a page of level `d` that begins with its key.
    pub open spec fn leads(self, d: int, pointer: (Seq<u8>, PageID)) -> bool {
        exists|c: int|
            {
                &&& #[trigger] self.slot(d, c)
                &&& self.pid(d, c) == pointer.1
                &&& self.lo(d, c) == pointer.0
            }
    }

    /// The pointers of an index page on level `d` begin with its least key,
    /// and lead to the next level.
    pub open spec fn pointers_ok(self, d: int, node: NodeView) -> bool {
        let ptrs = node.data->Index_0;
        &&& ptrs.len() >= 1
        &&& BoundView::Inc(ptrs[0].0) == node.lo
        &&& forall|t: int| 0 <= t < ptrs.len() ==> self.leads(d + 1, #[trigger] ptrs[t])
    }

    /// The page at place `i` of level `d` is linked to its neighbours, its
    /// range ends where the next one begins, and its entries fit its level.
    pub open spec fn slot_ok(self, d: int, i: int) -> bool {
        let n = self.node(d, i);
        &&& self.nodes.contains_key(self.pid(d, i))
        &&& n.id == self.pid(d, i)
        &&& n.lo is Inc
        &&& i == 0 ==> n.lo == BoundView::Inc(Seq::empty())
        &&& n.hi == (if i + 1 < self.levels[d].len() {
            BoundView::Non(self.lo(d, i + 1))
        } else {
            BoundView::Inf
        })
        &&& n.next == (if i + 1 < self.levels[d].len() {
            Some(self.pid(d, i + 1))
        } else {
            None
        })
        &&& entries_ok(n)
        &&& n.data is Leaf <==> d + 1 == self.levels.len()
        &&& n.data is Index ==> self.pointers_ok(d, n)
    }

    /// Each page in use stands at one place, and each place has a page of its
    /// own.
    pub open spec fn places_ok(self) -> bool {
        &&& forall|d: int, i: int, e: int, j: int|
            #![trigger self.slot(d, i), self.slot(e, j)]
            self.slot(d, i) && self.slot(e, j) && self.pid(d, i) == self.pid(e, j) ==> d == e
                && i == j
        &&& forall|p: PageID| #[trigger]
            self.nodes.contains_key(p) ==> exists|d: int, i: int| #[trigger]
                self.slot(d, i) && self.pid(d, i) == p
    }

    /// On each level the ranges increase from left to right.
    pub open spec fn order_ok(self) -> bool {
        forall|d: int, i: int, j: int|
            #![trigger self.slot(d, i), self.slot(d, j)]
            self.slot(d, i) && self.slot(d, j) && i < j ==> key::key_lt(
                self.lo(d, i),
                self.lo(d, j),
            )
    }

    /// The pages form a B-link tree: on each level, from left to right, the
    /// ranges of the pages make up all keys, each page is linked to the next,
    /// and the pointers of the index pages lead to the level below. A page may
    /// be missing among the pointers above it: it is then found from its left
    /// neighbour.
    pub open spec fn wf(self) -> bool {
        &&& self.levels.len() >= 1
        &&& forall|d: int| 0 <= d < self.levels.len() ==> (#[trigger] self.levels[d]).len() >= 1
        &&& forall|d: int, i: int| #[trigger] self.slot(d, i) ==> self.slot_ok(d, i)
        &&& self.places_ok()
        &&& self.order_ok()
    }

    /// No split is half complete: there is one page on the top level, and
    /// every other page has a pointer to it.
    pub open spec fn settled(self) -> bool {
        self.settled_but(None)
    }

    /// No split is half complete, but perhaps that to `pid`.
    pub open spec fn settled_but(self, pid: Option<PageID>) -> bool {
        &&& forall|i: int| #[trigger]
            self.slot(0, i) ==> i == 0 || Some(self.pid(0, i)) == pid
        &&& forall|d: int, i: int| #[trigger]
            self.slot(d, i) && d >= 1 ==> Some(self.pid(d, i)) == pid || listed(
                self.nodes,
                self.pid(d, i),
            )
    }

    /// The place on level `d` of the page that is responsible for `key`.
    pub open spec fn place(self, d: int, key: Seq<u8>) -> int {
        choose|i: int| #[trigger] self.slot(d, i) && self.node(d, i).covers(key)
    }

    /// The content of the page on level `d` that is responsible for `key`.
    pub open spec fn page_for(self, d: int, key: Seq<u8>) -> NodeView {
        self.node(d, self.place(d, key))
    }

    /// The layout with other content in the page at place `i` of level `d`.
    pub open spec fn replace(self, d: int, i: int, new: NodeView) -> Layout {
        Layout { nodes: self.nodes.insert(self.pid(d, i), new), ..self }
    }

    /// The layout after the page at place `i` of level `d` was split, and `to`
    /// took over its upper part.
    pub open spec fn split(self, d: int, i: int, to: PageID) -> Layout {
        Layout {
            levels: self.levels.update(d, self.levels[d].insert(i + 1, to)),
            nodes: self.nodes.insert(to, self.node(d, i).split_right(to)).insert(
                self.pid(d, i),
                self.node(d, i).split_left(to),
            ),
        }
    }

    /// The layout after a change to the leaf that is responsible for `key`.
    pub open spec fn change(self, key: Seq<u8>, frag: FragView) -> Layout {
        let d = self.levels.len() - 1;
        self.replace(d, self.place(d, key), self.page_for(d, key).apply(frag))
    }

    /// The level and the place of a page.
    pub open spec fn place_of(self, pid: PageID) -> (int, int) {
        choose|d: int, i: int| #[trigger] self.slot(d, i) && self.pid(d, i) == pid
    }

    /// The note that the page at place `i` of level `d` was split, and that
    /// its right neighbour took over its upper part.
    pub open spec fn split_note(self, d: int, i: int) -> ParentSplitView {
        ParentSplitView {
            at: BoundView::Inc(self.lo(d, i + 1)),
            to: self.pid(d, i + 1),
            from: self.pid(d, i),
        }
    }

    /// The layout with a new top level of one page.
    pub open spec fn hoist(self, root: PageID, node: NodeView) -> Layout {
        Layout {
            levels: seq![seq![root]] + self.levels,
            nodes: self.nodes.insert(root, node),
        }
    }
}

/// From a page that is not beyond `key`, the page responsible for `key` is
/// found on the same level by going to the right.
pub proof fn law_found_to_the_right(layout: Layout, d: int, i: int, key: Seq<u8>)
    requires
        layout.wf(),
        layout.slot(d, i),
        !key::key_lt(key, layout.lo(d, i)),
    ensures
        exists|j: int| i <= j && #[trigger] layout.slot(d, j) && layout.node(d, j).covers(key),
    decreases layout.levels[d].len() - i,
{
    assert(layout.slot_ok(d, i));
    if layout.node(d, i).covers(key) {
        assert(layout.slot(d, i));
    } else {
        assert(layout.slot(d, i + 1));
        law_found_to_the_right(layout, d, i + 1, key);
    }
}

/// On every level just one page is responsible for a key.
pub proof fn law_one_page_for_each_key(layout: Layout, d: int, key: Seq<u8>)
    requires
        layout.wf(),
        0 <= d < layout.levels.len(),
    ensures
        layout.slot(d, layout.place(d, key)),
        layout.page_for(d, key).covers(key),
        forall|i: int| #[trigger]
            layout.slot(d, i) && layout.node(d, i).covers(key) ==> i == layout.place(d, key),
{
    assert(layout.levels[d].len() >= 1);
    assert(layout.slot(d, 0));
    assert(layout.slot_ok(d, 0));
    key::lemma_empty_key_least(key);
    law_found_to_the_right(layout, d, 0, key);
    let p = layout.place(d, key);
    assert forall|i: int| #[trigger]
        layout.slot(d, i) && layout.node(d, i).covers(key) implies i == p by {
        lemma_covers_unique(layout, d, i, p, key);
    }
}

/// Two pages of a level that are responsible for one key are the same.
proof fn lemma_covers_unique(layout: Layout, d: int, i: int, j: int, key: Seq<u8>)
    requires
        layout.wf(),
        layout.slot(d, i),
        layout.slot(d, j),
        layout.node(d, i).covers(key),
        layout.node(d, j).covers(key),
    ensures
        i == j,
{
    broadcast use crate::key::group_key_order;

    assert(layout.slot_ok(d, i));
    assert(layout.slot_ok(d, j));
    if i < j {
        assert(layout.slot(d, i + 1));
    } else if j < i {
        assert(layout.slot(d, j + 1));
    }
}

/// What the pages hold under a key is what the leaf that is responsible for it
/// holds.
pub proof fn lemma_stored(layout: Layout, key: Seq<u8>, value: Seq<u8>)
    requires
        layout.wf(),
    ensures
        stored(layout.nodes, key, value) <==> holds_record(
            layout.page_for(layout.levels.len() - 1, key),
            key,
            value,
        ),
{
    let d = layout.levels.len() - 1;
    law_one_page_for_each_key(layout, d, key);
    let p = layout.place(d, key);
    assert(layout.slot_ok(d, p));
    if stored(layout.nodes, key, value) {
        let pid = choose|pid: PageID| #[trigger]
            layout.nodes.contains_key(pid) && holds_record(layout.nodes[pid], key, value);
        let (e, i) = choose|e: int, i: int| #[trigger]
            layout.slot(e, i) && layout.pid(e, i) == pid;
        assert(layout.slot_ok(e, i));
        let items = layout.node(e, i).data->Leaf_0;
        let t = choose|t: int| 0 <= t < items.len() && items[t] == (key, value);
        assert(layout.node(e, i).data.key_at(t) == key);
        assert(layout.node(e, i).covers(key));
    }
}

/// What a tree holds under a key is what a search finds in the leaf that is
/// responsible for it.
pub proof fn law_contents_at_leaf(layout: Layout, key: Seq<u8>)
    requires
        layout.wf(),
    ensures
        layout.page_for(layout.levels.len() - 1, key).data is Leaf,
        contents(layout.nodes).contains_key(key) <==> data::lookup(
            layout.page_for(layout.levels.len() - 1, key).data->Leaf_0,
            key,
        ) is Some,
        contents(layout.nodes).contains_key(key) ==> data::lookup(
            layout.page_for(layout.levels.len() - 1, key).data->Leaf_0,
            key,
        ) == Some(contents(layout.nodes)[key]),
{
    let d = layout.levels.len() - 1;
    law_one_page_for_each_key(layout, d, key);
    assert(layout.slot_ok(d, layout.place(d, key)));
    let leaf = layout.page_for(d, key);
    let items = leaf.data->Leaf_0;
    let found = data::lookup(items, key);
    if found is Some {
        data::lemma_lookup_contains(items, key, found->0);
        lemma_stored(layout, key, found->0);
    }
    if contents(layout.nodes).contains_key(key) {
        let value = contents(layout.nodes)[key];
        assert(stored(layout.nodes, key, value));
        lemma_stored(layout, key, value);
        data::lemma_lookup_contains(items, key, value);
    }
}

/// New entries that suit the range and the level of a page keep the tree well
/// formed.
pub proof fn lemma_replace(layout: Layout, d: int, i: int, new: NodeView)
    requires
        layout.wf(),
        layout.slot(d, i),
        new == (NodeView { data: new.data, ..layout.node(d, i) }),
        entries_ok(new),
        new.data is Leaf <==> d + 1 == layout.levels.len(),
        new.data is Index ==> layout.pointers_ok(d, new),
    ensures
        layout.replace(d, i, new).wf(),
{
    let after = layout.replace(d, i, new);
    let p = layout.pid(d, i);
    assert(layout.slot_ok(d, i));
    assert forall|e: int, j: int| #[trigger] after.slot(e, j) implies {
        &&& layout.slot(e, j)
        &&& after.pid(e, j) == layout.pid(e, j)
        &&& after.lo(e, j) == layout.lo(e, j)
        &&& (e == d && j == i) ==> after.node(e, j) == new
        &&& !(e == d && j == i) ==> after.node(e, j) == layout.node(e, j)
    } by {
        assert(layout.slot(e, j));
    }
    assert forall|e: int, ptr: (Seq<u8>, PageID)| layout.leads(e, ptr) implies #[trigger]
        after.leads(e, ptr) by {
        let c = choose|c: int|
            {
                &&& #[trigger] layout.slot(e, c)
                &&& layout.pid(e, c) == ptr.1
                &&& layout.lo(e, c) == ptr.0
            };
        assert(after.slot(e, c));
    }
    assert forall|e: int, j: int| #[trigger] after.slot(e, j) implies after.slot_ok(e, j) by {
        assert(layout.slot(e, j));
        assert(layout.slot_ok(e, j));
        if j + 1 < layout.levels[e].len() {
            assert(after.slot(e, j + 1));
        }
    }
    assert(after.places_ok()) by {
        assert forall|d1: int, i1: int, e1: int, j1: int|
            #![trigger after.slot(d1, i1), after.slot(e1, j1)]
            after.slot(d1, i1) && after.slot(e1, j1) && after.pid(d1, i1) == after.pid(
                e1,
                j1,
            ) implies d1 == e1 && i1 == j1 by {
            assert(layout.slot(d1, i1) && layout.slot(e1, j1));
        }
        assert forall|q: PageID| #[trigger] after.nodes.contains_key(q) implies exists|
            e: int,
            j: int,
        | #[trigger] after.slot(e, j) && after.pid(e, j) == q by {
            assert(layout.nodes.contains_key(q));
            let (e, j) = choose|e: int, j: int| #[trigger]
                layout.slot(e, j) && layout.pid(e, j) == q;
            assert(after.slot(e, j));
        }
    }
    assert(after.order_ok()) by {
        assert forall|e: int, a: int, b: int|
            #![trigger after.slot(e, a), after.slot(e, b)]
            after.slot(e, a) && after.slot(e, b) && a < b implies key::key_lt(
            after.lo(e, a),
            after.lo(e, b),
        ) by {
            assert(layout.slot(e, a) && layout.slot(e, b));
        }
    }
}

/// The key at which a page is split lies within its range, above its least
/// key, and parts its entries.
pub proof fn lemma_split_key(n: NodeView)
    requires
        entries_ok(n),
        n.lo is Inc,
        n.should_split(),
    ensures
        key::key_lt(n.lo->Inc_0, n.split_key()),
        n.covers(n.split_key()),
        forall|t: int|
            0 <= t < data::split_point(n.data.len() as int) ==> key::key_lt(
                #[trigger] n.data.key_at(t),
                n.split_key(),
            ),
        forall|t: int|
            data::split_point(n.data.len() as int) <= t < n.data.len() ==> !key::key_lt(
                #[trigger] n.data.key_at(t),
                n.split_key(),
            ),
{
    broadcast use crate::key::group_key_order;

    let m = data::split_point(n.data.len() as int);
    assert(n.covers(n.data.key_at(m)));
    assert(n.covers(n.data.key_at(0)));
    assert forall|a: int, b: int| 0 <= a < b < n.data.len() implies key::key_lt(
        #[trigger] n.data.key_at(a),
        #[trigger] n.data.key_at(b),
    ) by {
        match n.data {
            DataView::Index(ptrs) => {
                assert(key::key_lt(ptrs[a].0, ptrs[b].0));
            },
            DataView::Leaf(items) => {
                assert(key::key_lt(items[a].0, items[b].0));
            },
        }
    }
    assert(key::key_lt(n.data.key_at(0), n.data.key_at(m)));
}

/// The two parts of a split page have its entries between them, each in the
/// range of its part.
pub proof fn lemma_split_entries(n: NodeView, to: PageID)
    requires
        entries_ok(n),
        n.lo is Inc,
        n.should_split(),
    ensures
        entries_ok(n.split_left(to)),
        entries_ok(n.split_right(to)),
        n.data is Index ==> n.data->Index_0 == n.split_left(to).data->Index_0 + n.split_right(
            to,
        ).data->Index_0,
        n.data is Leaf ==> n.data->Leaf_0 == n.split_left(to).data->Leaf_0 + n.split_right(
            to,
        ).data->Leaf_0,
{
    broadcast use crate::key::group_key_order;

    lemma_split_key(n);
    let m = data::split_point(n.data.len() as int);
    let left = n.split_left(to);
    let right = n.split_right(to);
    match n.data {
        DataView::Index(ptrs) => {
            assert(ptrs =~= ptrs.take(m) + ptrs.skip(m));
        },
        DataView::Leaf(items) => {
            assert(items =~= items.take(m) + items.skip(m));
        },
    }
    assert forall|t: int| 0 <= t < left.data.len() implies left.covers(
        #[trigger] left.data.key_at(t),
    ) by {
        assert(left.data.key_at(t) == n.data.key_at(t));
        assert(n.covers(n.data.key_at(t)));
    }
    assert forall|t: int| 0 <= t < right.data.len() implies right.covers(
        #[trigger] right.data.key_at(t),
    ) by {
        assert(right.data.key_at(t) == n.data.key_at(t + m));
        assert(n.covers(n.data.key_at(t + m)));
    }
}

/// Where the pages stand after a split.
proof fn lemma_split_slots(layout: Layout, d: int, i: int, to: PageID)
    requires
        layout.wf(),
        layout.slot(d, i),
        !layout.nodes.contains_key(to),
        layout.node(d, i).should_split(),
    ensures
        ({
            let after = layout.split(d, i, to);
            &&& forall|e: int, j: int| #[trigger]
                after.slot(e, j) ==> {
                    let k = if e == d && j > i {
                        j - 1
                    } else {
                        j
                    };
                    &&& layout.slot(e, k)
                    &&& e == d && j == i ==> after.pid(e, j) == layout.pid(d, i) && after.node(
                        e,
                        j,
                    ) == layout.node(d, i).split_left(to)
                    &&& e == d && j == i + 1 ==> after.pid(e, j) == to && after.node(e, j)
                        == layout.node(d, i).split_right(to)
                    &&& !(e == d && (j == i || j == i + 1)) ==> after.pid(e, j) == layout.pid(
                        e,
                        k,
                    ) && after.node(e, j) == layout.node(e, k)
                }
            &&& forall|e: int, j: int| #[trigger]
                layout.slot(e, j) ==> after.slot(
                    e,
                    if e == d && j > i {
                        j + 1
                    } else {
                        j
                    },
                )
        }),
{
    let after = layout.split(d, i, to);
    let row = layout.levels[d];
    assert(layout.slot_ok(d, i));
    row.insert_ensures(i + 1, to);
    assert forall|e: int, j: int| #[trigger] after.slot(e, j) implies {
        let k = if e == d && j > i {
            j - 1
        } else {
            j
        };
        &&& layout.slot(e, k)
        &&& e == d && j == i ==> after.pid(e, j) == layout.pid(d, i) && after.node(e, j)
            == layout.node(d, i).split_left(to)
        &&& e == d && j == i + 1 ==> after.pid(e, j) == to && after.node(e, j) == layout.node(
            d,
            i,
        ).split_right(to)
        &&& !(e == d && (j == i || j == i + 1)) ==> after.pid(e, j) == layout.pid(e, k)
            && after.node(e, j) == layout.node(e, k)
    } by {
        let k = if e == d && j > i {
            j - 1
        } else {
            j
        };
        assert(layout.slot(e, k));
        assert(layout.slot_ok(e, k));
    }
    assert forall|e: int, j: int| #[trigger] layout.slot(e, j) implies after.slot(
        e,
        if e == d && j > i {
            j + 1
        } else {
            j
        },
    ) by {}
}

/// Pointers lead where they led before a split.
proof fn lemma_split_leads(layout: Layout, d: int, i: int, to: PageID)
    requires
        layout.wf(),
        layout.slot(d, i),
        !layout.nodes.contains_key(to),
        layout.node(d, i).should_split(),
    ensures
        forall|e: int, ptr: (Seq<u8>, PageID)|
            layout.leads(e, ptr) ==> #[trigger] layout.split(d, i, to).leads(e, ptr),
{
    let after = layout.split(d, i, to);
    lemma_split_slots(layout, d, i, to);
    assert forall|e: int, ptr: (Seq<u8>, PageID)| layout.leads(e, ptr) implies #[trigger]
        after.leads(e, ptr) by {
        let c = choose|c: int|
            {
                &&& #[trigger] layout.slot(e, c)
                &&& layout.pid(e, c) == ptr.1
                &&& layout.lo(e, c) == ptr.0
            };
        let k = if e == d && c > i {
            c + 1
        } else {
            c
        };
        assert(after.slot(e, k));
        assert(after.pid(e, k) == ptr.1);
        assert(after.lo(e, k) == ptr.0);
    }
}

/// The two parts of a split page are linked as they should be.
proof fn lemma_split_halves_ok(layout: Layout, d: int, i: int, to: PageID)
    requires
        layout.wf(),
        layout.slot(d, i),
        !layout.nodes.contains_key(to),
        layout.node(d, i).should_split(),
    ensures
        layout.split(d, i, to).slot_ok(d, i),
        layout.split(d, i, to).slot_ok(d, i + 1),
{
    let after = layout.split(d, i, to);
    let n = layout.node(d, i);
    assert(layout.slot_ok(d, i));
    lemma_split_slots(layout, d, i, to);
    lemma_split_leads(layout, d, i, to);
    lemma_split_entries(n, to);
    assert(after.slot(d, i));
    assert(after.slot(d, i + 1));
    if i + 1 < layout.levels[d].len() {
        assert(layout.slot(d, i + 1));
        assert(after.slot(d, i + 2));
    }
    if n.data is Index {
        let m = data::split_point(n.data.len() as int);
        let ptrs = n.data->Index_0;
        let left = after.node(d, i);
        let right = after.node(d, i + 1);
        assert forall|t: int| 0 <= t < left.data->Index_0.len() implies after.leads(
            d + 1,
            #[trigger] left.data->Index_0[t],
        ) by {
            assert(left.data->Index_0[t] == ptrs[t]);
        }
        assert forall|t: int| 0 <= t < right.data->Index_0.len() implies after.leads(
            d + 1,
            #[trigger] right.data->Index_0[t],
        ) by {
            assert(right.data->Index_0[t] == ptrs[t + m]);
        }
    }
}

/// The pages that were not split are linked as they should be.
proof fn lemma_split_others_ok(layout: Layout, d: int, i: int, to: PageID, e: int, j: int)
    requires
        layout.wf(),
        layout.slot(d, i),
        !layout.nodes.contains_key(to),
        layout.node(d, i).should_split(),
        layout.split(d, i, to).slot(e, j),
        !(e == d && (j == i || j == i + 1)),
    ensures
        layout.split(d, i, to).slot_ok(e, j),
{
    let after = layout.split(d, i, to);
    lemma_split_slots(layout, d, i, to);
    lemma_split_leads(layout, d, i, to);
    let k = if e == d && j > i {
        j - 1
    } else {
        j
    };
    assert(layout.slot(e, k));
    assert(layout.slot_ok(e, k));
    if j + 1 < after.levels[e].len() {
        assert(after.slot(e, j + 1));
        assert(layout.slot(e, k + 1));
        assert(after.pid(e, j + 1) == layout.pid(e, k + 1));
        assert(after.lo(e, j + 1) == layout.lo(e, k + 1));
    }
    let n = after.node(e, j);
    if n.data is Index {
        assert forall|t: int| 0 <= t < n.data->Index_0.len() implies after.leads(
            e + 1,
            #[trigger] n.data->Index_0[t],
        ) by {
            assert(layout.leads(e + 1, n.data->Index_0[t]));
        }
    }
}

/// After a split each page stands at one place.
proof fn lemma_split_places(layout: Layout, d: int, i: int, to: PageID)
    requires
        layout.wf(),
        layout.slot(d, i),
        !layout.nodes.contains_key(to),
        layout.node(d, i).should_split(),
    ensures
        layout.split(d, i, to).places_ok(),
{
    let after = layout.split(d, i, to);
    lemma_split_slots(layout, d, i, to);
    assert forall|d1: int, i1: int, e1: int, j1: int|
        #![trigger after.slot(d1, i1), after.slot(e1, j1)]
        after.slot(d1, i1) && after.slot(e1, j1) && after.pid(d1, i1) == after.pid(
            e1,
            j1,
        ) implies d1 == e1 && i1 == j1 by {
        let k1 = if d1 == d && i1 > i {
            i1 - 1
        } else {
            i1
        };
        let k2 = if e1 == d && j1 > i {
            j1 - 1
        } else {
            j1
        };
        assert(layout.slot(d1, k1) && layout.slot(e1, k2));
        assert(layout.slot_ok(d1, k1) && layout.slot_ok(e1, k2));
    }
    assert forall|q: PageID| #[trigger] after.nodes.contains_key(q) implies exists|
        e: int,
        j: int,
    | #[trigger] after.slot(e, j) && after.pid(e, j) == q by {
        if q == to {
            assert(after.slot(d, i + 1));
        } else {
            assert(layout.slot_ok(d, i));
            assert(layout.nodes.contains_key(q));
            let (e, j) = choose|e: int, j: int| #[trigger]
                layout.slot(e, j) && layout.pid(e, j) == q;
            assert(after.slot(
                e,
                if e == d && j > i {
                    j + 1
                } else {
                    j
                },
            ));
        }
    }
}

/// After a split the ranges still increase from left to right.
proof fn lemma_split_order(layout: Layout, d: int, i: int, to: PageID)
    requires
        layout.wf(),
        layout.slot(d, i),
        !layout.nodes.contains_key(to),
        layout.node(d, i).should_split(),
    ensures
        layout.split(d, i, to).order_ok(),
{
    let after = layout.split(d, i, to);
    let n = layout.node(d, i);
    assert(layout.slot_ok(d, i));
    lemma_split_slots(layout, d, i, to);
    lemma_split_key(n);
    assert forall|e: int, a: int, b: int|
        #![trigger after.slot(e, a), after.slot(e, b)]
        after.slot(e, a) && after.slot(e, b) && a < b implies key::key_lt(
        after.lo(e, a),
        after.lo(e, b),
    ) by {
        let k1 = if e == d && a > i {
            a - 1
        } else {
            a
        };
        let k2 = if e == d && b > i {
            b - 1
        } else {
            b
        };
        assert(layout.slot(e, k1) && layout.slot(e, k2));
        if e == d && a == i + 1 {
            assert(layout.slot(d, i + 1));
            if i + 1 < k2 {
                key::lemma_key_lt_transitive(n.split_key(), layout.lo(d, i + 1), layout.lo(d, k2));
            }
        } else if e == d && b == i + 1 {
            if a < i {
                key::lemma_key_lt_transitive(layout.lo(d, a), layout.lo(d, i), n.split_key());
            }
        }
    }
}

/// Splitting a page keeps the tree well formed, though nothing leads to the new
/// page but its left neighbour.
pub proof fn lemma_split(layout: Layout, d: int, i: int, to: PageID)
    requires
        layout.wf(),
        layout.slot(d, i),
        !layout.nodes.contains_key(to),
        layout.node(d, i).should_split(),
    ensures
        layout.split(d, i, to).wf(),
{
    let after = layout.split(d, i, to);
    assert forall|e: int| 0 <= e < after.levels.len() implies (
    #[trigger] after.levels[e]).len() >= 1 by {
        assert(layout.levels[e].len() >= 1);
    }
    assert forall|e: int, j: int| #[trigger] after.slot(e, j) implies after.slot_ok(e, j) by {
        if e == d && (j == i || j == i + 1) {
            lemma_split_halves_ok(layout, d, i, to);
        } else {
            lemma_split_others_ok(layout, d, i, to, e, j);
        }
    }
    lemma_split_places(layout, d, i, to);
    lemma_split_order(layout, d, i, to);
}

/// A pointer of a split page is in one of its parts, and the parts have no
/// others.
pub proof fn lemma_split_lists(n: NodeView, to: PageID, pid: PageID)
    requires
        entries_ok(n),
        n.lo is Inc,
        n.should_split(),
    ensures
        lists(n, pid) <==> lists(n.split_left(to), pid) || lists(n.split_right(to), pid),
{
    lemma_split_entries(n, to);
    let m = data::split_point(n.data.len() as int);
    if n.data is Index {
        let ptrs = n.data->Index_0;
        let left = n.split_left(to).data->Index_0;
        let right = n.split_right(to).data->Index_0;
        if lists(n, pid) {
            let t = choose|t: int| 0 <= t < ptrs.len() && (#[trigger] ptrs[t]).1 == pid;
            if t < m {
                assert(left[t].1 == pid);
            } else {
                assert(right[t - m].1 == pid);
            }
        }
        if lists(n.split_left(to), pid) {
            let t = choose|t: int| 0 <= t < left.len() && (#[trigger] left[t]).1 == pid;
            assert(ptrs[t].1 == pid);
        }
        if lists(n.split_right(to), pid) {
            let t = choose|t: int| 0 <= t < right.len() && (#[trigger] right[t]).1 == pid;
            assert(ptrs[t + m].1 == pid);
        }
    }
}

/// A record of a split page is in one of its parts, and the parts have no
/// others.
pub proof fn lemma_split_records(n: NodeView, to: PageID, key: Seq<u8>, value: Seq<u8>)
    requires
        entries_ok(n),
        n.lo is Inc,
        n.should_split(),
    ensures
        holds_record(n, key, value) <==> holds_record(n.split_left(to), key, value)
            || holds_record(n.split_right(to), key, value),
{
    lemma_split_entries(n, to);
    let m = data::split_point(n.data.len() as int);
    if n.data is Leaf {
        let items = n.data->Leaf_0;
        let left = n.split_left(to).data->Leaf_0;
        let right = n.split_right(to).data->Leaf_0;
        if items.contains((key, value)) {
            let t = choose|t: int| 0 <= t < items.len() && items[t] == (key, value);
            if t < m {
                assert(left[t] == (key, value));
            } else {
                assert(right[t - m] == (key, value));
            }
        }
        if left.contains((key, value)) {
            let t = choose|t: int| 0 <= t < left.len() && left[t] == (key, value);
            assert(items[t] == (key, value));
        }
        if right.contains((key, value)) {
            let t = choose|t: int| 0 <= t < right.len() && right[t] == (key, value);
            assert(items[t + m] == (key, value));
        }
    }
}

/// The pages of a tree hold one value under a key at most.
pub proof fn lemma_one_value(layout: Layout, key: Seq<u8>, v: Seq<u8>, w: Seq<u8>)
    requires
        layout.wf(),
        stored(layout.nodes, key, v),
        stored(layout.nodes, key, w),
    ensures
        v == w,
{
    let d = layout.levels.len() - 1;
    law_one_page_for_each_key(layout, d, key);
    assert(layout.slot_ok(d, layout.place(d, key)));
    let items = layout.page_for(d, key).data->Leaf_0;
    lemma_stored(layout, key, v);
    lemma_stored(layout, key, w);
    data::lemma_lookup_contains(items, key, v);
    data::lemma_lookup_contains(items, key, w);
}

/// What the pages of a tree hold is settled by which records they hold.
pub proof fn lemma_same_contents(layout: Layout, b: Map<PageID, NodeView>)
    requires
        layout.wf(),
        forall|key: Seq<u8>, value: Seq<u8>|
            stored(layout.nodes, key, value) <==> stored(b, key, value),
    ensures
        contents(layout.nodes) == contents(b),
{
    let a = layout.nodes;
    assert forall|key: Seq<u8>| #[trigger]
        contents(a).contains_key(key) <==> contents(b).contains_key(key) by {
        if contents(a).contains_key(key) {
            let value = choose|value: Seq<u8>| stored(a, key, value);
            assert(stored(b, key, value));
        }
        if contents(b).contains_key(key) {
            let value = choose|value: Seq<u8>| stored(b, key, value);
            assert(stored(a, key, value));
        }
    }
    assert forall|key: Seq<u8>| #[trigger] contents(a).contains_key(key) implies contents(a)[key]
        == contents(b)[key] by {
        assert(stored(a, key, contents(a)[key]));
        assert(stored(b, key, contents(b)[key]));
        lemma_one_value(layout, key, contents(a)[key], contents(b)[key]);
    }
    assert(contents(a) =~= contents(b));
}

/// Splitting a page loses no record and adds none, though nothing leads to the
/// new page yet but its left neighbour.
pub proof fn law_split_keeps_contents(layout: Layout, d: int, i: int, to: PageID)
    requires
        layout.wf(),
        layout.slot(d, i),
        !layout.nodes.contains_key(to),
        layout.node(d, i).should_split(),
    ensures
        layout.split(d, i, to).wf(),
        contents(layout.split(d, i, to).nodes) == contents(layout.nodes),
{
    lemma_split(layout, d, i, to);
    let after = layout.split(d, i, to);
    let n = layout.node(d, i);
    let p = layout.pid(d, i);
    assert(layout.slot_ok(d, i));
    assert forall|key: Seq<u8>, value: Seq<u8>| stored(layout.nodes, key, value) <==> stored(
        after.nodes,
        key,
        value,
    ) by {
        lemma_split_records(n, to, key, value);
        if stored(layout.nodes, key, value) {
            let q = choose|q: PageID| #[trigger]
                layout.nodes.contains_key(q) && holds_record(layout.nodes[q], key, value);
            assert(after.nodes.contains_key(q));
            assert(after.nodes.contains_key(to));
        }
        if stored(after.nodes, key, value) {
            let q = choose|q: PageID| #[trigger]
                after.nodes.contains_key(q) && holds_record(after.nodes[q], key, value);
            assert(layout.nodes.contains_key(p));
            assert(q != p && q != to ==> layout.nodes.contains_key(q));
        }
    }
    lemma_same_contents(layout, after.nodes);
}

/// After a split no other page than the new one has lost its pointers, and
/// the new one has none.
pub proof fn lemma_split_settled(layout: Layout, d: int, i: int, to: PageID)
    requires
        layout.wf(),
        layout.slot(d, i),
        !layout.nodes.contains_key(to),
        layout.node(d, i).should_split(),
    ensures
        !listed(layout.split(d, i, to).nodes, to),
        layout.settled() ==> layout.split(d, i, to).settled_but(Some(to)),
{
    let after = layout.split(d, i, to);
    let n = layout.node(d, i);
    let p = layout.pid(d, i);
    assert(layout.slot_ok(d, i));
    lemma_split_slots(layout, d, i, to);
    if listed(after.nodes, to) {
        lemma_split_lists(n, to, to);
        let q = choose|q: PageID| #[trigger]
            after.nodes.contains_key(q) && lists(after.nodes[q], to);
        let r = if q == to {
            p
        } else {
            q
        };
        assert(layout.nodes.contains_key(r) && lists(layout.nodes[r], to));
        let (e, j) = choose|e: int, j: int| #[trigger]
            layout.slot(e, j) && layout.pid(e, j) == r;
        assert(layout.slot_ok(e, j));
        let ptrs = layout.node(e, j).data->Index_0;
        let t = choose|t: int| 0 <= t < ptrs.len() && (#[trigger] ptrs[t]).1 == to;
        assert(layout.leads(e + 1, ptrs[t]));
        let c = choose|c: int|
            {
                &&& #[trigger] layout.slot(e + 1, c)
                &&& layout.pid(e + 1, c) == ptrs[t].1
                &&& layout.lo(e + 1, c) == ptrs[t].0
            };
        assert(layout.slot_ok(e + 1, c));
    }
    if layout.settled() {
        assert forall|e: int, j: int| #[trigger]
            after.slot(e, j) && e >= 1 implies Some(after.pid(e, j)) == Some(to) || listed(
            after.nodes,
            after.pid(e, j),
        ) by {
            let pid = after.pid(e, j);
            if pid != to {
                let k = if e == d && j > i {
                    j - 1
                } else {
                    j
                };
                assert(layout.slot(e, k));
                assert(listed(layout.nodes, pid));
                let q = choose|q: PageID| #[trigger]
                    layout.nodes.contains_key(q) && lists(layout.nodes[q], pid);
                lemma_split_lists(n, to, pid);
                assert(after.nodes.contains_key(q));
                assert(after.nodes.contains_key(to));
            }
        }
        assert forall|j: int| #[trigger] after.slot(0, j) implies j == 0 || Some(after.pid(0, j))
            == Some(to) by {
            if j > 0 {
                let k = if 0 == d && j > i {
                    j - 1
                } else {
                    j
                };
                assert(layout.slot(0, k));
            }
        }
    }
}

/// A scan of pointers stops at the first that leads to `from`, where those
/// before it are all before `at`.
proof fn lemma_scan_to(
    ptrs: Seq<(Seq<u8>, PageID)>,
    from: PageID,
    at: BoundView,
    i: int,
    t: int,
)
    requires
        0 <= i <= t < ptrs.len(),
        ptrs[t].1 == from,
        forall|s: int|
            i <= s < t ==> (#[trigger] ptrs[s]).1 != from && BoundView::Inc(ptrs[s].0).lt(at),
    ensures
        node::scan_pointers(ptrs, from, at, i) == t,
    decreases t - i,
{
    if i < t {
        assert(ptrs[i].1 != from);
        lemma_scan_to(ptrs, from, at, i + 1, t);
    }
}

/// Where the pointer to a page leads: to that page, with its least key.
proof fn lemma_pointer(layout: Layout, d: int, j: int, i: int, t: int)
    requires
        layout.wf(),
        layout.slot(d, j),
        layout.node(d, j).data is Index,
        layout.slot(d + 1, i),
        0 <= t < layout.node(d, j).data->Index_0.len(),
    ensures
        layout.node(d, j).data->Index_0[t].1 == layout.pid(d + 1, i) <==> layout.node(
            d,
            j,
        ).data->Index_0[t].0 == layout.lo(d + 1, i),
{
    broadcast use crate::key::group_key_order;

    assert(layout.slot_ok(d, j));
    let ptr = layout.node(d, j).data->Index_0[t];
    assert(layout.leads(d + 1, ptr));
    let c = choose|c: int|
        {
            &&& #[trigger] layout.slot(d + 1, c)
            &&& layout.pid(d + 1, c) == ptr.1
            &&& layout.lo(d + 1, c) == ptr.0
        };
    if c < i {
        assert(key::key_lt(layout.lo(d + 1, c), layout.lo(d + 1, i)));
    } else if i < c {
        assert(key::key_lt(layout.lo(d + 1, i), layout.lo(d + 1, c)));
    }
}

/// A page that has a pointer to the page at place `i` of the next level, and
/// none to its right neighbour, is responsible for the least key of the right
/// neighbour too, where nothing else leads to that.
proof fn lemma_neighbour_in_range(layout: Layout, d: int, j: int, i: int)
    requires
        layout.wf(),
        layout.slot(d, j),
        layout.slot(d + 1, i),
        layout.slot(d + 1, i + 1),
        lists(layout.node(d, j), layout.pid(d + 1, i)),
        !listed(layout.nodes, layout.pid(d + 1, i + 1)),
    ensures
        layout.node(d, j).covers(layout.lo(d + 1, i + 1)),
{
    broadcast use crate::key::group_key_order;

    let n = layout.node(d, j);
    let at = layout.lo(d + 1, i + 1);
    assert(layout.slot_ok(d, j));
    let ptrs = n.data->Index_0;
    let t = choose|t: int|
        0 <= t < ptrs.len() && (#[trigger] ptrs[t]).1 == layout.pid(d + 1, i);
    lemma_pointer(layout, d, j, i, t);
    assert(n.covers(n.data.key_at(t)));
    assert(key::key_lt(layout.lo(d + 1, i), at));
    if j + 1 < layout.levels[d].len() {
        assert(layout.slot(d, j + 1));
        assert(layout.slot_ok(d, j + 1));
        let right = layout.node(d, j + 1);
        let first = right.data->Index_0[0];
        assert(layout.leads(d + 1, first));
        let c = choose|c: int|
            {
                &&& #[trigger] layout.slot(d + 1, c)
                &&& layout.pid(d + 1, c) == first.1
                &&& layout.lo(d + 1, c) == first.0
            };
        assert(layout.lo(d + 1, c) == layout.lo(d, j + 1));
        assert(key::key_lt(layout.lo(d + 1, i), layout.lo(d + 1, c)));
        if c <= i {
            if c < i {
                assert(key::key_lt(layout.lo(d + 1, c), layout.lo(d + 1, i)));
            }
            assert(false);
        }
        if c == i + 1 {
            assert(lists(right, layout.pid(d + 1, i + 1)));
            assert(layout.nodes.contains_key(layout.pid(d, j + 1)));
            assert(false);
        }
        assert(key::key_lt(at, layout.lo(d + 1, c)));
    }
}

/// What noting a split does to the pointers of the page above.
proof fn lemma_with_split(layout: Layout, d: int, j: int, i: int)
    requires
        layout.wf(),
        layout.slot(d, j),
        layout.slot(d + 1, i),
        layout.slot(d + 1, i + 1),
        lists(layout.node(d, j), layout.pid(d + 1, i)),
        !listed(layout.nodes, layout.pid(d + 1, i + 1)),
    ensures
        ({
            let n = layout.node(d, j);
            let split = layout.split_note(d + 1, i);
            let ptrs = n.data->Index_0;
            &&& n.accepts_split(split)
            &&& data::rank(ptrs, layout.lo(d + 1, i + 1)) >= 1
            &&& data::lookup(ptrs, layout.lo(d + 1, i + 1)) is None
            &&& node::with_split(ptrs, split) == data::with_entry(
                ptrs,
                layout.lo(d + 1, i + 1),
                split.to,
            )
        }),
{
    broadcast use crate::key::group_key_order;

    let n = layout.node(d, j);
    let at = layout.lo(d + 1, i + 1);
    let split = layout.split_note(d + 1, i);
    let ptrs = n.data->Index_0;
    assert(layout.slot_ok(d, j));
    assert(layout.slot_ok(d + 1, i + 1));
    let t = choose|t: int|
        0 <= t < ptrs.len() && (#[trigger] ptrs[t]).1 == layout.pid(d + 1, i);
    lemma_pointer(layout, d, j, i, t);
    assert(key::key_lt(layout.lo(d + 1, i), at));
    assert forall|s: int| 0 <= s < t implies (#[trigger] ptrs[s]).1 != split.from
        && BoundView::Inc(ptrs[s].0).lt(split.at) by {
        assert(key::key_lt(ptrs[s].0, ptrs[t].0));
        lemma_pointer(layout, d, j, i, s);
    }
    lemma_scan_to(ptrs, split.from, split.at, 0, t);
    data::lemma_rank(ptrs, at);
    let r = data::rank(ptrs, at) as int;
    if r <= t {
        assert(!key::key_lt(ptrs[t].0, at));
    }
    if r < ptrs.len() && ptrs[r].0 == at {
        lemma_pointer(layout, d, j, i + 1, r);
        assert(lists(n, layout.pid(d + 1, i + 1)));
        assert(layout.nodes.contains_key(layout.pid(d, j)));
        assert(false);
    }
    lemma_sort_split(ptrs, t, at, split.to);
}

/// What sorting does to sorted pointers of which one was moved to the end,
/// followed by a new one.
proof fn lemma_sort_split(ptrs: Seq<(Seq<u8>, PageID)>, t: int, at: Seq<u8>, to: PageID)
    requires
        data::sorted(ptrs),
        0 <= t < ptrs.len(),
        data::lookup(ptrs, at) is None,
    ensures
        data::in_key_order(ptrs.remove(t).push(ptrs[t]).push((at, to))) == data::with_entry(
            ptrs,
            at,
            to,
        ),
{
    broadcast use crate::key::group_key_order;

    let rest = ptrs.remove(t);
    ptrs.remove_ensures(t);
    assert(data::sorted(rest)) by {
        assert forall|a: int, b: int| 0 <= a < b < rest.len() implies key::key_lt(
            (#[trigger] rest[a]).0,
            (#[trigger] rest[b]).0,
        ) by {
            assert(rest[a] == ptrs[if a < t { a } else { a + 1 }]);
            assert(rest[b] == ptrs[if b < t { b } else { b + 1 }]);
        }
    }
    data::lemma_in_key_order_sorted(rest);
    assert forall|j: int| 0 <= j < t implies !key::key_lt(ptrs[t].0, (#[trigger] rest[j]).0) by {
        assert(rest[j] == ptrs[j]);
    }
    assert forall|j: int| t <= j < rest.len() implies key::key_lt(
        ptrs[t].0,
        (#[trigger] rest[j]).0,
    ) by {
        assert(rest[j] == ptrs[j + 1]);
    }
    data::lemma_placed_sorted(rest, ptrs[t], t);
    rest.insert_ensures(t, ptrs[t]);
    assert(rest.insert(t, ptrs[t]) =~= ptrs);
    assert(rest.push(ptrs[t]).drop_last() =~= rest);
    assert(data::in_key_order(rest.push(ptrs[t])) == ptrs);
    data::lemma_rank(ptrs, at);
    let r = data::rank(ptrs, at) as int;
    assert forall|j: int| r <= j < ptrs.len() implies key::key_lt(at, (#[trigger] ptrs[j]).0) by {
        assert(!key::key_lt(ptrs[j].0, at));
        if ptrs[j].0 == at && r < j {
            assert(key::key_lt(ptrs[r].0, ptrs[j].0));
        }
    }
    data::lemma_placed_sorted(ptrs, (at, to), r);
    assert(rest.push(ptrs[t]).push((at, to)).drop_last() =~= rest.push(ptrs[t]));
}

/// Noting a split in the page above keeps the tree well formed, and completes
/// the split.
pub proof fn lemma_parent_split(layout: Layout, d: int, j: int, i: int)
    requires
        layout.wf(),
        layout.slot(d, j),
        layout.slot(d + 1, i),
        layout.slot(d + 1, i + 1),
        lists(layout.node(d, j), layout.pid(d + 1, i)),
        !listed(layout.nodes, layout.pid(d + 1, i + 1)),
    ensures
        ({
            let n = layout.node(d, j);
            let new = n.apply(FragView::ParentSplit(layout.split_note(d + 1, i)));
            let after = layout.replace(d, j, new);
            &&& n.accepts(FragView::ParentSplit(layout.split_note(d + 1, i)))
            &&& after.wf()
            &&& contents(after.nodes) == contents(layout.nodes)
            &&& new.data.len() == n.data.len() + 1
            &&& layout.settled_but(Some(layout.pid(d + 1, i + 1))) ==> after.settled()
        }),
{
    broadcast use crate::key::group_key_order;

    let n = layout.node(d, j);
    let to = layout.pid(d + 1, i + 1);
    let at = layout.lo(d + 1, i + 1);
    let split = layout.split_note(d + 1, i);
    let new = n.apply(FragView::ParentSplit(split));
    let after = layout.replace(d, j, new);
    let ptrs = n.data->Index_0;
    assert(layout.slot_ok(d, j));
    lemma_with_split(layout, d, j, i);
    lemma_neighbour_in_range(layout, d, j, i);
    data::lemma_with_entry(ptrs, at, to);
    data::lemma_rank(ptrs, at);
    let r = data::rank(ptrs, at) as int;
    let added = data::with_entry(ptrs, at, to);
    assert(added == ptrs.insert(r, (at, to)));
    ptrs.insert_ensures(r, (at, to));
    assert(new.data == DataView::Index(added));
    assert forall|t: int| 0 <= t < added.len() implies new.covers(
        #[trigger] new.data.key_at(t),
    ) && layout.leads(d + 1, added[t]) by {
        if t == r {
            assert(layout.slot(d + 1, i + 1));
        } else {
            let s = if t < r {
                t
            } else {
                t - 1
            };
            assert(added[t] == ptrs[s]);
            assert(n.covers(n.data.key_at(s)));
        }
    }
    assert forall|t: int| 0 <= t < added.len() implies layout.leads(d + 1, #[trigger] added[t]) by {
        assert(new.covers(new.data.key_at(t)));
    }
    lemma_replace(layout, d, j, new);
    lemma_index_change(layout, d, j, new);
    assert(lists(new, to)) by {
        assert(new.data->Index_0[r].1 == to);
    }
    assert(after.nodes.contains_key(layout.pid(d, j)));
    assert(listed(after.nodes, to));
    if layout.settled_but(Some(to)) {
        assert forall|e: int, k: int| #[trigger] after.slot(e, k) && e >= 1 implies listed(
            after.nodes,
            after.pid(e, k),
        ) by {
            assert(layout.slot(e, k));
            let pid = layout.pid(e, k);
            if pid != to {
                assert(listed(layout.nodes, pid));
                let q = choose|q: PageID| #[trigger]
                    layout.nodes.contains_key(q) && lists(layout.nodes[q], pid);
                assert(after.nodes.contains_key(q));
                if q == layout.pid(d, j) {
                    let t = choose|t: int| 0 <= t < ptrs.len() && (#[trigger] ptrs[t]).1 == pid;
                    assert(new.data->Index_0[if t < r {
                        t
                    } else {
                        t + 1
                    }].1 == pid);
                    assert(lists(new, pid));
                }
            }
        }
        assert forall|k: int| #[trigger] after.slot(0, k) implies k == 0 by {
            assert(layout.slot(0, k));
            if k != 0 {
                assert(layout.pid(0, k) == to);
                assert(layout.slot(d + 1, i + 1));
            }
        }
    }
}

/// What is done to the pointers of an index page changes no record.
proof fn lemma_index_change(layout: Layout, d: int, j: int, new: NodeView)
    requires
        layout.wf(),
        layout.slot(d, j),
        layout.node(d, j).data is Index,
        new.data is Index,
    ensures
        contents(layout.replace(d, j, new).nodes) == contents(layout.nodes),
{
    let after = layout.replace(d, j, new);
    assert(layout.slot_ok(d, j));
    assert forall|key: Seq<u8>, value: Seq<u8>| stored(layout.nodes, key, value) <==> stored(
        after.nodes,
        key,
        value,
    ) by {
        if stored(layout.nodes, key, value) {
            let q = choose|q: PageID| #[trigger]
                layout.nodes.contains_key(q) && holds_record(layout.nodes[q], key, value);
            assert(after.nodes.contains_key(q) && holds_record(after.nodes[q], key, value));
        }
        if stored(after.nodes, key, value) {
            let q = choose|q: PageID| #[trigger]
                after.nodes.contains_key(q) && holds_record(after.nodes[q], key, value);
            assert(layout.nodes.contains_key(q) && holds_record(layout.nodes[q], key, value));
        }
    }
    lemma_same_contents(layout, after.nodes);
}

/// A new page on top, with pointers to the first page of the old top level and
/// to another of that level, keeps the tree well formed.
pub proof fn lemma_hoist(layout: Layout, root: PageID, top: NodeView, i: int)
    requires
        layout.wf(),
        !layout.nodes.contains_key(root),
        layout.slot(0, i),
        i >= 1,
        top == (NodeView {
            id: root,
            data: DataView::Index(
                seq![(Seq::<u8>::empty(), layout.pid(0, 0)), (layout.lo(0, i), layout.pid(0, i))],
            ),
            next: None,
            lo: BoundView::Inc(Seq::empty()),
            hi: BoundView::Inf,
        }),
    ensures
        layout.hoist(root, top).wf(),
        contents(layout.hoist(root, top).nodes) == contents(layout.nodes),
        layout.settled_but(Some(layout.pid(0, i))) ==> layout.hoist(root, top).settled(),
{
    broadcast use crate::key::group_key_order;

    let after = layout.hoist(root, top);
    assert(layout.slot(0, 0));
    assert(layout.slot_ok(0, 0));
    assert(layout.slot_ok(0, i));
    assert(key::key_lt(layout.lo(0, 0), layout.lo(0, i)));
    assert forall|e: int, j: int| #[trigger] after.slot(e, j) && e >= 1 implies {
        &&& layout.slot(e - 1, j)
        &&& after.pid(e, j) == layout.pid(e - 1, j)
        &&& after.node(e, j) == layout.node(e - 1, j)
    } by {
        assert(layout.slot(e - 1, j));
        assert(layout.slot_ok(e - 1, j));
    }
    assert forall|e: int, j: int| #[trigger] layout.slot(e, j) implies after.slot(e + 1, j) by {}
    assert forall|e: int, ptr: (Seq<u8>, PageID)| e >= 1 && layout.leads(
        e - 1,
        ptr,
    ) implies #[trigger] after.leads(e, ptr) by {
        let c = choose|c: int|
            {
                &&& #[trigger] layout.slot(e - 1, c)
                &&& layout.pid(e - 1, c) == ptr.1
                &&& layout.lo(e - 1, c) == ptr.0
            };
        assert(after.slot(e, c));
    }
    assert forall|e: int| 0 <= e < after.levels.len() implies (
    #[trigger] after.levels[e]).len() >= 1 by {
        if e >= 1 {
            assert(layout.levels[e - 1].len() >= 1);
        }
    }
    let ptrs = top.data->Index_0;
    assert(after.slot_ok(0, 0)) by {
        assert(after.node(0, 0) == top);
        key::lemma_empty_key_least(layout.lo(0, i));
        assert forall|t: int| 0 <= t < top.data.len() implies top.covers(
            #[trigger] top.data.key_at(t),
        ) by {}
        assert forall|t: int| 0 <= t < ptrs.len() implies after.leads(1, #[trigger] ptrs[t]) by {
            assert(layout.leads(0, ptrs[t]));
        }
        assert(after.pointers_ok(0, top));
    }
    assert forall|e: int, j: int| #[trigger] after.slot(e, j) implies after.slot_ok(e, j) by {
        if e >= 1 {
            assert(layout.slot_ok(e - 1, j));
            if j + 1 < after.levels[e].len() {
                assert(after.slot(e, j + 1));
            }
            let n = after.node(e, j);
            if n.data is Index {
                assert forall|t: int| 0 <= t < n.data->Index_0.len() implies after.leads(
                    e + 1,
                    #[trigger] n.data->Index_0[t],
                ) by {
                    assert(layout.leads(e, n.data->Index_0[t]));
                }
            }
        }
    }
    assert(after.places_ok()) by {
        assert forall|d1: int, i1: int, e1: int, j1: int|
            #![trigger after.slot(d1, i1), after.slot(e1, j1)]
            after.slot(d1, i1) && after.slot(e1, j1) && after.pid(d1, i1) == after.pid(
                e1,
                j1,
            ) implies d1 == e1 && i1 == j1 by {
            if d1 >= 1 {
                assert(layout.slot_ok(d1 - 1, i1));
            }
            if e1 >= 1 {
                assert(layout.slot_ok(e1 - 1, j1));
            }
        }
        assert forall|q: PageID| #[trigger] after.nodes.contains_key(q) implies exists|
            e: int,
            j: int,
        | #[trigger] after.slot(e, j) && after.pid(e, j) == q by {
            if q == root {
                assert(after.slot(0, 0));
            } else {
                assert(layout.nodes.contains_key(q));
                let (e, j) = choose|e: int, j: int| #[trigger]
                    layout.slot(e, j) && layout.pid(e, j) == q;
                assert(after.slot(e + 1, j));
            }
        }
    }
    assert(after.order_ok()) by {
        assert forall|e: int, a: int, b: int|
            #![trigger after.slot(e, a), after.slot(e, b)]
            after.slot(e, a) && after.slot(e, b) && a < b implies key::key_lt(
            after.lo(e, a),
            after.lo(e, b),
        ) by {
            assert(e >= 1);
            assert(layout.slot(e - 1, a) && layout.slot(e - 1, b));
        }
    }
    assert forall|key: Seq<u8>, value: Seq<u8>| stored(layout.nodes, key, value) <==> stored(
        after.nodes,
        key,
        value,
    ) by {
        if stored(layout.nodes, key, value) {
            let q = choose|q: PageID| #[trigger]
                layout.nodes.contains_key(q) && holds_record(layout.nodes[q], key, value);
            assert(after.nodes.contains_key(q) && holds_record(after.nodes[q], key, value));
        }
        if stored(after.nodes, key, value) {
            let q = choose|q: PageID| #[trigger]
                after.nodes.contains_key(q) && holds_record(after.nodes[q], key, value);
            assert(layout.nodes.contains_key(q) && holds_record(layout.nodes[q], key, value));
        }
    }
    lemma_same_contents(layout, after.nodes);
    if layout.settled_but(Some(layout.pid(0, i))) {
        assert forall|e: int, j: int| #[trigger] after.slot(e, j) && e >= 1 implies listed(
            after.nodes,
            after.pid(e, j),
        ) by {
            let pid = after.pid(e, j);
            assert(layout.slot(e - 1, j));
            if e == 1 {
                assert(after.nodes.contains_key(root));
                if j == 0 {
                    assert(ptrs[0].1 == pid);
                } else {
                    assert(ptrs[1].1 == pid);
                }
                assert(lists(after.nodes[root], pid));
            } else if pid == layout.pid(0, i) {
                assert(layout.slot(0, i));
            } else {
                assert(listed(layout.nodes, pid));
                let q = choose|q: PageID| #[trigger]
                    layout.nodes.contains_key(q) && lists(layout.nodes[q], pid);
                assert(after.nodes.contains_key(q));
            }
        }
        assert(after.settled());
    }
}

/// A change to the records of one key in the leaf that is responsible for it
/// keeps the tree well formed, and changes what it holds under that key alone.
proof fn lemma_leaf_change(layout: Layout, key: Seq<u8>, new: NodeView)
    requires
        layout.wf(),
        ({
            let n = layout.page_for(layout.levels.len() - 1, key);
            &&& new == (NodeView { data: new.data, ..n })
            &&& new.data is Leaf
            &&& new.data.sorted()
            &&& forall|k: Seq<u8>, v: Seq<u8>|
                k != key ==> (#[trigger] new.data->Leaf_0.contains((k, v))
                    <==> n.data->Leaf_0.contains((k, v)))
        }),
    ensures
        ({
            let d = layout.levels.len() - 1;
            let after = layout.replace(d, layout.place(d, key), new);
            &&& after.wf()
            &&& layout.settled() ==> after.settled()
            &&& forall|k: Seq<u8>, v: Seq<u8>|
                k != key ==> (#[trigger] stored(after.nodes, k, v) <==> stored(
                    layout.nodes,
                    k,
                    v,
                ))
            &&& forall|v: Seq<u8>| #[trigger]
                stored(after.nodes, key, v) <==> new.data->Leaf_0.contains((key, v))
        }),
{
    let d = layout.levels.len() - 1;
    let i = layout.place(d, key);
    let n = layout.page_for(d, key);
    let after = layout.replace(d, i, new);
    law_one_page_for_each_key(layout, d, key);
    assert(layout.slot_ok(d, i));
    let items = new.data->Leaf_0;
    assert forall|t: int| 0 <= t < new.data.len() implies new.covers(
        #[trigger] new.data.key_at(t),
    ) by {
        let (k, v) = items[t];
        if k != key {
            assert(items.contains((k, v)));
            assert(n.data->Leaf_0.contains((k, v)));
            let u = choose|u: int|
                0 <= u < n.data->Leaf_0.len() && n.data->Leaf_0[u] == (k, v);
            assert(n.covers(n.data.key_at(u)));
        }
    }
    lemma_replace(layout, d, i, new);
    assert forall|k: Seq<u8>, v: Seq<u8>| k != key implies (#[trigger] stored(after.nodes, k, v)
        <==> stored(layout.nodes, k, v)) by {
        if stored(after.nodes, k, v) {
            let q = choose|q: PageID| #[trigger]
                after.nodes.contains_key(q) && holds_record(after.nodes[q], k, v);
            assert(layout.nodes.contains_key(q) && holds_record(layout.nodes[q], k, v));
        }
        if stored(layout.nodes, k, v) {
            let q = choose|q: PageID| #[trigger]
                layout.nodes.contains_key(q) && holds_record(layout.nodes[q], k, v);
            assert(after.nodes.contains_key(q) && holds_record(after.nodes[q], k, v));
        }
    }
    assert(after.slot(d, i));
    assert(after.node(d, i) == new);
    law_one_page_for_each_key(after, d, key);
    assert(after.place(d, key) == i);
    assert forall|v: Seq<u8>| #[trigger] stored(after.nodes, key, v) <==> items.contains(
        (key, v),
    ) by {
        lemma_stored(after, key, v);
    }
    if layout.settled() {
        assert forall|e: int, j: int| #[trigger] after.slot(e, j) && e >= 1 implies listed(
            after.nodes,
            after.pid(e, j),
        ) by {
            assert(layout.slot(e, j));
            let pid = layout.pid(e, j);
            assert(listed(layout.nodes, pid));
            let q = choose|q: PageID| #[trigger]
                layout.nodes.contains_key(q) && lists(layout.nodes[q], pid);
            assert(after.nodes.contains_key(q) && lists(after.nodes[q], pid));
        }
        assert forall|j: int| #[trigger] after.slot(0, j) implies j == 0 by {
            assert(layout.slot(0, j));
        }
    }
}

/// Storing a record in the leaf that is responsible for its key stores it in
/// the tree.
pub proof fn lemma_leaf_put(layout: Layout, key: Seq<u8>, value: Seq<u8>)
    requires
        layout.wf(),
    ensures
        ({
            let d = layout.levels.len() - 1;
            let n = layout.page_for(d, key);
            let new = n.apply(FragView::Put(key, value));
            let after = layout.replace(d, layout.place(d, key), new);
            &&& n.accepts(FragView::Put(key, value))
            &&& after.wf()
            &&& layout.settled() ==> after.settled()
            &&& contents(after.nodes) == contents(layout.nodes).insert(key, value)
            &&& new.data.len() <= n.data.len() + 1
        }),
{
    let d = layout.levels.len() - 1;
    let n = layout.page_for(d, key);
    law_one_page_for_each_key(layout, d, key);
    assert(layout.slot_ok(d, layout.place(d, key)));
    let new = n.apply(FragView::Put(key, value));
    let after = layout.replace(d, layout.place(d, key), new);
    data::lemma_with_entry(n.data->Leaf_0, key, value);
    lemma_leaf_change(layout, key, new);
    assert(stored(after.nodes, key, value));
    lemma_changed_contents(layout, after, key);
    let want = contents(layout.nodes).insert(key, value);
    assert(stored(after.nodes, key, contents(after.nodes)[key]));
    lemma_one_value(after, key, value, contents(after.nodes)[key]);
    assert(contents(after.nodes) =~= want);
}

/// Taking a record out of the leaf that is responsible for its key takes it
/// out of the tree.
pub proof fn lemma_leaf_del(layout: Layout, key: Seq<u8>)
    requires
        layout.wf(),
    ensures
        ({
            let d = layout.levels.len() - 1;
            let n = layout.page_for(d, key);
            let new = n.apply(FragView::Del(key));
            let after = layout.replace(d, layout.place(d, key), new);
            &&& n.accepts(FragView::Del(key))
            &&& after.wf()
            &&& layout.settled() ==> after.settled()
            &&& contents(after.nodes) == contents(layout.nodes).remove(key)
            &&& new.data.len() <= n.data.len()
        }),
{
    let d = layout.levels.len() - 1;
    let n = layout.page_for(d, key);
    law_one_page_for_each_key(layout, d, key);
    assert(layout.slot_ok(d, layout.place(d, key)));
    let new = n.apply(FragView::Del(key));
    let after = layout.replace(d, layout.place(d, key), new);
    data::lemma_without_entry(n.data->Leaf_0, key);
    lemma_leaf_change(layout, key, new);
    lemma_changed_contents(layout, after, key);
    assert forall|v: Seq<u8>| !stored(after.nodes, key, v) by {}
    assert(contents(after.nodes) =~= contents(layout.nodes).remove(key));
}

/// Where the records of other keys are the same, the contents are the same but
/// for one key.
proof fn lemma_changed_contents(layout: Layout, after: Layout, key: Seq<u8>)
    requires
        layout.wf(),
        after.wf(),
        forall|k: Seq<u8>, v: Seq<u8>|
            k != key ==> (#[trigger] stored(after.nodes, k, v) <==> stored(layout.nodes, k, v)),
    ensures
        contents(after.nodes).remove(key) == contents(layout.nodes).remove(key),
        forall|k: Seq<u8>|
            k != key ==> (#[trigger] contents(after.nodes).contains_key(k) <==> contents(
                layout.nodes,
            ).contains_key(k)),
        forall|k: Seq<u8>|
            k != key && contents(layout.nodes).contains_key(k) ==> #[trigger] contents(
                after.nodes,
            )[k] == contents(layout.nodes)[k],
{
    let a = contents(layout.nodes);
    let b = contents(after.nodes);
    assert forall|k: Seq<u8>| k != key implies (#[trigger] b.contains_key(k) <==> a.contains_key(
        k,
    )) by {
        if a.contains_key(k) {
            assert(stored(layout.nodes, k, a[k]));
            assert(stored(after.nodes, k, a[k]));
        }
        if b.contains_key(k) {
            assert(stored(after.nodes, k, b[k]));
            assert(stored(layout.nodes, k, b[k]));
        }
    }
    assert forall|k: Seq<u8>| k != key && a.contains_key(k) implies #[trigger] b[k] == a[k] by {
        assert(b.contains_key(k));
        assert(stored(layout.nodes, k, a[k]));
        assert(stored(after.nodes, k, b[k]));
        lemma_one_value(layout, k, a[k], b[k]);
    }
    assert(b.remove(key) =~= a.remove(key));
}

/// Where a page stands that a page of level `d` has a pointer to: on the next
/// level.
pub proof fn lemma_listed_place(layout: Layout, d: int, j: int, e: int, i: int)
    requires
        layout.wf(),
        layout.slot(d, j),
        layout.slot(e, i),
        lists(layout.node(d, j), layout.pid(e, i)),
    ensures
        e == d + 1,
{
    assert(layout.slot_ok(d, j));
    let ptrs = layout.node(d, j).data->Index_0;
    let t = choose|t: int| 0 <= t < ptrs.len() && (#[trigger] ptrs[t]).1 == layout.pid(e, i);
    assert(layout.leads(d + 1, ptrs[t]));
    let c = choose|c: int|
        {
            &&& #[trigger] layout.slot(d + 1, c)
            &&& layout.pid(d + 1, c) == ptrs[t].1
            &&& layout.lo(d + 1, c) == ptrs[t].0
        };
}

/// A page that has a pointer to a page is responsible for the whole range of
/// that page.
pub proof fn lemma_parent_covers(layout: Layout, d: int, j: int, c: int, key: Seq<u8>)
    requires
        layout.wf(),
        layout.slot(d, j),
        layout.slot(d + 1, c),
        lists(layout.node(d, j), layout.pid(d + 1, c)),
        layout.node(d + 1, c).covers(key),
    ensures
        layout.node(d, j).covers(key),
{
    assert(layout.slot_ok(d, j));
    assert(layout.slot_ok(d + 1, c));
    let n = layout.node(d, j);
    let ptrs = n.data->Index_0;
    let t = choose|t: int| 0 <= t < ptrs.len() && (#[trigger] ptrs[t]).1 == layout.pid(d + 1, c);
    lemma_pointer(layout, d, j, c, t);
    let low = layout.lo(d + 1, c);
    assert(n.covers(n.data.key_at(t)));
    assert(!key::key_lt(key, layout.lo(d, j))) by {
        broadcast use crate::key::group_key_order;

    }
    if j + 1 < layout.levels[d].len() {
        assert(layout.slot(d, j + 1));
        assert(layout.slot_ok(d, j + 1));
        let first = layout.node(d, j + 1).data->Index_0[0];
        assert(layout.leads(d + 1, first));
        let c2 = choose|c2: int|
            {
                &&& #[trigger] layout.slot(d + 1, c2)
                &&& layout.pid(d + 1, c2) == first.1
                &&& layout.lo(d + 1, c2) == first.0
            };
        let high = layout.lo(d + 1, c2);
        assert(key::key_lt(low, high));
        assert(c < c2) by {
            broadcast use crate::key::group_key_order;

            if c2 < c {
                assert(key::key_lt(high, low));
            }
        }
        assert(layout.slot(d + 1, c + 1));
        let next = layout.lo(d + 1, c + 1);
        assert(key::key_lt(key, next));
        if c + 1 < c2 {
            key::lemma_key_lt_transitive(key, next, high);
        }
    }
}

/// In a tree without half complete splits, the page that is responsible for a
/// key on one level has a pointer to the page that is responsible for it on the
/// next: no search has to go to the right.
pub proof fn law_settled_search(layout: Layout, d: int, key: Seq<u8>)
    requires
        layout.wf(),
        layout.settled(),
        0 <= d,
        d + 1 < layout.levels.len(),
    ensures
        lists(layout.page_for(d, key), layout.page_for(d + 1, key).id),
{
    law_one_page_for_each_key(layout, d, key);
    law_one_page_for_each_key(layout, d + 1, key);
    let c = layout.place(d + 1, key);
    let pid = layout.pid(d + 1, c);
    assert(layout.slot_ok(d + 1, c));
    assert(listed(layout.nodes, pid));
    let q = choose|q: PageID| #[trigger]
        layout.nodes.contains_key(q) && lists(layout.nodes[q], pid);
    let (e, j) = choose|e: int, j: int| #[trigger] layout.slot(e, j) && layout.pid(e, j) == q;
    lemma_listed_place(layout, e, j, d + 1, c);
    lemma_parent_covers(layout, d, j, c, key);
    assert(j == layout.place(d, key));
}

/// All leaves are on the last level: each way down from the root has the same
/// length.
pub proof fn law_leaves_on_one_level(layout: Layout, d: int, i: int)
    requires
        layout.wf(),
        layout.slot(d, i),
    ensures
        layout.node(d, i).data is Leaf <==> d == layout.levels.len() - 1,
{
    assert(layout.slot_ok(d, i));
}

/// On each level the keys of a page are below those of the pages to its right.
pub proof fn law_keys_increase_along_level(
    layout: Layout,
    d: int,
    i: int,
    j: int,
    s: int,
    t: int,
)
    requires
        layout.wf(),
        layout.slot(d, i),
        layout.slot(d, j),
        i < j,
        0 <= s < layout.node(d, i).data.len(),
        0 <= t < layout.node(d, j).data.len(),
    ensures
        key::key_lt(layout.node(d, i).data.key_at(s), layout.node(d, j).data.key_at(t)),
{
    broadcast use crate::key::group_key_order;

    assert(layout.slot_ok(d, i));
    assert(layout.slot_ok(d, j));
    assert(layout.slot(d, i + 1));
    assert(layout.node(d, i).covers(layout.node(d, i).data.key_at(s)));
    assert(layout.node(d, j).covers(layout.node(d, j).data.key_at(t)));
    if i + 1 < j {
        assert(key::key_lt(layout.lo(d, i + 1), layout.lo(d, j)));
    }
}

/// The two parts of a split page share its range: each key of the range is in
/// just one of them, and they have no other keys.
pub proof fn law_split_shares_range(n: NodeView, to: PageID, key: Seq<u8>)
    requires
        entries_ok(n),
        n.lo is Inc,
        n.should_split(),
    ensures
        n.covers(key) <==> n.split_left(to).covers(key) || n.split_right(to).covers(key),
        !(n.split_left(to).covers(key) && n.split_right(to).covers(key)),
{
    broadcast use crate::key::group_key_order;

    lemma_split_key(n);
}

/// Where no split is half complete, the top level is one page, and every page on
/// another level has a pointer to it in some page.
pub proof fn law_settled_pages_have_pointers(layout: Layout, d: int, i: int)
    requires
        layout.settled(),
        0 <= d < layout.levels.len(),
        0 <= i < layout.levels[d].len(),
    ensures
        d == 0 ==> i == 0,
        d > 0 ==> exists|above: PageID, t: int|
            {
                &&& layout.nodes.contains_key(above)
                &&& layout.nodes[above].data is Index
                &&& 0 <= t < layout.nodes[above].data->Index_0.len()
                &&& (#[trigger] layout.nodes[above].data->Index_0[t]).1 == layout.levels[d][i]
            },
{
    assert(layout.slot(d, i));
    if d > 0 {
        let p = layout.pid(d, i);
        assert(listed(layout.nodes, p));
        let above = choose|above: PageID| #[trigger]
            layout.nodes.contains_key(above) && lists(layout.nodes[above], p);
        let ptrs = layout.nodes[above].data->Index_0;
        let t = choose|t: int| 0 <= t < ptrs.len() && (#[trigger] ptrs[t]).1 == p;
        assert(layout.nodes[above].data->Index_0[t].1 == layout.levels[d][i]);
    }
}

} // verus!
