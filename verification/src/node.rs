//! The content of a page.
use vstd::prelude::*;

use crate::bound::{Bound, BoundView};
use crate::data;
use crate::data::{discard, sort_by_key, store, Data, DataView, FANOUT};
use crate::frag::{ParentSplit, ParentSplitView};
use crate::key;
use crate::key::{copy_bytes, Key, PageID, Value};

verus! {

/// The content of a page: its entries, the range of keys that it is
/// responsible for, and the page to its right on the same level.
#[derive(Debug, PartialEq, Eq)]
pub struct Node {
    pub id: PageID,
    pub data: Data,
    pub next: Option<PageID>,
    pub lo: Bound,
    pub hi: Bound,
}

/// What a `Node` stands for.
#[verifier::ext_equal]
pub struct NodeView {
    pub id: PageID,
    pub data: DataView,
    pub next: Option<PageID>,
    pub lo: BoundView,
    pub hi: BoundView,
}

impl View for Node {
    type V = NodeView;

    open spec fn view(&self) -> NodeView {
        NodeView {
            id: self.id,
            data: self.data@,
            next: self.next,
            lo: self.lo@,
            hi: self.hi@,
        }
    }
}

/// The first pointer from `i` on that leads to `from`, or whose key is not
/// before `at`.
pub open spec fn scan_pointers(
    ptrs: Seq<(Seq<u8>, PageID)>,
    from: PageID,
    at: BoundView,
    i: int,
) -> int
    decreases ptrs.len() - i,
{
    if i >= ptrs.len() || ptrs[i].1 == from || !BoundView::Inc(ptrs[i].0).lt(at) {
        i
    } else {
        scan_pointers(ptrs, from, at, i + 1)
    }
}

/// The pointer that a split of `from` at `at` replaces: the one that leads to
/// `from`, or else the last of the leading ones whose key is before `at`. A
/// negative number means that there is none.
pub open spec fn split_slot(ptrs: Seq<(Seq<u8>, PageID)>, from: PageID, at: BoundView) -> int {
    let stop = scan_pointers(ptrs, from, at, 0);
    if stop < ptrs.len() && ptrs[stop].1 == from {
        stop
    } else {
        stop - 1
    }
}

/// The pointers of an index page after the page `from` below it was split at
/// `at` and `to` took over its upper part.
pub open spec fn with_split(ptrs: Seq<(Seq<u8>, PageID)>, split: ParentSplitView) -> Seq<
    (Seq<u8>, PageID),
> {
    let slot = split_slot(ptrs, split.from, split.at);
    data::in_key_order(
        ptrs.remove(slot).push((ptrs[slot].0, split.from)).push((split.at.inner()->0, split.to)),
    )
}

impl NodeView {
    /// The node holds more entries than a page should.
    pub open spec fn should_split(self) -> bool {
        self.data.len() > FANOUT
    }

    /// The key at which the node would be split.
    pub open spec fn split_key(self) -> Seq<u8> {
        self.data.key_at(data::split_point(self.data.len() as int))
    }

    /// The left part of the node, with the page `id` to its right.
    pub open spec fn split_left(self, id: PageID) -> NodeView {
        NodeView {
            id: self.id,
            data: self.data.take(data::split_point(self.data.len() as int)),
            next: Some(id),
            lo: self.lo,
            hi: BoundView::Non(self.split_key()),
        }
    }

    /// The right part of the node, in the page `id`.
    pub open spec fn split_right(self, id: PageID) -> NodeView {
        NodeView {
            id,
            data: self.data.skip(data::split_point(self.data.len() as int)),
            next: self.next,
            lo: BoundView::Inc(self.split_key()),
            hi: self.hi,
        }
    }

    /// The note of the split for the page above.
    pub open spec fn split_note(self, id: PageID) -> ParentSplitView {
        ParentSplitView { at: BoundView::Inc(self.split_key()), to: id, from: self.id }
    }

    /// `key` is in the range that the node is responsible for.
    pub open spec fn covers(self, key: Seq<u8>) -> bool {
        !BoundView::Inc(key).lt(self.lo) && BoundView::Inc(key).lt(self.hi)
    }

    /// The node is an index page in which a split of one of its children can
    /// be noted.
    pub open spec fn accepts_split(self, split: ParentSplitView) -> bool {
        &&& self.data is Index
        &&& split.at.inner() is Some
        &&& split_slot(self.data->Index_0, split.from, split.at) >= 0
    }
}

impl Clone for Node {
    fn clone(&self) -> (copy: Self)
        ensures
            copy@ == self@,
    {
        Node {
            id: self.id,
            data: self.data.clone(),
            next: self.next,
            lo: self.lo.clone(),
            hi: self.hi.clone(),
        }
    }
}

impl Node {
    /// Stores `val` under `key` in a leaf, in place of what was there. An
    /// index page is left alone.
    pub fn set_leaf(&mut self, key: Key, val: Value) -> (done: Result<(), ()>)
        requires
            old(self)@.data is Leaf ==> old(self)@.data.sorted(),
        ensures
            done is Ok <==> old(self)@.data is Leaf,
            match old(self)@.data {
                DataView::Leaf(items) => final(self)@ == (NodeView {
                    data: DataView::Leaf(data::with_entry(items, key@, val@)),
                    ..old(self)@
                }),
                DataView::Index(_) => final(self)@ == old(self)@,
            },
    {
        match &mut self.data {
            Data::Leaf(records) => {
                store(records, key, val);
                Ok(())
            },
            Data::Index(_) => Err(()),
        }
    }

    /// Notes in an index page that a child was split: the pointer to the
    /// child stays, and one to the new page joins.
    pub fn parent_split(&mut self, ps: ParentSplit)
        requires
            old(self)@.accepts_split(ps@),
        ensures
            final(self)@ == (NodeView {
                data: DataView::Index(with_split(old(self)@.data->Index_0, ps@)),
                ..old(self)@
            }),
    {
        if let Data::Index(ptrs) = &mut self.data {
            note_split(ptrs, ps);
        }
    }

    /// Takes the record under `key`, if there is one, out of a leaf.
    pub fn del_leaf(&mut self, key: &Key)
        requires
            old(self)@.data is Leaf,
            old(self)@.data.sorted(),
        ensures
            final(self)@ == (NodeView {
                data: DataView::Leaf(data::without_entry(old(self)@.data->Leaf_0, key@)),
                ..old(self)@
            }),
    {
        if let Data::Leaf(records) = &mut self.data {
            discard(records, key);
        }
    }

    /// Whether the page holds more entries than it should.
    pub fn should_split(&self) -> (split: bool)
        ensures
            split == self@.should_split(),
            split <==> match self.data {
                Data::Index(ptrs) => ptrs@.len() > FANOUT,
                Data::Leaf(items) => items@.len() > FANOUT,
            },
    {
        self.data.len() > FANOUT
    }

    /// Copies the node into two: the left part, which stays in its page and
    /// gets `id` as its right neighbour, and the right part, which goes to the
    /// page `id`.
    pub fn split(&self, id: PageID) -> (halves: (Node, Node))
        requires
            self@.should_split(),
        ensures
            halves.0@ == self@.split_left(id),
            halves.1@ == self@.split_right(id),
            halves.0.id == self.id,
            halves.1.id == id,
            halves.0.next == Some(id),
            halves.1.next == self.next,
            halves.0.lo@ == self.lo@,
            halves.1.hi@ == self.hi@,
            match (self.data, halves.0.data, halves.1.data) {
                (Data::Index(all), Data::Index(left), Data::Index(right)) => {
                    &&& data::entries(left@) + data::entries(right@) == data::entries(all@)
                    &&& right@.len() < left@.len() <= right@.len() + 2
                    &&& right@.len() > 0
                    &&& halves.0.hi@ == BoundView::Non(right@[0].0@)
                    &&& halves.1.lo@ == BoundView::Inc(right@[0].0@)
                },
                (Data::Leaf(all), Data::Leaf(left), Data::Leaf(right)) => {
                    &&& data::entries(left@) + data::entries(right@) == data::entries(all@)
                    &&& right@.len() < left@.len() <= right@.len() + 2
                    &&& right@.len() > 0
                    &&& halves.0.hi@ == BoundView::Non(right@[0].0@)
                    &&& halves.1.lo@ == BoundView::Inc(right@[0].0@)
                },
                _ => false,
            },
    {
        let (split, lhs, rhs) = self.data.split();
        let left = Node {
            id: self.id,
            data: lhs,
            next: Some(id),
            lo: self.lo.clone(),
            hi: Bound::Non(copy_bytes(&split)),
        };
        let right = Node {
            id,
            data: rhs,
            next: self.next,
            lo: Bound::Inc(split),
            hi: self.hi.clone(),
        };
        (left, right)
    }
}

/// Notes a split in the pointers of an index page.
fn note_split(ptrs: &mut Vec<(Key, PageID)>, ps: ParentSplit)
    requires
        ps@.at.inner() is Some,
        split_slot(data::entries(old(ptrs)@), ps.from, ps@.at) >= 0,
    ensures
        data::entries(final(ptrs)@) == with_split(data::entries(old(ptrs)@), ps@),
{
    let ghost before = data::entries(ptrs@);
    let mut i: usize = 0;
    while i < ptrs.len() && ptrs[i].1 != ps.from && Bound::Inc(
        copy_bytes(&ptrs[i].0),
    ).is_below(&ps.at)
        invariant
            data::entries(ptrs@) == before,
            i <= ptrs@.len(),
            scan_pointers(before, ps.from, ps.at@, 0) == scan_pointers(
                before,
                ps.from,
                ps.at@,
                i as int,
            ),
        decreases ptrs@.len() - i,
    {
        assert(before[i as int] == (ptrs@[i as int].0@, ptrs@[i as int].1));
        i += 1;
    }
    if i < ptrs.len() {
        assert(before[i as int] == (ptrs@[i as int].0@, ptrs@[i as int].1));
    }
    let idx: usize = if i < ptrs.len() && ptrs[i].1 == ps.from {
        i
    } else {
        i - 1
    };
    let (orig_k, _) = ptrs.remove(idx);
    ptrs.push((orig_k, ps.from));
    ptrs.push((ps.at.inner().unwrap(), ps.to));
    assert(data::entries(ptrs@) =~= before.remove(idx as int).push(
        (before[idx as int].0, ps.from),
    ).push((ps@.at.inner()->0, ps.to)));
    sort_by_key(ptrs);
}

/// A page is too large just when it has more than `FANOUT` entries.
pub proof fn law_too_large_above_fanout(node: NodeView)
    ensures
        node.should_split() <==> match node.data {
            DataView::Index(ptrs) => ptrs.len() > FANOUT,
            DataView::Leaf(items) => items.len() > FANOUT,
        },
{
}

/// The range of a page runs from its lower bound, with the key there, to its
/// upper bound, without the key there.
pub proof fn law_range_of_a_page(node: NodeView, key: Seq<u8>)
    ensures
        node.covers(key) <==> (match node.lo {
            BoundView::Inc(lo) => !key::key_lt(key, lo),
            BoundView::Non(lo) => !key::key_lt(key, lo),
            BoundView::Inf => false,
        }) && match node.hi {
            BoundView::Inc(hi) => key::key_lt(key, hi),
            BoundView::Non(hi) => key::key_lt(key, hi),
            BoundView::Inf => true,
        },
{
}

/// A split keeps the page to the left of the new one, and parts the entries in
/// the middle and the range at the first key on the right.
pub proof fn law_page_splits_in_the_middle(node: NodeView, id: PageID)
    requires
        match node.data {
            DataView::Index(ptrs) => ptrs.len() > FANOUT,
            DataView::Leaf(items) => items.len() > FANOUT,
        },
    ensures
        ({
            let left = node.split_left(id);
            let right = node.split_right(id);
            let note = node.split_note(id);
            &&& left.id == node.id
            &&& right.id == id
            &&& left.next == Some(id)
            &&& right.next == node.next
            &&& left.lo == node.lo
            &&& right.hi == node.hi
            &&& note.from == node.id
            &&& note.to == id
            &&& match (node.data, left.data, right.data) {
                (DataView::Index(all), DataView::Index(lower), DataView::Index(upper)) => {
                    &&& lower + upper == all
                    &&& upper.len() >= 1
                    &&& 1 <= lower.len() - upper.len() <= 2
                    &&& left.hi == BoundView::Non(upper[0].0)
                    &&& right.lo == BoundView::Inc(upper[0].0)
                    &&& note.at == BoundView::Inc(upper[0].0)
                },
                (DataView::Leaf(all), DataView::Leaf(lower), DataView::Leaf(upper)) => {
                    &&& lower + upper == all
                    &&& upper.len() >= 1
                    &&& 1 <= lower.len() - upper.len() <= 2
                    &&& left.hi == BoundView::Non(upper[0].0)
                    &&& right.lo == BoundView::Inc(upper[0].0)
                    &&& note.at == BoundView::Inc(upper[0].0)
                },
                _ => false,
            }
        }),
{
    data::law_split_in_the_middle(node.data);
}

/// Where the scan of the pointers stops.
proof fn lemma_scan(ptrs: Seq<(Seq<u8>, PageID)>, from: PageID, at: BoundView, i: int)
    requires
        0 <= i <= ptrs.len(),
    ensures
        ({
            let stop = scan_pointers(ptrs, from, at, i);
            &&& i <= stop <= ptrs.len()
            &&& forall|j: int|
                i <= j < stop ==> (#[trigger] ptrs[j]).1 != from && BoundView::Inc(ptrs[j].0).lt(at)
            &&& stop < ptrs.len() ==> ptrs[stop].1 == from || !BoundView::Inc(ptrs[stop].0).lt(at)
        }),
    decreases ptrs.len() - i,
{
    if i < ptrs.len() && ptrs[i].1 != from && BoundView::Inc(ptrs[i].0).lt(at) {
        lemma_scan(ptrs, from, at, i + 1);
    }
}

/// The pointer that is replaced when a split is noted: the first one to the page
/// that was split, if only smaller keys stand before it, and else the last one
/// before a key that is not below the split.
pub proof fn law_replaced_pointer(ptrs: Seq<(Seq<u8>, PageID)>, from: PageID, at: BoundView)
    ensures
        ({
            let slot = split_slot(ptrs, from, at);
            &&& slot < ptrs.len()
            &&& forall|j: int|
                0 <= j < slot ==> (#[trigger] ptrs[j]).1 != from && BoundView::Inc(ptrs[j].0).lt(at)
            &&& slot >= 0 && ptrs[slot].1 != from ==> {
                &&& BoundView::Inc(ptrs[slot].0).lt(at)
                &&& slot + 1 < ptrs.len() ==> ptrs[slot + 1].1 != from && !BoundView::Inc(
                    ptrs[slot + 1].0,
                ).lt(at)
            }
            &&& slot >= 0 <==> ptrs.len() > 0 && (ptrs[0].1 == from || BoundView::Inc(
                ptrs[0].0,
            ).lt(at))
        }),
{
    lemma_scan(ptrs, from, at, 0);
}

/// Noting a split keeps every other pointer, and the key of the pointer that is
/// replaced, and adds the pointer to the new page; the pointers are then in key
/// order, and those with the same key in the order in which they were.
pub proof fn law_noted_split_adds_a_pointer(
    ptrs: Seq<(Seq<u8>, PageID)>,
    split: ParentSplitView,
    key: Seq<u8>,
)
    requires
        split.at.inner() is Some,
        split_slot(ptrs, split.from, split.at) >= 0,
    ensures
        ({
            let slot = split_slot(ptrs, split.from, split.at);
            let new = with_split(ptrs, split);
            &&& new.len() == ptrs.len() + 1
            &&& forall|i: int, j: int|
                0 <= i < j < new.len() ==> !key::key_lt(
                    (#[trigger] new[j]).0,
                    (#[trigger] new[i]).0,
                )
            &&& new.to_multiset() == ptrs.remove(slot).push((ptrs[slot].0, split.from)).push(
                (split.at.inner()->0, split.to),
            ).to_multiset()
            &&& new.filter(|ptr: (Seq<u8>, PageID)| ptr.0 == key) == ptrs.remove(slot).push(
                (ptrs[slot].0, split.from),
            ).push((split.at.inner()->0, split.to)).filter(
                |ptr: (Seq<u8>, PageID)| ptr.0 == key,
            )
        }),
{
    lemma_scan(ptrs, split.from, split.at, 0);
    let slot = split_slot(ptrs, split.from, split.at);
    let all = ptrs.remove(slot).push((ptrs[slot].0, split.from)).push(
        (split.at.inner()->0, split.to),
    );
    data::law_in_key_order(all);
    data::law_key_order_is_stable(all, key);
}

/// A split can be noted in every index page whose first pointer leads to the
/// page that was split, or has a key below the split.
pub proof fn law_where_a_split_can_be_noted(node: NodeView, split: ParentSplitView)
    ensures
        node.accepts_split(split) <==> match node.data {
            DataView::Index(ptrs) => {
                &&& !(split.at is Inf)
                &&& ptrs.len() > 0
                &&& ptrs[0].1 == split.from || BoundView::Inc(ptrs[0].0).lt(split.at)
            },
            DataView::Leaf(_) => false,
        },
{
    if node.data is Index {
        law_replaced_pointer(node.data->Index_0, split.from, split.at);
    }
}

/// In an index page in key order that has a pointer to the page that was split,
/// below the key of the split, and whose next key is above it, the pointer to
/// the new page comes just behind, and all else stays.
pub proof fn law_new_pointer_comes_behind(
    ptrs: Seq<(Seq<u8>, PageID)>,
    at: Seq<u8>,
    to: PageID,
    t: int,
)
    requires
        data::sorted(ptrs),
        0 <= t < ptrs.len(),
        forall|j: int| 0 <= j < t ==> (#[trigger] ptrs[j]).1 != ptrs[t].1,
        key::key_lt(ptrs[t].0, at),
        t + 1 < ptrs.len() ==> key::key_lt(at, ptrs[t + 1].0),
    ensures
        with_split(
            ptrs,
            ParentSplitView { at: BoundView::Inc(at), to, from: ptrs[t].1 },
        ) == ptrs.insert(t + 1, (at, to)),
{
    broadcast use crate::key::group_key_order;

    let from = ptrs[t].1;
    let bound = BoundView::Inc(at);
    lemma_scan(ptrs, from, bound, 0);
    let stop = scan_pointers(ptrs, from, bound, 0);
    assert(stop == t) by {
        if stop < t {
            assert(key::key_lt(ptrs[stop].0, ptrs[t].0));
        } else if stop > t {
            assert(ptrs[t].1 != from);
        }
    }
    let pair = (ptrs[t].0, from);
    let rest = ptrs.remove(t);
    ptrs.remove_ensures(t);
    assert forall|i: int, j: int| 0 <= i < j < rest.len() implies key::key_lt(
        (#[trigger] rest[i]).0,
        (#[trigger] rest[j]).0,
    ) by {
        assert(rest[i] == ptrs[if i < t { i } else { i + 1 }]);
        assert(rest[j] == ptrs[if j < t { j } else { j + 1 }]);
    }
    data::lemma_in_key_order_sorted(rest);
    assert forall|j: int| 0 <= j < t implies !key::key_lt(pair.0, (#[trigger] rest[j]).0) by {
        assert(rest[j] == ptrs[j]);
        assert(key::key_lt(ptrs[j].0, ptrs[t].0));
    }
    assert forall|j: int| t <= j < rest.len() implies key::key_lt(
        pair.0,
        (#[trigger] rest[j]).0,
    ) by {
        assert(rest[j] == ptrs[j + 1]);
        assert(key::key_lt(ptrs[t].0, ptrs[j + 1].0));
    }
    data::lemma_placed_sorted(rest, pair, t);
    assert(rest.insert(t, pair) =~= ptrs);
    assert(rest.push(pair).drop_last() =~= rest);
    assert(data::in_key_order(rest.push(pair)) == ptrs);
    let all = rest.push(pair).push((at, to));
    assert(all.drop_last() =~= rest.push(pair));
    assert forall|j: int| 0 <= j < t + 1 implies !key::key_lt(at, (#[trigger] ptrs[j]).0) by {
        if j < t {
            assert(key::key_lt(ptrs[j].0, ptrs[t].0));
        }
    }
    assert forall|j: int| t + 1 <= j < ptrs.len() implies key::key_lt(
        at,
        (#[trigger] ptrs[j]).0,
    ) by {
        if j > t + 1 {
            assert(key::key_lt(ptrs[t + 1].0, ptrs[j].0));
        }
    }
    data::lemma_placed_sorted(ptrs, (at, to), t + 1);
}

} // verus!
