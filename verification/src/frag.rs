//! The changes that are made to pages.
use vstd::prelude::*;

use crate::bound::{Bound, BoundView};
use crate::data;
use crate::data::DataView;
use crate::key::{copy_bytes, Key, PageID, Value};
use crate::node;
use crate::node::{Node, NodeView};

verus! {

/// The note that the page `from` was split at `at`, and that the page `to`
/// took over its upper part.
#[derive(Debug, PartialEq, Eq)]
pub struct ParentSplit {
    pub at: Bound,
    pub to: PageID,
    pub from: PageID,
}

/// What a `ParentSplit` stands for.
#[verifier::ext_equal]
pub struct ParentSplitView {
    pub at: BoundView,
    pub to: PageID,
    pub from: PageID,
}

impl View for ParentSplit {
    type V = ParentSplitView;

    open spec fn view(&self) -> ParentSplitView {
        ParentSplitView { at: self.at@, to: self.to, from: self.from }
    }
}

/// A change to a page: new content, or an addition to the content that it has.
#[derive(Debug, PartialEq, Eq)]
pub enum Frag {
    /// The page holds this node.
    Base(Node),
    /// A record was stored in the leaf.
    Put(Key, Value),
    /// The record under this key was taken out of the leaf.
    Del(Key),
    /// A child of the index page was split.
    ParentSplit(ParentSplit),
}

/// What a `Frag` stands for.
#[verifier::ext_equal]
pub enum FragView {
    Base(NodeView),
    Put(Seq<u8>, Seq<u8>),
    Del(Seq<u8>),
    ParentSplit(ParentSplitView),
}

impl View for Frag {
    type V = FragView;

    open spec fn view(&self) -> FragView {
        match self {
            Frag::Base(node) => FragView::Base(node@),
            Frag::Put(key, value) => FragView::Put(key@, value@),
            Frag::Del(key) => FragView::Del(key@),
            Frag::ParentSplit(split) => FragView::ParentSplit(split@),
        }
    }
}

impl Clone for ParentSplit {
    fn clone(&self) -> (copy: Self)
        ensures
            copy@ == self@,
    {
        ParentSplit { at: self.at.clone(), to: self.to, from: self.from }
    }
}

impl NodeView {
    /// The change makes sense on a page with this content.
    pub open spec fn accepts(self, frag: FragView) -> bool {
        match frag {
            FragView::Base(node) => node.id == self.id,
            FragView::Put(_, _) => self.data is Leaf && self.data.sorted(),
            FragView::Del(_) => self.data is Leaf && self.data.sorted(),
            FragView::ParentSplit(split) => self.accepts_split(split),
        }
    }

    /// The content of the page after the change.
    pub open spec fn apply(self, frag: FragView) -> NodeView {
        match frag {
            FragView::Base(node) => node,
            FragView::Put(key, value) => NodeView {
                data: DataView::Leaf(data::with_entry(self.data->Leaf_0, key, value)),
                ..self
            },
            FragView::Del(key) => NodeView {
                data: DataView::Leaf(data::without_entry(self.data->Leaf_0, key)),
                ..self
            },
            FragView::ParentSplit(split) => NodeView {
                data: DataView::Index(node::with_split(self.data->Index_0, split)),
                ..self
            },
        }
    }
}

impl Frag {
    /// Makes this change to the content of a page.
    pub fn apply_to(&self, node: &mut Node)
        requires
            old(node)@.accepts(self@),
        ensures
            final(node)@ == old(node)@.apply(self@),
    {
        match self {
            Frag::Base(base) => {
                *node = base.clone();
            },
            Frag::Put(key, value) => {
                let _ = node.set_leaf(copy_bytes(key), copy_bytes(value));
            },
            Frag::Del(key) => node.del_leaf(key),
            Frag::ParentSplit(split) => node.parent_split(split.clone()),
        }
    }
}

/// Records and pointers change the entries of a page alone: its number, its
/// neighbour and its range stay. New content replaces everything.
pub proof fn law_changes_keep_the_range(node: NodeView, frag: FragView)
    ensures
        frag is Base ==> node.apply(frag) == frag->Base_0,
        !(frag is Base) ==> {
            &&& node.apply(frag).id == node.id
            &&& node.apply(frag).next == node.next
            &&& node.apply(frag).lo == node.lo
            &&& node.apply(frag).hi == node.hi
        },
{
}

/// After a record was stored in a leaf or taken out, the leaf is sorted, and
/// holds the other records that it held.
pub proof fn law_leaf_after_a_change(
    node: NodeView,
    key: Seq<u8>,
    value: Seq<u8>,
    k: Seq<u8>,
    v: Seq<u8>,
)
    requires
        node.data is Leaf,
        data::sorted(node.data->Leaf_0),
    ensures
        ({
            let items = node.data->Leaf_0;
            let put = node.apply(FragView::Put(key, value)).data;
            let del = node.apply(FragView::Del(key)).data;
            let had = exists|i: int| 0 <= i < items.len() && (#[trigger] items[i]).0 == key;
            &&& put is Leaf && data::sorted(put->Leaf_0)
            &&& del is Leaf && data::sorted(del->Leaf_0)
            &&& put->Leaf_0.contains((k, v)) <==> (if k == key {
                v == value
            } else {
                items.contains((k, v))
            })
            &&& del->Leaf_0.contains((k, v)) <==> k != key && items.contains((k, v))
            &&& put->Leaf_0.len() == items.len() + (if had {
                0int
            } else {
                1
            })
            &&& del->Leaf_0.len() == items.len() - (if had {
                1int
            } else {
                0
            })
        }),
{
    let items = node.data->Leaf_0;
    data::lemma_with_entry(items, key, value);
    data::lemma_without_entry(items, key);
    data::lemma_rank(items, key);
    let i = data::rank(items, key) as int;
    if exists|j: int| 0 <= j < items.len() && (#[trigger] items[j]).0 == key {
        let j = choose|j: int| 0 <= j < items.len() && (#[trigger] items[j]).0 == key;
        data::lemma_rank_of_entry(items, j);
    }
}

} // verus!
