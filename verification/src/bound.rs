//! The bounds of the key range that a page is responsible for.
use vstd::prelude::*;

use crate::key;
use crate::key::{compare, copy_bytes, Key, KeyOrder};

verus! {

/// One end of a range of keys.
#[derive(Debug, PartialEq, Eq)]
pub enum Bound {
    /// At this key, with the key itself.
    Inc(Key),
    /// Just below this key.
    Non(Key),
    /// Above every key.
    Inf,
}

/// What a `Bound` stands for.
#[verifier::ext_equal]
pub enum BoundView {
    Inc(Seq<u8>),
    Non(Seq<u8>),
    Inf,
}

impl View for Bound {
    type V = BoundView;

    open spec fn view(&self) -> BoundView {
        match self {
            Bound::Inc(key) => BoundView::Inc(key@),
            Bound::Non(key) => BoundView::Non(key@),
            Bound::Inf => BoundView::Inf,
        }
    }
}

impl BoundView {
    /// The order of bounds: by key, just below a key before the key itself,
    /// and `Inf` above all.
    pub open spec fn lt(self, other: BoundView) -> bool {
        match (self, other) {
            (BoundView::Inf, _) => false,
            (_, BoundView::Inf) => true,
            (BoundView::Inc(a), BoundView::Inc(b)) => key::key_lt(a, b),
            (BoundView::Non(a), BoundView::Non(b)) => key::key_lt(a, b),
            (BoundView::Inc(a), BoundView::Non(b)) => key::key_lt(a, b),
            (BoundView::Non(a), BoundView::Inc(b)) => key::key_le(a, b),
        }
    }

    /// The key in the bound.
    pub open spec fn inner(self) -> Option<Seq<u8>> {
        match self {
            BoundView::Inc(key) => Some(key),
            BoundView::Non(key) => Some(key),
            BoundView::Inf => None,
        }
    }
}

impl Clone for Bound {
    fn clone(&self) -> (copy: Self)
        ensures
            copy@ == self@,
    {
        match self {
            Bound::Inc(key) => Bound::Inc(copy_bytes(key)),
            Bound::Non(key) => Bound::Non(copy_bytes(key)),
            Bound::Inf => Bound::Inf,
        }
    }
}

impl Bound {
    /// The key in the bound, if it has one.
    pub fn inner(&self) -> (key: Option<Key>)
        ensures
            key is Some <==> self@.inner() is Some,
            key is Some ==> Some(key->0@) == self@.inner(),
            match *self {
                Bound::Inc(k) => key is Some && key->0@ == k@,
                Bound::Non(k) => key is Some && key->0@ == k@,
                Bound::Inf => key is None,
            },
    {
        match self {
            Bound::Inc(key) => Some(copy_bytes(key)),
            Bound::Non(key) => Some(copy_bytes(key)),
            Bound::Inf => None,
        }
    }

    /// Whether this bound comes before `other`.
    pub fn is_below(&self, other: &Bound) -> (below: bool)
        ensures
            below == self@.lt(other@),
    {
        broadcast use crate::key::group_key_order;

        match (self, other) {
            (Bound::Inf, _) => false,
            (_, Bound::Inf) => true,
            (Bound::Inc(a), Bound::Inc(b)) => matches!(compare(a, b), KeyOrder::Below),
            (Bound::Non(a), Bound::Non(b)) => matches!(compare(a, b), KeyOrder::Below),
            (Bound::Inc(a), Bound::Non(b)) => matches!(compare(a, b), KeyOrder::Below),
            (Bound::Non(a), Bound::Inc(b)) => !matches!(compare(a, b), KeyOrder::Above),
        }
    }
}

/// Bounds are in a strict total order: none is before itself, of two
/// different ones just one is before the other, and the order is transitive.
pub proof fn law_bound_order(a: BoundView, b: BoundView, c: BoundView)
    ensures
        !a.lt(a),
        a.lt(b) ==> !b.lt(a),
        a.lt(b) || b.lt(a) || a == b,
        a.lt(b) && b.lt(c) ==> a.lt(c),
{
    broadcast use crate::key::group_key_order;

}

/// `Inf` is above every key, and the bound just below a key comes between
/// that key and every smaller one.
pub proof fn law_bound_below_key(key: Seq<u8>, smaller: Seq<u8>)
    requires
        key::key_lt(smaller, key),
    ensures
        BoundView::Inc(smaller).lt(BoundView::Non(key)),
        BoundView::Non(key).lt(BoundView::Inc(key)),
        BoundView::Inc(key).lt(BoundView::Inf),
        BoundView::Non(key).lt(BoundView::Inf),
{
}

} // verus!
