//! Keys, values and page identifiers, and the order of keys.
use vstd::prelude::*;

verus! {

/// A key: a string of bytes, ordered byte by byte.
pub type Key = Vec<u8>;

/// A value: a string of bytes.
pub type Value = Vec<u8>;

/// The number of a page.
pub type PageID = usize;

/// `a` agrees with `b` before position `i`, and there `a` ends or has the
/// smaller byte.
pub open spec fn falls_below_at(a: Seq<u8>, b: Seq<u8>, i: int) -> bool {
    &&& 0 <= i <= a.len()
    &&& i < b.len()
    &&& forall|j: int| 0 <= j < i ==> a[j] == b[j]
    &&& i == a.len() || a[i] < b[i]
}

/// The lexicographic order of byte strings.
#[verifier::opaque]
pub open spec fn key_lt(a: Seq<u8>, b: Seq<u8>) -> bool {
    exists|i: int| falls_below_at(a, b, i)
}

/// `a` is below `b`, or is `b`.
pub open spec fn key_le(a: Seq<u8>, b: Seq<u8>) -> bool {
    key_lt(a, b) || a == b
}

/// No key is below itself.
pub broadcast proof fn lemma_key_lt_irreflexive(a: Seq<u8>)
    ensures
        !(#[trigger] key_lt(a, a)),
{
    reveal(key_lt);
}

/// Two keys are not each below the other.
pub broadcast proof fn lemma_key_lt_asymmetric(a: Seq<u8>, b: Seq<u8>)
    requires
        #[trigger] key_lt(a, b),
    ensures
        !key_lt(b, a),
{
    if key_lt(b, a) {
        lemma_key_lt_transitive(a, b, a);
        lemma_key_lt_irreflexive(a);
    }
}

/// The order of keys is transitive.
pub broadcast proof fn lemma_key_lt_transitive(a: Seq<u8>, b: Seq<u8>, c: Seq<u8>)
    requires
        #[trigger] key_lt(a, b),
        #[trigger] key_lt(b, c),
    ensures
        key_lt(a, c),
{
    reveal(key_lt);
    let i = choose|i: int| falls_below_at(a, b, i);
    let j = choose|j: int| falls_below_at(b, c, j);
    let k = if i < j { i } else { j };
    assert(falls_below_at(a, c, k));
}

/// Of two different keys one is below the other.
pub broadcast proof fn lemma_key_lt_total(a: Seq<u8>, b: Seq<u8>)
    ensures
        #[trigger] key_lt(a, b) || a == b || key_lt(b, a),
{
    lemma_first_difference(a, b, 0);
}

/// The empty key is the least.
pub proof fn lemma_empty_key_least(a: Seq<u8>)
    ensures
        key_le(Seq::empty(), a),
        !key_lt(a, Seq::empty()),
{
    reveal(key_lt);
    if a.len() == 0 {
        assert(a =~= Seq::empty());
    } else {
        assert(falls_below_at(Seq::empty(), a, 0));
    }
}

proof fn lemma_first_difference(a: Seq<u8>, b: Seq<u8>, i: int)
    requires
        0 <= i <= a.len(),
        i <= b.len(),
        forall|j: int| 0 <= j < i ==> a[j] == b[j],
    ensures
        key_lt(a, b) || a == b || key_lt(b, a),
    decreases a.len() - i,
{
    if i == a.len() && i == b.len() {
        assert(a =~= b);
    } else if i < a.len() && i < b.len() && a[i] == b[i] {
        lemma_first_difference(a, b, i + 1);
    } else {
        reveal(key_lt);
        assert(falls_below_at(a, b, i) || falls_below_at(b, a, i));
    }
}

/// What makes the order of keys a strict total order.
pub broadcast group group_key_order {
    lemma_key_lt_irreflexive,
    lemma_key_lt_asymmetric,
    lemma_key_lt_transitive,
    lemma_key_lt_total,
}

/// How one key stands to another.
#[derive(Clone, Copy, Debug, PartialEq, Eq)]
pub enum KeyOrder {
    Below,
    Same,
    Above,
}

/// Compares two keys byte by byte.
pub fn compare(a: &[u8], b: &[u8]) -> (order: KeyOrder)
    ensures
        order is Below <==> key_lt(a@, b@),
        order is Same <==> a@ == b@,
        order is Above <==> key_lt(b@, a@),
{
    broadcast use group_key_order;

    let mut i: usize = 0;
    while i < a.len() && i < b.len()
        invariant
            i <= a@.len(),
            i <= b@.len(),
            forall|j: int| 0 <= j < i ==> a@[j] == b@[j],
        decreases a@.len() - i,
    {
        if a[i] < b[i] {
            proof {
                reveal(key_lt);
                assert(falls_below_at(a@, b@, i as int));
            }
            return KeyOrder::Below;
        }
        if b[i] < a[i] {
            proof {
                reveal(key_lt);
                assert(falls_below_at(b@, a@, i as int));
            }
            return KeyOrder::Above;
        }
        i += 1;
    }
    if i < b.len() {
        proof {
            reveal(key_lt);
            assert(falls_below_at(a@, b@, i as int));
        }
        KeyOrder::Below
    } else if i < a.len() {
        proof {
            reveal(key_lt);
            assert(falls_below_at(b@, a@, i as int));
        }
        KeyOrder::Above
    } else {
        assert(a@ =~= b@);
        KeyOrder::Same
    }
}

/// Copies a string of bytes.
pub fn copy_bytes(bytes: &[u8]) -> (copy: Vec<u8>)
    ensures
        copy@ == bytes@,
{
    let mut copy: Vec<u8> = Vec::with_capacity(bytes.len());
    let mut i: usize = 0;
    while i < bytes.len()
        invariant
            i <= bytes@.len(),
            copy@ == bytes@.subrange(0, i as int),
        decreases bytes@.len() - i,
    {
        copy.push(bytes[i]);
        i += 1;
        assert(copy@ =~= bytes@.subrange(0, i as int));
    }
    assert(bytes@.subrange(0, i as int) =~= bytes@);
    copy
}

/// Keys are ordered like words in a dictionary: every key but the empty one is
/// above the empty one, the first byte decides where two keys differ in it, and
/// what two keys begin with in common does not matter.
pub proof fn law_key_order_by_bytes(a: Seq<u8>, b: Seq<u8>, start: Seq<u8>)
    ensures
        key_lt(Seq::empty(), a) <==> a.len() > 0,
        !key_lt(a, Seq::empty()),
        a.len() > 0 && b.len() > 0 && a[0] < b[0] ==> key_lt(a, b),
        key_lt(start + a, start + b) <==> key_lt(a, b),
{
    reveal(key_lt);
    if a.len() > 0 {
        assert(falls_below_at(Seq::empty(), a, 0));
    }
    if a.len() > 0 && b.len() > 0 && a[0] < b[0] {
        assert(falls_below_at(a, b, 0));
    }
    let n = start.len() as int;
    if key_lt(a, b) {
        let i = choose|i: int| falls_below_at(a, b, i);
        assert(falls_below_at(start + a, start + b, n + i));
    }
    if key_lt(start + a, start + b) {
        let i = choose|i: int| falls_below_at(start + a, start + b, i);
        assert(i >= n);
        assert forall|j: int| 0 <= j < i - n implies a[j] == b[j] by {
            assert((start + a)[n + j] == (start + b)[n + j]);
        }
        assert(falls_below_at(a, b, i - n));
    }
}

} // verus!
