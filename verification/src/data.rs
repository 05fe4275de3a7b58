//! The entries of a page, sorted by key.
use vstd::prelude::*;

use crate::key;
use crate::key::{compare, copy_bytes, Key, KeyOrder, PageID, Value};

verus! {

/// How many entries a page may hold before it is split.
pub const FANOUT: usize = 2;

/// What an entry holds beside its key.
pub trait Payload: View + Sized {
    /// An equal payload.
    fn duplicate(&self) -> (copy: Self)
        ensures
            copy@ == self@,
    ;
}

impl Payload for usize {
    fn duplicate(&self) -> (copy: Self) {
        *self
    }
}

impl Payload for Vec<u8> {
    fn duplicate(&self) -> (copy: Self) {
        copy_bytes(self)
    }
}

/// What a list of entries stands for.
pub open spec fn entries<T: View>(list: Seq<(Key, T)>) -> Seq<(Seq<u8>, T::V)> {
    Seq::new(list.len(), |i: int| (list[i].0@, list[i].1@))
}

/// The keys of the entries are strictly increasing.
pub open spec fn sorted<V>(list: Seq<(Seq<u8>, V)>) -> bool {
    forall|i: int, j: int|
        0 <= i < j < list.len() ==> key::key_lt((#[trigger] list[i]).0, (#[trigger] list[j]).0)
}

/// How many of the entries have a key below `key`.
pub open spec fn rank<V>(list: Seq<(Seq<u8>, V)>, key: Seq<u8>) -> nat
    decreases list.len(),
{
    if list.len() == 0 {
        0
    } else {
        rank(list.drop_last(), key) + (if key::key_lt(list.last().0, key) {
            1nat
        } else {
            0nat
        })
    }
}

/// What a sorted list has under `key`.
pub open spec fn lookup<V>(list: Seq<(Seq<u8>, V)>, key: Seq<u8>) -> Option<V> {
    let i = rank(list, key) as int;
    if i < list.len() && list[i].0 == key {
        Some(list[i].1)
    } else {
        None
    }
}

/// A sorted list after `value` was stored under `key`.
pub open spec fn with_entry<V>(list: Seq<(Seq<u8>, V)>, key: Seq<u8>, value: V) -> Seq<
    (Seq<u8>, V),
> {
    let i = rank(list, key) as int;
    if i < list.len() && list[i].0 == key {
        list.update(i, (key, value))
    } else {
        list.insert(i, (key, value))
    }
}

/// A sorted list after the entry under `key`, if any, was taken out.
pub open spec fn without_entry<V>(list: Seq<(Seq<u8>, V)>, key: Seq<u8>) -> Seq<(Seq<u8>, V)> {
    let i = rank(list, key) as int;
    if i < list.len() && list[i].0 == key {
        list.remove(i)
    } else {
        list
    }
}

/// How many of the entries have a key that is not above `key`.
pub open spec fn rank_through<V>(list: Seq<(Seq<u8>, V)>, key: Seq<u8>) -> nat
    decreases list.len(),
{
    if list.len() == 0 {
        0
    } else {
        rank_through(list.drop_last(), key) + (if key::key_lt(key, list.last().0) {
            0nat
        } else {
            1nat
        })
    }
}

/// A list in key order with one more entry, after those whose key is not above
/// its own.
pub open spec fn placed<V>(list: Seq<(Seq<u8>, V)>, entry: (Seq<u8>, V)) -> Seq<(Seq<u8>, V)> {
    list.insert(rank_through(list, entry.0) as int, entry)
}

/// A list put in key order, where entries with the same key stay in the order
/// in which they were.
pub open spec fn in_key_order<V>(list: Seq<(Seq<u8>, V)>) -> Seq<(Seq<u8>, V)>
    decreases list.len(),
{
    if list.len() == 0 {
        list
    } else {
        placed(in_key_order(list.drop_last()), list.last())
    }
}

/// The keys of the entries never decrease.
pub open spec fn ordered<V>(list: Seq<(Seq<u8>, V)>) -> bool {
    forall|i: int, j: int|
        0 <= i < j < list.len() ==> !key::key_lt((#[trigger] list[j]).0, (#[trigger] list[i]).0)
}

/// The test that an entry has a key below `key`.
pub open spec fn below<V>(key: Seq<u8>) -> spec_fn((Seq<u8>, V)) -> bool {
    |entry: (Seq<u8>, V)| key::key_lt(entry.0, key)
}

/// In a sorted list the entries below `key` come first.
pub proof fn lemma_rank<V>(list: Seq<(Seq<u8>, V)>, key: Seq<u8>)
    requires
        sorted(list),
    ensures
        0 <= rank(list, key) <= list.len(),
        forall|j: int| 0 <= j < rank(list, key) ==> key::key_lt((#[trigger] list[j]).0, key),
        forall|j: int|
            rank(list, key) <= j < list.len() ==> !key::key_lt((#[trigger] list[j]).0, key),
    decreases list.len(),
{
    broadcast use crate::key::group_key_order;

    if list.len() > 0 {
        lemma_rank(list.drop_last(), key);
        let n = rank(list.drop_last(), key) as int;
        if n < list.len() - 1 {
            assert(!key::key_lt(list.drop_last()[n].0, key));
            assert(key::key_lt(list[n].0, list[list.len() - 1].0));
        }
        assert forall|j: int| 0 <= j < rank(list, key) implies key::key_lt(
            (#[trigger] list[j]).0,
            key,
        ) by {
            if j < list.len() - 1 {
                assert(list.drop_last()[j] == list[j]);
            }
        }
        assert forall|j: int| rank(list, key) <= j < list.len() implies !key::key_lt(
            (#[trigger] list[j]).0,
            key,
        ) by {
            if j < list.len() - 1 {
                assert(list.drop_last()[j] == list[j]);
            }
        }
    }
}

/// The rank of a key is the only place that parts the smaller keys from the
/// others.
pub proof fn lemma_rank_unique<V>(list: Seq<(Seq<u8>, V)>, key: Seq<u8>, i: int)
    requires
        sorted(list),
        0 <= i <= list.len(),
        forall|j: int| 0 <= j < i ==> key::key_lt((#[trigger] list[j]).0, key),
        forall|j: int| i <= j < list.len() ==> !key::key_lt((#[trigger] list[j]).0, key),
    ensures
        rank(list, key) == i,
{
    lemma_rank(list, key);
    let r = rank(list, key) as int;
    if r < i {
        assert(key::key_lt(list[r].0, key));
    } else if i < r {
        assert(key::key_lt(list[i].0, key));
    }
}

/// The rank of the key of an entry is the position of the entry.
pub proof fn lemma_rank_of_entry<V>(list: Seq<(Seq<u8>, V)>, i: int)
    requires
        sorted(list),
        0 <= i < list.len(),
    ensures
        rank(list, list[i].0) == i,
        lookup(list, list[i].0) == Some(list[i].1),
{
    broadcast use crate::key::group_key_order;

    assert forall|j: int| i <= j < list.len() implies !key::key_lt(
        (#[trigger] list[j]).0,
        list[i].0,
    ) by {
        if i < j {
            assert(key::key_lt(list[i].0, list[j].0));
        }
    }
    lemma_rank_unique(list, list[i].0, i);
}

/// A sorted list has something under `key` just when an entry has that key.
pub proof fn lemma_lookup_contains<V>(list: Seq<(Seq<u8>, V)>, key: Seq<u8>, value: V)
    requires
        sorted(list),
    ensures
        list.contains((key, value)) <==> lookup(list, key) == Some(value),
{
    if list.contains((key, value)) {
        let i = choose|i: int| 0 <= i < list.len() && list[i] == (key, value);
        lemma_rank_of_entry(list, i);
    }
    if lookup(list, key) == Some(value) {
        let i = rank(list, key) as int;
        assert(list[i] == (key, value));
    }
}

/// Storing an entry keeps a list sorted, and changes what it has under that
/// key alone.
pub proof fn lemma_with_entry<V>(list: Seq<(Seq<u8>, V)>, key: Seq<u8>, value: V)
    requires
        sorted(list),
    ensures
        sorted(with_entry(list, key, value)),
        with_entry(list, key, value).contains((key, value)),
        forall|k: Seq<u8>, v: V|
            k != key ==> (#[trigger] with_entry(list, key, value).contains((k, v))
                <==> list.contains((k, v))),
        forall|v: V| #[trigger]
            with_entry(list, key, value).contains((key, v)) ==> v == value,
        with_entry(list, key, value).len() <= list.len() + 1,
{
    broadcast use crate::key::group_key_order;

    lemma_rank(list, key);
    let i = rank(list, key) as int;
    let new = with_entry(list, key, value);
    if i < list.len() && list[i].0 == key {
        assert(new[i] == (key, value));
        assert forall|a: int, b: int| 0 <= a < b < new.len() implies key::key_lt(
            (#[trigger] new[a]).0,
            (#[trigger] new[b]).0,
        ) by {
            assert(new[a].0 == list[a].0);
            assert(new[b].0 == list[b].0);
        }
        assert forall|k: Seq<u8>, v: V| k != key implies (#[trigger] new.contains((k, v))
            <==> list.contains((k, v))) by {
            if list.contains((k, v)) {
                let j = choose|j: int| 0 <= j < list.len() && list[j] == (k, v);
                assert(new[j] == (k, v));
            }
            if new.contains((k, v)) {
                let j = choose|j: int| 0 <= j < new.len() && new[j] == (k, v);
                assert(list[j] == (k, v));
            }
        }
    } else {
        list.insert_ensures(i, (key, value));
        assert(new[i] == (key, value));
        assert forall|a: int, b: int| 0 <= a < b < new.len() implies key::key_lt(
            (#[trigger] new[a]).0,
            (#[trigger] new[b]).0,
        ) by {
            let x = if a < i { a } else { a - 1 };
            let y = if b < i { b } else { b - 1 };
            if a != i {
                assert(new[a] == list[x]);
            }
            if b != i {
                assert(new[b] == list[y]);
            }
            if i < list.len() {
                assert(key::key_lt(key, list[i].0));
            }
        }
        assert forall|k: Seq<u8>, v: V| k != key implies (#[trigger] new.contains((k, v))
            <==> list.contains((k, v))) by {
            if list.contains((k, v)) {
                let j = choose|j: int| 0 <= j < list.len() && list[j] == (k, v);
                assert(new[if j < i { j } else { j + 1 }] == (k, v));
            }
            if new.contains((k, v)) {
                let j = choose|j: int| 0 <= j < new.len() && new[j] == (k, v);
                assert(list[if j < i { j } else { j - 1 }] == (k, v));
            }
        }
    }
    assert forall|v: V| #[trigger] new.contains((key, v)) implies v == value by {
        let j = choose|j: int| 0 <= j < new.len() && new[j] == (key, v);
        if j < i {
            assert(key::key_lt(new[j].0, new[i].0));
        } else if i < j {
            assert(key::key_lt(new[i].0, new[j].0));
        }
    }
}

/// Taking an entry out keeps a list sorted, and changes what it has under
/// that key alone.
pub proof fn lemma_without_entry<V>(list: Seq<(Seq<u8>, V)>, key: Seq<u8>)
    requires
        sorted(list),
    ensures
        sorted(without_entry(list, key)),
        forall|k: Seq<u8>, v: V| #[trigger]
            without_entry(list, key).contains((k, v)) <==> k != key && list.contains((k, v)),
        without_entry(list, key).len() <= list.len(),
{
    broadcast use crate::key::group_key_order;

    lemma_rank(list, key);
    let i = rank(list, key) as int;
    let new = without_entry(list, key);
    if i < list.len() && list[i].0 == key {
        list.remove_ensures(i);
        assert forall|a: int, b: int| 0 <= a < b < new.len() implies key::key_lt(
            (#[trigger] new[a]).0,
            (#[trigger] new[b]).0,
        ) by {
            assert(new[a] == list[if a < i { a } else { a + 1 }]);
            assert(new[b] == list[if b < i { b } else { b + 1 }]);
        }
        assert forall|k: Seq<u8>, v: V| #[trigger] new.contains((k, v)) <==> k != key
            && list.contains((k, v)) by {
            if k != key && list.contains((k, v)) {
                let j = choose|j: int| 0 <= j < list.len() && list[j] == (k, v);
                assert(new[if j < i { j } else { j - 1 }] == (k, v));
            }
            if new.contains((k, v)) {
                let j = choose|j: int| 0 <= j < new.len() && new[j] == (k, v);
                let x = if j < i { j } else { j + 1 };
                assert(list[x] == (k, v));
                if x < i {
                    assert(key::key_lt(list[x].0, list[i].0));
                } else {
                    assert(key::key_lt(list[i].0, list[x].0));
                }
            }
        }
    } else {
        assert forall|v: V| list.contains((key, v)) implies false by {
            let j = choose|j: int| 0 <= j < list.len() && list[j] == (key, v);
            if j < i {
                assert(key::key_lt(list[j].0, key));
            } else if i < j {
                assert(key::key_lt(list[i].0, list[j].0));
                assert(!key::key_lt(list[i].0, key));
            }
        }
    }
}

/// In a list in key order the entries not above `key` come first.
pub proof fn lemma_rank_through<V>(list: Seq<(Seq<u8>, V)>, key: Seq<u8>)
    requires
        ordered(list),
    ensures
        rank_through(list, key) <= list.len(),
        forall|j: int|
            0 <= j < rank_through(list, key) ==> !key::key_lt(key, (#[trigger] list[j]).0),
        forall|j: int|
            rank_through(list, key) <= j < list.len() ==> key::key_lt(
                key,
                (#[trigger] list[j]).0,
            ),
    decreases list.len(),
{
    broadcast use crate::key::group_key_order;

    if list.len() > 0 {
        let rest = list.drop_last();
        assert forall|i: int, j: int| 0 <= i < j < rest.len() implies !key::key_lt(
            (#[trigger] rest[j]).0,
            (#[trigger] rest[i]).0,
        ) by {
            assert(!key::key_lt(list[j].0, list[i].0));
        }
        lemma_rank_through(rest, key);
        let n = rank_through(rest, key) as int;
        if n < rest.len() {
            assert(key::key_lt(key, rest[n].0));
            assert(!key::key_lt(list[list.len() - 1].0, list[n].0));
        }
        assert forall|j: int| 0 <= j < rank_through(list, key) implies !key::key_lt(
            key,
            (#[trigger] list[j]).0,
        ) by {
            if j < rest.len() {
                assert(rest[j] == list[j]);
            }
        }
        assert forall|j: int| rank_through(list, key) <= j < list.len() implies key::key_lt(
            key,
            (#[trigger] list[j]).0,
        ) by {
            if j < rest.len() {
                assert(rest[j] == list[j]);
            }
        }
    }
}

/// Putting a list in key order leaves a list in key order, with the same
/// entries.
pub proof fn law_in_key_order<V>(list: Seq<(Seq<u8>, V)>)
    ensures
        ordered(in_key_order(list)),
        in_key_order(list).to_multiset() == list.to_multiset(),
        in_key_order(list).len() == list.len(),
    decreases list.len(),
{
    broadcast use crate::key::group_key_order;

    if list.len() > 0 {
        let rest = in_key_order(list.drop_last());
        let entry = list.last();
        law_in_key_order(list.drop_last());
        lemma_rank_through(rest, entry.0);
        let n = rank_through(rest, entry.0) as int;
        let new = placed(rest, entry);
        rest.insert_ensures(n, entry);
        assert forall|i: int, j: int| 0 <= i < j < new.len() implies !key::key_lt(
            (#[trigger] new[j]).0,
            (#[trigger] new[i]).0,
        ) by {
            let x = if i < n { i } else { i - 1 };
            let y = if j < n { j } else { j - 1 };
            if i != n {
                assert(new[i] == rest[x]);
            }
            if j != n {
                assert(new[j] == rest[y]);
            }
        }
        vstd::seq_lib::to_multiset_insert(rest, n, entry);
        assert(list =~= list.drop_last().push(entry));
        vstd::seq_lib::to_multiset_build(list.drop_last(), entry);
    }
}

/// A sorted list is in key order already.
pub proof fn lemma_in_key_order_sorted<V>(list: Seq<(Seq<u8>, V)>)
    requires
        sorted(list),
    ensures
        in_key_order(list) == list,
    decreases list.len(),
{
    broadcast use crate::key::group_key_order;

    if list.len() > 0 {
        let rest = list.drop_last();
        let entry = list.last();
        assert(sorted(rest)) by {
            assert forall|i: int, j: int| 0 <= i < j < rest.len() implies key::key_lt(
                (#[trigger] rest[i]).0,
                (#[trigger] rest[j]).0,
            ) by {
                assert(key::key_lt(list[i].0, list[j].0));
            }
        }
        lemma_in_key_order_sorted(rest);
        lemma_placed_sorted(rest, entry, rest.len() as int);
        assert(placed(rest, entry) =~= list);
    }
}

/// Where a new entry goes in a sorted list.
pub proof fn lemma_placed_sorted<V>(list: Seq<(Seq<u8>, V)>, entry: (Seq<u8>, V), i: int)
    requires
        sorted(list),
        0 <= i <= list.len(),
        forall|j: int| 0 <= j < i ==> !key::key_lt(entry.0, (#[trigger] list[j]).0),
        forall|j: int| i <= j < list.len() ==> key::key_lt(entry.0, (#[trigger] list[j]).0),
    ensures
        placed(list, entry) == list.insert(i, entry),
{
    broadcast use crate::key::group_key_order;

    assert forall|a: int, b: int| 0 <= a < b < list.len() implies !key::key_lt(
        (#[trigger] list[b]).0,
        (#[trigger] list[a]).0,
    ) by {
        assert(key::key_lt(list[a].0, list[b].0));
    }
    lemma_rank_through(list, entry.0);
    let r = rank_through(list, entry.0) as int;
    if r < i {
        assert(key::key_lt(entry.0, list[r].0));
    } else if i < r {
        assert(!key::key_lt(entry.0, list[i].0));
    }
}

/// Puts a list in key order, where entries with the same key stay in the order
/// in which they were.
pub fn sort_by_key<T: View>(list: &mut Vec<(Key, T)>)
    ensures
        entries(final(list)@) == in_key_order(entries(old(list)@)),
{
    let ghost all = entries(list@);
    let mut done: usize = 0;
    assert(all.take(0) =~= Seq::empty());
    assert(in_key_order(all.take(0)) + all.skip(0) =~= all);
    while done < list.len()
        invariant
            done <= all.len(),
            list@.len() == all.len(),
            entries(list@) == in_key_order(all.take(done as int)) + all.skip(done as int),
            in_key_order(all.take(done as int)).len() == done,
        decreases all.len() - done,
    {
        let ghost front = in_key_order(all.take(done as int));
        let ghost item = all[done as int];
        let ghost es = entries(list@);
        assert(all.skip(done as int)[0] == item);
        assert(es[done as int] == item);
        let mut place: usize = 0;
        let mut i: usize = 0;
        assert(front.take(0) =~= Seq::empty());
        while i < done
            invariant
                i <= done < list@.len(),
                es == entries(list@),
                front.len() == done,
                es[done as int] == item,
                forall|j: int| 0 <= j < done ==> es[j] == front[j],
                place == rank_through(front.take(i as int), item.0),
                place <= i,
            decreases done - i,
        {
            assert(es[i as int].0 == list@[i as int].0@);
            assert(es[done as int].0 == list@[done as int].0@);
            assert(es[i as int] == front[i as int]);
            assert(front.take(i + 1).drop_last() =~= front.take(i as int));
            assert(front.take(i + 1).last() == front[i as int]);
            if !matches!(compare(&list[done].0, &list[i].0), KeyOrder::Below) {
                place += 1;
            }
            i += 1;
        }
        assert(front.take(i as int) =~= front);
        let entry = list.remove(done);
        list.insert(place, entry);
        proof {
            assert(all.take(done + 1).drop_last() =~= all.take(done as int));
            assert(all.take(done + 1).last() == item);
            assert(in_key_order(all.take(done + 1)) == front.insert(place as int, item));
            assert(entries(list@) =~= es.remove(done as int).insert(place as int, item));
            assert(entries(list@) =~= front.insert(place as int, item) + all.skip(done + 1));
        }
        done += 1;
    }
    assert(all.take(done as int) =~= all);
    assert(entries(list@) =~= in_key_order(all));
}

/// Searches a sorted list for a key: `Ok` with its position, or `Err` with
/// the position where it would stand.
pub fn search<T: View>(list: &Vec<(Key, T)>, key: &[u8]) -> (found: Result<usize, usize>)
    requires
        sorted(entries(list@)),
    ensures
        match found {
            Ok(i) => {
                &&& i == rank(entries(list@), key@)
                &&& i < list@.len()
                &&& entries(list@)[i as int].0 == key@
            },
            Err(i) => {
                &&& i == rank(entries(list@), key@)
                &&& i <= list@.len()
                &&& i < list@.len() ==> entries(list@)[i as int].0 != key@
            },
        },
{
    broadcast use crate::key::group_key_order;

    let ghost es = entries(list@);
    let mut low: usize = 0;
    let mut high: usize = list.len();
    while low < high
        invariant
            es == entries(list@),
            sorted(es),
            low <= high <= list@.len(),
            forall|j: int| 0 <= j < low ==> key::key_lt((#[trigger] es[j]).0, key@),
            forall|j: int| high <= j < es.len() ==> key::key_lt(key@, (#[trigger] es[j]).0),
        decreases high - low,
    {
        broadcast use crate::key::group_key_order;

        let mid: usize = low + (high - low) / 2;
        assert(es[mid as int].0 == list@[mid as int].0@);
        match compare(&list[mid].0, key) {
            KeyOrder::Below => {
                assert forall|j: int| 0 <= j < mid + 1 implies key::key_lt(
                    (#[trigger] es[j]).0,
                    key@,
                ) by {
                    if j < mid {
                        assert(key::key_lt(es[j].0, es[mid as int].0));
                    }
                }
                low = mid + 1;
            },
            KeyOrder::Same => {
                proof {
                    lemma_rank_of_entry(es, mid as int);
                }
                return Ok(mid);
            },
            KeyOrder::Above => {
                assert forall|j: int| mid <= j < es.len() implies key::key_lt(
                    key@,
                    (#[trigger] es[j]).0,
                ) by {
                    if mid < j {
                        assert(key::key_lt(es[mid as int].0, es[j].0));
                    }
                }
                high = mid;
            },
        }
    }
    proof {
        assert forall|j: int| low <= j < es.len() implies !key::key_lt(
            (#[trigger] es[j]).0,
            key@,
        ) by {
            assert(key::key_lt(key@, es[j].0));
        }
        lemma_rank_unique(es, key@, low as int);
        if low < es.len() {
            assert(key::key_lt(key@, es[low as int].0));
        }
    }
    Err(low)
}

/// Stores `value` under `key` in a sorted list.
pub fn store<T: View>(list: &mut Vec<(Key, T)>, key: Key, value: T)
    requires
        sorted(entries(old(list)@)),
    ensures
        entries(final(list)@) == with_entry(entries(old(list)@), key@, value@),
{
    let ghost before = entries(list@);
    match search(list, &key) {
        Ok(i) => {
            list.push((key, value));
            list.swap_remove(i);
            assert(entries(list@) =~= before.update(i as int, (key@, value@)));
        },
        Err(i) => {
            list.insert(i, (key, value));
            assert(entries(list@) =~= before.insert(i as int, (key@, value@)));
        },
    }
}

/// Takes the entry under `key`, if any, out of a sorted list.
pub fn discard<T: View>(list: &mut Vec<(Key, T)>, key: &[u8])
    requires
        sorted(entries(old(list)@)),
    ensures
        entries(final(list)@) == without_entry(entries(old(list)@), key@),
{
    let ghost before = entries(list@);
    if let Ok(i) = search(list, key) {
        list.remove(i);
        assert(entries(list@) =~= before.remove(i as int));
    }
}

/// Drops the entries of a list, sorted or not, whose key is not below `key`.
fn keep_below<T: View>(list: &mut Vec<(Key, T)>, key: &[u8])
    ensures
        entries(final(list)@) == entries(old(list)@).filter(below(key@)),
{
    broadcast use crate::key::group_key_order;

    let ghost all = entries(list@);
    let ghost mut seen: int = 0;
    let mut i: usize = 0;
    assert(all.take(0) =~= Seq::empty());
    assert(entries(list@) =~= all.take(0).filter(below(key@)) + all.skip(0)) by {
        reveal_with_fuel(Seq::filter, 1);
    }
    while i < list.len()
        invariant
            0 <= seen <= all.len(),
            i == all.take(seen).filter(below(key@)).len(),
            entries(list@) == all.take(seen).filter(below(key@)) + all.skip(seen),
        decreases all.len() - seen,
    {
        broadcast use crate::key::group_key_order;

        let ghost kept = all.take(seen).filter(below(key@));
        assert(list@.len() == entries(list@).len());
        assert(all.skip(seen)[0] == all[seen]);
        assert(entries(list@)[i as int] == all[seen]);
        assert(all.take(seen + 1) =~= all.take(seen).push(all[seen]));
        proof {
            all.take(seen).lemma_filter_push(all[seen], below(key@));
        }
        if matches!(compare(&list[i].0, key), KeyOrder::Below) {
            i += 1;
            assert(kept.push(all[seen]) + all.skip(seen + 1) =~= kept + all.skip(seen));
        } else {
            let ghost before = entries(list@);
            list.remove(i);
            assert(entries(list@) =~= before.remove(i as int));
            assert(before.remove(i as int) =~= kept + all.skip(seen + 1));
        }
        proof {
            seen = seen + 1;
        }
    }
    assert(list@.len() == entries(list@).len());
    assert(seen == all.len());
    assert(all.take(seen) =~= all);
    assert(all.skip(seen) =~= Seq::empty());
    assert(entries(list@) =~= all.filter(below(key@)));
}

/// Copies the entries from `start` on, up to and without `end`.
fn copy_range<T: Payload>(list: &Vec<(Key, T)>, start: usize, end: usize) -> (part: Vec<(Key, T)>)
    requires
        start <= end <= list@.len(),
    ensures
        entries(part@) == entries(list@).subrange(start as int, end as int),
{
    let mut part: Vec<(Key, T)> = Vec::with_capacity(FANOUT * 2);
    let mut i: usize = start;
    while i < end
        invariant
            start <= i <= end <= list@.len(),
            entries(part@) == entries(list@).subrange(start as int, i as int),
        decreases end - i,
    {
        let ghost before = entries(part@);
        part.push((copy_bytes(&list[i].0), list[i].1.duplicate()));
        i += 1;
        assert(entries(part@) =~= before.push(entries(list@)[i - 1]));
        assert(entries(part@) =~= entries(list@).subrange(start as int, i as int));
    }
    part
}

/// Copies a list into two, and gives the first key of the second: up to and
/// with the entry in the middle, and the entries after it.
fn split_list<T: Payload>(list: &Vec<(Key, T)>) -> (halves: (Key, Vec<(Key, T)>, Vec<(Key, T)>))
    requires
        list@.len() > FANOUT,
    ensures
        halves.0@ == entries(list@)[split_point(list@.len() as int)].0,
        entries(halves.1@) == entries(list@).take(split_point(list@.len() as int)),
        entries(halves.2@) == entries(list@).skip(split_point(list@.len() as int)),
        entries(halves.1@) + entries(halves.2@) == entries(list@),
        halves.2@.len() < halves.1@.len() <= halves.2@.len() + 2,
        halves.2@.len() > 0,
        halves.0@ == halves.2@[0].0@,
{
    let middle: usize = list.len() / 2 + 1;
    let at = copy_bytes(&list[middle].0);
    let left = copy_range(list, 0, middle);
    let right = copy_range(list, middle, list.len());
    proof {
        let all = entries(list@);
        assert(entries(left@).len() == left@.len());
        assert(entries(right@).len() == right@.len());
        assert(entries(right@)[0] == (right@[0].0@, right@[0].1@));
        assert(all.take(middle as int) + all.skip(middle as int) =~= all);
    }
    (at, left, right)
}

/// How many of `len` entries stay on the left of a split.
pub open spec fn split_point(len: int) -> int {
    len / 2 + 1
}

/// The entries of a page: pointers to the pages of the level below, or the
/// records themselves.
#[derive(Debug, PartialEq, Eq)]
pub enum Data {
    Index(Vec<(Key, PageID)>),
    Leaf(Vec<(Key, Value)>),
}

/// What a `Data` stands for.
#[verifier::ext_equal]
pub enum DataView {
    Index(Seq<(Seq<u8>, PageID)>),
    Leaf(Seq<(Seq<u8>, Seq<u8>)>),
}

impl View for Data {
    type V = DataView;

    open spec fn view(&self) -> DataView {
        match self {
            Data::Index(ptrs) => DataView::Index(entries(ptrs@)),
            Data::Leaf(items) => DataView::Leaf(entries(items@)),
        }
    }
}

impl DataView {
    /// The number of entries.
    pub open spec fn len(self) -> nat {
        match self {
            DataView::Index(ptrs) => ptrs.len(),
            DataView::Leaf(items) => items.len(),
        }
    }

    /// The key of the entry at `i`.
    pub open spec fn key_at(self, i: int) -> Seq<u8> {
        match self {
            DataView::Index(ptrs) => ptrs[i].0,
            DataView::Leaf(items) => items[i].0,
        }
    }

    /// The keys are strictly increasing.
    pub open spec fn sorted(self) -> bool {
        match self {
            DataView::Index(ptrs) => sorted(ptrs),
            DataView::Leaf(items) => sorted(items),
        }
    }

    /// The first `n` entries.
    pub open spec fn take(self, n: int) -> DataView {
        match self {
            DataView::Index(ptrs) => DataView::Index(ptrs.take(n)),
            DataView::Leaf(items) => DataView::Leaf(items.take(n)),
        }
    }

    /// All but the first `n` entries.
    pub open spec fn skip(self, n: int) -> DataView {
        match self {
            DataView::Index(ptrs) => DataView::Index(ptrs.skip(n)),
            DataView::Leaf(items) => DataView::Leaf(items.skip(n)),
        }
    }

    /// The entries with a key below `key`, in their order.
    pub open spec fn keep_below(self, key: Seq<u8>) -> DataView {
        match self {
            DataView::Index(ptrs) => DataView::Index(ptrs.filter(below(key))),
            DataView::Leaf(items) => DataView::Leaf(items.filter(below(key))),
        }
    }
}

impl Clone for Data {
    fn clone(&self) -> (copy: Self)
        ensures
            copy@ == self@,
    {
        match self {
            Data::Index(ptrs) => {
                let copy = copy_range(ptrs, 0, ptrs.len());
                assert(entries(copy@) =~= entries(ptrs@));
                Data::Index(copy)
            },
            Data::Leaf(items) => {
                let copy = copy_range(items, 0, items.len());
                assert(entries(copy@) =~= entries(items@));
                Data::Leaf(copy)
            },
        }
    }
}

impl Data {
    /// The number of entries.
    pub fn len(&self) -> (len: usize)
        ensures
            len == self@.len(),
            match *self {
                Data::Index(ptrs) => len == ptrs@.len(),
                Data::Leaf(items) => len == items@.len(),
            },
    {
        match self {
            Data::Index(ptrs) => ptrs.len(),
            Data::Leaf(items) => items.len(),
        }
    }

    /// Drops the entries whose key is not below `key`.
    pub fn drop_gte(&mut self, key: Key)
        ensures
            final(self)@ == old(self)@.keep_below(key@),
    {
        match self {
            Data::Index(ptrs) => keep_below(ptrs, &key),
            Data::Leaf(items) => keep_below(items, &key),
        }
    }

    /// Copies the entries into two halves, of which the left is never the
    /// smaller, and gives the first key of the right one.
    pub fn split(&self) -> (halves: (Key, Data, Data))
        requires
            self@.len() > FANOUT,
        ensures
            halves.0@ == self@.key_at(split_point(self@.len() as int)),
            halves.1@ == self@.take(split_point(self@.len() as int)),
            halves.2@ == self@.skip(split_point(self@.len() as int)),
            match (*self, halves.1, halves.2) {
                (Data::Index(all), Data::Index(left), Data::Index(right)) => {
                    &&& entries(left@) + entries(right@) == entries(all@)
                    &&& right@.len() < left@.len() <= right@.len() + 2
                    &&& right@.len() > 0
                    &&& halves.0@ == right@[0].0@
                },
                (Data::Leaf(all), Data::Leaf(left), Data::Leaf(right)) => {
                    &&& entries(left@) + entries(right@) == entries(all@)
                    &&& right@.len() < left@.len() <= right@.len() + 2
                    &&& right@.len() > 0
                    &&& halves.0@ == right@[0].0@
                },
                _ => false,
            },
    {
        match self {
            Data::Index(ptrs) => {
                let (at, left, right) = split_list(ptrs);
                (at, Data::Index(left), Data::Index(right))
            },
            Data::Leaf(items) => {
                let (at, left, right) = split_list(items);
                (at, Data::Leaf(left), Data::Leaf(right))
            },
        }
    }
}

/// A list has under a key what was stored there last, and under other keys what
/// it had.
pub proof fn law_store_then_look_up<V>(
    list: Seq<(Seq<u8>, V)>,
    key: Seq<u8>,
    value: V,
    other: Seq<u8>,
)
    requires
        sorted(list),
    ensures
        lookup(with_entry(list, key, value), key) == Some(value),
        other != key ==> lookup(with_entry(list, key, value), other) == lookup(list, other),
{
    let new = with_entry(list, key, value);
    lemma_with_entry(list, key, value);
    lemma_lookup_contains(new, key, value);
    if other != key {
        if lookup(list, other) is Some {
            let v = lookup(list, other)->0;
            lemma_lookup_contains(list, other, v);
            lemma_lookup_contains(new, other, v);
        }
        if lookup(new, other) is Some {
            let v = lookup(new, other)->0;
            lemma_lookup_contains(new, other, v);
            lemma_lookup_contains(list, other, v);
        }
    }
}

/// A list has nothing under a key whose entry was taken out, and under other
/// keys what it had.
pub proof fn law_discard_then_look_up<V>(
    list: Seq<(Seq<u8>, V)>,
    key: Seq<u8>,
    other: Seq<u8>,
)
    requires
        sorted(list),
    ensures
        lookup(without_entry(list, key), key) is None,
        other != key ==> lookup(without_entry(list, key), other) == lookup(list, other),
{
    let new = without_entry(list, key);
    lemma_without_entry(list, key);
    if lookup(new, key) is Some {
        lemma_lookup_contains(new, key, lookup(new, key)->0);
    }
    if other != key {
        if lookup(list, other) is Some {
            let v = lookup(list, other)->0;
            lemma_lookup_contains(list, other, v);
            lemma_lookup_contains(new, other, v);
        }
        if lookup(new, other) is Some {
            let v = lookup(new, other)->0;
            lemma_lookup_contains(new, other, v);
            lemma_lookup_contains(list, other, v);
        }
    }
}

/// Taking out an entry that was not there before it was stored gives back the
/// list.
pub proof fn law_discard_undoes_store<V>(list: Seq<(Seq<u8>, V)>, key: Seq<u8>, value: V)
    requires
        sorted(list),
        lookup(list, key) is None,
    ensures
        without_entry(with_entry(list, key, value), key) == list,
{
    lemma_rank(list, key);
    lemma_with_entry(list, key, value);
    let i = rank(list, key) as int;
    let new = with_entry(list, key, value);
    list.insert_ensures(i, (key, value));
    assert(new[i] == (key, value));
    lemma_rank_of_entry(new, i);
    new.remove_ensures(i);
    assert(new.remove(i) =~= list);
}

/// A split leaves entries on both sides, on the left one or two more than on
/// the right, all the entries between them, and of one entry too many none too
/// many on either side.
pub proof fn law_split_shares_entries(data: DataView)
    requires
        data.len() > FANOUT,
    ensures
        ({
            let n = split_point(data.len() as int);
            let left = data.take(n);
            let right = data.skip(n);
            &&& left.len() >= right.len() >= 1
            &&& right.len() < left.len() <= right.len() + 2
            &&& left.len() + right.len() == data.len()
            &&& data is Index ==> left->Index_0 + right->Index_0 == data->Index_0
            &&& data is Leaf ==> left->Leaf_0 + right->Leaf_0 == data->Leaf_0
            &&& data.len() == FANOUT + 1 ==> left.len() <= FANOUT && right.len() <= FANOUT
        }),
{
    let n = split_point(data.len() as int);
    match data {
        DataView::Index(ptrs) => {
            assert(ptrs.take(n) + ptrs.skip(n) =~= ptrs);
        },
        DataView::Leaf(items) => {
            assert(items.take(n) + items.skip(n) =~= items);
        },
    }
}

/// In a sorted list the entries below the key of an entry are those before it.
proof fn lemma_filter_below<V>(list: Seq<(Seq<u8>, V)>, n: int, key: Seq<u8>)
    requires
        sorted(list),
        0 <= n <= list.len(),
        forall|j: int| 0 <= j < n ==> key::key_lt((#[trigger] list[j]).0, key),
        forall|j: int| n <= j < list.len() ==> !key::key_lt((#[trigger] list[j]).0, key),
    ensures
        list.filter(below(key)) == list.take(n),
    decreases list.len(),
{
    if list.len() > 0 {
        let rest = list.drop_last();
        let last = list.last();
        assert forall|i: int, j: int| 0 <= i < j < rest.len() implies key::key_lt(
            (#[trigger] rest[i]).0,
            (#[trigger] rest[j]).0,
        ) by {
            assert(key::key_lt(list[i].0, list[j].0));
        }
        let m = if n < list.len() {
            n
        } else {
            n - 1
        };
        assert forall|j: int| 0 <= j < m implies key::key_lt((#[trigger] rest[j]).0, key) by {
            assert(rest[j] == list[j]);
        }
        assert forall|j: int| m <= j < rest.len() implies !key::key_lt(
            (#[trigger] rest[j]).0,
            key,
        ) by {
            assert(rest[j] == list[j]);
        }
        lemma_filter_below(rest, m, key);
        rest.lemma_filter_push(last, below(key));
        assert(list =~= rest.push(last));
        if n < list.len() {
            assert(!key::key_lt(list[list.len() - 1].0, key));
            assert(rest.take(m) =~= list.take(n));
        } else {
            assert(key::key_lt(list[list.len() - 1].0, key));
            assert(rest.take(m).push(last) =~= list.take(n));
        }
    } else {
        assert(list.filter(below(key)) =~= list.take(n)) by {
            reveal_with_fuel(Seq::filter, 1);
        }
    }
}

/// Dropping what is not below the key of a split leaves the left part of the
/// split.
pub proof fn law_split_left_is_below(data: DataView)
    requires
        data.len() > FANOUT,
        data.sorted(),
    ensures
        data.keep_below(data.key_at(split_point(data.len() as int))) == data.take(
            split_point(data.len() as int),
        ),
{
    let n = split_point(data.len() as int);
    match data {
        DataView::Index(ptrs) => {
            lemma_rank(ptrs, ptrs[n].0);
            lemma_rank_of_entry(ptrs, n);
            lemma_filter_below(ptrs, n, ptrs[n].0);
        },
        DataView::Leaf(items) => {
            lemma_rank(items, items[n].0);
            lemma_rank_of_entry(items, n);
            lemma_filter_below(items, n, items[n].0);
        },
    }
}

/// A split cuts a list in two, one entry or two past the middle: none of the
/// entries is lost, none comes twice, and the key of the split is the first key
/// on the right.
pub proof fn law_split_in_the_middle(data: DataView)
    requires
        match data {
            DataView::Index(ptrs) => ptrs.len() > FANOUT,
            DataView::Leaf(items) => items.len() > FANOUT,
        },
    ensures
        ({
            let n = split_point(data.len() as int);
            match (data, data.take(n), data.skip(n)) {
                (DataView::Index(all), DataView::Index(left), DataView::Index(right)) => {
                    &&& left + right == all
                    &&& right.len() >= 1
                    &&& 1 <= left.len() - right.len() <= 2
                    &&& data.key_at(n) == right[0].0
                },
                (DataView::Leaf(all), DataView::Leaf(left), DataView::Leaf(right)) => {
                    &&& left + right == all
                    &&& right.len() >= 1
                    &&& 1 <= left.len() - right.len() <= 2
                    &&& data.key_at(n) == right[0].0
                },
                _ => false,
            }
        }),
{
    law_split_shares_entries(data);
}

/// A page has as many entries as its list is long.
pub proof fn law_len_counts_entries(data: DataView)
    ensures
        match data {
            DataView::Index(ptrs) => data.len() == ptrs.len(),
            DataView::Leaf(items) => data.len() == items.len(),
        },
{
}

/// Dropping looks at each entry by itself: one more entry at the end stays at
/// the end if its key is below `key`, and else is gone, and the rest is as it
/// would be without it.
pub proof fn law_drop_entry_by_entry(
    ptrs: Seq<(Seq<u8>, PageID)>,
    ptr: (Seq<u8>, PageID),
    items: Seq<(Seq<u8>, Seq<u8>)>,
    item: (Seq<u8>, Seq<u8>),
    key: Seq<u8>,
)
    ensures
        DataView::Index(Seq::empty()).keep_below(key) == DataView::Index(Seq::empty()),
        DataView::Leaf(Seq::empty()).keep_below(key) == DataView::Leaf(Seq::empty()),
        DataView::Index(ptrs).keep_below(key) is Index,
        DataView::Leaf(items).keep_below(key) is Leaf,
        DataView::Index(ptrs.push(ptr)).keep_below(key)->Index_0 == (if key::key_lt(ptr.0, key) {
            DataView::Index(ptrs).keep_below(key)->Index_0.push(ptr)
        } else {
            DataView::Index(ptrs).keep_below(key)->Index_0
        }),
        DataView::Leaf(items.push(item)).keep_below(key)->Leaf_0 == (if key::key_lt(item.0, key) {
            DataView::Leaf(items).keep_below(key)->Leaf_0.push(item)
        } else {
            DataView::Leaf(items).keep_below(key)->Leaf_0
        }),
{
    reveal_with_fuel(Seq::filter, 1);
    ptrs.lemma_filter_push(ptr, below(key));
    items.lemma_filter_push(item, below(key));
}

/// What stays when a page is cut off at `key` are its entries below `key`, and
/// no others.
pub proof fn law_dropped_are_not_below(items: Seq<(Seq<u8>, Seq<u8>)>, key: Seq<u8>)
    ensures
        forall|k: Seq<u8>, v: Seq<u8>| #[trigger]
            DataView::Leaf(items).keep_below(key)->Leaf_0.contains((k, v)) <==> items.contains(
                (k, v),
            ) && key::key_lt(k, key),
{
    let kept = items.filter(below(key));
    assert forall|k: Seq<u8>, v: Seq<u8>| #[trigger] kept.contains((k, v)) <==> items.contains(
        (k, v),
    ) && key::key_lt(k, key) by {
        if kept.contains((k, v)) {
            let j = choose|j: int| 0 <= j < kept.len() && kept[j] == (k, v);
            items.lemma_filter_pred(below(key), j);
            items.lemma_filter_contains_rev(below(key), (k, v));
        }
        if items.contains((k, v)) && key::key_lt(k, key) {
            let j = choose|j: int| 0 <= j < items.len() && items[j] == (k, v);
            assert(below(key)(items[j]));
            items.lemma_filter_contains(below(key), j);
        }
    }
}

/// Putting a list in key order leaves the entries with the same key in the
/// order in which they were.
pub proof fn law_key_order_is_stable<V>(list: Seq<(Seq<u8>, V)>, key: Seq<u8>)
    ensures
        in_key_order(list).filter(|e: (Seq<u8>, V)| e.0 == key) == list.filter(
            |e: (Seq<u8>, V)| e.0 == key,
        ),
    decreases list.len(),
{
    broadcast use crate::key::group_key_order;

    let same = |e: (Seq<u8>, V)| e.0 == key;
    if list.len() > 0 {
        let front = list.drop_last();
        let rest = in_key_order(front);
        let entry = list.last();
        law_key_order_is_stable(front, key);
        law_in_key_order(front);
        lemma_rank_through(rest, entry.0);
        let n = rank_through(rest, entry.0) as int;
        let lower = rest.take(n);
        let upper = rest.skip(n);
        assert(list =~= front.push(entry));
        front.lemma_filter_push(entry, same);
        assert(rest =~= lower + upper);
        assert(placed(rest, entry) =~= lower.push(entry) + upper);
        Seq::filter_distributes_over_add(lower, upper, same);
        Seq::filter_distributes_over_add(lower.push(entry), upper, same);
        lower.lemma_filter_push(entry, same);
        if entry.0 == key {
            assert forall|i: int| 0 <= i < upper.len() implies !same(#[trigger] upper[i]) by {
                assert(upper[i] == rest[n + i]);
            }
            upper.lemma_all_neg_filter_empty(same);
            assert(upper.filter(same) =~= Seq::empty());
        }
        assert(in_key_order(list).filter(same) =~= list.filter(same));
    }
}

} // verus!
