use blink::{Bound, Data, Frag, Node, Pages, ParentSplit};

fn leaf(id: usize, keys: &[u8]) -> Node {
    Node {
        id,
        data: Data::Leaf(keys.iter().map(|key| (vec![*key], vec![*key, *key])).collect()),
        next: None,
        lo: Bound::Inc(vec![]),
        hi: Bound::Inf,
    }
}

fn table_with_leaf(keys: &[u8]) -> (Pages, usize) {
    let mut pages = Pages::default();
    let pid = pages.allocate();
    assert_eq!(pages.insert(pid, Frag::Base(leaf(pid, keys))), Ok(()));
    (pages, pid)
}

#[test]
fn pages_are_handed_out_in_order_and_again_after_they_were_given_back() {
    let mut pages = Pages::default();
    assert_eq!(pages.allocate(), 0);
    assert_eq!(pages.allocate(), 1);
    assert_eq!(pages.allocate(), 2);
    pages.free(0);
    pages.free(2);
    assert_eq!(pages.allocate(), 2);
    assert_eq!(pages.allocate(), 0);
    assert_eq!(pages.allocate(), 3);
}

#[test]
fn a_page_in_use_cannot_be_filled_again() {
    let (mut pages, pid) = table_with_leaf(&[1]);
    assert_eq!(pages.insert(pid, Frag::Base(leaf(pid, &[2]))), Err(()));
    assert_eq!(pages.get(pid).node, leaf(pid, &[1]));
}

#[test]
fn changes_add_up() {
    let (mut pages, pid) = table_with_leaf(&[1, 3]);
    let mut frags = pages.get(pid);
    assert_eq!(frags.cap(&mut pages, Frag::Put(vec![2], vec![2, 2])), Ok(2));
    assert_eq!(frags.cap(&mut pages, Frag::Del(vec![3])), Ok(3));
    assert_eq!(frags.node, leaf(pid, &[1, 2]));
    assert_eq!(pages.get(pid).node, leaf(pid, &[1, 2]));
    assert_eq!(pages.get(pid), frags);
    assert_eq!(frags.cas(&mut pages, Frag::Base(leaf(pid, &[7]))), Ok(4));
    assert_eq!(frags.cap(&mut pages, Frag::Put(vec![8], vec![8, 8])), Ok(5));
    assert_eq!(pages.get(pid).node, leaf(pid, &[7, 8]));
}

#[test]
fn a_change_on_an_old_state_is_refused() {
    let (mut pages, pid) = table_with_leaf(&[1]);
    let mut first = pages.get(pid);
    let mut second = pages.get(pid);
    assert_eq!(first.cap(&mut pages, Frag::Put(vec![2], vec![2, 2])), Ok(2));
    assert_eq!(second.cap(&mut pages, Frag::Put(vec![3], vec![3, 3])), Err(2));
    assert_eq!(second.cas(&mut pages, Frag::Base(leaf(pid, &[]))), Err(2));
    assert_eq!(second.node, leaf(pid, &[1]));
    assert_eq!(pages.get(pid).node, leaf(pid, &[1, 2]));
}

#[test]
fn a_state_of_a_page_that_was_given_back_is_old() {
    let (mut pages, pid) = table_with_leaf(&[1]);
    let mut frags = pages.get(pid);
    pages.free(pid);
    assert_eq!(frags.cap(&mut pages, Frag::Del(vec![1])), Err(1));
    assert_eq!(pages.allocate(), pid);
    assert_eq!(pages.insert(pid, Frag::Base(leaf(pid, &[5]))), Ok(()));
    assert_eq!(frags.cap(&mut pages, Frag::Del(vec![1])), Err(2));
    assert_eq!(pages.get(pid).node, leaf(pid, &[5]));
}

#[test]
fn a_state_is_split_into_two_pages_and_a_note() {
    let (pages, pid) = table_with_leaf(&[1, 2, 3, 4]);
    let frags = pages.get(pid);
    assert!(frags.should_split());
    let (lhs, rhs, note) = frags.split(9);
    let mut left = leaf(pid, &[1, 2, 3]);
    left.next = Some(9);
    left.hi = Bound::Non(vec![4]);
    let mut right = leaf(9, &[4]);
    right.lo = Bound::Inc(vec![4]);
    assert_eq!(lhs, Frag::Base(left));
    assert_eq!(rhs, Frag::Base(right));
    assert_eq!(note, ParentSplit { at: Bound::Inc(vec![4]), to: 9, from: pid });
}
