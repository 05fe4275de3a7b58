use blink::data::{discard, search, sort_by_key, store};
use blink::key::{compare, KeyOrder};
use blink::{Bound, Data, Node, ParentSplit};

fn records(keys: &[u8]) -> Vec<(Vec<u8>, Vec<u8>)> {
    keys.iter().map(|key| (vec![*key], vec![*key + 100])).collect()
}

fn node(data: Data) -> Node {
    Node { id: 5, data, next: Some(8), lo: Bound::Inc(vec![]), hi: Bound::Non(vec![200]) }
}

fn index(ptrs: &[(u8, usize)]) -> Data {
    Data::Index(ptrs.iter().map(|ptr| (vec![ptr.0], ptr.1)).collect())
}

#[test]
fn keys_are_compared_byte_by_byte() {
    assert_eq!(compare(b"", b""), KeyOrder::Same);
    assert_eq!(compare(b"", b"a"), KeyOrder::Below);
    assert_eq!(compare(b"ab", b"a"), KeyOrder::Above);
    assert_eq!(compare(b"ab", b"b"), KeyOrder::Below);
    assert_eq!(compare(b"abc", b"abc"), KeyOrder::Same);
    assert_eq!(compare(&[255], &[1, 2, 3]), KeyOrder::Above);
}

#[test]
fn bounds_are_in_order() {
    let inc = |text: &str| Bound::Inc(text.as_bytes().to_vec());
    let non = |text: &str| Bound::Non(text.as_bytes().to_vec());
    assert!(non("hi").is_below(&inc("hi")));
    assert!(!inc("hi").is_below(&non("hi")));
    assert!(inc("ha").is_below(&non("hi")));
    assert!(non("ha").is_below(&non("hi")));
    assert!(!non("hi").is_below(&non("hi")));
    assert!(!inc("hi").is_below(&inc("hi")));
    assert!(inc("").is_below(&Bound::Inf));
    assert!(non("").is_below(&Bound::Inf));
    assert!(!Bound::Inf.is_below(&Bound::Inf));
    assert!(!Bound::Inf.is_below(&inc("zzz")));
    assert_eq!(inc("hi").inner(), Some(b"hi".to_vec()));
    assert_eq!(non("hi").inner(), Some(b"hi".to_vec()));
    assert_eq!(Bound::Inf.inner(), None);
}

#[test]
fn a_search_finds_the_place_of_a_key() {
    let list = records(&[2, 4, 6]);
    assert_eq!(search(&list, &[4]), Ok(1));
    assert_eq!(search(&list, &[1]), Err(0));
    assert_eq!(search(&list, &[5]), Err(2));
    assert_eq!(search(&list, &[7]), Err(3));
    let mut list = list;
    store(&mut list, vec![3], vec![103]);
    assert_eq!(list, records(&[2, 3, 4, 6]));
    discard(&mut list, &[4]);
    discard(&mut list, &[9]);
    assert_eq!(list, records(&[2, 3, 6]));
}

#[test]
fn set_leaf_stores_in_key_order() {
    let mut leaf = node(Data::Leaf(records(&[1, 3])));
    assert_eq!(leaf.set_leaf(vec![2], vec![102]), Ok(()));
    assert_eq!(leaf, node(Data::Leaf(records(&[1, 2, 3]))));
    assert_eq!(leaf.set_leaf(vec![2], vec![9]), Ok(()));
    match &leaf.data {
        Data::Leaf(items) => assert_eq!(items[1], (vec![2], vec![9])),
        Data::Index(_) => panic!("not a leaf"),
    }
    leaf.del_leaf(&vec![2]);
    assert_eq!(leaf, node(Data::Leaf(records(&[1, 3]))));
}

#[test]
fn set_leaf_refuses_an_index_page() {
    let mut page = node(index(&[(1, 1)]));
    assert_eq!(page.set_leaf(vec![2], vec![102]), Err(()));
    assert_eq!(page, node(index(&[(1, 1)])));
}

#[test]
fn del_leaf_without_the_key_changes_nothing() {
    let mut leaf = node(Data::Leaf(records(&[1, 3])));
    leaf.del_leaf(&vec![2]);
    assert_eq!(leaf, node(Data::Leaf(records(&[1, 3]))));
    leaf.del_leaf(&vec![1]);
    assert_eq!(leaf, node(Data::Leaf(records(&[3]))));
}

#[test]
fn a_split_of_a_listed_child_adds_a_pointer() {
    let mut page = node(index(&[(0, 10), (20, 11), (40, 12)]));
    page.parent_split(ParentSplit { at: Bound::Inc(vec![30]), to: 13, from: 11 });
    assert_eq!(page, node(index(&[(0, 10), (20, 11), (30, 13), (40, 12)])));
    page.parent_split(ParentSplit { at: Bound::Non(vec![50]), to: 14, from: 12 });
    assert_eq!(page, node(index(&[(0, 10), (20, 11), (30, 13), (40, 12), (50, 14)])));
}

#[test]
fn a_split_of_an_unlisted_child_replaces_the_pointer_before_it() {
    let mut page = node(index(&[(0, 10), (20, 11), (40, 12)]));
    page.parent_split(ParentSplit { at: Bound::Inc(vec![30]), to: 14, from: 13 });
    assert_eq!(page, node(index(&[(0, 10), (20, 13), (30, 14), (40, 12)])));
}

#[test]
fn a_pointer_with_a_known_key_goes_after_the_one_there() {
    let mut page = node(index(&[(0, 10), (20, 11), (40, 12)]));
    page.parent_split(ParentSplit { at: Bound::Inc(vec![40]), to: 14, from: 11 });
    assert_eq!(page, node(index(&[(0, 10), (20, 11), (40, 12), (40, 14)])));
}

#[test]
fn a_page_is_to_be_split_beyond_two_entries() {
    assert!(!node(Data::Leaf(records(&[]))).should_split());
    assert!(!node(Data::Leaf(records(&[1, 2]))).should_split());
    assert!(node(Data::Leaf(records(&[1, 2, 3]))).should_split());
    assert!(node(index(&[(1, 1), (2, 2), (3, 3)])).should_split());
    assert_eq!(Data::Leaf(records(&[1, 2, 3])).len(), 3);
    assert_eq!(index(&[(1, 1)]).len(), 1);
}

#[test]
fn data_is_split_beyond_the_middle() {
    let (at, left, right) = Data::Leaf(records(&[1, 2, 3])).split();
    assert_eq!(at, vec![3]);
    assert_eq!(left, Data::Leaf(records(&[1, 2])));
    assert_eq!(right, Data::Leaf(records(&[3])));
    let (at, left, right) = index(&[(1, 1), (2, 2), (3, 3), (4, 4), (5, 5), (6, 6)]).split();
    assert_eq!(at, vec![5]);
    assert_eq!(left, index(&[(1, 1), (2, 2), (3, 3), (4, 4)]));
    assert_eq!(right, index(&[(5, 5), (6, 6)]));
}

#[test]
fn the_parts_of_a_split_node_share_its_range() {
    let page = node(Data::Leaf(records(&[1, 2, 3, 4])));
    let (left, right) = page.split(77);
    assert_eq!(
        left,
        Node {
            id: 5,
            data: Data::Leaf(records(&[1, 2, 3])),
            next: Some(77),
            lo: Bound::Inc(vec![]),
            hi: Bound::Non(vec![4]),
        }
    );
    assert_eq!(
        right,
        Node {
            id: 77,
            data: Data::Leaf(records(&[4])),
            next: Some(8),
            lo: Bound::Inc(vec![4]),
            hi: Bound::Non(vec![200]),
        }
    );
}

#[test]
fn drop_gte_keeps_the_smaller_keys() {
    let mut leaf = Data::Leaf(records(&[1, 2, 3, 4]));
    leaf.drop_gte(vec![3]);
    assert_eq!(leaf, Data::Leaf(records(&[1, 2])));
    let mut page = index(&[(4, 1), (1, 2), (9, 3), (2, 4)]);
    page.drop_gte(vec![4]);
    assert_eq!(page, index(&[(1, 2), (2, 4)]));
    page.drop_gte(vec![]);
    assert_eq!(page, index(&[]));
}

#[test]
fn copies_are_equal() {
    let page = node(index(&[(1, 1), (2, 2)]));
    assert_eq!(page.clone(), page);
    let leaf = node(Data::Leaf(records(&[1, 2])));
    assert_eq!(leaf.clone(), leaf);
}

#[test]
fn entries_with_one_key_stay_in_their_order() {
    let mut list: Vec<(Vec<u8>, usize)> =
        vec![(vec![3], 1), (vec![1], 2), (vec![3], 3), (vec![2], 4), (vec![1], 5), (vec![], 6)];
    sort_by_key(&mut list);
    assert_eq!(
        list,
        vec![(vec![], 6), (vec![1], 2), (vec![1], 5), (vec![2], 4), (vec![3], 1), (vec![3], 3)]
    );
}

#[test]
fn a_noted_split_puts_the_pointers_in_order() {
    let mut page = node(index(&[(9, 10), (4, 11), (7, 12)]));
    page.parent_split(ParentSplit { at: Bound::Inc(vec![5]), to: 13, from: 10 });
    assert_eq!(page, node(index(&[(4, 11), (5, 13), (7, 12), (9, 10)])));
}

#[test]
fn the_left_part_of_a_split_is_what_is_below_the_right() {
    let data = Data::Leaf(records(&[1, 2, 3, 4, 5]));
    let (at, left, right) = data.split();
    assert!(left.len() >= right.len());
    let mut below = data.clone();
    below.drop_gte(at);
    assert_eq!(below, left);
}

#[test]
fn each_key_of_a_split_page_is_in_one_part() {
    let page = node(Data::Leaf(records(&[10, 20, 30])));
    let (left, right) = page.split(77);
    let covers = |part: &Node, key: u8| {
        let bound = Bound::Inc(vec![key]);
        !bound.is_below(&part.lo) && bound.is_below(&part.hi)
    };
    for key in 0..=255u8 {
        assert_eq!(covers(&page, key), key < 200);
        assert_eq!(covers(&left, key), key < 30);
        assert_eq!(covers(&right, key), key >= 30 && key < 200);
    }
}
