use blink::{Data, Frags, Tree};

use std::collections::BTreeMap;

fn bytes(text: &str) -> Vec<u8> {
    text.as_bytes().to_vec()
}

fn number_key(n: u32) -> Vec<u8> {
    vec![(n >> 8) as u8, n as u8]
}

fn filled(keys: &[&str]) -> Tree {
    let mut tree = Tree::new();
    for key in keys {
        tree.set(bytes(key), bytes(&format!("v-{}", key)));
    }
    tree
}

fn leaf_keys(frags: &Frags) -> Vec<Vec<u8>> {
    match &frags.node.data {
        Data::Leaf(items) => items.iter().map(|item| item.0.clone()).collect(),
        Data::Index(_) => panic!("not a leaf"),
    }
}

#[test]
fn a_new_tree_is_empty() {
    let tree = Tree::new();
    assert_eq!(tree.get(b""), None);
    assert_eq!(tree.get(b"anything"), None);
    let path = tree.path_for_key(b"anything");
    assert_eq!(path.len(), 2);
    assert_eq!(path[0].node.data, Data::Index(vec![(vec![], 1)]));
    assert_eq!(path[1].node.data, Data::Leaf(vec![]));
}

#[test]
fn get_gives_back_what_set_stored() {
    let mut tree = Tree::new();
    tree.set(bytes("k"), bytes("v"));
    assert_eq!(tree.get(b"k"), Some(bytes("v")));
    assert_eq!(tree.get(b"kk"), None);
    tree.set(bytes("k"), bytes("w"));
    assert_eq!(tree.get(b"k"), Some(bytes("w")));
    tree.set(vec![], bytes("empty key"));
    assert_eq!(tree.get(b""), Some(bytes("empty key")));
    assert_eq!(tree.get(b"k"), Some(bytes("w")));
}

#[test]
fn the_order_of_sets_of_different_keys_does_not_matter() {
    let a = filled(&["x", "y", "z", "a", "b"]);
    let b = filled(&["b", "a", "z", "y", "x"]);
    for key in ["a", "b", "x", "y", "z", "none"] {
        assert_eq!(a.get(key.as_bytes()), b.get(key.as_bytes()));
    }
}

#[test]
fn del_gives_back_the_value_and_takes_it_out() {
    let mut tree = filled(&["a", "b", "c", "d"]);
    assert_eq!(tree.del(b"b"), Some(bytes("v-b")));
    assert_eq!(tree.get(b"b"), None);
    assert_eq!(tree.del(b"b"), None);
    assert_eq!(tree.del(b"nothing"), None);
    assert_eq!(tree.get(b"a"), Some(bytes("v-a")));
    assert_eq!(tree.get(b"c"), Some(bytes("v-c")));
    assert_eq!(tree.get(b"d"), Some(bytes("v-d")));
}

#[test]
fn an_emptied_leaf_can_be_filled_again() {
    let mut tree = filled(&["a", "b", "c", "d", "e"]);
    for key in ["a", "b", "c", "d", "e"] {
        assert_eq!(tree.del(key.as_bytes()), Some(bytes(&format!("v-{}", key))));
    }
    for key in ["a", "b", "c", "d", "e"] {
        assert_eq!(tree.get(key.as_bytes()), None);
        tree.set(bytes(key), bytes("again"));
        assert_eq!(tree.get(key.as_bytes()), Some(bytes("again")));
    }
}

#[test]
fn cas_stores_only_over_what_was_expected() {
    let mut tree = Tree::new();
    assert_eq!(tree.cas(bytes("k"), None, bytes("1")), Ok(()));
    assert_eq!(tree.get(b"k"), Some(bytes("1")));
    assert_eq!(tree.cas(bytes("k"), None, bytes("2")), Err(Some(bytes("1"))));
    assert_eq!(tree.cas(bytes("k"), Some(bytes("0")), bytes("2")), Err(Some(bytes("1"))));
    assert_eq!(tree.get(b"k"), Some(bytes("1")));
    assert_eq!(tree.cas(bytes("k"), Some(bytes("1")), bytes("2")), Ok(()));
    assert_eq!(tree.get(b"k"), Some(bytes("2")));
    assert_eq!(tree.cas(bytes("absent"), Some(bytes("1")), bytes("2")), Err(None));
    assert_eq!(tree.get(b"absent"), None);
}

#[test]
fn cas_does_not_split_but_set_does() {
    let mut tree = Tree::new();
    for key in ["a", "b", "c", "d", "e", "f", "g", "h", "i"] {
        assert_eq!(tree.cas(bytes(key), None, bytes("x")), Ok(()));
    }
    assert_eq!(leaf_keys(&tree.path_for_key(b"a")[1]).len(), 9);
    tree.set(bytes("j"), bytes("y"));
    let left = leaf_keys(&tree.path_for_key(b"a")[1]);
    let right = leaf_keys(&tree.path_for_key(b"j")[1]);
    assert_eq!(left, vec![bytes("a"), bytes("b"), bytes("c"), bytes("d"), bytes("e"), bytes("f")]);
    assert_eq!(right, vec![bytes("g"), bytes("h"), bytes("i"), bytes("j")]);
    for key in ["a", "b", "c", "d", "e", "f", "g", "h", "i"] {
        assert_eq!(tree.get(key.as_bytes()), Some(bytes("x")));
    }
    assert_eq!(tree.get(b"j"), Some(bytes("y")));
}

#[test]
fn the_third_record_splits_the_leaf() {
    let tree = filled(&["a", "b", "c"]);
    let path = tree.path_for_key(b"b");
    assert_eq!(path.len(), 2);
    assert_eq!(path[0].node.data, Data::Index(vec![(vec![], 1), (bytes("c"), 2)]));
    assert_eq!(leaf_keys(&path[1]), vec![bytes("a"), bytes("b")]);
    assert_eq!(path[1].node.next, Some(2));
    let path = tree.path_for_key(b"c");
    assert_eq!(leaf_keys(&path[1]), vec![bytes("c")]);
    assert_eq!(path[1].node.next, None);
}

#[test]
fn a_full_root_gets_a_new_root_above_it() {
    let tree = filled(&["a", "b", "c", "d", "e"]);
    let path = tree.path_for_key(b"e");
    assert_eq!(path.len(), 3);
    for frags in &path {
        assert!(frags.node.data.len() <= 2);
    }
    assert_eq!(path[0].node.data, Data::Index(vec![(vec![], 0), (bytes("e"), 4)]));
    assert_eq!(path[1].node.data, Data::Index(vec![(bytes("e"), 3)]));
}

#[test]
fn pages_stay_within_the_fanout() {
    let mut tree = Tree::new();
    for n in 0..300u32 {
        tree.set(number_key(n * 37 % 1009), vec![1]);
    }
    for n in 0..1009u32 {
        for frags in tree.path_for_key(&number_key(n)) {
            assert!(!frags.should_split());
        }
    }
}

#[test]
fn a_path_leads_through_pages_that_cover_the_key() {
    let mut tree = Tree::new();
    for n in 0..100u32 {
        tree.set(number_key(n * 7 % 101), vec![n as u8]);
    }
    for n in 0..110u32 {
        let key = number_key(n);
        let bound = blink::Bound::Inc(key.clone());
        let path = tree.path_for_key(&key);
        for frags in &path {
            assert!(!bound.is_below(&frags.node.lo));
            assert!(bound.is_below(&frags.node.hi));
        }
        for pair in path.windows(2) {
            match &pair[0].node.data {
                Data::Index(ptrs) => assert!(ptrs.iter().any(|ptr| ptr.1 == pair[1].node.id)),
                Data::Leaf(_) => panic!("leaf above a page"),
            }
        }
    }
}

#[test]
fn the_tree_agrees_with_a_map() {
    let mut tree = Tree::new();
    let mut model: BTreeMap<Vec<u8>, Vec<u8>> = BTreeMap::new();
    let mut state: u64 = 12345;
    for step in 0..3000u32 {
        state = state.wrapping_mul(6364136223846793005).wrapping_add(1442695040888963407);
        let key = number_key(((state >> 33) % 97) as u32);
        let value = vec![step as u8, (step >> 8) as u8];
        match (state >> 20) % 4 {
            0 | 1 => {
                tree.set(key.clone(), value.clone());
                model.insert(key, value);
            }
            2 => assert_eq!(tree.del(&key), model.remove(&key)),
            _ => {
                let now = model.get(&key).cloned();
                if step % 2 == 0 {
                    assert_eq!(tree.cas(key.clone(), now, value.clone()), Ok(()));
                    model.insert(key, value);
                } else {
                    assert_eq!(tree.cas(key.clone(), Some(vec![9, 9, 9]), value), Err(now));
                }
            }
        }
    }
    for n in 0..100u32 {
        let key = number_key(n);
        assert_eq!(tree.get(&key), model.get(&key).cloned());
    }
}

#[test]
fn a_split_on_an_old_path_is_half_complete_and_loses_nothing() {
    let mut tree = filled(&["a", "b", "c"]);
    assert_eq!(tree.cas(bytes("d"), None, bytes("v-d")), Ok(()));
    assert_eq!(tree.cas(bytes("e"), None, bytes("v-e")), Ok(()));
    let path = tree.path_for_key(b"d");
    assert_eq!(leaf_keys(&path[1]), vec![bytes("c"), bytes("d"), bytes("e")]);
    // The root page changes, the leaf on the path does not.
    tree.set(bytes("aa"), bytes("v-aa"));
    assert_eq!(tree.path_for_key(b"d").len(), 3);
    tree.recursive_split(&path);
    let now = tree.path_for_key(b"e");
    assert_eq!(leaf_keys(&now[2]), vec![bytes("e")]);
    match &now[1].node.data {
        Data::Index(ptrs) => assert!(ptrs.iter().all(|ptr| ptr.1 != now[2].node.id)),
        Data::Leaf(_) => panic!("leaf above a page"),
    }
    for key in ["a", "aa", "b", "c", "d", "e"] {
        assert_eq!(tree.get(key.as_bytes()), Some(bytes(&format!("v-{}", key))));
    }
    assert_eq!(tree.del(b"e"), Some(bytes("v-e")));
    assert_eq!(tree.get(b"e"), None);
    assert_eq!(tree.cas(bytes("f"), None, bytes("v-f")), Ok(()));
    assert_eq!(tree.get(b"f"), Some(bytes("v-f")));
}

#[test]
fn a_split_on_a_path_that_has_changed_does_nothing() {
    let mut tree = filled(&["a", "b"]);
    assert_eq!(tree.cas(bytes("c"), None, bytes("v-c")), Ok(()));
    let path = tree.path_for_key(b"a");
    assert_eq!(tree.cas(bytes("d"), None, bytes("v-d")), Ok(()));
    tree.recursive_split(&path);
    let now = tree.path_for_key(b"a");
    assert_eq!(leaf_keys(&now[1]).len(), 4);
    assert_eq!(now[0], path[0]);
    // The page that was taken for the split is used by the next one.
    tree.recursive_split(&now);
    assert_eq!(tree.path_for_key(b"d")[1].node.id, 2);
    assert_eq!(leaf_keys(&tree.path_for_key(b"d")[1]), vec![bytes("d")]);
}

#[test]
fn a_split_on_a_fresh_path_is_complete() {
    let mut tree = filled(&["a", "b"]);
    assert_eq!(tree.cas(bytes("c"), None, bytes("v-c")), Ok(()));
    let path = tree.path_for_key(b"a");
    tree.recursive_split(&path);
    let now = tree.path_for_key(b"c");
    assert_eq!(now[0].node.data, Data::Index(vec![(vec![], 1), (bytes("c"), 2)]));
    assert_eq!(leaf_keys(&now[1]), vec![bytes("c")]);
}

#[test]
fn a_key_is_described_by_the_pages_on_its_path() {
    let tree = filled(&["a", "b", "c"]);
    assert_eq!(
        tree.key_debug_str(b"c"),
        "\nNode { id: 0, data: Index([([], 1), ([99], 2)]), next: None, lo: Inc([]), hi: Inf }\
         \nNode { id: 2, data: Leaf([([99], [118, 45, 99])]), next: None, lo: Inc([99]), hi: Inf }"
    );
    let mut tree = tree;
    for n in 0..60u32 {
        tree.set(number_key(n * 11), vec![n as u8; (n % 3) as usize]);
    }
    for n in 0..700u32 {
        let key = number_key(n);
        let mut expected = String::new();
        for frags in tree.path_for_key(&key) {
            expected.push_str(&format!("\n{:?}", frags.node));
        }
        assert_eq!(tree.key_debug_str(&key), expected);
    }
}

#[test]
fn a_tree_is_described_level_by_level() {
    let tree = filled(&["a", "b", "c"]);
    assert_eq!(
        tree.debug_str(),
        "Tree: \n\tPages { max: 3, free: [] }\n\tlevel 0:\n\
         \t\tNode { id: 0, data: Index([([], 1), ([99], 2)]), next: None, lo: Inc([]), hi: Inf }\n\
         \n\tlevel 1:\n\
         \t\tNode { id: 1, data: Leaf([([97], [118, 45, 97]), ([98], [118, 45, 98])]), next: Some(2), lo: Inc([]), hi: Non([99]) }\n\
         \t\tNode { id: 2, data: Leaf([([99], [118, 45, 99])]), next: None, lo: Inc([99]), hi: Inf }\n"
    );
}

#[test]
fn taking_out_a_new_record_gives_back_the_old_contents() {
    let mut tree = filled(&["a", "b", "c", "d"]);
    assert_eq!(tree.get(b"bb"), None);
    tree.set(bytes("bb"), bytes("new"));
    assert_eq!(tree.del(b"bb"), Some(bytes("new")));
    for key in ["a", "b", "c", "d"] {
        assert_eq!(tree.get(key.as_bytes()), Some(bytes(&format!("v-{}", key))));
    }
    assert_eq!(tree.get(b"bb"), None);
}

#[test]
fn leaves_are_on_one_level_and_in_key_order() {
    let mut tree = Tree::new();
    for n in 0..80u32 {
        tree.set(number_key(n * 29 % 83), vec![n as u8]);
    }
    let height = tree.path_for_key(&number_key(0)).len();
    let mut last: Option<Vec<u8>> = None;
    let mut next = Some(tree.path_for_key(b"")[height - 1].node.id);
    let mut seen = 0;
    for n in 0..83u32 {
        let path = tree.path_for_key(&number_key(n));
        assert_eq!(path.len(), height);
        let leaf = &path[height - 1];
        if next == Some(leaf.node.id) {
            for key in leaf_keys(leaf) {
                assert!(last.is_none() || last.unwrap() < key);
                last = Some(key);
                seen += 1;
            }
            next = leaf.node.next;
        }
    }
    assert_eq!(seen, 80);
    assert_eq!(next, None);
}

#[test]
fn a_set_leaves_the_pages_off_its_path_alone() {
    let mut tree = Tree::new();
    for n in 0..40u32 {
        tree.set(number_key(n * 10), vec![n as u8]);
    }
    let on_path: Vec<usize> =
        tree.path_for_key(&number_key(205)).iter().map(|frags| frags.node.id).collect();
    let mut others: Vec<Frags> = Vec::new();
    for n in 0..400u32 {
        for frags in tree.path_for_key(&number_key(n)) {
            if !on_path.contains(&frags.node.id) && !others.contains(&frags) {
                others.push(frags);
            }
        }
    }
    assert!(others.len() > 10);
    tree.set(number_key(205), vec![1]);
    tree.set(number_key(206), vec![1]);
    let mut now: Vec<Frags> = Vec::new();
    for n in 0..400u32 {
        now.extend(tree.path_for_key(&number_key(n)));
    }
    for frags in &others {
        assert!(now.contains(frags));
    }
}

#[test]
fn a_record_can_be_set_beside_a_half_complete_split() {
    let mut tree = filled(&["a", "b", "c"]);
    assert_eq!(tree.cas(bytes("d"), None, bytes("v-d")), Ok(()));
    assert_eq!(tree.cas(bytes("e"), None, bytes("v-e")), Ok(()));
    let path = tree.path_for_key(b"d");
    tree.set(bytes("aa"), bytes("v-aa"));
    tree.recursive_split(&path);
    // The new page has room for one more record, so nothing is split.
    tree.set(bytes("f"), bytes("v-f"));
    let now = tree.path_for_key(b"f");
    assert_eq!(leaf_keys(&now[2]), vec![bytes("e"), bytes("f")]);
    // The first leaf has a pointer to it, and can be split.
    tree.set(bytes("ab"), bytes("v-ab"));
    for key in ["a", "aa", "ab", "b", "c", "d", "e", "f"] {
        assert_eq!(tree.get(key.as_bytes()), Some(bytes(&format!("v-{}", key))));
    }
}

#[test]
fn only_the_first_set_through_a_path_goes_in() {
    let mut tree = filled(&["a"]);
    let first = tree.path_for_key(b"b");
    let second = first.clone();
    assert_eq!(tree.set_through(first, bytes("b"), bytes("v-b")), Ok(()));
    assert_eq!(tree.set_through(second.clone(), bytes("b"), bytes("other")), Err(()));
    assert_eq!(tree.get(b"b"), Some(bytes("v-b")));
    // The path is too old for every other record of the leaf, too.
    assert_eq!(tree.set_through(second, bytes("c"), bytes("v-c")), Err(()));
    assert_eq!(tree.get(b"c"), None);
    let fresh = tree.path_for_key(b"c");
    assert_eq!(tree.set_through(fresh, bytes("c"), bytes("v-c")), Ok(()));
    assert_eq!(tree.get(b"c"), Some(bytes("v-c")));
    assert_eq!(leaf_keys(&tree.path_for_key(b"c")[1]), vec![bytes("c")]);
}

#[test]
fn a_set_through_a_path_whose_root_has_changed_goes_in() {
    let mut tree = filled(&["a", "b", "c", "d"]);
    let path = tree.path_for_key(b"e");
    assert_eq!(leaf_keys(&path[1]), vec![bytes("c"), bytes("d")]);
    // The root page changes, the leaf on the path does not.
    tree.set(bytes("aa"), bytes("v-aa"));
    assert_eq!(tree.set_through(path, bytes("e"), bytes("v-e")), Ok(()));
    // The leaf was split, but the page above does not show it.
    let now = tree.path_for_key(b"e");
    assert_eq!(leaf_keys(&now[now.len() - 1]), vec![bytes("e")]);
    match &now[now.len() - 2].node.data {
        Data::Index(ptrs) => {
            assert!(ptrs.iter().all(|ptr| ptr.1 != now[now.len() - 1].node.id));
        }
        Data::Leaf(_) => panic!("leaf above a page"),
    }
    for key in ["a", "aa", "b", "c", "d", "e"] {
        assert_eq!(tree.get(key.as_bytes()), Some(bytes(&format!("v-{}", key))));
    }
}

#[test]
fn a_del_through_an_old_path_is_refused() {
    let mut tree = filled(&["a"]);
    let path = tree.path_for_key(b"a");
    let missing = tree.path_for_key(b"b");
    tree.set(bytes("b"), bytes("v-b"));
    assert_eq!(tree.del_through(path.clone(), b"a"), Err(()));
    assert_eq!(tree.get(b"a"), Some(bytes("v-a")));
    // There was no such record when the path was found.
    assert_eq!(tree.del_through(missing, b"b"), Ok(None));
    assert_eq!(tree.get(b"b"), Some(bytes("v-b")));
    let fresh = tree.path_for_key(b"a");
    assert_eq!(tree.del_through(fresh, b"a"), Ok(Some(bytes("v-a"))));
    assert_eq!(tree.get(b"a"), None);
    assert_eq!(tree.get(b"b"), Some(bytes("v-b")));
}

#[test]
fn a_cas_through_an_old_path_gives_back_what_it_expected() {
    let mut tree = filled(&["a"]);
    let path = tree.path_for_key(b"a");
    tree.set(bytes("b"), bytes("v-b"));
    // The value is the expected one, but the leaf has changed.
    assert_eq!(
        tree.cas_through(path.clone(), bytes("a"), Some(bytes("v-a")), bytes("new")),
        Err(Some(bytes("v-a")))
    );
    assert_eq!(
        tree.cas_through(path, bytes("a"), None, bytes("new")),
        Err(Some(bytes("v-a")))
    );
    assert_eq!(tree.get(b"a"), Some(bytes("v-a")));
    let fresh = tree.path_for_key(b"a");
    assert_eq!(tree.cas_through(fresh, bytes("a"), Some(bytes("v-a")), bytes("new")), Ok(()));
    assert_eq!(tree.get(b"a"), Some(bytes("new")));
}
