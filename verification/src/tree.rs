//! The tree.
use vstd::prelude::*;

use crate::bound::{Bound, BoundView};
use crate::data;
use crate::data::{search, Data, DataView, FANOUT};
use crate::frag;
use crate::frag::{Frag, FragView, ParentSplit, ParentSplitView};
use crate::key;
use crate::key::{compare, copy_bytes, Key, KeyOrder, PageID, Value};
use crate::layout;
use crate::layout::Layout;
use crate::node;
use crate::node::{Node, NodeView};
use crate::pages;
use crate::pages::{Frags, FragsView, PageView, Pages, PagesView};
use crate::reading;
use crate::splits;
use crate::text;
use crate::text::{write_node, write_number};

verus! {

/// A B-link tree: a map from keys to values, kept in pages.
///
/// A page that has grown too large is split in two steps. First its upper part
/// goes to a new page, which is linked from the old one; then the page above
/// gets a pointer to the new page. Between the two steps the new page is found
/// through its left neighbour.
pub struct Tree {
    pages: Pages,
    root: PageID,
    levels: Ghost<Seq<Seq<PageID>>>,
}

/// What a map has under a key.
pub open spec fn entry(map: Map<Seq<u8>, Seq<u8>>, key: Seq<u8>) -> Option<Seq<u8>> {
    if map.contains_key(key) {
        Some(map[key])
    } else {
        None
    }
}

/// What an optional value stands for.
pub open spec fn value_view(value: Option<Value>) -> Option<Seq<u8>> {
    match value {
        Some(bytes) => Some(bytes@),
        None => None,
    }
}

/// What a list of page states stands for.
pub open spec fn path_view(path: Seq<Frags>) -> Seq<FragsView> {
    Seq::new(path.len(), |i: int| path[i]@)
}

/// The states on a path after a change to its last page.
pub open spec fn path_after(path: Seq<FragsView>, frag: FragView) -> Seq<FragsView> {
    path.drop_last().push(path.last().advance(frag))
}

/// What the leaf at the end of a path has under a key.
pub open spec fn value_on(path: Seq<FragsView>, key: Seq<u8>) -> Option<Seq<u8>> {
    data::lookup(path.last().node.data->Leaf_0, key)
}

/// A page that is responsible for every key.
pub open spec fn first_page(id: PageID, data: DataView) -> NodeView {
    NodeView {
        id,
        data,
        next: None,
        lo: BoundView::Inc(Seq::empty()),
        hi: BoundView::Inf,
    }
}

impl View for Tree {
    type V = Map<Seq<u8>, Seq<u8>>;

    /// The records in the tree.
    closed spec fn view(&self) -> Map<Seq<u8>, Seq<u8>> {
        layout::contents(self.pages@.nodes())
    }
}

impl Tree {
    /// How the pages of the tree are linked.
    pub closed spec fn layout(self) -> Layout {
        Layout { levels: self.levels@, nodes: self.pages@.nodes() }
    }

    /// The page table of the tree.
    pub closed spec fn table(self) -> PagesView {
        self.pages@
    }

    /// The pages form a B-link tree, whose first page on top is the root.
    #[verifier::opaque]
    pub closed spec fn wf(self) -> bool {
        &&& self.pages@.wf()
        &&& self.layout().wf()
        &&& self.root == self.levels@[0][0]
    }

    /// No split is half complete.
    pub open spec fn settled(self) -> bool {
        self.layout().settled()
    }

    /// No page holds more entries than it should.
    pub open spec fn within_fanout(self) -> bool {
        forall|pid: PageID| #[trigger]
            self.layout().nodes.contains_key(pid) ==> self.layout().nodes[pid].data.len() <= FANOUT
    }

    /// No page but `but` holds more entries than it should, and that at most
    /// one more.
    pub open spec fn within_fanout_but(self, but: PageID) -> bool {
        forall|pid: PageID| #[trigger]
            self.layout().nodes.contains_key(pid) ==> self.layout().nodes[pid].data.len() <= (
            if pid == but {
                FANOUT + 1
            } else {
                FANOUT as int
            })
    }

    /// The path is made of states that pages of the tree were in.
    pub open spec fn remembers(self, path: Seq<FragsView>) -> bool {
        forall|y: int| 0 <= y < path.len() ==> self.table().holds(#[trigger] path[y])
    }

    /// The path leads down from the root through different pages, none of
    /// which has changed.
    pub open spec fn up_to_date(self, path: Seq<FragsView>) -> bool {
        &&& forall|y: int| 0 <= y < path.len() ==> self.table().current(#[trigger] path[y])
        &&& forall|y: int, z: int|
            0 <= y < z < path.len() ==> (#[trigger] path[y]).node.id != (
            #[trigger] path[z]).node.id
        &&& path.len() > 0 ==> path[0].node.id == self.root_page()
    }

    /// The states of the pages that are responsible for `key`, from the top
    /// level down.
    pub open spec fn search_path(self, key: Seq<u8>) -> Seq<FragsView> {
        Seq::new(
            self.layout().levels.len(),
            |d: int|
                FragsView {
                    node: self.layout().page_for(d, key),
                    head: self.table().pages[self.layout().page_for(d, key).id as int].log.len(),
                },
        )
    }

    /// The path is made of states that pages of the tree were in, and ends in
    /// one of a leaf that was then responsible for `key`.
    pub open spec fn finds(self, path: Seq<FragsView>, key: Seq<u8>) -> bool {
        &&& path.len() > 0
        &&& self.remembers(path)
        &&& path.last().node.data is Leaf
        &&& path.last().node.data.sorted()
        &&& path.last().node.covers(key)
    }

    /// The page table after a change to the last page of the path.
    pub open spec fn table_after(self, path: Seq<FragsView>, frag: FragView) -> PagesView {
        self.table().push(path.last().node.id, frag)
    }

    /// The page table and the root after `value` was stored under `key` in the
    /// leaf at the end of the path, and the pages of the path that then hold
    /// too many entries were split.
    pub open spec fn after_set_through(
        self,
        path: Seq<FragsView>,
        key: Seq<u8>,
        value: Seq<u8>,
    ) -> (PagesView, PageID) {
        let table = self.table_after(path, FragView::Put(key, value));
        let new = path_after(path, FragView::Put(key, value));
        if new.last().node.should_split() {
            splits::split_path(table, self.root_page(), new)
        } else {
            (table, self.root_page())
        }
    }

    /// The splits that storing `value` under `key` in the leaf at the end of
    /// the path leads to can be noted in the pages above.
    pub open spec fn takes_through(
        self,
        path: Seq<FragsView>,
        key: Seq<u8>,
        value: Seq<u8>,
    ) -> bool {
        let new = path_after(path, FragView::Put(key, value));
        new.last().node.should_split() ==> splits::notable(
            self.table_after(path, FragView::Put(key, value)),
            new,
        )
    }

    /// The page table and the root after `value` was stored under `key`, and
    /// the pages that then hold too many entries were split.
    pub open spec fn after_set(self, key: Seq<u8>, value: Seq<u8>) -> (PagesView, PageID) {
        self.after_set_through(self.search_path(key), key, value)
    }

    /// The splits that storing `value` under `key` leads to can be noted in
    /// the pages above.
    pub open spec fn takes(self, key: Seq<u8>, value: Seq<u8>) -> bool {
        self.takes_through(self.search_path(key), key, value)
    }

    /// The page where every search begins.
    pub closed spec fn root_page(self) -> PageID {
        self.root
    }

    /// An empty tree: an index page over one leaf.
    pub fn new() -> (tree: Tree)
        ensures
            tree.wf(),
            tree.settled(),
            tree.within_fanout(),
            tree@ == Map::<Seq<u8>, Seq<u8>>::empty(),
            tree.root_page() == 0,
            tree.layout().levels == seq![seq![0usize], seq![1usize]],
            tree.table() == (PagesView {
                pages: seq![
                    PageView::vacant().push(
                        FragView::Base(
                            first_page(0, DataView::Index(seq![(Seq::<u8>::empty(), 1usize)])),
                        ),
                    ),
                    PageView::vacant().push(
                        FragView::Base(first_page(1, DataView::Leaf(Seq::empty()))),
                    ),
                ],
                free: Seq::empty(),
            }),
    {
        proof {
            reveal(Tree::wf);
        }
        let mut pages = Pages::default();
        let root_id = pages.allocate();
        let leaf_id = pages.allocate();
        let leaf = Frag::Base(
            Node {
                id: leaf_id,
                data: Data::Leaf(Vec::with_capacity(FANOUT * 2)),
                next: None,
                lo: Bound::Inc(Vec::new()),
                hi: Bound::Inf,
            },
        );
        let mut root_index_vec: Vec<(Key, PageID)> = Vec::with_capacity(FANOUT * 2);
        root_index_vec.push((Vec::new(), leaf_id));
        let root = Frag::Base(
            Node {
                id: root_id,
                data: Data::Index(root_index_vec),
                next: None,
                lo: Bound::Inc(Vec::new()),
                hi: Bound::Inf,
            },
        );
        let ghost root_view = root@->Base_0;
        let ghost leaf_view = leaf@->Base_0;
        let ghost table = pages@;
        proof {
            pages::lemma_nodes_push(table, root_id, root@);
            pages::lemma_nodes_push(table.push(root_id, root@), leaf_id, leaf@);
        }
        let _ = pages.insert(root_id, root);
        let _ = pages.insert(leaf_id, leaf);
        let ghost levels: Seq<Seq<PageID>> = seq![seq![root_id], seq![leaf_id]];
        let tree = Tree { pages, root: root_id, levels: Ghost(levels) };
        proof {
            assert(table.nodes() =~= Map::empty());
            assert(tree.layout().nodes == Map::<PageID, NodeView>::empty().insert(
                root_id,
                root_view,
            ).insert(leaf_id, leaf_view));
            assert(root_view.lo =~= BoundView::Inc(Seq::empty()));
            assert(leaf_view.lo =~= BoundView::Inc(Seq::empty()));
            assert(root_view.data =~~= DataView::Index(seq![(Seq::<u8>::empty(), leaf_id)]));
            assert(leaf_view.data =~~= DataView::Leaf(Seq::empty()));
            lemma_new(tree.layout(), root_id, leaf_id);
            assert(tree.table().pages =~= seq![
                PageView::vacant().push(FragView::Base(root_view)),
                PageView::vacant().push(FragView::Base(leaf_view)),
            ]);
        }
        tree
    }

    /// The states of the pages that are responsible for `key`, from the top
    /// level down to the leaf.
    pub fn path_for_key(&self, key: &[u8]) -> (path: Vec<Frags>)
        requires
            self.wf(),
        ensures
            path@.len() == self.layout().levels.len(),
            path@.len() > 0,
            forall|d: int|
                0 <= d < path@.len() ==> (#[trigger] path@[d])@.node == self.layout().page_for(
                    d,
                    key@,
                ),
            forall|d: int|
                0 <= d < path@.len() ==> self.table().holds((#[trigger] path@[d])@)
                    && self.table().current(path@[d]@),
            path_view(path@) == self.search_path(key@),
            self.finds(path_view(path@), key@),
            value_on(path_view(path@), key@) == entry(self@, key@),
            self.settled() ==> splits::connected(path_view(path@)) && self.up_to_date(
                path_view(path@),
            ),
    {
        proof {
            reveal(Tree::wf);
        }
        broadcast use crate::key::group_key_order;

        let key_bound = Bound::Inc(copy_bytes(key));
        let ghost lay = self.layout();
        let mut cursor: PageID = self.root;
        let mut path: Vec<Frags> = Vec::new();
        let ghost mut d: int = 0;
        let ghost mut i: int = 0;
        proof {
            assert(lay.levels[0].len() >= 1);
            assert(lay.slot(0, 0));
            assert(lay.slot_ok(0, 0));
            key::lemma_empty_key_least(key@);
        }
        loop
            invariant
                self.wf(),
                lay == self.layout(),
                key_bound@ == BoundView::Inc(key@),
                lay.slot(d, i),
                cursor == lay.pid(d, i),
                !key::key_lt(key@, lay.lo(d, i)),
                path@.len() == d,
                forall|y: int|
                    0 <= y < path@.len() ==> (#[trigger] path@[y])@.node == lay.page_for(y, key@),
                forall|y: int|
                    0 <= y < path@.len() ==> self.table().holds((#[trigger] path@[y])@)
                        && self.table().current(path@[y]@),
            decreases lay.levels.len() - d, lay.levels[d].len() - i,
        {
            broadcast use crate::key::group_key_order;

            proof {
                reveal(Tree::wf);
            }
            assert(lay.slot_ok(d, i));
            assert(self.pages@.live(cursor));
            let frags = self.pages.get(cursor);
            assert(frags.node@ == lay.node(d, i));
            if !key_bound.is_below(&frags.node.hi) {
                // A split that the page above does not show yet: the page for
                // the key is further to the right.
                cursor = frags.node.next.unwrap();
                proof {
                    i = i + 1;
                    assert(lay.slot(d, i));
                }
                continue;
            }
            proof {
                lemma_page_here(lay, d, i, key@);
            }
            match &frags.node.data {
                Data::Index(ptrs) => {
                    proof {
                        assert(lay.node(d, i).data == DataView::Index(data::entries(ptrs@)));
                    }
                    let (next, t) = route(ptrs, key);
                    proof {
                        let ptr = data::entries(ptrs@)[t@];
                        assert(lay.leads(d + 1, lay.node(d, i).data->Index_0[t@]));
                        let c = choose|c: int|
                            {
                                &&& #[trigger] lay.slot(d + 1, c)
                                &&& lay.pid(d + 1, c) == ptr.1
                                &&& lay.lo(d + 1, c) == ptr.0
                            };
                        d = d + 1;
                        i = c;
                    }
                    cursor = next;
                },
                Data::Leaf(_) => {
                    path.push(frags);
                    proof {
                        lemma_path(*self, path@, key@);
                        assert(path_view(path@) =~= self.search_path(key@));
                        lemma_found(*self, key@);
                    }
                    return path;
                },
            }
            path.push(frags);
        }
    }

    /// The search path for `key`, and the value under `key`.
    fn get_internal(&self, key: &[u8]) -> (found: (Vec<Frags>, Option<Value>))
        requires
            self.wf(),
        ensures
            value_view(found.1) == entry(self@, key@),
            path_view(found.0@) == self.search_path(key@),
    {
        let path = self.path_for_key(key);
        let value = leaf_value(&path[path.len() - 1], key);
        proof {
            assert(path_view(path@).last() == path@.last()@);
        }
        (path, value)
    }

    /// The value under `key`.
    pub fn get(&self, key: &[u8]) -> (value: Option<Value>)
        requires
            self.wf(),
        ensures
            value_view(value) == entry(self@, key@),
            match value {
                Some(v) => self@.contains_key(key@) && self@[key@] == v@,
                None => !self@.contains_key(key@),
            },
    {
        let (_, value) = self.get_internal(key);
        value
    }

    /// Makes a change to the record under `key` in the leaf, if the leaf is
    /// still in this state. Otherwise nothing is changed.
    fn change_leaf(&mut self, leaf: &mut Frags, frag: Frag, Ghost(key): Ghost<Seq<u8>>) -> (done:
        bool)
        requires
            old(self).wf(),
            old(self).finds(seq![old(leaf)@], key),
            match frag@ {
                FragView::Put(k, _) => k == key,
                FragView::Del(k) => k == key,
                _ => false,
            },
        ensures
            final(self).wf(),
            final(self).table().extends(old(self).table()),
            final(self).root_page() == old(self).root_page(),
            done == old(self).table().current(old(leaf)@),
            done ==> {
                &&& old(self).search_path(key).last() == old(leaf)@
                &&& entry(old(self)@, key) == value_on(seq![old(leaf)@], key)
                &&& final(leaf)@ == old(leaf)@.advance(frag@)
                &&& final(self).table().holds(final(leaf)@)
                &&& final(self).table() == old(self).table().push(old(leaf)@.node.id, frag@)
                &&& final(self).layout() == old(self).layout().change(key, frag@)
                &&& final(self)@ == match frag@ {
                    FragView::Put(_, value) => old(self)@.insert(key, value),
                    _ => old(self)@.remove(key),
                }
                &&& old(self).settled() ==> final(self).settled()
                &&& old(self).within_fanout() ==> {
                    &&& final(self).within_fanout_but(old(leaf)@.node.id)
                    &&& frag@ is Del || !final(leaf)@.node.should_split()
                        ==> final(self).within_fanout()
                }
            },
            !done ==> {
                &&& final(self).table() == old(self).table()
                &&& final(self).layout() == old(self).layout()
                &&& final(self)@ == old(self)@
            },
    {
        proof {
            reveal(Tree::wf);
        }
        let ghost before = *self;
        let ghost state = leaf@;
        let ghost change = frag@;
        proof {
            assert(seq![state].last() == state);
            assert(seq![state][0] == state);
            if self.table().current(state) {
                lemma_leaf_found(*self, state, key);
                match change {
                    FragView::Put(_, value) => layout::lemma_leaf_put(self.layout(), key, value),
                    _ => layout::lemma_leaf_del(self.layout(), key),
                }
            }
        }
        let capped = leaf.cap(&mut self.pages, frag);
        proof {
            if capped is Ok {
                lemma_installed(before, *self, state, change);
                assert forall|p: PageID| #[trigger]
                    self.layout().nodes.contains_key(p) && p
                        != state.node.id implies before.layout().nodes.contains_key(p) by {}
            } else {
                pages::lemma_extends_same(before.pages@, self.pages@);
            }
        }
        capped.is_ok()
    }

    /// Stores `new` under `key` in the leaf at the end of a path that was
    /// found earlier, if what is there is `expected`, and if the leaf has not
    /// changed since. Otherwise nothing is changed, and what was there when the
    /// path was found comes back.
    pub fn cas_through(
        &mut self,
        path: Vec<Frags>,
        key: Key,
        expected: Option<Value>,
        new: Value,
    ) -> (done: Result<(), Option<Value>>)
        requires
            old(self).wf(),
            old(self).finds(path_view(path@), key@),
        ensures
            final(self).wf(),
            old(self).settled() ==> final(self).settled(),
            final(self).table().extends(old(self).table()),
            final(self).root_page() == old(self).root_page(),
            done is Ok <==> value_view(expected) == value_on(path_view(path@), key@) && old(
                self,
            ).table().current(path_view(path@).last()),
            done is Ok ==> {
                &&& value_view(expected) == entry(old(self)@, key@)
                &&& final(self)@ == old(self)@.insert(key@, new@)
                &&& final(self).layout() == old(self).layout().change(
                    key@,
                    FragView::Put(key@, new@),
                )
                &&& final(self).table() == old(self).table_after(
                    path_view(path@),
                    FragView::Put(key@, new@),
                )
            },
            done is Err ==> {
                &&& value_view(done->Err_0) == value_on(path_view(path@), key@)
                &&& final(self)@ == old(self)@
                &&& final(self).layout() == old(self).layout()
                &&& final(self).table() == old(self).table()
            },
    {
        let ghost whole = path_view(path@);
        let mut path = path;
        let mut leaf = path.pop().unwrap();
        proof {
            assert(leaf@ == whole[whole.len() - 1]);
        }
        let cur = leaf_value(&leaf, &key);
        if !same_value(&expected, &cur) {
            proof {
                pages::lemma_extends_same(self.pages@, self.pages@);
            }
            return Err(cur);
        }
        let ghost k = key@;
        if self.change_leaf(&mut leaf, Frag::Put(key, new), Ghost(k)) {
            Ok(())
        } else {
            Err(cur)
        }
    }

    /// Stores `new` under `key`, if what is there now is `expected` (`None`
    /// where nothing should be there). Otherwise nothing is changed, and what
    /// is there comes back. The page is not split, however full it gets.
    pub fn cas(&mut self, key: Key, expected: Option<Value>, new: Value) -> (done: Result<
        (),
        Option<Value>,
    >)
        requires
            old(self).wf(),
        ensures
            final(self).wf(),
            old(self).settled() ==> final(self).settled(),
            final(self).table().extends(old(self).table()),
            done is Ok <==> value_view(expected) == entry(old(self)@, key@),
            done is Ok ==> final(self)@ == old(self)@.insert(key@, new@),
            done is Ok ==> final(self).layout() == old(self).layout().change(
                key@,
                FragView::Put(key@, new@),
            ),
            done is Err ==> final(self).layout() == old(self).layout(),
            done is Ok ==> final(self).table() == old(self).table_after(
                old(self).search_path(key@),
                FragView::Put(key@, new@),
            ),
            done is Err ==> final(self).table() == old(self).table(),
            final(self).root_page() == old(self).root_page(),
            done is Err ==> final(self)@ == old(self)@,
            done is Err ==> value_view(done->Err_0) == entry(old(self)@, key@),
            done is Ok <==> match expected {
                Some(v) => old(self)@.contains_key(key@) && old(self)@[key@] == v@,
                None => !old(self)@.contains_key(key@),
            },
            done is Err ==> match done->Err_0 {
                Some(v) => old(self)@.contains_key(key@) && old(self)@[key@] == v@,
                None => !old(self)@.contains_key(key@),
            },
    {
        let path = self.path_for_key(&key);
        proof {
            assert(path_view(path@).last() == path@[path@.len() - 1]@);
        }
        self.cas_through(path, key, expected, new)
    }

    /// Takes the record under `key` out of the leaf at the end of a path that
    /// was found earlier, if the leaf has not changed since: `Ok` with its
    /// value. `Ok` with nothing where there was no record when the path was
    /// found, and `Err` where the leaf has changed; nothing is changed then.
    pub fn del_through(&mut self, path: Vec<Frags>, key: &[u8]) -> (done: Result<
        Option<Value>,
        (),
    >)
        requires
            old(self).wf(),
            old(self).finds(path_view(path@), key@),
        ensures
            final(self).wf(),
            old(self).settled() ==> final(self).settled(),
            old(self).within_fanout() ==> final(self).within_fanout(),
            final(self).table().extends(old(self).table()),
            final(self).root_page() == old(self).root_page(),
            done is Err <==> value_on(path_view(path@), key@) is Some && !old(
                self,
            ).table().current(path_view(path@).last()),
            done is Ok ==> value_view(done->Ok_0) == value_on(path_view(path@), key@),
            done is Ok && done->Ok_0 is Some ==> {
                &&& value_view(done->Ok_0) == entry(old(self)@, key@)
                &&& final(self)@ == old(self)@.remove(key@)
                &&& final(self).layout() == old(self).layout().change(key@, FragView::Del(key@))
                &&& final(self).table() == old(self).table_after(
                    path_view(path@),
                    FragView::Del(key@),
                )
            },
            done is Err || done->Ok_0 is None ==> {
                &&& final(self)@ == old(self)@
                &&& final(self).layout() == old(self).layout()
                &&& final(self).table() == old(self).table()
            },
    {
        let ghost whole = path_view(path@);
        let mut path = path;
        let mut leaf = path.pop().unwrap();
        proof {
            assert(leaf@ == whole[whole.len() - 1]);
        }
        let value = leaf_value(&leaf, key);
        if value.is_none() {
            proof {
                pages::lemma_extends_same(self.pages@, self.pages@);
            }
            return Ok(None);
        }
        if self.change_leaf(&mut leaf, Frag::Del(copy_bytes(key)), Ghost(key@)) {
            Ok(value)
        } else {
            Err(())
        }
    }

    /// Takes the record under `key` out of the tree, and gives back its value.
    pub fn del(&mut self, key: &[u8]) -> (value: Option<Value>)
        requires
            old(self).wf(),
        ensures
            final(self).wf(),
            old(self).settled() ==> final(self).settled(),
            old(self).within_fanout() ==> final(self).within_fanout(),
            final(self).table().extends(old(self).table()),
            final(self)@ == old(self)@.remove(key@),
            value_view(value) == entry(old(self)@, key@),
            match value {
                Some(v) => old(self)@.contains_key(key@) && old(self)@[key@] == v@,
                None => !old(self)@.contains_key(key@),
            },
            value is Some ==> final(self).layout() == old(self).layout().change(
                key@,
                FragView::Del(key@),
            ),
            value is None ==> final(self).layout() == old(self).layout(),
            value is Some ==> final(self).table() == old(self).table_after(
                old(self).search_path(key@),
                FragView::Del(key@),
            ),
            value is None ==> final(self).table() == old(self).table(),
            final(self).root_page() == old(self).root_page(),
    {
        let path = self.path_for_key(key);
        proof {
            assert(path_view(path@).last() == path@[path@.len() - 1]@);
            if entry(self@, key@) is None {
                assert(self@ =~= self@.remove(key@));
            }
        }
        match self.del_through(path, key) {
            Ok(value) => value,
            // The leaf is as the search found it, so this does not come.
            Err(_) => None,
        }
    }
}

impl Tree {
    /// Splits a page, if it is still in this state: its upper part goes to a
    /// new page to its right, and the note of the split for the page above
    /// comes back.
    fn split_page(&mut self, frags: Frags) -> (note: Option<ParentSplit>)
        requires
            old(self).wf(),
            old(self).table().holds(frags@),
            frags@.node.should_split(),
        ensures
            final(self).wf(),
            final(self)@ == old(self)@,
            final(self).root_page() == old(self).root_page(),
            final(self).table().extends(old(self).table()),
            final(self).table() == splits::halved(old(self).table(), frags@),
            note is Some <==> old(self).table().current(frags@),
            note is Some ==> note->0@ == frags@.node.split_note(old(self).table().next_pid()),
            forall|p: PageID| #[trigger]
                old(self).table().live(p) && (p != frags.node.id || note is None) ==> p
                    < final(self).table().pages.len() && final(self).table().pages[p as int]
                    == old(self).table().pages[p as int],
            note is None ==> final(self).layout() == old(self).layout(),
            note is Some ==> {
                let (d, i) = old(self).layout().place_of(frags.node.id);
                &&& old(self).layout().slot(d, i)
                &&& old(self).layout().pid(d, i) == frags.node.id
                &&& old(self).layout().node(d, i) == frags@.node
                &&& !old(self).layout().nodes.contains_key(note->0.to)
                &&& final(self).layout() == old(self).layout().split(d, i, note->0.to)
                &&& note->0@ == final(self).layout().split_note(d, i)
            },
    {
        proof {
            reveal(Tree::wf);
        }
        let mut frags = frags;
        let ghost before = *self;
        let ghost state = frags@;
        let ghost lay = self.layout();
        let new_pid = self.pages.allocate();
        let ghost table = self.pages@;
        proof {
            pages::lemma_allocated(before.pages@, table, new_pid);
            pages::lemma_extends_holds(table, before.pages@, state);
        }
        let (lhs, rhs, parent_split) = frags.split(new_pid);
        let ghost left = lhs@;
        let ghost right = rhs@;
        let _ = self.pages.insert(new_pid, rhs);
        let ghost inserted = self.pages@;
        proof {
            pages::lemma_nodes_push(table, new_pid, right);
            pages::lemma_extends_holds(inserted, table, state);
            pages::lemma_extends_transitive(before.pages@, table, inserted);
        }
        match frags.cas(&mut self.pages, lhs) {
            Err(_) => {
                self.pages.free(new_pid);
                proof {
                    pages::lemma_freed(inserted, self.pages@, new_pid);
                    pages::lemma_extends_transitive(before.pages@, inserted, self.pages@);
                    assert(self.layout().nodes =~= lay.nodes);
                }
                None
            },
            Ok(_) => {
                proof {
                    let ghost (d, i) = lay.place_of(state.node.id);
                    pages::lemma_current_content(before.pages@, state);
                    assert(lay.nodes.contains_key(state.node.id));
                    assert(lay.slot(d, i) && lay.pid(d, i) == state.node.id);
                    pages::lemma_current_content(inserted, state);
                    pages::lemma_nodes_push(inserted, state.node.id, left);
                    pages::lemma_extends_transitive(before.pages@, inserted, self.pages@);
                    let after = lay.split(d, i, new_pid);
                    self.levels@ = after.levels;
                    assert(self.layout().nodes =~= after.nodes);
                    layout::law_split_keeps_contents(lay, d, i, new_pid);
                    lay.levels[d].insert_ensures(i + 1, new_pid);
                }
                Some(parent_split)
            },
        }
    }

    /// Notes a split in the page above, if that is still in this state.
    fn note_split(
        &mut self,
        parent: &mut Frags,
        split: ParentSplit,
        Ghost(d): Ghost<int>,
        Ghost(i): Ghost<int>,
    ) -> (done: bool)
        requires
            old(self).wf(),
            old(self).table().holds(old(parent)@),
            old(self).layout().slot(d, i),
            old(self).layout().slot(d, i + 1),
            split@ == old(self).layout().split_note(d, i),
            !layout::listed(old(self).layout().nodes, split.to),
            old(self).table().current(old(parent)@) ==> layout::lists(
                old(parent)@.node,
                split.from,
            ),
        ensures
            final(self).wf(),
            final(self)@ == old(self)@,
            final(self).root_page() == old(self).root_page(),
            final(self).table().extends(old(self).table()),
            final(self).table().holds(final(parent)@),
            final(parent).node.id == old(parent).node.id,
            done <==> old(self).table().current(old(parent)@),
            !done ==> final(self).layout() == old(self).layout(),
            !done ==> final(self).table() == old(self).table() && final(parent)@ == old(parent)@,
            done ==> {
                &&& final(self).table() == old(self).table().push(
                    old(parent).node.id,
                    FragView::ParentSplit(split@),
                )
                &&& final(parent)@ == old(parent)@.advance(FragView::ParentSplit(split@))
                &&& final(self).table().current(final(parent)@)
                &&& final(parent)@.node.data.len() == old(parent)@.node.data.len() + 1
                &&& final(self).layout() == (Layout {
                    nodes: old(self).layout().nodes.insert(
                        old(parent).node.id,
                        final(parent)@.node,
                    ),
                    ..old(self).layout()
                })
                &&& old(self).layout().settled_but(Some(split.to)) ==> final(self).settled()
            },
            forall|p: PageID| #[trigger]
                old(self).table().live(p) && p != old(parent).node.id ==> p
                    < final(self).table().pages.len() && final(self).table().pages[p as int]
                    == old(self).table().pages[p as int],
    {
        proof {
            reveal(Tree::wf);
        }
        let ghost before = *self;
        let ghost state = parent@;
        let ghost frag = FragView::ParentSplit(split@);
        let ghost lay = self.layout();
        proof {
            if self.pages@.current(state) {
                pages::lemma_current_content(self.pages@, state);
                assert(lay.nodes.contains_key(state.node.id));
                let (e, j) = lay.place_of(state.node.id);
                assert(lay.slot(e, j) && lay.pid(e, j) == state.node.id);
                layout::lemma_listed_place(lay, e, j, d, i);
                layout::lemma_parent_split(lay, e, j, i);
            }
        }
        match parent.cap(&mut self.pages, Frag::ParentSplit(split)) {
            Ok(_) => {
                proof {
                    lemma_installed(before, *self, state, frag);
                }
                true
            },
            Err(_) => {
                proof {
                    pages::lemma_extends_same(before.pages@, self.pages@);
                }
                false
            },
        }
    }

    /// Puts a new root over the old one and the page that was split off from
    /// it, if the page that was split is still the root.
    fn hoist_root(&mut self, split: ParentSplit)
        requires
            old(self).wf(),
            split.from == old(self).root_page() ==> {
                &&& old(self).layout().slot(0, 1)
                &&& split@ == old(self).layout().split_note(0, 0)
            },
            split@.at.inner() is Some,
        ensures
            final(self).wf(),
            final(self)@ == old(self)@,
            final(self).table().extends(old(self).table()),
            (final(self).table(), final(self).root_page()) == splits::hoisted(
                old(self).table(),
                old(self).root_page(),
                split@,
            ),
            forall|p: PageID| #[trigger]
                old(self).table().live(p) ==> p < final(self).table().pages.len()
                    && final(self).table().pages[p as int] == old(self).table().pages[p as int],
            old(self).within_fanout() ==> final(self).within_fanout(),
            split.from != old(self).root_page() ==> final(self).layout() == old(self).layout(),
            split.from == old(self).root_page() && old(self).layout().settled_but(
                Some(split.to),
            ) ==> final(self).settled(),
    {
        proof {
            reveal(Tree::wf);
        }
        let ghost before = *self;
        let ghost lay = self.layout();
        let new_root_pid = self.pages.allocate();
        let ghost table = self.pages@;
        proof {
            pages::lemma_allocated(before.pages@, table, new_root_pid);
        }
        let mut new_root_vec: Vec<(Key, PageID)> = Vec::with_capacity(FANOUT * 2);
        new_root_vec.push((Vec::new(), split.from));
        new_root_vec.push((split.at.inner().unwrap(), split.to));
        let root = Frag::Base(
            Node {
                id: new_root_pid,
                data: Data::Index(new_root_vec),
                next: None,
                lo: Bound::Inc(Vec::new()),
                hi: Bound::Inf,
            },
        );
        let ghost base = root@;
        let ghost top = base->Base_0;
        let _ = self.pages.insert(new_root_pid, root);
        let ghost inserted = self.pages@;
        proof {
            assert(top.lo =~= BoundView::Inc(Seq::empty()));
            assert(top.data =~~= splits::root_over(new_root_pid, split@).data);
            pages::lemma_nodes_push(table, new_root_pid, base);
            pages::lemma_extends_transitive(before.pages@, table, inserted);
        }
        if self.root == split.from {
            self.root = new_root_pid;
            proof {
                let after = lay.hoist(new_root_pid, top);
                self.levels@ = after.levels;
                assert(self.layout().nodes =~= after.nodes);
                layout::lemma_hoist(lay, new_root_pid, top, 1);
            }
        } else {
            self.pages.free(new_root_pid);
            proof {
                pages::lemma_freed(inserted, self.pages@, new_root_pid);
                pages::lemma_extends_transitive(before.pages@, inserted, self.pages@);
                assert(self.layout().nodes =~= lay.nodes);
            }
        }
    }

    /// Splits the last page of a path, if it holds too many entries, notes the
    /// split in the page above, and takes the last page off the path.
    fn split_last(&mut self, path: &mut Vec<Frags>)
        requires
            old(self).wf(),
            old(path)@.len() > 1,
            old(self).remembers(path_view(old(path)@)),
            splits::notable(old(self).table(), path_view(old(path)@)),
        ensures
            final(self).wf(),
            final(self)@ == old(self)@,
            final(self).root_page() == old(self).root_page(),
            final(self).table().extends(old(self).table()),
            final(path)@.len() == old(path)@.len() - 1,
            forall|y: int|
                0 <= y < final(path)@.len() ==> (#[trigger] path_view(final(path)@)[y]).node.id
                    == path_view(old(path)@)[y].node.id,
            splits::untouched(
                old(self).table(),
                final(self).table(),
                path_view(old(path)@),
            ),
            final(self).remembers(path_view(final(path)@)),
            splits::notable(final(self).table(), path_view(final(path)@)),
            splits::split_up(final(self).table(), path_view(final(path)@)) == splits::split_up(
                old(self).table(),
                path_view(old(path)@),
            ),
            old(self).settled() && old(self).up_to_date(path_view(old(path)@)) ==> {
                &&& final(self).settled()
                &&& final(self).up_to_date(path_view(final(path)@))
                &&& old(self).within_fanout_but(old(path)@.last().node.id)
                    ==> final(self).within_fanout_but(final(path)@.last().node.id)
            },
    {
        let ghost before = *self;
        let ghost whole = path_view(path@);
        let ghost above = whole.drop_last();
        let ghost page = whole.last();
        let frags = path.pop().unwrap();
        assert(path_view(path@) =~= above);
        assert(frags@ == page);
        assert(above.last() == whole[whole.len() - 2]);
        assert forall|y: int| 0 <= y < above.len() implies above[y] == whole[y] by {}
        assert(splits::on_path(whole, page.node.id)) by {
            assert(whole[whole.len() - 1].node.id == page.node.id);
        }
        assert(splits::on_path(whole, above.last().node.id)) by {
            assert(whole[whole.len() - 2].node.id == above.last().node.id);
        }
        if !frags.should_split() {
            proof {
                pages::lemma_extends_same(self.pages@, self.pages@);
            }
            return;
        }
        let ghost (d, i) = self.layout().place_of(page.node.id);
        match self.split_page(frags) {
            None => {
                proof {
                    lemma_remembers(before, *self, above);
                }
            },
            Some(split) => {
                let ghost halved = *self;
                proof {
                    lemma_halved(before, halved, page, split@);
                    lemma_remembers(before, halved, above);
                }
                let mut parent = path.pop().unwrap();
                let ghost parent_state = parent@;
                let ghost note = FragView::ParentSplit(split@);
                let done = self.note_split(&mut parent, split, Ghost(d), Ghost(i));
                path.push(parent);
                proof {
                    if done {
                        assert(path_view(path@) =~= above.update(
                            above.len() - 1,
                            parent_state.advance(note),
                        ));
                    } else {
                        assert(path_view(path@) =~= above);
                    }
                    assert(path_view(path@) =~= above.update(
                        above.len() - 1,
                        path_view(path@).last(),
                    ));
                    assert(splits::untouched(before.table(), self.table(), whole)) by {
                        assert forall|p: PageID| #[trigger]
                            before.table().live(p) && !splits::on_path(whole, p) implies p
                            < self.table().pages.len() && self.table().pages[p as int]
                            == before.table().pages[p as int] by {
                            assert(halved.table().live(p));
                        }
                    }
                    pages::lemma_extends_transitive(before.table(), halved.table(), self.table());
                    lemma_remembers_but_last(halved, *self, above, path_view(path@));
                    if before.settled() && before.up_to_date(whole) {
                        lemma_still_up_to_date(before, halved, *self, whole, path_view(path@));
                        if before.within_fanout_but(page.node.id) {
                            lemma_still_within_fanout(before, halved, *self, page, parent@, split@);
                        }
                    }
                }
            },
        }
    }

    /// Splits the pages of a search path that hold too many entries, from the
    /// leaf up, and puts a new root on top if the topmost of them was split.
    ///
    /// The path may be an old one. A page that has changed since is not split,
    /// and a split is not noted in a page that has changed; the records of the
    /// tree stay the same, and can all be found.
    pub fn recursive_split(&mut self, path: &Vec<Frags>)
        requires
            old(self).wf(),
            path@.len() > 0,
            old(self).remembers(path_view(path@)),
            splits::notable(old(self).table(), path_view(path@)),
        ensures
            final(self).wf(),
            final(self)@ == old(self)@,
            final(self).table().extends(old(self).table()),
            (final(self).table(), final(self).root_page()) == splits::split_path(
                old(self).table(),
                old(self).root_page(),
                path_view(path@),
            ),
            splits::untouched(old(self).table(), final(self).table(), path_view(path@)),
            old(self).settled() && old(self).up_to_date(path_view(path@)) ==> {
                &&& final(self).settled()
                &&& old(self).within_fanout_but(path@.last().node.id)
                    ==> final(self).within_fanout()
            },
    {
        let ghost before = *self;
        let mut pending = copy_path(path);
        proof {
            pages::lemma_extends_same(self.pages@, self.pages@);
            assert(path_view(pending@).last() == path_view(path@).last());
        }
        while pending.len() > 1
            invariant
                self.wf(),
                self@ == before@,
                self.root_page() == before.root_page(),
                self.table().extends(before.table()),
                0 < pending@.len() <= path@.len(),
                forall|y: int|
                    0 <= y < pending@.len() ==> (#[trigger] path_view(pending@)[y]).node.id
                        == path_view(path@)[y].node.id,
                splits::untouched(before.table(), self.table(), path_view(path@)),
                self.remembers(path_view(pending@)),
                splits::notable(self.table(), path_view(pending@)),
                splits::split_up(self.table(), path_view(pending@)) == splits::split_up(
                    before.table(),
                    path_view(path@),
                ),
                before.settled() && before.up_to_date(path_view(path@)) ==> {
                    &&& self.settled()
                    &&& self.up_to_date(path_view(pending@))
                    &&& before.within_fanout_but(path@.last().node.id) ==> self.within_fanout_but(
                        pending@.last().node.id,
                    )
                },
            decreases pending@.len(),
        {
            let ghost table = self.table();
            let ghost was = path_view(pending@);
            self.split_last(&mut pending);
            proof {
                splits::lemma_untouched_transitive(
                    before.table(),
                    table,
                    self.table(),
                    path_view(path@),
                    was,
                );
                pages::lemma_extends_transitive(before.table(), table, self.table());
            }
        }
        let ghost lower = *self;
        let root_frag = pending.pop().unwrap();
        let ghost page = root_frag@;
        let ghost top = seq![page];
        assert(top[0].node.id == path_view(path@)[0].node.id);
        assert(splits::on_path(top, page.node.id));
        proof {
            assert(self.table().holds(page));
            if self.table().current(page) {
                pages::lemma_current_content(self.table(), page);
            }
        }
        if !root_frag.should_split() {
            return;
        }
        match self.split_page(root_frag) {
            None => {
                proof {
                    pages::lemma_extends_transitive(before.table(), lower.table(), self.table());
                    splits::lemma_untouched_transitive(
                        before.table(),
                        lower.table(),
                        self.table(),
                        path_view(path@),
                        top,
                    );
                }
            },
            Some(split) => {
                let ghost halved = *self;
                proof {
                    lemma_halved(lower, halved, page, split@);
                    pages::lemma_extends_transitive(before.table(), lower.table(), halved.table());
                    if lower.within_fanout_but(page.node.id) {
                        lemma_halved_within_fanout(lower, halved, page, split@);
                    }
                }
                self.hoist_root(split);
                proof {
                    pages::lemma_extends_transitive(before.table(), halved.table(), self.table());
                    assert(splits::untouched(lower.table(), self.table(), top)) by {
                        assert forall|p: PageID| #[trigger]
                            lower.table().live(p) && !splits::on_path(top, p) implies p
                            < self.table().pages.len() && self.table().pages[p as int]
                            == lower.table().pages[p as int] by {
                            assert(halved.table().live(p));
                        }
                    }
                    splits::lemma_untouched_transitive(
                        before.table(),
                        lower.table(),
                        self.table(),
                        path_view(path@),
                        top,
                    );
                }
            },
        }
    }

    /// Stores `value` under `key` in the leaf at the end of a path that was
    /// found earlier, if the leaf has not changed since, and splits the pages of
    /// the path that then hold too many entries. Otherwise nothing is changed.
    pub fn set_through(&mut self, path: Vec<Frags>, key: Key, value: Value) -> (done: Result<
        (),
        (),
    >)
        requires
            old(self).wf(),
            old(self).finds(path_view(path@), key@),
            old(self).table().current(path_view(path@).last()) ==> old(self).takes_through(
                path_view(path@),
                key@,
                value@,
            ),
        ensures
            final(self).wf(),
            final(self).table().extends(old(self).table()),
            done is Ok <==> old(self).table().current(path_view(path@).last()),
            done is Ok ==> {
                &&& final(self)@ == old(self)@.insert(key@, value@)
                &&& (final(self).table(), final(self).root_page()) == old(self).after_set_through(
                    path_view(path@),
                    key@,
                    value@,
                )
                &&& final(self).table().extends(
                    old(self).table_after(path_view(path@), FragView::Put(key@, value@)),
                )
            },
            done is Err ==> {
                &&& final(self)@ == old(self)@
                &&& final(self).layout() == old(self).layout()
                &&& final(self).table() == old(self).table()
                &&& final(self).root_page() == old(self).root_page()
            },
            splits::untouched(old(self).table(), final(self).table(), path_view(path@)),
            old(self).settled() && old(self).up_to_date(path_view(path@)) ==> {
                &&& final(self).settled()
                &&& old(self).within_fanout() ==> final(self).within_fanout()
            },
    {
        let ghost before = *self;
        let ghost k = key@;
        let ghost frag = FragView::Put(key@, value@);
        let ghost whole = path_view(path@);
        let mut path = path;
        let mut last = path.pop().unwrap();
        let ghost leaf = last@;
        proof {
            assert(leaf == whole[whole.len() - 1]);
            assert(splits::on_path(whole, leaf.node.id));
        }
        if !self.change_leaf(&mut last, Frag::Put(key, value), Ghost(k)) {
            return Err(());
        }
        let should_split = last.should_split();
        path.push(last);
        proof {
            assert(path_view(path@) =~= path_after(whole, frag));
            assert(path_view(path@).last() == leaf.advance(frag));
            lemma_put_path(before, *self, whole, frag);
            assert(splits::untouched(before.table(), self.table(), whole));
            pages::lemma_extends_same(self.table(), self.table());
        }
        if should_split {
            let ghost put = *self;
            self.recursive_split(&path);
            proof {
                pages::lemma_extends_transitive(before.table(), put.table(), self.table());
                splits::lemma_untouched_transitive(
                    before.table(),
                    put.table(),
                    self.table(),
                    whole,
                    path_view(path@),
                );
            }
        }
        Ok(())
    }

    /// Stores `value` under `key`, in place of what was there, and splits the
    /// pages that then hold too many entries.
    ///
    /// Where a split is half complete, a page that would have to be split may
    /// have no pointer to it. The record is not to be stored then: `takes` says
    /// where it may be.
    pub fn set(&mut self, key: Key, value: Value)
        requires
            old(self).wf(),
            old(self).settled() || old(self).takes(key@, value@),
        ensures
            final(self).wf(),
            final(self)@ == old(self)@.insert(key@, value@),
            final(self).table().extends(old(self).table()),
            (final(self).table(), final(self).root_page()) == old(self).after_set(key@, value@),
            splits::untouched(
                old(self).table(),
                final(self).table(),
                old(self).search_path(key@),
            ),
            old(self).settled() ==> final(self).settled(),
            old(self).settled() && old(self).within_fanout() ==> final(self).within_fanout(),
    {
        let path = self.path_for_key(&key);
        proof {
            assert(path_view(path@).last() == path@[path@.len() - 1]@);
            if self.settled() {
                law_settled_takes(*self, key@, value@);
            }
        }
        // The leaf is as the search found it, so the record goes in.
        let _ = self.set_through(path, key, value);
    }
}

/// The first `n` pages of level `d`, each on a line of its own.
pub open spec fn row_text(layout: Layout, d: int, n: int) -> Seq<char>
    decreases n,
{
    if n <= 0 {
        Seq::empty()
    } else {
        row_text(layout, d, n - 1) + "\t\t"@ + text::node_text(layout.node(d, n - 1)) + "\n"@
    }
}

/// The line above the pages of level `d`.
pub open spec fn header_text(d: int) -> Seq<char> {
    (if d == 0 {
        "\tlevel "@
    } else {
        "\n\tlevel "@
    }) + text::number_text(d as nat) + ":\n"@
}

/// The first `n` levels.
pub open spec fn levels_text(layout: Layout, n: int) -> Seq<char>
    decreases n,
{
    if n <= 0 {
        Seq::empty()
    } else {
        levels_text(layout, n - 1) + header_text(n - 1) + row_text(
            layout,
            n - 1,
            layout.levels[n - 1].len() as int,
        )
    }
}

impl Tree {
    /// The content of the pages that are responsible for `key`, from the top
    /// level down, each with a line break before it.
    pub fn key_debug_str(&self, key: &[u8]) -> (text: String)
        requires
            self.wf(),
        ensures
            text@ == text::lines_text(
                Seq::new(
                    self.layout().levels.len(),
                    |d: int| self.layout().page_for(d, key@),
                ),
            ),
    {
        let path = self.path_for_key(key);
        let ghost nodes = Seq::new(
            self.layout().levels.len(),
            |d: int| self.layout().page_for(d, key@),
        );
        let mut ret = String::new();
        let mut i: usize = 0;
        assert(nodes.take(0) =~= Seq::empty());
        while i < path.len()
            invariant
                i <= path@.len(),
                path@.len() == nodes.len(),
                forall|d: int| 0 <= d < path@.len() ==> (#[trigger] path@[d])@.node == nodes[d],
                ret@ == text::lines_text(nodes.take(i as int)),
            decreases path@.len() - i,
        {
            let ghost before = ret@;
            assert(path@[i as int]@.node == nodes[i as int]);
            ret.append("\n");
            write_node(&mut ret, &path[i].node);
            proof {
                let more = nodes.take(i + 1);
                assert(more.drop_last() =~= nodes.take(i as int));
                assert(more.last() == nodes[i as int]);
                assert(ret@ =~= text::lines_text(more));
            }
            i += 1;
        }
        assert(nodes.take(i as int) =~= nodes);
        ret
    }

    /// The page table, and the content of all pages, level by level from the
    /// top, each level from left to right.
    pub fn debug_str(&self) -> (text: String)
        requires
            self.wf(),
        ensures
            text@ == "Tree: \n\t"@ + pages::pages_text(self.table()) + levels_text(
                self.layout(),
                self.layout().levels.len() as int,
            ),
    {
        let ghost lay = self.layout();
        let mut out = String::new();
        out.append("Tree: \n\t");
        self.pages.write_to(&mut out);
        let ghost start = out@;
        let mut left_most: PageID = self.root;
        let mut level: usize = 0;
        proof {
            reveal(Tree::wf);
            assert(lay.levels[0].len() >= 1);
            assert(lay.slot(0, 0));
            assert(start =~= "Tree: \n\t"@ + pages::pages_text(self.table()));
            assert(out@ =~= start + levels_text(lay, 0));
            lemma_levels_fit(*self);
        }
        loop
            invariant
                self.wf(),
                lay == self.layout(),
                lay.levels.len() <= usize::MAX + 1,
                lay.slot(level as int, 0),
                left_most == lay.pid(level as int, 0),
                out@ == start + levels_text(lay, level as int),
                start == "Tree: \n\t"@ + pages::pages_text(self.table()),
            decreases lay.levels.len() - level,
        {
            let ghost before = out@;
            write_header(&mut out, level);
            self.write_level(&mut out, left_most, Ghost(level as int));
            proof {
                lemma_leftmost(*self, level as int);
                assert(out@ =~= start + levels_text(lay, level + 1)) by {
                    assert(before == start + levels_text(lay, level as int));
                }
            }
            let left_node = self.pages.get(left_most).node;
            match &left_node.data {
                Data::Index(ptrs) => {
                    proof {
                        assert(left_node@.data == DataView::Index(data::entries(ptrs@)));
                        assert(data::entries(ptrs@)[0].1 == ptrs@[0].1);
                    }
                    left_most = ptrs[0].1;
                    level += 1;
                },
                Data::Leaf(_) => {
                    return out;
                },
            }
        }
    }

    /// Writes the pages of a level, from the first to the right.
    fn write_level(&self, out: &mut String, first: PageID, Ghost(d): Ghost<int>)
        requires
            self.wf(),
            self.layout().slot(d, 0),
            first == self.layout().pid(d, 0),
        ensures
            final(out)@ == old(out)@ + row_text(
                self.layout(),
                d,
                self.layout().levels[d].len() as int,
            ),
    {
        let ghost lay = self.layout();
        let ghost start = out@;
        let mut pid: PageID = first;
        let ghost mut i: int = 0;
        assert(out@ =~= start + row_text(lay, d, 0));
        loop
            invariant
                self.wf(),
                lay == self.layout(),
                lay.slot(d, i),
                pid == lay.pid(d, i),
                out@ == start + row_text(lay, d, i),
                start == old(out)@,
            decreases lay.levels[d].len() - i,
        {
            proof {
                reveal(Tree::wf);
                assert(lay.slot_ok(d, i));
            }
            let node = self.pages.get(pid).node;
            out.append("\t\t");
            write_node(out, &node);
            out.append("\n");
            proof {
                assert(out@ =~= start + row_text(lay, d, i + 1));
                i = i + 1;
            }
            match node.next {
                Some(next_pid) => {
                    pid = next_pid;
                    assert(lay.slot(d, i));
                },
                None => {
                    return ;
                },
            }
        }
    }
}

/// Writes the line above the pages of a level.
fn write_header(out: &mut String, level: usize)
    ensures
        final(out)@ == old(out)@ + header_text(level as int),
{
    if level == 0 {
        out.append("\tlevel ");
    } else {
        out.append("\n\tlevel ");
    }
    write_number(out, level);
    out.append(":\n");
    assert(out@ =~= old(out)@ + header_text(level as int));
}

/// What the first page of a level shows of the level below.
proof fn lemma_leftmost(tree: Tree, d: int)
    requires
        tree.wf(),
        tree.layout().slot(d, 0),
    ensures
        tree.table().wf(),
        tree.table().live(tree.layout().pid(d, 0)),
        tree.table().nodes()[tree.layout().pid(d, 0)] == tree.layout().node(d, 0),
        tree.layout().node(d, 0).data is Leaf <==> d + 1 == tree.layout().levels.len(),
        tree.layout().node(d, 0).data is Index ==> {
            &&& tree.layout().slot(d + 1, 0)
            &&& tree.layout().node(d, 0).data->Index_0.len() >= 1
            &&& tree.layout().node(d, 0).data->Index_0[0].1 == tree.layout().pid(d + 1, 0)
        },
{
    reveal(Tree::wf);
    assert(tree.layout().slot_ok(d, 0));
    if tree.layout().node(d, 0).data is Index {
        lemma_first_pointer(tree.layout(), d);
    }
}

/// The first pointer of the first page of a level leads to the first page of
/// the next.
proof fn lemma_first_pointer(layout: Layout, d: int)
    requires
        layout.wf(),
        layout.slot(d, 0),
        layout.node(d, 0).data is Index,
    ensures
        layout.slot(d + 1, 0),
        layout.node(d, 0).data->Index_0.len() >= 1,
        layout.node(d, 0).data->Index_0[0].1 == layout.pid(d + 1, 0),
{
    broadcast use crate::key::group_key_order;

    assert(layout.slot_ok(d, 0));
    let ptr = layout.node(d, 0).data->Index_0[0];
    assert(layout.leads(d + 1, ptr));
    let c = choose|c: int|
        {
            &&& #[trigger] layout.slot(d + 1, c)
            &&& layout.pid(d + 1, c) == ptr.1
            &&& layout.lo(d + 1, c) == ptr.0
        };
    assert(layout.slot(d + 1, 0));
    assert(layout.slot_ok(d + 1, 0));
    if c > 0 {
        assert(key::key_lt(layout.lo(d + 1, 0), layout.lo(d + 1, c)));
    }
}

/// A tree has no more levels than there are page numbers.
proof fn lemma_levels_fit(tree: Tree)
    requires
        tree.wf(),
    ensures
        tree.layout().levels.len() <= usize::MAX + 1,
{
    reveal(Tree::wf);
    let lay = tree.layout();
    let firsts: Seq<int> = Seq::new(lay.levels.len(), |d: int| lay.pid(d, 0) as int);
    assert forall|d: int| 0 <= d < lay.levels.len() implies #[trigger] lay.slot(d, 0) by {
        assert(lay.levels[d].len() >= 1);
    }
    assert(firsts.no_duplicates()) by {
        assert forall|a: int, b: int|
            0 <= a < firsts.len() && 0 <= b < firsts.len() && a != b implies firsts[a]
            != firsts[b] by {
            assert(lay.slot(a, 0) && lay.slot(b, 0));
        }
    }
    firsts.unique_seq_to_set();
    let n = usize::MAX + 1;
    vstd::set_lib::lemma_int_range(0, n);
    assert(firsts.to_set().subset_of(vstd::set_lib::set_int_range(0, n))) by {
        assert forall|x: int| firsts.to_set().contains(x) implies vstd::set_lib::set_int_range(
            0,
            n,
        ).contains(x) by {
            let d = choose|d: int| 0 <= d < firsts.len() && firsts[d] == x;
            assert(lay.slot(d, 0));
        }
    }
    vstd::set_lib::lemma_len_subset(
        firsts.to_set(),
        vstd::set_lib::set_int_range(0, n),
    );
}

/// Copies a path.
fn copy_path(path: &Vec<Frags>) -> (copy: Vec<Frags>)
    ensures
        path_view(copy@) == path_view(path@),
{
    let mut copy: Vec<Frags> = Vec::with_capacity(path.len());
    let mut i: usize = 0;
    while i < path.len()
        invariant
            i <= path@.len(),
            path_view(copy@) == path_view(path@).take(i as int),
        decreases path@.len() - i,
    {
        let ghost done = path_view(copy@);
        copy.push(path[i].clone());
        i += 1;
        assert(path_view(copy@) =~= done.push(path_view(path@)[i - 1]));
        assert(path_view(copy@) =~= path_view(path@).take(i as int));
    }
    assert(path_view(path@).take(i as int) =~= path_view(path@));
    copy
}

/// A tree without half complete splits takes every record.
pub proof fn law_settled_takes(tree: Tree, key: Seq<u8>, value: Seq<u8>)
    requires
        tree.wf(),
        tree.settled(),
    ensures
        tree.takes(key, value),
{
    reveal(Tree::wf);
    let path = tree.search_path(key);
    let new = path_after(path, FragView::Put(key, value));
    assert forall|y: int, z: int| 0 <= y && z == y + 1 && z < new.len() implies layout::lists(
        (#[trigger] new[y]).node,
        (#[trigger] new[z]).node.id,
    ) by {
        layout::law_settled_search(tree.layout(), y, key);
        assert(new[y] == path[y]);
        assert(new[z].node.id == path[z].node.id);
    }
    splits::law_connected_is_notable(tree.table_after(path, FragView::Put(key, value)), new);
}

/// A path that the tree remembers, after a change to its last page.
proof fn lemma_put_path(before: Tree, after: Tree, path: Seq<FragsView>, frag: FragView)
    requires
        path.len() > 0,
        before.remembers(path),
        before.table().current(path.last()),
        after.table() == before.table_after(path, frag),
        after.table().extends(before.table()),
        after.table().holds(path.last().advance(frag)),
        path.last().advance(frag).node.id == path.last().node.id,
        after.root_page() == before.root_page(),
    ensures
        after.remembers(path_after(path, frag)),
        before.up_to_date(path) ==> after.up_to_date(path_after(path, frag)),
{
    let new = path_after(path, frag);
    assert(new =~= path.update(path.len() - 1, new.last()));
    lemma_remembers_but_last(before, after, path, new);
    if before.up_to_date(path) {
        assert forall|y: int| 0 <= y < new.len() implies after.table().current(
            #[trigger] new[y],
        ) by {
            if y < path.len() - 1 {
                assert(new[y] == path[y]);
                assert(path[y].node.id != path[path.len() - 1].node.id);
            }
        }
        assert forall|y: int, z: int| 0 <= y < z < new.len() implies (
        #[trigger] new[y]).node.id != (#[trigger] new[z]).node.id by {
            assert(path[y].node.id != path[z].node.id);
        }
        assert(new[0].node.id == path[0].node.id);
    }
}

/// What is left to do after a page was split.
proof fn lemma_halved(before: Tree, after: Tree, page: FragsView, split: ParentSplitView)
    requires
        before.wf(),
        ({
            let (d, i) = before.layout().place_of(page.node.id);
            &&& before.layout().slot(d, i)
            &&& before.layout().node(d, i) == page.node
            &&& page.node.should_split()
            &&& !before.layout().nodes.contains_key(split.to)
            &&& after.layout() == before.layout().split(d, i, split.to)
        }),
    ensures
        ({
            let (d, i) = before.layout().place_of(page.node.id);
            &&& after.layout().slot(d, i)
            &&& after.layout().slot(d, i + 1)
            &&& !layout::listed(after.layout().nodes, split.to)
            &&& before.settled() ==> after.layout().settled_but(Some(split.to))
            &&& before.layout().pid(d, i) == before.root_page() ==> d == 0 && i == 0
        }),
{
    reveal(Tree::wf);
    let lay = before.layout();
    assert(lay.levels[0].len() >= 1);
    assert(lay.slot(0, 0));
    let (d, i) = lay.place_of(page.node.id);
    layout::lemma_split_settled(lay, d, i, split.to);
    lay.levels[d].insert_ensures(i + 1, split.to);
}

/// A path on which nothing had changed leaves, when its last page was split and
/// taken off, a path on which nothing has changed.
proof fn lemma_still_up_to_date(
    before: Tree,
    halved: Tree,
    after: Tree,
    whole: Seq<FragsView>,
    path: Seq<FragsView>,
)
    requires
        before.up_to_date(whole),
        whole.len() > 1,
        path.len() == whole.len() - 1,
        path == whole.drop_last().update(path.len() - 1, path.last()),
        path.last().node.id == whole[path.len() - 1].node.id,
        after.table().current(path.last()),
        after.root_page() == before.root_page(),
        forall|p: PageID| #[trigger]
            before.table().live(p) && p != whole.last().node.id ==> p
                < halved.table().pages.len() && halved.table().pages[p as int]
                == before.table().pages[p as int],
        forall|p: PageID| #[trigger]
            halved.table().live(p) && p != path.last().node.id ==> p < after.table().pages.len()
                && after.table().pages[p as int] == halved.table().pages[p as int],
    ensures
        after.up_to_date(path),
{
    assert forall|y: int| 0 <= y < path.len() - 1 implies path[y] == whole[y] by {}
    assert forall|y: int| 0 <= y < path.len() implies after.table().current(#[trigger] path[y]) by {
        if y < path.len() - 1 {
            assert(before.table().current(whole[y]));
            assert(before.table().live(whole[y].node.id));
            assert(whole[y].node.id != whole[whole.len() - 1].node.id);
            assert(whole[y].node.id != whole[whole.len() - 2].node.id);
            assert(halved.table().live(whole[y].node.id));
        }
    }
    assert forall|y: int, z: int| 0 <= y < z < path.len() implies (#[trigger] path[y]).node.id != (
    #[trigger] path[z]).node.id by {
        assert(whole[y].node.id != whole[z].node.id);
    }
    assert(path[0].node.id == whole[0].node.id);
}

/// Where only one page held too many entries, by one, after its split none
/// does.
proof fn lemma_halved_within_fanout(
    before: Tree,
    halved: Tree,
    page: FragsView,
    split: ParentSplitView,
)
    requires
        before.within_fanout_but(page.node.id),
        ({
            let (d, i) = before.layout().place_of(page.node.id);
            &&& before.layout().pid(d, i) == page.node.id
            &&& before.layout().node(d, i) == page.node
            &&& before.layout().nodes.contains_key(page.node.id)
            &&& page.node.should_split()
            &&& halved.layout() == before.layout().split(d, i, split.to)
        }),
    ensures
        halved.within_fanout(),
{
    assert(before.layout().nodes.contains_key(page.node.id));
    assert(page.node.data.len() == FANOUT + 1);
    assert forall|p: PageID| #[trigger]
        halved.layout().nodes.contains_key(p) implies halved.layout().nodes[p].data.len()
        <= FANOUT by {
        if p != split.to && p != page.node.id {
            assert(before.layout().nodes.contains_key(p));
        }
    }
}

/// Where only the last page of the path held too many entries, by one, after
/// its split only the page above can hold too many, by one.
proof fn lemma_still_within_fanout(
    before: Tree,
    halved: Tree,
    after: Tree,
    page: FragsView,
    parent: FragsView,
    split: ParentSplitView,
)
    requires
        before.within_fanout_but(page.node.id),
        ({
            let (d, i) = before.layout().place_of(page.node.id);
            &&& before.layout().pid(d, i) == page.node.id
            &&& before.layout().node(d, i) == page.node
            &&& before.layout().nodes.contains_key(page.node.id)
            &&& page.node.should_split()
            &&& halved.layout() == before.layout().split(d, i, split.to)
        }),
        halved.layout().nodes.contains_key(parent.node.id),
        after.layout().nodes == halved.layout().nodes.insert(parent.node.id, parent.node),
        parent.node.data.len() == halved.layout().nodes[parent.node.id].data.len() + 1,
    ensures
        after.within_fanout_but(parent.node.id),
{
    lemma_halved_within_fanout(before, halved, page, split);
    assert forall|p: PageID| #[trigger]
        after.layout().nodes.contains_key(p) implies after.layout().nodes[p].data.len() <= (if p
        == parent.node.id {
        FANOUT + 1
    } else {
        FANOUT as int
    }) by {
        assert(halved.layout().nodes.contains_key(p));
    }
}

/// A tree remembers a path as long as its pages are changed by additions
/// alone.
proof fn lemma_remembers(before: Tree, after: Tree, path: Seq<FragsView>)
    requires
        before.remembers(path),
        after.table().extends(before.table()),
    ensures
        after.remembers(path),
{
    assert forall|y: int| 0 <= y < path.len() implies after.table().holds(#[trigger] path[y]) by {
        pages::lemma_extends_holds(after.table(), before.table(), path[y]);
    }
}

/// A path stays remembered with a later state of its last page.
proof fn lemma_remembers_but_last(
    before: Tree,
    after: Tree,
    path: Seq<FragsView>,
    new: Seq<FragsView>,
)
    requires
        before.remembers(path),
        after.table().extends(before.table()),
        path.len() > 0,
        new == path.update(path.len() - 1, new.last()),
        after.table().holds(new.last()),
    ensures
        after.remembers(new),
{
    lemma_remembers(before, after, path);
    assert forall|y: int| 0 <= y < new.len() implies after.table().holds(#[trigger] new[y]) by {
        if y < path.len() - 1 {
            assert(new[y] == path[y]);
        }
    }
}

/// What a leaf holds under `key`.
fn leaf_value(leaf: &Frags, key: &[u8]) -> (value: Option<Value>)
    requires
        leaf@.node.data is Leaf,
        leaf@.node.data.sorted(),
    ensures
        value_view(value) == data::lookup(leaf@.node.data->Leaf_0, key@),
{
    match &leaf.node.data {
        Data::Leaf(items) => {
            match search(items, key) {
                Ok(idx) => Some(copy_bytes(&items[idx].1)),
                Err(_) => None,
            }
        },
        Data::Index(_) => None,
    }
}

/// A leaf that is responsible for `key`, and has not changed, is the one that a
/// search ends in.
proof fn lemma_leaf_found(tree: Tree, state: FragsView, key: Seq<u8>)
    requires
        tree.wf(),
        tree.table().holds(state),
        tree.table().current(state),
        state.node.data is Leaf,
        state.node.covers(key),
    ensures
        tree.search_path(key).last() == state,
        state.node == tree.layout().page_for(tree.layout().levels.len() - 1, key),
        state.node.id == tree.layout().pid(
            tree.layout().levels.len() - 1,
            tree.layout().place(tree.layout().levels.len() - 1, key),
        ),
        entry(tree@, key) == data::lookup(state.node.data->Leaf_0, key),
{
    reveal(Tree::wf);
    let lay = tree.layout();
    pages::lemma_current_content(tree.table(), state);
    assert(lay.nodes.contains_key(state.node.id));
    let (d, i) = lay.place_of(state.node.id);
    assert(lay.slot(d, i) && lay.pid(d, i) == state.node.id);
    assert(lay.slot_ok(d, i));
    layout::law_one_page_for_each_key(lay, d, key);
    layout::law_contents_at_leaf(lay, key);
}

/// What a search ends in.
proof fn lemma_found(tree: Tree, key: Seq<u8>)
    requires
        tree.wf(),
        tree.remembers(tree.search_path(key)),
    ensures
        tree.finds(tree.search_path(key), key),
        value_on(tree.search_path(key), key) == entry(tree@, key),
{
    reveal(Tree::wf);
    let lay = tree.layout();
    let d = lay.levels.len() - 1;
    layout::law_one_page_for_each_key(lay, d, key);
    assert(lay.slot_ok(d, lay.place(d, key)));
    layout::law_contents_at_leaf(lay, key);
}

/// Whether two optional values are the same.
fn same_value(a: &Option<Value>, b: &Option<Value>) -> (same: bool)
    ensures
        same == (value_view(*a) == value_view(*b)),
{
    match (a, b) {
        (Some(x), Some(y)) => matches!(compare(x, y), KeyOrder::Same),
        (None, None) => true,
        _ => false,
    }
}

/// How a change that went into a page shows in the tree.
proof fn lemma_installed(before: Tree, after: Tree, state: FragsView, frag: FragView)
    requires
        before.wf(),
        before.pages@.holds(state),
        before.pages@.current(state),
        after.pages@ == before.pages@.push(state.node.id, frag),
        after.levels == before.levels,
    ensures
        after.layout() == (Layout {
            nodes: before.layout().nodes.insert(state.node.id, state.node.apply(frag)),
            ..before.layout()
        }),
        before.layout().nodes.contains_key(state.node.id),
        before.layout().nodes[state.node.id] == state.node,
        after.table().extends(before.table()),
{
    reveal(Tree::wf);
    pages::lemma_current_content(before.pages@, state);
    pages::lemma_nodes_push(before.pages@, state.node.id, frag);
}

/// The page at place `i` of level `d`, if it is responsible for `key`, is the
/// page for `key` on that level.
proof fn lemma_page_here(layout: Layout, d: int, i: int, key: Seq<u8>)
    requires
        layout.wf(),
        layout.slot(d, i),
        layout.node(d, i).covers(key),
    ensures
        layout.page_for(d, key) == layout.node(d, i),
{
    layout::law_one_page_for_each_key(layout, d, key);
}

/// In a tree without half complete splits, a search path can be used to split
/// the pages on it.
proof fn lemma_path(tree: Tree, path: Seq<Frags>, key: Seq<u8>)
    requires
        tree.wf(),
        path.len() == tree.layout().levels.len(),
        forall|d: int|
            0 <= d < path.len() ==> (#[trigger] path[d])@.node == tree.layout().page_for(d, key),
        forall|d: int|
            0 <= d < path.len() ==> tree.table().holds((#[trigger] path[d])@)
                && tree.table().current(path[d]@),
    ensures
        tree.remembers(path_view(path)),
        tree.settled() ==> splits::connected(path_view(path)) && tree.up_to_date(path_view(path)),
{
    reveal(Tree::wf);
    let view = path_view(path);
    let lay = tree.layout();
    assert forall|y: int| 0 <= y < view.len() implies tree.table().holds(#[trigger] view[y])
        && tree.table().current(view[y]) by {
        assert(view[y] == path[y]@);
    }
    if tree.settled() {
        assert forall|y: int, z: int| 0 <= y && z == y + 1 && z < view.len() implies layout::lists(
            (#[trigger] view[y]).node,
            (#[trigger] view[z]).node.id,
        ) by {
            layout::law_settled_search(lay, y, key);
            assert(view[y] == path[y]@);
            assert(view[y + 1] == path[y + 1]@);
        }
        assert forall|y: int, z: int| 0 <= y < z < view.len() implies (
        #[trigger] view[y]).node.id != (#[trigger] view[z]).node.id by {
            layout::law_one_page_for_each_key(lay, y, key);
            layout::law_one_page_for_each_key(lay, z, key);
            assert(view[y] == path[y]@);
            assert(view[z] == path[z]@);
            assert(lay.slot_ok(y, lay.place(y, key)));
            assert(lay.slot_ok(z, lay.place(z, key)));
        }
        layout::law_one_page_for_each_key(lay, 0, key);
        assert(lay.slot_ok(0, lay.place(0, key)));
        assert(view[0] == path[0]@);
        assert(lay.place(0, key) == 0);
    }
}

/// The last of the leading pointers whose key is not above `key`, and where it
/// stands.
fn route(ptrs: &Vec<(Key, PageID)>, key: &[u8]) -> (found: (PageID, Ghost<int>))
    requires
        ptrs@.len() >= 1,
        !key::key_lt(key@, data::entries(ptrs@)[0].0),
    ensures
        0 <= found.1@ < ptrs@.len(),
        found.0 == data::entries(ptrs@)[found.1@].1,
        forall|t: int|
            0 <= t <= found.1@ ==> !key::key_lt(
                key@,
                (#[trigger] data::entries(ptrs@)[t]).0,
            ),
        found.1@ + 1 < ptrs@.len() ==> key::key_lt(key@, data::entries(ptrs@)[found.1@ + 1].0),
{
    let ghost es = data::entries(ptrs@);
    let mut i: usize = 0;
    while i < ptrs.len() && !matches!(compare(key, &ptrs[i].0), KeyOrder::Below)
        invariant
            es == data::entries(ptrs@),
            i <= ptrs@.len(),
            forall|t: int| 0 <= t < i ==> !key::key_lt(key@, (#[trigger] es[t]).0),
        decreases ptrs@.len() - i,
    {
        assert(es[i as int].0 == ptrs@[i as int].0@);
        i += 1;
    }
    if i < ptrs.len() {
        assert(es[i as int].0 == ptrs@[i as int].0@);
    }
    (ptrs[i - 1].1, Ghost(i - 1))
}

/// An index page over an empty leaf makes an empty tree.
proof fn lemma_new(layout: Layout, root: PageID, leaf: PageID)
    requires
        root != leaf,
        layout.levels == seq![seq![root], seq![leaf]],
        layout.nodes == Map::<PageID, NodeView>::empty().insert(
            root,
            first_page(root, DataView::Index(seq![(Seq::<u8>::empty(), leaf)])),
        ).insert(leaf, first_page(leaf, DataView::Leaf(Seq::empty()))),
    ensures
        layout.wf(),
        layout.settled(),
        layout::contents(layout.nodes) == Map::<Seq<u8>, Seq<u8>>::empty(),
{
    key::lemma_empty_key_least(Seq::empty());
    let top = layout.node(0, 0);
    assert(layout.slot(0, 0) && layout.slot(1, 0));
    let ptr = top.data->Index_0[0];
    assert(layout.leads(1, ptr));
    assert(layout.pointers_ok(0, top));
    assert(layout.slot_ok(0, 0));
    assert(layout.slot_ok(1, 0));
    assert(layout::lists(top, leaf)) by {
        assert(top.data->Index_0[0].1 == leaf);
    }
    assert(layout.nodes.contains_key(root));
    assert(layout::listed(layout.nodes, leaf));
    assert(layout::contents(layout.nodes) =~= Map::empty());
}

/// What it means for a tree to be well formed: its page table and its layout
/// are, the layout shows the pages of the table that are in use, the root is
/// the first page on top, and the records of the tree are those in its pages.
pub proof fn law_well_formed(tree: Tree)
    ensures
        tree.wf() <==> {
            &&& tree.table().wf()
            &&& tree.layout().wf()
            &&& tree.root_page() == tree.layout().pid(0, 0)
        },
        tree.layout().nodes == tree.table().nodes(),
        tree@ == layout::contents(tree.layout().nodes),
{
    reveal(Tree::wf);
}

/// The states on a search path are those of different pages, as they are now.
proof fn lemma_search_path(tree: Tree, key: Seq<u8>)
    requires
        tree.wf(),
    ensures
        tree.search_path(key).len() > 0,
        tree.finds(tree.search_path(key), key),
        forall|y: int|
            0 <= y < tree.search_path(key).len() ==> tree.table().current(
                #[trigger] tree.search_path(key)[y],
            ),
        forall|y: int, z: int|
            0 <= y < z < tree.search_path(key).len() ==> (#[trigger] tree.search_path(
                key,
            )[y]).node.id != (#[trigger] tree.search_path(key)[z]).node.id,
{
    reveal(Tree::wf);
    let lay = tree.layout();
    let path = tree.search_path(key);
    assert forall|y: int| 0 <= y < path.len() implies tree.table().holds(#[trigger] path[y])
        && tree.table().current(path[y]) && path[y].node.id == lay.pid(y, lay.place(y, key)) by {
        layout::law_one_page_for_each_key(lay, y, key);
        assert(lay.slot_ok(y, lay.place(y, key)));
        let log = tree.table().pages[path[y].node.id as int].log;
        assert(tree.table().live(path[y].node.id));
        assert(log.take(log.len() as int) =~= log);
    }
    assert forall|y: int, z: int| 0 <= y < z < path.len() implies (#[trigger] path[y]).node.id != (
    #[trigger] path[z]).node.id by {
        layout::law_one_page_for_each_key(lay, y, key);
        layout::law_one_page_for_each_key(lay, z, key);
    }
    lemma_found(tree, key);
}

/// Storing a record through a path splits the leaf just when the leaf then holds
/// more than `FANOUT` records, however many it held before: of `n` records the
/// leaf keeps the first `n / 2 + 1`, and a new page to its right gets the
/// others. Otherwise the leaf holds all `n`, and no other page changes.
pub proof fn law_set_through_splits_a_large_leaf(
    before: Tree,
    after: Tree,
    path: Seq<FragsView>,
    key: Seq<u8>,
    value: Seq<u8>,
)
    requires
        before.wf(),
        before.finds(path, key),
        before.table().current(path.last()),
        forall|y: int, z: int|
            0 <= y < z < path.len() ==> (#[trigger] path[y]).node.id != (
            #[trigger] path[z]).node.id,
        (after.table(), after.root_page()) == before.after_set_through(path, key, value),
    ensures
        ({
            let leaf = path.last().node;
            let items = leaf.data->Leaf_0;
            let n = items.len() + (if exists|i: int|
                0 <= i < items.len() && (#[trigger] items[i]).0 == key {
                0int
            } else {
                1
            });
            let put = FragView::Put(key, value);
            let pages = after.table().nodes();
            &&& before.table().nodes().contains_key(leaf.id)
            &&& before.table().nodes()[leaf.id] == leaf
            &&& pages.contains_key(leaf.id)
            &&& n <= FANOUT ==> {
                let new = pages[leaf.id].data->Leaf_0;
                &&& after.root_page() == before.root_page()
                &&& pages == before.table().nodes().insert(leaf.id, pages[leaf.id])
                &&& pages[leaf.id] == (NodeView { data: DataView::Leaf(new), ..leaf })
                &&& new.len() == n
                &&& data::sorted(new)
                &&& forall|k: Seq<u8>, v: Seq<u8>| #[trigger]
                    new.contains((k, v)) <==> (if k == key {
                        v == value
                    } else {
                        items.contains((k, v))
                    })
            }
            &&& n > FANOUT ==> {
                let left = pages[leaf.id];
                let to = left.next->0;
                let right = pages[to];
                let lower = left.data->Leaf_0;
                let upper = right.data->Leaf_0;
                &&& left.next is Some
                &&& !before.table().nodes().contains_key(to)
                &&& pages.contains_key(to)
                &&& left.data is Leaf
                &&& right.data is Leaf
                &&& lower.len() == n / 2 + 1
                &&& upper.len() == n - (n / 2 + 1)
                &&& data::sorted(lower + upper)
                &&& forall|k: Seq<u8>, v: Seq<u8>| #[trigger]
                    (lower + upper).contains((k, v)) <==> (if k == key {
                        v == value
                    } else {
                        items.contains((k, v))
                    })
                &&& left.id == leaf.id
                &&& right.id == to
                &&& right.next == leaf.next
                &&& left.lo == leaf.lo
                &&& left.hi == BoundView::Non(upper[0].0)
                &&& right.lo == BoundView::Inc(upper[0].0)
                &&& right.hi == leaf.hi
                &&& before.after_set_through(path, key, value) == splits::split_path(
                    before.table().push(leaf.id, put),
                    before.root_page(),
                    path.update(path.len() - 1, path.last().advance(put)),
                )
            }
        }),
{
    reveal(Tree::wf);
    let state = path.last();
    let leaf = state.node;
    let items = leaf.data->Leaf_0;
    let put = FragView::Put(key, value);
    let table = before.table().push(leaf.id, put);
    let new = path_after(path, put);
    let stored = leaf.apply(put);
    assert(path[path.len() - 1] == state);
    assert(new =~= path.update(path.len() - 1, state.advance(put)));
    pages::lemma_current_content(before.table(), state);
    pages::lemma_nodes_push(before.table(), leaf.id, put);
    let log = before.table().pages[leaf.id as int].log;
    assert(log.take(log.len() as int) =~= log);
    assert forall|k: Seq<u8>, v: Seq<u8>| #[trigger]
        stored.data->Leaf_0.contains((k, v)) <==> (if k == key {
            v == value
        } else {
            items.contains((k, v))
        }) by {
        frag::law_leaf_after_a_change(leaf, key, value, k, v);
    }
    frag::law_leaf_after_a_change(leaf, key, value, key, value);
    frag::law_changes_keep_the_range(leaf, put);
    node::law_too_large_above_fanout(stored);
    if stored.data->Leaf_0.len() > FANOUT {
        assert(table.wf()) by {
            pages::lemma_replay_push(log, put);
            pages::lemma_log_wf_push(log, put, leaf.id);
            assert forall|pid: PageID| pid < table.pages.len() implies pages::log_wf(
                (#[trigger] table.pages[pid as int]).log,
                pid,
            ) by {
                assert(pages::log_wf(before.table().pages[pid as int].log, pid));
            }
            assert forall|i: int| 0 <= i < table.free.len() implies (#[trigger] table.free[i])
                < table.pages.len() && !table.pages[table.free[i] as int].live by {
                assert(table.free[i] == before.table().free[i]);
            }
        }
        assert forall|y: int| 0 <= y < new.len() implies table.holds(#[trigger] new[y]) by {
            if y < path.len() - 1 {
                assert(new[y] == path[y]);
                pages::lemma_extends_holds(table, before.table(), path[y]);
            } else {
                pages::lemma_replay_push(log, put);
                assert(log.push(put).take(log.push(put).len() as int) =~= log.push(put));
            }
        }
        assert forall|y: int, z: int| 0 <= y < z < new.len() implies (
        #[trigger] new[y]).node.id != (#[trigger] new[z]).node.id by {
            assert(path[y].node.id != path[z].node.id);
        }
        pages::lemma_table_fits(after.pages);
        let (full, made) = splits::law_split_path(table, before.root_page(), new);
        let last = new.len() - 1;
        assert(new[last] == state.advance(put));
        assert(table.current(new[last]));
        assert(made[last] is Some);
        let to = made[last]->0;
        assert(full[last] == stored);
        node::law_page_splits_in_the_middle(stored, to);
        assert(after.table().live(to));
        assert(!before.table().live(to)) by {
            assert(before.table().live(to) ==> table.live(to));
        }
    }
}

/// Storing a record splits the leaf for its key just when the leaf then holds
/// more than `FANOUT` records, however many it held before: of `n` records the
/// leaf keeps the first `n / 2 + 1`, and a new page to its right gets the
/// others. Otherwise the leaf holds all `n`, and no other page changes.
pub proof fn law_set_splits_a_large_leaf(
    before: Tree,
    after: Tree,
    pid: PageID,
    items: Seq<(Seq<u8>, Seq<u8>)>,
    key: Seq<u8>,
    value: Seq<u8>,
)
    requires
        before.wf(),
        before.table().nodes().contains_key(pid),
        before.table().nodes()[pid].data == DataView::Leaf(items),
        before.table().nodes()[pid].covers(key),
        (after.table(), after.root_page()) == before.after_set(key, value),
    ensures
        ({
            let n = items.len() + (if exists|i: int|
                0 <= i < items.len() && (#[trigger] items[i]).0 == key {
                0int
            } else {
                1
            });
            let pages = after.table().nodes();
            let left = pages[pid];
            &&& pages.contains_key(pid)
            &&& left.id == pid
            &&& left.data is Leaf
            &&& n <= FANOUT ==> {
                &&& left.data->Leaf_0.len() == n
                &&& after.root_page() == before.root_page()
                &&& pages == before.table().nodes().insert(pid, left)
            }
            &&& n > FANOUT ==> {
                let to = left.next->0;
                let right = pages[to];
                &&& left.next is Some
                &&& !before.table().nodes().contains_key(to)
                &&& pages.contains_key(to)
                &&& right.data is Leaf
                &&& left.data->Leaf_0.len() == n / 2 + 1
                &&& right.data->Leaf_0.len() == n - (n / 2 + 1)
                &&& right.next == before.table().nodes()[pid].next
                &&& left.hi == BoundView::Non(right.data->Leaf_0[0].0)
                &&& right.lo == BoundView::Inc(right.data->Leaf_0[0].0)
            }
        }),
{
    reveal(Tree::wf);
    lemma_search_path(before, key);
    let path = before.search_path(key);
    let log = before.table().pages[pid as int].log;
    let state = FragsView { node: before.table().nodes()[pid], head: log.len() };
    assert(before.table().live(pid));
    assert(log.take(log.len() as int) =~= log);
    pages::lemma_replay_id(log, pid);
    lemma_leaf_found(before, state, key);
    assert(path[path.len() - 1] == state);
    law_set_through_splits_a_large_leaf(before, after, path, key, value);
}

/// What a path has under a key is what its last page holds under it.
pub proof fn law_value_on_a_path(tree: Tree, path: Seq<FragsView>, key: Seq<u8>, value: Seq<u8>)
    requires
        tree.finds(path, key),
    ensures
        value_on(path, key) == Some(value) <==> path.last().node.data->Leaf_0.contains(
            (key, value),
        ),
{
    data::lemma_lookup_contains(path.last().node.data->Leaf_0, key, value);
}

/// A change to the last page of a path adds one entry to the log of that page,
/// and leaves the other pages alone.
pub proof fn law_change_at_the_end_of_a_path(
    tree: Tree,
    path: Seq<FragsView>,
    frag: FragView,
    other: PageID,
)
    requires
        path.len() > 0,
        path.last().node.id < tree.table().pages.len(),
        other < tree.table().pages.len(),
    ensures
        ({
            let pid = path.last().node.id;
            let after = tree.table_after(path, frag);
            &&& after.pages[pid as int].log == tree.table().pages[pid as int].log.push(frag)
            &&& other != pid ==> after.pages[other as int] == tree.table().pages[other as int]
            &&& after.pages.len() == tree.table().pages.len()
            &&& after.free == tree.table().free
        }),
{
}

/// The records of a tree are those that its leaves hold.
pub proof fn law_records_are_in_the_leaves(tree: Tree, key: Seq<u8>, value: Seq<u8>)
    requires
        tree.wf(),
    ensures
        tree@.contains_key(key) && tree@[key] == value <==> exists|pid: PageID| #[trigger]
            tree.table().nodes().contains_key(pid) && tree.table().nodes()[pid].data is Leaf
                && tree.table().nodes()[pid].data->Leaf_0.contains((key, value)),
{
    reveal(Tree::wf);
    let lay = tree.layout();
    if exists|pid: PageID| #[trigger]
        tree.table().nodes().contains_key(pid) && tree.table().nodes()[pid].data is Leaf
            && tree.table().nodes()[pid].data->Leaf_0.contains((key, value)) {
        let pid = choose|pid: PageID| #[trigger]
            tree.table().nodes().contains_key(pid) && tree.table().nodes()[pid].data is Leaf
                && tree.table().nodes()[pid].data->Leaf_0.contains((key, value));
        let (d, i) = lay.place_of(pid);
        assert(lay.nodes.contains_key(pid));
        assert(lay.slot(d, i) && lay.pid(d, i) == pid);
        assert(lay.slot_ok(d, i));
        let items = lay.node(d, i).data->Leaf_0;
        let t = choose|t: int| 0 <= t < items.len() && items[t] == (key, value);
        assert(lay.node(d, i).covers(lay.node(d, i).data.key_at(t)));
        lemma_page_here(lay, d, i, key);
        layout::law_contents_at_leaf(lay, key);
        data::lemma_lookup_contains(items, key, value);
    }
    if tree@.contains_key(key) && tree@[key] == value {
        assert(layout::stored(lay.nodes, key, value));
    }
}

/// Each page of a level has a line of its own in the text of the level, in their
/// order from left to right, and there is nothing else in it.
pub proof fn law_row_text(layout: Layout, d: int, n: int)
    requires
        n >= 0,
    ensures
        row_text(layout, d, n) == Seq::new(
            n as nat,
            |i: int| "\t\t"@ + text::node_text(layout.node(d, i)) + "\n"@,
        ).flatten(),
    decreases n,
{
    let lines = Seq::new(
        n as nat,
        |i: int| "\t\t"@ + text::node_text(layout.node(d, i)) + "\n"@,
    );
    if n > 0 {
        law_row_text(layout, d, n - 1);
        let fewer = Seq::new(
            (n - 1) as nat,
            |i: int| "\t\t"@ + text::node_text(layout.node(d, i)) + "\n"@,
        );
        assert(lines =~= fewer.push(lines.last()));
        fewer.lemma_flatten_push(lines.last());
        assert(row_text(layout, d, n) =~= lines.flatten());
    } else {
        assert(row_text(layout, d, n) =~= lines.flatten());
    }
}

/// Line `i` of a level is that of the page at place `i`: it stands between the
/// text of the first `i` pages and that of the pages after it.
pub proof fn law_line_of_a_page(layout: Layout, d: int, i: int, n: int)
    requires
        0 <= i < n,
    ensures
        row_text(layout, d, 0).len() == 0,
        row_text(layout, d, i).len() <= row_text(layout, d, n).len(),
        row_text(layout, d, i) == row_text(layout, d, n).take(
            row_text(layout, d, i).len() as int,
        ),
        row_text(layout, d, i + 1) == row_text(layout, d, i) + "\t\t"@ + text::node_text(
            layout.node(d, i),
        ) + "\n"@,
    decreases n - i,
{
    assert(row_text(layout, d, i) =~= row_text(layout, d, i + 1).take(
        row_text(layout, d, i).len() as int,
    ));
    if i + 1 < n {
        law_line_of_a_page(layout, d, i + 1, n);
        let whole = row_text(layout, d, n);
        let more = row_text(layout, d, i + 1);
        assert(whole.take(more.len() as int).take(row_text(layout, d, i).len() as int)
            =~= whole.take(row_text(layout, d, i).len() as int));
    }
}

/// The text of two levels is the same only if they have as many pages, with the
/// same content at each place.
pub proof fn law_row_text_tells_pages(a: Layout, b: Layout, d: int, e: int, n: int, m: int)
    requires
        n >= 0,
        m >= 0,
        row_text(a, d, n) == row_text(b, e, m),
    ensures
        n == m,
        forall|i: int| 0 <= i < n ==> #[trigger] a.node(d, i) == b.node(e, i),
{
    let p = Seq::new(n as nat, |i: int| a.node(d, i));
    let q = Seq::new(m as nat, |i: int| b.node(e, i));
    law_row_text(a, d, n);
    law_row_text(b, e, m);
    assert(Seq::new(p.len(), |i: int| "\t\t"@ + text::node_text(p[i]) + "\n"@) =~= Seq::new(
        n as nat,
        |i: int| "\t\t"@ + text::node_text(a.node(d, i)) + "\n"@,
    ));
    assert(Seq::new(q.len(), |i: int| "\t\t"@ + text::node_text(q[i]) + "\n"@) =~= Seq::new(
        m as nat,
        |i: int| "\t\t"@ + text::node_text(b.node(e, i)) + "\n"@,
    ));
    lemma_rows_tell(p, q);
    assert forall|i: int| 0 <= i < n implies #[trigger] a.node(d, i) == b.node(e, i) by {
        assert(p[i] == q[i]);
    }
}

/// The lines of pages tell the pages.
proof fn lemma_rows_tell(p: Seq<NodeView>, q: Seq<NodeView>)
    requires
        Seq::new(p.len(), |i: int| "\t\t"@ + text::node_text(p[i]) + "\n"@).flatten() == Seq::new(
            q.len(),
            |i: int| "\t\t"@ + text::node_text(q[i]) + "\n"@,
        ).flatten(),
    ensures
        p == q,
    decreases p.len(),
{
    reveal_strlit("\t\t");
    let ps = Seq::new(p.len(), |i: int| "\t\t"@ + text::node_text(p[i]) + "\n"@);
    let qs = Seq::new(q.len(), |i: int| "\t\t"@ + text::node_text(q[i]) + "\n"@);
    if p.len() == 0 && q.len() == 0 {
        assert(p =~= q);
    } else if p.len() == 0 {
        assert(ps.flatten().len() == 0);
        assert(qs.flatten() == qs.first() + qs.drop_first().flatten());
        assert(qs.first().len() > 0);
    } else if q.len() == 0 {
        assert(qs.flatten().len() == 0);
        assert(ps.flatten() == ps.first() + ps.drop_first().flatten());
        assert(ps.first().len() > 0);
    } else {
        let pr = p.skip(1);
        let qr = q.skip(1);
        let prs = Seq::new(pr.len(), |i: int| "\t\t"@ + text::node_text(pr[i]) + "\n"@);
        let qrs = Seq::new(qr.len(), |i: int| "\t\t"@ + text::node_text(qr[i]) + "\n"@);
        assert(ps.drop_first() =~= prs);
        assert(qs.drop_first() =~= qrs);
        let x = "\n"@ + prs.flatten();
        let y = "\n"@ + qrs.flatten();
        reading::lemma_regroup("\t\t"@ + text::node_text(p[0]), "\n"@, prs.flatten());
        reading::lemma_regroup("\t\t"@ + text::node_text(q[0]), "\n"@, qrs.flatten());
        reading::lemma_regroup("\t\t"@, text::node_text(p[0]), x);
        reading::lemma_regroup("\t\t"@, text::node_text(q[0]), y);
        reading::lemma_strip("\t\t"@, text::node_text(p[0]) + x, text::node_text(q[0]) + y);
        reading::law_node_text_tells_node(p[0], q[0], x, y);
        reading::lemma_strip("\n"@, prs.flatten(), qrs.flatten());
        lemma_rows_tell(pr, qr);
        assert(p =~= seq![p[0]] + pr);
        assert(q =~= seq![q[0]] + qr);
    }
}

/// Every level comes under its number, in their order from the top, with a line
/// for each of its pages.
pub proof fn law_levels_text(layout: Layout, n: int)
    requires
        n >= 0,
    ensures
        levels_text(layout, n) == Seq::new(
            n as nat,
            |d: int|
                (if d == 0 {
                    "\tlevel "@
                } else {
                    "\n\tlevel "@
                }) + text::number_text(d as nat) + ":\n"@ + Seq::new(
                    layout.levels[d].len(),
                    |i: int| "\t\t"@ + text::node_text(layout.nodes[layout.levels[d][i]]) + "\n"@,
                ).flatten(),
        ).flatten(),
    decreases n,
{
    let parts = Seq::new(
        n as nat,
        |d: int|
            (if d == 0 {
                "\tlevel "@
            } else {
                "\n\tlevel "@
            }) + text::number_text(d as nat) + ":\n"@ + Seq::new(
                layout.levels[d].len(),
                |i: int| "\t\t"@ + text::node_text(layout.nodes[layout.levels[d][i]]) + "\n"@,
            ).flatten(),
    );
    if n > 0 {
        let d = n - 1;
        law_levels_text(layout, d);
        let fewer = Seq::new(
            d as nat,
            |d: int|
                (if d == 0 {
                    "\tlevel "@
                } else {
                    "\n\tlevel "@
                }) + text::number_text(d as nat) + ":\n"@ + Seq::new(
                    layout.levels[d].len(),
                    |i: int| "\t\t"@ + text::node_text(layout.nodes[layout.levels[d][i]]) + "\n"@,
                ).flatten(),
        );
        assert(parts =~= fewer.push(parts.last()));
        fewer.lemma_flatten_push(parts.last());
        law_row_text(layout, d, layout.levels[d].len() as int);
        assert(Seq::new(
            layout.levels[d].len(),
            |i: int| "\t\t"@ + text::node_text(layout.node(d, i)) + "\n"@,
        ) =~= Seq::new(
            layout.levels[d].len(),
            |i: int| "\t\t"@ + text::node_text(layout.nodes[layout.levels[d][i]]) + "\n"@,
        ));
        assert(levels_text(layout, n) =~= fewer.flatten() + parts.last());
    } else {
        assert(levels_text(layout, n) =~= parts.flatten());
    }
}

} // verus!
