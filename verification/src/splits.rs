//! What the splits of pages do to the page table, whether or not the pages are
//! still in the state that the splits start from.
use vstd::prelude::*;

use crate::bound::BoundView;
use crate::data::{DataView, FANOUT};
use crate::frag::{FragView, ParentSplitView};
use crate::key::PageID;
use crate::layout;
use crate::node;
use crate::node::NodeView;
use crate::pages;
use crate::pages::{FragsView, PagesView};

verus! {

/// The page table after an attempt to split a page. The upper part of the page
/// goes to a new page, which is given back if the page has changed meanwhile.
pub open spec fn halved(table: PagesView, page: FragsView) -> PagesView {
    let to = table.next_pid();
    let started = table.handed_out().push(to, FragView::Base(page.node.split_right(to)));
    if table.current(page) {
        started.push(page.node.id, FragView::Base(page.node.split_left(to)))
    } else {
        started.given_back(to)
    }
}

/// The page table, and the state of the topmost page of the path, after the
/// pages of the path below it were split where they hold too many entries,
/// from the last to the first, and each split was noted in the page above.
/// Where a page has changed since the path was taken, its split is left out,
/// or not noted.
pub open spec fn split_up(table: PagesView, path: Seq<FragsView>) -> (PagesView, FragsView)
    decreases path.len(),
{
    if path.len() <= 1 {
        (table, path[0])
    } else {
        let page = path.last();
        let above = path.drop_last();
        let parent = above.last();
        if !page.node.should_split() {
            split_up(table, above)
        } else {
            let after = halved(table, page);
            let note = FragView::ParentSplit(page.node.split_note(table.next_pid()));
            if table.current(page) && after.current(parent) {
                split_up(
                    after.push(parent.node.id, note),
                    above.update(above.len() - 1, parent.advance(note)),
                )
            } else {
                split_up(after, above)
            }
        }
    }
}

/// Each split of a page of the path that is to be noted in the page above can
/// be: that page has a pointer to the page that is split.
///
/// Without such a pointer, noting the split would put the page in the place of
/// its left neighbour, and the keys of that neighbour would no longer be found.
pub open spec fn notable(table: PagesView, path: Seq<FragsView>) -> bool
    decreases path.len(),
{
    if path.len() <= 1 {
        true
    } else {
        let page = path.last();
        let above = path.drop_last();
        let parent = above.last();
        if !page.node.should_split() {
            notable(table, above)
        } else {
            let after = halved(table, page);
            let note = FragView::ParentSplit(page.node.split_note(table.next_pid()));
            if table.current(page) && after.current(parent) {
                &&& layout::lists(parent.node, page.node.id)
                &&& notable(
                    after.push(parent.node.id, note),
                    above.update(above.len() - 1, parent.advance(note)),
                )
            } else {
                notable(after, above)
            }
        }
    }
}

/// Each page of the path has a pointer to the next.
pub open spec fn connected(path: Seq<FragsView>) -> bool {
    forall|y: int, z: int|
        0 <= y && z == y + 1 && z < path.len() ==> layout::lists(
            (#[trigger] path[y]).node,
            (#[trigger] path[z]).node.id,
        )
}

/// On a path where each page has a pointer to the next, every split can be
/// noted.
pub proof fn law_connected_is_notable(table: PagesView, path: Seq<FragsView>)
    requires
        connected(path),
    ensures
        notable(table, path),
    decreases path.len(),
{
    if path.len() > 1 {
        let page = path.last();
        let above = path.drop_last();
        let parent = above.last();
        assert(parent == path[path.len() - 2]);
        assert forall|y: int, z: int| 0 <= y && z == y + 1 && z < above.len() implies layout::lists(
            (#[trigger] above[y]).node,
            (#[trigger] above[z]).node.id,
        ) by {
            assert(above[y] == path[y]);
            assert(above[z] == path[z]);
        }
        if !page.node.should_split() {
            law_connected_is_notable(table, above);
        } else {
            let after = halved(table, page);
            let note = FragView::ParentSplit(page.node.split_note(table.next_pid()));
            if table.current(page) && after.current(parent) {
                let new = above.update(above.len() - 1, parent.advance(note));
                assert forall|y: int, z: int|
                    0 <= y && z == y + 1 && z < new.len() implies layout::lists(
                    (#[trigger] new[y]).node,
                    (#[trigger] new[z]).node.id,
                ) by {
                    assert(new[y] == above[y]);
                    assert(new[z].node.id == above[z].node.id);
                }
                law_connected_is_notable(after.push(parent.node.id, note), new);
            } else {
                law_connected_is_notable(after, above);
            }
        }
    }
}

/// `pid` is one of the pages of the path.
pub open spec fn on_path(path: Seq<FragsView>, pid: PageID) -> bool {
    exists|y: int| 0 <= y < path.len() && (#[trigger] path[y]).node.id == pid
}

/// The pages that were in use and are not on the path are as they were.
pub open spec fn untouched(before: PagesView, after: PagesView, path: Seq<FragsView>) -> bool {
    forall|pid: PageID| #[trigger]
        before.live(pid) && !on_path(path, pid) ==> pid < after.pages.len()
            && after.pages[pid as int] == before.pages[pid as int]
}

/// What two steps on pages of a path leave alone.
pub proof fn lemma_untouched_transitive(
    a: PagesView,
    b: PagesView,
    c: PagesView,
    path: Seq<FragsView>,
    shorter: Seq<FragsView>,
)
    requires
        untouched(a, b, path),
        untouched(b, c, shorter),
        shorter.len() <= path.len(),
        forall|y: int|
            0 <= y < shorter.len() ==> (#[trigger] shorter[y]).node.id == path[y].node.id,
    ensures
        untouched(a, c, path),
{
    assert forall|pid: PageID| #[trigger] a.live(pid) && !on_path(path, pid) implies pid
        < c.pages.len() && c.pages[pid as int] == a.pages[pid as int] by {
        assert(b.live(pid));
        if on_path(shorter, pid) {
            let y = choose|y: int| 0 <= y < shorter.len() && (#[trigger] shorter[y]).node.id == pid;
            assert(path[y].node.id == pid);
        }
    }
}

/// A root over the two parts of a page that was split.
pub open spec fn root_over(id: PageID, split: ParentSplitView) -> NodeView {
    NodeView {
        id,
        data: DataView::Index(
            seq![(Seq::<u8>::empty(), split.from), (split.at.inner()->0, split.to)],
        ),
        next: None,
        lo: BoundView::Inc(Seq::empty()),
        hi: BoundView::Inf,
    }
}

/// The page table and the root after an attempt to put a new root over the two
/// parts of a page that was split. If that page is not the root, the new page
/// is given back.
pub open spec fn hoisted(table: PagesView, root: PageID, split: ParentSplitView) -> (
    PagesView,
    PageID,
) {
    let top = table.next_pid();
    let started = table.handed_out().push(top, FragView::Base(root_over(top, split)));
    if root == split.from {
        (started, top)
    } else {
        (started.given_back(top), root)
    }
}

/// The page table and the root after the pages of the path were split where
/// they hold too many entries, the topmost of them under a new root.
pub open spec fn split_path(table: PagesView, root: PageID, path: Seq<FragsView>) -> (
    PagesView,
    PageID,
) {
    let (after, page) = split_up(table, path);
    if !page.node.should_split() {
        (after, root)
    } else if !after.current(page) {
        (halved(after, page), root)
    } else {
        hoisted(halved(after, page), root, page.node.split_note(after.next_pid()))
    }
}

/// The pages that were given back are out of use, each listed once, and a page
/// in use has content.
spec fn sound(table: PagesView) -> bool {
    &&& forall|i: int|
        0 <= i < table.free.len() ==> (#[trigger] table.free[i]) < table.pages.len()
            && !table.pages[table.free[i] as int].live
    &&& table.free.no_duplicates()
    &&& forall|p: PageID| #[trigger] table.live(p) ==> table.pages[p as int].log.len() > 0
}

/// What handing a page out and putting content into it does.
proof fn lemma_started(table: PagesView, node: NodeView)
    requires
        sound(table),
        table.pages.len() < usize::MAX || table.free.len() > 0,
    ensures
        ({
            let to = table.next_pid();
            let after = table.handed_out().push(to, FragView::Base(node));
            &&& !table.live(to)
            &&& to < after.pages.len()
            &&& !after.free.contains(to)
            &&& sound(after)
            &&& after.extends(table)
            &&& after.nodes() == table.nodes().insert(to, node)
            &&& after.pages.len() >= table.pages.len()
            &&& to < table.pages.len() ==> after.pages[to as int].log.len()
                > table.pages[to as int].log.len()
            &&& forall|p: PageID|
                p < table.pages.len() && p != to ==> after.pages[p as int]
                    == #[trigger] table.pages[p as int]
        }),
{
    let to = table.next_pid();
    let out = table.handed_out();
    let frag = FragView::Base(node);
    let after = out.push(to, frag);
    if table.free.len() > 0 {
        assert(table.free[table.free.len() - 1] == to);
        assert forall|i: int| 0 <= i < out.free.len() implies #[trigger] out.free[i] != to by {
            assert(out.free[i] == table.free[i]);
        }
    } else {
        assert(to == table.pages.len());
    }
    assert(out.reserved(to)) by {
        if table.free.len() > 0 && out.free.contains(to) {
            let i = choose|i: int| 0 <= i < out.free.len() && out.free[i] == to;
            assert(out.free[i] == table.free[i]);
        }
    }
    pages::lemma_allocated(table, out, to);
    pages::lemma_nodes_push(out, to, frag);
    pages::lemma_extends_transitive(table, out, after);
    assert forall|i: int| 0 <= i < after.free.len() implies (#[trigger] after.free[i])
        < after.pages.len() && !after.pages[after.free[i] as int].live by {
        assert(after.free[i] == table.free[i]);
    }
    assert forall|p: PageID| #[trigger] after.live(p) implies after.pages[p as int].log.len()
        > 0 by {
        if p != to {
            assert(table.live(p));
        }
    }
}

/// What an attempt to split a page does to the pages in use.
proof fn lemma_halved_nodes(table: PagesView, page: FragsView)
    requires
        sound(table),
        table.holds(page),
        halved(table, page).pages.len() <= usize::MAX,
    ensures
        ({
            let to = table.next_pid();
            let after = halved(table, page);
            &&& !table.live(to)
            &&& sound(after)
            &&& after.extends(table)
            &&& after.pages.len() >= table.pages.len()
            &&& table.current(page) ==> {
                &&& to != page.node.id
                &&& after.nodes() == table.nodes().insert(to, page.node.split_right(to)).insert(
                    page.node.id,
                    page.node.split_left(to),
                )
            }
            &&& !table.current(page) ==> {
                &&& after.nodes() == table.nodes()
                &&& after.next_pid() == to
            }
            &&& to < table.pages.len() ==> after.pages[to as int].log.len()
                > table.pages[to as int].log.len()
            &&& forall|p: PageID|
                p < table.pages.len() && p != to && p != page.node.id ==> after.pages[p as int]
                    == #[trigger] table.pages[p as int]
            &&& forall|p: PageID|
                !table.current(page) && p < table.pages.len() && p != to ==> after.pages[p as int]
                    == #[trigger] table.pages[p as int]
        }),
{
    let to = table.next_pid();
    let right = page.node.split_right(to);
    let left = page.node.split_left(to);
    let started = table.handed_out().push(to, FragView::Base(right));
    let after = halved(table, page);
    assert(after.pages.len() == started.pages.len());
    lemma_started(table, right);
    if table.current(page) {
        pages::lemma_nodes_push(started, page.node.id, FragView::Base(left));
        pages::lemma_extends_transitive(table, started, after);
        assert forall|i: int| 0 <= i < after.free.len() implies (#[trigger] after.free[i])
            < after.pages.len() && !after.pages[after.free[i] as int].live by {
            assert(after.free[i] == started.free[i]);
            assert(started.live(page.node.id));
        }
        assert forall|p: PageID| #[trigger] after.live(p) implies after.pages[p as int].log.len()
            > 0 by {
            assert(started.live(p));
        }
    } else {
        pages::lemma_freed(started, after, to);
        pages::lemma_extends_transitive(table, started, after);
        assert(after.nodes() =~= table.nodes());
        assert forall|i: int| 0 <= i < after.free.len() implies (#[trigger] after.free[i])
            < after.pages.len() && !after.pages[after.free[i] as int].live by {
            if i < started.free.len() {
                assert(after.free[i] == started.free[i]);
            }
        }
        assert(after.free.no_duplicates()) by {
            assert forall|i: int, j: int|
                0 <= i < after.free.len() && 0 <= j < after.free.len() && i
                    != j implies after.free[i] != after.free[j] by {
                if i < started.free.len() && j == started.free.len() {
                    assert(started.free.contains(after.free[i]));
                } else if j < started.free.len() && i == started.free.len() {
                    assert(started.free.contains(after.free[j]));
                }
            }
        }
        assert forall|p: PageID| #[trigger] after.live(p) implies after.pages[p as int].log.len()
            > 0 by {
            assert(started.live(p));
        }
    }
}

/// The pages that the free list and the path name are in the table.
spec fn in_table(table: PagesView, path: Seq<FragsView>) -> bool {
    &&& forall|i: int|
        0 <= i < table.free.len() ==> (#[trigger] table.free[i]) < table.pages.len()
    &&& forall|y: int|
        0 <= y < path.len() ==> (#[trigger] path[y]).node.id < table.pages.len()
}

/// The table never shrinks when a page is split.
proof fn lemma_halved_grows(table: PagesView, page: FragsView)
    requires
        in_table(table, seq![page]),
    ensures
        table.pages.len() <= halved(table, page).pages.len(),
        in_table(halved(table, page), seq![page]),
{
    let to = table.next_pid();
    let out = table.handed_out();
    let after = halved(table, page);
    assert(seq![page][0] == page);
    if table.free.len() > 0 {
        assert(table.free[table.free.len() - 1] == to);
    }
    assert(to < out.pages.len());
    assert forall|i: int| 0 <= i < after.free.len() implies (#[trigger] after.free[i])
        < after.pages.len() by {
        if i < out.free.len() {
            assert(after.free[i] == table.free[i]);
        }
    }
}

/// The table never shrinks when the pages of a path are split.
proof fn lemma_split_up_grows(table: PagesView, path: Seq<FragsView>)
    requires
        in_table(table, path),
    ensures
        table.pages.len() <= split_up(table, path).0.pages.len(),
    decreases path.len(),
{
    if path.len() > 1 {
        let page = path.last();
        let above = path.drop_last();
        let parent = above.last();
        assert(page == path[path.len() - 1]);
        assert(parent == path[path.len() - 2]);
        assert forall|y: int| 0 <= y < above.len() implies (#[trigger] above[y]).node.id
            < table.pages.len() by {
            assert(above[y] == path[y]);
        }
        if !page.node.should_split() {
            lemma_split_up_grows(table, above);
        } else {
            let after = halved(table, page);
            let note = FragView::ParentSplit(page.node.split_note(table.next_pid()));
            lemma_halved_grows(table, page);
            if table.current(page) && after.current(parent) {
                let next = after.push(parent.node.id, note);
                let rest = above.update(above.len() - 1, parent.advance(note));
                assert forall|i: int| 0 <= i < next.free.len() implies (#[trigger] next.free[i])
                    < next.pages.len() by {
                    assert(next.free[i] == after.free[i]);
                }
                assert forall|y: int| 0 <= y < rest.len() implies (#[trigger] rest[y]).node.id
                    < next.pages.len() by {
                    assert(above[y].node.id == rest[y].node.id);
                }
                lemma_split_up_grows(next, rest);
            } else {
                lemma_split_up_grows(after, above);
            }
        }
    }
}

/// One of the pages of the path, still in its state there.
spec fn at_work(table: PagesView, path: Seq<FragsView>, p: PageID) -> bool {
    exists|y: int|
        0 <= y < path.len() && (#[trigger] path[y]).node.id == p && table.current(path[y])
}

/// How the pages of a path come out of splits: `full` is what each page held
/// when it was looked at, and `made` the page that took over its upper part.
spec fn outcome(
    table: PagesView,
    after: PagesView,
    path: Seq<FragsView>,
    full: Seq<NodeView>,
    made: Seq<Option<PageID>>,
) -> bool {
    &&& full.len() == path.len()
    &&& made.len() == path.len()
    &&& full.last() == path.last().node
    &&& forall|y: int, z: int|
        0 <= y && z == y + 1 && z < path.len() ==> (#[trigger] full[y]) == (if table.current(
            path[y],
        ) && (#[trigger] made[z]) is Some {
            path[y].node.apply(FragView::ParentSplit(full[z].split_note(made[z]->0)))
        } else {
            path[y].node
        })
    &&& forall|y: int|
        0 <= y < path.len() && (#[trigger] made[y]) is Some ==> {
            &&& !table.live(made[y]->0)
            &&& after.live(made[y]->0)
            &&& after.nodes()[made[y]->0] == full[y].split_right(made[y]->0)
        }
    &&& forall|y: int|
        0 <= y < path.len() && table.current(#[trigger] path[y]) ==> after.nodes()[path[y].node.id]
            == (match made[y] {
            Some(to) => full[y].split_left(to),
            None => full[y],
        })
    &&& forall|y: int, z: int|
        0 <= y < z < path.len() && (#[trigger] made[y]) is Some ==> made[y] != #[trigger] made[z]
    &&& forall|p: PageID| #[trigger] table.live(p) ==> after.live(p)
    &&& forall|p: PageID| #[trigger]
        after.live(p) ==> table.live(p) || exists|y: int|
            0 <= y < path.len() && #[trigger] made[y] == Some(p)
    &&& forall|p: PageID| #[trigger]
        table.live(p) && !at_work(table, path, p) ==> after.pages[p as int]
            == table.pages[p as int]
}

/// Which pages of a path, from `low` on, are split.
spec fn split_where_large(
    table: PagesView,
    path: Seq<FragsView>,
    full: Seq<NodeView>,
    made: Seq<Option<PageID>>,
    low: int,
) -> bool {
    forall|y: int|
        low <= y < path.len() ==> ((#[trigger] made[y]) is Some <==> table.current(path[y])
            && full[y].should_split())
}

/// The pages of the path are different.
spec fn distinct(path: Seq<FragsView>) -> bool {
    forall|y: int, z: int|
        0 <= y < z < path.len() ==> (#[trigger] path[y]).node.id != (#[trigger] path[z]).node.id
}

/// What the splits below the topmost page of a path come to.
#[verifier::rlimit(40)]
proof fn lemma_split_up(table: PagesView, path: Seq<FragsView>) -> (parts: (
    Seq<NodeView>,
    Seq<Option<PageID>>,
))
    requires
        path.len() > 0,
        sound(table),
        distinct(path),
        forall|y: int| 0 <= y < path.len() ==> table.holds(#[trigger] path[y]),
        split_up(table, path).0.pages.len() <= usize::MAX,
    ensures
        ({
            let (after, top) = split_up(table, path);
            &&& outcome(table, after, path, parts.0, parts.1)
            &&& split_where_large(table, path, parts.0, parts.1, 1)
            &&& parts.1[0] is None
            &&& sound(after)
            &&& after.extends(table)
            &&& after.holds(top)
            &&& top.node.id == path[0].node.id
            &&& top.node == parts.0[0]
            &&& after.current(top) <==> table.current(path[0])
        }),
    decreases path.len(),
{
    let (after, top) = split_up(table, path);
    if path.len() == 1 {
        let full = seq![path[0].node];
        let made: Seq<Option<PageID>> = seq![None];
        pages::lemma_extends_same(table, table);
        assert forall|y: int| 0 <= y < path.len() && table.current(
            #[trigger] path[y],
        ) implies after.nodes()[path[y].node.id] == full[y] by {
            pages::lemma_current_content(table, path[y]);
        }
        (full, made)
    } else {
        let n = path.len() as int;
        let page = path.last();
        let above = path.drop_last();
        let parent = above.last();
        let to = table.next_pid();
        let note = FragView::ParentSplit(page.node.split_note(to));
        assert(page == path[n - 1]);
        assert(parent == path[n - 2]);
        assert(distinct(above)) by {
            assert forall|y: int, z: int| 0 <= y < z < above.len() implies (
            #[trigger] above[y]).node.id != (#[trigger] above[z]).node.id by {
                assert(path[y].node.id != path[z].node.id);
            }
        }
        let splits = page.node.should_split();
        let halves = halved(table, page);
        let noted = splits && table.current(page) && halves.current(parent);
        let next = if !splits {
            table
        } else if noted {
            halves.push(parent.node.id, note)
        } else {
            halves
        };
        let rest = if noted {
            above.update(above.len() - 1, parent.advance(note))
        } else {
            above
        };
        assert(split_up(table, path) == split_up(next, rest));
        lemma_step_grows(table, path);
        lemma_split_up_grows(next, rest);
        lemma_step(table, path);
        assert(next == after_step(table, path).0 && rest == after_step(table, path).1);
        let (full, made) = lemma_split_up(next, rest);
        let last_made: Option<PageID> = if splits && table.current(page) {
            Some(to)
        } else {
            None
        };
        let all_full = full.push(page.node);
        let all_made = made.push(last_made);
        pages::lemma_extends_transitive(table, next, after);
        lemma_outcome_step(table, path, after, full, made);
        (all_full, all_made)
    }
}

/// The page table and the path after one step: the last page of the path was
/// split if it is too large, and taken off.
spec fn after_step(table: PagesView, path: Seq<FragsView>) -> (PagesView, Seq<FragsView>) {
    let page = path.last();
    let above = path.drop_last();
    let parent = above.last();
    let note = FragView::ParentSplit(page.node.split_note(table.next_pid()));
    let halves = halved(table, page);
    if !page.node.should_split() {
        (table, above)
    } else if table.current(page) && halves.current(parent) {
        (
            halves.push(parent.node.id, note),
            above.update(above.len() - 1, parent.advance(note)),
        )
    } else {
        (halves, above)
    }
}

/// The table never shrinks in a step.
proof fn lemma_step_grows(table: PagesView, path: Seq<FragsView>)
    requires
        path.len() > 1,
        in_table(table, path),
    ensures
        in_table(after_step(table, path).0, after_step(table, path).1),
{
    let (next, rest) = after_step(table, path);
    let page = path.last();
    let above = path.drop_last();
    assert(page == path[path.len() - 1]);
    assert(above.last() == path[path.len() - 2]);
    lemma_halved_grows(table, page);
    let halves = halved(table, page);
    assert forall|i: int| 0 <= i < next.free.len() implies (#[trigger] next.free[i])
        < next.pages.len() by {
        if page.node.should_split() {
            assert(next.free[i] == halves.free[i]);
        }
    }
    assert forall|y: int| 0 <= y < rest.len() implies (#[trigger] rest[y]).node.id
        < next.pages.len() by {
        assert(above[y] == path[y]);
        assert(rest[y].node.id == above[y].node.id);
    }
}

/// What one step keeps.
#[verifier::rlimit(40)]
proof fn lemma_step(table: PagesView, path: Seq<FragsView>)
    requires
        path.len() > 1,
        sound(table),
        distinct(path),
        forall|y: int| 0 <= y < path.len() ==> table.holds(#[trigger] path[y]),
        after_step(table, path).0.pages.len() <= usize::MAX,
    ensures
        ({
            let (next, rest) = after_step(table, path);
            let page = path.last();
            let to = table.next_pid();
            &&& rest.len() == path.len() - 1
            &&& sound(next)
            &&& next.extends(table)
            &&& distinct(rest)
            &&& forall|y: int| 0 <= y < rest.len() ==> next.holds(#[trigger] rest[y])
            &&& forall|y: int|
                0 <= y < rest.len() ==> (#[trigger] rest[y]).node.id == path[y].node.id
            &&& forall|y: int| 0 <= y < rest.len() - 1 ==> #[trigger] rest[y] == path[y]
            &&& forall|y: int|
                0 <= y < rest.len() ==> (next.current(#[trigger] rest[y]) <==> table.current(
                    path[y],
                ))
            &&& rest.last().node == (if page.node.should_split() && table.current(page)
                && table.current(path[path.len() - 2]) {
                path[path.len() - 2].node.apply(FragView::ParentSplit(page.node.split_note(to)))
            } else {
                path[path.len() - 2].node
            })
            &&& page.node.should_split() && table.current(page) ==> {
                &&& !table.live(to)
                &&& next.live(to)
                &&& next.nodes()[to] == page.node.split_right(to)
                &&& next.live(page.node.id)
                &&& next.nodes()[page.node.id] == page.node.split_left(to)
                &&& forall|p: PageID| #[trigger] next.live(p) <==> table.live(p) || p == to
            }
            &&& !(page.node.should_split() && table.current(page)) ==> {
                &&& forall|p: PageID| #[trigger] next.live(p) <==> table.live(p)
                &&& forall|p: PageID| #[trigger]
                    table.live(p) ==> next.pages[p as int] == table.pages[p as int]
            }
            &&& forall|p: PageID| #[trigger]
                table.live(p) && p != page.node.id && p != path[path.len() - 2].node.id
                    ==> next.pages[p as int] == table.pages[p as int]
            &&& !table.current(path[path.len() - 2]) ==> forall|p: PageID| #[trigger]
                table.live(p) && p != page.node.id ==> next.pages[p as int]
                    == table.pages[p as int]
        }),
{
    let (next, rest) = after_step(table, path);
    let n = path.len() as int;
    let page = path.last();
    let above = path.drop_last();
    let parent = above.last();
    let to = table.next_pid();
    let note = FragView::ParentSplit(page.node.split_note(to));
    let halves = halved(table, page);
    assert(page == path[n - 1]);
    assert(parent == path[n - 2]);
    assert(page.node.id != parent.node.id);
    assert forall|y: int| 0 <= y < above.len() implies above[y] == path[y] by {}
    if !page.node.should_split() {
        pages::lemma_extends_same(table, table);
    } else {
        assert(halves.pages.len() == next.pages.len());
        lemma_halved_nodes(table, page);
        assert forall|y: int| 0 <= y < n - 1 implies (halves.current(#[trigger] above[y])
            <==> table.current(path[y])) && halves.holds(above[y]) by {
            pages::lemma_extends_holds(halves, table, path[y]);
            assert(path[y].node.id != path[n - 1].node.id);
            let p = path[y].node.id;
            if p != to {
                assert(halves.pages[p as int] == table.pages[p as int]);
            }
        }
        assert(halves.current(above[n - 2]) <==> table.current(path[n - 2]));
        assert forall|p: PageID| #[trigger] halves.live(p) <==> halves.nodes().contains_key(p) by {}
        assert forall|p: PageID| #[trigger] table.live(p) <==> table.nodes().contains_key(p) by {}
        if table.current(page) && halves.current(parent) {
            pages::lemma_nodes_push(halves, parent.node.id, note);
            pages::lemma_extends_transitive(table, halves, next);
            pages::lemma_current_content(halves, parent);
            assert forall|y: int| 0 <= y < rest.len() implies next.holds(#[trigger] rest[y]) && (
            next.current(rest[y]) <==> table.current(path[y])) by {
                if y < n - 2 {
                    assert(halves.holds(above[y]));
                    pages::lemma_extends_holds(next, halves, above[y]);
                    assert(path[y].node.id != path[n - 2].node.id);
                } else {
                    let log = halves.pages[parent.node.id as int].log;
                    assert(log.take(log.len() as int) =~= log);
                    pages::lemma_replay_push(log, note);
                    assert(log.push(note).take(log.push(note).len() as int) =~= log.push(note));
                }
            }
            assert forall|i: int| 0 <= i < next.free.len() implies (#[trigger] next.free[i])
                < next.pages.len() && !next.pages[next.free[i] as int].live by {
                assert(next.free[i] == halves.free[i]);
                assert(halves.live(parent.node.id));
            }
            assert forall|p: PageID| #[trigger] next.live(p) <==> halves.live(p) by {}
            assert forall|y: int, z: int| 0 <= y < z < rest.len() implies (
            #[trigger] rest[y]).node.id != (#[trigger] rest[z]).node.id by {
                assert(path[y].node.id != path[z].node.id);
            }
        } else {
            assert forall|y: int, z: int| 0 <= y < z < rest.len() implies (
            #[trigger] rest[y]).node.id != (#[trigger] rest[z]).node.id by {
                assert(path[y].node.id != path[z].node.id);
            }
        }
    }
}

/// One step before others: what it did to the last page shows in the end.
#[verifier::rlimit(60)]
proof fn lemma_outcome_step(
    table: PagesView,
    path: Seq<FragsView>,
    after: PagesView,
    full: Seq<NodeView>,
    made: Seq<Option<PageID>>,
)
    requires
        path.len() > 1,
        sound(table),
        distinct(path),
        forall|y: int| 0 <= y < path.len() ==> table.holds(#[trigger] path[y]),
        after_step(table, path).0.pages.len() <= usize::MAX,
        outcome(after_step(table, path).0, after, after_step(table, path).1, full, made),
        split_where_large(after_step(table, path).0, after_step(table, path).1, full, made, 1),
    ensures
        ({
            let page = path.last();
            let all_full = full.push(page.node);
            let all_made = made.push(
                if page.node.should_split() && table.current(page) {
                    Some(table.next_pid())
                } else {
                    None
                },
            );
            &&& outcome(table, after, path, all_full, all_made)
            &&& split_where_large(table, path, all_full, all_made, 1)
        }),
{
    let (next, rest) = after_step(table, path);
    let n = path.len() as int;
    let page = path.last();
    let to = table.next_pid();
    let split = page.node.should_split() && table.current(page);
    let all_full = full.push(page.node);
    let all_made = made.push(
        if split {
            Some(to)
        } else {
            None
        },
    );
    lemma_step(table, path);
    assert(page == path[n - 1]);
    assert(!at_work(next, rest, page.node.id)) by {
        if at_work(next, rest, page.node.id) {
            let y = choose|y: int|
                0 <= y < rest.len() && (#[trigger] rest[y]).node.id == page.node.id && next.current(
                    rest[y],
                );
            assert(path[y].node.id != path[n - 1].node.id);
        }
    }
    assert(split ==> !at_work(next, rest, to)) by {
        if split && at_work(next, rest, to) {
            let y = choose|y: int|
                0 <= y < rest.len() && (#[trigger] rest[y]).node.id == to && next.current(rest[y]);
            assert(table.current(path[y]));
        }
    }
    assert forall|y: int, z: int| 0 <= y && z == y + 1 && z < n implies (#[trigger] all_full[y])
        == (if table.current(path[y]) && (#[trigger] all_made[z]) is Some {
        path[y].node.apply(FragView::ParentSplit(all_full[z].split_note(all_made[z]->0)))
    } else {
        path[y].node
    }) by {
        if z < n - 1 {
            assert(rest[y] == path[y]);
            assert(all_full[z] == full[z]);
            assert(all_made[z] == made[z]);
            assert(full[y] == all_full[y]);
        } else {
            assert(all_full[y] == full.last());
            assert(full.last() == rest.last().node);
        }
    }
    assert forall|y: int| 0 <= y < n && (#[trigger] all_made[y]) is Some implies {
        &&& !table.live(all_made[y]->0)
        &&& after.live(all_made[y]->0)
        &&& after.nodes()[all_made[y]->0] == all_full[y].split_right(all_made[y]->0)
    } by {
        if y < n - 1 {
            assert(made[y] is Some);
            if table.live(made[y]->0) {
                assert(next.live(made[y]->0));
            }
        } else {
            assert(next.live(to));
            assert(after.pages[to as int] == next.pages[to as int]);
        }
    }
    assert forall|y: int| 0 <= y < n && table.current(#[trigger] path[y]) implies after.nodes()[
    path[y].node.id] == (match all_made[y] {
        Some(m) => all_full[y].split_left(m),
        None => all_full[y],
    }) by {
        if y < n - 1 {
            assert(next.current(rest[y]));
        } else {
            assert(table.live(page.node.id));
            assert(next.live(page.node.id));
            assert(after.pages[page.node.id as int] == next.pages[page.node.id as int]);
            pages::lemma_current_content(table, page);
        }
    }
    assert forall|y: int, z: int|
        0 <= y < z < n && (#[trigger] all_made[y]) is Some implies all_made[y]
        != #[trigger] all_made[z] by {
        if z < n - 1 {
            assert(made[y] != made[z]);
        } else if split {
            assert(made[y] is Some);
            assert(next.live(to));
        }
    }
    assert forall|p: PageID| #[trigger] table.live(p) implies after.live(p) by {
        assert(next.live(p));
    }
    assert forall|p: PageID| #[trigger] after.live(p) implies table.live(p) || exists|y: int|
        0 <= y < n && #[trigger] all_made[y] == Some(p) by {
        if next.live(p) {
            if !table.live(p) {
                assert(all_made[n - 1] == Some(p));
            }
        } else {
            let y = choose|y: int| 0 <= y < rest.len() && #[trigger] made[y] == Some(p);
            assert(all_made[y] == Some(p));
        }
    }
    assert forall|p: PageID| #[trigger]
        table.live(p) && !at_work(table, path, p) implies after.pages[p as int]
        == table.pages[p as int] by {
        assert(next.live(p));
        if at_work(next, rest, p) {
            let y = choose|y: int|
                0 <= y < rest.len() && (#[trigger] rest[y]).node.id == p && next.current(rest[y]);
            assert(path[y].node.id == p && table.current(path[y]));
        }
        if split {
            assert(page.node.id != p) by {
                assert(path[n - 1].node.id == page.node.id);
            }
            if p == path[n - 2].node.id {
                assert(!table.current(path[n - 2]));
            }
        }
    }
    assert forall|y: int| 1 <= y < n implies ((#[trigger] all_made[y]) is Some <==> table.current(
        path[y],
    ) && all_full[y].should_split()) by {
        if y < n - 1 {
            assert(made[y] == all_made[y]);
            assert(next.current(rest[y]) <==> table.current(path[y]));
        }
    }
}

/// Splitting a page that is still in its state leaves two pages in its place:
/// the page itself with the lower part, and a page that was not in use with the
/// upper part. If the page has changed, the pages in use stay as they are, and
/// the page that was taken is the next to be handed out. No other page changes.
pub proof fn law_split_takes_one_page(table: PagesView, page: FragsView, other: PageID)
    requires
        table.wf(),
        table.holds(page),
        halved(table, page).pages.len() <= usize::MAX,
        table.live(other),
    ensures
        ({
            let to = table.next_pid();
            let after = halved(table, page);
            &&& !table.live(to)
            &&& table.current(page) ==> {
                &&& after.live(page.node.id)
                &&& after.nodes()[page.node.id] == page.node.split_left(to)
                &&& after.live(to)
                &&& after.nodes()[to] == page.node.split_right(to)
                &&& after.free == table.handed_out().free
            }
            &&& !table.current(page) ==> {
                &&& after.nodes() == table.nodes()
                &&& after.next_pid() == to
                &&& after.free == table.handed_out().free.push(to)
            }
            &&& after.pages.len() == table.handed_out().pages.len()
            &&& other != page.node.id || !table.current(page) ==> after.pages[other as int]
                == table.pages[other as int]
        }),
{
    assert(sound(table));
    lemma_halved_nodes(table, page);
    assert(halved(table, page).nodes().contains_key(page.node.id) || !table.current(page));
}

/// A new root over a page and the page that was split off from it has just two
/// pointers, to the two in this order, and is responsible for every key. If the
/// page is no longer the root, all stays as it is.
pub proof fn law_new_root_over_two_pages(table: PagesView, root: PageID, split: ParentSplitView)
    requires
        table.wf(),
        split.at is Inc,
        hoisted(table, root, split).0.pages.len() <= usize::MAX,
    ensures
        ({
            let (after, top) = hoisted(table, root, split);
            &&& split.from != root ==> top == root && after.nodes() == table.nodes()
            &&& split.from == root ==> {
                &&& !table.live(top)
                &&& after.nodes() == table.nodes().insert(
                    top,
                    NodeView {
                        id: top,
                        data: DataView::Index(
                            seq![(Seq::<u8>::empty(), split.from), (split.at->Inc_0, split.to)],
                        ),
                        next: None,
                        lo: BoundView::Inc(Seq::empty()),
                        hi: BoundView::Inf,
                    },
                )
            }
        }),
{
    lemma_hoisted_nodes(table, root, split);
}

/// What an attempt to put a new root on top does to the pages in use.
proof fn lemma_hoisted_nodes(table: PagesView, root: PageID, split: ParentSplitView)
    requires
        sound(table),
        hoisted(table, root, split).0.pages.len() <= usize::MAX,
    ensures
        ({
            let (after, top) = hoisted(table, root, split);
            let to = table.next_pid();
            &&& !table.live(to)
            &&& root != split.from ==> top == root && after.nodes() == table.nodes()
            &&& root == split.from ==> top == to && after.nodes() == table.nodes().insert(
                to,
                root_over(to, split),
            )
            &&& forall|p: PageID| #[trigger]
                table.live(p) ==> after.pages[p as int] == table.pages[p as int]
        }),
{
    let to = table.next_pid();
    let started = table.handed_out().push(to, FragView::Base(root_over(to, split)));
    let (after, top) = hoisted(table, root, split);
    lemma_started(table, root_over(to, split));
    if root != split.from {
        pages::lemma_freed(started, after, to);
        assert(after.nodes() =~= table.nodes());
    }
}

/// What splitting the pages of a path comes to, for a path of different pages,
/// old or not. Each page was looked at from the last up, with `full` in it: what
/// it held on the path, and, if it is still in that state, a note of the split
/// of the page below. It was split just when it is still in that state and `full`
/// has more than `FANOUT` entries, and then `made` is the new page that took over
/// the upper part. Only if the topmost page was split and is the root, there is
/// a new root, over the two. Nothing else changes.
#[verifier::rlimit(60)]
pub proof fn law_split_path(table: PagesView, root: PageID, path: Seq<FragsView>) -> (parts: (
    Seq<NodeView>,
    Seq<Option<PageID>>,
))
    requires
        table.wf(),
        path.len() > 0,
        forall|y: int| 0 <= y < path.len() ==> table.holds(#[trigger] path[y]),
        forall|y: int, z: int|
            0 <= y < z < path.len() ==> (#[trigger] path[y]).node.id != (
            #[trigger] path[z]).node.id,
        split_path(table, root, path).0.pages.len() <= usize::MAX,
    ensures
        ({
            let (after, top) = split_path(table, root, path);
            let (full, made) = parts;
            &&& full.len() == path.len()
            &&& made.len() == path.len()
            &&& full.last() == path.last().node
            &&& forall|y: int, z: int|
                0 <= y && z == y + 1 && z < path.len() ==> (#[trigger] full[y]) == (
                if table.current(path[y]) && (#[trigger] made[z]) is Some {
                    path[y].node.apply(FragView::ParentSplit(full[z].split_note(made[z]->0)))
                } else {
                    path[y].node
                })
            &&& forall|y: int|
                0 <= y < path.len() ==> ((#[trigger] made[y]) is Some <==> table.current(path[y])
                    && match full[y].data {
                    DataView::Index(ptrs) => ptrs.len() > FANOUT,
                    DataView::Leaf(items) => items.len() > FANOUT,
                })
            &&& forall|y: int|
                0 <= y < path.len() && table.current(#[trigger] path[y]) ==> {
                    &&& after.live(path[y].node.id)
                    &&& after.nodes()[path[y].node.id] == (match made[y] {
                        Some(to) => full[y].split_left(to),
                        None => full[y],
                    })
                }
            &&& forall|y: int|
                0 <= y < path.len() && (#[trigger] made[y]) is Some ==> {
                    &&& !table.live(made[y]->0)
                    &&& after.live(made[y]->0)
                    &&& after.nodes()[made[y]->0] == full[y].split_right(made[y]->0)
                }
            &&& forall|y: int, z: int|
                0 <= y < z < path.len() && (#[trigger] made[y]) is Some ==> made[y]
                    != #[trigger] made[z]
            &&& if made[0] is Some && path[0].node.id == root {
                &&& !table.live(top)
                &&& forall|y: int| 0 <= y < path.len() ==> #[trigger] made[y] != Some(top)
                &&& after.live(top)
                &&& after.nodes()[top] == (NodeView {
                    id: top,
                    data: DataView::Index(
                        seq![
                            (Seq::<u8>::empty(), root),
                            (full[0].split_right(made[0]->0).lo->Inc_0, made[0]->0),
                        ],
                    ),
                    next: None,
                    lo: BoundView::Inc(Seq::empty()),
                    hi: BoundView::Inf,
                })
            } else {
                top == root
            }
            &&& forall|p: PageID| #[trigger] table.live(p) ==> after.live(p)
            &&& forall|p: PageID| #[trigger]
                after.live(p) ==> table.live(p) || (p == top && top != root) || exists|y: int|
                    0 <= y < path.len() && #[trigger] made[y] == Some(p)
            &&& forall|p: PageID| #[trigger]
                table.live(p) && (forall|y: int|
                    0 <= y < path.len() && (#[trigger] path[y]).node.id == p ==> !table.current(
                        path[y],
                    )) ==> after.pages[p as int] == table.pages[p as int]
        }),
{
    let (up, page) = split_up(table, path);
    let (after, top) = split_path(table, root, path);
    assert(sound(table));
    assert(in_table(table, path)) by {
        assert forall|y: int| 0 <= y < path.len() implies (#[trigger] path[y]).node.id
            < table.pages.len() by {
            assert(table.holds(path[y]));
        }
    }
    lemma_split_path_grows(table, root, path);
    let (full, made) = lemma_split_up(table, path);
    assert forall|p: PageID| (forall|y: int|
        0 <= y < path.len() && (#[trigger] path[y]).node.id == p ==> !table.current(
            path[y],
        )) implies !#[trigger] at_work(table, path, p) by {}
    assert forall|y: int| 0 <= y < path.len() && table.current(#[trigger] path[y]) implies up.live(
        path[y].node.id,
    ) by {
        assert(table.live(path[y].node.id));
    }
    if !page.node.should_split() {
        (full, made)
    } else if !up.current(page) {
        lemma_halved_nodes(up, page);
        assert forall|p: PageID| #[trigger] up.live(p) <==> up.nodes().contains_key(p) by {}
        assert forall|p: PageID| #[trigger] after.live(p) <==> after.nodes().contains_key(p) by {}
        assert forall|p: PageID| #[trigger] table.live(p) implies after.pages[p as int]
            == up.pages[p as int] by {
            assert(up.live(p));
        }
        (full, made)
    } else {
        let to = up.next_pid();
        let halves = halved(up, page);
        let note = page.node.split_note(to);
        let all_made = made.update(0, Some(to));
        lemma_halved_nodes(up, page);
        lemma_hoisted_nodes(halves, root, note);
        node::law_page_splits_in_the_middle(page.node, to);
        assert forall|p: PageID| #[trigger] up.live(p) <==> up.nodes().contains_key(p) by {}
        assert forall|p: PageID| #[trigger] halves.live(p) <==> halves.nodes().contains_key(p) by {}
        assert forall|p: PageID| #[trigger] after.live(p) <==> after.nodes().contains_key(p) by {}
        assert(up.live(page.node.id));
        assert forall|y: int, z: int|
            0 <= y && z == y + 1 && z < path.len() implies (#[trigger] full[y]) == (
        if table.current(path[y]) && (#[trigger] all_made[z]) is Some {
            path[y].node.apply(FragView::ParentSplit(full[z].split_note(all_made[z]->0)))
        } else {
            path[y].node
        }) by {
            assert(all_made[z] == made[z]);
        }
        assert forall|y: int| 0 <= y < path.len() implies ((#[trigger] all_made[y]) is Some
            <==> table.current(path[y]) && full[y].should_split()) by {
            if y > 0 {
                assert(all_made[y] == made[y]);
            }
        }
        assert forall|y: int| 0 <= y < path.len() && table.current(#[trigger] path[y]) implies {
            &&& after.live(path[y].node.id)
            &&& after.nodes()[path[y].node.id] == (match all_made[y] {
                Some(t) => full[y].split_left(t),
                None => full[y],
            })
        } by {
            assert(up.live(path[y].node.id));
            assert(halves.live(path[y].node.id));
            if y > 0 {
                assert(path[0].node.id != path[y].node.id);
                assert(all_made[y] == made[y]);
            }
        }
        assert forall|y: int| 0 <= y < path.len() && (#[trigger] all_made[y]) is Some implies {
            &&& !table.live(all_made[y]->0)
            &&& after.live(all_made[y]->0)
            &&& after.nodes()[all_made[y]->0] == full[y].split_right(all_made[y]->0)
        } by {
            if y > 0 {
                assert(all_made[y] == made[y]);
                assert(up.live(made[y]->0));
                assert(table.current(path[0]));
                assert(made[y]->0 != page.node.id);
                assert(halves.live(made[y]->0));
            } else {
                if table.live(to) {
                    assert(up.live(to));
                }
                assert(halves.live(to));
            }
        }
        assert forall|y: int, z: int|
            0 <= y < z < path.len() && (#[trigger] all_made[y]) is Some implies all_made[y]
            != #[trigger] all_made[z] by {
            assert(all_made[z] == made[z]);
            if y == 0 {
                if made[z] is Some {
                    assert(up.live(made[z]->0));
                }
            } else {
                assert(made[y] != made[z]);
            }
        }
        assert forall|p: PageID| #[trigger] table.live(p) implies after.live(p) by {
            assert(up.live(p));
            assert(halves.live(p));
        }
        assert forall|p: PageID| #[trigger] after.live(p) implies table.live(p) || (p == top
            && top != root) || exists|y: int|
            0 <= y < path.len() && #[trigger] all_made[y] == Some(p) by {
            if halves.live(p) {
                if up.live(p) {
                    if !table.live(p) {
                        let y = choose|y: int| 0 <= y < path.len() && #[trigger] made[y] == Some(p);
                        assert(all_made[y] == Some(p));
                    }
                } else {
                    assert(p == to);
                    assert(all_made[0] == Some(p));
                }
            } else {
                assert(halves.live(page.node.id));
            }
        }
        if path[0].node.id == root {
            assert(!halves.live(top));
            if table.live(top) {
                assert(up.live(top));
                assert(halves.live(top));
            }
            assert forall|y: int| 0 <= y < path.len() implies #[trigger] all_made[y]
                != Some(top) by {
                if all_made[y] is Some {
                    if y > 0 {
                        assert(all_made[y] == made[y]);
                        assert(up.live(made[y]->0));
                    }
                    assert(halves.live(all_made[y]->0));
                }
            }
        }
        assert forall|p: PageID| #[trigger]
            table.live(p) && (forall|y: int|
                0 <= y < path.len() && (#[trigger] path[y]).node.id == p ==> !table.current(
                    path[y],
                )) implies after.pages[p as int] == table.pages[p as int] by {
            assert(up.live(p));
            assert(path[0].node.id != p);
            assert(halves.live(p));
        }
        (full, all_made)
    }
}

/// The table never shrinks when the pages of a path are split and a new root is
/// put on top.
proof fn lemma_split_path_grows(table: PagesView, root: PageID, path: Seq<FragsView>)
    requires
        in_table(table, path),
        path.len() > 0,
        sound(table),
        distinct(path),
        forall|y: int| 0 <= y < path.len() ==> table.holds(#[trigger] path[y]),
        split_path(table, root, path).0.pages.len() <= usize::MAX,
    ensures
        ({
            let (up, page) = split_up(table, path);
            &&& up.pages.len() <= usize::MAX
            &&& page.node.should_split() ==> halved(up, page).pages.len() <= usize::MAX
        }),
{
    let (up, page) = split_up(table, path);
    lemma_top_in_table(table, path);
    lemma_halved_grows(up, page);
    let halves = halved(up, page);
    let top = halves.next_pid();
    if halves.free.len() > 0 {
        assert(halves.free[halves.free.len() - 1] == top);
    }
    assert(top < halves.handed_out().pages.len());
}

/// The topmost page of a path, and the pages given back, stay in the table.
proof fn lemma_top_in_table(table: PagesView, path: Seq<FragsView>)
    requires
        in_table(table, path),
        path.len() > 0,
    ensures
        in_table(split_up(table, path).0, seq![split_up(table, path).1]),
    decreases path.len(),
{
    if path.len() > 1 {
        lemma_step_grows(table, path);
        lemma_top_in_table(after_step(table, path).0, after_step(table, path).1);
    }
}

} // verus!
