//! The page table: a log of changes for every page.
//!
//! A log only grows, so its length names one state of the page for ever. A
//! `Frags` is such a state, and a change made through it goes in only if the
//! page is still in that state.
use vstd::prelude::*;

use crate::frag::{Frag, FragView, ParentSplit};
use crate::key::PageID;
use crate::node::{Node, NodeView};
use crate::text;
use crate::text::{write_number, write_pids};

verus! {

/// A page: the changes made to it so far, and whether it is in use.
struct Page {
    log: Vec<Frag>,
    live: bool,
}

/// What a page stands for.
#[verifier::ext_equal]
pub struct PageView {
    pub log: Seq<FragView>,
    pub live: bool,
}

/// What a list of changes stands for.
pub open spec fn changes(log: Seq<Frag>) -> Seq<FragView> {
    Seq::new(log.len(), |i: int| log[i]@)
}

/// The content of a page after the changes in its log.
pub open spec fn replay(log: Seq<FragView>) -> NodeView
    decreases log.len(),
{
    if log.len() <= 1 {
        log[0]->Base_0
    } else {
        replay(log.drop_last()).apply(log.last())
    }
}

/// The log begins with content for the page `pid`, and each later change makes
/// sense on the content before it.
pub open spec fn log_wf(log: Seq<FragView>, pid: PageID) -> bool {
    &&& log.len() > 0 ==> log[0] is Base && log[0]->Base_0.id == pid
    &&& forall|k: int|
        1 <= k < log.len() ==> replay(#[trigger] log.take(k)).accepts(log[k])
}

impl PageView {
    /// A page that was never used.
    pub open spec fn vacant() -> PageView {
        PageView { log: Seq::empty(), live: false }
    }

    /// The page after one more change.
    pub open spec fn push(self, frag: FragView) -> PageView {
        PageView { log: self.log.push(frag), live: true }
    }
}

impl View for Page {
    type V = PageView;

    closed spec fn view(&self) -> PageView {
        PageView { log: changes(self.log@), live: self.live }
    }
}

/// What a page table stands for: its pages, and which of them were given back.
#[verifier::ext_equal]
pub struct PagesView {
    pub pages: Seq<PageView>,
    pub free: Seq<PageID>,
}

impl PagesView {
    /// Every log makes sense, a page in use has content, and the pages that
    /// were given back are out of use, each listed once.
    pub open spec fn wf(self) -> bool {
        &&& forall|pid: PageID|
            pid < self.pages.len() ==> log_wf((#[trigger] self.pages[pid as int]).log, pid)
        &&& forall|pid: PageID|
            pid < self.pages.len() && (#[trigger] self.pages[pid as int]).live
                ==> self.pages[pid as int].log.len() > 0
        &&& forall|i: int|
            0 <= i < self.free.len() ==> (#[trigger] self.free[i]) < self.pages.len()
                && !self.pages[self.free[i] as int].live
        &&& self.free.no_duplicates()
    }

    /// `pid` is in use.
    pub open spec fn live(self, pid: PageID) -> bool {
        pid < self.pages.len() && self.pages[pid as int].live
    }

    /// `pid` was handed out and is not in use yet.
    pub open spec fn reserved(self, pid: PageID) -> bool {
        &&& pid < self.pages.len()
        &&& !self.pages[pid as int].live
        &&& !self.free.contains(pid)
    }

    /// The content of the pages in use.
    pub open spec fn nodes(self) -> Map<PageID, NodeView> {
        Map::new(|pid: PageID| self.live(pid), |pid: PageID| replay(self.pages[pid as int].log))
    }

    /// The page table after one more change to `pid`.
    pub open spec fn push(self, pid: PageID, frag: FragView) -> PagesView {
        PagesView {
            pages: self.pages.update(pid as int, self.pages[pid as int].push(frag)),
            ..self
        }
    }

    /// The page that is handed out next.
    pub open spec fn next_pid(self) -> PageID {
        if self.free.len() > 0 {
            self.free.last()
        } else {
            self.pages.len() as PageID
        }
    }

    /// The page table after a page was handed out.
    pub open spec fn handed_out(self) -> PagesView {
        if self.free.len() > 0 {
            PagesView { free: self.free.drop_last(), ..self }
        } else {
            PagesView { pages: self.pages.push(PageView::vacant()), ..self }
        }
    }

    /// The page table after `pid` was given back.
    pub open spec fn given_back(self, pid: PageID) -> PagesView {
        PagesView {
            pages: self.pages.update(
                pid as int,
                PageView { live: false, ..self.pages[pid as int] },
            ),
            free: self.free.push(pid),
        }
    }

    /// No log of `before` was changed but by additions.
    pub open spec fn extends(self, before: PagesView) -> bool {
        &&& before.pages.len() <= self.pages.len()
        &&& forall|pid: PageID|
            pid < before.pages.len() ==> (#[trigger] before.pages[pid as int]).log.is_prefix_of(
                self.pages[pid as int].log,
            )
    }
}

/// How many pages there are, and which were given back.
pub open spec fn pages_text(view: PagesView) -> Seq<char> {
    "Pages { max: "@ + text::number_text(view.pages.len()) + ", free: "@ + text::pids_text(
        view.free,
    ) + " }\n"@
}

/// The page table.
pub struct Pages {
    pages: Vec<Page>,
    free: Vec<PageID>,
}

impl View for Pages {
    type V = PagesView;

    closed spec fn view(&self) -> PagesView {
        PagesView {
            pages: Seq::new(self.pages@.len(), |i: int| self.pages@[i]@),
            free: self.free@,
        }
    }
}

impl Default for Pages {
    /// An empty page table.
    fn default() -> (pages: Self)
        ensures
            pages@.wf(),
            pages@.pages == Seq::<PageView>::empty(),
            pages@.free == Seq::<PageID>::empty(),
    {
        let pages = Pages { pages: Vec::new(), free: Vec::new() };
        assert(pages@.pages =~= Seq::empty());
        pages
    }
}

impl Pages {
    /// Hands out a page: the one given back last, or else a new one.
    pub fn allocate(&mut self) -> (pid: PageID)
        requires
            old(self)@.wf(),
        ensures
            final(self)@.wf(),
            final(self)@.reserved(pid),
            pid == old(self)@.next_pid(),
            final(self)@ == old(self)@.handed_out(),
    {
        match self.free.pop() {
            Some(pid) => {
                assert(self@.pages =~= old(self)@.pages);
                assert(self@.free =~= old(self)@.free.drop_last());
                pid
            },
            None => {
                let pid: PageID = self.pages.len();
                self.pages.push(Page { log: Vec::new(), live: false });
                assert(self.pages@[pid as int]@.log =~= Seq::empty());
                assert(self@.pages =~= old(self)@.pages.push(PageView::vacant()));
                pid
            },
        }
    }

    /// Puts first content into a page that was handed out. A page in use is
    /// left alone.
    pub fn insert(&mut self, pid: PageID, frag: Frag) -> (done: Result<(), ()>)
        requires
            old(self)@.wf(),
            pid < old(self)@.pages.len(),
            !old(self)@.free.contains(pid),
            frag@ is Base,
            frag@->Base_0.id == pid,
        ensures
            final(self)@.wf(),
            done is Ok <==> !old(self)@.live(pid),
            done is Ok ==> final(self)@ == old(self)@.push(pid, frag@),
            done is Err ==> final(self)@ == old(self)@,
    {
        if self.pages[pid].live {
            return Err(());
        }
        proof {
            if self@.pages[pid as int].log.len() > 0 {
                lemma_replay_id(self@.pages[pid as int].log, pid);
            }
        }
        self.append(pid, frag);
        Ok(())
    }

    /// Gives a page back.
    pub fn free(&mut self, pid: PageID)
        requires
            old(self)@.wf(),
            pid < old(self)@.pages.len(),
            !old(self)@.free.contains(pid),
        ensures
            final(self)@.wf(),
            final(self)@ == old(self)@.given_back(pid),
    {
        self.pages[pid].live = false;
        self.free.push(pid);
        assert(self@.pages =~= old(self)@.pages.update(
            pid as int,
            PageView { live: false, ..old(self)@.pages[pid as int] },
        ));
        assert(self@.free =~= old(self)@.free.push(pid));
    }

    /// The present state of a page in use.
    pub fn get(&self, pid: PageID) -> (frags: Frags)
        requires
            self@.wf(),
            self@.live(pid),
        ensures
            frags.node@ == self@.nodes()[pid],
            frags.node.id == pid,
            self@.holds(frags@),
            self@.current(frags@),
    {
        let log = &self.pages[pid].log;
        let ghost cs = self@.pages[pid as int].log;
        assert(cs == changes(log@));
        let head: usize = log.len();
        let mut start: usize = head - 1;
        while !matches!(log[start], Frag::Base(_))
            invariant
                cs == changes(log@),
                start < log@.len(),
                cs[0] is Base,
            decreases start,
        {
            assert(cs[start as int] == log@[start as int]@);
            start -= 1;
        }
        assert(cs[start as int] == log@[start as int]@);
        let mut node = match &log[start] {
            Frag::Base(base) => base.clone(),
            _ => vstd::pervasive::unreached(),
        };
        let mut i: usize = start + 1;
        proof {
            let part = cs.take(i as int);
            assert(part.last() == cs[start as int]);
            assert(replay(part) == node@);
        }
        while i < head
            invariant
                cs == changes(log@),
                log_wf(cs, pid),
                1 <= i <= head == log@.len(),
                node@ == replay(cs.take(i as int)),
            decreases head - i,
        {
            assert(cs[i as int] == log@[i as int]@);
            proof {
                lemma_replay_push(cs.take(i as int), cs[i as int]);
                assert(cs.take(i + 1) =~= cs.take(i as int).push(cs[i as int]));
            }
            log[i].apply_to(&mut node);
            i += 1;
        }
        assert(cs.take(head as int) =~= cs);
        proof {
            lemma_replay_id(cs, pid);
        }
        Frags { node, head }
    }

    /// Writes how many pages there are, and which were given back.
    pub fn write_to(&self, out: &mut String)
        ensures
            final(out)@ == old(out)@ + pages_text(self@),
    {
        out.append("Pages { max: ");
        write_number(out, self.pages.len());
        out.append(", free: ");
        write_pids(out, &self.free);
        out.append(" }\n");
        assert(out@ =~= old(out)@ + pages_text(self@));
    }

    /// How many changes a page has seen.
    fn log_len(&self, pid: PageID) -> (len: usize)
        requires
            pid < self@.pages.len(),
        ensures
            len == self@.pages[pid as int].log.len(),
    {
        self.pages[pid].log.len()
    }

    /// Whether a page is in use.
    fn is_live(&self, pid: PageID) -> (live: bool)
        requires
            pid < self@.pages.len(),
        ensures
            live == self@.live(pid),
    {
        self.pages[pid].live
    }

    /// Adds a change to a page.
    fn append(&mut self, pid: PageID, frag: Frag)
        requires
            old(self)@.wf(),
            pid < old(self)@.pages.len(),
            !old(self)@.free.contains(pid),
            old(self)@.pages[pid as int].log.len() == 0 ==> frag@ is Base && frag@->Base_0.id
                == pid,
            old(self)@.pages[pid as int].log.len() > 0 ==> replay(
                old(self)@.pages[pid as int].log,
            ).accepts(frag@),
        ensures
            final(self)@.wf(),
            final(self)@ == old(self)@.push(pid, frag@),
    {
        let ghost before = self@.pages[pid as int].log;
        self.pages[pid].log.push(frag);
        self.pages[pid].live = true;
        assert(self@.pages[pid as int].log =~= before.push(frag@));
        assert(self@.pages =~= old(self)@.push(pid, frag@).pages);
        assert(self@.free =~= old(self)@.free);
        proof {
            lemma_log_wf_push(before, frag@, pid);
        }
    }
}

/// A state of a page: its content, and the length of its log at that time.
#[derive(Debug, PartialEq, Eq)]
pub struct Frags {
    pub node: Node,
    pub head: usize,
}

/// What a `Frags` stands for.
#[verifier::ext_equal]
pub struct FragsView {
    pub node: NodeView,
    pub head: nat,
}

impl View for Frags {
    type V = FragsView;

    open spec fn view(&self) -> FragsView {
        FragsView { node: self.node@, head: self.head as nat }
    }
}

impl FragsView {
    /// The state of the page after one more change.
    pub open spec fn advance(self, frag: FragView) -> FragsView {
        FragsView { node: self.node.apply(frag), head: self.head + 1 }
    }
}

impl PagesView {
    /// The page was in this state at some time.
    pub open spec fn holds(self, frags: FragsView) -> bool {
        &&& frags.node.id < self.pages.len()
        &&& 1 <= frags.head <= self.pages[frags.node.id as int].log.len()
        &&& frags.node == replay(self.pages[frags.node.id as int].log.take(frags.head as int))
    }

    /// The page is in use, and nothing was done to it since this state.
    pub open spec fn current(self, frags: FragsView) -> bool {
        &&& self.live(frags.node.id)
        &&& frags.head == self.pages[frags.node.id as int].log.len()
    }
}

/// How one more change adds to the content of a page.
pub proof fn lemma_replay_push(log: Seq<FragView>, frag: FragView)
    ensures
        log.len() == 0 ==> replay(log.push(frag)) == frag->Base_0,
        log.len() > 0 ==> replay(log.push(frag)) == replay(log).apply(frag),
{
    assert(log.push(frag).drop_last() =~= log);
}

/// The content of a page carries the number of the page.
pub proof fn lemma_replay_id(log: Seq<FragView>, pid: PageID)
    requires
        log_wf(log, pid),
        log.len() > 0,
    ensures
        replay(log).id == pid,
    decreases log.len(),
{
    if log.len() > 1 {
        let rest = log.drop_last();
        assert(rest =~= log.take(log.len() - 1));
        assert(replay(log.take(log.len() - 1)).accepts(log[log.len() - 1]));
        assert forall|k: int| 1 <= k < rest.len() implies replay(#[trigger] rest.take(k)).accepts(
            rest[k],
        ) by {
            assert(rest.take(k) =~= log.take(k));
        }
        lemma_replay_id(rest, pid);
    }
}

/// A change that makes sense on the content of a page may be added to its log.
pub proof fn lemma_log_wf_push(log: Seq<FragView>, frag: FragView, pid: PageID)
    requires
        log_wf(log, pid),
        log.len() == 0 ==> frag is Base && frag->Base_0.id == pid,
        log.len() > 0 ==> replay(log).accepts(frag),
    ensures
        log_wf(log.push(frag), pid),
{
    let new = log.push(frag);
    assert forall|k: int| 1 <= k < new.len() implies replay(#[trigger] new.take(k)).accepts(
        new[k],
    ) by {
        if k < log.len() {
            assert(new.take(k) =~= log.take(k));
        } else {
            assert(new.take(k) =~= log);
        }
    }
}

/// How one more change to a page shows in the content of the pages in use.
pub proof fn lemma_nodes_push(view: PagesView, pid: PageID, frag: FragView)
    requires
        pid < view.pages.len(),
    ensures
        view.pages[pid as int].log.len() == 0 ==> view.push(pid, frag).nodes()
            == view.nodes().insert(pid, frag->Base_0),
        view.pages[pid as int].log.len() > 0 ==> view.push(pid, frag).nodes()
            == view.nodes().insert(pid, replay(view.pages[pid as int].log).apply(frag)),
        view.push(pid, frag).extends(view),
{
    let log = view.pages[pid as int].log;
    lemma_replay_push(log, frag);
    let new = view.push(pid, frag);
    assert forall|p: PageID| new.live(p) <==> p == pid || view.live(p) by {}
    assert(new.nodes().dom() =~= view.nodes().dom().insert(pid));
    assert(new.nodes() =~= view.nodes().insert(pid, replay(log.push(frag))));
    assert(log.is_prefix_of(log.push(frag))) by {
        assert(log =~= log.push(frag).subrange(0, log.len() as int));
    }
    assert forall|p: PageID| p < view.pages.len() implies (
    #[trigger] view.pages[p as int]).log.is_prefix_of(new.pages[p as int].log) by {
        if p != pid {
            let other = view.pages[p as int].log;
            assert(other =~= other.subrange(0, other.len() as int));
        }
    }
}

/// A page stays in a state that it was in, as far as the past is concerned.
pub proof fn lemma_extends_holds(after: PagesView, before: PagesView, frags: FragsView)
    requires
        after.extends(before),
        before.holds(frags),
    ensures
        after.holds(frags),
{
    let pid = frags.node.id as int;
    let old_log = before.pages[pid].log;
    let new_log = after.pages[pid].log;
    assert(old_log.is_prefix_of(new_log));
    assert(new_log.take(frags.head as int) =~= old_log.take(frags.head as int));
}

/// A log that was never changed but by additions is a beginning of itself.
pub proof fn lemma_extends_same(view: PagesView, other: PagesView)
    requires
        view.pages == other.pages,
    ensures
        other.extends(view),
{
    assert forall|p: PageID| p < view.pages.len() implies (
    #[trigger] view.pages[p as int]).log.is_prefix_of(other.pages[p as int].log) by {
        let log = view.pages[p as int].log;
        assert(log =~= log.subrange(0, log.len() as int));
    }
}

/// Additions to additions are additions.
pub proof fn lemma_extends_transitive(a: PagesView, b: PagesView, c: PagesView)
    requires
        b.extends(a),
        c.extends(b),
    ensures
        c.extends(a),
{
    assert forall|p: PageID| p < a.pages.len() implies (
    #[trigger] a.pages[p as int]).log.is_prefix_of(c.pages[p as int].log) by {
        let x = a.pages[p as int].log;
        let y = b.pages[p as int].log;
        let z = c.pages[p as int].log;
        assert(x.is_prefix_of(y));
        assert(y.is_prefix_of(z));
        assert(x =~= z.subrange(0, x.len() as int)) by {
            assert(x =~= y.subrange(0, x.len() as int));
            assert(y =~= z.subrange(0, y.len() as int));
        }
    }
}

/// A state of a page that is current shows the page as it is now.
pub proof fn lemma_current_content(view: PagesView, frags: FragsView)
    requires
        view.holds(frags),
        view.current(frags),
    ensures
        view.nodes().contains_key(frags.node.id),
        view.nodes()[frags.node.id] == frags.node,
{
    let log = view.pages[frags.node.id as int].log;
    assert(log.take(log.len() as int) =~= log);
}

/// Handing out a page changes no page in use, and the page handed out is not
/// in use.
pub proof fn lemma_allocated(before: PagesView, after: PagesView, pid: PageID)
    requires
        after.reserved(pid),
        after.pages == before.pages || after.pages == before.pages.push(PageView::vacant()),
    ensures
        after.nodes() == before.nodes(),
        after.extends(before),
        !before.nodes().contains_key(pid),
        !before.live(pid),
        forall|p: PageID| #[trigger]
            before.live(p) ==> p < after.pages.len() && after.pages[p as int]
                == before.pages[p as int],
{
    assert(after.nodes() =~= before.nodes());
    assert forall|p: PageID| p < before.pages.len() implies (
    #[trigger] before.pages[p as int]).log.is_prefix_of(after.pages[p as int].log) by {
        let log = before.pages[p as int].log;
        assert(log =~= log.subrange(0, log.len() as int));
    }
}

/// Giving a page back takes its content out of use.
pub proof fn lemma_freed(before: PagesView, after: PagesView, pid: PageID)
    requires
        pid < before.pages.len(),
        after.pages == before.pages.update(
            pid as int,
            PageView { live: false, ..before.pages[pid as int] },
        ),
    ensures
        after.nodes() == before.nodes().remove(pid),
        after.extends(before),
{
    assert(after.nodes() =~= before.nodes().remove(pid));
    assert forall|p: PageID| p < before.pages.len() implies (
    #[trigger] before.pages[p as int]).log.is_prefix_of(after.pages[p as int].log) by {
        let log = before.pages[p as int].log;
        assert(log =~= log.subrange(0, log.len() as int));
    }
}

impl Clone for Frags {
    fn clone(&self) -> (copy: Self)
        ensures
            copy@ == self@,
    {
        Frags { node: self.node.clone(), head: self.head }
    }
}

impl Frags {
    /// Adds a change to the page, if the page is still in this state: `Ok`
    /// with the new length of its log. Otherwise `Err` with the length that
    /// the log has, and nothing is changed.
    pub fn cap(&mut self, pages: &mut Pages, frag: Frag) -> (done: Result<usize, usize>)
        requires
            old(pages)@.wf(),
            old(pages)@.holds(old(self)@),
            old(pages)@.current(old(self)@) ==> old(self)@.node.accepts(frag@),
        ensures
            final(pages)@.wf(),
            final(pages)@.holds(final(self)@),
            done is Ok <==> old(pages)@.current(old(self)@),
            match done {
                Ok(head) => {
                    &&& head == old(self).head + 1
                    &&& final(self)@ == old(self)@.advance(frag@)
                    &&& final(pages)@ == old(pages)@.push(old(self).node.id, frag@)
                    &&& final(pages)@.current(final(self)@)
                },
                Err(head) => {
                    &&& head == old(pages)@.pages[old(self).node.id as int].log.len()
                    &&& *final(self) == *old(self)
                    &&& final(pages)@ == old(pages)@
                },
            },
    {
        let pid: PageID = self.node.id;
        let len: usize = pages.log_len(pid);
        if !pages.is_live(pid) || len != self.head {
            return Err(len);
        }
        let ghost log = pages@.pages[pid as int].log;
        proof {
            assert(log.take(log.len() as int) =~= log);
            assert(!pages@.free.contains(pid));
            lemma_replay_push(log, frag@);
            lemma_log_wf_push(log, frag@, pid);
            lemma_replay_id(log.push(frag@), pid);
        }
        frag.apply_to(&mut self.node);
        pages.append(pid, frag);
        self.head = pages.log_len(pid);
        proof {
            let new = pages@.pages[pid as int].log;
            assert(new.take(new.len() as int) =~= new);
        }
        Ok(self.head)
    }

    /// Replaces the content of the page, if the page is still in this state.
    pub fn cas(&mut self, pages: &mut Pages, base: Frag) -> (done: Result<usize, usize>)
        requires
            old(pages)@.wf(),
            old(pages)@.holds(old(self)@),
            base@ is Base,
            base@->Base_0.id == old(self).node.id,
        ensures
            final(pages)@.wf(),
            final(pages)@.holds(final(self)@),
            done is Ok <==> old(pages)@.current(old(self)@),
            match done {
                Ok(head) => {
                    &&& head == old(self).head + 1
                    &&& final(self)@ == old(self)@.advance(base@)
                    &&& final(pages)@ == old(pages)@.push(old(self).node.id, base@)
                    &&& final(pages)@.current(final(self)@)
                },
                Err(head) => {
                    &&& head == old(pages)@.pages[old(self).node.id as int].log.len()
                    &&& *final(self) == *old(self)
                    &&& final(pages)@ == old(pages)@
                },
            },
    {
        self.cap(pages, base)
    }

    /// Whether the page held more entries than it should.
    pub fn should_split(&self) -> (split: bool)
        ensures
            split == self@.node.should_split(),
    {
        self.node.should_split()
    }

    /// The two parts of the page, the right one for the page `id`, and the
    /// note of the split for the page above.
    pub fn split(&self, id: PageID) -> (parts: (Frag, Frag, ParentSplit))
        requires
            self@.node.should_split(),
        ensures
            parts.0@ == FragView::Base(self@.node.split_left(id)),
            parts.1@ == FragView::Base(self@.node.split_right(id)),
            parts.2@ == self@.node.split_note(id),
    {
        let (lhs, rhs) = self.node.split(id);
        let parent_split = ParentSplit { at: rhs.lo.clone(), to: id, from: self.node.id };
        (Frag::Base(lhs), Frag::Base(rhs), parent_split)
    }
}

/// A state that is no longer that of its page never is again: a change made
/// through it will always be refused.
pub proof fn law_old_state_stays_old(before: PagesView, after: PagesView, frags: FragsView)
    requires
        before.holds(frags),
        frags.head < before.pages[frags.node.id as int].log.len(),
        after.extends(before),
    ensures
        after.holds(frags),
        !after.current(frags),
{
    lemma_extends_holds(after, before, frags);
    assert(before.pages[frags.node.id as int].log.is_prefix_of(
        after.pages[frags.node.id as int].log,
    ));
}

/// Of two changes made through one state of a page, only the first goes in.
pub proof fn law_one_change_per_state(view: PagesView, frags: FragsView, frag: FragView)
    requires
        view.holds(frags),
        view.current(frags),
    ensures
        view.push(frags.node.id, frag).holds(frags),
        !view.push(frags.node.id, frag).current(frags),
{
    lemma_nodes_push(view, frags.node.id, frag);
    lemma_extends_holds(view.push(frags.node.id, frag), view, frags);
}

/// A change goes to the log of its page, and to no other.
pub proof fn law_change_goes_to_one_log(
    view: PagesView,
    pid: PageID,
    frag: FragView,
    other: PageID,
)
    requires
        pid < view.pages.len(),
        other < view.pages.len(),
    ensures
        ({
            let after = view.push(pid, frag);
            &&& after.pages.len() == view.pages.len()
            &&& after.pages[pid as int].log == view.pages[pid as int].log.push(frag)
            &&& after.pages[pid as int].live
            &&& other != pid ==> after.pages[other as int] == view.pages[other as int]
            &&& after.free == view.free
        }),
{
}

/// A page that is given back is out of use, keeps its log, and is the next to be
/// handed out; then all is as if it had been kept back. The other pages do not
/// change.
pub proof fn law_page_given_back_comes_next(view: PagesView, pid: PageID, other: PageID)
    requires
        pid < view.pages.len(),
        other < view.pages.len(),
    ensures
        ({
            let after = view.given_back(pid);
            &&& after.next_pid() == pid
            &&& after.pages.len() == view.pages.len()
            &&& !after.pages[pid as int].live
            &&& after.pages[pid as int].log == view.pages[pid as int].log
            &&& other != pid ==> after.pages[other as int] == view.pages[other as int]
            &&& after.handed_out().free == view.free
            &&& after.handed_out().pages == after.pages
        }),
{
    assert(view.given_back(pid).handed_out().free =~= view.free);
}

/// Where no page was given back, the page that is handed out is a new one at the
/// end of the table.
pub proof fn law_new_page_at_the_end(view: PagesView, pid: PageID)
    requires
        view.free.len() == 0,
        pid < view.pages.len() <= usize::MAX,
    ensures
        view.next_pid() == view.pages.len(),
        view.handed_out().pages.len() == view.pages.len() + 1,
        view.handed_out().pages[view.pages.len() as int].log.len() == 0,
        !view.handed_out().pages[view.pages.len() as int].live,
        view.handed_out().pages[pid as int] == view.pages[pid as int],
        view.handed_out().free.len() == 0,
{
}

/// A page has the content that was last put into it as a whole, with the changes
/// that were made since, and nothing before that shows.
pub proof fn law_content_since_base(before: Seq<FragView>, base: NodeView, later: Seq<FragView>)
    ensures
        replay(before.push(FragView::Base(base)) + later) == replay(
            seq![FragView::Base(base)] + later,
        ),
        replay(seq![FragView::Base(base)]) == base,
        later.len() > 0 ==> replay(seq![FragView::Base(base)] + later) == replay(
            seq![FragView::Base(base)] + later.drop_last(),
        ).apply(later.last()),
    decreases later.len(),
{
    let long = before.push(FragView::Base(base)) + later;
    let short = seq![FragView::Base(base)] + later;
    if later.len() == 0 {
        assert(long =~= before.push(FragView::Base(base)));
        assert(short =~= seq![FragView::Base(base)]);
        lemma_replay_push(before, FragView::Base(base));
    } else {
        law_content_since_base(before, base, later.drop_last());
        assert(long.drop_last() =~= before.push(FragView::Base(base)) + later.drop_last());
        assert(short.drop_last() =~= seq![FragView::Base(base)] + later.drop_last());
    }
}

/// The text of a page table says how many pages it has, and which were given
/// back.
pub proof fn law_pages_text(view: PagesView)
    ensures
        pages_text(view) == "Pages { max: "@ + text::number_text(view.pages.len())
            + ", free: ["@ + Seq::new(
            view.free.len(),
            |i: int|
                (if i == 0 {
                    Seq::<char>::empty()
                } else {
                    ", "@
                }) + text::number_text(view.free[i] as nat),
        ).flatten() + "] }\n"@,
{
    text::law_joined(text::pid_texts(view.free));
    reveal_strlit(", free: ");
    reveal_strlit(", free: [");
    reveal_strlit("[");
    reveal_strlit("]");
    reveal_strlit(" }\n");
    reveal_strlit("] }\n");
    let a = Seq::new(
        view.free.len(),
        |i: int|
            (if i == 0 {
                Seq::<char>::empty()
            } else {
                ", "@
            }) + text::number_text(view.free[i] as nat),
    );
    let b = Seq::new(
        view.free.len(),
        |i: int|
            (if i == 0 {
                Seq::<char>::empty()
            } else {
                ", "@
            }) + text::pid_texts(view.free)[i],
    );
    assert(a =~= b);
    assert(pages_text(view) =~= "Pages { max: "@ + text::number_text(view.pages.len())
        + ", free: ["@ + a.flatten() + "] }\n"@);
}

/// A page table has no more pages than there are page numbers.
pub proof fn lemma_table_fits(pages: Pages)
    ensures
        pages@.pages.len() <= usize::MAX,
{
    assert(pages.pages.len() == pages.pages@.len());
}

} // verus!
